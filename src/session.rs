//! A computation pass over the two text blocks, its result, and the display
//! of an amount as hours and minutes.

use vstd::prelude::*;
use crate::daily::{DailyTotals, with_additions};
use crate::calendar::Day;
use crate::timesheet::{
    EntreeHorsClientele,
    lines_of,
    off_entries,
    off_additions,
    on_additions,
    work_total,
    travel_total,
    parser_donnees_hors_clientele,
    parser_donnees_clientele,
    room_before_block,
    MAX_DURATION_CENTIS,
};
use crate::text::string_of;

verus! {

/// Sum of the durations of a list of off-client entries.
pub open spec fn sum_durations(es: Seq<(Seq<char>, Option<Seq<char>>, Option<Seq<char>>, int)>) -> int
    decreases es.len(),
{
    if es.len() == 0 {
        0
    } else {
        sum_durations(es.drop_last()) + es.last().3
    }
}

/// The three category totals of a pass, in centiseconds, and the off-client
/// entries in input order.
#[derive(Clone, Debug)]
pub struct ResultatCalcul {
    pub hors_clientele: i128,
    pub travail_clientele: i128,
    pub deplacement: i128,
    pub details_hors_clientele: Vec<EntreeHorsClientele>,
}

impl ResultatCalcul {
    pub open spec fn details_view(self) -> Seq<(Seq<char>, Option<Seq<char>>, Option<Seq<char>>, int)> {
        self.details_hors_clientele@.map_values(|e: EntreeHorsClientele| e@)
    }

    /// The off-client total is the sum of the entries' durations.
    pub open spec fn consistent(self) -> bool {
        self.hors_clientele == sum_durations(self.details_view())
    }

    /// This is the result of a pass over the off-client text `off` and the
    /// on-client text `on`.
    pub open spec fn describes(self, off: Seq<char>, on: Seq<char>) -> bool {
        &&& self.details_view() == off_entries(lines_of(off))
        &&& self.consistent()
        &&& self.travail_clientele == work_total(lines_of(on))
        &&& self.deplacement == travel_total(lines_of(on))
    }

    /// Puts the off-client entries and the on-client totals together; the
    /// off-client total is the sum of the entries' durations.
    pub fn assembler(details: Vec<EntreeHorsClientele>, travail: i128, deplacement: i128) -> (r:
        ResultatCalcul)
        ensures
            r.details_hors_clientele@ == details@,
            r.consistent(),
            r.travail_clientele == travail,
            r.deplacement == deplacement,
    {
        let ghost es = details@.map_values(|e: EntreeHorsClientele| e@);
        let mut total: i128 = 0;
        let mut k: usize = 0;
        while k < details.len()
            invariant
                k <= details@.len(),
                es == details@.map_values(|e: EntreeHorsClientele| e@),
                total == sum_durations(es.subrange(0, k as int)),
                -k * 0x8000_0000_0000_0000 <= total <= k * 0x8000_0000_0000_0000,
            decreases details@.len() - k,
        {
            assert(es.subrange(0, k + 1).drop_last() =~= es.subrange(0, k as int));
            proof {
                assert(k * 0x8000_0000_0000_0000 <= 0xffff_ffff_ffff_fffe * 0x8000_0000_0000_0000)
                    by (nonlinear_arith)
                    requires
                        k <= 0xffff_ffff_ffff_fffe,
                ;
            }
            total = total + details[k].duree as i128;
            k = k + 1;
        }
        assert(es.subrange(0, k as int) =~= es);
        ResultatCalcul { hors_clientele: total, travail_clientele: travail, deplacement, details_hors_clientele: details }
    }
}

/// The message left after a pass.
pub open spec fn done_message() -> Seq<char> {
    "Calculs terminés avec succès !"@
}

/// The two text blocks, the result of the last pass, a status message and the
/// amounts per day of the last pass.
pub struct GestionTempsApp {
    pub donnees_hors_clientele: String,
    pub donnees_clientele: String,
    pub resultat: Option<ResultatCalcul>,
    pub status_message: String,
    pub temps_par_jour: DailyTotals,
}

impl GestionTempsApp {
    /// Empty texts, no result, no message, no day.
    pub fn new() -> (r: GestionTempsApp)
        ensures
            r.donnees_hors_clientele@.len() == 0,
            r.donnees_clientele@.len() == 0,
            r.resultat is None,
            r.status_message@.len() == 0,
            r.temps_par_jour@ == Map::<Day, int>::empty(),
    {
        GestionTempsApp {
            donnees_hors_clientele: String::new(),
            donnees_clientele: String::new(),
            resultat: None,
            status_message: String::new(),
            temps_par_jour: DailyTotals::new(),
        }
    }

    /// Runs a pass over the two texts: the result replaces the previous one,
    /// and the amounts per day start again from nothing.
    pub fn calculer_resultats(&mut self)
        ensures
            final(self).donnees_hors_clientele@ == old(self).donnees_hors_clientele@,
            final(self).donnees_clientele@ == old(self).donnees_clientele@,
            final(self).resultat matches Some(r) && r.describes(
                old(self).donnees_hors_clientele@,
                old(self).donnees_clientele@,
            ),
            final(self).temps_par_jour@ == with_additions(
                Map::<Day, int>::empty(),
                off_additions(lines_of(old(self).donnees_hors_clientele@)) + on_additions(
                    lines_of(old(self).donnees_clientele@),
                ),
            ),
            final(self).status_message@ == done_message(),
    {
        self.status_message = String::new();
        self.temps_par_jour.clear();
        let details = parser_donnees_hors_clientele(self.donnees_hors_clientele.as_str(), &mut self.temps_par_jour);
        let ghost mid = self.temps_par_jour@;
        proof {
            assert(0x1_0000_0000_0000_0000 * MAX_DURATION_CENTIS <= room_before_block());
        }
        let (travail, deplacement) = parser_donnees_clientele(self.donnees_clientele.as_str(), &mut self.temps_par_jour);
        proof {
            crate::timesheet::lemma_with_additions_concat(
                Map::<Day, int>::empty(),
                off_additions(lines_of(self.donnees_hors_clientele@)),
                on_additions(lines_of(self.donnees_clientele@)),
            );
        }
        self.resultat = Some(ResultatCalcul::assembler(details, travail, deplacement));
        let msg = crate::text::chars_of("Calculs terminés avec succès !");
        self.status_message = string_of(msg.as_slice());
    }

    /// Clears both texts, the result, the message and the amounts per day.
    pub fn effacer(&mut self)
        ensures
            final(self).donnees_hors_clientele@.len() == 0,
            final(self).donnees_clientele@.len() == 0,
            final(self).resultat is None,
            final(self).status_message@.len() == 0,
            final(self).temps_par_jour@ == Map::<Day, int>::empty(),
    {
        self.donnees_hors_clientele = String::new();
        self.donnees_clientele = String::new();
        self.resultat = None;
        self.status_message = String::new();
        self.temps_par_jour.clear();
    }
}


/// The amounts per day that a pass leaves (see `calculer_resultats`) hold a
/// day exactly when one of the pass's own lines was read with that date:
/// nothing of an earlier pass remains.
pub proof fn lemma_pass_days(off: Seq<char>, on: Seq<char>)
    ensures
        forall|d: Day| #[trigger]
            with_additions(
                Map::<Day, int>::empty(),
                off_additions(lines_of(off)) + on_additions(lines_of(on)),
            ).contains_key(d) <==> exists|i: int|
                0 <= i < (off_additions(lines_of(off)) + on_additions(lines_of(on))).len() && (
                #[trigger] (off_additions(lines_of(off)) + on_additions(lines_of(on)))[i]).0 == d,
{
    crate::daily::lemma_days_come_from_additions(
        off_additions(lines_of(off)) + on_additions(lines_of(on)),
    );
}

impl Default for GestionTempsApp {
    /// Same as `GestionTempsApp::new`.
    fn default() -> (r: GestionTempsApp)
        ensures
            r.donnees_hors_clientele@.len() == 0,
            r.donnees_clientele@.len() == 0,
            r.resultat is None,
            r.status_message@.len() == 0,
            r.temps_par_jour@ == Map::<Day, int>::empty(),
    {
        GestionTempsApp::new()
    }
}

pub open spec fn digit_char(d: nat) -> char {
    ('0' as u32 + d) as char
}

/// The decimal digits of `n`, without leading zeros.
pub open spec fn decimal_text(n: nat) -> Seq<char>
    decreases n,
{
    if n < 10 {
        seq![digit_char(n)]
    } else {
        decimal_text(n / 10).push(digit_char(n % 10))
    }
}

/// The decimal digits of `n`, at least two.
pub open spec fn two_digits(n: nat) -> Seq<char> {
    if n < 10 {
        seq!['0', digit_char(n)]
    } else {
        decimal_text(n)
    }
}

/// `HHhMM` for an amount of centiseconds: whole hours, then whole minutes of
/// what is left, each on at least two digits; a negative amount shows as
/// `00h00`.
pub open spec fn hours_minutes_text(centis: int) -> Seq<char> {
    let c = if centis < 0 {
        0
    } else {
        centis
    };
    two_digits((c / 360_000) as nat) + seq!['h'] + two_digits(((c % 360_000) / 6_000) as nat)
}

fn push_decimal(out: &mut Vec<char>, n: u128)
    ensures
        final(out)@ == old(out)@ + decimal_text(n as nat),
    decreases n,
{
    if n >= 10 {
        push_decimal(out, n / 10);
    }
    let d = (n % 10) as u32;
    out.push(char_from_digit(d));
    assert(final(out)@ =~= old(out)@ + decimal_text(n as nat));
}

fn char_from_digit(d: u32) -> (c: char)
    requires
        d < 10,
    ensures
        c == digit_char(d as nat),
{
    if d == 0 {
        '0'
    } else if d == 1 {
        '1'
    } else if d == 2 {
        '2'
    } else if d == 3 {
        '3'
    } else if d == 4 {
        '4'
    } else if d == 5 {
        '5'
    } else if d == 6 {
        '6'
    } else if d == 7 {
        '7'
    } else if d == 8 {
        '8'
    } else {
        '9'
    }
}

fn push_two_digits(out: &mut Vec<char>, n: u128)
    ensures
        final(out)@ == old(out)@ + two_digits(n as nat),
{
    if n < 10 {
        out.push('0');
        out.push(char_from_digit(n as u32));
        assert(final(out)@ =~= old(out)@ + two_digits(n as nat));
    } else {
        push_decimal(out, n);
    }
}

/// An amount of centiseconds written as `HHhMM` (see `hours_minutes_text`).
pub fn format_duree_en_heures(duree: i128) -> (r: String)
    ensures
        r@ == hours_minutes_text(duree as int),
{
    let c: u128 = if duree < 0 {
        0
    } else {
        duree as u128
    };
    let mut out: Vec<char> = Vec::new();
    push_two_digits(&mut out, c / 360_000);
    out.push('h');
    push_two_digits(&mut out, (c % 360_000) / 6_000);
    assert(out@ =~= hours_minutes_text(duree as int));
    string_of(out.as_slice())
}


/// One wedge of the pie chart: its category (0 off-client, 1 on-client work,
/// 2 travel), the amount drawn before it and its own amount, in centiseconds.
#[derive(Clone, Copy, Debug, PartialEq, Eq, Structural)]
pub struct Section {
    pub categorie: usize,
    pub debut: i128,
    pub valeur: i128,
}

pub open spec fn positive_part(v: int) -> int {
    if v > 0 {
        v
    } else {
        0
    }
}

/// The wedges for the three category amounts `a`, `b`, `c`: none where they
/// add up to zero; otherwise one per positive amount, in category order, each
/// starting where the positive amounts before it end.
pub open spec fn chart_sections(a: int, b: int, c: int) -> Seq<(int, int, int)> {
    if a + b + c == 0 {
        seq![]
    } else {
        let s0: Seq<(int, int, int)> = if a > 0 {
            seq![(0int, 0int, a)]
        } else {
            seq![]
        };
        let s1: Seq<(int, int, int)> = if b > 0 {
            seq![(1int, positive_part(a), b)]
        } else {
            seq![]
        };
        let s2: Seq<(int, int, int)> = if c > 0 {
            seq![(2int, positive_part(a) + positive_part(b), c)]
        } else {
            seq![]
        };
        s0 + s1 + s2
    }
}

impl ResultatCalcul {
    /// Sum of the three category totals.
    pub open spec fn grand_total(self) -> int {
        self.hors_clientele + self.travail_clientele + self.deplacement
    }

    /// The wedges of the pie chart of the three category totals (see
    /// `chart_sections`); each spans its share of `grand_total` of the turn.
    pub fn sections_camembert(&self) -> (r: Vec<Section>)
        requires
            i128::MIN <= self.hors_clientele + self.travail_clientele <= i128::MAX,
            i128::MIN <= self.grand_total() <= i128::MAX,
            positive_part(self.hors_clientele as int) + positive_part(self.travail_clientele as int)
                <= i128::MAX,
        ensures
            r@.map_values(|s: Section| (s.categorie as int, s.debut as int, s.valeur as int))
                == chart_sections(
                self.hors_clientele as int,
                self.travail_clientele as int,
                self.deplacement as int,
            ),
    {
        let (a, b, c) = (self.hors_clientele, self.travail_clientele, self.deplacement);
        let mut r: Vec<Section> = Vec::new();
        if a + b + c == 0 {
            assert(r@.map_values(|s: Section| (s.categorie as int, s.debut as int, s.valeur as int))
                =~= chart_sections(a as int, b as int, c as int));
            return r;
        }
        let mut debut: i128 = 0;
        if a > 0 {
            r.push(Section { categorie: 0, debut: 0, valeur: a });
            debut = a;
        }
        if b > 0 {
            r.push(Section { categorie: 1, debut, valeur: b });
            debut = debut + b;
        }
        if c > 0 {
            r.push(Section { categorie: 2, debut, valeur: c });
        }
        assert(r@.map_values(|s: Section| (s.categorie as int, s.debut as int, s.valeur as int))
            =~= chart_sections(a as int, b as int, c as int));
        r
    }
}

} // verus!

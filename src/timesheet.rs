//! Reading the two timesheet blocks: durations between timestamps, the
//! off-client activity lines and the on-client work-order lines.

use vstd::prelude::*;
use crate::calendar::{Day, Stamp, datetime_parse, date_parse, parse_datetime, parse_date, seconds_between};
use crate::daily::{DailyTotals, with_additions};
use crate::decimal::{hours_value, parse_hours, as_int_option, MAX_VALUE_CENTIS, CENTIS_PER_HOUR};
use crate::text::{
    trim,
    split_on,
    has_prefix,
    has_infix,
    lowercase_of,
    chars_of,
    trim_chars,
    split_chars,
    starts_with_chars,
    contains_chars,
    lowercase,
    string_of,
};

verus! {

/// Format of a timestamp: day/month/year hour:minute.
pub open spec fn stamp_format() -> Seq<char> {
    "%d/%m/%Y %H:%M"@
}

/// Centiseconds from `start` to `end`, two day/month/year hour:minute
/// timestamps; zero where either is empty or does not read as one.
pub open spec fn duration_centis(start: Seq<char>, end: Seq<char>) -> int {
    if start.len() == 0 || end.len() == 0 {
        0
    } else {
        match (datetime_parse(start, stamp_format()), datetime_parse(end, stamp_format())) {
            (Some(a), Some(b)) => (b.seconds() - a.seconds()) * 100,
            _ => 0,
        }
    }
}

/// Largest size of a duration between two timestamps, in centiseconds.
pub const MAX_DURATION_CENTIS: i64 = 2_000_000_000_000_000;

proof fn lemma_stamp_seconds_bound(st: Stamp)
    requires
        st.valid(),
    ensures
        -10_000_000_000_000 <= st.seconds() <= 10_000_000_000_000,
{
    let y = st.date.year as int;
    let p = y - 1;
    assert(-262_144 <= p <= 262_141);
    assert(-65_536 <= p / 4 <= 65_536);
    assert(-2_622 <= p / 100 <= 2_622);
    assert(-656 <= p / 400 <= 656);
    let n = st.date.number();
    assert(-100_000_000 <= n <= 100_000_000);
    assert(-8_640_000_000_000 <= n * 86400 <= 8_640_000_000_000) by (nonlinear_arith)
        requires
            -100_000_000 <= n <= 100_000_000,
    ;
}

/// Centiseconds from `start` to `end` (see `duration_centis`).
pub fn duration_of(start: &[char], end: &[char]) -> (r: i64)
    ensures
        r == duration_centis(start@, end@),
        -MAX_DURATION_CENTIS <= r <= MAX_DURATION_CENTIS,
{
    if start.len() == 0 || end.len() == 0 {
        return 0;
    }
    let a = parse_datetime(start, "%d/%m/%Y %H:%M");
    let b = parse_datetime(end, "%d/%m/%Y %H:%M");
    match (a, b) {
        (Some(a), Some(b)) => {
            proof {
                lemma_stamp_seconds_bound(a);
                lemma_stamp_seconds_bound(b);
            }
            let secs = seconds_between(&a, &b);
            secs * 100
        },
        _ => 0,
    }
}

/// Duration in centiseconds between two day/month/year hour:minute
/// timestamps; zero where either is empty or does not read as one. It is
/// negative when `fin` comes before `debut`.
pub fn calculer_duree(debut: &str, fin: &str) -> (r: i64)
    ensures
        r == duration_centis(debut@, fin@),
{
    let a = chars_of(debut);
    let b = chars_of(fin);
    duration_of(a.as_slice(), b.as_slice())
}


/// One off-client activity: its description, its start and end as written,
/// and its duration in centiseconds.
#[derive(Clone, Debug)]
pub struct EntreeHorsClientele {
    pub description: String,
    pub debut: Option<String>,
    pub fin: Option<String>,
    pub duree: i64,
}

impl EntreeHorsClientele {
    pub open spec fn view(self) -> (Seq<char>, Option<Seq<char>>, Option<Seq<char>>, int) {
        (
            self.description@,
            match self.debut {
                Some(t) => Some(t@),
                None => None,
            },
            match self.fin {
                Some(t) => Some(t@),
                None => None,
            },
            self.duree as int,
        )
    }
}

/// The lines of a text block.
pub open spec fn lines_of(text: Seq<char>) -> Seq<Seq<char>> {
    split_on(text, '\n')
}

/// The tab-separated fields of a line, once trimmed.
pub open spec fn fields_of(line: Seq<char>) -> Seq<Seq<char>> {
    split_on(trim(line), '\t')
}

/// A description that names the lunch break, in any case.
pub open spec fn is_lunch_break(description: Seq<char>) -> bool {
    has_infix(lowercase_of(description), "pause déjeuner"@)
}

/// An off-client line that yields an entry: not blank, at least four fields,
/// and not the lunch break.
pub open spec fn off_line_kept(line: Seq<char>) -> bool {
    &&& trim(line).len() > 0
    &&& fields_of(line).len() >= 4
    &&& !is_lunch_break(fields_of(line)[1])
}

pub open spec fn off_start(line: Seq<char>) -> Seq<char> {
    trim(fields_of(line)[2])
}

pub open spec fn off_end(line: Seq<char>) -> Seq<char> {
    trim(fields_of(line)[3])
}

/// The entry of a kept off-client line.
pub open spec fn off_entry(line: Seq<char>) -> (Seq<char>, Option<Seq<char>>, Option<Seq<char>>, int) {
    (
        fields_of(line)[1],
        Some(off_start(line)),
        Some(off_end(line)),
        duration_centis(off_start(line), off_end(line)),
    )
}

/// The day under which an off-client start is counted: the date of the first
/// of day/month/year hour:minute, day/month/year hour:minute:second and
/// year-month-day hour:minute that reads it.
pub open spec fn off_day(start: Seq<char>) -> Option<Day> {
    match datetime_parse(start, "%d/%m/%Y %H:%M"@) {
        Some(t) => Some(t.date),
        None => match datetime_parse(start, "%d/%m/%Y %H:%M:%S"@) {
            Some(t) => Some(t.date),
            None => match datetime_parse(start, "%Y-%m-%d %H:%M"@) {
                Some(t) => Some(t.date),
                None => None,
            },
        },
    }
}

/// Entries of the off-client lines, in order.
pub open spec fn off_entries(lines: Seq<Seq<char>>) -> Seq<
    (Seq<char>, Option<Seq<char>>, Option<Seq<char>>, int),
>
    decreases lines.len(),
{
    if lines.len() == 0 {
        seq![]
    } else if off_line_kept(lines.last()) {
        off_entries(lines.drop_last()).push(off_entry(lines.last()))
    } else {
        off_entries(lines.drop_last())
    }
}

/// What one off-client line adds to the daily totals.
pub open spec fn off_line_additions(line: Seq<char>) -> Seq<(Day, int)> {
    if off_line_kept(line) {
        match off_day(off_start(line)) {
            Some(d) => seq![(d, duration_centis(off_start(line), off_end(line)))],
            None => seq![],
        }
    } else {
        seq![]
    }
}

/// What the off-client lines add to the daily totals, in order.
pub open spec fn off_additions(lines: Seq<Seq<char>>) -> Seq<(Day, int)>
    decreases lines.len(),
{
    if lines.len() == 0 {
        seq![]
    } else {
        off_additions(lines.drop_last()) + off_line_additions(lines.last())
    }
}

/// The day that an off-client start reads as (see `off_day`).
fn off_day_of(start: &[char]) -> (r: Option<Day>)
    ensures
        r == off_day(start@),
{
    match parse_datetime(start, "%d/%m/%Y %H:%M") {
        Some(t) => Some(t.date),
        None => match parse_datetime(start, "%d/%m/%Y %H:%M:%S") {
            Some(t) => Some(t.date),
            None => match parse_datetime(start, "%Y-%m-%d %H:%M") {
                Some(t) => Some(t.date),
                None => None,
            },
        },
    }
}

/// Whether a description names the lunch break.
pub fn is_lunch_break_text(description: &[char]) -> (r: bool)
    ensures
        r == is_lunch_break(description@),
{
    let low = lowercase(description);
    let words = chars_of("pause déjeuner");
    contains_chars(low.as_slice(), words.as_slice())
}

/// Most that the daily totals may have taken in before a block is read, so
/// that no amount can overflow while the block is added.
pub open spec fn room_before_block() -> int {
    0x1000_0000_0000_0000_0000_0000_0000_0000
}

/// Reads the off-client block: one entry per kept line, in order, and the
/// duration of each entry whose start reads as a date added to that day.
pub fn parser_donnees_hors_clientele(donnees: &str, jours: &mut DailyTotals) -> (r: Vec<
    EntreeHorsClientele,
>)
    requires
        old(jours).load() <= room_before_block(),
    ensures
        r@.map_values(|e: EntreeHorsClientele| e@) == off_entries(lines_of(donnees@)),
        final(jours)@ == with_additions(old(jours)@, off_additions(lines_of(donnees@))),
        final(jours).load() <= old(jours).load() + 0x1_0000_0000_0000_0000 * MAX_DURATION_CENTIS,
{
    let chars = chars_of(donnees);
    let lines = split_chars(chars.as_slice(), '\n');
    let ghost ls = lines@.map_values(|p: Vec<char>| p@);
    let ghost start = *jours;
    let mut out: Vec<EntreeHorsClientele> = Vec::new();
    let mut k: usize = 0;
    assert(ls.subrange(0, 0) =~= Seq::<Seq<char>>::empty());
    while k < lines.len()
        invariant
            k <= lines@.len(),
            ls == lines@.map_values(|p: Vec<char>| p@),
            ls == lines_of(donnees@),
            out@.map_values(|e: EntreeHorsClientele| e@) == off_entries(ls.subrange(0, k as int)),
            jours@ == with_additions(start@, off_additions(ls.subrange(0, k as int))),
            jours.load() <= start.load() + k * MAX_DURATION_CENTIS,
            start.load() <= room_before_block(),
        decreases lines@.len() - k,
    {
        let ghost before = out@.map_values(|e: EntreeHorsClientele| e@);
        let ghost done = ls.subrange(0, k as int);
        let ghost now = ls.subrange(0, k + 1);
        assert(now.drop_last() =~= done);
        assert(now.last() == lines@[k as int]@);
        let raw = &lines[k];
        let line = trim_chars(raw.as_slice());
        let parts = split_chars(line.as_slice(), '\t');
        let ghost ps = parts@.map_values(|p: Vec<char>| p@);
        proof {
            assert(ps == fields_of(now.last()));
            assert(ps.len() == parts@.len());
        }
        if line.len() == 0 || parts.len() < 4 || is_lunch_break_text(parts[1].as_slice()) {
            assert(!off_line_kept(now.last()));
            assert(off_additions(now) =~= off_additions(done));
        } else {
            assert(ps[1] == parts@[1]@);
            let debut = trim_chars(parts[2].as_slice());
            let fin = trim_chars(parts[3].as_slice());
            assert(debut@ == off_start(now.last()));
            assert(fin@ == off_end(now.last()));
            let duree = duration_of(debut.as_slice(), fin.as_slice());
            match off_day_of(debut.as_slice()) {
                Some(d) => {
                    proof {
                        assert(0 <= k * MAX_DURATION_CENTIS <= 0x1_0000_0000_0000_0000 * MAX_DURATION_CENTIS)
                            by (nonlinear_arith)
                            requires
                                k <= 0x1_0000_0000_0000_0000,
                        ;
                    }
                    jours.add(d, duree as i128);
                    proof {
                        let a = off_additions(done);
                        assert(off_additions(now) == a + seq![(d, duree as int)]);
                        assert((a + seq![(d, duree as int)]).drop_last() =~= a);
                    }
                },
                None => {
                    assert(off_additions(now) =~= off_additions(done));
                },
            }
            let e = EntreeHorsClientele {
                description: string_of(parts[1].as_slice()),
                debut: Some(string_of(debut.as_slice())),
                fin: Some(string_of(fin.as_slice())),
                duree,
            };
            out.push(e);
            assert(out@.map_values(|e: EntreeHorsClientele| e@) =~= before.push(off_entry(now.last())));
        }
        k = k + 1;
        assert(out@.map_values(|e: EntreeHorsClientele| e@) == off_entries(ls.subrange(0, k as int)));
    }
    assert(ls.subrange(0, k as int) =~= ls);
    out
}


/// An on-client line that is counted: not blank, not a header or absence
/// line (starting with `ABS` or `Description`), and at least six fields.
pub open spec fn on_line_kept(line: Seq<char>) -> bool {
    &&& trim(line).len() > 0
    &&& !has_prefix(trim(line), "ABS"@)
    &&& !has_prefix(trim(line), "Description"@)
    &&& fields_of(line).len() >= 6
}

/// Work time of an on-client line: its second-to-last field.
pub open spec fn on_work(line: Seq<char>) -> Option<int> {
    hours_value(fields_of(line)[fields_of(line).len() - 2])
}

/// Travel time of an on-client line: its last field.
pub open spec fn on_travel(line: Seq<char>) -> Option<int> {
    hours_value(fields_of(line)[fields_of(line).len() - 1])
}

/// The date of a work order: the first of day/month/year hour:minute,
/// year-month-day, day-month-year and day.month.year that reads it.
pub open spec fn client_day(s: Seq<char>) -> Option<Day> {
    match date_parse(s, "%d/%m/%Y %H:%M"@) {
        Some(d) => Some(d),
        None => match date_parse(s, "%Y-%m-%d"@) {
            Some(d) => Some(d),
            None => match date_parse(s, "%d-%m-%Y"@) {
                Some(d) => Some(d),
                None => date_parse(s, "%d.%m.%Y"@),
            },
        },
    }
}

/// The day of an on-client line, read from its ninth field where it has one.
pub open spec fn on_day(line: Seq<char>) -> Option<Day> {
    if fields_of(line).len() > 8 {
        client_day(trim(fields_of(line)[8]))
    } else {
        None
    }
}

pub open spec fn or_zero(v: Option<int>) -> int {
    match v {
        Some(x) => x,
        None => 0,
    }
}

/// Work time of the on-client lines, in centiseconds.
pub open spec fn work_total(lines: Seq<Seq<char>>) -> int
    decreases lines.len(),
{
    if lines.len() == 0 {
        0
    } else {
        work_total(lines.drop_last()) + if on_line_kept(lines.last()) {
            or_zero(on_work(lines.last()))
        } else {
            0
        }
    }
}

/// Travel time of the on-client lines, in centiseconds.
pub open spec fn travel_total(lines: Seq<Seq<char>>) -> int
    decreases lines.len(),
{
    if lines.len() == 0 {
        0
    } else {
        travel_total(lines.drop_last()) + if on_line_kept(lines.last()) {
            or_zero(on_travel(lines.last()))
        } else {
            0
        }
    }
}

pub open spec fn value_addition(d: Day, v: Option<int>) -> Seq<(Day, int)> {
    match v {
        Some(x) => seq![(d, x)],
        None => seq![],
    }
}

/// What one on-client line adds to the daily totals: its work time, then its
/// travel time, each where it reads as a number, under the line's day.
pub open spec fn on_line_additions(line: Seq<char>) -> Seq<(Day, int)> {
    if on_line_kept(line) {
        match on_day(line) {
            Some(d) => value_addition(d, on_work(line)) + value_addition(d, on_travel(line)),
            None => seq![],
        }
    } else {
        seq![]
    }
}

/// What the on-client lines add to the daily totals, in order.
pub open spec fn on_additions(lines: Seq<Seq<char>>) -> Seq<(Day, int)>
    decreases lines.len(),
{
    if lines.len() == 0 {
        seq![]
    } else {
        on_additions(lines.drop_last()) + on_line_additions(lines.last())
    }
}

/// The date of a work order (see `client_day`).
fn client_day_of(s: &[char]) -> (r: Option<Day>)
    ensures
        r == client_day(s@),
{
    match parse_date(s, "%d/%m/%Y %H:%M") {
        Some(d) => Some(d),
        None => match parse_date(s, "%Y-%m-%d") {
            Some(d) => Some(d),
            None => match parse_date(s, "%d-%m-%Y") {
                Some(d) => Some(d),
                None => parse_date(s, "%d.%m.%Y"),
            },
        },
    }
}

/// Adds `v`, where it is a number, to day `d`.
fn add_value(jours: &mut DailyTotals, d: Day, v: Option<i64>)
    requires
        old(jours).load() + MAX_VALUE_CENTIS <= i128::MAX,
        v matches Some(x) ==> -MAX_VALUE_CENTIS <= x <= MAX_VALUE_CENTIS,
    ensures
        final(jours)@ == with_additions(old(jours)@, value_addition(d, as_int_option(v))),
        final(jours).load() <= old(jours).load() + MAX_VALUE_CENTIS,
{
    match v {
        Some(x) => {
            jours.add(d, x as i128);
            let ghost adds = value_addition(d, as_int_option(v));
            assert(adds == seq![(d, x as int)]);
            assert(adds.drop_last() =~= Seq::<(Day, int)>::empty());
            assert(adds.last() == (d, x as int));
            assert(with_additions(old(jours)@, adds.drop_last()) == old(jours)@);
        },
        None => {},
    }
}

pub proof fn lemma_with_additions_concat(m: Map<Day, int>, a: Seq<(Day, int)>, b: Seq<(Day, int)>)
    ensures
        with_additions(m, a + b) == with_additions(with_additions(m, a), b),
    decreases b.len(),
{
    if b.len() == 0 {
        assert(a + b =~= a);
    } else {
        lemma_with_additions_concat(m, a, b.drop_last());
        assert((a + b).drop_last() =~= a + b.drop_last());
    }
}

/// Reads the on-client block: the work and travel totals of the counted
/// lines, in centiseconds, with each value of a line whose ninth field reads
/// as a date added to that day.
pub fn parser_donnees_clientele(donnees: &str, jours: &mut DailyTotals) -> (r: (i128, i128))
    requires
        old(jours).load() <= 2 * room_before_block(),
    ensures
        r.0 == work_total(lines_of(donnees@)),
        r.1 == travel_total(lines_of(donnees@)),
        final(jours)@ == with_additions(old(jours)@, on_additions(lines_of(donnees@))),
{
    let chars = chars_of(donnees);
    let lines = split_chars(chars.as_slice(), '\n');
    let ghost ls = lines@.map_values(|p: Vec<char>| p@);
    let ghost start = *jours;
    let mut travail: i128 = 0;
    let mut deplacement: i128 = 0;
    let mut k: usize = 0;
    while k < lines.len()
        invariant
            k <= lines@.len(),
            ls == lines@.map_values(|p: Vec<char>| p@),
            ls == lines_of(donnees@),
            travail == work_total(ls.subrange(0, k as int)),
            deplacement == travel_total(ls.subrange(0, k as int)),
            -k * MAX_VALUE_CENTIS <= travail <= k * MAX_VALUE_CENTIS,
            -k * MAX_VALUE_CENTIS <= deplacement <= k * MAX_VALUE_CENTIS,
            jours@ == with_additions(start@, on_additions(ls.subrange(0, k as int))),
            jours.load() <= start.load() + 2 * k * MAX_VALUE_CENTIS,
            start.load() <= 2 * room_before_block(),
        decreases lines@.len() - k,
    {
        let ghost done = ls.subrange(0, k as int);
        let ghost now = ls.subrange(0, k + 1);
        assert(now.drop_last() =~= done);
        assert(now.last() == lines@[k as int]@);
        proof {
            assert(0 <= k * MAX_VALUE_CENTIS <= 0x1_0000_0000_0000_0000 * MAX_VALUE_CENTIS)
                by (nonlinear_arith)
                requires
                    k <= 0x1_0000_0000_0000_0000,
            ;
        }
        let raw = &lines[k];
        let line = trim_chars(raw.as_slice());
        let parts = split_chars(line.as_slice(), '\t');
        let ghost ps = parts@.map_values(|p: Vec<char>| p@);
        assert(ps == fields_of(now.last()));
        assert(ps.len() == parts@.len());
        let abs = chars_of("ABS");
        let header = chars_of("Description");
        if line.len() == 0 || starts_with_chars(line.as_slice(), abs.as_slice()) || starts_with_chars(
            line.as_slice(),
            header.as_slice(),
        ) || parts.len() < 6 {
            assert(!on_line_kept(now.last()));
            assert(on_additions(now) =~= on_additions(done));
        } else {
            let n = parts.len();
            assert(ps[n - 2] == parts@[n - 2]@);
            assert(ps[n - 1] == parts@[n - 1]@);
            let w = parse_hours(parts[n - 2].as_slice());
            let t = parse_hours(parts[n - 1].as_slice());
            match w {
                Some(x) => {
                    travail = travail + x as i128;
                },
                None => {},
            }
            match t {
                Some(x) => {
                    deplacement = deplacement + x as i128;
                },
                None => {},
            }
            let day = if n > 8 {
                assert(ps[8] == parts@[8]@);
                let date_text = trim_chars(parts[8].as_slice());
                client_day_of(date_text.as_slice())
            } else {
                None
            };
            match day {
                Some(d) => {
                    let ghost mid = *jours;
                    add_value(jours, d, w);
                    add_value(jours, d, t);
                    proof {
                        lemma_with_additions_concat(
                            mid@,
                            value_addition(d, as_int_option(w)),
                            value_addition(d, as_int_option(t)),
                        );
                        lemma_with_additions_concat(
                            start@,
                            on_additions(done),
                            on_line_additions(now.last()),
                        );
                    }
                },
                None => {
                    assert(on_additions(now) =~= on_additions(done));
                },
            }
        }
        k = k + 1;
    }
    assert(ls.subrange(0, k as int) =~= ls);
    (travail, deplacement)
}


/// Between two timestamps that read in the day/month/year hour:minute format,
/// the duration in hours is their difference in seconds divided by 3600; it
/// is negative when the end comes first.
pub proof fn lemma_duration_is_difference(start: Seq<char>, end: Seq<char>)
    requires
        datetime_parse(start, stamp_format()) is Some,
        datetime_parse(end, stamp_format()) is Some,
        start.len() > 0,
        end.len() > 0,
    ensures
        duration_centis(start, end) * 3600 == (datetime_parse(end, stamp_format())->0.seconds()
            - datetime_parse(start, stamp_format())->0.seconds()) * CENTIS_PER_HOUR,
{
}

/// An empty start or an empty end gives a zero duration.
pub proof fn lemma_empty_timestamp_gives_zero(other: Seq<char>)
    ensures
        duration_centis(Seq::empty(), other) == 0,
        duration_centis(other, Seq::empty()) == 0,
{
}

proof fn lemma_off_concat(a: Seq<Seq<char>>, b: Seq<Seq<char>>)
    ensures
        off_entries(a + b) == off_entries(a) + off_entries(b),
        off_additions(a + b) == off_additions(a) + off_additions(b),
    decreases b.len(),
{
    if b.len() == 0 {
        assert(a + b =~= a);
        assert(off_entries(a) + off_entries(b) =~= off_entries(a));
        assert(off_additions(a) + off_additions(b) =~= off_additions(a));
    } else {
        lemma_off_concat(a, b.drop_last());
        assert((a + b).drop_last() =~= a + b.drop_last());
        assert((a + b).last() == b.last());
        if off_line_kept(b.last()) {
            assert(off_entries(a + b) =~= off_entries(a) + off_entries(b));
        } else {
            assert(off_entries(a + b) =~= off_entries(a) + off_entries(b));
        }
        assert(off_additions(a + b) =~= off_additions(a) + off_additions(b));
    }
}

proof fn lemma_on_concat(a: Seq<Seq<char>>, b: Seq<Seq<char>>)
    ensures
        work_total(a + b) == work_total(a) + work_total(b),
        travel_total(a + b) == travel_total(a) + travel_total(b),
        on_additions(a + b) == on_additions(a) + on_additions(b),
    decreases b.len(),
{
    if b.len() == 0 {
        assert(a + b =~= a);
        assert(on_additions(a) + on_additions(b) =~= on_additions(a));
    } else {
        lemma_on_concat(a, b.drop_last());
        assert((a + b).drop_last() =~= a + b.drop_last());
        assert((a + b).last() == b.last());
        assert(on_additions(a + b) =~= on_additions(a) + on_additions(b));
    }
}

proof fn lemma_off_line_dropped(before: Seq<Seq<char>>, line: Seq<char>, after: Seq<Seq<char>>)
    requires
        !off_line_kept(line),
    ensures
        off_entries(before.push(line) + after) == off_entries(before + after),
        off_additions(before.push(line) + after) == off_additions(before + after),
{
    lemma_off_concat(before.push(line), after);
    lemma_off_concat(before, after);
    assert(before.push(line).drop_last() =~= before);
}

/// An off-client line whose description names the lunch break, in any case,
/// adds no entry and nothing per day, wherever it stands.
pub proof fn lemma_lunch_break_excluded(before: Seq<Seq<char>>, line: Seq<char>, after: Seq<Seq<char>>)
    requires
        fields_of(line).len() >= 2,
        is_lunch_break(fields_of(line)[1]),
    ensures
        off_entries(before.push(line) + after) == off_entries(before + after),
        off_additions(before.push(line) + after) == off_additions(before + after),
{
    lemma_off_line_dropped(before, line, after);
}

/// An off-client line with fewer than four fields is skipped: the entries and
/// the amounts per day of the other lines are what they would be without it.
pub proof fn lemma_short_off_line_skipped(before: Seq<Seq<char>>, line: Seq<char>, after: Seq<Seq<char>>)
    requires
        fields_of(line).len() < 4,
    ensures
        off_entries(before.push(line) + after) == off_entries(before + after),
        off_additions(before.push(line) + after) == off_additions(before + after),
{
    lemma_off_line_dropped(before, line, after);
}

/// An on-client line with fewer than six fields is skipped: the totals and
/// the amounts per day of the other lines are what they would be without it.
pub proof fn lemma_short_on_line_skipped(before: Seq<Seq<char>>, line: Seq<char>, after: Seq<Seq<char>>)
    requires
        fields_of(line).len() < 6,
    ensures
        work_total(before.push(line) + after) == work_total(before + after),
        travel_total(before.push(line) + after) == travel_total(before + after),
        on_additions(before.push(line) + after) == on_additions(before + after),
{
    lemma_on_concat(before.push(line), after);
    lemma_on_concat(before, after);
    assert(before.push(line).drop_last() =~= before);
    assert(on_additions(before.push(line)) =~= on_additions(before));
}

} // verus!

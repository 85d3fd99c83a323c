//! Hours accumulated per calendar day.

use vstd::prelude::*;
use crate::calendar::Day;

verus! {

/// `m` with `x` added to the amount held for `d` (absent counts as zero).
pub open spec fn add_to(m: Map<Day, int>, d: Day, x: int) -> Map<Day, int> {
    m.insert(d, (if m.contains_key(d) { m[d] } else { 0 }) + x)
}

/// `m` after each addition of `adds`, in order.
pub open spec fn with_additions(m: Map<Day, int>, adds: Seq<(Day, int)>) -> Map<Day, int>
    decreases adds.len(),
{
    if adds.len() == 0 {
        m
    } else {
        add_to(with_additions(m, adds.drop_last()), adds.last().0, adds.last().1)
    }
}

/// Whether an entry of `es` is for `d`.
pub open spec fn holds_day(es: Seq<(Day, i128)>, d: Day) -> bool {
    exists|i: int| 0 <= i < es.len() && (#[trigger] es[i]).0 == d
}

/// Sum of the amounts that `es` holds for `d`.
pub open spec fn total_for(es: Seq<(Day, i128)>, d: Day) -> int
    decreases es.len(),
{
    if es.len() == 0 {
        0
    } else {
        total_for(es.drop_last(), d) + if es.last().0 == d {
            es.last().1 as int
        } else {
            0
        }
    }
}

/// Sum of the absolute values of the amounts in `es`.
pub open spec fn magnitude(es: Seq<(Day, i128)>) -> int
    decreases es.len(),
{
    if es.len() == 0 {
        0
    } else {
        magnitude(es.drop_last()) + if es.last().1 >= 0 {
            es.last().1 as int
        } else {
            -es.last().1
        }
    }
}

/// Amounts in centiseconds per day, one entry per day, in no particular order.
pub struct DailyTotals {
    entries: Vec<(Day, i128)>,
    /// Sum of the absolute values of everything added since the last reset.
    load: Ghost<int>,
}

impl DailyTotals {
    pub closed spec fn entries_view(self) -> Seq<(Day, i128)> {
        self.entries@
    }

    /// Sum of the absolute values of everything added since the last reset;
    /// it bounds every amount held.
    pub closed spec fn load(self) -> int {
        self.load@
    }

    pub open spec fn view(self) -> Map<Day, int> {
        Map::new(|d: Day| holds_day(self.entries_view(), d), |d: Day| total_for(self.entries_view(), d))
    }

    /// One entry per day, and the amounts within the load.
    #[verifier::type_invariant]
    spec fn inv(self) -> bool {
        &&& forall|i: int, j: int|
            0 <= i < j < self.entries@.len() ==> (#[trigger] self.entries@[i]).0 != (
            #[trigger] self.entries@[j]).0
        &&& magnitude(self.entries@) <= self.load@
        &&& 0 <= self.load@ <= i128::MAX
    }

    pub fn new() -> (r: DailyTotals)
        ensures
            r@ == Map::<Day, int>::empty(),
            r.load() == 0,
    {
        let r = DailyTotals { entries: Vec::new(), load: Ghost(0) };
        assert(r@ =~= Map::<Day, int>::empty());
        r
    }

    /// Forgets every amount.
    pub fn clear(&mut self)
        ensures
            final(self)@ == Map::<Day, int>::empty(),
            final(self).load() == 0,
    {
        proof {
            use_type_invariant(&*self);
        }
        self.entries = Vec::new();
        self.load = Ghost(0);
        assert(self@ =~= Map::<Day, int>::empty());
    }

    /// Number of days held.
    pub fn len(&self) -> (r: usize)
        ensures
            r == self@.dom().len(),
    {
        proof {
            use_type_invariant(self);
            self.lemma_dom_len();
        }
        self.entries.len()
    }

    pub fn is_empty(&self) -> (r: bool)
        ensures
            r == (self@.dom().len() == 0),
    {
        self.len() == 0
    }

    /// The amount held for `d`, if any.
    pub fn get(&self, d: Day) -> (r: Option<i128>)
        ensures
            r matches Some(x) ==> self@.contains_key(d) && self@[d] == x,
            r is None ==> !self@.contains_key(d),
    {
        proof {
            use_type_invariant(self);
        }
        match self.find(d) {
            Some(i) => {
                proof {
                    lemma_total_unique(self.entries@, i as int);
                }
                Some(self.entries[i].1)
            },
            None => None,
        }
    }

    /// The days and their amounts.
    pub fn entries(&self) -> (r: Vec<(Day, i128)>)
        ensures
            r@.len() == self@.dom().len(),
            forall|i: int| 0 <= i < r@.len() ==> self@.contains_key(#[trigger] r@[i].0) && self@[r@[i].0]
                == r@[i].1,
            forall|d: Day| #[trigger] self@.contains_key(d) ==> exists|i: int|
                0 <= i < r@.len() && r@[i].0 == d,
    {
        proof {
            use_type_invariant(self);
            self.lemma_dom_len();
            assert forall|i: int| 0 <= i < self.entries@.len() implies self@.contains_key(
                #[trigger] self.entries@[i].0,
            ) && self@[self.entries@[i].0] == self.entries@[i].1 by {
                lemma_total_unique(self.entries@, i);
            }
        }
        let mut r: Vec<(Day, i128)> = Vec::new();
        let mut i: usize = 0;
        while i < self.entries.len()
            invariant
                i <= self.entries@.len(),
                r@ == self.entries@.subrange(0, i as int),
            decreases self.entries@.len() - i,
        {
            r.push(self.entries[i]);
            i = i + 1;
            assert(r@ =~= self.entries@.subrange(0, i as int));
        }
        assert(r@ =~= self.entries@);
        assert forall|d: Day| #[trigger] self@.contains_key(d) implies exists|i: int|
            0 <= i < r@.len() && r@[i].0 == d by {
            let k = choose|k: int| 0 <= k < self.entries@.len() && (#[trigger] self.entries@[k]).0 == d;
            assert(r@[k].0 == d);
        }
        r
    }

    fn find(&self, d: Day) -> (r: Option<usize>)
        ensures
            r matches Some(i) ==> i < self.entries@.len() && self.entries@[i as int].0 == d,
            r is None ==> !holds_day(self.entries@, d),
    {
        let mut i: usize = 0;
        while i < self.entries.len()
            invariant
                i <= self.entries@.len(),
                forall|k: int| 0 <= k < i ==> (#[trigger] self.entries@[k]).0 != d,
            decreases self.entries@.len() - i,
        {
            if self.entries[i].0 == d {
                return Some(i);
            }
            i = i + 1;
        }
        None
    }

    /// Adds `x` centiseconds to the amount of day `d`.
    pub fn add(&mut self, d: Day, x: i128)
        requires
            old(self).load() + (if x >= 0 { x as int } else { -x }) <= i128::MAX,
        ensures
            final(self)@ == add_to(old(self)@, d, x as int),
            final(self).load() == old(self).load() + (if x >= 0 { x as int } else { -x }),
    {
        proof {
            use_type_invariant(&*self);
        }
        let ghost before = self.entries@;
        let ghost new_load = self.load@ + (if x >= 0 { x as int } else { -x });
        let found = self.find(d);
        self.load = Ghost(new_load);
        let mut es: Vec<(Day, i128)> = Vec::new();
        std::mem::swap(&mut es, &mut self.entries);
        assert(es@ == before);
        match found {
            Some(i) => {
                proof {
                    lemma_total_unique(before, i as int);
                    lemma_magnitude_entry(before, i as int);
                }
                let (day, cur) = es[i];
                es.set(i, (day, cur + x));
                proof {
                    lemma_total_update(before, i as int, x as int);
                    lemma_magnitude_update(before, i as int, x as int);
                    assert forall|k: int, j: int|
                        0 <= k < j < es@.len() implies (#[trigger] es@[k]).0 != (#[trigger] es@[j]).0 by {
                        assert(before[k].0 != before[j].0);
                    }
                    assert forall|e: Day| holds_day(es@, e) == holds_day(before, e) by {
                        if holds_day(before, e) {
                            let k = choose|k: int| 0 <= k < before.len() && (#[trigger] before[k]).0 == e;
                            assert(es@[k].0 == e);
                        }
                        if holds_day(es@, e) {
                            let k = choose|k: int| 0 <= k < es@.len() && (#[trigger] es@[k]).0 == e;
                            assert(before[k].0 == e);
                        }
                    }
                }
            },
            None => {
                proof {
                    lemma_total_absent(before, d);
                }
                es.push((d, x));
                proof {
                    assert(es@.drop_last() =~= before);
                    assert(es@.last() == (d, x));
                    assert forall|k: int, j: int|
                        0 <= k < j < es@.len() implies (#[trigger] es@[k]).0 != (#[trigger] es@[j]).0 by {
                        if j < before.len() {
                            assert(before[k].0 != before[j].0);
                        } else {
                            assert(before[k].0 != d);
                        }
                    }
                    assert forall|e: Day| holds_day(es@, e) == (holds_day(before, e) || e == d) by {
                        if holds_day(before, e) {
                            let k = choose|k: int| 0 <= k < before.len() && (#[trigger] before[k]).0 == e;
                            assert(es@[k].0 == e);
                        }
                        if e == d {
                            assert(es@[before.len() as int].0 == e);
                        }
                        if holds_day(es@, e) && e != d {
                            let k = choose|k: int| 0 <= k < es@.len() && (#[trigger] es@[k]).0 == e;
                            assert(before[k].0 == e);
                        }
                    }
                }
            },
        }
        self.entries = es;
        assert(self@ =~= add_to(old(self)@, d, x as int));
    }

    proof fn lemma_dom_len(self)
        requires
            self.inv(),
        ensures
            self@.dom().len() == self.entries@.len(),
            self@.dom().finite(),
    {
        lemma_dom_of_unique(self.entries@);
        assert(self@.dom() =~= self.entries@.map_values(|e: (Day, i128)| e.0).to_set());
    }
}

proof fn lemma_dom_of_unique(es: Seq<(Day, i128)>)
    requires
        forall|i: int, j: int| 0 <= i < j < es.len() ==> (#[trigger] es[i]).0 != (#[trigger] es[j]).0,
    ensures
        es.map_values(|e: (Day, i128)| e.0).to_set().len() == es.len(),
        es.map_values(|e: (Day, i128)| e.0).to_set().finite(),
        forall|d: Day| es.map_values(|e: (Day, i128)| e.0).to_set().contains(d) == holds_day(es, d),
{
    let ks = es.map_values(|e: (Day, i128)| e.0);
    assert(ks.no_duplicates()) by {
        assert forall|i: int, j: int| 0 <= i < ks.len() && 0 <= j < ks.len() && i != j implies ks[i]
            != ks[j] by {
            if i < j {
                assert(es[i].0 != es[j].0);
            } else {
                assert(es[j].0 != es[i].0);
            }
        }
    }
    ks.unique_seq_to_set();
    assert forall|d: Day| ks.to_set().contains(d) == holds_day(es, d) by {
        if holds_day(es, d) {
            let k = choose|k: int| 0 <= k < es.len() && (#[trigger] es[k]).0 == d;
            assert(ks[k] == d);
        }
        if ks.to_set().contains(d) {
            let k = choose|k: int| 0 <= k < ks.len() && ks[k] == d;
            assert(es[k].0 == d);
        }
    }
}

proof fn lemma_total_unique(es: Seq<(Day, i128)>, i: int)
    requires
        0 <= i < es.len(),
        forall|a: int, b: int| 0 <= a < b < es.len() ==> (#[trigger] es[a]).0 != (#[trigger] es[b]).0,
    ensures
        total_for(es, es[i].0) == es[i].1,
    decreases es.len(),
{
    let front = es.drop_last();
    if i == es.len() - 1 {
        lemma_total_absent(front, es[i].0);
    } else {
        lemma_total_unique(front, i);
    }
}

proof fn lemma_total_absent(es: Seq<(Day, i128)>, d: Day)
    requires
        !holds_day(es, d),
    ensures
        total_for(es, d) == 0,
    decreases es.len(),
{
    if es.len() > 0 {
        let front = es.drop_last();
        assert(!holds_day(front, d)) by {
            if holds_day(front, d) {
                let k = choose|k: int| 0 <= k < front.len() && (#[trigger] front[k]).0 == d;
                assert(es[k].0 == d);
            }
        }
        lemma_total_absent(front, d);
        assert(es[es.len() - 1].0 != d);
    }
}

proof fn lemma_total_update(es: Seq<(Day, i128)>, i: int, x: int)
    requires
        0 <= i < es.len(),
        i128::MIN <= es[i].1 + x <= i128::MAX,
    ensures
        forall|d: Day|
            #[trigger] total_for(es.update(i, (es[i].0, (es[i].1 + x) as i128)), d) == total_for(es, d)
                + if es[i].0 == d {
                x
            } else {
                0
            },
    decreases es.len(),
{
    let u = es.update(i, (es[i].0, (es[i].1 + x) as i128));
    if i == es.len() - 1 {
        assert(u.drop_last() =~= es.drop_last());
    } else {
        lemma_total_update(es.drop_last(), i, x);
        assert(u.drop_last() =~= es.drop_last().update(i, (es[i].0, (es[i].1 + x) as i128)));
    }
    assert forall|d: Day|
        #[trigger] total_for(u, d) == total_for(es, d) + if es[i].0 == d {
            x
        } else {
            0
        } by {
        assert(total_for(u, d) == total_for(u.drop_last(), d) + if u.last().0 == d {
            u.last().1 as int
        } else {
            0
        });
        if i == es.len() - 1 {
            assert(u.last().1 as int == es[i].1 + x);
            assert(u.last().0 == es[i].0);
            assert(es.last() == es[i]);
            assert(total_for(u.drop_last(), d) == total_for(es.drop_last(), d));
        } else {
            let front = es.drop_last();
            assert(front[i] == es[i]);
            assert(total_for(front.update(i, (front[i].0, (front[i].1 + x) as i128)), d) == total_for(
                front,
                d,
            ) + if front[i].0 == d {
                x
            } else {
                0
            });
            assert(u.last() == es.last());
            assert(total_for(u.drop_last(), d) == total_for(es.drop_last().update(
                i,
                (es[i].0, (es[i].1 + x) as i128),
            ), d));
        }
        assert(total_for(es, d) == total_for(es.drop_last(), d) + if es.last().0 == d {
            es.last().1 as int
        } else {
            0
        });
    }
}

proof fn lemma_magnitude_entry(es: Seq<(Day, i128)>, i: int)
    requires
        0 <= i < es.len(),
    ensures
        (if es[i].1 >= 0 { es[i].1 as int } else { -es[i].1 }) <= magnitude(es),
        0 <= magnitude(es),
    decreases es.len(),
{
    lemma_magnitude_nonneg(es.drop_last());
    if i < es.len() - 1 {
        lemma_magnitude_entry(es.drop_last(), i);
    }
}

proof fn lemma_magnitude_nonneg(es: Seq<(Day, i128)>)
    ensures
        0 <= magnitude(es),
    decreases es.len(),
{
    if es.len() > 0 {
        lemma_magnitude_nonneg(es.drop_last());
    }
}

proof fn lemma_magnitude_update(es: Seq<(Day, i128)>, i: int, x: int)
    requires
        0 <= i < es.len(),
        i128::MIN <= es[i].1 + x <= i128::MAX,
    ensures
        magnitude(es.update(i, (es[i].0, (es[i].1 + x) as i128))) <= magnitude(es) + (if x >= 0 {
            x
        } else {
            -x
        }),
    decreases es.len(),
{
    let u = es.update(i, (es[i].0, (es[i].1 + x) as i128));
    if i == es.len() - 1 {
        assert(u.drop_last() =~= es.drop_last());
    } else {
        lemma_magnitude_update(es.drop_last(), i, x);
        assert(u.drop_last() =~= es.drop_last().update(i, (es[i].0, (es[i].1 + x) as i128)));
    }
}


/// Starting from nothing, the days that hold an amount are exactly the days
/// of the additions.
pub proof fn lemma_days_come_from_additions(adds: Seq<(Day, int)>)
    ensures
        forall|d: Day| #[trigger]
            with_additions(Map::empty(), adds).contains_key(d) <==> exists|i: int|
                0 <= i < adds.len() && (#[trigger] adds[i]).0 == d,
    decreases adds.len(),
{
    if adds.len() > 0 {
        let front = adds.drop_last();
        lemma_days_come_from_additions(front);
        assert forall|d: Day| #[trigger]
            with_additions(Map::empty(), adds).contains_key(d) <==> exists|i: int|
                0 <= i < adds.len() && (#[trigger] adds[i]).0 == d by {
            if with_additions(Map::empty(), front).contains_key(d) {
                let i = choose|i: int| 0 <= i < front.len() && (#[trigger] front[i]).0 == d;
                assert(adds[i].0 == d);
            }
            if exists|i: int| 0 <= i < adds.len() && (#[trigger] adds[i]).0 == d {
                let i = choose|i: int| 0 <= i < adds.len() && (#[trigger] adds[i]).0 == d;
                if i < front.len() {
                    assert(front[i].0 == d);
                }
            }
        }
    }
}

} // verus!

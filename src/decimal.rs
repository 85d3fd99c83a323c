//! Decimal hour values as they appear in the work-order columns: an optional
//! sign, digits, and at most one separator that may be a comma or a period.
//! Values are held exactly in centiseconds; decimal places past the fourth
//! (a fraction of a second) are dropped.

use vstd::prelude::*;

verus! {

/// Centiseconds in one hour.
pub const CENTIS_PER_HOUR: i64 = 360_000;

/// Largest size of a value, in centiseconds.
pub const MAX_VALUE_CENTIS: i64 = 400_000_000_000_000_000;

/// Largest whole-hour part that a value may carry.
pub const MAX_WHOLE_HOURS: u64 = 999_999_999_999;

pub open spec fn is_digit(c: char) -> bool {
    '0' <= c <= '9'
}

pub open spec fn digit_of(c: char) -> nat {
    (c as u32 - '0' as u32) as nat
}

pub open spec fn is_decimal_sep(c: char) -> bool {
    c == ',' || c == '.'
}

pub open spec fn all_digits(s: Seq<char>) -> bool {
    forall|i: int| 0 <= i < s.len() ==> is_digit(#[trigger] s[i])
}

/// Number of digits at the front of `s`.
pub open spec fn digit_prefix_len(s: Seq<char>) -> nat
    decreases s.len(),
{
    if s.len() > 0 && is_digit(s[0]) {
        1 + digit_prefix_len(s.drop_first())
    } else {
        0
    }
}

/// The number written by the decimal digits `ds`.
pub open spec fn digits_value(ds: Seq<char>) -> nat
    decreases ds.len(),
{
    if ds.len() == 0 {
        0
    } else {
        digits_value(ds.drop_last()) * 10 + digit_of(ds.last())
    }
}

pub open spec fn pow10(n: nat) -> nat
    decreases n,
{
    if n == 0 {
        1
    } else {
        10 * pow10((n - 1) as nat)
    }
}

/// Centiseconds written by the digits after the separator, up to the fourth.
pub open spec fn fraction_centis(frac: Seq<char>) -> int {
    let kept = if frac.len() <= 4 { frac } else { frac.subrange(0, 4) };
    (digits_value(kept) * 36 * pow10((4 - kept.len()) as nat)) as int
}

/// An unsigned decimal number of hours, in centiseconds.
pub open spec fn unsigned_hours(b: Seq<char>) -> Option<int> {
    let p = digit_prefix_len(b) as int;
    let whole = b.subrange(0, p);
    let rest = b.subrange(p, b.len() as int);
    let frac = rest.subrange(1, rest.len() as int);
    if (rest.len() == 0 || (is_decimal_sep(rest[0]) && all_digits(frac))) && (p > 0 || (
    rest.len() > 0 && frac.len() > 0)) && digits_value(whole) <= MAX_WHOLE_HOURS {
        Some(digits_value(whole) * CENTIS_PER_HOUR + if rest.len() == 0 {
            0
        } else {
            fraction_centis(frac)
        })
    } else {
        None
    }
}

/// A decimal number of hours with an optional sign, in centiseconds; `None`
/// where `f` is not such a number.
pub open spec fn hours_value(f: Seq<char>) -> Option<int> {
    if f.len() > 0 && f[0] == '-' {
        match unsigned_hours(f.drop_first()) {
            Some(v) => Some(-v),
            None => None,
        }
    } else if f.len() > 0 && f[0] == '+' {
        unsigned_hours(f.drop_first())
    } else {
        unsigned_hours(f)
    }
}

/// The same text with every comma turned into a period.
pub open spec fn comma_to_period(s: Seq<char>) -> Seq<char> {
    s.map_values(|c: char| if c == ',' { '.' } else { c })
}

pub fn is_digit_char(c: char) -> (r: bool)
    ensures
        r == is_digit(c),
{
    '0' <= c && c <= '9'
}

/// End of the run of digits in `s` that starts at `from`.
fn digit_run_end(s: &[char], from: usize) -> (r: usize)
    requires
        from <= s@.len(),
    ensures
        from <= r <= s@.len(),
        r - from == digit_prefix_len(s@.subrange(from as int, s@.len() as int)),
        all_digits(s@.subrange(from as int, r as int)),
        r < s@.len() ==> !is_digit(s@[r as int]),
{
    let n = s.len();
    let mut i: usize = from;
    while i < n && is_digit_char(s[i])
        invariant
            from <= i <= n,
            n == s@.len(),
            digit_prefix_len(s@.subrange(from as int, n as int)) == (i - from) + digit_prefix_len(
                s@.subrange(i as int, n as int),
            ),
            all_digits(s@.subrange(from as int, i as int)),
        decreases n - i,
    {
        assert(s@.subrange(i as int, n as int).drop_first() =~= s@.subrange(i + 1, n as int));
        i = i + 1;
        assert forall|k: int| 0 <= k < i - from implies is_digit(
            #[trigger] s@.subrange(from as int, i as int)[k],
        ) by {
            if k < i - 1 - from {
                assert(s@.subrange(from as int, i - 1)[k] == s@.subrange(from as int, i as int)[k]);
            }
        }
    }
    i
}

/// `min(digits_value(s[from..to]), cap)`.
fn capped_digits_value(s: &[char], from: usize, to: usize, cap: u64) -> (r: u64)
    requires
        from <= to <= s@.len(),
        all_digits(s@.subrange(from as int, to as int)),
        cap <= 1_000_000_000_000,
    ensures
        r as int == if digits_value(s@.subrange(from as int, to as int)) <= cap {
            digits_value(s@.subrange(from as int, to as int)) as int
        } else {
            cap as int
        },
{
    let mut v: u64 = 0;
    let mut i: usize = from;
    while i < to
        invariant
            from <= i <= to <= s@.len(),
            all_digits(s@.subrange(from as int, to as int)),
            cap <= 1_000_000_000_000,
            v as int == if digits_value(s@.subrange(from as int, i as int)) <= cap {
                digits_value(s@.subrange(from as int, i as int)) as int
            } else {
                cap as int
            },
        decreases to - i,
    {
        assert(s@.subrange(from as int, to as int)[i - from] == s@[i as int]);
        let d = (s[i] as u32 - '0' as u32) as u64;
        assert(s@.subrange(from as int, i + 1).drop_last() =~= s@.subrange(from as int, i as int));
        if v < cap {
            v = v * 10 + d;
            if v > cap {
                v = cap;
            }
        }
        i = i + 1;
    }
    v
}


/// `Some(x)` as a mathematical integer.
pub open spec fn as_int_option(r: Option<i64>) -> Option<int> {
    match r {
        Some(x) => Some(x as int),
        None => None,
    }
}

pub proof fn lemma_digits_value_bound(ds: Seq<char>)
    requires
        all_digits(ds),
    ensures
        digits_value(ds) < pow10(ds.len()),
    decreases ds.len(),
{
    if ds.len() > 0 {
        let front = ds.drop_last();
        assert forall|i: int| 0 <= i < front.len() implies is_digit(#[trigger] front[i]) by {
            assert(front[i] == ds[i]);
        }
        lemma_digits_value_bound(front);
        assert(is_digit(ds[ds.len() - 1]));
    }
}

/// The unsigned number of hours written in `s[from..]`, in centiseconds.
fn unsigned_hours_from(s: &[char], from: usize) -> (r: Option<i64>)
    requires
        from <= s@.len(),
    ensures
        as_int_option(r) == unsigned_hours(s@.subrange(from as int, s@.len() as int)),
        r matches Some(v) ==> 0 <= v <= MAX_VALUE_CENTIS,
{
    let n = s.len();
    let ghost b = s@.subrange(from as int, n as int);
    let p_end = digit_run_end(s, from);
    let ghost p = p_end - from;
    assert(b.subrange(0, p) =~= s@.subrange(from as int, p_end as int));
    assert(b.subrange(p, b.len() as int) =~= s@.subrange(p_end as int, n as int));
    let whole = capped_digits_value(s, from, p_end, MAX_WHOLE_HOURS + 1);
    if whole > MAX_WHOLE_HOURS {
        return None;
    }
    assert(0 <= whole * 360_000 <= 360_000_000_000_000_000) by (nonlinear_arith)
        requires
            whole <= 999_999_999_999,
    ;
    let whole_centis = (whole as i64) * CENTIS_PER_HOUR;
    if p_end == n {
        if p_end > from {
            return Some(whole_centis);
        }
        return None;
    }
    let ghost rest = s@.subrange(p_end as int, n as int);
    assert(rest.subrange(1, rest.len() as int) =~= s@.subrange(p_end + 1, n as int));
    let c = s[p_end];
    if !(c == ',' || c == '.') {
        return None;
    }
    let frac_end = digit_run_end(s, p_end + 1);
    if frac_end != n {
        assert(!is_digit(s@.subrange(p_end + 1, n as int)[frac_end - p_end - 1]));
        return None;
    }
    if p_end == from && frac_end == p_end + 1 {
        return None;
    }
    let kept_end = if n - (p_end + 1) <= 4 {
        n
    } else {
        p_end + 5
    };
    let ghost frac = s@.subrange(p_end + 1, n as int);
    let ghost kept = if frac.len() <= 4 {
        frac
    } else {
        frac.subrange(0, 4)
    };
    assert(kept =~= s@.subrange(p_end + 1, kept_end as int));
    assert(all_digits(kept));
    proof {
        lemma_digits_value_bound(kept);
        reveal_with_fuel(pow10, 5);
    }
    let kv = capped_digits_value(s, p_end + 1, kept_end, 10000);
    let kept_len = kept_end - (p_end + 1);
    let scale: i64 = if kept_len == 0 {
        10000
    } else if kept_len == 1 {
        1000
    } else if kept_len == 2 {
        100
    } else if kept_len == 3 {
        10
    } else {
        1
    };
    assert(scale == pow10((4 - kept.len()) as nat));
    assert(0 <= kv * 36 * scale <= 3_600_000_000) by (nonlinear_arith)
        requires
            kv <= 10000,
            0 < scale <= 10000,
    ;
    Some(whole_centis + (kv as i64) * 36 * scale)
}

/// Reads a decimal number of hours, with a comma or a period as separator,
/// into centiseconds; `None` where the text is not such a number.
pub fn parse_hours(f: &[char]) -> (r: Option<i64>)
    ensures
        as_int_option(r) == hours_value(f@),
        r matches Some(v) ==> -MAX_VALUE_CENTIS <= v <= MAX_VALUE_CENTIS,
{
    if f.len() > 0 && f[0] == '-' {
        assert(f@.drop_first() =~= f@.subrange(1, f@.len() as int));
        match unsigned_hours_from(f, 1) {
            Some(v) => Some(-v),
            None => None,
        }
    } else if f.len() > 0 && f[0] == '+' {
        assert(f@.drop_first() =~= f@.subrange(1, f@.len() as int));
        unsigned_hours_from(f, 1)
    } else {
        assert(f@ =~= f@.subrange(0, f@.len() as int));
        unsigned_hours_from(f, 0)
    }
}


proof fn lemma_prefix_len_commas(t: Seq<char>)
    ensures
        digit_prefix_len(comma_to_period(t)) == digit_prefix_len(t),
    decreases t.len(),
{
    if t.len() > 0 {
        assert(comma_to_period(t).drop_first() =~= comma_to_period(t.drop_first()));
        lemma_prefix_len_commas(t.drop_first());
    }
}

proof fn lemma_unsigned_commas(b: Seq<char>)
    ensures
        unsigned_hours(comma_to_period(b)) == unsigned_hours(b),
{
    let m = comma_to_period(b);
    lemma_prefix_len_commas(b);
    let p = digit_prefix_len(b) as int;
    assert(p <= b.len()) by {
        lemma_prefix_len_le(b);
    }
    let whole = b.subrange(0, p);
    let rest = b.subrange(p, b.len() as int);
    let frac = rest.subrange(1, rest.len() as int);
    let rest2 = m.subrange(p, m.len() as int);
    let frac2 = rest2.subrange(1, rest2.len() as int);
    assert(m.subrange(0, p) =~= whole) by {
        lemma_prefix_all_digits(b);
    }
    if rest.len() > 0 {
        assert(is_decimal_sep(rest2[0]) == is_decimal_sep(rest[0]));
        assert(frac2 =~= comma_to_period(frac));
        if all_digits(frac) {
            assert(frac2 =~= frac);
        }
        if all_digits(frac2) {
            assert forall|i: int| 0 <= i < frac.len() implies is_digit(#[trigger] frac[i]) by {
                assert(is_digit(frac2[i]));
            }
        }
    }
}

proof fn lemma_prefix_len_le(t: Seq<char>)
    ensures
        digit_prefix_len(t) <= t.len(),
    decreases t.len(),
{
    if t.len() > 0 {
        lemma_prefix_len_le(t.drop_first());
    }
}

proof fn lemma_prefix_all_digits(t: Seq<char>)
    ensures
        digit_prefix_len(t) <= t.len(),
        all_digits(t.subrange(0, digit_prefix_len(t) as int)),
    decreases t.len(),
{
    lemma_prefix_len_le(t);
    if t.len() > 0 && is_digit(t[0]) {
        lemma_prefix_all_digits(t.drop_first());
        let k = digit_prefix_len(t) as int;
        assert forall|i: int| 0 <= i < k implies is_digit(#[trigger] t.subrange(0, k)[i]) by {
            if i > 0 {
                assert(t.subrange(0, k)[i] == t.drop_first().subrange(0, k - 1)[i - 1]);
            }
        }
    }
}

/// A comma and a period are the same decimal separator: replacing every
/// comma of a field by a period changes neither whether it is a number nor
/// its value.
pub proof fn lemma_comma_reads_as_period(f: Seq<char>)
    ensures
        hours_value(comma_to_period(f)) == hours_value(f),
{
    let m = comma_to_period(f);
    if f.len() > 0 {
        assert(m.drop_first() =~= comma_to_period(f.drop_first()));
        lemma_unsigned_commas(f.drop_first());
    }
    lemma_unsigned_commas(f);
}

} // verus!

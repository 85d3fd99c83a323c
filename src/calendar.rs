//! Calendar dates and timestamps on the proleptic Gregorian calendar, read
//! from text through chrono.

use vstd::prelude::*;
use chrono::Datelike;
use chrono::Timelike;

verus! {

/// Earliest year that a date may carry.
pub const MIN_YEAR: i32 = -262_143;

/// Latest year that a date may carry.
pub const MAX_YEAR: i32 = 262_142;

/// A calendar date, without a time of day.
#[derive(Clone, Copy, Debug, PartialEq, Eq, Structural, Hash, PartialOrd, Ord)]
pub struct Day {
    pub year: i32,
    pub month: u32,
    pub day: u32,
}

/// A date with a time of day to the second.
#[derive(Clone, Copy, Debug, PartialEq, Eq, Structural)]
pub struct Stamp {
    pub date: Day,
    pub hour: u32,
    pub minute: u32,
    pub second: u32,
}

pub open spec fn is_leap_year(y: int) -> bool {
    (y % 4 == 0 && y % 100 != 0) || y % 400 == 0
}

pub open spec fn days_in_month(y: int, m: int) -> int {
    if m == 2 {
        if is_leap_year(y) {
            29
        } else {
            28
        }
    } else if m == 4 || m == 6 || m == 9 || m == 11 {
        30
    } else {
        31
    }
}

/// Days from 1 January of year 1 to 1 January of year `y`.
pub open spec fn days_before_year(y: int) -> int {
    let p = y - 1;
    365 * p + p / 4 - p / 100 + p / 400
}

/// Days from 1 January of year `y` to the first day of month `m`.
pub open spec fn days_before_month(y: int, m: int) -> int {
    let common: int = if m == 1 {
        0
    } else if m == 2 {
        31
    } else if m == 3 {
        59
    } else if m == 4 {
        90
    } else if m == 5 {
        120
    } else if m == 6 {
        151
    } else if m == 7 {
        181
    } else if m == 8 {
        212
    } else if m == 9 {
        243
    } else if m == 10 {
        273
    } else if m == 11 {
        304
    } else {
        334
    };
    let extra: int = if m > 2 && is_leap_year(y) {
        1
    } else {
        0
    };
    common + extra
}

impl Day {
    /// A date that exists on the calendar, within the supported years.
    pub open spec fn valid(self) -> bool {
        &&& MIN_YEAR <= self.year <= MAX_YEAR
        &&& 1 <= self.month <= 12
        &&& 1 <= self.day <= days_in_month(self.year as int, self.month as int)
    }

    /// Days from 1 January of year 1 to this date (negative before it).
    pub open spec fn number(self) -> int {
        days_before_year(self.year as int) + days_before_month(self.year as int, self.month as int)
            + self.day - 1
    }
}

impl Stamp {
    pub open spec fn valid(self) -> bool {
        &&& self.date.valid()
        &&& self.hour < 24
        &&& self.minute < 60
        &&& self.second < 60
    }

    /// Seconds from midnight at the start of 1 January of year 1.
    pub open spec fn seconds(self) -> int {
        self.date.number() * 86400 + self.hour * 3600 + self.minute * 60 + self.second
    }
}

/// Result of chrono's `NaiveDateTime::parse_from_str` on a text and a format.
pub uninterp spec fn datetime_parse(s: Seq<char>, fmt: Seq<char>) -> Option<Stamp>;

/// Result of chrono's `NaiveDate::parse_from_str` on a text and a format.
pub uninterp spec fn date_parse(s: Seq<char>, fmt: Seq<char>) -> Option<Day>;

/// Relies on chrono's `NaiveDateTime::parse_from_str`: the date and time that
/// the text gives in the format, if any; chrono only builds real dates within
/// its year range, and its seconds stay below 60 (a leap second is kept in the
/// sub-second part, which is not read here).
#[verifier::external_body]
pub(crate) fn parse_datetime(s: &[char], fmt: &str) -> (r: Option<Stamp>)
    ensures
        r == datetime_parse(s@, fmt@),
        r matches Some(st) ==> st.valid(),
{
    let text: String = s.iter().collect();
    chrono::NaiveDateTime::parse_from_str(&text, fmt).ok().map(
        |t| Stamp {
            date: Day { year: t.year(), month: t.month(), day: t.day() },
            hour: t.hour(),
            minute: t.minute(),
            second: t.second(),
        },
    )
}

/// Relies on chrono's `NaiveDate::parse_from_str`: the date that the text
/// gives in the format, if any; chrono only builds real dates within its year
/// range.
#[verifier::external_body]
pub(crate) fn parse_date(s: &[char], fmt: &str) -> (r: Option<Day>)
    ensures
        r == date_parse(s@, fmt@),
        r matches Some(d) ==> d.valid(),
{
    let text: String = s.iter().collect();
    chrono::NaiveDate::parse_from_str(&text, fmt).ok().map(
        |d| Day { year: d.year(), month: d.month(), day: d.day() },
    )
}

/// Relies on chrono's `NaiveDateTime::signed_duration_since` (read with
/// `TimeDelta::num_seconds`): the exact signed number of seconds from `from`
/// to `to` on the proleptic Gregorian calendar, for times without a
/// sub-second part.
#[verifier::external_body]
pub(crate) fn seconds_between(from: &Stamp, to: &Stamp) -> (r: i64)
    requires
        from.valid(),
        to.valid(),
    ensures
        r == to.seconds() - from.seconds(),
{
    let (f, t) = (from.date, to.date);
    let a = chrono::NaiveDate::from_ymd_opt(f.year, f.month, f.day).unwrap();
    let b = chrono::NaiveDate::from_ymd_opt(t.year, t.month, t.day).unwrap();
    let a = a.and_hms_opt(from.hour, from.minute, from.second).unwrap();
    let b = b.and_hms_opt(to.hour, to.minute, to.second).unwrap();
    b.signed_duration_since(a).num_seconds()
}

} // verus!

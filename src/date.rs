//! Calendar days as day numbers of the proleptic Gregorian calendar.

use chrono::{Datelike, NaiveDate};
use vstd::prelude::*;

verus! {

/// Smallest year that a date of this library can carry.
pub const MIN_YEAR: i32 = -262143;

/// Largest year that a date of this library can carry.
pub const MAX_YEAR: i32 = 262142;

pub open spec fn is_leap_year(y: int) -> bool {
    y % 4 == 0 && (y % 100 != 0 || y % 400 == 0)
}

pub open spec fn days_in_month(y: int, m: int) -> int {
    if m == 2 {
        if is_leap_year(y) {
            29
        } else {
            28
        }
    } else if m == 4 || m == 6 || m == 9 || m == 11 {
        30
    } else {
        31
    }
}

/// A year, month and day that name an existing day within the supported years.
pub open spec fn is_valid_ymd(y: int, m: int, d: int) -> bool {
    &&& MIN_YEAR <= y <= MAX_YEAR
    &&& 1 <= m <= 12
    &&& 1 <= d <= days_in_month(y, m)
}

/// Days of the months of year `y` that come before month `m`.
pub open spec fn days_before_month(y: int, m: int) -> int
    decreases m,
{
    if m <= 1 {
        0
    } else {
        days_before_month(y, m - 1) + days_in_month(y, m - 1)
    }
}

/// Days of all the years before year `y`, counted from year 1 (negative for
/// `y < 1`).
pub open spec fn days_before_year(y: int) -> int {
    365 * (y - 1) + (y - 1) / 4 - (y - 1) / 100 + (y - 1) / 400
}

/// Day number of a calendar date, January 1 of year 1 being day 1.
pub open spec fn day_number(y: int, m: int, d: int) -> int {
    days_before_year(y) + days_before_month(y, m) + d
}

/// A calendar day, held as its day number (January 1 of year 1 is day 1).
#[derive(Debug, Clone, Copy, PartialEq, Eq, Structural)]
pub struct Date {
    pub days: i32,
}

/// Relies on chrono's `NaiveDate::from_ymd_opt`, which gives `None` exactly for a
/// day that does not exist or a year outside `MIN_YEAR..=MAX_YEAR`, and on
/// `Datelike::num_days_from_ce`, which counts days with January 1 of year 1 as
/// day 1.
#[verifier::external_body]
fn ymd_to_day_number(year: i32, month: u32, day: u32) -> (r: Option<i32>)
    ensures
        r.is_some() == is_valid_ymd(year as int, month as int, day as int),
        r matches Some(n) ==> n == day_number(year as int, month as int, day as int),
{
    match NaiveDate::from_ymd_opt(year, month, day) {
        Some(d) => Some(d.num_days_from_ce()),
        None => None,
    }
}

/// The date with the given year, month and day, if that day exists.
pub fn from_ymd(year: i32, month: u32, day: u32) -> (r: Option<Date>)
    ensures
        r.is_some() == is_valid_ymd(year as int, month as int, day as int),
        r matches Some(d) ==> d.days == day_number(year as int, month as int, day as int),
{
    match ymd_to_day_number(year, month, day) {
        Some(n) => Some(Date { days: n }),
        None => None,
    }
}

/// The date with the given year, month and day, which must exist.
pub fn date(year: i32, month: u32, day: u32) -> (r: Date)
    requires
        is_valid_ymd(year as int, month as int, day as int),
    ensures
        r.days == day_number(year as int, month as int, day as int),
{
    match from_ymd(year, month, day) {
        Some(d) => d,
        None => Date { days: 0 },
    }
}

} // verus!

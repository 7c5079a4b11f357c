//! The bulletin's notion of time: a UTC instant at minute precision.
//!
//! An instant is a count of minutes since 1970-01-01T00:00 UTC in the
//! proleptic Gregorian calendar. The spec functions define the calendar
//! directly — days accumulated year by year and month by month — and the
//! executable conversion is proved against them.

use vstd::prelude::*;

verus! {

/// Whether `y` is a Gregorian leap year.
pub open spec fn is_leap_year(y: int) -> bool {
    y % 4 == 0 && (y % 100 != 0 || y % 400 == 0)
}

/// Days in year `y`: 366 in a leap year, else 365.
pub open spec fn days_in_year(y: int) -> int {
    if is_leap_year(y) {
        366
    } else {
        365
    }
}

/// Days in month `m` (1-based) of year `y`.
pub open spec fn days_in_month(y: int, m: int) -> int {
    if m == 1 {
        31
    } else if m == 2 {
        if is_leap_year(y) {
            29
        } else {
            28
        }
    } else if m == 3 {
        31
    } else if m == 4 {
        30
    } else if m == 5 {
        31
    } else if m == 6 {
        30
    } else if m == 7 {
        31
    } else if m == 8 {
        31
    } else if m == 9 {
        30
    } else if m == 10 {
        31
    } else if m == 11 {
        30
    } else {
        31
    }
}

/// Days from 1970-01-01 to the first day of year `y` (negative before 1970).
pub open spec fn days_before_year(y: int) -> int
    decreases (if y >= 1970 { y - 1970 } else { 1970 - y }),
{
    if y == 1970 {
        0
    } else if y > 1970 {
        days_before_year(y - 1) + days_in_year(y - 1)
    } else {
        days_before_year(y + 1) - days_in_year(y)
    }
}

/// Days from the first of January of year `y` to the first of month `m`.
pub open spec fn days_before_month(y: int, m: int) -> int
    decreases m,
{
    if m <= 1 {
        0
    } else {
        days_before_month(y, m - 1) + days_in_month(y, m - 1)
    }
}

/// Whether year/month/day/hour/minute name a real calendar instant.
pub open spec fn civil_valid(y: int, m: int, d: int, h: int, mi: int) -> bool {
    &&& 0 <= y <= 9999
    &&& 1 <= m <= 12
    &&& 1 <= d <= days_in_month(y, m)
    &&& 0 <= h <= 23
    &&& 0 <= mi <= 59
}

/// Minutes from 1970-01-01T00:00 UTC to the instant `y-m-d h:mi` UTC.
pub open spec fn epoch_minutes(y: int, m: int, d: int, h: int, mi: int) -> int {
    ((days_before_year(y) + days_before_month(y, m) + (d - 1)) * 24 + h) * 60 + mi
}

/// Each year contributes at most 366 days, so the day count to year `y`
/// stays within 366 times the distance from 1970.
proof fn lemma_days_before_year_bound(y: int)
    ensures
        y >= 1970 ==> 0 <= days_before_year(y) <= 366 * (y - 1970),
        y < 1970 ==> -366 * (1970 - y) <= days_before_year(y) <= 0,
    decreases (if y >= 1970 { y - 1970 } else { 1970 - y }),
{
    if y > 1970 {
        lemma_days_before_year_bound(y - 1);
    } else if y < 1970 {
        lemma_days_before_year_bound(y + 1);
    }
}

/// Months contribute at most 31 days each, so the day count into a year is
/// small and nonnegative.
proof fn lemma_days_before_month_bound(y: int, m: int)
    ensures
        m >= 1 ==> 0 <= days_before_month(y, m) <= 31 * (m - 1),
    decreases m,
{
    if m > 1 {
        lemma_days_before_month_bound(y, m - 1);
    }
}

/// Any instant of the four-digit-year calendar lies within five billion
/// minutes of the epoch.
pub proof fn lemma_epoch_minutes_bound(y: int, m: int, d: int, h: int, mi: int)
    requires
        civil_valid(y, m, d, h, mi),
    ensures
        -5_000_000_000 <= epoch_minutes(y, m, d, h, mi) <= 5_000_000_000,
{
    lemma_days_before_year_bound(y);
    lemma_days_before_month_bound(y, m);
}

/// A UTC instant at minute precision: minutes since 1970-01-01T00:00 UTC.
///
/// The count is wide enough that adding the decoder's forecast-hour offsets
/// can never overflow, whatever the column count.
#[derive(Clone, Copy, Debug, PartialEq, Eq, Structural)]
pub struct Timestamp {
    /// Minutes since 1970-01-01T00:00 UTC; negative before the epoch.
    pub minutes: i128,
}

impl Default for Timestamp {
    /// The epoch itself, 1970-01-01T00:00 UTC.
    fn default() -> (t: Timestamp)
        ensures
            t.minutes == 0,
    {
        Timestamp { minutes: 0 }
    }
}

impl Timestamp {
    /// Builds the instant for a valid calendar date and time of day.
    pub fn from_civil(y: u16, m: u8, d: u8, h: u8, mi: u8) -> (t: Timestamp)
        requires
            civil_valid(y as int, m as int, d as int, h as int, mi as int),
        ensures
            t.minutes == epoch_minutes(y as int, m as int, d as int, h as int, mi as int),
    {
        proof {
            lemma_days_before_year_bound(y as int);
            lemma_days_before_month_bound(y as int, m as int);
        }
        let mut days: i64 = 0;
        if y >= 1970 {
            let mut cy: u16 = 1970;
            while cy < y
                invariant
                    1970 <= cy <= y,
                    y <= 9999,
                    days == days_before_year(cy as int),
                    0 <= days <= 366 * (cy - 1970),
                decreases y - cy,
            {
                proof {
                    lemma_days_before_year_bound(cy as int);
                    lemma_days_before_year_bound(cy + 1);
                }
                days = days + days_in_year_exec(cy) as i64;
                cy = cy + 1;
            }
        } else {
            let mut cy: u16 = y;
            while cy < 1970
                invariant
                    y <= cy <= 1970,
                    days == days_before_year(y as int) - days_before_year(cy as int),
                    -366 * 1970 <= days <= 0,
                decreases 1970 - cy,
            {
                proof {
                    lemma_days_before_year_bound(y as int);
                    lemma_days_before_year_bound(cy as int);
                    lemma_days_before_year_bound(cy + 1);
                }
                days = days - days_in_year_exec(cy) as i64;
                cy = cy + 1;
            }
        }
        let mut cm: u8 = 1;
        let mut mdays: i64 = 0;
        while cm < m
            invariant
                1 <= cm <= m,
                m <= 12,
                mdays == days_before_month(y as int, cm as int),
                0 <= mdays <= 31 * (cm - 1),
            decreases m - cm,
        {
            proof {
                lemma_days_before_month_bound(y as int, cm as int);
                lemma_days_before_month_bound(y as int, cm + 1);
            }
            mdays = mdays + days_in_month_exec(y, cm) as i64;
            cm = cm + 1;
        }
        let total_days: i64 = days + mdays + (d as i64 - 1);
        let minutes: i64 = (total_days * 24 + h as i64) * 60 + mi as i64;
        Timestamp { minutes: minutes as i128 }
    }

    /// The instant `h` hours after this one.
    pub fn plus_hours(&self, h: i128) -> (t: Timestamp)
        requires
            i128::MIN <= 60 * h <= i128::MAX,
            i128::MIN <= self.minutes + 60 * h <= i128::MAX,
        ensures
            t.minutes == self.minutes + 60 * h,
    {
        Timestamp { minutes: self.minutes + 60 * h }
    }
}

/// Executable twin of [`days_in_year`].
fn days_in_year_exec(y: u16) -> (d: u16)
    ensures
        d == days_in_year(y as int),
{
    if y % 4 == 0 && (y % 100 != 0 || y % 400 == 0) {
        366
    } else {
        365
    }
}

/// Executable twin of [`days_in_month`].
pub fn days_in_month_exec(y: u16, m: u8) -> (d: u8)
    requires
        1 <= m <= 12,
    ensures
        d == days_in_month(y as int, m as int),
{
    if m == 2 {
        if y % 4 == 0 && (y % 100 != 0 || y % 400 == 0) {
            29
        } else {
            28
        }
    } else if m == 4 || m == 6 || m == 9 || m == 11 {
        30
    } else {
        31
    }
}

} // verus!

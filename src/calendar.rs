//! Civil-calendar arithmetic in UTC: day numbers and seconds since the Unix epoch.

use vstd::prelude::*;

verus! {

pub open spec fn is_leap(y: int) -> bool {
    (y % 4 == 0 && y % 100 != 0) || y % 400 == 0
}

pub open spec fn days_in_month(y: int, m: int) -> int {
    if m == 2 {
        if is_leap(y) {
            29
        } else {
            28
        }
    } else if m == 4 || m == 6 || m == 9 || m == 11 {
        30
    } else {
        31
    }
}

/// Leap years among `1..=n`, for `n >= 0`.
pub open spec fn leaps_through(n: int) -> int {
    n / 4 - n / 100 + n / 400
}

/// Days from 1970-01-01 to January 1st of year `y` (negative before 1970), for `y >= 1`.
pub open spec fn days_before_year(y: int) -> int {
    365 * (y - 1970) + leaps_through(y - 1) - leaps_through(1969)
}

/// Days of year `y` before the first of month `m`.
pub open spec fn days_before_month(y: int, m: int) -> int
    decreases m,
{
    if m <= 1 {
        0
    } else {
        days_before_month(y, m - 1) + days_in_month(y, m - 1)
    }
}

/// The day number of `y-m-d`, with 1970-01-01 as day 0.
pub open spec fn days_from_civil(y: int, m: int, d: int) -> int {
    days_before_year(y) + days_before_month(y, m) + d - 1
}

/// Seconds since the Unix epoch of `y-m-d hh:mi:00` UTC.
pub open spec fn epoch_seconds(y: int, m: int, d: int, hh: int, mi: int) -> int {
    days_from_civil(y, m, d) * 86400 + hh * 3600 + mi * 60
}

pub open spec fn valid_year(y: int) -> bool {
    1 <= y <= 9999
}

pub fn leap_year(y: u32) -> (r: bool)
    ensures
        r == is_leap(y as int),
{
    (y % 4 == 0 && y % 100 != 0) || y % 400 == 0
}

pub fn month_days(y: u32, m: u32) -> (r: u32)
    ensures
        r == days_in_month(y as int, m as int),
{
    if m == 2 {
        if leap_year(y) {
            29
        } else {
            28
        }
    } else if m == 4 || m == 6 || m == 9 || m == 11 {
        30
    } else {
        31
    }
}

pub fn year_start_days(y: u32) -> (r: i64)
    requires
        valid_year(y as int),
    ensures
        r == days_before_year(y as int),
{
    let p = y - 1;
    let leaps = (p / 4 - p / 100 + p / 400) as i64;
    365 * (y as i64 - 1970) + leaps - 477
}

pub fn month_start_days(y: u32, m: u32) -> (r: i64)
    requires
        1 <= m <= 12,
    ensures
        r == days_before_month(y as int, m as int),
        0 <= r <= 341,
{
    let mut acc: i64 = 0;
    let mut k: u32 = 1;
    while k < m
        invariant
            1 <= k <= m <= 12,
            acc == days_before_month(y as int, k as int),
            0 <= acc <= 31 * (k - 1),
        decreases m - k,
    {
        acc = acc + month_days(y, k) as i64;
        k += 1;
    }
    acc
}

/// Seconds since the Unix epoch of `y-m-d hh:mi:00` UTC.
pub fn civil_to_epoch(y: u32, m: u32, d: u32, hh: u32, mi: u32) -> (r: i64)
    requires
        valid_year(y as int),
        1 <= m <= 12,
        1 <= d <= 31,
        hh <= 23,
        mi <= 59,
    ensures
        r == epoch_seconds(y as int, m as int, d as int, hh as int, mi as int),
{
    let days = year_start_days(y) + month_start_days(y, m) + d as i64 - 1;
    days * 86400 + hh as i64 * 3600 + mi as i64 * 60
}

/// The calendar year, from 1970 up to 9999, in which the instant `secs` seconds
/// after the Unix epoch falls.
pub fn year_of_epoch_seconds(secs: u64) -> (y: u32)
    ensures
        1970 <= y <= 9999,
        days_before_year(y as int) * 86400 <= secs,
        y < 9999 ==> secs < days_before_year(y + 1) * 86400,
{
    let mut y: u32 = 1970;
    while y < 9999 && year_start_days(y + 1) as i128 * 86400 <= secs as i128
        invariant
            1970 <= y <= 9999,
            days_before_year(y as int) * 86400 <= secs,
        decreases 9999 - y,
    {
        y += 1;
    }
    y
}

} // verus!

//! Conversions between Unix time and the packed DOS date and time, in the
//! proleptic Gregorian calendar.

use vstd::prelude::*;

pub mod filetime;

verus! {

/// The first second that a DOS date and time can record: 1980-01-01 00:00:00.
pub const DOS_EPOCH: u64 = 315532800;

/// The first second that a DOS date and time can no longer record:
/// 2108-01-01 00:00:00.
pub const DOS_END: u64 = 4354819200;

/// Whether `year` is a leap year.
pub open spec fn leap(year: int) -> bool {
    (year % 4 == 0 && year % 100 != 0) || year % 400 == 0
}

/// The number of days of `year`.
pub open spec fn year_days(year: int) -> int {
    if leap(year) {
        366
    } else {
        365
    }
}

/// The number of days of the month `month` of `year`; 30 for a number that
/// is no month.
pub open spec fn month_days(year: int, month: int) -> int {
    if month == 2 {
        if leap(year) {
            29
        } else {
            28
        }
    } else if month == 4 || month == 6 || month == 9 || month == 11 {
        30
    } else if 1 <= month <= 12 {
        31
    } else {
        30
    }
}

/// The number of days from 1970-01-01 to the first day of `year`.
pub open spec fn days_before_year(year: int) -> int
    decreases year - 1970,
{
    if year <= 1970 {
        0
    } else {
        days_before_year(year - 1) + year_days(year - 1)
    }
}

/// The number of days from the first day of `year` to the first day of its
/// month `month`.
pub open spec fn days_before_month(year: int, month: int) -> int
    decreases month,
{
    if month <= 1 {
        0
    } else {
        days_before_month(year, month - 1) + month_days(year, month - 1)
    }
}

/// The number of days from 1970-01-01 to the given day.
pub open spec fn days_before(year: int, month: int, day: int) -> int {
    days_before_year(year) + days_before_month(year, month) + day - 1
}

/// Whether `year` is a leap year.
pub fn is_leap_year(year: u64) -> (b: bool)
    ensures
        b == leap(year as int),
{
    (year % 4 == 0 && year % 100 != 0) || (year % 400 == 0)
}

/// The number of days of a year.
pub fn days_in_year(year: u64) -> (d: u64)
    ensures
        d == year_days(year as int),
{
    if is_leap_year(year) {
        366
    } else {
        365
    }
}

/// The number of days of a month; 30 for a number that is no month.
pub fn days_in_month(year: u64, month: u32) -> (d: u32)
    ensures
        d == month_days(year as int, month as int),
        28 <= d <= 31,
{
    if month == 2 {
        if is_leap_year(year) {
            29
        } else {
            28
        }
    } else if month == 4 || month == 6 || month == 9 || month == 11 {
        30
    } else if 1 <= month && month <= 12 {
        31
    } else {
        30
    }
}

/// The packed DOS date and time of a day and a second since 1970: the date
/// in the high half as years since 1980, month and day; the time in the
/// low half as hour, minute and half the second.
pub open spec fn dos_pack(year: int, month: int, day: int, secs: int) -> int {
    ((year - 1980) * 512 + month * 32 + day) * 65536 + ((secs % 86400) / 3600) * 2048 + ((secs
        % 3600) / 60) * 32 + (secs % 60) / 2
}

/// The day that lies `days` days after 1970-01-01 has the given date.
pub open spec fn is_civil(days: int, year: int, month: int, day: int) -> bool {
    &&& 1 <= month <= 12
    &&& 1 <= day <= month_days(year, month)
    &&& days_before(year, month, day) == days
}

/// From 1980 on, the days before a year grow with the year.
pub proof fn lemma_days_before_year_bounds(year: int)
    requires
        1970 <= year,
    ensures
        365 * (year - 1970) <= days_before_year(year) <= 366 * (year - 1970),
    decreases year - 1970,
{
    if year > 1970 {
        lemma_days_before_year_bounds(year - 1);
    }
}

pub proof fn lemma_days_before_1980()
    ensures
        days_before_year(1980) == 3652,
{
    reveal_with_fuel(days_before_year, 11);
}

pub proof fn lemma_days_before_month_bounds(year: int, month: int)
    requires
        1 <= month <= 13,
    ensures
        28 * (month - 1) <= days_before_month(year, month) <= 31 * (month - 1),
        month == 13 ==> days_before_month(year, month) == year_days(year),
{
    reveal_with_fuel(days_before_month, 14);
}

/// The packed DOS date and time of the second `secs` since 1970, taken as
/// UTC; `None` before 1980 and from 2108 on.
#[allow(non_snake_case)]
pub fn system_time_to_dosDateTime(secs: u64) -> (r: Option<u32>)
    ensures
        r.is_some() <==> 315532800 <= secs < 4354819200,
        r.is_some() ==> exists|year: int, month: int, day: int|
            #![trigger dos_pack(year, month, day, secs as int)]
            1980 <= year <= 2107 && is_civil(secs as int / 86400, year, month, day) && r.unwrap()
                == dos_pack(year, month, day, secs as int),
{
    if secs < DOS_EPOCH || secs >= DOS_END {
        return None;
    }
    let total: u64 = secs / 86400;
    let mut days: u64 = total - 3652;
    let mut year: u64 = 1980;
    proof {
        lemma_days_before_1980();
    }
    while days >= days_in_year(year)
        invariant
            1980 <= year,
            total == secs / 86400,
            total < 50403,
            year <= 2108,
            days_before_year(year as int) + days == total,
        decreases days,
    {
        proof {
            lemma_days_before_year_bounds(year + 1);
        }
        days = days - days_in_year(year);
        year = year + 1;
    }
    proof {
        lemma_days_before_year_bounds(year as int);
        lemma_days_before_year_bounds(2108);
        assert(days_before_year(2108) == 50403) by {
            lemma_days_before_2108();
        }
        if year >= 2108 {
            lemma_days_before_year_mono(2108, year as int);
        }
    }
    let mut month: u32 = 1;
    while month < 12 && days >= days_in_month(year, month) as u64
        invariant
            1 <= month <= 12,
            1980 <= year <= 2107,
            days_before_year(year as int) + days_before_month(year as int, month as int) + days
                == total,
            days_before_month(year as int, month as int) + days < year_days(year as int),
        decreases 12 - month,
    {
        days = days - days_in_month(year, month) as u64;
        month = month + 1;
    }
    proof {
        lemma_days_before_month_bounds(year as int, 13);
        assert(days_before_month(year as int, 13) == days_before_month(year as int, 12)
            + month_days(year as int, 12));
        if month < 12 {
        } else {
            assert(days < month_days(year as int, 12));
        }
    }
    let day: u32 = days as u32 + 1;
    let secs_in_day: u32 = (secs % 86400) as u32;
    let hour: u32 = secs_in_day / 3600;
    let minute: u32 = (secs_in_day % 3600) / 60;
    let second: u32 = secs_in_day % 60;
    let dos_time: u32 = hour * 2048 + minute * 32 + second / 2;
    let dos_date: u32 = ((year - 1980) as u32) * 512 + month * 32 + day;
    proof {
        assert(is_civil(secs as int / 86400, year as int, month as int, day as int));
        assert(dos_date * 65536 + dos_time == dos_pack(
            year as int,
            month as int,
            day as int,
            secs as int,
        ));
    }
    Some(dos_date * 65536 + dos_time)
}

pub proof fn lemma_days_before_year_mono(a: int, b: int)
    requires
        1970 <= a <= b,
    ensures
        days_before_year(a) <= days_before_year(b),
    decreases b - a,
{
    if a < b {
        lemma_days_before_year_mono(a, b - 1);
    }
}

pub proof fn lemma_days_before_2108()
    ensures
        days_before_year(2108) == 50403,
{
    lemma_days_before_1980();
    lemma_days_span(1980, 2000);
    lemma_days_span(2000, 2020);
    lemma_days_span(2020, 2040);
    lemma_days_span(2040, 2060);
    lemma_days_span(2060, 2080);
    lemma_days_span(2080, 2100);
    reveal_with_fuel(days_before_year, 9);
    assert(days_before_year(2108) == days_before_year(2100) + 8 * 365 + 1);
}

/// Twenty years from a year that is a multiple of 20, within one century,
/// have 7305 days, or one less when their first year is no leap year.
proof fn lemma_days_span(from: int, to: int)
    requires
        to == from + 20,
        from == 1980 || from == 2000 || from == 2020 || from == 2040 || from == 2060 || from == 2080,
    ensures
        days_before_year(to) == days_before_year(from) + 7305,
{
    reveal_with_fuel(days_before_year, 21);
}

/// The second since 1970 that a packed DOS date and time stand for, taken
/// as UTC; `None` unless the month is one from 1 to 12 and the day one from 1
/// to 31. The day is not held against the length of the month, nor are hour,
/// minute and second held against their ranges.
#[allow(non_snake_case)]
pub fn dosDateTime_to_systemTime(dosDateTime: u32) -> (r: Option<u64>)
    ensures
        ({
            let dos_date = dosDateTime / 65536;
            let dos_time = dosDateTime % 65536;
            let year = dos_date / 512 + 1980;
            let month = (dos_date / 32) % 16;
            let day = dos_date % 32;
            let hour = dos_time / 2048;
            let minute = (dos_time / 32) % 64;
            let second = (dos_time % 32) * 2;
            if month < 1 || month > 12 || day < 1 {
                r.is_none()
            } else {
                r == Some(
                    (days_before(year as int, month as int, day as int) * 86400 + hour * 3600
                        + minute * 60 + second) as u64,
                )
            }
        }),
{
    let dos_date: u32 = dosDateTime / 65536;
    let dos_time: u32 = dosDateTime % 65536;
    let year: u64 = (dos_date / 512) as u64 + 1980;
    let month: u32 = (dos_date / 32) % 16;
    let day: u32 = dos_date % 32;
    let hour: u64 = (dos_time / 2048) as u64;
    let minute: u64 = ((dos_time / 32) % 64) as u64;
    let second: u64 = ((dos_time % 32) * 2) as u64;
    if month < 1 || month > 12 || day < 1 || day > 31 {
        return None;
    }
    let mut days: u64 = 0;
    let mut y: u64 = 1970;
    while y < year
        invariant
            1970 <= y <= year,
            year <= 2107,
            days == days_before_year(y as int),
            days <= 366 * (y - 1970),
        decreases year - y,
    {
        days = days + days_in_year(y);
        y = y + 1;
    }
    let mut m: u32 = 1;
    while m < month
        invariant
            1 <= m <= month <= 12,
            year <= 2107,
            days == days_before_year(year as int) + days_before_month(year as int, m as int),
            days <= 366 * (year - 1970) + 31 * (m - 1),
        decreases month - m,
    {
        days = days + days_in_month(year, m) as u64;
        m = m + 1;
    }
    days = days + (day as u64 - 1);
    Some(days * 86400 + hour * 3600 + minute * 60 + second)
}

} // verus!

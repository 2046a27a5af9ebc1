//! DOS dates and times, the timestamps of ZIP entries: two 16-bit words with
//! a resolution of two seconds, for the years from 1980 on.
//!
//! The calendar is that of the `time` crate.

use vstd::prelude::*;

verus! {

/// The Unix timestamp of a date and time of day in UTC, as the `time` crate
/// computes it; `None` where the crate rejects the date or the time.
pub uninterp spec fn utc_timestamp(
    year: i32,
    month: u8,
    day: u8,
    hour: u8,
    minute: u8,
    second: u8,
) -> Option<i64>;

/// The date and time of day in UTC of a Unix timestamp, as the `time` crate
/// computes them: year, month, day, hour, minute, second; `None` where the
/// crate rejects the timestamp.
pub uninterp spec fn utc_civil(timestamp: i64) -> Option<(i32, u8, u8, u8, u8, u8)>;

/// The Unix timestamp of a date and time of day in UTC.
///
/// Calls `time::Month::try_from`, `time::Date::from_calendar_date`,
/// `time::Time::from_hms`, `time::Date::with_time`,
/// `time::PrimitiveDateTime::assume_utc` and
/// `time::OffsetDateTime::unix_timestamp`. The contract claims only that the
/// result is determined by the six numbers.
#[verifier::external_body]
fn civil_to_timestamp(year: i32, month: u8, day: u8, hour: u8, minute: u8, second: u8) -> (r:
    Option<i64>)
    ensures
        r == utc_timestamp(year, month, day, hour, minute, second),
{
    let month = time::Month::try_from(month).ok()?;
    let date = time::Date::from_calendar_date(year, month, day).ok()?;
    let time = time::Time::from_hms(hour, minute, second).ok()?;
    Some(date.with_time(time).assume_utc().unix_timestamp())
}

/// The date and time of day in UTC of a Unix timestamp.
///
/// Calls `time::OffsetDateTime::from_unix_timestamp` and the accessors
/// `year`, `month`, `day`, `hour`, `minute` and `second` of its result. The
/// contract claims that the result is determined by the timestamp, and the
/// ranges that the crate documents for the accessors: a month from 1 to 12,
/// a day from 1 to 31, an hour below 24, a minute and a second below 60.
#[verifier::external_body]
fn timestamp_to_civil(timestamp: i64) -> (r: Option<(i32, u8, u8, u8, u8, u8)>)
    ensures
        r == utc_civil(timestamp),
        r.is_some() ==> 1 <= r.unwrap().1 <= 12 && 1 <= r.unwrap().2 <= 31 && r.unwrap().3 < 24
            && r.unwrap().4 < 60 && r.unwrap().5 < 60,
{
    let t = time::OffsetDateTime::from_unix_timestamp(timestamp).ok()?;
    Some((t.year(), u8::from(t.month()), t.day(), t.hour(), t.minute(), t.second()))
}

/// The year of a DOS date.
pub open spec fn dos_year(dos_date: u16) -> int {
    dos_date / 512 + 1980
}

/// The month of a DOS date.
pub open spec fn dos_month(dos_date: u16) -> int {
    ((dos_date / 32) % 16) as int
}

/// The day of a DOS date.
pub open spec fn dos_day(dos_date: u16) -> int {
    (dos_date % 32) as int
}

/// The hour of a DOS time.
pub open spec fn dos_hour(dos_time: u16) -> int {
    (dos_time / 2048) as int
}

/// The minute of a DOS time.
pub open spec fn dos_minute(dos_time: u16) -> int {
    ((dos_time / 32) % 64) as int
}

/// The second of a DOS time: always even.
pub open spec fn dos_second(dos_time: u16) -> int {
    (dos_time % 32) * 2
}

/// The Unix timestamp that a DOS date and time stand for, taken as UTC. A
/// date of 0, a month of 0 and a day of 0 stand for the timestamp 0; a month
/// above 12 counts as January; a date or time that the calendar rejects
/// stands for the timestamp 0.
pub open spec fn dos_timestamp(dos_time: u16, dos_date: u16) -> i64 {
    if dos_date == 0 || dos_month(dos_date) == 0 || dos_day(dos_date) == 0 {
        0
    } else {
        let month = if dos_month(dos_date) > 12 { 1 } else { dos_month(dos_date) };
        match utc_timestamp(
            dos_year(dos_date) as i32,
            month as u8,
            dos_day(dos_date) as u8,
            dos_hour(dos_time) as u8,
            dos_minute(dos_time) as u8,
            dos_second(dos_time) as u8,
        ) {
            Some(t) => t,
            None => 0,
        }
    }
}

/// The Unix timestamp that a DOS date and time stand for.
pub fn dos_to_system_time(dos_time: u16, dos_date: u16) -> (t: i64)
    ensures
        t == dos_timestamp(dos_time, dos_date),
{
    let year: i32 = (dos_date / 512) as i32 + 1980;
    let month: u8 = ((dos_date / 32) % 16) as u8;
    let day: u8 = (dos_date % 32) as u8;
    let hour: u8 = (dos_time / 2048) as u8;
    let minute: u8 = ((dos_time / 32) % 64) as u8;
    let second: u8 = ((dos_time % 32) * 2) as u8;
    if dos_date == 0 || month == 0 || day == 0 {
        return 0;
    }
    let month: u8 = if month > 12 { 1 } else { month };
    match civil_to_timestamp(year, month, day, hour, minute, second) {
        Some(t) => t,
        None => 0,
    }
}

/// The DOS time and date of a Unix timestamp, taken as UTC: the time word
/// holds hour, minute and half the second; the date word holds the years
/// since 1980, the month and the day. No time, and a timestamp that the
/// calendar rejects, give two zeros. Years before 1980 count as 1980, and
/// of the years since 1980 only the low seven bits are kept.
pub open spec fn dos_words(time: Option<u64>) -> (u16, u16) {
    let secs = match time {
        Some(s) => s,
        None => 0,
    };
    if secs > i64::MAX {
        (0, 0)
    } else {
        match utc_civil(secs as i64) {
            None => (0, 0),
            Some((year, month, day, hour, minute, second)) => {
                let years = if year > 1980 { (year - 1980) % 128 } else { 0 };
                (
                    (hour * 2048 + minute * 32 + second / 2) as u16,
                    (years * 512 + month * 32 + day) as u16,
                )
            },
        }
    }
}

/// The DOS time and date of a Unix timestamp.
pub fn system_time_to_dos(time: Option<u64>) -> (r: (u16, u16))
    ensures
        r == dos_words(time),
{
    let secs: u64 = match time {
        Some(s) => s,
        None => 0,
    };
    if secs > i64::MAX as u64 {
        return (0, 0);
    }
    match timestamp_to_civil(secs as i64) {
        None => (0, 0),
        Some(civil) => {
            let years: u16 = if civil.0 > 1980 { ((civil.0 - 1980) % 128) as u16 } else { 0 };
            let dos_time: u16 = (civil.3 as u16) * 2048 + (civil.4 as u16) * 32 + (civil.5 as u16)
                / 2;
            let dos_date: u16 = years * 512 + (civil.1 as u16) * 32 + civil.2 as u16;
            (dos_time, dos_date)
        },
    }
}

} // verus!

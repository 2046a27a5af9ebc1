use zip_rs::platform::{
    days_in_month, dosDateTime_to_systemTime, is_leap_year, system_time_to_dosDateTime,
};

#[test]
fn test_dos_datetime_roundtrip() {
    let time: u64 = 1_700_000_000;
    let dos = system_time_to_dosDateTime(time).unwrap();
    let back = dosDateTime_to_systemTime(dos).unwrap();

    let diff = if back > time { back - time } else { time - back };

    assert!(diff <= 10);
}

#[test]
fn packed_dos_times() {
    // 2023-11-14 22:13:20 UTC
    let dos = system_time_to_dosDateTime(1_700_000_000).unwrap();
    let date = (43 << 9) | (11 << 5) | 14;
    let time = (22 << 11) | (13 << 5) | 10;
    assert_eq!(dos, (date << 16) | time);
    assert_eq!(dosDateTime_to_systemTime(dos), Some(1_700_000_000));
    // 1980-01-01 00:00:00 is the first time, 2107-12-31 23:59:59 the last.
    assert_eq!(system_time_to_dosDateTime(315532799), None);
    assert_eq!(system_time_to_dosDateTime(315532800), Some(((1 << 5) | 1) << 16));
    assert_eq!(system_time_to_dosDateTime(0), None);
    let last = system_time_to_dosDateTime(4354819199).unwrap();
    assert_eq!(last >> 16, (127 << 9) | (12 << 5) | 31);
    assert_eq!(last & 0xFFFF, (23 << 11) | (59 << 5) | 29);
    assert_eq!(system_time_to_dosDateTime(4354819200), None);
    assert_eq!(dosDateTime_to_systemTime(last), Some(4354819198));
    // The last day of February in a leap year, and the day after.
    let leap_day = system_time_to_dosDateTime(1582934400).unwrap();
    assert_eq!(leap_day >> 16, (40 << 9) | (2 << 5) | 29);
    let after = system_time_to_dosDateTime(1582934400 + 86400).unwrap();
    assert_eq!(after >> 16, (40 << 9) | (3 << 5) | 1);
    // 2000 was a leap year, 2100 will be none.
    let y2100 = system_time_to_dosDateTime(4102444800 + 59 * 86400).unwrap();
    assert_eq!(y2100 >> 16, (120 << 9) | (3 << 5) | 1);
}

#[test]
fn dos_times_without_month_or_day() {
    assert_eq!(dosDateTime_to_systemTime(0), None);
    assert_eq!(dosDateTime_to_systemTime(((13 << 5) | 1) << 16), None);
    assert_eq!(dosDateTime_to_systemTime((1 << 5) << 16), None);
    assert_eq!(dosDateTime_to_systemTime(((1 << 5) | 1) << 16), Some(315532800));
    // The day is not held against the month.
    assert_eq!(
        dosDateTime_to_systemTime(((2 << 5) | 31) << 16),
        Some(315532800 + (31 + 30) * 86400)
    );
}

#[test]
fn leap_years_and_months() {
    assert!(is_leap_year(2000));
    assert!(is_leap_year(2024));
    assert!(!is_leap_year(1900));
    assert!(!is_leap_year(2023));
    assert_eq!(days_in_month(2024, 2), 29);
    assert_eq!(days_in_month(2023, 2), 28);
    assert_eq!(days_in_month(2023, 4), 30);
    assert_eq!(days_in_month(2023, 12), 31);
    assert_eq!(days_in_month(2023, 0), 30);
    assert_eq!(days_in_month(2023, 13), 30);
    assert_eq!(zip_rs::platform::days_in_year(2024), 366);
}

#[test]
fn ticks_since_1601_of_known_times() {
    let ticks = zip_rs::platform::filetime::ticks_since_1601;
    assert_eq!(ticks(0, 0), Some(116_444_736_000_000_000));
    assert_eq!(ticks(1, 0), Some(116_444_736_010_000_000));
    assert_eq!(ticks(0, 99), Some(116_444_736_000_000_000));
    assert_eq!(ticks(0, 100), Some(116_444_736_000_000_001));
    assert_eq!(ticks(1_700_000_000, 123_456_789), Some(133_444_736_001_234_567));
    // The last second that 64 bits hold, and the first that they do not.
    let last = (u64::MAX - 116_444_736_000_000_000) / 10_000_000;
    assert_eq!(ticks(last, 0), Some(last * 10_000_000 + 116_444_736_000_000_000));
    assert_eq!(ticks(last, 999_999_999), None);
    assert_eq!(ticks(last + 1, 0), None);
    assert_eq!(ticks(u64::MAX, 0), None);
}

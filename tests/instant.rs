use ics_today::event::{Event, RawProperty};
use ics_today::instant::Instant;

fn at(year: i32, month: u32, day: u32, hour: u32, minute: u32, second: u32) -> Instant {
    Instant { year, month, day, hour, minute, second }
}

#[test]
fn decodes_fixed_offsets() {
    assert_eq!(Instant::decode("20240615T093045"), Some(at(2024, 6, 15, 9, 30, 45)));
}

#[test]
fn zone_marker_and_separator_are_ignored() {
    assert_eq!(Instant::decode("20240615T093045Z"), Some(at(2024, 6, 15, 9, 30, 45)));
    assert_eq!(Instant::decode("20240615X093045"), Some(at(2024, 6, 15, 9, 30, 45)));
}

#[test]
fn short_timestamp_is_rejected() {
    assert_eq!(Instant::decode("20240615T09304"), None);
    assert_eq!(Instant::decode(""), None);
    assert_eq!(Instant::decode("20240615"), None);
}

#[test]
fn non_digit_fields_are_rejected() {
    assert_eq!(Instant::decode("2024O615T093045"), None);
    assert_eq!(Instant::decode("+024 615T093045"), None);
    assert_eq!(Instant::decode("20240615T-93045"), None);
}

#[test]
fn out_of_range_fields_are_rejected() {
    assert_eq!(Instant::decode("20241315T093045"), None);
    assert_eq!(Instant::decode("20240600T093045"), None);
    assert_eq!(Instant::decode("20240431T093045"), None);
    assert_eq!(Instant::decode("20240615T243045"), None);
    assert_eq!(Instant::decode("20240615T096045"), None);
    assert_eq!(Instant::decode("20240615T093060"), None);
}

#[test]
fn leap_days_follow_the_gregorian_rule() {
    assert!(Instant::decode("20240229T000000").is_some());
    assert!(Instant::decode("20230229T000000").is_none());
    assert!(Instant::decode("19000229T000000").is_none());
    assert!(Instant::decode("20000229T000000").is_some());
}

#[test]
fn year_zero_and_largest_four_digit_year() {
    assert_eq!(Instant::decode("00000101T000000"), Some(at(0, 1, 1, 0, 0, 0)));
    assert_eq!(Instant::decode("99991231T235959"), Some(at(9999, 12, 31, 23, 59, 59)));
}

#[test]
fn ordinal_counts_from_january_first() {
    assert_eq!(at(2024, 1, 1, 0, 0, 0).ordinal(), 1);
    assert_eq!(at(2024, 3, 1, 0, 0, 0).ordinal(), 61);
    assert_eq!(at(2023, 3, 1, 0, 0, 0).ordinal(), 60);
    assert_eq!(at(2024, 12, 31, 0, 0, 0).ordinal(), 366);
    assert_eq!(at(2023, 12, 31, 0, 0, 0).ordinal(), 365);
}

#[test]
fn hour_and_minute_come_back_padded() {
    let props = vec![
        RawProperty { name: "DTSTART".to_string(), value: Some("20240615T070500".to_string()) },
        RawProperty { name: "DTEND".to_string(), value: Some("20240615T231959".to_string()) },
        RawProperty { name: "SUMMARY".to_string(), value: Some("T".to_string()) },
    ];
    let e = Event::from_properties(&props).unwrap();
    assert_eq!(e.to_string(), "07:05;23:19;T;");
}

#[test]
fn validity_follows_the_calendar() {
    assert!(at(2024, 2, 29, 23, 59, 59).is_valid());
    assert!(!at(2023, 2, 29, 0, 0, 0).is_valid());
    assert!(!at(2024, 4, 31, 0, 0, 0).is_valid());
    assert!(!at(2024, 13, 1, 0, 0, 0).is_valid());
    assert!(!at(2024, 1, 0, 0, 0, 0).is_valid());
    assert!(!at(2024, 1, 1, 24, 0, 0).is_valid());
    assert!(!at(2024, 1, 1, 0, 60, 0).is_valid());
    assert!(!at(2024, 1, 1, 0, 0, 60).is_valid());
    assert!(at(-262143, 1, 1, 0, 0, 0).is_valid());
    assert!(!at(-262144, 1, 1, 0, 0, 0).is_valid());
    assert!(at(262142, 12, 31, 0, 0, 0).is_valid());
    assert!(!at(262143, 1, 1, 0, 0, 0).is_valid());
}

#[test]
fn precedes_is_lexicographic() {
    assert!(at(2024, 1, 1, 0, 0, 0).precedes(&at(2024, 1, 1, 0, 0, 1)));
    assert!(at(2023, 12, 31, 23, 59, 59).precedes(&at(2024, 1, 1, 0, 0, 0)));
    assert!(!at(2024, 1, 1, 0, 0, 0).precedes(&at(2024, 1, 1, 0, 0, 0)));
    assert!(!at(2024, 2, 1, 0, 0, 0).precedes(&at(2024, 1, 31, 23, 0, 0)));
}

use rinha::calendar::{
    day_of_week, is_hour_dow, is_minutes, iso_to_minutes, minutes_between, parse_decimal4,
    parse_iso8601_hour_dow,
};
use rinha::parse::parse_decimal2;

#[test]
fn test_day_of_week_wednesday() {
    let (_, dow) = parse_iso8601_hour_dow(b"2026-03-11T18:45:53Z");
    assert_eq!(dow, 2);
}

#[test]
fn hours_are_read() {
    assert_eq!(parse_iso8601_hour_dow(b"2026-03-11T18:45:53Z").0, 18);
    assert_eq!(parse_iso8601_hour_dow(b"2026-03-15T00:00:00Z"), (0, 6));
}

#[test]
fn short_timestamps_read_as_zeros() {
    assert_eq!(parse_iso8601_hour_dow(b"2026-03-11T18:45"), (0, 0));
    let stamp = iso_to_minutes(b"2026-03-11T18:45");
    assert_eq!((stamp.minutes, stamp.seconds), (0, 0));
}

#[test]
fn weekdays_follow_the_calendar() {
    assert_eq!(day_of_week(1, 1, 1), 0);
    assert_eq!(day_of_week(1970, 1, 1), 3);
    assert_eq!(day_of_week(2000, 2, 29), 1);
    assert_eq!(day_of_week(2000, 3, 1), 2);
    assert_eq!(day_of_week(1900, 3, 1), 3);
    assert_eq!(day_of_week(2024, 12, 31), 1);
}

#[test]
fn a_date_before_the_calendar_leaves_the_week() {
    // The sum is -1: its remainder, taken as a byte, is 255, and one less is 254.
    assert_eq!(day_of_week(0, 1, 0), 254);
}

#[test]
fn decimals_are_read() {
    assert_eq!(parse_decimal2(b"00"), 0);
    assert_eq!(parse_decimal2(b"42"), 42);
    assert_eq!(parse_decimal2(b"4"), 0);
    assert_eq!(parse_decimal4(b"2026"), 2026);
    assert_eq!(parse_decimal4(b"202"), 0);
    // A character behind the digits counts on.
    assert_eq!(parse_decimal2(b":0"), 100);
}

#[test]
fn minutes_are_counted() {
    let stamp = iso_to_minutes(b"2026-03-11T18:45:53Z");
    assert_eq!(stamp.minutes, 2026 * 525960 + 3 * 43800 + 11 * 1440 + 18 * 60 + 45);
    assert_eq!(stamp.seconds, 53);
    let interval = minutes_between(b"2026-03-11T18:45:53Z", b"2026-03-11T19:00:08Z");
    assert_eq!(interval.to.minutes - interval.from.minutes, 15);
    assert_eq!((interval.from.seconds, interval.to.seconds), (53, 8));
}

#[test]
fn unreadable_timestamps_are_told_apart() {
    assert!(is_hour_dow(b"2026-03-11T18:45:53Z"));
    assert!(is_minutes(b"2026-03-11T18:45:53Z"));
    assert!(is_hour_dow(b""));
    assert!(is_minutes(b"2026"));
    assert!(!is_hour_dow(b"2026-13-11T18:45:53Z"));
    assert!(!is_hour_dow(b"2026-00-11T18:45:53Z"));
    assert!(is_minutes(b"2026-13-11T18:45:53Z"));
    assert!(!is_hour_dow(b"2026-03-11T 8:45:53Z"));
    assert!(!is_minutes(b"2026-03-11T18:45: 3Z"));
    assert!(!is_minutes(b"2026-03-11T18:zz:53Z"));
}

#[test]
fn time_does_not_run_backward() {
    let a = b"2026-03-11T18:40:00Z";
    let b = b"2026-03-11T18:45:00Z";
    assert_eq!(minutes_between(a, b).seconds(), 300);
    assert_eq!(minutes_between(b, a).seconds(), 0);
    assert_eq!(minutes_between(a, a).seconds(), 0);
    assert_eq!(minutes_between(a, b"2026-03-11T18:40:59Z").seconds(), 59);
    // Every month counts as much as any other.
    let days = minutes_between(b"2026-03-31T00:00:00Z", b"2026-04-01T00:00:00Z");
    assert_eq!(days.seconds(), 600 * 60);
    assert_eq!(minutes_between(b"", b"").seconds(), 0);
}

//! Duration and timestamp literal parsing.

use duty_paths::duration::Duration;
use duty_paths::parsers::{parse_2_digits, parse_duration, parse_timestamp};
use duty_paths::timestamp::Timestamp;

fn full_duration(input: &str) -> Option<Duration> {
    let (consumed, d) = parse_duration(input);
    if consumed == input.len() {
        Some(d)
    } else {
        None
    }
}

fn full_timestamp(input: &str) -> Option<Timestamp> {
    match parse_timestamp(input) {
        Some((consumed, t)) if consumed == input.len() => Some(t),
        _ => None,
    }
}

#[test]
fn duration() {
    assert_eq!(full_duration("1h2m3s"), Some(Duration::from_s(3600 + 120 + 3)));

    assert_eq!(full_duration("127s"), Some(Duration::from_s(127)));
}

#[test]
fn timestamp() {
    assert_eq!(full_timestamp("01:02:03"), Some(Timestamp::from_dhms(0, 1, 2, 3)));
    assert_eq!(full_timestamp("01:02"), Some(Timestamp::from_dhms(0, 1, 2, 0)));

    assert_eq!(full_timestamp("01:02:03 +7"), Some(Timestamp::from_dhms(7, 1, 2, 3)));

    assert!(full_timestamp("1:02:03").is_none());
}

#[test]
fn duration_partial_and_empty() {
    // No recognizable part: nothing is consumed, zero duration.
    let (consumed, d) = parse_duration("xyz");
    assert_eq!(consumed, 0);
    assert_eq!(d, Duration::from_s(0));

    let (consumed, d) = parse_duration("");
    assert_eq!(consumed, 0);
    assert_eq!(d, Duration::from_s(0));

    // A 16-bit overflow in the leading number leaves the part unconsumed.
    let (consumed, d) = parse_duration("99999h");
    assert_eq!(consumed, 0);
    assert_eq!(d, Duration::from_s(0));

    // Trailing input is left alone.
    let (consumed, d) = parse_duration("2m10");
    assert_eq!(consumed, 2);
    assert_eq!(d, Duration::from_s(120));
}

#[test]
fn two_digit_groups() {
    assert_eq!(parse_2_digits("07"), Some(7));
    assert_eq!(parse_2_digits("42x"), Some(42));
    assert_eq!(parse_2_digits("7"), None);
    assert_eq!(parse_2_digits("x7"), None);
    assert_eq!(parse_2_digits(""), None);
}

#[test]
fn timestamp_trailing_day() {
    // A day marker without digits is not consumed.
    let (consumed, t) = parse_timestamp("01:02 +").unwrap();
    assert_eq!(consumed, 5);
    assert_eq!(t, Timestamp::from_dhms(0, 1, 2, 0));
}

use bracket_watch::timestamp::Timestamp;
use bracket_watch::timestamp::format_rfc3339;
use bracket_watch::timestamp::parse_rfc3339;

fn parse(s: &str) -> Option<Timestamp> {
    parse_rfc3339(&s.as_bytes().to_vec())
}

fn ts(
    year: u16, month: u8, day: u8, hour: u8, minute: u8, second: u8,
    nanos: u32, offset_minutes: i32,
) -> Timestamp {
    Timestamp { year, month, day, hour, minute, second, nanos, offset_minutes }
}

#[test]
fn parse_basic_utc_offset() {
    let t = parse("2024-01-01T00:00:00+00:00").unwrap();
    assert_eq!(t, ts(2024, 1, 1, 0, 0, 0, 0, 0));
}

#[test]
fn parse_zulu() {
    let t = parse("2024-06-30T12:34:56Z").unwrap();
    assert_eq!(t, ts(2024, 6, 30, 12, 34, 56, 0, 0));
}

#[test]
fn parse_lowercase_separators() {
    let t = parse("2024-06-30t12:34:56z").unwrap();
    assert_eq!(t, ts(2024, 6, 30, 12, 34, 56, 0, 0));
}

#[test]
fn parse_space_separator_and_positive_offset() {
    let t = parse("2024-06-30 12:34:56+05:30").unwrap();
    assert_eq!(t, ts(2024, 6, 30, 12, 34, 56, 0, 330));
}

#[test]
fn parse_negative_offset() {
    let t = parse("1996-12-19T16:39:57-08:00").unwrap();
    assert_eq!(t, ts(1996, 12, 19, 16, 39, 57, 0, -480));
}

#[test]
fn parse_fraction_is_padded_to_nanos() {
    let t = parse("2024-01-01T00:00:00.5+00:00").unwrap();
    assert_eq!(t.nanos, 500_000_000);
}

#[test]
fn parse_fraction_full_nanos() {
    let t = parse("2024-01-01T00:00:00.123456789+00:00").unwrap();
    assert_eq!(t.nanos, 123_456_789);
}

#[test]
fn parse_fraction_beyond_nanos_is_truncated() {
    let t = parse("2024-01-01T00:00:00.1234567897+00:00").unwrap();
    assert_eq!(t.nanos, 123_456_789);
}

#[test]
fn parse_rejects_malformed_text() {
    assert_eq!(parse("not-a-date"), None);
    assert_eq!(parse(""), None);
    assert_eq!(parse("2024-01-01"), None);
    assert_eq!(parse("2024-01-01T00:00:00"), None);
    assert_eq!(parse("2024-01-01T00:00:00+00:00x"), None);
    assert_eq!(parse("2024-01-01T00:00:00."), None);
    assert_eq!(parse("2024-01-01T00:00:00.+00:00"), None);
}

#[test]
fn parse_rejects_out_of_range_fields() {
    assert_eq!(parse("2024-13-01T00:00:00Z"), None);
    assert_eq!(parse("2024-00-01T00:00:00Z"), None);
    assert_eq!(parse("2024-01-00T00:00:00Z"), None);
    assert_eq!(parse("2024-01-32T00:00:00Z"), None);
    assert_eq!(parse("2024-01-01T24:00:00Z"), None);
    assert_eq!(parse("2024-01-01T00:60:00Z"), None);
    assert_eq!(parse("2024-01-01T00:00:61Z"), None);
    assert_eq!(parse("2024-01-01T00:00:00+24:00"), None);
    assert_eq!(parse("2024-01-01T00:00:00+00:60"), None);
}

#[test]
fn parse_accepts_leap_second() {
    assert!(parse("2016-12-31T23:59:60Z").is_some());
}

#[test]
fn parse_knows_leap_years() {
    assert!(parse("2024-02-29T00:00:00Z").is_some());
    assert_eq!(parse("2023-02-29T00:00:00Z"), None);
    assert_eq!(parse("2100-02-29T00:00:00Z"), None);
    assert!(parse("2000-02-29T00:00:00Z").is_some());
    assert!(parse("2024-04-30T00:00:00Z").is_some());
    assert_eq!(parse("2024-04-31T00:00:00Z"), None);
}

#[test]
fn format_basic() {
    let t = ts(2024, 1, 1, 0, 0, 0, 0, 0);
    assert_eq!(format_rfc3339(&t), b"2024-01-01T00:00:00+00:00".to_vec());
}

#[test]
fn format_fraction_and_negative_offset() {
    let t = ts(1996, 12, 19, 16, 39, 57, 123_000_000, -330);
    assert_eq!(format_rfc3339(&t), b"1996-12-19T16:39:57.123000000-05:30".to_vec());
}

#[test]
fn format_then_parse_round_trips() {
    let samples = vec![
        ts(2024, 1, 1, 0, 0, 0, 0, 0),
        ts(2024, 2, 29, 23, 59, 59, 0, 840),
        ts(1996, 12, 19, 16, 39, 57, 0, -480),
        ts(0, 1, 1, 0, 0, 0, 1, -1439),
        ts(9999, 12, 31, 23, 59, 60, 999_999_999, 1439),
    ];
    for t in samples {
        let text = format_rfc3339(&t);
        assert_eq!(parse_rfc3339(&text), Some(t));
    }
}

#[test]
fn whole_seconds_count_from_year_zero() {
    // 719528 days lie between 0000-01-01 and 1970-01-01.
    let epoch = parse("1970-01-01T00:00:00Z").unwrap();
    assert_eq!(epoch.utc_seconds_key(), 719_528 * 86_400);
    let shifted = parse("1970-01-01T00:00:00+01:00").unwrap();
    assert_eq!(shifted.utc_seconds_key(), 719_528 * 86_400 - 3_600);
}

#[test]
fn order_follows_the_calendar() {
    let a = parse("2024-01-01T00:00:00+00:00").unwrap();
    let b = parse("2024-01-02T00:00:00+00:00").unwrap();
    assert!(a.le(&b));
    assert!(!b.le(&a));
}

#[test]
fn order_accounts_for_the_offset() {
    // 10:00 at +02:00 is 08:00 UTC, before 09:30 UTC.
    let a = parse("2024-01-01T10:00:00+02:00").unwrap();
    let b = parse("2024-01-01T09:30:00+00:00").unwrap();
    assert!(a.le(&b));
    assert!(!b.le(&a));
}

#[test]
fn order_ties_on_equal_instants() {
    let a = parse("2024-01-01T12:00:00+01:00").unwrap();
    let b = parse("2024-01-01T11:00:00Z").unwrap();
    assert!(a.le(&b));
    assert!(b.le(&a));
}

#[test]
fn order_breaks_second_ties_by_fraction() {
    let a = parse("2024-01-01T00:00:00.100+00:00").unwrap();
    let b = parse("2024-01-01T00:00:00.200+00:00").unwrap();
    assert!(a.le(&b));
    assert!(!b.le(&a));
}

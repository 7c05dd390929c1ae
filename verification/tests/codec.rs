use srtresync::timestamp::Timestamp;
use srtresync::timestamp::invalid_timestamp_format;

fn parse_ms(text: &str) -> i32 {
    Timestamp::parse(text).expect("should parse").total_milliseconds
}

#[test]
fn parse_canonical_value() {
    assert_eq!(parse_ms("01:02:03,004"), 3_723_004);
}

#[test]
fn parse_rejects_empty_and_garbage() {
    assert!(Timestamp::parse("").is_none());
    assert!(Timestamp::parse("abc").is_none());
    assert!(Timestamp::parse("1:2:3:4").is_none());
}

#[test]
fn parse_rejects_bad_subfields() {
    assert!(Timestamp::parse("00:00:01,2,3").is_none());
    assert!(Timestamp::parse("00:0x:01,000").is_none());
    assert!(Timestamp::parse("-").is_none());
    assert!(Timestamp::parse("+").is_none());
}

#[test]
fn parse_rejects_overflow() {
    assert!(Timestamp::parse("99999999999").is_none());
    assert!(Timestamp::parse("600:00:00,000").is_none());
    assert_eq!(parse_ms("596:00:00,000"), 596 * 3_600_000);
}

#[test]
fn parse_lenient_forms() {
    assert_eq!(parse_ms("05,500"), 5_500);
    assert_eq!(parse_ms("05.500"), 5_500);
    assert_eq!(parse_ms("02:03"), 123_000);
    assert_eq!(parse_ms("7"), 7_000);
    assert_eq!(parse_ms("+00:00:01,000"), 1_000);
    assert_eq!(parse_ms("-01:02:03,004"), -3_723_004);
}

#[test]
fn format_canonical() {
    assert_eq!(Timestamp::new(3_723_004).to_text(), "01:02:03,004");
    assert_eq!(Timestamp::new(0).to_text(), "00:00:00,000");
    assert_eq!(Timestamp::new(-1).to_text(), "-00:00:00,001");
    assert_eq!(Timestamp::new(360_000_000).to_text(), "100:00:00,000");
}

#[test]
fn format_after_parse_round_trips() {
    for s in [
        "00:00:00,000",
        "01:02:03,004",
        "-01:02:03,004",
        "99:59:59,999",
        "100:00:00,000",
        "-00:00:00,001",
    ] {
        let t = Timestamp::parse(s).expect("canonical text should parse");
        assert_eq!(t.to_text(), s);
    }
}

#[test]
fn from_is_linear_combination() {
    assert_eq!(
        Timestamp::from(1, 2, 3, 4).total_milliseconds,
        1 * 3_600_000 + 2 * 60_000 + 3 * 1_000 + 4
    );
    assert_eq!(Timestamp::from(0, 90, 0, 0).total_milliseconds, 5_400_000);
    assert_eq!(Timestamp::from(0, 0, 0, -5).total_milliseconds, -5);
}

#[test]
fn derived_fields_use_magnitude() {
    let t = Timestamp::new(-3_723_004);
    assert_eq!(t.hours(), 1);
    assert_eq!(t.mins(), 2);
    assert_eq!(t.secs(), 3);
    assert_eq!(t.msecs(), 4);
    assert_eq!(
        t.hours() * 3_600_000 + t.mins() * 60_000 + t.secs() * 1_000 + t.msecs(),
        3_723_004
    );
}

#[test]
fn plus_and_minus_sum_totals() {
    let a = Timestamp::new(1_500);
    let b = Timestamp::new(-700);
    assert_eq!(a.plus(&b).total_milliseconds, 800);
    assert_eq!(a.minus(&b).total_milliseconds, 2_200);
}

#[test]
fn invalid_timestamp_message() {
    assert_eq!(
        invalid_timestamp_format(),
        "The provided timestamp format is incorrect!"
    );
}

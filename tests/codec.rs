use track::entry::{load_entries, new_entry, Entry};
use track::error::TrackError;
use track::message::split_message;
use track::stamp::Timestamp;
use track::value::{classify, EntryValue};

fn quantity(v: &EntryValue) -> (i64, String) {
    match v {
        EntryValue::Quantity(q) => (q.magnitude, q.unit.clone()),
        EntryValue::Log(_) => panic!("expected a quantity"),
    }
}

fn log(v: &EntryValue) -> String {
    match v {
        EntryValue::Log(s) => s.clone(),
        EntryValue::Quantity(_) => panic!("expected a log"),
    }
}

#[test]
fn classify_quantity_with_unit() {
    let v = classify("12kg").unwrap();
    assert_eq!(quantity(&v), (12_000_000, "kg".to_string()));
}

#[test]
fn classify_plain_log() {
    let v = classify("ran").unwrap();
    assert_eq!(log(&v), "ran");
}

#[test]
fn classify_negative_decimal() {
    let v = classify("-3.5").unwrap();
    assert_eq!(quantity(&v), (-3_500_000, String::new()));
}

#[test]
fn classify_trims_and_keeps_spaces_in_unit() {
    let v = classify("  5 km run  ").unwrap();
    assert_eq!(quantity(&v), (5_000_000, " km run".to_string()));
    let l = classify("  went out  ").unwrap();
    assert_eq!(log(&l), "went out");
}

#[test]
fn classify_malformed_number() {
    assert_eq!(classify("12.34.56abc").unwrap_err(), TrackError::MalformedQuantity);
    assert_eq!(classify("1-2").unwrap_err(), TrackError::MalformedQuantity);
}

#[test]
fn classify_punctuation_without_digits_is_log() {
    assert_eq!(log(&classify(".abc").unwrap()), ".abc");
    assert_eq!(log(&classify("-").unwrap()), "-");
}

#[test]
fn classify_fraction_forms() {
    assert_eq!(quantity(&classify("+.5l").unwrap()), (500_000, "l".to_string()));
    assert_eq!(quantity(&classify("7.h").unwrap()), (7_000_000, "h".to_string()));
    assert_eq!(quantity(&classify("0.1234567x").unwrap()), (123_456, "x".to_string()));
}

#[test]
fn classify_magnitude_out_of_range() {
    assert_eq!(classify("99999999999999kg").unwrap_err(), TrackError::MalformedQuantity);
    assert_eq!(quantity(&classify("9223372036854kg").unwrap()), (9_223_372_036_854_000_000, "kg".to_string()));
}

#[test]
fn value_text_is_shortest_decimal() {
    assert_eq!(classify("5.250kg").unwrap().text(), "5.25kg");
    assert_eq!(classify("+3.0").unwrap().text(), "3");
    assert_eq!(classify("-0.000001m").unwrap().text(), "-0.000001m");
    assert_eq!(classify("ran").unwrap().text(), "ran");
}

#[test]
fn parse_line_fields() {
    let e = Entry::parse("[2024-03-05T10:00:00+01:00] work:5km").unwrap();
    assert_eq!(e.timestamp.text(), "2024-03-05T10:00:00+01:00");
    assert_eq!(e.category, "work");
    assert_eq!(quantity(&e.value), (5_000_000, "km".to_string()));
    let day = chrono::Datelike::num_days_from_ce(&chrono::NaiveDate::from_ymd_opt(2024, 3, 5).unwrap());
    assert_eq!(e.timestamp.day(), day);
}

#[test]
fn parse_splits_at_first_colon() {
    let e = Entry::parse("[2024-03-05T10:00:00+00:00] note:met at 10:30").unwrap();
    assert_eq!(e.category, "note");
    assert_eq!(log(&e.value), "met at 10:30");
}

#[test]
fn parse_serialize_round_trip() {
    for line in [
        "[2024-03-05T10:00:00+01:00] work:coding",
        "[2023-12-31T23:59:59.123456789-08:00] run:5.5km",
        "[2024-01-01T00:00:00+00:00] weight:-0.25",
        "[2024-01-01T00:00:00+00:00] :",
        "[2024-01-01T00:00:00+00:00] note:a] b",
    ] {
        let e = Entry::parse(line).unwrap();
        assert_eq!(e.serialize(), line);
        let again = Entry::parse(&e.serialize()).unwrap();
        assert_eq!(again.serialize(), line);
        assert_eq!(again.category, e.category);
        assert_eq!(again.timestamp.day(), e.timestamp.day());
    }
}

#[test]
fn parse_errors() {
    assert_eq!(Entry::parse("2024-03-05T10:00:00+00:00 work:x").unwrap_err(), TrackError::MalformedLine);
    assert_eq!(Entry::parse("[2024-03-05T10:00:00+00:00 work:x").unwrap_err(), TrackError::MalformedLine);
    assert_eq!(Entry::parse("[2024-03-05T10:00:00+00:00] work").unwrap_err(), TrackError::MalformedLine);
    assert_eq!(Entry::parse("[yesterday] work:x").unwrap_err(), TrackError::MalformedTimestamp);
    assert_eq!(
        Entry::parse("[2024-03-05T10:00:00+00:00] x] c:v").unwrap_err(),
        TrackError::MalformedTimestamp
    );
    assert_eq!(Entry::parse("[2024-03-05T10:00:00+00:00] work:1.2.3").unwrap_err(), TrackError::MalformedQuantity);
}

#[test]
fn load_skips_empty_lines() {
    let lines = vec![
        "[2024-03-05T10:00:00+00:00] work:coding".to_string(),
        String::new(),
        "[2024-03-06T10:00:00+00:00] run:5km".to_string(),
    ];
    let es = load_entries(&lines).ok().unwrap();
    assert_eq!(es.len(), 2);
    assert_eq!(es[1].category, "run");
}

#[test]
fn load_fails_fast_on_malformed_line() {
    let lines = vec![
        "[2024-03-05T10:00:00+00:00] work:coding".to_string(),
        "[2024-03-05T11:00:00+00:00 work:coding".to_string(),
        "[2024-03-05T12:00:00+00:00] work:coding".to_string(),
    ];
    match load_entries(&lines) {
        Ok(_) => panic!("the load should fail"),
        Err(e) => {
            assert_eq!(e.error, TrackError::MalformedLine);
            assert_eq!(e.line, "[2024-03-05T11:00:00+00:00 work:coding");
        }
    }
}

fn stamp() -> Timestamp {
    Timestamp::parse("2024-03-05T10:00:00+00:00").ok().unwrap()
}

#[test]
fn timestamp_errors() {
    assert_eq!(Timestamp::parse("2024-03-05").err().unwrap(), TrackError::MalformedTimestamp);
    assert_eq!(Timestamp::parse("2024-03-05T10:00:00+00:00]").err().unwrap(), TrackError::MalformedTimestamp);
}

#[test]
fn new_entry_lowercases_category() {
    let e = new_entry(stamp(), "Work", " 5KM ").unwrap();
    assert_eq!(e.category, "work");
    assert_eq!(quantity(&e.value), (5_000_000, "KM".to_string()));
    assert_eq!(e.serialize(), "[2024-03-05T10:00:00+00:00] work:5KM");
}

#[test]
fn new_entry_errors() {
    assert_eq!(new_entry(stamp(), "", "x").err().unwrap(), TrackError::EmptyCategory);
    assert_eq!(new_entry(stamp(), "   ", "x").err().unwrap(), TrackError::EmptyCategory);
    assert_eq!(new_entry(stamp(), "a:b", "  ").err().unwrap(), TrackError::EmptyValue);
    assert_eq!(new_entry(stamp(), "a] b", "x").err().unwrap(), TrackError::InvalidCategory);
    assert_eq!(new_entry(stamp(), "work", "see [x] y:z").err().unwrap(), TrackError::InvalidValue);
    assert_eq!(new_entry(stamp(), "work", "see [x] y").ok().unwrap().serialize(), "[2024-03-05T10:00:00+00:00] work:see [x] y");
    assert_eq!(new_entry(stamp(), "a:b", "x").err().unwrap(), TrackError::InvalidCategory);
    assert_eq!(new_entry(stamp(), "a\nb", "x").err().unwrap(), TrackError::InvalidCategory);
    assert_eq!(new_entry(stamp(), "work", "   ").err().unwrap(), TrackError::EmptyValue);
    assert_eq!(new_entry(stamp(), "work", "a\nb").err().unwrap(), TrackError::InvalidValue);
    assert_eq!(new_entry(stamp(), "work", "1..2").err().unwrap(), TrackError::MalformedQuantity);
}

#[test]
fn split_message_cases() {
    let (c, v) = split_message("run  5 km ").unwrap();
    assert_eq!(c, "run");
    assert_eq!(v, "5 km");
    assert_eq!(split_message("run").unwrap_err(), TrackError::MalformedMessage);
    assert_eq!(split_message(" run").unwrap_err(), TrackError::EmptyCategory);
    assert_eq!(split_message("run   ").unwrap_err(), TrackError::EmptyValue);
}

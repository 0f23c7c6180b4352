use healthtracker::HealthTrackerError;
use healthtracker::codec::{decode, encode};
use healthtracker::date::Date;
use healthtracker::history::History;

fn day_of(year: u32, month: u32, day: u32) -> Date {
    Date::new(year, month, day).unwrap()
}

#[test]
fn empty_store_encodes_to_empty_text() {
    let h = History::new();
    let text = encode(&h);
    assert_eq!(text.len(), 0);
    let back = decode(&text).unwrap();
    assert_eq!(back.len(), 0);
}

#[test]
fn one_record_encodes_to_expected_line() {
    let mut h = History::new();
    h.log_weight(day_of(2024, 1, 1), 7050);
    let text = encode(&h);
    assert_eq!(text, b"2024-01-01,7050,0,0,,0".to_vec());
}

#[test]
fn full_record_encodes_every_field() {
    let mut h = History::new();
    let date = day_of(2024, 11, 30);
    h.log_weight(date, 7050);
    h.log_sport(date, true, true, Some(1234), true);
    let text = encode(&h);
    assert_eq!(text, b"2024-11-30,7050,1,1,1234,1".to_vec());
}

#[test]
fn round_trip_keeps_every_record() {
    let mut h = History::new();
    h.log_weight(day_of(2024, 1, 1), 7050);
    h.log_sport(day_of(2024, 1, 2), true, false, Some(999), false);
    h.log_sport(day_of(2023, 6, 15), false, true, None, true);
    h.log_weight(day_of(0, 1, 1), 100);
    let text = encode(&h);
    let back = decode(&text).unwrap();
    assert_eq!(back.get_days_table(), h.get_days_table());
    let text2 = encode(&back);
    assert_eq!(text2, text);
}

#[test]
fn round_trip_keeps_negative_values() {
    let mut h = History::new();
    h.log_weight(day_of(2024, 1, 1), -250);
    h.log_sport(day_of(2024, 1, 2), false, false, Some(-1), false);
    let text = encode(&h);
    let back = decode(&text).unwrap();
    assert_eq!(back.get(&day_of(2024, 1, 1)).unwrap().weight, Some(-250));
    assert_eq!(back.get(&day_of(2024, 1, 2)).unwrap().biking, Some(-1));
}

#[test]
fn decode_tolerates_missing_trailing_fields() {
    let back = decode(b"2024-01-01,7050,1,0").unwrap();
    let rec = back.get(&day_of(2024, 1, 1)).unwrap();
    assert_eq!(rec.weight, Some(7050));
    assert!(rec.workout);
    assert!(!rec.training);
    assert_eq!(rec.biking, None);
    assert!(!rec.cheatday);
}

#[test]
fn decode_tolerates_bare_date_line() {
    let back = decode(b"2024-01-01").unwrap();
    let rec = back.get(&day_of(2024, 1, 1)).unwrap();
    assert_eq!(rec.weight, None);
    assert!(!rec.workout);
    assert!(!rec.training);
    assert_eq!(rec.biking, None);
    assert!(!rec.cheatday);
}

#[test]
fn decode_accepts_empty_optional_fields() {
    let back = decode(b"2024-01-01,,1,1,,1").unwrap();
    let rec = back.get(&day_of(2024, 1, 1)).unwrap();
    assert_eq!(rec.weight, None);
    assert!(rec.workout);
    assert!(rec.training);
    assert_eq!(rec.biking, None);
    assert!(rec.cheatday);
}

#[test]
fn decode_rejects_bad_boolean_field() {
    assert_eq!(
        decode(b"2024-01-01,7050,2,0,,0"),
        Err(HealthTrackerError::Format)
    );
}

#[test]
fn decode_rejects_bad_date_line() {
    assert_eq!(decode(b"2024-13-01,7050"), Err(HealthTrackerError::Format));
}

#[test]
fn decode_rejects_extra_fields() {
    assert_eq!(
        decode(b"2024-01-01,7050,0,0,,0,9"),
        Err(HealthTrackerError::Format)
    );
}

#[test]
fn decode_rejects_unsorted_records() {
    assert_eq!(
        decode(b"2024-01-02,7050\n2024-01-01,7000"),
        Err(HealthTrackerError::Format)
    );
}

#[test]
fn decode_rejects_duplicate_dates() {
    assert_eq!(
        decode(b"2024-01-01,7050\n2024-01-01,7000"),
        Err(HealthTrackerError::Format)
    );
}

#[test]
fn decode_rejects_trailing_newline() {
    assert_eq!(decode(b"2024-01-01,7050\n"), Err(HealthTrackerError::Format));
}

#[test]
fn decode_rejects_oversized_number() {
    assert_eq!(
        decode(b"2024-01-01,1000000000000000"),
        Err(HealthTrackerError::Format)
    );
}

#[test]
fn decode_accepts_sorted_records() {
    let back = decode(b"2023-12-31,7000\n2024-01-01,7050,1").unwrap();
    assert_eq!(back.len(), 2);
    let rows = back.get_days_table();
    assert_eq!(rows[0].0, day_of(2023, 12, 31));
    assert_eq!(rows[1].0, day_of(2024, 1, 1));
}

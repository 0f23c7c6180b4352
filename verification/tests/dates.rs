use healthtracker::HealthTrackerError;
use healthtracker::clock::{date_from_clock, get_date, today_date};
use healthtracker::date::{Date, format_date, parse_date};

fn mk(year: u32, month: u32, day: u32) -> Date {
    Date::new(year, month, day).unwrap()
}

#[test]
fn parse_accepts_plain_date() {
    assert_eq!(parse_date(b"2024-01-01"), Ok(mk(2024, 1, 1)));
}

#[test]
fn parse_accepts_leap_day() {
    assert_eq!(parse_date(b"2024-02-29"), Ok(mk(2024, 2, 29)));
    assert_eq!(parse_date(b"2000-02-29"), Ok(mk(2000, 2, 29)));
}

#[test]
fn parse_rejects_nonleap_february_29() {
    assert_eq!(parse_date(b"2023-02-29"), Err(HealthTrackerError::DateParse));
    assert_eq!(parse_date(b"1900-02-29"), Err(HealthTrackerError::DateParse));
}

#[test]
fn parse_rejects_bad_month_and_day() {
    assert_eq!(parse_date(b"2024-13-01"), Err(HealthTrackerError::DateParse));
    assert_eq!(parse_date(b"2024-00-01"), Err(HealthTrackerError::DateParse));
    assert_eq!(parse_date(b"2024-04-31"), Err(HealthTrackerError::DateParse));
    assert_eq!(parse_date(b"2024-01-00"), Err(HealthTrackerError::DateParse));
}

#[test]
fn parse_rejects_bad_shape() {
    assert_eq!(parse_date(b"24-01-01"), Err(HealthTrackerError::DateParse));
    assert_eq!(parse_date(b"2024/01/01"), Err(HealthTrackerError::DateParse));
    assert_eq!(parse_date(b"2024-1-01x"), Err(HealthTrackerError::DateParse));
    assert_eq!(parse_date(b""), Err(HealthTrackerError::DateParse));
}

#[test]
fn format_is_zero_padded() {
    assert_eq!(format_date(&mk(1, 2, 3)), b"0001-02-03".to_vec());
    assert_eq!(format_date(&mk(9999, 12, 31)), b"9999-12-31".to_vec());
}

#[test]
fn format_then_parse_returns_the_date() {
    let dates = vec![mk(0, 1, 1), mk(2024, 2, 29), mk(1987, 7, 4), mk(9999, 12, 31)];
    for date in dates {
        assert_eq!(parse_date(&format_date(&date)), Ok(date));
    }
}

#[test]
fn pred_steps_within_a_month() {
    assert_eq!(mk(2024, 3, 15).pred(), mk(2024, 3, 14));
}

#[test]
fn pred_crosses_into_leap_february() {
    assert_eq!(mk(2024, 3, 1).pred(), mk(2024, 2, 29));
    assert_eq!(mk(2023, 3, 1).pred(), mk(2023, 2, 28));
}

#[test]
fn pred_crosses_a_year_boundary() {
    assert_eq!(mk(2024, 1, 1).pred(), mk(2023, 12, 31));
}

#[test]
fn date_new_rejects_out_of_range() {
    assert_eq!(Date::new(10000, 1, 1), None);
    assert_eq!(Date::new(2024, 2, 30), None);
}

#[test]
fn get_date_parses_given_string() {
    assert_eq!(get_date(Some(b"2024-06-01")), Ok(mk(2024, 6, 1)));
    assert_eq!(
        get_date(Some(b"not-a-date!")),
        Err(HealthTrackerError::DateParse)
    );
}

#[test]
fn get_date_without_string_gives_a_valid_date() {
    let today = get_date(None).unwrap();
    assert!(today.year <= 9999);
    assert!((1..=12).contains(&today.month));
    assert!(1 <= today.day && today.day <= 31);
    assert_eq!(Date::new(today.year, today.month, today.day), Some(today));
}

#[test]
fn clock_reading_in_range_gives_its_date() {
    assert_eq!(date_from_clock(2024, 2, 29), Ok(mk(2024, 2, 29)));
    assert_eq!(date_from_clock(0, 1, 1), Ok(mk(0, 1, 1)));
    assert_eq!(date_from_clock(9999, 12, 31), Ok(mk(9999, 12, 31)));
}

#[test]
fn clock_reading_out_of_range_is_rejected() {
    assert_eq!(date_from_clock(-5, 1, 1), Err(HealthTrackerError::DateParse));
    assert_eq!(
        date_from_clock(10000, 1, 1),
        Err(HealthTrackerError::DateParse)
    );
    assert_eq!(
        date_from_clock(2023, 2, 29),
        Err(HealthTrackerError::DateParse)
    );
}

#[test]
fn today_matches_the_system_clock() {
    let a = today_date().unwrap();
    let b = today_date().unwrap();
    assert!(a == b || a == b.pred() || b == a.pred());
}

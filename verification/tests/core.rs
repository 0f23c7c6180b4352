use healthtracker::date::Date;
use healthtracker::day::Day;
use healthtracker::history::History;
use healthtracker::analyze_at;

fn d(year: u32, month: u32, day: u32) -> Date {
    Date::new(year, month, day).unwrap()
}

#[test]
fn weight_into_empty_store() {
    let mut h = History::new();
    h.log_weight(d(2024, 1, 1), 7050);
    let rec = h.get(&d(2024, 1, 1)).unwrap();
    assert_eq!(
        rec,
        Day {
            weight: Some(7050),
            workout: false,
            training: false,
            biking: None,
            cheatday: false,
        }
    );
}

#[test]
fn or_merge_keeps_both_flags() {
    let mut h = History::new();
    let date = d(2024, 3, 15);
    h.log_sport(date, true, false, None, false);
    h.log_sport(date, false, true, None, false);
    let rec = h.get(&date).unwrap();
    assert!(rec.workout);
    assert!(rec.training);
}

#[test]
fn absent_biking_retains_earlier_value() {
    let mut h = History::new();
    let date = d(2024, 3, 15);
    h.log_sport(date, false, false, Some(500), false);
    h.log_sport(date, true, false, None, false);
    let rec = h.get(&date).unwrap();
    assert_eq!(rec.biking, Some(500));
}

#[test]
fn present_biking_overwrites_earlier_value() {
    let mut h = History::new();
    let date = d(2024, 3, 15);
    h.log_sport(date, false, false, Some(500), false);
    h.log_sport(date, false, false, Some(800), false);
    let rec = h.get(&date).unwrap();
    assert_eq!(rec.biking, Some(800));
}

#[test]
fn weight_log_keeps_activity_fields() {
    let mut h = History::new();
    let date = d(2024, 3, 15);
    h.log_sport(date, true, false, Some(1200), true);
    h.log_weight(date, 8000);
    let rec = h.get(&date).unwrap();
    assert_eq!(rec.weight, Some(8000));
    assert!(rec.workout);
    assert!(!rec.training);
    assert_eq!(rec.biking, Some(1200));
    assert!(rec.cheatday);
}

#[test]
fn sport_log_keeps_weight() {
    let mut h = History::new();
    let date = d(2024, 3, 15);
    h.log_weight(date, 7050);
    h.log_sport(date, false, true, None, false);
    let rec = h.get(&date).unwrap();
    assert_eq!(rec.weight, Some(7050));
    assert!(rec.training);
}

#[test]
fn streak_of_three_consecutive_days() {
    let mut h = History::new();
    h.log_sport(d(2024, 1, 1), true, false, None, false);
    h.log_sport(d(2024, 1, 2), true, false, None, false);
    h.log_sport(d(2024, 1, 3), true, false, None, false);
    assert_eq!(h.get_sport_streak(d(2024, 1, 3)), 3);
}

#[test]
fn streak_on_absent_date_is_zero() {
    let mut h = History::new();
    h.log_sport(d(2024, 1, 1), true, false, None, false);
    assert_eq!(h.get_sport_streak(d(2024, 1, 3)), 0);
}

#[test]
fn streak_stops_at_inactive_day() {
    let mut h = History::new();
    h.log_weight(d(2024, 1, 1), 7050);
    h.log_sport(d(2024, 1, 2), true, false, None, false);
    h.log_sport(d(2024, 1, 3), false, true, None, false);
    assert_eq!(h.get_sport_streak(d(2024, 1, 3)), 2);
}

#[test]
fn streak_at_biking_threshold() {
    let mut h = History::new();
    h.log_sport(d(2024, 5, 10), false, false, Some(1000), false);
    assert_eq!(h.get_sport_streak(d(2024, 5, 10)), 1);
}

#[test]
fn streak_below_biking_threshold() {
    let mut h = History::new();
    h.log_sport(d(2024, 5, 10), false, false, Some(999), false);
    assert_eq!(h.get_sport_streak(d(2024, 5, 10)), 0);
}

#[test]
fn streak_across_month_boundary() {
    let mut h = History::new();
    h.log_sport(d(2024, 2, 28), true, false, None, false);
    h.log_sport(d(2024, 2, 29), true, false, None, false);
    h.log_sport(d(2024, 3, 1), true, false, None, false);
    assert_eq!(h.get_sport_streak(d(2024, 3, 1)), 3);
}

#[test]
fn table_rows_sorted_by_date() {
    let mut h = History::new();
    h.log_weight(d(2024, 6, 1), 7000);
    h.log_weight(d(2023, 12, 31), 7100);
    h.log_weight(d(2024, 1, 15), 7200);
    let rows = h.get_days_table();
    assert_eq!(rows.len(), 3);
    assert_eq!(rows[0].0, d(2023, 12, 31));
    assert_eq!(rows[1].0, d(2024, 1, 15));
    assert_eq!(rows[2].0, d(2024, 6, 1));
    assert_eq!(rows[0].1.weight, Some(7100));
}

#[test]
fn end_to_end_weight_then_workout() {
    let mut h = History::new();
    assert_eq!(h.len(), 0);
    let date = healthtracker::clock::get_date(Some(b"2024-01-01")).unwrap();
    h.log_weight(date, 7050);
    let rows = h.get_days_table();
    assert_eq!(rows.len(), 1);
    assert_eq!(rows[0].0, d(2024, 1, 1));
    assert_eq!(
        rows[0].1,
        Day {
            weight: Some(7050),
            workout: false,
            training: false,
            biking: None,
            cheatday: false,
        }
    );
    h.log_sport(date, true, false, None, false);
    let rec = h.get(&date).unwrap();
    assert!(rec.workout);
    assert_eq!(rec.weight, Some(7050));
    assert_eq!(h.len(), 1);
}

#[test]
fn analyze_at_reports_rows_and_streak() {
    let mut h = History::new();
    h.log_sport(d(2024, 1, 2), true, false, None, false);
    h.log_sport(d(2024, 1, 3), false, false, Some(1500), false);
    let (rows, streak) = analyze_at(&h, d(2024, 1, 3));
    assert_eq!(rows.len(), 2);
    assert_eq!(streak, 2);
}

#[test]
fn analyze_uses_some_valid_date() {
    let mut h = History::new();
    h.log_weight(d(2024, 1, 1), 7050);
    let (rows, _streak) = healthtracker::analyze(&h).unwrap();
    assert_eq!(rows.len(), 1);
}

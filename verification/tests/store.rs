use jikan::TimesheetError;
use jikan::calendar::Date;
use jikan::codec::{encode_record, load_record, parse_record};
use jikan::record::{DailyRecord, MonthKey};

fn payload(dates: &[String], values: &[String]) -> Vec<u8> {
    let mut s = dates.join(",");
    s.push('\n');
    s.push_str(&values.join(","));
    s.push('\n');
    s.into_bytes()
}

fn april_2024_dates() -> Vec<String> {
    (1..=30).map(|d| format!("2024-04-{:02}", d)).collect()
}

#[test]
fn fresh_record_covers_month_with_zeros() {
    let r = DailyRecord::new(2024, 4);
    assert_eq!(r.year, 2024);
    assert_eq!(r.month, 4);
    assert_eq!(r.hours.len(), 30);
    assert!(r.hours.iter().all(|&h| h == 0));
}

#[test]
fn load_without_payload_gives_fresh_record() {
    let r = load_record(2023, 2, None).unwrap();
    assert_eq!(r.hours.len(), 28);
    assert!(r.hours.iter().all(|&h| h == 0));
    assert_eq!(r, DailyRecord::new(2023, 2));
}

#[test]
fn fresh_record_leap_february() {
    assert_eq!(DailyRecord::new(2024, 2).hours.len(), 29);
    assert_eq!(DailyRecord::new(2023, 2).hours.len(), 28);
    assert_eq!(DailyRecord::new(2000, 2).hours.len(), 29);
    assert_eq!(DailyRecord::new(1900, 2).hours.len(), 28);
    assert_eq!(DailyRecord::new(2024, 12).hours.len(), 31);
}

#[test]
fn save_then_load_restores_record() {
    let mut r = DailyRecord::new(2024, 4);
    r = r.set_day(Date { year: 2024, month: 4, day: 1 }, 8).unwrap();
    r = r.set_day(Date { year: 2024, month: 4, day: 15 }, 6).unwrap();
    r = r.set_day(Date { year: 2024, month: 4, day: 30 }, 2).unwrap();
    let bytes = encode_record(&r);
    let back = parse_record(2024, 4, &bytes).unwrap();
    assert_eq!(back, r);
}

#[test]
fn save_then_load_restores_leap_february() {
    let mut r = DailyRecord::new(2024, 2);
    r = r.set_day(Date { year: 2024, month: 2, day: 29 }, 5).unwrap();
    let bytes = encode_record(&r);
    let back = parse_record(2024, 2, &bytes).unwrap();
    assert_eq!(back, r);
}

#[test]
fn save_then_load_restores_large_values() {
    let mut r = DailyRecord::new(2025, 1);
    r = r.set_day(Date { year: 2025, month: 1, day: 7 }, u64::MAX).unwrap();
    let bytes = encode_record(&r);
    let back = parse_record(2025, 1, &bytes).unwrap();
    assert_eq!(back, r);
}

#[test]
fn encode_writes_two_lines_in_date_order() {
    let mut r = DailyRecord::new(2024, 4);
    r = r.set_day(Date { year: 2024, month: 4, day: 2 }, 7).unwrap();
    let bytes = encode_record(&r);
    let text = String::from_utf8(bytes).unwrap();
    let mut expected = april_2024_dates().join(",");
    expected.push('\n');
    expected.push_str("0,7");
    expected.push_str(&",0".repeat(28));
    expected.push('\n');
    assert_eq!(text, expected);
}

#[test]
fn set_day_changes_exactly_one_entry() {
    let r = DailyRecord::new(2024, 4);
    let r2 = r.set_day(Date { year: 2024, month: 4, day: 5 }, 7).unwrap();
    assert_eq!(r2.hours[4], 7);
    for d in 0..30 {
        if d != 4 {
            assert_eq!(r2.hours[d], r.hours[d]);
        }
    }
    assert_eq!(r2.year, 2024);
    assert_eq!(r2.month, 4);
}

#[test]
fn set_day_outside_month_fails_and_preserves_record() {
    let r = DailyRecord::new(2024, 4);
    let before = r.clone();
    let res = r.set_day(Date { year: 2024, month: 5, day: 1 }, 7);
    assert_eq!(res.unwrap_err(), TimesheetError::OutOfRange);
    let res = r.set_day(Date { year: 2023, month: 4, day: 1 }, 7);
    assert_eq!(res.unwrap_err(), TimesheetError::OutOfRange);
    let res = r.set_day(Date { year: 2024, month: 4, day: 31 }, 7);
    assert_eq!(res.unwrap_err(), TimesheetError::OutOfRange);
    let res = r.set_day(Date { year: 2024, month: 4, day: 0 }, 7);
    assert_eq!(res.unwrap_err(), TimesheetError::OutOfRange);
    assert_eq!(r, before);
}

#[test]
fn short_data_line_is_corrupt() {
    let dates = april_2024_dates();
    let values: Vec<String> = (0..29).map(|_| "0".to_string()).collect();
    let bytes = payload(&dates, &values);
    let res = parse_record(2024, 4, &bytes);
    assert_eq!(res.unwrap_err(), TimesheetError::CorruptFormat);
}

#[test]
fn long_data_line_is_corrupt() {
    let dates = april_2024_dates();
    let values: Vec<String> = (0..31).map(|_| "0".to_string()).collect();
    let bytes = payload(&dates, &values);
    let res = parse_record(2024, 4, &bytes);
    assert_eq!(res.unwrap_err(), TimesheetError::CorruptFormat);
}

#[test]
fn missing_second_line_is_corrupt() {
    let bytes = april_2024_dates().join(",").into_bytes();
    let res = parse_record(2024, 4, &bytes);
    assert_eq!(res.unwrap_err(), TimesheetError::CorruptFormat);
}

#[test]
fn non_numeric_value_is_corrupt() {
    let dates = april_2024_dates();
    let mut values: Vec<String> = (0..30).map(|_| "0".to_string()).collect();
    values[3] = "x".to_string();
    let bytes = payload(&dates, &values);
    assert_eq!(parse_record(2024, 4, &bytes).unwrap_err(), TimesheetError::CorruptFormat);
}

#[test]
fn negative_value_is_corrupt() {
    let dates = april_2024_dates();
    let mut values: Vec<String> = (0..30).map(|_| "0".to_string()).collect();
    values[0] = "-1".to_string();
    let bytes = payload(&dates, &values);
    assert_eq!(parse_record(2024, 4, &bytes).unwrap_err(), TimesheetError::CorruptFormat);
}

#[test]
fn empty_value_is_corrupt() {
    let dates = april_2024_dates();
    let mut values: Vec<String> = (0..30).map(|_| "0".to_string()).collect();
    values[29] = String::new();
    let bytes = payload(&dates, &values);
    assert_eq!(parse_record(2024, 4, &bytes).unwrap_err(), TimesheetError::CorruptFormat);
}

#[test]
fn oversized_value_is_corrupt() {
    let dates = april_2024_dates();
    let mut values: Vec<String> = (0..30).map(|_| "0".to_string()).collect();
    values[0] = "18446744073709551616".to_string();
    let bytes = payload(&dates, &values);
    assert_eq!(parse_record(2024, 4, &bytes).unwrap_err(), TimesheetError::CorruptFormat);
}

#[test]
fn largest_value_still_parses() {
    let dates = april_2024_dates();
    let mut values: Vec<String> = (0..30).map(|_| "0".to_string()).collect();
    values[0] = "18446744073709551615".to_string();
    let bytes = payload(&dates, &values);
    let r = parse_record(2024, 4, &bytes).unwrap();
    assert_eq!(r.hours[0], u64::MAX);
}

#[test]
fn load_with_payload_parses_values() {
    let dates = april_2024_dates();
    let values: Vec<String> = (1..=30).map(|d| d.to_string()).collect();
    let bytes = payload(&dates, &values);
    let r = load_record(2024, 4, Some(&bytes)).unwrap();
    for d in 0..30 {
        assert_eq!(r.hours[d], (d + 1) as u64);
    }
}

#[test]
fn header_dates_are_trusted_as_is() {
    // Only the value count is validated against the month; the header's
    // content is kept redundant and never cross-checked.
    let dates: Vec<String> = (1..=30).map(|d| format!("1999-01-{:02}", d)).collect();
    let values: Vec<String> = (0..30).map(|_| "1".to_string()).collect();
    let bytes = payload(&dates, &values);
    let r = parse_record(2024, 4, &bytes).unwrap();
    assert_eq!(r.year, 2024);
    assert_eq!(r.month, 4);
    assert_eq!(r.hours.len(), 30);
}

#[test]
fn file_name_matches_persisted_format() {
    let key = MonthKey { project: b"acme".to_vec(), year: 2024, month: 4 };
    assert_eq!(key.file_name(), b"acme-time-04-2024.csv".to_vec());
    let key = MonthKey { project: b"x".to_vec(), year: 987, month: 12 };
    assert_eq!(key.file_name(), b"x-time-12-0987.csv".to_vec());
}

#[test]
fn hours_on_reads_one_day() {
    let mut r = DailyRecord::new(2024, 4);
    r = r.set_day(Date { year: 2024, month: 4, day: 5 }, 9).unwrap();
    assert_eq!(r.hours_on(5), Some(9));
    assert_eq!(r.hours_on(4), Some(0));
    assert_eq!(r.hours_on(0), None);
    assert_eq!(r.hours_on(31), None);
}

#[test]
fn date_new_checks_the_calendar() {
    assert!(Date::new(2024, 2, 29).is_some());
    assert!(Date::new(2023, 2, 29).is_none());
    assert!(Date::new(2024, 4, 31).is_none());
    assert!(Date::new(2024, 13, 1).is_none());
    assert!(Date::new(2024, 0, 1).is_none());
    assert!(Date::new(0, 4, 1).is_none());
    assert!(Date::new(10000, 4, 1).is_none());
}

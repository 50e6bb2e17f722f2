use jikan::TimesheetError;
use jikan::calendar::{Date, Weekday, days_in_month, weekday_of};
use jikan::record::DailyRecord;
use jikan::render::{Cell, CellKind, render};

fn day_cells(line: &[Cell]) -> Vec<&Cell> {
    line.iter().filter(|c| c.kind != CellKind::Separator).collect()
}

fn separator_positions(line: &[Cell]) -> Vec<usize> {
    line.iter()
        .enumerate()
        .filter(|(_, c)| c.kind == CellKind::Separator)
        .map(|(i, _)| i)
        .collect()
}

#[test]
fn weekdays_of_april_2024() {
    assert_eq!(weekday_of(2024, 4, 1), Weekday::Monday);
    assert_eq!(weekday_of(2024, 4, 6), Weekday::Saturday);
    assert_eq!(weekday_of(2024, 4, 7), Weekday::Sunday);
    assert_eq!(weekday_of(2024, 4, 30), Weekday::Tuesday);
    assert_eq!(weekday_of(2024, 2, 29), Weekday::Thursday);
    assert_eq!(weekday_of(2000, 1, 1), Weekday::Saturday);
    assert_eq!(weekday_of(1999, 12, 31), Weekday::Friday);
}

#[test]
fn month_lengths() {
    assert_eq!(days_in_month(2024, 4), 30);
    assert_eq!(days_in_month(2024, 2), 29);
    assert_eq!(days_in_month(2023, 2), 28);
    assert_eq!(days_in_month(1900, 2), 28);
    assert_eq!(days_in_month(2000, 2), 29);
    assert_eq!(days_in_month(2024, 7), 31);
}

#[test]
fn thirty_day_month_has_thirty_day_cells_per_line() {
    let r = DailyRecord::new(2024, 4);
    let (line1, line2) = render(&r).unwrap();
    assert_eq!(day_cells(&line1).len(), 30);
    assert_eq!(day_cells(&line2).len(), 30);
    // April 2024 starts on a Monday, so its Sundays are the 7th, 14th, 21st,
    // and 28th: four separators on each line, right after those day cells.
    assert_eq!(separator_positions(&line1), vec![7, 15, 23, 31]);
    assert_eq!(separator_positions(&line2), vec![7, 15, 23, 31]);
    assert_eq!(line1.len(), 34);
    assert_eq!(line2.len(), 34);
}

#[test]
fn header_line_numbers_and_padding() {
    let r = DailyRecord::new(2024, 4);
    let (line1, _) = render(&r).unwrap();
    let days = day_cells(&line1);
    assert_eq!(days[0].text, b"1  ".to_vec());
    assert_eq!(days[9].text, b"10 ".to_vec());
    assert_eq!(days[29].text, b"30 ".to_vec());
    assert!(days.iter().all(|c| c.kind == CellKind::Header));
}

#[test]
fn separator_cell_is_a_bar() {
    let r = DailyRecord::new(2024, 4);
    let (line1, _) = render(&r).unwrap();
    assert_eq!(line1[7].text, b"|".to_vec());
    assert_eq!(line1[7].kind, CellKind::Separator);
}

#[test]
fn monday_hours_show_and_blank_weekend_zero() {
    // Record April 2024, set Monday the 1st to 8 hours and Saturday the 6th
    // to 0 hours: the rendered data line shows `8  ` for the 1st and a blank
    // three-space cell, not `0  `, for the 6th.
    let mut r = DailyRecord::new(2024, 4);
    r = r.set_day(Date { year: 2024, month: 4, day: 1 }, 8).unwrap();
    r = r.set_day(Date { year: 2024, month: 4, day: 6 }, 0).unwrap();
    let (_, line2) = render(&r).unwrap();
    let days = day_cells(&line2);
    assert_eq!(days[0].text, b"8  ".to_vec());
    assert_eq!(days[0].kind, CellKind::Weekday);
    assert_eq!(days[5].text, b"   ".to_vec());
    assert_eq!(days[5].kind, CellKind::Weekend);
}

#[test]
fn weekday_zero_is_shown_weekend_work_is_shown() {
    let mut r = DailyRecord::new(2024, 4);
    r = r.set_day(Date { year: 2024, month: 4, day: 7 }, 3).unwrap();
    let (_, line2) = render(&r).unwrap();
    let days = day_cells(&line2);
    // Tuesday the 2nd: zero hours on a weekday stay a literal 0.
    assert_eq!(days[1].text, b"0  ".to_vec());
    assert_eq!(days[1].kind, CellKind::Weekday);
    // Sunday the 7th: worked hours on a weekend are shown, weekend-styled.
    assert_eq!(days[6].text, b"3  ".to_vec());
    assert_eq!(days[6].kind, CellKind::Weekend);
}

#[test]
fn wide_values_are_not_truncated() {
    let mut r = DailyRecord::new(2024, 4);
    r = r.set_day(Date { year: 2024, month: 4, day: 2 }, 1000).unwrap();
    let (_, line2) = render(&r).unwrap();
    let days = day_cells(&line2);
    assert_eq!(days[1].text, b"1000".to_vec());
}

#[test]
fn incomplete_record_fails_with_missing_day() {
    let r = DailyRecord { year: 2024, month: 4, hours: vec![0; 29] };
    assert_eq!(render(&r).unwrap_err(), TimesheetError::MissingDay);
}

#[test]
fn leap_february_renders_to_the_29th_and_stops() {
    let r = DailyRecord::new(2024, 2);
    let (line1, _) = render(&r).unwrap();
    let days = day_cells(&line1);
    assert_eq!(days.len(), 29);
    assert_eq!(days[28].text, b"29 ".to_vec());
    // February 2024 ends on a Thursday, so no separator closes the line.
    assert_ne!(line1.last().unwrap().kind, CellKind::Separator);
}

#[test]
fn sunday_ending_month_ends_with_separator() {
    // March 2024 ends on Sunday the 31st: the next day is a Monday in April,
    // and the separator is still emitted after the last cell.
    assert_eq!(weekday_of(2024, 3, 31), Weekday::Sunday);
    let r = DailyRecord::new(2024, 3);
    let (line1, line2) = render(&r).unwrap();
    assert_eq!(line1.last().unwrap().kind, CellKind::Separator);
    assert_eq!(line2.last().unwrap().kind, CellKind::Separator);
}

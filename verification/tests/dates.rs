use chrono::Datelike;
use kajet::dates::{out_of_reach, parse_date, parse_date_checked, CalendarDate, DateBound, MAX_YEAR, MIN_YEAR};

fn from_chrono(d: chrono::NaiveDate) -> CalendarDate {
    CalendarDate {
        year: d.year(),
        month: d.month(),
        day: d.day(),
    }
}

fn today() -> CalendarDate {
    from_chrono(chrono::Local::now().date_naive())
}

fn day(year: i32, month: u32, day: u32) -> CalendarDate {
    CalendarDate { year, month, day }
}

#[test]
fn test_iso_full_date() {
    let date = parse_date("2025-01-15", DateBound::From, today()).unwrap();
    assert_eq!(date.to_iso_string(), "2025-01-15");
}

#[test]
fn test_iso_month_from() {
    let date = parse_date("2025-01", DateBound::From, today()).unwrap();
    assert_eq!(date.to_iso_string(), "2025-01-01");
}

#[test]
fn test_iso_month_to() {
    let date = parse_date("2025-01", DateBound::To, today()).unwrap();
    assert_eq!(date.to_iso_string(), "2025-01-31");
}

#[test]
fn test_iso_month_february_leap() {
    let date = parse_date("2024-02", DateBound::To, today()).unwrap();
    assert_eq!(date.to_iso_string(), "2024-02-29");
}

#[test]
fn test_iso_month_february_non_leap() {
    let date = parse_date("2025-02", DateBound::To, today()).unwrap();
    assert_eq!(date.to_iso_string(), "2025-02-28");
}

#[test]
fn test_polish_dzisiaj() {
    let today = today();
    let date = parse_date("dzisiaj", DateBound::From, today).unwrap();
    assert_eq!(date, today);
}

#[test]
fn test_english_today() {
    let today = today();
    let date = parse_date("today", DateBound::From, today).unwrap();
    assert_eq!(date, today);
}

#[test]
fn test_polish_wczoraj() {
    let now = chrono::Local::now().date_naive();
    let yesterday = from_chrono(now - chrono::Duration::days(1));
    let date = parse_date("wczoraj", DateBound::From, from_chrono(now)).unwrap();
    assert_eq!(date, yesterday);
}

#[test]
fn test_english_yesterday() {
    let now = chrono::Local::now().date_naive();
    let yesterday = from_chrono(now - chrono::Duration::days(1));
    let date = parse_date("yesterday", DateBound::From, from_chrono(now)).unwrap();
    assert_eq!(date, yesterday);
}

#[test]
fn test_polish_last_week_from() {
    let date = parse_date("zeszły tydzień", DateBound::From, today()).unwrap();
    assert_eq!(date.weekday_from_monday(), 0);
}

#[test]
fn test_polish_last_week_to() {
    let date = parse_date("zeszły tydzień", DateBound::To, today()).unwrap();
    assert_eq!(date.weekday_from_monday(), 6);
}

#[test]
fn test_english_last_week_from() {
    let date = parse_date("last week", DateBound::From, today()).unwrap();
    assert_eq!(date.weekday_from_monday(), 0);
}

#[test]
fn test_english_last_week_to() {
    let date = parse_date("last week", DateBound::To, today()).unwrap();
    assert_eq!(date.weekday_from_monday(), 6);
}

#[test]
fn test_polish_last_month_from() {
    let date = parse_date("zeszły miesiąc", DateBound::From, today()).unwrap();
    assert_eq!(date.day, 1);
}

#[test]
fn test_polish_last_month_to() {
    let today = today();
    let date = parse_date("zeszły miesiąc", DateBound::To, today).unwrap();
    let expected_month = if today.month == 1 {
        12
    } else {
        today.month - 1
    };
    assert_eq!(date.month, expected_month);
    assert!(date.day >= 28);
}

#[test]
fn test_english_last_month() {
    let date = parse_date("last month", DateBound::From, today()).unwrap();
    assert_eq!(date.day, 1);
}

#[test]
fn test_polish_last_year_from() {
    let today = today();
    let date = parse_date("zeszły rok", DateBound::From, today).unwrap();
    assert_eq!(date.year, today.year - 1);
    assert_eq!(date.month, 1);
    assert_eq!(date.day, 1);
}

#[test]
fn test_polish_last_year_to() {
    let today = today();
    let date = parse_date("zeszły rok", DateBound::To, today).unwrap();
    assert_eq!(date.year, today.year - 1);
    assert_eq!(date.month, 12);
    assert_eq!(date.day, 31);
}

#[test]
fn test_english_last_year() {
    let today = today();
    let date = parse_date("last year", DateBound::From, today).unwrap();
    assert_eq!(date.year, today.year - 1);
}

#[test]
fn test_polish_month_w_styczniu_from() {
    let date = parse_date("w styczniu", DateBound::From, today()).unwrap();
    assert_eq!(date.month, 1);
    assert_eq!(date.day, 1);
}

#[test]
fn test_polish_month_w_styczniu_to() {
    let date = parse_date("w styczniu", DateBound::To, today()).unwrap();
    assert_eq!(date.month, 1);
    assert_eq!(date.day, 31);
}

#[test]
fn test_polish_month_we_wrzesniu() {
    let date = parse_date("we wrześniu", DateBound::From, today()).unwrap();
    assert_eq!(date.month, 9);
    assert_eq!(date.day, 1);
}

#[test]
fn test_english_month_in_january() {
    let date = parse_date("in january", DateBound::From, today()).unwrap();
    assert_eq!(date.month, 1);
}

#[test]
fn test_english_month_in_december_to() {
    let date = parse_date("in december", DateBound::To, today()).unwrap();
    assert_eq!(date.month, 12);
    assert_eq!(date.day, 31);
}

#[test]
fn test_invalid_input() {
    let result = parse_date("invalid date string", DateBound::From, today());
    assert!(result.is_err());
}

#[test]
fn test_case_insensitive() {
    let date1 = parse_date("DZISIAJ", DateBound::From, today()).unwrap();
    let date2 = parse_date("DzIsIaJ", DateBound::From, today()).unwrap();
    assert_eq!(date1, date2);
}

#[test]
fn test_whitespace_trim() {
    let date = parse_date("  2025-01-15  ", DateBound::From, today()).unwrap();
    assert_eq!(date.to_iso_string(), "2025-01-15");
}

#[test]
fn keywords_relative_to_a_fixed_day() {
    let sunday = day(2026, 2, 15);
    assert_eq!(sunday.weekday_from_monday(), 6);
    assert_eq!(
        parse_date("last week", DateBound::From, sunday).unwrap(),
        day(2026, 2, 2)
    );
    assert_eq!(
        parse_date("Last Week", DateBound::To, sunday).unwrap(),
        day(2026, 2, 8)
    );
    assert_eq!(
        parse_date("yesterday", DateBound::To, sunday).unwrap(),
        day(2026, 2, 14)
    );
    assert_eq!(
        parse_date("last month", DateBound::To, sunday).unwrap(),
        day(2026, 1, 31)
    );
    assert_eq!(
        parse_date("zeszły miesiąc", DateBound::From, day(2026, 1, 10)).unwrap(),
        day(2025, 12, 1)
    );
    assert_eq!(
        parse_date("w lutym", DateBound::To, day(2024, 7, 1)).unwrap(),
        day(2024, 2, 29)
    );
    assert_eq!(
        parse_date("in may", DateBound::To, sunday).unwrap(),
        day(2026, 5, 31)
    );
}

#[test]
fn error_keeps_the_trimmed_input() {
    let err = parse_date("  someday ", DateBound::From, day(2026, 2, 15)).unwrap_err();
    assert_eq!(err.input, "someday");
    assert_eq!(err.message(), "Unable to parse date: 'someday'");
}

#[test]
fn checked_parse_refuses_the_month_end_past_the_calendar() {
    let t = day(2026, 2, 15);
    assert!(parse_date_checked("+262142-12", DateBound::To, t).is_none());
    assert_eq!(
        parse_date_checked("+262142-12", DateBound::From, t)
            .unwrap()
            .unwrap(),
        day(262142, 12, 1)
    );
    assert_eq!(
        parse_date_checked("2025-03", DateBound::To, t)
            .unwrap()
            .unwrap(),
        day(2025, 3, 31)
    );
}

#[test]
fn keywords_that_step_out_of_the_calendar_are_refused() {
    let first = CalendarDate { year: MIN_YEAR, month: 1, day: 5 };
    let very_first = CalendarDate { year: MIN_YEAR, month: 1, day: 1 };
    assert!(parse_date_checked("yesterday", DateBound::From, very_first).is_none());
    assert_eq!(
        parse_date_checked("yesterday", DateBound::From, first).unwrap().unwrap(),
        CalendarDate { year: MIN_YEAR, month: 1, day: 4 }
    );
    assert!(parse_date_checked("last week", DateBound::From, first).is_none());
    let later = CalendarDate { year: MIN_YEAR, month: 1, day: 20 };
    assert!(parse_date_checked("last week", DateBound::From, later).is_some());
    assert!(parse_date_checked("last year", DateBound::To, CalendarDate { year: MIN_YEAR, month: 6, day: 1 }).is_none());
    assert!(!out_of_reach("last month", DateBound::From, CalendarDate { year: MIN_YEAR, month: 2, day: 1 }));
    assert_eq!(
        parse_date_checked("2025-01-15", DateBound::From, first).unwrap().unwrap(),
        CalendarDate { year: 2025, month: 1, day: 15 }
    );
    assert_eq!(parse_date_checked("today", DateBound::From, first).unwrap().unwrap(), first);
    let last = CalendarDate { year: MAX_YEAR, month: 12, day: 31 };
    assert!(parse_date_checked("in december", DateBound::To, last).is_none());
    assert_eq!(
        parse_date_checked("in december", DateBound::From, last).unwrap().unwrap(),
        CalendarDate { year: MAX_YEAR, month: 12, day: 1 }
    );
    let sunday_week = parse_date_checked("last week", DateBound::To, last).unwrap().unwrap();
    assert_eq!((sunday_week.year, sunday_week.month), (MAX_YEAR, 12));
}

#[test]
fn days_are_written_with_four_digit_years_and_signs_outside_them() {
    assert_eq!(CalendarDate { year: 2025, month: 1, day: 5 }.to_iso_string(), "2025-01-05");
    assert_eq!(CalendarDate { year: 7, month: 11, day: 30 }.to_iso_string(), "0007-11-30");
    assert_eq!(CalendarDate { year: -1, month: 1, day: 1 }.to_iso_string(), "-0001-01-01");
    assert_eq!(CalendarDate { year: 10000, month: 12, day: 31 }.to_iso_string(), "+10000-12-31");
    assert_eq!(CalendarDate { year: MIN_YEAR, month: 1, day: 1 }.to_iso_string(), "-262143-01-01");
}

#[test]
fn weekdays_count_from_monday() {
    // 1970-01-01 was a Thursday, 2024-01-01 a Monday.
    assert_eq!(CalendarDate { year: 1970, month: 1, day: 1 }.weekday_from_monday(), 3);
    assert_eq!(CalendarDate { year: 2024, month: 1, day: 1 }.weekday_from_monday(), 0);
}

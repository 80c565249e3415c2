use kajet::analytics::{
    prepare_recent_context_input, word_count, RecentContextInputError, RecentContextRequest,
};
use kajet::dates::CalendarDate;

#[test]
fn word_count_basic() {
    assert_eq!(word_count("hello world"), 2);
    assert_eq!(word_count(""), 0);
    assert_eq!(word_count("  multiple   spaces  "), 2);
}

#[test]
fn word_count_counts_runs_across_line_breaks_and_tabs() {
    assert_eq!(word_count("one\ttwo\nthree\r\nfour"), 4);
    assert_eq!(word_count("   \n\t  "), 0);
    assert_eq!(word_count("single"), 1);
}

fn jan_15_2025() -> CalendarDate {
    CalendarDate {
        year: 2025,
        month: 1,
        day: 15,
    }
}

#[test]
fn defaults_to_7_days_and_10_entries() {
    let input = prepare_recent_context_input(
        RecentContextRequest {
            days: None,
            limit: None,
        },
        jan_15_2025(),
    )
    .expect("input should be valid");
    assert_eq!(input.days, 7);
    assert_eq!(input.limit, 10);
    assert_eq!(input.from_ts as f64, 1736380800.0);
    assert_eq!(input.to_ts as f64, 1736985599.0);
    assert_eq!(input.prev_from_ts as f64, 1735776000.0);
    assert_eq!(input.prev_to_ts as f64, 1736380799.0);
}

#[test]
fn custom_days_and_limit() {
    let input = prepare_recent_context_input(
        RecentContextRequest {
            days: Some(3),
            limit: Some(5),
        },
        jan_15_2025(),
    )
    .expect("input should be valid");
    assert_eq!(input.days, 3);
    assert_eq!(input.limit, 5);
    assert_eq!(input.from_ts as f64, 1736726400.0);
    assert_eq!(input.prev_from_ts as f64, 1736467200.0);
    assert_eq!(input.prev_to_ts as f64, 1736726399.0);
}

#[test]
fn rejects_days_outside_supported_range() {
    let err = prepare_recent_context_input(
        RecentContextRequest {
            days: Some(0),
            limit: None,
        },
        jan_15_2025(),
    )
    .expect_err("should reject days=0");
    assert_eq!(err, RecentContextInputError::InvalidDays(0));

    let err = prepare_recent_context_input(
        RecentContextRequest {
            days: Some(91),
            limit: None,
        },
        jan_15_2025(),
    )
    .expect_err("should reject too large days");
    assert_eq!(err, RecentContextInputError::InvalidDays(91));
}

#[test]
fn rejects_limit_zero() {
    let err = prepare_recent_context_input(
        RecentContextRequest {
            days: None,
            limit: Some(0),
        },
        jan_15_2025(),
    )
    .expect_err("should reject limit=0");
    assert_eq!(err, RecentContextInputError::InvalidLimit(0));
}

#[test]
fn request_errors_need_no_room_before_today() {
    let first_day = CalendarDate { year: kajet::dates::MIN_YEAR, month: 1, day: 1 };
    let err = prepare_recent_context_input(RecentContextRequest { days: Some(0), limit: None }, first_day).unwrap_err();
    assert_eq!(err, RecentContextInputError::InvalidDays(0));
    let err = prepare_recent_context_input(RecentContextRequest { days: Some(3), limit: Some(0) }, first_day).unwrap_err();
    assert_eq!(err, RecentContextInputError::InvalidLimit(0));
    // Three days ending on the calendar's sixth day, and three before them.
    let sixth = CalendarDate { year: kajet::dates::MIN_YEAR, month: 1, day: 6 };
    let input = prepare_recent_context_input(RecentContextRequest { days: Some(3), limit: Some(1) }, sixth).unwrap();
    assert_eq!(input.prev_from_ts, kajet::dates::FIRST_DAY * 86400);
}

use kajet::period::{aggregate_period_tags, compute_length_extremes, find_new_tags, TitledText};
use kajet::tag_index::TaggedNote;
use kajet::dates::{CalendarDate, FIRST_DAY, LAST_DAY};
use kajet::period::{
    compute_gap_dates, compute_journal_gap_dates, extract_date_from_path, period_bounds, period_gaps,
    GapMode,
};

fn tagged(path: &str, tags: Vec<&str>) -> TaggedNote {
    TaggedNote { path: path.to_string(), tags: tags.into_iter().map(String::from).collect() }
}

fn titled(title: &str, text: &str) -> TitledText {
    TitledText { title: title.to_string(), full_text: text.to_string() }
}

#[test]
fn aggregate_period_tags_sorted_by_count() {
    let docs = vec![
        tagged("a.md", vec!["rust", "code"]),
        tagged("b.md", vec!["rust"]),
        tagged("c.md", vec!["python", "code"]),
    ];

    let tags = aggregate_period_tags(&docs);
    assert_eq!(tags[0], ("code".to_string(), 2));
    assert_eq!(tags[1], ("rust".to_string(), 2));
    assert_eq!(tags[2], ("python".to_string(), 1));
}

#[test]
fn find_new_tags_detects_first_time_tags() {
    let period_docs = vec![tagged("a.md", vec!["meditation", "reflection"])];
    let all_docs = vec![
        tagged("old.md", vec!["reflection", "work"]),
        tagged("a.md", vec!["meditation", "reflection"]),
    ];
    // Changed before the period (from 100): only the first note (changed at 50).
    let older = vec![50.0 < 100.0, 100.0 < 100.0];

    let new = find_new_tags(&period_docs, &all_docs, &older);
    assert_eq!(new, vec!["meditation"]);
}

#[test]
fn new_tags_are_sorted_and_listed_once() {
    let period_docs = vec![
        tagged("a.md", vec!["zeta", "alpha", "mid"]),
        tagged("b.md", vec!["alpha", "beta", "zeta"]),
    ];
    let all_docs = vec![tagged("old.md", vec!["mid"]), tagged("new.md", vec!["beta"])];
    let new = find_new_tags(&period_docs, &all_docs, &vec![true, false]);
    assert_eq!(new, vec!["alpha", "beta", "zeta"]);
    assert!(find_new_tags(&vec![], &all_docs, &vec![true, true]).is_empty());
}

#[test]
fn length_extremes_pick_most_and_fewest_words() {
    let docs = vec![
        titled("Medium", "one two three"),
        titled("Long", "one two three four five"),
        titled("Short", "one"),
    ];
    let (longest, shortest) = compute_length_extremes(&docs);
    assert_eq!(longest, Some(("Long".to_string(), 5)));
    assert_eq!(shortest, Some(("Short".to_string(), 1)));
}

#[test]
fn length_extremes_break_ties_by_smallest_title() {
    let docs = vec![titled("b", "x y"), titled("a", "p q"), titled("c", "r s")];
    let (longest, shortest) = compute_length_extremes(&docs);
    assert_eq!(longest, Some(("a".to_string(), 2)));
    assert_eq!(shortest, Some(("a".to_string(), 2)));
    assert_eq!(compute_length_extremes(&vec![]), (None, None));
}

/// Seconds as the store gives them (floating point), cut to whole seconds.
fn secs(ts: f64) -> i64 {
    ts as i64
}

#[test]
fn compute_gap_dates_finds_missing_days() {
    let entries = vec![
        secs(1736899200.0), // 2025-01-15
        secs(1736726400.0), // 2025-01-13
    ];

    let gaps = compute_gap_dates(&entries, secs(1736640000.0), secs(1736985599.0));
    assert_eq!(gaps, vec!["2025-01-12", "2025-01-14"]);
}

#[test]
fn compute_journal_gap_dates_uses_dates_from_paths() {
    let paths = vec!["journal/2025-01-15.md".to_string(), "journal/2025-01-13.md".to_string()];

    let gaps = compute_journal_gap_dates(&paths, secs(1736640000.0), secs(1736985599.0))
        .expect("should infer journal dates");
    assert_eq!(gaps, vec!["2025-01-12", "2025-01-14"]);
}

#[test]
fn compute_journal_gap_dates_returns_none_without_parsable_dates() {
    let paths = vec!["notes/today.md".to_string(), "notes/yesterday.md".to_string()];

    let gaps = compute_journal_gap_dates(&paths, secs(1736640000.0), secs(1736985599.0));
    assert!(gaps.is_none());
}

#[test]
fn gap_dates_of_a_period_ending_before_it_starts_are_none() {
    assert!(compute_gap_dates(&vec![], 1736985599, 1736640000).is_empty());
}

#[test]
fn gap_dates_cover_every_day_without_entries() {
    let gaps = compute_gap_dates(&vec![], 1736640000, 1736726400);
    assert_eq!(gaps, vec!["2025-01-12", "2025-01-13"]);
    let gaps = compute_gap_dates(&vec![-1], -86400, 0);
    assert_eq!(gaps, vec!["1970-01-01"]);
}

#[test]
fn gap_dates_past_chronos_range_end_on_the_first_day() {
    let gaps = compute_gap_dates(&vec![], 1736640000, i64::MAX);
    assert_eq!(gaps, vec!["2025-01-12"]);
}

#[test]
fn dates_in_paths() {
    let d = |y, m, day| Some(CalendarDate { year: y, month: m, day });
    assert_eq!(extract_date_from_path("journal/2025-01-15.md"), d(2025, 1, 15));
    assert_eq!(extract_date_from_path("2024-02-29 notes.md"), d(2024, 2, 29));
    assert_eq!(extract_date_from_path("a/2025-13-01/2025-03-04.md"), d(2025, 3, 4));
    assert_eq!(extract_date_from_path("journal/20250115.md"), None);
    assert_eq!(extract_date_from_path("x-2025-01-15.md"), None);
    assert_eq!(extract_date_from_path(""), None);
}

#[test]
fn periods_are_bounded_by_the_calendar() {
    assert_eq!(period_bounds(1736640000, 1736985599), (20100, 20103));
    assert_eq!(period_bounds(-1, 0), (-1, 0));
    assert_eq!(period_bounds(i64::MIN, i64::MAX), (0, 0));
    assert_eq!(period_bounds(LAST_DAY * 86400, LAST_DAY * 86400 + 86399), (LAST_DAY, LAST_DAY));
    assert_eq!(period_bounds(FIRST_DAY * 86400, 0), (FIRST_DAY, 0));
    assert_eq!(period_bounds(FIRST_DAY * 86400 - 1, (LAST_DAY + 1) * 86400), (0, 0));
}

#[test]
fn report_gaps_prefer_journal_dates() {
    let changed = vec![1736899200, 1736726400];
    let journal = vec!["journal/2025-01-12.md".to_string(), "notes/x.md".to_string()];
    let plain = vec!["a.md".to_string(), "b.md".to_string()];
    assert_eq!(
        period_gaps(&changed, &journal, 1736640000, 1736985599),
        Some((GapMode::Journal, vec!["2025-01-13".to_string(), "2025-01-14".to_string(), "2025-01-15".to_string()]))
    );
    assert_eq!(
        period_gaps(&changed, &plain, 1736640000, 1736985599),
        Some((GapMode::Activity, vec!["2025-01-12".to_string(), "2025-01-14".to_string()]))
    );
    assert_eq!(period_gaps(&changed, &plain, LAST_DAY * 86400, LAST_DAY * 86400), None);
}

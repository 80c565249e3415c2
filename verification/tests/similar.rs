use kajet::similar::{exclude_linked_hits, excluded_linked_notes, fetch_plan, next_fetch, query_hit_counts, FetchStep};
use kajet::dates::CalendarDate;
use kajet::inputs::{SimilarAggregation, SimilarLinkExclusion, SimilarSort};
use kajet::similar::{
    prepare_find_similar_input, FindSimilarConfig, FindSimilarInput, FindSimilarInputError,
    FindSimilarRequest,
};

#[test]
fn first_fetch_is_twenty_per_result_and_at_least_two_hundred() {
    assert_eq!(fetch_plan(100, 10), (200, 1600));
    assert_eq!(fetch_plan(5000, 50), (1000, 20_000));
    assert_eq!(fetch_plan(3, 1), (200, 200));
    assert_eq!(fetch_plan(usize::MAX, usize::MAX), (20_000, 20_000));
}

#[test]
fn fetching_doubles_until_no_query_fills_it() {
    assert_eq!(next_fetch(&vec![200, 5], 200, 1600), FetchStep::Again(400));
    assert_eq!(next_fetch(&vec![5, 5], 200, 1600), FetchStep::Done { truncated: false });
    assert_eq!(next_fetch(&vec![1000], 1000, 1600), FetchStep::Again(1600));
    assert_eq!(next_fetch(&vec![1600], 1600, 1600), FetchStep::Done { truncated: true });
    assert_eq!(next_fetch(&vec![], 200, 1600), FetchStep::Done { truncated: false });
}

#[test]
fn hits_are_counted_per_query() {
    assert_eq!(query_hit_counts(&vec![0, 1, 1, 5], 3), vec![1, 2, 0]);
    assert_eq!(query_hit_counts(&vec![], 2), vec![0, 0]);
    assert!(query_hit_counts(&vec![0], 0).is_empty());
}

/// The configured default threshold.
const DEFAULT_THRESHOLD: f32 = 0.6;

fn request(path: &str) -> FindSimilarRequest {
    FindSimilarRequest {
        path: path.to_string(),
        limit: None,
        aggregation: None,
        sort: None,
        exclude_linked: None,
        tags: None,
        from: None,
        to: None,
        folder: None,
    }
}

/// Checks the threshold as the tool does (a float, so outside the library), then the rest.
fn prepare(
    req: FindSimilarRequest,
    threshold: Option<f32>,
) -> Result<(FindSimilarInput, f32), FindSimilarInputError> {
    let threshold = threshold.unwrap_or(DEFAULT_THRESHOLD);
    let in_range = (0.0..=1.0).contains(&threshold);
    let today = CalendarDate { year: 2026, month: 2, day: 15 };
    prepare_find_similar_input(req, &FindSimilarConfig::default(), in_range, today)
        .expect("a date in range")
        .map(|input| (input, threshold))
}

#[test]
fn find_similar_input_applies_defaults_when_optional_fields_missing() {
    let (input, threshold) = prepare(request("note.md"), None).expect("valid input");

    assert_eq!(input.limit, 10);
    assert!((threshold - 0.6).abs() < f32::EPSILON);
    assert_eq!(input.aggregation, SimilarAggregation::Max);
    assert_eq!(input.sort, SimilarSort::Similarity);
    assert_eq!(input.exclude_linked, SimilarLinkExclusion::Outgoing);
}

#[test]
fn rejects_invalid_threshold() {
    let err = prepare(request("note.md"), Some(1.5)).expect_err("should fail");

    assert!(matches!(err, FindSimilarInputError::InvalidThreshold));
}

#[test]
fn normalizes_wikilink_path() {
    let (input, _) = prepare(request("[[folder/note|Alias]]"), None).expect("valid input");

    assert_eq!(input.path, "folder/note");
}

#[test]
fn parses_exclude_linked_mode() {
    let mut req = request("note.md");
    req.exclude_linked = Some("both".to_string());
    let (input, _) = prepare(req, None).expect("valid input");

    assert_eq!(input.exclude_linked, SimilarLinkExclusion::Both);
}

#[test]
fn similar_requests_are_checked_in_order() {
    assert!(matches!(prepare(request("  "), Some(7.0)), Err(FindSimilarInputError::EmptyPath)));
    let mut req = request("a.md");
    req.limit = Some(0);
    assert!(matches!(prepare(req, Some(7.0)), Err(FindSimilarInputError::LimitZero)));
    let mut req = request("a.md");
    req.aggregation = Some("median".to_string());
    assert!(matches!(prepare(req, Some(7.0)), Err(FindSimilarInputError::InvalidThreshold)));
    let mut req = request("a.md");
    req.aggregation = Some("median".to_string());
    req.sort = Some("size".to_string());
    match prepare(req, None) {
        Err(FindSimilarInputError::InvalidAggregation(t)) => assert_eq!(t, "median"),
        other => panic!("unexpected {:?}", other),
    }
    let mut req = request("a.md");
    req.sort = Some("size".to_string());
    match prepare(req, None) {
        Err(FindSimilarInputError::InvalidSort(t)) => assert_eq!(t, "size"),
        other => panic!("unexpected {:?}", other),
    }
    let mut req = request("a.md");
    req.exclude_linked = Some("all".to_string());
    match prepare(req, None) {
        Err(FindSimilarInputError::InvalidExcludeLinked(t)) => assert_eq!(t, "all"),
        other => panic!("unexpected {:?}", other),
    }
}

#[test]
fn similar_request_dates_become_utc_seconds() {
    let mut req = request("a.md");
    req.from = Some("2026-02-01".to_string());
    let (input, _) = prepare(req, None).expect("valid input");
    assert_eq!(input.from_ts, Some(1769904000));
    assert_eq!(input.to_ts, Some(1771199999));
    let mut req = request("a.md");
    req.from = Some("2026-03-01".to_string());
    req.to = Some("2026-02-01".to_string());
    assert!(matches!(prepare(req, None), Err(FindSimilarInputError::InvalidDateRange { .. })));
    let mut req = request("a.md");
    req.from = Some("someday".to_string());
    match prepare(req, None) {
        Err(FindSimilarInputError::DateParse { input, error }) => {
            assert_eq!(input, "someday");
            assert_eq!(error, "Unable to parse date: 'someday'");
        }
        other => panic!("unexpected {:?}", other),
    }
}

fn strings(v: &[&str]) -> Vec<String> {
    v.iter().map(|s| s.to_string()).collect()
}

#[test]
fn exclusion_drops_the_source_and_linked_notes() {
    let out = strings(&["b.md"]);
    let back = strings(&["c.md"]);
    let hits = strings(&["a.md", "b.md", "c.md", "d.md", "b.md"]);
    assert_eq!(
        exclude_linked_hits("a.md", &out, &back, SimilarLinkExclusion::NoneExcluded, &hits),
        vec![false, true, true, true, true]
    );
    assert_eq!(
        exclude_linked_hits("a.md", &out, &back, SimilarLinkExclusion::Outgoing, &hits),
        vec![false, false, true, true, false]
    );
    assert_eq!(
        exclude_linked_hits("a.md", &out, &back, SimilarLinkExclusion::Both, &hits),
        vec![false, false, false, true, false]
    );
}

#[test]
fn excluded_linked_notes_are_counted_once() {
    let out = strings(&["b.md", "a.md"]);
    let back = strings(&["c.md"]);
    let hits = strings(&["b.md", "a.md", "c.md", "b.md", "d.md", "c.md"]);
    assert_eq!(
        excluded_linked_notes("a.md", &out, &back, SimilarLinkExclusion::Both, &hits),
        strings(&["b.md", "c.md"])
    );
    assert_eq!(
        excluded_linked_notes("a.md", &out, &back, SimilarLinkExclusion::Outgoing, &hits),
        strings(&["b.md"])
    );
    assert!(excluded_linked_notes("a.md", &out, &back, SimilarLinkExclusion::NoneExcluded, &hits).is_empty());
}

use kajet::dates::CalendarDate;
use kajet::inputs::{SearchMode, SearchRequest};
use kajet::search::{prepare_search_input, search_fetch_limit, SearchInputError, SearchKind};

fn request() -> SearchRequest {
    SearchRequest {
        query: None,
        limit: None,
        mode: None,
        from: None,
        to: None,
        tags: None,
        folder: None,
    }
}

fn day(year: i32, month: u32, day: u32) -> CalendarDate {
    CalendarDate { year, month, day }
}

#[test]
fn fails_without_query_and_filters() {
    let err = prepare_search_input(request(), 5, day(2026, 2, 11))
        .unwrap()
        .expect_err("should fail");
    assert!(matches!(err, SearchInputError::NoQueryOrFilters));
}

#[test]
fn defaults_to_today_when_from_without_to() {
    let mut req = request();
    req.from = Some("2026-02-01".to_string());
    let out = prepare_search_input(req, 5, day(2026, 2, 11))
        .unwrap()
        .expect("should parse");
    assert_eq!(out.to_date, Some(day(2026, 2, 11)));
}

#[test]
fn parses_mode_and_query() {
    let mut req = request();
    req.query = Some("rust".to_string());
    req.mode = Some("vector".to_string());
    let out = prepare_search_input(req, 7, day(2026, 2, 11))
        .unwrap()
        .expect("should parse");
    assert_eq!(out.limit, 7);
    match out.kind {
        SearchKind::Query { mode, .. } => assert_eq!(mode, SearchMode::Vector),
        SearchKind::Browse => panic!("expected query mode"),
    }
}

#[test]
fn fails_on_invalid_date_range() {
    let mut req = request();
    req.from = Some("2026-02-10".to_string());
    req.to = Some("2026-02-01".to_string());
    let err = prepare_search_input(req, 5, day(2026, 2, 11))
        .unwrap()
        .expect_err("should fail");
    assert!(matches!(err, SearchInputError::InvalidDateRange { .. }));
}

#[test]
fn range_instants_and_browse_query() {
    let mut req = request();
    req.from = Some("2026-02-08".to_string());
    req.to = Some("2026-02".to_string());
    req.folder = Some("journal".to_string());
    req.tags = Some(vec!["a".to_string(), "b".to_string()]);
    let out = prepare_search_input(req, 5, day(2026, 2, 11))
        .unwrap()
        .unwrap();
    assert!(out.has_filters);
    assert!(matches!(out.kind, SearchKind::Browse));
    assert_eq!(out.to_date, Some(day(2026, 2, 28)));
    assert_eq!(out.from_ts, Some(1770508800));
    assert_eq!(out.to_ts, Some(1772323199));
    assert_eq!(
        out.browse_event_query(),
        "[browse] from:2026-02-08 to:2026-02-28 folder:journal tags:a,b"
    );
}

#[test]
fn bad_date_reports_input_and_message() {
    let mut req = request();
    req.from = Some(" soon ".to_string());
    let err = prepare_search_input(req, 5, day(2026, 2, 11))
        .unwrap()
        .unwrap_err();
    match err {
        SearchInputError::DateParse { input, error } => {
            assert_eq!(input, "soon");
            assert_eq!(error, "Unable to parse date: 'soon'");
        }
        other => panic!("unexpected {:?}", other),
    }
}

#[test]
fn fetch_limits_grow_with_filters() {
    let mut req = request();
    req.query = Some("rust".to_string());
    let plain = prepare_search_input(req, 5, day(2026, 2, 11)).unwrap().unwrap();
    assert_eq!(search_fetch_limit(&plain, 4, 500), plain.limit);

    let mut req = request();
    req.query = Some("rust".to_string());
    req.limit = Some(10);
    req.tags = Some(vec!["x".to_string()]);
    let filtered = prepare_search_input(req, 5, day(2026, 2, 11)).unwrap().unwrap();
    assert_eq!(search_fetch_limit(&filtered, 4, 500), 40);

    let mut req = request();
    req.limit = Some(10);
    req.tags = Some(vec!["x".to_string()]);
    let tags_only = prepare_search_input(req, 5, day(2026, 2, 11)).unwrap().unwrap();
    assert!(matches!(tags_only.kind, SearchKind::Browse));
    assert_eq!(search_fetch_limit(&tags_only, 4, 500), 500);
    assert_eq!(search_fetch_limit(&tags_only, 100, 500), 1000);

    let mut req = request();
    req.limit = Some(10);
    req.folder = Some("journal".to_string());
    let by_folder = prepare_search_input(req, 5, day(2026, 2, 11)).unwrap().unwrap();
    assert_eq!(search_fetch_limit(&by_folder, 4, 500), 40);
}

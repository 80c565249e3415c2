use kajet::dates::CalendarDate;
use kajet::explore::{
    prepare_explore_connections_input, ExploreConnectionsConfig, ExploreConnectionsRequest,
    ExploreInputError,
};
use kajet::inputs::ExploreFilterMode;

fn defaults() -> ExploreConnectionsConfig {
    ExploreConnectionsConfig::default()
}

fn day(year: i32, month: u32, day: u32) -> CalendarDate {
    CalendarDate { year, month, day }
}

#[test]
fn explore_input_applies_defaults_when_optional_fields_missing() {
    let input = prepare_explore_connections_input(
        ExploreConnectionsRequest {
            path: "note.md".to_string(),
            depth: None,
            limit: None,
            dedup: None,
            include_context: None,
            filter_mode: None,
            tags: None,
            from: None,
            to: None,
            folder: None,
        },
        &defaults(),
        day(2026, 2, 15),
    )
    .unwrap()
    .expect("valid request");
    assert_eq!(input.depth, 3);
    assert_eq!(input.limit, 100);
    assert!(input.dedup);
    assert!(!input.include_context);
    assert_eq!(input.filter_mode, ExploreFilterMode::Display);
}

#[test]
fn parses_traverse_mode_and_date_defaults() {
    let input = prepare_explore_connections_input(
        ExploreConnectionsRequest {
            path: "note.md".to_string(),
            depth: Some(2),
            limit: Some(50),
            dedup: Some(false),
            include_context: Some(true),
            filter_mode: Some("traverse".to_string()),
            tags: Some(vec!["research".to_string()]),
            from: Some("2026-02-10".to_string()),
            to: None,
            folder: Some("journal".to_string()),
        },
        &defaults(),
        day(2026, 2, 15),
    )
    .unwrap()
    .expect("valid request");
    assert_eq!(input.filter_mode, ExploreFilterMode::Traverse);
    assert_eq!(input.depth, 2);
    assert_eq!(input.limit, 50);
    assert!(!input.dedup);
    assert!(input.include_context);
    assert!(input.from_ts.is_some());
    assert!(input.to_ts.is_some());
}

#[test]
fn rejects_empty_path() {
    let err = prepare_explore_connections_input(
        ExploreConnectionsRequest {
            path: "   ".to_string(),
            depth: None,
            limit: None,
            dedup: None,
            include_context: None,
            filter_mode: None,
            tags: None,
            from: None,
            to: None,
            folder: None,
        },
        &defaults(),
        day(2026, 2, 15),
    )
    .unwrap()
    .expect_err("must fail");
    assert!(matches!(err, ExploreInputError::EmptyPath));
}

#[test]
fn explore_rejects_zero_depth_and_limit_and_keeps_trimmed_path() {
    let req = |depth, limit| ExploreConnectionsRequest {
        path: " a.md ".to_string(),
        depth,
        limit,
        dedup: None,
        include_context: None,
        filter_mode: None,
        tags: None,
        from: None,
        to: None,
        folder: None,
    };
    let t = day(2026, 2, 15);
    assert!(matches!(
        prepare_explore_connections_input(req(Some(0), None), &defaults(), t).unwrap(),
        Err(ExploreInputError::DepthZero)
    ));
    assert!(matches!(
        prepare_explore_connections_input(req(None, Some(0)), &defaults(), t).unwrap(),
        Err(ExploreInputError::LimitZero)
    ));
    let ok = prepare_explore_connections_input(req(None, None), &defaults(), t)
        .unwrap()
        .unwrap();
    assert_eq!(ok.path, "a.md");
    assert_eq!(ok.from_ts, None);
}

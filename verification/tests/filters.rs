use kajet::tag_edit::apply_tag_edits;
use kajet::tags::tags_match;

#[test]
fn tests_tags_match_case_insensitive() {
    assert!(tags_match(
        &["Rust".to_string(), "MCP".to_string()],
        &["rust".to_string()]
    ));
}

#[test]
fn tests_tags_match_ignores_hash_prefix() {
    assert!(tags_match(&["#rust".to_string()], &["rust".to_string()]));
    assert!(tags_match(&["rust".to_string()], &["#rust".to_string()]));
}

#[test]
fn tests_tags_match_requires_all() {
    assert!(!tags_match(
        &["rust".to_string()],
        &["rust".to_string(), "mcp".to_string()]
    ));
}

#[test]
fn tests_tags_match_empty_required_matches_anything() {
    assert!(tags_match(&["rust".to_string()], &[]));
    assert!(tags_match(&[], &[]));
}

#[test]
fn tests_apply_tag_edits_add_only() {
    let content = "---\ntitle: Test\ntags: []\n---\nContent";
    let result = apply_tag_edits(content, Some(&["rust".to_string()]), None, None).unwrap().unwrap();

    assert!(result.content.contains("rust"));
    assert_eq!(result.tags_added, 1);
    assert_eq!(result.tags_removed, 0);
    assert!(!result.timestamp_updated);
}

#[test]
fn tests_apply_tag_edits_remove_only() {
    let content = "---\ntitle: Test\ntags: [rust, mcp]\n---\nContent";
    let result = apply_tag_edits(content, None, Some(&["rust".to_string()]), None).unwrap().unwrap();

    assert!(!result.content.contains("rust"));
    assert!(result.content.contains("mcp"));
    assert_eq!(result.tags_added, 0);
    assert_eq!(result.tags_removed, 1);
    assert!(!result.timestamp_updated);
}

#[test]
fn tests_apply_tag_edits_remove_then_add() {
    let content = "---\ntitle: Test\ntags: [old]\n---\nContent";
    let result = apply_tag_edits(
        content,
        Some(&["new".to_string()]),
        Some(&["old".to_string()]),
        None,
    )
    .unwrap().unwrap();

    assert!(!result.content.contains("old"));
    assert!(result.content.contains("new"));
    assert_eq!(result.tags_added, 1);
    assert_eq!(result.tags_removed, 1);
}

#[test]
fn tests_apply_tag_edits_same_tag_in_remove_and_add() {
    // Edge case: user removes and adds the same tag (idempotency test)
    let content = "---\ntitle: Test\ntags: [rust]\n---\nContent";
    let result = apply_tag_edits(
        content,
        Some(&["rust".to_string()]),
        Some(&["rust".to_string()]),
        None,
    )
    .unwrap().unwrap();

    // After remove, tag is gone. Then add re-adds it.
    assert!(result.content.contains("rust"));
    assert_eq!(result.tags_added, 1);
    assert_eq!(result.tags_removed, 1);
}

#[test]
fn tests_apply_tag_edits_with_timestamp() {
    let content = "---\ntitle: Test\ntags: []\nmodified: 2025-01-01\n---\nContent";
    let result = apply_tag_edits(
        content,
        Some(&["rust".to_string()]),
        None,
        Some(("modified", "2026-02-10")),
    )
    .unwrap().unwrap();

    assert!(result.content.contains("rust"));
    assert!(result.content.contains("2026-02-10"));
    assert!(!result.content.contains("2025-01-01"));
    assert!(result.timestamp_updated);
}

#[test]
fn tests_apply_tag_edits_no_operations() {
    let content = "---\ntitle: Test\ntags: []\n---\nContent";
    let result = apply_tag_edits(content, None, None, None).unwrap().unwrap();

    assert_eq!(result.content, content);
    assert_eq!(result.tags_added, 0);
    assert_eq!(result.tags_removed, 0);
    assert!(!result.timestamp_updated);
}

#[test]
fn tests_apply_tag_edits_empty_arrays_count_as_operations() {
    let content = "---\ntitle: Test\ntags: []\n---\nContent";
    let result = apply_tag_edits(content, Some(&[]), Some(&[]), None).unwrap().unwrap();

    assert_eq!(result.tags_added, 0);
    assert_eq!(result.tags_removed, 0);
}

#[test]
fn tests_apply_tag_edits_multiple_tags() {
    let content = "---\ntitle: Test\ntags: [old1, old2]\n---\nContent";
    let result = apply_tag_edits(
        content,
        Some(&["new1".to_string(), "new2".to_string()]),
        Some(&["old1".to_string(), "old2".to_string()]),
        None,
    )
    .unwrap().unwrap();

    assert!(!result.content.contains("old1"));
    assert!(!result.content.contains("old2"));
    assert!(result.content.contains("new1"));
    assert!(result.content.contains("new2"));
    assert_eq!(result.tags_added, 2);
    assert_eq!(result.tags_removed, 2);
}

#[test]
fn filters_apply_tag_edits_add_only() {
    let content = "---\ntitle: Test\ntags: []\n---\nContent";
    let result = apply_tag_edits(content, Some(&["rust".to_string()]), None, None).unwrap().unwrap();

    assert!(result.content.contains("rust"));
    assert_eq!(result.tags_added, 1);
    assert_eq!(result.tags_removed, 0);
    assert!(!result.timestamp_updated);
}

#[test]
fn filters_apply_tag_edits_remove_only() {
    let content = "---\ntitle: Test\ntags: [rust, mcp]\n---\nContent";
    let result = apply_tag_edits(content, None, Some(&["rust".to_string()]), None).unwrap().unwrap();

    assert!(!result.content.contains("rust"));
    assert!(result.content.contains("mcp"));
    assert_eq!(result.tags_added, 0);
    assert_eq!(result.tags_removed, 1);
    assert!(!result.timestamp_updated);
}

#[test]
fn filters_apply_tag_edits_remove_then_add() {
    let content = "---\ntitle: Test\ntags: [old]\n---\nContent";
    let result = apply_tag_edits(
        content,
        Some(&["new".to_string()]),
        Some(&["old".to_string()]),
        None,
    )
    .unwrap().unwrap();

    assert!(!result.content.contains("old"));
    assert!(result.content.contains("new"));
    assert_eq!(result.tags_added, 1);
    assert_eq!(result.tags_removed, 1);
}

#[test]
fn filters_apply_tag_edits_same_tag_in_remove_and_add() {
    // Edge case: user removes and adds the same tag (idempotency test)
    let content = "---\ntitle: Test\ntags: [rust]\n---\nContent";
    let result = apply_tag_edits(
        content,
        Some(&["rust".to_string()]),
        Some(&["rust".to_string()]),
        None,
    )
    .unwrap().unwrap();

    // After remove, tag is gone. Then add re-adds it.
    assert!(result.content.contains("rust"));
    assert_eq!(result.tags_added, 1);
    assert_eq!(result.tags_removed, 1);
}

#[test]
fn filters_apply_tag_edits_with_timestamp() {
    let content = "---\ntitle: Test\ntags: []\nmodified: 2025-01-01\n---\nContent";
    let result = apply_tag_edits(
        content,
        Some(&["rust".to_string()]),
        None,
        Some(("modified", "2026-02-10")),
    )
    .unwrap().unwrap();

    assert!(result.content.contains("rust"));
    assert!(result.content.contains("2026-02-10"));
    assert!(!result.content.contains("2025-01-01"));
    assert!(result.timestamp_updated);
}

#[test]
fn filters_apply_tag_edits_no_operations() {
    let content = "---\ntitle: Test\ntags: []\n---\nContent";
    let result = apply_tag_edits(content, None, None, None).unwrap().unwrap();

    assert_eq!(result.content, content);
    assert_eq!(result.tags_added, 0);
    assert_eq!(result.tags_removed, 0);
    assert!(!result.timestamp_updated);
}

#[test]
fn filters_apply_tag_edits_empty_arrays_count_as_operations() {
    let content = "---\ntitle: Test\ntags: []\n---\nContent";
    let result = apply_tag_edits(content, Some(&[]), Some(&[]), None).unwrap().unwrap();

    assert_eq!(result.tags_added, 0);
    assert_eq!(result.tags_removed, 0);
}

#[test]
fn filters_apply_tag_edits_multiple_tags() {
    let content = "---\ntitle: Test\ntags: [old1, old2]\n---\nContent";
    let result = apply_tag_edits(
        content,
        Some(&["new1".to_string(), "new2".to_string()]),
        Some(&["old1".to_string(), "old2".to_string()]),
        None,
    )
    .unwrap().unwrap();

    assert!(!result.content.contains("old1"));
    assert!(!result.content.contains("old2"));
    assert!(result.content.contains("new1"));
    assert!(result.content.contains("new2"));
    assert_eq!(result.tags_added, 2);
    assert_eq!(result.tags_removed, 2);
}

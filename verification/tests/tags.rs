use kajet::tags::{normalize_tag, tags_match};

#[test]
fn filters_tags_match_case_insensitive() {
    assert!(tags_match(
        &["Rust".to_string(), "MCP".to_string()],
        &["rust".to_string()]
    ));
}

#[test]
fn filters_tags_match_ignores_hash_prefix() {
    assert!(tags_match(&["#rust".to_string()], &["rust".to_string()]));
    assert!(tags_match(&["rust".to_string()], &["#rust".to_string()]));
}

#[test]
fn filters_tags_match_requires_all() {
    assert!(!tags_match(
        &["rust".to_string()],
        &["rust".to_string(), "mcp".to_string()]
    ));
}

#[test]
fn filters_tags_match_empty_required_matches_anything() {
    assert!(tags_match(&["rust".to_string()], &[]));
    assert!(tags_match(&[], &[]));
}

#[test]
fn normalize_tag_drops_one_hash_and_lowercases() {
    assert_eq!(normalize_tag("#Rust"), "rust");
    assert_eq!(normalize_tag("##Rust"), "#rust");
    assert_eq!(normalize_tag("MCP"), "mcp");
    assert_eq!(normalize_tag(""), "");
}

#[test]
fn tags_match_missing_tag_fails() {
    assert!(!tags_match(&[], &["rust".to_string()]));
    assert!(tags_match(
        &["#A".to_string(), "b".to_string()],
        &["B".to_string(), "a".to_string()]
    ));
}

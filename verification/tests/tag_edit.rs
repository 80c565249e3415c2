use kajet::tag_edit::{
    add_tags, add_tags_checked, apply_tag_edits, can_write_tags, remove_tags, TagEditError,
};

#[test]
fn add_tags_to_empty_frontmatter() {
    let content = "# Note\n\nBody text.";
    let result = add_tags(content, &["rust".into(), "test".into()]).unwrap();
    assert!(result.starts_with("---\n"));
    assert!(result.contains("tags:"));
    assert!(result.contains("rust"));
    assert!(result.contains("test"));
    assert!(result.contains("# Note"));
}

#[test]
fn add_tags_deduplicate() {
    let content = "---\ntags: [rust, programming]\n---\n# Note";
    let result = add_tags(content, &["rust".into(), "new".into()]).unwrap();
    assert!(result.contains("rust"));
    assert!(result.contains("new"));
    let rust_count = result.matches("rust").count();
    assert_eq!(rust_count, 1);
}

#[test]
fn remove_tags_nonexistent() {
    let content = "---\ntags: [rust]\n---\n# Note";
    let result = remove_tags(content, &["python".into()]).unwrap();
    assert!(result.contains("rust"));
    assert!(!result.contains("python"));
}

#[test]
fn add_and_remove_same_tag() {
    let content = "---\ntags: [foo]\n---\n# Note";
    let removed = remove_tags(content, &["foo".into()]).unwrap();
    let added = add_tags(&removed, &["foo".into()]).unwrap();
    assert!(added.contains("foo"));
}

#[test]
fn remove_all_tags() {
    let content = "---\ntags: [rust, python]\n---\n# Note";
    let result = remove_tags(content, &["rust".into(), "python".into()]).unwrap();
    assert!(result.contains("tags:"));
    assert!(!result.contains("rust"));
    assert!(!result.contains("python"));
}

#[test]
fn add_tags_string_format_single() {
    let content = "---\ntags: rust\n---\n# Note";
    let result = add_tags(content, &["python".into()]).unwrap();
    assert!(result.contains("rust"));
    assert!(result.contains("python"));
}

#[test]
fn add_tags_string_format_comma_separated() {
    let content = "---\ntags: rust, programming\n---\n# Note";
    let result = add_tags(content, &["test".into()]).unwrap();
    assert!(result.contains("rust"));
    assert!(result.contains("programming"));
    assert!(result.contains("test"));
}

#[test]
fn remove_tags_string_format_single() {
    let content = "---\ntags: rust\n---\n# Note";
    let result = remove_tags(content, &["rust".into()]).unwrap();
    assert!(!result.contains("rust"));
}

#[test]
fn remove_tags_string_format_comma_separated() {
    let content = "---\ntags: rust, python, test\n---\n# Note";
    let result = remove_tags(content, &["python".into()]).unwrap();
    assert!(result.contains("rust"));
    assert!(result.contains("test"));
    assert!(!result.contains("python"));
}

#[test]
fn remove_tags_string_format_nonexistent() {
    let content = "---\ntags: rust\n---\n# Note";
    let result = remove_tags(content, &["python".into()]).unwrap();
    assert!(result.contains("rust"));
    assert!(!result.contains("python"));
}

#[test]
fn add_tags_writes_exact_frontmatter() {
    assert_eq!(
        add_tags("Body", &["a".into(), "b".into()]).unwrap(),
        "---\ntags: [a, b]\n---\nBody"
    );
    assert_eq!(
        add_tags("---\ntitle: T\ntags: [x]\n---\nBody", &["y".into(), "x".into()]).unwrap(),
        "---\ntitle: T\ntags:\n- x\n- y\n---\n\nBody"
    );
    assert_eq!(
        remove_tags("no frontmatter", &["a".into()]).unwrap(),
        "no frontmatter"
    );
}

#[test]
fn invalid_yaml_is_an_error_and_scalars_are_refused() {
    let bad = "---\ntags: [unclosed\n---\nBody";
    assert!(matches!(
        add_tags(bad, &["x".into()]),
        Err(TagEditError::InvalidYaml { .. })
    ));
    let scalar = "---\njust text\n---\nBody";
    assert!(!can_write_tags(scalar));
    assert!(add_tags_checked(scalar, &["x".into()]).is_none());
    assert!(can_write_tags("plain"));
}

#[test]
fn apply_tag_edits_removes_then_adds_then_stamps() {
    let content = "---\ntags: [a, b]\nmodified: old\n---\nBody";
    let res = apply_tag_edits(
        content,
        Some(&["c".to_string()]),
        Some(&["a".to_string(), "zz".to_string()]),
        Some(("modified", "new")),
    )
    .unwrap()
    .unwrap();
    assert_eq!(res.tags_added, 1);
    assert_eq!(res.tags_removed, 2);
    assert!(res.timestamp_updated);
    assert!(!res.content.contains("- a"));
    assert!(res.content.contains("- b"));
    assert!(res.content.contains("- c"));
    assert!(res.content.contains("modified: new"));

    let none = apply_tag_edits("Body", None, None, None).unwrap().unwrap();
    assert_eq!(none.content, "Body");
    assert!(!none.timestamp_updated);
}

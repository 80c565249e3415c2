use kajet::frontmatter::extract_date_seconds;
use kajet::{
    extract_tags, extract_title, generate_frontmatter, strip_frontmatter,
    update_existing_frontmatter_field, update_frontmatter_field,
};

#[test]
fn strip_frontmatter_basic() {
    let md = "---\ntags:\n  - rust\n---\n# Title\n\nBody";
    let (fm, body) = strip_frontmatter(md);
    assert_eq!(fm, "tags:\n  - rust");
    assert!(body.contains("# Title"));
}

#[test]
fn strip_frontmatter_none() {
    let md = "# Title\n\nBody";
    let (fm, body) = strip_frontmatter(md);
    assert!(fm.is_empty());
    assert_eq!(body, md);
}

#[test]
fn extract_title_from_h1() {
    assert_eq!(extract_title("note.md", "# My Title\n\nText"), "My Title");
}

#[test]
fn extract_title_fallback_to_filename() {
    assert_eq!(
        extract_title("my-note.md", "Just some text without a heading"),
        "my-note"
    );
}

#[test]
fn extract_tags_list_format() {
    let fm = "tags:\n  - rust\n  - programming";
    assert_eq!(extract_tags(fm), vec!["rust", "programming"]);
}

#[test]
fn extract_tags_inline_format() {
    assert_eq!(
        extract_tags("tags: [rust, programming]"),
        vec!["rust", "programming"]
    );
}

#[test]
fn extract_tags_empty() {
    assert!(extract_tags("").is_empty());
}

#[test]
fn generate_frontmatter_basic() {
    let result = generate_frontmatter(
        "My Note",
        &["rust".into(), "test".into()],
        &[],
        &[],
        Some("2026-02-08T12:00:00"),
        "created",
        "modified",
    );
    assert!(result.starts_with("---\n"));
    assert!(result.ends_with("---\n"));
    assert!(result.contains("title: \"My Note\""));
    assert!(result.contains("tags: [rust, test]"));
    assert!(result.contains("created: 2026-02-08T12:00:00"));
    assert!(result.contains("modified: 2026-02-08T12:00:00"));
}

#[test]
fn generate_frontmatter_merge_default_tags() {
    let result = generate_frontmatter(
        "Note",
        &["rust".into()],
        &["kajet".into(), "rust".into()], // rust already in user tags
        &[],
        None,
        "created",
        "modified",
    );
    assert!(result.contains("tags: [rust, kajet]"));
    // No duplicates: "rust" appears only once
    let tag_count = result.matches("rust").count();
    assert_eq!(tag_count, 1);
}

#[test]
fn generate_frontmatter_no_tags_no_timestamp() {
    let result = generate_frontmatter("Note", &[], &[], &[], None, "created", "modified");
    assert!(result.contains("title: \"Note\""));
    assert!(!result.contains("tags:"));
    assert!(!result.contains("created:"));
    assert!(!result.contains("modified:"));
}

#[test]
fn generate_frontmatter_escapes_quotes() {
    let result = generate_frontmatter(
        "Note \"with\" quotes",
        &[],
        &[],
        &[],
        None,
        "created",
        "modified",
    );
    assert!(result.contains("title: \"Note \\\"with\\\" quotes\""));
}

#[test]
fn generate_frontmatter_with_aliases() {
    let result = generate_frontmatter(
        "My Note",
        &["rust".into()],
        &[],
        &["alias1".into(), "alias2".into()],
        None,
        "created",
        "modified",
    );
    assert!(result.contains("aliases: [alias1, alias2]"));
}

#[test]
fn generate_frontmatter_without_aliases() {
    let result = generate_frontmatter("My Note", &[], &[], &[], None, "created", "modified");
    assert!(!result.contains("aliases:"));
}

#[test]
fn generate_frontmatter_empty_created_field() {
    let result =
        generate_frontmatter("Note", &[], &[], &[], Some("2026-02-08"), "", "modified");
    assert!(!result.contains("created:"));
    // Note: we don't search for a bare empty field name
    assert!(result.contains("modified: 2026-02-08"));
}

#[test]
fn generate_frontmatter_both_fields_empty() {
    let result = generate_frontmatter("Note", &[], &[], &[], Some("2026-02-08"), "", "");
    assert!(!result.contains("2026-02-08"));
}

#[test]
fn update_existing_field() {
    let content = "---\ntitle: \"Old\"\nmodified: 2025-01-01\n---\n# Body\n";
    let result = update_frontmatter_field(content, "modified", "2026-02-08");
    assert!(result.contains("modified: 2026-02-08"));
    assert!(!result.contains("2025-01-01"));
    assert!(result.contains("# Body"));
}

#[test]
fn update_add_new_field() {
    let content = "---\ntitle: \"Note\"\n---\n# Body\n";
    let result = update_frontmatter_field(content, "modified", "2026-02-08");
    assert!(result.contains("modified: 2026-02-08"));
    assert!(result.contains("title: \"Note\""));
    assert!(result.contains("# Body"));
}

#[test]
fn update_no_frontmatter() {
    let content = "# Body\n\nText here.\n";
    let result = update_frontmatter_field(content, "modified", "2026-02-08");
    assert!(result.starts_with("---\n"));
    assert!(result.contains("modified: 2026-02-08"));
    assert!(result.contains("# Body"));
}

#[test]
fn update_preserves_body_with_wikilinks() {
    let content = "---\ntags: [test]\n---\n# Współpraca\n\nSee [[Link]] and [[Other|alias]].\n";
    let result = update_frontmatter_field(content, "modified", "2026-02-08");
    assert!(result.contains("[[Link]]"));
    assert!(result.contains("[[Other|alias]]"));
    assert!(result.contains("Współpraca"));
}

#[test]
fn update_existing_only_updates_present_field() {
    let content = "---\ntitle: \"Note\"\nmodified: 2025-01-01\n---\n# Body\n";
    let result = update_existing_frontmatter_field(content, "modified", "2026-02-08");
    assert!(result.contains("modified: 2026-02-08"));
    assert!(!result.contains("2025-01-01"));
}

#[test]
fn update_existing_skips_missing_field() {
    // Note created by Obsidian with Polish field names — kajet should NOT add "modified:"
    let content = "---\ntitle: \"Note\"\nData aktualizacji: 2025-01-01\n---\n# Body\n";
    let result = update_existing_frontmatter_field(content, "modified", "2026-02-08");
    assert!(
        !result.contains("modified:"),
        "Should not add missing field"
    );
    assert!(
        result.contains("Data aktualizacji: 2025-01-01"),
        "Original field preserved"
    );
    assert_eq!(result, content);
}

#[test]
fn update_existing_no_frontmatter_unchanged() {
    let content = "# Body\n\nText here.\n";
    let result = update_existing_frontmatter_field(content, "modified", "2026-02-08");
    assert_eq!(result, content);
}

#[test]
fn update_empty_frontmatter() {
    let content = "---\n---\n# Body\n";
    let result = update_frontmatter_field(content, "modified", "2026-02-08");
    assert!(result.contains("modified: 2026-02-08"));
    assert!(result.contains("# Body"));
}

#[test]
fn update_existing_empty_frontmatter_unchanged() {
    let content = "---\n---\n# Body\n";
    let result = update_existing_frontmatter_field(content, "modified", "2026-02-08");
    assert_eq!(result, content);
}


fn extract_date(fm: &str, field: &str) -> Option<f64> {
    extract_date_seconds(fm, field).map(|s| s as f64)
}

#[test]
fn extract_date_iso8601_with_timezone() {
    let fm = "created: 2026-02-08T12:30:00+01:00";
    let ts = extract_date(fm, "created");
    assert!(ts.is_some());
    let ts_val = ts.unwrap();
    assert!(ts_val > 1700000000.0 && ts_val < 2000000000.0);
}

#[test]
fn extract_date_iso8601_without_timezone() {
    let fm = "modified: 2026-02-08T12:30:00";
    let ts = extract_date(fm, "modified");
    assert!(ts.is_some());
}

#[test]
fn extract_date_date_only() {
    let fm = "created: 2026-02-08";
    let ts = extract_date(fm, "created");
    assert!(ts.is_some());
    let ts_val = ts.unwrap();
    assert!(ts_val > 0.0);
}

#[test]
fn extract_date_space_separator() {
    let fm = "Data utworzenia: 2026-02-08 14:45:30";
    let ts = extract_date(fm, "Data utworzenia");
    assert!(ts.is_some());
}

#[test]
fn extract_date_quoted_value() {
    let fm = "created: \"2026-02-08\"";
    let ts = extract_date(fm, "created");
    assert!(ts.is_some());
}

#[test]
fn extract_date_field_not_found() {
    let fm = "title: My Note\ntags: [test]";
    let ts = extract_date(fm, "created");
    assert!(ts.is_none());
}

#[test]
fn extract_date_invalid_format() {
    let fm = "created: not a date";
    let ts = extract_date(fm, "created");
    assert!(ts.is_none());
}

#[test]
fn extract_date_empty_field_name() {
    let fm = "created: 2026-02-08";
    let ts = extract_date(fm, "");
    assert!(ts.is_none());
}

#[test]
fn extract_date_polish_field_name() {
    let fm = "Data utworzenia: 2026-02-08\nTagi: [test]";
    let ts = extract_date(fm, "Data utworzenia");
    assert!(ts.is_some());
}

#[test]
fn extract_date_exact_seconds() {
    assert_eq!(extract_date_seconds("created: 2026-02-08", "created"), Some(1770508800));
    assert_eq!(
        extract_date_seconds("created: '2026-02-08T01:00:00+01:00'", "created"),
        Some(1770508800)
    );
    assert_eq!(
        extract_date_seconds("a: 1\n  created:   2026-02-08 00:00:10  ", "created"),
        Some(1770508810)
    );
    assert_eq!(extract_date_seconds("", "created"), None);
}

#[test]
fn updating_a_field_twice_matches_updating_once() {
    let once = update_frontmatter_field("Body text.", "modified", "2025-01-01");
    assert_eq!(once, "---\nmodified: 2025-01-01\n---\nBody text.");
    assert_eq!(update_frontmatter_field(&once, "modified", "2025-01-01"), once);
    let fm = "---\ntitle: A\nmodified: old\n---\nBody";
    let once = update_frontmatter_field(fm, "modified", "new");
    assert_eq!(update_frontmatter_field(&once, "modified", "new"), once);
}

#[test]
fn updating_a_field_twice_adds_it_once() {
    let fm = "---\ntitle: A\ntags: [x]\n---\nBody\n---\nmore";
    let once = update_frontmatter_field(fm, "modified", "new");
    assert_eq!(once, "---\ntitle: A\ntags: [x]\nmodified: new\n---\nBody\n---\nmore");
    assert_eq!(update_frontmatter_field(&once, "modified", "new"), once);
}

use kajet::{find_section_by_heading, parse_sections, SectionLookupError};

#[test]
fn empty_document() {
    let sections = parse_sections("");
    assert!(sections.is_empty());
}

#[test]
fn no_headings() {
    let sections = parse_sections("Just some plain text without any headings.");
    assert!(sections.is_empty());
}

#[test]
fn single_heading() {
    let md = "# Title\n\nSome body text.\n";
    let sections = parse_sections(md);
    assert_eq!(sections.len(), 1);
    assert_eq!(sections[0].level, 1);
    assert_eq!(sections[0].heading_text, "Title");
    assert_eq!(&md[sections[0].heading_range.clone()], "# Title\n");
    assert_eq!(md[sections[0].body_range.clone()].trim(), "Some body text.");
}

#[test]
fn sibling_headings() {
    let md = "# First\n\nBody 1\n\n# Second\n\nBody 2\n";
    let sections = parse_sections(md);
    assert_eq!(sections.len(), 2);
    assert_eq!(sections[0].heading_text, "First");
    assert_eq!(sections[1].heading_text, "Second");
    // First section body ends at second heading
    assert!(md[sections[0].body_range.clone()].contains("Body 1"));
    assert!(!md[sections[0].body_range.clone()].contains("Body 2"));
    // Second section body to EOF
    assert!(md[sections[1].body_range.clone()].contains("Body 2"));
}

#[test]
fn nested_headings() {
    let md = "# H1\n\nH1 body\n\n## H2\n\nH2 body\n\n### H3\n\nH3 body\n";
    let sections = parse_sections(md);
    assert_eq!(sections.len(), 3);
    assert_eq!(sections[0].level, 1);
    assert_eq!(sections[1].level, 2);
    assert_eq!(sections[2].level, 3);
    // H1 body includes everything until EOF (no same-or-higher level heading)
    let h1_body = &md[sections[0].body_range.clone()];
    assert!(h1_body.contains("H1 body"));
    assert!(h1_body.contains("H2 body"));
    assert!(h1_body.contains("H3 body"));
    // H2 body includes H3 (lower level)
    let h2_body = &md[sections[1].body_range.clone()];
    assert!(h2_body.contains("H2 body"));
    assert!(h2_body.contains("H3 body"));
    // H3 body is just its own content
    let h3_body = &md[sections[2].body_range.clone()];
    assert!(h3_body.contains("H3 body"));
    assert!(!h3_body.contains("H2 body"));
}

#[test]
fn code_block_headings_ignored() {
    let md = "# Real heading\n\nBody\n\n```markdown\n# Fake heading\n```\n\nMore body\n";
    let sections = parse_sections(md);
    assert_eq!(sections.len(), 1);
    assert_eq!(sections[0].heading_text, "Real heading");
}

#[test]
fn heading_range_includes_markers() {
    let md = "## My Section\n\nContent here.\n";
    let sections = parse_sections(md);
    assert_eq!(sections.len(), 1);
    let heading_text = &md[sections[0].heading_range.clone()];
    assert!(heading_text.starts_with("## My Section"));
}

#[test]
fn body_extends_to_eof() {
    let md = "# Only heading\n\nContent goes to the end.";
    let sections = parse_sections(md);
    assert_eq!(sections.len(), 1);
    assert_eq!(sections[0].body_range.end, md.len());
    assert!(md[sections[0].body_range.clone()].contains("Content goes to the end."));
}

#[test]
fn find_exact_heading() {
    let md = "# Title\n\nBody\n\n## Tasks\n\nTask list\n";
    let sections = parse_sections(md);
    let found = find_section_by_heading(&sections, "Tasks").unwrap();
    assert_eq!(found.heading_text, "Tasks");
    assert_eq!(found.level, 2);
}

#[test]
fn find_with_hash_prefix() {
    let md = "# Title\n\nBody\n\n## Tasks\n\nTask list\n";
    let sections = parse_sections(md);
    let found = find_section_by_heading(&sections, "## Tasks").unwrap();
    assert_eq!(found.heading_text, "Tasks");
}

#[test]
fn find_not_found() {
    let md = "# Title\n\nBody\n\n## Tasks\n\nTask list\n";
    let sections = parse_sections(md);
    let err = find_section_by_heading(&sections, "Nonexistent").unwrap_err();
    match err {
        SectionLookupError::NotFound { available } => {
            assert!(available.contains(&"Title".to_string()));
            assert!(available.contains(&"Tasks".to_string()));
        }
        _ => panic!("Expected NotFound"),
    }
}

#[test]
fn find_ambiguous() {
    let md = "# Title\n\n## Notes\n\nFirst\n\n## Notes\n\nSecond\n";
    let sections = parse_sections(md);
    let err = find_section_by_heading(&sections, "Notes").unwrap_err();
    match err {
        SectionLookupError::Ambiguous { count } => assert_eq!(count, 2),
        _ => panic!("Expected Ambiguous"),
    }
}

#[test]
fn polish_headings() {
    let md = "# Główne tematy\n\nTreść po polsku.\n\n## Współpraca\n\nDalsze informacje.\n";
    let sections = parse_sections(md);
    assert_eq!(sections.len(), 2);
    assert_eq!(sections[0].heading_text, "Główne tematy");
    assert_eq!(sections[1].heading_text, "Współpraca");
    let found = find_section_by_heading(&sections, "Współpraca").unwrap();
    assert_eq!(found.level, 2);
}

#[test]
fn h2_siblings_isolate_body() {
    let md = "## A\n\nContent A\n\n## B\n\nContent B\n\n## C\n\nContent C\n";
    let sections = parse_sections(md);
    assert_eq!(sections.len(), 3);
    let a_body = &md[sections[0].body_range.clone()];
    assert!(a_body.contains("Content A"));
    assert!(!a_body.contains("Content B"));
    let b_body = &md[sections[1].body_range.clone()];
    assert!(b_body.contains("Content B"));
    assert!(!b_body.contains("Content C"));
}

#[test]
fn heading_with_subsections_body_includes_them() {
    let md =
        "## Parent\n\nParent body\n\n### Child\n\nChild body\n\n## Sibling\n\nSibling body\n";
    let sections = parse_sections(md);
    assert_eq!(sections.len(), 3);
    let parent_body = &md[sections[0].body_range.clone()];
    assert!(parent_body.contains("Parent body"));
    assert!(parent_body.contains("Child body"));
    assert!(!parent_body.contains("Sibling body"));
}


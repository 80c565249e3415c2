use kajet::{
    append_content, insert_after, overwrite_body, prepend_content, replace_section, replace_text,
    ReplaceError, TransformError,
};

#[test]
fn append_to_file() {
    let content = "# Title\n\nExisting body.\n";
    let result = append_content(content, "New line.", None).unwrap();
    assert!(result.ends_with("New line.\n"));
    assert!(result.contains("Existing body."));
}

#[test]
fn append_to_section() {
    let content = "# Title\n\nBody\n\n## Tasks\n\n- Task 1\n\n## Notes\n\nNote body\n";
    let result = append_content(content, "- Task 2", Some("## Tasks")).unwrap();
    // Task 2 should be between Tasks and Notes sections
    let tasks_pos = result.find("- Task 2").unwrap();
    let notes_pos = result.find("## Notes").unwrap();
    assert!(tasks_pos < notes_pos);
    assert!(result.contains("- Task 1"));
    // No extra blank line between existing and new content
    assert!(result.contains("- Task 1\n- Task 2"));
    // Blank line before next heading is preserved
    assert!(result.contains("- Task 2\n\n## Notes"));
}

#[test]
fn append_to_last_section() {
    let content = "# Title\n\n## End\n\nLast content.\n";
    let result = append_content(content, "Appended.", Some("## End")).unwrap();
    assert!(result.contains("Last content."));
    assert!(result.contains("Appended."));
}

#[test]
fn prepend_no_frontmatter() {
    let content = "# Title\n\nBody\n";
    let result = prepend_content(content, "Prepended text.", None).unwrap();
    let prepend_pos = result.find("Prepended text.").unwrap();
    let title_pos = result.find("# Title").unwrap();
    assert!(prepend_pos < title_pos);
}

#[test]
fn prepend_with_frontmatter() {
    let content = "---\ntags: [test]\n---\n# Title\n\nBody\n";
    let result = prepend_content(content, "Prepended.", None).unwrap();
    // Frontmatter should be preserved
    assert!(result.contains("---\ntags: [test]\n---"));
    // Prepended text should come after frontmatter but before body
    let fm_end = result.find("---\n").unwrap();
    let second_fm = result[fm_end + 4..].find("---\n").unwrap() + fm_end + 4;
    let prepend_pos = result.find("Prepended.").unwrap();
    let title_pos = result.find("# Title").unwrap();
    assert!(prepend_pos > second_fm);
    assert!(prepend_pos < title_pos);
}

#[test]
fn prepend_with_heading() {
    let content = "# Title\n\nBody\n\n## Tasks\n\nExisting tasks.\n";
    let result = prepend_content(content, "New task.", Some("## Tasks")).unwrap();
    let heading_pos = result.find("## Tasks").unwrap();
    let new_pos = result.find("New task.").unwrap();
    let existing_pos = result.find("Existing tasks.").unwrap();
    assert!(new_pos > heading_pos);
    assert!(new_pos < existing_pos);
}

#[test]
fn overwrite_no_frontmatter() {
    let content = "# Old Title\n\nOld body.\n";
    let result = overwrite_body(content, "# New Title\n\nNew body.");
    assert_eq!(result, "# New Title\n\nNew body.\n");
    assert!(!result.contains("Old"));
}

#[test]
fn overwrite_with_frontmatter() {
    let content = "---\ntags: [keep]\n---\n# Old Title\n\nOld body.\n";
    let result = overwrite_body(content, "# New Title\n\nNew body.");
    assert!(result.contains("tags: [keep]"));
    assert!(result.contains("New body."));
    assert!(!result.contains("Old body."));
}

#[test]
fn replace_section_basic() {
    let content = "# Title\n\n## Tasks\n\n- Old task\n\n## Notes\n\nNote body\n";
    let result = replace_section(content, "## Tasks", "- New task 1\n- New task 2").unwrap();
    assert!(result.contains("## Tasks"));
    assert!(result.contains("- New task 1"));
    assert!(result.contains("- New task 2"));
    assert!(!result.contains("- Old task"));
    assert!(result.contains("## Notes"));
    assert!(result.contains("Note body"));
    // Blank line before next heading is preserved
    assert!(result.contains("- New task 2\n\n## Notes"));
}

#[test]
fn replace_section_with_subsections() {
    let content =
        "## Parent\n\nParent body\n\n### Child\n\nChild body\n\n## Sibling\n\nSibling body\n";
    let result = replace_section(content, "## Parent", "Replaced content.").unwrap();
    assert!(result.contains("## Parent"));
    assert!(result.contains("Replaced content."));
    assert!(!result.contains("Parent body"));
    assert!(!result.contains("Child body")); // subsections are part of parent
    assert!(result.contains("## Sibling"));
    assert!(result.contains("Sibling body"));
}

#[test]
fn replace_section_heading_not_found() {
    let content = "# Title\n\n## Tasks\n\nBody\n";
    let err = replace_section(content, "## Nonexistent", "New").unwrap_err();
    match err {
        TransformError::HeadingNotFound { available } => {
            assert!(available.contains(&"Tasks".to_string()));
        }
        _ => panic!("Expected HeadingNotFound"),
    }
}

#[test]
fn replace_text_single() {
    let content = "Hello world, this is a test.";
    let result = replace_text(content, "world", "earth").unwrap();
    assert_eq!(result, "Hello earth, this is a test.");
}

#[test]
fn replace_text_not_found() {
    let content = "Hello world.";
    let err = replace_text(content, "mars", "earth").unwrap_err();
    assert!(matches!(err, ReplaceError::NotFound));
}

#[test]
fn replace_text_ambiguous() {
    let content = "foo bar foo baz foo";
    let err = replace_text(content, "foo", "qux").unwrap_err();
    match err {
        ReplaceError::Ambiguous { count, positions } => {
            assert_eq!(count, 3);
            assert_eq!(positions.len(), 3);
            assert_eq!(positions[0].line, 1);
            assert_eq!(positions[0].column, 1);
        }
        _ => panic!("Expected Ambiguous"),
    }
}

#[test]
fn replace_text_multiline() {
    let content = "Line one\nLine two\nLine three\n";
    let result = replace_text(content, "Line two", "LINE TWO").unwrap();
    assert_eq!(result, "Line one\nLINE TWO\nLine three\n");
}

#[test]
fn insert_after_basic() {
    let content = "# Title\n\n- Item 1\n- Item 2\n\n## Notes\n";
    // Agent provides anchor and content without worrying about newlines
    let result = insert_after(content, "- Item 1", "- Item 1.5").unwrap();
    assert!(result.contains("- Item 1\n- Item 1.5\n- Item 2"));
}

#[test]
fn insert_after_anchor_with_trailing_newline() {
    let content = "# Title\n\n- Item 1\n- Item 2\n";
    let result = insert_after(content, "- Item 1\n", "- Item 1.5\n").unwrap();
    assert!(result.contains("- Item 1\n- Item 1.5\n- Item 2"));
}

#[test]
fn insert_after_not_found() {
    let content = "Hello world.";
    let err = insert_after(content, "mars", "new text").unwrap_err();
    assert!(matches!(err, ReplaceError::NotFound));
}

#[test]
fn insert_after_ambiguous() {
    let content = "foo bar foo baz foo";
    let err = insert_after(content, "foo", "new").unwrap_err();
    match err {
        ReplaceError::Ambiguous { count, positions } => {
            assert_eq!(count, 3);
            assert_eq!(positions.len(), 3);
        }
        _ => panic!("Expected Ambiguous"),
    }
}

#[test]
fn insert_after_multiline_anchor() {
    let content = "First line\nSecond line\nThird line\n";
    let result = insert_after(content, "First line\nSecond line", "Inserted").unwrap();
    assert!(result.contains("Second line\nInserted\nThird line"));
}

#[test]
fn polish_content_transforms() {
    let content = "# Główne tematy\n\nTreść po polsku z [[linkiem]].\n\n## Współpraca\n\nSzczegóły współpracy.\n";
    let result = append_content(content, "Nowa treść.", Some("## Współpraca")).unwrap();
    assert!(result.contains("Szczegóły współpracy."));
    assert!(result.contains("Nowa treść."));
    assert!(result.contains("Główne tematy"));
}


#[test]
fn replacing_back_restores_the_content() {
    let content = "alpha beta gamma";
    let once = replace_text(content, "beta", "delta").unwrap();
    assert_eq!(once, "alpha delta gamma");
    assert_eq!(replace_text(&once, "delta", "beta").unwrap(), content);
}

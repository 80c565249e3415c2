use kajet::format::{format_list_tags, vault_tree_lines};
use kajet::inputs::TagListDetail;
use kajet::tree::VaultFolder;

#[test]
fn tests_format_list_tags_empty() {
    let result = format_list_tags(&[], TagListDetail::Counts, None);
    assert_eq!(result, "No tags found");
}

#[test]
fn tests_format_list_tags_names_mode() {
    let tags = vec![
        ("rust".into(), vec!["a.md".into(), "b.md".into()]),
        ("python".into(), vec!["c.md".into()]),
    ];
    let result = format_list_tags(&tags, TagListDetail::Names, None);
    assert!(result.contains("Tags (2 unique):"));
    assert!(result.contains("#rust, #python"));
}

#[test]
fn tests_format_list_tags_counts_mode() {
    let tags = vec![
        ("rust".into(), vec!["a.md".into(), "b.md".into()]),
        ("python".into(), vec!["c.md".into()]),
    ];
    let result = format_list_tags(&tags, TagListDetail::Counts, None);
    assert!(result.contains("#rust: 2 notes"));
    assert!(result.contains("#python: 1 notes"));
}

#[test]
fn tests_format_list_tags_full_mode() {
    let tags = vec![
        ("rust".into(), vec!["a.md".into(), "b.md".into()]),
        ("python".into(), vec!["c.md".into()]),
    ];
    let result = format_list_tags(&tags, TagListDetail::Full, None);
    assert!(result.contains("#rust (2 notes): a.md, b.md"));
    assert!(result.contains("#python (1 notes): c.md"));
}

#[test]
fn tests_format_list_tags_with_folder() {
    let tags = vec![("journal".into(), vec!["journal/2025-01.md".into()])];
    let result = format_list_tags(&tags, TagListDetail::Counts, Some("journal"));
    assert!(result.contains("Tags in 'journal' (1 unique):"));
}

#[test]
fn tests_format_list_tags_deduplication() {
    let tags = vec![("rust".into(), vec!["a.md".into(), "b.md".into()])];
    let result = format_list_tags(&tags, TagListDetail::Counts, None);
    assert!(result.contains("#rust: 2 notes"));
}

#[test]
fn format_list_tags_exact_text() {
    let tags = vec![
        ("a".to_string(), vec!["x.md".to_string(); 12]),
        ("b".to_string(), vec![]),
    ];
    assert_eq!(
        format_list_tags(&tags, TagListDetail::Counts, None),
        "Tags (2 unique):\n#a: 12 notes\n#b: 0 notes"
    );
}

fn folder(name: &str, notes: usize, files: &[&str], subs: Vec<VaultFolder>) -> VaultFolder {
    VaultFolder {
        name: name.to_string(),
        rel_path: name.to_string(),
        note_count: notes,
        subfolders: subs,
        files: files.iter().map(|f| f.to_string()).collect(),
        total_notes_in_vault: None,
    }
}

#[test]
fn vault_tree_lines_indent_and_count() {
    let tree = folder(
        "vault",
        2,
        &["readme.md"],
        vec![folder(
            "journal",
            10,
            &["a.md"],
            vec![folder("2025", 3, &[], vec![])],
        )],
    );
    assert_eq!(
        vault_tree_lines(&tree),
        vec![
            "readme.md".to_string(),
            "journal/ (13)".to_string(),
            "  a.md".to_string(),
            "  2025/ (3)".to_string(),
        ]
    );
}

#[test]
fn format_format_list_tags_empty() {
    let result = format_list_tags(&[], TagListDetail::from_request(Some("counts")), None);
    assert_eq!(result, "No tags found");
}

#[test]
fn format_format_list_tags_names_mode() {
    let tags = vec![
        ("rust".into(), vec!["a.md".into(), "b.md".into()]),
        ("python".into(), vec!["c.md".into()]),
    ];
    let result = format_list_tags(&tags, TagListDetail::from_request(Some("names")), None);
    assert!(result.contains("Tags (2 unique):"));
    assert!(result.contains("#rust, #python"));
}

#[test]
fn format_format_list_tags_counts_mode() {
    let tags = vec![
        ("rust".into(), vec!["a.md".into(), "b.md".into()]),
        ("python".into(), vec!["c.md".into()]),
    ];
    let result = format_list_tags(&tags, TagListDetail::from_request(Some("counts")), None);
    assert!(result.contains("#rust: 2 notes"));
    assert!(result.contains("#python: 1 notes"));
}

#[test]
fn format_format_list_tags_full_mode() {
    let tags = vec![
        ("rust".into(), vec!["a.md".into(), "b.md".into()]),
        ("python".into(), vec!["c.md".into()]),
    ];
    let result = format_list_tags(&tags, TagListDetail::from_request(Some("full")), None);
    assert!(result.contains("#rust (2 notes): a.md, b.md"));
    assert!(result.contains("#python (1 notes): c.md"));
}

#[test]
fn format_format_list_tags_with_folder() {
    let tags = vec![("journal".into(), vec!["journal/2025-01.md".into()])];
    let result = format_list_tags(&tags, TagListDetail::from_request(Some("counts")), Some("journal"));
    assert!(result.contains("Tags in 'journal' (1 unique):"));
}

#[test]
fn format_format_list_tags_deduplication() {
    let tags = vec![("rust".into(), vec!["a.md".into(), "b.md".into()])];
    let result = format_list_tags(&tags, TagListDetail::from_request(Some("counts")), None);
    assert!(result.contains("#rust: 2 notes"));
}

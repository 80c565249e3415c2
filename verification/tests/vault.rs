use kajet::parse_vault_entries;

#[test]
fn parse_vault_entries_processes_multiple_files() {
    let entries = vec![
        (
            "a.md".to_string(),
            "# A\n\nLorem ipsum dolor sit amet, consectetur adipiscing elit sed do eiusmod."
                .to_string(),
        ),
        (
            "b.md".to_string(),
            "# B\n\nUt enim ad minim veniam, quis nostrud exercitation ullamco laboris nisi."
                .to_string(),
        ),
    ];
    let chunks = parse_vault_entries(&entries);
    assert_eq!(chunks.len(), 2);
    assert_eq!(chunks[0].note_path, "a.md");
    assert_eq!(chunks[1].note_path, "b.md");
}

#[test]
fn parse_vault_entries_empty_input() {
    let chunks = parse_vault_entries(&[]);
    assert!(chunks.is_empty());
}

#[test]
fn parse_vault_entries_filters_empty_files() {
    let entries = vec![
        ("empty.md".to_string(), "".to_string()),
        (
            "has_content.md".to_string(),
            "Lorem ipsum dolor sit amet, consectetur adipiscing elit sed do eiusmod."
                .to_string(),
        ),
    ];
    let chunks = parse_vault_entries(&entries);
    assert_eq!(chunks.len(), 1);
    assert_eq!(chunks[0].note_path, "has_content.md");
}


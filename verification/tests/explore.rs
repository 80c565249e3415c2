use kajet::explore::{note_section_from_breadcrumb, section_from_breadcrumb, ConnectionDirection};

#[test]
fn merge_keeps_same_direction_and_combines_different_ones() {
    assert_eq!(ConnectionDirection::Backlink.merge(ConnectionDirection::Backlink), ConnectionDirection::Backlink);
    assert_eq!(ConnectionDirection::Outgoing.merge(ConnectionDirection::Outgoing), ConnectionDirection::Outgoing);
    assert_eq!(ConnectionDirection::Backlink.merge(ConnectionDirection::Outgoing), ConnectionDirection::Both);
    assert_eq!(ConnectionDirection::Outgoing.merge(ConnectionDirection::Backlink), ConnectionDirection::Both);
    assert_eq!(ConnectionDirection::Both.merge(ConnectionDirection::Outgoing), ConnectionDirection::Both);
    assert_eq!(ConnectionDirection::Backlink.merge(ConnectionDirection::Both), ConnectionDirection::Both);
}

#[test]
fn arrows_of_directions() {
    assert_eq!(ConnectionDirection::Backlink.arrow(), "←");
    assert_eq!(ConnectionDirection::Outgoing.arrow(), "→");
    assert_eq!(ConnectionDirection::Both.arrow(), "↔");
}

#[test]
fn section_is_last_breadcrumb_part() {
    assert_eq!(
        section_from_breadcrumb("note.md > Intro > Details "),
        Some("Details".to_string())
    );
    assert_eq!(section_from_breadcrumb("Only"), Some("Only".to_string()));
    assert_eq!(section_from_breadcrumb("a > b >c"), Some("b >c".to_string()));
    assert_eq!(section_from_breadcrumb("a >  "), None);
    assert_eq!(section_from_breadcrumb(""), None);
}

#[test]
fn note_section_skips_the_note_itself() {
    assert_eq!(note_section_from_breadcrumb("note.md", "note.md"), None);
    assert_eq!(
        note_section_from_breadcrumb("note.md > Tasks", "note.md"),
        Some("Tasks".to_string())
    );
    assert_eq!(note_section_from_breadcrumb("note.md > ", "note.md"), None);
}

use kajet::format::{
    format_edit_tags_result, format_recent_context, format_tree_too_large, RecentContextEntryView,
    RecentContextView,
};

fn empty_view(days: u32) -> RecentContextView {
    RecentContextView {
        days,
        total_current_entries: 0,
        previous_period_entries: 0,
        tag_count: 0,
        top_tags: vec![],
        new_tags: vec![],
        gap_dates: vec![],
        longest: None,
        shortest: None,
        entries: vec![],
    }
}

#[test]
fn empty_period_shows_no_entries_message() {
    let out = format_recent_context(&empty_view(7));
    assert_eq!(out, "No entries found in the last 7 days.");
}

#[test]
fn includes_sections_for_populated_period() {
    let out = format_recent_context(&RecentContextView {
        days: 7,
        total_current_entries: 5,
        previous_period_entries: 3,
        tag_count: 2,
        top_tags: vec![("reflection".to_string(), 4), ("work".to_string(), 2)],
        new_tags: vec!["meditation".to_string()],
        gap_dates: vec!["2025-01-11".to_string()],
        longest: Some(("Morning Thoughts".to_string(), 10)),
        shortest: Some(("Quick Note".to_string(), 2)),
        entries: vec![RecentContextEntryView {
            title: "Morning Thoughts".to_string(),
            path: "journal/2025-01-15.md".to_string(),
            date: "2025-01-15".to_string(),
            tags: vec!["reflection".to_string()],
            snippet: "A deep reflection...".to_string(),
        }],
    });

    assert!(out.contains("Recent Activity (last 7 days)"));
    assert!(out.contains("5 entries | 2 unique tags"));
    assert!(out.contains("Days without entries: 2025-01-11"));
    assert!(out.contains("Morning Thoughts"));
    assert!(out.contains("#reflection"));
    assert!(out.contains("Top Tags"));
    assert!(out.contains("New Tags"));
    assert!(out.contains("#meditation"));
}

#[test]
fn no_gaps_and_no_new_tags_have_fallback_messages() {
    let out = format_recent_context(&RecentContextView {
        days: 1,
        total_current_entries: 1,
        previous_period_entries: 0,
        tag_count: 0,
        top_tags: vec![],
        new_tags: vec![],
        gap_dates: vec![],
        longest: Some(("A".to_string(), 1)),
        shortest: Some(("A".to_string(), 1)),
        entries: vec![RecentContextEntryView {
            title: "A".to_string(),
            path: "a.md".to_string(),
            date: "2025-01-15".to_string(),
            tags: vec![],
            snippet: "text".to_string(),
        }],
    });

    assert!(out.contains("No gaps"));
    assert!(out.contains("No new tags"));
}

#[test]
fn recent_context_report_in_full() {
    let out = format_recent_context(&RecentContextView {
        days: 2,
        total_current_entries: 2,
        previous_period_entries: 1,
        tag_count: 1,
        top_tags: vec![("work".to_string(), 2)],
        new_tags: vec!["a".to_string(), "b".to_string()],
        gap_dates: vec![],
        longest: None,
        shortest: Some(("S".to_string(), 3)),
        entries: vec![RecentContextEntryView {
            title: "T".to_string(),
            path: "t.md".to_string(),
            date: "2025-01-15".to_string(),
            tags: vec!["work".to_string(), "x".to_string()],
            snippet: "snip".to_string(),
        }],
    });
    assert_eq!(
        out,
        "## Recent Activity (last 2 days)\n2 entries | 1 unique tags\n\n\
         Frequency: 2 entries in the last 2 days, 1 in the period before\n\n\
         No gaps: at least one entry every day\n\n\
         ### Entries\n\n\
         - T (2025-01-15, t.md) #work #x\n  snip\n\n\
         ### Top Tags\n- #work (2)\n\n\
         ### New Tags\n- #a\n- #b"
    );
}

#[test]
fn format_tree_too_large_output() {
    let result = format_tree_too_large(8000, 5000, 5, false);
    assert!(result.contains("8000"));
    assert!(result.contains("5000"));
}

#[test]
fn tree_too_large_suggests_folders_only_when_files_shown() {
    assert_eq!(
        format_tree_too_large(8000, 5000, 5, false),
        "The tree is too large: 8000 characters (limit 5000).\n\
         Give a path to show one folder.\nOr lower the depth (now 5)."
    );
    assert!(format_tree_too_large(8000, 5000, 5, true).ends_with("\nOr show folders only."));
}

#[test]
fn edit_tags_result_lists_changes() {
    let added = Some(vec!["a".to_string(), "b".to_string()]);
    let removed = Some(vec![]);
    assert_eq!(
        format_edit_tags_result("n.md", &added, &removed),
        "Tags updated: n.md\n  Added: a, b"
    );
    assert_eq!(
        format_edit_tags_result("n.md", &None, &Some(vec!["c".to_string()])),
        "Tags updated: n.md\n  Removed: c"
    );
    assert_eq!(format_edit_tags_result("n.md", &None, &None), "Tags updated: n.md");
}

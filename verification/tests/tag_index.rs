use kajet::inputs::{ListTagsInput, TagListDetail};
use kajet::tag_index::{
    aggregate_tags, filter_browse_results, list_tags, path_in_folder, TaggedNote,
};

fn doc(path: &str, tags: &[&str]) -> TaggedNote {
    TaggedNote {
        path: path.to_string(),
        tags: tags.iter().map(|t| t.to_string()).collect(),
    }
}

fn aggregate_basic() {
    let docs = vec![doc("a.md", &["rust", "mcp"]), doc("b.md", &["rust"])];

    let result = aggregate_tags(&docs, None, true);

    assert_eq!(result.len(), 2);
    assert_eq!(result[0].tag, "rust");
    assert_eq!(result[0].files.len(), 2);
    assert_eq!(result[1].tag, "mcp");
    assert_eq!(result[1].files.len(), 1);
}

fn aggregate_sorted_by_count_then_name() {
    let docs = vec![
        doc("a.md", &["beta", "alpha"]),
        doc("b.md", &["beta", "gamma"]),
        doc("c.md", &["alpha", "gamma"]),
    ];

    let result = aggregate_tags(&docs, None, true);

    // alpha=2, beta=2, gamma=2 → sorted alphabetically
    assert_eq!(result[0].tag, "alpha");
    assert_eq!(result[1].tag, "beta");
    assert_eq!(result[2].tag, "gamma");
}

fn aggregate_folder_filter() {
    let docs = vec![doc("journal/a.md", &["daily"]), doc("projects/b.md", &["work"])];

    let result = aggregate_tags(&docs, Some("journal"), true);

    assert_eq!(result.len(), 1);
    assert_eq!(result[0].tag, "daily");
}

fn aggregate_non_recursive() {
    let docs = vec![doc("journal/a.md", &["daily"]), doc("journal/2025/b.md", &["nested"])];

    let result = aggregate_tags(&docs, Some("journal"), false);

    assert_eq!(result.len(), 1);
    assert_eq!(result[0].tag, "daily");
}

fn aggregate_docs_without_tags_ignored() {
    let docs = vec![doc("a.md", &[]), doc("b.md", &["rust"])];

    let result = aggregate_tags(&docs, None, true);

    assert_eq!(result.len(), 1);
    assert_eq!(result[0].tag, "rust");
}

fn aggregate_no_folder_includes_all() {
    let docs = vec![doc("a.md", &["x"]), doc("sub/b.md", &["y"])];

    let result = aggregate_tags(&docs, None, true);

    assert_eq!(result.len(), 2);
}

fn browse_by_tags() {
    let mut docs = vec![doc("a.md", &["rust"]), doc("b.md", &["python"])];
    let tags = vec!["rust".to_string()];

    filter_browse_results(&mut docs, Some(&tags), 10);

    assert_eq!(docs.len(), 1);
    assert_eq!(docs[0].path, "a.md");
}

fn browse_limit_applied_after_tags() {
    let mut docs = vec![doc("a.md", &["rust"]), doc("b.md", &["rust"]), doc("c.md", &["rust"])];
    let tags = vec!["rust".to_string()];

    filter_browse_results(&mut docs, Some(&tags), 2);

    assert_eq!(docs.len(), 2);
}

fn browse_no_tags_just_limit() {
    let mut docs = vec![doc("a.md", &[]), doc("b.md", &[])];

    filter_browse_results(&mut docs, None, 1);

    assert_eq!(docs.len(), 1);
}

#[test]
fn filters_aggregate_tags_basic() {
    aggregate_basic();
}

#[test]
fn tests_aggregate_tags_basic() {
    aggregate_basic();
}

#[test]
fn filters_aggregate_tags_sorted_by_count_then_name() {
    aggregate_sorted_by_count_then_name();
}

#[test]
fn tests_aggregate_tags_sorted_by_count_then_name() {
    aggregate_sorted_by_count_then_name();
}

#[test]
fn filters_aggregate_tags_folder_filter() {
    aggregate_folder_filter();
}

#[test]
fn tests_aggregate_tags_folder_filter() {
    aggregate_folder_filter();
}

#[test]
fn filters_aggregate_tags_non_recursive() {
    aggregate_non_recursive();
}

#[test]
fn tests_aggregate_tags_non_recursive() {
    aggregate_non_recursive();
}

#[test]
fn filters_aggregate_tags_docs_without_tags_ignored() {
    aggregate_docs_without_tags_ignored();
}

#[test]
fn tests_aggregate_tags_docs_without_tags_ignored() {
    aggregate_docs_without_tags_ignored();
}

#[test]
fn filters_aggregate_tags_no_folder_includes_all() {
    aggregate_no_folder_includes_all();
}

#[test]
fn tests_aggregate_tags_no_folder_includes_all() {
    aggregate_no_folder_includes_all();
}

#[test]
fn filters_browse_filter_by_tags() {
    browse_by_tags();
}

#[test]
fn tests_browse_filter_by_tags() {
    browse_by_tags();
}

#[test]
fn filters_browse_filter_limit_applied_after_tags() {
    browse_limit_applied_after_tags();
}

#[test]
fn tests_browse_filter_limit_applied_after_tags() {
    browse_limit_applied_after_tags();
}

#[test]
fn filters_browse_filter_no_tags_just_limit() {
    browse_no_tags_just_limit();
}

#[test]
fn tests_browse_filter_no_tags_just_limit() {
    browse_no_tags_just_limit();
}

#[test]
fn aggregate_lists_each_use_of_a_tag() {
    let docs = vec![
        doc("a.md", &["rust", "rust", "web"]),
        doc("b.md", &["web"]),
        doc("c.md", &["Rust"]),
    ];
    let result = aggregate_tags(&docs, None, true);
    let got: Vec<(String, Vec<String>)> =
        result.iter().map(|s| (s.tag.clone(), s.files.clone())).collect();
    assert_eq!(
        got,
        vec![
            ("rust".to_string(), vec!["a.md".to_string(), "a.md".to_string()]),
            ("web".to_string(), vec!["a.md".to_string(), "b.md".to_string()]),
            ("Rust".to_string(), vec!["c.md".to_string()]),
        ]
    );
}

#[test]
fn aggregate_of_no_notes_is_empty() {
    let docs: Vec<TaggedNote> = vec![];
    assert!(aggregate_tags(&docs, None, true).is_empty());
    let docs = vec![doc("a.md", &["x"])];
    assert!(aggregate_tags(&docs, Some("journal"), true).is_empty());
}

#[test]
fn browse_compares_tags_without_case_or_hash() {
    let mut docs = vec![doc("a.md", &["#Rust"]), doc("b.md", &["go"]), doc("c.md", &["rust", "web"])];
    let tags = vec!["rust".to_string()];
    filter_browse_results(&mut docs, Some(&tags), 10);
    let paths: Vec<&str> = docs.iter().map(|d| d.path.as_str()).collect();
    assert_eq!(paths, vec!["a.md", "c.md"]);
}

#[test]
fn browse_with_a_limit_of_zero_keeps_nothing() {
    let mut docs = vec![doc("a.md", &[])];
    filter_browse_results(&mut docs, None, 0);
    assert!(docs.is_empty());
}

#[test]
fn listing_tags_counts_and_formats_them() {
    let docs = vec![
        doc("journal/a.md", &["daily", "rust"]),
        doc("journal/b.md", &["daily"]),
        doc("projects/c.md", &["rust"]),
    ];
    let input = ListTagsInput {
        folder: Some("journal".to_string()),
        detail: TagListDetail::Counts,
        recursive: true,
    };
    let (count, text) = list_tags(&docs, &input);
    assert_eq!(count, 2);
    assert_eq!(text, "Tags in 'journal' (2 unique):\n#daily: 2 notes\n#rust: 1 notes");

    let input = ListTagsInput { folder: None, detail: TagListDetail::Names, recursive: true };
    let (count, text) = list_tags(&docs, &input);
    assert_eq!(count, 2);
    assert_eq!(text, "Tags (2 unique):\n#daily, #rust");

    let (count, text) = list_tags(&vec![], &input);
    assert_eq!(count, 0);
    assert_eq!(text, "No tags found");
}

#[test]
fn folder_rule_reads_the_prefix_and_the_depth() {
    assert!(path_in_folder("journal/a.md", Some("journal"), false));
    assert!(path_in_folder("journal/a.md", Some("journal/"), false));
    assert!(!path_in_folder("journal/2025/a.md", Some("journal"), false));
    assert!(path_in_folder("journal/2025/a.md", Some("journal"), true));
    assert!(!path_in_folder("journals/a.md", Some("journal"), true));
    assert!(!path_in_folder("journal", Some("journal"), true));
    assert!(path_in_folder("anything.md", None, false));
}

#[test]
fn aggregate_with_trailing_slash_matches_without() {
    let docs = vec![doc("journal/a.md", &["daily"]), doc("journal/x/b.md", &["deep"]), doc("c.md", &["top"])];
    let a = aggregate_tags(&docs, Some("journal/"), true);
    let b = aggregate_tags(&docs, Some("journal"), true);
    assert_eq!(a.len(), 2);
    assert_eq!(b.len(), 2);
    assert_eq!(a[0].tag, b[0].tag);
    assert_eq!(a[1].tag, b[1].tag);
}

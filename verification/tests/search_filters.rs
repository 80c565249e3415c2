use kajet::search::{filter_search_results, keep_matching_results};
use kajet::tag_index::TaggedNote;

/// A document as the search filters read it.
struct Doc {
    path: &'static str,
    tags: Vec<String>,
    last_modified: f64,
}

fn make_doc(path: &'static str, tags: &[&str], last_modified: f64) -> Doc {
    Doc { path, tags: tags.iter().map(|t| t.to_string()).collect(), last_modified }
}

/// Runs the filters: the caller compares the modification times with the range, the library
/// does the rest.
fn filter(
    results: &[&str],
    docs: &[Doc],
    folder: Option<&str>,
    from_ts: Option<f64>,
    to_ts: Option<f64>,
    tags: Option<&[String]>,
    limit: usize,
) -> Vec<String> {
    let in_range: Vec<bool> = docs
        .iter()
        .map(|d| from_ts.map_or(true, |f| d.last_modified >= f) && to_ts.map_or(true, |t| d.last_modified <= t))
        .collect();
    let notes: Vec<TaggedNote> =
        docs.iter().map(|d| TaggedNote { path: d.path.to_string(), tags: d.tags.clone() }).collect();
    let paths: Vec<String> = results.iter().map(|p| p.to_string()).collect();
    filter_search_results(&paths, &notes, &in_range, folder, tags, limit)
        .into_iter()
        .map(|i| paths[i].clone())
        .collect()
}

fn by_folder() {
    let docs = vec![make_doc("journal/2025/note.md", &[], 100.0), make_doc("projects/kajet.md", &[], 100.0)];
    let results = filter(&["journal/2025/note.md", "projects/kajet.md"], &docs, Some("journal"), None, None, None, 10);

    assert_eq!(results.len(), 1);
    assert_eq!(results[0], "journal/2025/note.md");
}

fn by_folder_with_trailing_slash() {
    let docs = vec![make_doc("journal/note.md", &[], 100.0)];
    let results = filter(&["journal/note.md"], &docs, Some("journal/"), None, None, None, 10);

    assert_eq!(results.len(), 1);
}

fn by_date_range_from_only() {
    let docs = vec![make_doc("old.md", &[], 50.0), make_doc("new.md", &[], 200.0)];
    let results = filter(&["old.md", "new.md"], &docs, None, Some(100.0), None, None, 10);

    assert_eq!(results.len(), 1);
    assert_eq!(results[0], "new.md");
}

fn by_date_range_to_only() {
    let docs = vec![make_doc("old.md", &[], 50.0), make_doc("new.md", &[], 200.0)];
    let results = filter(&["old.md", "new.md"], &docs, None, None, Some(100.0), None, 10);

    assert_eq!(results.len(), 1);
    assert_eq!(results[0], "old.md");
}

fn by_date_range_both() {
    let docs = vec![
        make_doc("old.md", &[], 50.0),
        make_doc("mid.md", &[], 150.0),
        make_doc("new.md", &[], 300.0),
    ];
    let results = filter(&["old.md", "mid.md", "new.md"], &docs, None, Some(100.0), Some(200.0), None, 10);

    assert_eq!(results.len(), 1);
    assert_eq!(results[0], "mid.md");
}

fn by_tags() {
    let docs = vec![
        make_doc("tagged.md", &["rust", "mcp"], 100.0),
        make_doc("untagged.md", &["python"], 100.0),
    ];
    let tags = vec!["rust".to_string()];
    let results = filter(&["tagged.md", "untagged.md"], &docs, None, None, None, Some(&tags), 10);

    assert_eq!(results.len(), 1);
    assert_eq!(results[0], "tagged.md");
}

fn removes_results_not_in_doc_map() {
    let docs = vec![make_doc("known.md", &[], 100.0)];
    let results = filter(&["known.md", "unknown.md"], &docs, None, None, None, None, 10);

    assert_eq!(results.len(), 1);
    assert_eq!(results[0], "known.md");
}

fn applies_limit_after_filtering() {
    let docs = vec![
        make_doc("a.md", &[], 100.0),
        make_doc("b.md", &[], 100.0),
        make_doc("c.md", &[], 100.0),
    ];
    let results = filter(&["a.md", "b.md", "c.md"], &docs, None, None, None, None, 2);

    assert_eq!(results.len(), 2);
}

fn combined_folder_tags_date() {
    let docs = vec![
        make_doc("journal/a.md", &["daily"], 100.0),
        make_doc("journal/b.md", &["weekly"], 200.0),
        make_doc("projects/c.md", &["daily"], 100.0),
    ];
    let tags = vec!["daily".to_string()];
    let results = filter(
        &["journal/a.md", "journal/b.md", "projects/c.md"],
        &docs,
        Some("journal"),
        Some(50.0),
        Some(150.0),
        Some(&tags),
        10,
    );

    assert_eq!(results.len(), 1);
    assert_eq!(results[0], "journal/a.md");
}

#[test]
fn filters_filter_by_folder() {
    by_folder();
}

#[test]
fn tests_filter_by_folder() {
    by_folder();
}

#[test]
fn filters_filter_by_folder_with_trailing_slash() {
    by_folder_with_trailing_slash();
}

#[test]
fn tests_filter_by_folder_with_trailing_slash() {
    by_folder_with_trailing_slash();
}

#[test]
fn filters_filter_by_date_range_from_only() {
    by_date_range_from_only();
}

#[test]
fn tests_filter_by_date_range_from_only() {
    by_date_range_from_only();
}

#[test]
fn filters_filter_by_date_range_to_only() {
    by_date_range_to_only();
}

#[test]
fn tests_filter_by_date_range_to_only() {
    by_date_range_to_only();
}

#[test]
fn filters_filter_by_date_range_both() {
    by_date_range_both();
}

#[test]
fn tests_filter_by_date_range_both() {
    by_date_range_both();
}

#[test]
fn filters_filter_by_tags() {
    by_tags();
}

#[test]
fn tests_filter_by_tags() {
    by_tags();
}

#[test]
fn filters_filter_removes_results_not_in_doc_map() {
    removes_results_not_in_doc_map();
}

#[test]
fn tests_filter_removes_results_not_in_doc_map() {
    removes_results_not_in_doc_map();
}

#[test]
fn filters_filter_applies_limit_after_filtering() {
    applies_limit_after_filtering();
}

#[test]
fn tests_filter_applies_limit_after_filtering() {
    applies_limit_after_filtering();
}

#[test]
fn filters_filter_combined_folder_tags_date() {
    combined_folder_tags_date();
}

#[test]
fn tests_filter_combined_folder_tags_date() {
    combined_folder_tags_date();
}

#[test]
fn a_later_document_with_the_same_path_decides() {
    let paths = vec!["a.md".to_string(), "b.md".to_string(), "a.md".to_string()];
    let docs = vec!["a.md".to_string(), "b.md".to_string(), "a.md".to_string()];
    assert_eq!(keep_matching_results(&paths, &docs, &vec![true, true, false], 10), vec![1]);
    assert_eq!(keep_matching_results(&paths, &docs, &vec![false, true, true], 10), vec![0, 1, 2]);
    assert!(keep_matching_results(&paths, &docs, &vec![true, true, true], 0).is_empty());
}

#[test]
fn folder_filter_does_not_match_a_longer_folder_name() {
    let docs = vec![make_doc("journal/a.md", &[], 1.0), make_doc("journals/b.md", &[], 1.0)];
    let results = filter(&["journal/a.md", "journals/b.md"], &docs, Some("journal"), None, None, None, 10);
    assert_eq!(results, vec!["journal/a.md".to_string()]);
}

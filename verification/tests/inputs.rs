use kajet::inputs::{
    normalize_find_similar_path, parse_link_exclusion, parse_similar_aggregation, parse_similar_sort, prepare_create_note_input, prepare_edit_tags_input,
    prepare_examine_input, prepare_list_tags_input, CreateNoteRequest, EditTagsRequest,
    ExamineContentMode, ExamineInputError, ExamineRequest, ExploreFilterMode, ListTagsRequest,
    SearchMode, SimilarAggregation, SimilarLinkExclusion, SimilarSort, TagListDetail,
    TagsInputError,
};

#[test]
fn defaults_to_summary_mode_and_default_slice_params() {
    let input = prepare_examine_input(ExamineRequest {
        paths: vec!["a.md".to_string()],
        content: None,
        offset: None,
        length: None,
    })
    .expect("valid request");

    assert_eq!(input.content_mode, ExamineContentMode::Summary);
    assert_eq!(input.offset, 0);
    assert_eq!(input.length, 500);
}

#[test]
fn parses_full_and_slice_modes() {
    let full = prepare_examine_input(ExamineRequest {
        paths: vec!["a.md".to_string()],
        content: Some("full".to_string()),
        offset: None,
        length: None,
    })
    .expect("valid request");
    let slice = prepare_examine_input(ExamineRequest {
        paths: vec!["a.md".to_string()],
        content: Some("slice".to_string()),
        offset: Some(7),
        length: Some(22),
    })
    .expect("valid request");

    assert_eq!(full.content_mode, ExamineContentMode::Full);
    assert_eq!(slice.content_mode, ExamineContentMode::Slice);
    assert_eq!(slice.offset, 7);
    assert_eq!(slice.length, 22);
}

#[test]
fn unknown_mode_falls_back_to_summary_for_forward_compatibility() {
    let input = prepare_examine_input(ExamineRequest {
        paths: vec!["a.md".to_string()],
        content: Some("custom".to_string()),
        offset: None,
        length: None,
    })
    .expect("valid request");

    assert_eq!(input.content_mode, ExamineContentMode::Summary);
}

#[test]
fn empty_paths_are_rejected() {
    let err = prepare_examine_input(ExamineRequest {
        paths: vec![],
        content: None,
        offset: None,
        length: None,
    })
    .unwrap_err();

    assert!(err.message().contains("At least one path"));
}

#[test]
fn blank_paths_are_rejected_and_others_trimmed() {
    let err = prepare_examine_input(ExamineRequest {
        paths: vec!["a.md".to_string(), "   ".to_string()],
        content: None,
        offset: None,
        length: None,
    })
    .unwrap_err();
    assert_eq!(err, ExamineInputError::BlankPath);
    assert_eq!(err.message(), "Paths cannot contain empty values in 'paths'");

    let ok = prepare_examine_input(ExamineRequest {
        paths: vec!["  a.md ".to_string(), "dir/b.md".to_string()],
        content: None,
        offset: None,
        length: None,
    })
    .expect("valid request");
    assert_eq!(ok.paths, vec!["a.md".to_string(), "dir/b.md".to_string()]);
}

#[test]
fn create_input_defaults_tags_and_aliases() {
    let input = prepare_create_note_input(CreateNoteRequest {
        target: "a.md".to_string(),
        content: "x".to_string(),
        tags: None,
        aliases: None,
    });
    assert!(input.tags.is_empty());
    assert!(input.aliases.is_empty());
}

#[test]
fn create_input_keeps_given_tags_and_aliases() {
    let input = prepare_create_note_input(CreateNoteRequest {
        target: "a.md".to_string(),
        content: "x".to_string(),
        tags: Some(vec!["t".to_string()]),
        aliases: Some(vec!["A".to_string(), "B".to_string()]),
    });
    assert_eq!(input.target, "a.md");
    assert_eq!(input.content, "x");
    assert_eq!(input.tags, vec!["t".to_string()]);
    assert_eq!(input.aliases, vec!["A".to_string(), "B".to_string()]);
}

#[test]
fn list_tags_defaults() {
    let input = prepare_list_tags_input(ListTagsRequest {
        folder: None,
        recursive: None,
        detail: None,
    });
    assert_eq!(input.detail, TagListDetail::Counts);
    assert!(input.recursive);
}

#[test]
fn list_tags_parses_all_detail_modes() {
    let names = prepare_list_tags_input(ListTagsRequest {
        folder: None,
        recursive: None,
        detail: Some("names".to_string()),
    });
    let full = prepare_list_tags_input(ListTagsRequest {
        folder: None,
        recursive: None,
        detail: Some("full".to_string()),
    });
    let unknown = prepare_list_tags_input(ListTagsRequest {
        folder: None,
        recursive: None,
        detail: Some("something-new".to_string()),
    });

    assert_eq!(names.detail, TagListDetail::Names);
    assert_eq!(full.detail, TagListDetail::Full);
    assert_eq!(unknown.detail, TagListDetail::Counts);
}

#[test]
fn list_tags_keeps_folder_and_recursive_flag() {
    let input = prepare_list_tags_input(ListTagsRequest {
        folder: Some("journal".to_string()),
        recursive: Some(false),
        detail: Some("counts".to_string()),
    });
    assert_eq!(input.folder, Some("journal".to_string()));
    assert!(!input.recursive);
    assert_eq!(input.detail.as_str(), "counts");
}

#[test]
fn edit_tags_requires_add_or_remove() {
    let result = prepare_edit_tags_input(EditTagsRequest {
        path: "a.md".to_string(),
        add: None,
        remove: None,
    });
    assert!(matches!(result, Err(TagsInputError::EmptyEditOperations)));
}

#[test]
fn edit_tags_with_empty_lists_is_rejected_and_with_items_accepted() {
    let empty = prepare_edit_tags_input(EditTagsRequest {
        path: "a.md".to_string(),
        add: Some(vec![]),
        remove: Some(vec![]),
    });
    assert!(matches!(empty, Err(TagsInputError::EmptyEditOperations)));

    let ok = prepare_edit_tags_input(EditTagsRequest {
        path: "a.md".to_string(),
        add: None,
        remove: Some(vec!["old".to_string()]),
    })
    .expect("valid request");
    assert_eq!(ok.path, "a.md");
    assert_eq!(ok.add, None);
    assert_eq!(ok.remove, Some(vec!["old".to_string()]));
}

#[test]
fn mode_names() {
    assert_eq!(TagListDetail::Names.as_str(), "names");
    assert_eq!(TagListDetail::Full.as_str(), "full");
    assert_eq!(SearchMode::Hybrid.as_str(), "hybrid");
    assert_eq!(SearchMode::Vector.as_str(), "vector");
    assert_eq!(SearchMode::Fts.as_str(), "fts");
    assert_eq!(SimilarAggregation::Max.as_str(), "max");
    assert_eq!(SimilarAggregation::Avg.as_str(), "avg");
    assert_eq!(SimilarSort::Similarity.as_str(), "similarity");
    assert_eq!(SimilarSort::Recent.as_str(), "recent");
    assert_eq!(SimilarSort::Path.as_str(), "path");
    assert_eq!(SimilarLinkExclusion::NoneExcluded.as_str(), "none");
    assert_eq!(SimilarLinkExclusion::Outgoing.as_str(), "outgoing");
    assert_eq!(SimilarLinkExclusion::Both.as_str(), "both");
}

#[test]
fn explore_filter_mode_uses_request_then_default() {
    assert_eq!(
        ExploreFilterMode::from_request(None, "display"),
        ExploreFilterMode::Display
    );
    assert_eq!(
        ExploreFilterMode::from_request(None, "traverse"),
        ExploreFilterMode::Traverse
    );
    assert_eq!(
        ExploreFilterMode::from_request(Some("traverse"), "display"),
        ExploreFilterMode::Traverse
    );
    assert_eq!(
        ExploreFilterMode::from_request(Some("other"), "traverse"),
        ExploreFilterMode::Display
    );
    assert_eq!(ExploreFilterMode::Traverse.as_str(), "traverse");
    assert_eq!(ExploreFilterMode::Display.as_str(), "display");
}

#[test]
fn similar_path_accepts_wikilinks() {
    assert_eq!(normalize_find_similar_path("  note.md "), "note.md");
    assert_eq!(normalize_find_similar_path("[[Some Note]]"), "Some Note");
    assert_eq!(normalize_find_similar_path(" [[ Some Note | alias ]] "), "Some Note");
    assert_eq!(normalize_find_similar_path("[[]]"), "");
    assert_eq!(normalize_find_similar_path("[[x]"), "[[x]");
}

#[test]
fn similar_path_takes_a_wikilink_target() {
    assert_eq!(
        normalize_find_similar_path("[[folder/note|Alias]]"),
        "folder/note"
    );
}

#[test]
fn link_exclusion_reads_both() {
    assert_eq!(
        parse_link_exclusion(Some("both"), "none").unwrap(),
        SimilarLinkExclusion::Both
    );
}

#[test]
fn similar_modes_use_defaults_and_refuse_unknown_text() {
    assert_eq!(parse_similar_aggregation(None, "max").unwrap(), SimilarAggregation::Max);
    assert_eq!(parse_similar_aggregation(Some("avg"), "max").unwrap(), SimilarAggregation::Avg);
    assert_eq!(parse_similar_aggregation(Some("mean"), "max").unwrap_err(), "mean");
    assert_eq!(parse_similar_sort(None).unwrap(), SimilarSort::Similarity);
    assert_eq!(parse_similar_sort(Some("recent")).unwrap(), SimilarSort::Recent);
    assert_eq!(parse_similar_sort(Some("path")).unwrap(), SimilarSort::Path);
    assert_eq!(parse_similar_sort(Some("size")).unwrap_err(), "size");
    assert_eq!(parse_link_exclusion(None, "outgoing").unwrap(), SimilarLinkExclusion::Outgoing);
    assert_eq!(parse_link_exclusion(Some("none"), "both").unwrap(), SimilarLinkExclusion::NoneExcluded);
    assert_eq!(parse_link_exclusion(None, "all").unwrap_err(), "all");
}

use kajet::explore::ConnectionDirection;
use kajet::sections::{find_section_by_heading, parse_sections};
use kajet::tag_edit::{add_tags, remove_tags};
use kajet::tree::{
    count_notes_recursive, sort_subfolders, truncate_tree, ShowMode, VaultFolder, VaultTreeOptions,
};
use kajet::tree_build::vault_tree_from_entries;
use kajet::vault::WalkEntry;
use kajet::{
    append_content, generate_frontmatter, overwrite_body, prepend_content, strip_frontmatter,
    update_existing_frontmatter_field, update_frontmatter_field,
};

#[test]
fn overwrite_and_prepend_keep_the_frontmatter() {
    let note = "---\ntitle: T\ntags: [a]\n---\nold body\n";
    let (fm, _) = strip_frontmatter(note);
    let overwritten = overwrite_body(note, "new body");
    assert_eq!(strip_frontmatter(&overwritten).0, fm);
    let prepended = prepend_content(note, "first", None).unwrap();
    assert_eq!(strip_frontmatter(&prepended).0, fm);
}

#[test]
fn append_keeps_the_old_content_in_front() {
    let note = "line one\nline two";
    let out = append_content(note, "added", None).unwrap();
    assert!(out.starts_with(note));
    assert_eq!(out, "line one\nline two\nadded\n");
}

#[test]
fn heading_lookup_with_or_without_markers() {
    let md = "# Top\n\n## Tasks\n\n- a\n";
    let sections = parse_sections(md);
    let plain = find_section_by_heading(&sections, "Tasks").unwrap();
    let marked = find_section_by_heading(&sections, "## Tasks").unwrap();
    assert_eq!(plain.heading_text, marked.heading_text);
    assert_eq!(plain.body_range, marked.body_range);
}

#[test]
fn merging_present_default_tags_adds_nothing() {
    let with_defaults = generate_frontmatter(
        "N",
        &["a".into(), "b".into()],
        &["b".into(), "a".into()],
        &[],
        None,
        "created",
        "modified",
    );
    assert!(with_defaults.contains("tags: [a, b]"));
}

#[test]
fn update_without_frontmatter_creates_or_keeps() {
    let body = "Just text";
    assert_eq!(
        update_frontmatter_field(body, "modified", "now"),
        "---\nmodified: now\n---\nJust text"
    );
    assert_eq!(update_existing_frontmatter_field(body, "modified", "now"), body);
}

#[test]
fn tag_removal_of_absent_tags_and_add_after_remove() {
    let note = "---\ntags: [a, b]\n---\nx";
    let removed = remove_tags(note, &["zz".into()]).unwrap();
    assert!(removed.contains("- a") && removed.contains("- b"));
    let again = add_tags(&remove_tags(note, &["a".into()]).unwrap(), &["a".into()]).unwrap();
    assert!(again.contains("- a"));
}

fn folder(name: &str, notes: usize, files: &[&str], subs: Vec<VaultFolder>) -> VaultFolder {
    VaultFolder {
        name: name.to_string(),
        rel_path: name.to_string(),
        note_count: notes,
        subfolders: subs,
        files: files.iter().map(|f| f.to_string()).collect(),
        total_notes_in_vault: None,
    }
}

fn entries(f: &VaultFolder) -> usize {
    f.files.len() + f.subfolders.iter().map(|s| 1 + entries(s)).sum::<usize>()
}

#[test]
fn truncated_tree_fits_its_budget() {
    for max in 0..8 {
        let mut t = folder(
            "r",
            1,
            &["r1", "r2"],
            vec![
                folder("a", 1, &["a1", "a2", "a3"], vec![folder("aa", 0, &["x"], vec![])]),
                folder("b", 0, &[], vec![]),
            ],
        );
        let counted = truncate_tree(&mut t, max);
        assert!(entries(&t) <= max);
        assert_eq!(entries(&t), counted);
        if max >= 2 {
            assert_eq!(t.files.len(), 2);
        }
    }
}

#[test]
fn sorting_keeps_the_note_count() {
    let mut t = folder(
        "r",
        1,
        &[],
        vec![folder("z", 2, &[], vec![]), folder("a", 3, &[], vec![folder("m", 4, &[], vec![])])],
    );
    let before = count_notes_recursive(&t);
    sort_subfolders(&mut t);
    assert_eq!(count_notes_recursive(&t), before);
    assert_eq!(before, 10);
}

#[test]
fn merging_directions_commutes_and_repeats() {
    let all = [
        ConnectionDirection::Backlink,
        ConnectionDirection::Outgoing,
        ConnectionDirection::Both,
    ];
    for a in all {
        assert_eq!(a.merge(a), a);
        for b in all {
            assert_eq!(a.merge(b), b.merge(a));
            assert_eq!(a.merge(b).merge(b), a.merge(b));
        }
    }
}

#[test]
fn vault_tree_subfolders_come_in_name_order() {
    let names = ["zeta", "alpha", "mid", "alpha/z", "alpha/b", "alpha/m"];
    let entries: Vec<WalkEntry> = names
        .iter()
        .map(|n| WalkEntry {
            rel_path: n.to_string(),
            is_dir: true,
        })
        .collect();
    let options = VaultTreeOptions {
        path: None,
        depth: 5,
        size: 100,
        show: ShowMode::Folders,
    };
    let tree = vault_tree_from_entries("/v", &entries, &options).unwrap();
    let top: Vec<&str> = tree.subfolders.iter().map(|f| f.name.as_str()).collect();
    assert_eq!(top, vec!["alpha", "mid", "zeta"]);
    let inner: Vec<&str> = tree.subfolders[0]
        .subfolders
        .iter()
        .map(|f| f.name.as_str())
        .collect();
    assert_eq!(inner, vec!["b", "m", "z"]);
}

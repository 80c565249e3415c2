use kajet::tree::{
    count_notes_recursive, sort_subfolders, truncate_tree, ShowMode, VaultFolder, VaultTreeOptions,
};
use kajet::tree_build::{root_name, vault_tree_from_entries};
use kajet::vault::WalkEntry;

fn dir(p: &str) -> WalkEntry {
    WalkEntry {
        rel_path: p.to_string(),
        is_dir: true,
    }
}

fn file(p: &str) -> WalkEntry {
    WalkEntry {
        rel_path: p.to_string(),
        is_dir: false,
    }
}

fn folder(name: &str, notes: usize, files: &[&str], subs: Vec<VaultFolder>) -> VaultFolder {
    VaultFolder {
        name: name.to_string(),
        rel_path: name.to_string(),
        note_count: notes,
        subfolders: subs,
        files: files.iter().map(|f| f.to_string()).collect(),
        total_notes_in_vault: None,
    }
}

fn opts(path: Option<&str>, depth: usize, size: usize, show: ShowMode) -> VaultTreeOptions {
    VaultTreeOptions {
        path: path.map(|p| p.to_string()),
        depth,
        size,
        show,
    }
}

#[test]
fn vault_tree_basic_structure_from_walk() {
    let entries = vec![
        dir("projects"),
        dir("projects/kajet"),
        dir("journal"),
        file("root.md"),
        file("projects/a.md"),
        file("projects/kajet/b.md"),
        file("journal/c.md"),
    ];
    let tree = vault_tree_from_entries(
        "/tmp/my-vault",
        &entries,
        &opts(None, 10, 100, ShowMode::Folders),
    )
    .unwrap();

    assert_eq!(tree.name, "my-vault");
    assert_eq!(tree.rel_path, "");
    assert_eq!(tree.note_count, 1);
    assert_eq!(tree.subfolders.len(), 2);
    assert!(tree.files.is_empty());
    assert_eq!(tree.subfolders[0].name, "journal");
    assert_eq!(tree.subfolders[1].name, "projects");
    let projects = &tree.subfolders[1];
    assert_eq!(projects.note_count, 1);
    assert_eq!(projects.subfolders.len(), 1);
    assert_eq!(projects.subfolders[0].name, "kajet");
    assert_eq!(projects.subfolders[0].rel_path, "projects/kajet");
    assert_eq!(tree.total_notes_in_vault, Some(4));
}

#[test]
fn vault_tree_show_files_lists_sorted_names() {
    let entries = vec![file("b.md"), file("a.md"), dir("x"), file("x/z.md"), file("x/y.md")];
    let tree =
        vault_tree_from_entries("/v", &entries, &opts(None, 10, 100, ShowMode::Files)).unwrap();
    assert_eq!(tree.files, vec!["a.md".to_string(), "b.md".to_string()]);
    assert_eq!(tree.note_count, 2);
    assert_eq!(
        tree.subfolders[0].files,
        vec!["y.md".to_string(), "z.md".to_string()]
    );
}

#[test]
fn vault_tree_depth_limit_from_walk() {
    let entries = vec![dir("a"), dir("a/b"), dir("a/b/c"), file("a/b/c/deep.md")];
    let tree =
        vault_tree_from_entries("/v", &entries, &opts(None, 1, 100, ShowMode::Folders)).unwrap();
    assert_eq!(tree.subfolders.len(), 1);
    assert_eq!(tree.subfolders[0].name, "a");
    assert!(tree.subfolders[0].subfolders.is_empty());
    assert_eq!(tree.total_notes_in_vault, Some(0));
}

#[test]
fn vault_tree_path_names_root_after_subfolder() {
    let entries = vec![dir("2025"), file("2025/jan.md")];
    let tree = vault_tree_from_entries(
        "/v",
        &entries,
        &opts(Some("journal"), 10, 100, ShowMode::Folders),
    )
    .unwrap();
    assert_eq!(tree.name, "journal");
    assert_eq!(tree.rel_path, "journal");
    assert_eq!(tree.subfolders.len(), 1);
    assert_eq!(tree.subfolders[0].rel_path, "journal/2025");
}

#[test]
fn vault_tree_size_limit_from_walk() {
    let mut entries = Vec::new();
    for i in 0..20 {
        let f = format!("folder_{:02}", i);
        entries.push(dir(&f));
        entries.push(file(&format!("{}/note.md", f)));
    }
    let tree =
        vault_tree_from_entries("/v", &entries, &opts(None, 10, 5, ShowMode::Folders)).unwrap();
    assert_eq!(tree.subfolders.len(), 5);
    assert_eq!(tree.subfolders[0].name, "folder_00");
    assert_eq!(tree.total_notes_in_vault, Some(20));
}

#[test]
fn vault_tree_drops_folders_whose_parent_is_missing() {
    let entries = vec![dir("a/b"), file("a/b/n.md")];
    let tree =
        vault_tree_from_entries("/v", &entries, &opts(None, 10, 100, ShowMode::Folders)).unwrap();
    assert!(tree.subfolders.is_empty());
}

#[test]
fn root_name_falls_back_to_vault_folder_name() {
    assert_eq!(root_name(&Some("a/b/c".to_string()), "/v"), "c");
    assert_eq!(root_name(&None, "/home/me/notes"), "notes");
    assert_eq!(root_name(&None, "/"), "vault");
}

#[test]
fn count_notes_sums_all_levels() {
    let t = folder(
        "r",
        2,
        &[],
        vec![folder("a", 3, &[], vec![folder("b", 4, &[], vec![])]), folder("c", 0, &[], vec![])],
    );
    assert_eq!(count_notes_recursive(&t), 9);
}

#[test]
fn sort_subfolders_orders_every_level() {
    let mut t = folder(
        "r",
        0,
        &[],
        vec![
            folder("b", 0, &[], vec![folder("z", 0, &[], vec![]), folder("y", 0, &[], vec![])]),
            folder("a", 0, &[], vec![]),
        ],
    );
    sort_subfolders(&mut t);
    assert_eq!(t.subfolders[0].name, "a");
    assert_eq!(t.subfolders[1].name, "b");
    assert_eq!(t.subfolders[1].subfolders[0].name, "y");
    assert_eq!(t.subfolders[1].subfolders[1].name, "z");
}

#[test]
fn truncate_counts_files_and_folders() {
    let mut t = folder(
        "r",
        0,
        &[],
        vec![
            folder("a", 0, &[], vec![]),
            folder("b", 0, &[], vec![]),
            folder("c", 0, &[], vec![]),
        ],
    );
    let used = truncate_tree(&mut t, 2);
    assert_eq!(used, 2);
    assert_eq!(t.subfolders.len(), 2);

    // Each file counts once: three files fit a budget of five.
    let mut f = folder("r", 3, &["x", "y", "z"], vec![]);
    let used = truncate_tree(&mut f, 5);
    assert_eq!(used, 3);
    assert_eq!(f.files, vec!["x".to_string(), "y".to_string(), "z".to_string()]);

    // Files beyond the budget are cut.
    let mut h = folder("r", 3, &["x", "y", "z"], vec![folder("a", 0, &[], vec![])]);
    let used = truncate_tree(&mut h, 2);
    assert_eq!(used, 2);
    assert_eq!(h.files, vec!["x".to_string(), "y".to_string()]);
    assert!(h.subfolders.is_empty());

    let mut g = folder("r", 0, &["x"], vec![folder("a", 0, &["p", "q"], vec![])]);
    let used = truncate_tree(&mut g, 10);
    assert_eq!(used, 4);
    assert_eq!(g.subfolders[0].files.len(), 2);
}

#[test]
fn truncate_keeps_both_files_under_a_budget_of_three() {
    let mut f = VaultFolder {
        name: "f".into(),
        rel_path: "f".into(),
        note_count: 2,
        subfolders: vec![],
        files: vec!["a.md".into(), "b.md".into()],
        total_notes_in_vault: None,
    };
    let used = truncate_tree(&mut f, 3);
    assert_eq!(used, 2);
    assert_eq!(f.files, vec!["a.md".to_string(), "b.md".to_string()]);
}

#[test]
fn truncate_leaves_a_fitting_tree_whole() {
    let make = || folder("r", 1, &["r1"], vec![folder("a", 1, &["a1", "a2"], vec![]), folder("b", 0, &[], vec![])]);
    let mut t = make();
    let used = truncate_tree(&mut t, 6);
    assert_eq!(used, 6);
    assert_eq!(format!("{:?}", t), format!("{:?}", make()));
}

#[test]
fn show_mode_names() {
    assert_eq!(ShowMode::Folders.as_str(), "folders");
    assert_eq!(ShowMode::Files.as_str(), "files");
}

fn within(f: &VaultFolder, levels: usize, show_files: bool) -> bool {
    (show_files || f.files.is_empty())
        && f.files.windows(2).all(|w| w[0] <= w[1])
        && (levels > 0 || f.subfolders.is_empty())
        && f.subfolders.iter().all(|s| s.total_notes_in_vault.is_none() && within(s, levels.saturating_sub(1), show_files))
}

#[test]
fn vault_tree_follows_depth_files_and_size() {
    let entries = vec![
        dir("a"),
        dir("a/b"),
        dir("a/b/c"),
        dir("d"),
        file("top.md"),
        file("a/x.md"),
        file("a/b/y.md"),
        file("a/b/c/z.md"),
    ];
    for depth in 0..4 {
        for size in 0..6 {
            for show in [ShowMode::Folders, ShowMode::Files] {
                let tree = vault_tree_from_entries("/v", &entries, &opts(None, depth, size, show)).unwrap();
                assert!(within(&tree, depth, show == ShowMode::Files));
                assert!(tree.subfolders.len() <= size);
                assert_eq!(tree.total_notes_in_vault, Some([1, 2, 3, 4][depth]));
                assert!(count_notes_recursive(&tree) <= [1, 2, 3, 4][depth]);
            }
        }
    }
}

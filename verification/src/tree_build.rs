//! Building the folder tree of a vault from the entries of a walk.
use vstd::prelude::*;
use crate::text::{chars_of, contains_chars, eq_chars, push_all, slice_of, string_of, views};
use crate::tree::{
    law_truncation_keeps_order, lemma_sort_by_name_sorted, lemma_trees_sorted_index,
    names_sorted, tree_sorted, trees_sorted, checked_entries, checked_notes, count_notes_recursive, entries_of, folder_view, folder_views, insert_by_name, insert_named,
    lemma_folder_views, lemma_folder_views_push, lex_le, lex_le_exec, sort_by_name, total_notes,
    truncate_tree, truncated, tree_within, lex_sorted, lemma_lex_total, lemma_lex_trans, trees_within, law_truncation_stays_within, law_truncation_keeps_fewer_notes, lemma_trees_within_index, FolderView, ShowMode, VaultFolder, VaultTreeOptions,
};
use crate::types::opt_view;
use crate::vault::WalkEntry;

verus! {

broadcast use vstd::string::group_string_axioms;

// ---------------------------------------------------------------------------
// Paths
// ---------------------------------------------------------------------------

/// Number of `/` in a path.
pub open spec fn slash_count(p: Seq<char>) -> nat
    decreases p.len(),
{
    if p.len() == 0 {
        0
    } else {
        slash_count(p.drop_last()) + if p.last() == '/' {
            1nat
        } else {
            0nat
        }
    }
}

/// Index of the last `/` of a path.
pub open spec fn last_slash(p: Seq<char>) -> Option<int>
    decreases p.len(),
{
    if p.len() == 0 {
        None
    } else if p.last() == '/' {
        Some(p.len() - 1)
    } else {
        last_slash(p.drop_last())
    }
}

/// The folder holding a path: what comes before its last `/`, none at the top level.
pub open spec fn parent_path(p: Seq<char>) -> Option<Seq<char>> {
    match last_slash(p) {
        Some(i) => Some(p.take(i)),
        None => None,
    }
}

/// The last segment of a path: what follows its last `/`.
pub open spec fn last_segment(p: Seq<char>) -> Seq<char> {
    match last_slash(p) {
        Some(i) => p.skip(i + 1),
        None => p,
    }
}

proof fn lemma_last_slash(p: Seq<char>)
    ensures
        match last_slash(p) {
            Some(i) => 0 <= i < p.len() && p[i] == '/',
            None => true,
        },
    decreases p.len(),
{
    if p.len() > 0 && p.last() != '/' {
        lemma_last_slash(p.drop_last());
    }
}

pub open spec fn opt_chars(o: Option<Vec<char>>) -> Option<Seq<char>> {
    match o {
        Some(v) => Some(v@),
        None => None,
    }
}

fn last_slash_exec(p: &Vec<char>) -> (r: Option<usize>)
    ensures
        match r {
            Some(i) => last_slash(p@) == Some(i as int) && i < p.len(),
            None => last_slash(p@) is None,
        },
{
    let mut k = p.len();
    assert(p@.take(k as int) =~= p@);
    while k > 0
        invariant
            k <= p.len(),
            last_slash(p@) == last_slash(p@.take(k as int)),
        decreases k,
    {
        assert(p@.take(k as int).last() == p@[k - 1]);
        assert(p@.take(k as int).drop_last() =~= p@.take(k - 1));
        if p[k - 1] == '/' {
            return Some(k - 1);
        }
        k = k - 1;
    }
    None
}

fn slash_count_exec(p: &Vec<char>) -> (r: usize)
    ensures
        r == slash_count(p@),
{
    let mut n: usize = 0;
    let mut i: usize = 0;
    while i < p.len()
        invariant
            i <= p.len(),
            n <= i,
            n == slash_count(p@.take(i as int)),
        decreases p.len() - i,
    {
        assert(p@.take(i + 1).drop_last() =~= p@.take(i as int));
        assert(p@.take(i + 1).last() == p@[i as int]);
        if p[i] == '/' {
            n = n + 1;
        }
        i = i + 1;
    }
    assert(p@.take(i as int) =~= p@);
    n
}

fn parent_path_exec(p: &Vec<char>) -> (r: Option<Vec<char>>)
    ensures
        opt_chars(r) == parent_path(p@),
{
    match last_slash_exec(p) {
        Some(i) => {
            let q = slice_of(p, 0, i);
            assert(q@ =~= p@.take(i as int));
            Some(q)
        },
        None => None,
    }
}

fn last_segment_exec(p: &Vec<char>) -> (r: Vec<char>)
    ensures
        r@ == last_segment(p@),
{
    match last_slash_exec(p) {
        Some(i) => {
            let q = slice_of(p, i + 1, p.len());
            assert(q@ =~= p@.skip(i + 1));
            q
        },
        None => crate::text::copy_chars(p),
    }
}

// ---------------------------------------------------------------------------
// Sorting names
// ---------------------------------------------------------------------------

/// Where `x` goes in `t`: after every leading name that is at most `x`.
pub open spec fn insert_pos_lex(t: Seq<Seq<char>>, x: Seq<char>) -> nat
    decreases t.len(),
{
    if t.len() == 0 {
        0
    } else if lex_le(t[0], x) {
        1 + insert_pos_lex(t.drop_first(), x)
    } else {
        0
    }
}

/// Names in lexicographic order (insertion, stable).
pub open spec fn sort_lex(s: Seq<Seq<char>>) -> Seq<Seq<char>>
    decreases s.len(),
{
    if s.len() == 0 {
        s
    } else {
        let t = sort_lex(s.drop_last());
        t.insert(insert_pos_lex(t, s.last()) as int, s.last())
    }
}

proof fn lemma_insert_pos_lex_props(t: Seq<Seq<char>>, x: Seq<char>)
    ensures
        insert_pos_lex(t, x) <= t.len(),
        forall|i: int| 0 <= i < insert_pos_lex(t, x) ==> lex_le(#[trigger] t[i], x),
        insert_pos_lex(t, x) < t.len() ==> !lex_le(t[insert_pos_lex(t, x) as int], x),
    decreases t.len(),
{
    if t.len() > 0 && lex_le(t[0], x) {
        let d = t.drop_first();
        lemma_insert_pos_lex_props(d, x);
        assert forall|i: int| 0 <= i < insert_pos_lex(t, x) implies lex_le(#[trigger] t[i], x) by {
            if i > 0 {
                assert(t[i] == d[i - 1]);
            }
        }
        if insert_pos_lex(t, x) < t.len() {
            assert(t[insert_pos_lex(t, x) as int] == d[insert_pos_lex(d, x) as int]);
        }
    }
}

/// Sorting names puts them in lexicographic order.
proof fn lemma_sort_lex_sorted(s: Seq<Seq<char>>)
    ensures
        lex_sorted(sort_lex(s)),
    decreases s.len(),
{
    if s.len() > 0 {
        let t = sort_lex(s.drop_last());
        lemma_sort_lex_sorted(s.drop_last());
        let x = s.last();
        lemma_insert_pos_lex_props(t, x);
        let p = insert_pos_lex(t, x) as int;
        let u = t.insert(p, x);
        assert forall|i: int, j: int| 0 <= i < j < u.len() implies lex_le(#[trigger] u[i], #[trigger] u[j]) by {
            if i < p && j < p {
                assert(u[i] == t[i] && u[j] == t[j]);
            } else if i < p && j == p {
                assert(u[i] == t[i]);
            } else if i < p {
                assert(u[i] == t[i] && u[j] == t[j - 1]);
            } else if i == p {
                assert(u[j] == t[j - 1]);
                lemma_lex_total(t[p], x);
                if j - 1 > p {
                    assert(lex_le(t[p], t[j - 1]));
                    lemma_lex_trans(x, t[p], t[j - 1]);
                }
            } else {
                assert(u[i] == t[i - 1] && u[j] == t[j - 1]);
            }
        }
    }
}

/// The names of `v`, sorted.
pub fn sort_names(v: Vec<Vec<char>>) -> (r: Vec<Vec<char>>)
    ensures
        views(r@) == sort_lex(views(v@)),
{
    let ghost s = views(v@);
    let mut out: Vec<Vec<char>> = Vec::new();
    let mut i: usize = 0;
    assert(s.take(0) =~= Seq::<Seq<char>>::empty());
    while i < v.len()
        invariant
            i <= v.len(),
            s == views(v@),
            views(out@) == sort_lex(s.take(i as int)),
        decreases v.len() - i,
    {
        let ghost t = views(out@);
        let x = crate::text::copy_chars(&v[i]);
        let mut k: usize = 0;
        assert(t.skip(0) =~= t);
        while k < out.len() && lex_le_exec(&out[k], &x)
            invariant
                k <= out.len(),
                t == views(out@),
                x@ == s[i as int],
                insert_pos_lex(t, x@) == k + insert_pos_lex(t.skip(k as int), x@),
            decreases out.len() - k,
        {
            assert(t.skip(k as int)[0] == t[k as int]);
            assert(t.skip(k as int).drop_first() =~= t.skip(k + 1));
            k = k + 1;
        }
        proof {
            if k < out.len() {
                assert(t.skip(k as int)[0] == t[k as int]);
            }
            assert(s.take(i + 1).drop_last() =~= s.take(i as int));
            assert(s.take(i + 1).last() == s[i as int]);
        }
        out.insert(k, x);
        assert(views(out@) =~= t.insert(k as int, s[i as int]));
        i = i + 1;
    }
    assert(s.take(i as int) =~= s);
    out
}

// ---------------------------------------------------------------------------
// The tree a walk describes
// ---------------------------------------------------------------------------

/// Directory paths at most `depth` levels deep, each once, in order of first appearance.
pub open spec fn kept_dirs(ds: Seq<Seq<char>>, depth: nat) -> Seq<Seq<char>>
    decreases ds.len(),
{
    if ds.len() == 0 {
        Seq::empty()
    } else {
        let prev = kept_dirs(ds.drop_last(), depth);
        let d = ds.last();
        if slash_count(d) + 1 <= depth && !prev.contains(d) {
            prev.push(d)
        } else {
            prev
        }
    }
}

/// The paths whose folder is `p` (the top level when `p` is none), in order.
pub open spec fn paths_in(paths: Seq<Seq<char>>, p: Option<Seq<char>>) -> Seq<Seq<char>> {
    paths.filter(in_folder(p))
}

/// Whether a path lies in folder `p`.
pub open spec fn in_folder(p: Option<Seq<char>>) -> spec_fn(Seq<char>) -> bool {
    |q: Seq<char>| parent_path(q) == p
}

/// The last segment of each path.
pub open spec fn segments(ps: Seq<Seq<char>>) -> Seq<Seq<char>> {
    ps.map_values(|f: Seq<char>| last_segment(f))
}

/// The relative path of folder `d` below the root at `root_rel`.
pub open spec fn joined_rel(root_rel: Seq<char>, d: Seq<char>) -> Seq<char> {
    if root_rel.len() == 0 {
        d
    } else {
        root_rel + seq!['/'] + d
    }
}

/// What the tree is built from: the kept directories, the note files, and the options.
pub struct TreeSource {
    pub dirs: Seq<Seq<char>>,
    pub files: Seq<Seq<char>>,
    pub root_rel: Seq<char>,
    pub show_files: bool,
    pub depth: nat,
}

/// The folder for directory `d`, `lvl` levels below the root: its notes, its file names
/// (sorted, when files are shown) and its subfolders (sorted by name).
pub open spec fn dir_folder(src: TreeSource, d: Seq<char>, lvl: nat) -> FolderView
    decreases src.depth - lvl, 0nat,
{
    let notes = paths_in(src.files, Some(d));
    FolderView {
        name: last_segment(d),
        rel_path: joined_rel(src.root_rel, d),
        note_count: notes.len(),
        subfolders: if lvl < src.depth {
            sort_by_name(dir_folders(src, paths_in(src.dirs, Some(d)), lvl + 1))
        } else {
            Seq::empty()
        },
        files: if src.show_files {
            sort_lex(segments(notes))
        } else {
            Seq::empty()
        },
        total_notes_in_vault: None,
    }
}

/// The folders for the directories `ks`, `lvl` levels below the root, in order.
pub open spec fn dir_folders(src: TreeSource, ks: Seq<Seq<char>>, lvl: nat) -> Seq<FolderView>
    decreases src.depth - lvl, ks.len() + 1,
{
    if ks.len() == 0 {
        Seq::empty()
    } else {
        seq![dir_folder(src, ks[0], lvl)] + dir_folders(src, ks.drop_first(), lvl)
    }
}

/// The root folder: the notes at the top level and the top-level directories.
pub open spec fn root_folder(src: TreeSource, root_name: Seq<char>) -> FolderView {
    let notes = paths_in(src.files, None);
    FolderView {
        name: root_name,
        rel_path: src.root_rel,
        note_count: notes.len(),
        subfolders: if 0 < src.depth {
            sort_by_name(dir_folders(src, paths_in(src.dirs, None), 1))
        } else {
            Seq::empty()
        },
        files: if src.show_files {
            sort_lex(notes)
        } else {
            Seq::empty()
        },
        total_notes_in_vault: None,
    }
}

/// The paths of `p` that lie in folder `parent`.
fn paths_in_exec(paths: &Vec<Vec<char>>, parent: &Option<Vec<char>>) -> (r: Vec<Vec<char>>)
    ensures
        views(r@) == paths_in(views(paths@), opt_chars(*parent)),
{
    let ghost s = views(paths@);
    let ghost pv = opt_chars(*parent);
    let mut out: Vec<Vec<char>> = Vec::new();
    let mut i: usize = 0;
    assert(s.take(0) =~= Seq::<Seq<char>>::empty());
    while i < paths.len()
        invariant
            i <= paths.len(),
            s == views(paths@),
            pv == opt_chars(*parent),
            views(out@) == paths_in(s.take(i as int), pv),
        decreases paths.len() - i,
    {
        let pp = parent_path_exec(&paths[i]);
        let same = match (&pp, parent) {
            (Some(a), Some(b)) => eq_chars(a, b),
            (None, None) => true,
            _ => false,
        };
        proof {
            reveal(Seq::filter);
            assert(s.take(i + 1).drop_last() =~= s.take(i as int));
            assert(s.take(i + 1).last() == s[i as int]);
            assert(s[i as int] == paths@[i as int]@);
            assert(same == (parent_path(s[i as int]) == pv));
            assert(in_folder(pv)(s[i as int]) == same);
            assert(paths_in(s.take(i + 1), pv) == (if same {
                paths_in(s.take(i as int), pv).push(s[i as int])
            } else {
                paths_in(s.take(i as int), pv)
            }));
        }
        if same {
            let ghost prev = views(out@);
            let c = crate::text::copy_chars(&paths[i]);
            out.push(c);
            assert(views(out@) =~= prev.push(s[i as int]));
        }
        i = i + 1;
    }
    assert(s.take(i as int) =~= s);
    out
}

/// The last segment of each path.
fn last_segments(paths: &Vec<Vec<char>>) -> (r: Vec<Vec<char>>)
    ensures
        views(r@) == segments(views(paths@)),
{
    let mut out: Vec<Vec<char>> = Vec::new();
    let mut i: usize = 0;
    while i < paths.len()
        invariant
            i <= paths.len(),
            views(out@) == segments(views(paths@).take(i as int)),
        decreases paths.len() - i,
    {
        let ghost prev = views(out@);
        let ghost old_out = out@;
        let seg = last_segment_exec(&paths[i]);
        let ghost sv = seg@;
        out.push(seg);
        assert(views(out@) =~= views(old_out).push(sv));
        assert(views(paths@)[i as int] == paths@[i as int]@);
        assert(views(out@) =~= segments(views(paths@).take(i + 1)));
        i = i + 1;
    }
    assert(views(paths@).take(i as int) =~= views(paths@));
    out
}

proof fn lemma_sort_by_name_step(s: Seq<FolderView>, k: int)
    requires
        0 <= k < s.len(),
    ensures
        sort_by_name(s.take(k + 1)) == insert_named(sort_by_name(s.take(k)), s[k]),
{
    assert(s.take(k + 1).drop_last() =~= s.take(k));
    assert(s.take(k + 1).last() == s[k]);
}

/// The folders sorted by name.
fn sorted_by_name(v: Vec<VaultFolder>) -> (r: Vec<VaultFolder>)
    ensures
        folder_views(r@) == sort_by_name(folder_views(v@)),
{
    let ghost s = folder_views(v@);
    let ghost orig = v@;
    proof {
        lemma_folder_views(v@);
    }
    let mut rest = v;
    let mut out: Vec<VaultFolder> = Vec::new();
    let ghost mut k: int = 0;
    assert(s.take(0) =~= Seq::<FolderView>::empty());
    while rest.len() > 0
        invariant
            0 <= k <= orig.len(),
            rest@ == orig.skip(k),
            s == folder_views(orig),
            s.len() == orig.len(),
            forall|j: int| 0 <= j < orig.len() ==> #[trigger] s[j] == folder_view(orig[j]),
            folder_views(out@) == sort_by_name(s.take(k)),
        decreases rest.len(),
    {
        assert(rest@[0] == orig[k]);
        let f = rest.remove(0);
        proof {
            lemma_sort_by_name_step(s, k);
        }
        insert_by_name(&mut out, f);
        proof {
            assert(rest@ =~= orig.skip(k + 1));
            k = k + 1;
        }
    }
    assert(s.take(k) =~= s);
    out
}

/// Builds the folder for directory `d`, `lvl` levels below the root.
fn build_dir_folder(
    dirs: &Vec<Vec<char>>,
    files: &Vec<Vec<char>>,
    root_rel: &Vec<char>,
    show_files: bool,
    depth: usize,
    d: &Vec<char>,
    lvl: usize,
) -> (r: VaultFolder)
    requires
        lvl <= depth,
    ensures
        r@ == dir_folder(
            TreeSource {
                dirs: views(dirs@),
                files: views(files@),
                root_rel: root_rel@,
                show_files,
                depth: depth as nat,
            },
            d@,
            lvl as nat,
        ),
    decreases depth - lvl, 0nat,
{
    let ghost src = TreeSource {
        dirs: views(dirs@),
        files: views(files@),
        root_rel: root_rel@,
        show_files,
        depth: depth as nat,
    };
    let here = Some(crate::text::copy_chars(d));
    let notes = paths_in_exec(files, &here);
    let note_count = notes.len();
    let subfolders = if lvl < depth {
        let kids = paths_in_exec(dirs, &here);
        let built = build_dir_folders(dirs, files, root_rel, show_files, depth, &kids, lvl + 1);
        sorted_by_name(built)
    } else {
        Vec::new()
    };
    let names = if show_files {
        let segs = last_segments(&notes);
        crate::text::strings_of_all(&sort_names(segs))
    } else {
        Vec::new()
    };
    let seg = last_segment_exec(d);
    let rel = if root_rel.len() == 0 {
        crate::text::copy_chars(d)
    } else {
        let mut r = crate::text::copy_chars(root_rel);
        r.push('/');
        push_all(&mut r, d);
        r
    };
    let ghost rel_spec = joined_rel(root_rel@, d@);
    assert(rel@ =~= rel_spec);
    let f = VaultFolder {
        name: string_of(&seg),
        rel_path: string_of(&rel),
        note_count,
        subfolders,
        files: names,
        total_notes_in_vault: None,
    };
    proof {
        lemma_folder_views(f.subfolders@);
        if !show_files {
            assert(f.files@.map_values(|s: String| s@) =~= Seq::<Seq<char>>::empty());
        } else {
            assert(f.files@.map_values(|s: String| s@) =~= crate::text::str_views(f.files@));
        }
        if lvl >= depth {
            assert(folder_views(f.subfolders@) =~= Seq::<FolderView>::empty());
        }
    }
    assert(f@ =~= dir_folder(src, d@, lvl as nat));
    f
}

/// Builds the folders for the directories `ks`, `lvl` levels below the root, in order.
fn build_dir_folders(
    dirs: &Vec<Vec<char>>,
    files: &Vec<Vec<char>>,
    root_rel: &Vec<char>,
    show_files: bool,
    depth: usize,
    ks: &Vec<Vec<char>>,
    lvl: usize,
) -> (r: Vec<VaultFolder>)
    requires
        lvl <= depth,
    ensures
        folder_views(r@) == dir_folders(
            TreeSource {
                dirs: views(dirs@),
                files: views(files@),
                root_rel: root_rel@,
                show_files,
                depth: depth as nat,
            },
            views(ks@),
            lvl as nat,
        ),
    decreases depth - lvl, ks.len() + 1,
{
    let ghost src = TreeSource {
        dirs: views(dirs@),
        files: views(files@),
        root_rel: root_rel@,
        show_files,
        depth: depth as nat,
    };
    let ghost kv = views(ks@);
    let mut out: Vec<VaultFolder> = Vec::new();
    let mut i: usize = 0;
    assert(kv.skip(0) =~= kv);
    while i < ks.len()
        invariant
            i <= ks.len(),
            lvl <= depth,
            kv == views(ks@),
            src == (TreeSource {
                dirs: views(dirs@),
                files: views(files@),
                root_rel: root_rel@,
                show_files,
                depth: depth as nat,
            }),
            dir_folders(src, kv, lvl as nat) == folder_views(out@) + dir_folders(
                src,
                kv.skip(i as int),
                lvl as nat,
            ),
        decreases ks.len() - i,
    {
        let f = build_dir_folder(dirs, files, root_rel, show_files, depth, &ks[i], lvl);
        proof {
            assert(kv[i as int] == ks@[i as int]@);
            assert(kv.skip(i as int)[0] == kv[i as int]);
            assert(kv.skip(i as int).drop_first() =~= kv.skip(i + 1));
            assert(dir_folders(src, kv.skip(i as int), lvl as nat) == seq![dir_folder(src, kv[i as int], lvl as nat)] + dir_folders(src, kv.skip(i + 1), lvl as nat));
        }
        let ghost prev = folder_views(out@);
        let ghost old_out = out@;
        let ghost fval = f;
        out.push(f);
        proof {
            lemma_folder_views_push(old_out, fval);
            assert(fval@ == dir_folder(src, kv[i as int], lvl as nat));
            assert(folder_views(out@) == prev.push(fval@));
            assert(prev + dir_folders(src, kv.skip(i as int), lvl as nat) =~= prev.push(
                fval@,
            ) + dir_folders(src, kv.skip(i + 1), lvl as nat));
        }
        i = i + 1;
    }
    assert(dir_folders(src, kv.skip(i as int), lvl as nat) =~= Seq::<FolderView>::empty());
    assert(folder_views(out@) + Seq::<FolderView>::empty() =~= folder_views(out@));
    out
}


// ---------------------------------------------------------------------------
// The tree of a walk
// ---------------------------------------------------------------------------

/// The paths of the directory entries (`dirs`) or of the file entries of a walk, in order.
pub open spec fn entry_paths(es: Seq<WalkEntry>, dirs: bool) -> Seq<Seq<char>>
    decreases es.len(),
{
    if es.len() == 0 {
        Seq::empty()
    } else {
        let prev = entry_paths(es.drop_last(), dirs);
        if es.last().is_dir == dirs {
            prev.push(es.last().rel_path@)
        } else {
            prev
        }
    }
}

fn entry_paths_exec(entries: &[WalkEntry], dirs: bool) -> (r: Vec<Vec<char>>)
    ensures
        views(r@) == entry_paths(entries@, dirs),
{
    let mut out: Vec<Vec<char>> = Vec::new();
    let mut i: usize = 0;
    while i < entries.len()
        invariant
            i <= entries.len(),
            views(out@) == entry_paths(entries@.take(i as int), dirs),
        decreases entries.len() - i,
    {
        assert(entries@.take(i + 1).drop_last() =~= entries@.take(i as int));
        assert(entries@.take(i + 1).last() == entries@[i as int]);
        if entries[i].is_dir == dirs {
            let ghost prev = views(out@);
            let p = chars_of(entries[i].rel_path.as_str());
            out.push(p);
            assert(views(out@) =~= prev.push(entries@[i as int].rel_path@));
        }
        i = i + 1;
    }
    assert(entries@.take(i as int) =~= entries@);
    out
}

fn kept_dirs_exec(ds: &Vec<Vec<char>>, depth: usize) -> (r: Vec<Vec<char>>)
    ensures
        views(r@) == kept_dirs(views(ds@), depth as nat),
{
    let ghost s = views(ds@);
    let mut out: Vec<Vec<char>> = Vec::new();
    let mut i: usize = 0;
    while i < ds.len()
        invariant
            i <= ds.len(),
            s == views(ds@),
            views(out@) == kept_dirs(s.take(i as int), depth as nat),
        decreases ds.len() - i,
    {
        assert(s.take(i + 1).drop_last() =~= s.take(i as int));
        assert(s.take(i + 1).last() == s[i as int]);
        assert(s[i as int] == ds@[i as int]@);
        let n = slash_count_exec(&ds[i]);
        if n < depth && !contains_chars(&out, &ds[i]) {
            let ghost prev = views(out@);
            let d = crate::text::copy_chars(&ds[i]);
            out.push(d);
            assert(views(out@) =~= prev.push(s[i as int]));
        }
        i = i + 1;
    }
    assert(s.take(i as int) =~= s);
    out
}

/// What `std::path::Path::new(path).file_name()` gives, as text.
pub uninterp spec fn path_file_name(path: Seq<char>) -> Option<Seq<char>>;

/// Calls `std::path::Path::file_name` on `path`. The contract claims only that the answer
/// depends on `path` alone (named `path_file_name`); the path-splitting rules are not restated.
#[verifier::external_body]
fn file_name(path: &str) -> (r: Option<String>)
    ensures
        opt_view(r) == path_file_name(path@),
{
    std::path::Path::new(path).file_name().and_then(|n| n.to_str()).map(|n| n.to_string())
}

/// The root's name: the last segment of the requested subfolder, else the vault folder's
/// name, else "vault".
pub open spec fn root_name_of(path: Option<Seq<char>>, vault_path: Seq<char>) -> Seq<char> {
    match path {
        Some(p) => last_segment(p),
        None => match path_file_name(vault_path) {
            Some(n) => n,
            None => "vault"@,
        },
    }
}

pub fn root_name(path: &Option<String>, vault_path: &str) -> (r: String)
    ensures
        r@ == root_name_of(opt_view(*path), vault_path@),
{
    match path {
        Some(p) => {
            let cs = chars_of(p.as_str());
            let seg = last_segment_exec(&cs);
            string_of(&seg)
        },
        None => match file_name(vault_path) {
            Some(n) => n,
            None => crate::text::string_of(&chars_of("vault")),
        },
    }
}

/// The source of the tree of a walk under the given options.
pub open spec fn tree_source(entries: Seq<WalkEntry>, options: VaultTreeOptions) -> TreeSource {
    TreeSource {
        dirs: kept_dirs(entry_paths(entries, true), options.depth as nat),
        files: entry_paths(entries, false),
        root_rel: match options.path {
            Some(p) => p@,
            None => Seq::empty(),
        },
        show_files: options.show == ShowMode::Files,
        depth: options.depth as nat,
    }
}

/// The tree shown for a walk: the root folder trimmed to `size` entries, holding the number of
/// notes counted before trimming.
pub open spec fn vault_tree_of(root: FolderView, size: nat) -> FolderView {
    let t = truncated(root, size).0;
    FolderView {
        name: t.name,
        rel_path: t.rel_path,
        note_count: t.note_count,
        subfolders: t.subfolders,
        files: t.files,
        total_notes_in_vault: Some(total_notes(root)),
    }
}

/// Build the tree of the vault at `vault_path` from the entries of its walk.
///
/// Directories deeper than `options.depth` are left out, as are those whose parent directory
/// is not shown. The result is none only when the tree's entries or notes do not fit in `usize`.
pub fn vault_tree_from_entries(
    vault_path: &str,
    entries: &[WalkEntry],
    options: &VaultTreeOptions,
) -> (r: Option<VaultFolder>)
    ensures
        ({
            let root = root_folder(
                tree_source(entries@, *options),
                root_name_of(opt_view(options.path), vault_path@),
            );
            match r {
                Some(t) => t@ == vault_tree_of(root, options.size as nat),
                None => entries_of(root) > usize::MAX || total_notes(root) > usize::MAX,
            }
        }),
{
    let ghost src = tree_source(entries@, *options);
    let name = root_name(&options.path, vault_path);
    let root_rel: Vec<char> = match &options.path {
        Some(p) => chars_of(p.as_str()),
        None => Vec::new(),
    };
    let raw_dirs = entry_paths_exec(entries, true);
    let files = entry_paths_exec(entries, false);
    let dirs = kept_dirs_exec(&raw_dirs, options.depth);
    let show_files = match options.show {
        ShowMode::Files => true,
        ShowMode::Folders => false,
    };
    let top: Option<Vec<char>> = None;
    let root_notes = paths_in_exec(&files, &top);
    let note_count = root_notes.len();
    let subfolders = if 0 < options.depth {
        let kids = paths_in_exec(&dirs, &top);
        let built = build_dir_folders(&dirs, &files, &root_rel, show_files, options.depth, &kids, 1);
        sorted_by_name(built)
    } else {
        Vec::new()
    };
    let names = if show_files {
        crate::text::strings_of_all(&sort_names(root_notes))
    } else {
        Vec::new()
    };
    let mut root = VaultFolder {
        name,
        rel_path: string_of(&root_rel),
        note_count,
        subfolders,
        files: names,
        total_notes_in_vault: None,
    };
    proof {
        lemma_folder_views(root.subfolders@);
        if !show_files {
            assert(root.files@.map_values(|s: String| s@) =~= Seq::<Seq<char>>::empty());
        } else {
            assert(root.files@.map_values(|s: String| s@) =~= crate::text::str_views(root.files@));
        }
        if options.depth == 0 {
            assert(folder_views(root.subfolders@) =~= Seq::<FolderView>::empty());
        }
    }
    let ghost root_view = root_folder(src, root_name_of(opt_view(options.path), vault_path@));
    assert(root@ =~= root_view);
    if checked_entries(&root).is_none() || checked_notes(&root).is_none() {
        return None;
    }
    let total = count_notes_recursive(&root);
    truncate_tree(&mut root, options.size);
    root.total_notes_in_vault = Some(total);
    assert(root@ =~= vault_tree_of(root_view, options.size as nat));
    Some(root)
}


proof fn lemma_dir_folder_sorted(src: TreeSource, d: Seq<char>, lvl: nat)
    requires
        lvl <= src.depth,
    ensures
        tree_sorted(dir_folder(src, d, lvl)),
    decreases src.depth - lvl, 0nat,
{
    let f = dir_folder(src, d, lvl);
    if lvl < src.depth {
        let kids = dir_folders(src, paths_in(src.dirs, Some(d)), lvl + 1);
        lemma_dir_folders_sorted(src, paths_in(src.dirs, Some(d)), lvl + 1);
        lemma_sorted_children(kids);
    } else {
        assert(f.subfolders =~= Seq::<FolderView>::empty());
        lemma_trees_sorted_index(f.subfolders);
    }
}

proof fn lemma_dir_folders_sorted(src: TreeSource, ks: Seq<Seq<char>>, lvl: nat)
    requires
        lvl <= src.depth,
    ensures
        dir_folders(src, ks, lvl).len() == ks.len(),
        forall|i: int|
            0 <= i < ks.len() ==> #[trigger] tree_sorted(dir_folders(src, ks, lvl)[i]),
    decreases src.depth - lvl, ks.len() + 1,
{
    if ks.len() > 0 {
        lemma_dir_folder_sorted(src, ks[0], lvl);
        lemma_dir_folders_sorted(src, ks.drop_first(), lvl);
        let r = dir_folders(src, ks, lvl);
        assert forall|i: int| 0 <= i < ks.len() implies #[trigger] tree_sorted(r[i]) by {
            if i > 0 {
                assert(r[i] == dir_folders(src, ks.drop_first(), lvl)[i - 1]);
            }
        }
    }
}

/// Folders each sorted, put in the order of their names, make sorted subfolders.
proof fn lemma_sorted_children(kids: Seq<FolderView>)
    requires
        forall|i: int| 0 <= i < kids.len() ==> #[trigger] tree_sorted(kids[i]),
    ensures
        names_sorted(sort_by_name(kids)),
        trees_sorted(sort_by_name(kids)),
{
    lemma_sort_by_name_sorted(kids);
    let u = sort_by_name(kids);
    lemma_trees_sorted_index(u);
    assert forall|i: int| 0 <= i < u.len() implies #[trigger] tree_sorted(u[i]) by {
        let k = choose|k: int| 0 <= k < kids.len() && kids[k] == u[i];
        assert(tree_sorted(kids[k]));
    }
}

/// The tree of a walk lists the subfolders of every level in lexicographic order of their
/// names, trimmed or not.
pub proof fn law_vault_tree_is_sorted(
    entries: Seq<WalkEntry>,
    options: VaultTreeOptions,
    vault_path: Seq<char>,
)
    ensures
        tree_sorted(
            vault_tree_of(
                root_folder(
                    tree_source(entries, options),
                    root_name_of(opt_view(options.path), vault_path),
                ),
                options.size as nat,
            ),
        ),
{
    let src = tree_source(entries, options);
    let root = root_folder(src, root_name_of(opt_view(options.path), vault_path));
    if 0 < src.depth {
        lemma_dir_folders_sorted(src, paths_in(src.dirs, None), 1);
        lemma_sorted_children(dir_folders(src, paths_in(src.dirs, None), 1));
    } else {
        assert(root.subfolders =~= Seq::<FolderView>::empty());
        lemma_trees_sorted_index(root.subfolders);
    }
    law_truncation_keeps_order(root, options.size as nat);
    let t = truncated(root, options.size as nat).0;
    assert(vault_tree_of(root, options.size as nat).subfolders == t.subfolders);
}


proof fn lemma_dir_folder_within(src: TreeSource, d: Seq<char>, lvl: nat)
    requires
        lvl <= src.depth,
    ensures
        tree_within(dir_folder(src, d, lvl), (src.depth - lvl) as nat, src.show_files),
        dir_folder(src, d, lvl).total_notes_in_vault is None,
    decreases src.depth - lvl, 0nat,
{
    let f = dir_folder(src, d, lvl);
    lemma_sort_lex_sorted(segments(paths_in(src.files, Some(d))));
    if lvl < src.depth {
        let ks = paths_in(src.dirs, Some(d));
        lemma_dir_folders_within(src, ks, lvl + 1);
        lemma_sorted_within(dir_folders(src, ks, lvl + 1), (src.depth - lvl - 1) as nat, src.show_files);
    } else {
        assert(f.subfolders =~= Seq::<FolderView>::empty());
    }
}

proof fn lemma_dir_folders_within(src: TreeSource, ks: Seq<Seq<char>>, lvl: nat)
    requires
        lvl <= src.depth,
    ensures
        forall|i: int|
            0 <= i < dir_folders(src, ks, lvl).len() ==> (#[trigger] dir_folders(src, ks, lvl)[i]).total_notes_in_vault
                is None && tree_within(
                dir_folders(src, ks, lvl)[i],
                (src.depth - lvl) as nat,
                src.show_files,
            ),
    decreases src.depth - lvl, ks.len() + 1,
{
    if ks.len() > 0 {
        lemma_dir_folder_within(src, ks[0], lvl);
        lemma_dir_folders_within(src, ks.drop_first(), lvl);
        let r = dir_folders(src, ks, lvl);
        assert forall|i: int| 0 <= i < r.len() implies (#[trigger] r[i]).total_notes_in_vault is None
            && tree_within(r[i], (src.depth - lvl) as nat, src.show_files) by {
            if i > 0 {
                assert(r[i] == dir_folders(src, ks.drop_first(), lvl)[i - 1]);
            }
        }
    }
}

/// Folders each within `levels`, put in the order of their names, stay within it.
proof fn lemma_sorted_within(kids: Seq<FolderView>, levels: nat, show_files: bool)
    requires
        forall|i: int|
            0 <= i < kids.len() ==> (#[trigger] kids[i]).total_notes_in_vault is None && tree_within(
                kids[i],
                levels,
                show_files,
            ),
    ensures
        trees_within(sort_by_name(kids), levels, show_files),
{
    lemma_sort_by_name_sorted(kids);
    let u = sort_by_name(kids);
    assert forall|i: int| 0 <= i < u.len() implies (#[trigger] u[i]).total_notes_in_vault is None
        && tree_within(u[i], levels, show_files) by {
        let k = choose|k: int| 0 <= k < kids.len() && kids[k] == u[i];
        assert(tree_within(kids[k], levels, show_files));
    }
    lemma_trees_within_index(u, levels, show_files);
}

/// The tree of a walk shows files only when asked to and then in the order of their names,
/// goes no deeper than the depth asked for, keeps at most `size` folders at the top, and holds
/// at its root the number of notes counted before trimming (only there), which is at least the
/// notes the tree shows.
pub proof fn law_vault_tree_follows_options(
    entries: Seq<WalkEntry>,
    options: VaultTreeOptions,
    vault_path: Seq<char>,
)
    ensures
        ({
            let root = root_folder(
                tree_source(entries, options),
                root_name_of(opt_view(options.path), vault_path),
            );
            let t = vault_tree_of(root, options.size as nat);
            &&& tree_within(t, options.depth as nat, options.show == ShowMode::Files)
            &&& t.subfolders.len() <= options.size
            &&& t.total_notes_in_vault == Some(total_notes(root))
            &&& total_notes(t) <= total_notes(root)
        }),
{
    let src = tree_source(entries, options);
    let root = root_folder(src, root_name_of(opt_view(options.path), vault_path));
    lemma_sort_lex_sorted(paths_in(src.files, None));
    if 0 < src.depth {
        let ks = paths_in(src.dirs, None);
        lemma_dir_folders_within(src, ks, 1);
        lemma_sorted_within(dir_folders(src, ks, 1), (src.depth - 1) as nat, src.show_files);
    } else {
        assert(root.subfolders =~= Seq::<FolderView>::empty());
    }
    assert(tree_within(root, src.depth, src.show_files));
    law_truncation_stays_within(root, options.size as nat, src.depth, src.show_files);
    law_truncation_keeps_fewer_notes(root, options.size as nat);
    let t = truncated(root, options.size as nat).0;
    let v = vault_tree_of(root, options.size as nat);
    assert(v.subfolders == t.subfolders && v.files == t.files);
    assert(total_notes(v) == total_notes(t));
}

} // verus!

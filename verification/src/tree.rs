//! The folder tree of a vault: its model, counting its notes, ordering and trimming it.
use vstd::prelude::*;

verus! {

broadcast use vstd::string::group_string_axioms;

/// Display mode for vault tree.
#[derive(Debug, Clone, Copy, PartialEq, Eq, Structural)]
pub enum ShowMode {
    Folders,
    Files,
}

impl ShowMode {
    /// The mode's name, as it is displayed.
    pub fn as_str(self) -> (r: &'static str)
        ensures
            r@ == (match self {
                ShowMode::Folders => "folders"@,
                ShowMode::Files => "files"@,
            }),
    {
        match self {
            ShowMode::Folders => "folders",
            ShowMode::Files => "files",
        }
    }
}

/// A folder node in the vault tree.
#[derive(Debug)]
pub struct VaultFolder {
    /// Folder name (last path segment), or vault name for root.
    pub name: String,
    /// Full relative path from vault root. Empty string for root.
    pub rel_path: String,
    /// Number of .md files directly in this folder.
    pub note_count: usize,
    /// Child folders (sorted alphabetically).
    pub subfolders: Vec<VaultFolder>,
    /// File names (only populated when show=Files).
    pub files: Vec<String>,
    /// Total notes in entire vault (only set for root node, None for children).
    pub total_notes_in_vault: Option<usize>,
}

/// Options for building vault tree.
#[derive(Debug)]
pub struct VaultTreeOptions {
    /// Subfolder to start from (None = vault root).
    pub path: Option<String>,
    /// Maximum depth to traverse.
    pub depth: usize,
    /// Maximum total entries in output.
    pub size: usize,
    /// What to show: folders only or folders + files.
    pub show: ShowMode,
}

/// A folder as plain values.
#[verifier::ext_equal]
pub struct FolderView {
    pub name: Seq<char>,
    pub rel_path: Seq<char>,
    pub note_count: nat,
    pub subfolders: Seq<FolderView>,
    pub files: Seq<Seq<char>>,
    pub total_notes_in_vault: Option<nat>,
}

pub open spec fn opt_nat(o: Option<usize>) -> Option<nat> {
    match o {
        Some(n) => Some(n as nat),
        None => None,
    }
}

pub open spec fn folder_view(f: VaultFolder) -> FolderView
    decreases f,
{
    FolderView {
        name: f.name@,
        rel_path: f.rel_path@,
        note_count: f.note_count as nat,
        subfolders: folder_views(f.subfolders@),
        files: f.files@.map_values(|s: String| s@),
        total_notes_in_vault: opt_nat(f.total_notes_in_vault),
    }
}

pub open spec fn folder_views(s: Seq<VaultFolder>) -> Seq<FolderView>
    decreases s,
{
    if s.len() == 0 {
        Seq::empty()
    } else {
        folder_views(s.subrange(0, s.len() - 1)).push(folder_view(s[s.len() - 1]))
    }
}

impl View for VaultFolder {
    type V = FolderView;

    open spec fn view(&self) -> FolderView {
        folder_view(*self)
    }
}

pub proof fn lemma_folder_views(s: Seq<VaultFolder>)
    ensures
        folder_views(s).len() == s.len(),
        forall|i: int| 0 <= i < s.len() ==> #[trigger] folder_views(s)[i] == folder_view(s[i]),
    decreases s.len(),
{
    if s.len() > 0 {
        lemma_folder_views(s.subrange(0, s.len() - 1));
    }
}

pub proof fn lemma_folder_views_push(s: Seq<VaultFolder>, f: VaultFolder)
    ensures
        folder_views(s.push(f)) == folder_views(s).push(folder_view(f)),
{
    assert(s.push(f).subrange(0, s.len() as int) =~= s);
}

// ---------------------------------------------------------------------------
// Counting
// ---------------------------------------------------------------------------

/// Notes in a folder and all folders below it.
pub open spec fn total_notes(v: FolderView) -> nat
    decreases v,
{
    v.note_count + total_notes_all(v.subfolders)
}

pub open spec fn total_notes_all(s: Seq<FolderView>) -> nat
    decreases s,
{
    if s.len() == 0 {
        0
    } else {
        total_notes_all(s.subrange(0, s.len() - 1)) + total_notes(s[s.len() - 1])
    }
}

proof fn lemma_total_notes_prefix(s: Seq<FolderView>, i: int)
    requires
        0 <= i <= s.len(),
    ensures
        total_notes_all(s.take(i)) <= total_notes_all(s),
    decreases s.len(),
{
    if i < s.len() {
        let t = s.subrange(0, s.len() - 1);
        assert(t.take(i) =~= s.take(i));
        lemma_total_notes_prefix(t, i);
    } else {
        assert(s.take(i) =~= s);
    }
}

/// Number of notes in `folder` and all folders below it.
pub fn count_notes_recursive(folder: &VaultFolder) -> (r: usize)
    requires
        total_notes(folder@) <= usize::MAX,
    ensures
        r == total_notes(folder@),
    decreases folder,
{
    let ghost subs = folder@.subfolders;
    proof {
        lemma_folder_views(folder.subfolders@);
    }
    let mut sum: usize = folder.note_count;
    let mut i: usize = 0;
    while i < folder.subfolders.len()
        invariant
            i <= folder.subfolders.len(),
            subs == folder_views(folder.subfolders@),
            subs.len() == folder.subfolders.len(),
            forall|k: int| 0 <= k < subs.len() ==> #[trigger] subs[k] == folder_view(folder.subfolders@[k]),
            total_notes(folder@) <= usize::MAX,
            total_notes(folder@) == folder.note_count + total_notes_all(subs),
            sum == folder.note_count + total_notes_all(subs.take(i as int)),
        decreases folder.subfolders.len() - i,
    {
        proof {
            lemma_total_notes_prefix(subs, i + 1);
            assert(subs.take(i + 1).subrange(0, i as int) =~= subs.take(i as int));
            assert(subs.take(i + 1)[i as int] == subs[i as int]);
        }
        let n = count_notes_recursive(&folder.subfolders[i]);
        sum = sum + n;
        i = i + 1;
    }
    assert(subs.take(i as int) =~= subs);
    sum
}


// ---------------------------------------------------------------------------
// Ordering by name
// ---------------------------------------------------------------------------

/// Lexicographic order of character sequences, the order of `String`'s `Ord` (UTF-8 bytes
/// compare as the characters they encode).
pub open spec fn lex_le(a: Seq<char>, b: Seq<char>) -> bool
    decreases a.len(),
{
    if a.len() == 0 {
        true
    } else if b.len() == 0 {
        false
    } else if a[0] != b[0] {
        a[0] < b[0]
    } else {
        lex_le(a.drop_first(), b.drop_first())
    }
}

/// Whether `a <= b` in lexicographic order.
pub fn lex_le_exec(a: &Vec<char>, b: &Vec<char>) -> (r: bool)
    ensures
        r == lex_le(a@, b@),
{
    let mut i: usize = 0;
    assert(a@.skip(0) =~= a@);
    assert(b@.skip(0) =~= b@);
    while i < a.len() && i < b.len() && a[i] == b[i]
        invariant
            i <= a.len(),
            i <= b.len(),
            lex_le(a@, b@) == lex_le(a@.skip(i as int), b@.skip(i as int)),
        decreases a.len() - i,
    {
        assert(a@.skip(i as int).drop_first() =~= a@.skip(i + 1));
        assert(b@.skip(i as int).drop_first() =~= b@.skip(i + 1));
        i = i + 1;
    }
    if i == a.len() {
        true
    } else if i == b.len() {
        false
    } else {
        a[i] < b[i]
    }
}

/// Where a folder named `x` goes in `t`: after every leading folder whose name is at most `x`.
pub open spec fn insert_pos(t: Seq<FolderView>, x: Seq<char>) -> nat
    decreases t.len(),
{
    if t.len() == 0 {
        0
    } else if lex_le(t[0].name, x) {
        1 + insert_pos(t.drop_first(), x)
    } else {
        0
    }
}

/// `t` with `v` inserted by name after the folders of equal name.
pub open spec fn insert_named(t: Seq<FolderView>, v: FolderView) -> Seq<FolderView> {
    t.insert(insert_pos(t, v.name) as int, v)
}

/// Stable sort by name.
pub open spec fn sort_by_name(s: Seq<FolderView>) -> Seq<FolderView>
    decreases s.len(),
{
    if s.len() == 0 {
        s
    } else {
        insert_named(sort_by_name(s.drop_last()), s.last())
    }
}

/// The folder with the subfolders of every level sorted by name.
pub open spec fn sorted_tree(v: FolderView) -> FolderView
    decreases v,
{
    FolderView {
        name: v.name,
        rel_path: v.rel_path,
        note_count: v.note_count,
        subfolders: sort_by_name(sorted_trees(v.subfolders)),
        files: v.files,
        total_notes_in_vault: v.total_notes_in_vault,
    }
}

pub open spec fn sorted_trees(s: Seq<FolderView>) -> Seq<FolderView>
    decreases s,
{
    if s.len() == 0 {
        Seq::empty()
    } else {
        sorted_trees(s.subrange(0, s.len() - 1)).push(sorted_tree(s[s.len() - 1]))
    }
}

proof fn lemma_folder_views_insert(s: Seq<VaultFolder>, k: int, f: VaultFolder)
    requires
        0 <= k <= s.len(),
    ensures
        folder_views(s.insert(k, f)) == folder_views(s).insert(k, folder_view(f)),
{
    lemma_folder_views(s);
    lemma_folder_views(s.insert(k, f));
    assert(folder_views(s.insert(k, f)) =~= folder_views(s).insert(k, folder_view(f)));
}

/// Inserts `f` into `sorted` by name, after the folders of equal name.
pub(crate) fn insert_by_name(sorted: &mut Vec<VaultFolder>, f: VaultFolder)
    ensures
        folder_views(final(sorted)@) == insert_named(folder_views(old(sorted)@), f@),
{
    let ghost t = folder_views(sorted@);
    proof {
        lemma_folder_views(sorted@);
    }
    let x = crate::text::chars_of(f.name.as_str());
    let mut k: usize = 0;
    assert(t.skip(0) =~= t);
    while k < sorted.len() && lex_le_exec(&crate::text::chars_of(sorted[k].name.as_str()), &x)
        invariant
            k <= sorted.len(),
            t == folder_views(sorted@),
            t.len() == sorted.len(),
            forall|j: int| 0 <= j < t.len() ==> #[trigger] t[j] == folder_view(sorted@[j]),
            x@ == f.name@,
            insert_pos(t, x@) == k + insert_pos(t.skip(k as int), x@),
        decreases sorted.len() - k,
    {
        assert(t.skip(k as int)[0] == t[k as int]);
        assert(t.skip(k as int).drop_first() =~= t.skip(k + 1));
        k = k + 1;
    }
    proof {
        if k < sorted.len() {
            assert(t.skip(k as int)[0] == t[k as int]);
        }
        lemma_folder_views_insert(sorted@, k as int, f);
    }
    sorted.insert(k, f);
}

proof fn lemma_sort_step(s: Seq<FolderView>, k: int)
    requires
        0 <= k < s.len(),
    ensures
        sort_by_name(sorted_trees(s.take(k + 1))) == insert_named(
            sort_by_name(sorted_trees(s.take(k))),
            sorted_tree(s[k]),
        ),
{
    let a = s.take(k + 1);
    assert(a.subrange(0, k) =~= s.take(k));
    let st = sorted_trees(a);
    assert(st == sorted_trees(s.take(k)).push(sorted_tree(s[k])));
    assert(st.drop_last() =~= sorted_trees(s.take(k)));
}

proof fn lemma_total_notes_insert(t: Seq<FolderView>, k: int, x: FolderView)
    requires
        0 <= k <= t.len(),
    ensures
        total_notes_all(t.insert(k, x)) == total_notes_all(t) + total_notes(x),
    decreases t.len(),
{
    let u = t.insert(k, x);
    if k == t.len() {
        assert(u.subrange(0, u.len() - 1) =~= t);
    } else {
        let d = t.subrange(0, t.len() - 1);
        assert(u.subrange(0, u.len() - 1) =~= d.insert(k, x));
        assert(u[u.len() - 1] == t[t.len() - 1]);
        lemma_total_notes_insert(d, k, x);
    }
}

proof fn lemma_total_notes_sort(s: Seq<FolderView>)
    ensures
        total_notes_all(sort_by_name(s)) == total_notes_all(s),
    decreases s.len(),
{
    if s.len() > 0 {
        let d = s.drop_last();
        lemma_total_notes_sort(d);
        let t = sort_by_name(d);
        lemma_insert_pos_bound(t, s.last().name);
        lemma_total_notes_insert(t, insert_pos(t, s.last().name) as int, s.last());
        assert(s.subrange(0, s.len() - 1) =~= d);
    }
}

proof fn lemma_insert_pos_bound(t: Seq<FolderView>, x: Seq<char>)
    ensures
        insert_pos(t, x) <= t.len(),
    decreases t.len(),
{
    if t.len() > 0 && lex_le(t[0].name, x) {
        lemma_insert_pos_bound(t.drop_first(), x);
    }
}

proof fn lemma_total_notes_sorted_tree(v: FolderView)
    ensures
        total_notes(sorted_tree(v)) == total_notes(v),
    decreases v,
{
    lemma_total_notes_sorted_trees(v.subfolders);
    lemma_total_notes_sort(sorted_trees(v.subfolders));
}

proof fn lemma_total_notes_sorted_trees(s: Seq<FolderView>)
    ensures
        total_notes_all(sorted_trees(s)) == total_notes_all(s),
    decreases s,
{
    if s.len() > 0 {
        let d = s.subrange(0, s.len() - 1);
        lemma_total_notes_sorted_trees(d);
        lemma_total_notes_sorted_tree(s[s.len() - 1]);
        let st = sorted_trees(s);
        assert(st.subrange(0, st.len() - 1) =~= sorted_trees(d));
    }
}

/// Sorting the subfolders keeps the number of notes a tree counts.
pub proof fn law_sorting_keeps_note_count(v: FolderView)
    ensures
        total_notes(sorted_tree(v)) == total_notes(v),
{
    lemma_total_notes_sorted_tree(v);
}

// ---------------------------------------------------------------------------
// Sortedness
// ---------------------------------------------------------------------------

pub proof fn lemma_lex_total(a: Seq<char>, b: Seq<char>)
    ensures
        lex_le(a, b) || lex_le(b, a),
    decreases a.len(),
{
    if a.len() > 0 && b.len() > 0 && a[0] == b[0] {
        lemma_lex_total(a.drop_first(), b.drop_first());
    }
}

pub proof fn lemma_lex_trans(a: Seq<char>, b: Seq<char>, c: Seq<char>)
    requires
        lex_le(a, b),
        lex_le(b, c),
    ensures
        lex_le(a, c),
    decreases a.len(),
{
    if a.len() > 0 && b.len() > 0 && c.len() > 0 && a[0] == b[0] && b[0] == c[0] {
        lemma_lex_trans(a.drop_first(), b.drop_first(), c.drop_first());
    }
}

/// Names in lexicographic order.
pub open spec fn names_sorted(s: Seq<FolderView>) -> bool {
    forall|i: int, j: int| 0 <= i < j < s.len() ==> lex_le(#[trigger] s[i].name, #[trigger] s[j].name)
}

/// Subfolders in lexicographic order of their names at every level.
pub open spec fn tree_sorted(v: FolderView) -> bool
    decreases v,
{
    names_sorted(v.subfolders) && trees_sorted(v.subfolders)
}

pub open spec fn trees_sorted(s: Seq<FolderView>) -> bool
    decreases s,
{
    if s.len() == 0 {
        true
    } else {
        tree_sorted(s[0]) && trees_sorted(s.subrange(1, s.len() as int))
    }
}

pub proof fn lemma_trees_sorted_index(s: Seq<FolderView>)
    ensures
        trees_sorted(s) <==> forall|i: int| 0 <= i < s.len() ==> #[trigger] tree_sorted(s[i]),
    decreases s.len(),
{
    if s.len() > 0 {
        let t = s.subrange(1, s.len() as int);
        lemma_trees_sorted_index(t);
        assert forall|i: int| 1 <= i < s.len() implies #[trigger] s[i] == t[i - 1] by {}
        if forall|i: int| 0 <= i < s.len() ==> #[trigger] tree_sorted(s[i]) {
            assert(tree_sorted(s[0]));
            assert forall|i: int| 0 <= i < t.len() implies #[trigger] tree_sorted(t[i]) by {
                assert(tree_sorted(s[i + 1]));
            }
        }
        if trees_sorted(s) {
            assert forall|i: int| 0 <= i < s.len() implies #[trigger] tree_sorted(s[i]) by {
                if i > 0 {
                    assert(tree_sorted(t[i - 1]));
                }
            }
        }
    }
}

proof fn lemma_insert_pos_props(t: Seq<FolderView>, x: Seq<char>)
    ensures
        insert_pos(t, x) <= t.len(),
        forall|i: int| 0 <= i < insert_pos(t, x) ==> lex_le(#[trigger] t[i].name, x),
        insert_pos(t, x) < t.len() ==> !lex_le(t[insert_pos(t, x) as int].name, x),
    decreases t.len(),
{
    if t.len() > 0 && lex_le(t[0].name, x) {
        let d = t.drop_first();
        lemma_insert_pos_props(d, x);
        assert forall|i: int| 0 <= i < insert_pos(t, x) implies lex_le(#[trigger] t[i].name, x) by {
            if i > 0 {
                assert(t[i] == d[i - 1]);
            }
        }
        if insert_pos(t, x) < t.len() {
            assert(t[insert_pos(t, x) as int] == d[insert_pos(d, x) as int]);
        }
    }
}

proof fn lemma_insert_named_sorted(t: Seq<FolderView>, v: FolderView)
    requires
        names_sorted(t),
    ensures
        names_sorted(insert_named(t, v)),
        forall|i: int|
            0 <= i < insert_named(t, v).len() ==> #[trigger] insert_named(t, v)[i] == v || t.contains(
                insert_named(t, v)[i],
            ),
{
    lemma_insert_pos_props(t, v.name);
    let p = insert_pos(t, v.name) as int;
    let u = insert_named(t, v);
    assert forall|i: int, j: int| 0 <= i < j < u.len() implies lex_le(
        #[trigger] u[i].name,
        #[trigger] u[j].name,
    ) by {
        if i < p && j < p {
            assert(u[i] == t[i] && u[j] == t[j]);
        } else if i < p && j == p {
            assert(u[i] == t[i]);
        } else if i < p {
            assert(u[i] == t[i] && u[j] == t[j - 1]);
        } else if i == p {
            assert(u[j] == t[j - 1]);
            assert(u[i] == v);
            lemma_lex_total(t[p].name, v.name);
            if j - 1 > p {
                assert(lex_le(t[p].name, t[j - 1].name));
                lemma_lex_trans(v.name, t[p].name, t[j - 1].name);
            }
        } else {
            assert(u[i] == t[i - 1] && u[j] == t[j - 1]);
        }
    }
    assert forall|i: int| 0 <= i < u.len() implies #[trigger] u[i] == v || t.contains(u[i]) by {
        if i < p {
            assert(u[i] == t[i]);
        } else if i > p {
            assert(u[i] == t[i - 1]);
        }
    }
}

pub proof fn lemma_sort_by_name_sorted(s: Seq<FolderView>)
    ensures
        names_sorted(sort_by_name(s)),
        forall|i: int|
            0 <= i < sort_by_name(s).len() ==> s.contains(#[trigger] sort_by_name(s)[i]),
    decreases s.len(),
{
    if s.len() > 0 {
        let d = s.drop_last();
        lemma_sort_by_name_sorted(d);
        lemma_insert_named_sorted(sort_by_name(d), s.last());
        let u = sort_by_name(s);
        assert forall|i: int| 0 <= i < u.len() implies s.contains(#[trigger] u[i]) by {
            if u[i] == s.last() {
                assert(s[s.len() - 1] == s.last());
            } else {
                let k = choose|k: int| 0 <= k < sort_by_name(d).len() && sort_by_name(d)[k] == u[i];
                assert(d.contains(sort_by_name(d)[k]));
                let m = choose|m: int| 0 <= m < d.len() && d[m] == u[i];
                assert(s[m] == d[m]);
            }
        }
    }
}

proof fn lemma_sorted_tree_sorted(v: FolderView)
    ensures
        tree_sorted(sorted_tree(v)),
        sorted_tree(v).name == v.name,
    decreases v,
{
    lemma_sorted_trees_sorted(v.subfolders);
    let st = sorted_trees(v.subfolders);
    lemma_sort_by_name_sorted(st);
    lemma_trees_sorted_index(st);
    let u = sort_by_name(st);
    lemma_trees_sorted_index(u);
    assert forall|i: int| 0 <= i < u.len() implies #[trigger] tree_sorted(u[i]) by {
        let k = choose|k: int| 0 <= k < st.len() && st[k] == u[i];
        assert(tree_sorted(st[k]));
    }
}

proof fn lemma_sorted_trees_sorted(s: Seq<FolderView>)
    ensures
        trees_sorted(sorted_trees(s)),
        sorted_trees(s).len() == s.len(),
    decreases s,
{
    if s.len() > 0 {
        let d = s.subrange(0, s.len() - 1);
        lemma_sorted_trees_sorted(d);
        lemma_sorted_tree_sorted(s[s.len() - 1]);
        let st = sorted_trees(s);
        lemma_trees_sorted_index(sorted_trees(d));
        lemma_trees_sorted_index(st);
        assert forall|i: int| 0 <= i < st.len() implies #[trigger] tree_sorted(st[i]) by {
            if i < st.len() - 1 {
                assert(st[i] == sorted_trees(d)[i]);
            }
        }
    }
}

/// After sorting, the subfolders of every level are in lexicographic order of their names.
pub proof fn law_sorted_tree_is_sorted(v: FolderView)
    ensures
        tree_sorted(sorted_tree(v)),
{
    lemma_sorted_tree_sorted(v);
}

/// Sorts the subfolders of every level by name (stable).
pub fn sort_subfolders(folder: &mut VaultFolder)
    ensures
        final(folder)@ == sorted_tree(old(folder)@),
    decreases *old(folder),
{
    let ghost orig = folder_views(folder.subfolders@);
    let ghost old_subs = folder.subfolders@;
    let mut subs: Vec<VaultFolder> = Vec::new();
    std::mem::swap(&mut subs, &mut folder.subfolders);
    proof {
        lemma_folder_views(old_subs);
    }
    let mut sorted: Vec<VaultFolder> = Vec::new();
    let ghost mut k: int = 0;
    assert(sorted_trees(orig.take(0)) =~= Seq::<FolderView>::empty());
    while subs.len() > 0
        invariant
            0 <= k <= old_subs.len(),
            subs@ == old_subs.skip(k),
            orig == folder_views(old_subs),
            orig.len() == old_subs.len(),
            forall|j: int| 0 <= j < old_subs.len() ==> #[trigger] orig[j] == folder_view(old_subs[j]),
            old_subs == old(folder).subfolders@,
            folder_views(sorted@) == sort_by_name(sorted_trees(orig.take(k))),
        decreases subs.len(),
    {
        assert(subs@[0] == old_subs[k]);
        let mut s = subs.remove(0);
        assert(decreases_to!(*old(folder) => old(folder).subfolders@[k]));
        sort_subfolders(&mut s);
        proof {
            lemma_sort_step(orig, k);
        }
        insert_by_name(&mut sorted, s);
        proof {
            assert(subs@ =~= old_subs.skip(k + 1));
            k = k + 1;
        }
    }
    assert(k == old_subs.len());
    assert(orig.take(k) =~= orig);
    folder.subfolders = sorted;
    assert(folder@.files =~= old(folder)@.files);
    assert(folder@ =~= sorted_tree(old(folder)@));
}


// ---------------------------------------------------------------------------
// Trimming to a number of entries
// ---------------------------------------------------------------------------

/// Entries a folder shows: its files, and each subfolder with all of its own entries.
pub open spec fn entries_of(v: FolderView) -> nat
    decreases v,
{
    v.files.len() + entries_all(v.subfolders)
}

pub open spec fn entries_all(s: Seq<FolderView>) -> nat
    decreases s,
{
    if s.len() == 0 {
        0
    } else {
        1 + entries_of(s[0]) + entries_all(s.subrange(1, s.len() as int))
    }
}

/// The folder trimmed to a budget of `max` entries, and the number of entries it keeps.
///
/// Each file counts as one entry and each kept subfolder as one plus its own kept entries. The
/// count starts at the folder's files; each subfolder, in order, is kept while the count is below
/// `max`, trimmed to the budget that is left. Files beyond what the budget leaves after the
/// subfolders are dropped.
pub open spec fn truncated(v: FolderView, max: nat) -> (FolderView, nat)
    decreases v,
{
    let (kept, count) = truncated_subs(v.subfolders, v.files.len(), max);
    let in_subs = (count - v.files.len()) as nat;
    let room: nat = if in_subs <= max {
        (max - in_subs) as nat
    } else {
        0
    };
    let nfiles: nat = if v.files.len() <= room {
        v.files.len()
    } else {
        room
    };
    (
        FolderView {
            name: v.name,
            rel_path: v.rel_path,
            note_count: v.note_count,
            subfolders: kept,
            files: v.files.take(nfiles as int),
            total_notes_in_vault: v.total_notes_in_vault,
        },
        in_subs + nfiles,
    )
}

/// The subfolders kept from `s` with the count at `count`, and the count after them.
pub open spec fn truncated_subs(s: Seq<FolderView>, count: nat, max: nat) -> (Seq<FolderView>, nat)
    decreases s,
{
    if s.len() == 0 || count >= max {
        (Seq::empty(), count)
    } else {
        let (sub, used) = truncated(s[0], (max - (count + 1)) as nat);
        let (rest, c) = truncated_subs(s.subrange(1, s.len() as int), count + 1 + used, max);
        (seq![sub] + rest, c)
    }
}

proof fn lemma_entries_all_cons(a: FolderView, rest: Seq<FolderView>)
    ensures
        entries_all(seq![a] + rest) == 1 + entries_of(a) + entries_all(rest),
{
    let s = seq![a] + rest;
    assert(s[0] == a);
    assert(s.subrange(1, s.len() as int) =~= rest);
}

proof fn lemma_truncated_count(v: FolderView, max: nat)
    ensures
        truncated(v, max).1 == entries_of(truncated(v, max).0),
        truncated(v, max).1 <= max,
        truncated(v, max).1 <= entries_of(v),
        v.files.len() <= max ==> truncated(v, max).0.files == v.files,
    decreases v,
{
    lemma_truncated_subs_count(v.subfolders, v.files.len(), max);
    assert(v.files.take(v.files.len() as int) =~= v.files);
}

proof fn lemma_truncated_subs_count(s: Seq<FolderView>, count: nat, max: nat)
    ensures
        truncated_subs(s, count, max).1 == count + entries_all(truncated_subs(s, count, max).0),
        count <= max ==> truncated_subs(s, count, max).1 <= max,
        count >= max ==> truncated_subs(s, count, max).0.len() == 0,
        truncated_subs(s, count, max).1 <= count + entries_all(s),
    decreases s,
{
    if s.len() > 0 && count < max {
        let m = (max - (count + 1)) as nat;
        lemma_truncated_count(s[0], m);
        let (sub, used) = truncated(s[0], m);
        let rest = s.subrange(1, s.len() as int);
        lemma_truncated_subs_count(rest, count + 1 + used, max);
        let (kept_rest, c) = truncated_subs(rest, count + 1 + used, max);
        lemma_entries_all_cons(sub, kept_rest);
        assert(truncated_subs(s, count, max).0 == seq![sub] + kept_rest);
    }
}

proof fn lemma_truncated_whole(v: FolderView, max: nat)
    requires
        entries_of(v) <= max,
    ensures
        truncated(v, max) == (v, entries_of(v)),
    decreases v,
{
    lemma_truncated_subs_whole(v.subfolders, v.files.len(), max);
    assert(v.files.take(v.files.len() as int) =~= v.files);
}

proof fn lemma_truncated_subs_whole(s: Seq<FolderView>, count: nat, max: nat)
    requires
        count + entries_all(s) <= max,
    ensures
        truncated_subs(s, count, max) == (s, count + entries_all(s)),
    decreases s,
{
    if s.len() > 0 {
        let m = (max - (count + 1)) as nat;
        let rest = s.subrange(1, s.len() as int);
        lemma_truncated_whole(s[0], m);
        lemma_truncated_subs_whole(rest, count + 1 + entries_of(s[0]), max);
        assert(seq![s[0]] + rest =~= s);
    }
}

/// A trimmed tree keeps exactly as many entries (folders and files, each file counted once) as
/// the count it returns, and no more than the budget; a folder whose own files fit the budget
/// keeps all of them.
pub proof fn law_truncated_tree_fits_budget(v: FolderView, max: nat)
    ensures
        entries_of(truncated(v, max).0) == truncated(v, max).1,
        truncated(v, max).1 <= max,
        v.files.len() <= max ==> truncated(v, max).0.files == v.files,
{
    lemma_truncated_count(v, max);
}

/// Trimming a tree that already fits its budget leaves it whole and counts all its entries.
pub proof fn law_truncation_keeps_a_fitting_tree(v: FolderView, max: nat)
    requires
        entries_of(v) <= max,
    ensures
        truncated(v, max).0 == v,
        truncated(v, max).1 == entries_of(v),
{
    lemma_truncated_whole(v, max);
}

/// Truncate tree to at most `max_entries` total entries (folders + files), walking it depth
/// first and keeping subfolders until the budget is used; returns the entries kept.
pub fn truncate_tree(folder: &mut VaultFolder, max_entries: usize) -> (r: usize)
    requires
        entries_of(old(folder)@) <= usize::MAX,
    ensures
        (final(folder)@, r as nat) == truncated(old(folder)@, max_entries as nat),
    decreases *old(folder),
{
    let ghost orig = folder_views(folder.subfolders@);
    let ghost old_subs = folder.subfolders@;
    let ghost flen = folder.files.len() as nat;
    let ghost total = truncated_subs(orig, flen, max_entries as nat);
    proof {
        lemma_folder_views(old_subs);
        assert(orig.skip(0) =~= orig);
    }
    let mut count: usize = folder.files.len();
    let mut subs: Vec<VaultFolder> = Vec::new();
    std::mem::swap(&mut subs, &mut folder.subfolders);
    let mut kept: Vec<VaultFolder> = Vec::new();
    let ghost mut k: int = 0;
    while subs.len() > 0 && count < max_entries
        invariant
            0 <= k <= old_subs.len(),
            subs@ == old_subs.skip(k),
            orig == folder_views(old_subs),
            orig.len() == old_subs.len(),
            forall|j: int| 0 <= j < old_subs.len() ==> #[trigger] orig[j] == folder_view(old_subs[j]),
            old_subs == old(folder).subfolders@,
            total == truncated_subs(orig, flen, max_entries as nat),
            total.0 == folder_views(kept@) + truncated_subs(orig.skip(k), count as nat, max_entries as nat).0,
            total.1 == truncated_subs(orig.skip(k), count as nat, max_entries as nat).1,
            count + entries_all(orig.skip(k)) <= entries_of(old(folder)@),
            entries_of(old(folder)@) <= usize::MAX,
            flen <= count,
        decreases subs.len(),
    {
        let ghost rest = orig.skip(k);
        assert(rest[0] == orig[k]);
        assert(rest.subrange(1, rest.len() as int) =~= orig.skip(k + 1));
        assert(subs@[0] == old_subs[k]);
        count = count + 1;
        let mut sub = subs.remove(0);
        assert(decreases_to!(*old(folder) => old(folder).subfolders@[k]));
        let used = truncate_tree(&mut sub, max_entries - count);
        proof {
            lemma_truncated_count(orig[k], (max_entries - count) as nat);
        }
        count = count + used;
        let ghost prev = folder_views(kept@);
        let ghost old_kept = kept@;
        let ghost sval = sub;
        let ghost sv = sub@;
        kept.push(sub);
        proof {
            lemma_folder_views_push(old_kept, sval);
            assert(folder_views(kept@) == prev.push(sv));
            assert(prev.push(sv) + truncated_subs(orig.skip(k + 1), count as nat, max_entries as nat).0
                =~= prev + (seq![sv] + truncated_subs(orig.skip(k + 1), count as nat, max_entries as nat).0));
            assert(subs@ =~= old_subs.skip(k + 1));
            k = k + 1;
        }
    }
    assert(truncated_subs(orig.skip(k), count as nat, max_entries as nat).0 =~= Seq::<FolderView>::empty());
    assert(total.0 =~= folder_views(kept@));
    folder.subfolders = kept;
    let flen_now = folder.files.len();
    let in_subs = count - flen_now;
    let room = if in_subs <= max_entries {
        max_entries - in_subs
    } else {
        0
    };
    if flen_now > room {
        folder.files.truncate(room);
        count = in_subs + room;
    }
    assert(folder@.files =~= truncated(old(folder)@, max_entries as nat).0.files);
    assert(folder@ =~= truncated(old(folder)@, max_entries as nat).0);
    count
}


// ---------------------------------------------------------------------------
// Whether the counts fit in usize
// ---------------------------------------------------------------------------

/// The entries of a folder, when they fit in `usize`.
pub fn checked_entries(folder: &VaultFolder) -> (r: Option<usize>)
    ensures
        match r {
            Some(n) => n == entries_of(folder@),
            None => entries_of(folder@) > usize::MAX,
        },
    decreases folder,
{
    let ghost subs = folder@.subfolders;
    proof {
        lemma_folder_views(folder.subfolders@);
        assert(subs.skip(0) =~= subs);
    }
    let mut sum: usize = folder.files.len();
    let mut i: usize = 0;
    while i < folder.subfolders.len()
        invariant
            i <= folder.subfolders.len(),
            subs == folder_views(folder.subfolders@),
            subs.len() == folder.subfolders.len(),
            forall|k: int| 0 <= k < subs.len() ==> #[trigger] subs[k] == folder_view(folder.subfolders@[k]),
            entries_of(folder@) == sum + entries_all(subs.skip(i as int)),
        decreases folder.subfolders.len() - i,
    {
        let ghost rest = subs.skip(i as int);
        assert(rest[0] == subs[i as int]);
        assert(rest.subrange(1, rest.len() as int) =~= subs.skip(i + 1));
        match checked_entries(&folder.subfolders[i]) {
            Some(n) => {
                match sum.checked_add(n) {
                    Some(t) => {
                        match t.checked_add(1) {
                            Some(u) => {
                                sum = u;
                            },
                            None => {
                                return None;
                            },
                        }
                    },
                    None => {
                        return None;
                    },
                }
            },
            None => {
                return None;
            },
        }
        i = i + 1;
    }
    Some(sum)
}

/// The notes of a folder and all folders below it, when they fit in `usize`.
pub fn checked_notes(folder: &VaultFolder) -> (r: Option<usize>)
    ensures
        match r {
            Some(n) => n == total_notes(folder@),
            None => total_notes(folder@) > usize::MAX,
        },
    decreases folder,
{
    let ghost subs = folder@.subfolders;
    proof {
        lemma_folder_views(folder.subfolders@);
    }
    let mut sum: usize = folder.note_count;
    let mut i: usize = 0;
    while i < folder.subfolders.len()
        invariant
            i <= folder.subfolders.len(),
            subs == folder_views(folder.subfolders@),
            subs.len() == folder.subfolders.len(),
            forall|k: int| 0 <= k < subs.len() ==> #[trigger] subs[k] == folder_view(folder.subfolders@[k]),
            total_notes(folder@) == folder.note_count + total_notes_all(subs),
            sum == folder.note_count + total_notes_all(subs.take(i as int)),
        decreases folder.subfolders.len() - i,
    {
        proof {
            lemma_total_notes_prefix(subs, i + 1);
            assert(subs.take(i + 1).subrange(0, i as int) =~= subs.take(i as int));
            assert(subs.take(i + 1)[i as int] == subs[i as int]);
        }
        match checked_notes(&folder.subfolders[i]) {
            Some(n) => match sum.checked_add(n) {
                Some(t) => {
                    sum = t;
                },
                None => {
                    return None;
                },
            },
            None => {
                return None;
            },
        }
        i = i + 1;
    }
    assert(subs.take(i as int) =~= subs);
    Some(sum)
}


proof fn lemma_truncated_sorted(v: FolderView, max: nat)
    requires
        tree_sorted(v),
    ensures
        tree_sorted(truncated(v, max).0),
        truncated(v, max).0.name == v.name,
    decreases v,
{
    lemma_truncated_subs_sorted(v.subfolders, v.files.len(), max);
    let kept = truncated_subs(v.subfolders, v.files.len(), max).0;
    assert(names_sorted(kept)) by {
        assert forall|i: int, j: int| 0 <= i < j < kept.len() implies lex_le(
            #[trigger] kept[i].name,
            #[trigger] kept[j].name,
        ) by {
            assert(lex_le(v.subfolders[i].name, v.subfolders[j].name));
        }
    }
}

proof fn lemma_truncated_subs_sorted(s: Seq<FolderView>, count: nat, max: nat)
    requires
        trees_sorted(s),
    ensures
        truncated_subs(s, count, max).0.len() <= s.len(),
        forall|i: int|
            0 <= i < truncated_subs(s, count, max).0.len() ==> #[trigger] truncated_subs(
                s,
                count,
                max,
            ).0[i].name == s[i].name,
        trees_sorted(truncated_subs(s, count, max).0),
    decreases s,
{
    if s.len() > 0 && count < max {
        let m = (max - (count + 1)) as nat;
        lemma_truncated_sorted(s[0], m);
        let (sub, used) = truncated(s[0], m);
        let rest = s.subrange(1, s.len() as int);
        lemma_truncated_subs_sorted(rest, count + 1 + used, max);
        let kept_rest = truncated_subs(rest, count + 1 + used, max).0;
        let k = seq![sub] + kept_rest;
        assert(truncated_subs(s, count, max).0 == k);
        assert forall|i: int| 0 <= i < k.len() implies #[trigger] k[i].name == s[i].name by {
            if i > 0 {
                assert(k[i] == kept_rest[i - 1]);
                assert(rest[i - 1] == s[i]);
            }
        }
        assert(k.subrange(1, k.len() as int) =~= kept_rest);
    }
}

/// Trimming keeps the subfolders of every level in the order of their names.
pub proof fn law_truncation_keeps_order(v: FolderView, max: nat)
    requires
        tree_sorted(v),
    ensures
        tree_sorted(truncated(v, max).0),
{
    lemma_truncated_sorted(v, max);
}


// ---------------------------------------------------------------------------
// Depth and files shown
// ---------------------------------------------------------------------------

/// Names in lexicographic order.
pub open spec fn lex_sorted(s: Seq<Seq<char>>) -> bool {
    forall|i: int, j: int| 0 <= i < j < s.len() ==> lex_le(#[trigger] s[i], #[trigger] s[j])
}

/// The folder shows files only when `show_files`, in the order of their names, and has
/// subfolders at most `levels` levels down; each subfolder carries no count of the vault's
/// notes.
pub open spec fn tree_within(v: FolderView, levels: nat, show_files: bool) -> bool
    decreases v,
{
    &&& (show_files || v.files.len() == 0)
    &&& lex_sorted(v.files)
    &&& (levels == 0 ==> v.subfolders.len() == 0)
    &&& trees_within(v.subfolders, (levels - 1) as nat, show_files)
}

pub open spec fn trees_within(s: Seq<FolderView>, levels: nat, show_files: bool) -> bool
    decreases s,
{
    if s.len() == 0 {
        true
    } else {
        &&& s[0].total_notes_in_vault is None
        &&& tree_within(s[0], levels, show_files)
        &&& trees_within(s.subrange(1, s.len() as int), levels, show_files)
    }
}

pub proof fn lemma_trees_within_index(s: Seq<FolderView>, levels: nat, show_files: bool)
    ensures
        trees_within(s, levels, show_files) <==> forall|i: int|
            0 <= i < s.len() ==> (#[trigger] s[i]).total_notes_in_vault is None && tree_within(
                s[i],
                levels,
                show_files,
            ),
    decreases s.len(),
{
    if s.len() > 0 {
        let t = s.subrange(1, s.len() as int);
        lemma_trees_within_index(t, levels, show_files);
        assert forall|i: int| 1 <= i < s.len() implies #[trigger] s[i] == t[i - 1] by {}
        if forall|i: int|
            0 <= i < s.len() ==> (#[trigger] s[i]).total_notes_in_vault is None && tree_within(
                s[i],
                levels,
                show_files,
            ) {
            assert(tree_within(s[0], levels, show_files));
            assert forall|i: int| 0 <= i < t.len() implies (#[trigger] t[i]).total_notes_in_vault is None
                && tree_within(t[i], levels, show_files) by {
                assert(t[i] == s[i + 1]);
            }
        }
        if trees_within(s, levels, show_files) {
            assert forall|i: int| 0 <= i < s.len() implies (#[trigger] s[i]).total_notes_in_vault is None
                && tree_within(s[i], levels, show_files) by {
                if i > 0 {
                    assert(s[i] == t[i - 1]);
                }
            }
        }
    }
}

proof fn lemma_truncated_within(v: FolderView, max: nat, levels: nat, show_files: bool)
    requires
        tree_within(v, levels, show_files),
    ensures
        tree_within(truncated(v, max).0, levels, show_files),
        truncated(v, max).0.total_notes_in_vault == v.total_notes_in_vault,
    decreases v,
{
    lemma_truncated_subs_within(v.subfolders, v.files.len(), max, (levels - 1) as nat, show_files);
    let f = truncated(v, max).0.files;
    assert forall|i: int, j: int| 0 <= i < j < f.len() implies lex_le(#[trigger] f[i], #[trigger] f[j]) by {
        assert(f[i] == v.files[i] && f[j] == v.files[j]);
    }
}

proof fn lemma_truncated_subs_within(s: Seq<FolderView>, count: nat, max: nat, levels: nat, show_files: bool)
    requires
        trees_within(s, levels, show_files),
    ensures
        trees_within(truncated_subs(s, count, max).0, levels, show_files),
        truncated_subs(s, count, max).0.len() <= s.len(),
    decreases s,
{
    if s.len() > 0 && count < max {
        let m = (max - (count + 1)) as nat;
        lemma_truncated_within(s[0], m, levels, show_files);
        let (sub, used) = truncated(s[0], m);
        let rest = s.subrange(1, s.len() as int);
        lemma_truncated_subs_within(rest, count + 1 + used, max, levels, show_files);
        let kept_rest = truncated_subs(rest, count + 1 + used, max).0;
        let k = seq![sub] + kept_rest;
        assert(truncated_subs(s, count, max).0 == k);
        assert(k[0] == sub);
        assert(k.subrange(1, k.len() as int) =~= kept_rest);
    }
}

proof fn lemma_total_notes_cons(a: FolderView, rest: Seq<FolderView>)
    ensures
        total_notes_all(seq![a] + rest) == total_notes(a) + total_notes_all(rest),
    decreases rest.len(),
{
    let s = seq![a] + rest;
    if rest.len() == 0 {
        assert(s.subrange(0, 0) =~= Seq::<FolderView>::empty());
        assert(total_notes_all(Seq::<FolderView>::empty()) == 0);
        assert(total_notes_all(rest) == 0);
        assert(s[0] == a);
        assert(total_notes_all(s) == total_notes_all(s.subrange(0, 0)) + total_notes(s[0]));
    } else {
        let r2 = rest.subrange(0, rest.len() - 1);
        lemma_total_notes_cons(a, r2);
        assert(s.subrange(0, s.len() - 1) =~= seq![a] + r2);
        assert(s[s.len() - 1] == rest[rest.len() - 1]);
        assert(total_notes_all(s) == total_notes_all(s.subrange(0, s.len() - 1)) + total_notes(
            s[s.len() - 1],
        ));
        assert(total_notes_all(rest) == total_notes_all(r2) + total_notes(rest[rest.len() - 1]));
    }
}

proof fn lemma_truncated_total(v: FolderView, max: nat)
    ensures
        total_notes(truncated(v, max).0) <= total_notes(v),
    decreases v,
{
    lemma_truncated_subs_total(v.subfolders, v.files.len(), max);
}

proof fn lemma_truncated_subs_total(s: Seq<FolderView>, count: nat, max: nat)
    ensures
        total_notes_all(truncated_subs(s, count, max).0) <= total_notes_all(s),
    decreases s,
{
    if s.len() > 0 && count < max {
        let m = (max - (count + 1)) as nat;
        lemma_truncated_total(s[0], m);
        let (sub, used) = truncated(s[0], m);
        let rest = s.subrange(1, s.len() as int);
        lemma_truncated_subs_total(rest, count + 1 + used, max);
        let kept_rest = truncated_subs(rest, count + 1 + used, max).0;
        assert(truncated_subs(s, count, max).0 == seq![sub] + kept_rest);
        lemma_total_notes_cons(sub, kept_rest);
        lemma_total_notes_cons(s[0], rest);
        assert(seq![s[0]] + rest =~= s);
    } else {
        assert(truncated_subs(s, count, max).0 =~= Seq::<FolderView>::empty());
    }
}

/// Trimming a tree only leaves notes out: the notes of the trimmed tree are at most those of
/// the tree.
pub proof fn law_truncation_keeps_fewer_notes(v: FolderView, max: nat)
    ensures
        total_notes(truncated(v, max).0) <= total_notes(v),
{
    lemma_truncated_total(v, max);
}

proof fn lemma_entries_all_len(s: Seq<FolderView>)
    ensures
        s.len() <= entries_all(s),
    decreases s.len(),
{
    if s.len() > 0 {
        lemma_entries_all_len(s.subrange(1, s.len() as int));
    }
}

/// Trimming keeps what a tree shows within its depth and files, and leaves at most `max`
/// subfolders at the top.
pub proof fn law_truncation_stays_within(v: FolderView, max: nat, levels: nat, show_files: bool)
    requires
        tree_within(v, levels, show_files),
    ensures
        tree_within(truncated(v, max).0, levels, show_files),
        truncated(v, max).0.subfolders.len() <= max,
{
    lemma_truncated_within(v, max, levels, show_files);
    lemma_truncated_count(v, max);
    lemma_entries_all_len(truncated(v, max).0.subfolders);
}

} // verus!

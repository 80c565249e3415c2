//! Tags across notes: which notes carry each tag, ranked by how many, and narrowing a list of
//! notes by required tags.
use vstd::prelude::*;
use crate::format::{format_list_tags, tag_list_text};
use crate::inputs::ListTagsInput;
use crate::tags::{has_all_tags, tags_match, TagStats};
use crate::types::opt_view;
use crate::text::{
    chars_of, ends_with_char, index_of, index_of_from, lemma_index_of_bound, starts_with,
    starts_with_exec, str_views,
};
use crate::tree::{lemma_lex_total, lemma_lex_trans, lex_le, lex_le_exec};

verus! {

/// What tag counting and browsing read of a note: its path and its tags.
#[derive(Debug)]
pub struct TaggedNote {
    pub path: String,
    pub tags: Vec<String>,
}

// ---------------------------------------------------------------------------
// Counting tags
// ---------------------------------------------------------------------------

/// One use of a tag: the tag, and the path of the note that carries it.
pub struct TagUse {
    pub tag: Seq<char>,
    pub path: Seq<char>,
}

/// The tag uses of one note, in the order of its tags.
pub open spec fn uses_of(n: TaggedNote) -> Seq<TagUse> {
    n.tags@.map_values(|t: String| TagUse { tag: t@, path: n.path@ })
}

/// The tag uses of the first `k` notes that `inc` keeps, note after note.
pub open spec fn tag_uses(ns: Seq<TaggedNote>, inc: Seq<bool>, k: nat) -> Seq<TagUse>
    decreases k,
{
    if k == 0 {
        Seq::empty()
    } else if inc[k - 1] {
        tag_uses(ns, inc, (k - 1) as nat) + uses_of(ns[k - 1])
    } else {
        tag_uses(ns, inc, (k - 1) as nat)
    }
}

/// A tag and the paths of the notes that carry it, one per use.
#[verifier::ext_equal]
pub struct TagCount {
    pub tag: Seq<char>,
    pub files: Seq<Seq<char>>,
}

/// Where tag `t` is counted in `g`, if it is.
pub open spec fn count_index(g: Seq<TagCount>, t: Seq<char>) -> Option<int>
    decreases g.len(),
{
    if g.len() == 0 {
        None
    } else {
        match count_index(g.drop_last(), t) {
            Some(i) => Some(i),
            None => if g.last().tag == t {
                Some(g.len() - 1)
            } else {
                None
            },
        }
    }
}

/// The uses grouped by tag, tags in the order they are first used.
pub open spec fn grouped(us: Seq<TagUse>) -> Seq<TagCount>
    decreases us.len(),
{
    if us.len() == 0 {
        Seq::empty()
    } else {
        let g = grouped(us.drop_last());
        let u = us.last();
        match count_index(g, u.tag) {
            Some(i) => g.update(i, TagCount { tag: u.tag, files: g[i].files.push(u.path) }),
            None => g.push(TagCount { tag: u.tag, files: seq![u.path] }),
        }
    }
}

/// Whether count `a` is listed before count `b`: more notes first, then by tag.
pub open spec fn count_before(a: TagCount, b: TagCount) -> bool {
    a.files.len() > b.files.len() || (a.files.len() == b.files.len() && lex_le(a.tag, b.tag))
}

pub open spec fn count_pos(t: Seq<TagCount>, x: TagCount) -> nat
    decreases t.len(),
{
    if t.len() == 0 {
        0
    } else if count_before(t[0], x) {
        1 + count_pos(t.drop_first(), x)
    } else {
        0
    }
}

/// The counts, ordered by `count_before` (insertion, stable).
pub open spec fn sorted_counts(s: Seq<TagCount>) -> Seq<TagCount>
    decreases s.len(),
{
    if s.len() == 0 {
        s
    } else {
        let t = sorted_counts(s.drop_last());
        t.insert(count_pos(t, s.last()) as int, s.last())
    }
}

/// The tags of the notes that `inc` keeps, each with the paths of the notes that carry it,
/// ranked: more notes first, then by tag.
pub open spec fn tag_stats(ns: Seq<TaggedNote>, inc: Seq<bool>) -> Seq<TagCount> {
    sorted_counts(grouped(tag_uses(ns, inc, ns.len())))
}

pub open spec fn stats_view(s: TagStats) -> TagCount {
    TagCount { tag: s.tag@, files: str_views(s.files@) }
}

pub open spec fn stats_views(s: Seq<TagStats>) -> Seq<TagCount> {
    s.map_values(|x: TagStats| stats_view(x))
}

proof fn lemma_count_index(g: Seq<TagCount>, t: Seq<char>)
    ensures
        match count_index(g, t) {
            Some(i) => 0 <= i < g.len() && g[i].tag == t,
            None => forall|k: int| 0 <= k < g.len() ==> (#[trigger] g[k]).tag != t,
        },
    decreases g.len(),
{
    if g.len() > 0 {
        lemma_count_index(g.drop_last(), t);
        assert forall|k: int| 0 <= k < g.len() - 1 implies g.drop_last()[k] == g[k] by {}
    }
}

/// Where tag `t` is counted in `g`.
fn find_count(g: &Vec<TagStats>, t: &str) -> (r: Option<usize>)
    ensures
        match r {
            Some(i) => count_index(stats_views(g@), t@) == Some(i as int),
            None => count_index(stats_views(g@), t@) is None,
        },
{
    let ghost gv = stats_views(g@);
    let mut k: usize = 0;
    assert(gv.take(0) =~= Seq::<TagCount>::empty());
    while k < g.len()
        invariant
            k <= g.len(),
            gv == stats_views(g@),
            count_index(gv.take(k as int), t@) is None,
        decreases g.len() - k,
    {
        assert(gv.take(k + 1).drop_last() =~= gv.take(k as int));
        assert(gv.take(k + 1).last() == stats_view(g@[k as int]));
        if crate::text::str_eq(g[k].tag.as_str(), t) {
            proof {
                lemma_count_index(gv.take(k as int), t@);
                lemma_count_prefix(gv, t@, k + 1);
            }
            return Some(k);
        }
        k = k + 1;
    }
    assert(gv.take(k as int) =~= gv);
    None
}

/// A tag first counted within a prefix is counted at the same place in the whole.
proof fn lemma_count_prefix(g: Seq<TagCount>, t: Seq<char>, k: int)
    requires
        0 <= k <= g.len(),
        count_index(g.take(k), t) is Some,
    ensures
        count_index(g, t) == count_index(g.take(k), t),
    decreases g.len() - k,
{
    if k < g.len() {
        assert(g.take(k + 1).drop_last() =~= g.take(k));
        lemma_count_prefix(g, t, k + 1);
    } else {
        assert(g.take(k) =~= g);
    }
}

/// Adds one use to the counts.
fn count_use(g: &mut Vec<TagStats>, tag: &String, path: &String)
    ensures
        stats_views(final(g)@) == (match count_index(stats_views(old(g)@), tag@) {
            Some(i) => stats_views(old(g)@).update(
                i,
                TagCount { tag: tag@, files: stats_views(old(g)@)[i].files.push(path@) },
            ),
            None => stats_views(old(g)@).push(TagCount { tag: tag@, files: seq![path@] }),
        }),
{
    let ghost gv = stats_views(g@);
    match find_count(g, tag.as_str()) {
        Some(i) => {
            proof {
                lemma_count_index(gv, tag@);
            }
            let ghost old_g = g@;
            let mut e = g.remove(i);
            assert(str_views(e.files@) == gv[i as int].files);
            let ghost ef = str_views(e.files@);
            e.files.push(path.clone());
            assert(str_views(e.files@) =~= ef.push(path@));
            g.insert(i, e);
            assert(g@ =~= old_g.update(i as int, e));
            assert(stats_views(g@) =~= gv.update(
                i as int,
                TagCount { tag: tag@, files: gv[i as int].files.push(path@) },
            ));
        },
        None => {
            let mut files: Vec<String> = Vec::new();
            files.push(path.clone());
            let e = TagStats { tag: tag.clone(), files };
            assert(str_views(e.files@) =~= seq![path@]);
            g.push(e);
            assert(stats_views(g@) =~= gv.push(TagCount { tag: tag@, files: seq![path@] }));
        },
    }
}

fn sort_counts(g: Vec<TagStats>) -> (r: Vec<TagStats>)
    ensures
        stats_views(r@) == sorted_counts(stats_views(g@)),
{
    let ghost sv = stats_views(g@);
    assert(sv.len() == g.len());
    let mut rest = g;
    let mut out: Vec<TagStats> = Vec::new();
    let mut k: usize = 0;
    assert(sv.take(0) =~= Seq::<TagCount>::empty());
    assert(sv.skip(0) =~= sv);
    while rest.len() > 0
        invariant
            k <= sv.len(),
            sv.len() <= usize::MAX,
            stats_views(out@) == sorted_counts(sv.take(k as int)),
            stats_views(rest@) == sv.skip(k as int),
        decreases rest.len(),
    {
        let ghost t = stats_views(out@);
        let ghost before_rest = rest@;
        assert(stats_views(rest@).len() == rest@.len());
        assert(before_rest.len() == sv.len() - k);
        let e = rest.remove(0);
        assert(stats_view(e) == sv[k as int]) by {
            assert(stats_views(before_rest)[0] == stats_view(before_rest[0]));
            assert(sv.skip(k as int)[0] == sv[k as int]);
        }
        assert(stats_views(rest@) =~= sv.skip(k + 1)) by {
            assert(rest@.len() == before_rest.len() - 1);
            assert forall|q: int| 0 <= q < rest@.len() implies stats_views(rest@)[q] == sv.skip(k + 1)[q] by {
                assert(rest@[q] == before_rest[q + 1]);
                assert(stats_views(before_rest)[q + 1] == sv.skip(k as int)[q + 1]);
                assert(sv.skip(k as int)[q + 1] == sv.skip(k + 1)[q]);
            }
        }
        let et = chars_of(e.tag.as_str());
        let mut p: usize = 0;
        assert(t.skip(0) =~= t);
        while p < out.len() && (out[p].files.len() > e.files.len() || (out[p].files.len()
            == e.files.len() && lex_le_exec(&chars_of(out[p].tag.as_str()), &et)))
            invariant
                p <= out.len(),
                t == stats_views(out@),
                et@ == e.tag@,
                count_pos(t, stats_view(e)) == p + count_pos(t.skip(p as int), stats_view(e)),
            decreases out.len() - p,
        {
            assert(t.skip(p as int)[0] == t[p as int]);
            assert(t[p as int] == stats_view(out@[p as int]));
            assert(t.skip(p as int).drop_first() =~= t.skip(p + 1));
            p = p + 1;
        }
        proof {
            if p < out.len() {
                assert(t.skip(p as int)[0] == t[p as int]);
                assert(t[p as int] == stats_view(out@[p as int]));
            }
            assert(sv.take(k + 1).drop_last() =~= sv.take(k as int));
            assert(sv.take(k + 1).last() == sv[k as int]);
        }
        let ghost old_out = out@;
        out.insert(p, e);
        assert(stats_views(out@) =~= t.insert(p as int, stats_view(e))) by {
            assert(out@ =~= old_out.insert(p as int, e));
        }
        k = k + 1;
    }
    assert(k == sv.len()) by {
        assert(sv.skip(k as int).len() == 0);
    }
    assert(sv.take(k as int) =~= sv);
    out
}

// ---------------------------------------------------------------------------
// Which notes lie in a folder
// ---------------------------------------------------------------------------

/// A folder given as an optional string, by its characters.
pub open spec fn opt_str(o: Option<&str>) -> Option<Seq<char>> {
    match o {
        Some(f) => Some(f@),
        None => None,
    }
}

/// The prefix a folder filter asks of a note's path: the folder with one `/` at its end.
pub open spec fn folder_prefix(f: Seq<char>) -> Seq<char> {
    if f.len() > 0 && f.last() == '/' {
        f
    } else {
        f.push('/')
    }
}

/// Whether the note at `path` lies in `folder`: anywhere below it when `recursive`, directly in
/// it otherwise. Every note does when no folder is given.
pub open spec fn in_folder(path: Seq<char>, folder: Option<Seq<char>>, recursive: bool) -> bool {
    match folder {
        None => true,
        Some(f) => starts_with(path, folder_prefix(f)) && (recursive || !path.skip(
            folder_prefix(f).len() as int,
        ).contains('/')),
    }
}

/// Whether the note at `path` lies in `folder` (see `in_folder`).
pub fn path_in_folder(path: &str, folder: Option<&str>, recursive: bool) -> (r: bool)
    ensures
        r == in_folder(path@, opt_str(folder), recursive),
{
    match folder {
        None => true,
        Some(f) => {
            let mut p = chars_of(f);
            if !ends_with_char(&p, '/') {
                p.push('/');
            }
            assert(p@ == folder_prefix(f@));
            let s = chars_of(path);
            if !starts_with_exec(&s, &p) {
                return false;
            }
            if recursive {
                return true;
            }
            let k = index_of_from(&s, '/', p.len());
            proof {
                let t = s@.skip(p@.len() as int);
                lemma_index_of_bound(t, '/');
                if index_of(t, '/') < t.len() {
                    assert(t[index_of(t, '/') as int] == '/');
                } else {
                    assert forall|j: int| 0 <= j < t.len() implies t[j] != '/' by {}
                }
            }
            k == s.len()
        }
    }
}

/// Which of `notes` lie in `folder`.
pub open spec fn folder_flags(notes: Seq<TaggedNote>, folder: Option<Seq<char>>, recursive: bool) -> Seq<bool> {
    Seq::new(notes.len(), |k: int| in_folder(notes[k].path@, folder, recursive))
}

/// One flag per note: whether it lies in `folder`.
pub fn notes_in_folder(notes: &Vec<TaggedNote>, folder: Option<&str>, recursive: bool) -> (r: Vec<bool>)
    ensures
        r@ == folder_flags(notes@, opt_str(folder), recursive),
{
    let mut out: Vec<bool> = Vec::new();
    let mut k: usize = 0;
    while k < notes.len()
        invariant
            k <= notes.len(),
            out@ == folder_flags(notes@, opt_str(folder), recursive).take(k as int),
        decreases notes.len() - k,
    {
        let b = path_in_folder(notes[k].path.as_str(), folder, recursive);
        out.push(b);
        assert(out@ =~= folder_flags(notes@, opt_str(folder), recursive).take(k + 1));
        k = k + 1;
    }
    assert(out@ =~= folder_flags(notes@, opt_str(folder), recursive));
    out
}

/// Aggregate tags from notes, optionally only those in `folder` (anywhere below it when
/// `recursive`): for each tag, the paths of the notes that carry it (one per use of the tag, in
/// note order), sorted by number of paths, descending, then by tag.
pub fn aggregate_tags(notes: &Vec<TaggedNote>, folder: Option<&str>, recursive: bool) -> (r: Vec<TagStats>)
    ensures
        stats_views(r@) == tag_stats(notes@, folder_flags(notes@, opt_str(folder), recursive)),
{
    let flags = notes_in_folder(notes, folder, recursive);
    aggregate_tags_where(notes, &flags)
}

/// For each tag of the notes that `in_folder` keeps, the paths of the notes that carry it (one
/// per use of the tag, in note order), sorted by number of paths, descending, then by tag.
/// `in_folder` says which notes are counted.
pub fn aggregate_tags_where(notes: &Vec<TaggedNote>, in_folder: &Vec<bool>) -> (r: Vec<TagStats>)
    requires
        in_folder.len() == notes.len(),
    ensures
        stats_views(r@) == tag_stats(notes@, in_folder@),
{
    let ghost ns = notes@;
    let ghost inc = in_folder@;
    let mut g: Vec<TagStats> = Vec::new();
    let mut k: usize = 0;
    assert(stats_views(g@) =~= grouped(tag_uses(ns, inc, 0)));
    while k < notes.len()
        invariant
            k <= notes.len(),
            ns == notes@,
            inc == in_folder@,
            in_folder.len() == notes.len(),
            stats_views(g@) == grouped(tag_uses(ns, inc, k as nat)),
        decreases notes.len() - k,
    {
        if in_folder[k] {
            let ghost pre = tag_uses(ns, inc, k as nat);
            let ghost us = uses_of(ns[k as int]);
            let mut q: usize = 0;
            assert(pre + us.take(0) =~= pre);
            while q < notes[k].tags.len()
                invariant
                    k < notes.len(),
                    q <= notes[k as int].tags.len(),
                    ns == notes@,
                    us == uses_of(ns[k as int]),
                    stats_views(g@) == grouped(pre + us.take(q as int)),
                decreases notes[k as int].tags.len() - q,
            {
                let ghost cur = pre + us.take(q + 1);
                assert(cur.drop_last() =~= pre + us.take(q as int));
                assert(cur.last() == TagUse { tag: notes@[k as int].tags@[q as int]@, path: notes@[k as int].path@ });
                count_use(&mut g, &notes[k].tags[q], &notes[k].path);
                q = q + 1;
            }
            assert(us.take(q as int) =~= us);
        }
        k = k + 1;
    }
    sort_counts(g)
}

// ---------------------------------------------------------------------------
// What counting keeps
// ---------------------------------------------------------------------------

/// Whether tag `t` is counted in `g`.
pub open spec fn lists_tag(g: Seq<TagCount>, t: Seq<char>) -> bool {
    exists|i: int| 0 <= i < g.len() && (#[trigger] g[i]).tag == t
}

/// Whether one of the uses is of tag `t`.
pub open spec fn uses_tag(us: Seq<TagUse>, t: Seq<char>) -> bool {
    exists|k: int| 0 <= k < us.len() && (#[trigger] us[k]).tag == t
}

proof fn lemma_grouped(us: Seq<TagUse>)
    ensures
        forall|a: int, b: int|
            0 <= a < b < grouped(us).len() ==> (#[trigger] grouped(us)[a]).tag != (
            #[trigger] grouped(us)[b]).tag,
        forall|i: int| 0 <= i < grouped(us).len() ==> (#[trigger] grouped(us)[i]).files.len() >= 1,
        forall|t: Seq<char>| #[trigger] lists_tag(grouped(us), t) <==> uses_tag(us, t),
    decreases us.len(),
{
    if us.len() > 0 {
        let g = grouped(us.drop_last());
        let u = us.last();
        lemma_grouped(us.drop_last());
        lemma_count_index(g, u.tag);
        let h = grouped(us);
        assert forall|t: Seq<char>| #[trigger] lists_tag(h, t) <==> uses_tag(us, t) by {
            if exists|i: int| 0 <= i < h.len() && (#[trigger] h[i]).tag == t {
                let i = choose|i: int| 0 <= i < h.len() && (#[trigger] h[i]).tag == t;
                if t == u.tag {
                    assert(us[us.len() - 1].tag == t);
                } else {
                    assert(i < g.len() && g[i].tag == t);
                    assert(lists_tag(g, t));
                    let k = choose|k: int|
                        0 <= k < us.drop_last().len() && (#[trigger] us.drop_last()[k]).tag == t;
                    assert(us[k] == us.drop_last()[k]);
                }
            }
            if exists|k: int| 0 <= k < us.len() && (#[trigger] us[k]).tag == t {
                let k = choose|k: int| 0 <= k < us.len() && (#[trigger] us[k]).tag == t;
                if k == us.len() - 1 {
                    match count_index(g, u.tag) {
                        Some(i) => {
                            assert(h[i].tag == t);
                        },
                        None => {
                            assert(h[g.len() as int].tag == t);
                        },
                    }
                } else {
                    assert(us.drop_last()[k] == us[k]);
                    assert(uses_tag(us.drop_last(), t));
                    assert(lists_tag(g, t));
                    let i = choose|i: int| 0 <= i < g.len() && (#[trigger] g[i]).tag == t;
                    match count_index(g, u.tag) {
                        Some(x) => {
                            assert(h[i].tag == t);
                        },
                        None => {
                            assert(h[i] == g[i]);
                        },
                    }
                }
            }
        }
    }
}

proof fn lemma_count_pos(t: Seq<TagCount>, x: TagCount)
    ensures
        count_pos(t, x) <= t.len(),
        forall|k: int| 0 <= k < count_pos(t, x) ==> count_before(#[trigger] t[k], x),
        count_pos(t, x) < t.len() ==> !count_before(t[count_pos(t, x) as int], x),
    decreases t.len(),
{
    if t.len() > 0 && count_before(t[0], x) {
        lemma_count_pos(t.drop_first(), x);
        assert forall|k: int| 0 <= k < count_pos(t, x) implies count_before(#[trigger] t[k], x) by {
            if k > 0 {
                assert(t[k] == t.drop_first()[k - 1]);
            }
        }
        if count_pos(t, x) < t.len() {
            assert(t[count_pos(t, x) as int] == t.drop_first()[count_pos(t.drop_first(), x) as int]);
        }
    }
}

proof fn lemma_count_total(a: TagCount, b: TagCount)
    ensures
        count_before(a, b) || count_before(b, a),
{
    lemma_lex_total(a.tag, b.tag);
}

proof fn lemma_count_trans(a: TagCount, b: TagCount, c: TagCount)
    requires
        count_before(a, b),
        count_before(b, c),
    ensures
        count_before(a, c),
{
    if a.files.len() == b.files.len() && b.files.len() == c.files.len() {
        lemma_lex_trans(a.tag, b.tag, c.tag);
    }
}

proof fn lemma_sorted_counts(s: Seq<TagCount>)
    requires
        forall|a: int, b: int| 0 <= a < b < s.len() ==> (#[trigger] s[a]).tag != (#[trigger] s[b]).tag,
    ensures
        sorted_counts(s).len() == s.len(),
        forall|x: TagCount| sorted_counts(s).contains(x) <==> s.contains(x),
        forall|a: int, b: int|
            0 <= a < b < sorted_counts(s).len() ==> (#[trigger] sorted_counts(s)[a]).tag != (
            #[trigger] sorted_counts(s)[b]).tag,
        forall|a: int, b: int|
            0 <= a < b < sorted_counts(s).len() ==> count_before(
                #[trigger] sorted_counts(s)[a],
                #[trigger] sorted_counts(s)[b],
            ),
    decreases s.len(),
{
    if s.len() > 0 {
        let x = s.last();
        let d = s.drop_last();
        assert forall|a: int, b: int| 0 <= a < b < d.len() implies (#[trigger] d[a]).tag != (
        #[trigger] d[b]).tag by {
            assert(d[a] == s[a] && d[b] == s[b]);
        }
        lemma_sorted_counts(d);
        let t = sorted_counts(d);
        lemma_count_pos(t, x);
        let p = count_pos(t, x) as int;
        let u = t.insert(p, x);
        assert forall|k: int| 0 <= k < t.len() implies (#[trigger] t[k]).tag != x.tag by {
            assert(t.contains(t[k]));
            assert(d.contains(t[k]));
            let q = choose|q: int| 0 <= q < d.len() && d[q] == t[k];
            assert(s[q] == d[q]);
        }
        assert forall|y: TagCount| u.contains(y) <==> s.contains(y) by {
            if u.contains(y) {
                let q = choose|q: int| 0 <= q < u.len() && u[q] == y;
                if q != p {
                    let r = if q < p { q } else { q - 1 };
                    assert(u[q] == t[r]);
                    assert(t.contains(y));
                    assert(d.contains(y));
                    let z = choose|z: int| 0 <= z < d.len() && d[z] == y;
                    assert(s[z] == y);
                } else {
                    assert(s[s.len() - 1] == y);
                }
            }
            if s.contains(y) {
                let q = choose|q: int| 0 <= q < s.len() && s[q] == y;
                if q < s.len() - 1 {
                    assert(d[q] == y);
                    assert(d.contains(y));
                    assert(t.contains(y));
                    let r = choose|r: int| 0 <= r < t.len() && t[r] == y;
                    if r < p {
                        assert(u[r] == y);
                    } else {
                        assert(u[r + 1] == y);
                    }
                } else {
                    assert(u[p] == y);
                }
            }
        }
        assert forall|a: int, b: int| 0 <= a < b < u.len() implies (#[trigger] u[a]).tag != (
        #[trigger] u[b]).tag by {
            if b < p {
                assert(u[a] == t[a] && u[b] == t[b]);
            } else if b == p {
                assert(u[a] == t[a]);
            } else if a < p {
                assert(u[a] == t[a] && u[b] == t[b - 1]);
            } else if a == p {
                assert(u[b] == t[b - 1]);
            } else {
                assert(u[a] == t[a - 1] && u[b] == t[b - 1]);
            }
        }
        assert forall|a: int, b: int| 0 <= a < b < u.len() implies count_before(
            #[trigger] u[a],
            #[trigger] u[b],
        ) by {
            if p < t.len() {
                lemma_count_total(t[p], x);
            }
            if b < p {
                assert(u[a] == t[a] && u[b] == t[b]);
            } else if b == p {
                assert(u[a] == t[a]);
            } else if a < p {
                assert(u[a] == t[a] && u[b] == t[b - 1]);
                if b - 1 > p {
                    lemma_count_trans(x, t[p], t[b - 1]);
                }
                lemma_count_trans(t[a], x, t[b - 1]);
            } else if a == p {
                assert(u[b] == t[b - 1]);
                if b - 1 > p {
                    lemma_count_trans(x, t[p], t[b - 1]);
                }
            } else {
                assert(u[a] == t[a - 1] && u[b] == t[b - 1]);
            }
        }
    }
}

/// The paths of the uses of tag `t`, in order.
pub open spec fn paths_with(us: Seq<TagUse>, t: Seq<char>) -> Seq<Seq<char>>
    decreases us.len(),
{
    if us.len() == 0 {
        Seq::empty()
    } else if us.last().tag == t {
        paths_with(us.drop_last(), t).push(us.last().path)
    } else {
        paths_with(us.drop_last(), t)
    }
}

proof fn lemma_paths_without(us: Seq<TagUse>, t: Seq<char>)
    requires
        !uses_tag(us, t),
    ensures
        paths_with(us, t) == Seq::<Seq<char>>::empty(),
    decreases us.len(),
{
    if us.len() > 0 {
        assert(us[us.len() - 1].tag != t);
        assert(!uses_tag(us.drop_last(), t)) by {
            if uses_tag(us.drop_last(), t) {
                let k = choose|k: int| 0 <= k < us.drop_last().len() && (#[trigger] us.drop_last()[k]).tag == t;
                assert(us[k] == us.drop_last()[k]);
            }
        }
        lemma_paths_without(us.drop_last(), t);
    }
}

proof fn lemma_grouped_files(us: Seq<TagUse>)
    ensures
        forall|i: int|
            0 <= i < grouped(us).len() ==> (#[trigger] grouped(us)[i]).files == paths_with(
                us,
                grouped(us)[i].tag,
            ),
    decreases us.len(),
{
    if us.len() > 0 {
        let prev = us.drop_last();
        let g = grouped(prev);
        let u = us.last();
        lemma_grouped_files(prev);
        lemma_grouped(prev);
        lemma_count_index(g, u.tag);
        let h = grouped(us);
        match count_index(g, u.tag) {
            Some(i) => {
                assert forall|j: int| 0 <= j < h.len() implies (#[trigger] h[j]).files == paths_with(
                    us,
                    h[j].tag,
                ) by {
                    if j != i {
                        assert(h[j] == g[j]);
                        if j < i {
                            assert(g[j].tag != g[i].tag);
                        } else {
                            assert(g[i].tag != g[j].tag);
                        }
                    }
                }
            },
            None => {
                assert(!lists_tag(g, u.tag));
                lemma_paths_without(prev, u.tag);
                assert forall|j: int| 0 <= j < h.len() implies (#[trigger] h[j]).files == paths_with(
                    us,
                    h[j].tag,
                ) by {
                    if j < g.len() {
                        assert(h[j] == g[j]);
                    } else {
                        assert(Seq::<Seq<char>>::empty().push(u.path) =~= seq![u.path]);
                    }
                }
            },
        }
    }
}

/// Each counted tag lists the path of a note once per use of the tag in it, in note order.
pub proof fn law_tag_files_follow_uses(ns: Seq<TaggedNote>, inc: Seq<bool>)
    ensures
        forall|i: int|
            0 <= i < tag_stats(ns, inc).len() ==> (#[trigger] tag_stats(ns, inc)[i]).files
                == paths_with(tag_uses(ns, inc, ns.len()), tag_stats(ns, inc)[i].tag),
{
    let us = tag_uses(ns, inc, ns.len());
    let g = grouped(us);
    lemma_grouped(us);
    lemma_grouped_files(us);
    lemma_sorted_counts(g);
    let r = tag_stats(ns, inc);
    assert forall|i: int| 0 <= i < r.len() implies (#[trigger] r[i]).files == paths_with(
        us,
        r[i].tag,
    ) by {
        assert(r.contains(r[i]));
        assert(g.contains(r[i]));
        let j = choose|j: int| 0 <= j < g.len() && g[j] == r[i];
        assert(g[j].files == paths_with(us, g[j].tag));
    }
}

/// Counted tags come out ranked (more notes first, then by tag), each tag once and with at
/// least one note, and a tag is listed exactly when a kept note carries it.
pub proof fn law_tag_stats(ns: Seq<TaggedNote>, inc: Seq<bool>)
    ensures
        forall|a: int, b: int|
            0 <= a < b < tag_stats(ns, inc).len() ==> count_before(
                #[trigger] tag_stats(ns, inc)[a],
                #[trigger] tag_stats(ns, inc)[b],
            ),
        forall|a: int, b: int|
            0 <= a < b < tag_stats(ns, inc).len() ==> (#[trigger] tag_stats(ns, inc)[a]).tag != (
            #[trigger] tag_stats(ns, inc)[b]).tag,
        forall|i: int|
            0 <= i < tag_stats(ns, inc).len() ==> (#[trigger] tag_stats(ns, inc)[i]).files.len()
                >= 1,
        forall|t: Seq<char>| #[trigger] lists_tag(tag_stats(ns, inc), t) <==> uses_tag(
            tag_uses(ns, inc, ns.len()),
            t,
        ),
{
    let us = tag_uses(ns, inc, ns.len());
    let g = grouped(us);
    lemma_grouped(us);
    lemma_sorted_counts(g);
    let r = tag_stats(ns, inc);
    assert forall|i: int| 0 <= i < r.len() implies (#[trigger] r[i]).files.len() >= 1 by {
        assert(r.contains(r[i]));
        assert(g.contains(r[i]));
    }
    assert forall|t: Seq<char>| #[trigger] lists_tag(r, t) <==> lists_tag(g, t) by {
        if exists|i: int| 0 <= i < r.len() && (#[trigger] r[i]).tag == t {
            let i = choose|i: int| 0 <= i < r.len() && (#[trigger] r[i]).tag == t;
            assert(r.contains(r[i]));
            assert(g.contains(r[i]));
            let j = choose|j: int| 0 <= j < g.len() && g[j] == r[i];
            assert(g[j].tag == t);
        }
        if exists|i: int| 0 <= i < g.len() && (#[trigger] g[i]).tag == t {
            let i = choose|i: int| 0 <= i < g.len() && (#[trigger] g[i]).tag == t;
            assert(g.contains(g[i]));
            assert(r.contains(g[i]));
            let j = choose|j: int| 0 <= j < r.len() && r[j] == g[i];
            assert(r[j].tag == t);
        }
    }
}

// ---------------------------------------------------------------------------
// Browsing by tags
// ---------------------------------------------------------------------------

/// The notes that carry every required tag (compared as `tags_match` compares), in order.
pub open spec fn tagged_with(ns: Seq<TaggedNote>, req: Seq<String>) -> Seq<TaggedNote>
    decreases ns.len(),
{
    if ns.len() == 0 {
        ns
    } else {
        let t = tagged_with(ns.drop_last(), req);
        if has_all_tags(ns.last().tags@, req) {
            t.push(ns.last())
        } else {
            t
        }
    }
}

/// The notes a browse keeps: those with the required tags when tags are given, at most
/// `limit` of them.
pub open spec fn browsed(ns: Seq<TaggedNote>, tags: Option<Seq<String>>, limit: nat) -> Seq<TaggedNote> {
    let kept = match tags {
        Some(req) => tagged_with(ns, req),
        None => ns,
    };
    if limit < kept.len() {
        kept.take(limit as int)
    } else {
        kept
    }
}

/// Filter browse-mode notes by tags, then truncate to limit.
pub fn filter_browse_results(docs: &mut Vec<TaggedNote>, tags: Option<&[String]>, limit: usize)
    ensures
        final(docs)@ == browsed(
            old(docs)@,
            match tags {
                Some(t) => Some(t@),
                None => None,
            },
            limit as nat,
        ),
{
    let ghost orig = docs@;
    if let Some(required) = tags {
        let mut i: usize = 0;
        let ghost mut used: int = 0;
        assert(orig.take(0) =~= Seq::<TaggedNote>::empty());
        assert(orig.skip(0) =~= orig);
        while i < docs.len()
            invariant
                0 <= used <= orig.len(),
                i <= docs.len(),
                docs@.take(i as int) == tagged_with(orig.take(used), required@),
                docs@.skip(i as int) == orig.skip(used),
            decreases docs.len() - i,
        {
            let ghost before = docs@;
            assert(before.skip(i as int).len() == orig.skip(used).len());
            assert(before.len() - i == orig.len() - used);
            assert(used < orig.len());
            assert(orig.skip(used)[0] == orig[used]);
            assert(before[i as int] == before.skip(i as int)[0]);
            assert(orig.take(used + 1).drop_last() =~= orig.take(used));
            assert(orig.take(used + 1).last() == orig[used]);
            if tags_match(docs[i].tags.as_slice(), required) {
                assert(before.take(i + 1) =~= before.take(i as int).push(before[i as int]));
                assert(before.skip(i + 1) =~= orig.skip(used + 1)) by {
                    assert forall|q: int| 0 <= q < before.skip(i + 1).len() implies #[trigger] before.skip(i + 1)[q]
                        == orig.skip(used + 1)[q] by {
                        assert(before.skip(i + 1)[q] == before.skip(i as int)[q + 1]);
                        assert(orig.skip(used + 1)[q] == orig.skip(used)[q + 1]);
                    }
                }
                i = i + 1;
            } else {
                docs.remove(i);
                assert(docs@.take(i as int) =~= before.take(i as int));
                assert(docs@.skip(i as int) =~= orig.skip(used + 1)) by {
                    assert forall|q: int| 0 <= q < docs@.skip(i as int).len() implies #[trigger] docs@.skip(i as int)[q]
                        == orig.skip(used + 1)[q] by {
                        assert(docs@.skip(i as int)[q] == before.skip(i as int)[q + 1]);
                        assert(orig.skip(used + 1)[q] == orig.skip(used)[q + 1]);
                    }
                }
            }
            proof {
                used = used + 1;
            }
        }
        assert(used == orig.len()) by {
            assert(docs@.skip(i as int).len() == 0);
        }
        assert(orig.take(used) =~= orig);
        assert(docs@.take(i as int) =~= docs@);
    }
    docs.truncate(limit);
}


proof fn lemma_tagged_with(ns: Seq<TaggedNote>, req: Seq<String>)
    ensures
        tagged_with(ns, req).len() <= ns.len(),
        forall|k: int|
            0 <= k < tagged_with(ns, req).len() ==> has_all_tags(
                (#[trigger] tagged_with(ns, req)[k]).tags@,
                req,
            ) && ns.contains(tagged_with(ns, req)[k]),
        forall|k: int|
            0 <= k < ns.len() && has_all_tags((#[trigger] ns[k]).tags@, req) ==> tagged_with(
                ns,
                req,
            ).contains(ns[k]),
    decreases ns.len(),
{
    if ns.len() > 0 {
        let d = ns.drop_last();
        let t = tagged_with(d, req);
        lemma_tagged_with(d, req);
        let u = tagged_with(ns, req);
        assert forall|k: int| 0 <= k < u.len() implies has_all_tags((#[trigger] u[k]).tags@, req)
            && ns.contains(u[k]) by {
            if k < t.len() {
                assert(u[k] == t[k]);
                let q = choose|q: int| 0 <= q < d.len() && d[q] == t[k];
                assert(ns[q] == d[q]);
            } else {
                assert(ns[ns.len() - 1] == u[k]);
            }
        }
        assert forall|k: int| 0 <= k < ns.len() && has_all_tags((#[trigger] ns[k]).tags@, req)
            implies u.contains(ns[k]) by {
            if k < ns.len() - 1 {
                assert(d[k] == ns[k]);
                assert(t.contains(ns[k]));
                let q = choose|q: int| 0 <= q < t.len() && t[q] == ns[k];
                if u != t {
                    assert(u[q] == t[q]);
                }
            } else {
                assert(u[t.len() as int] == ns[k]);
            }
        }
    }
}

/// A browse keeps at most `limit` notes, each one of the given notes that carries all the
/// required tags; with fewer such notes than the limit it keeps every one.
pub proof fn law_browse_keeps_tagged_notes(ns: Seq<TaggedNote>, req: Seq<String>, limit: nat)
    ensures
        browsed(ns, Some(req), limit).len() <= limit,
        forall|k: int|
            0 <= k < browsed(ns, Some(req), limit).len() ==> has_all_tags(
                (#[trigger] browsed(ns, Some(req), limit)[k]).tags@,
                req,
            ) && ns.contains(browsed(ns, Some(req), limit)[k]),
        tagged_with(ns, req).len() <= limit ==> forall|k: int|
            0 <= k < ns.len() && has_all_tags((#[trigger] ns[k]).tags@, req) ==> browsed(
                ns,
                Some(req),
                limit,
            ).contains(ns[k]),
{
    lemma_tagged_with(ns, req);
    let t = tagged_with(ns, req);
    let b = browsed(ns, Some(req), limit);
    assert forall|k: int| 0 <= k < b.len() implies has_all_tags((#[trigger] b[k]).tags@, req)
        && ns.contains(b[k]) by {
        assert(b[k] == t[k]);
    }
}


// ---------------------------------------------------------------------------
// Listing tags
// ---------------------------------------------------------------------------

/// The counts as (tag, paths) entries.
pub open spec fn count_entries(s: Seq<TagCount>) -> Seq<(Seq<char>, Seq<Seq<char>>)> {
    s.map_values(|c: TagCount| (c.tag, c.files))
}

/// Lists the tags of the notes that lie in the input's folder (anywhere below it when the input
/// is recursive), as the tag listing tool reports them: the number of tags and the listing in
/// the input's detail, headed with its folder.
pub fn list_tags(notes: &Vec<TaggedNote>, input: &ListTagsInput) -> (r: (usize, String))
    ensures
        r.0 == tag_stats(notes@, folder_flags(notes@, opt_view(input.folder), input.recursive)).len(),
        r.1@ == tag_list_text(
            count_entries(
                tag_stats(notes@, folder_flags(notes@, opt_view(input.folder), input.recursive)),
            ),
            input.detail,
            opt_view(input.folder),
        ),
{
    let folder: Option<&str> = match &input.folder {
        Some(f) => Some(f.as_str()),
        None => None,
    };
    assert(opt_str(folder) == opt_view(input.folder));
    let stats = aggregate_tags(notes, folder, input.recursive);
    let ghost sv = stats_views(stats@);
    let mut rest = stats;
    let mut pairs: Vec<(String, Vec<String>)> = Vec::new();
    let mut k: usize = 0;
    assert(sv.len() == rest.len());
    assert(sv.skip(0) =~= sv);
    assert(crate::format::tag_entries(pairs@) =~= count_entries(sv.take(0)));
    while rest.len() > 0
        invariant
            k <= sv.len(),
            sv.len() <= usize::MAX,
            stats_views(rest@) == sv.skip(k as int),
            crate::format::tag_entries(pairs@) == count_entries(sv.take(k as int)),
        decreases rest.len(),
    {
        let ghost before = rest@;
        assert(stats_views(before).len() == before.len());
        assert(before.len() == sv.len() - k);
        let e = rest.remove(0);
        assert(stats_view(e) == sv[k as int]) by {
            assert(stats_views(before)[0] == stats_view(before[0]));
            assert(sv.skip(k as int)[0] == sv[k as int]);
        }
        assert(stats_views(rest@) =~= sv.skip(k + 1)) by {
            assert(rest@.len() == before.len() - 1);
            assert forall|q: int| 0 <= q < rest@.len() implies #[trigger] stats_views(rest@)[q]
                == sv.skip(k + 1)[q] by {
                assert(rest@[q] == before[q + 1]);
                assert(stats_views(before)[q + 1] == sv.skip(k as int)[q + 1]);
                assert(sv.skip(k as int)[q + 1] == sv.skip(k + 1)[q]);
            }
        }
        let ghost prev = pairs@;
        let pair = (e.tag, e.files);
        pairs.push(pair);
        assert(crate::format::tag_entries(pairs@) =~= crate::format::tag_entries(prev).push(
            (pair.0@, pair.1@.map_values(|f: String| f@)),
        ));
        assert(sv.take(k + 1) =~= sv.take(k as int).push(sv[k as int]));
        assert(count_entries(sv.take(k + 1)) =~= count_entries(sv.take(k as int)).push(
            (sv[k as int].tag, sv[k as int].files),
        ));
        k = k + 1;
    }
    assert(k == sv.len()) by {
        assert(sv.skip(k as int).len() == 0);
    }
    assert(sv.take(k as int) =~= sv);
    let count = pairs.len();
    assert(crate::format::tag_entries(pairs@).len() == pairs@.len());
    let text = format_list_tags(pairs.as_slice(), input.detail, folder);
    (count, text)
}

} // verus!

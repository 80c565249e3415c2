//! Breadth-first exploration of the links between notes: which notes a note is linked with,
//! how they are ranked, and the tree of connections that exploring from one note shows.
use vstd::prelude::*;
use crate::explore::{last_crumb, note_section_from_breadcrumb, ConnectionDirection, ExploreConnectionsInput};
use crate::types::{opt_view, Link};
use crate::inputs::ExploreFilterMode;
use crate::text::{chars_of, eq_chars, str_views, views};
use crate::tree::{lemma_lex_total, lemma_lex_trans, lex_le, lex_le_exec};

verus! {

/// What exploring reads of a note: its path, the paths it links to, and the paths of the notes
/// that link to it.
pub struct LinkedNote {
    pub path: String,
    pub outgoing_links: Vec<String>,
    pub backlinks: Vec<String>,
}

// ---------------------------------------------------------------------------
// Finding a note by path
// ---------------------------------------------------------------------------

/// The note a path names: the last note with that path, as a map keyed by path keeps it.
pub open spec fn note_at(ns: Seq<LinkedNote>, p: Seq<char>) -> Option<int>
    decreases ns.len(),
{
    if ns.len() == 0 {
        None
    } else if ns.last().path@ == p {
        Some(ns.len() - 1)
    } else {
        note_at(ns.drop_last(), p)
    }
}

pub proof fn lemma_note_at(ns: Seq<LinkedNote>, p: Seq<char>)
    ensures
        match note_at(ns, p) {
            Some(j) => 0 <= j < ns.len() && ns[j].path@ == p && forall|k: int|
                j < k < ns.len() ==> (#[trigger] ns[k]).path@ != p,
            None => forall|k: int| 0 <= k < ns.len() ==> (#[trigger] ns[k]).path@ != p,
        },
    decreases ns.len(),
{
    if ns.len() > 0 && ns.last().path@ != p {
        lemma_note_at(ns.drop_last(), p);
        assert forall|k: int| 0 <= k < ns.len() - 1 implies ns.drop_last()[k] == ns[k] by {}
    }
}

/// The paths of the notes.
pub open spec fn note_paths(ns: Seq<LinkedNote>) -> Seq<Seq<char>> {
    ns.map_values(|n: LinkedNote| n.path@)
}

/// The notes' paths and links as characters, read once.
struct Chars {
    paths: Vec<Vec<char>>,
    outgoing: Vec<Vec<Vec<char>>>,
    backlinks: Vec<Vec<Vec<char>>>,
}

impl Chars {
    spec fn of(self, ns: Seq<LinkedNote>) -> bool {
        &&& views(self.paths@) == note_paths(ns)
        &&& self.paths.len() == ns.len()
        &&& self.outgoing.len() == ns.len()
        &&& self.backlinks.len() == ns.len()
        &&& forall|k: int|
            0 <= k < ns.len() ==> views((#[trigger] self.outgoing@[k])@) == str_views(
                ns[k].outgoing_links@,
            )
        &&& forall|k: int|
            0 <= k < ns.len() ==> views((#[trigger] self.backlinks@[k])@) == str_views(
                ns[k].backlinks@,
            )
    }
}

fn read_chars(ns: &Vec<LinkedNote>) -> (r: Chars)
    ensures
        r.of(ns@),
{
    let mut paths: Vec<Vec<char>> = Vec::new();
    let mut outgoing: Vec<Vec<Vec<char>>> = Vec::new();
    let mut backlinks: Vec<Vec<Vec<char>>> = Vec::new();
    let mut k: usize = 0;
    while k < ns.len()
        invariant
            k <= ns.len(),
            views(paths@) == note_paths(ns@).take(k as int),
            outgoing.len() == k,
            backlinks.len() == k,
            forall|q: int|
                0 <= q < k ==> views((#[trigger] outgoing@[q])@) == str_views(
                    ns@[q].outgoing_links@,
                ),
            forall|q: int|
                0 <= q < k ==> views((#[trigger] backlinks@[q])@) == str_views(
                    ns@[q].backlinks@,
                ),
        decreases ns.len() - k,
    {
        let p = chars_of(ns[k].path.as_str());
        let ghost prev = views(paths@);
        let ghost pv = p@;
        paths.push(p);
        assert(views(paths@) =~= prev.push(pv));
        assert(note_paths(ns@).take(k + 1) =~= note_paths(ns@).take(k as int).push(ns@[k as int].path@));
        outgoing.push(crate::text::chars_of_all(ns[k].outgoing_links.as_slice()));
        backlinks.push(crate::text::chars_of_all(ns[k].backlinks.as_slice()));
        k = k + 1;
    }
    assert(note_paths(ns@).take(ns.len() as int) =~= note_paths(ns@));
    assert(views(paths@).len() == paths.len());
    Chars { paths, outgoing, backlinks }
}

/// The note that `p` names, if any.
fn find_note(paths: &Vec<Vec<char>>, p: &Vec<char>, Ghost(ns): Ghost<Seq<LinkedNote>>) -> (r: Option<usize>)
    requires
        views(paths@) == note_paths(ns),
    ensures
        match r {
            Some(j) => note_at(ns, p@) == Some(j as int),
            None => note_at(ns, p@) is None,
        },
{
    let mut k: usize = paths.len();
    assert(views(paths@).len() == paths@.len());
    assert(note_paths(ns).len() == ns.len());
    assert(ns.take(k as int) =~= ns);
    while k > 0
        invariant
            k <= paths.len() == ns.len(),
            views(paths@) == note_paths(ns),
            note_at(ns, p@) == note_at(ns.take(k as int), p@),
        decreases k,
    {
        assert(paths@[k - 1]@ == views(paths@)[k - 1]);
        assert(ns.take(k as int).last() == ns[k - 1]);
        if eq_chars(&paths[k - 1], p) {
            return Some(k - 1);
        }
        assert(ns.take(k as int).drop_last() =~= ns.take(k - 1));
        k = k - 1;
    }
    None
}

// ---------------------------------------------------------------------------
// The notes a note is linked with
// ---------------------------------------------------------------------------

/// The link paths of note `i`: the paths it links to, then those of the notes linking to it.
pub open spec fn link_paths(ns: Seq<LinkedNote>, i: int) -> Seq<Seq<char>> {
    str_views(ns[i].outgoing_links@) + str_views(ns[i].backlinks@)
}

/// The notes that paths name, each once, in the order they are first named; a path that names
/// no note is passed over.
pub open spec fn named_notes(ns: Seq<LinkedNote>, ps: Seq<Seq<char>>) -> Seq<int>
    decreases ps.len(),
{
    if ps.len() == 0 {
        Seq::empty()
    } else {
        let t = named_notes(ns, ps.drop_last());
        match note_at(ns, ps.last()) {
            Some(j) => if t.contains(j) {
                t
            } else {
                t.push(j)
            },
            None => t,
        }
    }
}

/// The notes note `i` is linked with, either way, each once.
pub open spec fn linked_notes(ns: Seq<LinkedNote>, i: int) -> Seq<int> {
    named_notes(ns, link_paths(ns, i))
}

/// How many notes note `i` is linked with.
pub open spec fn degree(ns: Seq<LinkedNote>, i: int) -> nat {
    linked_notes(ns, i).len()
}

/// How note `i` is linked with note `j`: it links to `j`, `j` links to it, or both.
pub open spec fn direction_between(ns: Seq<LinkedNote>, i: int, j: int) -> ConnectionDirection {
    let o = str_views(ns[i].outgoing_links@).contains(ns[j].path@);
    let b = str_views(ns[i].backlinks@).contains(ns[j].path@);
    if o && b {
        ConnectionDirection::Both
    } else if o {
        ConnectionDirection::Outgoing
    } else {
        ConnectionDirection::Backlink
    }
}

pub proof fn lemma_named_notes(ns: Seq<LinkedNote>, ps: Seq<Seq<char>>)
    ensures
        named_notes(ns, ps).no_duplicates(),
        forall|j: int|
            named_notes(ns, ps).contains(j) <==> (exists|k: int|
                0 <= k < ps.len() && #[trigger] note_at(ns, ps[k]) == Some(j)),
        forall|q: int|
            0 <= q < named_notes(ns, ps).len() ==> 0 <= #[trigger] named_notes(ns, ps)[q]
                < ns.len(),
    decreases ps.len(),
{
    if ps.len() > 0 {
        let t = named_notes(ns, ps.drop_last());
        let u = named_notes(ns, ps);
        lemma_named_notes(ns, ps.drop_last());
        lemma_note_at(ns, ps.last());
        assert forall|j: int| u.contains(j) implies (exists|k: int|
            0 <= k < ps.len() && #[trigger] note_at(ns, ps[k]) == Some(j)) by {
            if t.contains(j) {
                let k = choose|k: int|
                    0 <= k < ps.drop_last().len() && #[trigger] note_at(ns, ps.drop_last()[k])
                        == Some(j);
                assert(ps.drop_last()[k] == ps[k]);
                assert(note_at(ns, ps[k]) == Some(j));
            } else {
                assert(note_at(ns, ps[ps.len() - 1]) == Some(j));
            }
        }
        assert forall|j: int| (exists|k: int|
            0 <= k < ps.len() && #[trigger] note_at(ns, ps[k]) == Some(j)) implies u.contains(j) by {
            let k = choose|k: int| 0 <= k < ps.len() && #[trigger] note_at(ns, ps[k]) == Some(j);
            if k < ps.len() - 1 {
                assert(ps.drop_last()[k] == ps[k]);
                assert(note_at(ns, ps.drop_last()[k]) == Some(j));
                assert(t.contains(j));
                let r = choose|r: int| 0 <= r < t.len() && t[r] == j;
                match note_at(ns, ps.last()) {
                    Some(x) => {
                        if !t.contains(x) {
                            assert(t.push(x)[r] == t[r]);
                        }
                    },
                    None => {},
                }
            } else {
                assert(ps[k] == ps.last());
                if !t.contains(j) {
                    assert(t.push(j)[t.len() as int] == j);
                }
            }
        }
        match note_at(ns, ps.last()) {
            Some(j) => {
                if !t.contains(j) {
                    assert forall|q: int| 0 <= q < t.push(j).len() implies 0 <= #[trigger] t.push(
                        j,
                    )[q] < ns.len() by {
                        if q < t.len() {
                            assert(t.push(j)[q] == t[q]);
                        }
                    }
                }
            },
            None => {},
        }
    }
}

/// Adds to `acc` the notes that `ps` names and `acc` does not hold yet.
fn add_named(
    paths: &Vec<Vec<char>>,
    acc: &mut Vec<usize>,
    ps: &Vec<Vec<char>>,
    Ghost(ns): Ghost<Seq<LinkedNote>>,
    Ghost(before): Ghost<Seq<Seq<char>>>,
)
    requires
        views(paths@) == note_paths(ns),
        old(acc)@.map_values(|x: usize| x as int) == named_notes(ns, before),
    ensures
        final(acc)@.map_values(|x: usize| x as int) == named_notes(ns, before + views(ps@)),
{
    let mut k: usize = 0;
    assert(before + views(ps@).take(0) =~= before);
    while k < ps.len()
        invariant
            k <= ps.len(),
            views(paths@) == note_paths(ns),
            acc@.map_values(|x: usize| x as int) == named_notes(
                ns,
                before + views(ps@).take(k as int),
            ),
        decreases ps.len() - k,
    {
        let ghost pre = before + views(ps@).take(k as int);
        let ghost cur = before + views(ps@).take(k + 1);
        assert(cur.drop_last() =~= pre);
        assert(cur.last() == ps@[k as int]@);
        match find_note(paths, &ps[k], Ghost(ns)) {
            Some(j) => {
                let mut found = false;
                let mut q: usize = 0;
                while q < acc.len()
                    invariant
                        q <= acc.len(),
                        found == exists|r: int| 0 <= r < q && acc@[r] == j,
                    decreases acc.len() - q,
                {
                    if acc[q] == j {
                        found = true;
                    }
                    q = q + 1;
                }
                let ghost t = acc@.map_values(|x: usize| x as int);
                if found {
                    proof {
                        let r = choose|r: int| 0 <= r < acc.len() && acc@[r] == j;
                        assert(t[r] == j as int);
                    }
                } else {
                    assert(!t.contains(j as int)) by {
                        if t.contains(j as int) {
                            let r = choose|r: int| 0 <= r < t.len() && t[r] == j as int;
                            assert(acc@[r] == j);
                        }
                    }
                    acc.push(j);
                    assert(acc@.map_values(|x: usize| x as int) =~= t.push(j as int));
                }
            },
            None => {},
        }
        k = k + 1;
    }
    assert(views(ps@).take(ps.len() as int) =~= views(ps@));
}

/// The notes note `i` is linked with.
fn linked_notes_exec(c: &Chars, i: usize, Ghost(ns): Ghost<Seq<LinkedNote>>) -> (r: Vec<usize>)
    requires
        c.of(ns),
        i < ns.len(),
    ensures
        r@.map_values(|x: usize| x as int) == linked_notes(ns, i as int),
{
    let mut acc: Vec<usize> = Vec::new();
    assert(acc@.map_values(|x: usize| x as int) =~= named_notes(ns, Seq::empty()));
    add_named(&c.paths, &mut acc, &c.outgoing[i], Ghost(ns), Ghost(Seq::empty()));
    assert(Seq::<Seq<char>>::empty() + views(c.outgoing@[i as int]@) =~= str_views(
        ns[i as int].outgoing_links@,
    ));
    add_named(
        &c.paths,
        &mut acc,
        &c.backlinks[i],
        Ghost(ns),
        Ghost(str_views(ns[i as int].outgoing_links@)),
    );
    acc
}

fn direction_exec(c: &Chars, i: usize, j: usize, Ghost(ns): Ghost<Seq<LinkedNote>>) -> (r:
    ConnectionDirection)
    requires
        c.of(ns),
        i < ns.len(),
        j < ns.len(),
    ensures
        r == direction_between(ns, i as int, j as int),
{
    assert(c.paths@[j as int]@ == views(c.paths@)[j as int]);
    let o = crate::text::contains_chars(&c.outgoing[i], &c.paths[j]);
    let b = crate::text::contains_chars(&c.backlinks[i], &c.paths[j]);
    if o && b {
        ConnectionDirection::Both
    } else if o {
        ConnectionDirection::Outgoing
    } else {
        ConnectionDirection::Backlink
    }
}

// ---------------------------------------------------------------------------
// Ranking neighbors
// ---------------------------------------------------------------------------

/// Whether note `a` is listed before note `b`: more connections first, then by path.
pub open spec fn ranks_before(ns: Seq<LinkedNote>, a: int, b: int) -> bool {
    degree(ns, a) > degree(ns, b) || (degree(ns, a) == degree(ns, b) && lex_le(
        ns[a].path@,
        ns[b].path@,
    ))
}

/// Where note `x` goes in the ranked list `t`: after every leading note ranked before it.
pub open spec fn rank_pos(ns: Seq<LinkedNote>, t: Seq<int>, x: int) -> nat
    decreases t.len(),
{
    if t.len() == 0 {
        0
    } else if ranks_before(ns, t[0], x) {
        1 + rank_pos(ns, t.drop_first(), x)
    } else {
        0
    }
}

/// The notes of `s`, ranked.
pub open spec fn ranked(ns: Seq<LinkedNote>, s: Seq<int>) -> Seq<int>
    decreases s.len(),
{
    if s.len() == 0 {
        s
    } else {
        let t = ranked(ns, s.drop_last());
        t.insert(rank_pos(ns, t, s.last()) as int, s.last())
    }
}

/// The neighbors of note `i` in the order exploring visits them.
pub open spec fn neighbors(ns: Seq<LinkedNote>, i: int) -> Seq<int> {
    ranked(ns, linked_notes(ns, i))
}

/// A note linked with the one being explored, how it is linked, and its own number of links.
pub struct Neighbor {
    pub note: usize,
    pub direction: ConnectionDirection,
    pub degree: usize,
}

pub open spec fn neighbor_notes(v: Seq<Neighbor>) -> Seq<int> {
    v.map_values(|n: Neighbor| n.note as int)
}

/// Each neighbor of note `i` carries its own direction and degree.
pub open spec fn neighbors_described(ns: Seq<LinkedNote>, i: int, v: Seq<Neighbor>) -> bool {
    forall|q: int|
        0 <= q < v.len() ==> {
            &&& (#[trigger] v[q]).note < ns.len()
            &&& v[q].direction == direction_between(ns, i, v[q].note as int)
            &&& v[q].degree == degree(ns, v[q].note as int)
        }
}

fn neighbors_of(c: &Chars, i: usize, Ghost(ns): Ghost<Seq<LinkedNote>>) -> (r: Vec<Neighbor>)
    requires
        c.of(ns),
        i < ns.len(),
    ensures
        neighbor_notes(r@) == neighbors(ns, i as int),
        neighbors_described(ns, i as int, r@),
{
    let linked = linked_notes_exec(c, i, Ghost(ns));
    let ghost l = linked_notes(ns, i as int);
    proof {
        lemma_named_notes(ns, link_paths(ns, i as int));
    }
    let mut out: Vec<Neighbor> = Vec::new();
    let mut k: usize = 0;
    assert(l.take(0) =~= Seq::<int>::empty());
    assert(neighbor_notes(out@) =~= Seq::<int>::empty());
    while k < linked.len()
        invariant
            c.of(ns),
            i < ns.len(),
            k <= linked.len(),
            linked@.map_values(|x: usize| x as int) == l,
            forall|q: int| 0 <= q < l.len() ==> 0 <= #[trigger] l[q] < ns.len(),
            neighbor_notes(out@) == ranked(ns, l.take(k as int)),
            neighbors_described(ns, i as int, out@),
        decreases linked.len() - k,
    {
        let j = linked[k];
        assert(l[k as int] == j as int);
        let d = linked_notes_exec(c, j, Ghost(ns)).len();
        let dir = direction_exec(c, i, j, Ghost(ns));
        let ghost t = neighbor_notes(out@);
        let mut p: usize = 0;
        assert(t.skip(0) =~= t);
        while p < out.len() && (out[p].degree > d || (out[p].degree == d && lex_le_exec(
            &c.paths[out[p].note],
            &c.paths[j],
        )))
            invariant
                c.of(ns),
                p <= out.len(),
                j < ns.len(),
                d == degree(ns, j as int),
                t == neighbor_notes(out@),
                neighbors_described(ns, i as int, out@),
                rank_pos(ns, t, j as int) == p + rank_pos(ns, t.skip(p as int), j as int),
            decreases out.len() - p,
        {
            assert(t.skip(p as int)[0] == t[p as int]);
            assert(c.paths@[out@[p as int].note as int]@ == views(c.paths@)[out@[p as int].note as int]);
            assert(c.paths@[j as int]@ == views(c.paths@)[j as int]);
            assert(ranks_before(ns, t[p as int], j as int));
            assert(t.skip(p as int).drop_first() =~= t.skip(p + 1));
            p = p + 1;
        }
        proof {
            if p < out.len() {
                assert(t.skip(p as int)[0] == t[p as int]);
                assert(c.paths@[out@[p as int].note as int]@ == views(c.paths@)[out@[p as int].note as int]);
                assert(c.paths@[j as int]@ == views(c.paths@)[j as int]);
                assert(!ranks_before(ns, t[p as int], j as int));
            }
            assert(l.take(k + 1).drop_last() =~= l.take(k as int));
            assert(l.take(k + 1).last() == l[k as int]);
        }
        let ghost old_out = out@;
        let n = Neighbor { note: j, direction: dir, degree: d };
        out.insert(p, n);
        assert(out@ =~= old_out.insert(p as int, n));
        assert(neighbor_notes(out@) =~= t.insert(p as int, j as int));
        assert forall|q: int| 0 <= q < out@.len() implies {
            &&& (#[trigger] out@[q]).note < ns.len()
            &&& out@[q].direction == direction_between(ns, i as int, out@[q].note as int)
            &&& out@[q].degree == degree(ns, out@[q].note as int)
        } by {
            if q < p {
                assert(out@[q] == old_out[q]);
            } else if q > p {
                assert(out@[q] == old_out[q - 1]);
            }
        }
        k = k + 1;
    }
    assert(l.take(linked.len() as int) =~= l);
    out
}

// ---------------------------------------------------------------------------
// The walk
// ---------------------------------------------------------------------------

/// One note shown in the tree of connections. `parent` is the shown node it hangs under and
/// `from` the note whose links led to it; for the root both are the root itself.
pub struct GraphNode {
    pub note: usize,
    pub from: usize,
    pub parent: usize,
    pub path: String,
    pub depth: usize,
    pub degree: usize,
    pub direction: Option<ConnectionDirection>,
    pub cycle: bool,
}

/// A shown node as plain values.
#[verifier::ext_equal]
pub struct NodeView {
    pub note: int,
    pub from: int,
    pub parent: int,
    pub path: Seq<char>,
    pub depth: nat,
    pub degree: nat,
    pub direction: Option<ConnectionDirection>,
    pub cycle: bool,
}

impl View for GraphNode {
    type V = NodeView;

    open spec fn view(&self) -> NodeView {
        NodeView {
            note: self.note as int,
            from: self.from as int,
            parent: self.parent as int,
            path: self.path@,
            depth: self.depth as nat,
            degree: self.degree as nat,
            direction: self.direction,
            cycle: self.cycle,
        }
    }
}

pub open spec fn node_views(v: Seq<GraphNode>) -> Seq<NodeView> {
    v.map_values(|n: GraphNode| n@)
}

/// What exploring has done so far: the nodes shown, which notes are among them, whether one of
/// them matches the filters, the deepest level reached, whether the node limit stopped it, and
/// which notes were already reached (kept only when repeats are skipped).
#[verifier::ext_equal]
pub struct Walk {
    pub nodes: Seq<NodeView>,
    pub shown: Seq<bool>,
    pub matched: bool,
    pub max_depth: nat,
    pub truncated: bool,
    pub seen: Seq<bool>,
}

/// A note waiting to have its links followed: its depth, the shown node it became (if shown),
/// the shown node its own neighbors hang under otherwise, and the notes on the way to it.
#[verifier::ext_equal]
pub struct VisitView {
    pub note: int,
    pub depth: nat,
    pub shown_at: Option<int>,
    pub anchor: int,
    pub trail: Seq<int>,
}

/// Whether the exploration has any filter.
pub open spec fn has_filters(input: ExploreConnectionsInput) -> bool {
    input.folder is Some || input.from_ts is Some || input.to_ts is Some || match input.tags {
        Some(t) => t.len() > 0,
        None => false,
    }
}

pub open spec fn traverses(input: ExploreConnectionsInput) -> bool {
    input.filter_mode == ExploreFilterMode::Traverse
}

pub open spec fn max_nat(a: nat, b: nat) -> nat {
    if a >= b {
        a
    } else {
        b
    }
}

/// Following one link, from the note of `v` to note `j`. `root` is the start note and
/// `root_ok` whether it may be shown again (no filter, or it matches them); `ms` says which
/// notes match the filters. In traversal mode a note that does not match is not entered. A
/// note already on the way, or already reached when repeats are skipped, is a cycle: it may be
/// shown but its links are not followed. The start note is shown again only under a shown node
/// and when `root_ok`; another note is shown when it matches, or always in traversal mode.
/// Showing a node when `limit` nodes are shown stops the walk. Notes followed further wait for
/// the next level while it is below `depth`.
pub open spec fn step(
    ns: Seq<LinkedNote>,
    ms: Seq<bool>,
    input: ExploreConnectionsInput,
    root: int,
    root_ok: bool,
    w: Walk,
    v: VisitView,
    j: int,
) -> (Walk, Option<VisitView>) {
    let m = ms[j];
    if traverses(input) && !m {
        (w, None)
    } else {
        let cycle = v.trail.contains(j) || (input.dedup && w.seen[j]);
        let display = if j == root {
            v.shown_at is Some && root_ok
        } else if traverses(input) {
            true
        } else {
            m
        };
        let parent = match v.shown_at {
            Some(i) => i,
            None => v.anchor,
        };
        let d1 = v.depth + 1;
        if display && w.nodes.len() >= input.limit {
            (Walk { truncated: true, ..w }, None)
        } else {
            let w1 = if display {
                Walk {
                    nodes: w.nodes.push(
                        NodeView {
                            note: j,
                            from: v.note,
                            parent,
                            path: ns[j].path@,
                            depth: d1,
                            degree: degree(ns, j),
                            direction: Some(direction_between(ns, v.note, j)),
                            cycle,
                        },
                    ),
                    shown: w.shown.update(j, true),
                    matched: w.matched || m,
                    max_depth: max_nat(w.max_depth, d1),
                    ..w
                }
            } else if !cycle {
                Walk { max_depth: max_nat(w.max_depth, d1), ..w }
            } else {
                w
            };
            if cycle {
                (w1, None)
            } else {
                let w2 = if input.dedup {
                    Walk { seen: w1.seen.update(j, true), ..w1 }
                } else {
                    w1
                };
                if d1 < input.depth {
                    let next = VisitView {
                        note: j,
                        depth: d1,
                        shown_at: if display {
                            Some(w.nodes.len() as int)
                        } else {
                            None
                        },
                        anchor: if display {
                            w.nodes.len() as int
                        } else {
                            v.anchor
                        },
                        trail: v.trail.push(j),
                    };
                    (w2, Some(next))
                } else {
                    (w2, None)
                }
            }
        }
    }
}

/// Following the links of `v` to the notes `nb`, in order, until the limit stops the walk;
/// with the notes that wait for the next level.
pub open spec fn visit_all(
    ns: Seq<LinkedNote>,
    ms: Seq<bool>,
    input: ExploreConnectionsInput,
    root: int,
    root_ok: bool,
    w: Walk,
    v: VisitView,
    nb: Seq<int>,
) -> (Walk, Seq<VisitView>)
    decreases nb.len(),
{
    if nb.len() == 0 || w.truncated {
        (w, Seq::empty())
    } else {
        let (w1, o) = step(ns, ms, input, root, root_ok, w, v, nb[0]);
        let (w2, rest) = visit_all(ns, ms, input, root, root_ok, w1, v, nb.drop_first());
        (
            w2,
            match o {
                Some(x) => seq![x] + rest,
                None => rest,
            },
        )
    }
}

/// Visiting the notes of one level in order, each with its neighbors in rank order.
pub open spec fn visit_level(
    ns: Seq<LinkedNote>,
    ms: Seq<bool>,
    input: ExploreConnectionsInput,
    root: int,
    root_ok: bool,
    w: Walk,
    level: Seq<VisitView>,
) -> (Walk, Seq<VisitView>)
    decreases level.len(),
{
    if level.len() == 0 || w.truncated {
        (w, Seq::empty())
    } else {
        let (w1, a) = visit_all(
            ns,
            ms,
            input,
            root,
            root_ok,
            w,
            level[0],
            neighbors(ns, level[0].note),
        );
        let (w2, b) = visit_level(ns, ms, input, root, root_ok, w1, level.drop_first());
        (w2, a + b)
    }
}

/// Breadth-first: level after level, from level `d`, until the depth, an empty level or the
/// limit ends the walk.
pub open spec fn walk_levels(
    ns: Seq<LinkedNote>,
    ms: Seq<bool>,
    input: ExploreConnectionsInput,
    root: int,
    root_ok: bool,
    w: Walk,
    level: Seq<VisitView>,
    d: nat,
) -> Walk
    decreases input.depth - d,
{
    if d >= input.depth || level.len() == 0 || w.truncated {
        w
    } else {
        let (w1, next) = visit_level(ns, ms, input, root, root_ok, w, level);
        walk_levels(ns, ms, input, root, root_ok, w1, next, d + 1)
    }
}

/// The note the start note's path names (the start note itself unless a later note shares its
/// path).
pub open spec fn root_of(ns: Seq<LinkedNote>, start: int) -> int {
    match note_at(ns, ns[start].path@) {
        Some(s) => s,
        None => start,
    }
}

/// The walk before any link is followed: the start note alone.
pub open spec fn first_walk(
    ns: Seq<LinkedNote>,
    ms: Seq<bool>,
    input: ExploreConnectionsInput,
    start: int,
) -> Walk {
    let s = root_of(ns, start);
    Walk {
        nodes: seq![
            NodeView {
                note: s,
                from: s,
                parent: 0,
                path: ns[s].path@,
                depth: 0,
                degree: degree(ns, s),
                direction: None,
                cycle: false,
            },
        ],
        shown: Seq::new(ns.len(), |k: int| k == s),
        matched: ms[start],
        max_depth: 0,
        truncated: false,
        seen: Seq::new(ns.len(), |k: int| input.dedup && k == s),
    }
}

/// The whole exploration from note `start`. In traversal mode, a start note that does not
/// match the filters is shown alone.
pub open spec fn explored(
    ns: Seq<LinkedNote>,
    ms: Seq<bool>,
    input: ExploreConnectionsInput,
    start: int,
) -> Walk {
    let s = root_of(ns, start);
    let w0 = first_walk(ns, ms, input, start);
    if traverses(input) && has_filters(input) && !ms[start] {
        w0
    } else {
        let root_ok = !has_filters(input) || ms[start];
        let first = VisitView { note: s, depth: 0, shown_at: Some(0), anchor: 0, trail: seq![s] };
        walk_levels(ns, ms, input, s, root_ok, w0, seq![first], 0)
    }
}

/// How many of the flags are set.
pub open spec fn count_true(s: Seq<bool>) -> nat
    decreases s.len(),
{
    if s.len() == 0 {
        0
    } else {
        count_true(s.drop_last()) + if s.last() {
            1nat
        } else {
            0nat
        }
    }
}

proof fn lemma_count_true_le(s: Seq<bool>)
    ensures
        count_true(s) <= s.len(),
    decreases s.len(),
{
    if s.len() > 0 {
        lemma_count_true_le(s.drop_last());
    }
}

proof fn lemma_count_true_set(s: Seq<bool>, j: int)
    requires
        0 <= j < s.len(),
        !s[j],
    ensures
        count_true(s.update(j, true)) == count_true(s) + 1,
        count_true(s) < s.len(),
    decreases s.len(),
{
    lemma_count_true_le(s.drop_last());
    if j < s.len() - 1 {
        lemma_count_true_set(s.drop_last(), j);
        assert(s.update(j, true).drop_last() =~= s.drop_last().update(j, true));
    } else {
        assert(s.update(j, true).drop_last() =~= s.drop_last());
    }
}

// ---------------------------------------------------------------------------
// Walking, in executable form
// ---------------------------------------------------------------------------

struct WalkState {
    nodes: Vec<GraphNode>,
    shown: Vec<bool>,
    unique: usize,
    matched: bool,
    max_depth: usize,
    truncated: bool,
    seen: Vec<bool>,
}

impl WalkState {
    spec fn walk(&self) -> Walk {
        Walk {
            nodes: node_views(self.nodes@),
            shown: self.shown@,
            matched: self.matched,
            max_depth: self.max_depth as nat,
            truncated: self.truncated,
            seen: self.seen@,
        }
    }

    /// Sizes agree with the notes, the count of shown notes is kept, and every node after the
    /// root hangs under an earlier one.
    spec fn wf(&self, n: nat) -> bool {
        &&& self.shown.len() == n
        &&& self.seen.len() == n
        &&& self.unique == count_true(self.shown@)
        &&& self.nodes.len() > 0
        &&& self.nodes@[0].parent == 0
        &&& forall|i: int|
            0 < i < self.nodes.len() ==> (#[trigger] self.nodes@[i]).parent < i
    }
}

struct Visit {
    note: usize,
    depth: usize,
    shown_at: Option<usize>,
    anchor: usize,
    trail: Vec<usize>,
}

spec fn visit_view(v: Visit) -> VisitView {
    VisitView {
        note: v.note as int,
        depth: v.depth as nat,
        shown_at: match v.shown_at {
            Some(i) => Some(i as int),
            None => None,
        },
        anchor: v.anchor as int,
        trail: v.trail@.map_values(|x: usize| x as int),
    }
}

spec fn visit_views(s: Seq<Visit>) -> Seq<VisitView> {
    s.map_values(|v: Visit| visit_view(v))
}

spec fn opt_visit(o: Option<Visit>) -> Option<VisitView> {
    match o {
        Some(v) => Some(visit_view(v)),
        None => None,
    }
}

/// A waiting note is a note, below the depth, whose nodes exist.
spec fn visit_ok(v: Visit, n: nat, depth: nat, shown: nat) -> bool {
    &&& v.note < n
    &&& v.depth < depth
    &&& v.anchor < shown
    &&& match v.shown_at {
        Some(i) => i < shown,
        None => true,
    }
}

fn on_trail(trail: &Vec<usize>, j: usize) -> (r: bool)
    ensures
        r == trail@.map_values(|x: usize| x as int).contains(j as int),
{
    let ghost t = trail@.map_values(|x: usize| x as int);
    let mut q: usize = 0;
    while q < trail.len()
        invariant
            q <= trail.len(),
            t == trail@.map_values(|x: usize| x as int),
            forall|r: int| 0 <= r < q ==> t[r] != j as int,
        decreases trail.len() - q,
    {
        if trail[q] == j {
            assert(t[q as int] == j as int);
            return true;
        }
        q = q + 1;
    }
    false
}

fn trail_with(trail: &Vec<usize>, j: usize) -> (r: Vec<usize>)
    ensures
        r@.map_values(|x: usize| x as int) == trail@.map_values(|x: usize| x as int).push(
            j as int,
        ),
{
    let mut out: Vec<usize> = Vec::new();
    let mut q: usize = 0;
    while q < trail.len()
        invariant
            q <= trail.len(),
            out@ == trail@.take(q as int),
        decreases trail.len() - q,
    {
        out.push(trail[q]);
        assert(trail@.take(q + 1) =~= trail@.take(q as int).push(trail@[q as int]));
        q = q + 1;
    }
    assert(trail@.take(trail.len() as int) =~= trail@);
    out.push(j);
    assert(out@.map_values(|x: usize| x as int) =~= trail@.map_values(|x: usize| x as int).push(
        j as int,
    ));
    out
}

fn step_exec(
    c: &Chars,
    ms: &Vec<bool>,
    input: &ExploreConnectionsInput,
    root: usize,
    root_ok: bool,
    st: &mut WalkState,
    v: &Visit,
    nb: &Neighbor,
    Ghost(ns): Ghost<Seq<LinkedNote>>,
) -> (r: Option<Visit>)
    requires
        c.of(ns),
        ms.len() == ns.len(),
        old(st).wf(ns.len()),
        visit_ok(*v, ns.len(), input.depth as nat, old(st).nodes.len() as nat),
        nb.note < ns.len(),
        nb.direction == direction_between(ns, v.note as int, nb.note as int),
        nb.degree == degree(ns, nb.note as int),
    ensures
        final(st).wf(ns.len()),
        old(st).nodes.len() <= final(st).nodes.len(),
        final(st).walk() == step(
            ns,
            ms@,
            *input,
            root as int,
            root_ok,
            old(st).walk(),
            visit_view(*v),
            nb.note as int,
        ).0,
        opt_visit(r) == step(
            ns,
            ms@,
            *input,
            root as int,
            root_ok,
            old(st).walk(),
            visit_view(*v),
            nb.note as int,
        ).1,
        match r {
            Some(x) => visit_ok(x, ns.len(), input.depth as nat, final(st).nodes.len() as nat)
                && x.depth == v.depth + 1,
            None => true,
        },
{
    let ghost w = st.walk();
    let ghost vv = visit_view(*v);
    let j = nb.note;
    let m = ms[j];
    let traverse = input.filter_mode == ExploreFilterMode::Traverse;
    if traverse && !m {
        return None;
    }
    let cycle = on_trail(&v.trail, j) || (input.dedup && st.seen[j]);
    let display = if j == root {
        v.shown_at.is_some() && root_ok
    } else if traverse {
        true
    } else {
        m
    };
    let parent = match v.shown_at {
        Some(i) => i,
        None => v.anchor,
    };
    let d1 = v.depth + 1;
    if display && st.nodes.len() >= input.limit {
        st.truncated = true;
        assert(st.walk() =~= Walk { truncated: true, ..w });
        return None;
    }
    let idx = st.nodes.len();
    if display {
        assert(c.paths@[j as int]@ == views(c.paths@)[j as int]);
        let node = GraphNode {
            note: j,
            from: v.note,
            parent,
            path: crate::text::string_of(&c.paths[j]),
            depth: d1,
            degree: nb.degree,
            direction: Some(nb.direction),
            cycle,
        };
        st.nodes.push(node);
        if !st.shown[j] {
            proof {
                lemma_count_true_set(st.shown@, j as int);
            }
            st.shown.set(j, true);
            st.unique = st.unique + 1;
        } else {
            assert(st.shown@.update(j as int, true) =~= st.shown@);
        }
        st.matched = st.matched || m;
        if d1 > st.max_depth {
            st.max_depth = d1;
        }
        assert(node_views(st.nodes@) =~= w.nodes.push(node@));
    } else if !cycle {
        if d1 > st.max_depth {
            st.max_depth = d1;
        }
    }
    if cycle {
        return None;
    }
    if input.dedup {
        st.seen.set(j, true);
    }
    if d1 < input.depth {
        let trail = trail_with(&v.trail, j);
        let next = Visit {
            note: j,
            depth: d1,
            shown_at: if display {
                Some(idx)
            } else {
                None
            },
            anchor: if display {
                idx
            } else {
                v.anchor
            },
            trail,
        };
        Some(next)
    } else {
        None
    }
}

fn visit_all_exec(
    c: &Chars,
    ms: &Vec<bool>,
    input: &ExploreConnectionsInput,
    root: usize,
    root_ok: bool,
    st: &mut WalkState,
    v: &Visit,
    next: &mut Vec<Visit>,
    Ghost(ns): Ghost<Seq<LinkedNote>>,
)
    requires
        c.of(ns),
        ms.len() == ns.len(),
        old(st).wf(ns.len()),
        visit_ok(*v, ns.len(), input.depth as nat, old(st).nodes.len() as nat),
        forall|q: int|
            0 <= q < old(next).len() ==> visit_ok(
                #[trigger] old(next)@[q],
                ns.len(),
                input.depth as nat,
                old(st).nodes.len() as nat,
            ) && old(next)@[q].depth == v.depth + 1,
    ensures
        final(st).wf(ns.len()),
        old(st).nodes.len() <= final(st).nodes.len(),
        final(st).walk() == visit_all(
            ns,
            ms@,
            *input,
            root as int,
            root_ok,
            old(st).walk(),
            visit_view(*v),
            neighbors(ns, v.note as int),
        ).0,
        visit_views(final(next)@) == visit_views(old(next)@) + visit_all(
            ns,
            ms@,
            *input,
            root as int,
            root_ok,
            old(st).walk(),
            visit_view(*v),
            neighbors(ns, v.note as int),
        ).1,
        forall|q: int|
            0 <= q < final(next).len() ==> visit_ok(
                #[trigger] final(next)@[q],
                ns.len(),
                input.depth as nat,
                final(st).nodes.len() as nat,
            ) && final(next)@[q].depth == v.depth + 1,
{
    let nbs = neighbors_of(c, v.note, Ghost(ns));
    let ghost nb = neighbor_notes(nbs@);
    let ghost vv = visit_view(*v);
    let ghost w0 = st.walk();
    let ghost n0 = visit_views(next@);
    let ghost all = visit_all(ns, ms@, *input, root as int, root_ok, w0, vv, nb);
    let mut k: usize = 0;
    assert(nb.skip(0) =~= nb);
    assert(n0 + Seq::<VisitView>::empty() =~= n0);
    while k < nbs.len() && !st.truncated
        invariant
            c.of(ns),
            ms.len() == ns.len(),
            k <= nbs.len(),
            nb == neighbor_notes(nbs@),
            neighbors_described(ns, v.note as int, nbs@),
            st.wf(ns.len()),
            visit_ok(*v, ns.len(), input.depth as nat, st.nodes.len() as nat),
            vv == visit_view(*v),
            old(st).nodes.len() <= st.nodes.len(),
            all.0 == visit_all(ns, ms@, *input, root as int, root_ok, st.walk(), vv, nb.skip(k as int)).0,
            n0 + all.1 == visit_views(next@) + visit_all(
                ns,
                ms@,
                *input,
                root as int,
                root_ok,
                st.walk(),
                vv,
                nb.skip(k as int),
            ).1,
            forall|q: int|
                0 <= q < next.len() ==> visit_ok(
                    #[trigger] next@[q],
                    ns.len(),
                    input.depth as nat,
                    st.nodes.len() as nat,
                ) && next@[q].depth == v.depth + 1,
        decreases nbs.len() - k,
    {
        let ghost ws = st.walk();
        let ghost rest = nb.skip(k as int);
        assert(rest[0] == nb[k as int]);
        assert(rest.drop_first() =~= nb.skip(k + 1));
        assert(nbs@[k as int].note as int == nb[k as int]);
        let r = step_exec(c, ms, input, root, root_ok, st, v, &nbs[k], Ghost(ns));
        let ghost after = visit_all(
            ns,
            ms@,
            *input,
            root as int,
            root_ok,
            st.walk(),
            vv,
            nb.skip(k + 1),
        );
        match r {
            Some(x) => {
                let ghost prev = visit_views(next@);
                let ghost xv = visit_view(x);
                next.push(x);
                assert(visit_views(next@) =~= prev.push(xv));
                assert(prev + (seq![xv] + after.1) =~= prev.push(xv) + after.1);
            },
            None => {},
        }
        k = k + 1;
    }
    proof {
        if k == nbs.len() {
            assert(nb.skip(k as int) =~= Seq::<int>::empty());
        }
        let fin = visit_all(ns, ms@, *input, root as int, root_ok, st.walk(), vv, nb.skip(k as int));
        assert(fin.1 =~= Seq::<VisitView>::empty());
        assert(visit_views(next@) + fin.1 =~= visit_views(next@));
    }
}

fn visit_level_exec(
    c: &Chars,
    ms: &Vec<bool>,
    input: &ExploreConnectionsInput,
    root: usize,
    root_ok: bool,
    st: &mut WalkState,
    level: &Vec<Visit>,
    Ghost(ns): Ghost<Seq<LinkedNote>>,
    Ghost(d): Ghost<nat>,
) -> (next: Vec<Visit>)
    requires
        c.of(ns),
        ms.len() == ns.len(),
        old(st).wf(ns.len()),
        forall|q: int|
            0 <= q < level.len() ==> visit_ok(
                #[trigger] level@[q],
                ns.len(),
                input.depth as nat,
                old(st).nodes.len() as nat,
            ) && level@[q].depth == d,
    ensures
        final(st).wf(ns.len()),
        final(st).walk() == visit_level(
            ns,
            ms@,
            *input,
            root as int,
            root_ok,
            old(st).walk(),
            visit_views(level@),
        ).0,
        visit_views(next@) == visit_level(
            ns,
            ms@,
            *input,
            root as int,
            root_ok,
            old(st).walk(),
            visit_views(level@),
        ).1,
        forall|q: int|
            0 <= q < next.len() ==> visit_ok(
                #[trigger] next@[q],
                ns.len(),
                input.depth as nat,
                final(st).nodes.len() as nat,
            ) && next@[q].depth == d + 1,
{
    let ghost lv = visit_views(level@);
    let ghost all = visit_level(ns, ms@, *input, root as int, root_ok, st.walk(), lv);
    let mut next: Vec<Visit> = Vec::new();
    let mut k: usize = 0;
    assert(lv.skip(0) =~= lv);
    assert(visit_views(next@) + all.1 =~= all.1);
    while k < level.len() && !st.truncated
        invariant
            c.of(ns),
            ms.len() == ns.len(),
            k <= level.len(),
            lv == visit_views(level@),
            st.wf(ns.len()),
            forall|q: int|
                0 <= q < level.len() ==> visit_ok(
                    #[trigger] level@[q],
                    ns.len(),
                    input.depth as nat,
                    st.nodes.len() as nat,
                ) && level@[q].depth == d,
            all.0 == visit_level(ns, ms@, *input, root as int, root_ok, st.walk(), lv.skip(k as int)).0,
            all.1 == visit_views(next@) + visit_level(
                ns,
                ms@,
                *input,
                root as int,
                root_ok,
                st.walk(),
                lv.skip(k as int),
            ).1,
            forall|q: int|
                0 <= q < next.len() ==> visit_ok(
                    #[trigger] next@[q],
                    ns.len(),
                    input.depth as nat,
                    st.nodes.len() as nat,
                ) && next@[q].depth == d + 1,
        decreases level.len() - k,
    {
        let ghost rest = lv.skip(k as int);
        assert(rest[0] == visit_view(level@[k as int]));
        assert(rest.drop_first() =~= lv.skip(k + 1));
        let ghost before = visit_views(next@);
        let ghost ws = st.walk();
        assert(visit_ok(level@[k as int], ns.len(), input.depth as nat, st.nodes.len() as nat));
        visit_all_exec(c, ms, input, root, root_ok, st, &level[k], &mut next, Ghost(ns));
        let ghost a = visit_all(
            ns,
            ms@,
            *input,
            root as int,
            root_ok,
            ws,
            rest[0],
            neighbors(ns, rest[0].note),
        );
        let ghost b = visit_level(ns, ms@, *input, root as int, root_ok, st.walk(), lv.skip(k + 1));
        assert(visit_views(next@) == before + a.1);
        assert(before + (a.1 + b.1) =~= (before + a.1) + b.1);
        k = k + 1;
    }
    proof {
        if k == level.len() {
            assert(lv.skip(k as int) =~= Seq::<VisitView>::empty());
        }
        let fin = visit_level(ns, ms@, *input, root as int, root_ok, st.walk(), lv.skip(k as int));
        assert(fin.1 =~= Seq::<VisitView>::empty());
        assert(visit_views(next@) + fin.1 =~= visit_views(next@));
    }
    next
}

/// The tree of connections, flat: the nodes in the order they are shown (the start note
/// first), each naming the node it hangs under; how many distinct notes and how many nodes are
/// shown; the deepest level reached; whether the node limit cut the walk short; and whether
/// filters are set but no shown note matches them.
pub struct ExploreGraph {
    pub nodes: Vec<GraphNode>,
    pub unique_nodes: usize,
    pub shown_nodes: usize,
    pub max_depth_reached: usize,
    pub truncated: bool,
    pub filtered_results_empty: bool,
}

fn has_filters_exec(input: &ExploreConnectionsInput) -> (r: bool)
    ensures
        r == has_filters(*input),
{
    input.folder.is_some() || input.from_ts.is_some() || input.to_ts.is_some() || match &input.tags {
        Some(t) => t.len() > 0,
        None => false,
    }
}

proof fn lemma_count_true_none(s: Seq<bool>)
    requires
        forall|k: int| 0 <= k < s.len() ==> !s[k],
    ensures
        count_true(s) == 0,
    decreases s.len(),
{
    if s.len() > 0 {
        lemma_count_true_none(s.drop_last());
    }
}

fn flags(n: usize) -> (r: Vec<bool>)
    ensures
        r@ == Seq::new(n as nat, |k: int| false),
{
    let mut out: Vec<bool> = Vec::new();
    while out.len() < n
        invariant
            out.len() <= n,
            out@ == Seq::new(out.len() as nat, |k: int| false),
        decreases n - out.len(),
    {
        out.push(false);
        assert(out@ =~= Seq::new(out.len() as nat, |k: int| false));
    }
    out
}

/// Explores the links from note `start` breadth-first, as `explored` states: level by level up
/// to `input.depth`, each note's neighbors in rank order, at most `input.limit` nodes shown.
/// `matches` says which notes match the exploration's filters. Every node after the first
/// hangs under an earlier one.
pub fn explore_links(
    notes: &Vec<LinkedNote>,
    start: usize,
    matches: &Vec<bool>,
    input: &ExploreConnectionsInput,
) -> (r: ExploreGraph)
    requires
        start < notes.len(),
        matches.len() == notes.len(),
    ensures
        node_views(r.nodes@) == explored(notes@, matches@, *input, start as int).nodes,
        r.unique_nodes == count_true(explored(notes@, matches@, *input, start as int).shown),
        r.shown_nodes == explored(notes@, matches@, *input, start as int).nodes.len(),
        r.max_depth_reached == explored(notes@, matches@, *input, start as int).max_depth,
        r.truncated == explored(notes@, matches@, *input, start as int).truncated,
        r.filtered_results_empty == (has_filters(*input) && !explored(
            notes@,
            matches@,
            *input,
            start as int,
        ).matched),
        r.nodes.len() > 0,
        r.nodes@[0].parent == 0,
        forall|i: int| 0 < i < r.nodes.len() ==> (#[trigger] r.nodes@[i]).parent < i,
{
    let ghost ns = notes@;
    let c = read_chars(notes);
    let s = match find_note(&c.paths, &c.paths[start], Ghost(ns)) {
        Some(s) => s,
        None => start,
    };
    assert(c.paths@[start as int]@ == views(c.paths@)[start as int]);
    proof {
        lemma_note_at(ns, ns[start as int].path@);
    }
    assert(s as int == root_of(ns, start as int));
    assert(s < notes.len());
    let n = notes.len();
    let mut shown = flags(n);
    proof {
        lemma_count_true_none(shown@);
        lemma_count_true_set(shown@, s as int);
    }
    shown.set(s, true);
    let mut seen = flags(n);
    if input.dedup {
        seen.set(s, true);
    }
    assert(shown@ =~= Seq::new(n as nat, |k: int| k == s as int));
    assert(seen@ =~= Seq::new(n as nat, |k: int| input.dedup && k == s as int));
    assert(c.paths@[s as int]@ == views(c.paths@)[s as int]);
    let degree = linked_notes_exec(&c, s, Ghost(ns)).len();
    let root = GraphNode {
        note: s,
        from: s,
        parent: 0,
        path: crate::text::string_of(&c.paths[s]),
        depth: 0,
        degree,
        direction: None,
        cycle: false,
    };
    let mut nodes: Vec<GraphNode> = Vec::new();
    nodes.push(root);
    let mut st = WalkState {
        nodes,
        shown,
        unique: 1,
        matched: matches[start],
        max_depth: 0,
        truncated: false,
        seen,
    };
    assert(st.walk() =~= first_walk(ns, matches@, *input, start as int));
    let filtered = has_filters_exec(input);
    let traverse = input.filter_mode == ExploreFilterMode::Traverse;
    if !(traverse && filtered && !matches[start]) {
        let root_ok = !filtered || matches[start];
        let first = Visit { note: s, depth: 0, shown_at: Some(0), anchor: 0, trail: vec![s] };
        let ghost fv = VisitView { note: s as int, depth: 0, shown_at: Some(0), anchor: 0, trail: seq![s as int] };
        assert(visit_view(first) =~= fv);
        let mut level: Vec<Visit> = Vec::new();
        level.push(first);
        assert(visit_views(level@) =~= seq![fv]);
        let ghost total = walk_levels(ns, matches@, *input, s as int, root_ok, st.walk(), seq![fv], 0);
        let mut d: usize = 0;
        while d < input.depth && level.len() > 0 && !st.truncated
            invariant
                c.of(ns),
                matches.len() == ns.len(),
                d <= input.depth,
                st.wf(ns.len()),
                d < input.depth ==> forall|q: int|
                    0 <= q < level.len() ==> visit_ok(
                        #[trigger] level@[q],
                        ns.len(),
                        input.depth as nat,
                        st.nodes.len() as nat,
                    ) && level@[q].depth == d,
                total == walk_levels(
                    ns,
                    matches@,
                    *input,
                    s as int,
                    root_ok,
                    st.walk(),
                    visit_views(level@),
                    d as nat,
                ),
            decreases input.depth - d,
        {
            let next = visit_level_exec(
                &c,
                matches,
                input,
                s,
                root_ok,
                &mut st,
                &level,
                Ghost(ns),
                Ghost(d as nat),
            );
            level = next;
            d = d + 1;
        }
        assert(st.walk() == total);
    }
    let shown_nodes = st.nodes.len();
    ExploreGraph {
        nodes: st.nodes,
        unique_nodes: st.unique,
        shown_nodes,
        max_depth_reached: st.max_depth,
        truncated: st.truncated,
        filtered_results_empty: filtered && !st.matched,
    }
}

// ---------------------------------------------------------------------------
// The tree
// ---------------------------------------------------------------------------

/// One node of the tree of connections, with the nodes hanging under it.
pub struct ExploreNodeView {
    pub path: String,
    pub depth: usize,
    pub degree: usize,
    pub direction: Option<ConnectionDirection>,
    pub context: Option<String>,
    pub cycle: bool,
    pub children: Vec<ExploreNodeView>,
}

/// A node of the tree as plain values, with the nodes under it.
#[verifier::ext_equal]
pub struct TreeView {
    pub path: Seq<char>,
    pub depth: nat,
    pub degree: nat,
    pub direction: Option<ConnectionDirection>,
    pub context: Option<Seq<char>>,
    pub cycle: bool,
    pub children: Seq<TreeView>,
}

pub open spec fn tree_view(t: ExploreNodeView) -> TreeView
    decreases t,
{
    TreeView {
        path: t.path@,
        depth: t.depth as nat,
        degree: t.degree as nat,
        direction: t.direction,
        context: opt_view(t.context),
        cycle: t.cycle,
        children: tree_views(t.children@),
    }
}

pub open spec fn tree_views(s: Seq<ExploreNodeView>) -> Seq<TreeView>
    decreases s,
{
    if s.len() == 0 {
        Seq::empty()
    } else {
        tree_views(s.subrange(0, s.len() - 1)).push(tree_view(s[s.len() - 1]))
    }
}

proof fn lemma_tree_views_push(s: Seq<ExploreNodeView>, t: ExploreNodeView)
    ensures
        tree_views(s.push(t)) == tree_views(s).push(tree_view(t)),
{
    assert(s.push(t).subrange(0, s.len() as int) =~= s);
}

pub open spec fn opt_views(s: Seq<Option<String>>) -> Seq<Option<Seq<char>>> {
    s.map_values(|o: Option<String>| opt_view(o))
}

/// Node `p` with the nodes that hang under it, each with its own, in the order shown; `ctx`
/// gives each node's section.
pub open spec fn tree_at(nodes: Seq<NodeView>, ctx: Seq<Option<Seq<char>>>, p: int) -> TreeView
    decreases nodes.len() - p, 0int,
{
    TreeView {
        path: nodes[p].path,
        depth: nodes[p].depth,
        degree: nodes[p].degree,
        direction: nodes[p].direction,
        context: ctx[p],
        cycle: nodes[p].cycle,
        children: if p < nodes.len() {
            trees_under(nodes, ctx, p, p + 1)
        } else {
            Seq::empty()
        },
    }
}

/// The trees of the nodes from `i` on that hang under node `p`.
pub open spec fn trees_under(
    nodes: Seq<NodeView>,
    ctx: Seq<Option<Seq<char>>>,
    p: int,
    i: int,
) -> Seq<TreeView>
    decreases nodes.len() - i, 1int,
{
    if i >= nodes.len() || i < 0 {
        Seq::empty()
    } else if nodes[i].parent == p {
        seq![tree_at(nodes, ctx, i)] + trees_under(nodes, ctx, p, i + 1)
    } else {
        trees_under(nodes, ctx, p, i + 1)
    }
}

/// The tree under node `p` of the flat nodes, with the section of each node from `ctx`.
pub fn materialize_tree(nodes: &Vec<GraphNode>, ctx: &Vec<Option<String>>, p: usize) -> (r:
    ExploreNodeView)
    requires
        p < nodes.len(),
        ctx.len() == nodes.len(),
    ensures
        tree_view(r) == tree_at(node_views(nodes@), opt_views(ctx@), p as int),
    decreases nodes.len() - p,
{
    let ghost nv = node_views(nodes@);
    let ghost cv = opt_views(ctx@);
    let mut children: Vec<ExploreNodeView> = Vec::new();
    let mut i: usize = p + 1;
    assert(tree_views(children@) =~= Seq::<TreeView>::empty());
    while i < nodes.len()
        invariant
            p < i <= nodes.len(),
            ctx.len() == nodes.len(),
            nv == node_views(nodes@),
            cv == opt_views(ctx@),
            trees_under(nv, cv, p as int, p + 1) == tree_views(children@) + trees_under(
                nv,
                cv,
                p as int,
                i as int,
            ),
        decreases nodes.len() - i,
    {
        assert(nv[i as int] == nodes@[i as int]@);
        if nodes[i].parent == p {
            let t = materialize_tree(nodes, ctx, i);
            let ghost prev = children@;
            children.push(t);
            proof {
                lemma_tree_views_push(prev, t);
                assert(tree_views(prev) + (seq![tree_view(t)] + trees_under(nv, cv, p as int, i + 1))
                    =~= tree_views(prev).push(tree_view(t)) + trees_under(nv, cv, p as int, i + 1));
            }
        }
        i = i + 1;
    }
    assert(trees_under(nv, cv, p as int, i as int) =~= Seq::<TreeView>::empty());
    assert(tree_views(children@) + Seq::<TreeView>::empty() =~= tree_views(children@));
    let context = match &ctx[p] {
        Some(c) => Some(c.clone()),
        None => None,
    };
    assert(nv[p as int] == nodes@[p as int]@);
    assert(cv[p as int] == opt_view(ctx@[p as int]));
    ExploreNodeView {
        path: nodes[p].path.clone(),
        depth: nodes[p].depth,
        degree: nodes[p].degree,
        direction: nodes[p].direction,
        context,
        cycle: nodes[p].cycle,
        children,
    }
}

// ---------------------------------------------------------------------------
// The section an edge comes from
// ---------------------------------------------------------------------------

/// What the context of an edge reads of a stored chunk: the note it belongs to, its
/// breadcrumb, and its links.
pub struct ChunkLinks {
    pub note_path: String,
    pub breadcrumb: String,
    pub links: Vec<Link>,
}

/// The section a chunk's breadcrumb names, unless it is empty or the note's own path.
pub open spec fn chunk_section(c: ChunkLinks) -> Option<Seq<char>> {
    let last = last_crumb(c.breadcrumb@);
    if last.len() == 0 || last == c.note_path@ {
        None
    } else {
        Some(last)
    }
}

/// Whether one of the chunk's links resolves to `target`.
pub open spec fn links_to(c: ChunkLinks, target: Seq<char>) -> bool {
    exists|k: int| 0 <= k < c.links.len() && opt_view(#[trigger] c.links@[k].resolved_path) == Some(target)
}

/// The section of the first chunk that names one and has a link resolving to `target`.
pub open spec fn edge_section(chunks: Seq<ChunkLinks>, target: Seq<char>) -> Option<Seq<char>>
    decreases chunks.len(),
{
    if chunks.len() == 0 {
        None
    } else {
        match chunk_section(chunks[0]) {
            Some(sec) => if links_to(chunks[0], target) {
                Some(sec)
            } else {
                edge_section(chunks.drop_first(), target)
            },
            None => edge_section(chunks.drop_first(), target),
        }
    }
}

fn links_to_exec(c: &ChunkLinks, target: &str) -> (r: bool)
    ensures
        r == links_to(*c, target@),
{
    let mut k: usize = 0;
    while k < c.links.len()
        invariant
            k <= c.links.len(),
            forall|q: int| 0 <= q < k ==> opt_view(#[trigger] c.links@[q].resolved_path) != Some(target@),
        decreases c.links.len() - k,
    {
        match &c.links[k].resolved_path {
            Some(p) => {
                if crate::text::str_eq(p.as_str(), target) {
                    return true;
                }
            },
            None => {},
        }
        k = k + 1;
    }
    false
}

/// The section an edge into `target` comes from, read from the chunks of the note that holds
/// the link: the first chunk with a section whose links reach `target`.
pub fn edge_context(chunks: &Vec<ChunkLinks>, target: &str) -> (r: Option<String>)
    ensures
        opt_view(r) == edge_section(chunks@, target@),
{
    let mut k: usize = 0;
    assert(chunks@.skip(0) =~= chunks@);
    while k < chunks.len()
        invariant
            k <= chunks.len(),
            edge_section(chunks@, target@) == edge_section(chunks@.skip(k as int), target@),
        decreases chunks.len() - k,
    {
        let ghost rest = chunks@.skip(k as int);
        assert(rest[0] == chunks@[k as int]);
        assert(rest.drop_first() =~= chunks@.skip(k + 1));
        let sec = note_section_from_breadcrumb(
            chunks[k].breadcrumb.as_str(),
            chunks[k].note_path.as_str(),
        );
        match sec {
            Some(s) => {
                if links_to_exec(&chunks[k], target) {
                    return Some(s);
                }
            },
            None => {},
        }
        k = k + 1;
    }
    None
}

/// The note whose chunks hold the link of an edge, and the note the link points to: an edge
/// out of `from` is held by `from`, a backlink by `to`.
pub open spec fn edge_ends(from: Seq<char>, to: Seq<char>, d: ConnectionDirection) -> (Seq<char>, Seq<char>) {
    match d {
        ConnectionDirection::Backlink => (to, from),
        _ => (from, to),
    }
}

pub fn edge_source(from: &str, to: &str, direction: ConnectionDirection) -> (r: (String, String))
    ensures
        (r.0@, r.1@) == edge_ends(from@, to@, direction),
{
    match direction {
        ConnectionDirection::Backlink => (to.to_string(), from.to_string()),
        _ => (from.to_string(), to.to_string()),
    }
}

// ---------------------------------------------------------------------------
// What every exploration keeps
// ---------------------------------------------------------------------------

proof fn lemma_rank_pos_le(ns: Seq<LinkedNote>, t: Seq<int>, x: int)
    ensures
        rank_pos(ns, t, x) <= t.len(),
    decreases t.len(),
{
    if t.len() > 0 && ranks_before(ns, t[0], x) {
        lemma_rank_pos_le(ns, t.drop_first(), x);
    }
}

/// Ranking keeps the notes: the same ones, as many.
pub proof fn lemma_ranked_contains(ns: Seq<LinkedNote>, s: Seq<int>)
    ensures
        ranked(ns, s).len() == s.len(),
        forall|x: int| ranked(ns, s).contains(x) <==> s.contains(x),
    decreases s.len(),
{
    if s.len() > 0 {
        let t = ranked(ns, s.drop_last());
        lemma_ranked_contains(ns, s.drop_last());
        let p = rank_pos(ns, t, s.last()) as int;
        lemma_rank_pos_le(ns, t, s.last());
        let u = t.insert(p, s.last());
        assert forall|x: int| u.contains(x) <==> s.contains(x) by {
            if u.contains(x) {
                let q = choose|q: int| 0 <= q < u.len() && u[q] == x;
                if q < p {
                    assert(u[q] == t[q]);
                    assert(s.drop_last().contains(x));
                    let r = choose|r: int| 0 <= r < s.drop_last().len() && s.drop_last()[r] == x;
                    assert(s[r] == x);
                } else if q > p {
                    assert(u[q] == t[q - 1]);
                    assert(s.drop_last().contains(x));
                    let r = choose|r: int| 0 <= r < s.drop_last().len() && s.drop_last()[r] == x;
                    assert(s[r] == x);
                } else {
                    assert(s[s.len() - 1] == x);
                }
            }
            if s.contains(x) {
                let q = choose|q: int| 0 <= q < s.len() && s[q] == x;
                if q < s.len() - 1 {
                    assert(s.drop_last()[q] == x);
                    assert(s.drop_last().contains(x));
                    assert(t.contains(x));
                    let r = choose|r: int| 0 <= r < t.len() && t[r] == x;
                    if r < p {
                        assert(u[r] == x);
                    } else {
                        assert(u[r + 1] == x);
                    }
                } else {
                    assert(u[p] == x);
                }
            }
        }
    }
}

/// The neighbors of a note are notes.
pub proof fn lemma_neighbors_are_notes(ns: Seq<LinkedNote>, i: int, j: int)
    requires
        neighbors(ns, i).contains(j),
    ensures
        0 <= j < ns.len(),
{
    lemma_ranked_contains(ns, linked_notes(ns, i));
    lemma_named_notes(ns, link_paths(ns, i));
    assert(linked_notes(ns, i).contains(j));
    let q = choose|q: int| 0 <= q < linked_notes(ns, i).len() && linked_notes(ns, i)[q] == j;
    assert(0 <= linked_notes(ns, i)[q] < ns.len());
}

/// A node that is not the start: a neighbor of the note it was reached from, below the depth
/// limit, carrying that note's degree, direction and path; a note that matches the filters
/// unless it is the start note shown again, which happens only when `root_ok`; and in
/// traversal mode always a matching note.
pub open spec fn shown_ok(
    ns: Seq<LinkedNote>,
    ms: Seq<bool>,
    input: ExploreConnectionsInput,
    root: int,
    root_ok: bool,
    n: NodeView,
) -> bool {
    &&& 0 <= n.from < ns.len()
    &&& neighbors(ns, n.from).contains(n.note)
    &&& 1 <= n.depth <= input.depth
    &&& n.degree == degree(ns, n.note)
    &&& n.direction == Some(direction_between(ns, n.from, n.note))
    &&& n.path == ns[n.note].path@
    &&& (traverses(input) ==> ms[n.note])
    &&& (n.note != root ==> ms[n.note])
    &&& (n.note == root ==> root_ok)
}

/// The shape every walk keeps: one node at least and no more than the limit (the start note
/// alone when the limit is zero), stopped by the limit only when it is full, no more distinct
/// notes than nodes, and every node after the first as `shown_ok` states.
pub open spec fn walk_shape(
    ns: Seq<LinkedNote>,
    ms: Seq<bool>,
    input: ExploreConnectionsInput,
    root: int,
    root_ok: bool,
    w: Walk,
) -> bool {
    &&& 1 <= w.nodes.len() <= max_nat(1, input.limit as nat)
    &&& (w.truncated ==> w.nodes.len() >= input.limit)
    &&& w.shown.len() == ns.len()
    &&& count_true(w.shown) <= w.nodes.len()
    &&& forall|i: int|
        1 <= i < w.nodes.len() ==> shown_ok(ns, ms, input, root, root_ok, #[trigger] w.nodes[i])
}

pub open spec fn visit_fine(ns: Seq<LinkedNote>, input: ExploreConnectionsInput, v: VisitView) -> bool {
    0 <= v.note < ns.len() && v.depth < input.depth
}

proof fn lemma_step_shape(
    ns: Seq<LinkedNote>,
    ms: Seq<bool>,
    input: ExploreConnectionsInput,
    root: int,
    root_ok: bool,
    w: Walk,
    v: VisitView,
    j: int,
)
    requires
        ms.len() == ns.len(),
        walk_shape(ns, ms, input, root, root_ok, w),
        visit_fine(ns, input, v),
        neighbors(ns, v.note).contains(j),
    ensures
        walk_shape(ns, ms, input, root, root_ok, step(ns, ms, input, root, root_ok, w, v, j).0),
        match step(ns, ms, input, root, root_ok, w, v, j).1 {
            Some(x) => visit_fine(ns, input, x),
            None => true,
        },
{
    lemma_neighbors_are_notes(ns, v.note, j);
    let r = step(ns, ms, input, root, root_ok, w, v, j);
    let w1 = r.0;
    if w1.nodes.len() == w.nodes.len() + 1 {
        if !w.shown[j] {
            lemma_count_true_set(w.shown, j);
        } else {
            assert(w.shown.update(j, true) =~= w.shown);
        }
        assert forall|i: int| 1 <= i < w1.nodes.len() implies shown_ok(
            ns,
            ms,
            input,
            root,
            root_ok,
            #[trigger] w1.nodes[i],
        ) by {
            if i < w.nodes.len() {
                assert(w1.nodes[i] == w.nodes[i]);
            }
        }
    }
}

proof fn lemma_visit_all_shape(
    ns: Seq<LinkedNote>,
    ms: Seq<bool>,
    input: ExploreConnectionsInput,
    root: int,
    root_ok: bool,
    w: Walk,
    v: VisitView,
    nb: Seq<int>,
)
    requires
        ms.len() == ns.len(),
        walk_shape(ns, ms, input, root, root_ok, w),
        visit_fine(ns, input, v),
        forall|k: int| 0 <= k < nb.len() ==> neighbors(ns, v.note).contains(#[trigger] nb[k]),
    ensures
        walk_shape(ns, ms, input, root, root_ok, visit_all(ns, ms, input, root, root_ok, w, v, nb).0),
        forall|k: int|
            0 <= k < visit_all(ns, ms, input, root, root_ok, w, v, nb).1.len() ==> visit_fine(
                ns,
                input,
                #[trigger] visit_all(ns, ms, input, root, root_ok, w, v, nb).1[k],
            ),
    decreases nb.len(),
{
    if nb.len() > 0 && !w.truncated {
        assert(neighbors(ns, v.note).contains(nb[0]));
        lemma_step_shape(ns, ms, input, root, root_ok, w, v, nb[0]);
        let (w1, o) = step(ns, ms, input, root, root_ok, w, v, nb[0]);
        assert forall|k: int| 0 <= k < nb.drop_first().len() implies neighbors(ns, v.note).contains(
            #[trigger] nb.drop_first()[k],
        ) by {
            assert(nb.drop_first()[k] == nb[k + 1]);
        }
        lemma_visit_all_shape(ns, ms, input, root, root_ok, w1, v, nb.drop_first());
        let rest = visit_all(ns, ms, input, root, root_ok, w1, v, nb.drop_first()).1;
        match o {
            Some(x) => {
                assert forall|k: int| 0 <= k < (seq![x] + rest).len() implies visit_fine(
                    ns,
                    input,
                    #[trigger] (seq![x] + rest)[k],
                ) by {
                    if k > 0 {
                        assert((seq![x] + rest)[k] == rest[k - 1]);
                    }
                }
            },
            None => {},
        }
    }
}

proof fn lemma_visit_level_shape(
    ns: Seq<LinkedNote>,
    ms: Seq<bool>,
    input: ExploreConnectionsInput,
    root: int,
    root_ok: bool,
    w: Walk,
    level: Seq<VisitView>,
)
    requires
        ms.len() == ns.len(),
        walk_shape(ns, ms, input, root, root_ok, w),
        forall|k: int| 0 <= k < level.len() ==> visit_fine(ns, input, #[trigger] level[k]),
    ensures
        walk_shape(ns, ms, input, root, root_ok, visit_level(ns, ms, input, root, root_ok, w, level).0),
        forall|k: int|
            0 <= k < visit_level(ns, ms, input, root, root_ok, w, level).1.len() ==> visit_fine(
                ns,
                input,
                #[trigger] visit_level(ns, ms, input, root, root_ok, w, level).1[k],
            ),
    decreases level.len(),
{
    if level.len() > 0 && !w.truncated {
        assert(visit_fine(ns, input, level[0]));
        lemma_visit_all_shape(
            ns,
            ms,
            input,
            root,
            root_ok,
            w,
            level[0],
            neighbors(ns, level[0].note),
        );
        let (w1, a) = visit_all(
            ns,
            ms,
            input,
            root,
            root_ok,
            w,
            level[0],
            neighbors(ns, level[0].note),
        );
        assert forall|k: int| 0 <= k < level.drop_first().len() implies visit_fine(
            ns,
            input,
            #[trigger] level.drop_first()[k],
        ) by {
            assert(level.drop_first()[k] == level[k + 1]);
        }
        lemma_visit_level_shape(ns, ms, input, root, root_ok, w1, level.drop_first());
        let b = visit_level(ns, ms, input, root, root_ok, w1, level.drop_first()).1;
        assert forall|k: int| 0 <= k < (a + b).len() implies visit_fine(
            ns,
            input,
            #[trigger] (a + b)[k],
        ) by {
            if k < a.len() {
                assert((a + b)[k] == a[k]);
            } else {
                assert((a + b)[k] == b[k - a.len()]);
            }
        }
    }
}

proof fn lemma_walk_levels_shape(
    ns: Seq<LinkedNote>,
    ms: Seq<bool>,
    input: ExploreConnectionsInput,
    root: int,
    root_ok: bool,
    w: Walk,
    level: Seq<VisitView>,
    d: nat,
)
    requires
        ms.len() == ns.len(),
        walk_shape(ns, ms, input, root, root_ok, w),
        forall|k: int| 0 <= k < level.len() ==> visit_fine(ns, input, #[trigger] level[k]),
    ensures
        walk_shape(ns, ms, input, root, root_ok, walk_levels(ns, ms, input, root, root_ok, w, level, d)),
    decreases input.depth - d,
{
    if !(d >= input.depth || level.len() == 0 || w.truncated) {
        lemma_visit_level_shape(ns, ms, input, root, root_ok, w, level);
        let (w1, next) = visit_level(ns, ms, input, root, root_ok, w, level);
        lemma_walk_levels_shape(ns, ms, input, root, root_ok, w1, next, d + 1);
    }
}

/// Every exploration shows the start note first and at most `input.limit` nodes (just the
/// start note when the limit is zero); the limit cuts it short only when that many nodes are
/// shown; no more distinct notes than nodes are shown; and every later node is a ranked
/// neighbor of the note it was reached from, at depth one to `input.depth`, with that link's
/// direction and its own degree and path, a note matching the filters (in traversal mode
/// always), unless it is the start note shown again, which never happens when filters are set
/// and the start note does not match them.
pub proof fn law_exploration_shape(
    ns: Seq<LinkedNote>,
    ms: Seq<bool>,
    input: ExploreConnectionsInput,
    start: int,
)
    requires
        0 <= start < ns.len(),
        ms.len() == ns.len(),
    ensures
        explored(ns, ms, input, start).nodes[0].note == root_of(ns, start),
        explored(ns, ms, input, start).nodes[0].path == ns[start].path@,
        walk_shape(
            ns,
            ms,
            input,
            root_of(ns, start),
            !has_filters(input) || ms[start],
            explored(ns, ms, input, start),
        ),
{
    let s = root_of(ns, start);
    lemma_note_at(ns, ns[start].path@);
    let w0 = first_walk(ns, ms, input, start);
    let root_ok = !has_filters(input) || ms[start];
    let none = Seq::new(ns.len(), |k: int| false);
    lemma_count_true_none(none);
    lemma_count_true_set(none, s);
    assert(none.update(s, true) =~= w0.shown);
    assert(walk_shape(ns, ms, input, s, root_ok, w0));
    if !(traverses(input) && has_filters(input) && !ms[start]) {
        let first = VisitView { note: s, depth: 0, shown_at: Some(0), anchor: 0, trail: seq![s] };
        if input.depth > 0 {
            assert(visit_fine(ns, input, first));
            lemma_walk_levels_shape(ns, ms, input, s, root_ok, w0, seq![first], 0);
        }
        lemma_walk_levels_first(ns, ms, input, s, root_ok, w0, seq![first], 0);
    }
}

/// Walking never changes the first node.
proof fn lemma_walk_levels_first(
    ns: Seq<LinkedNote>,
    ms: Seq<bool>,
    input: ExploreConnectionsInput,
    root: int,
    root_ok: bool,
    w: Walk,
    level: Seq<VisitView>,
    d: nat,
)
    requires
        w.nodes.len() > 0,
    ensures
        walk_levels(ns, ms, input, root, root_ok, w, level, d).nodes.len() > 0,
        walk_levels(ns, ms, input, root, root_ok, w, level, d).nodes[0] == w.nodes[0],
    decreases input.depth - d,
{
    if !(d >= input.depth || level.len() == 0 || w.truncated) {
        lemma_visit_level_first(ns, ms, input, root, root_ok, w, level);
        let (w1, next) = visit_level(ns, ms, input, root, root_ok, w, level);
        lemma_walk_levels_first(ns, ms, input, root, root_ok, w1, next, d + 1);
    }
}

proof fn lemma_visit_level_first(
    ns: Seq<LinkedNote>,
    ms: Seq<bool>,
    input: ExploreConnectionsInput,
    root: int,
    root_ok: bool,
    w: Walk,
    level: Seq<VisitView>,
)
    requires
        w.nodes.len() > 0,
    ensures
        visit_level(ns, ms, input, root, root_ok, w, level).0.nodes.len() > 0,
        visit_level(ns, ms, input, root, root_ok, w, level).0.nodes[0] == w.nodes[0],
    decreases level.len(),
{
    if level.len() > 0 && !w.truncated {
        lemma_visit_all_first(ns, ms, input, root, root_ok, w, level[0], neighbors(ns, level[0].note));
        let (w1, a) = visit_all(
            ns,
            ms,
            input,
            root,
            root_ok,
            w,
            level[0],
            neighbors(ns, level[0].note),
        );
        lemma_visit_level_first(ns, ms, input, root, root_ok, w1, level.drop_first());
    }
}

proof fn lemma_visit_all_first(
    ns: Seq<LinkedNote>,
    ms: Seq<bool>,
    input: ExploreConnectionsInput,
    root: int,
    root_ok: bool,
    w: Walk,
    v: VisitView,
    nb: Seq<int>,
)
    requires
        w.nodes.len() > 0,
    ensures
        visit_all(ns, ms, input, root, root_ok, w, v, nb).0.nodes.len() > 0,
        visit_all(ns, ms, input, root, root_ok, w, v, nb).0.nodes[0] == w.nodes[0],
    decreases nb.len(),
{
    if nb.len() > 0 && !w.truncated {
        let (w1, o) = step(ns, ms, input, root, root_ok, w, v, nb[0]);
        assert(w1.nodes.len() > 0 && w1.nodes[0] == w.nodes[0]);
        lemma_visit_all_first(ns, ms, input, root, root_ok, w1, v, nb.drop_first());
    }
}

// ---------------------------------------------------------------------------
// Ranking
// ---------------------------------------------------------------------------

proof fn lemma_ranks_total(ns: Seq<LinkedNote>, a: int, b: int)
    ensures
        ranks_before(ns, a, b) || ranks_before(ns, b, a),
{
    lemma_lex_total(ns[a].path@, ns[b].path@);
}

proof fn lemma_ranks_trans(ns: Seq<LinkedNote>, a: int, b: int, c: int)
    requires
        ranks_before(ns, a, b),
        ranks_before(ns, b, c),
    ensures
        ranks_before(ns, a, c),
{
    if degree(ns, a) == degree(ns, b) && degree(ns, b) == degree(ns, c) {
        lemma_lex_trans(ns[a].path@, ns[b].path@, ns[c].path@);
    }
}

proof fn lemma_rank_pos(ns: Seq<LinkedNote>, t: Seq<int>, x: int)
    ensures
        rank_pos(ns, t, x) <= t.len(),
        forall|k: int| 0 <= k < rank_pos(ns, t, x) ==> ranks_before(ns, #[trigger] t[k], x),
        rank_pos(ns, t, x) < t.len() ==> !ranks_before(ns, t[rank_pos(ns, t, x) as int], x),
    decreases t.len(),
{
    if t.len() > 0 && ranks_before(ns, t[0], x) {
        lemma_rank_pos(ns, t.drop_first(), x);
        assert forall|k: int| 0 <= k < rank_pos(ns, t, x) implies ranks_before(ns, #[trigger] t[k], x) by {
            if k > 0 {
                assert(t[k] == t.drop_first()[k - 1]);
            }
        }
        if rank_pos(ns, t, x) < t.len() {
            assert(t[rank_pos(ns, t, x) as int] == t.drop_first()[rank_pos(ns, t.drop_first(), x) as int]);
        }
    }
}

proof fn lemma_ranked_sorted(ns: Seq<LinkedNote>, s: Seq<int>)
    requires
        s.no_duplicates(),
    ensures
        ranked(ns, s).no_duplicates(),
        forall|a: int, b: int|
            0 <= a < b < ranked(ns, s).len() ==> ranks_before(
                ns,
                #[trigger] ranked(ns, s)[a],
                #[trigger] ranked(ns, s)[b],
            ),
    decreases s.len(),
{
    if s.len() > 0 {
        let x = s.last();
        let t = ranked(ns, s.drop_last());
        assert(s.drop_last().no_duplicates()) by {
            assert forall|a: int, b: int|
                0 <= a < b < s.drop_last().len() implies s.drop_last()[a] != s.drop_last()[b] by {
                assert(s.drop_last()[a] == s[a] && s.drop_last()[b] == s[b]);
            }
        }
        lemma_ranked_sorted(ns, s.drop_last());
        lemma_ranked_contains(ns, s.drop_last());
        lemma_rank_pos(ns, t, x);
        let p = rank_pos(ns, t, x) as int;
        let u = t.insert(p, x);
        assert(!t.contains(x)) by {
            if t.contains(x) {
                assert(s.drop_last().contains(x));
                let q = choose|q: int| 0 <= q < s.drop_last().len() && s.drop_last()[q] == x;
                assert(s[q] == s[s.len() - 1]);
            }
        }
        assert forall|a: int, b: int| 0 <= a < b < u.len() implies u[a] != u[b] by {
            if a < p && b < p {
                assert(u[a] == t[a] && u[b] == t[b]);
            } else if a < p && b == p {
                assert(u[a] == t[a]);
            } else if a < p {
                assert(u[a] == t[a] && u[b] == t[b - 1]);
            } else if a == p {
                assert(u[b] == t[b - 1]);
            } else {
                assert(u[a] == t[a - 1] && u[b] == t[b - 1]);
            }
        }
        assert forall|a: int, b: int| 0 <= a < b < u.len() implies ranks_before(
            ns,
            #[trigger] u[a],
            #[trigger] u[b],
        ) by {
            if p < t.len() {
                lemma_ranks_total(ns, t[p], x);
            }
            if b < p {
                assert(u[a] == t[a] && u[b] == t[b]);
            } else if b == p {
                assert(u[a] == t[a]);
            } else if a < p {
                assert(u[a] == t[a] && u[b] == t[b - 1]);
                assert(ranks_before(ns, t[a], x));
                if b - 1 > p {
                    assert(ranks_before(ns, t[p], t[b - 1]));
                    lemma_ranks_trans(ns, x, t[p], t[b - 1]);
                }
                lemma_ranks_trans(ns, t[a], x, t[b - 1]);
            } else if a == p {
                assert(u[b] == t[b - 1]);
                if b - 1 > p {
                    assert(ranks_before(ns, t[p], t[b - 1]));
                    lemma_ranks_trans(ns, x, t[p], t[b - 1]);
                }
            } else {
                assert(u[a] == t[a - 1] && u[b] == t[b - 1]);
            }
        }
    }
}

/// The neighbors of a note are the notes it links to or is linked from, each once, ranked:
/// a note with more connections comes first, and among equals the smaller path.
pub proof fn law_neighbors_ranked(ns: Seq<LinkedNote>, i: int)
    ensures
        neighbors(ns, i).no_duplicates(),
        forall|j: int|
            neighbors(ns, i).contains(j) <==> (exists|k: int|
                0 <= k < link_paths(ns, i).len() && #[trigger] note_at(ns, link_paths(ns, i)[k])
                    == Some(j)),
        forall|a: int, b: int|
            0 <= a < b < neighbors(ns, i).len() ==> ranks_before(
                ns,
                #[trigger] neighbors(ns, i)[a],
                #[trigger] neighbors(ns, i)[b],
            ),
{
    lemma_named_notes(ns, link_paths(ns, i));
    lemma_ranked_contains(ns, linked_notes(ns, i));
    lemma_ranked_sorted(ns, linked_notes(ns, i));
    assert forall|j: int|
        neighbors(ns, i).contains(j) <==> (exists|k: int|
            0 <= k < link_paths(ns, i).len() && #[trigger] note_at(ns, link_paths(ns, i)[k])
                == Some(j)) by {
        assert(neighbors(ns, i).contains(j) == linked_notes(ns, i).contains(j));
    }
}

/// What the exploration tool reports: where it started, the settings it ran with, the tree of
/// connections, and the counts of the walk.
pub struct ExploreConnectionsView {
    pub start_path: String,
    pub depth_limit: usize,
    pub node_limit: usize,
    pub filter_mode: ExploreFilterMode,
    pub dedup: bool,
    pub root: ExploreNodeView,
    pub unique_nodes: usize,
    pub shown_nodes: usize,
    pub max_depth_reached: usize,
    pub truncated: bool,
    pub filtered_results_empty: bool,
}

/// The report of an exploration: the graph's counts, its nodes as a tree under the start note
/// with the section of each node from `contexts`, and the settings of `input`.
pub fn connections_view(
    input: &ExploreConnectionsInput,
    graph: &ExploreGraph,
    contexts: &Vec<Option<String>>,
) -> (r: ExploreConnectionsView)
    requires
        graph.nodes.len() > 0,
        contexts.len() == graph.nodes.len(),
    ensures
        r.start_path@ == graph.nodes@[0].path@,
        r.depth_limit == input.depth,
        r.node_limit == input.limit,
        r.filter_mode == input.filter_mode,
        r.dedup == input.dedup,
        tree_view(r.root) == tree_at(node_views(graph.nodes@), opt_views(contexts@), 0),
        r.unique_nodes == graph.unique_nodes,
        r.shown_nodes == graph.shown_nodes,
        r.max_depth_reached == graph.max_depth_reached,
        r.truncated == graph.truncated,
        r.filtered_results_empty == graph.filtered_results_empty,
{
    let root = materialize_tree(&graph.nodes, contexts, 0);
    ExploreConnectionsView {
        start_path: graph.nodes[0].path.clone(),
        depth_limit: input.depth,
        node_limit: input.limit,
        filter_mode: input.filter_mode,
        dedup: input.dedup,
        root,
        unique_nodes: graph.unique_nodes,
        shown_nodes: graph.shown_nodes,
        max_depth_reached: graph.max_depth_reached,
        truncated: graph.truncated,
        filtered_results_empty: graph.filtered_results_empty,
    }
}


// ---------------------------------------------------------------------------
// Skipping repeats
// ---------------------------------------------------------------------------

/// When repeats are skipped: every shown note has been reached, and a node that is not a
/// cycle shows a note no earlier node shows.
pub open spec fn shows_once(ns: Seq<LinkedNote>, w: Walk) -> bool {
    &&& w.seen.len() == ns.len()
    &&& forall|i: int|
        0 <= i < w.nodes.len() ==> 0 <= (#[trigger] w.nodes[i]).note < ns.len() && w.seen[w.nodes[i].note]
    &&& forall|a: int, b: int|
        0 <= a < b < w.nodes.len() && !(#[trigger] w.nodes[b]).cycle ==> (#[trigger] w.nodes[a]).note
            != w.nodes[b].note
}

/// The notes on the way to a waiting note have all been reached.
pub open spec fn trail_seen(ns: Seq<LinkedNote>, w: Walk, v: VisitView) -> bool {
    &&& 0 <= v.note < ns.len()
    &&& forall|t: int| 0 <= t < v.trail.len() ==> 0 <= #[trigger] v.trail[t] < ns.len() && w.seen[v.trail[t]]
}

/// Reached notes stay reached.
pub open spec fn seen_grows(a: Walk, b: Walk) -> bool {
    &&& b.seen.len() == a.seen.len()
    &&& forall|k: int| 0 <= k < a.seen.len() && a.seen[k] ==> #[trigger] b.seen[k]
}

proof fn lemma_step_once(
    ns: Seq<LinkedNote>,
    ms: Seq<bool>,
    input: ExploreConnectionsInput,
    root: int,
    root_ok: bool,
    w: Walk,
    v: VisitView,
    j: int,
)
    requires
        input.dedup,
        shows_once(ns, w),
        trail_seen(ns, w, v),
        0 <= j < ns.len(),
    ensures
        shows_once(ns, step(ns, ms, input, root, root_ok, w, v, j).0),
        seen_grows(w, step(ns, ms, input, root, root_ok, w, v, j).0),
        match step(ns, ms, input, root, root_ok, w, v, j).1 {
            Some(x) => trail_seen(ns, step(ns, ms, input, root, root_ok, w, v, j).0, x),
            None => true,
        },
{
    let r = step(ns, ms, input, root, root_ok, w, v, j);
    let w1 = r.0;
    let cycle = v.trail.contains(j) || (input.dedup && w.seen[j]);
    if cycle && v.trail.contains(j) {
        let t = choose|t: int| 0 <= t < v.trail.len() && v.trail[t] == j;
        assert(w.seen[v.trail[t]]);
    }
    assert(cycle ==> w.seen[j]);
    if w1.nodes.len() == w.nodes.len() + 1 {
        assert forall|i: int| 0 <= i < w1.nodes.len() implies 0 <= (#[trigger] w1.nodes[i]).note
            < ns.len() && w1.seen[w1.nodes[i].note] by {
            if i < w.nodes.len() {
                assert(w1.nodes[i] == w.nodes[i]);
            }
        }
        assert forall|a: int, b: int|
            0 <= a < b < w1.nodes.len() && !(#[trigger] w1.nodes[b]).cycle implies (
            #[trigger] w1.nodes[a]).note != w1.nodes[b].note by {
            assert(w1.nodes[a] == w.nodes[a]);
            if b < w.nodes.len() {
                assert(w1.nodes[b] == w.nodes[b]);
            } else {
                assert(w.seen[w.nodes[a].note]);
            }
        }
    } else {
        assert(w1.nodes == w.nodes);
    }
    match r.1 {
        Some(x) => {
            assert forall|t: int| 0 <= t < x.trail.len() implies 0 <= #[trigger] x.trail[t] < ns.len()
                && w1.seen[x.trail[t]] by {
                if t < v.trail.len() {
                    assert(x.trail[t] == v.trail[t]);
                }
            }
        },
        None => {},
    }
}

proof fn lemma_visit_all_once(
    ns: Seq<LinkedNote>,
    ms: Seq<bool>,
    input: ExploreConnectionsInput,
    root: int,
    root_ok: bool,
    w: Walk,
    v: VisitView,
    nb: Seq<int>,
)
    requires
        input.dedup,
        shows_once(ns, w),
        trail_seen(ns, w, v),
        forall|k: int| 0 <= k < nb.len() ==> 0 <= #[trigger] nb[k] < ns.len(),
    ensures
        shows_once(ns, visit_all(ns, ms, input, root, root_ok, w, v, nb).0),
        seen_grows(w, visit_all(ns, ms, input, root, root_ok, w, v, nb).0),
        forall|k: int|
            0 <= k < visit_all(ns, ms, input, root, root_ok, w, v, nb).1.len() ==> trail_seen(
                ns,
                visit_all(ns, ms, input, root, root_ok, w, v, nb).0,
                #[trigger] visit_all(ns, ms, input, root, root_ok, w, v, nb).1[k],
            ),
    decreases nb.len(),
{
    if nb.len() > 0 && !w.truncated {
        assert(0 <= nb[0] < ns.len());
        lemma_step_once(ns, ms, input, root, root_ok, w, v, nb[0]);
        let (w1, o) = step(ns, ms, input, root, root_ok, w, v, nb[0]);
        assert(trail_seen(ns, w1, v)) by {
            assert forall|t: int| 0 <= t < v.trail.len() implies 0 <= #[trigger] v.trail[t] < ns.len()
                && w1.seen[v.trail[t]] by {
                assert(w.seen[v.trail[t]]);
            }
        }
        assert forall|k: int| 0 <= k < nb.drop_first().len() implies 0 <= #[trigger] nb.drop_first()[k]
            < ns.len() by {
            assert(nb.drop_first()[k] == nb[k + 1]);
        }
        lemma_visit_all_once(ns, ms, input, root, root_ok, w1, v, nb.drop_first());
        let (w2, rest) = visit_all(ns, ms, input, root, root_ok, w1, v, nb.drop_first());
        assert(seen_grows(w, w2)) by {
            assert forall|k: int| 0 <= k < w.seen.len() && w.seen[k] implies #[trigger] w2.seen[k] by {
                assert(w1.seen[k]);
            }
        }
        match o {
            Some(x) => {
                assert(trail_seen(ns, w2, x)) by {
                    assert forall|t: int| 0 <= t < x.trail.len() implies 0 <= #[trigger] x.trail[t]
                        < ns.len() && w2.seen[x.trail[t]] by {
                        assert(w1.seen[x.trail[t]]);
                    }
                }
                assert forall|k: int| 0 <= k < (seq![x] + rest).len() implies trail_seen(
                    ns,
                    w2,
                    #[trigger] (seq![x] + rest)[k],
                ) by {
                    if k > 0 {
                        assert((seq![x] + rest)[k] == rest[k - 1]);
                    }
                }
            },
            None => {},
        }
    }
}

proof fn lemma_trails_stay_seen(ns: Seq<LinkedNote>, a: Walk, b: Walk, level: Seq<VisitView>)
    requires
        seen_grows(a, b),
        a.seen.len() == ns.len(),
        forall|k: int| 0 <= k < level.len() ==> trail_seen(ns, a, #[trigger] level[k]),
    ensures
        forall|k: int| 0 <= k < level.len() ==> trail_seen(ns, b, #[trigger] level[k]),
{
    assert forall|k: int| 0 <= k < level.len() implies trail_seen(ns, b, #[trigger] level[k]) by {
        let v = level[k];
        assert(trail_seen(ns, a, v));
        assert forall|t: int| 0 <= t < v.trail.len() implies 0 <= #[trigger] v.trail[t] < ns.len()
            && b.seen[v.trail[t]] by {
            assert(a.seen[v.trail[t]]);
        }
    }
}

proof fn lemma_visit_level_once(
    ns: Seq<LinkedNote>,
    ms: Seq<bool>,
    input: ExploreConnectionsInput,
    root: int,
    root_ok: bool,
    w: Walk,
    level: Seq<VisitView>,
)
    requires
        input.dedup,
        shows_once(ns, w),
        forall|k: int| 0 <= k < level.len() ==> trail_seen(ns, w, #[trigger] level[k]),
    ensures
        shows_once(ns, visit_level(ns, ms, input, root, root_ok, w, level).0),
        seen_grows(w, visit_level(ns, ms, input, root, root_ok, w, level).0),
        forall|k: int|
            0 <= k < visit_level(ns, ms, input, root, root_ok, w, level).1.len() ==> trail_seen(
                ns,
                visit_level(ns, ms, input, root, root_ok, w, level).0,
                #[trigger] visit_level(ns, ms, input, root, root_ok, w, level).1[k],
            ),
    decreases level.len(),
{
    if level.len() > 0 && !w.truncated {
        let v = level[0];
        assert(trail_seen(ns, w, v));
        let nb = neighbors(ns, v.note);
        assert forall|k: int| 0 <= k < nb.len() implies 0 <= #[trigger] nb[k] < ns.len() by {
            assert(nb.contains(nb[k]));
            lemma_neighbors_are_notes(ns, v.note, nb[k]);
        }
        lemma_visit_all_once(ns, ms, input, root, root_ok, w, v, nb);
        let (w1, a) = visit_all(ns, ms, input, root, root_ok, w, v, nb);
        let rest = level.drop_first();
        assert forall|k: int| 0 <= k < rest.len() implies trail_seen(ns, w, #[trigger] rest[k]) by {
            assert(rest[k] == level[k + 1]);
        }
        lemma_trails_stay_seen(ns, w, w1, rest);
        lemma_visit_level_once(ns, ms, input, root, root_ok, w1, rest);
        let (w2, b) = visit_level(ns, ms, input, root, root_ok, w1, rest);
        lemma_trails_stay_seen(ns, w1, w2, a);
        assert(seen_grows(w, w2)) by {
            assert forall|k: int| 0 <= k < w.seen.len() && w.seen[k] implies #[trigger] w2.seen[k] by {
                assert(w1.seen[k]);
            }
        }
        assert forall|k: int| 0 <= k < (a + b).len() implies trail_seen(ns, w2, #[trigger] (a + b)[k]) by {
            if k < a.len() {
                assert((a + b)[k] == a[k]);
            } else {
                assert((a + b)[k] == b[k - a.len()]);
            }
        }
    }
}

proof fn lemma_walk_levels_once(
    ns: Seq<LinkedNote>,
    ms: Seq<bool>,
    input: ExploreConnectionsInput,
    root: int,
    root_ok: bool,
    w: Walk,
    level: Seq<VisitView>,
    d: nat,
)
    requires
        input.dedup,
        shows_once(ns, w),
        forall|k: int| 0 <= k < level.len() ==> trail_seen(ns, w, #[trigger] level[k]),
    ensures
        shows_once(ns, walk_levels(ns, ms, input, root, root_ok, w, level, d)),
    decreases input.depth - d,
{
    if !(d >= input.depth || level.len() == 0 || w.truncated) {
        lemma_visit_level_once(ns, ms, input, root, root_ok, w, level);
        let (w1, next) = visit_level(ns, ms, input, root, root_ok, w, level);
        lemma_walk_levels_once(ns, ms, input, root, root_ok, w1, next, d + 1);
    }
}

/// With repeats skipped, a note is shown at most once other than as a cycle: a node that is
/// not marked as a cycle shows a note that no earlier node shows.
pub proof fn law_dedup_shows_each_note_once(
    ns: Seq<LinkedNote>,
    ms: Seq<bool>,
    input: ExploreConnectionsInput,
    start: int,
)
    requires
        0 <= start < ns.len(),
        ms.len() == ns.len(),
        input.dedup,
    ensures
        forall|a: int, b: int|
            0 <= a < b < explored(ns, ms, input, start).nodes.len() && !(
            #[trigger] explored(ns, ms, input, start).nodes[b]).cycle ==> (
            #[trigger] explored(ns, ms, input, start).nodes[a]).note != explored(
                ns,
                ms,
                input,
                start,
            ).nodes[b].note,
{
    let s = root_of(ns, start);
    lemma_note_at(ns, ns[start].path@);
    let w0 = first_walk(ns, ms, input, start);
    assert(shows_once(ns, w0));
    if !(traverses(input) && has_filters(input) && !ms[start]) {
        let root_ok = !has_filters(input) || ms[start];
        let first = VisitView { note: s, depth: 0, shown_at: Some(0), anchor: 0, trail: seq![s] };
        assert(trail_seen(ns, w0, first));
        assert forall|k: int| 0 <= k < seq![first].len() implies trail_seen(ns, w0, #[trigger] seq![first][k]) by {
            assert(seq![first][k] == first);
        }
        lemma_walk_levels_once(ns, ms, input, s, root_ok, w0, seq![first], 0);
    }
}


// ---------------------------------------------------------------------------
// Level by level
// ---------------------------------------------------------------------------

/// Nodes are shown in order of depth, none deeper than `d + 1`.
pub open spec fn by_depth(w: Walk, d: nat) -> bool {
    &&& forall|a: int, b: int|
        0 <= a < b < w.nodes.len() ==> (#[trigger] w.nodes[a]).depth <= (#[trigger] w.nodes[b]).depth
    &&& forall|i: int| 0 <= i < w.nodes.len() ==> (#[trigger] w.nodes[i]).depth <= d + 1
}

proof fn lemma_step_by_depth(
    ns: Seq<LinkedNote>,
    ms: Seq<bool>,
    input: ExploreConnectionsInput,
    root: int,
    root_ok: bool,
    w: Walk,
    v: VisitView,
    j: int,
    d: nat,
)
    requires
        by_depth(w, d),
        v.depth == d,
    ensures
        by_depth(step(ns, ms, input, root, root_ok, w, v, j).0, d),
        match step(ns, ms, input, root, root_ok, w, v, j).1 {
            Some(x) => x.depth == d + 1,
            None => true,
        },
{
    let w1 = step(ns, ms, input, root, root_ok, w, v, j).0;
    if w1.nodes.len() == w.nodes.len() + 1 {
        assert forall|a: int, b: int| 0 <= a < b < w1.nodes.len() implies (#[trigger] w1.nodes[a]).depth
            <= (#[trigger] w1.nodes[b]).depth by {
            assert(w1.nodes[a] == w.nodes[a]);
            if b < w.nodes.len() {
                assert(w1.nodes[b] == w.nodes[b]);
            }
        }
        assert forall|i: int| 0 <= i < w1.nodes.len() implies (#[trigger] w1.nodes[i]).depth <= d + 1 by {
            if i < w.nodes.len() {
                assert(w1.nodes[i] == w.nodes[i]);
            }
        }
    } else {
        assert(w1.nodes == w.nodes);
    }
}

proof fn lemma_visit_all_by_depth(
    ns: Seq<LinkedNote>,
    ms: Seq<bool>,
    input: ExploreConnectionsInput,
    root: int,
    root_ok: bool,
    w: Walk,
    v: VisitView,
    nb: Seq<int>,
    d: nat,
)
    requires
        by_depth(w, d),
        v.depth == d,
    ensures
        by_depth(visit_all(ns, ms, input, root, root_ok, w, v, nb).0, d),
        forall|k: int|
            0 <= k < visit_all(ns, ms, input, root, root_ok, w, v, nb).1.len() ==> (
            #[trigger] visit_all(ns, ms, input, root, root_ok, w, v, nb).1[k]).depth == d + 1,
    decreases nb.len(),
{
    if nb.len() > 0 && !w.truncated {
        lemma_step_by_depth(ns, ms, input, root, root_ok, w, v, nb[0], d);
        let (w1, o) = step(ns, ms, input, root, root_ok, w, v, nb[0]);
        lemma_visit_all_by_depth(ns, ms, input, root, root_ok, w1, v, nb.drop_first(), d);
        let rest = visit_all(ns, ms, input, root, root_ok, w1, v, nb.drop_first()).1;
        match o {
            Some(x) => {
                assert forall|k: int| 0 <= k < (seq![x] + rest).len() implies (#[trigger] (seq![x]
                    + rest)[k]).depth == d + 1 by {
                    if k > 0 {
                        assert((seq![x] + rest)[k] == rest[k - 1]);
                    }
                }
            },
            None => {},
        }
    }
}

proof fn lemma_visit_level_by_depth(
    ns: Seq<LinkedNote>,
    ms: Seq<bool>,
    input: ExploreConnectionsInput,
    root: int,
    root_ok: bool,
    w: Walk,
    level: Seq<VisitView>,
    d: nat,
)
    requires
        by_depth(w, d),
        forall|k: int| 0 <= k < level.len() ==> (#[trigger] level[k]).depth == d,
    ensures
        by_depth(visit_level(ns, ms, input, root, root_ok, w, level).0, d),
        forall|k: int|
            0 <= k < visit_level(ns, ms, input, root, root_ok, w, level).1.len() ==> (
            #[trigger] visit_level(ns, ms, input, root, root_ok, w, level).1[k]).depth == d + 1,
    decreases level.len(),
{
    if level.len() > 0 && !w.truncated {
        assert(level[0].depth == d);
        lemma_visit_all_by_depth(
            ns,
            ms,
            input,
            root,
            root_ok,
            w,
            level[0],
            neighbors(ns, level[0].note),
            d,
        );
        let (w1, a) = visit_all(
            ns,
            ms,
            input,
            root,
            root_ok,
            w,
            level[0],
            neighbors(ns, level[0].note),
        );
        let rest = level.drop_first();
        assert forall|k: int| 0 <= k < rest.len() implies (#[trigger] rest[k]).depth == d by {
            assert(rest[k] == level[k + 1]);
        }
        lemma_visit_level_by_depth(ns, ms, input, root, root_ok, w1, rest, d);
        let b = visit_level(ns, ms, input, root, root_ok, w1, rest).1;
        assert forall|k: int| 0 <= k < (a + b).len() implies (#[trigger] (a + b)[k]).depth == d + 1 by {
            if k < a.len() {
                assert((a + b)[k] == a[k]);
            } else {
                assert((a + b)[k] == b[k - a.len()]);
            }
        }
    }
}

proof fn lemma_walk_levels_by_depth(
    ns: Seq<LinkedNote>,
    ms: Seq<bool>,
    input: ExploreConnectionsInput,
    root: int,
    root_ok: bool,
    w: Walk,
    level: Seq<VisitView>,
    d: nat,
)
    requires
        by_depth(w, d),
        forall|k: int| 0 <= k < level.len() ==> (#[trigger] level[k]).depth == d,
    ensures
        forall|a: int, b: int|
            0 <= a < b < walk_levels(ns, ms, input, root, root_ok, w, level, d).nodes.len() ==> (
            #[trigger] walk_levels(ns, ms, input, root, root_ok, w, level, d).nodes[a]).depth <= (
            #[trigger] walk_levels(ns, ms, input, root, root_ok, w, level, d).nodes[b]).depth,
    decreases input.depth - d,
{
    if !(d >= input.depth || level.len() == 0 || w.truncated) {
        lemma_visit_level_by_depth(ns, ms, input, root, root_ok, w, level, d);
        let (w1, next) = visit_level(ns, ms, input, root, root_ok, w, level);
        assert(by_depth(w1, d + 1));
        lemma_walk_levels_by_depth(ns, ms, input, root, root_ok, w1, next, d + 1);
    }
}

/// Exploring is breadth-first: nodes are shown in order of their depth.
pub proof fn law_exploration_is_breadth_first(
    ns: Seq<LinkedNote>,
    ms: Seq<bool>,
    input: ExploreConnectionsInput,
    start: int,
)
    requires
        0 <= start < ns.len(),
        ms.len() == ns.len(),
    ensures
        forall|a: int, b: int|
            0 <= a < b < explored(ns, ms, input, start).nodes.len() ==> (
            #[trigger] explored(ns, ms, input, start).nodes[a]).depth <= (
            #[trigger] explored(ns, ms, input, start).nodes[b]).depth,
{
    let s = root_of(ns, start);
    let w0 = first_walk(ns, ms, input, start);
    assert(by_depth(w0, 0));
    if !(traverses(input) && has_filters(input) && !ms[start]) {
        let root_ok = !has_filters(input) || ms[start];
        let first = VisitView { note: s, depth: 0, shown_at: Some(0), anchor: 0, trail: seq![s] };
        assert forall|k: int| 0 <= k < seq![first].len() implies (#[trigger] seq![first][k]).depth == 0 by {
            assert(seq![first][k] == first);
        }
        lemma_walk_levels_by_depth(ns, ms, input, s, root_ok, w0, seq![first], 0);
    }
}


// ---------------------------------------------------------------------------
// Each node hangs under an earlier, shallower node
// ---------------------------------------------------------------------------

/// Every node after the first hangs under an earlier node that is less deep than it.
pub open spec fn hangs_under_earlier(w: Walk) -> bool {
    forall|i: int|
        1 <= i < w.nodes.len() ==> 0 <= (#[trigger] w.nodes[i]).parent < i && w.nodes[w.nodes[i].parent].depth
            < w.nodes[i].depth
}

/// A waiting note hangs its neighbors under a shown node no deeper than itself (its own node
/// when it is shown).
pub open spec fn anchored(w: Walk, v: VisitView) -> bool {
    &&& 0 <= v.anchor < w.nodes.len()
    &&& w.nodes[v.anchor].depth <= v.depth
    &&& (v.shown_at matches Some(i) ==> i == v.anchor)
}

/// The nodes of `a` are the first nodes of `b`.
pub open spec fn extends(a: Walk, b: Walk) -> bool {
    &&& a.nodes.len() <= b.nodes.len()
    &&& forall|i: int| 0 <= i < a.nodes.len() ==> #[trigger] b.nodes[i] == a.nodes[i]
}

proof fn lemma_step_hangs(
    ns: Seq<LinkedNote>,
    ms: Seq<bool>,
    input: ExploreConnectionsInput,
    root: int,
    root_ok: bool,
    w: Walk,
    v: VisitView,
    j: int,
)
    requires
        hangs_under_earlier(w),
        anchored(w, v),
    ensures
        hangs_under_earlier(step(ns, ms, input, root, root_ok, w, v, j).0),
        extends(w, step(ns, ms, input, root, root_ok, w, v, j).0),
        match step(ns, ms, input, root, root_ok, w, v, j).1 {
            Some(x) => anchored(step(ns, ms, input, root, root_ok, w, v, j).0, x),
            None => true,
        },
{
    let w1 = step(ns, ms, input, root, root_ok, w, v, j).0;
    if w1.nodes.len() == w.nodes.len() + 1 {
        let n = w.nodes.len() as int;
        assert(w1.nodes[n].parent == v.anchor);
        assert(w1.nodes[v.anchor] == w.nodes[v.anchor]);
        assert forall|i: int| 1 <= i < w1.nodes.len() implies 0 <= (#[trigger] w1.nodes[i]).parent < i
            && w1.nodes[w1.nodes[i].parent].depth < w1.nodes[i].depth by {
            if i < n {
                assert(w1.nodes[i] == w.nodes[i]);
                assert(w1.nodes[w.nodes[i].parent] == w.nodes[w.nodes[i].parent]);
            }
        }
        assert forall|i: int| 0 <= i < w.nodes.len() implies #[trigger] w1.nodes[i] == w.nodes[i] by {}
    } else {
        assert(w1.nodes == w.nodes);
    }
}

proof fn lemma_anchored_extends(a: Walk, b: Walk, v: VisitView)
    requires
        anchored(a, v),
        extends(a, b),
    ensures
        anchored(b, v),
{
    assert(b.nodes[v.anchor] == a.nodes[v.anchor]);
}

proof fn lemma_visit_all_hangs(
    ns: Seq<LinkedNote>,
    ms: Seq<bool>,
    input: ExploreConnectionsInput,
    root: int,
    root_ok: bool,
    w: Walk,
    v: VisitView,
    nb: Seq<int>,
)
    requires
        hangs_under_earlier(w),
        anchored(w, v),
    ensures
        hangs_under_earlier(visit_all(ns, ms, input, root, root_ok, w, v, nb).0),
        extends(w, visit_all(ns, ms, input, root, root_ok, w, v, nb).0),
        forall|k: int|
            0 <= k < visit_all(ns, ms, input, root, root_ok, w, v, nb).1.len() ==> anchored(
                visit_all(ns, ms, input, root, root_ok, w, v, nb).0,
                #[trigger] visit_all(ns, ms, input, root, root_ok, w, v, nb).1[k],
            ),
    decreases nb.len(),
{
    if nb.len() > 0 && !w.truncated {
        lemma_step_hangs(ns, ms, input, root, root_ok, w, v, nb[0]);
        let (w1, o) = step(ns, ms, input, root, root_ok, w, v, nb[0]);
        lemma_anchored_extends(w, w1, v);
        lemma_visit_all_hangs(ns, ms, input, root, root_ok, w1, v, nb.drop_first());
        let (w2, rest) = visit_all(ns, ms, input, root, root_ok, w1, v, nb.drop_first());
        match o {
            Some(x) => {
                lemma_anchored_extends(w1, w2, x);
                assert forall|k: int| 0 <= k < (seq![x] + rest).len() implies anchored(
                    w2,
                    #[trigger] (seq![x] + rest)[k],
                ) by {
                    if k > 0 {
                        assert((seq![x] + rest)[k] == rest[k - 1]);
                    }
                }
            },
            None => {},
        }
    } else {
        assert(extends(w, w));
    }
}

proof fn lemma_visit_level_hangs(
    ns: Seq<LinkedNote>,
    ms: Seq<bool>,
    input: ExploreConnectionsInput,
    root: int,
    root_ok: bool,
    w: Walk,
    level: Seq<VisitView>,
)
    requires
        hangs_under_earlier(w),
        forall|k: int| 0 <= k < level.len() ==> anchored(w, #[trigger] level[k]),
    ensures
        hangs_under_earlier(visit_level(ns, ms, input, root, root_ok, w, level).0),
        extends(w, visit_level(ns, ms, input, root, root_ok, w, level).0),
        forall|k: int|
            0 <= k < visit_level(ns, ms, input, root, root_ok, w, level).1.len() ==> anchored(
                visit_level(ns, ms, input, root, root_ok, w, level).0,
                #[trigger] visit_level(ns, ms, input, root, root_ok, w, level).1[k],
            ),
    decreases level.len(),
{
    if level.len() > 0 && !w.truncated {
        assert(anchored(w, level[0]));
        let nb = neighbors(ns, level[0].note);
        lemma_visit_all_hangs(ns, ms, input, root, root_ok, w, level[0], nb);
        let (w1, a) = visit_all(ns, ms, input, root, root_ok, w, level[0], nb);
        let rest = level.drop_first();
        assert forall|k: int| 0 <= k < rest.len() implies anchored(w1, #[trigger] rest[k]) by {
            assert(rest[k] == level[k + 1]);
            lemma_anchored_extends(w, w1, level[k + 1]);
        }
        lemma_visit_level_hangs(ns, ms, input, root, root_ok, w1, rest);
        let (w2, b) = visit_level(ns, ms, input, root, root_ok, w1, rest);
        assert forall|k: int| 0 <= k < (a + b).len() implies anchored(w2, #[trigger] (a + b)[k]) by {
            if k < a.len() {
                assert((a + b)[k] == a[k]);
                lemma_anchored_extends(w1, w2, a[k]);
            } else {
                assert((a + b)[k] == b[k - a.len()]);
            }
        }
    } else {
        assert(extends(w, w));
    }
}

proof fn lemma_walk_levels_hangs(
    ns: Seq<LinkedNote>,
    ms: Seq<bool>,
    input: ExploreConnectionsInput,
    root: int,
    root_ok: bool,
    w: Walk,
    level: Seq<VisitView>,
    d: nat,
)
    requires
        hangs_under_earlier(w),
        forall|k: int| 0 <= k < level.len() ==> anchored(w, #[trigger] level[k]),
    ensures
        hangs_under_earlier(walk_levels(ns, ms, input, root, root_ok, w, level, d)),
    decreases input.depth - d,
{
    if !(d >= input.depth || level.len() == 0 || w.truncated) {
        lemma_visit_level_hangs(ns, ms, input, root, root_ok, w, level);
        let (w1, next) = visit_level(ns, ms, input, root, root_ok, w, level);
        lemma_walk_levels_hangs(ns, ms, input, root, root_ok, w1, next, d + 1);
    }
}

/// A neighbor is named by the note's links or backlinks.
proof fn lemma_neighbor_is_linked(ns: Seq<LinkedNote>, i: int, j: int)
    requires
        0 <= i < ns.len(),
        neighbors(ns, i).contains(j),
    ensures
        str_views(ns[i].outgoing_links@).contains(ns[j].path@) || str_views(
            ns[i].backlinks@,
        ).contains(ns[j].path@),
{
    lemma_ranked_contains(ns, linked_notes(ns, i));
    lemma_named_notes(ns, link_paths(ns, i));
    let ps = link_paths(ns, i);
    assert(linked_notes(ns, i).contains(j));
    assert(named_notes(ns, ps).contains(j));
    assert(exists|k: int| 0 <= k < ps.len() && #[trigger] note_at(ns, ps[k]) == Some(j));
    let k = choose|k: int| 0 <= k < ps.len() && #[trigger] note_at(ns, ps[k]) == Some(j);
    lemma_note_at(ns, ps[k]);
    let o = str_views(ns[i].outgoing_links@);
    let b = str_views(ns[i].backlinks@);
    assert(ps == o + b);
    if k < o.len() {
        assert(ps[k] == o[k]);
        assert(o.contains(ns[j].path@));
    } else {
        assert(ps[k] == b[k - o.len()]);
        assert(b.contains(ns[j].path@));
    }
}

/// Every node after the start note shows how the note it was reached from is linked with it:
/// both ways exactly when that note links to it and has it among its backlinks, outgoing
/// exactly when it only links to it, backlink exactly when it is only among the backlinks;
/// one of the two always holds.
pub proof fn law_direction_follows_links(
    ns: Seq<LinkedNote>,
    ms: Seq<bool>,
    input: ExploreConnectionsInput,
    start: int,
)
    requires
        0 <= start < ns.len(),
        ms.len() == ns.len(),
    ensures
        forall|i: int|
            1 <= i < explored(ns, ms, input, start).nodes.len() ==> {
                let n = #[trigger] explored(ns, ms, input, start).nodes[i];
                let out = str_views(ns[n.from].outgoing_links@).contains(n.path);
                let back = str_views(ns[n.from].backlinks@).contains(n.path);
                &&& 0 <= n.from < ns.len()
                &&& out || back
                &&& (n.direction == Some(ConnectionDirection::Both) <==> out && back)
                &&& (n.direction == Some(ConnectionDirection::Outgoing) <==> out && !back)
                &&& (n.direction == Some(ConnectionDirection::Backlink) <==> !out && back)
            },
{
    law_exploration_shape(ns, ms, input, start);
    let w = explored(ns, ms, input, start);
    assert forall|i: int| 1 <= i < w.nodes.len() implies {
        let n = #[trigger] w.nodes[i];
        let out = str_views(ns[n.from].outgoing_links@).contains(n.path);
        let back = str_views(ns[n.from].backlinks@).contains(n.path);
        &&& 0 <= n.from < ns.len()
        &&& out || back
        &&& (n.direction == Some(ConnectionDirection::Both) <==> out && back)
        &&& (n.direction == Some(ConnectionDirection::Outgoing) <==> out && !back)
        &&& (n.direction == Some(ConnectionDirection::Backlink) <==> !out && back)
    } by {
        let n = w.nodes[i];
        assert(shown_ok(ns, ms, input, root_of(ns, start), !has_filters(input) || ms[start], n));
        lemma_neighbor_is_linked(ns, n.from, n.note);
    }
}

/// In the tree of connections every node after the start note hangs under an earlier node,
/// one that is less deep than it.
pub proof fn law_children_are_deeper_than_their_parent(
    ns: Seq<LinkedNote>,
    ms: Seq<bool>,
    input: ExploreConnectionsInput,
    start: int,
)
    requires
        0 <= start < ns.len(),
        ms.len() == ns.len(),
    ensures
        hangs_under_earlier(explored(ns, ms, input, start)),
{
    let s = root_of(ns, start);
    let w0 = first_walk(ns, ms, input, start);
    assert(hangs_under_earlier(w0));
    if !(traverses(input) && has_filters(input) && !ms[start]) {
        let root_ok = !has_filters(input) || ms[start];
        let first = VisitView { note: s, depth: 0, shown_at: Some(0), anchor: 0, trail: seq![s] };
        assert forall|k: int| 0 <= k < seq![first].len() implies anchored(w0, #[trigger] seq![first][k]) by {
            assert(seq![first][k] == first);
        }
        lemma_walk_levels_hangs(ns, ms, input, s, root_ok, w0, seq![first], 0);
    }
}


// ---------------------------------------------------------------------------
// The tree shows every node
// ---------------------------------------------------------------------------

/// The number of nodes of a tree.
pub open spec fn tree_size(t: TreeView) -> nat
    decreases t,
{
    1 + trees_size(t.children)
}

pub open spec fn trees_size(s: Seq<TreeView>) -> nat
    decreases s,
{
    if s.len() == 0 {
        0
    } else {
        tree_size(s[0]) + trees_size(s.subrange(1, s.len() as int))
    }
}

/// Whether following parents from node `j` meets a node at `i` or later that hangs directly
/// under node `p`.
pub open spec fn reaches(nodes: Seq<NodeView>, p: int, i: int, j: int) -> bool
    decreases j,
{
    if j < i || j <= p || j >= nodes.len() {
        false
    } else if nodes[j].parent == p {
        true
    } else if 0 <= nodes[j].parent < j {
        reaches(nodes, p, i, nodes[j].parent)
    } else {
        false
    }
}

/// How many of the indices from `k` below `n` satisfy `f`.
pub open spec fn count_where(n: int, k: int, f: spec_fn(int) -> bool) -> nat
    decreases n - k,
{
    if k >= n {
        0
    } else {
        (if f(k) {
            1nat
        } else {
            0nat
        }) + count_where(n, k + 1, f)
    }
}

proof fn lemma_count_split(n: int, k: int, f: spec_fn(int) -> bool, g: spec_fn(int) -> bool, h: spec_fn(int) -> bool)
    requires
        forall|j: int| k <= j < n ==> (#[trigger] f(j) <==> (g(j) || h(j))) && !(g(j) && h(j)),
    ensures
        count_where(n, k, f) == count_where(n, k, g) + count_where(n, k, h),
    decreases n - k,
{
    if k < n {
        assert(f(k) <==> (g(k) || h(k)));
        lemma_count_split(n, k + 1, f, g, h);
    }
}

proof fn lemma_count_all(n: int, k: int, f: spec_fn(int) -> bool)
    requires
        k <= n,
        forall|j: int| k <= j < n ==> #[trigger] f(j),
    ensures
        count_where(n, k, f) == n - k,
    decreases n - k,
{
    if k < n {
        assert(f(k));
        lemma_count_all(n, k + 1, f);
    }
}

proof fn lemma_trees_size_cons(a: TreeView, s: Seq<TreeView>)
    ensures
        trees_size(seq![a] + s) == tree_size(a) + trees_size(s),
{
    let t = seq![a] + s;
    assert(t[0] == a);
    assert(t.subrange(1, t.len() as int) =~= s);
}

/// Nodes hang under earlier nodes.
pub open spec fn parents_earlier(nodes: Seq<NodeView>) -> bool {
    forall|i: int| 1 <= i < nodes.len() ==> 0 <= #[trigger] nodes[i].parent < i
}

/// When node `i` hangs under `p`, what lies under `p` from `i` on is node `i`, what lies under
/// node `i`, and what lies under `p` after `i`.
proof fn lemma_reaches_split(nodes: Seq<NodeView>, p: int, i: int, j: int)
    requires
        parents_earlier(nodes),
        0 <= p < i < j < nodes.len(),
        nodes[i].parent == p,
    ensures
        reaches(nodes, p, i, j) <==> (reaches(nodes, i, i + 1, j) || reaches(nodes, p, i + 1, j)),
        !(reaches(nodes, i, i + 1, j) && reaches(nodes, p, i + 1, j)),
    decreases j,
{
    let q = nodes[j].parent;
    if q != p {
        if q > i {
            lemma_reaches_split(nodes, p, i, q);
        } else if q < i {
            assert(!reaches(nodes, i, i + 1, q));
            assert(!reaches(nodes, p, i + 1, q));
            assert(!reaches(nodes, p, i, q));
        } else {
            assert(reaches(nodes, p, i, i));
            assert(!reaches(nodes, p, i + 1, i));
        }
    } else {
        assert(!reaches(nodes, i, i + 1, p));
    }
}

/// When node `i` does not hang under `p`, what lies under `p` from `i` on is what lies under
/// it after `i`.
proof fn lemma_reaches_skip(nodes: Seq<NodeView>, p: int, i: int, j: int)
    requires
        parents_earlier(nodes),
        0 <= p < i <= j < nodes.len(),
        nodes[i].parent != p,
    ensures
        reaches(nodes, p, i, j) <==> (j > i && reaches(nodes, p, i + 1, j)),
    decreases j,
{
    let q = nodes[j].parent;
    assert(0 <= q < j);
    if j == i {
        assert(!reaches(nodes, p, i, nodes[i].parent));
    } else if q != p {
        if q >= i {
            lemma_reaches_skip(nodes, p, i, q);
            assert(reaches(nodes, p, i, j) == reaches(nodes, p, i, q));
            assert(reaches(nodes, p, i + 1, j) == reaches(nodes, p, i + 1, q));
        } else {
            assert(!reaches(nodes, p, i + 1, q));
            assert(!reaches(nodes, p, i, q));
        }
    }
}

proof fn lemma_trees_under_size(nodes: Seq<NodeView>, ctx: Seq<Option<Seq<char>>>, p: int, i: int)
    requires
        parents_earlier(nodes),
        0 <= p < i <= nodes.len(),
    ensures
        trees_size(trees_under(nodes, ctx, p, i)) == count_where(
            nodes.len() as int,
            i,
            |j: int| reaches(nodes, p, i, j),
        ),
    decreases nodes.len() - i, 1int,
{
    let n = nodes.len() as int;
    let f = |j: int| reaches(nodes, p, i, j);
    let g = |j: int| reaches(nodes, i, i + 1, j);
    let h = |j: int| reaches(nodes, p, i + 1, j);
    if i < n {
        lemma_trees_under_size(nodes, ctx, p, i + 1);
        if nodes[i].parent == p {
            lemma_tree_at_size(nodes, ctx, i);
            lemma_trees_size_cons(tree_at(nodes, ctx, i), trees_under(nodes, ctx, p, i + 1));
            assert(f(i));
            assert forall|j: int| i + 1 <= j < n implies (#[trigger] f(j) <==> (g(j) || h(j))) && !(g(j)
                && h(j)) by {
                lemma_reaches_split(nodes, p, i, j);
            }
            lemma_count_split(n, i + 1, f, g, h);
        } else {
            assert(!f(i)) by {
                lemma_reaches_skip(nodes, p, i, i);
            }
            let none = |j: int| false;
            assert forall|j: int| i + 1 <= j < n implies (#[trigger] f(j) <==> (h(j) || none(j))) && !(h(j)
                && none(j)) by {
                lemma_reaches_skip(nodes, p, i, j);
            }
            lemma_count_split(n, i + 1, f, h, none);
            assert(count_where(n, i + 1, none) == 0) by {
                lemma_count_none(n, i + 1, none);
            }
        }
    }
}

proof fn lemma_count_none(n: int, k: int, f: spec_fn(int) -> bool)
    requires
        forall|j: int| k <= j < n ==> !#[trigger] f(j),
    ensures
        count_where(n, k, f) == 0,
    decreases n - k,
{
    if k < n {
        assert(!f(k));
        lemma_count_none(n, k + 1, f);
    }
}

proof fn lemma_tree_at_size(nodes: Seq<NodeView>, ctx: Seq<Option<Seq<char>>>, p: int)
    requires
        parents_earlier(nodes),
        0 <= p < nodes.len(),
    ensures
        tree_size(tree_at(nodes, ctx, p)) == 1 + count_where(
            nodes.len() as int,
            p + 1,
            |j: int| reaches(nodes, p, p + 1, j),
        ),
    decreases nodes.len() - p, 0int,
{
    lemma_trees_under_size(nodes, ctx, p, p + 1);
}

proof fn lemma_all_reach_first(nodes: Seq<NodeView>, j: int)
    requires
        parents_earlier(nodes),
        1 <= j < nodes.len(),
    ensures
        reaches(nodes, 0, 1, j),
    decreases j,
{
    let q = nodes[j].parent;
    assert(0 <= q < j);
    if q != 0 {
        lemma_all_reach_first(nodes, q);
    }
}

/// When each node hangs under an earlier one, the tree under the first node holds every node.
pub proof fn law_tree_holds_every_node(nodes: Seq<NodeView>, ctx: Seq<Option<Seq<char>>>)
    requires
        nodes.len() > 0,
        parents_earlier(nodes),
    ensures
        tree_size(tree_at(nodes, ctx, 0)) == nodes.len(),
{
    lemma_tree_at_size(nodes, ctx, 0);
    let f = |j: int| reaches(nodes, 0, 1, j);
    assert forall|j: int| 1 <= j < nodes.len() implies #[trigger] f(j) by {
        lemma_all_reach_first(nodes, j);
    }
    lemma_count_all(nodes.len() as int, 1, f);
}

/// The tree of an exploration shows every node the walk showed: as many as it reports shown.
pub proof fn law_exploration_tree_shows_every_node(
    ns: Seq<LinkedNote>,
    ms: Seq<bool>,
    input: ExploreConnectionsInput,
    start: int,
    ctx: Seq<Option<Seq<char>>>,
)
    requires
        0 <= start < ns.len(),
        ms.len() == ns.len(),
    ensures
        tree_size(tree_at(explored(ns, ms, input, start).nodes, ctx, 0)) == explored(
            ns,
            ms,
            input,
            start,
        ).nodes.len(),
{
    law_exploration_shape(ns, ms, input, start);
    law_children_are_deeper_than_their_parent(ns, ms, input, start);
    let w = explored(ns, ms, input, start);
    assert forall|i: int| 1 <= i < w.nodes.len() implies 0 <= #[trigger] w.nodes[i].parent < i by {}
    law_tree_holds_every_node(w.nodes, ctx);
}

} // verus!

//! Obsidian wikilinks: `[[Target]]`, `[[Target|alias]]`, `[[Target#Heading]]`,
//! `[[Target#Heading|alias]]`.
//!
//! A link starts at `[[`, ends at the first `]` after it (which must be followed by a
//! second `]`), and its inside reads `target ( '#' heading )? ( '|' alias )?`, where the
//! target is non-empty and holds none of `]`, `|`, `#`. Links are found left to right and
//! do not overlap.
use crate::text::{
    chars_of, index_of, index_of2, index_of2_in, index_of_from, index_of_in, push_all, slice_of,
    string_of, trim, trim_exec,
};
use crate::types::{link_views, Link, LinkView};
use vstd::prelude::*;

verus! {

/// One wikilink found in a text: where it ends (exclusive), its raw target and raw alias.
pub struct WikiSpan {
    pub end: int,
    pub target: Seq<char>,
    pub alias: Seq<char>,
}

/// The alias part of a link's inside, given the index `p` of the first `|` or `#`.
pub open spec fn alias_part(inner: Seq<char>, p: int) -> Seq<char> {
    if p >= inner.len() {
        Seq::empty()
    } else if inner[p] == '|' {
        inner.skip(p + 1)
    } else {
        let q = p + index_of(inner.skip(p), '|');
        if q < inner.len() {
            inner.skip(q + 1)
        } else {
            Seq::empty()
        }
    }
}

/// Index of the first `]` at or after `i + 2`.
pub open spec fn close_index(s: Seq<char>, i: int) -> int {
    i + 2 + index_of(s.skip(i + 2), ']')
}

/// The wikilink that starts at index `i` of `s`, if one does.
pub open spec fn wikilink_at(s: Seq<char>, i: int) -> Option<WikiSpan> {
    if 0 <= i && i + 2 <= s.len() && s[i] == '[' && s[i + 1] == '[' {
        let k = close_index(s, i);
        let inner = s.subrange(i + 2, k);
        let p = index_of2(inner, '|', '#');
        if k + 1 < s.len() && s[k + 1] == ']' && p > 0 {
            Some(WikiSpan { end: k + 2, target: inner.take(p as int), alias: alias_part(inner, p as int) })
        } else {
            None
        }
    } else {
        None
    }
}

/// All wikilinks of `s` found from index `i` on.
pub open spec fn wikilinks_from(s: Seq<char>, i: int) -> Seq<WikiSpan>
    decreases s.len() - i,
{
    if i < 0 || i >= s.len() {
        seq![]
    } else if wikilink_at(s, i) is Some {
        seq![wikilink_at(s, i).unwrap()] + wikilinks_from(s, close_index(s, i) + 2)
    } else {
        wikilinks_from(s, i + 1)
    }
}

/// The `Link` a wikilink stands for: trimmed target, trimmed alias when non-empty.
pub open spec fn link_of(m: WikiSpan) -> LinkView {
    LinkView {
        target: trim(m.target),
        alias: if trim(m.alias).len() == 0 {
            None
        } else {
            Some(trim(m.alias))
        },
        resolved_path: None,
    }
}

/// The text a wikilink is shown as: its alias when non-empty, else its target.
pub open spec fn shown_text(m: WikiSpan) -> Seq<char> {
    if trim(m.alias).len() == 0 {
        trim(m.target)
    } else {
        trim(m.alias)
    }
}

/// `s[i..]` with each wikilink replaced by its shown text (`keep`) or by nothing.
pub open spec fn replace_links_from(s: Seq<char>, i: int, keep: bool) -> Seq<char>
    decreases s.len() - i,
{
    if i < 0 || i >= s.len() {
        seq![]
    } else if wikilink_at(s, i) is Some {
        (if keep {
            shown_text(wikilink_at(s, i).unwrap())
        } else {
            Seq::empty()
        }) + replace_links_from(s, close_index(s, i) + 2, keep)
    } else {
        seq![s[i]] + replace_links_from(s, i + 1, keep)
    }
}

/// The links of `s`, in order.
pub open spec fn links_of(s: Seq<char>) -> Seq<LinkView> {
    wikilinks_from(s, 0).map_values(|m: WikiSpan| link_of(m))
}

/// `s` with every wikilink replaced by its shown text.
pub open spec fn resolved_text(s: Seq<char>) -> Seq<char> {
    replace_links_from(s, 0, true)
}

/// `s` with every wikilink removed.
pub open spec fn unlinked_text(s: Seq<char>) -> Seq<char> {
    replace_links_from(s, 0, false)
}

/// The wikilink starting at `i`, as (end, target, alias).
fn wikilink_at_exec(s: &Vec<char>, i: usize) -> (r: Option<(usize, Vec<char>, Vec<char>)>)
    requires
        i < s.len(),
    ensures
        match r {
            Some((e, t, a)) => wikilink_at(s@, i as int) == Some(
                WikiSpan { end: e as int, target: t@, alias: a@ },
            ) && e == close_index(s@, i as int) + 2,
            None => wikilink_at(s@, i as int) is None,
        },
{
    if s.len() - i < 2 || s[i] != '[' || s[i + 1] != '[' {
        return None;
    }
    let k = index_of_from(s, ']', i + 2);
    if !(k < s.len() - 1 && s[k + 1] == ']') {
        return None;
    }
    let ghost inner = s@.subrange(i + 2, k as int);
    let p = index_of2_in(s, '|', '#', i + 2, k);
    if p == i + 2 {
        return None;
    }
    let target = slice_of(s, i + 2, p);
    assert(target@ =~= inner.take(p - (i + 2)));
    let alias: Vec<char>;
    if p == k {
        alias = Vec::new();
        assert(alias@ =~= alias_part(inner, p - (i + 2)));
    } else if s[p] == '|' {
        alias = slice_of(s, p + 1, k);
        assert(inner[p - (i + 2)] == s@[p as int]);
        assert(alias@ =~= alias_part(inner, p - (i + 2)));
    } else {
        let q = index_of_in(s, '|', p, k);
        assert(inner[p - (i + 2)] == s@[p as int]);
        assert(inner.skip(p - (i + 2)) =~= s@.subrange(p as int, k as int));
        if q < k {
            alias = slice_of(s, q + 1, k);
            assert(alias@ =~= inner.skip(q - (i + 2) + 1));
        } else {
            alias = Vec::new();
        }
        assert(alias@ =~= alias_part(inner, p - (i + 2)));
    }
    Some((k + 2, target, alias))
}

/// The links of `text`, in order.
pub fn extract_wikilinks_chars(text: &Vec<char>) -> (r: Vec<Link>)
    ensures
        link_views(r@) == links_of(text@),
{
    let mut out: Vec<Link> = Vec::new();
    let mut pos: usize = 0;
    let ghost all = wikilinks_from(text@, 0);
    assert(Seq::<WikiSpan>::empty() + all =~= all);
    while pos < text.len()
        invariant
            pos <= text.len(),
            exists|done: Seq<WikiSpan>|
                #![trigger done.len()]
                all == done + wikilinks_from(text@, pos as int) && link_views(out@)
                    == done.map_values(|m: WikiSpan| link_of(m)),
        decreases text.len() - pos,
    {
        let ghost done = choose|done: Seq<WikiSpan>|
            #![trigger done.len()]
            all == done + wikilinks_from(text@, pos as int) && link_views(out@)
                == done.map_values(|m: WikiSpan| link_of(m));
        match wikilink_at_exec(text, pos) {
            Some((e, t, a)) => {
                let ghost m = WikiSpan { end: e as int, target: t@, alias: a@ };
                let target = trim_exec(&t);
                let alias_t = trim_exec(&a);
                let alias = if alias_t.len() == 0 {
                    None
                } else {
                    Some(string_of(&alias_t))
                };
                let link = Link { target: string_of(&target), alias, resolved_path: None };
                assert(link@ == link_of(m));
                let ghost prev = out@;
                out.push(link);
                proof {
                    let nd = done.push(m);
                    assert(nd + wikilinks_from(text@, e as int) =~= done + wikilinks_from(
                        text@,
                        pos as int,
                    ));
                    assert(out@ =~= prev.push(link));
                    assert(link_views(out@) =~= link_views(prev).push(link@));
                    assert(nd.map_values(|m: WikiSpan| link_of(m)) =~= done.map_values(
                        |m: WikiSpan| link_of(m),
                    ).push(link_of(m)));
                    assert(link_views(out@) =~= nd.map_values(|m: WikiSpan| link_of(m)));
                    assert(nd.len() == nd.len());
                }
                pos = e;
            },
            None => {
                pos = pos + 1;
                assert(done.len() == done.len());
            },
        }
    }
    proof {
        let done = choose|done: Seq<WikiSpan>|
            #![trigger done.len()]
            all == done + wikilinks_from(text@, pos as int) && link_views(out@)
                == done.map_values(|m: WikiSpan| link_of(m));
        assert(done =~= all);
    }
    out
}

/// Extract wikilinks from text, returning a `Link` per match.
pub fn extract_wikilinks(text: &str) -> (r: Vec<Link>)
    ensures
        link_views(r@) == links_of(text@),
{
    let v = chars_of(text);
    extract_wikilinks_chars(&v)
}

/// `text` with each wikilink replaced by its shown text (`keep`) or removed.
pub fn replace_links(text: &Vec<char>, keep: bool) -> (r: Vec<char>)
    ensures
        r@ == replace_links_from(text@, 0, keep),
{
    let mut out: Vec<char> = Vec::new();
    let mut pos: usize = 0;
    while pos < text.len()
        invariant
            pos <= text.len(),
            replace_links_from(text@, 0, keep) == out@ + replace_links_from(
                text@,
                pos as int,
                keep,
            ),
        decreases text.len() - pos,
    {
        let ghost prev = out@;
        match wikilink_at_exec(text, pos) {
            Some((e, t, a)) => {
                if keep {
                    let alias_t = trim_exec(&a);
                    if alias_t.len() == 0 {
                        let target = trim_exec(&t);
                        push_all(&mut out, &target);
                    } else {
                        push_all(&mut out, &alias_t);
                    }
                }
                assert(out@ + replace_links_from(text@, e as int, keep) =~= prev
                    + replace_links_from(text@, pos as int, keep));
                pos = e;
            },
            None => {
                out.push(text[pos]);
                assert(out@ + replace_links_from(text@, pos + 1, keep) =~= prev
                    + replace_links_from(text@, pos as int, keep));
                pos = pos + 1;
            },
        }
    }
    assert(out@ + Seq::<char>::empty() =~= out@);
    out
}

/// Replace `[[Target|alias]]` → `alias`, `[[Target]]` → `Target`.
pub fn resolve_wikilinks_in_text(text: &str) -> (r: String)
    ensures
        r@ == resolved_text(text@),
{
    let v = chars_of(text);
    let out = replace_links(&v, true);
    string_of(&out)
}

/// A text without wikilinks is left as it is by resolving.
pub proof fn lemma_replace_without_links(s: Seq<char>, i: int, keep: bool)
    requires
        0 <= i <= s.len(),
        wikilinks_from(s, i).len() == 0,
    ensures
        replace_links_from(s, i, keep) == s.skip(i),
    decreases s.len() - i,
{
    if i < s.len() {
        if wikilink_at(s, i) is Some {
            assert(wikilinks_from(s, i).len() > 0);
        } else {
            lemma_replace_without_links(s, i + 1, keep);
            assert(s.skip(i) =~= seq![s[i]] + s.skip(i + 1));
        }
    } else {
        assert(s.skip(i) =~= Seq::<char>::empty());
    }
}

/// Law: a text in which no wikilink is found comes back unchanged from resolving.
pub proof fn law_resolve_without_links_is_identity(s: Seq<char>)
    requires
        links_of(s).len() == 0,
    ensures
        resolved_text(s) == s,
{
    lemma_replace_without_links(s, 0, true);
    assert(s.skip(0) =~= s);
}

} // verus!

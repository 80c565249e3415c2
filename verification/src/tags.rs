//! Tag filters: case-insensitive matching of tags with or without their `#`.
use vstd::prelude::*;
use crate::text::{chars_of, slice_of, string_of};

verus! {

broadcast use vstd::string::group_string_axioms;

/// What `str::to_lowercase` gives for a string: its full Unicode lowercase mapping.
pub uninterp spec fn lowercase(s: Seq<char>) -> Seq<char>;

/// `str::to_lowercase`. The contract claims only that the result is the lowercase mapping
/// of the argument, a function of the argument alone; which mapping that is stays unsaid.
#[verifier::external_body]
pub(crate) fn to_lowercase(s: &str) -> (r: String)
    ensures
        r@ == lowercase(s@),
{
    s.to_lowercase()
}

/// A tag without one leading `#`.
pub open spec fn without_hash(t: Seq<char>) -> Seq<char> {
    if t.len() > 0 && t[0] == '#' {
        t.drop_first()
    } else {
        t
    }
}

/// The form in which tags are compared: one leading `#` dropped, then lowercased.
pub open spec fn tag_key(t: Seq<char>) -> Seq<char> {
    lowercase(without_hash(t))
}

pub fn normalize_tag(tag: &str) -> (r: String)
    ensures
        r@ == tag_key(tag@),
{
    let cs = chars_of(tag);
    let bare = if cs.len() > 0 && cs[0] == '#' {
        let b = slice_of(&cs, 1, cs.len());
        assert(b@ =~= cs@.drop_first());
        b
    } else {
        cs
    };
    let s = string_of(&bare);
    to_lowercase(s.as_str())
}

/// The comparison form of each tag.
pub open spec fn tag_keys(ts: Seq<String>) -> Seq<Seq<char>> {
    ts.map_values(|t: String| tag_key(t@))
}

/// Whether every required tag is among the note's tags, compared by `tag_key`.
pub open spec fn has_all_tags(doc_tags: Seq<String>, required: Seq<String>) -> bool {
    forall|i: int| 0 <= i < required.len() ==> tag_keys(doc_tags).contains(#[trigger] tag_key(required[i]@))
}

/// Check if document tags contain all required tags (case-insensitive, `#` prefix ignored).
pub fn tags_match(doc_tags: &[String], required: &[String]) -> (r: bool)
    ensures
        r == has_all_tags(doc_tags@, required@),
{
    let mut keys: Vec<String> = Vec::new();
    let mut i: usize = 0;
    while i < doc_tags.len()
        invariant
            i <= doc_tags.len(),
            keys@.map_values(|k: String| k@) == tag_keys(doc_tags@).take(i as int),
        decreases doc_tags.len() - i,
    {
        let k = normalize_tag(doc_tags[i].as_str());
        let ghost prev = keys@.map_values(|k: String| k@);
        keys.push(k);
        assert(keys@.map_values(|k: String| k@) =~= prev.push(tag_key(doc_tags@[i as int]@)));
        assert(tag_keys(doc_tags@).take(i + 1) =~= tag_keys(doc_tags@).take(i as int).push(
            tag_key(doc_tags@[i as int]@),
        ));
        i = i + 1;
    }
    assert(tag_keys(doc_tags@).take(i as int) =~= tag_keys(doc_tags@));
    let ghost kv = keys@.map_values(|k: String| k@);
    let mut j: usize = 0;
    while j < required.len()
        invariant
            j <= required.len(),
            kv == keys@.map_values(|k: String| k@),
            kv == tag_keys(doc_tags@),
            forall|m: int| 0 <= m < j ==> kv.contains(#[trigger] tag_key(required@[m]@)),
        decreases required.len() - j,
    {
        let want = normalize_tag(required[j].as_str());
        let mut found = false;
        let mut m: usize = 0;
        while m < keys.len()
            invariant
                m <= keys.len(),
                kv == keys@.map_values(|k: String| k@),
                found <==> exists|x: int| 0 <= x < m && kv[x] == want@,
            decreases keys.len() - m,
        {
            let a = chars_of(keys[m].as_str());
            let b = chars_of(want.as_str());
            if crate::text::eq_chars(&a, &b) {
                found = true;
            }
            assert(kv[m as int] == keys@[m as int]@);
            m = m + 1;
        }
        if !found {
            assert(!kv.contains(tag_key(required@[j as int]@)));
            return false;
        }
        let ghost x = choose|x: int| 0 <= x < m && kv[x] == want@;
        assert(kv.contains(tag_key(required@[j as int]@)));
        j = j + 1;
    }
    true
}

/// Tag with the list of files that contain it.
#[derive(Debug)]
pub struct TagStats {
    pub tag: String,
    pub files: Vec<String>,
}

/// Result of applying tag edits to a note.
#[derive(Debug)]
pub struct TagEditResult {
    pub content: String,
    pub tags_added: usize,
    pub tags_removed: usize,
    pub timestamp_updated: bool,
}


/// A tag that does not start with `#` compares the same with one `#` put before it.
pub proof fn law_hash_prefix_is_ignored(t: Seq<char>)
    requires
        t.len() == 0 || t[0] != '#',
    ensures
        tag_key(seq!['#'] + t) == tag_key(t),
{
    assert((seq!['#'] + t).drop_first() =~= t);
}

/// Matching reads tags only through their comparison forms: tags that compare the same, in the
/// note and in the request, match the same.
pub proof fn law_tags_match_reads_keys(d1: Seq<String>, r1: Seq<String>, d2: Seq<String>, r2: Seq<String>)
    requires
        tag_keys(d1) == tag_keys(d2),
        tag_keys(r1) == tag_keys(r2),
    ensures
        has_all_tags(d1, r1) == has_all_tags(d2, r2),
{
    assert(tag_keys(r1).len() == r1.len());
    assert(tag_keys(r2).len() == r2.len());
    assert forall|i: int| 0 <= i < r1.len() implies tag_key(r1[i]@) == tag_key(r2[i]@) by {
        assert(tag_keys(r1)[i] == tag_keys(r2)[i]);
    }
    if has_all_tags(d1, r1) {
        assert forall|i: int| 0 <= i < r2.len() implies tag_keys(d2).contains(#[trigger] tag_key(r2[i]@)) by {
            assert(tag_keys(r1).len() == tag_keys(r2).len());
            assert(tag_keys(d1).contains(tag_key(r1[i]@)));
        }
    }
    if has_all_tags(d2, r2) {
        assert forall|i: int| 0 <= i < r1.len() implies tag_keys(d1).contains(#[trigger] tag_key(r1[i]@)) by {
            assert(tag_keys(r1).len() == tag_keys(r2).len());
            assert(tag_keys(d2).contains(tag_key(r2[i]@)));
        }
    }
}

} // verus!

//! YAML frontmatter (`---` ... `---`): splitting it off, reading title and tags,
//! generating it for new notes and updating one field.
use crate::text::{
    chars_of, chars_of_all, contains_chars, copy_chars, find_exec, find_from, index_of, join,
    join_exec, occurs_at,
    lines, push_all, push_str, slice_of, split, split_exec, split_lines, starts_with,
    starts_with_str, str_views, string_of, strings_of_all, trim, trim_char, trim_char_exec,
    trim_end_char, trim_end_char_exec, trim_exec, trim_start, trim_start_char,
    trim_start_char_exec, trim_start_exec, views,
};
use crate::types::opt_view;
use vstd::prelude::*;

verus! {

pub open spec fn dashes() -> Seq<char> {
    seq!['-', '-', '-']
}

pub open spec fn closing_dashes() -> Seq<char> {
    seq!['\n', '-', '-', '-']
}

/// Frontmatter text (trimmed) and body: the frontmatter runs from after the opening
/// `---` to the first `\n---`; the body starts after that closing `\n---`.
pub open spec fn frontmatter_split(c: Seq<char>) -> (Seq<char>, Seq<char>) {
    if !starts_with(c, dashes()) {
        (Seq::empty(), c)
    } else {
        match find_from(c, closing_dashes(), 3) {
            Some(j) => (trim(c.subrange(3, j)), c.skip(j + 4)),
            None => (Seq::empty(), c),
        }
    }
}

/// `find_from` gives the first occurrence at or after `i`.
pub proof fn lemma_find_first(s: Seq<char>, p: Seq<char>, i: int, k: int)
    requires
        0 <= i <= k,
        crate::text::occurs_at(s, p, k),
        forall|j: int| i <= j < k ==> !#[trigger] crate::text::occurs_at(s, p, j),
    ensures
        find_from(s, p, i) == Some(k),
    decreases k - i,
{
    if i < k {
        lemma_find_first(s, p, i + 1, k);
    }
}

/// A frontmatter that was found is trimmed and holds no closing `\n---`.
pub proof fn lemma_frontmatter_clean(c: Seq<char>)
    ensures
        trim(frontmatter_split(c).0) == frontmatter_split(c).0,
        forall|k: int| !#[trigger] crate::text::occurs_at(frontmatter_split(c).0, closing_dashes(), k),
{
    if starts_with(c, dashes()) {
        crate::text::lemma_find_from_props(c, closing_dashes(), 3);
        match find_from(c, closing_dashes(), 3) {
            Some(j) => {
                let x = c.subrange(3, j);
                crate::text::lemma_trim_idem(x);
                crate::text::lemma_trim_shape(x);
                let fm = trim(x);
                let l = crate::text::lead_ws(x) as int;
                assert forall|k: int| !#[trigger] crate::text::occurs_at(fm, closing_dashes(), k) by {
                    if crate::text::occurs_at(fm, closing_dashes(), k) {
                        assert(c.subrange(3 + l + k, 3 + l + k + 4) =~= fm.subrange(k, k + 4));
                        assert(crate::text::occurs_at(c, closing_dashes(), 3 + l + k));
                    }
                }
            },
            None => {},
        }
    }
}

pub fn strip_frontmatter_chars(c: &Vec<char>) -> (r: (Vec<char>, Vec<char>))
    ensures
        (r.0@, r.1@) == frontmatter_split(c@),
{
    let d = chars_of("---");
    let close = chars_of("\n---");
    proof {
        reveal_strlit("---");
        reveal_strlit("\n---");
        assert(d@ =~= dashes());
        assert(close@ =~= closing_dashes());
    }
    if !crate::text::starts_with_exec(c, &d) {
        return (Vec::new(), copy_chars(c));
    }
    let n = c.len();
    match find_exec(c, &close, 3) {
        Some(j) => {
            proof {
                crate::text::lemma_find_from_props(c@, close@, 3);
                assert(crate::text::occurs_at(c@, close@, j as int));
                assert(close@.len() == 4);
                assert(j + 4 <= n);
            }
            let fm_raw = slice_of(c, 3, j);
            let fm = trim_exec(&fm_raw);
            let body = slice_of(c, j + 4, n);
            (fm, body)
        },
        None => (Vec::new(), copy_chars(c)),
    }
}

/// Strip YAML frontmatter (--- ... ---) from markdown content.
/// Returns (frontmatter_text, body_without_frontmatter).
pub fn strip_frontmatter(content: &str) -> (r: (String, String))
    ensures
        (r.0@, r.1@) == frontmatter_split(content@),
{
    let c = chars_of(content);
    let (fm, body) = strip_frontmatter_chars(&c);
    (string_of(&fm), string_of(&body))
}

// ---------------------------------------------------------------------------
// Title
// ---------------------------------------------------------------------------

/// What `std::path::Path::new(path).file_stem()` gives, as text.
pub uninterp spec fn path_file_stem(path: Seq<char>) -> Option<Seq<char>>;

/// Calls `std::path::Path::file_stem` on `path` and converts the result with
/// `to_string_lossy`. The contract claims only that the answer depends on `path` alone
/// (named `path_file_stem`); the path-splitting rules are not restated.
#[verifier::external_body]
fn file_stem(path: &str) -> (r: Option<String>)
    ensures
        opt_view(r) == path_file_stem(path@),
{
    std::path::Path::new(path).file_stem().map(|s| s.to_string_lossy().to_string())
}

/// The title found in the body's first lines: a `# ` heading, before any line that is
/// neither empty nor a heading.
pub open spec fn title_in_lines(ls: Seq<Seq<char>>) -> Option<Seq<char>>
    decreases ls.len(),
{
    if ls.len() == 0 {
        None
    } else {
        let t = trim(ls[0]);
        if starts_with(t, seq!['#', ' ']) {
            Some(trim(t.skip(2)))
        } else if t.len() > 0 && t[0] != '#' {
            None
        } else {
            title_in_lines(ls.drop_first())
        }
    }
}

/// The note's title: its first H1, else the file name without extension, else the path.
pub open spec fn title_of(rel_path: Seq<char>, body: Seq<char>) -> Seq<char> {
    match title_in_lines(lines(body)) {
        Some(h) => h,
        None => match path_file_stem(rel_path) {
            Some(stem) => stem,
            None => rel_path,
        },
    }
}

fn title_in_lines_exec(ls: &Vec<Vec<char>>) -> (r: Option<Vec<char>>)
    ensures
        match r {
            Some(h) => title_in_lines(views(ls@)) == Some(h@),
            None => title_in_lines(views(ls@)) is None,
        },
{
    let ghost lv = views(ls@);
    let mut i: usize = 0;
    assert(lv.skip(0) =~= lv);
    while i < ls.len()
        invariant
            i <= ls.len(),
            lv == views(ls@),
            title_in_lines(lv) == title_in_lines(lv.skip(i as int)),
        decreases ls.len() - i,
    {
        let ghost rest = lv.skip(i as int);
        assert(rest[0] == ls@[i as int]@);
        assert(rest.drop_first() =~= lv.skip(i + 1));
        let t = trim_exec(&ls[i]);
        if starts_with_str(&t, "# ") {
            proof {
                reveal_strlit("# ");
                assert("# "@ =~= seq!['#', ' ']);
            }
            let h = slice_of(&t, 2, t.len());
            return Some(trim_exec(&h));
        } else {
            proof {
                reveal_strlit("# ");
                assert("# "@ =~= seq!['#', ' ']);
            }
        }
        if t.len() > 0 && t[0] != '#' {
            return None;
        }
        i = i + 1;
    }
    assert(lv.skip(i as int) =~= Seq::<Seq<char>>::empty());
    None
}

/// Title from the first H1 (or the file name without extension).
pub fn extract_title(rel_path: &str, body: &str) -> (r: String)
    ensures
        r@ == title_of(rel_path@, body@),
{
    let b = chars_of(body);
    let ls = split_lines(&b);
    match title_in_lines_exec(&ls) {
        Some(h) => string_of(&h),
        None => match file_stem(rel_path) {
            Some(stem) => stem,
            None => string_of(&chars_of(rel_path)),
        },
    }
}

// ---------------------------------------------------------------------------
// Tags
// ---------------------------------------------------------------------------

/// A tag value without surrounding whitespace and quotes.
pub open spec fn unquote(t: Seq<char>) -> Seq<char> {
    trim_char(trim_char(t, '"'), '\'')
}

/// The non-empty tags of an inline list's pieces.
pub open spec fn inline_tags_of(pieces: Seq<Seq<char>>) -> Seq<Seq<char>>
    decreases pieces.len(),
{
    if pieces.len() == 0 {
        Seq::empty()
    } else {
        let t = trim(unquote(trim(pieces[0])));
        (if t.len() > 0 {
            seq![t]
        } else {
            Seq::empty()
        }) + inline_tags_of(pieces.drop_first())
    }
}

/// Tags of an inline value: `[tag1, tag2]` or `tag1, tag2`.
pub open spec fn inline_tags(inline: Seq<char>) -> Seq<Seq<char>> {
    inline_tags_of(split(trim_end_char(trim_start_char(inline, '['), ']'), ','))
}

pub open spec fn tags_key() -> Seq<char> {
    seq!['t', 'a', 'g', 's', ':']
}

/// Tags read from frontmatter lines; `in_tags` tells that a `tags:` line opened a list.
pub open spec fn tags_in_lines(ls: Seq<Seq<char>>, in_tags: bool) -> Seq<Seq<char>>
    decreases ls.len(),
{
    if ls.len() == 0 {
        Seq::empty()
    } else {
        let t = trim(ls[0]);
        if starts_with(t, tags_key()) {
            let inline = trim(t.skip(5));
            if inline.len() > 0 {
                inline_tags(inline)
            } else {
                tags_in_lines(ls.drop_first(), true)
            }
        } else if in_tags {
            if starts_with(t, seq!['-', ' ']) {
                let v = unquote(trim(t.skip(2)));
                (if v.len() > 0 {
                    seq![v]
                } else {
                    Seq::empty()
                }) + tags_in_lines(ls.drop_first(), true)
            } else {
                Seq::empty()
            }
        } else {
            tags_in_lines(ls.drop_first(), false)
        }
    }
}

/// Tags of a frontmatter text, in order.
pub open spec fn tags_of(frontmatter: Seq<char>) -> Seq<Seq<char>> {
    tags_in_lines(lines(frontmatter), false)
}

/// A line that, trimmed, starts a list item (`- `).
pub open spec fn is_list_item(l: Seq<char>) -> bool {
    starts_with(trim(l), seq!['-', ' '])
}

/// A line that, trimmed, starts with `tags:`.
pub open spec fn opens_tags(l: Seq<char>) -> bool {
    starts_with(trim(l), tags_key())
}

/// The value of a list item line: what follows `- `, trimmed and unquoted.
pub open spec fn list_item_value(l: Seq<char>) -> Seq<char> {
    unquote(trim(trim(l).skip(2)))
}

/// From the line after `tags:` on, the tags are the non-empty values of the list items up to
/// `m`, the first line that is not such an item (nor another `tags:` line).
proof fn lemma_tag_block(ls: Seq<Seq<char>>, i: int, m: int)
    requires
        0 <= i <= m <= ls.len(),
        forall|q: int| i <= q < m ==> is_list_item(#[trigger] ls[q]),
        m == ls.len() || (!is_list_item(ls[m]) && !opens_tags(ls[m])),
    ensures
        tags_in_lines(ls.skip(i), true) == ls.subrange(i, m).map_values(
            |l: Seq<char>| list_item_value(l),
        ).filter(|v: Seq<char>| v.len() > 0),
    decreases m - i,
{
    let f = |l: Seq<char>| list_item_value(l);
    let p = |v: Seq<char>| v.len() > 0;
    let rest = ls.skip(i);
    if i == m {
        assert(ls.subrange(i, m).map_values(f) =~= Seq::<Seq<char>>::empty());
        reveal(Seq::filter);
        if m < ls.len() {
            assert(rest[0] == ls[m]);
        }
    } else {
        lemma_tag_block(ls, i + 1, m);
        assert(rest[0] == ls[i]);
        assert(rest.drop_first() =~= ls.skip(i + 1));
        let t = trim(ls[i]);
        assert(is_list_item(ls[i]));
        assert(t[0] == '-') by {
            assert(t.take(2)[0] == t[0]);
        }
        assert(!opens_tags(ls[i])) by {
            if opens_tags(ls[i]) {
                assert(t.take(5)[0] == t[0]);
            }
        }
        let v = list_item_value(ls[i]);
        let tail = ls.subrange(i + 1, m).map_values(f);
        assert(ls.subrange(i, m).map_values(f) =~= seq![v] + tail);
        Seq::filter_distributes_over_add(seq![v], tail, p);
        reveal(Seq::filter);
        assert(seq![v].drop_last() =~= Seq::<Seq<char>>::empty());
        assert(seq![v].drop_last().filter(p) =~= Seq::<Seq<char>>::empty());
        assert(!p(v) ==> seq![v].filter(p) == seq![v].drop_last().filter(p));
        if v.len() > 0 {
            assert(seq![v].filter(p) =~= seq![v]);
        } else {
            assert(seq![v].filter(p) =~= Seq::<Seq<char>>::empty());
        }
    }
}

/// Lines before the first `tags:` line give no tags.
proof fn lemma_lines_before_tags(ls: Seq<Seq<char>>, i: int, k: int)
    requires
        0 <= i <= k < ls.len(),
        forall|q: int| 0 <= q < k ==> !opens_tags(#[trigger] ls[q]),
    ensures
        tags_in_lines(ls.skip(i), false) == tags_in_lines(ls.skip(k), false),
    decreases k - i,
{
    if i < k {
        let r = ls.skip(i);
        assert(r[0] == ls[i]);
        assert(r.drop_first() =~= ls.skip(i + 1));
        assert(!opens_tags(ls[i]));
        lemma_lines_before_tags(ls, i + 1, k);
    }
}

/// The tags of a frontmatter whose first `tags:` line (line `k`) holds no inline value are the
/// non-empty values of the `- ` items on the lines right after it, up to line `m`, the first
/// line that is neither such an item nor another `tags:` line: no item after it is a tag.
pub proof fn law_block_tags_end_at_first_other_line(fm: Seq<char>, k: int, m: int)
    requires
        0 <= k < m <= lines(fm).len(),
        forall|i: int| 0 <= i < k ==> !opens_tags(#[trigger] lines(fm)[i]),
        opens_tags(lines(fm)[k]),
        trim(trim(lines(fm)[k]).skip(5)).len() == 0,
        forall|i: int| k < i < m ==> is_list_item(#[trigger] lines(fm)[i]),
        m == lines(fm).len() || (!is_list_item(lines(fm)[m]) && !opens_tags(lines(fm)[m])),
    ensures
        tags_of(fm) == lines(fm).subrange(k + 1, m).map_values(|l: Seq<char>| list_item_value(l)).filter(
            |v: Seq<char>| v.len() > 0,
        ),
{
    let ls = lines(fm);
    lemma_tag_block(ls, k + 1, m);
    assert(ls.skip(k)[0] == ls[k]);
    assert(ls.skip(k).drop_first() =~= ls.skip(k + 1));
    lemma_lines_before_tags(ls, 0, k);
    assert(ls.skip(0) =~= ls);
}

fn unquote_exec(t: &Vec<char>) -> (r: Vec<char>)
    ensures
        r@ == unquote(t@),
{
    let a = trim_char_exec(t, '"');
    trim_char_exec(&a, '\'')
}

fn inline_tags_exec(inline: &Vec<char>) -> (r: Vec<Vec<char>>)
    ensures
        views(r@) == inline_tags(inline@),
{
    let a = trim_start_char_exec(inline, '[');
    let clean = trim_end_char_exec(&a, ']');
    let pieces = split_exec(&clean, ',');
    let ghost pv = views(pieces@);
    let mut out: Vec<Vec<char>> = Vec::new();
    let mut i: usize = 0;
    assert(pv.skip(0) =~= pv);
    assert(views(out@) + inline_tags_of(pv) =~= inline_tags_of(pv));
    while i < pieces.len()
        invariant
            i <= pieces.len(),
            pv == views(pieces@),
            inline_tags_of(pv) == views(out@) + inline_tags_of(pv.skip(i as int)),
        decreases pieces.len() - i,
    {
        let ghost rest = pv.skip(i as int);
        assert(rest[0] == pieces@[i as int]@);
        assert(rest.drop_first() =~= pv.skip(i + 1));
        let p = trim_exec(&pieces[i]);
        let q = unquote_exec(&p);
        let t = trim_exec(&q);
        let ghost prev = views(out@);
        if t.len() > 0 {
            let ghost tv = t@;
            out.push(t);
            assert(views(out@) =~= prev.push(tv));
            assert(views(out@) + inline_tags_of(pv.skip(i + 1)) =~= prev + inline_tags_of(rest));
        } else {
            assert(prev + inline_tags_of(pv.skip(i + 1)) =~= prev + inline_tags_of(rest));
        }
        i = i + 1;
    }
    assert(pv.skip(i as int) =~= Seq::<Seq<char>>::empty());
    assert(views(out@) + Seq::<Seq<char>>::empty() =~= views(out@));
    out
}

pub fn extract_tags_chars(frontmatter: &Vec<char>) -> (r: Vec<Vec<char>>)
    ensures
        views(r@) == tags_of(frontmatter@),
{
    let ls = split_lines(frontmatter);
    let ghost lv = views(ls@);
    let key = chars_of("tags:");
    let item = chars_of("- ");
    proof {
        reveal_strlit("tags:");
        reveal_strlit("- ");
        assert(key@ =~= tags_key());
        assert(item@ =~= seq!['-', ' ']);
    }
    let mut out: Vec<Vec<char>> = Vec::new();
    let mut in_tags = false;
    let mut i: usize = 0;
    assert(lv.skip(0) =~= lv);
    assert(views(out@) + tags_in_lines(lv, false) =~= tags_in_lines(lv, false));
    while i < ls.len()
        invariant
            i <= ls.len(),
            lv == views(ls@),
            lv == lines(frontmatter@),
            key@ == tags_key(),
            item@ == seq!['-', ' '],
            tags_in_lines(lv, false) == views(out@) + tags_in_lines(lv.skip(i as int), in_tags),
        decreases ls.len() - i,
    {
        let ghost rest = lv.skip(i as int);
        let ghost prev = views(out@);
        assert(rest[0] == ls@[i as int]@);
        assert(rest.drop_first() =~= lv.skip(i + 1));
        let t = trim_exec(&ls[i]);
        if crate::text::starts_with_exec(&t, &key) {
            let rest_t = slice_of(&t, 5, t.len());
            assert(rest_t@ =~= t@.skip(5));
            let inline = trim_exec(&rest_t);
            if inline.len() > 0 {
                assert(tags_in_lines(rest, in_tags) == inline_tags(inline@));
                let tags = inline_tags_exec(&inline);
                push_all_seqs(&mut out, tags);
                assert(views(out@) =~= prev + inline_tags(inline@));
                return out;
            }
            in_tags = true;
            i = i + 1;
            continue ;
        }
        if in_tags {
            if crate::text::starts_with_exec(&t, &item) {
                let raw = slice_of(&t, 2, t.len());
                let tt = trim_exec(&raw);
                let v = unquote_exec(&tt);
                if v.len() > 0 {
                    let ghost vv = v@;
                    out.push(v);
                    assert(views(out@) =~= prev.push(vv));
                    assert(views(out@) + tags_in_lines(lv.skip(i + 1), true) =~= prev
                        + tags_in_lines(rest, true));
                } else {
                    assert(prev + tags_in_lines(lv.skip(i + 1), true) =~= prev + tags_in_lines(
                        rest,
                        true,
                    ));
                }
            } else {
                assert(tags_in_lines(rest, in_tags) == Seq::<Seq<char>>::empty());
                assert(views(out@) + Seq::<Seq<char>>::empty() =~= views(out@));
                return out;
            }
        }
        i = i + 1;
    }
    assert(lv.skip(i as int) =~= Seq::<Seq<char>>::empty());
    assert(views(out@) + Seq::<Seq<char>>::empty() =~= views(out@));
    out
}

/// Moves all of `more` to the end of `out`.
pub fn push_all_seqs(out: &mut Vec<Vec<char>>, more: Vec<Vec<char>>)
    ensures
        views(final(out)@) == views(old(out)@) + views(more@),
{
    let mut more = more;
    let ghost ov = out@;
    let ghost mv = more@;
    out.append(&mut more);
    assert(out@ =~= ov + mv);
    assert(views(out@) =~= views(ov) + views(mv));
}

/// Tags listed in frontmatter, inline (`tags: [a, b]`, `tags: a, b`) or as a list.
pub fn extract_tags(frontmatter: &str) -> (r: Vec<String>)
    ensures
        str_views(r@) == tags_of(frontmatter@),
{
    let f = chars_of(frontmatter);
    let t = extract_tags_chars(&f);
    strings_of_all(&t)
}

// ---------------------------------------------------------------------------
// Dates
// ---------------------------------------------------------------------------

/// The value of the first line that, trimmed, starts with `prefix`: what follows it, trimmed
/// and stripped of surrounding `"` and then `'` characters.
pub open spec fn field_value_in_lines(ls: Seq<Seq<char>>, prefix: Seq<char>) -> Option<Seq<char>>
    decreases ls.len(),
{
    if ls.len() == 0 {
        None
    } else {
        let t = trim(ls[0]);
        if starts_with(t, prefix) {
            Some(trim_char(trim_char(trim(t.skip(prefix.len() as int)), '"'), '\''))
        } else {
            field_value_in_lines(ls.drop_first(), prefix)
        }
    }
}

/// Seconds since the epoch of the instant `DateTime::parse_from_rfc3339` reads, if any.
pub uninterp spec fn rfc3339_seconds(s: Seq<char>) -> Option<i64>;

/// `chrono::DateTime::parse_from_rfc3339` followed by `timestamp`. Claimed: the answer depends
/// on `s` alone (named `rfc3339_seconds`).
#[verifier::external_body]
fn parse_rfc3339_seconds(s: &str) -> (r: Option<i64>)
    ensures
        r == rfc3339_seconds(s@),
{
    match chrono::DateTime::parse_from_rfc3339(s) {
        Ok(dt) => Some(dt.timestamp()),
        Err(_) => None,
    }
}

/// Seconds since the epoch of the UTC date and time `NaiveDateTime::parse_from_str(s, fmt)`
/// reads, if any.
pub uninterp spec fn naive_datetime_seconds(s: Seq<char>, fmt: Seq<char>) -> Option<i64>;

/// `chrono::NaiveDateTime::parse_from_str` followed by `and_utc().timestamp()`. Claimed: the
/// answer depends on `s` and `fmt` alone (named `naive_datetime_seconds`).
#[verifier::external_body]
fn parse_naive_datetime_seconds(s: &str, fmt: &str) -> (r: Option<i64>)
    ensures
        r == naive_datetime_seconds(s@, fmt@),
{
    match chrono::NaiveDateTime::parse_from_str(s, fmt) {
        Ok(dt) => Some(dt.and_utc().timestamp()),
        Err(_) => None,
    }
}

/// The instant a date value names, in seconds since the epoch: RFC 3339, then ISO 8601 without
/// a zone (as UTC), then a bare date (midnight UTC), then a date and time with a space.
pub open spec fn date_seconds(s: Seq<char>) -> Option<i64> {
    match rfc3339_seconds(s) {
        Some(t) => Some(t),
        None => match naive_datetime_seconds(s, "%Y-%m-%dT%H:%M:%S"@) {
            Some(t) => Some(t),
            None => match crate::dates::iso_date_of(s) {
                Some(d) => Some(crate::dates::day_time_seconds(d, 0, 0, 0)),
                None => naive_datetime_seconds(s, "%Y-%m-%d %H:%M:%S"@),
            },
        },
    }
}

/// The instant the frontmatter's `field` holds, if the field is there and its value reads as
/// a date.
pub open spec fn extracted_date(frontmatter: Seq<char>, field: Seq<char>) -> Option<i64> {
    if frontmatter.len() == 0 || field.len() == 0 {
        None
    } else {
        match field_value_in_lines(lines(frontmatter), field + ":"@) {
            Some(v) => date_seconds(v),
            None => None,
        }
    }
}

/// Parses a date value into seconds since the epoch.
pub fn parse_date_seconds(s: &str) -> (r: Option<i64>)
    ensures
        r == date_seconds(s@),
{
    if let Some(t) = parse_rfc3339_seconds(s) {
        return Some(t);
    }
    if let Some(t) = parse_naive_datetime_seconds(s, "%Y-%m-%dT%H:%M:%S") {
        return Some(t);
    }
    if let Some(d) = crate::dates::parse_date_only(s) {
        return Some(crate::dates::timestamp_at(d, 0, 0, 0));
    }
    parse_naive_datetime_seconds(s, "%Y-%m-%d %H:%M:%S")
}

/// Extract the date of a frontmatter field as seconds since the epoch (ISO 8601, RFC 3339 and
/// `YYYY-MM-DD` values); none when the field is missing or its value is not a date.
pub fn extract_date_seconds(frontmatter: &str, field_name: &str) -> (r: Option<i64>)
    ensures
        r == extracted_date(frontmatter@, field_name@),
{
    if frontmatter.is_empty() || field_name.is_empty() {
        return None;
    }
    let fm = chars_of(frontmatter);
    let mut prefix = chars_of(field_name);
    prefix.push(':');
    proof {
        reveal_strlit(":");
        assert(prefix@ =~= field_name@ + ":"@);
    }
    let ls = split_lines(&fm);
    let ghost lv = views(ls@);
    let mut i: usize = 0;
    assert(lv.skip(0) =~= lv);
    while i < ls.len()
        invariant
            i <= ls.len(),
            lv == views(ls@),
            lv == lines(frontmatter@),
            frontmatter@.len() > 0,
            field_name@.len() > 0,
            prefix@ == field_name@ + ":"@,
            field_value_in_lines(lv, prefix@) == field_value_in_lines(lv.skip(i as int), prefix@),
        decreases ls.len() - i,
    {
        let t = trim_exec(&ls[i]);
        assert(lv.skip(i as int)[0] == ls@[i as int]@);
        assert(lv.skip(i as int).drop_first() =~= lv.skip(i + 1));
        if crate::text::starts_with_exec(&t, &prefix) {
            let rest = slice_of(&t, prefix.len(), t.len());
            assert(rest@ =~= t@.skip(prefix@.len() as int));
            let v0 = trim_exec(&rest);
            let v1 = trim_char_exec(&v0, '"');
            let v2 = trim_char_exec(&v1, '\'');
            let vs = string_of(&v2);
            return parse_date_seconds(vs.as_str());
        }
        i = i + 1;
    }
    None
}

// ---------------------------------------------------------------------------
// Generating frontmatter
// ---------------------------------------------------------------------------

/// `s` with each `"` written as `\"`.
pub open spec fn escape_quotes(s: Seq<char>) -> Seq<char>
    decreases s.len(),
{
    if s.len() == 0 {
        Seq::empty()
    } else {
        escape_quotes(s.drop_last()) + if s.last() == '"' {
            seq!['\\', '"']
        } else {
            seq![s.last()]
        }
    }
}

/// `acc` followed by each of `defaults` that is not already present (in order).
pub open spec fn merge_tags(acc: Seq<Seq<char>>, defaults: Seq<Seq<char>>) -> Seq<Seq<char>>
    decreases defaults.len(),
{
    if defaults.len() == 0 {
        acc
    } else {
        merge_tags(
            if acc.contains(defaults[0]) {
                acc
            } else {
                acc.push(defaults[0])
            },
            defaults.drop_first(),
        )
    }
}

/// Merging tags that are all present already changes nothing.
pub proof fn law_merge_present_tags_is_noop(acc: Seq<Seq<char>>, defaults: Seq<Seq<char>>)
    requires
        forall|i: int| 0 <= i < defaults.len() ==> acc.contains(#[trigger] defaults[i]),
    ensures
        merge_tags(acc, defaults) == acc,
    decreases defaults.len(),
{
    if defaults.len() > 0 {
        assert(acc.contains(defaults[0]));
        let rest = defaults.drop_first();
        assert forall|i: int| 0 <= i < rest.len() implies acc.contains(#[trigger] rest[i]) by {
            assert(rest[i] == defaults[i + 1]);
        }
        law_merge_present_tags_is_noop(acc, rest);
    }
}

/// Merging keeps the tags already there, in front and in order, holds every merged tag, and
/// adds no duplicate to a list without duplicates.
pub proof fn law_merge_keeps_adds_and_dedups(acc: Seq<Seq<char>>, defaults: Seq<Seq<char>>)
    ensures
        merge_tags(acc, defaults).len() >= acc.len(),
        merge_tags(acc, defaults).take(acc.len() as int) == acc,
        forall|i: int| 0 <= i < defaults.len() ==> merge_tags(acc, defaults).contains(#[trigger] defaults[i]),
        acc.no_duplicates() ==> merge_tags(acc, defaults).no_duplicates(),
    decreases defaults.len(),
{
    if defaults.len() > 0 {
        let d0 = defaults[0];
        let next = if acc.contains(d0) {
            acc
        } else {
            acc.push(d0)
        };
        let rest = defaults.drop_first();
        law_merge_keeps_adds_and_dedups(next, rest);
        let m = merge_tags(next, rest);
        assert(m == merge_tags(acc, defaults));
        assert(next.take(acc.len() as int) =~= acc);
        assert(m.take(acc.len() as int) =~= next.take(next.len() as int).take(acc.len() as int));
        assert(next.take(next.len() as int) =~= next);
        assert(m.take(acc.len() as int) =~= acc);
        assert(next.contains(d0)) by {
            if !acc.contains(d0) {
                assert(next[acc.len() as int] == d0);
            }
        }
        assert(m.contains(d0)) by {
            let j = choose|j: int| 0 <= j < next.len() && next[j] == d0;
            assert(m.take(next.len() as int)[j] == d0);
            assert(m[j] == d0);
        }
        assert forall|i: int| 0 <= i < defaults.len() implies m.contains(#[trigger] defaults[i]) by {
            if i > 0 {
                assert(rest[i - 1] == defaults[i]);
            }
        }
        if acc.no_duplicates() {
            if !acc.contains(d0) {
                assert(next.no_duplicates()) by {
                    assert forall|a: int, b: int|
                        0 <= a < next.len() && 0 <= b < next.len() && a != b implies next[a]
                        != next[b] by {
                        if a == acc.len() {
                            assert(next[b] == acc[b]);
                        } else if b == acc.len() {
                            assert(next[a] == acc[a]);
                        }
                    }
                }
            }
        }
    } else {
        assert(acc.take(acc.len() as int) =~= acc);
    }
}

/// Without a frontmatter, updating a field creates one holding just that field, while
/// updating only an existing field leaves the content as it is.
pub proof fn law_update_without_frontmatter(c: Seq<char>, field: Seq<char>, value: Seq<char>)
    requires
        !starts_with(c, dashes()) || find_from(c, closing_dashes(), 3) is None,
    ensures
        with_field(c, field, value) == fresh_frontmatter(c, field, value),
        with_existing_field(c, field, value) == c,
{
}

/// Setting a field again leaves the content as it is, where its frontmatter already sets the
/// field to that value on every line that sets it, and reads back as the lines it holds.
pub proof fn law_setting_a_set_field_again_changes_nothing(
    c: Seq<char>,
    field: Seq<char>,
    value: Seq<char>,
    ls: Seq<Seq<char>>,
    after: Seq<char>,
)
    requires
        c == "---\n"@ + join(ls, "\n"@) + "\n---"@ + after,
        find_from(c, closing_dashes(), 3) == Some(4 + join(ls, "\n"@).len() as int),
        lines(join(ls, "\n"@)) == ls,
        ls.contains(field_line(field, value)),
        forall|i: int|
            0 <= i < ls.len() && #[trigger] sets_field(ls[i], field + ":"@) ==> ls[i] == field_line(
                field,
                value,
            ),
        sets_field(field_line(field, value), field + ":"@),
    ensures
        with_field(c, field, value) == c,
{
    reveal_strlit("---\n");
    reveal_strlit("\n---");
    let j = join(ls, "\n"@);
    let closing: int = 4 + j.len() as int;
    assert(c.take(3) =~= dashes());
    assert(c[3] == '\n');
    assert(c.subrange(fm_start(c), closing) =~= j);
    assert(c.skip(closing + 4) =~= after);
    let prefix = field + ":"@;
    let fl = field_line(field, value);
    let k = choose|k: int| 0 <= k < ls.len() && ls[k] == fl;
    assert(sets_field(ls[k], prefix));
    assert(has_field(ls, prefix));
    assert(replace_field_lines(ls, prefix, fl) =~= ls) by {
        assert forall|i: int| 0 <= i < ls.len() implies #[trigger] replace_field_lines(ls, prefix, fl)[i]
            == ls[i] by {
            if sets_field(ls[i], prefix) {
                assert(ls[i] == fl);
            }
        }
    }
    assert(with_field(c, field, value) =~= c);
}

/// Without a frontmatter, setting a field twice gives what setting it once gives, where the
/// field's line holds no line break, does not start with `---`, and sets the field.
pub proof fn law_update_twice_without_frontmatter(c: Seq<char>, field: Seq<char>, value: Seq<char>)
    requires
        !starts_with(c, dashes()) || find_from(c, closing_dashes(), 3) is None,
        !field_line(field, value).contains('\n'),
        !starts_with(field_line(field, value), dashes()),
        sets_field(field_line(field, value), field + ":"@),
    ensures
        with_field(with_field(c, field, value), field, value) == with_field(c, field, value),
{
    reveal_strlit("---\n");
    reveal_strlit("\n---");
    reveal_strlit("\n---\n");
    reveal_strlit(": ");
    law_update_without_frontmatter(c, field, value);
    let fl = field_line(field, value);
    let c1 = fresh_frontmatter(c, field, value);
    let ls = seq![fl];
    let after = seq!['\n'] + c;
    assert(join(ls, "\n"@) == fl);
    assert(c1 =~= "---\n"@ + join(ls, "\n"@) + "\n---"@ + after);
    let k: int = 4 + fl.len() as int;
    assert(fl.len() >= 2);
    assert forall|j: int| 3 <= j < k implies !#[trigger] occurs_at(c1, closing_dashes(), j) by {
        if j == 3 {
            if fl.len() >= 3 {
                assert(c1.subrange(4, 7) =~= fl.take(3));
                if occurs_at(c1, closing_dashes(), 3) {
                    assert(c1.subrange(3, 7)[1] == '-' && c1.subrange(3, 7)[2] == '-' && c1.subrange(3, 7)[3] == '-');
                    assert(fl.take(3) =~= dashes());
                }
            } else {
                assert(c1[k] == '\n');
                if occurs_at(c1, closing_dashes(), 3) {
                    assert(c1.subrange(3, 7)[k - 3] == c1[k]);
                }
            }
        } else {
            assert(c1[j] == fl[j - 4]);
            if occurs_at(c1, closing_dashes(), j) {
                assert(c1.subrange(j, j + 4)[0] == c1[j]);
                assert(fl.contains(fl[j - 4]));
            }
        }
    }
    assert(c1.subrange(k, k + 4) =~= closing_dashes());
    lemma_find_first(c1, closing_dashes(), 3, k);
    crate::text::lemma_index_of_bound(fl, '\n');
    if index_of(fl, '\n') < fl.len() {
        assert(fl.contains(fl[index_of(fl, '\n') as int]));
    }
    assert(lines(fl) == seq![fl]);
    assert(ls.contains(fl)) by {
        assert(ls[0] == fl);
    }
    law_setting_a_set_field_again_changes_nothing(c1, field, value, ls, after);
}

// ---------------------------------------------------------------------------
// Lines and joining them back
// ---------------------------------------------------------------------------

/// Whether a line ends with a carriage return.
pub open spec fn ends_cr(x: Seq<char>) -> bool {
    x.len() > 0 && x.last() == '\r'
}

proof fn lemma_join_cons(a: Seq<char>, rest: Seq<Seq<char>>, sep: Seq<char>)
    requires
        rest.len() >= 1,
    ensures
        join(seq![a] + rest, sep) == a + sep + join(rest, sep),
    decreases rest.len(),
{
    let s = seq![a] + rest;
    if rest.len() == 1 {
        assert(s.drop_last() =~= seq![a]);
        assert(join(seq![a], sep) == a);
        assert(join(rest, sep) == rest[0]);
    } else {
        lemma_join_cons(a, rest.drop_last(), sep);
        assert(s.drop_last() =~= seq![a] + rest.drop_last());
        assert(s.last() == rest.last());
        assert(join(rest, sep) == join(rest.drop_last(), sep) + sep + rest.last());
        assert(a + sep + join(rest.drop_last(), sep) + sep + rest.last() =~= a + sep + (join(
            rest.drop_last(),
            sep,
        ) + sep + rest.last()));
    }
}

/// Lines joined with line breaks read back as the same lines, where no line holds a line
/// break, none but the last ends with a carriage return, and the last is not empty.
proof fn lemma_lines_of_join(all: Seq<Seq<char>>)
    requires
        all.len() >= 1,
        forall|i: int| 0 <= i < all.len() ==> !(#[trigger] all[i]).contains('\n'),
        forall|i: int| 0 <= i < all.len() - 1 ==> !ends_cr(#[trigger] all[i]),
        all.last().len() > 0,
    ensures
        lines(join(all, "\n"@)) == all,
    decreases all.len(),
{
    reveal_strlit("\n");
    let a = all[0];
    if all.len() == 1 {
        assert(join(all, "\n"@) == a);
        assert forall|j: int| 0 <= j < a.len() implies #[trigger] a[j] != '\n' by {
            if a[j] == '\n' {
                assert(a.contains(a[j]));
            }
        }
        crate::text::lemma_index_of(a, '\n', a.len() as int);
        assert(lines(a) == seq![a]);
    } else {
        let rest = all.skip(1);
        assert(all =~= seq![a] + rest);
        lemma_join_cons(a, rest, "\n"@);
        assert forall|i: int| 0 <= i < rest.len() implies !(#[trigger] rest[i]).contains('\n') by {
            assert(rest[i] == all[i + 1]);
        }
        assert forall|i: int| 0 <= i < rest.len() - 1 implies !ends_cr(#[trigger] rest[i]) by {
            assert(rest[i] == all[i + 1]);
        }
        lemma_lines_of_join(rest);
        let jr = join(rest, "\n"@);
        let s = a + "\n"@ + jr;
        assert forall|j: int| 0 <= j < a.len() implies #[trigger] s[j] != '\n' by {
            assert(s[j] == a[j]);
            if a[j] == '\n' {
                assert(a.contains(a[j]));
            }
        }
        assert(s[a.len() as int] == '\n');
        crate::text::lemma_index_of(s, '\n', a.len() as int);
        assert(s.take(a.len() as int) =~= a);
        assert(s.skip(a.len() as int + 1) =~= jr);
        assert(!ends_cr(all[0]));
        assert(crate::text::strip_cr(a) == a);
        assert(lines(s) == seq![a] + rest);
    }
}

/// The lines `str::lines` gives hold no line break.
proof fn lemma_lines_no_newline(s: Seq<char>)
    ensures
        forall|i: int| 0 <= i < lines(s).len() ==> !(#[trigger] lines(s)[i]).contains('\n'),
    decreases s.len(),
{
    if s.len() > 0 {
        let i = index_of(s, '\n');
        crate::text::lemma_index_of_bound(s, '\n');
        if i >= s.len() {
            assert forall|q: int| 0 <= q < lines(s).len() implies !(#[trigger] lines(s)[q]).contains('\n') by {
                assert(lines(s)[q] == s);
                if s.contains('\n') {
                    let j = choose|j: int| 0 <= j < s.len() && s[j] == '\n';
                }
            }
        } else {
            let t = s.skip(i as int + 1);
            lemma_lines_no_newline(t);
            let first = crate::text::strip_cr(s.take(i as int));
            assert(!first.contains('\n')) by {
                if first.contains('\n') {
                    let j = choose|j: int| 0 <= j < first.len() && first[j] == '\n';
                    assert(s[j] == '\n');
                }
            }
            assert forall|q: int| 0 <= q < lines(s).len() implies !(#[trigger] lines(s)[q]).contains('\n') by {
                if q > 0 {
                    assert(lines(s)[q] == lines(t)[q - 1]);
                }
            }
        }
    }
}

/// The first line starts the text; every later line starts right after a line break.
proof fn lemma_lines_follow_breaks(s: Seq<char>)
    ensures
        lines(s).len() > 0 ==> starts_with(s, lines(s)[0]),
        forall|m: int|
            1 <= m < lines(s).len() ==> exists|q: int|
                0 <= q < s.len() && s[q] == '\n' && starts_with(s.skip(q + 1), #[trigger] lines(s)[m]),
    decreases s.len(),
{
    if s.len() > 0 {
        let i = index_of(s, '\n');
        crate::text::lemma_index_of_bound(s, '\n');
        if i >= s.len() {
            assert(s.take(s.len() as int) =~= s);
        } else {
            let t = s.skip(i as int + 1);
            lemma_lines_follow_breaks(t);
            let x = s.take(i as int);
            let first = crate::text::strip_cr(x);
            assert(s.take(first.len() as int) =~= first);
            assert forall|m: int| 1 <= m < lines(s).len() implies exists|q: int|
                0 <= q < s.len() && s[q] == '\n' && starts_with(s.skip(q + 1), #[trigger] lines(s)[m]) by {
                assert(lines(s)[m] == lines(t)[m - 1]);
                if m == 1 {
                    assert(s.skip(i as int + 1) == t);
                } else {
                    let q2 = choose|q2: int|
                        0 <= q2 < t.len() && t[q2] == '\n' && starts_with(t.skip(q2 + 1), #[trigger] lines(t)[m - 1]);
                    assert(s[i + 1 + q2] == t[q2]);
                    assert(s.skip(i + 1 + q2 + 1) =~= t.skip(q2 + 1));
                }
            }
        }
    }
}

/// Every line break of lines joined with line breaks (none of which holds one) comes before
/// the join of the lines after some line.
proof fn lemma_join_breaks(all: Seq<Seq<char>>, x: int)
    requires
        all.len() >= 1,
        forall|i: int| 0 <= i < all.len() ==> !(#[trigger] all[i]).contains('\n'),
        0 <= x < join(all, "\n"@).len(),
        join(all, "\n"@)[x] == '\n',
    ensures
        exists|m: int|
            0 <= m < all.len() - 1 && join(all, "\n"@).skip(x + 1) == join(#[trigger] all.skip(m + 1), "\n"@),
    decreases all.len(),
{
    reveal_strlit("\n");
    let a = all[0];
    if all.len() == 1 {
        assert(join(all, "\n"@) == a);
        assert(a.contains(a[x]));
    } else {
        let rest = all.skip(1);
        assert(all =~= seq![a] + rest);
        lemma_join_cons(a, rest, "\n"@);
        let jr = join(rest, "\n"@);
        let s = join(all, "\n"@);
        assert(s == a + "\n"@ + jr);
        if x < a.len() {
            assert(s[x] == a[x]);
            assert(a.contains(a[x]));
        } else if x == a.len() {
            assert(s.skip(x + 1) =~= jr);
            assert(join(all, "\n"@).skip(x + 1) == join(all.skip(0int + 1), "\n"@));
        } else {
            let x2 = x - a.len() - 1;
            assert(jr[x2] == s[x]);
            assert forall|i: int| 0 <= i < rest.len() implies !(#[trigger] rest[i]).contains('\n') by {
                assert(rest[i] == all[i + 1]);
            }
            lemma_join_breaks(rest, x2);
            let m2 = choose|m2: int|
                0 <= m2 < rest.len() - 1 && join(rest, "\n"@).skip(x2 + 1) == join(#[trigger] rest.skip(m2 + 1), "\n"@);
            assert(s.skip(x + 1) =~= jr.skip(x2 + 1));
            assert(rest.skip(m2 + 1) =~= all.skip(m2 + 2));
            assert(join(all, "\n"@).skip(x + 1) == join(all.skip((m2 + 1) + 1), "\n"@));
        }
    }
}

/// Text that opens with joined lines (then `\n---`) and with `---` opens its first line with it.
proof fn lemma_dash_start(u: Seq<Seq<char>>, after: Seq<char>)
    requires
        u.len() >= 1,
        starts_with(join(u, "\n"@) + "\n---"@ + after, dashes()),
    ensures
        starts_with(u[0], dashes()),
{
    reveal_strlit("\n");
    reveal_strlit("\n---");
    let h = u[0];
    let ju = join(u, "\n"@);
    let w = ju + "\n---"@ + after;
    if u.len() >= 2 {
        lemma_join_starts(u, "\n"@);
        assert(ju.take(h.len() as int + 1) == h + "\n"@);
    } else {
        assert(ju == h);
    }
    if h.len() >= 3 {
        assert forall|q: int| 0 <= q < 3 implies #[trigger] h.take(3)[q] == dashes()[q] by {
            assert(w[q] == ju[q]);
            if u.len() >= 2 {
                assert(ju.take(h.len() as int + 1)[q] == ju[q]);
            }
            assert(w.take(3)[q] == w[q]);
        }
        assert(h.take(3) =~= dashes());
    } else {
        let q = h.len() as int;
        if u.len() >= 2 {
            assert(ju.take(h.len() as int + 1)[q] == ju[q]);
            assert(w[q] == ju[q]);
        } else {
            assert(w[q] == "\n---"@[0]);
        }
        assert(w.take(3)[q] == w[q]);
        assert(false);
    }
}

/// A line starting with `---` that follows a line break of the frontmatter's body would be
/// a closing `\n---` met before the one `find_from` found.
proof fn lemma_no_dash_line(c: Seq<char>, k: int, m: int)
    requires
        starts_with(c, "---\n"@),
        find_from(c, closing_dashes(), 3) == Some(k),
        4 <= k,
        0 <= m < lines(c.subrange(4, k)).len(),
    ensures
        !starts_with(lines(c.subrange(4, k))[m], dashes()),
{
    reveal_strlit("---\n");
    let b = c.subrange(4, k);
    let ls = lines(b);
    crate::text::lemma_find_from_props(c, closing_dashes(), 3);
    lemma_lines_follow_breaks(b);
    if starts_with(ls[m], dashes()) {
        if m == 0 {
            assert(c.take(4) =~= "---\n"@);
            assert(c.take(4)[3] == c[3]);
            assert(c[3] == '\n');
            assert(b.take(3) =~= dashes());
            assert(c.subrange(3, 7) =~= closing_dashes()) by {
                assert(c.subrange(3, 7)[0] == c[3]);
                assert(c.subrange(3, 7)[1] == b[0]);
                assert(c.subrange(3, 7)[2] == b[1]);
                assert(c.subrange(3, 7)[3] == b[2]);
            }
            assert(occurs_at(c, closing_dashes(), 3));
        } else {
            let q = choose|q: int|
                0 <= q < b.len() && b[q] == '\n' && starts_with(b.skip(q + 1), #[trigger] ls[m]);
            assert(ls[m].take(3) =~= dashes());
            assert(b.skip(q + 1).take(3) =~= dashes());
            let p = 4 + q;
            assert(c.subrange(p, p + 4) =~= closing_dashes()) by {
                assert(c.subrange(p, p + 4)[0] == b[q]);
                assert(c.subrange(p, p + 4)[1] == b.skip(q + 1)[0]);
                assert(c.subrange(p, p + 4)[2] == b.skip(q + 1)[1]);
                assert(c.subrange(p, p + 4)[3] == b.skip(q + 1)[2]);
            }
            assert(occurs_at(c, closing_dashes(), p));
        }
    }
}

/// Setting a field twice gives what setting it once gives, for a note whose frontmatter opens
/// with `---` on its own line and closes later, whose frontmatter lines end without a carriage
/// return and whose last frontmatter line is not blank, where the field's line holds no line
/// break, does not end with a carriage return or start with `---`, and sets the field.
pub proof fn law_update_frontmatter_field_twice(c: Seq<char>, field: Seq<char>, value: Seq<char>)
    requires
        starts_with(c, "---\n"@),
        find_from(c, closing_dashes(), 3) matches Some(k) && k >= 4 && ({
            let ls = lines(c.subrange(4, k));
            &&& forall|i: int| 0 <= i < ls.len() ==> !ends_cr(#[trigger] ls[i])
            &&& ls.len() > 0 ==> ls.last().len() > 0
        }),
        !field_line(field, value).contains('\n'),
        !ends_cr(field_line(field, value)),
        !starts_with(field_line(field, value), dashes()),
        sets_field(field_line(field, value), field + ":"@),
    ensures
        with_field(with_field(c, field, value), field, value) == with_field(c, field, value),
{
    reveal_strlit("---\n");
    reveal_strlit("\n---");
    reveal_strlit("\n");
    reveal_strlit(": ");
    let k = find_from(c, closing_dashes(), 3).unwrap();
    let b = c.subrange(4, k);
    let ls = lines(b);
    let prefix = field + ":"@;
    let fl = field_line(field, value);
    let nl = replace_field_lines(ls, prefix, fl);
    let all = if has_field(ls, prefix) {
        nl
    } else {
        nl.push(fl)
    };
    let j = join(all, "\n"@);
    let after = c.skip(k + 4);
    let c1 = "---\n"@ + j + "\n---"@ + after;
    assert(c.take(3) =~= dashes());
    assert(c.take(4) =~= "---\n"@);
    assert(c.take(4)[3] == c[3]);
    assert(c[3] == '\n');
    assert(fm_start(c) == 4);
    assert(with_field(c, field, value) == c1);
    assert(fl.len() >= 2);
    lemma_lines_no_newline(b);
    // Which lines the update wrote.
    assert forall|i: int| 0 <= i < all.len() implies #[trigger] all[i] == fl || (i < ls.len() && all[i]
        == ls[i]) by {
        if i < nl.len() {
            assert(all[i] == nl[i]);
        }
    }
    if has_field(ls, prefix) {
        let w = choose|w: int| 0 <= w < ls.len() && #[trigger] sets_field(ls[w], prefix);
        assert(all[w] == fl);
    } else {
        assert(all[nl.len() as int] == fl);
    }
    assert(all.len() >= 1);
    assert(all.contains(fl));
    assert forall|i: int| 0 <= i < all.len() implies !(#[trigger] all[i]).contains('\n') by {
        if all[i] != fl {
            assert(all[i] == ls[i]);
        }
    }
    assert forall|i: int| 0 <= i < all.len() - 1 implies !ends_cr(#[trigger] all[i]) by {
        if all[i] != fl {
            assert(all[i] == ls[i]);
        }
    }
    assert(all.last().len() > 0) by {
        let z = all.len() - 1;
        if all[z] != fl {
            assert(all[z] == ls[z]);
            if has_field(ls, prefix) {
                assert(z == ls.len() - 1);
            }
        }
    }
    lemma_lines_of_join(all);
    // The frontmatter written closes where the update put its `---`.
    let e: int = 4 + j.len() as int;
    assert(c1.subrange(e, e + 4) =~= closing_dashes());
    assert forall|p: int| 3 <= p < e implies !#[trigger] occurs_at(c1, closing_dashes(), p) by {
        if occurs_at(c1, closing_dashes(), p) {
            assert(c1.subrange(p, p + 4)[0] == c1[p]);
            // The line that would start after the break at `p`.
            let rest_text = c1.skip(p + 1);
            assert(rest_text.take(3) =~= dashes()) by {
                assert(rest_text.take(3)[0] == c1.subrange(p, p + 4)[1]);
                assert(rest_text.take(3)[1] == c1.subrange(p, p + 4)[2]);
                assert(rest_text.take(3)[2] == c1.subrange(p, p + 4)[3]);
            }
            if p == 3 {
                assert(rest_text =~= j + "\n---"@ + after);
                lemma_dash_start(all, after);
                if all[0] != fl {
                    assert(all[0] == ls[0]);
                    lemma_no_dash_line(c, k, 0);
                }
            } else {
                let x = p - 4;
                assert(j[x] == c1[p]);
                lemma_join_breaks(all, x);
                let m = choose|m: int|
                    0 <= m < all.len() - 1 && join(all, "\n"@).skip(x + 1) == join(#[trigger] all.skip(m + 1), "\n"@);
                let u = all.skip(m + 1);
                assert(rest_text =~= j.skip(x + 1) + "\n---"@ + after);
                lemma_dash_start(u, after);
                assert(u[0] == all[m + 1]);
                if all[m + 1] != fl {
                    assert(all[m + 1] == ls[m + 1]);
                    lemma_no_dash_line(c, k, m + 1);
                }
            }
        }
    }
    crate::frontmatter::lemma_find_first(c1, closing_dashes(), 3, e);
    assert(c1 =~= "---\n"@ + join(all, "\n"@) + "\n---"@ + after);
    assert forall|i: int| 0 <= i < all.len() && #[trigger] sets_field(all[i], prefix) implies all[i] == fl by {
        if all[i] != fl {
            assert(all[i] == ls[i]);
            assert(nl[i] == ls[i]);
        }
    }
    law_setting_a_set_field_again_changes_nothing(c1, field, value, all, after);
}

/// The timestamp lines of a new note's frontmatter.
pub open spec fn timestamp_lines(
    timestamp: Option<Seq<char>>,
    created_field: Seq<char>,
    modified_field: Seq<char>,
) -> Seq<Seq<char>> {
    match timestamp {
        Some(ts) => (if created_field.len() > 0 {
            seq![created_field + ": "@ + ts]
        } else {
            Seq::empty()
        }) + (if modified_field.len() > 0 {
            seq![modified_field + ": "@ + ts]
        } else {
            Seq::empty()
        }),
        None => Seq::empty(),
    }
}

/// The lines of a new note's frontmatter, `---` to `---`.
pub open spec fn frontmatter_lines(
    title: Seq<char>,
    tags: Seq<Seq<char>>,
    default_tags: Seq<Seq<char>>,
    aliases: Seq<Seq<char>>,
    timestamp: Option<Seq<char>>,
    created_field: Seq<char>,
    modified_field: Seq<char>,
) -> Seq<Seq<char>> {
    let all = merge_tags(tags, default_tags);
    seq!["---"@, "title: \""@ + escape_quotes(title) + "\""@] + (if aliases.len() > 0 {
        seq!["aliases: ["@ + join(aliases, ", "@) + "]"@]
    } else {
        Seq::empty()
    }) + (if all.len() > 0 {
        seq!["tags: ["@ + join(all, ", "@) + "]"@]
    } else {
        Seq::empty()
    }) + timestamp_lines(timestamp, created_field, modified_field) + seq!["---"@]
}

proof fn lemma_join_starts(ls: Seq<Seq<char>>, sep: Seq<char>)
    requires
        ls.len() >= 2,
    ensures
        starts_with(join(ls, sep), ls[0] + sep),
    decreases ls.len(),
{
    let d = ls.drop_last();
    let p = ls[0] + sep;
    let x = join(d, sep);
    assert(join(ls, sep) == x + sep + ls.last());
    if d.len() >= 2 {
        lemma_join_starts(d, sep);
        assert(d[0] == ls[0]);
        assert(x.len() >= p.len());
        assert((x + sep + ls.last()).take(p.len() as int) =~= x.take(p.len() as int));
    } else {
        assert(x == ls[0]);
        assert((x + sep + ls.last()).take(p.len() as int) =~= p);
    }
}

/// A generated frontmatter opens with `---` on its own line and closes with `---` and a line
/// break; where the merged tags are not empty, one of its lines lists them all as
/// `tags: [a, b, ...]`, the note's tags first and then the default tags it lacked, each once.
pub proof fn law_generated_frontmatter_shape(
    title: Seq<char>,
    tags: Seq<Seq<char>>,
    default_tags: Seq<Seq<char>>,
    aliases: Seq<Seq<char>>,
    timestamp: Option<Seq<char>>,
    created_field: Seq<char>,
    modified_field: Seq<char>,
)
    ensures
        ({
            let ls = frontmatter_lines(
                title,
                tags,
                default_tags,
                aliases,
                timestamp,
                created_field,
                modified_field,
            );
            let text = join(ls, "\n"@) + "\n"@;
            let all = merge_tags(tags, default_tags);
            &&& starts_with(text, "---\n"@)
            &&& text.len() >= 4 && text.skip(text.len() - 4) == "---\n"@
            &&& (all.len() > 0 ==> ls.contains("tags: ["@ + join(all, ", "@) + "]"@))
        }),
{
    reveal_strlit("---");
    reveal_strlit("---\n");
    reveal_strlit("\n");
    let ls = frontmatter_lines(title, tags, default_tags, aliases, timestamp, created_field, modified_field);
    let all = merge_tags(tags, default_tags);
    let head = seq!["---"@, "title: \""@ + escape_quotes(title) + "\""@];
    let al = if aliases.len() > 0 {
        seq!["aliases: ["@ + join(aliases, ", "@) + "]"@]
    } else {
        Seq::<Seq<char>>::empty()
    };
    let tl = if all.len() > 0 {
        seq!["tags: ["@ + join(all, ", "@) + "]"@]
    } else {
        Seq::<Seq<char>>::empty()
    };
    let ts = timestamp_lines(timestamp, created_field, modified_field);
    assert(ls == head + al + tl + ts + seq!["---"@]);
    assert(ls[0] == "---"@);
    assert(ls.last() == "---"@);
    lemma_join_starts(ls, "\n"@);
    let j = join(ls, "\n"@);
    let text = j + "\n"@;
    assert(text.take(4) =~= j.take(4));
    assert(j == join(ls.drop_last(), "\n"@) + "\n"@ + "---"@);
    assert(text.skip(text.len() - 4) =~= "---\n"@);
    assert("---"@ + "\n"@ =~= "---\n"@);
    assert(j.take(4) =~= "---\n"@);
    assert(starts_with(text, "---\n"@));
    if all.len() > 0 {
        let k = (head.len() + al.len()) as int;
        let line = "tags: ["@ + join(all, ", "@) + "]"@;
        assert(tl[0] == line);
        assert((head + al + tl + ts + seq!["---"@])[k] == tl[0]);
        assert(0 <= k < ls.len() && ls[k] == line);
        assert(ls.contains(line));
    }
}

fn escape_quotes_exec(s: &Vec<char>) -> (r: Vec<char>)
    ensures
        r@ == escape_quotes(s@),
{
    let mut out: Vec<char> = Vec::new();
    let mut i: usize = 0;
    while i < s.len()
        invariant
            i <= s.len(),
            out@ == escape_quotes(s@.take(i as int)),
        decreases s.len() - i,
    {
        assert(s@.take(i + 1).drop_last() =~= s@.take(i as int));
        if s[i] == '"' {
            out.push('\\');
            out.push('"');
        } else {
            out.push(s[i]);
        }
        i = i + 1;
    }
    assert(s@.take(s.len() as int) =~= s@);
    out
}

pub(crate) fn merge_tags_exec(tags: &[String], default_tags: &[String]) -> (r: Vec<Vec<char>>)
    ensures
        views(r@) == merge_tags(str_views(tags@), str_views(default_tags@)),
{
    let mut all = chars_of_all(tags);
    let d = chars_of_all(default_tags);
    let ghost dv = views(d@);
    let mut i: usize = 0;
    assert(dv.skip(0) =~= dv);
    while i < d.len()
        invariant
            i <= d.len(),
            dv == views(d@),
            dv == str_views(default_tags@),
            merge_tags(str_views(tags@), dv) == merge_tags(views(all@), dv.skip(i as int)),
        decreases d.len() - i,
    {
        let ghost rest = dv.skip(i as int);
        assert(rest[0] == d@[i as int]@);
        assert(rest.drop_first() =~= dv.skip(i + 1));
        if !contains_chars(&all, &d[i]) {
            let ghost prev = views(all@);
            let x = copy_chars(&d[i]);
            all.push(x);
            assert(views(all@) =~= prev.push(rest[0]));
        }
        i = i + 1;
    }
    assert(dv.skip(i as int) =~= Seq::<Seq<char>>::empty());
    all
}

/// Generate YAML frontmatter for a new note.
pub fn generate_frontmatter(
    title: &str,
    tags: &[String],
    default_tags: &[String],
    aliases: &[String],
    timestamp: Option<&str>,
    created_field: &str,
    modified_field: &str,
) -> (r: String)
    ensures
        r@ == join(
            frontmatter_lines(
                title@,
                str_views(tags@),
                str_views(default_tags@),
                str_views(aliases@),
                match timestamp {
                    Some(t) => Some(t@),
                    None => None,
                },
                created_field@,
                modified_field@,
            ),
            "\n"@,
        ) + "\n"@,
{
    let ghost ts = match timestamp {
        Some(t) => Some(t@),
        None => None,
    };
    let mut lines_out: Vec<Vec<char>> = Vec::new();
    lines_out.push(chars_of("---"));
    // Title — escape quotes
    let mut tl = chars_of("title: \"");
    let tv = chars_of(title);
    let esc = escape_quotes_exec(&tv);
    push_all(&mut tl, &esc);
    push_str(&mut tl, "\"");
    lines_out.push(tl);
    let ghost head = views(lines_out@);
    assert(head =~= seq!["---"@, "title: \""@ + escape_quotes(title@) + "\""@]);
    // Aliases
    let sep = chars_of(", ");
    if aliases.len() > 0 {
        let av = chars_of_all(aliases);
        let joined = join_exec(&av, &sep);
        let mut al = chars_of("aliases: [");
        push_all(&mut al, &joined);
        push_str(&mut al, "]");
        lines_out.push(al);
    }
    let ghost with_aliases = views(lines_out@);
    assert(with_aliases =~= head + (if aliases@.len() > 0 {
        seq!["aliases: ["@ + join(str_views(aliases@), ", "@) + "]"@]
    } else {
        Seq::empty()
    }));
    // Merge user tags + default_tags (deduped, preserving order)
    let all = merge_tags_exec(tags, default_tags);
    if all.len() > 0 {
        let joined = join_exec(&all, &sep);
        let mut tg = chars_of("tags: [");
        push_all(&mut tg, &joined);
        push_str(&mut tg, "]");
        lines_out.push(tg);
    }
    let ghost with_tags = views(lines_out@);
    assert(with_tags =~= with_aliases + (if views(all@).len() > 0 {
        seq!["tags: ["@ + join(views(all@), ", "@) + "]"@]
    } else {
        Seq::empty()
    }));
    // Timestamps
    if let Some(t) = timestamp {
        if !created_field.is_empty() {
            let mut cl = chars_of(created_field);
            push_str(&mut cl, ": ");
            push_str(&mut cl, t);
            lines_out.push(cl);
        }
        if !modified_field.is_empty() {
            let mut ml = chars_of(modified_field);
            push_str(&mut ml, ": ");
            push_str(&mut ml, t);
            lines_out.push(ml);
        }
    }
    let ghost with_ts = views(lines_out@);
    assert(with_ts =~= with_tags + timestamp_lines(ts, created_field@, modified_field@));
    lines_out.push(chars_of("---"));
    assert(views(lines_out@) =~= frontmatter_lines(
        title@,
        str_views(tags@),
        str_views(default_tags@),
        str_views(aliases@),
        ts,
        created_field@,
        modified_field@,
    ));
    let nl = chars_of("\n");
    let mut out = join_exec(&lines_out, &nl);
    out.push('\n');
    proof {
        reveal_strlit("\n");
        assert(nl@ =~= seq!['\n']);
    }
    string_of(&out)
}

// ---------------------------------------------------------------------------
// Updating one field
// ---------------------------------------------------------------------------

/// The line `field: value`.
pub open spec fn field_line(field: Seq<char>, value: Seq<char>) -> Seq<char> {
    field + ": "@ + value
}

/// A frontmatter holding only `field: value`, put in front of `c`.
pub open spec fn fresh_frontmatter(c: Seq<char>, field: Seq<char>, value: Seq<char>) -> Seq<char> {
    "---\n"@ + field_line(field, value) + "\n---\n"@ + c
}

/// Whether a frontmatter line sets the field with this `prefix` (`field:`).
pub open spec fn sets_field(l: Seq<char>, prefix: Seq<char>) -> bool {
    starts_with(trim_start(l), prefix)
}

/// The lines with each line that sets the field replaced by `line`.
pub open spec fn replace_field_lines(ls: Seq<Seq<char>>, prefix: Seq<char>, line: Seq<char>) -> Seq<
    Seq<char>,
> {
    ls.map_values(|l: Seq<char>| if sets_field(l, prefix) { line } else { l })
}

pub open spec fn has_field(ls: Seq<Seq<char>>, prefix: Seq<char>) -> bool {
    exists|i: int| 0 <= i < ls.len() && #[trigger] sets_field(ls[i], prefix)
}

/// Start of the frontmatter body: after `---\n`, or after `---` alone.
pub open spec fn fm_start(c: Seq<char>) -> int {
    if c.len() > 3 && c[3] == '\n' {
        4
    } else {
        3
    }
}

/// The content with `field: value` set in its frontmatter: replaced where the field is,
/// added at the end of the frontmatter where it is not, and a frontmatter created where
/// there is none.
pub open spec fn with_field(c: Seq<char>, field: Seq<char>, value: Seq<char>) -> Seq<char> {
    if !starts_with(c, dashes()) {
        fresh_frontmatter(c, field, value)
    } else {
        match find_from(c, closing_dashes(), 3) {
            None => fresh_frontmatter(c, field, value),
            Some(closing) => {
                let after = c.skip(closing + 4);
                if fm_start(c) > closing {
                    "---\n"@ + field_line(field, value) + "\n---"@ + after
                } else {
                    let ls = lines(c.subrange(fm_start(c), closing));
                    let prefix = field + ":"@;
                    let nl = replace_field_lines(ls, prefix, field_line(field, value));
                    let all = if has_field(ls, prefix) {
                        nl
                    } else {
                        nl.push(field_line(field, value))
                    };
                    "---\n"@ + join(all, "\n"@) + "\n---"@ + after
                }
            },
        }
    }
}

/// The content with the field's value replaced where the frontmatter already sets it;
/// the content unchanged otherwise.
pub open spec fn with_existing_field(c: Seq<char>, field: Seq<char>, value: Seq<char>) -> Seq<
    char,
> {
    if !starts_with(c, dashes()) {
        c
    } else {
        match find_from(c, closing_dashes(), 3) {
            None => c,
            Some(closing) => {
                if fm_start(c) > closing {
                    c
                } else {
                    let ls = lines(c.subrange(fm_start(c), closing));
                    let prefix = field + ":"@;
                    if has_field(ls, prefix) {
                        "---\n"@ + join(
                            replace_field_lines(ls, prefix, field_line(field, value)),
                            "\n"@,
                        ) + "\n---"@ + c.skip(closing + 4)
                    } else {
                        c
                    }
                }
            },
        }
    }
}

fn rewrite_field_lines(ls: &Vec<Vec<char>>, prefix: &Vec<char>, line: &Vec<char>) -> (r: (
    Vec<Vec<char>>,
    bool,
))
    ensures
        views(r.0@) == replace_field_lines(views(ls@), prefix@, line@),
        r.1 == has_field(views(ls@), prefix@),
{
    let ghost lv = views(ls@);
    let ghost want = replace_field_lines(lv, prefix@, line@);
    let mut out: Vec<Vec<char>> = Vec::new();
    let mut found = false;
    let mut i: usize = 0;
    while i < ls.len()
        invariant
            i <= ls.len(),
            lv == views(ls@),
            want == replace_field_lines(lv, prefix@, line@),
            views(out@) == want.take(i as int),
            found == exists|j: int| 0 <= j < i && #[trigger] sets_field(lv[j], prefix@),
        decreases ls.len() - i,
    {
        let t = trim_start_exec(&ls[i]);
        let ghost prev = views(out@);
        assert(lv[i as int] == ls@[i as int]@);
        if crate::text::starts_with_exec(&t, prefix) {
            out.push(copy_chars(line));
            found = true;
        } else {
            out.push(copy_chars(&ls[i]));
        }
        assert(views(out@) =~= prev.push(want[i as int]));
        assert(want.take(i + 1) =~= want.take(i as int).push(want[i as int]));
        i = i + 1;
    }
    assert(want.take(ls.len() as int) =~= want);
    (out, found)
}

/// What is needed to rewrite a frontmatter: (closing offset, body start, lines).
fn frontmatter_parts(c: &Vec<char>) -> (r: Option<(usize, usize)>)
    ensures
        match r {
            Some((closing, start)) => starts_with(c@, dashes()) && find_from(
                c@,
                closing_dashes(),
                3,
            ) == Some(closing as int) && start == fm_start(c@) && closing + 4 <= c@.len(),
            None => !starts_with(c@, dashes()) || find_from(c@, closing_dashes(), 3) is None,
        },
{
    let d = chars_of("---");
    let close = chars_of("\n---");
    proof {
        reveal_strlit("---");
        reveal_strlit("\n---");
        assert(d@ =~= dashes());
        assert(close@ =~= closing_dashes());
    }
    if !crate::text::starts_with_exec(c, &d) {
        return None;
    }
    let n = c.len();
    match find_exec(c, &close, 3) {
        Some(closing) => {
            proof {
                crate::text::lemma_find_from_props(c@, close@, 3);
                assert(crate::text::occurs_at(c@, close@, closing as int));
                assert(closing + 4 <= n);
            }
            let start: usize = if c.len() > 3 && c[3] == '\n' {
                4
            } else {
                3
            };
            Some((closing, start))
        },
        None => None,
    }
}

fn field_line_exec(field: &str, value: &str) -> (r: Vec<char>)
    ensures
        r@ == field_line(field@, value@),
{
    let mut l = chars_of(field);
    push_str(&mut l, ": ");
    push_str(&mut l, value);
    l
}

/// Update or add a field in existing frontmatter.
///
/// - If the field exists: replaces the value.
/// - If the field is missing but frontmatter exists: adds before closing `---`.
/// - If no frontmatter: creates one with just this field.
pub fn update_frontmatter_field(content: &str, field: &str, value: &str) -> (r: String)
    ensures
        r@ == with_field(content@, field@, value@),
{
    let c = chars_of(content);
    let fl = field_line_exec(field, value);
    match frontmatter_parts(&c) {
        None => {
            let mut out = chars_of("---\n");
            push_all(&mut out, &fl);
            push_str(&mut out, "\n---\n");
            push_all(&mut out, &c);
            string_of(&out)
        },
        Some((closing, start)) => {
            let after = slice_of(&c, closing + 4, c.len());
            if start > closing {
                let mut out = chars_of("---\n");
                push_all(&mut out, &fl);
                push_str(&mut out, "\n---");
                push_all(&mut out, &after);
                return string_of(&out);
            }
            let body = slice_of(&c, start, closing);
            let ls = split_lines(&body);
            let mut prefix = chars_of(field);
            push_str(&mut prefix, ":");
            let (mut nl, found) = rewrite_field_lines(&ls, &prefix, &fl);
            if !found {
                let ghost prev = views(nl@);
                nl.push(copy_chars(&fl));
                assert(views(nl@) =~= prev.push(fl@));
            }
            let sep = chars_of("\n");
            let joined = join_exec(&nl, &sep);
            let mut out = chars_of("---\n");
            push_all(&mut out, &joined);
            push_str(&mut out, "\n---");
            push_all(&mut out, &after);
            string_of(&out)
        },
    }
}

/// Update a field in existing frontmatter — only if it already exists.
///
/// Returns content unchanged if the field is not found or no frontmatter exists.
/// Use this for edit operations to avoid adding duplicate timestamp fields
/// when the note was created by a different tool (e.g. Obsidian).
pub fn update_existing_frontmatter_field(content: &str, field: &str, value: &str) -> (r: String)
    ensures
        r@ == with_existing_field(content@, field@, value@),
{
    let c = chars_of(content);
    match frontmatter_parts(&c) {
        None => string_of(&c),
        Some((closing, start)) => {
            if start > closing {
                return string_of(&c);
            }
            let body = slice_of(&c, start, closing);
            let ls = split_lines(&body);
            let mut prefix = chars_of(field);
            push_str(&mut prefix, ":");
            let fl = field_line_exec(field, value);
            let (nl, found) = rewrite_field_lines(&ls, &prefix, &fl);
            if !found {
                return string_of(&c);
            }
            let after = slice_of(&c, closing + 4, c.len());
            let sep = chars_of("\n");
            let joined = join_exec(&nl, &sep);
            let mut out = chars_of("---\n");
            push_all(&mut out, &joined);
            push_str(&mut out, "\n---");
            push_all(&mut out, &after);
            string_of(&out)
        },
    }
}

} // verus!

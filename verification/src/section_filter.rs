//! Which sections carry no prose worth embedding: link-only lists and changelogs.
use crate::text::{
    chars_of, copy_chars, is_whitespace, is_ws, lemma_lead_ws_bound, lines, slice_of, split_lines,
    starts_with, string_of, trim_start, trim_start_exec, views,
};
use crate::types::ChunkConfig;
use crate::wikilinks::{replace_links, unlinked_text};
use vstd::prelude::*;

verus! {

// ---------------------------------------------------------------------------
// The outside regex engine
// ---------------------------------------------------------------------------

/// What `regex::Regex::new(pattern)` followed by `is_match(text)` answers:
/// `None` when the pattern does not compile.
pub uninterp spec fn regex_match(pattern: Seq<char>, text: Seq<char>) -> Option<bool>;

/// Calls `regex::Regex::new(pattern)` and, when the pattern compiles, `Regex::is_match(text)`.
/// The contract claims only that the answer is a function of the pattern and the text
/// (named `regex_match`); what the regex engine matches is not restated here.
#[verifier::external_body]
fn regex_is_match(pattern: &str, text: &str) -> (r: Option<bool>)
    ensures
        r == regex_match(pattern@, text@),
{
    regex::Regex::new(pattern).ok().map(|re| re.is_match(text))
}

/// A line that starts with a date `YYYY-MM-DD`, bare or inside `[[`/`]]`.
pub open spec fn changelog_date_pattern() -> Seq<char> {
    "^(\\[\\[)?\\d{4}-\\d{2}-\\d{2}(\\]\\])?"@
}

// ---------------------------------------------------------------------------
// List markers
// ---------------------------------------------------------------------------

pub open spec fn is_ascii_digit(c: char) -> bool {
    '0' <= c && c <= '9'
}

/// Number of leading ASCII digits.
pub open spec fn lead_digits(s: Seq<char>) -> nat
    decreases s.len(),
{
    if s.len() > 0 && is_ascii_digit(s[0]) {
        1 + lead_digits(s.drop_first())
    } else {
        0
    }
}

/// A line without its leading whitespace and list marker (`- `, `* `, `1. `, `1) `).
pub open spec fn list_marker_rest(line: Seq<char>) -> Seq<char> {
    marker_rest_of(trim_start(line))
}

/// A line that has no leading whitespace, without its list marker.
pub open spec fn marker_rest_of(t: Seq<char>) -> Seq<char> {
    if starts_with(t, seq!['-', ' ']) || starts_with(t, seq!['*', ' ']) {
        t.skip(2)
    } else {
        numbered_rest(t, lead_digits(t) as int)
    }
}

/// `t` without a numbered marker of `d` digits followed by `. ` or `) `.
pub open spec fn numbered_rest(t: Seq<char>, d: int) -> Seq<char> {
    let a = t.skip(d);
    if d > 0 && (starts_with(a, seq!['.', ' ']) || starts_with(a, seq![')', ' '])) {
        a.skip(2)
    } else {
        t
    }
}

pub proof fn lemma_lead_digits_bound(s: Seq<char>)
    ensures
        lead_digits(s) <= s.len(),
    decreases s.len(),
{
    if s.len() > 0 && is_ascii_digit(s[0]) {
        lemma_lead_digits_bound(s.drop_first());
    }
}

pub proof fn lemma_lead_digits(s: Seq<char>, k: int)
    requires
        0 <= k <= s.len(),
        forall|j: int| 0 <= j < k ==> is_ascii_digit(#[trigger] s[j]),
        k == s.len() || !is_ascii_digit(s[k]),
    ensures
        lead_digits(s) == k,
    decreases k,
{
    if k > 0 {
        lemma_lead_digits(s.drop_first(), k - 1);
    }
}

pub proof fn lemma_list_marker_rest_len(line: Seq<char>)
    ensures
        list_marker_rest(line).len() <= line.len(),
{
    lemma_lead_ws_bound(line);
    let t = trim_start(line);
    lemma_lead_digits_bound(t);
}

fn two(s: &Vec<char>, at: usize, a: char, b: char) -> (r: bool)
    requires
        at <= s.len(),
    ensures
        r == starts_with(s@.skip(at as int), seq![a, b]),
{
    let r = s.len() - at >= 2 && s[at] == a && s[at + 1] == b;
    proof {
        let t = s@.skip(at as int);
        if r {
            assert(t.take(2) =~= seq![a, b]);
        }
        if t.len() >= 2 && t.take(2) == seq![a, b] {
            assert(t.take(2)[0] == s@[at as int]);
            assert(t.take(2)[1] == s@[at + 1]);
        }
    }
    r
}

fn marker_rest_exec(t: &Vec<char>) -> (r: Vec<char>)
    ensures
        r@ == marker_rest_of(t@),
{
    assert(t@.skip(0) =~= t@);
    if two(t, 0, '-', ' ') || two(t, 0, '*', ' ') {
        return slice_of(t, 2, t.len());
    }
    let mut d: usize = 0;
    while d < t.len() && '0' <= t[d] && t[d] <= '9'
        invariant
            d <= t.len(),
            forall|j: int| 0 <= j < d ==> is_ascii_digit(#[trigger] t@[j]),
        decreases t.len() - d,
    {
        d = d + 1;
    }
    proof {
        lemma_lead_digits(t@, d as int);
    }
    if d > 0 && (two(t, d, '.', ' ') || two(t, d, ')', ' ')) {
        let r = slice_of(t, d + 2, t.len());
        assert(r@ =~= t@.skip(d as int).skip(2));
        r
    } else {
        copy_chars(t)
    }
}

fn strip_list_marker_chars(line: &Vec<char>) -> (r: Vec<char>)
    ensures
        r@ == list_marker_rest(line@),
{
    let t = trim_start_exec(line);
    marker_rest_exec(&t)
}

/// Strip list markers from the start of a line.
/// Returns the remainder after the marker, or the line without its leading whitespace.
pub fn strip_list_marker(line: &str) -> (r: String)
    ensures
        r@ == list_marker_rest(line@),
{
    let v = chars_of(line);
    let r = strip_list_marker_chars(&v);
    string_of(&r)
}

// ---------------------------------------------------------------------------
// Prose count
// ---------------------------------------------------------------------------

/// Number of non-whitespace characters.
pub open spec fn count_non_ws(s: Seq<char>) -> nat
    decreases s.len(),
{
    if s.len() == 0 {
        0
    } else {
        count_non_ws(s.drop_last()) + if is_ws(s.last()) {
            0nat
        } else {
            1nat
        }
    }
}

/// Prose characters of each line, summed.
pub open spec fn prose_of_lines(ls: Seq<Seq<char>>) -> nat
    decreases ls.len(),
{
    if ls.len() == 0 {
        0
    } else {
        prose_of_lines(ls.drop_last()) + count_non_ws(list_marker_rest(trim_start(ls.last())))
    }
}

/// Non-whitespace characters left after removing wikilinks and list markers.
pub open spec fn prose_chars(raw: Seq<char>) -> nat {
    prose_of_lines(lines(unlinked_text(raw)))
}

pub open spec fn total_len(ls: Seq<Seq<char>>) -> nat
    decreases ls.len(),
{
    if ls.len() == 0 {
        0
    } else {
        total_len(ls.drop_last()) + ls.last().len()
    }
}

pub proof fn lemma_count_non_ws_le(s: Seq<char>)
    ensures
        count_non_ws(s) <= s.len(),
    decreases s.len(),
{
    if s.len() > 0 {
        lemma_count_non_ws_le(s.drop_last());
    }
}

pub proof fn lemma_total_len_prepend(x: Seq<char>, ls: Seq<Seq<char>>)
    ensures
        total_len(seq![x] + ls) == x.len() + total_len(ls),
    decreases ls.len(),
{
    if ls.len() == 0 {
        assert(seq![x] + ls =~= seq![x]);
        lemma_total_len_single(x);
    } else {
        lemma_total_len_prepend(x, ls.drop_last());
        assert((seq![x] + ls).drop_last() =~= seq![x] + ls.drop_last());
        assert((seq![x] + ls).last() == ls.last());
    }
}

pub proof fn lemma_total_len_single(x: Seq<char>)
    ensures
        total_len(seq![x]) == x.len(),
{
    assert(seq![x].drop_last() =~= Seq::<Seq<char>>::empty());
    assert(total_len(Seq::<Seq<char>>::empty()) == 0);
    assert(seq![x].last() == x);
}

pub proof fn lemma_lines_total(s: Seq<char>)
    ensures
        total_len(lines(s)) <= s.len(),
    decreases s.len(),
{
    if s.len() > 0 {
        let i = crate::text::index_of(s, '\n');
        crate::text::lemma_index_of_bound(s, '\n');
        if i >= s.len() {
            assert(lines(s) == seq![s]);
            lemma_total_len_single(s);
        } else {
            lemma_lines_total(s.skip(i as int + 1));
            lemma_total_len_prepend(crate::text::strip_cr(s.take(i as int)), lines(s.skip(i as int + 1)));
            assert(lines(s) == seq![crate::text::strip_cr(s.take(i as int))] + lines(s.skip(i as int + 1)));
        }
    }
}

pub proof fn lemma_prose_le_total(ls: Seq<Seq<char>>)
    ensures
        prose_of_lines(ls) <= total_len(ls),
    decreases ls.len(),
{
    if ls.len() > 0 {
        lemma_prose_le_total(ls.drop_last());
        let l = ls.last();
        lemma_list_marker_rest_len(trim_start(l));
        lemma_count_non_ws_le(list_marker_rest(trim_start(l)));
        lemma_lead_ws_bound(l);
    }
}

fn count_non_ws_exec(s: &Vec<char>) -> (r: usize)
    ensures
        r == count_non_ws(s@),
{
    let mut n: usize = 0;
    let mut i: usize = 0;
    while i < s.len()
        invariant
            i <= s.len(),
            n == count_non_ws(s@.take(i as int)),
            n <= i,
        decreases s.len() - i,
    {
        assert(s@.take(i + 1).drop_last() =~= s@.take(i as int));
        if !is_whitespace(s[i]) {
            n = n + 1;
        }
        i = i + 1;
    }
    assert(s@.take(s.len() as int) =~= s@);
    n
}

fn prose_char_count_chars(raw: &Vec<char>) -> (r: usize)
    ensures
        r == prose_chars(raw@),
{
    let without_links = replace_links(raw, false);
    let ls = split_lines(&without_links);
    let ghost lv = views(ls@);
    let wl = without_links.len();
    proof {
        lemma_lines_total(without_links@);
    }
    let mut total: usize = 0;
    let mut i: usize = 0;
    while i < ls.len()
        invariant
            i <= ls.len(),
            lv == views(ls@),
            lv == lines(without_links@),
            total == prose_of_lines(lv.take(i as int)),
            total_len(lv) <= wl,
        decreases ls.len() - i,
    {
        let t = trim_start_exec(&ls[i]);
        let m = strip_list_marker_chars(&t);
        let c = count_non_ws_exec(&m);
        proof {
            assert(lv.take(i + 1).drop_last() =~= lv.take(i as int));
            assert(lv.take(i + 1).last() == ls@[i as int]@);
            lemma_prose_le_total(lv.take(i + 1));
            lemma_total_len_take(lv, i + 1);
            assert(total + c == prose_of_lines(lv.take(i + 1)));
            assert(prose_of_lines(lv.take(i + 1)) <= total_len(lv.take(i + 1)));
            assert(total_len(lv.take(i + 1)) <= total_len(lv));
            assert(total + c <= wl);
        }
        total = total + c;
        i = i + 1;
    }
    assert(lv.take(ls.len() as int) =~= lv);
    total
}

pub proof fn lemma_total_len_take(ls: Seq<Seq<char>>, k: int)
    requires
        0 <= k <= ls.len(),
    ensures
        total_len(ls.take(k)) <= total_len(ls),
    decreases ls.len() - k,
{
    if k < ls.len() {
        lemma_total_len_take(ls, k + 1);
        assert(ls.take(k + 1).drop_last() =~= ls.take(k));
    } else {
        assert(ls.take(k) =~= ls);
    }
}

/// Count non-whitespace "prose" characters remaining after stripping wikilinks
/// and list markers. Used to detect link-only chunks that carry no semantic value.
pub fn prose_char_count(raw: &str) -> (r: usize)
    ensures
        r == prose_chars(raw@),
{
    let v = chars_of(raw);
    prose_char_count_chars(&v)
}

// ---------------------------------------------------------------------------
// Changelogs
// ---------------------------------------------------------------------------

/// Lines without leading whitespace and list markers.
pub open spec fn marker_lines(raw: Seq<char>) -> Seq<Seq<char>> {
    lines(raw).map_values(|l: Seq<char>| list_marker_rest(trim_start(l)))
}

/// How many of `ls` are non-empty.
pub open spec fn nonempty_count(ls: Seq<Seq<char>>) -> nat
    decreases ls.len(),
{
    if ls.len() == 0 {
        0
    } else {
        nonempty_count(ls.drop_last()) + if ls.last().len() > 0 {
            1nat
        } else {
            0nat
        }
    }
}

/// How many of `ls` are non-empty and start with a changelog date.
pub open spec fn date_count(ls: Seq<Seq<char>>) -> nat
    decreases ls.len(),
{
    if ls.len() == 0 {
        0
    } else {
        date_count(ls.drop_last()) + if ls.last().len() > 0 && regex_match(
            changelog_date_pattern(),
            ls.last(),
        ) == Some(true) {
            1nat
        } else {
            0nat
        }
    }
}

/// At least 80% of the non-empty lines (after stripping list markers) start with a date.
pub open spec fn is_changelog(raw: Seq<char>) -> bool {
    let ls = marker_lines(raw);
    nonempty_count(ls) > 0 && 5 * date_count(ls) >= 4 * nonempty_count(ls)
}

fn is_changelog_chars(raw: &Vec<char>) -> (r: bool)
    ensures
        r == is_changelog(raw@),
{
    let ls = split_lines(raw);
    let ghost lv = views(ls@);
    let ghost ml = marker_lines(raw@);
    let pattern = "^(\\[\\[)?\\d{4}-\\d{2}-\\d{2}(\\]\\])?";
    proof {
        assert(pattern@ == changelog_date_pattern());
    }
    let mut n: usize = 0;
    let mut d: usize = 0;
    let mut i: usize = 0;
    while i < ls.len()
        invariant
            i <= ls.len(),
            lv == views(ls@),
            lv == lines(raw@),
            ml == lv.map_values(|l: Seq<char>| list_marker_rest(trim_start(l))),
            pattern@ == changelog_date_pattern(),
            n == nonempty_count(ml.take(i as int)),
            d == date_count(ml.take(i as int)),
            d <= n <= i,
        decreases ls.len() - i,
    {
        proof {
            assert(ml.take(i + 1).drop_last() =~= ml.take(i as int));
            assert(ml.take(i + 1).last() == list_marker_rest(trim_start(ls@[i as int]@)));
        }
        let t = trim_start_exec(&ls[i]);
        let m = strip_list_marker_chars(&t);
        if m.len() > 0 {
            n = n + 1;
            let ms = string_of(&m);
            if regex_is_match(pattern, ms.as_str()) == Some(true) {
                d = d + 1;
            }
        }
        i = i + 1;
    }
    assert(ml.take(ls.len() as int) =~= ml);
    n > 0 && (d as u128) * 5 >= (n as u128) * 4
}

/// Detect changelog-like sections: at least 80% of non-empty lines (after stripping
/// list markers) start with a date pattern (bare or wikilinked YYYY-MM-DD).
pub fn is_changelog_section(raw: &str) -> (r: bool)
    ensures
        r == is_changelog(raw@),
{
    let v = chars_of(raw);
    is_changelog_chars(&v)
}

/// Whether a section is left out of chunking: too little prose, or a changelog.
pub open spec fn skip_section(raw: Seq<char>, config: ChunkConfig) -> bool {
    (config.min_content_chars > 0 && prose_chars(raw) < config.min_content_chars)
        || is_changelog(raw)
}

pub fn should_skip_section_chars(raw: &Vec<char>, config: &ChunkConfig) -> (r: bool)
    ensures
        r == skip_section(raw@, *config),
{
    if config.min_content_chars > 0 && prose_char_count_chars(raw) < config.min_content_chars {
        return true;
    }
    is_changelog_chars(raw)
}

/// Returns true if a section should be excluded from chunking.
/// Checks: (1) low prose content (link-only sections), (2) changelog patterns.
pub fn should_skip_section(raw: &str, config: &ChunkConfig) -> (r: bool)
    ensures
        r == skip_section(raw@, *config),
{
    let v = chars_of(raw);
    should_skip_section_chars(&v, config)
}

} // verus!

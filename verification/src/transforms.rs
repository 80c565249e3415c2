//! Edits of a note's content: append, prepend, overwrite the body, replace a section,
//! replace an exact text, insert after an anchor.
use crate::frontmatter::{frontmatter_split, strip_frontmatter_chars};
use crate::markdown::{
    slice_bytes, slice_bytes_exec, slice_bytes_wide,
};
use crate::sections::{
    find_section_by_heading, heading_matches, heading_needle, match_count, parse_sections,
    section_views, sections_of, Section, SectionLookupError, SectionView,
};
use crate::text::{
    byte_len, byte_len_wide, occurs_at, trim, chars_of, push_all, push_str, slice_of, str_views, string_of,
    trim_end, trim_end_exec, trim_start_char, trim_start_char_exec,
};
use vstd::prelude::*;

verus! {

/// Errors from section-based transforms.
#[derive(Debug, Clone)]
pub enum TransformError {
    HeadingNotFound { available: Vec<String> },
    HeadingAmbiguous { count: usize },
}

impl TransformError {
    /// "Heading not found. Available: a, b" or "Heading is ambiguous: N matches found".
    pub fn message(&self) -> (r: String)
        ensures
            r@ == (match *self {
                TransformError::HeadingNotFound { available } => crate::sections::lookup_message(
                    true,
                    str_views(available@),
                    0,
                ),
                TransformError::HeadingAmbiguous { count } => crate::sections::lookup_message(
                    false,
                    Seq::empty(),
                    count as nat,
                ),
            }),
    {
        match self {
            TransformError::HeadingNotFound { available } => crate::sections::lookup_message_exec(
                true,
                available,
                0,
            ),
            TransformError::HeadingAmbiguous { count } => crate::sections::lookup_message_exec(
                false,
                &Vec::new(),
                *count,
            ),
        }
    }
}

/// The transform error for a failed section lookup.
pub fn transform_error(err: SectionLookupError) -> (r: TransformError)
    ensures
        match err {
            SectionLookupError::NotFound { available } => r == TransformError::HeadingNotFound {
                available,
            },
            SectionLookupError::Ambiguous { count } => r == TransformError::HeadingAmbiguous {
                count,
            },
        },
{
    match err {
        SectionLookupError::NotFound { available } => TransformError::HeadingNotFound { available },
        SectionLookupError::Ambiguous { count } => TransformError::HeadingAmbiguous { count },
    }
}

/// `v` with a `\n` added unless it already ends with one.
pub open spec fn ensure_nl(v: Seq<char>) -> Seq<char> {
    if v.len() > 0 && v.last() == '\n' {
        v
    } else {
        v.push('\n')
    }
}

fn ensure_nl_exec(v: &mut Vec<char>)
    ensures
        final(v)@ == ensure_nl(old(v)@),
{
    if !(v.len() > 0 && v[v.len() - 1] == '\n') {
        v.push('\n');
    }
}

/// What a lookup of `heading` among the sections of `c` answers, stated as a transform
/// result: `Ok(section)` for exactly one match, else the error.
pub open spec fn lookup_ok(secs: Seq<SectionView>, heading: Seq<char>, s: SectionView) -> bool {
    let needle = heading_needle(heading);
    match_count(secs, needle) == 1 && exists|k: int|
        0 <= k < secs.len() && heading_matches(secs[k], needle) && s == secs[k]
}

/// The error a lookup of `heading` gives when it does not find exactly one section.
pub open spec fn lookup_err(secs: Seq<SectionView>, heading: Seq<char>, e: TransformError) -> bool {
    let needle = heading_needle(heading);
    match e {
        TransformError::HeadingNotFound { available } => match_count(secs, needle) == 0
            && str_views(available@) == secs.map_values(|s: SectionView| s.heading_text),
        TransformError::HeadingAmbiguous { count } => match_count(secs, needle) >= 2 && count
            == match_count(secs, needle),
    }
}

/// Looks the section up and turns a failure into a `TransformError`.
fn lookup<'a>(sections: &'a Vec<Section>, heading: &str) -> (r: Result<&'a Section, TransformError>)
    ensures
        match r {
            Ok(s) => lookup_ok(section_views(sections@), heading@, s@),
            Err(e) => lookup_err(section_views(sections@), heading@, e),
        },
{
    match find_section_by_heading(sections.as_slice(), heading) {
        Ok(s) => Ok(s),
        Err(e) => Err(transform_error(e)),
    }
}

// ---------------------------------------------------------------------------
// Append
// ---------------------------------------------------------------------------

/// Content appended at the end of a section: the section's body without trailing
/// whitespace, the new text on a line of its own, and a blank line before what follows.
pub open spec fn appended_in_section(c: Seq<char>, new_text: Seq<char>, s: SectionView) -> Seq<
    char,
> {
    let body = slice_bytes(c, s.body_start as int, s.body_end as int);
    let content_end = s.body_start + byte_len(trim_end(body));
    let head = ensure_nl(ensure_nl(slice_bytes(c, 0, content_end)) + new_text);
    let remainder = slice_bytes(c, s.body_end as int, byte_len(c) as int);
    (if remainder.len() > 0 {
        head.push('\n')
    } else {
        head
    }) + remainder
}

/// Appending at the end of the file keeps the whole content in front of the new text.
pub proof fn law_append_keeps_content(c: Seq<char>, new_text: Seq<char>)
    ensures
        ensure_nl(ensure_nl(c) + new_text).len() >= c.len(),
        ensure_nl(ensure_nl(c) + new_text).take(c.len() as int) == c,
{
    let a = ensure_nl(c);
    assert(a.take(c.len() as int) =~= c);
    let b = ensure_nl(a + new_text);
    assert(b.take(c.len() as int) =~= c);
}

/// Append content at the end of the file, or at the end of a specific section.
pub fn append_content(content: &str, new_text: &str, heading: Option<&str>) -> (r: Result<
    String,
    TransformError,
>)
    ensures
        match heading {
            None => r is Ok && r->Ok_0@ == ensure_nl(ensure_nl(content@) + new_text@),
            Some(h) => {
                let secs = sections_of(content@);
                match r {
                    Ok(out) => exists|s: SectionView|
                        lookup_ok(secs, h@, s) && out@ == appended_in_section(
                            content@,
                            new_text@,
                            s,
                        ),
                    Err(e) => lookup_err(secs, h@, e),
                }
            },
        },
{
    let c = chars_of(content);
    match heading {
        None => {
            let mut result = c;
            ensure_nl_exec(&mut result);
            push_str(&mut result, new_text);
            ensure_nl_exec(&mut result);
            Ok(string_of(&result))
        },
        Some(h) => {
            let sections = parse_sections(content);
            let section = match lookup(&sections, h) {
                Ok(s) => s,
                Err(e) => {
                    return Err(e);
                },
            };
            let start = section.body_range.start;
            let end = section.body_range.end;
            let body = slice_bytes_exec(&c, start, end);
            let trimmed = trim_end_exec(&body);
            let bl = byte_len_wide(&trimmed);
            let tn = trimmed.len();
            assert(bl <= 4 * tn);
            let content_end: u128 = start as u128 + bl;
            let mut result = slice_bytes_wide(&c, 0, content_end);
            ensure_nl_exec(&mut result);
            push_str(&mut result, new_text);
            ensure_nl_exec(&mut result);
            let total = byte_len_wide(&c);
            let remainder = slice_bytes_wide(&c, end as u128, total);
            if remainder.len() > 0 {
                result.push('\n');
            }
            push_all(&mut result, &remainder);
            Ok(string_of(&result))
        },
    }
}

// ---------------------------------------------------------------------------
// Prepend, overwrite, replace a section
// ---------------------------------------------------------------------------

/// The frontmatter block as written back: `---\n{fm}\n---\n`, or nothing when empty.
pub open spec fn fm_block(fm: Seq<char>) -> Seq<char> {
    if fm.len() > 0 {
        "---\n"@ + fm + "\n---\n"@
    } else {
        Seq::empty()
    }
}

/// Content prepended after the frontmatter: new text on its own line(s), then the body
/// without its leading newlines.
pub open spec fn prepended(c: Seq<char>, new_text: Seq<char>) -> Seq<char> {
    let (fm, body) = frontmatter_split(c);
    let head = ensure_nl(fm_block(fm) + new_text);
    let rest = trim_start_char(body, '\n');
    if rest.len() > 0 {
        ensure_nl(head + rest)
    } else {
        head
    }
}

proof fn lemma_fm_block_shape(fm: Seq<char>)
    requires
        fm.len() > 0,
    ensures
        fm_block(fm) == seq!['-', '-', '-', '\n'] + fm + seq!['\n', '-', '-', '-', '\n'],
{
    reveal_strlit("---\n");
    reveal_strlit("\n---\n");
    assert("---\n"@ =~= seq!['-', '-', '-', '\n']);
    assert("\n---\n"@ =~= seq!['\n', '-', '-', '-', '\n']);
}

/// A frontmatter written back as a block is read again as the same frontmatter, whatever
/// follows the block.
proof fn lemma_split_fm_block(fm: Seq<char>, tail: Seq<char>)
    requires
        fm.len() > 0,
        trim(fm) == fm,
        !crate::text::starts_with(fm, crate::frontmatter::dashes()),
        forall|k: int| !#[trigger] occurs_at(fm, crate::frontmatter::closing_dashes(), k),
    ensures
        frontmatter_split(fm_block(fm) + tail) == (fm, seq!['\n'] + tail),
{
    lemma_fm_block_shape(fm);
    let n = fm.len() as int;
    let s = fm_block(fm) + tail;
    let cl = crate::frontmatter::closing_dashes();
    assert(s.len() == 9 + n + tail.len());
    assert(s[3] == '\n');
    assert(s[4 + n] == '\n');
    assert(forall|q: int| 0 <= q < n ==> #[trigger] s[4 + q] == fm[q]);
    assert(s.take(3) =~= crate::frontmatter::dashes());
    assert(s.subrange(4 + n, 8 + n) =~= cl);
    assert forall|j: int| 3 <= j < 4 + n implies !#[trigger] occurs_at(s, cl, j) by {
        if occurs_at(s, cl, j) {
            let w = s.subrange(j, j + 4);
            assert(w == cl);
            if j == 3 {
                if n >= 3 {
                    assert(fm.take(3) =~= crate::frontmatter::dashes()) by {
                        assert(fm[0] == w[1]);
                        assert(fm[1] == w[2]);
                        assert(fm[2] == w[3]);
                    }
                } else {
                    assert(w[n + 1] == s[4 + n]);
                }
            } else if j + 4 <= 4 + n {
                assert(fm.subrange(j - 4, j) =~= w);
                assert(occurs_at(fm, cl, j - 4));
            } else {
                assert(w[4 + n - j] == s[4 + n]);
            }
        }
    }
    crate::frontmatter::lemma_find_first(s, cl, 3, 4 + n);
    assert(s.subrange(3, 4 + n) =~= seq!['\n'] + fm);
    crate::text::lemma_trim_skips_leading_ws('\n', fm);
    assert(s.skip(8 + n) =~= seq!['\n'] + tail);
}

proof fn lemma_ensure_nl_after(a: Seq<char>, x: Seq<char>)
    requires
        a.len() > 0,
        a.last() == '\n',
    ensures
        ensure_nl(a + x) == a + (if x.len() == 0 {
            x
        } else {
            ensure_nl(x)
        }),
{
    if x.len() == 0 {
        assert(a + x =~= a);
    } else {
        assert((a + x).last() == x.last());
        assert((a + x).push('\n') =~= a + x.push('\n'));
    }
}

/// Overwriting the body keeps the note's frontmatter (one that does not itself begin with
/// `---`).
pub proof fn law_overwrite_keeps_frontmatter(c: Seq<char>, new_text: Seq<char>)
    requires
        frontmatter_split(c).0.len() > 0,
        !crate::text::starts_with(frontmatter_split(c).0, crate::frontmatter::dashes()),
    ensures
        frontmatter_split(overwritten(c, new_text)).0 == frontmatter_split(c).0,
{
    let fm = frontmatter_split(c).0;
    crate::frontmatter::lemma_frontmatter_clean(c);
    lemma_fm_block_shape(fm);
    lemma_ensure_nl_after(fm_block(fm), new_text);
    let tail = if new_text.len() == 0 {
        new_text
    } else {
        ensure_nl(new_text)
    };
    lemma_split_fm_block(fm, tail);
}

/// Prepending (without a heading) keeps the note's frontmatter (one that does not itself
/// begin with `---`).
pub proof fn law_prepend_keeps_frontmatter(c: Seq<char>, new_text: Seq<char>)
    requires
        frontmatter_split(c).0.len() > 0,
        !crate::text::starts_with(frontmatter_split(c).0, crate::frontmatter::dashes()),
    ensures
        frontmatter_split(prepended(c, new_text)).0 == frontmatter_split(c).0,
{
    let (fm, body) = frontmatter_split(c);
    crate::frontmatter::lemma_frontmatter_clean(c);
    lemma_fm_block_shape(fm);
    let a = fm_block(fm);
    lemma_ensure_nl_after(a, new_text);
    let t1 = if new_text.len() == 0 {
        new_text
    } else {
        ensure_nl(new_text)
    };
    let rest = trim_start_char(body, '\n');
    if rest.len() > 0 {
        lemma_ensure_nl_after(a, t1 + rest);
        assert(a + t1 + rest =~= a + (t1 + rest));
        let t2 = ensure_nl(t1 + rest);
        lemma_split_fm_block(fm, t2);
    } else {
        lemma_split_fm_block(fm, t1);
    }
}

/// Content with new text inserted right after the section's heading.
pub open spec fn prepended_in_section(c: Seq<char>, new_text: Seq<char>, s: SectionView) -> Seq<
    char,
> {
    ensure_nl(ensure_nl(slice_bytes(c, 0, s.heading_end as int)) + new_text) + slice_bytes(
        c,
        s.heading_end as int,
        byte_len(c) as int,
    )
}

/// Content whose section body is replaced by new text: the heading stays, a blank line
/// separates the new text from what follows.
pub open spec fn replaced_section(c: Seq<char>, new_text: Seq<char>, s: SectionView) -> Seq<char> {
    let head = ensure_nl(ensure_nl(slice_bytes(c, 0, s.heading_end as int)) + new_text);
    let remainder = slice_bytes(c, s.body_end as int, byte_len(c) as int);
    (if remainder.len() > 0 {
        head.push('\n')
    } else {
        head
    }) + remainder
}

/// Replacing a section keeps the content up to the end of its heading, and everything after
/// its body, unchanged.
pub proof fn law_replace_section_keeps_heading_and_rest(
    c: Seq<char>,
    new_text: Seq<char>,
    s: SectionView,
)
    ensures
        ({
            let out = replaced_section(c, new_text, s);
            let head = slice_bytes(c, 0, s.heading_end as int);
            let rest = slice_bytes(c, s.body_end as int, byte_len(c) as int);
            &&& out.len() >= head.len() + rest.len()
            &&& out.take(head.len() as int) == head
            &&& out.skip(out.len() - rest.len()) == rest
        }),
{
    let head = slice_bytes(c, 0, s.heading_end as int);
    let rest = slice_bytes(c, s.body_end as int, byte_len(c) as int);
    let h1 = ensure_nl(head);
    let h2 = ensure_nl(h1 + new_text);
    assert(h1.take(head.len() as int) =~= head);
    assert(h2.take(head.len() as int) =~= head);
    let top = if rest.len() > 0 {
        h2.push('\n')
    } else {
        h2
    };
    let out = top + rest;
    assert(out == replaced_section(c, new_text, s));
    assert(top.take(head.len() as int) =~= head);
    assert(out.take(head.len() as int) =~= head);
    assert(out.skip(out.len() - rest.len()) =~= rest);
}

fn push_fm_block(out: &mut Vec<char>, fm: &Vec<char>)
    ensures
        final(out)@ == old(out)@ + fm_block(fm@),
{
    if fm.len() > 0 {
        push_str(out, "---\n");
        push_all(out, fm);
        push_str(out, "\n---\n");
    }
}

/// Prepend content after frontmatter (or at start), or right after a specific heading.
pub fn prepend_content(content: &str, new_text: &str, heading: Option<&str>) -> (r: Result<
    String,
    TransformError,
>)
    ensures
        match heading {
            None => r is Ok && r->Ok_0@ == prepended(content@, new_text@),
            Some(h) => {
                let secs = sections_of(content@);
                match r {
                    Ok(out) => exists|s: SectionView|
                        lookup_ok(secs, h@, s) && out@ == prepended_in_section(
                            content@,
                            new_text@,
                            s,
                        ),
                    Err(e) => lookup_err(secs, h@, e),
                }
            },
        },
{
    let c = chars_of(content);
    match heading {
        None => {
            let (fm, body) = strip_frontmatter_chars(&c);
            let mut result: Vec<char> = Vec::new();
            push_fm_block(&mut result, &fm);
            push_str(&mut result, new_text);
            ensure_nl_exec(&mut result);
            let body_trimmed = trim_start_char_exec(&body, '\n');
            if body_trimmed.len() > 0 {
                push_all(&mut result, &body_trimmed);
                ensure_nl_exec(&mut result);
            }
            Ok(string_of(&result))
        },
        Some(h) => {
            let sections = parse_sections(content);
            let section = match lookup(&sections, h) {
                Ok(s) => s,
                Err(e) => {
                    return Err(e);
                },
            };
            let insert_pos = section.heading_range.end;
            let mut result = slice_bytes_exec(&c, 0, insert_pos);
            ensure_nl_exec(&mut result);
            push_str(&mut result, new_text);
            ensure_nl_exec(&mut result);
            let total = byte_len_wide(&c);
            let rest = slice_bytes_wide(&c, insert_pos as u128, total);
            push_all(&mut result, &rest);
            Ok(string_of(&result))
        },
    }
}

/// The body replaced, frontmatter kept.
pub open spec fn overwritten(c: Seq<char>, new_text: Seq<char>) -> Seq<char> {
    ensure_nl(fm_block(frontmatter_split(c).0) + new_text)
}

/// Replace the entire body while preserving frontmatter.
pub fn overwrite_body(content: &str, new_text: &str) -> (r: String)
    ensures
        r@ == overwritten(content@, new_text@),
{
    let c = chars_of(content);
    let (fm, _body) = strip_frontmatter_chars(&c);
    let mut result: Vec<char> = Vec::new();
    push_fm_block(&mut result, &fm);
    push_str(&mut result, new_text);
    ensure_nl_exec(&mut result);
    string_of(&result)
}

/// Replace a section's body with new content.
///
/// The heading line itself is preserved; only the body is replaced.
pub fn replace_section(content: &str, heading: &str, new_text: &str) -> (r: Result<
    String,
    TransformError,
>)
    ensures
        ({
            let secs = sections_of(content@);
            match r {
                Ok(out) => exists|s: SectionView|
                    lookup_ok(secs, heading@, s) && out@ == replaced_section(
                        content@,
                        new_text@,
                        s,
                    ),
                Err(e) => lookup_err(secs, heading@, e),
            }
        }),
{
    let c = chars_of(content);
    let sections = parse_sections(content);
    let section = match lookup(&sections, heading) {
        Ok(s) => s,
        Err(e) => {
            return Err(e);
        },
    };
    let mut result = slice_bytes_exec(&c, 0, section.heading_range.end);
    ensure_nl_exec(&mut result);
    push_str(&mut result, new_text);
    ensure_nl_exec(&mut result);
    let total = byte_len_wide(&c);
    let remainder = slice_bytes_wide(&c, section.body_range.end as u128, total);
    if remainder.len() > 0 {
        result.push('\n');
    }
    push_all(&mut result, &remainder);
    Ok(string_of(&result))
}

// ---------------------------------------------------------------------------
// Exact-text edits
// ---------------------------------------------------------------------------

/// Position of a match in the content.
#[derive(Debug, Clone)]
pub struct MatchPosition {
    pub line: usize,
    pub column: usize,
    pub context: String,
}

/// Errors from `replace_text`.
#[derive(Debug, Clone)]
pub enum ReplaceError {
    NotFound,
    Ambiguous { count: usize, positions: Vec<MatchPosition> },
}

/// The line describing one match of an ambiguous replacement.
pub open spec fn position_line(p: MatchPositionView) -> Seq<char> {
    "  line "@ + crate::text::decimal(p.line) + ", col "@ + crate::text::decimal(p.column) + ": ..."@
        + p.context + "...\n"@
}

/// The lines of all matches, one after another.
pub open spec fn position_lines(ps: Seq<MatchPositionView>) -> Seq<char>
    decreases ps.len(),
{
    if ps.len() == 0 {
        Seq::empty()
    } else {
        position_lines(ps.drop_last()) + position_line(ps.last())
    }
}

impl ReplaceError {
    /// "Text not found", or the number of matches followed by a line per match with its line,
    /// column and context.
    pub fn message(&self) -> (r: String)
        ensures
            r@ == (match *self {
                ReplaceError::NotFound => "Text not found"@,
                ReplaceError::Ambiguous { count, positions } => "Ambiguous: "@ + crate::text::decimal(
                    count as nat,
                ) + " matches found:\n"@ + position_lines(
                    positions@.map_values(|p: MatchPosition| position_view(p)),
                ),
            }),
    {
        match self {
            ReplaceError::NotFound => string_of(&chars_of("Text not found")),
            ReplaceError::Ambiguous { count, positions } => {
                let ghost pv = positions@.map_values(|p: MatchPosition| position_view(p));
                let mut v: Vec<char> = Vec::new();
                push_str(&mut v, "Ambiguous: ");
                crate::text::push_decimal(&mut v, *count);
                push_str(&mut v, " matches found:\n");
                let ghost head = v@;
                let mut i: usize = 0;
                while i < positions.len()
                    invariant
                        i <= positions.len(),
                        pv == positions@.map_values(|p: MatchPosition| position_view(p)),
                        v@ == head + position_lines(pv.take(i as int)),
                    decreases positions.len() - i,
                {
                    let p = &positions[i];
                    push_str(&mut v, "  line ");
                    crate::text::push_decimal(&mut v, p.line);
                    push_str(&mut v, ", col ");
                    crate::text::push_decimal(&mut v, p.column);
                    push_str(&mut v, ": ...");
                    push_str(&mut v, p.context.as_str());
                    push_str(&mut v, "...\n");
                    assert(pv.take(i + 1).drop_last() =~= pv.take(i as int));
                    assert(pv.take(i + 1).last() == position_view(positions@[i as int]));
                    assert(v@ =~= head + position_lines(pv.take(i + 1)));
                    i = i + 1;
                }
                assert(pv.take(i as int) =~= pv);
                string_of(&v)
            },
        }
    }
}

/// Non-overlapping occurrences of a non-empty `p` in `s`, from index `i` on, left to right.
pub open spec fn matches_from(s: Seq<char>, p: Seq<char>, i: int) -> Seq<int>
    decreases s.len() + 1 - i,
{
    if p.len() == 0 || i < 0 || i + p.len() > s.len() {
        Seq::empty()
    } else if occurs_at(s, p, i) {
        seq![i] + matches_from(s, p, i + p.len())
    } else {
        matches_from(s, p, i + 1)
    }
}

pub proof fn lemma_matches_occur(s: Seq<char>, p: Seq<char>, i: int, k: int)
    requires
        0 <= k < matches_from(s, p, i).len(),
    ensures
        occurs_at(s, p, matches_from(s, p, i)[k]),
        matches_from(s, p, i)[k] >= i,
        p.len() > 0,
    decreases s.len() + 1 - i,
{
    if p.len() == 0 || i < 0 || i + p.len() > s.len() {
    } else if occurs_at(s, p, i) {
        if k > 0 {
            lemma_matches_occur(s, p, i + p.len(), k - 1);
        }
    } else {
        lemma_matches_occur(s, p, i + 1, k);
    }
}

/// Where `str::match_indices(p)` finds `p` (as character indices): every character
/// boundary for an empty `p`.
pub open spec fn match_positions(s: Seq<char>, p: Seq<char>) -> Seq<int> {
    if p.len() == 0 {
        Seq::new(s.len() + 1, |i: int| i)
    } else {
        matches_from(s, p, 0)
    }
}

/// Number of `\n` in `s`.
pub open spec fn newline_count(s: Seq<char>) -> nat
    decreases s.len(),
{
    if s.len() == 0 {
        0
    } else {
        newline_count(s.drop_last()) + if s.last() == '\n' {
            1nat
        } else {
            0nat
        }
    }
}

/// Index just after the last `\n` of `s` (0 when there is none).
pub open spec fn line_start(s: Seq<char>) -> nat
    decreases s.len(),
{
    if s.len() == 0 {
        0
    } else if s.last() == '\n' {
        s.len()
    } else {
        line_start(s.drop_last())
    }
}

/// Number of leading characters of `s` that fit in `b` bytes (`str::floor_char_boundary`).
pub open spec fn chars_within(s: Seq<char>, b: int) -> nat
    decreases s.len(),
{
    if s.len() == 0 || (crate::text::utf8_width(s[0]) as int) > b {
        0
    } else {
        1 + chars_within(s.drop_first(), b - crate::text::utf8_width(s[0]))
    }
}

/// `s` with each `\n` written as `\` `n`.
pub open spec fn escape_newlines(s: Seq<char>) -> Seq<char>
    decreases s.len(),
{
    if s.len() == 0 {
        Seq::empty()
    } else {
        escape_newlines(s.drop_last()) + if s.last() == '\n' {
            seq!['\\', 'n']
        } else {
            seq![s.last()]
        }
    }
}

pub struct MatchPositionView {
    pub line: nat,
    pub column: nat,
    pub context: Seq<char>,
}

/// Line, column and about 20 bytes of context on each side of a match at index `i` of a
/// pattern of `pat_bytes` bytes.
pub open spec fn position_of(s: Seq<char>, i: int, pat_bytes: int) -> MatchPositionView {
    let before = s.take(i);
    let bp = byte_len(before) as int;
    let cs = chars_within(s, if bp >= 20 { bp - 20 } else { 0 });
    let hi = bp + pat_bytes + 20;
    let ce = chars_within(s, if hi <= byte_len(s) { hi } else { byte_len(s) as int });
    MatchPositionView {
        line: newline_count(before) + 1,
        column: (i - line_start(before) + 1) as nat,
        context: escape_newlines(s.subrange(cs as int, ce as int)),
    }
}

pub open spec fn position_view(p: MatchPosition) -> MatchPositionView {
    MatchPositionView { line: p.line as nat, column: p.column as nat, context: p.context@ }
}

/// The error for a text found at several places: the count and a position per match.
pub open spec fn ambiguous_error(s: Seq<char>, p: Seq<char>, e: ReplaceError) -> bool {
    let ms = match_positions(s, p);
    match e {
        ReplaceError::Ambiguous { count, positions } => count == ms.len() && positions@.len()
            == ms.len() && forall|k: int|
            0 <= k < ms.len() ==> position_view(#[trigger] positions@[k]) == position_of(
                s,
                ms[k],
                byte_len(p) as int,
            ),
        ReplaceError::NotFound => false,
    }
}

pub proof fn lemma_chars_within_bound(s: Seq<char>, b: int)
    ensures
        chars_within(s, b) <= s.len(),
    decreases s.len(),
{
    if s.len() > 0 && (crate::text::utf8_width(s[0]) as int) <= b {
        lemma_chars_within_bound(s.drop_first(), b - crate::text::utf8_width(s[0]));
    }
}

pub proof fn lemma_chars_within_mono(s: Seq<char>, a: int, b: int)
    requires
        a <= b,
    ensures
        chars_within(s, a) <= chars_within(s, b),
    decreases s.len(),
{
    if s.len() > 0 && (crate::text::utf8_width(s[0]) as int) <= a {
        lemma_chars_within_mono(
            s.drop_first(),
            a - crate::text::utf8_width(s[0]),
            b - crate::text::utf8_width(s[0]),
        );
    }
}

pub fn chars_within_exec(s: &Vec<char>, b: u128) -> (r: usize)
    ensures
        r == chars_within(s@, b as int),
{
    let mut i: usize = 0;
    let mut acc: u128 = 0;
    assert(s@.skip(0) =~= s@);
    while i < s.len() && crate::text::char_width(s[i]) as u128 <= b - acc
        invariant
            i <= s.len(),
            acc <= b,
            chars_within(s@, b as int) == i + chars_within(s@.skip(i as int), b - acc),
        decreases s.len() - i,
    {
        let ghost rest = s@.skip(i as int);
        assert(rest[0] == s@[i as int]);
        assert(rest.drop_first() =~= s@.skip(i + 1));
        acc = acc + crate::text::char_width(s[i]) as u128;
        i = i + 1;
    }
    proof {
        if i < s.len() {
            let rest = s@.skip(i as int);
            assert(rest[0] == s@[i as int]);
        } else {
            assert(s@.skip(i as int).len() == 0);
        }
    }
    i
}

fn escape_newlines_exec(s: &Vec<char>) -> (r: Vec<char>)
    ensures
        r@ == escape_newlines(s@),
{
    let mut out: Vec<char> = Vec::new();
    let mut i: usize = 0;
    while i < s.len()
        invariant
            i <= s.len(),
            out@ == escape_newlines(s@.take(i as int)),
        decreases s.len() - i,
    {
        assert(s@.take(i + 1).drop_last() =~= s@.take(i as int));
        if s[i] == '\n' {
            out.push('\\');
            out.push('n');
        } else {
            out.push(s[i]);
        }
        i = i + 1;
    }
    assert(s@.take(s.len() as int) =~= s@);
    out
}

fn position_exec(s: &Vec<char>, i: usize, pat_bytes: u128) -> (r: MatchPosition)
    requires
        i <= s.len(),
        s.len() < usize::MAX,
        pat_bytes <= 4 * s@.len() + 4,
    ensures
        position_view(r) == position_of(s@, i as int, pat_bytes as int),
{
    let mut count: usize = 0;
    let mut ls: usize = 0;
    let mut bp: u128 = 0;
    let mut k: usize = 0;
    while k < i
        invariant
            k <= i <= s.len(),
            s.len() < usize::MAX,
            count == newline_count(s@.take(k as int)),
            ls == line_start(s@.take(k as int)),
            bp == byte_len(s@.take(k as int)),
            count <= k,
            ls <= k,
            bp <= 4 * k,
        decreases i - k,
    {
        assert(s@.take(k + 1).drop_last() =~= s@.take(k as int));
        if s[k] == '\n' {
            count = count + 1;
            ls = k + 1;
        }
        bp = bp + crate::text::char_width(s[k]) as u128;
        k = k + 1;
    }
    let total = byte_len_wide(s);
    let lo: u128 = if bp >= 20 {
        bp - 20
    } else {
        0
    };
    let hi: u128 = bp + pat_bytes + 20;
    let cs = chars_within_exec(s, lo);
    let ce = chars_within_exec(s, if hi <= total {
        hi
    } else {
        total
    });
    proof {
        crate::text::lemma_byte_len_take_mono(s@, i as int, s@.len() as int);
        assert(s@.take(s@.len() as int) =~= s@);
        lemma_chars_within_mono(s@, lo as int, if hi <= total {
            hi as int
        } else {
            total as int
        });
        lemma_chars_within_bound(s@, if hi <= total {
            hi as int
        } else {
            total as int
        });
    }
    let piece = slice_of(s, cs, ce);
    let context = escape_newlines_exec(&piece);
    MatchPosition { line: count + 1, column: i - ls + 1, context: string_of(&context) }
}

/// The positions of `p` in `s`, as `match_positions` states them.
fn find_matches(s: &Vec<char>, p: &Vec<char>) -> (r: Vec<usize>)
    ensures
        r@.map_values(|x: usize| x as int) == match_positions(s@, p@),
        forall|k: int| 0 <= k < r@.len() ==> #[trigger] r@[k] <= s@.len(),
{
    let mut out: Vec<usize> = Vec::new();
    if p.len() == 0 {
        let mut i: usize = 0;
        loop
            invariant_except_break
                out@.len() == i,
            invariant
                i <= s.len(),
                forall|k: int| 0 <= k < out@.len() ==> #[trigger] out@[k] == k,
                out@.len() <= i + 1,
            ensures
                out@.len() == s.len() + 1,
            decreases s.len() - i,
        {
            out.push(i);
            if i == s.len() {
                break;
            }
            i = i + 1;
        }
        assert(out@.map_values(|x: usize| x as int) =~= match_positions(s@, p@));
        return out;
    }
    let mut i: usize = 0;
    assert(out@.map_values(|x: usize| x as int) + matches_from(s@, p@, 0) =~= matches_from(
        s@,
        p@,
        0,
    ));
    while i < s.len() && p.len() <= s.len() - i
        invariant
            p@.len() > 0,
            i <= s.len(),
            matches_from(s@, p@, 0) == out@.map_values(|x: usize| x as int) + matches_from(
                s@,
                p@,
                i as int,
            ),
            forall|k: int| 0 <= k < out@.len() ==> #[trigger] out@[k] <= s@.len(),
        decreases s.len() - i,
    {
        let ghost prev = out@.map_values(|x: usize| x as int);
        if crate::text::occurs_at_exec(s, p, i) {
            out.push(i);
            assert(out@.map_values(|x: usize| x as int) =~= prev.push(i as int));
            assert(prev.push(i as int) + matches_from(s@, p@, i + p@.len()) =~= prev + (seq![
                i as int,
            ] + matches_from(s@, p@, i + p@.len())));
            i = i + p.len();
        } else {
            i = i + 1;
        }
    }
    assert(matches_from(s@, p@, i as int) =~= Seq::<int>::empty());
    assert(out@.map_values(|x: usize| x as int) + Seq::<int>::empty() =~= out@.map_values(
        |x: usize| x as int,
    ));
    out
}

fn positions_of(s: &Vec<char>, ms: &Vec<usize>, pat_bytes: u128) -> (r: Vec<MatchPosition>)
    requires
        s.len() < usize::MAX,
        pat_bytes <= 4 * s@.len() + 4,
        forall|k: int| 0 <= k < ms@.len() ==> #[trigger] ms@[k] <= s@.len(),
    ensures
        r@.len() == ms@.len(),
        forall|k: int|
            0 <= k < ms@.len() ==> position_view(#[trigger] r@[k]) == position_of(
                s@,
                ms@[k] as int,
                pat_bytes as int,
            ),
{
    let mut out: Vec<MatchPosition> = Vec::new();
    let mut k: usize = 0;
    while k < ms.len()
        invariant
            k <= ms.len(),
            s.len() < usize::MAX,
            pat_bytes <= 4 * s@.len() + 4,
            forall|j: int| 0 <= j < ms@.len() ==> #[trigger] ms@[j] <= s@.len(),
            out@.len() == k,
            forall|j: int|
                0 <= j < k ==> position_view(#[trigger] out@[j]) == position_of(
                    s@,
                    ms@[j] as int,
                    pat_bytes as int,
                ),
        decreases ms.len() - k,
    {
        let pos = position_exec(s, ms[k], pat_bytes);
        out.push(pos);
        k = k + 1;
    }
    out
}

/// The content with its one occurrence of `old` (at index `i`) replaced by `new`.
pub open spec fn replaced_at(s: Seq<char>, old: Seq<char>, new: Seq<char>, i: int) -> Seq<char> {
    s.take(i) + new + s.skip(i + old.len())
}

proof fn lemma_no_matches_from(s: Seq<char>, p: Seq<char>, k: int)
    requires
        p.len() > 0,
        k >= 0,
        forall|j: int| k <= j ==> !#[trigger] occurs_at(s, p, j),
    ensures
        matches_from(s, p, k) =~= Seq::<int>::empty(),
    decreases s.len() + 1 - k,
{
    if k + p.len() <= s.len() {
        assert(!occurs_at(s, p, k));
        lemma_no_matches_from(s, p, k + 1);
    }
}

proof fn lemma_single_match_from(s: Seq<char>, p: Seq<char>, k: int, i: int)
    requires
        p.len() > 0,
        0 <= k <= i,
        occurs_at(s, p, i),
        forall|j: int| k <= j && j != i ==> !#[trigger] occurs_at(s, p, j),
    ensures
        matches_from(s, p, k) =~= seq![i],
    decreases i - k,
{
    if k < i {
        assert(!occurs_at(s, p, k));
        lemma_single_match_from(s, p, k + 1, i);
    } else {
        lemma_no_matches_from(s, p, i + p.len());
    }
}

/// Replacing the one occurrence of `old` by `new`, and then `new` by `old` again, gives the
/// content back, where `new` occurs in the result only where it was put.
pub proof fn law_replace_round_trip(c: Seq<char>, old: Seq<char>, new: Seq<char>)
    requires
        old.len() > 0,
        new.len() > 0,
        match_positions(c, old).len() == 1,
        forall|j: int|
            #[trigger] occurs_at(replaced_at(c, old, new, match_positions(c, old)[0]), new, j) ==> j
                == match_positions(c, old)[0],
    ensures
        match_positions(replaced_at(c, old, new, match_positions(c, old)[0]), new).len() == 1,
        replaced_at(
            replaced_at(c, old, new, match_positions(c, old)[0]),
            new,
            old,
            match_positions(replaced_at(c, old, new, match_positions(c, old)[0]), new)[0],
        ) == c,
{
    let i = match_positions(c, old)[0];
    lemma_matches_occur(c, old, 0, 0);
    let r = replaced_at(c, old, new, i);
    assert(r.subrange(i, i + new.len()) =~= new);
    assert(occurs_at(r, new, i));
    lemma_single_match_from(r, new, 0, i);
    assert(match_positions(r, new) =~= seq![i]);
    let back = replaced_at(r, new, old, i);
    assert(r.take(i) =~= c.take(i));
    assert(r.skip(i + new.len()) =~= c.skip(i + old.len()));
    assert(c.subrange(i, i + old.len()) == old);
    assert(back =~= c);
}

/// Replace exact text. Errors on 0 or 2+ matches.
pub fn replace_text(content: &str, old: &str, new: &str) -> (r: Result<String, ReplaceError>)
    requires
        content@.len() < usize::MAX,
    ensures
        ({
            let ms = match_positions(content@, old@);
            match r {
                Ok(out) => ms.len() == 1 && out@ == replaced_at(content@, old@, new@, ms[0]),
                Err(ReplaceError::NotFound) => ms.len() == 0,
                Err(e) => ms.len() >= 2 && ambiguous_error(content@, old@, e),
            }
        }),
{
    let c = chars_of(content);
    let o = chars_of(old);
    let ms = find_matches(&c, &o);
    let ghost msv = ms@.map_values(|x: usize| x as int);
    assert(msv.len() == ms@.len());
    if ms.len() == 0 {
        return Err(ReplaceError::NotFound);
    }
    if ms.len() == 1 {
        let i = ms[0];
        assert(msv[0] == i as int);
        let mut out = slice_of(&c, 0, i);
        push_str(&mut out, new);
        let from = if o.len() <= c.len() - i {
            i + o.len()
        } else {
            c.len()
        };
        proof {
            if o@.len() > 0 {
                lemma_matches_occur(c@, o@, 0, 0);
            }
        }
        let rest = slice_of(&c, from, c.len());
        assert(rest@ =~= c@.skip(i + o@.len()));
        assert(out@ =~= c@.take(i as int) + new@);
        push_all(&mut out, &rest);
        return Ok(string_of(&out));
    }
    let pb = byte_len_wide(&o);
    let ol = o.len();
    assert(pb <= 4 * ol);
    proof {
        if o@.len() > 0 {
            lemma_matches_occur(c@, o@, 0, 0);
        }
    }
    let positions = positions_of(&c, &ms, pb);
    Err(ReplaceError::Ambiguous { count: ms.len(), positions })
}

pub open spec fn ends_nl(v: Seq<char>) -> bool {
    v.len() > 0 && v.last() == '\n'
}

pub open spec fn starts_nl(v: Seq<char>) -> bool {
    v.len() > 0 && v[0] == '\n'
}

/// The content with `new` inserted right after the anchor found at index `i`, each on
/// a line of its own.
pub open spec fn inserted_after(s: Seq<char>, anchor: Seq<char>, new: Seq<char>, i: int) -> Seq<
    char,
> {
    let pos = i + anchor.len();
    let r1 = s.take(pos);
    let r2 = if !ends_nl(r1) && !starts_nl(new) {
        r1.push('\n')
    } else {
        r1
    };
    let r3 = r2 + new;
    let rest = s.skip(pos);
    let r4 = if !ends_nl(r3) && !starts_nl(rest) {
        r3.push('\n')
    } else {
        r3
    };
    r4 + rest
}

/// Insert content immediately after an exact text anchor. Errors on 0 or 2+ matches.
pub fn insert_after(content: &str, anchor: &str, new_text: &str) -> (r: Result<
    String,
    ReplaceError,
>)
    requires
        content@.len() < usize::MAX,
    ensures
        ({
            let ms = match_positions(content@, anchor@);
            match r {
                Ok(out) => ms.len() == 1 && out@ == inserted_after(
                    content@,
                    anchor@,
                    new_text@,
                    ms[0],
                ),
                Err(ReplaceError::NotFound) => ms.len() == 0,
                Err(e) => ms.len() >= 2 && ambiguous_error(content@, anchor@, e),
            }
        }),
{
    let c = chars_of(content);
    let a = chars_of(anchor);
    let nt = chars_of(new_text);
    let ms = find_matches(&c, &a);
    let ghost msv = ms@.map_values(|x: usize| x as int);
    assert(msv.len() == ms@.len());
    if ms.len() == 0 {
        return Err(ReplaceError::NotFound);
    }
    if ms.len() == 1 {
        let i = ms[0];
        assert(msv[0] == i as int);
        proof {
            if a@.len() > 0 {
                lemma_matches_occur(c@, a@, 0, 0);
            }
        }
        let pos = if a.len() <= c.len() - i {
            i + a.len()
        } else {
            c.len()
        };
        let mut result = slice_of(&c, 0, pos);
        if !(result.len() > 0 && result[result.len() - 1] == '\n') && !(nt.len() > 0 && nt[0]
            == '\n') {
            result.push('\n');
        }
        push_all(&mut result, &nt);
        let rest = slice_of(&c, pos, c.len());
        if !(result.len() > 0 && result[result.len() - 1] == '\n') && !(rest.len() > 0 && rest[0]
            == '\n') {
            result.push('\n');
        }
        push_all(&mut result, &rest);
        return Ok(string_of(&result));
    }
    let pb = byte_len_wide(&a);
    let al = a.len();
    assert(pb <= 4 * al);
    proof {
        if a@.len() > 0 {
            lemma_matches_occur(c@, a@, 0, 0);
        }
    }
    let positions = positions_of(&c, &ms, pb);
    Err(ReplaceError::Ambiguous { count: ms.len(), positions })
}

} // verus!

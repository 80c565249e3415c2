//! Sections of a markdown document: each heading with the byte ranges of the heading
//! and of its body.
use crate::markdown::{event_views, markdown_events, parse_markdown, MdEventView, MdKind, MdKindView};
use crate::text::{
    chars_of, copy_chars, eq_chars, push_all, trim, trim_exec, trim_start_char,
    trim_start_char_exec,
};
use std::ops::Range;
use vstd::prelude::*;

verus! {

/// A section of a markdown document, defined by its heading.
#[derive(Debug)]
pub struct Section {
    /// Heading level (1–6).
    pub level: u8,
    /// The text content of the heading (without `#` markers).
    pub heading_text: String,
    /// Byte range of the full heading line(s) in the source markdown.
    pub heading_range: Range<usize>,
    /// Byte range of the body (content between this heading and the next same-or-higher-level heading, or EOF).
    pub body_range: Range<usize>,
}

impl Clone for Section {
    fn clone(&self) -> (r: Self)
        ensures
            r@ == self@,
    {
        Section {
            level: self.level,
            heading_text: self.heading_text.clone(),
            heading_range: self.heading_range.start..self.heading_range.end,
            body_range: self.body_range.start..self.body_range.end,
        }
    }
}

/// A heading as the event scan finds it.
pub struct HeadingView {
    pub level: u8,
    pub text: Seq<char>,
    pub start: usize,
    pub end: usize,
}

pub struct SectionView {
    pub level: u8,
    pub heading_text: Seq<char>,
    pub heading_start: usize,
    pub heading_end: usize,
    pub body_start: usize,
    pub body_end: usize,
}

impl View for Section {
    type V = SectionView;

    open spec fn view(&self) -> SectionView {
        SectionView {
            level: self.level,
            heading_text: self.heading_text@,
            heading_start: self.heading_range.start,
            heading_end: self.heading_range.end,
            body_start: self.body_range.start,
            body_end: self.body_range.end,
        }
    }
}

pub open spec fn section_views(v: Seq<Section>) -> Seq<SectionView> {
    v.map_values(|s: Section| s@)
}

/// State of the heading scan: inside a heading (with its text, start and level so far),
/// inside a code block.
pub struct ScanState {
    pub in_heading: bool,
    pub text: Seq<char>,
    pub start: usize,
    pub level: u8,
    pub in_code: bool,
}

pub open spec fn scan_start() -> ScanState {
    ScanState { in_heading: false, text: Seq::empty(), start: 0, level: 0, in_code: false }
}

/// The headings found in `evs` from state `st`: a heading opens at its start event
/// (outside code blocks), gathers the text and inline code inside it, and closes at its
/// end event (outside code blocks).
pub open spec fn scan_headings(evs: Seq<MdEventView>, st: ScanState) -> Seq<HeadingView>
    decreases evs.len(),
{
    if evs.len() == 0 {
        Seq::empty()
    } else {
        let e = evs[0];
        let rest = evs.drop_first();
        match e.kind {
            MdKindView::CodeBlockStart => scan_headings(rest, ScanState { in_code: true, ..st }),
            MdKindView::CodeBlockEnd => scan_headings(rest, ScanState { in_code: false, ..st }),
            MdKindView::HeadingStart(l) => if !st.in_code {
                scan_headings(
                    rest,
                    ScanState { in_heading: true, text: Seq::empty(), start: e.start, level: l, ..st },
                )
            } else {
                scan_headings(rest, st)
            },
            MdKindView::HeadingEnd => if !st.in_code {
                seq![HeadingView { level: st.level, text: st.text, start: st.start, end: e.end }]
                    + scan_headings(rest, ScanState { in_heading: false, ..st })
            } else {
                scan_headings(rest, st)
            },
            MdKindView::Text(t) => if st.in_heading {
                scan_headings(rest, ScanState { text: st.text + t, ..st })
            } else {
                scan_headings(rest, st)
            },
            MdKindView::Code(t) => if st.in_heading {
                scan_headings(rest, ScanState { text: st.text + t, ..st })
            } else {
                scan_headings(rest, st)
            },
            _ => scan_headings(rest, st),
        }
    }
}

/// Where the body of heading `i` ends: at the start of the next heading of the same or a
/// higher level (a smaller or equal number), or at the end of the document.
pub open spec fn body_end_from(hs: Seq<HeadingView>, i: int, j: int, doc_len: usize) -> usize
    decreases hs.len() - j,
{
    if j < 0 || j >= hs.len() {
        doc_len
    } else if hs[j].level <= hs[i].level {
        hs[j].start
    } else {
        body_end_from(hs, i, j + 1, doc_len)
    }
}

pub open spec fn section_of(hs: Seq<HeadingView>, i: int, doc_len: usize) -> SectionView {
    SectionView {
        level: hs[i].level,
        heading_text: hs[i].text,
        heading_start: hs[i].start,
        heading_end: hs[i].end,
        body_start: hs[i].end,
        body_end: body_end_from(hs, i, i + 1, doc_len),
    }
}

proof fn lemma_body_end_at(hs: Seq<HeadingView>, i: int, j0: int, j: int, doc_len: usize)
    requires
        0 <= i < hs.len(),
        0 <= j0 <= j < hs.len(),
        hs[j].level <= hs[i].level,
        forall|k: int| j0 <= k < j ==> #[trigger] hs[k].level > hs[i].level,
    ensures
        body_end_from(hs, i, j0, doc_len) == hs[j].start,
    decreases j - j0,
{
    if j0 < j {
        lemma_body_end_at(hs, i, j0 + 1, j, doc_len);
    }
}

proof fn lemma_body_end_none(hs: Seq<HeadingView>, i: int, j0: int, doc_len: usize)
    requires
        0 <= i < hs.len(),
        0 <= j0,
        forall|k: int| j0 <= k < hs.len() ==> #[trigger] hs[k].level > hs[i].level,
    ensures
        body_end_from(hs, i, j0, doc_len) == doc_len,
    decreases hs.len() - j0,
{
    if j0 < hs.len() {
        lemma_body_end_none(hs, i, j0 + 1, doc_len);
    }
}

/// A section's body starts where its heading ends and runs to the start of the first later
/// heading of the same or a higher level (a smaller or equal number), or to the end of the
/// document where no such heading follows: deeper headings stay inside it, and none of the same
/// or a higher level lies between.
pub proof fn law_body_runs_to_next_heading_not_deeper(md: Seq<char>)
    ensures
        forall|i: int| 0 <= i < sections_of(md).len() ==> (#[trigger] sections_of(md)[i]).body_start
            == sections_of(md)[i].heading_end,
        forall|i: int, j: int|
            0 <= i < j < sections_of(md).len() && sections_of(md)[j].level <= sections_of(md)[i].level
                && (forall|k: int| i < k < j ==> #[trigger] sections_of(md)[k].level > sections_of(
                md,
            )[i].level) ==> (#[trigger] sections_of(md)[i]).body_end == #[trigger] sections_of(
                md,
            )[j].heading_start,
        forall|i: int|
            0 <= i < sections_of(md).len() && (forall|k: int|
                i < k < sections_of(md).len() ==> #[trigger] sections_of(md)[k].level > sections_of(
                    md,
                )[i].level) ==> (#[trigger] sections_of(md)[i]).body_end == utf8_len(md),
{
    let hs = scan_headings(markdown_events(md), scan_start());
    let secs = sections_of(md);
    let n = utf8_len(md);
    assert forall|i: int, j: int|
        0 <= i < j < secs.len() && secs[j].level <= secs[i].level && (forall|k: int|
            i < k < j ==> #[trigger] secs[k].level > secs[i].level) implies (#[trigger] secs[i]).body_end
        == #[trigger] secs[j].heading_start by {
        assert forall|k: int| i + 1 <= k < j implies #[trigger] hs[k].level > hs[i].level by {
            assert(secs[k].level == hs[k].level);
        }
        lemma_body_end_at(hs, i, i + 1, j, n);
    }
    assert forall|i: int|
        0 <= i < secs.len() && (forall|k: int|
            i < k < secs.len() ==> #[trigger] secs[k].level > secs[i].level) implies (#[trigger] secs[i]).body_end
        == n by {
        assert forall|k: int| i + 1 <= k < hs.len() implies #[trigger] hs[k].level > hs[i].level by {
            assert(secs[k].level == hs[k].level);
        }
        lemma_body_end_none(hs, i, i + 1, n);
    }
}

/// The byte length of a text in UTF-8 (what `str::len` returns).
pub open spec fn utf8_len(s: Seq<char>) -> usize {
    vstd::utf8::encode_utf8(s).len() as usize
}

/// The sections of a document whose text is `md`.
pub open spec fn sections_of(md: Seq<char>) -> Seq<SectionView> {
    let hs = scan_headings(markdown_events(md), scan_start());
    Seq::new(hs.len(), |i: int| section_of(hs, i, utf8_len(md)))
}

/// Parse all sections from a markdown document.
///
/// Returns sections with byte ranges for both heading and body.
/// Headings inside fenced code blocks are ignored.
pub fn parse_sections(markdown: &str) -> (r: Vec<Section>)
    ensures
        section_views(r@) == sections_of(markdown@),
{
    let evs = parse_markdown(markdown);
    let ghost ev = event_views(evs@);
    let ghost all = scan_headings(ev, scan_start());
    let mut in_heading = false;
    let mut heading_text: Vec<char> = Vec::new();
    let mut heading_start: usize = 0;
    let mut heading_level: u8 = 0;
    let mut in_code_block = false;
    let mut found: Vec<(u8, Vec<char>, usize, usize)> = Vec::new();
    let mut i: usize = 0;
    assert(ev.skip(0) =~= ev);
    while i < evs.len()
        invariant
            i <= evs.len(),
            ev == event_views(evs@),
            all == scan_headings(ev, scan_start()),
            all == found@.map_values(
                |h: (u8, Vec<char>, usize, usize)|
                    HeadingView { level: h.0, text: h.1@, start: h.2, end: h.3 },
            ) + scan_headings(
                ev.skip(i as int),
                ScanState {
                    in_heading,
                    text: heading_text@,
                    start: heading_start,
                    level: heading_level,
                    in_code: in_code_block,
                },
            ),
        decreases evs.len() - i,
    {
        let ghost rest = ev.skip(i as int);
        let ghost prev = found@.map_values(
            |h: (u8, Vec<char>, usize, usize)|
                HeadingView { level: h.0, text: h.1@, start: h.2, end: h.3 },
        );
        assert(rest[0] == evs@[i as int]@);
        assert(rest.drop_first() =~= ev.skip(i + 1));
        let e = &evs[i];
        match &e.kind {
            MdKind::CodeBlockStart => {
                in_code_block = true;
            },
            MdKind::CodeBlockEnd => {
                in_code_block = false;
            },
            MdKind::HeadingStart(l) => {
                if !in_code_block {
                    in_heading = true;
                    heading_text = Vec::new();
                    heading_start = e.start;
                    heading_level = *l;
                }
            },
            MdKind::HeadingEnd => {
                if !in_code_block {
                    in_heading = false;
                    found.push((heading_level, copy_chars(&heading_text), heading_start, e.end));
                    assert(found@.map_values(
                        |h: (u8, Vec<char>, usize, usize)|
                            HeadingView { level: h.0, text: h.1@, start: h.2, end: h.3 },
                    ) =~= prev.push(
                        HeadingView {
                            level: heading_level,
                            text: heading_text@,
                            start: heading_start,
                            end: e.end,
                        },
                    ));
                }
            },
            MdKind::Text(t) => {
                if in_heading {
                    let tv = chars_of(t.as_str());
                    push_all(&mut heading_text, &tv);
                }
            },
            MdKind::Code(t) => {
                if in_heading {
                    let tv = chars_of(t.as_str());
                    push_all(&mut heading_text, &tv);
                }
            },
            _ => {},
        }
        i = i + 1;
    }
    assert(ev.skip(i as int) =~= Seq::<MdEventView>::empty());
    let doc_len = markdown.len();
    let ghost hs = all;
    assert(hs =~= found@.map_values(
        |h: (u8, Vec<char>, usize, usize)|
            HeadingView { level: h.0, text: h.1@, start: h.2, end: h.3 },
    ));
    compute_sections(&found, doc_len)
}

/// Builds each section, with its body running from after its heading to the start of the
/// next same-or-higher-level heading (or EOF).
fn compute_sections(found: &Vec<(u8, Vec<char>, usize, usize)>, doc_len: usize) -> (r: Vec<
    Section,
>)
    ensures
        ({
            let hs = found@.map_values(
                |h: (u8, Vec<char>, usize, usize)|
                    HeadingView { level: h.0, text: h.1@, start: h.2, end: h.3 },
            );
            section_views(r@) == Seq::new(hs.len(), |i: int| section_of(hs, i, doc_len))
        }),
{
    let ghost hs = found@.map_values(
        |h: (u8, Vec<char>, usize, usize)|
            HeadingView { level: h.0, text: h.1@, start: h.2, end: h.3 },
    );
    let ghost want = Seq::new(hs.len(), |i: int| section_of(hs, i, doc_len));
    let mut out: Vec<Section> = Vec::new();
    let mut i: usize = 0;
    while i < found.len()
        invariant
            i <= found.len(),
            hs.len() == found.len(),
            hs == found@.map_values(
                |h: (u8, Vec<char>, usize, usize)|
                    HeadingView { level: h.0, text: h.1@, start: h.2, end: h.3 },
            ),
            want == Seq::new(hs.len(), |i: int| section_of(hs, i, doc_len)),
            section_views(out@) == want.take(i as int),
        decreases found.len() - i,
    {
        let level = found[i].0;
        let mut j = i + 1;
        let mut end = doc_len;
        while j < found.len()
            invariant_except_break
                end == doc_len,
                body_end_from(hs, i as int, i + 1, doc_len) == body_end_from(
                    hs,
                    i as int,
                    j as int,
                    doc_len,
                ),
            invariant
                i < j <= found.len(),
                i < found.len(),
                hs.len() == found.len(),
                hs == found@.map_values(
                    |h: (u8, Vec<char>, usize, usize)|
                        HeadingView { level: h.0, text: h.1@, start: h.2, end: h.3 },
                ),
                level == hs[i as int].level,
            ensures
                end == body_end_from(hs, i as int, i + 1, doc_len),
            decreases found.len() - j,
        {
            if found[j].0 <= level {
                assert(hs[j as int].level == found@[j as int].0);
                end = found[j].2;
                break;
            }
            j = j + 1;
        }
        let sec = Section {
            level,
            heading_text: crate::text::string_of(&found[i].1),
            heading_range: found[i].2..found[i].3,
            body_range: found[i].3..end,
        };
        let ghost prev = section_views(out@);
        assert(sec@ == want[i as int]);
        out.push(sec);
        assert(section_views(out@) =~= prev.push(want[i as int]));
        assert(want.take(i + 1) =~= want.take(i as int).push(want[i as int]));
        i = i + 1;
    }
    assert(want.take(found.len() as int) =~= want);
    out
}

// ---------------------------------------------------------------------------
// Looking a section up
// ---------------------------------------------------------------------------

/// Errors from `find_section_by_heading`.
#[derive(Debug, Clone)]
pub enum SectionLookupError {
    NotFound { available: Vec<String> },
    Ambiguous { count: usize },
}

/// The message of a failed heading lookup.
pub open spec fn lookup_message(not_found: bool, available: Seq<Seq<char>>, count: nat) -> Seq<char> {
    if not_found {
        "Heading not found. Available: "@ + crate::text::join(available, ", "@)
    } else {
        "Heading is ambiguous: "@ + crate::text::decimal(count) + " matches found"@
    }
}

/// Writes the message of a failed heading lookup.
pub fn lookup_message_exec(not_found: bool, available: &Vec<String>, count: usize) -> (r: String)
    ensures
        r@ == lookup_message(not_found, crate::text::str_views(available@), count as nat),
{
    let mut v: Vec<char> = Vec::new();
    if not_found {
        crate::text::push_str(&mut v, "Heading not found. Available: ");
        let names = crate::text::chars_of_all(available.as_slice());
        let sep = chars_of(", ");
        let joined = crate::text::join_exec(&names, &sep);
        push_all(&mut v, &joined);
    } else {
        crate::text::push_str(&mut v, "Heading is ambiguous: ");
        crate::text::push_decimal(&mut v, count);
        crate::text::push_str(&mut v, " matches found");
    }
    crate::text::string_of(&v)
}

impl SectionLookupError {
    /// "Heading not found. Available: a, b" or "Heading is ambiguous: N matches found".
    pub fn message(&self) -> (r: String)
        ensures
            r@ == (match *self {
                SectionLookupError::NotFound { available } => lookup_message(
                    true,
                    crate::text::str_views(available@),
                    0,
                ),
                SectionLookupError::Ambiguous { count } => lookup_message(
                    false,
                    Seq::empty(),
                    count as nat,
                ),
            }),
    {
        match self {
            SectionLookupError::NotFound { available } => lookup_message_exec(true, available, 0),
            SectionLookupError::Ambiguous { count } => lookup_message_exec(false, &Vec::new(), *count),
        }
    }
}

/// The heading text a lookup asks for: without leading `#` markers and whitespace.
pub open spec fn heading_needle(heading: Seq<char>) -> Seq<char> {
    trim(trim_start_char(heading, '#'))
}

/// A heading asked for with its `#` markers and a space is the heading asked for without
/// them: "## Tasks" and "Tasks" look up the same sections.
pub proof fn law_heading_lookup_ignores_markers(hashes: Seq<char>, text: Seq<char>)
    requires
        forall|i: int| 0 <= i < hashes.len() ==> #[trigger] hashes[i] == '#',
        crate::text::trim(text) == text,
        text.len() == 0 || text[0] != '#',
    ensures
        heading_needle(hashes + seq![' '] + text) == heading_needle(text),
{
    let h = hashes + seq![' '] + text;
    let k = hashes.len() as int;
    assert(h[k] == ' ');
    assert forall|j: int| 0 <= j < k implies #[trigger] h[j] == '#' by {
        assert(h[j] == hashes[j]);
    }
    crate::text::lemma_lead_eq(h, '#', k);
    assert(crate::text::trim_start_char(h, '#') =~= seq![' '] + text);
    crate::text::lemma_trim_skips_leading_ws(' ', text);
    crate::text::lemma_lead_eq(text, '#', 0);
    assert(crate::text::trim_start_char(text, '#') =~= text);
}

pub open spec fn heading_matches(s: SectionView, needle: Seq<char>) -> bool {
    trim(s.heading_text) == needle
}

/// How many of `secs` have the heading `needle`.
pub open spec fn match_count(secs: Seq<SectionView>, needle: Seq<char>) -> nat
    decreases secs.len(),
{
    if secs.len() == 0 {
        0
    } else {
        match_count(secs.drop_last(), needle) + if heading_matches(secs.last(), needle) {
            1nat
        } else {
            0nat
        }
    }
}

pub proof fn lemma_match_count_bound(secs: Seq<SectionView>, needle: Seq<char>)
    ensures
        match_count(secs, needle) <= secs.len(),
    decreases secs.len(),
{
    if secs.len() > 0 {
        lemma_match_count_bound(secs.drop_last(), needle);
    }
}

/// Find a section by its heading text.
///
/// Accepts headings with or without `#` prefix (e.g. both `"Tasks"` and `"## Tasks"` match).
/// Returns an error if no match or multiple matches are found.
pub fn find_section_by_heading<'a>(sections: &'a [Section], heading: &str) -> (r: Result<
    &'a Section,
    SectionLookupError,
>)
    ensures
        ({
            let secs = section_views(sections@);
            let needle = heading_needle(heading@);
            match r {
                Ok(s) => match_count(secs, needle) == 1 && exists|k: int|
                    0 <= k < secs.len() && heading_matches(secs[k], needle) && s@ == secs[k],
                Err(SectionLookupError::NotFound { available }) => match_count(secs, needle)
                    == 0 && crate::text::str_views(available@) == secs.map_values(
                    |s: SectionView| s.heading_text,
                ),
                Err(SectionLookupError::Ambiguous { count }) => match_count(secs, needle) >= 2
                    && count == match_count(secs, needle),
            }
        }),
{
    let h = chars_of(heading);
    let a = trim_start_char_exec(&h, '#');
    let needle = trim_exec(&a);
    let ghost secs = section_views(sections@);
    let mut count: usize = 0;
    let mut first: usize = 0;
    let mut i: usize = 0;
    while i < sections.len()
        invariant
            i <= sections.len(),
            secs == section_views(sections@),
            count == match_count(secs.take(i as int), needle@),
            count <= i,
            count > 0 ==> first < i && heading_matches(secs[first as int], needle@),
        decreases sections.len() - i,
    {
        assert(secs.take(i + 1).drop_last() =~= secs.take(i as int));
        assert(secs.take(i + 1).last() == sections@[i as int]@);
        let t = chars_of(sections[i].heading_text.as_str());
        let tt = trim_exec(&t);
        if eq_chars(&tt, &needle) {
            if count == 0 {
                first = i;
            }
            count = count + 1;
        }
        i = i + 1;
    }
    assert(secs.take(sections.len() as int) =~= secs);
    if count == 0 {
        let mut available: Vec<String> = Vec::new();
        let mut k: usize = 0;
        while k < sections.len()
            invariant
                k <= sections.len(),
                secs == section_views(sections@),
                crate::text::str_views(available@) == secs.map_values(
                    |s: SectionView| s.heading_text,
                ).take(k as int),
            decreases sections.len() - k,
        {
            let ghost prev = crate::text::str_views(available@);
            let name = crate::text::string_of(&chars_of(sections[k].heading_text.as_str()));
            available.push(name);
            assert(crate::text::str_views(available@) =~= prev.push(secs[k as int].heading_text));
            assert(secs.map_values(|s: SectionView| s.heading_text).take(k + 1) =~= secs.map_values(
                |s: SectionView| s.heading_text,
            ).take(k as int).push(secs[k as int].heading_text));
            k = k + 1;
        }
        assert(secs.map_values(|s: SectionView| s.heading_text).take(sections.len() as int)
            =~= secs.map_values(|s: SectionView| s.heading_text));
        Err(SectionLookupError::NotFound { available })
    } else if count == 1 {
        Ok(&sections[first])
    } else {
        Err(SectionLookupError::Ambiguous { count })
    }
}

} // verus!

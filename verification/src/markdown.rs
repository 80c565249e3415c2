//! The markdown events that `pulldown_cmark` reports, reduced to what the parser reads,
//! and the plain text they carry.
use crate::text::{char_width, push_all};
use pulldown_cmark::Event::{Code, End, HardBreak, SoftBreak, Start, Text};
use pulldown_cmark::{Parser, Tag, TagEnd};
use vstd::prelude::*;

verus! {

/// What an event is, as far as sections and chunk text are concerned.
pub enum MdKind {
    CodeBlockStart,
    CodeBlockEnd,
    HeadingStart(u8),
    HeadingEnd,
    Text(String),
    /// Inline code.
    Code(String),
    /// A line break in the source.
    SoftBreak,
    /// A forced line break.
    HardBreak,
    ParagraphEnd,
    ItemEnd,
    /// Any other event.
    Other,
}

pub enum MdKindView {
    CodeBlockStart,
    CodeBlockEnd,
    HeadingStart(u8),
    HeadingEnd,
    Text(Seq<char>),
    Code(Seq<char>),
    SoftBreak,
    HardBreak,
    ParagraphEnd,
    ItemEnd,
    Other,
}

/// One event with the byte range of the source it covers.
pub struct MdEvent {
    pub kind: MdKind,
    pub start: usize,
    pub end: usize,
}

pub struct MdEventView {
    pub kind: MdKindView,
    pub start: usize,
    pub end: usize,
}

impl View for MdKind {
    type V = MdKindView;

    open spec fn view(&self) -> MdKindView {
        match self {
            MdKind::CodeBlockStart => MdKindView::CodeBlockStart,
            MdKind::CodeBlockEnd => MdKindView::CodeBlockEnd,
            MdKind::HeadingStart(l) => MdKindView::HeadingStart(*l),
            MdKind::HeadingEnd => MdKindView::HeadingEnd,
            MdKind::Text(t) => MdKindView::Text(t@),
            MdKind::Code(t) => MdKindView::Code(t@),
            MdKind::SoftBreak => MdKindView::SoftBreak,
            MdKind::HardBreak => MdKindView::HardBreak,
            MdKind::ParagraphEnd => MdKindView::ParagraphEnd,
            MdKind::ItemEnd => MdKindView::ItemEnd,
            MdKind::Other => MdKindView::Other,
        }
    }
}

impl View for MdEvent {
    type V = MdEventView;

    open spec fn view(&self) -> MdEventView {
        MdEventView { kind: self.kind@, start: self.start, end: self.end }
    }
}

pub open spec fn event_views(v: Seq<MdEvent>) -> Seq<MdEventView> {
    v.map_values(|e: MdEvent| e@)
}

/// The events that `pulldown_cmark::Parser::new(text).into_offset_iter()` yields for `text`.
pub uninterp spec fn markdown_events(text: Seq<char>) -> Seq<MdEventView>;

#[verifier::external_type_specification]
#[verifier::external_body]
pub struct ExHeadingLevel(pulldown_cmark::HeadingLevel);

/// The number of a heading level: `H1` is 1, ..., `H6` is 6 (the enum's discriminants in
/// `pulldown_cmark`). The contract states the range; which variant gives which number is
/// not stated, as the type is opaque here.
#[verifier::external_body]
pub fn heading_level_to_u8(level: pulldown_cmark::HeadingLevel) -> (r: u8)
    ensures
        1 <= r <= 6,
{
    level as u8
}

/// Runs `pulldown_cmark::Parser::new(text).into_offset_iter()` and converts each event and
/// its byte range, one for one: the events the parser reads keep their variant, every other
/// event becomes `Other`. The contract claims that the events depend on `text` alone
/// (named `markdown_events`); CommonMark parsing itself is not restated.
#[verifier::external_body]
pub(crate) fn parse_markdown(text: &str) -> (r: Vec<MdEvent>)
    ensures
        event_views(r@) == markdown_events(text@),
{
    Parser::new(text).into_offset_iter().map(|(e, r)| MdEvent {
        kind: match e {
            Start(Tag::CodeBlock(_)) => MdKind::CodeBlockStart,
            End(TagEnd::CodeBlock) => MdKind::CodeBlockEnd,
            Start(Tag::Heading { level, .. }) => MdKind::HeadingStart(heading_level_to_u8(level)),
            End(TagEnd::Heading(_)) => MdKind::HeadingEnd,
            Text(t) => MdKind::Text(t.to_string()),
            Code(t) => MdKind::Code(t.to_string()),
            SoftBreak => MdKind::SoftBreak,
            HardBreak => MdKind::HardBreak,
            End(TagEnd::Paragraph) => MdKind::ParagraphEnd,
            End(TagEnd::Item) => MdKind::ItemEnd,
            _ => MdKind::Other,
        }, start: r.start, end: r.end,
    }).collect()
}

// ---------------------------------------------------------------------------
// Plain text of markdown
// ---------------------------------------------------------------------------

/// The text an event contributes: its text or inline code, a newline per soft or hard break
/// and item end, a blank line per paragraph end.
pub open spec fn event_text(k: MdKindView) -> Seq<char> {
    match k {
        MdKindView::Text(t) => t,
        MdKindView::Code(t) => t,
        MdKindView::SoftBreak => seq!['\n'],
        MdKindView::HardBreak => seq!['\n'],
        MdKindView::ParagraphEnd => seq!['\n', '\n'],
        MdKindView::ItemEnd => seq!['\n'],
        _ => Seq::empty(),
    }
}

pub open spec fn text_of_events(evs: Seq<MdEventView>) -> Seq<char>
    decreases evs.len(),
{
    if evs.len() == 0 {
        Seq::empty()
    } else {
        text_of_events(evs.drop_last()) + event_text(evs.last().kind)
    }
}

/// The clean text of a markdown slice.
pub open spec fn markdown_text(markdown: Seq<char>) -> Seq<char> {
    text_of_events(markdown_events(markdown))
}

/// Extract clean text from a raw markdown slice using pulldown-cmark events.
pub fn extract_text(markdown: &str) -> (r: Vec<char>)
    ensures
        r@ == markdown_text(markdown@),
{
    let evs = parse_markdown(markdown);
    let ghost ev = event_views(evs@);
    let mut out: Vec<char> = Vec::new();
    let mut i: usize = 0;
    while i < evs.len()
        invariant
            i <= evs.len(),
            ev == event_views(evs@),
            out@ == text_of_events(ev.take(i as int)),
        decreases evs.len() - i,
    {
        assert(ev.take(i + 1).drop_last() =~= ev.take(i as int));
        assert(ev.take(i + 1).last() == evs@[i as int]@);
        match &evs[i].kind {
            MdKind::Text(t) => {
                let tv = crate::text::chars_of(t.as_str());
                push_all(&mut out, &tv);
            },
            MdKind::Code(t) => {
                let tv = crate::text::chars_of(t.as_str());
                push_all(&mut out, &tv);
            },
            MdKind::SoftBreak => {
                out.push('\n');
            },
            MdKind::HardBreak => {
                out.push('\n');
            },
            MdKind::ParagraphEnd => {
                out.push('\n');
                out.push('\n');
            },
            MdKind::ItemEnd => {
                out.push('\n');
            },
            _ => {},
        }
        i = i + 1;
    }
    assert(ev.take(evs.len() as int) =~= ev);
    out
}

// ---------------------------------------------------------------------------
// Byte offsets into character sequences
// ---------------------------------------------------------------------------

/// The index of the first character at which `b` bytes of UTF-8 have been passed
/// (`s.len()` when `s` is shorter than `b` bytes).
pub open spec fn char_at_byte(s: Seq<char>, b: int) -> int
    decreases s.len(),
{
    if b <= 0 || s.len() == 0 {
        0
    } else {
        1 + char_at_byte(s.drop_first(), b - crate::text::utf8_width(s[0]))
    }
}

/// The characters between byte offsets `from` and `to` (none when `to` comes before
/// `from`, where `str` slicing would panic).
pub open spec fn slice_bytes(s: Seq<char>, from: int, to: int) -> Seq<char> {
    let a = char_at_byte(s, from);
    let b = char_at_byte(s, to);
    s.subrange(a, if a <= b { b } else { a })
}

pub proof fn lemma_char_at_byte_bound(s: Seq<char>, b: int)
    ensures
        0 <= char_at_byte(s, b) <= s.len(),
    decreases s.len(),
{
    if b > 0 && s.len() > 0 {
        lemma_char_at_byte_bound(s.drop_first(), b - crate::text::utf8_width(s[0]));
    }
}

pub proof fn lemma_char_at_byte_mono(s: Seq<char>, a: int, b: int)
    requires
        a <= b,
    ensures
        char_at_byte(s, a) <= char_at_byte(s, b),
    decreases s.len(),
{
    if a > 0 && s.len() > 0 {
        lemma_char_at_byte_mono(
            s.drop_first(),
            a - crate::text::utf8_width(s[0]),
            b - crate::text::utf8_width(s[0]),
        );
    } else if s.len() > 0 && b > 0 {
        lemma_char_at_byte_bound(s.drop_first(), b - crate::text::utf8_width(s[0]));
    }
}

/// `char_at_byte`, computed for an offset held in a `u128`.
pub fn char_index_at_byte_wide(s: &Vec<char>, b: u128) -> (r: usize)
    ensures
        r == char_at_byte(s@, b as int),
        r <= s.len(),
{
    let mut i: usize = 0;
    let mut acc: u128 = 0;
    proof {
        lemma_char_at_byte_bound(s@, b as int);
        assert(s@.skip(0) =~= s@);
    }
    while i < s.len() && acc < b
        invariant
            i <= s.len(),
            acc < b || i == 0 || acc <= b + 4,
            acc <= b || acc <= 4 * i,
            acc <= 4 * i,
            char_at_byte(s@, b as int) == i + char_at_byte(s@.skip(i as int), b - acc),
        decreases s.len() - i,
    {
        let ghost rest = s@.skip(i as int);
        assert(rest[0] == s@[i as int]);
        assert(rest.drop_first() =~= s@.skip(i + 1));
        acc = acc + char_width(s[i]) as u128;
        i = i + 1;
    }
    proof {
        if i == s.len() {
            assert(s@.skip(i as int).len() == 0);
        }
    }
    i
}

/// `char_at_byte`, computed.
pub fn char_index_at_byte(s: &Vec<char>, b: usize) -> (r: usize)
    ensures
        r == char_at_byte(s@, b as int),
        r <= s.len(),
{
    char_index_at_byte_wide(s, b as u128)
}

/// The characters of `s` between byte offsets `from` and `to`.
pub fn slice_bytes_exec(s: &Vec<char>, from: usize, to: usize) -> (r: Vec<char>)
    ensures
        r@ == slice_bytes(s@, from as int, to as int),
{
    slice_bytes_wide(s, from as u128, to as u128)
}

/// The characters of `s` between byte offsets `from` and `to`, held in `u128`s.
pub fn slice_bytes_wide(s: &Vec<char>, from: u128, to: u128) -> (r: Vec<char>)
    ensures
        r@ == slice_bytes(s@, from as int, to as int),
{
    let a = char_index_at_byte_wide(s, from);
    let b = char_index_at_byte_wide(s, to);
    crate::text::slice_of(s, a, if a <= b { b } else { a })
}

} // verus!

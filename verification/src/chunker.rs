//! Cutting a note into chunks: one per section with prose, large sections split on
//! paragraph boundaries (code blocks kept whole) with some overlap.
use crate::markdown::{extract_text, markdown_text, slice_bytes, slice_bytes_exec};
use crate::section_filter::{should_skip_section_chars, skip_section};
use crate::sections::{parse_sections, section_views, sections_of, SectionView};
use crate::text::{
    byte_len, byte_len_wide, chars_of, copy_chars, join, join_exec, lines, push_all, slice_of,
    split_lines, starts_with, string_of, trim, trim_exec, trim_start, trim_start_exec, views,
};
use crate::transforms::chars_within;
use crate::types::{chunk_views, Chunk, ChunkConfig, ChunkView};
use crate::wikilinks::{extract_wikilinks_chars, links_of, replace_links, resolved_text};
use vstd::prelude::*;

verus! {

// ---------------------------------------------------------------------------
// Paragraphs, code blocks kept whole
// ---------------------------------------------------------------------------

pub struct CodeSplit {
    pub segments: Seq<Seq<char>>,
    pub current: Seq<char>,
    pub in_code: bool,
}

pub open spec fn fence() -> Seq<char> {
    seq!['`', '`', '`']
}

/// One line of the paragraph split: a fence line toggles the code block, lines inside a
/// code block are kept, a blank line closes the current paragraph.
pub open spec fn code_split_step(st: CodeSplit, line: Seq<char>) -> CodeSplit {
    if starts_with(trim_start(line), fence()) {
        CodeSplit { in_code: !st.in_code, current: st.current + line + seq!['\n'], ..st }
    } else if st.in_code {
        CodeSplit { current: st.current + line + seq!['\n'], ..st }
    } else if trim(line).len() == 0 && trim(st.current).len() > 0 {
        CodeSplit { segments: st.segments.push(trim(st.current)), current: Seq::empty(), ..st }
    } else {
        CodeSplit { current: st.current + line + seq!['\n'], ..st }
    }
}

pub open spec fn code_split_fold(ls: Seq<Seq<char>>) -> CodeSplit
    decreases ls.len(),
{
    if ls.len() == 0 {
        CodeSplit { segments: Seq::empty(), current: Seq::empty(), in_code: false }
    } else {
        code_split_step(code_split_fold(ls.drop_last()), ls.last())
    }
}

/// Paragraphs of `text` (split on blank lines), with fenced code blocks kept intact.
pub open spec fn paragraphs_of(text: Seq<char>) -> Seq<Seq<char>> {
    let st = code_split_fold(lines(text));
    if trim(st.current).len() > 0 {
        st.segments.push(trim(st.current))
    } else {
        st.segments
    }
}

/// Split text on paragraph boundaries (\n\n) but keep code blocks intact.
pub fn split_preserving_code_blocks(text: &Vec<char>) -> (r: Vec<Vec<char>>)
    ensures
        views(r@) == paragraphs_of(text@),
{
    let ls = split_lines(text);
    let ghost lv = views(ls@);
    let fence_v = chars_of("```");
    proof {
        reveal_strlit("```");
        assert(fence_v@ =~= fence());
    }
    let mut segments: Vec<Vec<char>> = Vec::new();
    let mut current: Vec<char> = Vec::new();
    let mut in_code = false;
    let mut i: usize = 0;
    assert(views(segments@) =~= Seq::<Seq<char>>::empty());
    assert(lv.take(0) =~= Seq::<Seq<char>>::empty());
    while i < ls.len()
        invariant
            i <= ls.len(),
            lv == views(ls@),
            fence_v@ == fence(),
            code_split_fold(lv.take(i as int)).segments == views(segments@),
            code_split_fold(lv.take(i as int)).current == current@,
            code_split_fold(lv.take(i as int)).in_code == in_code,
        decreases ls.len() - i,
    {
        assert(lv.take(i + 1).drop_last() =~= lv.take(i as int));
        assert(lv.take(i + 1).last() == ls@[i as int]@);
        let line = &ls[i];
        let t = trim_start_exec(line);
        if crate::text::starts_with_exec(&t, &fence_v) {
            in_code = !in_code;
            push_all(&mut current, line);
            current.push('\n');
        } else if in_code {
            push_all(&mut current, line);
            current.push('\n');
        } else {
            let tl = trim_exec(line);
            let tc = trim_exec(&current);
            if tl.len() == 0 && tc.len() > 0 {
                let ghost prev = views(segments@);
                let ghost tcv = tc@;
                segments.push(tc);
                assert(views(segments@) =~= prev.push(tcv));
                current = Vec::new();
            } else {
                push_all(&mut current, line);
                current.push('\n');
            }
        }
        i = i + 1;
    }
    assert(lv.take(ls.len() as int) =~= lv);
    let tc = trim_exec(&current);
    if tc.len() > 0 {
        let ghost prev = views(segments@);
        let ghost tcv = tc@;
        segments.push(tc);
        assert(views(segments@) =~= prev.push(tcv));
    }
    segments
}

// ---------------------------------------------------------------------------
// Large sections
// ---------------------------------------------------------------------------

pub struct LargeSplit {
    pub result: Seq<Seq<char>>,
    pub current: Seq<char>,
}

/// The tail of `current` kept as overlap: what starts at the last character boundary at
/// or before `overlap` bytes from its end, trimmed.
pub open spec fn overlap_tail(current: Seq<char>, overlap: usize) -> Seq<char> {
    let bl = byte_len(current) as int;
    let from = chars_within(current, if bl >= overlap { bl - overlap } else { 0 });
    trim(current.skip(from as int))
}

/// One paragraph of a large section: when it would push the current chunk past
/// `max_chars` bytes, the current chunk is closed and its tail carried over.
pub open spec fn large_split_step(st: LargeSplit, para: Seq<char>, config: ChunkConfig) -> LargeSplit {
    let st2 = if byte_len(st.current) + byte_len(para) > config.max_chars && st.current.len() > 0 {
        LargeSplit {
            result: st.result.push(trim(st.current)),
            current: overlap_tail(st.current, config.overlap_chars) + seq!['\n', '\n'],
        }
    } else {
        st
    };
    LargeSplit { current: st2.current + para + seq!['\n', '\n'], ..st2 }
}

pub open spec fn large_split_fold(ps: Seq<Seq<char>>, config: ChunkConfig) -> LargeSplit
    decreases ps.len(),
{
    if ps.len() == 0 {
        LargeSplit { result: Seq::empty(), current: Seq::empty() }
    } else {
        large_split_step(large_split_fold(ps.drop_last(), config), ps.last(), config)
    }
}

/// The pieces of a section longer than `max_chars` bytes.
pub open spec fn large_pieces(text: Seq<char>, config: ChunkConfig) -> Seq<Seq<char>> {
    let st = large_split_fold(paragraphs_of(text), config);
    if trim(st.current).len() > 0 {
        st.result.push(trim(st.current))
    } else {
        st.result
    }
}

/// Split a large text into chunks respecting paragraph boundaries and code blocks.
pub fn split_large_section(text: &Vec<char>, config: &ChunkConfig) -> (r: Vec<Vec<char>>)
    ensures
        views(r@) == large_pieces(text@, *config),
{
    let paragraphs = split_preserving_code_blocks(text);
    let ghost pv = views(paragraphs@);
    let mut result: Vec<Vec<char>> = Vec::new();
    let mut current: Vec<char> = Vec::new();
    let mut i: usize = 0;
    assert(views(result@) =~= Seq::<Seq<char>>::empty());
    assert(pv.take(0) =~= Seq::<Seq<char>>::empty());
    while i < paragraphs.len()
        invariant
            i <= paragraphs.len(),
            pv == views(paragraphs@),
            large_split_fold(pv.take(i as int), *config).result == views(result@),
            large_split_fold(pv.take(i as int), *config).current == current@,
        decreases paragraphs.len() - i,
    {
        assert(pv.take(i + 1).drop_last() =~= pv.take(i as int));
        assert(pv.take(i + 1).last() == paragraphs@[i as int]@);
        let para = &paragraphs[i];
        let cb = byte_len_wide(&current);
        let pb = byte_len_wide(para);
        let cl = current.len();
        let pl = para.len();
        assert(cb <= 4 * cl && pb <= 4 * pl);
        if cb + pb > config.max_chars as u128 && current.len() > 0 {
            let tc = trim_exec(&current);
            let ghost prev = views(result@);
            let ghost tcv = tc@;
            result.push(tc);
            assert(views(result@) =~= prev.push(tcv));
            let ov = config.overlap_chars as u128;
            let from = crate::transforms::chars_within_exec(&current, if cb >= ov {
                cb - ov
            } else {
                0
            });
            proof {
                crate::transforms::lemma_chars_within_bound(current@, if cb >= ov {
                    (cb - ov) as int
                } else {
                    0
                });
            }
            let tail = slice_of(&current, from, current.len());
            assert(tail@ =~= current@.skip(from as int));
            let mut next = trim_exec(&tail);
            next.push('\n');
            next.push('\n');
            current = next;
        }
        push_all(&mut current, para);
        current.push('\n');
        current.push('\n');
        i = i + 1;
    }
    assert(pv.take(paragraphs.len() as int) =~= pv);
    let tc = trim_exec(&current);
    if tc.len() > 0 {
        let ghost prev = views(result@);
        let ghost tcv = tc@;
        result.push(tc);
        assert(views(result@) =~= prev.push(tcv));
    }
    result
}

// ---------------------------------------------------------------------------
// Chunks
// ---------------------------------------------------------------------------

/// The chunk made of a raw text: links extracted, content resolved when configured.
pub open spec fn chunk_of(
    note: Seq<char>,
    breadcrumb: Seq<char>,
    raw: Seq<char>,
    index: u32,
    config: ChunkConfig,
) -> ChunkView {
    ChunkView {
        note_path: note,
        breadcrumb,
        content: if config.resolve_wikilinks {
            resolved_text(raw)
        } else {
            raw
        },
        raw_content: raw,
        chunk_index: index,
        links: links_of(raw),
    }
}

/// Create a Chunk with wikilink processing.
fn make_chunk(
    note_path: &Vec<char>,
    breadcrumb: &Vec<char>,
    raw_text: &Vec<char>,
    chunk_index: u32,
    config: &ChunkConfig,
) -> (r: Chunk)
    ensures
        r@ == chunk_of(note_path@, breadcrumb@, raw_text@, chunk_index, *config),
{
    let links = extract_wikilinks_chars(raw_text);
    let content = if config.resolve_wikilinks {
        replace_links(raw_text, true)
    } else {
        copy_chars(raw_text)
    };
    Chunk {
        note_path: string_of(note_path),
        breadcrumb: string_of(breadcrumb),
        content: string_of(&content),
        raw_content: string_of(raw_text),
        chunk_index,
        links,
    }
}

/// The chunks of raw sections `(breadcrumb, text)`: skipped sections dropped, large ones
/// split, chunk indices counting the chunks made so far.
pub open spec fn chunks_from(
    note: Seq<char>,
    rs: Seq<(Seq<char>, Seq<char>)>,
    config: ChunkConfig,
) -> Seq<ChunkView>
    decreases rs.len(),
{
    if rs.len() == 0 {
        Seq::empty()
    } else {
        let prev = chunks_from(note, rs.drop_last(), config);
        let bc = rs.last().0;
        let raw = rs.last().1;
        if skip_section(raw, config) {
            prev
        } else if byte_len(raw) <= config.max_chars {
            prev.push(chunk_of(note, bc, raw, prev.len() as u32, config))
        } else {
            let pieces = large_pieces(raw, config);
            prev + Seq::new(
                pieces.len(),
                |k: int| chunk_of(note, bc, pieces[k], (prev.len() + k) as u32, config),
            )
        }
    }
}

// ---------------------------------------------------------------------------
// Breadcrumbs
// ---------------------------------------------------------------------------

/// The heading stack without the entries at `level` or deeper.
pub open spec fn pop_to(stack: Seq<(u8, Seq<char>)>, level: u8) -> Seq<(u8, Seq<char>)>
    decreases stack.len(),
{
    if stack.len() > 0 && stack.last().0 >= level {
        pop_to(stack.drop_last(), level)
    } else {
        stack
    }
}

/// The heading stack after the given sections.
pub open spec fn crumb_stack(secs: Seq<SectionView>) -> Seq<(u8, Seq<char>)>
    decreases secs.len(),
{
    if secs.len() == 0 {
        Seq::empty()
    } else {
        pop_to(crumb_stack(secs.drop_last()), secs.last().level).push(
            (secs.last().level, secs.last().heading_text),
        )
    }
}

/// `note > H1 > H2 > ...` for a heading stack.
pub open spec fn crumb_of(note: Seq<char>, stack: Seq<(u8, Seq<char>)>) -> Seq<char> {
    note + " > "@ + join(stack.map_values(|e: (u8, Seq<char>)| e.1), " > "@)
}

/// The breadcrumb of section `i`.
pub open spec fn breadcrumb_at(note: Seq<char>, secs: Seq<SectionView>, i: int) -> Seq<char> {
    crumb_of(note, crumb_stack(secs.take(i + 1)))
}

/// Popping to a level and then to a lower or equal one pops to the second level.
proof fn lemma_pop_twice(s: Seq<(u8, Seq<char>)>, l: u8, lo: u8)
    requires
        lo <= l,
    ensures
        pop_to(pop_to(s, l), lo) == pop_to(s, lo),
    decreases s.len(),
{
    if s.len() > 0 && s.last().0 >= l {
        lemma_pop_twice(s.drop_last(), l, lo);
    }
}

/// The heading stack after `n` sections, popped to `lv`: empty where no earlier heading has a
/// level below `lv`, else the stack right after the nearest such heading.
proof fn lemma_pop_stack(secs: Seq<SectionView>, n: int, lv: u8)
    requires
        0 <= n <= secs.len(),
    ensures
        (forall|j: int| 0 <= j < n ==> #[trigger] secs[j].level >= lv) ==> pop_to(
            crumb_stack(secs.take(n)),
            lv,
        ) == Seq::<(u8, Seq<char>)>::empty(),
        forall|j: int|
            0 <= j < n && secs[j].level < lv && (forall|k: int| j < k < n ==> #[trigger] secs[k].level
                >= lv) ==> pop_to(crumb_stack(secs.take(n)), lv) == crumb_stack(
                #[trigger] secs.take(j + 1),
            ),
    decreases n,
{
    if n > 0 {
        let t = secs.take(n);
        assert(t.drop_last() =~= secs.take(n - 1));
        assert(t.last() == secs[n - 1]);
        let prev = crumb_stack(secs.take(n - 1));
        let l = secs[n - 1].level;
        let sn = crumb_stack(t);
        assert(sn == pop_to(prev, l).push((l, secs[n - 1].heading_text)));
        assert(sn.drop_last() =~= pop_to(prev, l));
        lemma_pop_stack(secs, n - 1, lv);
        if l < lv {
            assert(pop_to(sn, lv) == sn);
            assert forall|j: int|
                0 <= j < n && secs[j].level < lv && (forall|k: int| j < k < n ==> #[trigger] secs[k].level
                    >= lv) implies pop_to(sn, lv) == crumb_stack(#[trigger] secs.take(j + 1)) by {
                if j < n - 1 {
                    assert(secs[n - 1].level >= lv);
                }
            }
        } else {
            lemma_pop_twice(prev, l, lv);
            assert(pop_to(sn, lv) == pop_to(prev, lv));
            assert forall|j: int|
                0 <= j < n && secs[j].level < lv && (forall|k: int| j < k < n ==> #[trigger] secs[k].level
                    >= lv) implies pop_to(sn, lv) == crumb_stack(#[trigger] secs.take(j + 1)) by {
                assert(j < n - 1);
                assert(forall|k: int| j < k < n - 1 ==> #[trigger] secs[k].level >= lv);
            }
        }
    }
}

/// A section's breadcrumb is the note's path followed by the texts of its enclosing headings:
/// that of the nearest earlier heading with a smaller level, then ` > ` and its own heading;
/// the note's path, ` > ` and its heading where no earlier heading has a smaller level.
pub proof fn law_breadcrumb_extends_enclosing_heading(note: Seq<char>, secs: Seq<SectionView>)
    ensures
        forall|i: int|
            0 <= i < secs.len() && (forall|j: int| 0 <= j < i ==> #[trigger] secs[j].level
                >= secs[i].level) ==> #[trigger] breadcrumb_at(note, secs, i) == note + " > "@
                + secs[i].heading_text,
        forall|i: int, j: int|
            0 <= j < i < secs.len() && secs[j].level < secs[i].level && (forall|k: int|
                j < k < i ==> #[trigger] secs[k].level >= secs[i].level) ==> #[trigger] breadcrumb_at(
                note,
                secs,
                i,
            ) == #[trigger] breadcrumb_at(note, secs, j) + " > "@ + secs[i].heading_text,
{
    assert forall|i: int| 0 <= i < secs.len() implies #[trigger] breadcrumb_at(note, secs, i)
        == (if forall|j: int| 0 <= j < i ==> #[trigger] secs[j].level >= secs[i].level {
        note + " > "@ + secs[i].heading_text
    } else {
        breadcrumb_at(note, secs, i)
    }) && forall|j: int|
        0 <= j < i && secs[j].level < secs[i].level && (forall|k: int|
            j < k < i ==> #[trigger] secs[k].level >= secs[i].level) ==> breadcrumb_at(note, secs, i)
            == #[trigger] breadcrumb_at(note, secs, j) + " > "@ + secs[i].heading_text by {
        let lv = secs[i].level;
        let e = (lv, secs[i].heading_text);
        let t = secs.take(i + 1);
        assert(t.drop_last() =~= secs.take(i));
        assert(t.last() == secs[i]);
        let popped = pop_to(crumb_stack(secs.take(i)), lv);
        assert(crumb_stack(t) == popped.push(e));
        lemma_pop_stack(secs, i, lv);
        let names = popped.map_values(|x: (u8, Seq<char>)| x.1);
        assert(popped.push(e).map_values(|x: (u8, Seq<char>)| x.1) =~= names.push(e.1));
        if forall|j: int| 0 <= j < i ==> #[trigger] secs[j].level >= lv {
            assert(popped.len() == 0);
            assert(names.push(e.1) =~= seq![e.1]);
        }
        assert forall|j: int|
            0 <= j < i && secs[j].level < lv && (forall|k: int| j < k < i ==> #[trigger] secs[k].level
                >= lv) implies breadcrumb_at(note, secs, i) == #[trigger] breadcrumb_at(note, secs, j)
            + " > "@ + secs[i].heading_text by {
            assert(popped == crumb_stack(secs.take(j + 1)));
            let tj = secs.take(j + 1);
            assert(tj.drop_last() =~= secs.take(j));
            assert(popped.len() > 0);
            assert(names.push(e.1).drop_last() =~= names);
            assert(join(names.push(e.1), " > "@) == join(names, " > "@) + " > "@ + e.1);
            assert(breadcrumb_at(note, secs, j) == crumb_of(note, popped));
        }
    }
}

// ---------------------------------------------------------------------------
// Raw sections
// ---------------------------------------------------------------------------

/// The clean, trimmed text of a (trimmed) markdown piece.
pub open spec fn clean_text(raw: Seq<char>) -> Seq<char> {
    trim(markdown_text(raw))
}

/// `(breadcrumb, text)` for a piece of markdown, when it has text.
pub open spec fn part_of(breadcrumb: Seq<char>, raw: Seq<char>) -> Seq<(Seq<char>, Seq<char>)> {
    if raw.len() > 0 && clean_text(raw).len() > 0 {
        seq![(breadcrumb, clean_text(raw))]
    } else {
        Seq::empty()
    }
}

/// Text before the first heading, under the note's path.
pub open spec fn preamble_part(
    note: Seq<char>,
    md: Seq<char>,
    secs: Seq<SectionView>,
    doc_len: usize,
) -> Seq<(Seq<char>, Seq<char>)> {
    let end = if secs.len() > 0 {
        secs[0].heading_start
    } else {
        doc_len
    };
    part_of(note, trim(slice_bytes(md, 0, end as int)))
}

/// Where the direct body of section `i` ends: at the next heading of any level, or EOF.
pub open spec fn direct_end(secs: Seq<SectionView>, i: int, doc_len: usize) -> usize {
    if i + 1 < secs.len() {
        secs[i + 1].heading_start
    } else {
        doc_len
    }
}

/// The direct bodies of the first `n` sections, under their breadcrumbs.
pub open spec fn headed_parts(
    note: Seq<char>,
    md: Seq<char>,
    secs: Seq<SectionView>,
    doc_len: usize,
    n: int,
) -> Seq<(Seq<char>, Seq<char>)>
    decreases n,
{
    if n <= 0 {
        Seq::empty()
    } else {
        headed_parts(note, md, secs, doc_len, n - 1) + part_of(
            breadcrumb_at(note, secs, n - 1),
            trim(
                slice_bytes(
                    md,
                    secs[n - 1].heading_end as int,
                    direct_end(secs, n - 1, doc_len) as int,
                ),
            ),
        )
    }
}

/// All `(breadcrumb, text)` pieces of a note, preamble first.
pub open spec fn raw_sections(note: Seq<char>, md: Seq<char>) -> Seq<(Seq<char>, Seq<char>)> {
    let doc_len = crate::sections::utf8_len(md);
    let secs = sections_of(md);
    preamble_part(note, md, secs, doc_len) + headed_parts(note, md, secs, doc_len, secs.len() as int)
}

/// The chunks of a note.
pub open spec fn chunks_of(note: Seq<char>, md: Seq<char>, config: ChunkConfig) -> Seq<ChunkView> {
    chunks_from(note, raw_sections(note, md), config)
}

fn part_exec(breadcrumb: &Vec<char>, raw: &Vec<char>) -> (r: Option<(Vec<char>, Vec<char>)>)
    ensures
        match r {
            Some((b, t)) => part_of(breadcrumb@, raw@) == seq![(b@, t@)],
            None => part_of(breadcrumb@, raw@) == Seq::<(Seq<char>, Seq<char>)>::empty(),
        },
{
    if raw.len() == 0 {
        return None;
    }
    let rs = string_of(raw);
    let text = extract_text(rs.as_str());
    let trimmed = trim_exec(&text);
    if trimmed.len() > 0 {
        Some((copy_chars(breadcrumb), trimmed))
    } else {
        None
    }
}

pub open spec fn pair_views(v: Seq<(Vec<char>, Vec<char>)>) -> Seq<(Seq<char>, Seq<char>)> {
    v.map_values(|p: (Vec<char>, Vec<char>)| (p.0@, p.1@))
}

fn push_part(out: &mut Vec<(Vec<char>, Vec<char>)>, p: Option<(Vec<char>, Vec<char>)>)
    ensures
        pair_views(final(out)@) == pair_views(old(out)@) + match p {
            Some((b, t)) => seq![(b@, t@)],
            None => Seq::<(Seq<char>, Seq<char>)>::empty(),
        },
{
    let ghost prev = pair_views(out@);
    match p {
        Some((b, t)) => {
            let ghost bv = b@;
            let ghost tv = t@;
            out.push((b, t));
            assert(pair_views(out@) =~= prev + seq![(bv, tv)]);
        },
        None => {
            assert(pair_views(out@) =~= prev + Seq::<(Seq<char>, Seq<char>)>::empty());
        },
    }
}

/// The breadcrumb for the current heading stack.
fn crumb_exec(note: &Vec<char>, stack: &Vec<(u8, Vec<char>)>) -> (r: Vec<char>)
    ensures
        r@ == crumb_of(note@, stack@.map_values(|e: (u8, Vec<char>)| (e.0, e.1@))),
{
    let mut names: Vec<Vec<char>> = Vec::new();
    let mut k: usize = 0;
    let ghost sv = stack@.map_values(|e: (u8, Vec<char>)| (e.0, e.1@));
    while k < stack.len()
        invariant
            k <= stack.len(),
            sv == stack@.map_values(|e: (u8, Vec<char>)| (e.0, e.1@)),
            views(names@) == sv.map_values(|e: (u8, Seq<char>)| e.1).take(k as int),
        decreases stack.len() - k,
    {
        let ghost prev = views(names@);
        names.push(copy_chars(&stack[k].1));
        assert(views(names@) =~= prev.push(sv[k as int].1));
        assert(sv.map_values(|e: (u8, Seq<char>)| e.1).take(k + 1) =~= sv.map_values(
            |e: (u8, Seq<char>)| e.1,
        ).take(k as int).push(sv[k as int].1));
        k = k + 1;
    }
    assert(sv.map_values(|e: (u8, Seq<char>)| e.1).take(stack.len() as int) =~= sv.map_values(
        |e: (u8, Seq<char>)| e.1,
    ));
    let sep = chars_of(" > ");
    let joined = join_exec(&names, &sep);
    let mut out = copy_chars(note);
    push_all(&mut out, &sep);
    push_all(&mut out, &joined);
    out
}

/// The raw `(breadcrumb, text)` pieces of a note.
fn collect_raw_sections(note: &Vec<char>, markdown: &str) -> (r: Vec<(Vec<char>, Vec<char>)>)
    ensures
        pair_views(r@) == raw_sections(note@, markdown@),
{
    let md = chars_of(markdown);
    let doc_len = markdown.len();
    let sections = parse_sections(markdown);
    let ghost secs = section_views(sections@);
    let mut out: Vec<(Vec<char>, Vec<char>)> = Vec::new();
    // Preamble: text before first heading
    let preamble_end = if sections.len() > 0 {
        sections[0].heading_range.start
    } else {
        doc_len
    };
    let pre = slice_bytes_exec(&md, 0, preamble_end);
    let pre_t = trim_exec(&pre);
    let p = part_exec(note, &pre_t);
    push_part(&mut out, p);
    assert(pair_views(out@) =~= preamble_part(note@, md@, secs, doc_len));
    let ghost pre_part = pair_views(out@);
    // Headed sections
    let mut stack: Vec<(u8, Vec<char>)> = Vec::new();
    let mut i: usize = 0;
    assert(stack@.map_values(|e: (u8, Vec<char>)| (e.0, e.1@)) =~= crumb_stack(secs.take(0)));
    while i < sections.len()
        invariant
            i <= sections.len(),
            secs == section_views(sections@),
            secs == sections_of(markdown@),
            doc_len == crate::sections::utf8_len(markdown@),
            md@ == markdown@,
            pre_part == preamble_part(note@, md@, secs, doc_len),
            pair_views(out@) == pre_part + headed_parts(note@, md@, secs, doc_len, i as int),
            stack@.map_values(|e: (u8, Vec<char>)| (e.0, e.1@)) == crumb_stack(secs.take(i as int)),
        decreases sections.len() - i,
    {
        let level = sections[i].level;
        let ghost sv = secs[i as int];
        assert(sv == sections@[i as int]@);
        // pop deeper-or-equal headings
        loop
            invariant
                pop_to(crumb_stack(secs.take(i as int)), level) == pop_to(
                    stack@.map_values(|e: (u8, Vec<char>)| (e.0, e.1@)),
                    level,
                ),
            ensures
                pop_to(crumb_stack(secs.take(i as int)), level) == stack@.map_values(
                    |e: (u8, Vec<char>)| (e.0, e.1@),
                ),
            decreases stack.len(),
        {
            if stack.len() > 0 && stack[stack.len() - 1].0 >= level {
                let ghost before = stack@.map_values(|e: (u8, Vec<char>)| (e.0, e.1@));
                stack.pop();
                assert(stack@.map_values(|e: (u8, Vec<char>)| (e.0, e.1@)) =~= before.drop_last());
            } else {
                break;
            }
        }
        let ghost popped = stack@.map_values(|e: (u8, Vec<char>)| (e.0, e.1@));
        let name = chars_of(sections[i].heading_text.as_str());
        let ghost namev = name@;
        stack.push((level, name));
        proof {
            assert(secs.take(i + 1).drop_last() =~= secs.take(i as int));
            assert(secs.take(i + 1).last() == sv);
            assert(stack@.map_values(|e: (u8, Vec<char>)| (e.0, e.1@)) =~= popped.push(
                (level, namev),
            ));
        }
        let crumb = crumb_exec(note, &stack);
        assert(crumb@ == breadcrumb_at(note@, secs, i as int));
        let start = sections[i].heading_range.end;
        let end = if i + 1 < sections.len() {
            sections[i + 1].heading_range.start
        } else {
            doc_len
        };
        proof {
            if i + 1 < sections.len() {
                assert(secs[i + 1] == sections@[i + 1]@);
            }
        }
        let raw = slice_bytes_exec(&md, start, end);
        let raw_t = trim_exec(&raw);
        let p = part_exec(&crumb, &raw_t);
        push_part(&mut out, p);
        proof {
            assert(start == secs[i as int].heading_end);
            assert(end == direct_end(secs, i as int, doc_len));
            assert(headed_parts(note@, md@, secs, doc_len, i + 1) == headed_parts(
                note@,
                md@,
                secs,
                doc_len,
                i as int,
            ) + part_of(breadcrumb_at(note@, secs, i as int), raw_t@));
            assert(pair_views(out@) =~= pre_part + headed_parts(note@, md@, secs, doc_len, i + 1));
        }
        i = i + 1;
    }
    out
}

/// Cuts a note's markdown into chunks.
pub fn chunk_markdown(note_path: &str, markdown: &str, config: &ChunkConfig) -> (r: Vec<Chunk>)
    ensures
        chunk_views(r@) == chunks_of(note_path@, markdown@, *config),
{
    let note = chars_of(note_path);
    let raws = collect_raw_sections(&note, markdown);
    let ghost rv = pair_views(raws@);
    let mut chunks: Vec<Chunk> = Vec::new();
    let mut i: usize = 0;
    assert(chunk_views(chunks@) =~= chunks_from(note@, rv.take(0), *config));
    while i < raws.len()
        invariant
            i <= raws.len(),
            rv == pair_views(raws@),
            chunk_views(chunks@) == chunks_from(note@, rv.take(i as int), *config),
        decreases raws.len() - i,
    {
        assert(rv.take(i + 1).drop_last() =~= rv.take(i as int));
        assert(rv.take(i + 1).last() == (raws@[i as int].0@, raws@[i as int].1@));
        let bc = &raws[i].0;
        let raw = &raws[i].1;
        let ghost prev = chunk_views(chunks@);
        if should_skip_section_chars(raw, config) {
        } else {
            let bl = byte_len_wide(raw);
            if bl <= config.max_chars as u128 {
                let idx = chunks.len() as u32;
                let c = make_chunk(&note, bc, raw, idx, config);
                chunks.push(c);
                assert(chunk_views(chunks@) =~= prev.push(c@));
            } else {
                let subs = split_large_section(raw, config);
                let ghost pieces = views(subs@);
                let ghost base = prev.len();
                let mut k: usize = 0;
                while k < subs.len()
                    invariant
                        k <= subs.len(),
                        pieces == views(subs@),
                        base == prev.len(),
                        chunk_views(chunks@) == prev + Seq::new(
                            k as nat,
                            |j: int|
                                chunk_of(note@, bc@, pieces[j], (base + j) as u32, *config),
                        ),
                    decreases subs.len() - k,
                {
                    let ghost before = chunk_views(chunks@);
                    let idx = chunks.len() as u32;
                    let c = make_chunk(&note, bc, &subs[k], idx, config);
                    chunks.push(c);
                    assert(chunk_views(chunks@) =~= before.push(c@));
                    assert(chunk_views(chunks@) =~= prev + Seq::new(
                        (k + 1) as nat,
                        |j: int| chunk_of(note@, bc@, pieces[j], (base + j) as u32, *config),
                    ));
                    k = k + 1;
                }
            }
        }
        i = i + 1;
    }
    assert(rv.take(raws.len() as int) =~= rv);
    chunks
}

// ---------------------------------------------------------------------------
// Laws
// ---------------------------------------------------------------------------

/// A chunk's links are those of its raw text, and its content is that text, with its links
/// resolved when the configuration asks for it.
pub open spec fn carries_own_text(c: ChunkView, config: ChunkConfig) -> bool {
    &&& c.links == links_of(c.raw_content)
    &&& c.content == (if config.resolve_wikilinks {
        resolved_text(c.raw_content)
    } else {
        c.raw_content
    })
}

pub proof fn lemma_chunk_indices(note: Seq<char>, rs: Seq<(Seq<char>, Seq<char>)>, config: ChunkConfig)
    ensures
        forall|k: int|
            0 <= k < chunks_from(note, rs, config).len() ==> #[trigger] chunks_from(
                note,
                rs,
                config,
            )[k].chunk_index == k as u32 && chunks_from(note, rs, config)[k].note_path == note
                && carries_own_text(chunks_from(note, rs, config)[k], config),
    decreases rs.len(),
{
    if rs.len() > 0 {
        lemma_chunk_indices(note, rs.drop_last(), config);
        let prev = chunks_from(note, rs.drop_last(), config);
        let all = chunks_from(note, rs, config);
        let raw = rs.last().1;
        let bc = rs.last().0;
        if skip_section(raw, config) {
            assert(all == prev);
        } else if byte_len(raw) <= config.max_chars {
            assert(all == prev.push(chunk_of(note, bc, raw, prev.len() as u32, config)));
            assert forall|k: int| 0 <= k < all.len() implies #[trigger] all[k].chunk_index == k
                as u32 && all[k].note_path == note && carries_own_text(all[k], config) by {
                if k < prev.len() {
                    assert(all[k] == prev[k]);
                }
            }
        } else {
            let pieces = large_pieces(raw, config);
            let more = Seq::new(
                pieces.len(),
                |j: int| chunk_of(note, bc, pieces[j], (prev.len() + j) as u32, config),
            );
            assert(all == prev + more);
            assert forall|k: int| 0 <= k < all.len() implies #[trigger] all[k].chunk_index == k
                as u32 && all[k].note_path == note && carries_own_text(all[k], config) by {
                if k < prev.len() {
                    assert(all[k] == prev[k]);
                } else {
                    assert(all[k] == more[k - prev.len()]);
                    assert(prev.len() + (k - prev.len()) == k);
                }
            }
        }
    }
}

/// Law: the chunks of a note are numbered 0, 1, 2, ... in order (modulo 2^32), over the
/// chunks that were kept, all carry the note's path, and each carries the links of its raw
/// text and, as its content, that text with its links resolved when configured.
pub proof fn law_chunk_index_counts_kept_chunks(note: Seq<char>, md: Seq<char>, config: ChunkConfig)
    ensures
        forall|k: int|
            0 <= k < chunks_of(note, md, config).len() ==> #[trigger] chunks_of(
                note,
                md,
                config,
            )[k].chunk_index == k as u32 && chunks_of(note, md, config)[k].note_path == note
                && carries_own_text(chunks_of(note, md, config)[k], config),
{
    lemma_chunk_indices(note, raw_sections(note, md), config);
    let all = chunks_of(note, md, config);
    assert(all == chunks_from(note, raw_sections(note, md), config));
    assert forall|k: int| 0 <= k < all.len() implies #[trigger] all[k].chunk_index == k as u32
        && all[k].note_path == note && carries_own_text(all[k], config) by {
        let cf = chunks_from(note, raw_sections(note, md), config);
        assert(all[k] == cf[k]);
        assert(cf[k].chunk_index == k as u32);
    }
}

pub proof fn lemma_chunks_not_skipped(note: Seq<char>, rs: Seq<(Seq<char>, Seq<char>)>, config: ChunkConfig)
    ensures
        forall|k: int|
            0 <= k < chunks_from(note, rs, config).len() ==> exists|j: int|
                0 <= j < rs.len() && !skip_section(#[trigger] rs[j].1, config)
                    && #[trigger] chunks_from(note, rs, config)[k].breadcrumb == rs[j].0,
    decreases rs.len(),
{
    if rs.len() > 0 {
        let prev = rs.drop_last();
        lemma_chunks_not_skipped(note, prev, config);
        let all = chunks_from(note, rs, config);
        let before = chunks_from(note, prev, config);
        assert forall|k: int| 0 <= k < all.len() implies exists|j: int|
            0 <= j < rs.len() && !skip_section(#[trigger] rs[j].1, config)
                && #[trigger] all[k].breadcrumb == rs[j].0 by {
            if k < before.len() {
                let j = choose|j: int|
                    0 <= j < prev.len() && !skip_section(#[trigger] prev[j].1, config)
                        && #[trigger] before[k].breadcrumb == prev[j].0;
                assert(rs[j] == prev[j]);
                assert(all[k] == before[k]);
            } else {
                let j = rs.len() - 1;
                assert(rs[j] == rs.last());
            }
        }
    }
}

/// Law: every chunk comes from a section that is not skipped (not link-only, not a
/// changelog), and carries that section's breadcrumb.
pub proof fn law_chunks_come_from_kept_sections(note: Seq<char>, md: Seq<char>, config: ChunkConfig)
    ensures
        forall|k: int|
            0 <= k < chunks_of(note, md, config).len() ==> exists|j: int|
                0 <= j < raw_sections(note, md).len() && !skip_section(
                    #[trigger] raw_sections(note, md)[j].1,
                    config,
                ) && #[trigger] chunks_of(note, md, config)[k].breadcrumb == raw_sections(
                    note,
                    md,
                )[j].0,
{
    lemma_chunks_not_skipped(note, raw_sections(note, md), config);
    let all = chunks_of(note, md, config);
    let rs = raw_sections(note, md);
    assert(all == chunks_from(note, rs, config));
    assert forall|k: int| 0 <= k < all.len() implies exists|j: int|
        0 <= j < rs.len() && !skip_section(#[trigger] rs[j].1, config)
            && #[trigger] all[k].breadcrumb == rs[j].0 by {
        assert(all[k] == chunks_from(note, rs, config)[k]);
    }
}


// ---------------------------------------------------------------------------
// Code blocks are not split
// ---------------------------------------------------------------------------

/// Whether a line opens or closes a fenced code block.
pub open spec fn is_fence_line(line: Seq<char>) -> bool {
    starts_with(trim_start(line), fence())
}

/// Lines `a` to `b` (exclusive) of `ls`, each followed by a line break.
pub open spec fn block_text(ls: Seq<Seq<char>>, a: int, b: int) -> Seq<char>
    decreases b - a,
{
    if b <= a {
        Seq::empty()
    } else {
        block_text(ls, a, b - 1) + ls[b - 1] + seq!['\n']
    }
}

proof fn lemma_block_inside(ls: Seq<Seq<char>>, i: int, k: int)
    requires
        0 <= i < k <= ls.len(),
        !code_split_fold(ls.take(i)).in_code,
        is_fence_line(ls[i]),
        forall|t: int| i < t < k ==> !#[trigger] is_fence_line(ls[t]),
    ensures
        code_split_fold(ls.take(k)).segments == code_split_fold(ls.take(i)).segments,
        code_split_fold(ls.take(k)).current == code_split_fold(ls.take(i)).current + block_text(
            ls,
            i,
            k,
        ),
        code_split_fold(ls.take(k)).in_code,
    decreases k - i,
{
    assert(ls.take(k).drop_last() =~= ls.take(k - 1));
    assert(ls.take(k).last() == ls[k - 1]);
    let st = code_split_fold(ls.take(k - 1));
    assert(code_split_fold(ls.take(k)) == code_split_step(st, ls[k - 1]));
    if k - 1 > i {
        lemma_block_inside(ls, i, k - 1);
        assert(!is_fence_line(ls[k - 1]));
    } else {
        assert(is_fence_line(ls[k - 1]));
        assert(block_text(ls, i, i) =~= Seq::<char>::empty());
    }
    let before = code_split_fold(ls.take(i)).current;
    assert(before + block_text(ls, i, k) =~= (before + block_text(ls, i, k - 1)) + ls[k - 1] + seq![
        '\n',
    ]);
}

proof fn lemma_block_starts(ls: Seq<Seq<char>>, a: int, b: int)
    requires
        0 <= a < b <= ls.len(),
    ensures
        block_text(ls, a, b).len() >= ls[a].len(),
        forall|j: int| 0 <= j < ls[a].len() ==> #[trigger] block_text(ls, a, b)[j] == ls[a][j],
    decreases b - a,
{
    if b - 1 > a {
        lemma_block_starts(ls, a, b - 1);
    } else {
        assert(block_text(ls, a, a) =~= Seq::<char>::empty());
    }
}

/// A fenced code block is never split: from its opening fence line (outside any block) to the
/// next fence line, which closes it, no paragraph ends, and every line of the block, fences
/// included, goes whole into the paragraph being built.
pub proof fn law_code_blocks_stay_whole(ls: Seq<Seq<char>>, i: int, j: int)
    requires
        0 <= i < j < ls.len(),
        !code_split_fold(ls.take(i)).in_code,
        is_fence_line(ls[i]),
        is_fence_line(ls[j]),
        forall|t: int| i < t < j ==> !#[trigger] is_fence_line(ls[t]),
    ensures
        code_split_fold(ls.take(j + 1)).segments == code_split_fold(ls.take(i)).segments,
        code_split_fold(ls.take(j + 1)).current == code_split_fold(ls.take(i)).current
            + block_text(ls, i, j + 1),
        !code_split_fold(ls.take(j + 1)).in_code,
{
    lemma_block_inside(ls, i, j);
    assert(ls.take(j + 1).drop_last() =~= ls.take(j));
    assert(ls.take(j + 1).last() == ls[j]);
    let before = code_split_fold(ls.take(i)).current;
    assert(before + block_text(ls, i, j + 1) =~= (before + block_text(ls, i, j)) + ls[j] + seq![
        '\n',
    ]);
}

/// A text made of one fenced code block (a fence line, lines that are not fences, a fence line)
/// is one paragraph: the whole block, trimmed.
pub proof fn law_code_block_is_one_paragraph(text: Seq<char>)
    requires
        lines(text).len() >= 2,
        is_fence_line(lines(text)[0]),
        is_fence_line(lines(text).last()),
        forall|t: int| 0 < t < lines(text).len() - 1 ==> !#[trigger] is_fence_line(lines(text)[t]),
    ensures
        paragraphs_of(text) == seq![trim(block_text(lines(text), 0, lines(text).len() as int))],
{
    let ls = lines(text);
    let n = ls.len() as int;
    assert(ls.take(0) =~= Seq::<Seq<char>>::empty());
    law_code_blocks_stay_whole(ls, 0, n - 1);
    assert(ls.take(n) =~= ls);
    let b = block_text(ls, 0, n);
    assert(Seq::<char>::empty() + b =~= b);
    crate::text::lemma_trim_shape(b);
    assert(b.len() > 0) by {
        assert(b =~= block_text(ls, 0, n - 1) + ls[n - 1] + seq!['\n']);
    }
    assert(trim(b).len() > 0) by {
        let f = ls[0];
        let l = crate::text::lead_ws(f) as int;
        crate::text::lemma_lead_ws_bound(f);
        assert(trim_start(f).len() >= 3);
        assert(trim_start(f).take(3) == fence());
        assert(trim_start(f).take(3)[0] == '`');
        assert(trim_start(f)[0] == f[l]);
        assert(f[l] == '`');
        lemma_block_starts(ls, 0, n);
        assert(b[l] == '`');
        crate::text::lemma_trim_nonempty(b, l);
    }
    assert(Seq::<Seq<char>>::empty().push(trim(b)) =~= seq![trim(b)]);
}


// ---------------------------------------------------------------------------
// Consecutive pieces of a large section overlap
// ---------------------------------------------------------------------------

/// `t` ends `a`.
pub open spec fn ends_with(a: Seq<char>, t: Seq<char>) -> bool {
    t.len() <= a.len() && a.skip(a.len() - t.len()) == t
}

/// The tail carried into the next piece each time splitting a large section closes a piece:
/// the closed text's last `overlap_chars` bytes, trimmed (`overlap_tail`).
pub open spec fn carried_tails(ps: Seq<Seq<char>>, config: ChunkConfig) -> Seq<Seq<char>>
    decreases ps.len(),
{
    if ps.len() == 0 {
        Seq::empty()
    } else {
        let st = large_split_fold(ps.drop_last(), config);
        let t = carried_tails(ps.drop_last(), config);
        if byte_len(st.current) + byte_len(ps.last()) > config.max_chars && st.current.len() > 0 {
            t.push(overlap_tail(st.current, config.overlap_chars))
        } else {
            t
        }
    }
}

/// What trimming keeps of the end of a text ends what trimming keeps of the whole.
proof fn lemma_trim_suffix(a: Seq<char>, t: Seq<char>)
    ensures
        ends_with(trim(a + t), trim(t)),
{
    let s = a + t;
    if trim(t).len() == 0 {
        assert(trim(s).skip(trim(s).len() as int) =~= trim(t));
    } else {
        crate::text::lemma_trim_around(t);
        crate::text::lemma_trim_shape(t);
        crate::text::lemma_trim_around(s);
        crate::text::lemma_trim_shape(s);
        let l = crate::text::lead_ws(t) as int;
        let n = trim(t).len() as int;
        let ll = crate::text::lead_ws(s) as int;
        let nn = trim(s).len() as int;
        let off = a.len() as int;
        assert(t[l] == trim(t)[0]);
        assert(t[l + n - 1] == trim(t).last());
        assert(s[off + l] == t[l]);
        assert(s[off + l + n - 1] == t[l + n - 1]);
        crate::text::lemma_trim_nonempty(s, off + l);
        assert(s[ll + nn - 1] == trim(s).last());
        assert(off + l >= ll);
        assert(off + l + n - 1 < ll + nn);
        if ll + nn - 1 >= off + l + n {
            assert(s[ll + nn - 1] == t[ll + nn - 1 - off]);
        }
        assert(ll + nn == off + l + n);
        assert forall|q: int| 0 <= q < n implies #[trigger] trim(s).skip(nn - n)[q] == trim(t)[q] by {
            assert(trim(s).skip(nn - n)[q] == trim(s)[nn - n + q]);
            assert(trim(s)[nn - n + q] == s[ll + nn - n + q]);
            assert(s[off + l + q] == t[l + q]);
        }
        assert(trim(s).skip(nn - n) =~= trim(t));
    }
}

/// The tail carried over ends the piece it is cut from.
proof fn lemma_tail_ends_piece(c: Seq<char>, ov: usize)
    ensures
        ends_with(trim(c), overlap_tail(c, ov)),
        trim(overlap_tail(c, ov)) == overlap_tail(c, ov),
{
    let bl = byte_len(c) as int;
    let from = chars_within(c, if bl >= ov {
        bl - ov
    } else {
        0
    }) as int;
    crate::transforms::lemma_chars_within_bound(c, if bl >= ov {
        bl - ov
    } else {
        0
    });
    assert(c.take(from) + c.skip(from) =~= c);
    lemma_trim_suffix(c.take(from), c.skip(from));
    crate::text::lemma_trim_idem(c.skip(from));
}

/// A trimmed text keeps its place at the start of what trimming a longer text gives.
proof fn lemma_trim_keeps_start(t: Seq<char>, rest: Seq<char>)
    requires
        trim(t) == t,
    ensures
        starts_with(trim(t + rest), t),
{
    let s = t + rest;
    if t.len() == 0 {
        assert(trim(s).take(0) =~= t);
    } else {
        crate::text::lemma_trim_shape(t);
        crate::text::lemma_trim_around(s);
        crate::text::lemma_trim_shape(s);
        assert(s[0] == t[0]);
        assert(crate::text::lead_ws(s) == 0);
        assert(s[t.len() - 1] == t.last());
        crate::text::lemma_trim_nonempty(s, 0);
        let nn = trim(s).len() as int;
        if nn < t.len() {
            assert(is_ws_at(s, t.len() - 1));
        }
        assert forall|q: int| 0 <= q < t.len() implies #[trigger] trim(s).take(t.len() as int)[q] == t[q] by {
            assert(trim(s)[q] == s[q]);
        }
        assert(trim(s).take(t.len() as int) =~= t);
    }
}

spec fn is_ws_at(s: Seq<char>, j: int) -> bool {
    crate::text::is_ws(s[j])
}

proof fn lemma_starts_with_more(c: Seq<char>, t: Seq<char>, x: Seq<char>)
    requires
        starts_with(c, t),
    ensures
        starts_with(c + x, t),
{
    assert((c + x).take(t.len() as int) =~= c.take(t.len() as int));
}

/// What splitting keeps true as paragraphs come: a tail for each closed piece, which ends that
/// piece and starts the next, and the text being built starts with the last tail.
proof fn lemma_large_split_tails(ps: Seq<Seq<char>>, config: ChunkConfig)
    ensures
        carried_tails(ps, config).len() == large_split_fold(ps, config).result.len(),
        forall|k: int|
            0 <= k < carried_tails(ps, config).len() ==> ends_with(
                large_split_fold(ps, config).result[k],
                #[trigger] carried_tails(ps, config)[k],
            ) && trim(carried_tails(ps, config)[k]) == carried_tails(ps, config)[k],
        forall|k: int|
            0 <= k < carried_tails(ps, config).len() - 1 ==> starts_with(
                large_split_fold(ps, config).result[k + 1],
                #[trigger] carried_tails(ps, config)[k],
            ),
        carried_tails(ps, config).len() > 0 ==> starts_with(
            large_split_fold(ps, config).current,
            carried_tails(ps, config).last(),
        ),
    decreases ps.len(),
{
    if ps.len() > 0 {
        let prev = ps.drop_last();
        lemma_large_split_tails(prev, config);
        let st0 = large_split_fold(prev, config);
        let tl0 = carried_tails(prev, config);
        let p = ps.last();
        let c = st0.current;
        let st = large_split_fold(ps, config);
        let tl = carried_tails(ps, config);
        if byte_len(c) + byte_len(p) > config.max_chars && c.len() > 0 {
            let ot = overlap_tail(c, config.overlap_chars);
            lemma_tail_ends_piece(c, config.overlap_chars);
            assert(tl == tl0.push(ot));
            assert(st.result == st0.result.push(trim(c)));
            assert(st.current == ot + seq!['\n', '\n'] + p + seq!['\n', '\n']);
            assert(st.current =~= ot + (seq!['\n', '\n'] + p + seq!['\n', '\n']));
            assert(st.current.take(ot.len() as int) =~= ot);
            if tl0.len() > 0 {
                let lt = tl0.last();
                assert(c =~= lt + c.skip(lt.len() as int));
                lemma_trim_keeps_start(lt, c.skip(lt.len() as int));
            }
            assert forall|k: int| 0 <= k < tl.len() - 1 implies starts_with(st.result[k + 1], #[trigger] tl[k]) by {
                assert(tl[k] == tl0[k]);
                if k + 1 < tl0.len() {
                    assert(st.result[k + 1] == st0.result[k + 1]);
                }
            }
            assert forall|k: int| 0 <= k < tl.len() implies ends_with(st.result[k], #[trigger] tl[k]) && trim(tl[k]) == tl[k] by {
                if k < tl0.len() {
                    assert(tl[k] == tl0[k]);
                    assert(st.result[k] == st0.result[k]);
                }
            }
        } else {
            assert(tl == tl0);
            assert(st.result == st0.result);
            assert(st.current == c + p + seq!['\n', '\n']);
            if tl0.len() > 0 {
                lemma_starts_with_more(c, tl0.last(), p + seq!['\n', '\n']);
                assert(c + p + seq!['\n', '\n'] =~= c + (p + seq!['\n', '\n']));
            }
        }
    }
}

/// Consecutive pieces of a large section overlap: each piece after the first starts with the
/// tail carried over from the text the piece before it was cut from (that text's last
/// `overlap_chars` bytes, trimmed), and that piece ends with the same tail.
pub proof fn law_pieces_overlap(text: Seq<char>, config: ChunkConfig)
    ensures
        forall|k: int|
            0 <= k < large_pieces(text, config).len() - 1 ==> k < carried_tails(
                paragraphs_of(text),
                config,
            ).len() && ends_with(
                large_pieces(text, config)[k],
                #[trigger] carried_tails(paragraphs_of(text), config)[k],
            ) && starts_with(
                large_pieces(text, config)[k + 1],
                carried_tails(paragraphs_of(text), config)[k],
            ),
{
    let ps = paragraphs_of(text);
    lemma_large_split_tails(ps, config);
    let st = large_split_fold(ps, config);
    let tl = carried_tails(ps, config);
    let pieces = large_pieces(text, config);
    assert forall|k: int| 0 <= k < pieces.len() - 1 implies k < tl.len() && ends_with(
        pieces[k],
        #[trigger] tl[k],
    ) && starts_with(pieces[k + 1], tl[k]) by {
        assert(pieces[k] == st.result[k]);
        if k + 1 < st.result.len() {
            assert(pieces[k + 1] == st.result[k + 1]);
        } else {
            assert(pieces[k + 1] == trim(st.current));
            let lt = tl.last();
            assert(st.current =~= lt + st.current.skip(lt.len() as int));
            lemma_trim_keeps_start(lt, st.current.skip(lt.len() as int));
        }
    }
}


// ---------------------------------------------------------------------------
// Breadcrumbs start with the note
// ---------------------------------------------------------------------------

/// A breadcrumb of note `note`: the note's path alone, or the path, ` > ` and headings.
pub open spec fn crumb_of_note(b: Seq<char>, note: Seq<char>) -> bool {
    b == note || starts_with(b, note + " > "@)
}

proof fn lemma_headed_crumbs(note: Seq<char>, md: Seq<char>, secs: Seq<SectionView>, doc_len: usize, n: int)
    ensures
        forall|k: int|
            0 <= k < headed_parts(note, md, secs, doc_len, n).len() ==> crumb_of_note(
                (#[trigger] headed_parts(note, md, secs, doc_len, n)[k]).0,
                note,
            ),
    decreases n,
{
    if n > 0 {
        lemma_headed_crumbs(note, md, secs, doc_len, n - 1);
        let prev = headed_parts(note, md, secs, doc_len, n - 1);
        let b = breadcrumb_at(note, secs, n - 1);
        let part = part_of(
            b,
            trim(slice_bytes(md, secs[n - 1].heading_end as int, direct_end(secs, n - 1, doc_len) as int)),
        );
        let all = headed_parts(note, md, secs, doc_len, n);
        assert(all == prev + part);
        let p = note + " > "@;
        assert(b.take(p.len() as int) =~= p);
        assert forall|k: int| 0 <= k < all.len() implies crumb_of_note((#[trigger] all[k]).0, note) by {
            if k < prev.len() {
                assert(all[k] == prev[k]);
            } else {
                assert(all[k] == part[k - prev.len()]);
            }
        }
    }
}

/// Every chunk's breadcrumb is the note's path, alone for text before the first heading, or
/// followed by ` > ` and the headings above the chunk's section.
pub proof fn law_chunk_breadcrumbs_start_with_the_note(note: Seq<char>, md: Seq<char>, config: ChunkConfig)
    ensures
        forall|k: int|
            0 <= k < chunks_of(note, md, config).len() ==> crumb_of_note(
                (#[trigger] chunks_of(note, md, config)[k]).breadcrumb,
                note,
            ),
{
    let rs = raw_sections(note, md);
    let doc_len = crate::sections::utf8_len(md);
    let secs = sections_of(md);
    lemma_headed_crumbs(note, md, secs, doc_len, secs.len() as int);
    let pre = preamble_part(note, md, secs, doc_len);
    let hp = headed_parts(note, md, secs, doc_len, secs.len() as int);
    assert(rs == pre + hp);
    lemma_chunks_not_skipped(note, rs, config);
    let all = chunks_of(note, md, config);
    assert(all == chunks_from(note, rs, config));
    assert forall|k: int| 0 <= k < all.len() implies crumb_of_note((#[trigger] all[k]).breadcrumb, note) by {
        assert(all[k] == chunks_from(note, rs, config)[k]);
        let j = choose|j: int|
            0 <= j < rs.len() && !skip_section(#[trigger] rs[j].1, config)
                && #[trigger] chunks_from(note, rs, config)[k].breadcrumb == rs[j].0;
        if j < pre.len() {
            assert(rs[j] == pre[j]);
        } else {
            assert(rs[j] == hp[j - pre.len()]);
        }
    }
}

} // verus!

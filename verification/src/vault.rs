//! A vault of notes: chunking many notes at once, and the folder tree.
use crate::chunker::{chunk_markdown, chunks_of};
use crate::frontmatter::{frontmatter_split, strip_frontmatter_chars};
use crate::text::{chars_of, string_of};
use crate::types::{chunk_views, Chunk, ChunkConfig, ChunkView};
use vstd::prelude::*;

verus! {

/// Entry from a vault filesystem walk.
pub struct WalkEntry {
    /// NFC-normalized path relative to vault root.
    pub rel_path: String,
    /// Whether this entry is a directory.
    pub is_dir: bool,
}

/// The chunks of `(path, content)` entries, note after note; each note's chunks come
/// from its body without frontmatter.
pub open spec fn vault_chunks(entries: Seq<(Seq<char>, Seq<char>)>, config: ChunkConfig) -> Seq<
    ChunkView,
>
    decreases entries.len(),
{
    if entries.len() == 0 {
        Seq::empty()
    } else {
        vault_chunks(entries.drop_last(), config) + chunks_of(
            entries.last().0,
            frontmatter_split(entries.last().1).1,
            config,
        )
    }
}

pub open spec fn entry_views(v: Seq<(String, String)>) -> Seq<(Seq<char>, Seq<char>)> {
    v.map_values(|e: (String, String)| (e.0@, e.1@))
}

/// Chunk a list of `(relative_path, markdown_content)` pairs with the default config.
/// Pure function — no filesystem access.
pub fn parse_vault_entries(entries: &[(String, String)]) -> (r: Vec<Chunk>)
    ensures
        chunk_views(r@) == vault_chunks(entry_views(entries@), ChunkConfig {
            max_chars: 6000,
            overlap_chars: 600,
            resolve_wikilinks: true,
            min_content_chars: 50,
        }),
{
    let config = ChunkConfig::default();
    assert(config == ChunkConfig {
        max_chars: 6000,
        overlap_chars: 600,
        resolve_wikilinks: true,
        min_content_chars: 50,
    });
    parse_vault_entries_with_config(entries, &config)
}

/// Chunk a list of `(relative_path, markdown_content)` pairs.
pub fn parse_vault_entries_with_config(entries: &[(String, String)], config: &ChunkConfig) -> (r:
    Vec<Chunk>)
    ensures
        chunk_views(r@) == vault_chunks(entry_views(entries@), *config),
{
    let ghost ev = entry_views(entries@);
    let mut out: Vec<Chunk> = Vec::new();
    let mut i: usize = 0;
    assert(chunk_views(out@) =~= vault_chunks(ev.take(0), *config));
    while i < entries.len()
        invariant
            i <= entries.len(),
            ev == entry_views(entries@),
            chunk_views(out@) == vault_chunks(ev.take(i as int), *config),
        decreases entries.len() - i,
    {
        assert(ev.take(i + 1).drop_last() =~= ev.take(i as int));
        assert(ev.take(i + 1).last() == (entries@[i as int].0@, entries@[i as int].1@));
        let c = chars_of(entries[i].1.as_str());
        let (_fm, body) = strip_frontmatter_chars(&c);
        let body_s = string_of(&body);
        let mut chunks = chunk_markdown(entries[i].0.as_str(), body_s.as_str(), config);
        let ghost prev = out@;
        let ghost more = chunks@;
        out.append(&mut chunks);
        assert(out@ =~= prev + more);
        assert(chunk_views(out@) =~= chunk_views(prev) + chunk_views(more));
        i = i + 1;
    }
    assert(ev.take(entries.len() as int) =~= ev);
    out
}

} // verus!

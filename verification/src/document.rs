//! Parsing one note: frontmatter, title, tags and chunks.
use crate::chunker::{chunk_markdown, chunks_of};
use crate::frontmatter::{extract_tags_chars, frontmatter_split, strip_frontmatter_chars, tags_of, title_of};
use crate::text::{chars_of, str_views, string_of, strings_of_all};
use crate::types::{chunk_views, Chunk, ChunkConfig, ParsedDocument};
use vstd::prelude::*;

verus! {

/// Parse a markdown file into a Document + Chunks.
/// Extracts title from first H1 (or filename) and tags from YAML frontmatter.
pub fn parse_document(rel_path: &str, content: &str, config: &ChunkConfig) -> (r: (
    ParsedDocument,
    Vec<Chunk>,
))
    ensures
        ({
            let (fm, body) = frontmatter_split(content@);
            &&& r.0.source_file@ == rel_path@
            &&& r.0.full_text@ == content@
            &&& r.0.title@ == title_of(rel_path@, body)
            &&& str_views(r.0.tags@) == tags_of(fm)
            &&& chunk_views(r.1@) == chunks_of(rel_path@, body, *config)
        }),
{
    let c = chars_of(content);
    let (fm, body) = strip_frontmatter_chars(&c);
    let body_s = string_of(&body);
    let title = crate::frontmatter::extract_title(rel_path, body_s.as_str());
    let tags_v = extract_tags_chars(&fm);
    let tags = strings_of_all(&tags_v);
    let chunks = chunk_markdown(rel_path, body_s.as_str(), config);
    let doc = ParsedDocument {
        source_file: string_of(&chars_of(rel_path)),
        full_text: string_of(&c),
        title,
        tags,
    };
    (doc, chunks)
}

} // verus!

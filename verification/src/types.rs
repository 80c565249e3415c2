//! The parser's data: chunking configuration, wikilinks, chunks and parsed documents.
use crate::text::{chars_of, push_str, string_of};
use vstd::prelude::*;

verus! {

/// How markdown is cut into chunks.
#[derive(Debug, Clone)]
pub struct ChunkConfig {
    pub max_chars: usize,
    pub overlap_chars: usize,
    pub resolve_wikilinks: bool,
    /// Minimum non-whitespace characters of prose (after removing wikilinks and
    /// list markers) for a chunk to be kept. Chunks below this threshold are
    /// considered noise (e.g. link-only "Related documents" sections).
    pub min_content_chars: usize,
}

impl Default for ChunkConfig {
    fn default() -> (r: Self)
        ensures
            r.max_chars == 6000,
            r.overlap_chars == 600,
            r.resolve_wikilinks,
            r.min_content_chars == 50,
    {
        ChunkConfig {
            max_chars: 6000,  // ~1500 tokens
            overlap_chars: 600,  // ~150 tokens
            resolve_wikilinks: true,
            min_content_chars: 50,
        }
    }
}

/// A wikilink reference extracted from chunk content.
#[derive(Debug, Clone, PartialEq)]
pub struct Link {
    pub target: String,
    pub alias: Option<String>,
    pub resolved_path: Option<String>,
}

pub struct LinkView {
    pub target: Seq<char>,
    pub alias: Option<Seq<char>>,
    pub resolved_path: Option<Seq<char>>,
}

pub open spec fn opt_view(o: Option<String>) -> Option<Seq<char>> {
    match o {
        Some(s) => Some(s@),
        None => None,
    }
}

impl View for Link {
    type V = LinkView;

    open spec fn view(&self) -> LinkView {
        LinkView {
            target: self.target@,
            alias: opt_view(self.alias),
            resolved_path: opt_view(self.resolved_path),
        }
    }
}

pub open spec fn link_views(v: Seq<Link>) -> Seq<LinkView> {
    v.map_values(|l: Link| l@)
}

/// A piece of a note, ready for embedding.
#[derive(Debug, Clone)]
pub struct Chunk {
    pub note_path: String,
    pub breadcrumb: String,
    pub content: String,
    pub raw_content: String,
    pub chunk_index: u32,
    pub links: Vec<Link>,
}

impl Chunk {
    /// Text sent to the embedder: breadcrumb + content for context.
    pub fn embed_text(&self) -> (r: String)
        ensures
            r@ == self.breadcrumb@ + seq!['\n', '\n'] + self.content@,
    {
        let mut v = chars_of(self.breadcrumb.as_str());
        v.push('\n');
        v.push('\n');
        push_str(&mut v, self.content.as_str());
        string_of(&v)
    }
}

#[verifier::ext_equal]
pub struct ChunkView {
    pub note_path: Seq<char>,
    pub breadcrumb: Seq<char>,
    pub content: Seq<char>,
    pub raw_content: Seq<char>,
    pub chunk_index: u32,
    pub links: Seq<LinkView>,
}

impl View for Chunk {
    type V = ChunkView;

    open spec fn view(&self) -> ChunkView {
        ChunkView {
            note_path: self.note_path@,
            breadcrumb: self.breadcrumb@,
            content: self.content@,
            raw_content: self.raw_content@,
            chunk_index: self.chunk_index,
            links: link_views(self.links@),
        }
    }
}

pub open spec fn chunk_views(v: Seq<Chunk>) -> Seq<ChunkView> {
    v.map_values(|c: Chunk| c@)
}

/// Parsed metadata of a markdown file.
#[derive(Debug, Clone)]
pub struct ParsedDocument {
    pub source_file: String,
    pub full_text: String,
    pub title: String,
    pub tags: Vec<String>,
}

} // verus!

//! Markdown notes of an Obsidian-style vault: frontmatter, wikilinks, sections, edits and
//! chunks for embedding, with contracts proved by Verus.
pub mod analytics;
pub mod chunker;
pub mod dates;
pub mod document;
pub mod explore;
pub mod format;
pub mod frontmatter;
pub mod inputs;
pub mod link_graph;
pub mod markdown;
pub mod period;
pub mod search;
pub mod similar;
pub mod section_filter;
pub mod sections;
pub mod tag_edit;
pub mod tag_index;
pub mod tags;
pub mod text;
pub mod tree;
pub mod tree_build;
pub mod transforms;
pub mod types;
pub mod vault;
pub mod wikilinks;

pub use chunker::chunk_markdown;
pub use document::parse_document;
pub use frontmatter::{
    extract_tags, extract_title, generate_frontmatter, strip_frontmatter,
    update_existing_frontmatter_field, update_frontmatter_field,
};
pub use markdown::heading_level_to_u8;
pub use sections::{find_section_by_heading, parse_sections, Section, SectionLookupError};
pub use transforms::{
    append_content, insert_after, overwrite_body, prepend_content, replace_section, replace_text,
    MatchPosition, ReplaceError, TransformError,
};
pub use types::{Chunk, ChunkConfig, Link, ParsedDocument};
pub use vault::{parse_vault_entries, parse_vault_entries_with_config, WalkEntry};
pub use wikilinks::{extract_wikilinks, resolve_wikilinks_in_text};

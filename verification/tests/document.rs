use kajet::{chunk_markdown, parse_document, Chunk, ChunkConfig};

fn default_config() -> ChunkConfig {
    ChunkConfig {
        min_content_chars: 0,
        ..ChunkConfig::default()
    }
}

#[test]
fn chunk_embed_text_format() {
    let chunk = Chunk {
        note_path: "note.md".to_string(),
        breadcrumb: "note.md > Intro".to_string(),
        content: "Hello world".to_string(),
        raw_content: "Hello world".to_string(),
        chunk_index: 0,
        links: vec![],
    };
    assert_eq!(chunk.embed_text(), "note.md > Intro\n\nHello world");
}

#[test]
fn frontmatter_stripped() {
    let md = "---\ntags:\n  - rust\n  - programming\n---\n# Title\n\nBody text";
    let (doc, chunks) = parse_document("note.md", md, &default_config());
    assert_eq!(doc.tags, vec!["rust", "programming"]);
    assert_eq!(doc.title, "Title");
    assert_eq!(chunks.len(), 1);
    assert_eq!(chunks[0].content, "Body text");
}

#[test]
fn frontmatter_inline_tags() {
    let md = "---\ntags: [rust, programming]\n---\n# Hello\n\nContent";
    let (doc, _) = parse_document("note.md", md, &default_config());
    assert_eq!(doc.tags, vec!["rust", "programming"]);
}

#[test]
fn title_from_h1() {
    let md = "# My Title\n\nSome text";
    let (doc, _) = parse_document("note.md", md, &default_config());
    assert_eq!(doc.title, "My Title");
}

#[test]
fn title_fallback_to_filename() {
    let md = "Just some text without a heading";
    let (doc, _) = parse_document("my-note.md", md, &default_config());
    assert_eq!(doc.title, "my-note");
}

#[test]
fn parse_document_full_text_preserved() {
    let md = "---\ntags: [test]\n---\n# Title\n\nBody";
    let (doc, _) = parse_document("note.md", md, &default_config());
    assert_eq!(doc.full_text, md);
    assert_eq!(doc.source_file, "note.md");
}

#[test]
fn no_frontmatter() {
    let md = "# Title\n\nBody text";
    let (doc, chunks) = parse_document("note.md", md, &default_config());
    assert!(doc.tags.is_empty());
    assert_eq!(doc.title, "Title");
    assert_eq!(chunks.len(), 1);
}

#[test]
fn polish_frontmatter_and_headings() {
    let md = "---\ntags: [współpraca, działalność]\n---\n# Łódź — miasto włókniarzy\n\n## Główne zabytki\n\nPałac Izraela Poznańskiego to największy pałac przemysłowca w Europie.\n";
    let chunks = chunk_markdown("łódź.md", md, &ChunkConfig::default());
    assert!(!chunks.is_empty());
    assert!(chunks[0].breadcrumb.contains("Łódź"));
    assert!(!chunks[0].content.contains("tags:"));
    assert!(chunks.iter().any(|c| c.content.contains("Poznańskiego")));
    let (doc, _) = parse_document("łódź.md", md, &ChunkConfig::default());
    assert!(doc.tags.contains(&"współpraca".to_string()));
    assert!(doc.tags.contains(&"działalność".to_string()));
    assert!(doc.title.contains("Łódź"));
}


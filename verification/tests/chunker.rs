use pulldown_cmark::HeadingLevel;
use kajet::chunk_markdown;
use kajet::heading_level_to_u8;
use kajet::ChunkConfig;

fn default_config() -> ChunkConfig {
    ChunkConfig {
        min_content_chars: 0, // disable filtering for legacy tests
        ..ChunkConfig::default()
    }
}

#[test]
fn chunk_markdown_plain_text_no_headings() {
    let chunks = chunk_markdown("note.md", "Just some plain text.", &default_config());
    assert_eq!(chunks.len(), 1);
    assert_eq!(chunks[0].breadcrumb, "note.md");
    assert_eq!(chunks[0].content, "Just some plain text.");
}

#[test]
fn chunk_markdown_empty_file() {
    let chunks = chunk_markdown("empty.md", "", &default_config());
    assert!(chunks.is_empty());
}

#[test]
fn chunk_markdown_only_headings_no_content() {
    let chunks = chunk_markdown("note.md", "# Title\n## Section\n", &default_config());
    assert!(chunks.is_empty());
}

#[test]
fn chunk_markdown_single_heading_with_content() {
    let md = "# Title\n\nSome content under the title.";
    let chunks = chunk_markdown("note.md", md, &default_config());
    assert_eq!(chunks.len(), 1);
    assert_eq!(chunks[0].breadcrumb, "note.md > Title");
    assert_eq!(chunks[0].content, "Some content under the title.");
}

    #[test]
    fn chunk_markdown_nested_headings() {
        let md = "\
# H1

Text under H1

## H2

Text under H2

### H3

Text under H3
";
        let chunks = chunk_markdown("note.md", md, &default_config());
        assert_eq!(chunks.len(), 3);

        assert_eq!(chunks[0].breadcrumb, "note.md > H1");
        assert_eq!(chunks[0].content, "Text under H1");

        assert_eq!(chunks[1].breadcrumb, "note.md > H1 > H2");
        assert_eq!(chunks[1].content, "Text under H2");

        assert_eq!(chunks[2].breadcrumb, "note.md > H1 > H2 > H3");
        assert_eq!(chunks[2].content, "Text under H3");
    }

    #[test]
    fn chunk_markdown_heading_level_reset() {
        let md = "\
# H1

Text A

## H2

Text B

# Another H1

Text C
";
        let chunks = chunk_markdown("note.md", md, &default_config());
        assert_eq!(chunks.len(), 3);
        assert_eq!(chunks[2].breadcrumb, "note.md > Another H1");
    }

    #[test]
    fn chunk_markdown_text_before_first_heading() {
        let md = "\
Preamble text

# Title

Body text
";
        let chunks = chunk_markdown("note.md", md, &default_config());
        assert_eq!(chunks.len(), 2);
        assert_eq!(chunks[0].breadcrumb, "note.md");
        assert_eq!(chunks[0].content, "Preamble text");
        assert_eq!(chunks[1].breadcrumb, "note.md > Title");
    }

#[test]
fn chunk_index_increments() {
    let md = "# A\n\nText A\n\n## B\n\nText B\n\n# C\n\nText C\n";
    let chunks = chunk_markdown("note.md", md, &default_config());
    assert_eq!(chunks.len(), 3);
    assert_eq!(chunks[0].chunk_index, 0);
    assert_eq!(chunks[1].chunk_index, 1);
    assert_eq!(chunks[2].chunk_index, 2);
}

#[test]
fn large_section_is_split() {
    let config = ChunkConfig {
        max_chars: 100,
        overlap_chars: 20,
        resolve_wikilinks: true,
        min_content_chars: 0,
    };
    let paragraphs: Vec<String> = (0..10)
        .map(|i| format!("Paragraph {} with some content to fill space.", i))
        .collect();
    let md = format!("# Title\n\n{}", paragraphs.join("\n\n"));
    let chunks = chunk_markdown("note.md", &md, &config);
    assert!(chunks.len() > 1, "Should split into multiple chunks");
    for chunk in &chunks {
        assert!(
            chunk.content.len() <= config.max_chars + config.overlap_chars,
            "Chunk should not vastly exceed max_chars"
        );
    }
}

#[test]
fn code_blocks_not_split() {
    let config = ChunkConfig {
        max_chars: 100,
        overlap_chars: 20,
        resolve_wikilinks: true,
        min_content_chars: 0,
    };
    let code_block = "```rust\nfn main() {\n    println!(\"hello\");\n    let x = 42;\n    let y = x + 1;\n}\n```";
    let md = format!("# Code\n\n{}", code_block);
    let chunks = chunk_markdown("note.md", &md, &config);
    assert_eq!(chunks.len(), 1);
    assert!(chunks[0].content.contains("fn main()"));
    assert!(chunks[0].content.contains("let y = x + 1"));
}

#[test]
fn heading_level_maps_correctly() {
    assert_eq!(heading_level_to_u8(HeadingLevel::H1), 1);
    assert_eq!(heading_level_to_u8(HeadingLevel::H2), 2);
    assert_eq!(heading_level_to_u8(HeadingLevel::H3), 3);
    assert_eq!(heading_level_to_u8(HeadingLevel::H4), 4);
    assert_eq!(heading_level_to_u8(HeadingLevel::H5), 5);
    assert_eq!(heading_level_to_u8(HeadingLevel::H6), 6);
}

#[test]
fn overlap_produces_shared_content() {
    let config = ChunkConfig {
        max_chars: 50,
        overlap_chars: 20,
        resolve_wikilinks: true,
        min_content_chars: 0,
    };
    let paragraphs: Vec<String> = (0..5).map(|i| format!("Para {} with text.", i)).collect();
    let md = format!("# Title\n\n{}", paragraphs.join("\n\n"));
    let chunks = chunk_markdown("note.md", &md, &config);
    if chunks.len() >= 2 {
        let tail_start = chunks[0]
            .content
            .floor_char_boundary(chunks[0].content.len().saturating_sub(10));
        let end_of_first = &chunks[0].content[tail_start..];
        assert!(chunks.len() >= 2);
        let _ = end_of_first;
    }
}

#[test]
fn polish_text_chunking() {
    let md = "# Obszary Wsparcia\n\nWsparcie w ramach Grantu może być wykorzystane na realizację działań w odpowiedzi na zdiagnozowane potrzeby Grantobiorcy, szczegółowo opisanych we Wniosku o powierzenie Grantu.\n\n## Współpraca\n\nZłożoność zagadnień wymaga współdziałania różnych instytucji.\n";
    let chunks = chunk_markdown("notatka.md", md, &ChunkConfig::default());
    assert!(!chunks.is_empty());
    assert!(chunks[0].content.contains("Wsparcie"));
    assert!(chunks[0].breadcrumb.contains("Obszary Wsparcia"));
}

#[test]
fn polish_text_large_section_overlap() {
    let config = ChunkConfig {
        max_chars: 60,
        overlap_chars: 20,
        resolve_wikilinks: true,
        min_content_chars: 0,
    };
    let paragraphs = vec![
        "Zażółć gęślą jaźń, to zdanie testowe numer jeden.",
        "Współpraca między różnymi instytucjami jest kluczowa.",
        "Działalność organizacji pozarządowych wspiera społeczność.",
        "Świętokrzyskie góry są piękne jesienią i wiosną.",
    ];
    let md = format!("# Tytuł\n\n{}", paragraphs.join("\n\n"));
    let chunks = chunk_markdown("polski.md", &md, &config);
    assert!(
        chunks.len() > 1,
        "Polish text should split into multiple chunks"
    );
    for chunk in &chunks {
        assert!(!chunk.content.trim().is_empty());
    }
}

#[test]
fn chunk_has_raw_content_and_links() {
    let md = "# Title\n\nSee [[Note]] and [[Target|alias]] here.";
    let chunks = chunk_markdown("note.md", md, &default_config());
    assert_eq!(chunks.len(), 1);
    assert_eq!(
        chunks[0].raw_content,
        "See [[Note]] and [[Target|alias]] here."
    );
    assert_eq!(chunks[0].content, "See Note and alias here.");
    assert_eq!(chunks[0].links.len(), 2);
    assert_eq!(chunks[0].links[0].target, "Note");
    assert_eq!(chunks[0].links[1].target, "Target");
    assert_eq!(chunks[0].links[1].alias, Some("alias".to_string()));
}

#[test]
fn resolve_wikilinks_config_false() {
    let config = ChunkConfig {
        max_chars: 6000,
        overlap_chars: 600,
        resolve_wikilinks: false,
        min_content_chars: 0,
    };
    let md = "# Title\n\nSee [[Note]] here.";
    let chunks = chunk_markdown("note.md", md, &config);
    assert_eq!(chunks[0].content, "See [[Note]] here.");
    assert_eq!(chunks[0].raw_content, "See [[Note]] here.");
}

    #[test]
    fn filter_drops_link_only_section() {
        let md = "\
# Workplace
Lorem ipsum dolor sit amet, consectetur adipiscing elit.

## Related documents
- [[Topic A]]
- [[Topic B with details]]
- [[Topic C]]
";
        let config = ChunkConfig {
            min_content_chars: 30,
            ..ChunkConfig::default()
        };
        let chunks = chunk_markdown("workplace.md", md, &config);
        assert_eq!(chunks.len(), 1, "link-only section should be filtered out");
        assert!(chunks[0].content.contains("Lorem ipsum"));
    }

    #[test]
    fn filter_keeps_prose_with_links() {
        let md = "\
# Workplace
Lorem ipsum dolor sit amet, consectetur adipiscing elit ([[Topic A|alias]]).
";
        let chunks = chunk_markdown("workplace.md", md, &ChunkConfig::default());
        assert_eq!(chunks.len(), 1);
    }

    #[test]
    fn filter_disabled_when_zero() {
        let md = "\
# Links
- [[A]]
- [[B]]
";
        let config = ChunkConfig {
            min_content_chars: 0,
            ..ChunkConfig::default()
        };
        let chunks = chunk_markdown("note.md", md, &config);
        assert_eq!(
            chunks.len(),
            1,
            "filter should be disabled with min_content_chars=0"
        );
    }

    #[test]
    fn chunk_index_skips_filtered_chunks() {
        let md = "\
# Good
This is real content with enough prose to pass the filter easily.

## Links only
- [[A]]
- [[B]]

# Also good
Another section with meaningful content that should be indexed.
";
        let config = ChunkConfig {
            min_content_chars: 30,
            ..ChunkConfig::default()
        };
        let chunks = chunk_markdown("note.md", md, &config);
        assert_eq!(chunks.len(), 2);
        assert_eq!(chunks[0].chunk_index, 0);
        assert_eq!(chunks[1].chunk_index, 1);
    }

    #[test]
    fn changelog_section_filtered() {
        let md = "\
# System zarządzania

System priorytetyzacji to automatyczna metoda oceny ważności zadań.
Przejawia się rankingowaniem działań według wartości biznesowej.

## Historia zmian
- 2026-02-06: Utworzenie dokumentu
- 2026-02-14 00:15: aktualizacja po spotkaniu zespołu
";
        let chunks = chunk_markdown("system.md", md, &ChunkConfig::default());
        assert_eq!(chunks.len(), 1, "changelog section should be filtered out");
        assert!(chunks[0].content.contains("System priorytetyzacji"));
        assert_eq!(chunks[0].chunk_index, 0);
    }

    #[test]
    fn changelog_with_wikilinked_dates_filtered() {
        let md = "\
# Temat

Treść merytoryczna z wystarczającą ilością tekstu do embedowania.

## Historia zmian
- [[2026-01-31]]: pierwsze rozpoznanie tej części
- [[2026-02-06]]: aktualizacja po spotkaniu
";
        let chunks = chunk_markdown("temat.md", md, &ChunkConfig::default());
        assert_eq!(chunks.len(), 1);
        assert!(!chunks[0].content.contains("2026"));
    }

    #[test]
    fn links_with_comments_kept() {
        let md = "\
# Moduł systemu

Opis modułu w kontekście architektury. To jest ważny moduł odpowiedzialny za walidację.

## Powiązania
- [[Zespół]] - delegacja uprawnień, źródło decyzji o poziomie dostępu
- [[Projekt Alpha]] - historia migracji bez testów regresji, bez dokumentacji
- [[Wzorzec legacy systems]] - akceptowanie architektury gdzie nasze wymogi nie są priorytetem
";
        let chunks = chunk_markdown("modul.md", md, &ChunkConfig::default());
        assert_eq!(
            chunks.len(),
            2,
            "Powiazania with prose comments should be kept"
        );
        assert!(chunks[1].content.contains("delegacja uprawnień"));
    }

    #[test]
    fn full_template_document_filters_boilerplate() {
        let md = "\
# Proces skalowania

Proces skalowania to automatyczna reakcja na wzrost obciążenia systemu.
Przejawia się uruchamianiem dodatkowych instancji aplikacji.

## Jak się przejawia

Monitorowanie metryk wydajności, alokacja zasobów, balansowanie obciążenia.

## Powiązane dokumenty
- [[Infrastruktura]]
- [[Projekt Alpha]]
- [[Wzorzec microservices]]

## Historia zmian
- 2026-02-06: Utworzenie dokumentu
- 2026-02-14: Rozbudowa po przeglądzie architektury
";
        let chunks = chunk_markdown("proces.md", md, &ChunkConfig::default());
        assert_eq!(
            chunks.len(),
            2,
            "Only 2 content sections should survive: intro + Jak sie przejawia"
        );
        assert!(chunks[0].content.contains("Proces skalowania"));
        assert!(
            chunks[1]
                .content
                .contains("Monitorowanie metryk wydajności")
        );
        assert_eq!(chunks[0].chunk_index, 0);
        assert_eq!(chunks[1].chunk_index, 1);
    }


fn chars(s: &str) -> Vec<char> {
    s.chars().collect()
}

fn text(v: &[char]) -> String {
    v.iter().collect()
}

#[test]
fn a_code_block_with_blank_lines_is_one_paragraph() {
    let src = "```rust\nfn main() {\n\n    let x = 1;\n}\n```";
    let paras = kajet::chunker::split_preserving_code_blocks(&chars(src));
    assert_eq!(paras.len(), 1);
    assert_eq!(text(&paras[0]), src);
}

#[test]
fn consecutive_pieces_share_the_carried_tail() {
    let config = ChunkConfig { max_chars: 50, overlap_chars: 20, resolve_wikilinks: true, min_content_chars: 0 };
    let paragraphs: Vec<String> = (0..5).map(|i| format!("Para {} with text.", i)).collect();
    let pieces = kajet::chunker::split_large_section(&chars(&paragraphs.join("\n\n")), &config);
    assert!(pieces.len() >= 2);
    for w in pieces.windows(2) {
        let (a, b) = (text(&w[0]), text(&w[1]));
        let shared = (1..=a.len().min(b.len())).rev().find(|&n| a.is_char_boundary(a.len() - n) && b.is_char_boundary(n) && a[a.len() - n..] == b[..n]);
        assert!(shared.is_some(), "{a:?} and {b:?} share no text");
    }
}

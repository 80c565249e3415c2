# kajet

A library for Markdown notes of an Obsidian-style vault, written in Verus: every function
of `src/` carries a contract that Verus proves, except the wrappers around outside code
listed below, whose contracts are trusted.

- `text` — character sequences: whitespace, trimming, searching, lines, pieces, numbers.
- `markdown` — pulldown-cmark events as plain values, and the text they carry.
- `frontmatter` — splitting off the YAML frontmatter, title, tags, dates, generating and
  updating fields.
- `wikilinks` — `[[target|alias]]` links: extracting and resolving them.
- `sections`, `section_filter` — heading sections and the sections left out of chunks.
- `chunker`, `types`, `document`, `vault` — chunks for embedding, a parsed note, a vault.
- `transforms` — edits of a note: append, prepend, overwrite, replace a section or a text,
  insert after an anchor.
- `tag_edit`, `tags` — adding and removing frontmatter tags, matching tags.
- `tag_index` — which notes lie in a folder; which notes carry each tag, ranked; listing tags;
  browsing by tags.
- `link_graph` — the links between notes, ranked neighbors, and breadth-first exploration
  from one note into a tree of connections with the sections the links come from.
- `period` — tag counts, new tags, longest and shortest notes and days without entries of a
  period.
- `search` — a search request and its date range, how many results to fetch, and filtering
  results by folder, dates and tags.
- `similar` — how many hits a similar-notes search fetches, its request, and leaving the source
  note and its linked notes out of the hits.
- `tree`, `tree_build` — the folder tree of a vault: building, counting, sorting, trimming.
- `dates` — dates from ISO strings and Polish or English keywords, and day numbers.
- `inputs`, `explore`, `format`, `analytics` — requests of the note tools and their answers.

`app/` holds what touches the file system, the clock, the index and floating point: walking a
vault, reading its notes, today's date, reading stored chunks while exploring, fetching hits,
float timestamps and thresholds, and `Display` for the library's errors.

Laws of the library are public proof functions whose names start with `law_`.

## Trusted wrappers

These functions are marked `#[verifier::external_body]`: Verus believes their contracts, which
restate what the outside crate or std documents, and does not read their bodies.

- `dates`: `parse_iso_date`, `minus_days`, `plus_days`, `weekday_index`, `timestamp_at`,
  `format_date` (chrono dates).
- `period`: `utc_date_at`, `ymd_text_of` (chrono timestamps and formatting).
- `frontmatter`: `parse_rfc3339_seconds`, `parse_naive_datetime_seconds` (chrono),
  `file_stem` (std `Path`).
- `markdown`: `parse_markdown`, `heading_level_to_u8` (pulldown-cmark); the type
  `pulldown_cmark::HeadingLevel` is declared to Verus as opaque.
- `section_filter`: `regex_is_match` (regex).
- `tag_edit`: `read_yaml_tags`, `write_yaml_tags` (serde_yaml).
- `tags`: `to_lowercase` (std `str::to_lowercase`).
- `text`: `string_of` (std `String: FromIterator<char>`).
- `tree_build`: `file_name` (std `Path`).

Results that take pages to state are named by spec functions without a body
(`iso_date_of`, `date_minus_days`, `date_plus_days`, `markdown_events`, `utc_date`,
`path_file_stem`, `rfc3339_seconds`, `naive_datetime_seconds`, `regex_match`, `yaml_read`,
`yaml_write`, `lowercase`, `path_file_name`).

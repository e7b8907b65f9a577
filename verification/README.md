# rusty-notes

A Markdown notes editor whose core is a library verified with Verus.

## Layout

- `src/` — the verified library `rusty_notes`. Every function carries a
  `requires`/`ensures` contract over mathematical models (byte and char
  sequences, spec functions), and Verus proves the code against it.
  - `text.rs` — byte-level string helpers shared by the other modules, and
    the trusted wrappers around `str::to_lowercase`, `String::from_utf8` and
    `Path::file_stem`.
  - `markdown.rs` — front matter, `[[wikilink]]` extraction, rewriting
    wikilinks into Markdown links, and wikilink resolution.
  - `editor.rs` — byte <-> (line, column) index and Markdown highlighting
    into spans that tile the text.
  - `editor_links.rs` — the wikilink under a cursor position.
  - `glossary.rs` — the glossary: term patterns, an Aho-Corasick search
    (through the `aho-corasick` crate), protected ranges (code, links) and
    the intersection of glossary hits with editor spans.
  - `code_highlight.rs` — code block colors through `syntect`; the merging
    of syntect's pieces into spans is verified.
  - `search.rs` — full-text search and quick-switcher scoring and ranking.
  - `settings.rs`, `einstellungen.rs` — actions, keybinds and their text
    form, keybind tables, and the settings dirty-tracking.
  - `settings_file.rs` — the settings file's JSON (through `serde_json`)
    and the settings it gives, older German field names included; writing
    them back, and the dirty flag.
  - `vault.rs` — which files are notes, acceptable note paths, note order,
    and the decisions between disk steps (content source, cache freshness,
    buffers following renames).
  - `preview_sync.rs` — the block structure of a note body for sync
    scrolling, and the texts of its lines that the preview measures.
  - `i18n.rs` — English and German UI strings and status messages.
- `tests/` — tests of the library.
- `app/` — the desktop program around the library: window (eframe/egui),
  settings files (serde_json, dirs), the vault on disk (walkdir), and the
  measuring of preview blocks in floating point.

## Checking

The laws of the library are public proof functions (for example
`settings::lemma_set_then_get`, `editor::lemma_byte_of_line_col`,
`markdown::lemma_md_links_without_wikilinks`) or clauses of the functions'
contracts.

use rusty_notes::editor::{highlight, LineCol, LineIndex, Tok};

#[test]
fn line_index_maps_offsets_both_ways() {
    let text = "ab\ncd\nef";
    let ix = LineIndex::new(text);
    assert_eq!(ix.line_count(), 3);
    assert_eq!(ix.line_start(0), 0);
    assert_eq!(ix.line_start(1), 3);
    assert_eq!(ix.line_start(2), 6);

    let lc = ix.line_col_of(4); // the 'd'
    assert_eq!(lc, LineCol { line: 1, col: 1 });
    assert_eq!(ix.byte_of(LineCol { line: 1, col: 1 }), 4);
}

#[test]
fn line_index_handles_empty_text_and_clamps() {
    let ix = LineIndex::new("");
    assert_eq!(ix.line_count(), 1);
    assert_eq!(ix.line_col_of(999), LineCol { line: 0, col: 0 });

    let ix2 = LineIndex::new("one\n");
    assert_eq!(ix2.line_count(), 2); // trailing newline opens a new last line
    assert_eq!(ix2.byte_of(LineCol { line: 99, col: 99 }), 4);
}

#[test]
fn highlight_covers_whole_document_exactly_once() {
    let text = "---\ntitle: t\n---\n\n# Head\n\nSome **bold** and `code`.\n\n```rust\nlet x = 1;\n```\n\n> quote\n\n- item\n[link](http://x)\n";
    let spans = highlight(text);
    assert!(!spans.is_empty());
    let mut cursor = 0usize;
    for s in &spans {
        assert_eq!(s.start, cursor, "gap/overlap at {}", s.start);
        assert!(s.end > s.start);
        cursor = s.end;
    }
    assert_eq!(cursor, text.len());
}

#[test]
fn highlight_recognizes_major_constructs() {
    let text = "# Title\n\n**bold** `code` > not-quote\n- item\n[[Wiki]] plain\n";
    let spans = highlight(text);
    let has = |t: Tok| spans.iter().any(|s| s.tok == t && &text[s.start..s.end] != "");
    assert!(has(Tok::Heading));
    assert!(has(Tok::BoldItalic));
    assert!(has(Tok::InlineCode));
    assert!(has(Tok::ListMarker));

    let head = spans.iter().find(|s| s.tok == Tok::Heading).unwrap();
    assert_eq!(&text[head.start..head.end], "# Title");
}

#[test]
fn highlight_front_matter_block() {
    let text = "---\ntitle: x\n---\nbody";
    let spans = highlight(text);
    let fm: Vec<_> = spans.iter().filter(|s| s.tok == Tok::FrontMatter).collect();
    assert!(!fm.is_empty());
    assert_eq!(&text[fm[0].start..fm[0].end], "---\ntitle: x\n---");
}

#[test]
fn highlight_code_block_content() {
    let text = "```js\nvar x = 1;\n```\nafter";
    let spans = highlight(text);
    let code: Vec<_> = spans
        .iter()
        .filter(|s| s.tok == Tok::CodeBlock && text[s.start..s.end].contains("var"))
        .collect();
    assert_eq!(code.len(), 1);
}

#[test]
fn alle_ueberschriftsebenen_werden_gehighlightet() {
    let text = "# H1\n## H2\n### H3\n#### H4\n##### H5\n###### H6\n";
    let spans = highlight(text);
    for level in 1..=6usize {
        let prefix = format!("{} H{}", "#".repeat(level), level);
        assert!(
            spans.iter().any(|s| s.tok == Tok::Heading
                && prefix.starts_with(&text[s.start..s.end].trim_end())
                && text[s.start..s.end].starts_with('#')),
            "heading level {} not highlighted",
            level
        );
    }
}

#[test]
fn snake_case_ist_keine_betonung() {
    let text = "var snake_case_name\n";
    let spans = highlight(text);
    assert!(
        !spans.iter().any(|s| s.tok == Tok::BoldItalic),
        "'snake_case_name' is no emphasis"
    );
}

#[test]
fn betonung_muss_wortgrenzen_respektieren() {
    let text = "a_b_c und *echt* und **fett**\n";
    let spans = highlight(text);
    let bold: Vec<_> = spans
        .iter()
        .filter(|s| s.tok == Tok::BoldItalic)
        .map(|s| &text[s.start..s.end])
        .collect();
    assert_eq!(bold, vec!["*echt*", "**fett**"]);
}

#[test]
fn glossar_eintraege_nach_rename_aktualisiert() {}

#[test]
fn byte_of_and_line_col_of_are_inverse_on_every_offset() {
    let text = "alpha\n\nbeta gamma\nä\n";
    let ix = LineIndex::new(text);
    for b in 0..=text.len() {
        let lc = ix.line_col_of(b);
        assert_eq!(ix.byte_of(lc), b);
    }
}

#[test]
fn highlight_of_empty_text_is_empty() {
    assert!(highlight("").is_empty());
}

#[test]
fn seven_hashes_are_no_heading() {
    let text = "####### x\n";
    let spans = highlight(text);
    assert!(!spans.iter().any(|s| s.tok == Tok::Heading));
}

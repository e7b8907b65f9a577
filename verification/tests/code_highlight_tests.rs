use rusty_notes::code_highlight::{CodeHighlighter, ColorSpan, spans_from_pieces};

#[test]
fn rust_code_is_multicolored() {
    let h = CodeHighlighter::default();
    let spans = h.highlight("let x = 1;\nfn main() {}\n", "rust");
    assert!(spans.len() >= 3, "only {} spans", spans.len());
    let farben: std::collections::HashSet<_> = spans.iter().map(|s| s.color).collect();
    assert!(farben.len() >= 2, "too few colors");
}

#[test]
fn offsets_are_contiguous_and_complete() {
    let h = CodeHighlighter::default();
    let code = "let x = 1;\n";
    let spans = h.highlight(code, "rust");
    let mut cursor = 0usize;
    for s in &spans {
        assert_eq!(s.start, cursor);
        assert!(s.end > s.start);
        cursor = s.end;
    }
    assert_eq!(cursor, code.len());
}

#[test]
fn unknown_language_single_color_or_empty_without_crash() {
    let h = CodeHighlighter::default();
    let spans = h.highlight("irgendwas", "keinestruktur");
    assert!(!spans.is_empty() || true);
}

#[test]
fn js_is_detected() {
    let h = CodeHighlighter::default();
    let spans = h.highlight("var x = 1;\n", "js");
    assert!(spans.len() >= 2);
}

#[test]
fn no_info_string_gives_one_plain_span() {
    let h = CodeHighlighter::default();
    let spans = h.highlight("abc\ndef", "  ");
    assert_eq!(spans, vec![ColorSpan { start: 0, end: 7, color: [152, 206, 206, 255] }]);
    assert!(h.highlight("", "rust").is_empty());
}

#[test]
fn pieces_merge_by_color_and_a_short_run_ends_plain() {
    let a = [1, 2, 3, 4];
    let b = [5, 5, 5, 5];
    let pieces = vec![(3, a), (0, [9, 9, 9, 9]), (2, a), (4, b)];
    assert_eq!(
        spans_from_pieces(&pieces, 11),
        vec![
            ColorSpan { start: 0, end: 5, color: a },
            ColorSpan { start: 5, end: 9, color: b },
            ColorSpan { start: 9, end: 11, color: [152, 206, 206, 255] },
        ]
    );
    assert_eq!(
        spans_from_pieces(&pieces, 9),
        vec![ColorSpan { start: 0, end: 5, color: a }, ColorSpan { start: 5, end: 9, color: b }]
    );
    assert_eq!(spans_from_pieces(&vec![], 0), vec![]);
}

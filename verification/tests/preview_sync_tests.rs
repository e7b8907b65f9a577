use rusty_notes::preview_sync::{
    fence_marker, hash_text, heading_text, line_offsets, quote_text, split_blocks, split_images, words_joined,
    Block,
};

#[test]
fn blocks_of_a_mixed_note() {
    let md = "# Title\n\nIntro paragraph with enough words.\n\n## Two\n\n- item one\n- item two\n\n```\ncode a\ncode b\n```\n\n| a | b |\n|---|---|\n| 1 | 2 |\n\n> quoted words here\n\n---\n\nTail paragraph closes the note.\n";
    let blocks = split_blocks(md);
    assert_eq!(
        blocks,
        vec![
            Block::Heading { level: 1, line: 0 },
            Block::Blank,
            Block::Paragraph { lines: vec![2] },
            Block::Blank,
            Block::Heading { level: 2, line: 4 },
            Block::Blank,
            Block::List { lines: vec![6, 7] },
            Block::Blank,
            Block::Code { lines: vec![9, 10, 11, 12] },
            Block::Blank,
            Block::Table { lines: vec![14, 15, 16] },
            Block::Blank,
            Block::Quote { lines: vec![18] },
            Block::Blank,
            Block::Rule { line: 20 },
            Block::Blank,
            Block::Paragraph { lines: vec![22] },
            Block::Blank,
        ]
    );
}

#[test]
fn images_indented_code_and_paragraph_runs() {
    let md = "![alt](img.png)\n\n    code\n    more\nnext\nline two\n- item";
    let blocks = split_blocks(md);
    assert_eq!(
        blocks,
        vec![
            Block::Image { lines: vec![0] },
            Block::Blank,
            Block::Code { lines: vec![2, 3] },
            Block::Paragraph { lines: vec![4, 5] },
            Block::List { lines: vec![6] },
        ]
    );
}

#[test]
fn pipes_without_delimiter_are_text_and_fences_may_stay_open() {
    let blocks = split_blocks("| a |\n| b |\n~~~\nx");
    assert_eq!(
        blocks,
        vec![
            Block::Paragraph { lines: vec![0] },
            Block::Paragraph { lines: vec![1] },
            Block::Code { lines: vec![2, 3] },
        ]
    );
    assert_eq!(split_blocks(""), vec![Block::Blank]);
    assert_eq!(split_blocks("####### seven"), vec![Block::Paragraph { lines: vec![0] }]);
    assert_eq!(split_blocks("* * *"), vec![Block::Rule { line: 0 }]);
    assert_eq!(split_blocks("> - quoted item"), vec![Block::List { lines: vec![0] }]);
    assert_eq!(split_blocks("12. twelve"), vec![Block::List { lines: vec![0] }]);
}

#[test]
fn hash_is_stable_for_equal_text() {
    assert_eq!(hash_text("abc"), hash_text("abc"));
    assert_ne!(hash_text("abc"), hash_text("abd"));
}

#[test]
fn images_are_cut_out_of_a_line() {
    assert_eq!(split_images("plain text"), ("plain text".to_string(), 0));
    assert_eq!(split_images("![a](x.png)"), (" ".to_string(), 1));
    assert_eq!(
        split_images("see ![a](x.png) and ![b](y.png)!"),
        ("see   and  !".to_string(), 2)
    );
    // An unclosed image stays text.
    assert_eq!(split_images("x ![a](y"), ("x ![a](y".to_string(), 0));
    assert_eq!(split_images("![a] no link"), ("![a] no link".to_string(), 0));
}

#[test]
fn line_offsets_follow_newlines() {
    assert_eq!(line_offsets(""), vec![0]);
    assert_eq!(line_offsets("ab\ncde\n"), vec![0, 3, 7]);
    assert_eq!(line_offsets("\n\nx"), vec![0, 1, 2]);
}

#[test]
fn texts_the_preview_measures() {
    assert_eq!(heading_text("## Title  ", 2), "Title");
    assert_eq!(heading_text("#", 1), "");
    assert_eq!(heading_text("  ## X", 2), "## X");
    assert_eq!(quote_text("  > > quoted > text"), "quoted > text");
    assert_eq!(quote_text(">"), "");
    assert!(fence_marker("  ```rust"));
    assert!(fence_marker("~~~"));
    assert!(!fence_marker("``"));
    assert_eq!(words_joined("  a \t b\u{00A0}c  "), "a b c");
    assert_eq!(words_joined("   "), "");
    assert_eq!(words_joined("one"), "one");
}

use rusty_notes::search::{quick_switcher, score_stem, score_stem_checked, search_notes};

fn sample() -> Vec<(String, String)> {
    vec![
        ("a.md".into(), "# Rust\n\nfast editor\nsecond fast line\n".into()),
        ("b.md".into(), "nothing here\n".into()),
        ("sub/c.md".into(), "RUST uppercase\n".into()),
    ]
}

#[test]
fn search_is_case_insensitive_and_reports_lines() {
    let hits = search_notes(&sample(), "rust");
    assert_eq!(hits.len(), 2);
    assert_eq!(hits[0].rel, "a.md");
    assert_eq!(hits[0].line_no, 0);
    assert_eq!(hits[1].rel, "sub/c.md");
    assert_eq!(hits[1].line_no, 0);
}

#[test]
fn search_finds_multiple_lines_in_one_note() {
    let hits = search_notes(&sample(), "fast");
    assert_eq!(hits.len(), 2);
    assert_eq!(hits[0].line_no, 2);
    assert_eq!(hits[1].line_no, 3);
    assert_eq!(hits[1].line_text, "second fast line");
}

#[test]
fn search_empty_query_returns_nothing() {
    assert!(search_notes(&sample(), "").is_empty());
    assert!(search_notes(&sample(), "   ").is_empty());
}

#[test]
fn scoring_prefers_word_start_and_prefix_matches() {
    let prefix = score_stem("meeting", "mee").unwrap();
    let scattered = score_stem("some meeting", "mee").unwrap();
    assert!(prefix > scattered);

    let word_start = score_stem("daily meeting", "meet").unwrap();
    let mid_word = score_stem("unmeetable", "meet").unwrap();
    assert!(word_start > mid_word);
}

#[test]
fn scoring_is_case_insensitive_and_rejects_non_matches() {
    assert_eq!(score_stem("Meeting Notes", "MEET"), score_stem("Meeting Notes", "meet"));
    assert!(score_stem("rust", "xyz").is_none());
}

#[test]
fn switcher_ranks_best_match_first() {
    let stems = ["unrelated", "meeting", "Meeting Notes"];
    let ranked = quick_switcher(&stems, "mee");
    assert_eq!(ranked[0].rel, "meeting");
    assert!(ranked.len() >= 2);
    assert!(ranked.windows(2).all(|w| w[0].score >= w[1].score));
}

#[test]
fn switcher_empty_query_lists_everything() {
    let stems = ["b", "a"];
    let ranked = quick_switcher(&stems, "");
    assert_eq!(ranked.len(), 2);
    assert_eq!(ranked[0].rel, "a");
}

#[test]
fn exact_scores() {
    // m at start (20), e next (10), e next (10); 7 bytes / 8 = 0; prefix +15
    assert_eq!(score_stem("meeting", "mee"), Some(55));
    // first m inside "some" (5), e next (10), e after two skipped (8); 12 / 8 = 1
    assert_eq!(score_stem("some meeting", "mee"), Some(22));
    assert_eq!(score_stem("abc", "  "), Some(0));
    assert_eq!(score_stem_checked("x-y", "y"), Some(Some(20)));
}

#[test]
fn search_handles_crlf_and_trailing_text() {
    let notes = vec![("n.md".to_string(), "one\r\ntwo  \r\nthree".to_string())];
    let hits = search_notes(&notes, "T");
    assert_eq!(hits.len(), 2);
    assert_eq!(hits[0].line_text, "two");
    assert_eq!(hits[1].line_no, 2);
}

use rusty_notes::markdown::{
    extract_wikilinks, parse_front_matter, resolve_wikilink, split_front_matter,
    wikilinks_to_md_links,
};
use std::path::PathBuf;

#[test]
fn splits_yaml_front_matter_from_body() {
    let doc = "---\ntitle: My Note\ntags: [rust, gui]\n---\n\n# Heading\n";
    let (fm, body) = split_front_matter(doc);
    assert_eq!(fm.unwrap(), "title: My Note\ntags: [rust, gui]");
    assert_eq!(body, "\n# Heading\n");
}

#[test]
fn no_front_matter_returns_whole_text() {
    let doc = "# Just a note\n[[link]]\n";
    let (fm, body) = split_front_matter(doc);
    assert!(fm.is_none());
    assert_eq!(body, doc);
}

#[test]
fn unterminated_delimiter_is_not_front_matter() {
    let doc = "---\nno closing delimiter\n";
    let (fm, body) = split_front_matter(doc);
    assert!(fm.is_none());
    assert_eq!(body, doc);
}

#[test]
fn parses_title_and_inline_and_block_tags() {
    let fm = parse_front_matter("title: Hello World\ntags: [a, b]");
    assert_eq!(fm.title.as_deref(), Some("Hello World"));
    assert_eq!(fm.tags, vec!["a".to_string(), "b".to_string()]);

    let fm2 = parse_front_matter("tags:\n  - x\n  - y");
    assert_eq!(fm2.tags, vec!["x".to_string(), "y".to_string()]);
}

#[test]
fn extracts_and_normalizes_wikilinks() {
    let body = "See [[Foo]] and [[Bar/Baz|the baz]]. Not [[broken.";
    let links = extract_wikilinks(body);
    assert_eq!(links, vec!["Foo".to_string(), "Bar/Baz".to_string()]);
}

#[test]
fn wikilinks_inside_code_spans_are_ignored() {
    let body = "`[[NotALink]]` and ```\n[[AlsoNot]]\n```\nbut [[Real]] yes";
    let links = extract_wikilinks(body);
    assert_eq!(links, vec!["Real".to_string()]);
}

#[test]
fn resolves_exact_stem_before_substring() {
    let notes = [
        PathBuf::from("/v/Exact Match.md"),
        PathBuf::from("/v/Pre Exact Match Post.md"),
    ];
    let hit = resolve_wikilink(&notes, "Exact Match").unwrap();
    assert_eq!(hit, PathBuf::from("/v/Exact Match.md"));
}

#[test]
fn resolves_substring_fallback_case_insensitive() {
    let notes = [PathBuf::from("/v/Rust GUI Notes.md")];
    let hit = resolve_wikilink(&notes, "rust gui").expect("substring");
    assert_eq!(hit, PathBuf::from("/v/Rust GUI Notes.md"));
}

#[test]
fn aliases_werken_aus_front_matter_gelesen() {
    let fm = parse_front_matter("aliases: [egui, EGUI-Framework]");
    assert_eq!(fm.aliases, vec!["egui".to_string(), "EGUI-Framework".to_string()]);

    let fm2 = parse_front_matter("aliases:\n  - Erster\n  - Zweiter");
    assert_eq!(fm2.aliases, vec!["Erster".to_string(), "Zweiter".to_string()]);
}

#[test]
fn aliases_leer_ohne_angabe() {
    assert!(parse_front_matter("title: x").aliases.is_empty());
}

#[test]
fn wikilinks_werden_zu_klickbaren_md_links() {
    let text = "Siehe [[Rust GUI Notes]] und [[Rust|die Sprache]].";
    let out = wikilinks_to_md_links(text);
    assert!(out.contains("[Rust GUI Notes](<rusty-note:Rust GUI Notes>)"), "{}", out);
    assert!(out.contains("[die Sprache](<rusty-note:Rust>)"), "{}", out);
    assert!(!out.contains("[["));
}

#[test]
fn wikilink_konvertierung_touchiert_code_nicht() {
    let text = "`[[KeinLink]]` und ```\n[[AuchNicht]]\n```\naber [[Doch]].";
    let out = wikilinks_to_md_links(text);
    assert!(out.contains("`[[KeinLink]]`"));
    assert!(out.contains("[[AuchNicht]]"));
    assert!(out.contains("[Doch](<rusty-note:Doch>)"));
}

#[test]
fn text_without_wikilinks_is_unchanged() {
    let text = "plain [link](x.md) and `code` and ä ö ü\n";
    assert_eq!(wikilinks_to_md_links(text), text);
}

#[test]
fn unclosed_wikilink_is_copied() {
    assert_eq!(wikilinks_to_md_links("a [[b"), "a [[b");
    assert_eq!(wikilinks_to_md_links("[[x]] [[y"), "[x](<rusty-note:x>) [[y");
}

#[test]
fn front_matter_quotes_and_title_and_empty_items() {
    let fm = parse_front_matter("title: \"Quoted\"\ntags: [\"a\", , b]\nunknown: z");
    assert_eq!(fm.title.as_deref(), Some("Quoted"));
    assert_eq!(fm.tags, vec!["a".to_string(), "b".to_string()]);
    assert!(fm.aliases.is_empty());
    let empty = parse_front_matter("title:\n");
    assert!(empty.title.is_none());
}

#[test]
fn block_list_ends_at_next_key() {
    let fm = parse_front_matter("tags:\n- a\ntitle: T\n- b");
    assert_eq!(fm.tags, vec!["a".to_string()]);
    assert_eq!(fm.title.as_deref(), Some("T"));
}

#[test]
fn wikilink_needs_a_target() {
    assert!(extract_wikilinks("[[|x]] [[ ]] [[a|b]]").len() == 1);
    assert_eq!(extract_wikilinks("[[ spaced ]]"), vec!["spaced".to_string()]);
}

#[test]
fn blank_target_resolves_to_nothing() {
    let notes = [PathBuf::from("/v/a.md")];
    assert!(resolve_wikilink(&notes, "   ").is_none());
    assert!(resolve_wikilink(&notes, "zzz").is_none());
}

use rusty_notes::editor_links::wikilink_an;

#[test]
fn findet_link_unter_position() {
    let text = "Siehe [[Rust GUI Notes]] heute.";
    let pos = text.find("GUI").unwrap();
    let b = wikilink_an(text, pos).unwrap();
    assert_eq!(b.ziel, "Rust GUI Notes");
    assert_eq!(&text[b.start..b.end], "[[Rust GUI Notes]]");
}

#[test]
fn alias_link_liefert_ziel() {
    let text = "[[Ziel|Alias]]";
    let b = wikilink_an(text, 3).unwrap();
    assert_eq!(b.ziel, "Ziel");
    assert_eq!(&text[b.start..b.end], "[[Ziel|Alias]]");
}

#[test]
fn ausserhalb_von_links_ist_none() {
    assert!(wikilink_an("kein link hier", 4).is_none());
    assert!(wikilink_an("[[offen", 3).is_none());
    assert!(wikilink_an("", 0).is_none());
}

#[test]
fn position_am_rand_zaehlt() {
    let text = "[[A]]";
    assert!(wikilink_an(text, 0).is_some(), "on '['");
    assert!(wikilink_an(text, 4).is_some(), "on ']'");
    assert!(wikilink_an(text, 5).is_none(), "right after");
}

#[test]
fn markdown_link_wird_auch_erkannt() {
    let text = "klick [Text](Andere.md) bitte";
    let pos = text.find("Text").unwrap();
    let b = wikilink_an(text, pos).unwrap();
    assert_eq!(b.start, text.find("[Text]").unwrap());
    assert!(b.ziel == "Andere.md");
}

#[test]
fn rusty_note_scheme_is_dropped_from_markdown_link_target() {
    let text = "[Rust](<rusty-note:Rust>)";
    let b = wikilink_an(text, 2).unwrap();
    assert_eq!(b.ziel, "<rusty-note:Rust>");
    let text2 = "[Rust](rusty-note:rusty-note:Rust)";
    let b2 = wikilink_an(text2, 2).unwrap();
    assert_eq!(b2.ziel, "Rust");
    assert_eq!((b2.start, b2.end), (0, text2.len()));
}

#[test]
fn position_past_the_end_is_none() {
    assert!(wikilink_an("[[A]]", 6).is_none());
}

#[test]
fn second_wikilink_is_found() {
    let text = "[[A]] und [[B|b]]";
    let b = wikilink_an(text, 12).unwrap();
    assert_eq!(b.ziel, "B");
    assert_eq!((b.start, b.end), (10, 17));
}

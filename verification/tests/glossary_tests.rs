use rusty_notes::editor::{Span, Tok};
use rusty_notes::glossary::{verschneide, Glossar, GlossarEintrag, GlossarTreffer, Stil};
use std::path::PathBuf;

fn g(terms: &[(&str, &str)]) -> Glossar {
    Glossar::neu(
        terms
            .iter()
            .map(|(b, p)| GlossarEintrag {
                begriff: b.to_string(),
                aliase: Vec::new(),
                pfad: PathBuf::from(p),
            })
            .collect(),
        true,
    )
}

fn span(s: usize, e: usize, t: Tok) -> Span {
    Span { start: s, end: e, tok: t }
}

#[test]
fn findet_begriff_mit_position() {
    let gl = g(&[("Rust", "/v/Rust.md")]);
    let treffer = gl.finde("Lerne Rust heute.");
    assert_eq!(treffer.len(), 1);
    assert_eq!(&"Lerne Rust heute."[treffer[0].start..treffer[0].end], "Rust");
    assert_eq!(gl.eintraege()[0].begriff, "Rust");
}

#[test]
fn gross_klein_wird_ignoriert() {
    let gl = g(&[("rust", "/v/Rust.md")]);
    assert_eq!(gl.finde("RUST und ruSt").len(), 2);
}

#[test]
fn nur_ganze_woerter() {
    let gl = g(&[("Rust", "/v/Rust.md")]);
    assert_eq!(gl.finde("Trust rusty Rust").len(), 1);
}

#[test]
fn laengster_begriff_gewinnt() {
    let gl = g(&[("Note", "/v/Note.md"), ("Note Pad", "/v/Note Pad.md")]);
    let treffer = gl.finde("im Note Pad");
    assert_eq!(treffer.len(), 1);
    assert_eq!(treffer[0].index, 1, "the longer pattern 'Note Pad' wins");
}

#[test]
fn leeres_glossar_und_leerer_text() {
    let gl = g(&[]);
    assert!(gl.finde("irgendwas").is_empty());
    let gl2 = g(&[("x", "/v/x.md")]);
    assert!(gl2.finde("").is_empty());
}

#[test]
fn code_und_links_bleiben_unverlinkt() {
    let gl = g(&[("Rust", "/v/Rust.md")]);
    let text = "`Rust` und [[Rust]] und [Rust](x.md), aber Rust ja.";
    let treffer = gl.finde(text);
    assert_eq!(treffer.len(), 1, "only the free 'Rust' is a hit");
    assert_eq!(&text[treffer[0].start..treffer[0].end], "Rust");
    assert!(treffer[0].start > text.find(", aber").unwrap());
}

#[test]
fn duplikate_werden_verworfen() {
    let gl = g(&[("Rust", "/v/a.md"), ("Rust", "/v/b.md")]);
    assert_eq!(gl.eintraege().len(), 1);
    assert_eq!(gl.eintraege()[0].pfad, PathBuf::from("/v/a.md"));
}

#[test]
fn treffer_in_einem_span_teilen_diesen() {
    let spans = vec![span(0, 10, Tok::Plain)];
    let treffer = vec![GlossarTreffer { start: 3, end: 7, index: 0 }];
    let out = verschneide(&spans, &treffer, 10);
    assert_eq!(
        out,
        vec![
            (0, 3, Stil::Token(Tok::Plain)),
            (3, 7, Stil::Glossar),
            (7, 10, Stil::Token(Tok::Plain)),
        ]
    );
}

#[test]
fn treffer_ueber_mehrere_spans() {
    let spans = vec![span(0, 5, Tok::ListMarker), span(5, 12, Tok::Plain)];
    let treffer = vec![GlossarTreffer { start: 3, end: 8, index: 0 }];
    let out = verschneide(&spans, &treffer, 12);
    assert_eq!(
        out,
        vec![
            (0, 3, Stil::Token(Tok::ListMarker)),
            (3, 5, Stil::Glossar),
            (5, 8, Stil::Glossar),
            (8, 12, Stil::Token(Tok::Plain)),
        ]
    );
}

#[test]
fn ohne_treffer_bleibt_alles_gleich() {
    let spans = vec![span(0, 4, Tok::Heading), span(4, 9, Tok::Plain)];
    let out = verschneide(&spans, &[], 9);
    assert_eq!(
        out,
        vec![(0, 4, Stil::Token(Tok::Heading)), (4, 9, Stil::Token(Tok::Plain))]
    );
}

#[test]
fn mehrere_treffer_in_einem_span() {
    let spans = vec![span(0, 12, Tok::Plain)];
    let treffer = vec![
        GlossarTreffer { start: 1, end: 4, index: 0 },
        GlossarTreffer { start: 7, end: 10, index: 1 },
    ];
    let out = verschneide(&spans, &treffer, 12);
    assert_eq!(
        out,
        vec![
            (0, 1, Stil::Token(Tok::Plain)),
            (1, 4, Stil::Glossar),
            (4, 7, Stil::Token(Tok::Plain)),
            (7, 10, Stil::Glossar),
            (10, 12, Stil::Token(Tok::Plain)),
        ]
    );
}

#[test]
fn glossareintrag_hat_aliase() {
    let e = GlossarEintrag {
        begriff: "Rust".into(),
        aliase: vec!["rustlang".into(), "RustLang".into()],
        pfad: PathBuf::from("/v/Rust.md"),
    };
    assert_eq!(e.aliase.len(), 2);
}

#[test]
fn aliase_werden_als_muster_indiziert() {
    let gl = Glossar::neu(
        vec![GlossarEintrag {
            begriff: "Rust".into(),
            aliase: vec!["Ferris-Sprache".into()],
            pfad: PathBuf::from("/v/Rust.md"),
        }],
        true,
    );
    let t1 = gl.finde("Rust ist toll");
    let t2 = gl.finde("Die Ferris-Sprache ist toll");
    assert_eq!(t1.len(), 1);
    assert_eq!(t2.len(), 1);
    assert_eq!(t1[0].index, t2[0].index);
}

#[test]
fn umlaute_werden_klein_verglichen() {
    let gl = g(&[("Äpfel", "/v/a.md")]);
    let text = "ÄPFEL und äpfel";
    let t = gl.finde(text);
    assert_eq!(t.len(), 2);
    assert_eq!(&text[t[1].start..t[1].end], "äpfel");
}

#[test]
fn case_sensitive_glossary_respects_case() {
    let gl = Glossar::neu(
        vec![GlossarEintrag { begriff: " Rust ".into(), aliase: vec![], pfad: PathBuf::from("/v/r.md") }],
        false,
    );
    assert_eq!(gl.eintraege()[0].begriff, "Rust");
    assert_eq!(gl.finde("rust Rust").len(), 1);
    assert!(!gl.ist_leer());
    assert!(g(&[("  ", "/v/x.md")]).ist_leer());
}

#[test]
fn glossary_hits_feed_the_intersection() {
    let text = "# Rust\nsee Rust";
    let gl = g(&[("Rust", "/v/Rust.md")]);
    let hits = gl.finde(text);
    let spans = rusty_notes::editor::highlight(text);
    let out = verschneide(&spans, &hits, text.len());
    assert_eq!(out.first().unwrap().0, 0);
    assert_eq!(out.last().unwrap().1, text.len());
    assert_eq!(out.iter().filter(|p| p.2 == Stil::Glossar).count(), 2);
}

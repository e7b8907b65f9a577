use rusty_notes::i18n::{pick, pick_code, Language};

#[test]
fn language_codes() {
    assert_eq!(Language::from_code(" DE "), Language::De);
    assert_eq!(Language::from_code("Deutsch"), Language::De);
    assert_eq!(Language::from_code("german"), Language::De);
    assert_eq!(Language::from_code("fr"), Language::En);
    assert_eq!(Language::from_code(""), Language::En);
    assert_eq!(Language::En.code(), "en");
    assert_eq!(Language::De.code(), "de");
    assert_eq!(Language::from_code(Language::De.code()), Language::De);
    assert_eq!(Language::default(), Language::En);
}

#[test]
fn tables_follow_language() {
    assert_eq!(pick(Language::En).act_save, "Save");
    assert_eq!(pick(Language::De).act_save, "Speichern");
    assert_eq!(pick_code("de").language, Language::De);
    assert_eq!(pick_code("xx").language, Language::En);
}

#[test]
fn status_messages() {
    let en = pick(Language::En);
    let de = pick(Language::De);
    assert_eq!(en.status_vault("/v"), "Vault: /v");
    assert_eq!(en.status_created("a.md"), "Created: a.md");
    assert_eq!(de.status_created("a.md"), "Erstellt: a.md");
    assert_eq!(en.status_saved(), "Saved");
    assert_eq!(de.status_deleted(), "Notiz gelöscht");
    assert_eq!(en.status_opening("x"), "Opening x …");
    assert_eq!(de.status_reopen_failed("x", "e"), "Konnte x nicht öffnen: e");
    assert_eq!(en.status_open_failed_path("x", "e"), "Error opening x: e");
    assert_eq!(en.status_notes_count(0), "0 notes");
    assert_eq!(de.status_notes_count(1234), "1234 Notizen");
    assert_eq!(en.status_glossary_hits(7), "Glossary: 7 term(s) linked");
    assert_eq!(de.status_glossary_hits(10), "Glossar: 10 Begriff(e) verlinkt");
    assert_eq!(en.status_note_not_found(), "Note not found");
    assert_eq!(de.status_open_failed(), "Notiz konnte nicht geöffnet werden");
    assert_eq!(en.status_create_failed("e"), "Create failed: e");
    assert_eq!(de.status_rename_failed("e"), "Umbenennen fehlgeschlagen: e");
    assert_eq!(en.status_delete_failed("e"), "Delete failed: e");
    assert_eq!(de.status_save_failed("e"), "Speichern fehlgeschlagen: e");
    assert_eq!(en.status_renamed("b"), "Renamed: b");
}

#[test]
fn language_codes_read_back() {
    for l in [Language::En, Language::De] {
        assert_eq!(Language::from_code(l.code()), l);
    }
    assert_eq!(Language::from_code(" German "), Language::De);
    assert_eq!(Language::from_code("fr"), Language::En);
}

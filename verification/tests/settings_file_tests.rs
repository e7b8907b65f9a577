use rusty_notes::settings::{binding_in, default_keybinds, Action};
use rusty_notes::settings_file::{
    core_to_json,     save_due, set_last_vault_marking, settings_core_default, settings_core_from_json, settings_core_from_text, Json,
};

#[test]
fn defaults_without_a_file() {
    let c = settings_core_default();
    assert_eq!(c.last_vault, None);
    assert_eq!(c.autosave_ms, 800);
    assert!(c.preview_visible);
    assert!(c.glossary_enabled);
    assert!(c.glossary_case_insensitive);
    assert_eq!(c.glossary_max_hits, 500);
    assert_eq!(c.glossary_folders, vec!["Glossar".to_string()]);
    assert!(c.glossary_preview_list);
    assert_eq!(c.glossary_min_len, 3);
    assert!(c.sync_scroll);
    assert!(!c.editor_line_numbers);
    assert_eq!(c.language, "en");
    assert_eq!(c.keybinds, default_keybinds());
    assert_eq!(settings_core_from_text("not json"), c);
    assert_eq!(settings_core_from_text("[1, 2]"), c);
}

#[test]
fn legacy_german_config_loads_its_fields() {
    let c = settings_core_from_text(
        r#"{"glossar_aktiv": false, "vorschau_sichtbar": false, "glossar_max_treffer": 42, "sync_scroll_aktiv": false, "keybinds": [["speichern", "Ctrl+S"]]}"#,
    );
    assert!(!c.glossary_enabled);
    assert!(!c.preview_visible);
    assert_eq!(c.glossary_max_hits, 42);
    assert!(!c.sync_scroll);
    assert_eq!(c.language, "en");
    assert_eq!(c.keybinds, vec![("speichern".to_string(), "Ctrl+S".to_string())]);
    assert_eq!(binding_in(&c.keybinds, Action::Save).unwrap().key, "S");
}

#[test]
fn empty_keybinds_in_a_file_get_defaults() {
    let c = settings_core_from_text(r#"{"autosave_ms": 500, "keybinds": []}"#);
    assert_eq!(c.autosave_ms, 500);
    assert!(binding_in(&c.keybinds, Action::QuickSwitcher).is_some());
    assert!(binding_in(&c.keybinds, Action::Save).is_some());
}

#[test]
fn english_names_win_and_wrong_types_keep_defaults() {
    let c = settings_core_from_text(
        r#"{"glossary_enabled": true, "glossar_aktiv": false, "autosave_ms": "fast", "glossary_min_len": 2.5, "language": "de", "last_vault": "/notes", "glossary_folders": ["A", 3, "B"], "keybinds": [["save"], ["new_note", "Alt+N", "x"], 7]}"#,
    );
    assert!(c.glossary_enabled);
    assert_eq!(c.autosave_ms, 800);
    assert_eq!(c.glossary_min_len, 3);
    assert_eq!(c.language, "de");
    assert_eq!(c.last_vault, Some("/notes".to_string()));
    assert_eq!(c.glossary_folders, vec!["A".to_string(), "B".to_string()]);
    assert_eq!(c.keybinds, vec![("new_note".to_string(), "Alt+N".to_string())]);
}

#[test]
fn an_object_value_is_read_directly() {
    let file = Json::Obj(vec![("editor_line_numbers".to_string(), Json::Bool(true))]);
    let c = settings_core_from_json(Some(file));
    assert!(c.editor_line_numbers);
    assert_eq!(c.autosave_ms, 800);
}

#[test]
fn last_vault_marks_dirty_only_on_change() {
    let mut last: Option<String> = None;
    let mut dirty = false;
    set_last_vault_marking(&mut last, &mut dirty, None);
    assert!(!dirty);
    set_last_vault_marking(&mut last, &mut dirty, Some("/x".to_string()));
    assert!(dirty);
    assert_eq!(last, Some("/x".to_string()));
    assert!(save_due(&mut dirty));
    assert!(!dirty);
    assert!(!save_due(&mut dirty));
    set_last_vault_marking(&mut last, &mut dirty, Some("/x".to_string()));
    assert!(!dirty);
    set_last_vault_marking(&mut last, &mut dirty, None);
    assert!(dirty);
    assert_eq!(last, None);
}

#[test]
fn written_settings_read_back() {
    let mut c = settings_core_default();
    c.last_vault = Some("/notes".to_string());
    c.autosave_ms = 250;
    c.glossary_max_hits = 7;
    c.glossary_folders = vec!["G".to_string(), "H".to_string()];
    c.language = "de".to_string();
    c.keybinds = vec![("save".to_string(), "Ctrl+S".to_string())];
    c.sync_scroll = false;
    assert_eq!(settings_core_from_json(Some(core_to_json(&c))), c);
    let d = settings_core_default();
    assert_eq!(settings_core_from_json(Some(core_to_json(&d))), d);
}

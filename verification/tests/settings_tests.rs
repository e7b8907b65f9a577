use rusty_notes::i18n::{pick, Language};
use rusty_notes::settings::{
    binding_in, default_keybinds, keybinds_from_file, set_binding_in, Action, Keybind,
};

#[test]
fn keybind_roundtrip() {
    let b = Keybind::new(true, true, false, "S");
    assert_eq!(b.display_in(Language::En), "Ctrl+Shift+S");
    assert_eq!(b.display_in(Language::De), "Strg+Umschalt+S");
    assert_eq!(b.serialize(), "Ctrl+Shift+S");
    let back = Keybind::deserialize("Ctrl+Shift+S").unwrap();
    assert_eq!(back, b);
}

#[test]
fn action_key_roundtrip() {
    for a in Action::ALL {
        assert_eq!(Action::from_key(a.key()), Some(*a), "{}", a.key());
        assert!(!a.label(pick(Language::En)).is_empty());
    }
    assert!(Action::from_key("nope").is_none());
}

#[test]
fn sync_scroll_action_serializable() {
    let a = Action::ToggleSyncScroll;
    let s = a.key();
    assert_eq!(s, "toggle_sync_scroll");
    assert_eq!(Action::from_key(&s), Some(a));

    let kb = default_keybinds()
        .into_iter()
        .find(|(name, _)| name == "toggle_sync_scroll")
        .expect("default keybind for sync scroll");
    let bind = &kb.1;
    assert!(bind.contains("Ctrl") && bind.contains("Shift") && bind.contains("Y"));
}

#[test]
fn set_and_get_binding() {
    let mut kbs = default_keybinds();
    let alt = binding_in(&kbs, Action::Save).unwrap();
    assert_eq!(alt.key, "S");

    set_binding_in(&mut kbs, Action::Save, Some(Keybind::new(true, false, true, "F2")));
    let updated = binding_in(&kbs, Action::Save).unwrap();
    assert_eq!(updated.key, "F2");
    assert!(updated.alt && updated.ctrl && !updated.shift);

    set_binding_in(&mut kbs, Action::ToggleGlossary, None);
    assert!(binding_in(&kbs, Action::ToggleGlossary).is_none());
}

#[test]
fn legacy_keys_are_accepted() {
    for a in Action::ALL {
        assert_eq!(Action::from_key(a.legacy_key()), Some(*a));
    }
    let kbs = vec![("speichern".to_string(), "Ctrl+S".to_string())];
    assert_eq!(binding_in(&kbs, Action::Save).unwrap().key, "S");
}

#[test]
fn deserialize_edge_cases() {
    assert!(Keybind::deserialize("").is_none());
    assert!(Keybind::deserialize("Ctrl+").is_none());
    assert!(Keybind::deserialize("Ctrl+Shift").is_none());
    let k = Keybind::deserialize("Alt+A+B").unwrap();
    assert_eq!(k.key, "B");
    assert!(k.alt && !k.ctrl && !k.shift);
}

#[test]
fn default_keybinds_cover_every_action_in_order() {
    let kbs = default_keybinds();
    assert_eq!(kbs.len(), Action::ALL.len());
    for (i, a) in Action::ALL.iter().enumerate() {
        assert_eq!(kbs[i].0, a.key());
        assert!(binding_in(&kbs, *a).is_some());
    }
    assert_eq!(kbs[9].1, "Ctrl+ArrowDown");
}

#[test]
fn setting_a_new_action_appends() {
    let mut kbs: Vec<(String, String)> = Vec::new();
    set_binding_in(&mut kbs, Action::NewNote, Some(Keybind::new(false, false, false, "F5")));
    assert_eq!(kbs, vec![("new_note".to_string(), "F5".to_string())]);
}

#[test]
fn file_keybinds_missing_or_empty_give_defaults() {
    assert_eq!(keybinds_from_file(None), default_keybinds());
    let kb = keybinds_from_file(Some(vec![]));
    assert_eq!(kb, default_keybinds());
    assert!(binding_in(&kb, Action::QuickSwitcher).is_some());
    assert!(binding_in(&kb, Action::Save).is_some());
}

#[test]
fn file_keybinds_keep_pairs_and_drop_malformed_entries() {
    let kb = keybinds_from_file(Some(vec![
        Some(("speichern".to_string(), "Ctrl+S".to_string())),
        None,
        Some(("new_note".to_string(), "Alt+N".to_string())),
    ]));
    assert_eq!(
        kb,
        vec![
            ("speichern".to_string(), "Ctrl+S".to_string()),
            ("new_note".to_string(), "Alt+N".to_string()),
        ]
    );
    // A legacy German key still resolves.
    assert_eq!(binding_in(&kb, Action::Save).unwrap().key, "S");
    assert_eq!(binding_in(&kb, Action::NewNote), Some(Keybind::new(false, false, true, "N")));
    assert_eq!(binding_in(&kb, Action::OpenFolder), None);
}

#[test]
fn binding_one_action_keeps_the_others() {
    let mut kbs = default_keybinds();
    let before: Vec<_> = Action::ALL.iter().map(|a| binding_in(&kbs, *a)).collect();
    set_binding_in(&mut kbs, Action::Save, Some(Keybind::new(true, false, true, "F2")));
    set_binding_in(&mut kbs, Action::CloseNote, None);
    for (i, a) in Action::ALL.iter().enumerate() {
        if *a != Action::Save && *a != Action::CloseNote {
            assert_eq!(binding_in(&kbs, *a), before[i]);
        }
    }
    assert_eq!(binding_in(&kbs, Action::CloseNote), None);
}

#[test]
fn a_text_without_a_key_part_reads_as_nothing() {
    assert_eq!(Keybind::deserialize(""), None);
    assert_eq!(Keybind::deserialize("Ctrl+Shift"), None);
    assert_eq!(Keybind::deserialize("S+"), None);
    assert_eq!(Keybind::deserialize("S+Alt"), Some(Keybind::new(false, false, true, "S")));
    assert_eq!(Keybind::deserialize("A+B"), Some(Keybind::new(false, false, false, "B")));
}

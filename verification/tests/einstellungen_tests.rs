use rusty_notes::einstellungen::{EinstellungsManager, Einstellungen};

fn tmp_mgr() -> EinstellungsManager {
    EinstellungsManager::default()
}

#[test]
fn standardwerte_sind_deutsch_mit_glossar() {
    let e = Einstellungen::default();
    assert_eq!(e.sprache, "de");
    assert!(e.glossar_aktiv);
    assert!(e.glossar_case_insensitive);
    assert_eq!(e.autosave_ms, 800);
}

#[test]
fn ohne_aenderung_kein_speichern() {
    let mut m = tmp_mgr();
    assert!(!m.ist_dirty());
    assert!(m.zum_speichern().is_none(), "unchanged settings are not written");
}

#[test]
fn aenderung_markiert_dirty() {
    let mut m = tmp_mgr();
    m.markiere_dirty();
    assert!(m.ist_dirty());
    let _ = m.zum_speichern();
    assert!(!m.ist_dirty());
}

#[test]
fn last_vault_nur_bei_aenderung_dirty() {
    let mut m = tmp_mgr();
    m.setze_last_vault(None);
    assert!(!m.ist_dirty(), "same value (None) is no change");

    m.setze_last_vault(Some("/x".into()));
    assert!(m.ist_dirty(), "new value marks dirty");

    let _ = m.zum_speichern();
    m.setze_last_vault(Some("/x".into()));
    assert!(!m.ist_dirty(), "same value again is no change");
}

#[test]
fn speichern_liefert_die_werte() {
    let mut m = EinstellungsManager::mit_werten(Einstellungen { glossar_max_treffer: 42, ..Einstellungen::default() });
    assert!(!m.ist_dirty());
    m.markiere_dirty();
    assert_eq!(m.zum_speichern().unwrap().glossar_max_treffer, 42);
    assert!(m.zum_speichern().is_none());
}

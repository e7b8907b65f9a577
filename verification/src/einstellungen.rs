//! Settings kept in memory with a dirty flag: only real changes mark them
//! dirty, and only dirty settings are written on the next save.

use vstd::prelude::*;
use vstd::string::StringExecFns;

verus! {

#[derive(Debug, Clone, PartialEq)]
pub struct Einstellungen {
    pub last_vault: Option<String>,
    /// "de" or "en".
    pub sprache: String,
    pub autosave_ms: u64,
    pub vorschau_sichtbar: bool,
    pub glossar_aktiv: bool,
    pub glossar_case_insensitive: bool,
    pub glossar_max_treffer: usize,
}

/// An optional string by its characters.
pub open spec fn opt_chars(o: Option<String>) -> Option<Seq<char>> {
    match o {
        Some(s) => Some(s@),
        None => None,
    }
}

impl Default for Einstellungen {
    fn default() -> (r: Einstellungen)
        ensures
            r.last_vault is None,
            r.sprache@ == "de"@,
            r.autosave_ms == 800,
            r.vorschau_sichtbar,
            r.glossar_aktiv,
            r.glossar_case_insensitive,
            r.glossar_max_treffer == 500,
    {
        Einstellungen {
            last_vault: None,
            sprache: String::from_str("de"),
            autosave_ms: 800,
            vorschau_sichtbar: true,
            glossar_aktiv: true,
            glossar_case_insensitive: true,
            glossar_max_treffer: 500,
        }
    }
}

/// Loaded settings plus the dirty flag.
#[derive(Debug)]
pub struct EinstellungsManager {
    pub werte: Einstellungen,
    dirty: bool,
}

impl Default for EinstellungsManager {
    fn default() -> (r: EinstellungsManager)
        ensures
            !r.dirty(),
            r.werte_view().last_vault is None,
            r.werte_view().sprache@ == "de"@,
            r.werte_view().autosave_ms == 800,
            r.werte_view().glossar_max_treffer == 500,
    {
        EinstellungsManager { werte: Einstellungen::default(), dirty: false }
    }
}

/// Whether two optional strings hold the same text.
fn same_opt(a: &Option<String>, b: &Option<String>) -> (r: bool)
    ensures
        r == (opt_chars(*a) == opt_chars(*b)),
{
    match (a, b) {
        (Some(x), Some(y)) => x.eq(y),
        (None, None) => true,
        _ => false,
    }
}

impl EinstellungsManager {
    /// Whether unsaved changes exist.
    pub closed spec fn dirty(self) -> bool {
        self.dirty
    }

    /// The settings held.
    pub closed spec fn werte_view(self) -> Einstellungen {
        self.werte
    }

    /// Settings as they were loaded: nothing to save yet.
    pub fn mit_werten(werte: Einstellungen) -> (r: EinstellungsManager)
        ensures
            r.werte_view() == werte,
            !r.dirty(),
    {
        EinstellungsManager { werte, dirty: false }
    }

    pub fn ist_dirty(&self) -> (r: bool)
        ensures
            r == self.dirty(),
    {
        self.dirty
    }

    pub fn markiere_dirty(&mut self)
        ensures
            final(self).dirty(),
            final(self).werte_view() == old(self).werte_view(),
    {
        self.dirty = true;
    }

    /// The settings to write when something changed, which also marks them
    /// clean; `None` when nothing changed.
    pub fn zum_speichern(&mut self) -> (r: Option<&Einstellungen>)
        ensures
            !final(self).dirty(),
            final(self).werte_view() == old(self).werte_view(),
            old(self).dirty() ==> r == Some(&final(self).werte_view()),
            !old(self).dirty() ==> r is None,
    {
        if !self.dirty {
            return None;
        }
        self.dirty = false;
        Some(&self.werte)
    }

    /// Sets `last_vault` only on a real change (no dirty spam).
    pub fn setze_last_vault(&mut self, pfad: Option<String>)
        ensures
            opt_chars(final(self).werte_view().last_vault) == opt_chars(pfad),
            final(self).werte_view().sprache == old(self).werte_view().sprache,
            final(self).werte_view().autosave_ms == old(self).werte_view().autosave_ms,
            final(self).werte_view().vorschau_sichtbar == old(self).werte_view().vorschau_sichtbar,
            final(self).werte_view().glossar_aktiv == old(self).werte_view().glossar_aktiv,
            final(self).werte_view().glossar_case_insensitive == old(self).werte_view().glossar_case_insensitive,
            final(self).werte_view().glossar_max_treffer == old(self).werte_view().glossar_max_treffer,
            final(self).dirty() == (old(self).dirty() || opt_chars(old(self).werte_view().last_vault)
                != opt_chars(pfad)),
    {
        if !same_opt(&self.werte.last_vault, &pfad) {
            self.werte.last_vault = pfad;
            self.dirty = true;
        }
    }
}

} // verus!

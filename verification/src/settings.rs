//! Keybind targets, key combinations and the keybind table of the settings.
//! Keybinds are kept as `(action key, combination)` text pairs; combinations
//! are written like `Ctrl+Shift+S`.

use vstd::prelude::*;
use vstd::string::{StringExecFns, StringSliceAdditionalSpecFns};
use vstd::utf8::*;

use crate::i18n::{Language, Texts};
use crate::text::{
    find_byte, find_byte_idx, lemma_ascii_boundary, lemma_ascii_valid, lemma_find_byte,
    lemma_find_byte_shift, lemma_valid_sub, push_range, str_eq, string_of, bytes_eq,
};

verus! {

/// All configurable actions (keybind targets).
#[derive(Debug, Clone, Copy, PartialEq, Eq, Hash, Structural)]
pub enum Action {
    OpenFolder,
    QuickSwitcher,
    CommandPalette,
    Save,
    NewNote,
    TogglePreview,
    FocusSearch,
    OpenSettings,
    CloseNote,
    NextNote,
    PrevNote,
    ToggleGlossary,
    ToggleSyncScroll,
}

/// The actions in their fixed order.
pub open spec fn action_at(i: int) -> Action {
    if i == 0 {
        Action::OpenFolder
    } else if i == 1 {
        Action::QuickSwitcher
    } else if i == 2 {
        Action::CommandPalette
    } else if i == 3 {
        Action::Save
    } else if i == 4 {
        Action::NewNote
    } else if i == 5 {
        Action::TogglePreview
    } else if i == 6 {
        Action::FocusSearch
    } else if i == 7 {
        Action::OpenSettings
    } else if i == 8 {
        Action::CloseNote
    } else if i == 9 {
        Action::NextNote
    } else if i == 10 {
        Action::PrevNote
    } else if i == 11 {
        Action::ToggleGlossary
    } else {
        Action::ToggleSyncScroll
    }
}

/// The stable (English) key of an action.
pub open spec fn action_key(a: Action) -> Seq<char> {
    match a {
        Action::OpenFolder => "open_folder"@,
        Action::QuickSwitcher => "quick_switcher"@,
        Action::CommandPalette => "command_palette"@,
        Action::Save => "save"@,
        Action::NewNote => "new_note"@,
        Action::TogglePreview => "toggle_preview"@,
        Action::FocusSearch => "focus_search"@,
        Action::OpenSettings => "open_settings"@,
        Action::CloseNote => "close_note"@,
        Action::NextNote => "next_note"@,
        Action::PrevNote => "prev_note"@,
        Action::ToggleGlossary => "toggle_glossary"@,
        Action::ToggleSyncScroll => "toggle_sync_scroll"@,
    }
}

/// The legacy (German) key of an action, still accepted when reading.
pub open spec fn action_legacy_key(a: Action) -> Seq<char> {
    match a {
        Action::OpenFolder => "ordner_oeffnen"@,
        Action::QuickSwitcher => "schnellwechsler"@,
        Action::CommandPalette => "befehlspalette"@,
        Action::Save => "speichern"@,
        Action::NewNote => "neue_notiz"@,
        Action::TogglePreview => "vorschau_umschalten"@,
        Action::FocusSearch => "suche_fokussieren"@,
        Action::OpenSettings => "einstellungen"@,
        Action::CloseNote => "notiz_schliessen"@,
        Action::NextNote => "naechste_notiz"@,
        Action::PrevNote => "vorherige_notiz"@,
        Action::ToggleGlossary => "glossar_umschalten"@,
        Action::ToggleSyncScroll => "sync_scroll_umschalten"@,
    }
}

/// The action a key names: its key or its legacy key.
pub open spec fn action_from_key(s: Seq<char>) -> Option<Action> {
    if s == action_key(Action::OpenFolder) || s == action_legacy_key(Action::OpenFolder) {
        Some(Action::OpenFolder)
    } else if s == action_key(Action::QuickSwitcher) || s == action_legacy_key(Action::QuickSwitcher) {
        Some(Action::QuickSwitcher)
    } else if s == action_key(Action::CommandPalette) || s == action_legacy_key(Action::CommandPalette) {
        Some(Action::CommandPalette)
    } else if s == action_key(Action::Save) || s == action_legacy_key(Action::Save) {
        Some(Action::Save)
    } else if s == action_key(Action::NewNote) || s == action_legacy_key(Action::NewNote) {
        Some(Action::NewNote)
    } else if s == action_key(Action::TogglePreview) || s == action_legacy_key(Action::TogglePreview) {
        Some(Action::TogglePreview)
    } else if s == action_key(Action::FocusSearch) || s == action_legacy_key(Action::FocusSearch) {
        Some(Action::FocusSearch)
    } else if s == action_key(Action::OpenSettings) || s == action_legacy_key(Action::OpenSettings) {
        Some(Action::OpenSettings)
    } else if s == action_key(Action::CloseNote) || s == action_legacy_key(Action::CloseNote) {
        Some(Action::CloseNote)
    } else if s == action_key(Action::NextNote) || s == action_legacy_key(Action::NextNote) {
        Some(Action::NextNote)
    } else if s == action_key(Action::PrevNote) || s == action_legacy_key(Action::PrevNote) {
        Some(Action::PrevNote)
    } else if s == action_key(Action::ToggleGlossary) || s == action_legacy_key(Action::ToggleGlossary) {
        Some(Action::ToggleGlossary)
    } else if s == action_key(Action::ToggleSyncScroll) || s == action_legacy_key(Action::ToggleSyncScroll) {
        Some(Action::ToggleSyncScroll)
    } else {
        None
    }
}

/// The label of an action in the table `t`.
pub open spec fn action_label(a: Action, t: Texts) -> &'static str {
    match a {
        Action::OpenFolder => t.act_open_folder,
        Action::QuickSwitcher => t.act_quick_switcher,
        Action::CommandPalette => t.act_command_palette,
        Action::Save => t.act_save,
        Action::NewNote => t.act_new_note,
        Action::TogglePreview => t.act_toggle_preview,
        Action::FocusSearch => t.act_focus_search,
        Action::OpenSettings => t.act_open_settings,
        Action::CloseNote => t.act_close_note,
        Action::NextNote => t.act_next_note,
        Action::PrevNote => t.act_prev_note,
        Action::ToggleGlossary => t.act_toggle_glossary,
        Action::ToggleSyncScroll => t.act_toggle_sync_scroll,
    }
}

/// The default key combination of an action: Ctrl, Shift, Alt and the key.
pub open spec fn default_combo(a: Action) -> (bool, bool, bool, Seq<char>) {
    match a {
        Action::OpenFolder => (true, false, false, "O"@),
        Action::QuickSwitcher => (true, false, false, "P"@),
        Action::CommandPalette => (true, false, false, "K"@),
        Action::Save => (true, false, false, "S"@),
        Action::NewNote => (true, false, false, "N"@),
        Action::TogglePreview => (true, false, false, "E"@),
        Action::FocusSearch => (true, true, false, "F"@),
        Action::OpenSettings => (true, true, false, "S"@),
        Action::CloseNote => (true, false, false, "W"@),
        Action::NextNote => (true, false, false, "ArrowDown"@),
        Action::PrevNote => (true, false, false, "ArrowUp"@),
        Action::ToggleGlossary => (true, true, false, "G"@),
        Action::ToggleSyncScroll => (true, true, false, "Y"@),
    }
}

impl Action {
    pub const ALL: &'static [Action; 13] = &[
        Action::OpenFolder,
        Action::QuickSwitcher,
        Action::CommandPalette,
        Action::Save,
        Action::NewNote,
        Action::TogglePreview,
        Action::FocusSearch,
        Action::OpenSettings,
        Action::CloseNote,
        Action::NextNote,
        Action::PrevNote,
        Action::ToggleGlossary,
        Action::ToggleSyncScroll,
    ];

    /// Display name in the current UI language.
    pub fn label(self, txt: &Texts) -> (r: &'static str)
        ensures
            r == action_label(self, *txt),
    {
        match self {
            Action::OpenFolder => txt.act_open_folder,
            Action::QuickSwitcher => txt.act_quick_switcher,
            Action::CommandPalette => txt.act_command_palette,
            Action::Save => txt.act_save,
            Action::NewNote => txt.act_new_note,
            Action::TogglePreview => txt.act_toggle_preview,
            Action::FocusSearch => txt.act_focus_search,
            Action::OpenSettings => txt.act_open_settings,
            Action::CloseNote => txt.act_close_note,
            Action::NextNote => txt.act_next_note,
            Action::PrevNote => txt.act_prev_note,
            Action::ToggleGlossary => txt.act_toggle_glossary,
            Action::ToggleSyncScroll => txt.act_toggle_sync_scroll,
        }
    }

    /// Stable serialization key (English). `from_key` also accepts the
    /// legacy German keys so old configs keep working.
    pub fn key(self) -> (r: &'static str)
        ensures
            r@ == action_key(self),
    {
        match self {
            Action::OpenFolder => "open_folder",
            Action::QuickSwitcher => "quick_switcher",
            Action::CommandPalette => "command_palette",
            Action::Save => "save",
            Action::NewNote => "new_note",
            Action::TogglePreview => "toggle_preview",
            Action::FocusSearch => "focus_search",
            Action::OpenSettings => "open_settings",
            Action::CloseNote => "close_note",
            Action::NextNote => "next_note",
            Action::PrevNote => "prev_note",
            Action::ToggleGlossary => "toggle_glossary",
            Action::ToggleSyncScroll => "toggle_sync_scroll",
        }
    }

    /// Legacy German key (pre-English configs), used as a lookup fallback.
    pub fn legacy_key(self) -> (r: &'static str)
        ensures
            r@ == action_legacy_key(self),
    {
        match self {
            Action::OpenFolder => "ordner_oeffnen",
            Action::QuickSwitcher => "schnellwechsler",
            Action::CommandPalette => "befehlspalette",
            Action::Save => "speichern",
            Action::NewNote => "neue_notiz",
            Action::TogglePreview => "vorschau_umschalten",
            Action::FocusSearch => "suche_fokussieren",
            Action::OpenSettings => "einstellungen",
            Action::CloseNote => "notiz_schliessen",
            Action::NextNote => "naechste_notiz",
            Action::PrevNote => "vorherige_notiz",
            Action::ToggleGlossary => "glossar_umschalten",
            Action::ToggleSyncScroll => "sync_scroll_umschalten",
        }
    }

    pub fn from_key(s: &str) -> (r: Option<Action>)
        ensures
            r == action_from_key(s@),
    {
        if str_eq(s, "open_folder") || str_eq(s, "ordner_oeffnen") {
            return Some(Action::OpenFolder);
        }
        if str_eq(s, "quick_switcher") || str_eq(s, "schnellwechsler") {
            return Some(Action::QuickSwitcher);
        }
        if str_eq(s, "command_palette") || str_eq(s, "befehlspalette") {
            return Some(Action::CommandPalette);
        }
        if str_eq(s, "save") || str_eq(s, "speichern") {
            return Some(Action::Save);
        }
        if str_eq(s, "new_note") || str_eq(s, "neue_notiz") {
            return Some(Action::NewNote);
        }
        if str_eq(s, "toggle_preview") || str_eq(s, "vorschau_umschalten") {
            return Some(Action::TogglePreview);
        }
        if str_eq(s, "focus_search") || str_eq(s, "suche_fokussieren") {
            return Some(Action::FocusSearch);
        }
        if str_eq(s, "open_settings") || str_eq(s, "einstellungen") {
            return Some(Action::OpenSettings);
        }
        if str_eq(s, "close_note") || str_eq(s, "notiz_schliessen") {
            return Some(Action::CloseNote);
        }
        if str_eq(s, "next_note") || str_eq(s, "naechste_notiz") {
            return Some(Action::NextNote);
        }
        if str_eq(s, "prev_note") || str_eq(s, "vorherige_notiz") {
            return Some(Action::PrevNote);
        }
        if str_eq(s, "toggle_glossary") || str_eq(s, "glossar_umschalten") {
            return Some(Action::ToggleGlossary);
        }
        if str_eq(s, "toggle_sync_scroll") || str_eq(s, "sync_scroll_umschalten") {
            return Some(Action::ToggleSyncScroll);
        }
        None
    }
}

/// Every action's key and legacy key name that action again.
pub proof fn lemma_action_key_roundtrip(a: Action)
    ensures
        action_from_key(action_key(a)) == Some(a),
        action_from_key(action_legacy_key(a)) == Some(a),
{
    reveal_strlit("open_folder");
    reveal_strlit("ordner_oeffnen");
    reveal_strlit("quick_switcher");
    reveal_strlit("schnellwechsler");
    reveal_strlit("command_palette");
    reveal_strlit("befehlspalette");
    reveal_strlit("save");
    reveal_strlit("speichern");
    reveal_strlit("new_note");
    reveal_strlit("neue_notiz");
    reveal_strlit("toggle_preview");
    reveal_strlit("vorschau_umschalten");
    reveal_strlit("focus_search");
    reveal_strlit("suche_fokussieren");
    reveal_strlit("open_settings");
    reveal_strlit("einstellungen");
    reveal_strlit("close_note");
    reveal_strlit("notiz_schliessen");
    reveal_strlit("next_note");
    reveal_strlit("naechste_notiz");
    reveal_strlit("prev_note");
    reveal_strlit("vorherige_notiz");
    reveal_strlit("toggle_glossary");
    reveal_strlit("glossar_umschalten");
    reveal_strlit("toggle_sync_scroll");
    reveal_strlit("sync_scroll_umschalten");
    match a {
        Action::OpenFolder => {},
        Action::QuickSwitcher => {
            assert(action_key(Action::QuickSwitcher).len() != action_key(Action::OpenFolder).len());
            assert(action_key(Action::QuickSwitcher)[0] != action_legacy_key(Action::OpenFolder)[0]);
            assert(action_legacy_key(Action::QuickSwitcher).len() != action_key(Action::OpenFolder).len());
            assert(action_legacy_key(Action::QuickSwitcher).len() != action_legacy_key(Action::OpenFolder).len());
        },
        Action::CommandPalette => {
            assert(action_key(Action::CommandPalette).len() != action_key(Action::OpenFolder).len());
            assert(action_key(Action::CommandPalette).len() != action_legacy_key(Action::OpenFolder).len());
            assert(action_legacy_key(Action::CommandPalette).len() != action_key(Action::OpenFolder).len());
            assert(action_legacy_key(Action::CommandPalette)[0] != action_legacy_key(Action::OpenFolder)[0]);
            assert(action_key(Action::CommandPalette).len() != action_key(Action::QuickSwitcher).len());
            assert(action_key(Action::CommandPalette)[0] != action_legacy_key(Action::QuickSwitcher)[0]);
            assert(action_legacy_key(Action::CommandPalette)[0] != action_key(Action::QuickSwitcher)[0]);
            assert(action_legacy_key(Action::CommandPalette).len() != action_legacy_key(Action::QuickSwitcher).len());
        },
        Action::Save => {
            assert(action_key(Action::Save).len() != action_key(Action::OpenFolder).len());
            assert(action_key(Action::Save).len() != action_legacy_key(Action::OpenFolder).len());
            assert(action_legacy_key(Action::Save).len() != action_key(Action::OpenFolder).len());
            assert(action_legacy_key(Action::Save).len() != action_legacy_key(Action::OpenFolder).len());
            assert(action_key(Action::Save).len() != action_key(Action::QuickSwitcher).len());
            assert(action_key(Action::Save).len() != action_legacy_key(Action::QuickSwitcher).len());
            assert(action_legacy_key(Action::Save).len() != action_key(Action::QuickSwitcher).len());
            assert(action_legacy_key(Action::Save).len() != action_legacy_key(Action::QuickSwitcher).len());
            assert(action_key(Action::Save).len() != action_key(Action::CommandPalette).len());
            assert(action_key(Action::Save).len() != action_legacy_key(Action::CommandPalette).len());
            assert(action_legacy_key(Action::Save).len() != action_key(Action::CommandPalette).len());
            assert(action_legacy_key(Action::Save).len() != action_legacy_key(Action::CommandPalette).len());
        },
        Action::NewNote => {
            assert(action_key(Action::NewNote).len() != action_key(Action::OpenFolder).len());
            assert(action_key(Action::NewNote).len() != action_legacy_key(Action::OpenFolder).len());
            assert(action_legacy_key(Action::NewNote).len() != action_key(Action::OpenFolder).len());
            assert(action_legacy_key(Action::NewNote).len() != action_legacy_key(Action::OpenFolder).len());
            assert(action_key(Action::NewNote).len() != action_key(Action::QuickSwitcher).len());
            assert(action_key(Action::NewNote).len() != action_legacy_key(Action::QuickSwitcher).len());
            assert(action_legacy_key(Action::NewNote).len() != action_key(Action::QuickSwitcher).len());
            assert(action_legacy_key(Action::NewNote).len() != action_legacy_key(Action::QuickSwitcher).len());
            assert(action_key(Action::NewNote).len() != action_key(Action::CommandPalette).len());
            assert(action_key(Action::NewNote).len() != action_legacy_key(Action::CommandPalette).len());
            assert(action_legacy_key(Action::NewNote).len() != action_key(Action::CommandPalette).len());
            assert(action_legacy_key(Action::NewNote).len() != action_legacy_key(Action::CommandPalette).len());
            assert(action_key(Action::NewNote).len() != action_key(Action::Save).len());
            assert(action_key(Action::NewNote).len() != action_legacy_key(Action::Save).len());
            assert(action_legacy_key(Action::NewNote).len() != action_key(Action::Save).len());
            assert(action_legacy_key(Action::NewNote).len() != action_legacy_key(Action::Save).len());
        },
        Action::TogglePreview => {
            assert(action_key(Action::TogglePreview).len() != action_key(Action::OpenFolder).len());
            assert(action_key(Action::TogglePreview)[0] != action_legacy_key(Action::OpenFolder)[0]);
            assert(action_legacy_key(Action::TogglePreview).len() != action_key(Action::OpenFolder).len());
            assert(action_legacy_key(Action::TogglePreview).len() != action_legacy_key(Action::OpenFolder).len());
            assert(action_key(Action::TogglePreview)[0] != action_key(Action::QuickSwitcher)[0]);
            assert(action_key(Action::TogglePreview).len() != action_legacy_key(Action::QuickSwitcher).len());
            assert(action_legacy_key(Action::TogglePreview).len() != action_key(Action::QuickSwitcher).len());
            assert(action_legacy_key(Action::TogglePreview).len() != action_legacy_key(Action::QuickSwitcher).len());
            assert(action_key(Action::TogglePreview).len() != action_key(Action::CommandPalette).len());
            assert(action_key(Action::TogglePreview)[0] != action_legacy_key(Action::CommandPalette)[0]);
            assert(action_legacy_key(Action::TogglePreview).len() != action_key(Action::CommandPalette).len());
            assert(action_legacy_key(Action::TogglePreview).len() != action_legacy_key(Action::CommandPalette).len());
            assert(action_key(Action::TogglePreview).len() != action_key(Action::Save).len());
            assert(action_key(Action::TogglePreview).len() != action_legacy_key(Action::Save).len());
            assert(action_legacy_key(Action::TogglePreview).len() != action_key(Action::Save).len());
            assert(action_legacy_key(Action::TogglePreview).len() != action_legacy_key(Action::Save).len());
            assert(action_key(Action::TogglePreview).len() != action_key(Action::NewNote).len());
            assert(action_key(Action::TogglePreview).len() != action_legacy_key(Action::NewNote).len());
            assert(action_legacy_key(Action::TogglePreview).len() != action_key(Action::NewNote).len());
            assert(action_legacy_key(Action::TogglePreview).len() != action_legacy_key(Action::NewNote).len());
        },
        Action::FocusSearch => {
            assert(action_key(Action::FocusSearch).len() != action_key(Action::OpenFolder).len());
            assert(action_key(Action::FocusSearch).len() != action_legacy_key(Action::OpenFolder).len());
            assert(action_legacy_key(Action::FocusSearch).len() != action_key(Action::OpenFolder).len());
            assert(action_legacy_key(Action::FocusSearch).len() != action_legacy_key(Action::OpenFolder).len());
            assert(action_key(Action::FocusSearch).len() != action_key(Action::QuickSwitcher).len());
            assert(action_key(Action::FocusSearch).len() != action_legacy_key(Action::QuickSwitcher).len());
            assert(action_legacy_key(Action::FocusSearch).len() != action_key(Action::QuickSwitcher).len());
            assert(action_legacy_key(Action::FocusSearch).len() != action_legacy_key(Action::QuickSwitcher).len());
            assert(action_key(Action::FocusSearch).len() != action_key(Action::CommandPalette).len());
            assert(action_key(Action::FocusSearch).len() != action_legacy_key(Action::CommandPalette).len());
            assert(action_legacy_key(Action::FocusSearch).len() != action_key(Action::CommandPalette).len());
            assert(action_legacy_key(Action::FocusSearch).len() != action_legacy_key(Action::CommandPalette).len());
            assert(action_key(Action::FocusSearch).len() != action_key(Action::Save).len());
            assert(action_key(Action::FocusSearch).len() != action_legacy_key(Action::Save).len());
            assert(action_legacy_key(Action::FocusSearch).len() != action_key(Action::Save).len());
            assert(action_legacy_key(Action::FocusSearch).len() != action_legacy_key(Action::Save).len());
            assert(action_key(Action::FocusSearch).len() != action_key(Action::NewNote).len());
            assert(action_key(Action::FocusSearch).len() != action_legacy_key(Action::NewNote).len());
            assert(action_legacy_key(Action::FocusSearch).len() != action_key(Action::NewNote).len());
            assert(action_legacy_key(Action::FocusSearch).len() != action_legacy_key(Action::NewNote).len());
            assert(action_key(Action::FocusSearch).len() != action_key(Action::TogglePreview).len());
            assert(action_key(Action::FocusSearch).len() != action_legacy_key(Action::TogglePreview).len());
            assert(action_legacy_key(Action::FocusSearch).len() != action_key(Action::TogglePreview).len());
            assert(action_legacy_key(Action::FocusSearch).len() != action_legacy_key(Action::TogglePreview).len());
        },
        Action::OpenSettings => {
            assert(action_key(Action::OpenSettings).len() != action_key(Action::OpenFolder).len());
            assert(action_key(Action::OpenSettings).len() != action_legacy_key(Action::OpenFolder).len());
            assert(action_legacy_key(Action::OpenSettings).len() != action_key(Action::OpenFolder).len());
            assert(action_legacy_key(Action::OpenSettings).len() != action_legacy_key(Action::OpenFolder).len());
            assert(action_key(Action::OpenSettings).len() != action_key(Action::QuickSwitcher).len());
            assert(action_key(Action::OpenSettings).len() != action_legacy_key(Action::QuickSwitcher).len());
            assert(action_legacy_key(Action::OpenSettings).len() != action_key(Action::QuickSwitcher).len());
            assert(action_legacy_key(Action::OpenSettings).len() != action_legacy_key(Action::QuickSwitcher).len());
            assert(action_key(Action::OpenSettings).len() != action_key(Action::CommandPalette).len());
            assert(action_key(Action::OpenSettings).len() != action_legacy_key(Action::CommandPalette).len());
            assert(action_legacy_key(Action::OpenSettings).len() != action_key(Action::CommandPalette).len());
            assert(action_legacy_key(Action::OpenSettings).len() != action_legacy_key(Action::CommandPalette).len());
            assert(action_key(Action::OpenSettings).len() != action_key(Action::Save).len());
            assert(action_key(Action::OpenSettings).len() != action_legacy_key(Action::Save).len());
            assert(action_legacy_key(Action::OpenSettings).len() != action_key(Action::Save).len());
            assert(action_legacy_key(Action::OpenSettings).len() != action_legacy_key(Action::Save).len());
            assert(action_key(Action::OpenSettings).len() != action_key(Action::NewNote).len());
            assert(action_key(Action::OpenSettings).len() != action_legacy_key(Action::NewNote).len());
            assert(action_legacy_key(Action::OpenSettings).len() != action_key(Action::NewNote).len());
            assert(action_legacy_key(Action::OpenSettings).len() != action_legacy_key(Action::NewNote).len());
            assert(action_key(Action::OpenSettings).len() != action_key(Action::TogglePreview).len());
            assert(action_key(Action::OpenSettings).len() != action_legacy_key(Action::TogglePreview).len());
            assert(action_legacy_key(Action::OpenSettings).len() != action_key(Action::TogglePreview).len());
            assert(action_legacy_key(Action::OpenSettings).len() != action_legacy_key(Action::TogglePreview).len());
            assert(action_key(Action::OpenSettings).len() != action_key(Action::FocusSearch).len());
            assert(action_key(Action::OpenSettings).len() != action_legacy_key(Action::FocusSearch).len());
            assert(action_legacy_key(Action::OpenSettings).len() != action_key(Action::FocusSearch).len());
            assert(action_legacy_key(Action::OpenSettings).len() != action_legacy_key(Action::FocusSearch).len());
        },
        Action::CloseNote => {
            assert(action_key(Action::CloseNote).len() != action_key(Action::OpenFolder).len());
            assert(action_key(Action::CloseNote).len() != action_legacy_key(Action::OpenFolder).len());
            assert(action_legacy_key(Action::CloseNote).len() != action_key(Action::OpenFolder).len());
            assert(action_legacy_key(Action::CloseNote).len() != action_legacy_key(Action::OpenFolder).len());
            assert(action_key(Action::CloseNote).len() != action_key(Action::QuickSwitcher).len());
            assert(action_key(Action::CloseNote).len() != action_legacy_key(Action::QuickSwitcher).len());
            assert(action_legacy_key(Action::CloseNote).len() != action_key(Action::QuickSwitcher).len());
            assert(action_legacy_key(Action::CloseNote).len() != action_legacy_key(Action::QuickSwitcher).len());
            assert(action_key(Action::CloseNote).len() != action_key(Action::CommandPalette).len());
            assert(action_key(Action::CloseNote).len() != action_legacy_key(Action::CommandPalette).len());
            assert(action_legacy_key(Action::CloseNote).len() != action_key(Action::CommandPalette).len());
            assert(action_legacy_key(Action::CloseNote).len() != action_legacy_key(Action::CommandPalette).len());
            assert(action_key(Action::CloseNote).len() != action_key(Action::Save).len());
            assert(action_key(Action::CloseNote).len() != action_legacy_key(Action::Save).len());
            assert(action_legacy_key(Action::CloseNote).len() != action_key(Action::Save).len());
            assert(action_legacy_key(Action::CloseNote).len() != action_legacy_key(Action::Save).len());
            assert(action_key(Action::CloseNote).len() != action_key(Action::NewNote).len());
            assert(action_key(Action::CloseNote)[0] != action_legacy_key(Action::NewNote)[0]);
            assert(action_legacy_key(Action::CloseNote).len() != action_key(Action::NewNote).len());
            assert(action_legacy_key(Action::CloseNote).len() != action_legacy_key(Action::NewNote).len());
            assert(action_key(Action::CloseNote).len() != action_key(Action::TogglePreview).len());
            assert(action_key(Action::CloseNote).len() != action_legacy_key(Action::TogglePreview).len());
            assert(action_legacy_key(Action::CloseNote).len() != action_key(Action::TogglePreview).len());
            assert(action_legacy_key(Action::CloseNote).len() != action_legacy_key(Action::TogglePreview).len());
            assert(action_key(Action::CloseNote).len() != action_key(Action::FocusSearch).len());
            assert(action_key(Action::CloseNote).len() != action_legacy_key(Action::FocusSearch).len());
            assert(action_legacy_key(Action::CloseNote).len() != action_key(Action::FocusSearch).len());
            assert(action_legacy_key(Action::CloseNote).len() != action_legacy_key(Action::FocusSearch).len());
            assert(action_key(Action::CloseNote).len() != action_key(Action::OpenSettings).len());
            assert(action_key(Action::CloseNote).len() != action_legacy_key(Action::OpenSettings).len());
            assert(action_legacy_key(Action::CloseNote).len() != action_key(Action::OpenSettings).len());
            assert(action_legacy_key(Action::CloseNote).len() != action_legacy_key(Action::OpenSettings).len());
        },
        Action::NextNote => {
            assert(action_key(Action::NextNote).len() != action_key(Action::OpenFolder).len());
            assert(action_key(Action::NextNote).len() != action_legacy_key(Action::OpenFolder).len());
            assert(action_legacy_key(Action::NextNote).len() != action_key(Action::OpenFolder).len());
            assert(action_legacy_key(Action::NextNote)[0] != action_legacy_key(Action::OpenFolder)[0]);
            assert(action_key(Action::NextNote).len() != action_key(Action::QuickSwitcher).len());
            assert(action_key(Action::NextNote).len() != action_legacy_key(Action::QuickSwitcher).len());
            assert(action_legacy_key(Action::NextNote)[0] != action_key(Action::QuickSwitcher)[0]);
            assert(action_legacy_key(Action::NextNote).len() != action_legacy_key(Action::QuickSwitcher).len());
            assert(action_key(Action::NextNote).len() != action_key(Action::CommandPalette).len());
            assert(action_key(Action::NextNote).len() != action_legacy_key(Action::CommandPalette).len());
            assert(action_legacy_key(Action::NextNote).len() != action_key(Action::CommandPalette).len());
            assert(action_legacy_key(Action::NextNote)[0] != action_legacy_key(Action::CommandPalette)[0]);
            assert(action_key(Action::NextNote).len() != action_key(Action::Save).len());
            assert(action_key(Action::NextNote)[0] != action_legacy_key(Action::Save)[0]);
            assert(action_legacy_key(Action::NextNote).len() != action_key(Action::Save).len());
            assert(action_legacy_key(Action::NextNote).len() != action_legacy_key(Action::Save).len());
            assert(action_key(Action::NextNote).len() != action_key(Action::NewNote).len());
            assert(action_key(Action::NextNote).len() != action_legacy_key(Action::NewNote).len());
            assert(action_legacy_key(Action::NextNote).len() != action_key(Action::NewNote).len());
            assert(action_legacy_key(Action::NextNote).len() != action_legacy_key(Action::NewNote).len());
            assert(action_key(Action::NextNote).len() != action_key(Action::TogglePreview).len());
            assert(action_key(Action::NextNote).len() != action_legacy_key(Action::TogglePreview).len());
            assert(action_legacy_key(Action::NextNote)[0] != action_key(Action::TogglePreview)[0]);
            assert(action_legacy_key(Action::NextNote).len() != action_legacy_key(Action::TogglePreview).len());
            assert(action_key(Action::NextNote).len() != action_key(Action::FocusSearch).len());
            assert(action_key(Action::NextNote).len() != action_legacy_key(Action::FocusSearch).len());
            assert(action_legacy_key(Action::NextNote).len() != action_key(Action::FocusSearch).len());
            assert(action_legacy_key(Action::NextNote).len() != action_legacy_key(Action::FocusSearch).len());
            assert(action_key(Action::NextNote).len() != action_key(Action::OpenSettings).len());
            assert(action_key(Action::NextNote).len() != action_legacy_key(Action::OpenSettings).len());
            assert(action_legacy_key(Action::NextNote).len() != action_key(Action::OpenSettings).len());
            assert(action_legacy_key(Action::NextNote).len() != action_legacy_key(Action::OpenSettings).len());
            assert(action_key(Action::NextNote).len() != action_key(Action::CloseNote).len());
            assert(action_key(Action::NextNote).len() != action_legacy_key(Action::CloseNote).len());
            assert(action_legacy_key(Action::NextNote).len() != action_key(Action::CloseNote).len());
            assert(action_legacy_key(Action::NextNote).len() != action_legacy_key(Action::CloseNote).len());
        },
        Action::PrevNote => {
            assert(action_key(Action::PrevNote).len() != action_key(Action::OpenFolder).len());
            assert(action_key(Action::PrevNote).len() != action_legacy_key(Action::OpenFolder).len());
            assert(action_legacy_key(Action::PrevNote).len() != action_key(Action::OpenFolder).len());
            assert(action_legacy_key(Action::PrevNote).len() != action_legacy_key(Action::OpenFolder).len());
            assert(action_key(Action::PrevNote).len() != action_key(Action::QuickSwitcher).len());
            assert(action_key(Action::PrevNote).len() != action_legacy_key(Action::QuickSwitcher).len());
            assert(action_legacy_key(Action::PrevNote).len() != action_key(Action::QuickSwitcher).len());
            assert(action_legacy_key(Action::PrevNote)[0] != action_legacy_key(Action::QuickSwitcher)[0]);
            assert(action_key(Action::PrevNote).len() != action_key(Action::CommandPalette).len());
            assert(action_key(Action::PrevNote).len() != action_legacy_key(Action::CommandPalette).len());
            assert(action_legacy_key(Action::PrevNote)[0] != action_key(Action::CommandPalette)[0]);
            assert(action_legacy_key(Action::PrevNote).len() != action_legacy_key(Action::CommandPalette).len());
            assert(action_key(Action::PrevNote).len() != action_key(Action::Save).len());
            assert(action_key(Action::PrevNote)[0] != action_legacy_key(Action::Save)[0]);
            assert(action_legacy_key(Action::PrevNote).len() != action_key(Action::Save).len());
            assert(action_legacy_key(Action::PrevNote).len() != action_legacy_key(Action::Save).len());
            assert(action_key(Action::PrevNote).len() != action_key(Action::NewNote).len());
            assert(action_key(Action::PrevNote).len() != action_legacy_key(Action::NewNote).len());
            assert(action_legacy_key(Action::PrevNote).len() != action_key(Action::NewNote).len());
            assert(action_legacy_key(Action::PrevNote).len() != action_legacy_key(Action::NewNote).len());
            assert(action_key(Action::PrevNote).len() != action_key(Action::TogglePreview).len());
            assert(action_key(Action::PrevNote).len() != action_legacy_key(Action::TogglePreview).len());
            assert(action_legacy_key(Action::PrevNote).len() != action_key(Action::TogglePreview).len());
            assert(action_legacy_key(Action::PrevNote).len() != action_legacy_key(Action::TogglePreview).len());
            assert(action_key(Action::PrevNote).len() != action_key(Action::FocusSearch).len());
            assert(action_key(Action::PrevNote).len() != action_legacy_key(Action::FocusSearch).len());
            assert(action_legacy_key(Action::PrevNote).len() != action_key(Action::FocusSearch).len());
            assert(action_legacy_key(Action::PrevNote).len() != action_legacy_key(Action::FocusSearch).len());
            assert(action_key(Action::PrevNote).len() != action_key(Action::OpenSettings).len());
            assert(action_key(Action::PrevNote).len() != action_legacy_key(Action::OpenSettings).len());
            assert(action_legacy_key(Action::PrevNote).len() != action_key(Action::OpenSettings).len());
            assert(action_legacy_key(Action::PrevNote).len() != action_legacy_key(Action::OpenSettings).len());
            assert(action_key(Action::PrevNote).len() != action_key(Action::CloseNote).len());
            assert(action_key(Action::PrevNote).len() != action_legacy_key(Action::CloseNote).len());
            assert(action_legacy_key(Action::PrevNote).len() != action_key(Action::CloseNote).len());
            assert(action_legacy_key(Action::PrevNote).len() != action_legacy_key(Action::CloseNote).len());
            assert(action_key(Action::PrevNote)[0] != action_key(Action::NextNote)[0]);
            assert(action_key(Action::PrevNote).len() != action_legacy_key(Action::NextNote).len());
            assert(action_legacy_key(Action::PrevNote).len() != action_key(Action::NextNote).len());
            assert(action_legacy_key(Action::PrevNote).len() != action_legacy_key(Action::NextNote).len());
        },
        Action::ToggleGlossary => {
            assert(action_key(Action::ToggleGlossary).len() != action_key(Action::OpenFolder).len());
            assert(action_key(Action::ToggleGlossary).len() != action_legacy_key(Action::OpenFolder).len());
            assert(action_legacy_key(Action::ToggleGlossary).len() != action_key(Action::OpenFolder).len());
            assert(action_legacy_key(Action::ToggleGlossary).len() != action_legacy_key(Action::OpenFolder).len());
            assert(action_key(Action::ToggleGlossary).len() != action_key(Action::QuickSwitcher).len());
            assert(action_key(Action::ToggleGlossary)[0] != action_legacy_key(Action::QuickSwitcher)[0]);
            assert(action_legacy_key(Action::ToggleGlossary).len() != action_key(Action::QuickSwitcher).len());
            assert(action_legacy_key(Action::ToggleGlossary).len() != action_legacy_key(Action::QuickSwitcher).len());
            assert(action_key(Action::ToggleGlossary)[0] != action_key(Action::CommandPalette)[0]);
            assert(action_key(Action::ToggleGlossary).len() != action_legacy_key(Action::CommandPalette).len());
            assert(action_legacy_key(Action::ToggleGlossary).len() != action_key(Action::CommandPalette).len());
            assert(action_legacy_key(Action::ToggleGlossary).len() != action_legacy_key(Action::CommandPalette).len());
            assert(action_key(Action::ToggleGlossary).len() != action_key(Action::Save).len());
            assert(action_key(Action::ToggleGlossary).len() != action_legacy_key(Action::Save).len());
            assert(action_legacy_key(Action::ToggleGlossary).len() != action_key(Action::Save).len());
            assert(action_legacy_key(Action::ToggleGlossary).len() != action_legacy_key(Action::Save).len());
            assert(action_key(Action::ToggleGlossary).len() != action_key(Action::NewNote).len());
            assert(action_key(Action::ToggleGlossary).len() != action_legacy_key(Action::NewNote).len());
            assert(action_legacy_key(Action::ToggleGlossary).len() != action_key(Action::NewNote).len());
            assert(action_legacy_key(Action::ToggleGlossary).len() != action_legacy_key(Action::NewNote).len());
            assert(action_key(Action::ToggleGlossary).len() != action_key(Action::TogglePreview).len());
            assert(action_key(Action::ToggleGlossary).len() != action_legacy_key(Action::TogglePreview).len());
            assert(action_legacy_key(Action::ToggleGlossary).len() != action_key(Action::TogglePreview).len());
            assert(action_legacy_key(Action::ToggleGlossary).len() != action_legacy_key(Action::TogglePreview).len());
            assert(action_key(Action::ToggleGlossary).len() != action_key(Action::FocusSearch).len());
            assert(action_key(Action::ToggleGlossary).len() != action_legacy_key(Action::FocusSearch).len());
            assert(action_legacy_key(Action::ToggleGlossary).len() != action_key(Action::FocusSearch).len());
            assert(action_legacy_key(Action::ToggleGlossary).len() != action_legacy_key(Action::FocusSearch).len());
            assert(action_key(Action::ToggleGlossary).len() != action_key(Action::OpenSettings).len());
            assert(action_key(Action::ToggleGlossary).len() != action_legacy_key(Action::OpenSettings).len());
            assert(action_legacy_key(Action::ToggleGlossary).len() != action_key(Action::OpenSettings).len());
            assert(action_legacy_key(Action::ToggleGlossary).len() != action_legacy_key(Action::OpenSettings).len());
            assert(action_key(Action::ToggleGlossary).len() != action_key(Action::CloseNote).len());
            assert(action_key(Action::ToggleGlossary).len() != action_legacy_key(Action::CloseNote).len());
            assert(action_legacy_key(Action::ToggleGlossary).len() != action_key(Action::CloseNote).len());
            assert(action_legacy_key(Action::ToggleGlossary).len() != action_legacy_key(Action::CloseNote).len());
            assert(action_key(Action::ToggleGlossary).len() != action_key(Action::NextNote).len());
            assert(action_key(Action::ToggleGlossary).len() != action_legacy_key(Action::NextNote).len());
            assert(action_legacy_key(Action::ToggleGlossary).len() != action_key(Action::NextNote).len());
            assert(action_legacy_key(Action::ToggleGlossary).len() != action_legacy_key(Action::NextNote).len());
            assert(action_key(Action::ToggleGlossary).len() != action_key(Action::PrevNote).len());
            assert(action_key(Action::ToggleGlossary)[0] != action_legacy_key(Action::PrevNote)[0]);
            assert(action_legacy_key(Action::ToggleGlossary).len() != action_key(Action::PrevNote).len());
            assert(action_legacy_key(Action::ToggleGlossary).len() != action_legacy_key(Action::PrevNote).len());
        },
        Action::ToggleSyncScroll => {
            assert(action_key(Action::ToggleSyncScroll).len() != action_key(Action::OpenFolder).len());
            assert(action_key(Action::ToggleSyncScroll).len() != action_legacy_key(Action::OpenFolder).len());
            assert(action_legacy_key(Action::ToggleSyncScroll).len() != action_key(Action::OpenFolder).len());
            assert(action_legacy_key(Action::ToggleSyncScroll).len() != action_legacy_key(Action::OpenFolder).len());
            assert(action_key(Action::ToggleSyncScroll).len() != action_key(Action::QuickSwitcher).len());
            assert(action_key(Action::ToggleSyncScroll).len() != action_legacy_key(Action::QuickSwitcher).len());
            assert(action_legacy_key(Action::ToggleSyncScroll).len() != action_key(Action::QuickSwitcher).len());
            assert(action_legacy_key(Action::ToggleSyncScroll).len() != action_legacy_key(Action::QuickSwitcher).len());
            assert(action_key(Action::ToggleSyncScroll).len() != action_key(Action::CommandPalette).len());
            assert(action_key(Action::ToggleSyncScroll).len() != action_legacy_key(Action::CommandPalette).len());
            assert(action_legacy_key(Action::ToggleSyncScroll).len() != action_key(Action::CommandPalette).len());
            assert(action_legacy_key(Action::ToggleSyncScroll).len() != action_legacy_key(Action::CommandPalette).len());
            assert(action_key(Action::ToggleSyncScroll).len() != action_key(Action::Save).len());
            assert(action_key(Action::ToggleSyncScroll).len() != action_legacy_key(Action::Save).len());
            assert(action_legacy_key(Action::ToggleSyncScroll).len() != action_key(Action::Save).len());
            assert(action_legacy_key(Action::ToggleSyncScroll).len() != action_legacy_key(Action::Save).len());
            assert(action_key(Action::ToggleSyncScroll).len() != action_key(Action::NewNote).len());
            assert(action_key(Action::ToggleSyncScroll).len() != action_legacy_key(Action::NewNote).len());
            assert(action_legacy_key(Action::ToggleSyncScroll).len() != action_key(Action::NewNote).len());
            assert(action_legacy_key(Action::ToggleSyncScroll).len() != action_legacy_key(Action::NewNote).len());
            assert(action_key(Action::ToggleSyncScroll).len() != action_key(Action::TogglePreview).len());
            assert(action_key(Action::ToggleSyncScroll).len() != action_legacy_key(Action::TogglePreview).len());
            assert(action_legacy_key(Action::ToggleSyncScroll).len() != action_key(Action::TogglePreview).len());
            assert(action_legacy_key(Action::ToggleSyncScroll).len() != action_legacy_key(Action::TogglePreview).len());
            assert(action_key(Action::ToggleSyncScroll).len() != action_key(Action::FocusSearch).len());
            assert(action_key(Action::ToggleSyncScroll).len() != action_legacy_key(Action::FocusSearch).len());
            assert(action_legacy_key(Action::ToggleSyncScroll).len() != action_key(Action::FocusSearch).len());
            assert(action_legacy_key(Action::ToggleSyncScroll).len() != action_legacy_key(Action::FocusSearch).len());
            assert(action_key(Action::ToggleSyncScroll).len() != action_key(Action::OpenSettings).len());
            assert(action_key(Action::ToggleSyncScroll).len() != action_legacy_key(Action::OpenSettings).len());
            assert(action_legacy_key(Action::ToggleSyncScroll).len() != action_key(Action::OpenSettings).len());
            assert(action_legacy_key(Action::ToggleSyncScroll).len() != action_legacy_key(Action::OpenSettings).len());
            assert(action_key(Action::ToggleSyncScroll).len() != action_key(Action::CloseNote).len());
            assert(action_key(Action::ToggleSyncScroll).len() != action_legacy_key(Action::CloseNote).len());
            assert(action_legacy_key(Action::ToggleSyncScroll).len() != action_key(Action::CloseNote).len());
            assert(action_legacy_key(Action::ToggleSyncScroll).len() != action_legacy_key(Action::CloseNote).len());
            assert(action_key(Action::ToggleSyncScroll).len() != action_key(Action::NextNote).len());
            assert(action_key(Action::ToggleSyncScroll).len() != action_legacy_key(Action::NextNote).len());
            assert(action_legacy_key(Action::ToggleSyncScroll).len() != action_key(Action::NextNote).len());
            assert(action_legacy_key(Action::ToggleSyncScroll).len() != action_legacy_key(Action::NextNote).len());
            assert(action_key(Action::ToggleSyncScroll).len() != action_key(Action::PrevNote).len());
            assert(action_key(Action::ToggleSyncScroll).len() != action_legacy_key(Action::PrevNote).len());
            assert(action_legacy_key(Action::ToggleSyncScroll).len() != action_key(Action::PrevNote).len());
            assert(action_legacy_key(Action::ToggleSyncScroll).len() != action_legacy_key(Action::PrevNote).len());
            assert(action_key(Action::ToggleSyncScroll).len() != action_key(Action::ToggleGlossary).len());
            assert(action_key(Action::ToggleSyncScroll)[0] != action_legacy_key(Action::ToggleGlossary)[0]);
            assert(action_legacy_key(Action::ToggleSyncScroll).len() != action_key(Action::ToggleGlossary).len());
            assert(action_legacy_key(Action::ToggleSyncScroll).len() != action_legacy_key(Action::ToggleGlossary).len());
        },
    }
}

// ---------------------------------------------------------------------------
// Key combinations
// ---------------------------------------------------------------------------

/// A key combination, written as "Ctrl+Shift+S" or the like.
#[derive(Debug, Clone, PartialEq, Eq, Hash)]
pub struct Keybind {
    pub ctrl: bool,
    pub shift: bool,
    pub alt: bool,
    /// egui key name, e.g. "S", "P", "F3", "ArrowDown".
    pub key: String,
}

/// A combination by its modifiers and the UTF-8 bytes of its key.
pub open spec fn kb_view(k: Keybind) -> (bool, bool, bool, Seq<u8>) {
    (k.ctrl, k.shift, k.alt, encode_utf8(k.key@))
}

/// `Ctrl`.
pub open spec fn ctrl_name() -> Seq<u8> {
    seq![67u8, 116u8, 114u8, 108u8]
}

/// `Shift`.
pub open spec fn shift_name() -> Seq<u8> {
    seq![83u8, 104u8, 105u8, 102u8, 116u8]
}

/// `Alt`.
pub open spec fn alt_name() -> Seq<u8> {
    seq![65u8, 108u8, 116u8]
}

/// `Strg`, the German name of Ctrl.
pub open spec fn strg_name() -> Seq<u8> {
    seq![83u8, 116u8, 114u8, 103u8]
}

/// `Umschalt`, the German name of Shift.
pub open spec fn umschalt_name() -> Seq<u8> {
    seq![85u8, 109u8, 115u8, 99u8, 104u8, 97u8, 108u8, 116u8]
}

/// `name+` when `on`, else nothing.
pub open spec fn modifier_text(on: bool, name: Seq<u8>) -> Seq<u8> {
    if on {
        name.push(43)
    } else {
        seq![]
    }
}

/// The text of a combination: the modifiers that are on, in the order
/// Ctrl, Shift, Alt, each followed by `+`, then the key; `cn` and `sn` name
/// Ctrl and Shift.
pub open spec fn kb_text(
    c: bool,
    s: bool,
    a: bool,
    key: Seq<u8>,
    cn: Seq<u8>,
    sn: Seq<u8>,
) -> Seq<u8> {
    modifier_text(c, cn) + modifier_text(s, sn) + modifier_text(a, alt_name()) + key
}

/// One `+`-separated part read into the combination so far: a modifier name
/// switches it on, anything else becomes the key.
pub open spec fn kb_part(st: (bool, bool, bool, Seq<u8>), p: Seq<u8>) -> (bool, bool, bool, Seq<u8>) {
    if p == ctrl_name() {
        (true, st.1, st.2, st.3)
    } else if p == shift_name() {
        (st.0, true, st.2, st.3)
    } else if p == alt_name() {
        (st.0, st.1, true, st.3)
    } else {
        (st.0, st.1, st.2, p)
    }
}

/// Reads the `+`-separated parts of `b` in order.
pub open spec fn kb_fold(b: Seq<u8>, st: (bool, bool, bool, Seq<u8>)) -> (bool, bool, bool, Seq<u8>)
    decreases b.len(),
{
    let e = match find_byte(b, 43, 0, b.len() as int) {
        Some(k) => k,
        None => b.len() as int,
    };
    proof {
        lemma_find_byte(b, 43, 0, b.len() as int);
    }
    let st2 = kb_part(st, b.subrange(0, e));
    if e < b.len() {
        kb_fold(b.subrange(e + 1, b.len() as int), st2)
    } else {
        st2
    }
}

/// The combination written as `b`; none when no key part is left.
pub open spec fn kb_parse(b: Seq<u8>) -> Option<(bool, bool, bool, Seq<u8>)> {
    let st = kb_fold(b, (false, false, false, seq![]));
    if st.3.len() == 0 {
        None
    } else {
        Some(st)
    }
}

/// The `+`-separated parts of `b`, in order.
pub open spec fn kb_parts(b: Seq<u8>) -> Seq<Seq<u8>>
    decreases b.len(),
{
    let e = match find_byte(b, 43, 0, b.len() as int) {
        Some(k) => k,
        None => b.len() as int,
    };
    proof {
        lemma_find_byte(b, 43, 0, b.len() as int);
    }
    if e < b.len() {
        seq![b.subrange(0, e)] + kb_parts(b.subrange(e + 1, b.len() as int))
    } else {
        seq![b]
    }
}

/// `Ctrl`, `Shift` or `Alt`.
pub open spec fn is_modifier(p: Seq<u8>) -> bool {
    p == ctrl_name() || p == shift_name() || p == alt_name()
}

/// The last of the parts that is not a modifier name.
pub open spec fn last_key_part(ps: Seq<Seq<u8>>) -> Option<Seq<u8>>
    decreases ps.len(),
{
    if ps.len() == 0 {
        None
    } else if !is_modifier(ps.last()) {
        Some(ps.last())
    } else {
        last_key_part(ps.drop_last())
    }
}

proof fn lemma_last_key_part_cons(x: Seq<u8>, r: Seq<Seq<u8>>)
    ensures
        last_key_part(seq![x] + r) == match last_key_part(r) {
            Some(p) => Some(p),
            None => if !is_modifier(x) {
                Some(x)
            } else {
                None
            },
        },
    decreases r.len(),
{
    if r.len() == 0 {
        assert(seq![x] + r =~= seq![x]);
        assert(seq![x].drop_last() =~= Seq::<Seq<u8>>::empty());
        assert(seq![x].last() == x);
        assert(last_key_part(Seq::<Seq<u8>>::empty()) is None);
        assert(last_key_part(r) is None);
    } else {
        assert((seq![x] + r).drop_last() =~= seq![x] + r.drop_last());
        assert((seq![x] + r).last() == r.last());
        lemma_last_key_part_cons(x, r.drop_last());
    }
}

proof fn lemma_kb_fold_key(b: Seq<u8>, st: (bool, bool, bool, Seq<u8>))
    ensures
        kb_fold(b, st).3 == match last_key_part(kb_parts(b)) {
            Some(p) => p,
            None => st.3,
        },
    decreases b.len(),
{
    lemma_find_byte(b, 43, 0, b.len() as int);
    let e = match find_byte(b, 43, 0, b.len() as int) {
        Some(k) => k,
        None => b.len() as int,
    };
    if e < b.len() {
        let rest = b.subrange(e + 1, b.len() as int);
        let first = b.subrange(0, e);
        assert(kb_parts(b) == seq![first] + kb_parts(rest));
        assert(kb_fold(b, st) == kb_fold(rest, kb_part(st, first)));
        lemma_kb_fold_key(rest, kb_part(st, first));
        lemma_last_key_part_cons(first, kb_parts(rest));
    } else {
        assert(seq![b].drop_last() =~= Seq::<Seq<u8>>::empty());
        assert(b.subrange(0, e) =~= b);
        assert(kb_parts(b) == seq![b]);
        assert(kb_fold(b, st) == kb_part(st, b));
        assert(seq![b].last() == b);
        assert(last_key_part(Seq::<Seq<u8>>::empty()) is None);
    }
}

/// A combination text reads as no combination exactly when the last of its
/// `+`-separated parts that is not `Ctrl`, `Shift` or `Alt` is empty, or
/// there is no such part.
pub proof fn lemma_parse_none(b: Seq<u8>)
    ensures
        kb_parse(b) is None <==> match last_key_part(kb_parts(b)) {
            Some(p) => p.len() == 0,
            None => true,
        },
{
    lemma_kb_fold_key(b, (false, false, false, seq![]));
}

/// A key that reads back as itself: not empty, without `+`, and not a
/// modifier name.
pub open spec fn plain_key(key: Seq<u8>) -> bool {
    &&& key.len() > 0
    &&& forall|i: int| 0 <= i < key.len() ==> #[trigger] key[i] != 43
    &&& key != ctrl_name()
    &&& key != shift_name()
    &&& key != alt_name()
}

proof fn lemma_kb_fold_prefix(name: Seq<u8>, rest: Seq<u8>, st: (bool, bool, bool, Seq<u8>))
    requires
        forall|i: int| 0 <= i < name.len() ==> #[trigger] name[i] != 43,
    ensures
        kb_fold(name.push(43) + rest, st) == kb_fold(rest, kb_part(st, name)),
{
    let b = name.push(43) + rest;
    let n = name.len() as int;
    lemma_find_byte(b, 43, 0, b.len() as int);
    assert(b[n] == 43);
    assert forall|j: int| 0 <= j < n implies b[j] != 43 by {
        assert(b[j] == name[j]);
    }
    assert(find_byte(b, 43, 0, b.len() as int) == Some(n));
    assert(b.subrange(0, n) =~= name);
    assert(b.subrange(n + 1, b.len() as int) =~= rest);
}

/// A combination whose key reads back as itself is read back from its text.
pub proof fn lemma_keybind_roundtrip(c: bool, s: bool, a: bool, key: Seq<u8>)
    requires
        plain_key(key),
    ensures
        kb_parse(kb_text(c, s, a, key, ctrl_name(), shift_name())) == Some((c, s, a, key)),
{
    let st0 = (false, false, false, Seq::<u8>::empty());
    let st1 = if c { kb_part(st0, ctrl_name()) } else { st0 };
    let st2 = if s { kb_part(st1, shift_name()) } else { st1 };
    let st3 = if a { kb_part(st2, alt_name()) } else { st2 };
    let p3 = modifier_text(a, alt_name()) + key;
    let p2 = modifier_text(s, shift_name()) + p3;
    let p1 = modifier_text(c, ctrl_name()) + p2;
    assert(kb_text(c, s, a, key, ctrl_name(), shift_name()) =~= p1);
    assert forall|i: int| 0 <= i < ctrl_name().len() implies #[trigger] ctrl_name()[i] != 43 by {}
    assert forall|i: int| 0 <= i < shift_name().len() implies #[trigger] shift_name()[i] != 43 by {}
    assert forall|i: int| 0 <= i < alt_name().len() implies #[trigger] alt_name()[i] != 43 by {}
    if c {
        lemma_kb_fold_prefix(ctrl_name(), p2, st0);
    } else {
        assert(p1 =~= p2);
    }
    if s {
        lemma_kb_fold_prefix(shift_name(), p3, st1);
    } else {
        assert(p2 =~= p3);
    }
    if a {
        lemma_kb_fold_prefix(alt_name(), key, st2);
    } else {
        assert(p3 =~= key);
    }
    lemma_find_byte(key, 43, 0, key.len() as int);
    assert(key.subrange(0, key.len() as int) =~= key);
    assert(kb_fold(key, st3) == kb_part(st3, key));
}

/// Appends `name+` when `on`.
fn push_modifier(out: &mut Vec<u8>, on: bool, name: &[u8])
    ensures
        final(out)@ == old(out)@ + modifier_text(on, name@),
{
    if on {
        push_range(out, name, 0, name.len());
        out.push(43);
        proof {
            assert(name@.subrange(0, name@.len() as int) =~= name@);
            assert(final(out)@ =~= old(out)@ + name@.push(43));
        }
    } else {
        proof {
            assert(out@ =~= old(out)@ + Seq::<u8>::empty());
        }
    }
}

impl Keybind {
    pub fn new(ctrl: bool, shift: bool, alt: bool, key: &str) -> (r: Keybind)
        ensures
            r.ctrl == ctrl,
            r.shift == shift,
            r.alt == alt,
            r.key@ == key@,
    {
        Keybind { ctrl, shift, alt, key: String::from_str(key) }
    }

    /// The combination's text with `cn` and `sn` naming Ctrl and Shift.
    fn text_with(&self, cn: &[u8], sn: &[u8]) -> (r: String)
        requires
            forall|i: int| 0 <= i < cn@.len() ==> #[trigger] cn@[i] < 0x80,
            forall|i: int| 0 <= i < sn@.len() ==> #[trigger] sn@[i] < 0x80,
        ensures
            encode_utf8(r@) == kb_text(
                self.ctrl,
                self.shift,
                self.alt,
                encode_utf8(self.key@),
                cn@,
                sn@,
            ),
    {
        let alt: [u8; 3] = [65, 108, 116];
        proof {
            assert(alt@ =~= alt_name());
        }
        let mut out: Vec<u8> = Vec::new();
        push_modifier(&mut out, self.ctrl, cn);
        push_modifier(&mut out, self.shift, sn);
        push_modifier(&mut out, self.alt, alt.as_slice());
        let ghost prefix = out@;
        let kb = self.key.as_str().as_bytes();
        push_range(&mut out, kb, 0, kb.len());
        proof {
            assert(kb@.subrange(0, kb@.len() as int) =~= kb@);
            assert forall|i: int| 0 <= i < prefix.len() implies #[trigger] prefix[i] < 0x80 by {
                let m1 = modifier_text(self.ctrl, cn@);
                let m2 = modifier_text(self.shift, sn@);
                let m3 = modifier_text(self.alt, alt_name());
                assert(prefix == m1 + m2 + m3);
                if i < m1.len() {
                    assert(prefix[i] == m1[i]);
                    if i < cn@.len() {
                        assert(m1[i] == cn@[i]);
                    }
                } else if i < m1.len() + m2.len() {
                    assert(prefix[i] == m2[i - m1.len()]);
                    if i - m1.len() < sn@.len() {
                        assert(m2[i - m1.len()] == sn@[i - m1.len()]);
                    }
                } else {
                    assert(prefix[i] == m3[i - m1.len() - m2.len()]);
                }
            }
            lemma_ascii_valid(prefix);
            encode_utf8_valid_utf8(self.key@);
            valid_utf8_concat(prefix, kb@);
        }
        string_of(out.as_slice())
    }

    /// Display form, e.g. "Ctrl+Shift+S" (EN) or "Strg+Umschalt+S" (DE).
    pub fn display_in(&self, lang: Language) -> (r: String)
        ensures
            encode_utf8(r@) == kb_text(
                self.ctrl,
                self.shift,
                self.alt,
                encode_utf8(self.key@),
                if lang == Language::En {
                    ctrl_name()
                } else {
                    strg_name()
                },
                if lang == Language::En {
                    shift_name()
                } else {
                    umschalt_name()
                },
            ),
    {
        let ctrl: [u8; 4] = [67, 116, 114, 108];
        let shift: [u8; 5] = [83, 104, 105, 102, 116];
        let strg: [u8; 4] = [83, 116, 114, 103];
        let umschalt: [u8; 8] = [85, 109, 115, 99, 104, 97, 108, 116];
        proof {
            assert(ctrl@ =~= ctrl_name());
            assert(shift@ =~= shift_name());
            assert(strg@ =~= strg_name());
            assert(umschalt@ =~= umschalt_name());
        }
        match lang {
            Language::En => self.text_with(ctrl.as_slice(), shift.as_slice()),
            Language::De => self.text_with(strg.as_slice(), umschalt.as_slice()),
        }
    }

    pub fn serialize(&self) -> (r: String)
        ensures
            encode_utf8(r@) == kb_text(
                self.ctrl,
                self.shift,
                self.alt,
                encode_utf8(self.key@),
                ctrl_name(),
                shift_name(),
            ),
    {
        self.display_in(Language::En)
    }

    pub fn deserialize(s: &str) -> (r: Option<Keybind>)
        ensures
            match r {
                Some(k) => kb_parse(s.spec_bytes()) == Some(kb_view(k)),
                None => kb_parse(s.spec_bytes()) is None,
            },
    {
        let b = s.as_bytes();
        let len = b.len();
        let ctrl_b: [u8; 4] = [67, 116, 114, 108];
        let shift_b: [u8; 5] = [83, 104, 105, 102, 116];
        let alt_b: [u8; 3] = [65, 108, 116];
        proof {
            assert(ctrl_b@ =~= ctrl_name());
            assert(shift_b@ =~= shift_name());
            assert(alt_b@ =~= alt_name());
            encode_utf8_valid_utf8(s@);
            is_char_boundary_start_end_of_seq(b@);
            assert(b@.subrange(0, len as int) =~= b@);
            assert(b@.subrange(0, 0) =~= Seq::<u8>::empty());
        }
        let mut ctrl = false;
        let mut shift = false;
        let mut alt = false;
        let mut kl: usize = 0;
        let mut kh: usize = 0;
        let mut i: usize = 0;
        loop
            invariant
                len == b@.len(),
                b@ == s.spec_bytes(),
                valid_utf8(b@),
                ctrl_b@ == ctrl_name(),
                shift_b@ == shift_name(),
                alt_b@ == alt_name(),
                i <= len,
                i == 0 || b@[i - 1] == 43,
                kl <= kh <= len,
                is_char_boundary(b@, kl as int),
                is_char_boundary(b@, kh as int),
                kb_fold(b@.subrange(i as int, len as int), (ctrl, shift, alt, b@.subrange(kl as int, kh as int)))
                    == kb_fold(b@, (false, false, false, seq![])),
            decreases len - i,
        {
            let ghost rest = b@.subrange(i as int, len as int);
            proof {
                lemma_find_byte_shift(b@, 43, i as int, len as int, i as int);
                lemma_find_byte(b@, 43, i as int, len as int);
            }
            let e = match find_byte_idx(b, 43, i, len) {
                Some(k) => k,
                None => len,
            };
            let part = vstd::slice::slice_subrange(b, i, e);
            proof {
                assert(rest.subrange(0, e - i) =~= part@);
                assert(e < len ==> rest.subrange(e - i + 1, rest.len() as int) =~= b@.subrange(
                    e + 1,
                    len as int,
                ));
            }
            if bytes_eq(part, ctrl_b.as_slice()) {
                ctrl = true;
            } else if bytes_eq(part, shift_b.as_slice()) {
                shift = true;
            } else if bytes_eq(part, alt_b.as_slice()) {
                alt = true;
            } else {
                proof {
                    assert(i == 0 || b@[i - 1] == 43);
                    lemma_ascii_boundary(b@, i as int);
                    lemma_ascii_boundary(b@, e as int);
                }
                kl = i;
                kh = e;
            }
            if e < len {
                i = e + 1;
            } else {
                if kh == kl {
                    return None;
                }
                proof {
                    lemma_valid_sub(b@, kl as int, kh as int);
                }
                let key = string_of(vstd::slice::slice_subrange(b, kl, kh));
                return Some(Keybind { ctrl, shift, alt, key });
            }
        }
    }
}

// ---------------------------------------------------------------------------
// The keybind table
// ---------------------------------------------------------------------------

/// The text of the default combination of an action.
pub open spec fn default_text(a: Action) -> Seq<u8> {
    let d = default_combo(a);
    kb_text(d.0, d.1, d.2, encode_utf8(d.3), ctrl_name(), shift_name())
}

/// The default table: one entry per action, in the order of [`action_at`].
pub open spec fn default_table(r: Seq<(String, String)>) -> bool {
    &&& r.len() == 13
    &&& forall|i: int|
        0 <= i < 13 ==> #[trigger] r[i].0@ == action_key(action_at(i)) && encode_utf8(r[i].1@)
            == default_text(action_at(i))
}

/// Default keybinds: one entry per action, in the order of [`action_at`].
pub fn default_keybinds() -> (r: Vec<(String, String)>)
    ensures
        default_table(r@),
{
    let mut v: Vec<(String, String)> = Vec::new();
    v.push((String::from_str(Action::OpenFolder.key()), Keybind::new(true, false, false, "O").serialize()));
    v.push((String::from_str(Action::QuickSwitcher.key()), Keybind::new(true, false, false, "P").serialize()));
    v.push((String::from_str(Action::CommandPalette.key()), Keybind::new(true, false, false, "K").serialize()));
    v.push((String::from_str(Action::Save.key()), Keybind::new(true, false, false, "S").serialize()));
    v.push((String::from_str(Action::NewNote.key()), Keybind::new(true, false, false, "N").serialize()));
    v.push((String::from_str(Action::TogglePreview.key()), Keybind::new(true, false, false, "E").serialize()));
    v.push((String::from_str(Action::FocusSearch.key()), Keybind::new(true, true, false, "F").serialize()));
    v.push((String::from_str(Action::OpenSettings.key()), Keybind::new(true, true, false, "S").serialize()));
    v.push((String::from_str(Action::CloseNote.key()), Keybind::new(true, false, false, "W").serialize()));
    v.push((String::from_str(Action::NextNote.key()), Keybind::new(true, false, false, "ArrowDown").serialize()));
    v.push((String::from_str(Action::PrevNote.key()), Keybind::new(true, false, false, "ArrowUp").serialize()));
    v.push((String::from_str(Action::ToggleGlossary.key()), Keybind::new(true, true, false, "G").serialize()));
    v.push((String::from_str(Action::ToggleSyncScroll.key()), Keybind::new(true, true, false, "Y").serialize()));
    proof {
        assert forall|i: int| 0 <= i < 13 implies #[trigger] v@[i].0@ == action_key(action_at(i))
            && encode_utf8(v@[i].1@) == default_text(action_at(i)) by {
            if i == 0 {} else if i == 1 {} else if i == 2 {} else if i == 3 {} else if i == 4 {
            } else if i == 5 {} else if i == 6 {} else if i == 7 {} else if i == 8 {} else if i
                == 9 {} else if i == 10 {} else if i == 11 {} else {}
        }
    }
    v
}

/// A keybind table by its texts.
pub open spec fn kbs_view(v: Seq<(String, String)>) -> Seq<(Seq<char>, Seq<char>)> {
    v.map_values(|p: (String, String)| (p.0@, p.1@))
}

/// First entry from `from` on bound to `a` by its key or its legacy key.
pub open spec fn first_bound(kbs: Seq<(Seq<char>, Seq<char>)>, a: Action, from: int) -> Option<int>
    decreases kbs.len() - from,
{
    if from < 0 || from >= kbs.len() {
        None
    } else if kbs[from].0 == action_key(a) || kbs[from].0 == action_legacy_key(a) {
        Some(from)
    } else {
        first_bound(kbs, a, from + 1)
    }
}

/// First entry from `from` on whose name is exactly `key`.
pub open spec fn first_keyed(kbs: Seq<(Seq<char>, Seq<char>)>, key: Seq<char>, from: int) -> Option<int>
    decreases kbs.len() - from,
{
    if from < 0 || from >= kbs.len() {
        None
    } else if kbs[from].0 == key {
        Some(from)
    } else {
        first_keyed(kbs, key, from + 1)
    }
}

/// The combination bound to `a`: the first entry for it, read as a combination.
pub open spec fn binding_spec(kbs: Seq<(Seq<char>, Seq<char>)>, a: Action) -> Option<
    (bool, bool, bool, Seq<u8>),
> {
    match first_bound(kbs, a, 0) {
        Some(i) => kb_parse(encode_utf8(kbs[i].1)),
        None => None,
    }
}

/// The entries whose name is not `key`, in order.
pub open spec fn drop_keyed(kbs: Seq<(Seq<char>, Seq<char>)>, key: Seq<char>) -> Seq<
    (Seq<char>, Seq<char>),
>
    decreases kbs.len(),
{
    if kbs.len() == 0 {
        seq![]
    } else if kbs.last().0 == key {
        drop_keyed(kbs.drop_last(), key)
    } else {
        drop_keyed(kbs.drop_last(), key).push(kbs.last())
    }
}

/// The table after binding `a` to `bind`: the first entry named by the
/// action's key gets the new text, or a new entry is appended; without a
/// combination, every entry named by the key is removed.
pub open spec fn set_binding_spec(
    kbs: Seq<(Seq<char>, Seq<char>)>,
    a: Action,
    bind: Option<(bool, bool, bool, Seq<u8>)>,
) -> Seq<(Seq<char>, Seq<char>)> {
    match bind {
        Some(k) => {
            let text = decode_utf8(kb_text(k.0, k.1, k.2, k.3, ctrl_name(), shift_name()));
            match first_keyed(kbs, action_key(a), 0) {
                Some(i) => kbs.update(i, (kbs[i].0, text)),
                None => kbs.push((action_key(a), text)),
            }
        },
        None => drop_keyed(kbs, action_key(a)),
    }
}

pub proof fn lemma_first_bound(kbs: Seq<(Seq<char>, Seq<char>)>, a: Action, from: int)
    requires
        0 <= from <= kbs.len(),
    ensures
        first_bound(kbs, a, from) matches Some(i) ==> from <= i < kbs.len() && (kbs[i].0
            == action_key(a) || kbs[i].0 == action_legacy_key(a)),
        first_bound(kbs, a, from) is None ==> forall|j: int|
            from <= j < kbs.len() ==> kbs[j].0 != action_key(a) && kbs[j].0 != action_legacy_key(a),
        forall|j: int|
            from <= j < kbs.len() && (kbs[j].0 == action_key(a) || kbs[j].0 == action_legacy_key(a))
                ==> (first_bound(kbs, a, from) matches Some(i) && i <= j),
    decreases kbs.len() - from,
{
    if from < kbs.len() && !(kbs[from].0 == action_key(a) || kbs[from].0 == action_legacy_key(a)) {
        lemma_first_bound(kbs, a, from + 1);
    }
}

pub proof fn lemma_first_keyed(kbs: Seq<(Seq<char>, Seq<char>)>, key: Seq<char>, from: int)
    requires
        0 <= from <= kbs.len(),
    ensures
        first_keyed(kbs, key, from) matches Some(i) ==> from <= i < kbs.len() && kbs[i].0 == key
            && forall|j: int| from <= j < i ==> kbs[j].0 != key,
        first_keyed(kbs, key, from) is None ==> forall|j: int| from <= j < kbs.len() ==> kbs[j].0 != key,
    decreases kbs.len() - from,
{
    if from < kbs.len() && kbs[from].0 != key {
        lemma_first_keyed(kbs, key, from + 1);
    }
}

pub proof fn lemma_drop_keyed(kbs: Seq<(Seq<char>, Seq<char>)>, key: Seq<char>)
    ensures
        forall|j: int| 0 <= j < drop_keyed(kbs, key).len() ==> #[trigger] drop_keyed(kbs, key)[j].0 != key,
    decreases kbs.len(),
{
    if kbs.len() > 0 {
        lemma_drop_keyed(kbs.drop_last(), key);
        let r = drop_keyed(kbs.drop_last(), key);
        if kbs.last().0 != key {
            assert forall|j: int| 0 <= j < r.push(kbs.last()).len() implies #[trigger] r.push(
                kbs.last(),
            )[j].0 != key by {
                if j < r.len() {
                    assert(r.push(kbs.last())[j] == r[j]);
                }
            }
        }
    }
}

/// Reading back the combination just bound to an action gives it again,
/// when its key reads back as itself and no entry uses the action's legacy key.
pub proof fn lemma_set_then_get(kbs: Seq<(Seq<char>, Seq<char>)>, a: Action, k: Keybind)
    requires
        plain_key(encode_utf8(k.key@)),
        forall|j: int| 0 <= j < kbs.len() ==> kbs[j].0 != action_legacy_key(a),
    ensures
        binding_spec(set_binding_spec(kbs, a, Some(kb_view(k))), a) == Some(kb_view(k)),
{
    let kv = kb_view(k);
    let t = kb_text(kv.0, kv.1, kv.2, kv.3, ctrl_name(), shift_name());
    encode_utf8_valid_utf8(k.key@);
    lemma_keybind_roundtrip(kv.0, kv.1, kv.2, kv.3);
    lemma_kb_text_valid(kv.0, kv.1, kv.2, kv.3);
    decode_utf8_encode_utf8(t);
    let kbs2 = set_binding_spec(kbs, a, Some(kv));
    lemma_first_keyed(kbs, action_key(a), 0);
    lemma_first_bound(kbs2, a, 0);
    match first_keyed(kbs, action_key(a), 0) {
        Some(i) => {
            assert(kbs2[i].0 == action_key(a));
        },
        None => {
            assert(kbs2[kbs.len() as int].0 == action_key(a));
            assert forall|j: int| 0 <= j < kbs.len() implies kbs2[j] == kbs[j] by {}
        },
    }
}

/// After unbinding an action, no combination is bound to it, when no entry
/// uses the action's legacy key.
pub proof fn lemma_unset_then_get(kbs: Seq<(Seq<char>, Seq<char>)>, a: Action)
    requires
        forall|j: int| 0 <= j < kbs.len() ==> kbs[j].0 != action_legacy_key(a),
    ensures
        binding_spec(set_binding_spec(kbs, a, None), a) is None,
{
    let kbs2 = drop_keyed(kbs, action_key(a));
    lemma_drop_keyed(kbs, action_key(a));
    lemma_drop_keyed_subset(kbs, action_key(a), action_legacy_key(a));
    lemma_first_bound(kbs2, a, 0);
}

/// The text of the first entry for `c`.
pub open spec fn bound_text(kbs: Seq<(Seq<char>, Seq<char>)>, c: Action) -> Option<Seq<char>> {
    match first_bound(kbs, c, 0) {
        Some(i) => Some(kbs[i].1),
        None => None,
    }
}

/// An entry name that names `c`.
pub open spec fn names(n: Seq<char>, c: Action) -> bool {
    n == action_key(c) || n == action_legacy_key(c)
}

/// An action's key names no other action.
proof fn lemma_key_names_only(a: Action, c: Action)
    requires
        a != c,
    ensures
        !names(action_key(a), c),
{
    lemma_action_key_roundtrip(a);
    lemma_action_key_roundtrip(c);
}

/// Appending an entry keeps the first entry for `c`, or gives the new one
/// when there was none and it names `c`.
proof fn lemma_bound_push(kbs: Seq<(Seq<char>, Seq<char>)>, e: (Seq<char>, Seq<char>), c: Action)
    ensures
        bound_text(kbs.push(e), c) == match bound_text(kbs, c) {
            Some(t) => Some(t),
            None => if names(e.0, c) {
                Some(e.1)
            } else {
                None
            },
        },
{
    let k2 = kbs.push(e);
    lemma_first_bound(kbs, c, 0);
    lemma_first_bound(k2, c, 0);
    assert forall|j: int| 0 <= j < kbs.len() implies k2[j] == kbs[j] by {}
    match first_bound(kbs, c, 0) {
        Some(i) => {
            assert(k2[i] == kbs[i]);
            if let Some(i2) = first_bound(k2, c, 0) {
                if i2 < kbs.len() {
                    assert(k2[i2] == kbs[i2]);
                }
            }
        },
        None => {
            if let Some(i2) = first_bound(k2, c, 0) {
                if i2 < kbs.len() {
                    assert(k2[i2] == kbs[i2]);
                } else {
                    assert(i2 == kbs.len());
                }
            } else {
                if names(e.0, c) {
                    assert(k2[kbs.len() as int] == e);
                }
            }
        },
    }
}

/// Dropping the entries named `k`, which does not name `c`, keeps the
/// first entry for `c`.
proof fn lemma_bound_drop(kbs: Seq<(Seq<char>, Seq<char>)>, k: Seq<char>, c: Action)
    requires
        !names(k, c),
    ensures
        bound_text(drop_keyed(kbs, k), c) == bound_text(kbs, c),
    decreases kbs.len(),
{
    if kbs.len() == 0 {
    } else {
        let s = kbs.drop_last();
        let e = kbs.last();
        lemma_bound_drop(s, k, c);
        assert(s.push(e) =~= kbs);
        lemma_bound_push(s, e, c);
        if e.0 != k {
            lemma_bound_push(drop_keyed(s, k), e, c);
        }
    }
}

/// Binding or unbinding one action leaves what every other action is bound
/// to unchanged.
pub proof fn lemma_set_keeps_others(
    kbs: Seq<(Seq<char>, Seq<char>)>,
    a: Action,
    bind: Option<(bool, bool, bool, Seq<u8>)>,
    c: Action,
)
    requires
        a != c,
    ensures
        binding_spec(set_binding_spec(kbs, a, bind), c) == binding_spec(kbs, c),
{
    lemma_key_names_only(a, c);
    let kbs2 = set_binding_spec(kbs, a, bind);
    match bind {
        Some(kb) => {
            let text = decode_utf8(kb_text(kb.0, kb.1, kb.2, kb.3, ctrl_name(), shift_name()));
            lemma_first_keyed(kbs, action_key(a), 0);
            match first_keyed(kbs, action_key(a), 0) {
                Some(i) => {
                    lemma_first_bound(kbs, c, 0);
                    lemma_first_bound(kbs2, c, 0);
                    assert forall|j: int| 0 <= j < kbs.len() implies #[trigger] kbs2[j].0 == kbs[j].0 by {}
                    if let Some(i1) = first_bound(kbs, c, 0) {
                        assert(kbs2[i1].0 == kbs[i1].0);
                        if let Some(i2) = first_bound(kbs2, c, 0) {
                            assert(kbs2[i2].0 == kbs[i2].0);
                            assert(i1 == i2);
                            assert(i1 != i);
                            assert(kbs2[i1] == kbs[i1]);
                        }
                    } else {
                        if let Some(i2) = first_bound(kbs2, c, 0) {
                            assert(kbs2[i2].0 == kbs[i2].0);
                        }
                    }
                },
                None => {
                    lemma_bound_push(kbs, (action_key(a), text), c);
                },
            }
        },
        None => {
            lemma_bound_drop(kbs, action_key(a), c);
        },
    }
}

proof fn lemma_drop_keyed_subset(kbs: Seq<(Seq<char>, Seq<char>)>, key: Seq<char>, other: Seq<char>)
    requires
        forall|j: int| 0 <= j < kbs.len() ==> kbs[j].0 != other,
    ensures
        forall|j: int| 0 <= j < drop_keyed(kbs, key).len() ==> #[trigger] drop_keyed(kbs, key)[j].0 != other,
    decreases kbs.len(),
{
    if kbs.len() > 0 {
        lemma_drop_keyed_subset(kbs.drop_last(), key, other);
        let r = drop_keyed(kbs.drop_last(), key);
        assert forall|j: int| 0 <= j < kbs.drop_last().len() implies kbs.drop_last()[j].0 != other by {
            assert(kbs.drop_last()[j] == kbs[j]);
        }
        if kbs.last().0 != key {
            assert forall|j: int| 0 <= j < r.push(kbs.last()).len() implies #[trigger] r.push(
                kbs.last(),
            )[j].0 != other by {
                if j < r.len() {
                    assert(r.push(kbs.last())[j] == r[j]);
                }
            }
        }
    }
}

/// The text of a combination with a valid key is valid UTF-8.
pub proof fn lemma_kb_text_valid(c: bool, s: bool, a: bool, key: Seq<u8>)
    requires
        valid_utf8(key),
    ensures
        valid_utf8(kb_text(c, s, a, key, ctrl_name(), shift_name())),
{
    let m1 = modifier_text(c, ctrl_name());
    let m2 = modifier_text(s, shift_name());
    let m3 = modifier_text(a, alt_name());
    assert forall|i: int| 0 <= i < m1.len() implies #[trigger] m1[i] < 0x80 by {}
    assert forall|i: int| 0 <= i < m2.len() implies #[trigger] m2[i] < 0x80 by {}
    assert forall|i: int| 0 <= i < m3.len() implies #[trigger] m3[i] < 0x80 by {}
    lemma_ascii_valid(m1);
    lemma_ascii_valid(m2);
    lemma_ascii_valid(m3);
    valid_utf8_concat(m1, m2);
    valid_utf8_concat(m1 + m2, m3);
    valid_utf8_concat(m1 + m2 + m3, key);
}

/// The combination bound to `action` in `keybinds`: the first entry named by
/// its key or its legacy key, read as a combination.
pub fn binding_in(keybinds: &Vec<(String, String)>, action: Action) -> (r: Option<Keybind>)
    ensures
        match r {
            Some(k) => binding_spec(kbs_view(keybinds@), action) == Some(kb_view(k)),
            None => binding_spec(kbs_view(keybinds@), action) is None,
        },
{
    let key = action.key();
    let legacy = action.legacy_key();
    let ghost kv = kbs_view(keybinds@);
    let mut i: usize = 0;
    while i < keybinds.len()
        invariant
            i <= keybinds@.len(),
            kv == kbs_view(keybinds@),
            key@ == action_key(action),
            legacy@ == action_legacy_key(action),
            first_bound(kv, action, 0) == first_bound(kv, action, i as int),
        decreases keybinds@.len() - i,
    {
        let name = keybinds[i].0.as_str();
        if str_eq(name, key) || str_eq(name, legacy) {
            return Keybind::deserialize(keybinds[i].1.as_str());
        }
        i += 1;
    }
    None
}

/// Binds `action` to `bind` in `keybinds`, or unbinds it (see [`set_binding_spec`]).
pub fn set_binding_in(keybinds: &mut Vec<(String, String)>, action: Action, bind: Option<Keybind>)
    ensures
        kbs_view(final(keybinds)@) == set_binding_spec(
            kbs_view(old(keybinds)@),
            action,
            match bind {
                Some(k) => Some(kb_view(k)),
                None => None,
            },
        ),
{
    let key = action.key();
    let ghost kv = kbs_view(keybinds@);
    match bind {
        Some(b) => {
            let ser = b.serialize();
            let ghost b = b;
            proof {
                encode_utf8_decode_utf8(ser@);
            }
            let mut i: usize = 0;
            while i < keybinds.len()
                invariant
                    i <= keybinds@.len(),
                    kv == kbs_view(keybinds@),
                    kv == kbs_view(old(keybinds)@),
                    key@ == action_key(action),
                    bind == Some(b),
                    ser@ == decode_utf8(
                        kb_text(b.ctrl, b.shift, b.alt, encode_utf8(b.key@), ctrl_name(), shift_name()),
                    ),
                    first_keyed(kv, key@, 0) == first_keyed(kv, key@, i as int),
                decreases keybinds@.len() - i,
            {
                if str_eq(keybinds[i].0.as_str(), key) {
                    let name = keybinds[i].0.clone();
                    keybinds.set(i, (name, ser));
                    proof {
                        assert(kbs_view(keybinds@) =~= kv.update(i as int, (kv[i as int].0, ser@)));
                    }
                    return;
                }
                i += 1;
            }
            keybinds.push((String::from_str(key), ser));
            proof {
                assert(kbs_view(keybinds@) =~= kv.push((action_key(action), ser@)));
            }
        },
        None => {
            let mut alt: Vec<(String, String)> = Vec::new();
            std::mem::swap(keybinds, &mut alt);
            let mut i: usize = 0;
            proof {
                assert(alt@.subrange(0, 0) =~= Seq::<(String, String)>::empty());
                assert(kbs_view(alt@.subrange(0, 0)) =~= Seq::<(Seq<char>, Seq<char>)>::empty());
            }
            while i < alt.len()
                invariant
                    i <= alt@.len(),
                    kv == kbs_view(alt@),
                    kv == kbs_view(old(keybinds)@),
                    bind is None,
                    key@ == action_key(action),
                    kbs_view(keybinds@) == drop_keyed(kbs_view(alt@.subrange(0, i as int)), key@),
                decreases alt@.len() - i,
            {
                let ghost before = kbs_view(keybinds@);
                proof {
                    assert(alt@.subrange(0, i + 1).drop_last() =~= alt@.subrange(0, i as int));
                    assert(kbs_view(alt@.subrange(0, i + 1)).drop_last() =~= kbs_view(
                        alt@.subrange(0, i as int),
                    ));
                    assert(kbs_view(alt@.subrange(0, i + 1)).last() == kv[i as int]);
                }
                if !str_eq(alt[i].0.as_str(), key) {
                    let entry = (alt[i].0.clone(), alt[i].1.clone());
                    keybinds.push(entry);
                    proof {
                        assert(kbs_view(keybinds@) =~= before.push(kv[i as int]));
                    }
                }
                i += 1;
            }
            proof {
                assert(alt@.subrange(0, alt@.len() as int) =~= alt@);
            }
        },
    }
}

/// The entries of a list that are pairs of strings, in order.
pub open spec fn string_pairs(l: Seq<Option<(String, String)>>) -> Seq<(Seq<char>, Seq<char>)>
    decreases l.len(),
{
    if l.len() == 0 {
        seq![]
    } else {
        let rest = string_pairs(l.drop_last());
        match l.last() {
            Some(p) => rest.push((p.0@, p.1@)),
            None => rest,
        }
    }
}

/// The keybinds of a settings file: `list` holds its `keybinds` entries,
/// each as a pair of strings or `None` for an entry of another shape. A
/// non-empty list gives its pairs; without a list, or with an empty one,
/// the defaults apply.
pub fn keybinds_from_file(list: Option<Vec<Option<(String, String)>>>) -> (r: Vec<(String, String)>)
    ensures
        match list {
            Some(l) => if l@.len() > 0 {
                kbs_view(r@) == string_pairs(l@)
            } else {
                default_table(r@)
            },
            None => default_table(r@),
        },
{
    match list {
        None => default_keybinds(),
        Some(l) => {
            if l.len() == 0 {
                return default_keybinds();
            }
            let mut out: Vec<(String, String)> = Vec::new();
            let mut i: usize = 0;
            proof {
                assert(l@.subrange(0, 0) =~= Seq::<Option<(String, String)>>::empty());
                assert(kbs_view(out@) =~= Seq::<(Seq<char>, Seq<char>)>::empty());
            }
            while i < l.len()
                invariant
                    i <= l@.len(),
                    kbs_view(out@) == string_pairs(l@.subrange(0, i as int)),
                decreases l@.len() - i,
            {
                let ghost before = kbs_view(out@);
                proof {
                    assert(l@.subrange(0, i + 1).drop_last() =~= l@.subrange(0, i as int));
                    assert(l@.subrange(0, i + 1).last() == l@[i as int]);
                }
                match &l[i] {
                    Some(p) => {
                        out.push((p.0.clone(), p.1.clone()));
                        proof {
                            assert(kbs_view(out@) =~= before.push((p.0@, p.1@)));
                        }
                    },
                    None => {},
                }
                i += 1;
            }
            proof {
                assert(l@.subrange(0, l@.len() as int) =~= l@);
            }
            out
        },
    }
}

} // verus!

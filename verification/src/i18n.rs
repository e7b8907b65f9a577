//! UI strings: English by default, German selectable (Settings → Language).

use vstd::prelude::*;
use vstd::string::{StringExecFns, StringSliceAdditionalSpecFns};
use vstd::utf8::*;

use crate::text::{bytes_eq, name_key, trimmed, trimmed_lower};

verus! {

/// App language. Unknown codes fall back to English.
#[derive(Debug, Clone, Copy, PartialEq, Eq, Structural)]
pub enum Language {
    En,
    De,
}

impl Default for Language {
    fn default() -> (r: Language)
        ensures
            r == Language::En,
    {
        Language::En
    }
}

/// All user-facing strings for one language.
#[derive(Debug, Clone, Copy)]
pub struct Texts {
    /// The language the strings are written in; status messages follow it.
    pub language: Language,
    pub open_folder: &'static str,
    pub new_note: &'static str,
    pub search: &'static str,
    pub preview: &'static str,
    pub notes: &'static str,
    pub settings: &'static str,
    pub rename: &'static str,
    pub delete: &'static str,
    pub saved: &'static str,
    pub unsaved: &'static str,
    pub no_matches: &'static str,
    pub no_vault: &'static str,
    pub select_or_create: &'static str,
    pub tagline: &'static str,
    pub open_folder_dots: &'static str,
    pub search_all_notes: &'static str,
    pub type_to_filter: &'static str,
    pub type_a_command: &'static str,
    pub no_matching_notes: &'static str,
    pub quick_switcher: &'static str,
    pub command_palette: &'static str,
    pub ok: &'static str,
    pub cancel: &'static str,
    pub yes: &'static str,
    pub no: &'static str,
    pub confirm: &'static str,
    pub confirm_delete: &'static str,
    pub new_note_prompt: &'static str,
    pub rename_prompt: &'static str,
    pub front_matter: &'static str,
    pub title_label: &'static str,
    pub tags_label: &'static str,
    pub file_gone: &'static str,
    pub no_buffer: &'static str,
    pub note_label: &'static str,
    pub create_note_button: &'static str,
    pub glossary_refs_heading: &'static str,
    // Command palette
    pub cmd_toggle_preview: &'static str,
    pub cmd_new_note: &'static str,
    pub cmd_save: &'static str,
    pub cmd_open_folder: &'static str,
    pub cmd_focus_search: &'static str,
    pub cmd_settings: &'static str,
    // Settings dialog
    pub settings_title: &'static str,
    pub general_heading: &'static str,
    pub editor_heading: &'static str,
    pub glossary_heading: &'static str,
    pub shortcuts_heading: &'static str,
    pub language_label: &'static str,
    pub set_autosave: &'static str,
    pub set_preview: &'static str,
    pub font_size_label: &'static str,
    pub set_glossary: &'static str,
    pub set_glossary_ci: &'static str,
    pub show_refs_below: &'static str,
    pub set_glossary_max: &'static str,
    pub min_term_length: &'static str,
    pub glossary_folders_hint: &'static str,
    pub shortcuts_hint: &'static str,
    pub change_button: &'static str,
    pub set_close: &'static str,
    pub shortcut_hint_open: &'static str,
    pub sync_scroll_on: &'static str,
    pub sync_scroll_off: &'static str,
    pub glossary_on: &'static str,
    pub glossary_off: &'static str,
    // Action names (settings keybind grid)
    pub act_open_folder: &'static str,
    pub act_quick_switcher: &'static str,
    pub act_command_palette: &'static str,
    pub act_save: &'static str,
    pub act_new_note: &'static str,
    pub act_toggle_preview: &'static str,
    pub act_focus_search: &'static str,
    pub act_open_settings: &'static str,
    pub act_close_note: &'static str,
    pub act_next_note: &'static str,
    pub act_prev_note: &'static str,
    pub act_toggle_glossary: &'static str,
    pub act_toggle_sync_scroll: &'static str,
}

/// The labels of all actions are non-empty.
pub open spec fn action_labels_present(t: Texts) -> bool {
    &&& t.act_open_folder@.len() > 0
    &&& t.act_quick_switcher@.len() > 0
    &&& t.act_command_palette@.len() > 0
    &&& t.act_save@.len() > 0
    &&& t.act_new_note@.len() > 0
    &&& t.act_toggle_preview@.len() > 0
    &&& t.act_focus_search@.len() > 0
    &&& t.act_open_settings@.len() > 0
    &&& t.act_close_note@.len() > 0
    &&& t.act_next_note@.len() > 0
    &&& t.act_prev_note@.len() > 0
    &&& t.act_toggle_glossary@.len() > 0
    &&& t.act_toggle_sync_scroll@.len() > 0
}

/// The English strings, as a value.
pub open spec fn english_table() -> Texts {
    Texts {
        language: Language::En,
        open_folder: "Open folder",
        new_note: "New note",
        search: "Search",
        preview: "Preview",
        notes: "Notes",
        settings: "Settings",
        rename: "Rename",
        delete: "Delete",
        saved: "saved",
        unsaved: "● unsaved",
        no_matches: "No matches",
        no_vault: "No vault open",
        select_or_create: "Select or create a note (Ctrl+N)",
        tagline: "A fast Markdown editor",
        open_folder_dots: "Open folder…",
        search_all_notes: "Search all notes…",
        type_to_filter: "Type to filter notes…",
        type_a_command: "Type a command…",
        no_matching_notes: "No matching notes",
        quick_switcher: "Quick switcher",
        command_palette: "Command palette",
        ok: "OK",
        cancel: "Cancel",
        yes: "Yes",
        no: "No",
        confirm: "Confirm",
        confirm_delete: "Delete this note? This cannot be undone.",
        new_note_prompt: "New note name (folders allowed):",
        rename_prompt: "Rename to:",
        front_matter: "Front matter:",
        title_label: "Title:",
        tags_label: "Tags:",
        file_gone: "(file no longer exists)",
        no_buffer: "(no buffer)",
        note_label: "Note:",
        create_note_button: "Create new note",
        glossary_refs_heading: "Glossary:",
        cmd_toggle_preview: "Toggle preview",
        cmd_new_note: "New note",
        cmd_save: "Save now",
        cmd_open_folder: "Open folder…",
        cmd_focus_search: "Focus search",
        cmd_settings: "Open settings",
        settings_title: "Settings",
        general_heading: "General",
        editor_heading: "Editor",
        glossary_heading: "Glossary",
        shortcuts_heading: "Shortcuts",
        language_label: "Language",
        set_autosave: "Autosave delay (ms)",
        set_preview: "Show preview by default",
        font_size_label: "Font size:",
        set_glossary: "Glossary active (auto-link terms)",
        set_glossary_ci: "Ignore case in glossary",
        show_refs_below: "Show references below the preview",
        set_glossary_max: "Max. glossary hits per note",
        min_term_length: "Minimum term length:",
        glossary_folders_hint: "Glossary subfolders (one per line, empty = whole vault):",
        shortcuts_hint: "Click “Change”, then press a key. Escape cancels.",
        change_button: "Change",
        set_close: "Close",
        shortcut_hint_open: "Ctrl+O",
        sync_scroll_on: "Synced scrolling enabled",
        sync_scroll_off: "Synced scrolling disabled",
        glossary_on: "Glossary enabled",
        glossary_off: "Glossary disabled",
        act_open_folder: "Open folder",
        act_quick_switcher: "Quick switcher",
        act_command_palette: "Command palette",
        act_save: "Save",
        act_new_note: "New note",
        act_toggle_preview: "Toggle preview",
        act_focus_search: "Focus search",
        act_open_settings: "Open settings",
        act_close_note: "Close note",
        act_next_note: "Next note",
        act_prev_note: "Previous note",
        act_toggle_glossary: "Toggle glossary",
        act_toggle_sync_scroll: "Toggle sync scroll",
    }
}

/// The German strings, as a value.
pub open spec fn german_table() -> Texts {
    Texts {
        language: Language::De,
        open_folder: "Ordner öffnen",
        new_note: "Neue Notiz",
        search: "Suche",
        preview: "Vorschau",
        notes: "Notizen",
        settings: "Einstellungen",
        rename: "Umbenennen",
        delete: "Löschen",
        saved: "gespeichert",
        unsaved: "● ungespeichert",
        no_matches: "Keine Treffer",
        no_vault: "Kein Vault geöffnet",
        select_or_create: "Notiz auswählen oder erstellen (Strg+N)",
        tagline: "Ein schneller Markdown-Editor",
        open_folder_dots: "Ordner öffnen…",
        search_all_notes: "Alle Notizen durchsuchen…",
        type_to_filter: "Tippen, um Notizen zu filtern…",
        type_a_command: "Befehl eingeben…",
        no_matching_notes: "Keine passenden Notizen",
        quick_switcher: "Schnellwechsler",
        command_palette: "Befehlspalette",
        ok: "OK",
        cancel: "Abbrechen",
        yes: "Ja",
        no: "Nein",
        confirm: "Bestätigen",
        confirm_delete: "Diese Notiz löschen? Das kann nicht rückgängig gemacht werden.",
        new_note_prompt: "Name der neuen Notiz (Ordner erlaubt):",
        rename_prompt: "Umbenennen in:",
        front_matter: "Front-Matter:",
        title_label: "Titel:",
        tags_label: "Tags:",
        file_gone: "(Datei existiert nicht mehr)",
        no_buffer: "(kein Puffer)",
        note_label: "Notiz:",
        create_note_button: "Neue Notiz erstellen",
        glossary_refs_heading: "Glossar:",
        cmd_toggle_preview: "Vorschau umschalten",
        cmd_new_note: "Neue Notiz",
        cmd_save: "Jetzt speichern",
        cmd_open_folder: "Ordner öffnen…",
        cmd_focus_search: "Suche fokussieren",
        cmd_settings: "Einstellungen öffnen",
        settings_title: "Einstellungen",
        general_heading: "Allgemein",
        editor_heading: "Editor",
        glossary_heading: "Glossar",
        shortcuts_heading: "Tastenkürzel",
        language_label: "Sprache",
        set_autosave: "Autospeichern-Verzögerung (ms)",
        set_preview: "Vorschau standardmäßig anzeigen",
        font_size_label: "Schriftgröße:",
        set_glossary: "Glossar aktiv (Begriffe automatisch verlinken)",
        set_glossary_ci: "Groß-/Kleinschreibung im Glossar ignorieren",
        show_refs_below: "Verweise unter der Vorschau anzeigen",
        set_glossary_max: "Max. Glossar-Treffer pro Notiz",
        min_term_length: "Minimale Begriffslänge:",
        glossary_folders_hint: "Glossar-Unterordner (einer pro Zeile, leer = gesamter Vault):",
        shortcuts_hint: "Klick auf „Ändern“, dann Taste drücken. Escape bricht ab.",
        change_button: "Ändern",
        set_close: "Schließen",
        shortcut_hint_open: "Strg+O",
        sync_scroll_on: "Synchronisiertes Scrollen aktiviert",
        sync_scroll_off: "Synchronisiertes Scrollen deaktiviert",
        glossary_on: "Glossar aktiviert",
        glossary_off: "Glossar deaktiviert",
        act_open_folder: "Ordner öffnen",
        act_quick_switcher: "Schnellwechsler",
        act_command_palette: "Befehlspalette",
        act_save: "Speichern",
        act_new_note: "Neue Notiz",
        act_toggle_preview: "Vorschau umschalten",
        act_focus_search: "Suche fokussieren",
        act_open_settings: "Einstellungen",
        act_close_note: "Notiz schließen",
        act_next_note: "Nächste Notiz",
        act_prev_note: "Vorherige Notiz",
        act_toggle_glossary: "Glossar umschalten",
        act_toggle_sync_scroll: "Sync-Scroll umschalten",
    }
}

/// The table of a language.
pub open spec fn table_of(l: Language) -> Texts {
    match l {
        Language::En => english_table(),
        Language::De => german_table(),
    }
}

/// The English strings.
fn english_texts() -> (r: &'static Texts)
    ensures
        *r == english_table(),
        action_labels_present(*r),
{
    proof {
        reveal_strlit("Open folder");
        reveal_strlit("Quick switcher");
        reveal_strlit("Command palette");
        reveal_strlit("Save");
        reveal_strlit("New note");
        reveal_strlit("Toggle preview");
        reveal_strlit("Focus search");
        reveal_strlit("Open settings");
        reveal_strlit("Close note");
        reveal_strlit("Next note");
        reveal_strlit("Previous note");
        reveal_strlit("Toggle glossary");
        reveal_strlit("Toggle sync scroll");
    }
    &Texts {
        language: Language::En,
        open_folder: "Open folder",
        new_note: "New note",
        search: "Search",
        preview: "Preview",
        notes: "Notes",
        settings: "Settings",
        rename: "Rename",
        delete: "Delete",
        saved: "saved",
        unsaved: "● unsaved",
        no_matches: "No matches",
        no_vault: "No vault open",
        select_or_create: "Select or create a note (Ctrl+N)",
        tagline: "A fast Markdown editor",
        open_folder_dots: "Open folder…",
        search_all_notes: "Search all notes…",
        type_to_filter: "Type to filter notes…",
        type_a_command: "Type a command…",
        no_matching_notes: "No matching notes",
        quick_switcher: "Quick switcher",
        command_palette: "Command palette",
        ok: "OK",
        cancel: "Cancel",
        yes: "Yes",
        no: "No",
        confirm: "Confirm",
        confirm_delete: "Delete this note? This cannot be undone.",
        new_note_prompt: "New note name (folders allowed):",
        rename_prompt: "Rename to:",
        front_matter: "Front matter:",
        title_label: "Title:",
        tags_label: "Tags:",
        file_gone: "(file no longer exists)",
        no_buffer: "(no buffer)",
        note_label: "Note:",
        create_note_button: "Create new note",
        glossary_refs_heading: "Glossary:",
        cmd_toggle_preview: "Toggle preview",
        cmd_new_note: "New note",
        cmd_save: "Save now",
        cmd_open_folder: "Open folder…",
        cmd_focus_search: "Focus search",
        cmd_settings: "Open settings",
        settings_title: "Settings",
        general_heading: "General",
        editor_heading: "Editor",
        glossary_heading: "Glossary",
        shortcuts_heading: "Shortcuts",
        language_label: "Language",
        set_autosave: "Autosave delay (ms)",
        set_preview: "Show preview by default",
        font_size_label: "Font size:",
        set_glossary: "Glossary active (auto-link terms)",
        set_glossary_ci: "Ignore case in glossary",
        show_refs_below: "Show references below the preview",
        set_glossary_max: "Max. glossary hits per note",
        min_term_length: "Minimum term length:",
        glossary_folders_hint: "Glossary subfolders (one per line, empty = whole vault):",
        shortcuts_hint: "Click “Change”, then press a key. Escape cancels.",
        change_button: "Change",
        set_close: "Close",
        shortcut_hint_open: "Ctrl+O",
        sync_scroll_on: "Synced scrolling enabled",
        sync_scroll_off: "Synced scrolling disabled",
        glossary_on: "Glossary enabled",
        glossary_off: "Glossary disabled",
        act_open_folder: "Open folder",
        act_quick_switcher: "Quick switcher",
        act_command_palette: "Command palette",
        act_save: "Save",
        act_new_note: "New note",
        act_toggle_preview: "Toggle preview",
        act_focus_search: "Focus search",
        act_open_settings: "Open settings",
        act_close_note: "Close note",
        act_next_note: "Next note",
        act_prev_note: "Previous note",
        act_toggle_glossary: "Toggle glossary",
        act_toggle_sync_scroll: "Toggle sync scroll",
    }
}

/// The German strings.
fn german_texts() -> (r: &'static Texts)
    ensures
        *r == german_table(),
        action_labels_present(*r),
{
    proof {
        reveal_strlit("Ordner öffnen");
        reveal_strlit("Schnellwechsler");
        reveal_strlit("Befehlspalette");
        reveal_strlit("Speichern");
        reveal_strlit("Neue Notiz");
        reveal_strlit("Vorschau umschalten");
        reveal_strlit("Suche fokussieren");
        reveal_strlit("Einstellungen");
        reveal_strlit("Notiz schließen");
        reveal_strlit("Nächste Notiz");
        reveal_strlit("Vorherige Notiz");
        reveal_strlit("Glossar umschalten");
        reveal_strlit("Sync-Scroll umschalten");
    }
    &Texts {
        language: Language::De,
        open_folder: "Ordner öffnen",
        new_note: "Neue Notiz",
        search: "Suche",
        preview: "Vorschau",
        notes: "Notizen",
        settings: "Einstellungen",
        rename: "Umbenennen",
        delete: "Löschen",
        saved: "gespeichert",
        unsaved: "● ungespeichert",
        no_matches: "Keine Treffer",
        no_vault: "Kein Vault geöffnet",
        select_or_create: "Notiz auswählen oder erstellen (Strg+N)",
        tagline: "Ein schneller Markdown-Editor",
        open_folder_dots: "Ordner öffnen…",
        search_all_notes: "Alle Notizen durchsuchen…",
        type_to_filter: "Tippen, um Notizen zu filtern…",
        type_a_command: "Befehl eingeben…",
        no_matching_notes: "Keine passenden Notizen",
        quick_switcher: "Schnellwechsler",
        command_palette: "Befehlspalette",
        ok: "OK",
        cancel: "Abbrechen",
        yes: "Ja",
        no: "Nein",
        confirm: "Bestätigen",
        confirm_delete: "Diese Notiz löschen? Das kann nicht rückgängig gemacht werden.",
        new_note_prompt: "Name der neuen Notiz (Ordner erlaubt):",
        rename_prompt: "Umbenennen in:",
        front_matter: "Front-Matter:",
        title_label: "Titel:",
        tags_label: "Tags:",
        file_gone: "(Datei existiert nicht mehr)",
        no_buffer: "(kein Puffer)",
        note_label: "Notiz:",
        create_note_button: "Neue Notiz erstellen",
        glossary_refs_heading: "Glossar:",
        cmd_toggle_preview: "Vorschau umschalten",
        cmd_new_note: "Neue Notiz",
        cmd_save: "Jetzt speichern",
        cmd_open_folder: "Ordner öffnen…",
        cmd_focus_search: "Suche fokussieren",
        cmd_settings: "Einstellungen öffnen",
        settings_title: "Einstellungen",
        general_heading: "Allgemein",
        editor_heading: "Editor",
        glossary_heading: "Glossar",
        shortcuts_heading: "Tastenkürzel",
        language_label: "Sprache",
        set_autosave: "Autospeichern-Verzögerung (ms)",
        set_preview: "Vorschau standardmäßig anzeigen",
        font_size_label: "Schriftgröße:",
        set_glossary: "Glossar aktiv (Begriffe automatisch verlinken)",
        set_glossary_ci: "Groß-/Kleinschreibung im Glossar ignorieren",
        show_refs_below: "Verweise unter der Vorschau anzeigen",
        set_glossary_max: "Max. Glossar-Treffer pro Notiz",
        min_term_length: "Minimale Begriffslänge:",
        glossary_folders_hint: "Glossar-Unterordner (einer pro Zeile, leer = gesamter Vault):",
        shortcuts_hint: "Klick auf „Ändern“, dann Taste drücken. Escape bricht ab.",
        change_button: "Ändern",
        set_close: "Schließen",
        shortcut_hint_open: "Strg+O",
        sync_scroll_on: "Synchronisiertes Scrollen aktiviert",
        sync_scroll_off: "Synchronisiertes Scrollen deaktiviert",
        glossary_on: "Glossar aktiviert",
        glossary_off: "Glossar deaktiviert",
        act_open_folder: "Ordner öffnen",
        act_quick_switcher: "Schnellwechsler",
        act_command_palette: "Befehlspalette",
        act_save: "Speichern",
        act_new_note: "Neue Notiz",
        act_toggle_preview: "Vorschau umschalten",
        act_focus_search: "Suche fokussieren",
        act_open_settings: "Einstellungen",
        act_close_note: "Notiz schließen",
        act_next_note: "Nächste Notiz",
        act_prev_note: "Vorherige Notiz",
        act_toggle_glossary: "Glossar umschalten",
        act_toggle_sync_scroll: "Sync-Scroll umschalten",
    }
}

impl Language {
    /// `"de"`, `"deutsch"` and `"german"` (trimmed, any case) are German;
    /// every other code is English.
    pub fn from_code(s: &str) -> (r: Language)
        ensures
            r == language_of(s.spec_bytes()),
            forall|l: Language| s@ == language_code(l) ==> r == l,
    {
        proof {
            if s@ == language_code(Language::En) || s@ == language_code(Language::De) {
                reveal_with_fuel(encode_utf8, 3);
                encode_utf8_decode_utf8(s@);
                let b = s.spec_bytes();
                assert((101u32 & 0x7F) as u8 == 101u8) by (bit_vector);
                assert((110u32 & 0x7F) as u8 == 110u8) by (bit_vector);
                assert((100u32 & 0x7F) as u8 == 100u8) by (bit_vector);
                assert(encode_scalar('e' as u32) =~= seq![101u8]);
                assert(encode_scalar('n' as u32) =~= seq![110u8]);
                assert(encode_scalar('d' as u32) =~= seq![100u8]);
                assert(s@.drop_first().drop_first() =~= Seq::<char>::empty());
                if s@ == language_code(Language::En) {
                    assert(s@.drop_first() =~= seq!['n']);
                    assert(b =~= seq![101u8, 110u8]);
                } else {
                    assert(s@.drop_first() =~= seq!['e']);
                    assert(b =~= seq![100u8, 101u8]);
                }
                assert(trimmed(b) =~= b);
                assert(decode_utf8(trimmed(b)) == s@);
                assert forall|i: int| 0 <= i < s@.len() implies 'a' <= #[trigger] s@[i] <= 'z' by {}
            }
        }
        let l = trimmed_lower(s);
        let k = l.as_str().as_bytes();
        proof {
            if s@ == language_code(Language::En) || s@ == language_code(Language::De) {
                assert(l@ == s@);
                assert(k@ == s.spec_bytes());
                assert(k@.len() == 2);
            }
        }
        let de: [u8; 2] = [100, 101];
        let deutsch: [u8; 7] = [100, 101, 117, 116, 115, 99, 104];
        let german: [u8; 6] = [103, 101, 114, 109, 97, 110];
        proof {
            assert(de@ =~= seq![100u8, 101u8]);
            assert(deutsch@ =~= seq![100u8, 101u8, 117u8, 116u8, 115u8, 99u8, 104u8]);
            assert(german@ =~= seq![103u8, 101u8, 114u8, 109u8, 97u8, 110u8]);
        }
        if bytes_eq(k, de.as_slice()) || bytes_eq(k, deutsch.as_slice()) || bytes_eq(
            k,
            german.as_slice(),
        ) {
            Language::De
        } else {
            Language::En
        }
    }

    /// The code of the language: `"en"` or `"de"`.
    pub fn code(self) -> (r: &'static str)
        ensures
            r@ == language_code(self),
    {
        proof {
            reveal_strlit("en");
            reveal_strlit("de");
        }
        match self {
            Language::En => "en",
            Language::De => "de",
        }
    }
}

/// The language a code names (see [`Language::from_code`]).
pub open spec fn language_of(code: Seq<u8>) -> Language {
    let k = name_key(decode_utf8(trimmed(code)));
    if k == seq![100u8, 101u8] || k == seq![100u8, 101u8, 117u8, 116u8, 115u8, 99u8, 104u8] || k
        == seq![103u8, 101u8, 114u8, 109u8, 97u8, 110u8] {
        Language::De
    } else {
        Language::En
    }
}

/// The code of a language.
pub open spec fn language_code(l: Language) -> Seq<char> {
    match l {
        Language::En => seq!['e', 'n'],
        Language::De => seq!['d', 'e'],
    }
}

/// Pick the table for a language (English default).
pub fn pick(lang: Language) -> (r: &'static Texts)
    ensures
        *r == table_of(lang),
        r.language == lang,
        action_labels_present(*r),
{
    match lang {
        Language::En => english_texts(),
        Language::De => german_texts(),
    }
}

/// Pick by `"en"` / `"de"` code; unknown codes give English.
pub fn pick_code(code: &str) -> (r: &'static Texts)
    ensures
        *r == table_of(language_of(code.spec_bytes())),
        r.language == language_of(code.spec_bytes()),
        action_labels_present(*r),
{
    pick(Language::from_code(code))
}

/// The decimal digits of `n`.
pub open spec fn decimal(n: nat) -> Seq<char>
    decreases n,
{
    if n < 10 {
        seq![(48 + n) as char]
    } else {
        decimal(n / 10) + seq![(48 + n % 10) as char]
    }
}

fn digit_str(d: usize) -> (r: &'static str)
    requires
        d < 10,
    ensures
        r@ == seq![(48 + d) as char],
{
    proof {
        reveal_strlit("0");
        reveal_strlit("1");
        reveal_strlit("2");
        reveal_strlit("3");
        reveal_strlit("4");
        reveal_strlit("5");
        reveal_strlit("6");
        reveal_strlit("7");
        reveal_strlit("8");
        reveal_strlit("9");
    }
    match d {
        0 => "0",
        1 => "1",
        2 => "2",
        3 => "3",
        4 => "4",
        5 => "5",
        6 => "6",
        7 => "7",
        8 => "8",
        _ => "9",
    }
}

/// Appends the decimal digits of `n`.
fn push_decimal(s: &mut String, n: usize)
    ensures
        final(s)@ == old(s)@ + decimal(n as nat),
    decreases n,
{
    if n >= 10 {
        push_decimal(s, n / 10);
    }
    s.append(digit_str(n % 10));
    proof {
        if n < 10 {
            assert(n % 10 == n);
        }
    }
}

/// `a` followed by `b`.
fn joined(a: &str, b: &str) -> (r: String)
    ensures
        r@ == a@ + b@,
{
    let mut s = String::from_str(a);
    s.append(b);
    s
}

/// `a`, then `b`, then `c`.
fn joined3(a: &str, b: &str, c: &str) -> (r: String)
    ensures
        r@ == a@ + b@ + c@,
{
    let mut s = String::from_str(a);
    s.append(b);
    s.append(c);
    s
}

/// `a`, then `b`, then `c`, then `d`.
fn joined4(a: &str, b: &str, c: &str, d: &str) -> (r: String)
    ensures
        r@ == a@ + b@ + c@ + d@,
{
    let mut s = String::from_str(a);
    s.append(b);
    s.append(c);
    s.append(d);
    s
}

/// `a`, the decimal digits of `n`, then `b`.
fn with_number(a: &str, n: usize, b: &str) -> (r: String)
    ensures
        r@ == a@ + decimal(n as nat) + b@,
{
    let mut s = String::from_str(a);
    push_decimal(&mut s, n);
    s.append(b);
    s
}

/// The English text when the table is English, else the German one.
pub open spec fn by_lang(t: Texts, en: Seq<char>, de: Seq<char>) -> Seq<char> {
    if t.language == Language::En {
        en
    } else {
        de
    }
}

// Status messages (language-aware).
impl Texts {
    pub fn status_vault(&self, p: &str) -> (r: String)
        ensures
            r@ == "Vault: "@ + p@,
    {
        joined("Vault: ", p)
    }

    pub fn status_created(&self, r: &str) -> (s: String)
        ensures
            s@ == by_lang(*self, "Created: "@, "Erstellt: "@) + r@,
    {
        if self.language == Language::En {
            joined("Created: ", r)
        } else {
            joined("Erstellt: ", r)
        }
    }

    pub fn status_renamed(&self, r: &str) -> (s: String)
        ensures
            s@ == by_lang(*self, "Renamed: "@, "Umbenannt: "@) + r@,
    {
        if self.language == Language::En {
            joined("Renamed: ", r)
        } else {
            joined("Umbenannt: ", r)
        }
    }

    pub fn status_deleted(&self) -> (s: String)
        ensures
            s@ == by_lang(*self, "Note deleted"@, "Notiz gelöscht"@),
    {
        if self.language == Language::En {
            String::from_str("Note deleted")
        } else {
            String::from_str("Notiz gelöscht")
        }
    }

    pub fn status_saved(&self) -> (s: String)
        ensures
            s@ == by_lang(*self, "Saved"@, "Gespeichert"@),
    {
        if self.language == Language::En {
            String::from_str("Saved")
        } else {
            String::from_str("Gespeichert")
        }
    }

    pub fn status_note_not_found(&self) -> (s: String)
        ensures
            s@ == by_lang(*self, "Note not found"@, "Notiz nicht gefunden"@),
    {
        if self.language == Language::En {
            String::from_str("Note not found")
        } else {
            String::from_str("Notiz nicht gefunden")
        }
    }

    pub fn status_open_failed(&self) -> (s: String)
        ensures
            s@ == by_lang(*self, "Could not open note"@, "Notiz konnte nicht geöffnet werden"@),
    {
        if self.language == Language::En {
            String::from_str("Could not open note")
        } else {
            String::from_str("Notiz konnte nicht geöffnet werden")
        }
    }

    pub fn status_opening(&self, p: &str) -> (s: String)
        ensures
            s@ == by_lang(*self, "Opening "@, "Öffne "@) + p@ + " …"@,
    {
        if self.language == Language::En {
            joined3("Opening ", p, " …")
        } else {
            joined3("Öffne ", p, " …")
        }
    }

    pub fn status_reopen_failed(&self, p: &str, e: &str) -> (s: String)
        ensures
            s@ == by_lang(*self, "Could not open "@, "Konnte "@) + p@ + by_lang(
                *self,
                ": "@,
                " nicht öffnen: "@,
            ) + e@,
    {
        if self.language == Language::En {
            joined4("Could not open ", p, ": ", e)
        } else {
            joined4("Konnte ", p, " nicht öffnen: ", e)
        }
    }

    pub fn status_open_failed_path(&self, p: &str, e: &str) -> (s: String)
        ensures
            s@ == by_lang(*self, "Error opening "@, "Fehler beim Öffnen von "@) + p@ + ": "@ + e@,
    {
        if self.language == Language::En {
            joined4("Error opening ", p, ": ", e)
        } else {
            joined4("Fehler beim Öffnen von ", p, ": ", e)
        }
    }

    pub fn status_create_failed(&self, e: &str) -> (s: String)
        ensures
            s@ == by_lang(*self, "Create failed: "@, "Erstellen fehlgeschlagen: "@) + e@,
    {
        if self.language == Language::En {
            joined("Create failed: ", e)
        } else {
            joined("Erstellen fehlgeschlagen: ", e)
        }
    }

    pub fn status_rename_failed(&self, e: &str) -> (s: String)
        ensures
            s@ == by_lang(*self, "Rename failed: "@, "Umbenennen fehlgeschlagen: "@) + e@,
    {
        if self.language == Language::En {
            joined("Rename failed: ", e)
        } else {
            joined("Umbenennen fehlgeschlagen: ", e)
        }
    }

    pub fn status_delete_failed(&self, e: &str) -> (s: String)
        ensures
            s@ == by_lang(*self, "Delete failed: "@, "Löschen fehlgeschlagen: "@) + e@,
    {
        if self.language == Language::En {
            joined("Delete failed: ", e)
        } else {
            joined("Löschen fehlgeschlagen: ", e)
        }
    }

    pub fn status_save_failed(&self, e: &str) -> (s: String)
        ensures
            s@ == by_lang(*self, "Save failed: "@, "Speichern fehlgeschlagen: "@) + e@,
    {
        if self.language == Language::En {
            joined("Save failed: ", e)
        } else {
            joined("Speichern fehlgeschlagen: ", e)
        }
    }

    pub fn status_notes_count(&self, n: usize) -> (s: String)
        ensures
            s@ == decimal(n as nat) + by_lang(*self, " notes"@, " Notizen"@),
    {
        proof {
            reveal_strlit("");
        }
        if self.language == Language::En {
            with_number("", n, " notes")
        } else {
            with_number("", n, " Notizen")
        }
    }

    pub fn status_glossary_hits(&self, n: usize) -> (s: String)
        ensures
            s@ == by_lang(*self, "Glossary: "@, "Glossar: "@) + decimal(n as nat) + by_lang(
                *self,
                " term(s) linked"@,
                " Begriff(e) verlinkt"@,
            ),
    {
        if self.language == Language::En {
            with_number("Glossary: ", n, " term(s) linked")
        } else {
            with_number("Glossar: ", n, " Begriff(e) verlinkt")
        }
    }
}

} // verus!

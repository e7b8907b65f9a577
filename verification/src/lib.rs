use vstd::prelude::*;

pub mod text;
pub mod code_highlight;
pub mod markdown;
pub mod editor;
pub mod glossary;
pub mod editor_links;
pub mod i18n;
pub mod einstellungen;
pub mod settings;
pub mod settings_file;
pub mod search;
pub mod vault;
pub mod preview_sync;

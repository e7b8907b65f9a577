//! Reading the settings file: the file's JSON as a value of the library, and
//! the settings it gives. Each field of the defaults is overlaid with what
//! the file holds under its name, or under its older German name; keybinds
//! come from the file when it lists any, else the defaults apply. The font
//! sizes and line spacing are floating point and are read by the program.

use vstd::prelude::*;
use vstd::string::{StringExecFns, StringSliceAdditionalSpecFns};

use crate::settings::{default_table, kbs_view, keybinds_from_file, string_pairs};
use crate::text::str_eq;

verus! {

#[verifier::external_type_specification]
#[verifier::external_body]
pub struct ExJsonValue(serde_json::Value);

/// A JSON value as the settings read it: a number is kept as the `u64` it
/// holds, or `None` when it is not a non-negative integer.
#[derive(Debug)]
pub enum Json {
    Null,
    Bool(bool),
    Num(Option<u64>),
    Str(String),
    Arr(Vec<Json>),
    Obj(Vec<(String, Json)>),
}

/// What [`parse_json`] gives for a text.
pub uninterp spec fn json_of(text: Seq<char>) -> Option<Json>;

/// The value of a serde_json value, one for one (objects in key order).
#[verifier::external_body]
fn json_from_value(v: serde_json::Value) -> Json {
    match v {
        serde_json::Value::Null => Json::Null,
        serde_json::Value::Bool(b) => Json::Bool(b),
        serde_json::Value::Number(n) => Json::Num(n.as_u64()),
        serde_json::Value::String(s) => Json::Str(s),
        serde_json::Value::Array(a) => Json::Arr(a.into_iter().map(json_from_value).collect()),
        serde_json::Value::Object(m) => Json::Obj(
            m.into_iter().map(|(k, x)| (k, json_from_value(x))).collect(),
        ),
    }
}

/// The JSON value of `text`; `None` when it is not JSON.
///
/// Calls `serde_json::from_str::<serde_json::Value>`, whose result depends on
/// the text alone; the contract names it.
#[verifier::external_body]
fn parse_json(text: &str) -> (r: Option<Json>)
    ensures
        r == json_of(text@),
{
    serde_json::from_str::<serde_json::Value>(text).ok().map(json_from_value)
}

/// The settings other than the floating-point ones.
#[derive(Debug, Clone, PartialEq)]
pub struct SettingsCore {
    pub last_vault: Option<String>,
    pub autosave_ms: u64,
    pub preview_visible: bool,
    pub glossary_enabled: bool,
    pub glossary_case_insensitive: bool,
    pub glossary_max_hits: usize,
    /// Folders (relative to the vault) that hold glossary notes.
    pub glossary_folders: Vec<String>,
    pub glossary_preview_list: bool,
    pub glossary_min_len: usize,
    pub sync_scroll: bool,
    pub editor_line_numbers: bool,
    /// UI language code.
    pub language: String,
    /// Keybinds as (action key, combination) pairs.
    pub keybinds: Vec<(String, String)>,
}

/// The value under `key` in the entries of an object: the first entry so named.
pub open spec fn lookup(m: Seq<(String, Json)>, key: Seq<char>) -> Option<Json>
    decreases m.len(),
{
    if m.len() == 0 {
        None
    } else if m[0].0@ == key {
        Some(m[0].1)
    } else {
        lookup(m.drop_first(), key)
    }
}

/// The value under `en`, else under the older name `de`.
pub open spec fn lookup2(m: Seq<(String, Json)>, en: Seq<char>, de: Seq<char>) -> Option<Json> {
    match lookup(m, en) {
        Some(v) => Some(v),
        None => lookup(m, de),
    }
}

/// A boolean value, else `d`.
pub open spec fn bool_or(j: Option<Json>, d: bool) -> bool {
    match j {
        Some(Json::Bool(b)) => b,
        _ => d,
    }
}

/// A non-negative integer value, else `d`.
pub open spec fn u64_or(j: Option<Json>, d: u64) -> u64 {
    match j {
        Some(Json::Num(Some(n))) => n,
        _ => d,
    }
}

/// A string value.
pub open spec fn str_of(j: Option<Json>) -> Option<Seq<char>> {
    match j {
        Some(Json::Str(s)) => Some(s@),
        _ => None,
    }
}

/// The strings among the values, in order.
pub open spec fn strings_of(a: Seq<Json>) -> Seq<Seq<char>>
    decreases a.len(),
{
    if a.len() == 0 {
        seq![]
    } else {
        let rest = strings_of(a.drop_last());
        match a.last() {
            Json::Str(s) => rest.push(s@),
            _ => rest,
        }
    }
}

/// A keybind entry: an array whose first two values are strings.
pub open spec fn pair_of(j: Json) -> Option<(Seq<char>, Seq<char>)> {
    match j {
        Json::Arr(x) => if x.len() >= 2 {
            match (x[0], x[1]) {
                (Json::Str(a), Json::Str(b)) => Some((a@, b@)),
                _ => None,
            }
        } else {
            None
        },
        _ => None,
    }
}

/// The keybind entries among the values, in order.
pub open spec fn pairs_of(a: Seq<Json>) -> Seq<(Seq<char>, Seq<char>)>
    decreases a.len(),
{
    if a.len() == 0 {
        seq![]
    } else {
        let rest = pairs_of(a.drop_last());
        match pair_of(a.last()) {
            Some(p) => rest.push(p),
            None => rest,
        }
    }
}

/// The entries of the file's top-level object; none when it is no object.
pub open spec fn file_entries(file: Option<Json>) -> Seq<(String, Json)> {
    match file {
        Some(Json::Obj(m)) => m@,
        _ => seq![],
    }
}

/// An optional string by its characters.
pub open spec fn opt_view(o: Option<String>) -> Option<Seq<char>> {
    match o {
        Some(s) => Some(s@),
        None => None,
    }
}

/// `r` is the settings that `file` gives: the defaults (autosave 800 ms,
/// preview shown, glossary on and ignoring case with at most 500 hits in the
/// folder `Glossar`, terms of at least 3 characters listed below the preview,
/// synced scrolling, no line numbers, English, the default keybinds), each
/// field overlaid with the file's value of the right type under its name or
/// its older German name.
pub open spec fn core_from_file(r: SettingsCore, file: Option<Json>) -> bool {
    let m = file_entries(file);
    &&& opt_view(r.last_vault) == str_of(lookup(m, "last_vault"@))
    &&& r.autosave_ms == u64_or(lookup(m, "autosave_ms"@), 800)
    &&& r.preview_visible == bool_or(lookup2(m, "preview_visible"@, "vorschau_sichtbar"@), true)
    &&& r.glossary_enabled == bool_or(lookup2(m, "glossary_enabled"@, "glossar_aktiv"@), true)
    &&& r.glossary_case_insensitive == bool_or(
        lookup2(m, "glossary_case_insensitive"@, "glossar_case_insensitive"@),
        true,
    )
    &&& r.glossary_max_hits == match lookup2(m, "glossary_max_hits"@, "glossar_max_treffer"@) {
        Some(Json::Num(Some(n))) => n as usize,
        _ => 500usize,
    }
    &&& r.glossary_min_len == match lookup2(m, "glossary_min_len"@, "glossar_min_laenge"@) {
        Some(Json::Num(Some(n))) => n as usize,
        _ => 3usize,
    }
    &&& r.glossary_preview_list == bool_or(
        lookup2(m, "glossary_preview_list"@, "glossar_vorschau_liste"@),
        true,
    )
    &&& r.sync_scroll == bool_or(lookup2(m, "sync_scroll"@, "sync_scroll_aktiv"@), true)
    &&& r.editor_line_numbers == bool_or(lookup(m, "editor_line_numbers"@), false)
    &&& r.language@ == match str_of(lookup(m, "language"@)) {
        Some(s) => s,
        None => "en"@,
    }
    &&& r.glossary_folders@.map_values(|s: String| s@) == match lookup2(
        m,
        "glossary_folders"@,
        "glossar_ordner"@,
    ) {
        Some(Json::Arr(a)) => strings_of(a@),
        _ => seq!["Glossar"@],
    }
    &&& match lookup(m, "keybinds"@) {
        Some(Json::Arr(a)) => if a@.len() > 0 {
            kbs_view(r.keybinds@) == pairs_of(a@)
        } else {
            default_table(r.keybinds@)
        },
        _ => default_table(r.keybinds@),
    }
}

/// The value under `key` in `m` (see [`lookup`]).
fn find<'a>(m: &'a Vec<(String, Json)>, key: &str) -> (r: Option<&'a Json>)
    ensures
        match r {
            Some(j) => lookup(m@, key@) == Some(*j),
            None => lookup(m@, key@) is None,
        },
{
    let mut i: usize = 0;
    proof {
        assert(m@.subrange(0, m@.len() as int) =~= m@);
    }
    while i < m.len()
        invariant
            i <= m@.len(),
            lookup(m@, key@) == lookup(m@.subrange(i as int, m@.len() as int), key@),
        decreases m@.len() - i,
    {
        proof {
            let t = m@.subrange(i as int, m@.len() as int);
            assert(t[0] == m@[i as int]);
            assert(t.drop_first() =~= m@.subrange(i + 1, m@.len() as int));
        }
        if str_eq(m[i].0.as_str(), key) {
            return Some(&m[i].1);
        }
        i += 1;
    }
    None
}

/// The value under `en`, else under `de` (see [`lookup2`]).
fn find2<'a>(m: &'a Vec<(String, Json)>, en: &str, de: &str) -> (r: Option<&'a Json>)
    ensures
        match r {
            Some(j) => lookup2(m@, en@, de@) == Some(*j),
            None => lookup2(m@, en@, de@) is None,
        },
{
    match find(m, en) {
        Some(j) => Some(j),
        None => find(m, de),
    }
}

fn bool_value(j: Option<&Json>, d: bool) -> (r: bool)
    ensures
        r == bool_or(
            match j {
                Some(x) => Some(*x),
                None => None,
            },
            d,
        ),
{
    match j {
        Some(Json::Bool(b)) => *b,
        _ => d,
    }
}

fn u64_value(j: Option<&Json>, d: u64) -> (r: u64)
    ensures
        r == u64_or(
            match j {
                Some(x) => Some(*x),
                None => None,
            },
            d,
        ),
{
    match j {
        Some(Json::Num(Some(n))) => *n,
        _ => d,
    }
}

fn string_value(j: Option<&Json>) -> (r: Option<String>)
    ensures
        opt_view(r) == str_of(
            match j {
                Some(x) => Some(*x),
                None => None,
            },
        ),
{
    match j {
        Some(Json::Str(s)) => Some(s.clone()),
        _ => None,
    }
}

/// The strings among `a` (see [`strings_of`]).
fn strings(a: &Vec<Json>) -> (r: Vec<String>)
    ensures
        r@.map_values(|s: String| s@) == strings_of(a@),
{
    let mut out: Vec<String> = Vec::new();
    let mut i: usize = 0;
    while i < a.len()
        invariant
            i <= a@.len(),
            out@.map_values(|s: String| s@) == strings_of(a@.subrange(0, i as int)),
        decreases a@.len() - i,
    {
        proof {
            assert(a@.subrange(0, i + 1).drop_last() =~= a@.subrange(0, i as int));
        }
        match &a[i] {
            Json::Str(s) => {
                out.push(s.clone());
                proof {
                    assert(out@.map_values(|s: String| s@) =~= strings_of(a@.subrange(0, i as int)).push(s@));
                }
            },
            _ => {},
        }
        i += 1;
    }
    proof {
        assert(a@.subrange(0, a@.len() as int) =~= a@);
    }
    out
}

/// The keybind entry of `j` (see [`pair_of`]).
fn pair(j: &Json) -> (r: Option<(String, String)>)
    ensures
        match r {
            Some(p) => pair_of(*j) == Some((p.0@, p.1@)),
            None => pair_of(*j) is None,
        },
{
    match j {
        Json::Arr(x) => {
            if x.len() >= 2 {
                match (&x[0], &x[1]) {
                    (Json::Str(a), Json::Str(b)) => Some((a.clone(), b.clone())),
                    _ => None,
                }
            } else {
                None
            }
        },
        _ => None,
    }
}

/// The settings of a parsed settings file (see [`core_from_file`]).
pub fn settings_core_from_json(file: Option<Json>) -> (r: SettingsCore)
    ensures
        core_from_file(r, file),
{
    let empty: Vec<(String, Json)> = Vec::new();
    let m: &Vec<(String, Json)> = match &file {
        Some(Json::Obj(m)) => m,
        _ => &empty,
    };
    proof {
        assert(m@ == file_entries(file));
    }
    let folders = match find2(m, "glossary_folders", "glossar_ordner") {
        Some(Json::Arr(a)) => strings(a),
        _ => {
            let mut v: Vec<String> = Vec::new();
            v.push(String::from_str("Glossar"));
            proof {
                reveal_strlit("Glossar");
                assert(v@.map_values(|s: String| s@) =~= seq!["Glossar"@]);
            }
            v
        },
    };
    let list: Option<Vec<Option<(String, String)>>> = match find(m, "keybinds") {
        Some(Json::Arr(a)) => {
            let mut l: Vec<Option<(String, String)>> = Vec::new();
            let mut i: usize = 0;
            while i < a.len()
                invariant
                    i <= a@.len(),
                    l@.len() == i,
                    string_pairs(l@) == pairs_of(a@.subrange(0, i as int)),
                decreases a@.len() - i,
            {
                proof {
                    assert(a@.subrange(0, i + 1).drop_last() =~= a@.subrange(0, i as int));
                }
                let p = pair(&a[i]);
                let ghost l0 = l@;
                l.push(p);
                proof {
                    assert(l@.drop_last() =~= l0);
                    assert(l@.last() == p);
                    assert(a@.subrange(0, i + 1).last() == a@[i as int]);
                }
                i += 1;
            }
            proof {
                assert(a@.subrange(0, a@.len() as int) =~= a@);
            }
            Some(l)
        },
        _ => None,
    };
    let language = match string_value(find(m, "language")) {
        Some(s) => s,
        None => String::from_str("en"),
    };
    proof {
        reveal_strlit("en");
    }
    let max_hits: usize = match find2(m, "glossary_max_hits", "glossar_max_treffer") {
        Some(Json::Num(Some(n))) => #[verifier::truncate] (*n as usize),
        _ => 500,
    };
    let min_len: usize = match find2(m, "glossary_min_len", "glossar_min_laenge") {
        Some(Json::Num(Some(n))) => #[verifier::truncate] (*n as usize),
        _ => 3,
    };
    SettingsCore {
        last_vault: string_value(find(m, "last_vault")),
        autosave_ms: u64_value(find(m, "autosave_ms"), 800),
        preview_visible: bool_value(find2(m, "preview_visible", "vorschau_sichtbar"), true),
        glossary_enabled: bool_value(find2(m, "glossary_enabled", "glossar_aktiv"), true),
        glossary_case_insensitive: bool_value(
            find2(m, "glossary_case_insensitive", "glossar_case_insensitive"),
            true,
        ),
        glossary_max_hits: max_hits,
        glossary_folders: folders,
        glossary_preview_list: bool_value(
            find2(m, "glossary_preview_list", "glossar_vorschau_liste"),
            true,
        ),
        glossary_min_len: min_len,
        sync_scroll: bool_value(find2(m, "sync_scroll", "sync_scroll_aktiv"), true),
        editor_line_numbers: bool_value(find(m, "editor_line_numbers"), false),
        language,
        keybinds: keybinds_from_file(list),
    }
}

/// The settings of the settings file's text (see [`core_from_file`]); a
/// text that is not JSON gives the defaults.
pub fn settings_core_from_text(text: &str) -> (r: SettingsCore)
    ensures
        core_from_file(r, json_of(text@)),
{
    settings_core_from_json(parse_json(text))
}

/// The settings when there is no settings file: the defaults.
pub fn settings_core_default() -> (r: SettingsCore)
    ensures
        core_from_file(r, None),
{
    settings_core_from_json(None)
}

/// The names under which the settings are written, in the order written.
pub open spec fn core_keys() -> Seq<Seq<char>> {
    seq![
        "last_vault"@,
        "autosave_ms"@,
        "preview_visible"@,
        "glossary_enabled"@,
        "glossary_case_insensitive"@,
        "glossary_max_hits"@,
        "glossary_folders"@,
        "glossary_preview_list"@,
        "glossary_min_len"@,
        "sync_scroll"@,
        "editor_line_numbers"@,
        "language"@,
        "keybinds"@,
    ]
}

/// A list of strings as JSON: an array of those strings.
pub open spec fn strings_json(a: Seq<Json>, v: Seq<String>) -> bool {
    &&& a.len() == v.len()
    &&& forall|i: int| 0 <= i < a.len() ==> (#[trigger] a[i] matches Json::Str(s) && s@ == v[i]@)
}

/// A keybind table as JSON: an array of two-string arrays.
pub open spec fn pairs_json(a: Seq<Json>, v: Seq<(String, String)>) -> bool {
    &&& a.len() == v.len()
    &&& forall|i: int|
        0 <= i < a.len() ==> (#[trigger] a[i] matches Json::Arr(x) && x@.len() == 2 && (x@[0] matches Json::Str(k)
            && k@ == v[i].0@) && (x@[1] matches Json::Str(t) && t@ == v[i].1@))
}

/// `j` is the settings `c` written as JSON: an object with one entry per
/// name of [`core_keys`], in that order, holding the field of that name
/// (the last vault as a string, or null without one).
pub open spec fn core_json(c: SettingsCore, j: Json) -> bool {
    &&& j matches Json::Obj(m)
    &&& {
        let m = file_entries(Some(j));
        &&& m.len() == 13
        &&& forall|i: int| 0 <= i < 13 ==> #[trigger] m[i].0@ == core_keys()[i]
        &&& match c.last_vault {
            Some(v) => m[0].1 matches Json::Str(s) && s@ == v@,
            None => m[0].1 matches Json::Null,
        }
        &&& m[1].1 == Json::Num(Some(c.autosave_ms))
        &&& m[2].1 == Json::Bool(c.preview_visible)
        &&& m[3].1 == Json::Bool(c.glossary_enabled)
        &&& m[4].1 == Json::Bool(c.glossary_case_insensitive)
        &&& m[5].1 == Json::Num(Some(c.glossary_max_hits as u64))
        &&& m[6].1 matches Json::Arr(a) && strings_json(a@, c.glossary_folders@)
        &&& m[7].1 == Json::Bool(c.glossary_preview_list)
        &&& m[8].1 == Json::Num(Some(c.glossary_min_len as u64))
        &&& m[9].1 == Json::Bool(c.sync_scroll)
        &&& m[10].1 == Json::Bool(c.editor_line_numbers)
        &&& m[11].1 matches Json::Str(s) && s@ == c.language@
        &&& m[12].1 matches Json::Arr(a) && pairs_json(a@, c.keybinds@)
    }
}

/// The settings written as JSON (see [`core_json`]).
pub fn core_to_json(c: &SettingsCore) -> (j: Json)
    ensures
        core_json(*c, j),
{
    let mut folders: Vec<Json> = Vec::new();
    let mut i: usize = 0;
    while i < c.glossary_folders.len()
        invariant
            i <= c.glossary_folders@.len(),
            strings_json(folders@, c.glossary_folders@.subrange(0, i as int)),
        decreases c.glossary_folders@.len() - i,
    {
        folders.push(Json::Str(c.glossary_folders[i].clone()));
        i += 1;
    }
    proof {
        assert(c.glossary_folders@.subrange(0, i as int) =~= c.glossary_folders@);
    }
    let mut kbs: Vec<Json> = Vec::new();
    let mut i: usize = 0;
    while i < c.keybinds.len()
        invariant
            i <= c.keybinds@.len(),
            pairs_json(kbs@, c.keybinds@.subrange(0, i as int)),
        decreases c.keybinds@.len() - i,
    {
        let mut x: Vec<Json> = Vec::new();
        x.push(Json::Str(c.keybinds[i].0.clone()));
        x.push(Json::Str(c.keybinds[i].1.clone()));
        kbs.push(Json::Arr(x));
        i += 1;
    }
    proof {
        assert(c.keybinds@.subrange(0, i as int) =~= c.keybinds@);
    }
    let last = match &c.last_vault {
        Some(v) => Json::Str(v.clone()),
        None => Json::Null,
    };
    let mut m: Vec<(String, Json)> = Vec::new();
    m.push((String::from_str("last_vault"), last));
    m.push((String::from_str("autosave_ms"), Json::Num(Some(c.autosave_ms))));
    m.push((String::from_str("preview_visible"), Json::Bool(c.preview_visible)));
    m.push((String::from_str("glossary_enabled"), Json::Bool(c.glossary_enabled)));
    m.push((String::from_str("glossary_case_insensitive"), Json::Bool(c.glossary_case_insensitive)));
    m.push((String::from_str("glossary_max_hits"), Json::Num(Some(c.glossary_max_hits as u64))));
    m.push((String::from_str("glossary_folders"), Json::Arr(folders)));
    m.push((String::from_str("glossary_preview_list"), Json::Bool(c.glossary_preview_list)));
    m.push((String::from_str("glossary_min_len"), Json::Num(Some(c.glossary_min_len as u64))));
    m.push((String::from_str("sync_scroll"), Json::Bool(c.sync_scroll)));
    m.push((String::from_str("editor_line_numbers"), Json::Bool(c.editor_line_numbers)));
    m.push((String::from_str("language"), Json::Str(c.language.clone())));
    m.push((String::from_str("keybinds"), Json::Arr(kbs)));
    Json::Obj(m)
}

/// The entry at `i` is the first with its name.
proof fn lemma_lookup_at(m: Seq<(String, Json)>, i: int, k: Seq<char>)
    requires
        0 <= i < m.len(),
        m[i].0@ == k,
        forall|j: int| 0 <= j < i ==> #[trigger] m[j].0@ != k,
    ensures
        lookup(m, k) == Some(m[i].1),
    decreases i,
{
    if i > 0 {
        assert(m[0].0@ != k);
        lemma_lookup_at(m.drop_first(), i - 1, k);
        assert forall|j: int| 0 <= j < i - 1 implies #[trigger] m.drop_first()[j].0@ != k by {
            assert(m.drop_first()[j] == m[j + 1]);
        }
    }
}

proof fn lemma_strings_json(a: Seq<Json>, v: Seq<String>)
    requires
        strings_json(a, v),
    ensures
        strings_of(a) == v.map_values(|s: String| s@),
    decreases a.len(),
{
    if a.len() > 0 {
        lemma_strings_json(a.drop_last(), v.drop_last());
        assert(a.last() == a[a.len() - 1]);
        assert(v.map_values(|s: String| s@) =~= v.drop_last().map_values(|s: String| s@).push(
            v.last()@,
        ));
    } else {
        assert(v.map_values(|s: String| s@) =~= Seq::<Seq<char>>::empty());
    }
}

proof fn lemma_pairs_json(a: Seq<Json>, v: Seq<(String, String)>)
    requires
        pairs_json(a, v),
    ensures
        pairs_of(a) == crate::settings::kbs_view(v),
    decreases a.len(),
{
    if a.len() > 0 {
        lemma_pairs_json(a.drop_last(), v.drop_last());
        assert(a.last() == a[a.len() - 1]);
        assert(crate::settings::kbs_view(v) =~= crate::settings::kbs_view(v.drop_last()).push(
            (v.last().0@, v.last().1@),
        ));
    } else {
        assert(crate::settings::kbs_view(v) =~= Seq::<(Seq<char>, Seq<char>)>::empty());
    }
}

/// Settings written as JSON read back as the same settings, when they have
/// keybinds or hold the default ones (an empty table reads as the defaults).
pub proof fn lemma_settings_roundtrip(c: SettingsCore, j: Json)
    requires
        core_json(c, j),
        c.keybinds@.len() > 0 || default_table(c.keybinds@),
    ensures
        core_from_file(c, Some(j)),
{
    reveal_strlit("last_vault");
    reveal_strlit("autosave_ms");
    reveal_strlit("preview_visible");
    reveal_strlit("glossary_enabled");
    reveal_strlit("glossary_case_insensitive");
    reveal_strlit("glossary_max_hits");
    reveal_strlit("glossary_folders");
    reveal_strlit("glossary_preview_list");
    reveal_strlit("glossary_min_len");
    reveal_strlit("sync_scroll");
    reveal_strlit("editor_line_numbers");
    reveal_strlit("language");
    reveal_strlit("keybinds");
    let m = file_entries(Some(j));
    let ks = core_keys();
    assert forall|i: int, k: int| 0 <= i < 13 && 0 <= k < 13 && i != k implies ks[i] != ks[k] by {
        if ks[i] == ks[k] {
            assert(ks[i].len() == ks[k].len());
            assert(ks[i][0] == ks[k][0]);
            assert(ks[i][9] == ks[k][9]);
            assert(ks[i][10] == ks[k][10]);
            assert(ks[i][4] == ks[k][4]);
        }
    }
    assert forall|i: int| 0 <= i < 13 implies lookup(m, #[trigger] ks[i]) == Some(m[i].1) by {
        assert forall|j: int| 0 <= j < i implies #[trigger] m[j].0@ != ks[i] by {
            assert(m[j].0@ == ks[j]);
        }
        lemma_lookup_at(m, i, ks[i]);
    }
    assert(lookup(m, ks[0]) == Some(m[0].1));
    assert(lookup(m, ks[1]) == Some(m[1].1));
    assert(lookup(m, ks[2]) == Some(m[2].1));
    assert(lookup(m, ks[3]) == Some(m[3].1));
    assert(lookup(m, ks[4]) == Some(m[4].1));
    assert(lookup(m, ks[5]) == Some(m[5].1));
    assert(lookup(m, ks[6]) == Some(m[6].1));
    assert(lookup(m, ks[7]) == Some(m[7].1));
    assert(lookup(m, ks[8]) == Some(m[8].1));
    assert(lookup(m, ks[9]) == Some(m[9].1));
    assert(lookup(m, ks[10]) == Some(m[10].1));
    assert(lookup(m, ks[11]) == Some(m[11].1));
    assert(lookup(m, ks[12]) == Some(m[12].1));
    if let Json::Arr(a) = m[6].1 {
        lemma_strings_json(a@, c.glossary_folders@);
    }
    if let Json::Arr(a) = m[12].1 {
        lemma_pairs_json(a@, c.keybinds@);
    }
}

/// Sets the last vault to `path`, marking the settings dirty only when that
/// changes it.
pub fn set_last_vault_marking(last: &mut Option<String>, dirty: &mut bool, path: Option<String>)
    ensures
        opt_view(*final(last)) == opt_view(path),
        *final(dirty) == (*old(dirty) || opt_view(*old(last)) != opt_view(path)),
{
    let same = match (&*last, &path) {
        (Some(a), Some(b)) => str_eq(a.as_str(), b.as_str()),
        (None, None) => true,
        _ => false,
    };
    if !same {
        *last = path;
        *dirty = true;
    }
}

/// Whether a save is due: only dirty settings are written, and they are
/// clean afterwards.
pub fn save_due(dirty: &mut bool) -> (r: bool)
    ensures
        r == *old(dirty),
        !*final(dirty),
{
    let r = *dirty;
    *dirty = false;
    r
}

} // verus!

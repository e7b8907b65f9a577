//! The parts of a vault that are decided without touching the disk: which
//! files are notes, which relative note paths are acceptable, the order of
//! the note list, and the types of notes and open buffers.

use std::path::{Path, PathBuf};

use vstd::multiset::Multiset;
use vstd::prelude::*;
use vstd::string::{StringSliceAdditionalSpecFns};
use vstd::utf8::*;

use crate::text::{
    chars_of, clone_path, find_byte, find_byte_idx, lemma_find_byte, lemma_lex_lt_total,
    lemma_lex_lt_trans, lemma_skip_lead, lex_lt, lex_lt_exec, skip_lead, trim_start_char,
    trim_start_char_slice, lemma_ascii_boundary, lemma_valid_sub, substr,
};

verus! {

/// A single open note: its path plus the in-memory text being edited.
#[derive(Debug)]
pub struct Buffer {
    pub path: PathBuf,
    pub text: String,
    pub dirty: bool,
}

#[derive(Debug)]
pub struct NoteEntry {
    /// Path relative to vault root, using '/' separators.
    pub rel: String,
    /// Absolute path.
    pub abs: PathBuf,
}

impl Clone for NoteEntry {
    fn clone(&self) -> (r: NoteEntry)
        ensures
            r.rel@ == self.rel@,
            r.abs == self.abs,
    {
        NoteEntry { rel: self.rel.clone(), abs: clone_path(&self.abs) }
    }
}

/// What [`extension_str`] returns for a path.
pub uninterp spec fn path_extension(p: &Path) -> Option<Seq<char>>;

/// What [`file_name_str`] returns for a path.
pub uninterp spec fn path_file_name(p: &Path) -> Option<Seq<char>>;

/// The extension of `p` as text, when it has one that is UTF-8.
///
/// Calls `Path::extension` and `OsStr::to_str`; the contract claims only that
/// the result is a function of the path.
#[verifier::external_body]
fn extension_str(p: &Path) -> (r: Option<String>)
    ensures
        match r {
            Some(s) => path_extension(p) == Some(s@),
            None => path_extension(p) is None,
        },
{
    p.extension().and_then(|e| e.to_str()).map(|s| s.to_string())
}

/// The last component of `p` as text, when there is one that is UTF-8.
///
/// Calls `Path::file_name` and `OsStr::to_str`; the contract claims only that
/// the result is a function of the path.
#[verifier::external_body]
fn file_name_str(p: &Path) -> (r: Option<String>)
    ensures
        match r {
            Some(s) => path_file_name(p) == Some(s@),
            None => path_file_name(p) is None,
        },
{
    p.file_name().and_then(|n| n.to_str()).map(|s| s.to_string())
}

/// A name starting with `.` is hidden.
pub open spec fn hidden_name(n: Option<Seq<char>>) -> bool {
    n matches Some(s) && s.len() > 0 && s[0] == '.'
}

/// `md` in any case.
pub open spec fn is_md_ext(e: Seq<char>) -> bool {
    e.len() == 2 && (e[0] == 'm' || e[0] == 'M') && (e[1] == 'd' || e[1] == 'D')
}

/// A note file: extension `md` (any case) and not hidden.
pub open spec fn note_file(ext: Option<Seq<char>>, name: Option<Seq<char>>) -> bool {
    ext matches Some(e) && is_md_ext(e) && !hidden_name(name)
}

pub fn is_hidden(p: &Path) -> (r: bool)
    ensures
        r == hidden_name(path_file_name(p)),
{
    match file_name_str(p) {
        Some(n) => {
            let cs = chars_of(n.as_str());
            cs.len() > 0 && cs[0] == '.'
        },
        None => false,
    }
}

pub fn is_note_file(p: &Path) -> (r: bool)
    ensures
        r == note_file(path_extension(p), path_file_name(p)),
{
    let ext_is_md = match extension_str(p) {
        Some(e) => {
            let cs = chars_of(e.as_str());
            cs.len() == 2 && (cs[0] == 'm' || cs[0] == 'M') && (cs[1] == 'd' || cs[1] == 'D')
        },
        None => false,
    };
    if !ext_is_md {
        return false;
    }
    !is_hidden(p)
}

// ---------------------------------------------------------------------------
// Relative note paths
// ---------------------------------------------------------------------------

/// No `/`-separated component of `t[i..]` is `..`.
pub open spec fn no_parent_component(t: Seq<u8>, i: int) -> bool
    decreases t.len() + 1 - i,
{
    if i < 0 || i > t.len() {
        true
    } else {
        let e = match find_byte(t, 47, i, t.len() as int) {
            Some(k) => k,
            None => t.len() as int,
        };
        proof {
            lemma_find_byte(t, 47, i, t.len() as int);
        }
        t.subrange(i, e) != seq![46u8, 46u8] && (e < t.len() ==> no_parent_component(t, e + 1))
    }
}

/// The note path `rel` with leading `/` removed, accepted when it is not
/// empty and has no `..` component.
pub open spec fn note_rel_spec(rel: Seq<u8>) -> Option<Seq<u8>> {
    let t = trim_start_char(rel, 47);
    if t.len() > 0 && no_parent_component(t, 0) {
        Some(t)
    } else {
        None
    }
}

/// The relative path of a note to create or to move to: `rel` without
/// leading `/`; `None` for an empty path or one with a `..` component.
pub fn note_rel_path(rel: &str) -> (r: Option<&str>)
    ensures
        match r {
            Some(t) => note_rel_spec(rel.spec_bytes()) == Some(t.spec_bytes()),
            None => note_rel_spec(rel.spec_bytes()) is None,
        },
{
    let b = rel.as_bytes();
    proof {
        lemma_skip_lead(b@, 47, 0);
        encode_utf8_valid_utf8(rel@);
        is_char_boundary_start_end_of_seq(b@);
    }
    let t = trim_start_char_slice(b, 47);
    let len = t.len();
    if len == 0 {
        return None;
    }
    proof {
        is_char_boundary_start_end_of_seq(b@);
    }
    let start = skip_lead_idx(b);
    proof {
        lemma_ascii_boundary(b@, start as int);
        assert(t@ =~= b@.subrange(start as int, b@.len() as int));
    }
    let mut i: usize = 0;
    loop
        invariant
            len == t@.len(),
            t@ == trim_start_char(rel.spec_bytes(), 47),
            len > 0,
            start <= b@.len(),
            is_char_boundary(b@, start as int),
            t@ == b@.subrange(start as int, b@.len() as int),
            b@ == rel.spec_bytes(),
            i <= len,
            is_char_boundary(b@, b@.len() as int),
            no_parent_component(t@, 0) == no_parent_component(t@, i as int),
        decreases len + 1 - i,
    {
        proof {
            lemma_find_byte(t@, 47, i as int, len as int);
        }
        let e = match find_byte_idx(t, 47, i, len) {
            Some(k) => k,
            None => len,
        };
        if e - i == 2 && t[i] == 46 && t[i + 1] == 46 {
            proof {
                assert(t@.subrange(i as int, e as int) =~= seq![46u8, 46u8]);
            }
            return None;
        }
        proof {
            if t@.subrange(i as int, e as int) == seq![46u8, 46u8] {
                assert(t@.subrange(i as int, e as int).len() == 2);
                assert(t@.subrange(i as int, e as int)[0] == t@[i as int]);
                assert(t@.subrange(i as int, e as int)[1] == t@[i + 1]);
            }
        }
        if e < len {
            i = e + 1;
        } else {
            return Some(substr(rel, start, b.len()));
        }
    }
}

/// Where the leading `/` of `b` end.
fn skip_lead_idx(b: &[u8]) -> (r: usize)
    ensures
        r == skip_lead(b@, 47, 0),
        r <= b@.len(),
        r == 0 || b@[r - 1] == 47,
{
    proof {
        lemma_skip_lead(b@, 47, 0);
    }
    let mut k: usize = 0;
    while k < b.len() && b[k] == 47
        invariant
            k <= b@.len(),
            skip_lead(b@, 47, 0) == skip_lead(b@, 47, k as int),
            k == 0 || b@[k - 1] == 47,
        decreases b@.len() - k,
    {
        k += 1;
    }
    k
}

// ---------------------------------------------------------------------------
// The note list
// ---------------------------------------------------------------------------

/// A note entry by the bytes of its relative path and its absolute path.
pub open spec fn entry_view(e: NoteEntry) -> (Seq<u8>, PathBuf) {
    (encode_utf8(e.rel@), e.abs)
}

/// Entries in ascending order of their relative paths.
pub open spec fn sorted_by_rel(s: Seq<(Seq<u8>, PathBuf)>) -> bool {
    forall|i: int, j: int| 0 <= i < j < s.len() ==> !lex_lt(#[trigger] s[j].0, #[trigger] s[i].0)
}

/// Entries by their views.
pub open spec fn entries_view(s: Seq<NoteEntry>) -> Seq<(Seq<u8>, PathBuf)> {
    s.map_values(|e: NoteEntry| entry_view(e))
}

/// An entry has relative path `p`.
pub open spec fn rel_is(p: Seq<u8>) -> spec_fn((Seq<u8>, PathBuf)) -> bool {
    |e: (Seq<u8>, PathBuf)| e.0 == p
}

/// The entries with relative path `p`, in their order.
pub open spec fn with_rel(s: Seq<(Seq<u8>, PathBuf)>, p: Seq<u8>) -> Seq<(Seq<u8>, PathBuf)> {
    s.filter(rel_is(p))
}

/// The note list sorted by relative path; entries with equal paths keep
/// their order.
pub fn sort_notes(notes: Vec<NoteEntry>) -> (r: Vec<NoteEntry>)
    ensures
        sorted_by_rel(r@.map_values(|e: NoteEntry| entry_view(e))),
        r@.map_values(|e: NoteEntry| entry_view(e)).to_multiset() == notes@.map_values(
            |e: NoteEntry| entry_view(e),
        ).to_multiset(),
        forall|p: Seq<u8>|
            #[trigger] with_rel(entries_view(r@), p) == with_rel(entries_view(notes@), p),
{
    let ghost all = notes@.map_values(|e: NoteEntry| entry_view(e));
    let mut out: Vec<NoteEntry> = Vec::new();
    let mut rest = notes;
    proof {
        broadcast use vstd::multiset::group_multiset_axioms;

        assert(out@.map_values(|e: NoteEntry| entry_view(e)) =~= Seq::<(Seq<u8>, PathBuf)>::empty());
        vstd::seq_lib::to_multiset_len(Seq::<(Seq<u8>, PathBuf)>::empty());
        assert(Seq::<(Seq<u8>, PathBuf)>::empty().to_multiset() =~= Multiset::empty());
        assert(Multiset::<(Seq<u8>, PathBuf)>::empty().add(all.to_multiset()) =~= all.to_multiset());
        assert forall|p: Seq<u8>|
            #[trigger] with_rel(entries_view(out@), p) == with_rel(
                all.subrange(all.len() as int, all.len() as int),
                p,
            ) by {
            reveal(Seq::filter);
            assert(all.subrange(all.len() as int, all.len() as int) =~= Seq::<(Seq<u8>, PathBuf)>::empty());
        }
    }
    while rest.len() > 0
        invariant
            rest@.len() <= all.len(),
            rest@.map_values(|e: NoteEntry| entry_view(e)) == all.subrange(0, rest@.len() as int),
            forall|p: Seq<u8>|
                #[trigger] with_rel(entries_view(out@), p) == with_rel(
                    all.subrange(rest@.len() as int, all.len() as int),
                    p,
                ),
            sorted_by_rel(out@.map_values(|e: NoteEntry| entry_view(e))),
            out@.map_values(|e: NoteEntry| entry_view(e)).to_multiset().add(
                rest@.map_values(|e: NoteEntry| entry_view(e)).to_multiset(),
            ) == all.to_multiset(),
        decreases rest@.len(),
    {
        let ghost r0 = rest@.map_values(|e: NoteEntry| entry_view(e));
        let ghost o0 = out@.map_values(|e: NoteEntry| entry_view(e));
        let ghost out0 = out@;
        let e = rest.pop().unwrap();
        let ghost ev = entry_view(e);
        insert_sorted(&mut out, e);
        proof {
            broadcast use vstd::multiset::group_multiset_axioms;

            let r1 = rest@.map_values(|e: NoteEntry| entry_view(e));
            assert(r0 =~= r1.push(ev));
            vstd::seq_lib::to_multiset_build(r1, ev);
            assert(o0.to_multiset().insert(ev).add(r1.to_multiset()) =~= o0.to_multiset().add(
                r1.to_multiset().insert(ev),
            ));
            let n = all.len() as int;
            let m = rest@.len() as int;
            assert(rest@.map_values(|e: NoteEntry| entry_view(e)) =~= all.subrange(0, m));
            assert(r0 == all.subrange(0, m + 1));
            assert(ev == r0[m]);
            assert(all.subrange(m, n) =~= seq![ev] + all.subrange(m + 1, n));
            assert forall|p: Seq<u8>|
                #[trigger] with_rel(entries_view(out@), p) == with_rel(
                    all.subrange(m, n),
                    p,
                ) by {
                Seq::filter_distributes_over_add(seq![ev], all.subrange(m + 1, n), rel_is(p));
                reveal_with_fuel(Seq::filter, 2);
                assert(with_rel(entries_view(out0), p) == with_rel(all.subrange(m + 1, n), p));
                assert(o0 == entries_view(out0));
                if ev.0 == p {
                    assert(seq![ev].drop_last() =~= Seq::<(Seq<u8>, PathBuf)>::empty());
                    assert(seq![ev].filter(rel_is(p)) =~= seq![ev]);
                } else {
                    assert(seq![ev].drop_last() =~= Seq::<(Seq<u8>, PathBuf)>::empty());
                    assert(seq![ev].filter(rel_is(p)) =~= Seq::<(Seq<u8>, PathBuf)>::empty());
                    assert(Seq::<(Seq<u8>, PathBuf)>::empty() + with_rel(all.subrange(m + 1, n), p)
                        =~= with_rel(all.subrange(m + 1, n), p));
                }
            }
        }
    }
    proof {
        broadcast use vstd::multiset::group_multiset_axioms;

        assert(rest@.map_values(|e: NoteEntry| entry_view(e)) =~= Seq::<(Seq<u8>, PathBuf)>::empty());
        vstd::seq_lib::to_multiset_len(Seq::<(Seq<u8>, PathBuf)>::empty());
        assert(Seq::<(Seq<u8>, PathBuf)>::empty().to_multiset() =~= Multiset::empty());
        assert(out@.map_values(|e: NoteEntry| entry_view(e)).to_multiset().add(
            Multiset::empty(),
        ) =~= out@.map_values(|e: NoteEntry| entry_view(e)).to_multiset());
        assert(all.subrange(0, all.len() as int) =~= all);
    }
    out
}

/// Inserts `x` before the first entry whose path does not come before its path.
fn insert_sorted(r: &mut Vec<NoteEntry>, x: NoteEntry)
    requires
        sorted_by_rel(old(r)@.map_values(|e: NoteEntry| entry_view(e))),
    ensures
        sorted_by_rel(final(r)@.map_values(|e: NoteEntry| entry_view(e))),
        final(r)@.map_values(|e: NoteEntry| entry_view(e)).to_multiset() == old(r)@.map_values(
            |e: NoteEntry| entry_view(e),
        ).to_multiset().insert(entry_view(x)),
        forall|p: Seq<u8>|
            #[trigger] with_rel(entries_view(final(r)@), p) == if p
                == entry_view(x).0 {
                seq![entry_view(x)] + with_rel(entries_view(old(r)@), p)
            } else {
                with_rel(entries_view(old(r)@), p)
            },
{
    let ghost v = r@.map_values(|e: NoteEntry| entry_view(e));
    let ghost xv = entry_view(x);
    let xb = x.rel.as_str().as_bytes();
    let mut k: usize = 0;
    let mut found = false;
    while !found && k < r.len()
        invariant
            k <= r@.len(),
            v == r@.map_values(|e: NoteEntry| entry_view(e)),
            xb@ == xv.0,
            xv == entry_view(x),
            found ==> k < r@.len() && !lex_lt(v[k as int].0, xv.0),
            forall|j: int| 0 <= j < k ==> lex_lt(#[trigger] v[j].0, xv.0),
        decreases r@.len() - k + if found {
            0int
        } else {
            1int
        },
    {
        proof {
            assert(v[k as int] == entry_view(r@[k as int]));
        }
        if !lex_lt_exec(r[k].rel.as_str().as_bytes(), xb) {
            found = true;
        } else {
            k += 1;
        }
    }
    proof {
        let w = v.insert(k as int, xv);
        assert forall|i: int, j: int| 0 <= i < j < w.len() implies !lex_lt(
            #[trigger] w[j].0,
            #[trigger] w[i].0,
        ) by {
            if j < k {
                assert(w[i] == v[i] && w[j] == v[j]);
            } else if j == k {
                assert(w[i] == v[i] && w[j] == xv);
                lemma_lex_lt_total(v[i].0, xv.0);
            } else if i < k {
                assert(w[i] == v[i] && w[j] == v[j - 1]);
            } else if i == k {
                assert(w[i] == xv && w[j] == v[j - 1]);
                lemma_lex_lt_total(v[k as int].0, xv.0);
                if lex_lt(v[j - 1].0, xv.0) {
                    if j - 1 > k {
                        assert(!lex_lt(v[j - 1].0, v[k as int].0));
                        if v[k as int].0 == xv.0 {
                        } else {
                            lemma_lex_lt_trans(v[j - 1].0, xv.0, v[k as int].0);
                        }
                    }
                }
            } else {
                assert(w[i] == v[i - 1] && w[j] == v[j - 1]);
            }
        }
        vstd::seq_lib::to_multiset_insert(v, k as int, xv);
        let a = v.subrange(0, k as int);
        let c = v.subrange(k as int, v.len() as int);
        assert(v =~= a + c);
        assert(w =~= a + (seq![xv] + c));
        assert forall|p: Seq<u8>| #[trigger] with_rel(w, p) == if p == xv.0 {
            seq![xv] + with_rel(v, p)
        } else {
            with_rel(v, p)
        } by {
            Seq::filter_distributes_over_add(a, seq![xv] + c, rel_is(p));
            Seq::filter_distributes_over_add(seq![xv], c, rel_is(p));
            Seq::filter_distributes_over_add(a, c, rel_is(p));
            reveal_with_fuel(Seq::filter, 2);
            assert(seq![xv].drop_last() =~= Seq::<(Seq<u8>, PathBuf)>::empty());
            if p == xv.0 {
                assert forall|j: int| 0 <= j < a.len() implies !(rel_is(p))(#[trigger] a[j]) by {
                    lemma_lex_lt_total(a[j].0, xv.0);
                }
                a.lemma_all_neg_filter_empty(rel_is(p));
                assert(a.filter(rel_is(p)) =~= Seq::<(Seq<u8>, PathBuf)>::empty());
                assert(seq![xv].filter(rel_is(p)) =~= seq![xv]);
                assert(Seq::<(Seq<u8>, PathBuf)>::empty() + (seq![xv] + c.filter(rel_is(p)))
                    =~= seq![xv] + (Seq::<(Seq<u8>, PathBuf)>::empty() + c.filter(rel_is(p))));
            } else {
                assert(seq![xv].filter(rel_is(p)) =~= Seq::<(Seq<u8>, PathBuf)>::empty());
                assert(Seq::<(Seq<u8>, PathBuf)>::empty() + c.filter(rel_is(p)) =~= c.filter(rel_is(p)));
            }
        }
    }
    r.insert(k, x);
    proof {
        assert(r@.map_values(|e: NoteEntry| entry_view(e)) =~= v.insert(k as int, xv));
    }
}

// ---------------------------------------------------------------------------
// Decisions between disk steps
// ---------------------------------------------------------------------------

/// Where the text of a note comes from.
#[derive(Debug, Clone, Copy, PartialEq, Eq, Structural)]
pub enum ContentSource {
    /// The open buffer.
    Buffer,
    /// The cached text.
    Cache,
    /// The file.
    Disk,
}

/// A cached text is fresh while the file is not newer than the cache entry
/// (times in nanoseconds).
pub open spec fn fresh(cached_mtime: u128, disk_mtime: u128) -> bool {
    disk_mtime <= cached_mtime
}

/// Where the text of a note comes from: its open buffer; else the cached
/// text while it is fresh; else the file.
pub fn content_source(has_buffer: bool, cached_mtime: Option<u128>, disk_mtime: u128) -> (r: ContentSource)
    ensures
        r == if has_buffer {
            ContentSource::Buffer
        } else if cached_mtime matches Some(c) && fresh(c, disk_mtime) {
            ContentSource::Cache
        } else {
            ContentSource::Disk
        },
{
    if has_buffer {
        return ContentSource::Buffer;
    }
    match cached_mtime {
        Some(c) => if disk_mtime <= c {
            ContentSource::Cache
        } else {
            ContentSource::Disk
        },
        None => ContentSource::Disk,
    }
}

/// Whether a scan keeps a cache entry: only while its file is still a note
/// (`disk_mtime` is its modification time) and the entry is fresh.
pub fn cache_keeps(cached_mtime: u128, disk_mtime: Option<u128>) -> (r: bool)
    ensures
        r == (disk_mtime matches Some(d) && fresh(cached_mtime, d)),
{
    match disk_mtime {
        Some(d) => d <= cached_mtime,
        None => false,
    }
}

/// An edit of an open buffer: the new text, now unsaved, at the same path.
pub fn set_buffer_text(buf: &mut Buffer, text: String)
    ensures
        final(buf).text@ == text@,
        final(buf).dirty,
        final(buf).path == old(buf).path,
{
    buf.text = text;
    buf.dirty = true;
}

/// The open buffer of a renamed note follows it: the same text and dirty
/// flag under the new path.
pub fn moved_buffer(moved: Option<Buffer>, new_path: PathBuf) -> (r: Option<Buffer>)
    ensures
        match (moved, r) {
            (Some(b), Some(n)) => n.path == new_path && n.text@ == b.text@ && n.dirty == b.dirty,
            (None, None) => true,
            _ => false,
        },
{
    match moved {
        Some(b) => Some(Buffer { path: new_path, text: b.text, dirty: b.dirty }),
        None => None,
    }
}

} // verus!

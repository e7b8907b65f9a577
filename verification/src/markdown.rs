//! Markdown parsing on UTF-8 bytes: YAML front matter, `[[wikilinks]]`
//! extraction, rewriting wikilinks into Markdown links, and resolving a
//! wikilink target against the note paths of a vault.

use std::path::PathBuf;

use vstd::prelude::*;
use vstd::string::StringSliceAdditionalSpecFns;
use vstd::utf8::*;

use crate::text::{
    at_boundary, code_end, code_end_idx, find_byte, find_byte_idx, find_pat, find_pat_idx,
    lemma_ascii_boundary, lemma_ascii_valid, lemma_boundary, lemma_code_end, lemma_find_byte,
    lemma_find_pat, lemma_skip_lead, lemma_skip_trail, lemma_trim_sub, lemma_trimmed_valid,
    lemma_valid_sub, lemma_trim_start_boundary, lemma_trim_end_boundary, push_range, string_from_utf8, string_of, substr, trim_end_char,
    trim_end_char_slice, trim_end_idx, trim_slice, trim_start_char, trim_start_char_slice,
    trim_start_idx, trimmed, bytes_eq, lowercase, name_key, to_lower, stem_text, file_stem_str, clone_path,
    occurs_at, lemma_find_byte_shift, contains_bytes, contains_idx,
};

verus! {

/// End of the line that starts at `p`, including its `\n` when there is one.
pub open spec fn line_end_incl(b: Seq<u8>, p: int) -> int {
    match find_byte(b, 10, p, b.len() as int) {
        Some(k) => k + 1,
        None => b.len() as int,
    }
}

/// `trim_end_matches(['\n', '\r'])` on `[lo, hi)`.
pub open spec fn trim_crlf_end(b: Seq<u8>, lo: int, hi: int) -> int
    decreases hi - lo,
{
    if lo < hi && (b[hi - 1] == 10 || b[hi - 1] == 13) {
        trim_crlf_end(b, lo, hi - 1)
    } else {
        hi
    }
}

/// `[lo, hi)` is exactly three copies of `c`.
pub open spec fn is_triple(b: Seq<u8>, lo: int, hi: int, c: u8) -> bool {
    hi - lo == 3 && b[lo] == c && b[lo + 1] == c && b[lo + 2] == c
}

pub proof fn lemma_line_end_incl(b: Seq<u8>, p: int)
    requires
        0 <= p < b.len(),
    ensures
        p < line_end_incl(b, p) <= b.len(),
        line_end_incl(b, p) < b.len() ==> b[line_end_incl(b, p) - 1] == 10,
        forall|j: int| p <= j < line_end_incl(b, p) - 1 ==> b[j] != 10,
{
    lemma_find_byte(b, 10, p, b.len() as int);
}

pub proof fn lemma_trim_crlf_end(b: Seq<u8>, lo: int, hi: int)
    requires
        lo <= hi,
    ensures
        lo <= trim_crlf_end(b, lo, hi) <= hi,
        trim_crlf_end(b, lo, hi) < hi ==> (b[trim_crlf_end(b, lo, hi)] == 10 || b[trim_crlf_end(
            b,
            lo,
            hi,
        )] == 13),
    decreases hi - lo,
{
    if lo < hi && (b[hi - 1] == 10 || b[hi - 1] == 13) {
        lemma_trim_crlf_end(b, lo, hi - 1);
    }
}

/// The first line at or after `p` whose content, without line-break bytes,
/// is `---` or `...`: its start and its end including the `\n`.
pub open spec fn closing_line(b: Seq<u8>, p: int) -> Option<(int, int)>
    decreases b.len() - p,
{
    if p < 0 || p >= b.len() {
        None
    } else {
        let e = line_end_incl(b, p);
        let t = trim_crlf_end(b, p, e);
        if is_triple(b, p, t, 45) || is_triple(b, p, t, 46) {
            Some((p, e))
        } else {
            proof {
                lemma_line_end_incl(b, p);
            }
            closing_line(b, e)
        }
    }
}

/// Where a document splits into front matter and body: the front matter is
/// `[.0, .1)` and the body starts at `.2`. `None` when the first line is not
/// `---` or no closing `---` / `...` line follows.
pub open spec fn front_matter_split(b: Seq<u8>) -> Option<(int, int, int)> {
    let f = line_end_incl(b, 0);
    if b.len() > 0 && is_triple(b, 0, trim_crlf_end(b, 0, f), 45) {
        match closing_line(b, f) {
            Some((p, e)) => Some((f, trim_crlf_end(b, f, p), e)),
            None => None,
        }
    } else {
        None
    }
}

pub proof fn lemma_closing_line(b: Seq<u8>, p: int)
    requires
        0 <= p,
    ensures
        closing_line(b, p) matches Some((q, e)) ==> p <= q < e <= b.len() && e == line_end_incl(b, q)
            && (q == 0 || q == p || b[q - 1] == 10),
    decreases b.len() - p,
{
    if 0 <= p < b.len() {
        lemma_line_end_incl(b, p);
        let e = line_end_incl(b, p);
        let t = trim_crlf_end(b, p, e);
        if !(is_triple(b, p, t, 45) || is_triple(b, p, t, 46)) {
            lemma_closing_line(b, e);
            if let Some((q, e2)) = closing_line(b, e) {
                if q == e && e < b.len() {
                    assert(b[e - 1] == 10);
                }
            }
        }
    }
}

pub proof fn lemma_front_matter_split(b: Seq<u8>)
    ensures
        front_matter_split(b) matches Some((f, fe, bs)) ==> 0 < f <= fe < bs <= b.len() && b[f
            - 1] == 10 && (fe == f || b[fe] == 10 || b[fe] == 13) && (bs < b.len() ==> b[bs - 1]
            == 10),
{
    if b.len() > 0 {
        lemma_line_end_incl(b, 0);
        let f = line_end_incl(b, 0);
        lemma_trim_crlf_end(b, 0, f);
        if is_triple(b, 0, trim_crlf_end(b, 0, f), 45) {
            lemma_closing_line(b, f);
            if let Some((p, e)) = closing_line(b, f) {
                assert(f < b.len());
                assert(b[f - 1] == 10);
                lemma_line_end_incl(b, p);
                lemma_trim_crlf_end(b, f, p);
                let fe = trim_crlf_end(b, f, p);
                if fe < p {
                } else if fe > f {
                    assert(fe == p);
                    assert(b[p - 1] == 10);
                    assert(false) by {
                        assert(trim_crlf_end(b, f, p) == trim_crlf_end(b, f, p - 1));
                        lemma_trim_crlf_end(b, f, p - 1);
                    }
                }
            }
        }
    }
}

pub fn line_end_incl_idx(b: &[u8], p: usize) -> (r: usize)
    requires
        p < b@.len(),
    ensures
        r == line_end_incl(b@, p as int),
{
    proof {
        lemma_find_byte(b@, 10, p as int, b@.len() as int);
    }
    match find_byte_idx(b, 10, p, b.len()) {
        Some(k) => k + 1,
        None => b.len(),
    }
}

fn trim_crlf_end_idx(b: &[u8], lo: usize, hi: usize) -> (r: usize)
    requires
        lo <= hi <= b@.len(),
    ensures
        r == trim_crlf_end(b@, lo as int, hi as int),
        lo <= r <= hi,
{
    let mut j = hi;
    while lo < j && (b[j - 1] == 10 || b[j - 1] == 13)
        invariant
            lo <= j <= hi <= b@.len(),
            trim_crlf_end(b@, lo as int, hi as int) == trim_crlf_end(b@, lo as int, j as int),
        decreases j,
    {
        j = j - 1;
    }
    j
}

fn triple_idx(b: &[u8], lo: usize, hi: usize, c: u8) -> (r: bool)
    requires
        lo <= hi <= b@.len(),
    ensures
        r == is_triple(b@, lo as int, hi as int, c),
{
    hi - lo == 3 && b[lo] == c && b[lo + 1] == c && b[lo + 2] == c
}

/// Byte offsets of the front matter and the body, as [`front_matter_split`] defines them.
pub fn front_matter_bounds(b: &[u8]) -> (r: Option<(usize, usize, usize)>)
    ensures
        match r {
            Some((f, fe, bs)) => front_matter_split(b@) == Some((f as int, fe as int, bs as int)),
            None => front_matter_split(b@) is None,
        },
{
    if b.len() == 0 {
        return None;
    }
    let f = line_end_incl_idx(b, 0);
    proof {
        lemma_line_end_incl(b@, 0);
    }
    let t = trim_crlf_end_idx(b, 0, f);
    if !triple_idx(b, 0, t, 45) {
        return None;
    }
    let mut p = f;
    while p < b.len()
        invariant
            f <= p <= b@.len(),
            closing_line(b@, f as int) == closing_line(b@, p as int),
            b@.len() > 0,
            f as int == line_end_incl(b@, 0),
            is_triple(b@, 0, trim_crlf_end(b@, 0, f as int), 45),
        decreases b@.len() - p,
    {
        let e = line_end_incl_idx(b, p);
        proof {
            lemma_line_end_incl(b@, p as int);
        }
        let t = trim_crlf_end_idx(b, p, e);
        if triple_idx(b, p, t, 45) || triple_idx(b, p, t, 46) {
            proof {
                lemma_trim_crlf_end(b@, f as int, p as int);
            }
            let fe = trim_crlf_end_idx(b, f, p);
            return Some((f, fe, e));
        }
        p = e;
    }
    None
}

/// Split a document into `(front_matter, body)` when it starts with `---`.
pub fn split_front_matter(text: &str) -> (r: (Option<&str>, &str))
    ensures
        match front_matter_split(text.spec_bytes()) {
            Some((f, fe, bs)) => {
                &&& r.0 is Some
                &&& r.0.unwrap().spec_bytes() == text.spec_bytes().subrange(f, fe)
                &&& r.1.spec_bytes() == text.spec_bytes().subrange(bs, text.spec_bytes().len() as int)
            },
            None => r.0 is None && r.1 == text,
        },
{
    let b = text.as_bytes();
    match front_matter_bounds(b) {
        Some((f, fe, bs)) => {
            proof {
                lemma_front_matter_split(b@);
                encode_utf8_valid_utf8(text@);
                lemma_boundary(b@, f as int);
                lemma_boundary(b@, fe as int);
                lemma_boundary(b@, bs as int);
                lemma_boundary(b@, b@.len() as int);
            }
            let fm = substr(text, f, fe);
            let body = substr(text, bs, b.len());
            (Some(fm), body)
        },
        None => (None, text),
    }
}


// ---------------------------------------------------------------------------
// Rewriting wikilinks into Markdown links
// ---------------------------------------------------------------------------

/// `](<rusty-note:`: the bytes between the label and the target of a rewritten link.
pub open spec fn note_link_mid() -> Seq<u8> {
    seq![93u8, 40u8, 60u8, 114u8, 117u8, 115u8, 116u8, 121u8, 45u8, 110u8, 111u8, 116u8, 101u8, 58u8]
}

/// Target and label of a wikilink whose inside is `z`: trimmed, and split at
/// the first `|` when there is one (each half trimmed again).
pub open spec fn wl_parts(z: Seq<u8>) -> (Seq<u8>, Seq<u8>) {
    let zt = trimmed(z);
    match find_byte(zt, 124, 0, zt.len() as int) {
        Some(p) => (trimmed(zt.subrange(0, p)), trimmed(zt.subrange(p + 1, zt.len() as int))),
        None => (zt, zt),
    }
}

/// The Markdown link written for a wikilink with inside `z`:
/// `[label](<rusty-note:target>)`.
pub open spec fn wl_md_link(z: Seq<u8>) -> Seq<u8> {
    seq![91u8] + wl_parts(z).1 + note_link_mid() + wl_parts(z).0 + seq![62u8, 41u8]
}

/// A `[[` starts at `k`.
pub open spec fn opens_wikilink(b: Seq<u8>, k: int) -> bool {
    0 <= k && k + 1 < b.len() && b[k] == 91 && b[k + 1] == 91
}

/// First offset in `[from, to)` where a backtick or a `[[` starts, or `to`.
pub open spec fn plain_end(b: Seq<u8>, from: int, to: int) -> int
    decreases to - from,
{
    if from >= to {
        to
    } else if b[from] == 96 || opens_wikilink(b, from) {
        from
    } else {
        plain_end(b, from + 1, to)
    }
}

pub proof fn lemma_plain_end(b: Seq<u8>, from: int, to: int)
    requires
        0 <= from <= to <= b.len(),
    ensures
        from <= plain_end(b, from, to) <= to,
        plain_end(b, from, to) == to || b[plain_end(b, from, to)] == 96 || opens_wikilink(
            b,
            plain_end(b, from, to),
        ),
        forall|j: int| from <= j < plain_end(b, from, to) ==> !(b[j] == 96 || opens_wikilink(b, j)),
    decreases to - from,
{
    if from < to && !(b[from] == 96 || opens_wikilink(b, from)) {
        lemma_plain_end(b, from + 1, to);
    }
}

/// One rewriting step at `i`: where scanning goes on, and the bytes written.
/// Code spans and fences are copied as they are; a closed `[[...]]` becomes
/// a Markdown link; an unclosed `[[` and all after it is copied; any other
/// run of text is copied up to the next backtick or `[[`.
pub open spec fn md_step(b: Seq<u8>, i: int) -> (int, Seq<u8>) {
    let len = b.len() as int;
    if b[i] == 96 {
        (code_end(b, i), b.subrange(i, code_end(b, i)))
    } else if opens_wikilink(b, i) {
        match find_pat(b, seq![93u8, 93u8], i + 2, len) {
            Some(k) => (k + 2, wl_md_link(b.subrange(i + 2, k))),
            None => (len, b.subrange(i, len)),
        }
    } else {
        let k = plain_end(b, i + 1, len);
        (k, b.subrange(i, k))
    }
}

pub proof fn lemma_md_step(b: Seq<u8>, i: int)
    requires
        0 <= i < b.len(),
    ensures
        i < md_step(b, i).0 <= b.len(),
        md_step(b, i).0 == b.len() || b[md_step(b, i).0] < 0x80 || b[md_step(b, i).0 - 1] < 0x80,
{
    let len = b.len() as int;
    if b[i] == 96 {
        lemma_code_end(b, i);
    } else if opens_wikilink(b, i) {
        lemma_find_pat(b, seq![93u8, 93u8], i + 2, len);
        match find_pat(b, seq![93u8, 93u8], i + 2, len) {
            Some(k) => {
                assert(b[k + 1] == seq![93u8, 93u8][1]);
            },
            None => {},
        }
    } else {
        lemma_plain_end(b, i + 1, len);
    }
}

/// The rewritten bytes of `b[i..]`.
pub open spec fn md_links(b: Seq<u8>, i: int) -> Seq<u8>
    decreases b.len() - i,
{
    if i < 0 || i >= b.len() {
        seq![]
    } else {
        let st = md_step(b, i);
        proof {
            lemma_md_step(b, i);
        }
        st.1 + md_links(b, st.0)
    }
}

/// The scan reaches a `[[` at `i` that is never closed and is not at the very end.
pub open spec fn unclosed_at(b: Seq<u8>, i: int) -> bool {
    &&& b[i] != 96
    &&& opens_wikilink(b, i)
    &&& find_pat(b, seq![93u8, 93u8], i + 2, b.len() as int) is None
    &&& i + 2 < b.len()
}

/// The inputs on which the rewriting is defined: where the scan meets an
/// unclosed `[[` before the last byte, that last byte is a whole character.
pub open spec fn md_defined(b: Seq<u8>, i: int) -> bool
    decreases b.len() - i,
{
    if i < 0 || i >= b.len() {
        true
    } else {
        let st = md_step(b, i);
        proof {
            lemma_md_step(b, i);
        }
        (unclosed_at(b, i) ==> b[b.len() - 1] < 0x80) && md_defined(b, st.0)
    }
}

pub proof fn lemma_wl_md_link_valid(z: Seq<u8>)
    requires
        valid_utf8(z),
    ensures
        valid_utf8(wl_md_link(z)),
{
    broadcast use is_char_boundary_start_end_of_seq;

    let zt = trimmed(z);
    lemma_trimmed_valid(z);
    lemma_find_byte(zt, 124, 0, zt.len() as int);
    match find_byte(zt, 124, 0, zt.len() as int) {
        Some(p) => {
            lemma_ascii_boundary(zt, p);
            lemma_ascii_boundary(zt, p + 1);
            lemma_valid_sub(zt, 0, p);
            lemma_valid_sub(zt, p + 1, zt.len() as int);
            lemma_trimmed_valid(zt.subrange(0, p));
            lemma_trimmed_valid(zt.subrange(p + 1, zt.len() as int));
        },
        None => {},
    }
    let (target, label) = wl_parts(z);
    lemma_ascii_valid(seq![91u8]);
    lemma_ascii_valid(note_link_mid());
    lemma_ascii_valid(seq![62u8, 41u8]);
    valid_utf8_concat(seq![91u8], label);
    valid_utf8_concat(seq![91u8] + label, note_link_mid());
    valid_utf8_concat(seq![91u8] + label + note_link_mid(), target);
    valid_utf8_concat(seq![91u8] + label + note_link_mid() + target, seq![62u8, 41u8]);
}

/// Rewriting valid UTF-8 from a character boundary gives valid UTF-8.
pub proof fn lemma_md_valid(b: Seq<u8>, i: int)
    requires
        valid_utf8(b),
        0 <= i <= b.len(),
        is_char_boundary(b, i),
    ensures
        valid_utf8(md_links(b, i)),
    decreases b.len() - i,
{
    if i < b.len() {
        lemma_md_step(b, i);
        let st = md_step(b, i);
        lemma_ascii_boundary(b, st.0);
        let len = b.len() as int;
        if b[i] != 96 && opens_wikilink(b, i) && find_pat(b, seq![93u8, 93u8], i + 2, len) is Some {
            let k = find_pat(b, seq![93u8, 93u8], i + 2, len).unwrap();
            lemma_find_pat(b, seq![93u8, 93u8], i + 2, len);
            let j0: int = 0;
            assert(b[k + j0] == seq![93u8, 93u8][j0]);
            lemma_ascii_boundary(b, i + 2);
            lemma_ascii_boundary(b, k);
            lemma_valid_sub(b, i + 2, k);
            lemma_wl_md_link_valid(b.subrange(i + 2, k));
        } else {
            lemma_valid_sub(b, i, st.0);
        }
        lemma_md_valid(b, st.0);
        valid_utf8_concat(st.1, md_links(b, st.0));
    } else {
        assert(md_links(b, i) =~= Seq::<u8>::empty());
        lemma_ascii_valid(Seq::<u8>::empty());
    }
}

/// Text without `[[` comes out of the rewriting unchanged.
pub proof fn lemma_md_links_without_wikilinks(b: Seq<u8>, i: int)
    requires
        0 <= i <= b.len(),
        forall|k: int| i <= k < b.len() ==> !opens_wikilink(b, k),
    ensures
        md_links(b, i) == b.subrange(i, b.len() as int),
    decreases b.len() - i,
{
    if i < b.len() {
        lemma_md_step(b, i);
        let st = md_step(b, i);
        lemma_md_links_without_wikilinks(b, st.0);
        assert(b.subrange(i, st.0) + b.subrange(st.0, b.len() as int) =~= b.subrange(
            i,
            b.len() as int,
        ));
    } else {
        assert(b.subrange(i, b.len() as int) =~= Seq::<u8>::empty());
    }
}

/// Offsets in `b` of the target and the label of the wikilink inside `b[lo..hi]`.
fn wl_parts_idx(b: &[u8], lo: usize, hi: usize) -> (r: (usize, usize, usize, usize))
    requires
        lo <= hi <= b@.len(),
    ensures
        lo <= r.0 <= r.1 <= hi,
        lo <= r.2 <= r.3 <= hi,
        b@.subrange(r.0 as int, r.1 as int) == wl_parts(b@.subrange(lo as int, hi as int)).0,
        b@.subrange(r.2 as int, r.3 as int) == wl_parts(b@.subrange(lo as int, hi as int)).1,
{
    let s = trim_start_idx(b, lo, hi);
    let e = trim_end_idx(b, s, hi);
    let ghost z = b@.subrange(lo as int, hi as int);
    let ghost zt = b@.subrange(s as int, e as int);
    proof {
        lemma_trim_sub(b@, lo as int, hi as int);
        assert(trimmed(z) == zt);
        lemma_find_byte_shift(b@, 124, s as int, e as int, s as int);
        lemma_find_byte(b@, 124, s as int, e as int);
    }
    match find_byte_idx(b, 124, s, e) {
        Some(p) => {
            let s1 = trim_start_idx(b, s, p);
            let e1 = trim_end_idx(b, s1, p);
            let s2 = trim_start_idx(b, p + 1, e);
            let e2 = trim_end_idx(b, s2, e);
            proof {
                lemma_trim_sub(b@, s as int, p as int);
                lemma_trim_sub(b@, p + 1, e as int);
                assert(zt.subrange(0, p - s) =~= b@.subrange(s as int, p as int));
                assert(zt.subrange(p - s + 1, zt.len() as int) =~= b@.subrange(p + 1, e as int));
            }
            (s1, e1, s2, e2)
        },
        None => (s, e, s, e),
    }
}

/// [`plain_end`] on a slice.
fn plain_end_idx(b: &[u8], from: usize, to: usize) -> (r: usize)
    requires
        from <= to <= b@.len(),
    ensures
        r == plain_end(b@, from as int, to as int),
{
    let mut k = from;
    while k < to
        invariant
            from <= k <= to <= b@.len(),
            plain_end(b@, from as int, to as int) == plain_end(b@, k as int, to as int),
        decreases to - k,
    {
        if b[k] == 96 || (b[k] == 91 && b.len() - k > 1 && b[k + 1] == 91) {
            return k;
        }
        k += 1;
    }
    to
}

/// Rewrites `[[Target]]` / `[[Target|Label]]` into Markdown links with the
/// `rusty-note:` scheme. Code spans and code blocks stay as they are;
/// existing `[..](..)` links are left alone, since `[[` inside them does not
/// count as a wikilink.
pub fn wikilinks_to_md_links(text: &str) -> (r: String)
    requires
        md_defined(text.spec_bytes(), 0),
    ensures
        encode_utf8(r@) == md_links(text.spec_bytes(), 0),
{
    let b = text.as_bytes();
    let len = b.len();
    let mut out: Vec<u8> = Vec::new();
    let mut i: usize = 0;
    proof {
        assert(out@ + md_links(b@, 0) =~= md_links(b@, 0));
    }
    while i < len
        invariant
            len == b@.len(),
            i <= len,
            out@ + md_links(b@, i as int) == md_links(b@, 0),
        decreases len - i,
    {
        proof {
            lemma_md_step(b@, i as int);
        }
        let ghost before = out@;
        let next: usize;
        if b[i] == 96 {
            next = code_end_idx(b, i);
            push_range(&mut out, b, i, next);
        } else if b[i] == 91 && len - i > 1 && b[i + 1] == 91 {
            let needle: [u8; 2] = [93, 93];
            proof {
                assert(needle@ =~= seq![93u8, 93u8]);
            }
            match find_pat_idx(b, needle.as_slice(), i + 2, len) {
                Some(k) => {
                    let (t0, t1, l0, l1) = wl_parts_idx(b, i + 2, k);
                    let mid: [u8; 14] = [93, 40, 60, 114, 117, 115, 116, 121, 45, 110, 111, 116, 101, 58];
                    let tail: [u8; 2] = [62, 41];
                    out.push(91);
                    push_range(&mut out, b, l0, l1);
                    push_range(&mut out, mid.as_slice(), 0, 14);
                    push_range(&mut out, b, t0, t1);
                    push_range(&mut out, tail.as_slice(), 0, 2);
                    proof {
                        assert(mid@.subrange(0, 14) =~= note_link_mid());
                        assert(tail@.subrange(0, 2) =~= seq![62u8, 41u8]);
                        assert(out@ =~= before + wl_md_link(b@.subrange(i + 2, k as int)));
                    }
                    next = k + 2;
                },
                None => {
                    push_range(&mut out, b, i, len);
                    next = len;
                },
            }
        } else {
            next = plain_end_idx(b, i + 1, len);
            push_range(&mut out, b, i, next);
        }
        proof {
            assert(md_step(b@, i as int).0 == next as int);
            assert(out@ == before + md_step(b@, i as int).1);
            assert(before + md_links(b@, i as int) =~= out@ + md_links(b@, next as int));
        }
        i = next;
    }
    proof {
        assert(md_links(b@, len as int) =~= Seq::<u8>::empty());
        assert(out@ =~= md_links(b@, 0));
        encode_utf8_valid_utf8(text@);
        is_char_boundary_start_end_of_seq(b@);
        lemma_md_valid(b@, 0);
        decode_utf8_encode_utf8(out@);
    }
    string_from_utf8(out)
}


// ---------------------------------------------------------------------------
// Extracting wikilink targets
// ---------------------------------------------------------------------------

/// First offset `k >= from` with `b[k]` one of `x`, `y`, `z`; the end of `b` if none.
pub open spec fn first_of(b: Seq<u8>, from: int, x: u8, y: u8, z: u8) -> int
    decreases b.len() - from,
{
    if from < 0 || from >= b.len() {
        b.len() as int
    } else if b[from] == x || b[from] == y || b[from] == z {
        from
    } else {
        first_of(b, from + 1, x, y, z)
    }
}

pub proof fn lemma_first_of(b: Seq<u8>, from: int, x: u8, y: u8, z: u8)
    requires
        0 <= from <= b.len(),
    ensures
        from <= first_of(b, from, x, y, z) <= b.len(),
        first_of(b, from, x, y, z) < b.len() ==> {
            let k = first_of(b, from, x, y, z);
            b[k] == x || b[k] == y || b[k] == z
        },
    decreases b.len() - from,
{
    if from < b.len() && !(b[from] == x || b[from] == y || b[from] == z) {
        lemma_first_of(b, from + 1, x, y, z);
    }
}

fn first_of_idx(b: &[u8], from: usize, x: u8, y: u8, z: u8) -> (r: usize)
    requires
        from <= b@.len(),
    ensures
        r == first_of(b@, from as int, x, y, z),
        from <= r <= b@.len(),
{
    proof {
        lemma_first_of(b@, from as int, x, y, z);
    }
    let mut k = from;
    while k < b.len()
        invariant
            from <= k <= b@.len(),
            first_of(b@, from as int, x, y, z) == first_of(b@, k as int, x, y, z),
        decreases b@.len() - k,
    {
        if b[k] == x || b[k] == y || b[k] == z {
            return k;
        }
        k += 1;
    }
    k
}

/// `b[i..]` without its fenced code: each "```" that has a later "```" is
/// cut out together with everything up to and including that later one
/// (the regex `(?s)```.*?```` replaced by nothing).
pub open spec fn scrub_fences(b: Seq<u8>, i: int) -> Seq<u8>
    decreases b.len() - i,
{
    let len = b.len() as int;
    if i < 0 || i >= len {
        seq![]
    } else {
        match find_pat(b, seq![96u8, 96u8, 96u8], i, len) {
            None => b.subrange(i, len),
            Some(p) => match find_pat(b, seq![96u8, 96u8, 96u8], p + 3, len) {
                None => b.subrange(i, len),
                Some(q) => {
                    proof {
                        lemma_find_pat(b, seq![96u8, 96u8, 96u8], i, len);
                        lemma_find_pat(b, seq![96u8, 96u8, 96u8], p + 3, len);
                    }
                    b.subrange(i, p) + scrub_fences(b, q + 3)
                },
            },
        }
    }
}

/// `b[i..]` without its inline code: a backtick, one or more bytes that are
/// neither a backtick nor a newline, and a backtick (the regex
/// "`[^`\n]+`" replaced by nothing).
pub open spec fn scrub_inline(b: Seq<u8>, i: int) -> Seq<u8>
    decreases b.len() - i,
{
    let len = b.len() as int;
    if i < 0 || i >= len {
        seq![]
    } else {
        match find_byte(b, 96, i, len) {
            None => b.subrange(i, len),
            Some(p) => {
                proof {
                    lemma_find_byte(b, 96, i, len);
                    lemma_first_of(b, p + 1, 96, 10, 10);
                }
                let q = first_of(b, p + 1, 96, 10, 10);
                if q < len && b[q] == 96 && q > p + 1 {
                    b.subrange(i, p) + scrub_inline(b, q + 1)
                } else {
                    b.subrange(i, p + 1) + scrub_inline(b, p + 1)
                }
            },
        }
    }
}

/// The wikilink matched at `p` by the regex `\[\[([^\[\]|]+)(?:\|[^\[\]]*)?\]\]`:
/// the range of its target group and where the match ends.
pub open spec fn wl_match_at(b: Seq<u8>, p: int) -> Option<(int, int, int)> {
    let len = b.len() as int;
    if !opens_wikilink(b, p) {
        None
    } else {
        let j = first_of(b, p + 2, 91, 93, 124);
        if j == p + 2 {
            None
        } else if j + 1 < len && b[j] == 93 && b[j + 1] == 93 {
            Some((p + 2, j, j + 2))
        } else if j < len && b[j] == 124 {
            let m = first_of(b, j + 1, 91, 93, 93);
            if m + 1 < len && b[m] == 93 && b[m + 1] == 93 {
                Some((p + 2, j, m + 2))
            } else {
                None
            }
        } else {
            None
        }
    }
}

pub proof fn lemma_wl_match_at(b: Seq<u8>, p: int)
    requires
        0 <= p < b.len(),
    ensures
        wl_match_at(b, p) matches Some((g0, g1, e)) ==> p + 2 == g0 < g1 < e <= b.len() && b[p
            + 1] == 91 && (b[g1] == 93 || b[g1] == 124) && b[e - 1] == 93,
{
    if opens_wikilink(b, p) {
        lemma_first_of(b, p + 2, 91, 93, 124);
        let j = first_of(b, p + 2, 91, 93, 124);
        if j < b.len() {
            lemma_first_of(b, j + 1, 91, 93, 93);
        }
    }
}

/// The wikilink targets in `b[i..]`, trimmed, empty ones left out.
pub open spec fn wl_targets(b: Seq<u8>, i: int) -> Seq<Seq<u8>>
    decreases b.len() - i,
{
    if i < 0 || i >= b.len() {
        seq![]
    } else {
        match wl_match_at(b, i) {
            Some((g0, g1, e)) => {
                proof {
                    lemma_wl_match_at(b, i);
                }
                let t = trimmed(b.subrange(g0, g1));
                if t.len() > 0 {
                    seq![t] + wl_targets(b, e)
                } else {
                    wl_targets(b, e)
                }
            },
            None => wl_targets(b, i + 1),
        }
    }
}

/// The targets of the wikilinks of a note body: fenced and inline code are
/// removed first, then every `[[target]]` / `[[target|label]]` gives its
/// trimmed target.
pub open spec fn extracted_wikilinks(b: Seq<u8>) -> Seq<Seq<u8>> {
    wl_targets(scrub_inline(scrub_fences(b, 0), 0), 0)
}

pub proof fn lemma_scrub_fences_valid(b: Seq<u8>, i: int)
    requires
        valid_utf8(b),
        0 <= i <= b.len(),
        is_char_boundary(b, i),
    ensures
        valid_utf8(scrub_fences(b, i)),
    decreases b.len() - i,
{
    let len = b.len() as int;
    if i < len {
        let pat = seq![96u8, 96u8, 96u8];
        lemma_find_pat(b, pat, i, len);
        lemma_ascii_boundary(b, len);
        match find_pat(b, pat, i, len) {
            None => {
                lemma_valid_sub(b, i, len);
            },
            Some(p) => {
                lemma_find_pat(b, pat, p + 3, len);
                match find_pat(b, pat, p + 3, len) {
                    None => {
                        lemma_valid_sub(b, i, len);
                    },
                    Some(q) => {
                        let j0: int = 0;
                        let j2: int = 2;
                        assert(b[p + j0] == pat[j0]);
                        assert(b[q + j2] == pat[j2]);
                        lemma_ascii_boundary(b, p);
                        lemma_ascii_boundary(b, q + 3);
                        lemma_valid_sub(b, i, p);
                        lemma_scrub_fences_valid(b, q + 3);
                        valid_utf8_concat(b.subrange(i, p), scrub_fences(b, q + 3));
                    },
                }
            },
        }
    } else {
        lemma_ascii_valid(Seq::<u8>::empty());
    }
}

pub proof fn lemma_scrub_inline_valid(b: Seq<u8>, i: int)
    requires
        valid_utf8(b),
        0 <= i <= b.len(),
        is_char_boundary(b, i),
    ensures
        valid_utf8(scrub_inline(b, i)),
    decreases b.len() - i,
{
    let len = b.len() as int;
    if i < len {
        lemma_find_byte(b, 96, i, len);
        lemma_ascii_boundary(b, len);
        match find_byte(b, 96, i, len) {
            None => {
                lemma_valid_sub(b, i, len);
            },
            Some(p) => {
                lemma_first_of(b, p + 1, 96, 10, 10);
                let q = first_of(b, p + 1, 96, 10, 10);
                lemma_ascii_boundary(b, p);
                lemma_ascii_boundary(b, p + 1);
                if q < len && b[q] == 96 && q > p + 1 {
                    lemma_ascii_boundary(b, q + 1);
                    lemma_valid_sub(b, i, p);
                    lemma_scrub_inline_valid(b, q + 1);
                    valid_utf8_concat(b.subrange(i, p), scrub_inline(b, q + 1));
                } else {
                    lemma_valid_sub(b, i, p + 1);
                    lemma_scrub_inline_valid(b, p + 1);
                    valid_utf8_concat(b.subrange(i, p + 1), scrub_inline(b, p + 1));
                }
            },
        }
    } else {
        lemma_ascii_valid(Seq::<u8>::empty());
    }
}

fn scrub_fences_vec(b: &[u8]) -> (r: Vec<u8>)
    ensures
        r@ == scrub_fences(b@, 0),
{
    let len = b.len();
    let pat: [u8; 3] = [96, 96, 96];
    proof {
        assert(pat@ =~= seq![96u8, 96u8, 96u8]);
    }
    let mut out: Vec<u8> = Vec::new();
    let mut i: usize = 0;
    proof {
        assert(out@ + scrub_fences(b@, 0) =~= scrub_fences(b@, 0));
    }
    while i < len
        invariant
            len == b@.len(),
            i <= len,
            pat@ == seq![96u8, 96u8, 96u8],
            out@ + scrub_fences(b@, i as int) == scrub_fences(b@, 0),
        decreases len - i,
    {
        let ghost before = out@;
        match find_pat_idx(b, pat.as_slice(), i, len) {
            None => {
                push_range(&mut out, b, i, len);
                proof {
                    assert(out@ == before + scrub_fences(b@, i as int));
                    assert(scrub_fences(b@, len as int) =~= Seq::<u8>::empty());
                }
                i = len;
            },
            Some(p) => match find_pat_idx(b, pat.as_slice(), p + 3, len) {
                None => {
                    push_range(&mut out, b, i, len);
                    proof {
                        assert(out@ == before + scrub_fences(b@, i as int));
                        assert(scrub_fences(b@, len as int) =~= Seq::<u8>::empty());
                    }
                    i = len;
                },
                Some(q) => {
                    push_range(&mut out, b, i, p);
                    proof {
                        assert(before + scrub_fences(b@, i as int) =~= out@ + scrub_fences(
                            b@,
                            q + 3,
                        ));
                    }
                    i = q + 3;
                },
            },
        }
    }
    proof {
        assert(out@ + Seq::<u8>::empty() =~= out@);
    }
    out
}

fn scrub_inline_vec(b: &[u8]) -> (r: Vec<u8>)
    ensures
        r@ == scrub_inline(b@, 0),
{
    let len = b.len();
    let mut out: Vec<u8> = Vec::new();
    let mut i: usize = 0;
    proof {
        assert(out@ + scrub_inline(b@, 0) =~= scrub_inline(b@, 0));
    }
    while i < len
        invariant
            len == b@.len(),
            i <= len,
            out@ + scrub_inline(b@, i as int) == scrub_inline(b@, 0),
        decreases len - i,
    {
        let ghost before = out@;
        match find_byte_idx(b, 96, i, len) {
            None => {
                push_range(&mut out, b, i, len);
                proof {
                    assert(out@ == before + scrub_inline(b@, i as int));
                    assert(scrub_inline(b@, len as int) =~= Seq::<u8>::empty());
                }
                i = len;
            },
            Some(p) => {
                let q = first_of_idx(b, p + 1, 96, 10, 10);
                if q < len && b[q] == 96 && q > p + 1 {
                    push_range(&mut out, b, i, p);
                    proof {
                        assert(before + scrub_inline(b@, i as int) =~= out@ + scrub_inline(
                            b@,
                            q + 1,
                        ));
                    }
                    i = q + 1;
                } else {
                    push_range(&mut out, b, i, p + 1);
                    proof {
                        assert(before + scrub_inline(b@, i as int) =~= out@ + scrub_inline(
                            b@,
                            p + 1,
                        ));
                    }
                    i = p + 1;
                }
            },
        }
    }
    proof {
        assert(out@ + Seq::<u8>::empty() =~= out@);
    }
    out
}

fn wl_match_at_idx(b: &[u8], p: usize) -> (r: Option<(usize, usize, usize)>)
    requires
        p < b@.len(),
    ensures
        match r {
            Some((g0, g1, e)) => wl_match_at(b@, p as int) == Some((g0 as int, g1 as int, e as int)),
            None => wl_match_at(b@, p as int) is None,
        },
{
    let len = b.len();
    if !(b[p] == 91 && len - p > 1 && b[p + 1] == 91) {
        return None;
    }
    let j = first_of_idx(b, p + 2, 91, 93, 124);
    if j == p + 2 {
        return None;
    }
    if j < len - 1 && b[j] == 93 && b[j + 1] == 93 {
        return Some((p + 2, j, j + 2));
    }
    if j < len && b[j] == 124 {
        let m = first_of_idx(b, j + 1, 91, 93, 93);
        if m < len - 1 && b[m] == 93 && b[m + 1] == 93 {
            return Some((p + 2, j, m + 2));
        }
    }
    None
}

/// Extract all `[[link]]` / `[[link|alias]]` targets, skipping code spans/blocks.
pub fn extract_wikilinks(body: &str) -> (r: Vec<String>)
    ensures
        r@.map_values(|t: String| encode_utf8(t@)) == extracted_wikilinks(body.spec_bytes()),
{
    let b0 = body.as_bytes();
    let s1 = scrub_fences_vec(b0);
    let s2 = scrub_inline_vec(s1.as_slice());
    let b = s2.as_slice();
    let len = b.len();
    proof {
        encode_utf8_valid_utf8(body@);
        is_char_boundary_start_end_of_seq(b0@);
        lemma_scrub_fences_valid(b0@, 0);
        is_char_boundary_start_end_of_seq(s1@);
        lemma_scrub_inline_valid(s1@, 0);
    }
    let mut out: Vec<String> = Vec::new();
    let mut i: usize = 0;
    proof {
        assert(out@.map_values(|t: String| encode_utf8(t@)) + wl_targets(b@, 0) =~= wl_targets(
            b@,
            0,
        ));
    }
    while i < len
        invariant
            len == b@.len(),
            i <= len,
            valid_utf8(b@),
            out@.map_values(|t: String| encode_utf8(t@)) + wl_targets(b@, i as int) == wl_targets(
                b@,
                0,
            ),
        decreases len - i,
    {
        let ghost before = out@.map_values(|t: String| encode_utf8(t@));
        proof {
            lemma_wl_match_at(b@, i as int);
        }
        match wl_match_at_idx(b, i) {
            Some((g0, g1, e)) => {
                let s = trim_start_idx(b, g0, g1);
                let t = trim_end_idx(b, s, g1);
                proof {
                    lemma_trim_sub(b@, g0 as int, g1 as int);
                }
                if t > s {
                    let mut v: Vec<u8> = Vec::new();
                    push_range(&mut v, b, s, t);
                    proof {
                        assert(v@ =~= b@.subrange(s as int, t as int));
                        lemma_ascii_boundary(b@, g0 as int);
                        lemma_ascii_boundary(b@, g1 as int);
                        lemma_valid_sub(b@, g0 as int, g1 as int);
                        lemma_trimmed_valid(b@.subrange(g0 as int, g1 as int));
                        decode_utf8_encode_utf8(v@);
                    }
                    let st = string_from_utf8(v);
                    out.push(st);
                    proof {
                        assert(out@.map_values(|t: String| encode_utf8(t@)) =~= before.push(
                            trimmed(b@.subrange(g0 as int, g1 as int)),
                        ));
                        assert(before + wl_targets(b@, i as int) =~= out@.map_values(
                            |t: String| encode_utf8(t@),
                        ) + wl_targets(b@, e as int));
                    }
                }
                i = e;
            },
            None => {
                i = i + 1;
            },
        }
    }
    proof {
        assert(wl_targets(b@, len as int) =~= Seq::<Seq<u8>>::empty());
        assert(out@.map_values(|t: String| encode_utf8(t@)) + Seq::<Seq<u8>>::empty()
            =~= out@.map_values(|t: String| encode_utf8(t@)));
    }
    out
}


// ---------------------------------------------------------------------------
// Front matter fields
// ---------------------------------------------------------------------------

/// Parsed front-matter fields we care about (all optional).
#[derive(Debug, Clone, PartialEq)]
pub struct FrontMatter {
    pub title: Option<String>,
    pub tags: Vec<String>,
    /// Obsidian-style aliases (`aliases: [a, b]` or a block list).
    pub aliases: Vec<String>,
}

/// The UTF-8 bytes of the fields: title, tags, aliases.
pub type FmModel = (Option<Seq<u8>>, Seq<Seq<u8>>, Seq<Seq<u8>>);

/// Parser state: the fields so far, and whether a tag or an alias block list is open.
pub type FmState = (FmModel, bool, bool);

pub open spec fn fm_view(fm: FrontMatter) -> FmModel {
    (
        match fm.title {
            Some(t) => Some(encode_utf8(t@)),
            None => None,
        },
        fm.tags@.map_values(|t: String| encode_utf8(t@)),
        fm.aliases@.map_values(|t: String| encode_utf8(t@)),
    )
}

impl Default for FrontMatter {
    fn default() -> (r: FrontMatter)
        ensures
            fm_view(r) == (None::<Seq<u8>>, Seq::<Seq<u8>>::empty(), Seq::<Seq<u8>>::empty()),
    {
        let r = FrontMatter { title: None, tags: Vec::new(), aliases: Vec::new() };
        proof {
            assert(fm_view(r).1 =~= Seq::<Seq<u8>>::empty());
            assert(fm_view(r).2 =~= Seq::<Seq<u8>>::empty());
        }
        r
    }
}

/// `s.trim_matches('"')`.
pub open spec fn unquote(s: Seq<u8>) -> Seq<u8> {
    trim_end_char(trim_start_char(s, 34), 34)
}

/// The items of an inline list `[a, b]`: unquoted, `[` and `]` stripped,
/// split at commas, each trimmed and unquoted, empty ones left out.
pub open spec fn list_items(value: Seq<u8>) -> Seq<Seq<u8>> {
    list_from(trim_end_char(trim_start_char(unquote(value), 91), 93), 0)
}

/// The items of the comma-separated `s[i..]`, as [`list_items`] takes them.
pub open spec fn list_from(s: Seq<u8>, i: int) -> Seq<Seq<u8>>
    decreases s.len() + 1 - i,
{
    if i < 0 || i > s.len() {
        seq![]
    } else {
        let e = match find_byte(s, 44, i, s.len() as int) {
            Some(k) => k,
            None => s.len() as int,
        };
        proof {
            lemma_find_byte(s, 44, i, s.len() as int);
        }
        let item = unquote(trimmed(s.subrange(i, e)));
        let rest = if e < s.len() {
            list_from(s, e + 1)
        } else {
            seq![]
        };
        if item.len() > 0 {
            seq![item] + rest
        } else {
            rest
        }
    }
}

/// The line starts with `- `.
pub open spec fn starts_dash(l: Seq<u8>) -> bool {
    l.len() >= 2 && l[0] == 45 && l[1] == 32
}

/// How one trimmed, non-empty line changes the parser state.
pub open spec fn fm_line(st: FmState, l: Seq<u8>) -> FmState {
    let (fm, tb, ab) = st;
    if tb && starts_dash(l) {
        let item = trimmed(l.subrange(2, l.len() as int));
        (
            if item.len() > 0 {
                (fm.0, fm.1.push(unquote(item)), fm.2)
            } else {
                fm
            },
            true,
            ab,
        )
    } else if ab && starts_dash(l) {
        let item = trimmed(l.subrange(2, l.len() as int));
        (
            if item.len() > 0 {
                (fm.0, fm.1, fm.2.push(unquote(item)))
            } else {
                fm
            },
            false,
            true,
        )
    } else {
        match find_byte(l, 58, 0, l.len() as int) {
            None => (fm, false, false),
            Some(c) => {
                let key = trimmed(l.subrange(0, c));
                let value = trimmed(l.subrange(c + 1, l.len() as int));
                if key == seq![116u8, 105u8, 116u8, 108u8, 101u8] && value.len() > 0 {
                    ((Some(unquote(value)), fm.1, fm.2), false, false)
                } else if key == seq![97u8, 108u8, 105u8, 97u8, 115u8, 101u8, 115u8] {
                    if value.len() == 0 {
                        (fm, false, true)
                    } else {
                        ((fm.0, fm.1, list_items(value)), false, false)
                    }
                } else if key == seq![116u8, 97u8, 103u8, 115u8] {
                    if value.len() == 0 {
                        (fm, true, false)
                    } else {
                        ((fm.0, list_items(value), fm.2), false, false)
                    }
                } else {
                    (fm, false, false)
                }
            },
        }
    }
}

/// The state after the lines of `b` from `pos` on, starting in `st`; each
/// line is trimmed and empty lines are skipped.
pub open spec fn fm_lines(b: Seq<u8>, pos: int, st: FmState) -> FmState
    decreases b.len() + 1 - pos,
{
    if pos < 0 || pos > b.len() {
        st
    } else {
        let e = match find_byte(b, 10, pos, b.len() as int) {
            Some(k) => k,
            None => b.len() as int,
        };
        proof {
            lemma_find_byte(b, 10, pos, b.len() as int);
        }
        let l = trimmed(b.subrange(pos, e));
        let st2 = if l.len() == 0 {
            st
        } else {
            fm_line(st, l)
        };
        if e < b.len() {
            fm_lines(b, e + 1, st2)
        } else {
            st2
        }
    }
}

/// The fields of the front matter `raw`.
pub open spec fn front_matter_fields(raw: Seq<u8>) -> FmModel {
    fm_lines(raw, 0, ((None, seq![], seq![]), false, false)).0
}

/// `s.trim_matches('"')` on a slice.
fn unquote_slice(v: &[u8]) -> (r: &[u8])
    ensures
        r@ == unquote(v@),
        valid_utf8(v@) ==> valid_utf8(r@),
{
    let a = trim_start_char_slice(v, 34);
    trim_end_char_slice(a, 34)
}

/// The `String`s of [`list_items`].
fn list_items_vec(value: &[u8]) -> (r: Vec<String>)
    requires
        valid_utf8(value@),
    ensures
        r@.map_values(|t: String| encode_utf8(t@)) == list_items(value@),
{
    let u = unquote_slice(value);
    let a = trim_start_char_slice(u, 91);
    let s = trim_end_char_slice(a, 93);
    let len = s.len();
    let mut out: Vec<String> = Vec::new();
    let mut i: usize = 0;
    proof {
        assert(out@.map_values(|t: String| encode_utf8(t@)) + list_from(s@, 0) =~= list_from(s@, 0));
        is_char_boundary_start_end_of_seq(s@);
    }
    loop
        invariant
            len == s@.len(),
            s@ == trim_end_char(trim_start_char(unquote(value@), 91), 93),
            i <= len,
            valid_utf8(s@),
            is_char_boundary(s@, i as int),
            out@.map_values(|t: String| encode_utf8(t@)) + list_from(s@, i as int) == list_from(
                s@,
                0,
            ),
        decreases len + 1 - i,
    {
        let ghost before = out@.map_values(|t: String| encode_utf8(t@));
        proof {
            lemma_find_byte(s@, 44, i as int, len as int);
        }
        let e = match find_byte_idx(s, 44, i, len) {
            Some(k) => k,
            None => len,
        };
        proof {
            lemma_ascii_boundary(s@, e as int);
            lemma_valid_sub(s@, i as int, e as int);
        }
        let piece = vstd::slice::slice_subrange(s, i, e);
        let t = trim_slice(piece);
        let item = unquote_slice(t);
        if item.len() > 0 {
            let st = string_of(item);
            out.push(st);
            proof {
                assert(out@.map_values(|t: String| encode_utf8(t@)) =~= before.push(item@));
            }
        }
        if e < len {
            proof {
                lemma_ascii_boundary(s@, e + 1);
                assert(before + list_from(s@, i as int) =~= out@.map_values(
                    |t: String| encode_utf8(t@),
                ) + list_from(s@, e + 1));
            }
            i = e + 1;
        } else {
            proof {
                assert(out@.map_values(|t: String| encode_utf8(t@)) =~= list_from(s@, 0));
                assert(s@ == trim_end_char(trim_start_char(unquote(value@), 91), 93));
            }
            return out;
        }
    }
}

/// Applies one trimmed, non-empty line to the parser state.
fn fm_apply(fm: &mut FrontMatter, tb: &mut bool, ab: &mut bool, l: &[u8])
    requires
        valid_utf8(l@),
        l@.len() > 0,
    ensures
        (fm_view(*final(fm)), *final(tb), *final(ab)) == fm_line(
            (fm_view(*old(fm)), *old(tb), *old(ab)),
            l@,
        ),
{
    let len = l.len();
    let dash = len >= 2 && l[0] == 45 && l[1] == 32;
    if (*tb || *ab) && dash {
        proof {
            lemma_ascii_boundary(l@, 2);
            is_char_boundary_start_end_of_seq(l@);
            lemma_valid_sub(l@, 2, len as int);
        }
        let item = trim_slice(vstd::slice::slice_subrange(l, 2, len));
        let ghost v0 = fm_view(*fm);
        if item.len() > 0 {
            let st = string_of(unquote_slice(item));
            if *tb {
                fm.tags.push(st);
                proof {
                    assert(fm_view(*fm).1 =~= v0.1.push(unquote(item@)));
                }
            } else {
                fm.aliases.push(st);
                proof {
                    assert(fm_view(*fm).2 =~= v0.2.push(unquote(item@)));
                }
            }
        }
        if !*tb {
            *ab = true;
        }
        return;
    }
    *tb = false;
    *ab = false;
    proof {
        lemma_find_byte(l@, 58, 0, len as int);
    }
    match find_byte_idx(l, 58, 0, len) {
        None => {},
        Some(c) => {
            proof {
                lemma_ascii_boundary(l@, c as int);
                lemma_ascii_boundary(l@, c + 1);
                is_char_boundary_start_end_of_seq(l@);
                lemma_valid_sub(l@, c + 1, len as int);
            }
            let key = trim_slice(vstd::slice::slice_subrange(l, 0, c));
            let value = trim_slice(vstd::slice::slice_subrange(l, c + 1, len));
            let title: [u8; 5] = [116, 105, 116, 108, 101];
            let aliases: [u8; 7] = [97, 108, 105, 97, 115, 101, 115];
            let tags: [u8; 4] = [116, 97, 103, 115];
            proof {
                assert(title@ =~= seq![116u8, 105u8, 116u8, 108u8, 101u8]);
                assert(aliases@ =~= seq![97u8, 108u8, 105u8, 97u8, 115u8, 101u8, 115u8]);
                assert(tags@ =~= seq![116u8, 97u8, 103u8, 115u8]);
            }
            if bytes_eq(key, title.as_slice()) && value.len() > 0 {
                fm.title = Some(string_of(unquote_slice(value)));
            } else if bytes_eq(key, aliases.as_slice()) {
                if value.len() == 0 {
                    *ab = true;
                } else {
                    fm.aliases = list_items_vec(value);
                }
            } else if bytes_eq(key, tags.as_slice()) {
                if value.len() == 0 {
                    *tb = true;
                } else {
                    fm.tags = list_items_vec(value);
                }
            }
        },
    }
}

/// Minimal YAML subset parser: `title:` plus inline `[a, b]` or block-list
/// `tags:` and `aliases:`.
pub fn parse_front_matter(raw: &str) -> (r: FrontMatter)
    ensures
        fm_view(r) == front_matter_fields(raw.spec_bytes()),
{
    let b = raw.as_bytes();
    let len = b.len();
    let mut fm = FrontMatter::default();
    let mut tb = false;
    let mut ab = false;
    let mut pos: usize = 0;
    proof {
        encode_utf8_valid_utf8(raw@);
        is_char_boundary_start_end_of_seq(b@);
    }
    loop
        invariant
            len == b@.len(),
            b@ == raw.spec_bytes(),
            pos <= len,
            valid_utf8(b@),
            is_char_boundary(b@, pos as int),
            fm_lines(b@, pos as int, (fm_view(fm), tb, ab)) == fm_lines(
                b@,
                0,
                ((None, seq![], seq![]), false, false),
            ),
        decreases len + 1 - pos,
    {
        proof {
            lemma_find_byte(b@, 10, pos as int, len as int);
        }
        let e = match find_byte_idx(b, 10, pos, len) {
            Some(k) => k,
            None => len,
        };
        proof {
            lemma_ascii_boundary(b@, e as int);
            lemma_valid_sub(b@, pos as int, e as int);
        }
        let l = trim_slice(vstd::slice::slice_subrange(b, pos, e));
        let ghost st0 = (fm_view(fm), tb, ab);
        if l.len() > 0 {
            fm_apply(&mut fm, &mut tb, &mut ab, l);
        }
        proof {
            let st2 = if l@.len() == 0 { st0 } else { fm_line(st0, l@) };
            assert(st2 == (fm_view(fm), tb, ab));
        }
        if e < len {
            proof {
                lemma_ascii_boundary(b@, e + 1);
            }
            pos = e + 1;
        } else {
            proof {
                assert(fm_lines(b@, pos as int, st0) == (fm_view(fm), tb, ab));
            }
            return fm;
        }
    }
}


// ---------------------------------------------------------------------------
// Resolving a wikilink target
// ---------------------------------------------------------------------------

/// First `i >= from` with `keys[i] == key`.
pub open spec fn first_equal(keys: Seq<Seq<u8>>, key: Seq<u8>, from: int) -> Option<int>
    decreases keys.len() - from,
{
    if from < 0 || from >= keys.len() {
        None
    } else if keys[from] == key {
        Some(from)
    } else {
        first_equal(keys, key, from + 1)
    }
}

/// First `i >= from` whose `keys[i]` contains `key`.
pub open spec fn first_containing(keys: Seq<Seq<u8>>, key: Seq<u8>, from: int) -> Option<int>
    decreases keys.len() - from,
{
    if from < 0 || from >= keys.len() {
        None
    } else if contains_bytes(keys[from], key) {
        Some(from)
    } else {
        first_containing(keys, key, from + 1)
    }
}

/// Which of the names `stems` the wikilink `target` resolves to: none for a
/// blank target; otherwise the first whose lowercase form equals the
/// lowercase trimmed target, else the first whose lowercase form contains it.
pub open spec fn resolve_spec(stems: Seq<Seq<char>>, target: Seq<u8>) -> Option<int> {
    let t = trimmed(target);
    if t.len() == 0 {
        None
    } else {
        let keys = stems.map_values(|s: Seq<char>| name_key(s));
        let key = name_key(decode_utf8(t));
        match first_equal(keys, key, 0) {
            Some(i) => Some(i),
            None => first_containing(keys, key, 0),
        }
    }
}

pub proof fn lemma_first_equal(keys: Seq<Seq<u8>>, key: Seq<u8>, from: int)
    requires
        0 <= from <= keys.len(),
    ensures
        first_equal(keys, key, from) matches Some(i) ==> from <= i < keys.len(),
    decreases keys.len() - from,
{
    if from < keys.len() && keys[from] != key {
        lemma_first_equal(keys, key, from + 1);
    }
}

pub proof fn lemma_first_containing(keys: Seq<Seq<u8>>, key: Seq<u8>, from: int)
    requires
        0 <= from <= keys.len(),
    ensures
        first_containing(keys, key, from) matches Some(i) ==> from <= i < keys.len(),
    decreases keys.len() - from,
{
    if from < keys.len() && !contains_bytes(keys[from], key) {
        lemma_first_containing(keys, key, from + 1);
    }
}

/// `key` appears somewhere in `s` as a run of consecutive bytes.
pub open spec fn has_run(s: Seq<u8>, key: Seq<u8>) -> bool {
    exists|k: int| 0 <= k && k + key.len() <= s.len() && #[trigger] s.subrange(k, k + key.len()) == key
}

proof fn lemma_has_run(s: Seq<u8>, key: Seq<u8>)
    ensures
        contains_bytes(s, key) <==> has_run(s, key),
{
    if contains_bytes(s, key) {
        let k = choose|k: int| #[trigger] occurs_at(s, key, k);
        assert forall|j: int| 0 <= j < key.len() implies s.subrange(k, k + key.len())[j] == key[j] by {
            assert(s[k + j] == key[j]);
        }
        assert(s.subrange(k, k + key.len()) =~= key);
    }
    if has_run(s, key) {
        let k = choose|k: int|
            0 <= k && k + key.len() <= s.len() && #[trigger] s.subrange(k, k + key.len()) == key;
        assert forall|j: int| 0 <= j < key.len() implies #[trigger] s[k + j] == key[j] by {
            assert(s.subrange(k, k + key.len())[j] == s[k + j]);
        }
        assert(occurs_at(s, key, k));
    }
}

proof fn lemma_first_equal_is_first(keys: Seq<Seq<u8>>, key: Seq<u8>, from: int)
    requires
        0 <= from <= keys.len(),
    ensures
        first_equal(keys, key, from) matches Some(i) ==> from <= i < keys.len() && keys[i] == key
            && forall|j: int| from <= j < i ==> keys[j] != key,
        first_equal(keys, key, from) is None ==> forall|j: int| from <= j < keys.len() ==> keys[j] != key,
    decreases keys.len() - from,
{
    if from < keys.len() && keys[from] != key {
        lemma_first_equal_is_first(keys, key, from + 1);
    }
}

proof fn lemma_first_containing_is_first(keys: Seq<Seq<u8>>, key: Seq<u8>, from: int)
    requires
        0 <= from <= keys.len(),
    ensures
        first_containing(keys, key, from) matches Some(i) ==> from <= i < keys.len() && has_run(
            keys[i],
            key,
        ) && forall|j: int| from <= j < i ==> !has_run(#[trigger] keys[j], key),
        first_containing(keys, key, from) is None ==> forall|j: int|
            from <= j < keys.len() ==> !has_run(#[trigger] keys[j], key),
    decreases keys.len() - from,
{
    if from < keys.len() {
        lemma_has_run(keys[from], key);
        if !contains_bytes(keys[from], key) {
            lemma_first_containing_is_first(keys, key, from + 1);
        }
    }
}

/// How a wikilink target resolves among note names, all compared in
/// lowercase with the target trimmed: a blank target resolves to nothing; a
/// name equal to the target wins, the first such; failing that, the first
/// name in which the target appears anywhere as a run of characters; and
/// nothing only when no name contains it.
pub proof fn lemma_resolve_rules(stems: Seq<Seq<char>>, target: Seq<u8>)
    ensures
        ({
            let t = trimmed(target);
            let keys = stems.map_values(|s: Seq<char>| name_key(s));
            let key = name_key(decode_utf8(t));
            &&& t.len() == 0 ==> resolve_spec(stems, target) is None
            &&& (t.len() > 0 && exists|i: int| 0 <= i < keys.len() && keys[i] == key) ==> (resolve_spec(
                stems,
                target,
            ) matches Some(i) && 0 <= i < keys.len() && keys[i] == key && forall|j: int|
                0 <= j < i ==> keys[j] != key)
            &&& (t.len() > 0 && forall|i: int| 0 <= i < keys.len() ==> keys[i] != key) ==> ((resolve_spec(
                stems,
                target,
            ) matches Some(i) ==> 0 <= i < keys.len() && has_run(keys[i], key) && forall|j: int|
                0 <= j < i ==> !has_run(#[trigger] keys[j], key)) && (resolve_spec(stems, target) is None
                <==> forall|j: int| 0 <= j < keys.len() ==> !has_run(#[trigger] keys[j], key)))
        }),
{
    let t = trimmed(target);
    let keys = stems.map_values(|s: Seq<char>| name_key(s));
    let key = name_key(decode_utf8(t));
    lemma_first_equal_is_first(keys, key, 0);
    lemma_first_containing_is_first(keys, key, 0);
}

/// Index of the name among `stems` that the wikilink `target` resolves to:
/// exact (case-insensitive) match first, then case-insensitive substring.
pub fn resolve_stem(stems: &Vec<String>, target: &str) -> (r: Option<usize>)
    ensures
        r == match resolve_spec(stems@.map_values(|s: String| s@), target.spec_bytes()) {
            Some(i) => Some(i as usize),
            None => None::<usize>,
        },
{
    let b = target.as_bytes();
    let lo = trim_start_idx(b, 0, b.len());
    let hi = trim_end_idx(b, lo, b.len());
    proof {
        encode_utf8_valid_utf8(target@);
        is_char_boundary_start_end_of_seq(b@);
        lemma_trim_start_boundary(b@, 0, b@.len() as int);
        lemma_trim_end_boundary(b@, lo as int, b@.len() as int);
    }
    if hi == lo {
        return None;
    }
    let t = substr(target, lo, hi);
    proof {
        encode_utf8_decode_utf8(t@);
    }
    let lower = to_lower(t);
    let key = lower.as_str().as_bytes();
    let ghost names = stems@.map_values(|s: String| s@);
    let ghost keys = names.map_values(|s: Seq<char>| name_key(s));
    let mut i: usize = 0;
    while i < stems.len()
        invariant
            i <= stems@.len(),
            names == stems@.map_values(|s: String| s@),
            keys == names.map_values(|s: Seq<char>| name_key(s)),
            key@ == name_key(decode_utf8(trimmed(target.spec_bytes()))),
            trimmed(target.spec_bytes()).len() > 0,
            first_equal(keys, key@, 0) == first_equal(keys, key@, i as int),
        decreases stems@.len() - i,
    {
        let l = to_lower(stems[i].as_str());
        proof {
            assert(keys[i as int] == name_key(stems@[i as int]@));
        }
        if bytes_eq(l.as_str().as_bytes(), key) {
            return Some(i);
        }
        i += 1;
    }
    proof {
        lemma_first_equal(keys, key@, stems@.len() as int);
    }
    let mut j: usize = 0;
    while j < stems.len()
        invariant
            j <= stems@.len(),
            names == stems@.map_values(|s: String| s@),
            keys == names.map_values(|s: Seq<char>| name_key(s)),
            key@ == name_key(decode_utf8(trimmed(target.spec_bytes()))),
            trimmed(target.spec_bytes()).len() > 0,
            first_equal(keys, key@, 0) is None,
            first_containing(keys, key@, 0) == first_containing(keys, key@, j as int),
        decreases stems@.len() - j,
    {
        let l = to_lower(stems[j].as_str());
        proof {
            assert(keys[j as int] == name_key(stems@[j as int]@));
        }
        if contains_idx(l.as_str().as_bytes(), key) {
            return Some(j);
        }
        j += 1;
    }
    None
}

/// Resolve a wikilink target to one of the note paths `links`: exact stem
/// match first, then case-insensitive substring fallback.
pub fn resolve_wikilink(links: &[PathBuf], target: &str) -> (r: Option<PathBuf>)
    ensures
        r == match resolve_spec(links@.map_values(|p: PathBuf| stem_text(p)), target.spec_bytes()) {
            Some(i) => Some(links@[i]),
            None => None::<PathBuf>,
        },
{
    let mut stems: Vec<String> = Vec::new();
    let mut k: usize = 0;
    while k < links.len()
        invariant
            k <= links@.len(),
            stems@.map_values(|s: String| s@) == links@.subrange(0, k as int).map_values(
                |p: PathBuf| stem_text(p),
            ),
        decreases links@.len() - k,
    {
        let s = match file_stem_str(&links[k]) {
            Some(s) => s,
            None => String::new(),
        };
        let ghost before = stems@.map_values(|s: String| s@);
        stems.push(s);
        proof {
            assert(s@ == stem_text(links@[k as int]));
            assert(stems@.map_values(|s: String| s@) =~= before.push(stem_text(links@[k as int])));
            assert(stems@.map_values(|s: String| s@) =~= links@.subrange(0, k + 1).map_values(
                |p: PathBuf| stem_text(p),
            ));
        }
        k += 1;
    }
    proof {
        assert(links@.subrange(0, links@.len() as int) =~= links@);
    }
    let ghost names = links@.map_values(|p: PathBuf| stem_text(p));
    match resolve_stem(&stems, target) {
        Some(i) => {
            proof {
                let t = trimmed(target.spec_bytes());
                let keys = names.map_values(|s: Seq<char>| name_key(s));
                let key = name_key(decode_utf8(t));
                lemma_first_equal(keys, key, 0);
                lemma_first_containing(keys, key, 0);
            }
            Some(clone_path(&links[i]))
        },
        None => None,
    }
}

} // verus!

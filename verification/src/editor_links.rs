//! Editor interaction: finding the link under the cursor or the mouse.

use vstd::prelude::*;
use vstd::string::StringSliceAdditionalSpecFns;
use vstd::utf8::*;

use crate::text::{
    find_byte, find_byte_idx, find_pat, find_pat_idx, lemma_ascii_boundary, lemma_find_byte,
    lemma_find_pat, lemma_trimmed_valid, lemma_valid_sub, string_of, trim_slice, trimmed,
};

verus! {

/// A link in the text: its target and its byte range.
#[derive(Debug, Clone, PartialEq)]
pub struct WikiLinkBereich {
    pub ziel: String,
    pub start: usize,
    pub end: usize,
}

/// The target bytes and the range of a link.
pub open spec fn bereich_view(b: WikiLinkBereich) -> (Seq<u8>, int, int) {
    (encode_utf8(b.ziel@), b.start as int, b.end as int)
}

/// The wikilink around `pos`, searching from `from`: the `[[` found from
/// `from` on, closed by the next `]]`; it is taken when `pos` lies in it,
/// the search stops when the link starts after `pos` or a `[[` or `]]` is
/// missing, and goes on after the `[[` otherwise. Gives `(open, close)`.
pub open spec fn wl_scan(b: Seq<u8>, from: int, pos: int) -> Option<(int, int)>
    decreases b.len() - from,
{
    let len = b.len() as int;
    if from < 0 || from > len {
        None
    } else {
        match find_pat(b, seq![91u8, 91u8], from, len) {
            None => None,
            Some(open) => match find_pat(b, seq![93u8, 93u8], open + 2, len) {
                None => None,
                Some(c) => {
                    proof {
                        lemma_find_pat(b, seq![91u8, 91u8], from, len);
                    }
                    if open <= pos < c + 2 {
                        Some((open, c + 2))
                    } else if open > pos {
                        None
                    } else {
                        wl_scan(b, open + 2, pos)
                    }
                },
            },
        }
    }
}

/// The target of a wikilink with inside `inner`: the part before the first
/// `|`, trimmed.
pub open spec fn wl_ziel(inner: Seq<u8>) -> Seq<u8> {
    trimmed(
        inner.subrange(
            0,
            match find_byte(inner, 124, 0, inner.len() as int) {
                Some(k) => k,
                None => inner.len() as int,
            },
        ),
    )
}

/// Last `k` in `[lo, hi)` with `b[k] == c`.
pub open spec fn last_byte(b: Seq<u8>, c: u8, lo: int, hi: int) -> Option<int>
    decreases hi - lo,
{
    if hi <= lo {
        None
    } else if b[hi - 1] == c {
        Some(hi - 1)
    } else {
        last_byte(b, c, lo, hi - 1)
    }
}

pub proof fn lemma_last_byte(b: Seq<u8>, c: u8, lo: int, hi: int)
    requires
        0 <= lo <= hi <= b.len(),
    ensures
        last_byte(b, c, lo, hi) matches Some(k) ==> lo <= k < hi && b[k] == c,
    decreases hi - lo,
{
    if hi > lo && b[hi - 1] != c {
        lemma_last_byte(b, c, lo, hi - 1);
    }
}

/// `rusty-note:`, the scheme of links to notes.
pub open spec fn note_scheme() -> Seq<u8> {
    seq![114u8, 117u8, 115u8, 116u8, 121u8, 45u8, 110u8, 111u8, 116u8, 101u8, 58u8]
}

/// `s.trim_start_matches("rusty-note:")`.
pub open spec fn strip_scheme(s: Seq<u8>) -> Seq<u8>
    decreases s.len(),
{
    if s.len() >= 11 && s.subrange(0, 11) == note_scheme() {
        strip_scheme(s.subrange(11, s.len() as int))
    } else {
        s
    }
}

/// The `(` of a Markdown link around `pos`: the last one before `pos`, or
/// else the first one from `pos` on when no newline lies between.
pub open spec fn md_paren(b: Seq<u8>, pos: int) -> Option<int> {
    let len = b.len() as int;
    match last_byte(b, 40, 0, pos) {
        Some(q) => Some(q),
        None => match find_byte(b, 40, pos, len) {
            Some(p) => if find_byte(b, 10, pos, p) is None {
                Some(p)
            } else {
                None
            },
            None => None,
        },
    }
}

/// The Markdown link `[text](target)` around `pos`: target, start and end.
pub open spec fn md_link_at(b: Seq<u8>, pos: int) -> Option<(Seq<u8>, int, int)> {
    let len = b.len() as int;
    match md_paren(b, pos) {
        None => None,
        Some(paren) => if paren > 0 && b[paren - 1] == 93 {
            match last_byte(b, 91, 0, paren - 1) {
                None => None,
                Some(bracket) => match find_byte(b, 41, paren + 1, len) {
                    None => None,
                    Some(cp) => if bracket <= pos < cp + 1 {
                        Some((strip_scheme(trimmed(b.subrange(paren + 1, cp))), bracket, cp + 1))
                    } else {
                        None
                    },
                },
            }
        } else {
            None
        },
    }
}

/// The link that contains the byte offset `pos` of `b`, if any: a wikilink
/// first, else a Markdown link.
pub open spec fn link_at(b: Seq<u8>, pos: int) -> Option<(Seq<u8>, int, int)> {
    if b.len() == 0 || pos > b.len() {
        None
    } else {
        match wl_scan(b, 0, pos) {
            Some((o, c)) => Some((wl_ziel(b.subrange(o + 2, c - 2)), o, c)),
            None => md_link_at(b, pos),
        }
    }
}

/// The last `c` in `[lo, hi)` is at `k` when `b[k]` is `c` and none follows.
proof fn lemma_last_byte_at(b: Seq<u8>, c: u8, lo: int, hi: int, k: int)
    requires
        0 <= lo <= k < hi <= b.len(),
        b[k] == c,
        forall|j: int| k < j < hi ==> b[j] != c,
    ensures
        last_byte(b, c, lo, hi) == Some(k),
    decreases hi - lo,
{
    if hi - 1 != k {
        lemma_last_byte_at(b, c, lo, hi - 1, k);
    }
}

/// There is no `c` in `[lo, hi)`.
proof fn lemma_last_byte_none(b: Seq<u8>, c: u8, lo: int, hi: int)
    requires
        0 <= lo <= hi <= b.len(),
        forall|j: int| lo <= j < hi ==> b[j] != c,
    ensures
        last_byte(b, c, lo, hi) is None,
    decreases hi - lo,
{
    if hi > lo {
        lemma_last_byte_none(b, c, lo, hi - 1);
    }
}

/// The first `c` in `[from, to)` is at `k` when `b[k]` is `c` and none precedes.
proof fn lemma_find_byte_at(b: Seq<u8>, c: u8, from: int, to: int, k: int)
    requires
        0 <= from <= k < to <= b.len(),
        b[k] == c,
        forall|j: int| from <= j < k ==> b[j] != c,
    ensures
        find_byte(b, c, from, to) == Some(k),
{
    lemma_find_byte(b, c, from, to);
}

/// A Markdown link `[t](u)` is found from any position `pos` inside it
/// (from its `[` up to its `)`), the target part included, whenever the
/// search for its parenthesis lands on it: after the `(`, no other `(`
/// lies between it and `pos`; before the `(`, there is none before `pos`
/// and neither a `(` nor a line break from `pos` to it. Here `t` holds no
/// `[` and `u` no `)`. The link found is the whole of `[t](u)`, and its
/// target is `u` trimmed, without the note scheme.
pub proof fn lemma_md_link_found(b: Seq<u8>, s: int, m: int, cp: int, pos: int)
    requires
        0 <= s < m,
        m + 1 < cp < b.len(),
        b[s] == 91,
        b[m] == 93,
        b[m + 1] == 40,
        b[cp] == 41,
        forall|j: int| s < j < m ==> b[j] != 91,
        forall|j: int| m + 1 < j < cp ==> b[j] != 41,
        s <= pos <= cp,
        pos > m + 1 ==> forall|j: int| m + 1 < j < pos ==> b[j] != 40,
        pos <= m + 1 ==> forall|j: int| 0 <= j < m + 1 ==> b[j] != 40,
        pos <= m + 1 ==> forall|j: int| pos <= j < m + 1 ==> b[j] != 10,
    ensures
        md_link_at(b, pos) == Some((strip_scheme(trimmed(b.subrange(m + 2, cp))), s, cp + 1)),
{
    let paren = m + 1;
    let len = b.len() as int;
    if pos > paren {
        lemma_last_byte_at(b, 40, 0, pos, paren);
    } else {
        lemma_last_byte_none(b, 40, 0, pos);
        lemma_find_byte_at(b, 40, pos, len, paren);
        lemma_find_byte(b, 10, pos, paren);
    }
    assert(md_paren(b, pos) == Some(paren));
    lemma_last_byte_at(b, 91, 0, paren - 1, s);
    lemma_find_byte_at(b, 41, paren + 1, len, cp);
}

/// The inputs on which [`wikilink_an`] is defined: where no wikilink
/// contains `pos`, the text is cut at `pos`, which must be a character boundary.
pub open spec fn link_at_defined(b: Seq<u8>, pos: int) -> bool {
    b.len() == 0 || pos > b.len() || wl_scan(b, 0, pos) is Some || is_char_boundary(b, pos)
}

pub proof fn lemma_wl_scan(b: Seq<u8>, from: int, pos: int)
    requires
        0 <= from <= b.len(),
    ensures
        wl_scan(b, from, pos) matches Some((o, c)) ==> from <= o && o + 4 <= c <= b.len() && b[o
            + 1] == 91 && b[c - 2] == 93 && o <= pos < c,
    decreases b.len() - from,
{
    let len = b.len() as int;
    lemma_find_pat(b, seq![91u8, 91u8], from, len);
    match find_pat(b, seq![91u8, 91u8], from, len) {
        None => {},
        Some(open) => {
            lemma_find_pat(b, seq![93u8, 93u8], open + 2, len);
            match find_pat(b, seq![93u8, 93u8], open + 2, len) {
                None => {},
                Some(c) => {
                    assert(b[open + 1] == seq![91u8, 91u8][1]);
                    let j0: int = 0;
                    assert(b[c + j0] == seq![93u8, 93u8][j0]);
                    if !(open <= pos < c + 2) && !(open > pos) {
                        lemma_wl_scan(b, open + 2, pos);
                    }
                },
            }
        },
    }
}

fn last_byte_idx(b: &[u8], c: u8, lo: usize, hi: usize) -> (r: Option<usize>)
    requires
        lo <= hi <= b@.len(),
    ensures
        match r {
            Some(k) => last_byte(b@, c, lo as int, hi as int) == Some(k as int),
            None => last_byte(b@, c, lo as int, hi as int) is None,
        },
{
    let mut j = hi;
    while j > lo
        invariant
            lo <= j <= hi <= b@.len(),
            last_byte(b@, c, lo as int, hi as int) == last_byte(b@, c, lo as int, j as int),
        decreases j - lo,
    {
        if b[j - 1] == c {
            return Some(j - 1);
        }
        j -= 1;
    }
    None
}

fn wl_scan_idx(b: &[u8], pos: usize) -> (r: Option<(usize, usize)>)
    ensures
        match r {
            Some((o, c)) => wl_scan(b@, 0, pos as int) == Some((o as int, c as int)),
            None => wl_scan(b@, 0, pos as int) is None,
        },
{
    let len = b.len();
    let open_pat: [u8; 2] = [91, 91];
    let close_pat: [u8; 2] = [93, 93];
    proof {
        assert(open_pat@ =~= seq![91u8, 91u8]);
        assert(close_pat@ =~= seq![93u8, 93u8]);
    }
    let mut from: usize = 0;
    loop
        invariant
            len == b@.len(),
            from <= len,
            open_pat@ == seq![91u8, 91u8],
            close_pat@ == seq![93u8, 93u8],
            wl_scan(b@, 0, pos as int) == wl_scan(b@, from as int, pos as int),
        decreases len - from,
    {
        match find_pat_idx(b, open_pat.as_slice(), from, len) {
            None => {
                return None;
            },
            Some(open) => match find_pat_idx(b, close_pat.as_slice(), open + 2, len) {
                None => {
                    return None;
                },
                Some(c) => {
                    if open <= pos && pos < c + 2 {
                        return Some((open, c + 2));
                    }
                    if open > pos {
                        return None;
                    }
                    from = open + 2;
                },
            },
        }
    }
}

/// Finds the `[[link]]` that contains `byte_pos` (or `None`). For
/// `[[Target|Alias]]` the range covers everything and the target is the part
/// before `|`. Failing that, a Markdown link `[text](target)` around
/// `byte_pos` is taken, with a leading `rusty-note:` dropped from its target.
pub fn wikilink_an(text: &str, byte_pos: usize) -> (r: Option<WikiLinkBereich>)
    requires
        link_at_defined(text.spec_bytes(), byte_pos as int),
    ensures
        match r {
            Some(w) => link_at(text.spec_bytes(), byte_pos as int) == Some(bereich_view(w)),
            None => link_at(text.spec_bytes(), byte_pos as int) is None,
        },
{
    let b = text.as_bytes();
    let len = b.len();
    if len == 0 || byte_pos > len {
        return None;
    }
    proof {
        encode_utf8_valid_utf8(text@);
        is_char_boundary_start_end_of_seq(b@);
        lemma_wl_scan(b@, 0, byte_pos as int);
    }
    match wl_scan_idx(b, byte_pos) {
        Some((open, close)) => {
            let inner_lo = open + 2;
            let inner_hi = close - 2;
            proof {
                lemma_ascii_boundary(b@, inner_lo as int);
                lemma_ascii_boundary(b@, inner_hi as int);
                lemma_valid_sub(b@, inner_lo as int, inner_hi as int);
            }
            let inner = vstd::slice::slice_subrange(b, inner_lo, inner_hi);
            proof {
                lemma_find_byte(inner@, 124, 0, inner@.len() as int);
            }
            let cut = match find_byte_idx(inner, 124, 0, inner.len()) {
                Some(k) => k,
                None => inner.len(),
            };
            proof {
                lemma_ascii_boundary(inner@, cut as int);
                is_char_boundary_start_end_of_seq(inner@);
                lemma_valid_sub(inner@, 0, cut as int);
            }
            let z = trim_slice(vstd::slice::slice_subrange(inner, 0, cut));
            let ziel = string_of(z);
            return Some(WikiLinkBereich { ziel, start: open, end: close });
        },
        None => {},
    }
    md_link_an(b, byte_pos)
}

/// The Markdown link around `pos` in the valid UTF-8 `b`.
fn md_link_an(b: &[u8], pos: usize) -> (r: Option<WikiLinkBereich>)
    requires
        valid_utf8(b@),
        pos <= b@.len(),
    ensures
        match r {
            Some(w) => md_link_at(b@, pos as int) == Some(bereich_view(w)),
            None => md_link_at(b@, pos as int) is None,
        },
{
    let len = b.len();
    proof {
        lemma_last_byte(b@, 40, 0, pos as int);
        lemma_find_byte(b@, 40, pos as int, len as int);
    }
    let paren = match last_byte_idx(b, 40, 0, pos) {
        Some(q) => q,
        None => match find_byte_idx(b, 40, pos, len) {
            Some(p) => {
                if find_byte_idx(b, 10, pos, p).is_some() {
                    return None;
                }
                p
            },
            None => {
                return None;
            },
        },
    };
    if !(paren > 0 && b[paren - 1] == 93) {
        return None;
    }
    proof {
        lemma_last_byte(b@, 91, 0, paren - 1);
        lemma_find_byte(b@, 41, paren + 1, len as int);
    }
    let bracket = match last_byte_idx(b, 91, 0, paren - 1) {
        Some(k) => k,
        None => {
            return None;
        },
    };
    let cp = match find_byte_idx(b, 41, paren + 1, len) {
        Some(k) => k,
        None => {
            return None;
        },
    };
    if !(bracket <= pos && pos < cp + 1) {
        return None;
    }
    proof {
        lemma_ascii_boundary(b@, paren + 1);
        lemma_ascii_boundary(b@, cp as int);
        lemma_valid_sub(b@, paren + 1, cp as int);
    }
    let t = trim_slice(vstd::slice::slice_subrange(b, paren + 1, cp));
    let z = strip_scheme_slice(t);
    let ziel = string_of(z);
    Some(WikiLinkBereich { ziel, start: bracket, end: cp + 1 })
}

/// [`strip_scheme`] on a slice.
fn strip_scheme_slice(v: &[u8]) -> (r: &[u8])
    ensures
        r@ == strip_scheme(v@),
        valid_utf8(v@) ==> valid_utf8(r@),
    decreases v@.len(),
{
    let scheme: [u8; 11] = [114, 117, 115, 116, 121, 45, 110, 111, 116, 101, 58];
    proof {
        assert(scheme@ =~= note_scheme());
    }
    if v.len() >= 11 && crate::text::bytes_eq(vstd::slice::slice_subrange(v, 0, 11), scheme.as_slice()) {
        proof {
            if valid_utf8(v@) {
                assert(v@[10] == note_scheme()[10]);
                lemma_ascii_boundary(v@, 11);
                lemma_ascii_boundary(v@, v@.len() as int);
                lemma_valid_sub(v@, 11, v@.len() as int);
            }
        }
        strip_scheme_slice(vstd::slice::slice_subrange(v, 11, v.len()))
    } else {
        v
    }
}

} // verus!

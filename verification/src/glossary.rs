//! Glossary: virtual links from terms in a note to the notes that define
//! them. All terms are found in one pass by an Aho-Corasick automaton
//! (leftmost-longest); hits only count on word boundaries and outside code
//! and existing links. The document itself is never changed.

use std::path::PathBuf;

use aho_corasick::{AhoCorasick, MatchKind};
use vstd::prelude::*;
use vstd::string::StringSliceAdditionalSpecFns;
use vstd::utf8::*;

use crate::editor::{Span, Tok};
use crate::text::{
    find_byte, find_byte_idx, find_pat, find_pat_idx, lemma_find_byte, lemma_find_pat,
    lemma_trim_end_boundary, lemma_trim_start_boundary, occurs_at, substr, trim_end_at,
    trim_end_idx, trim_start_at, trim_start_idx, trimmed, bytes_eq, code_end, code_end_idx, lemma_code_end,
};

verus! {

/// A hit in the text: byte range plus the index of its entry.
#[derive(Debug, Clone, Copy, PartialEq, Eq, Structural)]
pub struct GlossarTreffer {
    pub start: usize,
    pub end: usize,
    pub index: usize,
}

/// Style of a display range: an editor token or a glossary term.
#[derive(Debug, Clone, Copy, PartialEq, Eq, Structural)]
pub enum Stil {
    Token(Tok),
    Glossar,
}

/// `spans` tile `[0, len)`: non-empty, contiguous, in order.
pub open spec fn spans_tile(spans: Seq<Span>, len: int) -> bool {
    &&& spans.len() == 0 ==> len == 0
    &&& spans.len() > 0 ==> spans[0].start == 0 && spans.last().end == len
    &&& forall|k: int| 0 <= k < spans.len() ==> #[trigger] spans[k].start < spans[k].end
    &&& forall|k: int| 0 <= k < spans.len() - 1 ==> #[trigger] spans[k].end == spans[k + 1].start
}

/// `hits` are non-empty, ascending, pairwise disjoint and end within `len`.
pub open spec fn hits_sorted(hits: Seq<GlossarTreffer>, len: int) -> bool {
    &&& forall|k: int| 0 <= k < hits.len() ==> #[trigger] hits[k].start < hits[k].end <= len
    &&& forall|i: int, j: int| 0 <= i < j < hits.len() ==> hits[i].end <= hits[j].start
}

/// Offset `x` lies inside some hit.
pub open spec fn in_hit(hits: Seq<GlossarTreffer>, x: int) -> bool {
    exists|j: int| 0 <= j < hits.len() && #[trigger] hits[j].start <= x < hits[j].end
}

/// Kind of the first span that ends after `x`: for tiling spans, the span covering `x`.
pub open spec fn tok_at(spans: Seq<Span>, x: int) -> Tok
    decreases spans.len(),
{
    if spans.len() == 0 {
        Tok::Plain
    } else if x < spans[0].end {
        spans[0].tok
    } else {
        tok_at(spans.drop_first(), x)
    }
}

/// The style of offset `x`: glossary inside a hit, else the covering span's kind.
pub open spec fn stil_at(spans: Seq<Span>, hits: Seq<GlossarTreffer>, x: int) -> Stil {
    if in_hit(hits, x) {
        Stil::Glossar
    } else {
        Stil::Token(tok_at(spans, x))
    }
}

/// `x` is a boundary: the end of a span, or the start or end of a hit.
pub open spec fn is_cut(spans: Seq<Span>, hits: Seq<GlossarTreffer>, x: int) -> bool {
    ||| exists|j: int| 0 <= j < spans.len() && #[trigger] spans[j].end == x
    ||| exists|j: int| 0 <= j < hits.len() && #[trigger] hits[j].start == x
    ||| exists|j: int| 0 <= j < hits.len() && #[trigger] hits[j].end == x
}

/// One output range: non-empty, ending on a boundary, with no boundary
/// inside it, styled as its first byte.
pub open spec fn piece_ok(
    spans: Seq<Span>,
    hits: Seq<GlossarTreffer>,
    p: (usize, usize, Stil),
) -> bool {
    &&& p.0 < p.1
    &&& is_cut(spans, hits, p.1 as int)
    &&& forall|x: int| p.0 < x < p.1 ==> !is_cut(spans, hits, x)
    &&& p.2 == stil_at(spans, hits, p.0 as int)
}

/// The ranges tile `[0, to)` and each one is as [`piece_ok`] says.
pub open spec fn pieces_ok(
    spans: Seq<Span>,
    hits: Seq<GlossarTreffer>,
    out: Seq<(usize, usize, Stil)>,
    to: int,
) -> bool {
    &&& out.len() == 0 ==> to == 0
    &&& out.len() > 0 ==> out[0].0 == 0 && out.last().1 == to
    &&& forall|k: int| 0 <= k < out.len() - 1 ==> #[trigger] out[k].1 == out[k + 1].0
    &&& forall|k: int| 0 <= k < out.len() ==> #[trigger] piece_ok(spans, hits, out[k])
}

proof fn lemma_tok_at(spans: Seq<Span>, si: int, x: int)
    requires
        0 <= si < spans.len(),
        forall|k: int| 0 <= k < spans.len() ==> #[trigger] spans[k].start < spans[k].end,
        forall|k: int| 0 <= k < spans.len() - 1 ==> #[trigger] spans[k].end == spans[k + 1].start,
        spans[si].start <= x < spans[si].end,
    ensures
        tok_at(spans, x) == spans[si].tok,
    decreases si,
{
    if si > 0 {
        let d = spans.drop_first();
        assert(spans[0].end <= spans[si].start) by {
            lemma_tile_order(spans, 0, si);
        }
        assert forall|k: int| 0 <= k < d.len() implies #[trigger] d[k].start < d[k].end by {
            assert(d[k] == spans[k + 1]);
        }
        assert forall|k: int| 0 <= k < d.len() - 1 implies #[trigger] d[k].end == d[k + 1].start by {
            assert(d[k] == spans[k + 1]);
            assert(d[k + 1] == spans[k + 2]);
        }
        lemma_tok_at(d, si - 1, x);
    }
}

proof fn lemma_tile_order(spans: Seq<Span>, i: int, j: int)
    requires
        0 <= i < j < spans.len(),
        forall|k: int| 0 <= k < spans.len() ==> #[trigger] spans[k].start < spans[k].end,
        forall|k: int| 0 <= k < spans.len() - 1 ==> #[trigger] spans[k].end == spans[k + 1].start,
    ensures
        spans[i].end <= spans[j].start,
    decreases j - i,
{
    if j > i + 1 {
        lemma_tile_order(spans, i, j - 1);
        assert(spans[j - 1].end == spans[j].start);
    } else {
        assert(spans[i].end == spans[i + 1].start);
    }
}

/// Intersects contiguous highlight spans with glossary hits: hit ranges get
/// `Stil::Glossar`, the rest keeps its token. Both inputs must be ascending
/// and non-overlapping; the spans tile the text.
pub fn verschneide(
    spans: &[Span],
    treffer: &[GlossarTreffer],
    text_len: usize,
) -> (out: Vec<(usize, usize, Stil)>)
    requires
        spans_tile(spans@, text_len as int),
        hits_sorted(treffer@, text_len as int),
    ensures
        pieces_ok(spans@, treffer@, out@, text_len as int),
{
    let mut out: Vec<(usize, usize, Stil)> = Vec::new();
    let mut cursor = 0usize;
    let mut si = 0usize;
    let mut ti = 0usize;
    proof {
        if treffer@.len() > 0 {
            assert(treffer@[0].start < treffer@[0].end);
        }
        if text_len > 0 {
            assert(spans@[0].start < spans@[0].end);
        }
    }
    while cursor < text_len
        invariant
            spans_tile(spans@, text_len as int),
            hits_sorted(treffer@, text_len as int),
            cursor <= text_len,
            pieces_ok(spans@, treffer@, out@, cursor as int),
            cursor < text_len ==> si < spans@.len() && spans@[si as int].start <= cursor
                < spans@[si as int].end,
            ti <= treffer@.len(),
            forall|j: int| 0 <= j < ti ==> #[trigger] treffer@[j].end <= cursor,
            ti < treffer@.len() ==> treffer@[ti as int].end > cursor,
        decreases text_len - cursor,
    {
        // The spans tile the text, so the cursor always lies in span `si`.
        let span_rest = si < spans.len() && spans[si].end > cursor;
        let treffer_rest = ti < treffer.len() && treffer[ti].end > cursor;
        let mut next_end = spans[si].end;
        if treffer_rest {
            if treffer[ti].end < next_end {
                next_end = treffer[ti].end;
            }
            if treffer[ti].start > cursor && treffer[ti].start < next_end {
                next_end = treffer[ti].start;
            }
        }
        let in_treffer = treffer_rest && treffer[ti].start <= cursor;
        let stil = if in_treffer {
            Stil::Glossar
        } else {
            Stil::Token(spans[si].tok)
        };
        proof {
            lemma_step(spans@, treffer@, text_len as int, cursor as int, si as int, ti as int, next_end as int);
        }
        let ghost old_out = out@;
        out.push((cursor, next_end, stil));
        proof {
            assert forall|k: int| 0 <= k < out@.len() - 1 implies #[trigger] out@[k].1 == out@[k
                + 1].0 by {
                if k < out@.len() - 2 {
                    assert(out@[k] == old_out[k]);
                    assert(out@[k + 1] == old_out[k + 1]);
                }
            }
            assert forall|k: int| 0 <= k < out@.len() implies #[trigger] piece_ok(
                spans@,
                treffer@,
                out@[k],
            ) by {
                if k < out@.len() - 1 {
                    assert(out@[k] == old_out[k]);
                }
            }
        }
        if span_rest && spans[si].end == next_end {
            si += 1;
        }
        if treffer_rest && treffer[ti].end == next_end {
            ti += 1;
        }
        cursor = next_end;
        proof {
            if cursor < text_len {
                if si > 0 && spans@[si - 1].end == cursor {
                    assert(spans@[si - 1].end == spans@[si as int].start);
                }
            }
        }
    }
    out
}

proof fn lemma_step(
    spans: Seq<Span>,
    hits: Seq<GlossarTreffer>,
    len: int,
    cursor: int,
    si: int,
    ti: int,
    next_end: int,
)
    requires
        spans_tile(spans, len),
        hits_sorted(hits, len),
        0 <= cursor < len,
        0 <= si < spans.len(),
        spans[si].start <= cursor < spans[si].end,
        0 <= ti <= hits.len(),
        forall|j: int| 0 <= j < ti ==> #[trigger] hits[j].end <= cursor,
        ti < hits.len() ==> hits[ti].end > cursor,
        next_end == if ti < hits.len() {
            let a = if hits[ti].end < spans[si].end {
                hits[ti].end as int
            } else {
                spans[si].end as int
            };
            if hits[ti].start > cursor && hits[ti].start < a {
                hits[ti].start as int
            } else {
                a
            }
        } else {
            spans[si].end as int
        },
    ensures
        cursor < next_end <= len,
        is_cut(spans, hits, next_end),
        forall|x: int| cursor < x < next_end ==> !is_cut(spans, hits, x),
        stil_at(spans, hits, cursor) == if ti < hits.len() && hits[ti].start <= cursor {
            Stil::Glossar
        } else {
            Stil::Token(spans[si].tok)
        },
{
    lemma_tok_at(spans, si, cursor);
    if si < spans.len() - 1 {
        lemma_tile_order(spans, si, spans.len() - 1);
    }
    // next_end is a boundary
    if ti < hits.len() && next_end == hits[ti].start {
        assert(hits[ti].start == next_end);
    } else if ti < hits.len() && next_end == hits[ti].end {
        assert(hits[ti].end == next_end);
    } else {
        assert(spans[si].end == next_end);
    }
    // no boundary strictly inside (cursor, next_end)
    assert forall|x: int| cursor < x < next_end implies !is_cut(spans, hits, x) by {
        assert forall|j: int| 0 <= j < spans.len() implies #[trigger] spans[j].end != x by {
            if j < si {
                lemma_tile_order(spans, j, si);
            } else if j > si {
                lemma_tile_order(spans, si, j);
            }
        }
        assert forall|j: int| 0 <= j < hits.len() implies #[trigger] hits[j].start != x by {
            if j > ti {
                assert(hits[ti].end <= hits[j].start);
            }
        }
        assert forall|j: int| 0 <= j < hits.len() implies #[trigger] hits[j].end != x by {
            if j > ti {
                assert(hits[ti].end <= hits[j].start);
            }
        }
    }
    // the style at the cursor
    if ti < hits.len() && hits[ti].start <= cursor {
        assert(in_hit(hits, cursor));
    } else {
        assert forall|j: int| 0 <= j < hits.len() implies !(#[trigger] hits[j].start <= cursor
            < hits[j].end) by {
            if j > ti {
                assert(hits[ti].end <= hits[j].start);
            }
        }
    }
    if spans.len() > 0 {
        assert(spans.last().end == len);
    }
}


// ---------------------------------------------------------------------------
// Case folding, word characters and protected ranges
// ---------------------------------------------------------------------------

/// ASCII `to_ascii_lowercase`.
pub open spec fn ascii_lower(x: u8) -> u8 {
    if 65 <= x <= 90 {
        (x + 32) as u8
    } else {
        x
    }
}

/// Length-preserving lowercase of `b[i..]`: A-Z become a-z, and the Latin-1
/// capitals encoded as `C3 80`..`C3 9E` with an even second byte (Ä, Ö, Ü, ...)
/// become their lowercase forms (second byte plus 0x20).
pub open spec fn klein(b: Seq<u8>, i: int) -> Seq<u8>
    decreases b.len() - i,
{
    if i < 0 || i >= b.len() {
        seq![]
    } else if b[i] == 0xC3 && i + 1 < b.len() && 0x80 <= b[i + 1] <= 0x9E && b[i + 1] % 2 == 0 {
        seq![b[i], (b[i + 1] + 0x20) as u8] + klein(b, i + 2)
    } else {
        seq![ascii_lower(b[i])] + klein(b, i + 1)
    }
}

/// Case folding keeps every byte offset: the folded text is as long as the original.
pub proof fn lemma_klein_len(b: Seq<u8>, i: int)
    requires
        0 <= i <= b.len(),
    ensures
        klein(b, i).len() == b.len() - i,
    decreases b.len() - i,
{
    if i < b.len() {
        if b[i] == 0xC3 && i + 1 < b.len() && 0x80 <= b[i + 1] <= 0x9E && b[i + 1] % 2 == 0 {
            lemma_klein_len(b, i + 2);
        } else {
            lemma_klein_len(b, i + 1);
        }
    }
}

/// Byte-preserving lowercase (see [`klein`]).
fn klein_bytes(src: &[u8]) -> (out: Vec<u8>)
    ensures
        out@ == klein(src@, 0),
{
    let mut out: Vec<u8> = Vec::new();
    let mut i: usize = 0;
    while i < src.len()
        invariant
            i <= src@.len(),
            out@ + klein(src@, i as int) == klein(src@, 0),
        decreases src@.len() - i,
    {
        let b = src[i];
        if b == 0xC3 && i + 1 < src.len() {
            let n = src[i + 1];
            if 0x80 <= n && n <= 0x9E && n % 2 == 0 {
                let ghost before = out@;
                out.push(b);
                out.push(n + 0x20);
                proof {
                    assert(out@ =~= before + seq![b, (n + 0x20) as u8]);
                    assert(before + seq![b, (n + 0x20) as u8] + klein(src@, i + 2) =~= before + (
                    seq![b, (n + 0x20) as u8] + klein(src@, i + 2)));
                }
                i += 2;
                continue;
            }
        }
        let ghost before = out@;
        let l = if 65 <= b && b <= 90 {
            b + 32
        } else {
            b
        };
        out.push(l);
        proof {
            assert(out@ =~= before + seq![ascii_lower(b)]);
            assert(before + seq![ascii_lower(b)] + klein(src@, i + 1) =~= before + (seq![
                ascii_lower(b),
            ] + klein(src@, i + 1)));
        }
        i += 1;
    }
    proof {
        assert(out@ + Seq::<u8>::empty() =~= out@);
    }
    out
}

/// ASCII letters, digits, `_` and every byte of a non-ASCII character.
pub open spec fn ist_wort(b: u8) -> bool {
    (48 <= b <= 57) || (65 <= b <= 90) || (97 <= b <= 122) || b == 95 || b >= 0x80
}

fn ist_wortzeichen(b: u8) -> (r: bool)
    ensures
        r == ist_wort(b),
{
    (48 <= b && b <= 57) || (65 <= b && b <= 90) || (97 <= b && b <= 122) || b == 95 || b >= 0x80
}

/// The protected range that starts at `i`, if any, and where scanning goes
/// on: code fences and inline code, wikilinks, and `[text](url)` links.
pub open spec fn protect_step(b: Seq<u8>, i: int) -> (int, Option<(usize, usize)>) {
    let len = b.len() as int;
    if b[i] == 96 {
        let end = code_end(b, i);
        (end, Some((i as usize, end as usize)))
    } else if b[i] == 91 {
        if i + 1 < len && b[i + 1] == 91 {
            let end = match find_pat(b, seq![93u8, 93u8], i + 2, len) {
                Some(k) => k + 2,
                None => len,
            };
            (end, Some((i as usize, end as usize)))
        } else {
            let j = match find_byte(b, 93, i + 1, len) {
                Some(k) => k,
                None => len,
            };
            if j + 1 < len && b[j + 1] == 40 {
                let end = match find_byte(b, 41, j + 2, len) {
                    Some(k) => k + 1,
                    None => len,
                };
                (end, Some((i as usize, end as usize)))
            } else {
                (i + 1, None)
            }
        }
    } else {
        (i + 1, None)
    }
}

pub proof fn lemma_protect_step(b: Seq<u8>, i: int)
    requires
        0 <= i < b.len(),
    ensures
        i < protect_step(b, i).0 <= b.len(),
        b.len() <= usize::MAX ==> (protect_step(b, i).1 matches Some(r) ==> r.0 == i && r.1
            == protect_step(b, i).0),
{
    let len = b.len() as int;
    if b[i] == 96 {
        lemma_code_end(b, i);
    }
    lemma_find_pat(b, seq![93u8, 93u8], i + 2, len);
    lemma_find_byte(b, 93, i + 1, len);
    let j = match find_byte(b, 93, i + 1, len) {
        Some(k) => k,
        None => len,
    };
    lemma_find_byte(b, 41, j + 2, len);
}

/// The protected ranges of `b[i..]`, in order.
pub open spec fn protect(b: Seq<u8>, i: int) -> Seq<(usize, usize)>
    decreases b.len() - i,
{
    if i < 0 || i >= b.len() {
        seq![]
    } else {
        let st = protect_step(b, i);
        proof {
            lemma_protect_step(b, i);
        }
        match st.1 {
            Some(r) => seq![r] + protect(b, st.0),
            None => protect(b, st.0),
        }
    }
}

/// Half-open ranges `[start, end)` in which nothing is linked: code spans,
/// code blocks, wikilinks and Markdown links.
fn schutz_bereiche(b: &[u8]) -> (r: Vec<(usize, usize)>)
    ensures
        r@ == protect(b@, 0),
{
    let len = b.len();
    let mut bereiche: Vec<(usize, usize)> = Vec::new();
    let mut i: usize = 0;
    while i < len
        invariant
            len == b@.len(),
            i <= len,
            bereiche@ + protect(b@, i as int) == protect(b@, 0),
        decreases len - i,
    {
        proof {
            lemma_protect_step(b@, i as int);
        }
        let ghost before = bereiche@;
        let (next, range) = protect_step_exec(b, i);
        match range {
            Some(r) => {
                bereiche.push(r);
                proof {
                    assert(before + protect(b@, i as int) == before + (seq![r] + protect(
                        b@,
                        next as int,
                    )));
                    assert(before + (seq![r] + protect(b@, next as int)) =~= bereiche@ + protect(
                        b@,
                        next as int,
                    ));
                }
            },
            None => {},
        }
        i = next;
    }
    proof {
        assert(bereiche@ + Seq::<(usize, usize)>::empty() =~= bereiche@);
    }
    bereiche
}

fn protect_step_exec(b: &[u8], i: usize) -> (r: (usize, Option<(usize, usize)>))
    requires
        i < b@.len(),
    ensures
        r.0 as int == protect_step(b@, i as int).0,
        r.1 == protect_step(b@, i as int).1,
{
    proof {
        lemma_protect_step(b@, i as int);
    }
    let len = b.len();
    if b[i] == 96 {
        let end = code_end_idx(b, i);
        return (end, Some((i, end)));
    }
    if b[i] == 91 {
        if len - i > 1 && b[i + 1] == 91 {
            let needle: [u8; 2] = [93, 93];
            proof {
                assert(needle@ =~= seq![93u8, 93u8]);
            }
            let end = match find_pat_idx(b, needle.as_slice(), i + 2, len) {
                Some(k) => k + 2,
                None => len,
            };
            return (end, Some((i, end)));
        } else {
            let j = match find_byte_idx(b, 93, i + 1, len) {
                Some(k) => k,
                None => len,
            };
            if j < len - 1 && b[j + 1] == 40 {
                let end = match find_byte_idx(b, 41, j + 2, len) {
                    Some(k) => k + 1,
                    None => len,
                };
                return (end, Some((i, end)));
            } else {
                return (i + 1, None);
            }
        }
    }
    (i + 1, None)
}

/// `[start, end)` overlaps one of the ranges.
pub open spec fn overlaps_any(bereiche: Seq<(usize, usize)>, start: int, end: int) -> bool {
    exists|k: int| 0 <= k < bereiche.len() && start < #[trigger] bereiche[k].1 && end > bereiche[k].0
}

fn geschuetzt_treffer(bereiche: &Vec<(usize, usize)>, start: usize, end: usize) -> (r: bool)
    ensures
        r == overlaps_any(bereiche@, start as int, end as int),
{
    let mut k: usize = 0;
    while k < bereiche.len()
        invariant
            k <= bereiche@.len(),
            forall|j: int| 0 <= j < k ==> !(start < #[trigger] bereiche@[j].1 && end > bereiche@[j].0),
        decreases bereiche@.len() - k,
    {
        let (s, e) = bereiche[k];
        if start < e && end > s {
            return true;
        }
        k += 1;
    }
    false
}

// ---------------------------------------------------------------------------
// The automaton
// ---------------------------------------------------------------------------

#[verifier::external_type_specification]
#[verifier::external_body]
pub struct ExAhoCorasick(AhoCorasick);

/// The patterns an automaton was built from, in pattern-id order.
pub uninterp spec fn ac_patterns(ac: AhoCorasick) -> Seq<Seq<u8>>;

/// `ms` are the matches of a leftmost-longest, non-overlapping search for
/// `pats` in `hay`: each starts at or after the end of the one before and is
/// an occurrence of its pattern; no occurrence of
/// any pattern starts between the end of the previous match and its start;
/// none that starts where it starts is longer; and no occurrence starts at
/// or after the end of the last match.
pub open spec fn ll_ok(pats: Seq<Seq<u8>>, hay: Seq<u8>, ms: Seq<(usize, usize, usize)>) -> bool {
    &&& forall|k: int|
        0 <= k < ms.len() ==> {
            let (s, e, p) = #[trigger] ms[k];
            &&& prev_end(ms, k) <= s
            &&& p < pats.len()
            &&& e == s + pats[p as int].len()
            &&& occurs_at(hay, pats[p as int], s as int)
            &&& forall|q: int, x: int|
                0 <= q < pats.len() && prev_end(ms, k) <= x < s ==> !occurs_at(hay, pats[q], x)
            &&& forall|q: int|
                0 <= q < pats.len() && occurs_at(hay, pats[q], s as int) ==> pats[q].len() <= e - s
        }
    &&& forall|q: int, x: int|
        0 <= q < pats.len() && prev_end(ms, ms.len() as int) <= x ==> !occurs_at(hay, pats[q], x)
}

/// End of match `k - 1`, or 0 for the first match.
pub open spec fn prev_end(ms: Seq<(usize, usize, usize)>, k: int) -> int {
    if k <= 0 {
        0
    } else {
        ms[k - 1].1 as int
    }
}

/// Whether the crate builds an automaton for these patterns.
pub uninterp spec fn ac_builds(patterns: Seq<Seq<u8>>) -> bool;

/// Builds a leftmost-longest Aho-Corasick automaton over `patterns`.
///
/// Calls `AhoCorasick::builder().match_kind(MatchKind::LeftmostLongest).build(..)`.
/// The contract claims that whether it builds depends on the patterns alone
/// (the builder's settings are fixed), and that a built automaton holds
/// exactly the given patterns, with pattern ids in their order. Which pattern
/// sets exceed the crate's documented size limits is left to the name
/// [`ac_builds`].
#[verifier::external_body]
fn ac_build(patterns: &Vec<Vec<u8>>) -> (r: Option<AhoCorasick>)
    ensures
        r is Some <==> ac_builds(patterns@.map_values(|p: Vec<u8>| p@)),
        r matches Some(ac) ==> ac_patterns(ac) == patterns@.map_values(|p: Vec<u8>| p@),
{
    AhoCorasick::builder().match_kind(MatchKind::LeftmostLongest).build(patterns).ok()
}

/// All matches of `ac` in `hay` as (start, end, pattern id).
///
/// Calls `AhoCorasick::find_iter`. The contract claims what the crate
/// documents for `MatchKind::LeftmostLongest`: non-overlapping matches from
/// left to right, each the leftmost possible and, among those starting
/// there, the longest (see [`ll_ok`]).
#[verifier::external_body]
fn ac_find_all(ac: &AhoCorasick, hay: &[u8]) -> (r: Vec<(usize, usize, usize)>)
    requires
        forall|k: int| 0 <= k < ac_patterns(*ac).len() ==> #[trigger] ac_patterns(*ac)[k].len() > 0,
    ensures
        ll_ok(ac_patterns(*ac), hay@, r@),
{
    ac.find_iter(hay).map(|m| (m.start(), m.end(), m.pattern().as_usize())).collect()
}

// ---------------------------------------------------------------------------
// Entries and the glossary
// ---------------------------------------------------------------------------

/// A glossary entry: term and the note behind it.
#[derive(Debug, PartialEq)]
pub struct GlossarEintrag {
    pub begriff: String,
    /// Further spellings that hit the same entry.
    pub aliase: Vec<String>,
    pub pfad: PathBuf,
}


/// The search form of a term: folded when case is ignored.
pub open spec fn fold(b: Seq<u8>, ci: bool) -> Seq<u8> {
    if ci {
        klein(b, 0)
    } else {
        b
    }
}

/// What the glossary keeps of an entry: its trimmed term, its aliases and its path.
pub type EintragModell = (Seq<char>, Seq<String>, PathBuf);

/// The glossary built from entries: the kept entries, the search patterns
/// (terms and aliases) and the entry each pattern belongs to.
pub type GlossarModell = (Seq<EintragModell>, Seq<Seq<u8>>, Seq<usize>);

/// Adds the aliases of entry `idx` as patterns: trimmed, empty ones and
/// ones already present skipped.
pub open spec fn add_aliases(
    pats: Seq<Seq<u8>>,
    map: Seq<usize>,
    aliases: Seq<String>,
    ci: bool,
    idx: usize,
) -> (Seq<Seq<u8>>, Seq<usize>)
    decreases aliases.len(),
{
    if aliases.len() == 0 {
        (pats, map)
    } else {
        let t = trimmed(encode_utf8(aliases[0]@));
        let p = fold(t, ci);
        if t.len() == 0 || pats.contains(p) {
            add_aliases(pats, map, aliases.drop_first(), ci, idx)
        } else {
            add_aliases(pats.push(p), map.push(idx), aliases.drop_first(), ci, idx)
        }
    }
}

/// Adds one entry: skipped when its trimmed term is empty or already a
/// pattern; otherwise kept, with its term and then its aliases as patterns.
pub open spec fn add_entry(g: GlossarModell, e: GlossarEintrag, ci: bool) -> GlossarModell {
    let t = trimmed(encode_utf8(e.begriff@));
    let p = fold(t, ci);
    if t.len() == 0 || g.1.contains(p) {
        g
    } else {
        let idx = g.0.len() as usize;
        let (pats, map) = add_aliases(g.1.push(p), g.2.push(idx), e.aliase@, ci, idx);
        (g.0.push((decode_utf8(t), e.aliase@, e.pfad)), pats, map)
    }
}

/// The glossary of `es`: entries added in order, the first of equal terms winning.
pub open spec fn glossar_modell(es: Seq<GlossarEintrag>, ci: bool) -> GlossarModell
    decreases es.len(),
{
    if es.len() == 0 {
        (seq![], seq![], seq![])
    } else {
        add_entry(glossar_modell(es.drop_last(), ci), es.last(), ci)
    }
}

/// Patterns are non-empty and pairwise different, and each belongs to a kept entry.
pub open spec fn modell_wf(g: GlossarModell) -> bool {
    &&& g.1.len() == g.2.len()
    &&& forall|k: int| 0 <= k < g.1.len() ==> #[trigger] g.1[k].len() > 0
    &&& forall|k: int| 0 <= k < g.2.len() ==> #[trigger] g.2[k] < g.0.len()
    &&& forall|i: int, j: int| 0 <= i < j < g.1.len() ==> g.1[i] != g.1[j]
}

/// Pattern `k` comes from the entry it points to: it is that entry's term,
/// or one of its aliases trimmed, in search form.
pub open spec fn pattern_from(g: GlossarModell, ci: bool, k: int) -> bool {
    let e = g.0[g.2[k] as int];
    ||| g.1[k] == fold(encode_utf8(e.0), ci)
    ||| exists|a: int| 0 <= a < e.1.len() && g.1[k] == fold(trimmed(encode_utf8(#[trigger] e.1[a]@)), ci)
}

proof fn lemma_add_aliases_extends(
    pats: Seq<Seq<u8>>,
    map: Seq<usize>,
    aliases: Seq<String>,
    ci: bool,
    idx: usize,
)
    requires
        pats.len() == map.len(),
    ensures
        ({
            let (p2, m2) = add_aliases(pats, map, aliases, ci, idx);
            &&& p2.len() == m2.len() >= pats.len()
            &&& forall|k: int| 0 <= k < pats.len() ==> p2[k] == pats[k] && m2[k] == map[k]
            &&& forall|k: int|
                pats.len() <= k < p2.len() ==> #[trigger] m2[k] == idx && exists|a: int|
                    0 <= a < aliases.len() && p2[k] == fold(trimmed(encode_utf8(#[trigger] aliases[a]@)), ci)
        }),
    decreases aliases.len(),
{
    if aliases.len() > 0 {
        let t = trimmed(encode_utf8(aliases[0]@));
        let p = fold(t, ci);
        let rest = aliases.drop_first();
        if t.len() == 0 || pats.contains(p) {
            lemma_add_aliases_extends(pats, map, rest, ci, idx);
            let (p2, m2) = add_aliases(pats, map, rest, ci, idx);
            assert forall|k: int| #![trigger p2[k]] pats.len() <= k < p2.len() implies exists|a: int|
                0 <= a < aliases.len() && p2[k] == fold(trimmed(encode_utf8(#[trigger] aliases[a]@)), ci) by {
                assert(m2[k] == idx);
                let b = choose|b: int| 0 <= b < rest.len() && p2[k] == fold(trimmed(encode_utf8(#[trigger] rest[b]@)), ci);
                assert(rest[b] == aliases[b + 1]);
            }
        } else {
            lemma_add_aliases_extends(pats.push(p), map.push(idx), rest, ci, idx);
            let (p2, m2) = add_aliases(pats.push(p), map.push(idx), rest, ci, idx);
            assert forall|k: int| #![trigger p2[k]] pats.len() <= k < p2.len() implies exists|a: int|
                0 <= a < aliases.len() && p2[k] == fold(trimmed(encode_utf8(#[trigger] aliases[a]@)), ci) by {
                if k == pats.len() {
                    assert(p2[k] == pats.push(p)[k]);
                    assert(p2[k] == fold(trimmed(encode_utf8(aliases[0]@)), ci));
                } else {
                    assert(m2[k] == idx);
                    let b = choose|b: int| 0 <= b < rest.len() && p2[k] == fold(trimmed(encode_utf8(#[trigger] rest[b]@)), ci);
                    assert(rest[b] == aliases[b + 1]);
                }
            }
            assert forall|k: int| 0 <= k < pats.len() implies p2[k] == pats[k] && m2[k] == map[k] by {
                assert(pats.push(p)[k] == pats[k]);
                assert(map.push(idx)[k] == map[k]);
            }
            assert(m2[pats.len() as int] == map.push(idx)[pats.len() as int]);
        }
    }
}

/// Every pattern points to a kept entry that it came from.
pub open spec fn patterns_home(g: GlossarModell, ci: bool) -> bool {
    &&& g.1.len() == g.2.len()
    &&& forall|k: int| 0 <= k < g.1.len() ==> #[trigger] g.2[k] < g.0.len() && pattern_from(g, ci, k)
}

/// Pattern `k` is the term of entry `i` and points to it.
pub open spec fn term_pattern(g: GlossarModell, ci: bool, i: int, k: int) -> bool {
    0 <= k < g.1.len() && g.2[k] == i && g.1[k] == fold(encode_utf8(g.0[i].0), ci)
}

/// Some pattern is the term of entry `i` and points to it.
pub open spec fn has_term_pattern(g: GlossarModell, ci: bool, i: int) -> bool {
    exists|k: int| #[trigger] term_pattern(g, ci, i, k)
}

/// The term of every kept entry is a pattern that points to that entry.
pub open spec fn terms_present(g: GlossarModell, ci: bool) -> bool {
    forall|i: int| 0 <= i < g.0.len() ==> #[trigger] has_term_pattern(g, ci, i)
}

/// Adding an entry whose term becomes pattern `g.1.len()` keeps every
/// entry's term present.
proof fn lemma_terms_present_step(
    g: GlossarModell,
    ci: bool,
    p: Seq<u8>,
    idx: usize,
    em: EintragModell,
    p2: Seq<Seq<u8>>,
    m2: Seq<usize>,
)
    requires
        terms_present(g, ci),
        g.1.len() == g.2.len(),
        idx == g.0.len(),
        p == fold(encode_utf8(em.0), ci),
        p2.len() == m2.len() >= g.1.len() + 1,
        forall|k: int| 0 <= k < g.1.len() + 1 ==> p2[k] == g.1.push(p)[k] && m2[k] == g.2.push(idx)[k],
    ensures
        terms_present((g.0.push(em), p2, m2), ci),
{
    let g2 = (g.0.push(em), p2, m2);
    let n = g.1.len() as int;
    assert forall|i: int| 0 <= i < g2.0.len() implies #[trigger] has_term_pattern(g2, ci, i) by {
        if i < g.0.len() {
            assert(has_term_pattern(g, ci, i));
            assert(g2.0[i] == g.0[i]);
            let k = choose|k: int| #[trigger] term_pattern(g, ci, i, k);
            assert(p2[k] == g.1.push(p)[k] && m2[k] == g.2.push(idx)[k]);
            assert(term_pattern(g2, ci, i, k));
        } else {
            assert(p2[n] == g.1.push(p)[n] && m2[n] == g.2.push(idx)[n]);
            assert(term_pattern(g2, ci, i, n));
        }
    }
}

/// Every search pattern of the glossary leads to the entry it came from:
/// it points to an entry whose term or one of whose aliases it is; and the
/// term of every kept entry is a pattern that points to that entry.
pub proof fn lemma_patterns_point_home(es: Seq<GlossarEintrag>, ci: bool)
    requires
        es.len() <= usize::MAX,
    ensures
        glossar_modell(es, ci).0.len() <= es.len(),
        patterns_home(glossar_modell(es, ci), ci),
        terms_present(glossar_modell(es, ci), ci),
    decreases es.len(),
{
    if es.len() == 0 {
        assert(glossar_modell(es, ci).0.len() == 0);
        assert(glossar_modell(es, ci).1.len() == 0);
    } else {
        let g = glossar_modell(es.drop_last(), ci);
        lemma_patterns_point_home(es.drop_last(), ci);
        let e = es.last();
        let t = trimmed(encode_utf8(e.begriff@));
        let p = fold(t, ci);
        if t.len() == 0 || g.1.contains(p) {
            let g2 = glossar_modell(es, ci);
            assert(g2 == g);
            assert forall|i: int| 0 <= i < g2.0.len() implies #[trigger] has_term_pattern(g2, ci, i) by {
                assert(has_term_pattern(g, ci, i));
                assert(g2.0[i] == g.0[i]);
                let k = choose|k: int| #[trigger] term_pattern(g, ci, i, k);
                assert(term_pattern(g2, ci, i, k));
            }
            assert(terms_present(g2, ci));
        } else {
            let idx = g.0.len() as usize;
            encode_utf8_valid_utf8(e.begriff@);
            crate::text::lemma_trimmed_valid(encode_utf8(e.begriff@));
            decode_utf8_encode_utf8(t);
            let em: EintragModell = (decode_utf8(t), e.aliase@, e.pfad);
            lemma_add_aliases_extends(g.1.push(p), g.2.push(idx), e.aliase@, ci, idx);
            let (p2, m2) = add_aliases(g.1.push(p), g.2.push(idx), e.aliase@, ci, idx);
            let g2 = glossar_modell(es, ci);
            assert(g2 == (g.0.push(em), p2, m2));
            let n = g.1.len();
            assert forall|k: int| 0 <= k < g2.1.len() implies #[trigger] g2.2[k] < g2.0.len() && pattern_from(
                g2,
                ci,
                k,
            ) by {
                if k < n {
                    assert(g.1.push(p)[k] == g.1[k] && g.2.push(idx)[k] == g.2[k]);
                    assert(g2.0[g.2[k] as int] == g.0[g.2[k] as int]);
                    assert(pattern_from(g, ci, k));
                    let ee = g.0[g.2[k] as int];
                    if !(g.1[k] == fold(encode_utf8(ee.0), ci)) {
                        let a = choose|a: int| 0 <= a < ee.1.len() && g.1[k] == fold(trimmed(encode_utf8(#[trigger] ee.1[a]@)), ci);
                        assert(g2.1[k] == fold(trimmed(encode_utf8(g2.0[g2.2[k] as int].1[a]@)), ci));
                    }
                } else if k == n {
                    assert(g.1.push(p)[k] == p && g.2.push(idx)[k] == idx);
                    assert(g2.0[idx as int] == em);
                } else {
                    assert(m2[k] == idx);
                    let a = choose|a: int| 0 <= a < e.aliase@.len() && p2[k] == fold(trimmed(encode_utf8(#[trigger] e.aliase@[a]@)), ci);
                    assert(g2.0[idx as int] == em);
                    assert(g2.0[g2.2[k] as int].1[a] == e.aliase@[a]);
                }
            }
            lemma_terms_present_step(g, ci, p, idx, em, p2, m2);
        }
    }
}

#[derive(Debug)]
pub struct Glossar {
    ac: Option<AhoCorasick>,
    eintraege: Vec<GlossarEintrag>,
    muster: Vec<Vec<u8>>,
    /// Pattern index -> index in `eintraege` (aliases share their entry).
    muster_zu_eintrag: Vec<usize>,
    case_insensitive: bool,
}

/// The model of a stored entry.
pub open spec fn eintrag_modell(e: GlossarEintrag) -> EintragModell {
    (e.begriff@, e.aliase@, e.pfad)
}

impl Glossar {
    #[verifier::type_invariant]
    spec fn inv(self) -> bool {
        &&& modell_wf(self.modell())
        &&& self.ac matches Some(a) ==> ac_patterns(a) == self.modell().1
    }

    /// Kept entries, search patterns and the entry of each pattern.
    pub closed spec fn modell(self) -> GlossarModell {
        (
            self.eintraege@.map_values(|e: GlossarEintrag| eintrag_modell(e)),
            self.muster@.map_values(|p: Vec<u8>| p@),
            self.muster_zu_eintrag@,
        )
    }

    /// Whether terms are matched ignoring case.
    pub closed spec fn ignores_case(self) -> bool {
        self.case_insensitive
    }

    /// Whether the automaton could be built.
    pub closed spec fn built(self) -> bool {
        self.ac is Some
    }

    /// Rebuilds the automaton (only on vault scans or settings changes).
    /// Duplicate terms: the first wins. Empty terms are dropped. The
    /// automaton is built whenever the crate builds one for the patterns;
    /// where it does not, the glossary finds nothing.
    pub fn neu(eintraege: Vec<GlossarEintrag>, case_insensitive: bool) -> (g: Glossar)
        ensures
            g.modell() == glossar_modell(eintraege@, case_insensitive),
            g.built() == ac_builds(glossar_modell(eintraege@, case_insensitive).1),
            g.ignores_case() == case_insensitive,
            modell_wf(g.modell()),
    {
        let mut muster: Vec<Vec<u8>> = Vec::new();
        let mut muster_zu_eintrag: Vec<usize> = Vec::new();
        let mut gefiltert: Vec<GlossarEintrag> = Vec::new();
        let ghost es = eintraege@;
        let ghost n = es.len();
        let mut quelle = eintraege;
        let mut rest: Vec<GlossarEintrag> = Vec::new();
        while quelle.len() > 0
            invariant
                n == es.len(),
                quelle@.len() <= n,
                quelle@ =~= es.subrange(0, quelle@.len() as int),
                rest@ =~= es.subrange(quelle@.len() as int, n as int).reverse(),
            decreases quelle@.len(),
        {
            let e = quelle.pop().unwrap();
            rest.push(e);
        }
        while rest.len() > 0
            invariant
                n == es.len(),
                rest@.len() <= n,
                rest@ =~= es.subrange(n - rest@.len(), n as int).reverse(),
                (
                    gefiltert@.map_values(|e: GlossarEintrag| eintrag_modell(e)),
                    muster@.map_values(|p: Vec<u8>| p@),
                    muster_zu_eintrag@,
                ) == glossar_modell(es.subrange(0, n - rest@.len()), case_insensitive),
                modell_wf(
                    (
                        gefiltert@.map_values(|e: GlossarEintrag| eintrag_modell(e)),
                        muster@.map_values(|p: Vec<u8>| p@),
                        muster_zu_eintrag@,
                    ),
                ),
            decreases rest@.len(),
        {
            let e = rest.pop().unwrap();
            let ghost i = n - rest@.len() - 1;
            proof {
                assert(e == es[i]);
                assert(es.subrange(0, i + 1).drop_last() =~= es.subrange(0, i));
                assert(rest@ =~= es.subrange(n - rest@.len(), n as int).reverse());
            }
            Self::add(&mut gefiltert, &mut muster, &mut muster_zu_eintrag, e, case_insensitive);
        }
        proof {
            assert(es.subrange(0, n as int) =~= es);
        }
        let ac = ac_build(&muster);
        Glossar { ac, eintraege: gefiltert, muster, muster_zu_eintrag, case_insensitive }
    }

    fn add(
        gefiltert: &mut Vec<GlossarEintrag>,
        muster: &mut Vec<Vec<u8>>,
        map: &mut Vec<usize>,
        e: GlossarEintrag,
        ci: bool,
    )
        requires
            modell_wf(
                (
                    old(gefiltert)@.map_values(|e: GlossarEintrag| eintrag_modell(e)),
                    old(muster)@.map_values(|p: Vec<u8>| p@),
                    old(map)@,
                ),
            ),
        ensures
            (
                final(gefiltert)@.map_values(|e: GlossarEintrag| eintrag_modell(e)),
                final(muster)@.map_values(|p: Vec<u8>| p@),
                final(map)@,
            ) == add_entry(
                (
                    old(gefiltert)@.map_values(|e: GlossarEintrag| eintrag_modell(e)),
                    old(muster)@.map_values(|p: Vec<u8>| p@),
                    old(map)@,
                ),
                e,
                ci,
            ),
            modell_wf(
                (
                    final(gefiltert)@.map_values(|e: GlossarEintrag| eintrag_modell(e)),
                    final(muster)@.map_values(|p: Vec<u8>| p@),
                    final(map)@,
                ),
            ),
    {
        let ghost g0 = (
            gefiltert@.map_values(|e: GlossarEintrag| eintrag_modell(e)),
            muster@.map_values(|p: Vec<u8>| p@),
            map@,
        );
        let ghost t = trimmed(encode_utf8(e.begriff@));
        let ghost em: EintragModell = (decode_utf8(t), e.aliase@, e.pfad);
        let (begriff, bytes) = trim_and_fold(e.begriff.as_str(), ci);
        proof {
            lemma_klein_len(t, 0);
        }
        if bytes.len() == 0 || contains_pattern(muster, &bytes) {
            return;
        }
        let idx = gefiltert.len();
        proof {
            lemma_grow_wf(g0, em);
        }
        muster.push(bytes);
        map.push(idx);
        proof {
            assert(muster@.map_values(|p: Vec<u8>| p@) =~= g0.1.push(fold(t, ci)));
            lemma_push_wf((g0.0.push(em), g0.1, g0.2), fold(t, ci), idx);
        }
        proof {
            assert(e.aliase@.subrange(0, e.aliase@.len() as int) =~= e.aliase@);
        }
        let mut k: usize = 0;
        while k < e.aliase.len()
            invariant
                k <= e.aliase@.len(),
                idx == gefiltert@.len(),
                gefiltert@ == old(gefiltert)@,
                g0.0 == gefiltert@.map_values(|e: GlossarEintrag| eintrag_modell(e)),
                em == (decode_utf8(t), e.aliase@, e.pfad),
                add_aliases(
                    muster@.map_values(|p: Vec<u8>| p@),
                    map@,
                    e.aliase@.subrange(k as int, e.aliase@.len() as int),
                    ci,
                    idx,
                ) == add_aliases(g0.1.push(fold(t, ci)), g0.2.push(idx), e.aliase@, ci, idx),
                modell_wf((g0.0.push(em), muster@.map_values(|p: Vec<u8>| p@), map@)),
            decreases e.aliase@.len() - k,
        {
            let ghost pats = muster@.map_values(|p: Vec<u8>| p@);
            let ghost mp = map@;
            let ghost ta = trimmed(encode_utf8(e.aliase@[k as int]@));
            let (_, ab) = trim_and_fold(e.aliase[k].as_str(), ci);
            proof {
                lemma_klein_len(ta, 0);
                let rest = e.aliase@.subrange(k as int, e.aliase@.len() as int);
                assert(rest[0] == e.aliase@[k as int]);
                assert(rest.drop_first() =~= e.aliase@.subrange(k + 1, e.aliase@.len() as int));
            }
            if ab.len() > 0 && !contains_pattern(muster, &ab) {
                muster.push(ab);
                map.push(idx);
                proof {
                    assert(muster@.map_values(|p: Vec<u8>| p@) =~= pats.push(ab@));
                    lemma_push_wf((g0.0.push(em), pats, mp), ab@, idx);
                }
            }
            k += 1;
        }
        proof {
            assert(e.aliase@.subrange(e.aliase@.len() as int, e.aliase@.len() as int)
                =~= Seq::<String>::empty());
        }
        gefiltert.push(GlossarEintrag { begriff, aliase: e.aliase, pfad: e.pfad });
        proof {
            assert(gefiltert@.map_values(|e: GlossarEintrag| eintrag_modell(e)) =~= g0.0.push(em));
        }
    }

    pub fn eintraege(&self) -> (r: &[GlossarEintrag])
        ensures
            r@.map_values(|e: GlossarEintrag| eintrag_modell(e)) == self.modell().0,
    {
        self.eintraege.as_slice()
    }

    pub fn ist_leer(&self) -> (r: bool)
        ensures
            r == (self.modell().0.len() == 0),
    {
        self.eintraege.len() == 0
    }

    /// All term hits in `text`: only at word boundaries, leftmost-longest
    /// term wins. Hits inside code (`...`, fences) and existing links
    /// ([[...]], [...](...)) are dropped.
    pub fn finde(&self, text: &str) -> (r: Vec<GlossarTreffer>)
        ensures
            (self.modell().0.len() == 0 || text.spec_bytes().len() == 0 || !self.built()) ==> r@.len()
                == 0,
            (self.modell().0.len() > 0 && text.spec_bytes().len() > 0 && self.built()) ==> exists|
                ms: Seq<(usize, usize, usize)>,
            |
                ll_ok(self.modell().1, fold(text.spec_bytes(), self.ignores_case()), ms) && r@
                    == treffer_modell(text.spec_bytes(), protect(text.spec_bytes(), 0), ms, self.modell().2),
            hits_sorted(r@, text.spec_bytes().len() as int),
            forall|k: int|
                0 <= k < r@.len() ==> kept_hit(
                    text.spec_bytes(),
                    protect(text.spec_bytes(), 0),
                    #[trigger] r@[k],
                ),
    {
        proof {
            use_type_invariant(self);
        }
        let bytes = text.as_bytes();
        if self.eintraege.len() == 0 || bytes.len() == 0 {
            return Vec::new();
        }
        let geschuetzt = schutz_bereiche(bytes);
        let such: Vec<u8> = if self.case_insensitive {
            klein_bytes(bytes)
        } else {
            vstd::slice::slice_to_vec(bytes)
        };
        proof {
            lemma_klein_len(bytes@, 0);
        }
        match &self.ac {
            Some(ac) => {
                let ms = ac_find_all(ac, such.as_slice());
                proof {
                    lemma_ll_bounds(self.modell().1, such@, ms@);
                }
                let r = treffer_aus(bytes, &geschuetzt, &ms, &self.muster_zu_eintrag);
                proof {
                    assert(ll_ok(self.modell().1, fold(text.spec_bytes(), self.ignores_case()), ms@));
                    lemma_ll_ordered(self.modell().1, such@, ms@);
                    lemma_treffer_sorted(bytes@, geschuetzt@, ms@, self.muster_zu_eintrag@);
                    lemma_hits_kept(bytes@, geschuetzt@, ms@, self.muster_zu_eintrag@);
                }
                r
            },
            None => Vec::new(),
        }
    }
}

proof fn lemma_grow_wf(g: GlossarModell, e: EintragModell)
    requires
        modell_wf(g),
    ensures
        modell_wf((g.0.push(e), g.1, g.2)),
{
    assert forall|k: int| 0 <= k < g.2.len() implies #[trigger] g.2[k] < g.0.push(e).len() by {
        assert(g.2[k] < g.0.len());
    }
}

proof fn lemma_push_wf(g: GlossarModell, p: Seq<u8>, idx: usize)
    requires
        modell_wf(g),
        p.len() > 0,
        !g.1.contains(p),
        idx < g.0.len(),
    ensures
        modell_wf((g.0, g.1.push(p), g.2.push(idx))),
{
    let pats = g.1.push(p);
    assert forall|i: int, j: int| 0 <= i < j < pats.len() implies pats[i] != pats[j] by {
        if j == pats.len() - 1 {
            assert(pats[i] == g.1[i]);
        } else {
            assert(pats[i] == g.1[i] && pats[j] == g.1[j]);
        }
    }
    assert forall|k: int| 0 <= k < pats.len() implies #[trigger] pats[k].len() > 0 by {
        if k < pats.len() - 1 {
            assert(pats[k] == g.1[k]);
        }
    }
    let m = g.2.push(idx);
    assert forall|k: int| 0 <= k < m.len() implies #[trigger] m[k] < g.0.len() by {
        if k < m.len() - 1 {
            assert(m[k] == g.2[k]);
        }
    }
}

/// The matches of a leftmost-longest search over non-empty patterns are
/// non-empty, in order and apart.
proof fn lemma_ll_ordered(pats: Seq<Seq<u8>>, hay: Seq<u8>, ms: Seq<(usize, usize, usize)>)
    requires
        ll_ok(pats, hay, ms),
        forall|k: int| 0 <= k < pats.len() ==> #[trigger] pats[k].len() > 0,
    ensures
        matches_ordered(ms, hay.len() as int),
{
    assert forall|k: int| 0 <= k < ms.len() implies #[trigger] ms[k].0 < ms[k].1 <= hay.len() by {
        let (s, e, p) = ms[k];
        assert(occurs_at(hay, pats[p as int], s as int));
        assert(pats[p as int].len() > 0);
    }
    assert forall|k: int| 0 < k < ms.len() implies #[trigger] ms[k - 1].1 <= ms[k].0 by {
        assert(prev_end(ms, k) == ms[k - 1].1);
    }
}

/// Matches that are non-empty, end within `len`, and each start where the
/// one before ended or later.
pub open spec fn matches_ordered(ms: Seq<(usize, usize, usize)>, len: int) -> bool {
    &&& forall|k: int| 0 <= k < ms.len() ==> #[trigger] ms[k].0 < ms[k].1 <= len
    &&& forall|k: int| 0 < k < ms.len() ==> #[trigger] ms[k - 1].1 <= ms[k].0
}

/// Hits kept from ordered matches are ordered, and end no later than the last match.
proof fn lemma_treffer_sorted(
    b: Seq<u8>,
    prot: Seq<(usize, usize)>,
    ms: Seq<(usize, usize, usize)>,
    map: Seq<usize>,
)
    requires
        matches_ordered(ms, b.len() as int),
    ensures
        hits_sorted(treffer_modell(b, prot, ms, map), b.len() as int),
        ms.len() > 0 ==> forall|j: int|
            0 <= j < treffer_modell(b, prot, ms, map).len() ==> #[trigger] treffer_modell(
                b,
                prot,
                ms,
                map,
            )[j].end <= ms.last().1,
    decreases ms.len(),
{
    if ms.len() > 0 {
        let d = ms.drop_last();
        assert forall|k: int| 0 <= k < d.len() implies #[trigger] d[k].0 < d[k].1 <= b.len() by {
            assert(d[k] == ms[k]);
        }
        assert forall|k: int| 0 < k < d.len() implies #[trigger] d[k - 1].1 <= d[k].0 by {
            assert(d[k] == ms[k] && d[k - 1] == ms[k - 1]);
        }
        lemma_treffer_sorted(b, prot, d, map);
        let rest = treffer_modell(b, prot, d, map);
        let m = ms.last();
        assert(m == ms[ms.len() - 1]);
        if d.len() > 0 {
            assert(d.last() == ms[ms.len() - 2]);
            assert(ms[ms.len() - 2].1 <= ms[ms.len() - 1].0);
            assert forall|j: int| 0 <= j < rest.len() implies #[trigger] rest[j].end <= m.1 by {}
        }
        if behalten(b, prot, m) {
            let h = GlossarTreffer {
                start: m.0,
                end: m.1,
                index: if m.2 < map.len() {
                    map[m.2 as int]
                } else {
                    m.2
                },
            };
            let t = rest.push(h);
            assert(treffer_modell(b, prot, ms, map) == t);
            assert forall|k: int| 0 <= k < t.len() implies #[trigger] t[k].start < t[k].end <= b.len() by {
                if k < rest.len() {
                    assert(t[k] == rest[k]);
                }
            }
            assert forall|i: int, j: int| 0 <= i < j < t.len() implies t[i].end <= t[j].start by {
                if j < rest.len() {
                    assert(t[i] == rest[i] && t[j] == rest[j]);
                } else {
                    assert(t[i] == rest[i]);
                    if d.len() == 0 {
                        assert(rest.len() == 0);
                    }
                }
            }
            assert forall|j: int| 0 <= j < t.len() implies #[trigger] t[j].end <= ms.last().1 by {
                if j < rest.len() {
                    assert(t[j] == rest[j]);
                    if d.len() == 0 {
                        assert(rest.len() == 0);
                    }
                }
            }
        } else {
            assert(treffer_modell(b, prot, ms, map) == rest);
            if d.len() == 0 {
                assert(rest.len() == 0);
            }
        }
    }
}

proof fn lemma_ll_bounds(pats: Seq<Seq<u8>>, hay: Seq<u8>, ms: Seq<(usize, usize, usize)>)
    requires
        ll_ok(pats, hay, ms),
    ensures
        forall|k: int|
            0 <= k < ms.len() ==> #[trigger] ms[k].0 <= ms[k].1 <= hay.len() && (ms[k].2 as int)
                < pats.len(),
{
    assert forall|k: int| 0 <= k < ms.len() implies #[trigger] ms[k].0 <= ms[k].1 <= hay.len() && (
    ms[k].2 as int) < pats.len() by {
        let (s, e, p) = ms[k];
        assert(occurs_at(hay, pats[p as int], s as int));
    }
}

/// Whether `p` is one of the patterns.
fn contains_pattern(muster: &Vec<Vec<u8>>, p: &Vec<u8>) -> (r: bool)
    ensures
        r == muster@.map_values(|v: Vec<u8>| v@).contains(p@),
{
    let ghost m = muster@.map_values(|v: Vec<u8>| v@);
    let mut k: usize = 0;
    while k < muster.len()
        invariant
            k <= muster@.len(),
            m == muster@.map_values(|v: Vec<u8>| v@),
            forall|j: int| 0 <= j < k ==> m[j] != p@,
        decreases muster@.len() - k,
    {
        if bytes_eq(muster[k].as_slice(), p.as_slice()) {
            proof {
                assert(m[k as int] == p@);
            }
            return true;
        }
        k += 1;
    }
    false
}

/// The trimmed string and its search form.
fn trim_and_fold(s: &str, ci: bool) -> (r: (String, Vec<u8>))
    ensures
        encode_utf8(r.0@) == trimmed(s.spec_bytes()),
        r.0@ == decode_utf8(trimmed(s.spec_bytes())),
        r.1@ == fold(trimmed(s.spec_bytes()), ci),
{
    let b = s.as_bytes();
    let lo = trim_start_idx(b, 0, b.len());
    let hi = trim_end_idx(b, lo, b.len());
    proof {
        encode_utf8_valid_utf8(s@);
        is_char_boundary_start_end_of_seq(b@);
        lemma_trim_start_boundary(b@, 0, b@.len() as int);
        lemma_trim_end_boundary(b@, lo as int, b@.len() as int);
    }
    let t = substr(s, lo, hi);
    let tb = t.as_bytes();
    let folded = if ci {
        klein_bytes(tb)
    } else {
        vstd::slice::slice_to_vec(tb)
    };
    let owned = <String as vstd::string::StringExecFns>::from_str(t);
    proof {
        encode_utf8_decode_utf8(t@);
    }
    (owned, folded)
}

/// Whether match `m` counts: on word boundaries of the text and outside
/// every protected range.
pub open spec fn behalten(b: Seq<u8>, prot: Seq<(usize, usize)>, m: (usize, usize, usize)) -> bool {
    &&& (m.0 == 0 || !ist_wort(b[m.0 - 1]))
    &&& (m.1 >= b.len() || !ist_wort(b[m.1 as int]))
    &&& !overlaps_any(prot, m.0 as int, m.1 as int)
}

/// A hit that stands alone as a word and lies outside every protected range
/// (code and links).
pub open spec fn kept_hit(b: Seq<u8>, prot: Seq<(usize, usize)>, h: GlossarTreffer) -> bool {
    behalten(b, prot, (h.start, h.end, h.index))
}

/// No glossary hit lies in code or in a link, and each stands alone as a
/// word: whatever matches the automaton reports, the hits kept of them are
/// bounded by non-word bytes and overlap no protected range.
pub proof fn lemma_hits_kept(
    b: Seq<u8>,
    prot: Seq<(usize, usize)>,
    ms: Seq<(usize, usize, usize)>,
    map: Seq<usize>,
)
    ensures
        forall|k: int|
            0 <= k < treffer_modell(b, prot, ms, map).len() ==> kept_hit(
                b,
                prot,
                #[trigger] treffer_modell(b, prot, ms, map)[k],
            ),
    decreases ms.len(),
{
    if ms.len() > 0 {
        lemma_hits_kept(b, prot, ms.drop_last(), map);
        let rest = treffer_modell(b, prot, ms.drop_last(), map);
        let t = treffer_modell(b, prot, ms, map);
        assert forall|k: int| 0 <= k < t.len() implies kept_hit(b, prot, #[trigger] t[k]) by {
            if k < rest.len() {
                assert(t[k] == rest[k]);
            }
        }
    }
}

/// The hits of the matches `ms` in `b`: the matches that count, each with
/// the entry of its pattern.
pub open spec fn treffer_modell(
    b: Seq<u8>,
    prot: Seq<(usize, usize)>,
    ms: Seq<(usize, usize, usize)>,
    map: Seq<usize>,
) -> Seq<GlossarTreffer>
    decreases ms.len(),
{
    if ms.len() == 0 {
        seq![]
    } else {
        let rest = treffer_modell(b, prot, ms.drop_last(), map);
        let m = ms.last();
        if behalten(b, prot, m) {
            rest.push(
                GlossarTreffer {
                    start: m.0,
                    end: m.1,
                    index: if m.2 < map.len() {
                        map[m.2 as int]
                    } else {
                        m.2
                    },
                },
            )
        } else {
            rest
        }
    }
}

/// The hits among the matches `ms` of the automaton in `text`.
pub fn treffer_aus(
    text: &[u8],
    geschuetzt: &Vec<(usize, usize)>,
    ms: &Vec<(usize, usize, usize)>,
    muster_zu_eintrag: &Vec<usize>,
) -> (r: Vec<GlossarTreffer>)
    requires
        forall|k: int| 0 <= k < ms@.len() ==> #[trigger] ms@[k].0 <= ms@[k].1 <= text@.len(),
    ensures
        r@ == treffer_modell(text@, geschuetzt@, ms@, muster_zu_eintrag@),
{
    let mut treffer: Vec<GlossarTreffer> = Vec::new();
    let mut k: usize = 0;
    while k < ms.len()
        invariant
            k <= ms@.len(),
            forall|j: int| 0 <= j < ms@.len() ==> #[trigger] ms@[j].0 <= ms@[j].1 <= text@.len(),
            treffer@ == treffer_modell(text@, geschuetzt@, ms@.subrange(0, k as int), muster_zu_eintrag@),
        decreases ms@.len() - k,
    {
        let (start, end, muster_idx) = ms[k];
        proof {
            assert(ms@.subrange(0, k + 1).drop_last() =~= ms@.subrange(0, k as int));
            assert(ms@.subrange(0, k + 1).last() == ms@[k as int]);
        }
        let links_ok = start == 0 || !ist_wortzeichen(text[start - 1]);
        let rechts_ok = end >= text.len() || !ist_wortzeichen(text[end]);
        if links_ok && rechts_ok && !geschuetzt_treffer(geschuetzt, start, end) {
            let eintrag_idx = if muster_idx < muster_zu_eintrag.len() {
                muster_zu_eintrag[muster_idx]
            } else {
                muster_idx
            };
            treffer.push(GlossarTreffer { start, end, index: eintrag_idx });
        }
        k += 1;
    }
    proof {
        assert(ms@.subrange(0, ms@.len() as int) =~= ms@);
    }
    treffer
}

} // verus!

//! Full-vault text search and fuzzy quick-switcher scoring.

use vstd::prelude::*;
use vstd::string::{StringExecFns, StringSliceAdditionalSpecFns};
use vstd::utf8::*;
use vstd::seq_lib::{to_multiset_build, to_multiset_insert};

use crate::text::{
    contains_bytes, contains_idx, find_byte, find_byte_idx, lemma_ascii_boundary,
    lemma_encode_concat, lemma_find_byte, lemma_trimmed_valid, lemma_valid_sub, lowercase,
    name_key, string_of, substr, to_lower, trim_slice, trimmed, trimmed_lower, chars_of, lex_lt, lex_lt_exec,
    lemma_lex_lt_trans, lemma_lex_lt_total,
};

verus! {

#[derive(Debug, Clone, PartialEq)]
pub struct SearchHit {
    /// Note path relative to vault root ('/' separators).
    pub rel: String,
    /// 0-based line number of the match.
    pub line_no: usize,
    /// The matching line, trimmed.
    pub line_text: String,
}

/// A hit by its path, line number and the bytes of its line text.
pub open spec fn hit_view(h: SearchHit) -> (Seq<char>, int, Seq<u8>) {
    (h.rel@, h.line_no as int, encode_utf8(h.line_text@))
}

/// The line of `b` that starts at `pos` (as `str::lines` yields it: without
/// its `\n` and a `\r` before that), and where the next line starts.
pub open spec fn line_at(b: Seq<u8>, pos: int) -> (Seq<u8>, int) {
    match find_byte(b, 10, pos, b.len() as int) {
        Some(k) => (
            b.subrange(
                pos,
                if k > pos && b[k - 1] == 13 {
                    k - 1
                } else {
                    k
                },
            ),
            k + 1,
        ),
        None => (b.subrange(pos, b.len() as int), b.len() as int),
    }
}

/// The hits in the lines of `b` from `pos` on, the first of them numbered `i`:
/// each line whose lowercase form contains `q`, trimmed.
pub open spec fn note_hits(rel: Seq<char>, b: Seq<u8>, q: Seq<u8>, pos: int, i: int) -> Seq<
    (Seq<char>, int, Seq<u8>),
>
    decreases b.len() - pos,
{
    if pos < 0 || pos >= b.len() {
        seq![]
    } else {
        let (l, next) = line_at(b, pos);
        proof {
            lemma_find_byte(b, 10, pos, b.len() as int);
        }
        let rest = note_hits(rel, b, q, next, i + 1);
        if contains_bytes(name_key(decode_utf8(l)), q) {
            seq![(rel, i, trimmed(l))] + rest
        } else {
            rest
        }
    }
}

/// The hits of the notes from `j` on, note after note.
pub open spec fn all_hits(notes: Seq<(Seq<char>, Seq<char>)>, q: Seq<u8>, j: int) -> Seq<
    (Seq<char>, int, Seq<u8>),
>
    decreases notes.len() - j,
{
    if j < 0 || j >= notes.len() {
        seq![]
    } else {
        note_hits(notes[j].0, encode_utf8(notes[j].1), q, 0, 0) + all_hits(notes, q, j + 1)
    }
}

/// What a search for `query` finds: nothing for a blank query, else the
/// lines of every note whose lowercase form contains the lowercase trimmed query.
pub open spec fn search_spec(notes: Seq<(Seq<char>, Seq<char>)>, query: Seq<u8>) -> Seq<
    (Seq<char>, int, Seq<u8>),
> {
    let q = name_key(decode_utf8(trimmed(query)));
    if q.len() == 0 {
        seq![]
    } else {
        all_hits(notes, q, 0)
    }
}

/// The hits of one note's `content`, appended to `out`.
fn push_note_hits(out: &mut Vec<SearchHit>, rel: &String, content: &str, q: &[u8])
    ensures
        final(out)@.map_values(|h: SearchHit| hit_view(h)) == old(out)@.map_values(
            |h: SearchHit| hit_view(h),
        ) + note_hits(rel@, content.spec_bytes(), q@, 0, 0),
{
    let b = content.as_bytes();
    let len = b.len();
    let mut pos: usize = 0;
    let mut i: usize = 0;
    let ghost start = out@.map_values(|h: SearchHit| hit_view(h));
    proof {
        encode_utf8_valid_utf8(content@);
        is_char_boundary_start_end_of_seq(b@);
        assert(start + note_hits(rel@, b@, q@, 0, 0) =~= out@.map_values(|h: SearchHit| hit_view(h))
            + note_hits(rel@, b@, q@, 0, 0));
    }
    while pos < len
        invariant
            len == b@.len(),
            b@ == content.spec_bytes(),
            valid_utf8(b@),
            pos <= len,
            i <= pos,
            is_char_boundary(b@, pos as int),
            out@.map_values(|h: SearchHit| hit_view(h)) + note_hits(rel@, b@, q@, pos as int, i as int)
                == start + note_hits(rel@, b@, q@, 0, 0),
        decreases len - pos,
    {
        let ghost before = out@.map_values(|h: SearchHit| hit_view(h));
        proof {
            lemma_find_byte(b@, 10, pos as int, len as int);
        }
        let (end, next) = match find_byte_idx(b, 10, pos, len) {
            Some(k) => {
                if k > pos && b[k - 1] == 13 {
                    (k - 1, k + 1)
                } else {
                    (k, k + 1)
                }
            },
            None => (len, len),
        };
        proof {
            lemma_ascii_boundary(b@, end as int);
            lemma_ascii_boundary(b@, next as int);
        }
        let line = substr(content, pos, end);
        let lower = to_lower(line);
        proof {
            encode_utf8_decode_utf8(line@);
        }
        if contains_idx(lower.as_str().as_bytes(), q) {
            proof {
                lemma_valid_sub(b@, pos as int, end as int);
            }
            let t = trim_slice(line.as_bytes());
            let h = SearchHit { rel: rel.clone(), line_no: i, line_text: string_of(t) };
            out.push(h);
            proof {
                assert(out@.map_values(|h: SearchHit| hit_view(h)) =~= before.push(
                    (rel@, i as int, trimmed(line.spec_bytes())),
                ));
            }
        }
        proof {
            assert(before + note_hits(rel@, b@, q@, pos as int, i as int) =~= out@.map_values(
                |h: SearchHit| hit_view(h),
            ) + note_hits(rel@, b@, q@, next as int, i + 1));
        }
        pos = next;
        i = i + 1;
    }
    proof {
        assert(out@.map_values(|h: SearchHit| hit_view(h)) =~= start + note_hits(
            rel@,
            b@,
            q@,
            0,
            0,
        ));
    }
}

/// Search all notes line by line (case-insensitive). The notes are given as
/// `(relative path, content)` pairs, so this stays filesystem-free.
pub fn search_notes(notes: &[(String, String)], query: &str) -> (r: Vec<SearchHit>)
    ensures
        r@.map_values(|h: SearchHit| hit_view(h)) == search_spec(
            notes@.map_values(|n: (String, String)| (n.0@, n.1@)),
            query.spec_bytes(),
        ),
        trimmed(query.spec_bytes()).len() == 0 ==> r@.len() == 0,
{
    let ql = trimmed_lower(query);
    let q = ql.as_str().as_bytes();
    let mut hits: Vec<SearchHit> = Vec::new();
    let ghost ns = notes@.map_values(|n: (String, String)| (n.0@, n.1@));
    if q.len() == 0 {
        proof {
            assert(hits@.map_values(|h: SearchHit| hit_view(h)) =~= Seq::<
                (Seq<char>, int, Seq<u8>),
            >::empty());
        }
        return hits;
    }
    let mut j: usize = 0;
    proof {
        assert(hits@.map_values(|h: SearchHit| hit_view(h)) + all_hits(ns, q@, 0) =~= all_hits(
            ns,
            q@,
            0,
        ));
    }
    while j < notes.len()
        invariant
            j <= notes@.len(),
            ns == notes@.map_values(|n: (String, String)| (n.0@, n.1@)),
            hits@.map_values(|h: SearchHit| hit_view(h)) + all_hits(ns, q@, j as int) == all_hits(
                ns,
                q@,
                0,
            ),
        decreases notes@.len() - j,
    {
        let ghost before = hits@.map_values(|h: SearchHit| hit_view(h));
        push_note_hits(&mut hits, &notes[j].0, notes[j].1.as_str(), q);
        proof {
            assert(ns[j as int] == (notes@[j as int].0@, notes@[j as int].1@));
            assert(before + all_hits(ns, q@, j as int) =~= hits@.map_values(
                |h: SearchHit| hit_view(h),
            ) + all_hits(ns, q@, j + 1));
        }
        j += 1;
    }
    proof {
        assert(hits@.map_values(|h: SearchHit| hit_view(h)) + Seq::<(Seq<char>, int, Seq<u8>)>::empty()
            =~= hits@.map_values(|h: SearchHit| hit_view(h)));
    }
    hits
}

// ---------------------------------------------------------------------------
// Quick-switcher scoring
// ---------------------------------------------------------------------------

/// First `j >= from` with `s[j] == c`.
pub open spec fn find_char(s: Seq<char>, c: char, from: int) -> Option<int>
    decreases s.len() - from,
{
    if from < 0 || from >= s.len() {
        None
    } else if s[from] == c {
        Some(from)
    } else {
        find_char(s, c, from + 1)
    }
}

pub proof fn lemma_find_char(s: Seq<char>, c: char, from: int)
    requires
        0 <= from <= s.len(),
    ensures
        find_char(s, c, from) matches Some(j) ==> from <= j < s.len() && s[j] == c && forall|
            k: int,
        |
            from <= k < j ==> s[k] != c,
        find_char(s, c, from) is None ==> forall|k: int| from <= k < s.len() ==> s[k] != c,
    decreases s.len() - from,
{
    if from < s.len() && s[from] != c {
        lemma_find_char(s, c, from + 1);
    }
}

/// Byte offset of the character at `j` in the UTF-8 encoding of `s`.
pub open spec fn byte_offset(s: Seq<char>, j: int) -> int {
    encode_utf8(s.subrange(0, j)).len() as int
}

/// Width in bytes of the UTF-8 encoding of `c`.
pub open spec fn char_width(c: char) -> int {
    if (c as u32) <= 0x7F {
        1
    } else if (c as u32) <= 0x7FF {
        2
    } else if (c as u32) <= 0xFFFF {
        3
    } else {
        4
    }
}

pub proof fn lemma_byte_offset_step(s: Seq<char>, j: int)
    requires
        0 <= j < s.len(),
    ensures
        byte_offset(s, j + 1) == byte_offset(s, j) + char_width(s[j]),
{
    broadcast use char_is_scalar;

    let one = seq![s[j]];
    lemma_encode_concat(s.subrange(0, j), one);
    assert(s.subrange(0, j + 1) =~= s.subrange(0, j) + one);
    assert(one.drop_first() =~= Seq::<char>::empty());
    assert(encode_utf8(one.drop_first()) =~= Seq::<u8>::empty());
    assert(encode_utf8(one) =~= encode_scalar(one[0] as u32) + encode_utf8(one.drop_first()));
    char_is_scalar(s[j]);
}

/// The stem text cut at `idx` ends with a separator (space, `-`, `_`, `/`,
/// `.`), or `idx` is its start.
pub open spec fn word_start_at(sb: Seq<u8>, idx: int) -> bool {
    idx == 0 || (0 < idx <= sb.len() && (sb[idx - 1] == 32 || sb[idx - 1] == 45 || sb[idx - 1]
        == 95 || sb[idx - 1] == 47 || sb[idx - 1] == 46))
}

/// Score of the query characters from `k` on: each is looked for in `sl`
/// from `p` on and earns 10 minus the characters skipped (at most 9).
pub open spec fn walk(sl: Seq<char>, q: Seq<char>, p: int, k: int, score: int) -> Option<int>
    decreases q.len() - k,
{
    if k < 0 || k >= q.len() {
        Some(score)
    } else {
        match find_char(sl, q[k], p) {
            None => None,
            Some(j) => walk(
                sl,
                q,
                j + 1,
                k + 1,
                score + 10 - if j - p < 9 {
                    j - p
                } else {
                    9
                },
            ),
        }
    }
}

/// The lowercase stem and the lowercase trimmed query.
pub open spec fn score_inputs(stem: Seq<char>, query: Seq<u8>) -> (Seq<char>, Seq<char>) {
    (lowercase(stem), lowercase(decode_utf8(trimmed(query))))
}

/// Score of a stem against a query, `None` when the query's characters are
/// not an in-order subsequence of the stem's: the first character earns 20
/// at a word start of the stem and 5 elsewhere, each later one 10 minus the
/// characters skipped before it (at most 9); then an eighth of the stem's
/// length in bytes is taken off, and 15 added when the stem starts with the
/// query. A blank query scores 0. All comparisons ignore case.
pub open spec fn score_spec(stem: Seq<char>, query: Seq<u8>) -> Option<int> {
    let (sl, q) = score_inputs(stem, query);
    if q.len() == 0 {
        Some(0)
    } else {
        match find_char(sl, q[0], 0) {
            None => None,
            Some(j) => {
                let first: int = if word_start_at(encode_utf8(stem), byte_offset(sl, j)) {
                    20
                } else {
                    5
                };
                match walk(sl, q, j + 1, 1, first) {
                    None => None,
                    Some(s) => Some(s - encode_utf8(sl).len() / 8 + if q.len() <= sl.len()
                        && sl.subrange(0, q.len() as int) == q {
                        15int
                    } else {
                        0int
                    }),
                }
            },
        }
    }
}

/// `f` places the query characters from `k` on, in order, at strictly
/// increasing positions of `sl` from `p` on.
pub open spec fn embeds_at(sl: Seq<char>, q: Seq<char>, p: int, k: int, f: Seq<int>) -> bool {
    &&& f.len() == q.len() - k
    &&& forall|i: int| 0 <= i < f.len() ==> p <= #[trigger] f[i] < sl.len() && sl[f[i]] == q[k + i]
    &&& forall|i: int, j: int| 0 <= i < j < f.len() ==> #[trigger] f[i] < #[trigger] f[j]
}

proof fn lemma_walk_embeds(sl: Seq<char>, q: Seq<char>, p: int, k: int, score: int)
    requires
        0 <= k <= q.len(),
        0 <= p <= sl.len(),
    ensures
        walk(sl, q, p, k, score) is Some <==> exists|f: Seq<int>| #[trigger] embeds_at(sl, q, p, k, f),
    decreases q.len() - k,
{
    if k == q.len() {
        assert(embeds_at(sl, q, p, k, Seq::<int>::empty()));
    } else {
        lemma_find_char(sl, q[k], p);
        match find_char(sl, q[k], p) {
            None => {
                if exists|f: Seq<int>| #[trigger] embeds_at(sl, q, p, k, f) {
                    let f = choose|f: Seq<int>| #[trigger] embeds_at(sl, q, p, k, f);
                    assert(sl[f[0]] == q[k + 0]);
                    assert(false);
                }
            },
            Some(j) => {
                let score2 = score + 10 - if j - p < 9 {
                    j - p
                } else {
                    9
                };
                lemma_walk_embeds(sl, q, j + 1, k + 1, score2);
                if exists|g: Seq<int>| #[trigger] embeds_at(sl, q, j + 1, k + 1, g) {
                    let g = choose|g: Seq<int>| #[trigger] embeds_at(sl, q, j + 1, k + 1, g);
                    let f = seq![j] + g;
                    assert forall|i: int| 0 <= i < f.len() implies p <= #[trigger] f[i] < sl.len()
                        && sl[f[i]] == q[k + i] by {
                        if i > 0 {
                            assert(f[i] == g[i - 1]);
                        }
                    }
                    assert forall|a: int, b: int| 0 <= a < b < f.len() implies #[trigger] f[a]
                        < #[trigger] f[b] by {
                        assert(f[b] == g[b - 1]);
                        if a > 0 {
                            assert(f[a] == g[a - 1]);
                        } else {
                            assert(g[b - 1] >= j + 1);
                        }
                    }
                    assert(embeds_at(sl, q, p, k, f));
                }
                if exists|f: Seq<int>| #[trigger] embeds_at(sl, q, p, k, f) {
                    let f = choose|f: Seq<int>| #[trigger] embeds_at(sl, q, p, k, f);
                    let g = f.drop_first();
                    assert(p <= f[0] && sl[f[0]] == q[k + 0]);
                    assert(f[0] >= j);
                    assert forall|i: int| 0 <= i < g.len() implies j + 1 <= #[trigger] g[i] < sl.len()
                        && sl[g[i]] == q[k + 1 + i] by {
                        assert(g[i] == f[i + 1]);
                        assert(f[0] < f[i + 1]);
                        assert(sl[f[i + 1]] == q[k + (i + 1)]);
                    }
                    assert forall|a: int, b: int| 0 <= a < b < g.len() implies #[trigger] g[a]
                        < #[trigger] g[b] by {
                        assert(g[a] == f[a + 1] && g[b] == f[b + 1]);
                    }
                    assert(embeds_at(sl, q, j + 1, k + 1, g));
                }
            },
        }
    }
}

/// A stem gets a score exactly when the lowercase trimmed query is an
/// in-order subsequence of the lowercase stem: its characters sit at
/// strictly increasing positions of the stem, however far apart.
pub proof fn lemma_scores_iff_subsequence(stem: Seq<char>, query: Seq<u8>)
    ensures
        score_spec(stem, query) is Some <==> exists|f: Seq<int>|
            #[trigger] embeds_at(score_inputs(stem, query).0, score_inputs(stem, query).1, 0, 0, f),
{
    let (sl, q) = score_inputs(stem, query);
    lemma_walk_embeds(sl, q, 0, 0, 0);
    if q.len() > 0 {
        lemma_find_char(sl, q[0], 0);
        if let Some(j) = find_char(sl, q[0], 0) {
            let first: int = if word_start_at(encode_utf8(stem), byte_offset(sl, j)) {
                20
            } else {
                5
            };
            lemma_walk_embeds(sl, q, j + 1, 1, first);
            lemma_walk_embeds(sl, q, j + 1, 1, 0 + 10 - if j - 0 < 9 {
                j - 0
            } else {
                9
            });
        }
    } else {
        assert(embeds_at(sl, q, 0, 0, Seq::<int>::empty()));
    }
}

/// The inputs on which scoring is defined: the word-start test cuts the
/// stem at the offset of the first match in its lowercase form, which must
/// be a character boundary of the stem.
pub open spec fn score_defined(stem: Seq<char>, query: Seq<u8>) -> bool {
    let (sl, q) = score_inputs(stem, query);
    q.len() == 0 || match find_char(sl, q[0], 0) {
        None => true,
        Some(j) => byte_offset(sl, j) == 0 || (byte_offset(sl, j) <= encode_utf8(stem).len()
            && is_char_boundary(encode_utf8(stem), byte_offset(sl, j))),
    }
}

fn char_width_exec(c: char) -> (r: usize)
    ensures
        r == char_width(c),
{
    let v = c as u32;
    if v <= 0x7F {
        1
    } else if v <= 0x7FF {
        2
    } else if v <= 0xFFFF {
        3
    } else {
        4
    }
}

/// Why scoring gave no number.
enum Scored {
    Score(i128),
    NoMatch,
    Undefined,
}

/// Scores with the lowercase stem `sl` and query `q`, the stem's own bytes `sb`.
fn score_walk(sl: &Vec<char>, q: &Vec<char>, sb: &[u8], sl_bytes: usize) -> (r: Scored)
    requires
        q@.len() > 0,
        valid_utf8(sb@),
        sl_bytes == encode_utf8(sl@).len(),
    ensures
        r matches Scored::Score(s) ==> 0 <= s <= 20 * q@.len(),
        match r {
            Scored::Undefined => match find_char(sl@, q@[0], 0) {
                Some(j) => !(byte_offset(sl@, j) == 0 || (byte_offset(sl@, j) <= sb@.len()
                    && is_char_boundary(sb@, byte_offset(sl@, j)))),
                None => false,
            },
            Scored::NoMatch => (match find_char(sl@, q@[0], 0) {
                Some(j) => byte_offset(sl@, j) == 0 || (byte_offset(sl@, j) <= sb@.len()
                    && is_char_boundary(sb@, byte_offset(sl@, j))),
                None => true,
            }) && match find_char(sl@, q@[0], 0) {
                None => true,
                Some(j) => walk(sl@, q@, j + 1, 1, if word_start_at(sb@, byte_offset(sl@, j)) {
                    20
                } else {
                    5
                }) is None,
            },
            Scored::Score(s) => match find_char(sl@, q@[0], 0) {
                None => false,
                Some(j) => (byte_offset(sl@, j) == 0 || (byte_offset(sl@, j) <= sb@.len()
                    && is_char_boundary(sb@, byte_offset(sl@, j)))) && walk(
                    sl@,
                    q@,
                    j + 1,
                    1,
                    if word_start_at(sb@, byte_offset(sl@, j)) {
                        20
                    } else {
                        5
                    },
                ) == Some(s as int),
            },
        },
{
    let n = sl.len();
    let qn = q.len();
    // first query character
    let qc = q[0];
    let mut j: usize = 0;
    let mut off: usize = 0;
    proof {
        lemma_find_char(sl@, qc, 0);
        assert(sl@.subrange(0, 0) =~= Seq::<char>::empty());
        lemma_encode_prefix_len(sl@, n as int);
    }
    while j < n && sl[j] != qc
        invariant
            n == sl@.len(),
            j <= n,
            off == byte_offset(sl@, j as int),
            byte_offset(sl@, n as int) == sl_bytes,
            find_char(sl@, qc, 0) == find_char(sl@, qc, j as int),
        decreases n - j,
    {
        proof {
            lemma_byte_offset_step(sl@, j as int);
            lemma_encode_prefix_mono(sl@, j + 1, n as int);
        }
        off = off + char_width_exec(sl[j]);
        j += 1;
    }
    if j == n {
        return Scored::NoMatch;
    }
    let ws = if off == 0 {
        true
    } else {
        if off > sb.len() || (off < sb.len() && 0x80 <= sb[off] && sb[off] <= 0xBF) {
            proof {
                if off < sb@.len() {
                    is_char_boundary_iff_not_is_continuation_byte(sb@, off as int);
                }
            }
            return Scored::Undefined;
        }
        proof {
            if off < sb@.len() {
                is_char_boundary_iff_not_is_continuation_byte(sb@, off as int);
            } else {
                is_char_boundary_start_end_of_seq(sb@);
            }
        }
        let x = sb[off - 1];
        x == 32 || x == 45 || x == 95 || x == 47 || x == 46
    };
    let ghost first_score: int = if ws { 20 } else { 5 };
    let mut score: i128 = if ws { 20 } else { 5 };
    let mut p: usize = j + 1;
    let mut k: usize = 1;
    while k < qn
        invariant
            n == sl@.len(),
            qn == q@.len(),
            valid_utf8(sb@),
            j < n,
            find_char(sl@, q@[0], 0) == Some(j as int),
            byte_offset(sl@, j as int) == 0 || (byte_offset(sl@, j as int) <= sb@.len()
                && is_char_boundary(sb@, byte_offset(sl@, j as int))),
            first_score == if word_start_at(sb@, byte_offset(sl@, j as int)) {
                20int
            } else {
                5int
            },
            1 <= k <= qn,
            p <= n,
            k <= p,
            0 <= score <= 20 * k,
            walk(sl@, q@, j + 1, 1, first_score) == walk(sl@, q@, p as int, k as int, score as int),
        decreases qn - k,
    {
        let c = q[k];
        let mut m: usize = p;
        proof {
            lemma_find_char(sl@, c, p as int);
        }
        while m < n && sl[m] != c
            invariant
                n == sl@.len(),
                p <= m <= n,
                find_char(sl@, c, p as int) == find_char(sl@, c, m as int),
            decreases n - m,
        {
            m += 1;
        }
        if m == n {
            return Scored::NoMatch;
        }
        let gap = m - p;
        let add: i128 = if gap < 9 {
            10 - gap as i128
        } else {
            1
        };
        score = score + add;
        p = m + 1;
        k += 1;
    }
    Scored::Score(score)
}

proof fn lemma_encode_prefix_len(s: Seq<char>, n: int)
    requires
        n == s.len(),
    ensures
        byte_offset(s, n) == encode_utf8(s).len(),
{
    assert(s.subrange(0, n) =~= s);
}

proof fn lemma_encode_prefix_mono(s: Seq<char>, j: int, n: int)
    requires
        0 <= j <= n <= s.len(),
    ensures
        byte_offset(s, j) <= byte_offset(s, n),
{
    lemma_encode_concat(s.subrange(0, j), s.subrange(j, n));
    assert(s.subrange(0, n) =~= s.subrange(0, j) + s.subrange(j, n));
}

/// Score one file stem against a typed query; higher is better. `None` when
/// the query cannot match as an in-order subsequence.
pub fn score_stem(stem: &str, query: &str) -> (r: Option<i64>)
    requires
        score_defined(stem@, query.spec_bytes()),
    ensures
        r == match score_spec(stem@, query.spec_bytes()) {
            Some(s) => Some(s as i64),
            None => None::<i64>,
        },
{
    match score_stem_checked(stem, query) {
        Some(r) => r,
        None => None,
    }
}

/// [`score_stem`] on every input: `None` where scoring is not defined.
pub fn score_stem_checked(stem: &str, query: &str) -> (r: Option<Option<i64>>)
    ensures
        r is None <==> !score_defined(stem@, query.spec_bytes()),
        r matches Some(x) ==> x == match score_spec(stem@, query.spec_bytes()) {
            Some(s) => Some(s as i64),
            None => None::<i64>,
        },
        trimmed(query.spec_bytes()).len() == 0 ==> score_spec(stem@, query.spec_bytes()) == Some(0int)
            && r == Some(Some(0i64)),
{
    let sl_s = to_lower(stem);
    let ql = trimmed_lower(query);
    let sl = chars_of(sl_s.as_str());
    let ghost qs = lowercase(decode_utf8(trimmed(query.spec_bytes())));
    proof {
        encode_utf8_decode_utf8(ql@);
        encode_utf8_decode_utf8(qs);
        assert(ql@ == qs);
    }
    let q = chars_of(ql.as_str());
    if q.len() == 0 {
        return Some(Some(0));
    }
    let sb = stem.as_bytes();
    let sl_bytes = sl_s.as_str().as_bytes().len();
    proof {
        encode_utf8_valid_utf8(stem@);
    }
    match score_walk(&sl, &q, sb, sl_bytes) {
        Scored::Undefined => None,
        Scored::NoMatch => Some(None),
        Scored::Score(s) => {
            let mut total: i128 = s - (sl_bytes as i128) / 8;
            // prefix bonus
            let qn = q.len();
            let n = sl.len();
            let mut pre = qn <= n;
            let mut t: usize = 0;
            while pre && t < qn
                invariant
                    qn == q@.len(),
                    n == sl@.len(),
                    t <= qn,
                    pre ==> qn <= n && forall|u: int| 0 <= u < t ==> sl@[u] == q@[u],
                    !pre ==> !(qn <= n && sl@.subrange(0, qn as int) == q@),
                decreases qn - t,
            {
                if sl[t] != q[t] {
                    proof {
                        assert(sl@.subrange(0, qn as int)[t as int] != q@[t as int]);
                    }
                    pre = false;
                }
                t += 1;
            }
            proof {
                if pre {
                    assert(sl@.subrange(0, qn as int) =~= q@);
                }
            }
            if pre {
                total = total + 15;
            }
            Some(Some(total as i64))
        },
    }
}

// ---------------------------------------------------------------------------
// Quick switcher
// ---------------------------------------------------------------------------

/// A note candidate for the quick switcher.
#[derive(Debug, Clone, PartialEq)]
pub struct SwitcherCandidate {
    pub rel: String,
    pub score: i64,
}

/// A candidate by the bytes of its name and its score.
pub open spec fn cand_view(c: SwitcherCandidate) -> (Seq<u8>, int) {
    (encode_utf8(c.rel@), c.score as int)
}

/// `a` is ranked before `b`: higher score first, then by name.
pub open spec fn ranked_before(a: (Seq<u8>, int), b: (Seq<u8>, int)) -> bool {
    a.1 > b.1 || (a.1 == b.1 && lex_lt(a.0, b.0))
}

/// No candidate is ranked before one that comes earlier.
pub open spec fn ranked(r: Seq<(Seq<u8>, int)>) -> bool {
    forall|i: int, j: int| 0 <= i < j < r.len() ==> !ranked_before(#[trigger] r[j], #[trigger] r[i])
}

/// The candidates of the stems: each stem that matches, with its score, in order.
pub open spec fn candidates(stems: Seq<Seq<char>>, query: Seq<u8>) -> Seq<(Seq<u8>, int)>
    decreases stems.len(),
{
    if stems.len() == 0 {
        seq![]
    } else {
        let c = candidates(stems.drop_last(), query);
        match score_spec(stems.last(), query) {
            Some(s) => c.push((encode_utf8(stems.last()), (s as i64) as int)),
            None => c,
        }
    }
}

pub proof fn lemma_ranked_before_trans(a: (Seq<u8>, int), b: (Seq<u8>, int), c: (Seq<u8>, int))
    requires
        ranked_before(a, b),
        ranked_before(b, c),
    ensures
        ranked_before(a, c),
{
    if a.1 == b.1 && b.1 == c.1 {
        lemma_lex_lt_trans(a.0, b.0, c.0);
    }
}

/// Inserts `x` into the ranked `r` before the first candidate it is ranked before.
fn insert_ranked(r: &mut Vec<SwitcherCandidate>, x: SwitcherCandidate)
    requires
        ranked(old(r)@.map_values(|c: SwitcherCandidate| cand_view(c))),
    ensures
        ranked(final(r)@.map_values(|c: SwitcherCandidate| cand_view(c))),
        final(r)@.map_values(|c: SwitcherCandidate| cand_view(c)).to_multiset()
            == old(r)@.map_values(|c: SwitcherCandidate| cand_view(c)).to_multiset().insert(
            cand_view(x),
        ),
{
    let ghost v = r@.map_values(|c: SwitcherCandidate| cand_view(c));
    let ghost xv = cand_view(x);
    let xb = x.rel.as_str().as_bytes();
    let mut k: usize = 0;
    let mut found = false;
    while !found && k < r.len()
        invariant
            k <= r@.len(),
            v == r@.map_values(|c: SwitcherCandidate| cand_view(c)),
            xb@ == xv.0,
            xv == cand_view(x),
            found ==> k < r@.len() && ranked_before(xv, v[k as int]),
            forall|j: int| 0 <= j < k ==> !ranked_before(xv, #[trigger] v[j]),
        decreases r@.len() - k + if found {
            0int
        } else {
            1int
        },
    {
        let before = x.score > r[k].score || (x.score == r[k].score && lex_lt_exec(
            xb,
            r[k].rel.as_str().as_bytes(),
        ));
        proof {
            assert(v[k as int] == cand_view(r@[k as int]));
        }
        if before {
            found = true;
        } else {
            k += 1;
        }
    }
    proof {
        let w = v.insert(k as int, xv);
        assert forall|i: int, j: int| 0 <= i < j < w.len() implies !ranked_before(
            #[trigger] w[j],
            #[trigger] w[i],
        ) by {
            if j < k {
                assert(w[i] == v[i] && w[j] == v[j]);
            } else if j == k {
                assert(w[i] == v[i] && w[j] == xv);
            } else if i < k {
                assert(w[i] == v[i] && w[j] == v[j - 1]);
            } else if i == k {
                assert(w[i] == xv && w[j] == v[j - 1]);
                if ranked_before(v[j - 1], xv) {
                    lemma_ranked_before_trans(v[j - 1], xv, v[k as int]);
                    if j - 1 > k {
                        assert(!ranked_before(v[j - 1], v[k as int]));
                    } else {
                        lemma_lex_lt_total(v[k as int].0, v[k as int].0);
                    }
                }
            } else {
                assert(w[i] == v[i - 1] && w[j] == v[j - 1]);
            }
        }
        to_multiset_insert(v, k as int, xv);
    }
    r.insert(k, x);
    proof {
        assert(r@.map_values(|c: SwitcherCandidate| cand_view(c)) =~= v.insert(k as int, xv));
    }
}

/// Rank notes for the quick switcher: the stems that match the query, best
/// score first, ties by name; an empty query lists every stem.
pub fn quick_switcher(stems: &[&str], query: &str) -> (r: Vec<SwitcherCandidate>)
    requires
        forall|i: int| 0 <= i < stems@.len() ==> score_defined(#[trigger] stems@[i]@, query.spec_bytes()),
    ensures
        ranked(r@.map_values(|c: SwitcherCandidate| cand_view(c))),
        r@.map_values(|c: SwitcherCandidate| cand_view(c)).to_multiset() == candidates(
            stems@.map_values(|s: &str| s@),
            query.spec_bytes(),
        ).to_multiset(),
        trimmed(query.spec_bytes()).len() == 0 ==> candidates(
            stems@.map_values(|s: &str| s@),
            query.spec_bytes(),
        ) == stems@.map_values(|s: &str| (encode_utf8(s@), 0int)),
{
    match quick_switcher_checked(stems, query) {
        Some(r) => r,
        None => Vec::new(),
    }
}

/// [`quick_switcher`] on every input: `None` where scoring a stem is not defined.
pub fn quick_switcher_checked(stems: &[&str], query: &str) -> (r: Option<Vec<SwitcherCandidate>>)
    ensures
        r is None <==> exists|i: int|
            0 <= i < stems@.len() && !score_defined(#[trigger] stems@[i]@, query.spec_bytes()),
        r matches Some(v) ==> ranked(v@.map_values(|c: SwitcherCandidate| cand_view(c))) && v@.map_values(
            |c: SwitcherCandidate| cand_view(c),
        ).to_multiset() == candidates(stems@.map_values(|s: &str| s@), query.spec_bytes()).to_multiset(),
        trimmed(query.spec_bytes()).len() == 0 ==> r is Some && candidates(
            stems@.map_values(|s: &str| s@),
            query.spec_bytes(),
        ) == stems@.map_values(|s: &str| (encode_utf8(s@), 0int)),
{
    let mut out: Vec<SwitcherCandidate> = Vec::new();
    let ghost names = stems@.map_values(|s: &str| s@);
    let mut i: usize = 0;
    proof {
        assert(names.subrange(0, 0) =~= Seq::<Seq<char>>::empty());
        assert(stems@.subrange(0, 0).map_values(|s: &str| (encode_utf8(s@), 0int)) =~= Seq::<(Seq<u8>, int)>::empty());
        assert(out@.map_values(|c: SwitcherCandidate| cand_view(c)) =~= Seq::<(Seq<u8>, int)>::empty());
    }
    while i < stems.len()
        invariant
            i <= stems@.len(),
            names == stems@.map_values(|s: &str| s@),
            forall|j: int| 0 <= j < i ==> score_defined(#[trigger] stems@[j]@, query.spec_bytes()),
            ranked(out@.map_values(|c: SwitcherCandidate| cand_view(c))),
            out@.map_values(|c: SwitcherCandidate| cand_view(c)).to_multiset() == candidates(
                names.subrange(0, i as int),
                query.spec_bytes(),
            ).to_multiset(),
            trimmed(query.spec_bytes()).len() == 0 ==> candidates(
                names.subrange(0, i as int),
                query.spec_bytes(),
            ) == stems@.subrange(0, i as int).map_values(|s: &str| (encode_utf8(s@), 0int)),
        decreases stems@.len() - i,
    {
        let stem = stems[i];
        proof {
            assert(names.subrange(0, i + 1).drop_last() =~= names.subrange(0, i as int));
            assert(names.subrange(0, i + 1).last() == stem@);
        }
        match score_stem_checked(stem, query) {
            None => {
                return None;
            },
            Some(None) => {},
            Some(Some(score)) => {
                proof {
                    if trimmed(query.spec_bytes()).len() == 0 {
                        assert(stems@.subrange(0, i + 1).map_values(|s: &str| (encode_utf8(s@), 0int))
                            =~= stems@.subrange(0, i as int).map_values(
                            |s: &str| (encode_utf8(s@), 0int),
                        ).push((encode_utf8(stem@), 0int)));
                    }
                }
                let rel = String::from_str(stem);
                let ghost c = candidates(names.subrange(0, i as int), query.spec_bytes());
                insert_ranked(&mut out, SwitcherCandidate { rel, score });
                proof {
                    to_multiset_build(c, (encode_utf8(stem@), score as int));
                }
            },
        }
        i += 1;
    }
    proof {
        assert(names.subrange(0, stems@.len() as int) =~= names);
        assert(stems@.subrange(0, stems@.len() as int) =~= stems@);
    }
    Some(out)
}

} // verus!

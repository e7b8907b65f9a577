//! The block structure of a Markdown note body as the preview renders it,
//! for content-anchored sync scrolling. Measuring the blocks needs the UI
//! toolkit and floating point and happens outside this library; here the
//! body is split into source lines and the lines are grouped into blocks.

use std::collections::hash_map::DefaultHasher;
use std::hash::{Hash, Hasher};

use vstd::prelude::*;
use vstd::string::StringSliceAdditionalSpecFns;
use vstd::utf8::*;

use crate::text::{
    lemma_trim_start_boundary, lemma_trim_end_boundary, lemma_trim_sub, lemma_boundary, push_range, substr,
    trim_end_idx, find_byte, find_byte_idx, find_pat, find_pat_idx, lemma_find_byte, lemma_find_pat,
    trim_slice, trim_start_at, trim_start_idx, trimmed, ws_len_at, ws_len, lemma_trim_start_bounds,
    lemma_ascii_boundary, lemma_ascii_valid, lemma_valid_sub, string_of,
};

verus! {

/// A block of source lines of the body.
#[derive(Debug, PartialEq, Eq)]
pub enum Block {
    Paragraph { lines: Vec<usize> },
    Heading { level: usize, line: usize },
    List { lines: Vec<usize> },
    Quote { lines: Vec<usize> },
    Code { lines: Vec<usize> },
    Table { lines: Vec<usize> },
    Image { lines: Vec<usize> },
    Rule { line: usize },
    Blank,
}

/// A block by its kind and line numbers.
pub enum BlockV {
    Paragraph(Seq<usize>),
    Heading(usize, usize),
    List(Seq<usize>),
    Quote(Seq<usize>),
    Code(Seq<usize>),
    Table(Seq<usize>),
    Image(Seq<usize>),
    Rule(usize),
    Blank,
}

pub open spec fn block_view(b: Block) -> BlockV {
    match b {
        Block::Paragraph { lines } => BlockV::Paragraph(lines@),
        Block::Heading { level, line } => BlockV::Heading(level, line),
        Block::List { lines } => BlockV::List(lines@),
        Block::Quote { lines } => BlockV::Quote(lines@),
        Block::Code { lines } => BlockV::Code(lines@),
        Block::Table { lines } => BlockV::Table(lines@),
        Block::Image { lines } => BlockV::Image(lines@),
        Block::Rule { line } => BlockV::Rule(line),
        Block::Blank => BlockV::Blank,
    }
}

/// The line numbers `i..e`.
pub open spec fn line_range(i: int, e: int) -> Seq<usize> {
    Seq::new((e - i) as nat, |k: int| (i + k) as usize)
}

// ---------------------------------------------------------------------------
// Lines and their kinds
// ---------------------------------------------------------------------------

/// The pieces of `b[pos..]` between newlines (`str::split('\n')`): a final
/// newline leaves an empty last piece.
pub open spec fn lines_from(b: Seq<u8>, pos: int) -> Seq<Seq<u8>>
    decreases b.len() + 1 - pos,
{
    if pos < 0 || pos > b.len() {
        seq![]
    } else {
        let e = match find_byte(b, 10, pos, b.len() as int) {
            Some(k) => k,
            None => b.len() as int,
        };
        proof {
            lemma_find_byte(b, 10, pos, b.len() as int);
        }
        seq![b.subrange(pos, e)] + if e < b.len() {
            lines_from(b, e + 1)
        } else {
            seq![]
        }
    }
}

/// `str::trim_start` on bytes.
pub open spec fn tstart(l: Seq<u8>) -> Seq<u8> {
    l.subrange(trim_start_at(l, 0, l.len() as int), l.len() as int)
}

pub open spec fn starts_with(l: Seq<u8>, p: Seq<u8>) -> bool {
    p.len() <= l.len() && l.subrange(0, p.len() as int) == p
}

/// A code fence: "```" or "~~~".
pub open spec fn fence_line(t: Seq<u8>) -> bool {
    starts_with(t, seq![96u8, 96u8, 96u8]) || starts_with(t, seq![126u8, 126u8, 126u8])
}

/// Number of bytes `c` at the start of `t[i..]`.
pub open spec fn count_lead(t: Seq<u8>, c: u8, i: int) -> int
    decreases t.len() - i,
{
    if i < 0 || i >= t.len() || t[i] != c {
        0
    } else {
        1 + count_lead(t, c, i + 1)
    }
}

/// Number of ASCII digits at the start of `t[i..]`.
pub open spec fn count_digits(t: Seq<u8>, i: int) -> int
    decreases t.len() - i,
{
    if i < 0 || i >= t.len() || !(48 <= t[i] <= 57) {
        0
    } else {
        1 + count_digits(t, i + 1)
    }
}

/// The level of a heading line: one to six `#` followed by a space.
pub open spec fn heading_level(t: Seq<u8>) -> Option<int> {
    let h = count_lead(t, 35, 0);
    if 1 <= h <= 6 && h < t.len() && t[h] == 32 {
        Some(h)
    } else {
        None
    }
}

/// From `i` on, every character of `l` is whitespace or the byte `c`, and
/// with the `n` seen before there are at least three `c`.
pub open spec fn rule_scan(l: Seq<u8>, i: int, c: u8, n: int) -> bool
    decreases l.len() - i,
{
    if i < 0 || i >= l.len() {
        n >= 3
    } else if ws_len_at(l, i, l.len() as int) > 0 {
        rule_scan(l, i + ws_len_at(l, i, l.len() as int), c, n)
    } else if l[i] == c {
        rule_scan(l, i + 1, c, n + 1)
    } else {
        false
    }
}

/// A horizontal rule: at least three `-`, `*` or `_` and nothing else but whitespace.
pub open spec fn is_rule(l: Seq<u8>) -> bool {
    rule_scan(l, 0, 45, 0) || rule_scan(l, 0, 42, 0) || rule_scan(l, 0, 95, 0)
}

/// A table delimiter row: trimmed, it starts with `|`, holds a `-`, and has
/// nothing but `-`, `:`, `|` and spaces.
pub open spec fn is_table_delimiter(l: Seq<u8>) -> bool {
    let t = trimmed(l);
    &&& t.len() > 0
    &&& t[0] == 124
    &&& exists|k: int| 0 <= k < t.len() && #[trigger] t[k] == 45
    &&& forall|k: int| 0 <= k < t.len() ==> (#[trigger] t[k] == 45 || t[k] == 58 || t[k] == 124 || t[k] == 32)
}

/// A list item: indented less than eight bytes, then `- `, `* `, `+ `, or one
/// to four digits and `. `; after `> ` the rest is asked again.
pub open spec fn is_list_item(l: Seq<u8>) -> bool
    decreases l.len(),
{
    let rest = tstart(l);
    proof {
        lemma_trim_start_bounds(l, 0, l.len() as int);
    }
    if rest.len() == 0 {
        false
    } else if l.len() - rest.len() >= 8 {
        false
    } else if starts_with(rest, seq![45u8, 32u8]) || starts_with(rest, seq![42u8, 32u8])
        || starts_with(rest, seq![43u8, 32u8]) {
        true
    } else if starts_with(rest, seq![62u8, 32u8]) {
        is_list_item(rest.subrange(2, rest.len() as int))
    } else {
        let d = count_digits(rest, 0);
        1 <= d <= 4 && starts_with(rest.subrange(d, rest.len() as int), seq![46u8, 32u8])
    }
}

/// `s` with each `![alt](url)` replaced by a space, and how many there were.
pub open spec fn images(s: Seq<u8>) -> (Seq<u8>, int)
    decreases s.len(),
{
    match find_pat(s, seq![33u8, 91u8], 0, s.len() as int) {
        None => (s, 0),
        Some(i) => {
            proof {
                lemma_find_pat(s, seq![33u8, 91u8], 0, s.len() as int);
            }
            let after = s.subrange(i + 2, s.len() as int);
            match find_pat(after, seq![93u8, 40u8], 0, after.len() as int) {
                None => (s, 0),
                Some(e) => match find_byte(after, 41, e + 2, after.len() as int) {
                    None => (s, 0),
                    Some(c) => {
                        proof {
                            lemma_find_pat(after, seq![93u8, 40u8], 0, after.len() as int);
                            lemma_find_byte(after, 41, e + 2, after.len() as int);
                        }
                        let rec = images(after.subrange(c + 1, after.len() as int));
                        (s.subrange(0, i).push(32) + rec.0, rec.1 + 1)
                    },
                },
            }
        },
    }
}

/// A line that holds images and nothing else but whitespace.
pub open spec fn image_only(l: Seq<u8>) -> bool {
    images(l).1 > 0 && trimmed(images(l).0).len() == 0
}

/// Indented by four spaces or a tab.
pub open spec fn indented(l: Seq<u8>) -> bool {
    starts_with(l, seq![32u8, 32u8, 32u8, 32u8]) || starts_with(l, seq![9u8])
}

// ---------------------------------------------------------------------------
// Grouping lines into blocks
// ---------------------------------------------------------------------------

/// After the line that closes a fence, searching from `j`; the end if none.
pub open spec fn fence_end(ls: Seq<Seq<u8>>, j: int) -> int
    decreases ls.len() - j,
{
    if j < 0 || j >= ls.len() {
        ls.len() as int
    } else if fence_line(tstart(ls[j])) {
        j + 1
    } else {
        fence_end(ls, j + 1)
    }
}

/// The first line from `j` on whose trimmed start is not `|`.
pub open spec fn pipe_end(ls: Seq<Seq<u8>>, j: int) -> int
    decreases ls.len() - j,
{
    if j < 0 || j >= ls.len() || !starts_with(tstart(ls[j]), seq![124u8]) {
        j
    } else {
        pipe_end(ls, j + 1)
    }
}

/// The first line from `j` on that is not a list item.
pub open spec fn list_end(ls: Seq<Seq<u8>>, j: int) -> int
    decreases ls.len() - j,
{
    if j < 0 || j >= ls.len() || !is_list_item(tstart(ls[j])) {
        j
    } else {
        list_end(ls, j + 1)
    }
}

/// The first line from `j` on whose trimmed start is not `>`.
pub open spec fn quote_end(ls: Seq<Seq<u8>>, j: int) -> int
    decreases ls.len() - j,
{
    if j < 0 || j >= ls.len() || !starts_with(tstart(ls[j]), seq![62u8]) {
        j
    } else {
        quote_end(ls, j + 1)
    }
}

/// The first line from `j` on that is blank or not indented.
pub open spec fn indent_end(ls: Seq<Seq<u8>>, j: int) -> int
    decreases ls.len() - j,
{
    if j < 0 || j >= ls.len() || trimmed(ls[j]).len() == 0 || !indented(ls[j]) {
        j
    } else {
        indent_end(ls, j + 1)
    }
}

/// A line that ends a paragraph: blank, or the start of another kind of
/// block (an indented line only after a blank line or code).
pub open spec fn para_break(l: Seq<u8>, prev: bool) -> bool {
    let t = tstart(l);
    ||| trimmed(l).len() == 0
    ||| fence_line(t)
    ||| heading_level(t) is Some
    ||| is_rule(l)
    ||| is_list_item(t)
    ||| starts_with(t, seq![62u8])
    ||| starts_with(t, seq![124u8])
    ||| (indented(l) && prev)
    ||| image_only(l)
}

/// The first line from `j` on that ends the paragraph.
pub open spec fn para_end(ls: Seq<Seq<u8>>, j: int, prev: bool) -> int
    decreases ls.len() - j,
{
    if j < 0 || j >= ls.len() || para_break(ls[j], prev) {
        j
    } else {
        para_end(ls, j + 1, prev)
    }
}

/// Some line in `[a, b)` is a table delimiter row.
pub open spec fn any_delimiter(ls: Seq<Seq<u8>>, a: int, b: int) -> bool {
    exists|k: int| a <= k < b && #[trigger] is_table_delimiter(ls[k])
}

pub proof fn lemma_ends(ls: Seq<Seq<u8>>, j: int, prev: bool)
    requires
        0 <= j <= ls.len(),
    ensures
        j <= fence_end(ls, j) <= ls.len(),
        j <= pipe_end(ls, j) <= ls.len(),
        j <= list_end(ls, j) <= ls.len(),
        j <= quote_end(ls, j) <= ls.len(),
        j <= indent_end(ls, j) <= ls.len(),
        j <= para_end(ls, j, prev) <= ls.len(),
    decreases ls.len() - j,
{
    if j < ls.len() {
        lemma_ends(ls, j + 1, prev);
    }
}

/// The blocks of the lines from `i` on: `fence` when a code fence was just
/// opened, `prev` when the last block was blank or code.
pub open spec fn blocks_from(ls: Seq<Seq<u8>>, i: int, fence: bool, prev: bool) -> Seq<BlockV>
    decreases ls.len() - i, if fence {
        0int
    } else {
        1int
    },
{
    if i < 0 || i >= ls.len() {
        seq![]
    } else if fence {
        proof {
            lemma_ends(ls, i + 1, prev);
        }
        let e = fence_end(ls, i + 1);
        seq![BlockV::Code(line_range(i, e))] + blocks_from(ls, e, false, true)
    } else {
        proof {
            lemma_ends(ls, i + 1, prev);
        }
        let l = ls[i];
        let t = tstart(l);
        if trimmed(l).len() == 0 {
            seq![BlockV::Blank] + blocks_from(ls, i + 1, false, true)
        } else if fence_line(t) {
            blocks_from(ls, i, true, false)
        } else if heading_level(t) is Some {
            seq![BlockV::Heading(heading_level(t).unwrap() as usize, i as usize)] + blocks_from(
                ls,
                i + 1,
                false,
                false,
            )
        } else if is_rule(l) {
            seq![BlockV::Rule(i as usize)] + blocks_from(ls, i + 1, false, false)
        } else if starts_with(t, seq![124u8]) && any_delimiter(ls, i, pipe_end(ls, i + 1)) {
            let j = pipe_end(ls, i + 1);
            seq![BlockV::Table(line_range(i, j))] + blocks_from(ls, j, false, false)
        } else if is_list_item(t) {
            let j = list_end(ls, i + 1);
            seq![BlockV::List(line_range(i, j))] + blocks_from(ls, j, false, false)
        } else if starts_with(t, seq![62u8]) {
            let j = quote_end(ls, i + 1);
            seq![BlockV::Quote(line_range(i, j))] + blocks_from(ls, j, false, false)
        } else if image_only(l) {
            seq![BlockV::Image(seq![i as usize])] + blocks_from(ls, i + 1, false, false)
        } else if indented(l) && prev {
            let j = indent_end(ls, i + 1);
            seq![BlockV::Code(line_range(i, j))] + blocks_from(ls, j, false, true)
        } else {
            let j = para_end(ls, i + 1, prev);
            seq![BlockV::Paragraph(line_range(i, j))] + blocks_from(ls, j, false, false)
        }
    }
}

/// The blocks of a note body.
pub open spec fn body_blocks(body: Seq<u8>) -> Seq<BlockV> {
    blocks_from(lines_from(body, 0), 0, false, true)
}

// ---------------------------------------------------------------------------
// Computing the blocks
// ---------------------------------------------------------------------------

/// The lines of a body as byte slices, viewed as their bytes.
pub open spec fn lines_view(ls: Seq<&[u8]>) -> Seq<Seq<u8>> {
    ls.map_values(|s: &[u8]| s@)
}

fn split_lines(b: &[u8]) -> (r: Vec<&[u8]>)
    ensures
        lines_view(r@) == lines_from(b@, 0),
{
    let len = b.len();
    let mut out: Vec<&[u8]> = Vec::new();
    let mut pos: usize = 0;
    proof {
        assert(lines_view(out@) + lines_from(b@, 0) =~= lines_from(b@, 0));
    }
    loop
        invariant
            len == b@.len(),
            pos <= len,
            lines_view(out@) + lines_from(b@, pos as int) == lines_from(b@, 0),
        decreases len + 1 - pos,
    {
        let ghost before = lines_view(out@);
        proof {
            lemma_find_byte(b@, 10, pos as int, len as int);
        }
        let e = match find_byte_idx(b, 10, pos, len) {
            Some(k) => k,
            None => len,
        };
        out.push(vstd::slice::slice_subrange(b, pos, e));
        proof {
            assert(lines_view(out@) =~= before.push(b@.subrange(pos as int, e as int)));
        }
        if e < len {
            proof {
                assert(before + lines_from(b@, pos as int) =~= lines_view(out@) + lines_from(
                    b@,
                    e + 1,
                ));
            }
            pos = e + 1;
        } else {
            proof {
                assert(lines_view(out@) =~= before + lines_from(b@, pos as int));
            }
            return out;
        }
    }
}

fn tstart_slice(l: &[u8]) -> (r: &[u8])
    ensures
        r@ == tstart(l@),
{
    let k = trim_start_idx(l, 0, l.len());
    vstd::slice::slice_subrange(l, k, l.len())
}

fn starts_with_exec(l: &[u8], p: &[u8]) -> (r: bool)
    ensures
        r == starts_with(l@, p@),
{
    if p.len() > l.len() {
        return false;
    }
    let mut k: usize = 0;
    while k < p.len()
        invariant
            p@.len() <= l@.len(),
            k <= p@.len(),
            forall|j: int| 0 <= j < k ==> l@[j] == p@[j],
        decreases p@.len() - k,
    {
        if l[k] != p[k] {
            proof {
                assert(l@.subrange(0, p@.len() as int)[k as int] != p@[k as int]);
            }
            return false;
        }
        k += 1;
    }
    proof {
        assert(l@.subrange(0, p@.len() as int) =~= p@);
    }
    true
}

fn starts_with_byte(l: &[u8], c: u8) -> (r: bool)
    ensures
        r == starts_with(l@, seq![c]),
{
    let one: [u8; 1] = [c];
    proof {
        assert(one@ =~= seq![c]);
    }
    starts_with_exec(l, one.as_slice())
}

fn fence_exec(t: &[u8]) -> (r: bool)
    ensures
        r == fence_line(t@),
{
    let ticks: [u8; 3] = [96, 96, 96];
    let tildes: [u8; 3] = [126, 126, 126];
    proof {
        assert(ticks@ =~= seq![96u8, 96u8, 96u8]);
        assert(tildes@ =~= seq![126u8, 126u8, 126u8]);
    }
    starts_with_exec(t, ticks.as_slice()) || starts_with_exec(t, tildes.as_slice())
}

fn count_lead_exec(t: &[u8], c: u8) -> (r: usize)
    ensures
        r == count_lead(t@, c, 0),
        r <= t@.len(),
{
    let mut k: usize = 0;
    while k < t.len() && t[k] == c
        invariant
            k <= t@.len(),
            count_lead(t@, c, 0) == k + count_lead(t@, c, k as int),
        decreases t@.len() - k,
    {
        k += 1;
    }
    k
}

fn count_digits_exec(t: &[u8]) -> (r: usize)
    ensures
        r == count_digits(t@, 0),
        r <= t@.len(),
{
    let mut k: usize = 0;
    while k < t.len() && 48 <= t[k] && t[k] <= 57
        invariant
            k <= t@.len(),
            count_digits(t@, 0) == k + count_digits(t@, k as int),
        decreases t@.len() - k,
    {
        k += 1;
    }
    k
}

fn heading_level_exec(t: &[u8]) -> (r: Option<usize>)
    ensures
        match r {
            Some(h) => heading_level(t@) == Some(h as int),
            None => heading_level(t@) is None,
        },
{
    let h = count_lead_exec(t, 35);
    if 1 <= h && h <= 6 && h < t.len() && t[h] == 32 {
        Some(h)
    } else {
        None
    }
}

fn rule_scan_exec(l: &[u8], c: u8) -> (r: bool)
    ensures
        r == rule_scan(l@, 0, c, 0),
{
    let len = l.len();
    let mut i: usize = 0;
    let mut n: usize = 0;
    while i < len
        invariant
            len == l@.len(),
            i <= len,
            n <= i,
            rule_scan(l@, 0, c, 0) == rule_scan(l@, i as int, c, n as int),
        decreases len - i,
    {
        let w = ws_len(l, i, len);
        if w > 0 {
            i = i + w;
        } else if l[i] == c {
            i = i + 1;
            n = n + 1;
        } else {
            return false;
        }
    }
    n >= 3
}

fn is_rule_exec(l: &[u8]) -> (r: bool)
    ensures
        r == is_rule(l@),
{
    rule_scan_exec(l, 45) || rule_scan_exec(l, 42) || rule_scan_exec(l, 95)
}

fn is_table_delimiter_exec(l: &[u8]) -> (r: bool)
    ensures
        r == is_table_delimiter(l@),
{
    let t = trim_slice(l);
    if t.len() == 0 || t[0] != 124 {
        return false;
    }
    let mut dash = false;
    let mut k: usize = 0;
    while k < t.len()
        invariant
            t@ == trimmed(l@),
            k <= t@.len(),
            forall|j: int| 0 <= j < k ==> (#[trigger] t@[j] == 45 || t@[j] == 58 || t@[j] == 124
                || t@[j] == 32),
            dash <==> exists|j: int| 0 <= j < k && #[trigger] t@[j] == 45,
        decreases t@.len() - k,
    {
        let x = t[k];
        if !(x == 45 || x == 58 || x == 124 || x == 32) {
            return false;
        }
        if x == 45 {
            dash = true;
        }
        k += 1;
    }
    dash
}

fn is_list_item_exec(l: &[u8]) -> (r: bool)
    ensures
        r == is_list_item(l@),
    decreases l@.len(),
{
    let rest = tstart_slice(l);
    proof {
        lemma_trim_start_bounds(l@, 0, l@.len() as int);
    }
    if rest.len() == 0 {
        return false;
    }
    if l.len() - rest.len() >= 8 {
        return false;
    }
    let dash: [u8; 2] = [45, 32];
    let star: [u8; 2] = [42, 32];
    let plus: [u8; 2] = [43, 32];
    let quote: [u8; 2] = [62, 32];
    let dot: [u8; 2] = [46, 32];
    proof {
        assert(dash@ =~= seq![45u8, 32u8]);
        assert(star@ =~= seq![42u8, 32u8]);
        assert(plus@ =~= seq![43u8, 32u8]);
        assert(quote@ =~= seq![62u8, 32u8]);
        assert(dot@ =~= seq![46u8, 32u8]);
    }
    if starts_with_exec(rest, dash.as_slice()) || starts_with_exec(rest, star.as_slice())
        || starts_with_exec(rest, plus.as_slice()) {
        return true;
    }
    if starts_with_exec(rest, quote.as_slice()) {
        return is_list_item_exec(vstd::slice::slice_subrange(rest, 2, rest.len()));
    }
    let d = count_digits_exec(rest);
    1 <= d && d <= 4 && starts_with_exec(vstd::slice::slice_subrange(rest, d, rest.len()), dot.as_slice())
}

fn images_exec(s: &[u8]) -> (r: (Vec<u8>, usize))
    ensures
        r.0@ == images(s@).0,
        r.1 == images(s@).1,
        r.1 <= s@.len(),
    decreases s@.len(),
{
    let bang: [u8; 2] = [33, 91];
    let close: [u8; 2] = [93, 40];
    proof {
        assert(bang@ =~= seq![33u8, 91u8]);
        assert(close@ =~= seq![93u8, 40u8]);
        lemma_find_pat(s@, seq![33u8, 91u8], 0, s@.len() as int);
    }
    match find_pat_idx(s, bang.as_slice(), 0, s.len()) {
        None => (vstd::slice::slice_to_vec(s), 0),
        Some(i) => {
            let after = vstd::slice::slice_subrange(s, i + 2, s.len());
            proof {
                lemma_find_pat(after@, seq![93u8, 40u8], 0, after@.len() as int);
            }
            match find_pat_idx(after, close.as_slice(), 0, after.len()) {
                None => (vstd::slice::slice_to_vec(s), 0),
                Some(e) => {
                    proof {
                        lemma_find_byte(after@, 41, e + 2, after@.len() as int);
                    }
                    match find_byte_idx(after, 41, e + 2, after.len()) {
                        None => (vstd::slice::slice_to_vec(s), 0),
                        Some(c) => {
                            let (o, n) = images_exec(vstd::slice::slice_subrange(after, c + 1, after.len()));
                            let mut out = vstd::slice::slice_to_vec(vstd::slice::slice_subrange(s, 0, i));
                            out.push(32);
                            let mut k: usize = 0;
                            let ghost head = out@;
                            while k < o.len()
                                invariant
                                    k <= o@.len(),
                                    out@ == head + o@.subrange(0, k as int),
                                decreases o@.len() - k,
                            {
                                out.push(o[k]);
                                proof {
                                    assert(o@.subrange(0, k + 1) =~= o@.subrange(0, k as int).push(o@[k as int]));
                                }
                                k += 1;
                            }
                            proof {
                                assert(o@.subrange(0, o@.len() as int) =~= o@);
                            }
                            (out, n + 1)
                        },
                    }
                },
            }
        },
    }
}

fn image_only_exec(l: &[u8]) -> (r: bool)
    ensures
        r == image_only(l@),
{
    let (stripped, n) = images_exec(l);
    n > 0 && trim_slice(stripped.as_slice()).len() == 0
}

fn indented_exec(l: &[u8]) -> (r: bool)
    ensures
        r == indented(l@),
{
    let four: [u8; 4] = [32, 32, 32, 32];
    proof {
        assert(four@ =~= seq![32u8, 32u8, 32u8, 32u8]);
    }
    starts_with_exec(l, four.as_slice()) || starts_with_byte(l, 9)
}

fn para_break_exec(l: &[u8], prev: bool) -> (r: bool)
    ensures
        r == para_break(l@, prev),
{
    let t = tstart_slice(l);
    trim_slice(l).len() == 0 || fence_exec(t) || heading_level_exec(t).is_some() || is_rule_exec(l)
        || is_list_item_exec(t) || starts_with_byte(t, 62) || starts_with_byte(t, 124) || (
    indented_exec(l) && prev) || image_only_exec(l)
}

/// The kinds of scans that end a run of lines.
enum Run {
    Fence,
    Pipe,
    List,
    Quote,
    Indent,
    Para(bool),
}

spec fn run_end(ls: Seq<Seq<u8>>, j: int, run: Run) -> int {
    match run {
        Run::Fence => fence_end(ls, j),
        Run::Pipe => pipe_end(ls, j),
        Run::List => list_end(ls, j),
        Run::Quote => quote_end(ls, j),
        Run::Indent => indent_end(ls, j),
        Run::Para(prev) => para_end(ls, j, prev),
    }
}

/// Whether the line `l` ends a run of kind `run` (for a fence: closes it).
fn run_stops(l: &[u8], run: &Run) -> (r: bool)
    ensures
        r == match *run {
            Run::Fence => fence_line(tstart(l@)),
            Run::Pipe => !starts_with(tstart(l@), seq![124u8]),
            Run::List => !is_list_item(tstart(l@)),
            Run::Quote => !starts_with(tstart(l@), seq![62u8]),
            Run::Indent => trimmed(l@).len() == 0 || !indented(l@),
            Run::Para(prev) => para_break(l@, prev),
        },
{
    match run {
        Run::Fence => fence_exec(tstart_slice(l)),
        Run::Pipe => !starts_with_byte(tstart_slice(l), 124),
        Run::List => !is_list_item_exec(tstart_slice(l)),
        Run::Quote => !starts_with_byte(tstart_slice(l), 62),
        Run::Indent => trim_slice(l).len() == 0 || !indented_exec(l),
        Run::Para(prev) => para_break_exec(l, *prev),
    }
}

/// Where a run of kind `run` that goes on at line `j` ends.
fn run_end_exec(ls: &Vec<&[u8]>, j: usize, run: Run) -> (r: usize)
    requires
        j <= ls@.len(),
    ensures
        r == run_end(lines_view(ls@), j as int, run),
        j <= r <= ls@.len(),
{
    let ghost lv = lines_view(ls@);
    proof {
        lemma_ends(lv, j as int, false);
        lemma_ends(lv, j as int, true);
    }
    let mut k = j;
    while k < ls.len()
        invariant
            j <= k <= ls@.len(),
            lv == lines_view(ls@),
            run_end(lv, j as int, run) == run_end(lv, k as int, run),
        decreases ls@.len() - k,
    {
        proof {
            assert(lv[k as int] == ls@[k as int]@);
        }
        if run_stops(ls[k], &run) {
            match run {
                Run::Fence => {
                    return k + 1;
                },
                _ => {
                    return k;
                },
            }
        }
        k += 1;
    }
    k
}

fn range_vec(i: usize, e: usize) -> (r: Vec<usize>)
    requires
        i <= e,
    ensures
        r@ == line_range(i as int, e as int),
{
    let mut v: Vec<usize> = Vec::new();
    let mut k = i;
    while k < e
        invariant
            i <= k <= e,
            v@ == line_range(i as int, k as int),
        decreases e - k,
    {
        v.push(k);
        proof {
            assert(v@ =~= line_range(i as int, k + 1));
        }
        k += 1;
    }
    v
}

fn any_delimiter_exec(ls: &Vec<&[u8]>, a: usize, b: usize) -> (r: bool)
    requires
        a <= b <= ls@.len(),
    ensures
        r == any_delimiter(lines_view(ls@), a as int, b as int),
{
    let ghost lv = lines_view(ls@);
    let mut k = a;
    while k < b
        invariant
            a <= k <= b <= ls@.len(),
            lv == lines_view(ls@),
            forall|j: int| a <= j < k ==> !is_table_delimiter(#[trigger] lv[j]),
        decreases b - k,
    {
        proof {
            assert(lv[k as int] == ls@[k as int]@);
        }
        if is_table_delimiter_exec(ls[k]) {
            return true;
        }
        k += 1;
    }
    false
}

/// The blocks of a note body (see [`blocks_from`]).
pub fn split_blocks(body: &str) -> (r: Vec<Block>)
    ensures
        r@.map_values(|b: Block| block_view(b)) == body_blocks(body.spec_bytes()),
{
    let ls = split_lines(body.as_bytes());
    let ghost lv = lines_view(ls@);
    let n = ls.len();
    let mut out: Vec<Block> = Vec::new();
    let mut i: usize = 0;
    let mut fence = false;
    let mut prev = true;
    proof {
        assert(out@.map_values(|b: Block| block_view(b)) + blocks_from(lv, 0, false, true) =~= blocks_from(
            lv,
            0,
            false,
            true,
        ));
    }
    while i < n
        invariant
            n == ls@.len(),
            lv == lines_view(ls@),
            lv == lines_from(body.spec_bytes(), 0),
            i <= n,
            out@.map_values(|b: Block| block_view(b)) + blocks_from(lv, i as int, fence, prev)
                == blocks_from(lv, 0, false, true),
        decreases n - i, if fence {
            0int
        } else {
            1int
        },
    {
        let ghost before = out@.map_values(|b: Block| block_view(b));
        let ghost i0 = i as int;
        let ghost f0 = fence;
        let ghost p0 = prev;
        proof {
            lemma_ends(lv, i + 1, prev);
            assert(lv[i as int] == ls@[i as int]@);
        }
        if fence {
            let e = run_end_exec(&ls, i + 1, Run::Fence);
            out.push(Block::Code { lines: range_vec(i, e) });
            i = e;
            fence = false;
            prev = true;
        } else {
            let l = ls[i];
            let t = tstart_slice(l);
            if trim_slice(l).len() == 0 {
                out.push(Block::Blank);
                i = i + 1;
                prev = true;
            } else if fence_exec(t) {
                fence = true;
                prev = false;
            } else {
                let h = heading_level_exec(t);
                if h.is_some() {
                    out.push(Block::Heading { level: h.unwrap(), line: i });
                    i = i + 1;
                    prev = false;
                } else if is_rule_exec(l) {
                    out.push(Block::Rule { line: i });
                    i = i + 1;
                    prev = false;
                } else {
                    let pipe = starts_with_byte(t, 124);
                    let mut table_end: usize = i;
                    let mut is_table = false;
                    if pipe {
                        let j = run_end_exec(&ls, i + 1, Run::Pipe);
                        if any_delimiter_exec(&ls, i, j) {
                            is_table = true;
                            table_end = j;
                        }
                    }
                    if is_table {
                        out.push(Block::Table { lines: range_vec(i, table_end) });
                        i = table_end;
                        prev = false;
                    } else if is_list_item_exec(t) {
                        let j = run_end_exec(&ls, i + 1, Run::List);
                        out.push(Block::List { lines: range_vec(i, j) });
                        i = j;
                        prev = false;
                    } else if starts_with_byte(t, 62) {
                        let j = run_end_exec(&ls, i + 1, Run::Quote);
                        out.push(Block::Quote { lines: range_vec(i, j) });
                        i = j;
                        prev = false;
                    } else if image_only_exec(l) {
                        let mut one: Vec<usize> = Vec::new();
                        one.push(i);
                        proof {
                            assert(one@ =~= seq![i]);
                        }
                        out.push(Block::Image { lines: one });
                        i = i + 1;
                        prev = false;
                    } else if indented_exec(l) && prev {
                        let j = run_end_exec(&ls, i + 1, Run::Indent);
                        out.push(Block::Code { lines: range_vec(i, j) });
                        i = j;
                        prev = true;
                    } else {
                        let j = run_end_exec(&ls, i + 1, Run::Para(prev));
                        out.push(Block::Paragraph { lines: range_vec(i, j) });
                        i = j;
                        prev = false;
                    }
                }
            }
        }
        proof {
            assert(before + blocks_from(lv, i0, f0, p0) =~= out@.map_values(|b: Block| block_view(b))
                + blocks_from(lv, i as int, fence, prev));
        }
    }
    proof {
        assert(blocks_from(lv, i as int, fence, prev) =~= Seq::<BlockV>::empty());
        assert(out@.map_values(|b: Block| block_view(b)) =~= blocks_from(lv, 0, false, true));
    }
    out
}

/// What [`hash_text`] gives for a text.
pub uninterp spec fn text_hash(s: Seq<char>) -> u64;

/// Fast hash to detect text changes.
///
/// Calls `str::hash` with a `DefaultHasher::new()`, whose documentation
/// promises the same result for the same input from every hasher made by
/// `new`; the contract claims only that the hash is a function of the text.
#[verifier::external_body]
pub fn hash_text(s: &str) -> (r: u64)
    ensures
        r == text_hash(s@),
{
    let mut h = DefaultHasher::new();
    s.hash(&mut h);
    h.finish()
}

/// Split the `![alt](url)` images out of a line: the line with each image
/// replaced by a space, and the number of images.
pub fn split_images(s: &str) -> (r: (String, usize))
    ensures
        encode_utf8(r.0@) == images(s.spec_bytes()).0,
        r.1 == images(s.spec_bytes()).1,
{
    let (v, n) = images_exec(s.as_bytes());
    proof {
        encode_utf8_valid_utf8(s@);
        lemma_images_valid(s.spec_bytes());
    }
    (string_of(v.as_slice()), n)
}

/// Replacing images in valid UTF-8 keeps it valid.
pub proof fn lemma_images_valid(s: Seq<u8>)
    requires
        valid_utf8(s),
    ensures
        valid_utf8(images(s).0),
    decreases s.len(),
{
    broadcast use is_char_boundary_start_end_of_seq;

    lemma_find_pat(s, seq![33u8, 91u8], 0, s.len() as int);
    match find_pat(s, seq![33u8, 91u8], 0, s.len() as int) {
        None => {},
        Some(i) => {
            let after = s.subrange(i + 2, s.len() as int);
            lemma_find_pat(after, seq![93u8, 40u8], 0, after.len() as int);
            match find_pat(after, seq![93u8, 40u8], 0, after.len() as int) {
                None => {},
                Some(e) => {
                    lemma_find_byte(after, 41, e + 2, after.len() as int);
                    match find_byte(after, 41, e + 2, after.len() as int) {
                        None => {},
                        Some(c) => {
                            let j0: int = 0;
                            let j1: int = 1;
                            assert(s[i + j0] == seq![33u8, 91u8][j0]);
                            assert(s[i + j1] == seq![33u8, 91u8][j1]);
                            lemma_ascii_boundary(s, i);
                            lemma_ascii_boundary(s, i + 2);
                            lemma_valid_sub(s, i + 2, s.len() as int);
                            lemma_ascii_boundary(after, c + 1);
                            lemma_valid_sub(after, c + 1, after.len() as int);
                            lemma_images_valid(after.subrange(c + 1, after.len() as int));
                            lemma_valid_sub(s, 0, i);
                            lemma_ascii_valid(seq![32u8]);
                            valid_utf8_concat(s.subrange(0, i), seq![32u8]);
                            assert(s.subrange(0, i).push(32) =~= s.subrange(0, i) + seq![32u8]);
                            valid_utf8_concat(
                                s.subrange(0, i).push(32),
                                images(after.subrange(c + 1, after.len() as int)).0,
                            );
                        },
                    }
                },
            }
        },
    }
}

// ---------------------------------------------------------------------------
// The texts the preview measures
// ---------------------------------------------------------------------------

/// The byte offsets at which the pieces of `b[pos..]` between newlines start
/// (see [`lines_from`]).
pub open spec fn line_starts_from(b: Seq<u8>, pos: int) -> Seq<usize>
    decreases b.len() + 1 - pos,
{
    if pos < 0 || pos > b.len() {
        seq![]
    } else {
        let e = match find_byte(b, 10, pos, b.len() as int) {
            Some(k) => k,
            None => b.len() as int,
        };
        proof {
            lemma_find_byte(b, 10, pos, b.len() as int);
        }
        seq![pos as usize] + if e < b.len() {
            line_starts_from(b, e + 1)
        } else {
            seq![]
        }
    }
}

/// The byte offset at which each line of `body` starts.
pub fn line_offsets(body: &str) -> (r: Vec<usize>)
    ensures
        r@ == line_starts_from(body.spec_bytes(), 0),
{
    let b = body.as_bytes();
    let len = b.len();
    let mut out: Vec<usize> = Vec::new();
    let mut pos: usize = 0;
    proof {
        assert(out@ + line_starts_from(b@, 0) =~= line_starts_from(b@, 0));
    }
    loop
        invariant
            len == b@.len(),
            b@ == body.spec_bytes(),
            pos <= len,
            out@ + line_starts_from(b@, pos as int) == line_starts_from(b@, 0),
        decreases len + 1 - pos,
    {
        let ghost before = out@;
        proof {
            lemma_find_byte(b@, 10, pos as int, len as int);
        }
        let e = match find_byte_idx(b, 10, pos, len) {
            Some(k) => k,
            None => len,
        };
        out.push(pos);
        if e < len {
            proof {
                assert(before + line_starts_from(b@, pos as int) =~= out@ + line_starts_from(b@, e + 1));
            }
            pos = e + 1;
        } else {
            proof {
                assert(line_starts_from(b@, pos as int) =~= seq![pos as usize]);
                assert(out@ =~= before + line_starts_from(b@, pos as int));
            }
            return out;
        }
    }
}

/// The text of a heading line whose marker is `level` bytes long: the line
/// after its first `level` bytes (or none of it when it is shorter), trimmed.
pub fn heading_text(line: &str, level: usize) -> (r: &str)
    requires
        is_char_boundary(
            line.spec_bytes(),
            if level < line.spec_bytes().len() {
                level as int
            } else {
                line.spec_bytes().len() as int
            },
        ),
    ensures
        r.spec_bytes() == trimmed(
            line.spec_bytes().subrange(
                if level < line.spec_bytes().len() {
                    level as int
                } else {
                    line.spec_bytes().len() as int
                },
                line.spec_bytes().len() as int,
            ),
        ),
{
    let b = line.as_bytes();
    let len = b.len();
    let k = if level < len {
        level
    } else {
        len
    };
    proof {
        encode_utf8_valid_utf8(line@);
        is_char_boundary_start_end_of_seq(b@);
        lemma_trim_sub(b@, k as int, len as int);
    }
    let lo = trim_start_idx(b, k, len);
    let hi = trim_end_idx(b, lo, len);
    proof {
        lemma_trim_start_boundary(b@, k as int, len as int);
        lemma_trim_end_boundary(b@, lo as int, len as int);
    }
    substr(line, lo, hi)
}

/// First offset from `i` on whose byte is neither `>` nor a space.
pub open spec fn skip_quote(t: Seq<u8>, i: int) -> int
    decreases t.len() - i,
{
    if 0 <= i < t.len() && (t[i] == 62 || t[i] == 32) {
        skip_quote(t, i + 1)
    } else {
        i
    }
}

/// The text of a quote line: trimmed at the start, then without its leading
/// `>` and spaces.
pub open spec fn quote_rest(l: Seq<u8>) -> Seq<u8> {
    let t = tstart(l);
    t.subrange(skip_quote(t, 0), t.len() as int)
}

/// The text of a quote line (see [`quote_rest`]).
pub fn quote_text(line: &str) -> (r: &str)
    ensures
        r.spec_bytes() == quote_rest(line.spec_bytes()),
{
    let b = line.as_bytes();
    let len = b.len();
    proof {
        encode_utf8_valid_utf8(line@);
        is_char_boundary_start_end_of_seq(b@);
        lemma_trim_start_bounds(b@, 0, len as int);
        lemma_trim_start_boundary(b@, 0, len as int);
    }
    let k0 = trim_start_idx(b, 0, len);
    let ghost t = b@.subrange(k0 as int, len as int);
    let mut k = k0;
    while k < len && (b[k] == 62 || b[k] == 32)
        invariant
            k0 <= k <= len == b@.len(),
            t == b@.subrange(k0 as int, len as int),
            skip_quote(t, 0) == skip_quote(t, k - k0),
            k > k0 ==> b@[k - 1] < 0x80,
        decreases len - k,
    {
        proof {
            assert(t[k - k0] == b@[k as int]);
        }
        k += 1;
    }
    proof {
        if k < len {
            assert(t[k - k0] == b@[k as int]);
        }
        if k > k0 {
            lemma_ascii_boundary(b@, k as int);
        }
        assert(t.subrange(k - k0, t.len() as int) =~= b@.subrange(k as int, len as int));
    }
    substr(line, k, len)
}

/// Whether a line, trimmed at the start, opens or closes a code fence.
pub fn fence_marker(line: &str) -> (r: bool)
    ensures
        r == fence_line(tstart(line.spec_bytes())),
{
    fence_exec(tstart_slice(line.as_bytes()))
}

/// The first offset from `k` on at which whitespace starts, or the end.
pub open spec fn word_end(b: Seq<u8>, k: int) -> int
    decreases b.len() - k,
{
    if k < 0 || k >= b.len() || ws_len_at(b, k, b.len() as int) > 0 {
        k
    } else {
        word_end(b, k + 1)
    }
}

pub proof fn lemma_word_end(b: Seq<u8>, k: int)
    requires
        0 <= k <= b.len(),
    ensures
        k <= word_end(b, k) <= b.len(),
        word_end(b, k) < b.len() ==> ws_len_at(b, word_end(b, k), b.len() as int) > 0,
    decreases b.len() - k,
{
    if k < b.len() && ws_len_at(b, k, b.len() as int) == 0 {
        lemma_word_end(b, k + 1);
    }
}

/// The words of `b[i..]`: the runs between whitespace, in order
/// (`str::split_whitespace`).
pub open spec fn words_from(b: Seq<u8>, i: int) -> Seq<Seq<u8>>
    decreases b.len() - i,
{
    if i < 0 || i > b.len() {
        seq![]
    } else {
        let s = trim_start_at(b, i, b.len() as int);
        proof {
            lemma_trim_start_bounds(b, i, b.len() as int);
        }
        if s >= b.len() {
            seq![]
        } else {
            let e = word_end(b, s + 1);
            proof {
                lemma_word_end(b, s + 1);
            }
            seq![b.subrange(s, e)] + words_from(b, e)
        }
    }
}

/// Words joined by single spaces.
pub open spec fn join_words(ws: Seq<Seq<u8>>) -> Seq<u8>
    decreases ws.len(),
{
    if ws.len() == 0 {
        seq![]
    } else if ws.len() == 1 {
        ws[0]
    } else {
        ws[0] + seq![32u8] + join_words(ws.drop_first())
    }
}

/// `acc` followed by the words `ws`, a space between any two.
pub open spec fn join_after(acc: Seq<u8>, ws: Seq<Seq<u8>>) -> Seq<u8> {
    if ws.len() == 0 {
        acc
    } else if acc.len() == 0 {
        join_words(ws)
    } else {
        acc + seq![32u8] + join_words(ws)
    }
}

/// The words of `s` joined by single spaces (`split_whitespace` and
/// `join(" ")`).
pub fn words_joined(s: &str) -> (r: String)
    ensures
        encode_utf8(r@) == join_words(words_from(s.spec_bytes(), 0)),
{
    let b = s.as_bytes();
    let len = b.len();
    let mut out: Vec<u8> = Vec::new();
    let mut i: usize = 0;
    proof {
        encode_utf8_valid_utf8(s@);
        is_char_boundary_start_end_of_seq(b@);
        lemma_ascii_valid(out@);
    }
    loop
        invariant
            len == b@.len(),
            b@ == s.spec_bytes(),
            i <= len,
            valid_utf8(b@),
            is_char_boundary(b@, i as int),
            is_char_boundary(b@, len as int),
            valid_utf8(out@),
            join_after(out@, words_from(b@, i as int)) == join_words(words_from(b@, 0)),
        ensures
            valid_utf8(out@),
            out@ == join_words(words_from(b@, 0)),
        decreases len - i,
    {
        proof {
            lemma_trim_start_bounds(b@, i as int, len as int);
            lemma_trim_start_boundary(b@, i as int, len as int);
        }
        let st = trim_start_idx(b, i, len);
        if st >= len {
            proof {
                assert(words_from(b@, i as int) =~= Seq::<Seq<u8>>::empty());
            }
            break;
        }
        let mut e = st + 1;
        proof {
            lemma_word_end(b@, st + 1);
        }
        while e < len && ws_len(b, e, len) == 0
            invariant
                st < e <= len == b@.len(),
                word_end(b@, st + 1) == word_end(b@, e as int),
            decreases len - e,
        {
            e += 1;
        }
        proof {
            if e < len {
                assert(ws_len_at(b@, e as int, len as int) > 0);
                assert(!is_continuation_byte(b@[e as int]));
                lemma_boundary(b@, e as int);
            }
            lemma_valid_sub(b@, st as int, e as int);
        }
        let ghost w = b@.subrange(st as int, e as int);
        let ghost rest = words_from(b@, e as int);
        let ghost o0 = out@;
        proof {
            assert(words_from(b@, i as int) == seq![w] + rest);
        }
        if out.len() > 0 {
            out.push(32u8);
            proof {
                lemma_ascii_valid(seq![32u8]);
                valid_utf8_concat(o0, seq![32u8]);
                assert(out@ =~= o0 + seq![32u8]);
            }
        }
        let ghost o1 = out@;
        push_range(&mut out, b, st, e);
        proof {
            valid_utf8_concat(o1, w);
            let ws = seq![w] + rest;
            assert(ws[0] == w);
            assert(ws.drop_first() =~= rest);
            if rest.len() == 0 {
                assert(ws.len() == 1);
            }
            if o0.len() == 0 {
                assert(out@ =~= w);
            } else {
                assert(out@ =~= o0 + seq![32u8] + w);
                if rest.len() > 0 {
                    assert(o0 + seq![32u8] + join_words(ws) =~= out@ + seq![32u8] + join_words(rest));
                }
            }
        }
        i = e;
    }
    string_of(out.as_slice())
}

} // verus!

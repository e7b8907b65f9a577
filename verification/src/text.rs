//! Byte-level text primitives shared by the Markdown modules: Unicode
//! whitespace trimming on UTF-8 bytes, searching for bytes and byte patterns,
//! cutting a `str` at character boundaries, and turning verified byte
//! buffers into `String`s.

use std::path::{Path, PathBuf};

use vstd::prelude::*;
use vstd::string::{StrSliceExecFns, StringSliceAdditionalSpecFns};
use vstd::utf8::*;

verus! {

/// ASCII whitespace as `char::is_whitespace` sees it: `\t`, `\n`, VT, FF, `\r` and space.
pub open spec fn is_ascii_ws(c: u8) -> bool {
    c == 9 || c == 10 || c == 11 || c == 12 || c == 13 || c == 32
}

/// The three-byte UTF-8 encodings of Unicode `White_Space` characters:
/// U+1680, U+2000..=U+200A, U+2028, U+2029, U+202F, U+205F and U+3000.
pub open spec fn is_ws3(x: u8, y: u8, z: u8) -> bool {
    ||| (x == 0xE1 && y == 0x9A && z == 0x80)
    ||| (x == 0xE2 && y == 0x80 && ((0x80 <= z && z <= 0x8A) || z == 0xA8 || z == 0xA9 || z
        == 0xAF))
    ||| (x == 0xE2 && y == 0x81 && z == 0x9F)
    ||| (x == 0xE3 && y == 0x80 && z == 0x80)
}

/// The two-byte UTF-8 encodings of Unicode `White_Space` characters: U+0085 and U+00A0.
pub open spec fn is_ws2(x: u8, y: u8) -> bool {
    x == 0xC2 && (y == 0x85 || y == 0xA0)
}

/// Length in bytes of the whitespace character whose encoding starts at `i`
/// and ends at or before `hi`; 0 when there is none.
pub open spec fn ws_len_at(b: Seq<u8>, i: int, hi: int) -> int {
    if 0 <= i < hi && is_ascii_ws(b[i]) {
        1
    } else if 0 <= i && i + 2 <= hi && is_ws2(b[i], b[i + 1]) {
        2
    } else if 0 <= i && i + 3 <= hi && is_ws3(b[i], b[i + 1], b[i + 2]) {
        3
    } else {
        0
    }
}

/// Length in bytes of the whitespace character whose encoding ends at `j`
/// and starts at or after `lo`; 0 when there is none.
pub open spec fn ws_len_before(b: Seq<u8>, lo: int, j: int) -> int {
    if lo < j && is_ascii_ws(b[j - 1]) {
        1
    } else if lo + 2 <= j && is_ws2(b[j - 2], b[j - 1]) {
        2
    } else if lo + 3 <= j && is_ws3(b[j - 3], b[j - 2], b[j - 1]) {
        3
    } else {
        0
    }
}

/// Where `str::trim_start` leaves the range `[lo, hi)` of `b`.
pub open spec fn trim_start_at(b: Seq<u8>, lo: int, hi: int) -> int
    decreases hi - lo,
{
    if lo < hi && ws_len_at(b, lo, hi) > 0 {
        trim_start_at(b, lo + ws_len_at(b, lo, hi), hi)
    } else {
        lo
    }
}

/// Where `str::trim_end` leaves the range `[lo, hi)` of `b`.
pub open spec fn trim_end_at(b: Seq<u8>, lo: int, hi: int) -> int
    decreases hi - lo,
{
    if lo < hi && ws_len_before(b, lo, hi) > 0 {
        trim_end_at(b, lo, hi - ws_len_before(b, lo, hi))
    } else {
        hi
    }
}

/// First index `k` in `[from, to)` with `b[k] == c`.
pub open spec fn find_byte(b: Seq<u8>, c: u8, from: int, to: int) -> Option<int>
    decreases to - from,
{
    if from >= to {
        None
    } else if b[from] == c {
        Some(from)
    } else {
        find_byte(b, c, from + 1, to)
    }
}

/// `pat` occurs in `b` at `k`.
pub open spec fn occurs_at(b: Seq<u8>, pat: Seq<u8>, k: int) -> bool {
    0 <= k && k + pat.len() <= b.len() && forall|j: int|
        0 <= j < pat.len() ==> #[trigger] b[k + j] == pat[j]
}

/// First index `k >= from` with `k + pat.len() <= to` at which `pat` occurs in `b`.
pub open spec fn find_pat(b: Seq<u8>, pat: Seq<u8>, from: int, to: int) -> Option<int>
    decreases to - from,
{
    if from + pat.len() > to || from >= to {
        None
    } else if occurs_at(b, pat, from) {
        Some(from)
    } else {
        find_pat(b, pat, from + 1, to)
    }
}

/// Index `k` of a valid UTF-8 sequence `b` on which the sequence can be cut:
/// its ends, or a byte that does not continue a multi-byte character.
pub open spec fn at_boundary(b: Seq<u8>, k: int) -> bool {
    k == 0 || k == b.len() || (0 < k < b.len() && (!is_continuation_byte(b[k]) || b[k - 1] < 0x80))
}

pub proof fn lemma_trim_start_bounds(b: Seq<u8>, lo: int, hi: int)
    requires
        lo <= hi,
    ensures
        lo <= trim_start_at(b, lo, hi) <= hi,
    decreases hi - lo,
{
    if lo < hi && ws_len_at(b, lo, hi) > 0 {
        lemma_trim_start_bounds(b, lo + ws_len_at(b, lo, hi), hi);
    }
}

pub proof fn lemma_trim_end_bounds(b: Seq<u8>, lo: int, hi: int)
    requires
        lo <= hi,
    ensures
        lo <= trim_end_at(b, lo, hi) <= hi,
    decreases hi - lo,
{
    if lo < hi && ws_len_before(b, lo, hi) > 0 {
        lemma_trim_end_bounds(b, lo, hi - ws_len_before(b, lo, hi));
    }
}

pub proof fn lemma_find_byte(b: Seq<u8>, c: u8, from: int, to: int)
    requires
        0 <= from,
        to <= b.len(),
    ensures
        match find_byte(b, c, from, to) {
            Some(k) => from <= k < to && b[k] == c && forall|j: int| from <= j < k ==> b[j] != c,
            None => forall|j: int| from <= j < to ==> b[j] != c,
        },
    decreases to - from,
{
    if from < to && b[from] != c {
        lemma_find_byte(b, c, from + 1, to);
    }
}

pub proof fn lemma_find_pat(b: Seq<u8>, pat: Seq<u8>, from: int, to: int)
    requires
        0 <= from,
        to <= b.len(),
    ensures
        match find_pat(b, pat, from, to) {
            Some(k) => from <= k && k + pat.len() <= to && k < to && occurs_at(b, pat, k)
                && forall|j: int| from <= j < k ==> !occurs_at(b, pat, j),
            None => forall|j: int| from <= j && j + pat.len() <= to && j < to ==> !occurs_at(b, pat, j),
        },
    decreases to - from,
{
    if !(from + pat.len() > to || from >= to) && !occurs_at(b, pat, from) {
        lemma_find_pat(b, pat, from + 1, to);
    }
}

/// `str::trim_start` on the byte range `[lo, hi)`.
pub fn trim_start_idx(b: &[u8], lo: usize, hi: usize) -> (r: usize)
    requires
        lo <= hi <= b@.len(),
    ensures
        r == trim_start_at(b@, lo as int, hi as int),
        lo <= r <= hi,
{
    let mut i = lo;
    proof {
        lemma_trim_start_bounds(b@, lo as int, hi as int);
    }
    loop
        invariant
            lo <= i <= hi <= b@.len(),
            trim_start_at(b@, lo as int, hi as int) == trim_start_at(b@, i as int, hi as int),
        decreases hi - i,
    {
        let n = ws_len(b, i, hi);
        if n == 0 {
            return i;
        }
        i = i + n;
    }
}

/// `str::trim_end` on the byte range `[lo, hi)`.
pub fn trim_end_idx(b: &[u8], lo: usize, hi: usize) -> (r: usize)
    requires
        lo <= hi <= b@.len(),
    ensures
        r == trim_end_at(b@, lo as int, hi as int),
        lo <= r <= hi,
{
    let mut j = hi;
    proof {
        lemma_trim_end_bounds(b@, lo as int, hi as int);
    }
    loop
        invariant
            lo <= j <= hi <= b@.len(),
            trim_end_at(b@, lo as int, hi as int) == trim_end_at(b@, lo as int, j as int),
        decreases j - lo,
    {
        let n = ws_len_back(b, lo, j);
        if n == 0 {
            return j;
        }
        j = j - n;
    }
}

pub fn ws_len(b: &[u8], i: usize, hi: usize) -> (r: usize)
    requires
        i <= hi <= b@.len(),
    ensures
        r == ws_len_at(b@, i as int, hi as int),
        r <= 3,
        i + r <= hi,
{
    if i < hi {
        let x = b[i];
        if x == 9 || x == 10 || x == 11 || x == 12 || x == 13 || x == 32 {
            return 1;
        }
    }
    if hi - i >= 2 {
        let x = b[i];
        let y = b[i + 1];
        if x == 0xC2 && (y == 0x85 || y == 0xA0) {
            return 2;
        }
    }
    if hi - i >= 3 {
        let x = b[i];
        let y = b[i + 1];
        let z = b[i + 2];
        if (x == 0xE1 && y == 0x9A && z == 0x80) || (x == 0xE2 && y == 0x80 && ((0x80 <= z && z
            <= 0x8A) || z == 0xA8 || z == 0xA9 || z == 0xAF)) || (x == 0xE2 && y == 0x81 && z
            == 0x9F) || (x == 0xE3 && y == 0x80 && z == 0x80) {
            return 3;
        }
    }
    0
}

fn ws_len_back(b: &[u8], lo: usize, j: usize) -> (r: usize)
    requires
        lo <= j <= b@.len(),
    ensures
        r == ws_len_before(b@, lo as int, j as int),
        r <= 3,
        lo + r <= j,
{
    if lo < j {
        let x = b[j - 1];
        if x == 9 || x == 10 || x == 11 || x == 12 || x == 13 || x == 32 {
            return 1;
        }
    }
    if j - lo >= 2 {
        let x = b[j - 2];
        let y = b[j - 1];
        if x == 0xC2 && (y == 0x85 || y == 0xA0) {
            return 2;
        }
    }
    if j - lo >= 3 {
        let x = b[j - 3];
        let y = b[j - 2];
        let z = b[j - 1];
        if (x == 0xE1 && y == 0x9A && z == 0x80) || (x == 0xE2 && y == 0x80 && ((0x80 <= z && z
            <= 0x8A) || z == 0xA8 || z == 0xA9 || z == 0xAF)) || (x == 0xE2 && y == 0x81 && z
            == 0x9F) || (x == 0xE3 && y == 0x80 && z == 0x80) {
            return 3;
        }
    }
    0
}

/// First index of byte `c` in `[from, to)`.
pub fn find_byte_idx(b: &[u8], c: u8, from: usize, to: usize) -> (r: Option<usize>)
    requires
        from <= to <= b@.len(),
    ensures
        r matches Some(k) ==> find_byte(b@, c, from as int, to as int) == Some(k as int) && from
            <= k < to,
        r is None ==> find_byte(b@, c, from as int, to as int) is None,
{
    let mut i = from;
    while i < to
        invariant
            from <= i <= to <= b@.len(),
            find_byte(b@, c, from as int, to as int) == find_byte(b@, c, i as int, to as int),
        decreases to - i,
    {
        if b[i] == c {
            return Some(i);
        }
        i = i + 1;
    }
    None
}

/// Whether `pat` occurs in `b` at `k`.
pub fn occurs_at_idx(b: &[u8], pat: &[u8], k: usize) -> (r: bool)
    ensures
        r == occurs_at(b@, pat@, k as int),
{
    if k > b.len() || pat.len() > b.len() - k {
        return false;
    }
    let mut j: usize = 0;
    while j < pat.len()
        invariant
            k + pat@.len() <= b@.len(),
            b@.len() == b.len(),
            j <= pat@.len(),
            forall|t: int| 0 <= t < j ==> #[trigger] b@[k + t] == pat@[t],
        decreases pat@.len() - j,
    {
        if b[k + j] != pat[j] {
            assert(!(b@[k + j as int] == pat@[j as int]));
            return false;
        }
        j = j + 1;
    }
    true
}

/// First occurrence of `pat` at or after `from` that ends at or before `to`.
pub fn find_pat_idx(b: &[u8], pat: &[u8], from: usize, to: usize) -> (r: Option<usize>)
    requires
        from <= to <= b@.len(),
    ensures
        r matches Some(k) ==> find_pat(b@, pat@, from as int, to as int) == Some(k as int) && from
            <= k < to && k + pat@.len() <= to,
        r is None ==> find_pat(b@, pat@, from as int, to as int) is None,
{
    let mut i = from;
    while i < to && pat.len() <= to - i
        invariant
            from <= i <= to <= b@.len(),
            find_pat(b@, pat@, from as int, to as int) == find_pat(b@, pat@, i as int, to as int),
        decreases to - i,
    {
        if occurs_at_idx(b, pat, i) {
            return Some(i);
        }
        i = i + 1;
    }
    None
}

/// Width in bytes of the character whose encoding starts with `x`.
pub open spec fn lead_width(x: u8) -> int {
    if x < 0x80 {
        1
    } else if 0xC0 <= x <= 0xDF {
        2
    } else if 0xE0 <= x <= 0xEF {
        3
    } else {
        4
    }
}

/// After the character that starts on a boundary comes the next boundary.
pub proof fn lemma_boundary_step(b: Seq<u8>, i: int)
    requires
        valid_utf8(b),
        0 <= i < b.len(),
        is_char_boundary(b, i),
    ensures
        i + lead_width(b[i]) <= b.len(),
        is_char_boundary(b, i + lead_width(b[i])),
    decreases b.len(),
{
    let l = length_of_first_scalar(b);
    let p = pop_first_scalar(b);
    assert(valid_utf8(p));
    assert(1 <= l <= 4);
    assert(p.len() == b.len() - l);
    if i == 0 {
        assert(l == lead_width(b[0]));
        assert(is_char_boundary(p, 0));
    } else {
        assert(is_char_boundary(p, i - l));
        assert(i - l >= 0);
        assert(p[i - l] == b[i]);
        lemma_boundary_step(p, i - l);
    }
}

pub proof fn lemma_boundary(b: Seq<u8>, k: int)
    requires
        valid_utf8(b),
        0 <= k <= b.len(),
        at_boundary(b, k),
    ensures
        is_char_boundary(b, k),
{
    broadcast use is_char_boundary_start_end_of_seq, is_char_boundary_iff_not_is_continuation_byte;

    if 0 < k < b.len() {
        if !is_continuation_byte(b[k]) {
        } else {
            assert(b[k - 1] < 0x80);
            assert(!is_continuation_byte(b[k - 1]));
            assert(is_char_boundary(b, k - 1));
            lemma_boundary_step(b, k - 1);
        }
    }
}

pub proof fn lemma_boundary_prefix(b: Seq<u8>, k: int, hi: int)
    requires
        valid_utf8(b),
        0 <= k <= hi <= b.len(),
        is_char_boundary(b, k),
        is_char_boundary(b, hi),
    ensures
        valid_utf8(b.subrange(0, hi)),
        is_char_boundary(b.subrange(0, hi), k),
{
    broadcast use is_char_boundary_start_end_of_seq, is_char_boundary_iff_not_is_continuation_byte;

    valid_utf8_split(b, hi);
    let p = b.subrange(0, hi);
    if 0 < k < hi {
        assert(p[k] == b[k]);
        assert(!is_continuation_byte(b[k]));
    }
}

/// Trimming leading whitespace from a boundary ends on a boundary.
pub proof fn lemma_trim_start_boundary(b: Seq<u8>, lo: int, hi: int)
    requires
        valid_utf8(b),
        0 <= lo <= hi <= b.len(),
        is_char_boundary(b, lo),
    ensures
        is_char_boundary(b, trim_start_at(b, lo, hi)),
    decreases hi - lo,
{
    let w = ws_len_at(b, lo, hi);
    if lo < hi && w > 0 {
        lemma_boundary_step(b, lo);
        assert(w == lead_width(b[lo]));
        lemma_trim_start_boundary(b, lo + w, hi);
    }
}

/// Trimming trailing whitespace ends before a whitespace character or at `hi`.
pub proof fn lemma_trim_end_boundary(b: Seq<u8>, lo: int, hi: int)
    requires
        valid_utf8(b),
        0 <= lo <= hi <= b.len(),
        is_char_boundary(b, lo),
        is_char_boundary(b, hi),
    ensures
        is_char_boundary(b, trim_end_at(b, lo, hi)),
    decreases hi - lo,
{
    broadcast use is_char_boundary_start_end_of_seq, is_char_boundary_iff_not_is_continuation_byte;

    let w = ws_len_before(b, lo, hi);
    if lo < hi && w > 0 {
        let e = hi - w;
        assert(!is_continuation_byte(b[e]));
        assert(is_char_boundary(b, e));
        lemma_trim_end_boundary(b, lo, e);
    }
}

/// The part of `s` between the byte offsets `lo` and `hi`.
pub fn substr(s: &str, lo: usize, hi: usize) -> (r: &str)
    requires
        lo <= hi <= s.spec_bytes().len(),
        is_char_boundary(s.spec_bytes(), lo as int),
        is_char_boundary(s.spec_bytes(), hi as int),
    ensures
        r.spec_bytes() == s.spec_bytes().subrange(lo as int, hi as int),
{
    proof {
        encode_utf8_valid_utf8(s@);
        lemma_boundary_prefix(s.spec_bytes(), lo as int, hi as int);
    }
    let (x, _) = s.split_at(hi);
    proof {
        assert(x.spec_bytes() =~= s.spec_bytes().subrange(0, hi as int));
    }
    let (_, y) = x.split_at(lo);
    proof {
        assert(y.spec_bytes() =~= s.spec_bytes().subrange(lo as int, hi as int));
    }
    y
}

/// The `String` whose UTF-8 encoding is `v`.
///
/// Calls `String::from_utf8`; its documentation promises `Ok` holding exactly
/// the bytes of `v` when they are valid UTF-8, which the `requires` demands,
/// so `unwrap` never fails.
#[verifier::external_body]
pub(crate) fn string_from_utf8(v: Vec<u8>) -> (s: String)
    requires
        valid_utf8(v@),
    ensures
        s@ == decode_utf8(v@),
{
    String::from_utf8(v).unwrap()
}

/// `encode_utf8` distributes over concatenation.
pub proof fn lemma_encode_concat(a: Seq<char>, c: Seq<char>)
    ensures
        encode_utf8(a + c) == encode_utf8(a) + encode_utf8(c),
    decreases a.len(),
{
    if a.len() == 0 {
        assert(a + c =~= c);
        assert(encode_utf8(a) =~= Seq::<u8>::empty());
        assert(encode_utf8(a) + encode_utf8(c) =~= encode_utf8(c));
    } else {
        assert((a + c).drop_first() =~= a.drop_first() + c);
        lemma_encode_concat(a.drop_first(), c);
        assert((a + c)[0] == a[0]);
        assert(encode_utf8(a + c) =~= encode_utf8(a) + encode_utf8(c));
    }
}


/// `str::trim` on the UTF-8 bytes of a string.
pub open spec fn trimmed(b: Seq<u8>) -> Seq<u8> {
    let s = trim_start_at(b, 0, b.len() as int);
    b.subrange(s, trim_end_at(b, s, b.len() as int))
}

proof fn lemma_trim_start_shift(b: Seq<u8>, lo: int, hi: int, x: int)
    requires
        0 <= lo <= x <= hi <= b.len(),
    ensures
        trim_start_at(b.subrange(lo, hi), x - lo, hi - lo) == trim_start_at(b, x, hi) - lo,
    decreases hi - x,
{
    let sub = b.subrange(lo, hi);
    if x < hi {
        assert(sub[x - lo] == b[x]);
    }
    if x + 1 < hi {
        assert(sub[x - lo + 1] == b[x + 1]);
    }
    if x + 2 < hi {
        assert(sub[x - lo + 2] == b[x + 2]);
    }
    assert(ws_len_at(sub, x - lo, hi - lo) == ws_len_at(b, x, hi));
    if x < hi && ws_len_at(b, x, hi) > 0 {
        lemma_trim_start_shift(b, lo, hi, x + ws_len_at(b, x, hi));
    }
}

proof fn lemma_trim_end_shift(b: Seq<u8>, lo: int, hi: int, x: int, y: int)
    requires
        0 <= lo <= x <= y <= hi <= b.len(),
    ensures
        trim_end_at(b.subrange(lo, hi), x - lo, y - lo) == trim_end_at(b, x, y) - lo,
    decreases y - x,
{
    let sub = b.subrange(lo, hi);
    if x < y {
        assert(sub[y - lo - 1] == b[y - 1]);
    }
    if x + 1 < y {
        assert(sub[y - lo - 2] == b[y - 2]);
    }
    if x + 2 < y {
        assert(sub[y - lo - 3] == b[y - 3]);
    }
    assert(ws_len_before(sub, x - lo, y - lo) == ws_len_before(b, x, y));
    if x < y && ws_len_before(b, x, y) > 0 {
        lemma_trim_end_shift(b, lo, hi, x, y - ws_len_before(b, x, y));
    }
}

/// Trimming a range of `b` is cutting `b` where the range trims to.
pub proof fn lemma_trim_sub(b: Seq<u8>, lo: int, hi: int)
    requires
        0 <= lo <= hi <= b.len(),
    ensures
        lo <= trim_start_at(b, lo, hi) <= trim_end_at(b, trim_start_at(b, lo, hi), hi) <= hi,
        trimmed(b.subrange(lo, hi)) == b.subrange(
            trim_start_at(b, lo, hi),
            trim_end_at(b, trim_start_at(b, lo, hi), hi),
        ),
{
    let sub = b.subrange(lo, hi);
    lemma_trim_start_bounds(b, lo, hi);
    let s = trim_start_at(b, lo, hi);
    lemma_trim_end_bounds(b, s, hi);
    let e = trim_end_at(b, s, hi);
    lemma_trim_start_shift(b, lo, hi, lo);
    lemma_trim_end_shift(b, lo, hi, s, hi);
    assert(sub.subrange(s - lo, e - lo) =~= b.subrange(s, e));
}

/// The bytes between two character boundaries of valid UTF-8 are valid UTF-8.
pub proof fn lemma_valid_sub(b: Seq<u8>, lo: int, hi: int)
    requires
        valid_utf8(b),
        0 <= lo <= hi <= b.len(),
        is_char_boundary(b, lo),
        is_char_boundary(b, hi),
    ensures
        valid_utf8(b.subrange(lo, hi)),
{
    lemma_boundary_prefix(b, lo, hi);
    let p = b.subrange(0, hi);
    valid_utf8_split(p, lo);
    assert(p.subrange(lo, p.len() as int) =~= b.subrange(lo, hi));
}

/// Bytes below 0x80 are valid UTF-8.
pub proof fn lemma_ascii_valid(s: Seq<u8>)
    requires
        forall|i: int| 0 <= i < s.len() ==> #[trigger] s[i] < 0x80,
    ensures
        valid_utf8(s),
    decreases s.len(),
{
    if s.len() > 0 {
        let t = s.subrange(1, s.len() as int);
        assert forall|i: int| 0 <= i < t.len() implies #[trigger] t[i] < 0x80 by {
            assert(t[i] == s[i + 1]);
        }
        lemma_ascii_valid(t);
        assert(s[0] < 0x80);
        assert(pop_first_scalar(s) =~= t);
    }
}

/// Trimming valid UTF-8 keeps it valid.
pub proof fn lemma_trimmed_valid(x: Seq<u8>)
    requires
        valid_utf8(x),
    ensures
        valid_utf8(trimmed(x)),
{
    broadcast use is_char_boundary_start_end_of_seq;

    lemma_trim_start_bounds(x, 0, x.len() as int);
    let s = trim_start_at(x, 0, x.len() as int);
    lemma_trim_end_bounds(x, s, x.len() as int);
    lemma_trim_start_boundary(x, 0, x.len() as int);
    lemma_trim_end_boundary(x, s, x.len() as int);
    lemma_valid_sub(x, s, trim_end_at(x, s, x.len() as int));
}

/// Offset at or after `i` where `b` is a character boundary, given that
/// `b[k]` is ASCII or `k` is an end of `b`.
pub proof fn lemma_ascii_boundary(b: Seq<u8>, k: int)
    requires
        valid_utf8(b),
        0 <= k <= b.len(),
        k == 0 || k == b.len() || b[k] < 0x80 || b[k - 1] < 0x80,
    ensures
        is_char_boundary(b, k),
{
    lemma_boundary(b, k);
}

/// End of the code span opening with the backtick at `i`: after the closing
/// fence of a code fence (or the end of `b`), or after the next backtick of
/// inline code (or the end of `b`).
pub open spec fn code_end(b: Seq<u8>, i: int) -> int {
    let len = b.len() as int;
    if i + 2 < len && b[i + 1] == 96 && b[i + 2] == 96 {
        match find_pat(b, seq![96u8, 96u8, 96u8], i + 3, len) {
            Some(k) => k + 3,
            None => len,
        }
    } else {
        match find_byte(b, 96, i + 1, len) {
            Some(k) => k + 1,
            None => len,
        }
    }
}

pub proof fn lemma_code_end(b: Seq<u8>, i: int)
    requires
        0 <= i < b.len(),
        b[i] == 96,
    ensures
        i < code_end(b, i) <= b.len(),
        code_end(b, i) == b.len() || b[code_end(b, i) - 1] == 96,
{
    let len = b.len() as int;
    lemma_find_pat(b, seq![96u8, 96u8, 96u8], i + 3, len);
    lemma_find_byte(b, 96, i + 1, len);
    match find_pat(b, seq![96u8, 96u8, 96u8], i + 3, len) {
        Some(k) => {
            assert(b[k + 2] == seq![96u8, 96u8, 96u8][2]);
        },
        None => {},
    }
}

/// [`code_end`] for the backtick at `i`.
pub fn code_end_idx(b: &[u8], i: usize) -> (r: usize)
    requires
        i < b@.len(),
        b@[i as int] == 96,
    ensures
        r == code_end(b@, i as int),
        i < r <= b@.len(),
{
    proof {
        lemma_code_end(b@, i as int);
    }
    let len = b.len();
    if len - i > 2 && b[i + 1] == 96 && b[i + 2] == 96 {
        let needle: [u8; 3] = [96, 96, 96];
        proof {
            assert(needle@ =~= seq![96u8, 96u8, 96u8]);
        }
        match find_pat_idx(b, needle.as_slice(), i + 3, len) {
            Some(k) => k + 3,
            None => len,
        }
    } else {
        match find_byte_idx(b, 96, i + 1, len) {
            Some(k) => k + 1,
            None => len,
        }
    }
}

/// Appends `src[lo..hi]` to `out`.
pub fn push_range(out: &mut Vec<u8>, src: &[u8], lo: usize, hi: usize)
    requires
        lo <= hi <= src@.len(),
    ensures
        final(out)@ == old(out)@ + src@.subrange(lo as int, hi as int),
{
    let ghost start = out@;
    let mut k = lo;
    while k < hi
        invariant
            lo <= k <= hi <= src@.len(),
            out@ == start + src@.subrange(lo as int, k as int),
        decreases hi - k,
    {
        out.push(src[k]);
        proof {
            assert(src@.subrange(lo as int, k + 1) =~= src@.subrange(lo as int, k as int).push(
                src@[k as int],
            ));
        }
        k += 1;
    }
}


/// Whether two byte slices are equal.
pub fn bytes_eq(a: &[u8], b: &[u8]) -> (r: bool)
    ensures
        r == (a@ == b@),
{
    if a.len() != b.len() {
        return false;
    }
    let mut k: usize = 0;
    while k < a.len()
        invariant
            a@.len() == b@.len(),
            k <= a@.len(),
            forall|j: int| 0 <= j < k ==> a@[j] == b@[j],
        decreases a@.len() - k,
    {
        if a[k] != b[k] {
            return false;
        }
        k += 1;
    }
    proof {
        assert(a@ =~= b@);
    }
    true
}

/// [`trimmed`] on a slice.
pub fn trim_slice(v: &[u8]) -> (r: &[u8])
    ensures
        r@ == trimmed(v@),
        valid_utf8(v@) ==> valid_utf8(r@),
{
    let s = trim_start_idx(v, 0, v.len());
    let e = trim_end_idx(v, s, v.len());
    proof {
        if valid_utf8(v@) {
            lemma_trimmed_valid(v@);
        }
    }
    vstd::slice::slice_subrange(v, s, e)
}

/// The `String` whose UTF-8 encoding is `v`.
pub fn string_of(v: &[u8]) -> (r: String)
    requires
        valid_utf8(v@),
    ensures
        encode_utf8(r@) == v@,
{
    let w = vstd::slice::slice_to_vec(v);
    proof {
        decode_utf8_encode_utf8(w@);
    }
    string_from_utf8(w)
}

/// First offset `k >= i` where `s[k] != c`, or the end of `s`.
pub open spec fn skip_lead(s: Seq<u8>, c: u8, i: int) -> int
    decreases s.len() - i,
{
    if i < 0 || i >= s.len() || s[i] != c {
        i
    } else {
        skip_lead(s, c, i + 1)
    }
}

/// Last offset `k <= j` with `k == lo` or `s[k - 1] != c`.
pub open spec fn skip_trail(s: Seq<u8>, c: u8, lo: int, j: int) -> int
    decreases j - lo,
{
    if j <= lo || s[j - 1] != c {
        j
    } else {
        skip_trail(s, c, lo, j - 1)
    }
}

/// `str::trim_start_matches(c)` on bytes, for an ASCII `c`.
pub open spec fn trim_start_char(s: Seq<u8>, c: u8) -> Seq<u8> {
    s.subrange(skip_lead(s, c, 0), s.len() as int)
}

/// `str::trim_end_matches(c)` on bytes, for an ASCII `c`.
pub open spec fn trim_end_char(s: Seq<u8>, c: u8) -> Seq<u8> {
    s.subrange(0, skip_trail(s, c, 0, s.len() as int))
}

pub proof fn lemma_skip_lead(s: Seq<u8>, c: u8, i: int)
    requires
        0 <= i <= s.len(),
    ensures
        i <= skip_lead(s, c, i) <= s.len(),
        skip_lead(s, c, i) == s.len() || s[skip_lead(s, c, i)] != c,
        skip_lead(s, c, i) == i || s[skip_lead(s, c, i) - 1] == c,
    decreases s.len() - i,
{
    if i < s.len() && s[i] == c {
        lemma_skip_lead(s, c, i + 1);
    }
}

pub proof fn lemma_skip_trail(s: Seq<u8>, c: u8, lo: int, j: int)
    requires
        0 <= lo <= j <= s.len(),
    ensures
        lo <= skip_trail(s, c, lo, j) <= j,
        skip_trail(s, c, lo, j) == j || s[skip_trail(s, c, lo, j) as int] == c,
    decreases j - lo,
{
    if j > lo && s[j - 1] == c {
        lemma_skip_trail(s, c, lo, j - 1);
    }
}

/// [`trim_start_char`] on a slice.
pub fn trim_start_char_slice(v: &[u8], c: u8) -> (r: &[u8])
    requires
        c < 0x80,
    ensures
        r@ == trim_start_char(v@, c),
        valid_utf8(v@) ==> valid_utf8(r@),
{
    proof {
        lemma_skip_lead(v@, c, 0);
    }
    let mut k: usize = 0;
    while k < v.len() && v[k] == c
        invariant
            k <= v@.len(),
            skip_lead(v@, c, 0) == skip_lead(v@, c, k as int),
        decreases v@.len() - k,
    {
        k += 1;
    }
    proof {
        if valid_utf8(v@) {
            lemma_ascii_boundary(v@, k as int);
            lemma_ascii_boundary(v@, v@.len() as int);
            lemma_valid_sub(v@, k as int, v@.len() as int);
        }
    }
    vstd::slice::slice_subrange(v, k, v.len())
}

/// [`trim_end_char`] on a slice.
pub fn trim_end_char_slice(v: &[u8], c: u8) -> (r: &[u8])
    requires
        c < 0x80,
    ensures
        r@ == trim_end_char(v@, c),
        valid_utf8(v@) ==> valid_utf8(r@),
{
    proof {
        lemma_skip_trail(v@, c, 0, v@.len() as int);
    }
    let mut k: usize = v.len();
    while k > 0 && v[k - 1] == c
        invariant
            k <= v@.len(),
            skip_trail(v@, c, 0, v@.len() as int) == skip_trail(v@, c, 0, k as int),
        decreases k,
    {
        k -= 1;
    }
    proof {
        if valid_utf8(v@) {
            lemma_ascii_boundary(v@, k as int);
            lemma_ascii_boundary(v@, 0);
            lemma_valid_sub(v@, 0, k as int);
        }
    }
    vstd::slice::slice_subrange(v, 0, k)
}


#[verifier::external_type_specification]
#[verifier::external_body]
pub struct ExPathBuf(PathBuf);

#[verifier::external_type_specification]
#[verifier::external_body]
pub struct ExPath(Path);

/// What `str::to_lowercase` returns for a string: the Unicode lowercase mapping.
pub uninterp spec fn lowercase(s: Seq<char>) -> Seq<char>;

/// The bytes a name is compared by: its lowercase form.
pub open spec fn name_key(s: Seq<char>) -> Seq<u8> {
    encode_utf8(lowercase(s))
}

/// The lowercase form of the trimmed `s`, as [`name_key`] gives it.
pub fn trimmed_lower(s: &str) -> (r: String)
    ensures
        encode_utf8(r@) == name_key(decode_utf8(trimmed(s.spec_bytes()))),
        trimmed(s.spec_bytes()).len() == 0 ==> r@ == lowercase(decode_utf8(trimmed(s.spec_bytes())))
            && r@.len() == 0,
        (forall|i: int|
            0 <= i < decode_utf8(trimmed(s.spec_bytes())).len() ==> 'a' <= #[trigger] decode_utf8(
                trimmed(s.spec_bytes()),
            )[i] <= 'z') ==> r@ == decode_utf8(trimmed(s.spec_bytes())),
{
    let b = s.as_bytes();
    let lo = trim_start_idx(b, 0, b.len());
    let hi = trim_end_idx(b, lo, b.len());
    proof {
        encode_utf8_valid_utf8(s@);
        is_char_boundary_start_end_of_seq(b@);
        lemma_trim_start_boundary(b@, 0, b@.len() as int);
        lemma_trim_end_boundary(b@, lo as int, b@.len() as int);
    }
    let t = substr(s, lo, hi);
    proof {
        encode_utf8_decode_utf8(t@);
        if hi == lo {
            assert(t.spec_bytes() =~= Seq::<u8>::empty());
            assert(decode_utf8(Seq::<u8>::empty()) =~= Seq::<char>::empty());
        }
    }
    to_lower(t)
}

/// Lowercases `s`.
///
/// Calls `str::to_lowercase`, which maps each character to its Unicode
/// lowercase form. The contract claims that the result is a function of the
/// characters of `s`, that the empty string stays empty, and that text made
/// of the letters `a` to `z` only stays as it is; what other characters map
/// to is left open.
#[verifier::external_body]
pub(crate) fn to_lower(s: &str) -> (r: String)
    ensures
        r@ == lowercase(s@),
        s@.len() == 0 ==> r@.len() == 0,
        (forall|i: int| 0 <= i < s@.len() ==> 'a' <= #[trigger] s@[i] <= 'z') ==> r@ == s@,
{
    s.to_lowercase()
}

/// What [`file_stem_str`] returns for a path.
pub uninterp spec fn path_stem(p: PathBuf) -> Option<Seq<char>>;

/// The stem a note is known by: the file stem, or empty when there is none
/// or it is not UTF-8.
pub open spec fn stem_text(p: PathBuf) -> Seq<char> {
    match path_stem(p) {
        Some(s) => s,
        None => seq![],
    }
}

/// The file stem of `p` as text, when there is one that is UTF-8.
///
/// Calls `Path::file_stem` and `OsStr::to_str`; the contract claims only that
/// the result is a function of the path.
#[verifier::external_body]
pub(crate) fn file_stem_str(p: &PathBuf) -> (r: Option<String>)
    ensures
        match r {
            Some(s) => path_stem(*p) == Some(s@),
            None => path_stem(*p) is None,
        },
{
    p.file_stem().and_then(|s| s.to_str()).map(|s| s.to_string())
}

/// A copy of `p`.
///
/// Calls `PathBuf::clone`; the contract claims the copy is the same path.
#[verifier::external_body]
pub(crate) fn clone_path(p: &PathBuf) -> (r: PathBuf)
    ensures
        r == *p,
{
    p.clone()
}


/// Whether two strings are equal.
pub fn str_eq(a: &str, b: &str) -> (r: bool)
    ensures
        r == (a@ == b@),
{
    let r = bytes_eq(a.as_bytes(), b.as_bytes());
    proof {
        encode_utf8_decode_utf8(a@);
        encode_utf8_decode_utf8(b@);
    }
    r
}

pub proof fn lemma_find_byte_shift(b: Seq<u8>, c: u8, lo: int, hi: int, x: int)
    requires
        0 <= lo <= x <= hi <= b.len(),
    ensures
        find_byte(b.subrange(lo, hi), c, x - lo, hi - lo) == match find_byte(b, c, x, hi) {
            Some(k) => Some(k - lo),
            None => None::<int>,
        },
    decreases hi - x,
{
    if x < hi {
        assert(b.subrange(lo, hi)[x - lo] == b[x]);
        lemma_find_byte_shift(b, c, lo, hi, x + 1);
    }
}

/// `key` occurs somewhere in `s`.
pub open spec fn contains_bytes(s: Seq<u8>, key: Seq<u8>) -> bool {
    exists|k: int| #[trigger] occurs_at(s, key, k)
}

/// Whether `key` occurs in `s`.
pub fn contains_idx(s: &[u8], key: &[u8]) -> (r: bool)
    ensures
        r == contains_bytes(s@, key@),
{
    if key.len() == 0 {
        proof {
            assert(occurs_at(s@, key@, 0));
        }
        return true;
    }
    proof {
        lemma_find_pat(s@, key@, 0, s@.len() as int);
    }
    match find_pat_idx(s, key, 0, s.len()) {
        Some(k) => {
            proof {
                assert(occurs_at(s@, key@, k as int));
            }
            true
        },
        None => {
            proof {
                assert forall|k: int| !#[trigger] occurs_at(s@, key@, k) by {
                    if occurs_at(s@, key@, k) {
                        assert(0 <= k && k + key@.len() <= s@.len());
                        if key@.len() == 0 {
                            assert(occurs_at(s@, key@, 0));
                        }
                    }
                }
            }
            false
        },
    }
}

/// The characters of `s`.
pub fn chars_of(s: &str) -> (r: Vec<char>)
    ensures
        r@ == s@,
{
    let n = s.unicode_len();
    let mut v: Vec<char> = Vec::new();
    let mut i: usize = 0;
    while i < n
        invariant
            n == s@.len(),
            i <= n,
            v@ == s@.subrange(0, i as int),
        decreases n - i,
    {
        v.push(s.get_char(i));
        proof {
            assert(s@.subrange(0, i + 1) =~= s@.subrange(0, i as int).push(s@[i as int]));
        }
        i += 1;
    }
    proof {
        assert(s@.subrange(0, n as int) =~= s@);
    }
    v
}

/// Byte-wise lexicographic "less than", the order of `str`.
pub open spec fn lex_lt(a: Seq<u8>, b: Seq<u8>) -> bool
    decreases a.len(),
{
    if a.len() == 0 {
        b.len() > 0
    } else if b.len() == 0 {
        false
    } else if a[0] != b[0] {
        a[0] < b[0]
    } else {
        lex_lt(a.drop_first(), b.drop_first())
    }
}

pub proof fn lemma_lex_lt_trans(a: Seq<u8>, b: Seq<u8>, c: Seq<u8>)
    requires
        lex_lt(a, b),
        lex_lt(b, c),
    ensures
        lex_lt(a, c),
    decreases a.len(),
{
    if a.len() > 0 && b.len() > 0 && c.len() > 0 && a[0] == b[0] && b[0] == c[0] {
        lemma_lex_lt_trans(a.drop_first(), b.drop_first(), c.drop_first());
    }
}

pub proof fn lemma_lex_lt_total(a: Seq<u8>, b: Seq<u8>)
    ensures
        lex_lt(a, b) || lex_lt(b, a) || a == b,
        !(lex_lt(a, b) && lex_lt(b, a)),
    decreases a.len(),
{
    if a.len() > 0 && b.len() > 0 && a[0] == b[0] {
        lemma_lex_lt_total(a.drop_first(), b.drop_first());
        if a.drop_first() == b.drop_first() {
            assert(a =~= seq![a[0]] + a.drop_first());
            assert(b =~= seq![b[0]] + b.drop_first());
        }
    } else if a.len() == 0 && b.len() == 0 {
        assert(a =~= b);
    }
}

/// `a` before `b` in byte order.
pub fn lex_lt_exec(a: &[u8], b: &[u8]) -> (r: bool)
    ensures
        r == lex_lt(a@, b@),
{
    let mut k: usize = 0;
    proof {
        assert(a@.subrange(0, a@.len() as int) =~= a@);
        assert(b@.subrange(0, b@.len() as int) =~= b@);
    }
    while k < a.len() && k < b.len() && a[k] == b[k]
        invariant
            k <= a@.len(),
            k <= b@.len(),
            lex_lt(a@, b@) == lex_lt(a@.subrange(k as int, a@.len() as int), b@.subrange(
                k as int,
                b@.len() as int,
            )),
        decreases a@.len() - k,
    {
        proof {
            let x = a@.subrange(k as int, a@.len() as int);
            let y = b@.subrange(k as int, b@.len() as int);
            assert(x.drop_first() =~= a@.subrange(k + 1, a@.len() as int));
            assert(y.drop_first() =~= b@.subrange(k + 1, b@.len() as int));
        }
        k += 1;
    }
    if k == a.len() {
        k < b.len()
    } else if k == b.len() {
        false
    } else {
        a[k] < b[k]
    }
}

} // verus!

//! Editor support: byte <-> (line, column) mapping and Markdown syntax
//! highlighting into contiguous token spans.

use vstd::prelude::*;
use vstd::string::StringSliceAdditionalSpecFns;

use crate::markdown::{front_matter_bounds, front_matter_split, lemma_front_matter_split};
use crate::text::{
    find_byte, find_byte_idx, find_pat, find_pat_idx, lemma_find_byte, lemma_find_pat,
    lemma_trim_start_bounds, trim_start_at, trim_start_idx,
};

verus! {

#[derive(Debug, Clone, Copy, PartialEq, Eq, Structural)]
pub struct LineCol {
    pub line: usize,
    pub col: usize,
}

/// Byte offsets at which the lines of the first `n` bytes of `b` start:
/// 0, and the offset after every `\n`.
pub open spec fn line_starts(b: Seq<u8>, n: int) -> Seq<usize>
    decreases n,
{
    if n <= 0 {
        seq![0usize]
    } else if b[n - 1] == 10 {
        line_starts(b, n - 1).push(n as usize)
    } else {
        line_starts(b, n - 1)
    }
}

/// The line starts are a valid index of a text of `len` bytes: they begin
/// with 0, increase strictly and stay within the text.
pub open spec fn starts_wf(starts: Seq<usize>, len: int) -> bool {
    &&& 1 <= starts.len() <= len + 1
    &&& starts[0] == 0
    &&& forall|i: int, j: int| 0 <= i < j < starts.len() ==> starts[i] < starts[j]
    &&& forall|i: int| 0 <= i < starts.len() ==> starts[i] <= len
}

/// Byte offset of `lc`: the line is clamped to the last line and the column
/// to the line's length (up to the start of the next line, or the text end).
pub open spec fn byte_of_spec(starts: Seq<usize>, len: int, lc: LineCol) -> int {
    let line = if lc.line < starts.len() - 1 {
        lc.line as int
    } else {
        starts.len() - 1
    };
    let start = starts[line] as int;
    let end = if line + 1 < starts.len() {
        starts[line + 1] as int
    } else {
        len
    };
    start + if lc.col < end - start {
        lc.col as int
    } else {
        end - start
    }
}

/// The last line starting at or before `byte`, searching downwards from line `k`.
pub open spec fn line_of(starts: Seq<usize>, byte: int, k: int) -> int
    decreases k,
{
    if k <= 0 {
        0
    } else if starts[k] <= byte {
        k
    } else {
        line_of(starts, byte, k - 1)
    }
}

/// Line and column of `byte`, clamped to the text end.
pub open spec fn line_col_spec(starts: Seq<usize>, len: int, byte: int) -> LineCol {
    let b = if byte < len {
        byte
    } else {
        len
    };
    let line = line_of(starts, b, starts.len() - 1);
    LineCol { line: line as usize, col: (b - starts[line]) as usize }
}

/// Maps between byte offsets and (line, col) for a fixed text.
pub struct LineIndex {
    starts: Vec<usize>,
    len: usize,
}

impl LineIndex {
    #[verifier::type_invariant]
    spec fn inv(self) -> bool {
        starts_wf(self.starts@, self.len as int)
    }

    /// Byte offsets at which the lines start.
    pub closed spec fn starts(self) -> Seq<usize> {
        self.starts@
    }

    /// Length of the indexed text in bytes.
    pub closed spec fn text_len(self) -> usize {
        self.len
    }

    pub fn new(text: &str) -> (ix: LineIndex)
        ensures
            ix.starts() == line_starts(text.spec_bytes(), text.spec_bytes().len() as int),
            ix.text_len() == text.spec_bytes().len(),
            starts_wf(ix.starts(), ix.text_len() as int),
    {
        let b = text.as_bytes();
        let mut starts: Vec<usize> = Vec::new();
        starts.push(0);
        let mut i: usize = 0;
        while i < b.len()
            invariant
                i <= b@.len(),
                b@.len() == b.len(),
                starts@ == line_starts(b@, i as int),
                starts_wf(starts@, i as int),
            decreases b@.len() - i,
        {
            if b[i] == 10 {
                starts.push(i + 1);
            }
            i = i + 1;
            proof {
                lemma_line_starts_wf(b@, i as int);
            }
        }
        LineIndex { starts, len: b.len() }
    }

    pub fn line_count(&self) -> (r: usize)
        ensures
            r == self.starts().len(),
    {
        self.starts.len()
    }

    pub fn line_start(&self, line: usize) -> (r: usize)
        ensures
            r == if line < self.starts().len() {
                self.starts()[line as int] as int
            } else {
                self.text_len() as int
            },
    {
        if line < self.starts.len() {
            self.starts[line]
        } else {
            self.len
        }
    }

    /// Byte offset of a (line, col). Clamps to the text end.
    pub fn byte_of(&self, lc: LineCol) -> (r: usize)
        ensures
            r == byte_of_spec(self.starts(), self.text_len() as int, lc),
            r <= self.text_len(),
    {
        proof {
            use_type_invariant(self);
        }
        let n = self.starts.len();
        let line = if lc.line < n - 1 {
            lc.line
        } else {
            n - 1
        };
        let start = self.starts[line];
        let end = if line + 1 < n {
            self.starts[line + 1]
        } else {
            self.len
        };
        let col = if lc.col < end - start {
            lc.col
        } else {
            end - start
        };
        start + col
    }

    pub fn line_col_of(&self, byte: usize) -> (r: LineCol)
        ensures
            r == line_col_spec(self.starts(), self.text_len() as int, byte as int),
    {
        proof {
            use_type_invariant(self);
        }
        let byte = if byte < self.len {
            byte
        } else {
            self.len
        };
        // Binary search for the last line start <= byte.
        let mut lo: usize = 0;
        let mut hi: usize = self.starts.len();
        while lo + 1 < hi
            invariant
                starts_wf(self.starts@, self.len as int),
                byte <= self.len,
                0 <= lo < hi <= self.starts@.len(),
                self.starts@[lo as int] <= byte,
                hi < self.starts@.len() ==> self.starts@[hi as int] > byte,
            decreases hi - lo,
        {
            let mid = lo + (hi - lo) / 2;
            if self.starts[mid] <= byte {
                lo = mid;
            } else {
                hi = mid;
            }
        }
        proof {
            lemma_line_of(self.starts@, byte as int, self.starts@.len() - 1, lo as int);
        }
        LineCol { line: lo, col: byte - self.starts[lo] }
    }
}

proof fn lemma_line_of(starts: Seq<usize>, byte: int, k: int, l: int)
    requires
        starts.len() >= 1,
        starts[0] == 0,
        forall|i: int, j: int| 0 <= i < j < starts.len() ==> starts[i] < starts[j],
        0 <= l <= k < starts.len(),
        starts[l] <= byte,
        l + 1 < starts.len() ==> starts[l + 1] > byte,
    ensures
        line_of(starts, byte, k) == l,
    decreases k,
{
    if k > 0 && starts[k] > byte {
        if k == l {
            assert(false);
        }
        lemma_line_of(starts, byte, k - 1, l);
    } else if k > 0 {
        if k > l {
            assert(starts[l + 1] <= starts[k]);
        }
    }
}

/// The line and column of an offset lead back to the offset, clamped to the
/// text end.
pub proof fn lemma_byte_of_line_col(starts: Seq<usize>, len: usize, byte: int)
    requires
        starts_wf(starts, len as int),
        byte >= 0,
    ensures
        byte_of_spec(starts, len as int, line_col_spec(starts, len as int, byte)) == if byte
            < len {
            byte
        } else {
            len as int
        },
{
    let b = if byte < len {
        byte
    } else {
        len as int
    };
    lemma_line_of_props(starts, b, starts.len() - 1);
    let l = line_of(starts, b, starts.len() - 1);
    let lc = line_col_spec(starts, len as int, byte);
    assert(lc.line == l);
    assert(lc.col == b - starts[l]);
    if l + 1 < starts.len() {
        assert(starts[l] < starts[l + 1]);
    }
}

proof fn lemma_line_of_props(starts: Seq<usize>, byte: int, k: int)
    requires
        starts.len() >= 1,
        starts[0] == 0,
        forall|i: int, j: int| 0 <= i < j < starts.len() ==> starts[i] < starts[j],
        0 <= k < starts.len(),
        byte >= 0,
        k + 1 < starts.len() ==> starts[k + 1] > byte,
    ensures
        0 <= line_of(starts, byte, k) <= k,
        starts[line_of(starts, byte, k)] <= byte,
        line_of(starts, byte, k) + 1 < starts.len() ==> starts[line_of(starts, byte, k) + 1]
            > byte,
    decreases k,
{
    if k > 0 && starts[k] > byte {
        lemma_line_of_props(starts, byte, k - 1);
    }
}

/// The line index of every text is well formed.
pub proof fn lemma_line_starts_wf(b: Seq<u8>, n: int)
    requires
        0 <= n <= b.len() <= usize::MAX,
    ensures
        starts_wf(line_starts(b, n), n),
    decreases n,
{
    if n > 0 {
        lemma_line_starts_wf(b, n - 1);
        let s = line_starts(b, n - 1);
        if b[n - 1] == 10 {
            let t = s.push(n as usize);
            assert(t[t.len() - 1] == n);
            assert forall|i: int, j: int| 0 <= i < j < t.len() implies t[i] < t[j] by {
                if j == t.len() - 1 {
                    assert(t[i] == s[i]);
                    assert(s[i] <= n - 1);
                } else {
                    assert(t[i] == s[i] && t[j] == s[j]);
                }
            }
        }
    }
}

/// Semantic token kinds the theme maps to colors.
#[derive(Debug, Clone, Copy, PartialEq, Eq, Structural)]
pub enum Tok {
    Heading,
    BoldItalic,
    InlineCode,
    CodeBlock,
    Quote,
    Link,
    ListMarker,
    FrontMatter,
    Plain,
}

/// One highlighted range: `[start, end)` bytes with kind `tok`.
#[derive(Debug, Clone, Copy, PartialEq, Eq, Structural)]
pub struct Span {
    pub start: usize,
    pub end: usize,
    pub tok: Tok,
}

/// Appending a range to a span list: empty ranges vanish, a range that
/// continues the last span with the same kind extends it.
pub open spec fn push_spec(spans: Seq<Span>, s: Span) -> Seq<Span> {
    if s.end <= s.start {
        spans
    } else if spans.len() > 0 && spans.last().end == s.start && spans.last().tok == s.tok {
        spans.update(spans.len() - 1, Span { start: spans.last().start, end: s.end, tok: s.tok })
    } else {
        spans.push(s)
    }
}

/// Appending a sequence of ranges, one after the other.
pub open spec fn push_all(spans: Seq<Span>, segs: Seq<Span>) -> Seq<Span>
    decreases segs.len(),
{
    if segs.len() == 0 {
        spans
    } else {
        push_all(push_spec(spans, segs[0]), segs.drop_first())
    }
}

pub open spec fn mk(start: int, end: int, tok: Tok) -> Span {
    Span { start: start as usize, end: end as usize, tok }
}

/// ASCII letters and digits, and every byte of a non-ASCII character.
pub open spec fn is_word_byte(x: u8) -> bool {
    (48 <= x <= 57) || (65 <= x <= 90) || (97 <= x <= 122) || x >= 128
}

/// An `_` delimiter may open emphasis only where no word character precedes it.
pub open spec fn underscore_opens(b: Seq<u8>, i: int) -> bool {
    i == 0 || !is_word_byte(b[i - 1])
}

/// An `_` delimiter may close emphasis only where no word character follows it.
pub open spec fn underscore_closes(b: Seq<u8>, stop: int) -> bool {
    stop >= b.len() || !is_word_byte(b[stop])
}

/// The inline construct that starts at `i` within `[i, end)`: its end and
/// kind. Inline code, emphasis, wikilinks, Markdown links and images;
/// anything else is one plain byte.
pub open spec fn inline_step(b: Seq<u8>, i: int, end: int) -> (int, Tok) {
    let c = b[i];
    let plain = (i + 1, Tok::Plain);
    if c == 96 {
        match find_byte(b, 96, i + 1, end) {
            Some(close) => (close + 1, Tok::InlineCode),
            None => plain,
        }
    } else if c == 42 || c == 95 {
        let doubled = i + 1 < end && b[i + 1] == c;
        let nlen: int = if doubled {
            2
        } else {
            1
        };
        let needle = if doubled {
            seq![c, c]
        } else {
            seq![c]
        };
        if c == 95 && !underscore_opens(b, i) {
            plain
        } else {
            match find_pat(b, needle, i + nlen, end) {
                Some(rel) => {
                    let stop = rel + nlen;
                    if stop > i + nlen && (c != 95 || underscore_closes(b, stop)) {
                        (stop, Tok::BoldItalic)
                    } else {
                        plain
                    }
                },
                None => plain,
            }
        }
    } else if c == 91 || c == 33 {
        let bracket = if c == 91 {
            i
        } else {
            i + 1
        };
        if c == 33 && bracket >= end {
            plain
        } else if bracket + 1 < end && b[bracket + 1] == 91 {
            match find_pat(b, seq![93u8, 93u8], bracket + 2, end) {
                Some(close) => (close + 2, Tok::Link),
                None => plain,
            }
        } else if bracket < end && b[bracket] == 91 {
            match find_byte(b, 93, bracket + 1, end) {
                Some(rb) => if rb + 1 < end && b[rb + 1] == 40 {
                    match find_byte(b, 41, rb + 1, end) {
                        Some(rp) => (rp + 1, Tok::Link),
                        None => plain,
                    }
                } else {
                    plain
                },
                None => plain,
            }
        } else {
            plain
        }
    } else {
        plain
    }
}

pub proof fn lemma_inline_step(b: Seq<u8>, i: int, end: int)
    requires
        0 <= i < end <= b.len(),
    ensures
        i < inline_step(b, i, end).0 <= end,
{
    let c = b[i];
    if c == 96 {
        lemma_find_byte(b, 96, i + 1, end);
    } else if c == 42 || c == 95 {
        let doubled = i + 1 < end && b[i + 1] == c;
        let nlen: int = if doubled {
            2
        } else {
            1
        };
        let needle = if doubled {
            seq![c, c]
        } else {
            seq![c]
        };
        lemma_find_pat(b, needle, i + nlen, end);
    } else if c == 91 || c == 33 {
        let bracket = if c == 91 {
            i
        } else {
            i + 1
        };
        lemma_find_pat(b, seq![93u8, 93u8], bracket + 2, end);
        lemma_find_byte(b, 93, bracket + 1, end);
        if let Some(rb) = find_byte(b, 93, bracket + 1, end) {
            lemma_find_byte(b, 41, rb + 1, end);
        }
    }
}

/// The inline ranges of `[i, end)`, left to right.
pub open spec fn inline_segs(b: Seq<u8>, i: int, end: int) -> Seq<Span>
    decreases end - i,
{
    if i < 0 || i >= end || end > b.len() {
        seq![]
    } else {
        let st = inline_step(b, i, end);
        proof {
            lemma_inline_step(b, i, end);
        }
        seq![mk(i, st.0, st.1)] + inline_segs(b, st.0, end)
    }
}

/// A code fence line: after leading whitespace it starts with three backticks or tildes.
pub open spec fn is_fence(b: Seq<u8>, pos: int, le: int) -> bool {
    let t = trim_start_at(b, pos, le);
    t + 3 <= le && ((b[t] == 96 && b[t + 1] == 96 && b[t + 2] == 96) || (b[t] == 126 && b[t + 1]
        == 126 && b[t + 2] == 126))
}

/// Inside a fenced block, a fence line closes the block, unless the text
/// after its fence marker starts with another backtick fence, which opens a
/// new block at once.
pub open spec fn fence_opens_new(b: Seq<u8>, pos: int, le: int) -> bool {
    let t = trim_start_at(b, trim_start_at(b, pos, le) + 3, le);
    t + 3 <= le && b[t] == 96 && b[t + 1] == 96 && b[t + 2] == 96
}

/// Number of `#` bytes starting at `i` within `[i, le)`.
pub open spec fn count_hashes(b: Seq<u8>, i: int, le: int) -> int
    decreases le - i,
{
    if 0 <= i < le && b[i] == 35 {
        1 + count_hashes(b, i + 1, le)
    } else {
        0
    }
}

/// An ATX heading line: one to six `#`, then a space or tab.
pub open spec fn is_heading_line(b: Seq<u8>, pos: int, le: int) -> bool {
    let h = count_hashes(b, pos, le);
    1 <= h <= 6 && pos + h < le && (b[pos + h] == 32 || b[pos + h] == 9)
}

/// Number of ASCII digits starting at `i` within `[i, le)`.
pub open spec fn count_digits(b: Seq<u8>, i: int, le: int) -> int
    decreases le - i,
{
    if 0 <= i < le && 48 <= b[i] <= 57 {
        1 + count_digits(b, i + 1, le)
    } else {
        0
    }
}

/// Length of a list marker (`- `, `* `, `+ ` or digits followed by `. `)
/// at `r`; 0 when there is none.
pub open spec fn marker_len(b: Seq<u8>, r: int, le: int) -> int {
    if r + 2 <= le && (b[r] == 45 || b[r] == 42 || b[r] == 43) && b[r + 1] == 32 {
        2
    } else {
        let d = count_digits(b, r, le);
        if d > 0 && r + d + 2 <= le && b[r + d] == 46 && b[r + d + 1] == 32 {
            d + 2
        } else {
            0
        }
    }
}

/// The ranges of the line `[pos, le)` and whether a fenced block is open after it.
pub open spec fn line_segs(b: Seq<u8>, pos: int, le: int, in_fence: bool) -> (Seq<Span>, bool) {
    if is_fence(b, pos, le) {
        (
            seq![mk(pos, le, Tok::CodeBlock)],
            if in_fence {
                fence_opens_new(b, pos, le)
            } else {
                true
            },
        )
    } else if in_fence {
        (seq![mk(pos, le, Tok::CodeBlock)], true)
    } else if is_heading_line(b, pos, le) {
        (seq![mk(pos, le, Tok::Heading)], false)
    } else if pos < le && b[pos] == 62 {
        (seq![mk(pos, le, Tok::Quote)], false)
    } else {
        let r = trim_start_at(b, pos, le);
        let ml = marker_len(b, r, le);
        if ml > 0 {
            (seq![mk(pos, r + ml, Tok::ListMarker)] + inline_segs(b, r + ml, le), false)
        } else {
            (inline_segs(b, pos, le), false)
        }
    }
}

/// The line `[pos, le)` starts, after leading whitespace, with three
/// backticks or three tildes.
pub open spec fn fence_marker_at(b: Seq<u8>, pos: int, le: int) -> bool {
    let t = trim_start_at(b, pos, le);
    t + 3 <= le && (b.subrange(t, t + 3) == seq![96u8, 96u8, 96u8] || b.subrange(t, t + 3) == seq![
        126u8,
        126u8,
        126u8,
    ])
}

/// After the line's fence marker and any whitespace come three more backticks.
pub open spec fn backticks_follow(b: Seq<u8>, pos: int, le: int) -> bool {
    let u = trim_start_at(b, trim_start_at(b, pos, le) + 3, le);
    u + 3 <= le && b.subrange(u, u + 3) == seq![96u8, 96u8, 96u8]
}

proof fn lemma_inline_no_code_block(b: Seq<u8>, i: int, end: int)
    ensures
        forall|k: int|
            0 <= k < inline_segs(b, i, end).len() ==> #[trigger] inline_segs(b, i, end)[k].tok
                != Tok::CodeBlock,
    decreases end - i,
{
    if !(i < 0 || i >= end || end > b.len()) {
        lemma_inline_step(b, i, end);
        let st = inline_step(b, i, end);
        lemma_inline_no_code_block(b, st.0, end);
        let r = inline_segs(b, st.0, end);
        assert forall|k: int| 0 <= k < inline_segs(b, i, end).len() implies #[trigger] inline_segs(
            b,
            i,
            end,
        )[k].tok != Tok::CodeBlock by {
            if k > 0 {
                assert(inline_segs(b, i, end)[k] == r[k - 1]);
            }
        }
    }
}

/// Outside a fenced block, a line without a fence marker is never
/// highlighted as a code block, and the text after it is still outside.
pub proof fn lemma_text_outside_fence(b: Seq<u8>, pos: int, le: int)
    requires
        0 <= pos <= le <= b.len(),
        !fence_marker_at(b, pos, le),
    ensures
        !line_segs(b, pos, le, false).1,
        forall|k: int|
            0 <= k < line_segs(b, pos, le, false).0.len() ==> #[trigger] line_segs(b, pos, le, false).0[k].tok
                != Tok::CodeBlock,
{
    crate::text::lemma_trim_start_bounds(b, pos, le);
    let t = trim_start_at(b, pos, le);
    if is_fence(b, pos, le) {
        if b[t] == 96 {
            assert(b.subrange(t, t + 3) =~= seq![96u8, 96u8, 96u8]);
        } else {
            assert(b.subrange(t, t + 3) =~= seq![126u8, 126u8, 126u8]);
        }
    }
    let r = trim_start_at(b, pos, le);
    let ml = marker_len(b, r, le);
    lemma_inline_no_code_block(b, pos, le);
    lemma_inline_no_code_block(b, r + ml, le);
    if !is_heading_line(b, pos, le) && !(pos < le && b[pos] == 62) && ml > 0 {
        let segs = seq![mk(pos, r + ml, Tok::ListMarker)] + inline_segs(b, r + ml, le);
        assert forall|k: int| 0 <= k < segs.len() implies #[trigger] segs[k].tok != Tok::CodeBlock by {
            if k > 0 {
                assert(segs[k] == inline_segs(b, r + ml, le)[k - 1]);
            }
        }
    }
}

/// Inside a fenced block, a fence line is highlighted as code block and
/// closes the block, unless three more backticks follow its marker, which
/// open a new block at once.
pub proof fn lemma_fence_line_inside(b: Seq<u8>, pos: int, le: int)
    requires
        0 <= pos <= le <= b.len(),
        fence_marker_at(b, pos, le),
    ensures
        line_segs(b, pos, le, true).0 == seq![mk(pos, le, Tok::CodeBlock)],
        line_segs(b, pos, le, true).1 == backticks_follow(b, pos, le),
{
    crate::text::lemma_trim_start_bounds(b, pos, le);
    let t = trim_start_at(b, pos, le);
    crate::text::lemma_trim_start_bounds(b, t + 3, le);
    assert(b.subrange(t, t + 3)[0] == b[t] && b.subrange(t, t + 3)[1] == b[t + 1] && b.subrange(t, t + 3)[2]
        == b[t + 2]);
    let u = trim_start_at(b, t + 3, le);
    if u + 3 <= le {
        assert(b.subrange(u, u + 3)[0] == b[u] && b.subrange(u, u + 3)[1] == b[u + 1] && b.subrange(u, u + 3)[2]
            == b[u + 2]);
        if b[u] == 96 && b[u + 1] == 96 && b[u + 2] == 96 {
            assert(b.subrange(u, u + 3) =~= seq![96u8, 96u8, 96u8]);
        }
    }
}

/// A closed fenced block stays closed: after a fence line that closes the
/// block (no backticks follow its marker), the next line, unless it is a
/// fence line itself, is not highlighted as a code block.
pub proof fn lemma_closed_fence_then_text(b: Seq<u8>, p1: int, e1: int, p2: int, e2: int)
    requires
        0 <= p1 <= e1 <= b.len(),
        0 <= p2 <= e2 <= b.len(),
        fence_marker_at(b, p1, e1),
        !backticks_follow(b, p1, e1),
        !fence_marker_at(b, p2, e2),
    ensures
        !line_segs(b, p1, e1, true).1,
        forall|k: int|
            0 <= k < line_segs(b, p2, e2, line_segs(b, p1, e1, true).1).0.len() ==> #[trigger] line_segs(
                b,
                p2,
                e2,
                line_segs(b, p1, e1, true).1,
            ).0[k].tok != Tok::CodeBlock,
{
    lemma_fence_line_inside(b, p1, e1);
    lemma_text_outside_fence(b, p2, e2);
}

/// End of the line starting at `pos`: its `\n`, or the text end.
pub open spec fn line_end(b: Seq<u8>, pos: int) -> int {
    match find_byte(b, 10, pos, b.len() as int) {
        Some(k) => k,
        None => b.len() as int,
    }
}

/// The ranges of all lines from `pos` on; each `\n` is a plain range of its own.
pub open spec fn lines_segs(b: Seq<u8>, pos: int, in_fence: bool) -> Seq<Span>
    decreases b.len() - pos,
{
    if pos < 0 || pos >= b.len() {
        seq![]
    } else {
        let le = line_end(b, pos);
        let ls = line_segs(b, pos, le, in_fence);
        proof {
            lemma_find_byte(b, 10, pos, b.len() as int);
        }
        if le < b.len() {
            ls.0 + seq![mk(le, le + 1, Tok::Plain)] + lines_segs(b, le + 1, ls.1)
        } else {
            ls.0
        }
    }
}

/// The ranges of a document: its front matter up to the closing delimiter
/// line, then its lines.
pub open spec fn doc_segs(b: Seq<u8>) -> Seq<Span> {
    match front_matter_split(b) {
        Some((_, _, bs)) => seq![mk(0, bs - 1, Tok::FrontMatter)] + lines_segs(b, bs - 1, false),
        None => lines_segs(b, 0, false),
    }
}

/// The highlighting of a document: its ranges, empty ones dropped and
/// neighbours of the same kind merged.
pub open spec fn highlight_spec(b: Seq<u8>) -> Seq<Span> {
    push_all(seq![], doc_segs(b))
}

pub proof fn lemma_push_all_concat(sp: Seq<Span>, a: Seq<Span>, c: Seq<Span>)
    ensures
        push_all(sp, a + c) == push_all(push_all(sp, a), c),
    decreases a.len(),
{
    if a.len() == 0 {
        assert(a + c =~= c);
    } else {
        assert((a + c).drop_first() =~= a.drop_first() + c);
        assert((a + c)[0] == a[0]);
        lemma_push_all_concat(push_spec(sp, a[0]), a.drop_first(), c);
    }
}

proof fn lemma_push_all_one(sp: Seq<Span>, x: Span, c: Seq<Span>)
    ensures
        push_all(sp, seq![x] + c) == push_all(push_spec(sp, x), c),
{
    assert((seq![x] + c).drop_first() =~= c);
    assert((seq![x] + c)[0] == x);
}

/// `spans` cover `[0, to)` exactly once: non-empty, contiguous, in order,
/// and no two neighbours share a kind.
pub open spec fn is_cover(spans: Seq<Span>, to: int) -> bool {
    &&& spans.len() == 0 ==> to == 0
    &&& spans.len() > 0 ==> spans[0].start == 0 && spans.last().end == to
    &&& forall|k: int| 0 <= k < spans.len() ==> #[trigger] spans[k].start < spans[k].end
    &&& forall|k: int| 0 <= k < spans.len() - 1 ==> #[trigger] meets(spans, k)
}

/// Span `k` ends where span `k + 1` starts, and the two differ in kind.
pub open spec fn meets(spans: Seq<Span>, k: int) -> bool {
    spans[k].end == spans[k + 1].start && spans[k].tok != spans[k + 1].tok
}

/// `segs` tile `[from, to)`: each range starts where the previous one ended.
pub open spec fn is_chain(segs: Seq<Span>, from: int, to: int) -> bool
    decreases segs.len(),
{
    if segs.len() == 0 {
        from == to
    } else {
        segs[0].start == from && segs[0].start <= segs[0].end && is_chain(
            segs.drop_first(),
            segs[0].end as int,
            to,
        )
    }
}

proof fn lemma_push_cover(spans: Seq<Span>, s: Span, from: int)
    requires
        is_cover(spans, from),
        s.start == from,
        s.start <= s.end,
    ensures
        is_cover(push_spec(spans, s), s.end as int),
{
    let r = push_spec(spans, s);
    if s.end <= s.start {
    } else if spans.len() > 0 && spans.last().end == s.start && spans.last().tok == s.tok {
        assert forall|k: int| 0 <= k < r.len() - 1 implies #[trigger] meets(r, k) by {
            assert(r[k] == spans[k]);
            assert(meets(spans, k));
            if k + 1 < r.len() - 1 {
                assert(r[k + 1] == spans[k + 1]);
            } else {
                assert(r[k + 1].start == spans[k + 1].start);
                assert(r[k + 1].tok == spans[k + 1].tok);
            }
        }
        assert forall|k: int| 0 <= k < r.len() implies #[trigger] r[k].start < r[k].end by {
            if k < r.len() - 1 {
                assert(r[k] == spans[k]);
            }
        }
    } else {
        assert forall|k: int| 0 <= k < r.len() - 1 implies #[trigger] meets(r, k) by {
            assert(r[k] == spans[k]);
            if k + 1 < r.len() - 1 {
                assert(r[k + 1] == spans[k + 1]);
                assert(meets(spans, k));
            } else {
                assert(r[k + 1] == s);
                assert(spans.last() == spans[k]);
            }
        }
        assert forall|k: int| 0 <= k < r.len() implies #[trigger] r[k].start < r[k].end by {
            if k < r.len() - 1 {
                assert(r[k] == spans[k]);
            }
        }
    }
}

proof fn lemma_push_all_cover(spans: Seq<Span>, segs: Seq<Span>, from: int, to: int)
    requires
        is_cover(spans, from),
        is_chain(segs, from, to),
    ensures
        is_cover(push_all(spans, segs), to),
    decreases segs.len(),
{
    if segs.len() > 0 {
        lemma_push_cover(spans, segs[0], from);
        lemma_push_all_cover(push_spec(spans, segs[0]), segs.drop_first(), segs[0].end as int, to);
    }
}

proof fn lemma_chain_concat(a: Seq<Span>, c: Seq<Span>, x: int, y: int, z: int)
    requires
        is_chain(a, x, y),
        is_chain(c, y, z),
    ensures
        is_chain(a + c, x, z),
    decreases a.len(),
{
    if a.len() == 0 {
        assert(a + c =~= c);
    } else {
        assert((a + c).drop_first() =~= a.drop_first() + c);
        assert((a + c)[0] == a[0]);
        lemma_chain_concat(a.drop_first(), c, a[0].end as int, y, z);
    }
}

proof fn lemma_chain_one(s: Span, x: int, y: int)
    requires
        s.start == x,
        x <= y,
        s.end == y,
    ensures
        is_chain(seq![s], x, y),
{
    reveal_with_fuel(is_chain, 2);
    assert(seq![s].drop_first() =~= Seq::<Span>::empty());
}

proof fn lemma_inline_chain(b: Seq<u8>, i: int, end: int)
    requires
        0 <= i <= end <= b.len() <= usize::MAX,
    ensures
        is_chain(inline_segs(b, i, end), i, end),
    decreases end - i,
{
    if i < end {
        let st = inline_step(b, i, end);
        lemma_inline_step(b, i, end);
        lemma_inline_chain(b, st.0, end);
        lemma_chain_one(mk(i, st.0, st.1), i, st.0);
        lemma_chain_concat(seq![mk(i, st.0, st.1)], inline_segs(b, st.0, end), i, st.0, end);
    }
}

proof fn lemma_line_chain(b: Seq<u8>, pos: int, le: int, f: bool)
    requires
        0 <= pos <= le <= b.len() <= usize::MAX,
    ensures
        is_chain(line_segs(b, pos, le, f).0, pos, le),
{
    lemma_trim_start_bounds(b, pos, le);
    let r = trim_start_at(b, pos, le);
    let ml = marker_len(b, r, le);
    if is_fence(b, pos, le) || f || is_heading_line(b, pos, le) || (pos < le && b[pos] == 62) {
        lemma_chain_one(line_segs(b, pos, le, f).0[0], pos, le);
        assert(line_segs(b, pos, le, f).0 =~= seq![line_segs(b, pos, le, f).0[0]]);
    } else if ml > 0 {
        lemma_marker_len(b, r, le);
        lemma_inline_chain(b, r + ml, le);
        lemma_chain_one(mk(pos, r + ml, Tok::ListMarker), pos, r + ml);
        lemma_chain_concat(
            seq![mk(pos, r + ml, Tok::ListMarker)],
            inline_segs(b, r + ml, le),
            pos,
            r + ml,
            le,
        );
    } else {
        lemma_inline_chain(b, pos, le);
    }
}

proof fn lemma_count_digits(b: Seq<u8>, i: int, le: int)
    requires
        0 <= i <= le,
    ensures
        0 <= count_digits(b, i, le) <= le - i,
    decreases le - i,
{
    if 0 <= i < le && 48 <= b[i] <= 57 {
        lemma_count_digits(b, i + 1, le);
    }
}

proof fn lemma_marker_len(b: Seq<u8>, r: int, le: int)
    requires
        0 <= r <= le,
    ensures
        0 <= marker_len(b, r, le),
        r + marker_len(b, r, le) <= le,
{
    lemma_count_digits(b, r, le);
}

proof fn lemma_lines_chain(b: Seq<u8>, pos: int, f: bool)
    requires
        0 <= pos <= b.len() <= usize::MAX,
    ensures
        is_chain(lines_segs(b, pos, f), pos, b.len() as int),
    decreases b.len() - pos,
{
    if pos < b.len() {
        lemma_find_byte(b, 10, pos, b.len() as int);
        let le = line_end(b, pos);
        let ls = line_segs(b, pos, le, f);
        lemma_line_chain(b, pos, le, f);
        if le < b.len() {
            lemma_lines_chain(b, le + 1, ls.1);
            lemma_chain_one(mk(le, le + 1, Tok::Plain), le, le + 1);
            lemma_chain_concat(
                seq![mk(le, le + 1, Tok::Plain)],
                lines_segs(b, le + 1, ls.1),
                le,
                le + 1,
                b.len() as int,
            );
            lemma_chain_concat(
                ls.0,
                seq![mk(le, le + 1, Tok::Plain)] + lines_segs(b, le + 1, ls.1),
                pos,
                le,
                b.len() as int,
            );
            assert(ls.0 + seq![mk(le, le + 1, Tok::Plain)] + lines_segs(b, le + 1, ls.1) =~= ls.0
                + (seq![mk(le, le + 1, Tok::Plain)] + lines_segs(b, le + 1, ls.1)));
        }
    }
}

/// The highlighting of every text covers it exactly once: its spans are
/// non-empty, contiguous, start at 0 and end at the text end, and
/// neighbouring spans differ in kind.
pub proof fn lemma_highlight_covers(b: Seq<u8>)
    requires
        b.len() <= usize::MAX,
    ensures
        is_cover(highlight_spec(b), b.len() as int),
{
    lemma_front_matter_split(b);
    match front_matter_split(b) {
        Some((_, _, bs)) => {
            lemma_lines_chain(b, bs - 1, false);
            lemma_chain_one(mk(0, bs - 1, Tok::FrontMatter), 0, bs - 1);
            lemma_chain_concat(
                seq![mk(0, bs - 1, Tok::FrontMatter)],
                lines_segs(b, bs - 1, false),
                0,
                bs - 1,
                b.len() as int,
            );
        },
        None => {
            lemma_lines_chain(b, 0, false);
        },
    }
    lemma_push_all_cover(seq![], doc_segs(b), 0, b.len() as int);
}

struct SpanBuilder {
    spans: Vec<Span>,
}

impl SpanBuilder {
    fn push(&mut self, start: usize, end: usize, tok: Tok)
        ensures
            final(self).spans@ == push_spec(old(self).spans@, Span { start, end, tok }),
    {
        if end <= start {
            return;
        }
        let n = self.spans.len();
        if n > 0 {
            let last = self.spans[n - 1];
            if last.end == start && last.tok == tok {
                self.spans.set(n - 1, Span { start: last.start, end, tok });
                return;
            }
        }
        self.spans.push(Span { start, end, tok });
    }

    /// Highlight inline constructs (`code`, **bold**, _em_, [[wiki]], [link](url))
    /// within [start, end); anything else becomes Plain.
    fn inline(&mut self, b: &[u8], start: usize, end: usize)
        requires
            start <= end <= b@.len(),
        ensures
            final(self).spans@ == push_all(old(self).spans@, inline_segs(b@, start as int, end as int)),
    {
        let mut i = start;
        while i < end
            invariant
                start <= i <= end <= b@.len(),
                push_all(self.spans@, inline_segs(b@, i as int, end as int)) == push_all(
                    old(self).spans@,
                    inline_segs(b@, start as int, end as int),
                ),
            decreases end - i,
        {
            let (stop, tok) = inline_step_exec(b, i, end);
            proof {
                lemma_push_all_one(
                    self.spans@,
                    mk(i as int, stop as int, tok),
                    inline_segs(b@, stop as int, end as int),
                );
            }
            self.push(i, stop, tok);
            i = stop;
        }
    }

    /// Highlight one line `[pos, le)`; returns whether a fenced block is open after it.
    fn line(&mut self, b: &[u8], pos: usize, le: usize, in_fence: bool) -> (f: bool)
        requires
            pos <= le <= b@.len(),
        ensures
            final(self).spans@ == push_all(old(self).spans@, line_segs(b@, pos as int, le as int, in_fence).0),
            f == line_segs(b@, pos as int, le as int, in_fence).1,
    {
        let ghost sp = self.spans@;
        let t = trim_start_idx(b, pos, le);
        let fence = le - t >= 3 && ((b[t] == 96 && b[t + 1] == 96 && b[t + 2] == 96) || (b[t]
            == 126 && b[t + 1] == 126 && b[t + 2] == 126));
        if fence {
            proof {
                lemma_push_all_one(sp, mk(pos as int, le as int, Tok::CodeBlock), seq![]);
            }
            self.push(pos, le, Tok::CodeBlock);
            if in_fence {
                let t2 = trim_start_idx(b, t + 3, le);
                let opens_new = le - t2 >= 3 && b[t2] == 96 && b[t2 + 1] == 96 && b[t2 + 2] == 96;
                return opens_new;
            } else {
                return true;
            }
        }
        if in_fence {
            proof {
                lemma_push_all_one(sp, mk(pos as int, le as int, Tok::CodeBlock), seq![]);
            }
            self.push(pos, le, Tok::CodeBlock);
            return true;
        }
        if heading_line_exec(b, pos, le) {
            proof {
                lemma_push_all_one(sp, mk(pos as int, le as int, Tok::Heading), seq![]);
            }
            self.push(pos, le, Tok::Heading);
            return false;
        }
        if pos < le && b[pos] == 62 {
            proof {
                lemma_push_all_one(sp, mk(pos as int, le as int, Tok::Quote), seq![]);
            }
            self.push(pos, le, Tok::Quote);
            return false;
        }
        let ml = marker_len_exec(b, t, le);
        if ml > 0 {
            proof {
                lemma_push_all_one(
                    sp,
                    mk(pos as int, (t + ml) as int, Tok::ListMarker),
                    inline_segs(b@, (t + ml) as int, le as int),
                );
            }
            self.push(pos, t + ml, Tok::ListMarker);
            self.inline(b, t + ml, le);
        } else {
            self.inline(b, pos, le);
        }
        false
    }
}

fn heading_line_exec(b: &[u8], pos: usize, le: usize) -> (r: bool)
    requires
        pos <= le <= b@.len(),
    ensures
        r == is_heading_line(b@, pos as int, le as int),
{
    let mut h: usize = 0;
    while pos + h < le && b[pos + h] == 35
        invariant
            pos + h <= le <= b@.len(),
            count_hashes(b@, pos as int, le as int) == h + count_hashes(
                b@,
                (pos + h) as int,
                le as int,
            ),
        decreases le - (pos + h),
    {
        h = h + 1;
    }
    1 <= h && h <= 6 && pos + h < le && (b[pos + h] == 32 || b[pos + h] == 9)
}

fn marker_len_exec(b: &[u8], r: usize, le: usize) -> (m: usize)
    requires
        r <= le <= b@.len(),
    ensures
        m == marker_len(b@, r as int, le as int),
        r + m <= le,
{
    if le - r >= 2 && (b[r] == 45 || b[r] == 42 || b[r] == 43) && b[r + 1] == 32 {
        return 2;
    }
    let mut d: usize = 0;
    while r + d < le && 48 <= b[r + d] && b[r + d] <= 57
        invariant
            r + d <= le <= b@.len(),
            count_digits(b@, r as int, le as int) == d + count_digits(b@, (r + d) as int, le as int),
        decreases le - (r + d),
    {
        d = d + 1;
    }
    if d > 0 && le - r - d >= 2 && b[r + d] == 46 && b[r + d + 1] == 32 {
        d + 2
    } else {
        0
    }
}

fn inline_step_exec(b: &[u8], i: usize, end: usize) -> (r: (usize, Tok))
    requires
        i < end <= b@.len(),
    ensures
        r.0 as int == inline_step(b@, i as int, end as int).0,
        r.1 == inline_step(b@, i as int, end as int).1,
        i < r.0 <= end,
{
    proof {
        lemma_inline_step(b@, i as int, end as int);
    }
    let c = b[i];
    if c == 96 {
        match find_byte_idx(b, 96, i + 1, end) {
            Some(close) => {
                return (close + 1, Tok::InlineCode);
            },
            None => {
                return (i + 1, Tok::Plain);
            },
        }
    }
    if c == 42 || c == 95 {
        let doubled = i + 1 < end && b[i + 1] == c;
        let nlen: usize = if doubled {
            2
        } else {
            1
        };
        if c == 95 && !(i == 0 || !is_word_byte_exec(b[i - 1])) {
            return (i + 1, Tok::Plain);
        }
        if i + nlen > end {
            proof {
                assert(find_pat(
                    b@,
                    if doubled {
                        seq![c, c]
                    } else {
                        seq![c]
                    },
                    i + nlen,
                    end as int,
                ) is None);
            }
            return (i + 1, Tok::Plain);
        }
        let found = if doubled {
            let needle: [u8; 2] = [c, c];
            proof {
                assert(needle@ =~= seq![c, c]);
            }
            find_pat_idx(b, needle.as_slice(), i + nlen, end)
        } else {
            let needle: [u8; 1] = [c];
            proof {
                assert(needle@ =~= seq![c]);
            }
            find_pat_idx(b, needle.as_slice(), i + nlen, end)
        };
        match found {
            Some(rel) => {
                let stop = rel + nlen;
                if stop > i + nlen && (c != 95 || stop >= b.len() || !is_word_byte_exec(b[stop])) {
                    return (stop, Tok::BoldItalic);
                }
                return (i + 1, Tok::Plain);
            },
            None => {
                return (i + 1, Tok::Plain);
            },
        }
    }
    if c == 91 || c == 33 {
        let bracket = if c == 91 {
            i
        } else {
            i + 1
        };
        if c == 33 && bracket >= end {
            return (i + 1, Tok::Plain);
        }
        if bracket + 1 < end && b[bracket + 1] == 91 {
            let needle: [u8; 2] = [93, 93];
            proof {
                assert(needle@ =~= seq![93u8, 93u8]);
            }
            match find_pat_idx(b, needle.as_slice(), bracket + 2, end) {
                Some(close) => {
                    return (close + 2, Tok::Link);
                },
                None => {
                    return (i + 1, Tok::Plain);
                },
            }
        }
        if bracket < end && b[bracket] == 91 {
            match find_byte_idx(b, 93, bracket + 1, end) {
                Some(rb) => {
                    if rb + 1 < end && b[rb + 1] == 40 {
                        match find_byte_idx(b, 41, rb + 1, end) {
                            Some(rp) => {
                                return (rp + 1, Tok::Link);
                            },
                            None => {
                                return (i + 1, Tok::Plain);
                            },
                        }
                    }
                    return (i + 1, Tok::Plain);
                },
                None => {
                    return (i + 1, Tok::Plain);
                },
            }
        }
        return (i + 1, Tok::Plain);
    }
    (i + 1, Tok::Plain)
}

fn is_word_byte_exec(x: u8) -> (r: bool)
    ensures
        r == is_word_byte(x),
{
    (48 <= x && x <= 57) || (65 <= x && x <= 90) || (97 <= x && x <= 122) || x >= 128
}

/// One line step of [`lines_segs`], as the highlighting loop takes it.
proof fn lemma_lines_step(b: Seq<u8>, pos: int, f: bool, sp: Seq<Span>)
    requires
        0 <= pos < b.len(),
    ensures
        ({
            let le = line_end(b, pos);
            let ls = line_segs(b, pos, le, f);
            &&& le < b.len() ==> push_all(sp, lines_segs(b, pos, f)) == push_all(
                push_all(sp, ls.0),
                seq![mk(le, le + 1, Tok::Plain)] + lines_segs(b, le + 1, ls.1),
            )
            &&& le >= b.len() ==> push_all(sp, lines_segs(b, pos, f)) == push_all(
                push_all(sp, ls.0),
                lines_segs(b, le, ls.1),
            )
        }),
{
    lemma_find_byte(b, 10, pos, b.len() as int);
    let le = line_end(b, pos);
    let ls = line_segs(b, pos, le, f);
    if le < b.len() {
        let rest = lines_segs(b, le + 1, ls.1);
        assert(lines_segs(b, pos, f) == ls.0 + seq![mk(le, le + 1, Tok::Plain)] + rest);
        assert(ls.0 + seq![mk(le, le + 1, Tok::Plain)] + rest =~= ls.0 + (seq![
            mk(le, le + 1, Tok::Plain),
        ] + rest));
        lemma_push_all_concat(sp, ls.0, seq![mk(le, le + 1, Tok::Plain)] + rest);
    } else {
        assert(lines_segs(b, pos, f) == ls.0);
        assert(lines_segs(b, le, ls.1) == Seq::<Span>::empty());
    }
}

/// Highlight Markdown text into contiguous spans covering [0, text.len()).
pub fn highlight(text: &str) -> (spans: Vec<Span>)
    ensures
        spans@ == highlight_spec(text.spec_bytes()),
        is_cover(spans@, text.spec_bytes().len() as int),
{
    let b = text.as_bytes();
    let len = b.len();
    let mut sb = SpanBuilder { spans: Vec::new() };
    let mut pos: usize = 0;
    match front_matter_bounds(b) {
        Some((_, _, bs)) => {
            proof {
                lemma_front_matter_split(b@);
                lemma_push_all_one(
                    sb.spans@,
                    mk(0, bs - 1, Tok::FrontMatter),
                    lines_segs(b@, bs - 1, false),
                );
            }
            sb.push(0, bs - 1, Tok::FrontMatter);
            pos = bs - 1;
        },
        None => {},
    }
    let mut in_fence = false;
    while pos < len
        invariant
            len == b@.len(),
            pos <= len,
            push_all(sb.spans@, lines_segs(b@, pos as int, in_fence)) == highlight_spec(b@),
        decreases len - pos,
    {
        proof {
            lemma_find_byte(b@, 10, pos as int, len as int);
        }
        let le = match find_byte_idx(b, 10, pos, len) {
            Some(k) => k,
            None => len,
        };
        let ghost ls = line_segs(b@, pos as int, le as int, in_fence);
        let ghost sp0 = sb.spans@;
        proof {
            lemma_lines_step(b@, pos as int, in_fence, sp0);
        }
        let f2 = sb.line(b, pos, le, in_fence);
        if le < len {
            proof {
                lemma_push_all_one(
                    sb.spans@,
                    mk(le as int, le + 1, Tok::Plain),
                    lines_segs(b@, le + 1, f2),
                );
            }
            sb.push(le, le + 1, Tok::Plain);
            pos = le + 1;
        } else {
            pos = le;
        }
        in_fence = f2;
    }
    proof {
        lemma_highlight_covers(b@);
    }
    sb.spans
}

} // verus!

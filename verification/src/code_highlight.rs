//! Code highlighting with syntect: the content of a code block becomes
//! colored byte ranges that tile it.

use syntect::easy::HighlightLines;
use syntect::util::LinesWithEndings;
use syntect::highlighting::{Theme, ThemeSet};
use syntect::parsing::SyntaxSet;
use vstd::prelude::*;
use vstd::string::StringSliceAdditionalSpecFns;
use vstd::utf8::decode_utf8;

use crate::text::{lemma_ascii_boundary, lowercase, substr, to_lower, trim_slice, trimmed};

verus! {

#[verifier::external_type_specification]
#[verifier::external_body]
pub struct ExSyntaxSet(SyntaxSet);

#[verifier::external_type_specification]
#[verifier::external_body]
pub struct ExTheme(Theme);

#[verifier::external_type_specification]
#[verifier::external_body]
pub struct ExThemeSet(ThemeSet);

/// The syntaxes syntect ships, for text with newlines.
///
/// Calls `SyntaxSet::load_defaults_newlines`.
#[verifier::external_body]
fn load_syntax_set() -> SyntaxSet {
    SyntaxSet::load_defaults_newlines()
}

/// The themes syntect ships.
///
/// Calls `ThemeSet::load_defaults`.
#[verifier::external_body]
fn load_theme_set() -> ThemeSet {
    ThemeSet::load_defaults()
}

/// A copy of the theme named `name`, if the set has one.
///
/// Looks `name` up in `ThemeSet::themes` and clones the theme.
#[verifier::external_body]
fn theme_named(set: &ThemeSet, name: &str) -> Option<Theme> {
    set.themes.get(name).cloned()
}

/// The default theme.
///
/// Calls `Theme::default`.
#[verifier::external_body]
fn default_theme() -> Theme {
    Theme::default()
}

/// Sum of the lengths of highlighted pieces.
pub open spec fn pieces_len(p: Seq<(usize, [u8; 4])>) -> int
    decreases p.len(),
{
    if p.len() == 0 {
        0
    } else {
        pieces_len(p.drop_last()) + p.last().0
    }
}

/// A colored range of the code (byte offsets relative to the code).
#[derive(Debug, Clone, PartialEq)]
pub struct ColorSpan {
    pub start: usize,
    pub end: usize,
    pub color: [u8; 4],
}

/// The spans tile `[0, len)`: none for empty code, else non-empty,
/// contiguous, from 0 to `len`.
pub open spec fn tiles(spans: Seq<ColorSpan>, len: int) -> bool {
    &&& spans.len() == 0 <==> len == 0
    &&& spans.len() > 0 ==> spans[0].start == 0 && spans.last().end == len
    &&& forall|k: int| 0 <= k < spans.len() ==> #[trigger] spans[k].start < spans[k].end
    &&& forall|k: int| 0 < k < spans.len() ==> #[trigger] spans[k - 1].end == spans[k].start
}

/// The color of code without a recognized language.
pub open spec fn plain_color() -> [u8; 4] {
    [152, 206, 206, 255]
}

pub struct CodeHighlighter {
    syntax_set: SyntaxSet,
    theme: Theme,
}

impl Default for CodeHighlighter {
    fn default() -> Self {
        let set = load_theme_set();
        let theme = match theme_named(&set, "base16-ocean.dark") {
            Some(t) => t,
            None => default_theme(),
        };
        CodeHighlighter { syntax_set: load_syntax_set(), theme }
    }
}

/// The pieces (byte length and RGBA foreground color) that syntect gives for
/// `code` in the language `token`; `None` when syntect knows no such
/// language.
pub uninterp spec fn syntect_pieces(token: Seq<char>, code: Seq<char>) -> Option<Seq<(usize, [u8; 4])>>;

/// The colored pieces of `code` in the language `token`.
///
/// Calls `SyntaxSet::find_syntax_by_token`, then `find_syntax_by_extension`,
/// for the syntax; `HighlightLines::new` with the highlighter's theme; and
/// `HighlightLines::highlight_line` on each line of `LinesWithEndings`,
/// until a line fails. Every highlighter holds syntect's built-in syntaxes
/// and the same theme (see its `Default`), so the pieces are a function of
/// the token and the code, which the contract names. Each piece is a part of
/// its line, in order, so the lengths add up to at most the code's length.
#[verifier::external_body]
fn syntect_pieces_of(h: &CodeHighlighter, token: &str, code: &str) -> (r: Option<Vec<(usize, [u8; 4])>>)
    ensures
        match r {
            Some(p) => syntect_pieces(token@, code@) == Some(p@) && pieces_len(p@) <= code.spec_bytes().len(),
            None => syntect_pieces(token@, code@) is None,
        },
{
    let set = &h.syntax_set;
    let syntax = set.find_syntax_by_token(token).or_else(|| set.find_syntax_by_extension(token))?;
    let mut hl = HighlightLines::new(syntax, &h.theme);
    let mut out: Vec<(usize, [u8; 4])> = Vec::new();
    for line in LinesWithEndings::from(code) {
        match hl.highlight_line(line, set) {
            Ok(ranges) => out.extend(ranges.into_iter().map(|(st, t)| {
                (t.len(), [st.foreground.r, st.foreground.g, st.foreground.b, st.foreground.a])
            })),
            Err(_) => break,
        }
    }
    Some(out)
}

/// The pieces [`CodeHighlighter::highlight`] works from: none without a
/// language token, else syntect's pieces for the lowercase token, or none
/// when syntect knows no such language.
pub open spec fn highlight_pieces(info: Seq<u8>, code: Seq<char>) -> Seq<(usize, [u8; 4])> {
    let t = info_token(info);
    if t.len() == 0 {
        seq![]
    } else {
        match syntect_pieces(lowercase(decode_utf8(t)), code) {
            Some(p) => p,
            None => seq![],
        }
    }
}

fn same_color(a: [u8; 4], b: [u8; 4]) -> (r: bool)
    ensures
        r == (a@ == b@),
{
    let r = a[0] == b[0] && a[1] == b[1] && a[2] == b[2] && a[3] == b[3];
    proof {
        if r {
            assert(a@ =~= b@);
        }
        if a@ == b@ {
            assert(a@[0] == b@[0] && a@[1] == b@[1] && a@[2] == b@[2] && a@[3] == b@[3]);
        }
    }
    r
}

/// The language token of an info string: trimmed, up to the first `,` or
/// space, trimmed again.
pub open spec fn info_token(info: Seq<u8>) -> Seq<u8> {
    let t = trimmed(info);
    trimmed(t.subrange(0, first_sep(t, 0)))
}

/// First offset from `i` on with a `,` or a space, or the end.
pub open spec fn first_sep(t: Seq<u8>, i: int) -> int
    decreases t.len() - i,
{
    if i < 0 || i >= t.len() {
        t.len() as int
    } else if t[i] == 44 || t[i] == 32 {
        i
    } else {
        first_sep(t, i + 1)
    }
}

impl CodeHighlighter {
    /// The language token of the info string ("rust", "js", ...), trimmed
    /// and lowercased; none when it is empty.
    fn language_token(&self, info: &str) -> (r: Option<String>)
        ensures
            match r {
                Some(t) => info_token(info.spec_bytes()).len() > 0 && t@ == lowercase(
                    decode_utf8(info_token(info.spec_bytes())),
                ),
                None => info_token(info.spec_bytes()).len() == 0,
            },
    {
        let b = info.as_bytes();
        let lo = crate::text::trim_start_idx(b, 0, b.len());
        let hi = crate::text::trim_end_idx(b, lo, b.len());
        proof {
            vstd::utf8::encode_utf8_valid_utf8(info@);
            vstd::utf8::is_char_boundary_start_end_of_seq(b@);
            crate::text::lemma_trim_start_boundary(b@, 0, b@.len() as int);
            crate::text::lemma_trim_end_boundary(b@, lo as int, b@.len() as int);
            crate::text::lemma_trim_sub(b@, 0, b@.len() as int);
            assert(b@.subrange(0, b@.len() as int) =~= b@);
        }
        let mut k = lo;
        while k < hi && b[k] != 44 && b[k] != 32
            invariant
                lo <= k <= hi <= b@.len(),
                first_sep(b@.subrange(lo as int, hi as int), 0) == first_sep(
                    b@.subrange(lo as int, hi as int),
                    k - lo,
                ),
            decreases hi - k,
        {
            k += 1;
        }
        proof {
            if k < hi {
                lemma_ascii_boundary(b@, k as int);
            }
            assert(b@.subrange(lo as int, hi as int).subrange(0, k - lo) =~= b@.subrange(
                lo as int,
                k as int,
            ));
        }
        let piece = substr(info, lo, k);
        let token = trim_slice(piece.as_bytes());
        if token.len() == 0 {
            return None;
        }
        proof {
            crate::text::lemma_trim_sub(b@, lo as int, k as int);
        }
        let tl = crate::text::trim_start_idx(b, lo, k);
        let th = crate::text::trim_end_idx(b, tl, k);
        proof {
            crate::text::lemma_valid_sub(b@, lo as int, k as int);
            crate::text::lemma_trim_start_boundary(b@, lo as int, k as int);
            crate::text::lemma_trim_end_boundary(b@, tl as int, k as int);
        }
        let t = substr(info, tl, th);
        proof {
            vstd::utf8::encode_utf8_decode_utf8(t@);
            vstd::utf8::encode_utf8_valid_utf8(t@);
        }
        Some(to_lower(t))
    }

    /// Colors `code` for the language named by `info`: syntect's pieces for
    /// the language become spans as [`spans_from_pieces`] says, the part of
    /// the code they do not reach (after a line syntect fails on) is plain.
    /// Without a language token, or for a language syntect does not know,
    /// the code is one plain span.
    pub fn highlight(&self, code: &str, info: &str) -> (r: Vec<ColorSpan>)
        ensures
            r@ == span_spec(highlight_pieces(info.spec_bytes(), code@), code.spec_bytes().len() as int),
            tiles(r@, code.spec_bytes().len() as int),
    {
        let len = code.as_bytes().len();
        let all: Vec<(usize, [u8; 4])> = match self.language_token(info) {
            None => Vec::new(),
            Some(t) => match syntect_pieces_of(self, t.as_str(), code) {
                Some(p) => p,
                None => Vec::new(),
            },
        };
        proof {
            if all@.len() == 0 {
                assert(all@ =~= seq![]);
            }
        }
        spans_from_pieces(&all, len)
    }
}

/// Two colors are the same.
pub open spec fn same_rgba(a: [u8; 4], b: [u8; 4]) -> bool {
    a@ == b@
}

/// The spans of consecutive pieces: a piece of length 0 adds nothing, a
/// piece with the color of the span before it extends that span, any other
/// starts a new span.
pub open spec fn merge_spec(p: Seq<(usize, [u8; 4])>) -> Seq<ColorSpan>
    decreases p.len(),
{
    if p.len() == 0 {
        seq![]
    } else {
        let prev = merge_spec(p.drop_last());
        let start = pieces_len(p.drop_last());
        let n = p.last().0;
        let c = p.last().1;
        if n == 0 {
            prev
        } else if prev.len() > 0 && same_rgba(prev.last().color, c) {
            prev.update(
                prev.len() - 1,
                ColorSpan { start: prev.last().start, end: (start + n) as usize, color: c },
            )
        } else {
            prev.push(ColorSpan { start: start as usize, end: (start + n) as usize, color: c })
        }
    }
}

/// The spans of a code text of `len` bytes from the pieces of its first
/// lines: the merged pieces, then, when they cover less than the code, the
/// rest as one plain span.
pub open spec fn span_spec(p: Seq<(usize, [u8; 4])>, len: int) -> Seq<ColorSpan> {
    let done = pieces_len(p);
    if done < len {
        merge_spec(p).push(ColorSpan { start: done as usize, end: len as usize, color: plain_color() })
    } else {
        merge_spec(p)
    }
}

/// No two neighbouring spans have the same color.
pub open spec fn distinct_neighbours(s: Seq<ColorSpan>) -> bool {
    forall|k: int| 0 < k < s.len() ==> !same_rgba(#[trigger] s[k - 1].color, s[k].color)
}

/// The spans of a code text of `len` bytes from the pieces (byte length and
/// color) that syntect gave for its lines, in order; pieces that cover less
/// than the code stand for a line syntect could not parse, and the rest of
/// the code is then one plain span.
pub fn spans_from_pieces(pieces: &Vec<(usize, [u8; 4])>, len: usize) -> (r: Vec<ColorSpan>)
    requires
        pieces_len(pieces@) <= len,
    ensures
        r@ == span_spec(pieces@, len as int),
        tiles(r@, len as int),
        distinct_neighbours(merge_spec(pieces@)),
{
    let plain: [u8; 4] = [152, 206, 206, 255];
    proof {
        assert(plain == plain_color());
    }
    let mut out: Vec<ColorSpan> = Vec::new();
    let mut pos: usize = 0;
    let mut k: usize = 0;
    proof {
        assert(pieces@.subrange(0, 0) =~= seq![]);
    }
    while k < pieces.len()
        invariant
            k <= pieces@.len(),
            pieces_len(pieces@) <= len,
            pos == pieces_len(pieces@.subrange(0, k as int)),
            out@ == merge_spec(pieces@.subrange(0, k as int)),
            tiles(out@, pos as int),
            distinct_neighbours(out@),
        decreases pieces@.len() - k,
    {
        proof {
            assert(pieces@.subrange(0, k + 1).drop_last() =~= pieces@.subrange(0, k as int));
            lemma_pieces_prefix(pieces@, k + 1);
        }
        let (n, color) = pieces[k];
        let start = pos;
        let end = pos + n;
        if n > 0 {
            let m = out.len();
            if m > 0 && same_color(out[m - 1].color, color) && out[m - 1].end == start {
                let last = ColorSpan { start: out[m - 1].start, end, color };
                out.set(m - 1, last);
            } else {
                out.push(ColorSpan { start, end, color });
            }
        }
        pos = end;
        k += 1;
    }
    proof {
        assert(pieces@.subrange(0, pieces@.len() as int) =~= pieces@);
    }
    if pos < len {
        out.push(ColorSpan { start: pos, end: len, color: plain });
    }
    out
}

/// A prefix of the pieces is no longer than all of them.
proof fn lemma_pieces_prefix(p: Seq<(usize, [u8; 4])>, k: int)
    requires
        0 <= k <= p.len(),
    ensures
        pieces_len(p.subrange(0, k)) <= pieces_len(p),
        pieces_len(p.subrange(0, k)) >= 0,
    decreases p.len() - k,
{
    if k < p.len() {
        lemma_pieces_prefix(p, k + 1);
        assert(p.subrange(0, k + 1).drop_last() =~= p.subrange(0, k));
    } else {
        assert(p.subrange(0, k) =~= p);
    }
    lemma_pieces_nonneg(p.subrange(0, k));
}

proof fn lemma_pieces_nonneg(p: Seq<(usize, [u8; 4])>)
    ensures
        pieces_len(p) >= 0,
    decreases p.len(),
{
    if p.len() > 0 {
        lemma_pieces_nonneg(p.drop_last());
    }
}

} // verus!

//! Byte offsets ↔ line/character positions, in both position encodings.
//!
//! Everything inside works in byte offsets, because that is what the parser
//! reports. An editor speaks of (line, character), where "character" means UTF-16
//! code units by default and UTF-8 bytes only if the client agreed to it.
use vstd::prelude::*;
use vstd::string::StringSliceAdditionalSpecFns;
use vstd::utf8::{
    encode_scalar, encode_utf8, encode_utf8_valid_utf8, is_char_boundary,
    is_char_boundary_iff_not_is_continuation_byte, is_char_boundary_start_end_of_seq,
    is_continuation_byte, valid_first_scalar, valid_utf8, valid_utf8_split,
};

use crate::grammar::{left, utf8_width, NEWLINE};

verus! {

/// Which unit the client counts `character` in.
#[derive(Debug, Clone, Copy, PartialEq, Eq, Structural, Default)]
pub enum PositionEncoding {
    /// UTF-16 code units — the default, assumed when nothing is negotiated.
    #[default]
    Utf16,
    /// UTF-8 bytes, which needs no conversion at all. Preferred when offered.
    Utf8,
}

/// A (line, character) position, in whichever encoding is in force.
#[derive(Debug, Clone, Copy, PartialEq, Eq, Structural, PartialOrd, Ord)]
pub struct LinePos {
    pub line: u32,
    pub character: u32,
}

// ---------------------------------------------------------------------- lines
/// Number of newlines in the first `n` bytes.
pub open spec fn newlines(b: Seq<u8>, n: int) -> nat
    decreases n,
{
    if n <= 0 {
        0
    } else {
        newlines(b, n - 1) + (if b[n - 1] == NEWLINE {
            1nat
        } else {
            0nat
        })
    }
}

/// Start of the line that offset `n` lies in: after the last newline before it.
pub open spec fn line_begin(b: Seq<u8>, n: int) -> int
    decreases n,
{
    if n <= 0 {
        0
    } else if b[n - 1] == NEWLINE {
        n
    } else {
        line_begin(b, n - 1)
    }
}

/// The starts of the lines that begin within the first `n` bytes.
pub open spec fn starts(b: Seq<u8>, n: int) -> Seq<int>
    decreases n,
{
    if n <= 0 {
        seq![0]
    } else if b[n - 1] == NEWLINE {
        starts(b, n - 1).push(n)
    } else {
        starts(b, n - 1)
    }
}

/// The end of line `line`: where the next one starts, or the end of the text.
pub open spec fn line_end(b: Seq<u8>, line: int) -> int {
    let all = starts(b, b.len() as int);
    if line + 1 < all.len() {
        all[line + 1]
    } else {
        b.len() as int
    }
}

proof fn lemma_starts(b: Seq<u8>, m: int, n: int)
    requires
        0 <= m <= n <= b.len(),
    ensures
        starts(b, m).len() == newlines(b, m) + 1,
        starts(b, m).len() <= m + 1,
        starts(b, n).len() >= starts(b, m).len(),
        starts(b, n).take(starts(b, m).len() as int) == starts(b, m),
        starts(b, m).last() == line_begin(b, m),
        0 <= line_begin(b, m) <= m,
    decreases m + n,
{
    if m < n {
        lemma_starts(b, m, n - 1);
        assert(starts(b, n).take(starts(b, m).len() as int) =~= starts(b, n - 1).take(
            starts(b, m).len() as int,
        ));
    } else if m > 0 {
        lemma_starts(b, m - 1, m - 1);
        assert(starts(b, n).take(starts(b, m).len() as int) =~= starts(b, m));
    } else {
        assert(starts(b, n).take(starts(b, m).len() as int) =~= starts(b, m));
    }
}

/// A line begins by each of its offsets.
pub(crate) proof fn lemma_line_begin(b: Seq<u8>, n: int)
    requires
        0 <= n,
    ensures
        0 <= line_begin(b, n) <= n,
    decreases n,
{
    if n > 0 && b[n - 1] != NEWLINE {
        lemma_line_begin(b, n - 1);
    }
}

/// Lines start in order, inside the text.
proof fn lemma_starts_sorted(b: Seq<u8>, n: int)
    requires
        0 <= n <= b.len(),
    ensures
        starts(b, n).len() >= 1,
        starts(b, n)[0] == 0,
        forall|i: int, j: int|
            0 <= i < j < starts(b, n).len() ==> starts(b, n)[i] < starts(b, n)[j],
        forall|i: int| 0 <= i < starts(b, n).len() ==> 0 <= #[trigger] starts(b, n)[i] <= n,
    decreases n,
{
    if n > 0 {
        lemma_starts_sorted(b, n - 1);
    }
}

/// The start of a line has that line's number, and so has every offset in it.
proof fn lemma_line_of(b: Seq<u8>, line: int, n: int)
    requires
        0 <= line < starts(b, b.len() as int).len(),
        0 <= n,
        starts(b, b.len() as int)[line] <= n <= b.len(),
        line + 1 < starts(b, b.len() as int).len() ==> n < starts(b, b.len() as int)[line + 1],
    ensures
        newlines(b, n) == line,
        line_begin(b, n) == starts(b, b.len() as int)[line],
{
    let all = starts(b, b.len() as int);
    lemma_starts(b, n, b.len() as int);
    lemma_starts_sorted(b, b.len() as int);
    let upto = starts(b, n);
    lemma_starts_sorted(b, n);
    let k = upto.len() - 1;
    assert(all.take(upto.len() as int)[k] == all[k]);
    assert(all[k] == line_begin(b, n));
    if k < line {
        // Line `line` starts by `n`, so it is among the starts up to `n`.
        lemma_starts_complete(b, line, n);
    }
}

proof fn lemma_starts_complete(b: Seq<u8>, line: int, n: int)
    requires
        0 <= line < starts(b, b.len() as int).len(),
        0 <= n,
        starts(b, b.len() as int)[line] <= n <= b.len(),
    ensures
        line < starts(b, n).len(),
    decreases b.len() - n,
{
    if n < b.len() {
        lemma_starts_complete(b, line, n + 1);
        lemma_starts(b, n + 1, b.len() as int);
        if line == starts(b, n).len() {
            let up = starts(b, n + 1);
            assert(starts(b, b.len() as int).take(up.len() as int)[line] == up[line]);
        }
    }
}

// ---------------------------------------------------------------------- units
/// Whether a byte begins a character of more than one byte.
pub open spec fn is_wide(c: u8) -> bool {
    utf8_width(c) > 1
}

/// Number of UTF-16 code units of the character that a byte begins.
pub open spec fn utf16_width(c: u8) -> int {
    if utf8_width(c) == 4 {
        2
    } else {
        1
    }
}

/// How many fewer UTF-16 units than bytes the characters that begin in `from..to`
/// take.
pub open spec fn saved(b: Seq<u8>, from: int, to: int) -> nat
    decreases to - from,
{
    if to <= from {
        0
    } else {
        saved(b, from, to - 1) + (utf8_width(b[to - 1]) - utf16_width(b[to - 1])) as nat
    }
}

/// Number of UTF-16 units in `from..to`. Of a character that is cut off by `to`
/// all units are counted, but no fewer than none.
pub open spec fn utf16_units(b: Seq<u8>, from: int, to: int) -> int {
    if to - from >= saved(b, from, to) {
        to - from - saved(b, from, to)
    } else {
        0
    }
}

/// The offset `units` UTF-16 units after `p`, or `end` if that comes first. Inside
/// a surrogate pair it is the start of the pair.
pub open spec fn utf16_advance(b: Seq<u8>, p: int, end: int, units: int) -> int
    decreases left(p, end),
{
    if p >= end || units <= 0 {
        p
    } else if units < utf16_width(b[p]) {
        p
    } else {
        utf16_advance(b, p + utf8_width(b[p]), end, units - utf16_width(b[p]))
    }
}

// ------------------------------------------------------------------ positions
/// The position of a byte offset; one past the end counts as the end.
pub open spec fn position_of(b: Seq<u8>, offset: int, enc: PositionEncoding) -> LinePos {
    let at = if offset < b.len() {
        offset
    } else {
        b.len() as int
    };
    let begin = line_begin(b, at);
    LinePos {
        line: newlines(b, at) as u32,
        character: (match enc {
            PositionEncoding::Utf8 => at - begin,
            PositionEncoding::Utf16 => utf16_units(b, begin, at),
        }) as u32,
    }
}

/// The byte offset of a position. A line past the last one counts as the last, and
/// a character past the end of its line as the end of the line.
pub open spec fn offset_of(b: Seq<u8>, pos: LinePos, enc: PositionEncoding) -> int {
    let all = starts(b, b.len() as int);
    let line = if pos.line < all.len() {
        pos.line as int
    } else {
        all.len() - 1
    };
    let begin = all[line];
    let end = line_end(b, line);
    match enc {
        PositionEncoding::Utf8 => if begin + pos.character < end {
            begin + pos.character
        } else {
            end
        },
        PositionEncoding::Utf16 => utf16_advance(b, begin, end, pos.character as int),
    }
}

// ---------------------------------------------------------- wide characters
/// The offsets of the wide characters that begin within the first `n` bytes.
spec fn wides(b: Seq<u8>, n: int) -> Seq<int>
    decreases n,
{
    if n <= 0 {
        seq![]
    } else if is_wide(b[n - 1]) {
        wides(b, n - 1).push(n - 1)
    } else {
        wides(b, n - 1)
    }
}

/// The `k`-th wide character has `k` before it.
proof fn lemma_wides(b: Seq<u8>, n: int, k: int)
    requires
        0 <= k < wides(b, n).len(),
    ensures
        0 <= wides(b, n)[k] < n,
        is_wide(b[wides(b, n)[k]]),
        wides(b, wides(b, n)[k]).len() == k,
    decreases n,
{
    if n > 0 {
        if !is_wide(b[n - 1]) || k < wides(b, n - 1).len() {
            lemma_wides(b, n - 1, k);
        }
    }
}

/// Between two offsets with as many wide characters before them lies none.
proof fn lemma_no_wide_between(b: Seq<u8>, from: int, p: int, q: int)
    requires
        0 <= from <= p <= q,
    ensures
        wides(b, p).len() <= wides(b, q).len(),
        wides(b, p).len() == wides(b, q).len() ==> {
            &&& saved(b, from, p) == saved(b, from, q)
            &&& forall|j: int| p <= j < q ==> !is_wide(#[trigger] b[j])
        },
    decreases q - p,
{
    if p < q {
        lemma_no_wide_between(b, from, p, q - 1);
    }
}

proof fn lemma_no_wide_inside(b: Seq<u8>, p: int, q: int)
    requires
        0 <= p <= q,
        forall|j: int| p <= j < q ==> !is_wide(#[trigger] b[j]),
    ensures
        wides(b, p).len() == wides(b, q).len(),
    decreases q - p,
{
    if p < q {
        lemma_no_wide_inside(b, p, q - 1);
    }
}

/// Characters of one byte are one unit each.
proof fn lemma_advance_narrow(b: Seq<u8>, p: int, q: int, end: int, units: int)
    requires
        0 <= p <= q <= end,
        forall|j: int| p <= j < q ==> !is_wide(#[trigger] b[j]),
        units >= 0,
    ensures
        utf16_advance(b, p, end, units) == if units <= q - p {
            p + units
        } else {
            utf16_advance(b, q, end, units - (q - p))
        },
    decreases q - p,
{
    if p < q && units > 0 {
        assert(!is_wide(b[p]));
        lemma_advance_narrow(b, p + 1, q, end, units - 1);
    }
}

/// The bytes of a wide character after its first are continuation bytes.
proof fn lemma_wide_char(b: Seq<u8>, q: int)
    requires
        valid_utf8(b),
        0 <= q < b.len(),
        is_wide(b[q]),
    ensures
        q + utf8_width(b[q]) <= b.len(),
        forall|j: int|
            q < j < q + utf8_width(b[q]) ==> is_continuation_byte(#[trigger] b[j]),
        is_char_boundary(b, q),
{
    is_char_boundary_iff_not_is_continuation_byte(b, q);
    valid_utf8_split(b, q);
    let rest = b.subrange(q, b.len() as int);
    assert(rest[0] == b[q]);
    assert(valid_first_scalar(rest));
    assert forall|j: int| q < j < q + utf8_width(b[q]) implies is_continuation_byte(
        #[trigger] b[j],
    ) by {
        assert(b[j] == rest[j - q]);
    }
}

/// A wide character does not reach over the end of its line.
proof fn lemma_wide_in_line(b: Seq<u8>, line: int, q: int)
    requires
        valid_utf8(b),
        0 <= line < starts(b, b.len() as int).len(),
        0 <= q < line_end(b, line),
        is_wide(b[q]),
    ensures
        q + utf8_width(b[q]) <= line_end(b, line),
{
    lemma_starts_sorted(b, b.len() as int);
    lemma_wide_char(b, q);
    let end = line_end(b, line);
    if q + utf8_width(b[q]) > end {
        assert(line + 1 < starts(b, b.len() as int).len());
        lemma_start_after_newline(b, b.len() as int, line + 1);
        assert(b[end - 1] == NEWLINE);
        if end - 1 > q {
            assert(is_continuation_byte(b[end - 1]));
        }
    }
}

proof fn lemma_start_after_newline(b: Seq<u8>, n: int, line: int)
    requires
        0 <= n <= b.len(),
        0 < line < starts(b, n).len(),
    ensures
        0 < starts(b, n)[line] <= n,
        b[starts(b, n)[line] - 1] == NEWLINE,
    decreases n,
{
    if n > 0 {
        if b[n - 1] != NEWLINE || line < starts(b, n - 1).len() {
            lemma_start_after_newline(b, n - 1, line);
        }
    }
}

// ---------------------------------------------------------------- the index
#[derive(Debug, Clone, Copy)]
struct WideChar {
    /// Byte offset of the character.
    start: usize,
    /// Its length in UTF-8 bytes.
    len_utf8: usize,
    /// Its length in UTF-16 code units (1, or 2 for anything above the BMP).
    len_utf16: usize,
}

/// Maps between byte offsets and line/character positions for one document version.
pub struct LineIndex {
    /// Byte offset at which each line starts. Always begins with 0.
    line_starts: Vec<usize>,
    /// Number of wide characters before each line.
    wide_before: Vec<usize>,
    /// The characters of more than one byte. Everywhere else all unit counts
    /// coincide and conversion is a plain subtraction.
    wide: Vec<WideChar>,
    len: usize,
    text: Ghost<Seq<u8>>,
}

impl View for LineIndex {
    type V = Seq<u8>;

    /// The bytes of the text.
    closed spec fn view(&self) -> Seq<u8> {
        self.text@
    }
}

spec fn wide_entry(b: Seq<u8>, w: WideChar) -> bool {
    &&& w.len_utf8 == utf8_width(b[w.start as int])
    &&& w.len_utf16 == utf16_width(b[w.start as int])
}

spec fn tables(
    b: Seq<u8>,
    n: int,
    line_starts: Seq<usize>,
    wide_before: Seq<usize>,
    wide: Seq<WideChar>,
) -> bool {
    &&& line_starts.map_values(|s: usize| s as int) == starts(b, n)
    &&& wide.map_values(|w: WideChar| w.start as int) == wides(b, n)
    &&& wide_before.len() == line_starts.len()
    &&& forall|l: int|
        0 <= l < line_starts.len() ==> #[trigger] wide_before[l] == wides(
            b,
            line_starts[l] as int,
        ).len()
    &&& forall|k: int| 0 <= k < wide.len() ==> wide_entry(b, #[trigger] wide[k])
}

impl LineIndex {
    #[verifier::type_invariant]
    spec fn well_formed(self) -> bool {
        &&& valid_utf8(self.text@)
        &&& self.text@.len() < u32::MAX
        &&& self.len == self.text@.len()
        &&& tables(
            self.text@,
            self.len as int,
            self.line_starts@,
            self.wide_before@,
            self.wide@,
        )
    }

    pub fn new(text: &str) -> (index: Self)
        requires
            text.spec_bytes().len() < u32::MAX,
        ensures
            index@ == text.spec_bytes(),
    {
        let bytes = text.as_bytes();
        let ghost b = bytes@;
        let mut line_starts: Vec<usize> = vec![0];
        let mut wide_before: Vec<usize> = vec![0];
        let mut wide: Vec<WideChar> = Vec::new();
        let mut i: usize = 0;
        proof {
            encode_utf8_valid_utf8(text@);
            assert(line_starts@.map_values(|s: usize| s as int) =~= starts(b, 0));
            assert(wide@.map_values(|w: WideChar| w.start as int) =~= wides(b, 0));
        }
        while i < bytes.len()
            invariant
                i <= bytes@.len() == b.len(),
                bytes@ == b,
                b.len() < u32::MAX,
                tables(b, i as int, line_starts@, wide_before@, wide@),
            decreases bytes@.len() - i,
        {
            let c = bytes[i];
            let ghost s0 = line_starts@;
            let ghost w0 = wide@;
            let ghost b0 = wide_before@;
            if c == NEWLINE {
                let before: usize = wide.len();
                line_starts.push(i + 1);
                wide_before.push(before);
                proof {
                    assert(line_starts@.map_values(|s: usize| s as int) =~= starts(
                        b,
                        i + 1,
                    ));
                    assert(w0.map_values(|w: WideChar| w.start as int).len() == before);
                    assert forall|l: int| 0 <= l < line_starts@.len() implies #[trigger] wide_before@[l]
                        == wides(b, line_starts@[l] as int).len() by {
                        if l < s0.len() {
                            assert(wide_before@[l] == b0[l]);
                            assert(line_starts@[l] == s0[l]);
                        }
                    }
                }
            } else {
                let width: usize = if 0xC0 <= c && c < 0xE0 {
                    2
                } else if 0xE0 <= c && c < 0xF0 {
                    3
                } else if 0xF0 <= c && c < 0xF8 {
                    4
                } else {
                    1
                };
                if width > 1 {
                    let units: usize = if width == 4 {
                        2
                    } else {
                        1
                    };
                    wide.push(WideChar { start: i, len_utf8: width, len_utf16: units });
                    assert(wide@.map_values(|w: WideChar| w.start as int) =~= wides(b, i + 1));
                }
            }
            i = i + 1;
        }
        LineIndex { line_starts, wide_before, wide, len: bytes.len(), text: Ghost(b) }
    }

    pub fn line_count(&self) -> (n: u32)
        ensures
            n == newlines(self@, self@.len() as int) + 1,
            self@.len() < u32::MAX,
    {
        proof {
            use_type_invariant(self);
            lemma_starts(self.text@, self.len as int, self.len as int);
            assert(self.line_starts@.map_values(|s: usize| s as int).len()
                == self.line_starts@.len());
        }
        self.line_starts.len() as u32
    }

    /// The line that an offset lies in: the last one that starts by it.
    fn line_at(&self, offset: usize) -> (line: usize)
        requires
            offset <= self@.len(),
        ensures
            line < self.line_starts@.len(),
            line == newlines(self@, offset as int),
            self.line_starts@[line as int] == line_begin(self@, offset as int),
    {
        proof {
            use_type_invariant(self);
            lemma_starts_sorted(self.text@, self.len as int);
        }
        let ghost b = self.text@;
        let ghost all = starts(b, b.len() as int);
        assert(forall|k: int|
            0 <= k < self.line_starts@.len() ==> #[trigger] self.line_starts@[k] == self.line_starts@.map_values(
                |s: usize| s as int,
            )[k]);
        let mut lo: usize = 0;
        let mut hi: usize = self.line_starts.len();
        while hi - lo > 1
            invariant
                0 <= lo < hi <= self.line_starts@.len(),
                self.line_starts@.len() == all.len(),
                forall|k: int| 0 <= k < all.len() ==> #[trigger] self.line_starts@[k] == all[k],
                all[lo as int] <= offset,
                hi < all.len() ==> offset < all[hi as int],
            decreases hi - lo,
        {
            let mid: usize = lo + (hi - lo) / 2;
            if self.line_starts[mid] <= offset {
                lo = mid;
            } else {
                hi = mid;
            }
        }
        proof {
            lemma_line_of(b, lo as int, offset as int);
        }
        lo
    }

    /// Byte offset → position.
    pub fn position(&self, offset: usize, enc: PositionEncoding) -> (pos: LinePos)
        ensures
            pos == position_of(self@, offset as int, enc),
    {
        proof {
            use_type_invariant(self);
        }
        let ghost b = self.text@;
        let at: usize = if offset < self.len {
            offset
        } else {
            self.len
        };
        let line = self.line_at(at);
        let begin = self.line_starts[line];
        proof {
            lemma_starts(b, at as int, self.len as int);
        }
        let col: usize = at - begin;
        match enc {
            PositionEncoding::Utf8 => LinePos { line: line as u32, character: col as u32 },
            PositionEncoding::Utf16 => {
                let mut less: u64 = 0;
                let mut k: usize = self.wide_before[line];
                let ghost mut p = begin as int;
                proof {
                    lemma_wide_table(*self);
                    lemma_no_wide_between(b, 0, begin as int, self.len as int);
                }
                while k < self.wide.len() && self.wide[k].start < at
                    invariant
                        b == self.text@,
                        b.len() < u32::MAX,
                        self.wide@.len() == wides(b, b.len() as int).len(),
                        forall|m: int|
                            0 <= m < self.wide@.len() ==> (#[trigger] self.wide@[m]).start
                                == wides(b, b.len() as int)[m] && wide_entry(b, self.wide@[m]),
                        begin <= p <= at <= b.len(),
                        k <= self.wide@.len(),
                        k == wides(b, p).len(),
                        less == saved(b, begin as int, p),
                        less <= 2 * (p - begin),
                    decreases self.wide@.len() - k,
                {
                    let w = self.wide[k];
                    let ghost q = w.start as int;
                    proof {
                        lemma_wides(b, b.len() as int, k as int);
                        if q < p {
                            lemma_no_wide_between(b, 0, q + 1, p);
                        }
                        lemma_no_wide_between(b, begin as int, p, q);
                        p = q + 1;
                    }
                    less = less + (w.len_utf8 - w.len_utf16) as u64;
                    k = k + 1;
                }
                proof {
                    if k < self.wide@.len() {
                        lemma_wides(b, b.len() as int, k as int);
                        lemma_no_wide_between(
                            b,
                            begin as int,
                            at as int,
                            self.wide@[k as int].start as int,
                        );
                    } else {
                        lemma_no_wide_between(b, begin as int, at as int, b.len() as int);
                    }
                    lemma_no_wide_between(b, begin as int, p, at as int);
                }
                let units: usize = if less <= col as u64 {
                    col - less as usize
                } else {
                    0
                };
                LinePos { line: line as u32, character: units as u32 }
            },
        }
    }

    /// Position → byte offset. Out-of-range input is clamped rather than rejected,
    /// because clients legitimately send end-of-line positions past the last column.
    pub fn offset(&self, pos: LinePos, enc: PositionEncoding) -> (offset: usize)
        ensures
            offset == offset_of(self@, pos, enc),
            offset <= self@.len(),
    {
        proof {
            use_type_invariant(self);
            lemma_starts_sorted(self.text@, self.len as int);
            lemma_wide_table(*self);
        }
        let ghost b = self.text@;
        let ghost all = starts(b, b.len() as int);
        let count: usize = self.line_starts.len();
        let line: usize = if (pos.line as usize) < count {
            pos.line as usize
        } else {
            count - 1
        };
        let begin = self.line_starts[line];
        let end: usize = if line < count - 1 {
            self.line_starts[line + 1]
        } else {
            self.len
        };
        assert(begin == all[line as int]);
        assert(end == line_end(b, line as int));
        let units = pos.character as usize;
        match enc {
            PositionEncoding::Utf8 => if units < end - begin {
                begin + units
            } else {
                end
            },
            PositionEncoding::Utf16 => {
                let mut p: usize = begin;
                let mut rest: usize = units;
                let mut k: usize = self.wide_before[line];
                proof {
                    lemma_no_wide_between(b, 0, begin as int, self.len as int);
                }
                loop
                    invariant
                        b == self.text@,
                        valid_utf8(b),
                        b.len() < u32::MAX,
                        0 <= line < starts(b, b.len() as int).len(),
                        self.wide@.len() == wides(b, b.len() as int).len(),
                        forall|m: int|
                            0 <= m < self.wide@.len() ==> (#[trigger] self.wide@[m]).start
                                == wides(b, b.len() as int)[m] && wide_entry(b, self.wide@[m]),
                        end == line_end(b, line as int),
                        p <= end <= b.len(),
                        k == wides(b, p as int).len(),
                        k <= self.wide@.len(),
                        utf16_advance(b, begin as int, end as int, units as int)
                            == utf16_advance(b, p as int, end as int, rest as int),
                        units == pos.character,
                        enc == PositionEncoding::Utf16,
                        begin == starts(b, b.len() as int)[line as int],
                        line == if pos.line < starts(b, b.len() as int).len() {
                            pos.line as int
                        } else {
                            starts(b, b.len() as int).len() - 1
                        },
                    decreases end - p,
                {
                    let found = k < self.wide.len() && self.wide[k].start < end;
                    let q: usize = if found {
                        self.wide[k].start
                    } else {
                        end
                    };
                    proof {
                        if k < self.wide@.len() {
                            lemma_wides(b, b.len() as int, k as int);
                            let s = self.wide@[k as int].start as int;
                            if s < p {
                                lemma_no_wide_between(b, 0, s + 1, p as int);
                            } else {
                                lemma_no_wide_between(b, 0, p as int, s);
                            }
                        } else {
                            lemma_no_wide_between(b, 0, p as int, b.len() as int);
                        }
                        lemma_advance_narrow(
                            b,
                            p as int,
                            q as int,
                            end as int,
                            rest as int,
                        );
                    }
                    if rest <= q - p {
                        return p + rest;
                    }
                    if !found {
                        return end;
                    }
                    rest = rest - (q - p);
                    let w = self.wide[k];
                    if rest < w.len_utf16 {
                        return q;
                    }
                    proof {
                        lemma_wide_in_line(b, line as int, q as int);
                        lemma_wide_char(b, q as int);
                        lemma_no_wide_inside(b, q + 1, q + w.len_utf8);
                    }
                    rest = rest - w.len_utf16;
                    p = q + w.len_utf8;
                    k = k + 1;
                }
            },
        }
    }
}

proof fn lemma_wide_table(index: LineIndex)
    requires
        index.well_formed(),
    ensures
        index.wide@.len() == wides(index.text@, index.text@.len() as int).len(),
        index.line_starts@.len() == starts(index.text@, index.text@.len() as int).len(),
        forall|m: int|
            0 <= m < index.wide@.len() ==> (#[trigger] index.wide@[m]).start == wides(
                index.text@,
                index.text@.len() as int,
            )[m] && wide_entry(index.text@, index.wide@[m]),
        forall|l: int|
            0 <= l < index.line_starts@.len() ==> #[trigger] index.line_starts@[l] == starts(
                index.text@,
                index.text@.len() as int,
            )[l],
        forall|l: int|
            0 <= l < index.line_starts@.len() ==> #[trigger] index.wide_before@[l] == wides(
                index.text@,
                index.line_starts@[l] as int,
            ).len(),
{
    let b = index.text@;
    let w = index.wide@.map_values(|w: WideChar| w.start as int);
    let s = index.line_starts@.map_values(|s: usize| s as int);
    assert forall|m: int| 0 <= m < index.wide@.len() implies (#[trigger] index.wide@[m]).start
        == wides(b, b.len() as int)[m] && wide_entry(b, index.wide@[m]) by {
        assert(w[m] == index.wide@[m].start);
    }
    assert forall|l: int| 0 <= l < index.line_starts@.len() implies #[trigger] index.line_starts@[l]
        == starts(b, b.len() as int)[l] by {
        assert(s[l] == index.line_starts@[l]);
    }
}

// ----------------------------------------------------------------------- laws
/// Every character boundary comes back from its position, in either encoding.
pub proof fn char_boundaries_round_trip(b: Seq<u8>, offset: int, enc: PositionEncoding)
    requires
        valid_utf8(b),
        b.len() < u32::MAX,
        0 <= offset <= b.len(),
        is_char_boundary(b, offset),
    ensures
        offset_of(b, position_of(b, offset, enc), enc) == offset,
{
    let n = b.len() as int;
    let begin = line_begin(b, offset);
    lemma_starts(b, offset, n);
    lemma_starts(b, n, n);
    lemma_starts_sorted(b, n);
    let line = newlines(b, offset) as int;
    let upto = starts(b, offset);
    assert(starts(b, n).take(upto.len() as int)[line] == upto[line]);
    assert(starts(b, n)[line] == begin);
    // The next line starts after the offset.
    if line + 1 < starts(b, n).len() && starts(b, n)[line + 1] <= offset {
        lemma_starts_complete(b, line + 1, offset);
    }
    if enc is Utf16 {
        is_char_boundary_start_end_of_seq(b);
        lemma_begin_is_boundary(b, offset);
        lemma_advance_units(b, begin, offset, line_end(b, line));
    }
}

proof fn lemma_begin_is_boundary(b: Seq<u8>, n: int)
    requires
        valid_utf8(b),
        0 <= n <= b.len(),
    ensures
        0 <= line_begin(b, n) <= n,
        is_char_boundary(b, line_begin(b, n)),
    decreases n,
{
    if n <= 0 {
        is_char_boundary_start_end_of_seq(b);
    } else if b[n - 1] == NEWLINE {
        lemma_narrow_char(b, n - 1);
    } else {
        lemma_begin_is_boundary(b, n - 1);
    }
}

/// After an ASCII byte comes a character boundary.
pub(crate) proof fn lemma_narrow_char(b: Seq<u8>, q: int)
    requires
        valid_utf8(b),
        0 <= q < b.len(),
        b[q] < 0x80,
    ensures
        is_char_boundary(b, q + 1),
{
    is_char_boundary_start_end_of_seq(b);
    if q + 1 < b.len() {
        is_char_boundary_iff_not_is_continuation_byte(b, q);
        is_char_boundary_iff_not_is_continuation_byte(b, q + 1);
        valid_utf8_split(b, q);
        let rest = b.subrange(q, b.len() as int);
        assert(rest[0] == b[q]);
        let tail = vstd::utf8::pop_first_scalar(rest);
        assert(valid_utf8(tail));
        assert(tail[0] == b[q + 1]);
    }
}

/// Between two character boundaries, as many units forward as lie between them
/// leads from one to the other.
proof fn lemma_advance_units(b: Seq<u8>, p: int, to: int, end: int)
    requires
        valid_utf8(b),
        0 <= p <= to <= end <= b.len(),
        is_char_boundary(b, p),
        is_char_boundary(b, to),
    ensures
        saved(b, p, to) <= to - p,
        utf16_units(b, p, to) >= 0,
        p < to ==> utf16_units(b, p, to) > 0,
        utf16_advance(b, p, end, utf16_units(b, p, to)) == to,
    decreases to - p,
{
    if p < to {
        let w = utf8_width(b[p]);
        is_char_boundary_iff_not_is_continuation_byte(b, p);
        if is_wide(b[p]) {
            lemma_wide_char(b, p);
            if to < p + w {
                is_char_boundary_iff_not_is_continuation_byte(b, to);
                assert(is_continuation_byte(b[to]));
            }
            if p + w < b.len() {
                lemma_after_wide(b, p);
            } else {
                is_char_boundary_start_end_of_seq(b);
            }
        } else {
            valid_utf8_split(b, p);
            let rest = b.subrange(p, b.len() as int);
            assert(rest[0] == b[p]);
            assert(valid_first_scalar(rest));
            lemma_narrow_char(b, p);
        }
        lemma_advance_units(b, p + w, to, end);
        lemma_saved_split(b, p, p + w, to);
        lemma_saved_one(b, p);
    }
}

/// Where a character begins, the next boundary is as far as its first byte says.
pub(crate) proof fn lemma_next_char(b: Seq<u8>, p: int)
    requires
        valid_utf8(b),
        0 <= p < b.len(),
        is_char_boundary(b, p),
    ensures
        p + utf8_width(b[p]) <= b.len(),
        is_char_boundary(b, p + utf8_width(b[p])),
{
    is_char_boundary_start_end_of_seq(b);
    is_char_boundary_iff_not_is_continuation_byte(b, p);
    if is_wide(b[p]) {
        lemma_wide_char(b, p);
        if p + utf8_width(b[p]) < b.len() {
            lemma_after_wide(b, p);
        }
    } else {
        valid_utf8_split(b, p);
        let rest = b.subrange(p, b.len() as int);
        assert(rest[0] == b[p]);
        assert(valid_first_scalar(rest));
        lemma_narrow_char(b, p);
    }
}

/// After a wide character comes a character boundary.
proof fn lemma_after_wide(b: Seq<u8>, q: int)
    requires
        valid_utf8(b),
        0 <= q,
        is_wide(b[q]),
        q + utf8_width(b[q]) < b.len(),
    ensures
        is_char_boundary(b, q + utf8_width(b[q])),
{
    let n = q + utf8_width(b[q]);
    lemma_wide_char(b, q);
    valid_utf8_split(b, q);
    let rest = b.subrange(q, b.len() as int);
    assert(rest[0] == b[q]);
    let tail = vstd::utf8::pop_first_scalar(rest);
    assert(valid_utf8(tail));
    assert(tail[0] == b[n]);
    is_char_boundary_iff_not_is_continuation_byte(b, n);
}

proof fn lemma_saved_split(b: Seq<u8>, p: int, q: int, r: int)
    requires
        0 <= p <= q <= r,
    ensures
        saved(b, p, r) == saved(b, p, q) + saved(b, q, r),
    decreases r - q,
{
    if q < r {
        lemma_saved_split(b, p, q, r - 1);
    }
}

/// On one line a later character has no smaller column.
pub(crate) proof fn lemma_columns_grow(b: Seq<u8>, p: int, q: int)
    requires
        valid_utf8(b),
        0 <= p <= q <= b.len(),
        line_begin(b, p) == line_begin(b, q),
        is_char_boundary(b, p),
        is_char_boundary(b, q),
    ensures
        0 <= utf16_units(b, line_begin(b, p), p) <= utf16_units(b, line_begin(b, q), q) <= q,
{
    let begin = line_begin(b, p);
    lemma_begin_is_boundary(b, p);
    lemma_advance_units(b, begin, p, p);
    lemma_advance_units(b, begin, q, q);
    lemma_advance_units(b, p, q, q);
    lemma_saved_split(b, begin, p, q);
}

pub(crate) proof fn lemma_newlines_monotone(b: Seq<u8>, i: int, j: int)
    requires
        0 <= i <= j,
    ensures
        newlines(b, i) <= newlines(b, j) <= newlines(b, i) + (j - i),
    decreases j - i,
{
    if i < j {
        lemma_newlines_monotone(b, i, j - 1);
    }
}

/// Positions never go back to an earlier line.
pub(crate) proof fn lemma_lines_monotone(l: Seq<u8>, i: int, j: int, enc: PositionEncoding)
    requires
        0 <= i <= j,
        l.len() < u32::MAX,
    ensures
        position_of(l, i, enc).line <= position_of(l, j, enc).line,
{
    let n = l.len() as int;
    let x = if i < n {
        i
    } else {
        n
    };
    let y = if j < n {
        j
    } else {
        n
    };
    lemma_newlines_monotone(l, x, y);
    lemma_newlines_monotone(l, 0, x);
    lemma_newlines_monotone(l, 0, y);
}

pub(crate) proof fn lemma_same_line(b: Seq<u8>, i: int, j: int)
    requires
        0 <= i <= j,
        newlines(b, i) == newlines(b, j),
    ensures
        line_begin(b, i) == line_begin(b, j),
    decreases j - i,
{
    if i < j {
        lemma_newlines_monotone(b, i, j - 1);
        lemma_same_line(b, i, j - 1);
    }
}

/// Whether a position is not behind another.
pub open spec fn not_behind(p: LinePos, q: LinePos) -> bool {
    p.line < q.line || (p.line == q.line && p.character <= q.character)
}

/// Positions keep the order of the characters that they stand for.
pub proof fn positions_keep_the_order(b: Seq<u8>, p: int, q: int, enc: PositionEncoding)
    requires
        valid_utf8(b),
        b.len() < u32::MAX,
        0 <= p <= q <= b.len(),
        is_char_boundary(b, p),
        is_char_boundary(b, q),
    ensures
        not_behind(position_of(b, p, enc), position_of(b, q, enc)),
{
    lemma_lines_monotone(b, p, q, enc);
    lemma_newlines_monotone(b, 0, p);
    lemma_newlines_monotone(b, p, q);
    lemma_line_begin(b, p);
    lemma_line_begin(b, q);
    if position_of(b, p, enc).line == position_of(b, q, enc).line {
        lemma_same_line(b, p, q);
        lemma_columns_grow(b, p, q);
    }
}

/// One character saves what its first byte says.
proof fn lemma_saved_one(b: Seq<u8>, p: int)
    requires
        valid_utf8(b),
        0 <= p < b.len(),
        is_char_boundary(b, p),
    ensures
        saved(b, p, p + utf8_width(b[p])) == utf8_width(b[p]) - utf16_width(b[p]),
{
    let w = utf8_width(b[p]);
    reveal_with_fuel(saved, 5);
    if w > 1 {
        lemma_wide_char(b, p);
        assert(is_continuation_byte(b[p + 1]));
        if w > 2 {
            assert(is_continuation_byte(b[p + 2]));
        }
        if w > 3 {
            assert(is_continuation_byte(b[p + 3]));
        }
    }
}

/// Number of UTF-16 code units of a character: two above the basic plane.
pub open spec fn utf16_len(c: char) -> nat {
    if c as u32 >= 0x10000 {
        2
    } else {
        1
    }
}

/// Number of UTF-16 code units of a text.
pub open spec fn utf16_total(s: Seq<char>) -> nat
    decreases s.len(),
{
    if s.len() == 0 {
        0
    } else {
        utf16_len(s[0]) + utf16_total(s.drop_first())
    }
}

/// What is counted on the bytes of a text are its UTF-16 code units.
pub proof fn units_are_utf16_code_units(s: Seq<char>)
    ensures
        saved(encode_utf8(s), 0, encode_utf8(s).len() as int) <= encode_utf8(s).len(),
        utf16_units(encode_utf8(s), 0, encode_utf8(s).len() as int) == utf16_total(s),
    decreases s.len(),
{
    let b = encode_utf8(s);
    if s.len() > 0 {
        let first = encode_scalar(s[0] as u32);
        let rest = encode_utf8(s.drop_first());
        let w = first.len() as int;
        let n = b.len() as int;
        units_are_utf16_code_units(s.drop_first());
        assert(b == first + rest);
        encode_utf8_valid_utf8(s);
        is_char_boundary_start_end_of_seq(b);
        lemma_first_byte(s[0]);
        assert(b[0] == first[0]);
        lemma_saved_one(b, 0);
        lemma_saved_split(b, 0, w, n);
        lemma_saved_shift(first, rest, rest.len() as int);
    }
}

proof fn lemma_saved_shift(a: Seq<u8>, z: Seq<u8>, n: int)
    requires
        0 <= n <= z.len(),
    ensures
        saved(a + z, a.len() as int, a.len() + n) == saved(z, 0, n),
    decreases n,
{
    if n > 0 {
        lemma_saved_shift(a, z, n - 1);
        assert((a + z)[a.len() + n - 1] == z[n - 1]);
    }
}

/// The first byte of a character's encoding tells its widths.
proof fn lemma_first_byte(c: char)
    ensures
        encode_scalar(c as u32).len() > 0,
        utf8_width(encode_scalar(c as u32)[0]) == encode_scalar(c as u32).len(),
        utf16_width(encode_scalar(c as u32)[0]) == utf16_len(c),
{
    let u = c as u32;
    let one = (u & 0x7F) as u8;
    let two = ((u >> 6) & 0x1F) as u8;
    let three = ((u >> 12) & 0x0F) as u8;
    let four = ((u >> 18) & 0x07) as u8;
    assert((u & 0x7F) <= 0x7F) by (bit_vector);
    assert(((u >> 6) & 0x1F) <= 0x1F) by (bit_vector);
    assert(((u >> 12) & 0x0F) <= 0x0F) by (bit_vector);
    assert(((u >> 18) & 0x07) <= 0x07) by (bit_vector);
    assert(0xC0u8 <= 0xC0 | two <= 0xDF) by (bit_vector)
        requires
            two <= 0x1F,
    ;
    assert(0xE0u8 <= 0xE0 | three <= 0xEF) by (bit_vector)
        requires
            three <= 0x0F,
    ;
    assert(0xF0u8 <= 0xF0 | four <= 0xF7) by (bit_vector)
        requires
            four <= 0x07,
    ;
}

/// How many of the first `n` bytes are newlines.
pub open spec fn count_newlines(b: Seq<u8>, n: int) -> int
    decreases n,
{
    if n <= 0 {
        0
    } else if b[n - 1] == 10 {
        count_newlines(b, n - 1) + 1
    } else {
        count_newlines(b, n - 1)
    }
}

proof fn lemma_count_newlines(b: Seq<u8>, n: int)
    ensures
        count_newlines(b, n) == newlines(b, n),
        0 <= n ==> count_newlines(b, n) <= n,
    decreases n,
{
    if n > 0 {
        lemma_count_newlines(b, n - 1);
    }
}

/// Whether a line of the text begins at `begin` and goes on without a newline up to `to`.
pub open spec fn on_one_line(b: Seq<u8>, begin: int, to: int) -> bool {
    &&& 0 <= begin <= to <= b.len()
    &&& begin > 0 ==> b[begin - 1] == 10
    &&& forall|k: int| begin <= k < to ==> #[trigger] b[k] != 10
}

proof fn lemma_on_one_line(b: Seq<u8>, begin: int, to: int)
    requires
        on_one_line(b, begin, to),
    ensures
        line_begin(b, to) == begin,
        newlines(b, to) == newlines(b, begin),
    decreases to - begin,
{
    if begin < to {
        assert(b[to - 1] != 10);
        lemma_on_one_line(b, begin, to - 1);
    }
}

/// The position of an offset is the number of newlines before it, and how far it is behind
/// the last of them: in bytes, or in UTF-16 units, which are as many as bytes where all
/// characters are ASCII.
pub proof fn a_position_is_a_line_and_a_column(b: Seq<u8>, begin: int, at: int)
    requires
        on_one_line(b, begin, at),
        b.len() < u32::MAX,
    ensures
        position_of(b, at, PositionEncoding::Utf8).line == count_newlines(b, at),
        position_of(b, at, PositionEncoding::Utf16).line == count_newlines(b, at),
        position_of(b, at, PositionEncoding::Utf8).character == at - begin,
        (forall|k: int| begin <= k < at ==> #[trigger] b[k] < 128) ==> position_of(
            b,
            at,
            PositionEncoding::Utf16,
        ).character == at - begin,
        forall|beyond: int, enc: PositionEncoding|
            beyond >= b.len() ==> #[trigger] position_of(b, beyond, enc) == position_of(
                b,
                b.len() as int,
                enc,
            ),
{
    lemma_on_one_line(b, begin, at);
    lemma_count_newlines(b, at);
    if forall|k: int| begin <= k < at ==> #[trigger] b[k] < 128 {
        lemma_ascii_saves_nothing(b, begin, at);
    }
}

proof fn lemma_ascii_saves_nothing(b: Seq<u8>, from: int, to: int)
    requires
        forall|k: int| from <= k < to ==> #[trigger] b[k] < 128,
    ensures
        saved(b, from, to) == 0,
    decreases to - from,
{
    if from < to {
        assert(b[to - 1] < 128);
        lemma_ascii_saves_nothing(b, from, to - 1);
    }
}

/// A column leads so many bytes into its line, but not over its end: behind its newline, or
/// where the text ends. A line past the last one is the last.
pub proof fn a_column_leads_into_its_line(b: Seq<u8>, begin: int, stop: int, line: u32, column: u32)
    requires
        b.len() < u32::MAX,
        on_one_line(b, begin, stop),
        stop < b.len() ==> b[stop] == 10,
        line == count_newlines(b, begin) || (stop == b.len() && line > count_newlines(b, begin)),
    ensures
        ({
            let at = offset_of(b, LinePos { line, character: column }, PositionEncoding::Utf8);
            let end = if stop < b.len() {
                stop + 1
            } else {
                stop
            };
            &&& begin + column < end ==> at == begin + column
            &&& begin + column >= end ==> at == end
        }),
{
    let n = b.len() as int;
    let all = starts(b, n);
    lemma_on_one_line(b, begin, stop);
    lemma_on_one_line(b, begin, begin);
    lemma_count_newlines(b, begin);
    lemma_starts(b, begin, n);
    lemma_starts(b, n, n);
    lemma_starts_sorted(b, n);
    let l = newlines(b, begin) as int;
    let upto = starts(b, begin);
    assert(all.take(upto.len() as int)[l] == upto[l]);
    assert(all[l] == begin);
    if stop < n {
        lemma_starts(b, stop + 1, n);
        let more = starts(b, stop + 1);
        assert(newlines(b, stop + 1) == l + 1);
        assert(all.take(more.len() as int)[l + 1] == more[l + 1]);
        assert(all[l + 1] == stop + 1);
    } else {
        assert(newlines(b, n) == l);
    }
}

proof fn lemma_advance_far(b: Seq<u8>, p: int, end: int, units: int)
    requires
        valid_utf8(b),
        0 <= p <= end <= b.len(),
        is_char_boundary(b, p),
        is_char_boundary(b, end),
        units >= utf16_units(b, p, end),
    ensures
        utf16_advance(b, p, end, units) == end,
    decreases end - p,
{
    if p < end {
        let w = utf8_width(b[p]);
        lemma_advance_units(b, p, end, end);
        lemma_next_char(b, p);
        is_char_boundary_iff_not_is_continuation_byte(b, p);
        if is_wide(b[p]) {
            lemma_wide_char(b, p);
            if end < p + w {
                is_char_boundary_iff_not_is_continuation_byte(b, end);
                assert(is_continuation_byte(b[end]));
            }
        }
        lemma_advance_units(b, p + w, end, end);
        lemma_saved_split(b, p, p + w, end);
        lemma_saved_one(b, p);
        lemma_advance_far(b, p + w, end, units - utf16_width(b[p]));
    }
}

/// In UTF-16 units too a column does not lead over the end of its line, and one inside a
/// surrogate pair leads to the character that the pair is.
pub proof fn a_column_of_units_stays_in_its_line(
    b: Seq<u8>,
    begin: int,
    stop: int,
    line: u32,
    column: u32,
)
    requires
        valid_utf8(b),
        b.len() < u32::MAX,
        on_one_line(b, begin, stop),
        stop < b.len() ==> b[stop] == 10,
        line == count_newlines(b, begin),
        column >= b.len(),
    ensures
        offset_of(b, LinePos { line, character: column }, PositionEncoding::Utf16) == (if stop
            < b.len() {
            stop + 1
        } else {
            stop
        }),
        forall|p: int, end: int|
            0 <= p < end <= b.len() && 0xF0 <= b[p] < 0xF8 ==> #[trigger] utf16_advance(
                b,
                p,
                end,
                1,
            ) == p,
{
    let n = b.len() as int;
    let all = starts(b, n);
    let end = if stop < n {
        stop + 1
    } else {
        stop
    };
    a_column_leads_into_its_line(b, begin, stop, line, column);
    lemma_on_one_line(b, begin, stop);
    lemma_on_one_line(b, begin, begin);
    lemma_count_newlines(b, begin);
    lemma_starts(b, begin, n);
    lemma_starts(b, n, n);
    lemma_starts_sorted(b, n);
    let l = newlines(b, begin) as int;
    let upto = starts(b, begin);
    assert(all.take(upto.len() as int)[l] == upto[l]);
    assert(all[l] == begin);
    if stop < n {
        lemma_starts(b, stop + 1, n);
        let more = starts(b, stop + 1);
        assert(newlines(b, stop + 1) == l + 1);
        assert(all.take(more.len() as int)[l + 1] == more[l + 1]);
        lemma_narrow_char(b, stop);
    } else {
        assert(newlines(b, n) == l);
        is_char_boundary_start_end_of_seq(b);
    }
    lemma_begin_is_boundary(b, begin);
    lemma_advance_far(b, begin, end, column as int);
}

/// Behind a character the column is one unit further, and two for a character of four bytes,
/// which is a surrogate pair in UTF-16; in bytes it is as many further as the character has.
pub proof fn a_column_grows_by_the_units_of_each_character(b: Seq<u8>, p: int, w: int)
    requires
        valid_utf8(b),
        b.len() < u32::MAX,
        0 <= p < b.len(),
        is_char_boundary(b, p),
        b[p] != 10,
        b[p] < 0x80 ==> w == 1,
        0xC0 <= b[p] < 0xE0 ==> w == 2,
        0xE0 <= b[p] < 0xF0 ==> w == 3,
        0xF0 <= b[p] < 0xF8 ==> w == 4,
        b[p] >= 0xF8 || 0x80 <= b[p] < 0xC0 ==> w == 1,
    ensures
        ({
            let here = position_of(b, p, PositionEncoding::Utf16);
            let next = position_of(b, p + w, PositionEncoding::Utf16);
            &&& next.line == here.line
            &&& w == 4 ==> next.character == here.character + 2
            &&& w < 4 ==> next.character == here.character + 1
        }),
        position_of(b, p + w, PositionEncoding::Utf8).character == position_of(
            b,
            p,
            PositionEncoding::Utf8,
        ).character + w,
{
    lemma_next_char(b, p);
    assert(utf8_width(b[p]) == w);
    is_char_boundary_iff_not_is_continuation_byte(b, p);
    if is_wide(b[p]) {
        lemma_wide_char(b, p);
    }
    assert forall|k: int| p <= k < p + w implies #[trigger] b[k] != 10 by {
        if k > p {
            assert(is_continuation_byte(b[k]));
        }
    }
    lemma_same_begin(b, p, p + w);
    let begin = line_begin(b, p);
    lemma_begin_is_boundary(b, p);
    lemma_advance_units(b, begin, p, p);
    lemma_advance_units(b, begin, p + w, p + w);
    lemma_saved_split(b, begin, p, p + w);
    lemma_saved_one(b, p);
    lemma_count_newlines(b, p);
}

proof fn lemma_same_begin(b: Seq<u8>, p: int, q: int)
    requires
        0 <= p <= q <= b.len(),
        forall|k: int| p <= k < q ==> #[trigger] b[k] != 10,
    ensures
        line_begin(b, p) == line_begin(b, q),
        newlines(b, p) == newlines(b, q),
    decreases q - p,
{
    if p < q {
        assert(b[q - 1] != 10);
        lemma_same_begin(b, p, q - 1);
    }
}

} // verus!

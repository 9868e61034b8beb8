//! Semantic tokens: a flat, delta-encoded array in document order, with no token
//! spanning a line break.
use core::ops::Range;
use vstd::prelude::*;
use vstd::string::StringSliceAdditionalSpecFns;
use vstd::utf8::{is_char_boundary, is_char_boundary_start_end_of_seq, valid_utf8};

use crate::findings::{findings_lie_in_the_file, inside, symbol_sound, symbols_sound};
use crate::grammar::NEWLINE;
use crate::line_index::{
    lemma_lines_monotone, lemma_newlines_monotone, lemma_same_line, newlines, position_of,
    LineIndex, LinePos, PositionEncoding,
};
use crate::outline::{
    lemma_symbol_children, symbol_views, Found, Outline, RefKind, RefView, Symbol, SymbolKind,
    SymbolView, VarView,
};
use crate::walker::outline_of;

verus! {

pub const T_COMMENT: u32 = 0;

pub const T_FUNCTION: u32 = 1;

pub const T_NAMESPACE: u32 = 2;

pub const T_CLASS: u32 = 3;

pub const T_METHOD: u32 = 4;

pub const T_VARIABLE: u32 = 5;

pub const T_PARAMETER: u32 = 6;

pub const T_KEYWORD: u32 = 7;

/// Modifier bit 0 = declaration.
pub const M_DECLARATION: u32 = 1;

/// The names of the token types, in the order the client is told about them. A
/// token's type is an index into this list.
pub fn token_types() -> (out: Vec<&'static str>)
    ensures
        out@.len() == 8,
        out@[T_COMMENT as int]@ == "comment"@,
        out@[T_FUNCTION as int]@ == "function"@,
        out@[T_NAMESPACE as int]@ == "namespace"@,
        out@[T_CLASS as int]@ == "class"@,
        out@[T_METHOD as int]@ == "method"@,
        out@[T_VARIABLE as int]@ == "variable"@,
        out@[T_PARAMETER as int]@ == "parameter"@,
        out@[T_KEYWORD as int]@ == "keyword"@,
{
    let mut out: Vec<&'static str> = Vec::new();
    out.push("comment");
    out.push("function");
    out.push("namespace");
    out.push("class");
    out.push("method");
    out.push("variable");
    out.push("parameter");
    out.push("keyword");
    out
}

/// One token as the protocol has it, relative to the token before.
#[derive(Debug, Clone, Copy, PartialEq, Eq, Structural)]
pub struct SemanticToken {
    pub delta_line: u32,
    pub delta_start: u32,
    pub length: u32,
    pub token_type: u32,
    pub token_modifiers_bitset: u32,
}

/// A stretch of text with its classification.
#[derive(Debug, Clone, Copy, PartialEq, Eq, Structural)]
pub struct Raw {
    pub start: usize,
    pub end: usize,
    pub kind: u32,
    pub modifiers: u32,
}

// ------------------------------------------------------------- classification
pub open spec fn raw(r: Range<usize>, kind: u32, modifiers: u32) -> Raw {
    Raw { start: r.start, end: r.end, kind, modifiers }
}

pub open spec fn symbol_type(kind: SymbolKind) -> u32 {
    match kind {
        SymbolKind::Proc => T_FUNCTION,
        SymbolKind::Namespace => T_NAMESPACE,
        SymbolKind::Class => T_CLASS,
        SymbolKind::Method | SymbolKind::Constructor | SymbolKind::Destructor => T_METHOD,
        SymbolKind::Variable => T_VARIABLE,
    }
}

/// The names of the symbols from `k` on and of their children, as declarations.
pub open spec fn symbol_raws(symbols: Seq<SymbolView>, k: int) -> Seq<Raw>
    decreases symbols, symbols.len() - k,
{
    if k < 0 || k >= symbols.len() {
        seq![]
    } else {
        seq![raw(symbols[k].name_range, symbol_type(symbols[k].kind), M_DECLARATION)]
            + symbol_raws(symbols[k].children, 0) + symbol_raws(symbols, k + 1)
    }
}

/// The type of a reference. "Keyword" means a command that Tcl itself provides,
/// which is what `builtin` says.
pub open spec fn ref_type(kind: RefKind, builtin: bool) -> u32 {
    match kind {
        RefKind::Variable => T_VARIABLE,
        RefKind::Command => if builtin {
            T_KEYWORD
        } else {
            T_FUNCTION
        },
        RefKind::WidgetCommand => T_METHOD,
    }
}

/// All that is classified in a file; `builtin` says of each reference whether it
/// names one of Tcl's own commands.
pub open spec fn raws_of(o: Found, builtin: Seq<bool>) -> Seq<Raw> {
    o.comments.map_values(|c: Range<usize>| raw(c, T_COMMENT, 0)) + symbol_raws(o.symbols, 0)
        + Seq::new(
        o.refs.len(),
        |i: int| raw(o.refs[i].range, ref_type(o.refs[i].kind, builtin[i]), 0),
    ) + o.variables.map_values(|v: VarView| raw(v.range, T_PARAMETER, M_DECLARATION))
}

// ------------------------------------------------------------------- ordering
/// The order of classified stretches: by start, declarations first, then by type.
pub open spec fn comes_before(a: Raw, b: Raw) -> bool {
    a.start < b.start || (a.start == b.start && (a.modifiers > b.modifiers || (a.modifiers
        == b.modifiers && a.kind < b.kind)))
}

pub open spec fn raw_place(s: Seq<Raw>, n: int, x: Raw) -> int
    decreases n,
{
    if 0 < n <= s.len() && comes_before(x, s[n - 1]) {
        raw_place(s, n - 1, x)
    } else {
        n
    }
}

/// The stretches in order; equals stay as they were.
pub open spec fn sorted_raws(s: Seq<Raw>) -> Seq<Raw>
    decreases s.len(),
{
    if s.len() == 0 {
        s
    } else {
        let r = sorted_raws(s.drop_last());
        r.insert(raw_place(r, r.len() as int, s.last()), s.last())
    }
}

/// The stretches from `k` on that are kept: one for each start, none that begins
/// before `last_end`, where the one kept before ended, and none past the text.
/// `previous` is the start of the one before.
pub open spec fn kept(
    s: Seq<Raw>,
    k: int,
    previous: Option<usize>,
    last_end: int,
    len: int,
) -> Seq<Raw>
    decreases s.len() - k,
{
    if k < 0 || k >= s.len() {
        seq![]
    } else if previous == Some(s[k].start) || s[k].start < last_end || s[k].end > len {
        kept(s, k + 1, Some(s[k].start), last_end, len)
    } else {
        seq![s[k]] + kept(s, k + 1, Some(s[k].start), s[k].end as int, len)
    }
}

/// The end of the line at `i`, before its newline, but no later than `end`.
pub open spec fn piece_end(b: Seq<u8>, i: int, end: int) -> int
    decreases end - i,
{
    if 0 <= i < end && i < b.len() && b[i] != NEWLINE {
        piece_end(b, i + 1, end)
    } else {
        i
    }
}

/// The pieces of a stretch that lie on one line each, from `i` on.
pub open spec fn pieces_from(b: Seq<u8>, r: Raw, i: int) -> Seq<Raw>
    decreases r.end - i + 1,
    when 0 <= i
    via pieces_from_decreases
{
    if i >= r.end {
        seq![]
    } else {
        let e = piece_end(b, i, r.end as int);
        (if e > i {
            seq![Raw { start: i as usize, end: e as usize, ..r }]
        } else {
            seq![]
        }) + pieces_from(b, r, e + 1)
    }
}

#[via_fn]
proof fn pieces_from_decreases(b: Seq<u8>, r: Raw, i: int) {
    if i < r.end {
        lemma_piece_end(b, i, r.end as int);
    }
}

proof fn lemma_piece_end(b: Seq<u8>, i: int, end: int)
    requires
        0 <= i <= end,
    ensures
        i <= piece_end(b, i, end) <= end,
        forall|k: int| i <= k < piece_end(b, i, end) ==> b[k] != NEWLINE,
    decreases end - i,
{
    if i < end && i < b.len() && b[i] != NEWLINE {
        lemma_piece_end(b, i + 1, end);
    }
}

/// The pieces of the stretches from `k` on.
pub open spec fn all_pieces(b: Seq<u8>, s: Seq<Raw>, k: int) -> Seq<Raw>
    decreases s.len() - k,
{
    if k < 0 || k >= s.len() {
        seq![]
    } else {
        pieces_from(b, s[k], s[k].start as int) + all_pieces(b, s, k + 1)
    }
}

/// The pieces of text that become tokens.
pub open spec fn token_pieces(b: Seq<u8>, raws: Seq<Raw>) -> Seq<Raw> {
    all_pieces(b, kept(sorted_raws(raws), 0, None, 0, b.len() as int), 0)
}

// ------------------------------------------------------------------- encoding
/// Whether a piece becomes a token: it has some length on one line.
pub open spec fn shows(l: Seq<u8>, p: Raw, enc: PositionEncoding) -> bool {
    let from = position_of(l, p.start as int, enc);
    let to = position_of(l, p.end as int, enc);
    from.line == to.line && from.character < to.character
}

/// The token of a piece, after one at `prev`.
pub open spec fn token_of(
    l: Seq<u8>,
    p: Raw,
    enc: PositionEncoding,
    prev: LinePos,
) -> SemanticToken {
    let from = position_of(l, p.start as int, enc);
    let to = position_of(l, p.end as int, enc);
    let lines = (from.line - prev.line) as u32;
    SemanticToken {
        delta_line: lines,
        delta_start: if lines == 0 {
            if from.character >= prev.character {
                (from.character - prev.character) as u32
            } else {
                0
            }
        } else {
            from.character
        },
        length: (to.character - from.character) as u32,
        token_type: p.kind,
        token_modifiers_bitset: p.modifiers,
    }
}

/// The tokens of the pieces from `k` on, after one at `prev`. Positions are those of
/// the indexed text `l`.
pub open spec fn tokens_from(
    l: Seq<u8>,
    pieces: Seq<Raw>,
    k: int,
    enc: PositionEncoding,
    prev: LinePos,
) -> Seq<SemanticToken>
    decreases pieces.len() - k,
{
    if k < 0 || k >= pieces.len() {
        seq![]
    } else if shows(l, pieces[k], enc) {
        seq![token_of(l, pieces[k], enc, prev)] + tokens_from(
            l,
            pieces,
            k + 1,
            enc,
            position_of(l, pieces[k].start as int, enc),
        )
    } else {
        tokens_from(l, pieces, k + 1, enc, prev)
    }
}

/// The semantic tokens of a file with text `b`, whose positions are those of the
/// indexed text `l`.
pub open spec fn semantic_tokens(
    o: Found,
    b: Seq<u8>,
    l: Seq<u8>,
    enc: PositionEncoding,
    builtin: Seq<bool>,
) -> Seq<SemanticToken> {
    tokens_from(
        l,
        token_pieces(b, raws_of(o, builtin)),
        0,
        enc,
        LinePos { line: 0, character: 0 },
    )
}

// -------------------------------------------------------------- order of pieces
/// The pieces come in the order of their starts.
pub open spec fn ascending(s: Seq<Raw>) -> bool {
    forall|i: int, j: int|
        0 <= i < j < s.len() ==> (#[trigger] s[i]).start <= (#[trigger] s[j]).start
}

proof fn lemma_raw_place(s: Seq<Raw>, n: int, x: Raw)
    requires
        0 <= n <= s.len(),
    ensures
        0 <= raw_place(s, n, x) <= n,
        raw_place(s, n, x) > 0 ==> !comes_before(x, s[raw_place(s, n, x) - 1]),
        forall|i: int| raw_place(s, n, x) <= i < n ==> comes_before(x, #[trigger] s[i]),
    decreases n,
{
    if n > 0 && comes_before(x, s[n - 1]) {
        lemma_raw_place(s, n - 1, x);
    }
}

proof fn lemma_sorted_ascending(s: Seq<Raw>)
    ensures
        ascending(sorted_raws(s)),
    decreases s.len(),
{
    if s.len() > 0 {
        let x = s.last();
        let r = sorted_raws(s.drop_last());
        lemma_sorted_ascending(s.drop_last());
        lemma_raw_place(r, r.len() as int, x);
        let at = raw_place(r, r.len() as int, x);
        let now = r.insert(at, x);
        assert forall|i: int, j: int| 0 <= i < j < now.len() implies (#[trigger] now[i]).start
            <= (#[trigger] now[j]).start by {
            if i < at && j < at {
                assert(now[i] == r[i] && now[j] == r[j]);
            } else if i < at && j == at {
                assert(now[i] == r[i]);
                assert(r[i].start <= r[at - 1].start);
            } else if i < at {
                assert(now[i] == r[i] && now[j] == r[j - 1]);
            } else if i == at {
                assert(now[j] == r[j - 1]);
                assert(comes_before(x, r[j - 1]));
            } else {
                assert(now[i] == r[i - 1] && now[j] == r[j - 1]);
            }
        }
    }
}

/// Stretches that do not overlap and lie in the text, each after `from`.
pub open spec fn apart(s: Seq<Raw>, k: int, from: int, len: int) -> bool
    decreases s.len() - k,
{
    k < 0 || k >= s.len() || {
        &&& from <= s[k].start
        &&& s[k].end <= len
        &&& apart(
            s,
            k + 1,
            if s[k].start <= s[k].end {
                s[k].end as int
            } else {
                s[k].start as int
            },
            len,
        )
    }
}

proof fn lemma_apart_shift(a: Seq<Raw>, s: Seq<Raw>, k: int, from: int, len: int)
    requires
        0 <= k,
        apart(s, k, from, len),
    ensures
        apart(a + s, a.len() + k, from, len),
    decreases s.len() - k,
{
    if k < s.len() {
        assert((a + s)[a.len() + k] == s[k]);
        lemma_apart_shift(
            a,
            s,
            k + 1,
            if s[k].start <= s[k].end {
                s[k].end as int
            } else {
                s[k].start as int
            },
            len,
        );
    }
}

proof fn lemma_kept_apart(
    s: Seq<Raw>,
    k: int,
    previous: Option<usize>,
    last_end: int,
    len: int,
    from: int,
)
    requires
        ascending(s),
        0 <= k,
        from <= last_end || (k < s.len() ==> from <= s[k].start),
    ensures
        apart(kept(s, k, previous, last_end, len), 0, from, len),
    decreases s.len() - k,
{
    if k < s.len() {
        let x = s[k];
        if k + 1 < s.len() {
            assert(s[k].start <= s[k + 1].start);
        }
        if previous == Some(x.start) || x.start < last_end || x.end > len {
            lemma_kept_apart(s, k + 1, Some(x.start), last_end, len, from);
        } else {
            let next = if x.start <= x.end {
                x.end as int
            } else {
                x.start as int
            };
            lemma_kept_apart(s, k + 1, Some(x.start), x.end as int, len, next);
            let rest = kept(s, k + 1, Some(x.start), x.end as int, len);
            let all = seq![x] + rest;
            lemma_apart_shift(seq![x], rest, 0, next, len);
            assert(all[0] == x);
        }
    }
}

/// Whether pieces run forward through the text, each on one line.
pub open spec fn forward(b: Seq<u8>, s: Seq<Raw>, k: int, from: int) -> bool
    decreases s.len() - k,
{
    k < 0 || k >= s.len() || {
        &&& from <= s[k].start < s[k].end <= b.len()
        &&& forall|i: int| s[k].start <= i < s[k].end ==> b[i] != NEWLINE
        &&& forward(b, s, k + 1, s[k].end as int)
    }
}

proof fn lemma_forward_concat(b: Seq<u8>, a: Seq<Raw>, z: Seq<Raw>, k: int, from: int, mid: int)
    requires
        0 <= k <= a.len(),
        forward(b, a, k, from),
        from <= mid,
        forall|i: int| k <= i < a.len() ==> (#[trigger] a[i]).end <= mid,
        forward(b, z, 0, mid),
    ensures
        forward(b, a + z, k, from),
    decreases a.len() - k,
{
    if k < a.len() {
        assert((a + z)[k] == a[k]);
        lemma_forward_concat(b, a, z, k + 1, a[k].end as int, mid);
    } else {
        lemma_forward_shift(b, a, z, 0, from, mid);
    }
}

proof fn lemma_forward_shift(b: Seq<u8>, a: Seq<Raw>, z: Seq<Raw>, k: int, from: int, mid: int)
    requires
        0 <= k <= z.len(),
        from <= mid,
        forward(b, z, k, mid),
    ensures
        forward(b, a + z, a.len() + k, from),
    decreases z.len() - k,
{
    if k < z.len() {
        assert((a + z)[a.len() + k] == z[k]);
        lemma_forward_shift(b, a, z, k + 1, z[k].end as int, z[k].end as int);
    }
}

proof fn lemma_pieces_forward(b: Seq<u8>, r: Raw, i: int)
    requires
        0 <= i,
        r.end <= b.len(),
        b.len() <= usize::MAX,
    ensures
        forward(b, pieces_from(b, r, i), 0, i),
        forall|k: int|
            0 <= k < pieces_from(b, r, i).len() ==> (#[trigger] pieces_from(b, r, i)[k]).end
                <= r.end,
    decreases r.end - i + 1,
{
    if i < r.end {
        let e = piece_end(b, i, r.end as int);
        lemma_piece_end(b, i, r.end as int);
        lemma_pieces_forward(b, r, e + 1);
        let rest = pieces_from(b, r, e + 1);
        let all = pieces_from(b, r, i);
        if e > i {
            let one = seq![Raw { start: i as usize, end: e as usize, ..r }];
            assert(all == one + rest);
            assert(forward(b, rest, 0, e)) by {
                lemma_forward_lower(b, rest, 0, e + 1, e);
            }
            assert(forward(b, one, 0, i)) by {
                assert(one[0].start == i && one[0].end == e);
                assert(forward(b, one, 1, e));
            }
            lemma_forward_concat(b, one, rest, 0, i, e);
            assert forall|k: int| 0 <= k < all.len() implies (#[trigger] all[k]).end <= r.end by {
                if k > 0 {
                    assert(all[k] == rest[k - 1]);
                }
            }
        } else {
            assert(all =~= rest);
            lemma_forward_lower(b, rest, 0, e + 1, i);
        }
    }
}

proof fn lemma_forward_lower(b: Seq<u8>, s: Seq<Raw>, k: int, from: int, lower: int)
    requires
        forward(b, s, k, from),
        lower <= from,
    ensures
        forward(b, s, k, lower),
{
}

proof fn lemma_all_pieces_forward(b: Seq<u8>, s: Seq<Raw>, k: int, from: int)
    requires
        0 <= k,
        0 <= from,
        apart(s, k, from, b.len() as int),
        b.len() <= usize::MAX,
    ensures
        forward(b, all_pieces(b, s, k), 0, from),
    decreases s.len() - k,
{
    if k < s.len() {
        let r = s[k];
        let next = if r.start <= r.end {
            r.end as int
        } else {
            r.start as int
        };
        lemma_pieces_forward(b, r, r.start as int);
        lemma_all_pieces_forward(b, s, k + 1, next);
        let mine = pieces_from(b, r, r.start as int);
        lemma_forward_lower(b, mine, 0, r.start as int, from);
        lemma_forward_concat(b, mine, all_pieces(b, s, k + 1), 0, from, next);
    }
}

/// The pieces that become tokens run forward through the text without overlap, and
/// none of them spans a line break.
pub proof fn pieces_run_forward(b: Seq<u8>, raws: Seq<Raw>)
    requires
        b.len() <= usize::MAX,
    ensures
        forward(b, token_pieces(b, raws), 0, 0),
{
    let s = sorted_raws(raws);
    lemma_sorted_ascending(raws);
    lemma_kept_apart(s, 0, None, 0, b.len() as int, 0);
    lemma_all_pieces_forward(b, kept(s, 0, None, 0, b.len() as int), 0, 0);
}

// ----------------------------------------------------------------- executable
fn type_of_symbol(kind: SymbolKind) -> (r: u32)
    ensures
        r == symbol_type(kind),
{
    match kind {
        SymbolKind::Proc => T_FUNCTION,
        SymbolKind::Namespace => T_NAMESPACE,
        SymbolKind::Class => T_CLASS,
        SymbolKind::Method | SymbolKind::Constructor | SymbolKind::Destructor => T_METHOD,
        SymbolKind::Variable => T_VARIABLE,
    }
}

fn collect_symbols(symbols: &Vec<Symbol>, out: &mut Vec<Raw>)
    ensures
        final(out)@ == old(out)@ + symbol_raws(symbol_views(symbols@), 0),
    decreases symbols,
{
    let ghost views = symbol_views(symbols@);
    let ghost before = out@;
    let ghost mut acc: Seq<Raw> = seq![];
    let mut k: usize = 0;
    proof {
        assert(acc + symbol_raws(views, 0) =~= symbol_raws(views, 0));
        assert(before + acc =~= before);
    }
    while k < symbols.len()
        invariant
            k <= symbols@.len(),
            views == symbol_views(symbols@),
            out@ == before + acc,
            symbol_raws(views, 0) == acc + symbol_raws(views, k as int),
        decreases symbols@.len() - k,
    {
        let s = &symbols[k];
        let r = Raw {
            start: s.name_range.start,
            end: s.name_range.end,
            kind: type_of_symbol(s.kind),
            modifiers: M_DECLARATION,
        };
        out.push(r);
        collect_symbols(&s.children, out);
        proof {
            lemma_symbol_children(*s);
            assert(views[k as int] == s@);
            let step = seq![r] + symbol_raws(s@.children, 0);
            let rest = symbol_raws(views, k + 1);
            assert(out@ =~= before + (acc + step));
            assert(acc + (step + rest) =~= (acc + step) + rest);
            acc = acc + step;
        }
        k = k + 1;
    }
    proof {
        assert(acc + Seq::<Raw>::empty() =~= acc);
    }
}

fn precedes(a: &Raw, b: &Raw) -> (r: bool)
    ensures
        r == comes_before(*a, *b),
{
    a.start < b.start || (a.start == b.start && (a.modifiers > b.modifiers || (a.modifiers
        == b.modifiers && a.kind < b.kind)))
}

fn sort_raws(v: &Vec<Raw>) -> (out: Vec<Raw>)
    ensures
        out@ == sorted_raws(v@),
{
    let mut out: Vec<Raw> = Vec::new();
    let mut i: usize = 0;
    assert(out@ =~= sorted_raws(v@.take(0)));
    while i < v.len()
        invariant
            i <= v@.len(),
            out@ == sorted_raws(v@.take(i as int)),
        decreases v@.len() - i,
    {
        let x = v[i];
        let ghost was = out@;
        let mut at: usize = out.len();
        while at > 0 && precedes(&x, &out[at - 1])
            invariant
                at <= out@.len(),
                was == out@,
                raw_place(was, was.len() as int, x) == raw_place(was, at as int, x),
            decreases at,
        {
            at = at - 1;
        }
        proof {
            assert(v@.take(i + 1).drop_last() =~= v@.take(i as int));
            assert(v@.take(i + 1).last() == x);
        }
        out.insert(at, x);
        i = i + 1;
    }
    assert(v@.take(i as int) =~= v@);
    out
}

fn keep(s: &Vec<Raw>, len: usize) -> (out: Vec<Raw>)
    ensures
        out@ == kept(s@, 0, None, 0, len as int),
{
    let mut out: Vec<Raw> = Vec::new();
    let mut previous: Option<usize> = None;
    let mut last_end: usize = 0;
    let ghost whole = kept(s@, 0, None, 0, len as int);
    let mut k: usize = 0;
    assert(out@ + whole =~= whole);
    while k < s.len()
        invariant
            k <= s@.len(),
            whole == out@ + kept(s@, k as int, previous, last_end as int, len as int),
        decreases s@.len() - k,
    {
        let x = s[k];
        let repeats = match previous {
            Some(p) => p == x.start,
            None => false,
        };
        let ghost before = out@;
        if !repeats && x.start >= last_end && x.end <= len {
            out.push(x);
            proof {
                let rest = kept(s@, k + 1, Some(x.start), x.end as int, len as int);
                assert(before + (seq![x] + rest) =~= out@ + rest);
            }
            last_end = x.end;
        }
        previous = Some(x.start);
        k = k + 1;
    }
    assert(out@ + Seq::<Raw>::empty() =~= out@);
    out
}

/// Splits a stretch into pieces per line, dropping the newlines themselves.
fn line_pieces(b: &[u8], r: &Raw, out: &mut Vec<Raw>)
    requires
        r.end <= b@.len(),
    ensures
        final(out)@ == old(out)@ + pieces_from(b@, *r, r.start as int),
{
    let ghost before = out@;
    let ghost whole = pieces_from(b@, *r, r.start as int);
    let ghost mut acc: Seq<Raw> = seq![];
    let mut i: usize = r.start;
    proof {
        assert(acc + whole =~= whole);
        assert(before + acc =~= before);
    }
    while i < r.end
        invariant
            r.end <= b@.len(),
            before == old(out)@,
            out@ == before + acc,
            whole == pieces_from(b@, *r, r.start as int),
            whole == acc + pieces_from(b@, *r, i as int),
        decreases r.end - i,
    {
        let mut e: usize = i;
        while e < r.end && b[e] != NEWLINE
            invariant
                i <= e <= r.end <= b@.len(),
                piece_end(b@, i as int, r.end as int) == piece_end(b@, e as int, r.end as int),
            decreases r.end - e,
        {
            e = e + 1;
        }
        let ghost mut step: Seq<Raw> = seq![];
        if e > i {
            let piece = Raw { start: i, end: e, kind: r.kind, modifiers: r.modifiers };
            out.push(piece);
            proof {
                step = seq![piece];
            }
        }
        proof {
            let rest = pieces_from(b@, *r, e + 1);
            assert(out@ =~= before + (acc + step));
            assert(acc + (step + rest) =~= (acc + step) + rest);
            acc = acc + step;
        }
        if e == r.end {
            proof {
                assert(pieces_from(b@, *r, e + 1) =~= seq![]);
                assert(acc + Seq::<Raw>::empty() =~= acc);
            }
            return;
        }
        i = e + 1;
    }
    proof {
        assert(acc + Seq::<Raw>::empty() =~= acc);
    }
}

/// Sorts, de-overlaps, splits across lines, and delta-encodes.
fn encode(raws: &Vec<Raw>, text: &str, li: &LineIndex, enc: PositionEncoding) -> (out: Vec<
    SemanticToken,
>)
    ensures
        out@ == tokens_from(
            li@,
            token_pieces(text.spec_bytes(), raws@),
            0,
            enc,
            LinePos { line: 0, character: 0 },
        ),
{
    let bytes = text.as_bytes();
    let ghost b = bytes@;
    let _ = li.line_count();
    let sorted = sort_raws(raws);
    let chosen = keep(&sorted, bytes.len());
    let mut pieces: Vec<Raw> = Vec::new();
    let mut k: usize = 0;
    let ghost every = all_pieces(b, chosen@, 0);
    proof {
        lemma_sorted_ascending(raws@);
        lemma_kept_apart(sorted@, 0, None, 0, b.len() as int, 0);
        assert(pieces@ + every =~= every);
    }
    let ghost mut from: int = 0;
    while k < chosen.len()
        invariant
            k <= chosen@.len(),
            bytes@ == b,
            apart(chosen@, k as int, from, b.len() as int),
            every == pieces@ + all_pieces(b, chosen@, k as int),
        decreases chosen@.len() - k,
    {
        let ghost before = pieces@;
        let r = chosen[k];
        line_pieces(bytes, &r, &mut pieces);
        proof {
            let mine = pieces_from(b, r, r.start as int);
            let rest = all_pieces(b, chosen@, k + 1);
            assert(before + (mine + rest) =~= (before + mine) + rest);
            from = if r.start <= r.end {
                r.end as int
            } else {
                r.start as int
            };
        }
        k = k + 1;
    }
    proof {
        assert(pieces@ + Seq::<Raw>::empty() =~= pieces@);
        pieces_run_forward(b, raws@);
    }
    let mut out: Vec<SemanticToken> = Vec::new();
    let mut prev = LinePos { line: 0, character: 0 };
    let ghost l = li@;
    let ghost whole = tokens_from(l, pieces@, 0, enc, prev);
    let ghost mut reached: int = 0;
    let ghost mut at: int = 0;
    let mut m: usize = 0;
    proof {
        assert(out@ + whole =~= whole);
        assert(newlines(l, 0) == 0);
        assert(position_of(l, 0, enc).line == 0);
    }
    while m < pieces.len()
        invariant
            m <= pieces@.len(),
            bytes@ == b,
            li@ == l,
            l.len() < u32::MAX,
            0 <= at <= reached <= b.len(),
            prev.line == position_of(l, at, enc).line,
            forward(b, pieces@, m as int, reached),
            whole == out@ + tokens_from(l, pieces@, m as int, enc, prev),
        decreases pieces@.len() - m,
    {
        let p = pieces[m];
        let start = li.position(p.start, enc);
        let end = li.position(p.end, enc);
        let ghost before = out@;
        let ghost rest = tokens_from(l, pieces@, m + 1, enc, start);
        if start.line == end.line && start.character < end.character {
            proof {
                lemma_lines_monotone(l, at, p.start as int, enc);
            }
            let lines: u32 = start.line - prev.line;
            let delta: u32 = if lines == 0 {
                if start.character >= prev.character {
                    start.character - prev.character
                } else {
                    0
                }
            } else {
                start.character
            };
            let token = SemanticToken {
                delta_line: lines,
                delta_start: delta,
                length: end.character - start.character,
                token_type: p.kind,
                token_modifiers_bitset: p.modifiers,
            };
            out.push(token);
            proof {
                assert(before + (seq![token] + rest) =~= out@ + rest);
                at = p.start as int;
            }
            prev = start;
        }
        proof {
            reached = p.end as int;
        }
        m = m + 1;
    }
    assert(out@ + Seq::<SemanticToken>::empty() =~= out@);
    out
}

/// Builds the semantic tokens for a file, given of each reference whether it names
/// one of Tcl's own commands.
pub fn tokens_with(
    outline: &Outline,
    text: &str,
    li: &LineIndex,
    enc: PositionEncoding,
    builtin: &Vec<bool>,
) -> (out: Vec<SemanticToken>)
    requires
        builtin@.len() == outline.refs@.len(),
    ensures
        out@ == semantic_tokens(outline@, text.spec_bytes(), li@, enc, builtin@),
{
    let ghost o = outline@;
    let ghost comments = o.comments.map_values(|c: Range<usize>| raw(c, T_COMMENT, 0));
    let ghost refs = Seq::new(
        o.refs.len(),
        |i: int| raw(o.refs[i].range, ref_type(o.refs[i].kind, builtin@[i]), 0),
    );
    let ghost vars = o.variables.map_values(
        |v: VarView| raw(v.range, T_PARAMETER, M_DECLARATION),
    );
    let mut raws: Vec<Raw> = Vec::new();
    let mut k: usize = 0;
    while k < outline.comments.len()
        invariant
            k <= outline.comments@.len(),
            o == outline@,
            comments == o.comments.map_values(|c: Range<usize>| raw(c, T_COMMENT, 0)),
            raws@ =~= comments.take(k as int),
        decreases outline.comments@.len() - k,
    {
        let c = &outline.comments[k];
        raws.push(Raw { start: c.start, end: c.end, kind: T_COMMENT, modifiers: 0 });
        k = k + 1;
    }
    assert(raws@ =~= comments);
    collect_symbols(&outline.symbols, &mut raws);
    let ghost before = raws@;
    let mut i: usize = 0;
    assert(before + refs.take(0) =~= before);
    while i < outline.refs.len()
        invariant
            i <= outline.refs@.len(),
            builtin@.len() == outline.refs@.len(),
            o == outline@,
            refs == Seq::new(
                o.refs.len(),
                |i: int| raw(o.refs[i].range, ref_type(o.refs[i].kind, builtin@[i]), 0),
            ),
            raws@ =~= before + refs.take(i as int),
        decreases outline.refs@.len() - i,
    {
        let r = &outline.refs[i];
        assert(o.refs[i as int] == r@);
        let kind = match r.kind {
            RefKind::Variable => T_VARIABLE,
            RefKind::Command => if builtin[i] {
                T_KEYWORD
            } else {
                T_FUNCTION
            },
            RefKind::WidgetCommand => T_METHOD,
        };
        raws.push(Raw { start: r.range.start, end: r.range.end, kind, modifiers: 0 });
        i = i + 1;
    }
    assert(refs.take(i as int) =~= refs);
    let ghost middle = raws@;
    let mut j: usize = 0;
    assert(middle + vars.take(0) =~= middle);
    while j < outline.variables.len()
        invariant
            j <= outline.variables@.len(),
            o == outline@,
            vars == o.variables.map_values(
                |v: VarView| raw(v.range, T_PARAMETER, M_DECLARATION),
            ),
            raws@ =~= middle + vars.take(j as int),
        decreases outline.variables@.len() - j,
    {
        let v = &outline.variables[j];
        assert(o.variables[j as int] == v@);
        raws.push(
            Raw {
                start: v.range.start,
                end: v.range.end,
                kind: T_PARAMETER,
                modifiers: M_DECLARATION,
            },
        );
        j = j + 1;
    }
    assert(vars.take(j as int) =~= vars);
    assert(raws@ =~= raws_of(o, builtin@));
    encode(&raws, text, li, enc)
}

/// That the answers are those of the question whether a name is one of Tcl's own
/// commands; only of a command is it asked.
pub open spec fn answers<F: Fn(&str) -> bool>(
    builtin: F,
    refs: Seq<RefView>,
    flags: Seq<bool>,
) -> bool {
    &&& flags.len() == refs.len()
    &&& forall|i: int|
        0 <= i < refs.len() && (#[trigger] refs[i]).kind is Command ==> exists|name: &str|
            name@ == refs[i].name && #[trigger] builtin.ensures((name,), flags[i])
}

/// Builds the semantic tokens for a file.
///
/// `builtin` decides whether a command name is one of Tcl's own, which is what
/// separates a keyword from a call to user code.
pub fn tokens<F: Fn(&str) -> bool>(
    outline: &Outline,
    text: &str,
    li: &LineIndex,
    enc: PositionEncoding,
    builtin: F,
) -> (out: Vec<SemanticToken>)
    requires
        forall|name: &str| #[trigger] builtin.requires((name,)),
    ensures
        exists|flags: Seq<bool>| #[trigger]
            answers(builtin, outline@.refs, flags) && out@ == semantic_tokens(
                outline@,
                text.spec_bytes(),
                li@,
                enc,
                flags,
            ),
{
    let mut flags: Vec<bool> = Vec::new();
    let ghost refs = outline@.refs;
    let mut i: usize = 0;
    while i < outline.refs.len()
        invariant
            i <= outline.refs@.len(),
            refs == outline@.refs,
            flags@.len() == i,
            forall|name: &str| #[trigger] builtin.requires((name,)),
            forall|k: int|
                0 <= k < i && (#[trigger] refs[k]).kind is Command ==> exists|name: &str|
                    name@ == refs[k].name && #[trigger] builtin.ensures((name,), flags@[k]),
        decreases outline.refs@.len() - i,
    {
        let r = &outline.refs[i];
        assert(refs[i as int] == r@);
        let ghost was = flags@;
        let name = r.name.as_str();
        let flag = match r.kind {
            RefKind::Command => builtin(name),
            _ => false,
        };
        flags.push(flag);
        proof {
            assert forall|k: int|
                0 <= k < i + 1 && (#[trigger] refs[k]).kind is Command implies exists|name: &str|
                name@ == refs[k].name && #[trigger] builtin.ensures((name,), flags@[k]) by {
                if k < i {
                    assert(flags@[k] == was[k]);
                } else {
                    assert(name@ == refs[k].name && builtin.ensures((name,), flags@[k]));
                }
            }
        }
        i = i + 1;
    }
    assert(answers(builtin, refs, flags@));
    tokens_with(outline, text, li, enc, &flags)
}

// ----------------------------------------------------------------------- laws
/// Every token has a length.
pub proof fn tokens_have_length(
    b: Seq<u8>,
    pieces: Seq<Raw>,
    k: int,
    enc: PositionEncoding,
    prev: LinePos,
)
    ensures
        forall|i: int|
            0 <= i < tokens_from(b, pieces, k, enc, prev).len() ==> (#[trigger] tokens_from(
                b,
                pieces,
                k,
                enc,
                prev,
            )[i]).length > 0,
    decreases pieces.len() - k,
{
    let all = tokens_from(b, pieces, k, enc, prev);
    if 0 <= k < pieces.len() {
        if shows(b, pieces[k], enc) {
            let here = position_of(b, pieces[k].start as int, enc);
            let to = position_of(b, pieces[k].end as int, enc);
            tokens_have_length(b, pieces, k + 1, enc, here);
            let rest = tokens_from(b, pieces, k + 1, enc, here);
            let one = token_of(b, pieces[k], enc, prev);
            assert(one.length == to.character - here.character);
            assert(all =~= seq![one] + rest);
            assert forall|i: int| 0 <= i < all.len() implies (#[trigger] all[i]).length > 0 by {
                if i > 0 {
                    assert(all[i] == rest[i - 1]);
                } else {
                    assert(all[i] == one);
                }
            }
        } else {
            tokens_have_length(b, pieces, k + 1, enc, prev);
            assert(all == tokens_from(b, pieces, k + 1, enc, prev));
        }
    } else {
        assert(all.len() == 0);
    }
    assert(forall|i: int| 0 <= i < all.len() ==> (#[trigger] all[i]).length > 0);
}

/// A line and a column.
pub struct Place {
    pub line: int,
    pub character: int,
}

pub open spec fn place_of(p: LinePos) -> Place {
    Place { line: p.line as int, character: p.character as int }
}

/// Where a client puts the tokens from `k` on, after one at `prev`.
pub open spec fn decoded(tokens: Seq<SemanticToken>, k: int, prev: Place) -> Seq<Place>
    decreases tokens.len() - k,
{
    if k < 0 || k >= tokens.len() {
        seq![]
    } else {
        let t = tokens[k];
        let here = Place {
            line: prev.line + t.delta_line,
            character: if t.delta_line == 0 {
                prev.character + t.delta_start
            } else {
                t.delta_start as int
            },
        };
        seq![here] + decoded(tokens, k + 1, here)
    }
}

/// Where the pieces from `k` on that become tokens start.
pub open spec fn shown(b: Seq<u8>, pieces: Seq<Raw>, k: int, enc: PositionEncoding) -> Seq<Place>
    decreases pieces.len() - k,
{
    if k < 0 || k >= pieces.len() {
        seq![]
    } else if shows(b, pieces[k], enc) {
        seq![place_of(position_of(b, pieces[k].start as int, enc))] + shown(
            b,
            pieces,
            k + 1,
            enc,
        )
    } else {
        shown(b, pieces, k + 1, enc)
    }
}

proof fn lemma_decoded_shift(a: Seq<SemanticToken>, s: Seq<SemanticToken>, k: int, prev: Place)
    requires
        0 <= k,
    ensures
        decoded(a + s, a.len() + k, prev) == decoded(s, k, prev),
    decreases s.len() - k,
{
    if k < s.len() {
        let t = s[k];
        let here = Place {
            line: prev.line + t.delta_line,
            character: if t.delta_line == 0 {
                prev.character + t.delta_start
            } else {
                t.delta_start as int
            },
        };
        assert((a + s)[a.len() + k] == t);
        lemma_decoded_shift(a, s, k + 1, here);
    }
}

/// Whether each stretch starts with a character.
pub open spec fn on_characters(b: Seq<u8>, s: Seq<Raw>) -> bool {
    forall|k: int|
        0 <= k < s.len() && (#[trigger] s[k]).start < s[k].end <= b.len() ==> is_char_boundary(
            b,
            s[k].start as int,
        )
}

/// Whether the columns of the stretches can be told apart: bytes always can, and UTF-16
/// units where each stretch starts with a character.
pub open spec fn columns_known(b: Seq<u8>, s: Seq<Raw>, enc: PositionEncoding) -> bool {
    enc is Utf16 ==> valid_utf8(b) && on_characters(b, s)
}

proof fn lemma_sorted_on_characters(b: Seq<u8>, s: Seq<Raw>)
    requires
        on_characters(b, s),
    ensures
        on_characters(b, sorted_raws(s)),
    decreases s.len(),
{
    if s.len() > 0 {
        let r = sorted_raws(s.drop_last());
        assert(on_characters(b, s.drop_last())) by {
            assert forall|k: int|
                0 <= k < s.drop_last().len() && (#[trigger] s.drop_last()[k]).start
                    < s.drop_last()[k].end <= b.len() implies is_char_boundary(
                b,
                s.drop_last()[k].start as int,
            ) by {
                assert(s.drop_last()[k] == s[k]);
            }
        }
        lemma_sorted_on_characters(b, s.drop_last());
        lemma_raw_place(r, r.len() as int, s.last());
        let at = raw_place(r, r.len() as int, s.last());
        let now = r.insert(at, s.last());
        assert forall|k: int|
            0 <= k < now.len() && (#[trigger] now[k]).start < now[k].end
                <= b.len() implies is_char_boundary(b, now[k].start as int) by {
            if k < at {
                assert(now[k] == r[k]);
            } else if k > at {
                assert(now[k] == r[k - 1]);
            } else {
                assert(now[k] == s[s.len() - 1]);
            }
        }
    }
}

proof fn lemma_kept_on_characters(
    b: Seq<u8>,
    s: Seq<Raw>,
    k: int,
    previous: Option<usize>,
    last_end: int,
)
    requires
        on_characters(b, s),
    ensures
        on_characters(b, kept(s, k, previous, last_end, b.len() as int)),
    decreases s.len() - k,
{
    if 0 <= k < s.len() {
        let len = b.len() as int;
        if previous == Some(s[k].start) || s[k].start < last_end || s[k].end > len {
            lemma_kept_on_characters(b, s, k + 1, Some(s[k].start), last_end);
        } else {
            lemma_kept_on_characters(b, s, k + 1, Some(s[k].start), s[k].end as int);
            let rest = kept(s, k + 1, Some(s[k].start), s[k].end as int, len);
            lemma_characters_concat(b, seq![s[k]], rest);
        }
    }
}

proof fn lemma_characters_concat(b: Seq<u8>, a: Seq<Raw>, z: Seq<Raw>)
    requires
        on_characters(b, a),
        on_characters(b, z),
    ensures
        on_characters(b, a + z),
{
    let all = a + z;
    assert forall|k: int|
        0 <= k < all.len() && (#[trigger] all[k]).start < all[k].end
            <= b.len() implies is_char_boundary(b, all[k].start as int) by {
        if k < a.len() {
            assert(all[k] == a[k]);
        } else {
            assert(all[k] == z[k - a.len()]);
        }
    }
}

proof fn lemma_pieces_on_characters(b: Seq<u8>, r: Raw, i: int)
    requires
        valid_utf8(b),
        0 <= i,
        i < r.end <= b.len() ==> is_char_boundary(b, i),
        r.end <= b.len(),
    ensures
        on_characters(b, pieces_from(b, r, i)),
    decreases r.end - i + 1,
{
    if i < r.end {
        let e = piece_end(b, i, r.end as int);
        lemma_piece_end(b, i, r.end as int);
        lemma_piece_stop(b, i, r.end as int);
        if e < r.end {
            crate::line_index::lemma_narrow_char(b, e);
        }
        lemma_pieces_on_characters(b, r, e + 1);
        let rest = pieces_from(b, r, e + 1);
        let one = seq![Raw { start: i as usize, end: e as usize, ..r }];
        if e > i {
            lemma_characters_concat(b, one, rest);
        } else {
            assert(seq![] + rest =~= rest);
        }
    }
}

/// A piece that ends before its stretch does ends at a newline.
proof fn lemma_piece_stop(b: Seq<u8>, i: int, end: int)
    requires
        0 <= i <= end <= b.len(),
    ensures
        piece_end(b, i, end) < end ==> b[piece_end(b, i, end)] == NEWLINE,
    decreases end - i,
{
    if i < end && b[i] != NEWLINE {
        lemma_piece_stop(b, i + 1, end);
    }
}

proof fn lemma_all_pieces_on_characters(b: Seq<u8>, s: Seq<Raw>, k: int)
    requires
        valid_utf8(b),
        0 <= k,
        on_characters(b, s),
        in_text(s, b.len() as int),
    ensures
        on_characters(b, all_pieces(b, s, k)),
    decreases s.len() - k,
{
    if k < s.len() {
        assert(s[k].end <= b.len());
        lemma_pieces_on_characters(b, s[k], s[k].start as int);
        lemma_all_pieces_on_characters(b, s, k + 1);
        lemma_characters_concat(
            b,
            pieces_from(b, s[k], s[k].start as int),
            all_pieces(b, s, k + 1),
        );
    }
}

spec fn in_text(s: Seq<Raw>, len: int) -> bool {
    forall|m: int| 0 <= m < s.len() ==> (#[trigger] s[m]).end <= len
}

proof fn lemma_kept_in_text(s: Seq<Raw>, k: int, previous: Option<usize>, last_end: int, len: int)
    ensures
        in_text(kept(s, k, previous, last_end, len), len),
    decreases s.len() - k,
{
    if 0 <= k < s.len() {
        if previous == Some(s[k].start) || s[k].start < last_end || s[k].end > len {
            lemma_kept_in_text(s, k + 1, Some(s[k].start), last_end, len);
        } else {
            lemma_kept_in_text(s, k + 1, Some(s[k].start), s[k].end as int, len);
        }
    }
}

proof fn lemma_decoded(
    b: Seq<u8>,
    pieces: Seq<Raw>,
    k: int,
    from: int,
    at: int,
    enc: PositionEncoding,
)
    requires
        0 <= k,
        0 <= at <= from <= b.len(),
        b.len() < u32::MAX,
        forward(b, pieces, k, from),
        columns_known(b, pieces, enc),
        enc is Utf16 ==> is_char_boundary(b, at),
    ensures
        decoded(
            tokens_from(b, pieces, k, enc, position_of(b, at, enc)),
            0,
            place_of(position_of(b, at, enc)),
        ) == shown(b, pieces, k, enc),
    decreases pieces.len() - k,
{
    let prev = position_of(b, at, enc);
    if k < pieces.len() {
        let p = pieces[k];
        if shows(b, p, enc) {
            let here = position_of(b, p.start as int, enc);
            let one = token_of(b, p, enc, prev);
            let rest = tokens_from(b, pieces, k + 1, enc, here);
            lemma_decoded(b, pieces, k + 1, p.end as int, p.start as int, enc);
            lemma_lines_monotone(b, at, p.start as int, enc);
            lemma_newlines_monotone(b, 0, at);
            lemma_newlines_monotone(b, at, p.start as int);
            if here.line == prev.line {
                lemma_same_line(b, at, p.start as int);
                if enc is Utf16 {
                    crate::line_index::lemma_columns_grow(b, at, p.start as int);
                }
            }
            crate::line_index::lemma_line_begin(b, at);
            crate::line_index::lemma_line_begin(b, p.start as int);
            assert((seq![one] + rest)[0] == one);
            lemma_decoded_shift(seq![one], rest, 0, place_of(here));
        } else {
            lemma_decoded(b, pieces, k + 1, p.end as int, at, enc);
        }
    }
}

/// A client that adds the deltas up finds every token where its piece of text
/// starts, in the order of the text, whatever unit its columns count.
pub proof fn tokens_are_in_document_order(
    o: Found,
    b: Seq<u8>,
    builtin: Seq<bool>,
    enc: PositionEncoding,
)
    requires
        b.len() < u32::MAX,
        b.len() <= usize::MAX,
        columns_known(b, raws_of(o, builtin), enc),
    ensures
        decoded(
            semantic_tokens(o, b, b, enc, builtin),
            0,
            Place { line: 0, character: 0 },
        ) == shown(b, token_pieces(b, raws_of(o, builtin)), 0, enc),
        forward(b, token_pieces(b, raws_of(o, builtin)), 0, 0),
{
    let raws = raws_of(o, builtin);
    let pieces = token_pieces(b, raws);
    pieces_run_forward(b, raws);
    assert(newlines(b, 0) == 0);
    assert(crate::line_index::line_begin(b, 0) == 0);
    assert(position_of(b, 0, enc) == LinePos { line: 0, character: 0 });
    if enc is Utf16 {
        let s = sorted_raws(raws);
        lemma_sorted_on_characters(b, raws);
        lemma_kept_on_characters(b, s, 0, None, 0);
        lemma_kept_in_text(s, 0, None, 0, b.len() as int);
        lemma_all_pieces_on_characters(b, kept(s, 0, None, 0, b.len() as int), 0);
        is_char_boundary_start_end_of_seq(b);
    }
    lemma_decoded(b, pieces, 0, 0, 0, enc);
}

/// The names of sound symbols start with a character.
proof fn lemma_symbols_on_characters(b: Seq<u8>, symbols: Seq<SymbolView>, k: int)
    requires
        valid_utf8(b),
        symbols_sound(symbols, b),
    ensures
        on_characters(b, symbol_raws(symbols, k)),
    decreases symbols, symbols.len() - k,
{
    if 0 <= k < symbols.len() {
        let s = symbols[k];
        assert(symbol_sound(s, b));
        assert(symbols_sound(s.children, b));
        lemma_symbols_on_characters(b, s.children, 0);
        lemma_symbols_on_characters(b, symbols, k + 1);
        let own = seq![raw(s.name_range, symbol_type(s.kind), M_DECLARATION)];
        lemma_characters_concat(b, own, symbol_raws(s.children, 0));
        lemma_characters_concat(
            b,
            own + symbol_raws(s.children, 0),
            symbol_raws(symbols, k + 1),
        );
    }
}

/// A client that adds the deltas up finds every token of a file where its piece of text
/// starts, in the order of the text, whatever unit its columns count.
pub proof fn tokens_of_a_file_are_in_document_order(
    b: Seq<u8>,
    builtin: Seq<bool>,
    enc: PositionEncoding,
)
    requires
        valid_utf8(b),
        b.len() < u32::MAX,
        b.len() <= usize::MAX,
    ensures
        decoded(
            semantic_tokens(outline_of(b), b, b, enc, builtin),
            0,
            Place { line: 0, character: 0 },
        ) == shown(b, token_pieces(b, raws_of(outline_of(b), builtin)), 0, enc),
        forward(b, token_pieces(b, raws_of(outline_of(b), builtin)), 0, 0),
{
    let o = outline_of(b);
    findings_lie_in_the_file(b);
    lemma_symbols_on_characters(b, o.symbols, 0);
    let comments = o.comments.map_values(|c: Range<usize>| raw(c, T_COMMENT, 0));
    let symbols = symbol_raws(o.symbols, 0);
    let refs = Seq::new(
        o.refs.len(),
        |i: int| raw(o.refs[i].range, ref_type(o.refs[i].kind, builtin[i]), 0),
    );
    let variables = o.variables.map_values(|v: VarView| raw(v.range, T_PARAMETER, M_DECLARATION));
    assert(on_characters(b, comments)) by {
        assert forall|k: int|
            0 <= k < comments.len() && (#[trigger] comments[k]).start < comments[k].end
                <= b.len() implies is_char_boundary(b, comments[k].start as int) by {
            assert(inside(o.comments[k], b));
        }
    }
    assert(on_characters(b, refs)) by {
        assert forall|k: int|
            0 <= k < refs.len() && (#[trigger] refs[k]).start < refs[k].end
                <= b.len() implies is_char_boundary(b, refs[k].start as int) by {
            assert(inside(o.refs[k].range, b));
        }
    }
    assert(on_characters(b, variables)) by {
        assert forall|k: int|
            0 <= k < variables.len() && (#[trigger] variables[k]).start < variables[k].end
                <= b.len() implies is_char_boundary(b, variables[k].start as int) by {
            assert(inside(o.variables[k].range, b));
        }
    }
    lemma_characters_concat(b, comments, symbols);
    lemma_characters_concat(b, comments + symbols, refs);
    lemma_characters_concat(b, comments + symbols + refs, variables);
    tokens_are_in_document_order(o, b, builtin, enc);
}

} // verus!

//! What a client is shown of a file: symbols, folds and semantic tokens, said of what the
//! outline has found.
use core::ops::Range;
use vstd::prelude::*;

use crate::discovery::lemma_joined;
use crate::line_index::{position_of, PositionEncoding};
use crate::lsp::{folds_of, nodes_of, Fold, NodeView};
use crate::outline::{Found, RefKind, SymbolKind, SymbolView, VarView};
use crate::semantic::{
    comes_before, kept, piece_end, pieces_from, raw, raw_place, raws_of, ref_type, sorted_raws,
    symbol_raws, symbol_type, token_of, Raw,
};

verus! {

// -------------------------------------------------------------------- symbols
/// Whether a node shows a symbol: its name, detail and kind, all of it as its span, its name
/// as what is selected, and what is inside it.
pub open spec fn shows_symbol(
    b: Seq<u8>,
    s: SymbolView,
    enc: PositionEncoding,
    n: NodeView,
) -> bool {
    &&& n.name == s.name
    &&& n.detail == s.detail
    &&& n.kind == s.kind
    &&& n.span.start == position_of(b, s.full_range.start as int, enc)
    &&& n.span.end == position_of(b, s.full_range.end as int, enc)
    &&& n.selection.start == position_of(b, s.name_range.start as int, enc)
    &&& n.selection.end == position_of(b, s.name_range.end as int, enc)
    &&& n.children == nodes_of(b, s.children, 0, enc)
}

/// Each symbol is shown, in order, with those inside it inside.
pub proof fn each_symbol_is_shown(
    b: Seq<u8>,
    symbols: Seq<SymbolView>,
    k: int,
    enc: PositionEncoding,
)
    requires
        0 <= k <= symbols.len(),
    ensures
        nodes_of(b, symbols, k, enc).len() == symbols.len() - k,
        forall|i: int|
            0 <= i < symbols.len() - k ==> shows_symbol(
                b,
                symbols[k + i],
                enc,
                #[trigger] nodes_of(b, symbols, k, enc)[i],
            ),
    decreases symbols.len() - k,
{
    if k < symbols.len() {
        each_symbol_is_shown(b, symbols, k + 1, enc);
        let rest = nodes_of(b, symbols, k + 1, enc);
        let all = nodes_of(b, symbols, k, enc);
        assert forall|i: int| 0 <= i < symbols.len() - k implies shows_symbol(
            b,
            symbols[k + i],
            enc,
            #[trigger] all[i],
        ) by {
            if i > 0 {
                assert(all[i] == rest[i - 1]);
            }
        }
    }
}

// ---------------------------------------------------------------------- folds
/// Whether a fold is that of a symbol: from its first line to the one before that of its
/// last byte, which is another line. Its last line, with the closing brace, stays visible.
pub open spec fn folds_symbol(
    b: Seq<u8>,
    s: SymbolView,
    enc: PositionEncoding,
    f: Fold,
) -> bool {
    let first = position_of(b, s.full_range.start as int, enc).line;
    let last = position_of(b, s.end - 1, enc).line;
    &&& s.full_range.start < s.end
    &&& first < last
    &&& f.start_line == first
    &&& f.end_line == last - 1
}

proof fn lemma_folds(
    b: Seq<u8>,
    symbols: Seq<SymbolView>,
    k: int,
    enc: PositionEncoding,
    f: Fold,
)
    requires
        0 <= k <= symbols.len(),
    ensures
        folds_of(b, symbols, k, enc).contains(f) <==> exists|i: int|
            k <= i < symbols.len() && folds_within(b, #[trigger] symbols[i], enc, f),
    decreases symbols, symbols.len() - k,
{
    if k < symbols.len() {
        let s = symbols[k];
        lemma_folds(b, s.children, 0, enc, f);
        lemma_folds(b, symbols, k + 1, enc, f);
        let all = folds_of(b, symbols, k, enc);
        let kids = folds_of(b, s.children, 0, enc);
        let rest = folds_of(b, symbols, k + 1, enc);
        let (first, last) = crate::lsp::lines_of(b, s, enc);
        let own: Seq<Fold> = if last > first {
            seq![Fold { start_line: first, end_line: (last - 1) as u32 }]
        } else {
            seq![]
        };
        assert(all == own + kids + rest);
        lemma_joined(own + kids, rest, f);
        lemma_joined(own, kids, f);
        if last > first {
            assert(own[0] == Fold { start_line: first, end_line: (last - 1) as u32 });
        }
        assert(own.contains(f) <==> folds_symbol(b, s, enc, f)) by {
            if folds_symbol(b, s, enc, f) {
                assert(own[0] == f);
            }
        }
    }
}

/// Whether a fold is that of a symbol or of one inside it, at whatever depth.
pub open spec fn folds_within(
    b: Seq<u8>,
    s: SymbolView,
    enc: PositionEncoding,
    f: Fold,
) -> bool
    decreases s,
{
    ||| folds_symbol(b, s, enc, f)
    ||| exists|i: int| 0 <= i < s.children.len() && folds_within(b, #[trigger] s.children[i], enc, f)
}

/// What can be folded are the definitions that take up more than one line, those inside
/// others too, and nothing else.
pub proof fn every_long_definition_folds(
    b: Seq<u8>,
    symbols: Seq<SymbolView>,
    enc: PositionEncoding,
    f: Fold,
)
    ensures
        folds_of(b, symbols, 0, enc).contains(f) <==> exists|i: int|
            0 <= i < symbols.len() && folds_within(b, #[trigger] symbols[i], enc, f),
{
    lemma_folds(b, symbols, 0, enc, f);
}

// --------------------------------------------------------------------- tokens
/// The type of a symbol's name, by number: a function, a namespace, a class, a method or a
/// variable.
pub open spec fn type_of(kind: SymbolKind) -> u32 {
    match kind {
        SymbolKind::Proc => 1,
        SymbolKind::Namespace => 2,
        SymbolKind::Class => 3,
        SymbolKind::Method => 4,
        SymbolKind::Constructor => 4,
        SymbolKind::Destructor => 4,
        SymbolKind::Variable => 5,
    }
}

/// Whether a stretch of text is classified as the name of a symbol, or of one inside it.
pub open spec fn names_symbol(s: SymbolView, r: Raw) -> bool
    decreases s,
{
    ||| r.start == s.name_range.start && r.end == s.name_range.end && r.kind == type_of(s.kind)
        && r.modifiers == 1
    ||| exists|i: int| 0 <= i < s.children.len() && names_symbol(#[trigger] s.children[i], r)
}

proof fn lemma_symbol_raws(symbols: Seq<SymbolView>, k: int, r: Raw)
    requires
        0 <= k <= symbols.len(),
    ensures
        symbol_raws(symbols, k).contains(r) <==> exists|i: int|
            k <= i < symbols.len() && names_symbol(#[trigger] symbols[i], r),
    decreases symbols, symbols.len() - k,
{
    if k < symbols.len() {
        let s = symbols[k];
        lemma_symbol_raws(s.children, 0, r);
        lemma_symbol_raws(symbols, k + 1, r);
        let own = seq![raw(s.name_range, symbol_type(s.kind), 1)];
        let kids = symbol_raws(s.children, 0);
        let rest = symbol_raws(symbols, k + 1);
        assert(symbol_raws(symbols, k) == own + kids + rest);
        lemma_joined(own + kids, rest, r);
        lemma_joined(own, kids, r);
        assert(own[0] == raw(s.name_range, symbol_type(s.kind), 1));
        assert(own.contains(r) <==> r == own[0]);
    }
}

/// Whether a stretch of text has this range, type and modifiers.
pub open spec fn is_stretch(r: Raw, range: Range<usize>, kind: u32, modifiers: u32) -> bool {
    r.start == range.start && r.end == range.end && r.kind == kind && r.modifiers == modifiers
}

/// What is classified in a file: comments; the names of its symbols, as declarations; the
/// variables and commands that it uses, where Tcl's own commands are keywords and others
/// functions; and the names that it binds, as declared parameters. Nothing else is.
pub proof fn everything_found_is_classified(o: Found, builtin: Seq<bool>, r: Raw)
    ensures
        raws_of(o, builtin).contains(r) <==> {
            ||| exists|i: int| 0 <= i < o.comments.len() && is_stretch(r, #[trigger] o.comments[i], 0, 0)
            ||| exists|i: int| 0 <= i < o.symbols.len() && names_symbol(#[trigger] o.symbols[i], r)
            ||| exists|i: int|
                0 <= i < o.refs.len() && is_stretch(
                    r,
                    (#[trigger] o.refs[i]).range,
                    if o.refs[i].kind == RefKind::Variable {
                        5
                    } else if o.refs[i].kind == RefKind::WidgetCommand {
                        4
                    } else if builtin[i] {
                        7
                    } else {
                        1
                    },
                    0,
                )
            ||| exists|i: int|
                0 <= i < o.variables.len() && is_stretch(r, (#[trigger] o.variables[i]).range, 6, 1)
        },
{
    let comments = o.comments.map_values(|c: Range<usize>| raw(c, 0, 0));
    let symbols = symbol_raws(o.symbols, 0);
    let refs = Seq::new(
        o.refs.len(),
        |i: int| raw(o.refs[i].range, ref_type(o.refs[i].kind, builtin[i]), 0),
    );
    let variables = o.variables.map_values(|v: VarView| raw(v.range, 6, 1));
    assert(raws_of(o, builtin) == comments + symbols + refs + variables);
    lemma_joined(comments + symbols + refs, variables, r);
    lemma_joined(comments + symbols, refs, r);
    lemma_joined(comments, symbols, r);
    lemma_symbol_raws(o.symbols, 0, r);
    if comments.contains(r) {
        let i = choose|i: int| 0 <= i < comments.len() && comments[i] == r;
        assert(is_stretch(r, o.comments[i], 0, 0));
    }
    assert forall|i: int| 0 <= i < o.comments.len() && is_stretch(
        r,
        #[trigger] o.comments[i],
        0,
        0,
    ) implies comments.contains(r) by {
        assert(comments[i] == r);
    }
    if refs.contains(r) {
        let i = choose|i: int| 0 <= i < refs.len() && refs[i] == r;
        assert(is_stretch(r, o.refs[i].range, ref_type(o.refs[i].kind, builtin[i]), 0));
    }
    assert forall|i: int| 0 <= i < o.refs.len() && is_stretch(
        r,
        (#[trigger] o.refs[i]).range,
        ref_type(o.refs[i].kind, builtin[i]),
        0,
    ) implies refs.contains(r) by {
        assert(refs[i] == r);
    }
    if variables.contains(r) {
        let i = choose|i: int| 0 <= i < variables.len() && variables[i] == r;
        assert(is_stretch(r, o.variables[i].range, 6, 1));
    }
    assert forall|i: int| 0 <= i < o.variables.len() && is_stretch(
        r,
        (#[trigger] o.variables[i]).range,
        6,
        1,
    ) implies variables.contains(r) by {
        assert(variables[i] == r);
    }
}

proof fn lemma_sorted_has(s: Seq<Raw>, r: Raw)
    ensures
        sorted_raws(s).contains(r) <==> s.contains(r),
    decreases s.len(),
{
    if s.len() > 0 {
        let before = s.drop_last();
        lemma_sorted_has(before, r);
        let x = s.last();
        let t = sorted_raws(before);
        let at = raw_place(t, t.len() as int, x);
        lemma_place(t, t.len() as int, x);
        let now = t.insert(at, x);
        assert(now[at] == x);
        if t.contains(r) {
            let i = choose|i: int| 0 <= i < t.len() && t[i] == r;
            if i < at {
                assert(now[i] == r);
            } else {
                assert(now[i + 1] == r);
            }
        }
        if now.contains(r) {
            let i = choose|i: int| 0 <= i < now.len() && now[i] == r;
            if i < at {
                assert(t[i] == r);
            } else if i > at {
                assert(t[i - 1] == r);
            }
        }
        assert(s =~= before + seq![x]);
        lemma_joined(before, seq![x], r);
        assert(seq![x][0] == x);
    }
}

proof fn lemma_place(s: Seq<Raw>, n: int, x: Raw)
    requires
        0 <= n <= s.len(),
    ensures
        0 <= raw_place(s, n, x) <= n,
    decreases n,
{
    if n > 0 && comes_before(x, s[n - 1]) {
        lemma_place(s, n - 1, x);
    }
}

/// Whether one stretch goes before another: by where they start; of two that start
/// together, a declaration first, then the one of the lower type.
pub open spec fn goes_before(a: Raw, z: Raw) -> bool {
    ||| a.start < z.start
    ||| a.start == z.start && a.modifiers > z.modifiers
    ||| a.start == z.start && a.modifiers == z.modifiers && a.kind < z.kind
}

/// The stretches are shown in that order, and all of them come into it.
pub proof fn stretches_are_ordered(s: Seq<Raw>)
    ensures
        forall|i: int, j: int|
            0 <= i < j < sorted_raws(s).len() ==> !goes_before(
                #[trigger] sorted_raws(s)[j],
                #[trigger] sorted_raws(s)[i],
            ),
        forall|r: Raw| #[trigger] sorted_raws(s).contains(r) <==> s.contains(r),
        sorted_raws(s).len() == s.len(),
    decreases s.len(),
{
    assert forall|r: Raw| #[trigger] sorted_raws(s).contains(r) <==> s.contains(r) by {
        lemma_sorted_has(s, r);
    }
    if s.len() > 0 {
        let t = sorted_raws(s.drop_last());
        let x = s.last();
        stretches_are_ordered(s.drop_last());
        let at = raw_place(t, t.len() as int, x);
        lemma_place(t, t.len() as int, x);
        lemma_place_order(t, t.len() as int, x);
        let now = t.insert(at, x);
        assert forall|i: int, j: int| 0 <= i < j < now.len() implies !goes_before(
            #[trigger] now[j],
            #[trigger] now[i],
        ) by {
            if j < at {
                assert(now[i] == t[i] && now[j] == t[j]);
            } else if j == at {
                assert(now[i] == t[i]);
                assert(!comes_before(x, t[at - 1]));
                if i < at - 1 {
                    assert(!goes_before(t[at - 1], t[i]));
                }
            } else if i < at {
                assert(now[i] == t[i] && now[j] == t[j - 1]);
            } else if i == at {
                assert(now[j] == t[j - 1]);
                assert(comes_before(x, t[j - 1]));
            } else {
                assert(now[i] == t[i - 1] && now[j] == t[j - 1]);
            }
        }
    }
}

proof fn lemma_place_order(s: Seq<Raw>, n: int, x: Raw)
    requires
        0 <= n <= s.len(),
        forall|i: int, j: int|
            0 <= i < j < s.len() ==> !goes_before(#[trigger] s[j], #[trigger] s[i]),
    ensures
        ({
            let at = raw_place(s, n, x);
            &&& at > 0 ==> !comes_before(x, s[at - 1])
            &&& forall|j: int| at <= j < n ==> comes_before(x, #[trigger] s[j])
        }),
    decreases n,
{
    if n > 0 && comes_before(x, s[n - 1]) {
        lemma_place_order(s, n - 1, x);
    }
}

/// Of stretches in order those are shown that start behind the end of the one shown before
/// and lie in the text, one for each start. A stretch is left out only if it does not lie in
/// the text, if another that starts with it comes before it, or if it starts inside one that
/// is shown.
pub proof fn a_stretch_is_left_out_only_for_another(
    s: Seq<Raw>,
    k: int,
    previous: Option<usize>,
    last_end: int,
    len: int,
)
    requires
        0 <= k < s.len(),
    ensures
        previous != Some(s[k].start) && s[k].start >= last_end && s[k].end <= len ==> kept(
            s,
            k,
            previous,
            last_end,
            len,
        ) == seq![s[k]] + kept(s, k + 1, Some(s[k].start), s[k].end as int, len),
        previous == Some(s[k].start) || s[k].start < last_end || s[k].end > len ==> kept(
            s,
            k,
            previous,
            last_end,
            len,
        ) == kept(s, k + 1, Some(s[k].start), last_end, len),
        kept(s, s.len() as int, previous, last_end, len).len() == 0,
{
}

/// A token has the length of its piece in the unit that the client counts, its type and its
/// modifiers; it is told relative to the token before, in lines, and in columns from that
/// token on the same line or from the start of another.
pub proof fn a_token_is_told_relative_to_the_one_before(
    l: Seq<u8>,
    p: Raw,
    enc: PositionEncoding,
    prev: crate::line_index::LinePos,
)
    requires
        prev.line <= position_of(l, p.start as int, enc).line,
        position_of(l, p.start as int, enc).character <= position_of(l, p.end as int, enc).character,
    ensures
        ({
            let from = position_of(l, p.start as int, enc);
            let to = position_of(l, p.end as int, enc);
            let t = token_of(l, p, enc, prev);
            &&& t.delta_line == from.line - prev.line
            &&& t.length == to.character - from.character
            &&& t.token_type == p.kind
            &&& t.token_modifiers_bitset == p.modifiers
            &&& from.line > prev.line ==> t.delta_start == from.character
            &&& from.line == prev.line && from.character >= prev.character ==> t.delta_start
                == from.character - prev.character
        }),
{
}

/// A stretch over several lines is shown in pieces, one for each line, without the newlines.
pub proof fn a_stretch_is_shown_line_by_line(b: Seq<u8>, r: Raw, i: int, j: int)
    requires
        0 <= i <= j <= r.end <= b.len(),
        i < r.end,
        forall|k: int| i <= k < j ==> #[trigger] b[k] != 10,
        j < r.end ==> b[j] == 10,
    ensures
        i < j ==> pieces_from(b, r, i) == seq![
            Raw { start: i as usize, end: j as usize, kind: r.kind, modifiers: r.modifiers },
        ] + pieces_from(b, r, j + 1),
        i == j ==> pieces_from(b, r, i) == pieces_from(b, r, j + 1),
        pieces_from(b, r, r.end as int).len() == 0,
{
    lemma_piece(b, i, j, r.end as int);
    if i == j {
        assert(Seq::<Raw>::empty() + pieces_from(b, r, j + 1) =~= pieces_from(b, r, j + 1));
    }
}

proof fn lemma_piece(b: Seq<u8>, i: int, j: int, end: int)
    requires
        0 <= i <= j <= end <= b.len(),
        forall|k: int| i <= k < j ==> #[trigger] b[k] != 10,
        j < end ==> b[j] == 10,
    ensures
        piece_end(b, i, end) == j,
    decreases j - i,
{
    if i < j {
        assert(b[i] != 10);
        lemma_piece(b, i + 1, j, end);
    }
}

/// A piece is shown as a token where it is on one line and takes up some of it.
pub proof fn a_piece_with_some_width_is_shown(l: Seq<u8>, p: Raw, enc: PositionEncoding)
    ensures
        crate::semantic::shows(l, p, enc) <==> position_of(l, p.start as int, enc).line
            == position_of(l, p.end as int, enc).line && position_of(
            l,
            p.start as int,
            enc,
        ).character < position_of(l, p.end as int, enc).character,
{
}

} // verus!

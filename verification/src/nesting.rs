//! How the symbols of an outline lie in each other: a name in its definition, a body in its
//! definition, and what is defined in a body in that body.
use core::ops::Range;
use vstd::prelude::*;

use crate::outline::SymbolView;
use crate::placement::placed;
use crate::script::{commands_are_in_order, commands_within, in_order};
use crate::token::{word_stop, words_from, words_of, CommandView, ParseError, Token};
use crate::walker::{
    bodies_at, class_variables, effect, enclosed, last_braced, outline_of, script_args, walk,
    walk_bodies, walk_command, walk_commands, BodyView, EffectView, Mode, MAX_DEPTH,
};
use crate::words::{body_at, literal_at, span_at};

verus! {

/// Whether a range lies in another.
pub open spec fn encloses(outer: Range<usize>, inner: Range<usize>) -> bool {
    outer.start <= inner.start && inner.start <= inner.end && inner.end <= outer.end
}

/// Whether a symbol's name and body lie in its definition, and what is defined inside lies
/// in its body, however deep.
pub open spec fn nested(s: SymbolView) -> bool
    decreases s,
{
    &&& encloses(s.full_range, s.name_range)
    &&& s.body matches Some(r) ==> encloses(s.full_range, r)
    &&& s.body is None ==> s.children.len() == 0
    &&& forall|i: int|
        0 <= i < s.children.len() ==> encloses(s.body->0, (#[trigger] s.children[i]).full_range)
            && nested(s.children[i])
}

/// Whether symbols lie in a range and each is nested in itself.
pub open spec fn all_nested(v: Seq<SymbolView>, outer: Range<usize>) -> bool {
    forall|i: int|
        0 <= i < v.len() ==> encloses(outer, (#[trigger] v[i]).full_range) && nested(v[i])
}

/// Whether bodies lie in a range.
pub open spec fn bodies_in(v: Seq<BodyView>, outer: Range<usize>) -> bool {
    forall|i: int| 0 <= i < v.len() ==> encloses(outer, (#[trigger] v[i]).range)
}

spec fn words_in(words: Seq<Seq<Token>>, outer: Range<usize>) -> bool {
    forall|i: int|
        0 <= i < words.len() ==> placed(#[trigger] words[i], outer.start as int, outer.end as int)
}

/// Whether what a command brings about lies in the command, and what its symbol has inside
/// in the body of the symbol.
spec fn effect_in(e: EffectView, outer: Range<usize>) -> bool {
    &&& all_nested(e.found.symbols, outer)
    &&& bodies_in(e.bodies, outer)
    &&& e.symbol matches Some(s) ==> {
        &&& nested(s)
        &&& s.full_range == outer
        &&& s.body is None ==> e.bodies.len() == 0
        &&& s.body matches Some(r) ==> bodies_in(e.bodies, r)
    }
}

proof fn lemma_words_in(tokens: Seq<Token>, i: int, outer: Range<usize>)
    requires
        0 <= i <= tokens.len(),
        placed(tokens, outer.start as int, outer.end as int),
    ensures
        words_in(words_from(tokens, i), outer),
    decreases tokens.len() - i,
{
    if i < tokens.len() {
        let j = word_stop(tokens, i);
        lemma_words_in(tokens, j, outer);
        let rest = words_from(tokens, j);
        let all = words_from(tokens, i);
        assert forall|k: int| 0 <= k < all.len() implies placed(
            #[trigger] all[k],
            outer.start as int,
            outer.end as int,
        ) by {
            if k > 0 {
                assert(all[k] == rest[k - 1]);
            } else {
                let word = tokens.subrange(i, j);
                assert(all[0] == word);
                assert forall|m: int| 0 <= m < word.len() implies outer.start <= (
                #[trigger] word[m]).start && word[m].stop() <= outer.end by {
                    assert(word[m] == tokens[i + m]);
                }
            }
        }
    }
}

proof fn lemma_word_in(b: Seq<u8>, words: Seq<Seq<Token>>, i: int, outer: Range<usize>)
    requires
        words_in(words, outer),
    ensures
        span_at(words, i) matches Some(r) ==> encloses(outer, r),
        body_at(b, words, i) matches Some(r) ==> encloses(outer, r),
{
    if 0 <= i < words.len() {
        assert(placed(words[i], outer.start as int, outer.end as int));
        if words[i].len() > 0 {
            assert(words[i][0].stop() <= outer.end);
        }
    }
}

proof fn lemma_class_variables(
    b: Seq<u8>,
    c: CommandView,
    words: Seq<Seq<Token>>,
    ns: Seq<char>,
    k: int,
)
    requires
        words_in(words, c.range),
        c.range.start <= c.range.end,
    ensures
        all_nested(class_variables(b, c, words, ns, k), c.range),
    decreases words.len() - k,
{
    if 0 <= k < words.len() {
        lemma_class_variables(b, c, words, ns, k + 1);
        lemma_word_in(b, words, k, c.range);
    }
}

proof fn lemma_bodies(
    b: Seq<u8>,
    words: Seq<Seq<Token>>,
    positions: Seq<int>,
    k: int,
    ns: Seq<char>,
    scope: Range<usize>,
    outer: Range<usize>,
)
    requires
        words_in(words, outer),
    ensures
        bodies_in(bodies_at(b, words, positions, k, ns, scope), outer),
    decreases positions.len() - k,
{
    if 0 <= k < positions.len() {
        lemma_bodies(b, words, positions, k + 1, ns, scope, outer);
        lemma_word_in(b, words, positions[k], outer);
    }
}

proof fn lemma_effect(
    b: Seq<u8>,
    c: CommandView,
    head: Seq<char>,
    ns: Seq<char>,
    mode: Mode,
    scope: Range<usize>,
)
    requires
        placed(c.tokens, c.range.start as int, c.range.end as int),
        c.range.start <= c.range.end,
    ensures
        effect_in(effect(b, c, head, ns, mode, scope), c.range),
{
    let words = words_of(c.tokens);
    lemma_words_in(c.tokens, 0, c.range);
    lemma_word_in(b, words, 1, c.range);
    lemma_word_in(b, words, 2, c.range);
    lemma_word_in(b, words, 3, c.range);
    if c.tokens.len() > 0 {
        assert(c.tokens[0].stop() <= c.range.end);
    }
    match mode {
        Mode::Script => {
            lemma_bodies(b, words, script_args(b, head, words), 0, ns, scope, c.range);
            if let Some(i) = last_braced(b, words, words.len() as int) {
                lemma_word_in(b, words, i, c.range);
            }
        },
        Mode::ClassBody => {
            lemma_class_variables(b, c, words, ns, 1);
        },
    }
}

proof fn lemma_walk_command(
    b: Seq<u8>,
    c: CommandView,
    ns: Seq<char>,
    mode: Mode,
    scope: Range<usize>,
    depth: nat,
)
    requires
        b.len() <= usize::MAX,
        placed(c.tokens, c.range.start as int, c.range.end as int),
        c.range.start <= c.range.end <= b.len(),
    ensures
        all_nested(walk_command(b, c, ns, mode, scope, depth).symbols, c.range),
    decreases depth, 1int, 0nat,
{
    if let Some(name) = literal_at(b, words_of(c.tokens), 0) {
        if depth > 0 {
            let head = crate::outline::without_root(name);
            let e = effect(b, c, head, ns, mode, scope);
            lemma_effect(b, c, head, ns, mode, scope);
            let outer = match e.symbol {
                Some(s) => match s.body {
                    Some(r) => r,
                    None => c.range,
                },
                None => c.range,
            };
            lemma_walk_bodies(b, e.bodies, 0, (depth - 1) as nat, outer);
            let inner = walk_bodies(b, e.bodies, 0, (depth - 1) as nat);
            if let Some(s) = e.symbol {
                let whole = SymbolView { children: inner.symbols, ..s };
                if s.body is None {
                    assert(inner.symbols =~= seq![]);
                }
                assert(nested(whole));
                assert(enclosed(e.symbol, inner).symbols =~= seq![whole]);
            }
        }
    }
}

proof fn lemma_walk_bodies(
    b: Seq<u8>,
    bodies: Seq<BodyView>,
    k: int,
    depth: nat,
    outer: Range<usize>,
)
    requires
        b.len() <= usize::MAX,
        bodies_in(bodies, outer),
        outer.end <= b.len(),
    ensures
        all_nested(walk_bodies(b, bodies, k, depth).symbols, outer),
    decreases depth, 4int, bodies.len() - k,
{
    if 0 <= k < bodies.len() {
        let body = bodies[k];
        assert(encloses(outer, body.range));
        lemma_walk(b, body.range, body.ns, body.mode, body.scope, depth);
        lemma_walk_bodies(b, bodies, k + 1, depth, outer);
        let here = walk(b, body.range, body.ns, body.mode, body.scope, depth).symbols;
        assert(all_nested(here, outer));
    }
}

proof fn lemma_walk_commands(
    b: Seq<u8>,
    all: Seq<Result<CommandView, ParseError>>,
    ns: Seq<char>,
    mode: Mode,
    scope: Range<usize>,
    depth: nat,
    from: int,
    outer: Range<usize>,
)
    requires
        b.len() <= usize::MAX,
        outer.start <= from,
        outer.end <= b.len(),
        in_order(all, from, outer.end as int),
    ensures
        all_nested(walk_commands(b, all, ns, mode, scope, depth).symbols, outer),
    decreases depth, 2int, all.len(),
{
    if all.len() > 0 {
        if let Ok(c) = all[0] {
            lemma_walk_command(b, c, ns, mode, scope, depth);
            lemma_walk_commands(
                b,
                all.drop_first(),
                ns,
                mode,
                scope,
                depth,
                c.range.end as int,
                outer,
            );
            let here = walk_command(b, c, ns, mode, scope, depth).symbols;
            assert(all_nested(here, outer));
        }
    }
}

proof fn lemma_walk(
    b: Seq<u8>,
    range: Range<usize>,
    ns: Seq<char>,
    mode: Mode,
    scope: Range<usize>,
    depth: nat,
)
    requires
        b.len() <= usize::MAX,
        range.start <= range.end <= b.len(),
    ensures
        all_nested(walk(b, range, ns, mode, scope, depth).symbols, range),
    decreases depth, 3int, 0nat,
{
    if depth > 0 {
        commands_are_in_order(b, range.start as int, range.end as int);
        lemma_walk_commands(
            b,
            commands_within(b, range.start as int, range.end as int),
            ns,
            mode,
            scope,
            depth,
            range.start as int,
            range,
        );
    }
}

// ----------------------------------------------------------------------- laws
/// Every symbol of an outline lies in the file. Its name and its body lie in its
/// definition, and each of its children lies in its body, however deep.
pub proof fn symbols_are_nested(b: Seq<u8>)
    requires
        b.len() <= usize::MAX,
    ensures
        all_nested(outline_of(b).symbols, Range { start: 0, end: b.len() as usize }),
{
    let file = Range { start: 0usize, end: b.len() as usize };
    lemma_walk(b, file, seq![':', ':'], Mode::Script, file, MAX_DEPTH as nat);
}

/// The name of a symbol lies in its definition, and the definition of each child in that
/// of its parent.
pub proof fn a_child_lies_in_its_parent(s: SymbolView, i: int)
    requires
        nested(s),
        0 <= i < s.children.len(),
    ensures
        encloses(s.full_range, s.name_range),
        encloses(s.full_range, s.children[i].full_range),
        nested(s.children[i]),
{
}

} // verus!

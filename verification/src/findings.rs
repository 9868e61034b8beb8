//! What holds of every outline: its ranges lie in the file and hold whole characters, and
//! its qualified names are absolute.
use core::ops::Range;
use vstd::prelude::*;
use vstd::utf8::{is_char_boundary_start_end_of_seq, valid_utf8};

use crate::characters::{
    all_whole, command_whole, commands_hold_whole_characters, cut, lemma_cut, whole,
};
use crate::nesting::{all_nested, symbols_are_nested};
use crate::outline::{
    container, qualified, qualified_names_are_absolute, ErrorView, Found, LinkView, ProvideView,
    RefView, SymbolKind, SymbolView, VarView,
};
use crate::placement::placed;
use crate::script::{commands_are_in_order, commands_within, in_order};
use crate::text::{matches_at, rfind_text};
use crate::token::{word_stop, words_from, words_of, CommandView, ParseError, Token};
use crate::walker::{
    bindings, block, bodies_at, body_here, class_variables, effect, enclosed, iteration,
    last_braced, outline_of, package, parameters, routine, script_args, sighting, source_link,
    symbol, target, targets, unnamed, variable_ref, variable_refs, walk, walk_bodies,
    walk_command, walk_commands, BodyView, EffectView, Mode, MAX_DEPTH,
};
use crate::words::{body_at, is_delimited, literal_at, span_at};

verus! {

/// Whether a range lies in a text of `n` bytes.
pub open spec fn within(r: Range<usize>, n: int) -> bool {
    r.start <= r.end && r.end <= n
}

/// Whether a range lies in a text and, where that is valid UTF-8, holds whole characters.
pub open spec fn inside(r: Range<usize>, t: Seq<u8>) -> bool {
    &&& within(r, t.len() as int)
    &&& valid_utf8(t) ==> cut(t, r.start as int) && cut(t, r.end as int)
}

/// Whether a name is absolute.
pub open spec fn absolute(name: Seq<char>) -> bool {
    matches_at(name, 0, seq![':', ':'])
}

/// Whether a symbol, with all that is in it, lies in the file and has an absolute
/// qualified name.
pub open spec fn symbol_sound(s: SymbolView, t: Seq<u8>) -> bool
    decreases s,
{
    &&& inside(s.name_range, t)
    &&& inside(s.full_range, t)
    &&& s.full_range.start <= s.end <= s.full_range.end
    &&& s.body matches Some(r) ==> inside(r, t)
    &&& absolute(s.qname)
    &&& forall|i: int|
        0 <= i < s.children.len() ==> symbol_sound(#[trigger] s.children[i], t)
}

pub open spec fn symbols_sound(v: Seq<SymbolView>, t: Seq<u8>) -> bool {
    forall|i: int| 0 <= i < v.len() ==> symbol_sound(#[trigger] v[i], t)
}

pub open spec fn refs_sound(v: Seq<RefView>, t: Seq<u8>) -> bool {
    forall|i: int|
        0 <= i < v.len() ==> inside((#[trigger] v[i]).range, t)
}

pub open spec fn vars_sound(v: Seq<VarView>, t: Seq<u8>) -> bool {
    forall|i: int|
        0 <= i < v.len() ==> inside((#[trigger] v[i]).range, t) && inside(v[i].scope, t)
}

pub open spec fn errors_sound(v: Seq<ErrorView>, t: Seq<u8>) -> bool {
    forall|i: int| 0 <= i < v.len() ==> within((#[trigger] v[i]).range, t.len() as int)
}

pub open spec fn ranges_sound(v: Seq<Range<usize>>, t: Seq<u8>) -> bool {
    forall|i: int| 0 <= i < v.len() ==> inside(#[trigger] v[i], t)
}

pub open spec fn links_sound(v: Seq<LinkView>, t: Seq<u8>) -> bool {
    forall|i: int| 0 <= i < v.len() ==> inside((#[trigger] v[i]).range, t)
}

pub open spec fn provides_sound(v: Seq<ProvideView>, t: Seq<u8>) -> bool {
    forall|i: int| 0 <= i < v.len() ==> inside((#[trigger] v[i]).range, t)
}

/// Whether everything found lies in a text of `n` bytes, with absolute names.
pub open spec fn sound(f: Found, t: Seq<u8>) -> bool {
    &&& symbols_sound(f.symbols, t)
    &&& refs_sound(f.refs, t)
    &&& vars_sound(f.variables, t)
    &&& errors_sound(f.errors, t)
    &&& ranges_sound(f.comments, t)
    &&& links_sound(f.links, t)
    &&& provides_sound(f.provides, t)
}

proof fn lemma_sound_plus(a: Found, b: Found, t: Seq<u8>)
    requires
        sound(a, t),
        sound(b, t),
    ensures
        sound(a.plus(b), t),
{
}

/// Whether a namespace makes absolute names. A single colon does: it is what is
/// left of `:::x` before its last `::`.
pub open spec fn rooted(ns: Seq<char>) -> bool {
    absolute(ns) || ns == seq![':']
}

pub open spec fn body_sound(b: BodyView, t: Seq<u8>) -> bool {
    inside(b.range, t) && inside(b.scope, t) && rooted(b.ns)
}

pub open spec fn bodies_sound(v: Seq<BodyView>, t: Seq<u8>) -> bool {
    forall|i: int| 0 <= i < v.len() ==> body_sound(#[trigger] v[i], t)
}

pub open spec fn effect_sound(e: EffectView, t: Seq<u8>) -> bool {
    &&& sound(e.found, t)
    &&& bodies_sound(e.bodies, t)
    &&& e.symbol matches Some(s) ==> symbol_sound(s, t)
}

// ---------------------------------------------------------------------- words
/// Every token lies in the text and, where that is valid UTF-8, holds whole characters.
pub open spec fn tokens_inside(tokens: Seq<Token>, t: Seq<u8>) -> bool {
    &&& placed(tokens, 0, t.len() as int)
    &&& valid_utf8(t) ==> all_whole(t, tokens)
}

pub open spec fn words_inside(words: Seq<Seq<Token>>, t: Seq<u8>) -> bool {
    forall|i: int| 0 <= i < words.len() ==> tokens_inside(#[trigger] words[i], t)
}

proof fn lemma_words_inside(tokens: Seq<Token>, i: int, t: Seq<u8>)
    requires
        0 <= i <= tokens.len(),
        tokens_inside(tokens, t),
    ensures
        words_inside(words_from(tokens, i), t),
    decreases tokens.len() - i,
{
    if i < tokens.len() {
        let j = word_stop(tokens, i);
        lemma_words_inside(tokens, j, t);
        let rest = words_from(tokens, j);
        let all = words_from(tokens, i);
        assert forall|k: int| 0 <= k < all.len() implies tokens_inside(#[trigger] all[k], t) by {
            if k > 0 {
                assert(all[k] == rest[k - 1]);
            } else {
                let word = tokens.subrange(i, j);
                assert(all[0] == word);
                assert forall|m: int| 0 <= m < word.len() implies 0 <= (#[trigger] word[m]).start
                    && word[m].stop() <= t.len() by {
                    assert(word[m] == tokens[i + m]);
                }
                assert forall|m: int| valid_utf8(t) && 0 <= m < word.len() implies whole(
                    t,
                    #[trigger] word[m],
                ) by {
                    assert(word[m] == tokens[i + m]);
                }
            }
        }
    }
}

proof fn lemma_word_ranges(b: Seq<u8>, words: Seq<Seq<Token>>, i: int)
    requires
        words_inside(words, b),
        b.len() <= usize::MAX,
    ensures
        span_at(words, i) matches Some(r) ==> inside(r, b),
        body_at(b, words, i) matches Some(r) ==> inside(r, b),
{
    if 0 <= i < words.len() {
        assert(tokens_inside(words[i], b));
        if words[i].len() > 0 {
            let head = words[i][0];
            assert(head.stop() <= b.len());
            if valid_utf8(b) {
                assert(whole(b, head));
                if (head.kind is Word || head.kind is SimpleWord) && is_delimited(b, head) {
                    lemma_cut(b, head.start as int);
                    lemma_cut(b, head.stop() - 1);
                }
            }
        }
    }
}

// --------------------------------------------------------------------- effects
proof fn lemma_bindings(
    names: Seq<Seq<char>>,
    k: int,
    range: Range<usize>,
    scope: Range<usize>,
    t: Seq<u8>,
)
    requires
        inside(range, t),
        inside(scope, t),
    ensures
        vars_sound(bindings(names, k, range, scope), t),
    decreases names.len() - k,
{
    if 0 <= k < names.len() {
        lemma_bindings(names, k + 1, range, scope, t);
    }
}

proof fn lemma_parameters(b: Seq<u8>, words: Seq<Seq<Token>>, k: int, body: Range<usize>)
    requires
        words_inside(words, b),
        b.len() <= usize::MAX,
        inside(body, b),
    ensures
        vars_sound(parameters(b, words, k, body), b),
{
    lemma_word_ranges(b, words, k);
    if let Some(args) = literal_at(b, words, k) {
        let range = match span_at(words, k) {
            Some(r) => r,
            None => body,
        };
        lemma_bindings(crate::outline::arg_names(args), 0, range, body, b);
    }
}

proof fn lemma_targets(b: Seq<u8>, words: Seq<Seq<Token>>, k: int, scope: Range<usize>)
    requires
        words_inside(words, b),
        b.len() <= usize::MAX,
        inside(scope, b),
    ensures
        vars_sound(target(b, words, k, scope), b),
        vars_sound(targets(b, words, k, scope), b),
    decreases words.len() - k,
{
    lemma_word_ranges(b, words, k);
    if 0 <= k < words.len() {
        lemma_targets(b, words, k + 1, scope);
    }
}

proof fn lemma_qualified(ns: Seq<char>, name: Seq<char>)
    requires
        rooted(ns),
    ensures
        absolute(qualified(ns, name)),
        rooted(container(ns, name)),
{
    let q = qualified(ns, name);
    let c = seq![':', ':'];
    if absolute(ns) {
        qualified_names_are_absolute(ns, name);
    } else if !matches_at(name, 0, c) {
        assert(q =~= seq![':'] + c + name);
        assert(q.subrange(0, 2) =~= c);
    }
    assert(absolute(q));
    assert(q.subrange(0, 2) == c);
    assert(q[0] == q.subrange(0, 2)[0]);
    assert(c.subrange(0, 2) =~= c);
    lemma_rfind(q, q.len() as int, c);
    if let Some(i) = rfind_text(q, q.len() as int, c) {
        if i >= 2 {
            assert(q.subrange(0, i).subrange(0, 2) =~= q.subrange(0, 2));
        } else if i == 1 {
            assert(q.subrange(0, 1) =~= seq![':']);
        }
    }
}

proof fn lemma_rfind(s: Seq<char>, n: int, p: Seq<char>)
    ensures
        rfind_text(s, n, p) matches Some(i) ==> 0 <= i <= n && matches_at(s, i, p),
    decreases n + 1,
{
    if n >= 0 && !matches_at(s, n, p) {
        lemma_rfind(s, n - 1, p);
    }
}

proof fn lemma_routine(
    b: Seq<u8>,
    c: CommandView,
    words: Seq<Seq<Token>>,
    ns: Seq<char>,
    kind: SymbolKind,
)
    requires
        words_inside(words, b),
        b.len() <= usize::MAX,
        inside(c.range, b),
        rooted(ns),
    ensures
        effect_sound(routine(b, c, words, ns, kind), b),
{
    lemma_word_ranges(b, words, 1);
    lemma_word_ranges(b, words, 3);
    if let Some(name) = literal_at(b, words, 1) {
        lemma_qualified(ns, name);
    }
    if let Some(body) = body_at(b, words, 3) {
        lemma_parameters(b, words, 2, body);
    }
}

proof fn lemma_block(
    b: Seq<u8>,
    c: CommandView,
    words: Seq<Seq<Token>>,
    ns: Seq<char>,
    subcommand: Seq<char>,
    kind: SymbolKind,
    mode: Mode,
)
    requires
        words_inside(words, b),
        b.len() <= usize::MAX,
        inside(c.range, b),
        rooted(ns),
    ensures
        effect_sound(block(b, c, words, ns, subcommand, kind, mode), b),
{
    lemma_word_ranges(b, words, 2);
    lemma_word_ranges(b, words, 3);
    if let Some(name) = literal_at(b, words, 2) {
        lemma_qualified(ns, name);
    }
}

proof fn lemma_unnamed(
    b: Seq<u8>,
    c: CommandView,
    words: Seq<Seq<Token>>,
    ns: Seq<char>,
    name: Seq<char>,
    kind: SymbolKind,
    at: int,
)
    requires
        words_inside(words, b),
        tokens_inside(c.tokens, b),
        b.len() <= usize::MAX,
        inside(c.range, b),
        rooted(ns),
    ensures
        effect_sound(unnamed(b, c, words, ns, name, kind, at), b),
{
    lemma_word_ranges(b, words, at);
    lemma_qualified(ns, name);
    if c.tokens.len() > 0 {
        assert(c.tokens[0].stop() <= b.len());
        assert(valid_utf8(b) ==> whole(b, c.tokens[0]));
    }
    if let Some(body) = body_at(b, words, at) {
        lemma_parameters(b, words, at - 1, body);
    }
}

proof fn lemma_class_variables(
    b: Seq<u8>,
    c: CommandView,
    words: Seq<Seq<Token>>,
    ns: Seq<char>,
    k: int,
)
    requires
        words_inside(words, b),
        b.len() <= usize::MAX,
        inside(c.range, b),
        rooted(ns),
    ensures
        symbols_sound(class_variables(b, c, words, ns, k), b),
    decreases words.len() - k,
{
    if 0 <= k < words.len() {
        lemma_class_variables(b, c, words, ns, k + 1);
        lemma_word_ranges(b, words, k);
        if let Some(name) = literal_at(b, words, k) {
            lemma_qualified(ns, name);
        }
    }
}

proof fn lemma_body_here(
    b: Seq<u8>,
    words: Seq<Seq<Token>>,
    i: int,
    ns: Seq<char>,
    scope: Range<usize>,
)
    requires
        words_inside(words, b),
        b.len() <= usize::MAX,
        inside(scope, b),
        rooted(ns),
    ensures
        bodies_sound(body_here(b, words, i, ns, scope), b),
{
    lemma_word_ranges(b, words, i);
}

proof fn lemma_bodies_at(
    b: Seq<u8>,
    words: Seq<Seq<Token>>,
    positions: Seq<int>,
    k: int,
    ns: Seq<char>,
    scope: Range<usize>,
)
    requires
        words_inside(words, b),
        b.len() <= usize::MAX,
        inside(scope, b),
        rooted(ns),
    ensures
        bodies_sound(bodies_at(b, words, positions, k, ns, scope), b),
    decreases positions.len() - k,
{
    if 0 <= k < positions.len() {
        lemma_bodies_at(b, words, positions, k + 1, ns, scope);
        lemma_body_here(b, words, positions[k], ns, scope);
    }
}

proof fn lemma_iteration(
    b: Seq<u8>,
    c: CommandView,
    words: Seq<Seq<Token>>,
    ns: Seq<char>,
    scope: Range<usize>,
)
    requires
        words_inside(words, b),
        b.len() <= usize::MAX,
        inside(c.range, b),
        inside(scope, b),
        rooted(ns),
    ensures
        effect_sound(iteration(b, c, words, ns, scope), b),
{
    lemma_word_ranges(b, words, 1);
    if let Some(names) = literal_at(b, words, 1) {
        let range = match span_at(words, 1) {
            Some(r) => r,
            None => c.range,
        };
        lemma_bindings(crate::text::split_words(names), 0, range, scope, b);
    }
    if let Some(i) = last_braced(b, words, words.len() as int) {
        lemma_body_here(b, words, i, ns, scope);
    }
}

proof fn lemma_links(b: Seq<u8>, words: Seq<Seq<Token>>)
    requires
        words_inside(words, b),
        b.len() <= usize::MAX,
    ensures
        links_sound(source_link(b, words), b),
        sound(package(b, words), b),
{
    lemma_word_ranges(b, words, words.len() - 1);
    lemma_word_ranges(b, words, 2);
    lemma_word_ranges(b, words, 3);
}

proof fn lemma_effect(
    b: Seq<u8>,
    c: CommandView,
    head: Seq<char>,
    ns: Seq<char>,
    mode: Mode,
    scope: Range<usize>,
)
    requires
        tokens_inside(c.tokens, b),
        b.len() <= usize::MAX,
        inside(c.range, b),
        inside(scope, b),
        rooted(ns),
    ensures
        effect_sound(effect(b, c, head, ns, mode, scope), b),
{
    let words = words_of(c.tokens);
    lemma_words_inside(c.tokens, 0, b);
    match mode {
        Mode::Script => {
            lemma_routine(b, c, words, ns, SymbolKind::Proc);
            lemma_block(b, c, words, ns, "eval"@, SymbolKind::Namespace, Mode::Script);
            lemma_block(b, c, words, ns, "create"@, SymbolKind::Class, Mode::ClassBody);
            lemma_targets(b, words, 1, scope);
            lemma_iteration(b, c, words, ns, scope);
            lemma_targets(b, words, 2, scope);
            lemma_links(b, words);
            lemma_bodies_at(b, words, script_args(b, head, words), 0, ns, scope);
        },
        Mode::ClassBody => {
            lemma_routine(b, c, words, ns, SymbolKind::Method);
            lemma_unnamed(b, c, words, ns, "constructor"@, SymbolKind::Constructor, 2);
            lemma_unnamed(b, c, words, ns, "destructor"@, SymbolKind::Destructor, 1);
            lemma_class_variables(b, c, words, ns, 1);
        },
    }
}

// ------------------------------------------------------------------- the walk
proof fn lemma_variable_refs(b: Seq<u8>, tokens: Seq<Token>, k: int, ns: Seq<char>)
    requires
        tokens_inside(tokens, b),
        b.len() <= usize::MAX,
    ensures
        refs_sound(variable_refs(b, tokens, k, ns), b),
    decreases tokens.len() - k,
{
    if 0 <= k < tokens.len() {
        lemma_variable_refs(b, tokens, k + 1, ns);
        if k + 1 < tokens.len() {
            assert(tokens[k + 1].stop() <= b.len());
            assert(valid_utf8(b) ==> whole(b, tokens[k + 1]));
        }
        assert(refs_sound(variable_ref(b, tokens, k, ns), b));
    }
}

proof fn lemma_sighting(b: Seq<u8>, c: CommandView, head: Option<Seq<char>>, ns: Seq<char>)
    requires
        tokens_inside(c.tokens, b),
        b.len() <= usize::MAX,
        c.comment matches Some(r) ==> inside(r, b),
    ensures
        sound(sighting(b, c, head, ns), b),
{
    lemma_variable_refs(b, c.tokens, 0, ns);
    lemma_words_inside(c.tokens, 0, b);
    lemma_word_ranges(b, words_of(c.tokens), 0);
}

proof fn lemma_enclosed(symbol: Option<SymbolView>, inner: Found, t: Seq<u8>)
    requires
        sound(inner, t),
        symbol matches Some(s) ==> symbol_sound(s, t),
    ensures
        sound(enclosed(symbol, inner), t),
{
    if let Some(s) = symbol {
        let whole = SymbolView { children: inner.symbols, ..s };
        assert(symbol_sound(whole, t));
        assert(enclosed(symbol, inner).symbols =~= seq![whole]);
    }
}

proof fn lemma_walk_command(
    b: Seq<u8>,
    c: CommandView,
    ns: Seq<char>,
    mode: Mode,
    scope: Range<usize>,
    depth: nat,
)
    requires
        b.len() <= usize::MAX,
        tokens_inside(c.tokens, b),
        inside(c.range, b),
        c.comment matches Some(r) ==> inside(r, b),
        inside(scope, b),
        rooted(ns),
    ensures
        sound(walk_command(b, c, ns, mode, scope, depth), b),
    decreases depth, 1int, 0nat,
{
    let head = literal_at(b, words_of(c.tokens), 0);
    lemma_sighting(b, c, head, ns);
    if let Some(name) = head {
        if depth > 0 {
            let e = effect(b, c, crate::outline::without_root(name), ns, mode, scope);
            lemma_effect(b, c, crate::outline::without_root(name), ns, mode, scope);
            lemma_walk_bodies(b, e.bodies, 0, (depth - 1) as nat);
            let inner = walk_bodies(b, e.bodies, 0, (depth - 1) as nat);
            lemma_enclosed(e.symbol, inner, b);
            let seen = sighting(b, c, head, ns);
            lemma_sound_plus(seen, e.found, b);
            lemma_sound_plus(seen.plus(e.found), enclosed(e.symbol, inner), b);
        }
    }
}

proof fn lemma_walk_bodies(b: Seq<u8>, bodies: Seq<BodyView>, k: int, depth: nat)
    requires
        b.len() <= usize::MAX,
        bodies_sound(bodies, b),
    ensures
        sound(walk_bodies(b, bodies, k, depth), b),
    decreases depth, 4int, bodies.len() - k,
{
    if 0 <= k < bodies.len() {
        assert(body_sound(bodies[k], b));
        lemma_walk(
            b,
            bodies[k].range,
            bodies[k].ns,
            bodies[k].mode,
            bodies[k].scope,
            depth,
        );
        lemma_walk_bodies(b, bodies, k + 1, depth);
        lemma_sound_plus(
            walk(b, bodies[k].range, bodies[k].ns, bodies[k].mode, bodies[k].scope, depth),
            walk_bodies(b, bodies, k + 1, depth),
            b,
        );
    }
}

/// Every command holds whole characters.
spec fn commands_whole(all: Seq<Result<CommandView, ParseError>>, b: Seq<u8>) -> bool {
    valid_utf8(b) ==> forall|k: int|
        0 <= k < all.len() && (#[trigger] all[k]) is Ok ==> command_whole(b, all[k]->Ok_0)
}

proof fn lemma_walk_commands(
    b: Seq<u8>,
    all: Seq<Result<CommandView, ParseError>>,
    ns: Seq<char>,
    mode: Mode,
    scope: Range<usize>,
    depth: nat,
    from: int,
    to: int,
)
    requires
        b.len() <= usize::MAX,
        0 <= from,
        to <= b.len(),
        in_order(all, from, to),
        commands_whole(all, b),
        inside(scope, b),
        rooted(ns),
    ensures
        sound(walk_commands(b, all, ns, mode, scope, depth), b),
    decreases depth, 2int, all.len(),
{
    if all.len() > 0 {
        if let Ok(c) = all[0] {
            assert(valid_utf8(b) ==> command_whole(b, all[0]->Ok_0));
            assert forall|k: int|
                valid_utf8(b) && 0 <= k < all.drop_first().len() && (#[trigger] all.drop_first()[k])
                    is Ok implies command_whole(b, all.drop_first()[k]->Ok_0) by {
                assert(all.drop_first()[k] == all[k + 1]);
            }
            lemma_walk_command(b, c, ns, mode, scope, depth);
            lemma_walk_commands(
                b,
                all.drop_first(),
                ns,
                mode,
                scope,
                depth,
                c.range.end as int,
                to,
            );
            lemma_sound_plus(
                walk_command(b, c, ns, mode, scope, depth),
                walk_commands(b, all.drop_first(), ns, mode, scope, depth),
                b,
            );
        }
    }
}

proof fn lemma_walk(
    b: Seq<u8>,
    range: Range<usize>,
    ns: Seq<char>,
    mode: Mode,
    scope: Range<usize>,
    depth: nat,
)
    requires
        b.len() <= usize::MAX,
        inside(range, b),
        inside(scope, b),
        rooted(ns),
    ensures
        sound(walk(b, range, ns, mode, scope, depth), b),
    decreases depth, 3int, 0nat,
{
    if depth > 0 {
        let lo = range.start as int;
        let hi = range.end as int;
        let all = commands_within(b, lo, hi);
        commands_are_in_order(b, lo, hi);
        assert forall|k: int|
            valid_utf8(b) && 0 <= k < all.len() && (#[trigger] all[k]) is Ok implies command_whole(
            b,
            all[k]->Ok_0,
        ) by {
            commands_hold_whole_characters(b, lo, hi, k);
        }
        lemma_walk_commands(b, all, ns, mode, scope, depth, lo, hi);
    }
}

// ----------------------------------------------------------------------- laws
/// Everything that an outline reports lies in the file, however deep it is nested, and all
/// but the errors holds whole characters. The name of a symbol lies in its definition, and
/// so do its body and the definitions inside that.
pub proof fn findings_lie_in_the_file(b: Seq<u8>)
    requires
        b.len() <= usize::MAX,
    ensures
        sound(outline_of(b), b),
        all_nested(outline_of(b).symbols, Range { start: 0, end: b.len() as usize }),
{
    symbols_are_nested(b);
    let c = seq![':', ':'];
    assert(c.subrange(0, 2) =~= c);
    let file = Range { start: 0usize, end: b.len() as usize };
    if valid_utf8(b) {
        is_char_boundary_start_end_of_seq(b);
    }
    lemma_walk(b, file, c, Mode::Script, file, MAX_DEPTH as nat);
}

/// Every definition's qualified name is absolute.
pub proof fn definitions_are_absolute(b: Seq<u8>, k: int)
    requires
        b.len() <= usize::MAX,
        0 <= k < crate::index::defs_of(b).len(),
    ensures
        absolute(crate::index::defs_of(b)[k].qname),
        inside(crate::index::defs_of(b)[k].name_range, b),
        inside(crate::index::defs_of(b)[k].full_range, b),
{
    findings_lie_in_the_file(b);
    lemma_flat(outline_of(b).symbols, 0, b);
}

proof fn lemma_flat(symbols: Seq<SymbolView>, k: int, t: Seq<u8>)
    requires
        symbols_sound(symbols, t),
    ensures
        forall|i: int|
            0 <= i < crate::index::flat(symbols, k).len() ==> {
                let d = #[trigger] crate::index::flat(symbols, k)[i];
                absolute(d.qname) && inside(d.name_range, t) && inside(d.full_range, t)
            },
    decreases symbols, symbols.len() - k,
{
    if 0 <= k < symbols.len() {
        let s = symbols[k];
        assert(symbol_sound(s, t));
        assert(symbols_sound(s.children, t));
        lemma_flat(s.children, 0, t);
        lemma_flat(symbols, k + 1, t);
        let one = seq![crate::index::def_of(s)];
        let kids = crate::index::flat(s.children, 0);
        let rest = crate::index::flat(symbols, k + 1);
        let all = crate::index::flat(symbols, k);
        assert(all =~= one + kids + rest);
        assert forall|i: int| 0 <= i < all.len() implies ({
            let d = #[trigger] all[i];
            absolute(d.qname) && inside(d.name_range, t) && inside(d.full_range, t)
        }) by {
            if i == 0 {
                assert(all[i] == one[0]);
            } else if i < 1 + kids.len() {
                assert(all[i] == kids[i - 1]);
            } else {
                assert(all[i] == rest[i - 1 - kids.len()]);
            }
        }
    }
}

} // verus!

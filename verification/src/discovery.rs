//! What an outline is for, said of the commands that go in and the findings that come out:
//! which words of a command are walked as scripts, and what each command defines, binds,
//! mentions and uses.
use core::ops::Range;
use vstd::prelude::*;

use crate::outline::{
    arg_names, container, qualified, without_root, ErrorView, Found, LinkKind, LinkView,
    ProvideView, RefKind, RefView, SymbolKind, SymbolView, VarView,
};
use crate::script::commands_within;
use crate::text::split_words;
use crate::token::{words_of, CommandView, ParseError, Token};
use crate::walker::{
    bindable, bindings, bodies_at, body_here, class_variables, doc_of, effect, enclosed, end_of,
    if_bodies, last_braced, link, parameters, place, script_args, sighting, syntax_error,
    target, targets, try_bodies, variable_ref, variable_refs, walk, walk_bodies, walk_command,
    walk_commands, BodyView, EffectView, Mode,
};
use crate::words::{body_at, body_of, is_braced, literal_at, literal_of, span_at, token_text};

verus! {

/// One thing that an outline finds.
pub enum Item {
    Symbol(SymbolView),
    Ref(RefView),
    Variable(VarView),
    Error(ErrorView),
    Comment(Range<usize>),
    Link(LinkView),
    Provide(ProvideView),
}

/// Whether it is among the findings.
pub open spec fn finds(f: Found, x: Item) -> bool {
    match x {
        Item::Symbol(s) => f.symbols.contains(s),
        Item::Ref(r) => f.refs.contains(r),
        Item::Variable(v) => f.variables.contains(v),
        Item::Error(e) => f.errors.contains(e),
        Item::Comment(c) => f.comments.contains(c),
        Item::Link(l) => f.links.contains(l),
        Item::Provide(p) => f.provides.contains(p),
    }
}

pub(crate) proof fn lemma_joined<T>(a: Seq<T>, z: Seq<T>, x: T)
    ensures
        (a + z).contains(x) <==> a.contains(x) || z.contains(x),
{
    if a.contains(x) {
        let i = choose|i: int| 0 <= i < a.len() && a[i] == x;
        assert((a + z)[i] == x);
    }
    if z.contains(x) {
        let i = choose|i: int| 0 <= i < z.len() && z[i] == x;
        assert((a + z)[a.len() + i] == x);
    }
    if (a + z).contains(x) {
        let i = choose|i: int| 0 <= i < (a + z).len() && (a + z)[i] == x;
        if i < a.len() {
            assert(a[i] == x);
        } else {
            assert(z[i - a.len()] == x);
        }
    }
}

/// What is found in two places is what is found in the one and what is found in the other.
pub proof fn findings_add_up(a: Found, z: Found, x: Item)
    ensures
        finds(a.plus(z), x) <==> finds(a, x) || finds(z, x),
{
    match x {
        Item::Symbol(s) => lemma_joined(a.symbols, z.symbols, s),
        Item::Ref(r) => lemma_joined(a.refs, z.refs, r),
        Item::Variable(v) => lemma_joined(a.variables, z.variables, v),
        Item::Error(e) => lemma_joined(a.errors, z.errors, e),
        Item::Comment(c) => lemma_joined(a.comments, z.comments, c),
        Item::Link(l) => lemma_joined(a.links, z.links, l),
        Item::Provide(p) => lemma_joined(a.provides, z.provides, p),
    }
}

proof fn lemma_nothing(x: Item)
    ensures
        !finds(Found::none(), x),
{
}

// ------------------------------------------------------------------- commands
/// Whether a command, read in namespace `ns`, shows a thing by itself: its name as a use
/// of a command, each variable that it substitutes, and the comment before it.
pub open spec fn shows(b: Seq<u8>, c: CommandView, ns: Seq<char>, x: Item) -> bool {
    match x {
        Item::Ref(r) => r.namespace == ns && ((r.kind == RefKind::Command && literal_at(
            b,
            words_of(c.tokens),
            0,
        ) == Some(r.name) && span_at(words_of(c.tokens), 0) == Some(r.range)) || exists|k: int| #[trigger]
            substitutes(b, c.tokens, k, r)),
        Item::Comment(r) => c.comment == Some(r),
        _ => false,
    }
}

/// Whether the token in place `k` substitutes a variable, whose name is the text behind it.
pub open spec fn substitutes(b: Seq<u8>, tokens: Seq<Token>, k: int, r: RefView) -> bool {
    &&& 0 <= k
    &&& k + 1 < tokens.len()
    &&& tokens[k].kind is Variable
    &&& tokens[k + 1].kind is Text
    &&& r.kind == RefKind::Variable
    &&& token_text(b, tokens[k + 1]) == Some(r.name)
    &&& r.range.start == tokens[k + 1].start
    &&& r.range.end == (tokens[k + 1].start + tokens[k + 1].size) as usize
}

proof fn lemma_variable_refs(b: Seq<u8>, tokens: Seq<Token>, k: int, ns: Seq<char>, r: RefView)
    requires
        0 <= k <= tokens.len(),
    ensures
        variable_refs(b, tokens, k, ns).contains(r) <==> r.namespace == ns && exists|i: int|
            i >= k && #[trigger] substitutes(b, tokens, i, r),
    decreases tokens.len() - k,
{
    if k < tokens.len() {
        lemma_variable_refs(b, tokens, k + 1, ns, r);
        let here = variable_ref(b, tokens, k, ns);
        let rest = variable_refs(b, tokens, k + 1, ns);
        lemma_joined(here, rest, r);
        if here.contains(r) {
            assert(here[0] == r);
            assert(substitutes(b, tokens, k, r));
        }
        if r.namespace == ns && substitutes(b, tokens, k, r) {
            assert(tokens[k + 1].span() == r.range);
            assert(here.len() == 1 && here[0] == r);
        }
    }
}

proof fn lemma_sighting(b: Seq<u8>, c: CommandView, ns: Seq<char>, x: Item)
    ensures
        finds(sighting(b, c, literal_at(b, words_of(c.tokens), 0), ns), x) <==> shows(b, c, ns, x),
{
    let head = literal_at(b, words_of(c.tokens), 0);
    let f = sighting(b, c, head, ns);
    let vars = variable_refs(b, c.tokens, 0, ns);
    match x {
        Item::Ref(r) => {
            lemma_variable_refs(b, c.tokens, 0, ns, r);
            if let (Some(name), Some(range)) = (head, span_at(words_of(c.tokens), 0)) {
                let own = RefView { kind: RefKind::Command, name, range, namespace: ns };
                assert(f.refs =~= vars + seq![own]);
                lemma_joined(vars, seq![own], r);
                if r == own {
                    assert(seq![own][0] == r);
                }
            }
            if exists|k: int| #[trigger] substitutes(b, c.tokens, k, r) {
                let k = choose|k: int| #[trigger] substitutes(b, c.tokens, k, r);
                assert(k >= 0 && substitutes(b, c.tokens, k, r));
            }
        },
        Item::Comment(r) => {
            if c.comment == Some(r) {
                assert(f.comments[0] == r);
            }
        },
        _ => {},
    }
}

/// A list of commands shows what each of them shows, up to a command that cannot be read;
/// that one is an error.
pub proof fn every_command_is_walked(
    b: Seq<u8>,
    range: Range<usize>,
    ns: Seq<char>,
    mode: Mode,
    scope: Range<usize>,
    depth: nat,
    x: Item,
)
    requires
        depth > 0,
    ensures
        finds(walk(b, range, ns, mode, scope, depth), x) <==> found_among(
            b,
            commands_within(b, range.start as int, range.end as int),
            ns,
            mode,
            scope,
            depth,
            x,
        ),
{
    lemma_walk_commands(
        b,
        commands_within(b, range.start as int, range.end as int),
        ns,
        mode,
        scope,
        depth,
        x,
    );
}

/// Whether a thing is found in one of the commands, or is the error of one.
pub open spec fn found_among(
    b: Seq<u8>,
    all: Seq<Result<CommandView, ParseError>>,
    ns: Seq<char>,
    mode: Mode,
    scope: Range<usize>,
    depth: nat,
    x: Item,
) -> bool {
    exists|k: int| #[trigger] found_at(b, all, ns, mode, scope, depth, x, k)
}

pub open spec fn found_at(
    b: Seq<u8>,
    all: Seq<Result<CommandView, ParseError>>,
    ns: Seq<char>,
    mode: Mode,
    scope: Range<usize>,
    depth: nat,
    x: Item,
    k: int,
) -> bool {
    &&& 0 <= k < all.len()
    &&& forall|j: int| 0 <= j < k ==> (#[trigger] all[j]) is Ok
    &&& match all[k] {
        Ok(c) => finds(walk_command(b, c, ns, mode, scope, depth), x),
        Err(e) => x == Item::Error(syntax_error(b, e)),
    }
}

proof fn lemma_walk_commands(
    b: Seq<u8>,
    all: Seq<Result<CommandView, ParseError>>,
    ns: Seq<char>,
    mode: Mode,
    scope: Range<usize>,
    depth: nat,
    x: Item,
)
    ensures
        finds(walk_commands(b, all, ns, mode, scope, depth), x) <==> found_among(
            b,
            all,
            ns,
            mode,
            scope,
            depth,
            x,
        ),
    decreases all.len(),
{
    if all.len() > 0 {
        match all[0] {
            Ok(c) => {
                let rest = all.drop_first();
                let here = walk_command(b, c, ns, mode, scope, depth);
                lemma_walk_commands(b, rest, ns, mode, scope, depth, x);
                findings_add_up(here, walk_commands(b, rest, ns, mode, scope, depth), x);
                if finds(here, x) {
                    assert(found_at(b, all, ns, mode, scope, depth, x, 0));
                }
                if found_among(b, rest, ns, mode, scope, depth, x) {
                    let k = choose|k: int| #[trigger]
                        found_at(b, rest, ns, mode, scope, depth, x, k);
                    assert forall|j: int| 0 <= j < k + 1 implies (#[trigger] all[j]) is Ok by {
                        if j > 0 {
                            assert(all[j] == rest[j - 1]);
                        }
                    }
                    assert(all[k + 1] == rest[k]);
                    assert(found_at(b, all, ns, mode, scope, depth, x, k + 1));
                }
                if found_among(b, all, ns, mode, scope, depth, x) {
                    let k = choose|k: int| #[trigger] found_at(b, all, ns, mode, scope, depth, x, k);
                    if k > 0 {
                        assert(all[k] == rest[k - 1]);
                        assert forall|j: int| 0 <= j < k - 1 implies (#[trigger] rest[j]) is Ok by {
                            assert(rest[j] == all[j + 1]);
                        }
                        assert(found_at(b, rest, ns, mode, scope, depth, x, k - 1));
                    }
                }
            },
            Err(e) => {
                let own = syntax_error(b, e);
                assert(seq![own][0] == own);
                if x == Item::Error(own) {
                    assert(found_at(b, all, ns, mode, scope, depth, x, 0));
                }
                if found_among(b, all, ns, mode, scope, depth, x) {
                    let k = choose|k: int| #[trigger] found_at(b, all, ns, mode, scope, depth, x, k);
                    if k > 0 {
                        assert(all[0] is Ok);
                    }
                }
            },
        }
    } else {
        lemma_nothing(x);
    }
}

// --------------------------------------------------------------- control flow
/// Whether a thing is found in the script that word `p` of a command holds, which is
/// written in braces.
pub open spec fn found_in_word(
    b: Seq<u8>,
    words: Seq<Seq<Token>>,
    p: int,
    ns: Seq<char>,
    scope: Range<usize>,
    depth: nat,
    x: Item,
) -> bool {
    &&& 0 <= p < words.len()
    &&& is_braced(b, words[p])
    &&& body_of(b, words[p]) matches Some(r) && finds(
        walk(b, r, ns, Mode::Script, scope, depth),
        x,
    )
}

proof fn lemma_bodies(
    b: Seq<u8>,
    words: Seq<Seq<Token>>,
    positions: Seq<int>,
    k: int,
    ns: Seq<char>,
    scope: Range<usize>,
    depth: nat,
    x: Item,
)
    requires
        0 <= k <= positions.len(),
    ensures
        finds(walk_bodies(b, bodies_at(b, words, positions, k, ns, scope), 0, depth), x) <==> exists|
            i: int,
        |
            k <= i < positions.len() && found_in_word(
                b,
                words,
                #[trigger] positions[i],
                ns,
                scope,
                depth,
                x,
            ),
    decreases positions.len() - k,
{
    let all = bodies_at(b, words, positions, k, ns, scope);
    if k < positions.len() {
        let here = body_here(b, words, positions[k], ns, scope);
        let rest = bodies_at(b, words, positions, k + 1, ns, scope);
        lemma_bodies(b, words, positions, k + 1, ns, scope, depth, x);
        if here.len() == 0 {
            assert(all =~= rest);
        } else {
            assert(here.len() == 1);
            let f = walk(
                b,
                here[0].range,
                here[0].ns,
                here[0].mode,
                here[0].scope,
                depth,
            );
            assert(all[0] == here[0]);
            lemma_walk_bodies_shift(b, here, rest, 0, depth);
            findings_add_up(f, walk_bodies(b, all, 1, depth), x);
        }
        if found_in_word(b, words, positions[k], ns, scope, depth, x) {
            assert(0 <= k < positions.len());
        }
    } else {
        lemma_nothing(x);
    }
}

proof fn lemma_walk_bodies_shift(
    b: Seq<u8>,
    a: Seq<BodyView>,
    z: Seq<BodyView>,
    k: int,
    depth: nat,
)
    requires
        0 <= k <= z.len(),
    ensures
        walk_bodies(b, a + z, a.len() + k, depth) == walk_bodies(b, z, k, depth),
    decreases z.len() - k,
{
    if k < z.len() {
        assert((a + z)[a.len() + k] == z[k]);
        lemma_walk_bodies_shift(b, a, z, k + 1, depth);
    }
}

/// What a command shows that defines nothing and binds nothing, but has scripts inside.
proof fn lemma_control(
    b: Seq<u8>,
    c: CommandView,
    name: Seq<char>,
    ns: Seq<char>,
    scope: Range<usize>,
    depth: nat,
    positions: Seq<int>,
    x: Item,
)
    requires
        depth > 0,
        literal_at(b, words_of(c.tokens), 0) == Some(name),
        effect(b, c, without_root(name), ns, Mode::Script, scope) == (EffectView {
            bodies: bodies_at(b, words_of(c.tokens), positions, 0, ns, scope),
            ..EffectView::none()
        }),
    ensures
        finds(walk_command(b, c, ns, Mode::Script, scope, depth), x) <==> shows(b, c, ns, x)
            || exists|i: int|
            0 <= i < positions.len() && found_in_word(
                b,
                words_of(c.tokens),
                #[trigger] positions[i],
                ns,
                scope,
                (depth - 1) as nat,
                x,
            ),
{
    let words = words_of(c.tokens);
    let e = effect(b, c, without_root(name), ns, Mode::Script, scope);
    let seen = sighting(b, c, Some(name), ns);
    let inner = walk_bodies(b, e.bodies, 0, (depth - 1) as nat);
    lemma_sighting(b, c, ns, x);
    lemma_bodies(b, words, positions, 0, ns, scope, (depth - 1) as nat, x);
    findings_add_up(seen, e.found, x);
    findings_add_up(seen.plus(e.found), enclosed(e.symbol, inner), x);
    lemma_nothing(x);
}

/// That the names of the commands with scripts in them differ from those of the others.
#[verifier::spinoff_prover]
#[verifier::rlimit(50)]
proof fn lemma_names()
    ensures
        "if"@ == seq!['i', 'f'],
        "while"@ == seq!['w', 'h', 'i', 'l', 'e'],
        "for"@ == seq!['f', 'o', 'r'],
        "catch"@ == seq!['c', 'a', 't', 'c', 'h'],
        "time"@ == seq!['t', 'i', 'm', 'e'],
        "coroutine"@ == seq!['c', 'o', 'r', 'o', 'u', 't', 'i', 'n', 'e'],
        "try"@ == seq!['t', 'r', 'y'],
        "uplevel"@ == seq!['u', 'p', 'l', 'e', 'v', 'e', 'l'],
        "proc"@ == seq!['p', 'r', 'o', 'c'],
        "namespace"@ == seq!['n', 'a', 'm', 'e', 's', 'p', 'a', 'c', 'e'],
        "oo::class"@ == seq!['o', 'o', ':', ':', 'c', 'l', 'a', 's', 's'],
        "set"@ == seq!['s', 'e', 't'],
        "variable"@ == seq!['v', 'a', 'r', 'i', 'a', 'b', 'l', 'e'],
        "global"@ == seq!['g', 'l', 'o', 'b', 'a', 'l'],
        "incr"@ == seq!['i', 'n', 'c', 'r'],
        "append"@ == seq!['a', 'p', 'p', 'e', 'n', 'd'],
        "lappend"@ == seq!['l', 'a', 'p', 'p', 'e', 'n', 'd'],
        "foreach"@ == seq!['f', 'o', 'r', 'e', 'a', 'c', 'h'],
        "lmap"@ == seq!['l', 'm', 'a', 'p'],
        "lassign"@ == seq!['l', 'a', 's', 's', 'i', 'g', 'n'],
        "source"@ == seq!['s', 'o', 'u', 'r', 'c', 'e'],
        "package"@ == seq!['p', 'a', 'c', 'k', 'a', 'g', 'e'],
        "method"@ == seq!['m', 'e', 't', 'h', 'o', 'd'],
        "constructor"@ == seq!['c', 'o', 'n', 's', 't', 'r', 'u', 'c', 't', 'o', 'r'],
        "destructor"@ == seq!['d', 'e', 's', 't', 'r', 'u', 'c', 't', 'o', 'r'],
{
    reveal_strlit("if");
    reveal_strlit("while");
    reveal_strlit("for");
    reveal_strlit("catch");
    reveal_strlit("time");
    reveal_strlit("coroutine");
    reveal_strlit("try");
    reveal_strlit("uplevel");
    reveal_strlit("proc");
    reveal_strlit("namespace");
    reveal_strlit("oo::class");
    reveal_strlit("set");
    reveal_strlit("variable");
    reveal_strlit("global");
    reveal_strlit("incr");
    reveal_strlit("append");
    reveal_strlit("lappend");
    reveal_strlit("foreach");
    reveal_strlit("lmap");
    reveal_strlit("lassign");
    reveal_strlit("source");
    reveal_strlit("package");
    reveal_strlit("method");
    reveal_strlit("constructor");
    reveal_strlit("destructor");
    assert("if"@ =~= seq!['i', 'f']);
    assert("while"@ =~= seq!['w', 'h', 'i', 'l', 'e']);
    assert("for"@ =~= seq!['f', 'o', 'r']);
    assert("catch"@ =~= seq!['c', 'a', 't', 'c', 'h']);
    assert("time"@ =~= seq!['t', 'i', 'm', 'e']);
    assert("coroutine"@ =~= seq!['c', 'o', 'r', 'o', 'u', 't', 'i', 'n', 'e']);
    assert("try"@ =~= seq!['t', 'r', 'y']);
    assert("uplevel"@ =~= seq!['u', 'p', 'l', 'e', 'v', 'e', 'l']);
    assert("proc"@ =~= seq!['p', 'r', 'o', 'c']);
    assert("namespace"@ =~= seq!['n', 'a', 'm', 'e', 's', 'p', 'a', 'c', 'e']);
    assert("oo::class"@ =~= seq!['o', 'o', ':', ':', 'c', 'l', 'a', 's', 's']);
    assert("set"@ =~= seq!['s', 'e', 't']);
    assert("variable"@ =~= seq!['v', 'a', 'r', 'i', 'a', 'b', 'l', 'e']);
    assert("global"@ =~= seq!['g', 'l', 'o', 'b', 'a', 'l']);
    assert("incr"@ =~= seq!['i', 'n', 'c', 'r']);
    assert("append"@ =~= seq!['a', 'p', 'p', 'e', 'n', 'd']);
    assert("lappend"@ =~= seq!['l', 'a', 'p', 'p', 'e', 'n', 'd']);
    assert("foreach"@ =~= seq!['f', 'o', 'r', 'e', 'a', 'c', 'h']);
    assert("lmap"@ =~= seq!['l', 'm', 'a', 'p']);
    assert("lassign"@ =~= seq!['l', 'a', 's', 's', 'i', 'g', 'n']);
    assert("source"@ =~= seq!['s', 'o', 'u', 'r', 'c', 'e']);
    assert("package"@ =~= seq!['p', 'a', 'c', 'k', 'a', 'g', 'e']);
    assert("method"@ =~= seq!['m', 'e', 't', 'h', 'o', 'd']);
    assert("constructor"@ =~= seq!['c', 'o', 'n', 's', 't', 'r', 'u', 'c', 't', 'o', 'r']);
    assert("destructor"@ =~= seq!['d', 'e', 's', 't', 'r', 'u', 'c', 't', 'o', 'r']);
}

/// By what the names of commands differ: their lengths and first characters.
#[verifier::spinoff_prover]
#[verifier::rlimit(50)]
proof fn lemma_initials()
    ensures
        "if"@.len() == 2 && "if"@[0] == 'i',
        "while"@.len() == 5 && "while"@[0] == 'w',
        "for"@.len() == 3 && "for"@[0] == 'f',
        "catch"@.len() == 5 && "catch"@[0] == 'c',
        "time"@.len() == 4 && "time"@[0] == 't',
        "coroutine"@.len() == 9 && "coroutine"@[0] == 'c',
        "try"@.len() == 3 && "try"@[0] == 't',
        "uplevel"@.len() == 7 && "uplevel"@[0] == 'u',
        "proc"@.len() == 4 && "proc"@[0] == 'p',
        "namespace"@.len() == 9 && "namespace"@[0] == 'n',
        "oo::class"@.len() == 9 && "oo::class"@[0] == 'o',
        "set"@.len() == 3 && "set"@[0] == 's',
        "variable"@.len() == 8 && "variable"@[0] == 'v',
        "global"@.len() == 6 && "global"@[0] == 'g',
        "incr"@.len() == 4 && "incr"@[0] == 'i',
        "append"@.len() == 6 && "append"@[0] == 'a',
        "lappend"@.len() == 7 && "lappend"@[0] == 'l',
        "foreach"@.len() == 7 && "foreach"@[0] == 'f',
        "lmap"@.len() == 4 && "lmap"@[0] == 'l',
        "lassign"@.len() == 7 && "lassign"@[0] == 'l',
        "source"@.len() == 6 && "source"@[0] == 's',
        "package"@.len() == 7 && "package"@[0] == 'p',
        "method"@.len() == 6 && "method"@[0] == 'm',
        "constructor"@.len() == 11 && "constructor"@[0] == 'c',
        "destructor"@.len() == 10 && "destructor"@[0] == 'd',
        "lappend"@[2] == 'p' && "lassign"@[2] == 's',
{
    lemma_names();
}

/// A command with scripts in it brings about nothing by itself.
#[verifier::spinoff_prover]
#[verifier::rlimit(50)]
proof fn lemma_control_effect(
    b: Seq<u8>,
    c: CommandView,
    name: Seq<char>,
    ns: Seq<char>,
    scope: Range<usize>,
)
    requires
        name == "if"@ || name == "while"@ || name == "for"@ || name == "catch"@ || name == "time"@
            || name == "coroutine"@ || name == "try"@ || name == "uplevel"@,
    ensures
        name.len() > 0,
        name[0] != ':',
        effect(b, c, name, ns, Mode::Script, scope) == (EffectView {
            bodies: bodies_at(
                b,
                words_of(c.tokens),
                script_args(b, name, words_of(c.tokens)),
                0,
                ns,
                scope,
            ),
            ..EffectView::none()
        }),
{
    lemma_initials();
}

/// Whether a command is called `name`, as written or in the global namespace.
pub open spec fn is_called(b: Seq<u8>, c: CommandView, name: Seq<char>) -> bool {
    literal_at(b, words_of(c.tokens), 0) == Some(name) || literal_at(b, words_of(c.tokens), 0)
        == Some(seq![':', ':'] + name)
}

/// Whether word `i` of a command is this literal.
pub open spec fn word_is(b: Seq<u8>, c: CommandView, i: int, text: Seq<char>) -> bool {
    0 <= i < words_of(c.tokens).len() && literal_of(b, words_of(c.tokens)[i]) == Some(text)
}

proof fn lemma_called(b: Seq<u8>, c: CommandView, name: Seq<char>)
    requires
        is_called(b, c, name),
        name.len() > 0,
        name[0] != ':',
    ensures
        literal_at(b, words_of(c.tokens), 0) matches Some(head) && without_root(head) == name,
{
    let head = literal_at(b, words_of(c.tokens), 0)->0;
    reveal_with_fuel(without_root, 3);
    crate::lookup::lemma_colons(name, 0);
    crate::lookup::lemma_colons(head, 0);
    if head == seq![':', ':'] + name {
        assert(head[0] == ':' && head[1] == ':');
        assert(head.subrange(2, head.len() as int) =~= name);
    }
}

proof fn lemma_place(words: Seq<Seq<Token>>, i: int, p: int)
    ensures
        place(words, i).contains(p) <==> p == i && 0 <= i < words.len(),
{
    if 0 <= i < words.len() {
        assert(seq![i][0] == i);
    }
}

/// A `while` has its script in the word behind the condition: what it shows beyond itself is
/// what is found there, and nothing of the condition.
#[verifier::spinoff_prover]
#[verifier::rlimit(50)]
pub proof fn the_body_of_a_loop_is_walked(
    b: Seq<u8>,
    c: CommandView,
    name: Seq<char>,
    ns: Seq<char>,
    scope: Range<usize>,
    depth: nat,
    x: Item,
)
    requires
        depth > 0,
        name == "while"@,
        is_called(b, c, name),
    ensures
        finds(walk_command(b, c, ns, Mode::Script, scope, depth), x) <==> shows(b, c, ns, x)
            || exists|p: int|
            (p == 2) && #[trigger] found_in_word(
                b,
                words_of(c.tokens),
                p,
                ns,
                scope,
                (depth - 1) as nat,
                x,
            ),
{
    let words = words_of(c.tokens);
    let d = (depth - 1) as nat;
    lemma_control_effect(b, c, name, ns, scope);
    lemma_called(b, c, name);
    let head = literal_at(b, words, 0)->0;
    let positions = script_args(b, name, words);
    lemma_initials();
    assert forall|p: int| #[trigger] positions.contains(p) <==> 0 <= p < words.len() && (p == 2) by {
        if 2 < words.len() {
            assert(positions[0] == 2);
        }
    }
    lemma_control(b, c, head, ns, scope, depth, positions, x);
    assert forall|p: int| (p == 2) && #[trigger] found_in_word(
        b,
        words,
        p,
        ns,
        scope,
        d,
        x,
    ) implies exists|i: int|
        0 <= i < positions.len() && found_in_word(
            b,
            words,
            #[trigger] positions[i],
            ns,
            scope,
            d,
            x,
        ) by {
        assert(positions.contains(p));
        let i = choose|i: int| 0 <= i < positions.len() && positions[i] == p;
        assert(found_in_word(b, words, positions[i], ns, scope, d, x));
    }
    assert forall|i: int|
        0 <= i < positions.len() && found_in_word(
            b,
            words,
            #[trigger] positions[i],
            ns,
            scope,
            d,
            x,
        ) implies exists|p: int|
        (p == 2) && #[trigger] found_in_word(b, words, p, ns, scope, d, x) by {
        assert(positions.contains(positions[i]));
        let p = positions[i];
        assert((p == 2) && found_in_word(b, words, p, ns, scope, d, x));
    }
}

/// A `for` has scripts in its first, third and fourth argument, and not in its second, the
/// test.
#[verifier::spinoff_prover]
#[verifier::rlimit(50)]
pub proof fn a_for_loop_has_three_scripts(
    b: Seq<u8>,
    c: CommandView,
    name: Seq<char>,
    ns: Seq<char>,
    scope: Range<usize>,
    depth: nat,
    x: Item,
)
    requires
        depth > 0,
        name == "for"@,
        is_called(b, c, name),
    ensures
        finds(walk_command(b, c, ns, Mode::Script, scope, depth), x) <==> shows(b, c, ns, x)
            || exists|p: int|
            (p == 1 || p == 3 || p == 4) && #[trigger] found_in_word(
                b,
                words_of(c.tokens),
                p,
                ns,
                scope,
                (depth - 1) as nat,
                x,
            ),
{
    let words = words_of(c.tokens);
    let d = (depth - 1) as nat;
    lemma_control_effect(b, c, name, ns, scope);
    lemma_called(b, c, name);
    let head = literal_at(b, words, 0)->0;
    let positions = script_args(b, name, words);
    lemma_initials();
    assert forall|p: int| #[trigger] positions.contains(p) <==> 0 <= p < words.len() && (p == 1 || p == 3 || p == 4) by {
        lemma_joined(place(words, 1) + place(words, 3), place(words, 4), p);
        lemma_joined(place(words, 1), place(words, 3), p);
        lemma_place(words, 1, p);
        lemma_place(words, 3, p);
        lemma_place(words, 4, p);
    }
    lemma_control(b, c, head, ns, scope, depth, positions, x);
    assert forall|p: int| (p == 1 || p == 3 || p == 4) && #[trigger] found_in_word(
        b,
        words,
        p,
        ns,
        scope,
        d,
        x,
    ) implies exists|i: int|
        0 <= i < positions.len() && found_in_word(
            b,
            words,
            #[trigger] positions[i],
            ns,
            scope,
            d,
            x,
        ) by {
        assert(positions.contains(p));
        let i = choose|i: int| 0 <= i < positions.len() && positions[i] == p;
        assert(found_in_word(b, words, positions[i], ns, scope, d, x));
    }
    assert forall|i: int|
        0 <= i < positions.len() && found_in_word(
            b,
            words,
            #[trigger] positions[i],
            ns,
            scope,
            d,
            x,
        ) implies exists|p: int|
        (p == 1 || p == 3 || p == 4) && #[trigger] found_in_word(b, words, p, ns, scope, d, x) by {
        assert(positions.contains(positions[i]));
        let p = positions[i];
        assert((p == 1 || p == 3 || p == 4) && found_in_word(b, words, p, ns, scope, d, x));
    }
}

/// `catch`, `time` and `coroutine` have a script in their first argument and nowhere else.
#[verifier::spinoff_prover]
#[verifier::rlimit(50)]
pub proof fn the_first_argument_is_a_script(
    b: Seq<u8>,
    c: CommandView,
    name: Seq<char>,
    ns: Seq<char>,
    scope: Range<usize>,
    depth: nat,
    x: Item,
)
    requires
        depth > 0,
        name == "catch"@ || name == "time"@ || name == "coroutine"@,
        is_called(b, c, name),
    ensures
        finds(walk_command(b, c, ns, Mode::Script, scope, depth), x) <==> shows(b, c, ns, x)
            || exists|p: int|
            (p == 1) && #[trigger] found_in_word(
                b,
                words_of(c.tokens),
                p,
                ns,
                scope,
                (depth - 1) as nat,
                x,
            ),
{
    let words = words_of(c.tokens);
    let d = (depth - 1) as nat;
    lemma_control_effect(b, c, name, ns, scope);
    lemma_called(b, c, name);
    let head = literal_at(b, words, 0)->0;
    let positions = script_args(b, name, words);
    lemma_initials();
    assert forall|p: int| #[trigger] positions.contains(p) <==> 0 <= p < words.len() && (p == 1) by {
        lemma_place(words, 1, p);
    }
    lemma_control(b, c, head, ns, scope, depth, positions, x);
    assert forall|p: int| (p == 1) && #[trigger] found_in_word(
        b,
        words,
        p,
        ns,
        scope,
        d,
        x,
    ) implies exists|i: int|
        0 <= i < positions.len() && found_in_word(
            b,
            words,
            #[trigger] positions[i],
            ns,
            scope,
            d,
            x,
        ) by {
        assert(positions.contains(p));
        let i = choose|i: int| 0 <= i < positions.len() && positions[i] == p;
        assert(found_in_word(b, words, positions[i], ns, scope, d, x));
    }
    assert forall|i: int|
        0 <= i < positions.len() && found_in_word(
            b,
            words,
            #[trigger] positions[i],
            ns,
            scope,
            d,
            x,
        ) implies exists|p: int|
        (p == 1) && #[trigger] found_in_word(b, words, p, ns, scope, d, x) by {
        assert(positions.contains(positions[i]));
        let p = positions[i];
        assert((p == 1) && found_in_word(b, words, p, ns, scope, d, x));
    }
}

/// `uplevel` has a script in its last argument and nowhere else.
#[verifier::spinoff_prover]
#[verifier::rlimit(50)]
pub proof fn the_last_argument_is_a_script(
    b: Seq<u8>,
    c: CommandView,
    name: Seq<char>,
    ns: Seq<char>,
    scope: Range<usize>,
    depth: nat,
    x: Item,
)
    requires
        depth > 0,
        name == "uplevel"@,
        is_called(b, c, name),
    ensures
        finds(walk_command(b, c, ns, Mode::Script, scope, depth), x) <==> shows(b, c, ns, x)
            || exists|p: int|
            (p == words_of(c.tokens).len() - 1) && #[trigger] found_in_word(
                b,
                words_of(c.tokens),
                p,
                ns,
                scope,
                (depth - 1) as nat,
                x,
            ),
{
    let words = words_of(c.tokens);
    let d = (depth - 1) as nat;
    lemma_control_effect(b, c, name, ns, scope);
    lemma_called(b, c, name);
    let head = literal_at(b, words, 0)->0;
    let positions = script_args(b, name, words);
    lemma_initials();
    assert forall|p: int| #[trigger] positions.contains(p) <==> 0 <= p < words.len() && (p == words.len() - 1) by {
        lemma_place(words, words.len() - 1, p);
    }
    lemma_control(b, c, head, ns, scope, depth, positions, x);
    assert forall|p: int| (p == words_of(c.tokens).len() - 1) && #[trigger] found_in_word(
        b,
        words,
        p,
        ns,
        scope,
        d,
        x,
    ) implies exists|i: int|
        0 <= i < positions.len() && found_in_word(
            b,
            words,
            #[trigger] positions[i],
            ns,
            scope,
            d,
            x,
        ) by {
        assert(positions.contains(p));
        let i = choose|i: int| 0 <= i < positions.len() && positions[i] == p;
        assert(found_in_word(b, words, positions[i], ns, scope, d, x));
    }
    assert forall|i: int|
        0 <= i < positions.len() && found_in_word(
            b,
            words,
            #[trigger] positions[i],
            ns,
            scope,
            d,
            x,
        ) implies exists|p: int|
        (p == words_of(c.tokens).len() - 1) && #[trigger] found_in_word(b, words, p, ns, scope, d, x) by {
        assert(positions.contains(positions[i]));
        let p = positions[i];
        assert((p == words_of(c.tokens).len() - 1) && found_in_word(b, words, p, ns, scope, d, x));
    }
}

/// Whether `p` is the place of a script in a `try` with that many handlers: the body behind
/// the name, the fourth word of each handler, and the word behind `finally`.
pub open spec fn is_try_script(p: int, handlers: int, words: int) -> bool {
    ||| p == 1
    ||| exists|j: int| 0 <= j < handlers && p == #[trigger] handler_at(j) + 3
    ||| words == 4 + 4 * handlers && p == 3 + 4 * handlers
}

/// The place of handler `j` of a `try`.
pub open spec fn handler_at(j: int) -> int {
    2 + 4 * j
}

proof fn lemma_try(
    b: Seq<u8>,
    c: CommandView,
    j: int,
    handlers: int,
    p: int,
)
    requires
        0 <= j <= handlers,
        words_of(c.tokens).len() == 2 + 4 * handlers || (words_of(c.tokens).len() == 4 + 4
            * handlers && word_is(b, c, 2 + 4 * handlers, "finally"@)),
        forall|k: int|
            0 <= k < handlers ==> word_is(b, c, #[trigger] handler_at(k), "on"@) || word_is(
                b,
                c,
                handler_at(k),
                "trap"@,
            ),
    ensures
        try_bodies(b, words_of(c.tokens), handler_at(j)).contains(p) <==> (exists|k: int|
            j <= k < handlers && p == #[trigger] handler_at(k) + 3) || (words_of(c.tokens).len()
            == 4 + 4 * handlers && p == 3 + 4 * handlers),
    decreases handlers - j,
{
    let words = words_of(c.tokens);
    let i = handler_at(j);
    reveal_strlit("on");
    reveal_strlit("trap");
    reveal_strlit("finally");
    assert("finally"@.len() == 7 && "on"@.len() == 2 && "trap"@.len() == 4);
    if j < handlers {
        lemma_try(b, c, j + 1, handlers, p);
        assert(handler_at(j + 1) == i + 4);
        let rest = try_bodies(b, words, i + 4);
        lemma_place(words, i + 3, p);
        lemma_joined(place(words, i + 3), rest, p);
        if p == i + 3 {
            assert(p == handler_at(j) + 3);
        }
    } else if words.len() == 4 + 4 * handlers {
        lemma_place(words, i + 1, p);
        lemma_joined(place(words, i + 1), try_bodies(b, words, i + 2), p);
        assert(try_bodies(b, words, i + 2) =~= seq![]);
    } else {
        assert(try_bodies(b, words, i) =~= seq![]);
    }
}

/// A `try` with any number of `on` and `trap` handlers, and with or without a `finally`: the
/// scripts are its first argument, the last word of each handler and the one behind
/// `finally`. What it shows beyond itself is what is found in those, and nothing of the
/// codes, patterns and variable lists between.
#[verifier::spinoff_prover]
#[verifier::rlimit(50)]
pub proof fn the_handlers_of_a_try_are_walked(
    b: Seq<u8>,
    c: CommandView,
    ns: Seq<char>,
    scope: Range<usize>,
    depth: nat,
    x: Item,
    clauses: int,
)
    requires
        depth > 0,
        0 <= clauses,
        is_called(b, c, "try"@),
        words_of(c.tokens).len() == 2 + 4 * clauses || (words_of(c.tokens).len() == 4 + 4
            * clauses && word_is(b, c, 2 + 4 * clauses, "finally"@)),
        forall|k: int|
            0 <= k < clauses ==> word_is(b, c, #[trigger] handler_at(k), "on"@) || word_is(
                b,
                c,
                handler_at(k),
                "trap"@,
            ),
    ensures
        finds(walk_command(b, c, ns, Mode::Script, scope, depth), x) <==> shows(b, c, ns, x)
            || exists|p: int|
            is_try_script(p, clauses, words_of(c.tokens).len() as int) && #[trigger] found_in_word(
                b,
                words_of(c.tokens),
                p,
                ns,
                scope,
                (depth - 1) as nat,
                x,
            ),
{
    let words = words_of(c.tokens);
    let d = (depth - 1) as nat;
    lemma_control_effect(b, c, "try"@, ns, scope);
    lemma_called(b, c, "try"@);
    let head = literal_at(b, words, 0)->0;
    let positions = script_args(b, "try"@, words);
    lemma_initials();
    assert forall|p: int| #[trigger] positions.contains(p) <==> 0 <= p < words.len() && is_try_script(p, clauses, words_of(c.tokens).len() as int) by {
        assert(handler_at(0) == 2);
        lemma_try(b, c, 0, clauses, p);
        lemma_place(words, 1, p);
        lemma_joined(place(words, 1), try_bodies(b, words, 2), p);
    }
    lemma_control(b, c, head, ns, scope, depth, positions, x);
    assert forall|p: int| is_try_script(p, clauses, words_of(c.tokens).len() as int) && #[trigger] found_in_word(
        b,
        words,
        p,
        ns,
        scope,
        d,
        x,
    ) implies exists|i: int|
        0 <= i < positions.len() && found_in_word(
            b,
            words,
            #[trigger] positions[i],
            ns,
            scope,
            d,
            x,
        ) by {
        assert(positions.contains(p));
        let i = choose|i: int| 0 <= i < positions.len() && positions[i] == p;
        assert(found_in_word(b, words, positions[i], ns, scope, d, x));
    }
    assert forall|i: int|
        0 <= i < positions.len() && found_in_word(
            b,
            words,
            #[trigger] positions[i],
            ns,
            scope,
            d,
            x,
        ) implies exists|p: int|
        is_try_script(p, clauses, words_of(c.tokens).len() as int) && #[trigger] found_in_word(b, words, p, ns, scope, d, x) by {
        assert(positions.contains(positions[i]));
        let p = positions[i];
        assert(is_try_script(p, clauses, words_of(c.tokens).len() as int) && found_in_word(b, words, p, ns, scope, d, x));
    }
}

/// Whether `p` is the place of a script in an `if` with that many `elseif` clauses: behind the
/// condition, behind the condition of each `elseif`, and the last word where there is an
/// `else`, written or not.
pub open spec fn is_if_script(p: int, clauses: int, words: int) -> bool {
    ||| p == 2
    ||| exists|j: int| 0 <= j < clauses && p == #[trigger] clause_at(j) + 2
    ||| words == 4 + 3 * clauses && p == 3 + 3 * clauses
    ||| words == 5 + 3 * clauses && p == 4 + 3 * clauses
}

/// The place of `elseif` number `j` of an `if`.
pub open spec fn clause_at(j: int) -> int {
    3 + 3 * j
}

/// Whether a word is none of the keywords of an `if`.
pub open spec fn is_no_keyword(b: Seq<u8>, c: CommandView, i: int) -> bool {
    !word_is(b, c, i, "elseif"@) && !word_is(b, c, i, "else"@) && !word_is(b, c, i, "then"@)
}

proof fn lemma_if(b: Seq<u8>, c: CommandView, j: int, clauses: int, p: int)
    requires
        0 <= j <= clauses,
        words_of(c.tokens).len() == 3 + 3 * clauses || (words_of(c.tokens).len() == 5 + 3 * clauses
            && word_is(b, c, 3 + 3 * clauses, "else"@)) || (words_of(c.tokens).len() == 4 + 3
            * clauses && is_no_keyword(b, c, 3 + 3 * clauses)),
        forall|k: int| 0 <= k < clauses ==> word_is(b, c, #[trigger] clause_at(k), "elseif"@),
    ensures
        if_bodies(b, words_of(c.tokens), clause_at(j)).contains(p) <==> (exists|k: int|
            j <= k < clauses && p == #[trigger] clause_at(k) + 2) || (words_of(c.tokens).len() == 4
            + 3 * clauses && p == 3 + 3 * clauses) || (words_of(c.tokens).len() == 5 + 3 * clauses
            && p == 4 + 3 * clauses),
    decreases clauses - j,
{
    let words = words_of(c.tokens);
    let i = clause_at(j);
    reveal_strlit("elseif");
    reveal_strlit("else");
    reveal_strlit("then");
    assert("elseif"@.len() == 6 && "else"@.len() == 4 && "then"@.len() == 4);
    assert("else"@[0] == 'e' && "then"@[0] == 't');
    if j < clauses {
        lemma_if(b, c, j + 1, clauses, p);
        assert(clause_at(j + 1) == i + 3);
        lemma_place(words, i + 2, p);
        lemma_joined(place(words, i + 2), if_bodies(b, words, i + 3), p);
        if p == i + 2 {
            assert(p == clause_at(j) + 2);
        }
    } else if words.len() == 5 + 3 * clauses {
        lemma_place(words, i + 1, p);
        lemma_joined(place(words, i + 1), if_bodies(b, words, i + 2), p);
        assert(if_bodies(b, words, i + 2) =~= seq![]);
    } else if words.len() == 4 + 3 * clauses {
        lemma_place(words, i, p);
        lemma_joined(place(words, i), if_bodies(b, words, i + 1), p);
        assert(if_bodies(b, words, i + 1) =~= seq![]);
    } else {
        assert(if_bodies(b, words, i) =~= seq![]);
    }
}

/// An `if` with any number of `elseif` clauses, and with or without an `else`, whose keyword
/// may be left out: the scripts are the word behind each condition and the last word of the
/// `else`. What it shows beyond itself is what is found in those, and nothing of the
/// conditions.
#[verifier::spinoff_prover]
#[verifier::rlimit(50)]
pub proof fn the_branches_of_an_if_are_walked(
    b: Seq<u8>,
    c: CommandView,
    ns: Seq<char>,
    scope: Range<usize>,
    depth: nat,
    x: Item,
    clauses: int,
)
    requires
        depth > 0,
        0 <= clauses,
        is_called(b, c, "if"@),
        words_of(c.tokens).len() == 3 + 3 * clauses || (words_of(c.tokens).len() == 5 + 3 * clauses
            && word_is(b, c, 3 + 3 * clauses, "else"@)) || (words_of(c.tokens).len() == 4 + 3
            * clauses && is_no_keyword(b, c, 3 + 3 * clauses)),
        forall|k: int| 0 <= k < clauses ==> word_is(b, c, #[trigger] clause_at(k), "elseif"@),
    ensures
        finds(walk_command(b, c, ns, Mode::Script, scope, depth), x) <==> shows(b, c, ns, x)
            || exists|p: int|
            is_if_script(p, clauses, words_of(c.tokens).len() as int) && #[trigger] found_in_word(
                b,
                words_of(c.tokens),
                p,
                ns,
                scope,
                (depth - 1) as nat,
                x,
            ),
{
    let words = words_of(c.tokens);
    let d = (depth - 1) as nat;
    lemma_control_effect(b, c, "if"@, ns, scope);
    lemma_called(b, c, "if"@);
    let head = literal_at(b, words, 0)->0;
    let positions = script_args(b, "if"@, words);
    lemma_initials();
    assert forall|p: int| #[trigger] positions.contains(p) <==> 0 <= p < words.len() && is_if_script(p, clauses, words_of(c.tokens).len() as int) by {
        assert(clause_at(0) == 3);
        lemma_if(b, c, 0, clauses, p);
        lemma_place(words, 2, p);
        lemma_joined(place(words, 2), if_bodies(b, words, 3), p);
    }
    lemma_control(b, c, head, ns, scope, depth, positions, x);
    assert forall|p: int| is_if_script(p, clauses, words_of(c.tokens).len() as int) && #[trigger] found_in_word(
        b,
        words,
        p,
        ns,
        scope,
        d,
        x,
    ) implies exists|i: int|
        0 <= i < positions.len() && found_in_word(
            b,
            words,
            #[trigger] positions[i],
            ns,
            scope,
            d,
            x,
        ) by {
        assert(positions.contains(p));
        let i = choose|i: int| 0 <= i < positions.len() && positions[i] == p;
        assert(found_in_word(b, words, positions[i], ns, scope, d, x));
    }
    assert forall|i: int|
        0 <= i < positions.len() && found_in_word(
            b,
            words,
            #[trigger] positions[i],
            ns,
            scope,
            d,
            x,
        ) implies exists|p: int|
        is_if_script(p, clauses, words_of(c.tokens).len() as int) && #[trigger] found_in_word(b, words, p, ns, scope, d, x) by {
        assert(positions.contains(positions[i]));
        let p = positions[i];
        assert(is_if_script(p, clauses, words_of(c.tokens).len() as int) && found_in_word(b, words, p, ns, scope, d, x));
    }
}

// ---------------------------------------------------------------- definitions
/// Whether a name can be bound.
pub open spec fn can_be_bound(name: Seq<char>) -> bool {
    name.len() > 0 && forall|i: int| 0 <= i < name.len() ==> #[trigger] name[i] != '$'
}

/// Whether a thing is one of the parameters in word `k` of a definition, which can be seen
/// in its body.
pub open spec fn is_parameter(
    b: Seq<u8>,
    c: CommandView,
    k: int,
    body: Option<Range<usize>>,
    x: Item,
) -> bool {
    x matches Item::Variable(v) && {
        &&& body == Some(v.scope)
        &&& span_at(words_of(c.tokens), k) == Some(v.range)
        &&& literal_at(b, words_of(c.tokens), k) matches Some(args) && arg_names(args).contains(
            v.name,
        )
        &&& can_be_bound(v.name)
    }
}

/// What is found in the body of a definition, read in namespace `home`.
pub open spec fn found_inside(
    b: Seq<u8>,
    body: Option<Range<usize>>,
    home: Seq<char>,
    mode: Mode,
    depth: nat,
) -> Found {
    match body {
        Some(r) => walk(b, r, home, mode, r, depth),
        None => Found::none(),
    }
}

/// Whether a symbol is what a command defines under that name, with that inside.
pub open spec fn defines(
    b: Seq<u8>,
    c: CommandView,
    s: SymbolView,
    kind: SymbolKind,
    name: Seq<char>,
    ns: Seq<char>,
    body: Option<Range<usize>>,
    inner: Found,
) -> bool {
    &&& s.kind == kind
    &&& crate::lookup::is_tail(name, s.name)
    &&& s.qname == qualified(ns, name)
    &&& s.full_range == c.range
    &&& s.body == body
    &&& s.end == end_of(b, c)
    &&& s.doc == doc_of(b, c)
    &&& s.children == inner.symbols
}

/// A finding other than a symbol.
pub open spec fn is_no_symbol(x: Item) -> bool {
    !(x is Symbol)
}

proof fn lemma_can_be_bound(name: Seq<char>)
    ensures
        bindable(name) == can_be_bound(name),
{
    if name.contains('$') {
        let i = choose|i: int| 0 <= i < name.len() && name[i] == '$';
        assert(name[i] == '$');
    }
}

proof fn lemma_bindings(
    names: Seq<Seq<char>>,
    k: int,
    range: Range<usize>,
    scope: Range<usize>,
    v: VarView,
)
    requires
        0 <= k <= names.len(),
    ensures
        bindings(names, k, range, scope).contains(v) <==> v.range == range && v.scope == scope
            && can_be_bound(v.name) && exists|i: int|
            k <= i < names.len() && #[trigger] names[i] == v.name,
    decreases names.len() - k,
{
    if k < names.len() {
        lemma_bindings(names, k + 1, range, scope, v);
        lemma_can_be_bound(names[k]);
        let rest = bindings(names, k + 1, range, scope);
        let one = VarView { name: names[k], range, scope };
        if bindable(names[k]) {
            lemma_joined(seq![one], rest, v);
            assert(seq![one].contains(v) <==> v == one) by {
                assert(seq![one][0] == one);
            }
        }
    }
}

proof fn lemma_parameters(
    b: Seq<u8>,
    c: CommandView,
    k: int,
    body: Range<usize>,
    x: Item,
)
    requires
        literal_at(b, words_of(c.tokens), k) is Some ==> span_at(words_of(c.tokens), k) is Some,
    ensures
        finds(
            Found { variables: parameters(b, words_of(c.tokens), k, body), ..Found::none() },
            x,
        ) <==> is_parameter(b, c, k, Some(body), x),
{
    let words = words_of(c.tokens);
    if let Item::Variable(v) = x {
        if let Some(args) = literal_at(b, words, k) {
            let range = span_at(words, k)->0;
            let names = arg_names(args);
            lemma_bindings(names, 0, range, body, v);
            if names.contains(v.name) {
                let i = choose|i: int| 0 <= i < names.len() && names[i] == v.name;
                assert(names[i] == v.name);
            }
        }
    }
}

/// A word that is a literal is somewhere.
proof fn lemma_literal_has_span(b: Seq<u8>, words: Seq<Seq<Token>>, k: int)
    ensures
        literal_at(b, words, k) is Some ==> span_at(words, k) is Some,
{
}

proof fn lemma_definition(
    b: Seq<u8>,
    c: CommandView,
    head: Seq<char>,
    ns: Seq<char>,
    mode: Mode,
    scope: Range<usize>,
    depth: nat,
    x: Item,
)
    requires
        depth > 0,
        literal_at(b, words_of(c.tokens), 0) == Some(head),
    ensures
        ({
            let e = effect(b, c, without_root(head), ns, mode, scope);
            let inner = walk_bodies(b, e.bodies, 0, (depth - 1) as nat);
            let f = walk_command(b, c, ns, mode, scope, depth);
            &&& is_no_symbol(x) ==> (finds(f, x) <==> shows(b, c, ns, x) || finds(e.found, x)
                || finds(inner, x))
            &&& e.symbol matches Some(s) ==> f.symbols == e.found.symbols + seq![
                SymbolView { children: inner.symbols, ..s },
            ]
            &&& e.symbol is None ==> f.symbols == e.found.symbols + inner.symbols
        }),
{
    let e = effect(b, c, without_root(head), ns, mode, scope);
    let inner = walk_bodies(b, e.bodies, 0, (depth - 1) as nat);
    let seen = sighting(b, c, Some(head), ns);
    let f = walk_command(b, c, ns, mode, scope, depth);
    lemma_sighting(b, c, ns, x);
    findings_add_up(seen, e.found, x);
    findings_add_up(seen.plus(e.found), enclosed(e.symbol, inner), x);
    assert(seen.symbols =~= seq![]);
    assert(seen.symbols + e.found.symbols =~= e.found.symbols);
}

proof fn lemma_one_body(b: Seq<u8>, body: BodyView, depth: nat)
    ensures
        walk_bodies(b, seq![body], 0, depth) == walk(
            b,
            body.range,
            body.ns,
            body.mode,
            body.scope,
            depth,
        ),
        walk_bodies(b, seq![], 0, depth) == Found::none(),
{
    let f = walk(b, body.range, body.ns, body.mode, body.scope, depth);
    assert(seq![body][0] == body);
    assert(walk_bodies(b, seq![body], 1, depth) == Found::none());
    assert(f.plus(Found::none()) =~= f);
}

/// A `proc name args body` in a script, or a `method` in a class: one symbol, under the name
/// in word 1, with the argument list in word 2 as its detail. The parameters can be seen in
/// the body, in word 3, and what is found there is inside the symbol. The body of a proc is
/// read in the namespace that its name lands in, that of a method in its class.
#[verifier::spinoff_prover]
#[verifier::rlimit(50)]
pub proof fn a_proc_is_defined_by_its_command(
    b: Seq<u8>,
    c: CommandView,
    ns: Seq<char>,
    mode: Mode,
    scope: Range<usize>,
    depth: nat,
    name: Seq<char>,
    x: Item,
)
    requires
        depth > 0,
        mode is Script ==> is_called(b, c, "proc"@),
        mode is ClassBody ==> is_called(b, c, "method"@),
        literal_at(b, words_of(c.tokens), 1) == Some(name),
    ensures
        ({
            let f = walk_command(b, c, ns, mode, scope, depth);
            let kind = if mode is Script {
                SymbolKind::Proc
            } else {
                SymbolKind::Method
            };
            let home = if mode is Script {
                container(ns, name)
            } else {
                ns
            };
            let body = body_at(b, words_of(c.tokens), 3);
            let inner = found_inside(b, body, home, Mode::Script, (depth - 1) as nat);
            &&& f.symbols.len() == 1
            &&& defines(b, c, f.symbols[0], kind, name, ns, body, inner)
            &&& span_at(words_of(c.tokens), 1) == Some(f.symbols[0].name_range)
            &&& f.symbols[0].detail == literal_at(b, words_of(c.tokens), 2)
            &&& is_no_symbol(x) ==> (finds(f, x) <==> shows(b, c, ns, x) || is_parameter(
                b,
                c,
                2,
                body,
                x,
            ) || finds(inner, x))
        }),
{
    let words = words_of(c.tokens);
    lemma_initials();
    lemma_called(
        b,
        c,
        if mode is Script {
            "proc"@
        } else {
            "method"@
        },
    );
    let head = literal_at(b, words, 0)->0;
    lemma_definition(b, c, head, ns, mode, scope, depth, x);
    crate::lookup::the_last_part_follows_the_last_colons(name);
    lemma_literal_has_span(b, words, 1);
    lemma_literal_has_span(b, words, 2);
    lemma_nothing(x);
    let e = effect(b, c, without_root(head), ns, mode, scope);
    if let Some(body) = body_at(b, words, 3) {
        lemma_parameters(b, c, 2, body, x);
        assert(e.bodies.len() == 1);
        lemma_one_body(b, e.bodies[0], (depth - 1) as nat);
        assert(e.bodies =~= seq![e.bodies[0]]);
    } else {
        lemma_one_body(
            b,
            BodyView { range: c.range, ns, mode, scope },
            (depth - 1) as nat,
        );
    }
    let f = walk_command(b, c, ns, mode, scope, depth);
    let inner = walk_bodies(b, e.bodies, 0, (depth - 1) as nat);
    assert(e.found.symbols =~= seq![]);
    assert(f.symbols =~= seq![SymbolView { children: inner.symbols, ..e.symbol->0 }]);
}

/// A `namespace eval name body`, or an `oo::class create name body`: one symbol, under the
/// name in word 2, with what its body in word 3 defines inside. That is read in the
/// namespace or class itself, and what is defined in a class are its members. With another
/// word in place of `eval` or `create` nothing is defined.
#[verifier::spinoff_prover]
#[verifier::rlimit(50)]
pub proof fn a_namespace_holds_what_its_body_defines(
    b: Seq<u8>,
    c: CommandView,
    ns: Seq<char>,
    scope: Range<usize>,
    depth: nat,
    kind: SymbolKind,
    name: Seq<char>,
    x: Item,
)
    requires
        depth > 0,
        kind is Namespace && is_called(b, c, "namespace"@) || kind is Class && is_called(
            b,
            c,
            "oo::class"@,
        ),
        literal_at(b, words_of(c.tokens), 2) == Some(name),
    ensures
        ({
            let f = walk_command(b, c, ns, Mode::Script, scope, depth);
            let asked = if kind is Namespace {
                seq!['e', 'v', 'a', 'l']
            } else {
                seq!['c', 'r', 'e', 'a', 't', 'e']
            };
            let inside = if kind is Namespace {
                Mode::Script
            } else {
                Mode::ClassBody
            };
            let body = body_at(b, words_of(c.tokens), 3);
            let inner = found_inside(b, body, qualified(ns, name), inside, (depth - 1) as nat);
            if literal_at(b, words_of(c.tokens), 1) == Some(asked) {
                &&& f.symbols.len() == 1
                &&& defines(b, c, f.symbols[0], kind, name, ns, body, inner)
                &&& span_at(words_of(c.tokens), 2) == Some(f.symbols[0].name_range)
                &&& f.symbols[0].detail is None
                &&& is_no_symbol(x) ==> (finds(f, x) <==> shows(b, c, ns, x) || finds(inner, x))
            } else {
                finds(f, x) <==> shows(b, c, ns, x)
            }
        }),
{
    let words = words_of(c.tokens);
    lemma_initials();
    reveal_strlit("eval");
    reveal_strlit("create");
    assert("eval"@ =~= seq!['e', 'v', 'a', 'l']);
    assert("create"@ =~= seq!['c', 'r', 'e', 'a', 't', 'e']);
    lemma_called(
        b,
        c,
        if kind is Namespace {
            "namespace"@
        } else {
            "oo::class"@
        },
    );
    let head = literal_at(b, words, 0)->0;
    lemma_definition(b, c, head, ns, Mode::Script, scope, depth, x);
    crate::lookup::the_last_part_follows_the_last_colons(name);
    lemma_literal_has_span(b, words, 2);
    lemma_nothing(x);
    let e = effect(b, c, without_root(head), ns, Mode::Script, scope);
    let f = walk_command(b, c, ns, Mode::Script, scope, depth);
    let inner = walk_bodies(b, e.bodies, 0, (depth - 1) as nat);
    lemma_one_body(
        b,
        BodyView { range: c.range, ns, mode: Mode::Script, scope },
        (depth - 1) as nat,
    );
    if e.bodies.len() > 0 {
        assert(e.bodies.len() == 1);
        lemma_one_body(b, e.bodies[0], (depth - 1) as nat);
        assert(e.bodies =~= seq![e.bodies[0]]);
    } else {
        assert(e.bodies =~= seq![]);
    }
    assert(e.found.symbols =~= seq![]);
    if e.symbol is Some {
        assert(f.symbols =~= seq![SymbolView { children: inner.symbols, ..e.symbol->0 }]);
    } else {
        assert(f.symbols =~= seq![]);
        if let Item::Symbol(y) = x {
            assert(!f.symbols.contains(y));
        }
    }
}

/// A `constructor args body` or a `destructor body` in a class: one symbol under that name,
/// at the first word of the command.
#[verifier::spinoff_prover]
#[verifier::rlimit(50)]
pub proof fn a_constructor_is_defined_by_its_command(
    b: Seq<u8>,
    c: CommandView,
    ns: Seq<char>,
    scope: Range<usize>,
    depth: nat,
    kind: SymbolKind,
    x: Item,
)
    requires
        depth > 0,
        kind is Constructor && is_called(b, c, "constructor"@) || kind is Destructor && is_called(
            b,
            c,
            "destructor"@,
        ),
    ensures
        ({
            let f = walk_command(b, c, ns, Mode::ClassBody, scope, depth);
            let name = if kind is Constructor {
                "constructor"@
            } else {
                "destructor"@
            };
            let body = body_at(
                b,
                words_of(c.tokens),
                if kind is Constructor {
                    2
                } else {
                    1
                },
            );
            let inner = found_inside(b, body, ns, Mode::Script, (depth - 1) as nat);
            &&& f.symbols.len() == 1
            &&& defines(b, c, f.symbols[0], kind, name, ns, body, inner)
            &&& f.symbols[0].name == name
            &&& f.symbols[0].name_range.start == c.tokens[0].start
            &&& f.symbols[0].name_range.end == (c.tokens[0].start + c.tokens[0].size) as usize
            &&& f.symbols[0].detail is None
            &&& is_no_symbol(x) ==> (finds(f, x) <==> shows(b, c, ns, x) || (kind is Constructor
                && is_parameter(b, c, 1, body, x)) || finds(inner, x))
        }),
{
    let words = words_of(c.tokens);
    lemma_initials();
    let name = if kind is Constructor {
        "constructor"@
    } else {
        "destructor"@
    };
    lemma_called(b, c, name);
    let head = literal_at(b, words, 0)->0;
    lemma_definition(b, c, head, ns, Mode::ClassBody, scope, depth, x);
    crate::lookup::the_last_part_follows_the_last_colons(name);
    assert(!exists|j: int| #[trigger] crate::lookup::colons_at(name, j)) by {
        lemma_names();
        assert forall|j: int| !#[trigger] crate::lookup::colons_at(name, j) by {
            if 0 <= j < name.len() {
                assert(name[j] != ':');
            }
        }
    }
    assert(crate::lookup::is_tail(name, name));
    lemma_literal_has_span(b, words, 1);
    lemma_nothing(x);
    assert(words.len() > 0 && c.tokens.len() > 0);
    let at: int = if kind is Constructor {
        2
    } else {
        1
    };
    let e = effect(b, c, without_root(head), ns, Mode::ClassBody, scope);
    let f = walk_command(b, c, ns, Mode::ClassBody, scope, depth);
    let inner = walk_bodies(b, e.bodies, 0, (depth - 1) as nat);
    lemma_one_body(
        b,
        BodyView { range: c.range, ns, mode: Mode::Script, scope },
        (depth - 1) as nat,
    );
    if let Some(body) = body_at(b, words, at) {
        lemma_parameters(b, c, 1, body, x);
        lemma_one_body(b, e.bodies[0], (depth - 1) as nat);
        assert(e.bodies =~= seq![e.bodies[0]]);
    } else {
        assert(e.bodies =~= seq![]);
    }
    assert(e.found.symbols =~= seq![]);
    assert(f.symbols =~= seq![SymbolView { children: inner.symbols, ..e.symbol->0 }]);
}

proof fn lemma_class_variables(
    b: Seq<u8>,
    c: CommandView,
    ns: Seq<char>,
    k: int,
    y: SymbolView,
)
    requires
        1 <= k <= words_of(c.tokens).len(),
    ensures
        class_variables(b, c, words_of(c.tokens), ns, k).contains(y) <==> exists|i: int|
            i >= k && #[trigger] is_member_variable(b, c, ns, i, y),
    decreases words_of(c.tokens).len() - k,
{
    let words = words_of(c.tokens);
    if k < words.len() {
        lemma_class_variables(b, c, ns, k + 1, y);
        lemma_literal_has_span(b, words, k);
        let all = class_variables(b, c, words, ns, k);
        let rest = class_variables(b, c, words, ns, k + 1);
        if literal_at(b, words, k) is Some {
            let one = all[0];
            assert(all =~= seq![one] + rest);
            lemma_joined(seq![one], rest, y);
            assert(one.children =~= seq![]);
            assert(is_member_variable(b, c, ns, k, one));
            assert(seq![one].contains(y) <==> y == one) by {
                assert(seq![one][0] == one);
            }
            if is_member_variable(b, c, ns, k, y) {
                assert(y.children =~= one.children);
                assert(y == one);
            }
        } else {
            assert(all =~= rest);
        }
    }
}

/// Whether a symbol is the variable that word `i` of a `variable` in a class declares.
pub open spec fn is_member_variable(
    b: Seq<u8>,
    c: CommandView,
    ns: Seq<char>,
    i: int,
    s: SymbolView,
) -> bool {
    &&& 1 <= i < words_of(c.tokens).len()
    &&& literal_at(b, words_of(c.tokens), i) == Some(s.name)
    &&& span_at(words_of(c.tokens), i) == Some(s.name_range)
    &&& s.kind is Variable
    &&& s.qname == qualified(ns, s.name)
    &&& s.full_range == c.range
    &&& s.end == end_of(b, c)
    &&& s.body is None
    &&& s.detail is None
    &&& s.doc is None
    &&& s.children.len() == 0
}

/// A `variable` in a class declares a member under each literal word behind it.
#[verifier::spinoff_prover]
#[verifier::rlimit(50)]
pub proof fn a_class_declares_each_variable(
    b: Seq<u8>,
    c: CommandView,
    ns: Seq<char>,
    scope: Range<usize>,
    depth: nat,
    x: Item,
)
    requires
        depth > 0,
        is_called(b, c, "variable"@),
    ensures
        ({
            let f = walk_command(b, c, ns, Mode::ClassBody, scope, depth);
            &&& is_no_symbol(x) ==> (finds(f, x) <==> shows(b, c, ns, x))
            &&& forall|y: SymbolView| #[trigger]
                f.symbols.contains(y) <==> exists|i: int| #[trigger]
                    is_member_variable(b, c, ns, i, y)
        }),
{
    let words = words_of(c.tokens);
    lemma_initials();
    lemma_called(b, c, "variable"@);
    let head = literal_at(b, words, 0)->0;
    lemma_definition(b, c, head, ns, Mode::ClassBody, scope, depth, x);
    lemma_nothing(x);
    lemma_one_body(b, BodyView { range: c.range, ns, mode: Mode::Script, scope }, (depth - 1) as nat);
    let f = walk_command(b, c, ns, Mode::ClassBody, scope, depth);
    let e = effect(b, c, without_root(head), ns, Mode::ClassBody, scope);
    assert(e.bodies =~= seq![]);
    assert(e.found.symbols + Seq::<SymbolView>::empty() =~= e.found.symbols);
    assert forall|y: SymbolView| #[trigger] f.symbols.contains(y) <==> exists|i: int| #[trigger]
        is_member_variable(b, c, ns, i, y) by {
        assert(words.len() >= 1);
        lemma_class_variables(b, c, ns, 1, y);
        if exists|i: int| #[trigger] is_member_variable(b, c, ns, i, y) {
            let i = choose|i: int| #[trigger] is_member_variable(b, c, ns, i, y);
            assert(i >= 1 && is_member_variable(b, c, ns, i, y));
        }
    }
}

/// Whether a thing is the variable that word `k` of a command binds.
pub open spec fn binds_word(
    b: Seq<u8>,
    c: CommandView,
    k: int,
    scope: Range<usize>,
    x: Item,
) -> bool {
    x matches Item::Variable(v) && {
        &&& literal_at(b, words_of(c.tokens), k) == Some(v.name)
        &&& span_at(words_of(c.tokens), k) == Some(v.range)
        &&& v.scope == scope
        &&& can_be_bound(v.name)
    }
}

proof fn lemma_target(b: Seq<u8>, c: CommandView, k: int, scope: Range<usize>, x: Item)
    ensures
        finds(
            Found { variables: target(b, words_of(c.tokens), k, scope), ..Found::none() },
            x,
        ) <==> binds_word(b, c, k, scope, x),
{
    let words = words_of(c.tokens);
    if let Item::Variable(v) = x {
        if let (Some(name), Some(range)) = (literal_at(b, words, k), span_at(words, k)) {
            lemma_can_be_bound(name);
            let one = VarView { name, range, scope };
            assert(seq![one][0] == one);
        }
    }
}

proof fn lemma_targets(b: Seq<u8>, c: CommandView, k: int, scope: Range<usize>, x: Item)
    requires
        0 <= k,
    ensures
        finds(
            Found { variables: targets(b, words_of(c.tokens), k, scope), ..Found::none() },
            x,
        ) <==> exists|i: int| i >= k && #[trigger] binds_word(b, c, i, scope, x),
    decreases words_of(c.tokens).len() - k,
{
    let words = words_of(c.tokens);
    if k < words.len() {
        lemma_targets(b, c, k + 1, scope, x);
        lemma_target(b, c, k, scope, x);
        if let Item::Variable(v) = x {
            lemma_joined(target(b, words, k, scope), targets(b, words, k + 1, scope), v);
        }
    }
}

/// A command with nothing inside shows itself and what it brings about by itself.
proof fn lemma_plain(
    b: Seq<u8>,
    c: CommandView,
    name: Seq<char>,
    ns: Seq<char>,
    mode: Mode,
    scope: Range<usize>,
    depth: nat,
    x: Item,
)
    requires
        depth > 0,
        is_called(b, c, name),
        name.len() > 0,
        name[0] != ':',
        effect(b, c, name, ns, mode, scope).symbol is None,
        effect(b, c, name, ns, mode, scope).bodies.len() == 0,
        effect(b, c, name, ns, mode, scope).found.symbols.len() == 0,
    ensures
        finds(walk_command(b, c, ns, mode, scope, depth), x) <==> shows(b, c, ns, x) || finds(
            effect(b, c, name, ns, mode, scope).found,
            x,
        ),
{
    lemma_called(b, c, name);
    let head = literal_at(b, words_of(c.tokens), 0)->0;
    lemma_definition(b, c, head, ns, mode, scope, depth, x);
    let e = effect(b, c, name, ns, mode, scope);
    assert(e.bodies =~= seq![]);
    lemma_one_body(b, BodyView { range: c.range, ns, mode, scope }, (depth - 1) as nat);
    lemma_nothing(x);
    let f = walk_command(b, c, ns, mode, scope, depth);
    assert(f.symbols =~= seq![]);
    if let Item::Symbol(y) = x {
        assert(!f.symbols.contains(y));
        assert(!e.found.symbols.contains(y));
    }
}

/// `set`, `variable`, `global`, `incr`, `append` and `lappend` bind the variable that their
/// first argument names, in the scope that they stand in, and nothing else.
#[verifier::spinoff_prover]
#[verifier::rlimit(50)]
pub proof fn a_binder_binds_its_first_argument(
    b: Seq<u8>,
    c: CommandView,
    name: Seq<char>,
    ns: Seq<char>,
    scope: Range<usize>,
    depth: nat,
    x: Item,
)
    requires
        depth > 0,
        is_called(b, c, name),
        name == "set"@ || name == "variable"@ || name == "global"@ || name == "incr"@ || name
            == "append"@ || name == "lappend"@,
    ensures
        finds(walk_command(b, c, ns, Mode::Script, scope, depth), x) <==> shows(b, c, ns, x)
            || binds_word(b, c, 1, scope, x),
{
    let words = words_of(c.tokens);
    assert(name.len() > 0 && name[0] != ':') by {
        lemma_initials();
    }
    assert(effect(b, c, name, ns, Mode::Script, scope) == EffectView::binding(
        target(b, words, 1, scope),
    )) by {
        lemma_initials();
    }
    lemma_plain(b, c, name, ns, Mode::Script, scope, depth, x);
    lemma_target(b, c, 1, scope, x);
}

/// `lassign` binds each word from its second argument on, and nothing else.
#[verifier::spinoff_prover]
#[verifier::rlimit(50)]
pub proof fn lassign_binds_its_arguments(
    b: Seq<u8>,
    c: CommandView,
    ns: Seq<char>,
    scope: Range<usize>,
    depth: nat,
    x: Item,
)
    requires
        depth > 0,
        is_called(b, c, "lassign"@),
    ensures
        finds(walk_command(b, c, ns, Mode::Script, scope, depth), x) <==> shows(b, c, ns, x)
            || exists|i: int| i >= 2 && #[trigger] binds_word(b, c, i, scope, x),
{
    let words = words_of(c.tokens);
    assert("lassign"@.len() > 0 && "lassign"@[0] != ':') by {
        lemma_initials();
    }
    assert(effect(b, c, "lassign"@, ns, Mode::Script, scope) == EffectView::binding(
        targets(b, words, 2, scope),
    )) by {
        lemma_initials();
    }
    lemma_plain(b, c, "lassign"@, ns, Mode::Script, scope, depth, x);
    lemma_targets(b, c, 2, scope, x);
}

/// Whether a thing is one of the variables that the list in word 1 of a loop names.
pub open spec fn binds_in_list(
    b: Seq<u8>,
    c: CommandView,
    scope: Range<usize>,
    x: Item,
) -> bool {
    x matches Item::Variable(v) && {
        &&& literal_at(b, words_of(c.tokens), 1) matches Some(names) && split_words(
            names,
        ).contains(v.name)
        &&& span_at(words_of(c.tokens), 1) == Some(v.range)
        &&& v.scope == scope
        &&& can_be_bound(v.name)
    }
}

proof fn lemma_last_braced(b: Seq<u8>, words: Seq<Seq<Token>>, n: int)
    requires
        n <= words.len(),
    ensures
        match last_braced(b, words, n) {
            Some(i) => 2 <= i < n && is_braced(b, words[i]) && forall|j: int|
                i < j < n ==> !is_braced(b, #[trigger] words[j]),
            None => forall|j: int| 2 <= j < n ==> !is_braced(b, #[trigger] words[j]),
        },
    decreases n,
{
    if n > 2 && !is_braced(b, words[n - 1]) {
        lemma_last_braced(b, words, n - 1);
    }
}

/// `foreach` and `lmap` bind the names in the list that is their first argument, and have a
/// script in the last of their other arguments that is written in braces.
#[verifier::spinoff_prover]
#[verifier::rlimit(50)]
pub proof fn a_foreach_binds_its_names_and_walks_its_body(
    b: Seq<u8>,
    c: CommandView,
    name: Seq<char>,
    ns: Seq<char>,
    scope: Range<usize>,
    depth: nat,
    x: Item,
)
    requires
        depth > 0,
        is_called(b, c, name),
        name == "foreach"@ || name == "lmap"@,
    ensures
        finds(walk_command(b, c, ns, Mode::Script, scope, depth), x) <==> shows(b, c, ns, x)
            || binds_in_list(b, c, scope, x) || exists|p: int|
            p >= 2 && (forall|j: int|
                p < j < words_of(c.tokens).len() ==> !is_braced(
                    b,
                    #[trigger] words_of(c.tokens)[j],
                )) && #[trigger] found_in_word(
                b,
                words_of(c.tokens),
                p,
                ns,
                scope,
                (depth - 1) as nat,
                x,
            ),
{
    let words = words_of(c.tokens);
    let d = (depth - 1) as nat;
    lemma_initials();
    lemma_called(b, c, name);
    let head = literal_at(b, words, 0)->0;
    lemma_definition(b, c, head, ns, Mode::Script, scope, depth, x);
    lemma_literal_has_span(b, words, 1);
    let e = effect(b, c, name, ns, Mode::Script, scope);
    let f = walk_command(b, c, ns, Mode::Script, scope, depth);
    let inner = walk_bodies(b, e.bodies, 0, d);
    assert(finds(e.found, x) <==> binds_in_list(b, c, scope, x)) by {
        if let Item::Variable(v) = x {
            if let Some(names) = literal_at(b, words, 1) {
                let all = split_words(names);
                lemma_bindings(all, 0, span_at(words, 1)->0, scope, v);
                if all.contains(v.name) {
                    let i = choose|i: int| 0 <= i < all.len() && all[i] == v.name;
                    assert(all[i] == v.name);
                }
            }
        }
    }
    assert(e.found.symbols =~= seq![]);
    assert(f.symbols =~= inner.symbols);
    lemma_last_braced(b, words, words.len() as int);
    lemma_one_body(b, BodyView { range: c.range, ns, mode: Mode::Script, scope }, d);
    lemma_nothing(x);
    match last_braced(b, words, words.len() as int) {
        Some(i) => {
            if let Some(r) = body_of(b, words[i]) {
                lemma_one_body(b, BodyView { range: r, ns, mode: Mode::Script, scope }, d);
                assert(e.bodies =~= seq![BodyView { range: r, ns, mode: Mode::Script, scope }]);
            } else {
                assert(e.bodies =~= seq![]);
            }
            if finds(inner, x) {
                assert(found_in_word(b, words, i, ns, scope, d, x));
            }
            assert forall|p: int|
                p >= 2 && (forall|j: int| p < j < words.len() ==> !is_braced(b, #[trigger] words[j]))
                    && #[trigger] found_in_word(b, words, p, ns, scope, d, x) implies finds(
                inner,
                x,
            ) by {
                if p < i {
                    assert(is_braced(b, words[i]));
                } else if i < p {
                    assert(!is_braced(b, words[p]));
                }
            }
        },
        None => {
            assert(e.bodies =~= seq![]);
            assert forall|p: int| p >= 2 && #[trigger] found_in_word(
                b,
                words,
                p,
                ns,
                scope,
                d,
                x,
            ) implies false by {
                assert(!is_braced(b, words[p]));
            }
        },
    }
}

/// Whether a thing is the mention of a file or package in word `i`.
pub open spec fn mentions_word(
    b: Seq<u8>,
    c: CommandView,
    kind: LinkKind,
    i: int,
    x: Item,
) -> bool {
    x matches Item::Link(l) && {
        &&& l.kind == kind
        &&& literal_at(b, words_of(c.tokens), i) == Some(l.name)
        &&& span_at(words_of(c.tokens), i) == Some(l.range)
    }
}

proof fn lemma_link(b: Seq<u8>, c: CommandView, kind: LinkKind, i: int, x: Item)
    ensures
        finds(
            Found { links: link(b, words_of(c.tokens), kind, i), ..Found::none() },
            x,
        ) <==> mentions_word(b, c, kind, i, x),
{
    let words = words_of(c.tokens);
    if let Item::Link(l) = x {
        if let (Some(name), Some(range)) = (literal_at(b, words, i), span_at(words, i)) {
            let one = LinkView { kind, name, range };
            assert(seq![one][0] == one);
        }
    }
}

/// `source` mentions the file that its last argument names.
#[verifier::spinoff_prover]
#[verifier::rlimit(50)]
pub proof fn source_mentions_its_last_argument(
    b: Seq<u8>,
    c: CommandView,
    ns: Seq<char>,
    scope: Range<usize>,
    depth: nat,
    x: Item,
)
    requires
        depth > 0,
        is_called(b, c, "source"@),
    ensures
        finds(walk_command(b, c, ns, Mode::Script, scope, depth), x) <==> shows(b, c, ns, x) || (
        words_of(c.tokens).len() >= 2 && mentions_word(
            b,
            c,
            LinkKind::Source,
            words_of(c.tokens).len() - 1,
            x,
        )),
{
    lemma_initials();
    lemma_plain(b, c, "source"@, ns, Mode::Script, scope, depth, x);
    lemma_link(b, c, LinkKind::Source, words_of(c.tokens).len() - 1, x);
    lemma_nothing(x);
}

/// Whether a thing is the declaration of a package in word 2.
pub open spec fn provides_word(b: Seq<u8>, c: CommandView, x: Item) -> bool {
    x matches Item::Provide(p) && {
        &&& literal_at(b, words_of(c.tokens), 2) == Some(p.name)
        &&& span_at(words_of(c.tokens), 2) == Some(p.range)
    }
}

/// `package require` mentions a package, in word 2, or in word 3 if word 2 is `-exact`;
/// `package provide` declares the one in word 2; another subcommand does neither.
#[verifier::spinoff_prover]
#[verifier::rlimit(50)]
pub proof fn packages_are_required_and_provided(
    b: Seq<u8>,
    c: CommandView,
    ns: Seq<char>,
    scope: Range<usize>,
    depth: nat,
    x: Item,
)
    requires
        depth > 0,
        is_called(b, c, "package"@),
    ensures
        ({
            let required = literal_at(b, words_of(c.tokens), 1) == Some("require"@);
            let provided = literal_at(b, words_of(c.tokens), 1) == Some("provide"@);
            let exact = literal_at(b, words_of(c.tokens), 2) == Some("-exact"@);
            finds(walk_command(b, c, ns, Mode::Script, scope, depth), x) <==> {
                ||| shows(b, c, ns, x)
                ||| required && !exact && mentions_word(b, c, LinkKind::PackageRequire, 2, x)
                ||| required && exact && mentions_word(b, c, LinkKind::PackageRequire, 3, x)
                ||| provided && provides_word(b, c, x)
            }
        }),
{
    let words = words_of(c.tokens);
    lemma_initials();
    reveal_strlit("require");
    reveal_strlit("provide");
    assert("require"@[0] == 'r' && "provide"@[0] == 'p');
    lemma_plain(b, c, "package"@, ns, Mode::Script, scope, depth, x);
    lemma_link(b, c, LinkKind::PackageRequire, 2, x);
    lemma_link(b, c, LinkKind::PackageRequire, 3, x);
    lemma_nothing(x);
    if let Item::Provide(p) = x {
        if let (Some(name), Some(range)) = (literal_at(b, words, 2), span_at(words, 2)) {
            let one = ProvideView { name, range };
            assert(seq![one][0] == one);
        }
    }
}

/// Whether a command of that name has a meaning of its own in a script.
pub open spec fn is_known(name: Seq<char>) -> bool {
    ||| name == "proc"@ || name == "namespace"@ || name == "oo::class"@
    ||| name == "set"@ || name == "variable"@ || name == "global"@
    ||| name == "incr"@ || name == "append"@ || name == "lappend"@
    ||| name == "foreach"@ || name == "lmap"@ || name == "lassign"@
    ||| name == "source"@ || name == "package"@
    ||| name == "if"@ || name == "while"@ || name == "for"@
    ||| name == "catch"@ || name == "try"@ || name == "uplevel"@
    ||| name == "time"@ || name == "coroutine"@
}

/// Any other command in a script shows itself only: none of its words is walked.
#[verifier::spinoff_prover]
#[verifier::rlimit(50)]
pub proof fn other_commands_are_only_used(
    b: Seq<u8>,
    c: CommandView,
    name: Seq<char>,
    ns: Seq<char>,
    scope: Range<usize>,
    depth: nat,
    x: Item,
)
    requires
        depth > 0,
        is_called(b, c, name),
        name.len() > 0,
        name[0] != ':',
        !is_known(name),
    ensures
        finds(walk_command(b, c, ns, Mode::Script, scope, depth), x) <==> shows(b, c, ns, x),
{
    let words = words_of(c.tokens);
    assert(bodies_at(b, words, script_args(b, name, words), 0, ns, scope) =~= seq![]);
    lemma_plain(b, c, name, ns, Mode::Script, scope, depth, x);
    lemma_nothing(x);
}

/// In a class only `method`, `constructor`, `destructor` and `variable` mean something.
pub proof fn other_words_of_a_class_are_only_used(
    b: Seq<u8>,
    c: CommandView,
    name: Seq<char>,
    ns: Seq<char>,
    scope: Range<usize>,
    depth: nat,
    x: Item,
)
    requires
        depth > 0,
        is_called(b, c, name),
        name.len() > 0,
        name[0] != ':',
        name != "method"@,
        name != "constructor"@,
        name != "destructor"@,
        name != "variable"@,
    ensures
        finds(walk_command(b, c, ns, Mode::ClassBody, scope, depth), x) <==> shows(b, c, ns, x),
{
    lemma_plain(b, c, name, ns, Mode::ClassBody, scope, depth, x);
    lemma_nothing(x);
}

/// A command whose name is computed shows the variables in it and its comment, and nothing
/// inside it is walked.
pub proof fn a_computed_command_is_not_guessed_at(
    b: Seq<u8>,
    c: CommandView,
    ns: Seq<char>,
    mode: Mode,
    scope: Range<usize>,
    depth: nat,
    x: Item,
)
    requires
        literal_at(b, words_of(c.tokens), 0) is None,
    ensures
        finds(walk_command(b, c, ns, mode, scope, depth), x) <==> shows(b, c, ns, x),
{
    lemma_sighting(b, c, ns, x);
}

/// An error is reported at the byte where the parser gave up, or at the end of the text,
/// and says whether the text only stops too early.
pub proof fn an_error_is_where_the_parser_gave_up(b: Seq<u8>, e: ParseError)
    requires
        b.len() < usize::MAX,
    ensures
        e.offset < b.len() ==> syntax_error(b, e).range.start == e.offset && syntax_error(
            b,
            e,
        ).range.end == e.offset + 1,
        e.offset >= b.len() ==> syntax_error(b, e).range.start == b.len() && syntax_error(
            b,
            e,
        ).range.end == b.len(),
        syntax_error(b, e).incomplete == e.incomplete,
        e.incomplete ==> syntax_error(b, e).message
            == "unterminated command: missing a closing brace, bracket or quote"@,
        !e.incomplete ==> syntax_error(b, e).message == "syntax error"@,
{
}

/// A definition ends without the newline or `;` behind its last token, and with its command
/// where there is none.
pub proof fn a_definition_ends_before_its_terminator(b: Seq<u8>, c: CommandView)
    requires
        c.tokens.len() > 0,
        c.range.start < c.range.end <= b.len(),
    ensures
        ({
            let last = c.range.end - 1;
            let behind = c.tokens[c.tokens.len() - 1].start + c.tokens[c.tokens.len() - 1].size
                <= last;
            &&& behind && (b[last] == 10 || b[last] == 59) ==> end_of(b, c) == last
            &&& !behind || (b[last] != 10 && b[last] != 59) ==> end_of(b, c) == c.range.end
        }),
{
}

/// The documentation of a definition is that of the comment before its command.
pub proof fn a_definition_is_documented_by_its_comment(b: Seq<u8>, c: CommandView)
    ensures
        c.comment is None ==> doc_of(b, c) is None,
        c.comment matches Some(r) ==> (r.start <= r.end <= b.len() && vstd::utf8::valid_utf8(
            b.subrange(r.start as int, r.end as int),
        ) ==> doc_of(b, c) == crate::outline::doc_text(
            vstd::utf8::decode_utf8(b.subrange(r.start as int, r.end as int)),
        )),
{
}

/// A file is outlined from its first byte to its last, in the global namespace, with the
/// whole file as the scope, a hundred levels deep.
pub proof fn a_file_is_outlined_from_end_to_end(b: Seq<u8>)
    requires
        b.len() <= usize::MAX,
    ensures
        crate::walker::outline_of(b) == walk(
            b,
            Range { start: 0, end: b.len() as usize },
            seq![':', ':'],
            Mode::Script,
            Range { start: 0, end: b.len() as usize },
            100,
        ),
        commands_within(b, 0, b.len() as int) == crate::grammar::commands(b, 0, b.len() as int),
{
}

} // verus!

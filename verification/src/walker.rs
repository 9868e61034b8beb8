//! The walk through a file's commands that finds its outline.
//!
//! Each command has an effect of its own — what it binds, defines or mentions —
//! and may hold bodies, which are scripts to be walked in turn.
use core::ops::Range;
use vstd::prelude::*;

use crate::grammar::{NEWLINE, SEMICOLON};
use crate::outline::{
    arg_names, container, container_of, doc_text, documentation, last_part, last_segment,
    lemma_plus, lemma_symbol_children, qualified, qualify, split_args, symbol_views, unrooted,
    without_root, ErrorView, Found, LinkKind, LinkRef, LinkView, Outline, Provide, ProvideView,
    Ref, RefKind, RefView, Symbol, SymbolKind, SymbolView, SyntaxError, VarDef, VarView,
};
use crate::script::{commands_are_in_order, commands_within, in_order, outcome, text_in, Script};
use crate::text::{chars_of, has_char, same_text, split_words, text_option, texts, word_strings};
use crate::token::{slices_view, words_of, Command, CommandView, ParseError, Token, TokenKind};
use crate::words::{
    all_readable, body_at, body_of, body_range, body_word, braced_word, is_braced,
    lemma_words_readable, literal_at, literal_of, literal_word, range_word, readable, span_at,
    token_text,
};

verus! {

/// What kind of script is being read; the same word means different things inside
/// an `oo::class` body than at script level.
#[derive(Debug, Clone, Copy, PartialEq, Eq, Structural)]
pub enum Mode {
    Script,
    ClassBody,
}

/// Hard ceiling on nesting, so that no input can exhaust the stack.
pub const MAX_DEPTH: usize = 100;

/// A script to be walked inside a command.
pub struct Body {
    pub range: Range<usize>,
    pub ns: String,
    pub mode: Mode,
    pub scope: Range<usize>,
}

pub struct BodyView {
    pub range: Range<usize>,
    pub ns: Seq<char>,
    pub mode: Mode,
    pub scope: Range<usize>,
}

impl View for Body {
    type V = BodyView;

    open spec fn view(&self) -> BodyView {
        BodyView { range: self.range, ns: self.ns@, mode: self.mode, scope: self.scope }
    }
}

/// What one command does by itself.
pub struct Effect {
    /// What it binds and mentions.
    pub found: Outline,
    /// What it defines; the findings in its bodies become the children.
    pub symbol: Option<Symbol>,
    pub bodies: Vec<Body>,
}

#[verifier::ext_equal]
pub struct EffectView {
    pub found: Found,
    pub symbol: Option<SymbolView>,
    pub bodies: Seq<BodyView>,
}

impl View for Effect {
    type V = EffectView;

    open spec fn view(&self) -> EffectView {
        EffectView {
            found: self.found@,
            symbol: match self.symbol {
                Some(s) => Some(s@),
                None => None,
            },
            bodies: body_views(self.bodies@),
        }
    }
}

pub open spec fn body_views(v: Seq<Body>) -> Seq<BodyView> {
    v.map_values(|b: Body| b@)
}

pub open spec fn var_views(v: Seq<VarDef>) -> Seq<VarView> {
    v.map_values(|d: VarDef| d@)
}

impl EffectView {
    pub open spec fn none() -> EffectView {
        EffectView { found: Found::none(), symbol: None, bodies: seq![] }
    }

    pub open spec fn binding(variables: Seq<VarView>) -> EffectView {
        EffectView { found: Found { variables, ..Found::none() }, ..EffectView::none() }
    }
}

// ------------------------------------------------------------------- bindings
/// Whether a name can be bound: it is there, and is no substitution.
pub open spec fn bindable(name: Seq<char>) -> bool {
    name.len() > 0 && !name.contains('$')
}

/// The bindings of those names, from `k` on, that can be bound.
pub open spec fn bindings(
    names: Seq<Seq<char>>,
    k: int,
    range: Range<usize>,
    scope: Range<usize>,
) -> Seq<VarView>
    decreases names.len() - k,
{
    if k < 0 || k >= names.len() {
        seq![]
    } else if bindable(names[k]) {
        seq![VarView { name: names[k], range, scope }] + bindings(names, k + 1, range, scope)
    } else {
        bindings(names, k + 1, range, scope)
    }
}

/// The formal parameters in word `k`, bound in the body.
pub open spec fn parameters(
    b: Seq<u8>,
    words: Seq<Seq<Token>>,
    k: int,
    body: Range<usize>,
) -> Seq<VarView> {
    match literal_at(b, words, k) {
        Some(args) => bindings(
            arg_names(args),
            0,
            match span_at(words, k) {
                Some(r) => r,
                None => body,
            },
            body,
        ),
        None => seq![],
    }
}

/// The bindings of the literal words from `k` on, each at its own place.
pub open spec fn targets(
    b: Seq<u8>,
    words: Seq<Seq<Token>>,
    k: int,
    scope: Range<usize>,
) -> Seq<VarView>
    decreases words.len() - k,
{
    if k < 0 || k >= words.len() {
        seq![]
    } else {
        target(b, words, k, scope) + targets(b, words, k + 1, scope)
    }
}

/// The binding of word `k`.
pub open spec fn target(
    b: Seq<u8>,
    words: Seq<Seq<Token>>,
    k: int,
    scope: Range<usize>,
) -> Seq<VarView> {
    match (literal_at(b, words, k), span_at(words, k)) {
        (Some(name), Some(range)) => if bindable(name) {
            seq![VarView { name, range, scope }]
        } else {
            seq![]
        },
        _ => seq![],
    }
}

fn can_bind(name: &String) -> (r: bool)
    ensures
        r == bindable(name@),
{
    let chars = chars_of(name.as_str());
    chars.len() > 0 && !has_char(chars.as_slice(), '$')
}

fn bind_all(names: Vec<String>, range: &Range<usize>, scope: &Range<usize>) -> (out: Vec<VarDef>)
    ensures
        var_views(out@) == bindings(texts(names@), 0, *range, *scope),
{
    let mut out: Vec<VarDef> = Vec::new();
    let ghost whole = bindings(texts(names@), 0, *range, *scope);
    let mut k: usize = 0;
    assert(var_views(out@) + whole =~= whole);
    while k < names.len()
        invariant
            k <= names@.len(),
            whole == var_views(out@) + bindings(texts(names@), k as int, *range, *scope),
        decreases names@.len() - k,
    {
        let ghost before = out@;
        assert(texts(names@)[k as int] == names@[k as int]@);
        if can_bind(&names[k]) {
            let def = VarDef { name: names[k].clone(), range: range.clone(), scope: scope.clone() };
            out.push(def);
            proof {
                let rest = bindings(texts(names@), k + 1, *range, *scope);
                assert(var_views(out@) =~= var_views(before) + seq![def@]);
                assert(var_views(before) + (seq![def@] + rest) =~= (var_views(before)
                    + seq![def@]) + rest);
            }
        }
        k = k + 1;
    }
    assert(var_views(out@) + Seq::<VarView>::empty() =~= var_views(out@));
    out
}

fn bind_parameters(
    script: &Script,
    words: &Vec<&[Token]>,
    k: usize,
    body: &Range<usize>,
) -> (out: Vec<VarDef>)
    requires
        all_readable(slices_view(words@)),
    ensures
        var_views(out@) == parameters(script@, slices_view(words@), k as int, *body),
{
    match literal_word(script, words, k) {
        Some(args) => {
            let range = match range_word(words, k) {
                Some(r) => r,
                None => body.clone(),
            };
            bind_all(split_args(args.as_str()), &range, body)
        },
        None => {
            let out: Vec<VarDef> = Vec::new();
            assert(var_views(out@) =~= seq![]);
            out
        },
    }
}

fn bind_words(
    script: &Script,
    words: &Vec<&[Token]>,
    from: usize,
    until: usize,
    scope: &Range<usize>,
) -> (out: Vec<VarDef>)
    requires
        all_readable(slices_view(words@)),
        until <= words@.len(),
    ensures
        until == words@.len() ==> var_views(out@) == targets(
            script@,
            slices_view(words@),
            from as int,
            *scope,
        ),
        until == from + 1 ==> var_views(out@) == target(
            script@,
            slices_view(words@),
            from as int,
            *scope,
        ),
{
    let ghost all = slices_view(words@);
    let mut out: Vec<VarDef> = Vec::new();
    let mut k: usize = from;
    proof {
        let whole = targets(script@, all, from as int, *scope);
        assert(var_views(out@) + whole =~= whole);
    }
    while k < until
        invariant
            from <= k,
            k <= until || k == from,
            until <= words@.len(),
            all == slices_view(words@),
            all_readable(all),
            targets(script@, all, from as int, *scope) == var_views(out@) + targets(
                script@,
                all,
                k as int,
                *scope,
            ),
            k == from ==> out@.len() == 0,
            k == from + 1 ==> var_views(out@) == target(script@, all, from as int, *scope),
        decreases until - k,
    {
        let ghost before = out@;
        let ghost step = target(script@, all, k as int, *scope);
        match (literal_word(script, words, k), range_word(words, k)) {
            (Some(name), Some(range)) => {
                if can_bind(&name) {
                    out.push(VarDef { name, range, scope: scope.clone() });
                }
            },
            _ => {},
        }
        proof {
            let rest = targets(script@, all, k + 1, *scope);
            assert(var_views(out@) =~= var_views(before) + step);
            assert(var_views(before) + (step + rest) =~= (var_views(before) + step) + rest);
            if k == from {
                assert(var_views(before) + step =~= step);
            }
        }
        k = k + 1;
    }
    proof {
        assert(var_views(out@) + Seq::<VarView>::empty() =~= var_views(out@));
    }
    out
}

// ---------------------------------------------------------------- definitions
/// The documentation of a command: the comment block before it.
pub open spec fn doc_of(b: Seq<u8>, c: CommandView) -> Option<Seq<char>> {
    match c.comment {
        Some(r) => match text_in(b, r.start as int, r.end as int) {
            Some(raw) => doc_text(raw),
            None => None,
        },
        None => None,
    }
}

/// Where a command ends without its terminator: a newline or `;` behind its last token.
pub open spec fn end_of(b: Seq<u8>, c: CommandView) -> usize {
    let last = c.range.end - 1;
    if c.range.start <= last < b.len() && c.tokens.len() > 0 && c.tokens.last().stop() <= last && (
    b[last] == NEWLINE || b[last] == SEMICOLON) {
        last as usize
    } else {
        c.range.end
    }
}

/// A symbol that a command defines, so far without detail and children.
pub open spec fn symbol(
    b: Seq<u8>,
    c: CommandView,
    kind: SymbolKind,
    name: Seq<char>,
    qname: Seq<char>,
    name_range: Range<usize>,
    body: Option<Range<usize>>,
) -> SymbolView {
    SymbolView {
        kind,
        name,
        qname,
        name_range,
        full_range: c.range,
        end: end_of(b, c),
        body,
        detail: None,
        doc: doc_of(b, c),
        children: seq![],
    }
}

/// A `name args body` definition: `proc` and `method`. The body of a proc runs in
/// the namespace that its name says.
pub open spec fn routine(
    b: Seq<u8>,
    c: CommandView,
    words: Seq<Seq<Token>>,
    ns: Seq<char>,
    kind: SymbolKind,
) -> EffectView {
    match (literal_at(b, words, 1), span_at(words, 1)) {
        (Some(name), Some(range)) => {
            let sym = SymbolView {
                detail: literal_at(b, words, 2),
                ..symbol(
                    b,
                    c,
                    kind,
                    last_part(name),
                    qualified(ns, name),
                    range,
                    body_at(b, words, 3),
                )
            };
            let inner = if kind is Proc {
                container(ns, name)
            } else {
                ns
            };
            match body_at(b, words, 3) {
                Some(body) => EffectView {
                    symbol: Some(sym),
                    bodies: seq![
                        BodyView { range: body, ns: inner, mode: Mode::Script, scope: body },
                    ],
                    ..EffectView::binding(parameters(b, words, 2, body))
                },
                None => EffectView { symbol: Some(sym), ..EffectView::none() },
            }
        },
        _ => EffectView::none(),
    }
}

/// A named block, `namespace eval name body` or `oo::class create name body`. With
/// any other subcommand there is none.
pub open spec fn block(
    b: Seq<u8>,
    c: CommandView,
    words: Seq<Seq<Token>>,
    ns: Seq<char>,
    subcommand: Seq<char>,
    kind: SymbolKind,
    mode: Mode,
) -> EffectView {
    match (literal_at(b, words, 1), literal_at(b, words, 2)) {
        (Some(sub), Some(name)) => if sub == subcommand {
            let qname = qualified(ns, name);
            let range = match span_at(words, 2) {
                Some(r) => r,
                None => c.range,
            };
            let sym = symbol(b, c, kind, last_part(name), qname, range, body_at(b, words, 3));
            EffectView {
                symbol: Some(sym),
                bodies: match body_at(b, words, 3) {
                    Some(body) => seq![BodyView { range: body, ns: qname, mode, scope: body }],
                    None => seq![],
                },
                ..EffectView::none()
            }
        } else {
            EffectView::none()
        },
        _ => EffectView::none(),
    }
}

/// A definition with no name of its own, a `constructor` or `destructor`, with its
/// body in word `at` and its parameters in the word before, if it can have any.
pub open spec fn unnamed(
    b: Seq<u8>,
    c: CommandView,
    words: Seq<Seq<Token>>,
    ns: Seq<char>,
    name: Seq<char>,
    kind: SymbolKind,
    at: int,
) -> EffectView {
    let range = if c.tokens.len() > 0 {
        c.tokens[0].span()
    } else {
        c.range
    };
    let sym = symbol(b, c, kind, name, qualified(ns, name), range, body_at(b, words, at));
    match body_at(b, words, at) {
        Some(body) => EffectView {
            symbol: Some(sym),
            bodies: seq![BodyView { range: body, ns, mode: Mode::Script, scope: body }],
            ..EffectView::binding(
                if at > 1 {
                    parameters(b, words, at - 1, body)
                } else {
                    seq![]
                },
            )
        },
        None => EffectView { symbol: Some(sym), ..EffectView::none() },
    }
}

/// The variables that a class declares in the words from `k` on.
pub open spec fn class_variables(
    b: Seq<u8>,
    c: CommandView,
    words: Seq<Seq<Token>>,
    ns: Seq<char>,
    k: int,
) -> Seq<SymbolView>
    decreases words.len() - k,
{
    if k < 0 || k >= words.len() {
        seq![]
    } else {
        (match (literal_at(b, words, k), span_at(words, k)) {
            (Some(name), Some(range)) => seq![
                SymbolView {
                    doc: None,
                    ..symbol(b, c, SymbolKind::Variable, name, qualified(ns, name), range, None)
                },
            ],
            _ => seq![],
        }) + class_variables(b, c, words, ns, k + 1)
    }
}

fn doc(script: &Script, cmd: &Command) -> (r: Option<String>)
    ensures
        text_option(r) == doc_of(script@, cmd@),
{
    match &cmd.comment {
        Some(range) => match script.text(range.start..range.end) {
            Some(raw) => documentation(raw),
            None => None,
        },
        None => None,
    }
}

fn end_without_terminator(script: &Script, cmd: &Command) -> (end: usize)
    ensures
        end == end_of(script@, cmd@),
{
    let bytes = script.as_bytes();
    let n: usize = cmd.tokens.len();
    if cmd.range.start >= cmd.range.end || cmd.range.end > bytes.len() || n == 0 {
        return cmd.range.end;
    }
    let last: usize = cmd.range.end - 1;
    let t = &cmd.tokens[n - 1];
    if t.start <= last && t.size <= last - t.start && (bytes[last] == NEWLINE || bytes[last]
        == SEMICOLON) {
        last
    } else {
        cmd.range.end
    }
}

fn new_symbol(
    script: &Script,
    cmd: &Command,
    kind: SymbolKind,
    name: String,
    qname: String,
    name_range: Range<usize>,
    body: Option<Range<usize>>,
    detail: Option<String>,
) -> (s: Symbol)
    ensures
        s@ == (SymbolView {
            detail: text_option(detail),
            ..symbol(script@, cmd@, kind, name@, qname@, name_range, body)
        }),
{
    let s = Symbol {
        kind,
        name,
        qname,
        name_range,
        full_range: cmd.range.start..cmd.range.end,
        end: end_without_terminator(script, cmd),
        body,
        detail,
        doc: doc(script, cmd),
        children: Vec::new(),
    };
    proof {
        lemma_symbol_children(s);
        assert(s@.children =~= seq![]);
    }
    s
}

fn no_effect() -> (e: Effect)
    ensures
        e@ == EffectView::none(),
{
    let e = Effect { found: Outline::default(), symbol: None, bodies: Vec::new() };
    assert(e@ =~= EffectView::none());
    e
}

fn binding_effect(variables: Vec<VarDef>) -> (e: Effect)
    ensures
        e@ == EffectView::binding(var_views(variables@)),
{
    let mut found = Outline::default();
    found.variables = variables;
    let e = Effect { found, symbol: None, bodies: Vec::new() };
    assert(e@ =~= EffectView::binding(var_views(variables@)));
    e
}

fn routine_effect(
    script: &Script,
    cmd: &Command,
    words: &Vec<&[Token]>,
    ns: &str,
    kind: SymbolKind,
) -> (e: Effect)
    requires
        all_readable(slices_view(words@)),
    ensures
        e@ == routine(script@, cmd@, slices_view(words@), ns@, kind),
{
    match (literal_word(script, words, 1), range_word(words, 1)) {
        (Some(name), Some(range)) => {
            let detail = literal_word(script, words, 2);
            let sym = new_symbol(
                script,
                cmd,
                kind,
                last_segment(name.as_str()),
                qualify(ns, name.as_str()),
                range,
                body_word(script, words, 3),
                detail,
            );
            match body_word(script, words, 3) {
                Some(body) => {
                    let inner = match kind {
                        SymbolKind::Proc => container_of(ns, name.as_str()),
                        _ => ns.to_owned(),
                    };
                    let mut e = binding_effect(bind_parameters(script, words, 2, &body));
                    let walked = Body {
                        range: body.clone(),
                        ns: inner,
                        mode: Mode::Script,
                        scope: body,
                    };
                    e.bodies.push(walked);
                    e.symbol = Some(sym);
                    assert(e@ =~= routine(script@, cmd@, slices_view(words@), ns@, kind));
                    e
                },
                None => {
                    let mut e = no_effect();
                    e.symbol = Some(sym);
                    assert(e@ =~= routine(script@, cmd@, slices_view(words@), ns@, kind));
                    e
                },
            }
        },
        _ => no_effect(),
    }
}

fn block_effect(
    script: &Script,
    cmd: &Command,
    words: &Vec<&[Token]>,
    ns: &str,
    subcommand: &str,
    kind: SymbolKind,
    mode: Mode,
) -> (e: Effect)
    requires
        all_readable(slices_view(words@)),
    ensures
        e@ == block(script@, cmd@, slices_view(words@), ns@, subcommand@, kind, mode),
{
    match (literal_word(script, words, 1), literal_word(script, words, 2)) {
        (Some(sub), Some(name)) => {
            if !same_text(sub.as_str(), subcommand) {
                return no_effect();
            }
            let qname = qualify(ns, name.as_str());
            let range = match range_word(words, 2) {
                Some(r) => r,
                None => cmd.range.clone(),
            };
            let mut e = no_effect();
            if let Some(body) = body_word(script, words, 3) {
                let walked = Body {
                    range: body.clone(),
                    ns: qname.clone(),
                    mode,
                    scope: body,
                };
                e.bodies.push(walked);
            }
            e.symbol = Some(
                new_symbol(
                    script,
                    cmd,
                    kind,
                    last_segment(name.as_str()),
                    qname,
                    range,
                    body_word(script, words, 3),
                    None,
                ),
            );
            assert(e@ =~= block(
                script@,
                cmd@,
                slices_view(words@),
                ns@,
                subcommand@,
                kind,
                mode,
            ));
            e
        },
        _ => no_effect(),
    }
}

fn unnamed_effect(
    script: &Script,
    cmd: &Command,
    words: &Vec<&[Token]>,
    ns: &str,
    name: &str,
    kind: SymbolKind,
    at: usize,
) -> (e: Effect)
    requires
        all_readable(slices_view(words@)),
        readable(cmd.tokens@),
        at >= 1,
    ensures
        e@ == unnamed(script@, cmd@, slices_view(words@), ns@, name@, kind, at as int),
{
    let range = if cmd.tokens.len() > 0 {
        cmd.tokens[0].range()
    } else {
        cmd.range.clone()
    };
    let sym = new_symbol(
        script,
        cmd,
        kind,
        name.to_owned(),
        qualify(ns, name),
        range,
        body_word(script, words, at),
        None,
    );
    match body_word(script, words, at) {
        Some(body) => {
            let variables = if at > 1 {
                bind_parameters(script, words, at - 1, &body)
            } else {
                Vec::new()
            };
            let ghost bound = var_views(variables@);
            let mut e = binding_effect(variables);
            let walked = Body {
                range: body.clone(),
                ns: ns.to_owned(),
                mode: Mode::Script,
                scope: body,
            };
            e.bodies.push(walked);
            e.symbol = Some(sym);
            proof {
                if at <= 1 {
                    assert(bound =~= seq![]);
                }
                assert(e@ =~= unnamed(
                    script@,
                    cmd@,
                    slices_view(words@),
                    ns@,
                    name@,
                    kind,
                    at as int,
                ));
            }
            e
        },
        None => {
            let mut e = no_effect();
            e.symbol = Some(sym);
            assert(e@ =~= unnamed(
                script@,
                cmd@,
                slices_view(words@),
                ns@,
                name@,
                kind,
                at as int,
            ));
            e
        },
    }
}

fn class_variables_effect(script: &Script, cmd: &Command, words: &Vec<&[Token]>, ns: &str) -> (e:
    Effect)
    requires
        all_readable(slices_view(words@)),
    ensures
        e@ == (EffectView {
            found: Found {
                symbols: class_variables(script@, cmd@, slices_view(words@), ns@, 1),
                ..Found::none()
            },
            ..EffectView::none()
        }),
{
    let ghost all = slices_view(words@);
    let mut out: Vec<Symbol> = Vec::new();
    let mut k: usize = 1;
    let ghost whole = class_variables(script@, cmd@, all, ns@, 1);
    assert(symbol_views(out@) + whole =~= whole);
    while k < words.len()
        invariant
            1 <= k,
            all == slices_view(words@),
            all_readable(all),
            whole == symbol_views(out@) + class_variables(script@, cmd@, all, ns@, k as int),
        decreases words@.len() - k,
    {
        let ghost before = out@;
        let ghost rest = class_variables(script@, cmd@, all, ns@, k + 1);
        let ghost mut step: Seq<SymbolView> = seq![];
        match (literal_word(script, words, k), range_word(words, k)) {
            (Some(name), Some(range)) => {
                let qname = qualify(ns, name.as_str());
                let mut sym = new_symbol(
                    script,
                    cmd,
                    SymbolKind::Variable,
                    name,
                    qname,
                    range,
                    None,
                    None,
                );
                let ghost described = sym;
                sym.doc = None;
                proof {
                    lemma_symbol_children(described);
                    lemma_symbol_children(sym);
                    step = seq![sym@];
                }
                out.push(sym);
            },
            _ => {},
        }
        proof {
            assert(symbol_views(out@) =~= symbol_views(before) + step);
            assert(symbol_views(before) + (step + rest) =~= (symbol_views(before) + step) + rest);
        }
        k = k + 1;
    }
    assert(symbol_views(out@) + Seq::<SymbolView>::empty() =~= symbol_views(out@));
    let mut e = no_effect();
    e.found.symbols = out;
    assert(e.found@ =~= Found { symbols: whole, ..Found::none() });
    e
}

// --------------------------------------------------------------- control flow
/// Position `i`, if the command has a word there.
pub open spec fn place(words: Seq<Seq<Token>>, i: int) -> Seq<int> {
    if 0 <= i < words.len() {
        seq![i]
    } else {
        seq![]
    }
}

/// The script positions of an `if`, from word `i` on: the bodies of `elseif` and
/// `else`, and one written without the `else` keyword.
pub open spec fn if_bodies(b: Seq<u8>, words: Seq<Seq<Token>>, i: int) -> Seq<int>
    decreases words.len() - i + 4,
{
    if i < 0 || i >= words.len() {
        seq![]
    } else {
        match literal_of(b, words[i]) {
            Some(t) => if t == "elseif"@ {
                place(words, i + 2) + if_bodies(b, words, i + 3)
            } else if t == "then"@ {
                if_bodies(b, words, i + 1)
            } else if t == "else"@ {
                place(words, i + 1) + if_bodies(b, words, i + 2)
            } else {
                place(words, i) + if_bodies(b, words, i + 1)
            },
            None => place(words, i) + if_bodies(b, words, i + 1),
        }
    }
}

/// The script positions of a `try`, from word `i` on: its handlers and `finally`.
pub open spec fn try_bodies(b: Seq<u8>, words: Seq<Seq<Token>>, i: int) -> Seq<int>
    decreases words.len() - i + 4,
{
    if i < 0 || i >= words.len() {
        seq![]
    } else {
        match literal_of(b, words[i]) {
            Some(t) => if t == "on"@ || t == "trap"@ {
                place(words, i + 3) + try_bodies(b, words, i + 4)
            } else if t == "finally"@ {
                place(words, i + 1) + try_bodies(b, words, i + 2)
            } else {
                try_bodies(b, words, i + 1)
            },
            None => try_bodies(b, words, i + 1),
        }
    }
}

/// Which argument positions of `head` hold a script.
///
/// Tcl gives no syntactic way to tell a script from an expression or a value, so
/// the distinction is made per command, and nothing else is descended into.
pub open spec fn script_args(b: Seq<u8>, head: Seq<char>, words: Seq<Seq<Token>>) -> Seq<int> {
    if head == "if"@ {
        place(words, 2) + if_bodies(b, words, 3)
    } else if head == "while"@ {
        place(words, 2)
    } else if head == "for"@ {
        place(words, 1) + place(words, 3) + place(words, 4)
    } else if head == "catch"@ || head == "time"@ || head == "coroutine"@ {
        place(words, 1)
    } else if head == "try"@ {
        place(words, 1) + try_bodies(b, words, 2)
    } else if head == "uplevel"@ {
        place(words, words.len() - 1)
    } else {
        seq![]
    }
}

/// The braced words among the given positions, as scripts in the same scope.
pub open spec fn bodies_at(
    b: Seq<u8>,
    words: Seq<Seq<Token>>,
    positions: Seq<int>,
    k: int,
    ns: Seq<char>,
    scope: Range<usize>,
) -> Seq<BodyView>
    decreases positions.len() - k,
{
    if k < 0 || k >= positions.len() {
        seq![]
    } else {
        body_here(b, words, positions[k], ns, scope) + bodies_at(
            b,
            words,
            positions,
            k + 1,
            ns,
            scope,
        )
    }
}

/// The script in word `i`, if that is braced.
pub open spec fn body_here(
    b: Seq<u8>,
    words: Seq<Seq<Token>>,
    i: int,
    ns: Seq<char>,
    scope: Range<usize>,
) -> Seq<BodyView> {
    if 0 <= i < words.len() && is_braced(b, words[i]) {
        match body_of(b, words[i]) {
            Some(range) => seq![BodyView { range, ns, mode: Mode::Script, scope }],
            None => seq![],
        }
    } else {
        seq![]
    }
}

/// The last braced word before word `n`, after the first two.
pub open spec fn last_braced(b: Seq<u8>, words: Seq<Seq<Token>>, n: int) -> Option<int>
    decreases n,
{
    if n <= 2 || n > words.len() {
        None
    } else if is_braced(b, words[n - 1]) {
        Some(n - 1)
    } else {
        last_braced(b, words, n - 1)
    }
}

/// `foreach names list body` and its like: the names are bound, and the last
/// braced word is the body.
pub open spec fn iteration(
    b: Seq<u8>,
    c: CommandView,
    words: Seq<Seq<Token>>,
    ns: Seq<char>,
    scope: Range<usize>,
) -> EffectView {
    EffectView {
        bodies: match last_braced(b, words, words.len() as int) {
            Some(i) => body_here(b, words, i, ns, scope),
            None => seq![],
        },
        ..EffectView::binding(
            match literal_at(b, words, 1) {
                Some(names) => bindings(
                    split_words(names),
                    0,
                    match span_at(words, 1) {
                        Some(r) => r,
                        None => c.range,
                    },
                    scope,
                ),
                None => seq![],
            },
        )
    }
}

spec fn positions(v: Seq<usize>) -> Seq<int> {
    v.map_values(|i: usize| i as int)
}

fn push_place(out: &mut Vec<usize>, words: &Vec<&[Token]>, i: usize, step: usize)
    ensures
        positions(final(out)@) == positions(old(out)@) + place(slices_view(words@), i + step),
{
    if i < words.len() && step < words.len() - i {
        out.push(i + step);
        assert(positions(out@) =~= positions(old(out)@) + seq![i + step]);
    } else {
        assert(positions(out@) =~= positions(old(out)@) + Seq::<int>::empty());
    }
}

fn advance(i: usize, step: usize, n: usize) -> (r: usize)
    requires
        i < n,
        0 < step,
    ensures
        r == (if i + step < n {
            i + step
        } else {
            n as int
        }),
{
    if step < n - i {
        i + step
    } else {
        n
    }
}

fn more_if_bodies(script: &Script, words: &Vec<&[Token]>, out: &mut Vec<usize>)
    requires
        all_readable(slices_view(words@)),
    ensures
        positions(final(out)@) == positions(old(out)@) + if_bodies(
            script@,
            slices_view(words@),
            3,
        ),
{
    let ghost all = slices_view(words@);
    let ghost before = positions(out@);
    let ghost whole = if_bodies(script@, all, 3);
    let ghost mut acc: Seq<int> = seq![];
    let n = words.len();
    let mut i: usize = 3;
    assert(acc + whole =~= whole);
    assert(before + acc =~= before);
    while i < n
        invariant
            all == slices_view(words@),
            all_readable(all),
            n == words@.len(),
            i >= 3,
            positions(out@) == before + acc,
            whole == acc + if_bodies(script@, all, i as int),
        decreases n - i,
    {
        let ghost mut step: Seq<int> = seq![];
        let here = literal_word(script, words, i);
        let (at, by): (usize, usize) = match &here {
            Some(t) => if same_text(t.as_str(), "elseif") {
                (2, 3)
            } else if same_text(t.as_str(), "then") {
                (0, 0)
            } else if same_text(t.as_str(), "else") {
                (1, 2)
            } else {
                (0, 1)
            },
            None => (0, 1),
        };
        if by > 0 {
            push_place(out, words, i, at);
            proof {
                step = place(all, i + at);
            }
        }
        let jump: usize = if by > 0 {
            by
        } else {
            1
        };
        let next = advance(i, jump, n);
        proof {
            let rest = if_bodies(script@, all, next as int);
            assert(if_bodies(script@, all, i + jump) == rest);
            assert(if_bodies(script@, all, i as int) =~= step + rest);
            assert(acc + (step + rest) =~= (acc + step) + rest);
            assert(before + (acc + step) =~= (before + acc) + step);
            acc = acc + step;
        }
        i = next;
    }
    proof {
        assert(acc + Seq::<int>::empty() =~= acc);
    }
}

fn more_try_bodies(script: &Script, words: &Vec<&[Token]>, out: &mut Vec<usize>)
    requires
        all_readable(slices_view(words@)),
    ensures
        positions(final(out)@) == positions(old(out)@) + try_bodies(
            script@,
            slices_view(words@),
            2,
        ),
{
    let ghost all = slices_view(words@);
    let ghost before = positions(out@);
    let ghost whole = try_bodies(script@, all, 2);
    let ghost mut acc: Seq<int> = seq![];
    let n = words.len();
    let mut i: usize = 2;
    assert(acc + whole =~= whole);
    assert(before + acc =~= before);
    while i < n
        invariant
            all == slices_view(words@),
            all_readable(all),
            n == words@.len(),
            i >= 2,
            positions(out@) == before + acc,
            whole == acc + try_bodies(script@, all, i as int),
        decreases n - i,
    {
        let ghost mut step: Seq<int> = seq![];
        let here = literal_word(script, words, i);
        let (at, by): (usize, usize) = match &here {
            Some(t) => if same_text(t.as_str(), "on") || same_text(t.as_str(), "trap") {
                (3, 4)
            } else if same_text(t.as_str(), "finally") {
                (1, 2)
            } else {
                (0, 1)
            },
            None => (0, 1),
        };
        if at > 0 {
            push_place(out, words, i, at);
            proof {
                step = place(all, i + at);
            }
        }
        let next = advance(i, by, n);
        proof {
            let rest = try_bodies(script@, all, next as int);
            assert(try_bodies(script@, all, i + by) == rest);
            assert(try_bodies(script@, all, i as int) =~= step + rest);
            assert(acc + (step + rest) =~= (acc + step) + rest);
            assert(before + (acc + step) =~= (before + acc) + step);
            acc = acc + step;
        }
        i = next;
    }
    proof {
        assert(acc + Seq::<int>::empty() =~= acc);
    }
}

/// Which argument positions of `head` hold a script.
fn script_positions(script: &Script, head: &str, words: &Vec<&[Token]>) -> (out: Vec<usize>)
    requires
        all_readable(slices_view(words@)),
    ensures
        positions(out@) == script_args(script@, head@, slices_view(words@)),
{
    let ghost all = slices_view(words@);
    let mut out: Vec<usize> = Vec::new();
    assert(positions(out@) =~= seq![]);
    if same_text(head, "if") {
        push_place(&mut out, words, 0, 2);
        more_if_bodies(script, words, &mut out);
        assert(Seq::<int>::empty() + place(all, 2) =~= place(all, 2));
    } else if same_text(head, "while") {
        push_place(&mut out, words, 0, 2);
        assert(positions(out@) =~= place(all, 2));
    } else if same_text(head, "for") {
        push_place(&mut out, words, 0, 1);
        push_place(&mut out, words, 0, 3);
        push_place(&mut out, words, 0, 4);
        assert(positions(out@) =~= place(all, 1) + place(all, 3) + place(all, 4));
    } else if same_text(head, "catch") || same_text(head, "time") || same_text(head, "coroutine") {
        push_place(&mut out, words, 0, 1);
        assert(positions(out@) =~= place(all, 1));
    } else if same_text(head, "try") {
        push_place(&mut out, words, 0, 1);
        more_try_bodies(script, words, &mut out);
        assert(Seq::<int>::empty() + place(all, 1) =~= place(all, 1));
    } else if same_text(head, "uplevel") {
        if words.len() > 0 {
            push_place(&mut out, words, 0, words.len() - 1);
        }
        assert(positions(out@) =~= place(all, all.len() - 1));
    }
    out
}

fn push_body(
    out: &mut Vec<Body>,
    script: &Script,
    words: &Vec<&[Token]>,
    i: usize,
    ns: &str,
    scope: &Range<usize>,
)
    requires
        all_readable(slices_view(words@)),
        i < words@.len(),
    ensures
        body_views(final(out)@) == body_views(old(out)@) + body_here(
            script@,
            slices_view(words@),
            i as int,
            ns@,
            *scope,
        ),
{
    assert(slices_view(words@)[i as int] == words@[i as int]@);
    if braced_word(script, words, i) {
        if let Some(range) = body_range(script, words[i]) {
            out.push(Body { range, ns: ns.to_owned(), mode: Mode::Script, scope: scope.clone() });
        }
    }
    assert(body_views(out@) =~= body_views(old(out)@) + body_here(
        script@,
        slices_view(words@),
        i as int,
        ns@,
        *scope,
    ));
}

fn control_effect(
    script: &Script,
    head: &str,
    words: &Vec<&[Token]>,
    ns: &str,
    scope: &Range<usize>,
) -> (e: Effect)
    requires
        all_readable(slices_view(words@)),
    ensures
        e@ == (EffectView {
            bodies: bodies_at(
                script@,
                slices_view(words@),
                script_args(script@, head@, slices_view(words@)),
                0,
                ns@,
                *scope,
            ),
            ..EffectView::none()
        }),
{
    let ghost all = slices_view(words@);
    let places = script_positions(script, head, words);
    let ghost at = positions(places@);
    let mut out: Vec<Body> = Vec::new();
    let ghost whole = bodies_at(script@, all, at, 0, ns@, *scope);
    let mut k: usize = 0;
    assert(body_views(out@) + whole =~= whole);
    while k < places.len()
        invariant
            k <= places@.len(),
            at == positions(places@),
            all == slices_view(words@),
            all_readable(all),
            whole == body_views(out@) + bodies_at(script@, all, at, k as int, ns@, *scope),
        decreases places@.len() - k,
    {
        let i = places[k];
        assert(at[k as int] == i);
        let ghost before = body_views(out@);
        let ghost step = body_here(script@, all, i as int, ns@, *scope);
        let ghost rest = bodies_at(script@, all, at, k + 1, ns@, *scope);
        if i < words.len() {
            push_body(&mut out, script, words, i, ns, scope);
        } else {
            assert(before + step =~= before);
        }
        assert(before + (step + rest) =~= (before + step) + rest);
        k = k + 1;
    }
    assert(body_views(out@) + Seq::<BodyView>::empty() =~= body_views(out@));
    let mut e = no_effect();
    e.bodies = out;
    e
}

fn iteration_effect(
    script: &Script,
    cmd: &Command,
    words: &Vec<&[Token]>,
    ns: &str,
    scope: &Range<usize>,
) -> (e: Effect)
    requires
        all_readable(slices_view(words@)),
    ensures
        e@ == iteration(script@, cmd@, slices_view(words@), ns@, *scope),
{
    let ghost all = slices_view(words@);
    let variables = match literal_word(script, words, 1) {
        Some(names) => {
            let range = match range_word(words, 1) {
                Some(r) => r,
                None => cmd.range.clone(),
            };
            bind_all(word_strings(names.as_str()), &range, scope)
        },
        None => Vec::new(),
    };
    proof {
        if literal_at(script@, all, 1) is None {
            assert(var_views(variables@) =~= seq![]);
        }
    }
    let mut e = binding_effect(variables);
    let mut n: usize = words.len();
    while n > 2 && !braced_word(script, words, n - 1)
        invariant
            n <= words@.len(),
            all == slices_view(words@),
            all_readable(all),
            last_braced(script@, all, all.len() as int) == last_braced(script@, all, n as int),
        decreases n,
    {
        n = n - 1;
    }
    assert(body_views(e.bodies@) =~= seq![]);
    if n > 2 {
        push_body(&mut e.bodies, script, words, n - 1, ns, scope);
    }
    assert(e@ =~= iteration(script@, cmd@, all, ns@, *scope));
    e
}

// ---------------------------------------------------------------------- links
/// `source ?options? file`: the last word names the file.
pub open spec fn source_link(b: Seq<u8>, words: Seq<Seq<Token>>) -> Seq<LinkView> {
    if words.len() < 2 {
        seq![]
    } else {
        link(b, words, LinkKind::Source, words.len() - 1)
    }
}

/// The mention in word `i`, if that is a literal.
pub open spec fn link(b: Seq<u8>, words: Seq<Seq<Token>>, kind: LinkKind, i: int) -> Seq<LinkView> {
    match (literal_at(b, words, i), span_at(words, i)) {
        (Some(name), Some(range)) => seq![LinkView { kind, name, range }],
        _ => seq![],
    }
}

/// `package require ?-exact? name` and `package provide name`.
pub open spec fn package(b: Seq<u8>, words: Seq<Seq<Token>>) -> Found {
    match literal_at(b, words, 1) {
        Some(sub) => if sub == "require"@ {
            let at = if literal_at(b, words, 2) == Some("-exact"@) {
                3int
            } else {
                2int
            };
            Found { links: link(b, words, LinkKind::PackageRequire, at), ..Found::none() }
        } else if sub == "provide"@ {
            Found {
                provides: match (literal_at(b, words, 2), span_at(words, 2)) {
                    (Some(name), Some(range)) => seq![ProvideView { name, range }],
                    _ => seq![],
                },
                ..Found::none()
            }
        } else {
            Found::none()
        },
        None => Found::none(),
    }
}

fn link_word(script: &Script, words: &Vec<&[Token]>, kind: LinkKind, i: usize) -> (out: Outline)
    requires
        all_readable(slices_view(words@)),
    ensures
        out@ == (Found {
            links: link(script@, slices_view(words@), kind, i as int),
            ..Found::none()
        }),
{
    let mut out = Outline::default();
    let ghost expected = link(script@, slices_view(words@), kind, i as int);
    match (literal_word(script, words, i), range_word(words, i)) {
        (Some(name), Some(range)) => {
            out.links.push(LinkRef { kind, name, range });
        },
        _ => {},
    }
    assert(out@ =~= Found { links: expected, ..Found::none() });
    out
}

fn package_found(script: &Script, words: &Vec<&[Token]>) -> (out: Outline)
    requires
        all_readable(slices_view(words@)),
    ensures
        out@ == package(script@, slices_view(words@)),
{
    let ghost all = slices_view(words@);
    match literal_word(script, words, 1) {
        Some(sub) => {
            if same_text(sub.as_str(), "require") {
                let exact = match literal_word(script, words, 2) {
                    Some(t) => same_text(t.as_str(), "-exact"),
                    None => false,
                };
                let at: usize = if exact {
                    3
                } else {
                    2
                };
                link_word(script, words, LinkKind::PackageRequire, at)
            } else if same_text(sub.as_str(), "provide") {
                let mut out = Outline::default();
                match (literal_word(script, words, 2), range_word(words, 2)) {
                    (Some(name), Some(range)) => {
                        out.provides.push(Provide { name, range });
                    },
                    _ => {},
                }
                assert(out@ =~= package(script@, all));
                out
            } else {
                Outline::default()
            }
        },
        None => Outline::default(),
    }
}

// ------------------------------------------------------------------- commands
/// Whether the command binds the variable that its first argument names.
pub open spec fn is_binder(head: Seq<char>) -> bool {
    ||| head == "set"@
    ||| head == "variable"@
    ||| head == "global"@
    ||| head == "incr"@
    ||| head == "append"@
    ||| head == "lappend"@
}

/// What one command does by itself, by its name.
pub open spec fn effect(
    b: Seq<u8>,
    c: CommandView,
    head: Seq<char>,
    ns: Seq<char>,
    mode: Mode,
    scope: Range<usize>,
) -> EffectView {
    let words = words_of(c.tokens);
    match mode {
        Mode::Script => if head == "proc"@ {
            routine(b, c, words, ns, SymbolKind::Proc)
        } else if head == "namespace"@ {
            block(b, c, words, ns, "eval"@, SymbolKind::Namespace, Mode::Script)
        } else if head == "oo::class"@ {
            block(b, c, words, ns, "create"@, SymbolKind::Class, Mode::ClassBody)
        } else if is_binder(head) {
            EffectView::binding(target(b, words, 1, scope))
        } else if head == "foreach"@ || head == "lmap"@ {
            iteration(b, c, words, ns, scope)
        } else if head == "lassign"@ {
            EffectView::binding(targets(b, words, 2, scope))
        } else if head == "source"@ {
            EffectView {
                found: Found { links: source_link(b, words), ..Found::none() },
                ..EffectView::none()
            }
        } else if head == "package"@ {
            EffectView { found: package(b, words), ..EffectView::none() }
        } else {
            EffectView {
                bodies: bodies_at(b, words, script_args(b, head, words), 0, ns, scope),
                ..EffectView::none()
            }
        },
        Mode::ClassBody => if head == "method"@ {
            routine(b, c, words, ns, SymbolKind::Method)
        } else if head == "constructor"@ {
            unnamed(b, c, words, ns, "constructor"@, SymbolKind::Constructor, 2)
        } else if head == "destructor"@ {
            unnamed(b, c, words, ns, "destructor"@, SymbolKind::Destructor, 1)
        } else if head == "variable"@ {
            EffectView {
                found: Found {
                    symbols: class_variables(b, c, words, ns, 1),
                    ..Found::none()
                },
                ..EffectView::none()
            }
        } else {
            EffectView::none()
        },
    }
}

/// The variable references among the tokens from `k` on: each Variable token with
/// the name that follows it.
pub open spec fn variable_refs(b: Seq<u8>, tokens: Seq<Token>, k: int, ns: Seq<char>) -> Seq<
    RefView,
>
    decreases tokens.len() - k,
{
    if k < 0 || k >= tokens.len() {
        seq![]
    } else {
        variable_ref(b, tokens, k, ns) + variable_refs(b, tokens, k + 1, ns)
    }
}

pub open spec fn variable_ref(b: Seq<u8>, tokens: Seq<Token>, k: int, ns: Seq<char>) -> Seq<
    RefView,
> {
    if tokens[k].kind is Variable && k + 1 < tokens.len() && tokens[k + 1].kind is Text {
        match token_text(b, tokens[k + 1]) {
            Some(name) => seq![
                RefView {
                    kind: RefKind::Variable,
                    name,
                    range: tokens[k + 1].span(),
                    namespace: ns,
                },
            ],
            None => seq![],
        }
    } else {
        seq![]
    }
}

fn collect_variable_refs(script: &Script, cmd: &Command, ns: &str) -> (out: Vec<Ref>)
    requires
        readable(cmd.tokens@),
    ensures
        ref_views(out@) == variable_refs(script@, cmd.tokens@, 0, ns@),
{
    let mut out: Vec<Ref> = Vec::new();
    let tokens = &cmd.tokens;
    let ghost whole = variable_refs(script@, tokens@, 0, ns@);
    let mut k: usize = 0;
    assert(ref_views(out@) + whole =~= whole);
    while k < tokens.len()
        invariant
            k <= tokens@.len(),
            readable(tokens@),
            whole == ref_views(out@) + variable_refs(script@, tokens@, k as int, ns@),
        decreases tokens@.len() - k,
    {
        let ghost before = ref_views(out@);
        let ghost step = variable_ref(script@, tokens@, k as int, ns@);
        let ghost rest = variable_refs(script@, tokens@, k + 1, ns@);
        if matches!(tokens[k].kind, TokenKind::Variable) && k < tokens.len() - 1 && matches!(
            tokens[k + 1].kind,
            TokenKind::Text
        ) {
            let name = &tokens[k + 1];
            if let Some(text) = script.text(name.range()) {
                out.push(
                    Ref {
                        kind: RefKind::Variable,
                        name: text.to_owned(),
                        range: name.range(),
                        namespace: ns.to_owned(),
                    },
                );
            }
        }
        assert(ref_views(out@) =~= before + step);
        assert(before + (step + rest) =~= (before + step) + rest);
        k = k + 1;
    }
    assert(ref_views(out@) + Seq::<RefView>::empty() =~= ref_views(out@));
    out
}

pub open spec fn ref_views(v: Seq<Ref>) -> Seq<RefView> {
    v.map_values(|r: Ref| r@)
}

/// What is seen of a command before its effect: its comment, the variables that it
/// reads, and itself as a reference.
pub open spec fn sighting(
    b: Seq<u8>,
    c: CommandView,
    head: Option<Seq<char>>,
    ns: Seq<char>,
) -> Found {
    let vars = variable_refs(b, c.tokens, 0, ns);
    Found {
        refs: match (head, span_at(words_of(c.tokens), 0)) {
            (Some(name), Some(range)) => vars.push(
                RefView { kind: RefKind::Command, name, range, namespace: ns },
            ),
            _ => vars,
        },
        comments: match c.comment {
            Some(r) => seq![r],
            None => seq![],
        },
        ..Found::none()
    }
}

/// The definition with what its bodies hold as its children; with no definition,
/// just what the bodies hold.
pub open spec fn enclosed(symbol: Option<SymbolView>, inner: Found) -> Found {
    match symbol {
        Some(s) => Found {
            symbols: seq![SymbolView { children: inner.symbols, ..s }],
            ..inner
        },
        None => inner,
    }
}

/// What a command shows: itself, its effect, and what its bodies hold. A command
/// with a computed name shows only the variables that it reads.
pub open spec fn walk_command(
    b: Seq<u8>,
    c: CommandView,
    ns: Seq<char>,
    mode: Mode,
    scope: Range<usize>,
    depth: nat,
) -> Found
    decreases depth, 1int, 0nat,
{
    let head = literal_at(b, words_of(c.tokens), 0);
    let seen = sighting(b, c, head, ns);
    match head {
        None => seen,
        Some(name) => {
            let e = effect(b, c, without_root(name), ns, mode, scope);
            if depth == 0 {
                seen
            } else {
                seen.plus(e.found).plus(
                    enclosed(e.symbol, walk_bodies(b, e.bodies, 0, (depth - 1) as nat)),
                )
            }
        },
    }
}

/// What the bodies from `k` on show.
pub open spec fn walk_bodies(b: Seq<u8>, bodies: Seq<BodyView>, k: int, depth: nat) -> Found
    decreases depth, 4int, bodies.len() - k,
{
    if k < 0 || k >= bodies.len() {
        Found::none()
    } else {
        walk(
            b,
            bodies[k].range,
            bodies[k].ns,
            bodies[k].mode,
            bodies[k].scope,
            depth,
        ).plus(walk_bodies(b, bodies, k + 1, depth))
    }
}

/// A parse error, at the byte where the parser gave up.
pub open spec fn syntax_error(b: Seq<u8>, e: ParseError) -> ErrorView {
    let at = if e.offset < b.len() {
        e.offset as int
    } else {
        b.len() as int
    };
    ErrorView {
        range: Range {
            start: at as usize,
            end: (if at < b.len() {
                at + 1
            } else {
                at
            }) as usize,
        },
        message: if e.incomplete {
            "unterminated command: missing a closing brace, bracket or quote"@
        } else {
            "syntax error"@
        },
        incomplete: e.incomplete,
    }
}

/// What a list of commands shows; an error ends it.
pub open spec fn walk_commands(
    b: Seq<u8>,
    all: Seq<Result<CommandView, ParseError>>,
    ns: Seq<char>,
    mode: Mode,
    scope: Range<usize>,
    depth: nat,
) -> Found
    decreases depth, 2int, all.len(),
{
    if all.len() == 0 {
        Found::none()
    } else {
        match all[0] {
            Ok(c) => walk_command(b, c, ns, mode, scope, depth).plus(
                walk_commands(b, all.drop_first(), ns, mode, scope, depth),
            ),
            Err(e) => Found { errors: seq![syntax_error(b, e)], ..Found::none() },
        }
    }
}

/// What the script in `range` shows, down to `depth` levels.
pub open spec fn walk(
    b: Seq<u8>,
    range: Range<usize>,
    ns: Seq<char>,
    mode: Mode,
    scope: Range<usize>,
    depth: nat,
) -> Found
    decreases depth, 3int, 0nat,
{
    if depth == 0 {
        Found::none()
    } else {
        walk_commands(
            b,
            commands_within(b, range.start as int, range.end as int),
            ns,
            mode,
            scope,
            depth,
        )
    }
}

/// The outline of a whole file.
pub open spec fn outline_of(b: Seq<u8>) -> Found {
    let whole = Range { start: 0usize, end: b.len() as usize };
    walk(b, whole, seq![':', ':'], Mode::Script, whole, MAX_DEPTH as nat)
}

fn command_effect(
    script: &Script,
    cmd: &Command,
    words: &Vec<&[Token]>,
    head: &str,
    ns: &str,
    mode: Mode,
    scope: &Range<usize>,
) -> (e: Effect)
    requires
        slices_view(words@) == words_of(cmd.tokens@),
        all_readable(slices_view(words@)),
        readable(cmd.tokens@),
    ensures
        e@ == effect(script@, cmd@, head@, ns@, mode, *scope),
{
    match mode {
        Mode::Script => if same_text(head, "proc") {
            routine_effect(script, cmd, words, ns, SymbolKind::Proc)
        } else if same_text(head, "namespace") {
            block_effect(script, cmd, words, ns, "eval", SymbolKind::Namespace, Mode::Script)
        } else if same_text(head, "oo::class") {
            block_effect(script, cmd, words, ns, "create", SymbolKind::Class, Mode::ClassBody)
        } else if same_text(head, "set") || same_text(head, "variable") || same_text(
            head,
            "global",
        ) || same_text(head, "incr") || same_text(head, "append") || same_text(head, "lappend") {
            if words.len() > 1 {
                binding_effect(bind_words(script, words, 1, 2, scope))
            } else {
                let none: Vec<VarDef> = Vec::new();
                assert(var_views(none@) =~= seq![]);
                binding_effect(none)
            }
        } else if same_text(head, "foreach") || same_text(head, "lmap") {
            iteration_effect(script, cmd, words, ns, scope)
        } else if same_text(head, "lassign") {
            binding_effect(bind_words(script, words, 2, words.len(), scope))
        } else if same_text(head, "source") {
            let mut e = no_effect();
            if words.len() >= 2 {
                e.found = link_word(script, words, LinkKind::Source, words.len() - 1);
            }
            e
        } else if same_text(head, "package") {
            let mut e = no_effect();
            e.found = package_found(script, words);
            e
        } else {
            control_effect(script, head, words, ns, scope)
        },
        Mode::ClassBody => if same_text(head, "method") {
            routine_effect(script, cmd, words, ns, SymbolKind::Method)
        } else if same_text(head, "constructor") {
            unnamed_effect(script, cmd, words, ns, "constructor", SymbolKind::Constructor, 2)
        } else if same_text(head, "destructor") {
            unnamed_effect(script, cmd, words, ns, "destructor", SymbolKind::Destructor, 1)
        } else if same_text(head, "variable") {
            class_variables_effect(script, cmd, words, ns)
        } else {
            no_effect()
        },
    }
}

fn seen(script: &Script, cmd: &Command, head: &Option<String>, ns: &str) -> (out: Outline)
    requires
        readable(cmd.tokens@),
    ensures
        out@ == sighting(script@, cmd@, text_option(*head), ns@),
{
    let mut out = Outline::default();
    let words = cmd.words();
    proof {
        lemma_words_readable(cmd.tokens@, 0);
    }
    let mut refs = collect_variable_refs(script, cmd, ns);
    let ghost vars = refs@;
    match (head, range_word(&words, 0)) {
        (Some(name), Some(range)) => {
            refs.push(
                Ref {
                    kind: RefKind::Command,
                    name: name.clone(),
                    range,
                    namespace: ns.to_owned(),
                },
            );
        },
        _ => {},
    }
    out.refs = refs;
    if let Some(r) = &cmd.comment {
        out.comments.push(r.start..r.end);
    }
    assert(out@ =~= sighting(script@, cmd@, text_option(*head), ns@));
    out
}

/// Walks one command.
fn visit_command(
    script: &Script,
    cmd: &Command,
    ns: &str,
    mode: Mode,
    scope: &Range<usize>,
    depth: usize,
) -> (out: Outline)
    requires
        readable(cmd.tokens@),
        depth > 0,
    ensures
        out@ == walk_command(script@, cmd@, ns@, mode, *scope, depth as nat),
    decreases depth, 1int,
{
    let words = cmd.words();
    proof {
        lemma_words_readable(cmd.tokens@, 0);
    }
    let head = literal_word(script, &words, 0);
    let mut out = seen(script, cmd, &head, ns);
    let name = match &head {
        Some(name) => unrooted(name.as_str()),
        None => {
            return out;
        },
    };
    let e = command_effect(script, cmd, &words, name.as_str(), ns, mode, scope);
    let ghost told = e@;
    let Effect { found, symbol, bodies } = e;
    let mut inner = Outline::default();
    let mut k: usize = 0;
    proof {
        let none = Found::none();
        lemma_plus(walk_bodies(script@, told.bodies, 0, (depth - 1) as nat), none, none);
    }
    while k < bodies.len()
        invariant
            k <= bodies@.len(),
            told.bodies == body_views(bodies@),
            depth > 0,
            walk_bodies(script@, told.bodies, 0, (depth - 1) as nat) == inner@.plus(
                walk_bodies(script@, told.bodies, k as int, (depth - 1) as nat),
            ),
        decreases bodies@.len() - k,
    {
        let body = &bodies[k];
        assert(told.bodies[k as int] == body@);
        let part = visit(
            script,
            &body.range,
            body.ns.as_str(),
            body.mode,
            &body.scope,
            depth - 1,
        );
        proof {
            lemma_plus(
                inner@,
                part@,
                walk_bodies(script@, told.bodies, k + 1, (depth - 1) as nat),
            );
        }
        inner.absorb(part);
        k = k + 1;
    }
    proof {
        lemma_plus(inner@, Found::none(), Found::none());
    }
    out.absorb(found);
    let ghost within = inner@;
    match symbol {
        Some(defined) => {
            let mut defined = defined;
            let ghost was = defined;
            let mut symbols: Vec<Symbol> = Vec::new();
            core::mem::swap(&mut inner.symbols, &mut symbols);
            defined.children = symbols;
            proof {
                lemma_symbol_children(defined);
                lemma_symbol_children(was);
            }
            inner.symbols.push(defined);
            assert(inner@ =~= enclosed(Some(was@), within));
        },
        None => {},
    }
    out.absorb(inner);
    out
}

fn error_found(script: &Script, e: ParseError) -> (out: Outline)
    ensures
        out@ == (Found { errors: seq![syntax_error(script@, e)], ..Found::none() }),
{
    let len = script.len();
    let at: usize = if e.offset < len {
        e.offset
    } else {
        len
    };
    let end: usize = if at < len {
        at + 1
    } else {
        at
    };
    let message = if e.incomplete {
        "unterminated command: missing a closing brace, bracket or quote".to_owned()
    } else {
        "syntax error".to_owned()
    };
    let mut out = Outline::default();
    out.errors.push(SyntaxError { range: at..end, message, incomplete: e.incomplete });
    assert(out@ =~= Found { errors: seq![syntax_error(script@, e)], ..Found::none() });
    out
}

/// Walks the script in `range`.
fn visit(
    script: &Script,
    range: &Range<usize>,
    ns: &str,
    mode: Mode,
    scope: &Range<usize>,
    depth: usize,
) -> (out: Outline)
    ensures
        out@ == walk(script@, *range, ns@, mode, *scope, depth as nat),
    decreases depth, 2int,
{
    let mut out = Outline::default();
    if depth == 0 {
        return out;
    }
    let len = script.len();
    let mut it = script.commands_in(range.start..range.end);
    let ghost all = it.remaining();
    let ghost hi = if range.end < len {
        range.end as int
    } else {
        len as int
    };
    let ghost mut at = if range.start < hi {
        range.start as int
    } else {
        hi
    };
    proof {
        commands_are_in_order(script@, at, hi);
        let none = Found::none();
        let whole = walk_commands(script@, all, ns@, mode, *scope, depth as nat);
        lemma_plus(whole, none, none);
    }
    loop
        invariant
            depth > 0,
            0 <= at,
            hi <= usize::MAX,
            in_order(it.remaining(), at, hi),
            walk_commands(script@, all, ns@, mode, *scope, depth as nat) == out@.plus(
                walk_commands(script@, it.remaining(), ns@, mode, *scope, depth as nat),
            ),
            walk(script@, *range, ns@, mode, *scope, depth as nat) == walk_commands(
                script@,
                all,
                ns@,
                mode,
                *scope,
                depth as nat,
            ),
        decreases it.remaining().len(),
    {
        let ghost rest = it.remaining();
        match it.next() {
            None => {
                proof {
                    lemma_plus(out@, Found::none(), Found::none());
                }
                return out;
            },
            Some(Err(e)) => {
                out.absorb(error_found(script, e));
                return out;
            },
            Some(Ok(cmd)) => {
                assert(outcome(Ok(cmd)) == rest[0]);
                let part = visit_command(script, &cmd, ns, mode, scope, depth);
                proof {
                    lemma_plus(
                        out@,
                        part@,
                        walk_commands(
                            script@,
                            rest.drop_first(),
                            ns@,
                            mode,
                            *scope,
                            depth as nat,
                        ),
                    );
                    at = cmd.range.end as int;
                }
                out.absorb(part);
            },
        }
    }
}

/// Builds the outline for a whole file.
pub fn outline(script: &Script) -> (out: Outline)
    ensures
        out@ == outline_of(script@),
{
    let whole = 0..script.len();
    let root = "::";
    proof {
        reveal_strlit("::");
        assert(root@ =~= seq![':', ':']);
    }
    visit(script, &whole, root, Mode::Script, &whole, MAX_DEPTH)
}

} // verus!

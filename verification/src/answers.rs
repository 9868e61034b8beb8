//! What the answers of the server are for, said of the buffers and files that it knows and
//! of what a client is told.
use core::ops::Range;
use vstd::prelude::*;
use vstd::utf8::encode_utf8;

use crate::cursor::{namespace_of, text_before, word_around};
use crate::discovery::lemma_joined;
use crate::document::edited;
use crate::external::{Finding, Severity};
use crate::index::{
    all_defs, defs_of, offered, provider, resolved, signature_of, text_of, uses, DefView,
    HitView, LocView,
};
use crate::kb::{markdown_of, place_of, Command as Builtin, CommandView as BuiltinView, Kb};
use crate::line_index::{offset_of, position_of, LinePos, PositionEncoding};
use crate::lookup::{is_tail, the_last_part_follows_the_last_colons};
use crate::lsp::{
    span_of, DiagnosticView, Highlight, ItemKind, ItemView, Level, LinkView, LocationView,
    MentionView, SignatureView, Span, SymbolInfoView, TextChange,
};
use crate::outline::{arg_names, qualified, ErrorView, LinkKind, RefView, SymbolKind, VarView};
use crate::server::{
    active_parameter, builtin_item, builtin_items, builtin_signature_of, changed,
    completion_answer, definition_answer, definition_item, definition_items,
    definition_markdown, diagnostics_answer, error_diagnostics, finding_diagnostic,
    highlights_answer, hit_infos, hit_locations, hover_answer, location_of, mentions,
    namespace_in_file, notification_of, one_location, open_text, paths_of, proper_uri,
    read_highlights, references_answer, request_of, signature_answer, signature_for,
    use_locations, write_highlights, NotificationKind, RequestKind, ServerView,
    SignatureHelpView,
};
use crate::walker::outline_of;

verus! {

// ------------------------------------------------------------------ locations
/// Whether a text is that of a file as the server knows it: of the open buffer if there is
/// one, else of the indexed file.
pub open spec fn knows(s: ServerView, uri: Seq<char>, t: Seq<u8>) -> bool {
    ||| open_text(s, uri) == Some(t)
    ||| open_text(s, uri) is None && text_of(s.files, uri) == Some(t)
}

/// Whether a span is that of a range of bytes in a text.
pub open spec fn spans(t: Seq<u8>, r: Range<usize>, enc: PositionEncoding, span: Span) -> bool {
    &&& span.start == position_of(t, r.start as int, enc)
    &&& span.end == position_of(t, r.end as int, enc)
}

/// Whether a location is that of a range in a file.
pub open spec fn locates(
    s: ServerView,
    uri: Seq<char>,
    range: Range<usize>,
    l: LocationView,
) -> bool {
    &&& l.uri == uri
    &&& proper_uri(uri)
    &&& exists|t: Seq<u8>| #[trigger] knows(s, uri, t) && spans(t, range, s.encoding, l.span)
}

/// A range is shown where it is in the text that the server knows of its file.
pub proof fn a_location_is_in_the_known_text(
    s: ServerView,
    uri: Seq<char>,
    range: Range<usize>,
    l: LocationView,
)
    ensures
        location_of(s, uri, range) == Some(l) <==> locates(s, uri, range, l),
{
    if location_of(s, uri, range) == Some(l) {
        let t = crate::server::known_text(s, uri)->0;
        assert(knows(s, uri, t));
    }
    if locates(s, uri, range, l) {
        let t = choose|t: Seq<u8>| #[trigger]
            knows(s, uri, t) && spans(t, range, s.encoding, l.span);
        assert(l.span == span_of(t, range, s.encoding));
    }
}

proof fn lemma_hit_locations(s: ServerView, found: Seq<HitView>, k: int, l: LocationView)
    requires
        0 <= k <= found.len(),
    ensures
        hit_locations(s, found, k).contains(l) <==> exists|i: int|
            k <= i < found.len() && locates(
                s,
                (#[trigger] found[i]).uri,
                found[i].def.name_range,
                l,
            ),
    decreases found.len() - k,
{
    if k < found.len() {
        lemma_hit_locations(s, found, k + 1, l);
        let here = one_location(location_of(s, found[k].uri, found[k].def.name_range));
        a_location_is_in_the_known_text(s, found[k].uri, found[k].def.name_range, l);
        lemma_joined(here, hit_locations(s, found, k + 1), l);
        lemma_one(location_of(s, found[k].uri, found[k].def.name_range), l);
    }
}

proof fn lemma_one(x: Option<LocationView>, l: LocationView)
    ensures
        one_location(x).contains(l) <==> x == Some(l),
{
    if x is Some {
        assert(one_location(x)[0] == x->0);
    }
}

proof fn lemma_use_locations(s: ServerView, found: Seq<LocView>, k: int, l: LocationView)
    requires
        0 <= k <= found.len(),
    ensures
        use_locations(s, found, k).contains(l) <==> exists|i: int|
            k <= i < found.len() && locates(s, (#[trigger] found[i]).uri, found[i].range, l),
    decreases found.len() - k,
{
    if k < found.len() {
        lemma_use_locations(s, found, k + 1, l);
        let here = one_location(location_of(s, found[k].uri, found[k].range));
        a_location_is_in_the_known_text(s, found[k].uri, found[k].range, l);
        lemma_joined(here, use_locations(s, found, k + 1), l);
        lemma_one(location_of(s, found[k].uri, found[k].range), l);
    }
}

// ------------------------------------------------------------------ the cursor
/// Whether the word at a position of an open buffer is this one, with the namespace there:
/// that of the file as it is indexed, or the global one for a file that is not.
pub open spec fn cursor_is_at(
    s: ServerView,
    uri: Seq<char>,
    pos: LinePos,
    word: Seq<char>,
    ns: Seq<char>,
) -> bool {
    &&& open_text(s, uri) is Some
    &&& word_around(open_text(s, uri)->0, offset_of(open_text(s, uri)->0, pos, s.encoding))
        == Some(word)
    &&& text_of(s.files, uri) is None ==> ns == seq![':', ':']
    &&& text_of(s.files, uri) matches Some(t) ==> ns == namespace_of(
        outline_of(t).symbols,
        offset_of(open_text(s, uri)->0, pos, s.encoding),
    )
}

/// Whether no word is at a position, or the buffer is not open.
pub open spec fn no_word_at(s: ServerView, uri: Seq<char>, pos: LinePos) -> bool {
    open_text(s, uri) matches Some(b) ==> word_around(b, offset_of(b, pos, s.encoding)) is None
}

/// Go to definition leads to every definition that the word under the cursor stands for, at
/// its name, and nowhere else. With no word, or no definition that can be shown, there is
/// no answer.
pub proof fn definitions_are_where_the_name_is_defined(
    s: ServerView,
    uri: Seq<char>,
    pos: LinePos,
    word: Seq<char>,
    ns: Seq<char>,
    l: LocationView,
)
    requires
        cursor_is_at(s, uri, pos, word, ns),
    ensures
        ({
            let found = resolved(s.files, word, ns);
            let answer = definition_answer(s, uri, pos);
            (answer is Some && answer->0.contains(l)) <==> exists|i: int|
                0 <= i < found.len() && locates(
                    s,
                    (#[trigger] found[i]).uri,
                    found[i].def.name_range,
                    l,
                )
        }),
        definition_answer(s, uri, pos) matches Some(a) ==> a.len() > 0,
{
    lemma_hit_locations(s, resolved(s.files, word, ns), 0, l);
}

/// Without a word under the cursor there is no definition, no reference, no hover and no
/// highlight.
pub proof fn without_a_word_there_is_no_answer(s: ServerView, uri: Seq<char>, pos: LinePos)
    requires
        no_word_at(s, uri, pos),
    ensures
        definition_answer(s, uri, pos) is None,
        references_answer(s, uri, pos, true) is None,
        references_answer(s, uri, pos, false) is None,
        hover_answer(s, uri, pos) is None,
        highlights_answer(s, uri, pos) is None,
{
}

/// Whether a location is that of the name of one of the hits.
pub open spec fn locates_hit(s: ServerView, found: Seq<HitView>, l: LocationView) -> bool {
    exists|i: int|
        0 <= i < found.len() && locates(s, (#[trigger] found[i]).uri, found[i].def.name_range, l)
}

/// Whether a location is that of one of the uses.
pub open spec fn locates_use(s: ServerView, used: Seq<LocView>, l: LocationView) -> bool {
    exists|i: int|
        0 <= i < used.len() && locates(s, (#[trigger] used[i]).uri, used[i].range, l)
}

/// The references of the word under the cursor are the uses of the first definition that it
/// stands for, or, if there is none, of the name as it is qualified there; and with the
/// declarations asked for, those too.
pub proof fn references_are_the_uses_of_what_is_defined(
    s: ServerView,
    uri: Seq<char>,
    pos: LinePos,
    declarations: bool,
    word: Seq<char>,
    ns: Seq<char>,
    qname: Seq<char>,
    l: LocationView,
)
    requires
        cursor_is_at(s, uri, pos, word, ns),
        resolved(s.files, word, ns).len() > 0 ==> qname == resolved(s.files, word, ns)[0].def.qname,
        resolved(s.files, word, ns).len() == 0 ==> qname == qualified(ns, word),
    ensures
        references_answer(s, uri, pos, declarations) is Some,
        references_answer(s, uri, pos, declarations)->0.contains(l) <==> locates_use(
            s,
            uses(s.files, 0, qname),
            l,
        ) || (declarations && locates_hit(s, resolved(s.files, word, ns), l)),
{
    let found = resolved(s.files, word, ns);
    lemma_use_locations(s, uses(s.files, 0, qname), 0, l);
    lemma_hit_locations(s, found, 0, l);
    let first = use_locations(s, uses(s.files, 0, qname), 0);
    let second = if declarations {
        hit_locations(s, found, 0)
    } else {
        seq![]
    };
    lemma_joined(first, second, l);
    assert(references_answer(s, uri, pos, declarations) == Some(first + second));
}

/// A name is shown with its own definition before any builtin of that name. Without a
/// definition it is the builtin that is shown, and without one of those nothing.
pub proof fn hover_shows_the_users_definition_first(
    s: ServerView,
    uri: Seq<char>,
    pos: LinePos,
    word: Seq<char>,
    ns: Seq<char>,
)
    requires
        cursor_is_at(s, uri, pos, word, ns),
    ensures
        resolved(s.files, word, ns).len() > 0 ==> hover_answer(s, uri, pos) == Some(
            definition_markdown(resolved(s.files, word, ns)[0].def),
        ),
        resolved(s.files, word, ns).len() == 0 && place_of(s.kb.names(), word) is None
            ==> hover_answer(s, uri, pos) is None,
        resolved(s.files, word, ns).len() == 0 ==> (place_of(s.kb.names(), word) matches Some(i)
            ==> hover_answer(s, uri, pos) == Some(markdown_of(s.kb.commands@[i]@))),
{
}

/// A definition is shown as its signature in a block of code, with its documentation in a
/// paragraph of its own behind it.
#[verifier::spinoff_prover]
#[verifier::rlimit(40)]
pub proof fn a_definition_is_shown_as_code(d: DefView)
    ensures
        ({
            let fence = seq!['`', '`', '`'];
            let code = fence + seq!['t', 'c', 'l', '\n'] + signature_of(d) + seq!['\n'] + fence;
            &&& d.doc is None ==> definition_markdown(d) == code
            &&& d.doc matches Some(doc) ==> definition_markdown(d) == code + seq!['\n', '\n'] + doc
        }),
{
    reveal_strlit("```tcl\n");
    reveal_strlit("\n```");
    reveal_strlit("\n\n");
    let fence = seq!['`', '`', '`'];
    let code = fence + seq!['t', 'c', 'l', '\n'] + signature_of(d) + seq!['\n'] + fence;
    assert("```tcl\n"@ =~= fence + seq!['t', 'c', 'l', '\n']);
    assert("\n```"@ =~= seq!['\n'] + fence);
    assert("\n\n"@ =~= seq!['\n', '\n']);
    let sig = signature_of(d);
    assert("```tcl\n"@ + sig + "\n```"@ =~= code);
    if let Some(doc) = d.doc {
        assert(definition_markdown(d) =~= code + seq!['\n', '\n'] + doc);
    } else {
        assert(definition_markdown(d) =~= code);
    }
}

/// Whether two names have the same last part.
pub open spec fn same_tail(a: Seq<char>, b: Seq<char>) -> bool {
    exists|t: Seq<char>| #[trigger] is_tail(a, t) && is_tail(b, t)
}

proof fn lemma_same_tail(a: Seq<char>, b: Seq<char>)
    ensures
        same_tail(a, b) <==> crate::outline::last_part(a) == crate::outline::last_part(b),
{
    the_last_part_follows_the_last_colons(a);
    the_last_part_follows_the_last_colons(b);
}

proof fn lemma_reads(
    b: Seq<u8>,
    refs: Seq<RefView>,
    k: int,
    word: Seq<char>,
    enc: PositionEncoding,
    h: Highlight,
)
    requires
        0 <= k <= refs.len(),
    ensures
        read_highlights(b, refs, k, word, enc).contains(h) <==> !h.write && exists|i: int|
            k <= i < refs.len() && spans(b, (#[trigger] refs[i]).range, enc, h.span) && (refs[i].name
                == word || same_tail(refs[i].name, word)),
    decreases refs.len() - k,
{
    if k < refs.len() {
        lemma_reads(b, refs, k + 1, word, enc, h);
        lemma_same_tail(refs[k].name, word);
        let rest = read_highlights(b, refs, k + 1, word, enc);
        let one = Highlight { span: span_of(b, refs[k].range, enc), write: false };
        if refs[k].name == word || same_tail(refs[k].name, word) {
            lemma_joined(seq![one], rest, h);
            assert(seq![one][0] == one);
            if spans(b, refs[k].range, enc, h.span) {
                assert(h.span == one.span);
            }
        } else {
            assert(read_highlights(b, refs, k, word, enc) =~= rest);
        }
    }
}

proof fn lemma_writes(
    b: Seq<u8>,
    defs: Seq<DefView>,
    k: int,
    word: Seq<char>,
    enc: PositionEncoding,
    h: Highlight,
)
    requires
        0 <= k <= defs.len(),
    ensures
        write_highlights(b, defs, k, word, enc).contains(h) <==> h.write && exists|i: int|
            k <= i < defs.len() && spans(b, (#[trigger] defs[i]).name_range, enc, h.span) && is_tail(
                word,
                defs[i].name,
            ),
    decreases defs.len() - k,
{
    if k < defs.len() {
        lemma_writes(b, defs, k + 1, word, enc, h);
        the_last_part_follows_the_last_colons(word);
        let rest = write_highlights(b, defs, k + 1, word, enc);
        let one = Highlight { span: span_of(b, defs[k].name_range, enc), write: true };
        if is_tail(word, defs[k].name) {
            lemma_joined(seq![one], rest, h);
            assert(seq![one][0] == one);
            if spans(b, defs[k].name_range, enc, h.span) {
                assert(h.span == one.span);
            }
        } else {
            assert(write_highlights(b, defs, k, word, enc) =~= rest);
        }
    }
}

/// What is highlighted in a file are the references with the same last part as the word
/// under the cursor, as reads, and the definitions of that name, as writes; and no others.
pub proof fn highlights_are_uses_and_definitions(
    s: ServerView,
    uri: Seq<char>,
    pos: LinePos,
    word: Seq<char>,
    ns: Seq<char>,
    h: Highlight,
)
    requires
        cursor_is_at(s, uri, pos, word, ns),
        text_of(s.files, uri) is Some,
    ensures
        ({
            let b = open_text(s, uri)->0;
            let refs = outline_of(text_of(s.files, uri)->0).refs;
            let defs = defs_of(text_of(s.files, uri)->0);
            let answer = highlights_answer(s, uri, pos);
            &&& answer is Some
            &&& answer->0.contains(h) <==> {
                ||| !h.write && exists|i: int|
                    0 <= i < refs.len() && spans(b, (#[trigger] refs[i]).range, s.encoding, h.span)
                        && (refs[i].name == word || same_tail(refs[i].name, word))
                ||| h.write && exists|i: int|
                    0 <= i < defs.len() && spans(
                        b,
                        (#[trigger] defs[i]).name_range,
                        s.encoding,
                        h.span,
                    ) && is_tail(word, defs[i].name)
            }
        }),
{
    let b = open_text(s, uri)->0;
    let t = text_of(s.files, uri)->0;
    let refs = outline_of(t).refs;
    let defs = defs_of(t);
    lemma_reads(b, refs, 0, word, s.encoding, h);
    lemma_writes(b, defs, 0, word, s.encoding, h);
    lemma_joined(
        read_highlights(b, refs, 0, word, s.encoding),
        write_highlights(b, defs, 0, word, s.encoding),
        h,
    );
}

/// The answer to a workspace search shows each hit that can be shown: its qualified name,
/// its kind, and the place of its name.
pub proof fn a_workspace_search_shows_each_hit(
    s: ServerView,
    found: Seq<HitView>,
    k: int,
    info: SymbolInfoView,
)
    requires
        0 <= k <= found.len(),
    ensures
        hit_infos(s, found, k).contains(info) <==> exists|i: int|
            k <= i < found.len() && info.name == (#[trigger] found[i]).def.qname && info.kind
                == found[i].def.kind && locates(
                s,
                found[i].uri,
                found[i].def.name_range,
                info.location,
            ),
    decreases found.len() - k,
{
    if k < found.len() {
        a_workspace_search_shows_each_hit(s, found, k + 1, info);
        a_location_is_in_the_known_text(
            s,
            found[k].uri,
            found[k].def.name_range,
            info.location,
        );
        let rest = hit_infos(s, found, k + 1);
        match location_of(s, found[k].uri, found[k].def.name_range) {
            Some(location) => {
                let one = SymbolInfoView {
                    name: found[k].def.qname,
                    kind: found[k].def.kind,
                    location,
                };
                lemma_joined(seq![one], rest, info);
                assert(seq![one][0] == one);
            },
            None => {
                assert(hit_infos(s, found, k) =~= rest);
            },
        }
    }
}

// ----------------------------------------------------------------- completion
/// Behind a `$` a client is offered the variables whose scope the cursor is in, by name, and
/// nothing else: none whose scope begins behind the cursor or ends before it.
pub proof fn variables_are_completed_in_their_scope(
    s: ServerView,
    uri: Seq<char>,
    pos: LinePos,
    out: Option<Seq<ItemView>>,
    i: int,
)
    requires
        completion_answer(s, uri, pos, out),
        open_text(s, uri) is Some,
        text_of(s.files, uri) is Some,
        crate::cursor::after_dollar(
            text_before(open_text(s, uri)->0, offset_of(open_text(s, uri)->0, pos, s.encoding)),
            text_before(
                open_text(s, uri)->0,
                offset_of(open_text(s, uri)->0, pos, s.encoding),
            ).len() as int,
        ),
        out is Some ==> 0 <= i < out->0.len(),
        0 <= offset_of(open_text(s, uri)->0, pos, s.encoding),
    ensures
        out is Some,
        out->0[i].kind == ItemKind::Variable,
        is_in_scope(
            outline_of(text_of(s.files, uri)->0).variables,
            offset_of(open_text(s, uri)->0, pos, s.encoding),
            out->0[i].label,
        ),
{
    let b = open_text(s, uri)->0;
    let offset = offset_of(b, pos, s.encoding);
    let all = outline_of(text_of(s.files, uri)->0).variables;
    let vars = choose|vars: Seq<VarView>| #[trigger]
        offered(all, offset, vars) && out->0 == vars.map_values(
            |v: VarView| crate::server::variable_item(v),
        );
    crate::lookup::only_variables_in_scope_are_offered(all, offset, vars);
    assert(all.contains(vars[i]));
    let k = choose|k: int| 0 <= k < all.len() && all[k] == vars[i];
    assert(all[k].name == out->0[i].label);
}

/// Whether a variable of that name has the offset in its scope; the very end of a scope is
/// in it only for one that begins with the file.
pub open spec fn is_in_scope(vars: Seq<VarView>, offset: int, name: Seq<char>) -> bool {
    exists|k: int|
        0 <= k < vars.len() && (#[trigger] vars[k]).name == name && vars[k].scope.start <= offset
            && offset <= vars[k].scope.end && (offset < vars[k].scope.end || vars[k].scope.start
            == 0)
}

/// What a definition is completed as: its name, its signature and its documentation, sorted
/// before the builtins.
pub proof fn a_definition_is_completed_by_its_name(d: DefView)
    ensures
        definition_item(d).label == d.name,
        definition_item(d).detail == Some(signature_of(d)),
        definition_item(d).documentation == d.doc,
        !definition_item(d).markdown,
        definition_item(d).sort_text == Some(seq!['0'] + d.name),
        d.kind == SymbolKind::Proc ==> definition_item(d).kind == ItemKind::Function,
        d.kind == SymbolKind::Method ==> definition_item(d).kind == ItemKind::Method,
        d.kind == SymbolKind::Class ==> definition_item(d).kind == ItemKind::Class,
        d.kind == SymbolKind::Namespace ==> definition_item(d).kind == ItemKind::Module,
        d.kind == SymbolKind::Variable || d.kind == SymbolKind::Constructor || d.kind
            == SymbolKind::Destructor ==> definition_item(d).kind == ItemKind::Variable,
{
    reveal_strlit("0");
    assert("0"@ =~= seq!['0']);
}

/// What a builtin is completed as: its name, with its first synopsis, or its summary if it
/// has none, and all that is known of it.
pub proof fn a_builtin_is_completed_by_its_name(c: BuiltinView)
    ensures
        builtin_item(c).label == c.name,
        builtin_item(c).kind == ItemKind::Keyword,
        c.synopsis.len() > 0 ==> builtin_item(c).detail == Some(c.synopsis[0]),
        c.synopsis.len() == 0 ==> builtin_item(c).detail == Some(c.summary),
        builtin_item(c).documentation == Some(markdown_of(c)),
        builtin_item(c).markdown,
        builtin_item(c).sort_text == Some(seq!['1'] + c.name),
{
    reveal_strlit("1");
    assert("1"@ =~= seq!['1']);
}

/// Whether the definition in place `k` is the first of its qualified name.
pub open spec fn is_first_def(defs: Seq<DefView>, k: int) -> bool {
    &&& 0 <= k < defs.len()
    &&& forall|j: int| 0 <= j < k ==> (#[trigger] defs[j]).qname != defs[k].qname
}

/// The definitions are completed each qualified name once, as the first of that name.
pub proof fn each_definition_is_completed_once(defs: Seq<DefView>, k: int, x: ItemView)
    requires
        0 <= k <= defs.len(),
    ensures
        definition_items(defs, k).contains(x) <==> exists|i: int|
            i >= k && #[trigger] is_first_def(defs, i) && x == definition_item(defs[i]),
    decreases defs.len() - k,
{
    if k < defs.len() {
        each_definition_is_completed_once(defs, k + 1, x);
        let rest = definition_items(defs, k + 1);
        let one = definition_item(defs[k]);
        if is_first_def(defs, k) {
            lemma_joined(seq![one], rest, x);
            assert(seq![one][0] == one);
        } else {
            assert(definition_items(defs, k) =~= rest);
        }
    }
}

/// Whether the builtin in place `k` is the first of its name, and no definition has that as
/// its qualified name.
pub open spec fn is_first_builtin(commands: Seq<Builtin>, defs: Seq<DefView>, k: int) -> bool {
    &&& 0 <= k < commands.len()
    &&& forall|j: int| 0 <= j < k ==> (#[trigger] commands[j]).name@ != commands[k].name@
    &&& forall|j: int| 0 <= j < defs.len() ==> (#[trigger] defs[j]).qname != commands[k].name@
}

/// The builtins are completed each name once.
pub proof fn each_builtin_is_completed_once(
    commands: Seq<Builtin>,
    defs: Seq<DefView>,
    k: int,
    x: ItemView,
)
    requires
        0 <= k <= commands.len(),
    ensures
        builtin_items(commands, defs, k).contains(x) <==> exists|i: int|
            i >= k && #[trigger] is_first_builtin(commands, defs, i) && x == builtin_item(
                commands[i]@,
            ),
    decreases commands.len() - k,
{
    if k < commands.len() {
        each_builtin_is_completed_once(commands, defs, k + 1, x);
        let rest = builtin_items(commands, defs, k + 1);
        let one = builtin_item(commands[k]@);
        if is_first_builtin(commands, defs, k) {
            lemma_joined(seq![one], rest, x);
            assert(seq![one][0] == one);
        } else {
            assert(builtin_items(commands, defs, k) =~= rest);
        }
    }
}

/// Where no variable is being typed, the definitions of the whole workspace are completed
/// and the builtins; without an open buffer nothing is.
pub proof fn commands_are_completed_from_everywhere(
    s: ServerView,
    uri: Seq<char>,
    pos: LinePos,
    out: Option<Seq<ItemView>>,
    x: ItemView,
)
    requires
        completion_answer(s, uri, pos, out),
    ensures
        open_text(s, uri) is None ==> out is None,
        open_text(s, uri) matches Some(b) ==> ({
            let before = text_before(b, offset_of(b, pos, s.encoding));
            let defs = all_defs(s.files, 0);
            !crate::cursor::after_dollar(before, before.len() as int) ==> out is Some && (
            out->0.contains(x) <==> definition_items(defs, 0).contains(x) || builtin_items(
                s.kb.commands@,
                defs,
                0,
            ).contains(x))
        }),
{
    let defs = all_defs(s.files, 0);
    lemma_joined(definition_items(defs, 0), builtin_items(s.kb.commands@, defs, 0), x);
}

// ----------------------------------------------------------------- signatures
/// The parameter that is marked is that of the argument at the cursor: word 1 of a command
/// is its first parameter; the name of the command counts as the first, and what is behind
/// the last parameter as the last.
pub proof fn the_active_parameter_is_that_of_the_argument(index: int, parameters: int)
    requires
        0 <= index,
        0 <= parameters <= u32::MAX,
    ensures
        parameters == 0 ==> active_parameter(index, parameters) == 0,
        index == 0 ==> active_parameter(index, parameters) == 0,
        1 <= index <= parameters ==> active_parameter(index, parameters) == index - 1,
        index > parameters >= 1 ==> active_parameter(index, parameters) == parameters - 1,
{
}

/// The signature of a command is that of the user's own definition, if the name stands for
/// one: its qualified name with its arguments, and each argument as a parameter.
pub proof fn a_signature_is_the_users_own_first(
    s: ServerView,
    name: Seq<char>,
    ns: Seq<char>,
    b: Seq<u8>,
    c: crate::token::CommandView,
)
    ensures
        resolved(s.files, name, ns).len() > 0 ==> signature_for(s, name, ns, b, c) == Some(
            SignatureView {
                label: signature_of(resolved(s.files, name, ns)[0].def),
                documentation: resolved(s.files, name, ns)[0].def.doc,
                parameters: match resolved(s.files, name, ns)[0].def.detail {
                    Some(args) => arg_names(args),
                    None => arg_names(seq![]),
                },
            },
        ),
        resolved(s.files, name, ns).len() == 0 ==> signature_for(s, name, ns, b, c)
            == builtin_signature_of(s.kb, name, b, c),
{
}

// ---------------------------------------------------------------- diagnostics
/// Whether a diagnostic is that of a parse error: a warning where the text only stops too
/// early, else an error.
pub open spec fn reports(
    b: Seq<u8>,
    e: ErrorView,
    enc: PositionEncoding,
    d: DiagnosticView,
) -> bool {
    &&& spans(b, e.range, enc, d.span)
    &&& e.incomplete ==> d.level == Level::Warning
    &&& !e.incomplete ==> d.level == Level::Error
    &&& d.message == e.message
    &&& d.source == "tcl-lsp"@
    &&& d.code is None
}

/// Each parse error is reported, but for one that only a half-typed line at the end shows:
/// incomplete, with nothing but white space behind it. Nothing else is reported.
pub proof fn every_error_is_reported(
    b: Seq<u8>,
    errors: Seq<ErrorView>,
    k: int,
    enc: PositionEncoding,
    d: DiagnosticView,
)
    requires
        0 <= k <= errors.len(),
    ensures
        error_diagnostics(b, errors, k, enc).contains(d) <==> exists|i: int|
            k <= i < errors.len() && reports(b, #[trigger] errors[i], enc, d)
                && !crate::server::is_half_typed(b, errors[i]),
        forall|i: int|
            0 <= i < errors.len() && !(#[trigger] errors[i]).incomplete
                ==> !crate::server::is_half_typed(b, errors[i]),
    decreases errors.len() - k,
{
    if k < errors.len() {
        every_error_is_reported(b, errors, k + 1, enc, d);
        let rest = error_diagnostics(b, errors, k + 1, enc);
        let all = error_diagnostics(b, errors, k, enc);
        if crate::server::is_half_typed(b, errors[k]) {
            assert(all =~= rest);
        } else {
            let one = all[0];
            assert(all =~= seq![one] + rest);
            lemma_joined(seq![one], rest, d);
            assert(seq![one][0] == one);
            if reports(b, errors[k], enc, d) {
                assert(d.span == one.span && d.code == one.code);
                assert(d == one);
            }
        }
    }
}

/// A finding of an external tool is reported on its line, from its column, or from the start
/// of the line if it has none, with its own message, code and source.
pub proof fn a_finding_is_reported_on_its_line(b: Seq<u8>, f: Finding, enc: PositionEncoding)
    ensures
        ({
            let d = finding_diagnostic(b, f, enc);
            &&& d.span.start.line == f.line
            &&& f.column matches Some(c) ==> d.span.start.character == c
            &&& f.column is None ==> d.span.start.character == 0
            &&& d.span.end == position_of(
                b,
                offset_of(b, LinePos { line: f.line, character: u32::MAX }, enc),
                enc,
            )
            &&& f.severity == Severity::Error ==> d.level == Level::Error
            &&& f.severity == Severity::Warning ==> d.level == Level::Warning
            &&& f.severity == Severity::Info ==> d.level == Level::Information
            &&& d.message == f.message@
            &&& d.source == f.source@
            &&& f.code is None ==> d.code is None
            &&& f.code matches Some(c) ==> d.code == Some(c@)
        }),
{
}

// ---------------------------------------------------------------------- links
/// Whether a mention is that of a link in a file: of a file under the path that is written
/// there, or of a package at the file that provides it.
pub open spec fn mentions_link(
    s: ServerView,
    b: Seq<u8>,
    l: crate::outline::LinkView,
    m: MentionView,
) -> bool {
    match m {
        MentionView::File { span, path } => {
            &&& l.kind == LinkKind::Source
            &&& spans(b, l.range, s.encoding, span)
            &&& path == l.name
        },
        MentionView::Package(x) => {
            &&& l.kind == LinkKind::PackageRequire
            &&& spans(b, l.range, s.encoding, x.span)
            &&& provider(s.files, 0, l.name) is Some
            &&& x.target == (provider(s.files, 0, l.name)->0).0
            &&& proper_uri(x.target)
            &&& x.tooltip == "package provide "@ + l.name
        },
    }
}

/// Each file that is sourced is mentioned, and each package that some file provides; no
/// other.
pub proof fn every_link_is_mentioned(
    s: ServerView,
    b: Seq<u8>,
    links: Seq<crate::outline::LinkView>,
    k: int,
    m: MentionView,
)
    requires
        0 <= k <= links.len(),
    ensures
        mentions(s, b, links, k).contains(m) <==> exists|i: int|
            k <= i < links.len() && mentions_link(s, b, #[trigger] links[i], m),
    decreases links.len() - k,
{
    if k < links.len() {
        every_link_is_mentioned(s, b, links, k + 1, m);
        let rest = mentions(s, b, links, k + 1);
        let all = mentions(s, b, links, k);
        let span = span_of(b, links[k].range, s.encoding);
        if all.len() == rest.len() {
            assert(all =~= rest);
        } else {
            let one = all[0];
            assert(all =~= seq![one] + rest);
            lemma_joined(seq![one], rest, m);
            assert(seq![one][0] == one);
            if mentions_link(s, b, links[k], m) {
                match m {
                    MentionView::File { span: other, path } => {
                        assert(other == span);
                    },
                    MentionView::Package(x) => {
                        assert(x.span == span);
                    },
                }
                assert(m == one);
            }
        }
    }
}

// -------------------------------------------------------------------- changes
/// A change with a span replaces what is there, from position to position; one without
/// replaces the whole text.
pub proof fn a_change_replaces_its_span(b: Seq<u8>, c: TextChange, enc: PositionEncoding)
    ensures
        c.span is None ==> changed(b, c, enc) == encode_utf8(c.text@),
        c.span matches Some(span) ==> changed(b, c, enc) == edited(
            b,
            Range {
                start: offset_of(b, span.start, enc) as usize,
                end: offset_of(b, span.end, enc) as usize,
            },
            encode_utf8(c.text@),
        ),
{
}

// ------------------------------------------------------------------- protocol
/// Each request is known by its method, and by no other.
#[verifier::spinoff_prover]
#[verifier::rlimit(40)]
pub proof fn requests_are_known_by_their_method(m: Seq<char>)
    ensures
        request_of(m) == RequestKind::DocumentSymbols <==> m == "textDocument/documentSymbol"@,
        request_of(m) == RequestKind::Definition <==> m == "textDocument/definition"@,
        request_of(m) == RequestKind::References <==> m == "textDocument/references"@,
        request_of(m) == RequestKind::Highlights <==> m == "textDocument/documentHighlight"@,
        request_of(m) == RequestKind::Hover <==> m == "textDocument/hover"@,
        request_of(m) == RequestKind::Completion <==> m == "textDocument/completion"@,
        request_of(m) == RequestKind::Folding <==> m == "textDocument/foldingRange"@,
        request_of(m) == RequestKind::Selection <==> m == "textDocument/selectionRange"@,
        request_of(m) == RequestKind::Links <==> m == "textDocument/documentLink"@,
        request_of(m) == RequestKind::SignatureHelp <==> m == "textDocument/signatureHelp"@,
        request_of(m) == RequestKind::WorkspaceSymbols <==> m == "workspace/symbol"@,
        request_of(m) == RequestKind::Formatting <==> m == "textDocument/formatting"@,
{
    lemma_methods();
}

proof fn lemma_methods()
    ensures
        "textDocument/documentSymbol"@.len() == 27,
        "textDocument/definition"@.len() == 23,
        "textDocument/references"@.len() == 23,
        "textDocument/documentHighlight"@.len() == 30,
        "textDocument/hover"@.len() == 18,
        "textDocument/completion"@.len() == 23,
        "textDocument/foldingRange"@.len() == 25,
        "textDocument/selectionRange"@.len() == 27,
        "textDocument/documentLink"@.len() == 25,
        "textDocument/signatureHelp"@.len() == 26,
        "workspace/symbol"@.len() == 16,
        "textDocument/formatting"@.len() == 23,
        "textDocument/documentSymbol"@[13] == 'd',
        "textDocument/selectionRange"@[13] == 's',
        "textDocument/definition"@[13] == 'd',
        "textDocument/references"@[13] == 'r',
        "textDocument/completion"@[13] == 'c',
        "textDocument/formatting"@[13] == 'f',
        "textDocument/foldingRange"@[13] == 'f',
        "textDocument/documentLink"@[13] == 'd',
{
    reveal_strlit("textDocument/documentSymbol");
    reveal_strlit("textDocument/definition");
    reveal_strlit("textDocument/references");
    reveal_strlit("textDocument/documentHighlight");
    reveal_strlit("textDocument/hover");
    reveal_strlit("textDocument/completion");
    reveal_strlit("textDocument/foldingRange");
    reveal_strlit("textDocument/selectionRange");
    reveal_strlit("textDocument/documentLink");
    reveal_strlit("textDocument/signatureHelp");
    reveal_strlit("workspace/symbol");
    reveal_strlit("textDocument/formatting");
}

/// Each notification is known by its method, and by no other.
#[verifier::spinoff_prover]
#[verifier::rlimit(40)]
pub proof fn notifications_are_known_by_their_method(m: Seq<char>)
    ensures
        notification_of(m) == NotificationKind::Opened <==> m == "textDocument/didOpen"@,
        notification_of(m) == NotificationKind::Changed <==> m == "textDocument/didChange"@,
        notification_of(m) == NotificationKind::Saved <==> m == "textDocument/didSave"@,
        notification_of(m) == NotificationKind::Closed <==> m == "textDocument/didClose"@,
        notification_of(m) == NotificationKind::FilesChanged <==> m
            == "workspace/didChangeWatchedFiles"@,
        notification_of(m) == NotificationKind::ConfigurationChanged <==> m
            == "workspace/didChangeConfiguration"@,
{
    reveal_strlit("textDocument/didOpen");
    reveal_strlit("textDocument/didChange");
    reveal_strlit("textDocument/didSave");
    reveal_strlit("textDocument/didClose");
    reveal_strlit("workspace/didChangeWatchedFiles");
    reveal_strlit("workspace/didChangeConfiguration");
    assert("textDocument/didOpen"@.len() == 20 && "textDocument/didSave"@.len() == 20);
    assert("textDocument/didOpen"@[16] == 'O' && "textDocument/didSave"@[16] == 'S');
    assert("textDocument/didChange"@.len() == 22 && "textDocument/didClose"@.len() == 21);
    assert("workspace/didChangeWatchedFiles"@.len() == 31);
    assert("workspace/didChangeConfiguration"@.len() == 32);
}

/// A half-typed line at the end of a buffer is an error that is incomplete and has nothing
/// but white space from where it is.
pub proof fn a_half_typed_line_has_nothing_behind_it(b: Seq<u8>, e: ErrorView)
    requires
        e.range.start <= b.len(),
        vstd::utf8::valid_utf8(b.subrange(e.range.start as int, b.len() as int)),
    ensures
        crate::server::is_half_typed(b, e) <==> e.incomplete && ({
            let rest = vstd::utf8::decode_utf8(
                b.subrange(e.range.start as int, b.len() as int),
            );
            forall|k: int| 0 <= k < rest.len() ==> crate::phrases::white(#[trigger] rest[k])
        }),
{
    let rest = vstd::utf8::decode_utf8(b.subrange(e.range.start as int, b.len() as int));
    crate::phrases::white_space_is_trimmed_away(rest);
}

/// The parameters of a documented synopsis are its words behind the first.
pub proof fn a_synopsis_lists_its_parameters(label: Seq<char>, i: int)
    requires
        crate::text::split_words(label).len() > 0,
        0 <= i < crate::text::split_words(label).len() - 1,
    ensures
        crate::server::synopsis_labels(label).len() == crate::text::split_words(label).len() - 1,
        crate::server::synopsis_labels(label)[i] == crate::text::split_words(label)[i + 1],
{
}

/// The signature of a builtin is that of the subcommand that the second word names, with the
/// documentation of that or, if it has none, the summary of the builtin; without such a
/// subcommand it is the first synopsis, or the name, with the summary.
pub proof fn a_builtin_signature_is_that_of_its_subcommand(
    kb: Kb,
    name: Seq<char>,
    b: Seq<u8>,
    c: crate::token::CommandView,
    i: int,
)
    requires
        place_of(kb.names(), name) == Some(i),
    ensures
        ({
            let builtin = kb.commands@[i];
            let words = crate::token::words_of(c.tokens);
            let second = if words.len() > 1 && words[1].len() > 0 {
                crate::words::token_text(b, words[1][0])
            } else {
                None
            };
            let place = match second {
                Some(w) => crate::kb::subcommand_at(builtin.subcommands@, 0, w),
                None => None,
            };
            let sig = builtin_signature_of(kb, name, b, c);
            &&& sig is Some
            &&& sig->0.parameters == crate::server::synopsis_labels(sig->0.label)
            &&& place matches Some(k) ==> {
                &&& sig->0.label == builtin.subcommands@[k].signature@
                &&& builtin.subcommands@[k].doc@.len() > 0 ==> sig->0.documentation == Some(
                    builtin.subcommands@[k].doc@,
                )
                &&& builtin.subcommands@[k].doc@.len() == 0 ==> sig->0.documentation == Some(
                    builtin.summary@,
                )
            }
            &&& place is None ==> {
                &&& builtin.synopsis@.len() > 0 ==> sig->0.label == builtin.synopsis@[0]@
                &&& builtin.synopsis@.len() == 0 ==> sig->0.label == builtin.name@
                &&& sig->0.documentation == Some(builtin.summary@)
            }
        }),
        place_of(kb.names(), name) is None ==> builtin_signature_of(kb, name, b, c) is None,
{
}

/// Signature help is about the innermost command at the cursor, by the literal name that it
/// has, and marks the parameter of the argument that the cursor is at.
pub proof fn signature_help_is_about_the_innermost_command(
    s: ServerView,
    uri: Seq<char>,
    pos: LinePos,
    b: Seq<u8>,
    e: crate::selection::EnclosingView,
)
    requires
        open_text(s, uri) == Some(b),
        b.len() <= usize::MAX,
        crate::selection::innermost(
            b,
            Range { start: 0, end: b.len() as usize },
            offset_of(b, pos, s.encoding),
            100,
        ) == Some(e),
    ensures
        e.name is None ==> signature_answer(s, uri, pos) is None,
        e.name matches Some(name) ==> ({
            let ns = namespace_in_file(s, uri, offset_of(b, pos, s.encoding));
            let sig = signature_for(s, name, ns, b, e.command);
            &&& sig is None ==> signature_answer(s, uri, pos) is None
            &&& sig matches Some(x) ==> signature_answer(s, uri, pos) == Some(
                SignatureHelpView {
                    signature: x,
                    active_parameter: active_parameter(e.word_index, x.parameters.len() as int),
                },
            )
        }),
{
}

/// A session ends with an `exit` notification and with nothing else.
pub proof fn a_session_ends_with_exit(e: crate::transport::EnvelopeView)
    ensures
        crate::transport::ends_session(e) <==> (e matches
            crate::transport::EnvelopeView::Notification(m) && m == seq!['e', 'x', 'i', 't']),
{
    reveal_strlit("exit");
    assert("exit"@ =~= seq!['e', 'x', 'i', 't']);
}

/// The paths of the folders of a workspace are those of its URIs that name one.
pub proof fn folders_are_the_paths_of_their_uris(uris: Seq<Seq<char>>, k: int, p: Seq<char>)
    requires
        0 <= k <= uris.len(),
    ensures
        paths_of(uris, k).contains(p) <==> exists|i: int|
            k <= i < uris.len() && crate::uri::path_of(encode_utf8(#[trigger] uris[i])) == Some(p),
    decreases uris.len() - k,
{
    if k < uris.len() {
        folders_are_the_paths_of_their_uris(uris, k + 1, p);
        let rest = paths_of(uris, k + 1);
        match crate::uri::path_of(encode_utf8(uris[k])) {
            Some(one) => {
                lemma_joined(seq![one], rest, p);
                assert(seq![one][0] == one);
            },
            None => {
                assert(paths_of(uris, k) =~= rest);
            },
        }
    }
}

/// A workspace search shows 512 hits at most, and all where there are fewer.
pub proof fn a_workspace_search_is_bounded(all: Seq<HitView>)
    ensures
        ({
            let shown = crate::index::first_hits(all, crate::server::SEARCH_LIMIT as int);
            &&& all.len() <= 512 ==> shown == all
            &&& all.len() > 512 ==> shown == all.take(512)
        }),
{
}

/// What can be selected at an offset are the file, and what is around the offset up to a
/// hundred levels deep, the smaller before the larger.
pub proof fn selections_are_what_is_around(
    b: Seq<u8>,
    offset: int,
    out: Seq<Range<usize>>,
    r: Range<usize>,
)
    requires
        b.len() > 0,
        b.len() <= usize::MAX,
        crate::selection::is_chain(b, offset, out),
    ensures
        ({
            let file = Range { start: 0usize, end: b.len() as usize };
            &&& out.contains(r) <==> r == file || crate::selection::around(
                b,
                file,
                offset,
                100,
            ).contains(r)
            &&& out.last() == file
            &&& forall|i: int, j: int|
                0 <= i < j < out.len() ==> (#[trigger] out[j]).start <= (#[trigger] out[i]).start
                    && out[i].end <= out[j].end && out[i] != out[j]
        }),
{
}

/// The diagnostics of a text are those of its own errors and of the findings of other tools,
/// and no others.
pub proof fn diagnostics_are_errors_and_findings(
    b: Seq<u8>,
    findings: Seq<Finding>,
    enc: PositionEncoding,
    d: DiagnosticView,
)
    ensures
        diagnostics_answer(b, findings, enc).contains(d) <==> error_diagnostics(
            b,
            outline_of(b).errors,
            0,
            enc,
        ).contains(d) || exists|i: int|
            0 <= i < findings.len() && finding_diagnostic(b, #[trigger] findings[i], enc) == d,
{
    let own = error_diagnostics(b, outline_of(b).errors, 0, enc);
    let others = findings.map_values(|f: Finding| finding_diagnostic(b, f, enc));
    lemma_joined(own, others, d);
    if others.contains(d) {
        let i = choose|i: int| 0 <= i < others.len() && others[i] == d;
        assert(finding_diagnostic(b, findings[i], enc) == d);
    }
    assert forall|i: int| 0 <= i < findings.len() && finding_diagnostic(
        b,
        #[trigger] findings[i],
        enc,
    ) == d implies others.contains(d) by {
        assert(others[i] == d);
    }
}

/// A change as a client reports it, from an edit that it was told.
pub open spec fn replaces(b: Seq<u8>, e: (Span, Seq<char>), enc: PositionEncoding) -> Seq<u8> {
    edited(
        b,
        Range {
            start: offset_of(b, e.0.start, enc) as usize,
            end: offset_of(b, e.0.end, enc) as usize,
        },
        encode_utf8(e.1),
    )
}

/// Formatting leads to the formatted text: a client that makes the edit that it is told has
/// exactly that, and is told none where it has it already or where nothing could be
/// formatted.
pub proof fn formatting_leads_to_the_formatted_text(
    b: Seq<u8>,
    formatted: Option<Seq<char>>,
    enc: PositionEncoding,
)
    requires
        vstd::utf8::valid_utf8(b),
        b.len() < u32::MAX,
        b.len() <= usize::MAX,
    ensures
        formatted is None ==> crate::server::format_edits(b, formatted, enc).len() == 0,
        formatted matches Some(f) ==> {
            let edits = crate::server::format_edits(b, formatted, enc);
            &&& encode_utf8(f) == b ==> edits.len() == 0
            &&& encode_utf8(f) != b ==> edits.len() == 1 && replaces(b, edits[0], enc)
                == encode_utf8(f)
        },
{
    if let Some(f) = formatted {
        vstd::utf8::is_char_boundary_start_end_of_seq(b);
        crate::line_index::char_boundaries_round_trip(b, b.len() as int, enc);
        crate::line_index::char_boundaries_round_trip(b, 0, enc);
        let start = LinePos { line: 0, character: 0 };
        assert(position_of(b, 0, enc) == start) by {
            assert(crate::line_index::newlines(b, 0) == 0);
            assert(crate::line_index::line_begin(b, 0) == 0);
        }
        if encode_utf8(f) != b {
            crate::document::replacing_is_editing_the_whole_text(
                b,
                Range { start: 0, end: b.len() as usize },
                encode_utf8(f),
            );
        }
    }
}

/// The other tools run when a buffer is opened and when it is saved, and not on every change.
pub proof fn tools_run_on_open_and_save(kind: NotificationKind)
    ensures
        kind == NotificationKind::Opened || kind == NotificationKind::Saved
            ==> crate::server::runs_analysers(kind),
        kind == NotificationKind::Changed || kind == NotificationKind::Closed || kind
            == NotificationKind::FilesChanged || kind == NotificationKind::ConfigurationChanged
            || kind == NotificationKind::Unknown ==> !crate::server::runs_analysers(kind),
{
}

/// Columns are counted in bytes only with a client that offers that, whatever else it offers.
pub proof fn bytes_are_counted_only_if_offered(offers: Seq<Seq<char>>)
    ensures
        crate::server::encoding_for(None) == PositionEncoding::Utf16,
        crate::server::encoding_for(Some(offers)) == PositionEncoding::Utf8 <==> exists|i: int|
            0 <= i < offers.len() && #[trigger] offers[i] == seq!['u', 't', 'f', '-', '8'],
{
    reveal_strlit("utf-8");
    assert("utf-8"@ =~= seq!['u', 't', 'f', '-', '8']);
}

/// The directories of a workspace are the paths of its folders, and that of its root only
/// where none of the folders has one.
pub proof fn roots_are_folders_before_the_root(
    folders: Seq<Seq<char>>,
    root: Option<Seq<char>>,
    p: Seq<char>,
)
    ensures
        ({
            let of_folder = exists|i: int|
                0 <= i < folders.len() && crate::uri::path_of(encode_utf8(#[trigger] folders[i]))
                    == Some(p);
            let some_folder = exists|i: int|
                0 <= i < folders.len() && crate::uri::path_of(encode_utf8(#[trigger] folders[i]))
                    is Some;
            let roots = crate::server::roots_of(folders, root);
            &&& some_folder ==> (roots.contains(p) <==> of_folder)
            &&& !some_folder ==> (roots.contains(p) <==> root is Some && crate::uri::path_of(
                encode_utf8(root->0),
            ) == Some(p))
        }),
{
    let named = paths_of(folders, 0);
    folders_are_the_paths_of_their_uris(folders, 0, p);
    if named.len() > 0 {
        folders_are_the_paths_of_their_uris(folders, 0, named[0]);
        assert(named.contains(named[0]));
    }
    if exists|i: int|
        0 <= i < folders.len() && crate::uri::path_of(encode_utf8(#[trigger] folders[i])) is Some {
        let i = choose|i: int|
            0 <= i < folders.len() && crate::uri::path_of(encode_utf8(#[trigger] folders[i]))
                is Some;
        let q = crate::uri::path_of(encode_utf8(folders[i]))->0;
        folders_are_the_paths_of_their_uris(folders, 0, q);
        assert(named.contains(q));
    }
    if let Some(r) = root {
        folders_are_the_paths_of_their_uris(seq![r], 0, p);
        assert(seq![r][0] == r);
    }
}

/// The mentions of a file are those of the links that are indexed of it, placed in the text
/// that the server knows of it; of a file that is not indexed there are none.
pub proof fn mentions_are_those_of_the_indexed_links(s: ServerView, uri: Seq<char>, b: Seq<u8>)
    ensures
        text_of(s.files, uri) is None ==> crate::server::mentions_answer(s, uri) is None,
        text_of(s.files, uri) matches Some(t) ==> (knows(s, uri, b)
            ==> crate::server::mentions_answer(s, uri) == Some(
            mentions(s, b, outline_of(t).links, 0),
        )),
{
}

/// What is selected at a position are the spans of what is around it, the smallest first, or
/// the position itself in an empty file.
pub proof fn selections_are_spans_of_what_is_around(
    s: ServerView,
    b: Seq<u8>,
    pos: LinePos,
    out: Seq<Span>,
    i: int,
)
    requires
        crate::server::selection_answer(s, b, pos, out),
        0 <= i < out.len(),
        b.len() > 0,
        b.len() <= usize::MAX,
    ensures
        ({
            let file = Range { start: 0usize, end: b.len() as usize };
            let offset = offset_of(b, pos, s.encoding);
            exists|r: Range<usize>| #[trigger]
                spans(b, r, s.encoding, out[i]) && (r == file || crate::selection::around(
                    b,
                    file,
                    offset,
                    100,
                ).contains(r))
        }),
        spans(b, Range { start: 0, end: b.len() as usize }, s.encoding, out.last()),
{
    let offset = offset_of(b, pos, s.encoding);
    let chain = choose|chain: Seq<Range<usize>>| #[trigger]
        crate::selection::is_chain(b, offset, chain) && out == (if chain.len() > 0 {
            chain.map_values(|r: Range<usize>| span_of(b, r, s.encoding))
        } else {
            seq![Span { start: pos, end: pos }]
        });
    selections_are_what_is_around(b, offset, chain, chain[i]);
    assert(chain.contains(chain[i]));
    assert(spans(b, chain[i], s.encoding, out[i]));
}

} // verus!

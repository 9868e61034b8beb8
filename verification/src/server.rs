//! The state of the server, and its answers.
use core::ops::Range;
use vstd::prelude::*;
use vstd::string::{StringExecFns, StringSliceAdditionalSpecFns};
use vstd::utf8::{encode_utf8, encode_utf8_decode_utf8};

use crate::cursor::{
    after_dollar, namespace_at, namespace_of, text_before, wants_variable, word_around, word_at,
};
use crate::document::{edited, Document};
use crate::external::{Finding, Severity};
use crate::index::{
    all_defs, def_ref_views, defs_of, each_once, first_hits, hit_views, hits, loc_views,
    lowercase, offered, provider, resolved, signature_of, text_of, uses, var_ref_views,
    with_file, without_file, Def, DefView, FileView, HitView, Index, LocView, LookFor,
};
use crate::kb::{
    markdown_of, place_of, subcommand_at, Command as Builtin, CommandView as BuiltinView, Kb,
};
use crate::line_index::{offset_of, position_of, LineIndex, LinePos, PositionEncoding};
use crate::lsp::{
    collect_folds, diagnostic_views, folds_of, info_views, item_views, location_views,
    mention_views, node_views, nodes_of, span_of, to_document_symbols, to_span, Diagnostic,
    DiagnosticView, Fold, Highlight, Item, ItemKind, ItemView, Level, Link, LinkView, Location,
    LocationView, Mention, MentionView, Signature, SignatureHelp, SignatureView, Span,
    SymbolInfo, SymbolInfoView, SymbolNode, TextChange, TextEdit,
};
use crate::outline::{
    arg_names, last_part, last_segment, qualified, qualify, split_args, ErrorView, LinkKind,
    LinkRef, RefView, SymbolKind, SyntaxError, VarDef, VarView,
};
use crate::script::{utf8_text, Script};
use crate::selection::{command_at, innermost, is_chain, selection_chain, MAX_DESCENT};
use crate::text::{
    chars_of, same_text, split_words, text_option, texts, trim, trimmed, word_strings,
};
use crate::token::{slices_view, words_of, Command, CommandView};
use crate::uri::{path_of, path_to_uri, uri_of, uri_to_path};
use crate::walker::{outline_of, ref_views};
use crate::words::token_text;

verus! {

/// How many symbols a workspace search gives.
pub const SEARCH_LIMIT: usize = 512;

// ---------------------------------------------------------------------- model
/// A buffer that the editor has open.
pub struct DocView {
    pub uri: Seq<char>,
    pub text: Seq<u8>,
    pub version: i32,
}

/// What the server knows.
pub struct ServerView {
    /// The open buffers. These override whatever is on disk.
    pub docs: Seq<DocView>,
    /// The indexed files.
    pub files: Seq<FileView>,
    /// Documentation for Tcl's and Tk's own commands.
    pub kb: Kb,
    pub encoding: PositionEncoding,
}

/// The place of a buffer, among those from `i` on.
pub open spec fn doc_at(docs: Seq<DocView>, uri: Seq<char>, i: int) -> Option<int>
    decreases docs.len() - i,
{
    if i < 0 || i >= docs.len() {
        None
    } else if docs[i].uri == uri {
        Some(i)
    } else {
        doc_at(docs, uri, i + 1)
    }
}

/// The text of an open buffer.
pub open spec fn open_text(s: ServerView, uri: Seq<char>) -> Option<Seq<u8>> {
    match doc_at(s.docs, uri, 0) {
        Some(i) => Some(s.docs[i].text),
        None => None,
    }
}

/// The text of a file: that of the buffer, if it is open, else the indexed one.
pub open spec fn known_text(s: ServerView, uri: Seq<char>) -> Option<Seq<u8>> {
    match open_text(s, uri) {
        Some(b) => Some(b),
        None => text_of(s.files, uri),
    }
}

/// The buffers with one set: in its old place, or last.
pub open spec fn with_doc(docs: Seq<DocView>, d: DocView) -> Seq<DocView> {
    match doc_at(docs, d.uri, 0) {
        Some(i) => docs.update(i, d),
        None => docs.push(d),
    }
}

/// The buffers without one.
pub open spec fn without_doc(docs: Seq<DocView>, uri: Seq<char>) -> Seq<DocView> {
    match doc_at(docs, uri, 0) {
        Some(i) => docs.remove(i),
        None => docs,
    }
}

/// No buffer is there twice.
pub open spec fn docs_once(docs: Seq<DocView>) -> bool {
    forall|i: int, j: int|
        0 <= i < j < docs.len() ==> (#[trigger] docs[i]).uri != (#[trigger] docs[j]).uri
}

/// Whether a text, of no more bytes than an `i32` counts, is a URI.
pub uninterp spec fn valid_uri(s: Seq<char>) -> bool;

/// Parsing of an `lsp_types::Uri` from a string, which succeeds or fails by the
/// string alone. It panics on a longer one.
#[verifier::external_body]
fn is_uri(s: &str) -> (r: bool)
    requires
        encode_utf8(s@).len() <= i32::MAX,
    ensures
        r == valid_uri(s@),
{
    s.parse::<lsp_types::Uri>().is_ok()
}

/// Whether a text is taken for a URI. One of more bytes than an `i32` counts is none.
pub open spec fn proper_uri(s: Seq<char>) -> bool {
    encode_utf8(s).len() <= i32::MAX && valid_uri(s)
}

fn is_proper_uri(s: &str) -> (r: bool)
    ensures
        r == proper_uri(s@),
{
    s.as_bytes().len() <= 0x7fff_ffff && is_uri(s)
}

/// The location of a range in a file that is known under a proper URI.
pub open spec fn location_of(s: ServerView, uri: Seq<char>, range: Range<usize>) -> Option<
    LocationView,
> {
    match known_text(s, uri) {
        Some(b) => if proper_uri(uri) {
            Some(LocationView { uri, span: span_of(b, range, s.encoding) })
        } else {
            None
        },
        None => None,
    }
}

/// The identifier under the cursor in an open buffer, and the namespace there.
pub open spec fn word_and_namespace(s: ServerView, uri: Seq<char>, pos: LinePos) -> Option<
    (Seq<char>, Seq<char>),
> {
    match open_text(s, uri) {
        Some(b) => {
            let offset = offset_of(b, pos, s.encoding);
            match word_around(b, offset) {
                Some(word) => Some((word, namespace_in_file(s, uri, offset))),
                None => None,
            }
        },
        None => None,
    }
}

/// The namespace at an offset of a file, as it is indexed.
pub open spec fn namespace_in_file(s: ServerView, uri: Seq<char>, offset: int) -> Seq<char> {
    match text_of(s.files, uri) {
        Some(t) => namespace_of(outline_of(t).symbols, offset),
        None => seq![':', ':'],
    }
}

/// The locations of the names of the hits from `k` on.
pub open spec fn hit_locations(s: ServerView, found: Seq<HitView>, k: int) -> Seq<LocationView>
    decreases found.len() - k,
{
    if k < 0 || k >= found.len() {
        seq![]
    } else {
        one_location(location_of(s, found[k].uri, found[k].def.name_range)) + hit_locations(
            s,
            found,
            k + 1,
        )
    }
}

pub open spec fn one_location(l: Option<LocationView>) -> Seq<LocationView> {
    match l {
        Some(x) => seq![x],
        None => seq![],
    }
}

/// The locations of the uses from `k` on.
pub open spec fn use_locations(s: ServerView, found: Seq<LocView>, k: int) -> Seq<LocationView>
    decreases found.len() - k,
{
    if k < 0 || k >= found.len() {
        seq![]
    } else {
        one_location(location_of(s, found[k].uri, found[k].range)) + use_locations(
            s,
            found,
            k + 1,
        )
    }
}

/// The answer to a workspace search, from the hit in place `k` on.
pub open spec fn hit_infos(s: ServerView, found: Seq<HitView>, k: int) -> Seq<SymbolInfoView>
    decreases found.len() - k,
{
    if k < 0 || k >= found.len() {
        seq![]
    } else {
        (match location_of(s, found[k].uri, found[k].def.name_range) {
            Some(location) => seq![
                SymbolInfoView { name: found[k].def.qname, kind: found[k].def.kind, location },
            ],
            None => seq![],
        }) + hit_infos(s, found, k + 1)
    }
}

/// Where the definitions of the name under the cursor are; nothing if there is no
/// name or no definition.
pub open spec fn definition_answer(s: ServerView, uri: Seq<char>, pos: LinePos) -> Option<
    Seq<LocationView>,
> {
    match word_and_namespace(s, uri, pos) {
        Some((word, ns)) => {
            let all = hit_locations(s, resolved(s.files, word, ns), 0);
            if all.len() > 0 {
                Some(all)
            } else {
                None
            }
        },
        None => None,
    }
}

/// Where the name under the cursor is used. It is resolved first, so that a bare
/// and a qualified name find the same use sites.
pub open spec fn references_answer(
    s: ServerView,
    uri: Seq<char>,
    pos: LinePos,
    declarations: bool,
) -> Option<Seq<LocationView>> {
    match word_and_namespace(s, uri, pos) {
        Some((word, ns)) => {
            let found = resolved(s.files, word, ns);
            let qname = if found.len() > 0 {
                found[0].def.qname
            } else {
                qualified(ns, word)
            };
            Some(
                use_locations(s, uses(s.files, 0, qname), 0) + (if declarations {
                    hit_locations(s, found, 0)
                } else {
                    seq![]
                }),
            )
        },
        None => None,
    }
}

/// The uses of a name among the references of a file, from `k` on.
pub open spec fn read_highlights(
    b: Seq<u8>,
    refs: Seq<RefView>,
    k: int,
    word: Seq<char>,
    enc: PositionEncoding,
) -> Seq<Highlight>
    decreases refs.len() - k,
{
    if k < 0 || k >= refs.len() {
        seq![]
    } else {
        (if refs[k].name == word || last_part(refs[k].name) == last_part(word) {
            seq![Highlight { span: span_of(b, refs[k].range, enc), write: false }]
        } else {
            seq![]
        }) + read_highlights(b, refs, k + 1, word, enc)
    }
}

/// The definitions of a name among those of a file, from `k` on.
pub open spec fn write_highlights(
    b: Seq<u8>,
    defs: Seq<DefView>,
    k: int,
    word: Seq<char>,
    enc: PositionEncoding,
) -> Seq<Highlight>
    decreases defs.len() - k,
{
    if k < 0 || k >= defs.len() {
        seq![]
    } else {
        (if defs[k].name == last_part(word) {
            seq![Highlight { span: span_of(b, defs[k].name_range, enc), write: true }]
        } else {
            seq![]
        }) + write_highlights(b, defs, k + 1, word, enc)
    }
}

/// Where the name under the cursor occurs in its file.
pub open spec fn highlights_answer(s: ServerView, uri: Seq<char>, pos: LinePos) -> Option<
    Seq<Highlight>,
> {
    match (word_and_namespace(s, uri, pos), open_text(s, uri), text_of(s.files, uri)) {
        (Some((word, _)), Some(b), Some(t)) => Some(
            read_highlights(b, outline_of(t).refs, 0, word, s.encoding) + write_highlights(
                b,
                defs_of(t),
                0,
                word,
                s.encoding,
            ),
        ),
        _ => None,
    }
}

/// The hover text of a definition: its signature as code, then its documentation.
pub open spec fn definition_markdown(d: DefView) -> Seq<char> {
    "```tcl\n"@ + signature_of(d) + "\n```"@ + (match d.doc {
        Some(doc) => "\n\n"@ + doc,
        None => seq![],
    })
}

/// The hover text at a position. A definition in the user's own code wins over a
/// builtin of the same name, because it is what will actually run.
pub open spec fn hover_answer(s: ServerView, uri: Seq<char>, pos: LinePos) -> Option<Seq<char>> {
    match word_and_namespace(s, uri, pos) {
        Some((word, ns)) => {
            let found = resolved(s.files, word, ns);
            if found.len() > 0 {
                Some(definition_markdown(found[0].def))
            } else {
                match place_of(s.kb.names(), word) {
                    Some(i) => Some(markdown_of(s.kb.commands@[i]@)),
                    None => None,
                }
            }
        },
        None => None,
    }
}

pub open spec fn item_kind(kind: SymbolKind) -> ItemKind {
    match kind {
        SymbolKind::Proc => ItemKind::Function,
        SymbolKind::Method => ItemKind::Method,
        SymbolKind::Class => ItemKind::Class,
        SymbolKind::Namespace => ItemKind::Module,
        _ => ItemKind::Variable,
    }
}

/// A completion for a definition of the workspace. These sort above builtins.
pub open spec fn definition_item(d: DefView) -> ItemView {
    ItemView {
        label: d.name,
        kind: item_kind(d.kind),
        detail: Some(signature_of(d)),
        documentation: d.doc,
        markdown: false,
        sort_text: Some("0"@ + d.name),
    }
}

/// A completion for a builtin command.
pub open spec fn builtin_item(c: BuiltinView) -> ItemView {
    ItemView {
        label: c.name,
        kind: ItemKind::Keyword,
        detail: Some(
            if c.synopsis.len() > 0 {
                c.synopsis[0]
            } else {
                c.summary
            },
        ),
        documentation: Some(markdown_of(c)),
        markdown: true,
        sort_text: Some("1"@ + c.name),
    }
}

pub open spec fn variable_item(v: VarView) -> ItemView {
    ItemView {
        label: v.name,
        kind: ItemKind::Variable,
        detail: None,
        documentation: None,
        markdown: false,
        sort_text: None,
    }
}

/// Whether a qualified name is among those of the first `n` definitions.
pub open spec fn defined_before(defs: Seq<DefView>, n: int, qname: Seq<char>) -> bool {
    exists|i: int| 0 <= i < n && (#[trigger] defs[i]).qname == qname
}

/// The completions of the definitions from `k` on, each qualified name once.
pub open spec fn definition_items(defs: Seq<DefView>, k: int) -> Seq<ItemView>
    decreases defs.len() - k,
{
    if k < 0 || k >= defs.len() {
        seq![]
    } else {
        (if defined_before(defs, k, defs[k].qname) {
            seq![]
        } else {
            seq![definition_item(defs[k])]
        }) + definition_items(defs, k + 1)
    }
}

pub open spec fn named_before(commands: Seq<Builtin>, n: int, name: Seq<char>) -> bool {
    exists|i: int| 0 <= i < n && (#[trigger] commands[i]).name@ == name
}

/// The completions of the builtins from `k` on, each name once, and none that a
/// definition already has as its qualified name.
pub open spec fn builtin_items(commands: Seq<Builtin>, defs: Seq<DefView>, k: int) -> Seq<ItemView>
    decreases commands.len() - k,
{
    if k < 0 || k >= commands.len() {
        seq![]
    } else {
        (if defined_before(defs, defs.len() as int, commands[k].name@) || named_before(
            commands,
            k,
            commands[k].name@,
        ) {
            seq![]
        } else {
            seq![builtin_item(commands[k]@)]
        }) + builtin_items(commands, defs, k + 1)
    }
}

/// Whether these are the completions at a position: after a `$` the variables that
/// can be seen there, else the definitions of the workspace and the builtins.
pub open spec fn completion_answer(
    s: ServerView,
    uri: Seq<char>,
    pos: LinePos,
    out: Option<Seq<ItemView>>,
) -> bool {
    match open_text(s, uri) {
        None => out is None,
        Some(b) => {
            let offset = offset_of(b, pos, s.encoding);
            let before = text_before(b, offset);
            out is Some && if after_dollar(before, before.len() as int) {
                match text_of(s.files, uri) {
                    Some(t) => exists|vars: Seq<VarView>| #[trigger]
                        offered(outline_of(t).variables, offset, vars) && out->0
                            == vars.map_values(|v: VarView| variable_item(v)),
                    None => out->0.len() == 0,
                }
            } else {
                let defs = all_defs(s.files, 0);
                out->0 == definition_items(defs, 0) + builtin_items(s.kb.commands@, defs, 0)
            }
        },
    }
}

/// The signature of a user-defined proc, from its argument list.
pub open spec fn user_signature_of(s: ServerView, name: Seq<char>, ns: Seq<char>) -> Option<
    SignatureView,
> {
    let found = resolved(s.files, name, ns);
    if found.len() > 0 {
        let d = found[0].def;
        Some(
            SignatureView {
                label: signature_of(d),
                documentation: d.doc,
                parameters: arg_names(
                    match d.detail {
                        Some(args) => args,
                        None => seq![],
                    },
                ),
            },
        )
    } else {
        None
    }
}

/// The parameter labels of a documented synopsis: each word after the first.
pub open spec fn synopsis_labels(label: Seq<char>) -> Seq<Seq<char>> {
    let all = split_words(label);
    if all.len() > 0 {
        all.drop_first()
    } else {
        all
    }
}

/// The second word of a command as written.
pub open spec fn second_word(b: Seq<u8>, c: CommandView) -> Option<Seq<char>> {
    let words = words_of(c.tokens);
    if words.len() > 1 && words[1].len() > 0 {
        token_text(b, words[1][0])
    } else {
        None
    }
}

/// A signature from the database of builtins. The subcommand's own is preferred
/// when the second word names one.
pub open spec fn builtin_signature_of(
    kb: Kb,
    name: Seq<char>,
    b: Seq<u8>,
    c: CommandView,
) -> Option<SignatureView> {
    match place_of(kb.names(), name) {
        None => None,
        Some(i) => {
            let builtin = kb.commands@[i];
            let sub = match second_word(b, c) {
                Some(word) => match subcommand_at(builtin.subcommands@, 0, word) {
                    Some(k) => Some(builtin.subcommands@[k]@),
                    None => None,
                },
                None => None,
            };
            let label = match sub {
                Some(s) => s.signature,
                None => if builtin.synopsis@.len() > 0 {
                    builtin.synopsis@[0]@
                } else {
                    builtin.name@
                },
            };
            let doc = match sub {
                Some(s) => if s.doc.len() > 0 {
                    s.doc
                } else {
                    builtin.summary@
                },
                None => builtin.summary@,
            };
            Some(
                SignatureView {
                    label,
                    documentation: Some(doc),
                    parameters: synopsis_labels(label),
                },
            )
        },
    }
}

/// The signature of a command: the user's own, or that of a builtin.
pub open spec fn signature_for(
    s: ServerView,
    name: Seq<char>,
    ns: Seq<char>,
    b: Seq<u8>,
    c: CommandView,
) -> Option<SignatureView> {
    match user_signature_of(s, name, ns) {
        Some(sig) => Some(sig),
        None => builtin_signature_of(s.kb, name, b, c),
    }
}

pub struct SignatureHelpView {
    pub signature: SignatureView,
    pub active_parameter: int,
}

impl View for SignatureHelp {
    type V = SignatureHelpView;

    open spec fn view(&self) -> SignatureHelpView {
        SignatureHelpView {
            signature: self.signature@,
            active_parameter: self.active_parameter as int,
        }
    }
}

/// The parameter that is next when the cursor is at word `index` of a command:
/// word 0 is the command itself, and past the last parameter it is the last.
pub open spec fn active_parameter(index: int, parameters: int) -> int {
    let wanted = if index > 0 {
        index - 1
    } else {
        0
    };
    let last = if parameters > 0 {
        parameters - 1
    } else {
        0
    };
    let shown = if wanted < last {
        wanted
    } else {
        last
    };
    if shown < u32::MAX {
        shown
    } else {
        u32::MAX as int
    }
}

/// The signature of the command being typed. A command with a computed name has
/// none that can be known.
pub open spec fn signature_answer(s: ServerView, uri: Seq<char>, pos: LinePos) -> Option<
    SignatureHelpView,
> {
    match open_text(s, uri) {
        None => None,
        Some(b) => {
            let offset = offset_of(b, pos, s.encoding);
            let whole = Range { start: 0usize, end: b.len() as usize };
            match innermost(b, whole, offset, MAX_DESCENT as nat) {
                None => None,
                Some(e) => match e.name {
                    None => None,
                    Some(name) => {
                        let ns = namespace_in_file(s, uri, offset);
                        match signature_for(s, name, ns, b, e.command) {
                            None => None,
                            Some(signature) => Some(
                                SignatureHelpView {
                                    signature,
                                    active_parameter: active_parameter(
                                        e.word_index,
                                        signature.parameters.len() as int,
                                    ),
                                },
                            ),
                        }
                    },
                },
            }
        },
    }
}

/// Whether the spans are those around a position, innermost first; with nothing
/// around it, the position itself.
pub open spec fn selection_answer(
    s: ServerView,
    b: Seq<u8>,
    pos: LinePos,
    out: Seq<Span>,
) -> bool {
    exists|chain: Seq<Range<usize>>| #[trigger]
        is_chain(b, offset_of(b, pos, s.encoding), chain) && out == (if chain.len() > 0 {
            chain.map_values(|r: Range<usize>| span_of(b, r, s.encoding))
        } else {
            seq![Span { start: pos, end: pos }]
        })
}

/// The mentions of files and packages from `k` on. A package is linked to the file
/// that declares it, by declaration and not by name of the file; one that no file
/// declares is left out.
pub open spec fn mentions(
    s: ServerView,
    b: Seq<u8>,
    links: Seq<crate::outline::LinkView>,
    k: int,
) -> Seq<MentionView>
    decreases links.len() - k,
{
    if k < 0 || k >= links.len() {
        seq![]
    } else {
        let span = span_of(b, links[k].range, s.encoding);
        (match links[k].kind {
            LinkKind::Source => seq![MentionView::File { span, path: links[k].name }],
            LinkKind::PackageRequire => match provider(s.files, 0, links[k].name) {
                Some((target, _)) => if proper_uri(target) {
                    seq![
                        MentionView::Package(
                            LinkView {
                                span,
                                target,
                                tooltip: "package provide "@ + links[k].name,
                            },
                        ),
                    ]
                } else {
                    seq![]
                },
                None => seq![],
            },
        }) + mentions(s, b, links, k + 1)
    }
}

/// The files and packages that an indexed file mentions.
pub open spec fn mentions_answer(s: ServerView, uri: Seq<char>) -> Option<Seq<MentionView>> {
    match (text_of(s.files, uri), known_text(s, uri)) {
        (Some(t), Some(b)) => Some(mentions(s, b, outline_of(t).links, 0)),
        _ => None,
    }
}

// ---------------------------------------------------------------- diagnostics
/// Whether an error is only what a half-typed line at the end of the buffer looks
/// like: incomplete, with nothing but white space from there on.
pub open spec fn is_half_typed(b: Seq<u8>, e: ErrorView) -> bool {
    let at = if e.range.start < b.len() {
        e.range.start as int
    } else {
        b.len() as int
    };
    e.incomplete && match utf8_text(b.subrange(at, b.len() as int)) {
        Some(rest) => trim(rest).len() == 0,
        None => false,
    }
}

/// The diagnostics of the errors from `k` on, without what is half-typed.
pub open spec fn error_diagnostics(
    b: Seq<u8>,
    errors: Seq<ErrorView>,
    k: int,
    enc: PositionEncoding,
) -> Seq<DiagnosticView>
    decreases errors.len() - k,
{
    if k < 0 || k >= errors.len() {
        seq![]
    } else {
        (if is_half_typed(b, errors[k]) {
            seq![]
        } else {
            seq![
                DiagnosticView {
                    span: span_of(b, errors[k].range, enc),
                    level: if errors[k].incomplete {
                        Level::Warning
                    } else {
                        Level::Error
                    },
                    code: None,
                    source: "tcl-lsp"@,
                    message: errors[k].message,
                },
            ]
        }) + error_diagnostics(b, errors, k + 1, enc)
    }
}

/// The diagnostic of an external finding: from its column, or the start of the
/// line, to the end of the line.
pub open spec fn finding_diagnostic(
    b: Seq<u8>,
    f: Finding,
    enc: PositionEncoding,
) -> DiagnosticView {
    let line_end = offset_of(b, LinePos { line: f.line, character: u32::MAX }, enc);
    DiagnosticView {
        span: Span {
            start: LinePos {
                line: f.line,
                character: match f.column {
                    Some(c) => c,
                    None => 0,
                },
            },
            end: position_of(b, line_end, enc),
        },
        level: match f.severity {
            Severity::Error => Level::Error,
            Severity::Warning => Level::Warning,
            Severity::Info => Level::Information,
        },
        code: text_option(f.code),
        source: f.source@,
        message: f.message@,
    }
}

/// The diagnostics of a text: its own errors, then the external findings.
pub open spec fn diagnostics_answer(
    b: Seq<u8>,
    findings: Seq<Finding>,
    enc: PositionEncoding,
) -> Seq<DiagnosticView> {
    error_diagnostics(b, outline_of(b).errors, 0, enc) + findings.map_values(
        |f: Finding| finding_diagnostic(b, f, enc),
    )
}

// ------------------------------------------------------------------- changes
/// The text after one change that a client reports.
pub open spec fn changed(b: Seq<u8>, c: TextChange, enc: PositionEncoding) -> Seq<u8> {
    match c.span {
        Some(span) => edited(
            b,
            Range {
                start: offset_of(b, span.start, enc) as usize,
                end: offset_of(b, span.end, enc) as usize,
            },
            encode_utf8(c.text@),
        ),
        None => encode_utf8(c.text@),
    }
}

/// The text after the changes from `k` on, one after another; nothing if one of
/// them makes it longer than positions can count.
pub open spec fn changed_all(
    b: Seq<u8>,
    changes: Seq<TextChange>,
    k: int,
    enc: PositionEncoding,
) -> Option<Seq<u8>>
    decreases changes.len() - k,
{
    if k < 0 || k >= changes.len() {
        Some(b)
    } else if changed(b, changes[k], enc).len() < u32::MAX {
        changed_all(changed(b, changes[k], enc), changes, k + 1, enc)
    } else {
        None
    }
}

/// What edits replace, and by what.
pub open spec fn edit_views(v: Seq<TextEdit>) -> Seq<(Span, Seq<char>)> {
    v.map_values(|e: TextEdit| (e.span, e.new_text@))
}

/// The edits that bring a text into its formatted form.
pub open spec fn format_edits(
    b: Seq<u8>,
    formatted: Option<Seq<char>>,
    enc: PositionEncoding,
) -> Seq<(Span, Seq<char>)> {
    match formatted {
        Some(f) => if encode_utf8(f) == b {
            seq![]
        } else {
            seq![
                (
                    Span {
                        start: LinePos { line: 0, character: 0 },
                        end: position_of(b, b.len() as int, enc),
                    },
                    f,
                ),
            ]
        },
        None => seq![],
    }
}

// ------------------------------------------------------------------- requests
/// What a client can ask for.
#[derive(Debug, Clone, Copy, PartialEq, Eq, Structural)]
pub enum RequestKind {
    DocumentSymbols,
    Definition,
    References,
    Highlights,
    Hover,
    Completion,
    Folding,
    Selection,
    Links,
    SignatureHelp,
    WorkspaceSymbols,
    Formatting,
    Unknown,
}

pub open spec fn request_of(method: Seq<char>) -> RequestKind {
    if method == "textDocument/documentSymbol"@ {
        RequestKind::DocumentSymbols
    } else if method == "textDocument/definition"@ {
        RequestKind::Definition
    } else if method == "textDocument/references"@ {
        RequestKind::References
    } else if method == "textDocument/documentHighlight"@ {
        RequestKind::Highlights
    } else if method == "textDocument/hover"@ {
        RequestKind::Hover
    } else if method == "textDocument/completion"@ {
        RequestKind::Completion
    } else if method == "textDocument/foldingRange"@ {
        RequestKind::Folding
    } else if method == "textDocument/selectionRange"@ {
        RequestKind::Selection
    } else if method == "textDocument/documentLink"@ {
        RequestKind::Links
    } else if method == "textDocument/signatureHelp"@ {
        RequestKind::SignatureHelp
    } else if method == "workspace/symbol"@ {
        RequestKind::WorkspaceSymbols
    } else if method == "textDocument/formatting"@ {
        RequestKind::Formatting
    } else {
        RequestKind::Unknown
    }
}

/// What a request asks for, by its method.
pub fn request_kind(method: &str) -> (r: RequestKind)
    ensures
        r == request_of(method@),
{
    if same_text(method, "textDocument/documentSymbol") {
        RequestKind::DocumentSymbols
    } else if same_text(method, "textDocument/definition") {
        RequestKind::Definition
    } else if same_text(method, "textDocument/references") {
        RequestKind::References
    } else if same_text(method, "textDocument/documentHighlight") {
        RequestKind::Highlights
    } else if same_text(method, "textDocument/hover") {
        RequestKind::Hover
    } else if same_text(method, "textDocument/completion") {
        RequestKind::Completion
    } else if same_text(method, "textDocument/foldingRange") {
        RequestKind::Folding
    } else if same_text(method, "textDocument/selectionRange") {
        RequestKind::Selection
    } else if same_text(method, "textDocument/documentLink") {
        RequestKind::Links
    } else if same_text(method, "textDocument/signatureHelp") {
        RequestKind::SignatureHelp
    } else if same_text(method, "workspace/symbol") {
        RequestKind::WorkspaceSymbols
    } else if same_text(method, "textDocument/formatting") {
        RequestKind::Formatting
    } else {
        RequestKind::Unknown
    }
}

/// What a client can report.
#[derive(Debug, Clone, Copy, PartialEq, Eq, Structural)]
pub enum NotificationKind {
    Opened,
    Changed,
    Saved,
    Closed,
    FilesChanged,
    ConfigurationChanged,
    Unknown,
}

pub open spec fn notification_of(method: Seq<char>) -> NotificationKind {
    if method == "textDocument/didOpen"@ {
        NotificationKind::Opened
    } else if method == "textDocument/didChange"@ {
        NotificationKind::Changed
    } else if method == "textDocument/didSave"@ {
        NotificationKind::Saved
    } else if method == "textDocument/didClose"@ {
        NotificationKind::Closed
    } else if method == "workspace/didChangeWatchedFiles"@ {
        NotificationKind::FilesChanged
    } else if method == "workspace/didChangeConfiguration"@ {
        NotificationKind::ConfigurationChanged
    } else {
        NotificationKind::Unknown
    }
}

/// What a notification reports, by its method.
pub fn notification_kind(method: &str) -> (r: NotificationKind)
    ensures
        r == notification_of(method@),
{
    if same_text(method, "textDocument/didOpen") {
        NotificationKind::Opened
    } else if same_text(method, "textDocument/didChange") {
        NotificationKind::Changed
    } else if same_text(method, "textDocument/didSave") {
        NotificationKind::Saved
    } else if same_text(method, "textDocument/didClose") {
        NotificationKind::Closed
    } else if same_text(method, "workspace/didChangeWatchedFiles") {
        NotificationKind::FilesChanged
    } else if same_text(method, "workspace/didChangeConfiguration") {
        NotificationKind::ConfigurationChanged
    } else {
        NotificationKind::Unknown
    }
}

/// Whether the external analysers run after a notification.
pub open spec fn runs_analysers(kind: NotificationKind) -> bool {
    kind == NotificationKind::Opened || kind == NotificationKind::Saved
}

/// Whether the external analysers run after a notification. They cost tens of
/// milliseconds each, so they run on open and on save, not on every keystroke.
pub fn is_thorough(kind: NotificationKind) -> (r: bool)
    ensures
        r == runs_analysers(kind),
        r == (kind == NotificationKind::Opened || kind == NotificationKind::Saved),
{
    match kind {
        NotificationKind::Opened | NotificationKind::Saved => true,
        _ => false,
    }
}

/// The position encoding to use, from those that the client offers.
pub open spec fn encoding_for(offered: Option<Seq<Seq<char>>>) -> PositionEncoding {
    match offered {
        Some(list) => if list.contains("utf-8"@) {
            PositionEncoding::Utf8
        } else {
            PositionEncoding::Utf16
        },
        None => PositionEncoding::Utf16,
    }
}

/// The position encoding to use, from those that the client offers: UTF-8 if it is
/// among them, else the protocol's default.
pub fn negotiate_encoding(offered: Option<&Vec<String>>) -> (r: PositionEncoding)
    ensures
        r == encoding_for(
            match offered {
                Some(list) => Some(texts(list@)),
                None => None,
            },
        ),
        r == (match offered {
            Some(list) => if texts(list@).contains("utf-8"@) {
                PositionEncoding::Utf8
            } else {
                PositionEncoding::Utf16
            },
            None => PositionEncoding::Utf16,
        }),
{
    match offered {
        Some(list) => {
            let ghost all = texts(list@);
            let mut i: usize = 0;
            while i < list.len()
                invariant
                    i <= list@.len(),
                    offered == Some(list),
                    all == texts(list@),
                    forall|k: int| 0 <= k < i ==> #[trigger] all[k] != "utf-8"@,
                decreases list@.len() - i,
            {
                assert(all[i as int] == list@[i as int]@);
                if same_text(list[i].as_str(), "utf-8") {
                    return PositionEncoding::Utf8;
                }
                i = i + 1;
            }
            PositionEncoding::Utf16
        },
        None => PositionEncoding::Utf16,
    }
}

/// The paths of the URIs from `k` on that are of files.
pub open spec fn paths_of(uris: Seq<Seq<char>>, k: int) -> Seq<Seq<char>>
    decreases uris.len() - k,
{
    if k < 0 || k >= uris.len() {
        seq![]
    } else {
        (match path_of(encode_utf8(uris[k])) {
            Some(p) => seq![p],
            None => seq![],
        }) + paths_of(uris, k + 1)
    }
}

proof fn lemma_one_path(uri: Seq<char>)
    ensures
        paths_of(seq![uri], 0) == (match path_of(encode_utf8(uri)) {
            Some(p) => seq![p],
            None => seq![],
        }),
{
    assert(seq![uri][0] == uri);
    assert(paths_of(seq![uri], 1) =~= seq![]);
    if let Some(p) = path_of(encode_utf8(uri)) {
        assert(seq![p] + Seq::<Seq<char>>::empty() =~= seq![p]);
    } else {
        assert(Seq::<Seq<char>>::empty() + Seq::<Seq<char>>::empty() =~= seq![]);
    }
}

/// The directories of a workspace.
pub open spec fn roots_of(folders: Seq<Seq<char>>, root: Option<Seq<char>>) -> Seq<Seq<char>> {
    let named = paths_of(folders, 0);
    if named.len() > 0 {
        named
    } else {
        match root {
            Some(r) => paths_of(seq![r], 0),
            None => seq![],
        }
    }
}

/// The directories of a workspace: its folders, or if there are none its root.
pub fn workspace_roots(folders: &Vec<String>, root: Option<&String>) -> (out: Vec<String>)
    ensures
        texts(out@) == roots_of(
            texts(folders@),
            match root {
                Some(r) => Some(r@),
                None => None,
            },
        ),
        ({
            let named = paths_of(texts(folders@), 0);
            texts(out@) == (if named.len() > 0 {
                named
            } else {
                match root {
                    Some(r) => match path_of(encode_utf8(r@)) {
                        Some(p) => seq![p],
                        None => seq![],
                    },
                    None => seq![],
                }
            })
        }),
{
    let ghost all = texts(folders@);
    let ghost whole = paths_of(all, 0);
    let mut out: Vec<String> = Vec::new();
    let mut k: usize = 0;
    assert(texts(out@) + whole =~= whole);
    while k < folders.len()
        invariant
            k <= folders@.len(),
            all == texts(folders@),
            whole == texts(out@) + paths_of(all, k as int),
        decreases folders@.len() - k,
    {
        assert(all[k as int] == folders@[k as int]@);
        let ghost was = texts(out@);
        let ghost mut step: Seq<Seq<char>> = seq![];
        if let Some(p) = uri_to_path(folders[k].as_str()) {
            proof {
                step = seq![p@];
            }
            out.push(p);
        }
        proof {
            let rest = paths_of(all, k + 1);
            assert(texts(out@) =~= was + step);
            assert(was + (step + rest) =~= (was + step) + rest);
        }
        k = k + 1;
    }
    assert(texts(out@) + Seq::<Seq<char>>::empty() =~= texts(out@));
    assert(texts(out@).len() == out@.len());
    if out.len() == 0 {
        if let Some(r) = root {
            proof {
                lemma_one_path(r@);
            }
            if let Some(p) = uri_to_path(r.as_str()) {
                out.push(p);
                assert(texts(out@) =~= seq![p@]);
            }
        }
    }
    out
}

// ----------------------------------------------------------------- the server
struct OpenDoc {
    uri: String,
    doc: Document,
}

spec fn doc_view(d: OpenDoc) -> DocView {
    DocView { uri: d.uri@, text: d.doc.bytes(), version: d.doc.spec_version() }
}

spec fn doc_views(v: Seq<OpenDoc>) -> Seq<DocView> {
    v.map_values(|d: OpenDoc| doc_view(d))
}

/// The open buffers, each once.
struct Buffers {
    docs: Vec<OpenDoc>,
}

impl View for Buffers {
    type V = Seq<DocView>;

    closed spec fn view(&self) -> Seq<DocView> {
        doc_views(self.docs@)
    }
}

impl Buffers {
    #[verifier::type_invariant]
    spec fn distinct(self) -> bool {
        docs_once(doc_views(self.docs@))
    }

    fn new() -> (r: Self)
        ensures
            r@.len() == 0,
    {
        Buffers { docs: Vec::new() }
    }

    fn find(&self, uri: &str) -> (r: Option<usize>)
        ensures
            match doc_at(self@, uri@, 0) {
                Some(i) => r is Some && r->0 == i && 0 <= i < self@.len(),
                None => r is None,
            },
            docs_once(self@),
    {
        proof {
            use_type_invariant(self);
        }
        let ghost all = self@;
        let mut i: usize = 0;
        while i < self.docs.len()
            invariant
                i <= self.docs@.len(),
                all == doc_views(self.docs@),
                docs_once(all),
                doc_at(all, uri@, 0) == doc_at(all, uri@, i as int),
            decreases self.docs@.len() - i,
        {
            assert(all[i as int] == doc_view(self.docs@[i as int]));
            if same_text(self.docs[i].uri.as_str(), uri) {
                return Some(i);
            }
            i = i + 1;
        }
        None
    }

    /// The document of that URI.
    fn get(&self, uri: &str) -> (r: Option<&Document>)
        ensures
            match doc_at(self@, uri@, 0) {
                Some(i) => {
                    &&& r is Some
                    &&& r->0.bytes() == self@[i].text
                    &&& r->0.spec_version() == self@[i].version
                },
                None => r is None,
            },
            docs_once(self@),
    {
        match self.find(uri) {
            Some(i) => {
                assert(self@[i as int] == doc_view(self.docs@[i as int]));
                Some(&self.docs[i].doc)
            },
            None => None,
        }
    }

    fn set(&mut self, uri: &str, doc: Document)
        ensures
            final(self)@ == with_doc(
                old(self)@,
                DocView { uri: uri@, text: doc.bytes(), version: doc.spec_version() },
            ),
    {
        proof {
            use_type_invariant(&*self);
        }
        let entry = OpenDoc { uri: uri.to_owned(), doc };
        let ghost before = self@;
        let ghost shown = doc_view(entry);
        let at = self.find(uri);
        let mut docs: Vec<OpenDoc> = Vec::new();
        core::mem::swap(&mut self.docs, &mut docs);
        proof {
            buffers_stay_distinct(before, shown, uri@);
        }
        match at {
            Some(i) => {
                docs.set(i, entry);
                assert(doc_views(docs@) =~= before.update(i as int, shown));
            },
            None => {
                docs.push(entry);
                assert(doc_views(docs@) =~= before.push(shown));
            },
        }
        self.docs = docs;
    }

    fn remove(&mut self, uri: &str)
        ensures
            final(self)@ == without_doc(old(self)@, uri@),
            doc_at(final(self)@, uri@, 0) is None,
    {
        proof {
            use_type_invariant(&*self);
            a_closed_buffer_is_gone(self@, uri@);
        }
        if let Some(i) = self.find(uri) {
            let ghost before = self@;
            let mut docs: Vec<OpenDoc> = Vec::new();
            core::mem::swap(&mut self.docs, &mut docs);
            let _ = docs.remove(i);
            assert(doc_views(docs@) =~= before.remove(i as int));
            self.docs = docs;
        }
    }
}

/// A database of builtins that can be searched.
struct Builtins {
    kb: Kb,
}

impl Builtins {
    #[verifier::type_invariant]
    spec fn ready(self) -> bool {
        self.kb.searchable()
    }

    fn kb(&self) -> (kb: &Kb)
        ensures
            *kb == self.kb,
            kb.searchable(),
    {
        proof {
            use_type_invariant(self);
        }
        &self.kb
    }
}

/// The server: open buffers, the workspace index, and the builtins.
pub struct Server {
    docs: Buffers,
    index: Index,
    builtins: Builtins,
    encoding: PositionEncoding,
}

impl View for Server {
    type V = ServerView;

    closed spec fn view(&self) -> ServerView {
        ServerView {
            docs: self.docs@,
            files: self.index@,
            kb: self.builtins.kb,
            encoding: self.encoding,
        }
    }
}

/// What a text on disk turned out to be.
pub enum Disk {
    /// The URI names no file.
    NoPath,
    Text(String),
    /// The file cannot be read.
    Gone,
}

impl Server {
    pub fn new(kb: Kb, encoding: PositionEncoding) -> (s: Self)
        requires
            kb.searchable(),
        ensures
            s@.docs.len() == 0,
            s@.files.len() == 0,
            s@.kb == kb,
            s@.encoding == encoding,
    {
        Server { docs: Buffers::new(), index: Index::new(), builtins: Builtins { kb }, encoding }
    }

    /// The open buffer of that URI.
    fn doc(&self, uri: &str) -> (r: Option<&Document>)
        ensures
            match open_text(self@, uri@) {
                Some(b) => r is Some && r->0.bytes() == b,
                None => r is None,
            },
    {
        self.docs.get(uri)
    }

    /// The version of an open buffer.
    pub fn version(&self, uri: &str) -> (r: Option<i32>)
        ensures
            r == (match doc_at(self@.docs, uri@, 0) {
                Some(i) => Some(self@.docs[i].version),
                None => None,
            }),
            docs_once(self@.docs),
            each_once(self@.files),
    {
        let _ = self.index.is_empty();
        match self.docs.get(uri) {
            Some(doc) => Some(doc.version()),
            None => None,
        }
    }

    /// The text of an open buffer.
    pub fn text(&self, uri: &str) -> (r: Option<&str>)
        ensures
            match open_text(self@, uri@) {
                Some(b) => r is Some && r->0.spec_bytes() == b,
                None => r is None,
            },
            docs_once(self@.docs),
            each_once(self@.files),
    {
        let _ = self.index.is_empty();
        match self.docs.get(uri) {
            Some(d) => Some(d.text()),
            None => None,
        }
    }

    // ----------------------------------------------------------- notifications
    /// Indexes a file of the workspace.
    pub fn index_file(&mut self, uri: &str, text: &str)
        requires
            text.spec_bytes().len() < u32::MAX,
        ensures
            final(self)@ == (ServerView {
                files: with_file(old(self)@.files, uri@, text.spec_bytes()),
                ..old(self)@
            }),
    {
        self.index.set_file(uri, text);
    }

    /// Replaces the database of builtins.
    pub fn set_builtins(&mut self, kb: Kb)
        requires
            kb.searchable(),
        ensures
            final(self)@ == (ServerView { kb, ..old(self)@ }),
    {
        self.builtins = Builtins { kb };
    }

    /// A buffer was opened. It is the only source of truth: the file on disk would
    /// ignore every unsaved edit.
    pub fn did_open(&mut self, uri: &str, text: String, version: i32)
        requires
            encode_utf8(text@).len() < u32::MAX,
        ensures
            final(self)@ == (ServerView {
                docs: with_doc(
                    old(self)@.docs,
                    DocView { uri: uri@, text: encode_utf8(text@), version },
                ),
                files: with_file(old(self)@.files, uri@, encode_utf8(text@)),
                ..old(self)@
            }),
            open_text(final(self)@, uri@) == Some(encode_utf8(text@)),
    {
        self.index.set_file(uri, text.as_str());
        self.docs.set(uri, Document::new(text, version));
        proof {
            an_opened_buffer_is_what_was_sent(
                old(self)@.docs,
                DocView { uri: uri@, text: encode_utf8(text@), version },
            );
        }
    }

    /// A buffer was edited. Its changes are applied one after another, and it is
    /// indexed anew. If a change would make it longer than positions can count,
    /// nothing is changed, and the answer is no.
    pub fn did_change(&mut self, uri: &str, changes: &Vec<TextChange>, version: i32) -> (applied:
        bool)
        ensures
            match doc_at(old(self)@.docs, uri@, 0) {
                None => applied && final(self)@ == old(self)@,
                Some(i) => match changed_all(
                    old(self)@.docs[i].text,
                    changes@,
                    0,
                    old(self)@.encoding,
                ) {
                    None => !applied && final(self)@ == old(self)@,
                    Some(text) => applied && final(self)@ == (ServerView {
                        docs: old(self)@.docs.update(
                            i,
                            DocView { uri: old(self)@.docs[i].uri, text, version },
                        ),
                        files: with_file(old(self)@.files, uri@, text),
                        ..old(self)@
                    }),
                },
            },
    {
        let mut doc = match self.docs.get(uri) {
            Some(doc) => doc.copy(version),
            None => {
                return true;
            },
        };
        let ghost i = doc_at(self@.docs, uri@, 0)->0;
        let enc = self.encoding;
        let ghost whole = changed_all(doc.bytes(), changes@, 0, enc);
        let mut k: usize = 0;
        while k < changes.len()
            invariant
                k <= changes@.len(),
                *self == *old(self),
                enc == self.encoding,
                doc_at(old(self)@.docs, uri@, 0) == Some(i),
                whole == changed_all(old(self)@.docs[i].text, changes@, 0, enc),
                whole == changed_all(doc.bytes(), changes@, k as int, enc),
                doc.spec_version() == version,
            decreases changes@.len() - k,
        {
            let change = &changes[k];
            match change.span {
                Some(span) => {
                    let li = doc.line_index();
                    let start = li.offset(span.start, enc);
                    let end = li.offset(span.end, enc);
                    if !doc.edit_fits(&(start..end), change.text.as_str()) {
                        return false;
                    }
                    doc.edit(start..end, change.text.as_str());
                },
                None => {
                    if change.text.as_str().as_bytes().len() as u64 >= u32::MAX as u64 {
                        return false;
                    }
                    doc.replace(change.text.clone());
                },
            }
            k = k + 1;
        }
        doc.set_version(version);
        self.index.set_file(uri, doc.text());
        self.docs.set(uri, doc);
        proof {
            lemma_doc_at(old(self)@.docs, uri@, 0);
        }
        true
    }

    /// A buffer was closed. The file stays indexed — it still exists on disk — but
    /// as it is there.
    pub fn did_close(&mut self, uri: &str, disk: &Disk)
        requires
            disk matches Disk::Text(t) ==> encode_utf8(t@).len() < u32::MAX,
        ensures
            final(self)@ == (ServerView {
                docs: without_doc(old(self)@.docs, uri@),
                files: match *disk {
                    Disk::NoPath => old(self)@.files,
                    Disk::Text(t) => with_file(old(self)@.files, uri@, encode_utf8(t@)),
                    Disk::Gone => without_file(old(self)@.files, uri@),
                },
                ..old(self)@
            }),
            open_text(final(self)@, uri@) is None,
    {
        self.docs.remove(uri);
        match disk {
            Disk::NoPath => {},
            Disk::Text(t) => {
                self.index.set_file(uri, t.as_str());
            },
            Disk::Gone => {
                self.index.remove(uri);
            },
        }
    }

    /// A file changed on disk. An open buffer wins over it.
    pub fn did_change_on_disk(&mut self, uri: &str, text: Option<&String>)
        requires
            text matches Some(t) ==> encode_utf8(t@).len() < u32::MAX,
        ensures
            final(self)@ == (if open_text(old(self)@, uri@) is Some {
                old(self)@
            } else {
                ServerView {
                    files: match text {
                        Some(t) => with_file(old(self)@.files, uri@, encode_utf8(t@)),
                        None => without_file(old(self)@.files, uri@),
                    },
                    ..old(self)@
                }
            }),
    {
        if self.docs.find(uri).is_some() {
            return;
        }
        match text {
            Some(t) => {
                self.index.set_file(uri, t.as_str());
            },
            None => {
                self.index.remove(uri);
            },
        }
    }

    // ------------------------------------------------------------- diagnostics
    /// The diagnostics of an open buffer, with those of the external analysers.
    pub fn diagnostics(&self, uri: &str, findings: &Vec<Finding>) -> (r: Option<Vec<Diagnostic>>)
        ensures
            match open_text(self@, uri@) {
                Some(b) => r is Some && diagnostic_views(r->0@) == diagnostics_answer(
                    b,
                    findings@,
                    self@.encoding,
                ),
                None => r is None,
            },
    {
        let doc = match self.doc(uri) {
            Some(d) => d,
            None => {
                return None;
            },
        };
        let ghost b = doc.bytes();
        let enc = self.encoding;
        let outline = doc.outline();
        let mut out = own_diagnostics(doc, &outline.errors, enc);
        let ghost own = diagnostic_views(out@);
        let ghost more = findings@.map_values(|f: Finding| finding_diagnostic(b, f, enc));
        let li = doc.line_index();
        let mut k: usize = 0;
        assert(own + more.take(0) =~= own);
        while k < findings.len()
            invariant
                k <= findings@.len(),
                li@ == b,
                more == findings@.map_values(|f: Finding| finding_diagnostic(b, f, enc)),
                diagnostic_views(out@) =~= own + more.take(k as int),
            decreases findings@.len() - k,
        {
            let ghost was = out@;
            let d = finding_to_diagnostic(&findings[k], li, enc);
            out.push(d);
            proof {
                assert(diagnostic_views(out@) =~= diagnostic_views(was).push(d@));
                assert(more[k as int] == d@);
            }
            k = k + 1;
        }
        assert(more.take(k as int) =~= more);
        Some(out)
    }

    // ----------------------------------------------------------------- helpers
    /// Converts a byte range in a file, using the open buffer or the indexed copy.
    fn range_in(&self, uri: &str, range: &Range<usize>) -> (r: Option<Span>)
        ensures
            r == (match known_text(self@, uri@) {
                Some(b) => Some(span_of(b, *range, self@.encoding)),
                None => None,
            }),
    {
        if let Some(doc) = self.doc(uri) {
            return Some(to_span(doc.line_index(), range, self.encoding));
        }
        match self.index.file(uri) {
            Some(f) => Some(to_span(&f.line_index, range, self.encoding)),
            None => None,
        }
    }

    fn location(&self, uri: &str, range: &Range<usize>) -> (r: Option<Location>)
        ensures
            match location_of(self@, uri@, *range) {
                Some(l) => r is Some && r->0@ == l,
                None => r is None,
            },
    {
        match self.range_in(uri, range) {
            Some(span) => if is_proper_uri(uri) {
                Some(Location { uri: uri.to_owned(), span })
            } else {
                None
            },
            None => None,
        }
    }

    fn file_namespace(&self, uri: &str, offset: usize) -> (r: String)
        ensures
            r@ == namespace_in_file(self@, uri@, offset as int),
    {
        match self.index.file(uri) {
            Some(f) => namespace_at(&f.outline.symbols, offset),
            None => {
                let mut root = String::new();
                root.push(':');
                root.push(':');
                assert(root@ =~= seq![':', ':']);
                root
            },
        }
    }

    /// The identifier under the cursor plus the namespace in force there.
    fn word_and_ns(&self, uri: &str, pos: LinePos) -> (r: Option<(String, String)>)
        ensures
            match word_and_namespace(self@, uri@, pos) {
                Some(w) => r is Some && (r->0).0@ == w.0 && (r->0).1@ == w.1,
                None => r is None,
            },
    {
        let doc = match self.doc(uri) {
            Some(d) => d,
            None => {
                return None;
            },
        };
        let offset = doc.line_index().offset(pos, self.encoding);
        match word_at(doc.text(), offset) {
            Some(word) => Some((word, self.file_namespace(uri, offset))),
            None => None,
        }
    }

    fn locate_hits(&self, found: &Vec<(&str, &Def)>, out: &mut Vec<Location>)
        ensures
            location_views(final(out)@) == location_views(old(out)@) + hit_locations(
                self@,
                hit_views(found@),
                0,
            ),
    {
        let ghost all = hit_views(found@);
        let ghost before = location_views(out@);
        let ghost whole = hit_locations(self@, all, 0);
        let ghost mut acc: Seq<LocationView> = seq![];
        let mut k: usize = 0;
        assert(acc + whole =~= whole);
        assert(before + acc =~= before);
        while k < found.len()
            invariant
                k <= found@.len(),
                all == hit_views(found@),
                location_views(out@) == before + acc,
                whole == acc + hit_locations(self@, all, k as int),
            decreases found@.len() - k,
        {
            let (uri, def) = found[k];
            assert(all[k as int] == HitView { uri: uri@, def: def@ });
            let ghost mut step: Seq<LocationView> = seq![];
            if let Some(l) = self.location(uri, &def.name_range) {
                let ghost was = out@;
                proof {
                    step = seq![l@];
                }
                out.push(l);
                assert(location_views(out@) =~= location_views(was).push(l@));
            }
            proof {
                let rest = hit_locations(self@, all, k + 1);
                assert(location_views(out@) =~= before + (acc + step));
                assert(acc + (step + rest) =~= (acc + step) + rest);
                acc = acc + step;
            }
            k = k + 1;
        }
        assert(acc + Seq::<LocationView>::empty() =~= acc);
    }

    // -------------------------------------------------------- request handlers
    /// The symbols of an open buffer.
    pub fn document_symbols(&self, uri: &str) -> (r: Option<Vec<SymbolNode>>)
        ensures
            match open_text(self@, uri@) {
                Some(b) => r is Some && node_views(r->0@) == nodes_of(
                    b,
                    outline_of(b).symbols,
                    0,
                    self@.encoding,
                ),
                None => r is None,
            },
    {
        match self.doc(uri) {
            Some(doc) => {
                let outline = doc.outline();
                Some(to_document_symbols(doc.line_index(), &outline.symbols, self.encoding))
            },
            None => None,
        }
    }

    /// The definitions in the workspace whose qualified name holds the query.
    pub fn workspace_symbols(&self, query: &str) -> (out: Vec<SymbolInfo>)
        ensures
            info_views(out@) == hit_infos(
                self@,
                first_hits(
                    hits(self@.files, 0, LookFor::Part, lowercase(query@)),
                    SEARCH_LIMIT as int,
                ),
                0,
            ),
    {
        let found = self.index.search(query, SEARCH_LIMIT);
        let ghost all = hit_views(found@);
        let ghost whole = hit_infos(self@, all, 0);
        let mut out: Vec<SymbolInfo> = Vec::new();
        let mut k: usize = 0;
        assert(info_views(out@) + whole =~= whole);
        while k < found.len()
            invariant
                k <= found@.len(),
                all == hit_views(found@),
                whole == info_views(out@) + hit_infos(self@, all, k as int),
            decreases found@.len() - k,
        {
            let (uri, def) = found[k];
            assert(all[k as int] == HitView { uri: uri@, def: def@ });
            let ghost was = info_views(out@);
            let ghost mut step: Seq<SymbolInfoView> = seq![];
            if let Some(location) = self.location(uri, &def.name_range) {
                let info = SymbolInfo { name: def.qname.clone(), kind: def.kind, location };
                proof {
                    step = seq![info@];
                }
                out.push(info);
            }
            proof {
                let rest = hit_infos(self@, all, k + 1);
                assert(info_views(out@) =~= was + step);
                assert(was + (step + rest) =~= (was + step) + rest);
            }
            k = k + 1;
        }
        assert(info_views(out@) + Seq::<SymbolInfoView>::empty() =~= info_views(out@));
        out
    }

    /// Where the name under the cursor is defined.
    pub fn goto_definition(&self, uri: &str, pos: LinePos) -> (r: Option<Vec<Location>>)
        ensures
            match definition_answer(self@, uri@, pos) {
                Some(all) => r is Some && location_views(r->0@) == all,
                None => r is None,
            },
    {
        let (word, ns) = match self.word_and_ns(uri, pos) {
            Some(w) => w,
            None => {
                return None;
            },
        };
        let found = self.index.resolve(word.as_str(), ns.as_str());
        let mut out: Vec<Location> = Vec::new();
        self.locate_hits(&found, &mut out);
        proof {
            let all = hit_locations(self@, hit_views(found@), 0);
            assert(location_views(out@) =~= all);
            assert(location_views(out@).len() == out@.len());
        }
        if out.len() == 0 {
            None
        } else {
            Some(out)
        }
    }

    /// Where the name under the cursor is used.
    pub fn references(&self, uri: &str, pos: LinePos, include_declaration: bool) -> (r: Option<
        Vec<Location>,
    >)
        ensures
            match references_answer(self@, uri@, pos, include_declaration) {
                Some(all) => r is Some && location_views(r->0@) == all,
                None => r is None,
            },
    {
        let (word, ns) = match self.word_and_ns(uri, pos) {
            Some(w) => w,
            None => {
                return None;
            },
        };
        let found = self.index.resolve(word.as_str(), ns.as_str());
        assert(hit_views(found@).len() == found@.len());
        let qname = if found.len() > 0 {
            let (_, def) = found[0];
            assert(hit_views(found@)[0].def == def@);
            def.qname.clone()
        } else {
            qualify(ns.as_str(), word.as_str())
        };
        let sites = self.index.references(qname.as_str());
        let ghost all = loc_views(sites@);
        let ghost whole = use_locations(self@, all, 0);
        let mut out: Vec<Location> = Vec::new();
        let mut k: usize = 0;
        assert(location_views(out@) + whole =~= whole);
        while k < sites.len()
            invariant
                k <= sites@.len(),
                all == loc_views(sites@),
                whole == location_views(out@) + use_locations(self@, all, k as int),
            decreases sites@.len() - k,
        {
            let site = &sites[k];
            assert(all[k as int] == site@);
            let ghost was = location_views(out@);
            let ghost mut step: Seq<LocationView> = seq![];
            if let Some(l) = self.location(site.uri.as_str(), &site.range) {
                proof {
                    step = seq![l@];
                }
                out.push(l);
            }
            proof {
                let rest = use_locations(self@, all, k + 1);
                assert(location_views(out@) =~= was + step);
                assert(was + (step + rest) =~= (was + step) + rest);
            }
            k = k + 1;
        }
        proof {
            assert(location_views(out@) + Seq::<LocationView>::empty() =~= location_views(out@));
        }
        if include_declaration {
            self.locate_hits(&found, &mut out);
        } else {
            assert(location_views(out@) + Seq::<LocationView>::empty() =~= location_views(out@));
        }
        Some(out)
    }

    /// Where the name under the cursor occurs in its file.
    pub fn highlights(&self, uri: &str, pos: LinePos) -> (r: Option<Vec<Highlight>>)
        ensures
            match highlights_answer(self@, uri@, pos) {
                Some(all) => r is Some && r->0@ == all,
                None => r is None,
            },
    {
        let (word, _) = match self.word_and_ns(uri, pos) {
            Some(w) => w,
            None => {
                return None;
            },
        };
        let (doc, f) = match (self.doc(uri), self.index.file(uri)) {
            (Some(d), Some(f)) => (d, f),
            _ => {
                return None;
            },
        };
        let li = doc.line_index();
        let enc = self.encoding;
        let ghost b = doc.bytes();
        let tail = last_segment(word.as_str());
        let refs = &f.outline.refs;
        let ghost views = ref_views(refs@);
        let ghost first = read_highlights(b, views, 0, word@, enc);
        let mut out: Vec<Highlight> = Vec::new();
        let mut k: usize = 0;
        assert(out@ + first =~= first);
        while k < refs.len()
            invariant
                k <= refs@.len(),
                li@ == b,
                views == ref_views(refs@),
                tail@ == last_part(word@),
                first == out@ + read_highlights(b, views, k as int, word@, enc),
            decreases refs@.len() - k,
        {
            let r = &refs[k];
            assert(views[k as int] == r@);
            let ghost was = out@;
            let ghost mut step: Seq<Highlight> = seq![];
            if same_text(r.name.as_str(), word.as_str()) || same_text(
                last_segment(r.name.as_str()).as_str(),
                tail.as_str(),
            ) {
                let h = Highlight { span: to_span(li, &r.range, enc), write: false };
                out.push(h);
                proof {
                    step = seq![h];
                }
            }
            proof {
                let rest = read_highlights(b, views, k + 1, word@, enc);
                assert(out@ =~= was + step);
                assert(was + (step + rest) =~= (was + step) + rest);
            }
            k = k + 1;
        }
        assert(out@ + Seq::<Highlight>::empty() =~= out@);
        let defs = &f.defs;
        let ghost dviews = crate::index::def_views(defs@);
        let ghost second = write_highlights(b, dviews, 0, word@, enc);
        let ghost mut acc: Seq<Highlight> = seq![];
        let mut m: usize = 0;
        assert(acc + second =~= second);
        assert(first + acc =~= first);
        while m < defs.len()
            invariant
                m <= defs@.len(),
                li@ == b,
                dviews == crate::index::def_views(defs@),
                tail@ == last_part(word@),
                out@ == first + acc,
                second == acc + write_highlights(b, dviews, m as int, word@, enc),
            decreases defs@.len() - m,
        {
            let d = &defs[m];
            assert(dviews[m as int] == d@);
            let ghost mut step: Seq<Highlight> = seq![];
            if same_text(d.name.as_str(), tail.as_str()) {
                let h = Highlight { span: to_span(li, &d.name_range, enc), write: true };
                out.push(h);
                proof {
                    step = seq![h];
                }
            }
            proof {
                let rest = write_highlights(b, dviews, m + 1, word@, enc);
                assert(out@ =~= first + (acc + step));
                assert(acc + (step + rest) =~= (acc + step) + rest);
                acc = acc + step;
            }
            m = m + 1;
        }
        assert(acc + Seq::<Highlight>::empty() =~= acc);
        Some(out)
    }

    /// What the name under the cursor is.
    pub fn hover(&self, uri: &str, pos: LinePos) -> (r: Option<String>)
        ensures
            text_option(r) == hover_answer(self@, uri@, pos),
    {
        let (word, ns) = match self.word_and_ns(uri, pos) {
            Some(w) => w,
            None => {
                return None;
            },
        };
        let found = self.index.resolve(word.as_str(), ns.as_str());
        assert(hit_views(found@).len() == found@.len());
        if found.len() > 0 {
            let (_, def) = found[0];
            assert(hit_views(found@)[0].def == def@);
            return Some(hover_definition(def));
        }
        match self.builtins.kb().get(word.as_str()) {
            Some(builtin) => Some(builtin.hover_markdown()),
            None => None,
        }
    }

    /// The completions at a position.
    pub fn completion(&self, uri: &str, pos: LinePos) -> (r: Option<Vec<Item>>)
        ensures
            completion_answer(
                self@,
                uri@,
                pos,
                match r {
                    Some(items) => Some(item_views(items@)),
                    None => None,
                },
            ),
    {
        let doc = match self.doc(uri) {
            Some(d) => d,
            None => {
                return None;
            },
        };
        let offset = doc.line_index().offset(pos, self.encoding);
        let c = self.index.completions_at(uri, offset);
        if wants_variable(doc.text(), offset) {
            let out = variable_items(&c.variables);
            proof {
                match text_of(self@.files, uri@) {
                    Some(t) => {
                        assert(offered(
                            outline_of(t).variables,
                            offset as int,
                            var_ref_views(c.variables@),
                        ));
                    },
                    None => {
                        assert(item_views(out@).len() == 0);
                    },
                }
            }
            return Some(out);
        }
        let mut out = workspace_items(&c.commands);
        let mut more = keyword_items(self.builtins.kb().iter(), &c.commands);
        let ghost first = item_views(out@);
        let ghost second = item_views(more@);
        out.append(&mut more);
        assert(item_views(out@) =~= first + second);
        Some(out)
    }

    /// The folds of an open buffer.
    pub fn folding(&self, uri: &str) -> (r: Option<Vec<Fold>>)
        ensures
            match open_text(self@, uri@) {
                Some(b) => r is Some && r->0@ == folds_of(
                    b,
                    outline_of(b).symbols,
                    0,
                    self@.encoding,
                ),
                None => r is None,
            },
    {
        match self.doc(uri) {
            Some(doc) => {
                let outline = doc.outline();
                let mut out: Vec<Fold> = Vec::new();
                collect_folds(&outline.symbols, doc.line_index(), self.encoding, &mut out);
                assert(out@ =~= folds_of(
                    doc.bytes(),
                    outline_of(doc.bytes()).symbols,
                    0,
                    self@.encoding,
                ));
                Some(out)
            },
            None => None,
        }
    }

    /// "Expand selection": the chain of constructs around each requested position,
    /// innermost first.
    pub fn selection_ranges(&self, uri: &str, positions: &Vec<LinePos>) -> (r: Option<
        Vec<Vec<Span>>,
    >)
        ensures
            match open_text(self@, uri@) {
                Some(b) => {
                    &&& r is Some
                    &&& r->0@.len() == positions@.len()
                    &&& forall|i: int|
                        0 <= i < positions@.len() ==> selection_answer(
                            self@,
                            b,
                            #[trigger] positions@[i],
                            r->0@[i]@,
                        )
                },
                None => r is None,
            },
    {
        let doc = match self.doc(uri) {
            Some(d) => d,
            None => {
                return None;
            },
        };
        let script = Script::new(doc.text());
        let li = doc.line_index();
        let enc = self.encoding;
        let ghost b = doc.bytes();
        let mut out: Vec<Vec<Span>> = Vec::new();
        let mut i: usize = 0;
        while i < positions.len()
            invariant
                i <= positions@.len(),
                out@.len() == i,
                li@ == b,
                script@ == b,
                enc == self@.encoding,
                forall|k: int|
                    0 <= k < i ==> selection_answer(
                        self@,
                        b,
                        #[trigger] positions@[k],
                        out@[k]@,
                    ),
            decreases positions@.len() - i,
        {
            let pos = positions[i];
            let offset = li.offset(pos, enc);
            let chain = selection_chain(&script, offset);
            let ghost spans = chain@.map_values(|r: Range<usize>| span_of(b, r, enc));
            let mut one: Vec<Span> = Vec::new();
            let mut k: usize = 0;
            while k < chain.len()
                invariant
                    k <= chain@.len(),
                    li@ == b,
                    spans == chain@.map_values(|r: Range<usize>| span_of(b, r, enc)),
                    one@ =~= spans.take(k as int),
                decreases chain@.len() - k,
            {
                one.push(to_span(li, &chain[k], enc));
                k = k + 1;
            }
            assert(spans.take(k as int) =~= spans);
            if chain.len() == 0 {
                one.push(Span { start: pos, end: pos });
                assert(one@ =~= seq![Span { start: pos, end: pos }]);
            }
            proof {
                assert(is_chain(b, offset as int, chain@));
                assert(selection_answer(self@, b, pos, one@));
            }
            let ghost was = out@;
            out.push(one);
            proof {
                assert forall|k: int| 0 <= k < i + 1 implies selection_answer(
                    self@,
                    b,
                    #[trigger] positions@[k],
                    out@[k]@,
                ) by {
                    if k < i {
                        assert(out@[k] == was[k]);
                    }
                }
            }
            i = i + 1;
        }
        Some(out)
    }

    /// The files and packages that a file mentions.
    pub fn document_links(&self, uri: &str) -> (r: Option<Vec<Mention>>)
        ensures
            match mentions_answer(self@, uri@) {
                Some(all) => r is Some && mention_views(r->0@) == all,
                None => r is None,
            },
    {
        let f = match self.index.file(uri) {
            Some(f) => f,
            None => {
                return None;
            },
        };
        let ghost b = known_text(self@, uri@)->0;
        let links = &f.outline.links;
        let ghost views = links@.map_values(|l: LinkRef| l@);
        let ghost whole = mentions(self@, b, views, 0);
        let mut out: Vec<Mention> = Vec::new();
        let mut k: usize = 0;
        assert(mention_views(out@) + whole =~= whole);
        while k < links.len()
            invariant
                k <= links@.len(),
                known_text(self@, uri@) == Some(b),
                views == links@.map_values(|l: LinkRef| l@),
                whole == mention_views(out@) + mentions(self@, b, views, k as int),
            decreases links@.len() - k,
        {
            let link = &links[k];
            assert(views[k as int] == link@);
            let ghost was = mention_views(out@);
            let ghost mut step: Seq<MentionView> = seq![];
            if let Some(span) = self.range_in(uri, &link.range) {
                match link.kind {
                    LinkKind::Source => {
                        let m = Mention::File { span, path: link.name.clone() };
                        proof {
                            step = seq![m@];
                        }
                        out.push(m);
                    },
                    LinkKind::PackageRequire => {
                        if let Some((target, _)) = self.index.provider_of(link.name.as_str()) {
                            if is_proper_uri(target) {
                                let mut tooltip = String::new();
                                tooltip.append("package provide ");
                                tooltip.append(link.name.as_str());
                                assert(tooltip@ =~= "package provide "@ + link.name@);
                                let m = Mention::Package(
                                    Link { span, target: target.to_owned(), tooltip },
                                );
                                proof {
                                    step = seq![m@];
                                }
                                out.push(m);
                            }
                        }
                    },
                }
            }
            proof {
                let rest = mentions(self@, b, views, k + 1);
                assert(mention_views(out@) =~= was + step);
                assert(was + (step + rest) =~= (was + step) + rest);
            }
            k = k + 1;
        }
        assert(mention_views(out@) + Seq::<MentionView>::empty() =~= mention_views(out@));
        Some(out)
    }

    /// A signature built from a user-defined proc's argument list.
    fn user_signature(&self, name: &str, ns: &str) -> (r: Option<Signature>)
        ensures
            match user_signature_of(self@, name@, ns@) {
                Some(s) => r is Some && r->0@ == s,
                None => r is None,
            },
    {
        let found = self.index.resolve(name, ns);
        assert(hit_views(found@).len() == found@.len());
        if found.len() == 0 {
            return None;
        }
        let (_, def) = found[0];
        assert(hit_views(found@)[0].def == def@);
        let args = match &def.detail {
            Some(a) => a.clone(),
            None => {
                let none = String::new();
                assert(none@ =~= seq![]);
                none
            },
        };
        let documentation = match &def.doc {
            Some(d) => Some(d.clone()),
            None => None,
        };
        Some(
            Signature {
                label: def.signature(),
                documentation,
                parameters: split_args(args.as_str()),
            },
        )
    }

    /// A signature from the database of builtins, including ensemble subcommands.
    fn builtin_signature(&self, name: &str, script: &Script, cmd: &Command) -> (r: Option<
        Signature,
    >)
        requires
            crate::words::readable(cmd.tokens@),
        ensures
            match builtin_signature_of(self@.kb, name@, script@, cmd@) {
                Some(s) => r is Some && r->0@ == s,
                None => r is None,
            },
    {
        proof {
            crate::words::lemma_words_readable(cmd.tokens@, 0);
        }
        let builtin = match self.builtins.kb().get(name) {
            Some(c) => c,
            None => {
                return None;
            },
        };
        let words = cmd.words();
        let ghost ws = words_of(cmd.tokens@);
        assert(slices_view(words@).len() == words@.len());
        let written = if words.len() > 1 {
            assert(ws[1] == words@[1]@);
            let word = words[1];
            if word.len() > 0 {
                script.text(word[0].range())
            } else {
                None
            }
        } else {
            None
        };
        let sub = match written {
            Some(w) => self.builtins.kb().subcommand(name, w),
            None => None,
        };
        let label = match sub {
            Some(s) => s.signature.clone(),
            None => if builtin.synopsis.len() > 0 {
                builtin.synopsis[0].clone()
            } else {
                builtin.name.clone()
            },
        };
        let doc = match sub {
            Some(s) => if s.doc.as_str().is_empty() {
                builtin.summary.clone()
            } else {
                s.doc.clone()
            },
            None => builtin.summary.clone(),
        };
        let parameters = synopsis_parameters(label.as_str());
        Some(Signature { label, documentation: Some(doc), parameters })
    }

    /// The signature of a command: the user's own, or that of a builtin.
    fn signature(&self, name: &str, ns: &str, script: &Script, cmd: &Command) -> (r: Option<
        Signature,
    >)
        requires
            crate::words::readable(cmd.tokens@),
        ensures
            match signature_for(self@, name@, ns@, script@, cmd@) {
                Some(s) => r is Some && r->0@ == s,
                None => r is None,
            },
    {
        match self.user_signature(name, ns) {
            Some(s) => Some(s),
            None => self.builtin_signature(name, script, cmd),
        }
    }

    /// Signature help for the command being typed.
    pub fn signature_help(&self, uri: &str, pos: LinePos) -> (r: Option<SignatureHelp>)
        ensures
            match signature_answer(self@, uri@, pos) {
                Some(h) => r is Some && r->0@ == h,
                None => r is None,
            },
    {
        let doc = match self.doc(uri) {
            Some(d) => d,
            None => {
                return None;
            },
        };
        let offset = doc.line_index().offset(pos, self.encoding);
        let script = Script::new(doc.text());
        let enclosing = match command_at(&script, offset) {
            Some(e) => e,
            None => {
                return None;
            },
        };
        let name = match &enclosing.name {
            Some(n) => n,
            None => {
                return None;
            },
        };
        let ns = self.file_namespace(uri, offset);
        match self.signature(name.as_str(), ns.as_str(), &script, &enclosing.command) {
            Some(signature) => {
                assert(signature@.parameters.len() == signature.parameters@.len());
                let active_parameter = next_parameter(
                    enclosing.word_index,
                    signature.parameters.len(),
                );
                Some(SignatureHelp { signature, active_parameter })
            },
            None => None,
        }
    }

    /// The edit that brings an open buffer into the formatted form, if that differs.
    pub fn formatting(&self, uri: &str, formatted: Option<&String>) -> (r: Option<Vec<TextEdit>>)
        ensures
            match open_text(self@, uri@) {
                None => r is None,
                Some(b) => r is Some && edit_views(r->0@) == format_edits(
                    b,
                    match formatted {
                        Some(f) => Some(f@),
                        None => None,
                    },
                    self@.encoding,
                ),
            },
            match open_text(self@, uri@) {
                None => r is None,
                Some(b) => r is Some && match formatted {
                    Some(f) => if encode_utf8(f@) == b {
                        r->0@.len() == 0
                    } else {
                        &&& r->0@.len() == 1
                        &&& r->0@[0].span == (Span {
                            start: LinePos { line: 0, character: 0 },
                            end: position_of(b, b.len() as int, self@.encoding),
                        })
                        &&& r->0@[0].new_text@ == f@
                    },
                    None => r->0@.len() == 0,
                },
            },
    {
        let doc = match self.doc(uri) {
            Some(d) => d,
            None => {
                return None;
            },
        };
        let mut out: Vec<TextEdit> = Vec::new();
        if let Some(f) = formatted {
            let text = doc.text();
            proof {
                encode_utf8_decode_utf8(f@);
                encode_utf8_decode_utf8(text@);
            }
            if !same_text(f.as_str(), text) {
                let end = doc.line_index().position(text.as_bytes().len(), self.encoding);
                let span = Span { start: LinePos { line: 0, character: 0 }, end };
                out.push(TextEdit { span, new_text: f.clone() });
                assert(edit_views(out@) =~= seq![(span, f@)]);
            }
        }
        proof {
            if out@.len() == 0 {
                assert(edit_views(out@) =~= seq![]);
            }
        }
        Some(out)
    }
}

/// The link to a file that was found on disk under a path, if the path makes a
/// proper URI.
pub fn file_link(span: Span, name: &str, path: &str) -> (r: Option<Link>)
    ensures
        match r {
            Some(l) => {
                &&& proper_uri(uri_of(path@))
                &&& l.span == span
                &&& l.target@ == uri_of(path@)
                &&& l.tooltip@ == "source "@ + name@
            },
            None => !proper_uri(uri_of(path@)),
        },
{
    let target = path_to_uri(path);
    if !is_proper_uri(target.as_str()) {
        return None;
    }
    let mut tooltip = String::new();
    tooltip.append("source ");
    tooltip.append(name);
    assert(tooltip@ =~= "source "@ + name@);
    Some(Link { span, target, tooltip })
}

fn hover_definition(def: &Def) -> (md: String)
    ensures
        md@ == definition_markdown(def@),
{
    let mut md = String::new();
    md.append("```tcl\n");
    md.append(def.signature().as_str());
    md.append("\n```");
    if let Some(doc) = &def.doc {
        md.append("\n\n");
        md.append(doc.as_str());
    }
    assert(md@ =~= definition_markdown(def@));
    md
}

/// The parameter that is next when the cursor is at word `index`.
fn next_parameter(index: usize, count: usize) -> (r: u32)
    ensures
        r == active_parameter(index as int, count as int),
{
    let wanted: usize = if index > 0 {
        index - 1
    } else {
        0
    };
    let last: usize = if count > 0 {
        count - 1
    } else {
        0
    };
    let shown: usize = if wanted < last {
        wanted
    } else {
        last
    };
    if (shown as u64) < u32::MAX as u64 {
        shown as u32
    } else {
        u32::MAX
    }
}

fn own_diagnostics(doc: &Document, errors: &Vec<SyntaxError>, enc: PositionEncoding) -> (out: Vec<
    Diagnostic,
>)
    ensures
        diagnostic_views(out@) == error_diagnostics(
            doc.bytes(),
            errors@.map_values(|e: SyntaxError| e@),
            0,
            enc,
        ),
{
    let ghost b = doc.bytes();
    let ghost all = errors@.map_values(|e: SyntaxError| e@);
    let ghost whole = error_diagnostics(b, all, 0, enc);
    let li = doc.line_index();
    let bytes = doc.text().as_bytes();
    let mut out: Vec<Diagnostic> = Vec::new();
    let mut k: usize = 0;
    assert(diagnostic_views(out@) + whole =~= whole);
    while k < errors.len()
        invariant
            k <= errors@.len(),
            li@ == b,
            bytes@ == b,
            all == errors@.map_values(|e: SyntaxError| e@),
            whole == diagnostic_views(out@) + error_diagnostics(b, all, k as int, enc),
        decreases errors@.len() - k,
    {
        let e = &errors[k];
        assert(all[k as int] == e@);
        let ghost was = diagnostic_views(out@);
        let ghost mut step: Seq<DiagnosticView> = seq![];
        if !half_typed(bytes, e) {
            let d = Diagnostic {
                span: to_span(li, &e.range, enc),
                level: if e.incomplete {
                    Level::Warning
                } else {
                    Level::Error
                },
                code: None,
                source: "tcl-lsp".to_owned(),
                message: e.message.clone(),
            };
            proof {
                step = seq![d@];
            }
            out.push(d);
        }
        proof {
            let rest = error_diagnostics(b, all, k + 1, enc);
            assert(diagnostic_views(out@) =~= was + step);
            assert(was + (step + rest) =~= (was + step) + rest);
        }
        k = k + 1;
    }
    assert(diagnostic_views(out@) + Seq::<DiagnosticView>::empty() =~= diagnostic_views(out@));
    out
}

fn half_typed(bytes: &[u8], e: &SyntaxError) -> (r: bool)
    ensures
        r == is_half_typed(bytes@, e@),
{
    if !e.incomplete {
        return false;
    }
    let at: usize = if e.range.start < bytes.len() {
        e.range.start
    } else {
        bytes.len()
    };
    match core::str::from_utf8(vstd::slice::slice_subrange(bytes, at, bytes.len())) {
        Ok(s) => {
            proof {
                encode_utf8_decode_utf8(s@);
            }
            trimmed(chars_of(s).as_slice()).len() == 0
        },
        Err(_) => false,
    }
}

fn finding_to_diagnostic(f: &Finding, li: &LineIndex, enc: PositionEncoding) -> (d: Diagnostic)
    ensures
        d@ == finding_diagnostic(li@, *f, enc),
{
    let line_end = li.offset(LinePos { line: f.line, character: u32::MAX }, enc);
    let end = li.position(line_end, enc);
    let character = match f.column {
        Some(c) => c,
        None => 0,
    };
    let code = match &f.code {
        Some(c) => Some(c.clone()),
        None => None,
    };
    Diagnostic {
        span: Span { start: LinePos { line: f.line, character }, end },
        level: match f.severity {
            Severity::Error => Level::Error,
            Severity::Warning => Level::Warning,
            Severity::Info => Level::Information,
        },
        code,
        source: f.source.to_owned(),
        message: f.message.clone(),
    }
}

fn variable_items(vars: &Vec<&VarDef>) -> (out: Vec<Item>)
    ensures
        item_views(out@) == var_ref_views(vars@).map_values(|v: VarView| variable_item(v)),
{
    let ghost views = var_ref_views(vars@);
    let ghost target = views.map_values(|v: VarView| variable_item(v));
    let mut out: Vec<Item> = Vec::new();
    let mut k: usize = 0;
    while k < vars.len()
        invariant
            k <= vars@.len(),
            views == var_ref_views(vars@),
            target == views.map_values(|v: VarView| variable_item(v)),
            item_views(out@) =~= target.take(k as int),
        decreases vars@.len() - k,
    {
        let ghost was = out@;
        let item = Item {
            label: vars[k].name.clone(),
            kind: ItemKind::Variable,
            detail: None,
            documentation: None,
            markdown: false,
            sort_text: None,
        };
        out.push(item);
        proof {
            assert(item_views(out@) =~= item_views(was).push(item@));
            assert(views[k as int] == vars@[k as int]@);
            assert(target[k as int] == item@);
        }
        k = k + 1;
    }
    assert(target.take(k as int) =~= target);
    out
}

fn prefixed(prefix: char, name: &str) -> (r: String)
    ensures
        r@ == seq![prefix] + name@,
{
    let mut out = String::new();
    out.push(prefix);
    out.append(name);
    assert(out@ =~= seq![prefix] + name@);
    out
}

fn defined_among(defs: &Vec<&Def>, n: usize, qname: &str) -> (r: bool)
    requires
        n <= defs@.len(),
    ensures
        r == defined_before(def_ref_views(defs@), n as int, qname@),
{
    let ghost all = def_ref_views(defs@);
    let mut i: usize = 0;
    while i < n
        invariant
            i <= n <= defs@.len(),
            all == def_ref_views(defs@),
            forall|k: int| 0 <= k < i ==> (#[trigger] all[k]).qname != qname@,
        decreases n - i,
    {
        assert(all[i as int] == defs@[i as int]@);
        if same_text(defs[i].qname.as_str(), qname) {
            return true;
        }
        i = i + 1;
    }
    false
}

fn workspace_items(defs: &Vec<&Def>) -> (out: Vec<Item>)
    ensures
        item_views(out@) == definition_items(def_ref_views(defs@), 0),
{
    let ghost all = def_ref_views(defs@);
    let ghost whole = definition_items(all, 0);
    let mut out: Vec<Item> = Vec::new();
    let mut k: usize = 0;
    proof {
        reveal_strlit("0");
        assert("0"@ =~= seq!['0']);
        assert(item_views(out@) + whole =~= whole);
    }
    while k < defs.len()
        invariant
            k <= defs@.len(),
            all == def_ref_views(defs@),
            "0"@ == seq!['0'],
            whole == item_views(out@) + definition_items(all, k as int),
        decreases defs@.len() - k,
    {
        let d = defs[k];
        assert(all[k as int] == d@);
        let ghost was = item_views(out@);
        let ghost mut step: Seq<ItemView> = seq![];
        if !defined_among(defs, k, d.qname.as_str()) {
            let kind = match d.kind {
                SymbolKind::Proc => ItemKind::Function,
                SymbolKind::Method => ItemKind::Method,
                SymbolKind::Class => ItemKind::Class,
                SymbolKind::Namespace => ItemKind::Module,
                _ => ItemKind::Variable,
            };
            let documentation = match &d.doc {
                Some(t) => Some(t.clone()),
                None => None,
            };
            let item = Item {
                label: d.name.clone(),
                kind,
                detail: Some(d.signature()),
                documentation,
                markdown: false,
                sort_text: Some(prefixed('0', d.name.as_str())),
            };
            proof {
                step = seq![item@];
            }
            out.push(item);
        }
        proof {
            let rest = definition_items(all, k + 1);
            assert(item_views(out@) =~= was + step);
            assert(was + (step + rest) =~= (was + step) + rest);
        }
        k = k + 1;
    }
    assert(item_views(out@) + Seq::<ItemView>::empty() =~= item_views(out@));
    out
}

fn named_among(commands: &[Builtin], n: usize, name: &str) -> (r: bool)
    requires
        n <= commands@.len(),
    ensures
        r == named_before(commands@, n as int, name@),
{
    let mut i: usize = 0;
    while i < n
        invariant
            i <= n <= commands@.len(),
            forall|k: int| 0 <= k < i ==> (#[trigger] commands@[k]).name@ != name@,
        decreases n - i,
    {
        if same_text(commands[i].name.as_str(), name) {
            return true;
        }
        i = i + 1;
    }
    false
}

fn keyword_items(commands: &[Builtin], defs: &Vec<&Def>) -> (out: Vec<Item>)
    ensures
        item_views(out@) == builtin_items(commands@, def_ref_views(defs@), 0),
{
    let ghost all = def_ref_views(defs@);
    let ghost whole = builtin_items(commands@, all, 0);
    let mut out: Vec<Item> = Vec::new();
    let mut k: usize = 0;
    proof {
        reveal_strlit("1");
        assert("1"@ =~= seq!['1']);
        assert(item_views(out@) + whole =~= whole);
    }
    while k < commands.len()
        invariant
            k <= commands@.len(),
            all == def_ref_views(defs@),
            "1"@ == seq!['1'],
            whole == item_views(out@) + builtin_items(commands@, all, k as int),
        decreases commands@.len() - k,
    {
        let c = &commands[k];
        let ghost was = item_views(out@);
        let ghost mut step: Seq<ItemView> = seq![];
        assert(all.len() == defs@.len());
        if !defined_among(defs, defs.len(), c.name.as_str()) && !named_among(
            commands,
            k,
            c.name.as_str(),
        ) {
            assert(texts(c.synopsis@).len() == c.synopsis@.len());
            let detail = if c.synopsis.len() > 0 {
                assert(texts(c.synopsis@)[0] == c.synopsis@[0]@);
                c.synopsis[0].clone()
            } else {
                c.summary.clone()
            };
            let item = Item {
                label: c.name.clone(),
                kind: ItemKind::Keyword,
                detail: Some(detail),
                documentation: Some(c.hover_markdown()),
                markdown: true,
                sort_text: Some(prefixed('1', c.name.as_str())),
            };
            proof {
                step = seq![item@];
            }
            out.push(item);
        }
        proof {
            let rest = builtin_items(commands@, all, k + 1);
            assert(item_views(out@) =~= was + step);
            assert(was + (step + rest) =~= (was + step) + rest);
        }
        k = k + 1;
    }
    assert(item_views(out@) + Seq::<ItemView>::empty() =~= item_views(out@));
    out
}

/// Splits a documented synopsis into parameter labels.
///
/// Man-page synopses read like `lsort ?options? list`, so each word after the
/// command name is one parameter, `?…?` marking it optional.
pub fn synopsis_parameters(label: &str) -> (out: Vec<String>)
    ensures
        texts(out@) == synopsis_labels(label@),
{
    let mut all = word_strings(label);
    let ghost was = texts(all@);
    assert(was.len() == all@.len());
    if all.len() > 0 {
        let _ = all.remove(0);
        assert(texts(all@) =~= was.drop_first());
    }
    all
}

// ----------------------------------------------------------------------- laws
proof fn lemma_doc_at(docs: Seq<DocView>, uri: Seq<char>, i: int)
    requires
        0 <= i <= docs.len(),
    ensures
        match doc_at(docs, uri, i) {
            Some(k) => i <= k < docs.len() && docs[k].uri == uri && forall|j: int|
                i <= j < k ==> (#[trigger] docs[j]).uri != uri,
            None => forall|j: int| i <= j < docs.len() ==> (#[trigger] docs[j]).uri != uri,
        },
    decreases docs.len() - i,
{
    if i < docs.len() && docs[i].uri != uri {
        lemma_doc_at(docs, uri, i + 1);
    }
}

/// After a buffer was opened its text is what the client sent, and the other
/// buffers are as they were.
pub proof fn an_opened_buffer_is_what_was_sent(docs: Seq<DocView>, d: DocView)
    ensures
        ({
            let now = with_doc(docs, d);
            &&& doc_at(now, d.uri, 0) matches Some(i)
            &&& now[doc_at(now, d.uri, 0)->0] == d
        }),
        forall|other: Seq<char>|
            other != d.uri ==> (#[trigger] doc_at(with_doc(docs, d), other, 0)) == doc_at(
                docs,
                other,
                0,
            ),
        forall|i: int|
            0 <= i < docs.len() && docs[i].uri != d.uri ==> with_doc(docs, d)[i] == #[trigger] docs[i],
{
    let now = with_doc(docs, d);
    lemma_doc_at(docs, d.uri, 0);
    lemma_doc_at(now, d.uri, 0);
    let at = match doc_at(docs, d.uri, 0) {
        Some(i) => i,
        None => docs.len() as int,
    };
    assert(now[at] == d);
    assert forall|other: Seq<char>| other != d.uri implies (#[trigger] doc_at(now, other, 0))
        == doc_at(docs, other, 0) by {
        lemma_doc_at(docs, other, 0);
        lemma_doc_at(now, other, 0);
        if let Some(k) = doc_at(docs, other, 0) {
            assert(now[k] == docs[k]);
            if let Some(m) = doc_at(now, other, 0) {
                if m < k {
                    assert(now[m] == docs[m]);
                }
            }
        } else if let Some(m) = doc_at(now, other, 0) {
            if m != at {
                assert(now[m] == docs[m]);
            }
        }
    }
}

/// Opening and closing buffers leaves each of them there once.
pub proof fn buffers_stay_distinct(docs: Seq<DocView>, d: DocView, uri: Seq<char>)
    requires
        docs_once(docs),
    ensures
        docs_once(with_doc(docs, d)),
        docs_once(without_doc(docs, uri)),
{
    lemma_doc_at(docs, d.uri, 0);
    lemma_doc_at(docs, uri, 0);
    if let Some(at) = doc_at(docs, uri, 0) {
        let now = docs.remove(at);
        assert forall|i: int, j: int| 0 <= i < j < now.len() implies (#[trigger] now[i]).uri != (
        #[trigger] now[j]).uri by {
            let a = if i < at {
                i
            } else {
                i + 1
            };
            let z = if j < at {
                j
            } else {
                j + 1
            };
            assert(now[i] == docs[a] && now[j] == docs[z]);
        }
    }
}

/// A buffer that was closed is open no more, and the others are as they were.
pub proof fn a_closed_buffer_is_gone(docs: Seq<DocView>, uri: Seq<char>)
    requires
        docs_once(docs),
    ensures
        docs_once(without_doc(docs, uri)),
        doc_at(without_doc(docs, uri), uri, 0) is None,
        forall|d: DocView| #[trigger]
            docs.contains(d) && d.uri != uri ==> without_doc(docs, uri).contains(d),
        forall|d: DocView| #[trigger] without_doc(docs, uri).contains(d) ==> docs.contains(d),
{
    let now = without_doc(docs, uri);
    buffers_stay_distinct(docs, DocView { uri, text: seq![], version: 0 }, uri);
    lemma_doc_at(docs, uri, 0);
    lemma_doc_at(now, uri, 0);
    if let Some(at) = doc_at(docs, uri, 0) {
        if let Some(k) = doc_at(now, uri, 0) {
            let o = if k < at {
                k
            } else {
                k + 1
            };
            assert(now[k] == docs[o]);
        }
        assert forall|d: DocView| #[trigger] docs.contains(d) && d.uri != uri implies now.contains(
            d,
        ) by {
            let k = choose|k: int| 0 <= k < docs.len() && docs[k] == d;
            let n = if k < at {
                k
            } else {
                k - 1
            };
            assert(now[n] == d);
        }
        assert forall|d: DocView| #[trigger] now.contains(d) implies docs.contains(d) by {
            let k = choose|k: int| 0 <= k < now.len() && now[k] == d;
            let o = if k < at {
                k
            } else {
                k + 1
            };
            assert(docs[o] == d);
        }
    }
}

/// An open buffer overrides the indexed file.
pub proof fn an_open_buffer_wins(s: ServerView, uri: Seq<char>)
    requires
        open_text(s, uri) is Some,
    ensures
        known_text(s, uri) == open_text(s, uri),
{
}

/// Changes that are reported together come out as if they were reported one after
/// another.
pub proof fn changes_apply_in_order(
    b: Seq<u8>,
    first: Seq<TextChange>,
    second: Seq<TextChange>,
    enc: PositionEncoding,
)
    ensures
        changed_all(b, first + second, 0, enc) == (match changed_all(b, first, 0, enc) {
            Some(middle) => changed_all(middle, second, 0, enc),
            None => None,
        }),
{
    lemma_changes(b, first, second, 0, enc);
}

proof fn lemma_changes(
    b: Seq<u8>,
    first: Seq<TextChange>,
    second: Seq<TextChange>,
    k: int,
    enc: PositionEncoding,
)
    requires
        0 <= k <= first.len(),
    ensures
        changed_all(b, first + second, k, enc) == (match changed_all(b, first, k, enc) {
            Some(middle) => changed_all(middle, second, 0, enc),
            None => None,
        }),
    decreases first.len() - k,
{
    if k < first.len() {
        assert((first + second)[k] == first[k]);
        if changed(b, first[k], enc).len() < u32::MAX {
            lemma_changes(changed(b, first[k], enc), first, second, k + 1, enc);
        }
    } else {
        lemma_changes_shift(b, first, second, 0, enc);
    }
}

proof fn lemma_changes_shift(
    b: Seq<u8>,
    first: Seq<TextChange>,
    second: Seq<TextChange>,
    k: int,
    enc: PositionEncoding,
)
    requires
        0 <= k <= second.len(),
    ensures
        changed_all(b, first + second, first.len() + k, enc) == changed_all(b, second, k, enc),
    decreases second.len() - k,
{
    if k < second.len() {
        assert((first + second)[first.len() + k] == second[k]);
        if changed(b, second[k], enc).len() < u32::MAX {
            lemma_changes_shift(changed(b, second[k], enc), first, second, k + 1, enc);
        }
    }
}

} // verus!

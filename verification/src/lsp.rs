//! The answers of the server, as plain values. A client's protocol types are made
//! from these one for one.
use core::ops::Range;
use vstd::prelude::*;
use vstd::utf8::valid_utf8;

use crate::findings::{findings_lie_in_the_file, inside, symbol_sound, symbols_sound};
use crate::line_index::{
    not_behind, position_of, positions_keep_the_order, LineIndex, LinePos, PositionEncoding,
};
use crate::nesting::{all_nested, encloses, nested, symbols_are_nested};
use crate::outline::{lemma_symbol_children, symbol_views, Symbol, SymbolKind, SymbolView};
use crate::text::{text_option, texts};
use crate::walker::outline_of;

verus! {

/// A stretch of text, from one position to another.
#[derive(Debug, Clone, Copy, PartialEq, Eq, Structural)]
pub struct Span {
    pub start: LinePos,
    pub end: LinePos,
}

/// The stretch of a byte range.
pub open spec fn span_of(b: Seq<u8>, r: Range<usize>, enc: PositionEncoding) -> Span {
    Span {
        start: position_of(b, r.start as int, enc),
        end: position_of(b, r.end as int, enc),
    }
}

pub fn to_span(li: &LineIndex, r: &Range<usize>, enc: PositionEncoding) -> (s: Span)
    ensures
        s == span_of(li@, *r, enc),
{
    Span { start: li.position(r.start, enc), end: li.position(r.end, enc) }
}

/// A place in a file.
#[derive(Debug, Clone)]
pub struct Location {
    pub uri: String,
    pub span: Span,
}

pub struct LocationView {
    pub uri: Seq<char>,
    pub span: Span,
}

impl View for Location {
    type V = LocationView;

    open spec fn view(&self) -> LocationView {
        LocationView { uri: self.uri@, span: self.span }
    }
}

pub open spec fn location_views(v: Seq<Location>) -> Seq<LocationView> {
    v.map_values(|l: Location| l@)
}

/// A definition found by a workspace search.
#[derive(Debug, Clone)]
pub struct SymbolInfo {
    pub name: String,
    pub kind: SymbolKind,
    pub location: Location,
}

pub struct SymbolInfoView {
    pub name: Seq<char>,
    pub kind: SymbolKind,
    pub location: LocationView,
}

impl View for SymbolInfo {
    type V = SymbolInfoView;

    open spec fn view(&self) -> SymbolInfoView {
        SymbolInfoView { name: self.name@, kind: self.kind, location: self.location@ }
    }
}

pub open spec fn info_views(v: Seq<SymbolInfo>) -> Seq<SymbolInfoView> {
    v.map_values(|s: SymbolInfo| s@)
}

/// A symbol of a document, with the symbols inside it.
#[derive(Debug)]
pub struct SymbolNode {
    pub name: String,
    pub detail: Option<String>,
    pub kind: SymbolKind,
    pub span: Span,
    pub selection: Span,
    pub children: Vec<SymbolNode>,
}

pub struct NodeView {
    pub name: Seq<char>,
    pub detail: Option<Seq<char>>,
    pub kind: SymbolKind,
    pub span: Span,
    pub selection: Span,
    pub children: Seq<NodeView>,
}

impl SymbolNode {
    pub open spec fn meaning(self) -> NodeView
        decreases self,
    {
        NodeView {
            name: self.name@,
            detail: text_option(self.detail),
            kind: self.kind,
            span: self.span,
            selection: self.selection,
            children: Seq::new(
                self.children@.len(),
                |i: int|
                    if 0 <= i < self.children@.len() {
                        self.children@[i].meaning()
                    } else {
                        arbitrary()
                    },
            ),
        }
    }
}

impl View for SymbolNode {
    type V = NodeView;

    open spec fn view(&self) -> NodeView {
        self.meaning()
    }
}

pub open spec fn node_views(v: Seq<SymbolNode>) -> Seq<NodeView> {
    v.map_values(|n: SymbolNode| n@)
}

/// The nodes of the symbols from `k` on.
pub open spec fn nodes_of(
    b: Seq<u8>,
    symbols: Seq<SymbolView>,
    k: int,
    enc: PositionEncoding,
) -> Seq<NodeView>
    decreases symbols, symbols.len() - k,
{
    if k < 0 || k >= symbols.len() {
        seq![]
    } else {
        let s = symbols[k];
        seq![
            NodeView {
                name: s.name,
                detail: s.detail,
                kind: s.kind,
                span: span_of(b, s.full_range, enc),
                selection: span_of(b, s.name_range, enc),
                children: nodes_of(b, s.children, 0, enc),
            },
        ] + nodes_of(b, symbols, k + 1, enc)
    }
}

/// The symbols of a document, for its outline.
pub fn to_document_symbols(
    li: &LineIndex,
    symbols: &Vec<Symbol>,
    enc: PositionEncoding,
) -> (out: Vec<SymbolNode>)
    ensures
        node_views(out@) == nodes_of(li@, symbol_views(symbols@), 0, enc),
    decreases symbols,
{
    let ghost views = symbol_views(symbols@);
    let ghost whole = nodes_of(li@, views, 0, enc);
    let mut out: Vec<SymbolNode> = Vec::new();
    let mut k: usize = 0;
    assert(node_views(out@) + whole =~= whole);
    while k < symbols.len()
        invariant
            k <= symbols@.len(),
            views == symbol_views(symbols@),
            whole == node_views(out@) + nodes_of(li@, views, k as int, enc),
        decreases symbols@.len() - k,
    {
        let s = &symbols[k];
        let ghost was = node_views(out@);
        let detail = match &s.detail {
            Some(d) => Some(d.clone()),
            None => None,
        };
        let children = to_document_symbols(li, &s.children, enc);
        let node = SymbolNode {
            name: s.name.clone(),
            detail,
            kind: s.kind,
            span: to_span(li, &s.full_range, enc),
            selection: to_span(li, &s.name_range, enc),
            children,
        };
        proof {
            lemma_symbol_children(*s);
            assert(views[k as int] == s@);
            assert(node@.children =~= node_views(children@));
            let rest = nodes_of(li@, views, k + 1, enc);
            assert(was + (seq![node@] + rest) =~= (was + seq![node@]) + rest);
        }
        out.push(node);
        assert(node_views(out@) =~= was + seq![node@]);
        k = k + 1;
    }
    assert(node_views(out@) + Seq::<NodeView>::empty() =~= node_views(out@));
    out
}

/// Whether a span lies in another.
pub open spec fn span_encloses(outer: Span, inner: Span) -> bool {
    &&& not_behind(outer.start, inner.start)
    &&& not_behind(inner.start, inner.end)
    &&& not_behind(inner.end, outer.end)
}

/// Whether a node has what is selected of it in its span, and each child in the span of its
/// parent, however deep.
pub open spec fn node_nested(n: NodeView) -> bool
    decreases n,
{
    &&& span_encloses(n.span, n.selection)
    &&& forall|i: int|
        0 <= i < n.children.len() ==> span_encloses(n.span, (#[trigger] n.children[i]).span)
            && node_nested(n.children[i])
}

pub open spec fn nodes_nested(v: Seq<NodeView>) -> bool {
    forall|i: int| 0 <= i < v.len() ==> node_nested(#[trigger] v[i])
}

proof fn lemma_span_encloses(
    b: Seq<u8>,
    outer: Range<usize>,
    inner: Range<usize>,
    enc: PositionEncoding,
)
    requires
        valid_utf8(b),
        b.len() < u32::MAX,
        inside(outer, b),
        inside(inner, b),
        encloses(outer, inner),
    ensures
        span_encloses(span_of(b, outer, enc), span_of(b, inner, enc)),
{
    positions_keep_the_order(b, outer.start as int, inner.start as int, enc);
    positions_keep_the_order(b, inner.start as int, inner.end as int, enc);
    positions_keep_the_order(b, inner.end as int, outer.end as int, enc);
}

/// The spans of nodes are those of their symbols.
proof fn lemma_node_spans(b: Seq<u8>, symbols: Seq<SymbolView>, k: int, enc: PositionEncoding)
    requires
        0 <= k <= symbols.len(),
    ensures
        nodes_of(b, symbols, k, enc).len() == symbols.len() - k,
        forall|i: int|
            0 <= i < symbols.len() - k ==> (#[trigger] nodes_of(b, symbols, k, enc)[i]).span
                == span_of(b, symbols[k + i].full_range, enc),
    decreases symbols.len() - k,
{
    if k < symbols.len() {
        lemma_node_spans(b, symbols, k + 1, enc);
        let rest = nodes_of(b, symbols, k + 1, enc);
        let all = nodes_of(b, symbols, k, enc);
        assert forall|i: int| 0 <= i < symbols.len() - k implies (#[trigger] all[i]).span
            == span_of(b, symbols[k + i].full_range, enc) by {
            if i > 0 {
                assert(all[i] == rest[i - 1]);
            }
        }
    }
}

proof fn lemma_nodes_nested(
    b: Seq<u8>,
    symbols: Seq<SymbolView>,
    k: int,
    enc: PositionEncoding,
    outer: Range<usize>,
)
    requires
        valid_utf8(b),
        b.len() < u32::MAX,
        0 <= k <= symbols.len(),
        symbols_sound(symbols, b),
        all_nested(symbols, outer),
    ensures
        nodes_nested(nodes_of(b, symbols, k, enc)),
    decreases symbols, symbols.len() - k,
{
    if k < symbols.len() {
        let s = symbols[k];
        assert(symbol_sound(s, b) && nested(s));
        lemma_nodes_nested(b, symbols, k + 1, enc, outer);
        lemma_span_encloses(b, s.full_range, s.name_range, enc);
        let kids = nodes_of(b, s.children, 0, enc);
        lemma_node_spans(b, s.children, 0, enc);
        if s.children.len() > 0 {
            assert(symbols_sound(s.children, b));
            assert(all_nested(s.children, s.body->0));
            lemma_nodes_nested(b, s.children, 0, enc, s.body->0);
        }
        let all = nodes_of(b, symbols, k, enc);
        let rest = nodes_of(b, symbols, k + 1, enc);
        assert forall|i: int| 0 <= i < kids.len() implies span_encloses(
            span_of(b, s.full_range, enc),
            (#[trigger] kids[i]).span,
        ) && node_nested(kids[i]) by {
            assert(symbol_sound(s.children[i], b));
            assert(encloses(s.body->0, s.children[i].full_range));
            lemma_span_encloses(b, s.full_range, s.children[i].full_range, enc);
        }
        assert forall|i: int| 0 <= i < all.len() implies node_nested(#[trigger] all[i]) by {
            if i > 0 {
                assert(all[i] == rest[i - 1]);
            }
        }
    }
}

/// The symbols that a client is shown of a document are nested: what is selected of a
/// symbol lies in its span, and so does the span of each of its children.
pub proof fn document_symbols_are_nested(b: Seq<u8>, enc: PositionEncoding)
    requires
        valid_utf8(b),
        b.len() < u32::MAX,
        b.len() <= usize::MAX,
    ensures
        nodes_nested(nodes_of(b, outline_of(b).symbols, 0, enc)),
{
    findings_lie_in_the_file(b);
    symbols_are_nested(b);
    lemma_nodes_nested(
        b,
        outline_of(b).symbols,
        0,
        enc,
        Range { start: 0, end: b.len() as usize },
    );
}

/// Lines that can be folded away.
#[derive(Debug, Clone, Copy, PartialEq, Eq, Structural)]
pub struct Fold {
    pub start_line: u32,
    pub end_line: u32,
}

/// The lines of a definition, from the first to the one that its last byte is on. The
/// newline or `;` that terminates it is no part of it.
pub open spec fn lines_of(b: Seq<u8>, s: SymbolView, enc: PositionEncoding) -> (u32, u32) {
    let last = if s.full_range.start < s.end {
        s.end - 1
    } else {
        s.full_range.start as int
    };
    (position_of(b, s.full_range.start as int, enc).line, position_of(b, last, enc).line)
}

/// The folds of the symbols from `k` on and of their children: the lines of each
/// that has more than one, without the last, so that the closing brace stays
/// visible.
pub open spec fn folds_of(
    b: Seq<u8>,
    symbols: Seq<SymbolView>,
    k: int,
    enc: PositionEncoding,
) -> Seq<Fold>
    decreases symbols, symbols.len() - k,
{
    if k < 0 || k >= symbols.len() {
        seq![]
    } else {
        let (first, last) = lines_of(b, symbols[k], enc);
        (if last > first {
            seq![Fold { start_line: first, end_line: (last - 1) as u32 }]
        } else {
            seq![]
        }) + folds_of(b, symbols[k].children, 0, enc) + folds_of(b, symbols, k + 1, enc)
    }
}

pub fn collect_folds(
    symbols: &Vec<Symbol>,
    li: &LineIndex,
    enc: PositionEncoding,
    out: &mut Vec<Fold>,
)
    ensures
        final(out)@ == old(out)@ + folds_of(li@, symbol_views(symbols@), 0, enc),
    decreases symbols,
{
    let ghost views = symbol_views(symbols@);
    let ghost before = out@;
    let ghost whole = folds_of(li@, views, 0, enc);
    let ghost mut acc: Seq<Fold> = seq![];
    let mut k: usize = 0;
    proof {
        assert(acc + whole =~= whole);
        assert(before + acc =~= before);
    }
    while k < symbols.len()
        invariant
            k <= symbols@.len(),
            views == symbol_views(symbols@),
            out@ == before + acc,
            whole == acc + folds_of(li@, views, k as int, enc),
        decreases symbols@.len() - k,
    {
        let s = &symbols[k];
        let first: u32 = li.position(s.full_range.start, enc).line;
        let last: u32 = if s.full_range.start < s.end {
            li.position(s.end - 1, enc).line
        } else {
            first
        };
        let ghost mut own: Seq<Fold> = seq![];
        if last > first {
            let fold = Fold { start_line: first, end_line: last - 1 };
            out.push(fold);
            proof {
                own = seq![fold];
            }
        }
        collect_folds(&s.children, li, enc, out);
        proof {
            lemma_symbol_children(*s);
            assert(views[k as int] == s@);
            let step = own + folds_of(li@, s@.children, 0, enc);
            let rest = folds_of(li@, views, k + 1, enc);
            assert(out@ =~= before + (acc + step));
            assert(acc + (step + rest) =~= (acc + step) + rest);
            acc = acc + step;
        }
        k = k + 1;
    }
    proof {
        assert(acc + Seq::<Fold>::empty() =~= acc);
    }
}

/// A use of the symbol under the cursor, or its definition.
#[derive(Debug, Clone, Copy, PartialEq, Eq, Structural)]
pub struct Highlight {
    pub span: Span,
    pub write: bool,
}

/// What a completion stands for.
#[derive(Debug, Clone, Copy, PartialEq, Eq, Structural)]
pub enum ItemKind {
    Variable,
    Function,
    Method,
    Class,
    Module,
    Keyword,
}

/// A completion.
#[derive(Debug, Clone)]
pub struct Item {
    pub label: String,
    pub kind: ItemKind,
    pub detail: Option<String>,
    pub documentation: Option<String>,
    /// Whether the documentation is markdown.
    pub markdown: bool,
    pub sort_text: Option<String>,
}

pub struct ItemView {
    pub label: Seq<char>,
    pub kind: ItemKind,
    pub detail: Option<Seq<char>>,
    pub documentation: Option<Seq<char>>,
    pub markdown: bool,
    pub sort_text: Option<Seq<char>>,
}

impl View for Item {
    type V = ItemView;

    open spec fn view(&self) -> ItemView {
        ItemView {
            label: self.label@,
            kind: self.kind,
            detail: text_option(self.detail),
            documentation: text_option(self.documentation),
            markdown: self.markdown,
            sort_text: text_option(self.sort_text),
        }
    }
}

pub open spec fn item_views(v: Seq<Item>) -> Seq<ItemView> {
    v.map_values(|i: Item| i@)
}

/// How a command is called.
#[derive(Debug, Clone)]
pub struct Signature {
    pub label: String,
    pub documentation: Option<String>,
    pub parameters: Vec<String>,
}

pub struct SignatureView {
    pub label: Seq<char>,
    pub documentation: Option<Seq<char>>,
    pub parameters: Seq<Seq<char>>,
}

impl View for Signature {
    type V = SignatureView;

    open spec fn view(&self) -> SignatureView {
        SignatureView {
            label: self.label@,
            documentation: text_option(self.documentation),
            parameters: texts(self.parameters@),
        }
    }
}

/// The signature of the command being typed, and which parameter is next.
#[derive(Debug, Clone)]
pub struct SignatureHelp {
    pub signature: Signature,
    pub active_parameter: u32,
}

/// How bad a diagnostic is.
#[derive(Debug, Clone, Copy, PartialEq, Eq, Structural)]
pub enum Level {
    Error,
    Warning,
    Information,
}

/// A problem in a document.
#[derive(Debug, Clone)]
pub struct Diagnostic {
    pub span: Span,
    pub level: Level,
    pub code: Option<String>,
    pub source: String,
    pub message: String,
}

pub struct DiagnosticView {
    pub span: Span,
    pub level: Level,
    pub code: Option<Seq<char>>,
    pub source: Seq<char>,
    pub message: Seq<char>,
}

impl View for Diagnostic {
    type V = DiagnosticView;

    open spec fn view(&self) -> DiagnosticView {
        DiagnosticView {
            span: self.span,
            level: self.level,
            code: text_option(self.code),
            source: self.source@,
            message: self.message@,
        }
    }
}

pub open spec fn diagnostic_views(v: Seq<Diagnostic>) -> Seq<DiagnosticView> {
    v.map_values(|d: Diagnostic| d@)
}

/// A change of the text.
#[derive(Debug, Clone)]
pub struct TextEdit {
    pub span: Span,
    pub new_text: String,
}

/// A link from a document.
#[derive(Debug, Clone)]
pub struct Link {
    pub span: Span,
    pub target: String,
    pub tooltip: String,
}

pub struct LinkView {
    pub span: Span,
    pub target: Seq<char>,
    pub tooltip: Seq<char>,
}

impl View for Link {
    type V = LinkView;

    open spec fn view(&self) -> LinkView {
        LinkView { span: self.span, target: self.target@, tooltip: self.tooltip@ }
    }
}

/// A link that a document mentions.
#[derive(Debug, Clone)]
pub enum Mention {
    /// A file, by its path relative to the document.
    File { span: Span, path: String },
    /// A package, with the link to where it is declared.
    Package(Link),
}

pub enum MentionView {
    File { span: Span, path: Seq<char> },
    Package(LinkView),
}

impl View for Mention {
    type V = MentionView;

    open spec fn view(&self) -> MentionView {
        match self {
            Mention::File { span, path } => MentionView::File { span: *span, path: path@ },
            Mention::Package(link) => MentionView::Package(link@),
        }
    }
}

pub open spec fn mention_views(v: Seq<Mention>) -> Seq<MentionView> {
    v.map_values(|m: Mention| m@)
}

/// One change that a client reports: of a stretch, or of the whole text.
#[derive(Debug, Clone)]
pub struct TextChange {
    pub span: Option<Span>,
    pub text: String,
}

/// What the server says that it can do.
#[derive(Debug, Clone)]
pub struct Capabilities {
    pub encoding: PositionEncoding,
    /// Buffers are reported when they are opened and closed.
    pub open_close: bool,
    /// Only what changed is sent, so that a keystroke does not resend the file.
    pub incremental: bool,
    /// Buffers are reported when they are saved.
    pub save: bool,
    pub document_symbols: bool,
    pub workspace_symbols: bool,
    pub definition: bool,
    pub references: bool,
    pub highlights: bool,
    pub hover: bool,
    pub formatting: bool,
    pub folding: bool,
    pub selection: bool,
    /// Links, which come complete and are not resolved later.
    pub links: bool,
    /// What starts signature help: a space starts the next argument, and a bracket
    /// opens a nested command with its own signature.
    pub signature_triggers: Vec<String>,
    /// What asks for it again: a space, when the active parameter advances.
    pub signature_retriggers: Vec<String>,
    /// What starts a completion: a dollar for a variable, a colon for a namespace.
    pub completion_triggers: Vec<String>,
}

/// What the server can do, with the position encoding that was agreed on.
pub fn capabilities(encoding: PositionEncoding) -> (c: Capabilities)
    ensures
        c.encoding == encoding,
        c.open_close && c.incremental && c.save,
        c.document_symbols && c.workspace_symbols && c.definition && c.references && c.highlights,
        c.hover && c.formatting && c.folding && c.selection && c.links,
        texts(c.signature_triggers@) == seq![" "@, "["@],
        texts(c.signature_retriggers@) == seq![" "@],
        texts(c.completion_triggers@) == seq!["$"@, ":"@],
{
    let signature_triggers: Vec<String> = vec![" ".to_owned(), "[".to_owned()];
    let signature_retriggers: Vec<String> = vec![" ".to_owned()];
    let completion_triggers: Vec<String> = vec!["$".to_owned(), ":".to_owned()];
    proof {
        assert(texts(signature_triggers@) =~= seq![" "@, "["@]);
        assert(texts(signature_retriggers@) =~= seq![" "@]);
        assert(texts(completion_triggers@) =~= seq!["$"@, ":"@]);
    }
    Capabilities {
        encoding,
        open_close: true,
        incremental: true,
        save: true,
        document_symbols: true,
        workspace_symbols: true,
        definition: true,
        references: true,
        highlights: true,
        hover: true,
        formatting: true,
        folding: true,
        selection: true,
        links: true,
        signature_triggers,
        signature_retriggers,
        completion_triggers,
    }
}

} // verus!

//! Structural outline of a Tcl file: what is defined, used and bound in it.
use core::ops::Range;
use vstd::prelude::*;
use vstd::string::StringExecFns;

use crate::text::{
    chars_of, find_last, lines, matches_at, rfind_text, runs, space, split_lines, split_words,
    stands_at, string_of, text_option, texts, trim_end, trim_start, trimmed_end, trimmed_start,
    words,
};

verus! {

#[derive(Debug, Clone, Copy, PartialEq, Eq, Structural)]
pub enum SymbolKind {
    Proc,
    Namespace,
    Class,
    Method,
    Constructor,
    Destructor,
    Variable,
}

#[derive(Debug)]
pub struct Symbol {
    pub kind: SymbolKind,
    /// The name as written, without its qualifiers.
    pub name: String,
    /// Fully qualified name, always absolute (`::a::b::c`).
    pub qname: String,
    /// Range of the name token, for goto-definition and rename.
    pub name_range: Range<usize>,
    /// Range of the whole definition, for folding and document symbols.
    pub full_range: Range<usize>,
    /// Where the definition ends without the newline or `;` that terminates it.
    pub end: usize,
    /// Range of the code inside, if there is any, without its delimiters.
    pub body: Option<Range<usize>>,
    /// Signature detail, e.g. a proc's argument list.
    pub detail: Option<String>,
    /// Leading `#` comment block, if any — free documentation for hover.
    pub doc: Option<String>,
    pub children: Vec<Symbol>,
}

/// What a symbol says.
pub struct SymbolView {
    pub kind: SymbolKind,
    pub name: Seq<char>,
    pub qname: Seq<char>,
    pub name_range: Range<usize>,
    pub full_range: Range<usize>,
    pub end: usize,
    pub body: Option<Range<usize>>,
    pub detail: Option<Seq<char>>,
    pub doc: Option<Seq<char>>,
    pub children: Seq<SymbolView>,
}

impl Symbol {
    /// What the symbol says, its children included.
    pub open spec fn meaning(self) -> SymbolView
        decreases self,
    {
        SymbolView {
            kind: self.kind,
            name: self.name@,
            qname: self.qname@,
            name_range: self.name_range,
            full_range: self.full_range,
            end: self.end,
            body: self.body,
            detail: text_option(self.detail),
            doc: text_option(self.doc),
            children: Seq::new(
                self.children@.len(),
                |i: int|
                    if 0 <= i < self.children@.len() {
                        self.children@[i].meaning()
                    } else {
                        arbitrary()
                    },
            ),
        }
    }
}

impl View for Symbol {
    type V = SymbolView;

    open spec fn view(&self) -> SymbolView {
        self.meaning()
    }
}

pub open spec fn symbol_views(v: Seq<Symbol>) -> Seq<SymbolView> {
    v.map_values(|s: Symbol| s@)
}

pub proof fn lemma_symbol_children(s: Symbol)
    ensures
        s@.children == symbol_views(s.children@),
{
    let kids = s.children@;
    assert(s@.children =~= symbol_views(kids));
}

#[derive(Debug, Clone, Copy, PartialEq, Eq, Structural)]
pub enum RefKind {
    /// A word in command position.
    Command,
    /// A `$name` substitution.
    Variable,
    /// The dispatch word of a widget command, `$w.frame insert`.
    WidgetCommand,
}

/// A use site, as opposed to a definition.
#[derive(Debug, Clone)]
pub struct Ref {
    pub kind: RefKind,
    /// The name as written; may be namespace-qualified.
    pub name: String,
    pub range: Range<usize>,
    /// Namespace in force at this point, for resolving a relative name.
    pub namespace: String,
}

pub struct RefView {
    pub kind: RefKind,
    pub name: Seq<char>,
    pub range: Range<usize>,
    pub namespace: Seq<char>,
}

impl View for Ref {
    type V = RefView;

    open spec fn view(&self) -> RefView {
        RefView {
            kind: self.kind,
            name: self.name@,
            range: self.range,
            namespace: self.namespace@,
        }
    }
}

/// A variable binding introduced by `set`, `variable`, `global`, `foreach`, …
#[derive(Debug, Clone)]
pub struct VarDef {
    pub name: String,
    pub range: Range<usize>,
    /// The region in which this binding is visible — a proc body, or the whole
    /// file for globals. Completion uses this to offer only what is in scope.
    pub scope: Range<usize>,
}

pub struct VarView {
    pub name: Seq<char>,
    pub range: Range<usize>,
    pub scope: Range<usize>,
}

impl View for VarDef {
    type V = VarView;

    open spec fn view(&self) -> VarView {
        VarView { name: self.name@, range: self.range, scope: self.scope }
    }
}

/// A syntax error, reported at a byte range.
#[derive(Debug, Clone)]
pub struct SyntaxError {
    pub range: Range<usize>,
    pub message: String,
    /// True when the input merely stops mid-construct, which is the normal state
    /// of a buffer being typed into.
    pub incomplete: bool,
}

pub struct ErrorView {
    pub range: Range<usize>,
    pub message: Seq<char>,
    pub incomplete: bool,
}

impl View for SyntaxError {
    type V = ErrorView;

    open spec fn view(&self) -> ErrorView {
        ErrorView { range: self.range, message: self.message@, incomplete: self.incomplete }
    }
}

#[derive(Debug, Clone, Copy, PartialEq, Eq, Structural)]
pub enum LinkKind {
    /// `source file`
    Source,
    /// `package require name`
    PackageRequire,
}

/// A mention of another file or package.
#[derive(Debug, Clone)]
pub struct LinkRef {
    pub kind: LinkKind,
    pub name: String,
    pub range: Range<usize>,
}

pub struct LinkView {
    pub kind: LinkKind,
    pub name: Seq<char>,
    pub range: Range<usize>,
}

impl View for LinkRef {
    type V = LinkView;

    open spec fn view(&self) -> LinkView {
        LinkView { kind: self.kind, name: self.name@, range: self.range }
    }
}

/// A package that the file declares with `package provide`.
#[derive(Debug, Clone)]
pub struct Provide {
    pub name: String,
    pub range: Range<usize>,
}

pub struct ProvideView {
    pub name: Seq<char>,
    pub range: Range<usize>,
}

impl View for Provide {
    type V = ProvideView;

    open spec fn view(&self) -> ProvideView {
        ProvideView { name: self.name@, range: self.range }
    }
}

/// Everything we learn from one file.
#[derive(Debug)]
pub struct Outline {
    pub symbols: Vec<Symbol>,
    pub refs: Vec<Ref>,
    pub variables: Vec<VarDef>,
    pub errors: Vec<SyntaxError>,
    /// The comment blocks, each before its command.
    pub comments: Vec<Range<usize>>,
    /// Other files and packages that are mentioned.
    pub links: Vec<LinkRef>,
    /// Packages that are declared.
    pub provides: Vec<Provide>,
}

/// What an outline says: a list of each kind of finding, in the order of the text.
#[verifier::ext_equal]
pub struct Found {
    pub symbols: Seq<SymbolView>,
    pub refs: Seq<RefView>,
    pub variables: Seq<VarView>,
    pub errors: Seq<ErrorView>,
    pub comments: Seq<Range<usize>>,
    pub links: Seq<LinkView>,
    pub provides: Seq<ProvideView>,
}

impl Found {
    pub open spec fn none() -> Found {
        Found {
            symbols: seq![],
            refs: seq![],
            variables: seq![],
            errors: seq![],
            comments: seq![],
            links: seq![],
            provides: seq![],
        }
    }

    /// What is found here, then what is found there.
    pub open spec fn plus(self, other: Found) -> Found {
        Found {
            symbols: self.symbols + other.symbols,
            refs: self.refs + other.refs,
            variables: self.variables + other.variables,
            errors: self.errors + other.errors,
            comments: self.comments + other.comments,
            links: self.links + other.links,
            provides: self.provides + other.provides,
        }
    }
}

pub proof fn lemma_plus(a: Found, b: Found, c: Found)
    ensures
        a.plus(b).plus(c) == a.plus(b.plus(c)),
        a.plus(Found::none()) == a,
        Found::none().plus(a) == a,
{
    assert(a.plus(b).plus(c) =~= a.plus(b.plus(c)));
    assert(a.plus(Found::none()) =~= a);
    assert(Found::none().plus(a) =~= a);
}

impl View for Outline {
    type V = Found;

    open spec fn view(&self) -> Found {
        Found {
            symbols: symbol_views(self.symbols@),
            refs: self.refs@.map_values(|r: Ref| r@),
            variables: self.variables@.map_values(|v: VarDef| v@),
            errors: self.errors@.map_values(|e: SyntaxError| e@),
            comments: self.comments@,
            links: self.links@.map_values(|l: LinkRef| l@),
            provides: self.provides@.map_values(|p: Provide| p@),
        }
    }
}

impl Default for Outline {
    fn default() -> (r: Self)
        ensures
            r@ == Found::none(),
    {
        let r = Outline {
            symbols: Vec::new(),
            refs: Vec::new(),
            variables: Vec::new(),
            errors: Vec::new(),
            comments: Vec::new(),
            links: Vec::new(),
            provides: Vec::new(),
        };
        assert(r@ =~= Found::none());
        r
    }
}

impl Outline {
    /// Adds the findings of `other` behind these.
    pub fn absorb(&mut self, other: Outline)
        ensures
            final(self)@ == old(self)@.plus(other@),
    {
        let ghost before = self@;
        let ghost added = other@;
        let mut other = other;
        self.symbols.append(&mut other.symbols);
        self.refs.append(&mut other.refs);
        self.variables.append(&mut other.variables);
        self.errors.append(&mut other.errors);
        self.comments.append(&mut other.comments);
        self.links.append(&mut other.links);
        self.provides.append(&mut other.provides);
        proof {
            let sum = before.plus(added);
            assert(self@.symbols =~= sum.symbols);
            assert(self@.refs =~= sum.refs);
            assert(self@.variables =~= sum.variables);
            assert(self@.errors =~= sum.errors);
            assert(self@.comments =~= sum.comments);
            assert(self@.links =~= sum.links);
            assert(self@.provides =~= sum.provides);
        }
    }
}

// ---------------------------------------------------------------------- names
/// Joins a namespace prefix and a possibly qualified name into an absolute name.
/// A name that begins with `::` is absolute and ignores the namespace.
pub open spec fn qualified(prefix: Seq<char>, name: Seq<char>) -> Seq<char> {
    if matches_at(name, 0, seq![':', ':']) {
        name
    } else if prefix == seq![':', ':'] || prefix.len() == 0 {
        seq![':', ':'] + name
    } else {
        prefix + seq![':', ':'] + name
    }
}

/// The namespace that a definition of `name` lands in.
pub open spec fn container(prefix: Seq<char>, name: Seq<char>) -> Seq<char> {
    let q = qualified(prefix, name);
    match rfind_text(q, q.len() as int, seq![':', ':']) {
        Some(i) => if i == 0 {
            seq![':', ':']
        } else {
            q.subrange(0, i)
        },
        None => seq![':', ':'],
    }
}

/// What follows the last `::` of a name.
pub open spec fn last_part(name: Seq<char>) -> Seq<char> {
    match rfind_text(name, name.len() as int, seq![':', ':']) {
        Some(i) => name.subrange(i + 2, name.len() as int),
        None => name,
    }
}

/// The name without leading `::`.
pub open spec fn without_root(name: Seq<char>) -> Seq<char>
    decreases name.len(),
{
    if matches_at(name, 0, seq![':', ':']) {
        without_root(name.subrange(2, name.len() as int))
    } else {
        name
    }
}

pub(crate) fn colons() -> (r: Vec<char>)
    ensures
        r@ == seq![':', ':'],
{
    let r: Vec<char> = vec![':', ':'];
    assert(r@ =~= seq![':', ':']);
    r
}

/// Joins a namespace prefix and a possibly qualified name into an absolute name.
pub fn qualify(prefix: &str, name: &str) -> (r: String)
    ensures
        r@ == qualified(prefix@, name@),
{
    let p = chars_of(prefix);
    let n = chars_of(name);
    let c = colons();
    if stands_at(n.as_slice(), 0, c.as_slice()) {
        return name.to_owned();
    }
    let mut out = if p.len() == 0 || crate::text::same_chars(p.as_slice(), c.as_slice()) {
        String::new()
    } else {
        prefix.to_owned()
    };
    out.push(':');
    out.push(':');
    out.append(name);
    proof {
        if prefix@ == seq![':', ':'] || prefix@.len() == 0 {
            assert(out@ =~= seq![':', ':'] + name@);
        } else {
            assert(out@ =~= prefix@ + seq![':', ':'] + name@);
        }
    }
    out
}

/// The namespace a definition of `name` lands in, given the enclosing namespace.
pub fn container_of(prefix: &str, name: &str) -> (r: String)
    ensures
        r@ == container(prefix@, name@),
{
    let q = chars_of(qualify(prefix, name).as_str());
    let c = colons();
    match find_last(q.as_slice(), c.as_slice()) {
        Some(i) => if i == 0 {
            string_of(c.as_slice())
        } else {
            string_of(vstd::slice::slice_subrange(q.as_slice(), 0, i))
        },
        None => string_of(c.as_slice()),
    }
}

/// What follows the last `::` of a name.
pub fn last_segment(name: &str) -> (r: String)
    ensures
        r@ == last_part(name@),
{
    let n = chars_of(name);
    let c = colons();
    let total: usize = n.len();
    match find_last(n.as_slice(), c.as_slice()) {
        Some(i) => string_of(vstd::slice::slice_subrange(n.as_slice(), i + 2, total)),
        None => name.to_owned(),
    }
}

/// The name without leading `::`.
pub fn unrooted(name: &str) -> (r: String)
    ensures
        r@ == without_root(name@),
{
    let n = chars_of(name);
    let c = colons();
    let mut i: usize = 0;
    assert(n@.subrange(0, n@.len() as int) =~= n@);
    loop
        invariant
            i <= n@.len(),
            n@ == name@,
            c@ == seq![':', ':'],
            without_root(name@) == without_root(n@.subrange(i as int, n@.len() as int)),
        decreases n@.len() - i,
    {
        let rest = vstd::slice::slice_subrange(n.as_slice(), i, n.len());
        if !stands_at(rest, 0, c.as_slice()) {
            return string_of(rest);
        }
        assert(rest@.subrange(2, rest@.len() as int) =~= n@.subrange(i + 2, n@.len() as int));
        i = i + 2;
    }
}

// ------------------------------------------------------------- documentation
/// The text of the comment lines from line `k` on: each without its `#` and the
/// space around it, with a newline behind it.
pub open spec fn doc_lines(all: Seq<Seq<char>>, k: int) -> Seq<char>
    decreases all.len() - k,
{
    if k >= all.len() {
        seq![]
    } else {
        let line = trim_start(all[k]);
        if line.len() > 0 && line[0] == '#' {
            trim_start(line.subrange(1, line.len() as int)) + seq!['\n'] + doc_lines(all, k + 1)
        } else {
            doc_lines(all, k + 1)
        }
    }
}

/// The documentation that a comment block holds, if any.
pub open spec fn doc_text(raw: Seq<char>) -> Option<Seq<char>> {
    let text = trim_end(doc_lines(split_lines(raw), 0));
    if text.len() == 0 {
        None
    } else {
        Some(text)
    }
}

/// The documentation that a comment block holds, if any.
pub fn documentation(raw: &str) -> (r: Option<String>)
    ensures
        text_option(r) == doc_text(raw@),
{
    let chars = chars_of(raw);
    let all = lines(chars.as_slice());
    let mut out: Vec<char> = Vec::new();
    let ghost whole = doc_lines(runs(all@), 0);
    let mut k: usize = 0;
    assert(out@ + whole =~= whole);
    while k < all.len()
        invariant
            k <= all@.len(),
            whole == doc_lines(runs(all@), 0),
            whole == out@ + doc_lines(runs(all@), k as int),
        decreases all@.len() - k,
    {
        assert(runs(all@)[k as int] == all@[k as int]@);
        let line = trimmed_start(all[k]);
        let ghost before = out@;
        if line.len() > 0 && line[0] == '#' {
            let rest = trimmed_start(vstd::slice::slice_subrange(line, 1, line.len()));
            out.extend_from_slice(rest);
            out.push('\n');
            proof {
                let tail = doc_lines(runs(all@), k + 1);
                assert(out@ =~= before + rest@ + seq!['\n']);
                assert(before + (rest@ + seq!['\n'] + tail) =~= (before + rest@ + seq!['\n'])
                    + tail);
            }
        }
        k = k + 1;
    }
    assert(out@ + Seq::<char>::empty() =~= out@);
    let text = trimmed_end(out.as_slice());
    if text.len() == 0 {
        None
    } else {
        Some(string_of(text))
    }
}

// ------------------------------------------------------------ argument lists
/// The name that one element of an argument list binds: `name` or `name default`.
pub open spec fn arg_name(element: Seq<char>) -> Seq<Seq<char>> {
    if split_words(element).len() == 0 {
        seq![]
    } else {
        seq![split_words(element)[0]]
    }
}

/// The names of an argument list from position `i` on, with `depth` braces open
/// and `cur` already read of the current element.
pub open spec fn args_from(s: Seq<char>, i: int, depth: nat, cur: Seq<char>) -> Seq<Seq<char>>
    decreases s.len() - i,
{
    if i < 0 || i >= s.len() {
        arg_name(cur)
    } else if s[i] == '{' {
        args_from(
            s,
            i + 1,
            depth + 1,
            if depth == 0 {
                cur
            } else {
                cur.push(s[i])
            },
        )
    } else if s[i] == '}' && depth <= 1 {
        arg_name(cur) + args_from(s, i + 1, 0, seq![])
    } else if s[i] == '}' {
        args_from(s, i + 1, (depth - 1) as nat, cur.push(s[i]))
    } else if crate::text::is_space(s[i]) && depth == 0 {
        arg_name(cur) + args_from(s, i + 1, 0, seq![])
    } else {
        args_from(s, i + 1, depth, cur.push(s[i]))
    }
}

/// The names that a Tcl argument list binds.
pub open spec fn arg_names(args: Seq<char>) -> Seq<Seq<char>> {
    args_from(args, 0, 0, seq![])
}

fn push_arg(out: &mut Vec<String>, cur: &Vec<char>)
    ensures
        texts(final(out)@) == texts(old(out)@) + arg_name(cur@),
{
    let parts = words(cur.as_slice());
    if parts.len() > 0 {
        assert(runs(parts@)[0] == parts@[0]@);
        out.push(string_of(parts[0]));
        assert(texts(out@) =~= texts(old(out)@) + arg_name(cur@));
    } else {
        assert(runs(parts@).len() == 0);
        assert(texts(out@) =~= texts(old(out)@) + arg_name(cur@));
    }
}

/// Splits a Tcl argument list, where an element may be `name` or `{name default}`.
pub fn split_args(args: &str) -> (out: Vec<String>)
    ensures
        texts(out@) == arg_names(args@),
{
    let s = chars_of(args);
    let mut out: Vec<String> = Vec::new();
    let mut cur: Vec<char> = Vec::new();
    let mut depth: usize = 0;
    let mut i: usize = 0;
    proof {
        assert(cur@ =~= seq![]);
        assert(texts(out@) + arg_names(args@) =~= arg_names(args@));
    }
    while i < s.len()
        invariant
            i <= s@.len(),
            s@ == args@,
            depth <= i,
            arg_names(args@) == texts(out@) + args_from(s@, i as int, depth as nat, cur@),
        decreases s@.len() - i,
    {
        let c = s[i];
        let ghost before = texts(out@);
        let ghost rest = args_from(s@, i + 1, 0, seq![]);
        if c == '{' {
            if depth > 0 {
                cur.push(c);
            }
            depth = depth + 1;
        } else if c == '}' {
            if depth <= 1 {
                depth = 0;
                push_arg(&mut out, &cur);
                assert(before + (arg_name(cur@) + rest) =~= (before + arg_name(cur@)) + rest);
                cur.clear();
                assert(cur@ =~= seq![]);
            } else {
                depth = depth - 1;
                cur.push(c);
            }
        } else if space(c) && depth == 0 {
            push_arg(&mut out, &cur);
            assert(before + (arg_name(cur@) + rest) =~= (before + arg_name(cur@)) + rest);
            cur.clear();
            assert(cur@ =~= seq![]);
        } else {
            cur.push(c);
        }
        i = i + 1;
    }
    push_arg(&mut out, &cur);
    out
}

// ----------------------------------------------------------------------- laws
/// A qualified name is always absolute.
pub proof fn qualified_names_are_absolute(prefix: Seq<char>, name: Seq<char>)
    requires
        prefix.len() == 0 || matches_at(prefix, 0, seq![':', ':']),
    ensures
        matches_at(qualified(prefix, name), 0, seq![':', ':']),
{
    let q = qualified(prefix, name);
    let c = seq![':', ':'];
    if !matches_at(name, 0, c) {
        if prefix == c || prefix.len() == 0 {
            assert(q.subrange(0, 2) =~= c);
        } else {
            assert(q.subrange(0, 2) =~= prefix.subrange(0, 2));
        }
    }
}

/// An absolute name is left alone, whatever the namespace.
pub proof fn absolute_names_ignore_the_namespace(prefix: Seq<char>, name: Seq<char>)
    requires
        matches_at(name, 0, seq![':', ':']),
    ensures
        qualified(prefix, name) == name,
{
}

/// Qualifying twice is qualifying once.
pub proof fn qualifying_is_idempotent(prefix: Seq<char>, other: Seq<char>, name: Seq<char>)
    requires
        prefix.len() == 0 || matches_at(prefix, 0, seq![':', ':']),
    ensures
        qualified(other, qualified(prefix, name)) == qualified(prefix, name),
{
    qualified_names_are_absolute(prefix, name);
}

} // verus!

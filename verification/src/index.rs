//! Workspace-wide index and name resolution.
//!
//! Holds one entry per Tcl file — open in the editor or merely on disk — so that
//! go-to-definition, references and workspace symbols work across a project.
//! Files are keyed by an opaque string, the client's document URI, and are kept in
//! the order in which they came.
use core::ops::Range;
use vstd::prelude::*;
use vstd::string::{StringExecFns, StringSliceAdditionalSpecFns};

use crate::line_index::LineIndex;
use crate::outline::{
    last_part, last_segment, lemma_symbol_children, qualified, qualify, symbol_views, Outline,
    Provide, ProvideView, RefKind, RefView, Symbol, SymbolKind, SymbolView, VarDef, VarView,
};
use crate::script::Script;
use crate::text::{
    chars_of, find_from, find_text, lemma_text_less, matches_at, rfind_text, same_chars, same_text,
    stands_at, text_less, text_option, text_precedes,
};
use crate::walker::{outline, outline_of, var_views};

verus! {

/// A definition, flattened out of the nested outline for fast lookup.
#[derive(Debug, Clone)]
pub struct Def {
    pub kind: SymbolKind,
    pub name: String,
    pub qname: String,
    pub name_range: Range<usize>,
    pub full_range: Range<usize>,
    pub detail: Option<String>,
    pub doc: Option<String>,
}

pub struct DefView {
    pub kind: SymbolKind,
    pub name: Seq<char>,
    pub qname: Seq<char>,
    pub name_range: Range<usize>,
    pub full_range: Range<usize>,
    pub detail: Option<Seq<char>>,
    pub doc: Option<Seq<char>>,
}

impl View for Def {
    type V = DefView;

    open spec fn view(&self) -> DefView {
        DefView {
            kind: self.kind,
            name: self.name@,
            qname: self.qname@,
            name_range: self.name_range,
            full_range: self.full_range,
            detail: text_option(self.detail),
            doc: text_option(self.doc),
        }
    }
}

impl Def {
    /// A one-line signature, e.g. `::util::greet {name}`.
    pub fn signature(&self) -> (r: String)
        ensures
            r@ == signature_of(self@),
    {
        let mut out = self.qname.clone();
        if let Some(args) = &self.detail {
            out.append(" {");
            out.append(args.as_str());
            out.append("}");
        }
        out
    }
}

/// A one-line signature: the qualified name, and the arguments in braces.
pub open spec fn signature_of(d: DefView) -> Seq<char> {
    match d.detail {
        Some(args) => d.qname + " {"@ + args + "}"@,
        None => d.qname,
    }
}

/// The definition that a symbol is.
pub open spec fn def_of(s: SymbolView) -> DefView {
    DefView {
        kind: s.kind,
        name: s.name,
        qname: s.qname,
        name_range: s.name_range,
        full_range: s.full_range,
        detail: s.detail,
        doc: s.doc,
    }
}

/// The definitions among the symbols from `k` on, each before its children.
pub open spec fn flat(symbols: Seq<SymbolView>, k: int) -> Seq<DefView>
    decreases symbols, symbols.len() - k,
{
    if k < 0 || k >= symbols.len() {
        seq![]
    } else {
        seq![def_of(symbols[k])] + flat(symbols[k].children, 0) + flat(symbols, k + 1)
    }
}

/// The definitions of a file, from its text.
pub open spec fn defs_of(b: Seq<u8>) -> Seq<DefView> {
    flat(outline_of(b).symbols, 0)
}

pub open spec fn def_views(v: Seq<Def>) -> Seq<DefView> {
    v.map_values(|d: Def| d@)
}

fn clone_option(s: &Option<String>) -> (r: Option<String>)
    ensures
        text_option(r) == text_option(*s),
{
    match s {
        Some(t) => Some(t.clone()),
        None => None,
    }
}

fn flatten(symbols: &Vec<Symbol>, out: &mut Vec<Def>)
    ensures
        def_views(final(out)@) == def_views(old(out)@) + flat(symbol_views(symbols@), 0),
    decreases symbols,
{
    let ghost views = symbol_views(symbols@);
    let ghost before = def_views(out@);
    let ghost mut acc: Seq<DefView> = seq![];
    let mut k: usize = 0;
    proof {
        assert(acc + flat(views, 0) =~= flat(views, 0));
        assert(before + acc =~= before);
    }
    while k < symbols.len()
        invariant
            k <= symbols@.len(),
            views == symbol_views(symbols@),
            def_views(out@) == before + acc,
            flat(views, 0) == acc + flat(views, k as int),
        decreases symbols@.len() - k,
    {
        let s = &symbols[k];
        let ghost was = out@;
        let d = Def {
            kind: s.kind,
            name: s.name.clone(),
            qname: s.qname.clone(),
            name_range: s.name_range.clone(),
            full_range: s.full_range.clone(),
            detail: clone_option(&s.detail),
            doc: clone_option(&s.doc),
        };
        out.push(d);
        assert(def_views(out@) =~= def_views(was).push(d@));
        flatten(&s.children, out);
        proof {
            lemma_symbol_children(*s);
            assert(views[k as int] == s@);
            let kids = flat(s@.children, 0);
            let rest = flat(views, k + 1);
            let step = seq![d@] + kids;
            assert(def_of(s@) == d@);
            assert(def_views(out@) =~= (before + acc) + step);
            assert(acc + (step + rest) =~= (acc + step) + rest);
            acc = acc + step;
            assert(def_views(out@) =~= before + acc);
        }
        k = k + 1;
    }
    proof {
        assert(acc + Seq::<DefView>::empty() =~= acc);
    }
}

/// Everything known about one file.
pub struct FileIndex {
    pub line_index: LineIndex,
    pub outline: Outline,
    pub defs: Vec<Def>,
}

impl FileIndex {
    /// What is known is what the text says.
    pub open spec fn describes(self, b: Seq<u8>) -> bool {
        &&& self.line_index@ == b
        &&& self.outline@ == outline_of(b)
        &&& def_views(self.defs@) == defs_of(b)
    }
}

/// A location within the workspace, in byte offsets.
#[derive(Debug, Clone, PartialEq, Eq)]
pub struct Loc {
    pub uri: String,
    pub range: Range<usize>,
}

pub struct LocView {
    pub uri: Seq<char>,
    pub range: Range<usize>,
}

impl View for Loc {
    type V = LocView;

    open spec fn view(&self) -> LocView {
        LocView { uri: self.uri@, range: self.range }
    }
}

/// Completion candidates in scope at a point.
pub struct Completions<'a> {
    pub commands: Vec<&'a Def>,
    pub variables: Vec<&'a VarDef>,
}

// -------------------------------------------------------------------- model
/// A file as the index knows it: its URI and the bytes of its text.
pub struct FileView {
    pub uri: Seq<char>,
    pub text: Seq<u8>,
}

/// The place of a URI among the files from `i` on.
pub open spec fn file_at(files: Seq<FileView>, uri: Seq<char>, i: int) -> Option<int>
    decreases files.len() - i,
{
    if i < 0 || i >= files.len() {
        None
    } else if files[i].uri == uri {
        Some(i)
    } else {
        file_at(files, uri, i + 1)
    }
}

/// The text of a file.
pub open spec fn text_of(files: Seq<FileView>, uri: Seq<char>) -> Option<Seq<u8>> {
    match file_at(files, uri, 0) {
        Some(i) => Some(files[i].text),
        None => None,
    }
}

/// The files after one was indexed: in its old place, or last.
pub open spec fn with_file(files: Seq<FileView>, uri: Seq<char>, text: Seq<u8>) -> Seq<FileView> {
    match file_at(files, uri, 0) {
        Some(i) => files.update(i, FileView { uri, text }),
        None => files.push(FileView { uri, text }),
    }
}

/// The files after one was dropped.
pub open spec fn without_file(files: Seq<FileView>, uri: Seq<char>) -> Seq<FileView> {
    match file_at(files, uri, 0) {
        Some(i) => files.remove(i),
        None => files,
    }
}

/// No file is there twice.
pub open spec fn each_once(files: Seq<FileView>) -> bool {
    forall|i: int, j: int|
        0 <= i < j < files.len() ==> (#[trigger] files[i]).uri != (#[trigger] files[j]).uri
}

/// How a definition is looked for.
#[derive(Debug, Clone, Copy, PartialEq, Eq, Structural)]
pub enum LookFor {
    /// By its qualified name.
    Qname,
    /// By its last name.
    Name,
    /// By a part of its qualified name, in any case; everything has the empty part.
    Part,
}

pub open spec fn is_hit(d: DefView, by: LookFor, text: Seq<char>) -> bool {
    match by {
        LookFor::Qname => d.qname == text,
        LookFor::Name => d.name == text,
        LookFor::Part => text.len() == 0 || find_text(lowercase(d.qname), 0, text) is Some,
    }
}

pub struct HitView {
    pub uri: Seq<char>,
    pub def: DefView,
}

/// The hits among the definitions of one file, from `k` on.
pub open spec fn hits_in(
    uri: Seq<char>,
    defs: Seq<DefView>,
    k: int,
    by: LookFor,
    text: Seq<char>,
) -> Seq<HitView>
    decreases defs.len() - k,
{
    if k < 0 || k >= defs.len() {
        seq![]
    } else if is_hit(defs[k], by, text) {
        seq![HitView { uri, def: defs[k] }] + hits_in(uri, defs, k + 1, by, text)
    } else {
        hits_in(uri, defs, k + 1, by, text)
    }
}

/// The hits in the files from `i` on.
pub open spec fn hits(files: Seq<FileView>, i: int, by: LookFor, text: Seq<char>) -> Seq<HitView>
    decreases files.len() - i,
{
    if i < 0 || i >= files.len() {
        seq![]
    } else {
        hits_in(files[i].uri, defs_of(files[i].text), 0, by, text) + hits(files, i + 1, by, text)
    }
}

/// The definitions that a name stands for. An absolute name must match exactly;
/// another is looked up in the current namespace, then in the global one, and not in
/// between. If that finds nothing, by its last part: the namespace at the cursor may
/// not be the one that the name is used in.
pub open spec fn resolved(files: Seq<FileView>, name: Seq<char>, namespace: Seq<char>) -> Seq<
    HitView,
> {
    let colons = seq![':', ':'];
    if matches_at(name, 0, colons) {
        hits(files, 0, LookFor::Qname, name)
    } else {
        let local = if namespace == colons || namespace.len() == 0 {
            seq![]
        } else {
            hits(files, 0, LookFor::Qname, namespace + colons + name)
        };
        let global = hits(files, 0, LookFor::Qname, colons + name);
        if local.len() > 0 {
            local
        } else if global.len() > 0 {
            global
        } else {
            hits(files, 0, LookFor::Name, last_part(name))
        }
    }
}

/// Whether a use site is one of `qname`: an absolute name is as it is; another is
/// so in its namespace, or by its last part.
pub open spec fn refers(r: RefView, qname: Seq<char>) -> bool {
    &&& r.kind is Command
    &&& if matches_at(r.name, 0, seq![':', ':']) {
        r.name == qname
    } else {
        qualified(r.namespace, r.name) == qname || r.name == last_part(qname)
    }
}

pub open spec fn uses_in(uri: Seq<char>, refs: Seq<RefView>, k: int, qname: Seq<char>) -> Seq<
    LocView,
>
    decreases refs.len() - k,
{
    if k < 0 || k >= refs.len() {
        seq![]
    } else if refers(refs[k], qname) {
        seq![LocView { uri, range: refs[k].range }] + uses_in(uri, refs, k + 1, qname)
    } else {
        uses_in(uri, refs, k + 1, qname)
    }
}

/// The use sites of a name in the files from `i` on.
pub open spec fn uses(files: Seq<FileView>, i: int, qname: Seq<char>) -> Seq<LocView>
    decreases files.len() - i,
{
    if i < 0 || i >= files.len() {
        seq![]
    } else {
        uses_in(files[i].uri, outline_of(files[i].text).refs, 0, qname) + uses(
            files,
            i + 1,
            qname,
        )
    }
}

/// All definitions in the files from `i` on.
pub open spec fn all_defs(files: Seq<FileView>, i: int) -> Seq<DefView>
    decreases files.len() - i,
{
    if i < 0 || i >= files.len() {
        seq![]
    } else {
        defs_of(files[i].text) + all_defs(files, i + 1)
    }
}

/// Whether a variable can be seen at an offset: inside its scope, or up to the end
/// of one that begins with the file.
pub open spec fn visible(v: VarView, offset: int) -> bool {
    v.scope.start <= offset < v.scope.end || (v.scope.start == 0 && offset <= v.scope.end)
}

/// Whether the variable in place `k` is the first that can be seen under its name.
pub open spec fn first_seen(vars: Seq<VarView>, k: int, offset: int) -> bool {
    &&& 0 <= k < vars.len()
    &&& visible(vars[k], offset)
    &&& forall|j: int|
        0 <= j < k && visible(#[trigger] vars[j], offset) ==> vars[j].name != vars[k].name
}

/// Variables in the order of their names, each name once.
pub open spec fn by_name(out: Seq<VarView>) -> bool {
    forall|i: int, j: int|
        0 <= i < j < out.len() ==> text_less((#[trigger] out[i]).name, (#[trigger] out[j]).name)
}

/// The variables offered at an offset of the first `n`: for each name that can be
/// seen the first variable of that name, in the order of the names.
pub open spec fn offered_of(vars: Seq<VarView>, n: int, offset: int, out: Seq<VarView>) -> bool {
    &&& by_name(out)
    &&& forall|i: int|
        0 <= i < out.len() ==> is_first(vars, n, offset, #[trigger] out[i])
    &&& forall|k: int|
        0 <= k < n && visible(#[trigger] vars[k], offset) ==> named_among(out, vars[k].name)
}

/// Whether the variable is the first of its name that can be seen, and among the
/// first `n`.
pub open spec fn is_first(vars: Seq<VarView>, n: int, offset: int, v: VarView) -> bool {
    exists|k: int| k < n && #[trigger] first_seen(vars, k, offset) && vars[k] == v
}

pub open spec fn named_among(out: Seq<VarView>, name: Seq<char>) -> bool {
    exists|i: int| 0 <= i < out.len() && (#[trigger] out[i]).name == name
}

/// The variables offered at an offset.
pub open spec fn offered(vars: Seq<VarView>, offset: int, out: Seq<VarView>) -> bool {
    offered_of(vars, vars.len() as int, offset, out)
}

proof fn lemma_offer_new(vars: Seq<VarView>, k: int, offset: int, out: Seq<VarView>, at: int)
    requires
        offered_of(vars, k, offset, out),
        0 <= k < vars.len(),
        visible(vars[k], offset),
        !named_among(out, vars[k].name),
        0 <= at <= out.len(),
        by_name(out.insert(at, vars[k])),
    ensures
        offered_of(vars, k + 1, offset, out.insert(at, vars[k])),
{
    let now = out.insert(at, vars[k]);
    assert forall|j: int| 0 <= j < k && visible(#[trigger] vars[j], offset) implies vars[j].name
        != vars[k].name by {
        assert(named_among(out, vars[j].name));
    }
    assert(first_seen(vars, k, offset));
    assert forall|i: int| 0 <= i < now.len() implies is_first(
        vars,
        k + 1,
        offset,
        #[trigger] now[i],
    ) by {
        if i != at {
            let o = if i < at {
                i
            } else {
                i - 1
            };
            assert(now[i] == out[o]);
            assert(is_first(vars, k, offset, out[o]));
        }
    }
    assert forall|m: int| 0 <= m < k + 1 && visible(#[trigger] vars[m], offset) implies named_among(
        now,
        vars[m].name,
    ) by {
        if m == k {
            assert(now[at].name == vars[m].name);
        } else {
            let i = choose|i: int| 0 <= i < out.len() && (#[trigger] out[i]).name == vars[m].name;
            let n = if i < at {
                i
            } else {
                i + 1
            };
            assert(now[n] == out[i]);
        }
    }
}

proof fn lemma_offer_old(vars: Seq<VarView>, k: int, offset: int, out: Seq<VarView>)
    requires
        offered_of(vars, k, offset, out),
        0 <= k < vars.len(),
        visible(vars[k], offset) ==> named_among(out, vars[k].name),
    ensures
        offered_of(vars, k + 1, offset, out),
{
    assert forall|i: int| 0 <= i < out.len() implies is_first(
        vars,
        k + 1,
        offset,
        #[trigger] out[i],
    ) by {
        assert(is_first(vars, k, offset, out[i]));
    }
    assert forall|m: int| 0 <= m < k + 1 && visible(#[trigger] vars[m], offset) implies named_among(
        out,
        vars[m].name,
    ) by {
        if m < k {
            assert(visible(vars[m], offset));
        }
    }
}

/// The package declaration of that name among those of one file, from `k` on.
pub open spec fn declared(provides: Seq<ProvideView>, k: int, name: Seq<char>) -> Option<
    ProvideView,
>
    decreases provides.len() - k,
{
    if k < 0 || k >= provides.len() {
        None
    } else if provides[k].name == name {
        Some(provides[k])
    } else {
        declared(provides, k + 1, name)
    }
}

/// The first file from `i` on that declares the package, and where.
pub open spec fn provider(files: Seq<FileView>, i: int, name: Seq<char>) -> Option<
    (Seq<char>, ProvideView),
>
    decreases files.len() - i,
{
    if i < 0 || i >= files.len() {
        None
    } else {
        match declared(outline_of(files[i].text).provides, 0, name) {
            Some(p) => Some((files[i].uri, p)),
            None => provider(files, i + 1, name),
        }
    }
}

/// The lower-case form of a text.
pub uninterp spec fn lowercase(s: Seq<char>) -> Seq<char>;

/// `str::to_lowercase` of std, whose result depends on the text alone. What the
/// lower-case form of a character is, the Unicode tables say.
#[verifier::external_body]
fn to_lowercase(s: &str) -> (r: String)
    ensures
        r@ == lowercase(s@),
{
    s.to_lowercase()
}

// -------------------------------------------------------------- the index
struct Entry {
    uri: String,
    file: FileIndex,
    text: Ghost<Seq<u8>>,
}

spec fn entry_view(e: Entry) -> FileView {
    FileView { uri: e.uri@, text: e.text@ }
}

spec fn entry_views(v: Seq<Entry>) -> Seq<FileView> {
    v.map_values(|e: Entry| entry_view(e))
}

pub open spec fn hit_views(v: Seq<(&str, &Def)>) -> Seq<HitView> {
    v.map_values(|h: (&str, &Def)| HitView { uri: h.0@, def: h.1@ })
}

pub open spec fn loc_views(v: Seq<Loc>) -> Seq<LocView> {
    v.map_values(|l: Loc| l@)
}

pub open spec fn def_ref_views(v: Seq<&Def>) -> Seq<DefView> {
    v.map_values(|d: &Def| d@)
}

pub open spec fn var_ref_views(v: Seq<&VarDef>) -> Seq<VarView> {
    v.map_values(|d: &VarDef| d@)
}

/// The files of a workspace.
pub struct Index {
    files: Vec<Entry>,
}

impl View for Index {
    type V = Seq<FileView>;

    closed spec fn view(&self) -> Seq<FileView> {
        entry_views(self.files@)
    }
}

impl Default for Index {
    fn default() -> (r: Self)
        ensures
            r@.len() == 0,
    {
        Index { files: Vec::new() }
    }
}

impl Index {
    #[verifier::type_invariant]
    spec fn consistent(self) -> bool {
        &&& each_once(entry_views(self.files@))
        &&& forall|i: int|
            0 <= i < self.files@.len() ==> (#[trigger] self.files@[i]).file.describes(
                self.files@[i].text@,
            )
    }

    pub fn new() -> (r: Self)
        ensures
            r@.len() == 0,
    {
        Self::default()
    }

    pub fn len(&self) -> (n: usize)
        ensures
            n == self@.len(),
            each_once(self@),
    {
        proof {
            use_type_invariant(self);
        }
        self.files.len()
    }

    pub fn is_empty(&self) -> (r: bool)
        ensures
            r == (self@.len() == 0),
            each_once(self@),
    {
        proof {
            use_type_invariant(self);
        }
        self.files.len() == 0
    }

    fn find(&self, uri: &str) -> (r: Option<usize>)
        ensures
            match file_at(self@, uri@, 0) {
                Some(i) => r is Some && r->0 == i && 0 <= i < self@.len(),
                None => r is None,
            },
    {
        let mut i: usize = 0;
        while i < self.files.len()
            invariant
                i <= self.files@.len(),
                file_at(self@, uri@, 0) == file_at(self@, uri@, i as int),
            decreases self.files@.len() - i,
        {
            assert(self@[i as int] == entry_view(self.files@[i as int]));
            if same_text(self.files[i].uri.as_str(), uri) {
                return Some(i);
            }
            i = i + 1;
        }
        None
    }

    /// What is known of a file.
    pub fn file(&self, uri: &str) -> (r: Option<&FileIndex>)
        ensures
            match text_of(self@, uri@) {
                Some(text) => r is Some && r->0.describes(text),
                None => r is None,
            },
            each_once(self@),
    {
        proof {
            use_type_invariant(self);
        }
        match self.find(uri) {
            Some(i) => {
                assert(self@[i as int] == entry_view(self.files@[i as int]));
                Some(&self.files[i].file)
            },
            None => None,
        }
    }

    pub fn contains(&self, uri: &str) -> (r: bool)
        ensures
            r == (text_of(self@, uri@) is Some),
            each_once(self@),
    {
        proof {
            use_type_invariant(self);
        }
        self.find(uri).is_some()
    }

    /// Drops a file.
    pub fn remove(&mut self, uri: &str)
        ensures
            final(self)@ == without_file(old(self)@, uri@),
            each_once(old(self)@),
            each_once(final(self)@),
            text_of(final(self)@, uri@) is None,
            forall|other: Seq<char>|
                other != uri@ ==> #[trigger] text_of(final(self)@, other) == text_of(
                    old(self)@,
                    other,
                ),
    {
        proof {
            use_type_invariant(&*self);
            removing_drops_one_file(self@, uri@);
        }
        if let Some(i) = self.find(uri) {
            let ghost before = self@;
            let mut files: Vec<Entry> = Vec::new();
            core::mem::swap(&mut self.files, &mut files);
            let ghost old_files = files@;
            let _ = files.remove(i);
            assert(entry_views(files@) =~= before.remove(i as int));
            self.files = files;
        }
    }

    /// Indexes (or re-indexes) one file from its current text.
    pub fn set_file(&mut self, uri: &str, text: &str)
        requires
            text.spec_bytes().len() < u32::MAX,
        ensures
            final(self)@ == with_file(old(self)@, uri@, text.spec_bytes()),
            each_once(old(self)@),
            each_once(final(self)@),
            text_of(final(self)@, uri@) == Some(text.spec_bytes()),
            forall|other: Seq<char>|
                other != uri@ ==> #[trigger] text_of(final(self)@, other) == text_of(
                    old(self)@,
                    other,
                ),
    {
        proof {
            use_type_invariant(&*self);
            indexing_replaces_one_file(self@, uri@, text.spec_bytes());
        }
        let script = Script::new(text);
        let outline = outline(&script);
        let mut defs: Vec<Def> = Vec::new();
        flatten(&outline.symbols, &mut defs);
        assert(def_views(defs@) =~= defs_of(text.spec_bytes()));
        let file = FileIndex { line_index: LineIndex::new(text), outline, defs };
        let entry = Entry { uri: uri.to_owned(), file, text: Ghost(text.spec_bytes()) };
        let ghost before = self@;
        let at = self.find(uri);
        let mut files: Vec<Entry> = Vec::new();
        core::mem::swap(&mut self.files, &mut files);
        match at {
            Some(i) => {
                proof {
                    lemma_file_at(before, uri@, 0);
                }
                files.set(i, entry);
                assert(entry_views(files@) =~= before.update(
                    i as int,
                    FileView { uri: uri@, text: text.spec_bytes() },
                ));
            },
            None => {
                proof {
                    lemma_file_at(before, uri@, 0);
                }
                files.push(entry);
                assert(entry_views(files@) =~= before.push(
                    FileView { uri: uri@, text: text.spec_bytes() },
                ));
            },
        }
        self.files = files;
    }

    /// The definitions that are looked for, in all files.
    fn look_up(&self, by: LookFor, text: &str, limit: Option<usize>) -> (out: Vec<(&str, &Def)>)
        ensures
            match limit {
                None => hit_views(out@) == hits(self@, 0, by, text@),
                Some(n) => hit_views(out@) == first_hits(hits(self@, 0, by, text@), n as int),
            },
    {
        proof {
            use_type_invariant(self);
        }
        let ghost files = self@;
        let part = chars_of(text);
        let mut out: Vec<(&str, &Def)> = Vec::new();
        let ghost whole = hits(files, 0, by, text@);
        let mut i: usize = 0;
        assert(hit_views(out@) + whole =~= whole);
        while i < self.files.len()
            invariant
                i <= self.files@.len(),
                files == entry_views(self.files@),
                self.consistent(),
                part@ == text@,
                whole == hits(files, 0, by, text@),
                whole == hit_views(out@) + hits(files, i as int, by, text@),
                limit matches Some(n) ==> out@.len() < n || out@.len() == 0,
            decreases self.files@.len() - i,
        {
            let entry = &self.files[i];
            let uri = entry.uri.as_str();
            let defs = &entry.file.defs;
            let ghost views = defs_of(entry.text@);
            let ghost later = hits(files, i + 1, by, text@);
            assert(files[i as int] == entry_view(*entry));
            assert(entry.file.describes(entry.text@));
            let mut k: usize = 0;
            while k < defs.len()
                invariant
                    k <= defs@.len(),
                    views == def_views(defs@),
                    part@ == text@,
                    uri@ == entry.uri@,
                    whole == hits(self@, 0, by, text@),
                    whole == hit_views(out@) + (hits_in(
                        entry.uri@,
                        views,
                        k as int,
                        by,
                        text@,
                    ) + later),
                    limit matches Some(n) ==> out@.len() < n || out@.len() == 0,
                decreases defs@.len() - k,
            {
                let d = &defs[k];
                assert(views[k as int] == d@);
                let found = match by {
                    LookFor::Qname => same_text(d.qname.as_str(), text),
                    LookFor::Name => same_text(d.name.as_str(), text),
                    LookFor::Part => part.len() == 0 || find_from(
                        chars_of(to_lowercase(d.qname.as_str()).as_str()).as_slice(),
                        0,
                        part.as_slice(),
                    ).is_some(),
                };
                if found {
                    let ghost was = out@;
                    out.push((uri, d));
                    proof {
                        let step = seq![HitView { uri: uri@, def: d@ }];
                        let rest = hits_in(entry.uri@, views, k + 1, by, text@);
                        assert(hit_views(out@) =~= hit_views(was) + step);
                        assert(hit_views(was) + ((step + rest) + later) =~= (hit_views(was)
                            + step) + (rest + later));
                    }
                    if let Some(n) = limit {
                        if out.len() >= n {
                            proof {
                                let rest = hits_in(entry.uri@, views, k + 1, by, text@) + later;
                                assert((hit_views(out@) + rest).take(out@.len() as int)
                                    =~= hit_views(out@));
                            }
                            return out;
                        }
                    }
                }
                k = k + 1;
            }
            proof {
                assert(Seq::<HitView>::empty() + later =~= later);
            }
            i = i + 1;
        }
        proof {
            assert(hit_views(out@) + Seq::<HitView>::empty() =~= hit_views(out@));
            assert(whole.take(whole.len() as int) =~= whole);
        }
        out
    }

    /// Resolves a possibly-qualified name to its definitions.
    ///
    /// Follows Tcl's own lookup rules: a name starting with `::` is absolute and
    /// must match exactly; otherwise it is searched for in the current namespace
    /// and then in the global namespace — and, importantly, *not* in the
    /// namespaces in between. A relative name that neither has is matched by its final
    /// segment.
    pub fn resolve(&self, name: &str, namespace: &str) -> (out: Vec<(&str, &Def)>)
        ensures
            hit_views(out@) == resolved(self@, name@, namespace@),
    {
        let n = chars_of(name);
        let c = crate::outline::colons();
        let ns = chars_of(namespace);
        if stands_at(n.as_slice(), 0, c.as_slice()) {
            return self.look_up(LookFor::Qname, name, None);
        }
        if ns.len() > 0 && !same_chars(ns.as_slice(), c.as_slice()) {
            let mut candidate = namespace.to_owned();
            candidate.push(':');
            candidate.push(':');
            candidate.append(name);
            assert(candidate@ =~= namespace@ + seq![':', ':'] + name@);
            let local = self.look_up(LookFor::Qname, candidate.as_str(), None);
            if local.len() > 0 {
                assert(hit_views(local@).len() > 0);
                return local;
            }
            assert(hit_views(local@).len() == 0);
        }
        let mut candidate = String::new();
        candidate.push(':');
        candidate.push(':');
        candidate.append(name);
        assert(candidate@ =~= seq![':', ':'] + name@);
        let global = self.look_up(LookFor::Qname, candidate.as_str(), None);
        if global.len() > 0 {
            assert(hit_views(global@).len() > 0);
            return global;
        }
        assert(hit_views(global@).len() == 0);
        // Matching the final segment is what makes navigation useful when the
        // namespace cannot be told from the cursor position alone.
        let tail = last_segment(name);
        self.look_up(LookFor::Name, tail.as_str(), None)
    }

    /// Every use site of a name, across the workspace.
    pub fn references(&self, qname: &str) -> (out: Vec<Loc>)
        ensures
            loc_views(out@) == uses(self@, 0, qname@),
    {
        proof {
            use_type_invariant(self);
        }
        let ghost files = self@;
        let tail = last_segment(qname);
        let c = crate::outline::colons();
        let mut out: Vec<Loc> = Vec::new();
        let ghost whole = uses(files, 0, qname@);
        let mut i: usize = 0;
        assert(loc_views(out@) + whole =~= whole);
        while i < self.files.len()
            invariant
                i <= self.files@.len(),
                files == entry_views(self.files@),
                self.consistent(),
                tail@ == last_part(qname@),
                c@ == seq![':', ':'],
                whole == loc_views(out@) + uses(files, i as int, qname@),
            decreases self.files@.len() - i,
        {
            let entry = &self.files[i];
            let refs = &entry.file.outline.refs;
            let ghost views = outline_of(entry.text@).refs;
            let ghost later = uses(files, i + 1, qname@);
            assert(files[i as int] == entry_view(*entry));
            assert(entry.file.describes(entry.text@));
            let mut k: usize = 0;
            while k < refs.len()
                invariant
                    k <= refs@.len(),
                    views == crate::walker::ref_views(refs@),
                    tail@ == last_part(qname@),
                    c@ == seq![':', ':'],
                    whole == loc_views(out@) + (uses_in(entry.uri@, views, k as int, qname@)
                        + later),
                decreases refs@.len() - k,
            {
                let r = &refs[k];
                assert(views[k as int] == r@);
                let found = match r.kind {
                    RefKind::Command => {
                        let name = chars_of(r.name.as_str());
                        if stands_at(name.as_slice(), 0, c.as_slice()) {
                            same_text(r.name.as_str(), qname)
                        } else {
                            same_text(
                                qualify(r.namespace.as_str(), r.name.as_str()).as_str(),
                                qname,
                            ) || same_text(r.name.as_str(), tail.as_str())
                        }
                    },
                    _ => false,
                };
                if found {
                    let ghost was = out@;
                    let loc = Loc { uri: entry.uri.clone(), range: r.range.clone() };
                    out.push(loc);
                    proof {
                        let step = seq![loc@];
                        let rest = uses_in(entry.uri@, views, k + 1, qname@);
                        assert(loc_views(out@) =~= loc_views(was) + step);
                        assert(loc_views(was) + ((step + rest) + later) =~= (loc_views(was)
                            + step) + (rest + later));
                    }
                }
                k = k + 1;
            }
            proof {
                assert(Seq::<LocView>::empty() + later =~= later);
            }
            i = i + 1;
        }
        assert(loc_views(out@) + Seq::<LocView>::empty() =~= loc_views(out@));
        out
    }

    /// Search over qualified names, for workspace symbols. At least one hit is
    /// given, where there is one.
    pub fn search(&self, query: &str, limit: usize) -> (out: Vec<(&str, &Def)>)
        ensures
            hit_views(out@) == first_hits(
                hits(self@, 0, LookFor::Part, lowercase(query@)),
                limit as int,
            ),
    {
        let q = to_lowercase(query);
        self.look_up(LookFor::Part, q.as_str(), Some(limit))
    }

    /// All definitions in the workspace.
    pub fn definitions(&self) -> (out: Vec<&Def>)
        ensures
            def_ref_views(out@) == all_defs(self@, 0),
    {
        proof {
            use_type_invariant(self);
        }
        let ghost files = self@;
        let mut out: Vec<&Def> = Vec::new();
        let ghost whole = all_defs(files, 0);
        let mut i: usize = 0;
        assert(def_ref_views(out@) + whole =~= whole);
        while i < self.files.len()
            invariant
                i <= self.files@.len(),
                files == entry_views(self.files@),
                self.consistent(),
                whole == def_ref_views(out@) + all_defs(files, i as int),
            decreases self.files@.len() - i,
        {
            let entry = &self.files[i];
            let defs = &entry.file.defs;
            let ghost views = defs_of(entry.text@);
            let ghost later = all_defs(files, i + 1);
            let ghost before = def_ref_views(out@);
            assert(files[i as int] == entry_view(*entry));
            assert(entry.file.describes(entry.text@));
            let mut k: usize = 0;
            assert(before + views.take(0) =~= before);
            while k < defs.len()
                invariant
                    k <= defs@.len(),
                    views == def_views(defs@),
                    def_ref_views(out@) =~= before + views.take(k as int),
                decreases defs@.len() - k,
            {
                let d = &defs[k];
                let ghost was = out@;
                out.push(d);
                assert(views[k as int] == d@);
                assert(def_ref_views(out@) =~= def_ref_views(was).push(d@));
                k = k + 1;
            }
            proof {
                assert(views.take(k as int) =~= views);
                assert(before + (views + later) =~= (before + views) + later);
            }
            i = i + 1;
        }
        assert(def_ref_views(out@) + Seq::<DefView>::empty() =~= def_ref_views(out@));
        out
    }

    /// Names visible for completion at a point in a file: every definition in the
    /// workspace, plus the variables whose scope covers the cursor.
    pub fn completions_at(&self, uri: &str, offset: usize) -> (out: Completions<'_>)
        ensures
            def_ref_views(out.commands@) == all_defs(self@, 0),
            match text_of(self@, uri@) {
                Some(text) => offered(
                    outline_of(text).variables,
                    offset as int,
                    var_ref_views(out.variables@),
                ),
                None => out.variables@.len() == 0,
            },
    {
        let commands = self.definitions();
        let variables = match self.file(uri) {
            Some(f) => offer_variables(&f.outline.variables, offset),
            None => Vec::new(),
        };
        Completions { commands, variables }
    }

    /// The first file that declares a package, and its declaration.
    pub fn provider_of(&self, name: &str) -> (r: Option<(&str, &Provide)>)
        ensures
            match provider(self@, 0, name@) {
                Some(p) => r is Some && (r->0).0@ == p.0 && (r->0).1@ == p.1,
                None => r is None,
            },
    {
        proof {
            use_type_invariant(self);
        }
        let ghost files = self@;
        let mut i: usize = 0;
        while i < self.files.len()
            invariant
                i <= self.files@.len(),
                files == entry_views(self.files@),
                files == self@,
                self.consistent(),
                provider(files, 0, name@) == provider(files, i as int, name@),
            decreases self.files@.len() - i,
        {
            let entry = &self.files[i];
            let provides = &entry.file.outline.provides;
            let ghost views = outline_of(entry.text@).provides;
            assert(files[i as int] == entry_view(*entry));
            assert(entry.file.describes(entry.text@));
            let mut k: usize = 0;
            while k < provides.len()
                invariant
                    k <= provides@.len(),
                    views == provides@.map_values(|p: Provide| p@),
                    files == self@,
                    files[i as int] == entry_view(*entry),
                    0 <= i < files.len(),
                    views == outline_of(entry.text@).provides,
                    provider(files, 0, name@) == provider(files, i as int, name@),
                    declared(views, 0, name@) == declared(views, k as int, name@),
                decreases provides@.len() - k,
            {
                let p = &provides[k];
                assert(views[k as int] == p@);
                if same_text(p.name.as_str(), name) {
                    return Some((entry.uri.as_str(), p));
                }
                k = k + 1;
            }
            i = i + 1;
        }
        None
    }
}

/// At most `limit` of the hits, but one in any case.
pub open spec fn first_hits(all: Seq<HitView>, limit: int) -> Seq<HitView> {
    let n = if limit < 1 {
        1
    } else {
        limit
    };
    if all.len() <= n {
        all
    } else {
        all.take(n)
    }
}

/// Adds a variable in its place by name, unless one of that name is there.
fn offer<'a>(out: &mut Vec<&'a VarDef>, v: &'a VarDef) -> (at: usize)
    requires
        by_name(var_ref_views(old(out)@)),
    ensures
        by_name(var_ref_views(final(out)@)),
        named_among(var_ref_views(old(out)@), v.name@) ==> final(out)@ == old(out)@,
        !named_among(var_ref_views(old(out)@), v.name@) ==> at <= old(out)@.len()
            && var_ref_views(final(out)@) == var_ref_views(old(out)@).insert(at as int, v@),
{
    let ghost was = var_ref_views(out@);
    let mut at: usize = 0;
    while at < out.len() && text_precedes(out[at].name.as_str(), v.name.as_str())
        invariant
            at <= out@.len(),
            out@ == old(out)@,
            was == var_ref_views(out@),
            forall|i: int| 0 <= i < at ==> text_less((#[trigger] was[i]).name, v.name@),
        decreases out@.len() - at,
    {
        assert(was[at as int] == out@[at as int]@);
        at = at + 1;
    }
    proof {
        lemma_text_less();
        if at < was.len() {
            assert(was[at as int] == out@[at as int]@);
        }
    }
    if at < out.len() && same_text(out[at].name.as_str(), v.name.as_str()) {
        return at;
    }
    out.insert(at, v);
    proof {
        assert(var_ref_views(out@) =~= was.insert(at as int, v@));
        lemma_insert_by_name(was, at as int, v@);
        if named_among(was, v.name@) {
            let i = choose|i: int| 0 <= i < was.len() && (#[trigger] was[i]).name == v.name@;
            if i > at {
                assert(text_less(was[at as int].name, was[i].name));
            }
        }
    }
    at
}

proof fn lemma_insert_by_name(was: Seq<VarView>, at: int, v: VarView)
    requires
        by_name(was),
        0 <= at <= was.len(),
        forall|i: int| 0 <= i < at ==> text_less((#[trigger] was[i]).name, v.name),
        at < was.len() ==> text_less(v.name, was[at].name),
    ensures
        by_name(was.insert(at, v)),
{
    lemma_text_less();
    let now = was.insert(at, v);
    assert forall|i: int, j: int| 0 <= i < j < now.len() implies text_less(
        (#[trigger] now[i]).name,
        (#[trigger] now[j]).name,
    ) by {
        if i < at && j < at {
            assert(now[i] == was[i] && now[j] == was[j]);
        } else if i < at && j == at {
            assert(now[i] == was[i]);
        } else if i < at {
            assert(now[i] == was[i] && now[j] == was[j - 1]);
        } else if i == at {
            assert(now[j] == was[j - 1]);
            if j - 1 > at {
                assert(text_less(was[at].name, was[j - 1].name));
            }
        } else {
            assert(now[i] == was[i - 1] && now[j] == was[j - 1]);
        }
    }
}

/// The variables offered at an offset.
pub fn offer_variables<'a>(vars: &'a Vec<VarDef>, offset: usize) -> (out: Vec<&'a VarDef>)
    ensures
        offered(var_views(vars@), offset as int, var_ref_views(out@)),
{
    let ghost views = var_views(vars@);
    let mut out: Vec<&'a VarDef> = Vec::new();
    let mut k: usize = 0;
    while k < vars.len()
        invariant
            k <= vars@.len(),
            views == var_views(vars@),
            offered_of(views, k as int, offset as int, var_ref_views(out@)),
        decreases vars@.len() - k,
    {
        let v = &vars[k];
        let ghost was = var_ref_views(out@);
        assert(views[k as int] == v@);
        if (v.scope.start <= offset && offset < v.scope.end) || (v.scope.start == 0 && offset
            <= v.scope.end) {
            let at = offer(&mut out, v);
            proof {
                if named_among(was, v.name@) {
                    lemma_offer_old(views, k as int, offset as int, was);
                } else {
                    lemma_offer_new(views, k as int, offset as int, was, at as int);
                }
            }
        } else {
            proof {
                lemma_offer_old(views, k as int, offset as int, was);
            }
        }
        k = k + 1;
    }
    out
}

// ----------------------------------------------------------------------- laws
pub proof fn lemma_file_at(files: Seq<FileView>, uri: Seq<char>, i: int)
    requires
        0 <= i <= files.len(),
    ensures
        match file_at(files, uri, i) {
            Some(k) => i <= k < files.len() && files[k].uri == uri && forall|j: int|
                i <= j < k ==> (#[trigger] files[j]).uri != uri,
            None => forall|j: int| i <= j < files.len() ==> (#[trigger] files[j]).uri != uri,
        },
    decreases files.len() - i,
{
    if i < files.len() && files[i].uri != uri {
        lemma_file_at(files, uri, i + 1);
    }
}

proof fn lemma_file_at_is(files: Seq<FileView>, uri: Seq<char>, k: int)
    requires
        each_once(files),
        0 <= k < files.len(),
        files[k].uri == uri,
    ensures
        file_at(files, uri, 0) == Some(k),
{
    lemma_file_at(files, uri, 0);
}

/// Indexing a file replaces what was known of it, whatever that was, and leaves the others.
/// One that was not there is one more.
pub proof fn indexing_replaces_one_file(files: Seq<FileView>, uri: Seq<char>, text: Seq<u8>)
    requires
        each_once(files),
    ensures
        each_once(with_file(files, uri, text)),
        text_of(with_file(files, uri, text), uri) == Some(text),
        forall|other: Seq<char>|
            other != uri ==> #[trigger] text_of(with_file(files, uri, text), other) == text_of(
                files,
                other,
            ),
        forall|first: Seq<u8>| #[trigger]
            with_file(with_file(files, uri, first), uri, text) == with_file(files, uri, text),
        with_file(files, uri, text).len() == if text_of(files, uri) is Some {
            files.len()
        } else {
            files.len() + 1
        },
{
    let now = with_file(files, uri, text);
    lemma_file_at(files, uri, 0);
    let at = match file_at(files, uri, 0) {
        Some(i) => i,
        None => files.len() as int,
    };
    assert(now[at].uri == uri);
    lemma_file_at_is(now, uri, at);
    assert forall|first: Seq<u8>| #[trigger]
        with_file(with_file(files, uri, first), uri, text) == now by {
        let between = with_file(files, uri, first);
        assert(between[at].uri == uri);
        lemma_file_at_is(between, uri, at);
        assert(between.update(at, FileView { uri, text }) =~= now);
    }
    assert forall|other: Seq<char>| other != uri implies #[trigger] text_of(now, other) == text_of(
        files,
        other,
    ) by {
        lemma_file_at(files, other, 0);
        match file_at(files, other, 0) {
            Some(k) => {
                assert(now[k] == files[k]);
                lemma_file_at_is(now, other, k);
            },
            None => {
                lemma_file_at(now, other, 0);
                if let Some(k) = file_at(now, other, 0) {
                    if k != at {
                        assert(now[k] == files[k]);
                    }
                }
            },
        }
    }
}

/// Removing a file drops it, and leaves the others. One that was there is one less.
pub proof fn removing_drops_one_file(files: Seq<FileView>, uri: Seq<char>)
    requires
        each_once(files),
    ensures
        each_once(without_file(files, uri)),
        text_of(without_file(files, uri), uri) is None,
        forall|other: Seq<char>|
            other != uri ==> #[trigger] text_of(without_file(files, uri), other) == text_of(
                files,
                other,
            ),
        without_file(files, uri).len() == if text_of(files, uri) is Some {
            files.len() - 1
        } else {
            files.len() as int
        },
{
    let now = without_file(files, uri);
    lemma_file_at(files, uri, 0);
    lemma_file_at(now, uri, 0);
    match file_at(files, uri, 0) {
        None => {},
        Some(at) => {
            assert forall|i: int, j: int| 0 <= i < j < now.len() implies (#[trigger] now[i]).uri
                != (#[trigger] now[j]).uri by {
                let a = if i < at {
                    i
                } else {
                    i + 1
                };
                let z = if j < at {
                    j
                } else {
                    j + 1
                };
                assert(now[i] == files[a] && now[j] == files[z]);
            }
            if let Some(k) = file_at(now, uri, 0) {
                let o = if k < at {
                    k
                } else {
                    k + 1
                };
                assert(now[k] == files[o]);
            }
            assert forall|other: Seq<char>| other != uri implies #[trigger] text_of(now, other)
                == text_of(files, other) by {
                lemma_file_at(files, other, 0);
                match file_at(files, other, 0) {
                    Some(k) => {
                        let n = if k < at {
                            k
                        } else {
                            k - 1
                        };
                        assert(now[n] == files[k]);
                        lemma_file_at_is(now, other, n);
                    },
                    None => {
                        lemma_file_at(now, other, 0);
                        if let Some(k) = file_at(now, other, 0) {
                            let o = if k < at {
                                k
                            } else {
                                k + 1
                            };
                            assert(now[k] == files[o]);
                        }
                    },
                }
            }
        },
    }
}

/// Removing a file that was just indexed for the first time gives back what was there.
pub proof fn removing_undoes_indexing(files: Seq<FileView>, uri: Seq<char>, text: Seq<u8>)
    requires
        text_of(files, uri) is None,
    ensures
        without_file(with_file(files, uri, text), uri) == files,
{
    let now = with_file(files, uri, text);
    let at = files.len() as int;
    lemma_file_at(files, uri, 0);
    lemma_file_at(now, uri, 0);
    if let Some(k) = file_at(now, uri, 0) {
        if k < at {
            assert(now[k] == files[k]);
        }
    } else {
        assert(now[at].uri == uri);
    }
    assert(now.remove(at) =~= files);
}

/// Whether no hit lies in a file.
pub open spec fn no_hit_in(found: Seq<HitView>, uri: Seq<char>) -> bool {
    forall|k: int| 0 <= k < found.len() ==> (#[trigger] found[k]).uri != uri
}

proof fn lemma_hits_in_file(
    uri: Seq<char>,
    defs: Seq<DefView>,
    i: int,
    by: LookFor,
    text: Seq<char>,
    other: Seq<char>,
)
    requires
        uri != other,
    ensures
        no_hit_in(hits_in(uri, defs, i, by, text), other),
    decreases defs.len() - i,
{
    if 0 <= i < defs.len() {
        lemma_hits_in_file(uri, defs, i + 1, by, text, other);
    }
}

proof fn lemma_hits_in_files(
    files: Seq<FileView>,
    i: int,
    by: LookFor,
    text: Seq<char>,
    uri: Seq<char>,
)
    requires
        0 <= i,
        forall|j: int| 0 <= j < files.len() ==> (#[trigger] files[j]).uri != uri,
    ensures
        no_hit_in(hits(files, i, by, text), uri),
    decreases files.len() - i,
{
    if i < files.len() {
        lemma_hits_in_file(files[i].uri, defs_of(files[i].text), 0, by, text, uri);
        lemma_hits_in_files(files, i + 1, by, text, uri);
    }
}

proof fn lemma_uses_in_file(
    uri: Seq<char>,
    refs: Seq<RefView>,
    i: int,
    qname: Seq<char>,
    other: Seq<char>,
)
    requires
        uri != other,
    ensures
        no_use_in(uses_in(uri, refs, i, qname), other),
    decreases refs.len() - i,
{
    if 0 <= i < refs.len() {
        lemma_uses_in_file(uri, refs, i + 1, qname, other);
    }
}

/// Whether no use site lies in a file.
pub open spec fn no_use_in(found: Seq<LocView>, uri: Seq<char>) -> bool {
    forall|k: int| 0 <= k < found.len() ==> (#[trigger] found[k]).uri != uri
}

proof fn lemma_uses_in_files(files: Seq<FileView>, i: int, qname: Seq<char>, uri: Seq<char>)
    requires
        0 <= i,
        forall|j: int| 0 <= j < files.len() ==> (#[trigger] files[j]).uri != uri,
    ensures
        no_use_in(uses(files, i, qname), uri),
    decreases files.len() - i,
{
    if i < files.len() {
        lemma_uses_in_file(files[i].uri, outline_of(files[i].text).refs, 0, qname, uri);
        lemma_uses_in_files(files, i + 1, qname, uri);
    }
}

proof fn lemma_provider_file(files: Seq<FileView>, i: int, name: Seq<char>, uri: Seq<char>)
    requires
        0 <= i,
        forall|j: int| 0 <= j < files.len() ==> (#[trigger] files[j]).uri != uri,
    ensures
        provider(files, i, name) matches Some((u, _)) ==> u != uri,
    decreases files.len() - i,
{
    if i < files.len() {
        lemma_provider_file(files, i + 1, name, uri);
    }
}

/// Nothing is found in a file that is not indexed, such as one that was removed: no
/// definition, by whatever it is looked for, no use site and no package.
pub proof fn nothing_is_found_in_an_unknown_file(
    files: Seq<FileView>,
    uri: Seq<char>,
    name: Seq<char>,
    namespace: Seq<char>,
    by: LookFor,
)
    requires
        text_of(files, uri) is None,
    ensures
        no_hit_in(hits(files, 0, by, name), uri),
        no_hit_in(resolved(files, name, namespace), uri),
        no_use_in(uses(files, 0, name), uri),
        provider(files, 0, name) matches Some((u, _)) ==> u != uri,
{
    let colons = seq![':', ':'];
    lemma_file_at(files, uri, 0);
    lemma_hits_in_files(files, 0, by, name, uri);
    lemma_hits_in_files(files, 0, LookFor::Qname, name, uri);
    lemma_hits_in_files(files, 0, LookFor::Qname, namespace + colons + name, uri);
    lemma_hits_in_files(files, 0, LookFor::Qname, colons + name, uri);
    lemma_hits_in_files(files, 0, LookFor::Name, last_part(name), uri);
    lemma_uses_in_files(files, 0, name, uri);
    lemma_provider_file(files, 0, name, uri);
}

proof fn lemma_hits_match(files: Seq<FileView>, i: int, by: LookFor, text: Seq<char>)
    ensures
        forall|k: int|
            0 <= k < hits(files, i, by, text).len() ==> is_hit(
                (#[trigger] hits(files, i, by, text)[k]).def,
                by,
                text,
            ),
    decreases files.len() - i,
{
    if 0 <= i < files.len() {
        let here = hits_in(files[i].uri, defs_of(files[i].text), 0, by, text);
        lemma_hits_in_match(files[i].uri, defs_of(files[i].text), 0, by, text);
        lemma_hits_match(files, i + 1, by, text);
        let rest = hits(files, i + 1, by, text);
        assert forall|k: int| 0 <= k < (here + rest).len() implies is_hit(
            (#[trigger] (here + rest)[k]).def,
            by,
            text,
        ) by {
            if k < here.len() {
                assert((here + rest)[k] == here[k]);
            } else {
                assert((here + rest)[k] == rest[k - here.len()]);
            }
        }
    }
}

proof fn lemma_hits_in_match(
    uri: Seq<char>,
    defs: Seq<DefView>,
    i: int,
    by: LookFor,
    text: Seq<char>,
)
    ensures
        forall|k: int|
            0 <= k < hits_in(uri, defs, i, by, text).len() ==> is_hit(
                (#[trigger] hits_in(uri, defs, i, by, text)[k]).def,
                by,
                text,
            ),
    decreases defs.len() - i,
{
    if 0 <= i < defs.len() {
        lemma_hits_in_match(uri, defs, i + 1, by, text);
        let rest = hits_in(uri, defs, i + 1, by, text);
        let all = hits_in(uri, defs, i, by, text);
        if is_hit(defs[i], by, text) {
            assert forall|k: int| 0 <= k < all.len() implies is_hit(
                (#[trigger] all[k]).def,
                by,
                text,
            ) by {
                if k > 0 {
                    assert(all[k] == rest[k - 1]);
                }
            }
        }
    }
}

/// An absolute name finds only what has that very name.
pub proof fn absolute_names_match_exactly(
    files: Seq<FileView>,
    name: Seq<char>,
    namespace: Seq<char>,
    k: int,
)
    requires
        matches_at(name, 0, seq![':', ':']),
        0 <= k < resolved(files, name, namespace).len(),
    ensures
        resolved(files, name, namespace)[k].def.qname == name,
{
    lemma_hits_match(files, 0, LookFor::Qname, name);
}

/// A relative name finds what the current namespace has of that name, if it has
/// any; else what the global one has, if it has any; else what has its last part.
pub proof fn relative_names_prefer_the_current_namespace(
    files: Seq<FileView>,
    name: Seq<char>,
    namespace: Seq<char>,
)
    requires
        !matches_at(name, 0, seq![':', ':']),
    ensures
        ({
            let colons = seq![':', ':'];
            let found = resolved(files, name, namespace);
            let whole = colons + name;
            let inner = namespace + colons + name;
            let here = namespace != colons && namespace.len() > 0 && hits(
                files,
                0,
                LookFor::Qname,
                inner,
            ).len() > 0;
            &&& here ==> forall|k: int|
                0 <= k < found.len() ==> (#[trigger] found[k]).def.qname == inner
            &&& !here && hits(files, 0, LookFor::Qname, whole).len() > 0 ==> forall|k: int|
                0 <= k < found.len() ==> (#[trigger] found[k]).def.qname == whole
            &&& !here && hits(files, 0, LookFor::Qname, whole).len() == 0 ==> forall|k: int|
                0 <= k < found.len() ==> (#[trigger] found[k]).def.name == last_part(name)
        }),
{
    let colons = seq![':', ':'];
    lemma_hits_match(files, 0, LookFor::Qname, namespace + colons + name);
    lemma_hits_match(files, 0, LookFor::Qname, colons + name);
    lemma_hits_match(files, 0, LookFor::Name, last_part(name));
}

proof fn lemma_rfind_is_last(s: Seq<char>, n: int, p: Seq<char>, j: int)
    requires
        0 <= j <= n,
        matches_at(s, j, p),
    ensures
        rfind_text(s, n, p) matches Some(i) && j <= i <= n && matches_at(s, i, p),
    decreases n,
{
    if !matches_at(s, n, p) {
        lemma_rfind_is_last(s, n - 1, p, j);
    }
}

/// The last part of a name is not qualified.
proof fn lemma_last_part(name: Seq<char>, j: int)
    ensures
        !matches_at(last_part(name), j, seq![':', ':']),
{
    let c = seq![':', ':'];
    let n = name.len() as int;
    let last = last_part(name);
    if matches_at(last, j, c) {
        match rfind_text(name, n, c) {
            Some(i) => {
                lemma_rfind_bounds(name, n, c);
                assert(name.subrange(i + 2 + j, i + 4 + j) =~= last.subrange(j, j + 2));
                lemma_rfind_is_last(name, n, c, i + 2 + j);
            },
            None => {
                lemma_rfind_is_last(name, n, c, j);
            },
        }
    }
}

proof fn lemma_rfind_bounds(s: Seq<char>, n: int, p: Seq<char>)
    ensures
        rfind_text(s, n, p) matches Some(i) ==> 0 <= i <= n && matches_at(s, i, p),
    decreases n + 1,
{
    if n >= 0 && !matches_at(s, n, p) {
        lemma_rfind_bounds(s, n - 1, p);
    }
}

/// A qualified reference counts only for the very name that it stands for: looking
/// for `::util::greet` does not pull in an unrelated `other::greet`.
pub proof fn qualified_references_are_exact(r: RefView, qname: Seq<char>, j: int)
    requires
        refers(r, qname),
        matches_at(r.name, j, seq![':', ':']),
    ensures
        qualified(r.namespace, r.name) == qname,
{
    lemma_last_part(qname, j);
}

} // verus!

//! What the lookups of the index are for, said of what goes in and what comes out: nothing
//! that a name stands for is left out, and nothing else is found.
use vstd::prelude::*;

use crate::index::{
    all_defs, declared, defs_of, first_hits, flat, hits, hits_in, is_hit, offered, provider,
    refers, resolved, signature_of, uses, uses_in, DefView, FileView, HitView, LocView, LookFor,
};
use crate::outline::{
    container, last_part, qualified, without_root, ProvideView, RefKind, RefView, SymbolView,
    VarView,
};
use crate::text::{find_text, matches_at, rfind_text, text_less};
use crate::walker::outline_of;

verus! {

// ---------------------------------------------------------------------- names
/// Whether two colons stand at `i`.
pub open spec fn colons_at(s: Seq<char>, i: int) -> bool {
    0 <= i && i + 1 < s.len() && s[i] == ':' && s[i + 1] == ':'
}

/// Whether `t` is what follows the last two colons of a name.
pub open spec fn is_tail(name: Seq<char>, t: Seq<char>) -> bool {
    ||| t == name && forall|j: int| !#[trigger] colons_at(name, j)
    ||| exists|i: int| #[trigger] is_tail_at(name, t, i)
}

pub open spec fn is_tail_at(name: Seq<char>, t: Seq<char>, i: int) -> bool {
    &&& colons_at(name, i)
    &&& t == name.subrange(i + 2, name.len() as int)
    &&& forall|j: int| j > i ==> !#[trigger] colons_at(name, j)
}

pub(crate) proof fn lemma_colons(s: Seq<char>, i: int)
    ensures
        matches_at(s, i, seq![':', ':']) == colons_at(s, i),
{
    let c = seq![':', ':'];
    if 0 <= i && i + 1 < s.len() {
        if colons_at(s, i) {
            assert(s.subrange(i, i + 2) =~= c);
        } else if s.subrange(i, i + 2) == c {
            assert(s[i] == s.subrange(i, i + 2)[0]);
            assert(s[i + 1] == s.subrange(i, i + 2)[1]);
        }
    }
}

proof fn lemma_last_colons(s: Seq<char>, n: int)
    ensures
        match rfind_text(s, n, seq![':', ':']) {
            Some(i) => i <= n && colons_at(s, i) && forall|j: int|
                i < j <= n ==> !#[trigger] colons_at(s, j),
            None => forall|j: int| j <= n ==> !#[trigger] colons_at(s, j),
        },
    decreases n + 1,
{
    lemma_colons(s, n);
    if n >= 0 && !colons_at(s, n) {
        lemma_last_colons(s, n - 1);
    }
}

/// The last part of a name is what follows its last two colons, and all of a name without
/// any.
pub proof fn the_last_part_follows_the_last_colons(name: Seq<char>)
    ensures
        is_tail(name, last_part(name)),
        forall|t: Seq<char>| #[trigger] is_tail(name, t) ==> t == last_part(name),
{
    let n = name.len() as int;
    lemma_last_colons(name, n);
    match rfind_text(name, n, seq![':', ':']) {
        Some(i) => {
            assert(is_tail_at(name, last_part(name), i));
            assert forall|t: Seq<char>| #[trigger] is_tail(name, t) implies t == last_part(
                name,
            ) by {
                if t == name && (forall|j: int| !#[trigger] colons_at(name, j)) {
                    assert(colons_at(name, i));
                } else {
                    let k = choose|k: int| #[trigger] is_tail_at(name, t, k);
                    assert(colons_at(name, k) && colons_at(name, i));
                }
            }
        },
        None => {
            assert forall|j: int| !#[trigger] colons_at(name, j) by {}
        },
    }
}

/// A name is qualified by what it is read in: an absolute one stays as it is; another is
/// put behind the namespace and two colons, where the global namespace is just the two
/// colons.
pub proof fn a_name_is_qualified_by_its_namespace(prefix: Seq<char>, name: Seq<char>)
    ensures
        colons_at(name, 0) ==> qualified(prefix, name) == name,
        !colons_at(name, 0) && prefix.len() == 0 ==> qualified(prefix, name) == seq![':', ':']
            + name,
        !colons_at(name, 0) && prefix.len() == 2 && colons_at(prefix, 0) ==> qualified(
            prefix,
            name,
        ) == prefix + name,
        !colons_at(name, 0) && prefix.len() > 0 && !(prefix.len() == 2 && colons_at(prefix, 0))
            ==> qualified(prefix, name) == prefix + seq![':', ':'] + name,
{
    lemma_colons(name, 0);
    if prefix.len() == 2 && colons_at(prefix, 0) {
        assert(prefix =~= seq![':', ':']);
    } else if prefix == seq![':', ':'] {
        assert(colons_at(prefix, 0));
    }
}

/// A definition lands in what stands before the last two colons of its qualified name; the
/// global namespace is the two colons alone.
pub proof fn a_definition_lands_before_its_last_part(prefix: Seq<char>, name: Seq<char>)
    ensures
        ({
            let q = qualified(prefix, name);
            let home = container(prefix, name);
            exists|i: int| #[trigger]
                is_tail_at(q, q.subrange(i + 2, q.len() as int), i) && home == (if i == 0 {
                    seq![':', ':']
                } else {
                    q.subrange(0, i)
                })
        }),
{
    let q = qualified(prefix, name);
    let n = q.len() as int;
    a_name_is_qualified_by_its_namespace(prefix, name);
    lemma_last_colons(q, n);
    if !colons_at(name, 0) {
        assert(colons_at(q, q.len() - name.len() - 2));
    }
    let i = rfind_text(q, n, seq![':', ':'])->0;
    assert(is_tail_at(q, q.subrange(i + 2, n), i));
}

/// The root of a name is all pairs of colons that it begins with.
pub proof fn a_root_is_dropped_whole(name: Seq<char>)
    ensures
        !colons_at(without_root(name), 0),
        !colons_at(name, 0) ==> without_root(name) == name,
        forall|rest: Seq<char>|
            name == seq![':', ':'] + rest ==> without_root(name) == #[trigger] without_root(rest),
    decreases name.len(),
{
    lemma_colons(name, 0);
    if colons_at(name, 0) {
        a_root_is_dropped_whole(name.subrange(2, name.len() as int));
    }
    assert forall|rest: Seq<char>| name == seq![':', ':'] + rest implies without_root(name)
        == #[trigger] without_root(rest) by {
        assert(name[0] == ':' && name[1] == ':');
        assert(name.subrange(2, name.len() as int) =~= rest);
    }
}

// ---------------------------------------------------------------- definitions
/// Whether a symbol is among these, at whatever depth.
pub open spec fn is_among(s: SymbolView, symbols: Seq<SymbolView>) -> bool
    decreases symbols,
{
    exists|i: int|
        0 <= i < symbols.len() && (#[trigger] symbols[i] == s || is_among(s, symbols[i].children))
}

/// What a definition says is what its symbol says.
pub open spec fn same_words(d: DefView, s: SymbolView) -> bool {
    &&& d.kind == s.kind
    &&& d.name == s.name
    &&& d.qname == s.qname
    &&& d.name_range == s.name_range
    &&& d.full_range == s.full_range
    &&& d.detail == s.detail
    &&& d.doc == s.doc
}

proof fn lemma_flat_has(symbols: Seq<SymbolView>, k: int, s: SymbolView)
    requires
        0 <= k <= symbols.len(),
    ensures
        (exists|i: int|
            k <= i < symbols.len() && (#[trigger] symbols[i] == s || is_among(
                s,
                symbols[i].children,
            ))) ==> exists|j: int|
            0 <= j < flat(symbols, k).len() && same_words(#[trigger] flat(symbols, k)[j], s),
    decreases symbols, symbols.len() - k,
{
    if k < symbols.len() {
        let own = seq![crate::index::def_of(symbols[k])];
        let kids = flat(symbols[k].children, 0);
        let rest = flat(symbols, k + 1);
        let all = flat(symbols, k);
        assert(all =~= own + kids + rest);
        lemma_flat_has(symbols[k].children, 0, s);
        lemma_flat_has(symbols, k + 1, s);
        if exists|i: int|
            k <= i < symbols.len() && (#[trigger] symbols[i] == s || is_among(
                s,
                symbols[i].children,
            )) {
            let i = choose|i: int|
                k <= i < symbols.len() && (#[trigger] symbols[i] == s || is_among(
                    s,
                    symbols[i].children,
                ));
            if symbols[k] == s {
                assert(same_words(all[0], s));
            } else if is_among(s, symbols[k].children) {
                let m = choose|m: int|
                    0 <= m < symbols[k].children.len() && (#[trigger] symbols[k].children[m] == s
                        || is_among(s, symbols[k].children[m].children));
                let j = choose|j: int| 0 <= j < kids.len() && same_words(#[trigger] kids[j], s);
                assert(all[1 + j] == kids[j]);
            } else {
                assert(i > k);
                let j = choose|j: int| 0 <= j < rest.len() && same_words(#[trigger] rest[j], s);
                assert(all[1 + kids.len() + j] == rest[j]);
            }
        }
    }
}

proof fn lemma_flat_from(symbols: Seq<SymbolView>, k: int, j: int)
    requires
        0 <= k <= symbols.len(),
        0 <= j < flat(symbols, k).len(),
    ensures
        exists|s: SymbolView| #[trigger] is_among(s, symbols) && same_words(flat(symbols, k)[j], s),
    decreases symbols, symbols.len() - k,
{
    if k < symbols.len() {
        let own = seq![crate::index::def_of(symbols[k])];
        let kids = flat(symbols[k].children, 0);
        let rest = flat(symbols, k + 1);
        let all = flat(symbols, k);
        assert(all =~= own + kids + rest);
        if j == 0 {
            assert(is_among(symbols[k], symbols));
        } else if j < 1 + kids.len() {
            assert(all[j] == kids[j - 1]);
            lemma_flat_from(symbols[k].children, 0, j - 1);
            let s = choose|s: SymbolView| #[trigger]
                is_among(s, symbols[k].children) && same_words(kids[j - 1], s);
            assert(symbols[k] == symbols[k]);
            assert(is_among(s, symbols));
        } else {
            assert(all[j] == rest[j - 1 - kids.len()]);
            lemma_flat_from(symbols, k + 1, j - 1 - kids.len());
        }
    }
}

/// Whether one of the definitions says what a symbol says.
pub open spec fn has_definition(defs: Seq<DefView>, s: SymbolView) -> bool {
    exists|j: int| 0 <= j < defs.len() && same_words(#[trigger] defs[j], s)
}

/// Whether one of the symbols, at whatever depth, says what a definition says.
pub open spec fn has_symbol(symbols: Seq<SymbolView>, d: DefView) -> bool {
    exists|s: SymbolView| #[trigger] is_among(s, symbols) && same_words(d, s)
}

/// The definitions of a file are the symbols of its outline, those inside others too, and
/// nothing else.
pub proof fn every_symbol_is_a_definition(b: Seq<u8>)
    ensures
        forall|s: SymbolView| #[trigger]
            is_among(s, outline_of(b).symbols) ==> has_definition(defs_of(b), s),
        forall|j: int|
            0 <= j < defs_of(b).len() ==> has_symbol(
                outline_of(b).symbols,
                #[trigger] defs_of(b)[j],
            ),
{
    let symbols = outline_of(b).symbols;
    assert forall|s: SymbolView| #[trigger] is_among(s, symbols) implies has_definition(
        defs_of(b),
        s,
    ) by {
        let i = choose|i: int|
            0 <= i < symbols.len() && (#[trigger] symbols[i] == s || is_among(
                s,
                symbols[i].children,
            ));
        assert(0 <= i < symbols.len() && (symbols[i] == s || is_among(s, symbols[i].children)));
        lemma_flat_has(symbols, 0, s);
    }
    assert forall|j: int| 0 <= j < defs_of(b).len() implies has_symbol(
        symbols,
        #[trigger] defs_of(b)[j],
    ) by {
        lemma_flat_from(symbols, 0, j);
    }
}

/// The signature of a definition is its qualified name, with its arguments in braces
/// behind it if it has a list of them.
pub proof fn a_signature_is_a_name_with_its_arguments(d: DefView)
    ensures
        d.detail is None ==> signature_of(d) == d.qname,
        d.detail matches Some(args) ==> signature_of(d) == d.qname + seq![' ', '{'] + args + seq![
            '}',
        ],
{
    reveal_strlit(" {");
    reveal_strlit("}");
    if let Some(args) = d.detail {
        assert(signature_of(d) =~= d.qname + seq![' ', '{'] + args + seq!['}']);
    }
}

// --------------------------------------------------------------------- lookup
/// Whether a file of that URI is indexed that defines this.
pub open spec fn defined(files: Seq<FileView>, h: HitView) -> bool {
    exists|f: int|
        0 <= f < files.len() && (#[trigger] files[f]).uri == h.uri && defs_of(
            files[f].text,
        ).contains(h.def)
}

/// Whether something of that qualified name is defined in some file.
pub open spec fn name_defined(files: Seq<FileView>, qname: Seq<char>) -> bool {
    exists|h: HitView| #[trigger] defined(files, h) && h.def.qname == qname
}

proof fn lemma_hits_in(
    uri: Seq<char>,
    defs: Seq<DefView>,
    k: int,
    by: LookFor,
    text: Seq<char>,
    h: HitView,
)
    requires
        0 <= k <= defs.len(),
    ensures
        hits_in(uri, defs, k, by, text).contains(h) <==> h.uri == uri && is_hit(h.def, by, text)
            && exists|i: int| k <= i < defs.len() && #[trigger] defs[i] == h.def,
    decreases defs.len() - k,
{
    if k < defs.len() {
        lemma_hits_in(uri, defs, k + 1, by, text, h);
        let rest = hits_in(uri, defs, k + 1, by, text);
        let all = hits_in(uri, defs, k, by, text);
        if is_hit(defs[k], by, text) {
            let one = HitView { uri, def: defs[k] };
            assert(all =~= seq![one] + rest);
            if rest.contains(h) {
                let j = choose|j: int| 0 <= j < rest.len() && rest[j] == h;
                assert(all[j + 1] == h);
            }
            if all.contains(h) {
                let j = choose|j: int| 0 <= j < all.len() && all[j] == h;
                if j > 0 {
                    assert(rest[j - 1] == h);
                }
            }
            if h == one {
                assert(all[0] == h);
            }
        }
    }
}

pub(crate) proof fn lemma_hits(
    files: Seq<FileView>,
    k: int,
    by: LookFor,
    text: Seq<char>,
    h: HitView,
)
    requires
        0 <= k <= files.len(),
    ensures
        hits(files, k, by, text).contains(h) <==> is_hit(h.def, by, text) && exists|f: int|
            k <= f < files.len() && (#[trigger] files[f]).uri == h.uri && defs_of(
                files[f].text,
            ).contains(h.def),
    decreases files.len() - k,
{
    if k < files.len() {
        lemma_hits(files, k + 1, by, text, h);
        let defs = defs_of(files[k].text);
        lemma_hits_in(files[k].uri, defs, 0, by, text, h);
        let here = hits_in(files[k].uri, defs, 0, by, text);
        let rest = hits(files, k + 1, by, text);
        let all = hits(files, k, by, text);
        assert(all =~= here + rest);
        if all.contains(h) {
            let j = choose|j: int| 0 <= j < all.len() && all[j] == h;
            if j < here.len() {
                assert(here[j] == h);
                assert(here.contains(h));
            } else {
                assert(rest[j - here.len()] == h);
                assert(rest.contains(h));
            }
        }
        if here.contains(h) {
            let j = choose|j: int| 0 <= j < here.len() && here[j] == h;
            assert(all[j] == h);
        }
        if rest.contains(h) {
            let j = choose|j: int| 0 <= j < rest.len() && rest[j] == h;
            assert(all[here.len() + j] == h);
        }
        if defs.contains(h.def) {
            let i = choose|i: int| 0 <= i < defs.len() && defs[i] == h.def;
            assert(0 <= i < defs.len() && defs[i] == h.def);
        }
    }
}

proof fn lemma_by_qname(files: Seq<FileView>, qname: Seq<char>)
    ensures
        forall|h: HitView| #[trigger]
            hits(files, 0, LookFor::Qname, qname).contains(h) <==> defined(files, h) && h.def.qname
                == qname,
        hits(files, 0, LookFor::Qname, qname).len() > 0 <==> name_defined(files, qname),
{
    let all = hits(files, 0, LookFor::Qname, qname);
    assert forall|h: HitView| #[trigger] all.contains(h) <==> defined(files, h) && h.def.qname
        == qname by {
        lemma_hits(files, 0, LookFor::Qname, qname, h);
    }
    if all.len() > 0 {
        assert(all.contains(all[0]));
        assert(defined(files, all[0]));
    }
    if name_defined(files, qname) {
        let h = choose|h: HitView| #[trigger] defined(files, h) && h.def.qname == qname;
        assert(all.contains(h));
    }
}

/// An absolute name stands for every definition of exactly that name, and for no other.
pub proof fn an_absolute_name_finds_all_of_that_name(
    files: Seq<FileView>,
    name: Seq<char>,
    namespace: Seq<char>,
)
    requires
        colons_at(name, 0),
    ensures
        forall|h: HitView| #[trigger]
            resolved(files, name, namespace).contains(h) <==> defined(files, h) && h.def.qname
                == name,
{
    lemma_colons(name, 0);
    lemma_by_qname(files, name);
}

/// A relative name stands for every definition of that name in the current namespace. If
/// there is none, for every one of that name in the global namespace, whatever the current
/// one is. If there is none either, for every definition with the same last part. It
/// stands for no other.
pub proof fn a_relative_name_finds_all_that_it_stands_for(
    files: Seq<FileView>,
    name: Seq<char>,
    namespace: Seq<char>,
)
    requires
        !colons_at(name, 0),
    ensures
        ({
            let local = namespace + seq![':', ':'] + name;
            let global = seq![':', ':'] + name;
            let inner = namespace.len() > 0 && namespace != seq![':', ':'];
            let found = resolved(files, name, namespace);
            &&& inner && name_defined(files, local) ==> forall|h: HitView| #[trigger]
                found.contains(h) <==> defined(files, h) && h.def.qname == local
            &&& !(inner && name_defined(files, local)) && name_defined(files, global)
                ==> forall|h: HitView| #[trigger]
                found.contains(h) <==> defined(files, h) && h.def.qname == global
            &&& !(inner && name_defined(files, local)) && !name_defined(files, global)
                ==> forall|h: HitView| #[trigger]
                found.contains(h) <==> defined(files, h) && is_tail(name, h.def.name)
        }),
{
    let local = namespace + seq![':', ':'] + name;
    let global = seq![':', ':'] + name;
    lemma_colons(name, 0);
    lemma_by_qname(files, local);
    lemma_by_qname(files, global);
    the_last_part_follows_the_last_colons(name);
    let last = hits(files, 0, LookFor::Name, last_part(name));
    assert forall|h: HitView| #[trigger] last.contains(h) <==> defined(files, h) && is_tail(
        name,
        h.def.name,
    ) by {
        lemma_hits(files, 0, LookFor::Name, last_part(name), h);
    }
}

/// Whether `p` stands somewhere in `s`.
pub open spec fn has_part(s: Seq<char>, p: Seq<char>) -> bool {
    exists|i: int| #[trigger] part_at(s, p, i)
}

pub open spec fn part_at(s: Seq<char>, p: Seq<char>, i: int) -> bool {
    0 <= i && i + p.len() <= s.len() && s.subrange(i, i + p.len()) == p
}

proof fn lemma_find(s: Seq<char>, i: int, p: Seq<char>)
    requires
        0 <= i,
    ensures
        match find_text(s, i, p) {
            Some(k) => k >= i && part_at(s, p, k) && forall|j: int|
                i <= j < k ==> !#[trigger] part_at(s, p, j),
            None => forall|j: int| i <= j ==> !#[trigger] part_at(s, p, j),
        },
    decreases s.len() - i + 1,
{
    if i + p.len() <= s.len() && !matches_at(s, i, p) {
        lemma_find(s, i + 1, p);
    }
}

/// A workspace search finds what has the query in its qualified name, in any case, and
/// everything for an empty query; of more hits than the limit it gives the first ones.
pub proof fn a_search_finds_what_holds_the_query(
    files: Seq<FileView>,
    lower: Seq<char>,
    limit: int,
)
    requires
        limit >= 1,
    ensures
        ({
            let all = hits(files, 0, LookFor::Part, lower);
            let shown = first_hits(all, limit);
            &&& forall|h: HitView| #[trigger]
                all.contains(h) <==> defined(files, h) && (lower.len() == 0 || has_part(
                    crate::index::lowercase(h.def.qname),
                    lower,
                ))
            &&& shown.len() == if all.len() <= limit {
                all.len() as int
            } else {
                limit
            }
            &&& forall|k: int| 0 <= k < shown.len() ==> #[trigger] shown[k] == all[k]
        }),
{
    let all = hits(files, 0, LookFor::Part, lower);
    assert forall|h: HitView| #[trigger] all.contains(h) <==> defined(files, h) && (lower.len()
        == 0 || has_part(crate::index::lowercase(h.def.qname), lower)) by {
        lemma_hits(files, 0, LookFor::Part, lower, h);
        lemma_find(crate::index::lowercase(h.def.qname), 0, lower);
        if has_part(crate::index::lowercase(h.def.qname), lower) {
            let i = choose|i: int| #[trigger]
                part_at(crate::index::lowercase(h.def.qname), lower, i);
            assert(part_at(crate::index::lowercase(h.def.qname), lower, i));
        }
    }
}

// ----------------------------------------------------------------- references
/// Whether a reference is a use of the command `qname`: an absolute name if it is that
/// very name, another if it is so in its namespace, or if it is the last part of `qname`.
pub open spec fn is_use(r: RefView, qname: Seq<char>) -> bool {
    &&& r.kind == RefKind::Command
    &&& colons_at(r.name, 0) ==> r.name == qname
    &&& !colons_at(r.name, 0) ==> {
        ||| is_tail(qname, r.name)
        ||| (r.namespace.len() == 0 || r.namespace == seq![':', ':']) && seq![':', ':'] + r.name
            == qname
        ||| r.namespace.len() > 0 && r.namespace != seq![':', ':'] && r.namespace + seq![':', ':']
            + r.name == qname
    }
}

/// Whether a location is that of a use of `qname` in some file.
pub open spec fn used_at(files: Seq<FileView>, qname: Seq<char>, l: LocView) -> bool {
    exists|f: int, k: int| #[trigger] used_in(files, qname, l, f, k)
}

pub open spec fn used_in(
    files: Seq<FileView>,
    qname: Seq<char>,
    l: LocView,
    f: int,
    k: int,
) -> bool {
    &&& 0 <= f < files.len()
    &&& files[f].uri == l.uri
    &&& 0 <= k < outline_of(files[f].text).refs.len()
    &&& outline_of(files[f].text).refs[k].range == l.range
    &&& is_use(outline_of(files[f].text).refs[k], qname)
}

proof fn lemma_refers(r: RefView, qname: Seq<char>)
    ensures
        refers(r, qname) == is_use(r, qname),
{
    lemma_colons(r.name, 0);
    the_last_part_follows_the_last_colons(qname);
    if r.namespace == seq![':', ':'] {
        assert(colons_at(r.namespace, 0));
    }
    a_name_is_qualified_by_its_namespace(r.namespace, r.name);
}

proof fn lemma_uses_in(
    uri: Seq<char>,
    refs: Seq<RefView>,
    k: int,
    qname: Seq<char>,
    l: LocView,
)
    requires
        0 <= k <= refs.len(),
    ensures
        uses_in(uri, refs, k, qname).contains(l) <==> l.uri == uri && exists|i: int|
            k <= i < refs.len() && (#[trigger] refs[i]).range == l.range && is_use(refs[i], qname),
    decreases refs.len() - k,
{
    if k < refs.len() {
        lemma_uses_in(uri, refs, k + 1, qname, l);
        lemma_refers(refs[k], qname);
        let rest = uses_in(uri, refs, k + 1, qname);
        let all = uses_in(uri, refs, k, qname);
        if is_use(refs[k], qname) {
            let one = LocView { uri, range: refs[k].range };
            assert(all =~= seq![one] + rest);
            if rest.contains(l) {
                let j = choose|j: int| 0 <= j < rest.len() && rest[j] == l;
                assert(all[j + 1] == l);
            }
            if all.contains(l) {
                let j = choose|j: int| 0 <= j < all.len() && all[j] == l;
                if j > 0 {
                    assert(rest[j - 1] == l);
                }
            }
            if l == one {
                assert(all[0] == l);
            }
        }
    }
}

#[verifier::spinoff_prover]
#[verifier::rlimit(40)]
proof fn lemma_uses(files: Seq<FileView>, i: int, qname: Seq<char>, l: LocView)
    requires
        0 <= i <= files.len(),
    ensures
        uses(files, i, qname).contains(l) <==> exists|f: int, k: int|
            f >= i && #[trigger] used_in(files, qname, l, f, k),
    decreases files.len() - i,
{
    if i < files.len() {
        lemma_uses(files, i + 1, qname, l);
        let refs = outline_of(files[i].text).refs;
        lemma_uses_in(files[i].uri, refs, 0, qname, l);
        let here = uses_in(files[i].uri, refs, 0, qname);
        let rest = uses(files, i + 1, qname);
        let all = uses(files, i, qname);
        assert(all =~= here + rest);
        if all.contains(l) {
            let j = choose|j: int| 0 <= j < all.len() && all[j] == l;
            if j < here.len() {
                assert(here[j] == l);
                assert(here.contains(l));
                let k = choose|k: int|
                    0 <= k < refs.len() && (#[trigger] refs[k]).range == l.range && is_use(
                        refs[k],
                        qname,
                    );
                assert(used_in(files, qname, l, i, k));
            } else {
                assert(rest[j - here.len()] == l);
                assert(rest.contains(l));
            }
        }
        if exists|f: int, k: int| f >= i && #[trigger] used_in(files, qname, l, f, k) {
            let (f, k) = choose|f: int, k: int| f >= i && #[trigger] used_in(files, qname, l, f, k);
            if f == i {
                assert(refs[k].range == l.range);
                let j = choose|j: int| 0 <= j < here.len() && here[j] == l;
                assert(all[j] == l);
            } else {
                let j = choose|j: int| 0 <= j < rest.len() && rest[j] == l;
                assert(all[here.len() + j] == l);
            }
        }
    }
}

/// The use sites of a command are all references to it in all files, and no others: those
/// that name it as they stand in their namespace, and the bare ones of its last part.
pub proof fn every_use_is_found(files: Seq<FileView>, qname: Seq<char>)
    ensures
        forall|l: LocView| #[trigger]
            uses(files, 0, qname).contains(l) <==> used_at(files, qname, l),
{
    assert forall|l: LocView| #[trigger] uses(files, 0, qname).contains(l) <==> used_at(
        files,
        qname,
        l,
    ) by {
        lemma_uses(files, 0, qname, l);
        if used_at(files, qname, l) {
            let (f, k) = choose|f: int, k: int| #[trigger] used_in(files, qname, l, f, k);
            assert(f >= 0 && used_in(files, qname, l, f, k));
        }
    }
}

// ----------------------------------------------------------------- completion
/// The variables offered at an offset are among those of the file, in the order of their
/// names, each name once. The offset is never before the scope of one, nor behind it; at
/// the very end of a scope only one that begins with the file is offered. Each name with
/// the offset in the scope of one of its variables is offered, as the first such variable
/// has it.
pub proof fn only_variables_in_scope_are_offered(
    vars: Seq<VarView>,
    offset: int,
    out: Seq<VarView>,
)
    requires
        0 <= offset,
        offered(vars, offset, out),
    ensures
        forall|i: int| 0 <= i < out.len() ==> vars.contains(#[trigger] out[i]),
        forall|i: int|
            0 <= i < out.len() ==> {
                &&& (#[trigger] out[i]).scope.start <= offset
                &&& offset <= out[i].scope.end
                &&& offset < out[i].scope.end || out[i].scope.start == 0
            },
        forall|i: int, j: int|
            0 <= i < j < out.len() ==> text_less((#[trigger] out[i]).name, (#[trigger] out[j]).name),
        forall|k: int|
            0 <= k < vars.len() && ((#[trigger] vars[k]).scope.start <= offset < vars[k].scope.end
                || (vars[k].scope.start == 0 && offset <= vars[k].scope.end)) ==> exists|i: int|
                0 <= i < out.len() && (#[trigger] out[i]).name == vars[k].name,
        forall|i: int, k: int|
            #![trigger out[i], vars[k]]
            0 <= i < out.len() && 0 <= k < vars.len() && vars[k].name == out[i].name
                && vars[k].scope.start <= offset < vars[k].scope.end ==> exists|j: int|
                0 <= j <= k && #[trigger] vars[j] == out[i],
{
    assert forall|i: int| 0 <= i < out.len() implies vars.contains(#[trigger] out[i]) by {
        assert(crate::index::is_first(vars, vars.len() as int, offset, out[i]));
        let k = choose|k: int|
            k < vars.len() && #[trigger] crate::index::first_seen(vars, k, offset) && vars[k]
                == out[i];
        assert(vars[k] == out[i]);
    }
    assert forall|i: int| 0 <= i < out.len() implies {
        &&& (#[trigger] out[i]).scope.start <= offset
        &&& offset <= out[i].scope.end
        &&& offset < out[i].scope.end || out[i].scope.start == 0
    } by {
        assert(crate::index::is_first(vars, vars.len() as int, offset, out[i]));
    }
    assert forall|k: int|
        0 <= k < vars.len() && ((#[trigger] vars[k]).scope.start <= offset < vars[k].scope.end || (
        vars[k].scope.start == 0 && offset <= vars[k].scope.end)) implies exists|i: int|
        0 <= i < out.len() && (#[trigger] out[i]).name == vars[k].name by {
        assert(crate::index::visible(vars[k], offset));
        assert(crate::index::named_among(out, vars[k].name));
    }
    assert forall|i: int, k: int|
        #![trigger out[i], vars[k]]
        0 <= i < out.len() && 0 <= k < vars.len() && vars[k].name == out[i].name
            && vars[k].scope.start <= offset < vars[k].scope.end implies exists|j: int|
        0 <= j <= k && #[trigger] vars[j] == out[i] by {
        assert(crate::index::is_first(vars, vars.len() as int, offset, out[i]));
        let j = choose|j: int|
            j < vars.len() && #[trigger] crate::index::first_seen(vars, j, offset) && vars[j]
                == out[i];
        assert(crate::index::visible(vars[k], offset));
        assert(vars[j] == out[i]);
    }
}

/// The definitions offered for completion are those of all files.
pub proof fn every_definition_is_offered(files: Seq<FileView>, i: int)
    requires
        0 <= i <= files.len(),
    ensures
        forall|f: int, d: DefView|
            i <= f < files.len() && #[trigger] defs_of((#[trigger] files[f]).text).contains(d)
                ==> all_defs(files, i).contains(d),
        forall|d: DefView| #[trigger]
            all_defs(files, i).contains(d) ==> exists|f: int|
                i <= f < files.len() && defs_of((#[trigger] files[f]).text).contains(d),
    decreases files.len() - i,
{
    if i < files.len() {
        every_definition_is_offered(files, i + 1);
        let here = defs_of(files[i].text);
        let rest = all_defs(files, i + 1);
        let all = all_defs(files, i);
        assert forall|f: int, d: DefView|
            i <= f < files.len() && #[trigger] defs_of(
                (#[trigger] files[f]).text,
            ).contains(d) implies all.contains(d) by {
            if f == i {
                let j = choose|j: int| 0 <= j < here.len() && here[j] == d;
                assert(all[j] == d);
            } else {
                let j = choose|j: int| 0 <= j < rest.len() && rest[j] == d;
                assert(all[here.len() + j] == d);
            }
        }
        assert forall|d: DefView| #[trigger] all.contains(d) implies exists|f: int|
            i <= f < files.len() && defs_of((#[trigger] files[f]).text).contains(d) by {
            let j = choose|j: int| 0 <= j < all.len() && all[j] == d;
            if j < here.len() {
                assert(here[j] == d);
                assert(here.contains(d));
                assert(defs_of(files[i].text).contains(d));
            } else {
                assert(rest[j - here.len()] == d);
                assert(rest.contains(d));
            }
        }
    }
}

// ------------------------------------------------------------------- packages
proof fn lemma_declared(provides: Seq<ProvideView>, k: int, name: Seq<char>)
    requires
        0 <= k <= provides.len(),
    ensures
        match declared(provides, k, name) {
            Some(p) => p.name == name && exists|i: int|
                k <= i < provides.len() && #[trigger] provides[i] == p && forall|j: int|
                    k <= j < i ==> (#[trigger] provides[j]).name != name,
            None => forall|j: int| k <= j < provides.len() ==> (#[trigger] provides[j]).name != name,
        },
    decreases provides.len() - k,
{
    if k < provides.len() && provides[k].name != name {
        lemma_declared(provides, k + 1, name);
    } else if k < provides.len() {
        assert(provides[k] == declared(provides, k, name)->0);
    }
}

/// A package is provided by a file that declares it under that name, and by none only if
/// no file does.
pub proof fn a_provider_declares_the_package(files: Seq<FileView>, i: int, name: Seq<char>)
    requires
        0 <= i <= files.len(),
    ensures
        match provider(files, i, name) {
            Some((uri, p)) => p.name == name && exists|f: int|
                i <= f < files.len() && (#[trigger] files[f]).uri == uri && outline_of(
                    files[f].text,
                ).provides.contains(p),
            None => forall|f: int, k: int|
                #![trigger outline_of(files[f].text).provides[k]]
                i <= f < files.len() && 0 <= k < outline_of(files[f].text).provides.len()
                    ==> outline_of(files[f].text).provides[k].name != name,
        },
    decreases files.len() - i,
{
    if i < files.len() {
        let provides = outline_of(files[i].text).provides;
        lemma_declared(provides, 0, name);
        if declared(provides, 0, name) is None {
            a_provider_declares_the_package(files, i + 1, name);
        } else {
            assert(files[i].uri == files[i].uri);
        }
    }
}

} // verus!

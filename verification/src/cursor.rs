//! What stands at the cursor: the word, the namespace, and whether a variable is
//! being typed.
use vstd::prelude::*;
use vstd::string::StringSliceAdditionalSpecFns;
use vstd::utf8::{decode_utf8, encode_utf8_decode_utf8};

use crate::document::{boundary_before, floor_char_boundary};
use crate::grammar::{is_name_byte, COLON};
use crate::outline::{lemma_symbol_children, symbol_views, Symbol, SymbolKind, SymbolView};
use crate::script::utf8_text;
use crate::selection::{holds, touches};
use crate::text::{chars_of, text_option};

verus! {

/// A byte of a Tcl identifier, `::` separators included.
pub open spec fn is_word_byte(c: u8) -> bool {
    is_name_byte(c) || c == COLON
}

/// The start of the identifier that ends at `i`.
pub open spec fn word_start(b: Seq<u8>, i: int) -> int
    decreases i,
{
    if 0 < i <= b.len() && is_word_byte(b[i - 1]) {
        word_start(b, i - 1)
    } else {
        i
    }
}

/// The end of the identifier that begins at `i`.
pub open spec fn word_end(b: Seq<u8>, i: int) -> int
    decreases b.len() - i,
{
    if 0 <= i < b.len() && is_word_byte(b[i]) {
        word_end(b, i + 1)
    } else {
        i
    }
}

pub open spec fn min_len(b: Seq<u8>, offset: int) -> int {
    if offset < b.len() {
        offset
    } else {
        b.len() as int
    }
}

/// Whether there is anything but colons in `lo..hi`.
pub open spec fn names_something(b: Seq<u8>, lo: int, hi: int) -> bool {
    exists|k: int| lo <= k < hi && #[trigger] b[k] != COLON
}

/// The identifier around an offset. Colons alone are none.
pub open spec fn word_around(b: Seq<u8>, offset: int) -> Option<Seq<char>> {
    let at = min_len(b, offset);
    let lo = word_start(b, at);
    let hi = word_end(b, at);
    if lo < hi && names_something(b, lo, hi) {
        utf8_text(b.subrange(lo, hi))
    } else {
        None
    }
}

fn word_byte(c: u8) -> (r: bool)
    ensures
        r == is_word_byte(c),
{
    (48 <= c && c <= 57) || (65 <= c && c <= 90) || (97 <= c && c <= 122) || c == 95 || c == COLON
}

/// The Tcl identifier surrounding a byte offset, including `::` separators.
pub fn word_at(text: &str, offset: usize) -> (r: Option<String>)
    ensures
        text_option(r) == word_around(text.spec_bytes(), offset as int),
{
    let b = text.as_bytes();
    let at: usize = if offset < b.len() {
        offset
    } else {
        b.len()
    };
    let mut start: usize = at;
    while start > 0 && word_byte(b[start - 1])
        invariant
            start <= at <= b@.len(),
            word_start(b@, at as int) == word_start(b@, start as int),
        decreases start,
    {
        start = start - 1;
    }
    let mut end: usize = at;
    while end < b.len() && word_byte(b[end])
        invariant
            at <= end <= b@.len(),
            word_end(b@, at as int) == word_end(b@, end as int),
        decreases b@.len() - end,
    {
        end = end + 1;
    }
    if start >= end {
        return None;
    }
    let mut k: usize = start;
    while k < end && b[k] == COLON
        invariant
            start <= k <= end <= b@.len(),
            forall|m: int| start <= m < k ==> b@[m] == COLON,
        decreases end - k,
    {
        k = k + 1;
    }
    if k == end {
        return None;
    }
    assert(names_something(b@, start as int, end as int)) by {
        assert(b@[k as int] != COLON);
    }
    match core::str::from_utf8(vstd::slice::slice_subrange(b, start, end)) {
        Ok(s) => {
            proof {
                encode_utf8_decode_utf8(s@);
            }
            Some(s.to_owned())
        },
        Err(_) => None,
    }
}

// ------------------------------------------------------------------ namespace
/// Whether a symbol is a namespace or class with the offset in its body. The end of the
/// body, before its closing delimiter, is in it.
pub open spec fn is_scope(s: SymbolView, offset: int) -> bool {
    &&& s.kind is Namespace || s.kind is Class
    &&& s.body matches Some(r) && touches(r, offset)
}

/// The namespace at an offset, from the symbols from `k` on: the last namespace or class
/// in the order of the text that has it in its body, or else the given one.
pub open spec fn namespace_from(
    symbols: Seq<SymbolView>,
    k: int,
    offset: int,
    best: Seq<char>,
) -> Seq<char>
    decreases symbols, symbols.len() - k,
{
    if k < 0 || k >= symbols.len() {
        best
    } else if !holds(symbols[k].full_range, offset) {
        namespace_from(symbols, k + 1, offset, best)
    } else {
        let here = if is_scope(symbols[k], offset) {
            symbols[k].qname
        } else {
            best
        };
        namespace_from(
            symbols,
            k + 1,
            offset,
            namespace_from(symbols[k].children, 0, offset, here),
        )
    }
}

/// The innermost namespace or class whose body contains the offset.
pub open spec fn namespace_of(symbols: Seq<SymbolView>, offset: int) -> Seq<char> {
    namespace_from(symbols, 0, offset, seq![':', ':'])
}

fn opens_scope(s: &Symbol, offset: usize) -> (r: bool)
    ensures
        r == is_scope(s@, offset as int),
{
    match (s.kind, &s.body) {
        (SymbolKind::Namespace | SymbolKind::Class, Some(body)) => body.start <= offset && offset
            <= body.end,
        _ => false,
    }
}

fn namespace_in(symbols: &Vec<Symbol>, offset: usize, best: String) -> (r: String)
    ensures
        r@ == namespace_from(symbol_views(symbols@), 0, offset as int, best@),
    decreases symbols,
{
    let ghost views = symbol_views(symbols@);
    let ghost whole = namespace_from(views, 0, offset as int, best@);
    let mut best = best;
    let mut k: usize = 0;
    while k < symbols.len()
        invariant
            k <= symbols@.len(),
            views == symbol_views(symbols@),
            whole == namespace_from(views, k as int, offset as int, best@),
        decreases symbols@.len() - k,
    {
        let s = &symbols[k];
        assert(views[k as int] == s@);
        if s.full_range.start <= offset && offset < s.full_range.end {
            let here = if opens_scope(s, offset) {
                s.qname.clone()
            } else {
                best
            };
            proof {
                lemma_symbol_children(*s);
            }
            best = namespace_in(&s.children, offset, here);
        }
        k = k + 1;
    }
    best
}

/// The innermost namespace or class whose body contains `offset`.
pub fn namespace_at(symbols: &Vec<Symbol>, offset: usize) -> (r: String)
    ensures
        r@ == namespace_of(symbol_views(symbols@), offset as int),
{
    let mut root = String::new();
    root.push(':');
    root.push(':');
    assert(root@ =~= seq![':', ':']);
    namespace_in(symbols, offset, root)
}

// ------------------------------------------------------------------- variable
/// Whether a character is a letter or a digit of some script.
pub uninterp spec fn alphanumeric(c: char) -> bool;

/// `char::is_alphanumeric` of std, which depends on the character alone. Which
/// characters those are, the Unicode tables say.
#[verifier::external_body]
fn is_alphanumeric(c: char) -> (r: bool)
    ensures
        r == alphanumeric(c),
{
    c.is_alphanumeric()
}

/// A character that can stand in a variable name.
pub open spec fn is_variable_char(c: char) -> bool {
    alphanumeric(c) || c == '_' || c == ':'
}

/// Whether the last character before `n` that stands in no variable name is a `$`.
pub open spec fn after_dollar(s: Seq<char>, n: int) -> bool
    decreases n,
{
    if n <= 0 || n > s.len() {
        false
    } else if is_variable_char(s[n - 1]) {
        after_dollar(s, n - 1)
    } else {
        s[n - 1] == '$'
    }
}

/// The text before an offset; one inside a character counts as the character's
/// start.
pub open spec fn text_before(b: Seq<u8>, offset: int) -> Seq<char> {
    decode_utf8(b.subrange(0, boundary_before(b, min_len(b, offset))))
}

/// True when the cursor sits inside a `$`-introduced variable reference.
pub fn wants_variable(text: &str, offset: usize) -> (r: bool)
    ensures
        r == after_dollar(
            text_before(text.spec_bytes(), offset as int),
            text_before(text.spec_bytes(), offset as int).len() as int,
        ),
{
    let len = text.as_bytes().len();
    let at: usize = if offset < len {
        offset
    } else {
        len
    };
    let end = floor_char_boundary(text, at);
    let (head, _) = text.split_at(end);
    proof {
        encode_utf8_decode_utf8(head@);
    }
    let s = chars_of(head);
    let mut n: usize = s.len();
    while n > 0
        invariant
            n <= s@.len(),
            s@ == text_before(text.spec_bytes(), offset as int),
            after_dollar(s@, s@.len() as int) == after_dollar(s@, n as int),
        decreases n,
    {
        let c = s[n - 1];
        if !(is_alphanumeric(c) || c == '_' || c == ':') {
            return c == '$';
        }
        n = n - 1;
    }
    false
}

// ----------------------------------------------------------------------- laws
/// An identifier is found from anywhere in it: every offset from its start to its
/// end gives the same word.
pub proof fn words_are_found_from_anywhere_inside(b: Seq<u8>, i: int, j: int)
    requires
        0 <= i <= j <= b.len(),
        forall|k: int| i <= k < j ==> is_word_byte(#[trigger] b[k]),
    ensures
        word_around(b, i) == word_around(b, j),
{
    lemma_same_start(b, i, j);
    lemma_same_end(b, i, j);
}

proof fn lemma_same_start(b: Seq<u8>, i: int, j: int)
    requires
        0 <= i <= j <= b.len(),
        forall|k: int| i <= k < j ==> is_word_byte(#[trigger] b[k]),
    ensures
        word_start(b, i) == word_start(b, j),
    decreases j - i,
{
    if i < j {
        assert(is_word_byte(b[j - 1]));
        lemma_same_start(b, i, j - 1);
    }
}

proof fn lemma_same_end(b: Seq<u8>, i: int, j: int)
    requires
        0 <= i <= j <= b.len(),
        forall|k: int| i <= k < j ==> is_word_byte(#[trigger] b[k]),
    ensures
        word_end(b, i) == word_end(b, j),
    decreases j - i,
{
    if i < j {
        assert(is_word_byte(b[i]));
        lemma_same_end(b, i + 1, j);
    }
}

} // verus!

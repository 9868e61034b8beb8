//! What words say, and what stands at the cursor, said of the bytes that are there.
use core::ops::Range;
use vstd::prelude::*;
use vstd::utf8::{decode_utf8, decode_utf8_first_scalar, is_char_boundary, valid_utf8};

use crate::cursor::{
    after_dollar, alphanumeric, namespace_from, namespace_of, word_around, word_end, word_start,
};
use crate::outline::{SymbolKind, SymbolView};
use crate::script::commands_within;
use crate::selection::{
    around, innermost, interior_of, touched, word_index_at, word_touched, words_passed,
};
use crate::spelling::in_name;
use crate::token::{words_from, words_of, CommandView, Token};
use crate::words::{body_of, is_braced, joined_text, literal_of, span_of, token_text};

verus! {

// ---------------------------------------------------------------------- words
/// Each word of a command is a head token and as many tokens behind it as the head counts;
/// the next word begins right behind them.
pub proof fn a_word_has_the_components_that_it_counts(tokens: Seq<Token>, i: int)
    requires
        0 <= i,
        i + tokens[i].num_components < tokens.len(),
    ensures
        words_from(tokens, i) == seq![
            tokens.subrange(i, i + 1 + tokens[i].num_components),
        ] + words_from(tokens, i + 1 + tokens[i].num_components),
        words_of(tokens) == words_from(tokens, 0),
        words_from(tokens, tokens.len() as int).len() == 0,
{
}

/// The text of a token is what its bytes spell.
pub proof fn a_token_says_what_its_bytes_spell(b: Seq<u8>, t: Token)
    requires
        t.start + t.size <= b.len(),
    ensures
        valid_utf8(b.subrange(t.start as int, t.start + t.size)) ==> token_text(b, t) == Some(
            decode_utf8(b.subrange(t.start as int, t.start + t.size)),
        ),
        !valid_utf8(b.subrange(t.start as int, t.start + t.size)) ==> token_text(b, t) is None,
{
}

/// A word is a literal where nothing in it is substituted: a simple one is its text, and of
/// a compound one the texts and escapes, one after another. One with a variable or a
/// command in it is none, nor is one to be expanded.
pub proof fn a_literal_has_nothing_to_substitute(b: Seq<u8>, word: Seq<Token>)
    requires
        word.len() > 1,
    ensures
        word[0].kind is SimpleWord ==> literal_of(b, word) == token_text(b, word[1]),
        word[0].kind is ExpandWord ==> literal_of(b, word) is None,
        word[0].kind is Word && (exists|k: int|
            1 <= k < word.len() && (#[trigger] word[k].kind is Variable || word[k].kind is Command))
            ==> literal_of(b, word) is None,
        word[0].kind is Word && (forall|k: int|
            1 <= k < word.len() ==> (#[trigger] word[k].kind is Text || word[k].kind is Backslash)
                && token_text(b, word[k]) is Some) ==> literal_of(b, word) is Some,
{
    if word[0].kind is Word {
        if exists|k: int|
            1 <= k < word.len() && (#[trigger] word[k].kind is Variable || word[k].kind is Command) {
            let k = choose|k: int|
                1 <= k < word.len() && (#[trigger] word[k].kind is Variable
                    || word[k].kind is Command);
            lemma_not_joined(b, word, 1, k);
        }
        if forall|k: int|
            1 <= k < word.len() ==> (#[trigger] word[k].kind is Text || word[k].kind is Backslash)
                && token_text(b, word[k]) is Some {
            lemma_joined_text(b, word, 1);
        }
    }
}

proof fn lemma_not_joined(b: Seq<u8>, word: Seq<Token>, i: int, k: int)
    requires
        0 <= i <= k < word.len(),
        word[k].kind is Variable || word[k].kind is Command,
    ensures
        joined_text(b, word, i) is None,
    decreases k - i,
{
    if i < k {
        lemma_not_joined(b, word, i + 1, k);
    }
}

proof fn lemma_joined_text(b: Seq<u8>, word: Seq<Token>, i: int)
    requires
        1 <= i,
        forall|k: int|
            1 <= k < word.len() ==> (#[trigger] word[k].kind is Text || word[k].kind is Backslash)
                && token_text(b, word[k]) is Some,
    ensures
        joined_text(b, word, i) is Some,
    decreases word.len() - i,
{
    if i < word.len() {
        assert(word[i].kind is Text || word[i].kind is Backslash);
        lemma_joined_text(b, word, i + 1);
    }
}

/// The literal of a compound word is that of its first component and then of the rest.
pub proof fn a_compound_literal_is_joined(b: Seq<u8>, word: Seq<Token>, i: int)
    requires
        0 <= i < word.len(),
        joined_text(b, word, i) is Some,
    ensures
        token_text(b, word[i]) is Some,
        joined_text(b, word, i + 1) is Some,
        joined_text(b, word, i)->0 == token_text(b, word[i])->0 + joined_text(b, word, i + 1)->0,
        joined_text(b, word, word.len() as int) == Some(Seq::<char>::empty()),
{
}

/// The contents of a word in braces or quotes are what is between; of another word, all of
/// it. A word to be expanded has none.
pub proof fn the_contents_of_a_word_are_inside_its_delimiters(b: Seq<u8>, word: Seq<Token>)
    requires
        word.len() > 0,
        word[0].start + word[0].size <= b.len(),
        b.len() <= usize::MAX,
    ensures
        word[0].kind is ExpandWord ==> body_of(b, word) is None,
        (word[0].kind is Word || word[0].kind is SimpleWord) ==> body_of(b, word) is Some,
        (word[0].kind is Word || word[0].kind is SimpleWord) && word[0].size >= 2 && (
        b[word[0].start as int] == 123 || b[word[0].start as int] == 34) ==> body_of(b, word)->0.start
            == word[0].start + 1 && body_of(b, word)->0.end == word[0].start + word[0].size - 1,
        (word[0].kind is Word || word[0].kind is SimpleWord) && word[0].size > 0 && !(
        b[word[0].start as int] == 123 || b[word[0].start as int] == 34) ==> body_of(b, word)->0.start
            == word[0].start && body_of(b, word)->0.end == word[0].start + word[0].size,
        span_of(word) is Some,
        span_of(word)->0.start == word[0].start,
        span_of(word)->0.end == word[0].start + word[0].size,
{
}

proof fn lemma_first_char(t: Seq<u8>)
    requires
        valid_utf8(t),
        t.len() > 0,
    ensures
        decode_utf8(t).len() > 0,
        decode_utf8(t)[0] == '{' <==> t[0] == 123,
        decode_utf8(t)[0] == '"' <==> t[0] == 34,
        decode_utf8(t)[0] == '[' <==> t[0] == 91,
{
    lemma_ascii_scalar(t);
    let u = vstd::utf8::decode_first_scalar(t);
    let c = u as char;
    assert(decode_utf8(t)[0] == c);
    decode_utf8_first_scalar(t);
    let taken = vstd::utf8::take_first_scalar(t);
    assert(taken[0] == t[0]);
    assert((123u32 & 0x7F) == 123 && (34u32 & 0x7F) == 34 && (91u32 & 0x7F) == 91) by (bit_vector);
    assert('{' as u32 == 123 && '"' as u32 == 34 && '[' as u32 == 91);
    assert(vstd::utf8::encode_scalar(123)[0] == 123);
    assert(vstd::utf8::encode_scalar(34)[0] == 34);
    assert(vstd::utf8::encode_scalar(91)[0] == 91);
}

/// The first character of a text is the ASCII character that its first byte is, if either
/// is one.
proof fn lemma_ascii_scalar(t: Seq<u8>)
    requires
        valid_utf8(t),
        t.len() > 0,
    ensures
        t[0] < 128 ==> vstd::utf8::decode_first_scalar(t) == t[0] as u32,
        t[0] >= 128 ==> vstd::utf8::decode_first_scalar(t) >= 128,
{
    assert(vstd::utf8::valid_first_scalar(t));
    let x = t[0];
    if x < 128 {
        assert((x & 0x7F) as u32 == x as u32) by (bit_vector)
            requires
                x < 128,
        ;
        assert(x as u32 & 0x7F == x as u32) by (bit_vector)
            requires
                x < 128,
        ;
    }
}

/// A word is written in braces where its first byte is one.
pub proof fn a_braced_word_begins_with_a_brace(b: Seq<u8>, word: Seq<Token>)
    requires
        word.len() > 0,
        word[0].size > 0,
        word[0].start + word[0].size <= b.len(),
        valid_utf8(b.subrange(word[0].start as int, word[0].start + word[0].size)),
    ensures
        is_braced(b, word) <==> b[word[0].start as int] == 123,
{
    let t = b.subrange(word[0].start as int, word[0].start + word[0].size);
    a_token_says_what_its_bytes_spell(b, word[0]);
    lemma_first_char(t);
    assert(t[0] == b[word[0].start as int]);
}

/// What is inside a word can be selected by itself where the word is in braces or quotes
/// and not empty: all between its delimiters.
pub proof fn the_inside_of_a_word_is_between_its_delimiters(b: Seq<u8>, word: Seq<Token>)
    requires
        word.len() > 0,
        word[0].kind is Word || word[0].kind is SimpleWord,
        word[0].size > 0,
        word[0].start + word[0].size <= b.len(),
        b.len() <= usize::MAX,
        valid_utf8(b.subrange(word[0].start as int, word[0].start + word[0].size)),
    ensures
        word[0].size > 2 && (b[word[0].start as int] == 123 || b[word[0].start as int] == 34)
            ==> interior_of(b, word) == Some(
            Range {
                start: (word[0].start + 1) as usize,
                end: (word[0].start + word[0].size - 1) as usize,
            },
        ),
        word[0].size <= 2 || (b[word[0].start as int] != 123 && b[word[0].start as int] != 34
            && b[word[0].start as int] != 91) ==> interior_of(b, word) is None,
{
    let t = b.subrange(word[0].start as int, word[0].start + word[0].size);
    a_token_says_what_its_bytes_spell(b, word[0]);
    lemma_first_char(t);
    assert(t[0] == b[word[0].start as int]);
}

// --------------------------------------------------------------------- cursor
/// A byte of an identifier: an ASCII letter or digit, an underscore or a colon.
pub open spec fn in_identifier(c: u8) -> bool {
    in_name(c) || c == 58
}

proof fn lemma_word_bounds(b: Seq<u8>, lo: int, at: int, hi: int)
    requires
        0 <= lo <= at <= hi <= b.len(),
        forall|k: int| lo <= k < hi ==> in_identifier(#[trigger] b[k]),
        lo > 0 ==> !in_identifier(b[lo - 1]),
        hi < b.len() ==> !in_identifier(b[hi]),
    ensures
        word_start(b, at) == lo,
        word_end(b, at) == hi,
    decreases (at - lo) + (hi - at),
{
    if lo < at {
        assert(in_identifier(b[at - 1]));
        lemma_start(b, lo, at);
    }
    lemma_end(b, at, hi);
}

proof fn lemma_start(b: Seq<u8>, lo: int, at: int)
    requires
        0 <= lo <= at <= b.len(),
        forall|k: int| lo <= k < at ==> in_identifier(#[trigger] b[k]),
        lo > 0 ==> !in_identifier(b[lo - 1]),
    ensures
        word_start(b, at) == lo,
    decreases at - lo,
{
    if lo < at {
        assert(in_identifier(b[at - 1]));
        lemma_start(b, lo, at - 1);
    }
}

proof fn lemma_end(b: Seq<u8>, at: int, hi: int)
    requires
        0 <= at <= hi <= b.len(),
        forall|k: int| at <= k < hi ==> in_identifier(#[trigger] b[k]),
        hi < b.len() ==> !in_identifier(b[hi]),
    ensures
        word_end(b, at) == hi,
    decreases hi - at,
{
    if at < hi {
        assert(in_identifier(b[at]));
        lemma_end(b, at + 1, hi);
    }
}

/// The word at the cursor is the whole run of letters, digits, underscores and colons that
/// it is in or next to. Without such a run, or with nothing but colons in it, there is none.
pub proof fn the_word_at_the_cursor_is_the_whole_run(b: Seq<u8>, lo: int, at: int, hi: int)
    requires
        0 <= lo <= at <= hi <= b.len(),
        forall|k: int| lo <= k < hi ==> in_identifier(#[trigger] b[k]),
        lo > 0 ==> !in_identifier(b[lo - 1]),
        hi < b.len() ==> !in_identifier(b[hi]),
    ensures
        lo < hi && (exists|k: int| lo <= k < hi && #[trigger] b[k] != 58) && valid_utf8(
            b.subrange(lo, hi),
        ) ==> word_around(b, at) == Some(decode_utf8(b.subrange(lo, hi))),
        lo == hi ==> word_around(b, at) is None,
        (forall|k: int| lo <= k < hi ==> #[trigger] b[k] == 58) ==> word_around(b, at) is None,
{
    lemma_word_bounds(b, lo, at, hi);
}

/// A variable is being typed where a `$` stands before the cursor with nothing between but
/// letters, digits, underscores and colons.
pub proof fn a_variable_is_typed_behind_a_dollar(s: Seq<char>, n: int)
    requires
        0 <= n <= s.len(),
        !alphanumeric('$'),
    ensures
        after_dollar(s, n) <==> exists|p: int| #[trigger] is_dollar_before(s, p, n),
    decreases n,
{
    if n > 0 {
        a_variable_is_typed_behind_a_dollar(s, n - 1);
        let c = s[n - 1];
        if alphanumeric(c) || c == '_' || c == ':' {
            if after_dollar(s, n - 1) {
                let p = choose|p: int| #[trigger] is_dollar_before(s, p, n - 1);
                assert(is_dollar_before(s, p, n));
            }
            if exists|p: int| #[trigger] is_dollar_before(s, p, n) {
                let p = choose|p: int| #[trigger] is_dollar_before(s, p, n);
                assert(p < n - 1);
                assert(is_dollar_before(s, p, n - 1));
            }
        } else if c == '$' {
            assert(is_dollar_before(s, n - 1, n));
        } else if exists|p: int| #[trigger] is_dollar_before(s, p, n) {
            let p = choose|p: int| #[trigger] is_dollar_before(s, p, n);
            assert(p < n - 1);
            assert(is_in_name(s[n - 1]));
        }
    }
}

/// Whether a character can stand in a variable name.
pub open spec fn is_in_name(c: char) -> bool {
    alphanumeric(c) || c == '_' || c == ':'
}

/// Whether a `$` stands at `p`, with nothing but characters of a name from there to `n`.
pub open spec fn is_dollar_before(s: Seq<char>, p: int, n: int) -> bool {
    &&& 0 <= p < n
    &&& s[p] == '$'
    &&& forall|k: int| p < k < n ==> is_in_name(#[trigger] s[k])
}

proof fn lemma_touched(words: Seq<Seq<Token>>, i: int, k: int, offset: int)
    requires
        0 <= i <= k < words.len(),
        forall|m: int|
            i <= m < k ==> !((#[trigger] words[m]).len() > 0 && words[m][0].start <= offset
                <= words[m][0].span().end),
        words[k].len() > 0,
        words[k][0].start <= offset <= words[k][0].span().end,
    ensures
        word_touched(words, i, offset) == Some(k),
    decreases k - i,
{
    if i < k {
        assert(!(words[i].len() > 0 && words[i][0].start <= offset <= words[i][0].span().end));
        lemma_touched(words, i + 1, k, offset);
    }
}

proof fn lemma_none_passed(words: Seq<Seq<Token>>, i: int, offset: int)
    requires
        0 <= i <= words.len(),
        forall|m: int|
            i <= m < words.len() ==> (#[trigger] words[m]).len() > 0 && words[m][0].start
                <= words[m][0].span().end,
        forall|m: int| i <= m < words.len() ==> (#[trigger] words[m])[0].start > offset,
    ensures
        word_touched(words, i, offset) is None,
        words_passed(words, i, offset) == 0,
    decreases words.len() - i,
{
    if i < words.len() {
        assert(words[i].len() > 0 && words[i][0].start > offset);
        lemma_none_passed(words, i + 1, offset);
    }
}

/// The cursor is at the first word that it is in or right behind.
pub proof fn the_cursor_is_at_the_word_that_it_touches(
    words: Seq<Seq<Token>>,
    k: int,
    offset: int,
)
    requires
        0 <= k < words.len(),
        words[k].len() > 0,
        words[k][0].start <= offset <= words[k][0].span().end,
        forall|m: int|
            0 <= m < k ==> !((#[trigger] words[m]).len() > 0 && words[m][0].start <= offset
                <= words[m][0].span().end),
    ensures
        word_index_at(words, offset) == k,
{
    lemma_touched(words, 0, k, offset);
}

/// In the white space between words the cursor is at the word that is about to be typed:
/// the one whose number is that of the words before the cursor.
pub proof fn between_words_the_cursor_is_at_the_next(
    words: Seq<Seq<Token>>,
    k: int,
    offset: int,
)
    requires
        0 <= k <= words.len(),
        forall|m: int|
            0 <= m < words.len() ==> (#[trigger] words[m]).len() > 0 && words[m][0].start
                <= words[m][0].span().end,
        forall|m: int| 0 <= m < k ==> (#[trigger] words[m])[0].span().end < offset,
        forall|m: int| k <= m < words.len() ==> (#[trigger] words[m])[0].start > offset,
    ensures
        word_index_at(words, offset) == k,
{
    lemma_before(words, 0, k, offset);
}

proof fn lemma_before(words: Seq<Seq<Token>>, i: int, k: int, offset: int)
    requires
        0 <= i <= k <= words.len(),
        forall|m: int|
            i <= m < words.len() ==> (#[trigger] words[m]).len() > 0 && words[m][0].start
                <= words[m][0].span().end,
        forall|m: int| i <= m < k ==> (#[trigger] words[m])[0].span().end < offset,
        forall|m: int| k <= m < words.len() ==> (#[trigger] words[m])[0].start > offset,
    ensures
        word_touched(words, i, offset) is None,
        words_passed(words, i, offset) == k - i,
    decreases k - i,
{
    if i < k {
        assert(words[i].len() > 0 && words[i][0].span().end < offset);
        lemma_before(words, i + 1, k, offset);
    } else {
        lemma_none_passed(words, i, offset);
    }
}

// ------------------------------------------------------------------ namespace
/// Outside all definitions the namespace is the global one, or the one around.
pub proof fn outside_every_definition_the_namespace_stays(
    symbols: Seq<SymbolView>,
    k: int,
    offset: int,
    best: Seq<char>,
)
    requires
        0 <= k <= symbols.len(),
        forall|m: int|
            k <= m < symbols.len() ==> !((#[trigger] symbols[m]).full_range.start <= offset
                < symbols[m].full_range.end),
    ensures
        namespace_from(symbols, k, offset, best) == best,
        k == 0 && best == seq![':', ':'] ==> namespace_of(symbols, offset) == seq![':', ':'],
    decreases symbols.len() - k,
{
    if k < symbols.len() {
        assert(!(symbols[k].full_range.start <= offset < symbols[k].full_range.end));
        outside_every_definition_the_namespace_stays(symbols, k + 1, offset, best);
    }
}

/// In the body of a namespace or class the namespace is that one, or one inside it; in any
/// other definition, and in a namespace or class outside its body, it is the one around.
pub proof fn in_the_body_of_a_namespace_it_is_that_one(
    symbols: Seq<SymbolView>,
    k: int,
    m: int,
    offset: int,
    best: Seq<char>,
)
    requires
        0 <= k <= m < symbols.len(),
        symbols[m].full_range.start <= offset < symbols[m].full_range.end,
        forall|j: int|
            k <= j < symbols.len() && j != m ==> !((#[trigger] symbols[j]).full_range.start <= offset
                < symbols[j].full_range.end),
    ensures
        ({
            let s = symbols[m];
            let in_body = s.body matches Some(r) && r.start <= offset <= r.end;
            let scoped = (s.kind == SymbolKind::Namespace || s.kind == SymbolKind::Class)
                && in_body;
            &&& scoped ==> namespace_from(symbols, k, offset, best) == namespace_from(
                s.children,
                0,
                offset,
                s.qname,
            )
            &&& !scoped ==> namespace_from(symbols, k, offset, best) == namespace_from(
                s.children,
                0,
                offset,
                best,
            )
        }),
    decreases m - k,
{
    if k < m {
        assert(!(symbols[k].full_range.start <= offset < symbols[k].full_range.end));
        in_the_body_of_a_namespace_it_is_that_one(symbols, k + 1, m, offset, best);
    } else {
        let s = symbols[m];
        let in_body = s.body matches Some(r) && r.start <= offset <= r.end;
        let here = if (s.kind == SymbolKind::Namespace || s.kind == SymbolKind::Class) && in_body {
            s.qname
        } else {
            best
        };
        outside_every_definition_the_namespace_stays(
            symbols,
            m + 1,
            offset,
            namespace_from(s.children, 0, offset, here),
        );
    }
}

// ------------------------------------------------------------------ selection
/// Around an offset are, from the outside in: the command that it belongs to, the word of it
/// that holds the offset, what is inside that word's delimiters, and what is around the
/// offset there.
pub proof fn a_selection_grows_by_word_and_command(
    b: Seq<u8>,
    search: Range<usize>,
    offset: int,
    depth: nat,
    c: CommandView,
    r: Range<usize>,
)
    requires
        depth > 0,
        touched(commands_within(b, search.start as int, search.end as int), offset) == Some(c),
    ensures
        ({
            let words = words_of(c.tokens);
            let i = word_index_at(words, offset);
            let found = around(b, search, offset, depth);
            let holds_word = 0 <= i < words.len() && words[i].len() > 0 && words[i][0].start
                <= offset < words[i][0].span().end;
            let inner = interior_of(b, words[i]);
            let holds_inner = holds_word && inner is Some && inner->0.start <= offset
                < inner->0.end;
            &&& found.contains(r) <==> {
                ||| r == c.range
                ||| holds_word && r == words[i][0].span()
                ||| holds_inner && r == inner->0
                ||| holds_inner && around(b, inner->0, offset, (depth - 1) as nat).contains(r)
            }
        }),
{
    let words = words_of(c.tokens);
    let i = word_index_at(words, offset);
    lemma_index_not_negative(words, 0, offset);
    let found = around(b, search, offset, depth);
    if let Some(span) = crate::words::span_at(words, i) {
        if span.start <= offset < span.end {
            if let Some(inner) = crate::selection::inside(b, c, offset) {
                let front = seq![c.range, span, inner];
                let rest = around(b, inner, offset, (depth - 1) as nat);
                assert(found == front + rest);
                crate::discovery::lemma_joined(front, rest, r);
                assert(front[0] == c.range && front[1] == span && front[2] == inner);
            } else {
                let front = seq![c.range, span];
                assert(found == front);
                assert(front[0] == c.range && front[1] == span);
            }
        } else {
            assert(found[0] == c.range);
        }
    } else {
        assert(found[0] == c.range);
    }
}

proof fn lemma_index_not_negative(words: Seq<Seq<Token>>, i: int, offset: int)
    requires
        0 <= i,
    ensures
        words_passed(words, i, offset) >= 0,
        word_touched(words, i, offset) matches Some(k) ==> i <= k < words.len(),
    decreases words.len() - i,
{
    if i < words.len() {
        lemma_index_not_negative(words, i + 1, offset);
    }
}

/// The innermost command at an offset is the one that the offset belongs to among those
/// inside the word at the cursor, if there is one there, else the one around; and it says
/// what its first word is.
pub proof fn the_innermost_command_is_as_deep_as_it_goes(
    b: Seq<u8>,
    search: Range<usize>,
    offset: int,
    depth: nat,
    c: CommandView,
)
    requires
        depth > 0,
        touched(commands_within(b, search.start as int, search.end as int), offset) == Some(c),
    ensures
        ({
            let words = words_of(c.tokens);
            let i = word_index_at(words, offset);
            let inner = interior_of(b, words[i]);
            let goes_in = i < words.len() && inner is Some && inner->0.start <= offset
                < inner->0.end;
            let deeper = innermost(b, inner->0, offset, (depth - 1) as nat);
            let found = innermost(b, search, offset, depth);
            &&& goes_in && deeper is Some ==> found == deeper
            &&& !(goes_in && deeper is Some) ==> found is Some && found->0.command == c
                && found->0.word_index == i && found->0.name == crate::words::literal_at(
                b,
                words,
                0,
            )
        }),
        touched(commands_within(b, search.start as int, search.end as int), offset) is None
            ==> innermost(b, search, offset, depth) is None,
{
}

/// The text before the cursor is what the bytes before it spell.
pub proof fn the_text_before_the_cursor_is_what_is_there(b: Seq<u8>, offset: int)
    requires
        valid_utf8(b),
        0 <= offset <= b.len(),
        is_char_boundary(b, offset),
    ensures
        crate::cursor::text_before(b, offset) == decode_utf8(b.subrange(0, offset)),
{
}

/// What is inside a word that is a command in brackets can be selected by itself, where the
/// brackets are the whole word.
pub proof fn the_inside_of_brackets_is_between_them(b: Seq<u8>, word: Seq<Token>, t: Seq<char>)
    requires
        word.len() > 0,
        word[0].kind is Word || word[0].kind is SimpleWord,
        word[0].size > 2,
        word[0].start + word[0].size <= usize::MAX,
        token_text(b, word[0]) == Some(t),
        t.len() > 0,
        t[0] == '[',
    ensures
        t.last() == ']' ==> interior_of(b, word) == Some(
            Range {
                start: (word[0].start + 1) as usize,
                end: (word[0].start + word[0].size - 1) as usize,
            },
        ),
        t.last() != ']' ==> interior_of(b, word) is None,
{
}

} // verus!

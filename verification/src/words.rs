//! Reading the words of a command: literals, bodies and ranges.
use core::ops::Range;
use vstd::prelude::*;
use vstd::string::StringExecFns;

use crate::grammar::{OPEN_BRACE, QUOTE};
use crate::placement::placed;
use crate::script::{str_option, text_in, Script};
use crate::text::text_option;
use crate::token::{slices_view, word_stop, words_from, Token, TokenKind};

verus! {

/// Every token of the word ends where a position can point.
pub open spec fn readable(word: Seq<Token>) -> bool {
    placed(word, 0, usize::MAX as int)
}

pub open spec fn all_readable(words: Seq<Seq<Token>>) -> bool {
    forall|i: int| 0 <= i < words.len() ==> readable(#[trigger] words[i])
}

/// The words of a readable command are readable.
pub proof fn lemma_words_readable(tokens: Seq<Token>, i: int)
    requires
        0 <= i <= tokens.len(),
        readable(tokens),
    ensures
        all_readable(words_from(tokens, i)),
    decreases tokens.len() - i,
{
    if i < tokens.len() {
        let j = word_stop(tokens, i);
        lemma_words_readable(tokens, j);
        let rest = words_from(tokens, j);
        let all = words_from(tokens, i);
        assert forall|k: int| 0 <= k < all.len() implies readable(#[trigger] all[k]) by {
            if k > 0 {
                assert(all[k] == rest[k - 1]);
            } else {
                let word = tokens.subrange(i, j);
                assert(all[0] == word);
                assert forall|m: int| 0 <= m < word.len() implies 0 <= (#[trigger] word[m]).start
                    && word[m].stop() <= usize::MAX by {
                    assert(word[m] == tokens[i + m]);
                }
            }
        }
    }
}

/// The text of a token.
pub open spec fn token_text(b: Seq<u8>, t: Token) -> Option<Seq<char>> {
    text_in(b, t.start as int, t.stop())
}

/// The text of the components from `k` on, where all of them are text or escapes.
pub open spec fn joined_text(b: Seq<u8>, word: Seq<Token>, k: int) -> Option<Seq<char>>
    decreases word.len() - k,
{
    if k >= word.len() {
        Some(seq![])
    } else if word[k].kind is Text || word[k].kind is Backslash {
        match (token_text(b, word[k]), joined_text(b, word, k + 1)) {
            (Some(first), Some(rest)) => Some(first + rest),
            _ => None,
        }
    } else {
        None
    }
}

/// A word as a literal string, if it is one. A word that involves substitution is
/// none: what it stands for cannot be known from the text.
pub open spec fn literal_of(b: Seq<u8>, word: Seq<Token>) -> Option<Seq<char>> {
    if word.len() == 0 {
        None
    } else {
        match word[0].kind {
            TokenKind::SimpleWord => if word.len() > 1 {
                token_text(b, word[1])
            } else {
                None
            },
            TokenKind::Text => token_text(b, word[0]),
            TokenKind::Word => joined_text(b, word, 1),
            _ => None,
        }
    }
}

/// The literal in position `i` of a command.
pub open spec fn literal_at(b: Seq<u8>, words: Seq<Seq<Token>>, i: int) -> Option<Seq<char>> {
    if 0 <= i < words.len() {
        literal_of(b, words[i])
    } else {
        None
    }
}

/// Whether a word is written in braces or quotes.
pub open spec fn is_delimited(b: Seq<u8>, head: Token) -> bool {
    head.size >= 2 && head.start < b.len() && (b[head.start as int] == OPEN_BRACE
        || b[head.start as int] == QUOTE)
}

/// The range of a word's contents, inside any braces or quotes.
pub open spec fn body_of(b: Seq<u8>, word: Seq<Token>) -> Option<Range<usize>> {
    if word.len() == 0 {
        None
    } else {
        match word[0].kind {
            TokenKind::SimpleWord | TokenKind::Word => if is_delimited(b, word[0]) {
                Some(
                    Range {
                        start: (word[0].start + 1) as usize,
                        end: (word[0].stop() - 1) as usize,
                    },
                )
            } else {
                Some(word[0].span())
            },
            TokenKind::Text => Some(word[0].span()),
            _ => None,
        }
    }
}

pub open spec fn body_at(b: Seq<u8>, words: Seq<Seq<Token>>, i: int) -> Option<Range<usize>> {
    if 0 <= i < words.len() {
        body_of(b, words[i])
    } else {
        None
    }
}

/// The range of a word as written, its delimiters included.
pub open spec fn span_of(word: Seq<Token>) -> Option<Range<usize>> {
    if word.len() == 0 {
        None
    } else {
        Some(word[0].span())
    }
}

pub open spec fn span_at(words: Seq<Seq<Token>>, i: int) -> Option<Range<usize>> {
    if 0 <= i < words.len() {
        span_of(words[i])
    } else {
        None
    }
}

/// Whether a word was written in braces, i.e. can be a script.
pub open spec fn is_braced(b: Seq<u8>, word: Seq<Token>) -> bool {
    word.len() > 0 && match token_text(b, word[0]) {
        Some(t) => t.len() > 0 && t[0] == '{',
        None => false,
    }
}

fn token_str<'a>(script: &'a Script, t: &Token) -> (r: Option<&'a str>)
    requires
        t.stop() <= usize::MAX,
    ensures
        str_option(r) == token_text(script@, *t),
{
    script.text(t.range())
}

fn token_string(script: &Script, t: &Token) -> (r: Option<String>)
    requires
        t.stop() <= usize::MAX,
    ensures
        text_option(r) == token_text(script@, *t),
{
    match script.text(t.range()) {
        Some(s) => Some(s.to_owned()),
        None => None,
    }
}

/// Reads a word as a literal string, if it is one.
pub fn literal(script: &Script, word: &[Token]) -> (r: Option<String>)
    requires
        readable(word@),
    ensures
        text_option(r) == literal_of(script@, word@),
{
    if word.len() == 0 {
        return None;
    }
    match word[0].kind {
        TokenKind::SimpleWord => if word.len() > 1 {
            token_string(script, &word[1])
        } else {
            None
        },
        TokenKind::Text => token_string(script, &word[0]),
        TokenKind::Word => {
            let mut out = String::new();
            let mut k: usize = 1;
            let ghost whole = joined_text(script@, word@, 1);
            proof {
                if let Some(t) = whole {
                    assert(out@ + t =~= t);
                }
            }
            while k < word.len()
                invariant
                    1 <= k <= word@.len(),
                    readable(word@),
                    word@[0].kind is Word,
                    whole == joined_text(script@, word@, 1),
                    whole == (match joined_text(script@, word@, k as int) {
                        Some(rest) => Some(out@ + rest),
                        None => None,
                    }),
                decreases word@.len() - k,
            {
                let t = &word[k];
                if !matches!(t.kind, TokenKind::Text | TokenKind::Backslash) {
                    return None;
                }
                match token_str(script, t) {
                    Some(s) => {
                        proof {
                            if let Some(rest) = joined_text(script@, word@, k + 1) {
                                assert(out@ + (s@ + rest) =~= (out@ + s@) + rest);
                            }
                        }
                        out.append(s);
                    },
                    None => {
                        return None;
                    },
                }
                k = k + 1;
            }
            assert(out@ + Seq::<char>::empty() =~= out@);
            Some(out)
        },
        _ => None,
    }
}

/// The literal in position `i` of a command.
pub fn literal_word(script: &Script, words: &Vec<&[Token]>, i: usize) -> (r: Option<String>)
    requires
        all_readable(slices_view(words@)),
    ensures
        text_option(r) == literal_at(script@, slices_view(words@), i as int),
{
    if i < words.len() {
        assert(slices_view(words@)[i as int] == words@[i as int]@);
        literal(script, words[i])
    } else {
        None
    }
}

/// The byte range of a word's contents, i.e. inside any braces or quotes.
pub fn body_range(script: &Script, word: &[Token]) -> (r: Option<Range<usize>>)
    requires
        readable(word@),
    ensures
        r == body_of(script@, word@),
{
    if word.len() == 0 {
        return None;
    }
    let head = &word[0];
    match head.kind {
        TokenKind::SimpleWord | TokenKind::Word => {
            let b = script.as_bytes();
            if head.size >= 2 && head.start < b.len() && (b[head.start] == OPEN_BRACE
                || b[head.start] == QUOTE) {
                Some(head.start + 1..head.start + head.size - 1)
            } else {
                Some(head.range())
            }
        },
        TokenKind::Text => Some(head.range()),
        _ => None,
    }
}

pub fn body_word(script: &Script, words: &Vec<&[Token]>, i: usize) -> (r: Option<Range<usize>>)
    requires
        all_readable(slices_view(words@)),
    ensures
        r == body_at(script@, slices_view(words@), i as int),
{
    if i < words.len() {
        assert(slices_view(words@)[i as int] == words@[i as int]@);
        body_range(script, words[i])
    } else {
        None
    }
}

/// The range of a word's first token, used to anchor names.
pub fn word_range(word: &[Token]) -> (r: Option<Range<usize>>)
    requires
        readable(word@),
    ensures
        r == span_of(word@),
{
    if word.len() == 0 {
        None
    } else {
        Some(word[0].range())
    }
}

pub fn range_word(words: &Vec<&[Token]>, i: usize) -> (r: Option<Range<usize>>)
    requires
        all_readable(slices_view(words@)),
    ensures
        r == span_at(slices_view(words@), i as int),
{
    if i < words.len() {
        assert(slices_view(words@)[i as int] == words@[i as int]@);
        word_range(words[i])
    } else {
        None
    }
}

/// The first character of a text.
pub fn first_char(s: &str) -> (r: Option<char>)
    ensures
        r == (if s@.len() > 0 {
            Some(s@[0])
        } else {
            None
        }),
{
    let mut chars = s.chars();
    chars.next()
}

/// Whether a word was written in braces.
pub fn braced_word(script: &Script, words: &Vec<&[Token]>, i: usize) -> (r: bool)
    requires
        all_readable(slices_view(words@)),
        i < words@.len(),
    ensures
        r == is_braced(script@, slices_view(words@)[i as int]),
{
    assert(slices_view(words@)[i as int] == words@[i as int]@);
    let word = words[i];
    if word.len() == 0 {
        return false;
    }
    match token_str(script, &word[0]) {
        Some(s) => match first_char(s) {
            Some(c) => c == '{',
            None => false,
        },
        None => false,
    }
}

} // verus!

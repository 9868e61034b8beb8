//! How Tcl is written, byte by byte: what each character means where it stands, and which
//! bytes the tokens of a command cover.
use vstd::prelude::*;

use crate::grammar::{
    after, bare_element_end, braced, braced_element_end, bracket_end, command, commands,
    comment_end, complete_from, components, element, element_tokens, elements, escape_len,
    expanded_word, expands, find_byte, hex_run, hex_value, lead, left, lemma_escape_len,
    lemma_text_end, name_end, parsed_command, plain_word, skip_blanks, skip_indent,
    skip_list_space, skip_space, text_end, token, variable, word, word_body, words, Stop,
    Tokens, WordTokens, Words,
};
use crate::placement::{
    lemma_bracket_end, lemma_command, lemma_components, lemma_variable, lemma_word,
};
use crate::token::{ParseError, Token, TokenKind};

verus! {

// --------------------------------------------------------------------- bytes
/// An ASCII letter or digit, or an underscore.
pub open spec fn in_name(c: u8) -> bool {
    48 <= c <= 57 || 65 <= c <= 90 || 97 <= c <= 122 || c == 95
}

/// A tab, vertical tab, form feed, carriage return or space.
pub open spec fn in_blank(c: u8) -> bool {
    c == 9 || c == 11 || c == 12 || c == 13 || c == 32
}

/// What a character of plain text is where components are read: not what ends them, and
/// none of NUL, `$`, `[` and backslash.
pub open spec fn in_text(c: u8, stop: Stop) -> bool {
    &&& c != 0 && c != 36 && c != 91 && c != 92
    &&& match stop {
        Stop::Word { nested } => !in_blank(c) && c != 10 && c != 59 && !(nested && c == 93),
        Stop::Quote => c != 34,
        Stop::Paren => c != 41,
    }
}

/// A token over `start..end`.
pub open spec fn one_token(kind: TokenKind, start: int, end: int, parts: int) -> Token {
    Token {
        kind,
        start: start as usize,
        size: (end - start) as usize,
        num_components: parts as usize,
    }
}

// ------------------------------------------------------------------ variables
proof fn lemma_name_run(b: Seq<u8>, i: int, j: int, end: int)
    requires
        0 <= i <= j <= end,
        forall|k: int| i <= k < j ==> in_name(#[trigger] b[k]),
        j < end ==> !in_name(b[j]) && b[j] != 58,
    ensures
        name_end(b, i, end) == j,
    decreases j - i,
{
    if i < j {
        assert(in_name(b[i]));
        lemma_name_run(b, i + 1, j, end);
    }
}

/// A `$` before a run of ASCII letters, digits and underscores substitutes the variable of
/// that name: the whole run up to the first other character, which is no colon and no
/// opening parenthesis. The Variable token covers the `$` and the run, and the Text token
/// behind it the run.
pub proof fn a_variable_is_named_by_the_whole_run(b: Seq<u8>, i: int, j: int, end: int)
    requires
        0 <= i,
        i + 1 < j <= end,
        b[i] == 36,
        forall|k: int| i < k < j ==> in_name(#[trigger] b[k]),
        j < end ==> !in_name(b[j]) && b[j] != 58 && b[j] != 40,
    ensures
        variable(b, i, end) == Ok::<Tokens, ParseError>(
            Tokens {
                tokens: seq![
                    one_token(TokenKind::Variable, i, j, 1),
                    one_token(TokenKind::Text, i + 1, j, 0),
                ],
                next: j,
            },
        ),
{
    assert(in_name(b[i + 1]));
    lemma_name_run(b, i + 1, j, end);
}

/// Whether `i..j` is a qualified name: letters, digits and underscores, and runs of two or
/// more colons.
pub open spec fn is_qualified_name(b: Seq<u8>, i: int, j: int) -> bool {
    forall|k: int|
        i <= k < j ==> in_name(#[trigger] b[k]) || (b[k] == 58 && ((k > i && b[k - 1] == 58) || (k
            + 1 < j && b[k + 1] == 58)))
}

proof fn lemma_qualified_name(b: Seq<u8>, i: int, j: int, end: int)
    requires
        0 <= i <= j <= end,
        is_qualified_name(b, i, j),
        j < end ==> !in_name(b[j]) && b[j] != 58,
    ensures
        name_end(b, i, end) == j,
    decreases j - i,
{
    if i < j {
        assert(in_name(b[i]) || b[i] == 58);
        if in_name(b[i]) {
            lemma_qualified_name(b, i + 1, j, end);
        } else {
            assert(b[i + 1] == 58);
            crate::grammar::lemma_skip_colons(b, i + 2, end);
            let m = lemma_colons_end(b, i + 2, j, end);
            lemma_colon_run(b, i + 2, m, end);
            assert forall|k: int| m <= k < j implies in_name(#[trigger] b[k]) || (b[k] == 58 && ((k
                > m && b[k - 1] == 58) || (k + 1 < j && b[k + 1] == 58))) by {
                assert(in_name(b[k]) || b[k] == 58);
                if k == m {
                    assert(b[m] != 58);
                }
            }
            lemma_qualified_name(b, m, j, end);
        }
    } else if i < end {
        assert(!(b[i] == 58));
    }
}

/// The end of a run of colons before `j`.
proof fn lemma_colons_end(b: Seq<u8>, i: int, j: int, end: int) -> (m: int)
    requires
        0 <= i <= j <= end,
        j < end ==> b[j] != 58,
    ensures
        i <= m <= j,
        m < end ==> b[m] != 58,
        forall|k: int| i <= k < m ==> #[trigger] b[k] == 58,
    decreases j - i,
{
    if i < j && b[i] == 58 {
        lemma_colons_end(b, i + 1, j, end)
    } else {
        i
    }
}

/// A variable may have a qualified name: the colons belong to it, and what follows them.
pub proof fn a_variable_name_may_be_qualified(b: Seq<u8>, i: int, j: int, end: int)
    requires
        0 <= i,
        i + 1 < j <= end,
        b[i] == 36,
        is_qualified_name(b, i + 1, j),
        j < end ==> !in_name(b[j]) && b[j] != 58 && b[j] != 40,
    ensures
        variable(b, i, end) == Ok::<Tokens, ParseError>(
            Tokens {
                tokens: seq![
                    one_token(TokenKind::Variable, i, j, 1),
                    one_token(TokenKind::Text, i + 1, j, 0),
                ],
                next: j,
            },
        ),
{
    assert(in_name(b[i + 1]) || b[i + 1] == 58);
    lemma_qualified_name(b, i + 1, j, end);
}

proof fn lemma_colon_run(b: Seq<u8>, i: int, m: int, end: int)
    requires
        0 <= i <= m <= end,
        m < end ==> b[m] != 58,
        forall|k: int| i <= k < m ==> #[trigger] b[k] == 58,
    ensures
        crate::grammar::skip_colons(b, i, end) == m,
    decreases m - i,
{
    if i < m {
        assert(b[i] == 58);
        lemma_colon_run(b, i + 1, m, end);
    }
}

/// A `${` begins a name that goes up to the next closing brace, whatever is in it.
pub proof fn a_braced_variable_name_ends_with_its_brace(b: Seq<u8>, i: int, j: int, end: int)
    requires
        0 <= i,
        i + 2 <= j < end,
        b[i] == 36,
        b[i + 1] == 123,
        forall|k: int| i + 2 <= k < j ==> #[trigger] b[k] != 125,
        b[j] == 125,
    ensures
        variable(b, i, end) == Ok::<Tokens, ParseError>(
            Tokens {
                tokens: seq![
                    one_token(TokenKind::Variable, i, j + 1, 1),
                    one_token(TokenKind::Text, i + 2, j, 0),
                ],
                next: j + 1,
            },
        ),
{
    lemma_byte_run(b, i + 2, j, end, 125);
}

proof fn lemma_byte_run(b: Seq<u8>, i: int, j: int, end: int, c: u8)
    requires
        0 <= i <= j <= end,
        forall|k: int| i <= k < j ==> #[trigger] b[k] != c,
        j < end ==> b[j] == c,
    ensures
        find_byte(b, i, end, c) == j,
    decreases j - i,
{
    if i < j {
        assert(b[i] != c);
        lemma_byte_run(b, i + 1, j, end, c);
    }
}

/// A name with an opening parenthesis behind it is that of an array: the index goes up to
/// the closing one, and its components follow the name.
#[verifier::spinoff_prover]
#[verifier::rlimit(40)]
pub proof fn an_array_index_follows_its_name(b: Seq<u8>, i: int, j: int, end: int)
    requires
        0 <= i < j < end <= usize::MAX,
        b[i] == 36,
        b[i + 1] != 123,
        forall|k: int| i < k < j ==> in_name(#[trigger] b[k]),
        b[j] == 40,
    ensures
        match components(b, j + 1, end, Stop::Paren) {
            Ok(index) => if index.next < end {
                &&& b[index.next] == 41
                &&& variable(b, i, end) is Ok
                &&& variable(b, i, end)->Ok_0.next == index.next + 1
                &&& variable(b, i, end)->Ok_0.tokens[0] == one_token(
                    TokenKind::Variable,
                    i,
                    index.next + 1,
                    1 + if index.tokens.len() == 0 {
                        1
                    } else {
                        index.tokens.len() as int
                    },
                )
                &&& variable(b, i, end)->Ok_0.tokens[1] == one_token(TokenKind::Text, i + 1, j, 0)
                &&& index.tokens.len() > 0 ==> variable(b, i, end)->Ok_0.tokens.subrange(
                    2,
                    variable(b, i, end)->Ok_0.tokens.len() as int,
                ) == index.tokens
            } else {
                variable(b, i, end) == Err::<Tokens, ParseError>(
                    ParseError { offset: j as usize, incomplete: true },
                )
            },
            Err(e) => variable(b, i, end) == Err::<Tokens, ParseError>(e),
        },
{
    lemma_name_run(b, i + 1, j, end);
    lemma_components(b, j + 1, end, Stop::Paren);
    lemma_components_stop(b, j + 1, end, Stop::Paren);
    if let Ok(index) = components(b, j + 1, end, Stop::Paren) {
        if index.next < end && index.tokens.len() > 0 {
            let v = variable(b, i, end)->Ok_0;
            assert(v.tokens.subrange(2, v.tokens.len() as int) =~= index.tokens);
        }
    }
}

proof fn lemma_components_stop(b: Seq<u8>, i: int, end: int, stop: Stop)
    requires
        0 <= i <= end <= usize::MAX,
        !(stop is Word),
    ensures
        components(b, i, end, stop) matches Ok(t) ==> (t.next < end ==> crate::grammar::stops(
            b[t.next],
            stop,
        )),
    decreases left(i, end),
{
    if i < end && !crate::grammar::stops(b[i], stop) {
        if !crate::grammar::starts_substitution(b[i]) {
            lemma_text_end(b, i + 1, end, stop);
            lemma_components_stop(b, text_end(b, i + 1, end, stop), end, stop);
        } else if b[i] == 36 {
            lemma_variable(b, i, end);
            if let Ok(v) = variable(b, i, end) {
                lemma_components_stop(b, v.next, end, stop);
            }
        } else if b[i] == 91 {
            lemma_bracket_end(b, i + 1, end, i);
            if let Ok(j) = bracket_end(b, i + 1, end, i) {
                lemma_components_stop(b, j, end, stop);
            }
        } else {
            lemma_escape_len(b, i, end);
            lemma_components_stop(b, i + escape_len(b, i, end), end, stop);
            lemma_components_stop(b, i + 1, end, stop);
        }
    }
}

/// A `$` with nothing behind it that could be a name is plain text.
pub proof fn a_lone_dollar_is_text(b: Seq<u8>, i: int, end: int)
    requires
        0 <= i < end,
        b[i] == 36,
        i + 1 < end ==> !in_name(b[i + 1]) && b[i + 1] != 58 && b[i + 1] != 40 && b[i + 1] != 123,
    ensures
        variable(b, i, end) == Ok::<Tokens, ParseError>(
            Tokens { tokens: seq![one_token(TokenKind::Text, i, i + 1, 0)], next: i + 1 },
        ),
{
}

// -------------------------------------------------------------------- escapes
/// A backslash before a character with no meaning of its own escapes that character:
/// nothing but that, whatever stands behind it.
pub proof fn a_backslash_escapes_one_character(b: Seq<u8>, i: int, end: int)
    requires
        0 <= i,
        i + 1 < end,
        b[i] == 92,
    ensures
        0 < b[i + 1] < 128 && b[i + 1] != 10 && !(48 <= b[i + 1] <= 55) && b[i + 1] != 120 && b[i
            + 1] != 117 && b[i + 1] != 85 ==> escape_len(b, i, end) == 2,
        0xC0 <= b[i + 1] < 0xE0 && i + 3 <= end ==> escape_len(b, i, end) == 3,
        0xE0 <= b[i + 1] < 0xF0 && i + 4 <= end ==> escape_len(b, i, end) == 4,
        0xF0 <= b[i + 1] < 0xF8 && i + 5 <= end ==> escape_len(b, i, end) == 5,
        b[i + 1] == 0 ==> escape_len(b, i, end) == 1,
{
}

/// A hexadecimal digit.
pub open spec fn in_hex(c: u8) -> bool {
    48 <= c <= 57 || 65 <= c <= 70 || 97 <= c <= 102
}

proof fn lemma_hex_count(b: Seq<u8>, i: int, n: int, end: int, most: nat, value: int)
    requires
        0 <= i,
        0 <= n <= most,
        i + n <= end,
        forall|k: int| i <= k < i + n ==> in_hex(#[trigger] b[k]),
        n == most || i + n == end || !in_hex(b[i + n]),
        0 <= value,
        most <= 4,
        most == 4 ==> value == 0,
        most == 3 ==> value < 16,
        most == 2 ==> value < 256,
        most == 1 ==> value < 4096,
    ensures
        hex_run(b, i, end, most, value) == n,
    decreases most,
{
    if n > 0 {
        assert(in_hex(b[i]));
        assert(0 <= hex_value(b[i]) < 16);
        lemma_hex_count(
            b,
            i + 1,
            n - 1,
            end,
            (most - 1) as nat,
            value * 16 + hex_value(b[i]),
        );
    }
}

/// `\\x` takes up to two hexadecimal digits, and `\\u` up to four: as many as there are.
pub proof fn hexadecimal_escapes_take_their_digits(b: Seq<u8>, i: int, n: int, end: int)
    requires
        0 <= i,
        0 <= n,
        i + 2 + n <= end,
        b[i] == 92,
        b[i + 1] == 120 && n <= 2 || b[i + 1] == 117 && n <= 4,
        forall|k: int| i + 2 <= k < i + 2 + n ==> in_hex(#[trigger] b[k]),
        i + 2 + n < end ==> !in_hex(b[i + 2 + n]) || b[i + 1] == 120 && n == 2 || b[i + 1] == 117
            && n == 4,
    ensures
        escape_len(b, i, end) == 2 + n,
{
    if b[i + 1] == 120 {
        lemma_hex_count(b, i + 2, n, end, 2, 0);
    } else {
        lemma_hex_count(b, i + 2, n, end, 4, 0);
    }
}

/// A backslash before an octal digit takes up to three of them, but no third one behind a
/// first digit above 3.
pub proof fn octal_escapes_take_their_digits(b: Seq<u8>, i: int, end: int)
    requires
        0 <= i,
        i + 1 < end,
        b[i] == 92,
        48 <= b[i + 1] <= 55,
    ensures
        i + 2 >= end || !(48 <= b[i + 2] <= 55) ==> escape_len(b, i, end) == 2,
        i + 2 < end && 48 <= b[i + 2] <= 55 && (i + 3 >= end || !(48 <= b[i + 3] <= 55) || b[i + 1]
            > 51) ==> escape_len(b, i, end) == 3,
        i + 3 < end && 48 <= b[i + 2] <= 55 && 48 <= b[i + 3] <= 55 && b[i + 1] <= 51
            ==> escape_len(b, i, end) == 4,
{
}

proof fn lemma_indent_run(b: Seq<u8>, i: int, j: int, end: int)
    requires
        0 <= i <= j <= end,
        forall|k: int| i <= k < j ==> #[trigger] b[k] == 32 || b[k] == 9,
        j < end ==> b[j] != 32 && b[j] != 9,
    ensures
        skip_indent(b, i, end) == j,
    decreases j - i,
{
    if i < j {
        assert(b[i] == 32 || b[i] == 9);
        lemma_indent_run(b, i + 1, j, end);
    }
}

/// A backslash at the end of a line takes the newline and the spaces and tabs that the next
/// line begins with.
pub proof fn a_continued_line_takes_its_indent(b: Seq<u8>, i: int, j: int, end: int)
    requires
        0 <= i,
        i + 2 <= j <= end,
        b[i] == 92,
        b[i + 1] == 10,
        forall|k: int| i + 2 <= k < j ==> #[trigger] b[k] == 32 || b[k] == 9,
        j < end ==> b[j] != 32 && b[j] != 9,
    ensures
        escape_len(b, i, end) == j - i,
{
    lemma_indent_run(b, i + 2, j, end);
}

// ----------------------------------------------------------------- components
proof fn lemma_text_run(b: Seq<u8>, i: int, j: int, end: int, stop: Stop)
    requires
        0 <= i <= j <= end,
        forall|k: int| i <= k < j ==> in_text(#[trigger] b[k], stop),
        j < end ==> !in_text(b[j], stop),
    ensures
        text_end(b, i, end, stop) == j,
    decreases j - i,
{
    if i < j {
        assert(in_text(b[i], stop));
        lemma_text_run(b, i + 1, j, end, stop);
    }
}

/// Plain text is one token up to the next character that is none.
pub proof fn plain_text_is_one_token(b: Seq<u8>, i: int, j: int, end: int, stop: Stop)
    requires
        0 <= i < j <= end,
        forall|k: int| i <= k < j ==> in_text(#[trigger] b[k], stop),
        j < end ==> !in_text(b[j], stop),
    ensures
        components(b, i, end, stop) == after(
            seq![one_token(TokenKind::Text, i, j, 0)],
            components(b, j, end, stop),
        ),
{
    assert(in_text(b[i], stop));
    lemma_text_run(b, i + 1, j, end, stop);
}

/// Components end where the word, the quotes or the parentheses end that they are in: at
/// white space, a newline or a `;`, and in brackets at a `]`; at a `"`; at a `)`; and with
/// the text.
pub proof fn components_end_with_what_they_are_in(b: Seq<u8>, i: int, end: int, stop: Stop)
    requires
        0 <= i,
        i < end ==> match stop {
            Stop::Word { nested } => in_blank(b[i]) || b[i] == 10 || b[i] == 59 || (nested && b[i]
                == 93),
            Stop::Quote => b[i] == 34,
            Stop::Paren => b[i] == 41,
        },
    ensures
        components(b, i, end, stop) == Ok::<Tokens, ParseError>(
            Tokens { tokens: seq![], next: i },
        ),
{
}

/// A `$` begins a variable, a `[` a command whose token goes from bracket to bracket, and a
/// backslash an escape, wherever components are read.
#[verifier::spinoff_prover]
#[verifier::rlimit(40)]
pub proof fn substitutions_are_tokens(b: Seq<u8>, i: int, end: int, stop: Stop)
    requires
        0 <= i < end <= usize::MAX,
    ensures
        b[i] == 36 ==> match variable(b, i, end) {
            Ok(v) => components(b, i, end, stop) == after(
                v.tokens,
                components(b, v.next, end, stop),
            ),
            Err(e) => components(b, i, end, stop) == Err::<Tokens, ParseError>(e),
        },
        b[i] == 91 ==> match bracket_end(b, i + 1, end, i) {
            Ok(j) => components(b, i, end, stop) == after(
                seq![one_token(TokenKind::Command, i, j, 0)],
                components(b, j, end, stop),
            ),
            Err(e) => components(b, i, end, stop) == Err::<Tokens, ParseError>(e),
        },
        b[i] == 92 && escape_len(b, i, end) > 1 && !(b[i + 1] == 10 && stop is Word)
            ==> components(b, i, end, stop) == after(
            seq![one_token(TokenKind::Backslash, i, i + escape_len(b, i, end), 0)],
            components(b, i + escape_len(b, i, end), end, stop),
        ),
        b[i] == 92 && i + 1 < end && b[i + 1] == 10 && stop is Word ==> components(
            b,
            i,
            end,
            stop,
        ) == Ok::<Tokens, ParseError>(Tokens { tokens: seq![], next: i }),
        b[i] == 92 && escape_len(b, i, end) == 1 ==> components(b, i, end, stop) == after(
            seq![one_token(TokenKind::Text, i, i + 1, 0)],
            components(b, i + 1, end, stop),
        ),
        b[i] == 0 ==> components(b, i, end, stop) == after(
            seq![one_token(TokenKind::Text, i, i + 1, 0)],
            components(b, i + 1, end, stop),
        ),
{
    lemma_escape_len(b, i, end);
    if b[i] == 36 {
        lemma_variable(b, i, end);
    } else if b[i] == 91 {
        lemma_bracket_end(b, i + 1, end, i);
    }
}

/// A nested script ends with the `]` that ends one of its commands; a newline or `;` only
/// ends the command. Without a `]` it is incomplete from its `[` on.
pub proof fn a_nested_script_ends_with_its_bracket(b: Seq<u8>, i: int, end: int, open: int)
    requires
        0 <= open < i <= end <= usize::MAX,
    ensures
        match command(b, i, end, true) {
            Ok(c) => if c.term < end && b[c.term] == 93 {
                bracket_end(b, i, end, open) == Ok::<int, ParseError>(c.term + 1)
            } else if c.next < end && i < end {
                bracket_end(b, i, end, open) == bracket_end(b, c.next, end, open)
            } else {
                bracket_end(b, i, end, open) == Err::<int, ParseError>(
                    ParseError { offset: open as usize, incomplete: true },
                )
            },
            Err(e) => bracket_end(b, i, end, open) == Err::<int, ParseError>(e),
        },
{
    lemma_command(b, i, end, true);
}

// ---------------------------------------------------------------------- words
/// How many more braces are opened than closed in `i..j`.
pub open spec fn opened(b: Seq<u8>, i: int, j: int) -> int
    decreases j - i,
{
    if j <= i {
        0
    } else {
        opened(b, i, j - 1) + if b[j - 1] == 123 {
            1int
        } else if b[j - 1] == 125 {
            -1int
        } else {
            0int
        }
    }
}

proof fn lemma_braces(b: Seq<u8>, k: int, p: int, j: int, end: int)
    requires
        0 <= k < p <= j < end,
        b[j] == 125,
        opened(b, k + 1, j) == 0,
        opened(b, k + 1, p) >= 0,
        forall|m: int| k < m < j ==> #[trigger] b[m] != 92,
        forall|m: int| k < m < j && #[trigger] b[m] == 125 ==> opened(b, k + 1, m) > 0,
    ensures
        braced(b, p, end, (1 + opened(b, k + 1, p)) as nat, k + 1, true) == Some(
            Tokens { tokens: seq![one_token(TokenKind::Text, k + 1, j, 0)], next: j + 1 },
        ),
    decreases j - p,
{
    if p < j {
        assert(b[p] != 92);
        if b[p] == 125 {
            assert(opened(b, k + 1, p) > 0);
        }
        lemma_braces(b, k, p + 1, j, end);
    }
}

/// A word in braces goes from its opening brace to the one that closes it, and what is
/// between is one text, whatever it holds.
pub proof fn a_braced_word_ends_with_its_brace(
    b: Seq<u8>,
    k: int,
    j: int,
    end: int,
    nested: bool,
)
    requires
        0 <= k < j < end,
        b[k] == 123,
        b[j] == 125,
        opened(b, k + 1, j) == 0,
        forall|m: int| k < m < j ==> #[trigger] b[m] != 92,
        forall|m: int| k < m < j && #[trigger] b[m] == 125 ==> opened(b, k + 1, m) > 0,
    ensures
        word_body(b, k, end, nested) == Ok::<Tokens, ParseError>(
            Tokens { tokens: seq![one_token(TokenKind::Text, k + 1, j, 0)], next: j + 1 },
        ),
{
    assert(opened(b, k + 1, k + 1) == 0);
    lemma_braces(b, k, k + 1, j, end);
}

/// In braces a backslash takes the character behind it along: an escaped brace does not
/// count.
pub proof fn an_escaped_brace_does_not_count(
    b: Seq<u8>,
    j: int,
    end: int,
    level: nat,
    seg: int,
    first: bool,
)
    requires
        0 <= j,
        j + 1 < end,
        b[j] == 92,
        b[j + 1] == 123 || b[j + 1] == 125 || b[j + 1] == 92,
    ensures
        braced(b, j, end, level, seg, first) == braced(b, j + 2, end, level, seg, first),
{
}

/// A word without its closing brace or quote is incomplete from where it begins.
pub proof fn an_unclosed_brace_is_incomplete(b: Seq<u8>, k: int, end: int, nested: bool)
    requires
        0 <= k < end,
        b[k] == 123,
        forall|m: int| k < m < end ==> #[trigger] b[m] != 125,
    ensures
        word_body(b, k, end, nested) == Err::<Tokens, ParseError>(
            ParseError { offset: k as usize, incomplete: true },
        ),
{
    lemma_no_brace(b, k + 1, end, 1, k + 1, true);
}

proof fn lemma_no_brace(b: Seq<u8>, j: int, end: int, level: nat, seg: int, first: bool)
    requires
        0 <= j,
        level >= 1,
        forall|m: int| j <= m < end ==> #[trigger] b[m] != 125,
    ensures
        braced(b, j, end, level, seg, first) is None,
    decreases left(j, end),
{
    if j < end {
        assert(b[j] != 125);
        if b[j] == 123 {
            lemma_no_brace(b, j + 1, end, level + 1, seg, first);
        } else if b[j] == 92 {
            lemma_escape_len(b, j, end);
            let n = escape_len(b, j, end);
            lemma_no_brace(b, j + n, end, level, j + n, false);
            lemma_no_brace(b, j + n, end, level, seg, first);
        } else {
            lemma_no_brace(b, j + 1, end, level, seg, first);
        }
    }
}

/// A word in quotes goes from quote to quote, and its components are read as in a bare
/// word, but up to the closing quote; without one it is incomplete from where it begins.
#[verifier::spinoff_prover]
#[verifier::rlimit(40)]
pub proof fn a_quoted_word_ends_with_its_quote(b: Seq<u8>, k: int, end: int, nested: bool)
    requires
        0 <= k < end <= usize::MAX,
        b[k] == 34,
    ensures
        match components(b, k + 1, end, Stop::Quote) {
            Ok(t) => if t.next < end {
                &&& b[t.next] == 34
                &&& word_body(b, k, end, nested) is Ok
                &&& word_body(b, k, end, nested)->Ok_0.next == t.next + 1
                &&& t.tokens.len() > 0 ==> word_body(b, k, end, nested)->Ok_0.tokens == t.tokens
                &&& t.tokens.len() == 0 ==> word_body(b, k, end, nested)->Ok_0.tokens == seq![
                    one_token(TokenKind::Text, k + 1, k + 1, 0),
                ]
            } else {
                word_body(b, k, end, nested) == Err::<Tokens, ParseError>(
                    ParseError { offset: k as usize, incomplete: true },
                )
            },
            Err(e) => word_body(b, k, end, nested) == Err::<Tokens, ParseError>(e),
        },
{
    lemma_components(b, k + 1, end, Stop::Quote);
    lemma_components_stop(b, k + 1, end, Stop::Quote);
    if k + 1 < end {
        lemma_empty_components(b, k + 1, end);
    }
}

proof fn lemma_empty_components(b: Seq<u8>, i: int, end: int)
    requires
        0 <= i < end <= usize::MAX,
    ensures
        components(b, i, end, Stop::Quote) matches Ok(t) ==> (t.tokens.len() == 0 ==> t.next == i),
{
    if b[i] != 34 {
        lemma_components(b, i, end, Stop::Quote);
        if b[i] == 36 {
            lemma_variable(b, i, end);
        } else if b[i] == 91 {
            lemma_bracket_end(b, i + 1, end, i);
        } else if b[i] == 92 {
            lemma_escape_len(b, i, end);
        }
    }
}

/// A bare word of plain characters is a literal that covers them all.
#[verifier::spinoff_prover]
#[verifier::rlimit(40)]
pub proof fn a_bare_word_is_a_literal(b: Seq<u8>, i: int, j: int, end: int, nested: bool)
    requires
        0 <= i < j <= end <= usize::MAX,
        b[i] != 34,
        b[i] != 123,
        forall|k: int| i <= k < j ==> in_text(#[trigger] b[k], Stop::Word { nested }),
        j < end ==> in_blank(b[j]) || b[j] == 10 || b[j] == 59 || (nested && b[j] == 93),
    ensures
        word(b, i, end, nested) == Ok::<WordTokens, ParseError>(
            WordTokens {
                tokens: seq![
                    one_token(TokenKind::SimpleWord, i, j, 1),
                    one_token(TokenKind::Text, i, j, 0),
                ],
                count: 1,
                next: j,
            },
        ),
{
    let stop = Stop::Word { nested };
    assert(in_text(b[i], stop));
    plain_text_is_one_token(b, i, j, end, stop);
    components_end_with_what_they_are_in(b, j, end, stop);
    let t = seq![one_token(TokenKind::Text, i, j, 0)];
    assert(t + Seq::<Token>::empty() =~= t);
    assert(word_body(b, i, end, nested) == Ok::<Tokens, ParseError>(
        Tokens { tokens: t, next: j },
    ));
    a_word_is_a_head_with_its_components(b, i, end, nested);
    assert(seq![one_token(TokenKind::SimpleWord, i, j, 1)] + t =~= seq![
        one_token(TokenKind::SimpleWord, i, j, 1),
        one_token(TokenKind::Text, i, j, 0),
    ]);
}

/// A word that is no expansion is a head token over all of it, with its components behind:
/// a literal one where there is a single text.
#[verifier::spinoff_prover]
#[verifier::rlimit(40)]
pub proof fn a_word_is_a_head_with_its_components(b: Seq<u8>, j: int, end: int, nested: bool)
    requires
        0 <= j < end <= usize::MAX,
        !(j + 2 < end && b[j] == 123 && b[j + 1] == 42 && b[j + 2] == 125),
    ensures
        match word_body(b, j, end, nested) {
            Ok(t) => word(b, j, end, nested) == Ok::<WordTokens, ParseError>(
                WordTokens {
                    tokens: seq![
                        one_token(
                            if t.tokens.len() == 1 && t.tokens[0].kind is Text {
                                TokenKind::SimpleWord
                            } else {
                                TokenKind::Word
                            },
                            j,
                            t.next,
                            t.tokens.len() as int,
                        ),
                    ] + t.tokens,
                    count: 1,
                    next: t.next,
                },
            ),
            Err(e) => word(b, j, end, nested) == Err::<WordTokens, ParseError>(e),
        },
{
    reveal(word);
}

/// Whether a word could end at `k`: at the end, white space, a newline, a `;` or a line that
/// is continued.
pub open spec fn may_end_word(b: Seq<u8>, k: int, end: int) -> bool {
    k == end || in_blank(b[k]) || b[k] == 10 || b[k] == 59 || (k + 1 < end && b[k] == 92 && b[k + 1]
        == 10)
}

/// `{*}` at the front of a word, with more of the word at once behind it, expands the rest.
#[verifier::spinoff_prover]
#[verifier::rlimit(40)]
pub proof fn an_expansion_has_more_behind_it(b: Seq<u8>, j: int, end: int, nested: bool)
    requires
        0 <= j,
        j + 3 < end <= usize::MAX,
        b[j] == 123,
        b[j + 1] == 42,
        b[j + 2] == 125,
        !may_end_word(b, j + 3, end),
    ensures
        match word_body(b, j + 3, end, nested) {
            Ok(t) => word(b, j, end, nested) matches Ok(w) && w.next == t.next && w.tokens
                == expanded_word(b, j, t.next, t.tokens),
            Err(e) => word(b, j, end, nested) == Err::<WordTokens, ParseError>(e),
        },
{
    assert(expands(b, j, end));
    assert(word(b, j, end, nested) == match word_body(b, j + 3, end, nested) {
        Ok(t) => {
            let tokens = expanded_word(b, j, t.next, t.tokens);
            Ok(
                WordTokens {
                    tokens,
                    count: crate::grammar::expanded_count(tokens),
                    next: t.next,
                },
            )
        },
        Err(e) => Err(e),
    }) by {
        reveal(word);
    }
}

/// A word that is `{*}` alone is a braced word.
#[verifier::spinoff_prover]
#[verifier::rlimit(40)]
pub proof fn an_expansion_of_nothing_is_a_braced_word(b: Seq<u8>, j: int, end: int, nested: bool)
    requires
        0 <= j,
        j + 2 < end <= usize::MAX,
        b[j] == 123,
        b[j + 1] == 42,
        b[j + 2] == 125,
        may_end_word(b, j + 3, end),
    ensures
        word(b, j, end, nested) == Ok::<WordTokens, ParseError>(
            WordTokens {
                tokens: seq![
                    one_token(TokenKind::SimpleWord, j, j + 3, 1),
                    one_token(TokenKind::Text, j + 1, j + 2, 0),
                ],
                count: 1,
                next: j + 3,
            },
        ),
{
    assert(opened(b, j + 1, j + 1) == 0);
    assert(opened(b, j + 1, j + 2) == 0);
    a_braced_word_ends_with_its_brace(b, j, j + 2, end, nested);
    let t = word_body(b, j, end, nested)->Ok_0;
    assert(!expands(b, j, end));
    assert(word(b, j, end, nested) == Ok::<WordTokens, ParseError>(
        WordTokens { tokens: plain_word(j, t.next, t.tokens), count: 1, next: t.next },
    )) by {
        reveal(word);
    }
    assert(plain_word(j, t.next, t.tokens) =~= seq![
        one_token(TokenKind::SimpleWord, j, j + 3, 1),
        one_token(TokenKind::Text, j + 1, j + 2, 0),
    ]);
}

// ------------------------------------------------------------------- commands
/// White space between words is skipped: a blank, or a backslash at the end of a line.
#[verifier::spinoff_prover]
#[verifier::rlimit(40)]
pub proof fn blanks_separate_words(b: Seq<u8>, i: int, end: int, nested: bool)
    requires
        0 <= i < end,
    ensures
        in_blank(b[i]) ==> words(b, i, end, nested) == words(b, i + 1, end, nested),
        b[i] == 92 && i + 2 < end && b[i + 1] == 10 ==> words(b, i, end, nested) == words(
            b,
            i + 2,
            end,
            nested,
        ),
{
    reveal(words);
}

/// A newline or a `;` ends a command, and in brackets a `]`; so does the end of the text.
#[verifier::spinoff_prover]
#[verifier::rlimit(40)]
pub proof fn a_command_ends_with_a_newline_or_semicolon(
    b: Seq<u8>,
    i: int,
    end: int,
    nested: bool,
)
    requires
        0 <= i <= end,
        i < end ==> b[i] == 10 || b[i] == 59 || (nested && b[i] == 93),
    ensures
        words(b, i, end, nested) == Ok::<Words, ParseError>(
            Words {
                tokens: seq![],
                count: 0,
                term: i,
                next: if i < end {
                    i + 1
                } else {
                    i
                },
                more: false,
            },
        ),
{
    reveal(words);
}

/// The words of a command are its first word and then the words behind it. Characters
/// right behind a closing brace or quote are an error.
#[verifier::spinoff_prover]
#[verifier::rlimit(40)]
pub proof fn a_command_is_its_first_word_and_the_rest(
    b: Seq<u8>,
    i: int,
    end: int,
    nested: bool,
)
    requires
        0 <= i < end <= usize::MAX,
        !in_blank(b[i]),
        b[i] != 10,
        b[i] != 59,
        !(nested && b[i] == 93),
        !(i + 1 < end && b[i] == 92 && b[i + 1] == 10),
    ensures
        match word(b, i, end, nested) {
            Err(e) => words(b, i, end, nested) == Err::<Words, ParseError>(e),
            Ok(w) => {
                let k = w.next;
                if k == end || in_blank(b[k]) || b[k] == 10 || b[k] == 59 || (nested && b[k] == 93)
                    || (k + 1 < end && b[k] == 92 && b[k + 1] == 10) {
                    match words(b, k, end, nested) {
                        Ok(rest) => words(b, i, end, nested) == Ok::<Words, ParseError>(
                            Words {
                                tokens: w.tokens + rest.tokens,
                                count: w.count + rest.count,
                                term: rest.term,
                                next: rest.next,
                                more: rest.more,
                            },
                        ),
                        Err(e) => words(b, i, end, nested) == Err::<Words, ParseError>(e),
                    }
                } else {
                    words(b, i, end, nested) == Err::<Words, ParseError>(
                        ParseError { offset: k as usize, incomplete: false },
                    )
                }
            },
        },
{
    crate::placement::lemma_words_step(b, i, end, nested, Seq::empty(), 0);
    lemma_word(b, i, end, nested);
    assert(skip_blanks(b, i, end) == i);
    if let Ok(w) = word(b, i, end, nested) {
        assert(Seq::<Token>::empty() + w.tokens =~= w.tokens);
        if let Ok(all) = words(b, i, end, nested) {
            assert(Seq::<Token>::empty() + all.tokens =~= all.tokens);
        }
    }
}

/// White space before a command, newlines too, is no part of it.
#[verifier::spinoff_prover]
#[verifier::rlimit(40)]
pub proof fn space_before_a_command_is_skipped(b: Seq<u8>, i: int, end: int, nested: bool)
    requires
        0 <= i < end,
        in_blank(b[i]) || b[i] == 10,
    ensures
        match (command(b, i, end, nested), command(b, i + 1, end, nested)) {
            (Ok(p), Ok(q)) => {
                &&& p.start == q.start && p.words == q.words && p.count == q.count
                &&& p.term == q.term && p.next == q.next && p.comment == q.comment
            },
            (Err(d), Err(e)) => d == e,
            _ => false,
        },
{
    assert(skip_space(b, i, end) == skip_space(b, i + 1, end)) by {
        if b[i] == 10 {
            assert(skip_blanks(b, i, end) == i);
        }
    }
    assert(lead(b, i, end).next == lead(b, i + 1, end).next);
    assert(lead(b, i, end).comment == lead(b, i + 1, end).comment);
}

/// A line that begins with `#` where a command could begin is a comment: the command is the
/// one behind it, and the comment goes from its `#` to the end of the last such line.
#[verifier::spinoff_prover]
#[verifier::rlimit(40)]
pub proof fn a_comment_line_is_skipped(b: Seq<u8>, i: int, j: int, end: int, nested: bool)
    requires
        0 <= i < j < end,
        b[i] == 35,
        b[j] == 10,
        forall|k: int| i <= k < j ==> #[trigger] b[k] != 10 && b[k] != 92,
    ensures
        match (command(b, i, end, nested), command(b, j + 1, end, nested)) {
            (Ok(p), Ok(q)) => {
                &&& p.start == q.start && p.words == q.words && p.count == q.count
                &&& p.term == q.term && p.next == q.next
                &&& q.comment is None ==> p.comment == Some((i, j + 1))
                &&& q.comment matches Some(c) ==> p.comment == Some((i, c.1))
            },
            (Err(d), Err(e)) => d == e,
            _ => false,
        },
{
    lemma_comment_run(b, i, j, end);
    assert(skip_blanks(b, i, end) == i);
    assert(skip_space(b, i, end) == i);
}

proof fn lemma_comment_run(b: Seq<u8>, i: int, j: int, end: int)
    requires
        0 <= i <= j < end,
        b[j] == 10,
        forall|k: int| i <= k < j ==> #[trigger] b[k] != 10 && b[k] != 92,
    ensures
        comment_end(b, i, end) == j + 1,
    decreases j - i,
{
    if i < j {
        assert(b[i] != 10 && b[i] != 92);
        lemma_comment_run(b, i + 1, j, end);
    }
}

/// A backslash carries a comment over the end of its line.
pub proof fn a_comment_may_be_continued(b: Seq<u8>, j: int, end: int)
    requires
        0 <= j,
        j + 2 < end,
        b[j] == 92,
        b[j + 1] == 10,
        !in_blank(b[j + 2]),
        !(j + 3 < end && b[j + 2] == 92 && b[j + 3] == 10),
    ensures
        comment_end(b, j, end) == comment_end(b, j + 2, end),
{
    assert(skip_blanks(b, j + 2, end) == j + 2);
    assert(skip_blanks(b, j, end) == j + 2);
}

// ---------------------------------------------------------------------- lists
/// White space between the elements of a list: that between words, and newlines.
pub open spec fn in_list_space(c: u8) -> bool {
    in_blank(c) || c == 10
}

proof fn lemma_list_space_run(b: Seq<u8>, i: int, j: int, end: int)
    requires
        0 <= i <= j <= end,
        forall|k: int| i <= k < j ==> in_list_space(#[trigger] b[k]),
        j < end ==> !in_list_space(b[j]),
    ensures
        skip_list_space(b, i, end) == j,
    decreases j - i,
{
    if i < j {
        assert(in_list_space(b[i]));
        lemma_list_space_run(b, i + 1, j, end);
    }
}

proof fn lemma_bare_element_run(b: Seq<u8>, i: int, j: int, end: int)
    requires
        0 <= i <= j <= end,
        forall|k: int| i <= k < j ==> !in_list_space(#[trigger] b[k]) && b[k] != 92,
        j < end ==> in_list_space(b[j]),
    ensures
        bare_element_end(b, i, end) == Some(j),
    decreases j - i,
{
    if i < j {
        assert(!in_list_space(b[i]) && b[i] != 92);
        lemma_bare_element_run(b, i + 1, j, end);
    }
}

/// A bare element of a literal list, up to white space or the end of the list, is a word of
/// its own, and the elements behind it follow.
pub proof fn a_bare_element_is_a_word(b: Seq<u8>, i: int, j: int, m: int, end: int, list: int)
    requires
        0 <= list <= i < j <= m <= end <= usize::MAX,
        b[i] != 123,
        b[i] != 34,
        list < i ==> in_list_space(b[i - 1]),
        forall|k: int| i <= k < j ==> !in_list_space(#[trigger] b[k]) && b[k] != 92,
        forall|k: int| j <= k < m ==> in_list_space(#[trigger] b[k]),
        j < end ==> j < m,
        m < end ==> !in_list_space(b[m]),
    ensures
        match elements(b, m, end, list) {
            Some(rest) => elements(b, i, end, list) == Some(
                seq![
                    one_token(TokenKind::SimpleWord, i, j, 1),
                    one_token(TokenKind::Text, i, j, 0),
                ] + rest,
            ),
            None => elements(b, i, end, list) is None,
        },
        elements(b, end, end, list) == Some(Seq::<Token>::empty()),
{
    if j < end {
        assert(in_list_space(b[j]));
    }
    lemma_bare_element_run(b, i, j, end);
    lemma_list_space_run(b, j, m, end);
    let e = element(b, i, end)->0;
    assert(e.start == i && e.size == j - i && e.next == m);
    assert(element_tokens(b, e, list) =~= seq![
        one_token(TokenKind::SimpleWord, i, j, 1),
        one_token(TokenKind::Text, i, j, 0),
    ]);
}

/// A braced element goes from brace to brace, and its text is what is between.
pub proof fn a_braced_element_is_a_word(b: Seq<u8>, i: int, j: int, m: int, end: int, list: int)
    requires
        0 <= list <= i < j < m <= end <= usize::MAX,
        b[i] == 123,
        b[j] == 125,
        forall|k: int| i < k < j ==> #[trigger] b[k] != 123 && b[k] != 125 && b[k] != 92,
        forall|k: int| j < k < m ==> in_list_space(#[trigger] b[k]),
        j + 1 < end ==> j + 1 < m,
        m < end ==> !in_list_space(b[m]),
    ensures
        match elements(b, m, end, list) {
            Some(rest) => elements(b, i, end, list) == Some(
                seq![
                    one_token(TokenKind::SimpleWord, i, j + 1, 1),
                    one_token(TokenKind::Text, i + 1, j, 0),
                ] + rest,
            ),
            None => elements(b, i, end, list) is None,
        },
{
    lemma_braced_element_run(b, i + 1, j, end);
    if j + 1 < end {
        assert(in_list_space(b[j + 1]));
    }
    lemma_list_space_run(b, j + 1, m, end);
    let e = element(b, i, end)->0;
    assert(e.start == i + 1 && e.size == j - (i + 1) && e.next == m);
    assert(element_tokens(b, e, list) =~= seq![
        one_token(TokenKind::SimpleWord, i, j + 1, 1),
        one_token(TokenKind::Text, i + 1, j, 0),
    ]);
}

proof fn lemma_braced_element_run(b: Seq<u8>, i: int, j: int, end: int)
    requires
        0 <= i <= j < end,
        b[j] == 125,
        forall|k: int| i <= k < j ==> #[trigger] b[k] != 123 && b[k] != 125 && b[k] != 92,
    ensures
        braced_element_end(b, i, end, 1) == Some(j),
    decreases j - i,
{
    if i < j {
        assert(b[i] != 123 && b[i] != 125 && b[i] != 92);
        lemma_braced_element_run(b, i + 1, j, end);
    }
}

/// What is expanded and is no literal list stays one word, to be expanded when the command
/// runs: its token covers the `{*}` too, and its components follow.
pub proof fn a_computed_expansion_is_one_word(
    b: Seq<u8>,
    start: int,
    next: int,
    parts: Seq<Token>,
    k: int,
)
    requires
        0 <= k < parts.len(),
        !(parts[k].kind is Text),
    ensures
        expanded_word(b, start, next, parts) == seq![
            one_token(TokenKind::ExpandWord, start, next, parts.len() as int),
        ] + parts,
{
}

// --------------------------------------------------------------- completeness
/// A line that ends the input with a backslash asks for another; a script with one is not
/// complete.
pub proof fn a_continued_line_asks_for_more(b: Seq<u8>, i: int, end: int, nested: bool)
    requires
        0 <= i,
        i + 2 == end,
        b[i] == 92,
        b[i + 1] == 10,
    ensures
        words(b, i, end, nested) == Ok::<Words, ParseError>(
            Words { tokens: seq![], count: 0, term: end, next: end, more: true },
        ),
{
    reveal(words);
    assert(skip_blanks(b, end, end) == end);
    assert(skip_blanks(b, i, end) == end);
}

/// A script is complete if its last command is: each before it ends with its terminator. One
/// that cannot be read is complete if more input would not mend it.
pub proof fn a_script_is_complete_if_its_last_command_is(b: Seq<u8>, i: int, end: int)
    requires
        0 <= i <= end <= usize::MAX,
    ensures
        match command(b, i, end, false) {
            Ok(p) => if p.next < end && i < end {
                complete_from(b, i, end) == complete_from(b, p.next, end)
            } else {
                complete_from(b, i, end) == !p.more
            },
            Err(e) => complete_from(b, i, end) == !e.incomplete,
        },
{
    lemma_command(b, i, end, false);
}

/// `\\U` takes its digits, up to five of them in any case.
pub proof fn long_escapes_take_their_digits(b: Seq<u8>, i: int, n: int, end: int)
    requires
        0 <= i,
        0 <= n <= 5,
        i + 2 + n <= end,
        b[i] == 92,
        b[i + 1] == 85,
        forall|k: int| i + 2 <= k < i + 2 + n ==> in_hex(#[trigger] b[k]),
        i + 2 + n < end ==> !in_hex(b[i + 2 + n]),
    ensures
        escape_len(b, i, end) == 2 + n,
{
    lemma_long_count(b, i + 2, n, end, 8, 0, 1);
}

proof fn lemma_long_count(
    b: Seq<u8>,
    i: int,
    n: int,
    end: int,
    most: nat,
    value: int,
    bound: int,
)
    requires
        0 <= i,
        0 <= n <= 5,
        n <= most,
        i + n <= end,
        forall|k: int| i <= k < i + n ==> in_hex(#[trigger] b[k]),
        i + n == end || !in_hex(b[i + n]),
        0 <= value < bound,
        n == 5 ==> bound <= 1,
        n == 4 ==> bound <= 16,
        n == 3 ==> bound <= 256,
        n == 2 ==> bound <= 4096,
        n == 1 ==> bound <= 65536,
    ensures
        hex_run(b, i, end, most, value) == n,
    decreases n,
{
    if n > 0 {
        assert(in_hex(b[i]));
        assert(0 <= hex_value(b[i]) < 16);
        assert(value * 16 + hex_value(b[i]) < bound * 16);
        lemma_long_count(
            b,
            i + 1,
            n - 1,
            end,
            (most - 1) as nat,
            value * 16 + hex_value(b[i]),
            bound * 16,
        );
    }
}

// -------------------------------------------------------------------- results
/// A command that begins at once has no comment, begins where it is read, and has the words
/// that are there.
#[verifier::spinoff_prover]
#[verifier::rlimit(40)]
pub proof fn a_command_begins_with_its_first_word(b: Seq<u8>, i: int, end: int, nested: bool)
    requires
        0 <= i < end <= usize::MAX,
        !in_blank(b[i]),
        b[i] != 10,
        b[i] != 35,
        !(i + 1 < end && b[i] == 92 && b[i + 1] == 10),
    ensures
        match words(b, i, end, nested) {
            Ok(w) => command(b, i, end, nested) matches Ok(p) && p.comment is None && p.start == i
                && p.words == w.tokens && p.count == w.count && p.term == w.term && p.next
                == w.next,
            Err(e) => command(b, i, end, nested) matches Err(x) && x == e,
        },
{
    assert(skip_blanks(b, i, end) == i);
    assert(skip_space(b, i, end) == i);
    assert(lead(b, i, end).next == i);
}

/// What a caller is told of a command: its comment, its range from its first word to where
/// the next command may begin, its number of words and its tokens.
pub proof fn a_command_ranges_over_its_terminator(b: Seq<u8>, i: int, end: int, nested: bool)
    requires
        0 <= i <= end <= usize::MAX,
    ensures
        match command(b, i, end, nested) {
            Ok(p) => {
                &&& parsed_command(b, i, end, nested) is Ok
                &&& parsed_command(b, i, end, nested)->Ok_0.range.start == p.start
                &&& parsed_command(b, i, end, nested)->Ok_0.range.end == p.next
                &&& parsed_command(b, i, end, nested)->Ok_0.num_words == p.count
                &&& parsed_command(b, i, end, nested)->Ok_0.tokens == p.words
                &&& p.comment is None ==> parsed_command(b, i, end, nested)->Ok_0.comment is None
                &&& p.comment matches Some(c) ==> parsed_command(b, i, end, nested)->Ok_0.comment
                    is Some && parsed_command(b, i, end, nested)->Ok_0.comment->0.start == c.0
                    && parsed_command(b, i, end, nested)->Ok_0.comment->0.end == c.1
                &&& p.term < end ==> p.next == p.term + 1 && (b[p.term] == 10 || b[p.term] == 59 || (
                nested && b[p.term] == 93))
                &&& p.term >= end ==> p.next == end
            },
            Err(e) => parsed_command(b, i, end, nested) == Err::<
                crate::token::CommandView,
                ParseError,
            >(e),
        },
{
    lemma_command(b, i, end, nested);
}

/// The commands of a script follow each other, each where the one before ends; one without
/// words is left out, and one that cannot be read is the last.
pub proof fn commands_follow_each_other(b: Seq<u8>, i: int, end: int)
    requires
        0 <= i < end <= usize::MAX,
    ensures
        match parsed_command(b, i, end, false) {
            Ok(c) => commands(b, i, end) == if c.num_words == 0 {
                commands(b, c.range.end as int, end)
            } else {
                seq![Ok(c)] + commands(b, c.range.end as int, end)
            },
            Err(e) => commands(b, i, end) == seq![
                Err::<crate::token::CommandView, ParseError>(e),
            ],
        },
        commands(b, end, end).len() == 0,
{
    lemma_command(b, i, end, false);
}

/// A `${` whose name is not closed is an incomplete command, in error at its brace.
pub proof fn an_open_braced_name_is_incomplete(b: Seq<u8>, i: int, end: int)
    requires
        0 <= i,
        i + 1 < end <= usize::MAX,
        b[i] == 36,
        b[i + 1] == 123,
        forall|k: int| i + 2 <= k < end ==> #[trigger] b[k] != 125,
    ensures
        variable(b, i, end) matches Err(e) && e.offset == i + 1 && e.incomplete,
{
    lemma_byte_missing(b, i + 2, end);
}

proof fn lemma_byte_missing(b: Seq<u8>, i: int, end: int)
    requires
        0 <= i <= end,
        forall|k: int| i <= k < end ==> #[trigger] b[k] != 125,
    ensures
        find_byte(b, i, end, 125) == end,
    decreases end - i,
{
    if i < end {
        lemma_byte_missing(b, i + 1, end);
    }
}

/// A comment goes on in the next line where its last byte is a backslash; at the end of the
/// text it asks for that line.
pub proof fn a_continued_comment_asks_for_more(b: Seq<u8>, i: int, j: int, end: int)
    requires
        0 <= i <= j < end,
        forall|k: int| i <= k < j ==> #[trigger] b[k] != 10 && b[k] != 92,
    ensures
        b[j] == 92 && j + 2 == end && b[j + 1] == 10 ==> crate::grammar::comment_asks_for_more(
            b,
            i,
            end,
        ),
        b[j] == 10 ==> !crate::grammar::comment_asks_for_more(b, i, end),
    decreases j - i,
{
    if i < j {
        assert(b[i] != 10 && b[i] != 92);
        a_continued_comment_asks_for_more(b, i + 1, j, end);
    } else {
        reveal_with_fuel(skip_blanks, 2);
        reveal_with_fuel(crate::grammar::blanks_ask_for_more, 2);
    }
}

/// What stands before a command is incomplete where a comment there is.
pub proof fn an_open_comment_before_a_command_asks_for_more(b: Seq<u8>, i: int, end: int)
    requires
        0 <= i < end,
        b[i] == 35,
        crate::grammar::comment_asks_for_more(b, i, end),
    ensures
        lead(b, i, end).more,
{
    assert(skip_blanks(b, i, end) == i);
    assert(skip_space(b, i, end) == i);
}

} // verus!

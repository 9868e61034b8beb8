//! The grammar of Tcl commands, as functions from bytes to tokens.
//!
//! Each function reads the bytes `b` from position `i` up to, not including,
//! `end`. A script splits into commands, a command into words, a word into
//! components; nested `[...]` scripts are read with the same rules, with a `]`
//! among the command terminators.
//!
//! The rules are those of libtcl 8.6, patch levels 13 and 15, which read alike.
use core::ops::Range;
use vstd::prelude::*;

use crate::token::{CommandView, ParseError, Token, TokenKind};

verus! {

pub const NUL: u8 = 0;

pub const TAB: u8 = 9;

pub const NEWLINE: u8 = 10;

pub const VERTICAL_TAB: u8 = 11;

pub const FORM_FEED: u8 = 12;

pub const RETURN: u8 = 13;

pub const SPACE: u8 = 32;

pub const QUOTE: u8 = 34;

pub const HASH: u8 = 35;

pub const DOLLAR: u8 = 36;

pub const OPEN_PAREN: u8 = 40;

pub const CLOSE_PAREN: u8 = 41;

pub const STAR: u8 = 42;

pub const COLON: u8 = 58;

pub const SEMICOLON: u8 = 59;

pub const OPEN_BRACKET: u8 = 91;

pub const BACKSLASH: u8 = 92;

pub const CLOSE_BRACKET: u8 = 93;

pub const OPEN_BRACE: u8 = 123;

pub const CLOSE_BRACE: u8 = 125;

/// How many bytes are left to read at `i`.
pub open spec fn left(i: int, end: int) -> nat {
    if i < end {
        (end - i) as nat
    } else {
        0
    }
}

/// The later of `to` and the position after `from`. A parse always moves
/// forward, so this is `to` wherever it is used; it makes that evident.
pub open spec fn onward(from: int, to: int) -> int {
    if to > from {
        to
    } else {
        from + 1
    }
}

// ---------------------------------------------------------------- characters
/// Space that separates words within a command.
pub open spec fn is_blank(c: u8) -> bool {
    c == TAB || c == VERTICAL_TAB || c == FORM_FEED || c == RETURN || c == SPACE
}

/// Space that separates the elements of a list.
pub open spec fn is_list_space(c: u8) -> bool {
    is_blank(c) || c == NEWLINE
}

/// A byte that ends a command; `]` does so only inside brackets.
pub open spec fn ends_command(c: u8, nested: bool) -> bool {
    c == NEWLINE || c == SEMICOLON || (nested && c == CLOSE_BRACKET)
}

/// A byte that starts a substitution, or a NUL, which stands alone.
pub open spec fn starts_substitution(c: u8) -> bool {
    c == NUL || c == DOLLAR || c == OPEN_BRACKET || c == BACKSLASH
}

pub open spec fn is_hex_digit(c: u8) -> bool {
    48 <= c <= 57 || 65 <= c <= 70 || 97 <= c <= 102
}

pub open spec fn is_octal_digit(c: u8) -> bool {
    48 <= c <= 55
}

/// A letter, digit or underscore of ASCII: what a variable name is made of.
pub open spec fn is_name_byte(c: u8) -> bool {
    48 <= c <= 57 || 65 <= c <= 90 || 97 <= c <= 122 || c == 95
}

pub open spec fn hex_value(c: u8) -> int {
    if c <= 57 {
        c - 48
    } else if c <= 70 {
        c - 55
    } else {
        c - 87
    }
}

/// Number of bytes in the UTF-8 sequence that a byte begins.
pub open spec fn utf8_width(c: u8) -> int {
    if 0xC0 <= c < 0xE0 {
        2
    } else if 0xE0 <= c < 0xF0 {
        3
    } else if 0xF0 <= c < 0xF8 {
        4
    } else {
        1
    }
}

// --------------------------------------------------------------- white space
/// Whether a backslash-newline stands at `i`: it counts as blank space.
pub open spec fn continues_line(b: Seq<u8>, i: int, end: int) -> bool {
    i + 1 < end && b[i] == BACKSLASH && b[i + 1] == NEWLINE
}

/// The end of the run of blanks and backslash-newlines at `i`.
pub open spec fn skip_blanks(b: Seq<u8>, i: int, end: int) -> int
    decreases left(i, end),
{
    if i < end && is_blank(b[i]) {
        skip_blanks(b, i + 1, end)
    } else if continues_line(b, i, end) {
        skip_blanks(b, i + 2, end)
    } else {
        i
    }
}

/// Whether the run of blanks at `i` ends the input with a backslash-newline,
/// which asks for another line.
pub open spec fn blanks_ask_for_more(b: Seq<u8>, i: int, end: int) -> bool
    decreases left(i, end),
{
    if i < end && is_blank(b[i]) {
        blanks_ask_for_more(b, i + 1, end)
    } else if continues_line(b, i, end) {
        i + 2 == end || blanks_ask_for_more(b, i + 2, end)
    } else {
        false
    }
}

/// The end of the white space at `i`, newlines among it.
pub open spec fn skip_space(b: Seq<u8>, i: int, end: int) -> int
    decreases left(i, end),
{
    proof {
        lemma_skip_blanks(b, i, end);
    }
    let j = skip_blanks(b, i, end);
    if j < end && b[j] == NEWLINE {
        skip_space(b, j + 1, end)
    } else {
        j
    }
}

pub open spec fn space_asks_for_more(b: Seq<u8>, i: int, end: int) -> bool
    decreases left(i, end),
{
    proof {
        lemma_skip_blanks(b, i, end);
    }
    let j = skip_blanks(b, i, end);
    blanks_ask_for_more(b, i, end) || (j < end && b[j] == NEWLINE && space_asks_for_more(
        b,
        j + 1,
        end,
    ))
}

pub proof fn lemma_skip_blanks(b: Seq<u8>, i: int, end: int)
    ensures
        i <= skip_blanks(b, i, end),
        i <= end ==> skip_blanks(b, i, end) <= end,
        skip_blanks(b, i, end) < end ==> !is_blank(b[skip_blanks(b, i, end)])
            && !continues_line(b, skip_blanks(b, i, end), end),
    decreases left(i, end),
{
    if i < end && is_blank(b[i]) {
        lemma_skip_blanks(b, i + 1, end);
    } else if continues_line(b, i, end) {
        lemma_skip_blanks(b, i + 2, end);
    }
}

pub proof fn lemma_skip_space(b: Seq<u8>, i: int, end: int)
    ensures
        i <= skip_space(b, i, end),
        i <= end ==> skip_space(b, i, end) <= end,
    decreases left(i, end),
{
    lemma_skip_blanks(b, i, end);
    let j = skip_blanks(b, i, end);
    if j < end && b[j] == NEWLINE {
        lemma_skip_space(b, j + 1, end);
    }
}

// -------------------------------------------------------------------- escapes
/// Number of hexadecimal digits at `i`, at most `most` of them; digits stop
/// counting once their value, `value` so far, is past the last Unicode plane.
pub open spec fn hex_run(b: Seq<u8>, i: int, end: int, most: nat, value: int) -> nat
    decreases most,
{
    if most > 0 && i < end && is_hex_digit(b[i]) && value <= 0x10fff {
        1 + hex_run(b, i + 1, end, (most - 1) as nat, value * 16 + hex_value(b[i]))
    } else {
        0
    }
}

/// The end of the run of spaces and tabs at `i`.
pub open spec fn skip_indent(b: Seq<u8>, i: int, end: int) -> int
    decreases left(i, end),
{
    if i < end && (b[i] == SPACE || b[i] == TAB) {
        skip_indent(b, i + 1, end)
    } else {
        i
    }
}

/// Length of the escape sequence whose backslash stands at `i`. It is 1 for a
/// backslash with nothing to escape: the last byte, or one before a NUL. A character that
/// stands for itself is escaped as a whole, whatever number of bytes it has.
pub open spec fn escape_len(b: Seq<u8>, i: int, end: int) -> int {
    let room = end - i;
    let c = b[i + 1];
    if room <= 1 || c == NUL {
        1
    } else if c == 120 {  // \xHH
        2 + (hex_run(b, i + 2, end, 2, 0) as int)
    } else if c == 117 {  // \uHHHH
        2 + (hex_run(b, i + 2, end, 4, 0) as int)
    } else if c == 85 {  // \UHHHHHHHH
        2 + (hex_run(b, i + 2, end, 8, 0) as int)
    } else if c == NEWLINE {
        skip_indent(b, i + 2, end) - i
    } else if is_octal_digit(c) {
        if room == 2 || !is_octal_digit(b[i + 2]) {
            2
        } else if room == 3 || !is_octal_digit(b[i + 3]) || c >= 52 {
            3
        } else {
            4
        }
    } else if utf8_width(c) < room - 1 {
        1 + utf8_width(c)
    } else {
        room
    }
}

pub proof fn lemma_hex_run(b: Seq<u8>, i: int, end: int, most: nat, value: int)
    ensures
        hex_run(b, i, end, most, value) <= most,
        hex_run(b, i, end, most, value) <= left(i, end),
    decreases most,
{
    if most > 0 && i < end && is_hex_digit(b[i]) && value <= 0x10fff {
        lemma_hex_run(b, i + 1, end, (most - 1) as nat, value * 16 + hex_value(b[i]));
    }
}

pub proof fn lemma_skip_indent(b: Seq<u8>, i: int, end: int)
    ensures
        i <= skip_indent(b, i, end),
        i <= end ==> skip_indent(b, i, end) <= end,
    decreases left(i, end),
{
    if i < end && (b[i] == SPACE || b[i] == TAB) {
        lemma_skip_indent(b, i + 1, end);
    }
}

pub proof fn lemma_escape_len(b: Seq<u8>, i: int, end: int)
    requires
        i < end,
    ensures
        1 <= escape_len(b, i, end) <= end - i,
        continues_line(b, i, end) ==> escape_len(b, i, end) >= 2,
{
    lemma_hex_run(b, i + 2, end, 2, 0);
    lemma_hex_run(b, i + 2, end, 4, 0);
    lemma_hex_run(b, i + 2, end, 8, 0);
    lemma_skip_indent(b, i + 2, end);
}

// ------------------------------------------------------------------- comments
/// The end of the comment line that is being read at `i`: after its newline. A
/// backslash carries the comment over the end of a line.
pub open spec fn comment_end(b: Seq<u8>, i: int, end: int) -> int
    decreases left(i, end),
{
    proof {
        lemma_skip_blanks(b, i, end);
        if i < end {
            lemma_escape_len(b, i, end);
        }
    }
    if i >= end {
        i
    } else if b[i] == BACKSLASH {
        if skip_blanks(b, i, end) > i {
            comment_end(b, skip_blanks(b, i, end), end)
        } else {
            comment_end(b, i + escape_len(b, i, end), end)
        }
    } else if b[i] == NEWLINE {
        i + 1
    } else {
        comment_end(b, i + 1, end)
    }
}

pub open spec fn comment_asks_for_more(b: Seq<u8>, i: int, end: int) -> bool
    decreases left(i, end),
{
    proof {
        lemma_skip_blanks(b, i, end);
        if i < end {
            lemma_escape_len(b, i, end);
        }
    }
    if i >= end {
        false
    } else if b[i] == BACKSLASH {
        if skip_blanks(b, i, end) > i {
            blanks_ask_for_more(b, i, end) || comment_asks_for_more(
                b,
                skip_blanks(b, i, end),
                end,
            )
        } else {
            comment_asks_for_more(b, i + escape_len(b, i, end), end)
        }
    } else if b[i] == NEWLINE {
        false
    } else {
        comment_asks_for_more(b, i + 1, end)
    }
}

pub proof fn lemma_comment_end(b: Seq<u8>, i: int, end: int)
    requires
        i <= end,
    ensures
        i <= comment_end(b, i, end) <= end,
        i < end ==> i < comment_end(b, i, end),
    decreases left(i, end),
{
    if i < end {
        lemma_skip_blanks(b, i, end);
        lemma_escape_len(b, i, end);
        if b[i] == BACKSLASH {
            if skip_blanks(b, i, end) > i {
                lemma_comment_end(b, skip_blanks(b, i, end), end);
            } else {
                lemma_comment_end(b, i + escape_len(b, i, end), end);
            }
        } else if b[i] != NEWLINE {
            lemma_comment_end(b, i + 1, end);
        }
    }
}

/// What precedes a command.
pub struct Lead {
    /// The block of comment lines, from its first `#` to the end of its last line.
    pub comment: Option<(int, int)>,
    /// Where the command begins.
    pub next: int,
    /// Whether the input ends with a backslash-newline here.
    pub more: bool,
}

/// The white space and comment lines at `i`.
pub open spec fn lead(b: Seq<u8>, i: int, end: int) -> Lead
    decreases left(i, end),
{
    proof {
        lemma_skip_space(b, i, end);
    }
    let j = skip_space(b, i, end);
    let more = space_asks_for_more(b, i, end);
    if i <= end && j < end && b[j] == HASH {
        proof {
            lemma_comment_end(b, j, end);
        }
        let k = comment_end(b, j, end);
        let rest = lead(b, k, end);
        Lead {
            comment: Some(
                (
                    j,
                    match rest.comment {
                        Some((_, last)) => last,
                        None => k,
                    },
                ),
            ),
            next: rest.next,
            more: more || comment_asks_for_more(b, j, end) || rest.more,
        }
    } else {
        Lead { comment: None, next: j, more }
    }
}

pub proof fn lemma_lead(b: Seq<u8>, i: int, end: int)
    requires
        i <= end,
    ensures
        i <= lead(b, i, end).next <= end,
        lead(b, i, end).comment matches Some(c) ==> i <= c.0 < c.1 <= lead(b, i, end).next,
    decreases left(i, end),
{
    lemma_skip_space(b, i, end);
    let j = skip_space(b, i, end);
    if j < end && b[j] == HASH {
        lemma_comment_end(b, j, end);
        lemma_lead(b, comment_end(b, j, end), end);
    }
}

// --------------------------------------------------------------------- tokens
/// A token of `size` bytes at `start`, with `parts` components.
pub open spec fn token(kind: TokenKind, start: int, size: int, parts: int) -> Token {
    Token {
        kind,
        start: start as usize,
        size: size as usize,
        num_components: parts as usize,
    }
}

pub open spec fn text_token(start: int, size: int) -> Token {
    token(TokenKind::Text, start, size, 0)
}

pub open spec fn failure(at: int, incomplete: bool) -> ParseError {
    ParseError { offset: at as usize, incomplete }
}

/// Tokens, and where the text that they stand for ends.
#[verifier::ext_equal]
pub struct Tokens {
    pub tokens: Seq<Token>,
    pub next: int,
}

/// A result with tokens put in front.
pub open spec fn after(
    first: Seq<Token>,
    rest: Result<Tokens, ParseError>,
) -> Result<Tokens, ParseError> {
    match rest {
        Ok(t) => Ok(Tokens { tokens: first + t.tokens, next: t.next }),
        Err(e) => Err(e),
    }
}

/// What ends a run of components.
#[derive(Debug, Clone, Copy, PartialEq, Eq, Structural)]
pub enum Stop {
    /// The end of an unquoted word.
    Word { nested: bool },
    /// The closing quote of a quoted word.
    Quote,
    /// The closing parenthesis of an array index.
    Paren,
}

pub open spec fn stops(c: u8, stop: Stop) -> bool {
    match stop {
        Stop::Word { nested } => is_blank(c) || ends_command(c, nested),
        Stop::Quote => c == QUOTE,
        Stop::Paren => c == CLOSE_PAREN,
    }
}

/// The end of the run of plain characters at `i`.
pub open spec fn text_end(b: Seq<u8>, i: int, end: int, stop: Stop) -> int
    decreases left(i, end),
{
    if i < end && !stops(b[i], stop) && !starts_substitution(b[i]) {
        text_end(b, i + 1, end, stop)
    } else {
        i
    }
}

pub proof fn lemma_text_end(b: Seq<u8>, i: int, end: int, stop: Stop)
    ensures
        i <= text_end(b, i, end, stop),
        i <= end ==> text_end(b, i, end, stop) <= end,
    decreases left(i, end),
{
    if i < end && !stops(b[i], stop) && !starts_substitution(b[i]) {
        lemma_text_end(b, i + 1, end, stop);
    }
}

/// The end of the variable name at `i`: name characters, and runs of two or
/// more colons.
pub open spec fn name_end(b: Seq<u8>, i: int, end: int) -> int
    decreases left(i, end),
{
    if i < end && is_name_byte(b[i]) {
        name_end(b, i + 1, end)
    } else if i + 1 < end && b[i] == COLON && b[i + 1] == COLON {
        proof {
            lemma_skip_colons(b, i + 2, end);
        }
        name_end(b, skip_colons(b, i + 2, end), end)
    } else {
        i
    }
}

pub open spec fn skip_colons(b: Seq<u8>, i: int, end: int) -> int
    decreases left(i, end),
{
    if i < end && b[i] == COLON {
        skip_colons(b, i + 1, end)
    } else {
        i
    }
}

pub proof fn lemma_skip_colons(b: Seq<u8>, i: int, end: int)
    ensures
        i <= skip_colons(b, i, end),
        i <= end ==> skip_colons(b, i, end) <= end,
    decreases left(i, end),
{
    if i < end && b[i] == COLON {
        lemma_skip_colons(b, i + 1, end);
    }
}

pub proof fn lemma_name_end(b: Seq<u8>, i: int, end: int)
    ensures
        i <= name_end(b, i, end),
        i <= end ==> name_end(b, i, end) <= end,
    decreases left(i, end),
{
    if i < end && is_name_byte(b[i]) {
        lemma_name_end(b, i + 1, end);
    } else if i + 1 < end && b[i] == COLON && b[i + 1] == COLON {
        lemma_skip_colons(b, i + 2, end);
        lemma_name_end(b, skip_colons(b, i + 2, end), end);
    }
}

/// The first `c` at or after `i`, or `end`.
pub open spec fn find_byte(b: Seq<u8>, i: int, end: int, c: u8) -> int
    decreases left(i, end),
{
    if i < end && b[i] != c {
        find_byte(b, i + 1, end, c)
    } else {
        i
    }
}

pub proof fn lemma_find_byte(b: Seq<u8>, i: int, end: int, c: u8)
    ensures
        i <= find_byte(b, i, end, c),
        i <= end ==> find_byte(b, i, end, c) <= end,
        find_byte(b, i, end, c) < end ==> b[find_byte(b, i, end, c)] == c,
    decreases left(i, end),
{
    if i < end && b[i] != c {
        lemma_find_byte(b, i + 1, end, c);
    }
}

/// The variable reference whose `$` stands at `i`: a Variable token, the name as
/// text, and the components of an array index. A `$` with no name is plain text.
pub open spec fn variable(b: Seq<u8>, i: int, end: int) -> Result<Tokens, ParseError>
    decreases left(i, end), 0int,
{
    proof {
        lemma_name_end(b, i + 1, end);
    }
    let j = name_end(b, i + 1, end);
    if i + 1 < end && b[i + 1] == OPEN_BRACE {
        let k = find_byte(b, i + 2, end, CLOSE_BRACE);
        if k < end {
            Ok(
                Tokens {
                    tokens: seq![
                        token(TokenKind::Variable, i, k + 1 - i, 1),
                        text_token(i + 2, k - (i + 2)),
                    ],
                    next: k + 1,
                },
            )
        } else {
            Err(failure(i + 1, true))
        }
    } else if i < end && j < end && b[j] == OPEN_PAREN {
        match substituted(b, j + 1, end, Stop::Paren) {
            Ok(index) => if index.next < end {
                Ok(
                    Tokens {
                        tokens: seq![
                            token(
                                TokenKind::Variable,
                                i,
                                index.next + 1 - i,
                                1 + index.tokens.len() as int,
                            ),
                            text_token(i + 1, j - (i + 1)),
                        ] + index.tokens,
                        next: index.next + 1,
                    },
                )
            } else {
                Err(failure(j, true))
            },
            Err(e) => Err(e),
        }
    } else if j > i + 1 && i < end {
        Ok(
            Tokens {
                tokens: seq![
                    token(TokenKind::Variable, i, j - i, 1),
                    text_token(i + 1, j - (i + 1)),
                ],
                next: j,
            },
        )
    } else {
        Ok(Tokens { tokens: seq![text_token(i, 1)], next: i + 1 })
    }
}

/// The components at `i`: plain text, escapes, and the substitutions.
pub open spec fn components(b: Seq<u8>, i: int, end: int, stop: Stop) -> Result<
    Tokens,
    ParseError,
>
    decreases left(i, end), 1int,
{
    if i >= end || stops(b[i], stop) {
        Ok(Tokens { tokens: seq![], next: i })
    } else if !starts_substitution(b[i]) {
        proof {
            lemma_text_end(b, i + 1, end, stop);
        }
        let j = text_end(b, i + 1, end, stop);
        after(seq![text_token(i, j - i)], components(b, j, end, stop))
    } else if b[i] == DOLLAR {
        match variable(b, i, end) {
            Ok(v) => after(v.tokens, components(b, onward(i, v.next), end, stop)),
            Err(e) => Err(e),
        }
    } else if b[i] == OPEN_BRACKET {
        match bracket_end(b, i + 1, end, i) {
            Ok(j) => after(
                seq![token(TokenKind::Command, i, j - i, 0)],
                components(b, onward(i, j), end, stop),
            ),
            Err(e) => Err(e),
        }
    } else if b[i] == BACKSLASH && escape_len(b, i, end) > 1 {
        proof {
            lemma_escape_len(b, i, end);
        }
        if b[i + 1] == NEWLINE && stop is Word {
            // A backslash-newline ends a word, like a space.
            Ok(Tokens { tokens: seq![], next: i })
        } else {
            let n = escape_len(b, i, end);
            after(seq![token(TokenKind::Backslash, i, n, 0)], components(b, i + n, end, stop))
        }
    } else {
        after(seq![text_token(i, 1)], components(b, i + 1, end, stop))
    }
}

/// The components at `i`, with an empty text token where there are none.
pub open spec fn substituted(b: Seq<u8>, i: int, end: int, stop: Stop) -> Result<
    Tokens,
    ParseError,
>
    decreases left(i, end), 2int,
{
    match components(b, i, end, stop) {
        Ok(t) => if t.tokens.len() == 0 {
            Ok(Tokens { tokens: seq![text_token(t.next, 0)], next: t.next })
        } else {
            Ok(t)
        },
        Err(e) => Err(e),
    }
}

/// The end of the nested script whose `[` stands at `open`, reading on at `i`:
/// after the `]` that ends one of its commands.
pub open spec fn bracket_end(b: Seq<u8>, i: int, end: int, open: int) -> Result<int, ParseError>
    decreases left(i, end), 7int,
{
    match command(b, i, end, true) {
        Ok(c) => if c.term < end && b[c.term] == CLOSE_BRACKET {
            Ok(c.next)
        } else if c.next >= end || i >= end {
            Err(failure(open, true))
        } else {
            bracket_end(b, onward(i, c.next), end, open)
        },
        Err(e) => Err(e),
    }
}

// --------------------------------------------------------------------- braces
/// The tokens of a braced word, reading on at `j` with `level` braces open. Only
/// a backslash-newline is a component of its own; `seg` is where the text after
/// the last one began, and `first` says that there was none yet. `None` where the
/// closing brace is missing.
pub open spec fn braced(
    b: Seq<u8>,
    j: int,
    end: int,
    level: nat,
    seg: int,
    first: bool,
) -> Option<Tokens>
    decreases left(j, end),
{
    if j >= end {
        None
    } else if b[j] == OPEN_BRACE {
        braced(b, j + 1, end, level + 1, seg, first)
    } else if b[j] == CLOSE_BRACE && level > 1 {
        braced(b, j + 1, end, (level - 1) as nat, seg, first)
    } else if b[j] == CLOSE_BRACE {
        Some(
            Tokens {
                tokens: if j != seg || first {
                    seq![text_token(seg, j - seg)]
                } else {
                    seq![]
                },
                next: j + 1,
            },
        )
    } else if b[j] == BACKSLASH {
        proof {
            lemma_escape_len(b, j, end);
        }
        let n = escape_len(b, j, end);
        if n > 1 && b[j + 1] == NEWLINE {
            match braced(b, j + n, end, level, j + n, false) {
                Some(rest) => Some(
                    Tokens {
                        tokens: (if j > seg {
                            seq![text_token(seg, j - seg)]
                        } else {
                            seq![]
                        }) + seq![token(TokenKind::Backslash, j, n, 0)] + rest.tokens,
                        next: rest.next,
                    },
                ),
                None => None,
            }
        } else {
            braced(b, j + n, end, level, seg, first)
        }
    } else {
        braced(b, j + 1, end, level, seg, first)
    }
}

// ---------------------------------------------------------------------- lists
/// One element of a literal list.
pub struct Element {
    /// Where its text begins, inside any braces or quotes.
    pub start: int,
    pub size: int,
    /// Where the next element begins.
    pub next: int,
}

/// The end of the list white space at `i`.
pub open spec fn skip_list_space(b: Seq<u8>, i: int, end: int) -> int
    decreases left(i, end),
{
    if i < end && is_list_space(b[i]) {
        skip_list_space(b, i + 1, end)
    } else {
        i
    }
}

pub proof fn lemma_skip_list_space(b: Seq<u8>, i: int, end: int)
    ensures
        i <= skip_list_space(b, i, end),
        i <= end ==> skip_list_space(b, i, end) <= end,
        skip_list_space(b, i, end) < end ==> !is_list_space(b[skip_list_space(b, i, end)]),
        i < skip_list_space(b, i, end) ==> is_list_space(b[skip_list_space(b, i, end) - 1]),
    decreases left(i, end),
{
    if i < end && is_list_space(b[i]) {
        lemma_skip_list_space(b, i + 1, end);
    }
}

/// The position of the closing brace of a braced element, reading on at `p` with
/// `level` braces open.
pub open spec fn braced_element_end(b: Seq<u8>, p: int, end: int, level: nat) -> Option<int>
    decreases left(p, end),
{
    if p >= end {
        None
    } else if b[p] == OPEN_BRACE {
        braced_element_end(b, p + 1, end, level + 1)
    } else if b[p] == CLOSE_BRACE && level > 1 {
        braced_element_end(b, p + 1, end, (level - 1) as nat)
    } else if b[p] == CLOSE_BRACE {
        Some(p)
    } else if b[p] == BACKSLASH {
        proof {
            lemma_escape_len(b, p, end);
        }
        braced_element_end(b, p + escape_len(b, p, end), end, level)
    } else {
        braced_element_end(b, p + 1, end, level)
    }
}

/// The position of the closing quote of a quoted element; `None` where it is
/// missing, or where an escape makes the element differ from its text.
pub open spec fn quoted_element_end(b: Seq<u8>, p: int, end: int) -> Option<int>
    decreases left(p, end),
{
    if p >= end || b[p] == BACKSLASH {
        None
    } else if b[p] == QUOTE {
        Some(p)
    } else {
        quoted_element_end(b, p + 1, end)
    }
}

/// The end of a bare element; `None` where it holds an escape.
pub open spec fn bare_element_end(b: Seq<u8>, p: int, end: int) -> Option<int>
    decreases left(p, end),
{
    if p >= end || is_list_space(b[p]) {
        Some(p)
    } else if b[p] == BACKSLASH {
        None
    } else {
        bare_element_end(b, p + 1, end)
    }
}

/// The list element that begins at `p`, which is no white space; `None` where
/// there is no well-formed one, or one that is not its own text.
pub open spec fn element(b: Seq<u8>, p: int, end: int) -> Option<Element> {
    if b[p] == OPEN_BRACE || b[p] == QUOTE {
        let close = if b[p] == OPEN_BRACE {
            braced_element_end(b, p + 1, end, 1)
        } else {
            quoted_element_end(b, p + 1, end)
        };
        match close {
            Some(q) => if q + 1 >= end || is_list_space(b[q + 1]) {
                Some(
                    Element {
                        start: p + 1,
                        size: q - (p + 1),
                        next: skip_list_space(b, q + 1, end),
                    },
                )
            } else {
                None
            },
            None => None,
        }
    } else {
        match bare_element_end(b, p, end) {
            Some(q) => Some(Element { start: p, size: q - p, next: skip_list_space(b, q, end) }),
            None => None,
        }
    }
}

/// The tokens of one list element: a literal word, its delimiters included.
pub open spec fn element_tokens(b: Seq<u8>, e: Element, list: int) -> Seq<Token> {
    let quoted = if e.start > list && (b[e.start - 1] == OPEN_BRACE || b[e.start - 1] == QUOTE) {
        1int
    } else {
        0int
    };
    seq![
        token(TokenKind::SimpleWord, e.start - quoted, e.size + 2 * quoted, 1),
        text_token(e.start, e.size),
    ]
}

/// The words that the literal list in `list..end` expands to, from element `i`
/// on; `None` where it is no list of literal elements.
pub open spec fn elements(b: Seq<u8>, i: int, end: int, list: int) -> Option<Seq<Token>>
    decreases left(i, end),
{
    if i >= end {
        Some(seq![])
    } else {
        match element(b, i, end) {
            Some(e) => match elements(b, onward(i, e.next), end, list) {
                Some(rest) => Some(element_tokens(b, e, list) + rest),
                None => None,
            },
            None => None,
        }
    }
}

// ---------------------------------------------------------------------- words
/// Whether the word at `j` has the expansion prefix `{*}`: more of the word
/// follows the prefix at once.
pub open spec fn expands(b: Seq<u8>, j: int, end: int) -> bool {
    &&& j + 3 < end
    &&& b[j] == OPEN_BRACE
    &&& b[j + 1] == STAR
    &&& b[j + 2] == CLOSE_BRACE
    &&& !is_blank(b[j + 3])
    &&& !continues_line(b, j + 3, end)
    &&& b[j + 3] != NEWLINE
    &&& b[j + 3] != SEMICOLON
}

/// The components of the quoted, braced or bare word at `k`.
pub open spec fn word_body(b: Seq<u8>, k: int, end: int, nested: bool) -> Result<
    Tokens,
    ParseError,
>
    decreases left(k, end), 3int,
{
    if k < end && b[k] == QUOTE {
        match substituted(b, k + 1, end, Stop::Quote) {
            Ok(t) => if t.next < end {
                Ok(Tokens { tokens: t.tokens, next: t.next + 1 })
            } else {
                Err(failure(k, true))
            },
            Err(e) => Err(e),
        }
    } else if k < end && b[k] == OPEN_BRACE {
        match braced(b, k + 1, end, 1, k + 1, true) {
            Some(t) => Ok(t),
            None => Err(failure(k, true)),
        }
    } else {
        substituted(b, k, end, Stop::Word { nested })
    }
}

pub open spec fn all_text(tokens: Seq<Token>) -> bool {
    forall|k: int| 0 <= k < tokens.len() ==> (#[trigger] tokens[k]).kind is Text
}

/// The tokens of a plain word: a literal one where it is a single piece of text.
pub open spec fn plain_word(start: int, next: int, parts: Seq<Token>) -> Seq<Token> {
    let kind = if parts.len() == 1 && parts[0].kind is Text {
        TokenKind::SimpleWord
    } else {
        TokenKind::Word
    };
    seq![token(kind, start, next - start, parts.len() as int)] + parts
}

/// The tokens of a `{*}` word: those of its elements where it is a literal list,
/// else a word to be expanded when the command runs.
pub open spec fn expanded_word(b: Seq<u8>, start: int, next: int, parts: Seq<Token>) -> Seq<
    Token,
> {
    let list = parts[0].start as int;
    let literal = if all_text(parts) {
        elements(b, skip_list_space(b, list, parts.last().stop()), parts.last().stop(), list)
    } else {
        None
    };
    match literal {
        Some(words) => words,
        None => seq![
            token(TokenKind::ExpandWord, start, next - start, parts.len() as int),
        ] + parts,
    }
}

/// The tokens of one written word, and how many words they make.
#[verifier::ext_equal]
pub struct WordTokens {
    pub tokens: Seq<Token>,
    pub count: nat,
    pub next: int,
}

/// Number of words among the tokens of a `{*}` word.
pub open spec fn expanded_count(tokens: Seq<Token>) -> nat {
    if tokens.len() > 0 && tokens[0].kind is ExpandWord {
        1
    } else {
        tokens.len() / 2
    }
}

/// The word at `j`.
#[verifier::opaque]
pub open spec fn word(b: Seq<u8>, j: int, end: int, nested: bool) -> Result<WordTokens, ParseError>
    decreases left(j, end), 4int,
{
    if expands(b, j, end) {
        match word_body(b, j + 3, end, nested) {
            Ok(t) => {
                let tokens = expanded_word(b, j, t.next, t.tokens);
                Ok(WordTokens { tokens, count: expanded_count(tokens), next: t.next })
            },
            Err(e) => Err(e),
        }
    } else {
        match word_body(b, j, end, nested) {
            Ok(t) => Ok(
                WordTokens { tokens: plain_word(j, t.next, t.tokens), count: 1, next: t.next },
            ),
            Err(e) => Err(e),
        }
    }
}

// ------------------------------------------------------------------- commands
/// The words of a command and how it ended.
#[verifier::ext_equal]
pub struct Words {
    pub tokens: Seq<Token>,
    pub count: nat,
    /// The terminator's position, or the end of the input.
    pub term: int,
    /// After the terminator.
    pub next: int,
    /// Whether the input ends with a backslash-newline.
    pub more: bool,
}

/// The words at `i`, up to the end of their command.
#[verifier::opaque]
pub open spec fn words(b: Seq<u8>, i: int, end: int, nested: bool) -> Result<Words, ParseError>
    decreases left(i, end), 5int,
{
    proof {
        lemma_skip_blanks(b, i, end);
    }
    let j = skip_blanks(b, i, end);
    if j >= end {
        Ok(
            Words {
                tokens: seq![],
                count: 0,
                term: j,
                next: j,
                more: blanks_ask_for_more(b, i, end),
            },
        )
    } else if ends_command(b[j], nested) {
        Ok(Words { tokens: seq![], count: 0, term: j, next: j + 1, more: false })
    } else {
        match word(b, j, end, nested) {
            Ok(w) => {
                let k = w.next;
                if k < end && !is_blank(b[k]) && !continues_line(b, k, end) && !ends_command(
                    b[k],
                    nested,
                ) {
                    // Characters right after a closing quote or brace.
                    Err(failure(k, false))
                } else {
                    match words(b, onward(j, k), end, nested) {
                        Ok(rest) => Ok(
                            Words {
                                tokens: w.tokens + rest.tokens,
                                count: w.count + rest.count,
                                ..rest
                            },
                        ),
                        Err(e) => Err(e),
                    }
                }
            },
            Err(e) => Err(e),
        }
    }
}

/// A command as it is read.
#[verifier::ext_equal]
pub struct Parsed {
    pub comment: Option<(int, int)>,
    pub start: int,
    pub words: Seq<Token>,
    pub count: nat,
    pub term: int,
    pub next: int,
    pub more: bool,
}

/// The command at `i`: comments, then words up to a terminator.
pub open spec fn command(b: Seq<u8>, i: int, end: int, nested: bool) -> Result<Parsed, ParseError>
    decreases left(i, end), 6int,
{
    proof {
        if i <= end {
            lemma_lead(b, i, end);
        }
    }
    let l = lead(b, i, end);
    if i > end {
        Err(failure(i, false))
    } else {
        match words(b, l.next, end, nested) {
            Ok(w) => Ok(
                Parsed {
                    comment: l.comment,
                    start: l.next,
                    words: w.tokens,
                    count: w.count,
                    term: w.term,
                    next: w.next,
                    more: l.more || w.more || (nested && l.next >= end),
                },
            ),
            Err(e) => Err(e),
        }
    }
}

/// What a caller sees of a parsed command.
pub open spec fn command_view(p: Parsed) -> CommandView {
    CommandView {
        comment: match p.comment {
            Some(c) => Some(Range { start: c.0 as usize, end: c.1 as usize }),
            None => None,
        },
        range: Range { start: p.start as usize, end: p.next as usize },
        num_words: p.count,
        tokens: p.words,
    }
}

/// The command at `i`, as a caller sees it.
pub open spec fn parsed_command(b: Seq<u8>, i: int, end: int, nested: bool) -> Result<
    CommandView,
    ParseError,
> {
    match command(b, i, end, nested) {
        Ok(p) => Ok(command_view(p)),
        Err(e) => Err(e),
    }
}

/// The commands in `i..end`, in order. Positions that hold no words are passed
/// over; an error ends the list.
pub open spec fn commands(b: Seq<u8>, i: int, end: int) -> Seq<Result<CommandView, ParseError>>
    decreases left(i, end),
{
    if i >= end {
        seq![]
    } else {
        match command(b, i, end, false) {
            Ok(p) => {
                let rest = commands(b, onward(i, p.next), end);
                if p.count == 0 {
                    rest
                } else {
                    seq![Ok(command_view(p))] + rest
                }
            },
            Err(e) => seq![Err(e)],
        }
    }
}

/// Whether the commands from `i` on are complete: none of them stops inside an
/// open brace, bracket or quote, or asks for another line.
pub open spec fn complete_from(b: Seq<u8>, i: int, end: int) -> bool
    decreases left(i, end),
{
    match command(b, i, end, false) {
        Ok(p) => if p.next >= end || i >= end {
            !p.more
        } else {
            complete_from(b, onward(i, p.next), end)
        },
        Err(e) => !e.incomplete,
    }
}

} // verus!

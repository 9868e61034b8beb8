//! Tokens hold whole characters: where a text is valid UTF-8, no token, comment or command
//! begins or ends inside a character.
use vstd::prelude::*;
use vstd::utf8::{is_char_boundary, is_char_boundary_iff_not_is_continuation_byte, valid_utf8};

use crate::grammar::{
    all_text, bare_element_end, braced, braced_element_end, bracket_end, command, command_view,
    commands, comment_end, components, continues_line, element, element_tokens, elements,
    ends_command, escape_len, expanded_word, expands, find_byte, hex_run, hex_value, is_blank,
    is_hex_digit, is_list_space, is_name_byte, is_octal_digit, lead, left, lemma_comment_end,
    lemma_escape_len, lemma_find_byte, lemma_lead, lemma_name_end, lemma_skip_blanks,
    lemma_skip_colons, lemma_skip_list_space, lemma_skip_space, lemma_text_end, name_end,
    quoted_element_end, skip_blanks, skip_colons, skip_indent, skip_list_space, skip_space,
    starts_substitution, stops, substituted, text_end, token, variable, word, word_body, words,
    Stop, Tokens, BACKSLASH, CLOSE_BRACE, CLOSE_BRACKET, COLON, DOLLAR, HASH, NEWLINE,
    OPEN_BRACE, OPEN_BRACKET, OPEN_PAREN, QUOTE, SPACE, TAB,
};
use crate::line_index::{lemma_narrow_char, lemma_next_char};
use crate::placement::{
    lemma_bracket_end, lemma_command, lemma_components, lemma_element, lemma_substituted,
    lemma_variable, lemma_word, lemma_word_body, placed,
};
use crate::token::{CommandView, ParseError, Token};
use crate::words::is_delimited;

verus! {

/// Whether no character lies across `p`.
pub open spec fn cut(b: Seq<u8>, p: int) -> bool {
    0 <= p <= b.len() && is_char_boundary(b, p)
}

/// Whether a token holds whole characters. A word in braces or quotes ends with the
/// closing one.
pub open spec fn whole(b: Seq<u8>, t: Token) -> bool {
    &&& cut(b, t.start as int)
    &&& cut(b, t.stop())
    &&& (t.kind is Word || t.kind is SimpleWord) && is_delimited(b, t) ==> b[t.stop() - 1] < 0x80
}

pub open spec fn all_whole(b: Seq<u8>, tokens: Seq<Token>) -> bool {
    forall|k: int| 0 <= k < tokens.len() ==> whole(b, #[trigger] tokens[k])
}

/// Whether a command holds whole characters.
pub open spec fn command_whole(b: Seq<u8>, c: CommandView) -> bool {
    &&& cut(b, c.range.start as int)
    &&& cut(b, c.range.end as int)
    &&& all_whole(b, c.tokens)
    &&& c.comment matches Some(r) ==> cut(b, r.start as int) && cut(b, r.end as int)
}

pub(crate) proof fn lemma_cut(b: Seq<u8>, p: int)
    requires
        valid_utf8(b),
        0 <= p < b.len(),
        b[p] < 0x80,
    ensures
        cut(b, p),
        cut(b, p + 1),
{
    is_char_boundary_iff_not_is_continuation_byte(b, p);
    lemma_narrow_char(b, p);
}

// ---------------------------------------------------------------- white space
proof fn lemma_blanks(b: Seq<u8>, i: int, end: int)
    requires
        valid_utf8(b),
        i <= end <= b.len(),
        cut(b, i),
    ensures
        cut(b, skip_blanks(b, i, end)),
    decreases left(i, end),
{
    if i < end && is_blank(b[i]) {
        lemma_cut(b, i);
        lemma_blanks(b, i + 1, end);
    } else if continues_line(b, i, end) {
        lemma_cut(b, i + 1);
        lemma_blanks(b, i + 2, end);
    }
}

proof fn lemma_space(b: Seq<u8>, i: int, end: int)
    requires
        valid_utf8(b),
        i <= end <= b.len(),
        cut(b, i),
    ensures
        cut(b, skip_space(b, i, end)),
    decreases left(i, end),
{
    lemma_blanks(b, i, end);
    lemma_skip_blanks(b, i, end);
    let j = skip_blanks(b, i, end);
    if j < end && b[j] == NEWLINE {
        lemma_cut(b, j);
        lemma_space(b, j + 1, end);
    }
}

proof fn lemma_list_space(b: Seq<u8>, i: int, end: int)
    requires
        valid_utf8(b),
        i <= end <= b.len(),
        cut(b, i),
    ensures
        cut(b, skip_list_space(b, i, end)),
    decreases left(i, end),
{
    if i < end && is_list_space(b[i]) {
        lemma_cut(b, i);
        lemma_list_space(b, i + 1, end);
    }
}

proof fn lemma_indent(b: Seq<u8>, i: int, end: int)
    requires
        valid_utf8(b),
        i <= end <= b.len(),
        cut(b, i),
    ensures
        cut(b, skip_indent(b, i, end)),
    decreases left(i, end),
{
    if i < end && (b[i] == SPACE || b[i] == TAB) {
        lemma_cut(b, i);
        lemma_indent(b, i + 1, end);
    }
}

proof fn lemma_hex(b: Seq<u8>, i: int, end: int, most: nat, value: int)
    requires
        valid_utf8(b),
        i <= end <= b.len(),
        cut(b, i),
    ensures
        cut(b, i + hex_run(b, i, end, most, value)),
    decreases most,
{
    if most > 0 && i < end && is_hex_digit(b[i]) && value <= 0x10fff {
        lemma_cut(b, i);
        lemma_hex(b, i + 1, end, (most - 1) as nat, value * 16 + hex_value(b[i]));
    }
}

/// An escape sequence holds whole characters.
proof fn lemma_escape(b: Seq<u8>, i: int, end: int)
    requires
        valid_utf8(b),
        0 <= i < end <= b.len(),
        b[i] == BACKSLASH,
        cut(b, end),
    ensures
        cut(b, i),
        cut(b, i + escape_len(b, i, end)),
{
    lemma_cut(b, i);
    if i + 1 < end {
        let c = b[i + 1];
        if c < 0x80 {
            lemma_cut(b, i + 1);
            lemma_hex(b, i + 2, end, 2, 0);
            lemma_hex(b, i + 2, end, 4, 0);
            lemma_hex(b, i + 2, end, 8, 0);
            lemma_indent(b, i + 2, end);
            if i + 2 < end && is_octal_digit(b[i + 2]) {
                lemma_cut(b, i + 2);
                if i + 3 < end && is_octal_digit(b[i + 3]) {
                    lemma_cut(b, i + 3);
                }
            }
        } else {
            lemma_next_char(b, i + 1);
        }
    }
}

/// A comment line ends with a newline or with the text.
proof fn lemma_comment(b: Seq<u8>, i: int, end: int)
    requires
        valid_utf8(b),
        0 <= i <= end <= b.len(),
        cut(b, end),
    ensures
        cut(b, comment_end(b, i, end)),
    decreases left(i, end),
{
    if i < end {
        lemma_skip_blanks(b, i, end);
        lemma_escape_len(b, i, end);
        if b[i] == BACKSLASH {
            if skip_blanks(b, i, end) > i {
                lemma_comment(b, skip_blanks(b, i, end), end);
            } else {
                lemma_comment(b, i + escape_len(b, i, end), end);
            }
        } else if b[i] == NEWLINE {
            lemma_cut(b, i);
        } else {
            lemma_comment(b, i + 1, end);
        }
    }
}

proof fn lemma_lead_whole(b: Seq<u8>, i: int, end: int)
    requires
        valid_utf8(b),
        i <= end <= b.len(),
        cut(b, i),
        cut(b, end),
    ensures
        cut(b, lead(b, i, end).next),
        lead(b, i, end).comment matches Some(c) ==> cut(b, c.0) && cut(b, c.1),
    decreases left(i, end),
{
    lemma_skip_space(b, i, end);
    lemma_space(b, i, end);
    let j = skip_space(b, i, end);
    if j < end && b[j] == HASH {
        lemma_comment_end(b, j, end);
        lemma_comment(b, j, end);
        lemma_lead_whole(b, comment_end(b, j, end), end);
    }
}

// --------------------------------------------------------------------- tokens
/// A run of plain characters ends at a byte of ASCII or with the text.
proof fn lemma_text(b: Seq<u8>, i: int, end: int, stop: Stop)
    requires
        valid_utf8(b),
        0 <= i <= end <= b.len(),
        cut(b, end),
    ensures
        cut(b, text_end(b, i, end, stop)),
    decreases left(i, end),
{
    if i < end {
        if !stops(b[i], stop) && !starts_substitution(b[i]) {
            lemma_text(b, i + 1, end, stop);
        } else {
            lemma_cut(b, i);
        }
    }
}

proof fn lemma_colons(b: Seq<u8>, i: int, end: int)
    requires
        valid_utf8(b),
        i <= end <= b.len(),
        cut(b, i),
    ensures
        cut(b, skip_colons(b, i, end)),
    decreases left(i, end),
{
    if i < end && b[i] == COLON {
        lemma_cut(b, i);
        lemma_colons(b, i + 1, end);
    }
}

proof fn lemma_name(b: Seq<u8>, i: int, end: int)
    requires
        valid_utf8(b),
        i <= end <= b.len(),
        cut(b, i),
    ensures
        cut(b, name_end(b, i, end)),
    decreases left(i, end),
{
    if i < end && is_name_byte(b[i]) {
        lemma_cut(b, i);
        lemma_name(b, i + 1, end);
    } else if i + 1 < end && b[i] == COLON && b[i + 1] == COLON {
        lemma_cut(b, i + 1);
        lemma_skip_colons(b, i + 2, end);
        lemma_colons(b, i + 2, end);
        lemma_name(b, skip_colons(b, i + 2, end), end);
    }
}

/// Whether a parse left off between characters, with tokens that hold whole ones.
spec fn tokens_whole(b: Seq<u8>, r: Result<Tokens, ParseError>) -> bool {
    r matches Ok(t) ==> cut(b, t.next) && all_whole(b, t.tokens)
}

proof fn lemma_variable_whole(b: Seq<u8>, i: int, end: int)
    requires
        valid_utf8(b),
        0 <= i < end <= b.len() <= usize::MAX,
        b[i] == DOLLAR,
        cut(b, end),
    ensures
        tokens_whole(b, variable(b, i, end)),
    decreases left(i, end), 0int,
{
    lemma_cut(b, i);
    lemma_name_end(b, i + 1, end);
    lemma_name(b, i + 1, end);
    let j = name_end(b, i + 1, end);
    if i + 1 < end && b[i + 1] == OPEN_BRACE {
        lemma_cut(b, i + 1);
        lemma_find_byte(b, i + 2, end, CLOSE_BRACE);
        let k = find_byte(b, i + 2, end, CLOSE_BRACE);
        if k < end {
            lemma_cut(b, k);
        }
    } else if j < end && b[j] == OPEN_PAREN {
        lemma_cut(b, j);
        lemma_substituted(b, j + 1, end, Stop::Paren);
        lemma_substituted_whole(b, j + 1, end, Stop::Paren);
        if let Ok(index) = substituted(b, j + 1, end, Stop::Paren) {
            if index.next < end {
                lemma_cut(b, index.next);
            }
        }
    }
}

proof fn lemma_components_whole(b: Seq<u8>, i: int, end: int, stop: Stop)
    requires
        valid_utf8(b),
        0 <= i <= end <= b.len() <= usize::MAX,
        cut(b, i),
        cut(b, end),
    ensures
        tokens_whole(b, components(b, i, end, stop)),
        components(b, i, end, stop) matches Ok(t) ==> (t.next < end && !(stop is Word) ==> stops(
            b[t.next],
            stop,
        )),
    decreases left(i, end), 1int,
{
    if i >= end || stops(b[i], stop) {
    } else if !starts_substitution(b[i]) {
        lemma_text_end(b, i + 1, end, stop);
        lemma_text(b, i + 1, end, stop);
        let j = text_end(b, i + 1, end, stop);
        lemma_components_whole(b, j, end, stop);
    } else if b[i] == DOLLAR {
        lemma_variable(b, i, end);
        lemma_variable_whole(b, i, end);
        if let Ok(v) = variable(b, i, end) {
            lemma_components_whole(b, v.next, end, stop);
        }
    } else if b[i] == OPEN_BRACKET {
        lemma_cut(b, i);
        lemma_bracket_end(b, i + 1, end, i);
        lemma_bracket_whole(b, i + 1, end, i);
        if let Ok(j) = bracket_end(b, i + 1, end, i) {
            lemma_components_whole(b, j, end, stop);
        }
    } else if b[i] == BACKSLASH && escape_len(b, i, end) > 1 {
        lemma_escape_len(b, i, end);
        lemma_escape(b, i, end);
        if !(b[i + 1] == NEWLINE && stop is Word) {
            lemma_components_whole(b, i + escape_len(b, i, end), end, stop);
        }
    } else {
        lemma_cut(b, i);
        lemma_components_whole(b, i + 1, end, stop);
    }
}

proof fn lemma_substituted_whole(b: Seq<u8>, i: int, end: int, stop: Stop)
    requires
        valid_utf8(b),
        0 <= i <= end <= b.len() <= usize::MAX,
        cut(b, i),
        cut(b, end),
    ensures
        tokens_whole(b, substituted(b, i, end, stop)),
        substituted(b, i, end, stop) matches Ok(t) ==> (t.next < end && !(stop is Word) ==> stops(
            b[t.next],
            stop,
        )),
    decreases left(i, end), 2int,
{
    lemma_components(b, i, end, stop);
    lemma_components_whole(b, i, end, stop);
}

proof fn lemma_bracket_whole(b: Seq<u8>, i: int, end: int, open: int)
    requires
        valid_utf8(b),
        0 <= open < i <= end <= b.len() <= usize::MAX,
        cut(b, i),
        cut(b, end),
    ensures
        bracket_end(b, i, end, open) matches Ok(j) ==> cut(b, j),
    decreases left(i, end), 7int,
{
    lemma_command(b, i, end, true);
    lemma_command_whole(b, i, end, true);
    if let Ok(c) = command(b, i, end, true) {
        if c.term < end && b[c.term] == CLOSE_BRACKET {
        } else if c.next >= end || i >= end {
        } else {
            lemma_bracket_whole(b, c.next, end, open);
        }
    }
}

/// A braced word ends with its closing brace.
proof fn lemma_braced_whole(b: Seq<u8>, j: int, end: int, level: nat, seg: int, first: bool)
    requires
        valid_utf8(b),
        0 <= seg <= j,
        end <= b.len() <= usize::MAX,
        cut(b, seg),
        cut(b, end),
    ensures
        braced(b, j, end, level, seg, first) matches Some(t) ==> {
            &&& cut(b, t.next)
            &&& all_whole(b, t.tokens)
            &&& b[t.next - 1] == CLOSE_BRACE
        },
    decreases left(j, end),
{
    if j >= end {
    } else if b[j] == OPEN_BRACE {
        lemma_braced_whole(b, j + 1, end, level + 1, seg, first);
    } else if b[j] == CLOSE_BRACE && level > 1 {
        lemma_braced_whole(b, j + 1, end, (level - 1) as nat, seg, first);
    } else if b[j] == CLOSE_BRACE {
        lemma_cut(b, j);
    } else if b[j] == BACKSLASH {
        lemma_escape_len(b, j, end);
        lemma_escape(b, j, end);
        let n = escape_len(b, j, end);
        if n > 1 && b[j + 1] == NEWLINE {
            lemma_braced_whole(b, j + n, end, level, j + n, false);
        } else {
            lemma_braced_whole(b, j + n, end, level, seg, first);
        }
    } else {
        lemma_braced_whole(b, j + 1, end, level, seg, first);
    }
}

// ---------------------------------------------------------------------- lists
proof fn lemma_closing_brace(b: Seq<u8>, p: int, end: int, level: nat)
    ensures
        braced_element_end(b, p, end, level) matches Some(q) ==> p <= q < end && b[q]
            == CLOSE_BRACE,
    decreases left(p, end),
{
    if p >= end {
    } else if b[p] == OPEN_BRACE {
        lemma_closing_brace(b, p + 1, end, level + 1);
    } else if b[p] == CLOSE_BRACE && level > 1 {
        lemma_closing_brace(b, p + 1, end, (level - 1) as nat);
    } else if b[p] == CLOSE_BRACE {
    } else if b[p] == BACKSLASH {
        lemma_escape_len(b, p, end);
        lemma_closing_brace(b, p + escape_len(b, p, end), end, level);
    } else {
        lemma_closing_brace(b, p + 1, end, level);
    }
}

proof fn lemma_closing_quote(b: Seq<u8>, p: int, end: int)
    ensures
        quoted_element_end(b, p, end) matches Some(q) ==> p <= q < end && b[q] == QUOTE,
    decreases left(p, end),
{
    if !(p >= end || b[p] == BACKSLASH) && b[p] != QUOTE {
        lemma_closing_quote(b, p + 1, end);
    }
}

proof fn lemma_bare_end(b: Seq<u8>, p: int, end: int)
    requires
        p <= end,
    ensures
        bare_element_end(b, p, end) matches Some(q) ==> p <= q <= end && (q < end
            ==> is_list_space(b[q])),
    decreases left(p, end),
{
    if !(p >= end || is_list_space(b[p])) && b[p] != BACKSLASH {
        lemma_bare_end(b, p + 1, end);
    }
}

proof fn lemma_element_whole(b: Seq<u8>, p: int, end: int, list: int)
    requires
        valid_utf8(b),
        0 <= list <= p < end <= b.len() <= usize::MAX,
        !is_list_space(b[p]),
        list < p ==> is_list_space(b[p - 1]),
        cut(b, p),
        cut(b, end),
    ensures
        element(b, p, end) matches Some(e) ==> cut(b, e.next) && all_whole(
            b,
            element_tokens(b, e, list),
        ),
{
    lemma_element(b, p, end);
    if b[p] == OPEN_BRACE || b[p] == QUOTE {
        lemma_cut(b, p);
        lemma_closing_brace(b, p + 1, end, 1);
        lemma_closing_quote(b, p + 1, end);
        let close = if b[p] == OPEN_BRACE {
            braced_element_end(b, p + 1, end, 1)
        } else {
            quoted_element_end(b, p + 1, end)
        };
        if let Some(q) = close {
            lemma_cut(b, q);
            lemma_list_space(b, q + 1, end);
        }
    } else {
        lemma_bare_end(b, p, end);
        if let Some(q) = bare_element_end(b, p, end) {
            if q < end {
                lemma_cut(b, q);
            }
            lemma_list_space(b, q, end);
        }
    }
}

proof fn lemma_elements_whole(b: Seq<u8>, i: int, end: int, list: int)
    requires
        valid_utf8(b),
        0 <= list <= i,
        end <= b.len() <= usize::MAX,
        i < end ==> !is_list_space(b[i]),
        list < i < end ==> is_list_space(b[i - 1]),
        i < end ==> cut(b, i),
        cut(b, end),
    ensures
        elements(b, i, end, list) matches Some(t) ==> all_whole(b, t),
    decreases left(i, end),
{
    if i < end {
        lemma_element(b, i, end);
        lemma_element_whole(b, i, end, list);
        if let Some(e) = element(b, i, end) {
            lemma_elements_whole(b, e.next, end, list);
        }
    }
}

// ---------------------------------------------------------------------- words
proof fn lemma_word_body_whole(b: Seq<u8>, k: int, end: int, nested: bool)
    requires
        valid_utf8(b),
        0 <= k <= end <= b.len() <= usize::MAX,
        cut(b, k),
        cut(b, end),
    ensures
        tokens_whole(b, word_body(b, k, end, nested)),
        word_body(b, k, end, nested) matches Ok(t) ==> (k < end && (b[k] == QUOTE || b[k]
            == OPEN_BRACE) ==> b[t.next - 1] < 0x80),
    decreases left(k, end), 3int,
{
    if k < end && b[k] == QUOTE {
        lemma_cut(b, k);
        lemma_substituted(b, k + 1, end, Stop::Quote);
        lemma_substituted_whole(b, k + 1, end, Stop::Quote);
        if let Ok(t) = substituted(b, k + 1, end, Stop::Quote) {
            if t.next < end {
                lemma_cut(b, t.next);
            }
        }
    } else if k < end && b[k] == OPEN_BRACE {
        lemma_cut(b, k);
        lemma_braced_whole(b, k + 1, end, 1, k + 1, true);
    } else {
        lemma_substituted_whole(b, k, end, Stop::Word { nested });
    }
}

proof fn lemma_expanded_whole(b: Seq<u8>, start: int, next: int, parts: Seq<Token>)
    requires
        valid_utf8(b),
        0 <= start <= next <= b.len() <= usize::MAX,
        placed(parts, start, next),
        parts.len() >= 1,
        cut(b, start),
        cut(b, next),
        all_whole(b, parts),
    ensures
        all_whole(b, expanded_word(b, start, next, parts)),
{
    let list = parts[0].start as int;
    let stop = parts.last().stop();
    assert(whole(b, parts[0]) && whole(b, parts.last()));
    if all_text(parts) && list <= stop {
        lemma_skip_list_space(b, list, stop);
        lemma_list_space(b, list, stop);
        lemma_elements_whole(b, skip_list_space(b, list, stop), stop, list);
    }
}

proof fn lemma_word_whole(b: Seq<u8>, j: int, end: int, nested: bool)
    requires
        valid_utf8(b),
        0 <= j < end <= b.len() <= usize::MAX,
        cut(b, j),
        cut(b, end),
        !is_blank(b[j]),
        !continues_line(b, j, end),
        !ends_command(b[j], nested),
    ensures
        word(b, j, end, nested) matches Ok(w) ==> cut(b, w.next) && all_whole(b, w.tokens),
    decreases left(j, end), 4int,
{
    reveal(word);
    if expands(b, j, end) {
        lemma_cut(b, j + 2);
        lemma_word_body(b, j + 3, end, nested);
        lemma_word_body_whole(b, j + 3, end, nested);
        if let Ok(t) = word_body(b, j + 3, end, nested) {
            lemma_expanded_whole(b, j, t.next, t.tokens);
        }
    } else {
        lemma_word_body(b, j, end, nested);
        lemma_word_body_whole(b, j, end, nested);
    }
}

proof fn lemma_words_whole(b: Seq<u8>, i: int, end: int, nested: bool)
    requires
        valid_utf8(b),
        0 <= i <= end <= b.len() <= usize::MAX,
        cut(b, i),
        cut(b, end),
    ensures
        words(b, i, end, nested) matches Ok(w) ==> cut(b, w.next) && all_whole(b, w.tokens),
    decreases left(i, end), 5int,
{
    reveal(word);
    reveal(words);
    lemma_skip_blanks(b, i, end);
    lemma_blanks(b, i, end);
    let j = skip_blanks(b, i, end);
    if j >= end {
    } else if ends_command(b[j], nested) {
        lemma_cut(b, j);
    } else {
        lemma_word(b, j, end, nested);
        lemma_word_whole(b, j, end, nested);
        if let Ok(w) = word(b, j, end, nested) {
            lemma_words_whole(b, w.next, end, nested);
        }
    }
}

proof fn lemma_command_whole(b: Seq<u8>, i: int, end: int, nested: bool)
    requires
        valid_utf8(b),
        0 <= i <= end <= b.len() <= usize::MAX,
        cut(b, i),
        cut(b, end),
    ensures
        command(b, i, end, nested) matches Ok(p) ==> {
            &&& cut(b, p.start)
            &&& cut(b, p.next)
            &&& all_whole(b, p.words)
            &&& p.comment matches Some(c) ==> cut(b, c.0) && cut(b, c.1)
        },
    decreases left(i, end), 6int,
{
    reveal(words);
    lemma_lead(b, i, end);
    lemma_lead_whole(b, i, end);
    lemma_words_whole(b, lead(b, i, end).next, end, nested);
}

/// The commands between two characters of a text hold whole characters, and so do their
/// tokens and comments.
pub proof fn commands_hold_whole_characters(b: Seq<u8>, i: int, end: int, k: int)
    requires
        valid_utf8(b),
        0 <= i <= end <= b.len() <= usize::MAX,
        cut(b, i),
        cut(b, end),
        0 <= k < commands(b, i, end).len(),
        commands(b, i, end)[k] is Ok,
    ensures
        command_whole(b, commands(b, i, end)[k]->Ok_0),
    decreases left(i, end),
{
    if i < end {
        lemma_command(b, i, end, false);
        lemma_command_whole(b, i, end, false);
        if let Ok(p) = command(b, i, end, false) {
            let rest = commands(b, p.next, end);
            if p.count == 0 {
                commands_hold_whole_characters(b, p.next, end, k);
            } else if k > 0 {
                assert((seq![Ok(command_view(p))] + rest)[k] == rest[k - 1]);
                commands_hold_whole_characters(b, p.next, end, k - 1);
            }
        }
    }
}

} // verus!

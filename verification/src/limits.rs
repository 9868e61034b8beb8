//! What stands at the end of a parse or after it has no part in the parse: two texts that
//! agree up to there are read alike.
use vstd::prelude::*;

use crate::grammar::{
    bare_element_end, blanks_ask_for_more, braced, braced_element_end, bracket_end, command,
    commands, comment_asks_for_more, comment_end, components, continues_line, element,
    element_tokens, elements, ends_command, escape_len, expanded_word, expands, find_byte,
    hex_run, hex_value, is_blank, is_hex_digit, is_list_space, is_name_byte, lead, left,
    lemma_comment_end, lemma_escape_len, lemma_lead, lemma_name_end, lemma_skip_blanks,
    lemma_skip_colons, lemma_skip_list_space, lemma_skip_space, lemma_text_end, name_end,
    onward, parsed_command, quoted_element_end, skip_blanks, skip_colons, skip_indent,
    skip_list_space, skip_space, space_asks_for_more, starts_substitution, stops, substituted,
    text_end, variable, word, word_body, words, Stop, BACKSLASH, CLOSE_BRACE, CLOSE_BRACKET,
    COLON, DOLLAR, HASH, NEWLINE, OPEN_BRACE, OPEN_BRACKET, OPEN_PAREN, QUOTE, SPACE, TAB,
};
use crate::placement::{lemma_command, lemma_word, lemma_word_body};
use crate::token::Token;

verus! {

/// Whether two texts are the same up to `end`.
pub open spec fn agree(a: Seq<u8>, b: Seq<u8>, end: int) -> bool {
    &&& end <= a.len()
    &&& end <= b.len()
    &&& forall|k: int| 0 <= k < end ==> #[trigger] a[k] == #[trigger] b[k]
}

// ---------------------------------------------------------------- white space
proof fn lemma_blanks(a: Seq<u8>, b: Seq<u8>, i: int, end: int)
    requires
        0 <= i,
        agree(a, b, end),
    ensures
        skip_blanks(a, i, end) == skip_blanks(b, i, end),
        blanks_ask_for_more(a, i, end) == blanks_ask_for_more(b, i, end),
    decreases left(i, end),
{
    if i < end {
        assert(a[i] == b[i]);
        if i + 1 < end {
            assert(a[i + 1] == b[i + 1]);
        }
        if is_blank(b[i]) {
            lemma_blanks(a, b, i + 1, end);
        } else if continues_line(b, i, end) {
            lemma_blanks(a, b, i + 2, end);
        }
    }
}

proof fn lemma_space(a: Seq<u8>, b: Seq<u8>, i: int, end: int)
    requires
        0 <= i,
        agree(a, b, end),
    ensures
        skip_space(a, i, end) == skip_space(b, i, end),
        space_asks_for_more(a, i, end) == space_asks_for_more(b, i, end),
    decreases left(i, end),
{
    lemma_blanks(a, b, i, end);
    lemma_skip_blanks(b, i, end);
    let j = skip_blanks(b, i, end);
    if j < end {
        assert(a[j] == b[j]);
        if b[j] == NEWLINE {
            lemma_space(a, b, j + 1, end);
        }
    }
}

proof fn lemma_list_space(a: Seq<u8>, b: Seq<u8>, i: int, end: int)
    requires
        0 <= i,
        agree(a, b, end),
    ensures
        skip_list_space(a, i, end) == skip_list_space(b, i, end),
    decreases left(i, end),
{
    if i < end {
        assert(a[i] == b[i]);
        if is_list_space(b[i]) {
            lemma_list_space(a, b, i + 1, end);
        }
    }
}

// -------------------------------------------------------------------- escapes
proof fn lemma_indent(a: Seq<u8>, b: Seq<u8>, i: int, end: int)
    requires
        0 <= i,
        agree(a, b, end),
    ensures
        skip_indent(a, i, end) == skip_indent(b, i, end),
    decreases left(i, end),
{
    if i < end {
        assert(a[i] == b[i]);
        if b[i] == SPACE || b[i] == TAB {
            lemma_indent(a, b, i + 1, end);
        }
    }
}

proof fn lemma_hex(a: Seq<u8>, b: Seq<u8>, i: int, end: int, most: nat, value: int)
    requires
        0 <= i,
        agree(a, b, end),
    ensures
        hex_run(a, i, end, most, value) == hex_run(b, i, end, most, value),
    decreases most,
{
    if most > 0 && i < end {
        assert(a[i] == b[i]);
        if is_hex_digit(b[i]) && value <= 0x10fff {
            lemma_hex(a, b, i + 1, end, (most - 1) as nat, value * 16 + hex_value(b[i]));
        }
    }
}

proof fn lemma_escape(a: Seq<u8>, b: Seq<u8>, i: int, end: int)
    requires
        0 <= i < end,
        agree(a, b, end),
    ensures
        escape_len(a, i, end) == escape_len(b, i, end),
        1 <= escape_len(b, i, end) <= end - i,
{
    lemma_escape_len(b, i, end);
    lemma_hex(a, b, i + 2, end, 2, 0);
    lemma_hex(a, b, i + 2, end, 4, 0);
    lemma_hex(a, b, i + 2, end, 8, 0);
    lemma_indent(a, b, i + 2, end);
    if i + 1 < end {
        assert(a[i + 1] == b[i + 1]);
    }
    if i + 2 < end {
        assert(a[i + 2] == b[i + 2]);
    }
    if i + 3 < end {
        assert(a[i + 3] == b[i + 3]);
    }
}

proof fn lemma_comment(a: Seq<u8>, b: Seq<u8>, i: int, end: int)
    requires
        0 <= i,
        agree(a, b, end),
    ensures
        comment_end(a, i, end) == comment_end(b, i, end),
        comment_asks_for_more(a, i, end) == comment_asks_for_more(b, i, end),
    decreases left(i, end),
{
    if i < end {
        assert(a[i] == b[i]);
        lemma_blanks(a, b, i, end);
        lemma_skip_blanks(b, i, end);
        lemma_escape(a, b, i, end);
        if b[i] == BACKSLASH {
            if skip_blanks(b, i, end) > i {
                lemma_comment(a, b, skip_blanks(b, i, end), end);
            } else {
                lemma_comment(a, b, i + escape_len(b, i, end), end);
            }
        } else if b[i] != NEWLINE {
            lemma_comment(a, b, i + 1, end);
        }
    }
}

proof fn lemma_leads(a: Seq<u8>, b: Seq<u8>, i: int, end: int)
    requires
        0 <= i <= end,
        agree(a, b, end),
    ensures
        lead(a, i, end) == lead(b, i, end),
    decreases left(i, end),
{
    lemma_space(a, b, i, end);
    lemma_skip_space(b, i, end);
    let j = skip_space(b, i, end);
    if j < end {
        assert(a[j] == b[j]);
        if b[j] == HASH {
            lemma_comment(a, b, j, end);
            lemma_comment_end(b, j, end);
            lemma_leads(a, b, comment_end(b, j, end), end);
        }
    }
}

// ----------------------------------------------------------------- components
proof fn lemma_text(a: Seq<u8>, b: Seq<u8>, i: int, end: int, stop: Stop)
    requires
        0 <= i,
        agree(a, b, end),
    ensures
        text_end(a, i, end, stop) == text_end(b, i, end, stop),
    decreases left(i, end),
{
    if i < end {
        assert(a[i] == b[i]);
        if !stops(b[i], stop) && !starts_substitution(b[i]) {
            lemma_text(a, b, i + 1, end, stop);
        }
    }
}

proof fn lemma_colons(a: Seq<u8>, b: Seq<u8>, i: int, end: int)
    requires
        0 <= i,
        agree(a, b, end),
    ensures
        skip_colons(a, i, end) == skip_colons(b, i, end),
    decreases left(i, end),
{
    if i < end {
        assert(a[i] == b[i]);
        if b[i] == COLON {
            lemma_colons(a, b, i + 1, end);
        }
    }
}

proof fn lemma_name(a: Seq<u8>, b: Seq<u8>, i: int, end: int)
    requires
        0 <= i,
        agree(a, b, end),
    ensures
        name_end(a, i, end) == name_end(b, i, end),
    decreases left(i, end),
{
    if i < end {
        assert(a[i] == b[i]);
        if i + 1 < end {
            assert(a[i + 1] == b[i + 1]);
        }
        if is_name_byte(b[i]) {
            lemma_name(a, b, i + 1, end);
        } else if i + 1 < end && b[i] == COLON && b[i + 1] == COLON {
            lemma_colons(a, b, i + 2, end);
            lemma_skip_colons(b, i + 2, end);
            lemma_name(a, b, skip_colons(b, i + 2, end), end);
        }
    }
}

proof fn lemma_find(a: Seq<u8>, b: Seq<u8>, i: int, end: int, c: u8)
    requires
        0 <= i,
        agree(a, b, end),
    ensures
        find_byte(a, i, end, c) == find_byte(b, i, end, c),
    decreases left(i, end),
{
    if i < end {
        assert(a[i] == b[i]);
        if b[i] != c {
            lemma_find(a, b, i + 1, end, c);
        }
    }
}

proof fn lemma_variables(a: Seq<u8>, b: Seq<u8>, i: int, end: int)
    requires
        0 <= i < end <= usize::MAX,
        agree(a, b, end),
    ensures
        variable(a, i, end) == variable(b, i, end),
    decreases left(i, end), 0int,
{
    lemma_name(a, b, i + 1, end);
    lemma_name_end(b, i + 1, end);
    lemma_find(a, b, i + 2, end, CLOSE_BRACE);
    let j = name_end(b, i + 1, end);
    if i + 1 < end {
        assert(a[i + 1] == b[i + 1]);
    }
    if j < end {
        assert(a[j] == b[j]);
        if b[j] == OPEN_PAREN {
            lemma_substitutions(a, b, j + 1, end, Stop::Paren);
        }
    }
}

proof fn lemma_component_runs(a: Seq<u8>, b: Seq<u8>, i: int, end: int, stop: Stop)
    requires
        0 <= i,
        end <= usize::MAX,
        agree(a, b, end),
    ensures
        components(a, i, end, stop) == components(b, i, end, stop),
    decreases left(i, end), 1int,
{
    if i < end {
        assert(a[i] == b[i]);
        if i + 1 < end {
            assert(a[i + 1] == b[i + 1]);
        }
        if stops(b[i], stop) {
        } else if !starts_substitution(b[i]) {
            lemma_text(a, b, i + 1, end, stop);
            lemma_text_end(b, i + 1, end, stop);
            lemma_component_runs(a, b, text_end(b, i + 1, end, stop), end, stop);
        } else if b[i] == DOLLAR {
            lemma_variables(a, b, i, end);
            if let Ok(v) = variable(b, i, end) {
                lemma_component_runs(a, b, onward(i, v.next), end, stop);
            }
        } else if b[i] == OPEN_BRACKET {
            lemma_brackets(a, b, i + 1, end, i);
            if let Ok(j) = bracket_end(b, i + 1, end, i) {
                lemma_component_runs(a, b, onward(i, j), end, stop);
            }
        } else {
            lemma_escape(a, b, i, end);
            lemma_component_runs(a, b, i + escape_len(b, i, end), end, stop);
            lemma_component_runs(a, b, i + 1, end, stop);
        }
    }
}

proof fn lemma_substitutions(a: Seq<u8>, b: Seq<u8>, i: int, end: int, stop: Stop)
    requires
        0 <= i,
        end <= usize::MAX,
        agree(a, b, end),
    ensures
        substituted(a, i, end, stop) == substituted(b, i, end, stop),
    decreases left(i, end), 2int,
{
    lemma_component_runs(a, b, i, end, stop);
}

proof fn lemma_brackets(a: Seq<u8>, b: Seq<u8>, i: int, end: int, open: int)
    requires
        0 <= i <= end <= usize::MAX,
        agree(a, b, end),
    ensures
        bracket_end(a, i, end, open) == bracket_end(b, i, end, open),
    decreases left(i, end), 7int,
{
    lemma_commands_alike(a, b, i, end, true);
    lemma_command(b, i, end, true);
    if let Ok(c) = command(b, i, end, true) {
        if c.term < end {
            assert(a[c.term] == b[c.term]);
        }
        if c.term < end && b[c.term] == CLOSE_BRACKET {
        } else if c.next >= end || i >= end {
        } else {
            lemma_brackets(a, b, onward(i, c.next), end, open);
        }
    }
}

// ---------------------------------------------------------------------- words
proof fn lemma_braces(
    a: Seq<u8>,
    b: Seq<u8>,
    j: int,
    end: int,
    level: nat,
    seg: int,
    first: bool,
)
    requires
        0 <= j,
        agree(a, b, end),
    ensures
        braced(a, j, end, level, seg, first) == braced(b, j, end, level, seg, first),
    decreases left(j, end),
{
    if j < end {
        assert(a[j] == b[j]);
        if j + 1 < end {
            assert(a[j + 1] == b[j + 1]);
        }
        if b[j] == OPEN_BRACE {
            lemma_braces(a, b, j + 1, end, level + 1, seg, first);
        } else if b[j] == CLOSE_BRACE && level > 1 {
            lemma_braces(a, b, j + 1, end, (level - 1) as nat, seg, first);
        } else if b[j] == CLOSE_BRACE {
        } else if b[j] == BACKSLASH {
            lemma_escape(a, b, j, end);
            let n = escape_len(b, j, end);
            lemma_braces(a, b, j + n, end, level, j + n, false);
            lemma_braces(a, b, j + n, end, level, seg, first);
        } else {
            lemma_braces(a, b, j + 1, end, level, seg, first);
        }
    }
}

proof fn lemma_braced_elements(a: Seq<u8>, b: Seq<u8>, p: int, end: int, level: nat)
    requires
        0 <= p,
        agree(a, b, end),
    ensures
        braced_element_end(a, p, end, level) == braced_element_end(b, p, end, level),
    decreases left(p, end),
{
    if p < end {
        assert(a[p] == b[p]);
        if b[p] == OPEN_BRACE {
            lemma_braced_elements(a, b, p + 1, end, level + 1);
        } else if b[p] == CLOSE_BRACE && level > 1 {
            lemma_braced_elements(a, b, p + 1, end, (level - 1) as nat);
        } else if b[p] == CLOSE_BRACE {
        } else if b[p] == BACKSLASH {
            lemma_escape(a, b, p, end);
            lemma_braced_elements(a, b, p + escape_len(b, p, end), end, level);
        } else {
            lemma_braced_elements(a, b, p + 1, end, level);
        }
    }
}

proof fn lemma_quoted_elements(a: Seq<u8>, b: Seq<u8>, p: int, end: int)
    requires
        0 <= p,
        agree(a, b, end),
    ensures
        quoted_element_end(a, p, end) == quoted_element_end(b, p, end),
        quoted_element_end(b, p, end) matches Some(q) ==> p <= q < end,
    decreases left(p, end),
{
    if p < end {
        assert(a[p] == b[p]);
        if b[p] != BACKSLASH && b[p] != QUOTE {
            lemma_quoted_elements(a, b, p + 1, end);
        }
    }
}

proof fn lemma_bare_elements(a: Seq<u8>, b: Seq<u8>, p: int, end: int)
    requires
        0 <= p,
        agree(a, b, end),
    ensures
        bare_element_end(a, p, end) == bare_element_end(b, p, end),
        bare_element_end(b, p, end) matches Some(q) ==> p <= q,
    decreases left(p, end),
{
    if p < end {
        assert(a[p] == b[p]);
        if !is_list_space(b[p]) && b[p] != BACKSLASH {
            lemma_bare_elements(a, b, p + 1, end);
        }
    }
}

proof fn lemma_closing_brace(b: Seq<u8>, p: int, end: int, level: nat)
    ensures
        braced_element_end(b, p, end, level) matches Some(q) ==> p <= q < end,
    decreases left(p, end),
{
    if p >= end {
    } else if b[p] == OPEN_BRACE {
        lemma_closing_brace(b, p + 1, end, level + 1);
    } else if b[p] == CLOSE_BRACE && level > 1 {
        lemma_closing_brace(b, p + 1, end, (level - 1) as nat);
    } else if b[p] == CLOSE_BRACE {
    } else if b[p] == BACKSLASH {
        lemma_escape_len(b, p, end);
        lemma_closing_brace(b, p + escape_len(b, p, end), end, level);
    } else {
        lemma_closing_brace(b, p + 1, end, level);
    }
}

proof fn lemma_one_element(a: Seq<u8>, b: Seq<u8>, p: int, end: int, list: int)
    requires
        0 <= p < end,
        0 <= list,
        agree(a, b, end),
    ensures
        element(a, p, end) == element(b, p, end),
        element(b, p, end) matches Some(e) ==> element_tokens(a, e, list) == element_tokens(
            b,
            e,
            list,
        ),
{
    assert(a[p] == b[p]);
    if b[p] == OPEN_BRACE || b[p] == QUOTE {
        lemma_braced_elements(a, b, p + 1, end, 1);
        lemma_closing_brace(b, p + 1, end, 1);
        lemma_quoted_elements(a, b, p + 1, end);
        let close = if b[p] == OPEN_BRACE {
            braced_element_end(b, p + 1, end, 1)
        } else {
            quoted_element_end(b, p + 1, end)
        };
        if let Some(q) = close {
            if q + 1 < end {
                assert(a[q + 1] == b[q + 1]);
            }
            lemma_list_space(a, b, q + 1, end);
        }
    } else {
        lemma_bare_elements(a, b, p, end);
        if let Some(q) = bare_element_end(b, p, end) {
            lemma_list_space(a, b, q, end);
        }
        if p > 0 {
            assert(a[p - 1] == b[p - 1]);
        }
    }
}

proof fn lemma_all_elements(a: Seq<u8>, b: Seq<u8>, i: int, end: int, list: int)
    requires
        0 <= i,
        0 <= list,
        agree(a, b, end),
    ensures
        elements(a, i, end, list) == elements(b, i, end, list),
    decreases left(i, end),
{
    if i < end {
        lemma_one_element(a, b, i, end, list);
        if let Some(e) = element(b, i, end) {
            lemma_all_elements(a, b, onward(i, e.next), end, list);
        }
    }
}

proof fn lemma_word_bodies(a: Seq<u8>, b: Seq<u8>, k: int, end: int, nested: bool)
    requires
        0 <= k <= end <= usize::MAX,
        agree(a, b, end),
    ensures
        word_body(a, k, end, nested) == word_body(b, k, end, nested),
    decreases left(k, end), 3int,
{
    if k < end {
        assert(a[k] == b[k]);
        if b[k] == QUOTE {
            lemma_substitutions(a, b, k + 1, end, Stop::Quote);
        } else if b[k] == OPEN_BRACE {
            lemma_braces(a, b, k + 1, end, 1, k + 1, true);
        }
    }
    lemma_substitutions(a, b, k, end, Stop::Word { nested });
}

proof fn lemma_expansions(a: Seq<u8>, b: Seq<u8>, start: int, next: int, parts: Seq<Token>)
    requires
        parts.len() >= 1,
        parts.last().stop() <= next,
        agree(a, b, next),
    ensures
        expanded_word(a, start, next, parts) == expanded_word(b, start, next, parts),
{
    let list = parts[0].start as int;
    let stop = parts.last().stop();
    assert(agree(a, b, stop));
    lemma_list_space(a, b, list, stop);
    lemma_skip_list_space(b, list, stop);
    lemma_all_elements(a, b, skip_list_space(b, list, stop), stop, list);
}

proof fn lemma_one_word(a: Seq<u8>, b: Seq<u8>, j: int, end: int, nested: bool)
    requires
        0 <= j < end <= usize::MAX,
        agree(a, b, end),
    ensures
        word(a, j, end, nested) == word(b, j, end, nested),
    decreases left(j, end), 4int,
{
    reveal(word);
    assert(a[j] == b[j]);
    if j + 3 < end {
        assert(a[j + 1] == b[j + 1]);
        assert(a[j + 2] == b[j + 2]);
        assert(a[j + 3] == b[j + 3]);
        if j + 4 < end {
            assert(a[j + 4] == b[j + 4]);
        }
    }
    assert(expands(a, j, end) == expands(b, j, end));
    if expands(b, j, end) {
        lemma_word_bodies(a, b, j + 3, end, nested);
        lemma_word_body(b, j + 3, end, nested);
        if let Ok(t) = word_body(b, j + 3, end, nested) {
            assert(t.tokens.last().stop() <= t.next);
            assert(agree(a, b, t.next));
            lemma_expansions(a, b, j, t.next, t.tokens);
        }
    } else {
        lemma_word_bodies(a, b, j, end, nested);
    }
}

proof fn lemma_all_words(a: Seq<u8>, b: Seq<u8>, i: int, end: int, nested: bool)
    requires
        0 <= i <= end <= usize::MAX,
        agree(a, b, end),
    ensures
        words(a, i, end, nested) == words(b, i, end, nested),
    decreases left(i, end), 5int,
{
    reveal(word);
    reveal(words);
    lemma_blanks(a, b, i, end);
    lemma_skip_blanks(b, i, end);
    let j = skip_blanks(b, i, end);
    if j < end {
        assert(a[j] == b[j]);
        if !ends_command(b[j], nested) {
            lemma_one_word(a, b, j, end, nested);
            lemma_word(b, j, end, nested);
            if let Ok(w) = word(b, j, end, nested) {
                let k = w.next;
                if k < end {
                    assert(a[k] == b[k]);
                    if k + 1 < end {
                        assert(a[k + 1] == b[k + 1]);
                    }
                }
                lemma_all_words(a, b, k, end, nested);
            }
        }
    }
}

proof fn lemma_commands_alike(a: Seq<u8>, b: Seq<u8>, i: int, end: int, nested: bool)
    requires
        0 <= i <= end <= usize::MAX,
        agree(a, b, end),
    ensures
        command(a, i, end, nested) == command(b, i, end, nested),
    decreases left(i, end), 6int,
{
    reveal(words);
    lemma_leads(a, b, i, end);
    lemma_lead(b, i, end);
    lemma_all_words(a, b, lead(b, i, end).next, end, nested);
}

// ----------------------------------------------------------------------- laws
/// What stands at `end` or after it has no part in the parse of a command up to `end`: two
/// texts that agree before give the same command, or the same error.
pub proof fn a_bounded_parse_reads_no_further(
    a: Seq<u8>,
    b: Seq<u8>,
    i: int,
    end: int,
    nested: bool,
)
    requires
        0 <= i,
        end <= usize::MAX,
        agree(a, b, end),
    ensures
        parsed_command(a, i, end, nested) == parsed_command(b, i, end, nested),
{
    if i <= end {
        lemma_commands_alike(a, b, i, end, nested);
    }
}

/// The commands up to `end` are the same in two texts that agree before.
pub proof fn bounded_commands_read_no_further(a: Seq<u8>, b: Seq<u8>, i: int, end: int)
    requires
        0 <= i,
        end <= usize::MAX,
        agree(a, b, end),
    ensures
        commands(a, i, end) == commands(b, i, end),
    decreases left(i, end),
{
    if i < end {
        lemma_commands_alike(a, b, i, end, false);
        if let Ok(p) = command(b, i, end, false) {
            bounded_commands_read_no_further(a, b, onward(i, p.next), end);
        }
    }
}

} // verus!

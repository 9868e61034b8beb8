//! Where tokens lie: every token of a parse stands inside the text that was
//! read, every parse moves forward, and every error points into the text.
use vstd::prelude::*;

use crate::grammar::{
    all_text, bare_element_end, blanks_ask_for_more, braced, braced_element_end, bracket_end,
    command, components, continues_line, element, element_tokens, elements, ends_command,
    escape_len, expanded_count, expanded_word, expands, failure, is_blank, is_list_space, lead,
    left, lemma_escape_len, lemma_find_byte, lemma_lead, lemma_name_end, lemma_skip_blanks,
    lemma_skip_list_space, lemma_text_end, name_end, plain_word, quoted_element_end,
    skip_blanks, skip_list_space, starts_substitution, stops, substituted, text_end, token,
    variable, word, word_body, words, Parsed, Stop, Tokens, WordTokens, Words, BACKSLASH,
    CLOSE_BRACE, CLOSE_BRACKET, DOLLAR, NEWLINE, OPEN_BRACE, OPEN_BRACKET, OPEN_PAREN, QUOTE,
};
use crate::token::{word_stop, words_from, ParseError, Token};

verus! {

/// Every token lies in `lo..hi`.
pub open spec fn placed(tokens: Seq<Token>, lo: int, hi: int) -> bool {
    forall|k: int|
        0 <= k < tokens.len() ==> lo <= (#[trigger] tokens[k]).start && tokens[k].stop() <= hi
}

/// A parse from `i` that ended in bounds: its tokens lie in what it read, and its
/// error, if any, points into the text.
pub open spec fn in_bounds(r: Result<Tokens, ParseError>, i: int, end: int) -> bool {
    match r {
        Ok(t) => i <= t.next <= end && placed(t.tokens, i, t.next),
        Err(e) => i <= e.offset <= end,
    }
}

pub open spec fn word_in_bounds(r: Result<WordTokens, ParseError>, i: int, end: int) -> bool {
    match r {
        Ok(t) => i < t.next <= end && placed(t.tokens, i, t.next) && t.count <= t.tokens.len(),
        Err(e) => i <= e.offset <= end,
    }
}

pub open spec fn words_in_bounds(
    b: Seq<u8>,
    r: Result<Words, ParseError>,
    i: int,
    end: int,
    nested: bool,
) -> bool {
    match r {
        Ok(w) => {
            &&& i <= w.term <= w.next <= end
            &&& i < end ==> i < w.next
            &&& placed(w.tokens, i, w.term)
            &&& w.count <= w.tokens.len()
            &&& w.term < end ==> w.next == w.term + 1 && ends_command(b[w.term], nested)
        },
        Err(e) => i <= e.offset <= end,
    }
}

pub open spec fn command_in_bounds(
    b: Seq<u8>,
    r: Result<Parsed, ParseError>,
    i: int,
    end: int,
    nested: bool,
) -> bool {
    match r {
        Ok(p) => {
            &&& i <= p.start <= p.term <= p.next <= end
            &&& i < end ==> i < p.next
            &&& placed(p.words, p.start, p.term)
            &&& p.count <= p.words.len()
            &&& p.term < end ==> p.next == p.term + 1 && ends_command(b[p.term], nested)
            &&& p.comment matches Some(c) ==> i <= c.0 < c.1 <= p.start
        },
        Err(e) => i <= e.offset <= end,
    }
}

proof fn lemma_placed_concat(a: Seq<Token>, z: Seq<Token>, lo: int, mid: int, hi: int)
    requires
        placed(a, lo, mid),
        placed(z, mid, hi),
        lo <= mid <= hi,
    ensures
        placed(a + z, lo, hi),
{
}

/// A variable reference lies in bounds and takes up its `$`.
pub proof fn lemma_variable(b: Seq<u8>, i: int, end: int)
    requires
        0 <= i < end <= usize::MAX,
    ensures
        in_bounds(variable(b, i, end), i, end),
        variable(b, i, end) matches Ok(t) ==> i < t.next,
    decreases left(i, end), 0int,
{
    lemma_name_end(b, i + 1, end);
    let j = name_end(b, i + 1, end);
    if i + 1 < end && b[i + 1] == OPEN_BRACE {
        lemma_find_byte(b, i + 2, end, CLOSE_BRACE);
    } else if j < end && b[j] == OPEN_PAREN {
        lemma_substituted(b, j + 1, end, Stop::Paren);
    }
}

/// Components lie in bounds, and at least one is read where none stops the run.
pub proof fn lemma_components(b: Seq<u8>, i: int, end: int, stop: Stop)
    requires
        0 <= i <= end <= usize::MAX,
    ensures
        in_bounds(components(b, i, end, stop), i, end),
        components(b, i, end, stop) matches Ok(t) ==> (i < end && !stops(b[i], stop) && !(
        stop is Word && continues_line(b, i, end)) ==> i < t.next),
    decreases left(i, end), 1int,
{
    if i >= end || stops(b[i], stop) {
    } else if !starts_substitution(b[i]) {
        lemma_text_end(b, i + 1, end, stop);
        let j = text_end(b, i + 1, end, stop);
        lemma_components(b, j, end, stop);
        if let Ok(t) = components(b, j, end, stop) {
            lemma_placed_concat(
                seq![crate::grammar::text_token(i, j - i)],
                t.tokens,
                i,
                j,
                t.next,
            );
        }
    } else if b[i] == DOLLAR {
        lemma_variable(b, i, end);
        if let Ok(v) = variable(b, i, end) {
            lemma_components(b, v.next, end, stop);
            if let Ok(t) = components(b, v.next, end, stop) {
                lemma_placed_concat(v.tokens, t.tokens, i, v.next, t.next);
            }
        }
    } else if b[i] == OPEN_BRACKET {
        lemma_bracket_end(b, i + 1, end, i);
        if let Ok(j) = bracket_end(b, i + 1, end, i) {
            lemma_components(b, j, end, stop);
            if let Ok(t) = components(b, j, end, stop) {
                lemma_placed_concat(
                    seq![token(crate::token::TokenKind::Command, i, j - i, 0)],
                    t.tokens,
                    i,
                    j,
                    t.next,
                );
            }
        }
    } else if b[i] == BACKSLASH && escape_len(b, i, end) > 1 {
        lemma_escape_len(b, i, end);
        if !(b[i + 1] == NEWLINE && stop is Word) {
            let n = escape_len(b, i, end);
            lemma_components(b, i + n, end, stop);
            if let Ok(t) = components(b, i + n, end, stop) {
                lemma_placed_concat(
                    seq![token(crate::token::TokenKind::Backslash, i, n, 0)],
                    t.tokens,
                    i,
                    i + n,
                    t.next,
                );
            }
        }
    } else {
        lemma_components(b, i + 1, end, stop);
        if let Ok(t) = components(b, i + 1, end, stop) {
            lemma_placed_concat(
                seq![crate::grammar::text_token(i, 1)],
                t.tokens,
                i,
                i + 1,
                t.next,
            );
        }
    }
}

pub proof fn lemma_substituted(b: Seq<u8>, i: int, end: int, stop: Stop)
    requires
        0 <= i <= end <= usize::MAX,
    ensures
        in_bounds(substituted(b, i, end, stop), i, end),
        substituted(b, i, end, stop) matches Ok(t) ==> {
            &&& t.tokens.len() >= 1
            &&& i < end && !stops(b[i], stop) && !(stop is Word && continues_line(b, i, end))
                ==> i < t.next
        },
    decreases left(i, end), 2int,
{
    lemma_components(b, i, end, stop);
}

/// A nested script ends after its `]`.
pub proof fn lemma_bracket_end(b: Seq<u8>, i: int, end: int, open: int)
    requires
        0 <= open < i <= end <= usize::MAX,
    ensures
        match bracket_end(b, i, end, open) {
            Ok(j) => i < j <= end,
            Err(e) => open <= e.offset <= end,
        },
    decreases left(i, end), 7int,
{
    lemma_command(b, i, end, true);
    if let Ok(c) = command(b, i, end, true) {
        if c.term < end && b[c.term] == CLOSE_BRACKET {
        } else if c.next >= end || i >= end {
        } else {
            lemma_bracket_end(b, c.next, end, open);
        }
    }
}

/// The tokens of a braced word lie between its segment's start and its end.
pub proof fn lemma_braced(b: Seq<u8>, j: int, end: int, level: nat, seg: int, first: bool)
    requires
        0 <= seg <= j,
        end <= usize::MAX,
    ensures
        braced(b, j, end, level, seg, first) matches Some(t) ==> {
            &&& j < t.next <= end
            &&& placed(t.tokens, seg, t.next)
            &&& first ==> t.tokens.len() >= 1
        },
    decreases left(j, end),
{
    if j >= end {
    } else if b[j] == OPEN_BRACE {
        lemma_braced(b, j + 1, end, level + 1, seg, first);
    } else if b[j] == CLOSE_BRACE && level > 1 {
        lemma_braced(b, j + 1, end, (level - 1) as nat, seg, first);
    } else if b[j] == CLOSE_BRACE {
    } else if b[j] == BACKSLASH {
        lemma_escape_len(b, j, end);
        let n = escape_len(b, j, end);
        if n > 1 && b[j + 1] == NEWLINE {
            lemma_braced(b, j + n, end, level, j + n, false);
        } else {
            lemma_braced(b, j + n, end, level, seg, first);
        }
    } else {
        lemma_braced(b, j + 1, end, level, seg, first);
    }
}

proof fn lemma_braced_element_end(b: Seq<u8>, p: int, end: int, level: nat)
    ensures
        braced_element_end(b, p, end, level) matches Some(q) ==> p <= q < end,
    decreases left(p, end),
{
    if p >= end {
    } else if b[p] == OPEN_BRACE {
        lemma_braced_element_end(b, p + 1, end, level + 1);
    } else if b[p] == CLOSE_BRACE && level > 1 {
        lemma_braced_element_end(b, p + 1, end, (level - 1) as nat);
    } else if b[p] == CLOSE_BRACE {
    } else if b[p] == BACKSLASH {
        lemma_escape_len(b, p, end);
        lemma_braced_element_end(b, p + escape_len(b, p, end), end, level);
    } else {
        lemma_braced_element_end(b, p + 1, end, level);
    }
}

proof fn lemma_quoted_element_end(b: Seq<u8>, p: int, end: int)
    ensures
        quoted_element_end(b, p, end) matches Some(q) ==> p <= q < end,
    decreases left(p, end),
{
    if !(p >= end || b[p] == BACKSLASH) && b[p] != QUOTE {
        lemma_quoted_element_end(b, p + 1, end);
    }
}

proof fn lemma_bare_element_end(b: Seq<u8>, p: int, end: int)
    requires
        p <= end,
    ensures
        bare_element_end(b, p, end) matches Some(q) ==> p <= q <= end && (q < end
            ==> is_list_space(b[q])),
    decreases left(p, end),
{
    if !(p >= end || is_list_space(b[p])) && b[p] != BACKSLASH {
        lemma_bare_element_end(b, p + 1, end);
    }
}

/// A list element lies in bounds, and the next one begins after it.
pub proof fn lemma_element(b: Seq<u8>, p: int, end: int)
    requires
        0 <= p < end <= usize::MAX,
        !is_list_space(b[p]),
    ensures
        element(b, p, end) matches Some(e) ==> {
            &&& p < e.next <= end
            &&& 0 <= e.size
            &&& e.start + e.size <= end
            &&& b[p] == OPEN_BRACE || b[p] == QUOTE ==> e.start == p + 1 && e.start + e.size < end
            &&& !(b[p] == OPEN_BRACE || b[p] == QUOTE) ==> e.start == p
            &&& e.next < end ==> is_list_space(b[e.next - 1]) && !is_list_space(b[e.next])
        },
{
    lemma_braced_element_end(b, p + 1, end, 1);
    lemma_quoted_element_end(b, p + 1, end);
    lemma_bare_element_end(b, p, end);
    if b[p] == OPEN_BRACE || b[p] == QUOTE {
        let close = if b[p] == OPEN_BRACE {
            braced_element_end(b, p + 1, end, 1)
        } else {
            quoted_element_end(b, p + 1, end)
        };
        if let Some(q) = close {
            lemma_skip_list_space(b, q + 1, end);
        }
    } else if let Some(q) = bare_element_end(b, p, end) {
        lemma_skip_list_space(b, q, end);
    }
}

pub proof fn lemma_elements(b: Seq<u8>, i: int, end: int, list: int)
    requires
        0 <= list <= i,
        end <= usize::MAX,
        i < end ==> !is_list_space(b[i]),
        list < i < end ==> is_list_space(b[i - 1]),
    ensures
        elements(b, i, end, list) matches Some(t) ==> placed(t, list, end) && (t.len() > 0
            ==> !(t[0].kind is ExpandWord)),
    decreases left(i, end),
{
    if i < end {
        lemma_element(b, i, end);
        if let Some(e) = element(b, i, end) {
            lemma_elements(b, e.next, end, list);
        }
    }
}

/// A word's components lie in bounds, and there is at least one.
pub proof fn lemma_word_body(b: Seq<u8>, k: int, end: int, nested: bool)
    requires
        0 <= k <= end <= usize::MAX,
    ensures
        in_bounds(word_body(b, k, end, nested), k, end),
        word_body(b, k, end, nested) matches Ok(t) ==> {
            &&& t.tokens.len() >= 1
            &&& k < end && !is_blank(b[k]) && !ends_command(b[k], nested) && !continues_line(
                b,
                k,
                end,
            ) ==> k < t.next
        },
    decreases left(k, end), 3int,
{
    if k < end && b[k] == QUOTE {
        lemma_substituted(b, k + 1, end, Stop::Quote);
    } else if k < end && b[k] == OPEN_BRACE {
        lemma_braced(b, k + 1, end, 1, k + 1, true);
    } else {
        lemma_substituted(b, k, end, Stop::Word { nested });
    }
}

pub proof fn lemma_expanded_word(b: Seq<u8>, start: int, next: int, parts: Seq<Token>)
    requires
        0 <= start <= next <= usize::MAX,
        placed(parts, start, next),
        parts.len() >= 1,
    ensures
        placed(expanded_word(b, start, next, parts), start, next),
        expanded_count(expanded_word(b, start, next, parts)) <= expanded_word(
            b,
            start,
            next,
            parts,
        ).len(),
{
    let list = parts[0].start as int;
    let stop = parts.last().stop();
    if all_text(parts) {
        lemma_skip_list_space(b, list, stop);
        let i = skip_list_space(b, list, stop);
        lemma_elements(b, i, stop, list);
    }
}

/// A word lies in bounds and is not empty.
pub proof fn lemma_word(b: Seq<u8>, j: int, end: int, nested: bool)
    requires
        0 <= j < end <= usize::MAX,
        !is_blank(b[j]),
        !continues_line(b, j, end),
        !ends_command(b[j], nested),
    ensures
        word_in_bounds(word(b, j, end, nested), j, end),
    decreases left(j, end), 4int,
{
    reveal(word);
    if expands(b, j, end) {
        lemma_word_body(b, j + 3, end, nested);
        if let Ok(t) = word_body(b, j + 3, end, nested) {
            lemma_expanded_word(b, j, t.next, t.tokens);
        }
    } else {
        lemma_word_body(b, j, end, nested);
    }
}

/// What the words already read add to the rest of a command.
pub open spec fn words_after(
    first: Seq<Token>,
    count: nat,
    rest: Result<Words, ParseError>,
) -> Result<Words, ParseError> {
    match rest {
        Ok(w) => Ok(Words { tokens: first + w.tokens, count: count + w.count, ..w }),
        Err(e) => Err(e),
    }
}

/// One word is read off the front of the words at `i`.
#[verifier::spinoff_prover]
pub proof fn lemma_words_step(
    b: Seq<u8>,
    i: int,
    end: int,
    nested: bool,
    first: Seq<Token>,
    count: nat,
)
    requires
        0 <= i <= end <= usize::MAX,
    ensures
        ({
            let j = skip_blanks(b, i, end);
            let all = words_after(first, count, words(b, i, end, nested));
            if j >= end {
                all == Ok::<Words, ParseError>(
                    Words {
                        tokens: first,
                        count,
                        term: j,
                        next: j,
                        more: blanks_ask_for_more(b, i, end),
                    },
                )
            } else if ends_command(b[j], nested) {
                all == Ok::<Words, ParseError>(
                    Words { tokens: first, count, term: j, next: j + 1, more: false },
                )
            } else {
                match word(b, j, end, nested) {
                    Ok(w) => if w.next < end && !is_blank(b[w.next]) && !continues_line(
                        b,
                        w.next,
                        end,
                    ) && !ends_command(b[w.next], nested) {
                        all == Err::<Words, ParseError>(failure(w.next, false))
                    } else {
                        all == words_after(
                            first + w.tokens,
                            count + w.count,
                            words(b, w.next, end, nested),
                        )
                    },
                    Err(e) => all == Err::<Words, ParseError>(e),
                }
            }
        }),
{
    reveal(words);
    lemma_skip_blanks(b, i, end);
    let j = skip_blanks(b, i, end);
    assert(first + Seq::<Token>::empty() =~= first);
    if j < end && !ends_command(b[j], nested) {
        lemma_word(b, j, end, nested);
        if let Ok(w) = word(b, j, end, nested) {
            if let Ok(rest) = words(b, w.next, end, nested) {
                assert(first + (w.tokens + rest.tokens) =~= (first + w.tokens) + rest.tokens);
            }
        }
    }
}

/// The words of a command lie before its terminator.
pub proof fn lemma_words(b: Seq<u8>, i: int, end: int, nested: bool)
    requires
        0 <= i <= end <= usize::MAX,
    ensures
        words_in_bounds(b, words(b, i, end, nested), i, end, nested),
    decreases left(i, end), 5int,
{
    reveal(word);
    reveal(words);
    lemma_skip_blanks(b, i, end);
    let j = skip_blanks(b, i, end);
    if j >= end || ends_command(b[j], nested) {
    } else {
        lemma_word(b, j, end, nested);
        if let Ok(w) = word(b, j, end, nested) {
            lemma_words(b, w.next, end, nested);
            if let Ok(rest) = words(b, w.next, end, nested) {
                lemma_placed_concat(w.tokens, rest.tokens, i, w.next, rest.term);
            }
        }
    }
}

/// Words take up space: a command with words does not end where it began.
pub proof fn lemma_words_nonempty(b: Seq<u8>, i: int, end: int, nested: bool)
    requires
        0 <= i <= end <= usize::MAX,
    ensures
        words(b, i, end, nested) matches Ok(w) ==> (w.count > 0 ==> i < w.next),
{
    lemma_words_step(b, i, end, nested, Seq::empty(), 0);
    lemma_words(b, i, end, nested);
}

/// A command lies in bounds: its comment before its words, its words before its
/// terminator.
pub proof fn lemma_command(b: Seq<u8>, i: int, end: int, nested: bool)
    requires
        0 <= i <= end <= usize::MAX,
    ensures
        command_in_bounds(b, command(b, i, end, nested), i, end, nested),
    decreases left(i, end), 6int,
{
    reveal(words);
    lemma_lead(b, i, end);
    lemma_words(b, lead(b, i, end).next, end, nested);
}

// --------------------------------------------------------------------- groups
/// The tokens are `n` words: each a head token with as many components as it
/// says, and these lie inside it.
pub open spec fn grouped(tokens: Seq<Token>, n: nat) -> bool
    decreases n,
{
    if n == 0 {
        tokens.len() == 0
    } else {
        tokens.len() > 0 && {
            let size = 1 + tokens[0].num_components;
            &&& size <= tokens.len()
            &&& placed(tokens.subrange(1, size), tokens[0].start as int, tokens[0].stop())
            &&& grouped(tokens.subrange(size, tokens.len() as int), (n - 1) as nat)
        }
    }
}

proof fn lemma_grouped_concat(a: Seq<Token>, m: nat, z: Seq<Token>, n: nat)
    requires
        grouped(a, m),
        grouped(z, n),
    ensures
        grouped(a + z, m + n),
    decreases m,
{
    if m == 0 {
        assert(a + z =~= z);
    } else {
        let size = 1 + a[0].num_components;
        let rest = a.subrange(size, a.len() as int);
        lemma_grouped_concat(rest, (m - 1) as nat, z, n);
        assert((a + z)[0] == a[0]);
        assert((a + z).subrange(1, size) =~= a.subrange(1, size));
        assert((a + z).subrange(size, (a + z).len() as int) =~= rest + z);
    }
}

proof fn lemma_one_group(head: Token, parts: Seq<Token>)
    requires
        head.num_components == parts.len(),
        placed(parts, head.start as int, head.stop()),
    ensures
        grouped(seq![head] + parts, 1),
{
    let all = seq![head] + parts;
    let size = 1 + head.num_components;
    assert(all.subrange(1, size) =~= parts);
    assert(all.subrange(size, all.len() as int) =~= seq![]);
    assert(grouped(Seq::<Token>::empty(), 0));
}

proof fn lemma_elements_grouped(b: Seq<u8>, i: int, end: int, list: int)
    requires
        0 <= list <= i,
        end <= usize::MAX,
        i < end ==> !is_list_space(b[i]),
        list < i < end ==> is_list_space(b[i - 1]),
    ensures
        elements(b, i, end, list) matches Some(t) ==> t.len() % 2 == 0 && grouped(
            t,
            (t.len() / 2) as nat,
        ),
    decreases left(i, end),
{
    if i < end {
        lemma_element(b, i, end);
        if let Some(e) = element(b, i, end) {
            lemma_elements_grouped(b, e.next, end, list);
            if let Some(rest) = elements(b, e.next, end, list) {
                let two = element_tokens(b, e, list);
                assert(two =~= seq![two[0]] + seq![two[1]]);
                lemma_one_group(two[0], seq![two[1]]);
                lemma_grouped_concat(two, 1, rest, (rest.len() / 2) as nat);
            }
        }
    }
}

proof fn lemma_word_grouped(b: Seq<u8>, j: int, end: int, nested: bool)
    requires
        0 <= j < end <= usize::MAX,
    ensures
        word(b, j, end, nested) matches Ok(w) ==> (w.tokens.len() <= usize::MAX ==> grouped(
            w.tokens,
            w.count,
        )),
{
    reveal(word);
    if expands(b, j, end) {
        lemma_word_body(b, j + 3, end, nested);
        if let Ok(t) = word_body(b, j + 3, end, nested) {
            let parts = t.tokens;
            let list = parts[0].start as int;
            let stop = parts.last().stop();
            let kind = crate::token::TokenKind::ExpandWord;
            let head = token(kind, j, t.next - j, parts.len() as int);
            if all_text(parts) {
                lemma_skip_list_space(b, list, stop);
                let i = skip_list_space(b, list, stop);
                lemma_elements(b, i, stop, list);
                lemma_elements_grouped(b, i, stop, list);
            }
            if parts.len() <= usize::MAX {
                lemma_one_group(head, parts);
            }
        }
    } else {
        lemma_word_body(b, j, end, nested);
        if let Ok(t) = word_body(b, j, end, nested) {
            let all = plain_word(j, t.next, t.tokens);
            if all.len() <= usize::MAX {
                lemma_one_group(all[0], t.tokens);
            }
        }
    }
}

/// The tokens of a command are its words, as many as are counted.
pub proof fn lemma_words_grouped(b: Seq<u8>, i: int, end: int, nested: bool)
    requires
        0 <= i <= end <= usize::MAX,
    ensures
        words(b, i, end, nested) matches Ok(w) ==> (w.tokens.len() <= usize::MAX ==> grouped(
            w.tokens,
            w.count,
        )),
    decreases left(i, end),
{
    let empty = Seq::<Token>::empty();
    lemma_words_step(b, i, end, nested, empty, 0);
    lemma_skip_blanks(b, i, end);
    let j = skip_blanks(b, i, end);
    if let Ok(all) = words(b, i, end, nested) {
        assert(empty + all.tokens =~= all.tokens);
        if j < end && !ends_command(b[j], nested) {
            lemma_word(b, j, end, nested);
            lemma_word_grouped(b, j, end, nested);
            if let Ok(w) = word(b, j, end, nested) {
                lemma_words_grouped(b, w.next, end, nested);
                if let Ok(rest) = words(b, w.next, end, nested) {
                    assert(empty + w.tokens =~= w.tokens);
                    assert(all.tokens == w.tokens + rest.tokens);
                    if all.tokens.len() <= usize::MAX {
                        lemma_grouped_concat(w.tokens, w.count, rest.tokens, rest.count);
                    }
                }
            }
        }
    }
}

/// What a word of a grouped token array is: a head with its components inside it.
pub open spec fn is_group(word: Seq<Token>) -> bool {
    &&& word.len() > 0
    &&& placed(word, word[0].start as int, word[0].stop())
}

/// Splitting a grouped token array gives its groups.
pub proof fn lemma_groups(tokens: Seq<Token>, i: int, n: nat)
    requires
        0 <= i <= tokens.len(),
        grouped(tokens.subrange(i, tokens.len() as int), n),
    ensures
        words_from(tokens, i).len() == n,
        forall|k: int| 0 <= k < n ==> is_group(#[trigger] words_from(tokens, i)[k]),
    decreases n,
{
    let here = tokens.subrange(i, tokens.len() as int);
    if n > 0 {
        let size = 1 + here[0].num_components;
        let j = word_stop(tokens, i);
        assert(j == i + size);
        assert(here.subrange(size, here.len() as int) =~= tokens.subrange(
            j,
            tokens.len() as int,
        ));
        lemma_groups(tokens, j, (n - 1) as nat);
        let all = words_from(tokens, i);
        let rest = words_from(tokens, j);
        let first = tokens.subrange(i, j);
        assert(all =~= seq![first] + rest);
        assert forall|k: int| 0 <= k < n implies is_group(#[trigger] all[k]) by {
            if k > 0 {
                assert(all[k] == rest[k - 1]);
            } else {
                let parts = here.subrange(1, size);
                assert forall|m: int| 0 <= m < first.len() implies first[0].start
                    <= (#[trigger] first[m]).start && first[m].stop() <= first[0].stop() by {
                    if m > 0 {
                        assert(first[m] == parts[m - 1]);
                    }
                }
            }
        }
    }
}

} // verus!

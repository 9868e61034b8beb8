//! The parser: executable functions that compute what the grammar says.
use core::ops::Range;
use vstd::prelude::*;

use crate::grammar::{
    after, all_text, bare_element_end, blanks_ask_for_more, braced, braced_element_end,
    bracket_end, command, command_view, comment_asks_for_more, comment_end, components,
    continues_line, element, element_tokens, elements, ends_command, escape_len, expanded_word,
    expands, find_byte, hex_run, hex_value, is_blank, is_hex_digit, is_list_space, is_name_byte,
    is_octal_digit, lead, lemma_comment_end, lemma_escape_len, lemma_lead, lemma_skip_blanks,
    lemma_skip_list_space, name_end, plain_word, quoted_element_end, skip_blanks, skip_colons,
    skip_indent, skip_list_space, skip_space, space_asks_for_more, starts_substitution, stops,
    substituted, text_end, text_token, token, variable, word, word_body, words, Lead, Parsed,
    Stop, Tokens, BACKSLASH, CLOSE_BRACE, CLOSE_BRACKET, CLOSE_PAREN, COLON, DOLLAR, FORM_FEED,
    HASH, NEWLINE, NUL, OPEN_BRACE, OPEN_BRACKET, OPEN_PAREN, QUOTE, RETURN, SEMICOLON, SPACE,
    STAR, TAB, VERTICAL_TAB,
};
use crate::placement::{
    lemma_bracket_end, lemma_command, lemma_components, lemma_element, lemma_substituted,
    lemma_variable, lemma_word, lemma_word_body, lemma_words, lemma_words_step, words_after,
};
use crate::token::{Command, ParseError, Token, TokenKind};

verus! {

// ---------------------------------------------------------------- characters
fn blank(c: u8) -> (r: bool)
    ensures
        r == is_blank(c),
{
    c == TAB || c == VERTICAL_TAB || c == FORM_FEED || c == RETURN || c == SPACE
}

fn list_space(c: u8) -> (r: bool)
    ensures
        r == is_list_space(c),
{
    blank(c) || c == NEWLINE
}

fn command_ends(c: u8, nested: bool) -> (r: bool)
    ensures
        r == ends_command(c, nested),
{
    c == NEWLINE || c == SEMICOLON || (nested && c == CLOSE_BRACKET)
}

fn substitution_starts(c: u8) -> (r: bool)
    ensures
        r == starts_substitution(c),
{
    c == NUL || c == DOLLAR || c == OPEN_BRACKET || c == BACKSLASH
}

fn run_stops(c: u8, stop: Stop) -> (r: bool)
    ensures
        r == stops(c, stop),
{
    match stop {
        Stop::Word { nested } => blank(c) || command_ends(c, nested),
        Stop::Quote => c == QUOTE,
        Stop::Paren => c == CLOSE_PAREN,
    }
}

fn hex_digit(c: u8) -> (r: bool)
    ensures
        r == is_hex_digit(c),
{
    (48 <= c && c <= 57) || (65 <= c && c <= 70) || (97 <= c && c <= 102)
}

fn octal_digit(c: u8) -> (r: bool)
    ensures
        r == is_octal_digit(c),
{
    48 <= c && c <= 55
}

fn name_byte(c: u8) -> (r: bool)
    ensures
        r == is_name_byte(c),
{
    (48 <= c && c <= 57) || (65 <= c && c <= 90) || (97 <= c && c <= 122) || c == 95
}

fn line_continues(b: &[u8], i: usize, end: usize) -> (r: bool)
    requires
        i <= end <= b@.len(),
    ensures
        r == continues_line(b@, i as int, end as int),
{
    i < end && i < end - 1 && b[i] == BACKSLASH && b[i + 1] == NEWLINE
}

// --------------------------------------------------------------- white space
/// The end of the blanks at `i`, and whether they ask for another line.
fn past_blanks(b: &[u8], i: usize, end: usize) -> (r: (usize, bool))
    requires
        i <= end <= b@.len(),
    ensures
        r.0 == skip_blanks(b@, i as int, end as int),
        r.1 == blanks_ask_for_more(b@, i as int, end as int),
        i <= r.0 <= end,
{
    let mut p: usize = i;
    let mut more = false;
    loop
        invariant
            i <= p <= end <= b@.len(),
            skip_blanks(b@, i as int, end as int) == skip_blanks(b@, p as int, end as int),
            blanks_ask_for_more(b@, i as int, end as int) == (more || blanks_ask_for_more(
                b@,
                p as int,
                end as int,
            )),
        decreases end - p,
    {
        if p < end && blank(b[p]) {
            p = p + 1;
        } else if line_continues(b, p, end) {
            p = p + 2;
            if p == end {
                more = true;
            }
        } else {
            return (p, more);
        }
    }
}

/// The end of the white space at `i`, newlines included, and whether it asks for
/// another line.
fn past_space(b: &[u8], i: usize, end: usize) -> (r: (usize, bool))
    requires
        i <= end <= b@.len(),
    ensures
        r.0 == skip_space(b@, i as int, end as int),
        r.1 == space_asks_for_more(b@, i as int, end as int),
        i <= r.0 <= end,
{
    let mut p: usize = i;
    let mut more = false;
    loop
        invariant
            i <= p <= end <= b@.len(),
            skip_space(b@, i as int, end as int) == skip_space(b@, p as int, end as int),
            space_asks_for_more(b@, i as int, end as int) == (more || space_asks_for_more(
                b@,
                p as int,
                end as int,
            )),
        decreases end - p,
    {
        let (q, asks) = past_blanks(b, p, end);
        if asks {
            more = true;
        }
        if q < end && b[q] == NEWLINE {
            p = q + 1;
        } else {
            return (q, more);
        }
    }
}

fn past_list_space(b: &[u8], i: usize, end: usize) -> (r: usize)
    requires
        end <= b@.len(),
    ensures
        r == skip_list_space(b@, i as int, end as int),
{
    let mut p: usize = i;
    while p < end && list_space(b[p])
        invariant
            i <= p,
            end <= b@.len(),
            skip_list_space(b@, i as int, end as int) == skip_list_space(
                b@,
                p as int,
                end as int,
            ),
        decreases end - p,
    {
        p = p + 1;
    }
    p
}

// -------------------------------------------------------------------- escapes
fn digit_value(c: u8) -> (r: u32)
    requires
        is_hex_digit(c),
    ensures
        r == hex_value(c),
        r < 16,
{
    if c <= 57 {
        (c - 48) as u32
    } else if c <= 70 {
        (c - 55) as u32
    } else {
        (c - 87) as u32
    }
}

fn hex_digits(b: &[u8], i: usize, end: usize, most: usize) -> (n: usize)
    requires
        i <= end <= b@.len(),
    ensures
        n == hex_run(b@, i as int, end as int, most as nat, 0),
        n <= end - i,
{
    let mut n: usize = 0;
    let mut value: u32 = 0;
    while n < most && n < end - i && hex_digit(b[i + n]) && value <= 0x10fff
        invariant
            n <= most,
            i <= end <= b@.len(),
            n <= end - i,
            hex_run(b@, i as int, end as int, most as nat, 0) == n + hex_run(
                b@,
                i + n,
                end as int,
                (most - n) as nat,
                value as int,
            ),
        decreases most - n,
    {
        value = value * 16 + digit_value(b[i + n]);
        n = n + 1;
    }
    n
}

/// Length of the escape sequence at `i`.
fn escape(b: &[u8], i: usize, end: usize) -> (n: usize)
    requires
        i < end <= b@.len(),
    ensures
        n == escape_len(b@, i as int, end as int),
        1 <= n <= end - i,
{
    proof {
        lemma_escape_len(b@, i as int, end as int);
    }
    let room: usize = end - i;
    if room <= 1 || b[i + 1] == NUL {
        return 1;
    }
    let c = b[i + 1];
    if c == 120 {
        2 + hex_digits(b, i + 2, end, 2)
    } else if c == 117 {
        2 + hex_digits(b, i + 2, end, 4)
    } else if c == 85 {
        2 + hex_digits(b, i + 2, end, 8)
    } else if c == NEWLINE {
        let mut p: usize = i + 2;
        while p < end && (b[p] == SPACE || b[p] == TAB)
            invariant
                i + 2 <= p <= end <= b@.len(),
                skip_indent(b@, i + 2, end as int) == skip_indent(b@, p as int, end as int),
            decreases end - p,
        {
            p = p + 1;
        }
        p - i
    } else if octal_digit(c) {
        if room == 2 || !octal_digit(b[i + 2]) {
            2
        } else if room == 3 || !octal_digit(b[i + 3]) || c >= 52 {
            3
        } else {
            4
        }
    } else {
        let width: usize = if 0xC0 <= c && c < 0xE0 {
            2
        } else if 0xE0 <= c && c < 0xF0 {
            3
        } else if 0xF0 <= c && c < 0xF8 {
            4
        } else {
            1
        };
        if width < room - 1 {
            1 + width
        } else {
            room
        }
    }
}

// ------------------------------------------------------------------- comments
/// The end of the comment line at `i`, and whether it asks for another line.
fn past_comment(b: &[u8], i: usize, end: usize) -> (r: (usize, bool))
    requires
        i <= end <= b@.len(),
    ensures
        r.0 == comment_end(b@, i as int, end as int),
        r.1 == comment_asks_for_more(b@, i as int, end as int),
        i <= r.0 <= end,
{
    let mut p: usize = i;
    let mut more = false;
    while p < end
        invariant
            i <= p <= end <= b@.len(),
            comment_end(b@, i as int, end as int) == comment_end(b@, p as int, end as int),
            comment_asks_for_more(b@, i as int, end as int) == (more || comment_asks_for_more(
                b@,
                p as int,
                end as int,
            )),
        decreases end - p,
    {
        if b[p] == BACKSLASH {
            let (q, asks) = past_blanks(b, p, end);
            if q > p {
                if asks {
                    more = true;
                }
                p = q;
            } else {
                p = p + escape(b, p, end);
            }
        } else if b[p] == NEWLINE {
            return (p + 1, more);
        } else {
            p = p + 1;
        }
    }
    (p, more)
}

/// What a run of comment lines adds up to with what follows it.
spec fn joined(comment: Option<(usize, usize)>, more: bool, rest: Lead) -> Lead {
    Lead {
        comment: match comment {
            Some(c) => Some(
                (
                    c.0 as int,
                    match rest.comment {
                        Some((_, last)) => last,
                        None => c.1 as int,
                    },
                ),
            ),
            None => rest.comment,
        },
        next: rest.next,
        more: more || rest.more,
    }
}

/// The comment block, the start of the command, and whether more input is asked for.
fn past_lead(b: &[u8], i: usize, end: usize) -> (r: (Option<Range<usize>>, usize, bool))
    requires
        i <= end <= b@.len(),
    ensures
        ({
            let l = lead(b@, i as int, end as int);
            &&& r.0 == (match l.comment {
                Some(c) => Some(Range { start: c.0 as usize, end: c.1 as usize }),
                None => None,
            })
            &&& r.1 == l.next
            &&& r.2 == l.more
        }),
        i <= r.1 <= end,
{
    let mut p: usize = i;
    let mut comment: Option<(usize, usize)> = None;
    let mut more = false;
    loop
        invariant
            i <= p <= end <= b@.len(),
            lead(b@, i as int, end as int) == joined(
                comment,
                more,
                lead(b@, p as int, end as int),
            ),
        decreases end - p,
    {
        let (j, asks) = past_space(b, p, end);
        if asks {
            more = true;
        }
        if j < end && b[j] == HASH {
            let (k, asks_too) = past_comment(b, j, end);
            proof {
                lemma_comment_end(b@, j as int, end as int);
                lemma_lead(b@, k as int, end as int);
            }
            if asks_too {
                more = true;
            }
            comment = match comment {
                Some((first, _)) => Some((first, k)),
                None => Some((j, k)),
            };
            p = k;
        } else {
            let block = match comment {
                Some((first, last)) => Some(first..last),
                None => None,
            };
            return (block, j, more);
        }
    }
}

// ----------------------------------------------------------------- components
/// That a parse came out as the grammar says: the tokens were added to `before`,
/// or the error is the one.
spec fn yields(
    r: Result<usize, ParseError>,
    before: Seq<Token>,
    now: Seq<Token>,
    expected: Result<Tokens, ParseError>,
) -> bool {
    match expected {
        Ok(t) => r is Ok && r->Ok_0 == t.next && now == before + t.tokens,
        Err(e) => r == Err::<usize, ParseError>(e),
    }
}

proof fn lemma_after(first: Seq<Token>, second: Seq<Token>, rest: Result<Tokens, ParseError>)
    ensures
        after(first, after(second, rest)) == after(first + second, rest),
        after(Seq::empty(), rest) == rest,
{
    if let Ok(t) = rest {
        assert(first + (second + t.tokens) =~= (first + second) + t.tokens);
        assert(Seq::<Token>::empty() + t.tokens =~= t.tokens);
    }
}

/// A `$` reference at `i`.
fn parse_variable(b: &[u8], i: usize, end: usize, out: &mut Vec<Token>) -> (r: Result<
    usize,
    ParseError,
>)
    requires
        i < end <= b@.len(),
    ensures
        yields(r, old(out)@, final(out)@, variable(b@, i as int, end as int)),
    decreases end - i, 0int,
{
    let mut j: usize = i + 1;
    if j < end && b[j] == OPEN_BRACE {
        let mut k: usize = i + 2;
        while k < end && b[k] != CLOSE_BRACE
            invariant
                i + 2 <= k <= end <= b@.len(),
                find_byte(b@, i + 2, end as int, CLOSE_BRACE) == find_byte(
                    b@,
                    k as int,
                    end as int,
                    CLOSE_BRACE,
                ),
            decreases end - k,
        {
            k = k + 1;
        }
        if k >= end {
            return Err(ParseError { offset: i + 1, incomplete: true });
        }
        out.push(
            Token { kind: TokenKind::Variable, start: i, size: k + 1 - i, num_components: 1 },
        );
        out.push(
            Token { kind: TokenKind::Text, start: i + 2, size: k - (i + 2), num_components: 0 },
        );
        assert(out@ =~= old(out)@ + variable(b@, i as int, end as int)->Ok_0.tokens);
        return Ok(k + 1);
    }
    loop
        invariant_except_break
            i + 1 <= j <= end <= b@.len(),
            name_end(b@, i + 1, end as int) == name_end(b@, j as int, end as int),
        ensures
            i + 1 <= j <= end,
            j == name_end(b@, i + 1, end as int),
        decreases end - j,
    {
        if j < end && name_byte(b[j]) {
            j = j + 1;
        } else if j < end && j < end - 1 && b[j] == COLON && b[j + 1] == COLON {
            let ghost from = j + 2;
            j = j + 2;
            while j < end && b[j] == COLON
                invariant
                    from <= j <= end <= b@.len(),
                    skip_colons(b@, from, end as int) == skip_colons(b@, j as int, end as int),
                decreases end - j,
            {
                j = j + 1;
            }
        } else {
            break ;
        }
    }
    if j < end && b[j] == OPEN_PAREN {
        let mut parts: Vec<Token> = Vec::new();
        parts.push(
            Token { kind: TokenKind::Text, start: i + 1, size: j - (i + 1), num_components: 0 },
        );
        proof {
            lemma_substituted(b@, j + 1, end as int, Stop::Paren);
        }
        match parse_substituted(b, j + 1, end, Stop::Paren, &mut parts) {
            Ok(n) => {
                if n >= end {
                    return Err(ParseError { offset: j, incomplete: true });
                }
                out.push(
                    Token {
                        kind: TokenKind::Variable,
                        start: i,
                        size: n + 1 - i,
                        num_components: parts.len(),
                    },
                );
                out.append(&mut parts);
                assert(out@ =~= old(out)@ + variable(b@, i as int, end as int)->Ok_0.tokens);
                Ok(n + 1)
            },
            Err(e) => Err(e),
        }
    } else if j > i + 1 {
        out.push(Token { kind: TokenKind::Variable, start: i, size: j - i, num_components: 1 });
        out.push(
            Token { kind: TokenKind::Text, start: i + 1, size: j - (i + 1), num_components: 0 },
        );
        assert(out@ =~= old(out)@ + variable(b@, i as int, end as int)->Ok_0.tokens);
        Ok(j)
    } else {
        out.push(Token { kind: TokenKind::Text, start: i, size: 1, num_components: 0 });
        assert(out@ =~= old(out)@ + variable(b@, i as int, end as int)->Ok_0.tokens);
        Ok(i + 1)
    }
}

/// The components at `i`.
fn parse_components(b: &[u8], i: usize, end: usize, stop: Stop, out: &mut Vec<Token>) -> (r: Result<
    usize,
    ParseError,
>)
    requires
        i <= end <= b@.len(),
    ensures
        yields(r, old(out)@, final(out)@, components(b@, i as int, end as int, stop)),
    decreases end - i, 1int,
{
    let ghost whole = components(b@, i as int, end as int, stop);
    let ghost mut acc: Seq<Token> = Seq::empty();
    let mut p: usize = i;
    proof {
        lemma_after(acc, acc, whole);
    }
    while p < end && !run_stops(b[p], stop)
        invariant
            i <= p <= end <= b@.len(),
            whole == components(b@, i as int, end as int, stop),
            out@ =~= old(out)@ + acc,
            whole == after(acc, components(b@, p as int, end as int, stop)),
        decreases end - p,
    {
        let ghost at = p as int;
        let ghost mut step: Seq<Token> = Seq::empty();
        if !substitution_starts(b[p]) {
            let mut q: usize = p + 1;
            while q < end && !run_stops(b[q], stop) && !substitution_starts(b[q])
                invariant
                    p + 1 <= q <= end <= b@.len(),
                    text_end(b@, p + 1, end as int, stop) == text_end(
                        b@,
                        q as int,
                        end as int,
                        stop,
                    ),
                decreases end - q,
            {
                q = q + 1;
            }
            out.push(Token { kind: TokenKind::Text, start: p, size: q - p, num_components: 0 });
            proof {
                step = seq![text_token(at, q - at)];
            }
            p = q;
        } else if b[p] == DOLLAR {
            proof {
                lemma_variable(b@, at, end as int);
            }
            match parse_variable(b, p, end, out) {
                Ok(n) => {
                    proof {
                        step = variable(b@, at, end as int)->Ok_0.tokens;
                    }
                    p = n;
                },
                Err(e) => {
                    return Err(e);
                },
            }
        } else if b[p] == OPEN_BRACKET {
            proof {
                lemma_bracket_end(b@, at + 1, end as int, at);
            }
            match past_bracket(b, p + 1, end, p) {
                Ok(n) => {
                    out.push(
                        Token {
                            kind: TokenKind::Command,
                            start: p,
                            size: n - p,
                            num_components: 0,
                        },
                    );
                    proof {
                        step = seq![token(TokenKind::Command, at, n - at, 0)];
                    }
                    p = n;
                },
                Err(e) => {
                    return Err(e);
                },
            }
        } else {
            let n: usize = if b[p] == BACKSLASH {
                escape(b, p, end)
            } else {
                1
            };
            if n > 1 {
                if b[p + 1] == NEWLINE && matches!(stop, Stop::Word { .. }) {
                    return Ok(p);
                }
                out.push(
                    Token { kind: TokenKind::Backslash, start: p, size: n, num_components: 0 },
                );
                proof {
                    step = seq![token(TokenKind::Backslash, at, n as int, 0)];
                }
            } else {
                out.push(Token { kind: TokenKind::Text, start: p, size: 1, num_components: 0 });
                proof {
                    step = seq![text_token(at, 1)];
                }
            }
            p = p + n;
        }
        proof {
            lemma_after(acc, step, components(b@, p as int, end as int, stop));
            acc = acc + step;
        }
    }
    proof {
        assert(acc + Seq::<Token>::empty() =~= acc);
    }
    Ok(p)
}

/// The components at `i`, with an empty text token where there are none.
fn parse_substituted(
    b: &[u8],
    i: usize,
    end: usize,
    stop: Stop,
    out: &mut Vec<Token>,
) -> (r: Result<usize, ParseError>)
    requires
        i <= end <= b@.len(),
    ensures
        yields(r, old(out)@, final(out)@, substituted(b@, i as int, end as int, stop)),
    decreases end - i, 2int,
{
    let before: usize = out.len();
    proof {
        lemma_components(b@, i as int, end as int, stop);
    }
    match parse_components(b, i, end, stop, out) {
        Ok(n) => {
            if out.len() == before {
                out.push(Token { kind: TokenKind::Text, start: n, size: 0, num_components: 0 });
                assert(out@ =~= old(out)@ + seq![text_token(n as int, 0)]);
            }
            Ok(n)
        },
        Err(e) => Err(e),
    }
}

/// The end of the nested script at `i`, whose `[` stands at `open`.
fn past_bracket(b: &[u8], i: usize, end: usize, open: usize) -> (r: Result<usize, ParseError>)
    requires
        open < i <= end <= b@.len(),
    ensures
        match bracket_end(b@, i as int, end as int, open as int) {
            Ok(j) => r is Ok && r->Ok_0 == j,
            Err(e) => r == Err::<usize, ParseError>(e),
        },
    decreases end - i, 7int,
{
    let mut p: usize = i;
    loop
        invariant
            open < i <= p <= end <= b@.len(),
            bracket_end(b@, i as int, end as int, open as int) == bracket_end(
                b@,
                p as int,
                end as int,
                open as int,
            ),
        decreases end - p,
    {
        proof {
            lemma_command(b@, p as int, end as int, true);
        }
        match parse(b, p, end, true) {
            Ok(reading) => {
                if reading.term < end && b[reading.term] == CLOSE_BRACKET {
                    return Ok(reading.command.range.end);
                } else if reading.command.range.end >= end || p >= end {
                    return Err(ParseError { offset: open, incomplete: true });
                }
                p = reading.command.range.end;
            },
            Err(e) => {
                return Err(e);
            },
        }
    }
}

// --------------------------------------------------------------------- braces
/// What the segments already read add to the rest of a braced word.
spec fn braces_after(first: Seq<Token>, rest: Option<Tokens>) -> Option<Tokens> {
    match rest {
        Some(t) => Some(Tokens { tokens: first + t.tokens, next: t.next }),
        None => None,
    }
}

/// The tokens of the braced word whose `{` stands before `i`.
fn parse_braced(b: &[u8], i: usize, end: usize, out: &mut Vec<Token>) -> (r: Option<usize>)
    requires
        0 < i <= end <= b@.len(),
    ensures
        match braced(b@, i as int, end as int, 1, i as int, true) {
            Some(t) => r is Some && r->0 == t.next && final(out)@ == old(out)@ + t.tokens,
            None => r is None,
        },
{
    let ghost whole = braced(b@, i as int, end as int, 1, i as int, true);
    let ghost mut acc: Seq<Token> = Seq::empty();
    let mut p: usize = i;
    let mut level: usize = 1;
    let mut seg: usize = i;
    let mut first = true;
    proof {
        if let Some(t) = whole {
            assert(acc + t.tokens =~= t.tokens);
        }
    }
    while p < end
        invariant
            0 < i <= seg <= p <= end <= b@.len(),
            1 <= level <= 1 + (p - i),
            out@ =~= old(out)@ + acc,
            whole == braces_after(
                acc,
                braced(b@, p as int, end as int, level as nat, seg as int, first),
            ),
            whole == braced(b@, i as int, end as int, 1, i as int, true),
        decreases end - p,
    {
        if b[p] == OPEN_BRACE {
            level = level + 1;
            p = p + 1;
        } else if b[p] == CLOSE_BRACE {
            if level > 1 {
                level = level - 1;
                p = p + 1;
            } else {
                if p != seg || first {
                    out.push(
                        Token {
                            kind: TokenKind::Text,
                            start: seg,
                            size: p - seg,
                            num_components: 0,
                        },
                    );
                }
                assert(out@ =~= old(out)@ + whole->0.tokens);
                return Some(p + 1);
            }
        } else if b[p] == BACKSLASH {
            let n = escape(b, p, end);
            if n > 1 && b[p + 1] == NEWLINE {
                let ghost rest = braced(
                    b@,
                    p + n,
                    end as int,
                    level as nat,
                    p + n,
                    false,
                );
                let ghost mut step: Seq<Token> = Seq::empty();
                if p > seg {
                    out.push(
                        Token {
                            kind: TokenKind::Text,
                            start: seg,
                            size: p - seg,
                            num_components: 0,
                        },
                    );
                    proof {
                        step = seq![text_token(seg as int, p - seg)];
                    }
                }
                out.push(
                    Token { kind: TokenKind::Backslash, start: p, size: n, num_components: 0 },
                );
                proof {
                    step = step + seq![token(TokenKind::Backslash, p as int, n as int, 0)];
                    if let Some(t) = rest {
                        assert(acc + (step + t.tokens) =~= (acc + step) + t.tokens);
                    }
                    acc = acc + step;
                }
                p = p + n;
                seg = p;
                first = false;
            } else {
                p = p + n;
            }
        } else {
            p = p + 1;
        }
    }
    None
}

// ---------------------------------------------------------------------- lists
/// The closing brace of a braced list element that begins before `i`.
fn braced_element(b: &[u8], i: usize, end: usize) -> (r: Option<usize>)
    requires
        0 < i <= end <= b@.len(),
    ensures
        match braced_element_end(b@, i as int, end as int, 1) {
            Some(q) => r is Some && r->0 == q && i <= q < end,
            None => r is None,
        },
{
    let mut p: usize = i;
    let mut level: usize = 1;
    while p < end
        invariant
            0 < i <= p <= end <= b@.len(),
            1 <= level <= 1 + (p - i),
            braced_element_end(b@, i as int, end as int, 1) == braced_element_end(
                b@,
                p as int,
                end as int,
                level as nat,
            ),
        decreases end - p,
    {
        if b[p] == OPEN_BRACE {
            level = level + 1;
            p = p + 1;
        } else if b[p] == CLOSE_BRACE {
            if level > 1 {
                level = level - 1;
                p = p + 1;
            } else {
                return Some(p);
            }
        } else if b[p] == BACKSLASH {
            p = p + escape(b, p, end);
        } else {
            p = p + 1;
        }
    }
    None
}

/// The closing quote of a quoted list element that begins before `i`.
fn quoted_element(b: &[u8], i: usize, end: usize) -> (r: Option<usize>)
    requires
        i <= end <= b@.len(),
    ensures
        match quoted_element_end(b@, i as int, end as int) {
            Some(q) => r is Some && r->0 == q && i <= q < end,
            None => r is None,
        },
{
    let mut p: usize = i;
    while p < end && b[p] != BACKSLASH
        invariant
            i <= p <= end <= b@.len(),
            quoted_element_end(b@, i as int, end as int) == quoted_element_end(
                b@,
                p as int,
                end as int,
            ),
        decreases end - p,
    {
        if b[p] == QUOTE {
            return Some(p);
        }
        p = p + 1;
    }
    None
}

/// The end of a bare list element at `i`.
fn bare_element(b: &[u8], i: usize, end: usize) -> (r: Option<usize>)
    requires
        i <= end <= b@.len(),
    ensures
        match bare_element_end(b@, i as int, end as int) {
            Some(q) => r is Some && r->0 == q && i <= q <= end,
            None => r is None,
        },
{
    let mut p: usize = i;
    while p < end && !list_space(b[p])
        invariant
            i <= p <= end <= b@.len(),
            bare_element_end(b@, i as int, end as int) == bare_element_end(
                b@,
                p as int,
                end as int,
            ),
        decreases end - p,
    {
        if b[p] == BACKSLASH {
            return None;
        }
        p = p + 1;
    }
    Some(p)
}

/// The start, the size and the end of the list element at `p`.
fn list_element(b: &[u8], p: usize, end: usize) -> (r: Option<(usize, usize, usize)>)
    requires
        p < end <= b@.len(),
    ensures
        match element(b@, p as int, end as int) {
            Some(e) => r is Some && (r->0).0 == e.start && (r->0).1 == e.size && (r->0).2 == e.next,
            None => r is None,
        },
{
    if b[p] == OPEN_BRACE || b[p] == QUOTE {
        let close = if b[p] == OPEN_BRACE {
            braced_element(b, p + 1, end)
        } else {
            quoted_element(b, p + 1, end)
        };
        match close {
            Some(q) => if q + 1 >= end || list_space(b[q + 1]) {
                Some((p + 1, q - (p + 1), past_list_space(b, q + 1, end)))
            } else {
                None
            },
            None => None,
        }
    } else {
        match bare_element(b, p, end) {
            Some(q) => Some((p, q - p, past_list_space(b, q, end))),
            None => None,
        }
    }
}

spec fn list_after(first: Seq<Token>, rest: Option<Seq<Token>>) -> Option<Seq<Token>> {
    match rest {
        Some(t) => Some(first + t),
        None => None,
    }
}

/// The words of the literal list in `list..end`, where it is one.
fn list_words(b: &[u8], list: usize, end: usize) -> (r: Option<Vec<Token>>)
    requires
        end <= b@.len(),
    ensures
        match elements(
            b@,
            skip_list_space(b@, list as int, end as int),
            end as int,
            list as int,
        ) {
            Some(t) => r is Some && r->0@ == t,
            None => r is None,
        },
{
    let mut p: usize = past_list_space(b, list, end);
    let mut out: Vec<Token> = Vec::new();
    let ghost whole = elements(b@, p as int, end as int, list as int);
    proof {
        lemma_skip_list_space(b@, list as int, end as int);
        if let Some(t) = whole {
            assert(out@ + t =~= t);
        }
    }
    while p < end
        invariant
            list <= p,
            end <= b@.len(),
            p < end ==> !is_list_space(b@[p as int]),
            list < p < end ==> is_list_space(b@[p - 1]),
            whole == elements(
                b@,
                skip_list_space(b@, list as int, end as int),
                end as int,
                list as int,
            ),
            whole == list_after(out@, elements(b@, p as int, end as int, list as int)),
        decreases end - p,
    {
        proof {
            lemma_element(b@, p as int, end as int);
        }
        match list_element(b, p, end) {
            Some((start, size, next)) => {
                let ghost before = out@;
                let ghost e = element(b@, p as int, end as int)->0;
                let quoted: usize = if start > list && (b[start - 1] == OPEN_BRACE || b[start - 1]
                    == QUOTE) {
                    1
                } else {
                    0
                };
                out.push(
                    Token {
                        kind: TokenKind::SimpleWord,
                        start: start - quoted,
                        size: size + 2 * quoted,
                        num_components: 1,
                    },
                );
                out.push(Token { kind: TokenKind::Text, start, size, num_components: 0 });
                proof {
                    let step = element_tokens(b@, e, list as int);
                    assert(out@ =~= before + step);
                    if let Some(rest) = elements(b@, next as int, end as int, list as int) {
                        assert(before + (step + rest) =~= (before + step) + rest);
                    }
                }
                p = next;
            },
            None => {
                return None;
            },
        }
    }
    proof {
        assert(out@ + Seq::<Token>::empty() =~= out@);
    }
    Some(out)
}

// ---------------------------------------------------------------------- words
fn has_expansion(b: &[u8], j: usize, end: usize) -> (r: bool)
    requires
        j < end <= b@.len(),
    ensures
        r == expands(b@, j as int, end as int),
{
    end - j > 3 && b[j] == OPEN_BRACE && b[j + 1] == STAR && b[j + 2] == CLOSE_BRACE && !blank(
        b[j + 3],
    ) && !line_continues(b, j + 3, end) && b[j + 3] != NEWLINE && b[j + 3] != SEMICOLON
}

/// The components of the word at `k`.
fn parse_word_body(b: &[u8], k: usize, end: usize, nested: bool, out: &mut Vec<Token>) -> (r:
    Result<usize, ParseError>)
    requires
        k <= end <= b@.len(),
    ensures
        yields(r, old(out)@, final(out)@, word_body(b@, k as int, end as int, nested)),
    decreases end - k, 3int,
{
    if k < end && b[k] == QUOTE {
        proof {
            lemma_substituted(b@, k + 1, end as int, Stop::Quote);
        }
        match parse_substituted(b, k + 1, end, Stop::Quote, out) {
            Ok(n) => if n < end {
                Ok(n + 1)
            } else {
                Err(ParseError { offset: k, incomplete: true })
            },
            Err(e) => Err(e),
        }
    } else if k < end && b[k] == OPEN_BRACE {
        match parse_braced(b, k + 1, end, out) {
            Some(n) => Ok(n),
            None => Err(ParseError { offset: k, incomplete: true }),
        }
    } else {
        parse_substituted(b, k, end, Stop::Word { nested }, out)
    }
}

fn only_text(tokens: &Vec<Token>) -> (r: bool)
    ensures
        r == all_text(tokens@),
{
    let mut k: usize = 0;
    while k < tokens.len()
        invariant
            k <= tokens@.len(),
            forall|m: int| 0 <= m < k ==> (#[trigger] tokens@[m]).kind is Text,
        decreases tokens@.len() - k,
    {
        if !matches!(tokens[k].kind, TokenKind::Text) {
            return false;
        }
        k = k + 1;
    }
    true
}

/// The word at `j`: where it ends, and how many words it makes.
fn parse_word(b: &[u8], j: usize, end: usize, nested: bool, out: &mut Vec<Token>) -> (r: Result<
    (usize, usize),
    ParseError,
>)
    requires
        j < end <= b@.len(),
        !is_blank(b@[j as int]),
        !continues_line(b@, j as int, end as int),
        !ends_command(b@[j as int], nested),
    ensures
        match word(b@, j as int, end as int, nested) {
            Ok(w) => {
                &&& r is Ok
                &&& r->Ok_0.0 == w.next
                &&& r->Ok_0.1 == w.count
                &&& final(out)@ == old(out)@ + w.tokens
            },
            Err(e) => r == Err::<(usize, usize), ParseError>(e),
        },
    decreases end - j, 4int,
{
    let mut parts: Vec<Token> = Vec::new();
    proof {
        reveal(word);
        lemma_word(b@, j as int, end as int, nested);
    }
    if has_expansion(b, j, end) {
        proof {
            lemma_word_body(b@, j + 3, end as int, nested);
        }
        match parse_word_body(b, j + 3, end, nested, &mut parts) {
            Ok(next) => {
                let ghost body = word_body(b@, j + 3, end as int, nested)->Ok_0.tokens;
                assert(parts@ =~= body);
                assert(parts@.last() == body[body.len() - 1]);
                if only_text(&parts) {
                    let list = parts[0].start;
                    let last = parts[parts.len() - 1];
                    if let Some(mut literal) = list_words(b, list, last.start + last.size) {
                        let count: usize = literal.len() / 2;
                        proof {
                            lemma_skip_list_space(b@, list as int, last.stop());
                            crate::placement::lemma_elements(
                                b@,
                                skip_list_space(b@, list as int, last.stop()),
                                last.stop(),
                                list as int,
                            );
                        }
                        out.append(&mut literal);
                        return Ok((next, count));
                    }
                }
                out.push(
                    Token {
                        kind: TokenKind::ExpandWord,
                        start: j,
                        size: next - j,
                        num_components: parts.len(),
                    },
                );
                out.append(&mut parts);
                assert(out@ =~= old(out)@ + expanded_word(b@, j as int, next as int, body));
                Ok((next, 1))
            },
            Err(e) => Err(e),
        }
    } else {
        proof {
            lemma_word_body(b@, j as int, end as int, nested);
        }
        match parse_word_body(b, j, end, nested, &mut parts) {
            Ok(next) => {
                let ghost body = word_body(b@, j as int, end as int, nested)->Ok_0.tokens;
                assert(parts@ =~= body);
                let kind = if parts.len() == 1 && matches!(parts[0].kind, TokenKind::Text) {
                    TokenKind::SimpleWord
                } else {
                    TokenKind::Word
                };
                out.push(
                    Token { kind, start: j, size: next - j, num_components: parts.len() },
                );
                out.append(&mut parts);
                assert(out@ =~= old(out)@ + plain_word(j as int, next as int, body));
                Ok((next, 1))
            },
            Err(e) => Err(e),
        }
    }
}

// ------------------------------------------------------------------- commands
/// A command with how it ended.
pub struct Reading {
    pub command: Command,
    /// The terminator's position, or the end of the input.
    pub term: usize,
    /// Whether the input ends where another line is asked for.
    pub more: bool,
}

/// That a reading is the command that the grammar gives.
pub open spec fn reads(
    r: Result<Reading, ParseError>,
    expected: Result<Parsed, ParseError>,
) -> bool {
    match expected {
        Ok(p) => {
            &&& r is Ok
            &&& r->Ok_0.command@ == command_view(p)
            &&& r->Ok_0.command.range.start == p.start
            &&& r->Ok_0.command.range.end == p.next
            &&& r->Ok_0.command.num_words == p.count
            &&& r->Ok_0.term == p.term
            &&& r->Ok_0.more == p.more
        },
        Err(e) => r == Err::<Reading, ParseError>(e),
    }
}

/// The words at `i`: how many, the terminator's position, the end of the command,
/// and whether more input is asked for.
fn parse_words(b: &[u8], i: usize, end: usize, nested: bool, tokens: &mut Vec<Token>) -> (r: Result<
    (usize, usize, usize, bool),
    ParseError,
>)
    requires
        i <= end <= b@.len(),
        old(tokens)@.len() == 0,
    ensures
        match words(b@, i as int, end as int, nested) {
            Ok(w) => {
                &&& r is Ok
                &&& r->Ok_0.0 == w.count
                &&& r->Ok_0.1 == w.term
                &&& r->Ok_0.2 == w.next
                &&& r->Ok_0.3 == w.more
                &&& final(tokens)@ == w.tokens
            },
            Err(e) => r == Err::<(usize, usize, usize, bool), ParseError>(e),
        },
    decreases end - i, 5int,
{
    let ghost whole = words(b@, i as int, end as int, nested);
    let mut count: usize = 0;
    let mut p: usize = i;
    proof {
        if let Ok(w) = whole {
            assert(tokens@ + w.tokens =~= w.tokens);
        }
    }
    loop
        invariant
            i <= p <= end <= b@.len(),
            count <= tokens@.len(),
            whole == words(b@, i as int, end as int, nested),
            whole == words_after(
                tokens@,
                count as nat,
                words(b@, p as int, end as int, nested),
            ),
        decreases end - p,
    {
        proof {
            lemma_skip_blanks(b@, p as int, end as int);
            lemma_words_step(b@, p as int, end as int, nested, tokens@, count as nat);
        }
        let (j, asks) = past_blanks(b, p, end);
        if j >= end {
            return Ok((count, j, j, asks));
        }
        if command_ends(b[j], nested) {
            return Ok((count, j, j + 1, false));
        }
        proof {
            lemma_word(b@, j as int, end as int, nested);
        }
        match parse_word(b, j, end, nested, tokens) {
            Ok((k, n)) => {
                if k < end && !blank(b[k]) && !line_continues(b, k, end) && !command_ends(
                    b[k],
                    nested,
                ) {
                    return Err(ParseError { offset: k, incomplete: false });
                }
                assert(tokens.len() == tokens@.len());
                count = count + n;
                p = k;
            },
            Err(e) => {
                return Err(e);
            },
        }
    }
}

/// Parses the command at `i`, with `end` as the end of the input.
pub fn parse(b: &[u8], i: usize, end: usize, nested: bool) -> (r: Result<Reading, ParseError>)
    requires
        i <= end <= b@.len(),
    ensures
        reads(r, command(b@, i as int, end as int, nested)),
    decreases end - i, 6int,
{
    let (comment, start, asks) = past_lead(b, i, end);
    let mut tokens: Vec<Token> = Vec::new();
    proof {
        reveal(words);
        lemma_words(b@, start as int, end as int, nested);
    }
    match parse_words(b, start, end, nested, &mut tokens) {
        Ok((count, term, next, asks_too)) => {
            let command = Command { comment, range: start..next, num_words: count, tokens };
            let more = asks || asks_too || (nested && start >= end);
            Ok(Reading { command, term, more })
        },
        Err(e) => Err(e),
    }
}

} // verus!

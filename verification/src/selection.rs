//! Locating the construct under the cursor.
//!
//! Both selection ranges and signature help need the same thing: the chain of
//! nested constructs containing a byte offset. A `}` inside a quoted string is no
//! scope boundary, and only the parser knows that.
use core::ops::Range;
use vstd::prelude::*;

use crate::placement::placed;
use crate::script::{commands_are_in_order, commands_within, in_order, outcome, Script};
use crate::text::{chars_of, text_option};
use crate::token::{
    slices_view, words_from, words_of, Command, CommandView, ParseError, Token, TokenKind,
};
use crate::words::{
    all_readable, lemma_words_readable, literal_at, literal_word, range_word, readable, span_at,
    span_of, token_text, word_range,
};

verus! {

/// How deep the search for the innermost construct goes.
pub const MAX_DESCENT: usize = 100;

/// One step of the containment chain.
pub struct Enclosing {
    /// The command containing the offset.
    pub command: Command,
    /// Its first word, if that is a static literal — i.e. the command's name.
    pub name: Option<String>,
    /// Index of the word the cursor sits in or immediately after. Word 0 is the
    /// command name, so argument *n* is word *n*.
    pub word_index: usize,
    /// Range of the word the cursor is in, when it is inside one.
    pub word_range: Option<Range<usize>>,
}

pub struct EnclosingView {
    pub command: CommandView,
    pub name: Option<Seq<char>>,
    pub word_index: int,
    pub word_range: Option<Range<usize>>,
}

impl View for Enclosing {
    type V = EnclosingView;

    open spec fn view(&self) -> EnclosingView {
        EnclosingView {
            command: self.command@,
            name: text_option(self.name),
            word_index: self.word_index as int,
            word_range: self.word_range,
        }
    }
}

// ------------------------------------------------------------ specification
/// Whether the offset is in the range or right behind it.
pub open spec fn touches(r: Range<usize>, offset: int) -> bool {
    r.start <= offset <= r.end
}

/// Whether the offset is in the range.
pub open spec fn holds(r: Range<usize>, offset: int) -> bool {
    r.start <= offset < r.end
}

/// The interior of a word that contains further code or text: that of `{...}`,
/// `"..."` and `[...]` without its delimiters, where there is any.
pub open spec fn interior_of(b: Seq<u8>, word: Seq<Token>) -> Option<Range<usize>> {
    if word.len() == 0 || !(word[0].kind is Word || word[0].kind is SimpleWord) {
        None
    } else {
        let head = word[0];
        match token_text(b, head) {
            Some(t) => if t.len() > 0 && head.size > 2 && (t[0] == '{' || t[0] == '"' || (t[0]
                == '[' && t.last() == ']')) {
                Some(Range { start: (head.start + 1) as usize, end: (head.stop() - 1) as usize })
            } else {
                None
            },
            None => None,
        }
    }
}

/// The first command in the list that holds the offset.
pub open spec fn holding(all: Seq<Result<CommandView, ParseError>>, offset: int) -> Option<
    CommandView,
>
    decreases all.len(),
{
    if all.len() == 0 {
        None
    } else {
        match all[0] {
            Ok(c) => if holds(c.range, offset) {
                Some(c)
            } else {
                holding(all.drop_first(), offset)
            },
            Err(_) => holding(all.drop_first(), offset),
        }
    }
}

/// The first command in the list that ends right before the offset.
pub open spec fn ending(all: Seq<Result<CommandView, ParseError>>, offset: int) -> Option<
    CommandView,
>
    decreases all.len(),
{
    if all.len() == 0 {
        None
    } else {
        match all[0] {
            Ok(c) => if c.range.start < c.range.end == offset {
                Some(c)
            } else {
                ending(all.drop_first(), offset)
            },
            Err(_) => ending(all.drop_first(), offset),
        }
    }
}

/// The command in the list that the offset belongs to: the one that holds it, and only
/// where there is none, the one that ends right before it.
pub open spec fn touched(all: Seq<Result<CommandView, ParseError>>, offset: int) -> Option<
    CommandView,
> {
    match holding(all, offset) {
        Some(c) => Some(c),
        None => ending(all, offset),
    }
}

/// The first word, from `i` on, that the offset touches.
pub open spec fn word_touched(words: Seq<Seq<Token>>, i: int, offset: int) -> Option<int>
    decreases words.len() - i,
{
    if i < 0 || i >= words.len() {
        None
    } else {
        match span_of(words[i]) {
            Some(r) => if touches(r, offset) {
                Some(i)
            } else {
                word_touched(words, i + 1, offset)
            },
            None => word_touched(words, i + 1, offset),
        }
    }
}

/// Number of words, from `i` on, that end before the offset.
pub open spec fn words_passed(words: Seq<Seq<Token>>, i: int, offset: int) -> int
    decreases words.len() - i,
{
    if i < 0 || i >= words.len() {
        0
    } else {
        (match span_of(words[i]) {
            Some(r) => if r.end < offset {
                1int
            } else {
                0int
            },
            None => 0int,
        }) + words_passed(words, i + 1, offset)
    }
}

/// Which word the cursor is in, or which one it is about to become: in the white
/// space after word *k* it is *k+1*.
pub open spec fn word_index_at(words: Seq<Seq<Token>>, offset: int) -> int {
    match word_touched(words, 0, offset) {
        Some(i) => i,
        None => words_passed(words, 0, offset),
    }
}

/// What is said of a command that the offset touches.
pub open spec fn enclosing(b: Seq<u8>, c: CommandView, offset: int) -> EnclosingView {
    let words = words_of(c.tokens);
    EnclosingView {
        command: c,
        name: literal_at(b, words, 0),
        word_index: word_index_at(words, offset),
        word_range: match word_touched(words, 0, offset) {
            Some(i) => span_of(words[i]),
            None => None,
        },
    }
}

/// The interior of the word at the cursor, where the cursor is inside it.
pub open spec fn inside(b: Seq<u8>, c: CommandView, offset: int) -> Option<Range<usize>> {
    let words = words_of(c.tokens);
    let i = word_index_at(words, offset);
    if i < words.len() {
        match interior_of(b, words[i]) {
            Some(r) => if holds(r, offset) {
                Some(r)
            } else {
                None
            },
            None => None,
        }
    } else {
        None
    }
}

/// The innermost command in `search` that contains the offset.
pub open spec fn innermost(b: Seq<u8>, search: Range<usize>, offset: int, depth: nat) -> Option<
    EnclosingView,
>
    decreases depth,
{
    if depth == 0 {
        None
    } else {
        match touched(commands_within(b, search.start as int, search.end as int), offset) {
            None => None,
            Some(c) => match inside(b, c, offset) {
                None => Some(enclosing(b, c, offset)),
                Some(body) => match innermost(b, body, offset, (depth - 1) as nat) {
                    Some(inner) => Some(inner),
                    None => Some(enclosing(b, c, offset)),
                },
            },
        }
    }
}

/// The ranges around the offset within `search`, outermost first: each command,
/// the word of it that holds the offset, and the interior of that word.
pub open spec fn around(b: Seq<u8>, search: Range<usize>, offset: int, depth: nat) -> Seq<
    Range<usize>,
>
    decreases depth,
{
    if depth == 0 {
        seq![]
    } else {
        match touched(commands_within(b, search.start as int, search.end as int), offset) {
            None => seq![],
            Some(c) => {
                let words = words_of(c.tokens);
                match span_at(words, word_index_at(words, offset)) {
                    Some(span) => if holds(span, offset) {
                        match inside(b, c, offset) {
                            Some(inner) => seq![c.range, span, inner] + around(
                                b,
                                inner,
                                offset,
                                (depth - 1) as nat,
                            ),
                            None => seq![c.range, span],
                        }
                    } else {
                        seq![c.range]
                    },
                    None => seq![c.range],
                }
            },
        }
    }
}

/// Whether one range lies in another.
pub open spec fn lies_in(r: Range<usize>, outer: Range<usize>) -> bool {
    outer.start <= r.start && r.end <= outer.end
}

/// Each range is a strict superset of the ones before it.
pub open spec fn growing(chain: Seq<Range<usize>>) -> bool {
    forall|i: int, j: int|
        0 <= i < j < chain.len() ==> lies_in(#[trigger] chain[i], #[trigger] chain[j]) && chain[i]
            != chain[j]
}

/// That these are the ranges around the offset, innermost first: each is a strict
/// superset of the one before, the last is the whole file, and there are no others
/// than it and the constructs around the offset. An empty file has none.
pub open spec fn is_chain(b: Seq<u8>, offset: int, out: Seq<Range<usize>>) -> bool {
    let whole = Range { start: 0usize, end: b.len() as usize };
    &&& growing(out)
    &&& b.len() == 0 ==> out.len() == 0
    &&& b.len() > 0 ==> out.len() > 0 && out.last() == whole
    &&& b.len() > 0 ==> forall|r: Range<usize>|
        out.contains(r) <==> (r == whole || around(
            b,
            whole,
            offset,
            MAX_DESCENT as nat,
        ).contains(r))
}

// ------------------------------------------------------------- executable
fn interior(script: &Script, word: &[Token]) -> (r: Option<Range<usize>>)
    requires
        readable(word@),
    ensures
        r == interior_of(script@, word@),
{
    if word.len() == 0 {
        return None;
    }
    let head = &word[0];
    if !matches!(head.kind, TokenKind::Word | TokenKind::SimpleWord) {
        return None;
    }
    let text = match script.text(head.range()) {
        Some(t) => chars_of(t),
        None => {
            return None;
        },
    };
    if text.len() == 0 {
        return None;
    }
    let first = text[0];
    if head.size > 2 && (first == '{' || first == '"' || (first == '[' && text[text.len() - 1]
        == ']')) {
        Some(head.start + 1..head.start + head.size - 1)
    } else {
        None
    }
}

fn command_containing(script: &Script, range: &Range<usize>, offset: usize) -> (r: Option<Command>)
    ensures
        match touched(
            commands_within(script@, range.start as int, range.end as int),
            offset as int,
        ) {
            Some(c) => r is Some && r->0@ == c,
            None => r is None,
        },
        r matches Some(c) ==> {
            &&& readable(c.tokens@)
            &&& placed(c.tokens@, c.range.start as int, c.range.end as int)
            &&& c.range.start < c.range.end
            &&& range.start <= c.range.start && c.range.end <= range.end
            &&& c.range.end <= script@.len()
        },
{
    let len = script.len();
    let mut it = script.commands_in(range.start..range.end);
    let ghost all = it.remaining();
    let ghost hi = if range.end < len {
        range.end as int
    } else {
        len as int
    };
    let ghost mut at = if range.start < hi {
        range.start as int
    } else {
        hi
    };
    let mut before: Option<Command> = None;
    proof {
        commands_are_in_order(script@, at, hi);
    }
    loop
        invariant
            0 <= at,
            at < range.start ==> it.remaining().len() == 0,
            hi <= range.end,
            hi <= len == script@.len(),
            in_order(it.remaining(), at, hi),
            holding(all, offset as int) == holding(it.remaining(), offset as int),
            match before {
                Some(c) => ending(all, offset as int) == Some(c@),
                None => ending(all, offset as int) == ending(it.remaining(), offset as int),
            },
            before matches Some(c) ==> {
                &&& readable(c.tokens@)
                &&& placed(c.tokens@, c.range.start as int, c.range.end as int)
                &&& c.range.start < c.range.end
                &&& range.start <= c.range.start && c.range.end <= range.end
                &&& c.range.end <= script@.len()
            },
            all == commands_within(script@, range.start as int, range.end as int),
        decreases it.remaining().len(),
    {
        let ghost rest = it.remaining();
        match it.next() {
            None => {
                return before;
            },
            Some(Err(_)) => {},
            Some(Ok(cmd)) => {
                assert(outcome(Ok(cmd)) == rest[0]);
                if cmd.range.start <= offset && offset < cmd.range.end {
                    return Some(cmd);
                }
                proof {
                    at = cmd.range.end as int;
                }
                if before.is_none() && offset == cmd.range.end {
                    before = Some(cmd);
                }
            },
        }
    }
}

/// Which word the cursor is in, or which one it is about to become, and the range
/// of the one it is in.
fn locate_word(words: &Vec<&[Token]>, offset: usize) -> (r: (usize, Option<Range<usize>>))
    requires
        all_readable(slices_view(words@)),
    ensures
        r.0 == word_index_at(slices_view(words@), offset as int),
        r.1 == (match word_touched(slices_view(words@), 0, offset as int) {
            Some(i) => span_of(slices_view(words@)[i]),
            None => None,
        }),
        word_touched(slices_view(words@), 0, offset as int) matches Some(i) ==> 0 <= i
            < words@.len(),
{
    let ghost all = slices_view(words@);
    let mut i: usize = 0;
    while i < words.len()
        invariant
            i <= words@.len(),
            all == slices_view(words@),
            all_readable(all),
            word_touched(all, 0, offset as int) == word_touched(all, i as int, offset as int),
        decreases words@.len() - i,
    {
        assert(all[i as int] == words@[i as int]@);
        if let Some(span) = word_range(words[i]) {
            if span.start <= offset && offset <= span.end {
                return (i, Some(span));
            }
        }
        i = i + 1;
    }
    let mut passed: usize = 0;
    let mut k: usize = 0;
    while k < words.len()
        invariant
            k <= words@.len(),
            passed <= k,
            all == slices_view(words@),
            all_readable(all),
            words_passed(all, 0, offset as int) == passed + words_passed(
                all,
                k as int,
                offset as int,
            ),
        decreases words@.len() - k,
    {
        assert(all[k as int] == words@[k as int]@);
        if let Some(span) = word_range(words[k]) {
            if span.end < offset {
                passed = passed + 1;
            }
        }
        k = k + 1;
    }
    (passed, None)
}

/// The interior of word `i`, where the offset is inside it.
fn descend(script: &Script, words: &Vec<&[Token]>, i: usize, offset: usize) -> (r: Option<
    Range<usize>,
>)
    requires
        all_readable(slices_view(words@)),
    ensures
        r == (if i < slices_view(words@).len() {
            match interior_of(script@, slices_view(words@)[i as int]) {
                Some(inner) => if holds(inner, offset as int) {
                    Some(inner)
                } else {
                    None
                },
                None => None,
            }
        } else {
            None
        }),
{
    if i < words.len() {
        assert(slices_view(words@)[i as int] == words@[i as int]@);
        match interior(script, words[i]) {
            Some(inner) => if inner.start <= offset && offset < inner.end {
                Some(inner)
            } else {
                None
            },
            None => None,
        }
    } else {
        None
    }
}

/// The innermost command containing `offset`, descending through nested bodies.
///
/// There is none when the offset is outside any command, or when the text does not
/// parse — which is normal for a buffer mid-edit.
pub fn command_at(script: &Script, offset: usize) -> (r: Option<Enclosing>)
    ensures
        match innermost(
            script@,
            Range { start: 0, end: script@.len() as usize },
            offset as int,
            MAX_DESCENT as nat,
        ) {
            Some(e) => r is Some && r->0@ == e,
            None => r is None,
        },
        r matches Some(e) ==> readable(e.command.tokens@),
{
    let mut search = 0..script.len();
    let mut found: Option<Enclosing> = None;
    let mut depth: usize = MAX_DESCENT;
    let ghost whole = innermost(script@, search, offset as int, depth as nat);
    while depth > 0
        invariant
            depth <= MAX_DESCENT,
            found matches Some(f) ==> readable(f.command.tokens@),
            whole == innermost(
                script@,
                Range { start: 0, end: script@.len() as usize },
                offset as int,
                MAX_DESCENT as nat,
            ),
            whole == (match innermost(script@, search, offset as int, depth as nat) {
                Some(e) => Some(e),
                None => match found {
                    Some(f) => Some(f@),
                    None => None,
                },
            }),
        decreases depth,
    {
        let cmd = match command_containing(script, &search, offset) {
            Some(c) => c,
            None => {
                return found;
            },
        };
        let words = cmd.words();
        proof {
            lemma_words_readable(cmd.tokens@, 0);
        }
        let (word_index, word_range) = locate_word(&words, offset);
        let name = literal_word(script, &words, 0);
        let body = descend(script, &words, word_index, offset);
        found = Some(Enclosing { command: cmd, name, word_index, word_range });
        match body {
            Some(inner) => {
                search = inner;
            },
            None => {
                return found;
            },
        }
        depth = depth - 1;
    }
    found
}

/// Adds a range to a chain that it continues inwards, unless it is already there.
fn push_range(out: &mut Vec<Range<usize>>, r: Range<usize>)
    requires
        r.start < r.end,
        old(out)@.len() > 0,
        growing(old(out)@.reverse()),
        lies_in(r, old(out)@.last()),
    ensures
        growing(final(out)@.reverse()),
        final(out)@.len() > 0,
        final(out)@.last() == r,
        final(out)@[0] == old(out)@[0],
        forall|x: Range<usize>|
            final(out)@.contains(x) <==> (old(out)@.contains(x) || x == r),
{
    let n: usize = out.len();
    let ghost before = out@;
    assert(before.contains(before[n - 1]));
    if out[n - 1].start == r.start && out[n - 1].end == r.end {
        return;
    }
    out.push(r);
    proof {
        let rev = before.reverse();
        let now = out@.reverse();
        assert(now =~= seq![r] + rev);
        assert forall|i: int, j: int| 0 <= i < j < now.len() implies lies_in(
            #[trigger] now[i],
            #[trigger] now[j],
        ) && now[i] != now[j] by {
            assert(now[j] == rev[j - 1]);
            if i > 0 {
                assert(now[i] == rev[i - 1]);
            } else {
                assert(rev[0] == before.last());
                if j > 1 {
                    assert(lies_in(rev[0], rev[j - 1]));
                }
            }
        }
        assert forall|x: Range<usize>|
            out@.contains(x) <==> (before.contains(x) || x == r) by {
            if before.contains(x) {
                let k = choose|k: int| 0 <= k < before.len() && before[k] == x;
                assert(out@[k] == x);
            }
            if x == r {
                assert(out@[n as int] == x);
            }
        }
    }
}

/// What a step inwards adds to the set of ranges.
proof fn lemma_around_step(
    acc: Seq<Range<usize>>,
    step: Seq<Range<usize>>,
    rest: Seq<Range<usize>>,
    x: Range<usize>,
)
    ensures
        (acc + (step + rest)).contains(x) == ((acc + step) + rest).contains(x),
        (acc + step).contains(x) == (acc.contains(x) || step.contains(x)),
{
    assert(acc + (step + rest) =~= (acc + step) + rest);
    if acc.contains(x) {
        let k = choose|k: int| 0 <= k < acc.len() && acc[k] == x;
        assert((acc + step)[k] == x);
    }
    if step.contains(x) {
        let k = choose|k: int| 0 <= k < step.len() && step[k] == x;
        assert((acc + step)[acc.len() + k] == x);
    }
}

/// The chain of ranges around `offset`, innermost first.
///
/// Editors bind this to "expand selection": each successive range is a strict
/// superset of the last, ending at the whole file.
pub fn selection_chain(script: &Script, offset: usize) -> (out: Vec<Range<usize>>)
    ensures
        is_chain(script@, offset as int, out@),
{
    let len = script.len();
    let mut outer_first: Vec<Range<usize>> = Vec::new();
    if len == 0 {
        return outer_first;
    }
    let ghost all = Range { start: 0usize, end: len };
    let ghost whole = around(script@, all, offset as int, MAX_DESCENT as nat);
    let ghost mut acc: Seq<Range<usize>> = seq![];
    let mut search = 0..len;
    let mut depth: usize = MAX_DESCENT;
    outer_first.push(0..len);
    proof {
        assert(acc + whole =~= whole);
        assert(outer_first@[0] == all);
    }
    while depth > 0
        invariant_except_break
            depth <= MAX_DESCENT,
            len == script@.len(),
            outer_first@.len() > 0,
            growing(outer_first@.reverse()),
            outer_first@[0] == all,
            outer_first@.last() == search,
            whole == acc + around(script@, search, offset as int, depth as nat),
            forall|r: Range<usize>|
                outer_first@.contains(r) <==> (r == all || acc.contains(r)),
        ensures
            outer_first@.len() > 0,
            growing(outer_first@.reverse()),
            outer_first@[0] == all,
            forall|r: Range<usize>|
                outer_first@.contains(r) <==> (r == all || whole.contains(r)),
        decreases depth,
    {
        let ghost rest = around(script@, search, offset as int, depth as nat);
        let cmd = match command_containing(script, &search, offset) {
            Some(c) => c,
            None => {
                assert(acc + Seq::<Range<usize>>::empty() =~= acc);
                break ;
            },
        };
        let ghost before = outer_first@;
        push_range(&mut outer_first, cmd.range.start..cmd.range.end);
        let words = cmd.words();
        proof {
            lemma_words_readable(cmd.tokens@, 0);
        }
        let (at, _) = locate_word(&words, offset);
        let span = match range_word(&words, at) {
            Some(s) => s,
            None => {
                proof {
                    assert forall|r: Range<usize>|
                        outer_first@.contains(r) <==> (r == all || whole.contains(r)) by {
                        lemma_around_step(acc, seq![cmd.range], seq![], r);
                        assert(seq![cmd.range] + Seq::<Range<usize>>::empty() =~= rest);
                        assert(seq![cmd.range].contains(r) <==> r == cmd.range) by {
                            assert(seq![cmd.range][0] == cmd.range);
                        }
                        assert((acc + seq![cmd.range]) + Seq::<Range<usize>>::empty() =~= acc
                            + seq![cmd.range]);
                    }
                }
                break ;
            },
        };
        proof {
            lemma_word_in_tokens(cmd.tokens@, 0, at as int);
        }
        if !(span.start <= offset && offset < span.end) {
            proof {
                assert forall|r: Range<usize>|
                    outer_first@.contains(r) <==> (r == all || whole.contains(r)) by {
                    lemma_around_step(acc, seq![cmd.range], seq![], r);
                    assert(seq![cmd.range] + Seq::<Range<usize>>::empty() =~= rest);
                    assert(seq![cmd.range].contains(r) <==> r == cmd.range) by {
                        assert(seq![cmd.range][0] == cmd.range);
                    }
                    assert((acc + seq![cmd.range]) + Seq::<Range<usize>>::empty() =~= acc
                        + seq![cmd.range]);
                }
            }
            break ;
        }
        push_range(&mut outer_first, span.start..span.end);
        match descend(script, &words, at, offset) {
            Some(inner) => {
                let ghost step = seq![cmd.range, span, inner];
                push_range(&mut outer_first, inner.start..inner.end);
                proof {
                    let deeper = around(script@, inner, offset as int, (depth - 1) as nat);
                    assert(rest == step + deeper);
                    assert(acc + (step + deeper) =~= (acc + step) + deeper);
                    assert forall|r: Range<usize>|
                        outer_first@.contains(r) <==> (r == all || (acc + step).contains(r)) by {
                        lemma_around_step(acc, step, deeper, r);
                        assert(step.contains(r) <==> (r == cmd.range || r == span || r == inner))
                            by {
                            assert(step[0] == cmd.range && step[1] == span && step[2] == inner);
                        }
                    }
                    acc = acc + step;
                }
                search = inner;
            },
            None => {
                proof {
                    let step = seq![cmd.range, span];
                    assert forall|r: Range<usize>|
                        outer_first@.contains(r) <==> (r == all || whole.contains(r)) by {
                        lemma_around_step(acc, step, seq![], r);
                        assert(step + Seq::<Range<usize>>::empty() =~= rest);
                        assert(step.contains(r) <==> (r == cmd.range || r == span)) by {
                            assert(step[0] == cmd.range && step[1] == span);
                        }
                        assert((acc + step) + Seq::<Range<usize>>::empty() =~= acc + step);
                    }
                }
                break ;
            },
        }
        depth = depth - 1;
        proof {
            if depth == 0 {
                assert(acc + Seq::<Range<usize>>::empty() =~= acc);
            }
        }
    }
    let mut out: Vec<Range<usize>> = Vec::new();
    let mut k: usize = outer_first.len();
    let ghost target = outer_first@.reverse();
    while k > 0
        invariant
            k <= outer_first@.len(),
            target == outer_first@.reverse(),
            out@ =~= target.take(outer_first@.len() - k),
        decreases k,
    {
        k = k - 1;
        let r = outer_first[k].clone();
        out.push(r);
    }
    proof {
        assert(out@ =~= target);
        assert(target.last() == outer_first@[0]);
        assert forall|r: Range<usize>| out@.contains(r) <==> outer_first@.contains(r) by {
            let n = outer_first@.len();
            if out@.contains(r) {
                let i = choose|i: int| 0 <= i < out@.len() && out@[i] == r;
                assert(outer_first@[n - 1 - i] == r);
            }
            if outer_first@.contains(r) {
                let i = choose|i: int| 0 <= i < n && outer_first@[i] == r;
                assert(out@[n - 1 - i] == r);
            }
        }
    }
    out
}

/// The head of a word is one of the command's tokens.
proof fn lemma_word_in_tokens(tokens: Seq<Token>, i: int, k: int)
    requires
        0 <= i <= tokens.len(),
        0 <= k < words_from(tokens, i).len(),
    ensures
        words_from(tokens, i)[k].len() > 0,
        exists|m: int|
            0 <= m < tokens.len() && #[trigger] tokens[m] == words_from(tokens, i)[k][0],
    decreases tokens.len() - i,
{
    if i < tokens.len() {
        let j = crate::token::word_stop(tokens, i);
        if k == 0 {
            assert(words_from(tokens, i)[0] == tokens.subrange(i, j));
            assert(tokens[i] == words_from(tokens, i)[k][0]);
        } else {
            lemma_word_in_tokens(tokens, j, k - 1);
            assert(words_from(tokens, i)[k] == words_from(tokens, j)[k - 1]);
        }
    }
}

// ----------------------------------------------------------------------- laws
proof fn lemma_touched(all: Seq<Result<CommandView, ParseError>>, offset: int)
    ensures
        holding(all, offset) matches Some(c) ==> holds(c.range, offset),
        ending(all, offset) matches Some(c) ==> touches(c.range, offset),
    decreases all.len(),
{
    if all.len() > 0 {
        lemma_touched(all.drop_first(), offset);
    }
}

proof fn lemma_holding(all: Seq<Result<CommandView, ParseError>>, offset: int, k: int)
    requires
        0 <= k < all.len(),
        all[k] is Ok,
        holds(all[k]->Ok_0.range, offset),
    ensures
        holding(all, offset) is Some,
    decreases all.len(),
{
    if k > 0 {
        assert(all[k] == all.drop_first()[k - 1]);
        lemma_holding(all.drop_first(), offset, k - 1);
    }
}

/// Where a command holds the offset, the offset belongs to a command that holds it, and
/// not to one that merely ends there.
pub proof fn a_command_that_holds_the_offset_comes_first(
    all: Seq<Result<CommandView, ParseError>>,
    offset: int,
    k: int,
)
    requires
        0 <= k < all.len(),
        all[k] is Ok,
        holds(all[k]->Ok_0.range, offset),
    ensures
        touched(all, offset) is Some,
        holds(touched(all, offset)->0.range, offset),
{
    lemma_holding(all, offset, k);
    lemma_touched(all, offset);
}

/// The command found at an offset is one that holds the offset or ends there.
pub proof fn the_command_contains_the_offset(
    b: Seq<u8>,
    search: Range<usize>,
    offset: int,
    depth: nat,
)
    ensures
        innermost(b, search, offset, depth) matches Some(e) ==> touches(e.command.range, offset),
    decreases depth,
{
    if depth > 0 {
        let all = commands_within(b, search.start as int, search.end as int);
        lemma_touched(all, offset);
        if let Some(c) = touched(all, offset) {
            if let Some(body) = inside(b, c, offset) {
                the_command_contains_the_offset(b, body, offset, (depth - 1) as nat);
            }
        }
    }
}

/// The word that the cursor is said to be in is one that it touches.
pub proof fn the_word_contains_the_offset(words: Seq<Seq<Token>>, i: int, offset: int)
    ensures
        word_touched(words, i, offset) matches Some(k) ==> {
            &&& 0 <= k < words.len()
            &&& span_of(words[k]) matches Some(r)
            &&& touches(span_of(words[k])->0, offset)
        },
    decreases words.len() - i,
{
    if 0 <= i < words.len() {
        the_word_contains_the_offset(words, i + 1, offset);
    }
}

proof fn lemma_ending(all: Seq<Result<CommandView, ParseError>>, offset: int, k: int)
    requires
        0 <= k < all.len(),
        all[k] is Ok,
        all[k]->Ok_0.range.start < all[k]->Ok_0.range.end,
        all[k]->Ok_0.range.end == offset,
        forall|j: int|
            0 <= j < k && (#[trigger] all[j]) is Ok ==> all[j]->Ok_0.range.end != offset,
    ensures
        ending(all, offset) == Some(all[k]->Ok_0),
    decreases all.len(),
{
    if k > 0 {
        let rest = all.drop_first();
        assert(all[k] == rest[k - 1]);
        if all[0] is Ok {
            assert(all[0]->Ok_0.range.end != offset);
        }
        assert forall|j: int| 0 <= j < k - 1 && (#[trigger] rest[j]) is Ok implies rest[j]->Ok_0.range.end
            != offset by {
            assert(rest[j] == all[j + 1]);
        }
        lemma_ending(rest, offset, k - 1);
    }
}

proof fn lemma_none_holding(all: Seq<Result<CommandView, ParseError>>, offset: int)
    requires
        forall|j: int|
            0 <= j < all.len() && (#[trigger] all[j]) is Ok ==> !(all[j]->Ok_0.range.start <= offset
                < all[j]->Ok_0.range.end),
    ensures
        holding(all, offset) is None,
    decreases all.len(),
{
    if all.len() > 0 {
        let rest = all.drop_first();
        assert forall|j: int| 0 <= j < rest.len() && (#[trigger] rest[j]) is Ok implies !(
        rest[j]->Ok_0.range.start <= offset < rest[j]->Ok_0.range.end) by {
            assert(rest[j] == all[j + 1]);
        }
        if all[0] is Ok {
            assert(!(all[0]->Ok_0.range.start <= offset < all[0]->Ok_0.range.end));
        }
        lemma_none_holding(rest, offset);
    }
}

/// Where no command holds the offset, it belongs to the command that ends there, so that a
/// command being typed at the end of a file is found.
pub proof fn at_its_end_an_offset_belongs_to_the_command_before(
    all: Seq<Result<CommandView, ParseError>>,
    offset: int,
    k: int,
)
    requires
        0 <= k < all.len(),
        all[k] is Ok,
        all[k]->Ok_0.range.start < all[k]->Ok_0.range.end,
        all[k]->Ok_0.range.end == offset,
        forall|j: int|
            0 <= j < k && (#[trigger] all[j]) is Ok ==> all[j]->Ok_0.range.end != offset,
        forall|j: int|
            0 <= j < all.len() && (#[trigger] all[j]) is Ok ==> !(all[j]->Ok_0.range.start <= offset
                < all[j]->Ok_0.range.end),
    ensures
        touched(all, offset) == Some(all[k]->Ok_0),
{
    lemma_none_holding(all, offset);
    lemma_ending(all, offset, k);
}

} // verus!

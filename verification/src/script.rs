//! A script held for parsing, and its commands.
use core::ops::Range;
use vstd::prelude::*;
use vstd::string::StringSliceAdditionalSpecFns;
use vstd::utf8::{decode_utf8, encode_utf8_decode_utf8, valid_utf8};

use crate::grammar::{command, command_view, commands, complete_from, left, parsed_command, NUL};
use crate::parser::parse;
use crate::placement::{
    grouped, lemma_command, lemma_groups, lemma_words_grouped, lemma_words_nonempty, placed,
};
use crate::token::{words_of, Command, CommandView, ParseError};

verus! {

/// `core::str::Utf8Error` of std, carried but not read.
#[verifier::external_type_specification]
#[verifier::external_body]
pub struct ExUtf8Error(core::str::Utf8Error);

/// `core::str::from_utf8` of std: the bytes as text exactly where they are
/// well-formed UTF-8.
pub assume_specification[ core::str::from_utf8 ](v: &[u8]) -> (r: Result<
    &str,
    core::str::Utf8Error,
>)
    ensures
        r is Ok <==> valid_utf8(v@),
        r matches Ok(s) ==> s.spec_bytes() == v@,
;

/// The text of the bytes, where they are well-formed UTF-8.
pub open spec fn utf8_text(bytes: Seq<u8>) -> Option<Seq<char>> {
    if valid_utf8(bytes) {
        Some(decode_utf8(bytes))
    } else {
        None
    }
}

/// The bytes in `start..end`, both cut down to the length of `b`.
pub open spec fn clipped(b: Seq<u8>, start: int, end: int) -> Seq<u8> {
    let hi = if end < b.len() {
        end
    } else {
        b.len() as int
    };
    let lo = if start < hi {
        start
    } else {
        hi
    };
    b.subrange(lo, hi)
}

/// The text in `start..end`, where it is well-formed.
pub open spec fn text_in(b: Seq<u8>, start: int, end: int) -> Option<Seq<char>> {
    utf8_text(clipped(b, start, end))
}

/// The text of an optional string slice.
pub open spec fn str_option(s: Option<&str>) -> Option<Seq<char>> {
    match s {
        Some(t) => Some(t@),
        None => None,
    }
}

/// A parse result with the command's view.
pub open spec fn outcome(r: Result<Command, ParseError>) -> Result<CommandView, ParseError> {
    match r {
        Ok(c) => Ok(c@),
        Err(e) => Err(e),
    }
}

pub open spec fn outcomes(v: Seq<Result<Command, ParseError>>) -> Seq<
    Result<CommandView, ParseError>,
> {
    v.map_values(|r: Result<Command, ParseError>| outcome(r))
}

/// A copy of a script, ready for repeated parsing.
pub struct Script {
    buf: Vec<u8>,
}

impl View for Script {
    type V = Seq<u8>;

    closed spec fn view(&self) -> Seq<u8> {
        self.buf@
    }
}

impl Script {
    pub fn new(text: &str) -> (script: Self)
        ensures
            script@ == text.spec_bytes(),
    {
        let mut buf: Vec<u8> = Vec::new();
        let bytes = text.as_bytes();
        let mut i: usize = 0;
        while i < bytes.len()
            invariant
                i <= bytes@.len(),
                buf@ =~= bytes@.take(i as int),
            decreases bytes@.len() - i,
        {
            buf.push(bytes[i]);
            i = i + 1;
        }
        Script { buf }
    }

    pub fn len(&self) -> (n: usize)
        ensures
            n == self@.len(),
    {
        self.buf.len()
    }

    pub fn is_empty(&self) -> (r: bool)
        ensures
            r == (self@.len() == 0),
    {
        self.buf.len() == 0
    }

    pub fn as_bytes(&self) -> (b: &[u8])
        ensures
            b@ == self@,
    {
        self.buf.as_slice()
    }

    /// The text of a byte range, if it is valid UTF-8.
    pub fn text(&self, range: Range<usize>) -> (r: Option<&str>)
        ensures
            str_option(r) == text_in(self@, range.start as int, range.end as int),
    {
        let end: usize = if range.end < self.buf.len() {
            range.end
        } else {
            self.buf.len()
        };
        let start: usize = if range.start < end {
            range.start
        } else {
            end
        };
        let part = vstd::slice::slice_subrange(self.buf.as_slice(), start, end);
        match core::str::from_utf8(part) {
            Ok(s) => {
                proof {
                    encode_utf8_decode_utf8(s@);
                }
                Some(s)
            },
            Err(_) => None,
        }
    }

    /// Parses the single command beginning at `offset`.
    ///
    /// `nested` is set inside `[...]`, where an unmatched `]` ends the command.
    pub fn parse_command_at(&self, offset: usize, nested: bool) -> (r: Result<
        Command,
        ParseError,
    >)
        ensures
            outcome(r) == parsed_command(self@, offset as int, self@.len() as int, nested),
    {
        self.parse_command_within(offset, self.len(), nested)
    }

    /// Parses the command at `offset`, treating `end` as the end of the input.
    pub fn parse_command_within(&self, offset: usize, end: usize, nested: bool) -> (r: Result<
        Command,
        ParseError,
    >)
        ensures
            outcome(r) == parsed_command(
                self@,
                offset as int,
                if end < self@.len() {
                    end as int
                } else {
                    self@.len() as int
                },
                nested,
            ),
    {
        let end: usize = if end < self.buf.len() {
            end
        } else {
            self.buf.len()
        };
        if offset > end {
            return Err(ParseError { offset, incomplete: false });
        }
        match parse(self.buf.as_slice(), offset, end, nested) {
            Ok(reading) => Ok(reading.command),
            Err(e) => Err(e),
        }
    }

    /// Walks every top-level command in the script.
    pub fn commands(&self) -> (it: CommandIter<'_>)
        ensures
            it.remaining() == commands(self@, 0, self@.len() as int),
    {
        self.commands_in(0..self.len())
    }

    /// Walks the commands inside a byte range, such as the body of a `proc`.
    pub fn commands_in(&self, range: Range<usize>) -> (it: CommandIter<'_>)
        ensures
            it.remaining() == commands_within(self@, range.start as int, range.end as int),
    {
        let end: usize = if range.end < self.len() {
            range.end
        } else {
            self.len()
        };
        let offset: usize = if range.start < end {
            range.start
        } else {
            end
        };
        CommandIter { script: self, offset, end, done: false }
    }
}

/// The commands in `start..end`, with both cut down to the length of `b`.
pub open spec fn commands_within(b: Seq<u8>, start: int, end: int) -> Seq<
    Result<CommandView, ParseError>,
> {
    let hi = if end < b.len() {
        end
    } else {
        b.len() as int
    };
    commands(
        b,
        if start < hi {
            start
        } else {
            hi
        },
        hi,
    )
}

/// Yields each command of a [`Script`] in turn.
///
/// The walk stops at the first parse error, which is reported once.
pub struct CommandIter<'a> {
    script: &'a Script,
    offset: usize,
    end: usize,
    done: bool,
}

impl<'a> CommandIter<'a> {
    #[verifier::type_invariant]
    spec fn in_range(self) -> bool {
        self.offset <= self.end <= self.script@.len()
    }

    /// What is still to come.
    pub closed spec fn remaining(self) -> Seq<Result<CommandView, ParseError>> {
        if self.done {
            seq![]
        } else {
            commands(self.script@, self.offset as int, self.end as int)
        }
    }

    /// The next command, or the error that ends the walk.
    pub fn next(&mut self) -> (r: Option<Result<Command, ParseError>>)
        ensures
            match r {
                Some(item) => {
                    &&& old(self).remaining().len() > 0
                    &&& outcome(item) == old(self).remaining()[0]
                    &&& final(self).remaining() == old(self).remaining().drop_first()
                },
                None => old(self).remaining().len() == 0 && final(self).remaining().len() == 0,
            },
    {
        proof {
            use_type_invariant(&*self);
        }
        if self.done {
            return None;
        }
        let script = self.script;
        let end = self.end;
        let mut offset: usize = self.offset;
        let ghost all = commands(script@, offset as int, end as int);
        while offset < end
            invariant
                offset <= end <= script@.len(),
                all == commands(script@, offset as int, end as int),
                all == old(self).remaining(),
                script == self.script,
                end == self.end,
            decreases end - offset,
        {
            proof {
                lemma_command(script@, offset as int, end as int, false);
            }
            match script.parse_command_within(offset, end, false) {
                Ok(cmd) => {
                    let next = cmd.range.end;
                    let ghost rest = commands(script@, next as int, end as int);
                    if cmd.num_words > 0 {
                        self.offset = next;
                        self.done = false;
                        assert((seq![outcome(Ok(cmd))] + rest).drop_first() =~= rest);
                        return Some(Ok(cmd));
                    }
                    offset = next;
                },
                Err(e) => {
                    proof {
                        use_type_invariant(&*self);
                    }
                    self.done = true;
                    assert(all.drop_first() =~= Seq::empty());
                    return Some(Err(e));
                },
            }
        }
        proof {
            use_type_invariant(&*self);
        }
        self.done = true;
        None
    }

    /// All that is still to come.
    pub fn collect(self) -> (out: Vec<Result<Command, ParseError>>)
        ensures
            outcomes(out@) == self.remaining(),
    {
        let mut it = self;
        let mut out: Vec<Result<Command, ParseError>> = Vec::new();
        let ghost all = self.remaining();
        proof {
            assert(outcomes(out@) + all =~= all);
        }
        loop
            invariant
                all == outcomes(out@) + it.remaining(),
                all == self.remaining(),
            decreases it.remaining().len(),
        {
            let ghost rest = it.remaining();
            let ghost before = out@;
            match it.next() {
                Some(item) => {
                    out.push(item);
                    proof {
                        assert(outcomes(out@) =~= outcomes(before) + seq![rest[0]]);
                        assert(rest =~= seq![rest[0]] + rest.drop_first());
                        assert(outcomes(before) + (seq![rest[0]] + rest.drop_first()) =~= (
                        outcomes(before) + seq![rest[0]]) + rest.drop_first());
                    }
                },
                None => {
                    assert(outcomes(out@) + it.remaining() =~= outcomes(out@));
                    return out;
                },
            }
        }
    }
}

/// Whether `script` is a complete command — no unclosed brace, bracket or quote.
///
/// A NUL cannot stand in a script, so one makes the script incomplete.
pub fn command_complete(script: &str) -> (r: bool)
    ensures
        r == (!script.spec_bytes().contains(NUL) && complete_from(
            script.spec_bytes(),
            0,
            script.spec_bytes().len() as int,
        )),
{
    let b = script.as_bytes();
    let end: usize = b.len();
    let mut k: usize = 0;
    while k < end
        invariant
            k <= end == b@.len(),
            forall|m: int| 0 <= m < k ==> b@[m] != NUL,
            b@ == script.spec_bytes(),
        decreases end - k,
    {
        if b[k] == NUL {
            assert(b@[k as int] == NUL);
            return false;
        }
        k = k + 1;
    }
    let mut i: usize = 0;
    loop
        invariant
            i <= end == b@.len(),
            b@ == script.spec_bytes(),
            forall|m: int| 0 <= m < end ==> b@[m] != NUL,
            complete_from(b@, 0, end as int) == complete_from(b@, i as int, end as int),
        decreases end - i,
    {
        proof {
            lemma_command(b@, i as int, end as int, false);
        }
        match parse(b, i, end, false) {
            Ok(reading) => {
                if reading.command.range.end >= end || i >= end {
                    return !reading.more;
                }
                i = reading.command.range.end;
            },
            Err(e) => {
                return !e.incomplete;
            },
        }
    }
}

/// The generation of Tcl whose grammar this is.
pub fn tcl_generation() -> (n: u32)
    ensures
        n == 8,
{
    8
}

// ----------------------------------------------------------------------- laws
/// That a list of commands runs through `i..end` in order: each command has words
/// and lies after the one before, its tokens lie inside it and make up as many words
/// as it counts, and only the last item can be an error, which points into the text.
pub open spec fn in_order(all: Seq<Result<CommandView, ParseError>>, i: int, end: int) -> bool
    decreases all.len(),
{
    all.len() == 0 || match all[0] {
        Ok(c) => {
            &&& i <= c.range.start < c.range.end <= end
            &&& c.num_words > 0
            &&& placed(c.tokens, c.range.start as int, c.range.end as int)
            &&& c.tokens.len() <= usize::MAX ==> grouped(c.tokens, c.num_words)
            &&& c.comment matches Some(r) ==> i <= r.start < r.end <= c.range.start
            &&& in_order(all.drop_first(), c.range.end as int, end)
        },
        Err(e) => all.len() == 1 && i <= e.offset <= end,
    }
}

/// The commands of a script come in order, without overlap, and in bounds.
pub proof fn commands_are_in_order(b: Seq<u8>, i: int, end: int)
    requires
        0 <= i <= end <= b.len(),
        b.len() <= usize::MAX,
    ensures
        in_order(commands(b, i, end), i, end),
    decreases left(i, end),
{
    if i < end {
        lemma_command(b, i, end, false);
        if let Ok(p) = command(b, i, end, false) {
            commands_are_in_order(b, p.next, end);
            let rest = commands(b, p.next, end);
            if p.count == 0 {
                lemma_in_order_from(rest, i, p.next, end);
            } else {
                lemma_words_nonempty(b, p.start, end, false);
                lemma_words_grouped(b, p.start, end, false);
                assert((seq![Ok(command_view(p))] + rest).drop_first() =~= rest);
            }
        }
    }
}

proof fn lemma_in_order_from(
    all: Seq<Result<CommandView, ParseError>>,
    i: int,
    j: int,
    end: int,
)
    requires
        i <= j,
        in_order(all, j, end),
    ensures
        in_order(all, i, end),
{
}

proof fn lemma_in_order_at(
    all: Seq<Result<CommandView, ParseError>>,
    i: int,
    end: int,
    k: int,
)
    requires
        in_order(all, i, end),
        0 <= k < all.len(),
    ensures
        all[k] matches Ok(c) ==> (c.tokens.len() <= usize::MAX ==> grouped(
            c.tokens,
            c.num_words,
        )),
    decreases k,
{
    if k > 0 {
        if let Ok(c) = all[0] {
            lemma_in_order_at(all.drop_first(), c.range.end as int, end, k - 1);
            assert(all.drop_first()[k - 1] == all[k]);
        }
    }
}

/// Every command splits into as many words as it counts.
pub proof fn every_word_is_counted(b: Seq<u8>, i: int, end: int, k: int)
    requires
        0 <= i <= end <= b.len(),
        b.len() <= usize::MAX,
        0 <= k < commands(b, i, end).len(),
        commands(b, i, end)[k] is Ok,
        commands(b, i, end)[k]->Ok_0.tokens.len() <= usize::MAX,
    ensures
        words_of(commands(b, i, end)[k]->Ok_0.tokens).len()
            == commands(b, i, end)[k]->Ok_0.num_words,
{
    let c = commands(b, i, end)[k]->Ok_0;
    commands_are_in_order(b, i, end);
    lemma_in_order_at(commands(b, i, end), i, end, k);
    assert(c.tokens.subrange(0, c.tokens.len() as int) =~= c.tokens);
    lemma_groups(c.tokens, 0, c.num_words);
}

/// A script with an error is complete exactly where more input would not mend it.
pub proof fn an_error_decides_completeness(b: Seq<u8>, i: int, end: int)
    requires
        0 <= i <= end <= b.len(),
        b.len() <= usize::MAX,
        commands(b, i, end).len() > 0,
        commands(b, i, end).last() is Err,
    ensures
        complete_from(b, i, end) == !commands(b, i, end).last()->Err_0.incomplete,
    decreases left(i, end),
{
    lemma_command(b, i, end, false);
    if let Ok(p) = command(b, i, end, false) {
        let rest = commands(b, p.next, end);
        if p.count > 0 {
            assert(commands(b, i, end) == seq![Ok(command_view(p))] + rest);
            if rest.len() == 0 {
                assert(commands(b, i, end).last() == Ok::<CommandView, ParseError>(
                    command_view(p),
                ));
            } else {
                assert(commands(b, i, end).last() == rest.last());
            }
        }
        an_error_decides_completeness(b, p.next, end);
    }
}

/// A command ends where the next one may begin: parsing at its end goes on with
/// the rest of the list.
pub proof fn commands_continue_after_each(b: Seq<u8>, i: int, end: int)
    requires
        0 <= i < end <= b.len(),
        b.len() <= usize::MAX,
        commands(b, i, end).len() > 0,
        commands(b, i, end)[0] is Ok,
    ensures
        commands(b, i, end).drop_first() == commands(
            b,
            commands(b, i, end)[0]->Ok_0.range.end as int,
            end,
        ),
    decreases left(i, end),
{
    lemma_command(b, i, end, false);
    if let Ok(p) = command(b, i, end, false) {
        let rest = commands(b, p.next, end);
        if p.count == 0 {
            commands_continue_after_each(b, p.next, end);
        } else {
            assert((seq![Ok(command_view(p))] + rest).drop_first() =~= rest);
        }
    }
}

} // verus!

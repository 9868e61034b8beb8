//! Parse tokens, commands and parse errors.
use core::ops::Range;
use vstd::prelude::*;
use vstd::string::StringExecFns;

use crate::text::{decimal, decimal_text};

verus! {

/// `Clone` for `core::ops::Range`: the two bounds are cloned.
pub assume_specification<Idx: Clone>[ <Range<Idx> as Clone>::clone ](r: &Range<Idx>) -> (res: Range<
    Idx,
>)
    ensures
        cloned(r.start, res.start),
        cloned(r.end, res.end),
;

/// The kind of a parse token.
#[derive(Debug, Clone, Copy, PartialEq, Eq, Hash, Structural)]
pub enum TokenKind {
    /// A word that requires substitution; composed of `num_components` sub-tokens.
    Word,
    /// A word with no substitution — a literal.
    SimpleWord,
    /// Literal text within a word.
    Text,
    /// A backslash escape sequence.
    Backslash,
    /// A `[...]` command substitution.
    Command,
    /// A `$name` / `${name}` variable substitution.
    Variable,
    /// A sub-expression (only produced by expression parsing).
    SubExpr,
    /// An operator (only produced by expression parsing).
    Operator,
    /// A `{*}` expansion word.
    ExpandWord,
    /// A token type outside the ones above.
    Unknown(u32),
}

/// The numbers by which Tcl's C interface names the token kinds.
pub const TCL_TOKEN_WORD: u32 = 1;

pub const TCL_TOKEN_SIMPLE_WORD: u32 = 2;

pub const TCL_TOKEN_TEXT: u32 = 4;

pub const TCL_TOKEN_BS: u32 = 8;

pub const TCL_TOKEN_COMMAND: u32 = 16;

pub const TCL_TOKEN_VARIABLE: u32 = 32;

pub const TCL_TOKEN_SUB_EXPR: u32 = 64;

pub const TCL_TOKEN_OPERATOR: u32 = 128;

pub const TCL_TOKEN_EXPAND_WORD: u32 = 256;

impl TokenKind {
    /// The kind that a raw token number stands for.
    pub open spec fn of_raw(raw: u32) -> TokenKind {
        if raw == TCL_TOKEN_WORD {
            TokenKind::Word
        } else if raw == TCL_TOKEN_SIMPLE_WORD {
            TokenKind::SimpleWord
        } else if raw == TCL_TOKEN_TEXT {
            TokenKind::Text
        } else if raw == TCL_TOKEN_BS {
            TokenKind::Backslash
        } else if raw == TCL_TOKEN_COMMAND {
            TokenKind::Command
        } else if raw == TCL_TOKEN_VARIABLE {
            TokenKind::Variable
        } else if raw == TCL_TOKEN_SUB_EXPR {
            TokenKind::SubExpr
        } else if raw == TCL_TOKEN_OPERATOR {
            TokenKind::Operator
        } else if raw == TCL_TOKEN_EXPAND_WORD {
            TokenKind::ExpandWord
        } else {
            TokenKind::Unknown(raw)
        }
    }

    pub fn from_raw(raw: u32) -> (kind: TokenKind)
        ensures
            kind == TokenKind::of_raw(raw),
    {
        match raw {
            1 => TokenKind::Word,
            2 => TokenKind::SimpleWord,
            4 => TokenKind::Text,
            8 => TokenKind::Backslash,
            16 => TokenKind::Command,
            32 => TokenKind::Variable,
            64 => TokenKind::SubExpr,
            128 => TokenKind::Operator,
            256 => TokenKind::ExpandWord,
            other => TokenKind::Unknown(other),
        }
    }

    /// Whether this token is a literal whose text can be read directly.
    pub fn is_literal(self) -> (b: bool)
        ensures
            b == (self is Text || self is SimpleWord),
    {
        match self {
            TokenKind::Text | TokenKind::SimpleWord => true,
            _ => false,
        }
    }
}

/// One parse token, with byte offsets absolute to the script it came from.
#[derive(Debug, Clone, Copy, PartialEq, Eq, Structural)]
pub struct Token {
    pub kind: TokenKind,
    pub start: usize,
    pub size: usize,
    /// Number of following tokens that make up this one. Zero for leaf tokens.
    pub num_components: usize,
}

impl Token {
    /// One past the last byte of the token.
    pub open spec fn stop(self) -> int {
        self.start + self.size
    }

    pub open spec fn span(self) -> Range<usize> {
        Range { start: self.start, end: self.stop() as usize }
    }

    pub fn range(&self) -> (r: Range<usize>)
        requires
            self.stop() <= usize::MAX,
        ensures
            r == self.span(),
            r.start == self.start,
            r.end == self.start + self.size,
    {
        self.start..self.start + self.size
    }
}

/// Why a parse failed.
#[derive(Debug, Clone, Copy, PartialEq, Eq, Structural)]
pub struct ParseError {
    /// Byte offset at which the parser gave up.
    pub offset: usize,
    /// True when the input merely ends mid-construct — e.g. an unclosed brace.
    /// Editors hit this constantly while typing, so it is not a real error.
    pub incomplete: bool,
}

impl ParseError {
    /// The error in words.
    pub open spec fn words(self) -> Seq<char> {
        "Tcl parse error at byte "@ + decimal(self.offset as nat) + (if self.incomplete {
            " (incomplete input)"@
        } else {
            seq![]
        })
    }

    /// The error in words.
    pub fn message(&self) -> (s: String)
        ensures
            s@ == self.words(),
    {
        let mut s = "Tcl parse error at byte ".to_owned();
        s.append(decimal_text(self.offset).as_str());
        if self.incomplete {
            s.append(" (incomplete input)");
        }
        assert(s@ =~= self.words());
        s
    }
}

/// A single parsed command.
#[derive(Debug, Clone, PartialEq, Eq)]
pub struct Command {
    /// Byte range of the comment block preceding this command, if any.
    pub comment: Option<Range<usize>>,
    /// Byte range of the command, **including its terminating newline or `;`**,
    /// so `range.end` is exactly where the next command begins.
    pub range: Range<usize>,
    /// Number of words, as Tcl counts them.
    pub num_words: usize,
    /// Flat token array. Structure is recovered via [`Token::num_components`];
    /// use [`Command::words`] to walk it word by word.
    pub tokens: Vec<Token>,
}

/// What a [`Command`] holds, with its tokens as a sequence.
#[verifier::ext_equal]
pub struct CommandView {
    pub comment: Option<Range<usize>>,
    pub range: Range<usize>,
    pub num_words: nat,
    pub tokens: Seq<Token>,
}

impl View for Command {
    type V = CommandView;

    open spec fn view(&self) -> CommandView {
        CommandView {
            comment: self.comment,
            range: self.range,
            num_words: self.num_words as nat,
            tokens: self.tokens@,
        }
    }
}

/// Where the word that begins with token `i` ends in a flat token array: after
/// its head and `num_components` more tokens, or with the array.
pub open spec fn word_stop(tokens: Seq<Token>, i: int) -> int {
    if i + 1 + tokens[i].num_components < tokens.len() {
        i + 1 + tokens[i].num_components
    } else {
        tokens.len() as int
    }
}

/// The words of a flat token array, from token `i` on.
pub open spec fn words_from(tokens: Seq<Token>, i: int) -> Seq<Seq<Token>>
    decreases tokens.len() - i,
{
    if 0 <= i < tokens.len() {
        seq![tokens.subrange(i, word_stop(tokens, i))] + words_from(tokens, word_stop(tokens, i))
    } else {
        seq![]
    }
}

/// The words of a flat token array: each head token with its components.
pub open spec fn words_of(tokens: Seq<Token>) -> Seq<Seq<Token>> {
    words_from(tokens, 0)
}

/// Joining the words back together gives the token array: no token is dropped,
/// repeated or reordered.
pub proof fn words_partition_the_tokens(tokens: Seq<Token>)
    ensures
        words_of(tokens).flatten() == tokens,
        forall|k: int|
            0 <= k < words_of(tokens).len() ==> (#[trigger] words_of(tokens)[k]).len() > 0,
{
    lemma_words_from_flatten(tokens, 0);
    assert(tokens.subrange(0, tokens.len() as int) =~= tokens);
}

proof fn lemma_words_from_flatten(tokens: Seq<Token>, i: int)
    requires
        0 <= i <= tokens.len(),
    ensures
        words_from(tokens, i).flatten() == tokens.subrange(i, tokens.len() as int),
        forall|k: int|
            0 <= k < words_from(tokens, i).len() ==> (#[trigger] words_from(tokens, i)[k]).len()
                > 0,
    decreases tokens.len() - i,
{
    if i < tokens.len() {
        let j = word_stop(tokens, i);
        lemma_words_from_flatten(tokens, j);
        let rest = words_from(tokens, j);
        let all = words_from(tokens, i);
        assert(all.drop_first() =~= rest);
        assert(all.first() == tokens.subrange(i, j));
        assert(tokens.subrange(i, j) + tokens.subrange(j, tokens.len() as int)
            =~= tokens.subrange(i, tokens.len() as int));
        assert forall|k: int| 0 <= k < all.len() implies (#[trigger] all[k]).len() > 0 by {
            if k > 0 {
                assert(all[k] == rest[k - 1]);
            }
        }
    } else {
        assert(tokens.subrange(i, tokens.len() as int) =~= seq![]);
    }
}

/// Word slices as sequences.
pub open spec fn slices_view(words: Seq<&[Token]>) -> Seq<Seq<Token>> {
    words.map_values(|w: &[Token]| w@)
}

impl Command {
    /// Splits the flat token array into one slice per word.
    ///
    /// A word is a head token followed by `num_components` component tokens; this
    /// walks that structure so callers do not have to.
    pub fn words(&self) -> (out: Vec<&[Token]>)
        ensures
            slices_view(out@) == words_of(self.tokens@),
    {
        let mut out: Vec<&[Token]> = Vec::new();
        let mut i: usize = 0;
        let n: usize = self.tokens.len();
        assert(slices_view(out@) =~= seq![]);
        while i < n
            invariant
                n == self.tokens@.len(),
                0 <= i <= n,
                words_of(self.tokens@) == slices_view(out@) + words_from(self.tokens@, i as int),
            decreases n - i,
        {
            let more: usize = self.tokens[i].num_components;
            let end: usize = if more < n - i - 1 {
                i + 1 + more
            } else {
                n
            };
            let ghost before = out@;
            out.push(&self.tokens.as_slice()[i..end]);
            assert(slices_view(out@) =~= slices_view(before).push(
                self.tokens@.subrange(i as int, end as int),
            ));
            assert(words_of(self.tokens@) =~= slices_view(out@) + words_from(
                self.tokens@,
                end as int,
            ));
            i = end;
        }
        assert(words_of(self.tokens@) =~= slices_view(out@));
        out
    }
}

} // verus!

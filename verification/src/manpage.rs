//! Reading a Tcl/Tk man page into a documented command.
//!
//! Only the small subset of troff that Tcl's own pages use is handled.
use vstd::prelude::*;
use vstd::string::StringExecFns;
use vstd::utf8::{decode_utf8, encode_utf8, encode_utf8_decode_utf8};

use crate::document::{boundary_before, floor_char_boundary};
use crate::kb::{
    option_views, subcommand_views, Command, CommandView, OptionSpec, OptionView, Subcommand,
    SubcommandView,
};
use crate::text::{
    after_prefix, begins, chars_of, find_from, find_text, has_char, is_space, lemma_find_text,
    lines, pieces, position_of, runs, same_text, space, split_lines, split_on, split_words,
    starts_with, string_of, strip, texts, trim, trim_end, trimmed, trimmed_end, words,
};

verus! {

// ------------------------------------------------------------------- escapes
/// The end of the digits at `i`.
pub open spec fn digits_end(s: Seq<char>, i: int) -> int
    decreases s.len() - i,
{
    if 0 <= i < s.len() && '0' <= s[i] <= '9' {
        digits_end(s, i + 1)
    } else {
        i
    }
}

proof fn lemma_digits_end(s: Seq<char>, i: int)
    ensures
        i <= digits_end(s, i),
    decreases s.len() - i,
{
    if 0 <= i < s.len() && '0' <= s[i] <= '9' {
        lemma_digits_end(s, i + 1);
    }
}

/// Where the text goes on after the troff escape whose backslash stands at `i`.
pub open spec fn escape_end(s: Seq<char>, i: int) -> int {
    if i + 1 >= s.len() {
        i + 1
    } else if s[i + 1] == 'f' {
        // A font change: one letter, or two after a parenthesis.
        if i + 2 < s.len() && s[i + 2] == '(' {
            i + 5
        } else {
            i + 3
        }
    } else if s[i + 1] == 's' {
        // A size change, with or without a sign.
        if i + 2 < s.len() && (s[i + 2] == '+' || s[i + 2] == '-') {
            digits_end(s, i + 3)
        } else {
            digits_end(s, i + 2)
        }
    } else if s[i + 1] == '(' {
        // A named character, of two letters.
        i + 4
    } else {
        i + 2
    }
}

/// What the troff escape at `i` stands for.
pub open spec fn escaped(s: Seq<char>, i: int) -> Seq<char> {
    if i + 1 >= s.len() {
        seq![]
    } else {
        let c = s[i + 1];
        if c == 'f' || c == 's' || c == '(' || c == '&' || c == '%' || c == '|' || c == '^' {
            seq![]
        } else if c == 'e' {
            seq!['\\']
        } else {
            seq![c]
        }
    }
}

/// The text from `i` on, with the troff escapes resolved.
pub open spec fn plain_from(s: Seq<char>, i: int) -> Seq<char>
    decreases s.len() - i,
    when 0 <= i
    via plain_from_decreases
{
    if i >= s.len() {
        seq![]
    } else if s[i] != '\\' {
        seq![s[i]] + plain_from(s, i + 1)
    } else {
        escaped(s, i) + plain_from(
            s,
            if escape_end(s, i) < s.len() {
                escape_end(s, i)
            } else {
                s.len() as int
            },
        )
    }
}

#[via_fn]
proof fn plain_from_decreases(s: Seq<char>, i: int) {
    if i < s.len() {
        lemma_digits_end(s, i + 2);
        lemma_digits_end(s, i + 3);
    }
}

/// The text without troff escapes and without white space around it.
pub open spec fn cleaned(s: Seq<char>) -> Seq<char> {
    trim(plain_from(s, 0))
}

fn past_digits(s: &[char], i: usize) -> (r: usize)
    requires
        i <= s@.len(),
    ensures
        r == digits_end(s@, i as int),
        i <= r <= s@.len(),
{
    let mut p: usize = i;
    while p < s.len() && '0' <= s[p] && s[p] <= '9'
        invariant
            i <= p <= s@.len(),
            digits_end(s@, i as int) == digits_end(s@, p as int),
        decreases s@.len() - p,
    {
        p = p + 1;
    }
    p
}

fn clean_chars(s: &[char]) -> (r: String)
    ensures
        r@ == cleaned(s@),
{
    let mut out: Vec<char> = Vec::new();
    let ghost whole = plain_from(s@, 0);
    let n: usize = s.len();
    let mut i: usize = 0;
    assert(out@ + whole =~= whole);
    while i < n
        invariant
            i <= n == s@.len(),
            whole == plain_from(s@, 0),
            whole == out@ + plain_from(s@, i as int),
        decreases n - i,
    {
        let ghost before = out@;
        let ghost at = i as int;
        let ghost mut step: Seq<char> = seq![];
        if s[i] != '\\' {
            out.push(s[i]);
            proof {
                step = seq![s@[at]];
            }
            i = i + 1;
        } else if n - i == 1 {
            i = n;
        } else {
            let c = s[i + 1];
            proof {
                lemma_digits_end(s@, at + 2);
                lemma_digits_end(s@, at + 3);
            }
            if c == 'f' || c == 's' || c == '(' || c == '&' || c == '%' || c == '|' || c == '^' {
            } else if c == 'e' {
                out.push('\\');
            } else {
                out.push(c);
            }
            proof {
                step = escaped(s@, at);
            }
            if c == 'f' {
                let skip: usize = if n - i > 2 && s[i + 2] == '(' {
                    5
                } else {
                    3
                };
                i = if n - i > skip {
                    i + skip
                } else {
                    n
                };
            } else if c == 's' {
                i = if n - i > 2 && (s[i + 2] == '+' || s[i + 2] == '-') {
                    past_digits(s, i + 3)
                } else {
                    past_digits(s, i + 2)
                };
            } else if c == '(' {
                i = if n - i > 4 {
                    i + 4
                } else {
                    n
                };
            } else {
                i = i + 2;
            }
        }
        proof {
            assert(out@ =~= before + step);
            let rest = plain_from(s@, i as int);
            assert(plain_from(s@, at) =~= step + rest);
            assert(before + (step + rest) =~= (before + step) + rest);
        }
    }
    assert(out@ + Seq::<char>::empty() =~= out@);
    string_of(trimmed(out.as_slice()))
}

/// Strips the troff font and escape sequences that Tcl's man pages use.
pub fn clean(s: &str) -> (r: String)
    ensures
        r@ == cleaned(s@),
{
    clean_chars(chars_of(s).as_slice())
}

// -------------------------------------------------------------------- fields
/// The fields of a macro from `i` on, with `cur` already read of the current one:
/// runs between white space, with quoted white space kept.
pub open spec fn fields_from(s: Seq<char>, i: int, cur: Seq<char>, quoted: bool) -> Seq<Seq<char>>
    decreases s.len() - i,
{
    if i < 0 || i >= s.len() {
        one_field(cur)
    } else if s[i] == '"' {
        fields_from(s, i + 1, cur, !quoted)
    } else if is_space(s[i]) && !quoted {
        one_field(cur) + fields_from(s, i + 1, seq![], false)
    } else {
        fields_from(s, i + 1, cur.push(s[i]), quoted)
    }
}

pub open spec fn one_field(cur: Seq<char>) -> Seq<Seq<char>> {
    if cur.len() > 0 {
        seq![cur]
    } else {
        seq![]
    }
}

fn push_field(out: &mut Vec<String>, cur: &Vec<char>)
    ensures
        texts(final(out)@) == texts(old(out)@) + one_field(cur@),
{
    if cur.len() > 0 {
        out.push(string_of(cur.as_slice()));
    }
    assert(texts(out@) =~= texts(old(out)@) + one_field(cur@));
}

/// Splits a macro's arguments on white space, keeping `"quoted groups"` together.
pub fn split_fields(line: &[char]) -> (out: Vec<String>)
    ensures
        texts(out@) == fields_from(line@, 0, seq![], false),
{
    let mut out: Vec<String> = Vec::new();
    let mut cur: Vec<char> = Vec::new();
    let mut quoted = false;
    let mut i: usize = 0;
    let ghost whole = fields_from(line@, 0, seq![], false);
    proof {
        assert(cur@ =~= seq![]);
        assert(texts(out@) + whole =~= whole);
    }
    while i < line.len()
        invariant
            i <= line@.len(),
            whole == texts(out@) + fields_from(line@, i as int, cur@, quoted),
        decreases line@.len() - i,
    {
        let c = line[i];
        if c == '"' {
            quoted = !quoted;
        } else if space(c) && !quoted {
            let ghost before = texts(out@);
            push_field(&mut out, &cur);
            proof {
                let rest = fields_from(line@, i + 1, seq![], false);
                assert(before + (one_field(cur@) + rest) =~= (before + one_field(cur@)) + rest);
            }
            cur.clear();
            assert(cur@ =~= seq![]);
        } else {
            cur.push(c);
        }
        i = i + 1;
    }
    push_field(&mut out, &cur);
    out
}

/// The flags among the pieces from `k` on: those that begin with `-` when cleaned.
pub open spec fn flags_among(parts: Seq<Seq<char>>, k: int) -> Seq<Seq<char>>
    decreases parts.len() - k,
{
    if k < 0 || k >= parts.len() {
        seq![]
    } else {
        let flag = cleaned(trim(parts[k]));
        (if flag.len() > 0 && flag[0] == '-' {
            seq![flag]
        } else {
            seq![]
        }) + flags_among(parts, k + 1)
    }
}

/// The flags that the first field of an option entry names: one, or aliases with
/// `or` between them.
pub open spec fn flags_of(fields: Seq<Seq<char>>) -> Seq<Seq<char>> {
    if fields.len() == 0 {
        seq![]
    } else {
        flags_among(split_on(fields[0], " or "@), 0)
    }
}

pub open spec fn field(fields: Seq<Seq<char>>, i: int) -> Seq<char> {
    if 0 <= i < fields.len() {
        cleaned(fields[i])
    } else {
        seq![]
    }
}

fn flags_in(fields: &Vec<String>) -> (out: Vec<String>)
    ensures
        texts(out@) == flags_of(texts(fields@)),
{
    let mut out: Vec<String> = Vec::new();
    if fields.len() == 0 {
        assert(texts(out@) =~= seq![]);
        return out;
    }
    assert(texts(fields@)[0] == fields@[0]@);
    let first = chars_of(fields[0].as_str());
    let sep = chars_of(" or ");
    proof {
        reveal_strlit(" or ");
    }
    let parts = pieces(first.as_slice(), sep.as_slice());
    let ghost all = runs(parts@);
    let ghost whole = flags_among(all, 0);
    let mut k: usize = 0;
    assert(texts(out@) + whole =~= whole);
    while k < parts.len()
        invariant
            k <= parts@.len(),
            all == runs(parts@),
            whole == texts(out@) + flags_among(all, k as int),
        decreases parts@.len() - k,
    {
        assert(all[k as int] == parts@[k as int]@);
        let flag = clean_chars(trimmed(parts[k]));
        let ghost before = texts(out@);
        let ghost mut step: Seq<Seq<char>> = seq![];
        let dashed = match crate::words::first_char(flag.as_str()) {
            Some(c) => c == '-',
            None => false,
        };
        if dashed {
            proof {
                step = seq![flag@];
            }
            out.push(flag);
        }
        proof {
            let rest = flags_among(all, k + 1);
            assert(texts(out@) =~= before + step);
            assert(before + (step + rest) =~= (before + step) + rest);
        }
        k = k + 1;
    }
    assert(texts(out@) + Seq::<Seq<char>>::empty() =~= texts(out@));
    out
}

fn field_at(fields: &Vec<String>, i: usize) -> (r: String)
    ensures
        r@ == field(texts(fields@), i as int),
{
    if i < fields.len() {
        assert(texts(fields@)[i as int] == fields@[i as int]@);
        clean(fields[i].as_str())
    } else {
        let empty = String::new();
        assert(empty@ =~= seq![]);
        empty
    }
}

// --------------------------------------------------------------------- prose
/// How much of a description is kept, in bytes, before no more is added.
pub const DESCRIPTION_LIMIT: usize = 1600;

/// How much of the text of an option or subcommand is kept, in bytes.
pub const DOC_LIMIT: usize = 300;

/// Prose with another line of it.
pub open spec fn with_prose(buf: Seq<char>, line: Seq<char>) -> Seq<char> {
    if line.len() == 0 {
        buf
    } else if buf.len() == 0 {
        line
    } else {
        buf + seq![' '] + line
    }
}

/// The text cut down to `max` bytes, at a character boundary, with an ellipsis.
pub open spec fn truncated(s: Seq<char>, max: int) -> Seq<char> {
    let t = trim(s);
    let b = encode_utf8(t);
    if b.len() <= max {
        t
    } else {
        trim_end(decode_utf8(b.subrange(0, boundary_before(b, max)))) + seq!['…']
    }
}

fn append_prose(buf: &mut String, line: &str)
    ensures
        final(buf)@ == with_prose(old(buf)@, line@),
{
    if line.is_empty() {
        return;
    }
    if !buf.as_str().is_empty() {
        buf.push(' ');
        buf.append(line);
        assert(buf@ =~= old(buf)@ + seq![' '] + line@);
    } else {
        buf.append(line);
        assert(buf@ =~= line@);
    }
}

fn truncate(s: &str, max: usize) -> (r: String)
    ensures
        r@ == truncated(s@, max as int),
{
    let chars = chars_of(s);
    let t = string_of(trimmed(chars.as_slice()));
    let text = t.as_str();
    if text.as_bytes().len() <= max {
        return t;
    }
    let end = floor_char_boundary(text, max);
    let (head, _) = text.split_at(end);
    proof {
        encode_utf8_decode_utf8(head@);
    }
    let kept = chars_of(head);
    let mut out = string_of(trimmed_end(kept.as_slice()));
    out.push('…');
    assert(out@ =~= truncated(s@, max as int));
    out
}

// --------------------------------------------------------------------- pages
/// Which part of the page is being read.
#[derive(Debug, Clone, Copy, PartialEq, Eq, Structural)]
pub enum Section {
    /// Before the first heading.
    Start,
    Name,
    Synopsis,
    Description,
    Other,
}

/// An option entry being accumulated. One entry can name several flags, because Tk
/// documents its aliases inline: `-borderwidth or -bd`.
struct PendingOp {
    flags: Vec<String>,
    db_name: String,
    db_class: String,
    doc: String,
}

pub struct OpView {
    pub flags: Seq<Seq<char>>,
    pub db_name: Seq<char>,
    pub db_class: Seq<char>,
    pub doc: Seq<char>,
}

spec fn op_view(op: PendingOp) -> OpView {
    OpView { flags: texts(op.flags@), db_name: op.db_name@, db_class: op.db_class@, doc: op.doc@ }
}

/// A widget's block of inherited options, and the page they come from.
#[derive(Debug, Clone)]
pub struct Inherited {
    pub command: String,
    /// Page the options are documented on: `options` unless the block names another.
    pub from_page: String,
    pub flags: Vec<String>,
}

pub struct InheritedView {
    pub command: Seq<char>,
    pub from_page: Seq<char>,
    pub flags: Seq<Seq<char>>,
}

impl View for Inherited {
    type V = InheritedView;

    open spec fn view(&self) -> InheritedView {
        InheritedView {
            command: self.command@,
            from_page: self.from_page@,
            flags: texts(self.flags@),
        }
    }
}

/// What has been read of a page.
struct Page {
    name: String,
    summary: String,
    synopsis: Vec<String>,
    description: String,
    subcommands: Vec<Subcommand>,
    options: Vec<OptionSpec>,
    section: Section,
    op: Option<PendingOp>,
    tp: Option<Subcommand>,
    /// The next line of text is the tag of a paragraph.
    tag: bool,
    in_so: bool,
    so_page: String,
    so_flags: Vec<String>,
}

#[verifier::ext_equal]
pub struct PageView {
    pub name: Seq<char>,
    pub summary: Seq<char>,
    pub synopsis: Seq<Seq<char>>,
    pub description: Seq<char>,
    pub subcommands: Seq<SubcommandView>,
    pub options: Seq<OptionView>,
    pub section: Section,
    /// The option entry being read.
    pub op: Option<OpView>,
    /// The subcommand paragraph being read.
    pub tp: Option<SubcommandView>,
    /// Whether the next line of text is the tag of a paragraph.
    pub tag: bool,
    /// Whether a block of inherited options is being read.
    pub in_so: bool,
    pub so_page: Seq<char>,
    pub so_flags: Seq<Seq<char>>,
}

impl View for Page {
    type V = PageView;

    closed spec fn view(&self) -> PageView {
        PageView {
            name: self.name@,
            summary: self.summary@,
            synopsis: texts(self.synopsis@),
            description: self.description@,
            subcommands: subcommand_views(self.subcommands@),
            options: option_views(self.options@),
            section: self.section,
            op: match self.op {
                Some(op) => Some(op_view(op)),
                None => None,
            },
            tp: match self.tp {
                Some(tp) => Some(tp@),
                None => None,
            },
            tag: self.tag,
            in_so: self.in_so,
            so_page: self.so_page@,
            so_flags: texts(self.so_flags@),
        }
    }
}

impl PageView {
    /// Nothing read yet.
    pub open spec fn blank() -> PageView {
        PageView {
            name: seq![],
            summary: seq![],
            synopsis: seq![],
            description: seq![],
            subcommands: seq![],
            options: seq![],
            section: Section::Start,
            op: None,
            tp: None,
            tag: false,
            in_so: false,
            so_page: seq![],
            so_flags: seq![],
        }
    }
}

pub open spec fn has_flag(options: Seq<OptionView>, flag: Seq<char>) -> bool {
    exists|i: int| 0 <= i < options.len() && (#[trigger] options[i]).flag == flag
}

/// The options with those of an entry added, from its `k`-th flag on; a flag that
/// is there already is left out.
pub open spec fn add_options(options: Seq<OptionView>, op: OpView, k: int) -> Seq<OptionView>
    decreases op.flags.len() - k,
{
    if k < 0 || k >= op.flags.len() {
        options
    } else if op.flags[k].len() == 0 || has_flag(options, op.flags[k]) {
        add_options(options, op, k + 1)
    } else {
        add_options(
            options.push(
                OptionView {
                    flag: op.flags[k],
                    db_name: op.db_name,
                    db_class: op.db_class,
                    doc: truncated(op.doc, DOC_LIMIT as int),
                    standard: false,
                },
            ),
            op,
            k + 1,
        )
    }
}

/// The option entry that was being read is complete.
pub open spec fn op_done(p: PageView) -> PageView {
    match p.op {
        Some(op) => PageView { op: None, options: add_options(p.options, op, 0), ..p },
        None => p,
    }
}

pub open spec fn has_subcommand(subs: Seq<SubcommandView>, sub: SubcommandView) -> bool {
    exists|i: int|
        0 <= i < subs.len() && (#[trigger] subs[i]).name == sub.name && subs[i].signature
            == sub.signature
}

/// The subcommand paragraph that was being read is complete. One that is there
/// already, by name and signature, is left out.
pub open spec fn tp_done(p: PageView) -> PageView {
    match p.tp {
        Some(sub) => PageView {
            tp: None,
            subcommands: if has_subcommand(p.subcommands, sub) {
                p.subcommands
            } else {
                p.subcommands.push(
                    SubcommandView { doc: truncated(sub.doc, DOC_LIMIT as int), ..sub },
                )
            },
            ..p
        },
        None => p,
    }
}

/// Whether a heading is the given one, in any case.
pub open spec fn is_heading(s: Seq<char>, upper: Seq<char>) -> bool {
    &&& s.len() == upper.len()
    &&& forall|i: int|
        0 <= i < s.len() ==> {
            ||| #[trigger] s[i] == upper[i]
            ||| 'A' <= upper[i] <= 'Z' && s[i] as u32 == upper[i] as u32 + 32
        }
}

/// The first position at or after `i` that is no quote.
pub open spec fn quotes_end(s: Seq<char>, i: int) -> int
    decreases s.len() - i,
{
    if 0 <= i < s.len() && s[i] == '"' {
        quotes_end(s, i + 1)
    } else {
        i
    }
}

/// The end of what is left of `lo..n` without trailing quotes.
pub open spec fn quotes_stop(s: Seq<char>, lo: int, n: int) -> int
    decreases n - lo,
{
    if 0 <= lo < n <= s.len() && s[n - 1] == '"' {
        quotes_stop(s, lo, n - 1)
    } else {
        n
    }
}

/// The text without quotes around it.
pub open spec fn unquoted(s: Seq<char>) -> Seq<char> {
    let lo = quotes_end(s, 0);
    s.subrange(lo, quotes_stop(s, lo, s.len() as int))
}

/// The section that a heading opens. The subcommands of a widget stand under a
/// heading of their own, and are read like those of a description.
pub open spec fn section_of(heading: Seq<char>) -> Section {
    if is_heading(heading, "NAME"@) {
        Section::Name
    } else if is_heading(heading, "SYNOPSIS"@) {
        Section::Synopsis
    } else if is_heading(heading, "DESCRIPTION"@) || is_heading(heading, "WIDGET COMMAND"@) {
        Section::Description
    } else {
        Section::Other
    }
}

/// The first word of a text.
pub open spec fn first_word(s: Seq<char>) -> Option<Seq<char>> {
    if split_words(s).len() > 0 {
        Some(split_words(s)[0])
    } else {
        None
    }
}

/// A word that can name a subcommand.
pub open spec fn is_subcommand_word(w: Seq<char>) -> bool {
    forall|i: int| 0 <= i < w.len() ==> is_word_char(#[trigger] w[i])
}

pub open spec fn is_word_char(c: char) -> bool {
    'a' <= c <= 'z' || 'A' <= c <= 'Z' || '0' <= c <= '9' || c == '_' || c == '-'
}

/// The subcommand that the tag of a paragraph documents: its signature begins with
/// the command's name, or with `pathName` for a widget.
pub open spec fn tagged(name: Seq<char>, sig: Seq<char>) -> Option<SubcommandView> {
    let rest = if starts_with(sig, name + seq![' ']) {
        Some(after_prefix(sig, name + seq![' ']))
    } else if starts_with(sig, "pathName "@) {
        Some(after_prefix(sig, "pathName "@))
    } else {
        None
    };
    match rest {
        Some(r) => match first_word(r) {
            Some(word) => if is_subcommand_word(word) {
                Some(SubcommandView { name: word, signature: sig, doc: seq![] })
            } else {
                None
            },
            None => None,
        },
        None => None,
    }
}

/// The words from `k` on that are flags.
pub open spec fn dashed_words(ws: Seq<Seq<char>>, k: int) -> Seq<Seq<char>>
    decreases ws.len() - k,
{
    if k < 0 || k >= ws.len() {
        seq![]
    } else {
        (if ws[k].len() > 0 && ws[k][0] == '-' {
            seq![ws[k]]
        } else {
            seq![]
        }) + dashed_words(ws, k + 1)
    }
}

/// A line of the NAME section: names, ` - `, and the summary.
pub open spec fn name_line(p: PageView, line: Seq<char>) -> PageView {
    match find_text(line, 0, " - "@) {
        Some(k) => {
            let names = line.subrange(0, k);
            PageView {
                name: if p.name.len() == 0 {
                    trim(names.subrange(0, crate::text::find_char(names, 0, ',')))
                } else {
                    p.name
                },
                summary: trim(line.subrange(k + 3, line.len() as int)),
                ..p
            }
        },
        None => p,
    }
}

/// A line of text, by the section it stands in.
pub open spec fn text_line(p: PageView, line: Seq<char>) -> PageView {
    let c = cleaned(line);
    let op = match p.op {
        Some(op) => Some(OpView { doc: with_prose(op.doc, c), ..op }),
        None => None,
    };
    match p.section {
        Section::Name => name_line(p, c),
        Section::Synopsis => if c.len() > 0 {
            PageView { synopsis: p.synopsis.push(c), ..p }
        } else {
            p
        },
        Section::Description => match p.tp {
            Some(sub) => if c != "."@ {
                PageView {
                    tp: Some(SubcommandView { doc: with_prose(sub.doc, c), ..sub }),
                    op,
                    ..p
                }
            } else {
                PageView { op, ..p }
            },
            None => if encode_utf8(p.description).len() < DESCRIPTION_LIMIT {
                PageView { description: with_prose(p.description, c), op, ..p }
            } else {
                PageView { op, ..p }
            },
        },
        _ => PageView { op, ..p },
    }
}

/// The page with one more line read.
pub open spec fn page_line(p: PageView, raw: Seq<char>) -> PageView {
    let line = trim_end(raw);
    if starts_with(line, ".\\\""@) || starts_with(line, "'\\\""@) {
        // A comment.
        p
    } else if starts_with(line, ".TH "@) {
        let name = match first_word(after_prefix(line, ".TH "@)) {
            Some(w) => cleaned(w),
            None => seq![],
        };
        if name.len() > 0 {
            PageView { name, ..p }
        } else {
            p
        }
    } else if starts_with(line, ".SH "@) {
        PageView {
            section: section_of(unquoted(trim(after_prefix(line, ".SH "@)))),
            ..tp_done(op_done(p))
        }
    } else if starts_with(line, ".SO"@) {
        let named = trim(after_prefix(line, ".SO"@));
        PageView {
            in_so: true,
            so_page: if named.len() == 0 {
                "options"@
            } else {
                named
            },
            ..op_done(p)
        }
    } else if starts_with(line, ".SE"@) {
        PageView { in_so: false, ..p }
    } else if p.in_so {
        PageView {
            so_flags: p.so_flags + dashed_words(split_words(cleaned(line)), 0),
            ..p
        }
    } else if starts_with(line, ".OP "@) {
        let fields = fields_from(after_prefix(line, ".OP "@), 0, seq![], false);
        let flags = flags_of(fields);
        PageView {
            op: if flags.len() > 0 {
                Some(
                    OpView {
                        flags,
                        db_name: field(fields, 1),
                        db_class: field(fields, 2),
                        doc: seq![],
                    },
                )
            } else {
                None
            },
            ..tp_done(op_done(p))
        }
    } else if starts_with(line, ".TP"@) {
        let q = tp_done(op_done(p));
        PageView { tag: q.tag || q.section is Description, ..q }
    } else if starts_with(line, "."@) {
        if starts_with(line, ".BE"@) {
            op_done(p)
        } else {
            p
        }
    } else if trim(line).len() == 0 {
        p
    } else if p.tag {
        let q = PageView { tag: false, ..p };
        match tagged(p.name, cleaned(line)) {
            Some(sub) => PageView { tp: Some(sub), ..q },
            None => q,
        }
    } else {
        text_line(p, line)
    }
}

/// The page with the lines from `k` on read.
pub open spec fn page_lines(p: PageView, all: Seq<Seq<char>>, k: int) -> PageView
    decreases all.len() - k,
{
    if k < 0 || k >= all.len() {
        p
    } else {
        page_lines(page_line(p, all[k]), all, k + 1)
    }
}

/// The command that a page documents, if any: none without a usable name, for the C
/// interface, or with neither summary nor synopsis. With it the options that it
/// inherits, whose command is named later.
pub open spec fn page_command(p: PageView, package: Seq<char>) -> Option<
    (CommandView, Option<InheritedView>),
> {
    let q = tp_done(op_done(p));
    if q.name.len() == 0 || q.name.contains(' ') || starts_with(q.name, "Tcl_"@) || starts_with(
        q.name,
        "Tk_"@,
    ) || (q.summary.len() == 0 && q.synopsis.len() == 0) {
        None
    } else {
        Some(
            (
                CommandView {
                    name: q.name,
                    summary: q.summary,
                    synopsis: q.synopsis,
                    description: trim(q.description),
                    subcommands: q.subcommands,
                    options: q.options,
                    package,
                },
                if q.so_flags.len() > 0 {
                    Some(
                        InheritedView {
                            command: seq![],
                            from_page: q.so_page,
                            flags: q.so_flags,
                        },
                    )
                } else {
                    None
                },
            ),
        )
    }
}

/// What a page documents.
pub open spec fn parsed_page(text: Seq<char>, package: Seq<char>) -> Option<
    (CommandView, Option<InheritedView>),
> {
    page_command(page_lines(PageView::blank(), split_lines(text), 0), package)
}

// -------------------------------------------------------------- executable
fn knows_flag(options: &Vec<OptionSpec>, flag: &str) -> (r: bool)
    ensures
        r == has_flag(option_views(options@), flag@),
{
    let ghost all = option_views(options@);
    let mut i: usize = 0;
    while i < options.len()
        invariant
            i <= options@.len(),
            all == option_views(options@),
            forall|k: int| 0 <= k < i ==> (#[trigger] all[k]).flag != flag@,
        decreases options@.len() - i,
    {
        assert(all[i as int] == options@[i as int]@);
        if same_text(options[i].flag.as_str(), flag) {
            return true;
        }
        i = i + 1;
    }
    false
}

fn knows_subcommand(subs: &Vec<Subcommand>, sub: &Subcommand) -> (r: bool)
    ensures
        r == has_subcommand(subcommand_views(subs@), sub@),
{
    let ghost all = subcommand_views(subs@);
    let mut i: usize = 0;
    while i < subs.len()
        invariant
            i <= subs@.len(),
            all == subcommand_views(subs@),
            forall|k: int|
                0 <= k < i ==> !((#[trigger] all[k]).name == sub@.name && all[k].signature
                    == sub@.signature),
        decreases subs@.len() - i,
    {
        assert(all[i as int] == subs@[i as int]@);
        if same_text(subs[i].name.as_str(), sub.name.as_str()) && same_text(
            subs[i].signature.as_str(),
            sub.signature.as_str(),
        ) {
            return true;
        }
        i = i + 1;
    }
    false
}

fn heading_is(s: &[char], upper: &str) -> (r: bool)
    ensures
        r == is_heading(s@, upper@),
{
    let u = chars_of(upper);
    if s.len() != u.len() {
        return false;
    }
    let mut i: usize = 0;
    while i < s.len()
        invariant
            i <= s@.len(),
            s@.len() == u@.len(),
            u@ == upper@,
            forall|k: int|
                0 <= k < i ==> {
                    ||| #[trigger] s@[k] == u@[k]
                    ||| 'A' <= u@[k] <= 'Z' && s@[k] as u32 == u@[k] as u32 + 32
                },
        decreases s@.len() - i,
    {
        let a: char = s[i];
        let b: char = u[i];
        if a != b {
            if !('A' <= b && b <= 'Z') {
                return false;
            }
            if a as u32 != b as u32 + 32 {
                return false;
            }
        }
        i = i + 1;
    }
    true
}

fn without_quotes(s: &[char]) -> (r: &[char])
    ensures
        r@ == unquoted(s@),
{
    let mut lo: usize = 0;
    while lo < s.len() && s[lo] == '"'
        invariant
            lo <= s@.len(),
            quotes_end(s@, 0) == quotes_end(s@, lo as int),
        decreases s@.len() - lo,
    {
        lo = lo + 1;
    }
    let mut n: usize = s.len();
    while lo < n && s[n - 1] == '"'
        invariant
            lo <= n <= s@.len(),
            quotes_stop(s@, lo as int, s@.len() as int) == quotes_stop(s@, lo as int, n as int),
        decreases n - lo,
    {
        n = n - 1;
    }
    vstd::slice::slice_subrange(s, lo, n)
}

fn word_chars(w: &[char]) -> (r: bool)
    ensures
        r == is_subcommand_word(w@),
{
    let mut i: usize = 0;
    while i < w.len()
        invariant
            i <= w@.len(),
            forall|k: int| 0 <= k < i ==> is_word_char(#[trigger] w@[k]),
        decreases w@.len() - i,
    {
        let c = w[i];
        if !(('a' <= c && c <= 'z') || ('A' <= c && c <= 'Z') || ('0' <= c && c <= '9') || c == '_'
            || c == '-') {
            return false;
        }
        i = i + 1;
    }
    true
}

/// The subcommand that a tag documents.
fn tag_subcommand(name: &str, sig: String) -> (r: Option<Subcommand>)
    ensures
        match tagged(name@, sig@) {
            Some(sub) => r is Some && r->0@ == sub,
            None => r is None,
        },
{
    let chars = chars_of(sig.as_str());
    let mut own = name.to_owned();
    own.push(' ');
    assert(own@ =~= name@ + seq![' ']);
    let rest = match strip(chars.as_slice(), own.as_str()) {
        Some(r) => r,
        None => match strip(chars.as_slice(), "pathName ") {
            Some(r) => r,
            None => {
                return None;
            },
        },
    };
    let parts = words(rest);
    if parts.len() == 0 {
        assert(runs(parts@).len() == 0);
        return None;
    }
    assert(runs(parts@)[0] == parts@[0]@);
    if !word_chars(parts[0]) {
        return None;
    }
    let doc = String::new();
    assert(doc@ =~= seq![]);
    Some(Subcommand { name: string_of(parts[0]), signature: sig, doc })
}

fn push_dashed(out: &mut Vec<String>, line: &str)
    ensures
        texts(final(out)@) == texts(old(out)@) + dashed_words(split_words(line@), 0),
{
    let chars = chars_of(line);
    let parts = words(chars.as_slice());
    let ghost all = runs(parts@);
    let ghost whole = dashed_words(all, 0);
    let ghost before = texts(out@);
    let ghost mut acc: Seq<Seq<char>> = seq![];
    let mut k: usize = 0;
    assert(acc + whole =~= whole);
    assert(before + acc =~= before);
    while k < parts.len()
        invariant
            k <= parts@.len(),
            all == runs(parts@),
            texts(out@) == before + acc,
            whole == acc + dashed_words(all, k as int),
        decreases parts@.len() - k,
    {
        assert(all[k as int] == parts@[k as int]@);
        let w = parts[k];
        let ghost mut step: Seq<Seq<char>> = seq![];
        let ghost was = out@;
        if w.len() > 0 && w[0] == '-' {
            out.push(string_of(w));
            proof {
                step = seq![w@];
                assert(texts(out@) =~= texts(was).push(w@));
            }
        }
        proof {
            let rest = dashed_words(all, k + 1);
            assert(acc + (step + rest) =~= (acc + step) + rest);
            assert(texts(out@) =~= before + (acc + step));
            acc = acc + step;
        }
        k = k + 1;
    }
    assert(acc + Seq::<Seq<char>>::empty() =~= acc);
}

impl Page {
    fn blank() -> (p: Page)
        ensures
            p@ == PageView::blank(),
    {
        let p = Page {
            name: String::new(),
            summary: String::new(),
            synopsis: Vec::new(),
            description: String::new(),
            subcommands: Vec::new(),
            options: Vec::new(),
            section: Section::Start,
            op: None,
            tp: None,
            tag: false,
            in_so: false,
            so_page: String::new(),
            so_flags: Vec::new(),
        };
        assert(p@ =~= PageView::blank());
        p
    }

    fn flush_op(&mut self)
        ensures
            final(self)@ == op_done(old(self)@),
    {
        let ghost start = self@;
        let mut taken: Option<PendingOp> = None;
        core::mem::swap(&mut self.op, &mut taken);
        if let Some(op) = taken {
            let doc = truncate(op.doc.as_str(), DOC_LIMIT);
            let ghost entry = op_view(op);
            let mut options: Vec<OptionSpec> = Vec::new();
            core::mem::swap(&mut self.options, &mut options);
            let ghost whole = add_options(start.options, entry, 0);
            let mut k: usize = 0;
            while k < op.flags.len()
                invariant
                    k <= op.flags@.len(),
                    entry == op_view(op),
                    doc@ == truncated(op.doc@, DOC_LIMIT as int),
                    whole == add_options(option_views(options@), entry, k as int),
                decreases op.flags@.len() - k,
            {
                assert(entry.flags[k as int] == op.flags@[k as int]@);
                let flag = &op.flags[k];
                if !flag.as_str().is_empty() && !knows_flag(&options, flag.as_str()) {
                    let ghost was = options@;
                    let spec_ = OptionSpec {
                        flag: flag.clone(),
                        db_name: op.db_name.clone(),
                        db_class: op.db_class.clone(),
                        doc: doc.clone(),
                        standard: false,
                    };
                    options.push(spec_);
                    assert(option_views(options@) =~= option_views(was).push(spec_@));
                }
                k = k + 1;
            }
            self.options = options;
        }
        assert(self@ =~= op_done(start));
    }

    fn flush_tp(&mut self)
        ensures
            final(self)@ == tp_done(old(self)@),
    {
        let ghost start = self@;
        let mut taken: Option<Subcommand> = None;
        core::mem::swap(&mut self.tp, &mut taken);
        if let Some(sub) = taken {
            let ghost was = self.subcommands@;
            let doc = truncate(sub.doc.as_str(), DOC_LIMIT);
            if !knows_subcommand(&self.subcommands, &sub) {
                let complete = Subcommand { name: sub.name, signature: sub.signature, doc };
                self.subcommands.push(complete);
                assert(subcommand_views(self.subcommands@) =~= subcommand_views(was).push(
                    complete@,
                ));
            }
        }
        assert(self@ =~= tp_done(start));
    }

    fn read_name(&mut self, line: &str)
        ensures
            final(self)@ == name_line(old(self)@, line@),
    {
        let ghost start = self@;
        let chars = chars_of(line);
        let sep = chars_of(" - ");
        let total: usize = chars.len();
        proof {
            reveal_strlit(" - ");
            lemma_find_text(line@, 0, " - "@);
        }
        if let Some(k) = find_from(chars.as_slice(), 0, sep.as_slice()) {
            if self.name.as_str().is_empty() {
                let names = vstd::slice::slice_subrange(chars.as_slice(), 0, k);
                let end = position_of(names, 0, ',');
                self.name = string_of(trimmed(vstd::slice::slice_subrange(names, 0, end)));
            }
            let summary = vstd::slice::slice_subrange(chars.as_slice(), k + sep.len(), total);
            self.summary = string_of(trimmed(summary));
        }
        assert(self@ =~= name_line(start, line@));
    }

    fn add_to_op(&mut self, c: &str)
        ensures
            final(self)@ == (PageView {
                op: match old(self)@.op {
                    Some(op) => Some(OpView { doc: with_prose(op.doc, c@), ..op }),
                    None => None,
                },
                ..old(self)@
            }),
    {
        let ghost start = self@;
        let mut taken: Option<PendingOp> = None;
        core::mem::swap(&mut self.op, &mut taken);
        if let Some(op) = taken {
            let mut op = op;
            append_prose(&mut op.doc, c);
            self.op = Some(op);
        }
        assert(self@ =~= PageView {
            op: match start.op {
                Some(op) => Some(OpView { doc: with_prose(op.doc, c@), ..op }),
                None => None,
            },
            ..start
        });
    }

    fn read_text(&mut self, line: &[char])
        ensures
            final(self)@ == text_line(old(self)@, line@),
    {
        let ghost start = self@;
        let c = clean_chars(line);
        match self.section {
            Section::Name => {
                self.read_name(c.as_str());
            },
            Section::Synopsis => {
                let ghost was = self.synopsis@;
                if !c.as_str().is_empty() {
                    self.synopsis.push(c);
                    assert(texts(self.synopsis@) =~= texts(was).push(c@));
                }
                assert(self@ =~= text_line(start, line@));
            },
            Section::Description => {
                let mut taken: Option<Subcommand> = None;
                core::mem::swap(&mut self.tp, &mut taken);
                match taken {
                    Some(sub) => {
                        let mut sub = sub;
                        if !same_text(c.as_str(), ".") {
                            append_prose(&mut sub.doc, c.as_str());
                        }
                        self.tp = Some(sub);
                    },
                    None => {
                        if self.description.as_str().as_bytes().len() < DESCRIPTION_LIMIT {
                            append_prose(&mut self.description, c.as_str());
                        }
                    },
                }
                self.add_to_op(c.as_str());
                assert(self@ =~= text_line(start, line@));
            },
            _ => {
                self.add_to_op(c.as_str());
            },
        }
    }

    fn read_option(&mut self, rest: &[char])
        ensures
            final(self)@ == ({
                let fields = fields_from(rest@, 0, seq![], false);
                let flags = flags_of(fields);
                PageView {
                    op: if flags.len() > 0 {
                        Some(
                            OpView {
                                flags,
                                db_name: field(fields, 1),
                                db_class: field(fields, 2),
                                doc: seq![],
                            },
                        )
                    } else {
                        None
                    },
                    ..tp_done(op_done(old(self)@))
                }
            }),
    {
        self.flush_op();
        self.flush_tp();
        let ghost start = self@;
        let fields = split_fields(rest);
        let flags = flags_in(&fields);
        assert(texts(flags@).len() == flags@.len());
        if flags.len() > 0 {
            let doc = String::new();
            assert(doc@ =~= seq![]);
            self.op = Some(
                PendingOp {
                    flags,
                    db_name: field_at(&fields, 1),
                    db_class: field_at(&fields, 2),
                    doc,
                },
            );
        } else {
            self.op = None;
        }
        assert(self@ =~= PageView { op: self@.op, ..start });
    }

    fn read_title(&mut self, rest: &[char])
        ensures
            final(self)@ == ({
                let name = match first_word(rest@) {
                    Some(w) => cleaned(w),
                    None => seq![],
                };
                if name.len() > 0 {
                    PageView { name, ..old(self)@ }
                } else {
                    old(self)@
                }
            }),
    {
        let ghost start = self@;
        let parts = words(rest);
        assert(runs(parts@).len() == parts@.len());
        if parts.len() > 0 {
            assert(runs(parts@)[0] == parts@[0]@);
            let name = clean_chars(parts[0]);
            if !name.as_str().is_empty() {
                self.name = name;
                assert(self@ =~= PageView { name: name@, ..start });
            }
        }
    }

    fn read_heading(&mut self, rest: &[char])
        ensures
            final(self)@ == (PageView {
                section: section_of(unquoted(trim(rest@))),
                ..tp_done(op_done(old(self)@))
            }),
    {
        self.flush_op();
        self.flush_tp();
        let ghost start = self@;
        let head = without_quotes(trimmed(rest));
        self.section = if heading_is(head, "NAME") {
            Section::Name
        } else if heading_is(head, "SYNOPSIS") {
            Section::Synopsis
        } else if heading_is(head, "DESCRIPTION") || heading_is(head, "WIDGET COMMAND") {
            Section::Description
        } else {
            Section::Other
        };
        assert(self@ =~= PageView { section: self.section, ..start });
    }

    fn read_standard(&mut self, rest: &[char])
        ensures
            final(self)@ == ({
                let named = trim(rest@);
                PageView {
                    in_so: true,
                    so_page: if named.len() == 0 {
                        "options"@
                    } else {
                        named
                    },
                    ..op_done(old(self)@)
                }
            }),
    {
        self.flush_op();
        let ghost start = self@;
        self.in_so = true;
        let named = trimmed(rest);
        self.so_page = if named.len() == 0 {
            "options".to_owned()
        } else {
            string_of(named)
        };
        assert(self@ =~= PageView { in_so: true, so_page: self.so_page@, ..start });
    }

    fn read_line(&mut self, raw: &[char])
        ensures
            final(self)@ == page_line(old(self)@, raw@),
    {
        let ghost start = self@;
        let line = trimmed_end(raw);
        if begins(line, ".\\\"") || begins(line, "'\\\"") {
            return;
        }
        if let Some(rest) = strip(line, ".TH ") {
            self.read_title(rest);
            return;
        }
        if let Some(rest) = strip(line, ".SH ") {
            self.read_heading(rest);
            return;
        }
        if let Some(rest) = strip(line, ".SO") {
            self.read_standard(rest);
            return;
        }
        if begins(line, ".SE") {
            self.in_so = false;
            assert(self@ =~= PageView { in_so: false, ..start });
            return;
        }
        if self.in_so {
            let c = clean_chars(line);
            push_dashed(&mut self.so_flags, c.as_str());
            assert(self@ =~= page_line(start, raw@));
            return;
        }
        if let Some(rest) = strip(line, ".OP ") {
            self.read_option(rest);
            return;
        }
        if begins(line, ".TP") {
            self.flush_op();
            self.flush_tp();
            let ghost flushed = self@;
            if matches!(self.section, Section::Description) {
                self.tag = true;
            }
            assert(self@ =~= PageView { tag: self.tag, ..flushed });
            return;
        }
        if begins(line, ".") {
            if begins(line, ".BE") {
                self.flush_op();
            }
            return;
        }
        if trimmed(line).len() == 0 {
            return;
        }
        if self.tag {
            self.tag = false;
            if let Some(sub) = tag_subcommand(self.name.as_str(), clean_chars(line)) {
                self.tp = Some(sub);
            }
            assert(self@ =~= page_line(start, raw@));
            return;
        }
        self.read_text(line);
    }
}

/// Extracts one command from a man page, or `None` if the page documents none.
pub fn parse_page(text: &str, package: &str) -> (r: Option<(Command, Option<Inherited>)>)
    ensures
        match parsed_page(text@, package@) {
            Some(expected) => {
                &&& r is Some
                &&& (r->0).0@ == expected.0
                &&& match expected.1 {
                    Some(inh) => (r->0).1 is Some && (r->0).1->0@ == inh,
                    None => (r->0).1 is None,
                }
            },
            None => r is None,
        },
{
    let mut page = Page::blank();
    let chars = chars_of(text);
    let all = lines(chars.as_slice());
    let ghost every = runs(all@);
    let ghost whole = page_lines(PageView::blank(), every, 0);
    let mut k: usize = 0;
    while k < all.len()
        invariant
            k <= all@.len(),
            every == runs(all@),
            whole == page_lines(page@, every, k as int),
        decreases all@.len() - k,
    {
        assert(every[k as int] == all@[k as int]@);
        page.read_line(all[k]);
        k = k + 1;
    }
    page.flush_op();
    page.flush_tp();
    let ghost q = page@;
    let name = chars_of(page.name.as_str());
    if name.len() == 0 || has_char(name.as_slice(), ' ') || begins(name.as_slice(), "Tcl_")
        || begins(name.as_slice(), "Tk_") {
        return None;
    }
    assert(texts(page.synopsis@).len() == page.synopsis@.len());
    if page.summary.as_str().is_empty() && page.synopsis.len() == 0 {
        return None;
    }
    let text = chars_of(page.description.as_str());
    let description = string_of(trimmed(text.as_slice()));
    assert(texts(page.so_flags@).len() == page.so_flags@.len());
    let inherited = if page.so_flags.len() > 0 {
        let command = String::new();
        assert(command@ =~= seq![]);
        Some(Inherited { command, from_page: page.so_page, flags: page.so_flags })
    } else {
        None
    };
    let cmd = Command {
        name: page.name,
        summary: page.summary,
        synopsis: page.synopsis,
        description,
        subcommands: page.subcommands,
        options: page.options,
        package: package.to_owned(),
    };
    Some((cmd, inherited))
}

/// How the file of a man page is read.
#[derive(Debug, Clone, Copy, PartialEq, Eq, Structural)]
pub enum PageFile {
    /// Compressed with gzip.
    Gzip,
    Plain,
    /// No man page.
    Other,
}

/// How the file of that name is read: by its ending.
pub fn page_file(name: &str) -> (r: PageFile)
    ensures
        r == (if crate::text::ends_with(name@, ".gz"@) {
            PageFile::Gzip
        } else if crate::text::ends_with(name@, ".n"@) || crate::text::ends_with(name@, ".1"@)
            || crate::text::ends_with(name@, ".3"@) {
            PageFile::Plain
        } else {
            PageFile::Other
        }),
{
    let n = chars_of(name);
    let s = n.as_slice();
    if crate::text::finishes(s, ".gz") {
        PageFile::Gzip
    } else if crate::text::finishes(s, ".n") || crate::text::finishes(s, ".1")
        || crate::text::finishes(s, ".3") {
        PageFile::Plain
    } else {
        PageFile::Other
    }
}

// ----------------------------------------------------------------------- laws
/// Whether no flag is there twice.
pub open spec fn flags_distinct(s: Seq<OptionView>) -> bool {
    forall|i: int, j: int|
        0 <= i < j < s.len() ==> (#[trigger] s[i]).flag != (#[trigger] s[j]).flag
}

/// Whether no subcommand is there twice in the same form.
pub open spec fn forms_distinct(s: Seq<SubcommandView>) -> bool {
    forall|i: int, j: int|
        0 <= i < j < s.len() ==> !((#[trigger] s[i]).name == (#[trigger] s[j]).name
            && s[i].signature == s[j].signature)
}

/// Whether what a page has given so far repeats neither an option nor a form of a
/// subcommand.
pub open spec fn repeats_nothing(p: PageView) -> bool {
    flags_distinct(p.options) && forms_distinct(p.subcommands)
}

pub(crate) proof fn lemma_distinct_push(s: Seq<OptionView>, o: OptionView)
    requires
        flags_distinct(s),
        !has_flag(s, o.flag),
    ensures
        flags_distinct(s.push(o)),
{
    let t = s.push(o);
    assert forall|i: int, j: int| 0 <= i < j < t.len() implies (#[trigger] t[i]).flag != (
    #[trigger] t[j]).flag by {
        assert(t[i] == s[i]);
        if j < s.len() {
            assert(t[j] == s[j]);
        }
    }
}

proof fn lemma_add_options(options: Seq<OptionView>, op: OpView, k: int)
    requires
        flags_distinct(options),
    ensures
        flags_distinct(add_options(options, op, k)),
    decreases op.flags.len() - k,
{
    if 0 <= k < op.flags.len() {
        if op.flags[k].len() == 0 || has_flag(options, op.flags[k]) {
            lemma_add_options(options, op, k + 1);
        } else {
            let o = OptionView {
                flag: op.flags[k],
                db_name: op.db_name,
                db_class: op.db_class,
                doc: truncated(op.doc, DOC_LIMIT as int),
                standard: false,
            };
            lemma_distinct_push(options, o);
            lemma_add_options(options.push(o), op, k + 1);
        }
    }
}

proof fn lemma_flushed(p: PageView)
    requires
        repeats_nothing(p),
    ensures
        repeats_nothing(op_done(p)),
        repeats_nothing(tp_done(p)),
        repeats_nothing(tp_done(op_done(p))),
{
    if let Some(op) = p.op {
        lemma_add_options(p.options, op, 0);
    }
}

proof fn lemma_page_line(p: PageView, raw: Seq<char>)
    requires
        repeats_nothing(p),
    ensures
        repeats_nothing(page_line(p, raw)),
{
    lemma_flushed(p);
}

proof fn lemma_page_lines(p: PageView, all: Seq<Seq<char>>, k: int)
    requires
        repeats_nothing(p),
    ensures
        repeats_nothing(page_lines(p, all, k)),
    decreases all.len() - k,
{
    if 0 <= k < all.len() {
        lemma_page_line(p, all[k]);
        lemma_page_lines(page_line(p, all[k]), all, k + 1);
    }
}

/// A page's command lists no option and no form of a subcommand twice.
pub proof fn pages_list_nothing_twice(text: Seq<char>, package: Seq<char>)
    ensures
        parsed_page(text, package) matches Some((c, _)) ==> flags_distinct(c.options)
            && forms_distinct(c.subcommands),
{
    lemma_page_lines(PageView::blank(), split_lines(text), 0);
    lemma_flushed(page_lines(PageView::blank(), split_lines(text), 0));
}

} // verus!

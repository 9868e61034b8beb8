//! What the optional out-of-process analysers report.
//!
//! `nagelfar`, `tclint` and `tclfmt` are run as subprocesses; what is read here is
//! their output.
use vstd::prelude::*;
use vstd::string::StringExecFns;
use vstd::utf8::encode_utf8_decode_utf8;

use crate::script::utf8_text;
use crate::text::{
    lemma_find_text, begins, chars_are, chars_of, find_from, find_text, holds_text, last_position_of, lines,
    number, parse_number, rfind_char, runs, split_lines, starts_with, string_of, text_option,
    texts, trim, trim_start, trimmed, trimmed_start,
};

verus! {

/// Severity as reported by an external tool.
#[derive(Debug, Clone, Copy, PartialEq, Eq, Structural)]
pub enum Severity {
    Error,
    Warning,
    Info,
}

/// One finding, with 0-based line and optional 0-based column.
#[derive(Debug)]
pub struct Finding {
    pub line: u32,
    pub column: Option<u32>,
    pub severity: Severity,
    pub message: String,
    pub code: Option<String>,
    pub source: &'static str,
}

pub struct FindingView {
    pub line: int,
    pub column: Option<int>,
    pub severity: Severity,
    pub message: Seq<char>,
    pub code: Option<Seq<char>>,
    pub source: Seq<char>,
}

impl View for Finding {
    type V = FindingView;

    open spec fn view(&self) -> FindingView {
        FindingView {
            line: self.line as int,
            column: match self.column {
                Some(c) => Some(c as int),
                None => None,
            },
            severity: self.severity,
            message: self.message@,
            code: text_option(self.code),
            source: self.source@,
        }
    }
}

pub open spec fn finding_views(v: Seq<Finding>) -> Seq<FindingView> {
    v.map_values(|f: Finding| f@)
}

/// Syntax entries for the host application's own commands, written as a small
/// companion database so that nagelfar knows them.
pub const HOST_COMMAND_DB: &'static str =
    "# Host-application commands (veles-agent core, registered at runtime).\nset ::syntax(veles::call_llm) {x x x? x?}\nset ::syntax(veles::json_get) {x x x*}\nset ::syntax(veles::hook) {x x}\nset ::syntax(veles::routes) 1\n";

/// A number counted from 1, counted from 0.
pub open spec fn from_one(n: int) -> int {
    if n > 0 {
        n - 1
    } else {
        0
    }
}

// ------------------------------------------------------------------- nagelfar
/// What precedes and follows the first separator.
pub open spec fn cut(s: Seq<char>, sep: Seq<char>) -> Option<(Seq<char>, Seq<char>)> {
    match find_text(s, 0, sep) {
        Some(k) => Some((s.subrange(0, k), s.subrange(k + sep.len(), s.len() as int))),
        None => None,
    }
}

pub open spec fn severity_of(s: Seq<char>) -> Option<Severity> {
    if s == "E"@ {
        Some(Severity::Error)
    } else if s == "W"@ {
        Some(Severity::Warning)
    } else if s == "N"@ {
        Some(Severity::Info)
    } else {
        None
    }
}

/// A line of nagelfar's output, `<file>: <line>: <S> <message>`.
pub open spec fn nagelfar_line(line: Seq<char>) -> Option<FindingView> {
    match cut(line, ": "@) {
        Some((_, after_file)) => match cut(after_file, ": "@) {
            Some((num, rest)) => match (
                number(trim(num), u32::MAX as int),
                cut(trim_start(rest), " "@),
            ) {
                (Some(n), Some((sev, message))) => match severity_of(sev) {
                    Some(severity) => Some(
                        FindingView {
                            line: from_one(n),
                            column: None,
                            severity,
                            message: trim(message),
                            code: None,
                            source: "nagelfar"@,
                        },
                    ),
                    None => None,
                },
                _ => None,
            },
            None => None,
        },
        None => None,
    }
}

/// The findings in the lines from `k` on, behind those in `acc`. A line that is no
/// finding continues the message of the one before, unless it is blank or says
/// which file is being checked.
pub open spec fn nagelfar_lines(all: Seq<Seq<char>>, k: int, acc: Seq<FindingView>) -> Seq<
    FindingView,
>
    decreases all.len() - k,
{
    if k < 0 || k >= all.len() {
        acc
    } else {
        nagelfar_lines(
            all,
            k + 1,
            match nagelfar_line(all[k]) {
                Some(f) => acc.push(f),
                None => {
                    let t = trim(all[k]);
                    if acc.len() > 0 && t.len() > 0 && !starts_with(t, "Checking file"@) {
                        acc.drop_last().push(
                            FindingView {
                                message: acc.last().message + seq!['\n'] + t,
                                ..acc.last()
                            },
                        )
                    } else {
                        acc
                    }
                },
            },
        )
    }
}

fn cut_at<'a>(s: &'a [char], sep: &str) -> (r: Option<(&'a [char], &'a [char])>)
    ensures
        match cut(s@, sep@) {
            Some(parts) => r is Some && (r->0).0@ == parts.0 && (r->0).1@ == parts.1,
            None => r is None,
        },
{
    let p = chars_of(sep);
    let total: usize = s.len();
    match find_from(s, 0, p.as_slice()) {
        Some(k) => Some(
            (
                vstd::slice::slice_subrange(s, 0, k),
                vstd::slice::slice_subrange(s, k + p.len(), total),
            ),
        ),
        None => None,
    }
}

fn minus_one(n: u64) -> (r: u32)
    requires
        n <= u32::MAX,
    ensures
        r == from_one(n as int),
{
    if n > 0 {
        (n - 1) as u32
    } else {
        0
    }
}

/// Reads one line of nagelfar's output.
pub fn parse_nagelfar_line(line: &str) -> (r: Option<Finding>)
    ensures
        match nagelfar_line(line@) {
            Some(f) => r is Some && r->0@ == f,
            None => r is None,
        },
{
    nagelfar_finding(chars_of(line).as_slice())
}

fn nagelfar_finding(line: &[char]) -> (r: Option<Finding>)
    ensures
        match nagelfar_line(line@) {
            Some(f) => r is Some && r->0@ == f,
            None => r is None,
        },
{
    let after_file = match cut_at(line, ": ") {
        Some((_, rest)) => rest,
        None => {
            return None;
        },
    };
    let (num, rest) = match cut_at(after_file, ": ") {
        Some(parts) => parts,
        None => {
            return None;
        },
    };
    let n = match parse_number(trimmed(num), u32::MAX as u64) {
        Some(n) => n,
        None => {
            return None;
        },
    };
    let (sev, message) = match cut_at(trimmed_start(rest), " ") {
        Some(parts) => parts,
        None => {
            return None;
        },
    };
    let severity = if chars_are(sev, "E") {
        Severity::Error
    } else if chars_are(sev, "W") {
        Severity::Warning
    } else if chars_are(sev, "N") {
        Severity::Info
    } else {
        return None;
    };
    Some(
        Finding {
            line: minus_one(n),
            column: None,
            severity,
            message: string_of(trimmed(message)),
            code: None,
            source: "nagelfar",
        },
    )
}

/// What nagelfar's output says; nothing if it could not run for want of a syntax
/// database.
pub open spec fn nagelfar_output(text: Seq<char>) -> Option<Seq<FindingView>> {
    if find_text(text, 0, "No syntax database"@) is Some {
        None
    } else {
        Some(nagelfar_lines(split_lines(text), 0, seq![]))
    }
}

/// Reads nagelfar's output. `None` means that it is misconfigured rather than
/// clean.
pub fn nagelfar_findings(text: &str) -> (r: Option<Vec<Finding>>)
    ensures
        match nagelfar_output(text@) {
            Some(all) => r is Some && finding_views(r->0@) == all,
            None => r is None,
        },
{
    if holds_text(text, "No syntax database") {
        return None;
    }
    let chars = chars_of(text);
    let all = lines(chars.as_slice());
    let ghost every = runs(all@);
    let ghost whole = nagelfar_lines(every, 0, seq![]);
    let mut out: Vec<Finding> = Vec::new();
    let mut k: usize = 0;
    assert(finding_views(out@) =~= seq![]);
    while k < all.len()
        invariant
            k <= all@.len(),
            every == runs(all@),
            whole == nagelfar_lines(every, k as int, finding_views(out@)),
        decreases all@.len() - k,
    {
        assert(every[k as int] == all@[k as int]@);
        let ghost was = finding_views(out@);
        match nagelfar_finding(all[k]) {
            Some(f) => {
                out.push(f);
                assert(finding_views(out@) =~= was.push(f@));
            },
            None => {
                let t = trimmed(all[k]);
                if t.len() > 0 && !begins(t, "Checking file") {
                    match out.pop() {
                        Some(last) => {
                            let mut last = last;
                            proof {
                                assert(was.last() == last@);
                                assert(finding_views(out@) =~= was.drop_last());
                            }
                            let ghost shorter = finding_views(out@);
                            last.message.push('\n');
                            last.message.append(string_of(t).as_str());
                            assert(last@.message =~= was.last().message + seq!['\n'] + t@);
                            out.push(last);
                            assert(finding_views(out@) =~= shorter.push(last@));
                        },
                        None => {
                            assert(was.len() == 0);
                        },
                    }
                }
            },
        }
        k = k + 1;
    }
    Some(out)
}

/// The arguments that name the syntax databases from `k` on.
pub open spec fn db_args(dbs: Seq<Seq<char>>, k: int) -> Seq<Seq<char>>
    decreases dbs.len() - k,
{
    if k < 0 || k >= dbs.len() {
        seq![]
    } else {
        seq!["-s"@, dbs[k]] + db_args(dbs, k + 1)
    }
}

/// The arguments of a nagelfar run: header format, then each syntax database.
pub fn nagelfar_args(dbs: &[String]) -> (out: Vec<String>)
    ensures
        texts(out@) == seq!["-H"@] + db_args(texts(dbs@), 0),
{
    let ghost all = texts(dbs@);
    let ghost whole = seq!["-H"@] + db_args(all, 0);
    let mut out: Vec<String> = Vec::new();
    out.push("-H".to_owned());
    let mut k: usize = 0;
    assert(texts(out@) =~= seq!["-H"@]);
    while k < dbs.len()
        invariant
            k <= dbs@.len(),
            all == texts(dbs@),
            whole == texts(out@) + db_args(all, k as int),
        decreases dbs@.len() - k,
    {
        let ghost was = texts(out@);
        out.push("-s".to_owned());
        out.push(dbs[k].clone());
        proof {
            let step = seq!["-s"@, all[k as int]];
            let rest = db_args(all, k + 1);
            assert(all[k as int] == dbs@[k as int]@);
            assert(texts(out@) =~= was + step);
            assert(was + (step + rest) =~= (was + step) + rest);
        }
        k = k + 1;
    }
    assert(texts(out@) + Seq::<Seq<char>>::empty() =~= texts(out@));
    out
}

// --------------------------------------------------------------------- tclint
/// The message and the violation code of a text that may end in `[code]`.
pub open spec fn coded(message: Seq<char>) -> (Seq<char>, Option<Seq<char>>) {
    let n = message.len() as int;
    match (rfind_char(message, n, '['), rfind_char(message, n, ']')) {
        (Some(a), Some(b)) => if a < b && b == n - 1 {
            (trim(message.subrange(0, a)), Some(message.subrange(a + 1, b)))
        } else {
            (message, None)
        },
        _ => (message, None),
    }
}

/// The finding in `<line>:<col>: <message>`.
pub open spec fn tclint_fields(s: Seq<char>) -> Option<FindingView> {
    match cut(s, ":"@) {
        Some((l, after_line)) => match cut(after_line, ":"@) {
            Some((c, rest)) => match (
                number(trim(l), u32::MAX as int),
                number(trim(c), u32::MAX as int),
            ) {
                (Some(n), Some(col)) => {
                    let (message, code) = coded(trim(rest));
                    Some(
                        FindingView {
                            line: from_one(n),
                            column: Some(from_one(col)),
                            severity: if starts_with(message, "syntax error"@) {
                                Severity::Error
                            } else {
                                Severity::Warning
                            },
                            message,
                            code,
                            source: "tclint"@,
                        },
                    )
                },
                _ => None,
            },
            None => None,
        },
        None => None,
    }
}

/// A line of tclint's output, `<file>:<line>:<col>: <message>`. The path itself may
/// contain colons: it ends at the first one that a line and a column follow.
pub open spec fn tclint_line(line: Seq<char>) -> Option<FindingView>
    decreases line.len(),
    via tclint_line_decreases
{
    match cut(line, ":"@) {
        Some((_, rest)) => match tclint_fields(rest) {
            Some(f) => Some(f),
            None => tclint_line(rest),
        },
        None => None,
    }
}

#[via_fn]
proof fn tclint_line_decreases(line: Seq<char>) {
    reveal_strlit(":");
    lemma_find_text(line, 0, ":"@);
}

/// The findings among the lines from `k` on.
pub open spec fn tclint_lines(all: Seq<Seq<char>>, k: int) -> Seq<FindingView>
    decreases all.len() - k,
{
    if k < 0 || k >= all.len() {
        seq![]
    } else {
        (match tclint_line(all[k]) {
            Some(f) => seq![f],
            None => seq![],
        }) + tclint_lines(all, k + 1)
    }
}

/// Reads one line of tclint's output.
pub fn parse_tclint_line(line: &str) -> (r: Option<Finding>)
    ensures
        match tclint_line(line@) {
            Some(f) => r is Some && r->0@ == f,
            None => r is None,
        },
{
    tclint_finding(chars_of(line).as_slice())
}

fn tclint_finding(line: &[char]) -> (r: Option<Finding>)
    ensures
        match tclint_line(line@) {
            Some(f) => r is Some && r->0@ == f,
            None => r is None,
        },
{
    let mut rest = line;
    proof {
        reveal_strlit(":");
    }
    loop
        invariant
            tclint_line(line@) == tclint_line(rest@),
            ":"@.len() == 1,
        decreases rest@.len(),
    {
        proof {
            lemma_find_text(rest@, 0, ":"@);
        }
        match cut_at(rest, ":") {
            Some((_, after)) => {
                if let Some(f) = tclint_read(after) {
                    return Some(f);
                }
                rest = after;
            },
            None => {
                return None;
            },
        }
    }
}

fn tclint_read(s: &[char]) -> (r: Option<Finding>)
    ensures
        match tclint_fields(s@) {
            Some(f) => r is Some && r->0@ == f,
            None => r is None,
        },
{
    let (l, after_line) = match cut_at(s, ":") {
        Some(parts) => parts,
        None => {
            return None;
        },
    };
    let (c, rest) = match cut_at(after_line, ":") {
        Some(parts) => parts,
        None => {
            return None;
        },
    };
    let (n, col) = match (
        parse_number(trimmed(l), u32::MAX as u64),
        parse_number(trimmed(c), u32::MAX as u64),
    ) {
        (Some(n), Some(col)) => (n, col),
        _ => {
            return None;
        },
    };
    let whole = trimmed(rest);
    let (message, code) = match (last_position_of(whole, '['), last_position_of(whole, ']')) {
        (Some(a), Some(b)) => if a < b && b == whole.len() - 1 {
            (
                trimmed(vstd::slice::slice_subrange(whole, 0, a)),
                Some(string_of(vstd::slice::slice_subrange(whole, a + 1, b))),
            )
        } else {
            (whole, None)
        },
        _ => (whole, None),
    };
    Some(
        Finding {
            line: minus_one(n),
            column: Some(minus_one(col)),
            severity: if begins(message, "syntax error") {
                Severity::Error
            } else {
                Severity::Warning
            },
            message: string_of(message),
            code,
            source: "tclint",
        },
    )
}

/// Reads tclint's output.
pub fn tclint_findings(text: &str) -> (out: Vec<Finding>)
    ensures
        finding_views(out@) == tclint_lines(split_lines(text@), 0),
{
    let chars = chars_of(text);
    let all = lines(chars.as_slice());
    let ghost every = runs(all@);
    let ghost whole = tclint_lines(every, 0);
    let mut out: Vec<Finding> = Vec::new();
    let mut k: usize = 0;
    assert(finding_views(out@) + whole =~= whole);
    while k < all.len()
        invariant
            k <= all@.len(),
            every == runs(all@),
            whole == finding_views(out@) + tclint_lines(every, k as int),
        decreases all@.len() - k,
    {
        assert(every[k as int] == all@[k as int]@);
        let ghost was = finding_views(out@);
        let ghost rest = tclint_lines(every, k + 1);
        let ghost mut step: Seq<FindingView> = seq![];
        if let Some(f) = tclint_finding(all[k]) {
            proof {
                step = seq![f@];
            }
            out.push(f);
        }
        proof {
            assert(finding_views(out@) =~= was + step);
            assert(was + (step + rest) =~= (was + step) + rest);
        }
        k = k + 1;
    }
    assert(finding_views(out@) + Seq::<FindingView>::empty() =~= finding_views(out@));
    out
}

// --------------------------------------------------------------------- tclfmt
/// The formatted text, from what tclfmt printed and whether it succeeded.
pub open spec fn formatted_text(success: bool, stdout: Seq<u8>) -> Option<Seq<char>> {
    match utf8_text(stdout) {
        Some(t) => if success && t.len() > 0 && find_text(t, 0, "syntax error:"@) is None {
            Some(t)
        } else {
            None
        },
        None => None,
    }
}

/// The formatted text, from what tclfmt printed and whether it succeeded. It prints
/// diagnostics in place of source when the file does not parse.
pub fn formatted(success: bool, stdout: &[u8]) -> (r: Option<String>)
    ensures
        text_option(r) == formatted_text(success, stdout@),
        text_option(r) == (match utf8_text(stdout@) {
            Some(t) => if success && t.len() > 0 && find_text(t, 0, "syntax error:"@) is None {
                Some(t)
            } else {
                None
            },
            None => None,
        }),
{
    if !success {
        return None;
    }
    match core::str::from_utf8(stdout) {
        Ok(s) => {
            proof {
                encode_utf8_decode_utf8(s@);
            }
            if s.is_empty() || holds_text(s, "syntax error:") {
                None
            } else {
                Some(s.to_owned())
            }
        },
        Err(_) => None,
    }
}

// ----------------------------------------------------------------------- laws
/// Number of findings among the lines from `k` on.
pub open spec fn finding_lines(all: Seq<Seq<char>>, k: int) -> nat
    decreases all.len() - k,
{
    if k < 0 || k >= all.len() {
        0
    } else {
        (if nagelfar_line(all[k]) is Some {
            1nat
        } else {
            0nat
        }) + finding_lines(all, k + 1)
    }
}

/// Continuation lines are folded into the finding before them: there are exactly as
/// many findings as lines that begin one.
pub proof fn no_finding_is_lost(all: Seq<Seq<char>>, k: int, acc: Seq<FindingView>)
    ensures
        nagelfar_lines(all, k, acc).len() == acc.len() + finding_lines(all, k),
    decreases all.len() - k,
{
    if 0 <= k < all.len() {
        let next = match nagelfar_line(all[k]) {
            Some(f) => acc.push(f),
            None => {
                let t = trim(all[k]);
                if acc.len() > 0 && t.len() > 0 && !starts_with(t, "Checking file"@) {
                    acc.drop_last().push(
                        FindingView {
                            message: acc.last().message + seq!['\n'] + t,
                            ..acc.last()
                        },
                    )
                } else {
                    acc
                }
            },
        };
        no_finding_is_lost(all, k + 1, next);
    }
}

} // verus!

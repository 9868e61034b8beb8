//! What comes from outside and goes there: settings, the output of other tools, URIs and
//! the framing of messages, said of what is written.
use vstd::prelude::*;

use crate::config::{
    config_from, config_merged, key_at, tool_from, tool_merged, variable, ConfigView, Member,
    Setting, ToolView, Variable,
};
use crate::external::{
    coded, cut, nagelfar_line, nagelfar_lines, tclint_fields, tclint_line, FindingView,
    Severity,
};
use crate::kb::{
    each_line, last_named, markdown_of, name_list, place_of, subcommand_at, CommandView,
    Subcommand, Target,
};
use crate::lookup::{colons_at, lemma_colons};
use crate::phrases::{
    a_number_is_its_digits, is_digits, trimming_takes_off_white_space, value, white,
};
use crate::text::{
    find_text, lemma_find_text, matches_at, rfind_char, rfind_text, starts_with, trim, trim_end,
    trim_start,
};
use crate::transport::{header_length, header_step, is_length_header, StepView};
use crate::uri::{decoded, encoded, is_skipped_dir, is_tcl_name, path_of, scan_enters, scheme};

verus! {

// ------------------------------------------------------------------- settings
/// Whether a setting is a group whose first member of that name has this value.
pub open spec fn has_member(s: Setting, key: Seq<char>, v: Setting) -> bool {
    s matches Setting::Group(members) && exists|i: int| #[trigger] is_member_at(members@, key, v, i)
}

pub open spec fn is_member_at(members: Seq<Member>, key: Seq<char>, v: Setting, i: int) -> bool {
    &&& 0 <= i < members.len()
    &&& members[i].key@ == key
    &&& members[i].value == v
    &&& forall|j: int| 0 <= j < i ==> (#[trigger] members[j]).key@ != key
}

proof fn lemma_key_at(members: Seq<Member>, i: int, key: Seq<char>)
    requires
        0 <= i <= members.len(),
    ensures
        match key_at(members, i, key) {
            Some(k) => i <= k < members.len() && members[k].key@ == key && forall|j: int|
                i <= j < k ==> (#[trigger] members[j]).key@ != key,
            None => forall|j: int| i <= j < members.len() ==> (#[trigger] members[j]).key@ != key,
        },
    decreases members.len() - i,
{
    if i < members.len() && members[i].key@ != key {
        lemma_key_at(members, i + 1, key);
    }
}

/// A member of a group is the first of its name, and what is no group has none.
pub proof fn a_member_is_the_first_of_its_name(s: Setting, key: Seq<char>, v: Setting)
    ensures
        s.member(key) == Some(v) <==> has_member(s, key, v),
{
    if let Setting::Group(members) = s {
        lemma_key_at(members@, 0, key);
        if let Some(k) = key_at(members@, 0, key) {
            assert(is_member_at(members@, key, members@[k].value, k));
        }
    }
}

/// A setting for a tool: a flag switches it and leaves its path, a text is its path and
/// leaves the switch, and a group may set both by `path` and `enable`. Anything else leaves
/// the tool as it is.
pub proof fn a_tool_is_set_by_flag_text_or_group(tool: ToolView, s: Setting)
    ensures
        tool_merged(tool, None) == tool,
        s matches Setting::Flag(on) ==> tool_merged(tool, Some(s)).enabled == on && tool_merged(
            tool,
            Some(s),
        ).path == tool.path,
        s matches Setting::Text(p) ==> tool_merged(tool, Some(s)).path == p@ && tool_merged(
            tool,
            Some(s),
        ).enabled == tool.enabled,
        s is Group ==> {
            &&& s.member("path"@) matches Some(Setting::Text(p)) ==> tool_merged(
                tool,
                Some(s),
            ).path == p@
            &&& !(s.member("path"@) matches Some(Setting::Text(_))) ==> tool_merged(
                tool,
                Some(s),
            ).path == tool.path
            &&& s.member("enable"@) matches Some(Setting::Flag(on)) ==> tool_merged(
                tool,
                Some(s),
            ).enabled == on
            &&& !(s.member("enable"@) matches Some(Setting::Flag(_))) ==> tool_merged(
                tool,
                Some(s),
            ).enabled == tool.enabled
        },
{
}

/// Settings are read from the `tclLsp` section, or from the whole where there is none: the
/// version by its first character, each tool by its own member, the syntax database by a
/// member of nagelfar's, and the switches under `diagnostics` over all that.
pub proof fn settings_are_read_by_their_names(c: ConfigView, settings: Setting, root: Setting)
    requires
        settings.member("tclLsp"@) is Some ==> settings.member("tclLsp"@) == Some(root),
        settings.member("tclLsp"@) is None ==> root == settings,
    ensures
        ({
            let m = config_merged(c, settings);
            let nagelfar = tool_merged(c.nagelfar, root.member("nagelfar"@));
            let tclint = tool_merged(c.tclint, root.member("tclint"@));
            &&& root.member("tclVersion"@) matches Some(Setting::Text(v)) ==> (m.tcl_version
                == Target::Tcl90 <==> v@.len() > 0 && v@[0] == '9')
            &&& !(root.member("tclVersion"@) matches Some(Setting::Text(_))) ==> m.tcl_version
                == c.tcl_version
            &&& m.tclfmt == tool_merged(c.tclfmt, root.member("tclfmt"@))
            &&& m.nagelfar.path == nagelfar.path
            &&& m.tclint.path == tclint.path
            &&& root.member("diagnostics"@) is None ==> m.nagelfar == nagelfar && m.tclint == tclint
            &&& root.member("diagnostics"@) matches Some(d) ==> {
                &&& d.member("nagelfar"@) matches Some(Setting::Flag(on)) ==> m.nagelfar.enabled
                    == on
                &&& !(d.member("nagelfar"@) matches Some(Setting::Flag(_))) ==> m.nagelfar.enabled
                    == nagelfar.enabled
                &&& d.member("tclint"@) matches Some(Setting::Flag(on)) ==> m.tclint.enabled == on
                &&& !(d.member("tclint"@) matches Some(Setting::Flag(_))) ==> m.tclint.enabled
                    == tclint.enabled
            }
            &&& root.member("nagelfar"@) is None ==> m.nagelfar_db == c.nagelfar_db
            &&& root.member("nagelfar"@) matches Some(n) ==> {
                &&& n.member("syntaxDb"@) matches Some(Setting::Text(db)) ==> m.nagelfar_db == Some(
                    db@,
                )
                &&& !(n.member("syntaxDb"@) matches Some(Setting::Text(_))) ==> m.nagelfar_db
                    == c.nagelfar_db
            }
        }),
{
}

/// Whether the first variable of that name has this value.
pub open spec fn is_set(vars: Seq<Variable>, name: Seq<char>, v: Seq<char>) -> bool {
    exists|i: int| #[trigger] is_set_at(vars, name, v, i)
}

pub open spec fn is_set_at(vars: Seq<Variable>, name: Seq<char>, v: Seq<char>, i: int) -> bool {
    &&& 0 <= i < vars.len()
    &&& vars[i].name@ == name
    &&& vars[i].value@ == v
    &&& forall|j: int| 0 <= j < i ==> (#[trigger] vars[j]).name@ != name
}

proof fn lemma_variable(vars: Seq<Variable>, i: int, name: Seq<char>, v: Seq<char>)
    requires
        0 <= i <= vars.len(),
        forall|j: int| 0 <= j < i ==> (#[trigger] vars[j]).name@ != name,
    ensures
        variable(vars, i, name) == Some(v) <==> is_set(vars, name, v),
    decreases vars.len() - i,
{
    if i < vars.len() {
        if vars[i].name@ != name {
            lemma_variable(vars, i + 1, name, v);
        } else {
            assert(is_set_at(vars, name, vars[i].value@, i));
        }
    }
}

/// A variable of the environment has its first value.
pub proof fn a_variable_has_its_first_value(vars: Seq<Variable>, name: Seq<char>, v: Seq<char>)
    ensures
        variable(vars, 0, name) == Some(v) <==> is_set(vars, name, v),
{
    lemma_variable(vars, 0, name, v);
}

/// The environment sets the path of a tool by its own variable, with a bare name to fall
/// back on, and switches it off by `0`, `false` or `off` in the variable with `_ENABLE`
/// behind the name; anything else, and nothing, leaves it on.
pub proof fn the_environment_sets_each_tool(
    vars: Seq<Variable>,
    var: Seq<char>,
    fallback: Seq<char>,
)
    ensures
        ({
            let t = tool_from(vars, var, fallback);
            let switch = variable(vars, 0, var + "_ENABLE"@);
            &&& variable(vars, 0, var) matches Some(p) ==> t.path == p
            &&& variable(vars, 0, var) is None ==> t.path == fallback
            &&& t.enabled <==> switch != Some("0"@) && switch != Some("false"@) && switch != Some(
                "off"@,
            )
        }),
{
}

/// Each part of the configuration has its variable.
pub proof fn each_setting_has_its_variable(vars: Seq<Variable>)
    ensures
        ({
            let c = config_from(vars);
            let version = variable(vars, 0, "TCL_LSP_TCL_VERSION"@);
            &&& c.tcl_version == Target::Tcl90 <==> version is Some && version->0.len() > 0
                && version->0[0] == '9'
            &&& c.nagelfar == tool_from(vars, "TCL_LSP_NAGELFAR"@, "nagelfar"@)
            &&& c.nagelfar_db == variable(vars, 0, "TCL_LSP_NAGELFAR_DB"@)
            &&& c.tclint == tool_from(vars, "TCL_LSP_TCLINT"@, "tclint"@)
            &&& c.tclfmt == tool_from(vars, "TCL_LSP_TCLFMT"@, "tclfmt"@)
        }),
{
}

// ---------------------------------------------------------------- other tools
proof fn lemma_cut(s: Seq<char>, k: int, sep: Seq<char>)
    requires
        0 <= k,
        sep.len() > 0,
        k + sep.len() <= s.len(),
        s.subrange(k, k + sep.len()) == sep,
        forall|m: int| 0 <= m < k ==> #[trigger] s[m] != sep[0],
    ensures
        cut(s, sep) == Some((s.subrange(0, k), s.subrange(k + sep.len(), s.len() as int))),
{
    lemma_cut_from(s, 0, k, sep);
}

proof fn lemma_cut_from(s: Seq<char>, i: int, k: int, sep: Seq<char>)
    requires
        0 <= i <= k,
        sep.len() > 0,
        k + sep.len() <= s.len(),
        s.subrange(k, k + sep.len()) == sep,
        forall|m: int| 0 <= m < k ==> #[trigger] s[m] != sep[0],
    ensures
        find_text(s, i, sep) == Some(k),
    decreases k - i,
{
    if i < k {
        assert(s[i] != sep[0]);
        assert(s.subrange(i, i + sep.len())[0] == s[i]);
        lemma_cut_from(s, i + 1, k, sep);
    }
}

/// Whether a text is trimmed: it has something, and no white space on either side.
pub open spec fn is_trimmed(s: Seq<char>) -> bool {
    s.len() > 0 && !white(s[0]) && !white(s.last())
}

proof fn lemma_trimmed(s: Seq<char>)
    requires
        is_trimmed(s),
    ensures
        trim(s) == s,
        trim_start(s) == s,
        trim_end(s) == s,
{
    trimming_takes_off_white_space(s, 0, s.len() as int);
    assert(s.subrange(0, s.len() as int) =~= s);
}

proof fn lemma_digits_trimmed(s: Seq<char>)
    requires
        is_digits(s),
    ensures
        is_trimmed(s),
        forall|k: int| 0 <= k < s.len() ==> #[trigger] s[k] != ':',
{
    assert(48 <= s[0] as int <= 57);
    assert(48 <= s.last() as int <= 57);
    assert(':' as int == 58);
}

/// A line of nagelfar's, `file: line: severity message`, is a finding on that line, counted
/// from 0, with that message: `E` is an error, `W` a warning and `N` information, and
/// another letter makes no finding.
#[verifier::spinoff_prover]
#[verifier::rlimit(40)]
pub proof fn a_nagelfar_line_is_a_finding(
    file: Seq<char>,
    digits: Seq<char>,
    letter: char,
    message: Seq<char>,
)
    requires
        forall|k: int| 0 <= k < file.len() ==> #[trigger] file[k] != ':',
        is_digits(digits),
        value(digits) <= u32::MAX,
        letter != ' ',
        !white(letter),
        is_trimmed(message),
    ensures
        ({
            let found = nagelfar_line(
                file + seq![':', ' '] + digits + seq![':', ' ', letter, ' '] + message,
            );
            let n = value(digits);
            &&& letter != 'E' && letter != 'W' && letter != 'N' ==> found is None
            &&& letter == 'E' || letter == 'W' || letter == 'N' ==> {
                &&& found is Some
                &&& n > 0 ==> found->0.line == n - 1
                &&& n == 0 ==> found->0.line == 0
                &&& found->0.column is None
                &&& letter == 'E' ==> found->0.severity == Severity::Error
                &&& letter == 'W' ==> found->0.severity == Severity::Warning
                &&& letter == 'N' ==> found->0.severity == Severity::Info
                &&& found->0.message == message
                &&& found->0.code is None
                &&& found->0.source == "nagelfar"@
            }
        }),
{
    reveal_strlit(": ");
    reveal_strlit(" ");
    reveal_strlit("E");
    reveal_strlit("W");
    reveal_strlit("N");
    let sep = seq![':', ' '];
    assert(": "@ =~= sep);
    assert(" "@ =~= seq![' ']);
    assert("E"@ =~= seq!['E'] && "W"@ =~= seq!['W'] && "N"@ =~= seq!['N']);
    assert(' ' as u32 == 32);
    let tail = seq![letter, ' '] + message;
    let after_file = digits + sep + tail;
    let line = file + seq![':', ' '] + digits + seq![':', ' ', letter, ' '] + message;
    assert(line =~= file + sep + after_file);
    assert(line.subrange(file.len() as int, (file.len() + 2) as int) =~= sep);
    assert forall|m: int| 0 <= m < file.len() implies #[trigger] line[m] != sep[0] by {
        assert(line[m] == file[m]);
    }
    lemma_cut(line, file.len() as int, sep);
    assert(line.subrange((file.len() + 2) as int, line.len() as int) =~= after_file);
    lemma_digits_trimmed(digits);
    assert(after_file.subrange(digits.len() as int, (digits.len() + 2) as int) =~= sep);
    assert forall|m: int| 0 <= m < digits.len() implies #[trigger] after_file[m] != sep[0] by {
        assert(after_file[m] == digits[m]);
    }
    lemma_cut(after_file, digits.len() as int, sep);
    assert(after_file.subrange(0, digits.len() as int) =~= digits);
    assert(after_file.subrange((digits.len() + 2) as int, after_file.len() as int) =~= tail);
    lemma_trimmed(digits);
    a_number_is_its_digits(digits, u32::MAX as int);
    assert(tail[0] == letter);
    assert(tail.last() == message.last());
    lemma_trimmed(tail);
    assert(tail.subrange(1, 2) =~= seq![' ']);
    assert forall|m: int| 0 <= m < 1 implies #[trigger] tail[m] != seq![' '][0] by {}
    lemma_cut(tail, 1, seq![' ']);
    assert(tail.subrange(0, 1) =~= seq![letter]);
    assert(tail.subrange(2, tail.len() as int) =~= message);
    lemma_trimmed(message);
    assert(seq![letter][0] == letter);
    assert(seq!['E'][0] == 'E' && seq!['W'][0] == 'W' && seq!['N'][0] == 'N');
}

/// A line of nagelfar's that is no finding goes on with the message of the one before, on a
/// line of its own, unless it is blank or says which file is being checked; with none
/// before it is dropped. A line that is one comes behind those before.
pub proof fn other_lines_continue_a_message(
    all: Seq<Seq<char>>,
    k: int,
    acc: Seq<FindingView>,
)
    requires
        0 <= k < all.len(),
    ensures
        nagelfar_line(all[k]) matches Some(f) ==> nagelfar_lines(all, k, acc) == nagelfar_lines(
            all,
            k + 1,
            acc.push(f),
        ),
        nagelfar_line(all[k]) is None && (acc.len() == 0 || trim(all[k]).len() == 0 || starts_with(
            trim(all[k]),
            "Checking file"@,
        )) ==> nagelfar_lines(all, k, acc) == nagelfar_lines(all, k + 1, acc),
        nagelfar_line(all[k]) is None && acc.len() > 0 && trim(all[k]).len() > 0 && !starts_with(
            trim(all[k]),
            "Checking file"@,
        ) ==> nagelfar_lines(all, k, acc) == nagelfar_lines(
            all,
            k + 1,
            acc.update(
                acc.len() - 1,
                FindingView {
                    message: acc.last().message + seq!['\n'] + trim(all[k]),
                    ..acc.last()
                },
            ),
        ),
        nagelfar_lines(all, all.len() as int, acc) == acc,
{
    if acc.len() > 0 {
        let f = FindingView {
            message: acc.last().message + seq!['\n'] + trim(all[k]),
            ..acc.last()
        };
        assert(acc.drop_last().push(f) =~= acc.update(acc.len() - 1, f));
    }
}

proof fn lemma_last_char(s: Seq<char>, n: int, k: int, c: char)
    requires
        0 <= k < n <= s.len(),
        s[k] == c,
        forall|m: int| k < m < n ==> #[trigger] s[m] != c,
    ensures
        rfind_char(s, n, c) == Some(k),
    decreases n,
{
    if n - 1 > k {
        assert(s[n - 1] != c);
        lemma_last_char(s, n - 1, k, c);
    }
}

/// A message that ends in a code in brackets is what is before them, and the code what is
/// between; another is all message.
pub proof fn a_code_in_brackets_ends_a_message(text: Seq<char>, code: Seq<char>)
    requires
        forall|k: int| 0 <= k < code.len() ==> #[trigger] code[k] != '[' && code[k] != ']',
    ensures
        coded(text + seq!['['] + code + seq![']']) == (trim(text), Some(code)),
        text.len() > 0 && text.last() != ']' ==> coded(text) == (text, None::<Seq<char>>),
{
    let m = text + seq!['['] + code + seq![']'];
    let n = m.len() as int;
    let a = text.len() as int;
    assert(m[a] == '[');
    assert forall|k: int| a < k < n implies #[trigger] m[k] != '[' by {
        if k < n - 1 {
            assert(m[k] == code[k - a - 1]);
        } else {
            assert(m[k] == ']');
        }
    }
    lemma_last_char(m, n, a, '[');
    assert(m[n - 1] == ']');
    lemma_last_char(m, n, n - 1, ']');
    assert(m.subrange(0, a) =~= text);
    assert(m.subrange(a + 1, n - 1) =~= code);
    if text.len() > 0 && text.last() != ']' {
        lemma_rfind_bound(text, text.len() as int, ']');
    }
}

proof fn lemma_rfind_bound(s: Seq<char>, n: int, c: char)
    requires
        n <= s.len(),
    ensures
        rfind_char(s, n, c) matches Some(k) ==> 0 <= k < n && s[k] == c,
    decreases n,
{
    if n > 0 && s[n - 1] != c {
        lemma_rfind_bound(s, n - 1, c);
    }
}

/// A line of tclint's, `file:line:column: message`, is a finding at that line and column,
/// both counted from 0, with the message and code that it ends in: an error where the
/// message begins with `syntax error`, else a warning.
#[verifier::spinoff_prover]
#[verifier::rlimit(40)]
pub proof fn a_tclint_line_is_a_finding(
    file: Seq<char>,
    line: Seq<char>,
    column: Seq<char>,
    message: Seq<char>,
)
    requires
        forall|k: int| 0 <= k < file.len() ==> #[trigger] file[k] != ':',
        is_digits(line),
        is_digits(column),
        value(line) <= u32::MAX,
        value(column) <= u32::MAX,
        is_trimmed(message),
    ensures
        ({
            let found = tclint_line(
                file + seq![':'] + line + seq![':'] + column + seq![':'] + message,
            );
            &&& found is Some
            &&& value(line) > 0 ==> found->0.line == value(line) - 1
            &&& value(column) > 0 ==> found->0.column == Some(value(column) - 1)
            &&& value(line) == 0 ==> found->0.line == 0
            &&& value(column) == 0 ==> found->0.column == Some(0int)
            &&& (found->0.message, found->0.code) == coded(message)
            &&& found->0.severity == Severity::Error <==> matches_at(
                coded(message).0,
                0,
                "syntax error"@,
            )
            &&& found->0.severity == Severity::Error || found->0.severity == Severity::Warning
            &&& found->0.source == "tclint"@
        }),
{
    reveal_strlit(":");
    let sep = seq![':'];
    assert(":"@ =~= sep);
    let rest = column + sep + message;
    let fields = line + sep + rest;
    let all = file + seq![':'] + line + seq![':'] + column + seq![':'] + message;
    assert(all =~= file + sep + fields);
    assert(all.subrange(file.len() as int, (file.len() + 1) as int) =~= sep);
    assert forall|m: int| 0 <= m < file.len() implies #[trigger] all[m] != sep[0] by {
        assert(all[m] == file[m]);
    }
    lemma_cut(all, file.len() as int, sep);
    assert(all.subrange((file.len() + 1) as int, all.len() as int) =~= fields);
    lemma_digits_trimmed(line);
    lemma_digits_trimmed(column);
    assert(fields.subrange(line.len() as int, (line.len() + 1) as int) =~= sep);
    assert forall|m: int| 0 <= m < line.len() implies #[trigger] fields[m] != sep[0] by {
        assert(fields[m] == line[m]);
    }
    lemma_cut(fields, line.len() as int, sep);
    assert(fields.subrange(0, line.len() as int) =~= line);
    assert(fields.subrange((line.len() + 1) as int, fields.len() as int) =~= rest);
    assert(rest.subrange(column.len() as int, (column.len() + 1) as int) =~= sep);
    assert forall|m: int| 0 <= m < column.len() implies #[trigger] rest[m] != sep[0] by {
        assert(rest[m] == column[m]);
    }
    lemma_cut(rest, column.len() as int, sep);
    assert(rest.subrange(0, column.len() as int) =~= column);
    assert(rest.subrange((column.len() + 1) as int, rest.len() as int) =~= message);
    lemma_trimmed(line);
    lemma_trimmed(column);
    lemma_trimmed(message);
    a_number_is_its_digits(line, u32::MAX as int);
    a_number_is_its_digits(column, u32::MAX as int);
}

// ----------------------------------------------------------------------- URIs
/// The hexadecimal digit, in upper case, of a value below 16.
pub open spec fn upper_hex(n: int) -> int {
    if n < 10 {
        48 + n
    } else {
        65 + (n - 10)
    }
}

/// Whether a byte stands for itself in a URI: an ASCII letter or digit, or one of
/// `/ - _ . ~`.
pub open spec fn stands_for_itself(c: u8) -> bool {
    48 <= c <= 57 || 65 <= c <= 90 || 97 <= c <= 122 || c == 47 || c == 45 || c == 95 || c == 46
        || c == 126
}

/// In a URI each byte of a path stands for itself or is a percent sign with its two
/// hexadecimal digits.
pub proof fn a_path_is_percent_encoded(b: Seq<u8>, i: int)
    requires
        0 <= i < b.len(),
    ensures
        stands_for_itself(b[i]) ==> encoded(b, i) == seq![b[i]] + encoded(b, i + 1),
        !stands_for_itself(b[i]) ==> encoded(b, i) == seq![
            37u8,
            upper_hex(b[i] as int / 16) as u8,
            upper_hex(b[i] as int % 16) as u8,
        ] + encoded(b, i + 1),
        encoded(b, b.len() as int).len() == 0,
{
}

/// The value of a hexadecimal digit in either case.
pub open spec fn hex_of(c: u8) -> Option<int> {
    if 48 <= c <= 57 {
        Some(c - 48)
    } else if 65 <= c <= 70 {
        Some(c - 65 + 10)
    } else if 97 <= c <= 102 {
        Some(c - 97 + 10)
    } else {
        None
    }
}

/// A percent sign takes the two digits behind it, in either case; without them the URI names
/// no path. Any other byte stands for itself.
pub proof fn a_uri_is_percent_decoded(b: Seq<u8>, i: int)
    requires
        0 <= i < b.len(),
    ensures
        b[i] != 37 ==> match decoded(b, i + 1) {
            Some(rest) => decoded(b, i) == Some(seq![b[i]] + rest),
            None => decoded(b, i) is None,
        },
        b[i] == 37 && (i + 2 >= b.len() || hex_of(b[i + 1]) is None || hex_of(b[i + 2]) is None)
            ==> decoded(b, i) is None,
        b[i] == 37 && i + 2 < b.len() ==> (hex_of(b[i + 1]) matches Some(hi) ==> (hex_of(b[i + 2])
            matches Some(lo) ==> match decoded(b, i + 3) {
            Some(rest) => decoded(b, i) == Some(seq![(hi * 16 + lo) as u8] + rest),
            None => decoded(b, i) is None,
        })),
{
}

/// Only a URI that begins with `file://` names a path.
pub proof fn only_file_uris_name_paths(uri: Seq<u8>)
    ensures
        path_of(uri) is Some ==> uri.len() >= 7 && uri[0] == 102 && uri[1] == 105 && uri[2] == 108
            && uri[3] == 101 && uri[4] == 58 && uri[5] == 47 && uri[6] == 47,
{
    if uri.len() >= 7 && uri.subrange(0, 7) == scheme() {
        assert(uri[0] == uri.subrange(0, 7)[0]);
        assert(uri[1] == uri.subrange(0, 7)[1]);
        assert(uri[2] == uri.subrange(0, 7)[2]);
        assert(uri[3] == uri.subrange(0, 7)[3]);
        assert(uri[4] == uri.subrange(0, 7)[4]);
        assert(uri[5] == uri.subrange(0, 7)[5]);
        assert(uri[6] == uri.subrange(0, 7)[6]);
    }
}

proof fn lemma_last_dot(s: Seq<char>, n: int, k: int)
    requires
        0 <= k <= n <= s.len(),
        k < s.len(),
        s[k] == '.',
        forall|m: int| k < m < s.len() ==> #[trigger] s[m] != '.',
    ensures
        rfind_text(s, n, seq!['.']) == Some(k),
    decreases n,
{
    if n > k {
        if n < s.len() {
            assert(s[n] != '.');
            assert(s.subrange(n, n + 1)[0] == s[n]);
        }
        lemma_last_dot(s, n - 1, k);
    } else {
        assert(s.subrange(k, k + 1) =~= seq!['.']);
    }
}

/// A file is one of Tcl by what is behind the last dot of its name, with something before
/// it: `tcl`, `tm`, `test` or `itcl`, and nothing else.
pub proof fn a_tcl_file_is_known_by_its_extension(stem: Seq<char>, ext: Seq<char>)
    requires
        stem.len() > 0,
        forall|k: int| 0 <= k < ext.len() ==> #[trigger] ext[k] != '.',
        ext.len() > 0,
    ensures
        is_tcl_name(stem + seq!['.'] + ext) <==> ext == "tcl"@ || ext == "tm"@ || ext == "test"@
            || ext == "itcl"@,
{
    let name = stem + seq!['.'] + ext;
    let k = stem.len() as int;
    assert(name[k] == '.');
    assert forall|m: int| k < m < name.len() implies #[trigger] name[m] != '.' by {
        assert(name[m] == ext[m - k - 1]);
    }
    lemma_last_dot(name, name.len() as int, k);
    reveal_strlit("..");
    assert(name.last() == ext.last());
    assert(ext[ext.len() - 1] != '.');
    assert(".."@.last() == '.');
    assert(name.subrange(k + 1, name.len() as int) =~= ext);
}

/// A directory is skipped if it is hidden or one that tools fill.
pub proof fn hidden_and_tool_directories_are_skipped(name: Seq<char>)
    ensures
        is_skipped_dir(name) <==> (name.len() > 1 && name[0] == '.') || name == "target"@ || name
            == "node_modules"@ || name == "result"@,
{
    reveal_strlit(".");
    reveal_strlit(".git");
    reveal_strlit(".direnv");
    assert("."@.len() == 1 && "."@[0] == '.');
    assert(".git"@.len() == 4 && ".git"@[0] == '.');
    assert(".direnv"@.len() == 7 && ".direnv"@[0] == '.');
    if name.len() == 1 && name[0] == '.' {
        assert(name =~= "."@);
    }
    reveal_strlit("target");
    reveal_strlit("node_modules");
    reveal_strlit("result");
}

/// A scan goes 24 levels down, and stops going on with more than 20,000 files.
pub proof fn a_scan_is_bounded(depth: int, found: int)
    ensures
        scan_enters(depth, found) <==> depth <= 24 && found <= 20000,
{
}

// -------------------------------------------------------------------- framing
/// Whether a text is the name of the length header with its colon, in any case.
pub open spec fn is_length_name(s: Seq<char>) -> bool {
    let name = seq!['c', 'o', 'n', 't', 'e', 'n', 't', '-', 'l', 'e', 'n', 'g', 't', 'h', ':'];
    s.len() == 15 && forall|i: int|
        0 <= i < 15 ==> {
            ||| #[trigger] s[i] == name[i]
            ||| 97 <= name[i] as int <= 122 && s[i] as int == name[i] as int - 32
        }
}

/// A length header, in any case, with white space around its digits and at the end of the
/// line, gives the length that the digits are.
#[verifier::spinoff_prover]
#[verifier::rlimit(40)]
pub proof fn a_length_header_gives_its_number(
    name: Seq<char>,
    before: Seq<char>,
    digits: Seq<char>,
    after: Seq<char>,
)
    requires
        is_length_name(name),
        is_digits(digits),
        value(digits) <= usize::MAX,
        forall|k: int| 0 <= k < before.len() ==> white(#[trigger] before[k]),
        forall|k: int| 0 <= k < after.len() ==> white(#[trigger] after[k]),
    ensures
        is_length_header(name + before + digits + after),
        header_length(name + before + digits + after) == Some(value(digits)),
{
    reveal_strlit("content-length:");
    let p = seq!['c', 'o', 'n', 't', 'e', 'n', 't', '-', 'l', 'e', 'n', 'g', 't', 'h', ':'];
    assert("content-length:"@ =~= p);
    let line = name + before + digits + after;
    let body = before + digits;
    let cut_line = name + body;
    lemma_digits_trimmed(digits);
    assert(!white(name[0])) by {
        assert(name[0] == p[0] || name[0] as int == p[0] as int - 32);
        assert('c' as int == 99);
    }
    assert forall|k: int| cut_line.len() <= k < line.len() implies white(#[trigger] line[k]) by {
        assert(line[k] == after[k - cut_line.len()]);
    }
    assert(line[cut_line.len() - 1] == digits.last());
    assert(line[0] == name[0]);
    trimming_takes_off_white_space(line, 0, cut_line.len() as int);
    assert(line.subrange(0, cut_line.len() as int) =~= cut_line);
    assert forall|i: int| 0 <= i < p.len() implies {
        ||| #[trigger] p[i] == cut_line[i]
        ||| 'a' <= p[i] <= 'z' && cut_line[i] as u32 + 32 == p[i] as u32
    } by {
        assert(cut_line[i] == name[i]);
        assert(name[i] == p[i] || (97 <= p[i] as int <= 122 && name[i] as int == p[i] as int - 32));
        assert('a' as int == 97 && 'z' as int == 122);
    }
    assert(cut_line.subrange(15, cut_line.len() as int) =~= body);
    assert forall|k: int| 0 <= k < before.len() implies white(#[trigger] body[k]) by {
        assert(body[k] == before[k]);
    }
    assert(body[before.len() as int] == digits[0]);
    assert(body.last() == digits.last());
    trimming_takes_off_white_space(body, before.len() as int, body.len() as int);
    assert(body.subrange(before.len() as int, body.len() as int) =~= digits);
    a_number_is_its_digits(digits, usize::MAX as int);
}

/// The reader looks for a header through four mebibytes and no further. A blank line ends a
/// block of headers that gave a length, however far it is; a line that is neither changes
/// nothing but how far the reader is.
pub proof fn the_reader_looks_so_far_and_no_further(
    length: Option<int>,
    scanned: int,
    line: Seq<char>,
    n: int,
)
    requires
        !is_length_header(line),
    ensures
        trim_end(line).len() == 0 && length is Some ==> header_step(length, scanned, line, n) == (
        StepView::Body { size: length->0 }),
        !(trim_end(line).len() == 0 && length is Some) && scanned + n > 4 * 1024 * 1024
            ==> header_step(length, scanned, line, n) == StepView::Lost,
        !(trim_end(line).len() == 0 && length is Some) && scanned + n <= 4 * 1024 * 1024
            ==> header_step(length, scanned, line, n) == (StepView::More {
            length,
            scanned: scanned + n,
        }),
{
}

/// A length header sets the length, and one without a number leaves it.
pub proof fn a_length_header_sets_the_length(
    length: Option<int>,
    scanned: int,
    line: Seq<char>,
    n: int,
)
    requires
        is_length_header(line),
        scanned + n <= 4 * 1024 * 1024,
    ensures
        header_length(line) matches Some(v) ==> header_step(length, scanned, line, n) == (
        StepView::More { length: Some(v), scanned: scanned + n }),
        header_length(line) is None ==> header_step(length, scanned, line, n) == (StepView::More {
            length,
            scanned: scanned + n,
        }),
{
}

// ------------------------------------------------------------------- builtins
/// The place of a builtin is the last of its name; two colons in front make no difference.
pub proof fn a_builtin_is_found_by_its_name(names: Seq<Seq<char>>, name: Seq<char>, k: int)
    requires
        0 <= k < names.len(),
        forall|j: int| k < j < names.len() ==> #[trigger] names[j] != names[k],
        name == names[k] && !colons_at(name, 0) || name == seq![':', ':'] + names[k],
    ensures
        place_of(names, name) == Some(k),
{
    lemma_colons(name, 0);
    if name == seq![':', ':'] + names[k] {
        assert(name[0] == ':' && name[1] == ':');
        assert(name.subrange(2, name.len() as int) =~= names[k]);
    }
    lemma_last_named(names, names.len() as int, k);
}

proof fn lemma_last_named(names: Seq<Seq<char>>, n: int, k: int)
    requires
        0 <= k < n <= names.len(),
        forall|j: int| k < j < names.len() ==> #[trigger] names[j] != names[k],
    ensures
        last_named(names, n, names[k]) == Some(k),
    decreases n,
{
    if n - 1 > k {
        assert(names[n - 1] != names[k]);
        lemma_last_named(names, n - 1, k);
    }
}

/// A subcommand is the first of its name.
pub proof fn a_subcommand_is_found_by_its_name(subs: Seq<Subcommand>, i: int, name: Seq<char>)
    requires
        0 <= i <= subs.len(),
    ensures
        match subcommand_at(subs, i, name) {
            Some(k) => i <= k < subs.len() && subs[k].name@ == name && forall|j: int|
                i <= j < k ==> (#[trigger] subs[j]).name@ != name,
            None => forall|j: int| i <= j < subs.len() ==> (#[trigger] subs[j]).name@ != name,
        },
    decreases subs.len() - i,
{
    if i < subs.len() && subs[i].name@ != name {
        a_subcommand_is_found_by_its_name(subs, i + 1, name);
    }
}

/// The lines of a synopsis, each with a newline behind it.
pub proof fn each_line_ends_with_a_newline(lines: Seq<Seq<char>>, k: int)
    requires
        0 <= k < lines.len(),
    ensures
        each_line(lines, k) == lines[k] + seq!['\n'] + each_line(lines, k + 1),
        each_line(lines, lines.len() as int).len() == 0,
{
}

/// A builtin is shown with its synopsis in a block of code, or its name if it has none, then
/// its summary in bold and its description, as far as there are any.
pub proof fn a_builtin_is_shown_as_code(c: CommandView)
    requires
        c.subcommands.len() == 0,
    ensures
        ({
            let fence = seq!['`', '`', '`'];
            let code = if c.synopsis.len() > 0 {
                each_line(c.synopsis, 0)
            } else {
                c.name + seq!['\n']
            };
            let top = fence + seq!['t', 'c', 'l', '\n'] + code + fence + seq!['\n'];
            let bold = if c.summary.len() > 0 {
                seq!['\n', '*', '*'] + c.summary + seq!['*', '*', '\n']
            } else {
                seq![]
            };
            let prose = if c.description.len() > 0 {
                seq!['\n'] + c.description + seq!['\n']
            } else {
                seq![]
            };
            markdown_of(c) == top + bold + prose
        }),
{
    reveal_strlit("```tcl\n");
    reveal_strlit("```\n");
    reveal_strlit("\n**");
    reveal_strlit("**\n");
    reveal_strlit("\n");
    let fence = seq!['`', '`', '`'];
    assert("```tcl\n"@ =~= fence + seq!['t', 'c', 'l', '\n']);
    assert("```\n"@ =~= fence + seq!['\n']);
    assert("\n**"@ =~= seq!['\n', '*', '*']);
    assert("**\n"@ =~= seq!['*', '*', '\n']);
    assert("\n"@ =~= seq!['\n']);
    let code = if c.synopsis.len() > 0 {
        each_line(c.synopsis, 0)
    } else {
        c.name + seq!['\n']
    };
    let top = fence + seq!['t', 'c', 'l', '\n'] + code + fence + seq!['\n'];
    assert("```tcl\n"@ + code + "```\n"@ =~= top);
    let bold = if c.summary.len() > 0 {
        seq!['\n', '*', '*'] + c.summary + seq!['*', '*', '\n']
    } else {
        seq![]
    };
    let prose = if c.description.len() > 0 {
        seq!['\n'] + c.description + seq!['\n']
    } else {
        seq![]
    };
    assert(markdown_of(c) =~= top + bold + prose);
}

/// The subcommands of a builtin are named behind all that, up to 24 of them.
pub proof fn a_builtin_is_shown_with_its_subcommands(c: CommandView)
    requires
        c.subcommands.len() > 0,
    ensures
        ({
            let bare = CommandView { subcommands: seq![], ..c };
            let n = if c.subcommands.len() < 24 {
                c.subcommands.len() as int
            } else {
                24
            };
            markdown_of(c) == markdown_of(bare) + "\nSubcommands: `"@ + name_list(
                c.subcommands,
                0,
                n,
            ) + "`\n"@
        }),
{
    let bare = CommandView { subcommands: seq![], ..c };
    let n = if c.subcommands.len() < 24 {
        c.subcommands.len() as int
    } else {
        24
    };
    let list = "\nSubcommands: `"@ + name_list(c.subcommands, 0, n) + "`\n"@;
    assert(markdown_of(c) =~= markdown_of(bare) + list);
    assert(markdown_of(bare) + list =~= markdown_of(bare) + "\nSubcommands: `"@ + name_list(
        c.subcommands,
        0,
        n,
    ) + "`\n"@);
}

/// Each syntax database is an argument of its own behind a `-s`.
pub proof fn each_database_is_an_argument(dbs: Seq<Seq<char>>, k: int)
    requires
        0 <= k < dbs.len(),
    ensures
        crate::external::db_args(dbs, k) == seq![seq!['-', 's'], dbs[k]]
            + crate::external::db_args(dbs, k + 1),
        crate::external::db_args(dbs, dbs.len() as int).len() == 0,
{
    reveal_strlit("-s");
    assert("-s"@ =~= seq!['-', 's']);
}

/// The kinds of tokens by their numbers.
pub proof fn token_kinds_have_their_numbers(raw: u32)
    ensures
        crate::token::TokenKind::of_raw(raw) == crate::token::TokenKind::Word <==> raw == 1,
        crate::token::TokenKind::of_raw(raw) == crate::token::TokenKind::SimpleWord <==> raw == 2,
        crate::token::TokenKind::of_raw(raw) == crate::token::TokenKind::Text <==> raw == 4,
        crate::token::TokenKind::of_raw(raw) == crate::token::TokenKind::Backslash <==> raw == 8,
        crate::token::TokenKind::of_raw(raw) == crate::token::TokenKind::Command <==> raw == 16,
        crate::token::TokenKind::of_raw(raw) == crate::token::TokenKind::Variable <==> raw == 32,
        crate::token::TokenKind::of_raw(raw) == crate::token::TokenKind::SubExpr <==> raw == 64,
        crate::token::TokenKind::of_raw(raw) == crate::token::TokenKind::Operator <==> raw == 128,
        crate::token::TokenKind::of_raw(raw) == crate::token::TokenKind::ExpandWord <==> raw == 256,
        crate::token::TokenKind::of_raw(raw) is Unknown ==> crate::token::TokenKind::of_raw(raw)
            == crate::token::TokenKind::Unknown(raw),
{
}

/// Each line of tclint's that is a finding is reported, and nothing else.
pub proof fn every_tclint_line_is_read(all: Seq<Seq<char>>, k: int, f: FindingView)
    requires
        0 <= k <= all.len(),
    ensures
        crate::external::tclint_lines(all, k).contains(f) <==> exists|i: int|
            k <= i < all.len() && tclint_line(#[trigger] all[i]) == Some(f),
    decreases all.len() - k,
{
    if k < all.len() {
        every_tclint_line_is_read(all, k + 1, f);
        let rest = crate::external::tclint_lines(all, k + 1);
        match tclint_line(all[k]) {
            Some(one) => {
                crate::discovery::lemma_joined(seq![one], rest, f);
                assert(seq![one][0] == one);
            },
            None => {
                assert(crate::external::tclint_lines(all, k) =~= rest);
            },
        }
    }
}

/// A path may hold colons: where no line and column follow a colon, the path goes on behind
/// it. A line without a colon is no finding.
pub proof fn a_path_may_hold_colons(front: Seq<char>, rest: Seq<char>)
    requires
        forall|k: int| 0 <= k < front.len() ==> #[trigger] front[k] != ':',
        tclint_fields(rest) is None,
    ensures
        tclint_line(front + seq![':'] + rest) == tclint_line(rest),
{
    reveal_strlit(":");
    let sep = seq![':'];
    assert(":"@ =~= sep);
    let line = front + seq![':'] + rest;
    assert(line.subrange(front.len() as int, (front.len() + 1) as int) =~= sep);
    assert forall|m: int| 0 <= m < front.len() implies #[trigger] line[m] != sep[0] by {
        assert(line[m] == front[m]);
    }
    lemma_cut(line, front.len() as int, sep);
    assert(line.subrange((front.len() + 1) as int, line.len() as int) =~= rest);
}

/// Output that says that there is no syntax database reports nothing, and is not taken for a
/// clean file.
pub proof fn a_missing_database_is_no_clean_file(before: Seq<char>, after: Seq<char>)
    ensures
        crate::external::nagelfar_output(before + "No syntax database"@ + after) is None,
{
    let p = "No syntax database"@;
    let text = before + p + after;
    let k = before.len() as int;
    assert(text.subrange(k, k + p.len()) =~= p);
    reveal_strlit("No syntax database");
    lemma_holds(text, 0, k, p);
}

proof fn lemma_holds(s: Seq<char>, i: int, k: int, p: Seq<char>)
    requires
        0 <= i <= k,
        k + p.len() <= s.len(),
        s.subrange(k, k + p.len()) == p,
    ensures
        find_text(s, i, p) is Some,
    decreases k - i,
{
    if i < k && !matches_at(s, i, p) {
        lemma_holds(s, i + 1, k, p);
    }
}

/// What a formatter printed is the formatted text if it succeeded, printed something that is
/// text, and no syntax error among it.
pub proof fn formatted_text_has_no_syntax_error(success: bool, out: Seq<u8>, t: Seq<char>)
    requires
        vstd::utf8::valid_utf8(out),
        t == vstd::utf8::decode_utf8(out),
    ensures
        !success || t.len() == 0 ==> crate::external::formatted_text(success, out) is None,
        (exists|k: int| #[trigger]
            crate::lookup::part_at(t, "syntax error:"@, k)) ==> crate::external::formatted_text(
            success,
            out,
        ) is None,
        success && t.len() > 0 && !(exists|k: int| #[trigger]
            crate::lookup::part_at(t, "syntax error:"@, k)) ==> crate::external::formatted_text(
            success,
            out,
        ) == Some(t),
{
    let p = "syntax error:"@;
    if exists|k: int| #[trigger] crate::lookup::part_at(t, p, k) {
        let k = choose|k: int| #[trigger] crate::lookup::part_at(t, p, k);
        lemma_holds(t, 0, k, p);
    } else if let Some(k) = find_text(t, 0, p) {
        lemma_find_text(t, 0, p);
        assert(crate::lookup::part_at(t, p, k));
    }
}

/// A file name without a dot, or with one in front only, is no file of Tcl.
pub proof fn a_name_without_extension_is_no_tcl_file(name: Seq<char>)
    requires
        forall|k: int| 1 <= k < name.len() ==> #[trigger] name[k] != '.',
    ensures
        !is_tcl_name(name),
{
    lemma_dots(name, name.len() as int);
}

proof fn lemma_dots(s: Seq<char>, n: int)
    requires
        0 <= n <= s.len(),
        forall|k: int| 1 <= k < s.len() ==> #[trigger] s[k] != '.',
    ensures
        rfind_text(s, n, seq!['.']) matches Some(k) ==> k == 0,
    decreases n,
{
    if n > 0 {
        if n < s.len() {
            assert(s[n] != '.');
            assert(s.subrange(n, n + 1)[0] == s[n]);
        }
        lemma_dots(s, n - 1);
    } else {
        reveal_with_fuel(rfind_text, 2);
    }
}

/// The names of subcommands are listed each in its own backquotes.
pub proof fn subcommands_are_listed_in_backquotes(subs: Seq<crate::kb::SubcommandView>, k: int, n: int)
    requires
        0 <= k < n <= subs.len(),
    ensures
        k == 0 ==> name_list(subs, k, n) == subs[k].name + name_list(subs, k + 1, n),
        k > 0 ==> name_list(subs, k, n) == seq!['`', ',', ' ', '`'] + subs[k].name + name_list(
            subs,
            k + 1,
            n,
        ),
        name_list(subs, n, n).len() == 0,
{
    reveal_strlit("`, `");
    assert("`, `"@ =~= seq!['`', ',', ' ', '`']);
    if k == 0 {
        assert(Seq::<char>::empty() + subs[k].name =~= subs[k].name);
    }
}

} // verus!

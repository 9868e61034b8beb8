//! What man pages say, and what becomes of the commands of many pages, said of what is
//! written there.
use vstd::prelude::*;
use vstd::utf8::encode_utf8;

use crate::database::{
    command_place, deduped, inherit, option_at, page_options, sorted_commands, standard_option,
    underscored,
};
use crate::discovery::lemma_joined;
use crate::kb::{CommandView, OptionView, SubcommandView};
use crate::lookup::{colons_at, lemma_colons};
use crate::manpage::{
    add_options, cleaned, dashed_words, digits_end, fields_from, flags_among, flags_of,
    has_flag, is_heading, name_line, op_done, page_command, page_line, plain_from, section_of,
    tagged, text_line, tp_done, truncated, unquoted, with_prose, InheritedView, OpView,
    PageView, Section,
};
use crate::phrases::{trimming_takes_off_white_space, white};
use crate::text::{
    after_prefix, find_text, lemma_text_less, matches_at, split_words, starts_with, text_less,
    trim, trim_end,
};

verus! {

// -------------------------------------------------------------------- escapes
/// A character that is no backslash stands for itself.
pub proof fn plain_characters_stand_for_themselves(s: Seq<char>, i: int)
    requires
        0 <= i < s.len(),
        s[i] != '\\',
    ensures
        plain_from(s, i) == seq![s[i]] + plain_from(s, i + 1),
        plain_from(s, s.len() as int).len() == 0,
        cleaned(s) == trim(plain_from(s, 0)),
{
}

proof fn lemma_digit_run(s: Seq<char>, i: int, j: int)
    requires
        0 <= i <= j <= s.len(),
        forall|k: int| i <= k < j ==> 48 <= (#[trigger] s[k]) as int <= 57,
        j < s.len() ==> !(48 <= s[j] as int <= 57),
    ensures
        digits_end(s, i) == j,
    decreases j - i,
{
    assert('0' as int == 48 && '9' as int == 57);
    if i < j {
        assert(48 <= s[i] as int <= 57);
        lemma_digit_run(s, i + 1, j);
    }
}

/// Of a troff escape nothing is left that only changes the font or the size, that is of no
/// width, or that names a special character; `\e` is a backslash, and any other character
/// behind a backslash is itself.
pub proof fn escapes_are_resolved(s: Seq<char>, i: int)
    requires
        0 <= i,
        i + 1 < s.len(),
        s[i] == '\\',
    ensures
        s[i + 1] == 'e' ==> plain_from(s, i) == seq!['\\'] + plain_from(s, i + 2),
        s[i + 1] == '&' || s[i + 1] == '%' || s[i + 1] == '|' || s[i + 1] == '^' ==> plain_from(
            s,
            i,
        ) == plain_from(s, i + 2),
        s[i + 1] == '(' && i + 4 <= s.len() ==> plain_from(s, i) == plain_from(s, i + 4),
        s[i + 1] == 'f' && i + 5 <= s.len() && s[i + 2] == '(' ==> plain_from(s, i) == plain_from(
            s,
            i + 5,
        ),
        s[i + 1] == 'f' && i + 3 <= s.len() && s[i + 2] != '(' ==> plain_from(s, i) == plain_from(
            s,
            i + 3,
        ),
        s[i + 1] != 'e' && s[i + 1] != '&' && s[i + 1] != '%' && s[i + 1] != '|' && s[i + 1] != '^'
            && s[i + 1] != '(' && s[i + 1] != 'f' && s[i + 1] != 's' ==> plain_from(s, i) == seq![
            s[i + 1],
        ] + plain_from(s, i + 2),
{
    let none = Seq::<char>::empty();
    assert(none + plain_from(s, i + 2) =~= plain_from(s, i + 2));
    if i + 3 <= s.len() {
        assert(none + plain_from(s, i + 3) =~= plain_from(s, i + 3));
    }
    if i + 4 <= s.len() {
        assert(none + plain_from(s, i + 4) =~= plain_from(s, i + 4));
    }
    if i + 5 <= s.len() {
        assert(none + plain_from(s, i + 5) =~= plain_from(s, i + 5));
    }
}

/// A size change takes its sign and its digits along.
pub proof fn size_changes_are_dropped(s: Seq<char>, i: int, j: int)
    requires
        0 <= i,
        i + 2 <= j <= s.len(),
        s[i] == '\\',
        s[i + 1] == 's',
        forall|k: int| i + 3 <= k < j ==> 48 <= (#[trigger] s[k]) as int <= 57,
        i + 2 < j ==> s[i + 2] == '+' || s[i + 2] == '-' || 48 <= s[i + 2] as int <= 57,
        j < s.len() ==> !(48 <= s[j] as int <= 57),
        i + 2 == j && j < s.len() ==> s[j] != '+' && s[j] != '-',
    ensures
        plain_from(s, i) == plain_from(s, j),
{
    let none = Seq::<char>::empty();
    assert('+' as int == 43 && '-' as int == 45);
    if i + 2 < j && (s[i + 2] == '+' || s[i + 2] == '-') {
        lemma_digit_run(s, i + 3, j);
    } else {
        lemma_digit_run(s, i + 2, j);
    }
    assert(none + plain_from(s, j) =~= plain_from(s, j));
}

// --------------------------------------------------------------------- fields
proof fn lemma_field_run(s: Seq<char>, i: int, j: int, cur: Seq<char>, quoted: bool)
    requires
        0 <= i <= j <= s.len(),
        forall|k: int|
            i <= k < j ==> #[trigger] s[k] != '"' && (quoted || !white(s[k])),
    ensures
        fields_from(s, i, cur, quoted) == fields_from(s, j, cur + s.subrange(i, j), quoted),
    decreases j - i,
{
    if i < j {
        assert(s[i] != '"' && (quoted || !white(s[i])));
        lemma_field_run(s, i + 1, j, cur.push(s[i]), quoted);
        assert(cur.push(s[i]) + s.subrange(i + 1, j) =~= cur + s.subrange(i, j));
    } else {
        assert(cur + s.subrange(i, j) =~= cur);
    }
}

/// An argument of a macro goes up to white space or the end.
pub proof fn a_bare_field_ends_at_white_space(s: Seq<char>, i: int, j: int)
    requires
        0 <= i < j <= s.len(),
        forall|k: int| i <= k < j ==> #[trigger] s[k] != '"' && !white(s[k]),
        j < s.len() ==> white(s[j]),
    ensures
        j < s.len() ==> fields_from(s, i, seq![], false) == seq![s.subrange(i, j)] + fields_from(
            s,
            j + 1,
            seq![],
            false,
        ),
        j == s.len() ==> fields_from(s, i, seq![], false) == seq![s.subrange(i, j)],
{
    lemma_field_run(s, i, j, seq![], false);
    assert(Seq::<char>::empty() + s.subrange(i, j) =~= s.subrange(i, j));
    if j < s.len() {
        assert('"' as u32 == 34);
        assert(s[j] != '"');
    }
}

/// An argument in quotes is what is between them, white space and all.
pub proof fn a_quoted_field_ends_at_its_quote(s: Seq<char>, i: int, j: int)
    requires
        0 <= i,
        i + 1 < j < s.len(),
        s[i] == '"',
        s[j] == '"',
        forall|k: int| i < k < j ==> #[trigger] s[k] != '"',
        j + 1 < s.len() ==> white(s[j + 1]),
    ensures
        j + 1 < s.len() ==> fields_from(s, i, seq![], false) == seq![s.subrange(i + 1, j)]
            + fields_from(s, j + 2, seq![], false),
        j + 1 == s.len() ==> fields_from(s, i, seq![], false) == seq![s.subrange(i + 1, j)],
{
    let inner = s.subrange(i + 1, j);
    lemma_field_run(s, i + 1, j, seq![], true);
    assert(Seq::<char>::empty() + inner =~= inner);
    assert(fields_from(s, i, seq![], false) == fields_from(s, i + 1, seq![], true));
    assert(fields_from(s, j, inner, true) == fields_from(s, j + 1, inner, false));
    if j + 1 < s.len() {
        assert('"' as u32 == 34);
        assert(s[j + 1] != '"');
    }
}

/// White space between arguments is skipped.
pub proof fn white_space_separates_fields(s: Seq<char>, i: int)
    requires
        0 <= i < s.len(),
        white(s[i]),
    ensures
        fields_from(s, i, seq![], false) == fields_from(s, i + 1, seq![], false),
{
    assert('"' as u32 == 34);
    let rest = fields_from(s, i + 1, seq![], false);
    assert(Seq::<Seq<char>>::empty() + rest =~= rest);
}

/// The flags of an option entry are those of its parts that begin with a dash once they are
/// cleaned.
pub proof fn flags_begin_with_a_dash(parts: Seq<Seq<char>>, k: int, f: Seq<char>)
    requires
        0 <= k <= parts.len(),
    ensures
        flags_among(parts, k).contains(f) <==> exists|i: int|
            k <= i < parts.len() && f == cleaned(trim(#[trigger] parts[i])) && f.len() > 0 && f[0]
                == '-',
    decreases parts.len() - k,
{
    if k < parts.len() {
        flags_begin_with_a_dash(parts, k + 1, f);
        let one = cleaned(trim(parts[k]));
        let rest = flags_among(parts, k + 1);
        if one.len() > 0 && one[0] == '-' {
            lemma_joined(seq![one], rest, f);
            assert(seq![one][0] == one);
        } else {
            assert(flags_among(parts, k) =~= rest);
        }
    }
}

// --------------------------------------------------------------------- macros
proof fn lemma_begins(p: Seq<char>, rest: Seq<char>)
    ensures
        starts_with(p + rest, p),
        after_prefix(p + rest, p) == rest,
{
    assert((p + rest).subrange(0, p.len() as int) =~= p);
    assert((p + rest).subrange(p.len() as int, (p + rest).len() as int) =~= rest);
}

proof fn lemma_begins_not(line: Seq<char>, p: Seq<char>, i: int)
    requires
        0 <= i < p.len(),
        i < line.len() ==> line[i] != p[i],
    ensures
        !starts_with(line, p),
{
    if starts_with(line, p) {
        assert(line.subrange(0, p.len() as int)[i] == line[i]);
    }
}

proof fn lemma_literals()
    ensures
        ".\\\""@ == seq!['.', '\\', '"'],
        "'\\\""@ == seq!['\'', '\\', '"'],
        ".TH "@ == seq!['.', 'T', 'H', ' '],
        ".SH "@ == seq!['.', 'S', 'H', ' '],
        ".SO"@ == seq!['.', 'S', 'O'],
        ".SE"@ == seq!['.', 'S', 'E'],
        ".OP "@ == seq!['.', 'O', 'P', ' '],
        ".TP"@ == seq!['.', 'T', 'P'],
        ".BE"@ == seq!['.', 'B', 'E'],
        "."@ == seq!['.'],
{
    reveal_strlit(".\\\"");
    reveal_strlit("'\\\"");
    reveal_strlit(".TH ");
    reveal_strlit(".SH ");
    reveal_strlit(".SO");
    reveal_strlit(".SE");
    reveal_strlit(".OP ");
    reveal_strlit(".TP");
    reveal_strlit(".BE");
    reveal_strlit(".");
    assert(".\\\""@ =~= seq!['.', '\\', '"']);
    assert("'\\\""@ =~= seq!['\'', '\\', '"']);
    assert(".TH "@ =~= seq!['.', 'T', 'H', ' ']);
    assert(".SH "@ =~= seq!['.', 'S', 'H', ' ']);
    assert(".SO"@ =~= seq!['.', 'S', 'O']);
    assert(".SE"@ =~= seq!['.', 'S', 'E']);
    assert(".OP "@ =~= seq!['.', 'O', 'P', ' ']);
    assert(".TP"@ =~= seq!['.', 'T', 'P']);
    assert(".BE"@ =~= seq!['.', 'B', 'E']);
    assert("."@ =~= seq!['.']);
}

/// A line that ends with something else than white space.
pub open spec fn ends_in_ink(line: Seq<char>) -> bool {
    line.len() > 0 && !white(line.last())
}

proof fn lemma_line(line: Seq<char>)
    requires
        ends_in_ink(line),
        !white(line[0]),
    ensures
        trim_end(line) == line,
{
    trimming_takes_off_white_space(line, 0, line.len() as int);
    assert(line.subrange(0, line.len() as int) =~= line);
}

/// Which macro a line is, by its second and third character.
#[verifier::spinoff_prover]
#[verifier::rlimit(40)]
proof fn lemma_macro(p: Seq<char>, rest: Seq<char>)
    requires
        p.len() >= 3,
        p[0] == '.',
        p[1] != '\\',
        ends_in_ink(p + rest),
    ensures
        ({
            let line = p + rest;
            &&& trim_end(line) == line
            &&& line[0] == '.' && line[1] == p[1] && line[2] == p[2]
            &&& !starts_with(line, ".\\\""@)
            &&& !starts_with(line, "'\\\""@)
            &&& starts_with(line, p)
            &&& after_prefix(line, p) == rest
            &&& p[1] != 'T' || p[2] != 'H' ==> !starts_with(line, ".TH "@)
            &&& p[1] != 'S' || p[2] != 'H' ==> !starts_with(line, ".SH "@)
            &&& p[1] != 'S' || p[2] != 'O' ==> !starts_with(line, ".SO"@)
            &&& p[1] != 'S' || p[2] != 'E' ==> !starts_with(line, ".SE"@)
            &&& p[1] != 'O' || p[2] != 'P' ==> !starts_with(line, ".OP "@)
            &&& p[1] != 'T' || p[2] != 'P' ==> !starts_with(line, ".TP"@)
            &&& p[1] != 'B' || p[2] != 'E' ==> !starts_with(line, ".BE"@)
        }),
{
    let line = p + rest;
    assert(line[0] == p[0] && line[1] == p[1] && line[2] == p[2]);
    assert('.' as u32 == 46);
    lemma_line(line);
    lemma_begins(p, rest);
    assert(!starts_with(line, ".\\\""@)) by {
        lemma_literals();
        lemma_begins_not(line, ".\\\""@, 1);
    }
    assert(!starts_with(line, "'\\\""@)) by {
        lemma_literals();
        lemma_begins_not(line, "'\\\""@, 0);
    }
    if p[1] != 'T' {
        assert(!starts_with(line, ".TH "@)) by {
            lemma_literals();
            lemma_begins_not(line, ".TH "@, 1);
        }
    }
    if p[2] != 'H' {
        assert(!starts_with(line, ".TH "@)) by {
            lemma_literals();
            lemma_begins_not(line, ".TH "@, 2);
        }
    }
    if p[1] != 'S' {
        assert(!starts_with(line, ".SH "@)) by {
            lemma_literals();
            lemma_begins_not(line, ".SH "@, 1);
        }
    }
    if p[2] != 'H' {
        assert(!starts_with(line, ".SH "@)) by {
            lemma_literals();
            lemma_begins_not(line, ".SH "@, 2);
        }
    }
    if p[1] != 'S' {
        assert(!starts_with(line, ".SO"@)) by {
            lemma_literals();
            lemma_begins_not(line, ".SO"@, 1);
        }
    }
    if p[2] != 'O' {
        assert(!starts_with(line, ".SO"@)) by {
            lemma_literals();
            lemma_begins_not(line, ".SO"@, 2);
        }
    }
    if p[1] != 'S' {
        assert(!starts_with(line, ".SE"@)) by {
            lemma_literals();
            lemma_begins_not(line, ".SE"@, 1);
        }
    }
    if p[2] != 'E' {
        assert(!starts_with(line, ".SE"@)) by {
            lemma_literals();
            lemma_begins_not(line, ".SE"@, 2);
        }
    }
    if p[1] != 'O' {
        assert(!starts_with(line, ".OP "@)) by {
            lemma_literals();
            lemma_begins_not(line, ".OP "@, 1);
        }
    }
    if p[2] != 'P' {
        assert(!starts_with(line, ".OP "@)) by {
            lemma_literals();
            lemma_begins_not(line, ".OP "@, 2);
        }
    }
    if p[1] != 'T' {
        assert(!starts_with(line, ".TP"@)) by {
            lemma_literals();
            lemma_begins_not(line, ".TP"@, 1);
        }
    }
    if p[2] != 'P' {
        assert(!starts_with(line, ".TP"@)) by {
            lemma_literals();
            lemma_begins_not(line, ".TP"@, 2);
        }
    }
    if p[1] != 'B' {
        assert(!starts_with(line, ".BE"@)) by {
            lemma_literals();
            lemma_begins_not(line, ".BE"@, 1);
        }
    }
    if p[2] != 'E' {
        assert(!starts_with(line, ".BE"@)) by {
            lemma_literals();
            lemma_begins_not(line, ".BE"@, 2);
        }
    }
}

/// `.TH` names the page by its first word, if anything is left of that.
#[verifier::spinoff_prover]
#[verifier::rlimit(40)]
pub proof fn the_title_names_the_page(p: PageView, rest: Seq<char>)
    requires
        ends_in_ink(rest),
        split_words(rest).len() > 0,
        cleaned(split_words(rest)[0]).len() > 0,
    ensures
        page_line(p, seq!['.', 'T', 'H', ' '] + rest) == (PageView {
            name: cleaned(split_words(rest)[0]),
            ..p
        }),
{
    lemma_literals();
    assert((seq!['.', 'T', 'H', ' '] + rest).last() == rest.last());
    lemma_macro(seq!['.', 'T', 'H', ' '], rest);
}

/// `.SH` ends what was being read and opens the section that it names, in or out of quotes.
#[verifier::spinoff_prover]
#[verifier::rlimit(40)]
pub proof fn a_heading_opens_its_section(p: PageView, rest: Seq<char>)
    requires
        ends_in_ink(rest),
    ensures
        page_line(p, seq!['.', 'S', 'H', ' '] + rest) == (PageView {
            section: section_of(unquoted(trim(rest))),
            ..tp_done(op_done(p))
        }),
{
    lemma_literals();
    assert((seq!['.', 'S', 'H', ' '] + rest).last() == rest.last());
    lemma_macro(seq!['.', 'S', 'H', ' '], rest);
}

/// `.SO` begins the list of inherited options: those of the page that it names, or of
/// `options`. `.SE` ends it. In between, each word that begins with a dash is one.
#[verifier::spinoff_prover]
#[verifier::rlimit(40)]
pub proof fn inherited_options_are_listed(p: PageView, rest: Seq<char>, line: Seq<char>)
    requires
        ends_in_ink(rest),
        ends_in_ink(line),
        !white(line[0]),
        line[0] != '.',
        line[0] != '\'',
        p.in_so,
    ensures
        trim(rest).len() > 0 ==> page_line(p, seq!['.', 'S', 'O'] + rest) == (PageView {
            in_so: true,
            so_page: trim(rest),
            ..op_done(p)
        }),
        page_line(p, seq!['.', 'S', 'O']) == (PageView {
            in_so: true,
            so_page: "options"@,
            ..op_done(p)
        }),
        page_line(p, seq!['.', 'S', 'E']) == (PageView { in_so: false, ..p }),
        page_line(p, line) == (PageView {
            so_flags: p.so_flags + dashed_words(split_words(cleaned(line)), 0),
            ..p
        }),
{
    lemma_literals();
    let none = Seq::<char>::empty();
    assert((seq!['.', 'S', 'O'] + rest).last() == rest.last());
    lemma_macro(seq!['.', 'S', 'O'], rest);
    assert(seq!['.', 'S', 'O'] + none =~= seq!['.', 'S', 'O']);
    assert(seq!['.', 'S', 'E'] + none =~= seq!['.', 'S', 'E']);
    assert('O' as u32 == 79 && 'E' as u32 == 69);
    lemma_macro(seq!['.', 'S', 'O'], none);
    lemma_macro(seq!['.', 'S', 'E'], none);
    crate::phrases::white_space_is_trimmed_away(none);
    lemma_line(line);
    lemma_begins_not(line, ".\\\""@, 0);
    lemma_begins_not(line, "'\\\""@, 0);
    lemma_begins_not(line, ".TH "@, 0);
    lemma_begins_not(line, ".SH "@, 0);
    lemma_begins_not(line, ".SO"@, 0);
    lemma_begins_not(line, ".SE"@, 0);
}

/// `.OP` begins the entry of an option: its flags, and its name and class in the option
/// database. It ends what was being read.
#[verifier::spinoff_prover]
#[verifier::rlimit(40)]
pub proof fn an_option_entry_names_its_flags(p: PageView, rest: Seq<char>)
    requires
        ends_in_ink(rest),
        !p.in_so,
    ensures
        ({
            let fields = fields_from(rest, 0, seq![], false);
            let flags = flags_of(fields);
            let now = page_line(p, seq!['.', 'O', 'P', ' '] + rest);
            &&& flags.len() == 0 ==> now == (PageView { op: None, ..tp_done(op_done(p)) })
            &&& flags.len() > 0 ==> now == (PageView {
                op: Some(
                    OpView {
                        flags,
                        db_name: if fields.len() > 1 {
                            cleaned(fields[1])
                        } else {
                            seq![]
                        },
                        db_class: if fields.len() > 2 {
                            cleaned(fields[2])
                        } else {
                            seq![]
                        },
                        doc: seq![],
                    },
                ),
                ..tp_done(op_done(p))
            })
        }),
{
    lemma_literals();
    assert((seq!['.', 'O', 'P', ' '] + rest).last() == rest.last());
    lemma_macro(seq!['.', 'O', 'P', ' '], rest);
}

/// `.TP` begins a tagged paragraph, whose next line of text is a tag where the section is a
/// description.
#[verifier::spinoff_prover]
#[verifier::rlimit(40)]
pub proof fn a_paragraph_has_a_tag(p: PageView)
    requires
        !p.in_so,
    ensures
        page_line(p, seq!['.', 'T', 'P']).op is None,
        page_line(p, seq!['.', 'T', 'P']).tp is None,
        page_line(p, seq!['.', 'T', 'P']).options == op_done(p).options,
        page_line(p, seq!['.', 'T', 'P']).subcommands == tp_done(p).subcommands,
        p.section == Section::Description ==> page_line(p, seq!['.', 'T', 'P']).tag,
        p.section != Section::Description ==> page_line(p, seq!['.', 'T', 'P']).tag == p.tag,
{
    lemma_literals();
    let none = Seq::<char>::empty();
    assert(seq!['.', 'T', 'P'] + none =~= seq!['.', 'T', 'P']);
    assert('P' as u32 == 80);
    lemma_macro(seq!['.', 'T', 'P'], none);
}

/// What was being read of an option is done: one option for each flag that is not there yet.
pub proof fn an_entry_adds_its_new_flags(options: Seq<OptionView>, op: OpView, k: int)
    requires
        0 <= k < op.flags.len(),
    ensures
        op.flags[k].len() == 0 || has_flag(options, op.flags[k]) ==> add_options(options, op, k)
            == add_options(options, op, k + 1),
        op.flags[k].len() > 0 && !has_flag(options, op.flags[k]) ==> add_options(options, op, k)
            == add_options(
            options.push(
                OptionView {
                    flag: op.flags[k],
                    db_name: op.db_name,
                    db_class: op.db_class,
                    doc: truncated(op.doc, 300),
                    standard: false,
                },
            ),
            op,
            k + 1,
        ),
        add_options(options, op, op.flags.len() as int) == options,
{
}

/// Whether a word can name a subcommand: ASCII letters, digits, underscores and dashes.
pub open spec fn can_name_subcommand(w: Seq<char>) -> bool {
    forall|i: int|
        0 <= i < w.len() ==> {
            let u = (#[trigger] w[i]) as int;
            48 <= u <= 57 || 65 <= u <= 90 || 97 <= u <= 122 || u == 95 || u == 45
        }
}

/// The tag of a paragraph documents a subcommand where it begins with the name of the
/// command, or with `pathName`, and goes on with a word that can name one.
pub proof fn a_tag_documents_a_subcommand(
    name: Seq<char>,
    prefix: Seq<char>,
    rest: Seq<char>,
)
    requires
        prefix == name + seq![' '] || (prefix == "pathName "@ && !starts_with(
            prefix + rest,
            name + seq![' '],
        )),
    ensures
        split_words(rest).len() == 0 ==> tagged(name, prefix + rest) is None,
        split_words(rest).len() > 0 && !can_name_subcommand(split_words(rest)[0]) ==> tagged(
            name,
            prefix + rest,
        ) is None,
        split_words(rest).len() > 0 && can_name_subcommand(split_words(rest)[0]) ==> tagged(
            name,
            prefix + rest,
        ) == Some(
            SubcommandView { name: split_words(rest)[0], signature: prefix + rest, doc: seq![] },
        ),
{
    lemma_begins(prefix, rest);
    assert('a' as int == 97 && 'z' as int == 122 && 'A' as int == 65 && 'Z' as int == 90);
    assert('0' as int == 48 && '9' as int == 57 && '_' as int == 95 && '-' as int == 45);
    if split_words(rest).len() > 0 {
        let w = split_words(rest)[0];
        assert(can_name_subcommand(w) == crate::manpage::is_subcommand_word(w)) by {
            if can_name_subcommand(w) {
                assert forall|i: int| 0 <= i < w.len() implies crate::manpage::is_word_char(
                    #[trigger] w[i],
                ) by {
                    let u = w[i] as int;
                    assert(48 <= u <= 57 || 65 <= u <= 90 || 97 <= u <= 122 || u == 95 || u == 45);
                }
            } else {
                let i = choose|i: int|
                    0 <= i < w.len() && !({
                        let u = (#[trigger] w[i]) as int;
                        48 <= u <= 57 || 65 <= u <= 90 || 97 <= u <= 122 || u == 95 || u == 45
                    });
                assert(!crate::manpage::is_word_char(w[i]));
            }
        }
    }
}

/// In the NAME section a line `names - summary` gives the summary, and the first of the names
/// where the page has none yet.
pub proof fn the_name_section_gives_the_summary(p: PageView, names: Seq<char>, summary: Seq<char>)
    requires
        forall|k: int| 0 <= k < names.len() ==> #[trigger] names[k] != ' ' && names[k] != ',',
        p.section == Section::Name,
    ensures
        name_line(p, names + seq![' ', '-', ' '] + summary).summary == trim(summary),
        p.name.len() > 0 ==> name_line(p, names + seq![' ', '-', ' '] + summary).name == p.name,
        p.name.len() == 0 ==> name_line(p, names + seq![' ', '-', ' '] + summary).name == trim(
            names,
        ),
{
    reveal_strlit(" - ");
    let sep = seq![' ', '-', ' '];
    assert(" - "@ =~= sep);
    let line = names + sep + summary;
    let k = names.len() as int;
    assert(line.subrange(k, k + 3) =~= sep);
    assert forall|m: int| 0 <= m < k implies #[trigger] line[m] != ' ' by {
        assert(line[m] == names[m]);
    }
    lemma_separator(line, 0, k, sep);
    assert(line.subrange(0, k) =~= names);
    assert(line.subrange(k + 3, line.len() as int) =~= summary);
    lemma_no_comma(names, 0);
    assert(names.subrange(0, k) =~= names);
}

proof fn lemma_no_comma(s: Seq<char>, i: int)
    requires
        0 <= i <= s.len(),
        forall|k: int| 0 <= k < s.len() ==> #[trigger] s[k] != ' ' && s[k] != ',',
    ensures
        crate::text::find_char(s, i, ',') == s.len(),
    decreases s.len() - i,
{
    if i < s.len() {
        assert(s[i] != ' ' && s[i] != ',');
        lemma_no_comma(s, i + 1);
    }
}

proof fn lemma_separator(s: Seq<char>, i: int, k: int, sep: Seq<char>)
    requires
        0 <= i <= k,
        sep.len() > 0,
        k + sep.len() <= s.len(),
        s.subrange(k, k + sep.len()) == sep,
        forall|m: int| 0 <= m < k ==> #[trigger] s[m] != sep[0],
    ensures
        find_text(s, i, sep) == Some(k),
    decreases k - i,
{
    if i < k {
        assert(s[i] != sep[0]);
        assert(s.subrange(i, i + sep.len())[0] == s[i]);
        lemma_separator(s, i + 1, k, sep);
    }
}

/// A line of text goes where its section says: to the synopsis, or to the description, as
/// long as that is below 1600 bytes, or to the subcommand that is being read.
pub proof fn text_goes_where_its_section_says(p: PageView, line: Seq<char>)
    requires
        cleaned(line).len() > 0,
    ensures
        p.section == Section::Synopsis ==> text_line(p, line).synopsis == p.synopsis.push(
            cleaned(line),
        ) && text_line(p, line).description == p.description,
        p.section == Section::Description && p.tp is None && encode_utf8(p.description).len() < 1600
            ==> text_line(p, line).description == with_prose(p.description, cleaned(line)),
        p.section == Section::Description && p.tp is None && encode_utf8(p.description).len() >= 1600
            ==> text_line(p, line).description == p.description,
        p.section == Section::Description ==> (p.tp matches Some(sub) ==> text_line(
            p,
            line,
        ).description == p.description && (cleaned(line) != seq!['.'] ==> text_line(p, line).tp
            == Some(SubcommandView { doc: with_prose(sub.doc, cleaned(line)), ..sub }))),
        p.section != Section::Name && p.section != Section::Synopsis ==> (p.op matches Some(op)
            ==> text_line(p, line).op == Some(
            OpView { doc: with_prose(op.doc, cleaned(line)), ..op },
        )),
        with_prose(seq![], cleaned(line)) == cleaned(line),
        forall|buf: Seq<char>|
            buf.len() > 0 ==> #[trigger] with_prose(buf, cleaned(line)) == buf + seq![' '] + cleaned(
                line,
            ),
{
    reveal_strlit(".");
    assert("."@ =~= seq!['.']);
}

/// Whether a command says what was read of its page.
pub open spec fn says_what_was_read(
    r: Option<(CommandView, Option<InheritedView>)>,
    p: PageView,
    package: Seq<char>,
) -> bool {
    r matches Some((c, inherited)) && {
        &&& c.name == p.name
        &&& c.summary == p.summary
        &&& c.synopsis == p.synopsis
        &&& c.description == trim(p.description)
        &&& c.subcommands == p.subcommands
        &&& c.options == p.options
        &&& c.package == package
        &&& p.so_flags.len() == 0 ==> inherited is None
        &&& p.so_flags.len() > 0 ==> inherited is Some && inherited->0.from_page == p.so_page
            && inherited->0.flags == p.so_flags
    }
}

/// A page documents a command if it names one, in one word, that is not of the C interface,
/// and has a summary or a synopsis. What the command says is what was read.
pub proof fn a_page_documents_its_command(p: PageView, package: Seq<char>)
    requires
        p.op is None,
        p.tp is None,
        p.name.len() > 0,
    ensures
        p.name.contains(' ') || matches_at(p.name, 0, "Tcl_"@) || matches_at(p.name, 0, "Tk_"@) || (
        p.summary.len() == 0 && p.synopsis.len() == 0) ==> page_command(p, package) is None,
        !(p.name.contains(' ') || matches_at(p.name, 0, "Tcl_"@) || matches_at(p.name, 0, "Tk_"@)
            || (p.summary.len() == 0 && p.synopsis.len() == 0)) ==> says_what_was_read(
            page_command(p, package),
            p,
            package,
        ),
{
}

// ------------------------------------------------------------------- database
/// Whether a command is the first of its name.
pub open spec fn is_first(s: Seq<CommandView>, c: CommandView) -> bool {
    exists|k: int| #[trigger] is_first_at(s, c, k)
}

pub open spec fn is_first_at(s: Seq<CommandView>, c: CommandView, k: int) -> bool {
    &&& 0 <= k < s.len()
    &&& s[k] == c
    &&& forall|j: int| 0 <= j < k ==> (#[trigger] s[j]).name != c.name
}

/// Whether a place is the first of its name in a list in order.
spec fn begins_group(t: Seq<CommandView>, p: int) -> bool {
    0 <= p < t.len() && (p == 0 || t[p - 1].name != t[p].name)
}

spec fn from_group(t: Seq<CommandView>, c: CommandView) -> bool {
    exists|p: int| #[trigger] begins_group(t, p) && t[p] == c
}

#[verifier::spinoff_prover]
#[verifier::rlimit(40)]
proof fn lemma_command_order(s: Seq<CommandView>)
    ensures
        sorted_commands(s).len() == s.len(),
        forall|i: int, j: int|
            0 <= i < j < sorted_commands(s).len() ==> !text_less(
                (#[trigger] sorted_commands(s)[j]).name,
                (#[trigger] sorted_commands(s)[i]).name,
            ),
        forall|i: int|
            0 <= i < s.len() ==> exists|p: int|
                0 <= p < sorted_commands(s).len() && sorted_commands(s)[p] == #[trigger] s[i],
        forall|p: int| #[trigger]
            begins_group(sorted_commands(s), p) ==> is_first(s, sorted_commands(s)[p]),
    decreases s.len(),
{
    if s.len() > 0 {
        let before = s.drop_last();
        let x = s.last();
        let t = sorted_commands(before);
        lemma_command_order(before);
        lemma_text_less();
        let n = t.len() as int;
        lemma_command_spot(t, n, x.name);
        let at = command_place(t, n, x.name);
        let now = t.insert(at, x);
        assert forall|i: int, j: int| 0 <= i < j < now.len() implies !text_less(
            (#[trigger] now[j]).name,
            (#[trigger] now[i]).name,
        ) by {
            if j < at {
                assert(now[i] == t[i] && now[j] == t[j]);
            } else if j == at {
                assert(now[i] == t[i]);
                if i < at - 1 {
                    assert(!text_less(t[at - 1].name, t[i].name));
                }
            } else if i < at {
                assert(now[i] == t[i] && now[j] == t[j - 1]);
            } else if i == at {
                assert(now[j] == t[j - 1]);
            } else {
                assert(now[i] == t[i - 1] && now[j] == t[j - 1]);
            }
        }
        assert forall|i: int| 0 <= i < s.len() implies exists|p: int|
            0 <= p < now.len() && now[p] == #[trigger] s[i] by {
            if i < before.len() {
                assert(before[i] == s[i]);
                let q = choose|q: int| 0 <= q < t.len() && t[q] == before[i];
                if q < at {
                    assert(now[q] == s[i]);
                } else {
                    assert(now[q + 1] == s[i]);
                }
            } else {
                assert(now[at] == s[i]);
            }
        }
        assert forall|p: int| #[trigger] begins_group(now, p) implies is_first(s, now[p]) by {
            if p == at {
                assert forall|j: int| 0 <= j < before.len() implies (#[trigger] s[j]).name
                    != x.name by {
                    assert(before[j] == s[j]);
                    let q = choose|q: int| 0 <= q < t.len() && t[q] == before[j];
                    if q < at {
                        assert(at > 0);
                        assert(now[at - 1] == t[at - 1]);
                        if q < at - 1 {
                            assert(!text_less(t[at - 1].name, t[q].name));
                        }
                        assert(t[at - 1].name != x.name);
                        assert(!text_less(x.name, t[at - 1].name));
                    } else {
                        assert(text_less(x.name, t[q].name));
                    }
                }
                assert(is_first_at(s, x, s.len() - 1));
            } else {
                let q = if p < at {
                    p
                } else {
                    p - 1
                };
                assert(now[p] == t[q]);
                assert(begins_group(t, q)) by {
                    if q > 0 {
                        if p < at {
                            assert(now[p - 1] == t[q - 1]);
                        } else if p - 1 > at {
                            assert(now[p - 1] == t[q - 1]);
                        } else {
                            assert(text_less(x.name, t[q].name));
                            assert(!text_less(x.name, t[at - 1].name));
                        }
                    }
                }
                let k = choose|k: int| #[trigger] is_first_at(before, t[q], k);
                assert forall|j: int| 0 <= j < k implies (#[trigger] s[j]).name != t[q].name by {
                    assert(before[j] == s[j]);
                }
                assert(is_first_at(s, now[p], k));
            }
        }
    }
}

proof fn lemma_command_spot(s: Seq<CommandView>, n: int, name: Seq<char>)
    requires
        0 <= n <= s.len(),
    ensures
        0 <= command_place(s, n, name) <= n,
        command_place(s, n, name) > 0 ==> !text_less(name, s[command_place(s, n, name) - 1].name),
        forall|i: int|
            command_place(s, n, name) <= i < n ==> text_less(name, (#[trigger] s[i]).name),
    decreases n,
{
    if n > 0 && text_less(name, s[n - 1].name) {
        lemma_command_spot(s, n - 1, name);
    }
}

proof fn lemma_dedup(t: Seq<CommandView>)
    ensures
        t.len() > 0 ==> deduped(t).len() > 0 && deduped(t).last().name == t.last().name,
        forall|i: int| 0 <= i < deduped(t).len() ==> from_group(t, #[trigger] deduped(t)[i]),
        forall|p: int| #[trigger] begins_group(t, p) ==> deduped(t).contains(t[p]),
    decreases t.len(),
{
    if t.len() == 1 {
        assert(begins_group(t, 0));
        assert(deduped(t)[0] == t[0]);
    } else if t.len() > 1 {
        let front = t.drop_last();
        lemma_dedup(front);
        let r = deduped(front);
        let x = t.last();
        let n = t.len() - 1;
        assert(front.last() == t[n - 1]);
        assert forall|i: int| 0 <= i < deduped(t).len() implies from_group(
            t,
            #[trigger] deduped(t)[i],
        ) by {
            if i < r.len() {
                assert(deduped(t)[i] == r[i]);
                assert(from_group(front, r[i]));
                let p = choose|p: int| #[trigger] begins_group(front, p) && front[p] == r[i];
                assert(begins_group(t, p) && t[p] == r[i]);
            } else {
                assert(begins_group(t, n) && t[n] == deduped(t)[i]);
            }
        }
        assert forall|p: int| #[trigger] begins_group(t, p) implies deduped(t).contains(t[p]) by {
            if p < n {
                assert(begins_group(front, p));
                let i = choose|i: int| 0 <= i < r.len() && r[i] == front[p];
                assert(deduped(t)[i] == t[p]);
            } else {
                assert(deduped(t)[r.len() as int] == x);
            }
        }
    }
}

/// Of commands of one name the first is kept: the database has exactly the commands that are
/// the first of their name, in the order of their names.
pub proof fn the_first_of_each_name_is_kept(s: Seq<CommandView>)
    ensures
        forall|i: int|
            0 <= i < deduped(sorted_commands(s)).len() ==> is_first(
                s,
                #[trigger] deduped(sorted_commands(s))[i],
            ),
        forall|k: int|
            0 <= k < s.len() ==> exists|i: int|
                0 <= i < deduped(sorted_commands(s)).len() && deduped(sorted_commands(s))[i].name
                    == (#[trigger] s[k]).name,
{
    let t = sorted_commands(s);
    lemma_command_order(s);
    lemma_dedup(t);
    assert forall|i: int| 0 <= i < deduped(t).len() implies is_first(
        s,
        #[trigger] deduped(t)[i],
    ) by {
        assert(from_group(t, deduped(t)[i]));
        let p = choose|p: int| #[trigger] begins_group(t, p) && t[p] == deduped(t)[i];
        assert(is_first(s, t[p]));
    }
    assert forall|k: int| 0 <= k < s.len() implies exists|i: int|
        0 <= i < deduped(t).len() && deduped(t)[i].name == (#[trigger] s[k]).name by {
        let p = choose|p: int| 0 <= p < t.len() && t[p] == s[k];
        let q = lemma_group_start(t, p);
        assert(deduped(t).contains(t[q]));
        let i = choose|i: int| 0 <= i < deduped(t).len() && deduped(t)[i] == t[q];
        assert(deduped(t)[i].name == s[k].name);
    }
}

proof fn lemma_group_start(t: Seq<CommandView>, p: int) -> (q: int)
    requires
        0 <= p < t.len(),
    ensures
        begins_group(t, q),
        t[q].name == t[p].name,
    decreases p,
{
    if p > 0 && t[p - 1].name == t[p].name {
        lemma_group_start(t, p - 1)
    } else {
        p
    }
}

/// A page is named like its command, with an underscore for each pair of colons.
pub proof fn a_page_is_named_with_underscores(s: Seq<char>, i: int)
    requires
        0 <= i < s.len(),
    ensures
        colons_at(s, i) ==> underscored(s, i) == seq!['_'] + underscored(s, i + 2),
        !colons_at(s, i) ==> underscored(s, i) == seq![s[i]] + underscored(s, i + 1),
        underscored(s, s.len() as int).len() == 0,
{
    lemma_colons(s, i);
}

/// An inherited option is what the page that it comes from says of that flag, marked as
/// standard; a flag that the page does not have is taken bare.
pub proof fn an_inherited_option_is_what_its_page_says(
    options: Seq<OptionView>,
    flag: Seq<char>,
    i: int,
)
    requires
        0 <= i < options.len(),
        options[i].flag == flag,
        forall|j: int| 0 <= j < i ==> (#[trigger] options[j]).flag != flag,
    ensures
        standard_option(Some(options), flag) == (OptionView { standard: true, ..options[i] }),
        standard_option(None, flag).flag == flag,
        standard_option(None, flag).standard,
        standard_option(None, flag).doc.len() == 0,
{
    lemma_option_at(options, 0, i);
}

proof fn lemma_option_at(options: Seq<OptionView>, k: int, i: int)
    requires
        0 <= k <= i < options.len(),
        forall|j: int| 0 <= j < i ==> (#[trigger] options[j]).flag != options[i].flag,
    ensures
        option_at(options, k, options[i].flag) == Some(i),
    decreases i - k,
{
    if k < i {
        assert(options[k].flag != options[i].flag);
        lemma_option_at(options, k + 1, i);
    }
}

/// Inheriting options leaves all other commands as they are, and of the command itself all
/// but its options. It keeps each option that it has; what it gains is marked as standard
/// and has a flag of the block that it did not have.
pub proof fn inheriting_keeps_what_is_there(
    commands: Seq<CommandView>,
    pages: Seq<CommandView>,
    block: InheritedView,
    i: int,
)
    requires
        0 <= i < commands.len(),
    ensures
        inherit(commands, pages, block).len() == commands.len(),
        crate::database::command_at(commands, 0, block.command) != Some(i) ==> inherit(
            commands,
            pages,
            block,
        )[i] == commands[i],
        crate::database::command_at(commands, 0, block.command) == Some(i) ==> {
            let now = inherit(commands, pages, block)[i];
            &&& now == (CommandView { options: now.options, ..commands[i] })
            &&& forall|o: OptionView| #[trigger]
                commands[i].options.contains(o) ==> now.options.contains(o)
            &&& forall|o: OptionView| #[trigger]
                now.options.contains(o) ==> commands[i].options.contains(o) || (o.standard
                    && !has_flag(commands[i].options, o.flag) && block.flags.contains(o.flag))
        },
{
    lemma_command_at(commands, 0, block.command);
    if crate::database::command_at(commands, 0, block.command) == Some(i) {
        let source = page_options(pages, pages.len() as int, block.from_page);
        let own = commands[i].options;
        let more = crate::database::with_standard(own, source, block.flags, 0);
        lemma_with_standard(own, own, source, block.flags, 0);
        assert forall|o: OptionView| #[trigger]
            crate::database::sorted_options(more).contains(o) <==> more.contains(o) by {
            lemma_sorted_options(more, o);
        }
    }
}

proof fn lemma_command_at(commands: Seq<CommandView>, i: int, name: Seq<char>)
    ensures
        crate::database::command_at(commands, i, name) matches Some(k) ==> 0 <= k < commands.len()
            && commands[k].name == name,
    decreases commands.len() - i,
{
    if 0 <= i < commands.len() && commands[i].name != name {
        lemma_command_at(commands, i + 1, name);
    }
}

proof fn lemma_sorted_options(s: Seq<OptionView>, o: OptionView)
    ensures
        crate::database::sorted_options(s).contains(o) <==> s.contains(o),
{
    broadcast use vstd::seq_lib::group_to_multiset_ensures;

    crate::database::sorting_orders_the_options(s);
    let t = crate::database::sorted_options(s);
    assert(s.contains(o) == (s.to_multiset().count(o) > 0));
    assert(t.contains(o) == (t.to_multiset().count(o) > 0));
}

/// Whether all options are a command's own, or standard ones of flags that it lacked.
spec fn all_from(own: Seq<OptionView>, flags: Seq<Seq<char>>, all: Seq<OptionView>) -> bool {
    forall|o: OptionView| #[trigger]
        all.contains(o) ==> own.contains(o) || (o.standard && !has_flag(own, o.flag)
            && flags.contains(o.flag))
}

spec fn has_all(own: Seq<OptionView>, all: Seq<OptionView>) -> bool {
    forall|o: OptionView| #[trigger] own.contains(o) ==> all.contains(o)
}

proof fn lemma_with_standard(
    own: Seq<OptionView>,
    options: Seq<OptionView>,
    source: Option<Seq<OptionView>>,
    flags: Seq<Seq<char>>,
    k: int,
)
    requires
        0 <= k <= flags.len(),
        has_all(own, options),
        forall|f: Seq<char>| #[trigger] has_flag(own, f) ==> has_flag(options, f),
        all_from(own, flags, options),
    ensures
        has_all(own, crate::database::with_standard(options, source, flags, k)),
        all_from(own, flags, crate::database::with_standard(options, source, flags, k)),
    decreases flags.len() - k,
{
    if k < flags.len() {
        if has_flag(options, flags[k]) {
            lemma_with_standard(own, options, source, flags, k + 1);
        } else {
            let x = standard_option(source, flags[k]);
            lemma_standard_flag(source, flags[k]);
            let next = options.push(x);
            assert(next =~= options + seq![x]);
            assert(flags.contains(flags[k]));
            assert forall|o: OptionView| #[trigger] next.contains(o) implies own.contains(o) || (
            o.standard && !has_flag(own, o.flag) && flags.contains(o.flag)) by {
                lemma_joined(options, seq![x], o);
            }
            assert forall|o: OptionView| #[trigger] own.contains(o) implies next.contains(o) by {
                lemma_joined(options, seq![x], o);
            }
            assert forall|f: Seq<char>| #[trigger] has_flag(own, f) implies has_flag(next, f) by {
                assert(has_flag(options, f));
                let i = choose|i: int| 0 <= i < options.len() && (#[trigger] options[i]).flag == f;
                assert(next[i].flag == f);
            }
            lemma_with_standard(own, next, source, flags, k + 1);
        }
    }
}

proof fn lemma_standard_flag(source: Option<Seq<OptionView>>, flag: Seq<char>)
    ensures
        standard_option(source, flag).flag == flag,
        standard_option(source, flag).standard,
{
    if let Some(all) = source {
        lemma_option_flag(all, 0, flag);
    }
}

proof fn lemma_option_flag(all: Seq<OptionView>, i: int, flag: Seq<char>)
    ensures
        option_at(all, i, flag) matches Some(k) ==> 0 <= k < all.len() && all[k].flag == flag,
    decreases all.len() - i,
{
    if 0 <= i < all.len() && all[i].flag != flag {
        lemma_option_flag(all, i + 1, flag);
    }
}

/// Whether two texts have the same letters, where the second is in upper case.
pub open spec fn same_letters(s: Seq<char>, upper: Seq<char>) -> bool {
    s.len() == upper.len() && forall|i: int|
        0 <= i < upper.len() ==> {
            ||| #[trigger] s[i] == upper[i]
            ||| 65 <= upper[i] as int <= 90 && s[i] as int == upper[i] as int + 32
        }
}

proof fn lemma_same_letters(s: Seq<char>, upper: Seq<char>)
    ensures
        is_heading(s, upper) == same_letters(s, upper),
{
    assert('A' as int == 65 && 'Z' as int == 90);
    if is_heading(s, upper) {
        assert forall|i: int| 0 <= i < upper.len() implies {
            ||| #[trigger] s[i] == upper[i]
            ||| 65 <= upper[i] as int <= 90 && s[i] as int == upper[i] as int + 32
        } by {
            lemma_code(s[i]);
            lemma_code(upper[i]);
        }
    }
    if same_letters(s, upper) {
        assert forall|i: int| 0 <= i < s.len() implies {
            ||| #[trigger] s[i] == upper[i]
            ||| 'A' <= upper[i] <= 'Z' && s[i] as u32 == upper[i] as u32 + 32
        } by {
            lemma_code(s[i]);
            lemma_code(upper[i]);
        }
    }
}

proof fn lemma_code(c: char)
    ensures
        c as u32 == c as int,
{
}

/// The sections are known by their headings, in any case: a name, a synopsis, and a
/// description, to which the commands of a widget count.
pub proof fn sections_are_known_by_their_headings(heading: Seq<char>)
    ensures
        same_letters(heading, seq!['N', 'A', 'M', 'E']) ==> section_of(heading) == Section::Name,
        same_letters(heading, seq!['S', 'Y', 'N', 'O', 'P', 'S', 'I', 'S']) ==> section_of(heading)
            == Section::Synopsis,
        same_letters(heading, "DESCRIPTION"@) || same_letters(heading, "WIDGET COMMAND"@)
            ==> section_of(heading) == Section::Description,
        !same_letters(heading, "NAME"@) && !same_letters(heading, "SYNOPSIS"@) && !same_letters(
            heading,
            "DESCRIPTION"@,
        ) && !same_letters(heading, "WIDGET COMMAND"@) ==> section_of(heading) == Section::Other,
{
    reveal_strlit("NAME");
    reveal_strlit("SYNOPSIS");
    reveal_strlit("DESCRIPTION");
    reveal_strlit("WIDGET COMMAND");
    assert("NAME"@ =~= seq!['N', 'A', 'M', 'E']);
    assert("SYNOPSIS"@ =~= seq!['S', 'Y', 'N', 'O', 'P', 'S', 'I', 'S']);
    assert("DESCRIPTION"@.len() == 11 && "WIDGET COMMAND"@.len() == 14);
    lemma_same_letters(heading, "NAME"@);
    lemma_same_letters(heading, "SYNOPSIS"@);
    lemma_same_letters(heading, "DESCRIPTION"@);
    lemma_same_letters(heading, "WIDGET COMMAND"@);
}

/// A comment says nothing, nor does a blank line.
pub proof fn comments_and_blank_lines_say_nothing(p: PageView, rest: Seq<char>, blank: Seq<char>)
    requires
        ends_in_ink(rest),
        forall|k: int| 0 <= k < blank.len() ==> white(#[trigger] blank[k]),
        !p.in_so,
    ensures
        page_line(p, seq!['.', '\\', '"'] + rest) == p,
        page_line(p, seq!['\'', '\\', '"'] + rest) == p,
        page_line(p, blank) == p,
{
    lemma_literals();
    let a = seq!['.', '\\', '"'];
    let z = seq!['\'', '\\', '"'];
    assert((a + rest).last() == rest.last() && (z + rest).last() == rest.last());
    assert((a + rest)[0] == '.' && (z + rest)[0] == '\'');
    assert('.' as u32 == 46 && '\'' as u32 == 39);
    lemma_line(a + rest);
    lemma_line(z + rest);
    lemma_begins(a, rest);
    lemma_begins(z, rest);
    crate::phrases::a_blank_line_is_trimmed_away(blank);
    let none = trim_end(blank);
    assert(none =~= seq![]);
    lemma_begins_not(none, ".\\\""@, 0);
    lemma_begins_not(none, "'\\\""@, 0);
    lemma_begins_not(none, ".TH "@, 0);
    lemma_begins_not(none, ".SH "@, 0);
    lemma_begins_not(none, ".SO"@, 0);
    lemma_begins_not(none, ".SE"@, 0);
    lemma_begins_not(none, ".OP "@, 0);
    lemma_begins_not(none, ".TP"@, 0);
    lemma_begins_not(none, "."@, 0);
    crate::phrases::white_space_is_trimmed_away(none);
}

/// The line behind the macro of a paragraph is its tag, and begins a subcommand if it
/// documents one; any other line of text goes to its section.
pub proof fn the_line_behind_the_macro_is_the_tag(p: PageView, line: Seq<char>)
    requires
        ends_in_ink(line),
        !white(line[0]),
        line[0] != '.',
        line[0] != '\'',
        !p.in_so,
    ensures
        p.tag && tagged(p.name, cleaned(line)) is None ==> page_line(p, line) == (PageView {
            tag: false,
            ..p
        }),
        p.tag ==> (tagged(p.name, cleaned(line)) matches Some(sub) ==> page_line(p, line) == (
        PageView { tag: false, tp: Some(sub), ..p })),
        !p.tag ==> page_line(p, line) == text_line(p, line),
{
    lemma_literals();
    lemma_line(line);
    lemma_begins_not(line, ".\\\""@, 0);
    lemma_begins_not(line, "'\\\""@, 0);
    lemma_begins_not(line, ".TH "@, 0);
    lemma_begins_not(line, ".SH "@, 0);
    lemma_begins_not(line, ".SO"@, 0);
    lemma_begins_not(line, ".SE"@, 0);
    lemma_begins_not(line, ".OP "@, 0);
    lemma_begins_not(line, ".TP"@, 0);
    lemma_begins_not(line, "."@, 0);
    crate::phrases::white_space_is_trimmed_away(line);
}

/// A subcommand that was being read is done: it is listed, with up to 300 bytes of its
/// documentation, unless one of that name and signature is there already.
pub proof fn a_subcommand_is_listed_once(p: PageView, sub: SubcommandView)
    requires
        p.tp == Some(sub),
    ensures
        tp_done(p).tp is None,
        (exists|i: int|
            0 <= i < p.subcommands.len() && (#[trigger] p.subcommands[i]).name == sub.name
                && p.subcommands[i].signature == sub.signature) ==> tp_done(p).subcommands
            == p.subcommands,
        !(exists|i: int|
            0 <= i < p.subcommands.len() && (#[trigger] p.subcommands[i]).name == sub.name
                && p.subcommands[i].signature == sub.signature) ==> tp_done(p).subcommands
            == p.subcommands.push(
            SubcommandView {
                name: sub.name,
                signature: sub.signature,
                doc: truncated(sub.doc, 300),
            },
        ),
        encode_utf8(trim(sub.doc)).len() <= 300 ==> truncated(sub.doc, 300) == trim(sub.doc),
        encode_utf8(trim(sub.doc)).len() > 300 ==> truncated(sub.doc, 300).len() > 0 && truncated(
            sub.doc,
            300,
        ).last() == '…',
{
}

proof fn lemma_quotes(s: Seq<char>, i: int, j: int)
    requires
        0 <= i <= j <= s.len(),
        forall|k: int| i <= k < j ==> #[trigger] s[k] == '"',
        j < s.len() ==> s[j] != '"',
    ensures
        crate::manpage::quotes_end(s, i) == j,
    decreases j - i,
{
    if i < j {
        assert(s[i] == '"');
        lemma_quotes(s, i + 1, j);
    }
}

proof fn lemma_quotes_back(s: Seq<char>, lo: int, j: int, n: int)
    requires
        0 <= lo < j <= n <= s.len(),
        forall|k: int| j <= k < n ==> #[trigger] s[k] == '"',
        s[j - 1] != '"',
    ensures
        crate::manpage::quotes_stop(s, lo, n) == j,
    decreases n - j,
{
    if j < n {
        assert(s[n - 1] == '"');
        lemma_quotes_back(s, lo, j, n - 1);
    }
}

/// A heading may stand in quotes, which are no part of it.
pub proof fn quotes_around_a_heading_are_dropped(s: Seq<char>, i: int, j: int)
    requires
        0 <= i < j <= s.len(),
        forall|k: int| 0 <= k < i ==> #[trigger] s[k] == '"',
        forall|k: int| j <= k < s.len() ==> #[trigger] s[k] == '"',
        s[i] != '"',
        s[j - 1] != '"',
    ensures
        unquoted(s) == s.subrange(i, j),
{
    lemma_quotes(s, 0, i);
    lemma_quotes_back(s, i, j, s.len() as int);
}

/// Of the words in a list of inherited options those count that begin with a dash.
pub proof fn inherited_flags_begin_with_a_dash(ws: Seq<Seq<char>>, k: int, f: Seq<char>)
    requires
        0 <= k <= ws.len(),
    ensures
        dashed_words(ws, k).contains(f) <==> exists|i: int|
            k <= i < ws.len() && f == #[trigger] ws[i] && f.len() > 0 && f[0] == '-',
    decreases ws.len() - k,
{
    if k < ws.len() {
        inherited_flags_begin_with_a_dash(ws, k + 1, f);
        let rest = dashed_words(ws, k + 1);
        if ws[k].len() > 0 && ws[k][0] == '-' {
            lemma_joined(seq![ws[k]], rest, f);
            assert(seq![ws[k]][0] == ws[k]);
        } else {
            assert(dashed_words(ws, k) =~= rest);
        }
    }
}

/// The flags that name one option are parted by `or`.
pub proof fn aliases_are_parted_by_or(
    fields: Seq<Seq<char>>,
    first: Seq<char>,
    second: Seq<char>,
)
    requires
        fields.len() > 0,
        fields[0] == first + seq![' ', 'o', 'r', ' '] + second,
        forall|k: int| 0 <= k < first.len() ==> #[trigger] first[k] != ' ',
        forall|k: int| 0 <= k < second.len() ==> #[trigger] second[k] != ' ',
    ensures
        flags_of(fields) == flags_among(seq![first, second], 0),
{
    reveal_strlit(" or ");
    let sep = seq![' ', 'o', 'r', ' '];
    assert(" or "@ =~= sep);
    let s = first + sep + second;
    let k = first.len() as int;
    assert(s.subrange(k, k + 4) =~= sep);
    assert forall|m: int| 0 <= m < k implies #[trigger] s[m] != sep[0] by {
        assert(s[m] == first[m]);
    }
    lemma_separator(s, 0, k, sep);
    assert(s.subrange(0, k) =~= first);
    assert forall|m: int| k + 4 <= m < s.len() implies #[trigger] s[m] != ' ' by {
        assert(s[m] == second[m - k - 4]);
    }
    lemma_no_space(s, k + 4, sep);
    assert(s.subrange(k + 4, s.len() as int) =~= second);
    reveal_with_fuel(crate::text::split_from, 2);
    assert(seq![first] + seq![second] =~= seq![first, second]);
}

proof fn lemma_no_space(s: Seq<char>, i: int, sep: Seq<char>)
    requires
        0 <= i,
        sep == seq![' ', 'o', 'r', ' '],
        forall|k: int| i <= k < s.len() ==> #[trigger] s[k] != ' ',
    ensures
        find_text(s, i, sep) is None,
    decreases s.len() - i + 1,
{
    if i + 4 <= s.len() {
        assert(s[i] != ' ');
        assert(s.subrange(i, i + 4)[0] == s[i]);
        lemma_no_space(s, i + 1, sep);
    }
}

} // verus!

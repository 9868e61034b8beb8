//! Putting the documented commands of many man pages together.
use vstd::prelude::*;
use vstd::string::StringExecFns;

use crate::kb::{
    command_names, option_views, subcommand_views, Command, CommandView, Kb, OptionSpec,
    OptionView, Subcommand,
};
use crate::manpage::{
    flags_distinct, has_flag, lemma_distinct_push, parse_page, parsed_page, Inherited,
    InheritedView,
};
use crate::text::{
    chars_of, lemma_text_less, matches_at, same_text, stands_at, text_less, text_precedes,
    texts,
};

verus! {

pub open spec fn command_views(v: Seq<Command>) -> Seq<CommandView> {
    v.map_values(|c: Command| c@)
}

pub open spec fn inherited_views(v: Seq<Inherited>) -> Seq<InheritedView> {
    v.map_values(|i: Inherited| i@)
}

// ------------------------------------------------------------------- sorting
/// Where an option goes among the first `n` sorted ones: behind those that do not
/// come after it.
pub open spec fn option_place(s: Seq<OptionView>, n: int, flag: Seq<char>) -> int
    decreases n,
{
    if 0 < n <= s.len() && text_less(flag, s[n - 1].flag) {
        option_place(s, n - 1, flag)
    } else {
        n
    }
}

/// The options in the order of their flags; those with one flag stay in order.
pub open spec fn sorted_options(s: Seq<OptionView>) -> Seq<OptionView>
    decreases s.len(),
{
    if s.len() == 0 {
        s
    } else {
        let r = sorted_options(s.drop_last());
        r.insert(option_place(r, r.len() as int, s.last().flag), s.last())
    }
}

pub open spec fn command_place(s: Seq<CommandView>, n: int, name: Seq<char>) -> int
    decreases n,
{
    if 0 < n <= s.len() && text_less(name, s[n - 1].name) {
        command_place(s, n - 1, name)
    } else {
        n
    }
}

/// The commands in the order of their names; those with one name stay in order.
pub open spec fn sorted_commands(s: Seq<CommandView>) -> Seq<CommandView>
    decreases s.len(),
{
    if s.len() == 0 {
        s
    } else {
        let r = sorted_commands(s.drop_last());
        r.insert(command_place(r, r.len() as int, s.last().name), s.last())
    }
}

/// The commands without those that repeat the name of the one before.
pub open spec fn deduped(s: Seq<CommandView>) -> Seq<CommandView>
    decreases s.len(),
{
    if s.len() <= 1 {
        s
    } else {
        let r = deduped(s.drop_last());
        if r.len() > 0 && r.last().name == s.last().name {
            r
        } else {
            r.push(s.last())
        }
    }
}

fn copy_option(o: &OptionSpec) -> (r: OptionSpec)
    ensures
        r@ == o@,
{
    OptionSpec {
        flag: o.flag.clone(),
        db_name: o.db_name.clone(),
        db_class: o.db_class.clone(),
        doc: o.doc.clone(),
        standard: o.standard,
    }
}

fn copy_options(v: &Vec<OptionSpec>) -> (out: Vec<OptionSpec>)
    ensures
        option_views(out@) == option_views(v@),
{
    let mut out: Vec<OptionSpec> = Vec::new();
    let mut i: usize = 0;
    while i < v.len()
        invariant
            i <= v@.len(),
            option_views(out@) =~= option_views(v@).take(i as int),
        decreases v@.len() - i,
    {
        let ghost was = out@;
        let o = copy_option(&v[i]);
        out.push(o);
        assert(option_views(out@) =~= option_views(was).push(o@));
        assert(option_views(v@)[i as int] == o@);
        i = i + 1;
    }
    assert(option_views(v@).take(i as int) =~= option_views(v@));
    out
}

fn copy_texts(v: &Vec<String>) -> (out: Vec<String>)
    ensures
        texts(out@) == texts(v@),
{
    let mut out: Vec<String> = Vec::new();
    let mut i: usize = 0;
    while i < v.len()
        invariant
            i <= v@.len(),
            texts(out@) =~= texts(v@).take(i as int),
        decreases v@.len() - i,
    {
        let ghost was = out@;
        let t = v[i].clone();
        out.push(t);
        assert(texts(out@) =~= texts(was).push(t@));
        assert(texts(v@)[i as int] == t@);
        i = i + 1;
    }
    assert(texts(v@).take(i as int) =~= texts(v@));
    out
}

fn copy_subcommands(v: &Vec<Subcommand>) -> (out: Vec<Subcommand>)
    ensures
        subcommand_views(out@) == subcommand_views(v@),
{
    let mut out: Vec<Subcommand> = Vec::new();
    let mut i: usize = 0;
    while i < v.len()
        invariant
            i <= v@.len(),
            subcommand_views(out@) =~= subcommand_views(v@).take(i as int),
        decreases v@.len() - i,
    {
        let ghost was = out@;
        let s = Subcommand {
            name: v[i].name.clone(),
            signature: v[i].signature.clone(),
            doc: v[i].doc.clone(),
        };
        out.push(s);
        assert(subcommand_views(out@) =~= subcommand_views(was).push(s@));
        assert(subcommand_views(v@)[i as int] == s@);
        i = i + 1;
    }
    assert(subcommand_views(v@).take(i as int) =~= subcommand_views(v@));
    out
}

fn with_options(c: &Command, options: Vec<OptionSpec>) -> (r: Command)
    ensures
        r@ == (CommandView { options: option_views(options@), ..c@ }),
{
    Command {
        name: c.name.clone(),
        summary: c.summary.clone(),
        synopsis: copy_texts(&c.synopsis),
        description: c.description.clone(),
        subcommands: copy_subcommands(&c.subcommands),
        options,
        package: c.package.clone(),
    }
}

fn copy_command(c: &Command) -> (r: Command)
    ensures
        r@ == c@,
{
    with_options(c, copy_options(&c.options))
}

fn sort_options(v: &Vec<OptionSpec>) -> (out: Vec<OptionSpec>)
    ensures
        option_views(out@) == sorted_options(option_views(v@)),
{
    let ghost all = option_views(v@);
    let mut out: Vec<OptionSpec> = Vec::new();
    let mut i: usize = 0;
    assert(option_views(out@) =~= sorted_options(all.take(0)));
    while i < v.len()
        invariant
            i <= v@.len(),
            all == option_views(v@),
            option_views(out@) == sorted_options(all.take(i as int)),
        decreases v@.len() - i,
    {
        let ghost was = option_views(out@);
        let o = copy_option(&v[i]);
        let mut at: usize = out.len();
        while at > 0 && text_precedes(o.flag.as_str(), out[at - 1].flag.as_str())
            invariant
                at <= out@.len(),
                was == option_views(out@),
                option_place(was, was.len() as int, o.flag@) == option_place(
                    was,
                    at as int,
                    o.flag@,
                ),
            decreases at,
        {
            assert(was[at - 1] == out@[at - 1]@);
            at = at - 1;
        }
        proof {
            if at > 0 {
                assert(was[at - 1] == out@[at - 1]@);
            }
            assert(all[i as int] == o@);
            assert(all.take(i + 1).drop_last() =~= all.take(i as int));
            assert(all.take(i + 1).last() == o@);
        }
        out.insert(at, o);
        assert(option_views(out@) =~= was.insert(at as int, o@));
        i = i + 1;
    }
    assert(all.take(i as int) =~= all);
    out
}

fn sort_commands(v: &Vec<Command>) -> (out: Vec<Command>)
    ensures
        command_views(out@) == sorted_commands(command_views(v@)),
{
    let ghost all = command_views(v@);
    let mut out: Vec<Command> = Vec::new();
    let mut i: usize = 0;
    assert(command_views(out@) =~= sorted_commands(all.take(0)));
    while i < v.len()
        invariant
            i <= v@.len(),
            all == command_views(v@),
            command_views(out@) == sorted_commands(all.take(i as int)),
        decreases v@.len() - i,
    {
        let ghost was = command_views(out@);
        let c = copy_command(&v[i]);
        let mut at: usize = out.len();
        while at > 0 && text_precedes(c.name.as_str(), out[at - 1].name.as_str())
            invariant
                at <= out@.len(),
                was == command_views(out@),
                command_place(was, was.len() as int, c.name@) == command_place(
                    was,
                    at as int,
                    c.name@,
                ),
            decreases at,
        {
            assert(was[at - 1] == out@[at - 1]@);
            at = at - 1;
        }
        proof {
            if at > 0 {
                assert(was[at - 1] == out@[at - 1]@);
            }
            assert(all[i as int] == c@);
            assert(all.take(i + 1).drop_last() =~= all.take(i as int));
            assert(all.take(i + 1).last() == c@);
        }
        out.insert(at, c);
        assert(command_views(out@) =~= was.insert(at as int, c@));
        i = i + 1;
    }
    assert(all.take(i as int) =~= all);
    out
}

proof fn lemma_deduped_nonempty(s: Seq<CommandView>)
    ensures
        s.len() > 0 ==> deduped(s).len() > 0,
    decreases s.len(),
{
    if s.len() > 1 {
        lemma_deduped_nonempty(s.drop_last());
    }
}

fn dedup_commands(v: &Vec<Command>) -> (out: Vec<Command>)
    ensures
        command_views(out@) == deduped(command_views(v@)),
{
    let ghost all = command_views(v@);
    let mut out: Vec<Command> = Vec::new();
    let mut i: usize = 0;
    assert(command_views(out@) =~= deduped(all.take(0)));
    while i < v.len()
        invariant
            i <= v@.len(),
            all == command_views(v@),
            command_views(out@) == deduped(all.take(i as int)),
        decreases v@.len() - i,
    {
        let ghost was = command_views(out@);
        let c = copy_command(&v[i]);
        proof {
            assert(all[i as int] == c@);
            assert(all.take(i + 1).drop_last() =~= all.take(i as int));
            assert(all.take(i + 1).last() == c@);
            if out@.len() > 0 {
                assert(was.last() == out@.last()@);
            }
            if i == 0 {
                assert(all.take(1) =~= Seq::<CommandView>::empty().push(c@));
                assert(was =~= Seq::<CommandView>::empty());
            } else {
                lemma_deduped_nonempty(all.take(i as int));
            }
        }
        let repeats = if out.len() > 0 {
            same_text(out[out.len() - 1].name.as_str(), c.name.as_str())
        } else {
            false
        };
        if !repeats {
            out.push(c);
            assert(command_views(out@) =~= was.push(c@));
        }
        i = i + 1;
    }
    assert(all.take(i as int) =~= all);
    out
}

// --------------------------------------------------------- inherited options
/// The name with each `::` written as `_`, from position `i` on: how the page of a
/// command is named.
pub open spec fn underscored(s: Seq<char>, i: int) -> Seq<char>
    decreases s.len() - i,
{
    if i < 0 || i >= s.len() {
        seq![]
    } else if matches_at(s, i, seq![':', ':']) {
        seq!['_'] + underscored(s, i + 2)
    } else {
        seq![s[i]] + underscored(s, i + 1)
    }
}

/// The options that a page documents: those of the last command, among the first
/// `n`, whose page has that name.
pub open spec fn page_options(commands: Seq<CommandView>, n: int, page: Seq<char>) -> Option<
    Seq<OptionView>,
>
    decreases n,
{
    if n <= 0 || n > commands.len() {
        None
    } else if underscored(commands[n - 1].name, 0) == page {
        Some(commands[n - 1].options)
    } else {
        page_options(commands, n - 1, page)
    }
}

/// The first option with that flag, from `i` on.
pub open spec fn option_at(options: Seq<OptionView>, i: int, flag: Seq<char>) -> Option<int>
    decreases options.len() - i,
{
    if i < 0 || i >= options.len() {
        None
    } else if options[i].flag == flag {
        Some(i)
    } else {
        option_at(options, i + 1, flag)
    }
}

/// An inherited option: as its page documents it, or the bare flag.
pub open spec fn standard_option(options: Option<Seq<OptionView>>, flag: Seq<char>) -> OptionView {
    let bare = OptionView {
        flag,
        db_name: seq![],
        db_class: seq![],
        doc: seq![],
        standard: true,
    };
    match options {
        Some(all) => match option_at(all, 0, flag) {
            Some(i) => OptionView { standard: true, ..all[i] },
            None => bare,
        },
        None => bare,
    }
}

/// The options with the inherited ones of the flags from `k` on added, where they
/// are not there already.
pub open spec fn with_standard(
    options: Seq<OptionView>,
    source: Option<Seq<OptionView>>,
    flags: Seq<Seq<char>>,
    k: int,
) -> Seq<OptionView>
    decreases flags.len() - k,
{
    if k < 0 || k >= flags.len() {
        options
    } else {
        with_standard(
            if has_flag(options, flags[k]) {
                options
            } else {
                options.push(standard_option(source, flags[k]))
            },
            source,
            flags,
            k + 1,
        )
    }
}

/// The first command of that name, from `i` on.
pub open spec fn command_at(commands: Seq<CommandView>, i: int, name: Seq<char>) -> Option<int>
    decreases commands.len() - i,
{
    if i < 0 || i >= commands.len() {
        None
    } else if commands[i].name == name {
        Some(i)
    } else {
        command_at(commands, i + 1, name)
    }
}

/// The commands with one block of inherited options resolved. Where an option is
/// documented is looked up in `pages`, the commands before any was resolved.
pub open spec fn inherit(
    commands: Seq<CommandView>,
    pages: Seq<CommandView>,
    block: InheritedView,
) -> Seq<CommandView> {
    match command_at(commands, 0, block.command) {
        Some(i) => {
            let source = page_options(pages, pages.len() as int, block.from_page);
            let options = with_standard(commands[i].options, source, block.flags, 0);
            commands.update(i, CommandView { options: sorted_options(options), ..commands[i] })
        },
        None => commands,
    }
}

/// The commands with the blocks from `k` on resolved.
pub open spec fn inherit_all(
    commands: Seq<CommandView>,
    pages: Seq<CommandView>,
    blocks: Seq<InheritedView>,
    k: int,
) -> Seq<CommandView>
    decreases blocks.len() - k,
{
    if k < 0 || k >= blocks.len() {
        commands
    } else {
        inherit_all(inherit(commands, pages, blocks[k]), pages, blocks, k + 1)
    }
}

fn page_name(name: &str) -> (r: String)
    ensures
        r@ == underscored(name@, 0),
{
    let s = chars_of(name);
    let c = crate::outline::colons();
    let mut out = String::new();
    let n: usize = s.len();
    let mut i: usize = 0;
    assert(out@ + underscored(s@, 0) =~= underscored(s@, 0));
    while i < n
        invariant
            i <= n == s@.len(),
            c@ == seq![':', ':'],
            underscored(s@, 0) == out@ + underscored(s@, i as int),
        decreases n - i,
    {
        let ghost before = out@;
        if stands_at(s.as_slice(), i, c.as_slice()) {
            out.push('_');
            proof {
                let rest = underscored(s@, i + 2);
                assert(before + (seq!['_'] + rest) =~= out@ + rest);
            }
            i = i + 2;
        } else {
            out.push(s[i]);
            proof {
                let rest = underscored(s@, i + 1);
                assert(before + (seq![s@[i as int]] + rest) =~= out@ + rest);
            }
            i = i + 1;
        }
    }
    assert(out@ + Seq::<char>::empty() =~= out@);
    out
}

spec fn option_seq(v: Option<&Vec<OptionSpec>>) -> Option<Seq<OptionView>> {
    match v {
        Some(o) => Some(option_views(o@)),
        None => None,
    }
}

fn options_of_page<'a>(commands: &'a Vec<Command>, page: &str) -> (r: Option<
    &'a Vec<OptionSpec>,
>)
    ensures
        option_seq(r) == page_options(
            command_views(commands@),
            commands@.len() as int,
            page@,
        ),
{
    let ghost all = command_views(commands@);
    let mut n: usize = commands.len();
    while n > 0
        invariant
            n <= commands@.len(),
            all == command_views(commands@),
            page_options(all, all.len() as int, page@) == page_options(all, n as int, page@),
        decreases n,
    {
        assert(all[n - 1] == commands@[n - 1]@);
        if same_text(page_name(commands[n - 1].name.as_str()).as_str(), page) {
            return Some(&commands[n - 1].options);
        }
        n = n - 1;
    }
    None
}

fn knows(options: &Vec<OptionSpec>, flag: &str) -> (r: bool)
    ensures
        r == has_flag(option_views(options@), flag@),
{
    find_option(options, flag).is_some()
}

fn find_option(options: &Vec<OptionSpec>, flag: &str) -> (r: Option<usize>)
    ensures
        match option_at(option_views(options@), 0, flag@) {
            Some(i) => r is Some && r->0 == i && 0 <= i < options@.len(),
            None => r is None,
        },
        r is Some == has_flag(option_views(options@), flag@),
{
    let ghost all = option_views(options@);
    let mut i: usize = 0;
    while i < options.len()
        invariant
            i <= options@.len(),
            all == option_views(options@),
            option_at(all, 0, flag@) == option_at(all, i as int, flag@),
            forall|k: int| 0 <= k < i ==> (#[trigger] all[k]).flag != flag@,
        decreases options@.len() - i,
    {
        assert(all[i as int] == options@[i as int]@);
        if same_text(options[i].flag.as_str(), flag) {
            return Some(i);
        }
        i = i + 1;
    }
    None
}

fn inherited_option(source: Option<&Vec<OptionSpec>>, flag: &str) -> (r: OptionSpec)
    ensures
        r@ == standard_option(option_seq(source), flag@),
{
    if let Some(all) = source {
        if let Some(i) = find_option(all, flag) {
            assert(option_views(all@)[i as int] == all@[i as int]@);
            let mut o = copy_option(&all[i]);
            o.standard = true;
            return o;
        }
    }
    let empty = String::new();
    assert(empty@ =~= seq![]);
    OptionSpec {
        flag: flag.to_owned(),
        db_name: empty.clone(),
        db_class: empty.clone(),
        doc: empty,
        standard: true,
    }
}

fn find_command(commands: &Vec<Command>, name: &str) -> (r: Option<usize>)
    ensures
        match command_at(command_views(commands@), 0, name@) {
            Some(i) => r is Some && r->0 == i && 0 <= i < commands@.len(),
            None => r is None,
        },
{
    let ghost all = command_views(commands@);
    let mut i: usize = 0;
    while i < commands.len()
        invariant
            i <= commands@.len(),
            all == command_views(commands@),
            command_at(all, 0, name@) == command_at(all, i as int, name@),
        decreases commands@.len() - i,
    {
        assert(all[i as int] == commands@[i as int]@);
        if same_text(commands[i].name.as_str(), name) {
            return Some(i);
        }
        i = i + 1;
    }
    None
}

/// Copies each inherited option's documentation in from the page that defines it,
/// so that a widget's option list is complete rather than only what its own page
/// happens to spell out.
pub fn resolve_standard_options(commands: &mut Vec<Command>, inherited: &[Inherited])
    ensures
        command_views(final(commands)@) == inherit_all(
            command_views(old(commands)@),
            command_views(old(commands)@),
            inherited_views(inherited@),
            0,
        ),
{
    let ghost first = command_views(commands@);
    let ghost blocks = inherited_views(inherited@);
    let mut pages: Vec<Command> = Vec::new();
    let mut p: usize = 0;
    while p < commands.len()
        invariant
            p <= commands@.len(),
            first == command_views(commands@),
            command_views(pages@) =~= first.take(p as int),
            commands@ == old(commands)@,
        decreases commands@.len() - p,
    {
        let ghost was = pages@;
        let c = copy_command(&commands[p]);
        pages.push(c);
        assert(command_views(pages@) =~= command_views(was).push(c@));
        assert(first[p as int] == c@);
        p = p + 1;
    }
    assert(first.take(p as int) =~= first);
    let mut k: usize = 0;
    while k < inherited.len()
        invariant
            k <= inherited@.len(),
            blocks == inherited_views(inherited@),
            first == command_views(pages@),
            inherit_all(first, first, blocks, 0) == inherit_all(
                command_views(commands@),
                first,
                blocks,
                k as int,
            ),
        decreases inherited@.len() - k,
    {
        let block = &inherited[k];
        let ghost now = command_views(commands@);
        assert(blocks[k as int] == block@);
        if let Some(i) = find_command(commands, block.command.as_str()) {
            let source = options_of_page(&pages, block.from_page.as_str());
            let mut options = copy_options(&commands[i].options);
            assert(now[i as int] == commands@[i as int]@);
            let ghost whole = with_standard(
                now[i as int].options,
                option_seq(source),
                block@.flags,
                0,
            );
            let mut m: usize = 0;
            while m < block.flags.len()
                invariant
                    m <= block.flags@.len(),
                    block@.flags == texts(block.flags@),
                    whole == with_standard(
                        option_views(options@),
                        option_seq(source),
                        block@.flags,
                        m as int,
                    ),
                decreases block.flags@.len() - m,
            {
                assert(block@.flags[m as int] == block.flags@[m as int]@);
                let flag = block.flags[m].as_str();
                if !knows(&options, flag) {
                    let ghost was = options@;
                    let o = inherited_option(source, flag);
                    options.push(o);
                    assert(option_views(options@) =~= option_views(was).push(o@));
                }
                m = m + 1;
            }
            let c = with_options(&commands[i], sort_options(&options));
            commands.set(i, c);
            assert(command_views(commands@) =~= now.update(i as int, c@));
        }
        k = k + 1;
    }
}

// -------------------------------------------------------------------- aliases
/// All options of the commands from `i` on.
pub open spec fn all_options(commands: Seq<CommandView>, i: int) -> Seq<OptionView>
    decreases commands.len() - i,
{
    if i < 0 || i >= commands.len() {
        seq![]
    } else {
        commands[i].options + all_options(commands, i + 1)
    }
}

pub open spec fn flag_place(s: Seq<Seq<char>>, n: int, flag: Seq<char>) -> int
    decreases n,
{
    if 0 < n <= s.len() && text_less(flag, s[n - 1]) {
        flag_place(s, n - 1, flag)
    } else {
        n
    }
}

/// The sorted flags with one more; one that is there already is not added.
pub open spec fn with_flag(s: Seq<Seq<char>>, flag: Seq<char>) -> Seq<Seq<char>> {
    if s.contains(flag) {
        s
    } else {
        s.insert(flag_place(s, s.len() as int, flag), flag)
    }
}

/// The names of one option: the flags of those of the first `n` options that have
/// its entry in the option database.
pub open spec fn flags_of_entry(
    all: Seq<OptionView>,
    n: int,
    db_name: Seq<char>,
    db_class: Seq<char>,
) -> Seq<Seq<char>>
    decreases n,
{
    if n <= 0 || n > all.len() {
        seq![]
    } else {
        let r = flags_of_entry(all, n - 1, db_name, db_class);
        if all[n - 1].db_name == db_name && all[n - 1].db_class == db_class {
            with_flag(r, all[n - 1].flag)
        } else {
            r
        }
    }
}

/// The aliases `add` of a command with those of option `o` under the flags from
/// `k` on.
pub open spec fn alias_options(
    options: Seq<OptionView>,
    o: OptionView,
    flags: Seq<Seq<char>>,
    k: int,
    add: Seq<OptionView>,
) -> Seq<OptionView>
    decreases flags.len() - k,
{
    if k < 0 || k >= flags.len() {
        add
    } else {
        alias_options(
            options,
            o,
            flags,
            k + 1,
            if has_flag(options, flags[k]) || has_flag(add, flags[k]) {
                add
            } else {
                add.push(OptionView { flag: flags[k], ..o })
            },
        )
    }
}

/// The aliases of a command's options from `i` on, behind those in `add`.
pub open spec fn alias_all(
    options: Seq<OptionView>,
    all: Seq<OptionView>,
    i: int,
    add: Seq<OptionView>,
) -> Seq<OptionView>
    decreases options.len() - i,
{
    if i < 0 || i >= options.len() {
        add
    } else {
        let o = options[i];
        alias_all(
            options,
            all,
            i + 1,
            if o.db_name.len() == 0 {
                add
            } else {
                alias_options(
                    options,
                    o,
                    flags_of_entry(all, all.len() as int, o.db_name, o.db_class),
                    0,
                    add,
                )
            },
        )
    }
}

/// A command with the aliases of its options, given all options there are.
pub open spec fn with_aliases(c: CommandView, all: Seq<OptionView>) -> CommandView {
    CommandView {
        options: sorted_options(c.options + alias_all(c.options, all, 0, seq![])),
        ..c
    }
}

/// The commands, each with the aliases of its options.
pub open spec fn aliased(commands: Seq<CommandView>) -> Seq<CommandView> {
    commands.map_values(|c: CommandView| with_aliases(c, all_options(commands, 0)))
}

fn gather_options(commands: &Vec<Command>) -> (out: Vec<OptionSpec>)
    ensures
        option_views(out@) == all_options(command_views(commands@), 0),
{
    let ghost all = command_views(commands@);
    let ghost whole = all_options(all, 0);
    let mut out: Vec<OptionSpec> = Vec::new();
    let mut i: usize = 0;
    assert(option_views(out@) + whole =~= whole);
    while i < commands.len()
        invariant
            i <= commands@.len(),
            all == command_views(commands@),
            whole == option_views(out@) + all_options(all, i as int),
        decreases commands@.len() - i,
    {
        let ghost was = option_views(out@);
        let mut copies = copy_options(&commands[i].options);
        let ghost mine = option_views(copies@);
        out.append(&mut copies);
        proof {
            assert(all[i as int] == commands@[i as int]@);
            assert(option_views(out@) =~= was + mine);
            let rest = all_options(all, i + 1);
            assert(was + (mine + rest) =~= (was + mine) + rest);
        }
        i = i + 1;
    }
    assert(option_views(out@) + Seq::<OptionView>::empty() =~= option_views(out@));
    out
}

fn entry_flags(all: &Vec<OptionSpec>, db_name: &str, db_class: &str) -> (out: Vec<String>)
    ensures
        texts(out@) == flags_of_entry(
            option_views(all@),
            all@.len() as int,
            db_name@,
            db_class@,
        ),
{
    let ghost views = option_views(all@);
    let mut out: Vec<String> = Vec::new();
    let mut n: usize = 0;
    assert(texts(out@) =~= seq![]);
    while n < all.len()
        invariant
            n <= all@.len(),
            views == option_views(all@),
            texts(out@) == flags_of_entry(views, n as int, db_name@, db_class@),
        decreases all@.len() - n,
    {
        assert(views[n as int] == all@[n as int]@);
        if same_text(all[n].db_name.as_str(), db_name) && same_text(
            all[n].db_class.as_str(),
            db_class,
        ) {
            let flag = all[n].flag.as_str();
            let ghost was = texts(out@);
            let mut at: usize = out.len();
            let mut known = false;
            while at > 0 && text_precedes(flag, out[at - 1].as_str())
                invariant
                    at <= out@.len(),
                    was == texts(out@),
                    flag_place(was, was.len() as int, flag@) == flag_place(
                        was,
                        at as int,
                        flag@,
                    ),
                decreases at,
            {
                assert(was[at - 1] == out@[at - 1]@);
                at = at - 1;
            }
            let mut i: usize = 0;
            while i < out.len()
                invariant
                    i <= out@.len(),
                    was == texts(out@),
                    known == exists|k: int| 0 <= k < i && #[trigger] was[k] == flag@,
                decreases out@.len() - i,
            {
                assert(was[i as int] == out@[i as int]@);
                if same_text(out[i].as_str(), flag) {
                    known = true;
                }
                i = i + 1;
            }
            proof {
                if at > 0 {
                    assert(was[at - 1] == out@[at - 1]@);
                }
                if known {
                    assert(was.contains(flag@));
                }
            }
            if !known {
                let f = flag.to_owned();
                out.insert(at, f);
                assert(texts(out@) =~= was.insert(at as int, flag@));
            }
        }
        n = n + 1;
    }
    out
}

fn aliases_for(options: &Vec<OptionSpec>, all: &Vec<OptionSpec>) -> (add: Vec<OptionSpec>)
    ensures
        option_views(add@) == alias_all(option_views(options@), option_views(all@), 0, seq![]),
{
    let ghost mine = option_views(options@);
    let ghost every = option_views(all@);
    let ghost whole = alias_all(mine, every, 0, seq![]);
    let mut add: Vec<OptionSpec> = Vec::new();
    let mut i: usize = 0;
    assert(option_views(add@) =~= seq![]);
    while i < options.len()
        invariant
            i <= options@.len(),
            mine == option_views(options@),
            every == option_views(all@),
            whole == alias_all(mine, every, i as int, option_views(add@)),
        decreases options@.len() - i,
    {
        let o = &options[i];
        assert(mine[i as int] == o@);
        if !o.db_name.as_str().is_empty() {
            let flags = entry_flags(all, o.db_name.as_str(), o.db_class.as_str());
            let ghost names = texts(flags@);
            let ghost here = alias_options(mine, o@, names, 0, option_views(add@));
            let mut k: usize = 0;
            while k < flags.len()
                invariant
                    k <= flags@.len(),
                    mine == option_views(options@),
                    names == texts(flags@),
                    here == alias_options(mine, o@, names, k as int, option_views(add@)),
                decreases flags@.len() - k,
            {
                assert(names[k as int] == flags@[k as int]@);
                let flag = flags[k].as_str();
                if !knows(options, flag) && !knows(&add, flag) {
                    let ghost was = add@;
                    let mut alias = copy_option(o);
                    alias.flag = flag.to_owned();
                    add.push(alias);
                    assert(option_views(add@) =~= option_views(was).push(alias@));
                }
                k = k + 1;
            }
        }
        i = i + 1;
    }
    add
}

/// Propagates documented option aliases across every command that takes them.
///
/// Tk records aliases inline on one page, but a widget that documents
/// `-background` on its own page never mentions `-bg`, even though it accepts it.
/// Two flags naming the same option-database entry are the same option, so
/// wherever one is valid the other is too.
pub fn apply_option_aliases(commands: &mut Vec<Command>)
    ensures
        command_views(final(commands)@) == aliased(command_views(old(commands)@)),
{
    let ghost first = command_views(commands@);
    let all = gather_options(commands);
    let ghost every = all_options(first, 0);
    let ghost target = first.map_values(|c: CommandView| with_aliases(c, every));
    let mut out: Vec<Command> = Vec::new();
    let mut i: usize = 0;
    while i < commands.len()
        invariant
            i <= commands@.len(),
            first == command_views(commands@),
            every == option_views(all@),
            target == first.map_values(|c: CommandView| with_aliases(c, every)),
            command_views(out@) =~= target.take(i as int),
            commands@ == old(commands)@,
        decreases commands@.len() - i,
    {
        let ghost was = out@;
        let c = &commands[i];
        assert(first[i as int] == c@);
        let mut options = copy_options(&c.options);
        let mut add = aliases_for(&options, &all);
        let ghost mine = option_views(options@);
        let ghost more = option_views(add@);
        options.append(&mut add);
        assert(option_views(options@) =~= mine + more);
        let changed = with_options(c, sort_options(&options));
        out.push(changed);
        assert(command_views(out@) =~= command_views(was).push(changed@));
        assert(target[i as int] == changed@);
        i = i + 1;
    }
    assert(target.take(i as int) =~= target);
    *commands = out;
}

// ------------------------------------------------------------------- assembly
/// Adds what one man page documents, if anything.
pub fn add_page(
    text: &str,
    package: &str,
    commands: &mut Vec<Command>,
    inherited: &mut Vec<Inherited>,
)
    ensures
        match parsed_page(text@, package@) {
            Some((c, block)) => {
                &&& command_views(final(commands)@) == command_views(old(commands)@).push(c)
                &&& inherited_views(final(inherited)@) == (match block {
                    Some(b) => inherited_views(old(inherited)@).push(
                        InheritedView { command: c.name, ..b },
                    ),
                    None => inherited_views(old(inherited)@),
                })
            },
            None => final(commands)@ == old(commands)@ && final(inherited)@ == old(inherited)@,
        },
{
    if let Some((cmd, block)) = parse_page(text, package) {
        if let Some(b) = block {
            let named = Inherited {
                command: cmd.name.clone(),
                from_page: b.from_page,
                flags: b.flags,
            };
            inherited.push(named);
            assert(inherited_views(inherited@) =~= inherited_views(old(inherited)@).push(named@));
        }
        commands.push(cmd);
        assert(command_views(commands@) =~= command_views(old(commands)@).push(cmd@));
    }
}

/// The commands of a database, from those of its pages: by name, each name once,
/// with inherited options and aliases resolved.
pub open spec fn assembled(commands: Seq<CommandView>, blocks: Seq<InheritedView>) -> Seq<
    CommandView,
> {
    let distinct = deduped(sorted_commands(commands));
    let complete = inherit_all(distinct, distinct, blocks, 0);
    aliased(complete)
}

/// Builds the database of one version from the commands of its pages.
pub fn assemble(version: &str, commands: &Vec<Command>, inherited: &[Inherited]) -> (kb: Kb)
    ensures
        kb.version@ == version@,
        command_views(kb.commands@) == assembled(
            command_views(commands@),
            inherited_views(inherited@),
        ),
        kb.names() == command_names(kb.commands@),
        kb.searchable(),
{
    let sorted = sort_commands(commands);
    let mut distinct = dedup_commands(&sorted);
    resolve_standard_options(&mut distinct, inherited);
    apply_option_aliases(&mut distinct);
    Kb::new(version, distinct)
}

// ----------------------------------------------------------------------- laws
proof fn lemma_option_place(s: Seq<OptionView>, n: int, flag: Seq<char>)
    requires
        0 <= n <= s.len(),
    ensures
        0 <= option_place(s, n, flag) <= n,
        option_place(s, n, flag) > 0 ==> !text_less(flag, s[option_place(s, n, flag) - 1].flag),
        forall|i: int|
            option_place(s, n, flag) <= i < n ==> text_less(flag, (#[trigger] s[i]).flag),
    decreases n,
{
    if n > 0 && text_less(flag, s[n - 1].flag) {
        lemma_option_place(s, n - 1, flag);
    }
}

/// Whether options stand in the order of their flags.
pub open spec fn by_flag(s: Seq<OptionView>) -> bool {
    forall|i: int, j: int|
        0 <= i < j < s.len() ==> !text_less((#[trigger] s[j]).flag, (#[trigger] s[i]).flag)
}

/// Sorting puts the options in the order of their flags, and neither adds nor drops
/// any.
pub proof fn sorting_orders_the_options(s: Seq<OptionView>)
    ensures
        by_flag(sorted_options(s)),
        sorted_options(s).to_multiset() == s.to_multiset(),
        sorted_options(s).len() == s.len(),
    decreases s.len(),
{
    broadcast use vstd::seq_lib::group_to_multiset_ensures;

    if s.len() > 0 {
        let x = s.last();
        let r = sorted_options(s.drop_last());
        sorting_orders_the_options(s.drop_last());
        lemma_option_place(r, r.len() as int, x.flag);
        let at = option_place(r, r.len() as int, x.flag);
        let now = r.insert(at, x);
        lemma_text_less();
        assert forall|i: int, j: int| 0 <= i < j < now.len() implies !text_less(
            (#[trigger] now[j]).flag,
            (#[trigger] now[i]).flag,
        ) by {
            if i < at && j < at {
                assert(now[i] == r[i] && now[j] == r[j]);
            } else if i < at && j == at {
                assert(now[i] == r[i]);
                if i < at - 1 {
                    assert(!text_less(r[at - 1].flag, r[i].flag));
                }
            } else if i < at {
                assert(now[i] == r[i] && now[j] == r[j - 1]);
            } else if i == at {
                assert(now[j] == r[j - 1]);
                assert(text_less(x.flag, r[j - 1].flag));
            } else {
                assert(now[i] == r[i - 1] && now[j] == r[j - 1]);
            }
        }
        assert(s =~= s.drop_last().push(x));
        vstd::seq_lib::to_multiset_insert(r, at, x);
        vstd::seq_lib::to_multiset_build(s.drop_last(), x);
    }
}

proof fn lemma_sorted_has_flag(s: Seq<OptionView>, flag: Seq<char>)
    ensures
        has_flag(sorted_options(s), flag) == has_flag(s, flag),
{
    broadcast use vstd::seq_lib::group_to_multiset_ensures;

    sorting_orders_the_options(s);
    let t = sorted_options(s);
    if has_flag(s, flag) {
        let i = choose|i: int| 0 <= i < s.len() && (#[trigger] s[i]).flag == flag;
        assert(s.contains(s[i]));
        assert(s.to_multiset().count(s[i]) > 0);
        assert(t.contains(s[i]));
        let k = choose|k: int| 0 <= k < t.len() && t[k] == s[i];
        assert(t[k].flag == flag);
    }
    if has_flag(t, flag) {
        let i = choose|i: int| 0 <= i < t.len() && (#[trigger] t[i]).flag == flag;
        assert(t.contains(t[i]));
        assert(t.to_multiset().count(t[i]) > 0);
        assert(s.contains(t[i]));
        let k = choose|k: int| 0 <= k < s.len() && s[k] == t[i];
        assert(s[k].flag == flag);
    }
}

proof fn lemma_has_flag_push(s: Seq<OptionView>, o: OptionView)
    ensures
        forall|f: Seq<char>| #[trigger] has_flag(s.push(o), f) == (has_flag(s, f) || o.flag == f),
{
    let t = s.push(o);
    assert forall|f: Seq<char>| #[trigger] has_flag(t, f) == (has_flag(s, f) || o.flag == f) by {
        if has_flag(s, f) {
            let i = choose|i: int| 0 <= i < s.len() && (#[trigger] s[i]).flag == f;
            assert(t[i].flag == f);
        }
        if o.flag == f {
            assert(t[s.len() as int].flag == f);
        }
        if has_flag(t, f) {
            let i = choose|i: int| 0 <= i < t.len() && (#[trigger] t[i]).flag == f;
            if i < s.len() {
                assert(s[i].flag == f);
            }
        }
    }
}

proof fn lemma_with_standard(
    options: Seq<OptionView>,
    source: Option<Seq<OptionView>>,
    flags: Seq<Seq<char>>,
    k: int,
)
    requires
        0 <= k <= flags.len(),
    ensures
        forall|f: Seq<char>|
            has_flag(options, f) ==> #[trigger] has_flag(
                with_standard(options, source, flags, k),
                f,
            ),
        forall|i: int|
            k <= i < flags.len() ==> has_flag(
                with_standard(options, source, flags, k),
                #[trigger] flags[i],
            ),
    decreases flags.len() - k,
{
    if k < flags.len() {
        let o = standard_option(source, flags[k]);
        lemma_standard_flag(source, flags[k]);
        lemma_has_flag_push(options, o);
        let next = if has_flag(options, flags[k]) {
            options
        } else {
            options.push(o)
        };
        assert(has_flag(options.push(o), flags[k]));
        assert(has_flag(next, flags[k]));
        lemma_with_standard(next, source, flags, k + 1);
        let all = with_standard(options, source, flags, k);
        assert(all == with_standard(next, source, flags, k + 1));
        assert forall|f: Seq<char>| has_flag(options, f) implies #[trigger] has_flag(all, f) by {
            assert(has_flag(options.push(o), f));
            assert(has_flag(next, f));
        }
        assert forall|i: int| k <= i < flags.len() implies has_flag(all, #[trigger] flags[i]) by {
            if i == k {
                assert(has_flag(next, flags[k]));
            }
        }
    }
}

proof fn lemma_standard_flag(source: Option<Seq<OptionView>>, flag: Seq<char>)
    ensures
        standard_option(source, flag).flag == flag,
{
    if let Some(all) = source {
        lemma_option_at(all, 0, flag);
    }
}

proof fn lemma_option_at(options: Seq<OptionView>, i: int, flag: Seq<char>)
    ensures
        option_at(options, i, flag) matches Some(k) ==> 0 <= k < options.len() && options[k].flag
            == flag,
    decreases options.len() - i,
{
    if 0 <= i < options.len() && options[i].flag != flag {
        lemma_option_at(options, i + 1, flag);
    }
}

/// A widget accepts the options that its page says it inherits, and keeps its own.
pub proof fn inherited_options_are_accepted(
    commands: Seq<CommandView>,
    pages: Seq<CommandView>,
    block: InheritedView,
    at: int,
)
    requires
        command_at(commands, 0, block.command) == Some(at),
        0 <= at < commands.len(),
    ensures
        forall|i: int|
            0 <= i < block.flags.len() ==> has_flag(
                inherit(commands, pages, block)[at].options,
                #[trigger] block.flags[i],
            ),
        forall|f: Seq<char>|
            has_flag(commands[at].options, f) ==> #[trigger] has_flag(
                inherit(commands, pages, block)[at].options,
                f,
            ),
{
    let source = page_options(pages, pages.len() as int, block.from_page);
    let options = with_standard(commands[at].options, source, block.flags, 0);
    lemma_with_standard(commands[at].options, source, block.flags, 0);
    assert forall|f: Seq<char>| #[trigger] has_flag(sorted_options(options), f) == has_flag(
        options,
        f,
    ) by {
        lemma_sorted_has_flag(options, f);
    }
}

proof fn lemma_alias_options(
    options: Seq<OptionView>,
    o: OptionView,
    flags: Seq<Seq<char>>,
    k: int,
    add: Seq<OptionView>,
)
    requires
        0 <= k <= flags.len(),
    ensures
        forall|f: Seq<char>|
            has_flag(add, f) ==> #[trigger] has_flag(
                alias_options(options, o, flags, k, add),
                f,
            ),
        forall|i: int|
            k <= i < flags.len() ==> has_flag(options, #[trigger] flags[i]) || has_flag(
                alias_options(options, o, flags, k, add),
                flags[i],
            ),
    decreases flags.len() - k,
{
    if k < flags.len() {
        let alias = OptionView { flag: flags[k], ..o };
        lemma_has_flag_push(add, alias);
        let next = if has_flag(options, flags[k]) || has_flag(add, flags[k]) {
            add
        } else {
            add.push(alias)
        };
        lemma_alias_options(options, o, flags, k + 1, next);
        let all = alias_options(options, o, flags, k, add);
        assert(all == alias_options(options, o, flags, k + 1, next));
        assert forall|f: Seq<char>| has_flag(add, f) implies #[trigger] has_flag(all, f) by {
            assert(has_flag(add.push(alias), f));
            assert(has_flag(next, f));
        }
        assert forall|i: int| k <= i < flags.len() implies has_flag(options, #[trigger] flags[i])
            || has_flag(all, flags[i]) by {
            if i == k {
                assert(has_flag(add.push(alias), flags[k]));
                assert(has_flag(options, flags[k]) || has_flag(next, flags[k]));
            }
        }
    }
}

proof fn lemma_alias_all(
    options: Seq<OptionView>,
    all: Seq<OptionView>,
    i: int,
    add: Seq<OptionView>,
    at: int,
    flag: Seq<char>,
)
    requires
        0 <= i <= options.len(),
        i <= at < options.len(),
        options[at].db_name.len() > 0,
        flags_of_entry(
            all,
            all.len() as int,
            options[at].db_name,
            options[at].db_class,
        ).contains(flag),
    ensures
        has_flag(options, flag) || has_flag(alias_all(options, all, i, add), flag),
    decreases options.len() - i,
{
    let o = options[i];
    let flags = flags_of_entry(all, all.len() as int, o.db_name, o.db_class);
    let next = if o.db_name.len() == 0 {
        add
    } else {
        alias_options(options, o, flags, 0, add)
    };
    if i == at {
        lemma_alias_options(options, o, flags, 0, add);
        let k = choose|k: int| 0 <= k < flags.len() && flags[k] == flag;
        assert(has_flag(options, flags[k]) || has_flag(next, flags[k]));
        lemma_alias_keeps(options, all, i + 1, next, flag);
    } else {
        lemma_alias_all(options, all, i + 1, next, at, flag);
    }
}

proof fn lemma_alias_keeps(
    options: Seq<OptionView>,
    all: Seq<OptionView>,
    i: int,
    add: Seq<OptionView>,
    flag: Seq<char>,
)
    requires
        0 <= i <= options.len(),
    ensures
        has_flag(add, flag) ==> has_flag(alias_all(options, all, i, add), flag),
    decreases options.len() - i,
{
    if i < options.len() {
        let o = options[i];
        let flags = flags_of_entry(all, all.len() as int, o.db_name, o.db_class);
        lemma_alias_options(options, o, flags, 0, add);
        lemma_alias_keeps(
            options,
            all,
            i + 1,
            if o.db_name.len() == 0 {
                add
            } else {
                alias_options(options, o, flags, 0, add)
            },
            flag,
        );
    }
}

proof fn lemma_flag_place(s: Seq<Seq<char>>, n: int, flag: Seq<char>)
    requires
        0 <= n <= s.len(),
    ensures
        0 <= flag_place(s, n, flag) <= n,
    decreases n,
{
    if n > 0 && text_less(flag, s[n - 1]) {
        lemma_flag_place(s, n - 1, flag);
    }
}

proof fn lemma_entry_flags(all: Seq<OptionView>, n: int, k: int)
    requires
        0 <= k < n <= all.len(),
    ensures
        flags_of_entry(all, n, all[k].db_name, all[k].db_class).contains(all[k].flag),
    decreases n,
{
    let o = all[k];
    let x = all[n - 1];
    let r = flags_of_entry(all, n - 1, o.db_name, o.db_class);
    let now = flags_of_entry(all, n, o.db_name, o.db_class);
    lemma_flag_place(r, r.len() as int, x.flag);
    let at = flag_place(r, r.len() as int, x.flag);
    if k < n - 1 {
        lemma_entry_flags(all, n - 1, k);
        let i = choose|i: int| 0 <= i < r.len() && r[i] == o.flag;
        if now != r {
            let j = if i < at {
                i
            } else {
                i + 1
            };
            assert(now[j] == r[i]);
        }
    } else if !r.contains(x.flag) {
        assert(now[at] == x.flag);
    }
}

/// Wherever an option is valid, every flag that names the same entry of the option
/// database on any page is valid too.
pub proof fn aliases_are_accepted_together(
    c: CommandView,
    all: Seq<OptionView>,
    i: int,
    k: int,
)
    requires
        0 <= i < c.options.len(),
        0 <= k < all.len(),
        c.options[i].db_name.len() > 0,
        c.options[i].db_name == all[k].db_name,
        c.options[i].db_class == all[k].db_class,
    ensures
        has_flag(with_aliases(c, all).options, all[k].flag),
{
    lemma_entry_flags(all, all.len() as int, k);
    lemma_alias_all(c.options, all, 0, seq![], i, all[k].flag);
    let add = alias_all(c.options, all, 0, seq![]);
    let both = c.options + add;
    let flag = all[k].flag;
    if has_flag(c.options, flag) {
        let m = choose|m: int| 0 <= m < c.options.len() && (#[trigger] c.options[m]).flag == flag;
        assert(both[m].flag == flag);
    } else {
        let m = choose|m: int| 0 <= m < add.len() && (#[trigger] add[m]).flag == flag;
        assert(both[c.options.len() + m].flag == flag);
    }
    lemma_sorted_has_flag(both, flag);
}

proof fn lemma_distinct_sorted(s: Seq<OptionView>)
    requires
        flags_distinct(s),
    ensures
        flags_distinct(sorted_options(s)),
    decreases s.len(),
{
    if s.len() > 0 {
        let x = s.last();
        let front = s.drop_last();
        let r = sorted_options(front);
        assert forall|i: int, j: int| 0 <= i < j < front.len() implies (#[trigger] front[i]).flag
            != (#[trigger] front[j]).flag by {
            assert(front[i] == s[i] && front[j] == s[j]);
        }
        lemma_distinct_sorted(front);
        lemma_sorted_has_flag(front, x.flag);
        if has_flag(front, x.flag) {
            let i = choose|i: int| 0 <= i < front.len() && (#[trigger] front[i]).flag == x.flag;
            assert(s[i].flag == s[s.len() - 1].flag);
        }
        lemma_option_place(r, r.len() as int, x.flag);
        let at = option_place(r, r.len() as int, x.flag);
        let now = r.insert(at, x);
        assert forall|i: int, j: int| 0 <= i < j < now.len() implies (#[trigger] now[i]).flag != (
        #[trigger] now[j]).flag by {
            let a = if i < at {
                i
            } else {
                i - 1
            };
            let z = if j < at {
                j
            } else {
                j - 1
            };
            if i != at {
                assert(now[i] == r[a]);
            }
            if j != at {
                assert(now[j] == r[z]);
            }
            if i == at {
                assert(r[z].flag != x.flag);
            } else if j == at {
                assert(r[a].flag != x.flag);
            } else {
                assert(r[a].flag != r[z].flag);
            }
        }
    }
}

proof fn lemma_distinct_standard(
    options: Seq<OptionView>,
    source: Option<Seq<OptionView>>,
    flags: Seq<Seq<char>>,
    k: int,
)
    requires
        flags_distinct(options),
    ensures
        flags_distinct(with_standard(options, source, flags, k)),
    decreases flags.len() - k,
{
    if 0 <= k < flags.len() {
        let o = standard_option(source, flags[k]);
        lemma_standard_flag(source, flags[k]);
        if !has_flag(options, flags[k]) {
            lemma_distinct_push(options, o);
            lemma_distinct_standard(options.push(o), source, flags, k + 1);
        } else {
            lemma_distinct_standard(options, source, flags, k + 1);
        }
    }
}

proof fn lemma_distinct_alias(
    options: Seq<OptionView>,
    o: OptionView,
    flags: Seq<Seq<char>>,
    k: int,
    add: Seq<OptionView>,
)
    requires
        flags_distinct(options + add),
    ensures
        flags_distinct(options + alias_options(options, o, flags, k, add)),
    decreases flags.len() - k,
{
    if 0 <= k < flags.len() {
        let alias = OptionView { flag: flags[k], ..o };
        if has_flag(options, flags[k]) || has_flag(add, flags[k]) {
            lemma_distinct_alias(options, o, flags, k + 1, add);
        } else {
            let both = options + add;
            if has_flag(both, alias.flag) {
                let i = choose|i: int|
                    0 <= i < both.len() && (#[trigger] both[i]).flag == alias.flag;
                if i < options.len() {
                    assert(options[i].flag == alias.flag);
                } else {
                    assert(add[i - options.len()].flag == alias.flag);
                }
            }
            lemma_distinct_push(both, alias);
            assert(both.push(alias) =~= options + add.push(alias));
            lemma_distinct_alias(options, o, flags, k + 1, add.push(alias));
        }
    }
}

proof fn lemma_distinct_aliases(
    options: Seq<OptionView>,
    all: Seq<OptionView>,
    i: int,
    add: Seq<OptionView>,
)
    requires
        flags_distinct(options + add),
    ensures
        flags_distinct(options + alias_all(options, all, i, add)),
    decreases options.len() - i,
{
    if 0 <= i < options.len() {
        let o = options[i];
        if o.db_name.len() == 0 {
            lemma_distinct_aliases(options, all, i + 1, add);
        } else {
            let flags = flags_of_entry(all, all.len() as int, o.db_name, o.db_class);
            lemma_distinct_alias(options, o, flags, 0, add);
            lemma_distinct_aliases(
                options,
                all,
                i + 1,
                alias_options(options, o, flags, 0, add),
            );
        }
    }
}

proof fn lemma_command_at(commands: Seq<CommandView>, i: int, name: Seq<char>)
    ensures
        command_at(commands, i, name) matches Some(k) ==> 0 <= k < commands.len(),
    decreases commands.len() - i,
{
    if 0 <= i < commands.len() && commands[i].name != name {
        lemma_command_at(commands, i + 1, name);
    }
}

/// Resolving inherited options and aliases lists no option twice.
pub proof fn no_option_is_listed_twice(
    commands: Seq<CommandView>,
    pages: Seq<CommandView>,
    block: InheritedView,
    all: Seq<OptionView>,
    k: int,
)
    requires
        forall|i: int| 0 <= i < commands.len() ==> flags_distinct((#[trigger] commands[i]).options),
        0 <= k < commands.len(),
    ensures
        flags_distinct(inherit(commands, pages, block)[k].options),
        flags_distinct(with_aliases(commands[k], all).options),
{
    assert(flags_distinct(commands[k].options));
    lemma_command_at(commands, 0, block.command);
    if let Some(i) = command_at(commands, 0, block.command) {
        if i == k {
            let source = page_options(pages, pages.len() as int, block.from_page);
            lemma_distinct_standard(commands[k].options, source, block.flags, 0);
            lemma_distinct_sorted(
                with_standard(commands[k].options, source, block.flags, 0),
            );
        }
    }
    let c = commands[k];
    let none = Seq::<OptionView>::empty();
    assert(c.options + none =~= c.options);
    lemma_distinct_aliases(c.options, all, 0, none);
    lemma_distinct_sorted(c.options + alias_all(c.options, all, 0, none));
}

/// Whether the names of commands ascend.
pub open spec fn names_ascend(s: Seq<CommandView>, strictly: bool) -> bool {
    forall|i: int, j: int|
        0 <= i < j < s.len() ==> if strictly {
            text_less((#[trigger] s[i]).name, (#[trigger] s[j]).name)
        } else {
            !text_less(s[j].name, s[i].name)
        }
}

proof fn lemma_command_place(s: Seq<CommandView>, n: int, name: Seq<char>)
    requires
        0 <= n <= s.len(),
    ensures
        0 <= command_place(s, n, name) <= n,
        command_place(s, n, name) > 0 ==> !text_less(name, s[command_place(s, n, name) - 1].name),
        forall|i: int|
            command_place(s, n, name) <= i < n ==> text_less(name, (#[trigger] s[i]).name),
    decreases n,
{
    if n > 0 && text_less(name, s[n - 1].name) {
        lemma_command_place(s, n - 1, name);
    }
}

proof fn lemma_sorted_commands(s: Seq<CommandView>)
    ensures
        names_ascend(sorted_commands(s), false),
    decreases s.len(),
{
    if s.len() > 0 {
        let x = s.last();
        let r = sorted_commands(s.drop_last());
        lemma_sorted_commands(s.drop_last());
        lemma_command_place(r, r.len() as int, x.name);
        let at = command_place(r, r.len() as int, x.name);
        let now = r.insert(at, x);
        lemma_text_less();
        assert forall|i: int, j: int| 0 <= i < j < now.len() implies !text_less(
            (#[trigger] now[j]).name,
            (#[trigger] now[i]).name,
        ) by {
            if i < at && j < at {
                assert(now[i] == r[i] && now[j] == r[j]);
            } else if i < at && j == at {
                assert(now[i] == r[i]);
                if i < at - 1 {
                    assert(!text_less(r[at - 1].name, r[i].name));
                }
            } else if i < at {
                assert(now[i] == r[i] && now[j] == r[j - 1]);
            } else if i == at {
                assert(now[j] == r[j - 1]);
                assert(text_less(x.name, r[j - 1].name));
            } else {
                assert(now[i] == r[i - 1] && now[j] == r[j - 1]);
            }
        }
    }
}

proof fn lemma_deduped(s: Seq<CommandView>)
    requires
        names_ascend(s, false),
    ensures
        names_ascend(deduped(s), true),
        s.len() > 0 ==> deduped(s).len() > 0 && deduped(s).last().name == s.last().name,
    decreases s.len(),
{
    if s.len() > 1 {
        let front = s.drop_last();
        let x = s.last();
        assert forall|i: int, j: int| 0 <= i < j < front.len() implies !text_less(
            (#[trigger] front[j]).name,
            (#[trigger] front[i]).name,
        ) by {
            assert(front[i] == s[i] && front[j] == s[j]);
        }
        lemma_deduped(front);
        let r = deduped(front);
        lemma_text_less();
        if r.last().name != x.name {
            let now = r.push(x);
            assert(front.last() == s[s.len() - 2]);
            assert(!text_less(x.name, s[s.len() - 2].name));
            assert forall|i: int, j: int| 0 <= i < j < now.len() implies text_less(
                (#[trigger] now[i]).name,
                (#[trigger] now[j]).name,
            ) by {
                assert(now[i] == r[i]);
                if j < r.len() {
                    assert(now[j] == r[j]);
                } else if i < r.len() - 1 {
                    assert(text_less(r[i].name, r[r.len() - 1].name));
                }
            }
        }
    }
}

proof fn lemma_inherit_names(
    commands: Seq<CommandView>,
    pages: Seq<CommandView>,
    blocks: Seq<InheritedView>,
    k: int,
)
    ensures
        inherit_all(commands, pages, blocks, k).len() == commands.len(),
        forall|i: int|
            0 <= i < commands.len() ==> (#[trigger] inherit_all(
                commands,
                pages,
                blocks,
                k,
            )[i]).name == commands[i].name,
    decreases blocks.len() - k,
{
    if 0 <= k < blocks.len() {
        let next = inherit(commands, pages, blocks[k]);
        lemma_command_at(commands, 0, blocks[k].command);
        lemma_inherit_names(next, pages, blocks, k + 1);
        let all = inherit_all(commands, pages, blocks, k);
        assert forall|i: int| 0 <= i < commands.len() implies (#[trigger] all[i]).name
            == commands[i].name by {
            assert(next[i].name == commands[i].name);
        }
    }
}

/// A database has each command once, in the order of the names.
pub proof fn each_command_is_there_once(commands: Seq<CommandView>, blocks: Seq<InheritedView>)
    ensures
        names_ascend(assembled(commands, blocks), true),
{
    let distinct = deduped(sorted_commands(commands));
    lemma_sorted_commands(commands);
    lemma_deduped(sorted_commands(commands));
    lemma_inherit_names(distinct, distinct, blocks, 0);
    let complete = inherit_all(distinct, distinct, blocks, 0);
    let all = assembled(commands, blocks);
    assert forall|i: int, j: int| 0 <= i < j < all.len() implies text_less(
        (#[trigger] all[i]).name,
        (#[trigger] all[j]).name,
    ) by {
        assert(all[i].name == complete[i].name);
        assert(all[j].name == complete[j].name);
        assert(text_less(distinct[i].name, distinct[j].name));
    }
}

proof fn lemma_command_at_names(a: Seq<CommandView>, z: Seq<CommandView>, i: int, name: Seq<char>)
    requires
        a.len() == z.len(),
        forall|k: int| 0 <= k < a.len() ==> (#[trigger] z[k]).name == a[k].name,
    ensures
        command_at(a, i, name) == command_at(z, i, name),
    decreases a.len() - i,
{
    if 0 <= i < a.len() {
        assert(z[i].name == a[i].name);
        lemma_command_at_names(a, z, i + 1, name);
    }
}

/// Resolving one block drops no option of any command.
proof fn lemma_inherit_keeps(
    commands: Seq<CommandView>,
    pages: Seq<CommandView>,
    block: InheritedView,
    at: int,
    flag: Seq<char>,
)
    requires
        0 <= at < commands.len(),
        has_flag(commands[at].options, flag),
    ensures
        inherit(commands, pages, block).len() == commands.len(),
        has_flag(inherit(commands, pages, block)[at].options, flag),
{
    lemma_command_at(commands, 0, block.command);
    if let Some(i) = command_at(commands, 0, block.command) {
        if i == at {
            inherited_options_are_accepted(commands, pages, block, at);
            assert(has_flag(inherit(commands, pages, block)[at].options, flag));
        }
    }
}

proof fn lemma_inherit_all_keeps(
    commands: Seq<CommandView>,
    pages: Seq<CommandView>,
    blocks: Seq<InheritedView>,
    k: int,
    at: int,
    flag: Seq<char>,
)
    requires
        0 <= at < commands.len(),
        has_flag(commands[at].options, flag),
    ensures
        has_flag(inherit_all(commands, pages, blocks, k)[at].options, flag),
    decreases blocks.len() - k,
{
    if 0 <= k < blocks.len() {
        lemma_inherit_keeps(commands, pages, blocks[k], at, flag);
        lemma_inherit_all_keeps(
            inherit(commands, pages, blocks[k]),
            pages,
            blocks,
            k + 1,
            at,
            flag,
        );
    }
}

proof fn lemma_inherit_all_accepts(
    commands: Seq<CommandView>,
    pages: Seq<CommandView>,
    blocks: Seq<InheritedView>,
    k: int,
    m: int,
    at: int,
    f: int,
)
    requires
        0 <= k <= m < blocks.len(),
        command_at(commands, 0, blocks[m].command) == Some(at),
        0 <= at < commands.len(),
        0 <= f < blocks[m].flags.len(),
    ensures
        has_flag(inherit_all(commands, pages, blocks, k)[at].options, blocks[m].flags[f]),
    decreases m - k,
{
    let next = inherit(commands, pages, blocks[k]);
    lemma_command_at(commands, 0, blocks[k].command);
    if k == m {
        inherited_options_are_accepted(commands, pages, blocks[k], at);
        assert(has_flag(next[at].options, blocks[m].flags[f]));
        lemma_inherit_all_keeps(next, pages, blocks, k + 1, at, blocks[m].flags[f]);
    } else {
        assert forall|i: int| 0 <= i < commands.len() implies (#[trigger] next[i]).name
            == commands[i].name by {}
        lemma_command_at_names(commands, next, 0, blocks[m].command);
        lemma_inherit_all_accepts(next, pages, blocks, k + 1, m, at, f);
    }
}

proof fn lemma_all_options(commands: Seq<CommandView>, i: int, at: int, o: int) -> (k: int)
    requires
        0 <= i <= at < commands.len(),
        0 <= o < commands[at].options.len(),
    ensures
        0 <= k < all_options(commands, i).len(),
        all_options(commands, i)[k] == commands[at].options[o],
    decreases at - i,
{
    let mine = commands[i].options;
    let rest = all_options(commands, i + 1);
    if i == at {
        assert((mine + rest)[o] == mine[o]);
        o
    } else {
        let k = lemma_all_options(commands, i + 1, at, o);
        assert((mine + rest)[mine.len() + k] == rest[k]);
        mine.len() + k
    }
}

/// A widget of the finished database accepts the options that it inherits, and
/// wherever it accepts one, every flag that names the same entry of the option
/// database in any command.
pub proof fn widgets_accept_inherited_options_and_aliases(
    commands: Seq<CommandView>,
    blocks: Seq<InheritedView>,
    at: int,
)
    requires
        0 <= at < deduped(sorted_commands(commands)).len(),
    ensures
        ({
            let distinct = deduped(sorted_commands(commands));
            let complete = inherit_all(distinct, distinct, blocks, 0);
            let finished = assembled(commands, blocks);
            &&& finished.len() == distinct.len()
            &&& complete.len() == distinct.len()
            &&& forall|m: int, f: int|
                0 <= m < blocks.len() && 0 <= f < blocks[m].flags.len() && command_at(
                    distinct,
                    0,
                    blocks[m].command,
                ) == Some(at) ==> has_flag(finished[at].options, #[trigger] blocks[m].flags[f])
            &&& forall|i: int, other: int, o: int|
                0 <= i < complete[at].options.len() && 0 <= other < complete.len() && 0 <= o
                    < complete[other].options.len() && (#[trigger] complete[at].options[i]).db_name.len()
                    > 0 && complete[at].options[i].db_name == (
                #[trigger] complete[other].options[o]).db_name
                    && complete[at].options[i].db_class == complete[other].options[o].db_class
                    ==> has_flag(finished[at].options, complete[other].options[o].flag)
        }),
{
    let distinct = deduped(sorted_commands(commands));
    let complete = inherit_all(distinct, distinct, blocks, 0);
    let all = all_options(complete, 0);
    let finished = assembled(commands, blocks);
    lemma_inherit_names(distinct, distinct, blocks, 0);
    assert(finished[at] == with_aliases(complete[at], all));
    assert forall|m: int, f: int|
        0 <= m < blocks.len() && 0 <= f < blocks[m].flags.len() && command_at(
            distinct,
            0,
            blocks[m].command,
        ) == Some(at) implies has_flag(finished[at].options, #[trigger] blocks[m].flags[f]) by {
        lemma_inherit_all_accepts(distinct, distinct, blocks, 0, m, at, f);
        lemma_aliases_keep(complete[at], all, blocks[m].flags[f]);
    }
    assert forall|i: int, other: int, o: int|
        0 <= i < complete[at].options.len() && 0 <= other < complete.len() && 0 <= o
            < complete[other].options.len() && (#[trigger] complete[at].options[i]).db_name.len()
            > 0 && complete[at].options[i].db_name == (
        #[trigger] complete[other].options[o]).db_name && complete[at].options[i].db_class
            == complete[other].options[o].db_class implies has_flag(
        finished[at].options,
        complete[other].options[o].flag,
    ) by {
        let k = lemma_all_options(complete, 0, other, o);
        aliases_are_accepted_together(complete[at], all, i, k);
    }
}

proof fn lemma_aliases_keep(c: CommandView, all: Seq<OptionView>, flag: Seq<char>)
    requires
        has_flag(c.options, flag),
    ensures
        has_flag(with_aliases(c, all).options, flag),
{
    let both = c.options + alias_all(c.options, all, 0, seq![]);
    let i = choose|i: int| 0 <= i < c.options.len() && (#[trigger] c.options[i]).flag == flag;
    assert(both[i].flag == flag);
    lemma_sorted_has_flag(both, flag);
}

/// Whether one of the options has this flag and this entry in the option database.
pub open spec fn names_entry(
    all: Seq<OptionView>,
    flag: Seq<char>,
    db_name: Seq<char>,
    db_class: Seq<char>,
) -> bool {
    exists|k: int|
        0 <= k < all.len() && (#[trigger] all[k]).flag == flag && all[k].db_name == db_name
            && all[k].db_class == db_class
}

/// Whether an option is `o` under another flag, one that some option with the same entry
/// in the option database has.
pub open spec fn is_alias(x: OptionView, o: OptionView, all: Seq<OptionView>) -> bool {
    &&& o.db_name.len() > 0
    &&& x == (OptionView { flag: x.flag, ..o })
    &&& names_entry(all, x.flag, o.db_name, o.db_class)
}

/// Whether an option is an alias of one of the options, under a flag that they lack.
pub open spec fn new_alias(
    x: OptionView,
    options: Seq<OptionView>,
    all: Seq<OptionView>,
) -> bool {
    &&& !has_flag(options, x.flag)
    &&& exists|i: int| 0 <= i < options.len() && is_alias(x, #[trigger] options[i], all)
}

spec fn all_new(add: Seq<OptionView>, options: Seq<OptionView>, all: Seq<OptionView>) -> bool {
    forall|m: int| 0 <= m < add.len() ==> new_alias(#[trigger] add[m], options, all)
}

proof fn lemma_entry_flag_source(
    all: Seq<OptionView>,
    n: int,
    db_name: Seq<char>,
    db_class: Seq<char>,
    flag: Seq<char>,
)
    requires
        n <= all.len(),
        flags_of_entry(all, n, db_name, db_class).contains(flag),
    ensures
        names_entry(all, flag, db_name, db_class),
    decreases n,
{
    let r = flags_of_entry(all, n - 1, db_name, db_class);
    let x = all[n - 1];
    if r.contains(flag) {
        lemma_entry_flag_source(all, n - 1, db_name, db_class, flag);
    } else {
        lemma_flag_place(r, r.len() as int, x.flag);
        let at = flag_place(r, r.len() as int, x.flag);
        let now = r.insert(at, x.flag);
        let i = choose|i: int| 0 <= i < now.len() && now[i] == flag;
        if i < at {
            assert(r[i] == flag);
        } else if i > at {
            assert(r[i - 1] == flag);
        }
        assert(all[n - 1].flag == flag);
    }
}

/// Each alias that is added is a new one.
proof fn lemma_alias_options_source(
    options: Seq<OptionView>,
    all: Seq<OptionView>,
    at: int,
    k: int,
    add: Seq<OptionView>,
)
    requires
        0 <= at < options.len(),
        options[at].db_name.len() > 0,
        0 <= k,
        all_new(add, options, all),
    ensures
        ({
            let o = options[at];
            let flags = flags_of_entry(all, all.len() as int, o.db_name, o.db_class);
            all_new(alias_options(options, o, flags, k, add), options, all)
        }),
    decreases
            flags_of_entry(
                all,
                all.len() as int,
                options[at].db_name,
                options[at].db_class,
            ).len() - k,
{
    let o = options[at];
    let flags = flags_of_entry(all, all.len() as int, o.db_name, o.db_class);
    if k < flags.len() {
        let alias = OptionView { flag: flags[k], ..o };
        if has_flag(options, flags[k]) || has_flag(add, flags[k]) {
            lemma_alias_options_source(options, all, at, k + 1, add);
        } else {
            assert(flags.contains(flags[k]));
            lemma_entry_flag_source(all, all.len() as int, o.db_name, o.db_class, flags[k]);
            assert(is_alias(alias, options[at], all));
            assert(new_alias(alias, options, all));
            lemma_alias_options_source(options, all, at, k + 1, add.push(alias));
        }
    }
}

proof fn lemma_alias_all_source(
    options: Seq<OptionView>,
    all: Seq<OptionView>,
    i: int,
    add: Seq<OptionView>,
)
    requires
        0 <= i,
        all_new(add, options, all),
    ensures
        all_new(alias_all(options, all, i, add), options, all),
    decreases options.len() - i,
{
    if i < options.len() {
        let o = options[i];
        if o.db_name.len() == 0 {
            lemma_alias_all_source(options, all, i + 1, add);
        } else {
            let flags = flags_of_entry(all, all.len() as int, o.db_name, o.db_class);
            lemma_alias_options_source(options, all, i, 0, add);
            lemma_alias_all_source(
                options,
                all,
                i + 1,
                alias_options(options, o, flags, 0, add),
            );
        }
    }
}

/// Sorting keeps which options there are.
proof fn lemma_sorted_contains(s: Seq<OptionView>, o: OptionView)
    ensures
        sorted_options(s).contains(o) == s.contains(o),
{
    broadcast use vstd::seq_lib::group_to_multiset_ensures;

    sorting_orders_the_options(s);
    assert(s.contains(o) == (s.to_multiset().count(o) > 0));
    assert(sorted_options(s).contains(o) == (sorted_options(s).to_multiset().count(o) > 0));
}

/// Aliases are only added: a command keeps each of its options as it is and all else that
/// it says, what is new is an option of it under a flag that it did not have, and its
/// options stand in the order of their flags.
pub proof fn aliases_only_add(c: CommandView, all: Seq<OptionView>)
    ensures
        with_aliases(c, all) == (CommandView { options: with_aliases(c, all).options, ..c }),
        by_flag(with_aliases(c, all).options),
        forall|o: OptionView| #[trigger]
            c.options.contains(o) ==> with_aliases(c, all).options.contains(o),
        forall|x: OptionView| #[trigger]
            with_aliases(c, all).options.contains(x) ==> c.options.contains(x) || new_alias(
                x,
                c.options,
                all,
            ),
{
    let add = alias_all(c.options, all, 0, seq![]);
    let both = c.options + add;
    let done = with_aliases(c, all).options;
    sorting_orders_the_options(both);
    lemma_alias_all_source(c.options, all, 0, seq![]);
    assert forall|o: OptionView| #[trigger] c.options.contains(o) implies done.contains(o) by {
        let i = choose|i: int| 0 <= i < c.options.len() && c.options[i] == o;
        assert(both[i] == o);
        lemma_sorted_contains(both, o);
    }
    assert forall|x: OptionView| #[trigger] done.contains(x) implies c.options.contains(x)
        || new_alias(x, c.options, all) by {
        lemma_sorted_contains(both, x);
        let i = choose|i: int| 0 <= i < both.len() && both[i] == x;
        if i < c.options.len() {
            assert(c.options[i] == x);
        } else {
            assert(add[i - c.options.len()] == x);
        }
    }
}

proof fn lemma_sorted_stays(s: Seq<OptionView>)
    requires
        by_flag(s),
    ensures
        sorted_options(s) == s,
    decreases s.len(),
{
    if s.len() > 0 {
        let before = s.drop_last();
        assert forall|i: int, j: int| 0 <= i < j < before.len() implies !text_less(
            (#[trigger] before[j]).flag,
            (#[trigger] before[i]).flag,
        ) by {
            assert(before[j] == s[j] && before[i] == s[i]);
        }
        lemma_sorted_stays(before);
        if before.len() > 0 {
            assert(!text_less(s[s.len() - 1].flag, s[s.len() - 2].flag));
        }
        assert(before.insert(before.len() as int, s.last()) =~= s);
    }
    assert(sorted_options(s) =~= s);
}

/// Where each flag is known, no alias is added.
proof fn lemma_no_alias(
    options: Seq<OptionView>,
    o: OptionView,
    flags: Seq<Seq<char>>,
    k: int,
    add: Seq<OptionView>,
)
    requires
        forall|f: Seq<char>| #[trigger] flags.contains(f) ==> has_flag(options, f),
    ensures
        alias_options(options, o, flags, k, add) == add,
    decreases flags.len() - k,
{
    if 0 <= k < flags.len() {
        assert(flags.contains(flags[k]));
        lemma_no_alias(options, o, flags, k + 1, add);
    }
}

/// Whether options have every flag of each entry that they name.
spec fn complete(options: Seq<OptionView>, all: Seq<OptionView>) -> bool {
    forall|i: int, f: Seq<char>|
        0 <= i < options.len() && options[i].db_name.len() > 0 && #[trigger] names_entry(
            all,
            f,
            (#[trigger] options[i]).db_name,
            options[i].db_class,
        ) ==> has_flag(options, f)
}

proof fn lemma_no_aliases(
    options: Seq<OptionView>,
    all: Seq<OptionView>,
    i: int,
    add: Seq<OptionView>,
)
    requires
        complete(options, all),
    ensures
        alias_all(options, all, i, add) == add,
    decreases options.len() - i,
{
    if 0 <= i < options.len() {
        let o = options[i];
        if o.db_name.len() > 0 {
            let flags = flags_of_entry(all, all.len() as int, o.db_name, o.db_class);
            assert forall|f: Seq<char>| #[trigger] flags.contains(f) implies has_flag(
                options,
                f,
            ) by {
                lemma_entry_flag_source(all, all.len() as int, o.db_name, o.db_class, f);
                assert(names_entry(all, f, options[i].db_name, options[i].db_class));
            }
            lemma_no_alias(options, o, flags, 0, add);
        }
        lemma_no_aliases(options, all, i + 1, add);
    }
}

/// Each of all options belongs to a command.
proof fn lemma_option_source(commands: Seq<CommandView>, i: int, k: int) -> (at: int)
    requires
        0 <= i,
        0 <= k < all_options(commands, i).len(),
    ensures
        0 <= at < commands.len(),
        commands[at].options.contains(all_options(commands, i)[k]),
    decreases commands.len() - i,
{
    let mine = commands[i].options;
    let rest = all_options(commands, i + 1);
    if k < mine.len() {
        assert((mine + rest)[k] == mine[k]);
        i
    } else {
        assert((mine + rest)[k] == rest[k - mine.len()]);
        lemma_option_source(commands, i + 1, k - mine.len())
    }
}

/// The aliases bring no flag to an entry that it did not have.
proof fn lemma_aliased_entries(
    commands: Seq<CommandView>,
    flag: Seq<char>,
    db_name: Seq<char>,
    db_class: Seq<char>,
)
    requires
        names_entry(all_options(aliased(commands), 0), flag, db_name, db_class),
    ensures
        names_entry(all_options(commands, 0), flag, db_name, db_class),
{
    let all = all_options(commands, 0);
    let now = all_options(aliased(commands), 0);
    let k = choose|k: int|
        0 <= k < now.len() && (#[trigger] now[k]).flag == flag && now[k].db_name == db_name
            && now[k].db_class == db_class;
    let x = now[k];
    let at = lemma_option_source(aliased(commands), 0, k);
    let c = commands[at];
    assert(aliased(commands)[at] == with_aliases(c, all));
    aliases_only_add(c, all);
    if c.options.contains(x) {
        let o = choose|o: int| 0 <= o < c.options.len() && c.options[o] == x;
        let m = lemma_all_options(commands, 0, at, o);
        assert(all[m].flag == flag);
    }
}

/// Applying the aliases twice is applying them once.
pub proof fn aliases_are_applied_once(commands: Seq<CommandView>)
    ensures
        aliased(aliased(commands)) == aliased(commands),
{
    let all = all_options(commands, 0);
    let once = aliased(commands);
    let now = all_options(once, 0);
    assert forall|at: int| 0 <= at < once.len() implies #[trigger] aliased(once)[at]
        == once[at] by {
        let c = commands[at];
        let options = once[at].options;
        assert(once[at] == with_aliases(c, all));
        aliases_only_add(c, all);
        assert forall|i: int, f: Seq<char>|
            0 <= i < options.len() && options[i].db_name.len() > 0 && #[trigger] names_entry(
                now,
                f,
                (#[trigger] options[i]).db_name,
                options[i].db_class,
            ) implies has_flag(options, f) by {
            let x = options[i];
            assert(options.contains(x));
            lemma_aliased_entries(commands, f, x.db_name, x.db_class);
            let k = choose|k: int|
                0 <= k < all.len() && (#[trigger] all[k]).flag == f && all[k].db_name == x.db_name
                    && all[k].db_class == x.db_class;
            let o = if c.options.contains(x) {
                choose|o: int| 0 <= o < c.options.len() && c.options[o] == x
            } else {
                choose|o: int| 0 <= o < c.options.len() && is_alias(x, #[trigger] c.options[o], all)
            };
            aliases_are_accepted_together(c, all, o, k);
        }
        lemma_no_aliases(options, now, 0, seq![]);
        lemma_sorted_stays(options);
        assert(options + Seq::<OptionView>::empty() =~= options);
    }
    assert(aliased(once) =~= once);
}

} // verus!

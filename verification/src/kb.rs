//! The builtin command database: what the server knows about Tcl and Tk itself.
//!
//! The content is generated from the man pages of a Tcl/Tk build, so it is
//! version-accurate by construction rather than hand-maintained.
use vstd::prelude::*;
use vstd::string::StringExecFns;

use crate::text::{chars_of, matches_at, same_text, stands_at, string_of, texts};

verus! {

/// One documented command.
#[derive(Debug, Clone, Default)]
pub struct Command {
    pub name: String,
    /// One-line summary, from the man page's NAME section.
    pub summary: String,
    /// Call signature, from SYNOPSIS. `?x?` marks an optional argument.
    pub synopsis: Vec<String>,
    /// Opening prose of DESCRIPTION, as markdown.
    pub description: String,
    /// Ensemble subcommands, e.g. `string cat`, `dict get`.
    pub subcommands: Vec<Subcommand>,
    /// Tk widget options, from the man page's `.OP` entries.
    pub options: Vec<OptionSpec>,
    /// `tcl` or `tk`.
    pub package: String,
}

#[derive(Debug, Clone, Default)]
pub struct Subcommand {
    /// Just the subcommand word, e.g. `cat` for `string cat`.
    pub name: String,
    /// The full signature line as documented.
    pub signature: String,
    pub doc: String,
}

#[derive(Debug, Clone, Default)]
pub struct OptionSpec {
    /// The `-option` flag as written in Tcl.
    pub flag: String,
    pub db_name: String,
    pub db_class: String,
    pub doc: String,
    /// Whether it is one of the standard options that many widgets share.
    pub standard: bool,
}

pub struct SubcommandView {
    pub name: Seq<char>,
    pub signature: Seq<char>,
    pub doc: Seq<char>,
}

impl View for Subcommand {
    type V = SubcommandView;

    open spec fn view(&self) -> SubcommandView {
        SubcommandView { name: self.name@, signature: self.signature@, doc: self.doc@ }
    }
}

pub struct OptionView {
    pub flag: Seq<char>,
    pub db_name: Seq<char>,
    pub db_class: Seq<char>,
    pub doc: Seq<char>,
    pub standard: bool,
}

impl View for OptionSpec {
    type V = OptionView;

    open spec fn view(&self) -> OptionView {
        OptionView {
            flag: self.flag@,
            db_name: self.db_name@,
            db_class: self.db_class@,
            doc: self.doc@,
            standard: self.standard,
        }
    }
}

pub open spec fn subcommand_views(v: Seq<Subcommand>) -> Seq<SubcommandView> {
    v.map_values(|s: Subcommand| s@)
}

pub open spec fn option_views(v: Seq<OptionSpec>) -> Seq<OptionView> {
    v.map_values(|o: OptionSpec| o@)
}

/// What a documented command says.
pub struct CommandView {
    pub name: Seq<char>,
    pub summary: Seq<char>,
    pub synopsis: Seq<Seq<char>>,
    pub description: Seq<char>,
    pub subcommands: Seq<SubcommandView>,
    pub options: Seq<OptionView>,
    pub package: Seq<char>,
}

impl View for Command {
    type V = CommandView;

    open spec fn view(&self) -> CommandView {
        CommandView {
            name: self.name@,
            summary: self.summary@,
            synopsis: texts(self.synopsis@),
            description: self.description@,
            subcommands: subcommand_views(self.subcommands@),
            options: option_views(self.options@),
            package: self.package@,
        }
    }
}

/// Which command set to analyse against.
#[derive(Debug, Clone, Copy, PartialEq, Eq, Structural, Default)]
pub enum Target {
    #[default]
    Tcl86,
    Tcl90,
}

impl Target {
    /// The target that a version string names: 9 if it begins so, else 8.6.
    pub fn parse(s: &str) -> (t: Target)
        ensures
            t == (if s@.len() > 0 && s@[0] == '9' {
                Target::Tcl90
            } else {
                Target::Tcl86
            }),
    {
        match crate::words::first_char(s) {
            Some(c) => if c == '9' {
                Target::Tcl90
            } else {
                Target::Tcl86
            },
            None => Target::Tcl86,
        }
    }
}

// ------------------------------------------------------------------- look-up
/// The last of the first `n` names that is the given one.
pub open spec fn last_named(names: Seq<Seq<char>>, n: int, name: Seq<char>) -> Option<int>
    decreases n,
{
    if n <= 0 || n > names.len() {
        None
    } else if names[n - 1] == name {
        Some(n - 1)
    } else {
        last_named(names, n - 1, name)
    }
}

/// The name without a leading `::`: builtins live in the global namespace.
pub open spec fn global_name(name: Seq<char>) -> Seq<char> {
    if matches_at(name, 0, seq![':', ':']) {
        name.subrange(2, name.len() as int)
    } else {
        name
    }
}

/// The place of a command among indexed names.
pub open spec fn place_of(names: Seq<Seq<char>>, name: Seq<char>) -> Option<int> {
    last_named(names, names.len() as int, global_name(name))
}

pub open spec fn command_names(commands: Seq<Command>) -> Seq<Seq<char>> {
    commands.map_values(|c: Command| c.name@)
}

/// The first subcommand of that name, from `i` on.
pub open spec fn subcommand_at(subs: Seq<Subcommand>, i: int, name: Seq<char>) -> Option<int>
    decreases subs.len() - i,
{
    if i < 0 || i >= subs.len() {
        None
    } else if subs[i].name@ == name {
        Some(i)
    } else {
        subcommand_at(subs, i + 1, name)
    }
}

/// The whole database for one Tcl/Tk version.
#[derive(Debug, Clone, Default)]
pub struct Kb {
    pub version: String,
    pub commands: Vec<Command>,
    /// The name of each command when it was last indexed.
    pub by_name: Vec<String>,
}

impl Kb {
    /// The names that look-up goes by: those of the commands when they were last
    /// indexed.
    pub open spec fn names(self) -> Seq<Seq<char>> {
        texts(self.by_name@)
    }

    /// Every name that look-up goes by still has its command.
    pub open spec fn searchable(self) -> bool {
        self.names().len() <= self.commands@.len()
    }

    pub fn new(version: &str, commands: Vec<Command>) -> (kb: Kb)
        ensures
            kb.version@ == version@,
            kb.commands == commands,
            kb.names() == command_names(commands@),
            kb.searchable(),
    {
        let mut kb = Kb { version: version.to_owned(), commands, by_name: Vec::new() };
        kb.reindex();
        kb
    }

    /// Rebuilds the look-up by name after the commands have changed.
    pub fn reindex(&mut self)
        ensures
            final(self).version == old(self).version,
            final(self).commands == old(self).commands,
            final(self).names() == command_names(old(self).commands@),
            final(self).searchable(),
    {
        let mut names: Vec<String> = Vec::new();
        let mut i: usize = 0;
        while i < self.commands.len()
            invariant
                i <= self.commands@.len(),
                self.version == old(self).version,
                self.commands == old(self).commands,
                texts(names@) =~= command_names(self.commands@).take(i as int),
            decreases self.commands@.len() - i,
        {
            let ghost was = names@;
            let name = self.commands[i].name.clone();
            names.push(name);
            proof {
                assert(texts(names@) =~= texts(was).push(name@));
                assert(command_names(self.commands@)[i as int] == name@);
            }
            i = i + 1;
        }
        self.by_name = names;
        assert(command_names(self.commands@).take(i as int) =~= command_names(self.commands@));
    }

    /// The command of that name; of several the last.
    pub fn get(&self, name: &str) -> (r: Option<&Command>)
        requires
            self.searchable(),
        ensures
            match place_of(self.names(), name@) {
                Some(i) => 0 <= i < self.commands@.len() && r == Some(&self.commands@[i]),
                None => r is None,
            },
    {
        let chars = chars_of(name);
        let colons = crate::outline::colons();
        let wanted = if stands_at(chars.as_slice(), 0, colons.as_slice()) {
            string_of(vstd::slice::slice_subrange(chars.as_slice(), 2, chars.len()))
        } else {
            name.to_owned()
        };
        let ghost names = texts(self.by_name@);
        let mut n: usize = self.by_name.len();
        while n > 0
            invariant
                n <= self.by_name@.len(),
                names == texts(self.by_name@),
                names.len() <= self.commands@.len(),
                wanted@ == global_name(name@),
                place_of(names, name@) == last_named(names, n as int, wanted@),
                names == self.names(),
            decreases n,
        {
            assert(names[n - 1] == self.by_name@[n - 1]@);
            if same_text(self.by_name[n - 1].as_str(), wanted.as_str()) {
                return Some(&self.commands[n - 1]);
            }
            n = n - 1;
        }
        None
    }

    pub fn is_empty(&self) -> (r: bool)
        ensures
            r == (self.commands@.len() == 0),
    {
        self.commands.len() == 0
    }

    pub fn len(&self) -> (n: usize)
        ensures
            n == self.commands@.len(),
    {
        self.commands.len()
    }

    /// All commands, in order.
    pub fn iter(&self) -> (r: &[Command])
        ensures
            r@ == self.commands@,
    {
        self.commands.as_slice()
    }

    /// Looks up `string cat` style ensemble subcommands.
    pub fn subcommand(&self, command: &str, sub: &str) -> (r: Option<&Subcommand>)
        requires
            self.searchable(),
        ensures
            match place_of(self.names(), command@) {
                Some(i) => {
                    let subs = self.commands@[i].subcommands@;
                    match subcommand_at(subs, 0, sub@) {
                        Some(k) => 0 <= k < subs.len() && r == Some(&subs[k]),
                        None => r is None,
                    }
                },
                None => r is None,
            },
    {
        match self.get(command) {
            Some(c) => {
                let subs = &c.subcommands;
                let ghost at = place_of(self.names(), command@)->0;
                let mut k: usize = 0;
                while k < subs.len()
                    invariant
                        k <= subs@.len(),
                        place_of(self.names(), command@) == Some(at),
                        subs@ == self.commands@[at].subcommands@,
                        subcommand_at(subs@, 0, sub@) == subcommand_at(subs@, k as int, sub@),
                    decreases subs@.len() - k,
                {
                    if same_text(subs[k].name.as_str(), sub) {
                        return Some(&subs[k]);
                    }
                    k = k + 1;
                }
                None
            },
            None => None,
        }
    }
}

// --------------------------------------------------------------------- hover
/// The lines from `k` on, each with a newline behind it.
pub open spec fn each_line(lines: Seq<Seq<char>>, k: int) -> Seq<char>
    decreases lines.len() - k,
{
    if k < 0 || k >= lines.len() {
        seq![]
    } else {
        lines[k] + seq!['\n'] + each_line(lines, k + 1)
    }
}

/// The subcommand names from `k` up to `n`, with ``"`, `"`` between them.
pub open spec fn name_list(subs: Seq<SubcommandView>, k: int, n: int) -> Seq<char>
    decreases n - k,
{
    if k < 0 || k >= n || n > subs.len() {
        seq![]
    } else {
        (if k > 0 {
            "`, `"@
        } else {
            seq![]
        }) + subs[k].name + name_list(subs, k + 1, n)
    }
}

/// How many subcommands a hover names.
pub const HOVER_SUBCOMMANDS: usize = 24;

/// Markdown for a hover popup: the call signatures (or the name) as code, then the
/// summary, the description, and the names of the first subcommands.
pub open spec fn markdown_of(c: CommandView) -> Seq<char> {
    let n = if c.subcommands.len() < HOVER_SUBCOMMANDS {
        c.subcommands.len() as int
    } else {
        HOVER_SUBCOMMANDS as int
    };
    let code = if c.synopsis.len() > 0 {
        each_line(c.synopsis, 0)
    } else {
        c.name + seq!['\n']
    };
    let summary = if c.summary.len() > 0 {
        "\n**"@ + c.summary + "**\n"@
    } else {
        seq![]
    };
    let description = if c.description.len() > 0 {
        "\n"@ + c.description + "\n"@
    } else {
        seq![]
    };
    let subcommands = if c.subcommands.len() > 0 {
        "\nSubcommands: `"@ + name_list(c.subcommands, 0, n) + "`\n"@
    } else {
        seq![]
    };
    "```tcl\n"@ + code + "```\n"@ + summary + description + subcommands
}

pub fn is_blank_text(s: &String) -> (r: bool)
    ensures
        r == (s@.len() == 0),
{
    s.as_str().is_empty()
}

fn append_lines(md: &mut String, lines: &Vec<String>)
    ensures
        final(md)@ == old(md)@ + each_line(texts(lines@), 0),
{
    let ghost all = texts(lines@);
    let ghost before = md@;
    let ghost mut acc: Seq<char> = seq![];
    let mut k: usize = 0;
    assert(acc + each_line(all, 0) =~= each_line(all, 0));
    assert(before + acc =~= before);
    while k < lines.len()
        invariant
            k <= lines@.len(),
            all == texts(lines@),
            md@ == before + acc,
            each_line(all, 0) == acc + each_line(all, k as int),
        decreases lines@.len() - k,
    {
        md.append(lines[k].as_str());
        md.push('\n');
        proof {
            assert(all[k as int] == lines@[k as int]@);
            let step = all[k as int] + seq!['\n'];
            let rest = each_line(all, k + 1);
            assert(acc + (step + rest) =~= (acc + step) + rest);
            assert(md@ =~= before + (acc + step));
            acc = acc + step;
        }
        k = k + 1;
    }
    assert(acc + Seq::<char>::empty() =~= acc);
}

fn append_names(md: &mut String, subs: &Vec<Subcommand>, n: usize)
    requires
        n <= subs@.len(),
    ensures
        final(md)@ == old(md)@ + name_list(subcommand_views(subs@), 0, n as int),
{
    let ghost all = subcommand_views(subs@);
    let ghost before = md@;
    let ghost mut acc: Seq<char> = seq![];
    let mut k: usize = 0;
    assert(acc + name_list(all, 0, n as int) =~= name_list(all, 0, n as int));
    assert(before + acc =~= before);
    while k < n
        invariant
            k <= n <= subs@.len(),
            all == subcommand_views(subs@),
            md@ == before + acc,
            name_list(all, 0, n as int) == acc + name_list(all, k as int, n as int),
        decreases n - k,
    {
        if k > 0 {
            md.append("`, `");
        }
        md.append(subs[k].name.as_str());
        proof {
            assert(all[k as int] == subs@[k as int]@);
            let between = if k > 0 {
                "`, `"@
            } else {
                seq![]
            };
            let step = between + all[k as int].name;
            let rest = name_list(all, k + 1, n as int);
            assert(acc + (step + rest) =~= (acc + step) + rest);
            assert(md@ =~= before + (acc + step));
            acc = acc + step;
        }
        k = k + 1;
    }
    assert(acc + Seq::<char>::empty() =~= acc);
}

impl Command {
    /// Markdown suitable for a hover popup.
    pub fn hover_markdown(&self) -> (md: String)
        ensures
            md@ == markdown_of(self@),
    {
        let mut md = String::new();
        md.append("```tcl\n");
        if self.synopsis.len() > 0 {
            append_lines(&mut md, &self.synopsis);
        } else {
            md.append(self.name.as_str());
            md.push('\n');
        }
        md.append("```\n");
        let ghost code = if self@.synopsis.len() > 0 {
            each_line(self@.synopsis, 0)
        } else {
            self@.name + seq!['\n']
        };
        let ghost head = "```tcl\n"@ + code + "```\n"@;
        assert(md@ =~= head);
        let ghost mut summary: Seq<char> = seq![];
        if !is_blank_text(&self.summary) {
            md.append("\n**");
            md.append(self.summary.as_str());
            md.append("**\n");
            proof {
                summary = "\n**"@ + self.summary@ + "**\n"@;
            }
        }
        assert(md@ =~= head + summary);
        let ghost mut description: Seq<char> = seq![];
        if !is_blank_text(&self.description) {
            md.append("\n");
            md.append(self.description.as_str());
            md.append("\n");
            proof {
                description = "\n"@ + self.description@ + "\n"@;
            }
        }
        assert(md@ =~= head + summary + description);
        let ghost mut named: Seq<char> = seq![];
        if self.subcommands.len() > 0 {
            let n: usize = if self.subcommands.len() < HOVER_SUBCOMMANDS {
                self.subcommands.len()
            } else {
                HOVER_SUBCOMMANDS
            };
            md.append("\nSubcommands: `");
            append_names(&mut md, &self.subcommands, n);
            md.append("`\n");
            proof {
                named = "\nSubcommands: `"@ + name_list(self@.subcommands, 0, n as int) + "`\n"@;
            }
        }
        assert(md@ =~= head + summary + description + named);
        md
    }
}

// ----------------------------------------------------------------------- laws
/// A leading `::` makes no difference to look-up.
pub proof fn a_global_qualifier_is_ignored(names: Seq<Seq<char>>, name: Seq<char>)
    requires
        !matches_at(name, 0, seq![':', ':']),
    ensures
        place_of(names, seq![':', ':'] + name) == place_of(names, name),
{
    let q = seq![':', ':'] + name;
    assert(q.subrange(0, 2) =~= seq![':', ':']);
    assert(q.subrange(2, q.len() as int) =~= name);
}

/// Look-up after indexing finds a command exactly where one has the name, and that
/// command has it.
pub proof fn lookup_finds_what_is_there(names: Seq<Seq<char>>, name: Seq<char>)
    ensures
        place_of(names, name) is Some <==> names.contains(global_name(name)),
        place_of(names, name) matches Some(i) ==> 0 <= i < names.len() && names[i] == global_name(
            name,
        ),
{
    lemma_last_named(names, names.len() as int, global_name(name));
}

proof fn lemma_last_named(names: Seq<Seq<char>>, n: int, name: Seq<char>)
    requires
        0 <= n <= names.len(),
    ensures
        match last_named(names, n, name) {
            Some(i) => 0 <= i < n && names[i] == name,
            None => forall|i: int| 0 <= i < n ==> names[i] != name,
        },
    decreases n,
{
    if n > 0 && names[n - 1] != name {
        lemma_last_named(names, n - 1, name);
    }
}

} // verus!

//! Server configuration.
//!
//! Settings arrive from three places, in increasing precedence: environment
//! variables, the options of the `initialize` request, and changes of the
//! configuration. Everything the server can be told lives here.
use vstd::prelude::*;
use vstd::string::StringExecFns;

use crate::kb::Target;
use crate::text::{same_text, text_option};

verus! {

/// A settings value, as far as settings are read: of numbers, lists and nothing
/// only that they are there.
#[derive(Debug)]
pub enum Setting {
    Flag(bool),
    Text(String),
    Group(Vec<Member>),
    Other,
}

/// A named member of a settings group.
#[derive(Debug)]
pub struct Member {
    pub key: String,
    pub value: Setting,
}

/// The place of a key among the members from `i` on.
pub open spec fn key_at(members: Seq<Member>, i: int, key: Seq<char>) -> Option<int>
    decreases members.len() - i,
{
    if i < 0 || i >= members.len() {
        None
    } else if members[i].key@ == key {
        Some(i)
    } else {
        key_at(members, i + 1, key)
    }
}

impl Setting {
    /// The member of that name; only a group has any.
    pub open spec fn member(self, key: Seq<char>) -> Option<Setting> {
        match self {
            Setting::Group(members) => match key_at(members@, 0, key) {
                Some(i) => Some(members@[i].value),
                None => None,
            },
            _ => None,
        }
    }

    pub open spec fn as_flag(self) -> Option<bool> {
        match self {
            Setting::Flag(on) => Some(on),
            _ => None,
        }
    }

    pub open spec fn as_text(self) -> Option<Seq<char>> {
        match self {
            Setting::Text(t) => Some(t@),
            _ => None,
        }
    }

    /// The member of that name; only a group has any.
    pub fn get(&self, key: &str) -> (r: Option<&Setting>)
        ensures
            match self.member(key@) {
                Some(v) => r == Some(&v),
                None => r is None,
            },
    {
        match self {
            Setting::Group(members) => {
                let mut i: usize = 0;
                while i < members.len()
                    invariant
                        i <= members@.len(),
                        *self == Setting::Group(*members),
                        key_at(members@, 0, key@) == key_at(members@, i as int, key@),
                    decreases members@.len() - i,
                {
                    if same_text(members[i].key.as_str(), key) {
                        return Some(&members[i].value);
                    }
                    i = i + 1;
                }
                None
            },
            _ => None,
        }
    }
}

/// A flag below a member that may not be there.
pub open spec fn flag_at(v: Option<Setting>, key: Seq<char>) -> Option<bool> {
    match v {
        Some(s) => match s.member(key) {
            Some(m) => m.as_flag(),
            None => None,
        },
        None => None,
    }
}

/// A text below a member that may not be there.
pub open spec fn text_at(v: Option<Setting>, key: Seq<char>) -> Option<Seq<char>> {
    match v {
        Some(s) => match s.member(key) {
            Some(m) => m.as_text(),
            None => None,
        },
        None => None,
    }
}

spec fn value_of(v: Option<&Setting>) -> Option<Setting> {
    match v {
        Some(s) => Some(*s),
        None => None,
    }
}

fn read_flag(v: Option<&Setting>, key: &str) -> (r: Option<bool>)
    ensures
        r == flag_at(value_of(v), key@),
{
    match v {
        Some(s) => match s.get(key) {
            Some(Setting::Flag(on)) => Some(*on),
            _ => None,
        },
        None => None,
    }
}

fn read_text(v: Option<&Setting>, key: &str) -> (r: Option<String>)
    ensures
        text_option(r) == text_at(value_of(v), key@),
{
    match v {
        Some(s) => match s.get(key) {
            Some(Setting::Text(t)) => Some(t.clone()),
            _ => None,
        },
        None => None,
    }
}

// ---------------------------------------------------------------------- tools
/// An external analyser: where it lives, and whether to run it.
#[derive(Debug, Clone)]
pub struct Tool {
    pub path: String,
    pub enabled: bool,
}

pub struct ToolView {
    pub path: Seq<char>,
    pub enabled: bool,
}

impl View for Tool {
    type V = ToolView;

    open spec fn view(&self) -> ToolView {
        ToolView { path: self.path@, enabled: self.enabled }
    }
}

/// A tool after a setting for it was applied: a bare flag switches it, a bare text
/// is its path, and a group may hold both.
pub open spec fn tool_merged(tool: ToolView, v: Option<Setting>) -> ToolView {
    match v {
        Some(Setting::Flag(on)) => ToolView { enabled: on, ..tool },
        Some(Setting::Text(path)) => ToolView { path: path@, ..tool },
        Some(Setting::Group(_)) => ToolView {
            path: match text_at(v, "path"@) {
                Some(p) => p,
                None => tool.path,
            },
            enabled: match flag_at(v, "enable"@) {
                Some(on) => on,
                None => tool.enabled,
            },
        },
        _ => tool,
    }
}

/// A variable of the environment.
pub struct Variable {
    pub name: String,
    pub value: String,
}

/// The value of a variable, among those from `i` on.
pub open spec fn variable(vars: Seq<Variable>, i: int, name: Seq<char>) -> Option<Seq<char>>
    decreases vars.len() - i,
{
    if i < 0 || i >= vars.len() {
        None
    } else if vars[i].name@ == name {
        Some(vars[i].value@)
    } else {
        variable(vars, i + 1, name)
    }
}

/// A tool as the environment sets it: its path by the variable `var`, and whether
/// it runs by the variable of that name with `_ENABLE` behind it.
pub open spec fn tool_from(vars: Seq<Variable>, var: Seq<char>, fallback: Seq<char>) -> ToolView {
    ToolView {
        path: match variable(vars, 0, var) {
            Some(p) => p,
            None => fallback,
        },
        enabled: match variable(vars, 0, var + "_ENABLE"@) {
            Some(v) => !(v == "0"@ || v == "false"@ || v == "off"@),
            None => true,
        },
    }
}

fn look_up(vars: &Vec<Variable>, name: &str) -> (r: Option<String>)
    ensures
        text_option(r) == variable(vars@, 0, name@),
{
    let mut i: usize = 0;
    while i < vars.len()
        invariant
            i <= vars@.len(),
            variable(vars@, 0, name@) == variable(vars@, i as int, name@),
        decreases vars@.len() - i,
    {
        if same_text(vars[i].name.as_str(), name) {
            return Some(vars[i].value.clone());
        }
        i = i + 1;
    }
    None
}

impl Tool {
    /// The tool as the environment sets it.
    pub fn from_env(vars: &Vec<Variable>, var: &str, fallback: &str) -> (t: Tool)
        ensures
            t@ == tool_from(vars@, var@, fallback@),
    {
        let mut switch = var.to_owned();
        switch.append("_ENABLE");
        let path = match look_up(vars, var) {
            Some(p) => p,
            None => fallback.to_owned(),
        };
        let enabled = match look_up(vars, switch.as_str()) {
            Some(v) => !(same_text(v.as_str(), "0") || same_text(v.as_str(), "false")
                || same_text(v.as_str(), "off")),
            None => true,
        };
        Tool { path, enabled }
    }

    /// The path to run, or `None` when the tool is switched off.
    pub fn active(&self) -> (r: Option<&str>)
        ensures
            match r {
                Some(p) => self.enabled && p@ == self.path@,
                None => !self.enabled,
            },
    {
        if self.enabled {
            Some(self.path.as_str())
        } else {
            None
        }
    }
}

fn merge_tool(tool: &mut Tool, value: Option<&Setting>)
    ensures
        final(tool)@ == tool_merged(old(tool)@, value_of(value)),
{
    match value {
        Some(Setting::Flag(on)) => {
            tool.enabled = *on;
        },
        Some(Setting::Text(path)) => {
            tool.path = path.clone();
        },
        Some(Setting::Group(_)) => {
            if let Some(p) = read_text(value, "path") {
                tool.path = p;
            }
            if let Some(on) = read_flag(value, "enable") {
                tool.enabled = on;
            }
        },
        _ => {},
    }
}

// --------------------------------------------------------------------- config
#[derive(Debug, Clone)]
pub struct Config {
    /// Which command set to analyse against. 8.6 and 9.0 parse alike, so either can
    /// be analysed.
    pub tcl_version: Target,
    pub nagelfar: Tool,
    /// Syntax database for nagelfar, which cannot run without one.
    pub nagelfar_db: Option<String>,
    pub tclint: Tool,
    pub tclfmt: Tool,
}

pub struct ConfigView {
    pub tcl_version: Target,
    pub nagelfar: ToolView,
    pub nagelfar_db: Option<Seq<char>>,
    pub tclint: ToolView,
    pub tclfmt: ToolView,
}

impl View for Config {
    type V = ConfigView;

    open spec fn view(&self) -> ConfigView {
        ConfigView {
            tcl_version: self.tcl_version,
            nagelfar: self.nagelfar@,
            nagelfar_db: text_option(self.nagelfar_db),
            tclint: self.tclint@,
            tclfmt: self.tclfmt@,
        }
    }
}

/// The target that a version string names.
pub open spec fn target_of(s: Seq<char>) -> Target {
    if s.len() > 0 && s[0] == '9' {
        Target::Tcl90
    } else {
        Target::Tcl86
    }
}

/// The configuration that the environment sets.
pub open spec fn config_from(vars: Seq<Variable>) -> ConfigView {
    ConfigView {
        tcl_version: match variable(vars, 0, "TCL_LSP_TCL_VERSION"@) {
            Some(v) => target_of(v),
            None => Target::Tcl86,
        },
        nagelfar: tool_from(vars, "TCL_LSP_NAGELFAR"@, "nagelfar"@),
        nagelfar_db: variable(vars, 0, "TCL_LSP_NAGELFAR_DB"@),
        tclint: tool_from(vars, "TCL_LSP_TCLINT"@, "tclint"@),
        tclfmt: tool_from(vars, "TCL_LSP_TCLFMT"@, "tclfmt"@),
    }
}

/// The section that settings are read from: `tclLsp`, or the whole.
pub open spec fn section(settings: Setting) -> Setting {
    match settings.member("tclLsp"@) {
        Some(s) => s,
        None => settings,
    }
}

/// A configuration after settings were applied. What is not there is left alone.
pub open spec fn config_merged(c: ConfigView, settings: Setting) -> ConfigView {
    let root = section(settings);
    let nagelfar = tool_merged(c.nagelfar, root.member("nagelfar"@));
    let tclint = tool_merged(c.tclint, root.member("tclint"@));
    let diagnostics = root.member("diagnostics"@);
    ConfigView {
        tcl_version: match text_at(Some(root), "tclVersion"@) {
            Some(v) => target_of(v),
            None => c.tcl_version,
        },
        nagelfar: ToolView {
            enabled: match flag_at(diagnostics, "nagelfar"@) {
                Some(on) => on,
                None => nagelfar.enabled,
            },
            ..nagelfar
        },
        nagelfar_db: match text_at(root.member("nagelfar"@), "syntaxDb"@) {
            Some(db) => Some(db),
            None => c.nagelfar_db,
        },
        tclint: ToolView {
            enabled: match flag_at(diagnostics, "tclint"@) {
                Some(on) => on,
                None => tclint.enabled,
            },
            ..tclint
        },
        tclfmt: tool_merged(c.tclfmt, root.member("tclfmt"@)),
    }
}

impl Default for Config {
    /// What holds when the environment sets nothing.
    fn default() -> (c: Self)
        ensures
            c@ == config_from(seq![]),
    {
        let none: Vec<Variable> = Vec::new();
        assert(none@ =~= seq![]);
        Config::from_env(&none)
    }
}

impl Config {
    /// The configuration that the environment sets.
    pub fn from_env(vars: &Vec<Variable>) -> (c: Config)
        ensures
            c@ == config_from(vars@),
    {
        let tcl_version = match look_up(vars, "TCL_LSP_TCL_VERSION") {
            Some(v) => Target::parse(v.as_str()),
            None => Target::Tcl86,
        };
        Config {
            tcl_version,
            nagelfar: Tool::from_env(vars, "TCL_LSP_NAGELFAR", "nagelfar"),
            nagelfar_db: look_up(vars, "TCL_LSP_NAGELFAR_DB"),
            tclint: Tool::from_env(vars, "TCL_LSP_TCLINT", "tclint"),
            tclfmt: Tool::from_env(vars, "TCL_LSP_TCLFMT", "tclfmt"),
        }
    }

    /// Applies a settings object, which may be the whole payload or just the
    /// `tclLsp` section. Absent keys are left untouched, so a client that sends a
    /// partial update does not reset everything else.
    ///
    /// Returns whether the analysis target changed, since that means the builtin
    /// command database has to be reloaded.
    pub fn merge(&mut self, settings: &Setting) -> (changed: bool)
        ensures
            final(self)@ == config_merged(old(self)@, *settings),
            changed == (final(self).tcl_version != old(self).tcl_version),
    {
        let root = match settings.get("tclLsp") {
            Some(s) => s,
            None => settings,
        };
        let before = self.tcl_version;
        if let Some(v) = read_text(Some(root), "tclVersion") {
            self.tcl_version = Target::parse(v.as_str());
        }
        merge_tool(&mut self.nagelfar, root.get("nagelfar"));
        merge_tool(&mut self.tclint, root.get("tclint"));
        merge_tool(&mut self.tclfmt, root.get("tclfmt"));
        if let Some(db) = read_text(root.get("nagelfar"), "syntaxDb") {
            self.nagelfar_db = Some(db);
        }
        let diagnostics = root.get("diagnostics");
        if let Some(on) = read_flag(diagnostics, "nagelfar") {
            self.nagelfar.enabled = on;
        }
        if let Some(on) = read_flag(diagnostics, "tclint") {
            self.tclint.enabled = on;
        }
        before != self.tcl_version
    }
}

// ----------------------------------------------------------------------- laws
/// A partial update leaves everything else alone: what has no key in the settings
/// stays as it was.
pub proof fn absent_keys_are_left_alone(c: ConfigView, settings: Setting)
    ensures
        ({
            let root = section(settings);
            let now = config_merged(c, settings);
            let plain = root.member("diagnostics"@) is None;
            &&& root.member("tclVersion"@) is None ==> now.tcl_version == c.tcl_version
            &&& root.member("nagelfar"@) is None && plain ==> now.nagelfar == c.nagelfar
            &&& root.member("nagelfar"@) is None ==> now.nagelfar_db == c.nagelfar_db
                && now.nagelfar.path == c.nagelfar.path
            &&& root.member("tclint"@) is None && plain ==> now.tclint == c.tclint
            &&& root.member("tclint"@) is None ==> now.tclint.path == c.tclint.path
            &&& root.member("tclfmt"@) is None ==> now.tclfmt == c.tclfmt
        }),
{
}

/// Settings mean the same alone as under the `tclLsp` key.
pub proof fn the_section_key_makes_no_difference(c: ConfigView, inner: Setting, outer: Setting)
    requires
        outer.member("tclLsp"@) == Some(inner),
        inner.member("tclLsp"@) is None,
    ensures
        config_merged(c, outer) == config_merged(c, inner),
{
}

/// Applying the same settings twice is applying them once.
pub proof fn merging_is_idempotent(c: ConfigView, settings: Setting)
    ensures
        config_merged(config_merged(c, settings), settings) == config_merged(c, settings),
{
}

} // verus!

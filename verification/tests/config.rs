//! Settings.
use tcl_lsp::config::{Config, Member, Setting, Tool};
use tcl_lsp::kb::Target;

fn flag(on: bool) -> Setting {
    Setting::Flag(on)
}

fn text(t: &str) -> Setting {
    Setting::Text(t.to_string())
}

fn group(members: Vec<(&str, Setting)>) -> Setting {
    Setting::Group(
        members
            .into_iter()
            .map(|(key, value)| Member { key: key.to_string(), value })
            .collect(),
    )
}

fn base() -> Config {
    Config {
        tcl_version: Target::Tcl86,
        nagelfar: Tool {
            path: "nagelfar".into(),
            enabled: true,
        },
        nagelfar_db: None,
        tclint: Tool {
            path: "tclint".into(),
            enabled: true,
        },
        tclfmt: Tool {
            path: "tclfmt".into(),
            enabled: true,
        },
    }
}

#[test]
fn accepts_the_tcl_lsp_section_or_a_bare_object() {
    let mut a = base();
    assert!(a.merge(&group(vec![("tclLsp", group(vec![("tclVersion", text("9.0"))]))])));
    assert_eq!(a.tcl_version, Target::Tcl90);

    let mut b = base();
    assert!(b.merge(&group(vec![("tclVersion", text("9.0"))])));
    assert_eq!(b.tcl_version, Target::Tcl90);
}

#[test]
fn reports_whether_the_analysis_target_moved() {
    let mut c = base();
    assert!(!c.merge(&group(vec![("tclVersion", text("8.6"))])), "same version");
    assert!(c.merge(&group(vec![("tclVersion", text("9.0"))])), "changed");
}

#[test]
fn a_partial_update_leaves_other_settings_alone() {
    let mut c = base();
    c.tclint.enabled = false;
    c.merge(&group(vec![("tclVersion", text("9.0"))]));
    assert!(!c.tclint.enabled, "unrelated settings must survive");
}

#[test]
fn tools_accept_boolean_string_and_object_forms() {
    let mut c = base();
    c.merge(&group(vec![("nagelfar", flag(false))]));
    assert!(!c.nagelfar.enabled);

    c.merge(&group(vec![("tclint", text("/usr/bin/tclint"))]));
    assert_eq!(c.tclint.path, "/usr/bin/tclint");

    c.merge(&group(vec![("tclfmt", group(vec![("path", text("/opt/tclfmt")), ("enable", flag(false))]))]));
    assert_eq!(c.tclfmt.path, "/opt/tclfmt");
    assert!(!c.tclfmt.enabled);
}

#[test]
fn the_diagnostics_shorthand_toggles_backends() {
    let mut c = base();
    c.merge(&group(vec![("diagnostics", group(vec![("nagelfar", flag(false)), ("tclint", flag(false))]))]));
    assert!(!c.nagelfar.enabled);
    assert!(!c.tclint.enabled);
}

#[test]
fn a_disabled_tool_reports_no_path_to_run() {
    let mut c = base();
    assert_eq!(c.nagelfar.active(), Some("nagelfar"));
    c.merge(&group(vec![("nagelfar", flag(false))]));
    assert_eq!(c.nagelfar.active(), None);
}

#[test]
fn the_nagelfar_syntax_database_is_configurable() {
    let mut c = base();
    c.merge(&group(vec![("nagelfar", group(vec![("syntaxDb", text("/db/syntaxdb90.tcl"))]))]));
    assert_eq!(c.nagelfar_db.as_deref(), Some("/db/syntaxdb90.tcl"));
}

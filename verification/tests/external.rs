//! What external analysers report.
use tcl_lsp::external::{parse_nagelfar_line, parse_tclint_line, Severity};

#[test]
fn parses_nagelfar_output() {
    let f = parse_nagelfar_line("/tmp/x.tcl: 2: E Unknown variable \"nam\"").unwrap();
    assert_eq!(f.line, 1, "1-based input becomes 0-based");
    assert_eq!(f.severity, Severity::Error);
    assert_eq!(f.message, "Unknown variable \"nam\"");
    assert_eq!(f.source, "nagelfar");
}

#[test]
fn maps_nagelfar_severities() {
    assert_eq!(
        parse_nagelfar_line("/t.tcl: 9: W Something")
            .unwrap()
            .severity,
        Severity::Warning
    );
    assert_eq!(
        parse_nagelfar_line("/t.tcl: 9: N Something")
            .unwrap()
            .severity,
        Severity::Info
    );
}

#[test]
fn ignores_nagelfar_banner_lines() {
    assert!(parse_nagelfar_line("Checking file /tmp/x.tcl").is_none());
}

#[test]
fn parses_tclint_output_with_columns() {
    let f = parse_tclint_line("/tmp/x.tcl:3:21: syntax error: bad expression").unwrap();
    assert_eq!(f.line, 2);
    assert_eq!(f.column, Some(20));
    assert_eq!(f.severity, Severity::Error);
}

#[test]
fn extracts_tclint_violation_codes() {
    let f = parse_tclint_line("/x.tcl:2:3: too many args for puts [command-args]").unwrap();
    assert_eq!(f.code.as_deref(), Some("command-args"));
    assert_eq!(f.message, "too many args for puts");
    assert_eq!(f.severity, Severity::Warning);
}

#[test]
fn ignores_unparseable_lines() {
    assert!(parse_tclint_line("not a diagnostic").is_none());
    assert!(parse_tclint_line("").is_none());
}

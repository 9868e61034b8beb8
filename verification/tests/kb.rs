//! The database of builtins.
use tcl_lsp::kb::{Command, Kb, Subcommand, Target};

fn sample() -> Kb {
    Kb::new(
        "8.6",
        vec![
            Command {
                name: "lsort".into(),
                summary: "Sort the elements of a list".into(),
                synopsis: vec!["lsort ?options? list".into()],
                package: "tcl".into(),
                ..Default::default()
            },
            Command {
                name: "string".into(),
                subcommands: vec![Subcommand {
                    name: "cat".into(),
                    signature: "string cat ?string1? ?string2...?".into(),
                    doc: String::new(),
                }],
                package: "tcl".into(),
                ..Default::default()
            },
        ],
    )
}

#[test]
fn looks_up_by_name() {
    let kb = sample();
    assert_eq!(
        kb.get("lsort").unwrap().summary,
        "Sort the elements of a list"
    );
}

#[test]
fn ignores_a_leading_global_qualifier() {
    assert!(sample().get("::lsort").is_some());
}

#[test]
fn looks_up_ensemble_subcommands() {
    let kb = sample();
    assert_eq!(
        kb.subcommand("string", "cat").unwrap().signature,
        "string cat ?string1? ?string2...?"
    );
    assert!(kb.subcommand("string", "nope").is_none());
}

#[test]
fn hover_includes_signature_and_summary() {
    let kb = sample();
    let md = kb.get("lsort").unwrap().hover_markdown();
    assert!(md.contains("lsort ?options? list"));
    assert!(md.contains("Sort the elements of a list"));
}

#[test]
fn target_parses_from_a_version_string() {
    assert_eq!(Target::parse("9.0"), Target::Tcl90);
    assert_eq!(Target::parse("8.6"), Target::Tcl86);
    assert_eq!(Target::parse(""), Target::Tcl86);
}

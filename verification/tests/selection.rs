//! The constructs around a position.
use tcl_lsp::{command_at, selection_chain, Script};

fn chain(src: &str, needle: &str) -> Vec<String> {
    let script = Script::new(src);
    let at = src.find(needle).expect("needle present");
    selection_chain(&script, at)
        .into_iter()
        .map(|r| src[r].to_string())
        .collect()
}

#[test]
fn chain_grows_from_word_to_command_to_file() {
    let got = chain("puts hello\n", "hello");
    assert_eq!(got[0], "hello");
    assert!(got[1].starts_with("puts hello"));
    assert_eq!(got.last().unwrap(), "puts hello\n");
}

#[test]
fn chain_descends_through_a_proc_body() {
    let src = "proc f {} {\n    set x 1\n}\n";
    let got = chain(src, "x 1");
    assert_eq!(got[0], "x");
    assert!(
        got.iter().any(|r| r.trim_end() == "set x 1"),
        "expected the enclosing command in {got:?}"
    );
    assert!(
        got.iter()
            .any(|r| r.contains("set x 1") && r.contains('\n')),
        "expected the proc body in {got:?}"
    );
    assert_eq!(got.last().unwrap(), src);
}

#[test]
fn chain_ranges_strictly_grow() {
    let src = "namespace eval a {\n proc f {} {\n  puts hi\n }\n}\n";
    let script = Script::new(src);
    let at = src.find("hi").unwrap();
    let ranges = selection_chain(&script, at);
    for pair in ranges.windows(2) {
        let (a, b) = (&pair[0], &pair[1]);
        assert!(
            b.start <= a.start && b.end >= a.end && (b.end - b.start) > (a.end - a.start),
            "each range must strictly contain the previous: {a:?} then {b:?}"
        );
    }
}
#[test]
fn braces_inside_strings_do_not_break_the_chain() {
    let src = "proc f {} {\n    puts \"a } b\"\n}\n";
    let script = Script::new(src);
    let at = src.find("a } b").unwrap();
    let ranges = selection_chain(&script, at);
    assert_eq!(&src[ranges.last().unwrap().clone()], src);
}

#[test]
fn command_at_reports_the_command_name() {
    let src = "puts [lsort $x]\n";
    let script = Script::new(src);
    let at = src.find("$x").unwrap();
    let e = command_at(&script, at).expect("a command");
    assert_eq!(e.name.as_deref(), Some("lsort"));
}

#[test]
fn command_at_finds_the_innermost_command() {
    let src = "proc f {} {\n    lsort $items\n}\n";
    let script = Script::new(src);
    let at = src.find("$items").unwrap();
    let e = command_at(&script, at).expect("a command");
    assert_eq!(e.name.as_deref(), Some("lsort"));
    assert_eq!(e.word_index, 1, "the cursor is on the first argument");
}

#[test]
fn word_index_counts_arguments() {
    let src = "string compare alpha beta\n";
    let script = Script::new(src);
    for (needle, want) in [
        ("string", 0usize),
        ("compare", 1),
        ("alpha", 2),
        ("beta", 3),
    ] {
        let at = src.find(needle).unwrap();
        let e = command_at(&script, at).expect("a command");
        assert_eq!(e.word_index, want, "for {needle}");
    }
}
#[test]
fn word_index_advances_in_trailing_whitespace() {
    let src = "lsort -unique ";
    let script = Script::new(src);
    let e = command_at(&script, src.len()).expect("a command");
    assert_eq!(e.word_index, 2);
}

#[test]
fn no_command_in_an_empty_script() {
    let script = Script::new("");
    assert!(command_at(&script, 0).is_none());
    assert!(selection_chain(&script, 0).is_empty());
}

#[test]
fn an_offset_belongs_to_the_command_that_holds_it() {
    let script = Script::new("set a 1\nset b 2\n");
    let e = command_at(&script, 8).expect("a command");
    assert_eq!(e.command.range, 8..16);
    assert_eq!(e.word_index, 0);
    assert_eq!(e.word_range, Some(8..11));
    let e = command_at(&script, 7).expect("a command");
    assert_eq!(e.command.range, 0..8);
    let e = command_at(&script, 16).expect("the command that ends there");
    assert_eq!(e.command.range, 8..16);
    assert!(command_at(&Script::new("  set a 1\n"), 0).is_none());
    let chain = selection_chain(&script, 8);
    assert_eq!(chain, vec![8..11, 8..16, 0..16]);
}

//! What stands at the cursor.
use tcl_lsp::cursor::{namespace_at, wants_variable, word_at};
use tcl_lsp::{outline, Script};

#[test]
fn word_at_includes_namespace_qualifiers() {
    let text = "puts [::a::b::c 1]";
    let at = text.find("b::c").unwrap();
    assert_eq!(word_at(text, at).as_deref(), Some("::a::b::c"));
}

#[test]
fn word_at_returns_none_in_whitespace() {
    assert_eq!(word_at("a  b", 2), None);
}

#[test]
fn word_at_ignores_bare_colons() {
    assert_eq!(word_at("::", 1), None);
}

#[test]
fn namespace_at_finds_the_innermost_scope() {
    let src = "namespace eval a {\n namespace eval b {\n  set x 1\n }\n}\n";
    let o = outline(&Script::new(src));
    let at = src.find("set x").unwrap();
    assert_eq!(namespace_at(&o.symbols, at), "::a::b");
}

#[test]
fn namespace_at_is_global_outside_any_namespace() {
    let src = "set x 1\nnamespace eval a {\n set y 2\n}\n";
    let o = outline(&Script::new(src));
    assert_eq!(namespace_at(&o.symbols, 0), "::");
}

#[test]
fn variable_completion_triggers_after_a_dollar() {
    let text = "puts $na";
    assert!(wants_variable(text, text.len()));
    assert!(!wants_variable("puts na", 7));
}

#[test]
fn variable_completion_does_not_trigger_mid_command() {
    assert!(!wants_variable("set x 1\nputs ", 13));
}

#[test]
fn a_namespace_holds_from_one_delimiter_of_its_body_to_the_other() {
    let src = "namespace eval a {x}\noo::class create b::C {\n}\nnamespace eval c\n";
    let o = outline(&Script::new(src));
    let at = |needle: &str| namespace_at(&o.symbols, src.find(needle).expect("needle present"));
    assert_eq!(at("eval a"), "::");
    assert_eq!(at("{x}"), "::");
    assert_eq!(at("x}"), "::a");
    assert_eq!(at("}\noo"), "::a");
    assert_eq!(at("\noo"), "::");
    assert_eq!(at("b::C"), "::");
    assert_eq!(at("\n}\nnamespace"), "::b::C");
    assert_eq!(at("eval c"), "::");
}

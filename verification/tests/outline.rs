//! The outline of a file.
use tcl_lsp::{outline, Outline, RefKind, Script, Symbol};

fn parse(src: &str) -> Outline {
    outline(&Script::new(src))
}

fn qnames(o: &Outline) -> Vec<String> {
    fn rec(s: &[Symbol], out: &mut Vec<String>) {
        for sym in s {
            out.push(sym.qname.clone());
            rec(&sym.children, out);
        }
    }
    let mut v = Vec::new();
    rec(&o.symbols, &mut v);
    v
}

#[test]
fn finds_top_level_procs() {
    let o = parse("proc greet {name} { puts hi }\nproc bye {} {}\n");
    assert_eq!(qnames(&o), vec!["::greet", "::bye"]);
    assert_eq!(o.symbols[0].detail.as_deref(), Some("name"));
}

#[test]
fn nests_procs_inside_namespaces() {
    let o = parse("namespace eval util { proc trim {s} {} }\n");
    assert_eq!(qnames(&o), vec!["::util", "::util::trim"]);
}

#[test]
fn handles_nested_namespaces() {
    let o = parse("namespace eval a { namespace eval b { proc c {} {} } }\n");
    assert_eq!(qnames(&o), vec!["::a", "::a::b", "::a::b::c"]);
}

#[test]
fn absolute_names_ignore_the_enclosing_namespace() {
    let o = parse("namespace eval a { proc ::top {} {} }\n");
    assert_eq!(qnames(&o), vec!["::a", "::top"]);
}

#[test]
fn qualified_proc_names_resolve_to_their_namespace() {
    let o = parse("proc net::http::get {url} {}\n");
    assert_eq!(qnames(&o), vec!["::net::http::get"]);
    assert_eq!(o.symbols[0].name, "get");
}

#[test]
fn finds_tcloo_members() {
    let o = parse(
        "oo::class create Shape {\n  variable sides\n  constructor {n} {}\n  \
         method area {} {}\n  destructor {}\n}\n",
    );
    assert_eq!(
        qnames(&o),
        vec![
            "::Shape",
            "::Shape::sides",
            "::Shape::constructor",
            "::Shape::area",
            "::Shape::destructor"
        ]
    );
}

#[test]
fn attaches_leading_comments_as_docs() {
    let o = parse("# Greets a person.\n# Twice.\nproc greet {n} {}\n");
    assert_eq!(
        o.symbols[0].doc.as_deref(),
        Some("Greets a person.\nTwice.")
    );
}

#[test]
fn skips_dynamically_named_definitions() {
    let o = parse("proc [genName] {} {}\nproc real {} {}\n");
    assert_eq!(qnames(&o), vec!["::real"]);
}

#[test]
fn namespace_export_is_not_a_scope() {
    let o = parse("namespace eval a { namespace export * \n proc b {} {} }\n");
    assert_eq!(qnames(&o), vec!["::a", "::a::b"]);
}

#[test]
fn braces_in_strings_do_not_confuse_the_walker() {
    let o = parse("proc f {} { puts \"a } b\" }\nproc g {} {}\n");
    assert_eq!(qnames(&o), vec!["::f", "::g"]);
}

#[test]
fn reports_unterminated_input_as_incomplete() {
    let o = parse("proc f {} {\n");
    assert!(o.errors.iter().any(|e| e.incomplete));
}

#[test]
fn name_ranges_point_at_the_name() {
    let src = "proc greet {n} {}";
    let o = parse(src);
    assert_eq!(&src[o.symbols[0].name_range.clone()], "greet");
}

#[test]
fn records_command_references() {
    let o = parse("proc greet {} {}\ngreet\ngreet\n");
    let calls = o
        .refs
        .iter()
        .filter(|r| r.kind == RefKind::Command && r.name == "greet")
        .count();
    assert_eq!(
        calls, 2,
        "two call sites, excluding the definition's own name"
    );
}

#[test]
fn records_variable_references_with_ranges() {
    let src = "set name x\nputs $name\n";
    let o = parse(src);
    let r = o
        .refs
        .iter()
        .find(|r| r.kind == RefKind::Variable)
        .expect("a variable reference");
    assert_eq!(r.name, "name");
    assert_eq!(&src[r.range.clone()], "name");
}

#[test]
fn references_carry_their_namespace() {
    let o = parse("namespace eval a { helper }\n");
    let r = o
        .refs
        .iter()
        .find(|r| r.name == "helper")
        .expect("command ref");
    assert_eq!(r.namespace, "::a");
}

#[test]
fn binds_proc_parameters_within_the_body() {
    let o = parse("proc f {a {b 2} args} { set c 3 }\n");
    let names: Vec<_> = o.variables.iter().map(|v| v.name.as_str()).collect();
    for want in ["a", "b", "args", "c"] {
        assert!(names.contains(&want), "missing binding {want} in {names:?}");
    }
}

#[test]
fn parameter_scope_is_the_proc_body() {
    let src = "proc f {a} { set b 1 }\nset outer 2\n";
    let o = parse(src);
    let a = o.variables.iter().find(|v| v.name == "a").unwrap();
    let outer = o.variables.iter().find(|v| v.name == "outer").unwrap();
    assert!(a.scope.end < src.len(), "parameter scope stops at the body");
    assert!(
        !a.scope.contains(&outer.range.start),
        "a global set is outside the proc's scope"
    );
}

#[test]
fn binds_foreach_and_lassign_targets() {
    let o = parse("foreach {k v} $pairs { puts $k }\nlassign $l p q\n");
    let names: Vec<_> = o.variables.iter().map(|v| v.name.as_str()).collect();
    for want in ["k", "v", "p", "q"] {
        assert!(names.contains(&want), "missing {want} in {names:?}");
    }
}

#[test]
fn descends_into_control_flow_bodies() {
    let o = parse("if {1} {\n  proc inner {} {}\n}\n");
    assert!(
        qnames(&o).contains(&"::inner".to_string()),
        "a proc defined inside `if` must still be found"
    );
}
#[test]
fn expression_conditions_are_never_parsed_as_scripts() {
    let o = parse("if {($a ne {}) && ($b ne {})} {\n  proc inner {} {}\n}\n");
    assert!(
        o.errors.is_empty(),
        "the condition must not yield errors: {:?}",
        o.errors
    );
    assert!(qnames(&o).contains(&"::inner".to_string()));
}

#[test]
fn descends_into_else_and_elseif_bodies() {
    let o = parse(
        "if {$a} {\n proc t {} {}\n} elseif {$b} {\n proc ei {} {}\n} else {\n proc e {} {}\n}\n",
    );
    let names = qnames(&o);
    for want in ["::t", "::ei", "::e"] {
        assert!(
            names.contains(&want.to_string()),
            "missing {want} in {names:?}"
        );
    }
}

#[test]
fn descends_into_for_and_catch_bodies_but_not_the_test() {
    let o = parse(
        "for {set i 0} {$i < 3} {incr i} {\n proc body {} {}\n}\ncatch {\n proc c {} {}\n}\n",
    );
    let names = qnames(&o);
    assert!(names.contains(&"::body".to_string()));
    assert!(names.contains(&"::c".to_string()));
    assert!(o.errors.is_empty(), "{:?}", o.errors);
}

#[test]
fn does_not_treat_expr_conditions_as_scripts() {
    let o = parse("while {1} { set x 1 }\n");
    assert!(qnames(&o).is_empty());
    assert!(o.variables.iter().any(|v| v.name == "x"));
}

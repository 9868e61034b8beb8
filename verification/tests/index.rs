//! The workspace index.
use tcl_lsp::{path_to_uri, uri_to_path, Index};

fn index(files: &[(&str, &str)]) -> Index {
    let mut idx = Index::new();
    for (uri, text) in files {
        idx.set_file(*uri, text);
    }
    idx
}

#[test]
fn resolves_across_files() {
    let idx = index(&[
        (
            "file:///a.tcl",
            "namespace eval util { proc greet {n} {} }\n",
        ),
        ("file:///b.tcl", "util::greet hi\n"),
    ]);
    let hits = idx.resolve("util::greet", "::");
    assert_eq!(hits.len(), 1);
    assert_eq!(hits[0].0, "file:///a.tcl");
    assert_eq!(hits[0].1.qname, "::util::greet");
}

#[test]
fn absolute_names_do_not_match_a_different_namespace() {
    let idx = index(&[(
        "file:///a.tcl",
        "namespace eval a { proc f {} {} }\nnamespace eval b { proc f {} {} }\n",
    )]);
    let hits = idx.resolve("::a::f", "::");
    assert_eq!(hits.len(), 1);
    assert_eq!(hits[0].1.qname, "::a::f");
}
#[test]
fn relative_lookup_prefers_the_current_namespace() {
    let idx = index(&[(
        "file:///a.tcl",
        "proc f {} {}\nnamespace eval a { proc f {} {} }\n",
    )]);
    let in_a = idx.resolve("f", "::a");
    assert_eq!(in_a.len(), 1);
    assert_eq!(in_a[0].1.qname, "::a::f");

    let at_global = idx.resolve("f", "::");
    assert_eq!(at_global.len(), 1);
    assert_eq!(at_global[0].1.qname, "::f");
}

#[test]
fn finds_references_across_files() {
    let idx = index(&[
        ("file:///a.tcl", "proc greet {} {}\ngreet\n"),
        ("file:///b.tcl", "greet\ngreet\n"),
    ]);
    let refs = idx.references("::greet");
    assert_eq!(refs.len(), 3, "one call in a.tcl, two in b.tcl");
}

#[test]
fn search_matches_qualified_names() {
    let idx = index(&[("file:///a.tcl", "namespace eval util { proc trim {} {} }\n")]);
    assert_eq!(idx.search("trim", 10).len(), 1);
    assert_eq!(idx.search("util", 10).len(), 2, "namespace and proc");
    assert!(idx.search("nope", 10).is_empty());
}

#[test]
fn removing_a_file_drops_its_symbols() {
    let mut idx = index(&[("file:///a.tcl", "proc gone {} {}\n")]);
    assert_eq!(idx.resolve("gone", "::").len(), 1);
    idx.remove("file:///a.tcl");
    assert!(idx.resolve("gone", "::").is_empty());
}

#[test]
fn reindexing_replaces_old_symbols() {
    let mut idx = index(&[("file:///a.tcl", "proc old {} {}\n")]);
    idx.set_file("file:///a.tcl", "proc new {} {}\n");
    assert!(idx.resolve("old", "::").is_empty());
    assert_eq!(idx.resolve("new", "::").len(), 1);
}

#[test]
fn completions_include_workspace_procs_and_scoped_vars() {
    let src = "proc helper {} {}\nproc f {alpha} {\n  set beta 1\n  \n}\nset gamma 2\n";
    let mut idx = Index::new();
    idx.set_file("file:///a.tcl", src);
    let at = src.find("  \n}").unwrap() + 2;
    let c = idx.completions_at("file:///a.tcl", at);
    let cmds: Vec<_> = c.commands.iter().map(|d| d.name.as_str()).collect();
    assert!(cmds.contains(&"helper"));
    let vars: Vec<_> = c.variables.iter().map(|v| v.name.as_str()).collect();
    assert!(vars.contains(&"alpha"), "parameter in scope: {vars:?}");
    assert!(vars.contains(&"beta"), "local in scope: {vars:?}");
}

#[test]
fn uri_roundtrip_handles_spaces() {
    let p = "/tmp/some dir/a.tcl";
    let uri = path_to_uri(p);
    assert!(uri.contains("%20"), "space must be encoded: {uri}");
    assert_eq!(uri_to_path(&uri).unwrap(), p);
}

#[test]
fn signature_renders_arguments() {
    let idx = index(&[("file:///a.tcl", "proc greet {name greeting} {}\n")]);
    let hits = idx.resolve("greet", "::");
    assert_eq!(hits[0].1.signature(), "::greet {name greeting}");
}

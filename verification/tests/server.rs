//! The answers of the server.
use tcl_lsp::external::{Finding, Severity};
use tcl_lsp::kb::{Command, Kb, Subcommand};
use tcl_lsp::lsp::{capabilities, ItemKind, Level, Mention, Span, TextChange};
use tcl_lsp::server::{
    file_link, is_thorough, negotiate_encoding, notification_kind, request_kind,
    synopsis_parameters, workspace_roots, Disk, NotificationKind, RequestKind, Server,
};
use tcl_lsp::{LinePos, PositionEncoding};

const A: &str = "file:///w/a.tcl";
const B: &str = "file:///w/b.tcl";

fn at(line: u32, character: u32) -> LinePos {
    LinePos { line, character }
}

fn span(l0: u32, c0: u32, l1: u32, c1: u32) -> Span {
    Span { start: at(l0, c0), end: at(l1, c1) }
}

fn builtins() -> Kb {
    Kb::new(
        "8.6",
        vec![
            Command {
                name: "lsort".to_string(),
                summary: "Sort the elements of a list".to_string(),
                synopsis: vec!["lsort ?options? list".to_string()],
                ..Default::default()
            },
            Command {
                name: "string".to_string(),
                summary: "Manipulate strings".to_string(),
                subcommands: vec![Subcommand {
                    name: "cat".to_string(),
                    signature: "string cat ?string1? ?string2...?".to_string(),
                    doc: "Concatenate.".to_string(),
                }],
                ..Default::default()
            },
        ],
    )
}

fn server(files: &[(&str, &str)]) -> Server {
    let mut s = Server::new(builtins(), PositionEncoding::Utf8);
    for (uri, text) in files {
        s.did_open(uri, text.to_string(), 1);
    }
    s
}

#[test]
fn an_opened_buffer_is_known_and_versioned() {
    let mut s = server(&[(A, "set x 1\n")]);
    assert_eq!(s.text(A), Some("set x 1\n"));
    assert_eq!(s.version(A), Some(1));
    s.did_open(A, "set y 2\n".to_string(), 7);
    assert_eq!(s.text(A), Some("set y 2\n"));
    assert_eq!(s.version(A), Some(7));
    assert_eq!(s.text(B), None);
    assert_eq!(s.version(B), None);
}

#[test]
fn changes_are_applied_one_after_another() {
    let mut s = server(&[(A, "set a 1\nset b 2\n")]);
    let changes = vec![
        TextChange { span: Some(span(0, 4, 0, 5)), text: "alpha".to_string() },
        TextChange { span: Some(span(0, 10, 0, 11)), text: "9".to_string() },
    ];
    assert!(s.did_change(A, &changes, 2));
    assert_eq!(s.text(A), Some("set alpha 9\nset b 2\n"));
    assert_eq!(s.version(A), Some(2));
    let whole = vec![TextChange { span: None, text: "puts hi\n".to_string() }];
    assert!(s.did_change(A, &whole, 3));
    assert_eq!(s.text(A), Some("puts hi\n"));
    assert!(s.did_change(B, &whole, 3), "a buffer that is not open stays closed");
    assert_eq!(s.text(B), None);
}

#[test]
fn an_edit_moves_what_the_index_finds() {
    let mut s = server(&[(A, "proc old {} {}\n"), (B, "old\nnew\n")]);
    assert!(s.goto_definition(B, at(0, 1)).is_some());
    assert!(s.goto_definition(B, at(1, 1)).is_none());
    let change = vec![TextChange { span: Some(span(0, 5, 0, 8)), text: "new".to_string() }];
    assert!(s.did_change(A, &change, 2));
    assert!(s.goto_definition(B, at(0, 1)).is_none());
    let found = s.goto_definition(B, at(1, 1)).unwrap();
    assert_eq!(found.len(), 1);
    assert_eq!(found[0].uri, A);
    assert_eq!(found[0].span, span(0, 5, 0, 8));
}

#[test]
fn a_closed_file_is_indexed_as_it_is_on_disk() {
    let mut s = server(&[(A, "proc unsaved {} {}\n"), (B, "saved\nunsaved\n")]);
    s.did_close(A, &Disk::Text("proc saved {} {}\n".to_string()));
    assert_eq!(s.text(A), None);
    assert!(s.goto_definition(B, at(0, 1)).is_some());
    assert!(s.goto_definition(B, at(1, 1)).is_none());
    s.did_close(A, &Disk::NoPath);
    assert!(s.goto_definition(B, at(0, 1)).is_some());
    s.did_close(A, &Disk::Gone);
    assert!(s.goto_definition(B, at(0, 1)).is_none());
}

#[test]
fn an_open_buffer_wins_over_the_disk() {
    let mut s = server(&[(A, "proc mine {} {}\n"), (B, "mine\ntheirs\n")]);
    let disk = "proc theirs {} {}\n".to_string();
    s.did_change_on_disk(A, Some(&disk));
    assert!(s.goto_definition(B, at(0, 1)).is_some());
    assert!(s.goto_definition(B, at(1, 1)).is_none());
    let other = "file:///w/c.tcl";
    s.did_change_on_disk(other, Some(&disk));
    assert_eq!(s.goto_definition(B, at(1, 1)).unwrap()[0].uri, other);
    s.did_change_on_disk(other, None);
    assert!(s.goto_definition(B, at(1, 1)).is_none());
}

#[test]
fn references_include_the_declaration_on_request() {
    let s = server(&[(A, "proc greet {} {}\ngreet\n"), (B, "greet\n")]);
    let uses = s.references(B, at(0, 2), false).unwrap();
    let places: Vec<(String, Span)> = uses.into_iter().map(|l| (l.uri, l.span)).collect();
    assert_eq!(
        places,
        vec![(A.to_string(), span(1, 0, 1, 5)), (B.to_string(), span(0, 0, 0, 5))]
    );
    let all = s.references(B, at(0, 2), true).unwrap();
    assert_eq!(all.len(), 3);
    assert_eq!(all[2].span, span(0, 5, 0, 10));
    assert!(s.references(B, at(1, 0), true).is_none(), "no word there");
}

#[test]
fn a_file_without_a_proper_uri_has_no_locations() {
    let mut s = server(&[(B, "greet\n")]);
    s.index_file("not a uri", "proc greet {} {}\n");
    assert!(s.goto_definition(B, at(0, 1)).is_none());
    assert!(s.workspace_symbols("greet").is_empty());
    s.index_file(A, "proc greet {} {}\n");
    assert_eq!(s.goto_definition(B, at(0, 1)).unwrap().len(), 1);
    assert_eq!(s.workspace_symbols("GREET").len(), 1);
}

#[test]
fn highlights_tell_uses_from_definitions() {
    let s = server(&[(A, "proc f {} {}\nf\n::f\n")]);
    let h = s.highlights(A, at(1, 0)).unwrap();
    let shape: Vec<(Span, bool)> = h.into_iter().map(|h| (h.span, h.write)).collect();
    assert_eq!(
        shape,
        vec![
            (span(1, 0, 1, 1), false),
            (span(2, 0, 2, 3), false),
            (span(0, 5, 0, 6), true),
        ]
    );
}

#[test]
fn hover_prefers_the_users_own_definition() {
    let s = server(&[(A, "# Sorts my way.\nproc lsort {l} {}\nlsort\nstring\nnothing\n")]);
    assert_eq!(
        s.hover(A, at(2, 1)).as_deref(),
        Some("```tcl\n::lsort {l}\n```\n\nSorts my way.")
    );
    assert_eq!(
        s.hover(A, at(3, 1)).as_deref(),
        Some("```tcl\nstring\n```\n\n**Manipulate strings**\n\nSubcommands: `cat`\n")
    );
    assert_eq!(s.hover(A, at(4, 1)), None);
    assert_eq!(s.hover(B, at(0, 0)), None);
}

#[test]
fn completion_offers_variables_after_a_dollar() {
    let s = server(&[(A, "proc f {zeta alpha} {\n  set mid 1\n  puts $\n}\nset out 2\n")]);
    let items = s.completion(A, at(2, 8)).unwrap();
    let labels: Vec<&str> = items.iter().map(|i| i.label.as_str()).collect();
    assert_eq!(labels, vec!["alpha", "mid", "out", "zeta"]);
    assert!(items.iter().all(|i| i.kind == ItemKind::Variable));
}

#[test]
fn completion_offers_definitions_before_builtins() {
    let s = server(&[(A, "proc mine {} {}\nproc mine {} {}\nmi\n")]);
    let items = s.completion(A, at(2, 2)).unwrap();
    let sorts: Vec<&str> = items.iter().map(|i| i.sort_text.as_deref().unwrap()).collect();
    assert_eq!(sorts, vec!["0mine", "1lsort", "1string"]);
    assert_eq!(items[0].detail.as_deref(), Some("::mine {}"));
    assert_eq!(items[0].kind, ItemKind::Function);
    assert_eq!(items[1].detail.as_deref(), Some("lsort ?options? list"));
    assert_eq!(items[2].detail.as_deref(), Some("Manipulate strings"));
    assert!(items[1].markdown && !items[0].markdown);
    assert!(s.completion(B, at(0, 0)).is_none());
}

#[test]
fn folds_leave_the_closing_brace_visible() {
    let folds = |src: &str| -> Vec<(u32, u32)> {
        let s = server(&[(A, src)]);
        s.folding(A).unwrap().iter().map(|f| (f.start_line, f.end_line)).collect()
    };
    assert_eq!(folds("proc f {} {\n puts hi\n}\n"), vec![(0, 1)]);
    assert_eq!(folds("proc f {} {\n puts hi\n}"), vec![(0, 1)]);
    assert_eq!(folds("proc f {} {\n puts hi\n}; f\n"), vec![(0, 1)]);
    assert_eq!(folds("proc f {} {\n  a\n  b\n}\nproc g {} {}\n"), vec![(0, 2)]);
    assert_eq!(folds("proc f {} {\n}\n"), vec![(0, 0)]);
    assert_eq!(folds("proc f {} {\n} \\\n;\n"), vec![(0, 0)]);
    assert_eq!(
        folds("namespace eval n {\n proc f {} {\n  a\n }\n proc g {} {}\n}\n"),
        vec![(0, 4), (1, 2)]
    );
}

#[test]
fn signatures_at_the_start_of_a_line_are_those_of_its_command() {
    let s = server(&[(A, "proc one {a} {}\nproc two {b} {}\none 1\ntwo 2\n")]);
    let help = s.signature_help(A, at(3, 0)).unwrap();
    assert_eq!(help.signature.label, "::two {b}");
}

#[test]
fn selections_grow_outwards() {
    let s = server(&[(A, "puts hello\n"), (B, "")]);
    let got = s.selection_ranges(A, &vec![at(0, 6)]).unwrap();
    assert_eq!(got, vec![vec![span(0, 5, 0, 10), span(0, 0, 1, 0)]]);
    let empty = s.selection_ranges(B, &vec![at(3, 4)]).unwrap();
    assert_eq!(empty, vec![vec![span(3, 4, 3, 4)]]);
}

#[test]
fn links_name_files_and_packages() {
    let s = server(&[
        (A, "source lib/x.tcl\npackage require -exact net 1.0\npackage require gone\n"),
        (B, "package provide net 1.0\n"),
    ]);
    let links = s.document_links(A).unwrap();
    assert_eq!(links.len(), 2);
    match &links[0] {
        Mention::File { span: at, path } => {
            assert_eq!(*at, span(0, 7, 0, 16));
            assert_eq!(path, "lib/x.tcl");
        }
        Mention::Package(_) => panic!("a file comes first"),
    }
    match &links[1] {
        Mention::Package(l) => {
            assert_eq!(l.target, B);
            assert_eq!(l.tooltip, "package provide net");
            assert_eq!(l.span, span(1, 23, 1, 26));
        }
        Mention::File { .. } => panic!("a package comes second"),
    }
    let link = file_link(span(0, 7, 0, 16), "lib/x.tcl", "/w/lib/x y.tcl").unwrap();
    assert_eq!(link.target, "file:///w/lib/x%20y.tcl");
    assert_eq!(link.tooltip, "source lib/x.tcl");
}

#[test]
fn signatures_come_from_procs_and_builtins() {
    let s = server(&[(A, "proc greet {name {how hi}} {}\ngreet bob \nlsort -unique \nstring cat a\n")]);
    let user = s.signature_help(A, at(1, 10)).unwrap();
    assert_eq!(user.signature.label, "::greet {name {how hi}}");
    assert_eq!(user.signature.parameters, vec!["name", "how"]);
    assert_eq!(user.active_parameter, 1);
    let builtin = s.signature_help(A, at(2, 14)).unwrap();
    assert_eq!(builtin.signature.label, "lsort ?options? list");
    assert_eq!(builtin.signature.parameters, vec!["?options?", "list"]);
    assert_eq!(builtin.active_parameter, 1);
    let sub = s.signature_help(A, at(3, 12)).unwrap();
    assert_eq!(sub.signature.label, "string cat ?string1? ?string2...?");
    assert_eq!(sub.signature.documentation.as_deref(), Some("Concatenate."));
    assert_eq!(sub.active_parameter, 1);
}

#[test]
fn symbols_nest_and_workspace_search_is_by_part() {
    let s = server(&[(A, "namespace eval util { proc trim {s} {} }\n")]);
    let nodes = s.document_symbols(A).unwrap();
    assert_eq!(nodes.len(), 1);
    assert_eq!(nodes[0].name, "util");
    assert_eq!(nodes[0].selection, span(0, 15, 0, 19));
    assert_eq!(nodes[0].children[0].name, "trim");
    assert_eq!(nodes[0].children[0].detail.as_deref(), Some("s"));
    let found = s.workspace_symbols("UTIL::TR");
    assert_eq!(found.len(), 1);
    assert_eq!(found[0].name, "::util::trim");
    assert_eq!(found[0].location.span, span(0, 27, 0, 31));
}

#[test]
fn diagnostics_leave_out_what_is_half_typed() {
    let s = server(&[(A, "puts \"a\"b\n"), (B, "puts hi\nset x {")]);
    let own = s.diagnostics(A, &Vec::new()).unwrap();
    assert_eq!(own.len(), 1);
    assert_eq!(own[0].level, Level::Error);
    assert_eq!(own[0].message, "syntax error");
    assert_eq!(own[0].span, span(0, 8, 0, 9));
    let open = s.diagnostics(B, &Vec::new()).unwrap();
    assert_eq!(open.len(), 1, "the open brace is text, so it is reported");
    assert_eq!(open[0].level, Level::Warning);
    let s = server(&[(A, "puts [list a  \n")]);
    assert_eq!(s.diagnostics(A, &Vec::new()).unwrap().len(), 1);
}

#[test]
fn findings_reach_to_the_end_of_their_line() {
    let s = server(&[(A, "puts hi\nset x\n")]);
    let findings = vec![
        Finding {
            line: 1,
            column: Some(2),
            severity: Severity::Info,
            message: "odd".to_string(),
            code: Some("c".to_string()),
            source: "tclint",
        },
        Finding {
            line: 0,
            column: None,
            severity: Severity::Warning,
            message: "hm".to_string(),
            code: None,
            source: "nagelfar",
        },
    ];
    let d = s.diagnostics(A, &findings).unwrap();
    assert_eq!(d.len(), 2);
    assert_eq!(d[0].span, span(1, 2, 2, 0));
    assert_eq!(d[0].level, Level::Information);
    assert_eq!(d[0].code.as_deref(), Some("c"));
    assert_eq!(d[0].source, "tclint");
    assert_eq!(d[1].span, span(0, 0, 1, 0));
}

#[test]
fn formatting_replaces_the_whole_text_where_it_differs() {
    let s = server(&[(A, "set  x 1\n")]);
    let nice = "set x 1\n".to_string();
    let edits = s.formatting(A, Some(&nice)).unwrap();
    assert_eq!(edits.len(), 1);
    assert_eq!(edits[0].span, span(0, 0, 1, 0));
    assert_eq!(edits[0].new_text, nice);
    assert!(s.formatting(A, Some(&"set  x 1\n".to_string())).unwrap().is_empty());
    assert!(s.formatting(A, None).unwrap().is_empty());
    assert!(s.formatting(B, Some(&nice)).is_none());
}

#[test]
fn requests_are_known_by_their_method() {
    assert_eq!(request_kind("textDocument/hover"), RequestKind::Hover);
    assert_eq!(request_kind("workspace/symbol"), RequestKind::WorkspaceSymbols);
    assert_eq!(request_kind("textDocument/formatting"), RequestKind::Formatting);
    assert_eq!(request_kind("textDocument/rename"), RequestKind::Unknown);
    assert_eq!(notification_kind("textDocument/didSave"), NotificationKind::Saved);
    assert_eq!(notification_kind("$/setTrace"), NotificationKind::Unknown);
    assert!(is_thorough(NotificationKind::Opened) && is_thorough(NotificationKind::Saved));
    assert!(!is_thorough(NotificationKind::Changed));
}

#[test]
fn utf8_is_taken_only_when_it_is_offered() {
    let both = vec!["utf-16".to_string(), "utf-8".to_string()];
    assert_eq!(negotiate_encoding(Some(&both)), PositionEncoding::Utf8);
    let one = vec!["utf-16".to_string()];
    assert_eq!(negotiate_encoding(Some(&one)), PositionEncoding::Utf16);
    assert_eq!(negotiate_encoding(None), PositionEncoding::Utf16);
    let c = capabilities(PositionEncoding::Utf8);
    assert_eq!(c.encoding, PositionEncoding::Utf8);
    assert_eq!(c.signature_triggers, vec![" ", "["]);
    assert_eq!(c.signature_retriggers, vec![" "]);
    assert_eq!(c.completion_triggers, vec!["$", ":"]);
}

#[test]
fn folders_come_before_the_root() {
    let folders = vec!["file:///a".to_string(), "http://b".to_string()];
    let root = "file:///r%20s".to_string();
    assert_eq!(workspace_roots(&folders, Some(&root)), vec!["/a"]);
    assert_eq!(workspace_roots(&Vec::new(), Some(&root)), vec!["/r s"]);
    assert!(workspace_roots(&Vec::new(), None).is_empty());
}

#[test]
fn a_synopsis_names_its_parameters() {
    assert_eq!(synopsis_parameters("lsort ?options? list"), vec!["?options?", "list"]);
    assert!(synopsis_parameters("").is_empty());
}

#[test]
fn replaced_builtins_are_used() {
    let mut s = server(&[(A, "fresh\n")]);
    assert_eq!(s.hover(A, at(0, 1)), None);
    s.set_builtins(Kb::new(
        "9.0",
        vec![Command { name: "fresh".to_string(), ..Default::default() }],
    ));
    assert_eq!(s.hover(A, at(0, 1)).as_deref(), Some("```tcl\nfresh\n```\n"));
}

#[test]
fn a_buffer_opened_twice_is_closed_once() {
    let mut s = server(&[(A, "set x 1\n"), (B, "")]);
    s.did_open(A, "set y 2\n".to_string(), 5);
    assert_eq!(s.text(A), Some("set y 2\n"));
    assert_eq!(s.version(A), Some(5));
    s.did_close(A, &Disk::Gone);
    assert_eq!(s.text(A), None);
    assert_eq!(s.version(A), None);
    assert_eq!(s.text(B), Some(""));
    assert!(s.document_symbols(A).is_none());
}

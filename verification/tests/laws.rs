//! What holds of the library as a whole, on concrete values.
use tcl_lsp::config::{Config, Member, Setting, Variable};
use tcl_lsp::cursor::{namespace_at, wants_variable, word_at};
use tcl_lsp::database::{add_page, apply_option_aliases, assemble};
use tcl_lsp::external::{
    formatted, nagelfar_args, nagelfar_findings, parse_nagelfar_line, tclint_findings,
    HOST_COMMAND_DB,
};
use tcl_lsp::kb::{Command, Kb, OptionSpec, Target};
use tcl_lsp::manpage::{clean, page_file, parse_page, split_fields, PageFile};
use tcl_lsp::semantic::{token_types, tokens, T_KEYWORD, T_PARAMETER};
use tcl_lsp::transport::{
    body_text, decode, is_exit, Envelope, FrameError, HeaderReader, Step, Wire, RESYNC_CAP,
};
use tcl_lsp::uri::{enters, is_tcl_file, skips_directory};
use tcl_lsp::{
    outline, path_to_uri, qualify, selection_chain, split_args, tcl_generation, uri_to_path,
    Document, Index, LineIndex, LinePos, LinkKind, PositionEncoding, Script, Token, TokenKind,
};

#[test]
fn commands_run_forward_and_words_make_up_their_tokens() {
    let src = "# c\nset a {b c}; puts \"$a [f $b]\"\nproc f {x} { return $x }\n";
    let script = Script::new(src);
    let mut end = 0;
    let mut count = 0;
    for c in script.commands().collect() {
        let c = c.unwrap();
        assert!(end <= c.range.start && c.range.start < c.range.end);
        assert!(c.range.end <= src.len());
        let words = c.words();
        assert_eq!(words.len(), c.num_words);
        let joined: Vec<Token> = words.iter().flat_map(|w| w.iter().copied()).collect();
        assert_eq!(joined, c.tokens);
        for t in &c.tokens {
            assert!(c.range.start <= t.start && t.start + t.size <= c.range.end);
        }
        end = c.range.end;
        count += 1;
    }
    assert_eq!(count, 3);
}

#[test]
fn token_kinds_have_numbers() {
    assert_eq!(TokenKind::from_raw(1), TokenKind::Word);
    assert_eq!(TokenKind::from_raw(2), TokenKind::SimpleWord);
    assert_eq!(TokenKind::from_raw(4), TokenKind::Text);
    assert_eq!(TokenKind::from_raw(8), TokenKind::Backslash);
    assert_eq!(TokenKind::from_raw(16), TokenKind::Command);
    assert_eq!(TokenKind::from_raw(32), TokenKind::Variable);
    assert_eq!(TokenKind::from_raw(64), TokenKind::SubExpr);
    assert_eq!(TokenKind::from_raw(128), TokenKind::Operator);
    assert_eq!(TokenKind::from_raw(256), TokenKind::ExpandWord);
    assert_eq!(TokenKind::from_raw(3), TokenKind::Unknown(3));
    assert!(TokenKind::Text.is_literal() && TokenKind::SimpleWord.is_literal());
    assert!(!TokenKind::Word.is_literal());
    assert_eq!(tcl_generation(), 8);
}

#[test]
fn text_of_half_a_character_is_none() {
    let script = Script::new("é");
    assert_eq!(script.text(0..1), None);
    assert_eq!(script.text(0..2), Some("é"));
    assert_eq!(script.text(0..99), Some("é"));
    assert_eq!(script.text(7..3), Some(""));
    let past = script.parse_command_at(9, false).unwrap_err();
    assert_eq!(past.offset, 9);
    assert_eq!(past.message(), "Tcl parse error at byte 9");
    let open = Script::new("puts 0123456 {").parse_command_at(0, false).unwrap_err();
    assert_eq!(open.message(), "Tcl parse error at byte 13 (incomplete input)");
}

#[test]
fn findings_stay_in_the_file_and_names_are_absolute() {
    let src = "namespace eval a { proc :x {} { proc y {} {} } }\nforeach {k v} $l { set z \"";
    let o = outline(&Script::new(src));
    let mut all: Vec<&tcl_lsp::Symbol> = o.symbols.iter().collect();
    let mut names = Vec::new();
    while let Some(s) = all.pop() {
        assert!(s.qname.starts_with("::"));
        assert!(s.full_range.end <= src.len() && s.name_range.end <= src.len());
        names.push(s.qname.clone());
        all.extend(s.children.iter());
    }
    names.sort();
    assert_eq!(names, vec!["::a", "::a:::x", "::a:::y"]);
    assert!(o.errors.iter().all(|e| e.range.end <= src.len()));
}

#[test]
fn links_and_declarations_are_found() {
    let o = outline(&Script::new(
        "source -encoding utf-8 a.tcl\npackage require Tk 8.6\npackage provide my 1\nsource $x\n",
    ));
    let got: Vec<(LinkKind, &str)> = o.links.iter().map(|l| (l.kind, l.name.as_str())).collect();
    assert_eq!(got, vec![(LinkKind::Source, "a.tcl"), (LinkKind::PackageRequire, "Tk")]);
    assert_eq!(o.provides.len(), 1);
    assert_eq!(o.provides[0].name, "my");
    assert_eq!(o.provides[0].range, 68..70);
}

#[test]
fn a_body_is_all_that_stands_in_its_braces() {
    let src = "proc f {} {\n  set a \\\n    1\n  if 1 {\n set b 2 }\n}\nputs \"x [y \\\n z] w\"\n";
    let o = outline(&Script::new(src));
    assert!(o.errors.is_empty());
    let names: Vec<&str> = o.variables.iter().map(|v| v.name.as_str()).collect();
    assert_eq!(names, vec!["a", "b"]);
    let at = src.find("set b").unwrap();
    let chain = selection_chain(&Script::new(src), at);
    assert!(chain.iter().any(|r| &src[r.clone()] == "\n set b 2 "));
}

#[test]
fn nesting_stops_at_the_limit() {
    let deep = |n: usize| format!("{}set deep 1{}", "if 1 {".repeat(n), "}".repeat(n));
    assert_eq!(outline(&Script::new(&deep(99))).variables.len(), 1);
    assert_eq!(outline(&Script::new(&deep(100))).variables.len(), 0);
}

#[test]
fn qualified_names_stay_as_they_are() {
    assert_eq!(qualify("::a", "b"), "::a::b");
    assert_eq!(qualify("::", "b"), "::b");
    assert_eq!(qualify("", "b"), "::b");
    assert_eq!(qualify("::a", "::b"), "::b");
    let once = qualify("::a", "b::c");
    assert_eq!(qualify("::x", &once), once);
}

#[test]
fn argument_lists_split_into_names() {
    assert_eq!(split_args("a {b 2} args"), vec!["a", "b", "args"]);
    assert_eq!(split_args(" {c {d e}}x "), vec!["c", "x"]);
    assert!(split_args(" { } ").is_empty());
}

#[test]
fn every_boundary_comes_back_from_its_position() {
    let text = "é😀\r\nx\n\n😀";
    let li = LineIndex::new(text);
    assert_eq!(li.line_count(), 4);
    for (i, _) in text.char_indices().chain([(text.len(), ' ')]) {
        for enc in [PositionEncoding::Utf8, PositionEncoding::Utf16] {
            assert_eq!(li.offset(li.position(i, enc), enc), i);
        }
    }
    let p = li.position(6, PositionEncoding::Utf16);
    assert_eq!((p.line, p.character), (0, 3));
    let inside = LinePos { line: 0, character: 2 };
    assert_eq!(li.offset(inside, PositionEncoding::Utf16), 2, "a pair is not split");
    let far = LinePos { line: 0, character: u32::MAX };
    assert_eq!(li.offset(far, PositionEncoding::Utf16), 8);
    assert_eq!(li.position(1, PositionEncoding::Utf16).character, 0);
    assert_eq!(li.position(999, PositionEncoding::Utf8).line, 3);
}

#[test]
fn edits_are_local_and_can_be_undone() {
    let mut doc = Document::new("aéb".to_string(), 1);
    doc.edit(2..3, "X");
    assert_eq!(doc.text(), "aXb");
    doc.edit(1..2, "é");
    assert_eq!(doc.text(), "aéb");
    doc.edit(9..2, "!");
    assert_eq!(doc.text(), "aéb!");
    doc.edit(1..3, "é");
    assert_eq!(doc.text(), "aéb!");
    assert_eq!(doc.version(), 1);
    doc.set_version(4);
    assert_eq!(doc.version(), 4);
    doc.replace("z".to_string());
    assert_eq!(doc.text(), "z");
    assert!(doc.edit_fits(&(0..1), "long"));
}

#[test]
fn selections_strictly_grow_to_the_whole_file() {
    let src = "if {1} { puts [list a \"b c\"] }\n";
    let at = src.find("b c").unwrap();
    let got: Vec<&str> =
        selection_chain(&Script::new(src), at).into_iter().map(|r| &src[r]).collect();
    assert_eq!(
        got,
        vec![
            "b",
            "b c",
            "\"b c\"",
            "list a \"b c\"",
            "[list a \"b c\"]",
            "puts [list a \"b c\"] ",
            " puts [list a \"b c\"] ",
            "{ puts [list a \"b c\"] }",
            src,
        ]
    );
}

#[test]
fn indexing_and_removing_touch_one_file() {
    let mut idx = Index::new();
    assert!(idx.is_empty());
    idx.set_file("u:a", "proc a {} {}\n");
    idx.set_file("u:b", "proc b {} {}\npackage provide p 1\n");
    idx.set_file("u:a", "proc c {} {}\n");
    assert_eq!(idx.len(), 2);
    assert!(idx.contains("u:a"));
    assert_eq!(idx.file("u:b").unwrap().defs[0].qname, "::b");
    assert_eq!(idx.provider_of("p").unwrap().0, "u:b");
    assert!(idx.provider_of("q").is_none());
    idx.remove("u:a");
    idx.remove("u:a");
    assert_eq!(idx.len(), 1);
    assert!(idx.file("u:a").is_none());
    assert!(idx.resolve("c", "::").is_empty());
    assert_eq!(idx.resolve("b", "::").len(), 1);
}

#[test]
fn lookup_falls_back_to_the_last_part() {
    let mut idx = Index::new();
    idx.set_file("u:a", "namespace eval n { proc f {} {} }\n");
    assert_eq!(idx.resolve("f", "::")[0].1.qname, "::n::f");
    assert!(idx.resolve("::zz::f", "::").is_empty(), "an absolute name is exact");
    assert_eq!(idx.resolve("zz::f", "::")[0].1.qname, "::n::f");
    assert!(idx.resolve("g", "::n").is_empty());
}

#[test]
fn searches_ignore_case_and_stop_at_the_limit() {
    let mut idx = Index::new();
    idx.set_file("u:a", "proc Alpha {} {}\nproc alphabet {} {}\nproc beta {} {}\n");
    assert_eq!(idx.search("ALPHA", 10).len(), 2);
    assert_eq!(idx.search("", 10).len(), 3);
    assert_eq!(idx.search("alpha", 1).len(), 1);
    assert_eq!(idx.search("alpha", 0).len(), 1);
}

#[test]
fn only_visible_variables_are_offered_once_and_in_order() {
    let src = "set b 1\nset a 1\nset b 2\nproc f {c} {}\n";
    let mut idx = Index::new();
    idx.set_file("u:a", src);
    let got = idx.completions_at("u:a", 3);
    let names: Vec<(&str, usize)> =
        got.variables.iter().map(|v| (v.name.as_str(), v.range.start)).collect();
    assert_eq!(names, vec![("a", 12), ("b", 4)]);
    assert!(idx.completions_at("u:none", 3).variables.is_empty());
    assert_eq!(idx.completions_at("u:none", 3).commands.len(), 1);
}

#[test]
fn paths_come_back_from_their_uris() {
    for p in ["/a/b.tcl", "/ü %/x", "rel", ""] {
        assert_eq!(uri_to_path(&path_to_uri(p)).as_deref(), Some(p));
    }
    assert_eq!(path_to_uri("/ü %"), "file:///%C3%BC%20%25");
    assert_eq!(uri_to_path("http://x"), None);
    assert_eq!(uri_to_path("file:///a%2"), None);
    assert_eq!(uri_to_path("file:///a%zz"), None);
    assert_eq!(uri_to_path("file:///%ff"), None);
    assert_eq!(uri_to_path("file:///%c3%bc").as_deref(), Some("/ü"));
}

#[test]
fn a_scan_takes_tcl_files_and_skips_tool_directories() {
    for name in ["a.tcl", "b.tm", "c.test", "d.itcl", "x.y.tcl"] {
        assert!(is_tcl_file(name), "{name}");
    }
    for name in ["a.txt", ".tcl", "tcl", "..", "a.tcl.bak"] {
        assert!(!is_tcl_file(name), "{name}");
    }
    for name in [".git", "target", "node_modules", ".direnv", "result", ".hidden"] {
        assert!(skips_directory(name), "{name}");
    }
    assert!(!skips_directory(".") && !skips_directory("src"));
    assert!(enters(24, 20000) && !enters(25, 0) && !enters(0, 20001));
}

#[test]
fn lookup_goes_by_the_last_indexing() {
    let named = |n: &str, s: &str| Command {
        name: n.to_string(),
        summary: s.to_string(),
        ..Default::default()
    };
    let mut kb = Kb::new("8.6", vec![named("a", "1"), named("a", "2")]);
    assert_eq!(kb.get("a").unwrap().summary, "2", "the last of a name counts");
    assert_eq!(kb.get("::a").unwrap().summary, "2");
    assert!(kb.get("::::a").is_none());
    kb.commands.push(named("b", "3"));
    assert!(kb.get("b").is_none());
    kb.reindex();
    assert_eq!(kb.get("b").unwrap().summary, "3");
    assert_eq!(kb.len(), 3);
    assert_eq!(kb.iter().len(), 3);
    assert!(!kb.is_empty());
}

#[test]
fn hovers_name_at_most_so_many_subcommands() {
    let mut c = Command {
        name: "x".to_string(),
        description: "Long.".to_string(),
        ..Default::default()
    };
    for i in 0..30 {
        c.subcommands.push(tcl_lsp::kb::Subcommand {
            name: format!("s{i}"),
            ..Default::default()
        });
    }
    let md = c.hover_markdown();
    assert!(md.starts_with("```tcl\nx\n```\n\nLong.\n\nSubcommands: `s0`, `s1`"));
    assert!(md.ends_with("`s23`\n"));
}

const BUTTON: &str = ".TH button n 4.4 Tk\n.SH NAME\nbutton \\- Create buttons\n.SH SYNOPSIS\n\\fBbutton\\fR pathName\n.SO options\n\\-bg \\-cursor\n.SE\n.SH OPTIONS\n.OP \\-command command Command\nRuns it.\n.OP \\-command command Command\nAgain.\n.SH \"widget command\"\n.TP\n\\fIpathName \\fBinvoke\\fR\n.\nInvokes it.\n.TP\nplain prose\n";

#[test]
fn a_page_lists_nothing_twice() {
    let (c, inh) = parse_page(BUTTON, "tk").unwrap();
    assert_eq!(c.options.len(), 1);
    assert_eq!(c.options[0].doc, "Runs it.");
    assert_eq!(c.subcommands.len(), 1);
    assert_eq!(c.subcommands[0].name, "invoke");
    assert_eq!(c.subcommands[0].doc, "Invokes it.");
    assert_eq!(inh.unwrap().flags, vec!["-bg", "-cursor"]);
}

#[test]
fn long_documentation_is_cut_at_a_character() {
    let page = format!(
        ".TH x n\n.SH NAME\nx \\- y\n.SH O\n.OP \\-a a A\n{}\n",
        "é".repeat(200)
    );
    let (c, _) = parse_page(&page, "tk").unwrap();
    assert_eq!(c.options[0].doc, format!("{}…", "é".repeat(150)));
}

#[test]
fn troff_escapes_are_resolved() {
    assert_eq!(clean(r"\f(CWcode\fP \s+2big\s0 \(bu x\e"), "code big  x\\");
    assert_eq!(clean(r"a\|b\^c\%d\ e\"), "abcd e");
    let line: Vec<char> = "a \"b c\" d".chars().collect();
    assert_eq!(split_fields(&line), vec!["a", "b c", "d"]);
    assert_eq!(page_file("x.n.gz"), PageFile::Gzip);
    assert_eq!(page_file("x.n"), PageFile::Plain);
    assert_eq!(page_file("x.3"), PageFile::Plain);
    assert_eq!(page_file("x.txt"), PageFile::Other);
}

#[test]
fn a_database_has_each_command_once_with_all_its_options() {
    let options = ".TH options n\n.SH NAME\noptions \\- Standard\n.SH DESCRIPTION\n.OP \"\\-background or \\-bg\" background Background\nColour.\n.OP \\-cursor cursor Cursor\nMouse.\n";
    let label = ".TH label n\n.SH NAME\nlabel \\- Labels\n.SH O\n.OP \\-background background Background\nOwn.\n";
    let (mut commands, mut inherited) = (Vec::new(), Vec::new());
    for page in [options, BUTTON, label, BUTTON, ".TH nothing n\n"] {
        add_page(page, "tk", &mut commands, &mut inherited);
    }
    assert_eq!(commands.len(), 4);
    let kb = assemble("8.6", &commands, &inherited);
    let names: Vec<&str> = kb.commands.iter().map(|c| c.name.as_str()).collect();
    assert_eq!(names, vec!["button", "label", "options"]);
    let flags = |n: &str| -> Vec<String> {
        kb.get(n).unwrap().options.iter().map(|o| o.flag.clone()).collect()
    };
    assert_eq!(flags("button"), vec!["-background", "-bg", "-command", "-cursor"]);
    assert_eq!(flags("label"), vec!["-background", "-bg"]);
    let button = kb.get("button").unwrap();
    let bg = button.options.iter().find(|o| o.flag == "-bg").unwrap();
    assert!(bg.standard);
    assert_eq!(bg.doc, "Colour.");
    assert_eq!(kb.version, "8.6");
    assert!(kb.get("frame").is_none());
}

#[test]
fn aliases_only_add_and_are_applied_once() {
    let option = |flag: &str, entry: &str, class: &str| OptionSpec {
        flag: flag.to_string(),
        db_name: entry.to_string(),
        db_class: class.to_string(),
        doc: format!("Of {flag}."),
        standard: false,
    };
    let command = |name: &str, options: Vec<OptionSpec>| Command {
        name: name.to_string(),
        summary: format!("About {name}."),
        options,
        ..Default::default()
    };
    let mut commands = vec![
        command(
            "label",
            vec![option("-text", "text", "Text"), option("-background", "background", "Background")],
        ),
        command("frame", vec![option("-bg", "background", "Background"), option("-x", "", "")]),
        command("scale", vec![option("-bg", "background", "Other"), option("-y", "", "")]),
    ];
    apply_option_aliases(&mut commands);
    let flags = |c: &Command| -> Vec<String> { c.options.iter().map(|o| o.flag.clone()).collect() };
    assert_eq!(flags(&commands[0]), vec!["-background", "-bg", "-text"]);
    assert_eq!(flags(&commands[1]), vec!["-background", "-bg", "-x"]);
    assert_eq!(flags(&commands[2]), vec!["-bg", "-y"]);
    assert_eq!(commands[0].summary, "About label.");
    assert_eq!(commands[0].options[0].doc, "Of -background.");
    assert_eq!(commands[0].options[1].doc, "Of -background.");
    assert_eq!(commands[1].options[0].doc, "Of -bg.");
    let once = format!("{commands:?}");
    apply_option_aliases(&mut commands);
    assert_eq!(format!("{commands:?}"), once);
}

#[test]
fn the_environment_and_settings_make_the_configuration() {
    let var = |n: &str, v: &str| Variable { name: n.to_string(), value: v.to_string() };
    let c = Config::from_env(&vec![
        var("TCL_LSP_TCL_VERSION", "9.0"),
        var("TCL_LSP_NAGELFAR", "/n"),
        var("TCL_LSP_NAGELFAR_ENABLE", "off"),
        var("TCL_LSP_NAGELFAR_DB", "/db"),
        var("TCL_LSP_TCLINT_ENABLE", "yes"),
    ]);
    assert_eq!(c.tcl_version, Target::Tcl90);
    assert_eq!(c.nagelfar.path, "/n");
    assert!(!c.nagelfar.enabled && c.tclint.enabled && c.tclfmt.enabled);
    assert_eq!(c.nagelfar_db.as_deref(), Some("/db"));
    let mut d = Config::default();
    assert_eq!(d.tclfmt.path, "tclfmt");
    assert_eq!(d.tcl_version, Target::Tcl86);
    let other = Setting::Group(vec![Member { key: "x".to_string(), value: Setting::Other }]);
    assert!(!d.merge(&other));
    assert_eq!(d.nagelfar.active(), Some("nagelfar"));
    let nine = Setting::Group(vec![Member {
        key: "tclVersion".to_string(),
        value: Setting::Text("9.0".to_string()),
    }]);
    assert!(d.merge(&nine));
    assert!(!d.merge(&nine), "the second time nothing changes");
}

#[test]
fn continuation_lines_join_the_finding_before() {
    let out = "Checking file /t\n/t: 2: E Bad expression\nin expression \"1 +\"\n\n/t: 0: N Note\nChecking file /u\n";
    let found = nagelfar_findings(out).unwrap();
    assert_eq!(found.len(), 2);
    assert_eq!(found[0].message, "Bad expression\nin expression \"1 +\"");
    assert_eq!(found[0].line, 1);
    assert_eq!(found[1].line, 0);
    assert!(nagelfar_findings("No syntax database found").is_none());
    assert!(parse_nagelfar_line("/t: x: E no").is_none());
    assert!(parse_nagelfar_line("/t: 1: Q no").is_none());
    assert_eq!(
        nagelfar_args(&["a".to_string(), "b".to_string()]),
        vec!["-H", "-s", "a", "-s", "b"]
    );
    assert!(HOST_COMMAND_DB.contains("set ::syntax(veles::hook) {x x}"));
}

#[test]
fn lint_output_is_read_line_by_line() {
    let found = tclint_findings("/a:1:1: x [c]\njunk\n/a:4294967296:1: y\n/a:7:0: z ] [\n");
    assert_eq!(found.len(), 2);
    assert_eq!((found[0].line, found[0].column), (0, Some(0)));
    assert_eq!(found[1].message, "z ] [");
    let colons = tclint_findings("C:/a:b.tcl:3:4: note: x\n");
    assert_eq!((colons[0].line, colons[0].column), (2, Some(3)));
    assert_eq!(colons[0].message, "note: x");
    assert_eq!((found[1].line, found[1].column), (6, Some(0)));
}

#[test]
fn formatter_output_counts_only_when_it_is_source() {
    assert_eq!(formatted(true, b"set x 1\n").as_deref(), Some("set x 1\n"));
    assert_eq!(formatted(false, b"set x 1\n"), None);
    assert_eq!(formatted(true, b""), None);
    assert_eq!(formatted(true, b"a.tcl:1: syntax error: x"), None);
    assert_eq!(formatted(true, b"\xff"), None);
}

#[test]
fn frames_end_where_the_input_is_broken() {
    let mut w = Wire::new(b"Content-Length: 10\r\n\r\nshort".to_vec());
    assert_eq!(w.read_frame(), Err(FrameError::Truncated));
    let mut w = Wire::new(vec![b'x'; RESYNC_CAP + 1]);
    assert_eq!(w.read_frame(), Err(FrameError::NoHeader));
    let mut w = Wire::new(vec![0xff; RESYNC_CAP + 1]);
    assert_eq!(w.read_frame(), Err(FrameError::NoHeader));
    let mut w = Wire::new(b"CONTENT-length: +2 \n \nok".to_vec());
    assert_eq!(w.read_frame().unwrap().as_deref(), Some("ok"));
    let mut w = Wire::new(b"Content-Length: 3\n\na\xffb".to_vec());
    assert_eq!(w.read_frame().unwrap().as_deref(), Some("a\u{fffd}b"));
    assert_eq!(body_text(b"\xc3\xbc"), "ü");
}

#[test]
fn header_lines_that_are_no_text_are_skipped() {
    let mut w = Wire::new(b"\xff\r\nContent-Length: 2\r\n\r\n{}".to_vec());
    assert_eq!(w.read_frame(), Ok(Some("{}".to_string())));
    assert_eq!(w.read_frame(), Ok(None));
    let mut w = Wire::new(b"Content-Length: 2\r\nX: \xe9\r\n\r\n{}".to_vec());
    assert_eq!(w.read_frame(), Ok(Some("{}".to_string())));
    let mut w = Wire::new(b"Content-Length: 2\xff\r\n\r\nContent-Length: 1\r\n\r\n{}".to_vec());
    assert_eq!(w.read_frame(), Ok(Some("{".to_string())));
    let mut w = Wire::new(b"\xff\n".to_vec());
    assert_eq!(w.read_frame(), Ok(None));
    let mut h = HeaderReader::new();
    assert_eq!(h.line_bytes(b"Content-Length: 5\r\n"), Step::More);
    assert_eq!(h.line_bytes(b"\xc3\r\n"), Step::More);
    assert_eq!(h.line_bytes(b"\r\n"), Step::Body(5));
    assert_eq!(h.line_bytes(&[0x80; RESYNC_CAP]), Step::Lost);
}

#[test]
fn reading_stays_at_headers_that_are_broken() {
    let mut w = Wire::new(b"Content-Length: 2\r\n\r\n{}Content-Length: 9\r\n\r\n{}".to_vec());
    assert_eq!(w.next_message().err(), Some(FrameError::Truncated));
    assert_eq!(w.next_message().err(), Some(FrameError::Truncated));
    assert_eq!(w.read_frame(), Err(FrameError::Truncated));
    let mut w = Wire::new(b"Content-Length: 2\r\n\r\n{}junk".to_vec());
    assert!(w.next_message().unwrap().is_none());
    assert_eq!(w.read_frame(), Ok(None));
}

#[test]
fn a_decoded_message_is_the_one_in_the_text() {
    let text = r#"{"jsonrpc":"2.0","method":"a/b","params":{"k":[1,2]}}"#;
    let mut w = Wire::new(format!("Content-Length: {}\r\n\r\n{text}", text.len()).into_bytes());
    let got = w.next_message().unwrap().unwrap();
    let want: serde_json::Value = serde_json::from_str(text).unwrap();
    match got.message {
        lsp_server::Message::Notification(n) => {
            assert_eq!(n.method, "a/b");
            assert_eq!(n.params, want["params"]);
        }
        _ => panic!("not a notification"),
    }
}

#[test]
fn headers_are_read_line_by_line() {
    let mut h = HeaderReader::new();
    assert_eq!(h.line("\r\n", 2), Step::More);
    assert_eq!(h.line("Content-Length: 5\r\n", 19), Step::More);
    assert_eq!(h.line("Content-Length: x\r\n", 19), Step::More);
    assert_eq!(h.line("\r\n", 2), Step::Body(5));
    assert_eq!(h.line("junk", RESYNC_CAP), Step::Lost);
}

#[test]
fn garbage_between_messages_is_dropped() {
    let good = r#"{"jsonrpc":"2.0","method":"exit"}"#;
    let mut wire = Vec::new();
    for body in ["nonsense", "{}", good] {
        wire.extend(format!("Content-Length: {}\r\n\r\n{body}", body.len()).into_bytes());
    }
    let mut w = Wire::new(wire);
    let got = w.next_message().unwrap().unwrap();
    assert!(is_exit(&got.envelope));
    assert!(w.next_message().unwrap().is_none());
    let request = decode(r#"{"jsonrpc":"2.0","id":1,"method":"exit"}"#).unwrap();
    assert!(!is_exit(&request.envelope));
    assert!(matches!(&request.envelope, Envelope::Request(m) if m == "exit"));
    let response = decode(r#"{"jsonrpc":"2.0","id":1,"result":null}"#).unwrap();
    assert!(matches!(response.envelope, Envelope::Response));
}

#[test]
fn words_are_the_same_from_anywhere_inside() {
    let text = "a ::n::f b";
    for at in 2..=8 {
        assert_eq!(word_at(text, at).as_deref(), Some("::n::f"));
    }
    assert_eq!(word_at("", 0), None);
    assert_eq!(word_at("é", 1), None);
}

#[test]
fn variables_may_have_letters_of_any_script() {
    let text = "puts $naïve";
    assert!(wants_variable(text, text.len()));
    assert!(!wants_variable("puts $a-b", 9));
    assert!(wants_variable("$", 1));
    assert!(!wants_variable("", 0));
    assert!(wants_variable("$é", 2), "inside a character counts as its start");
}

#[test]
fn the_innermost_namespace_is_found() {
    let src = "namespace eval a { oo::class create C { method m {} { x } } }\n";
    let o = outline(&Script::new(src));
    assert_eq!(namespace_at(&o.symbols, src.find("x }").unwrap()), "::a::C");
    assert_eq!(namespace_at(&o.symbols, src.len()), "::");
}

#[test]
fn tokens_decode_to_their_places() {
    let src = "proc f {x} {\n  puts $x\n}\n";
    let o = outline(&Script::new(src));
    let li = LineIndex::new(src);
    let got = tokens(&o, src, &li, PositionEncoding::Utf8, |n| n == "puts" || n == "proc");
    let (mut line, mut start) = (0, 0);
    let mut places = Vec::new();
    for t in &got {
        line += t.delta_line;
        start = if t.delta_line == 0 { start + t.delta_start } else { t.delta_start };
        places.push((line, start, t.length, t.token_type));
    }
    assert_eq!(
        places,
        vec![
            (0, 0, 4, T_KEYWORD),
            (0, 5, 1, 1),
            (0, 7, 3, T_PARAMETER),
            (1, 2, 4, T_KEYWORD),
            (1, 8, 1, 5),
        ]
    );
    assert_eq!(token_types().len(), 8);
    assert_eq!(token_types()[T_KEYWORD as usize], "keyword");
}

#[test]
fn replacing_a_text_is_editing_all_of_it() {
    for (old, new) in [("set é 1\n", "puts 😀\n"), ("", "x"), ("x", ""), ("a\nb", "a\nb\n")] {
        let mut edited = Document::new(old.to_string(), 7);
        edited.edit(0..old.len(), new);
        let mut replaced = Document::new(old.to_string(), 7);
        replaced.replace(new.to_string());
        assert_eq!(edited.text(), new);
        assert_eq!(replaced.text(), new);
        assert_eq!((edited.version(), replaced.version()), (7, 7));
        let fresh = LineIndex::new(new);
        for at in 0..=new.len() {
            if new.is_char_boundary(at) {
                let want = fresh.position(at, PositionEncoding::Utf16);
                assert_eq!(edited.line_index().position(at, PositionEncoding::Utf16), want);
                assert_eq!(replaced.line_index().position(at, PositionEncoding::Utf16), want);
            }
        }
    }
}

#[test]
fn a_bounded_parse_reads_nothing_after_its_end() {
    let shape = |src: &str, end: usize| {
        let script = Script::new(src);
        format!("{:?}", script.parse_command_within(0, end, false))
    };
    for (head, tails) in [
        ("set a {b c", ["}", "\\}", " d", ""]),
        ("puts $x", ["y", "(1)", "::z", ""]),
        ("puts a\\x4", ["1", "g", "\n", ""]),
        ("puts a\\", ["\n b", "n", " ", ""]),
        ("{*}", ["{a b}", " c", "", "x"]),
    ] {
        let alone = shape(head, head.len());
        for tail in tails {
            assert_eq!(shape(&format!("{head}{tail}"), head.len()), alone);
        }
    }
}

#[test]
fn symbols_lie_in_each_other() {
    let src = "namespace eval é {\n oo::class create C {\n  variable 😀 v\n  method m {x} { proc p {} {} }\n \
               }\n}\nif 1 { proc q {} {} }\n";
    fn check(s: &tcl_lsp::Symbol) -> usize {
        let inside = |r: &std::ops::Range<usize>, o: &std::ops::Range<usize>| {
            o.start <= r.start && r.start <= r.end && r.end <= o.end
        };
        assert!(inside(&s.name_range, &s.full_range));
        let mut n = 1;
        for c in &s.children {
            assert!(inside(&c.full_range, s.body.as_ref().expect("a body")));
            assert!(inside(&c.full_range, &s.full_range));
            n += check(c);
        }
        n
    }
    let o = outline(&Script::new(src));
    assert_eq!(o.symbols.iter().map(check).sum::<usize>(), 7);
}

#[test]
fn an_index_forgets_what_was_replaced_or_removed() {
    let mut index = Index::new();
    index.set_file("file:///a", "proc one {} {}\none\n");
    index.set_file("file:///b", "proc two {} { one }\npackage provide p 1\n");
    index.set_file("file:///a", "proc three {} {}\n");
    assert_eq!(index.len(), 2);
    assert!(index.resolve("::one", "::").is_empty());
    assert_eq!(index.resolve("::three", "::").len(), 1);
    assert_eq!(index.references("::one").len(), 1);
    index.set_file("file:///c", "proc four {} {}\n");
    assert_eq!(index.len(), 3);
    index.remove("file:///c");
    assert_eq!(index.len(), 2);
    index.remove("file:///b");
    index.remove("file:///b");
    assert_eq!(index.len(), 1);
    assert!(!index.contains("file:///b"));
    assert!(index.file("file:///b").is_none());
    assert!(index.references("::one").is_empty());
    assert!(index.provider_of("p").is_none());
    assert!(index.search("two", 10).is_empty());
    assert_eq!(index.search("", 10).len(), 1);
}

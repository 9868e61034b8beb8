//! Reading man pages into the database of builtins.
use tcl_lsp::database::{apply_option_aliases, resolve_standard_options};
use tcl_lsp::manpage::{clean, parse_page};

#[test]
fn strips_troff_font_escapes() {
    assert_eq!(
        clean(r"\fBlsort \fR?\fIoptions\fR? \fIlist\fR"),
        "lsort ?options? list"
    );
    assert_eq!(clean(r"a \- b"), "a - b");
    assert_eq!(clean(r"\&text"), "text");
}

const LSORT: &str = r#".TH lsort n 8.5 Tcl "Tcl Built-In Commands"
.SH NAME
lsort \- Sort the elements of a list
.SH SYNOPSIS
\fBlsort \fR?\fIoptions\fR? \fIlist\fR
.BE
.SH DESCRIPTION
.PP
This command sorts the elements of \fIlist\fR, returning a new
list in sorted order.
"#;

#[test]
fn parses_a_simple_command_page() {
    let c = parse_page(LSORT, "tcl").expect("a command").0;
    assert_eq!(c.name, "lsort");
    assert_eq!(c.summary, "Sort the elements of a list");
    assert_eq!(c.synopsis, vec!["lsort ?options? list"]);
    assert!(c.description.starts_with("This command sorts"));
    assert_eq!(c.package, "tcl");
}

const STRING: &str = r#".TH string n 8.1 Tcl "Tcl Built-In Commands"
.SH NAME
string \- Manipulate strings
.SH SYNOPSIS
\fBstring \fIoption arg \fR?\fIarg ...?\fR
.BE
.SH DESCRIPTION
.PP
Performs one of several string operations.
.TP
\fBstring cat\fR ?\fIstring1\fR? ?\fIstring2...\fR?
.
Concatenate the given strings just like placing them directly next to each other.
.TP
\fBstring compare\fR ?\fB\-nocase\fR? \fIstring1 string2\fR
.
Perform a character-by-character comparison.
"#;

#[test]
fn extracts_ensemble_subcommands() {
    let c = parse_page(STRING, "tcl").expect("a command").0;
    assert_eq!(c.name, "string");
    let names: Vec<&str> = c.subcommands.iter().map(|s| s.name.as_str()).collect();
    assert_eq!(names, vec!["cat", "compare"]);
    assert!(c.subcommands[0].doc.starts_with("Concatenate"));
    assert_eq!(
        c.subcommands[0].signature,
        "string cat ?string1? ?string2...?"
    );
}

const TTK_BUTTON: &str = r#".TH ttk::button n 8.5 Tk "Tk Themed Widget"
.SH NAME
ttk::button \- Widget that issues a command when pressed
.SH SYNOPSIS
\fBttk::button\fR \fIpathName \fR?\fIoptions\fR?
.BE
.SH "WIDGET OPTIONS"
.OP \-command command Command
A script to evaluate when the widget is invoked.
.OP \-default default Default
May be set to one of \fBnormal\fR, \fBactive\fR, or \fBdisabled\fR.
"#;

#[test]
fn extracts_tk_widget_options() {
    let c = parse_page(TTK_BUTTON, "tk").expect("a command").0;
    assert_eq!(c.name, "ttk::button");
    let flags: Vec<&str> = c.options.iter().map(|o| o.flag.as_str()).collect();
    assert_eq!(flags, vec!["-command", "-default"]);
    assert_eq!(c.options[0].db_name, "command");
    assert_eq!(c.options[0].db_class, "Command");
    assert!(c.options[0].doc.starts_with("A script to evaluate"));
}

const FRAME: &str = r#".TH frame n 8.4 Tk "Tk Built-In Commands"
.SH NAME
frame \- Create and manipulate frame widgets
.SH SYNOPSIS
\fBframe\fR \fIpathName \fR?\fIoptions\fR?
.SO
\-borderwidth	\-cursor	\-takefocus
.SE
.SH "WIDGET-SPECIFIC OPTIONS"
.OP \-background background Background
Background colour of the frame.
"#;

const OPTIONS: &str = r#".TH options n 4.4 Tk "Tk Built-In Commands"
.SH NAME
options \- Standard options supported by widgets
.SH SYNOPSIS
standard options
.SH DESCRIPTION
.OP "\-background or \-bg" background Background
Specifies the normal background colour.
.OP "\-borderwidth or \-bd" borderWidth BorderWidth
Specifies a non-negative value for the border width.
.OP \-cursor cursor Cursor
Specifies the mouse cursor.
"#;
#[test]
fn parses_quoted_option_aliases() {
    let c = parse_page(OPTIONS, "tk").expect("a command").0;
    let flags: Vec<&str> = c.options.iter().map(|o| o.flag.as_str()).collect();
    assert!(flags.contains(&"-background"), "got {flags:?}");
    assert!(
        flags.contains(&"-bg"),
        "the alias must be recorded too: {flags:?}"
    );
    assert!(flags.contains(&"-borderwidth") && flags.contains(&"-bd"));
    let bg = c.options.iter().find(|o| o.flag == "-bg").unwrap();
    assert_eq!(bg.db_name, "background");
}

#[test]
fn records_the_standard_options_a_widget_inherits() {
    let (_, inh) = parse_page(FRAME, "tk").expect("a command");
    let inh = inh.expect("frame has a .SO block");
    assert_eq!(inh.from_page, "options");
    assert_eq!(inh.flags, vec!["-borderwidth", "-cursor", "-takefocus"]);
}

#[test]
fn so_with_a_named_page_records_that_page() {
    let page = ".TH ttk::button n 8.5 Tk\n.SH NAME\nttk::button \\- x\n.SH SYNOPSIS\nx\n.SO ttk_widget\n\\-cursor\t\\-style\n.SE\n";
    let (_, inh) = parse_page(page, "tk").expect("a command");
    assert_eq!(inh.expect("a .SO block").from_page, "ttk_widget");
}
#[test]
fn inheritance_and_aliases_combine() {
    let (frame, finh) = parse_page(FRAME, "tk").expect("a command");
    let (options, _) = parse_page(OPTIONS, "tk").expect("a command");
    let mut commands = vec![frame, options];
    let mut inh = finh.expect("a .SO block");
    inh.command = "frame".to_string();

    resolve_standard_options(&mut commands, &[inh]);
    apply_option_aliases(&mut commands);

    let frame = commands.iter().find(|c| c.name == "frame").unwrap();
    let flags: Vec<&str> = frame.options.iter().map(|o| o.flag.as_str()).collect();
    for want in [
        "-background",
        "-bg",
        "-borderwidth",
        "-bd",
        "-cursor",
        "-takefocus",
    ] {
        assert!(
            flags.contains(&want),
            "frame should accept {want}: {flags:?}"
        );
    }
}

#[test]
fn skips_c_api_pages() {
    let page = ".TH Tcl_ParseCommand 3 8.1 Tcl\n.SH NAME\nTcl_ParseCommand \\- parse\n";
    assert!(parse_page(page, "tcl").is_none());
}

#[test]
fn skips_pages_with_no_usable_content() {
    assert!(parse_page(".TH nothing n\n", "tcl").is_none());
}

//! Splitting scripts into commands, words and tokens.
use tcl_lsp::{command_complete, Command, Script, TokenKind};

fn cmds(src: &str) -> Vec<Command> {
    Script::new(src).commands().collect().into_iter().map(|c| c.unwrap()).collect()
}

#[test]
fn parses_a_simple_command() {
    let c = cmds("puts hello");
    assert_eq!(c.len(), 1);
    assert_eq!(c[0].num_words, 2);
    assert_eq!(c[0].range, 0..10);
}

#[test]
fn splits_multiple_commands() {
    let c = cmds("set a 1\nset b 2\n");
    assert_eq!(c.len(), 2);
    assert_eq!(c[0].num_words, 3);
    assert_eq!(c[1].num_words, 3);
}

#[test]
fn semicolons_separate_commands() {
    assert_eq!(cmds("set a 1; set b 2").len(), 2);
}
#[test]
fn handles_nested_braces_and_quotes() {
    let src = r#"proc f {a b} { if {$a > $b} { puts "a; wins {not a command}" } }"#;
    let c = cmds(src);
    assert_eq!(c.len(), 1, "the whole proc is one command");
    assert_eq!(c[0].num_words, 4);
}

#[test]
fn backslash_newline_continues_a_command() {
    let c = cmds("set x \\\n  1\nset y 2\n");
    assert_eq!(c.len(), 2);
}

#[test]
fn records_comments() {
    let c = cmds("# a comment\nputs hi\n");
    assert_eq!(c.len(), 1);
    assert!(c[0].comment.is_some(), "comment should be attached");
}

#[test]
fn word_offsets_are_absolute() {
    let script = Script::new("set alpha 1\nset beta 2\n");
    let all: Vec<_> = script.commands().collect().into_iter().map(|c| c.unwrap()).collect();
    let second = &all[1];
    let words = second.words();
    assert_eq!(words[0][0].start, 12);
    assert_eq!(script.text(words[1][0].range()), Some("beta"));
}

#[test]
fn detects_substitution_tokens() {
    let script = Script::new("puts $x[f]");
    let c: Vec<_> = script.commands().collect().into_iter().map(|r| r.unwrap()).collect();
    let kinds: Vec<_> = c[0].tokens.iter().map(|t| t.kind).collect();
    assert!(kinds.contains(&TokenKind::Variable));
    assert!(kinds.contains(&TokenKind::Command));
}

#[test]
fn expand_word_is_recognised() {
    let script = Script::new("puts {*}$args");
    let c: Vec<_> = script.commands().collect().into_iter().map(|r| r.unwrap()).collect();
    assert!(c[0].tokens.iter().any(|t| t.kind == TokenKind::ExpandWord));
}

#[test]
fn unclosed_brace_reports_incomplete() {
    let script = Script::new("proc f {a b} { puts hi");
    let err = script
        .commands()
        .collect()
        .into_iter()
        .find_map(|r| r.err())
        .expect("expected an incomplete parse");
    assert!(
        err.incomplete,
        "unclosed brace should be flagged incomplete"
    );
}

#[test]
fn command_complete_matches_info_complete() {
    assert!(command_complete("puts hi"));
    assert!(command_complete("proc f {} { puts hi }"));
    assert!(!command_complete("proc f {} { puts hi"));
    assert!(!command_complete("set x \"unterminated"));
    assert!(!command_complete("set x [f"));
}

#[test]
fn empty_and_whitespace_scripts_yield_nothing() {
    assert!(cmds("").is_empty());
    assert!(cmds("   \n\t\n").is_empty());
    assert!(cmds("# only a comment\n").is_empty());
}

#[test]
fn utf8_offsets_are_byte_offsets() {
    let script = Script::new("set é 1");
    let c: Vec<_> = script.commands().collect().into_iter().map(|r| r.unwrap()).collect();
    let words = c[0].words();
    assert_eq!(script.text(words[1][0].range()), Some("é"));
}
#[test]
fn parse_at_offset_uses_remaining_length() {
    let script = Script::new("set a 1\nset b 2\n");
    let cmd = script.parse_command_at(8, false).unwrap();
    assert_eq!(cmd.range, 8..16);
    assert_eq!(script.text(cmd.words()[1][0].range()), Some("b"));
    let tail = script.parse_command_at(script.len(), false).unwrap();
    assert_eq!(tail.num_words, 0);
}
#[test]
fn empty_braced_word_has_correct_start() {
    let src = "set x {}";
    let script = Script::new(src);
    let cmd: Vec<_> = script.commands().collect().into_iter().map(|r| r.unwrap()).collect();
    let third = cmd[0].words()[2];
    let text = third
        .iter()
        .find(|t| t.kind == TokenKind::Text)
        .expect("empty braces still produce a TEXT token");
    assert_eq!(text.size, 0, "the word is empty");
    assert_eq!(
        text.start,
        src.find('}').unwrap(),
        "but its position is not 0"
    );
}
#[test]
fn parse_error_returns_err_not_garbage() {
    let script = Script::new("set x \"unterminated");
    let err = script.parse_command_at(0, false).unwrap_err();
    assert!(err.incomplete);
    assert!(
        err.offset <= script.len(),
        "error offset must stay in bounds"
    );
}
#[test]
fn comment_range_is_the_comment_not_the_command() {
    let src = "# hello there\nset x 1";
    let script = Script::new(src);
    let cmd: Vec<_> = script.commands().collect().into_iter().map(|r| r.unwrap()).collect();
    let comment = cmd[0].comment.clone().expect("comment recorded");
    assert_eq!(comment.start, 0);
    assert!(script.text(comment).unwrap().starts_with("# hello"));
    assert_eq!(cmd[0].range.start, 14, "command starts after the comment");
}
#[test]
fn spills_past_the_static_token_array() {
    let words: Vec<String> = (0..60).map(|i| format!("w{i}")).collect();
    let src = format!("puts {}", words.join(" "));
    let script = Script::new(&src);
    let cmd: Vec<_> = script.commands().collect().into_iter().map(|r| r.unwrap()).collect();
    assert_eq!(cmd[0].num_words, 61);
    assert!(cmd[0].tokens.len() > 20, "must exceed NUM_STATIC_TOKENS");
    assert_eq!(script.text(cmd[0].words()[60][0].range()), Some("w59"));
}
#[test]
fn nested_parses_are_bounded_by_the_body() {
    let src = "proc outer {} {\n  set a 1\n  set b 2\n}\nset after 3\n";
    let script = Script::new(src);
    let open = src.find("{\n").unwrap() + 1;
    let close = src.rfind('}').unwrap();

    let inner: Vec<_> = script.commands_in(open..close).collect();
    assert!(
        inner.iter().all(|r| r.is_ok()),
        "body must parse cleanly: {inner:?}"
    );
    let inner: Vec<_> = inner.into_iter().map(|r| r.unwrap()).collect();
    assert_eq!(inner.len(), 2, "body holds exactly two commands");
    assert!(
        inner.iter().all(|c| c.range.end <= close),
        "no command may extend past the body"
    );
}

//! The tokens of commands, exactly.
use tcl_lsp::Script;

/// A parse, written out: the comment, the range, the number of words, and each token
/// as kind, start, size and number of components.
fn shape(src: &str, nested: bool) -> String {
    match Script::new(src).parse_command_at(0, nested) {
        Ok(c) => {
            let mut out = String::new();
            if let Some(r) = &c.comment {
                out.push_str(&format!("comment {}..{}, ", r.start, r.end));
            }
            out.push_str(&format!("{}..{}, {} words:", c.range.start, c.range.end, c.num_words));
            for t in &c.tokens {
                let text = format!(" {:?}@{}+{}/{}", t.kind, t.start, t.size, t.num_components);
                out.push_str(&text);
            }
            out
        }
        Err(e) => {
            let tail = if e.incomplete { " (incomplete)" } else { "" };
            format!("error at {}{tail}", e.offset)
        }
    }
}

#[test]
fn variables_are_tokens_with_their_names() {
    assert_eq!(
        shape("puts $x", false),
        "0..7, 2 words: SimpleWord@0+4/1 Text@0+4/0 Word@5+2/2 Variable@5+2/1 Text@6+1/0"
    );
    assert_eq!(
        shape("puts ${a b}", false),
        "0..11, 2 words: SimpleWord@0+4/1 Text@0+4/0 Word@5+6/2 Variable@5+6/1 Text@7+3/0"
    );
    assert_eq!(
        shape("puts $a::b", false),
        "0..10, 2 words: SimpleWord@0+4/1 Text@0+4/0 Word@5+5/2 Variable@5+5/1 Text@6+4/0"
    );
    assert_eq!(
        shape("puts $", false),
        "0..6, 2 words: SimpleWord@0+4/1 Text@0+4/0 SimpleWord@5+1/1 Text@5+1/0"
    );
    assert_eq!(
        shape("puts $x(a)[f]", false),
        "0..13, 2 words: SimpleWord@0+4/1 Text@0+4/0 Word@5+8/4 Variable@5+5/2 Text@6+1/0 Text@8+1/0 Command@10+3/0"
    );
    assert_eq!(
        shape("set y $arr($i,1)z", false),
        "0..17, 3 words: SimpleWord@0+3/1 Text@0+3/0 SimpleWord@4+1/1 Text@4+1/0 Word@6+11/6 Variable@6+10/4 Text@7+3/0 Variable@11+2/1 Text@12+1/0 Text@13+2/0 Text@16+1/0"
    );
    assert_eq!(
        shape("puts $(k)", false),
        "0..9, 2 words: SimpleWord@0+4/1 Text@0+4/0 Word@5+4/3 Variable@5+4/2 Text@6+0/0 Text@7+1/0"
    );
    assert_eq!(
        shape("puts ${x", false),
        "error at 6 (incomplete)"
    );
}

#[test]
fn escapes_are_tokens_of_their_length() {
    assert_eq!(
        shape("puts a\\x41b", false),
        "0..11, 2 words: SimpleWord@0+4/1 Text@0+4/0 Word@5+6/3 Text@5+1/0 Backslash@6+4/0 Text@10+1/0"
    );
    assert_eq!(
        shape("puts \\u00e9f", false),
        "0..12, 2 words: SimpleWord@0+4/1 Text@0+4/0 Word@5+7/2 Backslash@5+6/0 Text@11+1/0"
    );
    assert_eq!(
        shape("puts \\U1F600z", false),
        "0..13, 2 words: SimpleWord@0+4/1 Text@0+4/0 Word@5+8/2 Backslash@5+7/0 Text@12+1/0"
    );
    assert_eq!(
        shape("puts \\101\\7", false),
        "0..11, 2 words: SimpleWord@0+4/1 Text@0+4/0 Word@5+6/2 Backslash@5+4/0 Backslash@9+2/0"
    );
    assert_eq!(
        shape("puts \\é.", false),
        "0..9, 2 words: SimpleWord@0+4/1 Text@0+4/0 Word@5+4/2 Backslash@5+3/0 Text@8+1/0"
    );
    assert_eq!(
        shape("puts \"a\\\n   b\"", false),
        "0..14, 2 words: SimpleWord@0+4/1 Text@0+4/0 Word@5+9/3 Text@6+1/0 Backslash@7+5/0 Text@12+1/0"
    );
    assert_eq!(
        shape("set x \\\n  1\n", false),
        "0..12, 3 words: SimpleWord@0+3/1 Text@0+3/0 SimpleWord@4+1/1 Text@4+1/0 SimpleWord@10+1/1 Text@10+1/0"
    );
    assert_eq!(
        shape("puts \\", false),
        "0..6, 2 words: SimpleWord@0+4/1 Text@0+4/0 SimpleWord@5+1/1 Text@5+1/0"
    );
}

#[test]
fn quoted_and_braced_words_have_inner_tokens() {
    assert_eq!(
        shape("puts \"a $b c\"", false),
        "0..13, 2 words: SimpleWord@0+4/1 Text@0+4/0 Word@5+8/4 Text@6+2/0 Variable@8+2/1 Text@9+1/0 Text@10+2/0"
    );
    assert_eq!(
        shape("puts {a {b} c}", false),
        "0..14, 2 words: SimpleWord@0+4/1 Text@0+4/0 SimpleWord@5+9/1 Text@6+7/0"
    );
    assert_eq!(
        shape("puts {a\\\n  b}", false),
        "0..13, 2 words: SimpleWord@0+4/1 Text@0+4/0 Word@5+8/3 Text@6+1/0 Backslash@7+4/0 Text@11+1/0"
    );
    assert_eq!(
        shape("puts {}", false),
        "0..7, 2 words: SimpleWord@0+4/1 Text@0+4/0 SimpleWord@5+2/1 Text@6+0/0"
    );
    assert_eq!(
        shape("puts \"\"", false),
        "0..7, 2 words: SimpleWord@0+4/1 Text@0+4/0 SimpleWord@5+2/1 Text@6+0/0"
    );
    assert_eq!(
        shape("puts \"a\"b", false),
        "error at 8"
    );
    assert_eq!(
        shape("puts {a}b", false),
        "error at 8"
    );
    assert_eq!(
        shape("puts \"a", false),
        "error at 5 (incomplete)"
    );
    assert_eq!(
        shape("puts {a", false),
        "error at 5 (incomplete)"
    );
}

#[test]
fn commands_nest_in_brackets() {
    assert_eq!(
        shape("puts [a [b]]", false),
        "0..12, 2 words: SimpleWord@0+4/1 Text@0+4/0 Word@5+7/1 Command@5+7/0"
    );
    assert_eq!(
        shape("puts [a; b]", false),
        "0..11, 2 words: SimpleWord@0+4/1 Text@0+4/0 Word@5+6/1 Command@5+6/0"
    );
    assert_eq!(
        shape("puts [a", false),
        "error at 5 (incomplete)"
    );
    assert_eq!(
        shape("puts x[a]y", false),
        "0..10, 2 words: SimpleWord@0+4/1 Text@0+4/0 Word@5+5/3 Text@5+1/0 Command@6+3/0 Text@9+1/0"
    );
    assert_eq!(
        shape("puts [a\n]", false),
        "0..9, 2 words: SimpleWord@0+4/1 Text@0+4/0 Word@5+4/1 Command@5+4/0"
    );
}

#[test]
fn literal_expansion_makes_words() {
    assert_eq!(
        shape("f {*}{a b}", false),
        "0..10, 3 words: SimpleWord@0+1/1 Text@0+1/0 SimpleWord@6+1/1 Text@6+1/0 SimpleWord@8+1/1 Text@8+1/0"
    );
    assert_eq!(
        shape("f {*}{a {b c} \"d\"}", false),
        "0..18, 4 words: SimpleWord@0+1/1 Text@0+1/0 SimpleWord@6+1/1 Text@6+1/0 SimpleWord@8+5/1 Text@9+3/0 SimpleWord@14+3/1 Text@15+1/0"
    );
    assert_eq!(
        shape("f {*}{}", false),
        "0..7, 1 words: SimpleWord@0+1/1 Text@0+1/0"
    );
    assert_eq!(
        shape("f {*}$x", false),
        "0..7, 2 words: SimpleWord@0+1/1 Text@0+1/0 ExpandWord@2+5/2 Variable@5+2/1 Text@6+1/0"
    );
    assert_eq!(
        shape("f {*}{a\\tb}", false),
        "0..11, 2 words: SimpleWord@0+1/1 Text@0+1/0 ExpandWord@2+9/1 Text@6+4/0"
    );
    assert_eq!(
        shape("f {*} b", false),
        "0..7, 3 words: SimpleWord@0+1/1 Text@0+1/0 SimpleWord@2+3/1 Text@3+1/0 SimpleWord@6+1/1 Text@6+1/0"
    );
}

#[test]
fn comments_and_terminators_bound_a_command() {
    assert_eq!(
        shape("# one\n# two\nputs hi; puts ho\n", false),
        "comment 0..12, 12..20, 2 words: SimpleWord@12+4/1 Text@12+4/0 SimpleWord@17+2/1 Text@17+2/0"
    );
    assert_eq!(
        shape("# a\\\nb\nputs hi", false),
        "comment 0..7, 7..14, 2 words: SimpleWord@7+4/1 Text@7+4/0 SimpleWord@12+2/1 Text@12+2/0"
    );
    assert_eq!(
        shape("  ;puts x", false),
        "2..3, 0 words:"
    );
    assert_eq!(
        shape("puts a;b", false),
        "0..7, 2 words: SimpleWord@0+4/1 Text@0+4/0 SimpleWord@5+1/1 Text@5+1/0"
    );
    assert_eq!(
        shape("\n\n puts x", false),
        "3..9, 2 words: SimpleWord@3+4/1 Text@3+4/0 SimpleWord@8+1/1 Text@8+1/0"
    );
}

#[test]
fn an_unmatched_bracket_ends_a_nested_command() {
    assert_eq!(
        shape("a b]c", true),
        "0..4, 2 words: SimpleWord@0+1/1 Text@0+1/0 SimpleWord@2+1/1 Text@2+1/0"
    );
    assert_eq!(
        shape("a; b]", true),
        "0..2, 1 words: SimpleWord@0+1/1 Text@0+1/0"
    );
    assert_eq!(
        shape("]x", true),
        "0..1, 0 words:"
    );
}

#[test]
fn completeness_follows_every_command() {
    assert_eq!(tcl_lsp::command_complete(""), true);
    assert_eq!(tcl_lsp::command_complete("# only"), true);
    assert_eq!(tcl_lsp::command_complete("puts {a} b"), true);
    assert_eq!(tcl_lsp::command_complete("puts \\"), true);
    assert_eq!(tcl_lsp::command_complete("set x \\\n"), false);
    assert_eq!(tcl_lsp::command_complete("puts {a}b"), true);
    assert_eq!(tcl_lsp::command_complete("if {1} {\n  puts [x]\n"), false);
    assert_eq!(tcl_lsp::command_complete("puts hi; set y {"), false);
    assert_eq!(tcl_lsp::command_complete("a \"b\nc\" d"), true);
    assert_eq!(tcl_lsp::command_complete("[a b"), false);
    assert!(!tcl_lsp::command_complete("a\0b"));
}

#[test]
fn an_escaped_character_is_one_token_whatever_its_width() {
    assert_eq!(
        shape("puts \\€x", false),
        "0..10, 2 words: SimpleWord@0+4/1 Text@0+4/0 Word@5+5/2 Backslash@5+4/0 Text@9+1/0"
    );
    assert_eq!(
        shape("puts \\😀x", false),
        "0..11, 2 words: SimpleWord@0+4/1 Text@0+4/0 Word@5+6/2 Backslash@5+5/0 Text@10+1/0"
    );
    assert_eq!(
        shape("puts \"\\😀\"", false),
        "0..12, 2 words: SimpleWord@0+4/1 Text@0+4/0 Word@5+7/1 Backslash@6+5/0"
    );
    assert_eq!(
        shape("puts {\\😀}", false),
        "0..12, 2 words: SimpleWord@0+4/1 Text@0+4/0 SimpleWord@5+7/1 Text@6+5/0"
    );
}

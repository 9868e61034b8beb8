//! Semantic tokens.
use tcl_lsp::semantic::{
    tokens, SemanticToken, M_DECLARATION, T_COMMENT, T_FUNCTION, T_KEYWORD,
};
use tcl_lsp::{outline, LineIndex, PositionEncoding, Script};

fn build(src: &str) -> Vec<SemanticToken> {
    let o = outline(&Script::new(src));
    let li = LineIndex::new(src);
    tokens(&o, src, &li, PositionEncoding::Utf8, |n| {
        matches!(n, "puts" | "set" | "proc" | "string" | "namespace")
    })
}

#[test]
fn emits_tokens_in_document_order() {
    let toks = build("# a comment\nproc greet {name} {\n    puts $name\n}\n");
    assert!(!toks.is_empty());
    let mut line = 0u32;
    for t in &toks {
        line += t.delta_line;
        assert!(line < 10, "line drifted out of range");
    }
}

#[test]
fn classifies_a_declaration_and_its_uses() {
    let toks = build("proc greet {} {}\ngreet\n");
    assert!(
        toks.iter()
            .any(|t| t.token_type == T_FUNCTION && t.token_modifiers_bitset == M_DECLARATION),
        "the definition must be marked as a declaration"
    );
    assert!(
        toks.iter()
            .any(|t| t.token_type == T_FUNCTION && t.token_modifiers_bitset == 0),
        "the call site must not be"
    );
}

#[test]
fn builtins_are_keywords_and_user_procs_are_not() {
    let toks = build("proc mine {} {}\nputs hi\nmine\n");
    assert!(toks.iter().any(|t| t.token_type == T_KEYWORD));
    assert!(toks.iter().any(|t| t.token_type == T_FUNCTION));
}

#[test]
fn no_token_spans_a_line_break() {
    let src = "# line one\n# line two\nputs hi\n";
    let toks = build(src);
    let comments: Vec<_> = toks.iter().filter(|t| t.token_type == T_COMMENT).collect();
    assert!(comments.len() >= 2, "expected one comment token per line");
    for t in &toks {
        assert!(t.length <= 11, "token {t:?} looks like it crossed a line");
    }
}

#[test]
fn handles_an_empty_document() {
    assert!(build("").is_empty());
}

#[test]
fn utf16_positions_are_used_when_negotiated() {
    let src = "# é comment\nputs hi\n";
    let o = outline(&Script::new(src));
    let li = LineIndex::new(src);
    let u8s = tokens(&o, src, &li, PositionEncoding::Utf8, |_| false);
    let u16s = tokens(&o, src, &li, PositionEncoding::Utf16, |_| false);
    assert_ne!(u8s[0].length, u16s[0].length);
}

#[test]
fn columns_add_up_in_every_encoding() {
    let src = "puts 😀; puts é;  puts $x\n  puts 😀😀; set y 1\n";
    let o = outline(&Script::new(src));
    let li = LineIndex::new(src);
    let keywords = |enc: PositionEncoding| -> Vec<(u32, u32)> {
        let (mut line, mut column) = (0, 0);
        let mut out = Vec::new();
        for t in tokens(&o, src, &li, enc, |n| matches!(n, "puts" | "set")) {
            if t.delta_line > 0 {
                line += t.delta_line;
                column = 0;
            }
            column += t.delta_start;
            if t.token_type == T_KEYWORD {
                out.push((line, column));
            }
        }
        out
    };
    assert_eq!(
        keywords(PositionEncoding::Utf16),
        vec![(0, 0), (0, 9), (0, 18), (1, 2), (1, 13)]
    );
    assert_eq!(
        keywords(PositionEncoding::Utf8),
        vec![(0, 0), (0, 11), (0, 21), (1, 2), (1, 17)]
    );
}

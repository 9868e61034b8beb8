//! Offsets and positions.
use tcl_lsp::PositionEncoding::{Utf16, Utf8};
use tcl_lsp::{LineIndex, LinePos};

fn pos(line: u32, character: u32) -> LinePos {
    LinePos { line, character }
}

#[test]
fn ascii_roundtrip() {
    let text = "set a 1\nset b 2\n";
    let idx = LineIndex::new(text);
    assert_eq!(idx.position(8, Utf16), pos(1, 0));
    assert_eq!(idx.position(12, Utf16), pos(1, 4));
    assert_eq!(idx.offset(pos(1, 4), Utf16), 12);
    assert_eq!(idx.offset(pos(0, 0), Utf8), 0);
}
#[test]
fn bmp_char_differs_between_encodings() {
    let text = "set é 1";
    let idx = LineIndex::new(text);
    let after = text.find('1').unwrap();
    assert_eq!(idx.position(after, Utf8).character, 7);
    assert_eq!(idx.position(after, Utf16).character, 6);
    assert_eq!(idx.offset(pos(0, 6), Utf16), after);
    assert_eq!(idx.offset(pos(0, 7), Utf8), after);
}
#[test]
fn astral_char_is_two_utf16_units() {
    let text = "puts 😀x";
    let idx = LineIndex::new(text);
    let x = text.find('x').unwrap();
    assert_eq!(idx.position(x, Utf8).character, 9);
    assert_eq!(idx.position(x, Utf16).character, 7);
    assert_eq!(idx.offset(pos(0, 7), Utf16), x);
}

#[test]
fn multiple_wide_chars_accumulate() {
    let text = "ééé|";
    let idx = LineIndex::new(text);
    let bar = text.find('|').unwrap();
    assert_eq!(idx.position(bar, Utf16).character, 3);
    assert_eq!(idx.offset(pos(0, 3), Utf16), bar);
}

#[test]
fn wide_chars_on_later_lines() {
    let text = "ascii\nsét x\nmore";
    let idx = LineIndex::new(text);
    let x = text.find('x').unwrap();
    let p = idx.position(x, Utf16);
    assert_eq!(p.line, 1);
    assert_eq!(idx.offset(p, Utf16), x);
}

#[test]
fn positions_past_end_of_line_are_clamped() {
    let idx = LineIndex::new("ab\ncd\n");
    assert_eq!(idx.offset(pos(0, 999), Utf16), 3);
    assert_eq!(idx.offset(pos(999, 0), Utf16), 6);
}

#[test]
fn every_char_boundary_roundtrips() {
    let text = "a é b 😀 c\nsecond é line\n";
    let idx = LineIndex::new(text);
    for (off, _) in text.char_indices() {
        for enc in [Utf8, Utf16] {
            assert_eq!(
                idx.offset(idx.position(off, enc), enc),
                off,
                "at {off} in {enc:?}"
            );
        }
    }
}

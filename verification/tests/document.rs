//! Editing a document.
use tcl_lsp::Document;

#[test]
fn incremental_edit_updates_text_and_index() {
    let mut doc = Document::new("set a 1\nset b 2\n".to_string(), 1);
    doc.edit(12..13, "beta");
    assert_eq!(doc.text(), "set a 1\nset beta 2\n");
    assert_eq!(doc.line_index().line_count(), 3);
}

#[test]
fn edits_near_multibyte_chars_do_not_panic() {
    let mut doc = Document::new("set é 1".to_string(), 1);
    doc.edit(5..6, "x");
    assert!(doc.text().is_char_boundary(0));
}

#[test]
fn outline_reflects_edits() {
    let mut doc = Document::new("proc a {} {}\n".to_string(), 1);
    assert_eq!(doc.outline().symbols.len(), 1);
    doc.edit(doc.text().len()..doc.text().len(), "proc b {} {}\n");
    assert_eq!(doc.outline().symbols.len(), 2);
}

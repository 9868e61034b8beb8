//! Message framing.
use lsp_server::Message;
use tcl_lsp::transport::{decode_message, Wire};

#[test]
fn valid_request_decodes() {
    let m = decode_message(r#"{"jsonrpc":"2.0","id":1,"method":"initialize","params":{}}"#)
        .expect("a request decodes");
    assert!(matches!(m, Message::Request(r) if r.method == "initialize"));
}

#[test]
fn garbage_is_dropped_not_fatal() {
    assert!(decode_message(
        r#"{"jsonrpc":"2.0","method":"x","params":{"uri":[_jstr file:///a]}}"#
    )
    .is_none());
    assert!(decode_message("}{ not json").is_none());
    assert!(decode_message(r#"{"this":"is not jsonrpc"}"#).is_none());
}

fn frame(body: &str) -> String {
    format!("Content-Length: {}\r\n\r\n{body}", body.len())
}

#[test]
fn read_frame_reads_one_well_formed_frame() {
    let wire = frame(r#"{"id":1}"#);
    let mut r = Wire::new(wire.into_bytes());
    assert_eq!(r.read_frame().unwrap().as_deref(), Some(r#"{"id":1}"#));
    assert_eq!(r.read_frame().unwrap(), None);
}

#[test]
fn a_header_block_with_no_content_length_is_skipped_not_fatal() {
    let mut wire = String::from("\r\n");
    wire.push_str("X-Weird: 1\r\n\r\n");
    wire.push_str(&frame(r#"{"id":2}"#));
    let mut r = Wire::new(wire.into_bytes());
    assert_eq!(r.read_frame().unwrap().as_deref(), Some(r#"{"id":2}"#));
}

#[test]
fn an_unparseable_content_length_does_not_end_the_reader() {
    let mut wire = String::from("Content-Length: not-a-number\r\n\r\n");
    wire.push_str(&frame(r#"{"id":3}"#));
    let mut r = Wire::new(wire.into_bytes());
    assert_eq!(r.read_frame().unwrap().as_deref(), Some(r#"{"id":3}"#));
}

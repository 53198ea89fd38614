use lsp_sidecar::session::{Session, StreamEvent};

#[test]
fn chunk_yields_decoded_text() {
    let mut s = Session::new();
    let texts = s.handle_chunk(&b"Content-Length: 5\r\n\r\nhello".to_vec());
    assert_eq!(texts, vec!["hello".to_string()]);
}

#[test]
fn split_chunks_yield_one_text() {
    let mut s = Session::new();
    let texts = s.handle_chunk(&b"Content-Length: 5\r\n\r\nhe".to_vec());
    assert_eq!(texts, Vec::<String>::new());
    let texts = s.handle_chunk(&b"llo".to_vec());
    assert_eq!(texts, vec!["hello".to_string()]);
}

#[test]
fn two_texts_in_order_from_one_chunk() {
    let mut s = Session::new();
    let texts = s.handle_chunk(&b"Content-Length: 5\r\n\r\nhelloContent-Length: 3\r\n\r\nbye".to_vec());
    assert_eq!(texts, vec!["hello".to_string(), "bye".to_string()]);
}

#[test]
fn undecodable_body_is_dropped() {
    let mut s = Session::new();
    let texts = s.handle_chunk(&b"Content-Length: 2\r\n\r\n\xff\xfeContent-Length: 2\r\n\r\nok".to_vec());
    assert_eq!(texts, vec!["ok".to_string()]);
}

#[test]
fn multibyte_text_decodes() {
    let mut s = Session::new();
    let body = "héllo".as_bytes();
    let mut chunk = format!("Content-Length: {}\r\n\r\n", body.len()).into_bytes();
    chunk.extend_from_slice(body);
    let texts = s.handle_chunk(&chunk);
    assert_eq!(texts, vec!["héllo".to_string()]);
}

#[test]
fn stdout_event_publishes_texts() {
    let mut s = Session::new();
    let (texts, terminated) =
        s.handle_event(StreamEvent::Stdout(b"Content-Length: 2\r\n\r\nok".to_vec()));
    assert!(!terminated);
    assert_eq!(texts, vec!["ok".to_string()]);
}

#[test]
fn terminated_event_signals_and_publishes_nothing() {
    let mut s = Session::new();
    let (texts, terminated) = s.handle_event(StreamEvent::Terminated);
    assert!(terminated);
    assert_eq!(texts, Vec::<String>::new());
}

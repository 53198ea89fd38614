use lsp_sidecar::decoder::Decoder;

fn push(d: &mut Decoder, bytes: &[u8]) -> Vec<Vec<u8>> {
    d.push_chunk(&bytes.to_vec())
}

#[test]
fn single_message_in_one_chunk() {
    let mut d = Decoder::new();
    let msgs = push(&mut d, b"Content-Length: 5\r\n\r\nhello");
    assert_eq!(msgs, vec![b"hello".to_vec()]);
}

#[test]
fn split_inside_body() {
    let mut d = Decoder::new();
    let msgs = push(&mut d, b"Content-Length: 5\r\n\r\nhe");
    assert_eq!(msgs, Vec::<Vec<u8>>::new());
    let msgs = push(&mut d, b"llo");
    assert_eq!(msgs, vec![b"hello".to_vec()]);
}

#[test]
fn two_messages_in_one_chunk() {
    let mut d = Decoder::new();
    let msgs = push(&mut d, b"Content-Length: 5\r\n\r\nhelloContent-Length: 3\r\n\r\nbye");
    assert_eq!(msgs, vec![b"hello".to_vec(), b"bye".to_vec()]);
}

#[test]
fn all_but_last_byte_yields_nothing() {
    let whole: &[u8] = b"Content-Length: 5\r\n\r\nhello";
    let mut d = Decoder::new();
    let msgs = push(&mut d, &whole[..whole.len() - 1]);
    assert_eq!(msgs, Vec::<Vec<u8>>::new());
    let msgs = push(&mut d, &whole[whole.len() - 1..]);
    assert_eq!(msgs, vec![b"hello".to_vec()]);
}

#[test]
fn every_split_point_gives_the_same_messages() {
    let whole: &[u8] = b"Content-Length: 5\r\n\r\nhelloContent-Length: 3\r\n\r\nbye";
    for cut in 0..=whole.len() {
        let mut d = Decoder::new();
        let mut got = push(&mut d, &whole[..cut]);
        got.extend(push(&mut d, &whole[cut..]));
        assert_eq!(got, vec![b"hello".to_vec(), b"bye".to_vec()], "cut at {}", cut);
    }
}

#[test]
fn byte_at_a_time_gives_the_same_messages() {
    let whole: &[u8] = b"Content-Length: 11\r\n\r\nhello world";
    let mut d = Decoder::new();
    let mut got: Vec<Vec<u8>> = Vec::new();
    for i in 0..whole.len() {
        got.extend(push(&mut d, &whole[i..i + 1]));
    }
    assert_eq!(got, vec![b"hello world".to_vec()]);
}

#[test]
fn malformed_header_is_skipped() {
    let mut d = Decoder::new();
    let msgs = push(&mut d, b"Foo: bar\r\n\r\nContent-Length: 5\r\n\r\nhello");
    assert_eq!(msgs, vec![b"hello".to_vec()]);
}

#[test]
fn malformed_header_alone_yields_nothing() {
    let mut d = Decoder::new();
    let msgs = push(&mut d, b"Foo: bar\r\n\r\n");
    assert_eq!(msgs, Vec::<Vec<u8>>::new());
    let msgs = push(&mut d, b"Content-Length: 2\r\n\r\nok");
    assert_eq!(msgs, vec![b"ok".to_vec()]);
}

#[test]
fn field_name_is_case_insensitive() {
    let mut d = Decoder::new();
    let msgs = push(&mut d, b"CONTENT-LENGTH: 3\r\n\r\nabc");
    assert_eq!(msgs, vec![b"abc".to_vec()]);
}

#[test]
fn extra_header_lines_are_ignored() {
    let mut d = Decoder::new();
    let msgs = push(
        &mut d,
        b"Content-Type: application/vscode-jsonrpc\r\nContent-Length: 4\r\n\r\nbody",
    );
    assert_eq!(msgs, vec![b"body".to_vec()]);
}

#[test]
fn unparsable_length_is_malformed() {
    let mut d = Decoder::new();
    let msgs = push(&mut d, b"Content-Length: ten\r\n\r\nContent-Length: 2\r\n\r\nok");
    assert_eq!(msgs, vec![b"ok".to_vec()]);
}

#[test]
fn oversized_length_is_malformed() {
    let mut d = Decoder::new();
    let msgs = push(
        &mut d,
        b"Content-Length: 99999999999999999999999999\r\n\r\nContent-Length: 2\r\n\r\nok",
    );
    assert_eq!(msgs, vec![b"ok".to_vec()]);
}

#[test]
fn plus_signed_length_parses() {
    let mut d = Decoder::new();
    let msgs = push(&mut d, b"Content-Length: +3\r\n\r\nabc");
    assert_eq!(msgs, vec![b"abc".to_vec()]);
}

#[test]
fn empty_body_message() {
    let mut d = Decoder::new();
    let msgs = push(&mut d, b"Content-Length: 0\r\n\r\n");
    assert_eq!(msgs, vec![Vec::<u8>::new()]);
}

#[test]
fn empty_chunk_yields_nothing() {
    let mut d = Decoder::new();
    let msgs = push(&mut d, b"");
    assert_eq!(msgs, Vec::<Vec<u8>>::new());
}

#[test]
fn separator_split_across_chunks() {
    let mut d = Decoder::new();
    assert_eq!(push(&mut d, b"Content-Length: 2\r\n"), Vec::<Vec<u8>>::new());
    assert_eq!(push(&mut d, b"\r"), Vec::<Vec<u8>>::new());
    assert_eq!(push(&mut d, b"\nok"), vec![b"ok".to_vec()]);
}

#[test]
fn length_digits_split_across_chunks() {
    let mut d = Decoder::new();
    assert_eq!(push(&mut d, b"Content-Length: 1"), Vec::<Vec<u8>>::new());
    assert_eq!(push(&mut d, b"0\r\n\r\n0123456789"), vec![b"0123456789".to_vec()]);
}

#[test]
fn first_length_line_decides() {
    // the first body-length line is the one consumed, even when a second
    // would disagree
    let mut d = Decoder::new();
    let msgs = push(&mut d, b"Content-Length: 2\r\nContent-Length: 9\r\n\r\nokrest");
    assert_eq!(msgs, vec![b"ok".to_vec()]);
    let msgs = push(&mut d, b"");
    assert_eq!(msgs, Vec::<Vec<u8>>::new());
}

#[test]
fn value_whitespace_is_trimmed() {
    let mut d = Decoder::new();
    let msgs = push(&mut d, b"Content-Length:\t 3  \r\n\r\nabc");
    assert_eq!(msgs, vec![b"abc".to_vec()]);
}

#[test]
fn first_length_line_decides_even_when_unparsable() {
    // the first body-length line is the one consumed; when its value does
    // not parse, the block is malformed even though a later line would
    let mut d = Decoder::new();
    let msgs = push(&mut d, b"Content-Length: x\r\nContent-Length: 3\r\n\r\nabc");
    assert_eq!(msgs, Vec::<Vec<u8>>::new());
}

#[test]
fn body_bytes_are_kept_verbatim() {
    let mut d = Decoder::new();
    let msgs = push(&mut d, b"Content-Length: 4\r\n\r\n\xff\x00\r\n");
    assert_eq!(msgs, vec![vec![0xff, 0x00, 0x0d, 0x0a]]);
}

use scpify::transport::block::{read_response, BlockError, BlockReader, Want};

fn data(response: &[u8]) -> Vec<u8> {
    read_response(response).unwrap().0
}

#[test]
fn client_query_raw_definite_block() {
    assert_eq!(data(b"#15HELLO\n"), b"HELLO");
}

#[test]
fn client_query_raw_definite_block_crlf() {
    assert_eq!(data(b"#15HELLO\r\n"), b"HELLO");
    assert_eq!(read_response(b"#15HELLO\r\n").unwrap().1, 10);
}

#[test]
fn client_query_raw_definite_block_two_digit_length() {
    let payload = b"abcdefghijkl"; // 12 bytes
    let mut response = b"#212".to_vec(); // '#' + '2' digits + "12"
    response.extend_from_slice(payload);
    response.push(b'\n');
    assert_eq!(data(&response).as_slice(), payload.as_ref());
}

#[test]
fn client_query_raw_indefinite_block() {
    assert_eq!(data(b"#0binary data\n"), b"binary data\n");
}

#[test]
fn client_query_raw_ascii_fallback() {
    assert_eq!(data(b"3.14159\n"), b"3.14159\n");
}

#[test]
fn client_query_raw_streaming_two_blocks() {
    assert_eq!(data(b"#15HELLO#15WORLD\n"), b"HELLOWORLD");
}

#[test]
fn client_query_raw_streaming_three_blocks_crlf() {
    assert_eq!(data(b"#12AB#13CDE#11F\r\n"), b"ABCDEF");
}

#[test]
fn client_query_raw_streaming_multi_digit_length() {
    assert_eq!(data(b"#212abcdefghijkl#15HELLO\n"), b"abcdefghijklHELLO");
}

#[test]
fn client_query_raw_single_block_still_works() {
    assert_eq!(data(b"#15HELLO\n"), b"HELLO");
}

#[test]
fn what_follows_a_response_is_left() {
    assert_eq!(read_response(b"#11A\nrest").unwrap(), (b"A".to_vec(), 5));
    assert_eq!(read_response(b"#11Arest").unwrap(), (b"A".to_vec(), 4));
    assert_eq!(read_response(b"#11A\rX").unwrap(), (b"A".to_vec(), 5));
    assert_eq!(read_response(b"abc\ndef\n").unwrap(), (b"abc\n".to_vec(), 4));
    assert_eq!(read_response(b"#0ab\ncd").unwrap(), (b"ab\n".to_vec(), 5));
    assert_eq!(read_response(b"#11A").unwrap(), (b"A".to_vec(), 4));
}

#[test]
fn blocks_before_an_indefinite_block_are_kept() {
    assert_eq!(data(b"#12AB#0CD\n"), b"ABCD\n");
}

#[test]
fn line_feeds_within_a_payload_are_data() {
    assert_eq!(data(b"#13\n\r#\n"), b"\n\r#");
}

#[test]
fn an_empty_payload_is_a_block() {
    assert_eq!(data(b"#10\n"), b"");
    assert_eq!(data(b"#10#11X\n"), b"X");
}

#[test]
fn a_length_may_have_leading_zeros() {
    assert_eq!(data(b"#3002AB\n"), b"AB");
    assert_eq!(data(b"#9000000001X#200#15HELLO\r\n"), b"XHELLO");
}

#[test]
fn a_length_may_have_a_plus_sign() {
    assert_eq!(data(b"#2+1X\n"), b"X");
}

#[test]
fn broken_blocks_are_refused() {
    assert_eq!(read_response(b""), Err(BlockError::UnexpectedEnd));
    assert_eq!(read_response(b"#"), Err(BlockError::UnexpectedEnd));
    assert_eq!(read_response(b"#3"), Err(BlockError::UnexpectedEnd));
    assert_eq!(read_response(b"#312"), Err(BlockError::UnexpectedEnd));
    assert_eq!(read_response(b"#15HELL"), Err(BlockError::UnexpectedEnd));
    assert_eq!(read_response(b"#x5HELLO"), Err(BlockError::InvalidDigit));
    assert_eq!(read_response(b"#11A#:"), Err(BlockError::InvalidDigit));
    assert_eq!(
        read_response(b"#2\xff\xfeAB"),
        Err(BlockError::LengthNotText)
    );
    assert_eq!(read_response(b"#2a1AB"), Err(BlockError::LengthNotNumber));
    assert_eq!(
        read_response("#2\u{e9}AB".as_bytes()),
        Err(BlockError::LengthNotNumber)
    );
}

#[test]
fn errors_describe_themselves() {
    assert_eq!(
        BlockError::InvalidDigit.to_str(),
        "Invalid block header digit"
    );
    assert_eq!(
        BlockError::LengthNotText.to_str(),
        "Non-numeric length field"
    );
    assert_eq!(
        BlockError::LengthNotNumber.to_str(),
        "Failed to parse data length"
    );
    assert_eq!(
        BlockError::UnexpectedEnd.to_str(),
        "Unexpected end of response"
    );
}

#[test]
fn the_reader_says_what_it_wants() {
    let mut r = BlockReader::new();
    assert_eq!(r.want(), Want::Exactly(1));
    r.take_exactly(b"#").unwrap();
    assert_eq!(r.want(), Want::Exactly(1));
    r.take_exactly(b"2").unwrap();
    assert_eq!(r.want(), Want::Exactly(2));
    r.take_exactly(b"03").unwrap();
    assert_eq!(r.want(), Want::Exactly(3));
    r.take_exactly(b"abc").unwrap();
    assert_eq!(r.want(), Want::Peek);
    assert!(r.take_look(Some(b'#')));
    assert_eq!(r.want(), Want::Exactly(1));
    r.take_exactly(b"1").unwrap();
    r.take_exactly(b"0").unwrap();
    assert_eq!(r.want(), Want::Exactly(0));
    r.take_exactly(b"").unwrap();
    assert!(r.take_look(Some(b'\r')));
    assert_eq!(r.want(), Want::Peek);
    assert!(!r.take_look(Some(b'x')));
    assert_eq!(r.want(), Want::Nothing);
    assert_eq!(r.finish(), b"abc");
}

#[test]
fn the_reader_takes_lines() {
    let mut r = BlockReader::new();
    r.take_exactly(b"1").unwrap();
    assert_eq!(r.want(), Want::Line);
    r.take_line(b".5\n");
    assert_eq!(r.want(), Want::Nothing);
    assert_eq!(r.finish(), b"1.5\n");
}

use java_lsp::transport::{
    read_message, write_message, ByteReader, HeaderState, HeaderStep, TransportError,
    MAX_MESSAGE_LEN,
};

#[test]
fn read_message_returns_body_for_well_formed_message() {
    let input = b"Content-Length: 13\r\n\r\n{\"foo\":\"bar\"}".to_vec();
    let mut cursor = ByteReader::new(input);

    let body = read_message(&mut cursor).unwrap();

    assert_eq!(body, Some(b"{\"foo\":\"bar\"}".to_vec()));
}

#[test]
fn read_message_returns_none_on_clean_eof() {
    let mut cursor = ByteReader::new(Vec::new());

    let body = read_message(&mut cursor).unwrap();

    assert_eq!(body, None);
}

#[test]
fn read_message_errors_on_missing_content_length_header() {
    let input = b"Foo: bar\r\n\r\nirrelevant".to_vec();
    let mut cursor = ByteReader::new(input);

    let result = read_message(&mut cursor);

    assert!(result.is_err());
    assert_eq!(result, Err(TransportError::MissingContentLength));
}

#[test]
fn read_message_errors_on_content_length_exceeding_maximum() {
    let input = format!("Content-Length: {}\r\n\r\n", MAX_MESSAGE_LEN + 1).into_bytes();
    let mut cursor = ByteReader::new(input);

    let result = read_message(&mut cursor);

    assert!(result.is_err());
    assert_eq!(result, Err(TransportError::MessageTooLong));
}

#[test]
fn write_message_round_trips_through_read_message() {
    let body = b"{\"hello\":\"world\"}".to_vec();
    let mut buffer = Vec::new();

    write_message(&mut buffer, &body);
    let mut cursor = ByteReader::new(buffer);
    let read_back = read_message(&mut cursor).unwrap();

    assert_eq!(read_back, Some(body));
}

#[test]
fn write_message_frames_the_body() {
    let mut buffer = b"x".to_vec();
    write_message(&mut buffer, b"{}");
    assert_eq!(buffer, b"xContent-Length: 2\r\n\r\n{}".to_vec());
}

#[test]
fn read_message_reads_one_message_after_another() {
    let mut buffer = Vec::new();
    write_message(&mut buffer, b"one");
    write_message(&mut buffer, b"");
    write_message(&mut buffer, b"three");
    let mut cursor = ByteReader::new(buffer);

    assert_eq!(read_message(&mut cursor), Ok(Some(b"one".to_vec())));
    assert_eq!(read_message(&mut cursor), Ok(Some(Vec::new())));
    assert_eq!(read_message(&mut cursor), Ok(Some(b"three".to_vec())));
    assert_eq!(read_message(&mut cursor), Ok(None));
}

#[test]
fn read_message_takes_headers_in_any_case_and_the_last_length() {
    let input = b"content-length: 9\nX-Y: z\nCONTENT-LENGTH:\t+2 \r\n\nabcd".to_vec();
    let mut cursor = ByteReader::new(input);

    assert_eq!(read_message(&mut cursor), Ok(Some(b"ab".to_vec())));
}

#[test]
fn read_message_reports_what_is_wrong() {
    let read = |input: &[u8]| read_message(&mut ByteReader::new(input.to_vec()));

    assert_eq!(
        read(b"Content-Length: 1\r\n"),
        Err(TransportError::HeaderCutShort)
    );
    assert_eq!(
        read(b"Content-Length: -1\r\n\r\n"),
        Err(TransportError::InvalidContentLength)
    );
    assert_eq!(
        read(b"Content-Length: \r\n\r\n"),
        Err(TransportError::InvalidContentLength)
    );
    assert_eq!(
        read(b"Content-Length: 99999999999999999999\r\n\r\n"),
        Err(TransportError::InvalidContentLength)
    );
    assert_eq!(read(b"\xFF\r\n\r\n"), Err(TransportError::InvalidUtf8));
    assert_eq!(
        read(b"Content-Length: 3\r\n\r\nab"),
        Err(TransportError::BodyCutShort)
    );
    assert_eq!(
        TransportError::MissingContentLength.message(),
        "missing Content-Length header"
    );
}

#[test]
fn header_state_takes_one_line_at_a_time() {
    let mut state = HeaderState::new();
    assert_eq!(state.line(b"Content-Length: 5\r\n"), Ok(HeaderStep::More));
    assert_eq!(state.content_length, Some(5));
    assert_eq!(state.line(b"\r\n"), Ok(HeaderStep::Body(5)));

    let mut state = HeaderState::new();
    assert_eq!(state.line(b""), Ok(HeaderStep::End));
}

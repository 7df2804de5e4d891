use lsp_mux::codec::{decode_frame, decode_message, encode_frame, CodecError, FrameError};

fn bytes(s: &str) -> Vec<u8> {
    s.as_bytes().to_vec()
}

#[test]
fn encode_exact_bytes() {
    let body = bytes("{}");
    let frame = encode_frame(&body);
    assert_eq!(frame, bytes("Content-Length: 2\r\n\r\n{}"));
}

#[test]
fn encode_then_decode_round_trip() {
    let body = bytes("{\"id\":1,\"method\":\"foo\",\"params\":[1,2,3]}");
    let frame = encode_frame(&body);
    let (decoded, consumed) = decode_frame(&frame).unwrap();
    assert_eq!(decoded, body);
    assert_eq!(consumed, frame.len());
}

#[test]
fn round_trip_with_trailing_input() {
    let body = bytes("{\"a\":true}");
    let mut input = encode_frame(&body);
    let frame_len = input.len();
    input.extend_from_slice(b"Content-Length: 4\r\n\r\nnext");
    let (decoded, consumed) = decode_frame(&input).unwrap();
    assert_eq!(decoded, body);
    assert_eq!(consumed, frame_len);
}

#[test]
fn json_value_round_trip() {
    let v: serde_json::Value =
        serde_json::from_str("{\"id\":1,\"method\":\"foo\",\"params\":{\"x\":[null,2.5]}}")
            .unwrap();
    let body = serde_json::to_vec(&v).unwrap();
    let frame = encode_frame(&body);
    let (decoded, _) = decode_frame(&frame).unwrap();
    let back: serde_json::Value = serde_json::from_slice(&decoded).unwrap();
    assert_eq!(back, v);
}

#[test]
fn last_content_length_wins() {
    let input = bytes("Content-Length: 7\r\nContent-Length: 2\r\n\r\n{}rest");
    let (body, consumed) = decode_frame(&input).unwrap();
    assert_eq!(body, bytes("{}"));
    assert_eq!(consumed, input.len() - 4);
}

#[test]
fn content_type_is_ignored() {
    let input = bytes("Content-Type: application/vscode-jsonrpc\r\nContent-Length: 2\r\n\r\n{}");
    let (body, _) = decode_frame(&input).unwrap();
    assert_eq!(body, bytes("{}"));
}

#[test]
fn missing_content_length_means_empty_body() {
    let input = bytes("Content-Type: x\r\n\r\n");
    let (body, consumed) = decode_frame(&input).unwrap();
    assert_eq!(body, Vec::<u8>::new());
    assert_eq!(consumed, input.len());
}

#[test]
fn unknown_header_line_is_fatal() {
    let input = bytes("X-Custom: 1\r\nContent-Length: 2\r\n\r\n{}");
    assert_eq!(decode_frame(&input), Err(FrameError::MalformedHeader));
}

#[test]
fn unparseable_length_is_fatal() {
    let input = bytes("Content-Length: two\r\n\r\n{}");
    assert_eq!(decode_frame(&input), Err(FrameError::MalformedHeader));
}

#[test]
fn overlong_length_is_fatal() {
    let input = bytes("Content-Length: 99999999999999999999999999\r\n\r\n{}");
    assert_eq!(decode_frame(&input), Err(FrameError::MalformedHeader));
}

#[test]
fn input_ending_inside_headers_is_fatal() {
    let input = bytes("Content-Length: 2\r\n");
    assert_eq!(decode_frame(&input), Err(FrameError::MalformedHeader));
}

#[test]
fn short_body_is_truncation() {
    let input = bytes("Content-Length: 10\r\n\r\n{}");
    assert_eq!(decode_frame(&input), Err(FrameError::TruncatedBody));
}

#[test]
fn length_value_is_trimmed() {
    let input = bytes("Content-Length:  2 \r\n\r\n{}");
    let (body, _) = decode_frame(&input).unwrap();
    assert_eq!(body, bytes("{}"));
}

#[test]
fn message_body_is_canonicalized() {
    let input = bytes("Content-Length: 19\r\n\r\n{ \"id\" : 1 , \"b\":2}");
    let (msg, consumed) = decode_message(&input).unwrap();
    assert_eq!(msg, bytes("{\"b\":2,\"id\":1}"));
    assert_eq!(consumed, input.len());
}

#[test]
fn non_json_body_is_fatal() {
    let input = bytes("Content-Length: 3\r\n\r\nhi!");
    assert_eq!(decode_message(&input), Err(CodecError::InvalidJson));
}

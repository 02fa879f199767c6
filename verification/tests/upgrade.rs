use wscore::handshake::{accept_value, handshake, HandshakeError};

fn lines(raw: &[&str]) -> Vec<String> {
    raw.iter().map(|s| s.to_string()).collect()
}

fn response_with(accept: &str) -> String {
    format!(
        "HTTP/1.1 101 Switching Protocols\r\nUpgrade: websocket\r\nConnection: Upgrade\r\nSec-WebSocket-Accept: {}\r\n\r\n",
        accept
    )
}

#[test]
fn rfc_vector_accept_value() {
    let accept = accept_value(b"dGhlIHNhbXBsZSBub25jZQ==");
    assert_eq!(accept, "s3pPLMBiTxaQ9kYGzzhZRbK+xOo=");
}

#[test]
fn handshake_rfc_vector() {
    let req = lines(&[
        "GET /chat HTTP/1.1\r\n",
        "Host: server.example.com\r\n",
        "Upgrade: websocket\r\n",
        "Connection: Upgrade\r\n",
        "Sec-WebSocket-Key: dGhlIHNhbXBsZSBub25jZQ==\r\n",
        "\r\n",
    ]);
    let resp = handshake(&req).unwrap();
    assert_eq!(resp, response_with("s3pPLMBiTxaQ9kYGzzhZRbK+xOo="));
}

#[test]
fn missing_key_rejected() {
    let req = lines(&["GET / HTTP/1.1\r\n", "Host: server.example.com\r\n", "\r\n"]);
    assert_eq!(handshake(&req), Err(HandshakeError::HandshakeRejected));
}

#[test]
fn empty_request_rejected() {
    assert_eq!(handshake(&Vec::new()), Err(HandshakeError::HandshakeRejected));
}

#[test]
fn key_header_name_is_case_insensitive() {
    let req = lines(&["GET / HTTP/1.1\r\n", "SEC-WEBSOCKET-KEY: abc\r\n", "\r\n"]);
    let resp = handshake(&req).unwrap();
    assert_eq!(resp, response_with(&accept_value(b"abc")));
}

#[test]
fn later_duplicate_key_overwrites_earlier() {
    let req = lines(&[
        "GET / HTTP/1.1\r\n",
        "Sec-WebSocket-Key: first\r\n",
        "Sec-WebSocket-Key: second\r\n",
        "\r\n",
    ]);
    let resp = handshake(&req).unwrap();
    assert_eq!(resp, response_with(&accept_value(b"second")));
}

#[test]
fn line_without_colon_is_skipped() {
    let req = lines(&[
        "GET / HTTP/1.1\r\n",
        "this line has no separator\r\n",
        "Sec-WebSocket-Key: abc\r\n",
        "\r\n",
    ]);
    let resp = handshake(&req).unwrap();
    assert_eq!(resp, response_with(&accept_value(b"abc")));
}

#[test]
fn headers_after_blank_line_are_ignored() {
    let req = lines(&["GET / HTTP/1.1\r\n", "\r\n", "Sec-WebSocket-Key: abc\r\n"]);
    assert_eq!(handshake(&req), Err(HandshakeError::HandshakeRejected));
}

#[test]
fn value_is_trimmed_of_leading_whitespace_only() {
    let req = lines(&["GET / HTTP/1.1\r\n", "Sec-WebSocket-Key: \t  abc\r\n", "\r\n"]);
    let resp = handshake(&req).unwrap();
    assert_eq!(resp, response_with(&accept_value(b"abc")));
}

#[test]
fn bare_linefeed_terminator_is_stripped() {
    let req = lines(&["GET / HTTP/1.1\n", "Sec-WebSocket-Key: abc\n", "\r\n"]);
    let resp = handshake(&req).unwrap();
    assert_eq!(resp, response_with(&accept_value(b"abc")));
}

#[test]
fn empty_key_value_is_accepted() {
    let req = lines(&["GET / HTTP/1.1\r\n", "Sec-WebSocket-Key:\r\n", "\r\n"]);
    let resp = handshake(&req).unwrap();
    assert_eq!(resp, response_with(&accept_value(b"")));
}

#[test]
fn short_malformed_line_does_not_panic() {
    let req = lines(&["GET / HTTP/1.1\r\n", "x", "Sec-WebSocket-Key: abc\r\n", "\r\n"]);
    let resp = handshake(&req).unwrap();
    assert_eq!(resp, response_with(&accept_value(b"abc")));
}

use polling_runtime::http::{
    ends_request, request_text, response_bytes, REQUEST_CAPACITY, RESPONSE_LEN,
};

#[test]
fn request_ends_with_blank_line() {
    assert!(ends_request(b"GET / HTTP/1.1\r\nHost: localhost\r\n\r\n"));
    assert!(ends_request(b"\r\n\r\n"));
    assert!(!ends_request(b""));
    assert!(!ends_request(b"\n\r\n"));
    assert!(!ends_request(b"GET / HTTP/1.1\r\n\r\nx"));
    assert!(!ends_request(b"GET / HTTP/1.1\n\n\n\n"));
}

#[test]
fn response_is_exact() {
    let expected: &[u8] =
        b"HTTP/1.1 200 OK\r\nContent-Length:12\nConnection: close\r\n\r\nHello World!";
    assert_eq!(response_bytes(), expected);
    assert_eq!(response_bytes().len(), 68);
    assert_eq!(RESPONSE_LEN, 68);
    assert_eq!(REQUEST_CAPACITY, 1024);
}

#[test]
fn response_announces_its_body() {
    let text = std::str::from_utf8(response_bytes()).unwrap();
    let (head, body) = text.split_once("\r\n\r\n").unwrap();
    assert!(head.contains(&format!("Content-Length:{}\n", body.len())));
}

#[test]
fn request_text_replaces_invalid_bytes() {
    assert_eq!(request_text("gr\u{fc}n".as_bytes()), "gr\u{fc}n");
    assert_eq!(request_text(&[b'a', 0xff, b'b']), "a\u{fffd}b");
    assert_eq!(request_text(b""), "");
}

use diskcache::data::extract;

fn block_with(text: &[u8]) -> Vec<u8> {
    // some leading payload bytes, then the header text, then its null-pair
    // terminator and padding
    let mut b = vec![7u8; 16];
    b.extend_from_slice(text);
    b.extend_from_slice(&[0, 0]);
    b.resize(256, 9);
    b
}

#[test]
fn no_marker_yields_none() {
    let b = vec![1u8; 64];
    assert!(extract(&b).unwrap().is_none());
}

#[test]
fn marker_without_terminator_yields_none() {
    let mut b = vec![1u8; 16];
    b.extend_from_slice(b"HTTP/1.1 200 OK");
    b.resize(64, 1);
    assert!(extract(&b).unwrap().is_none());
}

#[test]
fn full_header_fields() {
    let text = b"HTTP/1.1 200 OK\0Content-Type: text/html\0Content-Length: 1234\0Server: Apache\0Date: Tue, 02 Jan 2018 03:04:05 GMT\0Last-Modified: Mon, 01 Jan 2018 00:00:00 GMT\0ETag: \"abc\"\0X-Custom: ignored";
    let h = extract(&block_with(text)).unwrap().unwrap();
    assert_eq!(h.server_responce, "HTTP/1.1 200 OK");
    assert_eq!(h.content_type, "text/html");
    assert_eq!(h.content_length, 1234);
    assert_eq!(h.server_name, "Apache");
    assert_eq!(h.server_time, Some(1514862245));
    assert_eq!(h.server_last_modified, Some(1514764800));
    assert_eq!(h.etag, "abc");
}

#[test]
fn marker_at_start_is_found() {
    let mut b = Vec::new();
    b.extend_from_slice(b"HTTP/1.0 304 Not Modified");
    b.extend_from_slice(&[0, 0]);
    b.resize(256, 0x55);
    let h = extract(&b).unwrap().unwrap();
    assert_eq!(h.server_responce, "HTTP/1.0 304 Not Modified");
}

#[test]
fn malformed_length_and_date_leave_defaults() {
    let text = b"HTTP/1.1 200 OK\0Content-Length: 12x\0Date: not a date";
    let h = extract(&block_with(text)).unwrap().unwrap();
    assert_eq!(h.content_length, 0);
    assert_eq!(h.server_time, None);
}

#[test]
fn oversized_length_leaves_default() {
    let text = b"HTTP/1.1 200 OK\0Content-Length: 99999999999";
    let h = extract(&block_with(text)).unwrap().unwrap();
    assert_eq!(h.content_length, 0);
}

#[test]
fn unquoted_etag_kept_verbatim() {
    let text = b"HTTP/1.1 200 OK\0ETag: abc";
    let h = extract(&block_with(text)).unwrap().unwrap();
    assert_eq!(h.etag, "abc");
}

#[test]
fn line_without_separator_is_ignored() {
    let text = b"HTTP/1.1 200 OK\0garbage line\0Server: nginx";
    let h = extract(&block_with(text)).unwrap().unwrap();
    assert_eq!(h.server_name, "nginx");
    assert_eq!(h.server_responce, "HTTP/1.1 200 OK");
}

#[test]
fn invalid_text_between_markers_fails() {
    let mut b = vec![1u8; 16];
    b.extend_from_slice(b"HTTP/1.1 200 OK");
    b.push(0xff); // not valid UTF-8
    b.extend_from_slice(&[0, 0]);
    b.resize(256, 9);
    assert!(matches!(extract(&b), Err(diskcache::error::Error::StringParseError)));
}

#[test]
fn later_field_overwrites_earlier() {
    let text = b"HTTP/1.1 200 OK\0Server: one\0Server: two";
    let h = extract(&block_with(text)).unwrap().unwrap();
    assert_eq!(h.server_name, "two");
}

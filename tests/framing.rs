use upload_client::decimal::render_decimal;
use upload_client::http::frame_request;
use upload_client::multipart::{build, parse_part};

const BOUNDARY: &str = "----RustBoundary123456";

#[test]
fn decimal_renders_zero_and_larger_values() {
    assert_eq!(render_decimal(0), b"0".to_vec());
    assert_eq!(render_decimal(7), b"7".to_vec());
    assert_eq!(render_decimal(10), b"10".to_vec());
    assert_eq!(render_decimal(1234567), b"1234567".to_vec());
    assert_eq!(render_decimal(usize::MAX), usize::MAX.to_string().into_bytes());
}

#[test]
fn multipart_body_is_byte_exact() {
    let body = build(
        BOUNDARY.as_bytes(),
        b"file",
        b"passwords.txt",
        b"application/octet-stream",
        b"secret",
    );
    let expected = "------RustBoundary123456\r\n\
        Content-Disposition: form-data; name=\"file\"; filename=\"passwords.txt\"\r\n\
        Content-Type: application/octet-stream\r\n\r\n\
        secret\r\n------RustBoundary123456--\r\n";
    assert_eq!(body, expected.as_bytes().to_vec());
}

#[test]
fn multipart_body_holds_data_contiguously_and_has_the_summed_length() {
    let data: Vec<u8> = (0u8..=255).collect();
    let body = build(b"XYZ", b"file", b"all.bin", b"application/octet-stream", &data);
    let preamble = "--XYZ\r\nContent-Disposition: form-data; name=\"file\"; filename=\"all.bin\"\r\n\
        Content-Type: application/octet-stream\r\n\r\n";
    let trailer = "\r\n--XYZ--\r\n";
    assert_eq!(body.len(), preamble.len() + data.len() + trailer.len());
    assert_eq!(&body[preamble.len()..preamble.len() + data.len()], &data[..]);
    assert!(body.windows(data.len()).any(|w| w == &data[..]));
}

#[test]
fn zero_byte_file_gives_empty_payload_between_markers() {
    let body = build(BOUNDARY.as_bytes(), b"file", b"empty.txt", b"application/octet-stream", b"");
    let text = String::from_utf8(body).unwrap();
    assert!(text.ends_with("Content-Type: application/octet-stream\r\n\r\n\r\n------RustBoundary123456--\r\n"));
}

#[test]
fn request_head_declares_exact_body_length() {
    let headers = vec![
        ("Host".to_string(), "localhost".to_string()),
        ("Content-Type".to_string(), "text/plain".to_string()),
    ];
    let req = frame_request("POST", "/upload", &headers, b"hello world".to_vec());
    assert_eq!(req.body, b"hello world".to_vec());
    let expected = "POST /upload HTTP/1.1\r\nHost: localhost\r\nContent-Type: text/plain\r\n\
        Content-Length: 11\r\nConnection: close\r\n\r\n";
    assert_eq!(String::from_utf8(req.head).unwrap(), expected);
}

#[test]
fn caller_framing_headers_are_replaced() {
    let headers = vec![
        ("content-LENGTH".to_string(), "999".to_string()),
        ("Host".to_string(), "example".to_string()),
        ("Connection".to_string(), "keep-alive".to_string()),
        ("X-Trace".to_string(), "1".to_string()),
    ];
    let req = frame_request("PUT", "/x", &headers, Vec::new());
    let expected = "PUT /x HTTP/1.1\r\nHost: example\r\nX-Trace: 1\r\n\
        Content-Length: 0\r\nConnection: close\r\n\r\n";
    assert_eq!(String::from_utf8(req.head).unwrap(), expected);
    assert!(req.body.is_empty());
}

#[test]
fn request_with_no_caller_headers_still_frames_the_body() {
    let body = vec![0u8; 1000];
    let req = frame_request("GET", "/", &Vec::new(), body.clone());
    let head = String::from_utf8(req.head).unwrap();
    assert_eq!(head, "GET / HTTP/1.1\r\nContent-Length: 1000\r\nConnection: close\r\n\r\n");
    assert_eq!(req.body, body);
}

#[test]
fn built_body_decodes_to_its_parts() {
    let data: Vec<u8> = vec![0, 255, b'"', b'\r', b'\n', b'-', b'-'];
    let body = build(b"B0undary", b"file", b"odd name.bin", b"application/octet-stream", &data);
    let part = parse_part(b"B0undary", &body).unwrap();
    assert_eq!(part.field_name, b"file".to_vec());
    assert_eq!(part.file_name, b"odd name.bin".to_vec());
    assert_eq!(part.content_type, b"application/octet-stream".to_vec());
    assert_eq!(part.data, data);
}

#[test]
fn empty_payload_decodes_to_empty_data() {
    let body = build(b"b", b"file", b"empty", b"text/plain", b"");
    let part = parse_part(b"b", &body).unwrap();
    assert!(part.data.is_empty());
    assert_eq!(part.file_name, b"empty".to_vec());
}

#[test]
fn data_holding_the_delimiter_still_decodes() {
    let data = b"x\r\n--b--\r\ny".to_vec();
    let body = build(b"b", b"file", b"f", b"t", &data);
    assert_eq!(parse_part(b"b", &body).unwrap().data, data);
}

#[test]
fn malformed_bodies_are_refused() {
    let body = build(b"b", b"file", b"f.txt", b"t", b"abc");
    assert!(parse_part(b"other", &body).is_none());
    assert!(parse_part(b"b", &body[..body.len() - 1]).is_none());
    assert!(parse_part(b"b", &body[1..]).is_none());
    assert!(parse_part(b"b", b"").is_none());
    let quoted = build(b"b", b"file", b"a\"b", b"t", b"abc");
    assert!(parse_part(b"b", &quoted).is_none());
}

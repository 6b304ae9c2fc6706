use http_server::http::{HttpBody, HttpHeader, HttpRequest, HttpResponse, HttpStatus, HttpVersion};

#[test]
fn empty_response_serializes_exactly() {
    let r = HttpResponse::empty_response(HttpStatus::Ok200);
    assert_eq!(r.to_bytes(), b"HTTP/1.1 200 OK\r\nContent-Length: 0\r\n\r\n".to_vec());

    let r = HttpResponse::empty_response(HttpStatus::NotFound404);
    assert_eq!(r.to_bytes(), b"HTTP/1.1 404 Not Found\r\nContent-Length: 0\r\n\r\n".to_vec());

    let r = HttpResponse::empty_response(HttpStatus::Created201);
    assert_eq!(r.to_bytes(), b"HTTP/1.1 201 Created\r\nContent-Length: 0\r\n\r\n".to_vec());

    let r = HttpResponse::empty_response(HttpStatus::InternalServerError500);
    assert_eq!(
        r.to_bytes(),
        b"HTTP/1.1 500 Internal Server Error\r\nContent-Length: 0\r\n\r\n".to_vec()
    );
}

#[test]
fn content_response_serializes_exactly() {
    let r = HttpResponse::content_response(&b"abc".to_vec(), &b"text/plain".to_vec());
    assert!(matches!(r.status, HttpStatus::Ok200));
    assert_eq!(
        r.to_bytes(),
        b"HTTP/1.1 200 OK\r\nContent-Type: text/plain\r\nContent-Length: 3\r\n\r\nabc".to_vec()
    );
}

#[test]
fn content_length_counts_bytes_in_decimal() {
    let content = vec![120u8; 1234];
    let r = HttpResponse::content_response(&content, &b"application/octet-stream".to_vec());
    assert_eq!(r.headers[1].key, b"Content-Length".to_vec());
    assert_eq!(r.headers[1].value, b"1234".to_vec());
}

#[test]
fn response_with_gzip_body_emits_the_raw_bytes() {
    let r = HttpResponse {
        status: HttpStatus::Ok200,
        version: HttpVersion::V1_1,
        headers: vec![HttpHeader { key: b"Content-Length".to_vec(), value: b"3".to_vec() }],
        body: Some(HttpBody::Gzip(vec![1, 2, 3])),
    };
    let mut expect = b"HTTP/1.1 200 OK\r\nContent-Length: 3\r\n\r\n".to_vec();
    expect.extend_from_slice(&[1, 2, 3]);
    assert_eq!(r.to_bytes(), expect);
}

#[test]
fn a_header_serializes_as_key_colon_space_value_crlf() {
    let h = HttpHeader { key: b"Content-Type".to_vec(), value: b"text/plain".to_vec() };
    assert_eq!(h.to_bytes(), b"Content-Type: text/plain\r\n".to_vec());
}

#[test]
fn echo_route_round_trip() {
    // GET /echo/abc with no Accept-Encoding: 200, body abc, text/plain, length 3
    let data = b"GET /echo/abc HTTP/1.1\r\n\r\n";
    let (req, _) = HttpRequest::parse(data).expect("request should parse");
    assert!(req.path.starts_with(b"/echo/"));
    let echoed = req.path[6..].to_vec();
    assert!(req.header_value(b"accept-encoding").is_none());
    let resp = HttpResponse::content_response(&echoed, &b"text/plain".to_vec());
    assert_eq!(
        resp.to_bytes(),
        b"HTTP/1.1 200 OK\r\nContent-Type: text/plain\r\nContent-Length: 3\r\n\r\nabc".to_vec()
    );
}

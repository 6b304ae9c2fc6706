use http_server::error::Error;
use http_server::http::{HttpBody, HttpHeader, HttpMethod, HttpRequest, HttpVersion};

fn parse_ok(data: &[u8]) -> (HttpRequest, usize) {
    HttpRequest::parse(data).expect("request should parse")
}

#[test]
fn parses_a_simple_get() {
    let (req, used) = parse_ok(b"GET /index.html HTTP/1.1\r\nHost: example\r\n\r\n");
    assert!(matches!(req.method, HttpMethod::Get));
    assert_eq!(req.path, b"/index.html".to_vec());
    assert!(matches!(req.version, HttpVersion::V1_1));
    assert_eq!(req.headers.len(), 1);
    assert_eq!(req.headers[0].key, b"Host".to_vec());
    assert_eq!(req.headers[0].value, b"example".to_vec());
    assert!(req.body.is_none());
    assert_eq!(used, b"GET /index.html HTTP/1.1\r\nHost: example\r\n\r\n".len());
}

#[test]
fn method_and_version_match_case_insensitively() {
    let (req, _) = parse_ok(b"get / http/1.1\r\n\r\n");
    assert!(matches!(req.method, HttpMethod::Get));
    let (req, _) = parse_ok(b"pOsT / Http/1.1\r\nContent-Length: 0\r\n\r\n");
    assert!(matches!(req.method, HttpMethod::Post));
}

#[test]
fn body_round_trips_exactly() {
    let data = b"POST /files/a HTTP/1.1\r\nContent-Length: 5\r\n\r\nhello";
    let (req, used) = parse_ok(data);
    assert_eq!(used, data.len());
    match req.body {
        Some(HttpBody::Text(t)) => {
            assert_eq!(t, b"hello".to_vec());
            // re-encoding the body as text emits the same bytes unchanged
            let body = HttpBody::Text(t);
            assert_eq!(body.bytes(), &b"hello".to_vec());
        }
        other => panic!("expected a text body, got {:?}", other),
    }
}

#[test]
fn trailing_bytes_are_left_alone() {
    let data = b"GET / HTTP/1.1\r\n\r\nleftover";
    let (_, used) = parse_ok(data);
    assert_eq!(used, b"GET / HTTP/1.1\r\n\r\n".len());
}

#[test]
fn request_line_with_two_tokens_fails() {
    let r = HttpRequest::parse(b"GET /\r\n\r\n");
    assert_eq!(r.unwrap_err(), Error::InvalidRequestLine(b"GET /".to_vec()));
}

#[test]
fn request_line_with_four_tokens_fails() {
    let r = HttpRequest::parse(b"GET / HTTP/1.1 extra\r\n\r\n");
    assert_eq!(
        r.unwrap_err(),
        Error::InvalidRequestLine(b"GET / HTTP/1.1 extra".to_vec())
    );
}

#[test]
fn request_line_with_double_space_fails() {
    // splitting keeps empty tokens, so two spaces in a row give four tokens
    let r = HttpRequest::parse(b"GET  / HTTP/1.1\r\n\r\n");
    assert!(matches!(r.unwrap_err(), Error::InvalidRequestLine(_)));
}

#[test]
fn missing_crlf_on_request_line_fails() {
    assert_eq!(
        HttpRequest::parse(b"GET / HTTP/1.1").unwrap_err(),
        Error::MissingCRLFFromLine
    );
    // LF alone is not CRLF
    assert_eq!(
        HttpRequest::parse(b"GET / HTTP/1.1\n\r\n").unwrap_err(),
        Error::MissingCRLFFromLine
    );
    assert_eq!(HttpRequest::parse(b"").unwrap_err(), Error::MissingCRLFFromLine);
}

#[test]
fn missing_crlf_on_header_line_fails() {
    assert_eq!(
        HttpRequest::parse(b"GET / HTTP/1.1\r\nHost: example\n\r\n").unwrap_err(),
        Error::MissingCRLFFromLine
    );
}

#[test]
fn unknown_method_or_version_fails() {
    assert_eq!(
        HttpRequest::parse(b"PUT / HTTP/1.1\r\n\r\n").unwrap_err(),
        Error::InvalidMethod
    );
    assert_eq!(
        HttpRequest::parse(b"GET / HTTP/1.0\r\n\r\n").unwrap_err(),
        Error::InvalidVersion
    );
}

#[test]
fn header_without_colon_fails() {
    assert_eq!(
        HttpRequest::parse(b"GET / HTTP/1.1\r\nBadHeader\r\n\r\n").unwrap_err(),
        Error::InvalidHeader
    );
}

#[test]
fn header_keys_and_values_are_trimmed() {
    let (req, _) = parse_ok(b"GET / HTTP/1.1\r\n  Host :  example.com  \r\n\r\n");
    assert_eq!(req.headers[0].key, b"Host".to_vec());
    assert_eq!(req.headers[0].value, b"example.com".to_vec());
}

#[test]
fn header_value_is_split_at_the_first_colon() {
    let (req, _) = parse_ok(b"GET / HTTP/1.1\r\nHost: a:b:c\r\n\r\n");
    assert_eq!(req.headers[0].value, b"a:b:c".to_vec());
}

#[test]
fn content_length_that_is_not_a_number_fails() {
    assert_eq!(
        HttpRequest::parse(b"GET / HTTP/1.1\r\nContent-Length: abc\r\n\r\n").unwrap_err(),
        Error::InvalidContentLength
    );
    assert_eq!(
        HttpRequest::parse(b"GET / HTTP/1.1\r\nContent-Length: -1\r\n\r\n").unwrap_err(),
        Error::InvalidContentLength
    );
    assert_eq!(
        HttpRequest::parse(b"GET / HTTP/1.1\r\nContent-Length: \r\n\r\n").unwrap_err(),
        Error::InvalidContentLength
    );
}

#[test]
fn content_length_with_plus_sign_parses() {
    let (req, _) = parse_ok(b"POST / HTTP/1.1\r\nContent-Length: +2\r\n\r\nok");
    match req.body {
        Some(HttpBody::Text(t)) => assert_eq!(t, b"ok".to_vec()),
        other => panic!("expected a text body, got {:?}", other),
    }
}

#[test]
fn content_length_too_big_for_usize_fails() {
    assert_eq!(
        HttpRequest::parse(b"GET / HTTP/1.1\r\nContent-Length: 99999999999999999999999999\r\n\r\n")
            .unwrap_err(),
        Error::InvalidContentLength
    );
}

#[test]
fn content_length_zero_means_no_body() {
    let (req, _) = parse_ok(b"POST / HTTP/1.1\r\nContent-Length: 0\r\n\r\nxx");
    assert!(req.body.is_none());
}

#[test]
fn no_content_length_means_no_body() {
    let (req, _) = parse_ok(b"POST / HTTP/1.1\r\n\r\nbody-bytes-here");
    assert!(req.body.is_none());
}

#[test]
fn truncated_body_fails() {
    assert_eq!(
        HttpRequest::parse(b"POST / HTTP/1.1\r\nContent-Length: 10\r\n\r\nshort").unwrap_err(),
        Error::UnexpectedEof
    );
}

#[test]
fn body_that_is_not_utf8_fails() {
    assert_eq!(
        HttpRequest::parse(b"POST / HTTP/1.1\r\nContent-Length: 2\r\n\r\n\xff\xfe").unwrap_err(),
        Error::InvalidUtf8
    );
}

#[test]
fn last_content_length_wins() {
    let data = b"POST / HTTP/1.1\r\nContent-Length: 100\r\ncontent-length: 3\r\n\r\nabc";
    let (req, used) = parse_ok(data);
    assert_eq!(used, data.len());
    match req.body {
        Some(HttpBody::Text(t)) => assert_eq!(t, b"abc".to_vec()),
        other => panic!("expected a text body, got {:?}", other),
    }
    // both headers are still carried in order
    assert_eq!(req.headers.len(), 2);
    assert_eq!(req.headers[0].key, b"Content-Length".to_vec());
    assert_eq!(req.headers[1].key, b"content-length".to_vec());
}

#[test]
fn header_lookup_is_case_insensitive_and_last_wins() {
    let (req, _) =
        parse_ok(b"GET / HTTP/1.1\r\nAccept-Encoding: br\r\naccept-encoding: gzip\r\n\r\n");
    let v = req.header_value(b"ACCEPT-ENCODING").expect("header should be found");
    assert_eq!(v, &b"gzip".to_vec());
    assert!(req.header_value(b"user-agent").is_none());
}

#[test]
fn head_info_reports_body_start_and_length() {
    let data = b"POST / HTTP/1.1\r\nContent-Length: 5\r\n\r\nhello";
    let (end, cl) = HttpRequest::head_info(data).expect("head should parse");
    assert_eq!(cl, 5);
    assert_eq!(end, data.len() - 5);
    assert_eq!(&data[end..end + cl], b"hello");
}

#[test]
fn parse_line_builds_a_header() {
    let h = HttpHeader::parse_line(b"Content-Type: text/plain\r\n").expect("line should parse");
    assert_eq!(h.key, b"Content-Type".to_vec());
    assert_eq!(h.value, b"text/plain".to_vec());
    assert_eq!(
        HttpHeader::parse_line(b"NoColonHere\r\n").unwrap_err(),
        Error::InvalidHeader
    );
    assert_eq!(
        HttpHeader::parse_line(b"Key: value\n").unwrap_err(),
        Error::MissingCRLFFromLine
    );
}

#[test]
fn eof_ends_the_header_section() {
    // a header section cut off by the peer closing ends at the short line
    let (req, _) = parse_ok(b"GET / HTTP/1.1\r\n");
    assert!(req.headers.is_empty());
    assert!(req.body.is_none());
}

use http_server::http::{HttpBody, HttpResponse, HttpStatus};
use std::io::Read;

fn gunzip_bytes(compressed: &[u8]) -> Vec<u8> {
    let mut d = flate2::read::GzDecoder::new(compressed);
    let mut out = Vec::new();
    d.read_to_end(&mut out).expect("gzip stream should decode");
    out
}

fn header_value<'a>(r: &'a HttpResponse, key: &str) -> Option<&'a Vec<u8>> {
    let mut found = None;
    for h in &r.headers {
        if h.key.eq_ignore_ascii_case(key.as_bytes()) {
            found = Some(&h.value);
        }
    }
    found
}

#[test]
fn gzip_compress_round_trips() {
    let body = HttpBody::Text(b"hello hello hello hello".to_vec());
    match body.gzip_compress().expect("compression should succeed") {
        HttpBody::Gzip(c) => {
            assert_eq!(gunzip_bytes(&c), b"hello hello hello hello".to_vec());
        }
        other => panic!("expected a gzip body, got {:?}", other),
    }
}

#[test]
fn add_compression_replaces_body_and_headers() {
    let mut r = HttpResponse::content_response(&b"abc".to_vec(), &b"text/plain".to_vec());
    r.add_compression(b"gzip").expect("compression should succeed");

    let compressed = match &r.body {
        Some(HttpBody::Gzip(c)) => c.clone(),
        other => panic!("expected a gzip body, got {:?}", other),
    };
    // the compressed body decompresses to the original bytes
    assert_eq!(gunzip_bytes(&compressed), b"abc".to_vec());

    // Content-Encoding: gzip is present
    assert_eq!(header_value(&r, "content-encoding"), Some(&b"gzip".to_vec()));

    // Content-Length is the compressed length, never the original one
    let cl = header_value(&r, "content-length").expect("a content length should be present");
    assert_eq!(cl, &compressed.len().to_string().into_bytes());
    assert_ne!(cl, &b"3".to_vec());

    // the Content-Type header survives; exactly one Content-Length remains
    assert_eq!(header_value(&r, "content-type"), Some(&b"text/plain".to_vec()));
    let n_cl = r
        .headers
        .iter()
        .filter(|h| h.key.eq_ignore_ascii_case(b"content-length"))
        .count();
    assert_eq!(n_cl, 1);
}

#[test]
fn gzip_is_found_among_comma_separated_encodings() {
    let mut r = HttpResponse::content_response(&b"xyz".to_vec(), &b"text/plain".to_vec());
    r.add_compression(b"deflate, gzip , br").expect("compression should succeed");
    assert!(matches!(r.body, Some(HttpBody::Gzip(_))));
}

#[test]
fn other_encodings_are_ignored() {
    let original = HttpResponse::content_response(&b"xyz".to_vec(), &b"text/plain".to_vec());
    let expect = original.to_bytes();

    let mut r = HttpResponse::content_response(&b"xyz".to_vec(), &b"text/plain".to_vec());
    r.add_compression(b"deflate, br").expect("no compression requested");
    assert_eq!(r.to_bytes(), expect);
}

#[test]
fn gzip_token_match_is_case_sensitive() {
    let original = HttpResponse::content_response(&b"xyz".to_vec(), &b"text/plain".to_vec());
    let expect = original.to_bytes();

    let mut r = HttpResponse::content_response(&b"xyz".to_vec(), &b"text/plain".to_vec());
    r.add_compression(b"GZIP").expect("no compression requested");
    assert_eq!(r.to_bytes(), expect);

    let mut r = HttpResponse::content_response(&b"xyz".to_vec(), &b"text/plain".to_vec());
    r.add_compression(b"xgzip").expect("no compression requested");
    assert_eq!(r.to_bytes(), expect);
}

#[test]
fn compressing_a_bodyless_response_changes_nothing() {
    // no body means nothing was compressed, so no Content-Encoding is earned
    let expect = HttpResponse::empty_response(HttpStatus::Ok200).to_bytes();
    let mut r = HttpResponse::empty_response(HttpStatus::Ok200);
    r.add_compression(b"gzip").expect("negotiation always succeeds");
    assert!(r.body.is_none());
    assert!(header_value(&r, "content-encoding").is_none());
    assert_eq!(header_value(&r, "content-length"), Some(&b"0".to_vec()));
    assert_eq!(r.to_bytes(), expect);
}

#[test]
fn end_to_end_gzip_echo() {
    // GET /echo/abc with Accept-Encoding: gzip: 200, gzip body decompressing to abc
    let data = b"GET /echo/abc HTTP/1.1\r\nAccept-Encoding: gzip\r\n\r\n";
    let (req, _) = http_server::http::HttpRequest::parse(data).expect("request should parse");
    let echoed = req.path[6..].to_vec();
    let mut resp = HttpResponse::content_response(&echoed, &b"text/plain".to_vec());
    let enc = req.header_value(b"accept-encoding").expect("header should be found").clone();
    resp.add_compression(&enc).expect("compression should succeed");
    match &resp.body {
        Some(HttpBody::Gzip(c)) => assert_eq!(gunzip_bytes(c), b"abc".to_vec()),
        other => panic!("expected a gzip body, got {:?}", other),
    }
}

use vstd::prelude::*;

use crate::bytes::{copy_range, dec_of, eq_bytes_icase, eq_icase, extend_bytes};

verus! {

// --- enumerated wire tokens ---------------------------------------------------

#[derive(Debug, PartialEq, Eq, Structural, Clone, Copy)]
pub enum HttpMethod {
    Get,
    Post,
}

#[derive(Debug, PartialEq, Eq, Structural, Clone, Copy)]
pub enum HttpVersion {
    V1_1,
}

#[derive(Debug, PartialEq, Eq, Structural, Clone, Copy)]
pub enum HttpStatus {
    Ok200,
    Created201,
    NotFound404,
    InternalServerError500,
}

// --- headers ------------------------------------------------------------------

#[derive(Debug)]
pub struct HttpHeader {
    pub key: Vec<u8>,
    pub value: Vec<u8>,
}

/// Spec-level image of a header: its key and value as byte sequences.
#[verifier::ext_equal]
pub struct HeaderModel {
    pub key: Seq<u8>,
    pub value: Seq<u8>,
}

impl View for HttpHeader {
    type V = HeaderModel;

    open spec fn view(&self) -> HeaderModel {
        HeaderModel { key: self.key@, value: self.value@ }
    }
}

// --- bodies -------------------------------------------------------------------

/// A response or request body: raw text bytes, or gzip-compressed bytes.
/// Serialization emits whichever byte sequence the tag holds, unchanged.
#[derive(Debug)]
pub enum HttpBody {
    Text(Vec<u8>),
    Gzip(Vec<u8>),
}

#[verifier::ext_equal]
pub enum BodyModel {
    Text(Seq<u8>),
    Gzip(Seq<u8>),
}

impl View for HttpBody {
    type V = BodyModel;

    open spec fn view(&self) -> BodyModel {
        match self {
            HttpBody::Text(t) => BodyModel::Text(t@),
            HttpBody::Gzip(g) => BodyModel::Gzip(g@),
        }
    }
}

/// The bytes a body contributes to the wire image.
pub open spec fn spec_body_bytes(b: BodyModel) -> Seq<u8> {
    match b {
        BodyModel::Text(t) => t,
        BodyModel::Gzip(g) => g,
    }
}

impl HttpBody {
    /// The raw bytes this body holds.
    pub fn bytes(&self) -> (r: &Vec<u8>)
        ensures
            r@ == spec_body_bytes(self@),
    {
        match self {
            HttpBody::Text(t) => t,
            HttpBody::Gzip(g) => g,
        }
    }
}

// --- requests and responses ---------------------------------------------------

#[derive(Debug)]
pub struct HttpRequest {
    pub method: HttpMethod,
    pub path: Vec<u8>,
    pub version: HttpVersion,
    pub headers: Vec<HttpHeader>,
    pub body: Option<HttpBody>,
}

#[verifier::ext_equal]
pub struct ReqModel {
    pub method: HttpMethod,
    pub path: Seq<u8>,
    pub version: HttpVersion,
    pub headers: Seq<HeaderModel>,
    pub body: Option<BodyModel>,
}

impl View for HttpRequest {
    type V = ReqModel;

    open spec fn view(&self) -> ReqModel {
        ReqModel {
            method: self.method,
            path: self.path@,
            version: self.version,
            headers: self.headers@.map_values(|h: HttpHeader| h@),
            body: match self.body {
                Option::None => Option::<BodyModel>::None,
                Option::Some(b) => Option::Some(b@),
            },
        }
    }
}

#[derive(Debug)]
pub struct HttpResponse {
    pub status: HttpStatus,
    pub version: HttpVersion,
    pub headers: Vec<HttpHeader>,
    pub body: Option<HttpBody>,
}

#[verifier::ext_equal]
pub struct RespModel {
    pub status: HttpStatus,
    pub version: HttpVersion,
    pub headers: Seq<HeaderModel>,
    pub body: Option<BodyModel>,
}

impl View for HttpResponse {
    type V = RespModel;

    open spec fn view(&self) -> RespModel {
        RespModel {
            status: self.status,
            version: self.version,
            headers: self.headers@.map_values(|h: HttpHeader| h@),
            body: match self.body {
                Option::None => Option::<BodyModel>::None,
                Option::Some(b) => Option::Some(b@),
            },
        }
    }
}

// --- the fixed byte strings of the wire format ---------------------------------

pub open spec fn crlf() -> Seq<u8> {
    seq![13u8, 10u8]
}

/// `"GET"`
pub open spec fn get_token() -> Seq<u8> {
    seq![71u8, 69u8, 84u8]
}

/// `"POST"`
pub open spec fn post_token() -> Seq<u8> {
    seq![80u8, 79u8, 83u8, 84u8]
}

/// `"HTTP/1.1"`
pub open spec fn version_text(v: HttpVersion) -> Seq<u8> {
    seq![72u8, 84u8, 84u8, 80u8, 47u8, 49u8, 46u8, 49u8]
}

/// The status line text of each status: `"200 OK"` and its kin.
pub open spec fn status_text(s: HttpStatus) -> Seq<u8> {
    match s {
        HttpStatus::Ok200 => seq![50u8, 48u8, 48u8, 32u8, 79u8, 75u8],
        HttpStatus::Created201 => seq![
            50u8, 48u8, 49u8, 32u8, 67u8, 114u8, 101u8, 97u8, 116u8, 101u8, 100u8,
        ],
        HttpStatus::NotFound404 => seq![
            52u8, 48u8, 52u8, 32u8, 78u8, 111u8, 116u8, 32u8, 70u8, 111u8, 117u8, 110u8, 100u8,
        ],
        HttpStatus::InternalServerError500 => seq![
            53u8, 48u8, 48u8, 32u8, 73u8, 110u8, 116u8, 101u8, 114u8, 110u8, 97u8, 108u8, 32u8,
            83u8, 101u8, 114u8, 118u8, 101u8, 114u8, 32u8, 69u8, 114u8, 114u8, 111u8, 114u8,
        ],
    }
}

/// `"Content-Length"`
pub open spec fn content_length_key() -> Seq<u8> {
    seq![67u8, 111u8, 110u8, 116u8, 101u8, 110u8, 116u8, 45u8, 76u8, 101u8, 110u8, 103u8, 116u8,
        104u8]
}

/// `"Content-Type"`
pub open spec fn content_type_key() -> Seq<u8> {
    seq![67u8, 111u8, 110u8, 116u8, 101u8, 110u8, 116u8, 45u8, 84u8, 121u8, 112u8, 101u8]
}

/// `"Content-Encoding"`
pub open spec fn content_encoding_key() -> Seq<u8> {
    seq![67u8, 111u8, 110u8, 116u8, 101u8, 110u8, 116u8, 45u8, 69u8, 110u8, 99u8, 111u8, 100u8,
        105u8, 110u8, 103u8]
}

/// `"gzip"`
pub open spec fn gzip_token() -> Seq<u8> {
    seq![103u8, 122u8, 105u8, 112u8]
}

pub(crate) fn content_length_key_vec() -> (r: Vec<u8>)
    ensures
        r@ == content_length_key(),
{
    let a: [u8; 14] = [67, 111, 110, 116, 101, 110, 116, 45, 76, 101, 110, 103, 116, 104];
    let r = vstd::slice::slice_to_vec(a.as_slice());
    assert(r@ =~= content_length_key());
    r
}

fn content_type_key_vec() -> (r: Vec<u8>)
    ensures
        r@ == content_type_key(),
{
    let a: [u8; 12] = [67, 111, 110, 116, 101, 110, 116, 45, 84, 121, 112, 101];
    let r = vstd::slice::slice_to_vec(a.as_slice());
    assert(r@ =~= content_type_key());
    r
}

pub(crate) fn content_encoding_key_vec() -> (r: Vec<u8>)
    ensures
        r@ == content_encoding_key(),
{
    let a: [u8; 16] = [67, 111, 110, 116, 101, 110, 116, 45, 69, 110, 99, 111, 100, 105, 110, 103];
    let r = vstd::slice::slice_to_vec(a.as_slice());
    assert(r@ =~= content_encoding_key());
    r
}

pub(crate) fn gzip_token_vec() -> (r: Vec<u8>)
    ensures
        r@ == gzip_token(),
{
    let a: [u8; 4] = [103, 122, 105, 112];
    let r = vstd::slice::slice_to_vec(a.as_slice());
    assert(r@ =~= gzip_token());
    r
}

/// Whether a header key is `Content-Length`, compared ASCII-case-insensitively.
pub open spec fn is_content_length_key(key: Seq<u8>) -> bool {
    eq_icase(key, content_length_key())
}

/// Case-insensitive equality is reflexive.
pub proof fn lemma_icase_refl(s: Seq<u8>)
    ensures
        eq_icase(s, s),
{
}

pub(crate) fn content_length_key_matches(key: &[u8]) -> (r: bool)
    ensures
        r == is_content_length_key(key@),
{
    let a: [u8; 14] = [67, 111, 110, 116, 101, 110, 116, 45, 76, 101, 110, 103, 116, 104];
    assert(a@ =~= content_length_key());
    eq_bytes_icase(key, a.as_slice())
}

// --- response serialization ----------------------------------------------------

/// One header as it appears on the wire: `key`, `": "`, `value`, CRLF.
pub open spec fn spec_header_line(h: HeaderModel) -> Seq<u8> {
    h.key + seq![58u8, 32u8] + h.value + crlf()
}

pub open spec fn spec_headers_bytes(hs: Seq<HeaderModel>) -> Seq<u8>
    decreases hs.len(),
{
    if hs.len() == 0 {
        Seq::empty()
    } else {
        spec_headers_bytes(hs.drop_last()) + spec_header_line(hs.last())
    }
}

/// The wire image of a header list, peeled from the front.
pub proof fn lemma_headers_bytes_front(hs: Seq<HeaderModel>)
    requires
        hs.len() > 0,
    ensures
        spec_headers_bytes(hs) == spec_header_line(hs[0]) + spec_headers_bytes(hs.drop_first()),
    decreases hs.len(),
{
    if hs.len() == 1 {
        assert(hs.drop_last() =~= Seq::<HeaderModel>::empty());
        assert(hs.drop_first() =~= Seq::<HeaderModel>::empty());
        assert(Seq::<u8>::empty() + spec_header_line(hs[0]) =~= spec_header_line(hs[0]));
        assert(spec_header_line(hs[0]) + Seq::<u8>::empty() =~= spec_header_line(hs[0]));
    } else {
        let t = hs.drop_last();
        lemma_headers_bytes_front(t);
        assert(hs.drop_first().drop_last() =~= t.drop_first());
        assert(hs.drop_first().last() == hs.last());
        assert(t[0] == hs[0]);
        assert(spec_headers_bytes(hs.drop_first()) == spec_headers_bytes(t.drop_first())
            + spec_header_line(hs.last()));
        assert((spec_header_line(hs[0]) + spec_headers_bytes(t.drop_first()))
            + spec_header_line(hs.last()) =~= spec_header_line(hs[0]) + (spec_headers_bytes(
            t.drop_first(),
        ) + spec_header_line(hs.last())));
    }
}

/// The full wire image of a response: status line, headers, blank line, body.
pub open spec fn spec_resp_bytes(m: RespModel) -> Seq<u8> {
    version_text(m.version) + seq![32u8] + status_text(m.status) + crlf() + spec_headers_bytes(
        m.headers,
    ) + crlf() + (match m.body {
        Option::None => Seq::<u8>::empty(),
        Option::Some(b) => spec_body_bytes(b),
    })
}

fn push_header_line(out: &mut Vec<u8>, h: &HttpHeader)
    ensures
        final(out)@ == old(out)@ + spec_header_line(h@),
{
    extend_bytes(out, h.key.as_slice());
    let sep: [u8; 2] = [58, 32];
    extend_bytes(out, sep.as_slice());
    extend_bytes(out, h.value.as_slice());
    let nl: [u8; 2] = [13, 10];
    extend_bytes(out, nl.as_slice());
    assert(out@ =~= old(out)@ + spec_header_line(h@));
}

impl HttpHeader {
    /// One header as written on the wire: `key`, `": "`, `value`, CRLF.
    pub fn to_bytes(&self) -> (r: Vec<u8>)
        ensures
            r@ == spec_header_line(self@),
    {
        let mut out: Vec<u8> = Vec::new();
        push_header_line(&mut out, self);
        assert(out@ =~= spec_header_line(self@));
        out
    }
}

impl HttpResponse {
    /// Serialize this response into the bytes written back on the connection.
    pub fn to_bytes(&self) -> (r: Vec<u8>)
        ensures
            r@ == spec_resp_bytes(self@),
    {
        let mut out: Vec<u8> = Vec::new();
        match self.version {
            HttpVersion::V1_1 => {
                let v: [u8; 8] = [72, 84, 84, 80, 47, 49, 46, 49];
                extend_bytes(&mut out, v.as_slice());
                assert(out@ =~= version_text(self@.version));
            },
        }
        out.push(32);
        match self.status {
            HttpStatus::Ok200 => {
                let t: [u8; 6] = [50, 48, 48, 32, 79, 75];
                extend_bytes(&mut out, t.as_slice());
            },
            HttpStatus::Created201 => {
                let t: [u8; 11] = [50, 48, 49, 32, 67, 114, 101, 97, 116, 101, 100];
                extend_bytes(&mut out, t.as_slice());
            },
            HttpStatus::NotFound404 => {
                let t: [u8; 13] = [52, 48, 52, 32, 78, 111, 116, 32, 70, 111, 117, 110, 100];
                extend_bytes(&mut out, t.as_slice());
            },
            HttpStatus::InternalServerError500 => {
                let t: [u8; 25] = [
                    53, 48, 48, 32, 73, 110, 116, 101, 114, 110, 97, 108, 32, 83, 101, 114, 118,
                    101, 114, 32, 69, 114, 114, 111, 114,
                ];
                extend_bytes(&mut out, t.as_slice());
            },
        }
        let nl: [u8; 2] = [13, 10];
        extend_bytes(&mut out, nl.as_slice());
        let ghost head = version_text(self@.version) + seq![32u8] + status_text(self@.status)
            + crlf();
        assert(out@ =~= head);

        let n: usize = self.headers.len();
        let mut i: usize = 0;
        while i < n
            invariant
                0 <= i <= n,
                n == self.headers@.len(),
                out@ == head + spec_headers_bytes(self@.headers.take(i as int)),
            decreases n - i,
        {
            proof {
                let hs = self@.headers;
                assert(hs.take(i + 1).drop_last() =~= hs.take(i as int));
                assert(hs.take(i + 1).last() == hs[i as int]);
            }
            push_header_line(&mut out, &self.headers[i]);
            i = i + 1;
        }
        assert(self@.headers.take(n as int) =~= self@.headers);

        extend_bytes(&mut out, nl.as_slice());
        match &self.body {
            Option::None => {
                assert(out@ =~= spec_resp_bytes(self@));
            },
            Option::Some(b) => {
                extend_bytes(&mut out, b.bytes().as_slice());
                assert(out@ =~= spec_resp_bytes(self@));
            },
        }
        out
    }
}

// --- header lookup --------------------------------------------------------------

/// The value of the last header whose key matches `key` ASCII-case-insensitively.
pub open spec fn spec_lookup(hs: Seq<HeaderModel>, key: Seq<u8>) -> Option<Seq<u8>>
    decreases hs.len(),
{
    if hs.len() == 0 {
        None
    } else if eq_icase(hs.last().key, key) {
        Some(hs.last().value)
    } else {
        spec_lookup(hs.drop_last(), key)
    }
}

impl HttpRequest {
    /// Case-insensitive header lookup; with duplicate keys the last wins.
    pub fn header_value(&self, key: &[u8]) -> (r: Option<&Vec<u8>>)
        ensures
            match r {
                Some(v) => spec_lookup(self@.headers, key@) == Some(v@),
                None => spec_lookup(self@.headers, key@) is None,
            },
    {
        let mut i: usize = self.headers.len();
        assert(self@.headers.take(i as int) =~= self@.headers);
        while i > 0
            invariant
                0 <= i <= self.headers@.len(),
                spec_lookup(self@.headers, key@) == spec_lookup(
                    self@.headers.take(i as int),
                    key@,
                ),
            decreases i,
        {
            proof {
                let hs = self@.headers;
                assert(hs.take(i as int).drop_last() =~= hs.take(i - 1));
                assert(hs.take(i as int).last() == hs[i - 1]);
            }
            let h = &self.headers[i - 1];
            if eq_bytes_icase(h.key.as_slice(), key) {
                return Some(&h.value);
            }
            i = i - 1;
        }
        assert(self@.headers.take(0) =~= Seq::<HeaderModel>::empty());
        None
    }
}

// --- the response invariant -----------------------------------------------------

/// A response ready for serialization: a `Content-Length` lookup finds the
/// decimal byte length of the body as it will be emitted — after any
/// encoding — and zero when there is no body.
pub open spec fn resp_wf(m: RespModel) -> bool {
    spec_lookup(m.headers, content_length_key()) == Some(
        dec_of(
            match m.body {
                Option::None => 0int,
                Option::Some(b) => spec_body_bytes(b).len() as int,
            },
        ),
    )
}

// --- the canned responses -------------------------------------------------------

/// The response `empty_response` builds: the given status, no body, and a
/// single `Content-Length: 0` header.
pub open spec fn spec_empty_response(status: HttpStatus) -> RespModel {
    RespModel {
        status,
        version: HttpVersion::V1_1,
        headers: seq![
            HeaderModel { key: content_length_key(), value: seq![48u8] },
        ],
        body: None,
    }
}

/// The response `content_response` builds: status 200, a `Content-Type`
/// header, a correct `Content-Length`, and the content as a text body.
pub open spec fn spec_content_response(content: Seq<u8>, content_type: Seq<u8>) -> RespModel {
    RespModel {
        status: HttpStatus::Ok200,
        version: HttpVersion::V1_1,
        headers: seq![
            HeaderModel { key: content_type_key(), value: content_type },
            HeaderModel { key: content_length_key(), value: dec_of(content.len() as int) },
        ],
        body: Some(BodyModel::Text(content)),
    }
}

impl HttpResponse {
    /// A body-less response with the given status and `Content-Length: 0`.
    pub fn empty_response(status: HttpStatus) -> (r: Self)
        ensures
            r@ == spec_empty_response(status),
            resp_wf(r@),
    {
        proof {
            lemma_icase_refl(content_length_key());
        }
        let mut headers: Vec<HttpHeader> = Vec::new();
        let mut zero: Vec<u8> = Vec::new();
        zero.push(48);
        headers.push(HttpHeader { key: content_length_key_vec(), value: zero });
        let r = HttpResponse { status, version: HttpVersion::V1_1, headers, body: None };
        assert(r@ =~= spec_empty_response(status));
        r
    }

    /// A `200 OK` response carrying `content` with the given content type.
    pub fn content_response(content: &Vec<u8>, content_type: &Vec<u8>) -> (r: Self)
        ensures
            r@ == spec_content_response(content@, content_type@),
            resp_wf(r@),
    {
        proof {
            lemma_icase_refl(content_length_key());
        }
        let mut headers: Vec<HttpHeader> = Vec::new();
        headers.push(
            HttpHeader {
                key: content_type_key_vec(),
                value: copy_range(content_type.as_slice(), 0, content_type.len()),
            },
        );
        headers.push(
            HttpHeader {
                key: content_length_key_vec(),
                value: crate::bytes::usize_to_dec(content.len()),
            },
        );
        let body = HttpBody::Text(copy_range(content.as_slice(), 0, content.len()));
        let r = HttpResponse { status: HttpStatus::Ok200, version: HttpVersion::V1_1, headers, body: Some(body) };
        assert(content@.subrange(0, content@.len() as int) =~= content@);
        assert(content_type@.subrange(0, content_type@.len() as int) =~= content_type@);
        assert(r@ =~= spec_content_response(content@, content_type@));
        r
    }
}

} // verus!

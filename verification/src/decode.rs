use vstd::prelude::*;

use crate::bytes::{
    copy_range, eq_bytes_icase, eq_icase, find_byte, is_ws, lemma_find, lemma_find_at,
    lemma_find_shift, lemma_parse_num_nonneg, lemma_trim_id, lemma_trim_leading_space, parse_num,
    spec_find, spec_parse_num, spec_trim, trim,
};
use crate::error::{ErrSpec, Error};
use crate::http::{
    crlf, get_token, is_content_length_key, lemma_headers_bytes_front, post_token,
    spec_header_line, spec_headers_bytes, version_text, BodyModel, HeaderModel, HttpHeader,
    HttpMethod, HttpRequest, HttpVersion, ReqModel,
};

verus! {

// === the spec-level request parser =============================================
//
// Decoding is specified as total functions over the received byte sequence.
// The executable parser below is proved to return exactly what they say.
//
// A "line" is everything up to and including the first LF; a line that must be
// CRLF-terminated and is not is a framing error, as is input that ends before
// a line does.

/// `s` split at every space, the way splitting on a single separator works:
/// empty tokens are kept, so `n` spaces give `n + 1` tokens.
pub open spec fn spec_split_sp(s: Seq<u8>) -> Seq<Seq<u8>>
    decreases s.len(),
{
    match spec_find(s, 0, 32) {
        Option::None => seq![s],
        Option::Some(i) => if 0 <= i < s.len() {
            seq![s.take(i)] + spec_split_sp(s.skip(i + 1))
        } else {
            seq![s]
        },
    }
}

pub open spec fn spec_parse_method(t: Seq<u8>) -> Option<HttpMethod> {
    if eq_icase(t, get_token()) {
        Some(HttpMethod::Get)
    } else if eq_icase(t, post_token()) {
        Some(HttpMethod::Post)
    } else {
        None
    }
}

pub open spec fn spec_parse_version(t: Seq<u8>) -> Option<HttpVersion> {
    if eq_icase(t, version_text(HttpVersion::V1_1)) {
        Some(HttpVersion::V1_1)
    } else {
        None
    }
}

/// The parsed request line: method, path and version.
#[verifier::ext_equal]
pub struct ReqLineModel {
    pub method: HttpMethod,
    pub path: Seq<u8>,
    pub version: HttpVersion,
}

/// What parsing the request line body `lb` (CRLF already removed) yields:
/// exactly three space-separated tokens, a known method and a known version.
pub open spec fn spec_parse_request_line(lb: Seq<u8>) -> Result<ReqLineModel, ErrSpec> {
    let parts = spec_split_sp(lb);
    if parts.len() != 3 {
        Err(ErrSpec::InvalidRequestLine(lb))
    } else {
        match spec_parse_method(parts[0]) {
            None => Err(ErrSpec::InvalidMethod),
            Some(m) => match spec_parse_version(parts[2]) {
                None => Err(ErrSpec::InvalidVersion),
                Some(v) => Ok(ReqLineModel { method: m, path: parts[1], version: v }),
            },
        }
    }
}

/// One header line body (CRLF already removed), split at the first `:`,
/// both sides trimmed of surrounding whitespace; `None` without a `:`.
pub open spec fn spec_header_of(content: Seq<u8>) -> Option<HeaderModel> {
    match spec_find(content, 0, 58) {
        Option::None => None,
        Option::Some(j) => if 0 <= j < content.len() {
            Some(
                HeaderModel {
                    key: spec_trim(content.take(j)),
                    value: spec_trim(content.skip(j + 1)),
                },
            )
        } else {
            None
        },
    }
}

/// What parsing one full header line yields: the line must end in CRLF and
/// contain a `:`.
pub open spec fn spec_header_line_parse(line: Seq<u8>) -> Result<HeaderModel, ErrSpec> {
    if line.len() < 2 || line[line.len() - 2] != 13 || line[line.len() - 1] != 10 {
        Err(ErrSpec::MissingCRLFFromLine)
    } else {
        match spec_header_of(line.take(line.len() - 2)) {
            None => Err(ErrSpec::InvalidHeader),
            Some(h) => Ok(h),
        }
    }
}

/// The header section of `s` starting at `pos`, with `cl` the `Content-Length`
/// seen so far. Yields the headers in order, the final content length (the
/// last well-formed `Content-Length` header wins), and the index just past
/// the blank line that closed the section. A line of length at most 2 — or
/// the end of the input — closes the section.
pub open spec fn spec_headers(s: Seq<u8>, pos: int, cl: int) -> Result<
    (Seq<HeaderModel>, int, int),
    ErrSpec,
>
    decreases s.len() - pos,
{
    if pos < 0 || pos >= s.len() {
        Ok((Seq::empty(), cl, s.len() as int))
    } else {
        match spec_find(s, pos, 10) {
            Option::None => {
                if s.len() - pos <= 2 {
                    Ok((Seq::empty(), cl, s.len() as int))
                } else {
                    Err(ErrSpec::MissingCRLFFromLine)
                }
            },
            Option::Some(i) => if pos <= i < s.len() {
                if i + 1 - pos <= 2 {
                    Ok((Seq::empty(), cl, i + 1))
                } else if s[i - 1] != 13 {
                    Err(ErrSpec::MissingCRLFFromLine)
                } else {
                    match spec_header_of(s.subrange(pos, i - 1)) {
                        None => Err(ErrSpec::InvalidHeader),
                        Some(h) => {
                            let cl2 = if is_content_length_key(h.key) {
                                match spec_parse_num(h.value) {
                                    Some(n) => if n <= usize::MAX {
                                        Some(n)
                                    } else {
                                        None
                                    },
                                    None => None,
                                }
                            } else {
                                Some(cl)
                            };
                            match cl2 {
                                None => Err(ErrSpec::InvalidContentLength),
                                Some(c) => match spec_headers(s, i + 1, c) {
                                    Ok((hs, cf, e)) => Ok((seq![h] + hs, cf, e)),
                                    Err(er) => Err(er),
                                },
                            }
                        },
                    }
                }
            } else {
                Err(ErrSpec::MissingCRLFFromLine)
            },
        }
    }
}

/// The parsed head of a request: its request line, its headers, the declared
/// content length, and the index where the body starts.
#[verifier::ext_equal]
pub struct HeadModel {
    pub line: ReqLineModel,
    pub headers: Seq<HeaderModel>,
    pub content_length: int,
    pub end: int,
}

/// The head of `s`: request line, then the header section.
pub open spec fn spec_parse_head(s: Seq<u8>) -> Result<HeadModel, ErrSpec> {
    match spec_find(s, 0, 10) {
        Option::None => Err(ErrSpec::MissingCRLFFromLine),
        Option::Some(i) => if 1 <= i < s.len() && s[i - 1] == 13 {
            match spec_parse_request_line(s.subrange(0, i - 1)) {
                Err(e) => Err(e),
                Ok(rl) => match spec_headers(s, i + 1, 0) {
                    Err(e) => Err(e),
                    Ok((hs, cl, e)) => Ok(
                        (HeadModel { line: rl, headers: hs, content_length: cl, end: e }),
                    ),
                },
            }
        } else {
            Err(ErrSpec::MissingCRLFFromLine)
        },
    }
}

/// The whole request: the head, then — when a positive `Content-Length` was
/// declared — exactly that many bytes of UTF-8 text as the body. Yields the
/// request and the number of bytes consumed.
pub open spec fn spec_parse(s: Seq<u8>) -> Result<(ReqModel, int), ErrSpec> {
    match spec_parse_head(s) {
        Err(e) => Err(e),
        Ok(h) => {
            if h.content_length == 0 {
                Ok((spec_req_of(h, None), h.end))
            } else if s.len() - h.end < h.content_length {
                Err(ErrSpec::UnexpectedEof)
            } else {
                let b = s.subrange(h.end, h.end + h.content_length);
                if is_utf8(b) {
                    Ok((spec_req_of(h, Some(BodyModel::Text(b))), h.end + h.content_length))
                } else {
                    Err(ErrSpec::InvalidUtf8)
                }
            }
        },
    }
}

pub open spec fn spec_req_of(h: HeadModel, body: Option<BodyModel>) -> ReqModel {
    ReqModel {
        method: h.line.method,
        path: h.line.path,
        version: h.line.version,
        headers: h.headers,
        body,
    }
}

// === what the parser guarantees ================================================

/// The header section never walks out of the input, and the content length it
/// reports always fits `usize`.
pub proof fn lemma_headers_bounds(s: Seq<u8>, pos: int, cl: int)
    requires
        0 <= pos <= s.len(),
        0 <= cl <= usize::MAX,
    ensures
        spec_headers(s, pos, cl) matches Ok(t) ==> pos <= t.2 <= s.len() && 0 <= t.1
            <= usize::MAX,
    decreases s.len() - pos,
{
    if pos >= s.len() {
    } else {
        match spec_find(s, pos, 10) {
            Option::None => {},
            Option::Some(i) => {
                lemma_find(s, pos, 10);
                if pos <= i < s.len() && i + 1 - pos > 2 && s[i - 1] == 13 {
                    match spec_header_of(s.subrange(pos, i - 1)) {
                        Option::None => {},
                        Option::Some(h) => {
                            crate::bytes::lemma_parse_num_nonneg(h.value);
                            if is_content_length_key(h.key) {
                                match spec_parse_num(h.value) {
                                    Some(n) => {
                                        if n <= usize::MAX {
                                            lemma_headers_bounds(s, i + 1, n);
                                        }
                                    },
                                    None => {},
                                }
                            } else {
                                lemma_headers_bounds(s, i + 1, cl);
                            }
                        },
                    }
                }
            },
        }
    }
}

/// The head never walks out of the input; its content length fits `usize`.
pub proof fn lemma_head_bounds(s: Seq<u8>)
    ensures
        spec_parse_head(s) matches Ok(h) ==> 0 <= h.end <= s.len() && 0 <= h.content_length
            <= usize::MAX,
{
    match spec_find(s, 0, 10) {
        Option::None => {},
        Option::Some(i) => {
            lemma_find(s, 0, 10);
            if 1 <= i < s.len() && s[i - 1] == 13 {
                lemma_headers_bounds(s, i + 1, 0);
            }
        },
    }
}

/// A request line with other than exactly three space-separated tokens is
/// rejected as `InvalidRequestLine`, carrying the raw line.
pub proof fn lemma_request_line_needs_three_tokens(lb: Seq<u8>)
    requires
        spec_split_sp(lb).len() != 3,
    ensures
        spec_parse_request_line(lb) == Err::<ReqLineModel, ErrSpec>(
            ErrSpec::InvalidRequestLine(lb),
        ),
{
}

/// The same, lifted to the whole input: when the first line is well terminated
/// but does not split into three tokens, the whole parse fails that way.
pub proof fn lemma_parse_rejects_bad_request_line(s: Seq<u8>, i: int)
    requires
        spec_find(s, 0, 10) == Some(i),
        1 <= i < s.len(),
        s[i - 1] == 13,
        spec_split_sp(s.subrange(0, i - 1)).len() != 3,
    ensures
        spec_parse(s) == Err::<(ReqModel, int), ErrSpec>(
            ErrSpec::InvalidRequestLine(s.subrange(0, i - 1)),
        ),
{
}

/// A header line without a `:` is rejected as `InvalidHeader`.
pub proof fn lemma_header_line_needs_colon(line: Seq<u8>)
    requires
        line.len() >= 2,
        line[line.len() - 2] == 13,
        line[line.len() - 1] == 10,
        spec_find(line.take(line.len() - 2), 0, 58) is None,
    ensures
        spec_header_line_parse(line) == Err::<HeaderModel, ErrSpec>(ErrSpec::InvalidHeader),
{
}

/// Decoding hands the body through byte for byte: a successfully parsed body
/// is exactly the declared slice of the input, as text, and serializing that
/// text body yields those bytes again unchanged.
pub proof fn lemma_body_round_trip(s: Seq<u8>)
    requires
        spec_parse(s) is Ok,
        spec_parse(s)->Ok_0.0.body is Some,
    ensures
        ({
            let (m, e) = spec_parse(s)->Ok_0;
            let b = crate::http::spec_body_bytes(m.body->0);
            &&& m.body->0 is Text
            &&& 0 < b.len() <= e <= s.len()
            &&& b == s.subrange(e - b.len(), e as int)
            &&& crate::http::spec_body_bytes(BodyModel::Text(b)) == b
        }),
{
    lemma_head_bounds(s);
    let h = spec_parse_head(s)->Ok_0;
    let b = s.subrange(h.end, h.end + h.content_length);
    assert(spec_parse(s)->Ok_0.0.body == Some(BodyModel::Text(b)));
}

// === what the parser accepts ===================================================

/// A header that survives the wire unchanged: no line break anywhere, no
/// colon in the key, no whitespace at either end of key or value, and —
/// where the key is `Content-Length` — a value that reads as a number
/// fitting `usize`.
pub open spec fn wire_header_ok(h: HeaderModel) -> bool {
    &&& !h.key.contains(10u8)
    &&& !h.key.contains(58u8)
    &&& (h.key.len() == 0 || (!is_ws(h.key[0]) && !is_ws(h.key.last())))
    &&& !h.value.contains(10u8)
    &&& (h.value.len() == 0 || (!is_ws(h.value[0]) && !is_ws(h.value.last())))
    &&& (is_content_length_key(h.key) ==> match spec_parse_num(h.value) {
        Some(n) => n <= usize::MAX,
        None => false,
    })
}

/// The declared content length after one more header is read.
pub open spec fn cl_step(cl: int, h: HeaderModel) -> int {
    if is_content_length_key(h.key) {
        match spec_parse_num(h.value) {
            Some(n) => n,
            None => cl,
        }
    } else {
        cl
    }
}

/// The content length a header list declares, the last occurrence winning.
pub open spec fn cl_of(hs: Seq<HeaderModel>, cl: int) -> int
    decreases hs.len(),
{
    if hs.len() == 0 {
        cl
    } else {
        cl_of(hs.drop_first(), cl_step(cl, hs[0]))
    }
}

/// A canonical `key: value` image parses back to exactly that header.
proof fn lemma_header_of_image(h: HeaderModel)
    requires
        wire_header_ok(h),
    ensures
        spec_header_of(h.key + seq![58u8, 32u8] + h.value) == Some(h),
{
    let c = h.key + seq![58u8, 32u8] + h.value;
    let k = h.key.len() as int;
    assert(c[k] == 58);
    assert forall|j: int| 0 <= j < k implies c[j] != 58 by {
        assert(c[j] == h.key[j]);
        if h.key[j] == 58 {
            assert(h.key.contains(58u8));
        }
    }
    lemma_find_at(c, 0, 58, k);
    assert(c.take(k) =~= h.key);
    assert(c.skip(k + 1) =~= seq![32u8] + h.value);
    lemma_trim_id(h.key);
    lemma_trim_leading_space(h.value);
    assert(spec_header_of(c) == Some(HeaderModel { key: h.key, value: h.value }));
    assert(HeaderModel { key: h.key, value: h.value } =~= h);
}

/// The header section from an offset equals the header section of the
/// suffix, with the reported end shifted back.
proof fn lemma_headers_shift(s: Seq<u8>, k: int, pos: int, cl: int)
    requires
        0 <= k <= s.len(),
        0 <= pos,
    ensures
        spec_headers(s, k + pos, cl) == (match spec_headers(s.skip(k), pos, cl) {
            Ok(t) => Ok::<_, ErrSpec>((t.0, t.1, t.2 + k)),
            Err(e) => Err::<(Seq<HeaderModel>, int, int), ErrSpec>(e),
        }),
    decreases s.len() - k - pos,
{
    let u = s.skip(k);
    if pos >= u.len() {
    } else {
        lemma_find_shift(s, k, pos, 10);
        match spec_find(u, pos, 10) {
            Option::None => {},
            Option::Some(i) => {
                lemma_find(u, pos, 10);
                if i + 1 - pos <= 2 {
                } else {
                    assert(u[i - 1] == s[k + i - 1]);
                    if u[i - 1] == 13 {
                        assert(u.subrange(pos, i - 1) =~= s.subrange(k + pos, k + i - 1));
                        match spec_header_of(u.subrange(pos, i - 1)) {
                            Option::None => {},
                            Option::Some(h) => {
                                if is_content_length_key(h.key) {
                                    match spec_parse_num(h.value) {
                                        Some(n) => {
                                            if n <= usize::MAX {
                                                lemma_headers_shift(s, k, i + 1, n);
                                            }
                                        },
                                        None => {},
                                    }
                                } else {
                                    lemma_headers_shift(s, k, i + 1, cl);
                                }
                            },
                        }
                    }
                }
            },
        }
    }
}

/// A canonical header section image — the header lines, the blank line,
/// whatever follows — parses back to exactly the given headers, declaring
/// the content length the list declares, and ends just past the blank line.
#[verifier::rlimit(50)]
proof fn lemma_headers_complete(hs: Seq<HeaderModel>, cl0: int, tail: Seq<u8>)
    requires
        forall|i: int| 0 <= i < hs.len() ==> wire_header_ok(#[trigger] hs[i]),
        0 <= cl0 <= usize::MAX,
    ensures
        spec_headers(spec_headers_bytes(hs) + crlf() + tail, 0, cl0) == Ok::<_, ErrSpec>(
            (hs, cl_of(hs, cl0), spec_headers_bytes(hs).len() as int + 2),
        ),
    decreases hs.len(),
{
    let s = spec_headers_bytes(hs) + crlf() + tail;
    if hs.len() == 0 {
        assert(s =~= crlf() + tail);
        assert(s[0] == 13 && s[1] == 10);
        lemma_find_at(s, 0, 10, 1);
        assert(spec_headers(s, 0, cl0) == Ok::<_, ErrSpec>(
            (Seq::<HeaderModel>::empty(), cl0, 2int),
        ));
        assert(hs =~= Seq::<HeaderModel>::empty());
    } else {
        let h = hs[0];
        assert(wire_header_ok(h));
        lemma_headers_bytes_front(hs);
        let line = spec_header_line(h);
        let kl = h.key.len() as int;
        let vl = h.value.len() as int;
        let ll = line.len() as int;
        assert(ll == kl + 2 + vl + 2);
        let rest = spec_headers_bytes(hs.drop_first()) + crlf() + tail;
        assert(s =~= line + rest);
        assert(rest.len() >= 2);
        // the first LF closes this header line
        assert(s[ll - 1] == 10);
        assert forall|j: int| 0 <= j < ll - 1 implies s[j] != 10 by {
            assert(s[j] == line[j]);
            if j < kl {
                assert(line[j] == h.key[j]);
                if h.key[j] == 10 {
                    assert(h.key.contains(10u8));
                }
            } else if j == kl {
                assert(line[j] == 58);
            } else if j == kl + 1 {
                assert(line[j] == 32);
            } else if j < kl + 2 + vl {
                assert(line[j] == h.value[j - kl - 2]);
                if h.value[j - kl - 2] == 10 {
                    assert(h.value.contains(10u8));
                }
            } else {
                assert(line[j] == 13);
            }
        }
        lemma_find_at(s, 0, 10, ll - 1);
        assert(ll > 2);
        assert(s[ll - 2] == 13);
        assert(s.subrange(0, ll - 2) =~= h.key + seq![58u8, 32u8] + h.value);
        lemma_header_of_image(h);
        lemma_parse_num_nonneg(h.value);
        let cl1 = cl_step(cl0, h);
        assert(0 <= cl1 <= usize::MAX);
        lemma_headers_complete(hs.drop_first(), cl1, tail);
        assert(s.skip(ll) =~= rest);
        lemma_headers_shift(s, ll, 0, cl1);
        assert(spec_headers(s, ll, cl1) == Ok::<_, ErrSpec>(
            (
                hs.drop_first(),
                cl_of(hs.drop_first(), cl1),
                spec_headers_bytes(hs.drop_first()).len() as int + 2 + ll,
            ),
        ));
        assert(seq![h] + hs.drop_first() =~= hs);
        assert(spec_headers(s, 0, cl0) == Ok::<_, ErrSpec>(
            (hs, cl_of(hs, cl0), spec_headers_bytes(hs).len() as int + 2),
        ));
    }
}

/// The canonical wire token of each method.
pub open spec fn method_token(m: HttpMethod) -> Seq<u8> {
    match m {
        HttpMethod::Get => get_token(),
        HttpMethod::Post => post_token(),
    }
}

/// The canonical request line parses back to exactly its parts.
proof fn lemma_request_line_complete(m: HttpMethod, path: Seq<u8>, v: HttpVersion)
    requires
        !path.contains(32u8),
    ensures
        spec_parse_request_line(
            method_token(m) + seq![32u8] + path + seq![32u8] + version_text(v),
        ) == Ok::<ReqLineModel, ErrSpec>(ReqLineModel { method: m, path, version: v }),
{
    let mt = method_token(m);
    let vt = version_text(v);
    let lb = mt + seq![32u8] + path + seq![32u8] + vt;
    assert forall|j: int| 0 <= j < mt.len() implies mt[j] != 32 by {
        match m {
            HttpMethod::Get => {},
            HttpMethod::Post => {},
        }
    }
    assert forall|j: int| 0 <= j < vt.len() implies vt[j] != 32 by {}
    assert forall|j: int| 0 <= j < path.len() implies path[j] != 32 by {
        if path[j] == 32 {
            assert(path.contains(32u8));
        }
    }
    let i1 = mt.len() as int;
    assert(lb[i1] == 32);
    lemma_find_at(lb, 0, 32, i1);
    assert(lb.take(i1) =~= mt);
    let r1 = lb.skip(i1 + 1);
    assert(r1 =~= path + seq![32u8] + vt);
    let i2 = path.len() as int;
    assert(r1[i2] == 32);
    lemma_find_at(r1, 0, 32, i2);
    assert(r1.take(i2) =~= path);
    let r2 = r1.skip(i2 + 1);
    assert(r2 =~= vt);
    if spec_find(r2, 0, 32) is Some {
        lemma_find(r2, 0, 32);
        let i = spec_find(r2, 0, 32)->0;
        assert(r2[i] == 32);
        assert(false);
    }
    assert(spec_split_sp(r2) == seq![r2]);
    assert(spec_split_sp(r1) == seq![r1.take(i2)] + spec_split_sp(r1.skip(i2 + 1)));
    assert(spec_split_sp(lb) == seq![lb.take(i1)] + spec_split_sp(lb.skip(i1 + 1)));
    let parts = spec_split_sp(lb);
    assert(parts =~= seq![mt, path, vt]);
    assert(parts.len() == 3);
    crate::http::lemma_icase_refl(mt);
    crate::http::lemma_icase_refl(vt);
    match m {
        HttpMethod::Get => {
            assert(spec_parse_method(mt) == Some(HttpMethod::Get));
        },
        HttpMethod::Post => {
            assert(!eq_icase(post_token(), get_token()));
            assert(spec_parse_method(mt) == Some(HttpMethod::Post));
        },
    }
    assert(spec_parse_version(vt) == Some(HttpVersion::V1_1));
}

/// The full wire image of a request: its request line, its header lines, the
/// blank line, and its body.
pub open spec fn spec_request_image(
    m: HttpMethod,
    path: Seq<u8>,
    v: HttpVersion,
    hs: Seq<HeaderModel>,
    body: Seq<u8>,
) -> Seq<u8> {
    method_token(m) + seq![32u8] + path + seq![32u8] + version_text(v) + crlf()
        + spec_headers_bytes(hs) + crlf() + body
}

/// Decoding is complete as well as sound: a request put on the wire in
/// canonical form — a path free of spaces and line breaks, headers that
/// survive the wire, and a UTF-8 body of exactly the length the headers
/// declare — decodes to exactly its parts, consuming the whole image.
#[verifier::rlimit(80)]
pub proof fn lemma_parse_complete(
    m: HttpMethod,
    path: Seq<u8>,
    v: HttpVersion,
    hs: Seq<HeaderModel>,
    body: Seq<u8>,
)
    requires
        !path.contains(32u8),
        !path.contains(10u8),
        forall|i: int| 0 <= i < hs.len() ==> wire_header_ok(#[trigger] hs[i]),
        cl_of(hs, 0) == body.len(),
        body.len() <= usize::MAX,
        body.len() > 0 ==> is_utf8(body),
    ensures
        spec_parse(spec_request_image(m, path, v, hs, body)) == Ok::<(ReqModel, int), ErrSpec>(
            (
                ReqModel {
                    method: m,
                    path,
                    version: v,
                    headers: hs,
                    body: if body.len() == 0 {
                        None
                    } else {
                        Some(BodyModel::Text(body))
                    },
                },
                spec_request_image(m, path, v, hs, body).len() as int,
            ),
        ),
{
    let s = spec_request_image(m, path, v, hs, body);
    let mt = method_token(m);
    let vt = version_text(v);
    let lb = mt + seq![32u8] + path + seq![32u8] + vt;
    let ll = lb.len() as int;
    let hsec = spec_headers_bytes(hs) + crlf() + body;
    assert(s =~= lb + crlf() + hsec);
    assert(s[ll] == 13 && s[ll + 1] == 10);
    assert forall|j: int| 0 <= j < ll + 1 implies s[j] != 10 by {
        if j < ll {
            assert(s[j] == lb[j]);
            if j < mt.len() {
                match m {
                    HttpMethod::Get => {},
                    HttpMethod::Post => {},
                }
            } else if j == mt.len() {
                assert(lb[j] == 32);
            } else if j < mt.len() + 1 + path.len() {
                assert(lb[j] == path[j - mt.len() - 1]);
                if path[j - mt.len() - 1] == 10 {
                    assert(path.contains(10u8));
                }
            } else if j == mt.len() + 1 + path.len() {
                assert(lb[j] == 32);
            } else {
                assert(lb[j] == vt[j - mt.len() - 2 - path.len()]);
            }
        } else {
            assert(s[j] == 13);
        }
    }
    lemma_find_at(s, 0, 10, ll + 1);
    assert(hsec.len() >= 2);
    assert(s.subrange(0, ll) =~= lb);
    lemma_request_line_complete(m, path, v);
    assert(s.skip(ll + 2) =~= hsec);
    lemma_headers_complete(hs, 0, body);
    lemma_headers_shift(s, ll + 2, 0, 0);
    let hb = spec_headers_bytes(hs).len() as int;
    assert(spec_headers(s, ll + 2, 0) == Ok::<_, ErrSpec>(
        (hs, cl_of(hs, 0), hb + 2 + (ll + 2)),
    ));
    let hend = ll + 2 + hb + 2;
    let hm = HeadModel {
        line: ReqLineModel { method: m, path, version: v },
        headers: hs,
        content_length: body.len() as int,
        end: hend,
    };
    assert(spec_parse_head(s) == Ok::<HeadModel, ErrSpec>(hm));
    assert(s.len() == hend + body.len());
    let rm = ReqModel {
        method: m,
        path,
        version: v,
        headers: hs,
        body: if body.len() == 0 {
            None
        } else {
            Some(BodyModel::Text(body))
        },
    };
    if body.len() == 0 {
        assert(spec_req_of(hm, None) =~= rm);
    } else {
        assert(s.subrange(hend, hend + body.len()) =~= body);
        assert(spec_req_of(hm, Some(BodyModel::Text(body))) =~= rm);
    }
}

// === UTF-8 ====================================================================

/// Whether `core::str::from_utf8` accepts these bytes; a function of the
/// bytes alone.
pub uninterp spec fn is_utf8(b: Seq<u8>) -> bool;

/// Relies on core::str::from_utf8, which returns `Ok` exactly on valid UTF-8.
#[verifier::external_body]
fn utf8_valid(b: &[u8]) -> (r: bool)
    ensures
        r == is_utf8(b@),
{
    core::str::from_utf8(b).is_ok()
}

// === the executable parser =====================================================

/// Splitting never yields an empty token list.
proof fn lemma_split_nonempty(s: Seq<u8>)
    ensures
        spec_split_sp(s).len() >= 1,
{
}

/// Parse the request line body (CRLF removed): exactly three tokens, a known
/// method, a known version.
fn parse_request_line(lb: &[u8]) -> (r: Result<(HttpMethod, Vec<u8>, HttpVersion), Error>)
    ensures
        match spec_parse_request_line(lb@) {
            Ok(rl) => r is Ok && r.unwrap().0 == rl.method && r.unwrap().1@ == rl.path
                && r.unwrap().2 == rl.version,
            Err(e) => r is Err && r.unwrap_err()@ == e,
        },
{
    let n: usize = lb.len();
    let ghost parts = spec_split_sp(lb@);
    let i1 = match find_byte(lb, 0, 32) {
        None => {
            // one token only
            assert(parts =~= seq![lb@]);
            return Err(Error::InvalidRequestLine(copy_range(lb, 0, n)));
        },
        Some(i1) => i1,
    };
    proof {
        lemma_find(lb@, 0, 32);
        assert(parts == seq![lb@.take(i1 as int)] + spec_split_sp(lb@.skip(i1 + 1)));
    }
    let ghost rest1 = lb@.skip(i1 + 1);
    let i2 = match find_byte(lb, i1 + 1, 32) {
        None => {
            // two tokens only
            proof {
                lemma_find_shift(lb@, i1 + 1, 0, 32);
                assert(spec_find(rest1, 0, 32) is None);
                assert(spec_split_sp(rest1) =~= seq![rest1]);
                assert(parts.len() == 2);
            }
            return Err(Error::InvalidRequestLine(copy_range(lb, 0, n)));
        },
        Some(i2) => i2,
    };
    proof {
        lemma_find(lb@, i1 + 1, 32);
        lemma_find_shift(lb@, i1 + 1, 0, 32);
        assert(spec_find(rest1, 0, 32) == Some(i2 - i1 - 1));
        assert(spec_split_sp(rest1) == seq![rest1.take(i2 - i1 - 1)] + spec_split_sp(
            rest1.skip(i2 - i1),
        ));
    }
    let ghost rest2 = rest1.skip(i2 - i1);
    proof {
        assert(rest2 =~= lb@.skip(i2 + 1));
    }
    match find_byte(lb, i2 + 1, 32) {
        Some(_) => {
            // four or more tokens
            proof {
                lemma_find_shift(lb@, i2 + 1, 0, 32);
                assert(spec_find(rest2, 0, 32) is Some);
                lemma_find(rest2, 0, 32);
                lemma_split_nonempty(rest2.skip(spec_find(rest2, 0, 32).unwrap() + 1));
                assert(spec_split_sp(rest2).len() >= 2);
                assert(parts.len() >= 4);
            }
            return Err(Error::InvalidRequestLine(copy_range(lb, 0, n)));
        },
        None => {
            proof {
                lemma_find_shift(lb@, i2 + 1, 0, 32);
                assert(spec_find(rest2, 0, 32) is None);
                assert(spec_split_sp(rest2) =~= seq![rest2]);
                assert(parts.len() == 3);
                assert(parts[0] == lb@.take(i1 as int));
                assert(parts[1] == rest1.take(i2 - i1 - 1));
                assert(parts[1] =~= lb@.subrange(i1 + 1, i2 as int));
                assert(parts[2] == rest2);
                assert(parts[2] =~= lb@.subrange(i2 + 1, n as int));
            }
        },
    }
    // exactly three tokens: lb[0..i1], lb[i1+1..i2], lb[i2+1..]
    let t0: &[u8] = &lb[0..i1];
    let t2: &[u8] = &lb[i2 + 1..n];
    assert(t0@ =~= spec_split_sp(lb@)[0]);
    assert(t2@ =~= spec_split_sp(lb@)[2]);
    let g: [u8; 3] = [71, 69, 84];
    let p: [u8; 4] = [80, 79, 83, 84];
    assert(g@ =~= get_token());
    assert(p@ =~= post_token());
    let method = if eq_bytes_icase(t0, g.as_slice()) {
        HttpMethod::Get
    } else if eq_bytes_icase(t0, p.as_slice()) {
        HttpMethod::Post
    } else {
        return Err(Error::InvalidMethod);
    };
    let v: [u8; 8] = [72, 84, 84, 80, 47, 49, 46, 49];
    assert(v@ =~= version_text(HttpVersion::V1_1));
    let version = if eq_bytes_icase(t2, v.as_slice()) {
        HttpVersion::V1_1
    } else {
        return Err(Error::InvalidVersion);
    };
    let path = copy_range(lb, i1 + 1, i2);
    Ok((method, path, version))
}

/// The models of a sequence of parsed headers.
pub open spec fn hdr_views(v: Seq<HttpHeader>) -> Seq<HeaderModel> {
    v.map_values(|h: HttpHeader| h@)
}

/// The parsed head, as executable data.
#[derive(Debug)]
struct HeadParts {
    method: HttpMethod,
    path: Vec<u8>,
    version: HttpVersion,
    headers: Vec<HttpHeader>,
    content_length: usize,
    end: usize,
}

impl View for HeadParts {
    type V = HeadModel;

    closed spec fn view(&self) -> HeadModel {
        HeadModel {
            line: ReqLineModel { method: self.method, path: self.path@, version: self.version },
            headers: hdr_views(self.headers@),
            content_length: self.content_length as int,
            end: self.end as int,
        }
    }
}

fn parse_head(s: &[u8]) -> (r: Result<HeadParts, Error>)
    ensures
        match spec_parse_head(s@) {
            Ok(h) => r is Ok && r.unwrap()@ == h && h.end <= s@.len(),
            Err(e) => r is Err && r.unwrap_err()@ == e,
        },
{
    let n: usize = s.len();
    let lf0 = match find_byte(s, 0, 10) {
        None => {
            return Err(Error::MissingCRLFFromLine);
        },
        Some(i) => i,
    };
    proof {
        lemma_find(s@, 0, 10);
    }
    if lf0 < 1 || s[lf0 - 1] != 13 {
        return Err(Error::MissingCRLFFromLine);
    }
    let lb: &[u8] = &s[0..lf0 - 1];
    assert(lb@ =~= s@.subrange(0, lf0 - 1));
    let (method, path, version) = match parse_request_line(lb) {
        Err(e) => {
            return Err(e);
        },
        Ok(t) => t,
    };
    let ghost rlm = ReqLineModel { method, path: path@, version };
    proof {
        assert(rlm =~= spec_parse_request_line(s@.subrange(0, lf0 - 1))->Ok_0);
    }
    let hstart: usize = lf0 + 1;
    proof {
        match spec_headers(s@, hstart as int, 0) {
            Ok(t) => {
                assert(spec_parse_head(s@) == Ok::<HeadModel, ErrSpec>(
                    (HeadModel { line: rlm, headers: t.0, content_length: t.1, end: t.2 }),
                ));
            },
            Err(er) => {
                assert(spec_parse_head(s@) == Err::<HeadModel, ErrSpec>(er));
            },
        }
    }

    let mut pos: usize = hstart;
    let mut cl: usize = 0;
    let mut headers: Vec<HttpHeader> = Vec::new();
    let mut endpos: usize = n;
    loop
        invariant_except_break
            hstart <= pos <= n,
            n == s@.len(),
            match spec_headers(s@, hstart as int, 0) {
                Ok(t) => spec_parse_head(s@) == Ok::<HeadModel, ErrSpec>(
                    (HeadModel { line: rlm, headers: t.0, content_length: t.1, end: t.2 }),
                ),
                Err(er) => spec_parse_head(s@) == Err::<HeadModel, ErrSpec>(er),
            },
            match spec_headers(s@, pos as int, cl as int) {
                Ok(t) => spec_headers(s@, hstart as int, 0) == Ok::<_, ErrSpec>(
                    (hdr_views(headers@) + t.0, t.1, t.2),
                ),
                Err(er) => spec_headers(s@, hstart as int, 0) == Err::<
                    (Seq<HeaderModel>, int, int),
                    ErrSpec,
                >(er),
            },
        ensures
            n == s@.len(),
            endpos <= n,
            spec_headers(s@, hstart as int, 0) == Ok::<_, ErrSpec>(
                (hdr_views(headers@), cl as int, endpos as int),
            ),
            spec_parse_head(s@) == Ok::<HeadModel, ErrSpec>(
                (HeadModel {
                    line: rlm,
                    headers: hdr_views(headers@),
                    content_length: cl as int,
                    end: endpos as int,
                }),
            ),
        decreases n - pos,
    {
        if pos >= n {
            endpos = n;
            assert(hdr_views(headers@) + Seq::<HeaderModel>::empty() =~= hdr_views(headers@));
            break;
        }
        match find_byte(s, pos, 10) {
            None => {
                proof {
                    lemma_find(s@, pos as int, 10);
                }
                if n - pos <= 2 {
                    endpos = n;
                    assert(hdr_views(headers@) + Seq::<HeaderModel>::empty() =~= hdr_views(
                        headers@,
                    ));
                    break;
                }
                return Err(Error::MissingCRLFFromLine);
            },
            Some(i) => {
                proof {
                    lemma_find(s@, pos as int, 10);
                }
                if i + 1 - pos <= 2 {
                    endpos = i + 1;
                    assert(hdr_views(headers@) + Seq::<HeaderModel>::empty() =~= hdr_views(
                        headers@,
                    ));
                    break;
                }
                if s[i - 1] != 13 {
                    return Err(Error::MissingCRLFFromLine);
                }
                let content: &[u8] = &s[pos..i - 1];
                assert(content@ =~= s@.subrange(pos as int, i - 1));
                let j = match find_byte(content, 0, 58) {
                    None => {
                        return Err(Error::InvalidHeader);
                    },
                    Some(j) => j,
                };
                proof {
                    lemma_find(content@, 0, 58);
                }
                let key = trim(&content[0..j]);
                let value = trim(&content[j + 1..content.len()]);
                proof {
                    assert(content@.subrange(0, j as int) =~= content@.take(j as int));
                    assert(content@.subrange(j + 1, content@.len() as int) =~= content@.skip(
                        j + 1,
                    ));
                }
                let ghost h = spec_header_of(content@).unwrap();
                assert(h == (HeaderModel { key: key@, value: value@ }));
                let mut cl_next = cl;
                if crate::http::content_length_key_matches(key.as_slice()) {
                    match parse_num(value.as_slice()) {
                        Some(x) => {
                            cl_next = x;
                        },
                        None => {
                            return Err(Error::InvalidContentLength);
                        },
                    }
                }
                let ghost hv_before = hdr_views(headers@);
                headers.push(HttpHeader { key, value });
                proof {
                    assert(hdr_views(headers@) =~= hv_before.push(h));
                    match spec_headers(s@, i + 1, cl_next as int) {
                        Ok(t) => {
                            assert(spec_headers(s@, pos as int, cl as int) == Ok::<_, ErrSpec>(
                                (seq![h] + t.0, t.1, t.2),
                            ));
                            assert(hv_before + (seq![h] + t.0) =~= hdr_views(headers@) + t.0);
                        },
                        Err(er) => {},
                    }
                }
                pos = i + 1;
                cl = cl_next;
            },
        }
    }
    let hp = HeadParts { method, path, version, headers, content_length: cl, end: endpos };
    assert(hp@ =~= spec_parse_head(s@)->Ok_0);
    Ok(hp)
}

impl HttpRequest {
    /// Decode a request from the received bytes: the request line, the
    /// headers, and — when a positive `Content-Length` was declared — exactly
    /// that many bytes of UTF-8 text as the body. Returns the request and how
    /// many bytes of `data` it spans; trailing bytes are left alone.
    pub fn parse(data: &[u8]) -> (r: Result<(HttpRequest, usize), Error>)
        ensures
            match spec_parse(data@) {
                Ok(t) => r is Ok && r.unwrap().0@ == t.0 && r.unwrap().1 == t.1,
                Err(er) => r is Err && r.unwrap_err()@ == er,
            },
    {
        let n: usize = data.len();
        let hp = match parse_head(data) {
            Err(e) => {
                return Err(e);
            },
            Ok(hp) => hp,
        };
        if hp.content_length == 0 {
            let req = HttpRequest {
                method: hp.method,
                path: hp.path,
                version: hp.version,
                headers: hp.headers,
                body: None,
            };
            assert(req@ =~= spec_parse(data@)->Ok_0.0);
            return Ok((req, hp.end));
        }
        if n - hp.end < hp.content_length {
            return Err(Error::UnexpectedEof);
        }
        let b = copy_range(data, hp.end, hp.end + hp.content_length);
        if !utf8_valid(b.as_slice()) {
            return Err(Error::InvalidUtf8);
        }
        let used: usize = hp.end + hp.content_length;
        let req = HttpRequest {
            method: hp.method,
            path: hp.path,
            version: hp.version,
            headers: hp.headers,
            body: Some(crate::http::HttpBody::Text(b)),
        };
        assert(req@ =~= spec_parse(data@)->Ok_0.0);
        Ok((req, used))
    }

    /// The framing of the head alone: where the body would start and the
    /// declared content length. A streaming caller reads the head, asks this,
    /// then reads exactly that many more bytes before calling `parse`.
    pub fn head_info(data: &[u8]) -> (r: Result<(usize, usize), Error>)
        ensures
            match spec_parse_head(data@) {
                Ok(h) => r is Ok && r.unwrap().0 == h.end && r.unwrap().1 == h.content_length,
                Err(e) => r is Err && r.unwrap_err()@ == e,
            },
    {
        match parse_head(data) {
            Err(e) => Err(e),
            Ok(hp) => Ok((hp.end, hp.content_length)),
        }
    }
}

impl HttpHeader {
    /// Parse one full header line, CRLF included: the line must end in CRLF
    /// and hold a `:`; key and value are trimmed of surrounding whitespace.
    pub fn parse_line(line: &[u8]) -> (r: Result<HttpHeader, Error>)
        ensures
            match spec_header_line_parse(line@) {
                Ok(h) => r is Ok && r.unwrap()@ == h,
                Err(e) => r is Err && r.unwrap_err()@ == e,
            },
    {
        let n: usize = line.len();
        if n < 2 || line[n - 2] != 13 || line[n - 1] != 10 {
            return Err(Error::MissingCRLFFromLine);
        }
        let content: &[u8] = &line[0..n - 2];
        assert(content@ =~= line@.take(n - 2));
        match find_byte(content, 0, 58) {
            None => Err(Error::InvalidHeader),
            Some(j) => {
                proof {
                    lemma_find(content@, 0, 58);
                }
                let key = trim(&content[0..j]);
                let value = trim(&content[j + 1..content.len()]);
                proof {
                    assert(content@.subrange(0, j as int) =~= content@.take(j as int));
                    assert(content@.subrange(j + 1, content@.len() as int) =~= content@.skip(
                        j + 1,
                    ));
                }
                let h = HttpHeader { key, value };
                assert(h@ =~= spec_header_line_parse(line@)->Ok_0);
                Ok(h)
            },
        }
    }
}

} // verus!

use vstd::prelude::*;

use crate::bytes::{
    copy_range, dec_of, eq_bytes, find_byte, lemma_find, lemma_find_shift, spec_find, spec_trim,
    trim,
};
use crate::error::{ErrSpec, Error};
use crate::http::{
    content_encoding_key, content_length_key, content_length_key_matches, gzip_token,
    is_content_length_key, spec_body_bytes, spec_lookup, BodyModel, HeaderModel, HttpBody,
    HttpHeader, HttpResponse, RespModel,
};

verus! {

// === the gzip boundary =========================================================

/// What flate2's `GzDecoder` yields on a byte stream: the decompressed bytes,
/// or nothing where the stream is not well-formed gzip. A function of the
/// bytes alone.
pub uninterp spec fn gunzip(compressed: Seq<u8>) -> Option<Seq<u8>>;

/// Relies on flate2's `GzEncoder` (`write_all`, then `finish`): the output is
/// a gzip stream whose decompression, as flate2's `GzDecoder` computes it,
/// gives back exactly the input bytes. The call always succeeds: every error
/// path of the encoder only propagates write errors of the underlying sink,
/// and the sink here is a `Vec`, whose `Write` never fails.
#[verifier::external_body]
fn gzip_compress_bytes(b: &[u8]) -> (r: Option<Vec<u8>>)
    ensures
        r is Some,
        r matches Some(c) ==> gunzip(c@) == Some(b@),
{
    let mut e = flate2::write::GzEncoder::new(Vec::new(), flate2::Compression::default());
    if std::io::Write::write_all(&mut e, b).is_err() {
        return None;
    }
    match e.finish() {
        Ok(v) => Some(v),
        Err(_) => None,
    }
}

impl HttpBody {
    /// Compress this body's bytes: the result is a gzip body whose
    /// decompression gives exactly the bytes this body held. In-memory
    /// compression cannot fail, so success is promised; the error type is
    /// the shape a caller maps to a 500 response.
    pub fn gzip_compress(self) -> (r: Result<HttpBody, Error>)
        ensures
            r is Ok,
            r->Ok_0@ is Gzip,
            gunzip(spec_body_bytes(r->Ok_0@)) == Some(spec_body_bytes(self@)),
    {
        match gzip_compress_bytes(self.bytes().as_slice()) {
            Some(c) => Ok(HttpBody::Gzip(c)),
            None => Err(Error::CanNotCompress),
        }
    }
}

// === content negotiation =======================================================

/// Whether a comma-separated `Accept-Encoding` value asks for gzip: some
/// element, after trimming surrounding whitespace, is exactly `gzip`
/// (case-sensitively).
pub open spec fn spec_requests_gzip(s: Seq<u8>) -> bool
    decreases s.len(),
{
    match spec_find(s, 0, 44) {
        Option::None => spec_trim(s) == gzip_token(),
        Option::Some(i) => if 0 <= i < s.len() {
            spec_trim(s.take(i)) == gzip_token() || spec_requests_gzip(s.skip(i + 1))
        } else {
            spec_trim(s) == gzip_token()
        },
    }
}

/// Does this `Accept-Encoding` value ask for gzip?
pub fn requests_gzip(v: &[u8]) -> (r: bool)
    ensures
        r == spec_requests_gzip(v@),
{
    let n: usize = v.len();
    let mut pos: usize = 0;
    let g: [u8; 4] = [103, 122, 105, 112];
    assert(g@ =~= gzip_token());
    assert(v@.skip(0) =~= v@);
    loop
        invariant
            pos <= n,
            n == v@.len(),
            g@ == gzip_token(),
            spec_requests_gzip(v@) == spec_requests_gzip(v@.skip(pos as int)),
        decreases n - pos,
    {
        let ghost rest = v@.skip(pos as int);
        match find_byte(v, pos, 44) {
            None => {
                proof {
                    lemma_find_shift(v@, pos as int, 0, 44);
                    assert(spec_find(rest, 0, 44) is None);
                }
                let tok = trim(&v[pos..n]);
                assert(v@.subrange(pos as int, n as int) =~= rest);
                let res = eq_bytes(tok.as_slice(), g.as_slice());
                return res;
            },
            Some(i) => {
                proof {
                    lemma_find(v@, pos as int, 44);
                    lemma_find_shift(v@, pos as int, 0, 44);
                    assert(spec_find(rest, 0, 44) == Some(i - pos));
                }
                let tok = trim(&v[pos..i]);
                assert(v@.subrange(pos as int, i as int) =~= rest.take(i - pos));
                if eq_bytes(tok.as_slice(), g.as_slice()) {
                    return true;
                }
                assert(rest.skip(i - pos + 1) =~= v@.skip(i + 1));
                pos = i + 1;
            },
        }
    }
}

// === rewriting the headers after compression ===================================

/// The headers with every `Content-Length` header removed, order kept.
pub open spec fn spec_strip_content_length(hs: Seq<HeaderModel>) -> Seq<HeaderModel>
    decreases hs.len(),
{
    if hs.len() == 0 {
        Seq::empty()
    } else {
        spec_strip_content_length(hs.drop_last()) + (if is_content_length_key(hs.last().key) {
            Seq::<HeaderModel>::empty()
        } else {
            seq![hs.last()]
        })
    }
}

/// The headers of a compressed response: the old ones minus every
/// `Content-Length`, then `Content-Encoding: gzip`, then a `Content-Length`
/// holding `n` — the compressed length, never the original one.
pub open spec fn spec_compressed_headers(hs: Seq<HeaderModel>, n: int) -> Seq<HeaderModel> {
    spec_strip_content_length(hs) + seq![
        HeaderModel { key: content_encoding_key(), value: gzip_token() },
        HeaderModel { key: content_length_key(), value: dec_of(n) },
    ]
}

/// How a compressed response relates to the response it came from: same
/// status and version; the body replaced by a gzip body that decompresses to
/// the old body's bytes; the headers rewritten around the compressed length.
/// A body-less response is left entirely unchanged: there are no bytes to
/// compress, and `Content-Encoding` is added only when compression was
/// actually applied.
pub open spec fn spec_compressed_resp(before: RespModel, after: RespModel) -> bool {
    &&& after.status == before.status
    &&& after.version == before.version
    &&& match before.body {
        Option::None => after == before,
        Option::Some(b) => {
            &&& after.body is Some
            &&& after.body->0 is Gzip
            &&& gunzip(spec_body_bytes(after.body->0)) == Some(spec_body_bytes(b))
            &&& after.headers == spec_compressed_headers(
                before.headers,
                spec_body_bytes(after.body->0).len() as int,
            )
        },
    }
}

impl HttpResponse {
    /// Apply `Accept-Encoding` negotiation. When some comma-separated element
    /// of `accepted_encodings` trims to exactly `gzip`, the body is replaced
    /// by its gzip-compressed form, every `Content-Length` header is dropped,
    /// and `Content-Encoding: gzip` plus a `Content-Length` holding the
    /// compressed byte length are appended; any other requested encoding is
    /// ignored, and a body-less response is left unchanged — there is
    /// nothing to compress, so no encoding header is earned. In-memory
    /// compression cannot fail, so the call always succeeds; the error type
    /// is the shape a caller maps to a 500 response.
    pub fn add_compression(&mut self, accepted_encodings: &[u8]) -> (r: Result<(), Error>)
        ensures
            r is Ok,
            !spec_requests_gzip(accepted_encodings@) ==> final(self)@ == old(self)@,
            spec_requests_gzip(accepted_encodings@) ==> spec_compressed_resp(
                old(self)@,
                final(self)@,
            ),
            spec_requests_gzip(accepted_encodings@) && old(self)@.body is Some
                ==> crate::http::resp_wf(final(self)@),
    {
        if !requests_gzip(accepted_encodings) {
            return Ok(());
        }
        let compressed: Vec<u8> = match &self.body {
            Option::None => {
                return Ok(());
            },
            Option::Some(b) => match gzip_compress_bytes(b.bytes().as_slice()) {
                Some(c) => c,
                None => {
                    return Err(Error::CanNotCompress);
                },
            },
        };
        let new_len: usize = compressed.len();

        let mut kept: Vec<HttpHeader> = Vec::new();
        let m: usize = self.headers.len();
        let mut i: usize = 0;
        assert(crate::decode::hdr_views(kept@) =~= spec_strip_content_length(
            self@.headers.take(0),
        ));
        while i < m
            invariant
                0 <= i <= m,
                m == self.headers@.len(),
                crate::decode::hdr_views(kept@) == spec_strip_content_length(
                    self@.headers.take(i as int),
                ),
            decreases m - i,
        {
            proof {
                let hs = self@.headers;
                assert(hs.take(i + 1).drop_last() =~= hs.take(i as int));
                assert(hs.take(i + 1).last() == hs[i as int]);
            }
            let h = &self.headers[i];
            let ghost kv_before = crate::decode::hdr_views(kept@);
            if !content_length_key_matches(h.key.as_slice()) {
                kept.push(
                    HttpHeader {
                        key: copy_range(h.key.as_slice(), 0, h.key.len()),
                        value: copy_range(h.value.as_slice(), 0, h.value.len()),
                    },
                );
                proof {
                    assert(h.key@.subrange(0, h.key@.len() as int) =~= h.key@);
                    assert(h.value@.subrange(0, h.value@.len() as int) =~= h.value@);
                    assert(crate::decode::hdr_views(kept@) =~= kv_before.push(h@));
                    assert(kv_before + seq![h@] =~= kv_before.push(h@));
                }
            } else {
                assert(kv_before + Seq::<HeaderModel>::empty() =~= kv_before);
            }
            i = i + 1;
        }
        assert(self@.headers.take(m as int) =~= self@.headers);

        kept.push(
            HttpHeader {
                key: crate::http::content_encoding_key_vec(),
                value: crate::http::gzip_token_vec(),
            },
        );
        kept.push(
            HttpHeader {
                key: crate::http::content_length_key_vec(),
                value: crate::bytes::usize_to_dec(new_len),
            },
        );
        proof {
            assert(crate::decode::hdr_views(kept@) =~= spec_compressed_headers(
                self@.headers,
                new_len as int,
            ));
        }

        proof {
            lemma_compressed_headers_say_gzip(self@.headers, new_len as int);
        }
        self.headers = kept;
        self.body = Some(HttpBody::Gzip(compressed));
        assert(spec_compressed_resp(old(self)@, self@));
        Ok(())
    }
}

/// After compression the headers say so: the last two headers are
/// `Content-Encoding: gzip` and a `Content-Length` holding `n`, and looking
/// either key up finds exactly those values.
pub proof fn lemma_compressed_headers_say_gzip(hs: Seq<HeaderModel>, n: int)
    ensures
        ({
            let out = spec_compressed_headers(hs, n);
            &&& out.len() >= 2
            &&& out[out.len() - 2] == (HeaderModel {
                key: content_encoding_key(),
                value: gzip_token(),
            })
            &&& out[out.len() - 1] == (HeaderModel {
                key: content_length_key(),
                value: dec_of(n),
            })
            &&& spec_lookup(out, content_length_key()) == Some(dec_of(n))
            &&& spec_lookup(out, content_encoding_key()) == Some(gzip_token())
        }),
{
    let out = spec_compressed_headers(hs, n);
    let stripped = spec_strip_content_length(hs);
    let ce_h = HeaderModel { key: content_encoding_key(), value: gzip_token() };
    let cl_h = HeaderModel { key: content_length_key(), value: dec_of(n) };
    assert(out.len() == stripped.len() + 2);
    assert(out.last() == cl_h);
    assert(out[out.len() - 2] == ce_h);
    assert(!crate::bytes::eq_icase(content_length_key(), content_encoding_key()));
    assert(crate::bytes::eq_icase(content_length_key(), content_length_key()));
    assert(crate::bytes::eq_icase(content_encoding_key(), content_encoding_key()));
    assert(spec_lookup(out, content_length_key()) == Some(dec_of(n)));
    assert(out.drop_last() =~= stripped.push(ce_h));
    assert(out.drop_last().last() == ce_h);
    assert(spec_lookup(out, content_encoding_key()) == spec_lookup(
        out.drop_last(),
        content_encoding_key(),
    ));
    assert(spec_lookup(out.drop_last(), content_encoding_key()) == Some(gzip_token()));
}

} // verus!

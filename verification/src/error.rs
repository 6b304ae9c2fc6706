use vstd::prelude::*;

verus! {

/// Spec-level image of `Error`: the same variants with mathematical payloads.
#[verifier::ext_equal]
pub enum ErrSpec {
    InvalidRequestLine(Seq<u8>),
    MissingCRLFFromLine,
    InvalidHeader,
    InvalidPoolSize,
    CanNotCompress,
    InvalidMethod,
    InvalidVersion,
    InvalidContentLength,
    InvalidUtf8,
    UnexpectedEof,
}

/// Everything that can go wrong while framing a request, building a
/// response, or configuring the worker pool.
#[derive(Debug, PartialEq, Eq)]
pub enum Error {
    /// The request line did not split into exactly three tokens; holds the raw line.
    InvalidRequestLine(Vec<u8>),
    /// A line that had to end in CRLF did not.
    MissingCRLFFromLine,
    /// A header line without a `:` separator.
    InvalidHeader,
    /// A worker pool of size zero was requested.
    InvalidPoolSize,
    /// The gzip encoder failed.
    CanNotCompress,
    /// The method token named no recognized method.
    InvalidMethod,
    /// The version token named no recognized version.
    InvalidVersion,
    /// A `Content-Length` value that is not a well-formed number fitting `usize`.
    InvalidContentLength,
    /// A request body that is not valid UTF-8.
    InvalidUtf8,
    /// The input ended before the declared body was complete.
    UnexpectedEof,
}

impl View for Error {
    type V = ErrSpec;

    open spec fn view(&self) -> ErrSpec {
        match self {
            Error::InvalidRequestLine(l) => ErrSpec::InvalidRequestLine(l@),
            Error::MissingCRLFFromLine => ErrSpec::MissingCRLFFromLine,
            Error::InvalidHeader => ErrSpec::InvalidHeader,
            Error::InvalidPoolSize => ErrSpec::InvalidPoolSize,
            Error::CanNotCompress => ErrSpec::CanNotCompress,
            Error::InvalidMethod => ErrSpec::InvalidMethod,
            Error::InvalidVersion => ErrSpec::InvalidVersion,
            Error::InvalidContentLength => ErrSpec::InvalidContentLength,
            Error::InvalidUtf8 => ErrSpec::InvalidUtf8,
            Error::UnexpectedEof => ErrSpec::UnexpectedEof,
        }
    }
}

} // verus!

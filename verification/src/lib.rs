//! A verified core for a small HTTP/1.1 server: the message codec that
//! decodes requests from bytes and serializes responses back (with optional
//! gzip content negotiation), and the accounting model of the bounded worker
//! pool that dispatches one connection per job. Listening, routing and file
//! serving are left to the program around the library.

pub mod bytes;
pub mod compress;
pub mod decode;
pub mod error;
pub mod http;
pub mod threadpool;

pub use error::Error;

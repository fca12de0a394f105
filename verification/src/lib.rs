//! Verified core of an HTTP/1.1 origin server: request framing and parsing,
//! a path sandbox, content negotiation, response writers with
//! content-length/chunked arbitration, and compression middleware.

pub mod ascii;
pub mod headers;
pub mod request;
pub mod response;
pub mod server;
pub mod writer;
pub mod chunked;
pub mod mime;
pub mod errors;
pub mod files;
pub mod compress;
pub mod router;
pub mod laws;

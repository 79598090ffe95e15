//! HTTP/1.1 request parsing and response framing over raw bytes.
//!
//! - `request`: the incremental request parser, one step at a time or as
//!   far as the bytes go.
//! - `headers`: the header table and the parser of one header line.
//! - `pump`: the buffer that collects reads and drives the parser.
//! - `response`: status codes, default headers and the response writer,
//!   which enforces the order of a response's parts.
//! - `trailers`: the digest and length fields sent after a chunked body.
//! - `wire`, `numeric`, `text`: bytes, numerals and text on the wire.

pub mod wire;
pub mod numeric;
pub mod text;
pub mod headers;
pub mod request;
pub mod response;
pub mod pump;
pub mod trailers;

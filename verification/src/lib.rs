//! A small HTTP/1.1 client for one exchange at a time: a request is
//! rendered as bytes and written to a stream, and the response is read
//! back, with a body of a given length or in chunks.
//!
//! What a request looks like on the wire and what a run of bytes says as
//! a response are stated as functions on sequences (`Request::wire`,
//! `response::response_of`); the code is proved to compute them.
pub mod body;
pub mod client;
pub mod error;
pub mod framing;
pub mod header;
pub mod json;
pub mod memory;
pub mod method;
pub mod ordered;
pub mod params;
pub mod reader;
pub mod request;
pub mod response;
pub mod text;

//! The ways in which an exchange can fail.
use vstd::prelude::*;

verus! {

/// Why a message could not be read or rendered. Every failure ends the
/// exchange: no partial response is ever handed out.
#[derive(PartialEq, Eq, Structural, Clone, Copy, Debug)]
pub enum HttpError {
    /// The status line is missing, is no text, or its second token is no
    /// status code.
    MalformedStatusLine,
    /// A header line is no text or lacks the separator between key and
    /// value.
    MalformedHeaderLine,
    /// The input ended before the headers were complete, before a chunk
    /// size line, or before the announced number of body bytes.
    TruncatedStream,
    /// A body is expected, and neither `content-length` nor
    /// `transfer-encoding` says how it is framed.
    MissingFraming,
    /// A chunk size line does not hold a size in base 16.
    InvalidChunkSize,
    /// The body is not chunked and `content-length` is absent or holds no
    /// length.
    InvalidContentLength,
    /// Bytes were asked for as text or as a structured value and are not
    /// valid for that.
    Encoding,
}

impl HttpError {
    /// A short description of the failure.
    pub open spec fn description(self) -> Seq<char> {
        match self {
            HttpError::MalformedStatusLine => "cannot get status code"@,
            HttpError::MalformedHeaderLine => "invalid header line"@,
            HttpError::TruncatedStream => "unexpected end of input"@,
            HttpError::MissingFraming => "missing transfer-encoding or content-length"@,
            HttpError::InvalidChunkSize => "cannot read chunk length"@,
            HttpError::InvalidContentLength => "invalid content-length"@,
            HttpError::Encoding => "invalid encoding"@,
        }
    }

    /// A short description of the failure.
    pub fn message(&self) -> (text: String)
        ensures
            text@ == self.description(),
    {
        match self {
            HttpError::MalformedStatusLine => String::from_str("cannot get status code"),
            HttpError::MalformedHeaderLine => String::from_str("invalid header line"),
            HttpError::TruncatedStream => String::from_str("unexpected end of input"),
            HttpError::MissingFraming => String::from_str(
                "missing transfer-encoding or content-length",
            ),
            HttpError::InvalidChunkSize => String::from_str("cannot read chunk length"),
            HttpError::InvalidContentLength => String::from_str("invalid content-length"),
            HttpError::Encoding => String::from_str("invalid encoding"),
        }
    }
}

} // verus!

//! A message body: an owned run of bytes that can be read as raw bytes, as
//! text, or as a JSON value.
use crate::error::HttpError;
use crate::json::is_json;
use crate::json::json_of;
use crate::json::value_from_slice;
use crate::text::decode;
use vstd::prelude::*;
use vstd::slice::slice_to_vec;
use vstd::utf8::decode_utf8;
use vstd::utf8::valid_utf8;

verus! {

/// The payload of a message. It does not change once it is made.
#[derive(Debug)]
pub struct Body {
    data: Vec<u8>,
}

impl View for Body {
    type V = Seq<u8>;

    closed spec fn view(&self) -> Seq<u8> {
        self.data@
    }
}

impl Body {
    /// The body that holds `data`.
    pub fn new(data: Vec<u8>) -> (b: Self)
        ensures
            b@ == data@,
    {
        Body { data }
    }

    /// A copy of the bytes.
    pub fn raw(&self) -> (bytes: Vec<u8>)
        ensures
            bytes@ == self@,
    {
        slice_to_vec(self.data.as_slice())
    }

    /// The number of bytes.
    pub fn len(&self) -> (n: usize)
        ensures
            n == self@.len(),
    {
        self.data.len()
    }

    /// The bytes as text. Fails, with `Encoding`, exactly when they are
    /// not valid UTF-8.
    pub fn text(&self) -> (r: Result<String, HttpError>)
        ensures
            match r {
                Ok(text) => valid_utf8(self@) && text@ == decode_utf8(self@),
                Err(e) => !valid_utf8(self@) && e == HttpError::Encoding,
            },
    {
        match decode(self.raw()) {
            Some(text) => Ok(text),
            None => Err(HttpError::Encoding),
        }
    }

    /// The bytes as a JSON value: the value that `serde_json` reads them
    /// as. Fails, with `Encoding`, exactly when they are not one JSON
    /// value.
    pub fn json(&self) -> (r: Result<serde_json::Value, HttpError>)
        ensures
            r is Ok <==> is_json(self@),
            r is Ok ==> json_of(self@) == Some(r.unwrap()),
            r is Err ==> r == Err::<serde_json::Value, HttpError>(HttpError::Encoding),
    {
        match value_from_slice(self.data.as_slice()) {
            Ok(value) => Ok(value),
            Err(_) => Err(HttpError::Encoding),
        }
    }
}

impl Clone for Body {
    fn clone(&self) -> (copy: Self)
        ensures
            copy@ == self@,
    {
        Body { data: self.raw() }
    }
}

} // verus!

//! The response, and what a run of bytes says when it is read as one.
use crate::body::Body;
use crate::error::HttpError;
use crate::framing::after_line;
use crate::framing::chunk_size;
use crate::framing::content_length;
use crate::framing::first_line;
use crate::framing::header_entry;
use crate::framing::lemma_line_len;
use crate::framing::line_end;
use crate::framing::status_code;
use crate::header::HttpHeader;
use crate::method::HttpMethod;
use crate::text::decimal;
use crate::text::lemma_decimal_reads_back;
use vstd::prelude::*;

verus! {

/// The model of a header collection: a map from keys to values.
pub type Headers = Map<Seq<char>, Seq<char>>;

/// A response: its status code, its headers and its body. A response
/// holds no body both where none was read and where the body that was
/// read is empty.
#[derive(Debug)]
pub struct Response {
    pub status: u32,
    pub header: HttpHeader,
    pub body: Option<Body>,
}

/// The model of a response.
pub struct ResponseView {
    pub status: u32,
    pub header: Headers,
    pub body: Option<Seq<u8>>,
}

impl View for Response {
    type V = ResponseView;

    open spec fn view(&self) -> ResponseView {
        ResponseView {
            status: self.status,
            header: self.header@,
            body: match self.body {
                Some(body) => Some(body@),
                None => None,
            },
        }
    }
}

impl Clone for Response {
    fn clone(&self) -> (copy: Self)
        ensures
            copy@ == self@,
    {
        Response {
            status: self.status,
            header: self.header.clone(),
            body: match &self.body {
                Some(body) => Some(body.clone()),
                None => None,
            },
        }
    }
}

/// The key of the header that gives the length of the body.
pub open spec fn length_key() -> Seq<char> {
    "content-length"@
}

/// The key of the header that names the transfer encoding.
pub open spec fn encoding_key() -> Seq<char> {
    "transfer-encoding"@
}

/// Whether the headers announce a chunked body.
pub open spec fn is_chunked(header: Headers) -> bool {
    header.contains_key(encoding_key()) && header[encoding_key()] == "chunked"@
}

/// The body as a response holds it: none where it is empty.
pub open spec fn held_body(body: Seq<u8>) -> Option<Seq<u8>> {
    if body.len() == 0 {
        None
    } else {
        Some(body)
    }
}

/// Reads header lines from `input` up to the blank line and adds their
/// entries to `acc`, a later entry replacing an earlier one with the same
/// key. Gives the headers and what follows the blank line.
pub open spec fn headers_of(input: Seq<u8>, acc: Headers) -> Result<(Headers, Seq<u8>), HttpError>
    decreases input.len(),
    via headers_of_decreases
{
    let line = first_line(input);
    if line.len() == 0 {
        Err(HttpError::TruncatedStream)
    } else if line == line_end() {
        Ok((acc, after_line(input)))
    } else {
        match header_entry(line) {
            Some(entry) => headers_of(after_line(input), acc.insert(entry.0, entry.1)),
            None => Err(HttpError::MalformedHeaderLine),
        }
    }
}

#[via_fn]
proof fn headers_of_decreases(input: Seq<u8>, acc: Headers) {
    lemma_line_len(input);
}

/// Reads chunks from `input` up to the chunk of size zero and appends
/// their data to `acc`. A chunk is a size line, that many bytes, and the
/// rest of the line on which they end; the chunk of size zero is its size
/// line and one more line. Gives the data and what follows the last
/// chunk.
pub open spec fn chunks_of(input: Seq<u8>, acc: Seq<u8>) -> Result<(Seq<u8>, Seq<u8>), HttpError>
    decreases input.len(),
    via chunks_of_decreases
{
    let line = first_line(input);
    let rest = after_line(input);
    if line.len() == 0 {
        Err(HttpError::TruncatedStream)
    } else {
        match chunk_size(line) {
            None => Err(HttpError::InvalidChunkSize),
            Some(size) => if size == 0 {
                Ok((acc, after_line(rest)))
            } else if rest.len() < size {
                Err(HttpError::TruncatedStream)
            } else {
                chunks_of(after_line(rest.skip(size as int)), acc + rest.take(size as int))
            },
        }
    }
}

#[via_fn]
proof fn chunks_of_decreases(input: Seq<u8>, acc: Seq<u8>) {
    lemma_line_len(input);
    let rest = after_line(input);
    match chunk_size(first_line(input)) {
        Some(size) => {
            if size <= rest.len() {
                lemma_line_len(rest.skip(size as int));
            }
        },
        None => {},
    }
}

/// What a response amounts to once its body is known, or why it does not.
pub type Outcome = Result<(ResponseView, Seq<u8>), HttpError>;

/// The response with a body of exactly `length` bytes, taken from the
/// front of `input`; truncated where `input` is shorter.
pub open spec fn fixed_outcome(status: u32, header: Headers, length: nat, input: Seq<u8>)
    -> Outcome {
    if input.len() < length {
        Err(HttpError::TruncatedStream)
    } else {
        Ok(
            (
                ResponseView { status, header, body: held_body(input.take(length as int)) },
                input.skip(length as int),
            ),
        )
    }
}

/// The response with a chunked body, once its chunks are read. Its
/// headers give the length of the body under `content-length` and name no
/// transfer encoding.
pub open spec fn chunked_outcome(
    status: u32,
    header: Headers,
    chunks: Result<(Seq<u8>, Seq<u8>), HttpError>,
) -> Outcome {
    match chunks {
        Ok((body, rest)) => Ok(
            (
                ResponseView {
                    status,
                    header: header.insert(length_key(), decimal(body.len())).remove(
                        encoding_key(),
                    ),
                    body: held_body(body),
                },
                rest,
            ),
        ),
        Err(e) => Err(e),
    }
}

/// The response whose body the headers announce and `input` holds.
///
/// Without a length and without a transfer encoding the body has no
/// framing. Only the transfer encoding `chunked`, written so, selects
/// chunks; with any other the length decides, and its absence counts as
/// a length that cannot be read.
pub open spec fn body_outcome(status: u32, header: Headers, input: Seq<u8>) -> Outcome {
    if !header.contains_key(encoding_key()) && !header.contains_key(length_key()) {
        Err(HttpError::MissingFraming)
    } else if is_chunked(header) {
        chunked_outcome(status, header, chunks_of(input, Seq::empty()))
    } else if !header.contains_key(length_key()) {
        Err(HttpError::InvalidContentLength)
    } else {
        match content_length(header[length_key()]) {
            None => Err(HttpError::InvalidContentLength),
            Some(length) => fixed_outcome(status, header, length, input),
        }
    }
}

/// Whether the response to a request with the given method and with the
/// given status has no body to be read.
pub open spec fn without_body(status: u32, method: HttpMethod) -> bool {
    status == 204 || status == 304 || !method.expects_body()
}

/// The response, once its headers are read.
pub open spec fn headers_outcome(
    status: u32,
    method: HttpMethod,
    headers: Result<(Headers, Seq<u8>), HttpError>,
) -> Outcome {
    match headers {
        Err(e) => Err(e),
        Ok((header, rest)) => if without_body(status, method) {
            Ok((ResponseView { status, header, body: None }, rest))
        } else {
            body_outcome(status, header, rest)
        },
    }
}

/// Reads `input` as the response to a request with the given method.
/// Gives the response and what follows it in `input`.
pub open spec fn response_of(input: Seq<u8>, method: HttpMethod) -> Outcome {
    match status_code(first_line(input)) {
        None => Err(HttpError::MalformedStatusLine),
        Some(status) => headers_outcome(
            status,
            method,
            headers_of(after_line(input), Map::empty()),
        ),
    }
}

/// Whether `rest` is the end of `input`: what is left of it after some
/// first bytes are taken.
pub open spec fn is_rest_of(rest: Seq<u8>, input: Seq<u8>) -> bool {
    rest.len() <= input.len() && rest == input.skip(input.len() - rest.len())
}

/// What is left of what is left of `c` is left of `c`.
pub proof fn lemma_rest_of_rest(a: Seq<u8>, b: Seq<u8>, c: Seq<u8>)
    requires
        is_rest_of(a, b),
        is_rest_of(b, c),
    ensures
        is_rest_of(a, c),
{
    assert(a == c.skip(c.len() - a.len()));
}

/// What follows a line is left of the input, and so is what follows the
/// first `n` bytes.
pub proof fn lemma_rest_after(input: Seq<u8>, n: int)
    requires
        0 <= n <= input.len(),
    ensures
        is_rest_of(after_line(input), input),
        is_rest_of(input.skip(n), input),
{
    lemma_line_len(input);
}

/// Reading headers takes bytes from the front of the input only.
pub proof fn lemma_headers_rest(input: Seq<u8>, acc: Headers)
    ensures
        headers_of(input, acc) is Ok ==> is_rest_of(headers_of(input, acc).unwrap().1, input),
    decreases input.len(),
{
    lemma_line_len(input);
    lemma_rest_after(input, 0);
    let line = first_line(input);
    if line.len() != 0 && line != line_end() {
        match header_entry(line) {
            Some(entry) => {
                let next = after_line(input);
                lemma_headers_rest(next, acc.insert(entry.0, entry.1));
                if headers_of(input, acc) is Ok {
                    lemma_rest_of_rest(headers_of(input, acc).unwrap().1, next, input);
                }
            },
            None => {},
        }
    }
}

/// Reading chunks takes bytes from the front of the input only.
pub proof fn lemma_chunks_rest(input: Seq<u8>, acc: Seq<u8>)
    ensures
        chunks_of(input, acc) is Ok ==> is_rest_of(chunks_of(input, acc).unwrap().1, input),
    decreases input.len(),
{
    lemma_line_len(input);
    lemma_rest_after(input, 0);
    let line = first_line(input);
    let rest = after_line(input);
    if line.len() != 0 {
        match chunk_size(line) {
            Some(size) => {
                if size == 0 {
                    lemma_rest_after(rest, 0);
                    lemma_rest_of_rest(after_line(rest), rest, input);
                } else if size <= rest.len() {
                    let data_end = rest.skip(size as int);
                    let next = after_line(data_end);
                    lemma_rest_after(rest, size as int);
                    lemma_rest_after(data_end, 0);
                    lemma_line_len(data_end);
                    lemma_rest_of_rest(next, data_end, rest);
                    lemma_rest_of_rest(next, rest, input);
                    lemma_chunks_rest(next, acc + rest.take(size as int));
                    if chunks_of(input, acc) is Ok {
                        lemma_rest_of_rest(chunks_of(input, acc).unwrap().1, next, input);
                    }
                }
            },
            None => {},
        }
    }
}

/// Reading a response takes bytes from the front of the input only:
/// what it leaves is the end of the input.
pub proof fn lemma_response_rest(input: Seq<u8>, method: HttpMethod)
    ensures
        response_of(input, method) is Ok ==> is_rest_of(
            response_of(input, method).unwrap().1,
            input,
        ),
{
    if response_of(input, method) is Ok {
        let next = after_line(input);
        lemma_rest_after(input, 0);
        lemma_headers_rest(next, Map::empty());
        let (header, rest) = headers_of(next, Map::empty()).unwrap();
        lemma_rest_of_rest(rest, next, input);
        let status = status_code(first_line(input)).unwrap();
        if !without_body(status, method) {
            let last = body_outcome(status, header, rest).unwrap().1;
            if is_chunked(header) {
                lemma_chunks_rest(rest, Seq::empty());
            } else {
                let length = content_length(header[length_key()]).unwrap();
                lemma_rest_after(rest, length as int);
            }
            lemma_rest_of_rest(last, rest, input);
        }
    }
}

/// A response with status 204 or 304 has no body, whatever its headers
/// say of a length or an encoding: nothing is read behind the blank line.
pub proof fn lemma_no_body_status(input: Seq<u8>, method: HttpMethod, status: u32)
    requires
        status_code(first_line(input)) == Some(status),
        status == 204 || status == 304,
    ensures
        response_of(input, method) == match headers_of(after_line(input), Map::empty()) {
            Ok((header, rest)) => Ok::<(ResponseView, Seq<u8>), HttpError>(
                (ResponseView { status, header, body: None }, rest),
            ),
            Err(e) => Err(e),
        },
        response_of(input, method) is Ok ==> response_of(input, method).unwrap().0.body is None,
{
}

/// The response to a `HEAD` or an `OPTIONS` request has no body, even
/// where its headers give a length: nothing is read behind the blank line.
pub proof fn lemma_no_body_method(input: Seq<u8>, method: HttpMethod)
    requires
        method == HttpMethod::Head || method == HttpMethod::Options,
    ensures
        response_of(input, method) == match status_code(first_line(input)) {
            None => Err::<(ResponseView, Seq<u8>), HttpError>(HttpError::MalformedStatusLine),
            Some(status) => match headers_of(after_line(input), Map::empty()) {
                Ok((header, rest)) => Ok((ResponseView { status, header, body: None }, rest)),
                Err(e) => Err(e),
            },
        },
        response_of(input, method) is Ok ==> response_of(input, method).unwrap().0.body is None,
{
}

/// Where the headers give a length and announce no chunked body, the body
/// is the `length` bytes that follow the blank line, none more and none
/// less; where fewer bytes follow, reading fails as truncated.
pub proof fn lemma_fixed_length_body(
    input: Seq<u8>,
    method: HttpMethod,
    status: u32,
    header: Headers,
    rest: Seq<u8>,
    length: nat,
)
    requires
        status_code(first_line(input)) == Some(status),
        status != 204 && status != 304,
        method.expects_body(),
        headers_of(after_line(input), Map::empty()) == Ok::<(Headers, Seq<u8>), HttpError>(
            (header, rest),
        ),
        !is_chunked(header),
        header.contains_key(length_key()),
        content_length(header[length_key()]) == Some(length),
    ensures
        length <= rest.len() ==> response_of(input, method) == Ok::<
            (ResponseView, Seq<u8>),
            HttpError,
        >(
            (
                ResponseView { status, header, body: held_body(rest.take(length as int)) },
                rest.skip(length as int),
            ),
        ),
        0 < length <= rest.len() ==> response_of(input, method).unwrap().0.body == Some(
            rest.take(length as int),
        ),
        rest.len() < length ==> response_of(input, method) == Err::<
            (ResponseView, Seq<u8>),
            HttpError,
        >(HttpError::TruncatedStream),
{
}

/// Where a body is expected and the headers give neither a length nor a
/// transfer encoding, reading fails for want of framing.
pub proof fn lemma_missing_framing(
    input: Seq<u8>,
    method: HttpMethod,
    status: u32,
    header: Headers,
    rest: Seq<u8>,
)
    requires
        status_code(first_line(input)) == Some(status),
        status != 204 && status != 304,
        method.expects_body(),
        headers_of(after_line(input), Map::empty()) == Ok::<(Headers, Seq<u8>), HttpError>(
            (header, rest),
        ),
        !header.contains_key(length_key()),
        !header.contains_key(encoding_key()),
    ensures
        response_of(input, method) == Err::<(ResponseView, Seq<u8>), HttpError>(
            HttpError::MissingFraming,
        ),
{
}

/// The chunk of size zero ends the body and adds no byte to it.
pub proof fn lemma_last_chunk(input: Seq<u8>, acc: Seq<u8>)
    requires
        first_line(input).len() > 0,
        chunk_size(first_line(input)) == Some(0nat),
    ensures
        chunks_of(input, acc) == Ok::<(Seq<u8>, Seq<u8>), HttpError>(
            (acc, after_line(after_line(input))),
        ),
{
}

/// A chunk of `size` bytes adds exactly those bytes to the body, and
/// reading goes on behind the line on which they end.
pub proof fn lemma_chunk(input: Seq<u8>, acc: Seq<u8>, size: nat)
    requires
        first_line(input).len() > 0,
        chunk_size(first_line(input)) == Some(size),
        0 < size <= after_line(input).len(),
    ensures
        chunks_of(input, acc) == chunks_of(
            after_line(after_line(input).skip(size as int)),
            acc + after_line(input).take(size as int),
        ),
{
}

/// A chunked body is the data of its chunks, one after the other: what
/// was gathered before is followed by what the chunks of `input` hold.
pub proof fn lemma_chunks_append(input: Seq<u8>, acc: Seq<u8>)
    ensures
        chunks_of(input, acc) == match chunks_of(input, Seq::empty()) {
            Ok((body, rest)) => Ok::<(Seq<u8>, Seq<u8>), HttpError>((acc + body, rest)),
            Err(e) => Err(e),
        },
    decreases input.len(),
{
    lemma_line_len(input);
    let line = first_line(input);
    let rest = after_line(input);
    let none = Seq::<u8>::empty();
    if line.len() != 0 {
        match chunk_size(line) {
            Some(size) => {
                if size != 0 && size <= rest.len() {
                    let data = rest.take(size as int);
                    let next = after_line(rest.skip(size as int));
                    lemma_line_len(rest.skip(size as int));
                    lemma_chunks_append(next, acc + data);
                    lemma_chunks_append(next, none + data);
                    match chunks_of(next, none) {
                        Ok((body, last)) => {
                            assert((acc + data) + body == acc + (data + body));
                        },
                        Err(e) => {},
                    }
                }
            },
            None => {},
        }
    }
}

/// Two chunks and the chunk of size zero make a body of the data of the
/// first followed by the data of the second; the chunk of size zero adds
/// nothing.
pub proof fn lemma_two_chunks(input: Seq<u8>, first: nat, second: nat)
    requires
        first_line(input).len() > 0,
        chunk_size(first_line(input)) == Some(first),
        0 < first <= after_line(input).len(),
        ({
            let next = after_line(after_line(input).skip(first as int));
            &&& first_line(next).len() > 0
            &&& chunk_size(first_line(next)) == Some(second)
            &&& 0 < second <= after_line(next).len()
            &&& ({
                let last = after_line(after_line(next).skip(second as int));
                first_line(last).len() > 0 && chunk_size(first_line(last)) == Some(0nat)
            })
        }),
    ensures
        ({
            let next = after_line(after_line(input).skip(first as int));
            let last = after_line(after_line(next).skip(second as int));
            chunks_of(input, Seq::empty()) == Ok::<(Seq<u8>, Seq<u8>), HttpError>(
                (
                    after_line(input).take(first as int) + after_line(next).take(second as int),
                    after_line(after_line(last)),
                ),
            )
        }),
{
    let none = Seq::<u8>::empty();
    let one = after_line(input).take(first as int);
    let next = after_line(after_line(input).skip(first as int));
    let two = after_line(next).take(second as int);
    let last = after_line(after_line(next).skip(second as int));
    lemma_chunk(input, none, first);
    lemma_chunk(next, one, second);
    lemma_last_chunk(last, one + two);
}

/// After a chunked body the headers name no transfer encoding, and what
/// stands under `content-length` reads as the number of bytes of the
/// body.
pub proof fn lemma_chunked_length(status: u32, header: Headers, body: Seq<u8>, rest: Seq<u8>)
    requires
        body.len() <= usize::MAX,
    ensures
        ({
            let response = chunked_outcome(
                status,
                header,
                Ok::<(Seq<u8>, Seq<u8>), HttpError>((body, rest)),
            ).unwrap().0;
            &&& !response.header.contains_key(encoding_key())
            &&& response.header.contains_key(length_key())
            &&& content_length(response.header[length_key()]) == Some(body.len())
            &&& response.body == held_body(body)
        }),
{
    reveal_strlit("content-length");
    reveal_strlit("transfer-encoding");
    assert(length_key().len() != encoding_key().len());
    lemma_decimal_reads_back(body.len());
}

} // verus!

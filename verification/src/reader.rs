//! Reading a response step by step. The reader never touches a stream: it
//! says what it wants next, a line or a run of bytes, takes what it is
//! fed, and ends with a response or a failure. Whoever owns the bytes, a
//! buffer or a stream, runs the loop.
use crate::body::Body;
use crate::error::HttpError;
use crate::framing::after_line;
use crate::framing::first_line;
use crate::framing::is_blank_line;
use crate::framing::lemma_line_len;
use crate::framing::no_line_feed;
use crate::framing::parse_chunk_size;
use crate::framing::parse_content_length;
use crate::framing::parse_header_line;
use crate::framing::parse_status_line;
use crate::header::HttpHeader;
use crate::method::HttpMethod;
use crate::ordered::rank_keys;
use crate::ordered::Rank;
use crate::response::chunked_outcome;
use crate::response::chunks_of;
use crate::response::fixed_outcome;
use crate::response::headers_of;
use crate::response::headers_outcome;
use crate::response::held_body;
use crate::response::response_of;
use crate::response::Outcome;
use crate::response::Response;
use crate::response::ResponseView;
use crate::text::format_decimal;
use crate::text::lemma_prefix_run_is;
use vstd::prelude::*;
use vstd::slice::slice_subrange;
use vstd::slice::slice_to_vec;

verus! {

/// What a reader wants to be fed next.
#[derive(PartialEq, Eq, Structural, Clone, Copy, Debug)]
pub enum Want {
    /// One line: the bytes up to and with the next line feed, or up to
    /// the end of the input where no line feed comes.
    Line,
    /// That many bytes, or all that is left where the input is shorter.
    Bytes(u64),
    /// Nothing: the reader is done.
    Nothing,
}

/// Whether `data`, followed in the input by `rest`, is what a reader
/// with the given want is to be fed.
pub open spec fn fits(want: Want, data: Seq<u8>, rest: Seq<u8>) -> bool {
    match want {
        Want::Line => first_line(data + rest) == data,
        Want::Bytes(count) => data.len() == count || (data.len() < count && rest.len() == 0),
        Want::Nothing => false,
    }
}

/// What a result amounts to when `rest` is left of the input.
pub open spec fn outcome_of(result: Result<Response, HttpError>, rest: Seq<u8>) -> Outcome {
    match result {
        Ok(response) => Ok((response@, rest)),
        Err(e) => Err(e),
    }
}

/// Where a reader stands in a response.
#[derive(PartialEq, Eq, Structural, Clone, Copy, Debug)]
enum Phase {
    /// Before the status line.
    Status,
    /// Among the header lines.
    Headers,
    /// Before a chunk size line.
    ChunkSize,
    /// Before the data of a chunk of that size.
    ChunkData(u64),
    /// Before the rest of the line on which the data of a chunk ends.
    ChunkEnd,
    /// Before the line that follows the chunk of size zero.
    LastLine,
    /// Before a body of that length.
    Fixed(u64),
    /// Behind the response, or behind a failure.
    Done,
}

/// A reader of one response.
#[derive(Debug)]
pub struct ResponseReader {
    method: HttpMethod,
    phase: Phase,
    status: u32,
    header: HttpHeader,
    body: Vec<u8>,
    failure: Option<HttpError>,
}

/// Where a line is followed by `rest`, what follows the first line is
/// `rest`.
pub proof fn lemma_after_fitting_line(data: Seq<u8>, rest: Seq<u8>)
    requires
        first_line(data + rest) == data,
    ensures
        after_line(data + rest) == rest,
{
    lemma_line_len(data + rest);
}

/// A run of bytes without a line feed, or with one at its very end, is a
/// line, provided that input follows only where it ends in a line feed.
pub proof fn lemma_line_fits(data: Seq<u8>, rest: Seq<u8>)
    requires
        forall|i: int| 0 <= i < data.len() - 1 ==> data[i] != 10u8,
        data.len() > 0 && data.last() == 10u8 || rest.len() == 0,
    ensures
        first_line(data + rest) == data,
{
    let input = data + rest;
    if data.len() > 0 && data.last() == 10u8 {
        let n = data.len() - 1;
        assert forall|i: int| 0 <= i < n implies no_line_feed()(#[trigger] input[i]) by {
            assert(input[i] == data[i]);
        }
        assert(input[n] == data[n]);
        lemma_prefix_run_is(input, no_line_feed(), n);
        assert(input.take(n + 1) == data);
    } else {
        assert(input == data);
        assert forall|i: int| 0 <= i < data.len() implies no_line_feed()(#[trigger] input[i]) by {
            if i == data.len() - 1 {
                assert(data[i] == data.last());
            }
        }
        lemma_prefix_run_is(input, no_line_feed(), data.len() as int);
        assert(input.take(data.len() as int) == data);
    }
}

impl ResponseReader {
    /// What the reader wants to be fed next.
    pub closed spec fn wanted(&self) -> Want {
        match self.phase {
            Phase::ChunkData(count) => Want::Bytes(count),
            Phase::Fixed(count) => Want::Bytes(count),
            Phase::Done => Want::Nothing,
            _ => Want::Line,
        }
    }

    /// What the reading comes to where `rest` is the input still to be
    /// fed: the response and what is left of `rest` behind it, or the
    /// failure.
    pub closed spec fn outcome(&self, rest: Seq<u8>) -> Outcome {
        match self.phase {
            Phase::Status => response_of(rest, self.method),
            Phase::Headers => headers_outcome(
                self.status,
                self.method,
                headers_of(rest, self.header@),
            ),
            Phase::ChunkSize => chunked_outcome(
                self.status,
                self.header@,
                chunks_of(rest, self.body@),
            ),
            Phase::ChunkData(count) => chunked_outcome(
                self.status,
                self.header@,
                if rest.len() < count {
                    Err(HttpError::TruncatedStream)
                } else {
                    chunks_of(
                        after_line(rest.skip(count as int)),
                        self.body@ + rest.take(count as int),
                    )
                },
            ),
            Phase::ChunkEnd => chunked_outcome(
                self.status,
                self.header@,
                chunks_of(after_line(rest), self.body@),
            ),
            Phase::LastLine => Ok((self.held(), after_line(rest))),
            Phase::Fixed(count) => fixed_outcome(self.status, self.header@, count as nat, rest),
            Phase::Done => match self.failure {
                Some(e) => Err(e),
                None => Ok((self.held(), rest)),
            },
        }
    }

    /// The response that the reader holds.
    closed spec fn held(&self) -> ResponseView {
        ResponseView { status: self.status, header: self.header@, body: held_body(self.body@) }
    }

    /// A bound on the number of times in a row that the reader can be fed
    /// nothing before it is done.
    pub closed spec fn patience(&self) -> nat {
        match self.phase {
            Phase::Done => 0,
            Phase::Status => 2,
            Phase::ChunkEnd => 2,
            Phase::ChunkData(_) => 3,
            _ => 1,
        }
    }

    /// A reader for the response to a request with the given method. It
    /// has all of the response before it.
    pub fn new(method: HttpMethod) -> (reader: Self)
        ensures
            forall|input: Seq<u8>| #[trigger] reader.outcome(input) == response_of(input, method),
            reader.wanted() == Want::Line,
    {
        ResponseReader {
            method,
            phase: Phase::Status,
            status: 0,
            header: HttpHeader::new(),
            body: Vec::new(),
            failure: None,
        }
    }

    /// What the reader wants to be fed next.
    pub fn want(&self) -> (want: Want)
        ensures
            want == self.wanted(),
            want == Want::Nothing <==> self.patience() == 0,
            self.patience() <= 3,
    {
        match self.phase {
            Phase::ChunkData(count) => Want::Bytes(count),
            Phase::Fixed(count) => Want::Bytes(count),
            Phase::Done => Want::Nothing,
            _ => Want::Line,
        }
    }

    /// Whether the reader is done and wants nothing more.
    pub fn is_done(&self) -> (done: bool)
        ensures
            done <==> self.wanted() == Want::Nothing,
            done <==> self.patience() == 0,
            self.patience() <= 3,
    {
        match self.phase {
            Phase::Done => true,
            _ => false,
        }
    }

    /// Ends the reading with the failure `e`.
    fn fail(&mut self, e: HttpError)
        ensures
            final(self).phase == Phase::Done,
            final(self).failure == Some(e),
    {
        self.phase = Phase::Done;
        self.failure = Some(e);
    }

    /// Takes the status line.
    fn feed_status(&mut self, data: Vec<u8>)
        requires
            old(self).phase == Phase::Status,
        ensures
            forall|rest: Seq<u8>|
                first_line(data@ + rest) == data@ ==> #[trigger] final(self).outcome(rest)
                    == old(self).outcome(data@ + rest),
            final(self).patience() < 2,
    {
        proof {
            assert forall|rest: Seq<u8>| first_line(data@ + rest) == data@ implies after_line(
                data@ + rest,
            ) == rest by {
                lemma_after_fitting_line(data@, rest);
            }
        }
        match parse_status_line(data) {
            Ok(status) => {
                self.status = status;
                self.header = HttpHeader::new();
                self.phase = Phase::Headers;
            },
            Err(e) => {
                self.fail(e);
            },
        }
    }

    /// Takes a header line, or the blank line that ends the headers.
    fn feed_header(&mut self, data: Vec<u8>)
        requires
            old(self).phase == Phase::Headers,
        ensures
            forall|rest: Seq<u8>|
                first_line(data@ + rest) == data@ ==> #[trigger] final(self).outcome(rest)
                    == old(self).outcome(data@ + rest),
            data@.len() == 0 ==> final(self).patience() == 0,
    {
        proof {
            assert forall|rest: Seq<u8>| first_line(data@ + rest) == data@ implies after_line(
                data@ + rest,
            ) == rest by {
                lemma_after_fitting_line(data@, rest);
            }
        }
        if data.len() == 0 {
            self.fail(HttpError::TruncatedStream);
        } else if is_blank_line(data.as_slice()) {
            self.begin_body();
        } else {
            match parse_header_line(data) {
                Ok((key, value)) => {
                    self.header.set(key, value);
                },
                Err(e) => {
                    self.fail(e);
                },
            }
        }
    }

    /// Decides, at the end of the headers, how the body is to be read.
    fn begin_body(&mut self)
        requires
            old(self).phase == Phase::Headers,
        ensures
            forall|rest: Seq<u8>| #[trigger]
                final(self).outcome(rest) == headers_outcome(
                    old(self).status,
                    old(self).method,
                    Ok((old(self).header@, rest)),
                ),
            final(self).phase != Phase::Headers,
    {
        let expects_body = !(self.method == HttpMethod::Head || self.method
            == HttpMethod::Options);
        self.body = Vec::new();
        self.failure = None;
        if self.status == 204 || self.status == 304 || !expects_body {
            self.phase = Phase::Done;
            return ;
        }
        let chunked = match self.header.lookup("transfer-encoding") {
            Some(encoding) => rank_keys(encoding.as_str(), "chunked") == Rank::Same,
            None => false,
        };
        if chunked {
            self.phase = Phase::ChunkSize;
            return ;
        }
        let length = match self.header.lookup("content-length") {
            Some(value) => parse_content_length(value.as_str()),
            None => if self.header.lookup("transfer-encoding").is_none() {
                Err(HttpError::MissingFraming)
            } else {
                Err(HttpError::InvalidContentLength)
            },
        };
        match length {
            Ok(length) => {
                self.phase = Phase::Fixed(length as u64);
            },
            Err(e) => {
                self.fail(e);
            },
        }
    }

    /// Takes a chunk size line.
    fn feed_chunk_size(&mut self, data: Vec<u8>)
        requires
            old(self).phase == Phase::ChunkSize,
        ensures
            forall|rest: Seq<u8>|
                first_line(data@ + rest) == data@ ==> #[trigger] final(self).outcome(rest)
                    == old(self).outcome(data@ + rest),
            data@.len() == 0 ==> final(self).patience() == 0,
    {
        proof {
            assert forall|rest: Seq<u8>| first_line(data@ + rest) == data@ implies after_line(
                data@ + rest,
            ) == rest by {
                lemma_after_fitting_line(data@, rest);
            }
        }
        if data.len() == 0 {
            self.fail(HttpError::TruncatedStream);
            return ;
        }
        match parse_chunk_size(data) {
            Ok(size) => {
                if size == 0 {
                    self.header.set(
                        String::from_str("content-length"),
                        format_decimal(self.body.len()),
                    );
                    self.header.discard("transfer-encoding");
                    self.phase = Phase::LastLine;
                } else {
                    self.phase = Phase::ChunkData(size);
                }
            },
            Err(e) => {
                self.fail(e);
            },
        }
    }

    /// Takes the data of a chunk.
    fn feed_chunk_data(&mut self, data: Vec<u8>, count: u64)
        requires
            old(self).phase == Phase::ChunkData(count),
        ensures
            forall|rest: Seq<u8>|
                fits(Want::Bytes(count), data@, rest) ==> #[trigger] final(self).outcome(rest)
                    == old(self).outcome(data@ + rest),
            final(self).patience() < 3,
    {
        let mut data = data;
        let ghost fed = data@;
        if (data.len() as u64) < count {
            self.fail(HttpError::TruncatedStream);
        } else {
            self.body.append(&mut data);
            self.phase = Phase::ChunkEnd;
            assert forall|rest: Seq<u8>| fits(Want::Bytes(count), fed, rest) implies (fed
                + rest).take(count as int) == fed && (fed + rest).skip(count as int) == rest by {}
        }
    }

    /// Takes the body of a response that gives its length.
    fn feed_fixed(&mut self, data: Vec<u8>, count: u64)
        requires
            old(self).phase == Phase::Fixed(count),
        ensures
            forall|rest: Seq<u8>|
                fits(Want::Bytes(count), data@, rest) ==> #[trigger] final(self).outcome(rest)
                    == old(self).outcome(data@ + rest),
            final(self).patience() == 0,
    {
        if (data.len() as u64) < count {
            self.fail(HttpError::TruncatedStream);
        } else {
            assert forall|rest: Seq<u8>| fits(Want::Bytes(count), data@, rest) implies (data@
                + rest).take(count as int) == data@ && (data@ + rest).skip(count as int)
                == rest by {}
            self.body = data;
            self.failure = None;
            self.phase = Phase::Done;
        }
    }

    /// Feeds the reader. Where `data` is what the reader wanted, the
    /// reading comes to the same as before: `data` has moved from the
    /// input that is still to be fed into the reader. A reader that is
    /// done takes nothing.
    pub fn feed(&mut self, data: Vec<u8>)
        ensures
            forall|rest: Seq<u8>|
                fits(old(self).wanted(), data@, rest) ==> #[trigger] final(self).outcome(rest)
                    == old(self).outcome(data@ + rest),
            old(self).wanted() == Want::Nothing ==> final(self).wanted() == Want::Nothing
                && forall|rest: Seq<u8>| #[trigger]
                final(self).outcome(rest) == old(self).outcome(rest),
            data@.len() == 0 && old(self).patience() > 0 ==> final(self).patience()
                < old(self).patience(),
            final(self).patience() <= 3,
    {
        proof {
            assert forall|rest: Seq<u8>| first_line(data@ + rest) == data@ implies after_line(
                data@ + rest,
            ) == rest by {
                lemma_after_fitting_line(data@, rest);
            }
        }
        match self.phase {
            Phase::Status => {
                self.feed_status(data);
            },
            Phase::Headers => {
                self.feed_header(data);
            },
            Phase::ChunkSize => {
                self.feed_chunk_size(data);
            },
            Phase::ChunkData(count) => {
                self.feed_chunk_data(data, count);
            },
            Phase::ChunkEnd => {
                self.phase = Phase::ChunkSize;
            },
            Phase::LastLine => {
                self.failure = None;
                self.phase = Phase::Done;
            },
            Phase::Fixed(count) => {
                self.feed_fixed(data, count);
            },
            Phase::Done => {},
        }
    }

    /// The result of the reading, once the reader is done; none before.
    pub fn finish(self) -> (result: Option<Result<Response, HttpError>>)
        ensures
            result is Some <==> self.wanted() == Want::Nothing,
            result is Some ==> forall|rest: Seq<u8>| #[trigger]
                self.outcome(rest) == outcome_of(result.unwrap(), rest),
    {
        match self.phase {
            Phase::Done => {},
            _ => {
                return None;
            },
        }
        match self.failure {
            Some(e) => Some(Err(e)),
            None => {
                let body = if self.body.len() == 0 {
                    None
                } else {
                    Some(Body::new(self.body))
                };
                Some(Ok(Response { status: self.status, header: self.header, body }))
            },
        }
    }
}

/// The end of the line that starts at `from`: the place behind the next
/// line feed, or the end of `input`.
pub fn line_end_from(input: &[u8], from: usize) -> (end: usize)
    requires
        from <= input@.len(),
    ensures
        from <= end <= input@.len(),
        input@.subrange(from as int, end as int) == first_line(input@.skip(from as int)),
{
    let ghost tail = input@.skip(from as int);
    let mut end: usize = from;
    while end < input.len() && input[end] != 10u8
        invariant
            from <= end <= input@.len(),
            tail == input@.skip(from as int),
            forall|i: int| 0 <= i < end - from ==> no_line_feed()(#[trigger] tail[i]),
        decreases input@.len() - end,
    {
        end = end + 1;
    }
    proof {
        lemma_prefix_run_is(tail, no_line_feed(), end - from);
    }
    if end < input.len() {
        end = end + 1;
    }
    end
}

/// Reads `input` as the response to a request with the given method.
/// Gives the response and the number of bytes that it takes up.
pub fn parse_response(input: &[u8], method: HttpMethod) -> (r: Result<(Response, usize), HttpError>)
    ensures
        match response_of(input@, method) {
            Ok((response, rest)) => r is Ok && r.unwrap().0@ == response && r.unwrap().1
                <= input@.len() && input@.skip(r.unwrap().1 as int) == rest,
            Err(e) => r == Err::<(Response, usize), HttpError>(e),
        },
{
    let mut reader = ResponseReader::new(method);
    let mut at: usize = 0;
    assert(input@.skip(0) == input@);
    while !reader.is_done()
        invariant
            at <= input@.len(),
            reader.outcome(input@.skip(at as int)) == response_of(input@, method),
            reader.patience() <= 3,
        decreases 4 * (input@.len() - at) + reader.patience(),
    {
        let left = input.len() - at;
        let end = match reader.want() {
            Want::Line => line_end_from(input, at),
            Want::Bytes(count) => if count < left as u64 {
                at + count as usize
            } else {
                input.len()
            },
            Want::Nothing => at,
        };
        let data = slice_to_vec(slice_subrange(input, at, end));
        proof {
            assert(data@ + input@.skip(end as int) == input@.skip(at as int));
        }
        reader.feed(data);
        at = end;
    }
    match reader.finish() {
        Some(Ok(response)) => Ok((response, at)),
        Some(Err(e)) => Err(e),
        None => Err(HttpError::TruncatedStream),
    }
}

} // verus!

//! The exchange: a request is written to a stream, and the response is
//! read from it, a line or a run of bytes at a time.
use crate::error::HttpError;
use crate::reader::fits;
use crate::reader::lemma_line_fits;
use crate::reader::outcome_of;
use crate::reader::ResponseReader;
use crate::reader::Want;
use crate::request::Request;
use crate::response::response_of;
use crate::response::Response;
use vstd::prelude::*;

verus! {

/// What happens on a stream.
pub enum Event {
    /// These bytes were written to the stream in one go.
    Wrote(Seq<u8>),
    /// This byte was taken from the stream.
    Took(u8),
    /// The stream was asked for a byte and had none.
    End,
}

/// The record of a stream: what happened on it, in the order in which it
/// happened.
pub type Record = Seq<Event>;

/// The events of taking `bytes` from a stream, one by one.
pub open spec fn took(bytes: Seq<u8>) -> Record {
    Seq::new(bytes.len(), |i: int| Event::Took(bytes[i]))
}

/// The bytes that were written, gathered from a record.
pub open spec fn written_of(record: Record) -> Seq<u8>
    decreases record.len(),
{
    if record.len() == 0 {
        Seq::empty()
    } else {
        match record.last() {
            Event::Wrote(data) => written_of(record.drop_last()) + data,
            _ => written_of(record.drop_last()),
        }
    }
}

/// The bytes that were taken, gathered from a record.
pub open spec fn taken_of(record: Record) -> Seq<u8>
    decreases record.len(),
{
    if record.len() == 0 {
        Seq::empty()
    } else {
        match record.last() {
            Event::Took(b) => taken_of(record.drop_last()).push(b),
            _ => taken_of(record.drop_last()),
        }
    }
}

/// What a client adds to the record when it stops reading: the end of the
/// stream, where the stream told it so in answer to a call; nothing where
/// the client had stopped before or stops of its own accord.
pub open spec fn closing(was_ended: bool, is_ended: bool, allowance: nat) -> Record {
    if !was_ended && is_ended && allowance > 0 {
        seq![Event::End]
    } else {
        Seq::empty()
    }
}

/// One more event adds its bytes, if it has any, to those written or to
/// those taken, and leaves the others as they are.
pub proof fn lemma_record_push(record: Record, event: Event)
    ensures
        written_of(record.push(event)) == match event {
            Event::Wrote(data) => written_of(record) + data,
            _ => written_of(record),
        },
        taken_of(record.push(event)) == match event {
            Event::Took(b) => taken_of(record).push(b),
            _ => taken_of(record),
        },
{
    assert(record.push(event).drop_last() == record);
}

/// A stream in both directions: what is written goes to the peer, what
/// is read comes from it. Reading and writing block until they are done.
///
/// A stream is described by its past alone: by the record of what was
/// written to it and taken from it, call by call. Nothing is said of what
/// it will hand out, nor of whether it will. What is proved of a client
/// holds of the streams that keep this record as the two methods say.
pub trait ReadWriter {
    /// What happened on the stream, from the first.
    spec fn record(&self) -> Record;

    /// Takes the next byte from the stream; none at its end, and none
    /// where reading fails. Either is put on record.
    fn read_byte(&mut self) -> (byte: Option<u8>)
        ensures
            final(self).record() == old(self).record().push(
                match byte {
                    Some(b) => Event::Took(b),
                    None => Event::End,
                },
            ),
    ;

    /// Writes all of `data` to the stream, and puts it on record.
    fn write_all(&mut self, data: &[u8])
        ensures
            final(self).record() == old(self).record().push(Event::Wrote(data@)),
    ;
}

/// A client that owns one stream and runs one exchange at a time on it.
///
/// Once the stream has come to its end the client asks it for nothing
/// more; a stream counts as ended too after as many bytes as 64 bits can
/// count.
pub struct HttpClient<T: ReadWriter> {
    conn: T,
    ended: bool,
    taken: u64,
}

impl<T: ReadWriter> HttpClient<T> {
    /// The stream that the client owns.
    pub closed spec fn stream(&self) -> T {
        self.conn
    }

    /// What happened on the client's stream.
    pub open spec fn record(&self) -> Record {
        self.stream().record()
    }

    /// The bytes that were written to the client's stream.
    pub open spec fn sent(&self) -> Seq<u8> {
        written_of(self.record())
    }

    /// The bytes that were taken from the client's stream.
    pub open spec fn received(&self) -> Seq<u8> {
        taken_of(self.record())
    }

    /// Whether the stream has come to its end.
    pub closed spec fn ended(&self) -> bool {
        self.ended
    }

    /// The number of bytes that the client can still take.
    pub closed spec fn allowance(&self) -> nat {
        (u64::MAX - self.taken) as nat
    }

    /// A client on `conn`.
    pub fn new(conn: T) -> (client: Self)
        ensures
            client.stream() == conn,
            !client.ended(),
    {
        HttpClient { conn, ended: false, taken: 0 }
    }

    /// Gives the stream back.
    pub fn into_inner(self) -> (conn: T)
        ensures
            conn == self.stream(),
    {
        self.conn
    }

    /// Takes the next byte from the stream; none once it has ended.
    fn next_byte(&mut self) -> (byte: Option<u8>)
        ensures
            final(self).record() == old(self).record() + match byte {
                Some(b) => seq![Event::Took(b)],
                None => closing(old(self).ended(), final(self).ended(), final(self).allowance()),
            },
            byte is Some ==> final(self).ended() == old(self).ended(),
            final(self).sent() == old(self).sent(),
            match byte {
                Some(b) => !old(self).ended() && final(self).received()
                    == old(self).received().push(b) && final(self).allowance() + 1
                    == old(self).allowance(),
                None => final(self).ended() && final(self).received() == old(self).received()
                    && final(self).allowance() == old(self).allowance(),
            },
            old(self).ended() ==> final(self).ended(),
    {
        if self.ended || self.taken == u64::MAX {
            self.ended = true;
            assert(self.record() + Seq::<Event>::empty() == self.record());
            return None;
        }
        let byte = self.conn.read_byte();
        proof {
            let event = match byte {
                Some(b) => Event::Took(b),
                None => Event::End,
            };
            lemma_record_push(old(self).record(), event);
            assert(old(self).record().push(event) == old(self).record() + seq![event]);
        }
        match byte {
            Some(b) => {
                self.taken = self.taken + 1;
                Some(b)
            },
            None => {
                self.ended = true;
                None
            },
        }
    }

    /// Reads one line: the bytes up to and with the next line feed, or up
    /// to the end of the stream.
    pub fn read_line(&mut self) -> (line: Vec<u8>)
        ensures
            final(self).record() == old(self).record() + took(line@) + closing(
                old(self).ended(),
                final(self).ended(),
                final(self).allowance(),
            ),
            final(self).sent() == old(self).sent(),
            final(self).received() == old(self).received() + line@,
            final(self).allowance() + line@.len() == old(self).allowance(),
            forall|i: int| 0 <= i < line@.len() - 1 ==> line@[i] != 10u8,
            line@.len() == 0 || line@.last() != 10u8 ==> final(self).ended(),
            old(self).ended() ==> line@.len() == 0 && final(self).ended(),
    {
        let mut line: Vec<u8> = Vec::new();
        let mut done = false;
        assert(old(self).record() + took(line@) == old(self).record());
        while !done
            invariant
                !done ==> self.record() == old(self).record() + took(line@),
                !done ==> self.ended() == old(self).ended(),
                done ==> self.record() == old(self).record() + took(line@) + closing(
                    old(self).ended(),
                    self.ended(),
                    self.allowance(),
                ),
                self.sent() == old(self).sent(),
                self.received() == old(self).received() + line@,
                self.allowance() + line@.len() == old(self).allowance(),
                old(self).ended() ==> line@.len() == 0 && self.ended(),
                !done ==> forall|i: int| 0 <= i < line@.len() ==> line@[i] != 10u8,
                done ==> forall|i: int| 0 <= i < line@.len() - 1 ==> line@[i] != 10u8,
                done ==> (line@.len() == 0 || line@.last() != 10u8 ==> self.ended()),
            decreases self.allowance() + (if done { 0nat } else { 1nat }),
        {
            let ghost before = line@;
            match self.next_byte() {
                Some(b) => {
                    line.push(b);
                    assert(took(before) + seq![Event::Took(b)] == took(line@));
                    assert(self.record() == old(self).record() + took(line@));
                    assert(self.record() + Seq::<Event>::empty() == self.record());
                    if b == 10u8 {
                        done = true;
                    }
                },
                None => {
                    done = true;
                },
            }
        }
        line
    }

    /// Reads `count` bytes, or as many as come before the stream ends.
    pub fn read_exact(&mut self, count: u64) -> (data: Vec<u8>)
        ensures
            final(self).record() == old(self).record() + took(data@) + closing(
                old(self).ended(),
                final(self).ended(),
                final(self).allowance(),
            ),
            final(self).sent() == old(self).sent(),
            final(self).received() == old(self).received() + data@,
            final(self).allowance() + data@.len() == old(self).allowance(),
            data@.len() <= count,
            data@.len() < count ==> final(self).ended(),
            old(self).ended() ==> data@.len() == 0 && final(self).ended(),
    {
        let mut data: Vec<u8> = Vec::new();
        let mut left: u64 = count;
        assert(old(self).record() + took(data@) == old(self).record());
        while left > 0
            invariant
                self.record() == old(self).record() + took(data@),
                self.ended() == old(self).ended(),
                self.sent() == old(self).sent(),
                self.received() == old(self).received() + data@,
                self.allowance() + data@.len() == old(self).allowance(),
                data@.len() + left == count,
                old(self).ended() ==> data@.len() == 0 && self.ended(),
            decreases left,
        {
            let ghost before = data@;
            match self.next_byte() {
                Some(b) => {
                    data.push(b);
                    assert(took(before) + seq![Event::Took(b)] == took(data@));
                    assert(self.record() == old(self).record() + took(data@));
                    left = left - 1;
                },
                None => {
                    return data;
                },
            }
        }
        assert(self.record() + Seq::<Event>::empty() == self.record());
        data
    }

    /// Feeds `reader` from the stream until it is done.
    fn read_response(&mut self, reader: ResponseReader) -> (r: Result<Response, HttpError>)
        ensures
            final(self).record() == old(self).record() + took(
                final(self).received().skip(old(self).received().len() as int),
            ) + closing(old(self).ended(), final(self).ended(), final(self).allowance()),
            old(self).ended() ==> final(self).ended(),
            final(self).sent() == old(self).sent(),
            old(self).received().is_prefix_of(final(self).received()),
            forall|rest: Seq<u8>|
                (final(self).ended() ==> rest.len() == 0) ==> outcome_of(r, rest)
                    == #[trigger] reader.outcome(
                    final(self).received().skip(old(self).received().len() as int) + rest,
                ),
    {
        let ghost first = reader;
        let ghost start = self.received();
        let ghost seen = Seq::<u8>::empty();
        let mut reader = reader;
        assert forall|rest: Seq<u8>| #[trigger] reader.outcome(rest) == first.outcome(
            seen + rest,
        ) by {}
        assert(old(self).record() + took(seen) + closing(
            old(self).ended(),
            self.ended(),
            self.allowance(),
        ) == old(self).record());
        while !reader.is_done()
            invariant
                self.record() == old(self).record() + took(seen) + closing(
                    old(self).ended(),
                    self.ended(),
                    self.allowance(),
                ),
                old(self).ended() ==> self.ended(),
                self.sent() == old(self).sent(),
                start == old(self).received(),
                self.received() == start + seen,
                forall|rest: Seq<u8>|
                    (self.ended() ==> rest.len() == 0) ==> #[trigger] reader.outcome(rest)
                        == first.outcome(seen + rest),
            decreases 4 * self.allowance() + reader.patience(),
        {
            let ghost was_ended = self.ended();
            let ghost record_before = self.record();
            let ghost before = reader;
            let want = reader.want();
            let data = match want {
                Want::Bytes(count) => self.read_exact(count),
                _ => self.read_line(),
            };
            reader.feed(data);
            proof {
                assert forall|rest: Seq<u8>| (self.ended() ==> rest.len() == 0) implies #[trigger]
                    reader.outcome(rest) == first.outcome((seen + data@) + rest) by {
                    if want == Want::Line {
                        lemma_line_fits(data@, rest);
                    }
                    assert(fits(want, data@, rest));
                    assert(reader.outcome(rest) == before.outcome(data@ + rest));
                    assert(was_ended ==> (data@ + rest).len() == 0);
                    assert(seen + (data@ + rest) == (seen + data@) + rest);
                }
                assert(took(seen) + took(data@) == took(seen + data@));
                if was_ended {
                    assert(record_before + took(data@) + closing(
                        was_ended,
                        self.ended(),
                        self.allowance(),
                    ) == record_before);
                } else {
                    let tail = closing(was_ended, self.ended(), self.allowance());
                    assert(tail == closing(old(self).ended(), self.ended(), self.allowance()));
                    assert(old(self).record() + took(seen) + Seq::<Event>::empty() + took(data@)
                        + tail == old(self).record() + took(seen + data@) + tail);
                }
                seen = seen + data@;
            }
        }
        let ghost last = reader;
        let r = match reader.finish() {
            Some(result) => result,
            None => Err(HttpError::TruncatedStream),
        };
        proof {
            assert(self.received().skip(start.len() as int) == seen);
            assert forall|rest: Seq<u8>| (self.ended() ==> rest.len() == 0) implies outcome_of(
                r,
                rest,
            ) == #[trigger] first.outcome(seen + rest) by {
                assert(last.outcome(rest) == first.outcome(seen + rest));
            }
        }
        r
    }

    /// Writes `req` to the stream and reads the response to it.
    ///
    /// On the stream this happens, in this order and nothing else: the
    /// bytes of the request are written in one go; then bytes are taken,
    /// one by one; then, where the stream ends under the client's hands,
    /// it says so. The result is what the bytes taken in this exchange
    /// say, read as a response from the first of them to the last; and it
    /// is what they would say with any bytes behind them, unless the
    /// stream has ended.
    pub fn execute_request(&mut self, req: &Request) -> (r: Result<Response, HttpError>)
        ensures
            req.in_key_order(),
            final(self).record() == old(self).record().push(Event::Wrote(req.wire())) + took(
                final(self).received().skip(old(self).received().len() as int),
            ) + closing(old(self).ended(), final(self).ended(), final(self).allowance()),
            old(self).ended() ==> final(self).ended(),
            final(self).sent() == old(self).sent() + req.wire(),
            old(self).received().is_prefix_of(final(self).received()),
            outcome_of(r, Seq::empty()) == response_of(
                final(self).received().skip(old(self).received().len() as int),
                req.method,
            ),
            forall|rest: Seq<u8>|
                (final(self).ended() ==> rest.len() == 0) ==> outcome_of(r, rest)
                    == #[trigger] response_of(
                    final(self).received().skip(old(self).received().len() as int) + rest,
                    req.method,
                ),
    {
        let message = req.build();
        self.conn.write_all(message.as_slice());
        proof {
            lemma_record_push(old(self).record(), Event::Wrote(message@));
        }
        let reader = ResponseReader::new(req.method);
        let r = self.read_response(reader);
        proof {
            let seen = self.received().skip(old(self).received().len() as int);
            assert forall|rest: Seq<u8>| (self.ended() ==> rest.len() == 0) implies outcome_of(
                r,
                rest,
            ) == #[trigger] response_of(seen + rest, req.method) by {
                assert(reader.outcome(seen + rest) == response_of(seen + rest, req.method));
            }
            assert(response_of(seen + Seq::<u8>::empty(), req.method) == outcome_of(
                r,
                Seq::empty(),
            ));
        }
        r
    }
}

} // verus!

//! A stream held in memory: the bytes to be read are given up front, and
//! the bytes written are kept.
use crate::client::taken_of;
use crate::client::written_of;
use crate::client::lemma_record_push;
use crate::client::Event;
use crate::client::ReadWriter;
use crate::client::Record;
use vstd::prelude::*;
use vstd::slice::slice_to_vec;

verus! {

/// A stream whose peer has said all it will say. Reading walks through
/// the given bytes; writing appends to a copy of what was written.
pub struct MemoryStream {
    input: Vec<u8>,
    position: usize,
    output: Vec<u8>,
    log: Ghost<Record>,
}

impl MemoryStream {
    #[verifier::type_invariant]
    spec fn well_formed(&self) -> bool {
        &&& self.position <= self.input@.len()
        &&& taken_of(self.log@) == self.input@.take(self.position as int)
        &&& written_of(self.log@) == self.output@
    }

    /// The bytes that are still to be read.
    pub closed spec fn incoming(&self) -> Seq<u8> {
        self.input@.skip(self.position as int)
    }

    /// A stream from which `input` can be read and to which nothing was
    /// written yet.
    pub fn new(input: Vec<u8>) -> (stream: Self)
        ensures
            stream.incoming() == input@,
            stream.record() == Seq::<Event>::empty(),
    {
        assert(input@.take(0) == Seq::<u8>::empty());
        MemoryStream { input, position: 0, output: Vec::new(), log: Ghost(Seq::empty()) }
    }

    /// A copy of the bytes written so far.
    pub fn written(&self) -> (bytes: Vec<u8>)
        ensures
            bytes@ == written_of(self.record()),
    {
        proof {
            use_type_invariant(self);
        }
        slice_to_vec(self.output.as_slice())
    }

    /// The number of bytes that are still to be read.
    pub fn remaining(&self) -> (n: usize)
        ensures
            n == self.incoming().len(),
    {
        proof {
            use_type_invariant(self);
        }
        self.input.len() - self.position
    }

    /// Takes the stream apart and leaves an empty one in its place.
    fn take(&mut self) -> (parts: (Vec<u8>, usize, Vec<u8>, Ghost<Record>))
        ensures
            parts.0 == old(self).input,
            parts.1 == old(self).position,
            parts.2 == old(self).output,
            parts.3 == old(self).log,
            parts.1 <= parts.0@.len(),
            taken_of(parts.3@) == parts.0@.take(parts.1 as int),
            written_of(parts.3@) == parts.2@,
    {
        proof {
            use_type_invariant(&*self);
        }
        let mut whole = MemoryStream::new(Vec::new());
        std::mem::swap(self, &mut whole);
        (whole.input, whole.position, whole.output, whole.log)
    }
}

impl ReadWriter for MemoryStream {
    closed spec fn record(&self) -> Record {
        self.log@
    }

    fn read_byte(&mut self) -> (byte: Option<u8>)
        ensures
            match byte {
                Some(b) => old(self).incoming().len() > 0 && b == old(self).incoming()[0]
                    && final(self).incoming() == old(self).incoming().skip(1),
                None => old(self).incoming().len() == 0 && final(self).incoming()
                    == old(self).incoming(),
            },
    {
        let (input, position, output, log) = self.take();
        if position < input.len() {
            let b = input[position];
            proof {
                lemma_record_push(log@, Event::Took(b));
                assert(input@.take(position + 1) == input@.take(position as int).push(b));
                assert(input@.skip(position as int).skip(1) == input@.skip(position + 1));
            }
            *self = MemoryStream {
                input,
                position: position + 1,
                output,
                log: Ghost(log@.push(Event::Took(b))),
            };
            Some(b)
        } else {
            proof {
                lemma_record_push(log@, Event::End);
            }
            *self = MemoryStream { input, position, output, log: Ghost(log@.push(Event::End)) };
            None
        }
    }

    fn write_all(&mut self, data: &[u8])
        ensures
            final(self).incoming() == old(self).incoming(),
    {
        let (input, position, output, log) = self.take();
        let mut output = output;
        let mut copy = slice_to_vec(data);
        output.append(&mut copy);
        proof {
            lemma_record_push(log@, Event::Wrote(data@));
        }
        *self = MemoryStream {
            input,
            position,
            output,
            log: Ghost(log@.push(Event::Wrote(data@))),
        };
    }
}

} // verus!

//! The grammar of a response, line by line: where a line ends, and what a
//! status line, a header line, a chunk size line and a length say.
use crate::error::HttpError;
use crate::ordered::Pair;
use crate::text::chars_of;
use crate::text::decode;
use crate::text::find_separator;
use crate::text::first_separator;
use crate::text::lemma_prefix_run_bounds;
use crate::text::lemma_separator_from;
use crate::text::lowercase_of;
use crate::text::parse_signed;
use crate::text::parse_unsigned;
use crate::text::prefix_run;
use crate::text::read_signed;
use crate::text::read_unsigned;
use crate::text::second_token;
use crate::text::second_token_bounds;
use crate::text::separator_at;
use crate::text::to_lowercase;
use crate::text::trim;
use crate::text::trim_bounds;
use vstd::prelude::*;
use vstd::slice::slice_subrange;
use vstd::utf8::decode_utf8;
use vstd::utf8::valid_utf8;

verus! {

/// The line terminator: a carriage return and a line feed.
pub open spec fn line_end() -> Seq<u8> {
    seq![13u8, 10u8]
}

/// The predicate "is no line feed" as a value.
pub open spec fn no_line_feed() -> spec_fn(u8) -> bool {
    |b: u8| b != 10u8
}

/// The length of the first line of `input`: up to and with the first
/// line feed, or all of `input` where it holds none.
pub open spec fn line_len(input: Seq<u8>) -> nat {
    let n = prefix_run(input, no_line_feed());
    if n < input.len() {
        n + 1
    } else {
        n
    }
}

/// The first line of `input`, with its line feed.
pub open spec fn first_line(input: Seq<u8>) -> Seq<u8> {
    input.take(line_len(input) as int)
}

/// What follows the first line of `input`.
pub open spec fn after_line(input: Seq<u8>) -> Seq<u8> {
    input.skip(line_len(input) as int)
}

/// A line lies inside the input, and is empty only where the input is.
pub proof fn lemma_line_len(input: Seq<u8>)
    ensures
        line_len(input) <= input.len(),
        input.len() > 0 ==> line_len(input) > 0,
        first_line(input).len() == line_len(input),
        after_line(input).len() == input.len() - line_len(input),
{
    lemma_prefix_run_bounds(input, no_line_feed());
}

/// The status code that a status line holds: its second token, read as
/// a decimal number of 32 bits.
pub open spec fn status_code(line: Seq<u8>) -> Option<u32> {
    if valid_utf8(line) {
        match parse_unsigned(second_token(decode_utf8(line)), 10, u32::MAX as int) {
            Some(code) => Some(code as u32),
            None => None,
        }
    } else {
        None
    }
}

/// The entry that a header line holds: the line is trimmed and split at
/// its first separator; the key is what stands before, in lower case, the
/// value all that stands behind.
pub open spec fn header_entry(line: Seq<u8>) -> Option<Pair> {
    if valid_utf8(line) {
        let text = trim(decode_utf8(line));
        match first_separator(text) {
            Some(at) => Some((lowercase_of(text.take(at)), text.skip(at + 2))),
            None => None,
        }
    } else {
        None
    }
}

/// The size that a chunk size line holds: the trimmed line, read as a
/// number in base 16 that fits 64 bits with a sign and is not negative.
pub open spec fn chunk_size(line: Seq<u8>) -> Option<nat> {
    if valid_utf8(line) {
        match parse_signed(trim(decode_utf8(line)), 16, i64::MIN as int, i64::MAX as int) {
            Some(size) => if size >= 0 {
                Some(size as nat)
            } else {
                None
            },
            None => None,
        }
    } else {
        None
    }
}

/// The length that the value of `content-length` holds: a decimal number
/// that fits the machine's word.
pub open spec fn content_length(value: Seq<char>) -> Option<nat> {
    match parse_unsigned(value, 10, usize::MAX as int) {
        Some(length) => Some(length as nat),
        None => None,
    }
}

/// Tells whether `line` is the blank line that ends the headers.
pub fn is_blank_line(line: &[u8]) -> (blank: bool)
    ensures
        blank == (line@ == line_end()),
{
    let blank = line.len() == 2 && line[0] == 13u8 && line[1] == 10u8;
    assert(blank ==> line@ =~= line_end());
    blank
}

/// Reads the status code from a status line.
pub fn parse_status_line(line: Vec<u8>) -> (r: Result<u32, HttpError>)
    ensures
        r == match status_code(line@) {
            Some(code) => Ok::<u32, HttpError>(code),
            None => Err(HttpError::MalformedStatusLine),
        },
{
    match decode(line) {
        None => Err(HttpError::MalformedStatusLine),
        Some(text) => {
            let chars = chars_of(text.as_str());
            let (from, to) = second_token_bounds(chars.as_slice());
            let token = slice_subrange(chars.as_slice(), from, to);
            match read_unsigned(token, 10, 0xFFFF_FFFFu64) {
                Some(code) => Ok(code as u32),
                None => Err(HttpError::MalformedStatusLine),
            }
        },
    }
}

/// Reads the key and the value from a header line.
pub fn parse_header_line(line: Vec<u8>) -> (r: Result<(String, String), HttpError>)
    ensures
        match r {
            Ok(entry) => header_entry(line@) == Some((entry.0@, entry.1@)),
            Err(e) => header_entry(line@) is None && e == HttpError::MalformedHeaderLine,
        },
{
    match decode(line) {
        None => Err(HttpError::MalformedHeaderLine),
        Some(text) => {
            let chars = chars_of(text.as_str());
            let (from, to) = trim_bounds(chars.as_slice());
            let trimmed = slice_subrange(chars.as_slice(), from, to);
            match find_separator(trimmed) {
                None => Err(HttpError::MalformedHeaderLine),
                Some(at) => {
                    proof {
                        lemma_separator_from(trimmed@, 0);
                    }
                    let key = to_lowercase(text.as_str().substring_char(from, from + at));
                    let value = String::from_str(
                        text.as_str().substring_char(from + at + 2, to),
                    );
                    assert(text@.subrange(from as int, from + at) == trimmed@.take(at as int));
                    Ok((key, value))
                },
            }
        },
    }
}

/// Reads the size from a chunk size line.
pub fn parse_chunk_size(line: Vec<u8>) -> (r: Result<u64, HttpError>)
    ensures
        r == match chunk_size(line@) {
            Some(size) => Ok::<u64, HttpError>(size as u64),
            None => Err(HttpError::InvalidChunkSize),
        },
        r is Ok ==> r.unwrap() == chunk_size(line@).unwrap(),
{
    match decode(line) {
        None => Err(HttpError::InvalidChunkSize),
        Some(text) => {
            let chars = chars_of(text.as_str());
            let (from, to) = trim_bounds(chars.as_slice());
            let trimmed = slice_subrange(chars.as_slice(), from, to);
            match read_signed(trimmed, 16) {
                Some(size) => if size >= 0 {
                    Ok(size as u64)
                } else {
                    Err(HttpError::InvalidChunkSize)
                },
                None => Err(HttpError::InvalidChunkSize),
            }
        },
    }
}

/// Reads the length from the value of `content-length`.
pub fn parse_content_length(value: &str) -> (r: Result<usize, HttpError>)
    ensures
        r == match content_length(value@) {
            Some(length) => Ok::<usize, HttpError>(length as usize),
            None => Err(HttpError::InvalidContentLength),
        },
        r is Ok ==> r.unwrap() == content_length(value@).unwrap(),
{
    let chars = chars_of(value);
    match read_unsigned(chars.as_slice(), 10, usize::MAX as u64) {
        Some(length) => Ok(length as usize),
        None => Err(HttpError::InvalidContentLength),
    }
}

} // verus!

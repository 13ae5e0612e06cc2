//! The frame parser: reads one frame, nested arrays included, from a
//! [`Reader`].
//!
//! Every function here moves the cursor only when it succeeds. A failure,
//! [`Error::Truncated`] included, leaves the reader exactly as it was, so a
//! parse that ran out of bytes can be tried again from the same place.

use crate::decimal::parse_length;
use crate::decimal::MINUS;
use crate::error::Error;
use crate::frame::lemma_view_array;
use crate::frame::RespFrame;
use crate::grammar::bulk_at;
use crate::grammar::frame_at;
use crate::grammar::header_at;
use crate::grammar::items_at;
use crate::grammar::lemma_items_fail;
use crate::grammar::text_at;
use crate::grammar::ONE;
use crate::grammar::TAG_ARRAY;
use crate::grammar::TAG_BULK;
use crate::grammar::TAG_ERROR;
use crate::grammar::TAG_INTEGER;
use crate::grammar::TAG_SIMPLE;
use crate::limits::Limits;
use crate::reader::lemma_first_crlf;
use crate::reader::Reader;
use crate::reader::CR;
use crate::reader::LF;
use crate::text::decode_text;
use bytes::Bytes;
use vstd::prelude::*;

verus! {

/// Reads the text line of a simple string or an error.
pub fn read_text(reader: &mut Reader<'_>) -> (r: Result<String, Error>)
    ensures
        final(reader).bytes() == old(reader).bytes(),
        match text_at(old(reader).bytes(), old(reader).cursor()) {
            Ok((t, end)) => r matches Ok(x) && x@ == t && final(reader).cursor() == end,
            Err(e) => r matches Err(x) && x == e && final(reader).cursor() == old(
                reader,
            ).cursor(),
        },
{
    let start = reader.position();
    proof {
        lemma_first_crlf(reader.bytes(), start as int);
    }
    match reader.get_line() {
        Err(e) => Err(e),
        Ok(line) => match decode_text(line) {
            Ok(text) => Ok(text),
            Err(e) => {
                reader.rewind(start);
                Err(e)
            },
        },
    }
}

/// Reads the length line of a bulk string or an array: `None` for the null
/// marker `-1`, else the declared length, which may not exceed `max`.
pub fn read_header(reader: &mut Reader<'_>, max: usize) -> (r: Result<Option<usize>, Error>)
    ensures
        final(reader).bytes() == old(reader).bytes(),
        match header_at(old(reader).bytes(), old(reader).cursor(), max) {
            Ok((n, end)) => r == Ok::<Option<usize>, Error>(n) && final(reader).cursor() == end,
            Err(e) => r == Err::<Option<usize>, Error>(e) && final(reader).cursor() == old(
                reader,
            ).cursor(),
        },
{
    let start = reader.position();
    proof {
        lemma_first_crlf(reader.bytes(), start as int);
    }
    let first = match reader.peek_u8() {
        Ok(b) => b,
        Err(e) => {
            return Err(e);
        },
    };
    let line = match reader.get_line() {
        Ok(line) => line,
        Err(e) => {
            return Err(e);
        },
    };
    if first == MINUS {
        if line.len() == 2 && line[0] == MINUS && line[1] == ONE {
            Ok(None)
        } else {
            reader.rewind(start);
            Err(Error::InvalidFrame)
        }
    } else {
        match parse_length(line, max) {
            Ok(n) => Ok(Some(n)),
            Err(e) => {
                reader.rewind(start);
                Err(e)
            },
        }
    }
}

/// Reads a bulk string from behind its tag: the length line, a payload of
/// exactly that many bytes, and the terminator behind it.
pub fn read_bulk(reader: &mut Reader<'_>, limits: &Limits) -> (r: Result<RespFrame, Error>)
    ensures
        final(reader).bytes() == old(reader).bytes(),
        match bulk_at(old(reader).bytes(), old(reader).cursor(), *limits) {
            Ok((f, end)) => r matches Ok(x) && x@ == f && final(reader).cursor() == end,
            Err(e) => r matches Err(x) && x == e && final(reader).cursor() == old(
                reader,
            ).cursor(),
        },
{
    let start = reader.position();
    let len = match read_header(reader, limits.max_bulk_len) {
        Err(e) => {
            return Err(e);
        },
        Ok(None) => {
            return Ok(RespFrame::Null);
        },
        Ok(Some(n)) => n,
    };
    proof {
        lemma_first_crlf(reader.bytes(), start as int);
    }
    let left = reader.remaining();
    if left < 2 || left - 2 < len {
        reader.rewind(start);
        return Err(Error::Truncated);
    }
    let payload = match reader.get_bytes(len) {
        Ok(view) => view,
        Err(e) => {
            return Err(e);
        },
    };
    let terminator = match reader.get_bytes(2) {
        Ok(view) => view,
        Err(e) => {
            return Err(e);
        },
    };
    if terminator[0] != CR || terminator[1] != LF {
        reader.rewind(start);
        return Err(Error::InvalidFrame);
    }
    Ok(RespFrame::BulkString(Bytes::copy_from_slice(payload)))
}

/// Reads the `count` elements of an array whose header has been read, each
/// with `depth` more levels of arrays open to it.
fn read_items(reader: &mut Reader<'_>, limits: &Limits, count: usize, depth: usize) -> (r: Result<
    Vec<RespFrame>,
    Error,
>)
    ensures
        final(reader).bytes() == old(reader).bytes(),
        old(reader).cursor() <= final(reader).cursor(),
        match items_at(
            old(reader).bytes(),
            old(reader).cursor(),
            count as nat,
            *limits,
            depth as nat,
        ) {
            Ok((items, end)) => {
                &&& r matches Ok(v)
                &&& v@.len() == items.len()
                &&& forall|k: int| 0 <= k < items.len() ==> (#[trigger] v@[k])@ == items[k]
                &&& final(reader).cursor() == end
            },
            Err(e) => r matches Err(x) && x == e,
        },
    decreases depth, 1nat, count,
{
    let ghost s = reader.bytes();
    let ghost from = reader.cursor();
    let mut items: Vec<RespFrame> = Vec::new();
    let mut i: usize = 0;
    while i < count
        invariant
            i <= count,
            s == old(reader).bytes(),
            from == old(reader).cursor(),
            reader.bytes() == s,
            from <= reader.cursor(),
            items@.len() == i,
            items_at(s, from, i as nat, *limits, depth as nat) matches Ok((done, at)) && {
                &&& at == reader.cursor()
                &&& done.len() == i
                &&& forall|k: int| 0 <= k < i ==> (#[trigger] items@[k])@ == done[k]
            },
        decreases count - i,
    {
        match parse_nested(reader, limits, depth) {
            Ok(item) => {
                items.push(item);
            },
            Err(e) => {
                proof {
                    lemma_items_fail(s, from, (i + 1) as nat, count as nat, *limits, depth as nat);
                }
                return Err(e);
            },
        }
        i = i + 1;
    }
    Ok(items)
}

/// Reads one frame with `depth` more levels of arrays open to it.
///
/// Succeeds exactly where [`frame_at`] finds a frame at the cursor, returns
/// that frame and leaves the cursor behind it. Fails with the error that
/// [`frame_at`] gives, and then leaves the reader as it was.
pub fn parse_nested(reader: &mut Reader<'_>, limits: &Limits, depth: usize) -> (r: Result<
    RespFrame,
    Error,
>)
    ensures
        final(reader).bytes() == old(reader).bytes(),
        match frame_at(old(reader).bytes(), old(reader).cursor(), *limits, depth as nat) {
            Ok((f, end)) => {
                &&& r matches Ok(x)
                &&& x@ == f
                &&& final(reader).cursor() == end
                &&& old(reader).cursor() < end
            },
            Err(e) => r matches Err(x) && x == e && final(reader).cursor() == old(
                reader,
            ).cursor(),
        },
    decreases depth, 0nat, 0nat,
{
    let start = reader.position();
    let tag = match reader.get_u8() {
        Ok(tag) => tag,
        Err(e) => {
            return Err(e);
        },
    };
    proof {
        lemma_first_crlf(reader.bytes(), start + 1);
    }
    let outcome = if tag == TAG_SIMPLE {
        match read_text(reader) {
            Ok(text) => Ok(RespFrame::SimpleString(text)),
            Err(e) => Err(e),
        }
    } else if tag == TAG_ERROR {
        match read_text(reader) {
            Ok(text) => Ok(RespFrame::Error(text)),
            Err(e) => Err(e),
        }
    } else if tag == TAG_INTEGER {
        match reader.get_num() {
            Ok(value) => Ok(RespFrame::Integer(value)),
            Err(e) => Err(e),
        }
    } else if tag == TAG_BULK {
        read_bulk(reader, limits)
    } else if tag == TAG_ARRAY {
        match read_header(reader, limits.max_array_len) {
            Err(e) => Err(e),
            Ok(None) => Ok(RespFrame::NullArray),
            Ok(Some(count)) => {
                if depth == 0 {
                    Err(Error::InvalidFrame)
                } else {
                    match read_items(reader, limits, count, depth - 1) {
                        Ok(items) => {
                            let frame = RespFrame::Array(items);
                            proof {
                                lemma_view_array(items);
                                let found = items_at(
                                    reader.bytes(),
                                    header_at(
                                        reader.bytes(),
                                        start + 1,
                                        limits.max_array_len,
                                    )->Ok_0.1,
                                    count as nat,
                                    *limits,
                                    (depth - 1) as nat,
                                )->Ok_0.0;
                                assert(frame@->Array_0 =~= found);
                            }
                            Ok(frame)
                        },
                        Err(e) => Err(e),
                    }
                }
            },
        }
    } else {
        Err(Error::UnknownType(tag))
    };
    match outcome {
        Ok(frame) => Ok(frame),
        Err(e) => {
            reader.rewind(start);
            Err(e)
        },
    }
}

/// Reads one frame, nested arrays included, under the given limits.
///
/// Succeeds exactly where [`frame_at`] finds a frame at the cursor, returns
/// that frame and leaves the cursor behind its last byte. Fails with the
/// error that [`frame_at`] gives ([`Error::Truncated`] when the bytes end
/// before the frame does) and then leaves the reader as it was.
pub fn parse(reader: &mut Reader<'_>, limits: &Limits) -> (r: Result<RespFrame, Error>)
    ensures
        final(reader).bytes() == old(reader).bytes(),
        match frame_at(
            old(reader).bytes(),
            old(reader).cursor(),
            *limits,
            limits.max_depth as nat,
        ) {
            Ok((f, end)) => {
                &&& r matches Ok(x)
                &&& x@ == f
                &&& final(reader).cursor() == end
                &&& old(reader).cursor() < end
            },
            Err(e) => r matches Err(x) && x == e && final(reader).cursor() == old(
                reader,
            ).cursor(),
        },
{
    parse_nested(reader, limits, limits.max_depth)
}

} // verus!

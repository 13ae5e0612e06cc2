//! The wire grammar as a function on bytes: what stands at a given index of
//! a byte sequence, how far it reaches, and why it is refused where it is.
//!
//! ```text
//! frame      = simple / error / integer / bulk / null-bulk / array / null-array
//! simple     = "+" text CRLF
//! error      = "-" text CRLF
//! integer    = ":" ["-"] 1*DIGIT CRLF
//! bulk       = "$" len CRLF len*OCTET CRLF
//! null-bulk  = "$-1" CRLF
//! array      = "*" count CRLF count*frame
//! null-array = "*-1" CRLF
//! ```

use crate::decimal::length_of;
use crate::decimal::MINUS;
use crate::error::Error;
use crate::frame::Frame;
use crate::limits::Limits;
use crate::reader::first_crlf;
use crate::reader::is_crlf_at;
use crate::reader::number_at;
use crate::text::text_of;
use vstd::prelude::*;

verus! {

/// The tag of a simple string, `+`.
pub const TAG_SIMPLE: u8 = 43;

/// The tag of an error, `-`.
pub const TAG_ERROR: u8 = 45;

/// The tag of an integer, `:`.
pub const TAG_INTEGER: u8 = 58;

/// The tag of a bulk string, `$`.
pub const TAG_BULK: u8 = 36;

/// The tag of an array, `*`.
pub const TAG_ARRAY: u8 = 42;

/// ASCII `1`, the digit of the null marker `-1`.
pub const ONE: u8 = 49;

/// True when `line` is the null marker `-1`.
pub open spec fn is_null_marker(line: Seq<u8>) -> bool {
    line.len() == 2 && line[0] == MINUS && line[1] == ONE
}

/// The text line that starts at `from`: its characters and the index behind
/// its terminator.
pub open spec fn text_at(s: Seq<u8>, from: int) -> Result<(Seq<char>, int), Error> {
    match first_crlf(s, from) {
        None => Err(Error::Truncated),
        Some(end) => match text_of(s.subrange(from, end)) {
            Ok(t) => Ok((t, end + 2)),
            Err(e) => Err(e),
        },
    }
}

/// The length line of a bulk string or an array that starts at `from`:
/// `None` for the null marker `-1`, else the declared length, which may not
/// exceed `max`; and the index behind the line's terminator.
///
/// A line that starts with `-` and is not exactly `-1` is malformed.
pub open spec fn header_at(s: Seq<u8>, from: int, max: usize) -> Result<
    (Option<usize>, int),
    Error,
> {
    if !(0 <= from < s.len()) {
        Err(Error::Truncated)
    } else {
        match first_crlf(s, from) {
            None => Err(Error::Truncated),
            Some(end) => {
                let line = s.subrange(from, end);
                if s[from] == MINUS {
                    if is_null_marker(line) {
                        Ok((None, end + 2))
                    } else {
                        Err(Error::InvalidFrame)
                    }
                } else {
                    match length_of(line, max) {
                        Ok(n) => Ok((Some(n), end + 2)),
                        Err(e) => Err(e),
                    }
                }
            },
        }
    }
}

/// The bulk string whose length line starts at `from`: the payload of
/// exactly the declared length, whatever bytes it holds, followed by a
/// terminator.
pub open spec fn bulk_at(s: Seq<u8>, from: int, lim: Limits) -> Result<(Frame, int), Error> {
    match header_at(s, from, lim.max_bulk_len) {
        Err(e) => Err(e),
        Ok((None, p)) => Ok((Frame::Null, p)),
        Ok((Some(n), p)) => {
            if s.len() - p < n + 2 {
                Err(Error::Truncated)
            } else if !is_crlf_at(s, p + n) {
                Err(Error::InvalidFrame)
            } else {
                Ok((Frame::BulkString(s.subrange(p, p + n)), p + n + 2))
            }
        },
    }
}

/// The frame that starts at index `pos` of `s`, and the index behind it;
/// or the reason why there is none.
///
/// `depth` is how many more levels of arrays may open from here. The first
/// failure met while reading from left to right is the one reported. No
/// byte at or behind the returned index is looked at.
pub open spec fn frame_at(s: Seq<u8>, pos: int, lim: Limits, depth: nat) -> Result<
    (Frame, int),
    Error,
>
    decreases depth, 0nat,
{
    if !(0 <= pos < s.len()) {
        Err(Error::Truncated)
    } else if s[pos] == TAG_SIMPLE {
        match text_at(s, pos + 1) {
            Ok((t, end)) => Ok((Frame::SimpleString(t), end)),
            Err(e) => Err(e),
        }
    } else if s[pos] == TAG_ERROR {
        match text_at(s, pos + 1) {
            Ok((t, end)) => Ok((Frame::Error(t), end)),
            Err(e) => Err(e),
        }
    } else if s[pos] == TAG_INTEGER {
        match number_at(s, pos + 1) {
            Ok((v, end)) => Ok((Frame::Integer(v), end)),
            Err(e) => Err(e),
        }
    } else if s[pos] == TAG_BULK {
        bulk_at(s, pos + 1, lim)
    } else if s[pos] == TAG_ARRAY {
        match header_at(s, pos + 1, lim.max_array_len) {
            Err(e) => Err(e),
            Ok((None, p)) => Ok((Frame::NullArray, p)),
            Ok((Some(n), p)) => {
                if depth == 0 {
                    Err(Error::InvalidFrame)
                } else {
                    match items_at(s, p, n as nat, lim, (depth - 1) as nat) {
                        Ok((items, end)) => Ok((Frame::Array(items), end)),
                        Err(e) => Err(e),
                    }
                }
            },
        }
    } else {
        Err(Error::UnknownType(s[pos]))
    }
}

/// The `count` frames that stand one behind the other from index `pos` on,
/// and the index behind the last of them. The failure of the first frame
/// that fails is the failure of the whole.
pub open spec fn items_at(s: Seq<u8>, pos: int, count: nat, lim: Limits, depth: nat) -> Result<
    (Seq<Frame>, int),
    Error,
>
    decreases depth, count + 1,
{
    if count == 0 {
        Ok((Seq::empty(), pos))
    } else {
        match items_at(s, pos, (count - 1) as nat, lim, depth) {
            Err(e) => Err(e),
            Ok((init, p)) => match frame_at(s, p, lim, depth) {
                Err(e) => Err(e),
                Ok((f, end)) => Ok((init.push(f), end)),
            },
        }
    }
}

/// Once the first `k` frames of a run fail, every longer run from the same
/// index fails in the same way.
pub proof fn lemma_items_fail(s: Seq<u8>, pos: int, k: nat, count: nat, lim: Limits, depth: nat)
    requires
        k <= count,
        items_at(s, pos, k, lim, depth) is Err,
    ensures
        items_at(s, pos, count, lim, depth) == items_at(s, pos, k, lim, depth),
    decreases count,
{
    if k < count {
        lemma_items_fail(s, pos, k, (count - 1) as nat, lim, depth);
    }
}

} // verus!

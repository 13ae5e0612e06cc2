//! The codec: decoding driven against a receive buffer that fills up chunk
//! by chunk, and encoding into a send buffer.

use crate::bindings::buffer_advance;
use crate::bindings::buffer_as_slice;
use crate::bindings::buffer_contents;
use crate::encoder::encode_frame;
use crate::encoder::encoding;
use crate::error::Error;
use crate::frame::Frame;
use crate::frame::RespFrame;
use crate::grammar::frame_at;
use crate::limits::Limits;
use crate::parser::parse;
use crate::reader::Reader;
use bytes::BytesMut;
use vstd::prelude::*;

verus! {

/// What one attempt to decode makes of a receive buffer.
pub enum Outcome {
    /// A whole frame stands at the front of the buffer and takes up this
    /// many bytes of it.
    Frame(Frame, int),
    /// The buffer is empty or ends before its first frame does.
    NoFrameYet,
    /// The peer broke the protocol; the connection cannot go on.
    Fatal(Error),
}

/// What one attempt to decode makes of a receive buffer that holds `buf`.
///
/// An empty buffer holds no frame yet. Otherwise the frame at the front
/// decides: it is handed out unless it is larger than `lim.max_frame_len`;
/// a frame that is not complete is waited for unless the buffer has already
/// reached `lim.max_frame_len`; any other failure is fatal.
pub open spec fn decode_outcome(lim: Limits, buf: Seq<u8>) -> Outcome {
    if buf.len() == 0 {
        Outcome::NoFrameYet
    } else {
        match frame_at(buf, 0, lim, lim.max_depth as nat) {
            Ok((f, end)) => {
                if end > lim.max_frame_len {
                    Outcome::Fatal(Error::FrameTooLarge)
                } else {
                    Outcome::Frame(f, end)
                }
            },
            Err(Error::Truncated) => {
                if buf.len() >= lim.max_frame_len {
                    Outcome::Fatal(Error::InvalidFrame)
                } else {
                    Outcome::NoFrameYet
                }
            },
            Err(e) => Outcome::Fatal(e),
        }
    }
}

/// What is left in a receive buffer that held `buf` after one attempt to
/// decode: a frame that was handed out is gone from the front, and nothing
/// else ever changes.
pub open spec fn buffer_after(lim: Limits, buf: Seq<u8>) -> Seq<u8> {
    match decode_outcome(lim, buf) {
        Outcome::Frame(_, n) => buf.skip(n),
        _ => buf,
    }
}

/// A decoder and encoder of frames, with the limits it enforces on what it
/// decodes.
#[derive(Debug, Clone, Copy, PartialEq, Eq)]
pub struct RespCodec {
    /// The bounds on what is decoded.
    pub limits: Limits,
}

impl RespCodec {
    /// A codec with the default limits.
    pub fn new() -> (r: RespCodec)
        ensures
            r.limits == Limits::standard(),
    {
        RespCodec { limits: Limits::default() }
    }

    /// A codec with the given limits.
    pub fn with_limits(limits: Limits) -> (r: RespCodec)
        ensures
            r.limits == limits,
    {
        RespCodec { limits }
    }

    /// Tries to decode one frame from the front of the receive buffer.
    ///
    /// - `Ok(Some(frame))`: a whole frame stood at the front; exactly its
    ///   bytes are removed from the buffer.
    /// - `Ok(None)`: no frame yet, because the buffer is empty or ends
    ///   before the frame does. The buffer is untouched, and the next call,
    ///   once more bytes have been appended, starts again at the front.
    /// - `Err(e)`: a protocol violation, never [`Error::Truncated`]. The
    ///   buffer is untouched; nothing is skipped to find a later frame.
    pub fn decode(&mut self, src: &mut BytesMut) -> (r: Result<Option<RespFrame>, Error>)
        ensures
            *final(self) == *old(self),
            buffer_contents(*final(src)) == buffer_after(
                old(self).limits,
                buffer_contents(*old(src)),
            ),
            match decode_outcome(old(self).limits, buffer_contents(*old(src))) {
                Outcome::Frame(f, _) => r matches Ok(Some(x)) && x@ == f,
                Outcome::NoFrameYet => r matches Ok(None),
                Outcome::Fatal(e) => r matches Err(x) && x == e && e.fatal(),
            },
    {
        let bytes = buffer_as_slice(src);
        if bytes.len() == 0 {
            return Ok(None);
        }
        let mut reader = Reader::new(bytes);
        match parse(&mut reader, &self.limits) {
            Ok(frame) => {
                let consumed = reader.position();
                if consumed > self.limits.max_frame_len {
                    Err(Error::FrameTooLarge)
                } else {
                    buffer_advance(src, consumed);
                    Ok(Some(frame))
                }
            },
            Err(Error::Truncated) => {
                if bytes.len() >= self.limits.max_frame_len {
                    Err(Error::InvalidFrame)
                } else {
                    Ok(None)
                }
            },
            Err(e) => Err(e),
        }
    }

    /// Appends the bytes of `item` to the send buffer.
    ///
    /// Fails with [`Error::InvalidPayload`] exactly when a simple string or
    /// an error text in `item`, at any depth, holds `\r` or `\n`, and with
    /// [`Error::FrameTooLarge`] when the buffer and the frame together would
    /// be longer than memory can address. A failure leaves the buffer
    /// untouched.
    pub fn encode(&mut self, item: &RespFrame, dst: &mut BytesMut) -> (r: Result<(), Error>)
        ensures
            *final(self) == *old(self),
            r == encode_result(item@, buffer_contents(*old(dst))),
            buffer_contents(*final(dst)) == if r is Ok {
                buffer_contents(*old(dst)) + encoding(item@)
            } else {
                buffer_contents(*old(dst))
            },
    {
        let bytes = match encode_frame(item) {
            Ok(bytes) => bytes,
            Err(e) => {
                return Err(e);
            },
        };
        let held = buffer_as_slice(dst).len();
        if held > usize::MAX - bytes.len() {
            return Err(Error::FrameTooLarge);
        }
        dst.extend_from_slice(bytes.as_slice());
        Ok(())
    }
}

/// Whether encoding `item` behind the bytes `held` succeeds, and why not
/// where it does not.
pub open spec fn encode_result(item: Frame, held: Seq<u8>) -> Result<(), Error> {
    if !item.encodable() {
        Err(Error::InvalidPayload)
    } else if held.len() + encoding(item).len() > usize::MAX {
        Err(Error::FrameTooLarge)
    } else {
        Ok(())
    }
}

impl Default for RespCodec {
    fn default() -> (r: RespCodec)
        ensures
            r.limits == Limits::standard(),
    {
        RespCodec::new()
    }
}

} // verus!

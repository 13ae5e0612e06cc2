//! Why decoding or encoding stopped.

use std::string::FromUtf8Error;
use vstd::prelude::*;
use vstd::std_specs::convert::FromSpecImpl;

verus! {

/// The ways in which decoding or encoding a frame can stop short.
///
/// [`Error::Truncated`] is the only one that more input can cure; every other
/// variant is a protocol violation after which the peer cannot be followed
/// any further.
#[derive(Debug, Clone, Copy, PartialEq, Eq)]
pub enum Error {
    /// The bytes at hand end before the frame does. Not a fault: wait for
    /// more input and decode again from the start of the frame.
    Truncated,
    /// A structural marker is malformed: a negative length other than `-1`, a
    /// text line that holds a stray `\r` or `\n` or is not UTF-8, a bulk
    /// payload without its terminator, arrays nested too deeply, or an
    /// unfinished frame that has outgrown the receive buffer's limit.
    InvalidFrame,
    /// Something other than a decimal number stands where an integer or a
    /// length is expected, or an integer does not fit in 64 bits.
    InvalidInteger,
    /// The frame starts with a byte that is no known type tag.
    UnknownType(u8),
    /// A simple string or error text handed to the encoder holds `\r` or
    /// `\n`.
    InvalidPayload,
    /// A declared bulk length, a declared element count or a whole frame
    /// exceeds the configured bound.
    FrameTooLarge,
}

impl Error {
    /// True for every variant but [`Error::Truncated`]: the failures that end
    /// a connection.
    pub open spec fn fatal(self) -> bool {
        self != Error::Truncated
    }

    /// The text that describes each variant.
    pub open spec fn message_text(self) -> Seq<char> {
        match self {
            Error::Truncated => "waiting for more data"@,
            Error::InvalidFrame => "protocol error; invalid frame format"@,
            Error::InvalidInteger => "protocol error; invalid number"@,
            Error::UnknownType(_) => "protocol error; unknown frame type"@,
            Error::InvalidPayload => "invalid payload; text holds a line terminator"@,
            Error::FrameTooLarge => "protocol error; frame too large"@,
        }
    }

    /// Whether this failure ends the connection.
    pub fn is_fatal(&self) -> (r: bool)
        ensures
            r == self.fatal(),
    {
        match self {
            Error::Truncated => false,
            _ => true,
        }
    }

    /// A human-readable description of the failure.
    pub fn message(&self) -> (r: String)
        ensures
            r@ == self.message_text(),
    {
        match self {
            Error::Truncated => "waiting for more data".to_owned(),
            Error::InvalidFrame => "protocol error; invalid frame format".to_owned(),
            Error::InvalidInteger => "protocol error; invalid number".to_owned(),
            Error::UnknownType(_) => "protocol error; unknown frame type".to_owned(),
            Error::InvalidPayload => "invalid payload; text holds a line terminator".to_owned(),
            Error::FrameTooLarge => "protocol error; frame too large".to_owned(),
        }
    }
}

/// Bytes that are not UTF-8 where a text is expected are a malformed frame.
impl From<FromUtf8Error> for Error {
    fn from(_src: FromUtf8Error) -> (r: Error) {
        Error::InvalidFrame
    }
}

impl FromSpecImpl<FromUtf8Error> for Error {
    open spec fn obeys_from_spec() -> bool {
        true
    }

    open spec fn from_spec(_src: FromUtf8Error) -> Error {
        Error::InvalidFrame
    }
}

} // verus!

//! The decisions of one connection: what to do with each thing that the
//! framed byte stream yields. Reading the socket and acting on the answer
//! are the caller's part.

use crate::error::Error;
use crate::frame::RespFrame;
use vstd::prelude::*;

verus! {

/// What the framed stream of a connection yields next.
#[derive(Debug)]
pub enum Event {
    /// A decoded frame.
    Frame(RespFrame),
    /// A failure of the decoder.
    Failure(Error),
    /// The peer has gone away; nothing more will come.
    End,
}

/// What the owner of the connection has to do next.
#[derive(Debug)]
pub enum Action {
    /// Hand the frame on to whoever dispatches commands, then read on.
    Deliver(RespFrame),
    /// Nothing to hand on; read on.
    Wait,
    /// Close the socket. The error, if there is one, is the protocol
    /// violation that made the connection unusable and should be logged.
    Close(Option<Error>),
}

/// The state of one connection.
#[derive(Debug)]
pub struct Connection {
    closed: bool,
}

/// What a connection answers to `event`, given whether it is closed
/// already.
///
/// A closed connection only ever answers that it is closed. An open one
/// hands every frame on, waits on [`Error::Truncated`] (which is no
/// failure of the peer), and closes on any other failure and at the end of
/// the stream.
pub open spec fn reaction(closed: bool, event: Event) -> Action {
    if closed {
        Action::Close(None)
    } else {
        match event {
            Event::Frame(frame) => Action::Deliver(frame),
            Event::Failure(e) => if e.fatal() {
                Action::Close(Some(e))
            } else {
                Action::Wait
            },
            Event::End => Action::Close(None),
        }
    }
}

impl Connection {
    /// Whether the connection has been closed.
    pub closed spec fn closed(self) -> bool {
        self.closed
    }

    /// An open connection.
    pub fn new() -> (r: Connection)
        ensures
            !r.closed(),
    {
        Connection { closed: false }
    }

    /// Whether the connection has been closed.
    pub fn is_closed(&self) -> (r: bool)
        ensures
            r == self.closed(),
    {
        self.closed
    }

    /// Decides what to do with `event`.
    ///
    /// The answer is [`reaction`]'s. The connection is closed afterwards
    /// exactly when the answer is [`Action::Close`], and once closed it
    /// stays closed.
    pub fn handle(&mut self, event: Event) -> (action: Action)
        ensures
            action == reaction(old(self).closed(), event),
            final(self).closed() == (action is Close),
    {
        if self.closed {
            return Action::Close(None);
        }
        match event {
            Event::Frame(frame) => Action::Deliver(frame),
            Event::Failure(e) => {
                if e.is_fatal() {
                    self.closed = true;
                    Action::Close(Some(e))
                } else {
                    Action::Wait
                }
            },
            Event::End => {
                self.closed = true;
                Action::Close(None)
            },
        }
    }
}

} // verus!

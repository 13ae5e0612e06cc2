//! The frame model: the values that travel over the wire.

use crate::bindings::bytes_contents;
use crate::limits::Limits;
use crate::text::text_clean;
use bytes::Bytes;
use vstd::prelude::*;

verus! {

/// One protocol unit as a mathematical value. This is what the contracts of
/// the codec speak of; [`RespFrame`] is its run-time representation.
pub enum Frame {
    /// A short status text, free of line terminators.
    SimpleString(Seq<char>),
    /// An error text, free of line terminators.
    Error(Seq<char>),
    /// A signed 64-bit integer.
    Integer(i64),
    /// A binary-safe payload of any bytes.
    BulkString(Seq<u8>),
    /// The absent bulk string.
    Null,
    /// The absent array.
    NullArray,
    /// An ordered sequence of frames, possibly empty, possibly nested.
    Array(Seq<Frame>),
}

impl Frame {
    /// True when the frame can be written to the wire: no simple string and
    /// no error text in it, at any depth, holds `\r` or `\n`.
    pub open spec fn encodable(self) -> bool
        decreases self,
    {
        match self {
            Frame::SimpleString(t) => text_clean(t),
            Frame::Error(t) => text_clean(t),
            Frame::Array(items) => forall|i: int|
                0 <= i < items.len() ==> (#[trigger] items[i]).encodable(),
            _ => true,
        }
    }

    /// True when the frame respects the limits with `depth` more levels of
    /// arrays open to it: no bulk string longer than `lim.max_bulk_len`, no
    /// array of more than `lim.max_array_len` elements, and arrays nested no
    /// deeper than `depth`.
    pub open spec fn fits(self, lim: Limits, depth: nat) -> bool
        decreases self,
    {
        match self {
            Frame::BulkString(b) => b.len() <= lim.max_bulk_len,
            Frame::Array(items) => {
                &&& depth > 0
                &&& items.len() <= lim.max_array_len
                &&& forall|i: int|
                    0 <= i < items.len() ==> (#[trigger] items[i]).fits(lim, (depth - 1) as nat)
            },
            _ => true,
        }
    }
}

/// One decoded or to-be-encoded protocol unit.
#[derive(Debug, PartialEq, Eq)]
pub enum RespFrame {
    /// A short status text; must not hold `\r` or `\n`.
    SimpleString(String),
    /// An error text; must not hold `\r` or `\n`.
    Error(String),
    /// A signed 64-bit integer.
    Integer(i64),
    /// A binary-safe payload of any bytes.
    BulkString(Bytes),
    /// The absent bulk string.
    Null,
    /// The absent array, distinct from [`RespFrame::Null`].
    NullArray,
    /// An ordered sequence of frames, possibly empty, possibly nested.
    Array(Vec<RespFrame>),
}

impl View for RespFrame {
    type V = Frame;

    open spec fn view(&self) -> Frame
        decreases self, 0nat,
    {
        match self {
            RespFrame::SimpleString(s) => Frame::SimpleString(s@),
            RespFrame::Error(s) => Frame::Error(s@),
            RespFrame::Integer(i) => Frame::Integer(*i),
            RespFrame::BulkString(b) => Frame::BulkString(bytes_contents(*b)),
            RespFrame::Null => Frame::Null,
            RespFrame::NullArray => Frame::NullArray,
            RespFrame::Array(items) => Frame::Array(models_first(*items, items.len() as nat)),
        }
    }
}

/// The models of the first `n` frames of `items`, in order.
pub open spec fn models_first(items: Vec<RespFrame>, n: nat) -> Seq<Frame>
    decreases items, n,
{
    if n == 0 || n > items.len() {
        Seq::empty()
    } else {
        models_first(items, (n - 1) as nat).push(items[n - 1]@)
    }
}

/// The models of the first `n` frames are `n` in number, and each is the
/// model of the frame at its index.
pub proof fn lemma_models_first(items: Vec<RespFrame>, n: nat)
    requires
        n <= items.len(),
    ensures
        models_first(items, n).len() == n,
        forall|k: int| 0 <= k < n ==> (#[trigger] models_first(items, n)[k]) == items[k]@,
    decreases n,
{
    if n > 0 {
        lemma_models_first(items, (n - 1) as nat);
        assert(models_first(items, n) == models_first(items, (n - 1) as nat).push(items[n - 1]@));
    } else {
        assert(models_first(items, 0) == Seq::<Frame>::empty());
    }
}

/// The model of an array frame is the array of its elements' models.
pub proof fn lemma_view_array(items: Vec<RespFrame>)
    ensures
        RespFrame::Array(items)@ is Array,
        RespFrame::Array(items)@->Array_0.len() == items.len(),
        forall|k: int|
            0 <= k < items.len() ==> (#[trigger] RespFrame::Array(items)@->Array_0[k])
                == items[k]@,
{
    lemma_models_first(items, items.len() as nat);
}

} // verus!

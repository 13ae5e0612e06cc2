//! How far the grammar looks: a frame is decided by its own bytes alone.
//!
//! The facts proved here are what makes incremental decoding sound. A frame
//! that is found ends within the bytes at hand; it is found again, the same,
//! in any byte sequence that agrees on the frame's own bytes; and every
//! sequence that stops short of the frame's end is reported as truncated.

use crate::error::Error;
use crate::grammar::frame_at;
use crate::grammar::header_at;
use crate::grammar::items_at;
use crate::frame::Frame;
use crate::grammar::TAG_ARRAY;
use crate::grammar::TAG_BULK;
use crate::grammar::TAG_ERROR;
use crate::grammar::TAG_INTEGER;
use crate::grammar::TAG_SIMPLE;
use crate::limits::Limits;
use crate::reader::first_crlf;
use crate::reader::is_crlf_at;
use crate::reader::lemma_first_crlf;
use crate::reader::lemma_first_crlf_is;
use vstd::prelude::*;

verus! {

/// True when `t` holds the same bytes as `s` at every index from `from` up
/// to, but not including, `to`.
pub open spec fn agree(s: Seq<u8>, t: Seq<u8>, from: int, to: int) -> bool {
    &&& to <= s.len()
    &&& to <= t.len()
    &&& forall|i: int| from <= i < to ==> s[i] == t[i]
}

/// A line that is found in `s` is found, the same, in any sequence that
/// agrees with `s` up to the end of the line's terminator.
pub proof fn lemma_line_local(s: Seq<u8>, t: Seq<u8>, from: int)
    requires
        0 <= from,
        first_crlf(s, from) matches Some(end) && agree(s, t, from, end + 2),
    ensures
        first_crlf(t, from) == first_crlf(s, from),
        s.subrange(from, first_crlf(s, from)->Some_0) == t.subrange(
            from,
            first_crlf(s, from)->Some_0,
        ),
{
    let end = first_crlf(s, from)->Some_0;
    lemma_first_crlf(s, from);
    assert forall|j: int| from <= j < end implies !is_crlf_at(t, j) by {
        assert(!is_crlf_at(s, j));
    }
    lemma_first_crlf_is(t, from, end);
    assert(s.subrange(from, end) =~= t.subrange(from, end));
}

/// A line whose terminator ends behind index `k` is not found in the first
/// `k` bytes.
pub proof fn lemma_line_cut(s: Seq<u8>, k: int, from: int)
    requires
        0 <= from,
        0 <= k <= s.len(),
        first_crlf(s, from) matches Some(end) && k < end + 2,
    ensures
        first_crlf(s.subrange(0, k), from) is None,
{
    let end = first_crlf(s, from)->Some_0;
    let t = s.subrange(0, k);
    lemma_first_crlf(s, from);
    lemma_first_crlf(t, from);
    if first_crlf(t, from) is Some {
        let j = first_crlf(t, from)->Some_0;
        assert(is_crlf_at(t, j));
        assert(is_crlf_at(s, j));
    }
}

/// A header that is found ends within the bytes at hand, behind where it
/// starts.
pub proof fn lemma_header_bounds(s: Seq<u8>, from: int, max: usize)
    requires
        0 <= from,
        header_at(s, from, max) is Ok,
    ensures
        from + 2 <= header_at(s, from, max)->Ok_0.1 <= s.len(),
        first_crlf(s, from) == Some(header_at(s, from, max)->Ok_0.1 - 2),
        header_at(s, from, max)->Ok_0.0 matches Some(n) ==> n <= max,
{
    lemma_first_crlf(s, from);
}

/// A header that is found is found, the same, in any sequence that agrees
/// with `s` on the header's bytes.
pub proof fn lemma_header_local(s: Seq<u8>, t: Seq<u8>, from: int, max: usize)
    requires
        0 <= from,
        header_at(s, from, max) matches Ok((_, end)) && agree(s, t, from, end),
    ensures
        header_at(t, from, max) == header_at(s, from, max),
{
    lemma_header_bounds(s, from, max);
    lemma_line_local(s, t, from);
}

/// A header that ends behind index `k` is reported as truncated in the
/// first `k` bytes.
pub proof fn lemma_header_cut(s: Seq<u8>, k: int, from: int, max: usize)
    requires
        0 <= from,
        0 <= k <= s.len(),
        header_at(s, from, max) matches Ok((_, end)) && k < end,
    ensures
        header_at(s.subrange(0, k), from, max) == Err::<(Option<usize>, int), Error>(
            Error::Truncated,
        ),
{
    lemma_header_bounds(s, from, max);
    lemma_line_cut(s, k, from);
}

/// A frame that is found ends within the bytes at hand, behind where it
/// starts.
pub proof fn lemma_frame_bounds(s: Seq<u8>, pos: int, lim: Limits, depth: nat)
    requires
        0 <= pos,
        frame_at(s, pos, lim, depth) is Ok,
    ensures
        pos < frame_at(s, pos, lim, depth)->Ok_0.1 <= s.len(),
    decreases depth, 0nat,
{
    lemma_first_crlf(s, pos + 1);
    if s[pos] == TAG_BULK {
        lemma_header_bounds(s, pos + 1, lim.max_bulk_len);
    } else if s[pos] == TAG_ARRAY {
        lemma_header_bounds(s, pos + 1, lim.max_array_len);
        let (h, p) = header_at(s, pos + 1, lim.max_array_len)->Ok_0;
        if let Some(n) = h {
            lemma_items_bounds(s, p, n as nat, lim, (depth - 1) as nat);
        }
    }
}

/// A run of frames that is found ends within the bytes at hand, at or
/// behind where it starts, and holds as many frames as were asked for.
pub proof fn lemma_items_bounds(s: Seq<u8>, pos: int, count: nat, lim: Limits, depth: nat)
    requires
        0 <= pos <= s.len(),
        items_at(s, pos, count, lim, depth) is Ok,
    ensures
        pos <= items_at(s, pos, count, lim, depth)->Ok_0.1 <= s.len(),
        items_at(s, pos, count, lim, depth)->Ok_0.0.len() == count,
    decreases depth, count + 1,
{
    if count > 0 {
        lemma_items_bounds(s, pos, (count - 1) as nat, lim, depth);
        let (init, p) = items_at(s, pos, (count - 1) as nat, lim, depth)->Ok_0;
        lemma_frame_bounds(s, p, lim, depth);
    }
}

/// A frame that is found is found, the same, in any sequence that agrees
/// with `s` on the frame's own bytes: nothing before and nothing behind the
/// frame has a say.
pub proof fn lemma_frame_local(s: Seq<u8>, t: Seq<u8>, pos: int, lim: Limits, depth: nat)
    requires
        0 <= pos,
        frame_at(s, pos, lim, depth) matches Ok((_, end)) && agree(s, t, pos, end),
    ensures
        frame_at(t, pos, lim, depth) == frame_at(s, pos, lim, depth),
    decreases depth, 0nat,
{
    lemma_frame_bounds(s, pos, lim, depth);
    let end = frame_at(s, pos, lim, depth)->Ok_0.1;
    assert(s[pos] == t[pos]);
    let tag = s[pos];
    if tag == TAG_SIMPLE || tag == TAG_ERROR || tag == TAG_INTEGER {
        lemma_first_crlf(s, pos + 1);
        lemma_line_local(s, t, pos + 1);
    } else if tag == TAG_BULK {
        lemma_header_bounds(s, pos + 1, lim.max_bulk_len);
        lemma_header_local(s, t, pos + 1, lim.max_bulk_len);
        let (h, p) = header_at(s, pos + 1, lim.max_bulk_len)->Ok_0;
        if let Some(n) = h {
            assert(s.subrange(p, p + n) =~= t.subrange(p, p + n));
        }
    } else if tag == TAG_ARRAY {
        lemma_header_bounds(s, pos + 1, lim.max_array_len);
        let (h, p) = header_at(s, pos + 1, lim.max_array_len)->Ok_0;
        if let Some(n) = h {
            lemma_items_bounds(s, p, n as nat, lim, (depth - 1) as nat);
            lemma_header_local(s, t, pos + 1, lim.max_array_len);
            lemma_items_local(s, t, p, n as nat, lim, (depth - 1) as nat);
        } else {
            lemma_header_local(s, t, pos + 1, lim.max_array_len);
        }
    }
}

/// A run of frames that is found is found, the same, in any sequence that
/// agrees with `s` on the run's own bytes.
pub proof fn lemma_items_local(
    s: Seq<u8>,
    t: Seq<u8>,
    pos: int,
    count: nat,
    lim: Limits,
    depth: nat,
)
    requires
        0 <= pos <= s.len(),
        items_at(s, pos, count, lim, depth) matches Ok((_, end)) && agree(s, t, pos, end),
    ensures
        items_at(t, pos, count, lim, depth) == items_at(s, pos, count, lim, depth),
    decreases depth, count + 1,
{
    if count > 0 {
        let (init, p) = items_at(s, pos, (count - 1) as nat, lim, depth)->Ok_0;
        lemma_items_bounds(s, pos, (count - 1) as nat, lim, depth);
        lemma_frame_bounds(s, p, lim, depth);
        lemma_items_local(s, t, pos, (count - 1) as nat, lim, depth);
        lemma_frame_local(s, t, p, lim, depth);
    }
}

/// A frame that ends behind index `k` is reported as truncated in the
/// first `k` bytes: while bytes of a frame are missing, the answer is to
/// wait, whatever the bytes at hand are.
pub proof fn lemma_frame_cut(s: Seq<u8>, k: int, pos: int, lim: Limits, depth: nat)
    requires
        0 <= pos,
        0 <= k <= s.len(),
        frame_at(s, pos, lim, depth) matches Ok((_, end)) && k < end,
    ensures
        frame_at(s.subrange(0, k), pos, lim, depth) == Err::<(Frame, int), Error>(
            Error::Truncated,
        ),
    decreases depth, 0nat,
{
    let t = s.subrange(0, k);
    lemma_frame_bounds(s, pos, lim, depth);
    if pos < k {
        assert(t[pos] == s[pos]);
        let tag = s[pos];
        if tag == TAG_SIMPLE || tag == TAG_ERROR || tag == TAG_INTEGER {
            lemma_line_cut(s, k, pos + 1);
        } else if tag == TAG_BULK {
            lemma_header_bounds(s, pos + 1, lim.max_bulk_len);
            let (h, p) = header_at(s, pos + 1, lim.max_bulk_len)->Ok_0;
            if k < p {
                lemma_header_cut(s, k, pos + 1, lim.max_bulk_len);
            } else {
                lemma_header_local(s, t, pos + 1, lim.max_bulk_len);
            }
        } else if tag == TAG_ARRAY {
            lemma_header_bounds(s, pos + 1, lim.max_array_len);
            let (h, p) = header_at(s, pos + 1, lim.max_array_len)->Ok_0;
            if k < p {
                lemma_header_cut(s, k, pos + 1, lim.max_array_len);
            } else {
                lemma_header_local(s, t, pos + 1, lim.max_array_len);
                let n = h->Some_0;
                lemma_items_cut(s, k, p, n as nat, lim, (depth - 1) as nat);
            }
        }
    }
}

/// A run of frames that ends behind index `k` is reported as truncated in
/// the first `k` bytes.
pub proof fn lemma_items_cut(s: Seq<u8>, k: int, pos: int, count: nat, lim: Limits, depth: nat)
    requires
        0 <= pos <= k <= s.len(),
        items_at(s, pos, count, lim, depth) matches Ok((_, end)) && k < end,
    ensures
        items_at(s.subrange(0, k), pos, count, lim, depth) == Err::<(Seq<Frame>, int), Error>(
            Error::Truncated,
        ),
    decreases depth, count + 1,
{
    let t = s.subrange(0, k);
    if count > 0 {
        let (init, p) = items_at(s, pos, (count - 1) as nat, lim, depth)->Ok_0;
        lemma_items_bounds(s, pos, (count - 1) as nat, lim, depth);
        if k < p {
            lemma_items_cut(s, k, pos, (count - 1) as nat, lim, depth);
        } else {
            lemma_items_local(s, t, pos, (count - 1) as nat, lim, depth);
            lemma_frame_cut(s, k, p, lim, depth);
        }
    }
}

/// True when `t` starts with all the bytes of `s`.
pub open spec fn extends(t: Seq<u8>, s: Seq<u8>) -> bool {
    s.len() <= t.len() && t.subrange(0, s.len() as int) == s
}

/// Where `t` starts with all the bytes of `s`, the two agree on every range
/// within `s`.
pub proof fn lemma_extends_agree(s: Seq<u8>, t: Seq<u8>, from: int, to: int)
    requires
        extends(t, s),
        0 <= from,
        to <= s.len(),
    ensures
        agree(s, t, from, to),
{
    assert forall|i: int| from <= i < to implies s[i] == t[i] by {
        assert(t.subrange(0, s.len() as int)[i] == t[i]);
    }
}

/// A malformed header stays malformed, in the same way, whatever bytes
/// arrive behind the bytes at hand.
pub proof fn lemma_header_failure_extends(s: Seq<u8>, t: Seq<u8>, from: int, max: usize)
    requires
        0 <= from,
        extends(t, s),
        header_at(s, from, max) matches Err(e) && e != Error::Truncated,
    ensures
        header_at(t, from, max) == header_at(s, from, max),
{
    lemma_first_crlf(s, from);
    let end = first_crlf(s, from)->Some_0;
    lemma_extends_agree(s, t, from, end + 2);
    lemma_line_local(s, t, from);
}

/// A protocol violation stays one: a frame that is malformed in the bytes at
/// hand is malformed, in the same way, whatever bytes arrive behind them.
pub proof fn lemma_frame_failure_extends(
    s: Seq<u8>,
    t: Seq<u8>,
    pos: int,
    lim: Limits,
    depth: nat,
)
    requires
        0 <= pos,
        extends(t, s),
        frame_at(s, pos, lim, depth) matches Err(e) && e != Error::Truncated,
    ensures
        frame_at(t, pos, lim, depth) == frame_at(s, pos, lim, depth),
    decreases depth, 0nat,
{
    lemma_extends_agree(s, t, pos, pos + 1);
    let tag = s[pos];
    if tag == TAG_SIMPLE || tag == TAG_ERROR || tag == TAG_INTEGER {
        lemma_first_crlf(s, pos + 1);
        let end = first_crlf(s, pos + 1)->Some_0;
        lemma_extends_agree(s, t, pos + 1, end + 2);
        lemma_line_local(s, t, pos + 1);
    } else if tag == TAG_BULK {
        if header_at(s, pos + 1, lim.max_bulk_len) is Err {
            lemma_header_failure_extends(s, t, pos + 1, lim.max_bulk_len);
        } else {
            lemma_header_bounds(s, pos + 1, lim.max_bulk_len);
            let (h, p) = header_at(s, pos + 1, lim.max_bulk_len)->Ok_0;
            lemma_extends_agree(s, t, pos + 1, p);
            lemma_header_local(s, t, pos + 1, lim.max_bulk_len);
            let n = h->Some_0;
            lemma_extends_agree(s, t, p, p + n + 2);
        }
    } else if tag == TAG_ARRAY {
        if header_at(s, pos + 1, lim.max_array_len) is Err {
            lemma_header_failure_extends(s, t, pos + 1, lim.max_array_len);
        } else {
            lemma_header_bounds(s, pos + 1, lim.max_array_len);
            let (h, p) = header_at(s, pos + 1, lim.max_array_len)->Ok_0;
            lemma_extends_agree(s, t, pos + 1, p);
            lemma_header_local(s, t, pos + 1, lim.max_array_len);
            if depth > 0 {
                let n = h->Some_0;
                lemma_items_failure_extends(s, t, p, n as nat, lim, (depth - 1) as nat);
            }
        }
    }
}

/// A run of frames that is malformed in the bytes at hand is malformed, in
/// the same way, whatever bytes arrive behind them.
pub proof fn lemma_items_failure_extends(
    s: Seq<u8>,
    t: Seq<u8>,
    pos: int,
    count: nat,
    lim: Limits,
    depth: nat,
)
    requires
        0 <= pos <= s.len(),
        extends(t, s),
        items_at(s, pos, count, lim, depth) matches Err(e) && e != Error::Truncated,
    ensures
        items_at(t, pos, count, lim, depth) == items_at(s, pos, count, lim, depth),
    decreases depth, count + 1,
{
    if count > 0 {
        if items_at(s, pos, (count - 1) as nat, lim, depth) is Err {
            lemma_items_failure_extends(s, t, pos, (count - 1) as nat, lim, depth);
        } else {
            let (init, p) = items_at(s, pos, (count - 1) as nat, lim, depth)->Ok_0;
            lemma_items_bounds(s, pos, (count - 1) as nat, lim, depth);
            lemma_extends_agree(s, t, pos, p);
            lemma_items_local(s, t, pos, (count - 1) as nat, lim, depth);
            lemma_frame_failure_extends(s, t, p, lim, depth);
        }
    }
}

} // verus!

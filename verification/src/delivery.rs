//! What a receive buffer that fills up chunk by chunk delivers.
//!
//! The theorems here speak of [`decode_outcome`] and [`buffer_after`], the
//! functions by which [`RespCodec::decode`](crate::codec::RespCodec::decode)
//! states what it returns and what it leaves in the buffer.

use crate::codec::buffer_after;
use crate::codec::decode_outcome;
use crate::codec::Outcome;
use crate::encoder::encoding;
use crate::error::Error;
use crate::frame::Frame;
use crate::limits::Limits;
use crate::grammar::frame_at;
use crate::locality::agree;
use crate::locality::lemma_extends_agree;
use crate::locality::lemma_frame_bounds;
use crate::locality::lemma_frame_failure_extends;
use crate::locality::lemma_frame_local;
use crate::locality::lemma_frame_cut;
use crate::roundtrip::holds_at;
use crate::roundtrip::lemma_found_is_valid;
use crate::roundtrip::lemma_round_trip;
use vstd::prelude::*;

verus! {

/// True when a codec with the limits `lim` accepts the frame `f` from the
/// wire: it can be encoded, it respects the bounds on nesting, on bulk
/// lengths and on element counts, and its encoding is no longer than the
/// largest frame allowed.
pub open spec fn acceptable(f: Frame, lim: Limits) -> bool {
    &&& f.encodable()
    &&& f.fits(lim, lim.max_depth as nat)
    &&& encoding(f).len() <= lim.max_frame_len
}

/// The bytes of all chunks, one behind the other.
pub open spec fn joined(chunks: Seq<Seq<u8>>) -> Seq<u8>
    decreases chunks.len(),
{
    if chunks.len() == 0 {
        Seq::empty()
    } else {
        joined(chunks.drop_last()) + chunks.last()
    }
}

/// What a receive buffer that holds `buf` delivers while `chunks` arrive
/// one at a time, with one attempt to decode after each: the outcome of
/// every attempt, in order, and what the buffer holds in the end.
pub open spec fn feed(lim: Limits, buf: Seq<u8>, chunks: Seq<Seq<u8>>) -> (Seq<Outcome>, Seq<u8>)
    decreases chunks.len(),
{
    if chunks.len() == 0 {
        (Seq::empty(), buf)
    } else {
        let (outcomes, held) = feed(lim, buf, chunks.drop_last());
        let filled = held + chunks.last();
        (outcomes.push(decode_outcome(lim, filled)), buffer_after(lim, filled))
    }
}

/// What a receive buffer that holds `buf` holds after `n` attempts to
/// decode with nothing arriving in between.
pub open spec fn after_attempts(lim: Limits, buf: Seq<u8>, n: nat) -> Seq<u8>
    decreases n,
{
    if n == 0 {
        buf
    } else {
        buffer_after(lim, after_attempts(lim, buf, (n - 1) as nat))
    }
}

/// No frame has an empty encoding.
pub proof fn lemma_encoding_nonempty(f: Frame)
    ensures
        encoding(f).len() >= 1,
{
}

/// Decoding undoes encoding: a buffer that starts with the bytes of an
/// acceptable frame delivers exactly that frame, and exactly those bytes
/// leave the buffer.
pub proof fn theorem_decode_encoded(f: Frame, lim: Limits, rest: Seq<u8>)
    requires
        acceptable(f, lim),
    ensures
        decode_outcome(lim, encoding(f) + rest) == Outcome::Frame(f, encoding(f).len() as int),
        buffer_after(lim, encoding(f) + rest) == rest,
{
    let e = encoding(f);
    let buf = e + rest;
    lemma_encoding_nonempty(f);
    assert forall|i: int| 0 <= i < e.len() implies buf[0 + i] == #[trigger] e[i] by {}
    assert(holds_at(buf, 0, e));
    lemma_round_trip(f, buf, 0, lim, lim.max_depth as nat);
    assert(buf.skip(e.len() as int) =~= rest);
}

/// While bytes of a frame are missing the answer is to wait: where a
/// buffer delivers a frame, a buffer that holds only a proper prefix of the
/// frame's bytes delivers nothing, reports no failure and is left as it is.
pub proof fn theorem_partial_waits(lim: Limits, buf: Seq<u8>, k: int)
    requires
        decode_outcome(lim, buf) matches Outcome::Frame(_, n) && 0 <= k < n,
    ensures
        decode_outcome(lim, buf.subrange(0, k)) == Outcome::NoFrameYet,
        buffer_after(lim, buf.subrange(0, k)) == buf.subrange(0, k),
{
    lemma_frame_bounds(buf, 0, lim, lim.max_depth as nat);
    if k > 0 {
        lemma_frame_cut(buf, k, 0, lim, lim.max_depth as nat);
    }
}

/// The bytes of the first `m` chunks are the first bytes of all the chunks
/// joined, and fewer than all of them where a non-empty chunk is still to
/// come.
pub proof fn lemma_joined_prefix(chunks: Seq<Seq<u8>>, m: int)
    requires
        0 <= m <= chunks.len(),
        forall|i: int| 0 <= i < chunks.len() ==> (#[trigger] chunks[i]).len() > 0,
    ensures
        joined(chunks.subrange(0, m)).len() <= joined(chunks).len(),
        joined(chunks.subrange(0, m)) == joined(chunks).subrange(
            0,
            joined(chunks.subrange(0, m)).len() as int,
        ),
        m < chunks.len() ==> joined(chunks.subrange(0, m)).len() < joined(chunks).len(),
    decreases chunks.len() - m,
{
    if m == chunks.len() {
        assert(chunks.subrange(0, m) =~= chunks);
        assert(joined(chunks) =~= joined(chunks).subrange(0, joined(chunks).len() as int));
    } else {
        lemma_joined_prefix(chunks, m + 1);
        let longer = chunks.subrange(0, m + 1);
        assert(longer.drop_last() =~= chunks.subrange(0, m));
        assert(longer.last() == chunks[m]);
        let a = joined(chunks.subrange(0, m));
        assert(joined(longer) == a + chunks[m]);
        assert(a =~= joined(chunks).subrange(0, a.len() as int));
    }
}

/// Incremental delivery: however the bytes of one frame are cut into
/// non-empty chunks, feeding the chunks one at a time to an empty buffer
/// delivers nothing and reports no failure until the last chunk has
/// arrived, then delivers exactly what decoding all the bytes at once
/// delivers, and leaves the buffer empty.
pub proof fn theorem_incremental_delivery(lim: Limits, chunks: Seq<Seq<u8>>)
    requires
        forall|i: int| 0 <= i < chunks.len() ==> (#[trigger] chunks[i]).len() > 0,
        decode_outcome(lim, joined(chunks)) matches Outcome::Frame(_, n) && n == joined(
            chunks,
        ).len(),
    ensures
        chunks.len() > 0,
        feed(lim, Seq::empty(), chunks).0.len() == chunks.len(),
        forall|i: int|
            0 <= i < chunks.len() - 1 ==> (#[trigger] feed(lim, Seq::empty(), chunks).0[i])
                == Outcome::NoFrameYet,
        feed(lim, Seq::empty(), chunks).0.last() == decode_outcome(lim, joined(chunks)),
        feed(lim, Seq::empty(), chunks).1 == Seq::<u8>::empty(),
{
    let n = chunks.len() as int;
    let head = chunks.drop_last();
    assert(head =~= chunks.subrange(0, n - 1));
    lemma_waiting_chunks(lim, chunks, n - 1);
    let (outcomes, held) = feed(lim, Seq::empty(), head);
    let filled = held + chunks.last();
    assert(filled == joined(chunks));
    assert(filled.skip(filled.len() as int) =~= Seq::<u8>::empty());
    let all = feed(lim, Seq::empty(), chunks).0;
    assert forall|i: int| 0 <= i < chunks.len() - 1 implies (#[trigger] all[i])
        == Outcome::NoFrameYet by {
        assert(all[i] == outcomes[i]);
    }
}

/// While chunks of one frame are still to come, every attempt to decode
/// answers to wait, and the buffer holds all the bytes that have arrived.
pub proof fn lemma_waiting_chunks(lim: Limits, chunks: Seq<Seq<u8>>, m: int)
    requires
        forall|i: int| 0 <= i < chunks.len() ==> (#[trigger] chunks[i]).len() > 0,
        decode_outcome(lim, joined(chunks)) matches Outcome::Frame(_, n) && n == joined(
            chunks,
        ).len(),
        0 <= m < chunks.len(),
    ensures
        feed(lim, Seq::empty(), chunks.subrange(0, m)).0.len() == m,
        forall|i: int|
            0 <= i < m ==> (#[trigger] feed(lim, Seq::empty(), chunks.subrange(0, m)).0[i])
                == Outcome::NoFrameYet,
        feed(lim, Seq::empty(), chunks.subrange(0, m)).1 == joined(chunks.subrange(0, m)),
    decreases m,
{
    let part = chunks.subrange(0, m);
    if m > 0 {
        lemma_waiting_chunks(lim, chunks, m - 1);
        assert(part.drop_last() =~= chunks.subrange(0, m - 1));
        assert(part.last() == chunks[m - 1]);
        let (outcomes, held) = feed(lim, Seq::empty(), part.drop_last());
        let filled = held + part.last();
        assert(filled == joined(part));
        lemma_joined_prefix(chunks, m);
        theorem_partial_waits(lim, joined(chunks), filled.len() as int);
        let all = feed(lim, Seq::empty(), part).0;
        assert forall|i: int| 0 <= i < m implies (#[trigger] all[i]) == Outcome::NoFrameYet by {
            if i < m - 1 {
                assert(all[i] == outcomes[i]);
            }
        }
    }
}

/// Incremental delivery of what the encoder writes: however the encoding of
/// an acceptable frame is cut into non-empty chunks, feeding the chunks one
/// at a time to an empty buffer delivers nothing and reports no failure
/// until the last chunk has arrived, and then delivers exactly that frame.
pub proof fn theorem_encoded_delivery(f: Frame, lim: Limits, chunks: Seq<Seq<u8>>)
    requires
        acceptable(f, lim),
        forall|i: int| 0 <= i < chunks.len() ==> (#[trigger] chunks[i]).len() > 0,
        joined(chunks) == encoding(f),
    ensures
        chunks.len() > 0,
        feed(lim, Seq::empty(), chunks).0.len() == chunks.len(),
        forall|i: int|
            0 <= i < chunks.len() - 1 ==> (#[trigger] feed(lim, Seq::empty(), chunks).0[i])
                == Outcome::NoFrameYet,
        feed(lim, Seq::empty(), chunks).0.last() == Outcome::Frame(f, encoding(f).len() as int),
        feed(lim, Seq::empty(), chunks).1 == Seq::<u8>::empty(),
{
    theorem_decode_encoded(f, lim, Seq::empty());
    assert(encoding(f) + Seq::<u8>::empty() =~= encoding(f));
    theorem_incremental_delivery(lim, chunks);
}

/// Waiting changes nothing: where an attempt to decode finds no frame yet,
/// any number of further attempts with nothing arriving in between find the
/// buffer as it was and answer the same.
pub proof fn theorem_waiting_is_idempotent(lim: Limits, buf: Seq<u8>, n: nat)
    requires
        decode_outcome(lim, buf) == Outcome::NoFrameYet,
    ensures
        after_attempts(lim, buf, n) == buf,
        decode_outcome(lim, after_attempts(lim, buf, n)) == Outcome::NoFrameYet,
    decreases n,
{
    if n > 0 {
        theorem_waiting_is_idempotent(lim, buf, (n - 1) as nat);
    }
}

/// What is delivered is valid: a frame that an attempt to decode hands out
/// can be encoded, respects the limits, and took up at least one byte and no
/// more bytes than the buffer held or the largest frame may.
pub proof fn theorem_delivered_is_valid(lim: Limits, buf: Seq<u8>)
    requires
        decode_outcome(lim, buf) is Frame,
    ensures
        decode_outcome(lim, buf)->Frame_0.encodable(),
        decode_outcome(lim, buf)->Frame_0.fits(lim, lim.max_depth as nat),
        0 < decode_outcome(lim, buf)->Frame_1 <= buf.len(),
        decode_outcome(lim, buf)->Frame_1 <= lim.max_frame_len,
{
    lemma_found_is_valid(buf, 0, lim, lim.max_depth as nat);
    lemma_frame_bounds(buf, 0, lim, lim.max_depth as nat);
}

/// What is decided stays decided: once an attempt to decode has delivered a
/// frame or reported a protocol violation, no bytes that arrive behind those
/// at hand change the answer. A frame is delivered again, the same; a
/// violation stays a violation. Only an answer to wait can change.
pub proof fn theorem_decided_stays_decided(lim: Limits, buf: Seq<u8>, more: Seq<u8>)
    ensures
        decode_outcome(lim, buf) is Frame ==> decode_outcome(lim, buf + more) == decode_outcome(
            lim,
            buf,
        ),
        decode_outcome(lim, buf) is Fatal ==> decode_outcome(lim, buf + more) is Fatal,
{
    let t = buf + more;
    let depth = lim.max_depth as nat;
    assert(t.subrange(0, buf.len() as int) =~= buf);
    if decode_outcome(lim, buf) is Frame {
        lemma_frame_bounds(buf, 0, lim, depth);
        let end = frame_at(buf, 0, lim, depth)->Ok_0.1;
        lemma_extends_agree(buf, t, 0, end);
        lemma_frame_local(buf, t, 0, lim, depth);
    } else if decode_outcome(lim, buf) is Fatal {
        match frame_at(buf, 0, lim, depth) {
            Ok((_, end)) => {
                lemma_frame_bounds(buf, 0, lim, depth);
                lemma_extends_agree(buf, t, 0, end);
                lemma_frame_local(buf, t, 0, lim, depth);
            },
            Err(Error::Truncated) => {
                if let Ok((_, end)) = frame_at(t, 0, lim, depth) {
                    if end <= buf.len() {
                        lemma_extends_agree(buf, t, 0, end);
                        assert(agree(t, buf, 0, end));
                        lemma_frame_local(t, buf, 0, lim, depth);
                    }
                }
            },
            Err(e) => {
                lemma_frame_failure_extends(buf, t, 0, lim, depth);
            },
        }
    }
}

/// A protocol violation consumes nothing: where an attempt to decode ends
/// in a failure, the buffer is left as it was, and the failure is never
/// [`Error::Truncated`].
pub proof fn theorem_failure_consumes_nothing(lim: Limits, buf: Seq<u8>)
    requires
        decode_outcome(lim, buf) is Fatal,
    ensures
        buffer_after(lim, buf) == buf,
        decode_outcome(lim, buf)->Fatal_0 != Error::Truncated,
{
}

} // verus!

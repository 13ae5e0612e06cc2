//! Decoding undoes encoding: the bytes that the encoder writes for a frame
//! are read back as that frame, wherever they stand and whatever follows
//! them.

use crate::decimal::is_digit;
use crate::decimal::lemma_decimal_bytes;
use crate::decimal::lemma_int_digits;
use crate::decimal::lemma_nat_digits;
use crate::decimal::int_digits;
use crate::decimal::nat_digits;
use crate::decimal::MINUS;
use crate::encoder::crlf;
use crate::encoder::encoding;
use crate::encoder::encoding_first;
use crate::error::Error;
use crate::frame::Frame;
use crate::grammar::frame_at;
use crate::grammar::header_at;
use crate::grammar::items_at;
use crate::grammar::text_at;
use crate::grammar::ONE;
use crate::grammar::TAG_ARRAY;
use crate::grammar::TAG_BULK;
use crate::grammar::TAG_ERROR;
use crate::grammar::TAG_INTEGER;
use crate::grammar::TAG_SIMPLE;
use crate::limits::Limits;
use crate::locality::lemma_header_bounds;
use crate::locality::lemma_items_bounds;
use crate::text::lemma_text_of;
use crate::reader::first_crlf;
use crate::reader::is_crlf_at;
use crate::reader::lemma_first_crlf_is;
use crate::reader::CR;
use crate::reader::LF;
use crate::text::lemma_clean_encoding;
use crate::text::lemma_text_of_encoding;
use crate::text::text_clean;
use vstd::prelude::*;
use vstd::utf8::encode_utf8;

verus! {

/// True when the bytes `e` stand in `s` from index `pos` on.
pub open spec fn holds_at(s: Seq<u8>, pos: int, e: Seq<u8>) -> bool {
    &&& 0 <= pos
    &&& pos + e.len() <= s.len()
    &&& forall|i: int| 0 <= i < e.len() ==> s[pos + i] == #[trigger] e[i]
}

/// Where a concatenation stands, its two parts stand one behind the other.
pub proof fn lemma_holds_split(s: Seq<u8>, pos: int, a: Seq<u8>, b: Seq<u8>)
    requires
        holds_at(s, pos, a + b),
    ensures
        holds_at(s, pos, a),
        holds_at(s, pos + a.len(), b),
{
    let e = a + b;
    assert forall|i: int| 0 <= i < a.len() implies s[pos + i] == #[trigger] a[i] by {
        assert(e[i] == a[i]);
    }
    assert forall|i: int| 0 <= i < b.len() implies s[pos + a.len() + i] == #[trigger] b[i] by {
        assert(e[a.len() + i] == b[i]);
    }
}

/// A run of bytes without `\r`, followed by a line terminator, is the line
/// that is found where the run starts.
pub proof fn lemma_line_at(s: Seq<u8>, from: int, line: Seq<u8>)
    requires
        holds_at(s, from, line),
        holds_at(s, from + line.len(), crlf()),
        forall|i: int| 0 <= i < line.len() ==> (#[trigger] line[i]) != CR,
    ensures
        first_crlf(s, from) == Some(from + line.len()),
        s.subrange(from, from + line.len()) == line,
{
    let end = from + line.len();
    assert(crlf()[0] == CR && crlf()[1] == LF);
    assert(s[end + 0] == CR && s[end + 1] == LF);
    assert forall|j: int| from <= j < end implies !is_crlf_at(s, j) by {
        assert(s[from + (j - from)] == line[j - from]);
    }
    lemma_first_crlf_is(s, from, end);
    assert forall|i: int| 0 <= i < line.len() implies s.subrange(from, end)[i] == line[i] by {
        assert(s[from + i] == line[i]);
    }
    assert(s.subrange(from, end) =~= line);
}

/// The length line that the encoder writes for `n` is read back as `n`,
/// where `n` is within the bound.
pub proof fn lemma_header_round_trip(s: Seq<u8>, from: int, n: nat, max: usize)
    requires
        holds_at(s, from, nat_digits(n)),
        holds_at(s, from + nat_digits(n).len(), crlf()),
        n <= max,
    ensures
        header_at(s, from, max) == Ok::<(Option<usize>, int), Error>(
            (Some(n as usize), from + nat_digits(n).len() + 2),
        ),
{
    let d = nat_digits(n);
    lemma_nat_digits(n);
    assert forall|i: int| 0 <= i < d.len() implies (#[trigger] d[i]) != CR by {
        assert(is_digit(d[i]));
    }
    lemma_line_at(s, from, d);
    assert(is_digit(d[0]));
    assert(s[from + 0] == d[0]);
}

/// The null marker that the encoder writes is read back as the absent
/// length.
pub proof fn lemma_null_round_trip(s: Seq<u8>, from: int, max: usize)
    requires
        holds_at(s, from, seq![MINUS, ONE, CR, LF]),
    ensures
        header_at(s, from, max) == Ok::<(Option<usize>, int), Error>((None, from + 4)),
{
    let e = seq![MINUS, ONE, CR, LF];
    let line = seq![MINUS, ONE];
    assert(e =~= line + crlf());
    lemma_holds_split(s, from, line, crlf());
    assert(line[0] == MINUS && line[1] == ONE);
    lemma_line_at(s, from, line);
    assert(s[from + 0] == line[0]);
}

/// The bytes that the encoder writes for a frame are read back as that
/// frame, and the frame ends where the bytes end.
///
/// This holds wherever the bytes stand and whatever surrounds them, for
/// every frame that can be encoded and respects the limits.
pub proof fn lemma_round_trip(f: Frame, s: Seq<u8>, pos: int, lim: Limits, depth: nat)
    requires
        f.encodable(),
        f.fits(lim, depth),
        holds_at(s, pos, encoding(f)),
    ensures
        frame_at(s, pos, lim, depth) == Ok::<(Frame, int), Error>((f, pos + encoding(f).len())),
    decreases f, 0nat,
{
    match f {
        Frame::SimpleString(t) => {
            lemma_text_round_trip(t, TAG_SIMPLE, s, pos);
        },
        Frame::Error(t) => {
            lemma_text_round_trip(t, TAG_ERROR, s, pos);
        },
        Frame::Integer(v) => {
            let d = int_digits(v as int);
            lemma_holds_split(s, pos, seq![TAG_INTEGER] + d, crlf());
            lemma_holds_split(s, pos, seq![TAG_INTEGER], d);
            assert(s[pos + 0] == seq![TAG_INTEGER][0]);
            lemma_int_digits(v as int);
            assert forall|i: int| 0 <= i < d.len() implies (#[trigger] d[i]) != CR by {
                lemma_decimal_bytes(d, i);
            }
            lemma_line_at(s, pos + 1, d);
        },
        Frame::BulkString(b) => {
            let d = nat_digits(b.len());
            lemma_holds_split(s, pos, seq![TAG_BULK] + d + crlf() + b, crlf());
            lemma_holds_split(s, pos, seq![TAG_BULK] + d + crlf(), b);
            lemma_holds_split(s, pos, seq![TAG_BULK] + d, crlf());
            lemma_holds_split(s, pos, seq![TAG_BULK], d);
            assert(s[pos + 0] == seq![TAG_BULK][0]);
            lemma_header_round_trip(s, pos + 1, b.len(), lim.max_bulk_len);
            let p = pos + 1 + d.len() + 2;
            assert(crlf()[0] == CR && crlf()[1] == LF);
            assert(s[p + b.len() + 0] == CR && s[p + b.len() + 1] == LF);
            assert forall|i: int| 0 <= i < b.len() implies s.subrange(p, p + b.len())[i]
                == b[i] by {
                assert(s[p + i] == b[i]);
            }
            assert(s.subrange(p, p + b.len()) =~= b);
        },
        Frame::Null => {
            let e = seq![TAG_BULK, MINUS, ONE, CR, LF];
            assert(e =~= seq![TAG_BULK] + seq![MINUS, ONE, CR, LF]);
            lemma_holds_split(s, pos, seq![TAG_BULK], seq![MINUS, ONE, CR, LF]);
            assert(s[pos + 0] == seq![TAG_BULK][0]);
            lemma_null_round_trip(s, pos + 1, lim.max_bulk_len);
        },
        Frame::NullArray => {
            let e = seq![TAG_ARRAY, MINUS, ONE, CR, LF];
            assert(e =~= seq![TAG_ARRAY] + seq![MINUS, ONE, CR, LF]);
            lemma_holds_split(s, pos, seq![TAG_ARRAY], seq![MINUS, ONE, CR, LF]);
            assert(s[pos + 0] == seq![TAG_ARRAY][0]);
            lemma_null_round_trip(s, pos + 1, lim.max_array_len);
        },
        Frame::Array(items) => {
            let d = nat_digits(items.len());
            let body = encoding_first(items, items.len());
            lemma_holds_split(s, pos, seq![TAG_ARRAY] + d + crlf(), body);
            lemma_holds_split(s, pos, seq![TAG_ARRAY] + d, crlf());
            lemma_holds_split(s, pos, seq![TAG_ARRAY], d);
            assert(s[pos + 0] == seq![TAG_ARRAY][0]);
            lemma_header_round_trip(s, pos + 1, items.len(), lim.max_array_len);
            let p = pos + 1 + d.len() + 2;
            lemma_items_round_trip(items, items.len(), s, p, lim, (depth - 1) as nat);
            assert(items.subrange(0, items.len() as int) =~= items);
        },
    }
}

/// The line that the encoder writes for a clean text is read back as that
/// text.
pub proof fn lemma_text_round_trip(t: Seq<char>, tag: u8, s: Seq<u8>, pos: int)
    requires
        text_clean(t),
        holds_at(s, pos, seq![tag] + encode_utf8(t) + crlf()),
    ensures
        s[pos] == tag,
        text_at(s, pos + 1) == Ok::<(Seq<char>, int), Error>(
            (t, pos + (seq![tag] + encode_utf8(t) + crlf()).len()),
        ),
{
    let u = encode_utf8(t);
    lemma_holds_split(s, pos, seq![tag] + u, crlf());
    lemma_holds_split(s, pos, seq![tag], u);
    assert(s[pos + 0] == seq![tag][0]);
    lemma_clean_encoding(t);
    lemma_text_of_encoding(t);
    lemma_line_at(s, pos + 1, u);
}

/// The bytes that the encoder writes for the first `n` frames of `items`
/// are read back as those frames, in order.
pub proof fn lemma_items_round_trip(
    items: Seq<Frame>,
    n: nat,
    s: Seq<u8>,
    pos: int,
    lim: Limits,
    depth: nat,
)
    requires
        n <= items.len(),
        forall|i: int| 0 <= i < n ==> (#[trigger] items[i]).encodable(),
        forall|i: int| 0 <= i < n ==> (#[trigger] items[i]).fits(lim, depth),
        holds_at(s, pos, encoding_first(items, n)),
    ensures
        items_at(s, pos, n, lim, depth) == Ok::<(Seq<Frame>, int), Error>(
            (items.subrange(0, n as int), pos + encoding_first(items, n).len()),
        ),
    decreases items, n,
{
    if n == 0 {
        assert(items.subrange(0, 0) =~= Seq::<Frame>::empty());
    } else {
        let init = encoding_first(items, (n - 1) as nat);
        let last = encoding(items[n - 1]);
        lemma_holds_split(s, pos, init, last);
        lemma_items_round_trip(items, (n - 1) as nat, s, pos, lim, depth);
        lemma_round_trip(items[n - 1], s, pos + init.len(), lim, depth);
        assert(items.subrange(0, n - 1).push(items[n - 1]) =~= items.subrange(0, n as int));
    }
}

/// Every frame that the grammar finds can be encoded and respects the
/// limits under which it was found: its texts hold no `\r` and no `\n`,
/// its bulk strings and arrays are no longer than allowed, and its arrays
/// nest no deeper than allowed.
pub proof fn lemma_found_is_valid(s: Seq<u8>, pos: int, lim: Limits, depth: nat)
    requires
        0 <= pos,
        frame_at(s, pos, lim, depth) is Ok,
    ensures
        frame_at(s, pos, lim, depth)->Ok_0.0.encodable(),
        frame_at(s, pos, lim, depth)->Ok_0.0.fits(lim, depth),
    decreases depth, 0nat,
{
    let tag = s[pos];
    if tag == TAG_SIMPLE || tag == TAG_ERROR {
        let end = first_crlf(s, pos + 1)->Some_0;
        lemma_text_of(s.subrange(pos + 1, end));
    } else if tag == TAG_INTEGER {
    } else if tag == TAG_BULK {
        lemma_header_bounds(s, pos + 1, lim.max_bulk_len);
        let (h, p) = header_at(s, pos + 1, lim.max_bulk_len)->Ok_0;
        if let Some(n) = h {
            assert(s.subrange(p, p + n).len() == n);
        }
    } else if tag == TAG_ARRAY {
        lemma_header_bounds(s, pos + 1, lim.max_array_len);
        let (h, p) = header_at(s, pos + 1, lim.max_array_len)->Ok_0;
        if let Some(n) = h {
            lemma_items_bounds(s, p, n as nat, lim, (depth - 1) as nat);
            lemma_found_are_valid(s, p, n as nat, lim, (depth - 1) as nat);
        }
    }
}

/// Every frame of a run that the grammar finds can be encoded and respects
/// the limits under which the run was found.
pub proof fn lemma_found_are_valid(s: Seq<u8>, pos: int, count: nat, lim: Limits, depth: nat)
    requires
        0 <= pos <= s.len(),
        items_at(s, pos, count, lim, depth) is Ok,
    ensures
        forall|i: int|
            0 <= i < items_at(s, pos, count, lim, depth)->Ok_0.0.len() ==> (
            #[trigger] items_at(s, pos, count, lim, depth)->Ok_0.0[i]).encodable(),
        forall|i: int|
            0 <= i < items_at(s, pos, count, lim, depth)->Ok_0.0.len() ==> (
            #[trigger] items_at(s, pos, count, lim, depth)->Ok_0.0[i]).fits(lim, depth),
    decreases depth, count + 1,
{
    if count > 0 {
        let (init, p) = items_at(s, pos, (count - 1) as nat, lim, depth)->Ok_0;
        lemma_items_bounds(s, pos, (count - 1) as nat, lim, depth);
        lemma_found_are_valid(s, pos, (count - 1) as nat, lim, depth);
        lemma_found_is_valid(s, p, lim, depth);
        let f = frame_at(s, p, lim, depth)->Ok_0.0;
        let all = items_at(s, pos, count, lim, depth)->Ok_0.0;
        assert(all == init.push(f));
        assert forall|i: int| 0 <= i < all.len() implies (#[trigger] all[i]).encodable() && all[i].fits(
            lim,
            depth,
        ) by {
            if i < init.len() {
                assert(all[i] == init[i]);
            }
        }
    }
}

} // verus!

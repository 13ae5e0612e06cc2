//! The frame encoder: the exact bytes of a frame on the wire.

use crate::bindings::bytes_as_slice;
use crate::bindings::bytes_contents;
use crate::decimal::int_digits;
use crate::decimal::nat_digits;
use crate::decimal::push_integer;
use crate::decimal::push_unsigned;
use crate::decimal::MINUS;
use crate::error::Error;
use crate::frame::lemma_models_first;
use crate::frame::models_first;
use crate::frame::Frame;
use crate::frame::RespFrame;
use crate::grammar::ONE;
use crate::grammar::TAG_ARRAY;
use crate::grammar::TAG_BULK;
use crate::grammar::TAG_ERROR;
use crate::grammar::TAG_INTEGER;
use crate::grammar::TAG_SIMPLE;
use crate::reader::CR;
use crate::reader::LF;
use crate::text::encode_text;
use crate::text::text_clean;
use vstd::prelude::*;
use vstd::utf8::encode_utf8;

verus! {

/// The line terminator `\r\n`.
pub open spec fn crlf() -> Seq<u8> {
    seq![CR, LF]
}

/// The bytes of a frame on the wire.
///
/// A text goes out as its UTF-8 encoding, a number as its shortest decimal
/// numeral, a bulk string as its length, a terminator and the payload as it
/// is, an array as its element count followed by its elements in order.
pub open spec fn encoding(f: Frame) -> Seq<u8>
    decreases f, 0nat,
{
    match f {
        Frame::SimpleString(t) => seq![TAG_SIMPLE] + encode_utf8(t) + crlf(),
        Frame::Error(t) => seq![TAG_ERROR] + encode_utf8(t) + crlf(),
        Frame::Integer(i) => seq![TAG_INTEGER] + int_digits(i as int) + crlf(),
        Frame::BulkString(b) => seq![TAG_BULK] + nat_digits(b.len()) + crlf() + b + crlf(),
        Frame::Null => seq![TAG_BULK, MINUS, ONE, CR, LF],
        Frame::NullArray => seq![TAG_ARRAY, MINUS, ONE, CR, LF],
        Frame::Array(items) => seq![TAG_ARRAY] + nat_digits(items.len()) + crlf() + encoding_first(
            items,
            items.len(),
        ),
    }
}

/// The bytes of the first `n` frames of `items`, one behind the other.
pub open spec fn encoding_first(items: Seq<Frame>, n: nat) -> Seq<u8>
    decreases items, n,
{
    if n == 0 || n > items.len() {
        Seq::empty()
    } else {
        encoding_first(items, (n - 1) as nat) + encoding(items[n - 1])
    }
}

/// Appends `bytes` to `out`.
fn push_all(out: &mut Vec<u8>, bytes: &[u8])
    ensures
        final(out)@ == old(out)@ + bytes@,
{
    let mut i: usize = 0;
    while i < bytes.len()
        invariant
            i <= bytes.len(),
            out@ == old(out)@ + bytes@.subrange(0, i as int),
        decreases bytes.len() - i,
    {
        out.push(bytes[i]);
        i = i + 1;
        assert(out@ =~= old(out)@ + bytes@.subrange(0, i as int));
    }
    assert(bytes@.subrange(0, i as int) =~= bytes@);
}

/// Appends a tag, a line and the line's terminator to `out`.
fn write_line(out: &mut Vec<u8>, tag: u8, line: &[u8])
    ensures
        final(out)@ == old(out)@ + (seq![tag] + line@ + crlf()),
{
    out.push(tag);
    push_all(out, line);
    out.push(CR);
    out.push(LF);
    assert(final(out)@ =~= old(out)@ + (seq![tag] + line@ + crlf()));
}

/// Appends an integer frame to `out`.
fn write_integer(out: &mut Vec<u8>, value: i64)
    ensures
        final(out)@ == old(out)@ + encoding(Frame::Integer(value)),
{
    out.push(TAG_INTEGER);
    push_integer(out, value);
    out.push(CR);
    out.push(LF);
    assert(final(out)@ =~= old(out)@ + encoding(Frame::Integer(value)));
}

/// Appends a tag and a length line to `out`: the header of a bulk string or
/// an array.
fn write_header(out: &mut Vec<u8>, tag: u8, len: usize)
    ensures
        final(out)@ == old(out)@ + (seq![tag] + nat_digits(len as nat) + crlf()),
{
    out.push(tag);
    push_unsigned(out, len as u64);
    out.push(CR);
    out.push(LF);
    assert(final(out)@ =~= old(out)@ + (seq![tag] + nat_digits(len as nat) + crlf()));
}

/// Appends a tag and the null marker `-1` to `out`.
fn write_null(out: &mut Vec<u8>, tag: u8)
    ensures
        final(out)@ == old(out)@ + seq![tag, MINUS, ONE, CR, LF],
{
    out.push(tag);
    out.push(MINUS);
    out.push(ONE);
    out.push(CR);
    out.push(LF);
    assert(final(out)@ =~= old(out)@ + seq![tag, MINUS, ONE, CR, LF]);
}

/// Appends a bulk string frame with the given payload to `out`.
fn write_bulk(out: &mut Vec<u8>, payload: &[u8])
    ensures
        final(out)@ == old(out)@ + encoding(Frame::BulkString(payload@)),
{
    write_header(out, TAG_BULK, payload.len());
    push_all(out, payload);
    out.push(CR);
    out.push(LF);
    assert(final(out)@ =~= old(out)@ + encoding(Frame::BulkString(payload@)));
}

/// Appends the bytes of the frames of `items`, in order, to `out`, unless a
/// text in one of them cannot go on the wire.
fn write_items(items: &Vec<RespFrame>, out: &mut Vec<u8>) -> (r: Result<(), Error>)
    ensures
        match r {
            Ok(_) => {
                &&& forall|k: int| 0 <= k < items.len() ==> (#[trigger] items[k])@.encodable()
                &&& final(out)@ == old(out)@ + encoding_first(
                    models_first(*items, items.len() as nat),
                    items.len() as nat,
                )
            },
            Err(e) => {
                &&& exists|k: int| 0 <= k < items.len() && !(#[trigger] items[k])@.encodable()
                &&& e == Error::InvalidPayload
            },
        },
    decreases items, 0nat,
{
    let ghost model = models_first(*items, items.len() as nat);
    proof {
        lemma_models_first(*items, items.len() as nat);
    }
    let mut i: usize = 0;
    while i < items.len()
        invariant
            i <= items.len(),
            model.len() == items.len(),
            forall|k: int| 0 <= k < items.len() ==> (#[trigger] model[k]) == items[k]@,
            forall|k: int| 0 <= k < i ==> (#[trigger] items[k])@.encodable(),
            out@ == old(out)@ + encoding_first(model, i as nat),
        decreases items.len() - i,
    {
        match write_frame(&items[i], out) {
            Ok(_) => {},
            Err(e) => {
                assert(!items[i as int]@.encodable());
                return Err(e);
            },
        }
        i = i + 1;
        assert(out@ =~= old(out)@ + encoding_first(model, i as nat));
    }
    Ok(())
}

/// Appends the bytes of `frame` to `out`, unless a text in it cannot go on
/// the wire.
fn write_frame(frame: &RespFrame, out: &mut Vec<u8>) -> (r: Result<(), Error>)
    ensures
        match r {
            Ok(_) => frame@.encodable() && final(out)@ == old(out)@ + encoding(frame@),
            Err(e) => !frame@.encodable() && e == Error::InvalidPayload,
        },
    decreases frame,
{
    match frame {
        RespFrame::SimpleString(text) => {
            assert(frame@ == Frame::SimpleString(text@));
            assert(frame@.encodable() == text_clean(text@));
            match encode_text(text) {
                Ok(bytes) => {
                    write_line(out, TAG_SIMPLE, bytes);
                    assert(encoding(frame@) == seq![TAG_SIMPLE] + bytes@ + crlf());
                    Ok(())
                },
                Err(e) => Err(e),
            }
        },
        RespFrame::Error(text) => {
            assert(frame@ == Frame::Error(text@));
            assert(frame@.encodable() == text_clean(text@));
            match encode_text(text) {
                Ok(bytes) => {
                    write_line(out, TAG_ERROR, bytes);
                    assert(encoding(frame@) == seq![TAG_ERROR] + bytes@ + crlf());
                    Ok(())
                },
                Err(e) => Err(e),
            }
        },
        RespFrame::Integer(value) => {
            assert(frame@ == Frame::Integer(*value));
            assert(frame@.encodable());
            write_integer(out, *value);
            Ok(())
        },
        RespFrame::BulkString(payload) => {
            assert(frame@ == Frame::BulkString(bytes_contents(*payload)));
            assert(frame@.encodable());
            write_bulk(out, bytes_as_slice(payload));
            Ok(())
        },
        RespFrame::Null => {
            assert(frame@ == Frame::Null);
            assert(frame@.encodable());
            write_null(out, TAG_BULK);
            assert(encoding(frame@) == seq![TAG_BULK, MINUS, ONE, CR, LF]);
            Ok(())
        },
        RespFrame::NullArray => {
            assert(frame@ == Frame::NullArray);
            assert(frame@.encodable());
            write_null(out, TAG_ARRAY);
            assert(encoding(frame@) == seq![TAG_ARRAY, MINUS, ONE, CR, LF]);
            Ok(())
        },
        RespFrame::Array(items) => write_array(frame, items, out),
    }
}

/// Appends the bytes of the array `frame`, whose elements are `items`, to
/// `out`, unless a text in it cannot go on the wire.
fn write_array(frame: &RespFrame, items: &Vec<RespFrame>, out: &mut Vec<u8>) -> (r: Result<
    (),
    Error,
>)
    requires
        *frame == RespFrame::Array(*items),
    ensures
        match r {
            Ok(_) => frame@.encodable() && final(out)@ == old(out)@ + encoding(frame@),
            Err(e) => !frame@.encodable() && e == Error::InvalidPayload,
        },
    decreases items, 1nat,
{
    let ghost model = models_first(*items, items.len() as nat);
    proof {
        assert(frame@ == Frame::Array(model));
        lemma_models_first(*items, items.len() as nat);
        assert(encoding(frame@) == seq![TAG_ARRAY] + nat_digits(model.len()) + crlf()
            + encoding_first(model, model.len()));
    }
    write_header(out, TAG_ARRAY, items.len());
    let ghost head = out@;
    match write_items(items, out) {
        Ok(_) => {
            assert(final(out)@ =~= old(out)@ + encoding(frame@));
            assert forall|i: int| 0 <= i < model.len() implies (#[trigger] model[i]).encodable() by {
                assert(items[i]@.encodable());
            }
            assert(Frame::Array(model).encodable());
            Ok(())
        },
        Err(e) => {
            let ghost k = choose|k: int|
                0 <= k < items.len() && !(#[trigger] items[k])@.encodable();
            assert(!model[k].encodable());
            assert(!Frame::Array(model).encodable());
            Err(e)
        },
    }
}

/// The bytes of `frame` on the wire.
///
/// Fails with [`Error::InvalidPayload`], and produces nothing, exactly when
/// a simple string or an error text in the frame, at any depth, holds `\r`
/// or `\n`.
pub fn encode_frame(frame: &RespFrame) -> (r: Result<Vec<u8>, Error>)
    ensures
        match r {
            Ok(bytes) => frame@.encodable() && bytes@ == encoding(frame@),
            Err(e) => !frame@.encodable() && e == Error::InvalidPayload,
        },
{
    let mut out: Vec<u8> = Vec::new();
    match write_frame(frame, &mut out) {
        Ok(_) => Ok(out),
        Err(e) => Err(e),
    }
}

} // verus!

//! Text payloads: the lines of simple strings and errors.
//!
//! On the wire a text is the UTF-8 encoding of its characters, and it may
//! hold neither `\r` nor `\n`. This module relates that rule on characters
//! to the same rule on bytes and converts between the two.

use crate::bindings::string_from_utf8;
use crate::error::Error;
use crate::reader::CR;
use crate::reader::LF;
use vstd::prelude::*;
use vstd::slice::slice_to_vec;
use vstd::utf8::*;

verus! {

/// True when no character of `chars` is `\r` or `\n`.
pub open spec fn text_clean(chars: Seq<char>) -> bool {
    forall|i: int| 0 <= i < chars.len() ==> (#[trigger] chars[i]) != '\r' && chars[i] != '\n'
}

/// True when no byte of `bytes` is `\r` or `\n`.
pub open spec fn line_clean(bytes: Seq<u8>) -> bool {
    forall|i: int| 0 <= i < bytes.len() ==> (#[trigger] bytes[i]) != CR && bytes[i] != LF
}

/// The text that a line spells: the line must be free of `\r` and `\n` and
/// be valid UTF-8, else it is malformed.
pub open spec fn text_of(line: Seq<u8>) -> Result<Seq<char>, Error> {
    if line_clean(line) && valid_utf8(line) {
        Ok(decode_utf8(line))
    } else {
        Err(Error::InvalidFrame)
    }
}

/// The UTF-8 encoding of one character is the character itself when it is
/// ASCII, and holds no ASCII byte at all when it is not.
proof fn lemma_scalar_bytes(c: u32)
    requires
        is_scalar(c),
    ensures
        c < 0x80 ==> encode_scalar(c) =~= seq![c as u8],
        c >= 0x80 ==> forall|j: int|
            0 <= j < encode_scalar(c).len() ==> (#[trigger] encode_scalar(c)[j]) >= 0x80,
{
    if has_width_1_encoding(c) {
        assert((c & 0x7F) as u8 == c as u8) by (bit_vector)
            requires
                c <= 0x7F,
        ;
    } else {
        assert(c >= 0x80);
        assert forall|b: u8|
            (0xC0u8 | b) >= 0x80 && (0xE0u8 | b) >= 0x80 && (0xF0u8 | b) >= 0x80 && (0x80u8 | b)
                >= 0x80 by {
            assert((0xC0u8 | b) >= 0x80 && (0xE0u8 | b) >= 0x80 && (0xF0u8 | b) >= 0x80 && (0x80u8
                | b) >= 0x80) by (bit_vector);
        }
    }
}

/// A text is free of `\r` and `\n` exactly when its UTF-8 encoding is.
pub proof fn lemma_clean_encoding(chars: Seq<char>)
    ensures
        line_clean(encode_utf8(chars)) <==> text_clean(chars),
    decreases chars.len(),
{
    if chars.len() > 0 {
        let c = chars[0] as u32;
        let head = encode_scalar(c);
        let rest = chars.drop_first();
        let tail = encode_utf8(rest);
        let all = encode_utf8(chars);
        assert(all == head + tail);
        char_is_scalar(chars[0]);
        lemma_scalar_bytes(c);
        lemma_clean_encoding(rest);
        assert('\r' as u32 == 13 && '\n' as u32 == 10);
        let head_clean = chars[0] != '\r' && chars[0] != '\n';
        assert(head_clean <==> line_clean(head)) by {
            char_u32_cast(chars[0], c);
            char_u32_cast('\r', 13);
            char_u32_cast('\n', 10);
            if c < 0x80 {
                assert(head.len() == 1 && head[0] == c as u8);
                assert(head_clean <==> c != 13 && c != 10);
                if line_clean(head) {
                    assert(head[0] != CR && head[0] != LF);
                }
            } else {
                assert(head_clean);
                assert forall|j: int| 0 <= j < head.len() implies (#[trigger] head[j]) != CR
                    && head[j] != LF by {
                    assert(encode_scalar(c)[j] >= 0x80);
                }
            }
        }
        assert(text_clean(chars) <==> head_clean && text_clean(rest)) by {
            if text_clean(chars) {
                assert(chars[0] != '\r');
                assert forall|k: int| 0 <= k < rest.len() implies (#[trigger] rest[k]) != '\r'
                    && rest[k] != '\n' by {
                    assert(rest[k] == chars[k + 1]);
                }
            }
            if head_clean && text_clean(rest) {
                assert forall|k: int| 0 <= k < chars.len() implies (#[trigger] chars[k]) != '\r'
                    && chars[k] != '\n' by {
                    if k > 0 {
                        assert(chars[k] == rest[k - 1]);
                    }
                }
            }
        }
        assert(line_clean(all) <==> line_clean(head) && line_clean(tail)) by {
            if line_clean(all) {
                assert forall|j: int| 0 <= j < head.len() implies (#[trigger] head[j]) != CR
                    && head[j] != LF by {
                    assert(head[j] == all[j]);
                }
                assert forall|j: int| 0 <= j < tail.len() implies (#[trigger] tail[j]) != CR
                    && tail[j] != LF by {
                    assert(tail[j] == all[j + head.len()]);
                }
            }
            if line_clean(head) && line_clean(tail) {
                assert forall|i: int| 0 <= i < all.len() implies (#[trigger] all[i]) != CR
                    && all[i] != LF by {
                    if i < head.len() {
                        assert(all[i] == head[i]);
                    } else {
                        assert(all[i] == tail[i - head.len()]);
                    }
                }
            }
        }
    }
}

/// A line that spells a text spells a clean one, and encoding that text
/// gives the line back.
pub proof fn lemma_text_of(line: Seq<u8>)
    requires
        text_of(line) is Ok,
    ensures
        text_clean(text_of(line)->Ok_0),
        encode_utf8(text_of(line)->Ok_0) == line,
{
    decode_utf8_encode_utf8(line);
    lemma_clean_encoding(decode_utf8(line));
}

/// The encoding of a clean text is a line that spells the text.
pub proof fn lemma_text_of_encoding(chars: Seq<char>)
    requires
        text_clean(chars),
    ensures
        text_of(encode_utf8(chars)) == Ok::<Seq<char>, Error>(chars),
{
    lemma_clean_encoding(chars);
    encode_utf8_valid_utf8(chars);
    encode_utf8_decode_utf8(chars);
}

/// Whether `bytes` is free of `\r` and `\n`.
pub fn is_clean(bytes: &[u8]) -> (r: bool)
    ensures
        r == line_clean(bytes@),
{
    let mut i: usize = 0;
    while i < bytes.len()
        invariant
            i <= bytes.len(),
            forall|j: int| 0 <= j < i ==> (#[trigger] bytes@[j]) != CR && bytes@[j] != LF,
        decreases bytes.len() - i,
    {
        if bytes[i] == CR || bytes[i] == LF {
            return false;
        }
        i = i + 1;
    }
    true
}

/// Turns the line of a simple string or an error into its text.
///
/// [`Error::InvalidFrame`] when the line holds a stray `\r` or `\n` or is
/// not valid UTF-8.
pub fn decode_text(line: &[u8]) -> (r: Result<String, Error>)
    ensures
        match text_of(line@) {
            Ok(t) => r matches Ok(s) && s@ == t,
            Err(e) => r matches Err(x) && x == e,
        },
{
    if !is_clean(line) {
        return Err(Error::InvalidFrame);
    }
    match string_from_utf8(slice_to_vec(line)) {
        Ok(s) => Ok(s),
        Err(e) => Err(Error::from(e)),
    }
}

/// The bytes of a text as they go on the wire.
///
/// [`Error::InvalidPayload`] when the text holds `\r` or `\n`.
pub fn encode_text(text: &String) -> (r: Result<&[u8], Error>)
    ensures
        match r {
            Ok(bytes) => text_clean(text@) && bytes@ == encode_utf8(text@),
            Err(e) => !text_clean(text@) && e == Error::InvalidPayload,
        },
{
    let bytes = text.as_str().as_bytes();
    proof {
        lemma_clean_encoding(text@);
    }
    if is_clean(bytes) {
        Ok(bytes)
    } else {
        Err(Error::InvalidPayload)
    }
}

} // verus!

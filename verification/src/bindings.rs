//! Code from outside this crate as the verifier sees it: the byte containers
//! of the `bytes` crate, the number parser of the `atoi` crate and
//! `String::from_utf8`.
//!
//! Nothing in this module is proved. Each item states what the verified code
//! relies on when it calls the outside function that the item names.

use crate::decimal::digits_value;
use crate::decimal::is_unsigned_decimal;
use bytes::Buf;
use bytes::Bytes;
use bytes::BytesMut;
use std::string::FromUtf8Error;
use vstd::prelude::*;
use vstd::utf8::decode_utf8;
use vstd::utf8::valid_utf8;

verus! {

/// `bytes::Bytes`, an immutable, cheaply cloneable run of bytes. Opaque to the
/// verifier; its contents are spoken of through [`bytes_contents`].
#[verifier::external_type_specification]
#[verifier::external_body]
pub struct ExBytes(bytes::Bytes);

/// `bytes::BytesMut`, a growable byte buffer. Opaque to the verifier; its
/// contents are spoken of through [`buffer_contents`].
#[verifier::external_type_specification]
#[verifier::external_body]
pub struct ExBytesMut(bytes::BytesMut);

/// The bytes that a `Bytes` value holds, in order.
pub uninterp spec fn bytes_contents(b: Bytes) -> Seq<u8>;

/// The bytes that a `BytesMut` buffer currently holds, in order, from its
/// front to its end.
pub uninterp spec fn buffer_contents(b: BytesMut) -> Seq<u8>;

/// `Bytes::copy_from_slice`: the new value holds a copy of exactly the bytes
/// of `data`.
pub assume_specification[ Bytes::copy_from_slice ](data: &[u8]) -> (b: Bytes)
    ensures
        bytes_contents(b) == data@,
;

/// `AsRef<[u8]>::as_ref` of `Bytes`: the slice shows exactly the bytes held.
#[verifier::external_body]
pub(crate) fn bytes_as_slice(b: &Bytes) -> (s: &[u8])
    ensures
        s@ == bytes_contents(*b),
{
    b.as_ref()
}

/// `AsRef<[u8]>::as_ref` of `BytesMut`: the slice shows exactly the bytes
/// that the buffer holds.
#[verifier::external_body]
pub(crate) fn buffer_as_slice(b: &BytesMut) -> (s: &[u8])
    ensures
        s@ == buffer_contents(*b),
{
    b.as_ref()
}

/// `Buf::advance` of `BytesMut`: drops the first `count` bytes of the buffer
/// and keeps the rest in order. The outside function panics when `count`
/// exceeds the number of bytes held, so that is required of the caller.
#[verifier::external_body]
pub(crate) fn buffer_advance(b: &mut BytesMut, count: usize)
    requires
        count <= buffer_contents(*old(b)).len(),
    ensures
        buffer_contents(*final(b)) == buffer_contents(*old(b)).skip(count as int),
{
    b.advance(count)
}

/// `BytesMut::extend_from_slice`: appends the bytes of `extend` behind those
/// already held. The outside function panics when the new length overflows
/// `usize`, so that is required of the caller.
pub assume_specification[ BytesMut::extend_from_slice ](b: &mut BytesMut, extend: &[u8])
    requires
        buffer_contents(*old(b)).len() + extend@.len() <= usize::MAX,
    ensures
        buffer_contents(*final(b)) == buffer_contents(*old(b)) + extend@,
;

/// `std::string::FromUtf8Error`, what `String::from_utf8` returns on bytes
/// that are not UTF-8. Opaque to the verifier.
#[verifier::external_type_specification]
#[verifier::external_body]
pub struct ExFromUtf8Error(FromUtf8Error);

/// `String::from_utf8`: succeeds exactly on valid UTF-8, and the string then
/// holds the characters that the bytes encode.
#[verifier::external_body]
pub(crate) fn string_from_utf8(bytes: Vec<u8>) -> (r: Result<String, FromUtf8Error>)
    ensures
        r is Ok <==> valid_utf8(bytes@),
        r matches Ok(s) ==> s@ == decode_utf8(bytes@),
{
    String::from_utf8(bytes)
}

/// `atoi::atoi::<u64>`: on an unsigned decimal numeral (one or more digits,
/// nothing else) the outside function returns the number that the numeral
/// denotes when it fits in a `u64`, and `None` when it does not. What it does
/// on other input is not stated here, so callers check the shape of the text
/// first.
#[verifier::external_body]
pub(crate) fn atoi_u64(text: &[u8]) -> (r: Option<u64>)
    requires
        is_unsigned_decimal(text@),
    ensures
        r == if digits_value(text@) <= u64::MAX {
            Some(digits_value(text@) as u64)
        } else {
            None
        },
{
    atoi::atoi::<u64>(text)
}

} // verus!

//! Decimal numerals as they stand on the wire: what a run of ASCII digits
//! means, how a number is written, and the executable conversions both ways.

use crate::bindings::atoi_u64;
use crate::error::Error;
use vstd::prelude::*;
use vstd::slice::slice_subrange;

verus! {

/// ASCII `0`.
pub const ZERO: u8 = 48;

/// ASCII `-`.
pub const MINUS: u8 = 45;

/// True for the ASCII digits `0` to `9`.
pub open spec fn is_digit(b: u8) -> bool {
    48 <= b <= 57
}

/// True when every byte of `s` is an ASCII digit.
pub open spec fn all_digits(s: Seq<u8>) -> bool {
    forall|i: int| 0 <= i < s.len() ==> is_digit(#[trigger] s[i])
}

/// The number that a run of digits denotes in base ten, most significant
/// digit first. The empty run denotes zero.
pub open spec fn digits_value(s: Seq<u8>) -> nat
    decreases s.len(),
{
    if s.len() == 0 {
        0
    } else {
        (digits_value(s.drop_last()) * 10 + (s.last() - 48)) as nat
    }
}

/// True when `s` is an unsigned decimal numeral: one or more digits.
pub open spec fn is_unsigned_decimal(s: Seq<u8>) -> bool {
    s.len() > 0 && all_digits(s)
}

/// True when `s` is a signed decimal numeral: an optional `-` followed by
/// one or more digits.
pub open spec fn is_decimal(s: Seq<u8>) -> bool {
    if s.len() > 0 && s[0] == MINUS {
        is_unsigned_decimal(s.drop_first())
    } else {
        is_unsigned_decimal(s)
    }
}

/// The integer that a signed decimal numeral denotes.
pub open spec fn decimal_value(s: Seq<u8>) -> int {
    if s.len() > 0 && s[0] == MINUS {
        -(digits_value(s.drop_first()) as int)
    } else {
        digits_value(s) as int
    }
}

/// The shortest decimal numeral of `n`: no leading zeros, `0` for zero.
pub open spec fn nat_digits(n: nat) -> Seq<u8>
    decreases n,
{
    if n < 10 {
        seq![(48 + n) as u8]
    } else {
        nat_digits(n / 10).push((48 + n % 10) as u8)
    }
}

/// The shortest decimal numeral of `i`, with a leading `-` when negative.
pub open spec fn int_digits(i: int) -> Seq<u8> {
    if i < 0 {
        seq![MINUS] + nat_digits((-i) as nat)
    } else {
        nat_digits(i as nat)
    }
}

/// Writing a natural number and reading the digits back gives the number;
/// what is written is a non-empty run of digits.
pub proof fn lemma_nat_digits(n: nat)
    ensures
        is_unsigned_decimal(nat_digits(n)),
        digits_value(nat_digits(n)) == n,
    decreases n,
{
    let d = nat_digits(n);
    if n >= 10 {
        lemma_nat_digits(n / 10);
        assert(d.drop_last() =~= nat_digits(n / 10));
        assert(d.last() == (48 + n % 10) as u8);
    } else {
        assert(d.drop_last() =~= Seq::<u8>::empty());
        assert(digits_value(d.drop_last()) == 0);
        assert(d.last() == (48 + n) as u8);
    }
}

/// Writing an integer and reading the numeral back gives the integer; what
/// is written is a signed decimal numeral.
pub proof fn lemma_int_digits(i: int)
    ensures
        is_decimal(int_digits(i)),
        decimal_value(int_digits(i)) == i,
{
    if i < 0 {
        lemma_nat_digits((-i) as nat);
        assert(int_digits(i).drop_first() =~= nat_digits((-i) as nat));
    } else {
        lemma_nat_digits(i as nat);
    }
}

/// A signed decimal numeral holds only digits and `-`.
pub proof fn lemma_decimal_bytes(s: Seq<u8>, i: int)
    requires
        is_decimal(s),
        0 <= i < s.len(),
    ensures
        is_digit(s[i]) || s[i] == MINUS,
{
    if s[0] == MINUS && i > 0 {
        assert(s[i] == s.drop_first()[i - 1]);
    }
}

/// Whether every byte of `text` is an ASCII digit.
pub fn digits_only(text: &[u8]) -> (r: bool)
    ensures
        r == all_digits(text@),
{
    let mut i: usize = 0;
    while i < text.len()
        invariant
            i <= text.len(),
            forall|j: int| 0 <= j < i ==> is_digit(#[trigger] text@[j]),
        decreases text.len() - i,
    {
        let b = text[i];
        if b < 48 || b > 57 {
            return false;
        }
        i = i + 1;
    }
    true
}

/// Reads a signed decimal integer.
///
/// Succeeds exactly on the numerals whose value fits in 64 bits; anything
/// else, a numeral out of range included, is [`Error::InvalidInteger`].
pub fn parse_integer(text: &[u8]) -> (r: Result<i64, Error>)
    ensures
        r == integer_of(text@),
{
    let negative = text.len() > 0 && text[0] == MINUS;
    let digits = if negative {
        slice_subrange(text, 1, text.len())
    } else {
        text
    };
    assert(negative ==> digits@ =~= text@.drop_first());
    if digits.len() == 0 || !digits_only(digits) {
        return Err(Error::InvalidInteger);
    }
    match atoi_u64(digits) {
        None => Err(Error::InvalidInteger),
        Some(magnitude) => {
            if !negative {
                if magnitude <= 0x7fff_ffff_ffff_ffff {
                    Ok(magnitude as i64)
                } else {
                    Err(Error::InvalidInteger)
                }
            } else if magnitude < 0x8000_0000_0000_0000 {
                Ok(-(magnitude as i64))
            } else if magnitude == 0x8000_0000_0000_0000 {
                Ok(i64::MIN)
            } else {
                Err(Error::InvalidInteger)
            }
        },
    }
}

/// What [`parse_integer`] makes of a line.
pub open spec fn integer_of(text: Seq<u8>) -> Result<i64, Error> {
    if is_decimal(text) && i64::MIN <= decimal_value(text) <= i64::MAX {
        Ok(decimal_value(text) as i64)
    } else {
        Err(Error::InvalidInteger)
    }
}

/// What [`parse_length`] makes of a line, under the bound `max`.
pub open spec fn length_of(text: Seq<u8>, max: usize) -> Result<usize, Error> {
    if !is_unsigned_decimal(text) {
        Err(Error::InvalidInteger)
    } else if digits_value(text) > max {
        Err(Error::FrameTooLarge)
    } else {
        Ok(digits_value(text) as usize)
    }
}

/// Reads a declared length or count: an unsigned decimal numeral that may
/// not exceed `max`.
///
/// A line that is not a run of digits is [`Error::InvalidInteger`]; a number
/// above `max`, however large, is [`Error::FrameTooLarge`].
pub fn parse_length(text: &[u8], max: usize) -> (r: Result<usize, Error>)
    ensures
        r == length_of(text@, max),
{
    if text.len() == 0 || !digits_only(text) {
        return Err(Error::InvalidInteger);
    }
    match atoi_u64(text) {
        Some(v) => {
            if v > max as u64 {
                Err(Error::FrameTooLarge)
            } else {
                Ok(v as usize)
            }
        },
        None => Err(Error::FrameTooLarge),
    }
}

/// Appends the shortest decimal numeral of `n` to `out`.
pub fn push_unsigned(out: &mut Vec<u8>, n: u64)
    ensures
        final(out)@ == old(out)@ + nat_digits(n as nat),
    decreases n,
{
    if n >= 10 {
        push_unsigned(out, n / 10);
    }
    out.push(ZERO + (n % 10) as u8);
    assert(final(out)@ =~= old(out)@ + nat_digits(n as nat)) by {
        if n >= 10 {
            assert(nat_digits(n as nat) == nat_digits((n / 10) as nat).push((48 + n % 10) as u8));
        }
    }
}

/// Appends the shortest decimal numeral of `i` to `out`, with a leading `-`
/// when `i` is negative.
pub fn push_integer(out: &mut Vec<u8>, i: i64)
    ensures
        final(out)@ == old(out)@ + int_digits(i as int),
{
    if i < 0 {
        out.push(MINUS);
        let magnitude: u64 = ((-(i + 1)) as u64) + 1;
        push_unsigned(out, magnitude);
        assert(final(out)@ =~= old(out)@ + int_digits(i as int));
    } else {
        push_unsigned(out, i as u64);
    }
}

} // verus!

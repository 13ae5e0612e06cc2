//! The incremental reader: a cursor over the bytes received so far.
//!
//! The reader borrows the bytes and never changes them. A read that cannot
//! be completed with the bytes at hand reports [`Error::Truncated`] and
//! leaves the cursor where it was, so the same read can be tried again once
//! more bytes have arrived.

use crate::decimal::integer_of;
use crate::decimal::parse_integer;
use crate::error::Error;
use vstd::prelude::*;
use vstd::slice::slice_subrange;

verus! {

/// ASCII carriage return, the first byte of a line terminator.
pub const CR: u8 = 13;

/// ASCII line feed, the second byte of a line terminator.
pub const LF: u8 = 10;

/// True when the two-byte line terminator `\r\n` starts at index `i` of `s`.
pub open spec fn is_crlf_at(s: Seq<u8>, i: int) -> bool {
    0 <= i && i + 1 < s.len() && s[i] == CR && s[i + 1] == LF
}

/// The index of the first line terminator of `s` that starts at or after
/// `from`, if there is one.
pub open spec fn first_crlf(s: Seq<u8>, from: int) -> Option<int>
    decreases s.len() - from,
{
    if from < 0 || from + 1 >= s.len() {
        None
    } else if s[from] == CR && s[from + 1] == LF {
        Some(from)
    } else {
        first_crlf(s, from + 1)
    }
}

/// What `first_crlf` finds is a terminator, and no terminator starts between
/// `from` and it; where it finds nothing, no terminator starts at or after
/// `from`.
pub proof fn lemma_first_crlf(s: Seq<u8>, from: int)
    requires
        0 <= from,
    ensures
        match first_crlf(s, from) {
            Some(i) => from <= i && is_crlf_at(s, i) && forall|j: int|
                from <= j < i ==> !is_crlf_at(s, j),
            None => forall|j: int| from <= j ==> !is_crlf_at(s, j),
        },
    decreases s.len() - from,
{
    if from + 1 >= s.len() {
    } else if s[from] == CR && s[from + 1] == LF {
    } else {
        lemma_first_crlf(s, from + 1);
    }
}

/// A terminator at `i` with none before it, from `from` on, is the one that
/// `first_crlf` finds.
pub proof fn lemma_first_crlf_is(s: Seq<u8>, from: int, i: int)
    requires
        0 <= from <= i,
        is_crlf_at(s, i),
        forall|j: int| from <= j < i ==> !is_crlf_at(s, j),
    ensures
        first_crlf(s, from) == Some(i),
    decreases i - from,
{
    if from < i {
        assert(!is_crlf_at(s, from));
        lemma_first_crlf_is(s, from + 1, i);
    }
}

/// A cursor over a borrowed run of bytes.
pub struct Reader<'a> {
    buf: &'a [u8],
    pos: usize,
}

impl<'a> Reader<'a> {
    #[verifier::type_invariant]
    spec fn within_bounds(self) -> bool {
        self.pos <= self.buf@.len()
    }

    /// The bytes under the cursor: all of them, read or not.
    pub closed spec fn bytes(self) -> Seq<u8> {
        self.buf@
    }

    /// How many bytes have been read: the index of the next byte to read.
    pub closed spec fn cursor(self) -> int {
        self.pos as int
    }

    /// A reader at the start of `buf`.
    pub fn new(buf: &'a [u8]) -> (r: Self)
        ensures
            r.bytes() == buf@,
            r.cursor() == 0,
    {
        Reader { buf, pos: 0 }
    }

    /// The index of the next byte to read.
    pub fn position(&self) -> (r: usize)
        ensures
            r == self.cursor(),
            r <= self.bytes().len(),
    {
        proof {
            use_type_invariant(self);
        }
        self.pos
    }

    /// Moves the cursor back to an index at or before the current one.
    pub(crate) fn rewind(&mut self, to: usize)
        requires
            to <= old(self).cursor(),
        ensures
            final(self).bytes() == old(self).bytes(),
            final(self).cursor() == to,
    {
        proof {
            use_type_invariant(&*self);
        }
        self.pos = to;
    }

    /// The number of bytes not yet read.
    pub fn remaining(&self) -> (r: usize)
        ensures
            r == self.bytes().len() - self.cursor(),
    {
        proof {
            use_type_invariant(self);
        }
        self.buf.len() - self.pos
    }

    /// The next byte, without reading it. [`Error::Truncated`] when no byte
    /// is left.
    pub fn peek_u8(&self) -> (r: Result<u8, Error>)
        ensures
            r == if self.cursor() < self.bytes().len() {
                Ok::<u8, Error>(self.bytes()[self.cursor()])
            } else {
                Err(Error::Truncated)
            },
    {
        proof {
            use_type_invariant(self);
        }
        if self.pos >= self.buf.len() {
            return Err(Error::Truncated);
        }
        Ok(self.buf[self.pos])
    }

    /// Reads the next byte. [`Error::Truncated`], with the cursor unmoved,
    /// when no byte is left.
    pub fn get_u8(&mut self) -> (r: Result<u8, Error>)
        ensures
            final(self).bytes() == old(self).bytes(),
            r == if old(self).cursor() < old(self).bytes().len() {
                Ok::<u8, Error>(old(self).bytes()[old(self).cursor()])
            } else {
                Err(Error::Truncated)
            },
            final(self).cursor() == if r is Ok {
                old(self).cursor() + 1
            } else {
                old(self).cursor()
            },
    {
        proof {
            use_type_invariant(&*self);
        }
        if self.pos >= self.buf.len() {
            return Err(Error::Truncated);
        }
        let b = self.buf[self.pos];
        self.pos = self.pos + 1;
        Ok(b)
    }

    /// Reads `n` bytes without looking at them. [`Error::Truncated`], with
    /// the cursor unmoved, when fewer than `n` bytes are left.
    pub fn skip(&mut self, n: usize) -> (r: Result<(), Error>)
        ensures
            final(self).bytes() == old(self).bytes(),
            r == if n <= old(self).bytes().len() - old(self).cursor() {
                Ok::<(), Error>(())
            } else {
                Err(Error::Truncated)
            },
            final(self).cursor() == if r is Ok {
                old(self).cursor() + n
            } else {
                old(self).cursor()
            },
    {
        proof {
            use_type_invariant(&*self);
        }
        if self.buf.len() - self.pos < n {
            return Err(Error::Truncated);
        }
        self.pos = self.pos + n;
        Ok(())
    }

    /// Reads `n` bytes and returns them as a view into the bytes under the
    /// cursor, not a copy. [`Error::Truncated`], with the cursor unmoved,
    /// when fewer than `n` bytes are left.
    pub fn get_bytes(&mut self, n: usize) -> (r: Result<&'a [u8], Error>)
        ensures
            final(self).bytes() == old(self).bytes(),
            n <= old(self).bytes().len() - old(self).cursor() ==> {
                &&& r matches Ok(taken)
                &&& taken@ == old(self).bytes().subrange(
                    old(self).cursor(),
                    old(self).cursor() + n,
                )
                &&& final(self).cursor() == old(self).cursor() + n
            },
            n > old(self).bytes().len() - old(self).cursor() ==> {
                &&& r == Err::<&[u8], Error>(Error::Truncated)
                &&& final(self).cursor() == old(self).cursor()
            },
    {
        proof {
            use_type_invariant(&*self);
        }
        if self.buf.len() - self.pos < n {
            return Err(Error::Truncated);
        }
        let taken = slice_subrange(self.buf, self.pos, self.pos + n);
        self.pos = self.pos + n;
        Ok(taken)
    }

    /// Reads one line: the bytes from the cursor up to the first `\r\n`,
    /// which it reads too and leaves out of what it returns. The line is a
    /// view into the bytes under the cursor, not a copy.
    ///
    /// [`Error::Truncated`], with the cursor unmoved, when no `\r\n` is to be
    /// found in the bytes at hand.
    pub fn get_line(&mut self) -> (r: Result<&'a [u8], Error>)
        ensures
            final(self).bytes() == old(self).bytes(),
            match first_crlf(old(self).bytes(), old(self).cursor()) {
                Some(end) => {
                    &&& r matches Ok(line)
                    &&& line@ == old(self).bytes().subrange(old(self).cursor(), end)
                    &&& final(self).cursor() == end + 2
                    &&& end + 2 <= old(self).bytes().len()
                },
                None => r == Err::<&[u8], Error>(Error::Truncated) && final(self).cursor() == old(
                    self,
                ).cursor(),
            },
    {
        proof {
            use_type_invariant(&*self);
        }
        let start = self.pos;
        let len = self.buf.len();
        let mut i: usize = start;
        while i < len && len - i >= 2
            invariant
                start <= i <= len,
                len == self.buf@.len(),
                self.pos == start,
                start == old(self).pos,
                self.buf == old(self).buf,
                first_crlf(self.buf@, start as int) == first_crlf(self.buf@, i as int),
            decreases len - i,
        {
            if self.buf[i] == CR && self.buf[i + 1] == LF {
                assert(first_crlf(self.buf@, i as int) == Some(i as int));
                let line = slice_subrange(self.buf, start, i);
                self.pos = i + 2;
                return Ok(line);
            }
            i = i + 1;
        }
        Err(Error::Truncated)
    }

    /// Reads one line and the signed decimal integer that it spells.
    ///
    /// [`Error::Truncated`] when the line is not complete yet,
    /// [`Error::InvalidInteger`] when it is not an optional `-` followed by
    /// digits or when the number does not fit in 64 bits. The cursor moves
    /// only on success.
    pub fn get_num(&mut self) -> (r: Result<i64, Error>)
        ensures
            final(self).bytes() == old(self).bytes(),
            match number_at(old(self).bytes(), old(self).cursor()) {
                Ok((value, end)) => r == Ok::<i64, Error>(value) && final(self).cursor() == end,
                Err(e) => r == Err::<i64, Error>(e) && final(self).cursor() == old(self).cursor(),
            },
    {
        let start = self.position();
        proof {
            lemma_first_crlf(self.bytes(), start as int);
        }
        match self.get_line() {
            Ok(line) => {
                let parsed = parse_integer(line);
                if parsed.is_err() {
                    self.rewind(start);
                }
                parsed
            },
            Err(e) => Err(e),
        }
    }
}

/// The integer line that starts at index `from` of `s`: its value and the
/// index behind its terminator.
pub open spec fn number_at(s: Seq<u8>, from: int) -> Result<(i64, int), Error> {
    match first_crlf(s, from) {
        None => Err(Error::Truncated),
        Some(end) => match integer_of(s.subrange(from, end)) {
            Ok(v) => Ok((v, end + 2)),
            Err(e) => Err(e),
        },
    }
}

} // verus!

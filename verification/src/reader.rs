use crate::error::MrtError;
use byteorder::{BigEndian, ByteOrder};
use vstd::prelude::*;
use vstd::slice::slice_subrange;

verus! {

/// The number that a byte string denotes when read most significant byte first.
pub open spec fn be_value(bytes: Seq<u8>) -> nat
    decreases bytes.len(),
{
    if bytes.len() == 0 {
        0
    } else {
        be_value(bytes.drop_last()) * 256 + bytes.last() as nat
    }
}

/// Big-endian decoding of the first two bytes of `buf`, done by
/// `byteorder::BigEndian::read_u16`. The contract claims that the result is
/// the big-endian value of those two bytes; the buffer must hold them, since
/// the outside function panics on a shorter one.
#[verifier::external_body]
pub(crate) fn be_u16(buf: &[u8]) -> (r: u16)
    requires
        buf@.len() >= 2,
    ensures
        r as nat == be_value(buf@.subrange(0, 2)),
{
    BigEndian::read_u16(buf)
}

/// Big-endian decoding of the first four bytes of `buf`, done by
/// `byteorder::BigEndian::read_u32`. The contract claims that the result is
/// the big-endian value of those four bytes; the buffer must hold them.
#[verifier::external_body]
pub(crate) fn be_u32(buf: &[u8]) -> (r: u32)
    requires
        buf@.len() >= 4,
    ensures
        r as nat == be_value(buf@.subrange(0, 4)),
{
    BigEndian::read_u32(buf)
}

/// Big-endian decoding of the first sixteen bytes of `buf`, done by
/// `byteorder::BigEndian::read_u128`. The contract claims that the result is
/// the big-endian value of those sixteen bytes; the buffer must hold them.
#[verifier::external_body]
pub(crate) fn be_u128(buf: &[u8]) -> (r: u128)
    requires
        buf@.len() >= 16,
    ensures
        r as nat == be_value(buf@.subrange(0, 16)),
{
    BigEndian::read_u128(buf)
}

/// A cursor over a byte slice. Its view is the part of the slice that has not
/// been consumed yet.
pub struct Reader<'a> {
    data: &'a [u8],
    pos: usize,
}

impl<'a> View for Reader<'a> {
    type V = Seq<u8>;

    closed spec fn view(&self) -> Seq<u8> {
        self.data@.skip(self.pos as int)
    }
}

impl<'a> Reader<'a> {
    #[verifier::type_invariant]
    spec fn in_bounds(self) -> bool {
        self.pos <= self.data@.len()
    }

    /// How many bytes have been consumed since the reader was made.
    pub closed spec fn spec_offset(self) -> usize {
        self.pos
    }

    /// A reader at the start of `data`.
    pub fn new(data: &'a [u8]) -> (r: Self)
        ensures
            r@ == data@,
            r.spec_offset() == 0,
    {
        Reader { data, pos: 0 }
    }

    /// The number of bytes consumed so far.
    pub fn offset(&self) -> (n: usize)
        ensures
            n == self.spec_offset(),
    {
        self.pos
    }

    /// The number of bytes left.
    pub fn remaining(&self) -> (n: usize)
        ensures
            n == self@.len(),
    {
        proof {
            use_type_invariant(self);
        }
        self.data.len() - self.pos
    }

    /// Whether every byte has been consumed.
    pub fn is_empty(&self) -> (b: bool)
        ensures
            b == (self@.len() == 0),
    {
        proof {
            use_type_invariant(self);
        }
        self.pos == self.data.len()
    }

    /// Whether `after` is this reader moved forward by `n` bytes.
    pub open spec fn advanced(self, after: Self, n: nat) -> bool {
        &&& n <= self@.len()
        &&& after@ == self@.skip(n as int)
        &&& after.spec_offset() == self.spec_offset() + n
    }

    /// The next `n` bytes, without consuming them.
    pub fn peek(&self, n: usize) -> (r: Result<&'a [u8], MrtError>)
        ensures
            match r {
                Ok(s) => n <= self@.len() && s@ == self@.take(n as int),
                Err(e) => n > self@.len() && e == MrtError::Truncated,
            },
    {
        proof {
            use_type_invariant(self);
        }
        if n > self.data.len() - self.pos {
            return Err(MrtError::Truncated);
        }
        let s = slice_subrange(self.data, self.pos, self.pos + n);
        assert(s@ =~= self@.take(n as int));
        Ok(s)
    }

    /// Skips the next `n` bytes. A reader that holds fewer is left as it was.
    pub fn consume(&mut self, n: usize) -> (r: Result<(), MrtError>)
        ensures
            match r {
                Ok(_) => old(self).advanced(*final(self), n as nat),
                Err(e) => n > old(self)@.len() && e == MrtError::Truncated && *final(self) == *old(
                    self),
            },
    {
        proof {
            use_type_invariant(&*self);
        }
        if n > self.data.len() - self.pos {
            return Err(MrtError::Truncated);
        }
        assert(self.data@.skip(self.pos as int).skip(n as int) =~= self.data@.skip(self.pos + n));
        self.pos = self.pos + n;
        Ok(())
    }

    /// Consumes and returns the next `n` bytes.
    pub fn read_exact(&mut self, n: usize) -> (r: Result<&'a [u8], MrtError>)
        ensures
            match r {
                Ok(s) => s@ == old(self)@.take(n as int) && old(self).advanced(
                    *final(self),
                    n as nat,
                ),
                Err(e) => n > old(self)@.len() && e == MrtError::Truncated && *final(self) == *old(
                    self),
            },
    {
        let s = self.peek(n)?;
        self.consume(n)?;
        Ok(s)
    }

    /// Consumes one byte.
    pub fn read_u8(&mut self) -> (r: Result<u8, MrtError>)
        ensures
            match r {
                Ok(v) => v == old(self)@[0] && old(self).advanced(*final(self), 1),
                Err(e) => 1 > old(self)@.len() && e == MrtError::Truncated && *final(self) == *old(
                    self),
            },
    {
        let s = self.read_exact(1)?;
        Ok(s[0])
    }

    /// Consumes two bytes and decodes them as a big-endian number.
    pub fn read_u16(&mut self) -> (r: Result<u16, MrtError>)
        ensures
            match r {
                Ok(v) => v == be_value(old(self)@.take(2)) && old(self).advanced(*final(self), 2),
                Err(e) => 2 > old(self)@.len() && e == MrtError::Truncated && *final(self) == *old(
                    self),
            },
    {
        let s = self.read_exact(2)?;
        assert(s@.subrange(0, 2) =~= s@);
        Ok(be_u16(s))
    }

    /// Consumes four bytes and decodes them as a big-endian number.
    pub fn read_u32(&mut self) -> (r: Result<u32, MrtError>)
        ensures
            match r {
                Ok(v) => v == be_value(old(self)@.take(4)) && old(self).advanced(*final(self), 4),
                Err(e) => 4 > old(self)@.len() && e == MrtError::Truncated && *final(self) == *old(
                    self),
            },
    {
        let s = self.read_exact(4)?;
        assert(s@.subrange(0, 4) =~= s@);
        Ok(be_u32(s))
    }

    /// Consumes sixteen bytes and decodes them as a big-endian number.
    pub fn read_u128(&mut self) -> (r: Result<u128, MrtError>)
        ensures
            match r {
                Ok(v) => v == be_value(old(self)@.take(16)) && old(self).advanced(
                    *final(self),
                    16,
                ),
                Err(e) => 16 > old(self)@.len() && e == MrtError::Truncated && *final(self)
                    == *old(self),
            },
    {
        let s = self.read_exact(16)?;
        assert(s@.subrange(0, 16) =~= s@);
        Ok(be_u128(s))
    }
}

} // verus!

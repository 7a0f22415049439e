//! The read cursor that every decode advances.
use vstd::prelude::*;

use crate::error::Error;

verus! {

/// A read cursor over an owned byte buffer.
pub struct Decoder {
    pub index: usize,
    pub bytes: Vec<u8>,
}

impl Decoder {
    /// The bytes not yet read; empty when the index lies past the end.
    pub open spec fn rest(&self) -> Seq<u8> {
        if self.index <= self.bytes@.len() {
            self.bytes@.subrange(self.index as int, self.bytes@.len() as int)
        } else {
            Seq::empty()
        }
    }

    /// Moving from `before` to `self` consumed `n` bytes of the same buffer.
    pub open spec fn advanced(self, before: Decoder, n: nat) -> bool {
        &&& self.bytes@ == before.bytes@
        &&& self.index == before.index + n
    }

    /// After advancing past `n` of the bytes that remained, what remains is the rest
    /// of them.
    pub proof fn lemma_advanced_rest(self, before: Decoder, n: nat)
        requires
            self.advanced(before, n),
            n <= before.rest().len(),
        ensures
            self.rest() == before.rest().skip(n as int),
    {
        assert(self.rest() =~= before.rest().skip(n as int));
    }

    /// A cursor at the start of `bytes`.
    pub fn new(bytes: Vec<u8>) -> (r: Self)
        ensures
            r.index == 0,
            r.bytes@ == bytes@,
            r.rest() == bytes@,
    {
        Decoder { index: 0, bytes }
    }

    /// Reads one byte.
    pub fn read_byte(&mut self) -> (r: Result<u8, Error>)
        ensures
            final(self).bytes@ == old(self).bytes@,
            old(self).rest().len() >= 1 ==> r == Ok::<u8, Error>(old(self).rest()[0])
                && final(self).advanced(*old(self), 1),
            old(self).rest().len() < 1 ==> r == Err::<u8, Error>(Error::Truncated)
                && final(self).index == old(self).index,
    {
        if self.index < self.bytes.len() {
            let b = self.bytes[self.index];
            self.index = self.index + 1;
            Ok(b)
        } else {
            Err(Error::Truncated)
        }
    }

    /// Reads the next `width` bytes.
    pub fn read_fixed(&mut self, width: usize) -> (r: Result<Vec<u8>, Error>)
        ensures
            final(self).bytes@ == old(self).bytes@,
            old(self).rest().len() >= width ==> r is Ok && r->Ok_0@ == old(self).rest().take(
                width as int,
            ) && final(self).advanced(*old(self), width as nat),
            old(self).rest().len() < width ==> r == Err::<Vec<u8>, Error>(Error::Truncated)
                && final(self).index == old(self).index,
    {
        if width == 0 {
            return Ok(Vec::new());
        }
        if self.index > self.bytes.len() || self.bytes.len() - self.index < width {
            return Err(Error::Truncated);
        }
        let mut out: Vec<u8> = Vec::with_capacity(width);
        let mut i: usize = 0;
        while i < width
            invariant
                self.index + width <= self.bytes@.len() <= usize::MAX,
                i <= width,
                out@ == self.bytes@.subrange(self.index as int, self.index + i),
            decreases width - i,
        {
            out.push(self.bytes[self.index + i]);
            i = i + 1;
            assert(out@ =~= self.bytes@.subrange(self.index as int, self.index + i));
        }
        assert(out@ =~= self.rest().take(width as int));
        self.index = self.index + width;
        Ok(out)
    }
}

} // verus!

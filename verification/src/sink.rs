//! The container as a sink of bytes: each byte written is one element pushed.

use crate::model::max_len;
use crate::rle::RleVec;
use vstd::prelude::*;

verus! {

/// A cursor that hands out the bytes of a slice by value.
pub(crate) struct Bytes<'a> {
    buf: &'a [u8],
    at: usize,
}

impl<'a> Bytes<'a> {
    #[verifier::type_invariant]
    closed spec fn inv(&self) -> bool {
        self.at <= self.buf@.len()
    }

    /// The bytes still to come.
    pub(crate) closed spec fn rest(&self) -> Seq<u8> {
        self.buf@.subrange(self.at as int, self.buf@.len() as int)
    }

    /// Returns a cursor at the first byte of `buf`.
    pub(crate) fn new(buf: &'a [u8]) -> (bytes: Bytes<'a>)
        ensures
            bytes.rest() == buf@,
    {
        let bytes = Bytes { buf, at: 0 };
        assert(bytes.rest() =~= buf@);
        bytes
    }
}

impl<'a> vstd::std_specs::iter::IteratorSpecImpl for Bytes<'a> {
    closed spec fn obeys_prophetic_iter_laws(&self) -> bool {
        true
    }

    closed spec fn remaining(&self) -> Seq<u8> {
        self.rest()
    }

    closed spec fn will_return_none(&self) -> bool {
        true
    }

    closed spec fn decrease(&self) -> Option<nat> {
        Some(self.rest().len())
    }

    closed spec fn initial_value_relation(&self, init: &Self) -> bool {
        init.rest() == self.rest()
    }

    closed spec fn peek(&self, index: int) -> Option<u8> {
        if 0 <= index < self.rest().len() {
            Some(self.rest()[index])
        } else {
            None
        }
    }
}

impl<'a> Iterator for Bytes<'a> {
    type Item = u8;

    /// Returns the next byte, or `None` behind the last one.
    fn next(&mut self) -> (byte: Option<u8>) {
        proof {
            use_type_invariant(&*self);
        }
        if self.at < self.buf.len() {
            let byte = self.buf[self.at];
            let ghost before = self.rest();
            self.at = self.at + 1;
            assert(self.rest() =~= before.drop_first());
            Some(byte)
        } else {
            None
        }
    }
}

impl RleVec<u8> {
    /// Appends each byte of `buf` as one element and returns how many bytes were
    /// taken: all of them.
    pub fn write(&mut self, buf: &[u8]) -> (written: usize)
        requires
            old(self).wf(),
            old(self)@.len() + buf@.len() <= max_len(),
        ensures
            final(self).wf(),
            final(self)@ == old(self)@ + buf@,
            written == buf@.len(),
    {
        self.extend(Bytes::new(buf));
        buf.len()
    }

    /// Appends each byte of `buf` as one element.
    pub fn write_all(&mut self, buf: &[u8])
        requires
            old(self).wf(),
            old(self)@.len() + buf@.len() <= max_len(),
        ensures
            final(self).wf(),
            final(self)@ == old(self)@ + buf@,
    {
        self.extend(Bytes::new(buf));
    }

    /// Nothing is held back, so there is nothing to flush: the container stays
    /// as it is.
    pub fn flush(&mut self)
        ensures
            *final(self) == *old(self),
    {
    }
}

} // verus!

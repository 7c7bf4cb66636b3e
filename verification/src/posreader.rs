//! A reader wrapper that remembers how many bytes were consumed.

use vstd::prelude::*;

verus! {

/// `PosReader` wraps a byte source and reports the position reached so
/// far, so offsets can be reported without seeking.
#[derive(Debug)]
pub struct PosReader<R> {
    pub r: R,
    pub offset: usize,
}

impl<R> PosReader<R> {
    pub fn new(r: R, offset: usize) -> (p: Self)
        ensures
            p.r == r,
            p.offset == offset,
    {
        PosReader { r, offset }
    }

    pub fn current_offset(&self) -> (n: usize)
        ensures
            n == self.offset,
    {
        self.offset
    }

    pub fn advance(&mut self, n: usize)
        requires
            old(self).offset + n <= usize::MAX,
        ensures
            final(self).r == old(self).r,
            final(self).offset == old(self).offset + n,
    {
        self.offset = self.offset + n;
    }

    pub fn into_inner(self) -> (r: R)
        ensures
            r == self.r,
    {
        self.r
    }
}

} // verus!

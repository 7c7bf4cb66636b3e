//! A writer wrapper that remembers how many bytes were written.

use vstd::prelude::*;

verus! {

/// `PosWriter` wraps a byte sink and tracks the byte offset advanced by
/// every write, so offsets can be reported without seeking.
#[derive(Debug)]
pub struct PosWriter<W> {
    pub w: W,
    pub offset: u64,
}

impl<W> PosWriter<W> {
    pub fn new(w: W, offset: u64) -> (r: Self)
        ensures
            r.w == w,
            r.offset == offset,
    {
        PosWriter { w, offset }
    }

    pub fn current_offset(&self) -> (r: u64)
        ensures
            r == self.offset,
    {
        self.offset
    }

    pub fn reset_offset(&mut self, offset: u64)
        ensures
            final(self).w == old(self).w,
            final(self).offset == offset,
    {
        self.offset = offset;
    }

    pub fn get_mut(&mut self) -> (r: &mut W)
        ensures
            *r == old(self).w,
            final(self).w == *final(r),
            final(self).offset == old(self).offset,
    {
        &mut self.w
    }

    pub fn into_inner(self) -> (r: W)
        ensures
            r == self.w,
    {
        self.w
    }
}

impl PosWriter<Vec<u8>> {
    /// Append a whole buffer to an in-memory sink, advancing the offset
    /// by the number of bytes written. The counter must not overflow.
    pub fn write_all(&mut self, buf: &[u8])
        requires
            old(self).offset + buf@.len() <= u64::MAX,
        ensures
            final(self).w@ == old(self).w@ + buf@,
            final(self).offset == old(self).offset + buf@.len(),
    {
        self.w.extend_from_slice(buf);
        self.offset = self.offset + buf.len() as u64;
    }
}

} // verus!

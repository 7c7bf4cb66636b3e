//! A generator of fixed-length strings in sorted order, for driving
//! tables with ascending keys in examples.

use vstd::prelude::*;
use crate::sorted_bytes_iterator::SortedBytesIterator;

verus! {

/// Relies on `String::from_utf8`: bytes below 128 are one-byte code
/// points, so the conversion succeeds and maps each byte to the same
/// character.
#[verifier::external_body]
fn ascii_bytes_to_string(v: Vec<u8>) -> (r: String)
    requires
        forall|i: int| 0 <= i < v@.len() ==> #[trigger] v@[i] < 128,
    ensures
        r@.len() == v@.len(),
        forall|i: int| 0 <= i < v@.len() ==> #[trigger] r@[i] == v@[i] as char,
{
    String::from_utf8(v).unwrap_or_default()
}

/// Yields all strings of a fixed length over a character range, in
/// strictly ascending order.
pub struct SortedStringIterator {
    inner: SortedBytesIterator,
}

impl SortedStringIterator {
    /// Internal consistency, including that every byte stays ASCII.
    pub closed spec fn wf(&self) -> bool {
        self.inner.wf() && self.inner.hi() < 128
    }

    /// The length of every yielded string.
    pub closed spec fn length(&self) -> nat {
        self.inner.length()
    }

    /// The least and greatest characters yielded, as bytes.
    pub closed spec fn lo(&self) -> u8 {
        self.inner.lo()
    }

    /// The greatest character yielded, as a byte.
    pub closed spec fn hi(&self) -> u8 {
        self.inner.hi()
    }

    /// The bytes of the last string yielded, if any.
    pub closed spec fn prev_bytes(&self) -> Option<Seq<u8>> {
        self.inner.prev()
    }

    /// Create an iterator over strings of `length` letters between `a`
    /// and `z`. The length must be positive.
    pub fn new(length: usize) -> (r: Self)
        requires
            length >= 1,
        ensures
            r.wf(),
            r.prev_bytes() == None::<Seq<u8>>,
            r.length() == length,
            r.lo() == 97,
            r.hi() == 122,
    {
        Self::new_first_last(length, 97, 122)
    }

    /// Customize the characters being yielded. The length must be
    /// positive and the range ascending, within ASCII.
    pub fn new_first_last(length: usize, first: u8, last: u8) -> (r: Self)
        requires
            length >= 1,
            first < last,
            last < 128,
        ensures
            r.wf(),
            r.prev_bytes() == None::<Seq<u8>>,
            r.length() == length,
            r.lo() == first,
            r.hi() == last,
    {
        SortedStringIterator { inner: SortedBytesIterator::with_bounds(length, first, last, 0) }
    }

    /// Yield the next string, or nothing once the greatest string was
    /// yielded: the first yield is the all-least string, and every yield
    /// is strictly greater than the one before it.
    pub fn next(&mut self) -> (r: Option<String>)
        requires
            old(self).wf(),
        ensures
            final(self).wf(),
            final(self).length() == old(self).length(),
            final(self).lo() == old(self).lo(),
            final(self).hi() == old(self).hi(),
            match r {
                Some(s) => final(self).prev_bytes() matches Some(p) && {
                    &&& s@.len() == old(self).length()
                    &&& p.len() == old(self).length()
                    &&& (forall|i: int| 0 <= i < p.len() ==> #[trigger] s@[i] == p[i] as char)
                    &&& (forall|i: int|
                        0 <= i < p.len() ==> old(self).lo() <= #[trigger] p[i] <= old(self).hi())
                    &&& (match old(self).prev_bytes() {
                        Some(q) => crate::lexorder::lex_lt(q, p),
                        None => p == Seq::new(old(self).length(), |i: int| old(self).lo()),
                    })
                },
                None => final(self).prev_bytes() == old(self).prev_bytes(),
            },
    {
        match self.inner.next() {
            Some(v) => Some(ascii_bytes_to_string(v)),
            None => None,
        }
    }
}

} // verus!

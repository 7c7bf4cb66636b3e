//! An iterator-like object that yields byte strings in sorted order,
//! used to drive tables with large volumes of ascending keys.

use vstd::prelude::*;
use crate::error::Error;
use crate::lexorder::lex_lt;
use vstd::slice::SliceAdditionalExecFns;

verus! {

/// Yields all byte strings of a fixed length over a byte range, in
/// strictly ascending order, up to an optional limit.
pub struct SortedBytesIterator {
    buf: Vec<u8>,
    current: usize,
    first: u8,
    last: u8,
    counter: usize,
    limit: usize,
    prev: Ghost<Option<Seq<u8>>>,
}

impl SortedBytesIterator {
    /// Bytes stay within the configured range, and the cursor within the
    /// buffer.
    pub closed spec fn wf(&self) -> bool {
        &&& self.buf@.len() >= 1
        &&& self.first < self.last
        &&& self.current <= self.buf@.len()
        &&& (forall|i: int|
            0 <= i < self.buf@.len() ==> self.first <= #[trigger] self.buf@[i] <= self.last)
        &&& (match self.prev@ {
            Some(p) => p == self.buf@,
            None => true,
        })
        &&& (self.current == self.buf@.len() ==> self.prev@ is None)
        &&& (self.prev@ is None ==> self.current == self.buf@.len())
        &&& (self.prev@ is None ==> forall|i: int|
            0 <= i < self.buf@.len() ==> #[trigger] self.buf@[i] == self.first)
        &&& (self.current < self.buf@.len() ==> forall|i: int|
            self.current < i < self.buf@.len() ==> #[trigger] self.buf@[i] == self.last)
    }

    /// The last value yielded, if any.
    pub closed spec fn prev(&self) -> Option<Seq<u8>> {
        self.prev@
    }

    /// The greatest byte this iterator ever yields.
    pub closed spec fn hi(&self) -> u8 {
        self.last
    }

    /// The least byte this iterator ever yields.
    pub closed spec fn lo(&self) -> u8 {
        self.first
    }

    /// The length of every yielded string.
    pub closed spec fn length(&self) -> nat {
        self.buf@.len()
    }

    /// How many strings were yielded so far (saturating).
    pub closed spec fn count(&self) -> nat {
        self.counter as nat
    }

    /// The configured yield limit; zero means none.
    pub closed spec fn yield_limit(&self) -> nat {
        self.limit as nat
    }

    /// Create an iterator yielding byte strings of length `length` with
    /// bytes between `b'a'` and `b'z'`, at most `limit` of them (no limit
    /// when zero).
    pub fn new(length: usize, limit: usize) -> (r: Result<Self, Error>)
        ensures
            length >= 1 ==> (r matches Ok(it) && it.wf() && it.prev() == None::<Seq<u8>>
                && it.length() == length && it.lo() == 97 && it.hi() == 122 && it.count() == 0
                && it.yield_limit() == limit),
            length == 0 ==> (r matches Err(e) && e is ProgrammingError),
    {
        Self::new_first_last(length, 97, 122, limit)
    }

    /// Reset the state of the iterator to initial.
    pub fn reset(&mut self)
        requires
            old(self).wf(),
        ensures
            final(self).wf(),
            final(self).prev() == None::<Seq<u8>>,
            final(self).count() == 0,
            final(self).length() == old(self).length(),
            final(self).lo() == old(self).lo(),
            final(self).hi() == old(self).hi(),
            final(self).yield_limit() == old(self).yield_limit(),
    {
        let n = self.buf.len();
        let mut i: usize = 0;
        while i < n
            invariant
                0 <= i <= n,
                n == self.buf@.len(),
                n == old(self).buf@.len(),
                self.first == old(self).first,
                self.last == old(self).last,
                self.limit == old(self).limit,
                self.first < self.last,
                forall|j: int| 0 <= j < i ==> #[trigger] self.buf@[j] == self.first,
                forall|j: int|
                    0 <= j < n ==> self.first <= #[trigger] self.buf@[j] <= self.last,
            decreases n - i,
        {
            self.buf.set(i, self.first);
            i = i + 1;
        }
        self.current = self.buf.len();
        self.counter = 0;
        proof {
            self.prev@ = None;
        }
    }

    /// Customize the bytes being yielded: strings of `length` bytes, each
    /// between `first` and `last`.
    pub fn new_first_last(length: usize, first: u8, last: u8, limit: usize) -> (r: Result<
        Self,
        Error,
    >)
        ensures
            (length >= 1 && first < last) ==> (r matches Ok(it) && it.wf() && it.prev() == None::<
                Seq<u8>,
            > && it.length() == length && it.lo() == first && it.hi() == last && it.count() == 0
                && it.yield_limit() == limit),
            length == 0 ==> (r matches Err(e) && e is ProgrammingError),
            (length >= 1 && first >= last) ==> (r matches Err(e) && e is ProgrammingError),
    {
        if length == 0 {
            return Err(Error::ProgrammingError("length should be greater than 0"));
        }
        if last <= first {
            return Err(Error::ProgrammingError("expected last > first"));
        }
        Ok(Self::with_bounds(length, first, last, limit))
    }

    /// Build an iterator from already validated bounds.
    pub fn with_bounds(length: usize, first: u8, last: u8, limit: usize) -> (r: Self)
        requires
            length >= 1,
            first < last,
        ensures
            r.wf(),
            r.prev() == None::<Seq<u8>>,
            r.length() == length,
            r.lo() == first,
            r.hi() == last,
            r.count() == 0,
            r.yield_limit() == limit,
    {
        let mut buf: Vec<u8> = Vec::new();
        let mut i: usize = 0;
        while i < length
            invariant
                0 <= i <= length,
                buf@.len() == i,
                forall|j: int| 0 <= j < i ==> #[trigger] buf@[j] == first,
            decreases length - i,
        {
            buf.push(first);
            i = i + 1;
        }
        SortedBytesIterator {
            buf,
            current: length,
            first,
            last,
            counter: 0,
            limit,
            prev: Ghost(None),
        }
    }

    /// Yield the next byte string, or nothing once the limit or the
    /// greatest string is reached: the first yield is the all-least
    /// string, every yield is strictly greater than the one before it,
    /// and the answer is empty exactly when the limit was reached or the
    /// all-greatest string was already yielded.
    pub fn next(&mut self) -> (r: Option<Vec<u8>>)
        requires
            old(self).wf(),
        ensures
            final(self).wf(),
            final(self).hi() == old(self).hi(),
            final(self).lo() == old(self).lo(),
            final(self).length() == old(self).length(),
            final(self).yield_limit() == old(self).yield_limit(),
            match r {
                Some(v) => {
                    &&& final(self).prev() == Some(v@)
                    &&& v@.len() == old(self).length()
                    &&& (forall|i: int|
                        0 <= i < v@.len() ==> old(self).lo() <= #[trigger] v@[i] <= old(
                            self,
                        ).hi())
                    &&& (match old(self).prev() {
                        Some(p) => lex_lt(p, v@),
                        None => v@ == Seq::new(old(self).length(), |i: int| old(self).lo()),
                    })
                    &&& !(old(self).yield_limit() > 0 && old(self).count() == old(
                        self,
                    ).yield_limit())
                    &&& old(self).prev() != Some(Seq::new(old(self).length(), |i: int| old(self).hi()))
                    &&& final(self).count() == if old(self).count() < usize::MAX {
                        old(self).count() + 1
                    } else {
                        old(self).count()
                    }
                },
                None => {
                    &&& final(self).prev() == old(self).prev()
                    &&& final(self).count() == old(self).count()
                    &&& ((old(self).yield_limit() > 0 && old(self).count() == old(
                        self,
                    ).yield_limit()) || old(self).prev() == Some(
                        Seq::new(old(self).length(), |i: int| old(self).hi()),
                    ))
                },
            },
    {
        let buflen = self.buf.len();
        if self.limit > 0 && self.counter == self.limit {
            return None;
        }
        if self.current == buflen {
            // The very first call yields the initial buffer.
            self.current = buflen - 1;
        } else {
            let ghost oldbuf = self.buf@;
            let mut done: bool = false;
            while !done
                invariant
                    !done ==> 0 <= self.current < self.buf@.len(),
                    done ==> self.current < self.buf@.len(),
                    self.buf@.len() == buflen,
                    self.first < self.last,
                    forall|i: int|
                        0 <= i < self.buf@.len() ==> self.first <= #[trigger] self.buf@[i]
                            <= self.last,
                    old(self).wf(),
                    oldbuf == old(self).buf@,
                    self.first == old(self).first,
                    self.last == old(self).last,
                    self.limit == old(self).limit,
                    self.counter == old(self).counter,
                    self.prev@ == old(self).prev@,
                    !done ==> (forall|i: int|
                        self.current < i < self.buf@.len() ==> #[trigger] oldbuf[i]
                            == self.last),
                    !done ==> self.buf@ == oldbuf,
                    done ==> lex_lt(oldbuf, self.buf@),
                    done ==> self.current == buflen - 1,
                    done ==> exists|i: int| 0 <= i < buflen && #[trigger] oldbuf[i] < self.last,
                decreases (if done {
                        0int
                    } else {
                        self.current + 1
                    }),
            {
                let cur = self.current;
                let val = self.buf[cur];
                if val < self.last {
                    self.buf.set(cur, val + 1);
                    let mut v: usize = cur + 1;
                    while v < buflen
                        invariant
                            cur + 1 <= v <= buflen,
                            self.buf@.len() == buflen,
                            cur < buflen,
                            self.first < self.last,
                            oldbuf == old(self).buf@,
                            self.first == old(self).first,
                            self.last == old(self).last,
                            self.limit == old(self).limit,
                            self.counter == old(self).counter,
                            self.prev@ == old(self).prev@,
                            self.buf@[cur as int] == val + 1,
                            val + 1 <= self.last,
                            forall|i: int|
                                0 <= i < cur ==> #[trigger] self.buf@[i] == oldbuf[i],
                            forall|i: int|
                                cur < i < v ==> #[trigger] self.buf@[i] == self.first,
                            forall|i: int|
                                0 <= i < self.buf@.len() ==> self.first <= #[trigger] self.buf@[i]
                                    <= self.last,
                        decreases buflen - v,
                    {
                        self.buf.set(v, self.first);
                        v = v + 1;
                    }
                    proof {
                        lemma_increment_lt(oldbuf, self.buf@, cur as int, val);
                    }
                    self.current = buflen - 1;
                    done = true;
                } else {
                    if cur == 0 {
                        proof {
                            assert forall|i: int|
                                self.current < i < self.buf@.len() implies #[trigger] self.buf@[i]
                                == self.last by {
                                assert(oldbuf[i] == self.last);
                            }
                            assert(oldbuf =~= Seq::new(
                                old(self).length(),
                                |i: int| old(self).hi(),
                            ));
                            assert(old(self).prev@ == Some(oldbuf));
                            assert(self.prev@ == old(self).prev@);
                            assert(self.buf@ == old(self).buf@);
                            assert(old(self).wf());
                            assert(match old(self).prev@ {
                                Some(p) => p == old(self).buf@,
                                None => true,
                            });
                            assert(match self.prev@ {
                                Some(p) => p == self.buf@,
                                None => true,
                            });
                        }
                        return None;
                    }
                    self.current = cur - 1;
                }
            }
        }
        if self.counter < usize::MAX {
            self.counter = self.counter + 1;
        }
        let out = copy_bytes(&self.buf);
        proof {
            self.prev@ = Some(self.buf@);
            assert(match self.prev@ {
                Some(p) => p == self.buf@,
                None => true,
            });
            match old(self).prev@ {
                Some(p) => {
                    // An increment happened, so the previous string had a
                    // byte below the greatest: it was not the all-greatest
                    // string.
                    assert(p == old(self).buf@);
                    if p == Seq::new(old(self).length(), |i: int| old(self).hi()) {
                        let i = choose|i: int|
                            0 <= i < old(self).buf@.len() && #[trigger] old(self).buf@[i]
                                < old(self).last;
                        assert(p[i] == old(self).hi());
                        assert(false);
                    }
                },
                None => {
                    assert(self.buf@ =~= Seq::new(old(self).length(), |i: int| old(self).lo()));
                },
            }
            assert(self.wf());
        }
        Some(out)
    }
}

/// Prefix-equal up to a position where the new buffer is strictly larger
/// means lexicographically greater.
proof fn lemma_increment_lt(a: Seq<u8>, b: Seq<u8>, cur: int, val: u8)
    requires
        a.len() == b.len(),
        0 <= cur < a.len(),
        forall|i: int| 0 <= i < cur ==> #[trigger] b[i] == a[i],
        a[cur] == val,
        b[cur] == val + 1,
    ensures
        lex_lt(a, b),
    decreases cur,
{
    if cur == 0 {
    } else {
        let a1 = a.subrange(1, a.len() as int);
        let b1 = b.subrange(1, b.len() as int);
        lemma_increment_lt(a1, b1, cur - 1, val);
    }
}

/// Copy a byte buffer.
fn copy_bytes(v: &Vec<u8>) -> (r: Vec<u8>)
    ensures
        r@ == v@,
{
    let mut out: Vec<u8> = Vec::new();
    out.extend_from_slice(v.as_slice());
    proof {
        assert(out@ =~= v@);
    }
    out
}

} // verus!

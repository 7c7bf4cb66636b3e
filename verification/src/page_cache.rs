//! Caching the results of reading and uncompressing disk pages.
//!
//! A page cache returns byte chunks of a given length at a given offset.
//! The static buffer cache serves bounds-checked slices of an owned
//! buffer (the in-memory image of the file); decompressed chunks are
//! remembered in an LRU keyed by the chunk's offset, which is stable and
//! unique per chunk.

use vstd::prelude::*;
use crate::error::Error;

verus! {

#[verifier::external_type_specification]
#[verifier::external_body]
#[verifier::reject_recursive_types(K)]
#[verifier::reject_recursive_types(V)]
#[verifier::reject_recursive_types(S)]
pub struct ExLruCache<K, V, S>(lru::LruCache<K, V, S>);

/// The LRU cache of chunk bytes, keyed by chunk offset.
pub type ChunkLru = lru::LruCache<u64, Vec<u8>, std::collections::hash_map::RandomState>;

/// The key-value pairs an LRU cache currently holds.
pub uninterp spec fn spec_lru_contents(c: ChunkLru) -> Map<u64, Seq<u8>>;

/// Relies on `lru::LruCache::with_hasher`: an empty cache holding at
/// most `cap` entries. A zero capacity is rejected: the crate's eviction
/// path does not support it.
#[verifier::external_body]
pub fn lru_new(cap: usize) -> (r: ChunkLru)
    requires
        cap >= 1,
    ensures
        spec_lru_contents(r) == (Map::<u64, Seq<u8>>::empty()),
{
    lru::LruCache::with_hasher(cap, std::collections::hash_map::RandomState::new())
}

/// Relies on `lru::LruCache::unbounded_with_hasher`: an empty cache that
/// never evicts.
#[verifier::external_body]
pub fn lru_unbounded() -> (r: ChunkLru)
    ensures
        spec_lru_contents(r) == (Map::<u64, Seq<u8>>::empty()),
{
    lru::LruCache::unbounded_with_hasher(std::collections::hash_map::RandomState::new())
}

/// Relies on `lru::LruCache::get`: answers exactly the held pair and only
/// touches the recency order (the contents stay the same). The value is
/// cloned out so no borrow of the cache escapes.
#[verifier::external_body]
pub fn lru_get(c: &mut ChunkLru, k: u64) -> (r: Option<Vec<u8>>)
    ensures
        spec_lru_contents(*final(c)) == spec_lru_contents(*old(c)),
        match r {
            Some(v) => spec_lru_contents(*old(c)).contains_key(k) && v@ == spec_lru_contents(
                *old(c),
            )[k],
            None => !spec_lru_contents(*old(c)).contains_key(k),
        },
{
    c.get(&k).cloned()
}

/// Relies on `lru::LruCache::put`: afterwards the cache holds this pair,
/// and every other held pair was already held (eviction may drop the
/// least recently used entry, never change one).
#[verifier::external_body]
pub fn lru_put(c: &mut ChunkLru, k: u64, v: Vec<u8>)
    ensures
        spec_lru_contents(*final(c)).contains_key(k),
        spec_lru_contents(*final(c))[k] == v@,
        forall|k2: u64| #[trigger]
            spec_lru_contents(*final(c)).contains_key(k2) ==> k2 == k || (spec_lru_contents(
                *old(c),
            ).contains_key(k2) && spec_lru_contents(*final(c))[k2] == spec_lru_contents(*old(c))[k2]),
{
    c.put(k, v);
}

/// PageCache is something that can return byte chunks of a given length,
/// given an offset into a backing byte region.
pub trait PageCache: Sized {
    /// Internal consistency.
    spec fn wf(&self) -> bool;

    /// The byte region chunks are served from.
    spec fn backing(&self) -> Seq<u8>;

    /// Return the chunk of `length` bytes at `offset`, bounds-checked.
    fn get_chunk(&mut self, offset: u64, length: u64) -> (r: Result<Vec<u8>, Error>)
        requires
            old(self).wf(),
        ensures
            final(self).wf(),
            final(self).backing() == old(self).backing(),
            offset + length <= old(self).backing().len() ==> (r matches Ok(v) && v@ == old(
                self,
            ).backing().subrange(offset as int, offset + length)),
            offset + length > old(self).backing().len() ==> (r matches Err(e) && e is InvalidData),
    ;
}

/// A page cache over a buffer held in memory: a bounds-checked slice with
/// no I/O, no allocation beyond the copy, and no caching.
pub struct StaticBufCache {
    buf: Vec<u8>,
}

impl StaticBufCache {
    pub fn new(buf: Vec<u8>) -> (r: Self)
        ensures
            r.wf(),
            r.backing() == buf@,
    {
        StaticBufCache { buf }
    }

    /// The whole backing buffer.
    pub fn get_buf(&self) -> (r: &Vec<u8>)
        ensures
            r@ == self.backing(),
    {
        &self.buf
    }
}

impl PageCache for StaticBufCache {
    open spec fn wf(&self) -> bool {
        true
    }

    closed spec fn backing(&self) -> Seq<u8> {
        self.buf@
    }

    fn get_chunk(&mut self, offset: u64, length: u64) -> (r: Result<Vec<u8>, Error>) {
        let n = self.buf.len();
        if offset > n as u64 || length > (n as u64) - offset {
            return Err(Error::invalid_data());
        }
        let s = vstd::slice::slice_subrange(
            self.buf.as_slice(),
            offset as usize,
            (offset + length) as usize,
        );
        Ok(vstd::slice::slice_to_vec(s))
    }
}

} // verus!

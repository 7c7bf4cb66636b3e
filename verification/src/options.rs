//! Options controlling how tables are written and read.

use vstd::prelude::*;
use crate::types::Compression;

verus! {

/// Relies on `num_cpus::get`: returns the number of logical cores, which the
/// crate documents to be at least 1.
#[verifier::external_body]
fn cpu_count() -> (r: usize)
    ensures
        r >= 1,
{
    num_cpus::get()
}

/// The configuration for the bloom filter.
#[derive(Debug, Copy, Clone, PartialEq, Eq, Structural)]
pub struct BloomConfig {
    /// Size of the bloom bitmap, in bytes.
    pub bitmap_size: usize,
    /// Expected number of items in the table.
    pub items_count: usize,
}

impl Default for BloomConfig {
    fn default() -> (r: Self)
        ensures
            r.bitmap_size == 1_000_000,
            r.items_count == 1_000_000,
    {
        Self { bitmap_size: 1_000_000, items_count: 1_000_000 }
    }
}

/// Options for writing sstables.
#[derive(Debug, Copy, Clone, PartialEq, Eq, Structural)]
pub struct WriteOptions {
    /// Compression to use. The default is no compression.
    pub compression: Compression,
    /// Approximate compressed-byte target per chunk.
    pub flush_every: usize,
    /// Options for the bloom filter.
    pub bloom: BloomConfig,
}

impl WriteOptions {
    pub fn new() -> (r: Self)
        ensures
            r == WriteOptions::spec_default(),
    {
        Self::default()
    }

    /// The value `Default::default` returns.
    pub open spec fn spec_default() -> Self {
        WriteOptions {
            compression: Compression::Plain,
            flush_every: 4096,
            bloom: BloomConfig { bitmap_size: 1_000_000, items_count: 1_000_000 },
        }
    }

    pub fn compression(&mut self, compression: Compression) -> (r: &mut Self)
        ensures
            *r == (WriteOptions { compression, ..*old(self) }),
            *final(self) == *final(r),
    {
        self.compression = compression;
        self
    }

    pub fn flush_every(&mut self, flush_every: usize) -> (r: &mut Self)
        ensures
            *r == (WriteOptions { flush_every, ..*old(self) }),
            *final(self) == *final(r),
    {
        self.flush_every = flush_every;
        self
    }

    pub fn bloom(&mut self, bloom: BloomConfig) -> (r: &mut Self)
        ensures
            *r == (WriteOptions { bloom, ..*old(self) }),
            *final(self) == *final(r),
    {
        self.bloom = bloom;
        self
    }
}

impl Default for WriteOptions {
    fn default() -> (r: Self)
        ensures
            r == WriteOptions::spec_default(),
    {
        WriteOptions {
            compression: Compression::Plain,
            flush_every: 4096,
            bloom: BloomConfig { bitmap_size: 1_000_000, items_count: 1_000_000 },
        }
    }
}

/// Configures the caches for reading.
#[derive(Copy, Clone, Debug, PartialEq, Eq, Structural)]
pub enum ReadCache {
    /// How many chunks (blocks) to store in the LRU.
    Blocks(usize),
    /// Unbounded cache, the default.
    Unbounded,
}

impl ReadCache {
    /// A cache configuration is usable when a bounded cache holds at least
    /// one block; `lru::LruCache` does not support a zero capacity.
    pub open spec fn spec_valid(self) -> bool {
        match self {
            ReadCache::Blocks(b) => b >= 1,
            ReadCache::Unbounded => true,
        }
    }

    /// Executable form of `spec_valid`.
    pub fn valid(&self) -> (r: bool)
        ensures
            r == self.spec_valid(),
    {
        match self {
            ReadCache::Blocks(b) => *b >= 1,
            ReadCache::Unbounded => true,
        }
    }
}

impl Default for ReadCache {
    fn default() -> (r: Self)
        ensures
            r == ReadCache::Unbounded,
    {
        Self::Unbounded
    }
}

/// Options for reading sstables.
#[derive(Copy, Clone, Debug, PartialEq, Eq, Structural)]
pub struct ReadOptions {
    /// The caching strategy to use.
    pub cache: Option<ReadCache>,
    /// If mmap can be used for reading the sstable from disk.
    pub use_mmap: bool,
    /// How many buckets to split the caches into for efficient
    /// thread-safe access.
    pub thread_buckets: Option<usize>,
    /// Set if you want to use bloom filters during lookups.
    pub use_bloom: bool,
}

impl ReadOptions {
    pub fn new() -> (r: Self)
        ensures
            r.cache == Some(ReadCache::Unbounded),
            r.use_mmap == true,
            r.use_bloom == true,
            (r.thread_buckets is Some),
    {
        Self::default()
    }

    pub fn cache(&mut self, cache: Option<ReadCache>) -> (r: &mut Self)
        ensures
            *r == (ReadOptions { cache, ..*old(self) }),
            *final(self) == *final(r),
    {
        self.cache = cache;
        self
    }

    pub fn use_mmap(&mut self, use_mmap: bool) -> (r: &mut Self)
        ensures
            *r == (ReadOptions { use_mmap, ..*old(self) }),
            *final(self) == *final(r),
    {
        self.use_mmap = use_mmap;
        self
    }

    pub fn use_bloom(&mut self, use_bloom: bool) -> (r: &mut Self)
        ensures
            *r == (ReadOptions { use_bloom, ..*old(self) }),
            *final(self) == *final(r),
    {
        self.use_bloom = use_bloom;
        self
    }

    pub fn thread_buckets(&mut self, thread_buckets: Option<usize>) -> (r: &mut Self)
        ensures
            *r == (ReadOptions { thread_buckets, ..*old(self) }),
            *final(self) == *final(r),
    {
        self.thread_buckets = thread_buckets;
        self
    }

    /// Whether every configured bound is one the caches can honour.
    pub open spec fn spec_valid(self) -> bool {
        match self.cache {
            Some(c) => c.spec_valid(),
            None => true,
        }
    }

    /// Executable form of `spec_valid`.
    pub fn valid(&self) -> (r: bool)
        ensures
            r == self.spec_valid(),
    {
        match &self.cache {
            Some(c) => c.valid(),
            None => true,
        }
    }
}

impl Default for ReadOptions {
    fn default() -> (r: Self)
        ensures
            r.cache == Some(ReadCache::Unbounded),
            r.use_mmap == true,
            r.use_bloom == true,
            (r.thread_buckets is Some),
    {
        Self {
            cache: Some(ReadCache::Unbounded),
            use_mmap: true,
            thread_buckets: Some(cpu_count()),
            use_bloom: true,
        }
    }
}

/// Options for the `get` method.
#[derive(Copy, Clone, Debug, PartialEq, Eq, Structural)]
pub struct GetOptions {
    /// Set this if you want to use the bloom filter to speed
    /// up negative lookups at a cost for positive lookups.
    pub use_bloom: bool,
}

impl GetOptions {
    pub fn new() -> (r: Self)
        ensures
            r == (GetOptions { use_bloom: true }),
    {
        Self::default()
    }

    pub fn use_bloom(&mut self, use_bloom: bool) -> (r: &mut Self)
        ensures
            *r == (GetOptions { use_bloom }),
            *final(self) == *final(r),
    {
        self.use_bloom = use_bloom;
        self
    }
}

impl Default for GetOptions {
    fn default() -> (r: Self)
        ensures
            r == (GetOptions { use_bloom: true }),
    {
        Self { use_bloom: true }
    }
}

} // verus!

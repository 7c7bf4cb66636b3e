//! SSTable writing facilities.
//!
//! `SSTableBuilder` assembles a complete table in memory: records are
//! grouped into chunks (one compression frame each), the sparse index
//! records every chunk's first key and frame offset, and the bloom filter
//! collects every key. `finish` emits the index region, the bloom region
//! and the final metadata, and returns the file's bytes, which callers
//! write to disk in one piece.

use vstd::prelude::*;
use crate::bloom::bloom_bitmap;
use crate::bloom::bloom_check;
use crate::bloom::bloom_new;
use crate::bloom::bloom_number_of_bits;
use crate::bloom::bloom_number_of_hash_functions;
use crate::bloom::bloom_set_key;
use crate::bloom::bloom_sip_keys;
use crate::bloom::spec_bitmap_model;
use crate::bloom::spec_bloom_config;
use crate::bloom::spec_bloom_set;
use crate::bloom::spec_bloom_wf;
use crate::compress_ctx_writer::CompressionContextWriter;
use crate::compress_ctx_writer::CompressionContextWriterImpl;
use crate::compress_ctx_writer::UncompressedWriter;
use crate::compression::SnappyCompressor;
use crate::compression::ZlibCompressor;
use crate::compression::spec_frame_of;
use crate::compression::spec_frames_concat;
use crate::compression::lemma_frames_concat_push;
use crate::error::Error;
use crate::lexorder::Cmp;
use crate::lexorder::cmp_bytes;
use crate::lexorder::lex_lt;
use crate::lexorder::lemma_lex_cmp_eq;
use crate::lexorder::lemma_lex_cmp_flip;
use crate::lexorder::lemma_lex_lt_trans;
use crate::ondisk_format::BloomV2_0;
use crate::ondisk_format::DATA_REGION_START;
use crate::ondisk_format::KEY_LENGTH_MAX;
use crate::ondisk_format::KVLength;
use crate::ondisk_format::KVOffset;
use crate::ondisk_format::MetaV2_0;
use crate::ondisk_format::VALUE_LENGTH_MAX;
use crate::ondisk_format::entries_sorted;
use crate::ondisk_format::entries_wf;
use crate::ondisk_format::record_wf;
use crate::ondisk_format::spec_chunks_flatten;
use crate::ondisk_format::spec_index_bytes;
use crate::ondisk_format::spec_index_entry_bytes;
use crate::ondisk_format::spec_records_bytes;
use crate::ondisk_format::spec_record_bytes;
use crate::ondisk_format::spec_table_rep;
use crate::ondisk_format::spec_table_complete;
use crate::ondisk_format::lemma_index_bytes_push;
use crate::ondisk_format::lemma_records_bytes_push;
use crate::ondisk_format::write_preamble;
use crate::options::WriteOptions;
use crate::types::Compression;
use crate::poswriter::PosWriter;

verus! {

/// One of the three frame writers, selected by the table's compression.
pub enum FrameWriter {
    Plain(UncompressedWriter),
    Zlib(CompressionContextWriterImpl<ZlibCompressor>),
    Snappy(CompressionContextWriterImpl<SnappyCompressor>),
}

impl FrameWriter {
    /// Internal consistency of the underlying writer.
    pub open spec fn wf(&self) -> bool {
        match self {
            FrameWriter::Plain(w) => w.wf(),
            FrameWriter::Zlib(w) => w.wf(),
            FrameWriter::Snappy(w) => w.wf(),
        }
    }

    /// The compression algorithm of every frame.
    pub open spec fn algo(&self) -> Compression {
        match self {
            FrameWriter::Plain(w) => w.algo(),
            FrameWriter::Zlib(w) => w.algo(),
            FrameWriter::Snappy(w) => w.algo(),
        }
    }

    /// The bytes that were in the sink when the writer was created.
    pub open spec fn prefix(&self) -> Seq<u8> {
        match self {
            FrameWriter::Plain(w) => w.prefix(),
            FrameWriter::Zlib(w) => w.prefix(),
            FrameWriter::Snappy(w) => w.prefix(),
        }
    }

    /// The plaintexts of the frames closed so far.
    pub open spec fn closed(&self) -> Seq<Seq<u8>> {
        match self {
            FrameWriter::Plain(w) => w.closed(),
            FrameWriter::Zlib(w) => w.closed(),
            FrameWriter::Snappy(w) => w.closed(),
        }
    }

    /// The plaintext fed into the current, still open frame.
    pub open spec fn pending(&self) -> Seq<u8> {
        match self {
            FrameWriter::Plain(w) => w.pending(),
            FrameWriter::Zlib(w) => w.pending(),
            FrameWriter::Snappy(w) => w.pending(),
        }
    }

    /// Select the frame writer for an algorithm, over a sink already
    /// holding `prefix` bytes.
    pub fn new(c: Compression, sink: Vec<u8>) -> (r: Self)
        ensures
            r.wf(),
            r.algo() == c,
            r.prefix() == sink@,
            r.closed() == Seq::<Seq<u8>>::empty(),
            r.pending() == Seq::<u8>::empty(),
    {
        match c {
            Compression::Plain => FrameWriter::Plain(UncompressedWriter::new(sink)),
            Compression::Zlib => FrameWriter::Zlib(
                CompressionContextWriterImpl::new(sink, ZlibCompressor),
            ),
            Compression::Snappy => FrameWriter::Snappy(
                CompressionContextWriterImpl::new(sink, SnappyCompressor),
            ),
        }
    }

    /// Feed bytes into the current frame.
    pub fn write_all(&mut self, buf: &[u8])
        requires
            old(self).wf(),
        ensures
            final(self).wf(),
            final(self).algo() == old(self).algo(),
            final(self).prefix() == old(self).prefix(),
            final(self).closed() == old(self).closed(),
            final(self).pending() == old(self).pending() + buf@,
    {
        match self {
            FrameWriter::Plain(w) => w.write_all(buf),
            FrameWriter::Zlib(w) => w.write_all(buf),
            FrameWriter::Snappy(w) => w.write_all(buf),
        }
    }

    /// Close the current frame and report the number of bytes emitted
    /// into the sink since creation.
    pub fn reset_compression_context(&mut self) -> (r: Result<usize, Error>)
        requires
            old(self).wf(),
        ensures
            final(self).wf(),
            final(self).algo() == old(self).algo(),
            final(self).prefix() == old(self).prefix(),
            final(self).closed() == old(self).closed().push(old(self).pending()),
            final(self).pending() == Seq::<u8>::empty(),
            r matches Ok(n) && n == spec_frames_concat(
                old(self).algo(),
                final(self).closed(),
            ).len(),
            (r matches Ok(n) ==> n + old(self).prefix().len() <= usize::MAX),
            old(self).pending().len() > 0 ==> spec_frame_of(
                old(self).algo(),
                old(self).pending(),
            ).len() > 0,
    {
        match self {
            FrameWriter::Plain(w) => w.reset_compression_context(),
            FrameWriter::Zlib(w) => w.reset_compression_context(),
            FrameWriter::Snappy(w) => w.reset_compression_context(),
        }
    }

    /// Hand the sink back, finishing any pending frame first.
    pub fn into_inner(self) -> (r: Result<Vec<u8>, Error>)
        requires
            self.wf(),
        ensures
            r matches Ok(v) && v@ == self.prefix() + spec_frames_concat(
                self.algo(),
                self.closed().push(self.pending()),
            ),
    {
        match self {
            FrameWriter::Plain(w) => w.into_inner(),
            FrameWriter::Zlib(w) => w.into_inner(),
            FrameWriter::Snappy(w) => w.into_inner(),
        }
    }
}


/// Represents an SSTable writer.
pub trait RawSSTableWriter: Sized {
    /// Internal consistency of the writer.
    spec fn wf(&self) -> bool;

    /// The entries written so far, in order.
    spec fn entries(&self) -> Seq<(Seq<u8>, Seq<u8>)>;

    /// The compression the table is written with.
    spec fn algo(&self) -> Compression;

    /// Set the key to the value. This method MUST be called in the sorted
    /// order. The keys MUST be unique. Setting an empty value is legal and
    /// is recorded too.
    fn set(&mut self, key: &[u8], value: &[u8]) -> (r: Result<(), Error>)
        requires
            old(self).wf(),
        ensures
            final(self).wf(),
            final(self).algo() == old(self).algo(),
            r is Ok ==> final(self).entries() == old(self).entries().push((key@, value@)),
            r is Err ==> final(self).entries() == old(self).entries(),
    ;

    /// Close the writer and flush everything to the underlying storage.
    fn close(self) -> (r: Result<(), Error>)
        requires
            self.wf(),
    ;
}

/// In a sorted entry sequence, every key is below a key greater than the
/// last one.
proof fn lemma_sorted_entries_push(es: Seq<(Seq<u8>, Seq<u8>)>, k: Seq<u8>, v: Seq<u8>)
    requires
        entries_sorted(es),
        es.len() > 0 ==> lex_lt(es.last().0, k),
    ensures
        entries_sorted(es.push((k, v))),
{
    let all = es.push((k, v));
    assert forall|i: int, j: int| 0 <= i < j < all.len() implies lex_lt(
        #[trigger] all[i].0,
        #[trigger] all[j].0,
    ) by {
        if j < es.len() {
            assert(all[i] == es[i] && all[j] == es[j]);
        } else {
            assert(all[j] == (k, v));
            if i < es.len() - 1 {
                assert(lex_lt(es[i].0, es[es.len() - 1].0));
                lemma_lex_lt_trans(es[i].0, es[es.len() - 1].0, k);
            }
        }
    }
}

/// SSTableBuilder assembles SSTables in memory, in strictly ascending key
/// order, and returns the finished file's bytes from `finish`.
pub struct SSTableBuilder {
    file: FrameWriter,
    compression: Compression,
    flush_every: usize,
    items: u64,
    sparse_index: Vec<(Vec<u8>, u64)>,
    bloom: bloomfilter::Bloom<[u8]>,
    pending_len: u64,
    last_key: Vec<u8>,
    chunk_open: bool,
    entries_g: Ghost<Seq<(Seq<u8>, Seq<u8>)>>,
    chunks_g: Ghost<Seq<Seq<(Seq<u8>, Seq<u8>)>>>,
    pending_g: Ghost<Seq<(Seq<u8>, Seq<u8>)>>,
}

impl SSTableBuilder {
    /// The chunk plaintexts of the closed chunks.
    pub closed spec fn chunk_bytes(&self) -> Seq<Seq<u8>> {
        Seq::new(self.chunks_g@.len(), |i: int| spec_records_bytes(self.chunks_g@[i]))
    }

    /// The sparse index accumulated so far, as key/offset pairs.
    pub closed spec fn sparse(&self) -> Seq<(Seq<u8>, u64)> {
        Seq::new(self.sparse_index@.len(), |i: int| (self.sparse_index@[i].0@, self.sparse_index@[i].1))
    }

    /// Internal consistency of the builder.
    pub closed spec fn wf(&self) -> bool {
        let entries = self.entries_g@;
        let chunks = self.chunks_g@;
        let pending = self.pending_g@;
        let sparse = self.sparse();
        let c = self.compression;
        &&& self.file.wf()
        &&& self.file.algo() == c
        &&& self.file.prefix().len() == DATA_REGION_START
        &&& self.file.closed() == self.chunk_bytes()
        &&& self.file.pending() == spec_records_bytes(pending)
        &&& (self.chunk_open <==> pending.len() > 0)
        &&& (self.chunk_open <==> self.items > 0)
        &&& (!self.chunk_open ==> self.pending_len == 0)
        &&& entries == spec_chunks_flatten(chunks) + pending
        &&& entries_wf(entries)
        &&& entries_sorted(entries)
        &&& self.items == entries.len()
        &&& (self.items > 0 ==> entries.len() > 0 && self.last_key@ == entries.last().0)
        &&& (forall|i: int| 0 <= i < chunks.len() ==> (#[trigger] chunks[i]).len() >= 1)
        &&& (forall|i: int| 0 <= i < chunks.len() ==> entries_sorted(#[trigger] chunks[i]))
        &&& (forall|i: int|
            0 <= i < chunks.len() ==> spec_frame_of(c, #[trigger] self.chunk_bytes()[i]).len()
                > 0)
        &&& entries_sorted(pending)
        &&& (if self.chunk_open {
            sparse.len() == chunks.len() + 1
        } else {
            chunks.len() == 0 && sparse.len() == 0
        })
        &&& (forall|i: int|
            0 <= i < chunks.len() ==> (#[trigger] sparse[i]).0 == chunks[i][0].0)
        &&& (forall|i: int|
            0 <= i < chunks.len() ==> (#[trigger] sparse[i]).1 == DATA_REGION_START
                + spec_frames_concat(c, self.chunk_bytes().take(i)).len())
        &&& (self.chunk_open ==> sparse.last().0 == pending[0].0 && sparse.last().1
            == DATA_REGION_START + spec_frames_concat(c, self.chunk_bytes()).len())
        &&& (forall|i: int, j: int|
            0 <= i < j < sparse.len() ==> lex_lt((#[trigger] sparse[i]).0, (#[trigger] sparse[j]).0)
                && sparse[i].1 < sparse[j].1)
        &&& (forall|i: int, p: int|
            0 <= i < chunks.len() && 0 <= p < (#[trigger] chunks[i]).len()
                ==> crate::lexorder::lex_le(sparse[i].0, (#[trigger] chunks[i][p]).0) && (i + 1
                < sparse.len() ==> lex_lt(chunks[i][p].0, sparse[i + 1].0)))
        &&& (self.chunk_open ==> forall|p: int|
            0 <= p < pending.len() ==> crate::lexorder::lex_le(
                sparse.last().0,
                (#[trigger] pending[p]).0,
            ))
        &&& spec_bloom_wf(self.bloom)
        &&& spec_bloom_config(self.bloom).0 % 8 == 0
        &&& spec_bloom_config(self.bloom).0 >= 8
        &&& spec_bloom_config(self.bloom).1 >= 1
        &&& (forall|i: int|
            0 <= i < entries.len() ==> spec_bloom_set(self.bloom).contains(
                (#[trigger] entries[i]).0,
            ))
    }

    /// The entries written so far, in order.
    pub closed spec fn entries(&self) -> Seq<(Seq<u8>, Seq<u8>)> {
        self.entries_g@
    }

    /// The compression the table is written with.
    pub closed spec fn algo(&self) -> Compression {
        self.compression
    }

    /// The entries of every chunk already closed, in file order.
    pub closed spec fn chunks(&self) -> Seq<Seq<(Seq<u8>, Seq<u8>)>> {
        self.chunks_g@
    }

    /// The entries of the chunk still being filled.
    pub closed spec fn pending_entries(&self) -> Seq<(Seq<u8>, Seq<u8>)> {
        self.pending_g@
    }

    /// The bytes written into the open chunk since it started; the
    /// counter the flush threshold is compared against.
    pub closed spec fn pending_hint(&self) -> u64 {
        self.pending_len
    }

    /// The approximate compressed-byte target per chunk.
    pub closed spec fn flush_threshold(&self) -> usize {
        self.flush_every
    }


    /// Make a new SSTable builder with default options.
    pub fn new() -> (r: Self)
        ensures
            r.wf(),
            r.entries() == Seq::<(Seq<u8>, Seq<u8>)>::empty(),
            r.algo() == Compression::Plain,
    {
        Self::new_with_options(&WriteOptions::default())
    }

    /// Make a new SSTable builder with explicit options. The bloom sizing
    /// must be positive (and its bit count must fit a `u64`): the filter
    /// cannot be allocated otherwise.
    pub fn new_with_options(options: &WriteOptions) -> (r: Self)
        requires
            options.bloom.bitmap_size >= 1,
            options.bloom.items_count >= 1,
            options.bloom.bitmap_size as u64 <= 0x1FFF_FFFF_FFFF_FFFFu64,
        ensures
            r.wf(),
            r.entries() == Seq::<(Seq<u8>, Seq<u8>)>::empty(),
            r.algo() == options.compression,
            r.chunks() == Seq::<Seq<(Seq<u8>, Seq<u8>)>>::empty(),
            r.pending_entries() == Seq::<(Seq<u8>, Seq<u8>)>::empty(),
            r.sparse() == Seq::<(Seq<u8>, u64)>::empty(),
            r.pending_hint() == 0,
            r.flush_threshold() == options.flush_every,
    {
        let placeholder = MetaV2_0 {
            data_len: 0,
            index_len: 0,
            bloom_len: 0,
            items: 0,
            compression: options.compression,
            finished: false,
            checksum: 0,
            bloom: BloomV2_0 { bitmap_bits: 0, k_num: 0, sip_key_0: (0, 0), sip_key_1: (0, 0) },
        };
        let mut sink: Vec<u8> = Vec::new();
        write_preamble(&placeholder, &mut sink);
        let file = FrameWriter::new(options.compression, sink);
        let bloom = bloom_new(options.bloom.bitmap_size, options.bloom.items_count);
        let r = SSTableBuilder {
            file,
            compression: options.compression,
            flush_every: options.flush_every,
            items: 0,
            sparse_index: Vec::new(),
            bloom,
            pending_len: 0,
            last_key: Vec::new(),
            chunk_open: false,
            entries_g: Ghost(Seq::empty()),
            chunks_g: Ghost(Seq::empty()),
            pending_g: Ghost(Seq::empty()),
        };
        proof {
            assert(r.file.closed() =~= r.chunk_bytes());
            assert(r.entries_g@ =~= spec_chunks_flatten(r.chunks_g@) + r.pending_g@);
            assert(r.sparse().len() == 0);
            assert(r.sparse() =~= Seq::<(Seq<u8>, u64)>::empty());
        }
        r
    }
}


/// Every key of a sorted entry sequence is below a key greater than the
/// last one.
proof fn lemma_entry_keys_lt(es: Seq<(Seq<u8>, Seq<u8>)>, q: int, k: Seq<u8>)
    requires
        entries_sorted(es),
        0 <= q < es.len(),
        lex_lt(es.last().0, k),
    ensures
        lex_lt(es[q].0, k),
{
    if q < es.len() - 1 {
        assert(lex_lt(es[q].0, es[es.len() - 1].0));
        lemma_lex_lt_trans(es[q].0, es.last().0, k);
    }
}

impl SSTableBuilder {
    /// Every sparse-index key is the key of some already written entry,
    /// so a key above the last entry is above every sparse key, every
    /// closed-chunk key and every pending key.
    proof fn lemma_all_keys_lt(&self, k: Seq<u8>)
        requires
            self.wf(),
            self.items > 0,
            lex_lt(self.entries().last().0, k),
        ensures
            forall|i: int| 0 <= i < self.sparse().len() ==> lex_lt((#[trigger] self.sparse()[i]).0, k),
            forall|i: int, p: int|
                0 <= i < self.chunks_g@.len() && 0 <= p < self.chunks_g@[i].len() ==> lex_lt(
                    (#[trigger] chunks_at(self.chunks_g@, i, p)).0,
                    k,
                ),
            forall|p: int|
                0 <= p < self.pending_g@.len() ==> lex_lt((#[trigger] self.pending_g@[p]).0, k),
    {
        let entries = self.entries_g@;
        let chunks = self.chunks_g@;
        let pending = self.pending_g@;
        let fl = spec_chunks_flatten(chunks);
        assert forall|i: int, p: int|
            0 <= i < chunks.len() && 0 <= p < chunks[i].len() implies lex_lt(
            (#[trigger] chunks_at(chunks, i, p)).0,
            k,
        ) by {
            crate::ondisk_format::lemma_chunks_flatten_membership(chunks, i, p);
            let q = choose|q: int| 0 <= q < fl.len() && fl[q] == chunks[i][p];
            assert(entries[q] == chunks[i][p]);
            lemma_entry_keys_lt(entries, q, k);
        }
        assert forall|p: int| 0 <= p < pending.len() implies lex_lt(
            (#[trigger] pending[p]).0,
            k,
        ) by {
            assert(entries[fl.len() + p] == pending[p]);
            lemma_entry_keys_lt(entries, fl.len() + p, k);
        }
        assert forall|i: int| 0 <= i < self.sparse().len() implies lex_lt(
            (#[trigger] self.sparse()[i]).0,
            k,
        ) by {
            if i < chunks.len() {
                assert(self.sparse()[i].0 == chunks[i][0].0);
                assert(lex_lt(chunks_at(chunks, i, 0).0, k));
            } else {
                assert(self.chunk_open);
                assert(self.sparse()[i].0 == pending[0].0);
            }
        }
    }

    /// Set the key to the value. Keys must arrive in strictly ascending
    /// order and fit the on-disk length fields; the record is appended to
    /// the current chunk (closing it first when the flush threshold is
    /// reached), the bloom filter learns the key, and the sparse index
    /// learns each chunk's first key: of the first record outright, and
    /// of the record that starts each later chunk, at the offset where
    /// that chunk's frame begins.
    #[verifier::rlimit(100)]
    #[verifier::spinoff_prover]
    pub fn set(&mut self, key: &[u8], value: &[u8]) -> (r: Result<(), Error>)
        requires
            old(self).wf(),
        ensures
            final(self).wf(),
            final(self).algo() == old(self).algo(),
            final(self).flush_threshold() == old(self).flush_threshold(),
            match r {
                Ok(()) => key@.len() <= KEY_LENGTH_MAX && value@.len() as u64 <= VALUE_LENGTH_MAX
                    && (old(self).entries().len() == 0 || lex_lt(
                    old(self).entries().last().0,
                    key@,
                )) && final(self).entries() == old(self).entries().push((key@, value@)) && ({
                    let first = old(self).entries().len() == 0;
                    let flushed = !first && old(self).pending_hint() + key@.len() + 5
                        + value@.len() >= old(self).flush_threshold();
                    let reclen: int = 6 + key@.len() as int + value@.len() as int;
                    &&& (first ==> final(self).sparse() == old(self).sparse().push(
                        (key@, DATA_REGION_START),
                    ) && final(self).chunks() == old(self).chunks() && final(self)
                        .pending_entries() == old(self).pending_entries().push((key@, value@)))
                    &&& (flushed ==> final(self).sparse() == old(self).sparse().push(
                        (
                            key@,
                            (DATA_REGION_START + spec_chunks_frames_len(
                                old(self).algo(),
                                final(self).chunks(),
                            )) as u64,
                        ),
                    ) && final(self).chunks() == old(self).chunks().push(
                        old(self).pending_entries(),
                    ) && final(self).pending_entries() == seq![(key@, value@)])
                    &&& (!first && !flushed ==> final(self).sparse() == old(self).sparse()
                        && final(self).chunks() == old(self).chunks() && final(self)
                        .pending_entries() == old(self).pending_entries().push((key@, value@)))
                    &&& final(self).pending_hint() == if first || flushed {
                        reclen as u64
                    } else if old(self).pending_hint() + reclen <= u64::MAX {
                        (old(self).pending_hint() + reclen) as u64
                    } else {
                        u64::MAX
                    }
                }),
                Err(e) => *final(self) == *old(self) && ((key@.len() > KEY_LENGTH_MAX && (
                e matches Error::KeyTooLong(n) && n == key@.len())) || (key@.len()
                    <= KEY_LENGTH_MAX && value@.len() as u64 > VALUE_LENGTH_MAX && (
                e matches Error::ValueTooLong(n) && n == value@.len())) || ((e
                    is ProgrammingError) && key@.len() <= KEY_LENGTH_MAX && value@.len() as u64
                    <= VALUE_LENGTH_MAX && (old(self).entries().len() == u64::MAX || (old(
                    self,
                ).entries().len() > 0 && !lex_lt(old(self).entries().last().0, key@))))),
            },
    {
        let header = match KVLength::new(key.len(), value.len()) {
            Ok(h) => h,
            Err(e) => {
                return Err(e);
            },
        };
        if self.items > 0 {
            match cmp_bytes(self.last_key.as_slice(), key) {
                Cmp::Less => {},
                Cmp::Equal => {
                    proof {
                        lemma_lex_cmp_eq(self.last_key@, key@);
                    }
                    return Err(Error::ProgrammingError("keys must be strictly ascending"));
                },
                Cmp::Greater => {
                    return Err(Error::ProgrammingError("keys must be strictly ascending"));
                },
            }
        }
        if self.items == u64::MAX {
            return Err(Error::ProgrammingError("too many items"));
        }
        proof {
            if self.items > 0 {
                self.lemma_all_keys_lt(key@);
            }
        }

        let ghost pre = *self;
        if self.items == 0 {
            let kv = vstd::slice::slice_to_vec(key);
            self.sparse_index.push((kv, DATA_REGION_START));
            proof {
                assert(self.sparse() =~= pre.sparse().push((key@, DATA_REGION_START)));
            }
        } else {
            let approx: u64 = key.len() as u64 + 5 + value.len() as u64;
            if (self.pending_len as u128) + (approx as u128) >= (self.flush_every as u128) {
                let n = match self.file.reset_compression_context() {
                    Ok(n) => n,
                    Err(e) => {
                        proof {
                            assert(false);
                        }
                        return Err(e);
                    },
                };
                proof {
                    self.chunks_g@ = self.chunks_g@.push(self.pending_g@);
                    self.pending_g@ = Seq::empty();
                }
                self.pending_len = 0;
                self.chunk_open = false;
                let kv = vstd::slice::slice_to_vec(key);
                let total_offset: u64 = DATA_REGION_START + (n as u64);
                self.sparse_index.push((kv, total_offset));
                proof {
                    assert(self.sparse() =~= pre.sparse().push((key@, total_offset)));
                    assert(self.chunk_bytes() =~= pre.chunk_bytes().push(
                        spec_records_bytes(pre.pending_g@),
                    ));
                    assert(self.file.closed() == self.chunk_bytes());
                    assert(pre.chunk_bytes() =~= self.chunk_bytes().take(pre.chunks_g@.len() as int));
                    assert forall|i: int| 0 <= i <= pre.chunks_g@.len() implies self.chunk_bytes()
                        .take(i) =~= pre.chunk_bytes().take(i) by {
                        assert(self.chunk_bytes().take(i) =~= pre.chunk_bytes().take(i));
                    }
                    assert(self.chunks_g@.drop_last() =~= pre.chunks_g@);
                    assert(self.chunks_g@.last() == pre.pending_g@);
                    assert(spec_chunks_flatten(self.chunks_g@) == spec_chunks_flatten(pre.chunks_g@)
                        + pre.pending_g@);
                    assert(spec_chunks_flatten(self.chunks_g@) + self.pending_g@ =~= pre.entries_g@);
                    lemma_frames_concat_push(
                        pre.compression,
                        pre.file.closed(),
                        pre.file.pending(),
                    );
                    assert(total_offset == DATA_REGION_START + spec_frames_concat(
                        pre.compression,
                        pre.chunk_bytes(),
                    ).len() + spec_frame_of(pre.compression, pre.file.pending()).len());
                    crate::ondisk_format::lemma_records_bytes_nonempty(pre.pending_g@);
                    assert(pre.file.pending().len() > 0);
                    assert(spec_frame_of(pre.compression, pre.file.pending()).len() > 0);
                    assert forall|i: int| 0 <= i < pre.sparse().len() implies (
                    #[trigger] pre.sparse()[i]).1 < total_offset by {
                        if i < pre.sparse().len() - 1 {
                            assert(pre.sparse()[i].1 < pre.sparse().last().1);
                        }
                    }
                }
            }
        }

        let ghost mid = *self;

        // Record the key in the bloom filter, then emit the record into
        // the current frame.
        bloom_set_key(&mut self.bloom, key);
        let mut rec: Vec<u8> = Vec::new();
        header.serialize_into(&mut rec);
        rec.extend_from_slice(key);
        rec.extend_from_slice(value);
        self.file.write_all(rec.as_slice());
        self.items = self.items + 1;
        self.last_key = vstd::slice::slice_to_vec(key);
        self.chunk_open = true;
        let rec_len = rec.len() as u64;
        if self.pending_len <= u64::MAX - rec_len {
            self.pending_len = self.pending_len + rec_len;
        } else {
            self.pending_len = u64::MAX;
        }
        proof {
            let e = (key@, value@);
            crate::lexorder::lemma_lex_le_refl(key@);
            assert(self.sparse() =~= mid.sparse());
            assert(self.chunk_bytes() =~= mid.chunk_bytes());
            assert(rec@ =~= spec_record_bytes(key@, value@));
            lemma_records_bytes_push(self.pending_g@, key@, value@);
            self.pending_g@ = self.pending_g@.push(e);
            self.entries_g@ = self.entries_g@.push(e);
            if pre.items > 0 {
                lemma_sorted_entries_push(pre.entries_g@, key@, value@);
            } else {
                lemma_sorted_entries_push(pre.entries_g@, key@, value@);
            }
            assert(spec_chunks_flatten(pre.chunks_g@) + pre.pending_g@ == pre.entries_g@);
            assert(spec_chunks_flatten(self.chunks_g@) + self.pending_g@.drop_last()
                =~= pre.entries_g@);
            assert(self.entries_g@ =~= spec_chunks_flatten(self.chunks_g@) + self.pending_g@);
            assert(entries_wf(self.entries_g@));
            assert(self.file.wf() && self.file.algo() == self.compression);
            assert(self.file.prefix().len() == DATA_REGION_START);
            assert(self.file.closed() == self.chunk_bytes());
            assert(self.file.pending() == spec_records_bytes(self.pending_g@));
            assert(self.chunk_open <==> self.pending_g@.len() > 0);
            assert(self.chunk_open <==> self.items > 0);
            assert(entries_sorted(self.entries_g@));
            if mid.pending_g@.len() > 0 {
                assert(mid == pre);
                assert(pre.entries_g@.last() == pre.pending_g@[pre.pending_g@.len() - 1]);
                lemma_sorted_entries_push(pre.pending_g@, key@, value@);
            }
            assert(entries_sorted(self.pending_g@));
            assert(self.items == self.entries_g@.len());
            assert(self.last_key@ == self.entries_g@.last().0);
            assert(forall|i: int|
                0 <= i < self.chunks_g@.len() ==> (#[trigger] self.chunks_g@[i]).len() >= 1);
            assert(self.sparse().len() == self.chunks_g@.len() + 1);
            assert(forall|i: int|
                0 <= i < self.chunks_g@.len() ==> (#[trigger] self.sparse()[i]).0
                    == self.chunks_g@[i][0].0);
            assert(forall|i: int|
                0 <= i < self.chunks_g@.len() ==> (#[trigger] self.sparse()[i]).1
                    == DATA_REGION_START + spec_frames_concat(
                    self.compression,
                    self.chunk_bytes().take(i),
                ).len());
            assert(self.sparse().last().1 == DATA_REGION_START + spec_frames_concat(
                self.compression,
                self.chunk_bytes(),
            ).len());
            assert forall|i: int, j: int| 0 <= i < j < self.sparse().len() implies lex_lt(
                (#[trigger] self.sparse()[i]).0,
                (#[trigger] self.sparse()[j]).0,
            ) && self.sparse()[i].1 < self.sparse()[j].1 by {
                if j < pre.sparse().len() {
                    assert(lex_lt(pre.sparse()[i].0, pre.sparse()[j].0));
                    assert(pre.sparse()[i].1 < pre.sparse()[j].1);
                } else {
                    assert(self.sparse()[j] == self.sparse().last());
                    assert(lex_lt(pre.sparse()[i].0, key@));
                }
            }
            assert(forall|i: int, p: int|
                0 <= i < self.chunks_g@.len() && 0 <= p < (#[trigger] self.chunks_g@[i]).len()
                    ==> crate::lexorder::lex_le(self.sparse()[i].0, (
                #[trigger] self.chunks_g@[i][p]).0) && (i + 1 < self.sparse().len() ==> lex_lt(
                    self.chunks_g@[i][p].0,
                    self.sparse()[i + 1].0,
                )));
            assert forall|p: int| 0 <= p < self.pending_g@.len() implies crate::lexorder::lex_le(
                self.sparse().last().0,
                (#[trigger] self.pending_g@[p]).0,
            ) by {
                if mid.pending_g@.len() == 0 {
                    assert(self.pending_g@[p] == (key@, value@));
                    assert(self.sparse().last().0 == key@);
                } else {
                    assert(mid == pre);
                    assert(self.sparse().last().0 == pre.pending_g@[0].0);
                    if p < pre.pending_g@.len() {
                        assert(crate::lexorder::lex_le(
                            pre.sparse().last().0,
                            pre.pending_g@[p].0,
                        ));
                    } else {
                        assert(self.pending_g@[p] == (key@, value@));
                        assert(lex_lt(pre.pending_g@[0].0, key@));
                    }
                }
            }
            assert(forall|i: int|
                0 <= i < self.entries_g@.len() ==> spec_bloom_set(self.bloom).contains(
                    (#[trigger] self.entries_g@[i]).0,
                ));
            // The chunking clauses of the contract, case by case.
            crate::ondisk_format::lemma_record_bytes_len(key@, value@);
            assert(rec@.len() == 6 + key@.len() + value@.len());
            let firstg = pre.entries_g@.len() == 0;
            let flushedg = !firstg && pre.pending_len + (key@.len() as int + 5 + value@.len()
                as int) >= pre.flush_every;
            if firstg {
                assert(self.sparse() == pre.sparse().push((key@, DATA_REGION_START)));
                assert(self.chunks_g@ == pre.chunks_g@);
                assert(self.pending_g@ == pre.pending_g@.push(e));
            } else if flushedg {
                assert(mid.chunks_g@ == pre.chunks_g@.push(pre.pending_g@));
                assert(mid.chunk_bytes() == Seq::new(
                    mid.chunks_g@.len(),
                    |i: int| spec_records_bytes(mid.chunks_g@[i]),
                ));
                assert(self.sparse() == pre.sparse().push(
                    (
                        key@,
                        (DATA_REGION_START + spec_chunks_frames_len(
                            pre.compression,
                            self.chunks_g@,
                        )) as u64,
                    ),
                ));
                assert(self.pending_g@ =~= seq![e]);
            } else {
                assert(self.sparse() == pre.sparse());
                assert(self.chunks_g@ == pre.chunks_g@);
                assert(self.pending_g@ == pre.pending_g@.push(e));
            }
            assert(self.wf());
        }
        Ok(())
    }
}

impl SSTableBuilder {
    /// Write the index region and the bloom region, backpatch the
    /// metadata with the region lengths and `finished = true`, and return
    /// the complete table file.
    #[verifier::rlimit(100)]
    pub fn finish(self) -> (r: Result<Vec<u8>, Error>)
        requires
            self.wf(),
        ensures
            r matches Ok(v) && spec_table_complete(v@, self.entries(), self.algo()),
    {
        let ghost pre = self;
        let mut this = self;

        // Close the final data frame and record the data region's length.
        let data_end: usize;
        if this.chunk_open {
            data_end = match this.file.reset_compression_context() {
                Ok(n) => n,
                Err(e) => {
                    proof {
                        assert(false);
                    }
                    return Err(e);
                },
            };
            proof {
                this.chunks_g@ = this.chunks_g@.push(this.pending_g@);
                this.pending_g@ = Seq::empty();
                assert(this.chunk_bytes() =~= pre.chunk_bytes().push(
                    spec_records_bytes(pre.pending_g@),
                ));
                assert(this.file.closed() == this.chunk_bytes());
                assert(this.chunks_g@.drop_last() =~= pre.chunks_g@);
                assert(spec_chunks_flatten(this.chunks_g@) == spec_chunks_flatten(pre.chunks_g@)
                    + pre.pending_g@);
                assert(spec_chunks_flatten(this.chunks_g@) =~= pre.entries_g@);
                assert forall|i: int| 0 <= i <= pre.chunks_g@.len() implies this.chunk_bytes().take(
                    i,
                ) =~= pre.chunk_bytes().take(i) by {
                    assert(this.chunk_bytes().take(i) =~= pre.chunk_bytes().take(i));
                }
                assert(pre.chunk_bytes() =~= this.chunk_bytes().take(pre.chunks_g@.len() as int));
                crate::ondisk_format::lemma_records_bytes_nonempty(pre.pending_g@);
                assert(spec_frame_of(this.compression, spec_records_bytes(pre.pending_g@)).len()
                    > 0);
            }
        } else {
            data_end = 0;
            proof {
                assert(this.chunks_g@.len() == 0);
                assert(this.chunk_bytes() =~= Seq::<Seq<u8>>::empty());
                assert(spec_frames_concat(this.compression, this.chunk_bytes()).len() == 0);
                assert(spec_chunks_flatten(this.chunks_g@) =~= pre.entries_g@);
            }
        }
        let ghost chunks_f = this.chunks_g@;
        let ghost chunk_bytes_f = this.chunk_bytes();
        let ghost sp = this.sparse();
        proof {
            assert(this.sparse() =~= pre.sparse());
            assert(sp.len() == chunks_f.len());
            assert(data_end == spec_frames_concat(this.compression, chunk_bytes_f).len());
            assert forall|i: int| 0 <= i < sp.len() implies (#[trigger] sp[i]).0.len()
                <= KEY_LENGTH_MAX && sp[i].0 == chunks_f[i][0].0 && sp[i].1 == DATA_REGION_START
                + spec_frames_concat(pre.compression, chunk_bytes_f.take(i)).len() by {
                if i < pre.chunks_g@.len() {
                    assert(sp[i].0 == chunks_f[i][0].0);
                } else {
                    assert(pre.chunk_open);
                    assert(sp[i].0 == pre.pending_g@[0].0);
                    assert(chunks_f[i] == pre.pending_g@);
                }
                crate::ondisk_format::lemma_chunks_flatten_membership(chunks_f, i, 0);
                let q = choose|q: int|
                    0 <= q < spec_chunks_flatten(chunks_f).len() && spec_chunks_flatten(chunks_f)[q]
                        == chunks_f[i][0];
                assert(pre.entries_g@[q] == chunks_f[i][0]);
                assert(record_wf(pre.entries_g@[q].0, pre.entries_g@[q].1));
            }
        }

        // Emit the sparse index, one entry per chunk, into a fresh frame.
        let mut i: usize = 0;
        let n_sparse = this.sparse_index.len();
        while i < n_sparse
            invariant
                0 <= i <= n_sparse,
                n_sparse == this.sparse_index@.len(),
                this.file.wf(),
                this.file.algo() == pre.compression,
                this.file.prefix().len() == DATA_REGION_START,
                this.file.closed() == chunk_bytes_f,
                this.file.pending() == spec_index_bytes(sp.take(i as int)),
                this.sparse() == sp,
                this.bloom == pre.bloom,
                this.items == pre.items,
                this.compression == pre.compression,
                this.entries_g@ == pre.entries_g@,
                forall|j: int|
                    0 <= j < sp.len() ==> (#[trigger] sp[j]).0.len() <= KEY_LENGTH_MAX,
            decreases n_sparse - i,
        {
            proof {
                assert(sp[i as int] == (this.sparse_index@[i as int].0@,
                this.sparse_index@[i as int].1));
                assert(sp[i as int].0.len() <= KEY_LENGTH_MAX);
            }
            let klen = this.sparse_index[i].0.len();
            let offset = this.sparse_index[i].1;
            let h = match KVOffset::new(klen, offset) {
                Ok(h) => h,
                Err(e) => {
                    proof {
                        assert(false);
                    }
                    return Err(e);
                },
            };
            let mut tmp: Vec<u8> = Vec::new();
            h.serialize_into(&mut tmp);
            this.file.write_all(tmp.as_slice());
            let kslice: &[u8] = this.sparse_index[i].0.as_slice();
            this.file.write_all(kslice);
            proof {
                lemma_index_bytes_push(sp.take(i as int), sp[i as int].0, sp[i as int].1);
                assert(sp.take(i as int).push((sp[i as int].0, sp[i as int].1)) =~= sp.take(
                    i + 1 as int,
                ));
                assert(tmp@ + kslice@ =~= spec_index_entry_bytes(sp[i as int].0, sp[i as int].1));
                assert(this.file.pending() =~= spec_index_bytes(sp.take(i + 1 as int)));
            }
            i = i + 1;
            proof {
                assert(this.sparse() =~= sp);
            }
        }
        proof {
            assert(sp.take(n_sparse as int) =~= sp);
        }
        let index_end = match this.file.reset_compression_context() {
            Ok(n) => n,
            Err(e) => {
                proof {
                    assert(false);
                }
                return Err(e);
            },
        };
        proof {
            lemma_frames_concat_push(pre.compression, chunk_bytes_f, spec_index_bytes(sp));
        }

        // Emit the bloom bitmap; `into_inner` finishes its frame and hands
        // the assembled sink back.
        let bitmap = bloom_bitmap(&this.bloom);
        this.file.write_all(bitmap.as_slice());
        let body = match this.file.into_inner() {
            Ok(v) => v,
            Err(e) => {
                proof {
                    assert(false);
                }
                return Err(e);
            },
        };
        let body_len = body.len();
        proof {
            lemma_frames_concat_push(
                pre.compression,
                chunk_bytes_f.push(spec_index_bytes(sp)),
                bitmap@,
            );
            assert(body@.len() == DATA_REGION_START + index_end + spec_frame_of(
                pre.compression,
                bitmap@,
            ).len());
        }

        // Backpatch the metadata with the final region lengths.
        let bits = bloom_number_of_bits(&this.bloom);
        let knum = bloom_number_of_hash_functions(&this.bloom);
        let skeys = bloom_sip_keys(&this.bloom);
        let meta = MetaV2_0 {
            data_len: data_end as u64,
            index_len: (index_end - data_end) as u64,
            bloom_len: ((body_len - 93) - index_end) as u64,
            items: this.items,
            compression: this.compression,
            finished: true,
            checksum: 0,
            bloom: BloomV2_0 {
                bitmap_bits: bits,
                k_num: knum,
                sip_key_0: skeys.0,
                sip_key_1: skeys.1,
            },
        };
        let mut out: Vec<u8> = Vec::new();
        write_preamble(&meta, &mut out);
        out.extend_from_slice(vstd::slice::slice_subrange(body.as_slice(), 93, body_len));
        proof {
            let c = pre.compression;
            let data = spec_frames_concat(c, chunk_bytes_f);
            let index_frame = spec_frame_of(c, spec_index_bytes(sp));
            let bloom_frame = spec_frame_of(c, bitmap@);
            assert(body@.subrange(93, body@.len() as int) =~= data + index_frame + bloom_frame);
            assert(out@ =~= crate::ondisk_format::spec_preamble_bytes(meta) + data + index_frame
                + bloom_frame);
            assert(pre.entries_g@ == spec_chunks_flatten(chunks_f));
            assert forall|j: int| 0 <= j < chunks_f.len() implies (#[trigger] chunks_f[j]).len()
                >= 1 by {}
            assert(meta.data_len == data.len());
            assert(meta.index_len == index_frame.len());
            assert(meta.bloom_len == bloom_frame.len());
            assert(meta.items == pre.entries_g@.len());
            assert(forall|i: int, j: int|
                0 <= i < j < sp.len() ==> lex_lt((#[trigger] sp[i]).0, (#[trigger] sp[j]).0)
                    && sp[i].1 < sp[j].1);
            assert forall|i: int, p: int|
                0 <= i < chunks_f.len() && 0 <= p < (#[trigger] chunks_f[i]).len()
                    implies crate::lexorder::lex_le(sp[i].0, (#[trigger] chunks_f[i][p]).0) && (i
                + 1 < chunks_f.len() ==> lex_lt(chunks_f[i][p].0, sp[i + 1].0)) by {
                if i < pre.chunks_g@.len() {
                    assert(chunks_f[i] == pre.chunks_g@[i]);
                    assert(crate::lexorder::lex_le(pre.sparse()[i].0, (pre.chunks_g@[i][p]).0));
                } else {
                    assert(pre.chunk_open);
                    assert(chunks_f[i] == pre.pending_g@);
                    assert(crate::lexorder::lex_le(
                        pre.sparse().last().0,
                        (pre.pending_g@[p]).0,
                    ));
                }
            }
            assert(forall|i: int|
                0 <= i < chunks_f.len() ==> entries_sorted(#[trigger] chunks_f[i]));
            assert(forall|i: int|
                0 <= i < sp.len() ==> (#[trigger] sp[i]).0.len() <= KEY_LENGTH_MAX);
            assert forall|i: int| 0 <= i < sp.len() implies (#[trigger] sp[i]).1
                < DATA_REGION_START + meta.data_len as int by {
                assert(spec_frame_of(c, chunk_bytes_f[i]).len() > 0) by {
                    if i < pre.chunks_g@.len() {
                        assert(chunk_bytes_f[i] == pre.chunk_bytes()[i]);
                        assert(spec_frame_of(c, pre.chunk_bytes()[i]).len() > 0);
                    } else {
                        assert(chunk_bytes_f[i] == spec_records_bytes(pre.pending_g@));
                    }
                }
                crate::compression::lemma_frames_concat_take_succ(c, chunk_bytes_f, i);
                crate::compression::lemma_frames_concat_split(c, chunk_bytes_f, i + 1);
                assert(spec_frames_concat(c, chunk_bytes_f.take(i)).len() < spec_frames_concat(
                    c,
                    chunk_bytes_f,
                ).len());
            }
            assert(8 * bitmap@.len() == meta.bloom.bitmap_bits);
            assert(meta.bloom.bitmap_bits >= 1);
            assert(meta.bloom.k_num >= 1);
            assert(forall|q: int|
                0 <= q < pre.entries_g@.len() ==> spec_bitmap_model(
                    bitmap@,
                    meta.bloom.bitmap_bits,
                    meta.bloom.k_num,
                    meta.bloom.sip_key_0.0,
                    meta.bloom.sip_key_0.1,
                    meta.bloom.sip_key_1.0,
                    meta.bloom.sip_key_1.1,
                ).contains((#[trigger] pre.entries_g@[q]).0));
            assert(spec_table_rep(out@, pre.entries_g@, chunks_f, sp, bitmap@, meta));
            assert(spec_table_complete(out@, pre.entries_g@, c));
        }
        Ok(out)
    }

    /// Write all the metadata to the sstable and return its bytes; the
    /// same operation as `finish`.
    pub fn close(self) -> (r: Result<Vec<u8>, Error>)
        requires
            self.wf(),
        ensures
            r matches Ok(v) && spec_table_complete(v@, self.entries(), self.algo()),
    {
        self.finish()
    }
}

impl RawSSTableWriter for SSTableBuilder {
    open spec fn wf(&self) -> bool {
        SSTableBuilder::wf(self)
    }

    open spec fn entries(&self) -> Seq<(Seq<u8>, Seq<u8>)> {
        SSTableBuilder::entries(self)
    }

    open spec fn algo(&self) -> Compression {
        SSTableBuilder::algo(self)
    }

    fn set(&mut self, key: &[u8], value: &[u8]) -> (r: Result<(), Error>) {
        SSTableBuilder::set(self, key, value)
    }

    fn close(self) -> (r: Result<(), Error>) {
        match SSTableBuilder::finish(self) {
            Ok(_) => Ok(()),
            Err(e) => Err(e),
        }
    }
}

/// The number of bytes the frames of these chunks occupy in the data
/// region.
pub open spec fn spec_chunks_frames_len(
    c: Compression,
    chunks: Seq<Seq<(Seq<u8>, Seq<u8>)>>,
) -> int {
    spec_frames_concat(c, Seq::new(chunks.len(), |i: int| spec_records_bytes(chunks[i]))).len()
        as int
}

/// One entry of one chunk (helps the triggers in the builder's lemmas).
pub open spec fn chunks_at(chunks: Seq<Seq<(Seq<u8>, Seq<u8>)>>, i: int, p: int) -> (
    Seq<u8>,
    Seq<u8>,
) {
    chunks[i][p]
}

} // verus!

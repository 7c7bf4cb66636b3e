//! SSTable reading facilities.
//!
//! `InnerReader` owns the bytes of one table file (read from disk or
//! produced by `SSTableBuilder`), parses the metadata, the sparse index
//! and the bloom filter on open, and serves point lookups. Opening
//! rejects a bad magic, an unsupported version and — crucially — a table
//! whose `finished` flag is not set.

use vstd::prelude::*;
use crate::bloom::bloom_check;
use crate::bloom::bloom_from_existing;
use crate::bloom::spec_bitmap_model;
use crate::bloom::spec_bloom_set;
use crate::bloom::spec_bloom_wf;
use crate::compression::spec_frame_of;
use crate::compression::spec_frames_concat;
use crate::compression::lemma_frames_concat_push;
use crate::compression::uncompress_frame;
use crate::error::Error;
use crate::lexorder::Cmp;
use crate::lexorder::cmp_bytes;
use crate::lexorder::lex_le;
use crate::lexorder::lex_lt;
use crate::lexorder::lemma_lex_cmp_eq;
use crate::lexorder::lemma_lex_cmp_flip;
use crate::lexorder::lemma_lex_le_lt_trans;
use crate::lexorder::lemma_lex_lt_le_trans;
use crate::lexorder::lemma_lex_lt_trans;
use crate::ondisk_format::DATA_REGION_START;
use crate::ondisk_format::KEY_LENGTH_MAX;
use crate::ondisk_format::KVOffset;
use crate::ondisk_format::MetaV2_0;
use crate::ondisk_format::index_entries_wf;
use crate::ondisk_format::index_sorted;
use crate::ondisk_format::lemma_index_bytes_nonempty;
use crate::ondisk_format::lemma_index_bytes_push;
use crate::ondisk_format::lemma_index_bytes_split;
use crate::ondisk_format::lemma_index_first_entry;
use crate::ondisk_format::lemma_meta_bytes_len;
use crate::ondisk_format::lemma_preamble_bytes_len;
use crate::ondisk_format::parse_preamble;
use crate::ondisk_format::spec_table_rep;
use crate::ondisk_format::spec_table_complete;
use crate::ondisk_format::spec_records_bytes;
use crate::page_cache::ChunkLru;
use crate::page_cache::PageCache;
use crate::page_cache::StaticBufCache;
use crate::page_cache::lru_get;
use crate::page_cache::lru_new;
use crate::page_cache::lru_unbounded;
use crate::page_cache::lru_put;
use crate::page_cache::spec_lru_contents;
use crate::options::GetOptions;
use crate::options::ReadCache;
use crate::ondisk_format::spec_chunk_scan;
use crate::ondisk_format::spec_chunks_flatten;
use crate::ondisk_format::spec_index_bytes;
use crate::ondisk_format::spec_preamble_bytes;
use crate::options::ReadOptions;
use crate::types::Compression;

verus! {

/// The sparse index held in memory: each entry maps a chunk's first key
/// to the absolute byte offset of that chunk's frame, kept in strictly
/// ascending key order.
pub struct OwnedIndex {
    entries: Vec<(Vec<u8>, u64)>,
}

impl OwnedIndex {
    /// The entries as a mathematical sequence.
    pub closed spec fn to_seq(&self) -> Seq<(Seq<u8>, u64)> {
        Seq::new(self.entries@.len(), |i: int| (self.entries@[i].0@, self.entries@[i].1))
    }

    /// Keys fit the on-disk length field and are strictly ascending.
    pub open spec fn wf(&self) -> bool {
        index_entries_wf(self.to_seq()) && index_sorted(self.to_seq())
    }

    /// Parse an index region. Succeeds exactly on the serialization of a
    /// well-formed (sorted) entry sequence, reconstructing that sequence;
    /// truncated entries and out-of-order keys are rejected.
    #[verifier::rlimit(100)]
    pub fn from_reader(buf: &[u8]) -> (r: Result<Self, Error>)
        ensures
            r matches Ok(ix) ==> ix.wf() && buf@ == spec_index_bytes(ix.to_seq()),
            r matches Err(e) ==> (e is InvalidData) && forall|es: Seq<(Seq<u8>, u64)>|
                !(index_entries_wf(es) && index_sorted(es) && buf@ == spec_index_bytes(es)),
            forall|es: Seq<(Seq<u8>, u64)>|
                index_entries_wf(es) && index_sorted(es) && buf@ == spec_index_bytes(es) ==> (
                r matches Ok(ix) && ix.to_seq() == es),
    {
        let n: usize = buf.len();
        let mut entries: Vec<(Vec<u8>, u64)> = Vec::new();
        let mut pos: usize = 0;
        let ghost raw: Seq<(Seq<u8>, u64)> = Seq::empty();
        let mut raw_t = Ghost(raw);
        proof {
            assert(spec_index_bytes(raw_t@) =~= buf@.subrange(0, 0));
        }
        while pos < n
            invariant
                0 <= pos <= n,
                n == buf@.len(),
                spec_index_bytes(raw_t@) == buf@.subrange(0, pos as int),
                index_entries_wf(raw_t@),
                index_sorted(raw_t@),
                entries@.len() == raw_t@.len(),
                forall|i: int|
                    0 <= i < raw_t@.len() ==> (#[trigger] raw_t@[i]) == (
                    entries@[i].0@,
                    entries@[i].1,
                ),
            decreases n - pos,
        {
            let ghost rl = raw_t@.len() as int;
            let h = match KVOffset::deserialize_from_eof_is_ok(buf, pos) {
                Ok(Some(p)) => p.0,
                Ok(None) => {
                    proof {
                        assert(false);
                    }
                    return Err(Error::invalid_data());
                },
                Err(e) => {
                    proof {
                        assert forall|es: Seq<(Seq<u8>, u64)>|
                            !(index_entries_wf(es) && index_sorted(es) && buf@ == spec_index_bytes(
                                es,
                            )) by {
                            if index_entries_wf(es) && index_sorted(es) && buf@
                                == spec_index_bytes(es) {
                                lemma_index_parse_prefix(es, raw_t@, buf@, pos as int);
                                assert(es.skip(rl)[0] == es[rl]);
                                assert(es[rl].0.len() <= KEY_LENGTH_MAX);
                                lemma_index_first_entry(es.skip(rl));
                                assert(n - pos >= 10);
                            }
                        }
                    }
                    return Err(e);
                },
            };
            let next = pos + 10;
            let klen = h.key_length as usize;
            if klen > n - next {
                proof {
                    assert forall|es: Seq<(Seq<u8>, u64)>|
                        !(index_entries_wf(es) && index_sorted(es) && buf@ == spec_index_bytes(
                            es,
                        )) by {
                        if index_entries_wf(es) && index_sorted(es) && buf@ == spec_index_bytes(
                            es,
                        ) {
                            lemma_step_entry(es, raw_t@, buf@, pos as int, h);
                        }
                    }
                }
                return Err(Error::invalid_data());
            }
            let key = vstd::slice::slice_to_vec(
                vstd::slice::slice_subrange(buf, next, next + klen),
            );
            if entries.len() > 0 {
                let lastref: &Vec<u8> = &entries[entries.len() - 1].0;
                match cmp_bytes(lastref.as_slice(), key.as_slice()) {
                    Cmp::Less => {},
                    _ => {
                        proof {
                            assert forall|es: Seq<(Seq<u8>, u64)>|
                                !(index_entries_wf(es) && index_sorted(es) && buf@
                                    == spec_index_bytes(es)) by {
                                if index_entries_wf(es) && index_sorted(es) && buf@
                                    == spec_index_bytes(es) {
                                    lemma_step_entry(es, raw_t@, buf@, pos as int, h);
                                    assert(es[rl].0 == key@);
                                    assert(raw_t@[rl - 1] == es.take(rl)[rl - 1]);
                                    assert(lex_lt(es[rl - 1].0, es[rl].0));
                                }
                            }
                        }
                        return Err(Error::InvalidData("index keys out of order"));
                    },
                }
            }
            let offset = h.offset;
            entries.push((key, offset));
            pos = next + klen;
            proof {
                let e = (key@, offset);
                lemma_index_bytes_push(raw_t@, key@, offset);
                raw_t@ = raw_t@.push(e);
                assert(spec_index_bytes(raw_t@) =~= buf@.subrange(0, pos as int));
                if rl > 0 {
                    assert(lex_lt(raw_t@[rl - 1].0, key@));
                    assert forall|i: int, j: int| 0 <= i < j < raw_t@.len() implies lex_lt(
                        (#[trigger] raw_t@[i]).0,
                        (#[trigger] raw_t@[j]).0,
                    ) by {
                        if j == rl && i < rl - 1 {
                            assert(lex_lt(raw_t@[i].0, raw_t@[rl - 1].0));
                            lemma_lex_lt_trans(raw_t@[i].0, raw_t@[rl - 1].0, key@);
                        }
                    }
                }
            }
        }
        let ix = OwnedIndex { entries };
        proof {
            assert(ix.to_seq() =~= raw_t@);
            assert forall|es: Seq<(Seq<u8>, u64)>|
                index_entries_wf(es) && index_sorted(es) && buf@ == spec_index_bytes(
                    es,
                ) implies ix.to_seq() == es by {
                assert(buf@.subrange(0, pos as int) =~= buf@);
                lemma_index_parse_prefix_full(es, raw_t@, buf@);
            }
        }
        Ok(ix)
    }
}

/// If the bytes consumed so far encode `raw` and the whole region encodes
/// `es`, then `raw` is a strict prefix of `es` (there are bytes left) and
/// the remaining bytes encode the remaining entries.
#[verifier::rlimit(100)]
proof fn lemma_index_parse_prefix(
    es: Seq<(Seq<u8>, u64)>,
    raw: Seq<(Seq<u8>, u64)>,
    buf: Seq<u8>,
    pos: int,
)
    requires
        index_entries_wf(es),
        index_entries_wf(raw),
        buf == spec_index_bytes(es),
        0 <= pos < buf.len(),
        spec_index_bytes(raw) == buf.subrange(0, pos),
    ensures
        raw.len() < es.len(),
        raw == es.take(raw.len() as int),
        buf.subrange(pos, buf.len() as int) == spec_index_bytes(es.skip(raw.len() as int)),
    decreases raw.len(),
{
    if raw.len() == 0 {
        assert(es.take(0) =~= raw);
        lemma_index_bytes_split(es, 0);
        assert(buf.subrange(pos, buf.len() as int) =~= spec_index_bytes(es.skip(0)));
        assert(pos < buf.len());
        if es.len() == 0 {
            assert(buf.len() == 0);
        }
    } else {
        // Both encodings start with the same first entry.
        lemma_index_first_entry(raw);
        assert(es.len() > 0) by {
            if es.len() == 0 {
                assert(buf.len() == 0);
                lemma_index_bytes_nonempty(raw);
            }
        }
        lemma_index_first_entry(es);
        let r0 = raw[0];
        let e0 = es[0];
        assert(spec_index_bytes(raw).subrange(0, 2) =~= buf.subrange(0, 2));
        assert(spec_index_bytes(raw).subrange(2, 10) =~= buf.subrange(2, 10));
        vstd::bytes::lemma_auto_spec_u16_to_from_le_bytes();
        vstd::bytes::lemma_auto_spec_u64_to_from_le_bytes();
        assert(r0.0.len() == e0.0.len());
        assert(r0.1 == e0.1);
        assert(spec_index_bytes(raw).subrange(10, 10 + r0.0.len() as int) =~= buf.subrange(
            10,
            10 + e0.0.len() as int,
        ));
        assert(r0.0 == e0.0);
        assert(r0 == e0);
        // Strip the first entry from both sides and recurse.
        let raw1 = raw.subrange(1, raw.len() as int);
        let es1 = es.subrange(1, es.len() as int);
        let d = 10 + e0.0.len() as int;
        assert(spec_index_bytes(raw) == crate::ondisk_format::spec_index_entry_bytes(r0.0, r0.1)
            + spec_index_bytes(raw1));
        assert(spec_index_bytes(es) == crate::ondisk_format::spec_index_entry_bytes(e0.0, e0.1)
            + spec_index_bytes(es1));
        let buf1 = buf.subrange(d, buf.len() as int);
        assert(buf1 =~= spec_index_bytes(es1));
        assert(spec_index_bytes(raw).len() == pos);
        assert(crate::ondisk_format::spec_index_entry_bytes(r0.0, r0.1).len() == d);
        assert(pos >= d);
        assert(spec_index_bytes(raw1) =~= spec_index_bytes(raw).subrange(d, pos));
        assert(spec_index_bytes(raw).subrange(d, pos) =~= buf.subrange(d, pos));
        assert(spec_index_bytes(raw1) == buf.subrange(d, pos));
        assert(buf1.subrange(0, pos - d) =~= buf.subrange(d, pos));
        assert(index_entries_wf(raw1));
        assert(index_entries_wf(es1));
        lemma_index_parse_prefix(es1, raw1, buf1, pos - d);
        assert(raw1 == es1.take(raw1.len() as int));
        assert forall|i: int| 0 <= i < raw.len() implies raw[i] == es.take(raw.len() as int)[i] by {
            if i > 0 {
                assert(raw[i] == raw1[i - 1]);
                assert(raw1[i - 1] == es1[i - 1]);
                assert(es1[i - 1] == es[i]);
            }
        }
        assert(raw =~= es.take(raw.len() as int));
        assert(buf.subrange(pos, buf.len() as int) =~= buf1.subrange(pos - d, buf1.len() as int));
        assert(es1.skip(raw1.len() as int) =~= es.skip(raw.len() as int));
    }
}

/// If the consumed bytes encode `raw` and they are the whole region,
/// `raw` is all of `es`.
#[verifier::rlimit(100)]
proof fn lemma_index_parse_prefix_full(
    es: Seq<(Seq<u8>, u64)>,
    raw: Seq<(Seq<u8>, u64)>,
    buf: Seq<u8>,
)
    requires
        index_entries_wf(es),
        index_entries_wf(raw),
        buf == spec_index_bytes(es),
        spec_index_bytes(raw) == buf,
    ensures
        raw == es,
    decreases es.len(),
{
    if es.len() == 0 {
        if raw.len() > 0 {
            lemma_index_bytes_nonempty(raw);
        }
        assert(raw =~= es);
    } else {
        if raw.len() == 0 {
            lemma_index_bytes_nonempty(es);
        }
        lemma_index_first_entry(raw);
        lemma_index_first_entry(es);
        vstd::bytes::lemma_auto_spec_u16_to_from_le_bytes();
        vstd::bytes::lemma_auto_spec_u64_to_from_le_bytes();
        let r0 = raw[0];
        let e0 = es[0];
        assert(spec_index_bytes(raw).subrange(0, 2) =~= buf.subrange(0, 2));
        assert(spec_index_bytes(raw).subrange(2, 10) =~= buf.subrange(2, 10));
        assert(r0.0.len() == e0.0.len());
        assert(r0.1 == e0.1);
        assert(spec_index_bytes(raw).subrange(10, 10 + r0.0.len() as int) =~= buf.subrange(
            10,
            10 + e0.0.len() as int,
        ));
        assert(r0.0 == e0.0);
        assert(r0 == e0);
        let raw1 = raw.subrange(1, raw.len() as int);
        let es1 = es.subrange(1, es.len() as int);
        let d = 10 + e0.0.len() as int;
        assert(spec_index_bytes(raw) == crate::ondisk_format::spec_index_entry_bytes(r0.0, r0.1)
            + spec_index_bytes(raw1));
        assert(spec_index_bytes(es) == crate::ondisk_format::spec_index_entry_bytes(e0.0, e0.1)
            + spec_index_bytes(es1));
        let buf1 = buf.subrange(d, buf.len() as int);
        assert(buf1 =~= spec_index_bytes(es1));
        assert(spec_index_bytes(raw).len() == buf.len());
        assert(crate::ondisk_format::spec_index_entry_bytes(r0.0, r0.1).len() == d);
        assert(spec_index_bytes(raw1) =~= buf.subrange(d, buf.len() as int));
        assert(spec_index_bytes(raw1) =~= buf1);
        lemma_index_parse_prefix_full(es1, raw1, buf1);
        assert forall|i: int| 0 <= i < es.len() implies raw[i] == es[i] by {
            if i > 0 {
                assert(raw[i] == raw1[i - 1]);
                assert(raw1[i - 1] == es1[i - 1]);
            }
        }
        assert(raw =~= es);
    }
}

/// One successful header parse matches the next entry of any sequence
/// the whole region encodes: its key length, offset and key bytes.
#[verifier::rlimit(100)]
proof fn lemma_step_entry(
    es: Seq<(Seq<u8>, u64)>,
    raw: Seq<(Seq<u8>, u64)>,
    buf: Seq<u8>,
    pos: int,
    h: KVOffset,
)
    requires
        index_entries_wf(es),
        index_entries_wf(raw),
        buf == spec_index_bytes(es),
        0 <= pos < buf.len(),
        spec_index_bytes(raw) == buf.subrange(0, pos),
        pos + 10 <= buf.len(),
        buf.subrange(pos, pos + 10) == crate::ondisk_format::spec_kvoffset_bytes(h),
    ensures
        raw.len() < es.len(),
        raw == es.take(raw.len() as int),
        h.key_length == es[raw.len() as int].0.len(),
        h.offset == es[raw.len() as int].1,
        pos + 10 + h.key_length <= buf.len(),
        buf.subrange(pos + 10, pos + 10 + h.key_length as int) == es[raw.len() as int].0,
{
    lemma_index_parse_prefix(es, raw, buf, pos);
    let rl = raw.len() as int;
    let rest = es.skip(rl);
    assert(rest[0] == es[rl]);
    assert(es[rl].0.len() <= KEY_LENGTH_MAX);
    lemma_match_first_entry(rest, buf, pos, buf.len() as int);
    vstd::bytes::lemma_auto_spec_u16_to_from_le_bytes();
    vstd::bytes::lemma_auto_spec_u64_to_from_le_bytes();
    assert(buf.subrange(pos, pos + 2) =~= buf.subrange(pos, pos + 10).subrange(0, 2));
    assert(crate::ondisk_format::spec_kvoffset_bytes(h).subrange(0, 2) =~= vstd::bytes::spec_u16_to_le_bytes(h.key_length));
    assert(buf.subrange(pos + 2, pos + 10) =~= buf.subrange(pos, pos + 10).subrange(2, 10));
    assert(crate::ondisk_format::spec_kvoffset_bytes(h).subrange(2, 10) =~= vstd::bytes::spec_u64_to_le_bytes(h.offset));
    assert(vstd::bytes::spec_u16_to_le_bytes(h.key_length) == vstd::bytes::spec_u16_to_le_bytes(
        es[rl].0.len() as u16,
    ));
    assert(h.key_length == es[rl].0.len() as u16);
    assert(vstd::bytes::spec_u64_to_le_bytes(h.offset) == vstd::bytes::spec_u64_to_le_bytes(
        es[rl].1,
    ));
    assert(h.offset == es[rl].1);
}

/// The bytes at `pos` match the first entry of the remaining encoding.
proof fn lemma_match_first_entry(rest: Seq<(Seq<u8>, u64)>, buf: Seq<u8>, pos: int, n: int)
    requires
        rest.len() > 0,
        rest[0].0.len() <= KEY_LENGTH_MAX,
        0 <= pos <= n == buf.len(),
        buf.subrange(pos, n) == spec_index_bytes(rest),
    ensures
        pos + 10 + rest[0].0.len() <= n,
        buf.subrange(pos, pos + 2) == vstd::bytes::spec_u16_to_le_bytes(rest[0].0.len() as u16),
        buf.subrange(pos + 2, pos + 10) == vstd::bytes::spec_u64_to_le_bytes(rest[0].1),
        buf.subrange(pos + 10, pos + 10 + rest[0].0.len() as int) == rest[0].0,
{
    lemma_index_first_entry(rest);
    assert(buf.subrange(pos, pos + 2) =~= spec_index_bytes(rest).subrange(0, 2));
    assert(buf.subrange(pos + 2, pos + 10) =~= spec_index_bytes(rest).subrange(2, 10));
    assert(buf.subrange(pos + 10, pos + 10 + rest[0].0.len() as int) =~= spec_index_bytes(
        rest,
    ).subrange(10, 10 + rest[0].0.len() as int));
}


/// The bounds the sparse index yields for a query: the offset of the
/// chunk whose first key is the greatest indexed key at most the query,
/// and the offset of the next chunk (or the default upper bound if it is
/// the last chunk). `None` means the query sorts before every indexed
/// key, hence before every key of the table.
pub open spec fn spec_find_bounds(es: Seq<(Seq<u8>, u64)>, key: Seq<u8>, end_default: u64) -> Option<
    (u64, u64),
>
    decreases es.len(),
{
    if es.len() == 0 {
        None
    } else if lex_le(es.last().0, key) {
        Some((es.last().1, end_default))
    } else {
        spec_find_bounds(es.drop_last(), key, es.last().1)
    }
}

/// Characterization by the greatest index at most the query.
proof fn lemma_find_bounds_char(
    es: Seq<(Seq<u8>, u64)>,
    key: Seq<u8>,
    end_default: u64,
    idx: int,
)
    requires
        index_sorted(es),
        0 <= idx < es.len(),
        lex_le(es[idx].0, key),
        forall|j: int| idx < j < es.len() ==> lex_lt(key, (#[trigger] es[j]).0),
    ensures
        spec_find_bounds(es, key, end_default) == Some(
            (
                es[idx].1,
                if idx + 1 < es.len() {
                    es[idx + 1].1
                } else {
                    end_default
                },
            ),
        ),
    decreases es.len(),
{
    if idx == es.len() - 1 {
    } else {
        lemma_lex_cmp_flip(key, es.last().0);
        assert(!lex_le(es.last().0, key));
        let es0 = es.drop_last();
        assert(es0[idx] == es[idx]);
        assert forall|j: int| idx < j < es0.len() implies lex_lt(key, (#[trigger] es0[j]).0) by {
            assert(es0[j] == es[j]);
        }
        lemma_find_bounds_char(es0, key, es.last().1, idx);
    }
}

/// If the query sorts before every indexed key, the bounds are `None`.
proof fn lemma_find_bounds_none(es: Seq<(Seq<u8>, u64)>, key: Seq<u8>, end_default: u64)
    requires
        forall|j: int| 0 <= j < es.len() ==> lex_lt(key, (#[trigger] es[j]).0),
    ensures
        spec_find_bounds(es, key, end_default) == None::<(u64, u64)>,
    decreases es.len(),
{
    if es.len() > 0 {
        lemma_lex_cmp_flip(key, es.last().0);
        let es0 = es.drop_last();
        assert forall|j: int| 0 <= j < es0.len() implies lex_lt(key, (#[trigger] es0[j]).0) by {
            assert(es0[j] == es[j]);
        }
        lemma_find_bounds_none(es0, key, es.last().1);
    }
}

/// Find the potential start and end offsets of the key, by binary search
/// over the sorted index.
pub fn find_bounds(index: &OwnedIndex, key: &[u8], end_default: u64) -> (r: Option<(u64, u64)>)
    requires
        index.wf(),
    ensures
        r == spec_find_bounds(index.to_seq(), key@, end_default),
{
    let ghost es = index.to_seq();
    let n = index.entries.len();
    let mut lo: usize = 0;
    let mut hi: usize = n;
    while lo < hi
        invariant
            0 <= lo <= hi <= n,
            n == es.len(),
            es == index.to_seq(),
            index.wf(),
            forall|j: int| 0 <= j < lo ==> lex_le((#[trigger] es[j]).0, key@),
            forall|j: int| hi <= j < n ==> lex_lt(key@, (#[trigger] es[j]).0),
        decreases hi - lo,
    {
        let mid = lo + (hi - lo) / 2;
        let eref: &Vec<u8> = &index.entries[mid].0;
        proof {
            assert(es[mid as int] == (index.entries@[mid as int].0@, index.entries@[mid as int].1));
        }
        match cmp_bytes(eref.as_slice(), key) {
            Cmp::Greater => {
                proof {
                    lemma_lex_cmp_flip(key@, es[mid as int].0);
                    assert forall|j: int| mid <= j < n implies lex_lt(
                        key@,
                        (#[trigger] es[j]).0,
                    ) by {
                        if j > mid {
                            assert(lex_lt(es[mid as int].0, es[j].0));
                            lemma_lex_lt_trans(key@, es[mid as int].0, es[j].0);
                        }
                    }
                }
                hi = mid;
            },
            _ => {
                proof {
                    assert(lex_le(es[mid as int].0, key@));
                    assert forall|j: int| 0 <= j < mid + 1 implies lex_le(
                        (#[trigger] es[j]).0,
                        key@,
                    ) by {
                        if j < mid {
                            assert(lex_lt(es[j].0, es[mid as int].0));
                            lemma_lex_lt_le_trans(es[j].0, es[mid as int].0, key@);
                        }
                    }
                }
                lo = mid + 1;
            },
        }
    }
    if lo == 0 {
        proof {
            lemma_find_bounds_none(es, key@, end_default);
        }
        None
    } else {
        let idx = lo - 1;
        let start = index.entries[idx].1;
        let end = if lo < n {
            index.entries[lo].1
        } else {
            end_default
        };
        proof {
            assert(es[idx as int] == (index.entries@[idx as int].0@, index.entries@[idx as int].1));
            if lo < n {
                assert(es[lo as int] == (index.entries@[lo as int].0@, index.entries@[lo as int].1));
            }
            lemma_find_bounds_char(es, key@, end_default, idx as int);
        }
        Some((start, end))
    }
}

impl OwnedIndex {
    /// Find the potential start and end offsets of the key.
    pub fn find_bounds(&self, key: &[u8], end_default: u64) -> (r: Option<(u64, u64)>)
        requires
            self.wf(),
        ensures
            r == spec_find_bounds(self.to_seq(), key@, end_default),
    {
        find_bounds(self, key, end_default)
    }
}

/// An index parsed in place from a borrowed region (for tables served
/// from a memory-mapped, uncompressed file); the entries are the same as
/// the owned variant's.
pub struct MemIndex {
    index: OwnedIndex,
}

impl MemIndex {
    /// The entries as a mathematical sequence.
    pub closed spec fn to_seq(&self) -> Seq<(Seq<u8>, u64)> {
        self.index.to_seq()
    }

    /// Keys fit the on-disk length field and are strictly ascending.
    pub open spec fn wf(&self) -> bool {
        index_entries_wf(self.to_seq()) && index_sorted(self.to_seq())
    }

    /// Parse the index region out of a borrowed buffer, rejecting a
    /// region whose length disagrees with the metadata.
    pub fn from_static_buf(buf: &[u8], expected_len: u64) -> (r: Result<Self, Error>)
        ensures
            r matches Ok(ix) ==> ix.wf() && buf@ == spec_index_bytes(ix.to_seq()) && buf@.len()
                == expected_len,
            r matches Err(e) ==> (e is InvalidData) && !(buf@.len() == expected_len && exists|
                es: Seq<(Seq<u8>, u64)>,
            | index_entries_wf(es) && index_sorted(es) && buf@ == spec_index_bytes(es)),
            forall|es: Seq<(Seq<u8>, u64)>|
                index_entries_wf(es) && index_sorted(es) && buf@ == spec_index_bytes(es)
                    && buf@.len() == expected_len ==> (r matches Ok(ix) && ix.to_seq() == es),
    {
        if buf.len() as u64 != expected_len {
            return Err(Error::InvalidData("invalid index length"));
        }
        match OwnedIndex::from_reader(buf) {
            Ok(ix) => Ok(MemIndex { index: ix }),
            Err(e) => Err(e),
        }
    }

    /// Find the potential start and end offsets of the key.
    pub fn find_bounds(&self, key: &[u8], end_default: u64) -> (r: Option<(u64, u64)>)
        requires
            self.wf(),
        ensures
            r == spec_find_bounds(self.to_seq(), key@, end_default),
    {
        find_bounds(&self.index, key, end_default)
    }
}

/// Read the table metadata from the head of the file: magic, version tag
/// and metadata block; the data region starts right after.
pub fn read_metadata(buf: &[u8]) -> (r: Result<(MetaV2_0, u64), Error>)
    ensures
        match r {
            Ok((m, off)) => off == DATA_REGION_START && buf@.len() >= DATA_REGION_START
                && buf@.subrange(0, DATA_REGION_START as int) == spec_preamble_bytes(m),
            Err(e) => {
                &&& (e is InvalidData) || (e is UnsupportedVersion)
                &&& (forall|m: MetaV2_0|
                    !(buf@.len() >= DATA_REGION_START && buf@.subrange(
                        0,
                        DATA_REGION_START as int,
                    ) == spec_preamble_bytes(m)))
                &&& ((crate::ondisk_format::spec_has_magic(buf@)
                    && !crate::ondisk_format::spec_version_of(buf@).spec_supported()) ==> (
                e matches Error::UnsupportedVersion(v) && v == crate::ondisk_format::spec_version_of(
                    buf@,
                )))
                &&& ((e is UnsupportedVersion) ==> crate::ondisk_format::spec_has_magic(buf@)
                    && !crate::ondisk_format::spec_version_of(buf@).spec_supported())
            },
        },
{
    match parse_preamble(buf) {
        Ok(m) => Ok((m, 93)),
        Err(e) => Err(e),
    }
}

/// Read the bloom filter back from its decompressed region, validating
/// the stored parameters: the bit count must be positive, a multiple of
/// eight, and match the region's length, and at least one hash function
/// must be configured.
pub fn read_bloom(
    buf: &[u8],
    bitmap_bits: u64,
    k_num: u32,
    key0: (u64, u64),
    key1: (u64, u64),
) -> (r: Result<bloomfilter::Bloom<[u8]>, Error>)
    ensures
        match r {
            Ok(b) => bitmap_bits % 8 == 0 && bitmap_bits >= 1 && k_num >= 1 && 8 * buf@.len()
                == bitmap_bits && spec_bloom_wf(b) && spec_bloom_set(b) == spec_bitmap_model(
                buf@,
                bitmap_bits,
                k_num,
                key0.0,
                key0.1,
                key1.0,
                key1.1,
            ),
            Err(e) => (e is InvalidData) && (bitmap_bits % 8 != 0 || bitmap_bits == 0 || k_num == 0
                || 8 * buf@.len() != bitmap_bits),
        },
{
    if bitmap_bits % 8 != 0 {
        return Err(Error::invalid_data());
    }
    if bitmap_bits == 0 || k_num == 0 {
        return Err(Error::invalid_data());
    }
    if (buf.len() as u64) > u64::MAX / 8 || 8 * (buf.len() as u64) != bitmap_bits {
        return Err(Error::invalid_data());
    }
    Ok(bloom_from_existing(buf, bitmap_bits, k_num, key0, key1))
}


/// The value stored under a key, if the key was written: the first
/// entry holding the key decides (keys are unique in a table).
pub open spec fn spec_entries_get(es: Seq<(Seq<u8>, Seq<u8>)>, key: Seq<u8>) -> Option<Seq<u8>>
    decreases es.len(),
{
    if es.len() == 0 {
        None
    } else if es[0].0 == key {
        Some(es[0].1)
    } else {
        spec_entries_get(es.subrange(1, es.len() as int), key)
    }
}

/// An entry holding the key decides the lookup (keys are unique).
pub proof fn lemma_entries_get_some(es: Seq<(Seq<u8>, Seq<u8>)>, key: Seq<u8>, i: int)
    requires
        crate::ondisk_format::entries_sorted(es),
        0 <= i < es.len(),
        es[i].0 == key,
    ensures
        spec_entries_get(es, key) == Some(es[i].1),
    decreases es.len(),
{
    if i == 0 {
    } else {
        assert(lex_lt(es[0].0, es[i].0));
        lemma_lex_cmp_eq(es[0].0, es[i].0);
        let es1 = es.subrange(1, es.len() as int);
        assert(crate::ondisk_format::entries_sorted(es1)) by {
            assert forall|a: int, b: int| 0 <= a < b < es1.len() implies lex_lt(
                (#[trigger] es1[a]).0,
                (#[trigger] es1[b]).0,
            ) by {
                assert(es1[a] == es[a + 1] && es1[b] == es[b + 1]);
            }
        }
        assert(es1[i - 1] == es[i]);
        lemma_entries_get_some(es1, key, i - 1);
    }
}

/// With no entry holding the key, the lookup is empty.
pub proof fn lemma_entries_get_none(es: Seq<(Seq<u8>, Seq<u8>)>, key: Seq<u8>)
    requires
        forall|i: int| 0 <= i < es.len() ==> (#[trigger] es[i]).0 != key,
    ensures
        spec_entries_get(es, key) == None::<Seq<u8>>,
    decreases es.len(),
{
    if es.len() > 0 {
        let es1 = es.subrange(1, es.len() as int);
        assert forall|i: int| 0 <= i < es1.len() implies (#[trigger] es1[i]).0 != key by {
            assert(es1[i] == es[i + 1]);
        }
        lemma_entries_get_none(es1, key);
    }
}

/// From the shape of `spec_find_bounds` back to the greatest index at
/// most the query.
proof fn lemma_find_bounds_inv(es: Seq<(Seq<u8>, u64)>, key: Seq<u8>, end_default: u64)
    requires
        index_sorted(es),
    ensures
        match spec_find_bounds(es, key, end_default) {
            Some((s, e)) => exists|idx: int|
                {
                    &&& 0 <= idx < es.len()
                    &&& lex_le((#[trigger] es[idx]).0, key)
                    &&& (forall|j: int| idx < j < es.len() ==> lex_lt(key, (#[trigger] es[j]).0))
                    &&& s == es[idx].1
                    &&& e == if idx + 1 < es.len() {
                        es[idx + 1].1
                    } else {
                        end_default
                    }
                },
            None => forall|j: int| 0 <= j < es.len() ==> lex_lt(key, (#[trigger] es[j]).0),
        },
    decreases es.len(),
{
    if es.len() == 0 {
    } else if lex_le(es.last().0, key) {
        let idx = es.len() - 1;
        assert(0 <= idx < es.len() && lex_le(es[idx].0, key) && (forall|j: int|
            idx < j < es.len() ==> lex_lt(key, (#[trigger] es[j]).0)) && es.last().1 == es[idx].1
            && end_default == if idx + 1 < es.len() {
            es[idx + 1].1
        } else {
            end_default
        });
    } else {
        lemma_lex_cmp_flip(key, es.last().0);
        let es0 = es.drop_last();
        assert(index_sorted(es0)) by {
            assert forall|i: int, j: int| 0 <= i < j < es0.len() implies lex_lt(
                (#[trigger] es0[i]).0,
                (#[trigger] es0[j]).0,
            ) by {
                assert(es0[i] == es[i] && es0[j] == es[j]);
            }
        }
        lemma_find_bounds_inv(es0, key, es.last().1);
        match spec_find_bounds(es0, key, es.last().1) {
            Some((s, e)) => {
                let idx = choose|idx: int|
                    {
                        &&& 0 <= idx < es0.len()
                        &&& lex_le((#[trigger] es0[idx]).0, key)
                        &&& (forall|j: int|
                            idx < j < es0.len() ==> lex_lt(key, (#[trigger] es0[j]).0))
                        &&& s == es0[idx].1
                        &&& e == if idx + 1 < es0.len() {
                            es0[idx + 1].1
                        } else {
                            es.last().1
                        }
                    };
                assert(es0[idx] == es[idx]);
                assert forall|j: int| idx < j < es.len() implies lex_lt(
                    key,
                    (#[trigger] es[j]).0,
                ) by {
                    if j < es.len() - 1 {
                        assert(es0[j] == es[j]);
                    }
                }
                assert(e == if idx + 1 < es.len() {
                    es[idx + 1].1
                } else {
                    end_default
                });
            },
            None => {
                assert forall|j: int| 0 <= j < es.len() implies lex_lt(
                    key,
                    (#[trigger] es[j]).0,
                ) by {
                    if j < es.len() - 1 {
                        assert(es0[j] == es[j]);
                    }
                }
            },
        }
    }
}

/// The chunk the sparse index selects for a query is the only chunk that
/// can hold the query: a key is in the table exactly when it is in that
/// chunk, and then the table's value is that chunk entry's value.
#[verifier::rlimit(100)]
proof fn lemma_chunk_lookup(
    file: Seq<u8>,
    es: Seq<(Seq<u8>, Seq<u8>)>,
    chunks: Seq<Seq<(Seq<u8>, Seq<u8>)>>,
    sparse: Seq<(Seq<u8>, u64)>,
    bitmap: Seq<u8>,
    m: MetaV2_0,
    key: Seq<u8>,
    idx: int,
)
    requires
        crate::ondisk_format::spec_table_rep(file, es, chunks, sparse, bitmap, m),
        0 <= idx < sparse.len(),
        lex_le(sparse[idx].0, key),
        forall|j: int| idx < j < sparse.len() ==> lex_lt(key, (#[trigger] sparse[j]).0),
    ensures
        forall|p: int|
            0 <= p < chunks[idx].len() && (#[trigger] chunks[idx][p]).0 == key
                ==> spec_entries_get(es, key) == Some(chunks[idx][p].1),
        !(exists|p: int| 0 <= p < chunks[idx].len() && (#[trigger] chunks[idx][p]).0 == key)
            ==> spec_entries_get(es, key) == None::<Seq<u8>>,
{
    if !(exists|p: int| 0 <= p < chunks[idx].len() && (#[trigger] chunks[idx][p]).0 == key) {
        assert forall|i: int| 0 <= i < es.len() implies (#[trigger] es[i]).0 != key by {
            if es[i].0 == key {
                assert(spec_chunks_flatten(chunks)[i] == es[i]);
                assert(spec_chunks_flatten(chunks).contains(es[i]));
                crate::ondisk_format::lemma_chunks_flatten_origin(chunks, es[i]);
                let (a, p) = choose|a: int, p: int|
                    0 <= a < chunks.len() && 0 <= p < chunks[a].len() && (#[trigger] chunks[a][p])
                        == es[i];
                if a < idx {
                    assert(lex_lt(chunks[a][p].0, sparse[a + 1].0));
                    if a + 1 < idx {
                        assert(lex_lt(sparse[a + 1].0, sparse[idx].0));
                        lemma_lex_lt_trans(key, sparse[a + 1].0, sparse[idx].0);
                        lemma_lex_le_lt_trans(sparse[idx].0, key, sparse[idx].0);
                        lemma_lex_cmp_eq(sparse[idx].0, sparse[idx].0);
                    } else {
                        lemma_lex_lt_le_trans(key, sparse[idx].0, key);
                        lemma_lex_cmp_eq(key, key);
                    }
                } else if a > idx {
                    assert(lex_lt(key, sparse[a].0));
                    assert(crate::lexorder::lex_le(sparse[a].0, chunks[a][p].0));
                    lemma_lex_lt_le_trans(key, sparse[a].0, key);
                    lemma_lex_cmp_eq(key, key);
                } else {
                    assert(chunks[idx][p].0 == key);
                }
            }
        }
        lemma_entries_get_none(es, key);
    }
    // Any table entry holding the key must live in chunk idx.
    assert forall|i: int| 0 <= i < es.len() && (#[trigger] es[i]).0 == key implies exists|p: int|
        0 <= p < chunks[idx].len() && (#[trigger] chunks[idx][p]).0 == key && chunks[idx][p].1
            == es[i].1 by {
        assert(spec_chunks_flatten(chunks)[i] == es[i]);
        assert(spec_chunks_flatten(chunks).contains(es[i]));
        crate::ondisk_format::lemma_chunks_flatten_origin(chunks, es[i]);
        let (a, p) = choose|a: int, p: int|
            0 <= a < chunks.len() && 0 <= p < chunks[a].len() && (#[trigger] chunks[a][p])
                == es[i];
        if a < idx {
            assert(lex_lt(chunks[a][p].0, sparse[a + 1].0));
            if a + 1 < idx {
                assert(lex_lt(sparse[a + 1].0, sparse[idx].0));
                lemma_lex_lt_trans(key, sparse[a + 1].0, sparse[idx].0);
                lemma_lex_le_lt_trans(sparse[idx].0, key, sparse[idx].0);
                lemma_lex_cmp_eq(sparse[idx].0, sparse[idx].0);
            } else {
                lemma_lex_lt_le_trans(key, sparse[idx].0, key);
                lemma_lex_cmp_eq(key, key);
            }
        } else if a > idx {
            assert(lex_lt(key, sparse[a].0));
            assert(crate::lexorder::lex_le(sparse[a].0, chunks[a][p].0));
            lemma_lex_lt_le_trans(key, sparse[a].0, key);
            lemma_lex_cmp_eq(key, key);
        } else {
            assert(chunks[idx][p].0 == key && chunks[idx][p].1 == es[i].1);
        }
    }
    // Any chunk entry holding the key is a table entry.
    assert forall|p: int|
        0 <= p < chunks[idx].len() && (#[trigger] chunks[idx][p]).0 == key implies spec_entries_get(
        es,
        key,
    ) == Some(chunks[idx][p].1) by {
        crate::ondisk_format::lemma_chunks_flatten_membership(chunks, idx, p);
        let q = choose|q: int|
            0 <= q < spec_chunks_flatten(chunks).len() && spec_chunks_flatten(chunks)[q]
                == chunks[idx][p];
        assert(es[q] == chunks[idx][p]);
        assert(es[q].0 == key);
        lemma_entries_get_some(es, key, q);
        assert(es[q].1 == chunks[idx][p].1);
    }
}

/// If the query sorts before every indexed key, it is absent.
proof fn lemma_no_chunk(
    file: Seq<u8>,
    es: Seq<(Seq<u8>, Seq<u8>)>,
    chunks: Seq<Seq<(Seq<u8>, Seq<u8>)>>,
    sparse: Seq<(Seq<u8>, u64)>,
    bitmap: Seq<u8>,
    m: MetaV2_0,
    key: Seq<u8>,
)
    requires
        crate::ondisk_format::spec_table_rep(file, es, chunks, sparse, bitmap, m),
        forall|j: int| 0 <= j < sparse.len() ==> lex_lt(key, (#[trigger] sparse[j]).0),
    ensures
        spec_entries_get(es, key) == None::<Seq<u8>>,
{
    assert forall|i: int| 0 <= i < es.len() implies (#[trigger] es[i]).0 != key by {
        if es[i].0 == key {
            assert(spec_chunks_flatten(chunks)[i] == es[i]);
            assert(spec_chunks_flatten(chunks).contains(es[i]));
            crate::ondisk_format::lemma_chunks_flatten_origin(chunks, es[i]);
            let (a, p) = choose|a: int, p: int|
                0 <= a < chunks.len() && 0 <= p < chunks[a].len() && (#[trigger] chunks[a][p])
                    == es[i];
            assert(lex_lt(key, sparse[a].0));
            assert(crate::lexorder::lex_le(sparse[a].0, chunks[a][p].0));
            lemma_lex_lt_le_trans(key, sparse[a].0, key);
            lemma_lex_cmp_eq(key, key);
        }
    }
    lemma_entries_get_none(es, key);
}

/// The byte range the bounds select is exactly the frame of chunk `idx`.
#[verifier::rlimit(100)]
#[verifier::spinoff_prover]
proof fn lemma_chunk_frame_extract(
    file: Seq<u8>,
    es: Seq<(Seq<u8>, Seq<u8>)>,
    chunks: Seq<Seq<(Seq<u8>, Seq<u8>)>>,
    sparse: Seq<(Seq<u8>, u64)>,
    bitmap: Seq<u8>,
    m: MetaV2_0,
    idx: int,
)
    requires
        crate::ondisk_format::spec_table_rep(file, es, chunks, sparse, bitmap, m),
        0 <= idx < sparse.len(),
    ensures
        ({
            let c = m.compression;
            let start = sparse[idx].1 as int;
            let end = if idx + 1 < sparse.len() {
                sparse[idx + 1].1 as int
            } else {
                DATA_REGION_START + m.data_len as int
            };
            &&& DATA_REGION_START + m.data_len + m.index_len + m.bloom_len == file.len()
            &&& DATA_REGION_START <= start <= end <= DATA_REGION_START + m.data_len
            &&& file.subrange(start, end) == spec_frame_of(
                c,
                crate::ondisk_format::spec_records_bytes(chunks[idx]),
            )
        }),
{
    let c = m.compression;
    let cb = Seq::new(chunks.len(), |i: int| crate::ondisk_format::spec_records_bytes(chunks[i]));
    let data = spec_frames_concat(c, cb);
    crate::ondisk_format::lemma_preamble_bytes_len(m);
    let start = sparse[idx].1 as int;
    let end = if idx + 1 < sparse.len() {
        sparse[idx + 1].1 as int
    } else {
        DATA_REGION_START + m.data_len as int
    };
    crate::compression::lemma_frames_concat_take_succ(c, cb, idx);
    crate::compression::lemma_frames_concat_split(c, cb, idx + 1);
    if idx + 1 < sparse.len() {
        assert(end == DATA_REGION_START + spec_frames_concat(c, cb.take(idx + 1)).len());
    } else {
        assert(cb.take(idx + 1) =~= cb);
        assert(end == DATA_REGION_START + spec_frames_concat(c, cb.take(idx + 1)).len());
    }
    assert(start == DATA_REGION_START + spec_frames_concat(c, cb.take(idx)).len());
    assert(spec_frames_concat(c, cb.take(idx + 1)) == spec_frames_concat(c, cb.take(idx))
        + spec_frame_of(c, cb[idx]));
    assert(data == spec_frames_concat(c, cb.take(idx + 1)) + spec_frames_concat(
        c,
        cb.skip(idx + 1),
    ));
    assert(file.subrange(DATA_REGION_START as int, DATA_REGION_START + data.len()) =~= data);
    assert(data.subrange(start - DATA_REGION_START, end - DATA_REGION_START) =~= spec_frame_of(
        c,
        cb[idx],
    ));
    assert(file.subrange(start, end) =~= data.subrange(
        start - DATA_REGION_START,
        end - DATA_REGION_START,
    ));
    assert(cb[idx] == crate::ondisk_format::spec_records_bytes(chunks[idx]));
}


/// Two preambles with the same bytes carry the same metadata: every
/// field is recovered from a fixed subrange of the encoding.
proof fn lemma_preamble_inj(m1: MetaV2_0, m2: MetaV2_0)
    requires
        crate::ondisk_format::spec_preamble_bytes(m1) == crate::ondisk_format::spec_preamble_bytes(
            m2,
        ),
    ensures
        m1 == m2,
{
    vstd::bytes::lemma_auto_spec_u16_to_from_le_bytes();
    vstd::bytes::lemma_auto_spec_u32_to_from_le_bytes();
    vstd::bytes::lemma_auto_spec_u64_to_from_le_bytes();
    crate::ondisk_format::lemma_meta_fields(m1);
    crate::ondisk_format::lemma_meta_fields(m2);
    let p1 = crate::ondisk_format::spec_preamble_bytes(m1);
    let b1 = crate::ondisk_format::spec_meta_bytes(m1);
    let b2 = crate::ondisk_format::spec_meta_bytes(m2);
    lemma_preamble_bytes_len(m1);
    lemma_preamble_bytes_len(m2);
    lemma_meta_bytes_len(m1);
    lemma_meta_bytes_len(m2);
    assert(b1 =~= p1.subrange(8, 93));
    assert(b2 =~= crate::ondisk_format::spec_preamble_bytes(m2).subrange(8, 93));
    assert(b1 == b2);
    assert(m1.data_len == m2.data_len);
    assert(m1.index_len == m2.index_len);
    assert(m1.bloom_len == m2.bloom_len);
    assert(m1.items == m2.items);
    assert(m1.compression.spec_tag() == m2.compression.spec_tag());
    assert(m1.compression == m2.compression) by {
        match m1.compression {
            Compression::Plain => {},
            Compression::Zlib => {},
            Compression::Snappy => {},
        }
    }
    assert(b1[36] == b2[36]);
    assert(m1.finished == m2.finished);
    assert(m1.checksum == m2.checksum);
    assert(m1.bloom.bitmap_bits == m2.bloom.bitmap_bits);
    assert(m1.bloom.k_num == m2.bloom.k_num);
    assert(m1.bloom.sip_key_0.0 == m2.bloom.sip_key_0.0);
    assert(m1.bloom.sip_key_0.1 == m2.bloom.sip_key_0.1);
    assert(m1.bloom.sip_key_1.0 == m2.bloom.sip_key_1.0);
    assert(m1.bloom.sip_key_1.1 == m2.bloom.sip_key_1.1);
}

/// The single-threaded reader over the bytes of one finished table.
///
/// Opening parses and validates the metadata, the sparse index and the
/// bloom filter; `get` serves point lookups, answering exactly according
/// to the entries the table holds.
pub struct InnerReader {
    page_cache: StaticBufCache,
    meta: MetaV2_0,
    data_start: u64,
    index_start: u64,
    index: OwnedIndex,
    bloom: bloomfilter::Bloom<[u8]>,
    use_bloom_default: bool,
    cache: ChunkLru,
}

impl InnerReader {
    /// The bytes of the table file this reader serves.
    pub closed spec fn backing(&self) -> Seq<u8> {
        self.page_cache.backing()
    }

    /// The compression algorithm the table was written with.
    pub closed spec fn algo(&self) -> Compression {
        self.meta.compression
    }

    /// Everything `get` relies on: the parsed pieces agree with every
    /// reading of the file as a complete table, and every cached chunk is
    /// the decompressed frame at its offset.
    pub closed spec fn wf(&self) -> bool {
        &&& self.index.wf()
        &&& spec_bloom_wf(self.bloom)
        &&& self.page_cache.wf()
        &&& self.data_start == DATA_REGION_START
        &&& self.index_start == DATA_REGION_START + self.meta.data_len
        &&& self.index_start <= self.backing().len()
        &&& (forall|
            es: Seq<(Seq<u8>, Seq<u8>)>,
            chunks: Seq<Seq<(Seq<u8>, Seq<u8>)>>,
            sparse: Seq<(Seq<u8>, u64)>,
            bitmap: Seq<u8>,
            m: MetaV2_0,
        |
            #[trigger] spec_table_rep(self.backing(), es, chunks, sparse, bitmap, m) ==> m
                == self.meta && self.index.to_seq() == sparse && spec_bloom_set(self.bloom)
                == spec_bitmap_model(
                bitmap,
                m.bloom.bitmap_bits,
                m.bloom.k_num,
                m.bloom.sip_key_0.0,
                m.bloom.sip_key_0.1,
                m.bloom.sip_key_1.0,
                m.bloom.sip_key_1.1,
            ))
        &&& (forall|o: u64| #[trigger]
            spec_lru_contents(self.cache).contains_key(o) ==> forall|
                es: Seq<(Seq<u8>, Seq<u8>)>,
                chunks: Seq<Seq<(Seq<u8>, Seq<u8>)>>,
                sparse: Seq<(Seq<u8>, u64)>,
                bitmap: Seq<u8>,
                m: MetaV2_0,
            |
                #[trigger] spec_table_rep(self.backing(), es, chunks, sparse, bitmap, m)
                    ==> exists|i: int|
                    0 <= i < sparse.len() && (#[trigger] sparse[i]).1 == o && spec_lru_contents(
                        self.cache,
                    )[o] == spec_records_bytes(chunks[i]))
    }

    /// Open a reader over the bytes of a table file: the shared head
    /// parse, then the chunk cache. Succeeds on every complete table;
    /// rejects a bad magic, an unsupported version, a table whose
    /// `finished` flag is unset, region lengths that disagree with the
    /// file, and any region that fails to parse.
    pub fn new(buf: Vec<u8>, opts: &ReadOptions) -> (r: Result<Self, Error>)
        requires
            opts.spec_valid(),
        ensures
            r matches Ok(rd) ==> rd.wf() && rd.backing() == buf@ && (exists|m: MetaV2_0|
                buf@.len() >= DATA_REGION_START && buf@.subrange(0, DATA_REGION_START as int)
                    == spec_preamble_bytes(m) && rd.algo() == m.compression),
            (exists|es: Seq<(Seq<u8>, Seq<u8>)>, c: Compression|
                spec_table_complete(buf@, es, c)) ==> r is Ok,
            (buf@.len() >= DATA_REGION_START && exists|m: MetaV2_0|
                buf@.subrange(0, DATA_REGION_START as int) == spec_preamble_bytes(m)
                    && m.finished == false) ==> (r matches Err(e) && e is InvalidData),
            (crate::ondisk_format::spec_has_magic(buf@)
                && !crate::ondisk_format::spec_version_of(buf@).spec_supported()) ==> (
            r matches Err(e) && e is UnsupportedVersion),
    {
        let (meta, index_start, index, bloom) = match parse_table_head(buf.as_slice()) {
            Ok(p) => p,
            Err(e) => {
                return Err(e);
            },
        };
        let cache = match &opts.cache {
            Some(ReadCache::Blocks(b)) => lru_new(*b),
            _ => lru_unbounded(),
        };
        let rd = InnerReader {
            page_cache: StaticBufCache::new(buf),
            meta,
            data_start: 93,
            index_start,
            index,
            bloom,
            use_bloom_default: opts.use_bloom,
            cache,
        };
        proof {
            assert(rd.backing() == buf@);
        }
        Ok(rd)
    }
}

/// Parse and validate the head of a table file: metadata, sparse index
/// and bloom filter, with the absolute offset at which the index region
/// starts. This is the shared open sequence of every reader variant;
/// callers that read chunks on their own (positional reads against a
/// descriptor) take the parsed pieces from here. Succeeds on every
/// complete table; rejects a bad magic, an unsupported version, a table
/// whose `finished` flag is unset, region lengths that disagree with the
/// file, and any region that fails to parse.
#[verifier::rlimit(100)]
pub fn parse_table_head(head: &[u8]) -> (r: Result<
    (MetaV2_0, u64, OwnedIndex, bloomfilter::Bloom<[u8]>),
    Error,
>)
    ensures
        r matches Ok(p) ==> ({
            &&& p.2.wf()
            &&& spec_bloom_wf(p.3)
            &&& p.0.finished == true
            &&& p.1 == DATA_REGION_START + p.0.data_len
            &&& p.1 <= head@.len()
            &&& head@.len() >= DATA_REGION_START
            &&& head@.subrange(0, DATA_REGION_START as int) == spec_preamble_bytes(p.0)
            &&& (forall|
                es: Seq<(Seq<u8>, Seq<u8>)>,
                chunks: Seq<Seq<(Seq<u8>, Seq<u8>)>>,
                sparse: Seq<(Seq<u8>, u64)>,
                bitmap: Seq<u8>,
                m: MetaV2_0,
            |
                #[trigger] spec_table_rep(head@, es, chunks, sparse, bitmap, m) ==> m == p.0
                    && p.2.to_seq() == sparse && spec_bloom_set(p.3) == spec_bitmap_model(
                    bitmap,
                    m.bloom.bitmap_bits,
                    m.bloom.k_num,
                    m.bloom.sip_key_0.0,
                    m.bloom.sip_key_0.1,
                    m.bloom.sip_key_1.0,
                    m.bloom.sip_key_1.1,
                ))
        }),
        (exists|es: Seq<(Seq<u8>, Seq<u8>)>, c: Compression| spec_table_complete(head@, es, c))
            ==> r is Ok,
        (head@.len() >= DATA_REGION_START && exists|m: MetaV2_0|
            head@.subrange(0, DATA_REGION_START as int) == spec_preamble_bytes(m)
                && m.finished == false) ==> (r matches Err(e) && e is InvalidData),
        (crate::ondisk_format::spec_has_magic(head@) && !crate::ondisk_format::spec_version_of(
            head@,
        ).spec_supported()) ==> (r matches Err(e) && e is UnsupportedVersion),
{
    let (meta, data_start) = match read_metadata(head) {
        Ok(p) => p,
        Err(e) => {
            proof {
                assert forall|es: Seq<(Seq<u8>, Seq<u8>)>, c: Compression|
                    !spec_table_complete(head@, es, c) by {
                    if spec_table_complete(head@, es, c) {
                        let (chunks, sparse, bitmap, m) = choose|
                            chunks: Seq<Seq<(Seq<u8>, Seq<u8>)>>,
                            sparse: Seq<(Seq<u8>, u64)>,
                            bitmap: Seq<u8>,
                            m: MetaV2_0,
                        |
                            spec_table_rep(head@, es, chunks, sparse, bitmap, m)
                                && m.compression == c;
                        lemma_preamble_bytes_len(m);
                        assert(head@.subrange(0, DATA_REGION_START as int) =~= spec_preamble_bytes(m));
                    }
                }
            }
            return Err(e);
        },
    };
    if !meta.finished {
        proof {
            vstd::bytes::lemma_auto_spec_u16_to_from_le_bytes();
            lemma_preamble_bytes_len(meta);
            assert(head@.subrange(0, DATA_REGION_START as int).subrange(4, 6) =~= head@.subrange(
                4,
                6,
            ));
            assert(head@.subrange(0, DATA_REGION_START as int).subrange(6, 8) =~= head@.subrange(
                6,
                8,
            ));
            assert(spec_preamble_bytes(meta).subrange(4, 6)
                =~= vstd::bytes::spec_u16_to_le_bytes(2u16));
            assert(spec_preamble_bytes(meta).subrange(6, 8)
                =~= vstd::bytes::spec_u16_to_le_bytes(0u16));
            assert(crate::ondisk_format::spec_version_of(head@).spec_supported());
            assert forall|es: Seq<(Seq<u8>, Seq<u8>)>, c: Compression|
                !spec_table_complete(head@, es, c) by {
                if spec_table_complete(head@, es, c) {
                    let (chunks, sparse, bitmap, m) = choose|
                        chunks: Seq<Seq<(Seq<u8>, Seq<u8>)>>,
                        sparse: Seq<(Seq<u8>, u64)>,
                        bitmap: Seq<u8>,
                        m: MetaV2_0,
                    |
                        spec_table_rep(head@, es, chunks, sparse, bitmap, m) && m.compression
                            == c;
                    lemma_preamble_bytes_len(m);
                    assert(head@.subrange(0, DATA_REGION_START as int) =~= spec_preamble_bytes(m));
                    lemma_preamble_inj(meta, m);
                }
            }
        }
        return Err(Error::InvalidData("table is not finished"));
    }
    proof {
        // The parsed preamble pins the version tag to the supported one.
        vstd::bytes::lemma_auto_spec_u16_to_from_le_bytes();
        lemma_preamble_bytes_len(meta);
        assert(head@.subrange(0, DATA_REGION_START as int).subrange(4, 6) =~= head@.subrange(
            4,
            6,
        ));
        assert(head@.subrange(0, DATA_REGION_START as int).subrange(6, 8) =~= head@.subrange(
            6,
            8,
        ));
        assert(spec_preamble_bytes(meta).subrange(4, 6) =~= vstd::bytes::spec_u16_to_le_bytes(
            2u16,
        ));
        assert(spec_preamble_bytes(meta).subrange(6, 8) =~= vstd::bytes::spec_u16_to_le_bytes(
            0u16,
        ));
        assert(crate::ondisk_format::spec_version_of(head@).spec_supported());
        assert forall|m: MetaV2_0|
            head@.subrange(0, DATA_REGION_START as int) == spec_preamble_bytes(
                m,
            ) implies m == meta by {
            lemma_preamble_inj(meta, m);
        }
        // From here on, parsing agrees with every complete reading.
        assert forall|
            es: Seq<(Seq<u8>, Seq<u8>)>,
            chunks: Seq<Seq<(Seq<u8>, Seq<u8>)>>,
            sparse: Seq<(Seq<u8>, u64)>,
            bitmap: Seq<u8>,
            m: MetaV2_0,
        |
            #[trigger] spec_table_rep(head@, es, chunks, sparse, bitmap, m) implies m
            == meta by {
            lemma_preamble_bytes_len(m);
            assert(head@.subrange(0, DATA_REGION_START as int) =~= spec_preamble_bytes(m));
            lemma_preamble_inj(meta, m);
        }
    }
    let flen: u64 = head.len() as u64;
    if meta.data_len > flen - 93 {
        proof {
            lemma_regions_absent(head@, meta);
        }
        return Err(Error::invalid_data());
    }
    let index_start: u64 = 93 + meta.data_len;
    if meta.index_len > flen - index_start {
        proof {
            lemma_regions_absent(head@, meta);
        }
        return Err(Error::invalid_data());
    }
    let index_end: u64 = index_start + meta.index_len;
    if meta.bloom_len > flen - index_end {
        proof {
            lemma_regions_absent(head@, meta);
        }
        return Err(Error::invalid_data());
    }
    let bloom_end: u64 = index_end + meta.bloom_len;
    if bloom_end != flen {
        proof {
            lemma_regions_absent(head@, meta);
        }
        return Err(Error::invalid_data());
    }
    proof {
        assert forall|
            es: Seq<(Seq<u8>, Seq<u8>)>,
            chunks: Seq<Seq<(Seq<u8>, Seq<u8>)>>,
            sparse: Seq<(Seq<u8>, u64)>,
            bitmap: Seq<u8>,
            m: MetaV2_0,
        |
            #[trigger] spec_table_rep(head@, es, chunks, sparse, bitmap, m) implies head@
            .subrange(index_start as int, index_end as int) == spec_frame_of(
            m.compression,
            spec_index_bytes(sparse),
        ) && head@.subrange(index_end as int, bloom_end as int) == spec_frame_of(
            m.compression,
            bitmap,
        ) by {
            lemma_regions_split(head@, es, chunks, sparse, bitmap, m);
        }
    }
    let index_frame = vstd::slice::slice_subrange(
        head,
        index_start as usize,
        index_end as usize,
    );
    let index_plain = match uncompress_frame(meta.compression, index_frame) {
        Ok(v) => v,
        Err(e) => {
            return Err(e);
        },
    };
    let index = match OwnedIndex::from_reader(index_plain.as_slice()) {
        Ok(ix) => ix,
        Err(e) => {
            return Err(e);
        },
    };
    let bloom_frame = vstd::slice::slice_subrange(
        head,
        index_end as usize,
        bloom_end as usize,
    );
    let bloom_plain = match uncompress_frame(meta.compression, bloom_frame) {
        Ok(v) => v,
        Err(e) => {
            return Err(e);
        },
    };
    let bloom = match read_bloom(
        bloom_plain.as_slice(),
        meta.bloom.bitmap_bits,
        meta.bloom.k_num,
        meta.bloom.sip_key_0,
        meta.bloom.sip_key_1,
    ) {
        Ok(b) => b,
        Err(e) => {
            return Err(e);
        },
    };
    Ok((meta, index_start, index, bloom))
}



/// If any region length disagrees with the file length, the file is not
/// a complete table.
proof fn lemma_regions_absent(file: Seq<u8>, meta: MetaV2_0)
    requires
        forall|
            es: Seq<(Seq<u8>, Seq<u8>)>,
            chunks: Seq<Seq<(Seq<u8>, Seq<u8>)>>,
            sparse: Seq<(Seq<u8>, u64)>,
            bitmap: Seq<u8>,
            m: MetaV2_0,
        |
            #[trigger] spec_table_rep(file, es, chunks, sparse, bitmap, m) ==> m == meta,
        DATA_REGION_START + meta.data_len as int + meta.index_len as int + meta.bloom_len as int
            != file.len(),
    ensures
        forall|es: Seq<(Seq<u8>, Seq<u8>)>, c: Compression| !spec_table_complete(file, es, c),
{
    assert forall|es: Seq<(Seq<u8>, Seq<u8>)>, c: Compression|
        !spec_table_complete(file, es, c) by {
        if spec_table_complete(file, es, c) {
            let (chunks, sparse, bitmap, m) = choose|
                chunks: Seq<Seq<(Seq<u8>, Seq<u8>)>>,
                sparse: Seq<(Seq<u8>, u64)>,
                bitmap: Seq<u8>,
                m: MetaV2_0,
            | spec_table_rep(file, es, chunks, sparse, bitmap, m) && m.compression == c;
            lemma_preamble_bytes_len(m);
        }
    }
}

/// The index and bloom regions of a complete table stand at the offsets
/// the metadata gives.
proof fn lemma_regions_split(
    file: Seq<u8>,
    es: Seq<(Seq<u8>, Seq<u8>)>,
    chunks: Seq<Seq<(Seq<u8>, Seq<u8>)>>,
    sparse: Seq<(Seq<u8>, u64)>,
    bitmap: Seq<u8>,
    m: MetaV2_0,
)
    requires
        spec_table_rep(file, es, chunks, sparse, bitmap, m),
    ensures
        DATA_REGION_START + m.data_len as int + m.index_len as int + m.bloom_len as int
            == file.len(),
        file.subrange(
            DATA_REGION_START + m.data_len as int,
            DATA_REGION_START + m.data_len as int + m.index_len as int,
        ) == spec_frame_of(m.compression, spec_index_bytes(sparse)),
        file.subrange(
            DATA_REGION_START + m.data_len as int + m.index_len as int,
            DATA_REGION_START + m.data_len as int + m.index_len as int + m.bloom_len as int,
        ) == spec_frame_of(m.compression, bitmap),
{
    lemma_preamble_bytes_len(m);
    assert(file.subrange(
        DATA_REGION_START + m.data_len as int,
        DATA_REGION_START + m.data_len as int + m.index_len as int,
    ) =~= spec_frame_of(m.compression, spec_index_bytes(sparse)));
    assert(file.subrange(
        DATA_REGION_START + m.data_len as int + m.index_len as int,
        DATA_REGION_START + m.data_len as int + m.index_len as int + m.bloom_len as int,
    ) =~= spec_frame_of(m.compression, bitmap));
}


/// At bounds the index selected, the file holds the frame of exactly one
/// chunk, the one that can hold the query.
#[verifier::rlimit(100)]
proof fn lemma_bounds_good(
    backing: Seq<u8>,
    es: Seq<(Seq<u8>, Seq<u8>)>,
    chunks: Seq<Seq<(Seq<u8>, Seq<u8>)>>,
    sparse: Seq<(Seq<u8>, u64)>,
    bitmap: Seq<u8>,
    m: MetaV2_0,
    key: Seq<u8>,
    end_default: u64,
    start: u64,
    end: u64,
)
    requires
        spec_table_rep(backing, es, chunks, sparse, bitmap, m),
        end_default == DATA_REGION_START + m.data_len,
        spec_find_bounds(sparse, key, end_default) == Some((start, end)),
    ensures
        exists|idx: int|
            {
                &&& 0 <= idx < sparse.len()
                &&& crate::lexorder::lex_le((#[trigger] sparse[idx]).0, key)
                &&& (forall|j: int| idx < j < sparse.len() ==> lex_lt(key, (#[trigger] sparse[j]).0))
                &&& start == sparse[idx].1
                &&& DATA_REGION_START <= start <= end <= DATA_REGION_START + m.data_len
                &&& DATA_REGION_START + m.data_len <= backing.len()
                &&& backing.subrange(start as int, end as int) == spec_frame_of(
                    m.compression,
                    spec_records_bytes(chunks[idx]),
                )
            },
{
    assert(index_sorted(sparse));
    lemma_find_bounds_inv(sparse, key, end_default);
    let idx = choose|idx: int|
        {
            &&& 0 <= idx < sparse.len()
            &&& crate::lexorder::lex_le((#[trigger] sparse[idx]).0, key)
            &&& (forall|j: int| idx < j < sparse.len() ==> lex_lt(key, (#[trigger] sparse[j]).0))
            &&& start == sparse[idx].1
            &&& end == if idx + 1 < sparse.len() {
                sparse[idx + 1].1
            } else {
                end_default
            }
        };
    lemma_chunk_frame_extract(backing, es, chunks, sparse, bitmap, m, idx);
    crate::ondisk_format::lemma_preamble_bytes_len(m);
    assert({
        &&& 0 <= idx < sparse.len()
        &&& crate::lexorder::lex_le(sparse[idx].0, key)
        &&& (forall|j: int| idx < j < sparse.len() ==> lex_lt(key, (#[trigger] sparse[j]).0))
        &&& start == sparse[idx].1
        &&& DATA_REGION_START <= start <= end <= DATA_REGION_START + m.data_len
        &&& DATA_REGION_START + m.data_len <= backing.len()
        &&& backing.subrange(start as int, end as int) == spec_frame_of(
            m.compression,
            spec_records_bytes(chunks[idx]),
        )
    });
}


/// The chunk the reader fetched for a query: under every complete
/// reading of the file, it is the records of the chunk whose frame starts
/// at `start`, and that chunk is the one the sparse index selects for the
/// query.
pub open spec fn spec_selected_chunk(
    backing: Seq<u8>,
    key: Seq<u8>,
    start: u64,
    chunk: Seq<u8>,
) -> bool {
    forall|
        es: Seq<(Seq<u8>, Seq<u8>)>,
        chunks: Seq<Seq<(Seq<u8>, Seq<u8>)>>,
        sparse: Seq<(Seq<u8>, u64)>,
        bitmap: Seq<u8>,
        m: MetaV2_0,
    |
        #[trigger] spec_table_rep(backing, es, chunks, sparse, bitmap, m) ==> exists|idx: int|
            {
                &&& 0 <= idx < sparse.len()
                &&& crate::lexorder::lex_le((#[trigger] sparse[idx]).0, key)
                &&& (forall|j: int| idx < j < sparse.len() ==> lex_lt(key, (#[trigger] sparse[j]).0))
                &&& sparse[idx].1 == start
                &&& chunk == spec_records_bytes(chunks[idx])
            }
}

/// A selected chunk answers the query exactly: scanning it finds the
/// table's value when the key was written and reports absence otherwise.
#[verifier::rlimit(100)]
#[verifier::spinoff_prover]
proof fn lemma_get_answer(backing: Seq<u8>, key: Seq<u8>, start: u64, chunk: Seq<u8>)
    requires
        spec_selected_chunk(backing, key, start, chunk),
    ensures
        forall|es: Seq<(Seq<u8>, Seq<u8>)>, c: Compression|
            #[trigger] spec_table_complete(backing, es, c) ==> match crate::ondisk_format::spec_chunk_scan(
                chunk,
                key,
                0,
            ) {
                crate::ondisk_format::ScanResult::Found(s, e2) => spec_entries_get(es, key)
                    == Some(chunk.subrange(s, e2)),
                crate::ondisk_format::ScanResult::Absent => spec_entries_get(es, key) == None::<
                    Seq<u8>,
                >,
                crate::ondisk_format::ScanResult::Corrupt => false,
            },
{
    assert forall|es: Seq<(Seq<u8>, Seq<u8>)>, c: Compression|
        #[trigger] spec_table_complete(backing, es, c) implies match crate::ondisk_format::spec_chunk_scan(
        chunk,
        key,
        0,
    ) {
        crate::ondisk_format::ScanResult::Found(s, e2) => spec_entries_get(es, key) == Some(
            chunk.subrange(s, e2),
        ),
        crate::ondisk_format::ScanResult::Absent => spec_entries_get(es, key) == None::<Seq<u8>>,
        crate::ondisk_format::ScanResult::Corrupt => false,
    } by {
        let (chunks, sparse, bitmap, m) = choose|
            chunks: Seq<Seq<(Seq<u8>, Seq<u8>)>>,
            sparse: Seq<(Seq<u8>, u64)>,
            bitmap: Seq<u8>,
            m: MetaV2_0,
        | spec_table_rep(backing, es, chunks, sparse, bitmap, m) && m.compression == c;
        let idx = choose|idx: int|
            {
                &&& 0 <= idx < sparse.len()
                &&& crate::lexorder::lex_le((#[trigger] sparse[idx]).0, key)
                &&& (forall|j: int| idx < j < sparse.len() ==> lex_lt(key, (#[trigger] sparse[j]).0))
                &&& sparse[idx].1 == start
                &&& chunk == spec_records_bytes(chunks[idx])
            };
        assert(crate::ondisk_format::entries_wf(chunks[idx])) by {
            assert forall|p: int| 0 <= p < chunks[idx].len() implies crate::ondisk_format::record_wf(
                (#[trigger] chunks[idx][p]).0,
                chunks[idx][p].1,
            ) by {
                crate::ondisk_format::lemma_chunks_flatten_membership(chunks, idx, p);
                let q = choose|q: int|
                    0 <= q < spec_chunks_flatten(chunks).len() && spec_chunks_flatten(chunks)[q]
                        == chunks[idx][p];
                assert(es[q] == chunks[idx][p]);
                assert(crate::ondisk_format::record_wf(es[q].0, es[q].1));
            }
        }
        crate::ondisk_format::lemma_scan_records(chunks[idx], key);
        lemma_chunk_lookup(backing, es, chunks, sparse, bitmap, m, key, idx);
        match crate::ondisk_format::spec_chunk_scan(chunk, key, 0) {
            crate::ondisk_format::ScanResult::Found(s, e2) => {
                let p = choose|p: int|
                    0 <= p < chunks[idx].len() && (#[trigger] chunks[idx][p]).0 == key && 0 <= s
                        <= e2 <= chunk.len() && chunk.subrange(s, e2) == chunks[idx][p].1;
                assert(spec_entries_get(es, key) == Some(chunks[idx][p].1));
            },
            crate::ondisk_format::ScanResult::Absent => {},
            crate::ondisk_format::ScanResult::Corrupt => {},
        }
    }
}

impl InnerReader {
    /// A chunk obtained by decompressing the selected frame is the
    /// selected chunk, under every complete reading of the file.
    #[verifier::rlimit(100)]
    #[verifier::spinoff_prover]
    proof fn lemma_selected_from_frame(&self, key: Seq<u8>, start: u64, end: u64, chunk: Seq<u8>)
        requires
            self.wf(),
            spec_find_bounds(self.index.to_seq(), key, self.index_start) == Some((start, end)),
            forall|d: Seq<u8>|
                self.backing().subrange(start as int, end as int) == spec_frame_of(
                    self.meta.compression,
                    d,
                ) ==> chunk == d,
        ensures
            spec_selected_chunk(self.backing(), key, start, chunk),
    {
        let backing = self.backing();
        assert forall|
            es: Seq<(Seq<u8>, Seq<u8>)>,
            chunks: Seq<Seq<(Seq<u8>, Seq<u8>)>>,
            sparse: Seq<(Seq<u8>, u64)>,
            bitmap: Seq<u8>,
            m: MetaV2_0,
        |
            #[trigger] spec_table_rep(backing, es, chunks, sparse, bitmap, m) implies exists|
            idx: int,
        |
            {
                &&& 0 <= idx < sparse.len()
                &&& crate::lexorder::lex_le((#[trigger] sparse[idx]).0, key)
                &&& (forall|j: int| idx < j < sparse.len() ==> lex_lt(key, (#[trigger] sparse[j]).0))
                &&& sparse[idx].1 == start
                &&& chunk == spec_records_bytes(chunks[idx])
            } by {
            assert(sparse == self.index.to_seq());
            assert(m == self.meta);
            lemma_bounds_good(
                backing,
                es,
                chunks,
                sparse,
                bitmap,
                m,
                key,
                self.index_start,
                start,
                end,
            );
            let idx = choose|idx: int|
                {
                    &&& 0 <= idx < sparse.len()
                    &&& crate::lexorder::lex_le((#[trigger] sparse[idx]).0, key)
                    &&& (forall|j: int|
                        idx < j < sparse.len() ==> lex_lt(key, (#[trigger] sparse[j]).0))
                    &&& start == sparse[idx].1
                    &&& DATA_REGION_START <= start <= end <= DATA_REGION_START + m.data_len
                    &&& DATA_REGION_START + m.data_len <= backing.len()
                    &&& backing.subrange(start as int, end as int) == spec_frame_of(
                        m.compression,
                        spec_records_bytes(chunks[idx]),
                    )
                };
            assert(chunk == spec_records_bytes(chunks[idx]));
        }
    }

    /// A chunk served from the cache at the selected offset is the
    /// selected chunk, under every complete reading of the file.
    #[verifier::rlimit(100)]
    #[verifier::spinoff_prover]
    proof fn lemma_selected_from_cache(&self, key: Seq<u8>, start: u64, end: u64, chunk: Seq<u8>)
        requires
            self.wf(),
            spec_find_bounds(self.index.to_seq(), key, self.index_start) == Some((start, end)),
            spec_lru_contents(self.cache).contains_key(start),
            chunk == spec_lru_contents(self.cache)[start],
        ensures
            spec_selected_chunk(self.backing(), key, start, chunk),
    {
        let backing = self.backing();
        assert forall|
            es: Seq<(Seq<u8>, Seq<u8>)>,
            chunks: Seq<Seq<(Seq<u8>, Seq<u8>)>>,
            sparse: Seq<(Seq<u8>, u64)>,
            bitmap: Seq<u8>,
            m: MetaV2_0,
        |
            #[trigger] spec_table_rep(backing, es, chunks, sparse, bitmap, m) implies exists|
            idx: int,
        |
            {
                &&& 0 <= idx < sparse.len()
                &&& crate::lexorder::lex_le((#[trigger] sparse[idx]).0, key)
                &&& (forall|j: int| idx < j < sparse.len() ==> lex_lt(key, (#[trigger] sparse[j]).0))
                &&& sparse[idx].1 == start
                &&& chunk == spec_records_bytes(chunks[idx])
            } by {
            assert(sparse == self.index.to_seq());
            lemma_bounds_good(
                backing,
                es,
                chunks,
                sparse,
                bitmap,
                m,
                key,
                self.index_start,
                start,
                end,
            );
            let idx = choose|idx: int|
                {
                    &&& 0 <= idx < sparse.len()
                    &&& crate::lexorder::lex_le((#[trigger] sparse[idx]).0, key)
                    &&& (forall|j: int|
                        idx < j < sparse.len() ==> lex_lt(key, (#[trigger] sparse[j]).0))
                    &&& start == sparse[idx].1
                    &&& DATA_REGION_START <= start <= end <= DATA_REGION_START + m.data_len
                    &&& DATA_REGION_START + m.data_len <= backing.len()
                    &&& backing.subrange(start as int, end as int) == spec_frame_of(
                        m.compression,
                        spec_records_bytes(chunks[idx]),
                    )
                };
            let i = choose|i: int|
                0 <= i < sparse.len() && (#[trigger] sparse[i]).1 == start && spec_lru_contents(
                    self.cache,
                )[start] == spec_records_bytes(chunks[i]);
            if i < idx {
                assert(sparse[i].1 < sparse[idx].1);
            }
            if idx < i {
                assert(sparse[idx].1 < sparse[i].1);
            }
            assert(i == idx);
        }
    }

    /// If the index selected bounds outside the data region, the file is
    /// not a complete table.
    #[verifier::spinoff_prover]
    proof fn lemma_bad_bounds(&self, key: Seq<u8>, start: u64, end: u64)
        requires
            self.wf(),
            spec_find_bounds(self.index.to_seq(), key, self.index_start) == Some((start, end)),
            end < start || end > self.index_start || start < DATA_REGION_START,
        ensures
            forall|es: Seq<(Seq<u8>, Seq<u8>)>, c: Compression|
                !spec_table_complete(self.backing(), es, c),
    {
        let backing = self.backing();
        assert forall|es: Seq<(Seq<u8>, Seq<u8>)>, c: Compression|
            !spec_table_complete(backing, es, c) by {
            if spec_table_complete(backing, es, c) {
                let (chunks, sparse, bitmap, m) = choose|
                    chunks: Seq<Seq<(Seq<u8>, Seq<u8>)>>,
                    sparse: Seq<(Seq<u8>, u64)>,
                    bitmap: Seq<u8>,
                    m: MetaV2_0,
                | spec_table_rep(backing, es, chunks, sparse, bitmap, m) && m.compression == c;
                assert(sparse == self.index.to_seq());
                lemma_bounds_good(
                    backing,
                    es,
                    chunks,
                    sparse,
                    bitmap,
                    m,
                    key,
                    self.index_start,
                    start,
                    end,
                );
            }
        }
    }
}


/// Inserting the selected chunk keeps every cached chunk the plaintext
/// of the frame at its offset.
#[verifier::rlimit(100)]
#[verifier::spinoff_prover]
proof fn lemma_coherence_after_put(
    backing: Seq<u8>,
    old_c: ChunkLru,
    new_c: ChunkLru,
    start: u64,
    v: Seq<u8>,
    key: Seq<u8>,
)
    requires
        forall|o: u64| #[trigger]
            spec_lru_contents(old_c).contains_key(o) ==> forall|
                es: Seq<(Seq<u8>, Seq<u8>)>,
                chunks: Seq<Seq<(Seq<u8>, Seq<u8>)>>,
                sparse: Seq<(Seq<u8>, u64)>,
                bitmap: Seq<u8>,
                m: MetaV2_0,
            |
                #[trigger] spec_table_rep(backing, es, chunks, sparse, bitmap, m) ==> exists|i: int|
                    0 <= i < sparse.len() && (#[trigger] sparse[i]).1 == o && spec_lru_contents(
                        old_c,
                    )[o] == spec_records_bytes(chunks[i]),
        spec_lru_contents(new_c).contains_key(start),
        spec_lru_contents(new_c)[start] == v,
        forall|k2: u64| #[trigger]
            spec_lru_contents(new_c).contains_key(k2) ==> k2 == start || (spec_lru_contents(
                old_c,
            ).contains_key(k2) && spec_lru_contents(new_c)[k2] == spec_lru_contents(old_c)[k2]),
        spec_selected_chunk(backing, key, start, v),
    ensures
        forall|o: u64| #[trigger]
            spec_lru_contents(new_c).contains_key(o) ==> forall|
                es: Seq<(Seq<u8>, Seq<u8>)>,
                chunks: Seq<Seq<(Seq<u8>, Seq<u8>)>>,
                sparse: Seq<(Seq<u8>, u64)>,
                bitmap: Seq<u8>,
                m: MetaV2_0,
            |
                #[trigger] spec_table_rep(backing, es, chunks, sparse, bitmap, m) ==> exists|i: int|
                    0 <= i < sparse.len() && (#[trigger] sparse[i]).1 == o && spec_lru_contents(
                        new_c,
                    )[o] == spec_records_bytes(chunks[i]),
{
    assert forall|o: u64| #[trigger] spec_lru_contents(new_c).contains_key(o) implies forall|
        es: Seq<(Seq<u8>, Seq<u8>)>,
        chunks: Seq<Seq<(Seq<u8>, Seq<u8>)>>,
        sparse: Seq<(Seq<u8>, u64)>,
        bitmap: Seq<u8>,
        m: MetaV2_0,
    |
        #[trigger] spec_table_rep(backing, es, chunks, sparse, bitmap, m) ==> exists|i: int|
            0 <= i < sparse.len() && (#[trigger] sparse[i]).1 == o && spec_lru_contents(new_c)[o]
                == spec_records_bytes(chunks[i]) by {
        assert forall|
            es: Seq<(Seq<u8>, Seq<u8>)>,
            chunks: Seq<Seq<(Seq<u8>, Seq<u8>)>>,
            sparse: Seq<(Seq<u8>, u64)>,
            bitmap: Seq<u8>,
            m: MetaV2_0,
        |
            #[trigger] spec_table_rep(backing, es, chunks, sparse, bitmap, m) implies exists|i: int|
            0 <= i < sparse.len() && (#[trigger] sparse[i]).1 == o && spec_lru_contents(new_c)[o]
                == spec_records_bytes(chunks[i]) by {
            if o == start {
                let idx = choose|idx: int|
                    {
                        &&& 0 <= idx < sparse.len()
                        &&& crate::lexorder::lex_le((#[trigger] sparse[idx]).0, key)
                        &&& (forall|j: int|
                            idx < j < sparse.len() ==> lex_lt(key, (#[trigger] sparse[j]).0))
                        &&& sparse[idx].1 == start
                        &&& v == spec_records_bytes(chunks[idx])
                    };
                assert(0 <= idx < sparse.len() && sparse[idx].1 == o && spec_lru_contents(
                    new_c,
                )[o] == spec_records_bytes(chunks[idx]));
            } else {
                assert(spec_lru_contents(old_c).contains_key(o));
            }
        }
    }
}

/// Scan a chunk for the key and copy the value's bytes out; exact with
/// respect to the scan's outcome.
fn scan_chunk_value(chunk: &[u8], key: &[u8]) -> (r: Result<Option<Vec<u8>>, Error>)
    ensures
        match crate::ondisk_format::spec_chunk_scan(chunk@, key@, 0) {
            crate::ondisk_format::ScanResult::Found(s, e2) => r matches Ok(o) && (o matches Some(v)
                && v@ == chunk@.subrange(s, e2)),
            crate::ondisk_format::ScanResult::Absent => r == Ok::<Option<Vec<u8>>, Error>(None),
            crate::ondisk_format::ScanResult::Corrupt => r is Err,
        },
{
    let n = chunk.len();
    match crate::ondisk_format::find_value_offset_v2(chunk, key) {
        Ok(Some(p)) => {
            proof {
                match crate::ondisk_format::spec_chunk_scan(chunk@, key@, 0) {
                    crate::ondisk_format::ScanResult::Found(s, e2) => {
                        assert(0 <= s <= e2 <= n);
                        assert(p == ((s as usize, e2 as usize)));
                        assert(p.0 <= p.1 <= n);
                    },
                    crate::ondisk_format::ScanResult::Absent => {
                        assert(false);
                    },
                    crate::ondisk_format::ScanResult::Corrupt => {
                        assert(false);
                    },
                }
            }
            let val = vstd::slice::slice_to_vec(vstd::slice::slice_subrange(chunk, p.0, p.1));
            Ok(Some(val))
        },
        Ok(None) => Ok(None),
        Err(e) => Err(e),
    }
}

impl InnerReader {
    /// A negative bloom answer proves the key absent from every complete
    /// reading of the file.
    #[verifier::rlimit(100)]
    #[verifier::spinoff_prover]
    proof fn lemma_bloom_absent(&self, key: Seq<u8>)
        requires
            self.wf(),
            !spec_bloom_set(self.bloom).contains(key),
        ensures
            forall|es: Seq<(Seq<u8>, Seq<u8>)>, c: Compression|
                #[trigger] spec_table_complete(self.backing(), es, c) ==> spec_entries_get(es, key)
                    == None::<Seq<u8>>,
    {
        let backing = self.backing();
        assert forall|es: Seq<(Seq<u8>, Seq<u8>)>, c: Compression|
            #[trigger] spec_table_complete(backing, es, c) implies spec_entries_get(es, key)
            == None::<Seq<u8>> by {
            let (chunks, sparse, bitmap, m) = choose|
                chunks: Seq<Seq<(Seq<u8>, Seq<u8>)>>,
                sparse: Seq<(Seq<u8>, u64)>,
                bitmap: Seq<u8>,
                m: MetaV2_0,
            | spec_table_rep(backing, es, chunks, sparse, bitmap, m) && m.compression == c;
            assert forall|i: int| 0 <= i < es.len() implies (#[trigger] es[i]).0 != key by {
                if es[i].0 == key {
                    assert(spec_bitmap_model(
                        bitmap,
                        m.bloom.bitmap_bits,
                        m.bloom.k_num,
                        m.bloom.sip_key_0.0,
                        m.bloom.sip_key_0.1,
                        m.bloom.sip_key_1.0,
                        m.bloom.sip_key_1.1,
                    ).contains(es[i].0));
                }
            }
            lemma_entries_get_none(es, key);
        }
    }

    /// An empty answer from the sparse index proves the key absent from
    /// every complete reading of the file.
    #[verifier::rlimit(100)]
    #[verifier::spinoff_prover]
    proof fn lemma_none_bounds(&self, key: Seq<u8>)
        requires
            self.wf(),
            spec_find_bounds(self.index.to_seq(), key, self.index_start) == None::<(u64, u64)>,
        ensures
            forall|es: Seq<(Seq<u8>, Seq<u8>)>, c: Compression|
                #[trigger] spec_table_complete(self.backing(), es, c) ==> spec_entries_get(es, key)
                    == None::<Seq<u8>>,
    {
        let backing = self.backing();
        assert forall|es: Seq<(Seq<u8>, Seq<u8>)>, c: Compression|
            #[trigger] spec_table_complete(backing, es, c) implies spec_entries_get(es, key)
            == None::<Seq<u8>> by {
            let (chunks, sparse, bitmap, m) = choose|
                chunks: Seq<Seq<(Seq<u8>, Seq<u8>)>>,
                sparse: Seq<(Seq<u8>, u64)>,
                bitmap: Seq<u8>,
                m: MetaV2_0,
            | spec_table_rep(backing, es, chunks, sparse, bitmap, m) && m.compression == c;
            lemma_find_bounds_inv(sparse, key, self.index_start);
            lemma_no_chunk(backing, es, chunks, sparse, bitmap, m, key);
        }
    }

    /// If decompressing the selected frame fails, the file is not a
    /// complete table.
    #[verifier::rlimit(100)]
    #[verifier::spinoff_prover]
    proof fn lemma_frame_must_decode(&self, key: Seq<u8>, start: u64, end: u64)
        requires
            self.wf(),
            spec_find_bounds(self.index.to_seq(), key, self.index_start) == Some((start, end)),
            forall|d: Seq<u8>|
                self.backing().subrange(start as int, end as int) != spec_frame_of(
                    self.meta.compression,
                    d,
                ),
        ensures
            forall|es: Seq<(Seq<u8>, Seq<u8>)>, c: Compression|
                !spec_table_complete(self.backing(), es, c),
    {
        let backing = self.backing();
        assert forall|es: Seq<(Seq<u8>, Seq<u8>)>, c: Compression|
            !spec_table_complete(backing, es, c) by {
            if spec_table_complete(backing, es, c) {
                let (chunks, sparse, bitmap, m) = choose|
                    chunks: Seq<Seq<(Seq<u8>, Seq<u8>)>>,
                    sparse: Seq<(Seq<u8>, u64)>,
                    bitmap: Seq<u8>,
                    m: MetaV2_0,
                | spec_table_rep(backing, es, chunks, sparse, bitmap, m) && m.compression == c;
                lemma_bounds_good(
                    backing,
                    es,
                    chunks,
                    sparse,
                    bitmap,
                    m,
                    key,
                    self.index_start,
                    start,
                    end,
                );
            }
        }
    }

    /// Look a key up, with an explicit choice about the bloom filter.
    /// The answer is exact for every complete table: the value stored
    /// under the key, or absence.
    #[verifier::rlimit(100)]
    pub fn get_with_options(&mut self, key: &[u8], options: Option<GetOptions>) -> (r: Result<
        Option<Vec<u8>>,
        Error,
    >)
        requires
            old(self).wf(),
        ensures
            final(self).wf(),
            final(self).backing() == old(self).backing(),
            forall|es: Seq<(Seq<u8>, Seq<u8>)>, c: Compression|
                #[trigger] spec_table_complete(old(self).backing(), es, c) ==> (r matches Ok(o)
                    && match spec_entries_get(es, key@) {
                    Some(v) => o matches Some(ov) && ov@ == v,
                    None => o is None,
                }),
    {
        let ghost backing = self.backing();
        let use_bloom = match options {
            Some(o) => o.use_bloom,
            None => self.use_bloom_default,
        };
        if use_bloom && !bloom_check(&self.bloom, key) {
            proof {
                self.lemma_bloom_absent(key@);
            }
            return Ok(None);
        }
        let end_default = self.index_start;
        let bounds = self.index.find_bounds(key, end_default);
        let (start, end) = match bounds {
            Some(b) => b,
            None => {
                proof {
                    self.lemma_none_bounds(key@);
                }
                return Ok(None);
            },
        };
        if end < start || end > self.index_start || start < 93 {
            proof {
                self.lemma_bad_bounds(key@, start, end);
            }
            return Err(Error::invalid_data());
        }
        let frame = match self.page_cache.get_chunk(start, end - start) {
            Ok(v) => v,
            Err(e) => {
                proof {
                    assert(false);
                }
                return Err(e);
            },
        };
        proof {
            assert(self.wf());
        }
        let chunk: Vec<u8>;
        match self.meta.compression {
            Compression::Plain => {
                chunk = frame;
                proof {
                    assert forall|d: Seq<u8>|
                        backing.subrange(start as int, end as int) == spec_frame_of(
                            self.meta.compression,
                            d,
                        ) implies chunk@ == d by {}
                    self.lemma_selected_from_frame(key@, start, end, chunk@);
                }
            },
            _ => {
                match lru_get(&mut self.cache, start) {
                    Some(v) => {
                        chunk = v;
                        proof {
                            assert(self.wf());
                            self.lemma_selected_from_cache(key@, start, end, chunk@);
                        }
                    },
                    None => {
                        let v = match uncompress_frame(self.meta.compression, frame.as_slice()) {
                            Ok(v) => v,
                            Err(e) => {
                                proof {
                                    self.lemma_frame_must_decode(key@, start, end);
                                }
                                return Err(e);
                            },
                        };
                        proof {
                            assert(self.wf());
                            assert forall|d: Seq<u8>|
                                backing.subrange(start as int, end as int) == spec_frame_of(
                                    self.meta.compression,
                                    d,
                                ) implies v@ == d by {}
                            self.lemma_selected_from_frame(key@, start, end, v@);
                        }
                        let ghost vv = v@;
                        let ghost cache_before = self.cache;
                        lru_put(&mut self.cache, start, v);
                        proof {
                            lemma_coherence_after_put(
                                backing,
                                cache_before,
                                self.cache,
                                start,
                                vv,
                                key@,
                            );
                            assert(self.wf());
                        }
                        let v2 = match lru_get(&mut self.cache, start) {
                            Some(v2) => v2,
                            None => {
                                proof {
                                    assert(false);
                                }
                                return Err(Error::invalid_data());
                            },
                        };
                        chunk = v2;
                        proof {
                            assert(chunk@ == vv);
                        }
                    },
                }
            },
        }
        proof {
            assert(spec_selected_chunk(backing, key@, start, chunk@));
            lemma_get_answer(backing, key@, start, chunk@);
            assert(self.wf());
        }
        scan_chunk_value(chunk.as_slice(), key)
    }

    /// Look a key up through a shared reference: the wait-free path for
    /// uncompressed tables, where a chunk is a bounds-checked slice of
    /// the backing and the chunk cache is never touched. The answer is
    /// exact for every complete table, like `get`'s.
    #[verifier::rlimit(100)]
    pub fn get_shared(&self, key: &[u8], options: Option<GetOptions>) -> (r: Result<
        Option<Vec<u8>>,
        Error,
    >)
        requires
            self.wf(),
            self.algo() == Compression::Plain,
        ensures
            forall|es: Seq<(Seq<u8>, Seq<u8>)>, c: Compression|
                #[trigger] spec_table_complete(self.backing(), es, c) ==> (r matches Ok(o)
                    && match spec_entries_get(es, key@) {
                    Some(v) => o matches Some(ov) && ov@ == v,
                    None => o is None,
                }),
    {
        let ghost backing = self.backing();
        let use_bloom = match options {
            Some(o) => o.use_bloom,
            None => self.use_bloom_default,
        };
        if use_bloom && !bloom_check(&self.bloom, key) {
            proof {
                self.lemma_bloom_absent(key@);
            }
            return Ok(None);
        }
        let end_default = self.index_start;
        let bounds = self.index.find_bounds(key, end_default);
        let (start, end) = match bounds {
            Some(b) => b,
            None => {
                proof {
                    self.lemma_none_bounds(key@);
                }
                return Ok(None);
            },
        };
        if end < start || end > self.index_start || start < 93 {
            proof {
                self.lemma_bad_bounds(key@, start, end);
            }
            return Err(Error::invalid_data());
        }
        let buf = self.page_cache.get_buf();
        let n = buf.len();
        proof {
            assert(end <= n as u64);
        }
        let chunk = vstd::slice::slice_subrange(buf.as_slice(), start as usize, end as usize);
        proof {
            assert forall|d: Seq<u8>|
                backing.subrange(start as int, end as int) == spec_frame_of(
                    self.meta.compression,
                    d,
                ) implies chunk@ == d by {}
            self.lemma_selected_from_frame(key@, start, end, chunk@);
            lemma_get_answer(backing, key@, start, chunk@);
        }
        scan_chunk_value(chunk, key)
    }

    /// Look a key up with the reader's default options.
    pub fn get(&mut self, key: &[u8]) -> (r: Result<Option<Vec<u8>>, Error>)
        requires
            old(self).wf(),
        ensures
            final(self).wf(),
            final(self).backing() == old(self).backing(),
            forall|es: Seq<(Seq<u8>, Seq<u8>)>, c: Compression|
                #[trigger] spec_table_complete(old(self).backing(), es, c) ==> (r matches Ok(o)
                    && match spec_entries_get(es, key@) {
                    Some(v) => o matches Some(ov) && ov@ == v,
                    None => o is None,
                }),
    {
        self.get_with_options(key, None)
    }
}


/// Open a reader for a table that must be uncompressed, as the lock-free
/// memory-mapped variant requires: a compressed table is rejected with a
/// dedicated error, and an uncompressed one opens as usual.
pub fn open_uncompressed(buf: Vec<u8>, opts: &ReadOptions) -> (r: Result<InnerReader, Error>)
    requires
        opts.spec_valid(),
    ensures
        r matches Ok(rd) ==> rd.wf() && rd.backing() == buf@ && rd.algo() == Compression::Plain,
        (exists|es: Seq<(Seq<u8>, Seq<u8>)>|
            spec_table_complete(buf@, es, Compression::Plain)) ==> r is Ok,
        forall|es: Seq<(Seq<u8>, Seq<u8>)>, c: Compression|
            (#[trigger] spec_table_complete(buf@, es, c) && c != Compression::Plain) ==> (
            r matches Err(e) && e is CantUseCompressedFileWithMultiThreadedMmap),
{
    let meta = match parse_preamble(buf.as_slice()) {
        Ok(m) => m,
        Err(e) => {
            proof {
                assert forall|es: Seq<(Seq<u8>, Seq<u8>)>, c: Compression|
                    !spec_table_complete(buf@, es, c) by {
                    if spec_table_complete(buf@, es, c) {
                        let (chunks, sparse, bitmap, m) = choose|
                            chunks: Seq<Seq<(Seq<u8>, Seq<u8>)>>,
                            sparse: Seq<(Seq<u8>, u64)>,
                            bitmap: Seq<u8>,
                            m: MetaV2_0,
                        | spec_table_rep(buf@, es, chunks, sparse, bitmap, m) && m.compression == c;
                        lemma_preamble_bytes_len(m);
                        assert(buf@.subrange(0, DATA_REGION_START as int) =~= spec_preamble_bytes(
                            m,
                        ));
                    }
                }
            }
            return Err(e);
        },
    };
    proof {
        assert forall|es: Seq<(Seq<u8>, Seq<u8>)>, c: Compression|
            #[trigger] spec_table_complete(buf@, es, c) implies c == meta.compression by {
            let (chunks, sparse, bitmap, m) = choose|
                chunks: Seq<Seq<(Seq<u8>, Seq<u8>)>>,
                sparse: Seq<(Seq<u8>, u64)>,
                bitmap: Seq<u8>,
                m: MetaV2_0,
            | spec_table_rep(buf@, es, chunks, sparse, bitmap, m) && m.compression == c;
            lemma_preamble_bytes_len(m);
            assert(buf@.subrange(0, DATA_REGION_START as int) =~= spec_preamble_bytes(m));
            lemma_preamble_inj(meta, m);
        }
    }
    match meta.compression {
        Compression::Plain => {
            let ghost gbuf = buf@;
            let r = InnerReader::new(buf, opts);
            proof {
                match &r {
                    Ok(rd) => {
                        let m2 = choose|m2: MetaV2_0|
                            gbuf.len() >= DATA_REGION_START && gbuf.subrange(
                                0,
                                DATA_REGION_START as int,
                            ) == spec_preamble_bytes(m2) && rd.algo() == m2.compression;
                        lemma_preamble_inj(meta, m2);
                    },
                    Err(_) => {},
                }
            }
            r
        },
        _ => Err(Error::CantUseCompressedFileWithMultiThreadedMmap),
    }
}

impl InnerReader {
    /// The set of keys the reader's bloom filter answers "possibly
    /// present" for.
    pub closed spec fn bloom_keys(&self) -> Set<Seq<u8>> {
        spec_bloom_set(self.bloom)
    }

    /// The bloom filter has no false negatives: a reader over a complete
    /// table answers "possibly present" for every written key, so the
    /// fast-negative path never hides a written entry.
    pub proof fn lemma_bloom_no_false_negatives(
        &self,
        es: Seq<(Seq<u8>, Seq<u8>)>,
        c: Compression,
    )
        requires
            self.wf(),
            spec_table_complete(self.backing(), es, c),
        ensures
            forall|i: int| 0 <= i < es.len() ==> self.bloom_keys().contains((#[trigger] es[i]).0),
    {
        let (chunks, sparse, bitmap, m) = choose|
            chunks: Seq<Seq<(Seq<u8>, Seq<u8>)>>,
            sparse: Seq<(Seq<u8>, u64)>,
            bitmap: Seq<u8>,
            m: MetaV2_0,
        | spec_table_rep(self.backing(), es, chunks, sparse, bitmap, m) && m.compression == c;
        assert(spec_bloom_set(self.bloom) == spec_bitmap_model(
            bitmap,
            m.bloom.bitmap_bits,
            m.bloom.k_num,
            m.bloom.sip_key_0.0,
            m.bloom.sip_key_0.1,
            m.bloom.sip_key_1.0,
            m.bloom.sip_key_1.1,
        ));
    }
}

/// The round trip of the library: a finished table holds exactly the
/// entries it was written from, so a lookup answers the written value
/// for every written key, and absence for every other key. Together with
/// the writer's guarantee (its output is a complete table of its entries)
/// and the readers' guarantee (their answer matches `spec_entries_get`
/// on every complete table), this pins every `get` result down.
pub proof fn lemma_table_round_trip(
    file: Seq<u8>,
    es: Seq<(Seq<u8>, Seq<u8>)>,
    c: Compression,
    key: Seq<u8>,
)
    requires
        spec_table_complete(file, es, c),
    ensures
        forall|i: int|
            0 <= i < es.len() && (#[trigger] es[i]).0 == key ==> spec_entries_get(es, key) == Some(
                es[i].1,
            ),
        (forall|i: int| 0 <= i < es.len() ==> (#[trigger] es[i]).0 != key) ==> spec_entries_get(
            es,
            key,
        ) == None::<Seq<u8>>,
{
    let (chunks, sparse, bitmap, m) = choose|
        chunks: Seq<Seq<(Seq<u8>, Seq<u8>)>>,
        sparse: Seq<(Seq<u8>, u64)>,
        bitmap: Seq<u8>,
        m: MetaV2_0,
    | spec_table_rep(file, es, chunks, sparse, bitmap, m) && m.compression == c;
    assert(crate::ondisk_format::entries_sorted(es));
    assert forall|i: int|
        0 <= i < es.len() && (#[trigger] es[i]).0 == key implies spec_entries_get(es, key) == Some(
        es[i].1,
    ) by {
        lemma_entries_get_some(es, key, i);
    }
    if forall|i: int| 0 <= i < es.len() ==> (#[trigger] es[i]).0 != key {
        lemma_entries_get_none(es, key);
    }
}

/// Reader equivalence: any two readers of the same complete table give
/// the same answer to the same query, because each answer matches the
/// table's lookup.
pub proof fn lemma_reader_equivalence(
    file: Seq<u8>,
    es: Seq<(Seq<u8>, Seq<u8>)>,
    c: Compression,
    key: Seq<u8>,
    o1: Option<Seq<u8>>,
    o2: Option<Seq<u8>>,
)
    requires
        spec_table_complete(file, es, c),
        match spec_entries_get(es, key) {
            Some(v) => o1 == Some(v),
            None => o1 is None,
        },
        match spec_entries_get(es, key) {
            Some(v) => o2 == Some(v),
            None => o2 is None,
        },
    ensures
        o1 == o2,
{
}

} // verus!

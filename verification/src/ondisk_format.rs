//! The on-disk format: fixed little-endian layouts for the magic, the
//! version tag, the table metadata, per-record length headers and
//! per-index-entry offset records, together with the chunk-scan routine.
//!
//! File layout, byte for byte:
//!
//! | MAGIC (4) | version {major: u16, minor: u16} | meta struct | data | index | bloom |
//!
//! A data chunk is a sequence of records `KVLength | key | value`; the
//! index region is a sequence of entries `KVOffset | key`.

use vstd::prelude::*;
use vstd::bytes::spec_u16_to_le_bytes;
use vstd::bytes::spec_u16_from_le_bytes;
use vstd::bytes::spec_u32_to_le_bytes;
use vstd::bytes::spec_u32_from_le_bytes;
use vstd::bytes::spec_u64_to_le_bytes;
use vstd::bytes::spec_u64_from_le_bytes;
use vstd::bytes::lemma_auto_spec_u16_to_from_le_bytes;
use vstd::bytes::lemma_auto_spec_u32_to_from_le_bytes;
use vstd::bytes::lemma_auto_spec_u64_to_from_le_bytes;
use vstd::bytes::u16_from_le_bytes;
use vstd::bytes::u32_from_le_bytes;
use vstd::bytes::u64_from_le_bytes;
use vstd::bytes::u16_to_le_bytes;
use vstd::bytes::u32_to_le_bytes;
use vstd::bytes::u64_to_le_bytes;
use vstd::slice::slice_subrange;
use crate::bloom::spec_bitmap_model;
use crate::compression::spec_frame_of;
use crate::compression::spec_frames_concat;
use crate::error::Error;
use crate::lexorder::Cmp;
use crate::lexorder::lex_cmp;
use crate::lexorder::cmp_bytes;
use crate::types::Compression;
use crate::types::Version;

verus! {

/// The longest key the record header can describe.
pub const KEY_LENGTH_MAX: usize = 65535;

/// The longest value the record header can describe, as a `u64` so the
/// bound is meaningful on every platform.
pub const VALUE_LENGTH_MAX: u64 = 0xFFFF_FFFF;

/// The four bytes every table file starts with.
pub open spec fn spec_magic() -> Seq<u8> {
    seq![0x80u8, 0x4cu8, 0x53u8, 0x4du8]
}

/// Append the magic to a sink.
pub fn write_magic(out: &mut Vec<u8>)
    ensures
        final(out)@ == old(out)@ + spec_magic(),
{
    out.push(0x80u8);
    out.push(0x4cu8);
    out.push(0x53u8);
    out.push(0x4du8);
    proof {
        assert(out@ =~= old(out)@ + spec_magic());
    }
}

/// The encoding of a version tag: two little-endian `u16`s.
pub open spec fn spec_version_bytes(v: Version) -> Seq<u8> {
    spec_u16_to_le_bytes(v.major) + spec_u16_to_le_bytes(v.minor)
}

/// Read a little-endian `u16` at `pos`.
pub fn read_u16_at(buf: &[u8], pos: usize) -> (r: u16)
    requires
        pos + 2 <= buf@.len(),
    ensures
        r == spec_u16_from_le_bytes(buf@.subrange(pos as int, pos + 2)),
{
    let n: usize = buf.len();
    u16_from_le_bytes(slice_subrange(buf, pos, pos + 2))
}

/// Read a little-endian `u32` at `pos`.
pub fn read_u32_at(buf: &[u8], pos: usize) -> (r: u32)
    requires
        pos + 4 <= buf@.len(),
    ensures
        r == spec_u32_from_le_bytes(buf@.subrange(pos as int, pos + 4)),
{
    let n: usize = buf.len();
    u32_from_le_bytes(slice_subrange(buf, pos, pos + 4))
}

/// Read a little-endian `u64` at `pos`.
pub fn read_u64_at(buf: &[u8], pos: usize) -> (r: u64)
    requires
        pos + 8 <= buf@.len(),
    ensures
        r == spec_u64_from_le_bytes(buf@.subrange(pos as int, pos + 8)),
{
    let n: usize = buf.len();
    u64_from_le_bytes(slice_subrange(buf, pos, pos + 8))
}

/// Append a little-endian `u16`.
pub fn write_u16(out: &mut Vec<u8>, x: u16)
    ensures
        final(out)@ == old(out)@ + spec_u16_to_le_bytes(x),
{
    let b = u16_to_le_bytes(x);
    out.extend_from_slice(b.as_slice());
}

/// Append a little-endian `u32`.
pub fn write_u32(out: &mut Vec<u8>, x: u32)
    ensures
        final(out)@ == old(out)@ + spec_u32_to_le_bytes(x),
{
    let b = u32_to_le_bytes(x);
    out.extend_from_slice(b.as_slice());
}

/// Append a little-endian `u64`.
pub fn write_u64(out: &mut Vec<u8>, x: u64)
    ensures
        final(out)@ == old(out)@ + spec_u64_to_le_bytes(x),
{
    let b = u64_to_le_bytes(x);
    out.extend_from_slice(b.as_slice());
}

/// The length header preceding every record: key length then value length,
/// both little-endian.
#[derive(Debug, Clone, Copy, PartialEq, Eq, Structural)]
pub struct KVLength {
    pub key_length: u16,
    pub value_length: u32,
}

/// The serialized form of a length header.
pub open spec fn spec_kvlength_bytes(h: KVLength) -> Seq<u8> {
    spec_u16_to_le_bytes(h.key_length) + spec_u32_to_le_bytes(h.value_length)
}

impl KVLength {
    /// Build a header from the key and value lengths, rejecting lengths the
    /// on-disk format cannot hold.
    pub fn new(k: usize, v: usize) -> (r: Result<Self, Error>)
        ensures
            match r {
                Ok(h) => k <= KEY_LENGTH_MAX && v as u64 <= VALUE_LENGTH_MAX && h.key_length == k
                    && h.value_length == v,
                Err(e) => (k > KEY_LENGTH_MAX && (e matches Error::KeyTooLong(n) && n == k)) || (k
                    <= KEY_LENGTH_MAX && v as u64 > VALUE_LENGTH_MAX && (
                e matches Error::ValueTooLong(n) && n == v)),
            },
    {
        if k > KEY_LENGTH_MAX {
            return Err(Error::KeyTooLong(k));
        }
        if v as u64 > VALUE_LENGTH_MAX {
            return Err(Error::ValueTooLong(v));
        }
        Ok(Self { key_length: k as u16, value_length: v as u32 })
    }

    /// The number of bytes a header occupies on disk.
    pub fn encoded_size() -> (r: usize)
        ensures
            r == 6,
            forall|h: KVLength| (#[trigger] spec_kvlength_bytes(h)).len() == 6,
    {
        proof {
            lemma_auto_spec_u16_to_from_le_bytes();
            lemma_auto_spec_u32_to_from_le_bytes();
        }
        6
    }

    /// Append the header to a sink.
    pub fn serialize_into(&self, out: &mut Vec<u8>)
        ensures
            final(out)@ == old(out)@ + spec_kvlength_bytes(*self),
    {
        write_u16(out, self.key_length);
        write_u32(out, self.value_length);
        proof {
            assert(out@ =~= old(out)@ + spec_kvlength_bytes(*self));
        }
    }
}

/// The header of a sparse-index entry: key length then the absolute byte
/// offset of the chunk the key starts.
#[derive(Debug, Clone, Copy, PartialEq, Eq, Structural)]
pub struct KVOffset {
    pub key_length: u16,
    pub offset: u64,
}

/// The serialized form of an index-entry header.
pub open spec fn spec_kvoffset_bytes(h: KVOffset) -> Seq<u8> {
    spec_u16_to_le_bytes(h.key_length) + spec_u64_to_le_bytes(h.offset)
}

impl KVOffset {
    /// Build an index-entry header, rejecting keys the format cannot hold.
    pub fn new(k: usize, offset: u64) -> (r: Result<Self, Error>)
        ensures
            match r {
                Ok(h) => k <= KEY_LENGTH_MAX && h.key_length == k && h.offset == offset,
                Err(e) => k > KEY_LENGTH_MAX && (e matches Error::KeyTooLong(n) && n == k),
            },
    {
        if k > KEY_LENGTH_MAX {
            return Err(Error::KeyTooLong(k));
        }
        Ok(Self { key_length: k as u16, offset })
    }

    /// The number of bytes an index-entry header occupies on disk.
    pub fn encoded_size() -> (r: usize)
        ensures
            r == 10,
            forall|h: KVOffset| (#[trigger] spec_kvoffset_bytes(h)).len() == 10,
    {
        proof {
            lemma_auto_spec_u16_to_from_le_bytes();
            lemma_auto_spec_u64_to_from_le_bytes();
        }
        10
    }

    /// Parse an index-entry header at `pos`, treating "no bytes left" as a
    /// regular end of the region rather than an error.
    pub fn deserialize_from_eof_is_ok(buf: &[u8], pos: usize) -> (r: Result<
        Option<(Self, usize)>,
        Error,
    >)
        requires
            pos <= buf@.len(),
        ensures
            match r {
                Ok(Some((h, next))) => pos + 10 <= buf@.len() && next == pos + 10 && buf@.subrange(
                    pos as int,
                    pos + 10,
                ) == spec_kvoffset_bytes(h),
                Ok(None) => pos == buf@.len(),
                Err(e) => (e is InvalidData) && pos < buf@.len() && pos + 10 > buf@.len(),
            },
    {
        proof {
            lemma_auto_spec_u16_to_from_le_bytes();
            lemma_auto_spec_u64_to_from_le_bytes();
        }
        if pos == buf.len() {
            return Ok(None);
        }
        if buf.len() - pos < 10 {
            return Err(Error::invalid_data());
        }
        let key_length = read_u16_at(buf, pos);
        let offset = read_u64_at(buf, pos + 2);
        let h = KVOffset { key_length, offset };
        proof {
            assert(buf@.subrange(pos as int, pos + 10) =~= buf@.subrange(pos as int, pos + 2)
                + buf@.subrange(pos + 2, pos + 10));
        }
        Ok(Some((h, pos + 10)))
    }

    /// Append the header to a sink.
    pub fn serialize_into(&self, out: &mut Vec<u8>)
        ensures
            final(out)@ == old(out)@ + spec_kvoffset_bytes(*self),
    {
        write_u16(out, self.key_length);
        write_u64(out, self.offset);
        proof {
            assert(out@ =~= old(out)@ + spec_kvoffset_bytes(*self));
        }
    }
}


/// Bloom-filter parameters stored in the metadata block.
#[derive(Debug, Clone, Copy)]
pub struct BloomV2_0 {
    pub bitmap_bits: u64,
    pub k_num: u32,
    pub sip_key_0: (u64, u64),
    pub sip_key_1: (u64, u64),
}

/// The table metadata, written once as a placeholder when the file is
/// created and backpatched by `finish` as the last step; `finished` set
/// distinguishes a completed table from a partial one.
#[derive(Debug, Clone, Copy)]
pub struct MetaV2_0 {
    pub data_len: u64,
    pub index_len: u64,
    pub bloom_len: u64,
    pub items: u64,
    pub compression: Compression,
    pub finished: bool,
    pub checksum: u32,
    pub bloom: BloomV2_0,
}

/// The number of bytes the metadata block occupies on disk. The size is
/// fixed within a version so the backpatch is a byte-identical overwrite.
pub const META_SIZE: usize = 85;

/// The serialized form of the metadata block.
pub open spec fn spec_meta_bytes(m: MetaV2_0) -> Seq<u8> {
    spec_u64_to_le_bytes(m.data_len) + spec_u64_to_le_bytes(m.index_len) + spec_u64_to_le_bytes(
        m.bloom_len,
    ) + spec_u64_to_le_bytes(m.items) + spec_u32_to_le_bytes(m.compression.spec_tag()) + seq![
        if m.finished {
            1u8
        } else {
            0u8
        },
    ] + spec_u32_to_le_bytes(m.checksum) + spec_u64_to_le_bytes(m.bloom.bitmap_bits)
        + spec_u32_to_le_bytes(m.bloom.k_num) + spec_u64_to_le_bytes(m.bloom.sip_key_0.0)
        + spec_u64_to_le_bytes(m.bloom.sip_key_0.1) + spec_u64_to_le_bytes(m.bloom.sip_key_1.0)
        + spec_u64_to_le_bytes(m.bloom.sip_key_1.1)
}

/// Every metadata block serializes to exactly `META_SIZE` bytes.
pub proof fn lemma_meta_bytes_len(m: MetaV2_0)
    ensures
        spec_meta_bytes(m).len() == META_SIZE,
{
    lemma_auto_spec_u32_to_from_le_bytes();
    lemma_auto_spec_u64_to_from_le_bytes();
}

/// Append the metadata block to a sink.
#[verifier::rlimit(100)]
pub fn serialize_meta(m: &MetaV2_0, out: &mut Vec<u8>)
    ensures
        final(out)@ == old(out)@ + spec_meta_bytes(*m),
        final(out)@.len() == old(out)@.len() + META_SIZE,
{
    write_u64(out, m.data_len);
    write_u64(out, m.index_len);
    write_u64(out, m.bloom_len);
    write_u64(out, m.items);
    write_u32(out, m.compression.tag());
    if m.finished {
        out.push(1u8);
    } else {
        out.push(0u8);
    }
    write_u32(out, m.checksum);
    write_u64(out, m.bloom.bitmap_bits);
    write_u32(out, m.bloom.k_num);
    write_u64(out, m.bloom.sip_key_0.0);
    write_u64(out, m.bloom.sip_key_0.1);
    write_u64(out, m.bloom.sip_key_1.0);
    write_u64(out, m.bloom.sip_key_1.1);
    proof {
        lemma_meta_bytes_len(*m);
        assert(out@ =~= old(out)@ + spec_meta_bytes(*m));
    }
}

/// Parse a metadata block at `pos`. Parsing is exact: it succeeds with `m`
/// exactly when the bytes are `spec_meta_bytes(m)`, and rejects any other
/// bytes (an unknown compression tag or a mangled `finished` flag).
#[verifier::rlimit(100)]
pub fn parse_meta(buf: &[u8], pos: usize) -> (r: Result<MetaV2_0, Error>)
    requires
        pos + META_SIZE <= buf@.len(),
    ensures
        match r {
            Ok(m) => buf@.subrange(pos as int, pos + META_SIZE as int) == spec_meta_bytes(m),
            Err(e) => (e is InvalidData) && forall|m: MetaV2_0|
                buf@.subrange(pos as int, pos + META_SIZE as int) != spec_meta_bytes(m),
        },
{
    proof {
        lemma_auto_spec_u32_to_from_le_bytes();
        lemma_auto_spec_u64_to_from_le_bytes();
    }
    let n: usize = buf.len();
    let data_len = read_u64_at(buf, pos);
    let index_len = read_u64_at(buf, pos + 8);
    let bloom_len = read_u64_at(buf, pos + 16);
    let items = read_u64_at(buf, pos + 24);
    let tag = read_u32_at(buf, pos + 32);
    let finished_byte = *vstd::slice::slice_index_get(buf, pos + 36);
    let checksum = read_u32_at(buf, pos + 37);
    let bitmap_bits = read_u64_at(buf, pos + 41);
    let k_num = read_u32_at(buf, pos + 49);
    let k00 = read_u64_at(buf, pos + 53);
    let k01 = read_u64_at(buf, pos + 61);
    let k10 = read_u64_at(buf, pos + 69);
    let k11 = read_u64_at(buf, pos + 77);

    let ghost whole = buf@.subrange(pos as int, pos + META_SIZE as int);
    proof {
        lemma_meta_decompose(buf@, pos as int);
    }

    let compression = match Compression::from_tag(tag) {
        Some(c) => c,
        None => {
            proof {
                assert forall|m: MetaV2_0| whole != spec_meta_bytes(m) by {
                    if whole == spec_meta_bytes(m) {
                        lemma_meta_fields(m);
                        assert(whole.subrange(32, 36) == spec_u32_to_le_bytes(
                            m.compression.spec_tag(),
                        ));
                    }
                }
            }
            return Err(Error::invalid_data());
        },
    };
    let finished = if finished_byte == 1 {
        true
    } else if finished_byte == 0 {
        false
    } else {
        proof {
            assert forall|m: MetaV2_0| whole != spec_meta_bytes(m) by {
                if whole == spec_meta_bytes(m) {
                    lemma_meta_fields(m);
                }
            }
        }
        return Err(Error::invalid_data());
    };
    let m = MetaV2_0 {
        data_len,
        index_len,
        bloom_len,
        items,
        compression,
        finished,
        checksum,
        bloom: BloomV2_0 { bitmap_bits, k_num, sip_key_0: (k00, k01), sip_key_1: (k10, k11) },
    };
    proof {
        lemma_meta_fields(m);
        assert(whole =~= spec_meta_bytes(m));
    }
    Ok(m)
}

/// Split the serialized metadata into its field encodings, by offset.
pub proof fn lemma_meta_fields(m: MetaV2_0)
    ensures
        spec_meta_bytes(m).len() == META_SIZE,
        spec_meta_bytes(m).subrange(0, 8) == spec_u64_to_le_bytes(m.data_len),
        spec_meta_bytes(m).subrange(8, 16) == spec_u64_to_le_bytes(m.index_len),
        spec_meta_bytes(m).subrange(16, 24) == spec_u64_to_le_bytes(m.bloom_len),
        spec_meta_bytes(m).subrange(24, 32) == spec_u64_to_le_bytes(m.items),
        spec_meta_bytes(m).subrange(32, 36) == spec_u32_to_le_bytes(m.compression.spec_tag()),
        spec_meta_bytes(m)[36] == if m.finished {
            1u8
        } else {
            0u8
        },
        spec_meta_bytes(m).subrange(37, 41) == spec_u32_to_le_bytes(m.checksum),
        spec_meta_bytes(m).subrange(41, 49) == spec_u64_to_le_bytes(m.bloom.bitmap_bits),
        spec_meta_bytes(m).subrange(49, 53) == spec_u32_to_le_bytes(m.bloom.k_num),
        spec_meta_bytes(m).subrange(53, 61) == spec_u64_to_le_bytes(m.bloom.sip_key_0.0),
        spec_meta_bytes(m).subrange(61, 69) == spec_u64_to_le_bytes(m.bloom.sip_key_0.1),
        spec_meta_bytes(m).subrange(69, 77) == spec_u64_to_le_bytes(m.bloom.sip_key_1.0),
        spec_meta_bytes(m).subrange(77, 85) == spec_u64_to_le_bytes(m.bloom.sip_key_1.1),
{
    lemma_auto_spec_u32_to_from_le_bytes();
    lemma_auto_spec_u64_to_from_le_bytes();
    assert(spec_meta_bytes(m).subrange(0, 8) =~= spec_u64_to_le_bytes(m.data_len));
    assert(spec_meta_bytes(m).subrange(8, 16) =~= spec_u64_to_le_bytes(m.index_len));
    assert(spec_meta_bytes(m).subrange(16, 24) =~= spec_u64_to_le_bytes(m.bloom_len));
    assert(spec_meta_bytes(m).subrange(24, 32) =~= spec_u64_to_le_bytes(m.items));
    assert(spec_meta_bytes(m).subrange(32, 36) =~= spec_u32_to_le_bytes(m.compression.spec_tag()));
    assert(spec_meta_bytes(m).subrange(37, 41) =~= spec_u32_to_le_bytes(m.checksum));
    assert(spec_meta_bytes(m).subrange(41, 49) =~= spec_u64_to_le_bytes(m.bloom.bitmap_bits));
    assert(spec_meta_bytes(m).subrange(49, 53) =~= spec_u32_to_le_bytes(m.bloom.k_num));
    assert(spec_meta_bytes(m).subrange(53, 61) =~= spec_u64_to_le_bytes(m.bloom.sip_key_0.0));
    assert(spec_meta_bytes(m).subrange(61, 69) =~= spec_u64_to_le_bytes(m.bloom.sip_key_0.1));
    assert(spec_meta_bytes(m).subrange(69, 77) =~= spec_u64_to_le_bytes(m.bloom.sip_key_1.0));
    assert(spec_meta_bytes(m).subrange(77, 85) =~= spec_u64_to_le_bytes(m.bloom.sip_key_1.1));
}

/// Relate reads at absolute positions to subranges of the whole block.
proof fn lemma_meta_decompose(buf: Seq<u8>, pos: int)
    requires
        0 <= pos,
        pos + META_SIZE <= buf.len(),
    ensures
        forall|a: int, b: int|
            pos <= a <= b <= pos + META_SIZE ==> #[trigger] buf.subrange(a, b) == buf.subrange(
                pos,
                pos + META_SIZE as int,
            ).subrange(a - pos, b - pos),
{
    assert forall|a: int, b: int| pos <= a <= b <= pos + META_SIZE implies #[trigger] buf.subrange(
        a,
        b,
    ) == buf.subrange(pos, pos + META_SIZE as int).subrange(a - pos, b - pos) by {
        assert(buf.subrange(a, b) =~= buf.subrange(pos, pos + META_SIZE as int).subrange(
            a - pos,
            b - pos,
        ));
    }
}


/// Absolute offset at which the data region begins: magic, version tag
/// and metadata block.
pub const DATA_REGION_START: u64 = 93;

/// The full preamble of a table file.
pub open spec fn spec_preamble_bytes(m: MetaV2_0) -> Seq<u8> {
    spec_magic() + spec_version_bytes(Version { major: 2u16, minor: 0u16 }) + spec_meta_bytes(m)
}

/// The preamble is `DATA_REGION_START` bytes long.
pub proof fn lemma_preamble_bytes_len(m: MetaV2_0)
    ensures
        spec_preamble_bytes(m).len() == DATA_REGION_START,
{
    lemma_auto_spec_u16_to_from_le_bytes();
    lemma_meta_bytes_len(m);
}

/// Append the preamble to a sink.
pub fn write_preamble(m: &MetaV2_0, out: &mut Vec<u8>)
    ensures
        final(out)@ == old(out)@ + spec_preamble_bytes(*m),
        final(out)@.len() == old(out)@.len() + DATA_REGION_START,
{
    write_magic(out);
    let v = Version::current();
    write_u16(out, v.major);
    write_u16(out, v.minor);
    serialize_meta(m, out);
    proof {
        lemma_preamble_bytes_len(*m);
        assert(out@ =~= old(out)@ + spec_preamble_bytes(*m));
    }
}

/// The file begins with the four magic bytes and holds a full version
/// tag.
pub open spec fn spec_has_magic(buf: Seq<u8>) -> bool {
    buf.len() >= 8 && buf.subrange(0, 4) == spec_magic()
}

/// The version tag at the file's head.
pub open spec fn spec_version_of(buf: Seq<u8>) -> Version
    recommends
        buf.len() >= 8,
{
    Version {
        major: spec_u16_from_le_bytes(buf.subrange(4, 6)),
        minor: spec_u16_from_le_bytes(buf.subrange(6, 8)),
    }
}

/// Parse the preamble of a table file: magic, version and metadata.
/// Parsing is exact: it succeeds with `m` exactly when the file starts
/// with `spec_preamble_bytes(m)`; a good magic with any version other
/// than the supported one is rejected with the dedicated
/// unsupported-version error, every other malformation with invalid
/// data.
#[verifier::rlimit(100)]
pub fn parse_preamble(buf: &[u8]) -> (r: Result<MetaV2_0, Error>)
    ensures
        match r {
            Ok(m) => buf@.len() >= DATA_REGION_START && buf@.subrange(
                0,
                DATA_REGION_START as int,
            ) == spec_preamble_bytes(m),
            Err(e) => {
                &&& (e is InvalidData) || (e is UnsupportedVersion)
                &&& (forall|m: MetaV2_0|
                    !(buf@.len() >= DATA_REGION_START && buf@.subrange(
                        0,
                        DATA_REGION_START as int,
                    ) == spec_preamble_bytes(m)))
                &&& ((spec_has_magic(buf@) && !spec_version_of(buf@).spec_supported()) ==> (
                e matches Error::UnsupportedVersion(v) && v == spec_version_of(buf@)))
                &&& ((e is UnsupportedVersion) ==> spec_has_magic(buf@) && !spec_version_of(
                    buf@,
                ).spec_supported())
            },
        },
{
    proof {
        lemma_auto_spec_u16_to_from_le_bytes();
    }
    let n: usize = buf.len();
    if n < 8 {
        return Err(Error::InvalidData("not an sstable"));
    }
    proof {
        assert forall|m: MetaV2_0| true implies {
            &&& (#[trigger] spec_preamble_bytes(m)).len() == DATA_REGION_START
            &&& spec_preamble_bytes(m).subrange(0, 4) == spec_magic()
            &&& spec_preamble_bytes(m).subrange(4, 6) == spec_u16_to_le_bytes(2u16)
            &&& spec_preamble_bytes(m).subrange(6, 8) == spec_u16_to_le_bytes(0u16)
            &&& spec_preamble_bytes(m).subrange(8, 93) == spec_meta_bytes(m)
        } by {
            lemma_meta_bytes_len(m);
            assert(spec_preamble_bytes(m).subrange(0, 4) =~= spec_magic());
            assert(spec_preamble_bytes(m).subrange(4, 6) =~= spec_u16_to_le_bytes(2u16));
            assert(spec_preamble_bytes(m).subrange(6, 8) =~= spec_u16_to_le_bytes(0u16));
            assert(spec_preamble_bytes(m).subrange(8, 93) =~= spec_meta_bytes(m));
        }
    }
    let m0 = *vstd::slice::slice_index_get(buf, 0);
    let m1 = *vstd::slice::slice_index_get(buf, 1);
    let m2 = *vstd::slice::slice_index_get(buf, 2);
    let m3 = *vstd::slice::slice_index_get(buf, 3);
    if !(m0 == 0x80 && m1 == 0x4c && m2 == 0x53 && m3 == 0x4d) {
        proof {
            assert(buf@.subrange(0, 4) != spec_magic()) by {
                if buf@.subrange(0, 4) == spec_magic() {
                    assert(buf@.subrange(0, 4)[0] == buf@[0]);
                    assert(buf@.subrange(0, 4)[1] == buf@[1]);
                    assert(buf@.subrange(0, 4)[2] == buf@[2]);
                    assert(buf@.subrange(0, 4)[3] == buf@[3]);
                }
            }
            assert forall|m: MetaV2_0|
                !(buf@.len() >= DATA_REGION_START && buf@.subrange(0, DATA_REGION_START as int)
                    == spec_preamble_bytes(m)) by {
                if buf@.len() >= DATA_REGION_START && buf@.subrange(0, DATA_REGION_START as int)
                    == spec_preamble_bytes(m) {
                    assert(buf@.subrange(0, 4) =~= buf@.subrange(0, DATA_REGION_START as int)
                        .subrange(0, 4));
                }
            }
        }
        return Err(Error::InvalidData("not an sstable"));
    }
    proof {
        assert(buf@.subrange(0, 4) =~= spec_magic());
    }
    let major = read_u16_at(buf, 4);
    let minor = read_u16_at(buf, 6);
    let version = Version { major, minor };
    if !version.supported() {
        proof {
            assert(version == spec_version_of(buf@));
            assert forall|m: MetaV2_0|
                !(buf@.len() >= DATA_REGION_START && buf@.subrange(0, DATA_REGION_START as int)
                    == spec_preamble_bytes(m)) by {
                if buf@.len() >= DATA_REGION_START && buf@.subrange(0, DATA_REGION_START as int)
                    == spec_preamble_bytes(m) {
                    assert(buf@.subrange(4, 6) =~= buf@.subrange(0, DATA_REGION_START as int)
                        .subrange(4, 6));
                    assert(buf@.subrange(6, 8) =~= buf@.subrange(0, DATA_REGION_START as int)
                        .subrange(6, 8));
                    assert(buf@.subrange(4, 6) == spec_u16_to_le_bytes(2u16));
                    assert(buf@.subrange(6, 8) == spec_u16_to_le_bytes(0u16));
                }
            }
        }
        return Err(Error::UnsupportedVersion(version));
    }
    if n < 93 {
        proof {
            assert(spec_version_of(buf@).spec_supported());
        }
        return Err(Error::InvalidData("not an sstable"));
    }
    let ghost pre = buf@.subrange(0, DATA_REGION_START as int);
    proof {
        assert forall|a: int, b: int| 0 <= a <= b <= DATA_REGION_START implies #[trigger] buf@
            .subrange(a, b) == pre.subrange(a, b) by {
            assert(buf@.subrange(a, b) =~= pre.subrange(a, b));
        }
    }
    let m = match parse_meta(buf, 8) {
        Ok(m) => m,
        Err(e) => {
            proof {
                assert(spec_version_of(buf@).spec_supported());
                assert forall|m: MetaV2_0| pre != spec_preamble_bytes(m) by {
                    if pre == spec_preamble_bytes(m) {
                        assert(buf@.subrange(8, 93) == spec_meta_bytes(m));
                    }
                }
            }
            return Err(e);
        },
    };
    proof {
        assert(pre =~= pre.subrange(0, 4) + pre.subrange(4, 6) + pre.subrange(6, 8) + pre.subrange(
            8,
            93,
        ));
        assert(pre.subrange(0, 4) =~= spec_magic());
        assert(buf@.subrange(4, 6) == spec_u16_to_le_bytes(spec_u16_from_le_bytes(buf@.subrange(4, 6))));
        assert(buf@.subrange(6, 8) == spec_u16_to_le_bytes(spec_u16_from_le_bytes(buf@.subrange(6, 8))));
        assert(pre == spec_preamble_bytes(m));
    }
    Ok(m)
}


/// Whether a key/value pair fits the record header's length fields.
pub open spec fn record_wf(k: Seq<u8>, v: Seq<u8>) -> bool {
    k.len() <= KEY_LENGTH_MAX && v.len() <= VALUE_LENGTH_MAX
}

/// The serialized form of one record: length header, key bytes, value bytes.
pub open spec fn spec_record_bytes(k: Seq<u8>, v: Seq<u8>) -> Seq<u8> {
    spec_u16_to_le_bytes(k.len() as u16) + spec_u32_to_le_bytes(v.len() as u32) + k + v
}

/// The concatenation of the records of a sequence of entries: the
/// uncompressed contents of one chunk.
pub open spec fn spec_records_bytes(es: Seq<(Seq<u8>, Seq<u8>)>) -> Seq<u8>
    decreases es.len(),
{
    if es.len() == 0 {
        Seq::empty()
    } else {
        spec_record_bytes(es[0].0, es[0].1) + spec_records_bytes(es.subrange(1, es.len() as int))
    }
}

/// Appending one entry appends its record bytes.
pub proof fn lemma_records_bytes_push(es: Seq<(Seq<u8>, Seq<u8>)>, k: Seq<u8>, v: Seq<u8>)
    ensures
        spec_records_bytes(es.push((k, v))) == spec_records_bytes(es) + spec_record_bytes(k, v),
    decreases es.len(),
{
    let all = es.push((k, v));
    if es.len() == 0 {
        assert(all.subrange(1, all.len() as int) =~= Seq::<(Seq<u8>, Seq<u8>)>::empty());
        assert(all[0] == (k, v));
        assert(spec_records_bytes(Seq::<(Seq<u8>, Seq<u8>)>::empty()) == Seq::<u8>::empty());
        assert(spec_records_bytes(all) == spec_record_bytes(k, v) + Seq::<u8>::empty());
        assert(spec_records_bytes(all) =~= spec_records_bytes(es) + spec_record_bytes(k, v));
    } else {
        let es1 = es.subrange(1, es.len() as int);
        lemma_records_bytes_push(es1, k, v);
        assert(all.subrange(1, all.len() as int) =~= es1.push((k, v)));
        assert(all[0] == es[0]);
        assert(spec_records_bytes(all) == spec_record_bytes(es[0].0, es[0].1)
            + spec_records_bytes(es1.push((k, v))));
        assert(spec_records_bytes(es) == spec_record_bytes(es[0].0, es[0].1)
            + spec_records_bytes(es1));
        assert(spec_records_bytes(all) =~= spec_records_bytes(es) + spec_record_bytes(k, v));
    }
}

/// One record occupies its header and its key and value bytes.
pub proof fn lemma_record_bytes_len(k: Seq<u8>, v: Seq<u8>)
    ensures
        spec_record_bytes(k, v).len() == 6 + k.len() + v.len(),
{
    lemma_auto_spec_u16_to_from_le_bytes();
    lemma_auto_spec_u32_to_from_le_bytes();
}

/// The records of at least one entry occupy at least one header.
pub proof fn lemma_records_bytes_nonempty(es: Seq<(Seq<u8>, Seq<u8>)>)
    requires
        es.len() > 0,
    ensures
        spec_records_bytes(es).len() >= 6,
{
    lemma_auto_spec_u16_to_from_le_bytes();
    lemma_auto_spec_u32_to_from_le_bytes();
    assert(spec_records_bytes(es) == spec_record_bytes(es[0].0, es[0].1) + spec_records_bytes(
        es.subrange(1, es.len() as int),
    ));
}

/// The outcome of scanning a chunk for a key: the byte range of the value,
/// a definite absence, or a malformed chunk.
pub enum ScanResult {
    Found(int, int),
    Absent,
    Corrupt,
}

/// Scanning a chunk for `key`, starting at `pos`: parse each length
/// header, compare the record's key, and stop at the first key equal
/// (found) or greater (absent, since chunks are sorted).
pub open spec fn spec_chunk_scan(buf: Seq<u8>, key: Seq<u8>, pos: int) -> ScanResult
    decreases buf.len() - pos,
{
    if pos == buf.len() {
        ScanResult::Absent
    } else if pos < 0 || pos + 6 > buf.len() {
        ScanResult::Corrupt
    } else {
        let klen: int = spec_u16_from_le_bytes(buf.subrange(pos, pos + 2)) as int;
        let vlen: int = spec_u32_from_le_bytes(buf.subrange(pos + 2, pos + 6)) as int;
        let key_end: int = pos + 6 + klen;
        if key_end > buf.len() {
            ScanResult::Corrupt
        } else {
            let value_end: int = key_end + vlen;
            if value_end > buf.len() {
                ScanResult::Corrupt
            } else {
                match lex_cmp(buf.subrange(pos + 6, key_end), key) {
                    Cmp::Equal => ScanResult::Found(key_end, value_end),
                    Cmp::Greater => ScanResult::Absent,
                    Cmp::Less => spec_chunk_scan(buf, key, value_end),
                }
            }
        }
    }
}

/// Find the key in the chunk by scanning sequentially.
///
/// This assumes the chunk was fetched from disk and holds records in the
/// on-disk format. Returns the start and end index of the value.
pub fn find_value_offset_v2(buf: &[u8], key: &[u8]) -> (r: Result<Option<(usize, usize)>, Error>)
    ensures
        match spec_chunk_scan(buf@, key@, 0) {
            ScanResult::Found(s, e) => r == Ok::<_, Error>(Some((s as usize, e as usize))) && 0 <= s
                <= e <= buf@.len(),
            ScanResult::Absent => r == Ok::<Option<(usize, usize)>, Error>(None),
            ScanResult::Corrupt => r matches Err(e) && e is InvalidData,
        },
{
    let n: usize = buf.len();
    let mut pos: usize = 0;
    while pos < n
        invariant
            0 <= pos <= n,
            n == buf@.len(),
            spec_chunk_scan(buf@, key@, 0) == spec_chunk_scan(buf@, key@, pos as int),
        decreases n - pos,
    {
        if n - pos < 6 {
            return Err(Error::invalid_data());
        }
        let klen = read_u16_at(buf, pos) as usize;
        let vlen_u32 = read_u32_at(buf, pos + 2);
        let vlen = vlen_u32 as u64;
        if (klen as u64) > ((n - (pos + 6)) as u64) {
            return Err(Error::invalid_data());
        }
        let key_end = pos + 6 + klen;
        if vlen > (n - key_end) as u64 {
            return Err(Error::invalid_data());
        }
        let value_end = key_end + (vlen as usize);
        let rkey = slice_subrange(buf, pos + 6, key_end);
        match cmp_bytes(rkey, key) {
            Cmp::Equal => {
                return Ok(Some((key_end, value_end)));
            },
            Cmp::Greater => {
                return Ok(None);
            },
            Cmp::Less => {
                pos = value_end;
            },
        }
    }
    Ok(None)
}

/// Adjust the byte range of a scan outcome by an offset.
pub open spec fn shift_scan(r: ScanResult, d: int) -> ScanResult {
    match r {
        ScanResult::Found(s, e) => ScanResult::Found(s + d, e + d),
        ScanResult::Absent => ScanResult::Absent,
        ScanResult::Corrupt => ScanResult::Corrupt,
    }
}

/// Scanning past a prefix is scanning the suffix, with ranges shifted.
pub proof fn lemma_scan_suffix(buf: Seq<u8>, plen: int, key: Seq<u8>, pos: int)
    requires
        0 <= plen <= pos <= buf.len(),
    ensures
        spec_chunk_scan(buf, key, pos) == shift_scan(
            spec_chunk_scan(buf.subrange(plen, buf.len() as int), key, pos - plen),
            plen,
        ),
    decreases buf.len() - pos,
{
    let rest = buf.subrange(plen, buf.len() as int);
    let q = pos - plen;
    if pos == buf.len() {
    } else if pos + 6 > buf.len() {
    } else {
        assert(buf.subrange(pos, pos + 2) =~= rest.subrange(q, q + 2));
        assert(buf.subrange(pos + 2, pos + 6) =~= rest.subrange(q + 2, q + 6));
        let klen: int = spec_u16_from_le_bytes(buf.subrange(pos, pos + 2)) as int;
        let vlen: int = spec_u32_from_le_bytes(buf.subrange(pos + 2, pos + 6)) as int;
        let key_end: int = pos + 6 + klen;
        if key_end > buf.len() {
        } else {
            let value_end: int = key_end + vlen;
            if value_end > buf.len() {
            } else {
                assert(buf.subrange(pos + 6, key_end) =~= rest.subrange(q + 6, q + 6 + klen));
                match lex_cmp(buf.subrange(pos + 6, key_end), key) {
                    Cmp::Equal => {},
                    Cmp::Greater => {},
                    Cmp::Less => {
                        lemma_scan_suffix(buf, plen, key, value_end);
                    },
                }
            }
        }
    }
}


/// Keys of a sequence of entries are strictly ascending.
pub open spec fn entries_sorted(es: Seq<(Seq<u8>, Seq<u8>)>) -> bool {
    forall|i: int, j: int|
        0 <= i < j < es.len() ==> crate::lexorder::lex_lt(#[trigger] es[i].0, #[trigger] es[j].0)
}

/// Every entry fits the record header's length fields.
pub open spec fn entries_wf(es: Seq<(Seq<u8>, Seq<u8>)>) -> bool {
    forall|i: int| 0 <= i < es.len() ==> record_wf(#[trigger] es[i].0, es[i].1)
}

/// Some entry holds this key.
pub open spec fn entries_contains_key(es: Seq<(Seq<u8>, Seq<u8>)>, key: Seq<u8>) -> bool {
    exists|i: int| 0 <= i < es.len() && (#[trigger] es[i].0) == key
}

/// Scanning the records of sorted, well-formed entries is exact: it finds
/// the byte range of the value stored under `key` when the key was
/// written, reports absence when it was not, and never misparses.
pub proof fn lemma_scan_records(es: Seq<(Seq<u8>, Seq<u8>)>, key: Seq<u8>)
    requires
        entries_wf(es),
        entries_sorted(es),
    ensures
        match spec_chunk_scan(spec_records_bytes(es), key, 0) {
            ScanResult::Found(s, e) => entries_contains_key(es, key) && exists|i: int|
                0 <= i < es.len() && (#[trigger] es[i].0) == key && 0 <= s <= e
                    <= spec_records_bytes(es).len() && spec_records_bytes(es).subrange(s, e)
                    == es[i].1,
            ScanResult::Absent => !entries_contains_key(es, key),
            ScanResult::Corrupt => false,
        },
    decreases es.len(),
{
    lemma_auto_spec_u16_to_from_le_bytes();
    lemma_auto_spec_u32_to_from_le_bytes();
    let buf = spec_records_bytes(es);
    if es.len() == 0 {
        assert(buf.len() == 0);
    } else {
        let k0 = es[0].0;
        let v0 = es[0].1;
        let es1 = es.subrange(1, es.len() as int);
        let r0 = spec_record_bytes(k0, v0);
        let rest = spec_records_bytes(es1);
        assert(buf == r0 + rest);
        assert(r0.len() == 6 + k0.len() + v0.len());
        assert(buf.subrange(0, 2) =~= spec_u16_to_le_bytes(k0.len() as u16));
        assert(buf.subrange(2, 6) =~= spec_u32_to_le_bytes(v0.len() as u32));
        let klen: int = spec_u16_from_le_bytes(buf.subrange(0, 2)) as int;
        let vlen: int = spec_u32_from_le_bytes(buf.subrange(2, 6)) as int;
        assert(klen == k0.len());
        assert(vlen == v0.len());
        let key_end: int = 6 + klen;
        let value_end: int = key_end + vlen;
        assert(value_end == r0.len() <= buf.len());
        assert(buf.subrange(6, key_end) =~= k0);
        match crate::lexorder::lex_cmp(k0, key) {
            Cmp::Equal => {
                crate::lexorder::lemma_lex_cmp_eq(k0, key);
                assert(es[0].0 == key);
                assert(buf.subrange(key_end, value_end) =~= v0);
                assert(spec_chunk_scan(buf, key, 0) == ScanResult::Found(key_end, value_end));
            },
            Cmp::Greater => {
                assert(spec_chunk_scan(buf, key, 0) == ScanResult::Absent);
                assert forall|i: int| 0 <= i < es.len() implies (#[trigger] es[i].0) != key by {
                    crate::lexorder::lemma_lex_cmp_flip(key, k0);
                    crate::lexorder::lemma_lex_cmp_eq(es[i].0, key);
                    if i > 0 {
                        assert(crate::lexorder::lex_lt(es[0].0, es[i].0));
                        crate::lexorder::lemma_lex_lt_trans(key, k0, es[i].0);
                    }
                }
            },
            Cmp::Less => {
                assert(spec_chunk_scan(buf, key, 0) == spec_chunk_scan(buf, key, value_end));
                lemma_scan_suffix(buf, r0.len() as int, key, r0.len() as int);
                assert(buf.subrange(r0.len() as int, buf.len() as int) =~= rest);
                assert(spec_chunk_scan(buf, key, value_end) == shift_scan(
                    spec_chunk_scan(rest, key, 0),
                    r0.len() as int,
                ));
                assert(entries_wf(es1));
                assert(entries_sorted(es1));
                lemma_scan_records(es1, key);
                crate::lexorder::lemma_lex_cmp_eq(k0, key);
                match spec_chunk_scan(rest, key, 0) {
                    ScanResult::Found(s, e) => {
                        let i = choose|i: int|
                            0 <= i < es1.len() && (#[trigger] es1[i].0) == key && 0 <= s <= e
                                <= rest.len() && rest.subrange(s, e) == es1[i].1;
                        assert(es[i + 1].0 == key);
                        assert(buf.subrange(s + r0.len(), e + r0.len()) =~= rest.subrange(s, e));
                        assert(spec_chunk_scan(buf, key, 0) == ScanResult::Found(
                            s + r0.len(),
                            e + r0.len(),
                        ));
                        assert(0 <= i + 1 < es.len() && es[i + 1].0 == key && 0 <= s + r0.len() <= e
                            + r0.len() <= buf.len() && buf.subrange(s + r0.len(), e + r0.len())
                            == es[i + 1].1);
                    },
                    ScanResult::Absent => {
                        assert forall|i: int| 0 <= i < es.len() implies (#[trigger] es[i].0)
                            != key by {
                            if i == 0 {
                            } else {
                                assert(es1[i - 1].0 == es[i].0);
                            }
                        }
                    },
                    ScanResult::Corrupt => {
                        assert(false);
                    },
                }
            },
        }
    }
}


/// The serialized form of one sparse-index entry.
pub open spec fn spec_index_entry_bytes(k: Seq<u8>, offset: u64) -> Seq<u8> {
    spec_u16_to_le_bytes(k.len() as u16) + spec_u64_to_le_bytes(offset) + k
}

/// The serialized index region: entries in ascending key order.
pub open spec fn spec_index_bytes(es: Seq<(Seq<u8>, u64)>) -> Seq<u8>
    decreases es.len(),
{
    if es.len() == 0 {
        Seq::empty()
    } else {
        spec_index_entry_bytes(es[0].0, es[0].1) + spec_index_bytes(es.subrange(1, es.len() as int))
    }
}

/// Appending one index entry appends its bytes.
pub proof fn lemma_index_bytes_push(es: Seq<(Seq<u8>, u64)>, k: Seq<u8>, offset: u64)
    ensures
        spec_index_bytes(es.push((k, offset))) == spec_index_bytes(es) + spec_index_entry_bytes(
            k,
            offset,
        ),
    decreases es.len(),
{
    let all = es.push((k, offset));
    if es.len() == 0 {
        assert(all.subrange(1, all.len() as int) =~= Seq::<(Seq<u8>, u64)>::empty());
        assert(all[0] == (k, offset));
        assert(spec_index_bytes(Seq::<(Seq<u8>, u64)>::empty()) == Seq::<u8>::empty());
        assert(spec_index_bytes(all) == spec_index_entry_bytes(k, offset) + Seq::<u8>::empty());
        assert(spec_index_bytes(all) =~= spec_index_bytes(es) + spec_index_entry_bytes(k, offset));
    } else {
        let es1 = es.subrange(1, es.len() as int);
        lemma_index_bytes_push(es1, k, offset);
        assert(all.subrange(1, all.len() as int) =~= es1.push((k, offset)));
        assert(all[0] == es[0]);
        assert(spec_index_bytes(all) == spec_index_entry_bytes(es[0].0, es[0].1) + spec_index_bytes(
            es1.push((k, offset)),
        ));
        assert(spec_index_bytes(es) == spec_index_entry_bytes(es[0].0, es[0].1) + spec_index_bytes(
            es1,
        ));
        assert(spec_index_bytes(all) =~= spec_index_bytes(es) + spec_index_entry_bytes(k, offset));
    }
}

/// Keys of a sparse-index entry sequence are strictly ascending.
pub open spec fn index_sorted(es: Seq<(Seq<u8>, u64)>) -> bool {
    forall|i: int, j: int|
        0 <= i < j < es.len() ==> crate::lexorder::lex_lt(
            (#[trigger] es[i]).0,
            (#[trigger] es[j]).0,
        )
}

/// Every key of a sparse-index entry sequence fits the length field.
pub open spec fn index_entries_wf(es: Seq<(Seq<u8>, u64)>) -> bool {
    forall|i: int| 0 <= i < es.len() ==> (#[trigger] es[i]).0.len() <= KEY_LENGTH_MAX
}

/// The index region splits at any entry boundary.
pub proof fn lemma_index_bytes_split(es: Seq<(Seq<u8>, u64)>, k: int)
    requires
        0 <= k <= es.len(),
    ensures
        spec_index_bytes(es) == spec_index_bytes(es.take(k)) + spec_index_bytes(
            es.skip(k),
        ),
    decreases k,
{
    if k == 0 {
        assert(es.take(0) =~= Seq::<(Seq<u8>, u64)>::empty());
        assert(es.skip(0) =~= es);
        assert(spec_index_bytes(es) =~= spec_index_bytes(es.take(0)) + spec_index_bytes(
            es.skip(0),
        ));
    } else {
        let es1 = es.subrange(1, es.len() as int);
        lemma_index_bytes_split(es1, k - 1);
        assert(es.take(k).subrange(1, k) =~= es1.take(k - 1));
        assert(es.take(k)[0] == es[0]);
        assert(spec_index_bytes(es.take(k)) == spec_index_entry_bytes(es[0].0, es[0].1)
            + spec_index_bytes(es1.take(k - 1)));
        assert(es.skip(k) =~= es1.skip(k - 1));
        assert(spec_index_bytes(es) =~= spec_index_bytes(es.take(k)) + spec_index_bytes(
            es.skip(k),
        ));
    }
}

/// A nonempty entry sequence occupies at least one header.
pub proof fn lemma_index_bytes_nonempty(es: Seq<(Seq<u8>, u64)>)
    requires
        es.len() > 0,
    ensures
        spec_index_bytes(es).len() >= 10,
{
    lemma_auto_spec_u16_to_from_le_bytes();
    lemma_auto_spec_u64_to_from_le_bytes();
    assert(spec_index_bytes(es) == spec_index_entry_bytes(es[0].0, es[0].1) + spec_index_bytes(
        es.subrange(1, es.len() as int),
    ));
}

/// The header and the key of the first entry of an encoded index stand at
/// fixed offsets.
pub proof fn lemma_index_first_entry(es: Seq<(Seq<u8>, u64)>)
    requires
        es.len() > 0,
        es[0].0.len() <= KEY_LENGTH_MAX,
    ensures
        spec_index_bytes(es).len() >= 10 + es[0].0.len(),
        spec_index_bytes(es).subrange(0, 2) == spec_u16_to_le_bytes(es[0].0.len() as u16),
        spec_index_bytes(es).subrange(2, 10) == spec_u64_to_le_bytes(es[0].1),
        spec_index_bytes(es).subrange(10, 10 + es[0].0.len() as int) == es[0].0,
{
    lemma_auto_spec_u16_to_from_le_bytes();
    lemma_auto_spec_u64_to_from_le_bytes();
    let b = spec_index_bytes(es);
    assert(b == spec_index_entry_bytes(es[0].0, es[0].1) + spec_index_bytes(
        es.subrange(1, es.len() as int),
    ));
    assert(b.subrange(0, 2) =~= spec_u16_to_le_bytes(es[0].0.len() as u16));
    assert(b.subrange(2, 10) =~= spec_u64_to_le_bytes(es[0].1));
    assert(b.subrange(10, 10 + es[0].0.len() as int) =~= es[0].0);
}

/// All entries of all chunks, in file order.
pub open spec fn spec_chunks_flatten(chunks: Seq<Seq<(Seq<u8>, Seq<u8>)>>) -> Seq<
    (Seq<u8>, Seq<u8>),
>
    decreases chunks.len(),
{
    if chunks.len() == 0 {
        Seq::empty()
    } else {
        spec_chunks_flatten(chunks.drop_last()) + chunks.last()
    }
}

/// An entry stands in the flattening exactly when it stands in a chunk.
pub proof fn lemma_chunks_flatten_membership(chunks: Seq<Seq<(Seq<u8>, Seq<u8>)>>, i: int, p: int)
    requires
        0 <= i < chunks.len(),
        0 <= p < chunks[i].len(),
    ensures
        spec_chunks_flatten(chunks).contains(chunks[i][p]),
    decreases chunks.len(),
{
    let fl = spec_chunks_flatten(chunks);
    if i == chunks.len() - 1 {
        assert(fl[spec_chunks_flatten(chunks.drop_last()).len() + p] == chunks[i][p]);
    } else {
        lemma_chunks_flatten_membership(chunks.drop_last(), i, p);
        let fl0 = spec_chunks_flatten(chunks.drop_last());
        let q = choose|q: int| 0 <= q < fl0.len() && fl0[q] == chunks[i][p];
        assert(fl[q] == chunks[i][p]);
    }
}

/// Conversely, every entry of the flattening comes from some chunk.
pub proof fn lemma_chunks_flatten_origin(chunks: Seq<Seq<(Seq<u8>, Seq<u8>)>>, e: (Seq<u8>, Seq<u8>))
    requires
        spec_chunks_flatten(chunks).contains(e),
    ensures
        exists|i: int, p: int|
            0 <= i < chunks.len() && 0 <= p < chunks[i].len() && (#[trigger] chunks[i][p]) == e,
    decreases chunks.len(),
{
    let fl = spec_chunks_flatten(chunks);
    let q = choose|q: int| 0 <= q < fl.len() && fl[q] == e;
    let fl0 = spec_chunks_flatten(chunks.drop_last());
    if q < fl0.len() {
        lemma_chunks_flatten_origin(chunks.drop_last(), e);
        let (i, p) = choose|i: int, p: int|
            0 <= i < chunks.drop_last().len() && 0 <= p < chunks.drop_last()[i].len() && (
            #[trigger] chunks.drop_last()[i][p]) == e;
        assert(chunks[i][p] == e);
    } else {
        let i = chunks.len() - 1;
        let p = q - fl0.len();
        assert(chunks[i][p] == e);
    }
}

/// The complete shape of a finished table file over its logical parts:
/// the metadata-bearing preamble, then one compression frame per chunk,
/// then the index frame, then the bloom frame — with the metadata lengths
/// measuring exactly those regions, the sparse index naming each chunk's
/// first key and frame offset, keys strictly ascending everywhere, and
/// the serialized bloom state recognizing every written key.
pub open spec fn spec_table_rep(
    file: Seq<u8>,
    entries: Seq<(Seq<u8>, Seq<u8>)>,
    chunks: Seq<Seq<(Seq<u8>, Seq<u8>)>>,
    sparse: Seq<(Seq<u8>, u64)>,
    bitmap: Seq<u8>,
    m: MetaV2_0,
) -> bool {
    let c = m.compression;
    let chunk_bytes = Seq::new(chunks.len(), |i: int| spec_records_bytes(chunks[i]));
    let data = spec_frames_concat(c, chunk_bytes);
    let index_frame = spec_frame_of(c, spec_index_bytes(sparse));
    let bloom_frame = spec_frame_of(c, bitmap);
    &&& file == spec_preamble_bytes(m) + data + index_frame + bloom_frame
    &&& m.finished == true
    &&& m.data_len == data.len()
    &&& m.index_len == index_frame.len()
    &&& m.bloom_len == bloom_frame.len()
    &&& m.items == entries.len()
    &&& entries == spec_chunks_flatten(chunks)
    &&& entries_wf(entries)
    &&& entries_sorted(entries)
    &&& sparse.len() == chunks.len()
    &&& (forall|i: int| 0 <= i < chunks.len() ==> (#[trigger] chunks[i]).len() >= 1)
    &&& (forall|i: int| 0 <= i < chunks.len() ==> entries_sorted(#[trigger] chunks[i]))
    &&& (forall|i: int|
        0 <= i < sparse.len() ==> (#[trigger] sparse[i]).0.len() <= KEY_LENGTH_MAX)
    &&& (forall|i: int|
        0 <= i < chunks.len() ==> (#[trigger] sparse[i]).0 == chunks[i][0].0 && sparse[i].1
            == DATA_REGION_START + spec_frames_concat(c, chunk_bytes.take(i)).len())
    &&& (forall|i: int, j: int|
        0 <= i < j < sparse.len() ==> crate::lexorder::lex_lt(
            (#[trigger] sparse[i]).0,
            (#[trigger] sparse[j]).0,
        ) && sparse[i].1 < sparse[j].1)
    &&& (forall|i: int|
        0 <= i < sparse.len() ==> (#[trigger] sparse[i]).1 < DATA_REGION_START + m.data_len)
    &&& (forall|i: int, p: int|
        0 <= i < chunks.len() && 0 <= p < (#[trigger] chunks[i]).len() ==> crate::lexorder::lex_le(
            sparse[i].0,
            (#[trigger] chunks[i][p]).0,
        ) && (i + 1 < chunks.len() ==> crate::lexorder::lex_lt(chunks[i][p].0, sparse[i + 1].0)))
    &&& 8 * bitmap.len() == m.bloom.bitmap_bits
    &&& m.bloom.bitmap_bits >= 1
    &&& m.bloom.k_num >= 1
    &&& (forall|i: int|
        0 <= i < entries.len() ==> spec_bitmap_model(
            bitmap,
            m.bloom.bitmap_bits,
            m.bloom.k_num,
            m.bloom.sip_key_0.0,
            m.bloom.sip_key_0.1,
            m.bloom.sip_key_1.0,
            m.bloom.sip_key_1.1,
        ).contains((#[trigger] entries[i]).0))
}

/// A byte sequence is a complete table holding exactly `entries`, written
/// with compression `c`.
pub open spec fn spec_table_complete(
    file: Seq<u8>,
    entries: Seq<(Seq<u8>, Seq<u8>)>,
    c: Compression,
) -> bool {
    exists|chunks: Seq<Seq<(Seq<u8>, Seq<u8>)>>, sparse: Seq<(Seq<u8>, u64)>, bitmap: Seq<u8>, m: MetaV2_0|
        spec_table_rep(file, entries, chunks, sparse, bitmap, m) && m.compression == c
}

} // verus!

//! The bloom filter fast-negative path, backed by the `bloomfilter` crate.
//!
//! A filter is modelled by the set of keys it answers "possibly present"
//! for: `spec_bloom_set`. Inserting a key puts it (and possibly false
//! positives, never removals) into that set, and `check` answers exactly
//! membership in it — so a written key is never reported absent. The
//! serialized state (bitmap and parameters) determines the set, which is
//! what lets a reader reconstruct the writer's filter from the file.

use vstd::prelude::*;
use crate::error::Error;

verus! {

#[verifier::external_type_specification]
#[verifier::external_body]
#[verifier::reject_recursive_types(T)]
pub struct ExBloom<T: ?Sized>(bloomfilter::Bloom<T>);

/// The set of keys the filter answers "possibly present" for: every key
/// inserted so far, plus false positives.
pub uninterp spec fn spec_bloom_set(b: bloomfilter::Bloom<[u8]>) -> Set<Seq<u8>>;

/// The filter's fixed parameters: bit count, hash-function count, and the
/// two 128-bit sip keys as four words.
pub uninterp spec fn spec_bloom_config(b: bloomfilter::Bloom<[u8]>) -> (
    u64,
    u32,
    u64,
    u64,
    u64,
    u64,
);

/// The filter's in-memory state is consistent: at least one bit, and the
/// bitmap actually holds that many bits, so `set` and `check` cannot fail.
pub uninterp spec fn spec_bloom_wf(b: bloomfilter::Bloom<[u8]>) -> bool;

/// The set of keys a filter reconstructed from this serialized state
/// (bitmap bytes and parameters) answers "possibly present" for. A
/// function of the state alone.
pub uninterp spec fn spec_bitmap_model(
    bitmap: Seq<u8>,
    bitmap_bits: u64,
    k_num: u32,
    k00: u64,
    k01: u64,
    k10: u64,
    k11: u64,
) -> Set<Seq<u8>>;

/// Relies on `bloomfilter::Bloom::new`: allocates `bitmap_size` zeroed
/// bytes (so no key answers "present" yet), with `8 * bitmap_size` bits
/// and at least one hash function (the optimal count is clamped to 1).
/// Panics on a zero size or count, and on a bit count that overflows a
/// `u64`, so those inputs are excluded.
#[verifier::external_body]
pub fn bloom_new(bitmap_size: usize, items_count: usize) -> (r: bloomfilter::Bloom<[u8]>)
    requires
        bitmap_size >= 1,
        items_count >= 1,
        bitmap_size as u64 <= 0x1FFF_FFFF_FFFF_FFFFu64,
    ensures
        spec_bloom_wf(r),
        spec_bloom_set(r) == Set::<Seq<u8>>::empty(),
        spec_bloom_config(r).0 == 8 * bitmap_size,
        spec_bloom_config(r).1 >= 1,
{
    bloomfilter::Bloom::new(bitmap_size, items_count)
}

/// Relies on `bloomfilter::Bloom::set`: flips `k_num` bits on, which can
/// only grow the answered set, and afterwards every hash of this key is a
/// one bit, so the key is in the set. The parameters do not change.
#[verifier::external_body]
pub fn bloom_set_key(b: &mut bloomfilter::Bloom<[u8]>, key: &[u8])
    requires
        spec_bloom_wf(*old(b)),
    ensures
        spec_bloom_wf(*final(b)),
        spec_bloom_config(*final(b)) == spec_bloom_config(*old(b)),
        spec_bloom_set(*final(b)).contains(key@),
        spec_bloom_set(*old(b)).subset_of(spec_bloom_set(*final(b))),
{
    b.set(key)
}

/// Relies on `bloomfilter::Bloom::check`: a pure function of the filter
/// state and the key bytes; by definition of the model it answers exactly
/// membership in the filter's set.
#[verifier::external_body]
pub fn bloom_check(b: &bloomfilter::Bloom<[u8]>, key: &[u8]) -> (r: bool)
    requires
        spec_bloom_wf(*b),
    ensures
        r == spec_bloom_set(*b).contains(key@),
{
    b.check(key)
}

/// Relies on `bloomfilter::Bloom::bitmap`: serializes the bitmap to
/// `bitmap_bits / 8` bytes; a filter rebuilt from exactly this state
/// answers as this filter does, which is what `spec_bitmap_model` of the
/// returned bytes states.
#[verifier::external_body]
pub fn bloom_bitmap(b: &bloomfilter::Bloom<[u8]>) -> (r: Vec<u8>)
    requires
        spec_bloom_wf(*b),
        spec_bloom_config(*b).0 % 8 == 0,
    ensures
        8 * r@.len() == spec_bloom_config(*b).0,
        spec_bitmap_model(
            r@,
            spec_bloom_config(*b).0,
            spec_bloom_config(*b).1,
            spec_bloom_config(*b).2,
            spec_bloom_config(*b).3,
            spec_bloom_config(*b).4,
            spec_bloom_config(*b).5,
        ) == spec_bloom_set(*b),
{
    b.bitmap()
}

/// Relies on `bloomfilter::Bloom::number_of_bits`.
#[verifier::external_body]
pub fn bloom_number_of_bits(b: &bloomfilter::Bloom<[u8]>) -> (r: u64)
    ensures
        r == spec_bloom_config(*b).0,
{
    b.number_of_bits()
}

/// Relies on `bloomfilter::Bloom::number_of_hash_functions`.
#[verifier::external_body]
pub fn bloom_number_of_hash_functions(b: &bloomfilter::Bloom<[u8]>) -> (r: u32)
    ensures
        r == spec_bloom_config(*b).1,
{
    b.number_of_hash_functions()
}

/// Relies on `bloomfilter::Bloom::sip_keys`.
#[verifier::external_body]
pub fn bloom_sip_keys(b: &bloomfilter::Bloom<[u8]>) -> (r: ((u64, u64), (u64, u64)))
    ensures
        r.0.0 == spec_bloom_config(*b).2,
        r.0.1 == spec_bloom_config(*b).3,
        r.1.0 == spec_bloom_config(*b).4,
        r.1.1 == spec_bloom_config(*b).5,
{
    let keys = b.sip_keys();
    ((keys[0].0, keys[0].1), (keys[1].0, keys[1].1))
}

/// Relies on `bloomfilter::Bloom::from_existing`: rebuilds the bitmap and
/// the sip hashers from the serialized state, so the filter answers
/// exactly the set that state models. The bit count must match the
/// bitmap's length (and be positive) for `check` to be safe.
#[verifier::external_body]
pub fn bloom_from_existing(
    bytes: &[u8],
    bitmap_bits: u64,
    k_num: u32,
    key0: (u64, u64),
    key1: (u64, u64),
) -> (r: bloomfilter::Bloom<[u8]>)
    requires
        8 * bytes@.len() == bitmap_bits,
        bitmap_bits >= 1,
    ensures
        spec_bloom_wf(r),
        spec_bloom_set(r) == spec_bitmap_model(
            bytes@,
            bitmap_bits,
            k_num,
            key0.0,
            key0.1,
            key1.0,
            key1.1,
        ),
{
    bloomfilter::Bloom::from_existing(bytes, bitmap_bits, k_num, [key0, key1])
}

} // verus!

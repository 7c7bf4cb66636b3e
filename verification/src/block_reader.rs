//! Scanning one fetched chunk ("block") for a key.
//!
//! The record layout inside a chunk has not changed between on-disk
//! versions, so the first-version entry point shares the scan.

use vstd::prelude::*;
use crate::error::Error;
use crate::ondisk_format::ScanResult;
use crate::ondisk_format::find_value_offset_v2;
use crate::ondisk_format::spec_chunk_scan;

verus! {

/// Find the key in the chunk by scanning sequentially.
///
/// This assumes the chunk was fetched from disk and holds records in the
/// first on-disk version's layout, which matches the current one record
/// for record. Returns the start and end index of the value.
pub fn find_value_offset_v1(buf: &[u8], key: &[u8]) -> (r: Result<Option<(usize, usize)>, Error>)
    ensures
        match spec_chunk_scan(buf@, key@, 0) {
            ScanResult::Found(s, e) => r == Ok::<_, Error>(Some((s as usize, e as usize))) && 0 <= s
                <= e <= buf@.len(),
            ScanResult::Absent => r == Ok::<Option<(usize, usize)>, Error>(None),
            ScanResult::Corrupt => r matches Err(e) && e is InvalidData,
        },
{
    find_value_offset_v2(buf, key)
}

/// A view over one fetched chunk that can look keys up; it caches
/// nothing and scans on every call.
pub struct ReferenceBlock<'a> {
    buf: &'a [u8],
}

impl<'a> ReferenceBlock<'a> {
    pub fn new(b: &'a [u8]) -> (r: Self)
        ensures
            r.view_bytes() == b@,
    {
        Self { buf: b }
    }

    /// The bytes of the chunk.
    pub closed spec fn view_bytes(&self) -> Seq<u8> {
        self.buf@
    }

    /// Scan the chunk for the key and hand back the value's bytes.
    pub fn find_key_rb(&self, key: &[u8]) -> (r: Result<Option<&'a [u8]>, Error>)
        ensures
            match spec_chunk_scan(self.view_bytes(), key@, 0) {
                ScanResult::Found(s, e) => r matches Ok(o) && (o matches Some(v) && v@
                    == self.view_bytes().subrange(s, e)),
                ScanResult::Absent => r matches Ok(o) && o is None,
                ScanResult::Corrupt => r is Err,
            },
    {
        let n = self.buf.len();
        match find_value_offset_v1(self.buf, key) {
            Ok(Some(p)) => {
                proof {
                    match spec_chunk_scan(self.view_bytes(), key@, 0) {
                        ScanResult::Found(s, e) => {
                            assert(p == ((s as usize, e as usize)));
                            assert(p.0 <= p.1 <= n);
                        },
                        ScanResult::Absent => {
                            assert(false);
                        },
                        ScanResult::Corrupt => {
                            assert(false);
                        },
                    }
                }
                Ok(Some(vstd::slice::slice_subrange(self.buf, p.0, p.1)))
            },
            Ok(None) => Ok(None),
            Err(e) => Err(e),
        }
    }
}

} // verus!

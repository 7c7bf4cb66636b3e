//! The error taxonomy of the library.
//!
//! Every failure surfaces to the caller through this enum; verified code
//! never panics on malformed input.

use vstd::prelude::*;
use crate::types::Version;

verus! {

/// Errors reported by the writer and the readers.
#[derive(Debug)]
pub enum Error {
    /// An underlying I/O failure, reported by unverified callers that drive
    /// the library against files.
    Io(&'static str),
    /// An internal invariant was violated; should be unreachable.
    ProgrammingError(&'static str),
    /// The bytes on disk do not form a valid table.
    InvalidData(&'static str),
    /// The version tag of the file is not recognized.
    UnsupportedVersion(Version),
    /// A key longer than the on-disk format can hold was passed to `set`.
    KeyTooLong(usize),
    /// A value longer than the on-disk format can hold was passed to `set`.
    ValueTooLong(usize),
    /// A compressed table was opened with the mmap-only reader.
    CantUseCompressedFileWithMultiThreadedMmap,
    /// A codec-level failure while compressing or decompressing.
    CompressionError(&'static str),
}

impl Error {
    /// The error used for any corrupt on-disk structure.
    pub fn invalid_data() -> (r: Error)
        ensures
            r is InvalidData,
    {
        Error::InvalidData("corrupt SStable or bug")
    }
}

} // verus!

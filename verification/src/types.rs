//! Basic types shared by the writer and the readers: the on-disk version
//! tag and the compression algorithm selector.

use vstd::prelude::*;

verus! {

/// The version of the on-disk table.
#[derive(Debug, Clone, Copy, PartialEq, Eq, Structural)]
pub struct Version {
    pub major: u16,
    pub minor: u16,
}

impl Version {
    /// The version this library writes and reads.
    pub fn current() -> (r: Version)
        ensures
            r == (Version { major: 2u16, minor: 0u16 }),
    {
        Version { major: 2, minor: 0 }
    }

    /// Whether a version tag read from disk is one this library supports.
    pub open spec fn spec_supported(self) -> bool {
        self.major == 2 && self.minor == 0
    }

    /// Executable check matching `spec_supported`.
    pub fn supported(&self) -> (r: bool)
        ensures
            r == self.spec_supported(),
    {
        self.major == 2 && self.minor == 0
    }
}

/// Compression options for sstables.
#[derive(Debug, Clone, Copy, PartialEq, Eq, Structural)]
pub enum Compression {
    Plain,
    Zlib,
    Snappy,
}

impl Compression {
    /// The numeric tag stored in the metadata block for this algorithm.
    pub open spec fn spec_tag(self) -> u32 {
        match self {
            Compression::Plain => 0u32,
            Compression::Zlib => 1u32,
            Compression::Snappy => 2u32,
        }
    }

    /// Executable form of `spec_tag`.
    pub fn tag(&self) -> (r: u32)
        ensures
            r == self.spec_tag(),
    {
        match self {
            Compression::Plain => 0,
            Compression::Zlib => 1,
            Compression::Snappy => 2,
        }
    }

    /// Decode a numeric tag back into an algorithm; tags other than the
    /// three defined ones are rejected.
    pub fn from_tag(tag: u32) -> (r: Option<Compression>)
        ensures
            match r {
                Some(c) => c.spec_tag() == tag,
                None => tag != 0 && tag != 1 && tag != 2,
            },
    {
        if tag == 0 {
            Some(Compression::Plain)
        } else if tag == 1 {
            Some(Compression::Zlib)
        } else if tag == 2 {
            Some(Compression::Snappy)
        } else {
            None
        }
    }
}

impl Default for Compression {
    fn default() -> (r: Self)
        ensures
            r == Compression::Plain,
    {
        Compression::Plain
    }
}

} // verus!

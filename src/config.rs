//! The choices that configure a coder.
use vstd::prelude::*;

verus! {

/// Erasure coding backends that can be used for encoding and decoding data.
///
/// Every fragment records the backend in its header. Both backends code with
/// the same systematic Reed-Solomon engine.
#[derive(Debug, Clone, Copy, PartialEq, Eq, Structural, Hash)]
pub enum Backend {
    /// Reed-Solomon coding over a Vandermonde matrix.
    JerasureRsVand,
    /// Reed-Solomon coding over a Cauchy matrix (default).
    JerasureRsCauchy,
}

impl Default for Backend {
    /// Returns `Backend::JerasureRsCauchy`.
    fn default() -> (r: Self)
        ensures
            r == Backend::JerasureRsCauchy,
    {
        Backend::JerasureRsCauchy
    }
}

/// Available checksum algorithms for the payload of each fragment.
#[derive(Debug, Clone, Copy, PartialEq, Eq, Structural, Hash)]
pub enum Checksum {
    /// No checksum (default).
    NoChecksum,
    /// CRC32.
    Crc32,
    /// MD5.
    Md5,
}

impl Default for Checksum {
    /// Returns `Checksum::NoChecksum`.
    fn default() -> (r: Self)
        ensures
            r == Checksum::NoChecksum,
    {
        Checksum::NoChecksum
    }
}

/// The byte that marks a backend in a fragment header.
pub open spec fn backend_tag(b: Backend) -> u8 {
    match b {
        Backend::JerasureRsVand => 1,
        Backend::JerasureRsCauchy => 2,
    }
}

/// The byte that marks a checksum algorithm in a fragment header.
pub open spec fn checksum_tag(c: Checksum) -> u8 {
    match c {
        Checksum::NoChecksum => 1,
        Checksum::Crc32 => 2,
        Checksum::Md5 => 3,
    }
}

impl Backend {
    /// The byte that marks this backend in a fragment header.
    pub fn tag(self) -> (r: u8)
        ensures
            r == backend_tag(self),
    {
        match self {
            Backend::JerasureRsVand => 1,
            Backend::JerasureRsCauchy => 2,
        }
    }
}

impl Checksum {
    /// The byte that marks this algorithm in a fragment header.
    pub fn tag(self) -> (r: u8)
        ensures
            r == checksum_tag(self),
    {
        match self {
            Checksum::NoChecksum => 1,
            Checksum::Crc32 => 2,
            Checksum::Md5 => 3,
        }
    }
}

} // verus!

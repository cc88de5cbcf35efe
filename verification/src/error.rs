//! Error kinds surfaced by the log engine.

use vstd::prelude::*;

verus! {

/// Everything a caller of the engine can be told went wrong.
#[derive(Clone, Copy, Debug, PartialEq, Eq, Structural)]
pub enum Error {
    /// A write upgrade was attempted after another writer advanced the log;
    /// the caller must take a fresh read snapshot and retry.
    BusySnapshot,
    /// A compacted segment's magic number did not match.
    InvalidHeaderMagic,
    /// A compacted segment declared a page size other than the engine's.
    InvalidPageSize,
    /// A compacted segment declared an unknown format version.
    InvalidVersion,
    /// A compacted segment's footer checksum did not match its contents.
    ChecksumMismatch,
    /// An underlying read or write could not be carried out.
    Io,
    /// The registry could not resolve a namespace.
    NamespaceMissing,
}

impl Error {
    /// A short description of the error kind.
    pub fn describe(&self) -> (r: &'static str)
        ensures
            r@.len() > 0,
    {
        let s: &'static str = match self {
            Error::BusySnapshot => "busy snapshot",
            Error::InvalidHeaderMagic => "invalid header magic",
            Error::InvalidPageSize => "invalid page size",
            Error::InvalidVersion => "invalid version",
            Error::ChecksumMismatch => "checksum mismatch",
            Error::Io => "input or output failed",
            Error::NamespaceMissing => "namespace missing",
        };
        proof {
            reveal_strlit("busy snapshot");
            reveal_strlit("invalid header magic");
            reveal_strlit("invalid page size");
            reveal_strlit("invalid version");
            reveal_strlit("checksum mismatch");
            reveal_strlit("input or output failed");
            reveal_strlit("namespace missing");
        }
        s
    }
}

} // verus!

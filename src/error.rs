use vstd::prelude::*;

verus! {

/// The ways an operation of this library can fail.
#[derive(Clone, Copy, Debug, PartialEq, Eq, Structural)]
pub enum FastarError {
    /// A source name, contig or track is absent.
    NotFound,
    /// A sidecar index file could not be parsed.
    MalformedSidecar,
    /// A position does not fit its field (an in-block offset over 65535, a
    /// compressed offset over 2^48 - 1, or a position over `u64::MAX`).
    OffsetOverflow,
    /// Fewer bytes were available than were requested.
    Truncated,
    /// An archive's magic value or checksum does not match.
    Corrupted,
    /// Build parameters that contradict each other.
    InvalidConfiguration,
    /// A file system or operating system error.
    IoFailure,
    /// A path that yields no source name (not under the root, no file name,
    /// or without the expected suffix).
    InvalidPath,
}

} // verus!

use vstd::prelude::*;

verus! {

/// Failures of the archive, its codecs and its queries.
#[derive(Clone, Copy, Debug, PartialEq, Eq, Structural)]
pub enum ArchiveError {
    /// No store is registered under the requested entity type.
    EntityTypeNotFound,
    /// The page token names no live page.
    InvalidPageToken,
    /// The entity has no version at or before the requested time.
    NoVersionAtTime,
    /// The entity is not in the archive.
    NotFound,
    /// Stored bytes or a stored diff chain do not read back.
    DecodeCorruption,
    /// A batch is too large for the header's 32-bit lengths.
    BatchTooLarge,
    /// The compressor refused the payload block.
    CompressionFailed,
}

} // verus!

//! Errors of the archive reader.
use vstd::prelude::*;

verus! {

/// Why an archive operation failed.
#[derive(Debug, Clone, Copy, PartialEq, Eq, Structural)]
pub enum MpqError {
    /// A read fell outside the archive's bytes.
    Io,
    /// No valid header at any 512-byte boundary of the file.
    HeaderNotFound,
    /// The hash or block table lies outside the file, the hash table's entry
    /// count is not a power of two, or a hash entry names a block past the end
    /// of the block table.
    CorruptIndex,
    /// The name is not in the hash table.
    NotFound,
    /// The hash table points at a block that is not marked as existing.
    FilePresentButMissing,
    /// An encrypted file was requested by a name with no last path component.
    InvalidName,
    /// The output buffer is smaller than the file.
    BufferTooSmall,
    /// The block uses the multi-algorithm compression, which is not supported.
    UnsupportedCompression,
    /// The PKWare decoder refused a sector.
    ExplodeError,
    /// A compressed file's sector table or sectors do not add up to the file,
    /// or a decoded sector does not fit where it is to be written.
    CorruptSector,
}

} // verus!

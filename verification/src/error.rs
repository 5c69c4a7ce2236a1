use vstd::prelude::*;

verus! {

/// Failure taxonomy shared by the archive readers.
///
/// `CorruptContainer` reports a bad magic/signature, `OutOfBounds` an offset
/// or length beyond the backing buffer, `UnexpectedRecordType` a record tag
/// that differs from the caller's expectation, `DecompressionFailure` a chunk
/// whose decompressed size disagrees with the bundle header,
/// `AlignedBoundaryNotFound` a DAT buffer without a row/heap boundary, and
/// `TableNotFound` a schema lookup with no matching table.
#[derive(Debug, Clone, Copy, PartialEq, Eq, Structural)]
pub enum ArchiveError {
    CorruptContainer,
    OutOfBounds,
    UnexpectedRecordType,
    DecompressionFailure,
    AlignedBoundaryNotFound,
    TableNotFound,
}

} // verus!

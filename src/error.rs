use vstd::prelude::*;

verus! {

/// The ways an operation of the log can fail.
#[derive(Debug, Clone, Copy, PartialEq, Eq, Structural)]
pub enum WalError {
    /// An operation on the underlying file system failed.
    OpenFileFailed,
    /// A directory entry's name is not valid text.
    FileNameCovertFailed,
    /// A segment file name's id portion is not a number that fits in 32 bits.
    ParseIntFailed,
    /// A position names a segment that the log does not hold.
    SegmentFileNotFound,
    /// A chunk's stored checksum, length or type does not match its bytes.
    ChunkCorrupted,
    /// A position's block or offset lies beyond the segment's bytes.
    OutOfRange,
    /// A record is too large to be addressed within one segment.
    RecordTooLarge,
    /// The active segment's id is the largest there is, so the log cannot rotate.
    SegmentIdsExhausted,
}

} // verus!

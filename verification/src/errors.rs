//! Error kinds the journal can report.

use vstd::prelude::*;

verus! {

/// Why an operation on a journal file failed.
///
/// All corruption found while reading is reported through these variants,
/// never by panicking, so a caller can decide whether to stop recovery or
/// skip past the damage.
#[derive(Clone, Copy, Debug, PartialEq, Eq, Structural)]
pub enum FileError {
    /// A fragment payload longer than 65535 bytes was requested; rejected
    /// before anything is written.
    InvalidLength,
    /// An underlying read, write or flush failed.
    IoFailure,
    /// The stored and recomputed checksums of a fragment disagree.
    ChecksumMismatch,
    /// A fragment header or payload extends past the bytes actually
    /// available in its block.
    TruncatedFragment,
    /// The fragment type sequence breaks the framing grammar: a whole
    /// record is either one full fragment, or a first fragment, any number
    /// of middle fragments, and a last fragment.
    ProtocolViolation,
}

} // verus!

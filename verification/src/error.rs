//! The failures of the library.

use vstd::prelude::*;

verus! {

/// Every way in which an operation of this library can fail.
#[derive(Debug, Clone, Copy, PartialEq, Eq, Structural)]
pub enum StoreError {
    /// Identifier text that is not exactly 40 hexadecimal characters.
    InvalidIdentifier,
    /// An envelope whose header is not `<kind> <length>` followed by NUL.
    MalformedHeader,
    /// An envelope that holds fewer payload bytes than its header declares.
    TruncatedOrCorruptObject,
    /// No object is stored under the identifier.
    ObjectNotFound,
    /// The stored bytes are not a complete compressed stream.
    CorruptObject,
    /// The object exists but is of another kind than the operation reads.
    UnexpectedObjectKind,
    /// A tree entry without NUL terminator, without separator, or with a
    /// mode that is not an octal number.
    MalformedTreeEntry,
    /// The tree payload ends before an entry or the declared length does.
    TruncatedTree,
    /// A tree entry reaches beyond the declared length of the payload.
    TrailingTreeBytes,
    /// A directory child whose name is empty or holds NUL or `/`.
    InvalidEntryName,
    /// The compressor reported a failure.
    CompressionFailed,
}

} // verus!

use vstd::prelude::*;

verus! {

/// The failure modes of the storage core: page accessors report
/// `OffsetOverflow` when a field would not fit in the buffer,
/// `Utf8DecodeError` when stored bytes are not a valid string,
/// and the block store reports `FileNotFound` and `OffsetOutOfBound`.
#[derive(Clone, Copy, Debug, PartialEq, Eq, Structural)]
pub enum StorageError {
    OffsetOverflow,
    FileNotFound,
    OffsetOutOfBound,
    Utf8DecodeError,
}

} // verus!

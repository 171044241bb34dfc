use vstd::prelude::*;

verus! {

/// Why an operation of the storage engine was refused.
#[derive(Debug, Clone, Copy, PartialEq, Eq, Structural)]
pub enum StorageError {
    /// A key longer than the key buffer of an index record.
    KeyTooLong { size: usize },
    /// A payload range whose start is not before its end.
    InvalidRange { start: usize, end: usize },
    /// A payload whose end would pass the largest position in a segment.
    PositionOverflow { start: usize, size: usize },
    /// A payload larger than the largest entry allowed.
    EntryTooLarge { size: usize },
    /// A persisted index record whose key is not well formed, with the
    /// number of the index segment and the byte position of the record.
    MalformedRecord { segment: usize, position: usize },
}

} // verus!

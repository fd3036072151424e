//! The errors the stream and the local store report.

use vstd::prelude::*;

verus! {

/// Why a call on a stream failed.
#[derive(Clone, Copy, Debug, PartialEq, Eq, Structural)]
pub enum StreamError {
    /// The stream was closed before or while the call was outstanding.
    StreamAlreadyClosed,
    /// No known range confirms the offsets that a fetch asked for.
    OffsetOutOfRangeBounds,
    /// Something that cannot happen while the stream's rules hold.
    Unexpected,
    /// The metadata service or a range failed; the number is its code.
    Transport(u16),
}

/// Why a call on the local store failed.
#[derive(Clone, Copy, Debug, PartialEq, Eq, Structural)]
pub enum StoreError {
    /// A file could not be read or written as far as needed.
    IO,
    /// A stored value is shorter than its layout.
    DataCorrupted,
    /// A caller handed over a value that breaks a rule of the store.
    Internal,
    /// No node id could be had.
    Configuration,
    /// The store lock is held elsewhere.
    AcquireLock,
}

} // verus!

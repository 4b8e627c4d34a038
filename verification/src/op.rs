//! The operations a store records, and the errors it reports.

use vstd::prelude::*;

verus! {

/// One mutation of a store, as it is queued for the log.
#[derive(Debug, PartialEq, Clone)]
pub enum Op<T, U> {
    /// Associate the key with the value, replacing any earlier value.
    Add(T, U),
    /// Take one value away from a key that may hold several.
    Remove(T, U),
    /// Forget the key altogether.
    Destroy(T),
}

/// What can go wrong in and around a store.
#[derive(Debug, PartialEq, Eq, Clone, Copy, Structural)]
pub enum StoreErr {
    /// The log file could not be created.
    FileCreate,
    /// The log file could not be opened.
    FileOpen,
    /// The channel to the writer is closed.
    Rcv,
    /// An operation could not be turned into a record.
    Encode,
    /// A record could not be written to the log.
    Write,
    /// A value could not be put into the store.
    Insert,
    /// The log could not be positioned.
    Seek,
}

} // verus!

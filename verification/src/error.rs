//! Errors a cache operation can report.

use vstd::prelude::*;

verus! {

/// Why a cache operation failed.
///
/// The eviction engine itself fails only with [`CacheError::CapacityError`],
/// and only when it was built with capacity zero. The remaining variants are
/// reported by the durable wrapper: [`CacheError::IoError`] stands for a
/// failed read or write of the backing file (raised by the embedding program,
/// which owns the file handle), [`CacheError::ParseError`] for a malformed
/// line met while loading a saved cache, and
/// [`CacheError::SerializationError`] for a key or value that the
/// line-oriented text encoding cannot carry.
#[derive(Debug)]
pub enum CacheError {
    IoError(String),
    SerializationError(String),
    CapacityError(String),
    ParseError(String),
}

impl CacheError {
    /// The message the error was built with.
    pub fn message(&self) -> (msg: &String)
        ensures
            *msg == self.spec_message(),
    {
        match self {
            CacheError::IoError(msg) => msg,
            CacheError::SerializationError(msg) => msg,
            CacheError::CapacityError(msg) => msg,
            CacheError::ParseError(msg) => msg,
        }
    }

    /// The message the error was built with.
    pub closed spec fn spec_message(&self) -> String {
        match self {
            CacheError::IoError(msg) => *msg,
            CacheError::SerializationError(msg) => *msg,
            CacheError::CapacityError(msg) => *msg,
            CacheError::ParseError(msg) => *msg,
        }
    }
}

} // verus!

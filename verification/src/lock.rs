//! The lock of a store directory: a file that holds the id of the node that
//! owns the store, four bytes, most significant first.

use crate::error::StoreError;
use crate::wire::{be_i32, i32_be, i32_bytes, lemma_i32_round_trip, read_i32};
use vstd::prelude::*;

verus! {

/// The held lock of a store, with the id of its node.
#[derive(Clone, Copy, Debug, PartialEq, Eq, Structural)]
pub struct Lock {
    pub id: i32,
}

impl Lock {
    /// The id that an existing lock file holds. A file of fewer than four
    /// bytes cannot be read.
    pub fn read_id(content: &[u8]) -> (id: Result<i32, StoreError>)
        ensures
            id == if content@.len() >= 4 {
                Ok::<i32, StoreError>(be_i32(content@.subrange(0, 4)))
            } else {
                Err(StoreError::IO)
            },
    {
        match read_i32(content) {
            Some(id) => Ok(id),
            None => Err(StoreError::IO),
        }
    }

    /// The id for a new lock file, with the bytes to write into it. Without
    /// a generated id the store is not configured.
    pub fn fresh_id(generated: Option<i32>) -> (id: Result<(i32, Vec<u8>), StoreError>)
        ensures
            match generated {
                Some(n) => id matches Ok(pair) && pair.0 == n && pair.1@ == i32_be(n),
                None => id matches Err(e) && e == StoreError::Configuration,
            },
    {
        match generated {
            Some(n) => Ok((n, i32_bytes(n))),
            None => Err(StoreError::Configuration),
        }
    }

    /// The lock for the node `id`, given whether the file lock was taken.
    pub fn new(id: i32, locked: bool) -> (lock: Result<Lock, StoreError>)
        ensures
            lock == if locked {
                Ok::<Lock, StoreError>(Lock { id })
            } else {
                Err(StoreError::AcquireLock)
            },
    {
        if locked {
            Ok(Lock { id })
        } else {
            Err(StoreError::AcquireLock)
        }
    }

    pub fn id(&self) -> (id: i32)
        ensures
            id == self.id,
    {
        self.id
    }
}

/// The bytes written into a new lock file read back as the id they were
/// written for.
pub proof fn lemma_lock_id_round_trip(id: i32)
    ensures
        i32_be(id).len() >= 4,
        be_i32(i32_be(id).subrange(0, 4)) == id,
{
    lemma_i32_round_trip(id);
    assert(i32_be(id).subrange(0, 4) =~= i32_be(id));
}

} // verus!

//! The error taxonomy of the storage engine.

use vstd::prelude::*;

verus! {

/// The stage of a reconstruction at which a failure was detected.
#[derive(Clone, Copy, Debug, PartialEq, Eq, Structural)]
pub enum ReconstructionStep {
    /// No snapshot at or before the requested slot, or the indexed snapshot is absent.
    LoadSnapshot,
    /// A diff is absent, or its base is not the state reached so far.
    LoadDiff,
    /// A diff does not fit the state it is applied to.
    ApplyDiff,
    /// A block needed for replay is absent.
    LoadBlock,
    /// The state transition rejected a block, or produced a state for another slot.
    ApplyBlock,
}

/// Everything that can go wrong in the store.
#[derive(Clone, Copy, Debug, PartialEq, Eq, Structural)]
pub enum StoreError {
    /// The underlying key-value layer refused the operation.
    StorageError,
    /// Stored bytes fail their checksum or cannot be decoded.
    CorruptData,
    /// The key is absent from every tier.
    NotFound,
    /// A snapshot, diff or block needed on the way from `slot` to `target` is
    /// missing or inconsistent; `slot` is the last slot that was reached.
    ReconstructionError { step: ReconstructionStep, slot: u64, target: u64 },
}

impl StoreError {
    /// A stable numeric code per category, for logs and exit statuses.
    pub open spec fn spec_code(self) -> u8 {
        match self {
            StoreError::StorageError => 1,
            StoreError::CorruptData => 2,
            StoreError::NotFound => 3,
            StoreError::ReconstructionError { .. } => 4,
        }
    }

    pub fn code(&self) -> (c: u8)
        ensures
            c == self.spec_code(),
    {
        match self {
            StoreError::StorageError => 1,
            StoreError::CorruptData => 2,
            StoreError::NotFound => 3,
            StoreError::ReconstructionError { .. } => 4,
        }
    }
}

} // verus!

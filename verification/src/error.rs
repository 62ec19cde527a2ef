//! The failures that the node tells apart.

use vstd::prelude::*;

verus! {

/// Why a poll of a feed failed.
#[derive(Clone, Copy, Debug, PartialEq, Eq, Structural)]
pub enum IngestError {
    /// The network failed or timed out; the poll is retried with backoff.
    Transient,
    /// A response came, but not in the expected shape; the poll is retried
    /// after a fixed, longer delay.
    Malformed,
}

/// Why the store refused an operation.
#[derive(Clone, Copy, Debug, PartialEq, Eq, Structural)]
pub enum StorageError {
    /// The persisted records could not be brought to the current schema.
    Migration,
    /// The operation would leave records that contradict each other.
    Consistency,
    /// The persisted store could not be read or written.
    Io,
}

/// A disagreement between the feeds and the store that no retry resolves.
#[derive(Clone, Copy, Debug, PartialEq, Eq, Structural)]
pub enum Inconsistency {
    /// The block feed kept skipping the next height.
    Gap,
    /// Resolving a divergence would discard more blocks than allowed.
    ReorgTooDeep,
    /// The feeds disagree with the store about the genesis block.
    GenesisMismatch,
    /// The block feed contradicts a block that an anchor has confirmed.
    FinalizedConflict,
    /// The block feed offers a block with another state root than the
    /// anchor that waits for its height.
    AnchorMismatch,
}

/// Every failure of the synchronisation, by what the caller does about it.
#[derive(Clone, Copy, Debug, PartialEq, Eq, Structural)]
pub enum SyncError {
    Transient,
    Malformed,
    Inconsistent(Inconsistency),
    StorageFailure(StorageError),
}

impl SyncError {
    /// Whether the process has to halt on this failure.
    pub open spec fn fatal(self) -> bool {
        self is Inconsistent || self is StorageFailure
    }

    /// Whether the process has to halt on this failure rather than retry.
    pub fn is_fatal(&self) -> (r: bool)
        ensures
            r == self.fatal(),
    {
        match self {
            SyncError::Transient => false,
            SyncError::Malformed => false,
            SyncError::Inconsistent(_) => true,
            SyncError::StorageFailure(_) => true,
        }
    }

    /// The failure that a failed poll amounts to.
    pub fn from_ingest(e: IngestError) -> (r: SyncError)
        ensures
            r == match e {
                IngestError::Transient => SyncError::Transient,
                IngestError::Malformed => SyncError::Malformed,
            },
            !r.fatal(),
    {
        match e {
            IngestError::Transient => SyncError::Transient,
            IngestError::Malformed => SyncError::Malformed,
        }
    }
}

} // verus!

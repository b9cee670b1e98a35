//! What can go wrong while indexing.

use vstd::prelude::*;

verus! {

/// The most tokens a document may have: the positions and frequencies of its
/// terms are stored as 32-bit signed integers.
pub const MAX_TOKENS: usize = 2147483647;

/// The store operation that a batch was waiting on.
#[derive(Clone, Copy, Debug, PartialEq, Eq, Structural)]
pub enum Operation {
    /// Fetching the batch of pending documents.
    FetchPending,
    /// Writing one index entry.
    UpsertEntry,
    /// Marking a document as indexed.
    SetStatus,
}

/// Why indexing stopped.
#[derive(Clone, Copy, Debug, PartialEq, Eq, Structural)]
pub enum IndexError {
    /// A document has more than [`MAX_TOKENS`] tokens, so a position or a
    /// frequency would not fit in 32 bits.
    TooManyTokens,
    /// The store reported a failure of the given operation.
    Store(Operation),
    /// The batch driver was handed an event that does not answer the action
    /// it asked for.
    UnexpectedEvent,
}

impl IndexError {
    /// A one-line description that names what failed.
    pub fn message(&self) -> (text: &'static str)
        ensures
            text@ == (match *self {
                IndexError::TooManyTokens => "a document has too many tokens to index"@,
                IndexError::Store(Operation::FetchPending) => "fetching the pending documents failed"@,
                IndexError::Store(Operation::UpsertEntry) => "writing an index entry failed"@,
                IndexError::Store(Operation::SetStatus) => "updating a document's status failed"@,
                IndexError::UnexpectedEvent => "the batch driver was handed an unexpected event"@,
            }),
    {
        match self {
            IndexError::TooManyTokens => "a document has too many tokens to index",
            IndexError::Store(Operation::FetchPending) => "fetching the pending documents failed",
            IndexError::Store(Operation::UpsertEntry) => "writing an index entry failed",
            IndexError::Store(Operation::SetStatus) => "updating a document's status failed",
            IndexError::UnexpectedEvent => "the batch driver was handed an unexpected event",
        }
    }
}

} // verus!

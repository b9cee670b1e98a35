//! The statements by which a relational store serves the three store
//! operations. Their parameters are numbered in the order in which the
//! operation names them.

use vstd::prelude::*;

verus! {

/// Fetches the pending documents. Parameter: the cap on the batch.
/// Columns: id, url, title, content.
pub const SELECT_PENDING_DOCUMENTS: &'static str =
    "SELECT id, url, title, content FROM documents WHERE status = 'pending' LIMIT $1";

/// Upserts an index entry. Parameters: term, document id, frequency,
/// positions.
pub const UPSERT_INDEX_ENTRY: &'static str =
    "INSERT INTO search_index (word, document_id, frequency, positions) \
     VALUES ($1, $2, $3, $4) \
     ON CONFLICT (word, document_id) \
     DO UPDATE SET frequency = EXCLUDED.frequency, positions = EXCLUDED.positions";

/// Overwrites the status of a document. Parameters: status, document id.
pub const UPDATE_DOCUMENT_STATUS: &'static str = "UPDATE documents SET status = $1 WHERE id = $2";

} // verus!

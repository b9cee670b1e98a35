//! Inverted-index building for a document corpus: tokenizing document text,
//! computing per-document term statistics and driving the batch that writes
//! them to an index store.

pub mod batch;
pub mod driver;
pub mod error;
pub mod indexing;
pub mod models;
pub mod select;
pub mod statements;
pub mod stats;
pub mod store;

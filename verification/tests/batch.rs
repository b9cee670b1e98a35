use indexer::batch::run_batch;
use indexer::driver::{Action, BatchDriver, Event};
use indexer::error::{IndexError, Operation};
use indexer::indexing::Tokenizer;
use indexer::models::{Document, Status};
use indexer::stats::aggregate;
use indexer::store::{IndexEntry, MemoryStore};

fn document(id: i32, content: &str) -> Document {
    Document {
        id,
        url: format!("https://example.org/{}", id),
        title: format!("Document {}", id),
        content: content.to_string(),
    }
}

fn entry(term: &str, document_id: i32, frequency: i32, positions: &[i32]) -> IndexEntry {
    IndexEntry { term: term.to_string(), document_id, frequency, positions: positions.to_vec() }
}

fn store_with(documents: Vec<Document>) -> MemoryStore {
    let mut store = MemoryStore::new();
    for document in documents {
        assert!(store.add_document(document));
    }
    store
}

/// Runs a batch against the store and lets the store fail on the upsert of
/// the given term of the given document.
fn run_with_failing_upsert(
    store: &mut MemoryStore,
    limit: u32,
    failing: (&str, i32),
) -> Result<usize, IndexError> {
    let (mut driver, mut action) = BatchDriver::start(limit);
    loop {
        let event = match action {
            Action::FetchPending { limit } => Event::Fetched(store.get_pending_documents(limit)),
            Action::UpsertEntry { term, document_id, frequency, positions } => {
                if term == failing.0 && document_id == failing.1 {
                    Event::Failed
                } else {
                    store.insert_index_entry(&term, document_id, frequency, &positions);
                    Event::EntryWritten
                }
            }
            Action::SetStatus { document_id, status } => {
                store.update_document_status(document_id, status);
                Event::StatusUpdated
            }
            Action::Done { indexed } => return Ok(indexed),
            Action::Abort { error } => return Err(error),
        };
        action = driver.step(event);
    }
}

#[test]
fn single_simple_document() {
    let mut store = store_with(vec![document(1, "The quick brown fox jumps over the quick fox")]);
    assert_eq!(run_batch(&mut store, 100), Ok(1));
    assert_eq!(store.entry("quick", 1), Some(entry("quick", 1, 2, &[1, 7])));
    assert_eq!(store.entry("brown", 1), Some(entry("brown", 1, 1, &[2])));
    assert_eq!(store.entry("jumps", 1), Some(entry("jumps", 1, 1, &[4])));
    assert_eq!(store.entry("over", 1), Some(entry("over", 1, 1, &[5])));
    assert_eq!(store.status(1), Some(Status::Indexed));
}

#[test]
fn three_letter_words_are_indexed_too() {
    let mut store = store_with(vec![document(1, "The quick brown fox jumps over the quick fox")]);
    assert_eq!(run_batch(&mut store, 100), Ok(1));
    assert_eq!(store.entry("the", 1), Some(entry("the", 1, 2, &[0, 6])));
    assert_eq!(store.entry("fox", 1), Some(entry("fox", 1, 2, &[3, 8])));
    assert_eq!(store.entry("The", 1), None);
    assert_eq!(store.entry_count(), 6);
}

#[test]
fn empty_content() {
    let mut store = store_with(vec![document(2, "")]);
    assert_eq!(run_batch(&mut store, 100), Ok(1));
    assert_eq!(store.entry_count(), 0);
    assert_eq!(store.status(2), Some(Status::Indexed));
}

#[test]
fn content_with_only_short_words() {
    let mut store = store_with(vec![document(8, "I am on it, so do go to me: no? ok!")]);
    assert_eq!(run_batch(&mut store, 100), Ok(1));
    assert_eq!(store.entry_count(), 0);
    assert_eq!(store.status(8), Some(Status::Indexed));
}

#[test]
fn content_with_one_repeated_word() {
    let mut store = store_with(vec![document(9, "ant ant ant")]);
    assert_eq!(run_batch(&mut store, 100), Ok(1));
    assert_eq!(store.entry_count(), 1);
    assert_eq!(store.entry("ant", 9), Some(entry("ant", 9, 3, &[0, 1, 2])));
    assert_eq!(store.status(9), Some(Status::Indexed));
}

#[test]
fn unicode_normalization() {
    let mut store = store_with(vec![document(3, "Café café CAFÉ")]);
    assert_eq!(run_batch(&mut store, 100), Ok(1));
    assert_eq!(store.entry_count(), 1);
    assert_eq!(store.entry("café", 3), Some(entry("café", 3, 3, &[0, 1, 2])));
    assert_eq!(store.status(3), Some(Status::Indexed));
}

#[test]
fn reindex_with_identical_content() {
    let content = "The quick brown fox jumps over the quick fox";
    let terms = ["the", "quick", "brown", "fox", "jumps", "over"];
    let mut store = store_with(vec![document(1, content)]);
    assert_eq!(run_batch(&mut store, 100), Ok(1));
    let first: Vec<Option<IndexEntry>> = terms.iter().map(|t| store.entry(t, 1)).collect();
    let count = store.entry_count();

    store.update_document_status(1, Status::Pending);
    assert_eq!(run_batch(&mut store, 100), Ok(1));
    let second: Vec<Option<IndexEntry>> = terms.iter().map(|t| store.entry(t, 1)).collect();

    assert_eq!(first, second);
    assert_eq!(store.entry_count(), count);
    assert_eq!(store.status(1), Some(Status::Indexed));
}

#[test]
fn mixed_batch_with_one_failure() {
    let mut store = store_with(vec![
        document(1, "apple banana"),
        document(2, "cherry damson elder"),
        document(3, "fig grape"),
    ]);
    let outcome = run_with_failing_upsert(&mut store, 100, ("damson", 2));
    assert_eq!(outcome, Err(IndexError::Store(Operation::UpsertEntry)));

    // The first document is fully indexed and marked.
    assert_eq!(store.status(1), Some(Status::Indexed));
    assert_eq!(store.entry("apple", 1), Some(entry("apple", 1, 1, &[0])));
    assert_eq!(store.entry("banana", 1), Some(entry("banana", 1, 1, &[1])));
    // The second is still pending, with the entries written before the failure.
    assert_eq!(store.status(2), Some(Status::Pending));
    assert_eq!(store.entry("cherry", 2), Some(entry("cherry", 2, 1, &[0])));
    assert_eq!(store.entry("damson", 2), None);
    assert_eq!(store.entry("elder", 2), None);
    // The third is untouched.
    assert_eq!(store.status(3), Some(Status::Pending));
    assert_eq!(store.entry("fig", 3), None);
    assert_eq!(store.entry("grape", 3), None);

    // A rerun completes the second and the third.
    assert_eq!(run_batch(&mut store, 100), Ok(2));
    assert_eq!(store.status(2), Some(Status::Indexed));
    assert_eq!(store.status(3), Some(Status::Indexed));
    assert_eq!(store.entry("cherry", 2), Some(entry("cherry", 2, 1, &[0])));
    assert_eq!(store.entry("damson", 2), Some(entry("damson", 2, 1, &[1])));
    assert_eq!(store.entry("elder", 2), Some(entry("elder", 2, 1, &[2])));
    assert_eq!(store.entry("fig", 3), Some(entry("fig", 3, 1, &[0])));
    assert_eq!(store.entry("grape", 3), Some(entry("grape", 3, 1, &[1])));
    assert_eq!(store.entry_count(), 7);
}

#[test]
fn batch_cap() {
    let mut store = MemoryStore::new();
    for id in 1..=250 {
        assert!(store.add_document(document(id, "backlog")));
    }
    assert_eq!(run_batch(&mut store, 100), Ok(100));
    assert_eq!(store.get_pending_documents(1000).len(), 150);
    assert_eq!(store.status(100), Some(Status::Indexed));
    assert_eq!(store.status(101), Some(Status::Pending));

    assert_eq!(run_batch(&mut store, 100), Ok(100));
    assert_eq!(store.get_pending_documents(1000).len(), 50);

    assert_eq!(run_batch(&mut store, 100), Ok(50));
    assert_eq!(store.get_pending_documents(1000).len(), 0);
    assert_eq!(store.entry_count(), 250);

    assert_eq!(run_batch(&mut store, 100), Ok(0));
}

#[test]
fn batch_of_exactly_the_cap_is_drained_by_one_run() {
    let mut store = MemoryStore::new();
    for id in 1..=3 {
        assert!(store.add_document(document(id, "exact")));
    }
    assert_eq!(run_batch(&mut store, 3), Ok(3));
    assert_eq!(store.get_pending_documents(10), vec![]);
}

#[test]
fn a_run_with_cap_zero_indexes_nothing() {
    let mut store = store_with(vec![document(1, "waiting")]);
    assert_eq!(run_batch(&mut store, 0), Ok(0));
    assert_eq!(store.status(1), Some(Status::Pending));
    assert_eq!(store.entry_count(), 0);
}

#[test]
fn indexed_documents_are_not_processed_again() {
    let mut store = store_with(vec![document(1, "old words"), document(2, "new words")]);
    store.update_document_status(1, Status::Indexed);
    store.insert_index_entry("stale", 1, 9, &[4]);

    assert_eq!(run_batch(&mut store, 100), Ok(1));
    assert_eq!(store.status(1), Some(Status::Indexed));
    assert_eq!(store.status(2), Some(Status::Indexed));
    assert_eq!(store.entry("stale", 1), Some(entry("stale", 1, 9, &[4])));
    assert_eq!(store.entry("old", 1), None);
    assert_eq!(store.entry("words", 1), None);
    assert_eq!(store.entry("new", 2), Some(entry("new", 2, 1, &[0])));
    assert_eq!(store.entry("words", 2), Some(entry("words", 2, 1, &[1])));
}

#[test]
fn reindexing_with_fewer_terms_keeps_the_stale_entries() {
    let mut store = store_with(vec![document(1, "alpha beta")]);
    assert_eq!(run_batch(&mut store, 100), Ok(1));

    let mut shrunk = MemoryStore::new();
    shrunk.add_document(document(1, "alpha"));
    shrunk.insert_index_entry("alpha", 1, 1, &[0]);
    shrunk.insert_index_entry("beta", 1, 1, &[1]);
    assert_eq!(run_batch(&mut shrunk, 100), Ok(1));
    assert_eq!(shrunk.entry("alpha", 1), Some(entry("alpha", 1, 1, &[0])));
    assert_eq!(shrunk.entry("beta", 1), Some(entry("beta", 1, 1, &[1])));
}

#[test]
fn every_aggregated_entry_reads_back_after_indexing() {
    let content = "To be, or not to be, that is the question: whether 'tis nobler in the mind \
                   to suffer the slings and arrows of outrageous fortune";
    let mut store = store_with(vec![document(42, content)]);
    assert_eq!(run_batch(&mut store, 100), Ok(1));

    let tokens = Tokenizer::new().tokenize(content);
    let entries = aggregate(&tokens).unwrap();
    assert!(!entries.is_empty());
    assert_eq!(store.entry_count(), entries.len());
    for stats in entries {
        let stored = store.entry(&stats.term, 42).unwrap();
        assert_eq!(stored.frequency, stats.frequency);
        assert_eq!(stored.positions, stats.positions);
    }
}

#[test]
fn a_failure_of_the_first_upsert_leaves_the_store_as_it_was() {
    let mut store = store_with(vec![document(1, "apple banana")]);
    let outcome = run_with_failing_upsert(&mut store, 100, ("apple", 1));
    assert_eq!(outcome, Err(IndexError::Store(Operation::UpsertEntry)));
    assert_eq!(store.entry_count(), 0);
    assert_eq!(store.status(1), Some(Status::Pending));
}

use indexer::driver::{Action, BatchDriver, Event, DEFAULT_BATCH_LIMIT};
use indexer::error::{IndexError, Operation};
use indexer::models::{Document, Status};

fn document(id: i32, content: &str) -> Document {
    Document {
        id,
        url: format!("https://example.org/{}", id),
        title: format!("Document {}", id),
        content: content.to_string(),
    }
}

fn upsert(term: &str, document_id: i32, frequency: i32, positions: &[i32]) -> Action {
    Action::UpsertEntry {
        term: term.to_string(),
        document_id,
        frequency,
        positions: positions.to_vec(),
    }
}

fn mark(document_id: i32) -> Action {
    Action::SetStatus { document_id, status: Status::Indexed }
}

#[test]
fn default_batch_limit_is_one_hundred() {
    assert_eq!(DEFAULT_BATCH_LIMIT, 100);
}

#[test]
fn a_batch_starts_with_the_fetch() {
    let (driver, action) = BatchDriver::start(25);
    assert_eq!(driver.limit(), 25);
    assert_eq!(action, Action::FetchPending { limit: 25 });
}

#[test]
fn an_empty_batch_is_done_at_once() {
    let (mut driver, _) = BatchDriver::start(100);
    assert_eq!(driver.step(Event::Fetched(vec![])), Action::Done { indexed: 0 });
}

#[test]
fn entries_are_written_before_the_status() {
    let (mut driver, _) = BatchDriver::start(100);
    let first = driver.step(Event::Fetched(vec![document(5, "alpha beta alpha")]));
    assert_eq!(first, upsert("alpha", 5, 2, &[0, 2]));
    assert_eq!(driver.step(Event::EntryWritten), upsert("beta", 5, 1, &[1]));
    assert_eq!(driver.step(Event::EntryWritten), mark(5));
    assert_eq!(driver.step(Event::StatusUpdated), Action::Done { indexed: 1 });
}

#[test]
fn documents_are_processed_in_the_order_of_the_fetch() {
    let (mut driver, _) = BatchDriver::start(100);
    let batch = vec![document(3, "gamma"), document(1, "alpha"), document(2, "beta")];
    assert_eq!(driver.step(Event::Fetched(batch)), upsert("gamma", 3, 1, &[0]));
    assert_eq!(driver.step(Event::EntryWritten), mark(3));
    assert_eq!(driver.step(Event::StatusUpdated), upsert("alpha", 1, 1, &[0]));
    assert_eq!(driver.step(Event::EntryWritten), mark(1));
    assert_eq!(driver.step(Event::StatusUpdated), upsert("beta", 2, 1, &[0]));
    assert_eq!(driver.step(Event::EntryWritten), mark(2));
    assert_eq!(driver.step(Event::StatusUpdated), Action::Done { indexed: 3 });
}

#[test]
fn a_document_without_terms_is_marked_at_once() {
    let (mut driver, _) = BatchDriver::start(100);
    let batch = vec![document(2, ""), document(4, "a to of"), document(6, "word")];
    assert_eq!(driver.step(Event::Fetched(batch)), mark(2));
    assert_eq!(driver.step(Event::StatusUpdated), mark(4));
    assert_eq!(driver.step(Event::StatusUpdated), upsert("word", 6, 1, &[0]));
    assert_eq!(driver.step(Event::EntryWritten), mark(6));
    assert_eq!(driver.step(Event::StatusUpdated), Action::Done { indexed: 3 });
}

#[test]
fn the_driver_takes_no_more_documents_than_its_cap() {
    let (mut driver, _) = BatchDriver::start(2);
    let batch = vec![document(1, "one"), document(2, "two"), document(3, "three")];
    assert_eq!(driver.step(Event::Fetched(batch)), upsert("one", 1, 1, &[0]));
    assert_eq!(driver.step(Event::EntryWritten), mark(1));
    assert_eq!(driver.step(Event::StatusUpdated), upsert("two", 2, 1, &[0]));
    assert_eq!(driver.step(Event::EntryWritten), mark(2));
    assert_eq!(driver.step(Event::StatusUpdated), Action::Done { indexed: 2 });
}

#[test]
fn a_failed_fetch_aborts() {
    let (mut driver, _) = BatchDriver::start(100);
    let error = IndexError::Store(Operation::FetchPending);
    assert_eq!(driver.step(Event::Failed), Action::Abort { error });
}

#[test]
fn a_failed_upsert_aborts() {
    let (mut driver, _) = BatchDriver::start(100);
    driver.step(Event::Fetched(vec![document(1, "alpha beta")]));
    let error = IndexError::Store(Operation::UpsertEntry);
    assert_eq!(driver.step(Event::Failed), Action::Abort { error });
}

#[test]
fn a_failed_status_update_aborts() {
    let (mut driver, _) = BatchDriver::start(100);
    driver.step(Event::Fetched(vec![document(1, "alpha")]));
    assert_eq!(driver.step(Event::EntryWritten), mark(1));
    let error = IndexError::Store(Operation::SetStatus);
    assert_eq!(driver.step(Event::Failed), Action::Abort { error });
}

#[test]
fn an_event_that_answers_no_action_aborts() {
    let (mut driver, _) = BatchDriver::start(100);
    let error = IndexError::UnexpectedEvent;
    assert_eq!(driver.step(Event::EntryWritten), Action::Abort { error });

    let (mut driver, _) = BatchDriver::start(100);
    assert_eq!(driver.step(Event::StatusUpdated), Action::Abort { error });

    let (mut driver, _) = BatchDriver::start(100);
    driver.step(Event::Fetched(vec![document(1, "alpha")]));
    assert_eq!(driver.step(Event::StatusUpdated), Action::Abort { error });

    let (mut driver, _) = BatchDriver::start(100);
    driver.step(Event::Fetched(vec![document(1, "alpha")]));
    assert_eq!(driver.step(Event::Fetched(vec![])), Action::Abort { error });

    let (mut driver, _) = BatchDriver::start(100);
    driver.step(Event::Fetched(vec![document(1, "")]));
    assert_eq!(driver.step(Event::EntryWritten), Action::Abort { error });
}

#[test]
fn a_finished_batch_stays_finished() {
    let (mut driver, _) = BatchDriver::start(100);
    assert_eq!(driver.step(Event::Fetched(vec![])), Action::Done { indexed: 0 });
    assert_eq!(driver.step(Event::EntryWritten), Action::Done { indexed: 0 });
    assert_eq!(driver.step(Event::Failed), Action::Done { indexed: 0 });
    assert_eq!(driver.step(Event::Fetched(vec![document(1, "late")])), Action::Done { indexed: 0 });
}

#[test]
fn an_aborted_batch_stays_aborted() {
    let (mut driver, _) = BatchDriver::start(100);
    let error = IndexError::Store(Operation::FetchPending);
    assert_eq!(driver.step(Event::Failed), Action::Abort { error });
    assert_eq!(driver.step(Event::Fetched(vec![document(1, "late")])), Action::Abort { error });
    assert_eq!(driver.step(Event::EntryWritten), Action::Abort { error });
    assert_eq!(driver.step(Event::Failed), Action::Abort { error });
}

#[test]
fn error_messages_name_what_failed() {
    assert_eq!(IndexError::TooManyTokens.message(), "a document has too many tokens to index");
    assert_eq!(
        IndexError::Store(Operation::FetchPending).message(),
        "fetching the pending documents failed"
    );
    assert_eq!(IndexError::Store(Operation::UpsertEntry).message(), "writing an index entry failed");
    assert_eq!(
        IndexError::Store(Operation::SetStatus).message(),
        "updating a document's status failed"
    );
    assert_eq!(
        IndexError::UnexpectedEvent.message(),
        "the batch driver was handed an unexpected event"
    );
}

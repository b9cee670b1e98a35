//! What a batch does to a store, and running a batch against a store in
//! memory.

use crate::driver::{
    begin, capped, indexable, plan_of, proceed, upsert_of, Action, ActionView, BatchDriver,
    DriverState, Event,
};
use crate::error::IndexError;
use crate::indexing::tokens_of;
use crate::models::{DocumentView, Status};
use crate::select::lemma_ascending_equal;
use crate::stats::{
    aggregated_terms_are_distinct, aggregated_terms_are_the_tokens, aggregation_is_sound,
    no_tokens_no_entries, stats_of, TermStatsView,
};
use crate::store::{
    lemma_fetch_pending, lemma_pending_by_position, lemma_status_of_record, pending_positions,
    with_status, MemoryStore, Posting, StoreState,
};
use vstd::prelude::*;

verus! {

/// What the index records for a term with the given statistics.
pub open spec fn posting_of(entry: TermStatsView) -> Posting {
    Posting { frequency: entry.frequency, positions: entry.positions }
}

/// The store after the given entries of a document are upserted, one after
/// the other.
pub open spec fn write_entries(
    store: StoreState,
    document_id: int,
    entries: Seq<TermStatsView>,
) -> StoreState
    decreases entries.len(),
{
    if entries.len() == 0 {
        store
    } else {
        write_entries(store, document_id, entries.drop_last()).upsert(
            entries.last().term,
            document_id,
            posting_of(entries.last()),
        )
    }
}

/// The store after a document is indexed: all of its entries are upserted,
/// then the document is marked as indexed.
pub open spec fn index_document(store: StoreState, document: DocumentView) -> StoreState {
    write_entries(store, document.id, plan_of(document)).set_status(document.id, Status::Indexed)
}

/// The store after the given documents are indexed, one after the other.
pub open spec fn index_documents(store: StoreState, documents: Seq<DocumentView>) -> StoreState
    decreases documents.len(),
{
    if documents.len() == 0 {
        store
    } else {
        index_document(index_documents(store, documents.drop_last()), documents.last())
    }
}

/// The number of documents at the head of `documents` that can be indexed:
/// the position of the first one that cannot, or the number of documents if
/// all of them can.
pub open spec fn indexable_prefix(documents: Seq<DocumentView>) -> int
    decreases documents.len(),
{
    if documents.len() == 0 || !indexable(documents.first()) {
        0
    } else {
        1 + indexable_prefix(documents.drop_first())
    }
}

/// The documents that a batch with the given cap indexes: the pending
/// documents that are fetched, up to the first one that cannot be indexed.
pub open spec fn batch_indexed(store: StoreState, limit: int) -> Seq<DocumentView> {
    let fetched = store.fetch_pending(limit);
    fetched.take(indexable_prefix(fetched))
}

/// The store after a batch with the given cap.
pub open spec fn after_batch(store: StoreState, limit: int) -> StoreState {
    index_documents(store, batch_indexed(store, limit))
}

/// Whether a batch with the given cap indexes every document that it
/// fetches.
pub open spec fn batch_completes(store: StoreState, limit: int) -> bool {
    indexable_prefix(store.fetch_pending(limit)) == store.fetch_pending(limit).len()
}

/// The first `k` documents can be indexed and the next one, if there is
/// one, cannot: then the indexable prefix has length `k`.
pub proof fn lemma_indexable_prefix(documents: Seq<DocumentView>, k: int)
    requires
        0 <= k <= documents.len(),
        forall|j: int| 0 <= j < k ==> indexable(#[trigger] documents[j]),
        k < documents.len() ==> !indexable(documents[k]),
    ensures
        indexable_prefix(documents) == k,
    decreases k,
{
    if k > 0 {
        let rest = documents.drop_first();
        assert forall|j: int| 0 <= j < k - 1 implies indexable(#[trigger] rest[j]) by {
            assert(rest[j] == documents[j + 1]);
        }
        if k - 1 < rest.len() {
            assert(rest[k - 1] == documents[k]);
        }
        lemma_indexable_prefix(rest, k - 1);
    }
}

/// Whether some of `entries` is the entry of `term`.
pub open spec fn names(entries: Seq<TermStatsView>, term: Seq<char>) -> bool {
    exists|k: int| 0 <= k < entries.len() && (#[trigger] entries[k]).term == term
}

/// Whether no two of `entries` are entries of the same term.
pub open spec fn distinct_terms(entries: Seq<TermStatsView>) -> bool {
    forall|j: int, k: int|
        0 <= j < k < entries.len() ==> (#[trigger] entries[j]).term != (#[trigger] entries[k]).term
}

/// The index after a document with the given token stream is indexed: the
/// entry of every term of the document is the term's statistics, and the
/// other entries are as before.
pub open spec fn with_document(
    index: Map<(Seq<char>, int), Posting>,
    document_id: int,
    tokens: Seq<Seq<char>>,
) -> Map<(Seq<char>, int), Posting> {
    Map::new(
        |key: (Seq<char>, int)|
            index.contains_key(key) || (key.1 == document_id && tokens.contains(key.0)),
        |key: (Seq<char>, int)|
            if key.1 == document_id && tokens.contains(key.0) {
                posting_of(stats_of(tokens, key.0))
            } else {
                index[key]
            },
    )
}

/// Writing entries of distinct terms leaves the documents alone, stores
/// each entry under its term and the document's id, and leaves every other
/// index entry as it was.
pub proof fn lemma_write_entries(store: StoreState, document_id: int, entries: Seq<TermStatsView>)
    requires
        distinct_terms(entries),
    ensures
        write_entries(store, document_id, entries).records == store.records,
        forall|key: (Seq<char>, int)|
            #[trigger] write_entries(store, document_id, entries).index.contains_key(key) <==> (
            store.index.contains_key(key) || (key.1 == document_id && names(entries, key.0))),
        forall|key: (Seq<char>, int)|
            !(key.1 == document_id && names(entries, key.0)) ==> #[trigger] write_entries(
                store,
                document_id,
                entries,
            ).index[key] == store.index[key],
        forall|k: int|
            0 <= k < entries.len() ==> write_entries(store, document_id, entries).index[(
                (#[trigger] entries[k]).term,
                document_id,
            )] == posting_of(entries[k]),
    decreases entries.len(),
{
    if entries.len() > 0 {
        let shorter = entries.drop_last();
        let last = entries.last();
        let before = write_entries(store, document_id, shorter);
        let after = write_entries(store, document_id, entries);
        assert forall|j: int, k: int| 0 <= j < k < shorter.len() implies (
        #[trigger] shorter[j]).term != (#[trigger] shorter[k]).term by {
            assert(shorter[j] == entries[j] && shorter[k] == entries[k]);
        }
        lemma_write_entries(store, document_id, shorter);
        assert forall|term: Seq<char>| names(entries, term) <==> (names(shorter, term) || term
            == last.term) by {
            if names(shorter, term) {
                let k = choose|k: int| 0 <= k < shorter.len() && (#[trigger] shorter[k]).term == term;
                assert(entries[k].term == term);
            }
            if term == last.term {
                assert(entries[entries.len() - 1].term == term);
            }
            if names(entries, term) {
                let k = choose|k: int| 0 <= k < entries.len() && (#[trigger] entries[k]).term == term;
                if k < shorter.len() {
                    assert(shorter[k].term == term);
                }
            }
        }
        assert forall|k: int| 0 <= k < entries.len() implies after.index[(
            (#[trigger] entries[k]).term,
            document_id,
        )] == posting_of(entries[k]) by {
            if k < shorter.len() {
                assert(shorter[k] == entries[k]);
                assert(entries[k].term != entries[entries.len() - 1].term);
            }
        }
    }
}

/// The statistics of a document read back from the index as they were
/// computed: after a document is indexed, the entry of each of its terms is
/// the term's frequency and positions in the document's token stream; the
/// other entries are as before, and the document is marked as indexed.
pub proof fn indexed_statistics_read_back(store: StoreState, document: DocumentView)
    ensures
        index_document(store, document).index == with_document(
            store.index,
            document.id,
            tokens_of(document.content),
        ),
        index_document(store, document).records == store.records.map_values(
            with_status(document.id, Status::Indexed),
        ),
{
    let tokens = tokens_of(document.content);
    let plan = plan_of(document);
    aggregated_terms_are_distinct(tokens);
    aggregation_is_sound(tokens);
    lemma_write_entries(store, document.id, plan);
    let written = write_entries(store, document.id, plan);
    assert forall|term: Seq<char>| names(plan, term) <==> tokens.contains(term) by {
        aggregated_terms_are_the_tokens(tokens, term);
    }
    assert forall|key: (Seq<char>, int)|
        key.1 == document.id && tokens.contains(key.0) implies #[trigger] written.index[key]
        == posting_of(stats_of(tokens, key.0)) by {
        let k = choose|k: int| 0 <= k < plan.len() && (#[trigger] plan[k]).term == key.0;
        assert(written.index[(plan[k].term, document.id)] == posting_of(plan[k]));
        assert(key == (plan[k].term, document.id));
    }
    assert(written.index =~= with_document(store.index, document.id, tokens));
}

/// Indexing a document again with the same content changes nothing: the
/// index entries and the statuses are as the first indexing left them.
pub proof fn reindexing_changes_nothing(store: StoreState, document: DocumentView)
    ensures
        index_document(index_document(store, document), document) == index_document(
            store,
            document,
        ),
{
    let once = index_document(store, document);
    let twice = index_document(once, document);
    indexed_statistics_read_back(store, document);
    indexed_statistics_read_back(once, document);
    assert(twice.index =~= once.index);
    assert(twice.records =~= once.records);
}

/// Retrying a document that was partly written is safe: if a run wrote
/// some of the document's entries and was given up before the document was
/// marked, indexing the document afterwards leaves the store as if the
/// document had been indexed in one go.
pub proof fn retrying_a_partly_written_document_is_safe(
    store: StoreState,
    document: DocumentView,
    written: int,
)
    requires
        0 <= written <= plan_of(document).len(),
    ensures
        index_document(
            write_entries(store, document.id, plan_of(document).take(written)),
            document,
        ) == index_document(store, document),
{
    let tokens = tokens_of(document.content);
    let plan = plan_of(document);
    let part = plan.take(written);
    let partly = write_entries(store, document.id, part);
    aggregated_terms_are_distinct(tokens);
    assert forall|j: int, k: int| 0 <= j < k < part.len() implies (#[trigger] part[j]).term != (
    #[trigger] part[k]).term by {
        assert(part[j] == plan[j] && part[k] == plan[k]);
    }
    lemma_write_entries(store, document.id, part);
    assert forall|term: Seq<char>| names(part, term) implies tokens.contains(term) by {
        let k = choose|k: int| 0 <= k < part.len() && (#[trigger] part[k]).term == term;
        assert(plan[k].term == term);
        aggregated_terms_are_the_tokens(tokens, term);
    }
    indexed_statistics_read_back(partly, document);
    indexed_statistics_read_back(store, document);
    assert(index_document(partly, document).index =~= index_document(store, document).index);
}

/// A document without tokens gets no index entries: indexing it changes
/// nothing but its status.
pub proof fn documents_without_tokens_get_no_entries(store: StoreState, document: DocumentView)
    requires
        tokens_of(document.content).len() == 0,
    ensures
        index_document(store, document) == store.set_status(document.id, Status::Indexed),
{
    no_tokens_no_entries(tokens_of(document.content));
}

/// Whether no two of `documents` share an id.
pub open spec fn distinct_ids(documents: Seq<DocumentView>) -> bool {
    forall|j: int, k: int|
        0 <= j < k < documents.len() ==> (#[trigger] documents[j]).id != (
        #[trigger] documents[k]).id
}

/// Whether one of `documents` has the given id.
pub open spec fn among(documents: Seq<DocumentView>, document_id: int) -> bool {
    exists|j: int| 0 <= j < documents.len() && (#[trigger] documents[j]).id == document_id
}

/// Whether one of `documents` has the given id and the given term.
pub open spec fn written_by(documents: Seq<DocumentView>, key: (Seq<char>, int)) -> bool {
    exists|j: int|
        0 <= j < documents.len() && (#[trigger] documents[j]).id == key.1 && tokens_of(
            documents[j].content,
        ).contains(key.0)
}

/// Indexing documents changes no document and no status but that of the
/// documents that are indexed, which become indexed.
pub proof fn lemma_index_documents_records(store: StoreState, documents: Seq<DocumentView>)
    ensures
        index_documents(store, documents).records.len() == store.records.len(),
        forall|i: int|
            0 <= i < store.records.len() ==> {
                let record = #[trigger] index_documents(store, documents).records[i];
                &&& record.document == store.records[i].document
                &&& record.status == if among(documents, store.records[i].document.id) {
                    Status::Indexed
                } else {
                    store.records[i].status
                }
            },
    decreases documents.len(),
{
    if documents.len() > 0 {
        let shorter = documents.drop_last();
        let last = documents.last();
        let before = index_documents(store, shorter);
        lemma_index_documents_records(store, shorter);
        indexed_statistics_read_back(before, last);
        assert forall|id: int| among(documents, id) <==> (among(shorter, id) || last.id == id) by {
            if among(shorter, id) {
                let j = choose|j: int| 0 <= j < shorter.len() && (#[trigger] shorter[j]).id == id;
                assert(documents[j].id == id);
            }
            if last.id == id {
                assert(documents[documents.len() - 1].id == id);
            }
            if among(documents, id) {
                let j = choose|j: int|
                    0 <= j < documents.len() && (#[trigger] documents[j]).id == id;
                if j < shorter.len() {
                    assert(shorter[j].id == id);
                }
            }
        }
        assert forall|i: int| 0 <= i < store.records.len() implies {
            let record = #[trigger] index_documents(store, documents).records[i];
            &&& record.document == store.records[i].document
            &&& record.status == if among(documents, store.records[i].document.id) {
                Status::Indexed
            } else {
                store.records[i].status
            }
        } by {
            assert(before.records[i].document == store.records[i].document);
        }
    }
}

/// Indexing documents leaves every index entry as it was that is not the
/// entry of a term of one of the documents.
pub proof fn lemma_index_documents_untouched(
    store: StoreState,
    documents: Seq<DocumentView>,
    key: (Seq<char>, int),
)
    requires
        !written_by(documents, key),
    ensures
        index_documents(store, documents).index.contains_key(key) == store.index.contains_key(key),
        store.index.contains_key(key) ==> index_documents(store, documents).index[key]
            == store.index[key],
    decreases documents.len(),
{
    if documents.len() > 0 {
        let shorter = documents.drop_last();
        let last = documents.last();
        let before = index_documents(store, shorter);
        if written_by(shorter, key) {
            let j = choose|j: int|
                0 <= j < shorter.len() && (#[trigger] shorter[j]).id == key.1 && tokens_of(
                    shorter[j].content,
                ).contains(key.0);
            assert(documents[j] == shorter[j]);
        }
        lemma_index_documents_untouched(store, shorter, key);
        indexed_statistics_read_back(before, last);
        assert(documents[documents.len() - 1] == last);
    }
}

/// Indexing documents with distinct ids stores the statistics of every
/// term of every one of them.
pub proof fn lemma_index_documents_entry(
    store: StoreState,
    documents: Seq<DocumentView>,
    j: int,
    term: Seq<char>,
)
    requires
        distinct_ids(documents),
        0 <= j < documents.len(),
        tokens_of(documents[j].content).contains(term),
    ensures
        index_documents(store, documents).index.contains_key((term, documents[j].id)),
        index_documents(store, documents).index[(term, documents[j].id)] == posting_of(
            stats_of(tokens_of(documents[j].content), term),
        ),
    decreases documents.len(),
{
    let shorter = documents.drop_last();
    let last = documents.last();
    let before = index_documents(store, shorter);
    indexed_statistics_read_back(before, last);
    if j < documents.len() - 1 {
        assert forall|a: int, b: int| 0 <= a < b < shorter.len() implies (#[trigger] shorter[a]).id
            != (#[trigger] shorter[b]).id by {
            assert(shorter[a] == documents[a] && shorter[b] == documents[b]);
        }
        assert(shorter[j] == documents[j]);
        lemma_index_documents_entry(store, shorter, j, term);
        assert(documents[j].id != documents[documents.len() - 1].id);
    }
}

/// The indexable prefix of a sequence of documents is a prefix of it.
pub proof fn lemma_indexable_prefix_bounds(documents: Seq<DocumentView>)
    ensures
        0 <= indexable_prefix(documents) <= documents.len(),
    decreases documents.len(),
{
    if documents.len() > 0 && indexable(documents.first()) {
        lemma_indexable_prefix_bounds(documents.drop_first());
    }
}

/// The documents that a batch indexes are the first of the pending
/// documents, no more than the cap, each of them pending in the store, and
/// no two of them with the same id.
pub proof fn lemma_batch_indexed(store: StoreState, limit: int)
    requires
        store.unique_ids(),
    ensures
        batch_indexed(store, limit).len() <= store.fetch_pending(limit).len()
            <= store.pending().len(),
        0 <= limit ==> batch_indexed(store, limit).len() <= limit,
        batch_indexed(store, limit) == store.pending().take(
            batch_indexed(store, limit).len() as int,
        ),
        distinct_ids(batch_indexed(store, limit)),
        forall|j: int|
            0 <= j < batch_indexed(store, limit).len() ==> {
                let at = #[trigger] pending_positions(store.records)[j];
                &&& 0 <= at < store.records.len()
                &&& store.records[at].status == Status::Pending
                &&& store.records[at].document == batch_indexed(store, limit)[j]
            },
{
    let fetched = store.fetch_pending(limit);
    let batch = batch_indexed(store, limit);
    lemma_fetch_pending(store, limit);
    lemma_pending_by_position(store);
    lemma_indexable_prefix_bounds(fetched);
    assert(batch =~= store.pending().take(batch.len() as int));
    assert forall|j: int, k: int| 0 <= j < k < batch.len() implies (#[trigger] batch[j]).id != (
    #[trigger] batch[k]).id by {
        assert(batch[j] == store.pending()[j] && batch[k] == store.pending()[k]);
    }
}

/// A document that is indexed when a batch starts is not processed again:
/// it is not among the documents that the batch indexes, and the batch
/// leaves its record and its index entries as they were.
pub proof fn indexed_documents_are_not_reprocessed(
    store: StoreState,
    limit: int,
    i: int,
    term: Seq<char>,
)
    requires
        store.unique_ids(),
        0 <= i < store.records.len(),
        store.records[i].status == Status::Indexed,
    ensures
        !among(batch_indexed(store, limit), store.records[i].document.id),
        after_batch(store, limit).records[i] == store.records[i],
        after_batch(store, limit).index.contains_key((term, store.records[i].document.id))
            == store.index.contains_key((term, store.records[i].document.id)),
        store.index.contains_key((term, store.records[i].document.id)) ==> after_batch(
            store,
            limit,
        ).index[(term, store.records[i].document.id)] == store.index[(
            term,
            store.records[i].document.id,
        )],
{
    let batch = batch_indexed(store, limit);
    let id = store.records[i].document.id;
    lemma_batch_indexed(store, limit);
    assert forall|j: int| 0 <= j < batch.len() implies (#[trigger] batch[j]).id != id by {
        let at = pending_positions(store.records)[j];
        assert(at != i);
    }
    assert(!written_by(batch, (term, id)));
    lemma_index_documents_records(store, batch);
    lemma_index_documents_untouched(store, batch, (term, id));
}

/// A document that a batch processes was pending and ends the batch as
/// indexed, and when it is marked, the index holds the statistics of each
/// of its terms.
pub proof fn processed_documents_are_indexed(
    store: StoreState,
    limit: int,
    j: int,
    term: Seq<char>,
)
    requires
        store.unique_ids(),
        0 <= j < batch_indexed(store, limit).len(),
    ensures
        store.status_of(batch_indexed(store, limit)[j].id) == Some(Status::Pending),
        after_batch(store, limit).status_of(batch_indexed(store, limit)[j].id) == Some(
            Status::Indexed,
        ),
        tokens_of(batch_indexed(store, limit)[j].content).contains(term) ==> {
            let document = batch_indexed(store, limit)[j];
            &&& after_batch(store, limit).index.contains_key((term, document.id))
            &&& after_batch(store, limit).index[(term, document.id)] == posting_of(
                stats_of(tokens_of(document.content), term),
            )
        },
{
    let batch = batch_indexed(store, limit);
    let after = after_batch(store, limit);
    lemma_batch_indexed(store, limit);
    let at = pending_positions(store.records)[j];
    lemma_status_of_record(store, at);
    lemma_index_documents_records(store, batch);
    assert(after.unique_ids()) by {
        assert forall|a: int, b: int| 0 <= a < b < after.records.len() implies after.records[a].document.id
            != after.records[b].document.id by {
            assert(after.records[a].document == store.records[a].document);
            assert(after.records[b].document == store.records[b].document);
        }
    }
    assert(among(batch, store.records[at].document.id)) by {
        assert(batch[j].id == store.records[at].document.id);
    }
    assert(after.records[at].status == Status::Indexed);
    lemma_status_of_record(after, at);
    if tokens_of(batch[j].content).contains(term) {
        lemma_index_documents_entry(store, batch, j, term);
    }
}

/// A batch indexes no more documents than its cap.
pub proof fn a_batch_is_capped(store: StoreState, limit: int)
    requires
        0 <= limit,
    ensures
        batch_indexed(store, limit).len() <= store.fetch_pending(limit).len() <= limit,
{
    lemma_indexable_prefix_bounds(store.fetch_pending(limit));
}

/// A batch takes the documents that it indexes off the pending documents
/// and leaves the others pending, in their order. So a backlog of more
/// pending documents than the cap is not drained by one batch.
pub proof fn a_batch_drains_what_it_indexes(store: StoreState, limit: int)
    requires
        store.unique_ids(),
    ensures
        after_batch(store, limit).pending() == store.pending().skip(
            batch_indexed(store, limit).len() as int,
        ),
        0 <= limit < store.pending().len() ==> after_batch(store, limit).pending().len() > 0,
{
    let batch = batch_indexed(store, limit);
    let after = after_batch(store, limit);
    let done = batch.len() as int;
    let before_positions = pending_positions(store.records);
    let after_positions = pending_positions(after.records);
    lemma_batch_indexed(store, limit);
    lemma_pending_by_position(store);
    lemma_pending_by_position(after);
    lemma_index_documents_records(store, batch);
    let rest = before_positions.skip(done);
    assert forall|x: int| after_positions.contains(x) <==> rest.contains(x) by {
        if after_positions.contains(x) {
            let k = choose|k: int| 0 <= k < after_positions.len() && after_positions[k] == x;
            assert(after.records[x].status == Status::Pending);
            assert(!among(batch, store.records[x].document.id));
            assert(before_positions.contains(x));
            let m = choose|m: int| 0 <= m < before_positions.len() && before_positions[m] == x;
            if m < done {
                assert(batch[m].id == store.records[x].document.id);
            }
            assert(rest[m - done] == x);
        }
        if rest.contains(x) {
            let k = choose|k: int| 0 <= k < rest.len() && rest[k] == x;
            assert(before_positions[k + done] == x);
            if among(batch, store.records[x].document.id) {
                let j = choose|j: int|
                    0 <= j < batch.len() && (#[trigger] batch[j]).id
                        == store.records[x].document.id;
                let at = before_positions[j];
                assert(at < x);
            }
            assert(after.records[x].status == Status::Pending);
        }
    }
    lemma_ascending_equal(after_positions, rest);
    assert(after.pending() =~= store.pending().skip(done)) by {
        assert forall|k: int| 0 <= k < after.pending().len() implies after.pending()[k]
            == store.pending().skip(done)[k] by {
            let at = after_positions[k];
            assert(at == before_positions[k + done]);
            assert(after.records[at].document == store.records[at].document);
        }
    }
}

/// Whether a driver in the given state, asking for the given action, and a
/// store agree with a batch that started from the store `start`: the driver
/// works on the documents that were pending in `start`, and the store holds
/// what has been written up to the pending action.
spec fn on_track(
    start: StoreState,
    limit: int,
    state: DriverState,
    action: ActionView,
    store: StoreState,
) -> bool {
    let batch = start.fetch_pending(limit);
    match state {
        DriverState::Fetching => action == (ActionView::FetchPending { limit }) && store == start,
        DriverState::Writing { batch: working, current, written } => {
            &&& working == batch
            &&& 0 <= current < batch.len()
            &&& forall|j: int| 0 <= j <= current ==> indexable(#[trigger] batch[j])
            &&& 0 <= written < plan_of(batch[current]).len()
            &&& action == upsert_of(batch[current], plan_of(batch[current])[written])
            &&& store == write_entries(
                index_documents(start, batch.take(current)),
                batch[current].id,
                plan_of(batch[current]).take(written),
            )
        },
        DriverState::Marking { batch: working, current } => {
            &&& working == batch
            &&& 0 <= current < batch.len()
            &&& forall|j: int| 0 <= j <= current ==> indexable(#[trigger] batch[j])
            &&& action == (ActionView::SetStatus {
                document_id: batch[current].id,
                status: Status::Indexed,
            })
            &&& store == write_entries(
                index_documents(start, batch.take(current)),
                batch[current].id,
                plan_of(batch[current]),
            )
        },
        DriverState::Finished { indexed } => {
            &&& indexed == batch.len()
            &&& batch_completes(start, limit)
            &&& action == (ActionView::Done { indexed })
            &&& store == after_batch(start, limit)
        },
        DriverState::Aborted { error } => {
            &&& error == IndexError::TooManyTokens
            &&& !batch_completes(start, limit)
            &&& action == (ActionView::Abort { error })
            &&& store == after_batch(start, limit)
        },
    }
}

/// How far a state is from the end of its batch, for the termination of
/// [`run_batch`]: whether the fetch is outstanding, the documents that are
/// not yet marked, and the entries of the current document that are not yet
/// accepted.
spec fn distance(state: DriverState) -> (int, int, int) {
    match state {
        DriverState::Fetching => (1, 0, 0),
        DriverState::Writing { batch, current, written } => (
            0,
            batch.len() - current,
            plan_of(batch[current]).len() - written,
        ),
        DriverState::Marking { batch, current } => (0, batch.len() - current, 0),
        _ => (0, 0, 0),
    }
}

/// Continuing a document keeps the batch on track.
proof fn lemma_proceed_on_track(
    start: StoreState,
    limit: int,
    current: int,
    written: int,
    store: StoreState,
)
    requires
        0 <= current < start.fetch_pending(limit).len(),
        forall|j: int| 0 <= j <= current ==> indexable(#[trigger] start.fetch_pending(limit)[j]),
        0 <= written <= plan_of(start.fetch_pending(limit)[current]).len(),
        store == write_entries(
            index_documents(start, start.fetch_pending(limit).take(current)),
            start.fetch_pending(limit)[current].id,
            plan_of(start.fetch_pending(limit)[current]).take(written),
        ),
    ensures
        on_track(
            start,
            limit,
            proceed(start.fetch_pending(limit), current, written).0,
            proceed(start.fetch_pending(limit), current, written).1,
            store,
        ),
{
    let batch = start.fetch_pending(limit);
    let plan = plan_of(batch[current]);
    if written == plan.len() {
        assert(plan.take(written) =~= plan);
    }
}

/// Reaching the next document keeps the batch on track.
proof fn lemma_begin_on_track(start: StoreState, limit: int, current: int, store: StoreState)
    requires
        0 <= current <= start.fetch_pending(limit).len(),
        forall|j: int| 0 <= j < current ==> indexable(#[trigger] start.fetch_pending(limit)[j]),
        store == index_documents(start, start.fetch_pending(limit).take(current)),
    ensures
        on_track(
            start,
            limit,
            begin(start.fetch_pending(limit), current).0,
            begin(start.fetch_pending(limit), current).1,
            store,
        ),
{
    let batch = start.fetch_pending(limit);
    if current >= batch.len() {
        lemma_indexable_prefix(batch, current);
        assert(batch.take(current) =~= batch);
    } else if !indexable(batch[current]) {
        lemma_indexable_prefix(batch, current);
    } else {
        let plan = plan_of(batch[current]);
        assert(plan.take(0) =~= Seq::<TermStatsView>::empty());
        lemma_proceed_on_track(start, limit, current, 0, store);
    }
}

/// Runs one batch of at most `limit` documents against a store in memory:
/// fetches the pending documents and indexes them one after the other.
///
/// Returns the number of documents that were indexed. The run stops with
/// [`IndexError::TooManyTokens`] at the first document with too many
/// tokens; the documents before it are indexed, that document and those
/// after it are left as they were.
pub fn run_batch(store: &mut MemoryStore, limit: u32) -> (outcome: Result<usize, IndexError>)
    requires
        old(store).wf(),
    ensures
        final(store).wf(),
        final(store)@ == after_batch(old(store)@, limit as int),
        match outcome {
            Ok(indexed) => batch_completes(old(store)@, limit as int) && indexed == old(
                store,
            )@.fetch_pending(limit as int).len(),
            Err(error) => !batch_completes(old(store)@, limit as int) && error
                == IndexError::TooManyTokens,
        },
{
    let ghost start = store@;
    let ghost batch = start.fetch_pending(limit as int);
    let (mut driver, mut action) = BatchDriver::start(limit);
    loop
        invariant
            store.wf(),
            driver.wf(),
            driver.limit() == limit,
            start == old(store)@,
            batch == start.fetch_pending(limit as int),
            on_track(start, limit as int, driver@, action@, store@),
        decreases distance(driver@).0, distance(driver@).1, distance(driver@).2,
    {
        let ghost state = driver@;
        let event = match action {
            Action::FetchPending { limit: cap } => Event::Fetched(store.get_pending_documents(cap)),
            Action::UpsertEntry { term, document_id, frequency, positions } => {
                store.insert_index_entry(
                    term.as_str(),
                    document_id,
                    frequency,
                    positions.as_slice(),
                );
                Event::EntryWritten
            },
            Action::SetStatus { document_id, status } => {
                store.update_document_status(document_id, status);
                Event::StatusUpdated
            },
            Action::Done { indexed } => {
                return Ok(indexed);
            },
            Action::Abort { error } => {
                return Err(error);
            },
        };
        action = driver.step(event);
        proof {
            match state {
                DriverState::Fetching => {
                    assert(capped(batch, limit as int) == batch);
                    assert(batch.take(0) =~= Seq::<DocumentView>::empty());
                    lemma_begin_on_track(start, limit as int, 0, store@);
                },
                DriverState::Writing { batch: _, current, written } => {
                    let plan = plan_of(batch[current]);
                    assert(plan.take(written + 1).drop_last() =~= plan.take(written));
                    lemma_proceed_on_track(start, limit as int, current, written + 1, store@);
                },
                DriverState::Marking { batch: _, current } => {
                    assert(batch.take(current + 1).drop_last() =~= batch.take(current));
                    lemma_begin_on_track(start, limit as int, current + 1, store@);
                },
                _ => {},
            }
        }
    }
}

} // verus!

//! The document and index store that a batch works against.
//!
//! [`StoreState`] is the mathematical model of such a store: the documents
//! with their status, and the index as a map from `(term, document id)` to
//! the term's frequency and positions. The three operations of a store are
//! spec functions on it. [`MemoryStore`] keeps a store in memory and
//! implements the operations against that model.

use crate::models::{Document, DocumentView, Status};
use crate::select::{
    lemma_filter_by_position, lemma_selected, passes_at, positions_up_to, strictly_ascending,
};
use crate::stats::as_ints;
use vstd::prelude::*;

verus! {

/// What the index records for one term in one document.
pub struct Posting {
    pub frequency: int,
    pub positions: Seq<int>,
}

/// A document together with its status.
pub struct Record {
    pub document: DocumentView,
    pub status: Status,
}

/// The state of a store.
pub struct StoreState {
    /// The documents, in the order in which the store hands them out.
    pub records: Seq<Record>,
    /// The index entries, keyed by term and document id.
    pub index: Map<(Seq<char>, int), Posting>,
}

/// The test whether a record is pending.
pub open spec fn is_pending() -> spec_fn(Record) -> bool {
    |record: Record| record.status == Status::Pending
}

/// The document of a record.
pub open spec fn document_of() -> spec_fn(Record) -> DocumentView {
    |record: Record| record.document
}

/// Gives the records of one document id a new status.
pub open spec fn with_status(document_id: int, status: Status) -> spec_fn(Record) -> Record {
    |record: Record|
        if record.document.id == document_id {
            Record { document: record.document, status }
        } else {
            record
        }
}

impl StoreState {
    /// The pending documents, in store order.
    pub open spec fn pending(self) -> Seq<DocumentView> {
        self.records.filter(is_pending()).map_values(document_of())
    }

    /// The batch that a fetch with the given cap hands out: the first
    /// `limit` pending documents, or all of them if there are fewer.
    pub open spec fn fetch_pending(self, limit: int) -> Seq<DocumentView> {
        if 0 <= limit < self.pending().len() {
            self.pending().take(limit)
        } else {
            self.pending()
        }
    }

    /// The store after an upsert: the entry of `(term, document_id)` is
    /// `posting`, whether or not there was one before; nothing else changes.
    pub open spec fn upsert(self, term: Seq<char>, document_id: int, posting: Posting) -> StoreState {
        StoreState { records: self.records, index: self.index.insert((term, document_id), posting) }
    }

    /// The store after a status update: the document with the given id has
    /// the given status; nothing else changes.
    pub open spec fn set_status(self, document_id: int, status: Status) -> StoreState {
        StoreState {
            records: self.records.map_values(with_status(document_id, status)),
            index: self.index,
        }
    }

    /// Whether the store holds a document with the given id.
    pub open spec fn has_document(self, document_id: int) -> bool {
        exists|i: int| 0 <= i < self.records.len() && self.records[i].document.id == document_id
    }

    /// The status of the document with the given id, if the store holds it.
    pub open spec fn status_of(self, document_id: int) -> Option<Status> {
        if self.has_document(document_id) {
            let i = choose|i: int|
                0 <= i < self.records.len() && self.records[i].document.id == document_id;
            Some(self.records[i].status)
        } else {
            None
        }
    }

    /// Whether no two documents share an id.
    pub open spec fn unique_ids(self) -> bool {
        forall|i: int, j: int|
            0 <= i < j < self.records.len() ==> self.records[i].document.id
                != self.records[j].document.id
    }
}

/// The positions of the pending documents among the records, ascending.
pub open spec fn pending_positions(records: Seq<Record>) -> Seq<int> {
    positions_up_to(records.len() as int).filter(passes_at(records, is_pending()))
}

/// The pending documents are the documents at the pending positions, in
/// the order of the positions.
pub proof fn lemma_pending_by_position(store: StoreState)
    ensures
        store.pending().len() == pending_positions(store.records).len(),
        strictly_ascending(pending_positions(store.records)),
        forall|k: int|
            0 <= k < store.pending().len() ==> {
                let at = #[trigger] pending_positions(store.records)[k];
                &&& 0 <= at < store.records.len()
                &&& store.records[at].status == Status::Pending
                &&& store.pending()[k] == store.records[at].document
            },
        forall|at: int|
            0 <= at < store.records.len() && store.records[at].status == Status::Pending
                ==> pending_positions(store.records).contains(at),
{
    let records = store.records;
    let n = records.len() as int;
    assert(records.take(n) =~= records);
    lemma_filter_by_position(records, is_pending(), n);
    lemma_selected(passes_at(records, is_pending()), n);
    assert forall|at: int|
        0 <= at < records.len() && records[at].status == Status::Pending implies pending_positions(
        records,
    ).contains(at) by {
        assert(passes_at(records, is_pending())(at));
    }
}

/// In a store with unique ids, the status of a document is the status of
/// its record.
pub proof fn lemma_status_of_record(store: StoreState, i: int)
    requires
        store.unique_ids(),
        0 <= i < store.records.len(),
    ensures
        store.has_document(store.records[i].document.id),
        store.status_of(store.records[i].document.id) == Some(store.records[i].status),
{
    let id = store.records[i].document.id;
    let k = choose|k: int| 0 <= k < store.records.len() && store.records[k].document.id == id;
    assert(k == i);
}

/// The pending documents of a store with unique ids have distinct ids, and
/// a fetch hands out the first of them, no more than its cap.
pub proof fn lemma_fetch_pending(store: StoreState, limit: int)
    requires
        store.unique_ids(),
    ensures
        store.fetch_pending(limit).len() <= store.pending().len(),
        0 <= limit ==> store.fetch_pending(limit).len() <= limit,
        store.fetch_pending(limit) == store.pending().take(store.fetch_pending(limit).len() as int),
        forall|j: int, k: int|
            0 <= j < k < store.pending().len() ==> (#[trigger] store.pending()[j]).id != (
            #[trigger] store.pending()[k]).id,
{
    lemma_pending_by_position(store);
    let pending = store.pending();
    let positions = pending_positions(store.records);
    assert(pending.take(pending.len() as int) =~= pending);
    assert forall|j: int, k: int| 0 <= j < k < pending.len() implies (#[trigger] pending[j]).id != (
    #[trigger] pending[k]).id by {
        assert(positions[j] < positions[k]);
    }
}

/// Upserts are idempotent: a second upsert with the same arguments leaves
/// the store as the first one left it.
pub proof fn upsert_is_idempotent(
    store: StoreState,
    term: Seq<char>,
    document_id: int,
    posting: Posting,
)
    ensures
        store.upsert(term, document_id, posting).upsert(term, document_id, posting) == store.upsert(
            term,
            document_id,
            posting,
        ),
{
    let once = store.upsert(term, document_id, posting);
    assert(once.upsert(term, document_id, posting).index =~= once.index);
}

/// An upsert adds one entry to the index where the key is new, and none
/// where the key is known.
pub proof fn upsert_counts_entries(
    store: StoreState,
    term: Seq<char>,
    document_id: int,
    posting: Posting,
)
    requires
        store.index.dom().finite(),
    ensures
        store.upsert(term, document_id, posting).index.dom().finite(),
        store.upsert(term, document_id, posting).index.dom().len() == store.index.dom().len() + (
        if store.index.contains_key((term, document_id)) {
            0int
        } else {
            1int
        }),
{
    let key = (term, document_id);
    assert(store.upsert(term, document_id, posting).index.dom() =~= store.index.dom().insert(key));
}

/// An upsert overwrites: whatever the index held for the key, afterwards it
/// holds the posting that was written, and every other entry is as before.
pub proof fn upsert_overwrites(
    store: StoreState,
    term: Seq<char>,
    document_id: int,
    posting: Posting,
    other: (Seq<char>, int),
)
    requires
        other != (term, document_id),
    ensures
        store.upsert(term, document_id, posting).index.contains_key((term, document_id)),
        store.upsert(term, document_id, posting).index[(term, document_id)] == posting,
        store.upsert(term, document_id, posting).index.contains_key(other)
            == store.index.contains_key(other),
        store.upsert(term, document_id, posting).index[other] == store.index[other],
        store.upsert(term, document_id, posting).records == store.records,
{
}

/// One entry of the index.
#[derive(Clone, Debug, PartialEq, Eq)]
pub struct IndexEntry {
    /// The term.
    pub term: String,
    /// The document in which the term occurs.
    pub document_id: i32,
    /// How often the term occurs in the document.
    pub frequency: i32,
    /// The positions of the term in the document's token stream.
    pub positions: Vec<i32>,
}

impl IndexEntry {
    /// The key under which the entry is stored.
    pub open spec fn key(self) -> (Seq<char>, int) {
        (self.term@, self.document_id as int)
    }

    /// What the entry records.
    pub open spec fn posting(self) -> Posting {
        Posting { frequency: self.frequency as int, positions: as_ints(self.positions@) }
    }
}

/// Whether no two entries share a key.
pub open spec fn unique_keys(entries: Seq<IndexEntry>) -> bool {
    forall|i: int, j: int| 0 <= i < j < entries.len() ==> entries[i].key() != entries[j].key()
}

/// Whether some entry has the given key.
pub open spec fn has_key(entries: Seq<IndexEntry>, key: (Seq<char>, int)) -> bool {
    exists|i: int| 0 <= i < entries.len() && entries[i].key() == key
}

/// The index that a sequence of entries with unique keys stands for.
pub open spec fn index_of(entries: Seq<IndexEntry>) -> Map<(Seq<char>, int), Posting> {
    Map::new(
        |key: (Seq<char>, int)| has_key(entries, key),
        |key: (Seq<char>, int)|
            entries[choose|i: int| 0 <= i < entries.len() && entries[i].key() == key].posting(),
    )
}

/// With unique keys, the index maps the key of each entry to that entry's
/// posting.
pub proof fn lemma_index_of_entry(entries: Seq<IndexEntry>, i: int)
    requires
        unique_keys(entries),
        0 <= i < entries.len(),
    ensures
        index_of(entries).contains_key(entries[i].key()),
        index_of(entries)[entries[i].key()] == entries[i].posting(),
{
    let key = entries[i].key();
    assert(has_key(entries, key));
    let j = choose|j: int| 0 <= j < entries.len() && entries[j].key() == key;
    assert(j == i);
}

/// Appending an entry with a new key adds that key to the index.
pub proof fn lemma_index_of_push(entries: Seq<IndexEntry>, entry: IndexEntry)
    requires
        unique_keys(entries),
        !has_key(entries, entry.key()),
    ensures
        unique_keys(entries.push(entry)),
        index_of(entries.push(entry)) == index_of(entries).insert(entry.key(), entry.posting()),
{
    let longer = entries.push(entry);
    assert forall|i: int, j: int| 0 <= i < j < longer.len() implies longer[i].key()
        != longer[j].key() by {
        if j == entries.len() {
            assert(entries[i].key() == longer[i].key());
        }
    }
    assert forall|key: (Seq<char>, int)| has_key(longer, key) <==> (has_key(entries, key) || key
        == entry.key()) by {
        if has_key(entries, key) {
            let i = choose|i: int| 0 <= i < entries.len() && entries[i].key() == key;
            assert(longer[i].key() == key);
        }
        if key == entry.key() {
            assert(longer[entries.len() as int].key() == key);
        }
        if has_key(longer, key) {
            let i = choose|i: int| 0 <= i < longer.len() && longer[i].key() == key;
            if i < entries.len() {
                assert(entries[i].key() == key);
            }
        }
    }
    assert forall|key: (Seq<char>, int)| has_key(longer, key) implies index_of(longer)[key]
        == index_of(entries).insert(entry.key(), entry.posting())[key] by {
        let i = choose|i: int| 0 <= i < longer.len() && longer[i].key() == key;
        lemma_index_of_entry(longer, i);
        if i < entries.len() {
            lemma_index_of_entry(entries, i);
        }
    }
    assert(index_of(longer) =~= index_of(entries).insert(entry.key(), entry.posting()));
}

/// Replacing an entry by one with the same key replaces its posting in the
/// index.
pub proof fn lemma_index_of_update(entries: Seq<IndexEntry>, at: int, entry: IndexEntry)
    requires
        unique_keys(entries),
        0 <= at < entries.len(),
        entries[at].key() == entry.key(),
    ensures
        unique_keys(entries.update(at, entry)),
        index_of(entries.update(at, entry)) == index_of(entries).insert(
            entry.key(),
            entry.posting(),
        ),
{
    let changed = entries.update(at, entry);
    assert forall|i: int, j: int| 0 <= i < j < changed.len() implies changed[i].key()
        != changed[j].key() by {
        assert(changed[i].key() == entries[i].key());
        assert(changed[j].key() == entries[j].key());
    }
    assert forall|key: (Seq<char>, int)| has_key(changed, key) <==> has_key(entries, key) by {
        if has_key(entries, key) {
            let i = choose|i: int| 0 <= i < entries.len() && entries[i].key() == key;
            assert(changed[i].key() == key);
        }
        if has_key(changed, key) {
            let i = choose|i: int| 0 <= i < changed.len() && changed[i].key() == key;
            assert(entries[i].key() == key);
        }
    }
    assert(has_key(entries, entry.key()));
    assert forall|key: (Seq<char>, int)| has_key(changed, key) implies index_of(changed)[key]
        == index_of(entries).insert(entry.key(), entry.posting())[key] by {
        let i = choose|i: int| 0 <= i < changed.len() && changed[i].key() == key;
        lemma_index_of_entry(changed, i);
        if i != at {
            lemma_index_of_entry(entries, i);
        }
    }
    assert(index_of(changed) =~= index_of(entries).insert(entry.key(), entry.posting()));
}

/// A store kept in memory.
pub struct MemoryStore {
    documents: Vec<Document>,
    statuses: Vec<Status>,
    entries: Vec<IndexEntry>,
}

impl View for MemoryStore {
    type V = StoreState;

    closed spec fn view(&self) -> StoreState {
        StoreState {
            records: Seq::new(
                self.documents.len() as nat,
                |i: int| Record { document: self.documents[i]@, status: self.statuses[i] },
            ),
            index: index_of(self.entries@),
        }
    }
}

impl MemoryStore {
    /// The store's invariant: every document has a status, no two
    /// documents share an id, and no two index entries share a key.
    pub closed spec fn wf(&self) -> bool {
        &&& self.statuses.len() == self.documents.len()
        &&& self@.unique_ids()
        &&& unique_keys(self.entries@)
        &&& self@.index.dom().finite()
        &&& self@.index.dom().len() == self.entries.len()
    }

    /// No two documents of a well-formed store share an id.
    pub proof fn ids_are_unique(&self)
        requires
            self.wf(),
        ensures
            self@.unique_ids(),
    {
    }

    /// The index of a well-formed store has finitely many entries.
    pub proof fn index_is_finite(&self)
        requires
            self.wf(),
        ensures
            self@.index.dom().finite(),
    {
    }

    /// An empty store.
    pub fn new() -> (store: MemoryStore)
        ensures
            store.wf(),
            store@.records.len() == 0,
            store@.index == Map::<(Seq<char>, int), Posting>::empty(),
    {
        let store = MemoryStore { documents: Vec::new(), statuses: Vec::new(), entries: Vec::new() };
        assert(store@.index =~= Map::<(Seq<char>, int), Posting>::empty());
        store
    }

    /// Upsert of an index entry: inserts the entry of `(word, document_id)`,
    /// or overwrites its frequency and positions if there is one.
    pub fn insert_index_entry(
        &mut self,
        word: &str,
        document_id: i32,
        frequency: i32,
        positions: &[i32],
    )
        requires
            old(self).wf(),
        ensures
            final(self).wf(),
            final(self)@ == old(self)@.upsert(
                word@,
                document_id as int,
                Posting { frequency: frequency as int, positions: as_ints(positions@) },
            ),
    {
        let entry = IndexEntry {
            term: word.to_owned(),
            document_id,
            frequency,
            positions: vstd::slice::slice_to_vec(positions),
        };
        let mut i: usize = 0;
        while i < self.entries.len()
            invariant
                i <= self.entries.len(),
                *self == *old(self),
                self.wf(),
                entry.key() == (word@, document_id as int),
                entry.posting() == (Posting {
                    frequency: frequency as int,
                    positions: as_ints(positions@),
                }),
                forall|k: int| 0 <= k < i ==> self.entries@[k].key() != entry.key(),
            decreases self.entries.len() - i,
        {
            if self.entries[i].document_id == document_id && self.entries[i].term == entry.term {
                proof {
                    lemma_index_of_update(self.entries@, i as int, entry);
                    lemma_index_of_entry(self.entries@, i as int);
                    assert(self@.index.dom().insert(entry.key()) =~= self@.index.dom());
                }
                self.entries.set(i, entry);
                assert(self@.records =~= old(self)@.records);
                return ;
            }
            i += 1;
        }
        proof {
            lemma_index_of_push(self.entries@, entry);
        }
        self.entries.push(entry);
        assert(self@.records =~= old(self)@.records);
    }

    /// Adds a document as pending, unless the store already holds one with
    /// the same id. Says whether the document was added.
    pub fn add_document(&mut self, document: Document) -> (added: bool)
        requires
            old(self).wf(),
        ensures
            final(self).wf(),
            added == !old(self)@.has_document(document.id as int),
            final(self)@.index == old(self)@.index,
            final(self)@.records == if added {
                old(self)@.records.push(Record { document: document@, status: Status::Pending })
            } else {
                old(self)@.records
            },
    {
        let mut i: usize = 0;
        while i < self.documents.len()
            invariant
                i <= self.documents.len(),
                *self == *old(self),
                self.wf(),
                forall|k: int| 0 <= k < i ==> self@.records[k].document.id != document.id,
            decreases self.documents.len() - i,
        {
            if self.documents[i].id == document.id {
                assert(self@.records[i as int].document.id == document.id);
                return false;
            }
            i += 1;
        }
        self.documents.push(document);
        self.statuses.push(Status::Pending);
        assert(self@.records =~= old(self)@.records.push(
            Record { document: document@, status: Status::Pending },
        ));
        true
    }

    /// The pending documents, at most `limit` of them: the first `limit` in
    /// the store's order if there are more.
    pub fn get_pending_documents(&self, limit: u32) -> (batch: Vec<Document>)
        requires
            self.wf(),
        ensures
            batch.deep_view() == self@.fetch_pending(limit as int),
    {
        let ghost records = self@.records;
        let mut batch: Vec<Document> = Vec::new();
        let mut i: usize = 0;
        proof {
            reveal(Seq::filter);
            assert(records.take(0).filter(is_pending()) =~= Seq::<Record>::empty());
            assert(batch.deep_view() =~= records.take(0).filter(is_pending()).map_values(
                document_of(),
            ));
        }
        while i < self.documents.len() && batch.len() < limit as usize
            invariant
                i <= self.documents.len(),
                self.wf(),
                records == self@.records,
                batch.len() <= limit,
                batch.deep_view() == records.take(i as int).filter(is_pending()).map_values(
                    document_of(),
                ),
            decreases self.documents.len() - i,
        {
            let ghost before = batch.deep_view();
            proof {
                assert(records.take(i + 1) =~= records.take(i as int).push(records[i as int]));
                records.take(i as int).lemma_filter_push(records[i as int], is_pending());
            }
            if self.statuses[i] == Status::Pending {
                batch.push(self.documents[i].duplicate());
                assert(batch.deep_view() =~= before.push(records[i as int].document));
                assert(records.take(i as int).filter(is_pending()).push(
                    records[i as int],
                ).map_values(document_of()) =~= before.push(records[i as int].document));
            }
            i += 1;
        }
        proof {
            let scanned = records.take(i as int).filter(is_pending());
            records.take(i as int).lemma_filter_monotone(records, is_pending());
            if i == self.documents.len() {
                assert(records.take(i as int) =~= records);
            } else {
                assert(scanned =~= records.filter(is_pending()).take(limit as int));
                assert(scanned.map_values(document_of()) =~= self@.pending().take(limit as int));
            }
        }
        batch
    }

    /// Overwrites the status of the document with the given id. Does
    /// nothing if the store holds no such document.
    pub fn update_document_status(&mut self, doc_id: i32, status: Status)
        requires
            old(self).wf(),
        ensures
            final(self).wf(),
            final(self)@ == old(self)@.set_status(doc_id as int, status),
    {
        let mut i: usize = 0;
        while i < self.documents.len()
            invariant
                i <= self.documents.len(),
                *self == *old(self),
                self.wf(),
                forall|k: int| 0 <= k < i ==> self@.records[k].document.id != doc_id,
            decreases self.documents.len() - i,
        {
            if self.documents[i].id == doc_id {
                self.statuses.set(i, status);
                proof {
                    let before = old(self)@.records;
                    let after = before.map_values(with_status(doc_id as int, status));
                    assert(old(self)@.unique_ids());
                    assert forall|k: int| 0 <= k < before.len() implies self@.records[k]
                        == after[k] by {
                        if k != i {
                            assert(before[k].document.id != before[i as int].document.id);
                        }
                    }
                    assert(self@.records =~= after);
                }
                return ;
            }
            i += 1;
        }
        assert(self@.records =~= old(self)@.records.map_values(with_status(doc_id as int, status)));
    }

    /// The status of the document with the given id, if the store holds it.
    pub fn status(&self, doc_id: i32) -> (status: Option<Status>)
        requires
            self.wf(),
        ensures
            status == self@.status_of(doc_id as int),
    {
        let mut i: usize = 0;
        while i < self.documents.len()
            invariant
                i <= self.documents.len(),
                self.wf(),
                forall|k: int| 0 <= k < i ==> self@.records[k].document.id != doc_id,
            decreases self.documents.len() - i,
        {
            if self.documents[i].id == doc_id {
                proof {
                    assert(self@.records[i as int].document.id == doc_id);
                    let k = choose|k: int|
                        0 <= k < self@.records.len() && self@.records[k].document.id == doc_id;
                    assert(k == i);
                }
                return Some(self.statuses[i]);
            }
            i += 1;
        }
        None
    }

    /// The index entry of `word` in the document with the given id, if
    /// there is one.
    pub fn entry(&self, word: &str, document_id: i32) -> (found: Option<IndexEntry>)
        requires
            self.wf(),
        ensures
            match found {
                Some(entry) => {
                    &&& self@.index.contains_key((word@, document_id as int))
                    &&& entry.key() == (word@, document_id as int)
                    &&& entry.posting() == self@.index[(word@, document_id as int)]
                },
                None => !self@.index.contains_key((word@, document_id as int)),
            },
    {
        let needle = word.to_owned();
        let mut i: usize = 0;
        while i < self.entries.len()
            invariant
                i <= self.entries.len(),
                self.wf(),
                needle@ == word@,
                forall|k: int|
                    0 <= k < i ==> self.entries@[k].key() != (word@, document_id as int),
            decreases self.entries.len() - i,
        {
            if self.entries[i].document_id == document_id && self.entries[i].term == needle {
                proof {
                    lemma_index_of_entry(self.entries@, i as int);
                }
                return Some(
                    IndexEntry {
                        term: needle,
                        document_id,
                        frequency: self.entries[i].frequency,
                        positions: self.entries[i].positions.clone(),
                    },
                );
            }
            i += 1;
        }
        None
    }

    /// The number of index entries.
    pub fn entry_count(&self) -> (count: usize)
        requires
            self.wf(),
        ensures
            count == self@.index.dom().len(),
    {
        self.entries.len()
    }
}

} // verus!

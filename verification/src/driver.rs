//! The decisions of a batch run, as a state machine.
//!
//! A batch fetches the pending documents and, document by document, writes
//! the index entries of the document and then marks it as indexed. The
//! driver does none of the store's work itself: it hands out the next
//! [`Action`] and is told by an [`Event`] how the action went. Whoever owns
//! the store runs the loop.

use crate::error::{IndexError, Operation};
use crate::indexing::{tokens_of, Tokenizer};
use crate::models::{Document, DocumentView, Status};
use crate::stats::{aggregate, aggregated, as_ints, within_limits, TermStats, TermStatsView};
use vstd::prelude::*;

verus! {

/// The cap on a batch where none is configured.
pub const DEFAULT_BATCH_LIMIT: u32 = 100;

/// What the driver asks the owner of the store to do next.
#[derive(Clone, Debug, PartialEq, Eq)]
pub enum Action {
    /// Fetch at most `limit` pending documents.
    FetchPending { limit: u32 },
    /// Upsert the index entry of `term` in the document `document_id`.
    UpsertEntry { term: String, document_id: i32, frequency: i32, positions: Vec<i32> },
    /// Set the status of the document `document_id`.
    SetStatus { document_id: i32, status: Status },
    /// The batch is complete: `indexed` documents were indexed.
    Done { indexed: usize },
    /// The batch is given up.
    Abort { error: IndexError },
}

/// The mathematical content of an [`Action`].
pub enum ActionView {
    FetchPending { limit: int },
    UpsertEntry { term: Seq<char>, document_id: int, frequency: int, positions: Seq<int> },
    SetStatus { document_id: int, status: Status },
    Done { indexed: int },
    Abort { error: IndexError },
}

impl View for Action {
    type V = ActionView;

    open spec fn view(&self) -> ActionView {
        match *self {
            Action::FetchPending { limit } => ActionView::FetchPending { limit: limit as int },
            Action::UpsertEntry { term, document_id, frequency, positions } => ActionView::UpsertEntry {
                term: term@,
                document_id: document_id as int,
                frequency: frequency as int,
                positions: as_ints(positions@),
            },
            Action::SetStatus { document_id, status } => ActionView::SetStatus {
                document_id: document_id as int,
                status,
            },
            Action::Done { indexed } => ActionView::Done { indexed: indexed as int },
            Action::Abort { error } => ActionView::Abort { error },
        }
    }
}

/// How the action that the driver asked for went.
#[derive(Clone, Debug, PartialEq, Eq)]
pub enum Event {
    /// The fetch handed out these documents.
    Fetched(Vec<Document>),
    /// The store accepted the index entry.
    EntryWritten,
    /// The store updated the status.
    StatusUpdated,
    /// The store failed to do what was asked.
    Failed,
}

/// The mathematical content of an [`Event`].
pub enum EventView {
    Fetched(Seq<DocumentView>),
    EntryWritten,
    StatusUpdated,
    Failed,
}

impl View for Event {
    type V = EventView;

    open spec fn view(&self) -> EventView {
        match *self {
            Event::Fetched(documents) => EventView::Fetched(documents.deep_view()),
            Event::EntryWritten => EventView::EntryWritten,
            Event::StatusUpdated => EventView::StatusUpdated,
            Event::Failed => EventView::Failed,
        }
    }
}

/// Where a batch stands.
pub enum DriverState {
    /// Waiting for the pending documents.
    Fetching,
    /// Waiting for the store to accept entry number `written` of document
    /// number `current` of the batch; the entries before it are accepted.
    Writing { batch: Seq<DocumentView>, current: int, written: int },
    /// Waiting for the store to mark document number `current` as indexed;
    /// all of its entries are accepted.
    Marking { batch: Seq<DocumentView>, current: int },
    /// Complete.
    Finished { indexed: int },
    /// Given up.
    Aborted { error: IndexError },
}

/// Whether the positions and frequencies of a document's terms fit in 32
/// bits.
pub open spec fn indexable(document: DocumentView) -> bool {
    within_limits(tokens_of(document.content))
}

/// The index entries of a document: the statistics of its terms, in the
/// order in which the terms first occur.
pub open spec fn plan_of(document: DocumentView) -> Seq<TermStatsView> {
    aggregated(tokens_of(document.content))
}

/// The batch that is made of the documents a fetch handed out: at most
/// `limit` of them.
pub open spec fn capped(documents: Seq<DocumentView>, limit: int) -> Seq<DocumentView> {
    if 0 <= limit < documents.len() {
        documents.take(limit)
    } else {
        documents
    }
}

/// The upsert of one planned entry.
pub open spec fn upsert_of(document: DocumentView, entry: TermStatsView) -> ActionView {
    ActionView::UpsertEntry {
        term: entry.term,
        document_id: document.id,
        frequency: entry.frequency,
        positions: entry.positions,
    }
}

/// What comes next for document number `current` once `written` of its
/// entries are accepted: the next entry, or the status once none is left.
pub open spec fn proceed(batch: Seq<DocumentView>, current: int, written: int) -> (
    DriverState,
    ActionView,
) {
    let plan = plan_of(batch[current]);
    if written < plan.len() {
        (
            DriverState::Writing { batch, current, written },
            upsert_of(batch[current], plan[written]),
        )
    } else {
        (
            DriverState::Marking { batch, current },
            ActionView::SetStatus { document_id: batch[current].id, status: Status::Indexed },
        )
    }
}

/// What comes next when the batch reaches document number `current`: the
/// end of the batch after the last document, the end of the run at a
/// document that cannot be indexed, and the document's first entry or
/// status otherwise.
pub open spec fn begin(batch: Seq<DocumentView>, current: int) -> (DriverState, ActionView) {
    if current >= batch.len() {
        (
            DriverState::Finished { indexed: batch.len() as int },
            ActionView::Done { indexed: batch.len() as int },
        )
    } else if !indexable(batch[current]) {
        give_up(IndexError::TooManyTokens)
    } else {
        proceed(batch, current, 0)
    }
}

/// Giving up a batch.
pub open spec fn give_up(error: IndexError) -> (DriverState, ActionView) {
    (DriverState::Aborted { error }, ActionView::Abort { error })
}

/// The state that a batch starts in, and its first action.
pub open spec fn initial(limit: int) -> (DriverState, ActionView) {
    (DriverState::Fetching, ActionView::FetchPending { limit })
}

/// The transition of the driver: the state after `event` and the action
/// that is asked for next.
pub open spec fn step(state: DriverState, limit: int, event: EventView) -> (
    DriverState,
    ActionView,
) {
    match state {
        DriverState::Fetching => match event {
            EventView::Fetched(documents) => begin(capped(documents, limit), 0),
            EventView::Failed => give_up(IndexError::Store(Operation::FetchPending)),
            _ => give_up(IndexError::UnexpectedEvent),
        },
        DriverState::Writing { batch, current, written } => match event {
            EventView::EntryWritten => proceed(batch, current, written + 1),
            EventView::Failed => give_up(IndexError::Store(Operation::UpsertEntry)),
            _ => give_up(IndexError::UnexpectedEvent),
        },
        DriverState::Marking { batch, current } => match event {
            EventView::StatusUpdated => begin(batch, current + 1),
            EventView::Failed => give_up(IndexError::Store(Operation::SetStatus)),
            _ => give_up(IndexError::UnexpectedEvent),
        },
        DriverState::Finished { indexed } => (state, ActionView::Done { indexed }),
        DriverState::Aborted { error } => (state, ActionView::Abort { error }),
    }
}

/// The status of a document is asked for only after all of its entries are
/// accepted: as long as an entry of the document is outstanding, the next
/// action is the upsert of the first outstanding entry.
pub proof fn status_follows_the_entries(batch: Seq<DocumentView>, current: int, written: int)
    ensures
        written < plan_of(batch[current]).len() ==> proceed(batch, current, written).1
            == upsert_of(batch[current], plan_of(batch[current])[written]),
        proceed(batch, current, written).1 is SetStatus <==> written >= plan_of(
            batch[current],
        ).len(),
{
}

#[derive(Clone, Copy, Debug, PartialEq, Eq)]
enum Phase {
    Fetching,
    Writing,
    Marking,
    Finished,
    Aborted(IndexError),
}

/// The driver of one batch.
pub struct BatchDriver {
    limit: u32,
    tokenizer: Tokenizer,
    phase: Phase,
    batch: Vec<Document>,
    current: usize,
    plan: Vec<TermStats>,
    written: usize,
}

impl View for BatchDriver {
    type V = DriverState;

    closed spec fn view(&self) -> DriverState {
        match self.phase {
            Phase::Fetching => DriverState::Fetching,
            Phase::Writing => DriverState::Writing {
                batch: self.batch.deep_view(),
                current: self.current as int,
                written: self.written as int,
            },
            Phase::Marking => DriverState::Marking {
                batch: self.batch.deep_view(),
                current: self.current as int,
            },
            Phase::Finished => DriverState::Finished { indexed: self.batch.len() as int },
            Phase::Aborted(error) => DriverState::Aborted { error },
        }
    }
}

impl BatchDriver {
    /// The driver's invariant: while it waits for an entry or a status, it
    /// holds the plan of the document that it is working on.
    pub closed spec fn wf(&self) -> bool {
        match self.phase {
            Phase::Writing => {
                &&& self.current < self.batch.len()
                &&& self.plan.deep_view() == plan_of(self.batch[self.current as int]@)
                &&& self.written < self.plan.len()
            },
            Phase::Marking => self.current < self.batch.len(),
            _ => true,
        }
    }

    /// The cap on the batch.
    pub closed spec fn spec_limit(&self) -> u32 {
        self.limit
    }

    /// The cap on the batch.
    #[verifier::when_used_as_spec(spec_limit)]
    pub fn limit(&self) -> (limit: u32)
        ensures
            limit == self.spec_limit(),
    {
        self.limit
    }

    /// Starts a batch of at most `limit` documents: the driver, and the
    /// action that it asks for first.
    pub fn start(limit: u32) -> (started: (BatchDriver, Action))
        ensures
            started.0.wf(),
            started.0.limit() == limit,
            (started.0@, started.1@) == initial(limit as int),
    {
        let driver = BatchDriver {
            limit,
            tokenizer: Tokenizer::new(),
            phase: Phase::Fetching,
            batch: Vec::new(),
            current: 0,
            plan: Vec::new(),
            written: 0,
        };
        (driver, Action::FetchPending { limit })
    }

    /// Takes in how the last action went and hands out the next one.
    pub fn step(&mut self, event: Event) -> (action: Action)
        requires
            old(self).wf(),
        ensures
            final(self).wf(),
            final(self).limit() == old(self).limit(),
            (final(self)@, action@) == step(old(self)@, old(self).limit() as int, event@),
    {
        let phase = self.phase;
        match phase {
            Phase::Fetching => match event {
                Event::Fetched(documents) => {
                    let mut documents = documents;
                    if documents.len() > self.limit as usize {
                        documents.truncate(self.limit as usize);
                    }
                    assert(documents.deep_view() =~= capped(event@->Fetched_0, self.limit as int));
                    self.batch = documents;
                    self.current = 0;
                    self.begin_document()
                },
                Event::Failed => self.give_up(IndexError::Store(Operation::FetchPending)),
                _ => self.give_up(IndexError::UnexpectedEvent),
            },
            Phase::Writing => match event {
                Event::EntryWritten => {
                    self.written = self.written + 1;
                    self.proceed()
                },
                Event::Failed => self.give_up(IndexError::Store(Operation::UpsertEntry)),
                _ => self.give_up(IndexError::UnexpectedEvent),
            },
            Phase::Marking => match event {
                Event::StatusUpdated => {
                    self.current = self.current + 1;
                    self.begin_document()
                },
                Event::Failed => self.give_up(IndexError::Store(Operation::SetStatus)),
                _ => self.give_up(IndexError::UnexpectedEvent),
            },
            Phase::Finished => Action::Done { indexed: self.batch.len() },
            Phase::Aborted(error) => Action::Abort { error },
        }
    }

    fn give_up(&mut self, error: IndexError) -> (action: Action)
        ensures
            final(self).wf(),
            final(self).limit() == old(self).limit(),
            (final(self)@, action@) == give_up(error),
    {
        self.phase = Phase::Aborted(error);
        Action::Abort { error }
    }

    fn begin_document(&mut self) -> (action: Action)
        requires
            old(self).current <= old(self).batch.len(),
        ensures
            final(self).wf(),
            final(self).limit() == old(self).limit(),
            (final(self)@, action@) == begin(old(self).batch.deep_view(), old(self).current as int),
    {
        if self.current >= self.batch.len() {
            self.phase = Phase::Finished;
            return Action::Done { indexed: self.batch.len() };
        }
        let tokens = self.tokenizer.tokenize(self.batch[self.current].content.as_str());
        match aggregate(tokens.as_slice()) {
            Ok(plan) => {
                self.plan = plan;
                self.written = 0;
                self.proceed()
            },
            Err(error) => self.give_up(error),
        }
    }

    fn proceed(&mut self) -> (action: Action)
        requires
            old(self).current < old(self).batch.len(),
            old(self).plan.deep_view() == plan_of(old(self).batch[old(self).current as int]@),
            old(self).written <= old(self).plan.len(),
        ensures
            final(self).wf(),
            final(self).limit() == old(self).limit(),
            (final(self)@, action@) == proceed(
                old(self).batch.deep_view(),
                old(self).current as int,
                old(self).written as int,
            ),
    {
        let document_id = self.batch[self.current].id;
        if self.written < self.plan.len() {
            self.phase = Phase::Writing;
            let entry = &self.plan[self.written];
            let action = Action::UpsertEntry {
                term: entry.term.clone(),
                document_id,
                frequency: entry.frequency,
                positions: entry.positions.clone(),
            };
            assert(action@->UpsertEntry_positions =~= entry@.positions);
            action
        } else {
            self.phase = Phase::Marking;
            Action::SetStatus { document_id, status: Status::Indexed }
        }
    }
}

} // verus!

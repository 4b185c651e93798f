//! The asynchronous list manager: the optimistic reconciliation engine.
//!
//! The manager owns the entry collection. User intents make it transition an
//! entry into a pending state and hand back a correlated storage request; the
//! store's answer comes back as a correlated response, which transitions the
//! matching entry — confirming the speculative state on success, rolling it
//! back on failure — and records the failure as the list's single last error.
//! A response that matches no current pending entry is discarded unchanged.

use vstd::prelude::*;

use crate::pending::{Pending, PendingView};
use crate::task::{Priority, ServerError, Status, Task, TaskView};
use crate::task_list::{TaskFilter, TaskSorter};

verus! {

/// The in-flight tag a rendered row carries, so the view layer can swap the
/// action controls for a busy indicator.
#[derive(Clone, Copy, Debug, PartialEq, Eq, Structural)]
pub enum PendingItemOperation {
    Idle,
    PendingUpdate,
    PendingDelete,
}

/// One slot of the collection: a server-confirmed item, a provisional item
/// whose creation is in flight, or a retained item whose update or delete is
/// in flight. Pending variants carry the request identifier under which the
/// operation was dispatched.
#[derive(Debug)]
pub enum ListEntry {
    Available(Task),
    PendingCreate(u64, String),
    PendingUpdate(u64, Task),
    PendingDelete(u64, Task),
}

/// The mathematical value of a [`ListEntry`].
#[verifier::ext_equal]
pub enum EntryView {
    Available(TaskView),
    PendingCreate(int, Seq<char>),
    PendingUpdate(int, TaskView),
    PendingDelete(int, TaskView),
}

impl View for ListEntry {
    type V = EntryView;

    open spec fn view(&self) -> EntryView {
        match self {
            ListEntry::Available(task) => EntryView::Available(task@),
            ListEntry::PendingCreate(rid, description) => EntryView::PendingCreate(
                *rid as int,
                description@,
            ),
            ListEntry::PendingUpdate(rid, task) => EntryView::PendingUpdate(*rid as int, task@),
            ListEntry::PendingDelete(rid, task) => EntryView::PendingDelete(*rid as int, task@),
        }
    }
}

impl Clone for ListEntry {
    fn clone(&self) -> (r: Self)
        ensures
            r == *self,
    {
        match self {
            ListEntry::Available(task) => ListEntry::Available(task.clone()),
            ListEntry::PendingCreate(rid, description) => ListEntry::PendingCreate(
                *rid,
                description.clone(),
            ),
            ListEntry::PendingUpdate(rid, task) => ListEntry::PendingUpdate(*rid, task.clone()),
            ListEntry::PendingDelete(rid, task) => ListEntry::PendingDelete(*rid, task.clone()),
        }
    }
}

impl EntryView {
    /// The request identifier of the in-flight operation, if any.
    pub open spec fn rid(self) -> Option<int> {
        match self {
            EntryView::Available(_) => None,
            EntryView::PendingCreate(rid, _) => Some(rid),
            EntryView::PendingUpdate(rid, _) => Some(rid),
            EntryView::PendingDelete(rid, _) => Some(rid),
        }
    }

    /// Whether some operation is in flight for this entry.
    pub open spec fn is_pending(self) -> bool {
        self.rid() is Some
    }

    /// The identifier of the record an update or delete is in flight for.
    pub open spec fn inflight_id(self) -> Option<int> {
        match self {
            EntryView::PendingUpdate(_, task) => Some(task.id),
            EntryView::PendingDelete(_, task) => Some(task.id),
            _ => None,
        }
    }

    /// The task value this entry is rendered and filtered with: the confirmed
    /// or retained item, or a placeholder built from the provisional output.
    pub open spec fn display_task(self) -> TaskView {
        match self {
            EntryView::Available(task) => task,
            EntryView::PendingCreate(_, description) => TaskView {
                id: 0,
                description: description,
                status: Status::ToDo,
                priority: Priority::Low,
            },
            EntryView::PendingUpdate(_, task) => task,
            EntryView::PendingDelete(_, task) => task,
        }
    }

    /// The in-flight tag the entry is rendered with.
    pub open spec fn pending_op(self) -> PendingItemOperation {
        match self {
            EntryView::Available(_) => PendingItemOperation::Idle,
            EntryView::PendingCreate(_, _) => PendingItemOperation::Idle,
            EntryView::PendingUpdate(_, _) => PendingItemOperation::PendingUpdate,
            EntryView::PendingDelete(_, _) => PendingItemOperation::PendingDelete,
        }
    }
}

impl ListEntry {
    /// Exec counterpart of [`EntryView::display_task`].
    pub fn display_task(&self) -> (r: Task)
        ensures
            r@ == self@.display_task(),
    {
        match self {
            ListEntry::Available(task) => task.clone(),
            ListEntry::PendingCreate(_, description) => Task {
                id: 0,
                description: description.clone(),
                status: Status::ToDo,
                priority: Priority::Low,
            },
            ListEntry::PendingUpdate(_, task) => task.clone(),
            ListEntry::PendingDelete(_, task) => task.clone(),
        }
    }

    /// Exec counterpart of [`EntryView::pending_op`].
    pub fn pending_op(&self) -> (r: PendingItemOperation)
        ensures
            r == self@.pending_op(),
    {
        match self {
            ListEntry::Available(_) => PendingItemOperation::Idle,
            ListEntry::PendingCreate(_, _) => PendingItemOperation::Idle,
            ListEntry::PendingUpdate(_, _) => PendingItemOperation::PendingUpdate,
            ListEntry::PendingDelete(_, _) => PendingItemOperation::PendingDelete,
        }
    }
}

/// A user intent, delivered by the view layer. `Create` and `Update` carry
/// outputs that a form has already validated.
#[derive(Debug)]
pub enum Intent {
    FetchAll,
    Create(String),
    Update(i64, (String, Status, Priority)),
    Delete(i64),
    ToggleFilter(TaskFilter),
    ToggleSort(TaskSorter),
}

/// The mathematical value of an [`Intent`].
#[verifier::ext_equal]
pub enum IntentView {
    FetchAll,
    Create(Seq<char>),
    Update(int, (Seq<char>, Status, Priority)),
    Delete(int),
    ToggleFilter(TaskFilter),
    ToggleSort(TaskSorter),
}

impl View for Intent {
    type V = IntentView;

    open spec fn view(&self) -> IntentView {
        match self {
            Intent::FetchAll => IntentView::FetchAll,
            Intent::Create(description) => IntentView::Create(description@),
            Intent::Update(id, out) => IntentView::Update(
                *id as int,
                (out.0@, out.1, out.2),
            ),
            Intent::Delete(id) => IntentView::Delete(*id as int),
            Intent::ToggleFilter(filter) => IntentView::ToggleFilter(*filter),
            Intent::ToggleSort(sorter) => IntentView::ToggleSort(*sorter),
        }
    }
}

/// A storage operation the caller must perform against the backing store.
/// It is handed out wrapped in a [`Pending`] carrying the request identifier
/// the eventual response must come back under.
#[derive(Debug)]
pub enum StorageOp {
    FetchAll,
    Create(String),
    Update(i64, (String, Status, Priority)),
    Delete(i64),
}

/// The mathematical value of a [`StorageOp`].
#[verifier::ext_equal]
pub enum StorageOpView {
    FetchAll,
    Create(Seq<char>),
    Update(int, (Seq<char>, Status, Priority)),
    Delete(int),
}

impl View for StorageOp {
    type V = StorageOpView;

    open spec fn view(&self) -> StorageOpView {
        match self {
            StorageOp::FetchAll => StorageOpView::FetchAll,
            StorageOp::Create(description) => StorageOpView::Create(description@),
            StorageOp::Update(id, out) => StorageOpView::Update(
                *id as int,
                (out.0@, out.1, out.2),
            ),
            StorageOp::Delete(id) => StorageOpView::Delete(*id as int),
        }
    }
}

/// The outcome of a storage operation, handed back by the caller wrapped in
/// a [`Pending`] carrying the request identifier of the originating call.
#[derive(Debug)]
pub enum StorageResult {
    FetchedAll(Result<Vec<Task>, ServerError>),
    Created(Result<Task, ServerError>),
    Updated(Result<Task, ServerError>),
    Deleted(Result<i64, ServerError>),
}

/// The mathematical value of a [`StorageResult`]; errors appear as their
/// messages.
#[verifier::ext_equal]
pub enum StorageResultView {
    FetchedAll(Result<Seq<TaskView>, Seq<char>>),
    Created(Result<TaskView, Seq<char>>),
    Updated(Result<TaskView, Seq<char>>),
    Deleted(Result<int, Seq<char>>),
}

impl View for StorageResult {
    type V = StorageResultView;

    open spec fn view(&self) -> StorageResultView {
        match self {
            StorageResult::FetchedAll(out) => StorageResultView::FetchedAll(
                match out {
                    Ok(tasks) => Ok(tasks@.map_values(|t: Task| t@)),
                    Err(error) => Err(error@),
                },
            ),
            StorageResult::Created(out) => StorageResultView::Created(
                match out {
                    Ok(task) => Ok(task@),
                    Err(error) => Err(error@),
                },
            ),
            StorageResult::Updated(out) => StorageResultView::Updated(
                match out {
                    Ok(task) => Ok(task@),
                    Err(error) => Err(error@),
                },
            ),
            StorageResult::Deleted(out) => StorageResultView::Deleted(
                match out {
                    Ok(id) => Ok(*id as int),
                    Err(error) => Err(error@),
                },
            ),
        }
    }
}

/// The manager. The entry collection is exclusively owned and mutated here;
/// callers observe it through [`Self::entries`] and the pipeline projection.
#[derive(Debug)]
pub struct AsyncList {
    entries: Vec<ListEntry>,
    last_error: Option<ServerError>,
    next_request_id: u64,
    pending_fetch: Option<u64>,
    filter: TaskFilter,
    sorter: TaskSorter,
}

/// The mathematical value of an [`AsyncList`].
#[verifier::ext_equal]
pub struct ListView {
    pub entries: Seq<EntryView>,
    pub last_error: Option<Seq<char>>,
    pub next_request_id: int,
    pub pending_fetch: Option<int>,
    pub filter: TaskFilter,
    pub sorter: TaskSorter,
}

/// The views of a sequence of entries.
pub open spec fn views_of(s: Seq<ListEntry>) -> Seq<EntryView> {
    s.map_values(|e: ListEntry| e@)
}

/// The views of a sequence of entries, one more entry appended.
pub proof fn lemma_views_of_push(s: Seq<ListEntry>, x: ListEntry)
    ensures
        views_of(s.push(x)) == views_of(s).push(x@),
{
    assert(views_of(s.push(x)) =~= views_of(s).push(x@));
}

/// Tasks confirmed by a fetch, each wrapped as an `Available` entry.
pub open spec fn avail_entries(tasks: Seq<TaskView>) -> Seq<EntryView> {
    tasks.map_values(|t: TaskView| EntryView::Available(t))
}

/// The confirmed entries of a fetch, one more task appended.
pub proof fn lemma_avail_entries_push(tasks: Seq<TaskView>, t: TaskView)
    ensures
        avail_entries(tasks.push(t)) == avail_entries(tasks).push(EntryView::Available(t)),
{
    assert(avail_entries(tasks.push(t)) =~= avail_entries(tasks).push(EntryView::Available(t)));
}

impl View for AsyncList {
    type V = ListView;

    closed spec fn view(&self) -> ListView {
        ListView {
            entries: views_of(self.entries@),
            last_error: match self.last_error {
                Some(error) => Some(error@),
                None => None,
            },
            next_request_id: self.next_request_id as int,
            pending_fetch: match self.pending_fetch {
                Some(rid) => Some(rid as int),
                None => None,
            },
            filter: self.filter,
            sorter: self.sorter,
        }
    }
}

/// No two entries carry the same in-flight request identifier: a response is
/// consumed by at most one entry.
pub open spec fn distinct_rids(s: Seq<EntryView>) -> bool {
    forall|i: int, j: int|
        #![trigger s[i].rid(), s[j].rid()]
        0 <= i < s.len() && 0 <= j < s.len() && i != j && s[i].rid() is Some ==> s[i].rid()
            != s[j].rid()
}

/// No record identifier has two simultaneously in-flight operations.
pub open spec fn distinct_inflight(s: Seq<EntryView>) -> bool {
    forall|i: int, j: int|
        #![trigger s[i].inflight_id(), s[j].inflight_id()]
        0 <= i < s.len() && 0 <= j < s.len() && i != j && s[i].inflight_id() is Some
            ==> s[i].inflight_id() != s[j].inflight_id()
}

/// Every in-flight request identifier was drawn below the counter and is not
/// the outstanding fetch identifier.
pub open spec fn bounded_rids(s: Seq<EntryView>, next: int, fetch: Option<int>) -> bool {
    forall|i: int|
        #![trigger s[i].rid()]
        0 <= i < s.len() ==> (s[i].rid() matches Some(rid) ==> rid < next && fetch != Some(rid))
}

/// Some entry carries the in-flight request identifier `rid`.
pub open spec fn seq_has_rid(s: Seq<EntryView>, rid: int) -> bool {
    exists|i: int| 0 <= i < s.len() && #[trigger] s[i].rid() == Some(rid)
}

/// Some entry has an operation in flight for the record `id`.
pub open spec fn seq_has_inflight(s: Seq<EntryView>, id: int) -> bool {
    exists|i: int| 0 <= i < s.len() && #[trigger] s[i].inflight_id() == Some(id)
}

impl ListView {
    /// The invariants of the manager.
    ///
    /// Request identifiers of in-flight operations are pairwise distinct and
    /// below the counter, so a fresh identifier never collides; and no record
    /// identifier has two simultaneously in-flight operations.
    pub open spec fn wf(self) -> bool {
        &&& distinct_rids(self.entries)
        &&& distinct_inflight(self.entries)
        &&& bounded_rids(self.entries, self.next_request_id, self.pending_fetch)
        &&& self.pending_fetch matches Some(rid) ==> rid < self.next_request_id
        &&& 0 <= self.next_request_id <= u64::MAX
    }
}

impl AsyncList {
    /// An empty list: no entries, no pending operations, no recorded error.
    pub fn new() -> (r: Self)
        ensures
            r@.entries == Seq::<EntryView>::empty(),
            r@.last_error is None,
            r@.pending_fetch is None,
            r@.next_request_id == 0,
            r@.filter == TaskFilter::Active,
            r@.sorter == TaskSorter::StatusFirst,
            r@.wf(),
    {
        let r = AsyncList {
            entries: Vec::new(),
            last_error: None,
            next_request_id: 0,
            pending_fetch: None,
            filter: TaskFilter::Active,
            sorter: TaskSorter::StatusFirst,
        };
        proof {
            assert(r@.entries =~= Seq::<EntryView>::empty());
        }
        r
    }

    /// The current collection, in storage order; presentation order is
    /// derived by the pipeline, never by this order.
    pub fn entries(&self) -> (r: &Vec<ListEntry>)
        ensures
            views_of(r@) == self@.entries,
    {
        &self.entries
    }

    /// The list's single last error, if any.
    pub fn last_error(&self) -> (r: &Option<ServerError>)
        ensures
            match r {
                Some(error) => self@.last_error == Some(error@),
                None => self@.last_error is None,
            },
    {
        &self.last_error
    }

    pub fn filter(&self) -> (r: TaskFilter)
        ensures
            r == self@.filter,
    {
        self.filter
    }

    pub fn sorter(&self) -> (r: TaskSorter)
        ensures
            r == self@.sorter,
    {
        self.sorter
    }
}

/// Whether `e` is an `Available` entry for the record `id`.
pub open spec fn avail_match(e: EntryView, id: int) -> bool {
    e matches EntryView::Available(t) && t.id == id
}

/// The item of an `Available` entry.
pub open spec fn avail_task(e: EntryView) -> TaskView
    recommends
        e is Available,
{
    e->Available_0
}

/// Whether some entry has an operation in flight for the record `id`.
pub open spec fn has_inflight_id(s: Seq<EntryView>, id: int) -> bool {
    exists|i: int| 0 <= i < s.len() && #[trigger] s[i].inflight_id() == Some(id)
}

/// The index of the first `Available` entry for the record `id`; negative
/// when there is none.
pub open spec fn first_available(s: Seq<EntryView>, id: int) -> int
    decreases s.len(),
{
    if s.len() == 0 {
        -1
    } else if avail_match(s[0], id) {
        0
    } else {
        let rest = first_available(s.drop_first(), id);
        if rest < 0 {
            -1
        } else {
            rest + 1
        }
    }
}

/// `first_available` points at the first matching entry, or past none.
pub proof fn lemma_first_available(s: Seq<EntryView>, id: int)
    ensures
        first_available(s, id) >= 0 ==> first_available(s, id) < s.len() && avail_match(
            s[first_available(s, id)],
            id,
        ),
        forall|k: int| 0 <= k < s.len() && k < first_available(s, id) ==> !#[trigger] avail_match(
            s[k],
            id,
        ),
        first_available(s, id) < 0 ==> forall|k: int|
            0 <= k < s.len() ==> !#[trigger] avail_match(s[k], id),
    decreases s.len(),
{
    if s.len() == 0 {
    } else if avail_match(s[0], id) {
    } else {
        lemma_first_available(s.drop_first(), id);
        assert forall|k: int|
            0 <= k < s.len() && k < first_available(s, id) implies !#[trigger] avail_match(
            s[k],
            id,
        ) by {
            if k > 0 {
                assert(s.drop_first()[k - 1] == s[k]);
            }
        }
        if first_available(s, id) < 0 {
            assert forall|k: int| 0 <= k < s.len() implies !#[trigger] avail_match(s[k], id) by {
                if k > 0 {
                    assert(s.drop_first()[k - 1] == s[k]);
                }
            }
        }
    }
}

/// The transition a user intent causes, and the storage request it hands out.
///
/// A `Create` always dispatches, pushing a provisional entry. An `Update` or
/// `Delete` dispatches only when the record has an `Available` entry and no
/// operation already in flight: a second intent on a pending record is
/// rejected. `FetchAll` dispatches only while no fetch is outstanding. The
/// toggles mutate the filter and sorter state synchronously and dispatch
/// nothing; so does every intent once the identifier space is exhausted.
pub open spec fn spec_dispatch(v: ListView, intent: IntentView) -> (ListView, Option<
    PendingView<StorageOpView>,
>) {
    let rid = v.next_request_id;
    if rid == u64::MAX as int {
        (v, None)
    } else {
        match intent {
            IntentView::FetchAll => if v.pending_fetch is Some {
                (v, None)
            } else {
                (
                    ListView { pending_fetch: Some(rid), next_request_id: rid + 1, ..v },
                    Some(PendingView { request_id: rid, data: StorageOpView::FetchAll }),
                )
            },
            IntentView::Create(description) => (
                ListView {
                    entries: v.entries.push(EntryView::PendingCreate(rid, description)),
                    next_request_id: rid + 1,
                    ..v
                },
                Some(PendingView { request_id: rid, data: StorageOpView::Create(description) }),
            ),
            IntentView::Update(id, out) => if has_inflight_id(v.entries, id) || first_available(
                v.entries,
                id,
            ) < 0 {
                (v, None)
            } else {
                let i = first_available(v.entries, id);
                (
                    ListView {
                        entries: v.entries.update(
                            i,
                            EntryView::PendingUpdate(rid, avail_task(v.entries[i])),
                        ),
                        next_request_id: rid + 1,
                        ..v
                    },
                    Some(PendingView { request_id: rid, data: StorageOpView::Update(id, out) }),
                )
            },
            IntentView::Delete(id) => if has_inflight_id(v.entries, id) || first_available(
                v.entries,
                id,
            ) < 0 {
                (v, None)
            } else {
                let i = first_available(v.entries, id);
                (
                    ListView {
                        entries: v.entries.update(
                            i,
                            EntryView::PendingDelete(rid, avail_task(v.entries[i])),
                        ),
                        next_request_id: rid + 1,
                        ..v
                    },
                    Some(PendingView { request_id: rid, data: StorageOpView::Delete(id) }),
                )
            },
            IntentView::ToggleFilter(filter) => (ListView { filter: filter, ..v }, None),
            IntentView::ToggleSort(sorter) => (ListView { sorter: sorter, ..v }, None),
        }
    }
}

impl AsyncList {
    /// Whether some entry has an operation in flight for the record `id`.
    fn find_inflight(&self, id: i64) -> (r: bool)
        ensures
            r == has_inflight_id(self@.entries, id as int),
    {
        let ghost s = self@.entries;
        let mut i: usize = 0;
        while i < self.entries.len()
            invariant
                0 <= i <= self.entries.len(),
                s == self@.entries,
                s.len() == self.entries.len(),
                forall|k: int| 0 <= k < i ==> #[trigger] s[k].inflight_id() != Some(id as int),
            decreases self.entries.len() - i,
        {
            let hit = match &self.entries[i] {
                ListEntry::PendingUpdate(_, task) => task.id == id,
                ListEntry::PendingDelete(_, task) => task.id == id,
                _ => false,
            };
            if hit {
                proof {
                    assert(s[i as int].inflight_id() == Some(id as int));
                }
                return true;
            }
            i += 1;
        }
        false
    }

    /// The first `Available` entry for the record `id`, with its index.
    fn find_first_available(&self, id: i64) -> (r: Option<(usize, Task)>)
        ensures
            match r {
                Some((i, task)) => i as int == first_available(self@.entries, id as int)
                    && i < self@.entries.len() && avail_match(self@.entries[i as int], id as int)
                    && task@ == avail_task(self@.entries[i as int]),
                None => first_available(self@.entries, id as int) < 0,
            },
    {
        let ghost s = self@.entries;
        let mut i: usize = 0;
        while i < self.entries.len()
            invariant
                0 <= i <= self.entries.len(),
                s == self@.entries,
                s.len() == self.entries.len(),
                forall|k: int| 0 <= k < i ==> !#[trigger] avail_match(s[k], id as int),
            decreases self.entries.len() - i,
        {
            match &self.entries[i] {
                ListEntry::Available(task) => {
                    if task.id == id {
                        proof {
                            lemma_first_available(s, id as int);
                            let fa = first_available(s, id as int);
                            assert(avail_match(s[i as int], id as int));
                            if fa < 0 {
                                assert(!avail_match(s[i as int], id as int));
                            }
                            if fa < i {
                                assert(!avail_match(s[fa], id as int));
                            }
                            assert(fa == i);
                        }
                        return Some((i, task.clone()));
                    }
                },
                _ => {},
            }
            i += 1;
        }
        proof {
            lemma_first_available(s, id as int);
            let fa = first_available(s, id as int);
            if fa >= 0 {
                assert(!avail_match(s[fa], id as int));
            }
        }
        None
    }

    /// Deliver a user intent. The manager transitions per [`spec_dispatch`]
    /// and hands back the correlated storage request the caller must perform,
    /// or nothing when the intent is rejected or needs no storage call.
    pub fn dispatch(&mut self, intent: Intent) -> (r: Option<Pending<StorageOp>>)
        requires
            old(self)@.wf(),
        ensures
            final(self)@ == spec_dispatch(old(self)@, intent@).0,
            match r {
                Some(call) => spec_dispatch(old(self)@, intent@).1 == Some(call@),
                None => spec_dispatch(old(self)@, intent@).1 is None,
            },
            final(self)@.wf(),
    {
        let ghost v0 = self@;
        if self.next_request_id == u64::MAX {
            return None;
        }
        let rid = self.next_request_id;
        match intent {
            Intent::FetchAll => {
                if self.pending_fetch.is_some() {
                    return None;
                }
                self.pending_fetch = Some(rid);
                self.next_request_id = rid + 1;
                Some(Pending::new(rid, StorageOp::FetchAll))
            },
            Intent::Create(description) => {
                let provisional = description.clone();
                self.entries.push(ListEntry::PendingCreate(rid, provisional));
                self.next_request_id = rid + 1;
                proof {
                    assert(self@.entries =~= v0.entries.push(
                        EntryView::PendingCreate(rid as int, description@),
                    ));
                    assert forall|i: int, j: int|
                        0 <= i < self@.entries.len() && 0 <= j < self@.entries.len() && i != j
                            && #[trigger] self@.entries[i].rid() is Some implies self@.entries[i].rid()
                        != #[trigger] self@.entries[j].rid() by {}
                }
                Some(Pending::new(rid, StorageOp::Create(description)))
            },
            Intent::Update(id, out) => {
                if self.find_inflight(id) {
                    return None;
                }
                match self.find_first_available(id) {
                    None => None,
                    Some((i, task)) => {
                        self.entries[i] = ListEntry::PendingUpdate(rid, task);
                        self.next_request_id = rid + 1;
                        proof {
                            assert(self@.entries =~= v0.entries.update(
                                first_available(v0.entries, id as int),
                                EntryView::PendingUpdate(
                                    rid as int,
                                    avail_task(v0.entries[first_available(v0.entries, id as int)]),
                                ),
                            ));
                        }
                        Some(Pending::new(rid, StorageOp::Update(id, out)))
                    },
                }
            },
            Intent::Delete(id) => {
                if self.find_inflight(id) {
                    return None;
                }
                match self.find_first_available(id) {
                    None => None,
                    Some((i, task)) => {
                        self.entries[i] = ListEntry::PendingDelete(rid, task);
                        self.next_request_id = rid + 1;
                        proof {
                            assert(self@.entries =~= v0.entries.update(
                                first_available(v0.entries, id as int),
                                EntryView::PendingDelete(
                                    rid as int,
                                    avail_task(v0.entries[first_available(v0.entries, id as int)]),
                                ),
                            ));
                        }
                        Some(Pending::new(rid, StorageOp::Delete(id)))
                    },
                }
            },
            Intent::ToggleFilter(filter) => {
                self.filter = filter;
                None
            },
            Intent::ToggleSort(sorter) => {
                self.sorter = sorter;
                None
            },
        }
    }
}

/// Whether entry `e` is the addressee of the response `rid`/`res`: a pending
/// entry of the response's kind, dispatched under the same request
/// identifier.
pub open spec fn entry_consumes(e: EntryView, rid: int, res: StorageResultView) -> bool {
    match e {
        EntryView::Available(_) => false,
        EntryView::PendingCreate(r, _) => res is Created && r == rid,
        EntryView::PendingUpdate(r, _) => res is Updated && r == rid,
        EntryView::PendingDelete(r, _) => res is Deleted && r == rid,
    }
}

/// What entry `e` becomes when the response `rid`/`res` arrives: `None`
/// removes it from the collection. An entry the response does not address is
/// unchanged; success confirms the speculative state; failure rolls back to
/// the retained prior item, or drops a provisional entry.
pub open spec fn step_entry(e: EntryView, rid: int, res: StorageResultView) -> Option<EntryView> {
    if entry_consumes(e, rid, res) {
        match e {
            EntryView::PendingCreate(_, _) => match res->Created_0 {
                Ok(task) => Some(EntryView::Available(task)),
                Err(_) => None,
            },
            EntryView::PendingUpdate(_, prior) => match res->Updated_0 {
                Ok(task) => Some(EntryView::Available(task)),
                Err(_) => Some(EntryView::Available(prior)),
            },
            EntryView::PendingDelete(_, prior) => match res->Deleted_0 {
                Ok(_) => None,
                Err(_) => Some(EntryView::Available(prior)),
            },
            EntryView::Available(_) => Some(e),
        }
    } else {
        Some(e)
    }
}

/// [`step_entry`] as a sequence of zero or one entries.
pub open spec fn step_seq(e: EntryView, rid: int, res: StorageResultView) -> Seq<EntryView> {
    match step_entry(e, rid, res) {
        Some(kept) => seq![kept],
        None => Seq::empty(),
    }
}

/// The collection after every entry took its step for the response.
pub open spec fn apply_entries(s: Seq<EntryView>, rid: int, res: StorageResultView) -> Seq<
    EntryView,
>
    decreases s.len(),
{
    if s.len() == 0 {
        Seq::empty()
    } else {
        step_seq(s[0], rid, res) + apply_entries(s.drop_first(), rid, res)
    }
}

/// Whether some entry consumes the response.
pub open spec fn response_matched(s: Seq<EntryView>, rid: int, res: StorageResultView) -> bool {
    exists|i: int| 0 <= i < s.len() && #[trigger] entry_consumes(s[i], rid, res)
}

/// The in-flight entries of the collection, in order.
pub open spec fn keep_pending(s: Seq<EntryView>) -> Seq<EntryView>
    decreases s.len(),
{
    if s.len() == 0 {
        Seq::empty()
    } else if s[0].is_pending() {
        seq![s[0]] + keep_pending(s.drop_first())
    } else {
        keep_pending(s.drop_first())
    }
}

/// The error a failed response carries, if it failed.
pub open spec fn response_error(res: StorageResultView) -> Option<Seq<char>> {
    match res {
        StorageResultView::FetchedAll(out) => match out {
            Ok(_) => None,
            Err(e) => Some(e),
        },
        StorageResultView::Created(out) => match out {
            Ok(_) => None,
            Err(e) => Some(e),
        },
        StorageResultView::Updated(out) => match out {
            Ok(_) => None,
            Err(e) => Some(e),
        },
        StorageResultView::Deleted(out) => match out {
            Ok(_) => None,
            Err(e) => Some(e),
        },
    }
}

/// The last-error slot after a consumed response: a terminal failure is
/// recorded, overwriting any prior error; a retryable failure is re-offered
/// to the user instead; success leaves the slot alone.
pub open spec fn next_error(prior: Option<Seq<char>>, res: StorageResultView) -> Option<
    Seq<char>,
> {
    match response_error(res) {
        Some(e) => if crate::task::error_retryable(e) {
            prior
        } else {
            Some(e)
        },
        None => prior,
    }
}

/// The transition a correlated response causes.
///
/// A fetch-all response is consumed only while its identifier is the
/// outstanding fetch: a confirmed fetch replaces the settled entries
/// wholesale while every in-flight entry is preserved — each one's own
/// response still governs its fate. A create, update, or delete response is
/// consumed by the pending entry dispatched under the same request
/// identifier. A response that matches no current pending entry is discarded
/// and alters nothing.
pub open spec fn spec_apply_response(v: ListView, rid: int, res: StorageResultView) -> ListView {
    if res is FetchedAll {
        if v.pending_fetch == Some(rid) {
            match res->FetchedAll_0 {
                Ok(tasks) => ListView {
                    entries: avail_entries(tasks) + keep_pending(v.entries),
                    pending_fetch: None,
                    ..v
                },
                Err(_) => ListView {
                    pending_fetch: None,
                    last_error: next_error(v.last_error, res),
                    ..v
                },
            }
        } else {
            v
        }
    } else {
        if response_matched(v.entries, rid, res) {
            ListView {
                entries: apply_entries(v.entries, rid, res),
                last_error: next_error(v.last_error, res),
                ..v
            }
        } else {
            v
        }
    }
}

/// The retryable failure a consumed response asks the caller to re-offer.
pub open spec fn spec_retry_offer(v: ListView, rid: int, res: StorageResultView) -> Option<
    Seq<char>,
> {
    let consumed = if res is FetchedAll {
        v.pending_fetch == Some(rid)
    } else {
        response_matched(v.entries, rid, res)
    };
    if consumed {
        match response_error(res) {
            Some(e) => if crate::task::error_retryable(e) {
                Some(e)
            } else {
                None
            },
            None => None,
        }
    } else {
        None
    }
}

/// Appending an entry to the collection appends its step to the result.
pub proof fn lemma_apply_entries_snoc(
    s: Seq<EntryView>,
    x: EntryView,
    rid: int,
    res: StorageResultView,
)
    ensures
        apply_entries(s.push(x), rid, res) == apply_entries(s, rid, res) + step_seq(x, rid, res),
    decreases s.len(),
{
    if s.len() == 0 {
        assert(s.push(x)[0] == x);
        assert(s.push(x).drop_first() =~= Seq::<EntryView>::empty());
        assert(apply_entries(Seq::<EntryView>::empty(), rid, res) == Seq::<EntryView>::empty());
        assert(apply_entries(s.push(x), rid, res) == step_seq(x, rid, res) + Seq::<
            EntryView,
        >::empty());
        assert(apply_entries(s.push(x), rid, res) =~= apply_entries(s, rid, res) + step_seq(
            x,
            rid,
            res,
        ));
    } else {
        let tail = s.drop_first();
        assert(s.push(x)[0] == s[0]);
        assert(s.push(x).drop_first() =~= tail.push(x));
        assert(apply_entries(s.push(x), rid, res) == step_seq(s[0], rid, res) + apply_entries(
            tail.push(x),
            rid,
            res,
        ));
        lemma_apply_entries_snoc(tail, x, rid, res);
        assert(apply_entries(s, rid, res) == step_seq(s[0], rid, res) + apply_entries(
            tail,
            rid,
            res,
        ));
        assert(apply_entries(s.push(x), rid, res) =~= apply_entries(s, rid, res) + step_seq(
            x,
            rid,
            res,
        ));
    }
}

/// Appending an entry to the collection appends it to the retained in-flight
/// entries exactly when it is in flight.
pub proof fn lemma_keep_pending_snoc(s: Seq<EntryView>, x: EntryView)
    ensures
        keep_pending(s.push(x)) == if x.is_pending() {
            keep_pending(s).push(x)
        } else {
            keep_pending(s)
        },
    decreases s.len(),
{
    if s.len() == 0 {
        assert(s.push(x)[0] == x);
        assert(s.push(x).drop_first() =~= Seq::<EntryView>::empty());
        assert(keep_pending(Seq::<EntryView>::empty()) == Seq::<EntryView>::empty());
        if x.is_pending() {
            assert(keep_pending(s.push(x)) == seq![x] + Seq::<EntryView>::empty());
            assert(keep_pending(s.push(x)) =~= keep_pending(s).push(x));
        }
    } else {
        let tail = s.drop_first();
        assert(s.push(x)[0] == s[0]);
        assert(s.push(x).drop_first() =~= tail.push(x));
        lemma_keep_pending_snoc(tail, x);
        if s[0].is_pending() {
            assert(keep_pending(s.push(x)) == seq![s[0]] + keep_pending(tail.push(x)));
            assert(keep_pending(s) == seq![s[0]] + keep_pending(tail));
        } else {
            assert(keep_pending(s.push(x)) == keep_pending(tail.push(x)));
            assert(keep_pending(s) == keep_pending(tail));
        }
        if x.is_pending() {
            assert(keep_pending(s.push(x)) =~= keep_pending(s).push(x));
        } else {
            assert(keep_pending(s.push(x)) =~= keep_pending(s));
        }
    }
}

/// Every request identifier or in-flight record identifier carried by the
/// collection after a response was already carried before it.
pub proof fn lemma_apply_entries_subset(s: Seq<EntryView>, rid: int, res: StorageResultView)
    ensures
        forall|r: int| #[trigger]
            seq_has_rid(apply_entries(s, rid, res), r) ==> seq_has_rid(s, r),
        forall|d: int| #[trigger]
            seq_has_inflight(apply_entries(s, rid, res), d) ==> seq_has_inflight(s, d),
    decreases s.len(),
{
    if s.len() == 0 {
    } else {
        let tail = s.drop_first();
        let rest = apply_entries(tail, rid, res);
        let whole = apply_entries(s, rid, res);
        lemma_apply_entries_subset(tail, rid, res);
        let head_len = step_seq(s[0], rid, res).len() as int;
        assert(whole == step_seq(s[0], rid, res) + rest);
        assert forall|r: int| #[trigger]
            seq_has_rid(whole, r) implies seq_has_rid(s, r) by {
            let j = choose|j: int| 0 <= j < whole.len() && #[trigger] whole[j].rid() == Some(r);
            if j < head_len {
                assert(whole[j] == step_seq(s[0], rid, res)[j]);
                assert(whole[j].rid() is Some);
                assert(whole[j] == s[0]);
                assert(s[0].rid() == Some(r));
            } else {
                assert(whole[j] == rest[j - head_len]);
                assert(seq_has_rid(rest, r));
                assert(seq_has_rid(tail, r));
                let m = choose|m: int| 0 <= m < tail.len() && #[trigger] tail[m].rid() == Some(r);
                assert(s[m + 1].rid() == Some(r));
            }
        }
        assert forall|d: int| #[trigger]
            seq_has_inflight(whole, d) implies seq_has_inflight(s, d) by {
            let j = choose|j: int|
                0 <= j < whole.len() && #[trigger] whole[j].inflight_id() == Some(d);
            if j < head_len {
                assert(whole[j] == step_seq(s[0], rid, res)[j]);
                assert(whole[j].inflight_id() is Some);
                assert(whole[j] == s[0]);
                assert(s[0].inflight_id() == Some(d));
            } else {
                assert(whole[j] == rest[j - head_len]);
                assert(seq_has_inflight(rest, d));
                assert(seq_has_inflight(tail, d));
                let m = choose|m: int|
                    0 <= m < tail.len() && #[trigger] tail[m].inflight_id() == Some(d);
                assert(s[m + 1].inflight_id() == Some(d));
            }
        }
    }
}

/// The same, for the entries a confirmed fetch retains.
pub proof fn lemma_keep_pending_subset(s: Seq<EntryView>)
    ensures
        forall|r: int| #[trigger] seq_has_rid(keep_pending(s), r) ==> seq_has_rid(s, r),
        forall|d: int| #[trigger] seq_has_inflight(keep_pending(s), d) ==> seq_has_inflight(s, d),
    decreases s.len(),
{
    if s.len() == 0 {
    } else {
        let tail = s.drop_first();
        let rest = keep_pending(tail);
        let whole = keep_pending(s);
        lemma_keep_pending_subset(tail);
        let head_len: int = if s[0].is_pending() {
            1
        } else {
            0
        };
        assert forall|r: int| #[trigger] seq_has_rid(whole, r) implies seq_has_rid(s, r) by {
            let j = choose|j: int| 0 <= j < whole.len() && #[trigger] whole[j].rid() == Some(r);
            if j < head_len {
                assert(whole[j] == s[0]);
                assert(s[0].rid() == Some(r));
            } else {
                assert(whole[j] == rest[j - head_len]);
                assert(seq_has_rid(rest, r));
                assert(seq_has_rid(tail, r));
                let m = choose|m: int| 0 <= m < tail.len() && #[trigger] tail[m].rid() == Some(r);
                assert(s[m + 1].rid() == Some(r));
            }
        }
        assert forall|d: int| #[trigger]
            seq_has_inflight(whole, d) implies seq_has_inflight(s, d) by {
            let j = choose|j: int|
                0 <= j < whole.len() && #[trigger] whole[j].inflight_id() == Some(d);
            if j < head_len {
                assert(whole[j] == s[0]);
                assert(s[0].inflight_id() == Some(d));
            } else {
                assert(whole[j] == rest[j - head_len]);
                assert(seq_has_inflight(rest, d));
                assert(seq_has_inflight(tail, d));
                let m = choose|m: int|
                    0 <= m < tail.len() && #[trigger] tail[m].inflight_id() == Some(d);
                assert(s[m + 1].inflight_id() == Some(d));
            }
        }
    }
}

/// A response preserves the manager's entry invariants.
pub proof fn lemma_apply_entries_wf(
    s: Seq<EntryView>,
    rid: int,
    res: StorageResultView,
    next: int,
    fetch: Option<int>,
)
    requires
        distinct_rids(s),
        distinct_inflight(s),
        bounded_rids(s, next, fetch),
    ensures
        distinct_rids(apply_entries(s, rid, res)),
        distinct_inflight(apply_entries(s, rid, res)),
        bounded_rids(apply_entries(s, rid, res), next, fetch),
    decreases s.len(),
{
    if s.len() == 0 {
    } else {
        let tail = s.drop_first();
        assert(forall|i: int| 0 <= i < tail.len() ==> tail[i] == s[i + 1]);
        lemma_apply_entries_wf(tail, rid, res, next, fetch);
        lemma_apply_entries_subset(tail, rid, res);
        let rest = apply_entries(tail, rid, res);
        let whole = apply_entries(s, rid, res);
        let head = step_seq(s[0], rid, res);
        assert(whole == head + rest);
        assert(forall|k: int| 0 <= k < head.len() ==> whole[k] == head[k]);
        assert(forall|k: int| 0 <= k < rest.len() ==> whole[k + head.len()] == rest[k]);
        assert(head.len() <= 1);
        assert(head.len() == 1 && head[0].rid() is Some ==> head[0] == s[0]);
        assert(head.len() == 1 && head[0].inflight_id() is Some ==> head[0] == s[0]);
        assert forall|i: int, j: int|
            0 <= i < whole.len() && 0 <= j < whole.len() && i != j && #[trigger] whole[i].rid()
                is Some implies whole[i].rid() != #[trigger] whole[j].rid() by {
            if whole[j].rid() is Some {
                if i >= head.len() && j >= head.len() {
                    assert(whole[i] == rest[i - head.len()]);
                    assert(whole[j] == rest[j - head.len()]);
                } else {
                    let (a, b) = if i < j {
                        (i, j)
                    } else {
                        (j, i)
                    };
                    assert(a < head.len());
                    assert(whole[a] == s[0]);
                    assert(whole[b] == rest[b - head.len()]);
                    let r = whole[b].rid()->0;
                    assert(seq_has_rid(rest, r));
                    assert(seq_has_rid(tail, r));
                    let m = choose|m: int|
                        0 <= m < tail.len() && #[trigger] tail[m].rid() == Some(r);
                    assert(s[m + 1].rid() == Some(r));
                    assert(s[0].rid() != s[m + 1].rid());
                }
            }
        }
        assert forall|i: int, j: int|
            0 <= i < whole.len() && 0 <= j < whole.len() && i != j
                && #[trigger] whole[i].inflight_id() is Some implies whole[i].inflight_id()
            != #[trigger] whole[j].inflight_id() by {
            if whole[j].inflight_id() is Some {
                if i >= head.len() && j >= head.len() {
                    assert(whole[i] == rest[i - head.len()]);
                    assert(whole[j] == rest[j - head.len()]);
                } else {
                    let (a, b) = if i < j {
                        (i, j)
                    } else {
                        (j, i)
                    };
                    assert(a < head.len());
                    assert(whole[a] == s[0]);
                    assert(whole[b] == rest[b - head.len()]);
                    let d = whole[b].inflight_id()->0;
                    assert(seq_has_inflight(rest, d));
                    assert(seq_has_inflight(tail, d));
                    let m = choose|m: int|
                        0 <= m < tail.len() && #[trigger] tail[m].inflight_id() == Some(d);
                    assert(s[m + 1].inflight_id() == Some(d));
                    assert(s[0].inflight_id() != s[m + 1].inflight_id());
                }
            }
        }
        assert forall|i: int| 0 <= i < whole.len() implies (#[trigger] whole[i].rid() matches Some(
            r,
        ) ==> r < next && fetch != Some(r)) by {
            if whole[i].rid() is Some {
                let r = whole[i].rid()->0;
                if i < head.len() {
                    assert(whole[i] == s[0]);
                    assert(s[0].rid() == Some(r));
                } else {
                    assert(whole[i] == rest[i - head.len()]);
                    assert(seq_has_rid(rest, r));
                    assert(seq_has_rid(tail, r));
                    let m = choose|m: int|
                        0 <= m < tail.len() && #[trigger] tail[m].rid() == Some(r);
                    assert(s[m + 1].rid() == Some(r));
                }
            }
        }
    }
}

/// Retaining the in-flight entries preserves the manager's entry invariants.
pub proof fn lemma_keep_pending_wf(s: Seq<EntryView>, next: int, fetch: Option<int>)
    requires
        distinct_rids(s),
        distinct_inflight(s),
        bounded_rids(s, next, fetch),
    ensures
        distinct_rids(keep_pending(s)),
        distinct_inflight(keep_pending(s)),
        bounded_rids(keep_pending(s), next, fetch),
    decreases s.len(),
{
    if s.len() == 0 {
    } else {
        let tail = s.drop_first();
        assert(forall|i: int| 0 <= i < tail.len() ==> tail[i] == s[i + 1]);
        lemma_keep_pending_wf(tail, next, fetch);
        lemma_keep_pending_subset(tail);
        let rest = keep_pending(tail);
        let whole = keep_pending(s);
        let head_len: int = if s[0].is_pending() {
            1
        } else {
            0
        };
        assert(forall|k: int| 0 <= k < head_len ==> whole[k] == s[0]);
        assert(forall|k: int| 0 <= k < rest.len() ==> whole[k + head_len] == rest[k]);
        assert forall|i: int, j: int|
            0 <= i < whole.len() && 0 <= j < whole.len() && i != j && #[trigger] whole[i].rid()
                is Some implies whole[i].rid() != #[trigger] whole[j].rid() by {
            if whole[j].rid() is Some {
                if i >= head_len && j >= head_len {
                    assert(whole[i] == rest[i - head_len]);
                    assert(whole[j] == rest[j - head_len]);
                } else {
                    let (a, b) = if i < j {
                        (i, j)
                    } else {
                        (j, i)
                    };
                    assert(a < head_len);
                    assert(whole[a] == s[0]);
                    assert(whole[b] == rest[b - head_len]);
                    let r = whole[b].rid()->0;
                    assert(seq_has_rid(rest, r));
                    assert(seq_has_rid(tail, r));
                    let m = choose|m: int|
                        0 <= m < tail.len() && #[trigger] tail[m].rid() == Some(r);
                    assert(s[m + 1].rid() == Some(r));
                    assert(s[0].rid() != s[m + 1].rid());
                }
            }
        }
        assert forall|i: int, j: int|
            0 <= i < whole.len() && 0 <= j < whole.len() && i != j
                && #[trigger] whole[i].inflight_id() is Some implies whole[i].inflight_id()
            != #[trigger] whole[j].inflight_id() by {
            if whole[j].inflight_id() is Some {
                if i >= head_len && j >= head_len {
                    assert(whole[i] == rest[i - head_len]);
                    assert(whole[j] == rest[j - head_len]);
                } else {
                    let (a, b) = if i < j {
                        (i, j)
                    } else {
                        (j, i)
                    };
                    assert(a < head_len);
                    assert(whole[a] == s[0]);
                    assert(whole[b] == rest[b - head_len]);
                    let d = whole[b].inflight_id()->0;
                    assert(seq_has_inflight(rest, d));
                    assert(seq_has_inflight(tail, d));
                    let m = choose|m: int|
                        0 <= m < tail.len() && #[trigger] tail[m].inflight_id() == Some(d);
                    assert(s[m + 1].inflight_id() == Some(d));
                    assert(s[0].inflight_id() != s[m + 1].inflight_id());
                }
            }
        }
        assert forall|i: int| 0 <= i < whole.len() implies (#[trigger] whole[i].rid() matches Some(
            r,
        ) ==> r < next && fetch != Some(r)) by {
            if whole[i].rid() is Some {
                let r = whole[i].rid()->0;
                if i < head_len {
                    assert(whole[i] == s[0]);
                } else {
                    assert(whole[i] == rest[i - head_len]);
                    assert(seq_has_rid(rest, r));
                    assert(seq_has_rid(tail, r));
                    let m = choose|m: int|
                        0 <= m < tail.len() && #[trigger] tail[m].rid() == Some(r);
                    assert(s[m + 1].rid() == Some(r));
                }
            }
        }
    }
}

impl AsyncList {
    /// One entry's transition for a response; `None` drops the entry.
    fn step_exec(entry: ListEntry, rid: u64, res: &StorageResult) -> (r: Option<ListEntry>)
        ensures
            match r {
                Some(kept) => step_entry(entry@, rid as int, res@) == Some(kept@),
                None => step_entry(entry@, rid as int, res@) is None,
            },
    {
        match entry {
            ListEntry::Available(task) => Some(ListEntry::Available(task)),
            ListEntry::PendingCreate(r0, description) => match res {
                StorageResult::Created(out) => if r0 == rid {
                    match out {
                        Ok(task) => Some(ListEntry::Available(task.clone())),
                        Err(_) => None,
                    }
                } else {
                    Some(ListEntry::PendingCreate(r0, description))
                },
                _ => Some(ListEntry::PendingCreate(r0, description)),
            },
            ListEntry::PendingUpdate(r0, prior) => match res {
                StorageResult::Updated(out) => if r0 == rid {
                    match out {
                        Ok(task) => Some(ListEntry::Available(task.clone())),
                        Err(_) => Some(ListEntry::Available(prior)),
                    }
                } else {
                    Some(ListEntry::PendingUpdate(r0, prior))
                },
                _ => Some(ListEntry::PendingUpdate(r0, prior)),
            },
            ListEntry::PendingDelete(r0, prior) => match res {
                StorageResult::Deleted(out) => if r0 == rid {
                    match out {
                        Ok(_) => None,
                        Err(_) => Some(ListEntry::Available(prior)),
                    }
                } else {
                    Some(ListEntry::PendingDelete(r0, prior))
                },
                _ => Some(ListEntry::PendingDelete(r0, prior)),
            },
        }
    }

    /// Whether some entry consumes the response.
    fn find_consumer(&self, rid: u64, res: &StorageResult) -> (r: bool)
        ensures
            r == response_matched(self@.entries, rid as int, res@),
    {
        let ghost s = self@.entries;
        let mut i: usize = 0;
        while i < self.entries.len()
            invariant
                0 <= i <= self.entries.len(),
                s == self@.entries,
                s.len() == self.entries.len(),
                forall|k: int| 0 <= k < i ==> !#[trigger] entry_consumes(s[k], rid as int, res@),
            decreases self.entries.len() - i,
        {
            let hit = match &self.entries[i] {
                ListEntry::Available(_) => false,
                ListEntry::PendingCreate(r0, _) => matches!(res, StorageResult::Created(_)) && *r0
                    == rid,
                ListEntry::PendingUpdate(r0, _) => matches!(res, StorageResult::Updated(_)) && *r0
                    == rid,
                ListEntry::PendingDelete(r0, _) => matches!(res, StorageResult::Deleted(_)) && *r0
                    == rid,
            };
            if hit {
                proof {
                    assert(entry_consumes(s[i as int], rid as int, res@));
                }
                return true;
            }
            i += 1;
        }
        false
    }

    /// Consume a correlated response. The manager transitions per
    /// [`spec_apply_response`]; a retryable failure is handed back so the
    /// caller may re-offer the intent to the user instead of re-dispatching.
    pub fn apply_response(&mut self, response: Pending<StorageResult>) -> (r: Option<ServerError>)
        requires
            old(self)@.wf(),
        ensures
            final(self)@ == spec_apply_response(old(self)@, response@.request_id, response@.data),
            final(self)@.wf(),
            match r {
                Some(error) => spec_retry_offer(old(self)@, response@.request_id, response@.data)
                    == Some(error@),
                None => spec_retry_offer(old(self)@, response@.request_id, response@.data)
                    is None,
            },
    {
        let ghost v0 = self@;
        let Pending { request_id: rid, data } = response;
        let ghost ridv = rid as int;
        match data {
            StorageResult::FetchedAll(out) => {
                let fetch_match = match &self.pending_fetch {
                    Some(f) => *f == rid,
                    None => false,
                };
                if !fetch_match {
                    return None;
                }
                self.pending_fetch = None;
                match out {
                    Ok(tasks) => {
                        let ghost tasksv = tasks@.map_values(|t: Task| t@);
                        let ghost s = v0.entries;
                        let mut new_entries: Vec<ListEntry> = Vec::new();
                        proof {
                            assert(views_of(new_entries@) =~= avail_entries(
                                tasksv.subrange(0, 0),
                            ));
                        }
                        let mut i: usize = 0;
                        while i < tasks.len()
                            invariant
                                0 <= i <= tasks.len(),
                                tasksv == tasks@.map_values(|t: Task| t@),
                                tasksv.len() == tasks@.len(),
                                views_of(new_entries@) == avail_entries(
                                    tasksv.subrange(0, i as int),
                                ),
                            decreases tasks.len() - i,
                        {
                            let entry = ListEntry::Available(tasks[i].clone());
                            let ghost prev = new_entries@;
                            proof {
                                lemma_views_of_push(prev, entry);
                                assert(tasksv[i as int] == tasks@[i as int]@);
                                assert(entry@ == EntryView::Available(tasksv[i as int]));
                                assert(tasksv.subrange(0, (i + 1) as int) =~= tasksv.subrange(
                                    0,
                                    i as int,
                                ).push(tasksv[i as int]));
                                lemma_avail_entries_push(
                                    tasksv.subrange(0, i as int),
                                    tasksv[i as int],
                                );
                            }
                            new_entries.push(entry);
                            proof {
                                assert(views_of(new_entries@) == avail_entries(
                                    tasksv.subrange(0, (i + 1) as int),
                                ));
                            }
                            i += 1;
                        }
                        proof {
                            assert(tasksv.subrange(0, tasksv.len() as int) =~= tasksv);
                            assert(views_of(new_entries@) + keep_pending(s.subrange(0, 0))
                                =~= views_of(new_entries@));
                        }
                        let mut j: usize = 0;
                        while j < self.entries.len()
                            invariant
                                0 <= j <= self.entries.len(),
                                s == self@.entries,
                                s.len() == self.entries.len(),
                                views_of(new_entries@) == avail_entries(tasksv) + keep_pending(
                                    s.subrange(0, j as int),
                                ),
                            decreases self.entries.len() - j,
                        {
                            let keep = match &self.entries[j] {
                                ListEntry::Available(_) => false,
                                _ => true,
                            };
                            let ghost prev = new_entries@;
                            if keep {
                                let entry = self.entries[j].clone();
                                proof {
                                    lemma_views_of_push(prev, entry);
                                }
                                new_entries.push(entry);
                            }
                            proof {
                                assert(s.subrange(0, (j + 1) as int) =~= s.subrange(
                                    0,
                                    j as int,
                                ).push(s[j as int]));
                                lemma_keep_pending_snoc(s.subrange(0, j as int), s[j as int]);
                                assert(views_of(new_entries@) =~= avail_entries(tasksv)
                                    + keep_pending(s.subrange(0, (j + 1) as int)));
                            }
                            j += 1;
                        }
                        proof {
                            assert(s.subrange(0, s.len() as int) =~= s);
                        }
                        self.entries = new_entries;
                        proof {
                            lemma_keep_pending_wf(s, v0.next_request_id, v0.pending_fetch);
                            let av = avail_entries(tasksv);
                            let kp = keep_pending(s);
                            let whole = self@.entries;
                            assert(whole == av + kp);
                            assert(forall|k: int|
                                0 <= k < av.len() ==> (#[trigger] av[k].rid()) is None
                                    && av[k].inflight_id() is None);
                            assert(forall|k: int| 0 <= k < av.len() ==> whole[k] == av[k]);
                            assert(forall|k: int|
                                0 <= k < kp.len() ==> whole[k + av.len()] == kp[k]);
                            assert forall|a: int, b: int|
                                0 <= a < whole.len() && 0 <= b < whole.len() && a != b
                                    && #[trigger] whole[a].rid() is Some implies whole[a].rid()
                                != #[trigger] whole[b].rid() by {
                                assert(a >= av.len());
                                assert(whole[a] == kp[a - av.len()]);
                                if b >= av.len() {
                                    assert(whole[b] == kp[b - av.len()]);
                                } else {
                                    assert(whole[b].rid() is None);
                                }
                            }
                            assert forall|a: int, b: int|
                                0 <= a < whole.len() && 0 <= b < whole.len() && a != b
                                    && #[trigger] whole[a].inflight_id()
                                    is Some implies whole[a].inflight_id()
                                != #[trigger] whole[b].inflight_id() by {
                                assert(a >= av.len());
                                assert(whole[a] == kp[a - av.len()]);
                                if b >= av.len() {
                                    assert(whole[b] == kp[b - av.len()]);
                                } else {
                                    assert(whole[b].inflight_id() is None);
                                }
                            }
                            assert forall|k: int|
                                0 <= k < whole.len() implies (#[trigger] whole[k].rid()
                                matches Some(rr) ==> rr < self@.next_request_id
                                && self@.pending_fetch != Some(rr)) by {
                                if whole[k].rid() is Some {
                                    assert(k >= av.len());
                                    assert(whole[k] == kp[k - av.len()]);
                                }
                            }
                        }
                        None
                    },
                    Err(error) => {
                        if error.should_retry() {
                            Some(error)
                        } else {
                            self.last_error = Some(error);
                            None
                        }
                    },
                }
            },
            other => {
                let ghost resv = other@;
                let matched = self.find_consumer(rid, &other);
                if !matched {
                    return None;
                }
                let ghost s = v0.entries;
                let mut new_entries: Vec<ListEntry> = Vec::new();
                let mut i: usize = 0;
                proof {
                    assert(views_of(new_entries@) =~= apply_entries(
                        s.subrange(0, 0),
                        ridv,
                        resv,
                    ));
                }
                while i < self.entries.len()
                    invariant
                        0 <= i <= self.entries.len(),
                        s == self@.entries,
                        s.len() == self.entries.len(),
                        resv == other@,
                        ridv == rid as int,
                        views_of(new_entries@) == apply_entries(
                            s.subrange(0, i as int),
                            ridv,
                            resv,
                        ),
                    decreases self.entries.len() - i,
                {
                    let stepped = Self::step_exec(self.entries[i].clone(), rid, &other);
                    let ghost prev = new_entries@;
                    proof {
                        assert(s.subrange(0, (i + 1) as int) =~= s.subrange(0, i as int).push(
                            s[i as int],
                        ));
                        lemma_apply_entries_snoc(s.subrange(0, i as int), s[i as int], ridv, resv);
                    }
                    match stepped {
                        Some(entry) => {
                            proof {
                                lemma_views_of_push(prev, entry);
                            }
                            new_entries.push(entry);
                            proof {
                                assert(views_of(new_entries@) =~= apply_entries(
                                    s.subrange(0, (i + 1) as int),
                                    ridv,
                                    resv,
                                ));
                            }
                        },
                        None => {
                            proof {
                                assert(views_of(new_entries@) =~= apply_entries(
                                    s.subrange(0, (i + 1) as int),
                                    ridv,
                                    resv,
                                ));
                            }
                        },
                    }
                    i += 1;
                }
                proof {
                    assert(s.subrange(0, s.len() as int) =~= s);
                    lemma_apply_entries_wf(s, ridv, resv, v0.next_request_id, v0.pending_fetch);
                }
                self.entries = new_entries;
                let err: Option<ServerError> = match other {
                    StorageResult::FetchedAll(out) => match out {
                        Ok(_) => None,
                        Err(error) => Some(error),
                    },
                    StorageResult::Created(out) => match out {
                        Ok(_) => None,
                        Err(error) => Some(error),
                    },
                    StorageResult::Updated(out) => match out {
                        Ok(_) => None,
                        Err(error) => Some(error),
                    },
                    StorageResult::Deleted(out) => match out {
                        Ok(_) => None,
                        Err(error) => Some(error),
                    },
                };
                match err {
                    Some(error) => {
                        if error.should_retry() {
                            Some(error)
                        } else {
                            self.last_error = Some(error);
                            None
                        }
                    },
                    None => None,
                }
            },
        }
    }
}

impl Default for AsyncList {
    fn default() -> (r: Self)
        ensures
            r@.entries == Seq::<EntryView>::empty(),
            r@.last_error is None,
            r@.pending_fetch is None,
            r@.next_request_id == 0,
            r@.filter == TaskFilter::Active,
            r@.sorter == TaskSorter::StatusFirst,
            r@.wf(),
    {
        AsyncList::new()
    }
}

} // verus!

use optilist::async_list::{AsyncList, Intent, ListEntry, StorageOp, StorageResult};
use optilist::pending::Pending;
use optilist::task::{Priority, ServerError, Status, Task};

fn task(id: i64, description: &str, status: Status, priority: Priority) -> Task {
    Task { id, description: description.to_string(), status, priority }
}

fn db_error(message: &str) -> ServerError {
    ServerError::Database(message.to_string())
}

/// A manager holding the given tasks as `Available` entries, seeded through
/// a confirmed fetch-all.
fn seeded(tasks: Vec<Task>) -> AsyncList {
    let mut list = AsyncList::new();
    let call = list.dispatch(Intent::FetchAll).expect("fetch dispatches");
    assert!(matches!(call.data, StorageOp::FetchAll));
    let offer = list.apply_response(Pending::new(
        call.request_id,
        StorageResult::FetchedAll(Ok(tasks)),
    ));
    assert!(offer.is_none());
    list
}

fn available(entry: &ListEntry) -> &Task {
    match entry {
        ListEntry::Available(task) => task,
        other => panic!("expected an available entry, got {:?}", other),
    }
}

#[test]
fn create_round_trip_leaves_exactly_one_available_entry() {
    let mut list = AsyncList::new();
    let call = list
        .dispatch(Intent::Create("buy milk".to_string()))
        .expect("create dispatches");
    match &call.data {
        StorageOp::Create(description) => assert_eq!(description, "buy milk"),
        other => panic!("expected a create call, got {:?}", other),
    }
    assert!(matches!(
        list.entries().as_slice(),
        [ListEntry::PendingCreate(_, _)]
    ));
    let offer = list.apply_response(Pending::new(
        call.request_id,
        StorageResult::Created(Ok(task(7, "buy milk", Status::ToDo, Priority::Low))),
    ));
    assert!(offer.is_none());
    assert_eq!(list.entries().len(), 1);
    assert_eq!(
        *available(&list.entries()[0]),
        task(7, "buy milk", Status::ToDo, Priority::Low)
    );
    assert!(list.last_error().is_none());
}

#[test]
fn create_failure_drops_the_provisional_entry_and_records_the_error() {
    let mut list = AsyncList::new();
    let call = list
        .dispatch(Intent::Create("buy milk".to_string()))
        .expect("create dispatches");
    let offer = list.apply_response(Pending::new(
        call.request_id,
        StorageResult::Created(Err(db_error("insert failed"))),
    ));
    assert!(offer.is_none());
    assert!(list.entries().is_empty());
    assert_eq!(*list.last_error(), Some(db_error("insert failed")));
}

#[test]
fn second_intent_on_a_pending_record_is_rejected() {
    let mut list = seeded(vec![task(1, "a", Status::ToDo, Priority::Low)]);
    let update = ("b".to_string(), Status::Done, Priority::Low);
    let call = list.dispatch(Intent::Update(1, update.clone()));
    assert!(call.is_some());
    assert!(matches!(
        list.entries().as_slice(),
        [ListEntry::PendingUpdate(_, _)]
    ));
    assert!(list.dispatch(Intent::Update(1, update)).is_none());
    assert!(list.dispatch(Intent::Delete(1)).is_none());
    assert!(matches!(
        list.entries().as_slice(),
        [ListEntry::PendingUpdate(_, _)]
    ));
}

#[test]
fn intents_on_unknown_records_dispatch_nothing() {
    let mut list = seeded(vec![task(1, "a", Status::ToDo, Priority::Low)]);
    assert!(list
        .dispatch(Intent::Update(2, ("b".to_string(), Status::Done, Priority::Low)))
        .is_none());
    assert!(list.dispatch(Intent::Delete(2)).is_none());
    assert_eq!(list.entries().len(), 1);
}

#[test]
fn unmatched_response_is_discarded_without_any_effect() {
    let mut list = seeded(vec![task(1, "a", Status::ToDo, Priority::Low)]);
    let offer = list.apply_response(Pending::new(
        999,
        StorageResult::Updated(Ok(task(1, "ghost", Status::Done, Priority::High))),
    ));
    assert!(offer.is_none());
    assert_eq!(*available(&list.entries()[0]), task(1, "a", Status::ToDo, Priority::Low));
    assert!(list.last_error().is_none());

    let offer = list.apply_response(Pending::new(
        999,
        StorageResult::Deleted(Err(db_error("stray"))),
    ));
    assert!(offer.is_none());
    assert_eq!(list.entries().len(), 1);
    assert!(list.last_error().is_none());

    let offer = list.apply_response(Pending::new(
        999,
        StorageResult::FetchedAll(Ok(vec![])),
    ));
    assert!(offer.is_none());
    assert_eq!(list.entries().len(), 1);
}

#[test]
fn update_success_confirms_the_new_item() {
    let mut list = seeded(vec![task(1, "a", Status::ToDo, Priority::Low)]);
    let call = list
        .dispatch(Intent::Update(1, ("b".to_string(), Status::Done, Priority::High)))
        .expect("update dispatches");
    match &call.data {
        StorageOp::Update(id, out) => {
            assert_eq!(*id, 1);
            assert_eq!(out.0, "b");
        },
        other => panic!("expected an update call, got {:?}", other),
    }
    let offer = list.apply_response(Pending::new(
        call.request_id,
        StorageResult::Updated(Ok(task(1, "b", Status::Done, Priority::High))),
    ));
    assert!(offer.is_none());
    assert_eq!(*available(&list.entries()[0]), task(1, "b", Status::Done, Priority::High));
}

#[test]
fn update_failure_rolls_the_entry_back_exactly() {
    let mut list = seeded(vec![task(1, "a", Status::ToDo, Priority::Low)]);
    let call = list
        .dispatch(Intent::Update(1, ("b".to_string(), Status::Done, Priority::Low)))
        .expect("update dispatches");
    let offer = list.apply_response(Pending::new(
        call.request_id,
        StorageResult::Updated(Err(db_error("update failed"))),
    ));
    assert!(offer.is_none());
    assert_eq!(list.entries().len(), 1);
    assert_eq!(*available(&list.entries()[0]), task(1, "a", Status::ToDo, Priority::Low));
    assert_eq!(*list.last_error(), Some(db_error("update failed")));
}

#[test]
fn delete_success_removes_the_entry() {
    let mut list = seeded(vec![
        task(1, "a", Status::ToDo, Priority::Low),
        task(2, "b", Status::ToDo, Priority::Low),
    ]);
    let call = list.dispatch(Intent::Delete(1)).expect("delete dispatches");
    match &call.data {
        StorageOp::Delete(id) => assert_eq!(*id, 1),
        other => panic!("expected a delete call, got {:?}", other),
    }
    let offer = list.apply_response(Pending::new(
        call.request_id,
        StorageResult::Deleted(Ok(1)),
    ));
    assert!(offer.is_none());
    assert_eq!(list.entries().len(), 1);
    assert_eq!(available(&list.entries()[0]).id, 2);
    assert!(list.last_error().is_none());
}

#[test]
fn delete_failure_restores_the_entry_unchanged() {
    let mut list = seeded(vec![task(1, "a", Status::ToDo, Priority::Low)]);
    let call = list.dispatch(Intent::Delete(1)).expect("delete dispatches");
    let offer = list.apply_response(Pending::new(
        call.request_id,
        StorageResult::Deleted(Err(db_error("delete failed"))),
    ));
    assert!(offer.is_none());
    assert_eq!(*available(&list.entries()[0]), task(1, "a", Status::ToDo, Priority::Low));
    assert_eq!(*list.last_error(), Some(db_error("delete failed")));
}

#[test]
fn completion_order_does_not_change_the_collection() {
    let tasks = vec![
        task(1, "a", Status::ToDo, Priority::Low),
        task(2, "b", Status::ToDo, Priority::Low),
    ];
    let update = ("a2".to_string(), Status::Done, Priority::High);

    let mut first = seeded(tasks.clone());
    let call_u = first
        .dispatch(Intent::Update(1, update.clone()))
        .expect("update dispatches");
    let call_d = first.dispatch(Intent::Delete(2)).expect("delete dispatches");
    let response_u = |rid: u64| {
        Pending::new(
            rid,
            StorageResult::Updated(Ok(task(1, "a2", Status::Done, Priority::High))),
        )
    };
    let response_d = |rid: u64| Pending::new(rid, StorageResult::Deleted(Ok(2)));

    let mut second = seeded(tasks);
    let call_u2 = second
        .dispatch(Intent::Update(1, update))
        .expect("update dispatches");
    let call_d2 = second.dispatch(Intent::Delete(2)).expect("delete dispatches");

    first.apply_response(response_u(call_u.request_id));
    first.apply_response(response_d(call_d.request_id));

    second.apply_response(response_d(call_d2.request_id));
    second.apply_response(response_u(call_u2.request_id));

    assert_eq!(first.entries().len(), 1);
    assert_eq!(second.entries().len(), 1);
    assert_eq!(
        *available(&first.entries()[0]),
        *available(&second.entries()[0])
    );
}

#[test]
fn fetch_all_replaces_settled_entries_and_preserves_pending_ones() {
    let mut list = seeded(vec![
        task(1, "a", Status::ToDo, Priority::Low),
        task(2, "b", Status::ToDo, Priority::Low),
    ]);
    let call_u = list
        .dispatch(Intent::Update(1, ("a2".to_string(), Status::Done, Priority::Low)))
        .expect("update dispatches");
    let call_f = list.dispatch(Intent::FetchAll).expect("fetch dispatches");
    let offer = list.apply_response(Pending::new(
        call_f.request_id,
        StorageResult::FetchedAll(Ok(vec![task(3, "c", Status::ToDo, Priority::Low)])),
    ));
    assert!(offer.is_none());
    assert_eq!(list.entries().len(), 2);
    assert_eq!(available(&list.entries()[0]).id, 3);
    assert!(matches!(list.entries()[1], ListEntry::PendingUpdate(_, _)));

    // the preserved entry's own response still governs its fate
    let offer = list.apply_response(Pending::new(
        call_u.request_id,
        StorageResult::Updated(Ok(task(1, "a2", Status::Done, Priority::Low))),
    ));
    assert!(offer.is_none());
    assert_eq!(available(&list.entries()[1]).id, 1);
}

#[test]
fn second_fetch_while_one_is_outstanding_is_rejected() {
    let mut list = AsyncList::new();
    let first = list.dispatch(Intent::FetchAll);
    assert!(first.is_some());
    assert!(list.dispatch(Intent::FetchAll).is_none());
}

#[test]
fn fetch_failure_records_the_error_and_clears_the_outstanding_fetch() {
    let mut list = AsyncList::new();
    let call = list.dispatch(Intent::FetchAll).expect("fetch dispatches");
    let offer = list.apply_response(Pending::new(
        call.request_id,
        StorageResult::FetchedAll(Err(db_error("no connection"))),
    ));
    assert!(offer.is_none());
    assert_eq!(*list.last_error(), Some(db_error("no connection")));
    // the failed fetch is settled, so a new fetch may dispatch
    assert!(list.dispatch(Intent::FetchAll).is_some());
}

#[test]
fn request_identifiers_are_never_reused() {
    let mut list = AsyncList::new();
    let a = list
        .dispatch(Intent::Create("a".to_string()))
        .expect("create dispatches");
    let b = list
        .dispatch(Intent::Create("b".to_string()))
        .expect("create dispatches");
    let c = list.dispatch(Intent::FetchAll).expect("fetch dispatches");
    assert_ne!(a.request_id, b.request_id);
    assert_ne!(b.request_id, c.request_id);
    assert_ne!(a.request_id, c.request_id);
}

#[test]
fn a_later_error_overwrites_the_recorded_one() {
    let mut list = seeded(vec![
        task(1, "a", Status::ToDo, Priority::Low),
        task(2, "b", Status::ToDo, Priority::Low),
    ]);
    let call1 = list.dispatch(Intent::Delete(1)).expect("delete dispatches");
    let call2 = list.dispatch(Intent::Delete(2)).expect("delete dispatches");
    list.apply_response(Pending::new(
        call1.request_id,
        StorageResult::Deleted(Err(db_error("first"))),
    ));
    list.apply_response(Pending::new(
        call2.request_id,
        StorageResult::Deleted(Err(db_error("second"))),
    ));
    assert_eq!(*list.last_error(), Some(db_error("second")));
}

#[test]
fn every_database_error_is_terminal() {
    assert!(!db_error("anything").should_retry());
}

#[test]
fn the_error_carries_the_store_message() {
    assert_eq!(db_error("disk on fire").message(), "disk on fire");
}

#[test]
fn fetching_an_empty_collection_clears_the_settled_entries() {
    let mut list = seeded(vec![task(1, "a", Status::ToDo, Priority::Low)]);
    let call = list.dispatch(Intent::FetchAll).expect("fetch dispatches");
    let offer = list.apply_response(Pending::new(
        call.request_id,
        StorageResult::FetchedAll(Ok(vec![])),
    ));
    assert!(offer.is_none());
    assert!(list.entries().is_empty());
    assert!(list.last_error().is_none());
}

use std::cmp::Ordering;

use optilist::async_list::{AsyncList, Intent, ListEntry, PendingItemOperation, StorageResult};
use optilist::pending::Pending;
use optilist::pipeline::{sort_visible, Row};
use optilist::task::{Priority, Status, Task};
use optilist::task_list::{TaskFilter, TaskSorter};

fn task(id: i64, description: &str, status: Status, priority: Priority) -> Task {
    Task { id, description: description.to_string(), status, priority }
}

fn seeded(tasks: Vec<Task>) -> AsyncList {
    let mut list = AsyncList::new();
    let call = list.dispatch(Intent::FetchAll).expect("fetch dispatches");
    let offer = list.apply_response(Pending::new(
        call.request_id,
        StorageResult::FetchedAll(Ok(tasks)),
    ));
    assert!(offer.is_none());
    list
}

fn visible_ids(list: &AsyncList) -> Vec<i64> {
    list.visible()
        .iter()
        .map(|row| row.entry.display_task().id)
        .collect()
}

#[test]
fn filter_all_shows_everything_with_a_uniform_score() {
    let done = task(1, "a", Status::Done, Priority::Low);
    let open = task(2, "b", Status::ToDo, Priority::Low);
    assert_eq!(TaskFilter::All.filter(&done), (true, 0));
    assert_eq!(TaskFilter::All.filter(&open), (true, 0));
}

#[test]
fn filter_active_hides_done_tasks() {
    let done = task(1, "a", Status::Done, Priority::Low);
    let open = task(2, "b", Status::InProgress, Priority::Low);
    assert_eq!(TaskFilter::Active.filter(&done), (false, 0));
    assert_eq!(TaskFilter::Active.filter(&open), (true, 0));
}

#[test]
fn filter_completed_shows_only_done_tasks() {
    let done = task(1, "a", Status::Done, Priority::Low);
    let open = task(2, "b", Status::ToDo, Priority::Low);
    assert_eq!(TaskFilter::Completed.filter(&done), (true, 0));
    assert_eq!(TaskFilter::Completed.filter(&open), (false, 0));
}

#[test]
fn status_first_orders_by_status_then_priority() {
    let mut list = seeded(vec![
        task(1, "low todo", Status::ToDo, Priority::Low),
        task(2, "high todo", Status::ToDo, Priority::High),
        task(3, "in progress", Status::InProgress, Priority::Low),
    ]);
    assert!(list.dispatch(Intent::ToggleFilter(TaskFilter::All)).is_none());
    assert_eq!(visible_ids(&list), vec![2, 1, 3]);
}

#[test]
fn priority_first_orders_by_priority_then_status() {
    let mut list = seeded(vec![
        task(1, "todo low", Status::ToDo, Priority::Low),
        task(2, "in progress high", Status::InProgress, Priority::High),
    ]);
    assert!(list.dispatch(Intent::ToggleFilter(TaskFilter::All)).is_none());
    assert_eq!(visible_ids(&list), vec![1, 2]);
    assert!(list.dispatch(Intent::ToggleSort(TaskSorter::PriorityFirst)).is_none());
    assert_eq!(visible_ids(&list), vec![2, 1]);
}

#[test]
fn equal_ranks_break_ties_by_descending_id() {
    let list = seeded(vec![
        task(5, "a", Status::ToDo, Priority::Medium),
        task(9, "b", Status::ToDo, Priority::Medium),
    ]);
    assert_eq!(visible_ids(&list), vec![9, 5]);
}

#[test]
fn the_default_filter_hides_done_tasks_from_the_projection() {
    let list = seeded(vec![
        task(1, "open", Status::ToDo, Priority::Low),
        task(2, "closed", Status::Done, Priority::Low),
    ]);
    assert_eq!(visible_ids(&list), vec![1]);
}

#[test]
fn sorter_sort_reports_the_total_order() {
    let a = task(1, "a", Status::ToDo, Priority::Low);
    let b = task(2, "b", Status::Done, Priority::Low);
    let sorter = TaskSorter::StatusFirst;
    assert_eq!(sorter.sort(&a, &b, 0, 0), Ordering::Less);
    assert_eq!(sorter.sort(&b, &a, 0, 0), Ordering::Greater);
    assert_eq!(sorter.sort(&a, &a, 0, 0), Ordering::Equal);
}

#[test]
fn higher_scores_sort_first_and_rerunning_is_stable() {
    let rows = || {
        vec![
            Row { entry: ListEntry::Available(task(1, "a", Status::ToDo, Priority::Low)), score: 3 },
            Row { entry: ListEntry::Available(task(2, "b", Status::ToDo, Priority::Low)), score: 1 },
            Row { entry: ListEntry::Available(task(3, "c", Status::ToDo, Priority::Low)), score: 2 },
        ]
    };
    let keys = |rows: &Vec<Row>| {
        rows.iter()
            .map(|row| (row.entry.display_task().id, row.score))
            .collect::<Vec<_>>()
    };
    let first = sort_visible(rows(), &TaskSorter::StatusFirst);
    let second = sort_visible(rows(), &TaskSorter::StatusFirst);
    assert_eq!(keys(&first), vec![(1, 3), (3, 2), (2, 1)]);
    assert_eq!(keys(&first), keys(&second));
}

#[test]
fn rerunning_the_pipeline_on_unchanged_state_yields_the_identical_sequence() {
    let mut list = seeded(vec![
        task(1, "a", Status::ToDo, Priority::Low),
        task(2, "b", Status::InProgress, Priority::High),
        task(3, "c", Status::Done, Priority::Medium),
    ]);
    assert!(list.dispatch(Intent::ToggleFilter(TaskFilter::All)).is_none());
    let first = visible_ids(&list);
    let second = visible_ids(&list);
    assert_eq!(first, second);
    assert_eq!(first, vec![1, 2, 3]);
}

#[test]
fn pending_entries_keep_their_place_in_the_projection() {
    let mut list = seeded(vec![
        task(1, "a", Status::ToDo, Priority::Low),
        task(2, "b", Status::ToDo, Priority::Low),
    ]);
    list.dispatch(Intent::Update(2, ("b2".to_string(), Status::ToDo, Priority::Low)))
        .expect("update dispatches");
    let rows = list.visible();
    assert_eq!(rows.len(), 2);
    assert_eq!(rows[0].entry.display_task().id, 2);
    assert_eq!(rows[0].entry.pending_op(), PendingItemOperation::PendingUpdate);
    assert_eq!(rows[1].entry.pending_op(), PendingItemOperation::Idle);
}

#[test]
fn a_provisional_entry_participates_in_the_visible_set() {
    let mut list = AsyncList::new();
    list.dispatch(Intent::Create("placeholder".to_string()))
        .expect("create dispatches");
    let rows = list.visible();
    assert_eq!(rows.len(), 1);
    assert!(matches!(rows[0].entry, ListEntry::PendingCreate(_, _)));
    assert_eq!(rows[0].entry.display_task().description, "placeholder");

    // a provisional item is not yet done, so the completed view hides it
    list.dispatch(Intent::ToggleFilter(TaskFilter::Completed));
    assert!(list.visible().is_empty());
}

#[test]
fn toggling_the_filter_changes_only_the_projection() {
    let mut list = seeded(vec![
        task(1, "open", Status::ToDo, Priority::Low),
        task(2, "closed", Status::Done, Priority::Low),
    ]);
    assert!(list.dispatch(Intent::ToggleFilter(TaskFilter::Completed)).is_none());
    assert_eq!(visible_ids(&list), vec![2]);
    assert!(list.dispatch(Intent::ToggleFilter(TaskFilter::All)).is_none());
    assert_eq!(visible_ids(&list), vec![1, 2]);
    assert_eq!(list.entries().len(), 2);
}

use optilist::task::{Priority, Status, Task, TaskError};
use optilist::task_list::{CreateTaskForm, Submit, UpdateTaskForm};

fn task(id: i64, description: &str, status: Status, priority: Priority) -> Task {
    Task { id, description: description.to_string(), status, priority }
}

#[test]
fn create_validate_rejects_empty_description() {
    let mut form = CreateTaskForm::default();
    assert_eq!(form.validate(), Err(TaskError::EmptyDescription));
    assert_eq!(form.description, "");
    assert_eq!(form.last_error, None);
}

#[test]
fn create_validate_takes_description_out() {
    let mut form = CreateTaskForm::default();
    form.description = "buy milk".to_string();
    assert_eq!(form.validate(), Ok("buy milk".to_string()));
    assert_eq!(form.description, "");
}

#[test]
fn create_submit_yes_dispatches_validated_output() {
    let mut form = CreateTaskForm::default();
    form.description = "buy milk".to_string();
    let out = form.submit(Submit::Yes);
    assert_eq!(out, Some("buy milk".to_string()));
    assert_eq!(form.description, "");
    assert_eq!(form.last_error, None);
}

#[test]
fn create_submit_yes_records_validation_error_inline() {
    let mut form = CreateTaskForm::default();
    let out = form.submit(Submit::Yes);
    assert_eq!(out, None);
    assert_eq!(form.last_error, Some(TaskError::EmptyDescription));
}

#[test]
fn create_submit_no_keeps_editing() {
    let mut form = CreateTaskForm::default();
    form.description = "half-typed".to_string();
    let out = form.submit(Submit::No);
    assert_eq!(out, None);
    assert_eq!(form.description, "half-typed");
}

#[test]
fn create_submit_cancel_discards_without_dispatch() {
    let mut form = CreateTaskForm::default();
    form.description = "half-typed".to_string();
    form.last_error = Some(TaskError::EmptyDescription);
    let out = form.submit(Submit::Cancel);
    assert_eq!(out, None);
    assert_eq!(form.description, "");
    assert_eq!(form.last_error, None);
}

#[test]
fn update_form_is_seeded_from_the_current_item() {
    let form = UpdateTaskForm::from(task(3, "write report", Status::InProgress, Priority::High));
    assert_eq!(form.description, "write report");
    assert_eq!(form.status, Status::InProgress);
    assert_eq!(form.priority, Priority::High);
    assert_eq!(form.last_error, None);
}

#[test]
fn update_validate_rejects_empty_description() {
    let mut form = UpdateTaskForm::default();
    assert_eq!(form.validate(), Err(TaskError::EmptyDescription));
}

#[test]
fn update_submit_yes_yields_the_validated_triple() {
    let mut form = UpdateTaskForm::from(task(3, "write report", Status::InProgress, Priority::High));
    let out = form.submit(Submit::Yes);
    assert_eq!(
        out,
        Some(("write report".to_string(), Status::InProgress, Priority::High))
    );
    assert_eq!(form.description, "");
}

#[test]
fn update_submit_cancel_discards_without_dispatch() {
    let mut form = UpdateTaskForm::from(task(3, "write report", Status::InProgress, Priority::High));
    let out = form.submit(Submit::Cancel);
    assert_eq!(out, None);
    assert_eq!(form.description, "");
    assert_eq!(form.last_error, None);
}

#[test]
fn status_cycles_through_all_variants() {
    assert_eq!(Status::ToDo.next(), Status::InProgress);
    assert_eq!(Status::InProgress.next(), Status::Done);
    assert_eq!(Status::Done.next(), Status::ToDo);
}

#[test]
fn priority_cycles_through_all_variants() {
    assert_eq!(Priority::Low.next(), Priority::Medium);
    assert_eq!(Priority::Medium.next(), Priority::High);
    assert_eq!(Priority::High.next(), Priority::Low);
}

#[test]
fn status_labels() {
    assert_eq!(Status::ToDo.label(), "To Do");
    assert_eq!(Status::InProgress.label(), "In Progress");
    assert_eq!(Status::Done.label(), "Done");
}

#[test]
fn priority_labels() {
    assert_eq!(Priority::Low.label(), "Low");
    assert_eq!(Priority::Medium.label(), "Medium");
    assert_eq!(Priority::High.label(), "High");
}

#[test]
fn ranks_follow_the_cycle_order() {
    assert_eq!(Status::ToDo.rank(), 0);
    assert_eq!(Status::InProgress.rank(), 1);
    assert_eq!(Status::Done.rank(), 2);
    assert_eq!(Priority::Low.rank(), 0);
    assert_eq!(Priority::Medium.rank(), 1);
    assert_eq!(Priority::High.rank(), 2);
}

#[test]
fn defaults_match_the_blank_form() {
    assert_eq!(Status::default(), Status::ToDo);
    assert_eq!(Priority::default(), Priority::Low);
    let form = UpdateTaskForm::default();
    assert_eq!(form.status, Status::ToDo);
    assert_eq!(form.priority, Priority::Low);
}

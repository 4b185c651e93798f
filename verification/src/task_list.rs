//! The task-specific capabilities around the engine: the create and update
//! forms with their validation, the visibility filter, and the sorter.

use vstd::prelude::*;

use crate::task::{Priority, Status, Task, TaskError, TaskView};

verus! {

/// Outcome of a form interaction: attempt validation and dispatch, keep
/// editing, or discard the form without dispatching.
#[derive(Clone, Copy, Debug, PartialEq, Eq, Structural)]
pub enum Submit {
    Yes,
    No,
    Cancel,
}

/// Transient state of the create panel. It holds the description being typed
/// and the last validation failure, shown inline.
#[derive(Debug)]
pub struct CreateTaskForm {
    pub description: String,
    pub last_error: Option<TaskError>,
}

impl Default for CreateTaskForm {
    fn default() -> (r: Self)
        ensures
            r.description@ == Seq::<char>::empty(),
            r.last_error is None,
    {
        CreateTaskForm { description: String::new(), last_error: None }
    }
}

impl CreateTaskForm {
    /// Validation, run only on submit: an empty description is rejected and
    /// never dispatched; otherwise the description is taken out of the form.
    pub fn validate(&mut self) -> (r: Result<String, TaskError>)
        ensures
            old(self).description@.len() == 0 ==> {
                &&& r == Err::<String, TaskError>(TaskError::EmptyDescription)
                &&& *final(self) == *old(self)
            },
            old(self).description@.len() > 0 ==> {
                &&& r matches Ok(d) && d@ == old(self).description@
                &&& final(self).description@ == Seq::<char>::empty()
                &&& final(self).last_error == old(self).last_error
            },
    {
        if self.description.as_str().is_empty() {
            return Err(TaskError::EmptyDescription);
        }
        let description = self.description.clone();
        self.description = String::new();
        Ok(description)
    }

    /// One submit interaction. `Yes` validates and either yields the output
    /// to dispatch or records the validation failure inline; `No` keeps
    /// editing; `Cancel` discards the transient state without dispatching.
    pub fn submit(&mut self, choice: Submit) -> (r: Option<String>)
        ensures
            choice == Submit::No ==> r is None && *final(self) == *old(self),
            choice == Submit::Cancel ==> {
                &&& r is None
                &&& final(self).description@ == Seq::<char>::empty()
                &&& final(self).last_error is None
            },
            choice == Submit::Yes && old(self).description@.len() == 0 ==> {
                &&& r is None
                &&& final(self).description@ == old(self).description@
                &&& final(self).last_error == Some(TaskError::EmptyDescription)
            },
            choice == Submit::Yes && old(self).description@.len() > 0 ==> {
                &&& r matches Some(d) && d@ == old(self).description@
                &&& final(self).description@ == Seq::<char>::empty()
                &&& final(self).last_error is None
            },
    {
        match choice {
            Submit::No => None,
            Submit::Cancel => {
                self.description = String::new();
                self.last_error = None;
                None
            },
            Submit::Yes => {
                match self.validate() {
                    Ok(description) => {
                        self.last_error = None;
                        Some(description)
                    },
                    Err(error) => {
                        self.last_error = Some(error);
                        None
                    },
                }
            },
        }
    }
}

/// Transient state of the edit panel, seeded from the current value of the
/// task being edited.
#[derive(Debug)]
pub struct UpdateTaskForm {
    pub description: String,
    pub status: Status,
    pub priority: Priority,
    pub last_error: Option<TaskError>,
}

impl Default for UpdateTaskForm {
    fn default() -> (r: Self)
        ensures
            r.description@ == Seq::<char>::empty(),
            r.status == Status::ToDo,
            r.priority == Priority::Low,
            r.last_error is None,
    {
        UpdateTaskForm {
            description: String::new(),
            status: Status::ToDo,
            priority: Priority::Low,
            last_error: None,
        }
    }
}

impl From<Task> for UpdateTaskForm {
    fn from(value: Task) -> (r: Self) {
        UpdateTaskForm {
            description: value.description,
            status: value.status,
            priority: value.priority,
            last_error: None,
        }
    }
}

impl vstd::std_specs::convert::FromSpecImpl<Task> for UpdateTaskForm {
    open spec fn obeys_from_spec() -> bool {
        true
    }

    open spec fn from_spec(value: Task) -> Self {
        UpdateTaskForm {
            description: value.description,
            status: value.status,
            priority: value.priority,
            last_error: None,
        }
    }
}

impl UpdateTaskForm {
    /// Validation, run only on submit: an empty description is rejected and
    /// never dispatched; otherwise the validated output is taken out.
    pub fn validate(&mut self) -> (r: Result<(String, Status, Priority), TaskError>)
        ensures
            old(self).description@.len() == 0 ==> {
                &&& r == Err::<(String, Status, Priority), TaskError>(TaskError::EmptyDescription)
                &&& *final(self) == *old(self)
            },
            old(self).description@.len() > 0 ==> {
                &&& r matches Ok(out) && out.0@ == old(self).description@ && out.1
                    == old(self).status && out.2 == old(self).priority
                &&& final(self).description@ == Seq::<char>::empty()
                &&& final(self).status == old(self).status
                &&& final(self).priority == old(self).priority
                &&& final(self).last_error == old(self).last_error
            },
    {
        if self.description.as_str().is_empty() {
            return Err(TaskError::EmptyDescription);
        }
        let description = self.description.clone();
        self.description = String::new();
        Ok((description, self.status, self.priority))
    }

    /// One submit interaction; see [`CreateTaskForm::submit`].
    pub fn submit(&mut self, choice: Submit) -> (r: Option<(String, Status, Priority)>)
        ensures
            choice == Submit::No ==> r is None && *final(self) == *old(self),
            choice == Submit::Cancel ==> {
                &&& r is None
                &&& final(self).description@ == Seq::<char>::empty()
                &&& final(self).last_error is None
            },
            choice == Submit::Yes && old(self).description@.len() == 0 ==> {
                &&& r is None
                &&& final(self).description@ == old(self).description@
                &&& final(self).status == old(self).status
                &&& final(self).priority == old(self).priority
                &&& final(self).last_error == Some(TaskError::EmptyDescription)
            },
            choice == Submit::Yes && old(self).description@.len() > 0 ==> {
                &&& r matches Some(out) && out.0@ == old(self).description@ && out.1
                    == old(self).status && out.2 == old(self).priority
                &&& final(self).description@ == Seq::<char>::empty()
                &&& final(self).last_error is None
            },
    {
        match choice {
            Submit::No => None,
            Submit::Cancel => {
                self.description = String::new();
                self.last_error = None;
                None
            },
            Submit::Yes => {
                match self.validate() {
                    Ok(out) => {
                        self.last_error = None;
                        Some(out)
                    },
                    Err(error) => {
                        self.last_error = Some(error);
                        None
                    },
                }
            },
        }
    }
}

/// Which tasks are visible. The filter also yields a relevance score for each
/// visible task; every variant here scores uniformly, so the sorter's own
/// criteria decide the order.
#[derive(Clone, Copy, Debug, PartialEq, Eq, Structural)]
pub enum TaskFilter {
    All,
    Active,
    Completed,
}

impl Default for TaskFilter {
    fn default() -> (r: Self)
        ensures
            r == TaskFilter::Active,
    {
        TaskFilter::Active
    }
}

impl TaskFilter {
    /// Whether the task is visible under this filter, and its relevance
    /// score. A pure function of the task and the filter state.
    pub open spec fn filter_spec(self, task: TaskView) -> (bool, int) {
        let visible = match self {
            TaskFilter::All => true,
            TaskFilter::Active => !(task.status is Done),
            TaskFilter::Completed => task.status is Done,
        };
        (visible, 0)
    }

    pub fn filter(&self, task: &Task) -> (r: (bool, i64))
        ensures
            r.0 == self.filter_spec(task@).0,
            r.1 as int == self.filter_spec(task@).1,
    {
        let visible = match self {
            TaskFilter::All => true,
            TaskFilter::Active => !matches!(task.status, Status::Done),
            TaskFilter::Completed => matches!(task.status, Status::Done),
        };
        (visible, 0)
    }
}

/// The order of the visible tasks. Both variants break ties deterministically
/// by descending identifier, so the order is total and rendering does not
/// jitter equal-ranked items.
#[derive(Clone, Copy, Debug, PartialEq, Eq, Structural)]
pub enum TaskSorter {
    StatusFirst,
    PriorityFirst,
}

impl Default for TaskSorter {
    fn default() -> (r: Self)
        ensures
            r == TaskSorter::StatusFirst,
    {
        TaskSorter::StatusFirst
    }
}

impl TaskSorter {
    pub fn enabled(&self) -> (r: bool)
        ensures
            r,
    {
        true
    }

    /// `a` may stand at or before `b`: ascending status, then descending
    /// priority, then descending identifier — or priority before status.
    /// This relation is total and transitive, and antisymmetric up to equal
    /// ranks and identifiers.
    pub open spec fn le_spec(self, a: TaskView, b: TaskView) -> bool {
        let sa = a.status.rank_spec();
        let sb = b.status.rank_spec();
        let pa = a.priority.rank_spec();
        let pb = b.priority.rank_spec();
        match self {
            TaskSorter::StatusFirst => sa < sb || (sa == sb && (pa > pb || (pa == pb && a.id
                >= b.id))),
            TaskSorter::PriorityFirst => pa > pb || (pa == pb && (sa < sb || (sa == sb && a.id
                >= b.id))),
        }
    }

    pub fn le(&self, a: &Task, b: &Task) -> (r: bool)
        ensures
            r == self.le_spec(a@, b@),
    {
        let sa = a.status.rank();
        let sb = b.status.rank();
        let pa = a.priority.rank();
        let pb = b.priority.rank();
        match self {
            TaskSorter::StatusFirst => sa < sb || (sa == sb && (pa > pb || (pa == pb && a.id
                >= b.id))),
            TaskSorter::PriorityFirst => pa > pb || (pa == pb && (sa < sb || (sa == sb && a.id
                >= b.id))),
        }
    }

    /// The sorter capability: order two visible items given their filter
    /// scores. This sorter orders by its own criteria alone; the scores are
    /// part of the capability's interface and are not consulted.
    pub fn sort(&self, a: &Task, b: &Task, _score_a: i64, _score_b: i64) -> (r:
        core::cmp::Ordering)
        ensures
            r == core::cmp::Ordering::Less <==> self.le_spec(a@, b@) && !self.le_spec(b@, a@),
            r == core::cmp::Ordering::Equal <==> self.le_spec(a@, b@) && self.le_spec(b@, a@),
            r == core::cmp::Ordering::Greater <==> !self.le_spec(a@, b@),
    {
        let ab = self.le(a, b);
        let ba = self.le(b, a);
        if ab && ba {
            core::cmp::Ordering::Equal
        } else if ab {
            core::cmp::Ordering::Less
        } else {
            core::cmp::Ordering::Greater
        }
    }

    /// The relation `le_spec` is total: two tasks always compare.
    pub proof fn lemma_le_total(self, a: TaskView, b: TaskView)
        ensures
            self.le_spec(a, b) || self.le_spec(b, a),
    {
    }

    /// The relation `le_spec` is transitive.
    pub proof fn lemma_le_transitive(self, a: TaskView, b: TaskView, c: TaskView)
        requires
            self.le_spec(a, b),
            self.le_spec(b, c),
        ensures
            self.le_spec(a, c),
    {
    }
}

} // verus!

//! The record type managed by the engine, together with its domain errors.

use vstd::prelude::*;

verus! {

/// Completion state of a task; the status button cycles through the variants.
#[derive(Clone, Copy, Debug, PartialEq, Eq, Structural)]
pub enum Status {
    ToDo,
    InProgress,
    Done,
}

impl Default for Status {
    fn default() -> (r: Self)
        ensures
            r == Status::ToDo,
    {
        Status::ToDo
    }
}

impl Status {
    /// The position of the variant in the cycle, used for ordering.
    pub open spec fn rank_spec(self) -> int {
        match self {
            Status::ToDo => 0,
            Status::InProgress => 1,
            Status::Done => 2,
        }
    }

    pub fn rank(&self) -> (r: i32)
        ensures
            r as int == self.rank_spec(),
    {
        match self {
            Status::ToDo => 0,
            Status::InProgress => 1,
            Status::Done => 2,
        }
    }

    pub open spec fn next_spec(self) -> Status {
        match self {
            Status::ToDo => Status::InProgress,
            Status::InProgress => Status::Done,
            Status::Done => Status::ToDo,
        }
    }

    pub fn next(&self) -> (r: Self)
        ensures
            r == self.next_spec(),
    {
        match self {
            Status::ToDo => Status::InProgress,
            Status::InProgress => Status::Done,
            Status::Done => Status::ToDo,
        }
    }

    pub open spec fn label_spec(self) -> Seq<char> {
        match self {
            Status::ToDo => "To Do"@,
            Status::InProgress => "In Progress"@,
            Status::Done => "Done"@,
        }
    }

    pub fn label(&self) -> (r: &'static str)
        ensures
            r@ == self.label_spec(),
    {
        match self {
            Status::ToDo => "To Do",
            Status::InProgress => "In Progress",
            Status::Done => "Done",
        }
    }
}

/// Urgency of a task; the priority button cycles through the variants.
#[derive(Clone, Copy, Debug, PartialEq, Eq, Structural)]
pub enum Priority {
    Low,
    Medium,
    High,
}

impl Default for Priority {
    fn default() -> (r: Self)
        ensures
            r == Priority::Low,
    {
        Priority::Low
    }
}

impl Priority {
    /// The position of the variant in the cycle, used for ordering.
    pub open spec fn rank_spec(self) -> int {
        match self {
            Priority::Low => 0,
            Priority::Medium => 1,
            Priority::High => 2,
        }
    }

    pub fn rank(&self) -> (r: i32)
        ensures
            r as int == self.rank_spec(),
    {
        match self {
            Priority::Low => 0,
            Priority::Medium => 1,
            Priority::High => 2,
        }
    }

    pub open spec fn next_spec(self) -> Priority {
        match self {
            Priority::Low => Priority::Medium,
            Priority::Medium => Priority::High,
            Priority::High => Priority::Low,
        }
    }

    pub fn next(&self) -> (r: Self)
        ensures
            r == self.next_spec(),
    {
        match self {
            Priority::Low => Priority::Medium,
            Priority::Medium => Priority::High,
            Priority::High => Priority::Low,
        }
    }

    pub open spec fn label_spec(self) -> Seq<char> {
        match self {
            Priority::Low => "Low"@,
            Priority::Medium => "Medium"@,
            Priority::High => "High"@,
        }
    }

    pub fn label(&self) -> (r: &'static str)
        ensures
            r@ == self.label_spec(),
    {
        match self {
            Priority::Low => "Low",
            Priority::Medium => "Medium",
            Priority::High => "High",
        }
    }
}

/// A server-owned record. The `id` is assigned by the backing store and is
/// unique and immutable for the record's lifetime; the other attributes are
/// mutated only through update operations.
#[derive(Debug)]
pub struct Task {
    pub id: i64,
    pub description: String,
    pub status: Status,
    pub priority: Priority,
}

/// The mathematical value of a [`Task`].
#[verifier::ext_equal]
pub struct TaskView {
    pub id: int,
    pub description: Seq<char>,
    pub status: Status,
    pub priority: Priority,
}

impl View for Task {
    type V = TaskView;

    open spec fn view(&self) -> TaskView {
        TaskView {
            id: self.id as int,
            description: self.description@,
            status: self.status,
            priority: self.priority,
        }
    }
}

impl Clone for Task {
    fn clone(&self) -> (r: Self)
        ensures
            r == *self,
    {
        Task {
            id: self.id,
            description: self.description.clone(),
            status: self.status,
            priority: self.priority,
        }
    }
}

impl PartialEq for Task {
    fn eq(&self, other: &Self) -> (r: bool) {
        self.id == other.id && self.description == other.description
            && self.status == other.status && self.priority == other.priority
    }
}

impl vstd::std_specs::cmp::PartialEqSpecImpl for Task {
    open spec fn obeys_eq_spec() -> bool {
        true
    }

    open spec fn eq_spec(&self, other: &Self) -> bool {
        self@ == other@
    }
}

impl Default for Task {
    fn default() -> (r: Self)
        ensures
            r.id == 0,
            r.description@ == Seq::<char>::empty(),
            r.status == Status::ToDo,
            r.priority == Priority::Low,
    {
        Task { id: 0, description: String::new(), status: Status::ToDo, priority: Priority::Low }
    }
}

/// A failure reported by the backing store. The store's own error value is
/// carried as its rendered message; the engine only classifies and records it.
#[derive(Debug)]
pub enum ServerError {
    Database(String),
}

impl View for ServerError {
    type V = Seq<char>;

    open spec fn view(&self) -> Seq<char> {
        match self {
            ServerError::Database(message) => message@,
        }
    }
}

impl Clone for ServerError {
    fn clone(&self) -> (r: Self)
        ensures
            r == *self,
    {
        match self {
            ServerError::Database(message) => ServerError::Database(message.clone()),
        }
    }
}

impl PartialEq for ServerError {
    fn eq(&self, other: &Self) -> (r: bool) {
        match (self, other) {
            (ServerError::Database(a), ServerError::Database(b)) => *a == *b,
        }
    }
}

impl vstd::std_specs::cmp::PartialEqSpecImpl for ServerError {
    open spec fn obeys_eq_spec() -> bool {
        true
    }

    open spec fn eq_spec(&self, other: &Self) -> bool {
        self@ == other@
    }
}

/// Whether the retry policy classifies a failure as safe to re-attempt.
/// Storage operations are not assumed idempotent, so every database failure
/// is terminal: the user must re-initiate the operation.
pub open spec fn error_retryable(message: Seq<char>) -> bool {
    false
}

impl ServerError {
    /// The retry policy's verdict on this failure; see [`error_retryable`].
    pub open spec fn retryable_spec(self) -> bool {
        error_retryable(self@)
    }

    pub fn should_retry(&self) -> (r: bool)
        ensures
            r == self.retryable_spec(),
    {
        false
    }

    pub fn message(&self) -> (r: &String)
        ensures
            r@ == self@,
    {
        match self {
            ServerError::Database(message) => message,
        }
    }
}

/// A validation failure raised by a form; it never reaches the store.
#[derive(Clone, Copy, Debug, PartialEq, Eq, Structural)]
pub enum TaskError {
    EmptyDescription,
}

} // verus!

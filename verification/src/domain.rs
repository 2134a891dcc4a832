//! Domain values: tasks, tags, time events, rest suggestions and errors.
use vstd::prelude::*;

verus! {

/// Lifecycle state of a task.
#[derive(Clone, Copy, Debug, PartialEq, Eq, Structural)]
pub enum Status {
    Idle,
    Running,
    Paused,
    Stopped,
}

/// Kind of an entry in the append-only time-event log.
#[derive(Clone, Copy, Debug, PartialEq, Eq, Structural)]
pub enum EventType {
    Start,
    Pause,
    Resume,
    Stop,
    Reparent,
    TagAdd,
    TagRemove,
}

/// What caused a rest suggestion to be produced.
#[derive(Clone, Copy, Debug, PartialEq, Eq, Structural)]
pub enum TriggerType {
    SubtaskEnd,
    TaskSwitch,
}

/// Response state of a rest suggestion.
#[derive(Clone, Copy, Debug, PartialEq, Eq, Structural)]
pub enum SuggestionStatus {
    Pending,
    Accepted,
    Ignored,
}

/// Structured payload attached to some time events. The recognized shapes
/// cover reparenting, subtask insertion, auto-resume and tag changes.
#[derive(Clone, Debug)]
pub enum Payload {
    Reparent { old_parent_id: Option<u64>, new_parent_id: Option<u64> },
    SubtaskPause { child_id: u64 },
    SubtaskStart { parent_id: u64 },
    ChildStopped { child_id: u64 },
    TagName { tag: String },
}

/// One task row. `parent_id` points at another task; `archived_at` is set by
/// soft deletion and is never cleared or changed afterwards.
#[derive(Clone, Debug)]
pub struct Task {
    pub id: u64,
    pub parent_id: Option<u64>,
    pub title: String,
    pub status: Status,
    pub created_at: i64,
    pub archived_at: Option<i64>,
}

/// One tag row; names are unique up to ASCII case.
#[derive(Clone, Debug)]
pub struct Tag {
    pub id: u64,
    pub name: String,
}

/// A task-to-tag link.
#[derive(Clone, Copy, Debug, PartialEq, Eq, Structural)]
pub struct TaskTag {
    pub task_id: u64,
    pub tag_id: u64,
    pub created_at: i64,
}

/// One entry of the append-only time-event log. Entries are never mutated;
/// `(ts, id)` is the canonical event order.
#[derive(Clone, Debug)]
pub struct TimeEvent {
    pub id: u64,
    pub task_id: u64,
    pub event_type: EventType,
    pub ts: i64,
    pub payload: Option<Payload>,
}

/// The part of a time event that accounting reads: everything but the
/// payload. Keys are what gets ordered and replayed.
#[derive(Clone, Copy, Debug, PartialEq, Eq, Structural)]
pub struct EventKey {
    pub id: u64,
    pub task_id: u64,
    pub event_type: EventType,
    pub ts: i64,
}

/// An exact non-negative rational, used for the deviation ratio so that the
/// rule thresholds can be compared without rounding.
#[derive(Clone, Copy, Debug, PartialEq, Eq, Structural)]
pub struct Ratio {
    pub num: i64,
    pub den: i64,
}

impl Ratio {
    /// A valid ratio: non-negative value over a positive denominator.
    pub open spec fn wf(self) -> bool {
        self.den >= 1 && self.num >= 0
    }

    /// The ratio equal to zero.
    pub fn zero() -> (r: Ratio)
        ensures
            r.wf(),
            r.num == 0,
            r.den == 1,
    {
        Ratio { num: 0, den: 1 }
    }

    /// The ratio is at least one.
    pub open spec fn spec_ge_one(self) -> bool {
        self.num >= self.den
    }

    /// The ratio is at least one half.
    pub open spec fn spec_ge_half(self) -> bool {
        2 * self.num >= self.den
    }

    pub fn ge_one(&self) -> (r: bool)
        ensures
            r == self.spec_ge_one(),
    {
        self.num >= self.den
    }

    pub fn ge_half(&self) -> (r: bool)
        requires
            self.wf(),
        ensures
            r == self.spec_ge_half(),
    {
        // 2 * num may not fit in i64; den - num always does here.
        self.num >= self.den - self.num
    }
}

/// One rest-suggestion row. At most one row is pending at any time.
#[derive(Clone, Debug)]
pub struct RestSuggestionRecord {
    pub id: u64,
    pub trigger_type: TriggerType,
    pub task_id: Option<u64>,
    pub focus_seconds: i64,
    pub switch_count_30m: i64,
    pub deviation_ratio: Ratio,
    pub suggested_minutes: i64,
    pub reasons: Vec<String>,
    pub status: SuggestionStatus,
    pub created_at: i64,
    pub responded_at: Option<i64>,
}

/// Error kinds surfaced by the engine.
#[derive(Clone, Copy, Debug, PartialEq, Eq, Structural)]
pub enum AppError {
    /// Empty title or tag, bad range label, non-positive id, empty id list,
    /// or a task given as its own parent.
    InvalidInput,
    /// Unknown or archived task, or unknown rest suggestion.
    NotFound { id: u64 },
    /// A lifecycle transition applied in a state that does not admit it.
    InvalidState,
    /// Another task blocks the operation; names the blocker and its status.
    Conflict { task_id: u64, status: Status },
    /// Reparenting would point into the task's own subtree.
    CycleConflict { task_id: u64 },
    /// Underlying storage failure, including a delete that would leave a
    /// surviving row referencing a removed task.
    Storage,
}

impl AppError {
    /// A short fixed description of the error kind.
    pub fn kind_message(&self) -> (r: &'static str) {
        match self {
            AppError::InvalidInput => "invalid input",
            AppError::NotFound { .. } => "not found or archived",
            AppError::InvalidState => "invalid state for this transition",
            AppError::Conflict { .. } => "another task blocks this operation",
            AppError::CycleConflict { .. } => "reparenting would create a cycle",
            AppError::Storage => "storage failure",
        }
    }
}

/// Per-task record of an overview response.
#[derive(Clone, Debug)]
pub struct TaskRecord {
    pub id: u64,
    pub parent_id: Option<u64>,
    pub title: String,
    pub status: Status,
    pub created_at: i64,
    pub tags: Vec<String>,
    pub inclusive_seconds: i64,
    pub exclusive_seconds: i64,
}

/// Result of an overview query.
#[derive(Clone, Debug)]
pub struct OverviewResponse {
    pub range: String,
    pub generated_at: i64,
    pub active_task_id: Option<u64>,
    pub rest_suggestion: Option<RestSuggestionRecord>,
    pub tasks: Vec<TaskRecord>,
}

} // verus!

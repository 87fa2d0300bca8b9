use vstd::prelude::*;

verus! {

/// A weekly availability window, `HH:MM` to `HH:MM`.
#[derive(Debug)]
pub struct AvailabilityWindow {
    pub start: String,
    pub end: String,
}

/// The windows configured for one weekday. A request lists its days in
/// ascending order of the day's name, each once (`days_ascending`).
#[derive(Debug)]
pub struct DayAvailability {
    pub day: String,
    pub windows: Vec<AvailabilityWindow>,
}

/// Planner settings.
#[derive(Debug)]
pub struct Settings {
    pub timezone: String,
    pub availability: Vec<DayAvailability>,
    pub horizon_days: u32,
    pub slot_minutes: u32,
    pub solve_seconds: u32,
    pub priority_low_weight: i64,
    pub priority_normal_weight: i64,
    pub priority_high_weight: i64,
    pub cognitive_enabled: bool,
    pub low_window_start: String,
    pub low_window_end: String,
    pub low_outside_penalty: i64,
    pub medium_window_start: String,
    pub medium_window_end: String,
    pub medium_outside_penalty: i64,
    pub high_window_start: String,
    pub high_window_end: String,
    pub high_outside_penalty: i64,
    pub high_streak_limit: u32,
    pub recovery_minutes: u32,
    pub excess_high_penalty: i64,
}

/// A calendar event.
#[derive(Debug)]
pub struct Event {
    pub id: String,
    pub title: String,
    pub description: Option<String>,
    pub start_at: String,
    pub end_at: String,
    pub timezone: String,
    pub all_day: bool,
    pub rrule: Option<String>,
    pub origin: EventOrigin,
    pub task_id: Option<String>,
    pub proposal_id: Option<String>,
    pub created_at: String,
    pub updated_at: String,
}

#[derive(Clone, Copy, Debug, PartialEq, Eq, Structural)]
pub enum EventOrigin {
    Manual,
    Planner,
}

/// A task to be placed in the calendar.
#[derive(Debug)]
pub struct Task {
    pub id: String,
    pub title: String,
    pub duration_minutes: u32,
    pub priority: Priority,
    pub cognitive_load: CognitiveLoad,
    pub earliest_at: Option<String>,
    pub deadline_kind: DeadlineKind,
    pub deadline_at: Option<String>,
    pub state: TaskState,
    pub linked_event_id: Option<String>,
    pub created_at: String,
    pub updated_at: String,
}

impl Clone for Task {
    fn clone(&self) -> (r: Self)
        ensures
            r == *self,
    {
        Task {
            id: self.id.clone(),
            title: self.title.clone(),
            duration_minutes: self.duration_minutes,
            priority: self.priority,
            cognitive_load: self.cognitive_load,
            earliest_at: self.earliest_at.clone(),
            deadline_kind: self.deadline_kind,
            deadline_at: self.deadline_at.clone(),
            state: self.state,
            linked_event_id: self.linked_event_id.clone(),
            created_at: self.created_at.clone(),
            updated_at: self.updated_at.clone(),
        }
    }
}

#[derive(Clone, Copy, Debug, PartialEq, Eq, PartialOrd, Ord, Structural)]
pub enum Priority {
    Low,
    Normal,
    High,
}

#[derive(Clone, Copy, Debug, PartialEq, Eq, PartialOrd, Ord, Structural)]
pub enum CognitiveLoad {
    Low,
    Medium,
    High,
}

#[derive(Clone, Copy, Debug, PartialEq, Eq, Structural)]
pub enum DeadlineKind {
    /// No deadline (`none` on the wire).
    NoDeadline,
    Hard,
    Soft,
}

#[derive(Clone, Copy, Debug, PartialEq, Eq, Structural)]
pub enum TaskState {
    Inbox,
    Applied,
    MissingEvent,
}

/// `to_task_id` depends on `from_task_id`: the latter comes first.
#[derive(Debug)]
pub struct Dependency {
    pub from_task_id: String,
    pub to_task_id: String,
}

/// A three-level score; each level is a sum of penalties, so never above zero
/// for the plans this adapter builds.
#[derive(Clone, Copy, Debug, PartialEq, Eq, Structural)]
pub struct Score {
    pub hard: i64,
    pub medium: i64,
    pub soft: i64,
}

#[derive(Clone, Copy, Debug, PartialEq, Eq, Structural)]
pub enum DiagnosticOutcome {
    Scheduled,
    NoHardFeasibleSlot,
    FeasibleButNotSelected,
}

#[derive(Debug)]
pub struct ProposalItem {
    pub task_id: String,
    pub start_at: Option<String>,
    pub end_at: Option<String>,
    pub scheduled: bool,
    pub cognitive_penalty: i64,
    pub fatigue_penalty: i64,
    pub explanation: String,
    pub diagnostics: ProposalDiagnostics,
    pub busy_blockers: Vec<String>,
    pub omitted_blocker_count: usize,
}

#[derive(Clone, Copy, Debug, PartialEq, Eq, Structural)]
pub struct ProposalDiagnostics {
    pub outcome: DiagnosticOutcome,
}

#[derive(Debug)]
pub struct Proposal {
    pub id: String,
    pub status: String,
    pub base_input_revision: u64,
    pub request_id: String,
    pub horizon_start: String,
    pub horizon_days: u32,
    pub timezone: String,
    pub score: Score,
    pub created_at: String,
    pub items: Vec<ProposalItem>,
    pub applicability_reasons: Vec<String>,
}

} // verus!

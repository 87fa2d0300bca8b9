use calendar_solver::domain::{score, SolverPlan};
use calendar_solver::model::Dependency;
use calendar_solver::error::AppError;
use calendar_solver::model::{
    AvailabilityWindow, CognitiveLoad, DayAvailability, DeadlineKind, DiagnosticOutcome, Event, EventOrigin,
    Priority, Proposal, Settings, Task, TaskState,
};
use calendar_solver::protocol::{check_input_size, Request, Response};
use calendar_solver::recurrence::expand_events;
use calendar_solver::scheduling::finish;
use calendar_solver::solve::plan_request;
use calendar_solver::time::{at_local, build_horizon};

fn s(text: &str) -> String {
    text.to_string()
}

fn settings_with(timezone: &str, days: &[(&str, &str, &str)], horizon_days: u32, slot_minutes: u32) -> Settings {
    let mut availability: Vec<DayAvailability> = Vec::new();
    for (day, start, end) in days {
        availability.push(DayAvailability {
            day: s(day),
            windows: vec![AvailabilityWindow { start: s(start), end: s(end) }],
        });
    }
    Settings {
        timezone: s(timezone),
        availability,
        horizon_days,
        slot_minutes,
        solve_seconds: 1,
        priority_low_weight: 1,
        priority_normal_weight: 5,
        priority_high_weight: 25,
        cognitive_enabled: false,
        low_window_start: s("00:00"),
        low_window_end: s("00:00"),
        low_outside_penalty: 0,
        medium_window_start: s("00:00"),
        medium_window_end: s("00:00"),
        medium_outside_penalty: 0,
        high_window_start: s("00:00"),
        high_window_end: s("00:00"),
        high_outside_penalty: 0,
        high_streak_limit: 1,
        recovery_minutes: 30,
        excess_high_penalty: 60,
    }
}

fn task(id: &str, duration_minutes: u32) -> Task {
    Task {
        id: s(id),
        title: s(id),
        duration_minutes,
        priority: Priority::Normal,
        cognitive_load: CognitiveLoad::Medium,
        earliest_at: None,
        deadline_kind: DeadlineKind::NoDeadline,
        deadline_at: None,
        state: TaskState::Inbox,
        linked_event_id: None,
        created_at: s("2026-09-04T07:00:00Z"),
        updated_at: s("2026-09-04T07:00:00Z"),
    }
}

fn recurring_event(id: &str, start: &str, end: &str, rrule: &str, created: &str) -> Event {
    Event {
        id: s(id),
        title: s(id),
        description: None,
        start_at: s(start),
        end_at: s(end),
        timezone: s("Europe/Rome"),
        all_day: false,
        rrule: Some(s(rrule)),
        origin: EventOrigin::Manual,
        task_id: None,
        proposal_id: None,
        created_at: s(created),
        updated_at: s(created),
    }
}

/// A first-run request: Rome, a Friday working day, a sixty-day horizon, no
/// events, tasks or dependencies.
fn fixture() -> Request {
    Request {
        protocol_version: 1,
        request_id: s("fixture-request"),
        base_input_revision: 1,
        now: s("2026-09-04T08:00:00+02:00"),
        settings: settings_with("Europe/Rome", &[("friday", "09:00", "17:00")], 60, 15),
        events: Vec::new(),
        tasks: Vec::new(),
        dependencies: Vec::new(),
    }
}

/// The solver's place for a task that competes with no other: its first
/// candidate slot, where the construction heuristic puts it.
fn first_fit(plan: &SolverPlan) -> Vec<Option<usize>> {
    plan.tasks.iter().map(|task| task.feasible_slot_ids.first().copied()).collect()
}

fn propose(request: &Request) -> Result<Proposal, AppError> {
    let (problem, plan) = plan_request(request)?;
    let assignments = first_fit(&plan);
    finish(request, &problem, plan, &assignments)
}

/// The solver's places given by task id, each as an index into the task's
/// candidate slots; a task not named stays unplaced.
fn placed_by_id(plan: &SolverPlan, picks: &[(&str, usize)]) -> Vec<Option<usize>> {
    plan.tasks
        .iter()
        .map(|task| {
            picks
                .iter()
                .find(|(id, _)| task.id == *id)
                .map(|(_, index)| task.feasible_slot_ids[*index])
        })
        .collect()
}

/// The score of the plan with the given places.
fn score_with(plan: &SolverPlan, places: &[Option<usize>]) -> (i64, i64, i64) {
    let mut placed = plan.clone();
    for (task, slot) in placed.tasks.iter_mut().zip(places) {
        task.slot_id = *slot;
    }
    let total = score(&placed).unwrap();
    (total.hard, total.medium, total.soft)
}

/// The best-scoring places over every choice of a candidate or none for
/// each task, the first found on ties: the solver's optimum on plans this
/// small.
fn best_places(plan: &SolverPlan) -> Vec<Option<usize>> {
    let mut choices: Vec<Vec<Option<usize>>> = vec![Vec::new()];
    for task in &plan.tasks {
        let mut next = Vec::new();
        for prefix in &choices {
            let mut none = prefix.clone();
            none.push(None);
            next.push(none);
            for slot in &task.feasible_slot_ids {
                let mut some = prefix.clone();
                some.push(Some(*slot));
                next.push(some);
            }
        }
        choices = next;
    }
    let mut best = choices[0].clone();
    for places in &choices {
        if score_with(plan, places) > score_with(plan, &best) {
            best = places.clone();
        }
    }
    best
}

fn constraint_request(start: &str, end: &str, tasks: Vec<Task>, events: Vec<Event>) -> Request {
    Request {
        protocol_version: 1,
        request_id: s("constraint-test"),
        base_input_revision: 9,
        now: s("2026-09-04T08:00:00+02:00"),
        settings: settings_with("Europe/Rome", &[("friday", start, end)], 14, 15),
        events,
        tasks,
        dependencies: Vec::new(),
    }
}

fn plain_event(id: &str, start: &str, end: &str, origin: EventOrigin, task_id: Option<&str>) -> Event {
    Event {
        id: s(id),
        title: s(id),
        description: None,
        start_at: s(start),
        end_at: s(end),
        timezone: s("Europe/Rome"),
        all_day: false,
        rrule: None,
        origin,
        task_id: task_id.map(s),
        proposal_id: None,
        created_at: s("2026-09-04T07:00:00Z"),
        updated_at: s("2026-09-04T07:00:00Z"),
    }
}

fn with_load(mut t: Task, priority: Priority, load: CognitiveLoad) -> Task {
    t.priority = priority;
    t.cognitive_load = load;
    t
}

#[test]
fn busy_events_are_excluded_and_reported() {
    let request = constraint_request(
        "09:00",
        "12:00",
        vec![task("work", 60)],
        vec![plain_event(
            "meeting",
            "2026-09-04T09:00:00+02:00",
            "2026-09-04T10:00:00+02:00",
            EventOrigin::Manual,
            None,
        )],
    );
    let proposal = propose(&request).unwrap();
    assert_eq!(proposal.items[0].start_at.as_deref(), Some("2026-09-04T10:00:00+02:00"));
}

#[test]
fn applied_high_load_task_contributes_recovery_penalty() {
    let mut applied = with_load(task("applied", 60), Priority::High, CognitiveLoad::High);
    applied.state = TaskState::Applied;
    applied.linked_event_id = Some(s("applied-event"));
    let request = constraint_request(
        "09:00",
        "12:00",
        vec![applied, with_load(task("next", 60), Priority::High, CognitiveLoad::High)],
        vec![plain_event(
            "applied-event",
            "2026-09-04T09:00:00+02:00",
            "2026-09-04T10:00:00+02:00",
            EventOrigin::Planner,
            Some("applied"),
        )],
    );
    let proposal = propose(&request).unwrap();
    let next = proposal.items.iter().find(|item| item.task_id == "next").unwrap();
    assert_eq!(next.start_at.as_deref(), Some("2026-09-04T10:00:00+02:00"));
    assert_eq!(next.fatigue_penalty, 60);
}

#[test]
fn horizon_uses_local_midnights() {
    let settings = settings_with("Europe/Rome", &[("friday", "09:00", "17:00")], 14, 15);
    let horizon = build_horizon(&settings, "2026-03-28T23:00:00Z").unwrap();
    assert_eq!(horizon.start.to_rfc3339(), "2026-03-29T00:00:00+01:00");
    assert_eq!(horizon.end.to_rfc3339(), "2026-04-12T00:00:00+02:00");
}

#[test]
fn nonexistent_local_time_is_rejected() {
    let local = chrono::NaiveDate::from_ymd_opt(2026, 3, 29)
        .unwrap()
        .and_hms_opt(2, 30, 0)
        .unwrap()
        .and_utc()
        .timestamp();
    assert!(at_local("Europe/Rome", local, "test").is_err());
}

#[test]
fn recurring_event_is_expanded_in_event_timezone() {
    let event = Event {
        id: s("busy"),
        title: s("Daily busy"),
        description: None,
        start_at: s("2026-03-28T09:00:00+01:00"),
        end_at: s("2026-03-28T10:00:00+01:00"),
        timezone: s("Europe/Rome"),
        all_day: false,
        rrule: Some(s("FREQ=DAILY;COUNT=4")),
        origin: EventOrigin::Manual,
        task_id: None,
        proposal_id: None,
        created_at: s("2026-03-01T00:00:00Z"),
        updated_at: s("2026-03-01T00:00:00Z"),
    };
    let settings = settings_with("Europe/Rome", &[("friday", "09:00", "17:00")], 14, 15);
    let horizon = build_horizon(&settings, "2026-03-28T12:00:00Z").unwrap();
    let intervals = expand_events(&vec![event], &horizon).unwrap();
    assert_eq!(intervals.len(), 4);
    assert_eq!(intervals[2].start.to_rfc3339(), "2026-03-30T07:00:00+00:00");
}

#[test]
fn hard_deadline_can_leave_a_task_unscheduled() {
    let mut hard_task = task("hard", 120);
    hard_task.priority = Priority::High;
    hard_task.cognitive_load = CognitiveLoad::High;
    hard_task.deadline_kind = DeadlineKind::Hard;
    hard_task.deadline_at = Some(s("2026-09-04T10:00:00+02:00"));
    let request = Request {
        protocol_version: 1,
        request_id: s("constraint-test"),
        base_input_revision: 9,
        now: s("2026-09-04T08:00:00+02:00"),
        settings: settings_with("Europe/Rome", &[("friday", "09:00", "12:00")], 14, 15),
        events: Vec::new(),
        tasks: vec![hard_task],
        dependencies: Vec::new(),
    };
    let proposal = propose(&request).unwrap();
    assert_eq!(proposal.items[0].scheduled, false);
    assert_eq!(proposal.items[0].diagnostics.outcome, DiagnosticOutcome::NoHardFeasibleSlot);
}

#[test]
fn derived_proposals_echo_the_input_revision_without_mutating_inputs() {
    let mut request = fixture();
    request.base_input_revision = 42;
    request.tasks = vec![task("revision", 15)];
    let proposal = propose(&request).unwrap();
    assert_eq!(proposal.base_input_revision, 42);
    assert_eq!(proposal.status, "ready");
    assert_eq!(request.tasks[0].state, TaskState::Inbox);
}

#[test]
fn recurrence_expansion_has_a_bounded_failure_mode() {
    let mut request = fixture();
    request.events = vec![recurring_event(
        "unbounded",
        "2026-09-04T09:00:00+02:00",
        "2026-09-04T09:15:00+02:00",
        "FREQ=MINUTELY;COUNT=70000",
        "2026-09-01T00:00:00Z",
    )];
    request.events[0].title = s("Unbounded");
    let error = plan_request(&request).unwrap_err();
    assert_eq!(error.exit_code(), 2);
    assert_eq!(error.code(), "recurrence_limit");
}

fn protocol_request() -> Request {
    Request {
        protocol_version: 1,
        request_id: s("protocol-test"),
        base_input_revision: 4,
        now: s("2026-09-04T08:00:00+02:00"),
        settings: settings_with("Europe/Rome", &[("friday", "09:00", "17:00")], 14, 15),
        events: Vec::new(),
        tasks: Vec::new(),
        dependencies: Vec::new(),
    }
}

#[test]
fn valid_request_has_one_response_and_echoes_request_id() {
    let request = protocol_request();
    let proposal = propose(&request).unwrap();
    let response = Response::success(&request, proposal);
    assert_eq!(response.ok, true);
    assert_eq!(response.request_id, "protocol-test");
}

#[test]
fn unsupported_protocol_is_rejected_cleanly() {
    let mut request = protocol_request();
    request.protocol_version = 99;
    let error = plan_request(&request).unwrap_err();
    assert_eq!(error.exit_code(), 2);
    let response = Response::failure(request.request_id.clone(), calendar_solver::error::WireError::from(&error));
    assert_eq!(response.request_id, "protocol-test");
    assert_eq!(response.error.unwrap().code, "unsupported_protocol_version");
}

#[test]
fn oversized_input_is_rejected_before_parsing() {
    let input = vec![b'x'; 4 * 1024 * 1024 + 1];
    let error = check_input_size(input.len()).unwrap_err();
    assert_eq!(error.exit_code(), 2);
    assert_eq!(error.code(), "input_too_large");
}

#[test]
fn fixture_is_a_valid_first_run_request() {
    let request = fixture();
    let proposal = propose(&request).unwrap();
    let response = Response::success(&request, proposal);
    assert_eq!(response.ok, true);
    assert_eq!(response.request_id, "fixture-request");
}

#[test]
fn settings_ranges_and_timezone_are_reported_by_field() {
    let mut request = fixture();
    request.settings.horizon_days = 0;
    let error = plan_request(&request).unwrap_err();
    assert_eq!(error.exit_code(), 2);
    assert_eq!(error.code(), "out_of_range");
    assert_eq!(error.path(), "settings.horizonDays");

    request = fixture();
    request.settings.timezone = s("Mars/Olympus");
    let error = plan_request(&request).unwrap_err();
    assert_eq!(error.code(), "invalid_timezone");
    assert_eq!(error.path(), "settings.timezone");
}

#[test]
fn empty_and_unknown_availability_are_rejected() {
    let mut request = fixture();
    request.settings.availability = Vec::new();
    let error = plan_request(&request).unwrap_err();
    assert_eq!(error.code(), "availability_required");

    request = fixture();
    request.settings.availability = vec![
        DayAvailability {
            day: s("friday"),
            windows: vec![AvailabilityWindow { start: s("09:00"), end: s("17:00") }],
        },
        DayAvailability {
            day: s("funday"),
            windows: vec![AvailabilityWindow { start: s("09:00"), end: s("17:00") }],
        },
    ];
    let error = plan_request(&request).unwrap_err();
    assert_eq!(error.code(), "unknown_weekday");
}

#[test]
fn horizon_is_based_on_local_midnights_across_spring_forward() {
    let mut request = fixture();
    request.settings.timezone = s("Europe/Rome");
    request.settings.horizon_days = 14;
    request.now = s("2026-03-28T23:00:00Z");
    let proposal = propose(&request).unwrap();
    assert_eq!(proposal.horizon_start, "2026-03-29T00:00:00+01:00");
}

#[test]
fn slot_alignment_uses_the_configured_local_clock() {
    let mut request = fixture();
    request.settings.timezone = s("America/New_York");
    request.settings.slot_minutes = 45;
    request.settings.availability = vec![DayAvailability {
        day: s("friday"),
        windows: vec![AvailabilityWindow { start: s("09:00"), end: s("10:00") }],
    }];
    request.tasks = vec![task("local-slot", 45)];
    request.now = s("2026-09-04T11:00:00Z");
    let proposal = propose(&request).unwrap();
    let item = &proposal.items[0];
    assert_eq!(item.scheduled, true);
    assert_eq!(item.start_at.as_deref(), Some("2026-09-04T09:00:00-04:00"));
}

#[test]
fn recurring_busy_time_keeps_its_event_timezone_after_dst() {
    let mut request = fixture();
    request.settings.timezone = s("Europe/Rome");
    request.settings.availability = vec![DayAvailability {
        day: s("monday"),
        windows: vec![AvailabilityWindow { start: s("09:00"), end: s("11:00") }],
    }];
    request.now = s("2026-10-25T00:00:00Z");
    let mut event = recurring_event(
        "dst-busy",
        "2026-10-25T09:00:00+01:00",
        "2026-10-25T10:00:00+01:00",
        "FREQ=DAILY;COUNT=2",
        "2026-10-01T00:00:00Z",
    );
    event.title = s("DST busy");
    request.events = vec![event];
    request.tasks = vec![task("after-dst", 60)];
    let proposal = propose(&request).unwrap();
    let item = &proposal.items[0];
    assert_eq!(item.start_at.as_deref(), Some("2026-10-26T10:00:00+01:00"));
    assert_eq!(item.busy_blockers[0], "dst-busy");
}

#[test]
fn proposal_contains_diagnostics_for_each_inbox_task() {
    let mut request = fixture();
    request.settings.horizon_days = 1;
    request.settings.availability = vec![DayAvailability {
        day: s("friday"),
        windows: vec![AvailabilityWindow { start: s("09:00"), end: s("10:00") }],
    }];
    request.tasks = vec![task("fits", 60), task("does-not-fit", 60)];
    let (problem, plan) = plan_request(&request).unwrap();
    // Inbox order puts "does-not-fit" first; the solver's construction
    // places it in the one free hour and leaves the other task out.
    assert_eq!(plan.tasks[0].id, "does-not-fit");
    let places = placed_by_id(&plan, &[("does-not-fit", 0)]);
    let proposal = finish(&request, &problem, plan, &places).unwrap();
    let items = &proposal.items;
    assert_eq!(items.len(), 2);
    for item in items {
        assert!(!item.task_id.is_empty());
        assert!(!item.explanation.is_empty());
        assert!(item.busy_blockers.is_empty());
        assert_eq!(item.omitted_blocker_count, 0);
    }
    assert_eq!(items[0].scheduled, true);
    assert_eq!(items[0].diagnostics.outcome, DiagnosticOutcome::Scheduled);
    assert_eq!(items[1].scheduled, false);
    assert_eq!(items[1].diagnostics.outcome, DiagnosticOutcome::FeasibleButNotSelected);
}

#[test]
fn priority_weight_prefers_high_priority_when_capacity_is_limited() {
    let mut request = constraint_request(
        "09:00",
        "10:00",
        vec![
            with_load(task("low", 60), Priority::Low, CognitiveLoad::Low),
            with_load(task("high", 60), Priority::High, CognitiveLoad::High),
        ],
        Vec::new(),
    );
    request.settings.horizon_days = 1;
    let (problem, plan) = plan_request(&request).unwrap();
    let places = best_places(&plan);
    let proposal = finish(&request, &problem, plan, &places).unwrap();
    let high = proposal.items.iter().find(|item| item.task_id == "high").unwrap();
    let low = proposal.items.iter().find(|item| item.task_id == "low").unwrap();
    assert_eq!(high.scheduled, true);
    assert_eq!(low.scheduled, false);
}

#[test]
fn dependencies_schedule_predecessor_before_dependent() {
    let mut request = constraint_request(
        "09:00",
        "12:00",
        vec![
            with_load(task("dependent", 60), Priority::Normal, CognitiveLoad::Low),
            with_load(task("predecessor", 60), Priority::Normal, CognitiveLoad::Low),
        ],
        Vec::new(),
    );
    request.dependencies = vec![Dependency { from_task_id: s("predecessor"), to_task_id: s("dependent") }];
    let (problem, plan) = plan_request(&request).unwrap();
    let dependent = plan.tasks.iter().find(|t| t.id == "dependent").unwrap();
    let predecessor = plan.tasks.iter().find(|t| t.id == "predecessor").unwrap();
    assert!(predecessor.dependency_depth < dependent.dependency_depth);
    let in_order = placed_by_id(&plan, &[("predecessor", 0), ("dependent", 4)]);
    let reversed = placed_by_id(&plan, &[("predecessor", 4), ("dependent", 0)]);
    assert_eq!(score_with(&plan, &in_order).0, 0);
    assert_eq!(score_with(&plan, &reversed).0, -1);
    let proposal = finish(&request, &problem, plan, &in_order).unwrap();
    let predecessor = proposal.items.iter().find(|item| item.task_id == "predecessor").unwrap();
    let dependent = proposal.items.iter().find(|item| item.task_id == "dependent").unwrap();
    assert_eq!(predecessor.start_at.as_deref(), Some("2026-09-04T09:00:00+02:00"));
    assert_eq!(dependent.start_at.as_deref(), Some("2026-09-04T10:00:00+02:00"));
}

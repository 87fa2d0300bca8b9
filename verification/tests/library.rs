use calendar_solver::domain::{score, SolverPlan};
use calendar_solver::error::{AppError, WireError};
use calendar_solver::model::{
    AvailabilityWindow, CognitiveLoad, DayAvailability, DeadlineKind, Dependency, DiagnosticOutcome, Event,
    EventOrigin, Priority, Settings, Task, TaskState,
};
use calendar_solver::order::{sorted_order, SortKey};
use calendar_solver::protocol::{check_input_size, Request, MAX_INPUT_BYTES};
use calendar_solver::scheduling::{dependency_depths, finish, predecessor_ids, within_limits};
use calendar_solver::solve::plan_request;
use calendar_solver::time::{at_local, clock_minutes, weekday, weekday_name};
use calendar_solver::validation::{parse_clock, validate_request};

fn s(text: &str) -> String {
    text.to_string()
}

fn settings(timezone: &str, day: &str, start: &str, end: &str, horizon_days: u32) -> Settings {
    Settings {
        timezone: s(timezone),
        availability: vec![DayAvailability {
            day: s(day),
            windows: vec![AvailabilityWindow { start: s(start), end: s(end) }],
        }],
        horizon_days,
        slot_minutes: 15,
        solve_seconds: 1,
        priority_low_weight: 1,
        priority_normal_weight: 5,
        priority_high_weight: 25,
        cognitive_enabled: false,
        low_window_start: s("00:00"),
        low_window_end: s("00:00"),
        low_outside_penalty: 0,
        medium_window_start: s("00:00"),
        medium_window_end: s("00:00"),
        medium_outside_penalty: 0,
        high_window_start: s("00:00"),
        high_window_end: s("00:00"),
        high_outside_penalty: 0,
        high_streak_limit: 1,
        recovery_minutes: 30,
        excess_high_penalty: 60,
    }
}

fn task(id: &str, duration_minutes: u32, priority: Priority) -> Task {
    Task {
        id: s(id),
        title: s(id),
        duration_minutes,
        priority,
        cognitive_load: CognitiveLoad::Medium,
        earliest_at: None,
        deadline_kind: DeadlineKind::NoDeadline,
        deadline_at: None,
        state: TaskState::Inbox,
        linked_event_id: None,
        created_at: s("2026-09-04T07:00:00Z"),
        updated_at: s("2026-09-04T07:00:00Z"),
    }
}

fn event(id: &str, start: &str, end: &str) -> Event {
    Event {
        id: s(id),
        title: s(id),
        description: None,
        start_at: s(start),
        end_at: s(end),
        timezone: s("Europe/Rome"),
        all_day: false,
        rrule: None,
        origin: EventOrigin::Manual,
        task_id: None,
        proposal_id: None,
        created_at: s("2026-09-04T07:00:00Z"),
        updated_at: s("2026-09-04T07:00:00Z"),
    }
}

fn dependency(from: &str, to: &str) -> Dependency {
    Dependency { from_task_id: s(from), to_task_id: s(to) }
}

/// A Friday in Rome, 08:00, with the given window and a one-day horizon.
fn request(start: &str, end: &str, tasks: Vec<Task>, events: Vec<Event>, dependencies: Vec<Dependency>) -> Request {
    Request {
        protocol_version: 1,
        request_id: s("library-test"),
        base_input_revision: 3,
        now: s("2026-09-04T08:00:00+02:00"),
        settings: settings("Europe/Rome", "friday", start, end, 1),
        events,
        tasks,
        dependencies,
    }
}

fn assign(plan: &mut SolverPlan, slots: &[Option<usize>]) {
    for (task, slot) in plan.tasks.iter_mut().zip(slots) {
        task.slot_id = *slot;
    }
}

fn slot_at(plan: &SolverPlan, task: usize, index: usize) -> usize {
    plan.tasks[task].feasible_slot_ids[index]
}

fn error_of(request: &Request) -> AppError {
    validate_request(request).unwrap_err()
}

#[test]
fn candidates_avoid_busy_time_and_report_the_blocker() {
    let r = request(
        "09:00",
        "12:00",
        vec![task("work", 60, Priority::Normal)],
        vec![event("meeting", "2026-09-04T09:00:00+02:00", "2026-09-04T10:00:00+02:00")],
        vec![],
    );
    let (problem, plan) = plan_request(&r).unwrap();
    let starts: Vec<String> = problem.candidates[0].iter().map(|c| c.slot.start.to_rfc3339()).collect();
    assert_eq!(starts.first().map(String::as_str), Some("2026-09-04T10:00:00+02:00"));
    assert_eq!(starts.last().map(String::as_str), Some("2026-09-04T11:00:00+02:00"));
    assert_eq!(starts.len(), 5);
    assert_eq!(problem.busy_blockers[0], vec![s("meeting")]);
    assert_eq!(plan.tasks[0].feasible_slot_ids.len(), 5);
}

#[test]
fn slots_follow_the_local_clock_and_the_availability() {
    let r = request("09:00", "10:00", vec![], vec![], vec![]);
    let (problem, plan) = plan_request(&r).unwrap();
    let starts: Vec<String> = problem.slots.iter().map(|slot| slot.start.to_rfc3339()).collect();
    assert_eq!(
        starts,
        vec![
            s("2026-09-04T09:00:00+02:00"),
            s("2026-09-04T09:15:00+02:00"),
            s("2026-09-04T09:30:00+02:00"),
            s("2026-09-04T09:45:00+02:00"),
        ]
    );
    assert_eq!(plan.slots.len(), 4);
    assert_eq!(plan.slots[1].id, 1);
    assert_eq!(plan.slots[1].end_minute - plan.slots[1].start_minute, 15);
}

#[test]
fn the_high_priority_task_scores_better_when_only_one_fits() {
    let r = request(
        "09:00",
        "10:00",
        vec![task("low", 60, Priority::Low), task("high", 60, Priority::High)],
        vec![],
        vec![],
    );
    let (_problem, mut plan) = plan_request(&r).unwrap();
    assert_eq!(plan.tasks[0].id, "high");
    let only = slot_at(&plan, 0, 0);
    assign(&mut plan, &[Some(only), None]);
    let high_first = score(&plan).unwrap();
    assign(&mut plan, &[None, Some(only)]);
    let low_first = score(&plan).unwrap();
    assign(&mut plan, &[Some(only), Some(only)]);
    let both = score(&plan).unwrap();
    assert_eq!((high_first.hard, high_first.medium), (0, -1));
    assert_eq!((low_first.hard, low_first.medium), (0, -25));
    assert_eq!(both.hard, -1);
}

#[test]
fn a_dependent_before_its_predecessor_breaks_a_hard_rule() {
    let r = request(
        "09:00",
        "12:00",
        vec![task("dependent", 60, Priority::Normal), task("predecessor", 60, Priority::Normal)],
        vec![],
        vec![dependency("predecessor", "dependent")],
    );
    let (_problem, mut plan) = plan_request(&r).unwrap();
    assert_eq!(plan.tasks[0].id, "dependent");
    assert_eq!(plan.tasks[0].predecessor_ids, vec![s("predecessor")]);
    assert_eq!(plan.tasks[0].dependency_depth, 1);
    assert_eq!(plan.tasks[1].dependency_depth, 0);
    let nine = slot_at(&plan, 1, 0);
    let ten = slot_at(&plan, 1, 4);
    assign(&mut plan, &[Some(ten), Some(nine)]);
    assert_eq!(score(&plan).unwrap().hard, 0);
    assign(&mut plan, &[Some(nine), Some(ten)]);
    assert_eq!(score(&plan).unwrap().hard, -1);
    assign(&mut plan, &[Some(nine), None]);
    assert_eq!(score(&plan).unwrap().hard, -1);
}

#[test]
fn dependency_depths_grow_along_a_chain() {
    let tasks = vec![task("c", 15, Priority::Normal), task("a", 15, Priority::Normal), task("b", 15, Priority::Normal)];
    let deps = vec![dependency("b", "c"), dependency("a", "b")];
    assert_eq!(dependency_depths(&tasks, &deps), vec![2, 0, 1]);
}

#[test]
fn predecessor_ids_come_sorted() {
    let deps = vec![dependency("zeta", "t"), dependency("alpha", "t"), dependency("mid", "x"), dependency("beta", "t")];
    assert_eq!(predecessor_ids(&deps, &s("t")), vec![s("alpha"), s("beta"), s("zeta")]);
    assert!(predecessor_ids(&deps, &s("none")).is_empty());
}

#[test]
fn inbox_is_ordered_by_weight_then_deadline_then_id() {
    let mut late = task("late", 15, Priority::Normal);
    late.deadline_kind = DeadlineKind::Soft;
    late.deadline_at = Some(s("2026-09-05T10:00:00+02:00"));
    let mut early = task("early", 15, Priority::Normal);
    early.deadline_kind = DeadlineKind::Soft;
    early.deadline_at = Some(s("2026-09-04T10:00:00+02:00"));
    let mut applied = task("applied", 15, Priority::High);
    applied.state = TaskState::Applied;
    applied.linked_event_id = Some(s("somewhere"));
    let r = request(
        "09:00",
        "12:00",
        vec![
            late,
            task("b", 15, Priority::Normal),
            early,
            task("a", 15, Priority::Normal),
            task("top", 15, Priority::High),
            applied,
        ],
        vec![],
        vec![],
    );
    let (problem, _plan) = plan_request(&r).unwrap();
    let ids: Vec<&str> = problem.inbox_tasks.iter().map(|t| t.id.as_str()).collect();
    assert_eq!(ids, vec!["top", "a", "b", "early", "late"]);
}

#[test]
fn sorting_keeps_equal_keys_in_place() {
    let key = |first: i64, text: &str| SortKey { first, second: 0, text_a: text.chars().collect(), text_b: Vec::new() };
    let keys = vec![key(2, "x"), key(1, "b"), key(2, "x"), key(1, "a")];
    assert_eq!(sorted_order(&keys), vec![3, 1, 0, 2]);
}

#[test]
fn a_soft_deadline_charges_each_late_minute() {
    let mut t = task("late", 60, Priority::Normal);
    t.deadline_kind = DeadlineKind::Soft;
    t.deadline_at = Some(s("2026-09-04T09:30:00+02:00"));
    let r = request("09:00", "12:00", vec![t], vec![], vec![]);
    let (problem, plan) = plan_request(&r).unwrap();
    assert_eq!(problem.candidates[0][0].soft_deadline_penalty, 30);
    assert_eq!(plan.tasks[0].deadline_lateness_by_slot[0].1, 30);
    assert_eq!(plan.tasks[0].deadline_lateness_by_slot[1].1, 45);
}

#[test]
fn a_hard_deadline_keeps_only_slots_that_end_in_time() {
    let mut t = task("hard", 60, Priority::Normal);
    t.deadline_kind = DeadlineKind::Hard;
    t.deadline_at = Some(s("2026-09-04T10:30:00+02:00"));
    let r = request("09:00", "12:00", vec![t], vec![], vec![]);
    let (problem, _plan) = plan_request(&r).unwrap();
    let starts: Vec<String> = problem.candidates[0].iter().map(|c| c.slot.start.to_rfc3339()).collect();
    assert_eq!(starts.last().map(String::as_str), Some("2026-09-04T09:30:00+02:00"));
    assert_eq!(starts.len(), 3);
}

#[test]
fn minutes_outside_the_cognitive_window_are_charged() {
    let mut r = request("09:00", "12:00", vec![task("focus", 60, Priority::Normal)], vec![], vec![]);
    r.settings.cognitive_enabled = true;
    r.settings.medium_window_start = s("10:00");
    r.settings.medium_window_end = s("12:00");
    r.settings.medium_outside_penalty = 2;
    let (problem, plan) = plan_request(&r).unwrap();
    assert_eq!(problem.candidates[0][0].cognitive_penalty, 120);
    assert_eq!(problem.candidates[0][2].cognitive_penalty, 60);
    assert_eq!(problem.candidates[0][4].cognitive_penalty, 0);
    assert_eq!(plan.tasks[0].cognitive_penalty_by_slot[2], (problem.candidates[0][2].slot.id, 60));
}

#[test]
fn an_unselected_feasible_task_is_explained() {
    let r = request("09:00", "12:00", vec![task("idle", 60, Priority::Normal)], vec![], vec![]);
    let (problem, plan) = plan_request(&r).unwrap();
    let proposal = finish(&r, &problem, plan, &vec![None]).unwrap();
    let item = &proposal.items[0];
    assert_eq!(item.scheduled, false);
    assert_eq!(item.diagnostics.outcome, DiagnosticOutcome::FeasibleButNotSelected);
    assert_eq!(
        item.explanation,
        s("A feasible slot exists, but the proposal leaves this")
            + " task unscheduled to protect higher-priority constraints."
    );
    assert_eq!(proposal.score.medium, -5);
    assert_eq!(
        proposal.applicability_reasons,
        vec![s("Some tasks remain in the inbox because no hard-feasible assignment was selected.")]
    );
}

#[test]
fn a_scheduled_item_carries_its_times_and_penalties() {
    let r = request("09:00", "12:00", vec![task("done", 45, Priority::Normal)], vec![], vec![]);
    let (problem, plan) = plan_request(&r).unwrap();
    let slot = plan.tasks[0].feasible_slot_ids[1];
    let proposal = finish(&r, &problem, plan, &vec![Some(slot)]).unwrap();
    let item = &proposal.items[0];
    assert!(item.scheduled);
    assert_eq!(item.start_at.as_deref(), Some("2026-09-04T09:15:00+02:00"));
    assert_eq!(item.end_at.as_deref(), Some("2026-09-04T10:00:00+02:00"));
    assert_eq!(item.diagnostics.outcome, DiagnosticOutcome::Scheduled);
    assert_eq!(item.explanation, "Fits the configured availability without hard conflicts.");
    assert_eq!((proposal.score.hard, proposal.score.medium, proposal.score.soft), (0, 0, 0));
    assert!(proposal.applicability_reasons.is_empty());
    assert_eq!(proposal.created_at, "2026-09-04T08:00:00+02:00");
    assert_eq!(proposal.horizon_start, "2026-09-04T00:00:00+02:00");
    assert_eq!(proposal.request_id, "library-test");
    assert_eq!(proposal.base_input_revision, 3);
}

#[test]
fn an_empty_inbox_gives_an_empty_proposal_with_a_fresh_id() {
    let r = request("09:00", "12:00", vec![], vec![], vec![]);
    let (problem, plan) = plan_request(&r).unwrap();
    let first = finish(&r, &problem, plan, &vec![]).unwrap();
    let (problem, plan) = plan_request(&r).unwrap();
    let second = finish(&r, &problem, plan, &vec![]).unwrap();
    assert!(first.items.is_empty());
    assert_eq!(first.applicability_reasons, vec![s("No inbox tasks are ready to schedule.")]);
    assert_eq!(first.id.len(), 36);
    assert_ne!(first.id, second.id);
    let chars: Vec<char> = first.id.chars().collect();
    for (i, c) in chars.iter().enumerate() {
        if i == 8 || i == 13 || i == 18 || i == 23 {
            assert_eq!(*c, '-');
        } else {
            assert!(c.is_ascii_digit() || ('a'..='f').contains(c));
        }
    }
    assert_eq!(chars[14], '4');
    assert!(['8', '9', 'a', 'b'].contains(&chars[19]));
    assert_eq!((first.score.hard, first.score.medium, first.score.soft), (0, 0, 0));
}

#[test]
fn recovery_between_high_load_tasks_costs_the_penalty() {
    let mut a = task("a", 60, Priority::Normal);
    a.cognitive_load = CognitiveLoad::High;
    let mut b = task("b", 60, Priority::Normal);
    b.cognitive_load = CognitiveLoad::High;
    let r = request("09:00", "12:00", vec![a, b], vec![], vec![]);
    let (problem, plan) = plan_request(&r).unwrap();
    let nine = slot_at(&plan, 0, 0);
    let ten = slot_at(&plan, 0, 4);
    let proposal = finish(&r, &problem, plan, &vec![Some(nine), Some(ten)]).unwrap();
    assert_eq!(proposal.score.soft, -60);
    assert_eq!(proposal.items[0].fatigue_penalty, 60);
    assert_eq!(proposal.items[1].fatigue_penalty, 60);
}

#[test]
fn a_midnight_that_does_not_exist_is_reported() {
    let mut r = request("09:00", "12:00", vec![], vec![], vec![]);
    r.settings = settings("America/Sao_Paulo", "saturday", "09:00", "12:00", 1);
    r.now = s("2018-11-03T12:00:00-03:00");
    let error = plan_request(&r).unwrap_err();
    assert_eq!(error.code(), "invalid_local_time");
    assert_eq!(error.path(), "horizonEnd");
    assert_eq!(error.exit_code(), 2);
}

#[test]
fn a_repeated_local_time_resolves_to_the_earlier_instant() {
    let local = chrono::NaiveDate::from_ymd_opt(2026, 10, 25)
        .unwrap()
        .and_hms_opt(2, 30, 0)
        .unwrap()
        .and_utc()
        .timestamp();
    let moment = at_local("Europe/Rome", local, "test").unwrap();
    assert_eq!(moment.to_rfc3339(), "2026-10-25T02:30:00+02:00");
    assert_eq!(clock_minutes(&moment), 150);
    assert_eq!(weekday_name(weekday(&moment)), "sunday");
}

#[test]
fn a_bad_rule_is_reported_at_its_path() {
    let mut e = event("weird", "2026-09-04T09:00:00+02:00", "2026-09-04T10:00:00+02:00");
    e.rrule = Some(s("FREQ=SOMETIMES"));
    let r = request("09:00", "12:00", vec![], vec![e], vec![]);
    let error = plan_request(&r).unwrap_err();
    assert_eq!(error.code(), "invalid_rrule");
    assert_eq!(error.path(), "events[0].rrule");
    assert_eq!(error.exit_code(), 2);
}

#[test]
fn a_weekly_rule_blocks_each_week() {
    let mut e = event("weekly", "2026-09-04T09:00:00+02:00", "2026-09-04T10:00:00+02:00");
    e.rrule = Some(s("RRULE:FREQ=WEEKLY;COUNT=3"));
    let mut r = request("09:00", "10:00", vec![], vec![e], vec![]);
    r.settings.horizon_days = 21;
    let (problem, _plan) = plan_request(&r).unwrap();
    let starts: Vec<String> = problem.busy.iter().map(|b| b.start.to_rfc3339()).collect();
    assert_eq!(
        starts,
        vec![s("2026-09-04T07:00:00+00:00"), s("2026-09-11T07:00:00+00:00"), s("2026-09-18T07:00:00+00:00")]
    );
}

#[test]
fn validation_reports_each_kind_of_mistake() {
    let base = || request("09:00", "12:00", vec![task("a", 30, Priority::Normal), task("b", 30, Priority::Normal)], vec![], vec![]);
    let mut r = base();
    r.request_id = s("   ");
    assert_eq!(error_of(&r).code(), "required");
    let mut r = base();
    r.now = s("yesterday");
    assert_eq!(error_of(&r).path(), "now");
    let mut r = base();
    r.dependencies = vec![dependency("a", "a")];
    assert_eq!(error_of(&r).code(), "self_dependency");
    let mut r = base();
    r.dependencies = vec![dependency("a", "ghost")];
    assert_eq!(error_of(&r).code(), "missing_task");
    let mut r = base();
    r.dependencies = vec![dependency("a", "b"), dependency("a", "b")];
    assert_eq!(error_of(&r).code(), "duplicate_dependency");
    let mut r = base();
    r.dependencies = vec![dependency("a", "b"), dependency("b", "a")];
    assert_eq!(error_of(&r).code(), "dependency_cycle");
    let mut r = base();
    r.tasks[1].id = s("a");
    assert_eq!(error_of(&r).code(), "duplicate_id");
    assert_eq!(error_of(&r).path(), "tasks[1].id");
    let mut r = base();
    r.tasks[0].duration_minutes = 0;
    assert_eq!(error_of(&r).code(), "invalid_duration");
    let mut r = base();
    r.tasks[0].deadline_at = Some(s("2026-09-04T10:00:00+02:00"));
    assert_eq!(error_of(&r).code(), "contradictory_deadline");
    let mut r = base();
    r.tasks[0].deadline_kind = DeadlineKind::Hard;
    assert_eq!(error_of(&r).code(), "missing_deadline");
    let mut r = base();
    r.tasks[0].state = TaskState::Applied;
    assert_eq!(error_of(&r).code(), "missing_linked_event");
    let mut r = base();
    r.settings.low_window_end = s("24:00");
    assert_eq!(error_of(&r).code(), "invalid_clock");
    let mut r = base();
    r.settings.availability[0].windows[0].end = s("08:00");
    assert_eq!(error_of(&r).code(), "invalid_window");
    let mut r = base();
    r.settings.availability[0].windows.clear();
    assert_eq!(error_of(&r).code(), "empty_day");
    let mut r = base();
    r.settings.excess_high_penalty = -1;
    assert_eq!(error_of(&r).code(), "negative_value");
    let mut r = base();
    r.events = vec![event("backwards", "2026-09-04T10:00:00+02:00", "2026-09-04T09:00:00+02:00")];
    assert_eq!(error_of(&r).code(), "invalid_interval");
    let mut r = base();
    let mut blank = event("blank", "2026-09-04T09:00:00+02:00", "2026-09-04T10:00:00+02:00");
    blank.rrule = Some(s("  "));
    r.events = vec![blank];
    assert_eq!(error_of(&r).code(), "invalid_rrule");
    assert!(validate_request(&base()).is_ok());
}

#[test]
fn range_errors_name_their_bounds() {
    let mut r = request("09:00", "12:00", vec![], vec![], vec![]);
    r.settings.slot_minutes = 121;
    let error = error_of(&r);
    assert_eq!(error.code(), "out_of_range");
    assert_eq!(error.path(), "settings.slotMinutes");
    assert_eq!(error.message(), "value must be between 5 and 120");
}

#[test]
fn clocks_read_as_minutes_of_the_day() {
    assert_eq!(parse_clock("07:45", "x").unwrap(), 465);
    assert_eq!(parse_clock("7:45", "x").unwrap_err().message(), "clock must be normalized to HH:MM");
    assert_eq!(parse_clock("0745", "x").unwrap_err().message(), "clock must be HH:MM");
}

#[test]
fn a_signed_clock_field_is_refused() {
    assert_eq!(parse_clock("+9:00", "x").unwrap_err().message(), "clock is outside the day");
    assert_eq!(parse_clock("09:+5", "x").unwrap_err().message(), "clock is outside the day");
    assert_eq!(parse_clock("09:05", "x").unwrap(), 545);
}

#[test]
fn input_at_the_limit_is_accepted() {
    assert!(check_input_size(MAX_INPUT_BYTES).is_ok());
    assert!(check_input_size(0).is_ok());
    assert_eq!(check_input_size(MAX_INPUT_BYTES + 1).unwrap_err().exit_code(), 2);
}

#[test]
fn errors_map_to_exit_codes_and_wire_form() {
    let internal = AppError::internal("boom");
    assert_eq!(internal.exit_code(), 1);
    assert_eq!(internal.code(), "internal_error");
    let invalid = AppError::validation("required", "tasks[0].id", "value is required");
    let wire = WireError::from(&invalid);
    assert_eq!((wire.code.as_str(), wire.field_path.as_str(), wire.message.as_str()), ("required", "tasks[0].id", "value is required"));
    assert_eq!(invalid.exit_code(), 2);
}

#[test]
fn requests_within_limits_are_recognized() {
    assert!(within_limits(&request("09:00", "12:00", vec![], vec![], vec![])));
}

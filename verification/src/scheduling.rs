use vstd::prelude::*;
use vstd::string::StringExecFns;

use crate::domain::{SolverFixedTask, SolverPlan, SolverSlot, SolverTask};
use crate::error::{fails_with, AppError, ErrorKind};
use crate::model::{
    CognitiveLoad, DeadlineKind, Dependency, DiagnosticOutcome, Event, Priority, Proposal, ProposalDiagnostics,
    ProposalItem, Settings, Task, TaskState,
};
use crate::protocol::Request;
use crate::recurrence::{chrono_since, duration_since, expand_upto, expansion_of, BusyInterval};
use crate::text::{chars_of, concat, concat3, less_text, lemma_text_lt_transitive, text_lt};
use crate::time::{
    available_at, before, clock_minutes, fits_spec, horizon_days_spec, horizon_ok, is_available_at, is_before,
    minute_of_day, moment_ok, rfc3339_reading, rfc3339_text, tz_known, tz_offset, utc_offset, HorizonOutcome, Moment,
    PlanningHorizon, MAX_SECONDS, MIN_SECONDS,
};
use crate::validation::parse_timestamp;

verus! {

/// A start time the planner may give a task: a whole minute of available
/// time on the horizon's clock, aligned to the slot length.
#[derive(Clone, Copy, Debug, PartialEq, Eq, Structural)]
pub struct Slot {
    pub id: usize,
    pub start: Moment,
    pub end: Moment,
}

/// A slot that satisfies every hard rule for a task, with its penalties.
#[derive(Clone, Copy, Debug, PartialEq, Eq, Structural)]
pub struct Candidate {
    pub slot: Slot,
    pub soft_deadline_penalty: i64,
    pub cognitive_penalty: i64,
}

/// The weight a priority has in the settings.
pub open spec fn weight_of(settings: Settings, priority: Priority) -> i64 {
    match priority {
        Priority::Low => settings.priority_low_weight,
        Priority::Normal => settings.priority_normal_weight,
        Priority::High => settings.priority_high_weight,
    }
}

pub fn priority_weight(settings: &Settings, priority: &Priority) -> (r: i64)
    ensures
        r == weight_of(*settings, *priority),
{
    match priority {
        Priority::Low => settings.priority_low_weight,
        Priority::Normal => settings.priority_normal_weight,
        Priority::High => settings.priority_high_weight,
    }
}

/// `u32::is_multiple_of`: `k` divides `m`, where only zero is a multiple
/// of zero.
pub open spec fn multiple_of(m: int, k: int) -> bool {
    if k == 0 {
        m == 0
    } else {
        m % k == 0
    }
}

/// The instant `k` minutes after `seconds`, on the zone's clock.
pub open spec fn minute_at(tz: Seq<char>, seconds: int, k: int) -> Moment {
    Moment { seconds: (seconds + 60 * k) as i64, nanos: 0, offset: tz_offset(tz, seconds + 60 * k) as i32 }
}

/// A minute opens a slot: its clock minute is a multiple of the slot length
/// and the settings make it available.
pub open spec fn opens_slot(settings: Settings, m: Moment) -> bool {
    multiple_of(minute_of_day(m), settings.slot_minutes as int) && available_at(settings, m)
}

/// The slots among the first `n` minutes of the horizon, numbered in order.
pub open spec fn slots_upto(settings: Settings, h: PlanningHorizon, n: nat) -> Seq<Slot>
    decreases n,
{
    if n == 0 {
        Seq::empty()
    } else {
        let prev = slots_upto(settings, h, (n - 1) as nat);
        let local = minute_at(h.timezone@, h.start.seconds as int, n - 1);
        if opens_slot(settings, local) {
            prev.push(
                Slot {
                    id: prev.len() as usize,
                    start: local,
                    end: minute_at(h.timezone@, h.start.seconds as int, n - 1 + settings.slot_minutes),
                },
            )
        } else {
            prev
        }
    }
}

/// A slot start on the horizon: a whole second in range, at or after its
/// start and before its end.
pub open spec fn slot_within(h: PlanningHorizon, s: Slot) -> bool {
    &&& moment_ok(s.start)
    &&& s.start.nanos == 0
    &&& h.start.seconds <= s.start.seconds < h.end.seconds
    &&& MIN_SECONDS <= s.end.seconds <= MAX_SECONDS
}

/// The number of whole minutes, counted from the horizon's start, that begin
/// before its end.
pub open spec fn horizon_minutes(h: PlanningHorizon) -> nat {
    if h.end.seconds <= h.start.seconds {
        0
    } else {
        ((h.end.seconds - h.start.seconds + 59) / 60) as nat
    }
}

/// Walks the horizon minute by minute and opens a slot at each available
/// minute whose clock is a multiple of the slot length.
pub fn build_slots(settings: &Settings, horizon: &PlanningHorizon) -> (r: Vec<Slot>)
    requires
        tz_known(horizon.timezone@),
        moment_ok(horizon.start),
        moment_ok(horizon.end),
        horizon.start.nanos == 0,
        horizon.end.nanos == 0,
        horizon.end.seconds + 60 * settings.slot_minutes + 60 <= MAX_SECONDS,
    ensures
        r@ == slots_upto(*settings, *horizon, horizon_minutes(*horizon)),
        forall|i: int| 0 <= i < r.len() ==> slot_within(*horizon, #[trigger] r@[i]) && r@[i].id == i,
{
    let tz = horizon.timezone.as_str();
    let mut slots: Vec<Slot> = Vec::new();
    let mut cursor: i64 = horizon.start.seconds;
    let mut k: i64 = 0;
    while cursor < horizon.end.seconds
        invariant
            tz@ == horizon.timezone@,
            tz_known(horizon.timezone@),
            moment_ok(horizon.start),
            moment_ok(horizon.end),
            horizon.end.seconds + 60 * settings.slot_minutes + 60 <= MAX_SECONDS,
            0 <= k,
            cursor == horizon.start.seconds + 60 * k,
            k == 0 || cursor - 60 < horizon.end.seconds,
            slots@ == slots_upto(*settings, *horizon, k as nat),
            forall|i: int| 0 <= i < slots.len() ==> slot_within(*horizon, #[trigger] slots@[i]) && slots@[i].id == i,
        decreases horizon.end.seconds + 60 - cursor,
    {
        let offset = utc_offset(tz, cursor);
        let local = Moment { seconds: cursor, nanos: 0, offset };
        assert(local == minute_at(tz@, horizon.start.seconds as int, k as int));
        let minute = clock_minutes(&local);
        let aligned = if settings.slot_minutes == 0 {
            minute == 0
        } else {
            minute % settings.slot_minutes == 0
        };
        if aligned && is_available_at(settings, &local) {
            let end_seconds = cursor + 60 * settings.slot_minutes as i64;
            let end = Moment { seconds: end_seconds, nanos: 0, offset: utc_offset(tz, end_seconds) };
            let id = slots.len();
            slots.push(Slot { id, start: local, end });
        }
        cursor = cursor + 60;
        k = k + 1;
    }
    proof {
        let d = horizon.end.seconds - horizon.start.seconds;
        if d > 0 {
            assert(k >= 1);
            assert((d + 59) / 60 == k) by (nonlinear_arith)
                requires
                    60 * (k - 1) < d,
                    d <= 60 * k,
                    k >= 1,
            ;
        } else {
            assert(k == 0);
        }
    }
    slots
}

/// The index of the first event with the id.
pub open spec fn event_index(events: Seq<Event>, id: Seq<char>, from: int) -> Option<int>
    decreases events.len() - from,
{
    if from < 0 || from >= events.len() {
        None
    } else if events[from].id@ == id {
        Some(from)
    } else {
        event_index(events, id, from + 1)
    }
}

fn find_event(events: &Vec<Event>, id: &String) -> (r: Option<usize>)
    ensures
        r is None <==> event_index(events@, id@, 0) is None,
        r matches Some(i) ==> event_index(events@, id@, 0) == Some(i as int) && i < events.len(),
{
    let mut i: usize = 0;
    while i < events.len()
        invariant
            i <= events.len(),
            event_index(events@, id@, 0) == event_index(events@, id@, i as int),
        decreases events.len() - i,
    {
        if events[i].id == *id {
            return Some(i);
        }
        i += 1;
    }
    None
}

/// The applied task as a fixed task, when its linked event exists and both
/// of the event's timestamps read.
pub open spec fn fixed_of(task: Task, events: Seq<Event>) -> Option<(Seq<char>, int, int, bool)> {
    if task.state != TaskState::Applied || task.linked_event_id is None {
        None
    } else {
        match event_index(events, task.linked_event_id->Some_0@, 0) {
            None => None,
            Some(e) => match (rfc3339_reading(events[e].start_at@), rfc3339_reading(events[e].end_at@)) {
                (Some(s), Some(t)) => Some(
                    (task.id@, s.0 as int / 60, t.0 as int / 60, task.cognitive_load == CognitiveLoad::High),
                ),
                _ => None,
            },
        }
    }
}

/// The fixed tasks of the first `n` tasks, in order.
pub open spec fn fixed_upto(tasks: Seq<Task>, events: Seq<Event>, n: int) -> Seq<(Seq<char>, int, int, bool)>
    decreases n,
{
    if n <= 0 {
        Seq::empty()
    } else {
        let prev = fixed_upto(tasks, events, n - 1);
        match fixed_of(tasks[n - 1], events) {
            Some(f) => prev.push(f),
            None => prev,
        }
    }
}

/// A fixed task as the tuple of its id, start and end minutes, and load.
pub open spec fn fixed_view(f: SolverFixedTask) -> (Seq<char>, int, int, bool) {
    (f.id@, f.start_minute as int, f.end_minute as int, f.high_cognitive_load)
}

/// The applied tasks with a readable linked event, in minutes since the
/// epoch.
pub fn build_fixed_tasks(request: &Request) -> (r: Vec<SolverFixedTask>)
    ensures
        r@.map_values(|f: SolverFixedTask| fixed_view(f)) == fixed_upto(
            request.tasks@,
            request.events@,
            request.tasks.len() as int,
        ),
        forall|i: int| 0 <= i < r.len() ==> crate::domain::bounded_fixed(#[trigger] r@[i]),
{
    let mut fixed: Vec<SolverFixedTask> = Vec::new();
    let mut i: usize = 0;
    while i < request.tasks.len()
        invariant
            i <= request.tasks.len(),
            fixed@.map_values(|f: SolverFixedTask| fixed_view(f)) == fixed_upto(
                request.tasks@,
                request.events@,
                i as int,
            ),
            forall|i: int| 0 <= i < fixed.len() ==> crate::domain::bounded_fixed(#[trigger] fixed@[i]),
        decreases request.tasks.len() - i,
    {
        let task = &request.tasks[i];
        let ghost before = fixed@;
        if task.state == TaskState::Applied {
            match &task.linked_event_id {
                None => {},
                Some(event_id) => match find_event(&request.events, event_id) {
                    None => {},
                    Some(e) => {
                        let event = &request.events[e];
                        match (
                            parse_timestamp(event.start_at.as_str(), "applied event start"),
                            parse_timestamp(event.end_at.as_str(), "applied event end"),
                        ) {
                            (Ok(start), Ok(end)) => {
                                let item = SolverFixedTask {
                                    id: task.id.clone(),
                                    start_minute: crate::time::floor_div(start.seconds, 60),
                                    end_minute: crate::time::floor_div(end.seconds, 60),
                                    high_cognitive_load: task.cognitive_load == CognitiveLoad::High,
                                };
                                fixed.push(item);
                                assert(fixed_of(*task, request.events@) == Some(fixed_view(item)));
                                assert(fixed@.map_values(|f: SolverFixedTask| fixed_view(f)) == before.map_values(
                                    |f: SolverFixedTask| fixed_view(f),
                                ).push(fixed_view(item)));
                            },
                            _ => {
                                assert(fixed_of(*task, request.events@) is None);
                            },
                        }
                    },
                },
            }
        }
        assert(request.tasks@[i as int] == *task);
        i += 1;
    }
    fixed
}

/// The texts of a list of strings.
pub open spec fn texts(v: Seq<String>) -> Seq<Seq<char>> {
    Seq::new(v.len(), |i: int| v[i]@)
}

/// Texts in ascending order (equal ones side by side).
pub open spec fn sorted_texts(s: Seq<Seq<char>>) -> bool {
    forall|i: int, j: int| 0 <= i < j < s.len() ==> !text_lt(#[trigger] s[j], #[trigger] s[i])
}

/// The ids that the first `n` dependencies name as coming before `id`, in
/// the order of the dependencies.
pub open spec fn froms_of(deps: Seq<Dependency>, id: Seq<char>, n: int) -> Seq<Seq<char>>
    decreases n,
{
    if n <= 0 {
        Seq::empty()
    } else {
        let prev = froms_of(deps, id, n - 1);
        if deps[n - 1].to_task_id@ == id {
            prev.push(deps[n - 1].from_task_id@)
        } else {
            prev
        }
    }
}

/// Inserts a text after every text not above it, keeping the list sorted.
fn insert_sorted(v: &mut Vec<String>, x: String)
    requires
        sorted_texts(texts(old(v)@)),
    ensures
        sorted_texts(texts(final(v)@)),
        texts(final(v)@).to_multiset() == texts(old(v)@).to_multiset().insert(x@),
{
    let xc = chars_of(x.as_str());
    let mut p: usize = 0;
    while p < v.len()
        invariant
            p <= v.len(),
            xc@ == x@,
            forall|q: int| 0 <= q < p ==> !text_lt(x@, #[trigger] v@[q]@),
        ensures
            p <= v.len(),
            forall|q: int| 0 <= q < p ==> !text_lt(x@, #[trigger] v@[q]@),
            p == v.len() || text_lt(x@, v@[p as int]@),
        decreases v.len() - p,
    {
        let vc = chars_of(v[p].as_str());
        if less_text(&xc, &vc) {
            break;
        }
        p += 1;
    }
    let ghost s = texts(v@);
    let ghost xv = x@;
    assert(p == v.len() || text_lt(xv, s[p as int]));
    v.insert(p, x);
    proof {
        assert(texts(v@) == s.insert(p as int, xv));
        vstd::seq_lib::to_multiset_insert(s, p as int, xv);
        let t = texts(v@);
        assert forall|i: int, j: int| 0 <= i < j < t.len() implies !text_lt(#[trigger] t[j], #[trigger] t[i]) by {
            if j < p {
            } else if j == p {
                assert(t[i] == s[i]);
            } else if i > p {
                assert(t[i] == s[i - 1] && t[j] == s[j - 1]);
            } else if i == p {
                assert(t[j] == s[j - 1]);
                if text_lt(s[j - 1], xv) {
                    lemma_text_lt_transitive(s[j - 1], xv, s[p as int]);
                    if j - 1 == p {
                        crate::text::lemma_text_lt_irreflexive(s[p as int]);
                    }
                }
            } else {
                assert(t[i] == s[i] && t[j] == s[j - 1]);
            }
        }
    }
}

/// The ids of a task's predecessors, sorted.
pub fn predecessor_ids(deps: &Vec<Dependency>, id: &String) -> (r: Vec<String>)
    ensures
        sorted_texts(texts(r@)),
        texts(r@).to_multiset() == froms_of(deps@, id@, deps.len() as int).to_multiset(),
{
    let mut out: Vec<String> = Vec::new();
    let mut j: usize = 0;
    assert(texts(out@) =~= Seq::<Seq<char>>::empty());
    while j < deps.len()
        invariant
            j <= deps.len(),
            sorted_texts(texts(out@)),
            texts(out@).to_multiset() == froms_of(deps@, id@, j as int).to_multiset(),
        decreases deps.len() - j,
    {
        if deps[j].to_task_id == *id {
            let ghost before = froms_of(deps@, id@, j as int);
            insert_sorted(&mut out, deps[j].from_task_id.clone());
            proof {
                vstd::seq_lib::to_multiset_build(before, deps@[j as int].from_task_id@);
            }
        }
        j += 1;
    }
    out
}

/// The longest chain of at most `k` dependencies that ends at `x`.
pub open spec fn depth_upto(deps: Seq<Dependency>, x: Seq<char>, k: nat) -> int
    decreases k, 0int,
{
    if k == 0 {
        0
    } else {
        deepest_pred(deps, x, (k - 1) as nat, deps.len() as int)
    }
}

/// One more than the deepest `depth_upto(.., k)` over the first `n`
/// dependencies into `x`, zero without any.
pub open spec fn deepest_pred(deps: Seq<Dependency>, x: Seq<char>, k: nat, n: int) -> int
    decreases k, n,
{
    if n <= 0 {
        0
    } else {
        let rest = deepest_pred(deps, x, k, n - 1);
        if deps[n - 1].to_task_id@ == x {
            let d = depth_upto(deps, deps[n - 1].from_task_id@, k) + 1;
            if d > rest {
                d
            } else {
                rest
            }
        } else {
            rest
        }
    }
}

/// `deepest_pred` over all dependencies, from the depths at round `k` of
/// each dependency's source.
fn deepest(deps: &Vec<Dependency>, x: &String, depths: &Vec<i64>, k: Ghost<nat>) -> (r: i64)
    requires
        depths.len() == deps.len(),
        deps.len() < 0x4000_0000_0000_0000,
        k@ <= deps.len(),
        forall|j: int|
            0 <= j < deps.len() ==> #[trigger] depths@[j] == depth_upto(deps@, deps@[j].from_task_id@, k@)
                && 0 <= depths@[j] <= k@,
    ensures
        r == deepest_pred(deps@, x@, k@, deps.len() as int),
        0 <= r <= k@ + 1,
{
    let mut acc: i64 = 0;
    let mut i: usize = 0;
    while i < deps.len()
        invariant
            i <= deps.len(),
            depths.len() == deps.len(),
            deps.len() < 0x4000_0000_0000_0000,
            k@ <= deps.len(),
            forall|j: int|
                0 <= j < deps.len() ==> #[trigger] depths@[j] == depth_upto(deps@, deps@[j].from_task_id@, k@)
                    && 0 <= depths@[j] <= k@,
            acc == deepest_pred(deps@, x@, k@, i as int),
            0 <= acc <= k@ + 1,
        decreases deps.len() - i,
    {
        if deps[i].to_task_id == *x {
            let d = depths[i] + 1;
            if d > acc {
                acc = d;
            }
        }
        i += 1;
    }
    acc
}

/// The dependency depth of each task: the longest chain of dependencies
/// that ends at it, counting chains of up to one more link than there are
/// dependencies (every chain of a DAG is shorter).
pub fn dependency_depths(tasks: &Vec<Task>, deps: &Vec<Dependency>) -> (r: Vec<i64>)
    requires
        deps.len() < 0x4000_0000_0000_0000,
    ensures
        r.len() == tasks.len(),
        forall|i: int|
            0 <= i < tasks.len() ==> #[trigger] r@[i] == depth_upto(deps@, tasks@[i].id@, (deps.len() + 1) as nat)
                && 0 <= r@[i] <= deps.len() + 1,
{
    let mut depths: Vec<i64> = Vec::new();
    let mut j: usize = 0;
    while j < deps.len()
        invariant
            j <= deps.len(),
            depths.len() == j,
            forall|q: int| 0 <= q < j ==> #[trigger] depths@[q] == 0,
        decreases deps.len() - j,
    {
        depths.push(0);
        j += 1;
    }
    let mut round: usize = 0;
    while round < deps.len()
        invariant
            round <= deps.len(),
            deps.len() < 0x4000_0000_0000_0000,
            depths.len() == deps.len(),
            forall|q: int|
                0 <= q < deps.len() ==> #[trigger] depths@[q] == depth_upto(deps@, deps@[q].from_task_id@, round as nat)
                    && 0 <= depths@[q] <= round,
        decreases deps.len() - round,
    {
        let mut next: Vec<i64> = Vec::new();
        let mut q: usize = 0;
        while q < deps.len()
            invariant
                q <= deps.len(),
                round < deps.len(),
                deps.len() < 0x4000_0000_0000_0000,
                depths.len() == deps.len(),
                forall|q: int|
                    0 <= q < deps.len() ==> #[trigger] depths@[q] == depth_upto(
                        deps@,
                        deps@[q].from_task_id@,
                        round as nat,
                    ) && 0 <= depths@[q] <= round,
                next.len() == q,
                forall|p: int|
                    0 <= p < q ==> #[trigger] next@[p] == depth_upto(deps@, deps@[p].from_task_id@, (round + 1) as nat)
                        && 0 <= next@[p] <= round + 1,
            decreases deps.len() - q,
        {
            let d = deepest(deps, &deps[q].from_task_id, &depths, Ghost(round as nat));
            next.push(d);
            q += 1;
        }
        depths = next;
        round += 1;
    }
    let mut out: Vec<i64> = Vec::new();
    let mut i: usize = 0;
    while i < tasks.len()
        invariant
            i <= tasks.len(),
            deps.len() < 0x4000_0000_0000_0000,
            depths.len() == deps.len(),
            forall|q: int|
                0 <= q < deps.len() ==> #[trigger] depths@[q] == depth_upto(deps@, deps@[q].from_task_id@, deps.len() as nat)
                    && 0 <= depths@[q] <= deps.len(),
            out.len() == i,
            forall|p: int|
                0 <= p < i ==> #[trigger] out@[p] == depth_upto(deps@, tasks@[p].id@, (deps.len() + 1) as nat)
                    && 0 <= out@[p] <= deps.len() + 1,
        decreases tasks.len() - i,
    {
        let d = deepest(deps, &tasks[i].id, &depths, Ghost(deps.len() as nat));
        out.push(d);
        i += 1;
    }
    out
}

/// The moment a timestamp text reads as, on its own offset.
pub open spec fn reading_moment(text: Seq<char>) -> Option<Moment> {
    match rfc3339_reading(text) {
        Some(t) => Some(Moment { seconds: t.0, nanos: t.1, offset: t.2 }),
        None => None,
    }
}

/// An optional timestamp that is absent or reads.
pub open spec fn reads_if_present(text: Option<String>) -> bool {
    match text {
        Some(t) => rfc3339_reading(t@) is Some,
        None => true,
    }
}

/// The moment of an optional timestamp that reads.
pub open spec fn optional_moment(text: Option<String>) -> Option<Moment> {
    match text {
        Some(t) => reading_moment(t@),
        None => None,
    }
}

/// The end minute of the last fixed task among the first `n` with the id.
pub open spec fn fixed_end_of(fixed: Seq<SolverFixedTask>, id: Seq<char>, n: int) -> Option<i64>
    decreases n,
{
    if n <= 0 {
        None
    } else if fixed[n - 1].id@ == id {
        Some(fixed[n - 1].end_minute)
    } else {
        fixed_end_of(fixed, id, n - 1)
    }
}

/// The latest end minute of the fixed predecessors, over the first `n`
/// dependencies into the task.
pub open spec fn predecessor_end(
    deps: Seq<Dependency>,
    fixed: Seq<SolverFixedTask>,
    id: Seq<char>,
    n: int,
) -> Option<i64>
    decreases n,
{
    if n <= 0 {
        None
    } else {
        let rest = predecessor_end(deps, fixed, id, n - 1);
        if deps[n - 1].to_task_id@ != id {
            rest
        } else {
            match (fixed_end_of(fixed, deps[n - 1].from_task_id@, fixed.len() as int), rest) {
                (None, _) => rest,
                (Some(v), None) => Some(v),
                (Some(v), Some(w)) => Some(if v > w { v } else { w }),
            }
        }
    }
}

fn fixed_end(fixed: &Vec<SolverFixedTask>, id: &String) -> (r: Option<i64>)
    ensures
        r == fixed_end_of(fixed@, id@, fixed.len() as int),
{
    let mut i: usize = fixed.len();
    while i > 0
        invariant
            i <= fixed.len(),
            fixed_end_of(fixed@, id@, fixed.len() as int) == fixed_end_of(fixed@, id@, i as int),
        decreases i,
    {
        if fixed[i - 1].id == *id {
            return Some(fixed[i - 1].end_minute);
        }
        i -= 1;
    }
    None
}

fn latest_predecessor_end(deps: &Vec<Dependency>, fixed: &Vec<SolverFixedTask>, id: &String) -> (r: Option<i64>)
    ensures
        r == predecessor_end(deps@, fixed@, id@, deps.len() as int),
{
    let mut best: Option<i64> = None;
    let mut j: usize = 0;
    while j < deps.len()
        invariant
            j <= deps.len(),
            best == predecessor_end(deps@, fixed@, id@, j as int),
        decreases deps.len() - j,
    {
        if deps[j].to_task_id == *id {
            match fixed_end(fixed, &deps[j].from_task_id) {
                None => {},
                Some(v) => {
                    best = match best {
                        None => Some(v),
                        Some(w) => Some(if v > w { v } else { w }),
                    };
                },
            }
        }
        j += 1;
    }
    best
}

/// The cognitive window and penalty of a load.
pub open spec fn window_of(settings: Settings, load: CognitiveLoad) -> (Seq<char>, Seq<char>, i64) {
    match load {
        CognitiveLoad::Low => (settings.low_window_start@, settings.low_window_end@, settings.low_outside_penalty),
        CognitiveLoad::Medium => (
            settings.medium_window_start@,
            settings.medium_window_end@,
            settings.medium_outside_penalty,
        ),
        CognitiveLoad::High => (settings.high_window_start@, settings.high_window_end@, settings.high_outside_penalty),
    }
}

/// The minutes among the first `n` from `start`, on the zone's clock, that
/// fall outside the window `[from, to)`.
pub open spec fn outside_minutes(tz: Seq<char>, start: Moment, from: int, to: int, n: nat) -> nat
    decreases n,
{
    if n == 0 {
        0
    } else {
        let m = minute_of_day(crate::time::shifted(tz, start, n - 1));
        outside_minutes(tz, start, from, to, (n - 1) as nat) + if from <= m < to {
            0nat
        } else {
            1nat
        }
    }
}

/// The cognitive penalty of a task started at `start`: the load's penalty
/// for each of its minutes outside the load's window, zero when the
/// penalty is off, a window clock does not read, the window is empty or the
/// penalty is zero.
pub open spec fn cognitive_total(settings: Settings, task: Task, start: Moment) -> int {
    let (ws, we, penalty) = window_of(settings, task.cognitive_load);
    if !settings.cognitive_enabled {
        0
    } else {
        match (crate::validation::clock_reading(ws), crate::validation::clock_reading(we)) {
            (Ok(a), Ok(b)) => if a == b || penalty == 0 {
                0
            } else {
                outside_minutes(settings.timezone@, start, a as int, b as int, task.duration_minutes as nat) * penalty
            },
            _ => 0,
        }
    }
}

/// Counts, and charges, the task's minutes outside its load's window.
/// `None` when the total does not fit in an `i64`.
fn cognitive_penalty(settings: &Settings, task: &Task, start: &Moment) -> (r: Option<i64>)
    requires
        tz_known(settings.timezone@),
        moment_ok(*start),
        start.seconds + 60 * task.duration_minutes <= MAX_SECONDS,
    ensures
        match r {
            Some(v) => v == cognitive_total(*settings, *task, *start),
            None => !crate::domain::fits_i64(cognitive_total(*settings, *task, *start)),
        },
{
    if !settings.cognitive_enabled {
        return Some(0);
    }
    let (window_start, window_end, penalty) = match task.cognitive_load {
        CognitiveLoad::Low => (&settings.low_window_start, &settings.low_window_end, settings.low_outside_penalty),
        CognitiveLoad::Medium => (
            &settings.medium_window_start,
            &settings.medium_window_end,
            settings.medium_outside_penalty,
        ),
        CognitiveLoad::High => (&settings.high_window_start, &settings.high_window_end, settings.high_outside_penalty),
    };
    let from = match crate::validation::parse_clock(window_start.as_str(), "cognitive window") {
        Ok(v) => v,
        Err(_) => {
            return Some(0);
        },
    };
    let to = match crate::validation::parse_clock(window_end.as_str(), "cognitive window") {
        Ok(v) => v,
        Err(_) => {
            return Some(0);
        },
    };
    if from == to || penalty == 0 {
        return Some(0);
    }
    let ghost tz = settings.timezone@;
    let mut count: u64 = 0;
    let mut k: u32 = 0;
    while k < task.duration_minutes
        invariant
            tz == settings.timezone@,
            tz_known(tz),
            moment_ok(*start),
            start.seconds + 60 * task.duration_minutes <= MAX_SECONDS,
            k <= task.duration_minutes,
            count == outside_minutes(tz, *start, from as int, to as int, k as nat),
            count <= k,
        decreases task.duration_minutes - k,
    {
        let cursor = if k == 0 {
            *start
        } else {
            crate::time::add_minutes(settings.timezone.as_str(), start, k as i64)
        };
        assert(cursor == crate::time::shifted(tz, *start, k as int));
        let minute = clock_minutes(&cursor);
        if !(from <= minute && minute < to) {
            count = count + 1;
        }
        k = k + 1;
    }
    proof {
        let c = count as int;
        let p = penalty as int;
        assert(-0x8000_0000_0000_0000_0000_0000 <= c * p <= 0x8000_0000_0000_0000_0000_0000) by (nonlinear_arith)
            requires
                0 <= c <= 0x1_0000_0000,
                -0x8000_0000_0000_0000 <= p <= 0x8000_0000_0000_0000,
        ;
    }
    let total: i128 = count as i128 * penalty as i128;
    if total < i64::MIN as i128 || total > i64::MAX as i128 {
        return None;
    }
    Some(total as i64)
}

/// What decides a task's candidate slots: the settings, the horizon, the
/// task, its earliest start and deadline as moments, the latest end minute
/// of its applied predecessors, and the busy intervals.
pub ghost struct CandidateRules {
    pub settings: Settings,
    pub horizon: PlanningHorizon,
    pub task: Task,
    pub earliest: Option<Moment>,
    pub deadline: Option<Moment>,
    pub predecessor_end: Option<i64>,
    pub busy: Seq<BusyInterval>,
}

/// When the task would end if started at the slot.
pub open spec fn slot_end(r: CandidateRules, slot: Slot) -> Moment {
    crate::time::shifted(r.horizon.timezone@, slot.start, r.task.duration_minutes as int)
}

pub open spec fn after_predecessors(end: Option<i64>, start: Moment) -> bool {
    match end {
        Some(v) => start.seconds / 60 >= v,
        None => true,
    }
}

pub open spec fn not_before_earliest(earliest: Option<Moment>, start: Moment) -> bool {
    match earliest {
        Some(e) => !before(start, e),
        None => true,
    }
}

pub open spec fn within_hard_deadline(kind: DeadlineKind, deadline: Option<Moment>, end: Moment) -> bool {
    match (kind, deadline) {
        (DeadlineKind::Hard, Some(d)) => !before(d, end),
        _ => true,
    }
}

/// The slot passes the rules before busy time: it starts no earlier than
/// now, ends within the horizon, after the applied predecessors, no earlier
/// than the task's earliest start, by a hard deadline, and in available
/// time throughout.
pub open spec fn slot_allowed(r: CandidateRules, slot: Slot) -> bool {
    let end = slot_end(r, slot);
    &&& !before(slot.start, r.horizon.now)
    &&& !before(r.horizon.end, end)
    &&& after_predecessors(r.predecessor_end, slot.start)
    &&& not_before_earliest(r.earliest, slot.start)
    &&& within_hard_deadline(r.task.deadline_kind, r.deadline, end)
    &&& fits_spec(r.settings, slot.start, end)
}

/// The ids of the first `n` busy intervals that overlap the span, in order.
pub open spec fn overlapping_ids(busy: Seq<BusyInterval>, start: Moment, end: Moment, n: int) -> Seq<Seq<char>>
    decreases n,
{
    if n <= 0 {
        Seq::empty()
    } else {
        let prev = overlapping_ids(busy, start, end, n - 1);
        if busy[n - 1].overlaps_spec(start, end) {
            prev.push(busy[n - 1].event_id@)
        } else {
            prev
        }
    }
}

/// The ids of busy intervals overlapping the task at the slot.
pub open spec fn slot_blockers(r: CandidateRules, slot: Slot) -> Seq<Seq<char>> {
    overlapping_ids(r.busy, slot.start, slot_end(r, slot), r.busy.len() as int)
}

/// Appends the first `n` of `ids` that the list lacks, each once.
pub open spec fn add_new(list: Seq<Seq<char>>, ids: Seq<Seq<char>>, n: int) -> Seq<Seq<char>>
    decreases n,
{
    if n <= 0 {
        list
    } else {
        let prev = add_new(list, ids, n - 1);
        if prev.contains(ids[n - 1]) {
            prev
        } else {
            prev.push(ids[n - 1])
        }
    }
}

/// The soft-deadline penalty of ending at `end`: the whole minutes past a
/// soft deadline.
pub open spec fn lateness(kind: DeadlineKind, deadline: Option<Moment>, end: Moment) -> int {
    match (kind, deadline) {
        (DeadlineKind::Soft, Some(d)) => {
            let late = chrono_since(
                end.seconds as int,
                end.nanos as int,
                d.seconds as int,
                d.nanos as int,
            ).0;
            if late > 0 {
                late / 60
            } else {
                0
            }
        },
        _ => 0,
    }
}

/// The candidate the slot gives.
pub open spec fn candidate_of(r: CandidateRules, slot: Slot) -> Candidate {
    Candidate {
        slot,
        soft_deadline_penalty: lateness(r.task.deadline_kind, r.deadline, slot_end(r, slot)) as i64,
        cognitive_penalty: cognitive_total(r.settings, r.task, slot.start) as i64,
    }
}

/// The slot is a candidate: allowed and free of busy time.
pub open spec fn slot_open(r: CandidateRules, slot: Slot) -> bool {
    slot_allowed(r, slot) && slot_blockers(r, slot).len() == 0
}

/// The candidates among the first `n` slots.
pub open spec fn candidates_upto(r: CandidateRules, slots: Seq<Slot>, n: int) -> Seq<Candidate>
    decreases n,
{
    if n <= 0 {
        Seq::empty()
    } else {
        let prev = candidates_upto(r, slots, n - 1);
        if slot_open(r, slots[n - 1]) {
            prev.push(candidate_of(r, slots[n - 1]))
        } else {
            prev
        }
    }
}

/// The busy events that block allowed slots among the first `n`, each once,
/// in order of first appearance.
pub open spec fn blockers_upto(r: CandidateRules, slots: Seq<Slot>, n: int) -> Seq<Seq<char>>
    decreases n,
{
    if n <= 0 {
        Seq::empty()
    } else {
        let prev = blockers_upto(r, slots, n - 1);
        if slot_allowed(r, slots[n - 1]) {
            let ids = slot_blockers(r, slots[n - 1]);
            add_new(prev, ids, ids.len() as int)
        } else {
            prev
        }
    }
}

/// Some candidate among the first `n` slots has a cognitive penalty that an
/// `i64` cannot hold.
pub open spec fn cognitive_overflow(r: CandidateRules, slots: Seq<Slot>, n: int) -> bool
    decreases n,
{
    if n <= 0 {
        false
    } else {
        cognitive_overflow(r, slots, n - 1) || (slot_open(r, slots[n - 1]) && !crate::domain::fits_i64(
            cognitive_total(r.settings, r.task, slots[n - 1].start),
        ))
    }
}

proof fn lemma_overflow_grows(r: CandidateRules, slots: Seq<Slot>, a: int, b: int)
    requires
        a <= b,
        cognitive_overflow(r, slots, a),
    ensures
        cognitive_overflow(r, slots, b),
    decreases b - a,
{
    if a < b {
        lemma_overflow_grows(r, slots, a, b - 1);
    }
}

/// The rules that decide a task's candidates, once its timestamps read.
pub open spec fn rules_of(
    task: Task,
    settings: Settings,
    horizon: PlanningHorizon,
    busy: Seq<BusyInterval>,
    deps: Seq<Dependency>,
    fixed: Seq<SolverFixedTask>,
) -> CandidateRules {
    CandidateRules {
        settings,
        horizon,
        task,
        earliest: optional_moment(task.earliest_at),
        deadline: optional_moment(task.deadline_at),
        predecessor_end: predecessor_end(deps, fixed, task.id@, deps.len() as int),
        busy,
    }
}

proof fn lemma_add_new_prefix(list: Seq<Seq<char>>, a: Seq<Seq<char>>, b: Seq<Seq<char>>, n: int)
    requires
        0 <= n <= a.len(),
        n <= b.len(),
        forall|i: int| 0 <= i < n ==> a[i] == b[i],
    ensures
        add_new(list, a, n) == add_new(list, b, n),
    decreases n,
{
    if n > 0 {
        lemma_add_new_prefix(list, a, b, n - 1);
    }
}

fn contains_text(list: &Vec<String>, id: &String) -> (r: bool)
    ensures
        r == texts(list@).contains(id@),
{
    let mut i: usize = 0;
    while i < list.len()
        invariant
            i <= list.len(),
            forall|j: int| 0 <= j < i ==> list@[j]@ != id@,
        decreases list.len() - i,
    {
        if list[i] == *id {
            assert(texts(list@)[i as int] == id@);
            return true;
        }
        i += 1;
    }
    false
}

/// The candidate slots of a task, and the busy events that block slots it
/// could otherwise take (each once, in order of first appearance).
pub fn build_candidates(
    task: &Task,
    settings: &Settings,
    horizon: &PlanningHorizon,
    slots: &Vec<Slot>,
    busy: &Vec<BusyInterval>,
    dependencies: &Vec<Dependency>,
    fixed: &Vec<SolverFixedTask>,
) -> (r: Result<(Vec<Candidate>, Vec<String>), AppError>)
    requires
        tz_known(settings.timezone@),
        horizon.timezone@ == settings.timezone@,
        moment_ok(horizon.now),
        moment_ok(horizon.end),
        horizon.end.nanos == 0,
        horizon.end.seconds + 0x40_0000_0000 <= MAX_SECONDS,
        forall|i: int| 0 <= i < slots.len() ==> slot_within(*horizon, #[trigger] slots@[i]),
    ensures
        !reads_if_present(task.earliest_at) ==> fails_with(
            r,
            ErrorKind::Validation,
            "invalid_timestamp"@,
            "task "@ + task.id@ + " earliestAt"@,
            "timestamp must be RFC 3339"@,
        ),
        reads_if_present(task.earliest_at) && !reads_if_present(task.deadline_at) ==> fails_with(
            r,
            ErrorKind::Validation,
            "invalid_timestamp"@,
            "task "@ + task.id@ + " deadlineAt"@,
            "timestamp must be RFC 3339"@,
        ),
        reads_if_present(task.earliest_at) && reads_if_present(task.deadline_at) ==> {
            let rules = rules_of(*task, *settings, *horizon, busy@, dependencies@, fixed@);
            if cognitive_overflow(rules, slots@, slots.len() as int) {
                fails_with(r, ErrorKind::Internal, Seq::empty(), Seq::empty(), "cognitive penalty overflowed"@)
            } else {
                r matches Ok(found) && found.0@ == candidates_upto(rules, slots@, slots.len() as int)
                    && texts(found.1@) == blockers_upto(rules, slots@, slots.len() as int)
            }
        },
{
    let earliest = match &task.earliest_at {
        Some(value) => {
            let path = concat3("task ", task.id.as_str(), " earliestAt");
            match parse_timestamp(value.as_str(), path.as_str()) {
                Ok(m) => Some(m),
                Err(e) => {
                    return Err(e);
                },
            }
        },
        None => None,
    };
    let deadline = match &task.deadline_at {
        Some(value) => {
            let path = concat3("task ", task.id.as_str(), " deadlineAt");
            match parse_timestamp(value.as_str(), path.as_str()) {
                Ok(m) => Some(m),
                Err(e) => {
                    return Err(e);
                },
            }
        },
        None => None,
    };
    let ghost rules = rules_of(*task, *settings, *horizon, busy@, dependencies@, fixed@);
    assert(rules.earliest == earliest);
    assert(rules.deadline == deadline);
    let predecessor_fixed_end = latest_predecessor_end(dependencies, fixed, &task.id);
    let tz = horizon.timezone.as_str();
    let mut candidates: Vec<Candidate> = Vec::new();
    let mut blockers: Vec<String> = Vec::new();
    let mut i: usize = 0;
    while i < slots.len()
        invariant
            tz_known(settings.timezone@),
            horizon.timezone@ == settings.timezone@,
            tz@ == horizon.timezone@,
            moment_ok(horizon.now),
            moment_ok(horizon.end),
            horizon.end.nanos == 0,
            horizon.end.seconds + 0x40_0000_0000 <= MAX_SECONDS,
            forall|i: int| 0 <= i < slots.len() ==> slot_within(*horizon, #[trigger] slots@[i]),
            rules == rules_of(*task, *settings, *horizon, busy@, dependencies@, fixed@),
            rules.earliest == earliest,
            rules.deadline == deadline,
            rules.predecessor_end == predecessor_fixed_end,
            reads_if_present(task.earliest_at),
            reads_if_present(task.deadline_at),
            earliest matches Some(e) ==> moment_ok(e),
            deadline matches Some(d) ==> moment_ok(d),
            i <= slots.len(),
            candidates@ == candidates_upto(rules, slots@, i as int),
            texts(blockers@) == blockers_upto(rules, slots@, i as int),
            !cognitive_overflow(rules, slots@, i as int),
        decreases slots.len() - i,
    {
        let slot = slots[i];
        assert(slot == slots@[i as int]);
        assert(slot_within(*horizon, slot));
        let start = slot.start;
        let end = if task.duration_minutes == 0 {
            start
        } else {
            crate::time::add_minutes(tz, &start, task.duration_minutes as i64)
        };
        assert(end == slot_end(rules, slot));
        let allowed = if is_before(&start, &horizon.now) || is_before(&horizon.end, &end) {
            false
        } else if match predecessor_fixed_end {
            Some(v) => crate::time::floor_div(start.seconds, 60) < v,
            None => false,
        } {
            false
        } else if match &earliest {
            Some(e) => is_before(&start, e),
            None => false,
        } {
            false
        } else if task.deadline_kind == DeadlineKind::Hard && match &deadline {
            Some(d) => is_before(d, &end),
            None => false,
        } {
            false
        } else {
            crate::time::fits_availability(settings, &start, &end)
        };
        assert(allowed == slot_allowed(rules, slot));
        let ghost before_blockers = texts(blockers@);
        if allowed {
            let mut blocked = false;
            let mut j: usize = 0;
            while j < busy.len()
                invariant
                    j <= busy.len(),
                    blocked == (overlapping_ids(busy@, start, end, j as int).len() > 0),
                    texts(blockers@) == add_new(
                        before_blockers,
                        overlapping_ids(busy@, start, end, j as int),
                        overlapping_ids(busy@, start, end, j as int).len() as int,
                    ),
                decreases busy.len() - j,
            {
                let ghost ids = overlapping_ids(busy@, start, end, j as int);
                if busy[j].overlaps(start, end) {
                    blocked = true;
                    let ghost next = ids.push(busy@[j as int].event_id@);
                    proof {
                        lemma_add_new_prefix(before_blockers, ids, next, ids.len() as int);
                    }
                    if !contains_text(&blockers, &busy[j].event_id) {
                        let ghost old_blockers = blockers@;
                        blockers.push(busy[j].event_id.clone());
                        assert(texts(blockers@) == texts(old_blockers).push(busy@[j as int].event_id@));
                    }
                }
                j += 1;
            }
            assert(overlapping_ids(busy@, start, end, busy.len() as int) == slot_blockers(rules, slot));
            if !blocked {
                let soft = if task.deadline_kind == DeadlineKind::Soft {
                    match &deadline {
                        Some(d) => {
                            let (late, _) = duration_since(&end, d);
                            if late > 0 {
                                late / 60
                            } else {
                                0
                            }
                        },
                        None => 0,
                    }
                } else {
                    0
                };
                let cognitive = match cognitive_penalty(settings, task, &start) {
                    Some(v) => v,
                    None => {
                        assert(cognitive_overflow(rules, slots@, i + 1));
                        proof {
                            lemma_overflow_grows(rules, slots@, i + 1, slots.len() as int);
                        }
                        return Err(AppError::internal("cognitive penalty overflowed"));
                    },
                };
                let candidate = Candidate { slot, soft_deadline_penalty: soft, cognitive_penalty: cognitive };
                assert(candidate == candidate_of(rules, slot));
                candidates.push(candidate);
            }
        }
        i += 1;
    }
    Ok((candidates, blockers))
}

/// What planning relies on in a request that passed validation.
pub open spec fn plannable(request: Request) -> bool {
    &&& tz_known(request.settings.timezone@)
    &&& rfc3339_reading(request.now@) is Some
    &&& 1 <= request.settings.horizon_days <= 90
    &&& 5 <= request.settings.slot_minutes <= 120
    &&& request.settings.priority_low_weight >= 0
    &&& request.settings.priority_normal_weight >= 0
    &&& request.settings.priority_high_weight >= 0
    &&& request.settings.excess_high_penalty >= 0
    &&& request.settings.low_outside_penalty >= 0
    &&& request.settings.medium_outside_penalty >= 0
    &&& request.settings.high_outside_penalty >= 0
    &&& forall|i: int|
        0 <= i < request.tasks.len() ==> reads_if_present(#[trigger] request.tasks@[i].earliest_at)
            && reads_if_present(request.tasks@[i].deadline_at)
}

proof fn lemma_tasks_read(tasks: Seq<Task>, from: int)
    requires
        0 <= from,
        crate::validation::tasks_fault(tasks, from) is None,
    ensures
        forall|i: int|
            from <= i < tasks.len() ==> reads_if_present(#[trigger] tasks[i].earliest_at) && reads_if_present(
                tasks[i].deadline_at,
            ),
    decreases tasks.len() - from,
{
    if from < tasks.len() {
        lemma_tasks_read(tasks, from + 1);
        let t = tasks[from];
        let path = crate::text::indexed("tasks"@, from as nat);
        assert(crate::validation::task_fault(t, path) is None);
        assert(crate::validation::deadline_fault(t, path) is None);
    }
}

/// A request that passes validation can be planned.
pub proof fn lemma_valid_plannable(request: Request)
    requires
        crate::validation::request_valid(request),
    ensures
        plannable(request),
{
    lemma_tasks_read(request.tasks@, 0);
}

/// The inbox tasks among the first `n`, in order.
pub open spec fn inbox_upto(tasks: Seq<Task>, n: int) -> Seq<Task>
    decreases n,
{
    if n <= 0 {
        Seq::empty()
    } else if tasks[n - 1].state == TaskState::Inbox {
        inbox_upto(tasks, n - 1).push(tasks[n - 1])
    } else {
        inbox_upto(tasks, n - 1)
    }
}

/// A task's deadline text, empty without one.
pub open spec fn deadline_text(t: Task) -> Seq<char> {
    match t.deadline_at {
        Some(d) => d@,
        None => Seq::empty(),
    }
}

/// The inbox order: higher priority weight first, then earlier deadline
/// text (none first), then id.
pub open spec fn task_before(settings: Settings, a: Task, b: Task) -> bool {
    let wa = -weight_of(settings, a.priority);
    let wb = -weight_of(settings, b.priority);
    ||| wa < wb
    ||| wa == wb && text_lt(deadline_text(a), deadline_text(b))
    ||| wa == wb && deadline_text(a) == deadline_text(b) && text_lt(a.id@, b.id@)
}

/// Two tasks tie in the inbox order.
pub open spec fn same_rank(settings: Settings, a: Task, b: Task) -> bool {
    &&& weight_of(settings, a.priority) == weight_of(settings, b.priority)
    &&& deadline_text(a) == deadline_text(b)
    &&& a.id@ == b.id@
}

/// `order` lists each position of `source` once, in inbox order, ties in
/// their input order.
pub open spec fn ranks_stably(settings: Settings, source: Seq<Task>, order: Seq<usize>) -> bool {
    &&& order.len() == source.len()
    &&& forall|i: int| 0 <= i < order.len() ==> #[trigger] order[i] < source.len()
    &&& forall|i: int, j: int| 0 <= i < order.len() && 0 <= j < order.len() && i != j ==> order[i] != order[j]
    &&& forall|i: int, j: int|
        0 <= i < j < order.len() ==> task_before(settings, source[#[trigger] order[i] as int], source[#[trigger] order[j] as int])
            || (same_rank(settings, source[order[i] as int], source[order[j] as int]) && order[i] < order[j])
}

/// `sorted` is `source` stably sorted into inbox order.
pub open spec fn inbox_sorted(settings: Settings, sorted: Seq<Task>, source: Seq<Task>) -> bool {
    exists|order: Seq<usize>|
        #[trigger] ranks_stably(settings, source, order) && sorted == Seq::new(
            order.len(),
            |i: int| source[order[i] as int],
        )
}

/// The inbox tasks, stably sorted into inbox order.
fn sorted_inbox(settings: &Settings, tasks: &Vec<Task>) -> (r: Vec<Task>)
    requires
        settings.priority_low_weight >= 0,
        settings.priority_normal_weight >= 0,
        settings.priority_high_weight >= 0,
    ensures
        inbox_sorted(*settings, r@, inbox_upto(tasks@, tasks.len() as int)),
{
    let mut inbox: Vec<Task> = Vec::new();
    let mut keys: Vec<crate::order::SortKey> = Vec::new();
    let mut i: usize = 0;
    while i < tasks.len()
        invariant
            i <= tasks.len(),
            settings.priority_low_weight >= 0,
            settings.priority_normal_weight >= 0,
            settings.priority_high_weight >= 0,
            inbox@ == inbox_upto(tasks@, i as int),
            keys.len() == inbox.len(),
            forall|k: int|
                0 <= k < keys.len() ==> (#[trigger] keys@[k]).first == -weight_of(*settings, inbox@[k].priority)
                    && keys@[k].second == 0 && keys@[k].text_a@ == deadline_text(inbox@[k]) && keys@[k].text_b@
                    == inbox@[k].id@,
        decreases tasks.len() - i,
    {
        let task = &tasks[i];
        if task.state == TaskState::Inbox {
            let weight = priority_weight(settings, &task.priority);
            let deadline = match &task.deadline_at {
                Some(d) => chars_of(d.as_str()),
                None => Vec::new(),
            };
            keys.push(crate::order::SortKey { first: -weight, second: 0, text_a: deadline, text_b: chars_of(task.id.as_str()) });
            inbox.push(task.clone());
        }
        i += 1;
    }
    let order = crate::order::sorted_order(&keys);
    let mut sorted: Vec<Task> = Vec::new();
    let mut j: usize = 0;
    while j < order.len()
        invariant
            j <= order.len(),
            crate::order::stable_order(keys@, order@),
            keys.len() == inbox.len(),
            sorted.len() == j,
            forall|k: int| 0 <= k < j ==> #[trigger] sorted@[k] == inbox@[order@[k] as int],
        decreases order.len() - j,
    {
        sorted.push(inbox[order[j]].clone());
        j += 1;
    }
    proof {
        let src = inbox@;
        let o = order@;
        assert forall|a: int, b: int| 0 <= a < b < o.len() implies task_before(
            *settings,
            src[#[trigger] o[a] as int],
            src[#[trigger] o[b] as int],
        ) || (same_rank(*settings, src[o[a] as int], src[o[b] as int]) && o[a] < o[b]) by {
            assert(crate::order::sorts_before(keys@, o[a] as int, o[b] as int));
        }
        assert(ranks_stably(*settings, src, o));
        assert(sorted@ == Seq::new(o.len(), |k: int| src[o[k] as int]));
    }
    sorted
}

proof fn lemma_inbox_keeps(tasks: Seq<Task>, n: int, p: spec_fn(Task) -> bool)
    requires
        n <= tasks.len(),
        forall|i: int| 0 <= i < n ==> p(#[trigger] tasks[i]),
    ensures
        forall|k: int| 0 <= k < inbox_upto(tasks, n).len() ==> p(#[trigger] inbox_upto(tasks, n)[k]),
    decreases n,
{
    if n > 0 {
        lemma_inbox_keeps(tasks, n - 1, p);
        if tasks[n - 1].state == TaskState::Inbox {
            let prev = inbox_upto(tasks, n - 1);
            assert(p(tasks[n - 1]));
            assert forall|k: int| 0 <= k < inbox_upto(tasks, n).len() implies p(#[trigger] inbox_upto(tasks, n)[k]) by {
                if k < prev.len() {
                    assert(inbox_upto(tasks, n)[k] == prev[k]);
                } else {
                    assert(inbox_upto(tasks, n)[k] == tasks[n - 1]);
                }
            }
        } else {
            assert(inbox_upto(tasks, n) == inbox_upto(tasks, n - 1));
        }
    }
}

proof fn lemma_sorted_keeps(settings: Settings, sorted: Seq<Task>, source: Seq<Task>, p: spec_fn(Task) -> bool)
    requires
        inbox_sorted(settings, sorted, source),
        forall|k: int| 0 <= k < source.len() ==> p(#[trigger] source[k]),
    ensures
        forall|k: int| 0 <= k < sorted.len() ==> p(#[trigger] sorted[k]),
{
    let order = choose|order: Seq<usize>|
        #[trigger] ranks_stably(settings, source, order) && sorted == Seq::new(
            order.len(),
            |i: int| source[order[i] as int],
        );
    assert forall|k: int| 0 <= k < sorted.len() implies p(#[trigger] sorted[k]) by {
        assert(sorted[k] == source[order[k] as int]);
    }
}

/// The cognitive penalty of the task cannot leave an `i64`: its minutes
/// times its load's penalty fit.
pub open spec fn cognitive_bounded(settings: Settings, task: Task) -> bool {
    0 <= window_of(settings, task.cognitive_load).2
    && (task.duration_minutes as int) * window_of(settings, task.cognitive_load).2 <= i64::MAX
}

proof fn lemma_outside_bound(tz: Seq<char>, start: Moment, from: int, to: int, n: nat)
    ensures
        outside_minutes(tz, start, from, to, n) <= n,
    decreases n,
{
    if n > 0 {
        lemma_outside_bound(tz, start, from, to, (n - 1) as nat);
    }
}

proof fn lemma_no_overflow(r: CandidateRules, slots: Seq<Slot>, n: int)
    requires
        cognitive_bounded(r.settings, r.task),
    ensures
        !cognitive_overflow(r, slots, n),
    decreases n,
{
    if n > 0 {
        lemma_no_overflow(r, slots, n - 1);
        let start = slots[n - 1].start;
        let (ws, we, penalty) = window_of(r.settings, r.task.cognitive_load);
        match (crate::validation::clock_reading(ws), crate::validation::clock_reading(we)) {
            (Ok(a), Ok(b)) => {
                let c = outside_minutes(r.settings.timezone@, start, a as int, b as int, r.task.duration_minutes as nat);
                lemma_outside_bound(r.settings.timezone@, start, a as int, b as int, r.task.duration_minutes as nat);
                let d = r.task.duration_minutes as int;
                assert(0 <= c * penalty <= d * penalty) by (nonlinear_arith)
                    requires
                        0 <= c <= d,
                        0 <= penalty,
                ;
            },
            _ => {},
        }
    }
}

/// What planning a request works from: the horizon, the busy intervals, the
/// slots, the inbox tasks in planning order, the applied tasks, and each
/// inbox task's candidates and blocking events (by position).
#[derive(Debug)]
pub struct PreparedProblem {
    pub horizon: PlanningHorizon,
    pub busy: Vec<BusyInterval>,
    pub slots: Vec<Slot>,
    pub candidates: Vec<Vec<Candidate>>,
    pub inbox_tasks: Vec<Task>,
    pub fixed_tasks: Vec<SolverFixedTask>,
    pub busy_blockers: Vec<Vec<String>>,
}

/// The rules of the `i`th inbox task of a prepared problem.
pub open spec fn task_rules(request: Request, p: PreparedProblem, i: int) -> CandidateRules {
    rules_of(
        p.inbox_tasks@[i],
        request.settings,
        p.horizon,
        p.busy@,
        request.dependencies@,
        p.fixed_tasks@,
    )
}

/// What preparing the request fixes before any candidate is looked for: the
/// horizon, the busy time, the slots, the inbox in order and the fixed tasks.
#[verifier::opaque]
pub open spec fn base_of(
    request: Request,
    horizon: PlanningHorizon,
    busy: Seq<BusyInterval>,
    slots: Seq<Slot>,
    inbox: Seq<Task>,
    fixed: Seq<SolverFixedTask>,
) -> bool {
    let settings = request.settings;
    &&& horizon == horizon_of(request, horizon.now, horizon.start, horizon.end)
    &&& horizon_ok(horizon)
    &&& horizon_days_spec(settings.timezone@, rfc3339_reading(request.now@)->Some_0, settings.horizon_days as int)
        == HorizonOutcome::Ready(horizon.now, horizon.start, horizon.end)
    &&& horizon.end.seconds + 0x40_0000_0000 <= MAX_SECONDS
    &&& horizon_minutes(horizon) <= 0x4000_0000
    &&& expansion_of(busy, request.events@, horizon)
    &&& slots == slots_upto(settings, horizon, horizon_minutes(horizon))
    &&& forall|i: int| 0 <= i < slots.len() ==> slot_within(horizon, #[trigger] slots[i]) && slots[i].id == i
    &&& inbox_sorted(settings, inbox, inbox_upto(request.tasks@, request.tasks.len() as int))
    &&& fixed.map_values(|f: SolverFixedTask| fixed_view(f)) == fixed_upto(
        request.tasks@,
        request.events@,
        request.tasks.len() as int,
    )
    &&& forall|i: int| 0 <= i < fixed.len() ==> crate::domain::bounded_fixed(#[trigger] fixed[i])
}

proof fn lemma_base_of(
    request: Request,
    horizon: PlanningHorizon,
    busy: Seq<BusyInterval>,
    slots: Seq<Slot>,
    inbox: Seq<Task>,
    fixed: Seq<SolverFixedTask>,
)
    requires
        horizon == horizon_of(request, horizon.now, horizon.start, horizon.end),
        horizon_ok(horizon),
        horizon_days_spec(
            request.settings.timezone@,
            rfc3339_reading(request.now@)->Some_0,
            request.settings.horizon_days as int,
        ) == HorizonOutcome::Ready(horizon.now, horizon.start, horizon.end),
        horizon.end.seconds + 0x40_0000_0000 <= MAX_SECONDS,
        horizon_minutes(horizon) <= 0x4000_0000,
        expansion_of(busy, request.events@, horizon),
        slots == slots_upto(request.settings, horizon, horizon_minutes(horizon)),
        forall|i: int| 0 <= i < slots.len() ==> slot_within(horizon, #[trigger] slots[i]),
        forall|i: int| 0 <= i < slots.len() ==> #[trigger] slots[i].id == i,
        inbox_sorted(request.settings, inbox, inbox_upto(request.tasks@, request.tasks.len() as int)),
        fixed.map_values(|f: SolverFixedTask| fixed_view(f)) == fixed_upto(
            request.tasks@,
            request.events@,
            request.tasks.len() as int,
        ),
        forall|i: int| 0 <= i < fixed.len() ==> crate::domain::bounded_fixed(#[trigger] fixed[i]),
    ensures
        base_of(request, horizon, busy, slots, inbox, fixed),
{
    reveal(base_of);
}

/// Some inbox task's cognitive penalty overflows in an open slot.
pub open spec fn overflow_in(
    request: Request,
    horizon: PlanningHorizon,
    busy: Seq<BusyInterval>,
    slots: Seq<Slot>,
    inbox: Seq<Task>,
    fixed: Seq<SolverFixedTask>,
) -> bool {
    exists|i: int|
        0 <= i < inbox.len() && #[trigger] cognitive_overflow(
            rules_of(inbox[i], request.settings, horizon, busy, request.dependencies@, fixed),
            slots,
            slots.len() as int,
        )
}

/// `p` is what preparing the request gives.
pub open spec fn prepared(request: Request, p: PreparedProblem) -> bool {
    let settings = request.settings;
    &&& p.horizon == horizon_of(request, p.horizon.now, p.horizon.start, p.horizon.end)
    &&& horizon_ok(p.horizon)
    &&& horizon_days_spec(settings.timezone@, rfc3339_reading(request.now@)->Some_0, settings.horizon_days as int)
        == HorizonOutcome::Ready(p.horizon.now, p.horizon.start, p.horizon.end)
    &&& p.horizon.end.seconds + 0x40_0000_0000 <= MAX_SECONDS
    &&& horizon_minutes(p.horizon) <= 0x4000_0000
    &&& expansion_of(p.busy@, request.events@, p.horizon)
    &&& p.slots@ == slots_upto(settings, p.horizon, horizon_minutes(p.horizon))
    &&& forall|i: int| 0 <= i < p.slots.len() ==> slot_within(p.horizon, #[trigger] p.slots@[i]) && p.slots@[i].id == i
    &&& inbox_sorted(settings, p.inbox_tasks@, inbox_upto(request.tasks@, request.tasks.len() as int))
    &&& p.fixed_tasks@.map_values(|f: SolverFixedTask| fixed_view(f)) == fixed_upto(
        request.tasks@,
        request.events@,
        request.tasks.len() as int,
    )
    &&& forall|i: int| 0 <= i < p.fixed_tasks.len() ==> crate::domain::bounded_fixed(#[trigger] p.fixed_tasks@[i])
    &&& p.candidates.len() == p.inbox_tasks.len()
    &&& p.busy_blockers.len() == p.inbox_tasks.len()
    &&& forall|i: int|
        0 <= i < p.inbox_tasks.len() ==> #[trigger] p.candidates@[i]@ == candidates_upto(
            task_rules(request, p, i),
            p.slots@,
            p.slots.len() as int,
        ) && texts(p.busy_blockers@[i]@) == blockers_upto(task_rules(request, p, i), p.slots@, p.slots.len() as int)
            && !cognitive_overflow(task_rules(request, p, i), p.slots@, p.slots.len() as int)
}

/// The horizon a request's settings give for the moments `build_horizon`
/// found.
pub open spec fn horizon_of(request: Request, now: Moment, start: Moment, end: Moment) -> PlanningHorizon {
    PlanningHorizon { timezone: request.settings.timezone, now, start, end }
}

/// No inbox task's cognitive penalty can overflow.
pub open spec fn all_bounded(request: Request) -> bool {
    forall|i: int| 0 <= i < request.tasks.len() ==> cognitive_bounded(request.settings, #[trigger] request.tasks@[i])
}

/// How preparing a valid request ends: the error of building the horizon,
/// else the first event that cannot be expanded, else the cognitive overflow
/// where some inbox task's penalty overflows in an open slot, else success.
pub open spec fn outcome_as<T>(request: Request, r: Result<T, AppError>) -> bool {
    match horizon_days_spec(
        request.settings.timezone@,
        rfc3339_reading(request.now@)->Some_0,
        request.settings.horizon_days as int,
    ) {
        HorizonOutcome::Ready(now, start, end) => match expand_upto(
            request.events@,
            horizon_of(request, now, start, end),
            request.events.len() as int,
        ) {
            Err(f) => fails_with(r, f.kind, f.code, f.path, f.message),
            Ok(_) => {
                &&& all_bounded(request) ==> r is Ok
                &&& r is Err ==> fails_with(
                    r,
                    ErrorKind::Internal,
                    Seq::empty(),
                    Seq::empty(),
                    "cognitive penalty overflowed"@,
                )
                &&& r is Err ==> exists|
                    horizon: PlanningHorizon,
                    busy: Seq<BusyInterval>,
                    slots: Seq<Slot>,
                    inbox: Seq<Task>,
                    fixed: Seq<SolverFixedTask>,
                |
                    #[trigger] base_of(request, horizon, busy, slots, inbox, fixed) && overflow_in(
                        request,
                        horizon,
                        busy,
                        slots,
                        inbox,
                        fixed,
                    )
            },
        },
        HorizonOutcome::Overflow => fails_with(
            r,
            ErrorKind::Internal,
            Seq::empty(),
            Seq::empty(),
            "planning horizon overflowed"@,
        ),
        HorizonOutcome::Gap(path) => fails_with(
            r,
            ErrorKind::Validation,
            "invalid_local_time"@,
            path,
            "local time does not exist in the configured timezone"@,
        ),
    }
}

/// Builds the horizon, expands the busy time, lays out the slots, orders the
/// inbox and finds each inbox task's candidates.
#[verifier::spinoff_prover]
#[verifier::rlimit(60)]
pub fn prepare(request: &Request) -> (r: Result<PreparedProblem, AppError>)
    requires
        plannable(*request),
    ensures
        outcome_as(*request, r),
        r matches Ok(p) ==> prepared(*request, p),
{
    let settings = &request.settings;
    let horizon = match crate::time::build_horizon(settings, request.now.as_str()) {
        Ok(h) => h,
        Err(e) => {
            return Err(e);
        },
    };
    let ghost ready = horizon_days_spec(
        request.settings.timezone@,
        rfc3339_reading(request.now@)->Some_0,
        request.settings.horizon_days as int,
    );
    assert(ready == HorizonOutcome::Ready(horizon.now, horizon.start, horizon.end));
    assert(horizon == PlanningHorizon {
        timezone: request.settings.timezone,
        now: horizon.now,
        start: horizon.start,
        end: horizon.end,
    });
    let busy = match crate::recurrence::expand_events(&request.events, &horizon) {
        Ok(b) => b,
        Err(e) => {
            return Err(e);
        },
    };
    let slots = build_slots(settings, &horizon);
    assert(horizon_minutes(horizon) <= 0x4000_0000);
    let inbox_tasks = sorted_inbox(settings, &request.tasks);
    let fixed_tasks = build_fixed_tasks(request);
    proof {
        let ready = |t: Task| reads_if_present(t.earliest_at) && reads_if_present(t.deadline_at);
        lemma_inbox_keeps(request.tasks@, request.tasks.len() as int, ready);
        lemma_sorted_keeps(*settings, inbox_tasks@, inbox_upto(request.tasks@, request.tasks.len() as int), ready);
    }
    let ghost bounded = all_bounded(*request);
    proof {
        if bounded {
            let fits = |t: Task| cognitive_bounded(request.settings, t);
            lemma_inbox_keeps(request.tasks@, request.tasks.len() as int, fits);
            lemma_sorted_keeps(*settings, inbox_tasks@, inbox_upto(request.tasks@, request.tasks.len() as int), fits);
        }
    }
    let mut candidates: Vec<Vec<Candidate>> = Vec::new();
    let mut busy_blockers: Vec<Vec<String>> = Vec::new();
    let mut i: usize = 0;
    while i < inbox_tasks.len()
        invariant
            plannable(*request),
            *settings == request.settings,
            horizon.timezone@ == settings.timezone@,
            horizon_ok(horizon),
            horizon_days_spec(
                request.settings.timezone@,
                rfc3339_reading(request.now@)->Some_0,
                request.settings.horizon_days as int,
            ) == HorizonOutcome::Ready(horizon.now, horizon.start, horizon.end),
            horizon.end.seconds + 0x40_0000_0000 <= MAX_SECONDS,
            forall|k: int| 0 <= k < slots.len() ==> slot_within(horizon, #[trigger] slots@[k]),
            forall|k: int|
                0 <= k < inbox_tasks.len() ==> reads_if_present(#[trigger] inbox_tasks@[k].earliest_at)
                    && reads_if_present(inbox_tasks@[k].deadline_at),
            bounded == all_bounded(*request),
            expand_upto(request.events@, horizon, request.events.len() as int) is Ok,
            horizon == horizon_of(*request, horizon.now, horizon.start, horizon.end),
            horizon_minutes(horizon) <= 0x4000_0000,
            expansion_of(busy@, request.events@, horizon),
            slots@ == slots_upto(*settings, horizon, horizon_minutes(horizon)),
            forall|k: int| 0 <= k < slots.len() ==> #[trigger] slots@[k].id == k,
            inbox_sorted(*settings, inbox_tasks@, inbox_upto(request.tasks@, request.tasks.len() as int)),
            fixed_tasks@.map_values(|f: SolverFixedTask| fixed_view(f)) == fixed_upto(
                request.tasks@,
                request.events@,
                request.tasks.len() as int,
            ),
            forall|k: int| 0 <= k < fixed_tasks.len() ==> crate::domain::bounded_fixed(#[trigger] fixed_tasks@[k]),
            bounded ==> forall|k: int|
                0 <= k < inbox_tasks.len() ==> cognitive_bounded(request.settings, #[trigger] inbox_tasks@[k]),
            i <= inbox_tasks.len(),
            candidates.len() == i,
            busy_blockers.len() == i,
            forall|k: int|
                0 <= k < i ==> #[trigger] candidates@[k]@ == candidates_upto(
                    rules_of(inbox_tasks@[k], *settings, horizon, busy@, request.dependencies@, fixed_tasks@),
                    slots@,
                    slots.len() as int,
                ) && texts(busy_blockers@[k]@) == blockers_upto(
                    rules_of(inbox_tasks@[k], *settings, horizon, busy@, request.dependencies@, fixed_tasks@),
                    slots@,
                    slots.len() as int,
                ) && !cognitive_overflow(
                    rules_of(inbox_tasks@[k], *settings, horizon, busy@, request.dependencies@, fixed_tasks@),
                    slots@,
                    slots.len() as int,
                ),
        decreases inbox_tasks.len() - i,
    {
        let task = &inbox_tasks[i];
        assert(reads_if_present(inbox_tasks@[i as int].earliest_at));
        assert(reads_if_present(task.earliest_at) && reads_if_present(task.deadline_at));
        proof {
            if bounded {
                assert(cognitive_bounded(request.settings, inbox_tasks@[i as int]));
                lemma_no_overflow(
                    rules_of(*task, *settings, horizon, busy@, request.dependencies@, fixed_tasks@),
                    slots@,
                    slots.len() as int,
                );
            }
        }
        let (found, blockers) = match build_candidates(
            task,
            settings,
            &horizon,
            &slots,
            &busy,
            &request.dependencies,
            &fixed_tasks,
        ) {
            Ok(pair) => pair,
            Err(e) => {
                assert(!bounded);
                proof {
                    let rules = rules_of(*task, *settings, horizon, busy@, request.dependencies@, fixed_tasks@);
                    assert(cognitive_overflow(rules, slots@, slots.len() as int));
                    assert(inbox_tasks@[i as int] == *task);
                    lemma_base_of(*request, horizon, busy@, slots@, inbox_tasks@, fixed_tasks@);
                    assert(overflow_in(*request, horizon, busy@, slots@, inbox_tasks@, fixed_tasks@));
                }
                return Err(e);
            },
        };
        let ghost rules = rules_of(*task, *settings, horizon, busy@, request.dependencies@, fixed_tasks@);
        assert(!cognitive_overflow(rules, slots@, slots.len() as int));
        assert(found@ == candidates_upto(rules, slots@, slots.len() as int));
        assert(texts(blockers@) == blockers_upto(rules, slots@, slots.len() as int));
        assert(inbox_tasks@[i as int] == *task);
        let ghost old_candidates = candidates@;
        let ghost old_blockers = busy_blockers@;
        candidates.push(found);
        busy_blockers.push(blockers);
        proof {
            assert forall|k: int| 0 <= k < i + 1 implies #[trigger] candidates@[k]@ == candidates_upto(
                rules_of(inbox_tasks@[k], *settings, horizon, busy@, request.dependencies@, fixed_tasks@),
                slots@,
                slots.len() as int,
            ) && texts(busy_blockers@[k]@) == blockers_upto(
                rules_of(inbox_tasks@[k], *settings, horizon, busy@, request.dependencies@, fixed_tasks@),
                slots@,
                slots.len() as int,
            ) && !cognitive_overflow(
                rules_of(inbox_tasks@[k], *settings, horizon, busy@, request.dependencies@, fixed_tasks@),
                slots@,
                slots.len() as int,
            ) by {
                if k < i {
                    assert(candidates@[k] == old_candidates[k]);
                    assert(busy_blockers@[k] == old_blockers[k]);
                }
            }
        }
        i += 1;
    }
    let problem = PreparedProblem { horizon, busy, slots, candidates, inbox_tasks, fixed_tasks, busy_blockers };
    assert forall|k: int| 0 <= k < problem.inbox_tasks.len() implies task_rules(*request, problem, k) == rules_of(
        problem.inbox_tasks@[k],
        *settings,
        problem.horizon,
        problem.busy@,
        request.dependencies@,
        problem.fixed_tasks@,
    ) by {}
    Ok(problem)
}

/// The minute since the epoch that holds a second.
pub open spec fn minute_of(seconds: i64) -> i64 {
    (seconds as int / 60) as i64
}

/// A slot as the solver sees it.
pub open spec fn solver_slot_of(s: Slot) -> SolverSlot {
    SolverSlot { id: s.id, start_minute: minute_of(s.start.seconds), end_minute: minute_of(s.end.seconds) }
}

pub open spec fn lateness_pairs(c: Seq<Candidate>) -> Seq<(usize, i64)> {
    c.map_values(|x: Candidate| (x.slot.id, x.soft_deadline_penalty))
}

pub open spec fn cognitive_pairs(c: Seq<Candidate>) -> Seq<(usize, i64)> {
    c.map_values(|x: Candidate| (x.slot.id, x.cognitive_penalty))
}

pub open spec fn start_pairs(c: Seq<Candidate>) -> Seq<(usize, i64)> {
    c.map_values(|x: Candidate| (x.slot.id, minute_of(x.slot.start.seconds)))
}

pub open spec fn slot_ids(c: Seq<Candidate>) -> Seq<usize> {
    c.map_values(|x: Candidate| x.slot.id)
}

/// `st` is the solver's view of an inbox task with its candidates and
/// dependency depth, not yet assigned.
pub open spec fn plans_task(
    settings: Settings,
    deps: Seq<Dependency>,
    task: Task,
    cands: Seq<Candidate>,
    depth: i64,
    st: SolverTask,
) -> bool {
    &&& st.id@ == task.id@
    &&& st.duration_minutes == task.duration_minutes as i64
    &&& st.priority_weight == weight_of(settings, task.priority)
    &&& st.deadline_lateness_by_slot@ == lateness_pairs(cands)
    &&& st.cognitive_penalty_by_slot@ == cognitive_pairs(cands)
    &&& st.start_minute_by_slot@ == start_pairs(cands)
    &&& st.recovery_minutes == settings.recovery_minutes as i64
    &&& st.recovery_penalty == settings.excess_high_penalty
    &&& st.high_cognitive_load == (task.cognitive_load == CognitiveLoad::High)
    &&& sorted_texts(texts(st.predecessor_ids@))
    &&& texts(st.predecessor_ids@).to_multiset() == froms_of(deps, task.id@, deps.len() as int).to_multiset()
    &&& st.dependency_depth == depth
    &&& st.feasible_slot_ids@ == slot_ids(cands)
    &&& st.slot_id is None
}

/// A prepared problem whose slots and candidate slots lie on the horizon.
pub open spec fn problem_ok(p: PreparedProblem) -> bool {
    &&& tz_known(p.horizon.timezone@)
    &&& moment_ok(p.horizon.start)
    &&& moment_ok(p.horizon.now)
    &&& p.horizon.end.seconds + 0x40_0000_0000 <= MAX_SECONDS
    &&& p.candidates.len() == p.inbox_tasks.len()
    &&& p.busy_blockers.len() == p.inbox_tasks.len()
    &&& forall|i: int| 0 <= i < p.slots.len() ==> slot_within(p.horizon, #[trigger] p.slots@[i])
    &&& forall|i: int, j: int|
        0 <= i < p.candidates.len() && 0 <= j < p.candidates@[i].len() ==> slot_within(
            p.horizon,
            #[trigger] p.candidates@[i]@[j].slot,
        )
}

/// The plan `plan` is what `make_plan` builds for the request and problem.
pub open spec fn planned(request: Request, problem: PreparedProblem, plan: SolverPlan) -> bool {
    &&& plan.slots@ == problem.slots@.map_values(|s: Slot| solver_slot_of(s))
    &&& plan.tasks.len() == problem.inbox_tasks.len()
    &&& forall|i: int|
        0 <= i < plan.tasks.len() ==> plans_task(
            request.settings,
            request.dependencies@,
            problem.inbox_tasks@[i],
            problem.candidates@[i]@,
            depth_upto(request.dependencies@, problem.inbox_tasks@[i].id@, (request.dependencies.len() + 1) as nat)
                as i64,
            #[trigger] plan.tasks@[i],
        )
    &&& plan.fixed_tasks@ == problem.fixed_tasks@
    &&& plan.score is None
    &&& plan.solve_seconds == request.settings.solve_seconds as u64
}

fn candidate_columns(cands: &Vec<Candidate>) -> (r: (Vec<(usize, i64)>, Vec<(usize, i64)>, Vec<(usize, i64)>, Vec<usize>))
    requires
        forall|j: int| 0 <= j < cands.len() ==> moment_ok(#[trigger] cands@[j].slot.start),
    ensures
        r.0@ == lateness_pairs(cands@),
        r.1@ == cognitive_pairs(cands@),
        r.2@ == start_pairs(cands@),
        r.3@ == slot_ids(cands@),
{
    let mut late: Vec<(usize, i64)> = Vec::new();
    let mut cog: Vec<(usize, i64)> = Vec::new();
    let mut starts: Vec<(usize, i64)> = Vec::new();
    let mut ids: Vec<usize> = Vec::new();
    let mut j: usize = 0;
    while j < cands.len()
        invariant
            j <= cands.len(),
            forall|j: int| 0 <= j < cands.len() ==> moment_ok(#[trigger] cands@[j].slot.start),
            late@ == lateness_pairs(cands@.take(j as int)),
            cog@ == cognitive_pairs(cands@.take(j as int)),
            starts@ == start_pairs(cands@.take(j as int)),
            ids@ == slot_ids(cands@.take(j as int)),
        decreases cands.len() - j,
    {
        let c = cands[j];
        assert(moment_ok(cands@[j as int].slot.start));
        proof {
            assert(cands@.take(j + 1) == cands@.take(j as int).push(c));
        }
        late.push((c.slot.id, c.soft_deadline_penalty));
        cog.push((c.slot.id, c.cognitive_penalty));
        starts.push((c.slot.id, crate::time::floor_div(c.slot.start.seconds, 60)));
        ids.push(c.slot.id);
        j += 1;
    }
    assert(cands@.take(cands.len() as int) == cands@);
    (late, cog, starts, ids)
}

/// Builds the solver's plan: the slots, one unassigned planning entity per
/// inbox task with its candidate slots and their penalties, the applied
/// tasks, and the time limit.
pub fn make_plan(request: &Request, problem: &PreparedProblem) -> (r: SolverPlan)
    requires
        problem_ok(*problem),
        request.dependencies.len() < 0x4000_0000_0000_0000,
    ensures
        planned(*request, *problem, r),
{
    let settings = &request.settings;
    let depths = dependency_depths(&problem.inbox_tasks, &request.dependencies);
    let mut tasks: Vec<SolverTask> = Vec::new();
    let mut i: usize = 0;
    while i < problem.inbox_tasks.len()
        invariant
            problem_ok(*problem),
            *settings == request.settings,
            request.dependencies.len() < 0x4000_0000_0000_0000,
            depths.len() == problem.inbox_tasks.len(),
            forall|k: int|
                0 <= k < problem.inbox_tasks.len() ==> #[trigger] depths@[k] == depth_upto(
                    request.dependencies@,
                    problem.inbox_tasks@[k].id@,
                    (request.dependencies.len() + 1) as nat,
                ) && 0 <= depths@[k] <= request.dependencies.len() + 1,
            i <= problem.inbox_tasks.len(),
            tasks.len() == i,
            forall|k: int|
                0 <= k < i ==> plans_task(
                    request.settings,
                    request.dependencies@,
                    problem.inbox_tasks@[k],
                    problem.candidates@[k]@,
                    depth_upto(request.dependencies@, problem.inbox_tasks@[k].id@, (request.dependencies.len() + 1) as nat)
                        as i64,
                    #[trigger] tasks@[k],
                ),
        decreases problem.inbox_tasks.len() - i,
    {
        let task = &problem.inbox_tasks[i];
        let cands = &problem.candidates[i];
        assert(forall|j: int| 0 <= j < cands.len() ==> slot_within(problem.horizon, #[trigger] problem.candidates@[i as int]@[j].slot));
        let (late, cog, starts, ids) = candidate_columns(cands);
        let st = SolverTask {
            id: task.id.clone(),
            duration_minutes: task.duration_minutes as i64,
            priority_weight: priority_weight(settings, &task.priority),
            deadline_lateness_by_slot: late,
            cognitive_penalty_by_slot: cog,
            start_minute_by_slot: starts,
            recovery_minutes: settings.recovery_minutes as i64,
            recovery_penalty: settings.excess_high_penalty,
            high_cognitive_load: task.cognitive_load == CognitiveLoad::High,
            predecessor_ids: predecessor_ids(&request.dependencies, &task.id),
            dependency_depth: depths[i],
            feasible_slot_ids: ids,
            slot_id: None,
        };
        assert(depths@[i as int] == depth_upto(
            request.dependencies@,
            problem.inbox_tasks@[i as int].id@,
            (request.dependencies.len() + 1) as nat,
        ));
        tasks.push(st);
        i += 1;
    }
    let mut slots: Vec<SolverSlot> = Vec::new();
    let mut j: usize = 0;
    while j < problem.slots.len()
        invariant
            problem_ok(*problem),
            j <= problem.slots.len(),
            slots@ == problem.slots@.take(j as int).map_values(|s: Slot| solver_slot_of(s)),
        decreases problem.slots.len() - j,
    {
        let slot = problem.slots[j];
        assert(slot_within(problem.horizon, problem.slots@[j as int]));
        proof {
            assert(problem.slots@.take(j + 1) == problem.slots@.take(j as int).push(slot));
        }
        slots.push(
            SolverSlot {
                id: slot.id,
                start_minute: crate::time::floor_div(slot.start.seconds, 60),
                end_minute: crate::time::floor_div(slot.end.seconds, 60),
            },
        );
        j += 1;
    }
    assert(problem.slots@.take(problem.slots.len() as int) == problem.slots@);
    let mut fixed_tasks: Vec<SolverFixedTask> = Vec::new();
    let mut f: usize = 0;
    while f < problem.fixed_tasks.len()
        invariant
            f <= problem.fixed_tasks.len(),
            fixed_tasks@ == problem.fixed_tasks@.take(f as int),
        decreases problem.fixed_tasks.len() - f,
    {
        fixed_tasks.push(problem.fixed_tasks[f].clone());
        proof {
            assert(problem.fixed_tasks@.take(f + 1) == problem.fixed_tasks@.take(f as int).push(problem.fixed_tasks@[f as int]));
        }
        f += 1;
    }
    assert(problem.fixed_tasks@.take(problem.fixed_tasks.len() as int) == problem.fixed_tasks@);
    SolverPlan { slots, tasks, fixed_tasks, score: None, solve_seconds: settings.solve_seconds as u64 }
}

/// The last inbox position holding the id (a later task with the same id
/// takes the place of an earlier one).
pub open spec fn inbox_index(tasks: Seq<Task>, id: Seq<char>, n: int) -> Option<int>
    decreases n,
{
    if n <= 0 {
        None
    } else if tasks[n - 1].id@ == id {
        Some(n - 1)
    } else {
        inbox_index(tasks, id, n - 1)
    }
}

/// The first candidate at the slot.
pub open spec fn candidate_at(cands: Seq<Candidate>, slot: usize, from: int) -> Option<Candidate>
    decreases cands.len() - from,
{
    if from < 0 || from >= cands.len() {
        None
    } else if cands[from].slot.id == slot {
        Some(cands[from])
    } else {
        candidate_at(cands, slot, from + 1)
    }
}

/// The first planning entity with the id.
pub open spec fn entity_of(tasks: Seq<SolverTask>, id: Seq<char>, from: int) -> Option<SolverTask>
    decreases tasks.len() - from,
{
    if from < 0 || from >= tasks.len() {
        None
    } else if tasks[from].id@ == id {
        Some(tasks[from])
    } else {
        entity_of(tasks, id, from + 1)
    }
}

/// The candidate that a planning entity's assigned slot picks among the
/// candidates of the inbox task with its id.
pub open spec fn picked(problem: PreparedProblem, entity: SolverTask) -> Option<Candidate> {
    match entity.slot_id {
        None => None,
        Some(slot) => match inbox_index(problem.inbox_tasks@, entity.id@, problem.inbox_tasks.len() as int) {
            None => None,
            Some(k) => candidate_at(problem.candidates@[k]@, slot, 0),
        },
    }
}

/// The candidate the plan gives an inbox task: through the first entity
/// with its id.
pub open spec fn chosen(problem: PreparedProblem, tasks: Seq<SolverTask>, task: Task) -> Option<Candidate> {
    match entity_of(tasks, task.id@, 0) {
        None => None,
        Some(entity) => picked(problem, entity),
    }
}

/// A scheduled span: task id, start minute and end minute.
pub type Assignment = (Seq<char>, int, int);

/// The position of the entry with the id.
pub open spec fn entry_index(entries: Seq<Assignment>, id: Seq<char>, from: int) -> Option<int>
    decreases entries.len() - from,
{
    if from < 0 || from >= entries.len() {
        None
    } else if entries[from].0 == id {
        Some(from)
    } else {
        entry_index(entries, id, from + 1)
    }
}

/// Sets the entry for an id, replacing an earlier one.
pub open spec fn upsert(entries: Seq<Assignment>, e: Assignment) -> Seq<Assignment> {
    match entry_index(entries, e.0, 0) {
        Some(i) => entries.update(i, e),
        None => entries.push(e),
    }
}

/// The scheduled spans of the first `n` planning entities, one per id, the
/// later entity winning.
pub open spec fn assignments_upto(problem: PreparedProblem, tasks: Seq<SolverTask>, n: int) -> Seq<Assignment>
    decreases n,
{
    if n <= 0 {
        Seq::empty()
    } else {
        let prev = assignments_upto(problem, tasks, n - 1);
        let t = tasks[n - 1];
        match picked(problem, t) {
            None => prev,
            Some(c) => {
                let start = minute_of(c.slot.start.seconds) as int;
                upsert(prev, (t.id@, start, start + t.duration_minutes))
            },
        }
    }
}

/// Spans of other tasks that end, or start, less than `recovery` minutes
/// from the span `[start, end)` without overlapping it.
pub open spec fn close_spans(entries: Seq<Assignment>, id: Seq<char>, start: int, end: int, recovery: int, n: int) -> nat
    decreases n,
{
    if n <= 0 {
        0
    } else {
        let e = entries[n - 1];
        let gap = crate::domain::gap_between(start, end, e.1, e.2);
        close_spans(entries, id, start, end, recovery, n - 1) + if e.0 != id && 0 <= gap < recovery {
            1nat
        } else {
            0nat
        }
    }
}

/// High-load applied tasks less than `recovery` minutes from the span.
pub open spec fn close_fixed(fixed: Seq<SolverFixedTask>, start: int, end: int, recovery: int, n: int) -> nat
    decreases n,
{
    if n <= 0 {
        0
    } else {
        let f = fixed[n - 1];
        let gap = crate::domain::gap_between(start, end, f.start_minute as int, f.end_minute as int);
        close_fixed(fixed, start, end, recovery, n - 1) + if f.high_cognitive_load && 0 <= gap < recovery {
            1nat
        } else {
            0nat
        }
    }
}

/// The fatigue penalty of a high-load task scheduled at `start`: the
/// penalty for each other scheduled task, and each high-load applied task,
/// within the recovery time of it.
pub open spec fn fatigue_total(
    task: Task,
    start: int,
    entries: Seq<Assignment>,
    fixed: Seq<SolverFixedTask>,
    recovery: int,
    penalty: int,
) -> int {
    if task.cognitive_load != CognitiveLoad::High {
        0
    } else {
        let end = start + task.duration_minutes;
        (close_spans(entries, task.id@, start, end, recovery, entries.len() as int) + close_fixed(
            fixed,
            start,
            end,
            recovery,
            fixed.len() as int,
        )) * penalty
    }
}

/// The views of the scheduled spans.
pub open spec fn entry_views(v: Seq<(String, i64, i64)>) -> Seq<Assignment> {
    Seq::new(v.len(), |i: int| (v[i].0@, v[i].1 as int, v[i].2 as int))
}

fn find_inbox(tasks: &Vec<Task>, id: &String) -> (r: Option<usize>)
    ensures
        r is None <==> inbox_index(tasks@, id@, tasks.len() as int) is None,
        r matches Some(k) ==> inbox_index(tasks@, id@, tasks.len() as int) == Some(k as int) && k < tasks.len(),
{
    let mut i: usize = tasks.len();
    while i > 0
        invariant
            i <= tasks.len(),
            inbox_index(tasks@, id@, tasks.len() as int) == inbox_index(tasks@, id@, i as int),
        decreases i,
    {
        if tasks[i - 1].id == *id {
            return Some(i - 1);
        }
        i -= 1;
    }
    None
}

fn find_candidate(cands: &Vec<Candidate>, slot: usize) -> (r: Option<Candidate>)
    ensures
        r == candidate_at(cands@, slot, 0),
        r matches Some(c) ==> exists|j: int| 0 <= j < cands.len() && cands@[j] == c,
{
    let mut j: usize = 0;
    while j < cands.len()
        invariant
            j <= cands.len(),
            candidate_at(cands@, slot, 0) == candidate_at(cands@, slot, j as int),
        decreases cands.len() - j,
    {
        if cands[j].slot.id == slot {
            let c = cands[j];
            assert(cands@[j as int] == c);
            return Some(c);
        }
        j += 1;
    }
    None
}

fn find_entity(tasks: &Vec<SolverTask>, id: &String) -> (r: Option<usize>)
    ensures
        r is None <==> entity_of(tasks@, id@, 0) is None,
        r matches Some(k) ==> k < tasks.len() && entity_of(tasks@, id@, 0) == Some(tasks@[k as int]),
{
    let mut j: usize = 0;
    while j < tasks.len()
        invariant
            j <= tasks.len(),
            entity_of(tasks@, id@, 0) == entity_of(tasks@, id@, j as int),
        decreases tasks.len() - j,
    {
        if tasks[j].id == *id {
            return Some(j);
        }
        j += 1;
    }
    None
}

fn pick(problem: &PreparedProblem, entity: &SolverTask) -> (r: Option<Candidate>)
    requires
        problem.candidates.len() == problem.inbox_tasks.len(),
    ensures
        r == picked(*problem, *entity),
        r matches Some(c) ==> exists|i: int, j: int|
            0 <= i < problem.candidates.len() && 0 <= j < problem.candidates@[i].len()
                && problem.candidates@[i]@[j] == c,
{
    match entity.slot_id {
        None => None,
        Some(slot) => match find_inbox(&problem.inbox_tasks, &entity.id) {
            None => None,
            Some(k) => {
                let r = find_candidate(&problem.candidates[k], slot);
                proof {
                    if r is Some {
                        let j = choose|j: int| 0 <= j < problem.candidates@[k as int].len() && problem.candidates@[k as int]@[j] == r->Some_0;
                        assert(problem.candidates@[k as int]@[j] == r->Some_0);
                    }
                }
                r
            },
        },
    }
}

proof fn lemma_inbox_index_found(tasks: Seq<Task>, k: int, n: int)
    requires
        0 <= k < n <= tasks.len(),
    ensures
        inbox_index(tasks, tasks[k].id@, n) matches Some(i) && k <= i < n,
    decreases n,
{
    if n - 1 != k && tasks[n - 1].id@ != tasks[k].id@ {
        lemma_inbox_index_found(tasks, k, n - 1);
    }
}

/// Minutes small enough for the span arithmetic of fatigue.
pub open spec fn entries_bounded(v: Seq<(String, i64, i64)>) -> bool {
    forall|i: int|
        0 <= i < v.len() ==> -0x100_0000_0000 <= (#[trigger] v[i]).1 <= 0x100_0000_0000
            && -0x4000_0000_0000_0000 <= v[i].2 <= 0x4000_0000_0000_0000
}

/// The scheduled spans of a plan, keyed by task id, the later entity
/// winning.
fn assignments(problem: &PreparedProblem, plan: &SolverPlan) -> (r: Vec<(String, i64, i64)>)
    requires
        problem_ok(*problem),
        crate::domain::plan_sized(*plan),
    ensures
        entry_views(r@) == assignments_upto(*problem, plan.tasks@, plan.tasks.len() as int),
        entries_bounded(r@),
        r.len() <= plan.tasks.len(),
{
    let mut out: Vec<(String, i64, i64)> = Vec::new();
    let mut n: usize = 0;
    assert(entry_views(out@) =~= Seq::<Assignment>::empty());
    while n < plan.tasks.len()
        invariant
            problem_ok(*problem),
            crate::domain::plan_sized(*plan),
            n <= plan.tasks.len(),
            entry_views(out@) == assignments_upto(*problem, plan.tasks@, n as int),
            entries_bounded(out@),
            out.len() <= n,
        decreases plan.tasks.len() - n,
    {
        let t = &plan.tasks[n];
        assert(crate::domain::bounded_task(plan.tasks@[n as int]));
        match pick(problem, t) {
            None => {},
            Some(c) => {
                assert(slot_within(problem.horizon, c.slot));
                let start = crate::time::floor_div(c.slot.start.seconds, 60);
                let end = start + t.duration_minutes;
                let ghost before = out@;
                let ghost e: Assignment = (t.id@, start as int, end as int);
                let mut i: usize = 0;
                while i < out.len()
                    invariant
                        i <= out.len(),
                        out@ == before,
                        e.0 == t.id@,
                        entry_index(entry_views(before), e.0, 0) == entry_index(entry_views(before), e.0, i as int),
                    ensures
                        i <= out.len(),
                        i < out.len() ==> out@[i as int].0@ == e.0,
                        entry_index(entry_views(before), e.0, 0) == entry_index(entry_views(before), e.0, i as int),
                    decreases out.len() - i,
                {
                    if out[i].0 == t.id {
                        break;
                    }
                    assert(entry_views(before)[i as int].0 != e.0);
                    i += 1;
                }
                if i < out.len() {
                    assert(entry_index(entry_views(before), e.0, i as int) == Some(i as int));
                    out.set(i, (t.id.clone(), start, end));
                    assert(entry_views(out@) == entry_views(before).update(i as int, e));
                } else {
                    out.push((t.id.clone(), start, end));
                    assert(entry_views(out@) == entry_views(before).push(e));
                }
            },
        }
        n += 1;
    }
    out
}

/// The fatigue penalty of a task scheduled at `start`; `None` when it does
/// not fit in an `i64`.
fn fatigue_penalty(
    task: &Task,
    start: i64,
    entries: &Vec<(String, i64, i64)>,
    fixed: &Vec<SolverFixedTask>,
    recovery_minutes: u32,
    penalty: i64,
) -> (r: Option<i64>)
    requires
        -0x100_0000_0000 <= start <= 0x100_0000_0000,
        entries_bounded(entries@),
        entries.len() <= 0x4000_0000,
        fixed.len() <= 0x4000_0000,
        forall|i: int| 0 <= i < fixed.len() ==> crate::domain::bounded_fixed(#[trigger] fixed@[i]),
    ensures
        match r {
            Some(v) => v == fatigue_total(
                *task,
                start as int,
                entry_views(entries@),
                fixed@,
                recovery_minutes as int,
                penalty as int,
            ),
            None => !crate::domain::fits_i64(
                fatigue_total(*task, start as int, entry_views(entries@), fixed@, recovery_minutes as int, penalty as int),
            ),
        },
{
    if task.cognitive_load != CognitiveLoad::High {
        return Some(0);
    }
    let end = start + task.duration_minutes as i64;
    let recovery = recovery_minutes as i64;
    let ghost views = entry_views(entries@);
    let mut count: u64 = 0;
    let mut i: usize = 0;
    while i < entries.len()
        invariant
            i <= entries.len(),
            entries.len() <= 0x4000_0000,
            views == entry_views(entries@),
            entries_bounded(entries@),
            -0x100_0000_0000 <= start <= 0x100_0000_0000,
            end == start + task.duration_minutes,
            recovery == recovery_minutes,
            count == close_spans(views, task.id@, start as int, end as int, recovery as int, i as int),
            count <= i,
        decreases entries.len() - i,
    {
        let (other_id, other_start, other_end) = (&entries[i].0, entries[i].1, entries[i].2);
        assert(views[i as int] == (other_id@, other_start as int, other_end as int));
        if *other_id != task.id {
            let gap = if start >= other_start {
                start - other_end
            } else {
                other_start - end
            };
            if gap >= 0 && gap < recovery {
                count = count + 1;
            }
        }
        i += 1;
    }
    let mut j: usize = 0;
    let ghost spans = count;
    while j < fixed.len()
        invariant
            j <= fixed.len(),
            fixed.len() <= 0x4000_0000,
            forall|i: int| 0 <= i < fixed.len() ==> crate::domain::bounded_fixed(#[trigger] fixed@[i]),
            -0x100_0000_0000 <= start <= 0x100_0000_0000,
            end == start + task.duration_minutes,
            recovery == recovery_minutes,
            spans <= 0x4000_0000,
            count == spans + close_fixed(fixed@, start as int, end as int, recovery as int, j as int),
            count <= spans + j,
        decreases fixed.len() - j,
    {
        let f = &fixed[j];
        assert(crate::domain::bounded_fixed(fixed@[j as int]));
        let gap = if start >= f.start_minute {
            start - f.end_minute
        } else {
            f.start_minute - end
        };
        if f.high_cognitive_load && gap >= 0 && gap < recovery {
            count = count + 1;
        }
        j += 1;
    }
    proof {
        let c = count as int;
        let p = penalty as int;
        assert(-0x8000_0000_0000_0000_0000_0000 <= c * p <= 0x8000_0000_0000_0000_0000_0000) by (nonlinear_arith)
            requires
                0 <= c <= 0x8000_0000,
                -0x8000_0000_0000_0000 <= p <= 0x8000_0000_0000_0000,
        ;
    }
    let total: i128 = count as i128 * penalty as i128;
    if total < i64::MIN as i128 || total > i64::MAX as i128 {
        return None;
    }
    Some(total as i64)
}

/// An item for a task the plan schedules at the candidate.
pub open spec fn scheduled_item(
    item: ProposalItem,
    c: Candidate,
    task: Task,
    tz: Seq<char>,
    entries: Seq<Assignment>,
    fixed: Seq<SolverFixedTask>,
    settings: Settings,
) -> bool {
    let end = crate::time::shifted(tz, c.slot.start, task.duration_minutes as int);
    &&& item.start_at is Some
    &&& item.start_at->Some_0@ == rfc3339_text(
        c.slot.start.seconds as int,
        c.slot.start.nanos as int,
        c.slot.start.offset as int,
    )
    &&& item.end_at is Some
    &&& item.end_at->Some_0@ == rfc3339_text(end.seconds as int, end.nanos as int, end.offset as int)
    &&& item.cognitive_penalty == c.cognitive_penalty
    &&& item.fatigue_penalty == fatigue_total(
        task,
        minute_of(c.slot.start.seconds) as int,
        entries,
        fixed,
        settings.recovery_minutes as int,
        settings.excess_high_penalty as int,
    )
    &&& item.diagnostics.outcome == DiagnosticOutcome::Scheduled
    &&& item.explanation@ == "Fits the configured availability without hard conflicts."@
}

/// An item for a task the plan leaves unscheduled, with its candidates.
pub open spec fn unscheduled_item(item: ProposalItem, cands: Seq<Candidate>) -> bool {
    &&& item.start_at is None
    &&& item.end_at is None
    &&& item.cognitive_penalty == 0
    &&& item.fatigue_penalty == 0
    &&& if cands.len() == 0 {
        &&& item.diagnostics.outcome == DiagnosticOutcome::NoHardFeasibleSlot
        &&& item.explanation@ == "No slot satisfies the hard timing, availability, or busy-time constraints."@
    } else {
        &&& item.diagnostics.outcome == DiagnosticOutcome::FeasibleButNotSelected
        &&& item.explanation@ == "A feasible slot exists, but the proposal leaves this"@
            + " task unscheduled to protect higher-priority constraints."@
    }
}

/// The position whose candidates and blockers an inbox task's id names.
pub open spec fn id_slot(problem: PreparedProblem, k: int) -> int {
    inbox_index(problem.inbox_tasks@, problem.inbox_tasks@[k].id@, problem.inbox_tasks.len() as int)->Some_0
}

/// The proposal item of the `k`th inbox task.
pub open spec fn item_spec(
    request: Request,
    problem: PreparedProblem,
    plan: SolverPlan,
    entries: Seq<Assignment>,
    k: int,
    item: ProposalItem,
) -> bool {
    let task = problem.inbox_tasks@[k];
    let at = id_slot(problem, k);
    &&& item.task_id@ == task.id@
    &&& item.scheduled == chosen(problem, plan.tasks@, task) is Some
    &&& texts(item.busy_blockers@) == texts(problem.busy_blockers@[at]@)
    &&& item.omitted_blocker_count == 0
    &&& match chosen(problem, plan.tasks@, task) {
        Some(c) => scheduled_item(
            item,
            c,
            task,
            problem.horizon.timezone@,
            entries,
            problem.fixed_tasks@,
            request.settings,
        ),
        None => unscheduled_item(item, problem.candidates@[at]@),
    }
}

/// Some inbox task among the first `n` that the plan schedules has a fatigue
/// penalty an `i64` cannot hold.
pub open spec fn fatigue_overflow(
    request: Request,
    problem: PreparedProblem,
    tasks: Seq<SolverTask>,
    entries: Seq<Assignment>,
    n: int,
) -> bool
    decreases n,
{
    if n <= 0 {
        false
    } else {
        let task = problem.inbox_tasks@[n - 1];
        fatigue_overflow(request, problem, tasks, entries, n - 1) || match chosen(problem, tasks, task) {
            Some(c) => !crate::domain::fits_i64(
                fatigue_total(
                    task,
                    minute_of(c.slot.start.seconds) as int,
                    entries,
                    problem.fixed_tasks@,
                    request.settings.recovery_minutes as int,
                    request.settings.excess_high_penalty as int,
                ),
            ),
            None => false,
        }
    }
}

/// Why the proposal may not be applied as is.
pub open spec fn reasons_of(items: Seq<ProposalItem>) -> Seq<Seq<char>> {
    let none = if items.len() == 0 {
        seq!["No inbox tasks are ready to schedule."@]
    } else {
        Seq::empty()
    };
    let some = if exists|k: int| 0 <= k < items.len() && !(#[trigger] items[k]).scheduled {
        seq!["Some tasks remain in the inbox because no hard-feasible assignment was selected."@]
    } else {
        Seq::empty()
    };
    none + some
}

/// `p` is the proposal for the request, prepared problem and solved plan,
/// under the id.
pub open spec fn proposal_spec(
    request: Request,
    problem: PreparedProblem,
    plan: SolverPlan,
    id: Seq<char>,
    p: Proposal,
) -> bool {
    let entries = assignments_upto(problem, plan.tasks@, plan.tasks.len() as int);
    let h = problem.horizon;
    &&& p.id@ == id
    &&& p.status@ == "ready"@
    &&& p.base_input_revision == request.base_input_revision
    &&& p.request_id@ == request.request_id@
    &&& p.horizon_start@ == rfc3339_text(h.start.seconds as int, h.start.nanos as int, h.start.offset as int)
    &&& p.horizon_days == request.settings.horizon_days
    &&& p.timezone@ == request.settings.timezone@
    &&& p.score.hard == -crate::domain::hard_penalty(plan)
    &&& p.score.medium == -crate::domain::medium_penalty(plan)
    &&& p.score.soft == -crate::domain::soft_penalty(plan)
    &&& p.created_at@ == rfc3339_text(h.now.seconds as int, h.now.nanos as int, h.now.offset as int)
    &&& p.items.len() == problem.inbox_tasks.len()
    &&& forall|k: int| 0 <= k < p.items.len() ==> item_spec(request, problem, plan, entries, k, #[trigger] p.items@[k])
    &&& texts(p.applicability_reasons@) == reasons_of(p.items@)
}

fn copy_texts(v: &Vec<String>) -> (r: Vec<String>)
    ensures
        texts(r@) == texts(v@),
{
    let mut out: Vec<String> = Vec::new();
    let mut i: usize = 0;
    while i < v.len()
        invariant
            i <= v.len(),
            out.len() == i,
            forall|k: int| 0 <= k < i ==> (#[trigger] out@[k])@ == v@[k]@,
        decreases v.len() - i,
    {
        out.push(v[i].clone());
        i += 1;
    }
    assert(texts(out@) == texts(v@));
    out
}

/// Turns a solved plan into the proposal: the score, one item per inbox
/// task with its times, penalties, diagnosis and blocking events, and the
/// reasons it may not be applied as is.
pub fn make_proposal(request: &Request, problem: &PreparedProblem, plan: &SolverPlan, id: String) -> (r: Result<
    Proposal,
    AppError,
>)
    requires
        problem_ok(*problem),
        crate::domain::plan_sized(*plan),
        problem.fixed_tasks.len() <= 0x4000_0000,
        forall|i: int| 0 <= i < problem.fixed_tasks.len() ==> crate::domain::bounded_fixed(#[trigger] problem.fixed_tasks@[i]),
    ensures
        !crate::domain::score_fits(*plan) ==> fails_with(
            r,
            ErrorKind::Internal,
            Seq::empty(),
            Seq::empty(),
            "score overflowed"@,
        ),
        crate::domain::score_fits(*plan) && fatigue_overflow(
            *request,
            *problem,
            plan.tasks@,
            assignments_upto(*problem, plan.tasks@, plan.tasks.len() as int),
            problem.inbox_tasks.len() as int,
        ) ==> fails_with(r, ErrorKind::Internal, Seq::empty(), Seq::empty(), "fatigue penalty overflowed"@),
        crate::domain::score_fits(*plan) && !fatigue_overflow(
            *request,
            *problem,
            plan.tasks@,
            assignments_upto(*problem, plan.tasks@, plan.tasks.len() as int),
            problem.inbox_tasks.len() as int,
        ) ==> (r matches Ok(p) && proposal_spec(*request, *problem, *plan, id@, p)),
{
    let plan_score = match crate::domain::score(plan) {
        Some(s) => s,
        None => {
            return Err(AppError::internal("score overflowed"));
        },
    };
    let entries = assignments(problem, plan);
    let ghost views = entry_views(entries@);
    let settings = &request.settings;
    let tz = problem.horizon.timezone.as_str();
    let mut items: Vec<ProposalItem> = Vec::new();
    let mut any_unscheduled = false;
    let mut k: usize = 0;
    while k < problem.inbox_tasks.len()
        invariant
            problem_ok(*problem),
            crate::domain::plan_sized(*plan),
            problem.fixed_tasks.len() <= 0x4000_0000,
            forall|i: int| 0 <= i < problem.fixed_tasks.len() ==> crate::domain::bounded_fixed(#[trigger] problem.fixed_tasks@[i]),
            *settings == request.settings,
            tz@ == problem.horizon.timezone@,
            crate::domain::score_fits(*plan),
            views == entry_views(entries@),
            views == assignments_upto(*problem, plan.tasks@, plan.tasks.len() as int),
            entries_bounded(entries@),
            entries.len() <= plan.tasks.len(),
            k <= problem.inbox_tasks.len(),
            items.len() == k,
            forall|q: int| 0 <= q < k ==> item_spec(*request, *problem, *plan, views, q, #[trigger] items@[q]),
            !fatigue_overflow(*request, *problem, plan.tasks@, views, k as int),
            any_unscheduled == exists|q: int| 0 <= q < k && !(#[trigger] items@[q]).scheduled,
        decreases problem.inbox_tasks.len() - k,
    {
        let task = &problem.inbox_tasks[k];
        proof {
            lemma_inbox_index_found(problem.inbox_tasks@, k as int, problem.inbox_tasks.len() as int);
        }
        let at = match find_inbox(&problem.inbox_tasks, &task.id) {
            Some(at) => at,
            None => k,
        };
        assert(at as int == id_slot(*problem, k as int));
        let chosen_candidate = match find_entity(&plan.tasks, &task.id) {
            None => None,
            Some(e) => pick(problem, &plan.tasks[e]),
        };
        assert(chosen_candidate == chosen(*problem, plan.tasks@, *task));
        let blockers = copy_texts(&problem.busy_blockers[at]);
        let item = match chosen_candidate {
            Some(c) => {
                assert(slot_within(problem.horizon, c.slot));
                let start_minute = crate::time::floor_div(c.slot.start.seconds, 60);
                let fatigue = match fatigue_penalty(
                    task,
                    start_minute,
                    &entries,
                    &problem.fixed_tasks,
                    settings.recovery_minutes,
                    settings.excess_high_penalty,
                ) {
                    Some(v) => v,
                    None => {
                        proof {
                            lemma_fatigue_overflow_grows(*request, *problem, plan.tasks@, views, k + 1, problem.inbox_tasks.len() as int);
                        }
                        return Err(AppError::internal("fatigue penalty overflowed"));
                    },
                };
                let end = if task.duration_minutes == 0 {
                    c.slot.start
                } else {
                    crate::time::add_minutes(tz, &c.slot.start, task.duration_minutes as i64)
                };
                ProposalItem {
                    task_id: task.id.clone(),
                    start_at: Some(crate::time::format_rfc3339(&c.slot.start)),
                    end_at: Some(crate::time::format_rfc3339(&end)),
                    scheduled: true,
                    cognitive_penalty: c.cognitive_penalty,
                    fatigue_penalty: fatigue,
                    explanation: String::from_str("Fits the configured availability without hard conflicts."),
                    diagnostics: ProposalDiagnostics { outcome: DiagnosticOutcome::Scheduled },
                    busy_blockers: blockers,
                    omitted_blocker_count: 0,
                }
            },
            None => {
                let (outcome, explanation) = if problem.candidates[at].len() == 0 {
                    (
                        DiagnosticOutcome::NoHardFeasibleSlot,
                        String::from_str("No slot satisfies the hard timing, availability, or busy-time constraints."),
                    )
                } else {
                    (
                        DiagnosticOutcome::FeasibleButNotSelected,
                        concat(
                            "A feasible slot exists, but the proposal leaves this",
                            " task unscheduled to protect higher-priority constraints.",
                        ),
                    )
                };
                ProposalItem {
                    task_id: task.id.clone(),
                    start_at: None,
                    end_at: None,
                    scheduled: false,
                    cognitive_penalty: 0,
                    fatigue_penalty: 0,
                    explanation,
                    diagnostics: ProposalDiagnostics { outcome },
                    busy_blockers: blockers,
                    omitted_blocker_count: 0,
                }
            },
        };
        assert(item_spec(*request, *problem, *plan, views, k as int, item));
        let sched = item.scheduled;
        if !sched {
            any_unscheduled = true;
        }
        let ghost before = items@;
        items.push(item);
        proof {
            if !sched {
                assert(!items@[k as int].scheduled);
            } else {
                assert forall|q: int| 0 <= q < k + 1 && !(#[trigger] items@[q]).scheduled implies 0 <= q < k
                    && !before[q].scheduled by {
                    assert(items@[q] == if q < k { before[q] } else { item });
                }
                assert forall|q: int| 0 <= q < k && !(#[trigger] before[q]).scheduled implies !items@[q].scheduled by {
                    assert(items@[q] == before[q]);
                }
            }
        }
        k += 1;
    }
    let mut reasons: Vec<String> = Vec::new();
    if items.len() == 0 {
        reasons.push(String::from_str("No inbox tasks are ready to schedule."));
    }
    if any_unscheduled {
        reasons.push(String::from_str("Some tasks remain in the inbox because no hard-feasible assignment was selected."));
    }
    let proposal = Proposal {
        id,
        status: String::from_str("ready"),
        base_input_revision: request.base_input_revision,
        request_id: request.request_id.clone(),
        horizon_start: crate::time::format_rfc3339(&problem.horizon.start),
        horizon_days: settings.horizon_days,
        timezone: settings.timezone.clone(),
        score: plan_score,
        created_at: crate::time::format_rfc3339(&problem.horizon.now),
        items,
        applicability_reasons: reasons,
    };
    assert(texts(proposal.applicability_reasons@) == reasons_of(proposal.items@));
    Ok(proposal)
}

proof fn lemma_fatigue_overflow_grows(
    request: Request,
    problem: PreparedProblem,
    plan: Seq<SolverTask>,
    entries: Seq<Assignment>,
    a: int,
    b: int,
)
    requires
        a <= b,
        fatigue_overflow(request, problem, plan, entries, a),
    ensures
        fatigue_overflow(request, problem, plan, entries, b),
    decreases b - a,
{
    if a < b {
        lemma_fatigue_overflow_grows(request, problem, plan, entries, a, b - 1);
    }
}

proof fn lemma_candidates_within(r: CandidateRules, slots: Seq<Slot>, n: int, h: PlanningHorizon)
    requires
        n <= slots.len(),
        forall|i: int| 0 <= i < slots.len() ==> slot_within(h, #[trigger] slots[i]),
    ensures
        forall|j: int|
            0 <= j < candidates_upto(r, slots, n).len() ==> slot_within(h, #[trigger] candidates_upto(r, slots, n)[j].slot),
    decreases n,
{
    if n > 0 {
        lemma_candidates_within(r, slots, n - 1, h);
        let prev = candidates_upto(r, slots, n - 1);
        if slot_open(r, slots[n - 1]) {
            assert(slot_within(h, slots[n - 1]));
            assert forall|j: int| 0 <= j < candidates_upto(r, slots, n).len() implies slot_within(
                h,
                #[trigger] candidates_upto(r, slots, n)[j].slot,
            ) by {
                if j < prev.len() {
                    assert(candidates_upto(r, slots, n)[j] == prev[j]);
                }
            }
        }
    }
}

proof fn lemma_slots_len(settings: Settings, h: PlanningHorizon, n: nat)
    ensures
        slots_upto(settings, h, n).len() <= n,
    decreases n,
{
    if n > 0 {
        lemma_slots_len(settings, h, (n - 1) as nat);
    }
}

proof fn lemma_inbox_len(tasks: Seq<Task>, n: int)
    requires
        0 <= n,
    ensures
        inbox_upto(tasks, n).len() <= n,
    decreases n,
{
    if n > 0 {
        lemma_inbox_len(tasks, n - 1);
    }
}

proof fn lemma_fixed_len(tasks: Seq<Task>, events: Seq<Event>, n: int)
    requires
        0 <= n,
    ensures
        fixed_upto(tasks, events, n).len() <= n,
    decreases n,
{
    if n > 0 {
        lemma_fixed_len(tasks, events, n - 1);
    }
}

/// A request within the sizes the planner's arithmetic allows: the input
/// is capped at four mebibytes, far below these counts.
pub open spec fn request_sized(request: Request) -> bool {
    &&& request.tasks.len() <= 0x4000_0000
    &&& request.dependencies.len() <= 0x4000_0000
}

/// Whether a request is within the sizes the planner's arithmetic allows.
pub fn within_limits(request: &Request) -> (r: bool)
    ensures
        r == request_sized(*request),
{
    request.tasks.len() <= 0x4000_0000 && request.dependencies.len() <= 0x4000_0000
}

/// A prepared problem that the proposal can be made from.
pub open spec fn problem_ready(p: PreparedProblem) -> bool {
    &&& problem_ok(p)
    &&& p.fixed_tasks.len() <= 0x4000_0000
    &&& forall|i: int| 0 <= i < p.fixed_tasks.len() ==> crate::domain::bounded_fixed(#[trigger] p.fixed_tasks@[i])
}

proof fn lemma_prepared_ready(request: Request, p: PreparedProblem)
    requires
        prepared(request, p),
        request_sized(request),
    ensures
        problem_ready(p),
        p.inbox_tasks.len() <= 0x4000_0000,
        p.slots.len() <= 0x4000_0000,
{
    assert forall|i: int, j: int|
        0 <= i < p.candidates.len() && 0 <= j < p.candidates@[i].len() implies slot_within(
        p.horizon,
        #[trigger] p.candidates@[i]@[j].slot,
    ) by {
        lemma_candidates_within(task_rules(request, p, i), p.slots@, p.slots.len() as int, p.horizon);
    }
    lemma_slots_len(request.settings, p.horizon, horizon_minutes(p.horizon));
    lemma_inbox_len(request.tasks@, request.tasks.len() as int);
    lemma_fixed_len(request.tasks@, request.events@, request.tasks.len() as int);
    let order = choose|order: Seq<usize>|
        #[trigger] ranks_stably(request.settings, inbox_upto(request.tasks@, request.tasks.len() as int), order)
            && p.inbox_tasks@ == Seq::new(
            order.len(),
            |i: int| inbox_upto(request.tasks@, request.tasks.len() as int)[order[i] as int],
        );
    assert(p.inbox_tasks.len() == order.len());
    assert(p.fixed_tasks@.map_values(|f: SolverFixedTask| fixed_view(f)).len() == p.fixed_tasks.len());
}

proof fn lemma_planned_sized(request: Request, problem: PreparedProblem, plan: SolverPlan)
    requires
        planned(request, problem, plan),
        problem_ready(problem),
        problem.inbox_tasks.len() <= 0x4000_0000,
        problem.slots.len() <= 0x4000_0000,
    ensures
        crate::domain::plan_sized(plan),
{
    assert forall|i: int| 0 <= i < plan.tasks.len() implies crate::domain::bounded_task(#[trigger] plan.tasks@[i]) by {
        let st = plan.tasks@[i];
        let cands = problem.candidates@[i]@;
        assert(st.start_minute_by_slot@ == start_pairs(cands));
        assert forall|q: int| 0 <= q < st.start_minute_by_slot.len() implies -0x2000_0000_0000_0000
            <= #[trigger] st.start_minute_by_slot@[q].1 <= 0x2000_0000_0000_0000 by {
            assert(slot_within(problem.horizon, problem.candidates@[i]@[q].slot));
            assert(st.start_minute_by_slot@[q] == (cands[q].slot.id, minute_of(cands[q].slot.start.seconds)));
        }
    }
    assert(plan.slots.len() == problem.slots.len());
    assert forall|i: int| 0 <= i < plan.fixed_tasks.len() implies crate::domain::bounded_fixed(#[trigger] plan.fixed_tasks@[i]) by {
        assert(plan.fixed_tasks@[i] == problem.fixed_tasks@[i]);
    }
}

/// What solving a valid request gives: the errors of building the horizon,
/// success when the events expand and no cognitive penalty can overflow, and
/// on success the prepared problem and the plan for the solver.
pub open spec fn solved_as(request: Request, r: Result<(PreparedProblem, SolverPlan), AppError>) -> bool {
    &&& outcome_as(request, r)
    &&& r matches Ok(pair) ==> {
        &&& prepared(request, pair.0)
        &&& problem_ready(pair.0)
        &&& planned(request, pair.0, pair.1)
        &&& crate::domain::plan_sized(pair.1)
    }
}

/// Prepares a validated request and builds the plan for the solver.
pub fn solve(request: &Request) -> (r: Result<(PreparedProblem, SolverPlan), AppError>)
    requires
        crate::validation::request_valid(*request),
        request_sized(*request),
    ensures
        solved_as(*request, r),
{
    proof {
        lemma_valid_plannable(*request);
    }
    let problem = match prepare(request) {
        Ok(p) => p,
        Err(e) => {
            return Err(e);
        },
    };
    proof {
        lemma_prepared_ready(*request, problem);
    }
    let plan = make_plan(request, &problem);
    proof {
        lemma_planned_sized(*request, problem, plan);
    }
    Ok((problem, plan))
}

/// Whether the plan has tasks for the solver to place; without any, the
/// plan is its own solution.
pub fn needs_solver(plan: &SolverPlan) -> (r: bool)
    ensures
        r == (plan.tasks.len() > 0),
{
    plan.tasks.len() > 0
}

/// `solved` is `plan` with the `i`th task assigned `slots[i]`.
pub open spec fn reassigned(plan: SolverPlan, solved: SolverPlan, slots: Seq<Option<usize>>) -> bool {
    &&& solved.slots@ == plan.slots@
    &&& solved.fixed_tasks@ == plan.fixed_tasks@
    &&& solved.score == plan.score
    &&& solved.solve_seconds == plan.solve_seconds
    &&& solved.tasks.len() == plan.tasks.len()
    &&& forall|i: int|
        0 <= i < plan.tasks.len() ==> #[trigger] solved.tasks@[i] == (SolverTask { slot_id: slots[i], ..plan.tasks@[i] })
}

/// A lowercase hexadecimal digit.
pub open spec fn is_lower_hex(c: char) -> bool {
    ('0' <= c && c <= '9') || ('a' <= c && c <= 'f')
}

/// A version 4 UUID in its hyphenated form: lowercase hexadecimal in groups
/// of 8, 4, 4, 4 and 12 digits, the version digit `4`, and the variant digit
/// one of `8`, `9`, `a`, `b`.
pub open spec fn uuid_v4_text(s: Seq<char>) -> bool {
    &&& s.len() == 36
    &&& forall|i: int|
        0 <= i < 36 ==> if i == 8 || i == 13 || i == 18 || i == 23 {
            #[trigger] s[i] == '-'
        } else {
            is_lower_hex(s[i])
        }
    &&& s[14] == '4'
    &&& s[19] == '8' || s[19] == '9' || s[19] == 'a' || s[19] == 'b'
}

/// A fresh proposal id: `uuid::Uuid::new_v4`, written by its `Display` in
/// the lowercase hyphenated form, with the version and variant bits that
/// `new_v4` sets. The other digits are random; nothing is claimed of them.
#[verifier::external_body]
fn new_proposal_id() -> (r: String)
    ensures
        uuid_v4_text(r@),
{
    uuid::Uuid::new_v4().to_string()
}

/// Makes the proposal from the plan with the solver's slot for each task,
/// under a fresh id.
pub fn finish(request: &Request, problem: &PreparedProblem, plan: SolverPlan, assignments: &Vec<Option<usize>>) -> (r:
    Result<Proposal, AppError>)
    requires
        problem_ready(*problem),
        crate::domain::plan_sized(plan),
        assignments.len() == plan.tasks.len(),
    ensures
        forall|solved: SolverPlan|
            reassigned(plan, solved, assignments@) ==> {
                &&& !crate::domain::score_fits(solved) ==> fails_with(
                    r,
                    ErrorKind::Internal,
                    Seq::empty(),
                    Seq::empty(),
                    "score overflowed"@,
                )
                &&& crate::domain::score_fits(solved) && fatigue_overflow(
                    *request,
                    *problem,
                    solved.tasks@,
                    assignments_upto(*problem, solved.tasks@, solved.tasks.len() as int),
                    problem.inbox_tasks.len() as int,
                ) ==> fails_with(r, ErrorKind::Internal, Seq::empty(), Seq::empty(), "fatigue penalty overflowed"@)
                &&& crate::domain::score_fits(solved) && !fatigue_overflow(
                    *request,
                    *problem,
                    solved.tasks@,
                    assignments_upto(*problem, solved.tasks@, solved.tasks.len() as int),
                    problem.inbox_tasks.len() as int,
                ) ==> (r matches Ok(p) && uuid_v4_text(p.id@) && proposal_spec(*request, *problem, solved, p.id@, p))
            },
{
    let ghost given = plan;
    let SolverPlan { slots, tasks, fixed_tasks, score, solve_seconds } = plan;
    let mut rest = tasks;
    let mut placed: Vec<SolverTask> = Vec::new();
    let mut i: usize = 0;
    while i < assignments.len()
        invariant
            assignments.len() == given.tasks.len(),
            i <= assignments.len(),
            placed.len() == i,
            rest@ == given.tasks@.skip(i as int),
            forall|q: int|
                0 <= q < i ==> #[trigger] placed@[q] == (SolverTask { slot_id: assignments@[q], ..given.tasks@[q] }),
        decreases assignments.len() - i,
    {
        let mut t = rest.remove(0);
        assert(t == given.tasks@[i as int]);
        t.slot_id = assignments[i];
        placed.push(t);
        assert(rest@ == given.tasks@.skip(i + 1));
        i += 1;
    }
    let solved = SolverPlan { slots, tasks: placed, fixed_tasks, score, solve_seconds };
    assert(reassigned(given, solved, assignments@));
    proof {
        assert forall|q: int| 0 <= q < solved.tasks.len() implies crate::domain::bounded_task(#[trigger] solved.tasks@[q]) by {
            assert(crate::domain::bounded_task(given.tasks@[q]));
        }
        assert forall|q: int| 0 <= q < solved.fixed_tasks.len() implies crate::domain::bounded_fixed(#[trigger] solved.fixed_tasks@[q]) by {
            assert(crate::domain::bounded_fixed(given.fixed_tasks@[q]));
        }
    }
    let id = new_proposal_id();
    let r = make_proposal(request, problem, &solved, id);
    proof {
        assert forall|other: SolverPlan| reassigned(given, other, assignments@) implies {
            &&& other.tasks@ == solved.tasks@
            &&& other.slots@ == solved.slots@
            &&& other.fixed_tasks@ == solved.fixed_tasks@
        } by {
            assert(other.tasks@ =~= solved.tasks@);
        }
    }
    r
}

/// The number of the first `n` dependencies whose target ranks at most `r`.
pub open spec fn ranked_upto(deps: Seq<Dependency>, rank: spec_fn(Seq<char>) -> nat, r: nat, n: int) -> nat
    decreases n,
{
    if n <= 0 {
        0
    } else {
        ranked_upto(deps, rank, r, n - 1) + if rank(deps[n - 1].to_task_id@) <= r {
            1nat
        } else {
            0nat
        }
    }
}

proof fn lemma_ranked_bound(deps: Seq<Dependency>, rank: spec_fn(Seq<char>) -> nat, r: nat, n: int)
    requires
        0 <= n,
    ensures
        ranked_upto(deps, rank, r, n) <= n,
    decreases n,
{
    if n > 0 {
        lemma_ranked_bound(deps, rank, r, n - 1);
    }
}

proof fn lemma_ranked_grows(deps: Seq<Dependency>, rank: spec_fn(Seq<char>) -> nat, r1: nat, r2: nat, n: int, i: int)
    requires
        r1 <= r2,
        0 <= i < n <= deps.len(),
        r1 < rank(deps[i].to_task_id@) <= r2,
    ensures
        ranked_upto(deps, rank, r1, n) + 1 <= ranked_upto(deps, rank, r2, n),
    decreases n,
{
    if i < n - 1 {
        lemma_ranked_grows(deps, rank, r1, r2, n - 1, i);
    } else {
        lemma_ranked_mono(deps, rank, r1, r2, n - 1);
    }
}

proof fn lemma_ranked_mono(deps: Seq<Dependency>, rank: spec_fn(Seq<char>) -> nat, r1: nat, r2: nat, n: int)
    requires
        r1 <= r2,
    ensures
        ranked_upto(deps, rank, r1, n) <= ranked_upto(deps, rank, r2, n),
    decreases n,
{
    if n > 0 {
        lemma_ranked_mono(deps, rank, r1, r2, n - 1);
    }
}

/// Under a ranking, a task's depth is at most the number of dependencies
/// into tasks ranked no higher.
proof fn lemma_depth_ranked(deps: Seq<Dependency>, rank: spec_fn(Seq<char>) -> nat, x: Seq<char>, k: nat)
    requires
        crate::validation::ranks_dependencies(deps, rank),
    ensures
        depth_upto(deps, x, k) <= ranked_upto(deps, rank, rank(x), deps.len() as int),
    decreases k, 0int,
{
    if k > 0 {
        lemma_deepest_ranked(deps, rank, x, (k - 1) as nat, deps.len() as int);
    }
}

proof fn lemma_deepest_ranked(deps: Seq<Dependency>, rank: spec_fn(Seq<char>) -> nat, x: Seq<char>, k: nat, n: int)
    requires
        crate::validation::ranks_dependencies(deps, rank),
        n <= deps.len(),
    ensures
        deepest_pred(deps, x, k, n) <= ranked_upto(deps, rank, rank(x), deps.len() as int),
    decreases k, n,
{
    if n > 0 {
        lemma_deepest_ranked(deps, rank, x, k, n - 1);
        if deps[n - 1].to_task_id@ == x {
            let from = deps[n - 1].from_task_id@;
            lemma_depth_ranked(deps, rank, from, k);
            assert(rank(deps[n - 1].from_task_id@) < rank(deps[n - 1].to_task_id@));
            lemma_ranked_grows(deps, rank, rank(from), rank(x), deps.len() as int, n - 1);
        }
    }
}

/// A depth below its round count no longer grows.
proof fn lemma_depth_stable(deps: Seq<Dependency>, x: Seq<char>, k: nat)
    ensures
        depth_upto(deps, x, k) < k ==> depth_upto(deps, x, k + 1) == depth_upto(deps, x, k),
    decreases k, 0int,
{
    if k > 0 && depth_upto(deps, x, k) < k {
        lemma_deepest_stable(deps, x, (k - 1) as nat, deps.len() as int);
    }
}

proof fn lemma_deepest_stable(deps: Seq<Dependency>, x: Seq<char>, k: nat, n: int)
    requires
        n <= deps.len(),
        deepest_pred(deps, x, k, n) < k + 1,
    ensures
        deepest_pred(deps, x, k + 1, n) == deepest_pred(deps, x, k, n),
    decreases k, n,
{
    if n > 0 {
        let rest = deepest_pred(deps, x, k, n - 1);
        lemma_deepest_stable(deps, x, k, n - 1);
        if deps[n - 1].to_task_id@ == x {
            let from = deps[n - 1].from_task_id@;
            lemma_depth_stable(deps, from, k);
        }
    }
}

proof fn lemma_deepest_covers(deps: Seq<Dependency>, x: Seq<char>, k: nat, n: int, j: int)
    requires
        0 <= j < n <= deps.len(),
        deps[j].to_task_id@ == x,
    ensures
        deepest_pred(deps, x, k, n) >= depth_upto(deps, deps[j].from_task_id@, k) + 1,
    decreases n,
{
    if j < n - 1 {
        lemma_deepest_covers(deps, x, k, n - 1, j);
    }
}

/// When the dependencies form a DAG the dependency depth does not depend on
/// the bound on chain length: from one more link than there are
/// dependencies on, it is the longest chain of dependencies ending at the
/// task.
pub proof fn law_depth_is_the_longest_chain(deps: Seq<Dependency>, x: Seq<char>, k: nat)
    requires
        crate::validation::is_dag(deps),
        k >= deps.len() + 1,
    ensures
        depth_upto(deps, x, k) == depth_upto(deps, x, (deps.len() + 1) as nat),
    decreases k,
{
    let m = deps.len();
    if k > m + 1 {
        law_depth_is_the_longest_chain(deps, x, (k - 1) as nat);
        let rank = choose|rank: spec_fn(Seq<char>) -> nat| crate::validation::ranks_dependencies(deps, rank);
        lemma_depth_ranked(deps, rank, x, (k - 1) as nat);
        lemma_ranked_bound(deps, rank, rank(x), m as int);
        lemma_depth_stable(deps, x, (k - 1) as nat);
    }
}

/// Dependency roots come first: when the dependencies form a DAG, every
/// task's dependency depth is greater than each of its predecessors'.
pub proof fn law_dependents_are_deeper(deps: Seq<Dependency>, i: int)
    requires
        crate::validation::is_dag(deps),
        0 <= i < deps.len(),
    ensures
        depth_upto(deps, deps[i].from_task_id@, (deps.len() + 1) as nat) < depth_upto(
            deps,
            deps[i].to_task_id@,
            (deps.len() + 1) as nat,
        ),
{
    let m = deps.len();
    let rank = choose|rank: spec_fn(Seq<char>) -> nat| crate::validation::ranks_dependencies(deps, rank);
    let from = deps[i].from_task_id@;
    let to = deps[i].to_task_id@;
    assert(rank(deps[i].from_task_id@) < rank(deps[i].to_task_id@));
    lemma_depth_ranked(deps, rank, from, m as nat);
    lemma_ranked_grows(deps, rank, rank(from), rank(to), m as int, i);
    lemma_ranked_bound(deps, rank, rank(to), m as int);
    lemma_depth_stable(deps, from, m as nat);
    lemma_deepest_covers(deps, to, m as nat, m as int, i);
}

/// Every candidate a task gets is the candidate of its own slot, one of the
/// slots, and that slot passes every hard rule for the task (no earlier than
/// now, within the horizon, after the applied predecessors, no earlier than
/// the earliest start, by a hard deadline, in available time) and meets no
/// busy interval.
pub proof fn law_candidates_are_open(r: CandidateRules, slots: Seq<Slot>, n: int, j: int)
    requires
        0 <= n <= slots.len(),
        0 <= j < candidates_upto(r, slots, n).len(),
    ensures
        slot_open(r, candidates_upto(r, slots, n)[j].slot),
        candidates_upto(r, slots, n)[j] == candidate_of(r, candidates_upto(r, slots, n)[j].slot),
        slots.contains(candidates_upto(r, slots, n)[j].slot),
    decreases n,
{
    let prev = candidates_upto(r, slots, n - 1);
    if j < prev.len() {
        law_candidates_are_open(r, slots, n - 1, j);
        if slot_open(r, slots[n - 1]) {
            assert(candidates_upto(r, slots, n)[j] == prev[j]);
        }
    } else {
        assert(candidates_upto(r, slots, n)[j] == candidate_of(r, slots[n - 1]));
        assert(slots[n - 1] == slots[n - 1]);
    }
}

/// No two inbox tasks share an id.
pub open spec fn distinct_ids(tasks: Seq<Task>) -> bool {
    forall|a: int, b: int| 0 <= a < tasks.len() && 0 <= b < tasks.len() && a != b ==> tasks[a].id@ != tasks[b].id@
}

proof fn lemma_inbox_index_distinct(tasks: Seq<Task>, k: int, n: int)
    requires
        distinct_ids(tasks),
        0 <= k < n <= tasks.len(),
    ensures
        inbox_index(tasks, tasks[k].id@, n) == Some(k),
    decreases n,
{
    if n - 1 != k {
        lemma_inbox_index_distinct(tasks, k, n - 1);
    }
}

/// A scheduled proposal item sits at a candidate of its task, so its slot
/// passes every hard rule for that task and meets no busy interval.
pub proof fn law_scheduled_items_are_feasible(
    request: Request,
    problem: PreparedProblem,
    plan: SolverPlan,
    id: Seq<char>,
    p: Proposal,
    k: int,
)
    requires
        prepared(request, problem),
        distinct_ids(problem.inbox_tasks@),
        proposal_spec(request, problem, plan, id, p),
        0 <= k < p.items.len(),
        p.items@[k].scheduled,
    ensures
        chosen(problem, plan.tasks@, problem.inbox_tasks@[k]) is Some,
        slot_open(task_rules(request, problem, k), chosen(problem, plan.tasks@, problem.inbox_tasks@[k])->Some_0.slot),
        chosen(problem, plan.tasks@, problem.inbox_tasks@[k])->Some_0 == candidate_of(
            task_rules(request, problem, k),
            chosen(problem, plan.tasks@, problem.inbox_tasks@[k])->Some_0.slot,
        ),
{
    let task = problem.inbox_tasks@[k];
    let entries = assignments_upto(problem, plan.tasks@, plan.tasks.len() as int);
    assert(item_spec(request, problem, plan, entries, k, p.items@[k]));
    let entity = entity_of(plan.tasks@, task.id@, 0)->Some_0;
    lemma_entity_id(plan.tasks@, task.id@, 0);
    lemma_inbox_index_distinct(problem.inbox_tasks@, k, problem.inbox_tasks.len() as int);
    let slot = entity.slot_id->Some_0;
    let cands = problem.candidates@[k]@;
    let c = candidate_at(cands, slot, 0)->Some_0;
    let j = lemma_candidate_at_index(cands, slot, 0);
    law_candidates_are_open(task_rules(request, problem, k), problem.slots@, problem.slots.len() as int, j);
}

proof fn lemma_entity_id(tasks: Seq<SolverTask>, id: Seq<char>, from: int)
    requires
        0 <= from,
    ensures
        entity_of(tasks, id, from) matches Some(t) ==> t.id@ == id,
    decreases tasks.len() - from,
{
    if from < tasks.len() && tasks[from].id@ != id {
        lemma_entity_id(tasks, id, from + 1);
    }
}

proof fn lemma_candidate_at_index(cands: Seq<Candidate>, slot: usize, from: int) -> (j: int)
    requires
        0 <= from,
        candidate_at(cands, slot, from) is Some,
    ensures
        from <= j < cands.len(),
        cands[j] == candidate_at(cands, slot, from)->Some_0,
    decreases cands.len() - from,
{
    if cands[from].slot.id == slot {
        from
    } else {
        lemma_candidate_at_index(cands, slot, from + 1)
    }
}

proof fn lemma_inbox_member(tasks: Seq<Task>, n: int, k: int) -> (j: int)
    requires
        0 <= n <= tasks.len(),
        0 <= k < inbox_upto(tasks, n).len(),
    ensures
        0 <= j < n,
        inbox_upto(tasks, n)[k] == tasks[j],
    decreases n,
{
    let prev = inbox_upto(tasks, n - 1);
    if tasks[n - 1].state == TaskState::Inbox && k == prev.len() {
        n - 1
    } else {
        if tasks[n - 1].state == TaskState::Inbox {
            assert(inbox_upto(tasks, n)[k] == prev[k]);
        }
        lemma_inbox_member(tasks, n - 1, k)
    }
}

proof fn lemma_inbox_distinct(tasks: Seq<Task>, n: int)
    requires
        0 <= n <= tasks.len(),
        distinct_ids(tasks),
    ensures
        distinct_ids(inbox_upto(tasks, n)),
    decreases n,
{
    if n > 0 {
        lemma_inbox_distinct(tasks, n - 1);
        let prev = inbox_upto(tasks, n - 1);
        if tasks[n - 1].state == TaskState::Inbox {
            let cur = inbox_upto(tasks, n);
            assert forall|a: int, b: int| 0 <= a < cur.len() && 0 <= b < cur.len() && a != b implies cur[a].id@
                != cur[b].id@ by {
                if a < prev.len() && b < prev.len() {
                    assert(cur[a] == prev[a] && cur[b] == prev[b]);
                } else if a < prev.len() {
                    let ja = lemma_inbox_member(tasks, n - 1, a);
                    assert(cur[a] == prev[a]);
                    assert(cur[b] == tasks[n - 1]);
                } else {
                    let jb = lemma_inbox_member(tasks, n - 1, b);
                    assert(cur[b] == prev[b]);
                    assert(cur[a] == tasks[n - 1]);
                }
            }
        }
    }
}

proof fn lemma_tasks_distinct(tasks: Seq<Task>, from: int)
    requires
        0 <= from,
        crate::validation::tasks_fault(tasks, from) is None,
    ensures
        forall|b: int| from <= b < tasks.len() ==> !crate::validation::task_id_seen(tasks, b),
    decreases tasks.len() - from,
{
    if from < tasks.len() {
        lemma_tasks_distinct(tasks, from + 1);
    }
}

/// In a valid request the inbox tasks of the prepared problem have distinct
/// ids, so each item of the proposal speaks of its own task.
pub proof fn law_inbox_ids_distinct(request: Request, problem: PreparedProblem)
    requires
        crate::validation::request_valid(request),
        prepared(request, problem),
    ensures
        distinct_ids(problem.inbox_tasks@),
{
    let tasks = request.tasks@;
    lemma_tasks_distinct(tasks, 0);
    assert forall|a: int, b: int| 0 <= a < tasks.len() && 0 <= b < tasks.len() && a != b implies tasks[a].id@
        != tasks[b].id@ by {
        if a < b {
            assert(!crate::validation::task_id_seen(tasks, b));
        } else {
            assert(!crate::validation::task_id_seen(tasks, a));
        }
    }
    lemma_inbox_distinct(tasks, tasks.len() as int);
    let source = inbox_upto(tasks, tasks.len() as int);
    let order = choose|order: Seq<usize>|
        #[trigger] ranks_stably(request.settings, source, order) && problem.inbox_tasks@ == Seq::new(
            order.len(),
            |i: int| source[order[i] as int],
        );
    assert forall|a: int, b: int|
        0 <= a < problem.inbox_tasks.len() && 0 <= b < problem.inbox_tasks.len() && a != b implies problem.inbox_tasks@[a].id@
        != problem.inbox_tasks@[b].id@ by {
        assert(order[a] != order[b]);
        assert(problem.inbox_tasks@[a] == source[order[a] as int]);
        assert(problem.inbox_tasks@[b] == source[order[b] as int]);
    }
}

proof fn lemma_no_overflow_at(r: CandidateRules, slots: Seq<Slot>, n: int, i: int)
    requires
        !cognitive_overflow(r, slots, n),
        0 <= i < n,
        slot_open(r, slots[i]),
    ensures
        crate::domain::fits_i64(cognitive_total(r.settings, r.task, slots[i].start)),
    decreases n,
{
    if i < n - 1 {
        lemma_no_overflow_at(r, slots, n - 1, i);
    }
}

proof fn lemma_cognitive_nonneg(settings: Settings, task: Task, start: Moment)
    requires
        settings.low_outside_penalty >= 0,
        settings.medium_outside_penalty >= 0,
        settings.high_outside_penalty >= 0,
    ensures
        cognitive_total(settings, task, start) >= 0,
{
    let (ws, we, penalty) = window_of(settings, task.cognitive_load);
    match (crate::validation::clock_reading(ws), crate::validation::clock_reading(we)) {
        (Ok(a), Ok(b)) => {
            let c = outside_minutes(settings.timezone@, start, a as int, b as int, task.duration_minutes as nat);
            assert(c * penalty >= 0) by (nonlinear_arith)
                requires
                    c >= 0,
                    penalty >= 0,
            ;
        },
        _ => {},
    }
}

/// For a valid request, the plan the solver gets, and any assignment of its
/// tasks, has non-negative weights and penalties, so by
/// `law_score_never_positive` no level of its score is above zero.
pub proof fn law_planned_penalties_nonneg(
    request: Request,
    problem: PreparedProblem,
    plan: SolverPlan,
    slots: Seq<Option<usize>>,
    solved: SolverPlan,
)
    requires
        crate::validation::request_valid(request),
        prepared(request, problem),
        planned(request, problem, plan),
        reassigned(plan, solved, slots),
    ensures
        crate::domain::penalties_nonneg(solved),
{
    lemma_valid_plannable(request);
    assert forall|i: int| 0 <= i < solved.tasks.len() implies crate::domain::task_nonneg(#[trigger] solved.tasks@[i]) by {
        let st = plan.tasks@[i];
        assert(solved.tasks@[i] == (SolverTask { slot_id: slots[i], ..st }));
        let cands = problem.candidates@[i]@;
        let r = task_rules(request, problem, i);
        assert(cands == candidates_upto(r, problem.slots@, problem.slots.len() as int));
        assert(st.deadline_lateness_by_slot@ == lateness_pairs(cands));
        assert(st.cognitive_penalty_by_slot@ == cognitive_pairs(cands));
        assert forall|q: int| 0 <= q < st.deadline_lateness_by_slot.len() implies #[trigger] st.deadline_lateness_by_slot@[q].1
            >= 0 by {
            law_candidates_are_open(r, problem.slots@, problem.slots.len() as int, q);
            assert(st.deadline_lateness_by_slot@[q].1 == cands[q].soft_deadline_penalty);
        }
        assert forall|q: int| 0 <= q < st.cognitive_penalty_by_slot.len() implies #[trigger] st.cognitive_penalty_by_slot@[q].1
            >= 0 by {
            law_candidates_are_open(r, problem.slots@, problem.slots.len() as int, q);
            let c = cands[q];
            let k = choose|k: int| 0 <= k < problem.slots.len() && problem.slots@[k] == c.slot;
            lemma_no_overflow_at(r, problem.slots@, problem.slots.len() as int, k);
            lemma_cognitive_nonneg(request.settings, r.task, c.slot.start);
            assert(st.cognitive_penalty_by_slot@[q].1 == c.cognitive_penalty);
        }
    }
}

/// Every slot starts at a whole minute of the horizon whose clock minute is
/// a multiple of the slot length and which the settings make available; it
/// lasts the slot length.
pub proof fn law_slots_are_aligned_and_available(settings: Settings, h: PlanningHorizon, n: nat, j: int)
    requires
        0 <= j < slots_upto(settings, h, n).len(),
    ensures
        opens_slot(settings, slots_upto(settings, h, n)[j].start),
        exists|k: int|
            0 <= k < n && slots_upto(settings, h, n)[j].start == #[trigger] minute_at(h.timezone@, h.start.seconds as int, k)
                && slots_upto(settings, h, n)[j].end == minute_at(
                h.timezone@,
                h.start.seconds as int,
                k + settings.slot_minutes,
            ),
    decreases n,
{
    let prev = slots_upto(settings, h, (n - 1) as nat);
    let local = minute_at(h.timezone@, h.start.seconds as int, n - 1);
    lemma_slots_len(settings, h, (n - 1) as nat);
    if j < prev.len() {
        law_slots_are_aligned_and_available(settings, h, (n - 1) as nat, j);
        if opens_slot(settings, local) {
            assert(slots_upto(settings, h, n)[j] == prev[j]);
        }
        let k = choose|k: int|
            0 <= k < n - 1 && prev[j].start == #[trigger] minute_at(h.timezone@, h.start.seconds as int, k) && prev[j].end
                == minute_at(h.timezone@, h.start.seconds as int, k + settings.slot_minutes);
        assert(slots_upto(settings, h, n)[j] == prev[j]);
    } else {
        assert(slots_upto(settings, h, n)[j].start == local);
    }
}


/// The order of a stable sort of `source` into inbox order, on positions.
pub open spec fn inbox_before(settings: Settings, source: Seq<Task>) -> spec_fn(int, int) -> bool {
    |x: int, y: int|
        task_before(settings, source[x], source[y]) || (same_rank(settings, source[x], source[y]) && x < y)
}

/// Sorting the inbox stably has one outcome.
pub proof fn lemma_inbox_sorted_unique(settings: Settings, a: Seq<Task>, b: Seq<Task>, source: Seq<Task>)
    requires
        inbox_sorted(settings, a, source),
        inbox_sorted(settings, b, source),
    ensures
        a == b,
{
    let oa = choose|order: Seq<usize>|
        #[trigger] ranks_stably(settings, source, order) && a == Seq::new(
            order.len(),
            |i: int| source[order[i] as int],
        );
    let ob = choose|order: Seq<usize>|
        #[trigger] ranks_stably(settings, source, order) && b == Seq::new(
            order.len(),
            |i: int| source[order[i] as int],
        );
    let before = inbox_before(settings, source);
    assert forall|x: int, y: int| #[trigger] before(x, y) implies !before(y, x) by {
        let (p, q) = (source[x], source[y]);
        crate::text::lemma_text_lt_irreflexive(deadline_text(p));
        crate::text::lemma_text_lt_irreflexive(p.id@);
        crate::text::lemma_text_lt_irreflexive(q.id@);
        if text_lt(deadline_text(p), deadline_text(q)) && text_lt(deadline_text(q), deadline_text(p)) {
            lemma_text_lt_transitive(deadline_text(p), deadline_text(q), deadline_text(p));
        }
        if text_lt(p.id@, q.id@) && text_lt(q.id@, p.id@) {
            lemma_text_lt_transitive(p.id@, q.id@, p.id@);
        }
    }
    assert(crate::order::ordered_by(oa, before));
    assert(crate::order::ordered_by(ob, before));
    crate::order::lemma_ordered_positions_unique(oa, ob, source.len() as int, before);
    assert(a =~= b);
}

proof fn lemma_fixed_end_views(f1: Seq<SolverFixedTask>, f2: Seq<SolverFixedTask>, id: Seq<char>, n: int)
    requires
        f1.map_values(|f: SolverFixedTask| fixed_view(f)) == f2.map_values(|f: SolverFixedTask| fixed_view(f)),
        n <= f1.len(),
    ensures
        fixed_end_of(f1, id, n) == fixed_end_of(f2, id, n),
    decreases n,
{
    assert(f1.map_values(|f: SolverFixedTask| fixed_view(f)).len() == f1.len());
    assert(f2.map_values(|f: SolverFixedTask| fixed_view(f)).len() == f2.len());
    if n > 0 {
        lemma_fixed_end_views(f1, f2, id, n - 1);
        assert(f1.map_values(|f: SolverFixedTask| fixed_view(f))[n - 1] == fixed_view(f1[n - 1]));
        assert(f2.map_values(|f: SolverFixedTask| fixed_view(f))[n - 1] == fixed_view(f2[n - 1]));
    }
}

proof fn lemma_predecessor_end_views(
    deps: Seq<Dependency>,
    f1: Seq<SolverFixedTask>,
    f2: Seq<SolverFixedTask>,
    id: Seq<char>,
    n: int,
)
    requires
        f1.map_values(|f: SolverFixedTask| fixed_view(f)) == f2.map_values(|f: SolverFixedTask| fixed_view(f)),
    ensures
        predecessor_end(deps, f1, id, n) == predecessor_end(deps, f2, id, n),
    decreases n,
{
    assert(f1.map_values(|f: SolverFixedTask| fixed_view(f)).len() == f1.len());
    assert(f2.map_values(|f: SolverFixedTask| fixed_view(f)).len() == f2.len());
    if n > 0 {
        lemma_predecessor_end_views(deps, f1, f2, id, n - 1);
        lemma_fixed_end_views(f1, f2, deps[n - 1].from_task_id@, f1.len() as int);
    }
}

/// Two bases of the same request agree: one horizon, one busy list, one
/// slot list, one inbox order, and fixed tasks alike in all that planning
/// reads of them.
proof fn lemma_base_unique(
    request: Request,
    h1: PlanningHorizon,
    b1: Seq<BusyInterval>,
    s1: Seq<Slot>,
    t1: Seq<Task>,
    f1: Seq<SolverFixedTask>,
    h2: PlanningHorizon,
    b2: Seq<BusyInterval>,
    s2: Seq<Slot>,
    t2: Seq<Task>,
    f2: Seq<SolverFixedTask>,
)
    requires
        base_of(request, h1, b1, s1, t1, f1),
        base_of(request, h2, b2, s2, t2, f2),
    ensures
        h1 == h2,
        b1 == b2,
        s1 == s2,
        t1 == t2,
        f1.map_values(|f: SolverFixedTask| fixed_view(f)) == f2.map_values(|f: SolverFixedTask| fixed_view(f)),
        forall|t: Task|
            #[trigger] rules_of(t, request.settings, h1, b1, request.dependencies@, f1) == rules_of(
                t,
                request.settings,
                h2,
                b2,
                request.dependencies@,
                f2,
            ),
{
    reveal(base_of);
    assert(h1 == h2);
    crate::recurrence::lemma_expansion_unique(b1, b2, request.events@, h1);
    lemma_inbox_sorted_unique(request.settings, t1, t2, inbox_upto(request.tasks@, request.tasks.len() as int));
    assert forall|t: Task|
        #[trigger] rules_of(t, request.settings, h1, b1, request.dependencies@, f1) == rules_of(
            t,
            request.settings,
            h2,
            b2,
            request.dependencies@,
            f2,
        ) by {
        lemma_predecessor_end_views(request.dependencies@, f1, f2, t.id@, request.dependencies.len() as int);
    }
}

/// Two prepared problems agree in every field, each taken by its view.
pub open spec fn same_preparation(p1: PreparedProblem, p2: PreparedProblem) -> bool {
    &&& p1.horizon == p2.horizon
    &&& p1.busy@ == p2.busy@
    &&& p1.slots@ == p2.slots@
    &&& p1.inbox_tasks@ == p2.inbox_tasks@
    &&& p1.fixed_tasks@.map_values(|f: SolverFixedTask| fixed_view(f)) == p2.fixed_tasks@.map_values(
        |f: SolverFixedTask| fixed_view(f),
    )
    &&& p1.candidates.len() == p2.candidates.len()
    &&& p1.busy_blockers.len() == p2.busy_blockers.len()
    &&& forall|i: int| 0 <= i < p1.candidates.len() ==> #[trigger] p1.candidates@[i]@ == p2.candidates@[i]@
    &&& forall|i: int|
        0 <= i < p1.busy_blockers.len() ==> #[trigger] texts(p1.busy_blockers@[i]@) == texts(p2.busy_blockers@[i]@)
}

/// Two errors agree in kind, code, path and message.
pub open spec fn same_error(e1: AppError, e2: AppError) -> bool {
    &&& e1.kind() == e2.kind()
    &&& e1.kind() != ErrorKind::Internal ==> e1.code_view() == e2.code_view() && e1.path_view() == e2.path_view()
    &&& e1.message_view() == e2.message_view()
}

proof fn lemma_prepared_base(request: Request, p: PreparedProblem)
    requires
        prepared(request, p),
    ensures
        base_of(request, p.horizon, p.busy@, p.slots@, p.inbox_tasks@, p.fixed_tasks@),
        forall|i: int|
            0 <= i < p.inbox_tasks.len() ==> !#[trigger] cognitive_overflow(
                rules_of(p.inbox_tasks@[i], request.settings, p.horizon, p.busy@, request.dependencies@, p.fixed_tasks@),
                p.slots@,
                p.slots.len() as int,
            ),
{
    assert forall|i: int| 0 <= i < p.slots.len() implies #[trigger] p.slots@[i].id == i by {
        assert(slot_within(p.horizon, p.slots@[i]) && p.slots@[i].id == i);
    }
    lemma_base_of(request, p.horizon, p.busy@, p.slots@, p.inbox_tasks@, p.fixed_tasks@);
    assert forall|i: int|
        0 <= i < p.inbox_tasks.len() implies !#[trigger] cognitive_overflow(
            rules_of(p.inbox_tasks@[i], request.settings, p.horizon, p.busy@, request.dependencies@, p.fixed_tasks@),
            p.slots@,
            p.slots.len() as int,
        ) by {
        assert(p.candidates@[i]@ == candidates_upto(task_rules(request, p, i), p.slots@, p.slots.len() as int));
    }
}

/// Preparing a request depends on the request alone, with its supplied
/// `now`: any two problems prepared from it agree in every field.
pub proof fn law_prepared_is_unique(request: Request, p1: PreparedProblem, p2: PreparedProblem)
    requires
        prepared(request, p1),
        prepared(request, p2),
    ensures
        same_preparation(p1, p2),
{
    lemma_prepared_base(request, p1);
    lemma_prepared_base(request, p2);
    lemma_base_unique(
        request,
        p1.horizon,
        p1.busy@,
        p1.slots@,
        p1.inbox_tasks@,
        p1.fixed_tasks@,
        p2.horizon,
        p2.busy@,
        p2.slots@,
        p2.inbox_tasks@,
        p2.fixed_tasks@,
    );
    assert forall|i: int| 0 <= i < p1.candidates.len() implies #[trigger] p1.candidates@[i]@ == p2.candidates@[i]@ by {
        assert(task_rules(request, p1, i) == task_rules(request, p2, i));
        assert(p1.candidates@[i]@ == candidates_upto(task_rules(request, p1, i), p1.slots@, p1.slots.len() as int));
        assert(p2.candidates@[i]@ == candidates_upto(task_rules(request, p2, i), p2.slots@, p2.slots.len() as int));
    }
    assert forall|i: int|
        0 <= i < p1.busy_blockers.len() implies #[trigger] texts(p1.busy_blockers@[i]@) == texts(p2.busy_blockers@[i]@) by {
        assert(task_rules(request, p1, i) == task_rules(request, p2, i));
        assert(p1.candidates@[i]@ == candidates_upto(task_rules(request, p1, i), p1.slots@, p1.slots.len() as int));
        assert(p2.candidates@[i]@ == candidates_upto(task_rules(request, p2, i), p2.slots@, p2.slots.len() as int));
    }
}

/// Preparing a request is determined by the request and its supplied `now`:
/// two outcomes of preparing it either both succeed with problems that agree
/// in every field, or both fail with the same error.
pub proof fn law_prepare_is_deterministic(
    request: Request,
    r1: Result<PreparedProblem, AppError>,
    r2: Result<PreparedProblem, AppError>,
)
    requires
        plannable(request),
        outcome_as(request, r1),
        outcome_as(request, r2),
        r1 matches Ok(p) ==> prepared(request, p),
        r2 matches Ok(p) ==> prepared(request, p),
    ensures
        match (r1, r2) {
            (Ok(p1), Ok(p2)) => same_preparation(p1, p2),
            (Err(e1), Err(e2)) => same_error(e1, e2),
            _ => false,
        },
{
    match (r1, r2) {
        (Ok(p1), Ok(p2)) => {
            law_prepared_is_unique(request, p1, p2);
        },
        (Err(e), Ok(p)) => {
            lemma_ok_excludes_overflow(request, p);
        },
        (Ok(p), Err(e)) => {
            lemma_ok_excludes_overflow(request, p);
        },
        (Err(e1), Err(e2)) => {},
    }
}

/// A request that prepares successfully has no base with an overflowing
/// cognitive penalty.
proof fn lemma_ok_excludes_overflow(request: Request, p: PreparedProblem)
    requires
        prepared(request, p),
    ensures
        !exists|
            horizon: PlanningHorizon,
            busy: Seq<BusyInterval>,
            slots: Seq<Slot>,
            inbox: Seq<Task>,
            fixed: Seq<SolverFixedTask>,
        |
            #[trigger] base_of(request, horizon, busy, slots, inbox, fixed) && overflow_in(
                request,
                horizon,
                busy,
                slots,
                inbox,
                fixed,
            ),
{
    lemma_prepared_base(request, p);
    if exists|
        horizon: PlanningHorizon,
        busy: Seq<BusyInterval>,
        slots: Seq<Slot>,
        inbox: Seq<Task>,
        fixed: Seq<SolverFixedTask>,
    |
        #[trigger] base_of(request, horizon, busy, slots, inbox, fixed) && overflow_in(
            request,
            horizon,
            busy,
            slots,
            inbox,
            fixed,
        ) {
        let (h, b, s, t, f) = choose|
            horizon: PlanningHorizon,
            busy: Seq<BusyInterval>,
            slots: Seq<Slot>,
            inbox: Seq<Task>,
            fixed: Seq<SolverFixedTask>,
        |
            #[trigger] base_of(request, horizon, busy, slots, inbox, fixed) && overflow_in(
                request,
                horizon,
                busy,
                slots,
                inbox,
                fixed,
            );
        lemma_base_unique(request, h, b, s, t, f, p.horizon, p.busy@, p.slots@, p.inbox_tasks@, p.fixed_tasks@);
        let i = choose|i: int|
            0 <= i < t.len() && #[trigger] cognitive_overflow(
                rules_of(t[i], request.settings, h, b, request.dependencies@, f),
                s,
                s.len() as int,
            );
        assert(rules_of(t[i], request.settings, h, b, request.dependencies@, f) == rules_of(
            t[i],
            request.settings,
            p.horizon,
            p.busy@,
            request.dependencies@,
            p.fixed_tasks@,
        ));
        assert(!cognitive_overflow(
            rules_of(p.inbox_tasks@[i], request.settings, p.horizon, p.busy@, request.dependencies@, p.fixed_tasks@),
            p.slots@,
            p.slots.len() as int,
        ));
    }
}


proof fn lemma_fixed_end_found(fixed: Seq<SolverFixedTask>, id: Seq<char>, n: int, j: int)
    requires
        0 <= j < n <= fixed.len(),
        fixed[j].id@ == id,
        forall|a: int, b: int| 0 <= a < b < fixed.len() ==> #[trigger] fixed[a].id@ != #[trigger] fixed[b].id@,
    ensures
        fixed_end_of(fixed, id, n) == Some(fixed[j].end_minute),
    decreases n,
{
    if n - 1 != j {
        assert(fixed[j].id@ != fixed[n - 1].id@);
        lemma_fixed_end_found(fixed, id, n - 1, j);
    }
}

proof fn lemma_predecessor_end_at_least(deps: Seq<Dependency>, fixed: Seq<SolverFixedTask>, id: Seq<char>, n: int, k: int, v: i64)
    requires
        0 <= k < n <= deps.len(),
        deps[k].to_task_id@ == id,
        fixed_end_of(fixed, deps[k].from_task_id@, fixed.len() as int) == Some(v),
    ensures
        predecessor_end(deps, fixed, id, n) matches Some(w) && w >= v,
    decreases n,
{
    if n - 1 != k {
        lemma_predecessor_end_at_least(deps, fixed, id, n - 1, k, v);
    }
}

/// A task waits for its applied predecessors: when a dependency leads into
/// the task from an applied task, every candidate slot of the task starts at
/// or after the minute that applied task ends.
pub proof fn law_candidates_follow_applied_predecessors(
    task: Task,
    settings: Settings,
    horizon: PlanningHorizon,
    busy: Seq<BusyInterval>,
    deps: Seq<Dependency>,
    fixed: Seq<SolverFixedTask>,
    slots: Seq<Slot>,
    c: int,
    k: int,
    j: int,
)
    requires
        0 <= c < candidates_upto(rules_of(task, settings, horizon, busy, deps, fixed), slots, slots.len() as int).len(),
        0 <= k < deps.len(),
        deps[k].to_task_id@ == task.id@,
        0 <= j < fixed.len(),
        fixed[j].id@ == deps[k].from_task_id@,
        forall|a: int, b: int| 0 <= a < b < fixed.len() ==> #[trigger] fixed[a].id@ != #[trigger] fixed[b].id@,
    ensures
        candidates_upto(rules_of(task, settings, horizon, busy, deps, fixed), slots, slots.len() as int)[c].slot.start.seconds
            / 60 >= fixed[j].end_minute,
{
    let r = rules_of(task, settings, horizon, busy, deps, fixed);
    law_candidates_are_open(r, slots, slots.len() as int, c);
    lemma_fixed_end_found(fixed, deps[k].from_task_id@, fixed.len() as int, j);
    lemma_predecessor_end_at_least(deps, fixed, task.id@, deps.len() as int, k, fixed[j].end_minute);
}

proof fn lemma_no_overlapping_ids(busy: Seq<BusyInterval>, start: Moment, end: Moment, n: int)
    requires
        0 <= n <= busy.len(),
        overlapping_ids(busy, start, end, n).len() == 0,
    ensures
        forall|b: int| 0 <= b < n ==> !(#[trigger] busy[b]).overlaps_spec(start, end),
    decreases n,
{
    if n > 0 {
        let prev = overlapping_ids(busy, start, end, n - 1);
        if busy[n - 1].overlaps_spec(start, end) {
            assert(overlapping_ids(busy, start, end, n).len() == prev.len() + 1);
        }
        lemma_no_overlapping_ids(busy, start, end, n - 1);
    }
}

/// Every candidate slot of a task meets each hard rule: it starts no earlier
/// than now and no earlier than the task's earliest start, the task ends
/// within the horizon and by a hard deadline, no busy interval overlaps it,
/// and every minute of it is available.
pub proof fn law_candidate_meets_every_hard_rule(
    task: Task,
    settings: Settings,
    horizon: PlanningHorizon,
    busy: Seq<BusyInterval>,
    deps: Seq<Dependency>,
    fixed: Seq<SolverFixedTask>,
    slots: Seq<Slot>,
    c: int,
    m: int,
)
    requires
        0 <= c < candidates_upto(rules_of(task, settings, horizon, busy, deps, fixed), slots, slots.len() as int).len(),
        horizon.timezone@ == settings.timezone@,
    ensures
        ({
            let slot = candidates_upto(rules_of(task, settings, horizon, busy, deps, fixed), slots, slots.len() as int)[c].slot;
            let end = crate::time::shifted(horizon.timezone@, slot.start, task.duration_minutes as int);
            &&& !before(slot.start, horizon.now)
            &&& !before(horizon.end, end)
            &&& (optional_moment(task.earliest_at) matches Some(e) ==> !before(slot.start, e))
            &&& (task.deadline_kind == DeadlineKind::Hard ==> (optional_moment(task.deadline_at) matches Some(d) ==> !before(d, end)))
            &&& forall|b: int| 0 <= b < busy.len() ==> !(#[trigger] busy[b]).overlaps_spec(slot.start, end)
            &&& (0 <= m && slot.start.seconds + 60 * m < end.seconds ==> crate::time::available_at(
                settings,
                crate::time::shifted(settings.timezone@, slot.start, m),
            ))
        }),
{
    let r = rules_of(task, settings, horizon, busy, deps, fixed);
    law_candidates_are_open(r, slots, slots.len() as int, c);
    let slot = candidates_upto(r, slots, slots.len() as int)[c].slot;
    let end = slot_end(r, slot);
    lemma_no_overlapping_ids(busy, slot.start, end, busy.len() as int);
    if 0 <= m && slot.start.seconds + 60 * m < end.seconds {
        crate::time::law_fitting_span_is_available_throughout(settings, slot.start, end, m);
    }
}

/// An applied task without high cognitive load never adds to a task's
/// fatigue penalty.
pub proof fn law_low_load_applied_task_adds_no_fatigue(
    task: Task,
    start: int,
    entries: Seq<Assignment>,
    fixed: Seq<SolverFixedTask>,
    f: SolverFixedTask,
    recovery: int,
    penalty: int,
)
    requires
        !f.high_cognitive_load,
    ensures
        fatigue_total(task, start, entries, fixed.push(f), recovery, penalty) == fatigue_total(
            task,
            start,
            entries,
            fixed,
            recovery,
            penalty,
        ),
{
    let end = start + task.duration_minutes;
    assert(fixed.push(f).drop_last() == fixed);
    assert(close_fixed(fixed.push(f), start, end, recovery, fixed.len() + 1int) == close_fixed(fixed, start, end, recovery, fixed.len() as int)) by {
        lemma_close_fixed_prefix(fixed, f, start, end, recovery, fixed.len() as int);
    }
}

proof fn lemma_close_fixed_prefix(fixed: Seq<SolverFixedTask>, f: SolverFixedTask, start: int, end: int, recovery: int, n: int)
    requires
        0 <= n <= fixed.len(),
    ensures
        close_fixed(fixed.push(f), start, end, recovery, n) == close_fixed(fixed, start, end, recovery, n),
    decreases n,
{
    if n > 0 {
        lemma_close_fixed_prefix(fixed, f, start, end, recovery, n - 1);
        assert(fixed.push(f)[n - 1] == fixed[n - 1]);
    }
}

/// A high-load applied task closer than the recovery time to a scheduled
/// high-load task adds one penalty to its fatigue.
pub proof fn law_close_high_load_applied_task_adds_fatigue(
    task: Task,
    start: int,
    entries: Seq<Assignment>,
    fixed: Seq<SolverFixedTask>,
    f: SolverFixedTask,
    recovery: int,
    penalty: int,
)
    requires
        f.high_cognitive_load,
        task.cognitive_load == CognitiveLoad::High,
        ({
            let end = start + task.duration_minutes;
            let gap = if start >= f.start_minute {
                start - f.end_minute
            } else {
                f.start_minute - end
            };
            0 <= gap < recovery
        }),
    ensures
        fatigue_total(task, start, entries, fixed.push(f), recovery, penalty) == fatigue_total(
            task,
            start,
            entries,
            fixed,
            recovery,
            penalty,
        ) + penalty,
{
    let end = start + task.duration_minutes;
    lemma_close_fixed_prefix(fixed, f, start, end, recovery, fixed.len() as int);
    let a = close_spans(entries, task.id@, start, end, recovery, entries.len() as int);
    let b = close_fixed(fixed, start, end, recovery, fixed.len() as int);
    assert(close_fixed(fixed.push(f), start, end, recovery, fixed.len() + 1int) == b + 1);
    assert((a + b + 1) * penalty == (a + b) * penalty + penalty) by (nonlinear_arith);
}

/// A task that is not high-load carries no fatigue penalty.
pub proof fn law_only_high_load_tasks_carry_fatigue(
    task: Task,
    start: int,
    entries: Seq<Assignment>,
    fixed: Seq<SolverFixedTask>,
    recovery: int,
    penalty: int,
)
    requires
        task.cognitive_load != CognitiveLoad::High,
    ensures
        fatigue_total(task, start, entries, fixed, recovery, penalty) == 0,
{
}


/// Each proposal item reports its own inbox task, and its outcome says why:
/// a scheduled item has times and the outcome `Scheduled`; an unscheduled
/// one has no times and no penalties, with the outcome `NoHardFeasibleSlot`
/// exactly when the task has no candidate slot, and `FeasibleButNotSelected`
/// when it has one that the plan did not pick.
pub proof fn law_items_explain_their_outcome(
    request: Request,
    problem: PreparedProblem,
    plan: SolverPlan,
    id: Seq<char>,
    p: Proposal,
    k: int,
)
    requires
        prepared(request, problem),
        distinct_ids(problem.inbox_tasks@),
        proposal_spec(request, problem, plan, id, p),
        0 <= k < p.items.len(),
    ensures
        p.items@[k].task_id@ == problem.inbox_tasks@[k].id@,
        p.items@[k].scheduled ==> p.items@[k].start_at is Some && p.items@[k].end_at is Some
            && p.items@[k].diagnostics.outcome == DiagnosticOutcome::Scheduled,
        !p.items@[k].scheduled ==> p.items@[k].start_at is None && p.items@[k].end_at is None
            && p.items@[k].cognitive_penalty == 0 && p.items@[k].fatigue_penalty == 0,
        !p.items@[k].scheduled && problem.candidates@[k].len() == 0 ==> p.items@[k].diagnostics.outcome
            == DiagnosticOutcome::NoHardFeasibleSlot,
        !p.items@[k].scheduled && problem.candidates@[k].len() > 0 ==> p.items@[k].diagnostics.outcome
            == DiagnosticOutcome::FeasibleButNotSelected,
        p.items@[k].diagnostics.outcome == DiagnosticOutcome::NoHardFeasibleSlot ==> problem.candidates@[k].len() == 0,
{
    let entries = assignments_upto(problem, plan.tasks@, plan.tasks.len() as int);
    assert(item_spec(request, problem, plan, entries, k, p.items@[k]));
    lemma_inbox_index_distinct(problem.inbox_tasks@, k, problem.inbox_tasks.len() as int);
    assert(id_slot(problem, k) == k);
}


proof fn lemma_outside_all_or_none(tz: Seq<char>, start: Moment, from: int, to: int, n: nat)
    ensures
        (forall|k: int| 0 <= k < n ==> from <= #[trigger] minute_of_day(crate::time::shifted(tz, start, k)) < to)
            ==> outside_minutes(tz, start, from, to, n) == 0,
        (forall|k: int| 0 <= k < n ==> !(from <= #[trigger] minute_of_day(crate::time::shifted(tz, start, k)) < to))
            ==> outside_minutes(tz, start, from, to, n) == n,
    decreases n,
{
    if n > 0 {
        lemma_outside_all_or_none(tz, start, from, to, (n - 1) as nat);
    }
}

/// The cognitive penalty charges the load's penalty once per minute of the
/// task outside the load's window: nothing when the penalty is off, nothing
/// when every minute falls in the window, and the penalty times the
/// duration when every minute falls outside it.
pub proof fn law_cognitive_penalty_counts_minutes_outside_the_window(settings: Settings, task: Task, start: Moment)
    ensures
        !settings.cognitive_enabled ==> cognitive_total(settings, task, start) == 0,
        ({
            let (ws, we, penalty) = window_of(settings, task.cognitive_load);
            let tz = settings.timezone@;
            settings.cognitive_enabled && crate::validation::clock_reading(ws) is Ok
                && crate::validation::clock_reading(we) is Ok ==> {
                let a = crate::validation::clock_reading(ws)->Ok_0 as int;
                let b = crate::validation::clock_reading(we)->Ok_0 as int;
                &&& (forall|k: int|
                    0 <= k < task.duration_minutes ==> a <= #[trigger] minute_of_day(crate::time::shifted(tz, start, k)) < b)
                    ==> cognitive_total(settings, task, start) == 0
                &&& (a != b && forall|k: int|
                    0 <= k < task.duration_minutes ==> !(a <= #[trigger] minute_of_day(crate::time::shifted(tz, start, k)) < b))
                    ==> cognitive_total(settings, task, start) == task.duration_minutes * penalty
            }
        }),
{
    let (ws, we, penalty) = window_of(settings, task.cognitive_load);
    if settings.cognitive_enabled && crate::validation::clock_reading(ws) is Ok && crate::validation::clock_reading(we) is Ok {
        let a = crate::validation::clock_reading(ws)->Ok_0 as int;
        let b = crate::validation::clock_reading(we)->Ok_0 as int;
        lemma_outside_all_or_none(settings.timezone@, start, a, b, task.duration_minutes as nat);
    }
}


/// Only a soft deadline costs lateness, and lateness is never negative.
pub proof fn law_only_soft_deadlines_cost_lateness(kind: DeadlineKind, deadline: Option<Moment>, end: Moment)
    ensures
        lateness(kind, deadline, end) >= 0,
        kind != DeadlineKind::Soft || deadline is None ==> lateness(kind, deadline, end) == 0,
{
}


proof fn lemma_overlapping_ids_exact(busy: Seq<BusyInterval>, start: Moment, end: Moment, n: int)
    requires
        0 <= n <= busy.len(),
    ensures
        forall|id: Seq<char>|
            overlapping_ids(busy, start, end, n).contains(id) <==> exists|x: int|
                0 <= x < n && (#[trigger] busy[x]).overlaps_spec(start, end) && busy[x].event_id@ == id,
    decreases n,
{
    if n > 0 {
        lemma_overlapping_ids_exact(busy, start, end, n - 1);
        let prev = overlapping_ids(busy, start, end, n - 1);
        let cur = overlapping_ids(busy, start, end, n);
        assert forall|id: Seq<char>|
            cur.contains(id) <==> exists|x: int|
                0 <= x < n && (#[trigger] busy[x]).overlaps_spec(start, end) && busy[x].event_id@ == id by {
            if cur.contains(id) {
                let i = choose|i: int| 0 <= i < cur.len() && cur[i] == id;
                if busy[n - 1].overlaps_spec(start, end) && i == prev.len() {
                    assert(busy[n - 1].event_id@ == id);
                } else {
                    assert(prev[i] == id);
                    assert(prev.contains(id));
                }
            }
            if exists|x: int| 0 <= x < n && (#[trigger] busy[x]).overlaps_spec(start, end) && busy[x].event_id@ == id {
                let x = choose|x: int| 0 <= x < n && (#[trigger] busy[x]).overlaps_spec(start, end) && busy[x].event_id@ == id;
                if x < n - 1 {
                    assert(prev.contains(id));
                    let i = choose|i: int| 0 <= i < prev.len() && prev[i] == id;
                    if busy[n - 1].overlaps_spec(start, end) {
                        assert(cur[i] == id);
                    }
                } else {
                    assert(cur[cur.len() - 1] == id);
                }
            }
        }
    }
}

proof fn lemma_add_new_exact(list: Seq<Seq<char>>, ids: Seq<Seq<char>>, n: int)
    requires
        0 <= n <= ids.len(),
        list.no_duplicates(),
    ensures
        add_new(list, ids, n).no_duplicates(),
        forall|id: Seq<char>|
            add_new(list, ids, n).contains(id) <==> (list.contains(id) || exists|i: int|
                0 <= i < n && #[trigger] ids[i] == id),
    decreases n,
{
    if n > 0 {
        lemma_add_new_exact(list, ids, n - 1);
        let prev = add_new(list, ids, n - 1);
        let cur = add_new(list, ids, n);
        if !prev.contains(ids[n - 1]) {
            assert forall|a: int, b: int| 0 <= a < cur.len() && 0 <= b < cur.len() && a != b implies cur[a] != cur[b] by {
                if a == prev.len() {
                    assert(cur[b] == prev[b]);
                    assert(prev.contains(prev[b]));
                } else if b == prev.len() {
                    assert(prev[a] == cur[a]);
                    assert(prev.contains(prev[a]));
                } else {
                    assert(prev[a] == cur[a] && prev[b] == cur[b]);
                }
            }
        }
        assert forall|id: Seq<char>|
            cur.contains(id) <==> (list.contains(id) || exists|i: int| 0 <= i < n && #[trigger] ids[i] == id) by {
            let pushed = !prev.contains(ids[n - 1]);
            if cur.contains(id) {
                let k = choose|k: int| 0 <= k < cur.len() && cur[k] == id;
                if pushed && k == prev.len() {
                    assert(ids[n - 1] == id);
                } else {
                    assert(prev[k] == id);
                    assert(prev.contains(id));
                }
            }
            if prev.contains(id) {
                let k = choose|k: int| 0 <= k < prev.len() && prev[k] == id;
                assert(cur[k] == id);
            }
            if list.contains(id) {
                assert(prev.contains(id));
            }
            if exists|i: int| 0 <= i < n && #[trigger] ids[i] == id {
                let i = choose|i: int| 0 <= i < n && #[trigger] ids[i] == id;
                if i < n - 1 {
                    assert(ids[i] == id);
                    assert(prev.contains(id));
                } else if pushed {
                    assert(cur[cur.len() - 1] == id);
                } else {
                    assert(prev.contains(id));
                }
            }
        }
    }
}

/// The busy blockers of a task are exactly the events of busy intervals
/// that overlap the task at a slot that passes the other hard rules, each
/// named once.
pub proof fn law_blockers_are_the_busy_events_met(r: CandidateRules, slots: Seq<Slot>, n: int)
    requires
        0 <= n <= slots.len(),
    ensures
        blockers_upto(r, slots, n).no_duplicates(),
        forall|id: Seq<char>|
            blockers_upto(r, slots, n).contains(id) <==> exists|q: int, x: int|
                0 <= q < n && 0 <= x < r.busy.len() && slot_allowed(r, #[trigger] slots[q])
                    && (#[trigger] r.busy[x]).overlaps_spec(slots[q].start, slot_end(r, slots[q]))
                    && r.busy[x].event_id@ == id,
    decreases n,
{
    if n > 0 {
        law_blockers_are_the_busy_events_met(r, slots, n - 1);
        let prev = blockers_upto(r, slots, n - 1);
        let cur = blockers_upto(r, slots, n);
        let slot = slots[n - 1];
        if slot_allowed(r, slot) {
            let ids = slot_blockers(r, slot);
            lemma_overlapping_ids_exact(r.busy, slot.start, slot_end(r, slot), r.busy.len() as int);
            lemma_add_new_exact(prev, ids, ids.len() as int);
        }
        assert forall|id: Seq<char>|
            cur.contains(id) <==> exists|q: int, x: int|
                0 <= q < n && 0 <= x < r.busy.len() && slot_allowed(r, #[trigger] slots[q])
                    && (#[trigger] r.busy[x]).overlaps_spec(slots[q].start, slot_end(r, slots[q]))
                    && r.busy[x].event_id@ == id by {
            if prev.contains(id) {
                let (q, x) = choose|q: int, x: int|
                    0 <= q < n - 1 && 0 <= x < r.busy.len() && slot_allowed(r, #[trigger] slots[q])
                        && (#[trigger] r.busy[x]).overlaps_spec(slots[q].start, slot_end(r, slots[q]))
                        && r.busy[x].event_id@ == id;
                assert(0 <= q < n && slot_allowed(r, slots[q]) && r.busy[x].overlaps_spec(slots[q].start, slot_end(r, slots[q])));
            }
            if slot_allowed(r, slot) {
                let ids = slot_blockers(r, slot);
                if cur.contains(id) && !prev.contains(id) {
                    let i = choose|i: int| 0 <= i < ids.len() && #[trigger] ids[i] == id;
                    assert(ids.contains(id));
                    let x = choose|x: int|
                        0 <= x < r.busy.len() && (#[trigger] r.busy[x]).overlaps_spec(slot.start, slot_end(r, slot))
                            && r.busy[x].event_id@ == id;
                    assert(slot_allowed(r, slots[n - 1]));
                }
                if exists|q: int, x: int|
                    0 <= q < n && 0 <= x < r.busy.len() && slot_allowed(r, #[trigger] slots[q])
                        && (#[trigger] r.busy[x]).overlaps_spec(slots[q].start, slot_end(r, slots[q]))
                        && r.busy[x].event_id@ == id {
                    let (q, x) = choose|q: int, x: int|
                        0 <= q < n && 0 <= x < r.busy.len() && slot_allowed(r, #[trigger] slots[q])
                            && (#[trigger] r.busy[x]).overlaps_spec(slots[q].start, slot_end(r, slots[q]))
                            && r.busy[x].event_id@ == id;
                    if q == n - 1 {
                        assert(ids.contains(id));
                        let i = choose|i: int| 0 <= i < ids.len() && ids[i] == id;
                        assert(ids[i] == id);
                    } else {
                        assert(prev.contains(id));
                    }
                }
            } else {
                if exists|q: int, x: int|
                    0 <= q < n && 0 <= x < r.busy.len() && slot_allowed(r, #[trigger] slots[q])
                        && (#[trigger] r.busy[x]).overlaps_spec(slots[q].start, slot_end(r, slots[q]))
                        && r.busy[x].event_id@ == id {
                    let (q, x) = choose|q: int, x: int|
                        0 <= q < n && 0 <= x < r.busy.len() && slot_allowed(r, #[trigger] slots[q])
                            && (#[trigger] r.busy[x]).overlaps_spec(slots[q].start, slot_end(r, slots[q]))
                            && r.busy[x].event_id@ == id;
                    assert(q != n - 1);
                    assert(prev.contains(id));
                }
            }
        }
    }
}


proof fn lemma_candidate_slot_ids(r: CandidateRules, slots: Seq<Slot>, n: int)
    requires
        0 <= n <= slots.len(),
        forall|q: int| 0 <= q < slots.len() ==> #[trigger] slots[q].id == q,
    ensures
        forall|id: usize|
            #![trigger slot_ids(candidates_upto(r, slots, n)).contains(id)]
            #![trigger slots[id as int]]
            slot_ids(candidates_upto(r, slots, n)).contains(id) <==> (id < n && slot_open(r, slots[id as int])),
    decreases n,
{
    if n > 0 {
        lemma_candidate_slot_ids(r, slots, n - 1);
        let prev = candidates_upto(r, slots, n - 1);
        let cur = candidates_upto(r, slots, n);
        let open = slot_open(r, slots[n - 1]);
        assert(slots[n - 1].id == n - 1);
        assert(slot_ids(prev).len() == prev.len());
        assert(slot_ids(cur).len() == cur.len());
        assert forall|k: int| 0 <= k < prev.len() implies #[trigger] slot_ids(cur)[k] == slot_ids(prev)[k] by {
            assert(cur[k] == prev[k]);
        }
        if open {
            assert(slot_ids(cur)[prev.len() as int] == slots[n - 1].id);
        } else {
            assert(cur == prev);
        }
        assert forall|id: usize| #[trigger] slot_ids(cur).contains(id) implies id < n && slot_open(r, slots[id as int]) by {
            let k = choose|k: int| 0 <= k < slot_ids(cur).len() && slot_ids(cur)[k] == id;
            if k < prev.len() {
                assert(slot_ids(prev)[k] == id);
                assert(slot_ids(prev).contains(id));
                assert(id < n - 1 && slot_open(r, slots[id as int]));
            } else {
                assert(open);
                assert(id as int == n - 1);
            }
        }
        assert forall|id: usize| id < n && slot_open(r, #[trigger] slots[id as int]) implies slot_ids(cur).contains(id) by {
            if id < n - 1 {
                assert(slot_ids(prev).contains(id));
                let k = choose|k: int| 0 <= k < slot_ids(prev).len() && slot_ids(prev)[k] == id;
                assert(slot_ids(cur)[k] == id);
            } else {
                assert(id as int == n - 1);
                assert(open);
                assert(slot_ids(cur)[prev.len() as int] == id);
            }
        }
        assert forall|id: usize|
            #![trigger slot_ids(cur).contains(id)]
            #![trigger slots[id as int]]
            slot_ids(cur).contains(id) <==> (id < n && slot_open(r, slots[id as int])) by {
            if slot_ids(cur).contains(id) {
                assert(id < n && slot_open(r, slots[id as int]));
            }
            if id < n && slot_open(r, slots[id as int]) {
                assert(slot_ids(cur).contains(id));
            }
        }
    }
}

/// The plan hands the solver one task per inbox task, in inbox order, with
/// the task's id and duration, and offers it as feasible exactly the slots
/// where the task meets every hard rule.
pub proof fn law_plan_offers_each_task_its_open_slots(
    request: Request,
    problem: PreparedProblem,
    plan: SolverPlan,
    i: int,
    id: usize,
)
    requires
        prepared(request, problem),
        planned(request, problem, plan),
        0 <= i < plan.tasks.len(),
    ensures
        plan.tasks@[i].id@ == problem.inbox_tasks@[i].id@,
        plan.tasks@[i].duration_minutes == problem.inbox_tasks@[i].duration_minutes,
        plan.tasks@[i].slot_id is None,
        plan.tasks@[i].feasible_slot_ids@.contains(id) <==> (id < problem.slots.len() && slot_open(
            task_rules(request, problem, i),
            problem.slots@[id as int],
        )),
{
    assert(plans_task(
        request.settings,
        request.dependencies@,
        problem.inbox_tasks@[i],
        problem.candidates@[i]@,
        depth_upto(request.dependencies@, problem.inbox_tasks@[i].id@, (request.dependencies.len() + 1) as nat) as i64,
        plan.tasks@[i],
    ));
    assert forall|q: int| 0 <= q < problem.slots.len() implies #[trigger] problem.slots@[q].id == q by {
        assert(slot_within(problem.horizon, problem.slots@[q]) && problem.slots@[q].id == q);
    }
    lemma_candidate_slot_ids(task_rules(request, problem, i), problem.slots@, problem.slots.len() as int);
    assert(problem.candidates@[i]@ == candidates_upto(task_rules(request, problem, i), problem.slots@, problem.slots.len() as int));
}

} // verus!

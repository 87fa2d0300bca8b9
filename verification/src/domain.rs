use vstd::prelude::*;

use crate::model::Score;
use crate::text::{chars_of, less_text, text_lt};

verus! {

/// A start slot of the horizon, in minutes since the epoch.
#[derive(Clone, Copy, Debug, PartialEq, Eq, Structural)]
pub struct SolverSlot {
    pub id: usize,
    pub start_minute: i64,
    pub end_minute: i64,
}

/// A task already applied to the calendar, in minutes since the epoch.
#[derive(Debug)]
pub struct SolverFixedTask {
    pub id: String,
    pub start_minute: i64,
    pub end_minute: i64,
    pub high_cognitive_load: bool,
}

impl Clone for SolverFixedTask {
    fn clone(&self) -> (r: Self)
        ensures
            r == *self,
    {
        SolverFixedTask {
            id: self.id.clone(),
            start_minute: self.start_minute,
            end_minute: self.end_minute,
            high_cognitive_load: self.high_cognitive_load,
        }
    }
}

/// An inbox task as the solver sees it. The `_by_slot` lists pair each
/// feasible slot id, in the order of `feasible_slot_ids`, with a value.
#[derive(Clone, Debug)]
pub struct SolverTask {
    pub id: String,
    pub duration_minutes: i64,
    pub priority_weight: i64,
    pub deadline_lateness_by_slot: Vec<(usize, i64)>,
    pub cognitive_penalty_by_slot: Vec<(usize, i64)>,
    pub start_minute_by_slot: Vec<(usize, i64)>,
    pub recovery_minutes: i64,
    pub recovery_penalty: i64,
    pub high_cognitive_load: bool,
    pub predecessor_ids: Vec<String>,
    /// Dependency depth used by the solver's construction order: a lower
    /// depth is placed before its dependents.
    pub dependency_depth: i64,
    pub feasible_slot_ids: Vec<usize>,
    /// The slot the solver assigned, if any.
    pub slot_id: Option<usize>,
}

/// The planning problem and its solution.
#[derive(Clone, Debug)]
pub struct SolverPlan {
    pub slots: Vec<SolverSlot>,
    pub tasks: Vec<SolverTask>,
    pub fixed_tasks: Vec<SolverFixedTask>,
    pub score: Option<Score>,
    pub solve_seconds: u64,
}

/// The value paired with a slot id: the first pair with that key.
pub open spec fn lookup(pairs: Seq<(usize, i64)>, key: usize) -> Option<i64>
    decreases pairs.len(),
{
    if pairs.len() == 0 {
        None
    } else if pairs[0].0 == key {
        Some(pairs[0].1)
    } else {
        lookup(pairs.drop_first(), key)
    }
}

pub fn lookup_slot(pairs: &Vec<(usize, i64)>, key: usize) -> (r: Option<i64>)
    ensures
        r == lookup(pairs@, key),
{
    let mut i: usize = 0;
    assert(pairs@.skip(0) == pairs@);
    while i < pairs.len()
        invariant
            i <= pairs.len(),
            lookup(pairs@, key) == lookup(pairs@.skip(i as int), key),
        decreases pairs.len() - i,
    {
        assert(pairs@.skip(i as int).drop_first() == pairs@.skip(i + 1));
        if pairs[i].0 == key {
            return Some(pairs[i].1);
        }
        i += 1;
    }
    None
}

/// The start minute of the task's assigned slot, if it has one.
pub open spec fn start_of(task: SolverTask) -> Option<i64> {
    match task.slot_id {
        Some(slot) => lookup(task.start_minute_by_slot@, slot),
        None => None,
    }
}

pub fn start_minute(task: &SolverTask) -> (r: Option<i64>)
    ensures
        r == start_of(*task),
{
    match task.slot_id {
        Some(slot) => lookup_slot(&task.start_minute_by_slot, slot),
        None => None,
    }
}

/// Two tasks assigned to overlapping times.
pub open spec fn overlap_spec(left: SolverTask, right: SolverTask) -> bool {
    &&& left.id@ != right.id@
    &&& start_of(left) is Some
    &&& start_of(right) is Some
    &&& start_of(left)->Some_0 < start_of(right)->Some_0 + right.duration_minutes
    &&& start_of(right)->Some_0 < start_of(left)->Some_0 + left.duration_minutes
}

/// The "no task overlap" filter.
pub fn tasks_overlap(left: &SolverTask, right: &SolverTask) -> (r: bool)
    requires
        bounded_task(*left),
        bounded_task(*right),
    ensures
        r == overlap_spec(*left, *right),
{
    if left.id == right.id {
        return false;
    }
    proof {
        lemma_start_bounded(*left);
        lemma_start_bounded(*right);
    }
    match (start_minute(left), start_minute(right)) {
        (Some(ls), Some(rs)) => ls < rs + right.duration_minutes && rs < ls + left.duration_minutes,
        _ => false,
    }
}

/// Minutes and penalties small enough that sums of two cannot overflow.
pub open spec fn bounded_task(task: SolverTask) -> bool {
    &&& -0x2000_0000_0000_0000 <= task.duration_minutes <= 0x2000_0000_0000_0000
    &&& -0x2000_0000_0000_0000 <= task.recovery_minutes <= 0x2000_0000_0000_0000
    &&& forall|i: int|
        0 <= i < task.start_minute_by_slot.len() ==> -0x2000_0000_0000_0000
            <= #[trigger] task.start_minute_by_slot@[i].1 <= 0x2000_0000_0000_0000
}

pub open spec fn bounded_fixed(fixed: SolverFixedTask) -> bool {
    &&& -0x2000_0000_0000_0000 <= fixed.start_minute <= 0x2000_0000_0000_0000
    &&& -0x2000_0000_0000_0000 <= fixed.end_minute <= 0x2000_0000_0000_0000
}

proof fn lemma_lookup_bounded(pairs: Seq<(usize, i64)>, key: usize)
    requires
        forall|i: int|
            0 <= i < pairs.len() ==> -0x2000_0000_0000_0000 <= #[trigger] pairs[i].1 <= 0x2000_0000_0000_0000,
    ensures
        lookup(pairs, key) matches Some(v) ==> -0x2000_0000_0000_0000 <= v <= 0x2000_0000_0000_0000,
    decreases pairs.len(),
{
    if pairs.len() > 0 && pairs[0].0 != key {
        assert forall|i: int| 0 <= i < pairs.drop_first().len() implies -0x2000_0000_0000_0000
            <= #[trigger] pairs.drop_first()[i].1 <= 0x2000_0000_0000_0000 by {
            assert(pairs.drop_first()[i] == pairs[i + 1]);
        }
        lemma_lookup_bounded(pairs.drop_first(), key);
    }
}

pub proof fn lemma_start_bounded(task: SolverTask)
    requires
        bounded_task(task),
    ensures
        start_of(task) matches Some(v) ==> -0x2000_0000_0000_0000 <= v <= 0x2000_0000_0000_0000,
{
    if task.slot_id is Some {
        lemma_lookup_bounded(task.start_minute_by_slot@, task.slot_id->Some_0);
    }
}

/// The text is one of the listed ids.
pub open spec fn lists_id(ids: Seq<String>, id: Seq<char>) -> bool {
    exists|i: int| 0 <= i < ids.len() && ids[i]@ == id
}

fn contains_id(ids: &Vec<String>, id: &String) -> (r: bool)
    ensures
        r == lists_id(ids@, id@),
{
    let mut i: usize = 0;
    while i < ids.len()
        invariant
            i <= ids.len(),
            forall|j: int| 0 <= j < i ==> ids@[j]@ != id@,
        decreases ids.len() - i,
    {
        if ids[i] == *id {
            return true;
        }
        i += 1;
    }
    false
}

/// `left` depends on `right` and starts before `right` ends, or `right`
/// has no time while `left` has one.
pub open spec fn dependency_spec(left: SolverTask, right: SolverTask) -> bool {
    &&& left.id@ != right.id@
    &&& lists_id(left.predecessor_ids@, right.id@)
    &&& match (start_of(left), start_of(right)) {
        (Some(ls), Some(rs)) => ls < rs + right.duration_minutes,
        (Some(_), None) => true,
        _ => false,
    }
}

/// The "task dependencies" filter.
pub fn dependency_violated(left: &SolverTask, right: &SolverTask) -> (r: bool)
    requires
        bounded_task(*left),
        bounded_task(*right),
    ensures
        r == dependency_spec(*left, *right),
{
    if left.id == right.id || !contains_id(&left.predecessor_ids, &right.id) {
        return false;
    }
    proof {
        lemma_start_bounded(*right);
    }
    match (start_minute(left), start_minute(right)) {
        (Some(ls), Some(rs)) => ls < rs + right.duration_minutes,
        (Some(_), None) => true,
        _ => false,
    }
}

/// The minutes between two spans, counted from the end of the earlier
/// (negative when they overlap).
pub open spec fn gap_between(a_start: int, a_end: int, b_start: int, b_end: int) -> int {
    if a_start >= b_start {
        a_start - b_end
    } else {
        b_start - a_end
    }
}

/// Two high-load tasks, the first with the smaller id, closer together than
/// the first one's recovery time.
pub open spec fn recovery_spec(left: SolverTask, right: SolverTask) -> bool {
    &&& text_lt(left.id@, right.id@)
    &&& left.high_cognitive_load
    &&& right.high_cognitive_load
    &&& start_of(left) is Some
    &&& start_of(right) is Some
    &&& {
        let ls = start_of(left)->Some_0 as int;
        let rs = start_of(right)->Some_0 as int;
        let gap = gap_between(ls, ls + left.duration_minutes, rs, rs + right.duration_minutes);
        0 <= gap < left.recovery_minutes
    }
}

/// The "high cognitive-load recovery" filter.
pub fn recovery_conflict(left: &SolverTask, right: &SolverTask) -> (r: bool)
    requires
        bounded_task(*left),
        bounded_task(*right),
    ensures
        r == recovery_spec(*left, *right),
{
    let lc = chars_of(left.id.as_str());
    let rc = chars_of(right.id.as_str());
    if !less_text(&lc, &rc) || !left.high_cognitive_load || !right.high_cognitive_load {
        return false;
    }
    proof {
        lemma_start_bounded(*left);
        lemma_start_bounded(*right);
    }
    match (start_minute(left), start_minute(right)) {
        (Some(ls), Some(rs)) => {
            let gap = if ls >= rs {
                ls - (rs + right.duration_minutes)
            } else {
                rs - (ls + left.duration_minutes)
            };
            gap >= 0 && gap < left.recovery_minutes
        },
        _ => false,
    }
}

/// A high-load task closer to a high-load applied task than its recovery
/// time.
pub open spec fn fixed_recovery_spec(task: SolverTask, fixed: SolverFixedTask) -> bool {
    &&& task.high_cognitive_load
    &&& fixed.high_cognitive_load
    &&& start_of(task) is Some
    &&& {
        let ts = start_of(task)->Some_0 as int;
        let gap = gap_between(ts, ts + task.duration_minutes, fixed.start_minute as int, fixed.end_minute as int);
        0 <= gap < task.recovery_minutes
    }
}

/// The "applied high cognitive-load recovery" filter.
pub fn fixed_recovery_conflict(task: &SolverTask, fixed: &SolverFixedTask) -> (r: bool)
    requires
        bounded_task(*task),
        bounded_fixed(*fixed),
    ensures
        r == fixed_recovery_spec(*task, *fixed),
{
    if !task.high_cognitive_load || !fixed.high_cognitive_load {
        return false;
    }
    proof {
        lemma_start_bounded(*task);
    }
    match start_minute(task) {
        Some(ts) => {
            let task_end = ts + task.duration_minutes;
            let gap = if ts >= fixed.start_minute {
                ts - fixed.end_minute
            } else {
                fixed.start_minute - task_end
            };
            gap >= 0 && gap < task.recovery_minutes
        },
        None => false,
    }
}

/// The task sits in a slot outside its feasible ones.
pub open spec fn infeasible_spec(task: SolverTask, slot: SolverSlot) -> bool {
    task.slot_id == Some(slot.id) && !task.feasible_slot_ids@.contains(slot.id)
}

/// The "only feasible slots" join and filter.
pub fn slot_infeasible(task: &SolverTask, slot: &SolverSlot) -> (r: bool)
    ensures
        r == infeasible_spec(*task, *slot),
{
    if task.slot_id != Some(slot.id) {
        return false;
    }
    let mut i: usize = 0;
    while i < task.feasible_slot_ids.len()
        invariant
            i <= task.feasible_slot_ids.len(),
            forall|j: int| 0 <= j < i ==> task.feasible_slot_ids@[j] != slot.id,
        decreases task.feasible_slot_ids.len() - i,
    {
        if task.feasible_slot_ids[i] == slot.id {
            assert(task.feasible_slot_ids@[i as int] == slot.id);
            return false;
        }
        i += 1;
    }
    true
}

/// The medium penalty of one task: its priority weight when unassigned,
/// else the deadline lateness of its slot.
pub open spec fn medium_term(task: SolverTask) -> int {
    match task.slot_id {
        None => task.priority_weight as int,
        Some(slot) => match lookup(task.deadline_lateness_by_slot@, slot) {
            Some(v) => v as int,
            None => 0,
        },
    }
}

/// The cognitive-timing penalty of an assigned task's slot.
pub open spec fn cognitive_term(task: SolverTask) -> int {
    match task.slot_id {
        None => 0,
        Some(slot) => match lookup(task.cognitive_penalty_by_slot@, slot) {
            Some(v) => v as int,
            None => 0,
        },
    }
}

/// Orders dependency roots before their dependents for the solver's
/// construction heuristic.
pub fn construction_entity_order(_plan: &SolverPlan, task: &SolverTask) -> (r: i64)
    requires
        task.dependency_depth > i64::MIN,
    ensures
        r == -task.dependency_depth,
{
    -task.dependency_depth
}

/// The slots the solver may give the task at `entity_index`: its feasible
/// slots, or none for an index past the tasks.
pub fn candidate_slots(plan: &SolverPlan, entity_index: usize, _variable_index: usize) -> (r: &[usize])
    ensures
        entity_index < plan.tasks.len() ==> r@ == plan.tasks@[entity_index as int].feasible_slot_ids@,
        entity_index >= plan.tasks.len() ==> r@.len() == 0,
{
    if entity_index < plan.tasks.len() {
        plan.tasks[entity_index].feasible_slot_ids.as_slice()
    } else {
        &[]
    }
}


/// The sum of `f` over the tasks.
pub open spec fn task_sum(tasks: Seq<SolverTask>, f: spec_fn(SolverTask) -> int) -> int
    decreases tasks.len(),
{
    if tasks.len() == 0 {
        0
    } else {
        task_sum(tasks.drop_last(), f) + f(tasks.last())
    }
}

/// The sum of `f(left, right)` over the tasks `left` of a list.
pub open spec fn row_sum(lefts: Seq<SolverTask>, right: SolverTask, f: spec_fn(SolverTask, SolverTask) -> int) -> int
    decreases lefts.len(),
{
    if lefts.len() == 0 {
        0
    } else {
        row_sum(lefts.drop_last(), right, f) + f(lefts.last(), right)
    }
}

/// The sum of `f(tasks[i], tasks[j])` over all pairs `i < j`, as a
/// self-join of the tasks enumerates them.
pub open spec fn pair_sum(tasks: Seq<SolverTask>, f: spec_fn(SolverTask, SolverTask) -> int) -> int
    decreases tasks.len(),
{
    if tasks.len() == 0 {
        0
    } else {
        pair_sum(tasks.drop_last(), f) + row_sum(tasks.drop_last(), tasks.last(), f)
    }
}

/// The sum of `g(task, fixed)` over the applied tasks.
pub open spec fn fixed_sum(task: SolverTask, fixed: Seq<SolverFixedTask>, g: spec_fn(SolverTask, SolverFixedTask) -> int) -> int
    decreases fixed.len(),
{
    if fixed.len() == 0 {
        0
    } else {
        fixed_sum(task, fixed.drop_last(), g) + g(task, fixed.last())
    }
}

/// The number of slots that the task occupies without being feasible there.
pub open spec fn slot_count(task: SolverTask, slots: Seq<SolverSlot>) -> int
    decreases slots.len(),
{
    if slots.len() == 0 {
        0
    } else {
        slot_count(task, slots.drop_last()) + if infeasible_spec(task, slots.last()) {
            1int
        } else {
            0int
        }
    }
}

pub open spec fn infeasible_term(slots: Seq<SolverSlot>) -> spec_fn(SolverTask) -> int {
    |t: SolverTask| slot_count(t, slots)
}

pub open spec fn medium_fn() -> spec_fn(SolverTask) -> int {
    |t: SolverTask| medium_term(t)
}

pub open spec fn cognitive_fn() -> spec_fn(SolverTask) -> int {
    |t: SolverTask| cognitive_term(t)
}

pub open spec fn applied_term(fixed: Seq<SolverFixedTask>) -> spec_fn(SolverTask) -> int {
    |t: SolverTask| fixed_sum(t, fixed, fixed_term())
}

pub open spec fn overlap_term() -> spec_fn(SolverTask, SolverTask) -> int {
    |l: SolverTask, r: SolverTask| if overlap_spec(l, r) { 1int } else { 0int }
}

pub open spec fn dependency_term() -> spec_fn(SolverTask, SolverTask) -> int {
    |l: SolverTask, r: SolverTask| if dependency_spec(l, r) { 1int } else { 0int }
}

pub open spec fn recovery_term() -> spec_fn(SolverTask, SolverTask) -> int {
    |l: SolverTask, r: SolverTask| if recovery_spec(l, r) { l.recovery_penalty as int } else { 0int }
}

pub open spec fn fixed_term() -> spec_fn(SolverTask, SolverFixedTask) -> int {
    |t: SolverTask, f: SolverFixedTask| if fixed_recovery_spec(t, f) { t.recovery_penalty as int } else { 0int }
}

/// The hard penalty of a plan: tasks in slots outside their feasible ones,
/// overlapping pairs, and pairs that break a dependency.
pub open spec fn hard_penalty(plan: SolverPlan) -> int {
    task_sum(plan.tasks@, infeasible_term(plan.slots@)) + pair_sum(plan.tasks@, overlap_term())
        + pair_sum(plan.tasks@, dependency_term())
}

/// The medium penalty: priority weights of unassigned tasks and deadline
/// lateness of assigned ones.
pub open spec fn medium_penalty(plan: SolverPlan) -> int {
    task_sum(plan.tasks@, medium_fn())
}

/// The soft penalty: cognitive timing, recovery between high-load tasks,
/// and recovery next to applied high-load tasks.
pub open spec fn soft_penalty(plan: SolverPlan) -> int {
    task_sum(plan.tasks@, cognitive_fn()) + pair_sum(plan.tasks@, recovery_term())
        + task_sum(plan.tasks@, applied_term(plan.fixed_tasks@))
}

/// The integer is one an `i64` holds.
pub open spec fn fits_i64(x: int) -> bool {
    i64::MIN <= x <= i64::MAX
}

/// Each penalty level, negated, fits in an `i64`.
pub open spec fn score_fits(plan: SolverPlan) -> bool {
    &&& fits_i64(-hard_penalty(plan))
    &&& fits_i64(-medium_penalty(plan))
    &&& fits_i64(-soft_penalty(plan))
}

/// A plan small enough to be scored without overflow along the way, with
/// bounded minutes.
pub open spec fn plan_sized(plan: SolverPlan) -> bool {
    &&& plan.tasks.len() <= 0x4000_0000
    &&& plan.slots.len() <= 0x4000_0000
    &&& plan.fixed_tasks.len() <= 0x4000_0000
    &&& forall|i: int| 0 <= i < plan.tasks.len() ==> bounded_task(#[trigger] plan.tasks@[i])
    &&& forall|i: int| 0 <= i < plan.fixed_tasks.len() ==> bounded_fixed(#[trigger] plan.fixed_tasks@[i])
}

const TERM: i128 = 0x8000_0000_0000_0000;

proof fn lemma_pair_step(tasks: Seq<SolverTask>, f: spec_fn(SolverTask, SolverTask) -> int, j: int, i: int)
    requires
        0 <= i < j < tasks.len(),
    ensures
        row_sum(tasks.take(i + 1), tasks[j], f) == row_sum(tasks.take(i), tasks[j], f) + f(tasks[i], tasks[j]),
{
    assert(tasks.take(i + 1).drop_last() == tasks.take(i));
}

/// Sums `f` over all pairs `i < j` of tasks; the exact sum.
fn pairs_total(
    tasks: &Vec<SolverTask>,
    kind: u8,
) -> (r: i128)
    requires
        tasks.len() <= 0x4000_0000,
        forall|i: int| 0 <= i < tasks.len() ==> bounded_task(#[trigger] tasks@[i]),
        kind < 3,
    ensures
        r == pair_sum(
            tasks@,
            if kind == 0 {
                overlap_term()
            } else if kind == 1 {
                dependency_term()
            } else {
                recovery_term()
            },
        ),
        -(tasks.len() * 0x4000_0000) * TERM <= r <= (tasks.len() * 0x4000_0000) * TERM,
{
    let ghost f = if kind == 0 {
        overlap_term()
    } else if kind == 1 {
        dependency_term()
    } else {
        recovery_term()
    };
    let mut acc: i128 = 0;
    let mut j: usize = 0;
    assert(tasks@.take(0) =~= Seq::<SolverTask>::empty());
    while j < tasks.len()
        invariant
            tasks.len() <= 0x4000_0000,
            forall|i: int| 0 <= i < tasks.len() ==> bounded_task(#[trigger] tasks@[i]),
            j <= tasks.len(),
            acc == pair_sum(tasks@.take(j as int), f),
            -(j * 0x4000_0000) * TERM <= acc <= (j * 0x4000_0000) * TERM,
            kind < 3,
            f == (if kind == 0 {
                overlap_term()
            } else if kind == 1 {
                dependency_term()
            } else {
                recovery_term()
            }),
        decreases tasks.len() - j,
    {
        let mut row: i128 = 0;
        let mut i: usize = 0;
        assert(tasks@.take(0) =~= Seq::<SolverTask>::empty());
        while i < j
            invariant
                tasks.len() <= 0x4000_0000,
                forall|i: int| 0 <= i < tasks.len() ==> bounded_task(#[trigger] tasks@[i]),
                i <= j < tasks.len(),
                row == row_sum(tasks@.take(i as int), tasks@[j as int], f),
                -(i as int) * TERM <= row <= (i as int) * TERM,
                kind < 3,
                f == (if kind == 0 {
                    overlap_term()
                } else if kind == 1 {
                    dependency_term()
                } else {
                    recovery_term()
                }),
            decreases j - i,
        {
            let left = &tasks[i];
            let right = &tasks[j];
            let term: i128 = if kind == 0 {
                if tasks_overlap(left, right) { 1 } else { 0 }
            } else if kind == 1 {
                if dependency_violated(left, right) { 1 } else { 0 }
            } else {
                if recovery_conflict(left, right) { left.recovery_penalty as i128 } else { 0 }
            };
            proof {
                lemma_pair_step(tasks@, f, j as int, i as int);
            }
            row = row + term;
            i += 1;
        }
        proof {
            assert(tasks@.take(j + 1).drop_last() == tasks@.take(j as int));
            assert(tasks@.take(j + 1).last() == tasks@[j as int]);
        }
        acc = acc + row;
        j += 1;
    }
    assert(tasks@.take(tasks.len() as int) == tasks@);
    acc
}

/// The number of slots the task occupies without being feasible there.
fn infeasible_count(task: &SolverTask, slots: &Vec<SolverSlot>) -> (r: i128)
    ensures
        r == slot_count(*task, slots@),
        0 <= r <= slots.len(),
{
    let mut n: i128 = 0;
    let mut i: usize = 0;
    assert(slots@.take(0) =~= Seq::<SolverSlot>::empty());
    while i < slots.len()
        invariant
            i <= slots.len(),
            n == slot_count(*task, slots@.take(i as int)),
            0 <= n <= i,
        decreases slots.len() - i,
    {
        assert(slots@.take(i + 1).drop_last() == slots@.take(i as int));
        if slot_infeasible(task, &slots[i]) {
            n = n + 1;
        }
        i += 1;
    }
    assert(slots@.take(slots.len() as int) == slots@);
    n
}

/// The recovery penalties between a task and the applied tasks.
fn applied_total(task: &SolverTask, fixed: &Vec<SolverFixedTask>) -> (r: i128)
    requires
        bounded_task(*task),
        fixed.len() <= 0x4000_0000,
        forall|i: int| 0 <= i < fixed.len() ==> bounded_fixed(#[trigger] fixed@[i]),
    ensures
        r == fixed_sum(*task, fixed@, fixed_term()),
        -(fixed.len() as int) * TERM <= r <= (fixed.len() as int) * TERM,
{
    let mut n: i128 = 0;
    let mut i: usize = 0;
    assert(fixed@.take(0) =~= Seq::<SolverFixedTask>::empty());
    while i < fixed.len()
        invariant
            i <= fixed.len(),
            fixed.len() <= 0x4000_0000,
            bounded_task(*task),
            forall|i: int| 0 <= i < fixed.len() ==> bounded_fixed(#[trigger] fixed@[i]),
            n == fixed_sum(*task, fixed@.take(i as int), fixed_term()),
            -(i as int) * TERM <= n <= (i as int) * TERM,
        decreases fixed.len() - i,
    {
        assert(fixed@.take(i + 1).drop_last() == fixed@.take(i as int));
        if fixed_recovery_conflict(task, &fixed[i]) {
            n = n + task.recovery_penalty as i128;
        }
        i += 1;
    }
    assert(fixed@.take(fixed.len() as int) == fixed@);
    n
}

/// The value a task's assigned slot has in a by-slot list, zero without one.
fn slot_value(task: &SolverTask, pairs: &Vec<(usize, i64)>) -> (r: i128)
    ensures
        r == match task.slot_id {
            None => 0,
            Some(slot) => match lookup(pairs@, slot) {
                Some(v) => v as int,
                None => 0,
            },
        },
{
    match task.slot_id {
        None => 0,
        Some(slot) => match lookup_slot(pairs, slot) {
            Some(v) => v as i128,
            None => 0,
        },
    }
}

/// Sums a per-task penalty over the tasks: infeasible slots, medium,
/// cognitive timing or applied-task recovery.
fn tasks_total(plan: &SolverPlan, kind: u8) -> (r: i128)
    requires
        plan_sized(*plan),
        kind < 4,
    ensures
        r == task_sum(
            plan.tasks@,
            if kind == 0 {
                infeasible_term(plan.slots@)
            } else if kind == 1 {
                medium_fn()
            } else if kind == 2 {
                cognitive_fn()
            } else {
                applied_term(plan.fixed_tasks@)
            },
        ),
        -(plan.tasks.len() as int) * 0x4000_0000 * TERM <= r <= (plan.tasks.len() as int) * 0x4000_0000 * TERM,
{
    let ghost f = if kind == 0 {
        infeasible_term(plan.slots@)
    } else if kind == 1 {
        medium_fn()
    } else if kind == 2 {
        cognitive_fn()
    } else {
        applied_term(plan.fixed_tasks@)
    };
    let tasks = &plan.tasks;
    let mut acc: i128 = 0;
    let mut j: usize = 0;
    assert(tasks@.take(0) =~= Seq::<SolverTask>::empty());
    while j < tasks.len()
        invariant
            plan_sized(*plan),
            *tasks == plan.tasks,
            kind < 4,
            f == (if kind == 0 {
                infeasible_term(plan.slots@)
            } else if kind == 1 {
                medium_fn()
            } else if kind == 2 {
                cognitive_fn()
            } else {
                applied_term(plan.fixed_tasks@)
            }),
            j <= tasks.len(),
            acc == task_sum(tasks@.take(j as int), f),
            -(j as int) * 0x4000_0000 * TERM <= acc <= (j as int) * 0x4000_0000 * TERM,
        decreases tasks.len() - j,
    {
        let task = &tasks[j];
        assert(bounded_task(tasks@[j as int]));
        let term: i128 = if kind == 0 {
            infeasible_count(task, &plan.slots)
        } else if kind == 1 {
            match task.slot_id {
                None => task.priority_weight as i128,
                Some(_) => slot_value(task, &task.deadline_lateness_by_slot),
            }
        } else if kind == 2 {
            slot_value(task, &task.cognitive_penalty_by_slot)
        } else {
            applied_total(task, &plan.fixed_tasks)
        };
        assert(-0x4000_0000 * TERM <= term <= 0x4000_0000 * TERM);
        assert(tasks@.take(j + 1).drop_last() == tasks@.take(j as int));
        assert(tasks@.take(j + 1).last() == tasks@[j as int]);
        acc = acc + term;
        j += 1;
    }
    assert(tasks@.take(tasks.len() as int) == tasks@);
    acc
}

/// Scores a plan as the solver's constraints do: each level is minus the sum
/// of its penalties. `None` when a level does not fit in an `i64`.
pub fn score(plan: &SolverPlan) -> (r: Option<Score>)
    requires
        plan_sized(*plan),
    ensures
        r is Some <==> score_fits(*plan),
        r matches Some(s) ==> s.hard == -hard_penalty(*plan) && s.medium == -medium_penalty(*plan)
            && s.soft == -soft_penalty(*plan),
{
    let infeasible = tasks_total(plan, 0);
    let overlaps = pairs_total(&plan.tasks, 0);
    let dependencies = pairs_total(&plan.tasks, 1);
    let medium = tasks_total(plan, 1);
    let cognitive = tasks_total(plan, 2);
    let recovery = pairs_total(&plan.tasks, 2);
    let applied = tasks_total(plan, 3);
    let hard = infeasible + overlaps + dependencies;
    let soft = cognitive + recovery + applied;
    if -hard < i64::MIN as i128 || -hard > i64::MAX as i128 || -medium < i64::MIN as i128
        || -medium > i64::MAX as i128 || -soft < i64::MIN as i128 || -soft > i64::MAX as i128 {
        return None;
    }
    Some(Score { hard: (-hard) as i64, medium: (-medium) as i64, soft: (-soft) as i64 })
}

/// The task's weight and penalties are non-negative.
pub open spec fn task_nonneg(t: SolverTask) -> bool {
    &&& t.priority_weight >= 0
    &&& t.recovery_penalty >= 0
    &&& forall|q: int| 0 <= q < t.deadline_lateness_by_slot.len() ==> #[trigger] t.deadline_lateness_by_slot@[q].1 >= 0
    &&& forall|q: int| 0 <= q < t.cognitive_penalty_by_slot.len() ==> #[trigger] t.cognitive_penalty_by_slot@[q].1 >= 0
}

/// Every task of the plan has non-negative weight and penalties.
pub open spec fn penalties_nonneg(plan: SolverPlan) -> bool {
    forall|i: int| 0 <= i < plan.tasks.len() ==> task_nonneg(#[trigger] plan.tasks@[i])
}

proof fn lemma_lookup_nonneg(pairs: Seq<(usize, i64)>, key: usize)
    requires
        forall|q: int| 0 <= q < pairs.len() ==> #[trigger] pairs[q].1 >= 0,
    ensures
        lookup(pairs, key) matches Some(v) ==> v >= 0,
    decreases pairs.len(),
{
    if pairs.len() > 0 && pairs[0].0 != key {
        assert forall|q: int| 0 <= q < pairs.drop_first().len() implies #[trigger] pairs.drop_first()[q].1 >= 0 by {
            assert(pairs.drop_first()[q] == pairs[q + 1]);
        }
        lemma_lookup_nonneg(pairs.drop_first(), key);
    }
}

proof fn lemma_task_sum_nonneg(tasks: Seq<SolverTask>, f: spec_fn(SolverTask) -> int)
    requires
        forall|i: int| 0 <= i < tasks.len() ==> f(#[trigger] tasks[i]) >= 0,
    ensures
        task_sum(tasks, f) >= 0,
    decreases tasks.len(),
{
    if tasks.len() > 0 {
        assert(f(tasks[tasks.len() - 1]) >= 0);
        assert forall|i: int| 0 <= i < tasks.drop_last().len() implies f(#[trigger] tasks.drop_last()[i]) >= 0 by {
            assert(tasks.drop_last()[i] == tasks[i]);
        }
        lemma_task_sum_nonneg(tasks.drop_last(), f);
    }
}

proof fn lemma_row_sum_nonneg(lefts: Seq<SolverTask>, right: SolverTask, f: spec_fn(SolverTask, SolverTask) -> int)
    requires
        forall|i: int| 0 <= i < lefts.len() ==> f(#[trigger] lefts[i], right) >= 0,
    ensures
        row_sum(lefts, right, f) >= 0,
    decreases lefts.len(),
{
    if lefts.len() > 0 {
        assert(f(lefts[lefts.len() - 1], right) >= 0);
        assert forall|i: int| 0 <= i < lefts.drop_last().len() implies f(#[trigger] lefts.drop_last()[i], right) >= 0 by {
            assert(lefts.drop_last()[i] == lefts[i]);
        }
        lemma_row_sum_nonneg(lefts.drop_last(), right, f);
    }
}

proof fn lemma_pair_sum_nonneg(tasks: Seq<SolverTask>, f: spec_fn(SolverTask, SolverTask) -> int)
    requires
        forall|i: int, j: int| 0 <= i < tasks.len() && 0 <= j < tasks.len() ==> f(#[trigger] tasks[i], #[trigger] tasks[j]) >= 0,
    ensures
        pair_sum(tasks, f) >= 0,
    decreases tasks.len(),
{
    if tasks.len() > 0 {
        let init = tasks.drop_last();
        let last = tasks[tasks.len() - 1];
        assert forall|i: int, j: int| 0 <= i < init.len() && 0 <= j < init.len() implies f(#[trigger] init[i], #[trigger] init[j]) >= 0 by {
            assert(init[i] == tasks[i] && init[j] == tasks[j]);
        }
        lemma_pair_sum_nonneg(init, f);
        assert forall|i: int| 0 <= i < init.len() implies f(#[trigger] init[i], last) >= 0 by {
            assert(init[i] == tasks[i]);
        }
        lemma_row_sum_nonneg(init, last, f);
    }
}

proof fn lemma_fixed_sum_nonneg(task: SolverTask, fixed: Seq<SolverFixedTask>, g: spec_fn(SolverTask, SolverFixedTask) -> int)
    requires
        forall|i: int| 0 <= i < fixed.len() ==> g(task, #[trigger] fixed[i]) >= 0,
    ensures
        fixed_sum(task, fixed, g) >= 0,
    decreases fixed.len(),
{
    if fixed.len() > 0 {
        assert(g(task, fixed[fixed.len() - 1]) >= 0);
        assert forall|i: int| 0 <= i < fixed.drop_last().len() implies g(task, #[trigger] fixed.drop_last()[i]) >= 0 by {
            assert(fixed.drop_last()[i] == fixed[i]);
        }
        lemma_fixed_sum_nonneg(task, fixed.drop_last(), g);
    }
}

proof fn lemma_slot_count_nonneg(task: SolverTask, slots: Seq<SolverSlot>)
    ensures
        slot_count(task, slots) >= 0,
    decreases slots.len(),
{
    if slots.len() > 0 {
        lemma_slot_count_nonneg(task, slots.drop_last());
    }
}

/// The score never rises above zero: the hard penalty of any plan is a count,
/// and with non-negative weights and penalties so are the medium and soft
/// penalties' signs.
pub proof fn law_score_never_positive(plan: SolverPlan)
    ensures
        hard_penalty(plan) >= 0,
        penalties_nonneg(plan) ==> medium_penalty(plan) >= 0 && soft_penalty(plan) >= 0,
{
    let tasks = plan.tasks@;
    assert forall|i: int| 0 <= i < tasks.len() implies infeasible_term(plan.slots@)(#[trigger] tasks[i]) >= 0 by {
        lemma_slot_count_nonneg(tasks[i], plan.slots@);
    }
    lemma_task_sum_nonneg(tasks, infeasible_term(plan.slots@));
    lemma_pair_sum_nonneg(tasks, overlap_term());
    lemma_pair_sum_nonneg(tasks, dependency_term());
    if penalties_nonneg(plan) {
        assert forall|i: int| 0 <= i < tasks.len() implies medium_fn()(#[trigger] tasks[i]) >= 0 by {
            assert(task_nonneg(plan.tasks@[i]));
            if tasks[i].slot_id is Some {
                lemma_lookup_nonneg(tasks[i].deadline_lateness_by_slot@, tasks[i].slot_id->Some_0);
            }
        }
        lemma_task_sum_nonneg(tasks, medium_fn());
        assert forall|i: int| 0 <= i < tasks.len() implies cognitive_fn()(#[trigger] tasks[i]) >= 0 by {
            assert(task_nonneg(plan.tasks@[i]));
            if tasks[i].slot_id is Some {
                lemma_lookup_nonneg(tasks[i].cognitive_penalty_by_slot@, tasks[i].slot_id->Some_0);
            }
        }
        lemma_task_sum_nonneg(tasks, cognitive_fn());
        assert forall|i: int, j: int| 0 <= i < tasks.len() && 0 <= j < tasks.len() implies recovery_term()(
            #[trigger] tasks[i],
            #[trigger] tasks[j],
        ) >= 0 by {
            assert(task_nonneg(plan.tasks@[i]));
        }
        lemma_pair_sum_nonneg(tasks, recovery_term());
        assert forall|i: int| 0 <= i < tasks.len() implies applied_term(plan.fixed_tasks@)(#[trigger] tasks[i]) >= 0 by {
            assert(task_nonneg(plan.tasks@[i]));
            let t = tasks[i];
            assert forall|q: int| 0 <= q < plan.fixed_tasks@.len() implies fixed_term()(t, #[trigger] plan.fixed_tasks@[q]) >= 0 by {}
            lemma_fixed_sum_nonneg(t, plan.fixed_tasks@, fixed_term());
        }
        lemma_task_sum_nonneg(tasks, applied_term(plan.fixed_tasks@));
    }
}


proof fn lemma_lookup_first(pairs: Seq<(usize, i64)>, key: usize, q: int)
    requires
        0 <= q < pairs.len(),
        pairs[q].0 == key,
        forall|p: int| 0 <= p < q ==> #[trigger] pairs[p].0 != key,
    ensures
        lookup(pairs, key) == Some(pairs[q].1),
    decreases q,
{
    if q > 0 {
        assert(pairs[0].0 != key);
        let rest = pairs.drop_first();
        assert forall|p: int| 0 <= p < q - 1 implies #[trigger] rest[p].0 != key by {
            assert(rest[p] == pairs[p + 1]);
        }
        lemma_lookup_first(rest, key, q - 1);
    }
}

proof fn lemma_single_sums(tasks: Seq<SolverTask>, slots: Seq<SolverSlot>, fixed: Seq<SolverFixedTask>)
    requires
        tasks.len() == 1,
    ensures
        task_sum(tasks, infeasible_term(slots)) == slot_count(tasks[0], slots),
        task_sum(tasks, medium_fn()) == medium_term(tasks[0]),
        task_sum(tasks, cognitive_fn()) == cognitive_term(tasks[0]),
        task_sum(tasks, applied_term(fixed)) == fixed_sum(tasks[0], fixed, fixed_term()),
        pair_sum(tasks, overlap_term()) == 0,
        pair_sum(tasks, dependency_term()) == 0,
        pair_sum(tasks, recovery_term()) == 0,
{
    let e = tasks.drop_last();
    assert(e.len() == 0);
    assert(tasks.last() == tasks[0]);
    assert(task_sum(e, infeasible_term(slots)) == 0);
    assert(task_sum(e, medium_fn()) == 0);
    assert(task_sum(e, cognitive_fn()) == 0);
    assert(task_sum(e, applied_term(fixed)) == 0);
    assert(pair_sum(e, overlap_term()) == 0);
    assert(pair_sum(e, dependency_term()) == 0);
    assert(pair_sum(e, recovery_term()) == 0);
    assert(row_sum(e, tasks[0], overlap_term()) == 0);
    assert(row_sum(e, tasks[0], dependency_term()) == 0);
    assert(row_sum(e, tasks[0], recovery_term()) == 0);
}

proof fn lemma_no_infeasible_slot(task: SolverTask, slots: Seq<SolverSlot>)
    requires
        task.slot_id matches Some(s) ==> task.feasible_slot_ids@.contains(s),
    ensures
        slot_count(task, slots) == 0,
    decreases slots.len(),
{
    if slots.len() > 0 {
        lemma_no_infeasible_slot(task, slots.drop_last());
    }
}

/// A plan of one task that the solver leaves unassigned scores nothing hard
/// and nothing soft, and loses the task's priority weight at the medium
/// level.
pub proof fn law_unassigned_task_costs_its_weight(plan: SolverPlan)
    requires
        plan.tasks.len() == 1,
        plan.tasks@[0].slot_id is None,
    ensures
        hard_penalty(plan) == 0,
        medium_penalty(plan) == plan.tasks@[0].priority_weight,
        soft_penalty(plan) == 0,
{
    let tasks = plan.tasks@;
    let t = tasks[0];
    lemma_single_sums(tasks, plan.slots@, plan.fixed_tasks@);
    lemma_no_infeasible_slot(t, plan.slots@);
    assert(fixed_sum(t, plan.fixed_tasks@, fixed_term()) == 0) by {
        lemma_fixed_sum_unassigned(t, plan.fixed_tasks@);
    }
}

proof fn lemma_fixed_sum_unassigned(t: SolverTask, fixed: Seq<SolverFixedTask>)
    requires
        t.slot_id is None,
    ensures
        fixed_sum(t, fixed, fixed_term()) == 0,
    decreases fixed.len(),
{
    if fixed.len() > 0 {
        lemma_fixed_sum_unassigned(t, fixed.drop_last());
    }
}

/// A plan of one task in one of its feasible slots `s`, with no applied
/// tasks, scores nothing hard, the lateness paired with `s` at the medium
/// level and the cognitive-timing penalty paired with `s` at the soft
/// level (the first pair with that slot, in each list).
pub proof fn law_assigned_task_costs_its_slot_penalties(plan: SolverPlan, s: usize, qc: int, ql: int)
    requires
        plan.tasks.len() == 1,
        plan.fixed_tasks.len() == 0,
        plan.tasks@[0].slot_id == Some(s),
        plan.tasks@[0].feasible_slot_ids@.contains(s),
        0 <= qc < plan.tasks@[0].cognitive_penalty_by_slot.len(),
        plan.tasks@[0].cognitive_penalty_by_slot@[qc].0 == s,
        forall|p: int| 0 <= p < qc ==> #[trigger] plan.tasks@[0].cognitive_penalty_by_slot@[p].0 != s,
        0 <= ql < plan.tasks@[0].deadline_lateness_by_slot.len(),
        plan.tasks@[0].deadline_lateness_by_slot@[ql].0 == s,
        forall|p: int| 0 <= p < ql ==> #[trigger] plan.tasks@[0].deadline_lateness_by_slot@[p].0 != s,
    ensures
        hard_penalty(plan) == 0,
        medium_penalty(plan) == plan.tasks@[0].deadline_lateness_by_slot@[ql].1,
        soft_penalty(plan) == plan.tasks@[0].cognitive_penalty_by_slot@[qc].1,
{
    let tasks = plan.tasks@;
    let t = tasks[0];
    lemma_single_sums(tasks, plan.slots@, plan.fixed_tasks@);
    lemma_no_infeasible_slot(t, plan.slots@);
    lemma_lookup_first(t.cognitive_penalty_by_slot@, s, qc);
    lemma_lookup_first(t.deadline_lateness_by_slot@, s, ql);
    assert(fixed_sum(t, plan.fixed_tasks@, fixed_term()) == 0);
}

/// An applied task without high cognitive load never adds to the soft
/// penalty of a task next to it: adding one to the applied tasks leaves
/// every task's applied-recovery penalty unchanged.
pub proof fn law_low_load_applied_task_adds_no_recovery(task: SolverTask, fixed: Seq<SolverFixedTask>, f: SolverFixedTask)
    requires
        !f.high_cognitive_load,
    ensures
        fixed_sum(task, fixed.push(f), fixed_term()) == fixed_sum(task, fixed, fixed_term()),
{
    assert(fixed.push(f).drop_last() == fixed);
}

/// A high-load applied task closer to a high-load assigned task than the
/// task's recovery time adds the task's recovery penalty.
pub proof fn law_close_high_load_applied_task_adds_recovery(
    task: SolverTask,
    fixed: Seq<SolverFixedTask>,
    f: SolverFixedTask,
    start: i64,
)
    requires
        f.high_cognitive_load,
        task.high_cognitive_load,
        start_of(task) == Some(start),
        ({
            let gap = if start >= f.start_minute {
                start - f.end_minute
            } else {
                f.start_minute - (start + task.duration_minutes)
            };
            0 <= gap < task.recovery_minutes
        }),
    ensures
        fixed_sum(task, fixed.push(f), fixed_term()) == fixed_sum(task, fixed, fixed_term()) + task.recovery_penalty,
{
    assert(fixed.push(f).drop_last() == fixed);
}


proof fn lemma_row_sum_at_least(lefts: Seq<SolverTask>, right: SolverTask, f: spec_fn(SolverTask, SolverTask) -> int, i: int)
    requires
        forall|a: int| 0 <= a < lefts.len() ==> f(#[trigger] lefts[a], right) >= 0,
        0 <= i < lefts.len(),
    ensures
        row_sum(lefts, right, f) >= f(lefts[i], right),
    decreases lefts.len(),
{
    let init = lefts.drop_last();
    assert forall|a: int| 0 <= a < init.len() implies f(#[trigger] init[a], right) >= 0 by {
        assert(init[a] == lefts[a]);
    }
    if i == lefts.len() - 1 {
        lemma_row_sum_nonneg(init, right, f);
    } else {
        assert(init[i] == lefts[i]);
        lemma_row_sum_at_least(init, right, f, i);
        assert(f(lefts[lefts.len() - 1], right) >= 0);
    }
}

proof fn lemma_pair_sum_at_least(tasks: Seq<SolverTask>, f: spec_fn(SolverTask, SolverTask) -> int, i: int, j: int)
    requires
        forall|a: int, b: int| 0 <= a < tasks.len() && 0 <= b < tasks.len() ==> f(#[trigger] tasks[a], #[trigger] tasks[b]) >= 0,
        0 <= i < j < tasks.len(),
    ensures
        pair_sum(tasks, f) >= f(tasks[i], tasks[j]),
    decreases tasks.len(),
{
    let init = tasks.drop_last();
    let last = tasks[tasks.len() - 1];
    assert forall|a: int, b: int| 0 <= a < init.len() && 0 <= b < init.len() implies f(#[trigger] init[a], #[trigger] init[b]) >= 0 by {
        assert(init[a] == tasks[a] && init[b] == tasks[b]);
    }
    assert forall|a: int| 0 <= a < init.len() implies f(#[trigger] init[a], last) >= 0 by {
        assert(init[a] == tasks[a]);
    }
    if j == tasks.len() - 1 {
        lemma_pair_sum_nonneg(init, f);
        assert(init[i] == tasks[i]);
        lemma_row_sum_at_least(init, last, f, i);
    } else {
        assert(init[i] == tasks[i] && init[j] == tasks[j]);
        lemma_pair_sum_at_least(init, f, i, j);
        lemma_row_sum_nonneg(init, last, f);
    }
}

proof fn lemma_hard_parts_nonneg(plan: SolverPlan)
    ensures
        task_sum(plan.tasks@, infeasible_term(plan.slots@)) >= 0,
        pair_sum(plan.tasks@, overlap_term()) >= 0,
        pair_sum(plan.tasks@, dependency_term()) >= 0,
{
    let tasks = plan.tasks@;
    assert forall|i: int| 0 <= i < tasks.len() implies infeasible_term(plan.slots@)(#[trigger] tasks[i]) >= 0 by {
        lemma_slot_count_nonneg(tasks[i], plan.slots@);
    }
    lemma_task_sum_nonneg(tasks, infeasible_term(plan.slots@));
    lemma_pair_sum_nonneg(tasks, overlap_term());
    lemma_pair_sum_nonneg(tasks, dependency_term());
}

/// Two tasks with different ids whose assigned times overlap break a hard
/// rule: the plan's hard penalty is at least one.
pub proof fn law_overlapping_tasks_break_a_hard_rule(plan: SolverPlan, i: int, j: int, a: i64, b: i64)
    requires
        0 <= i < j < plan.tasks.len(),
        plan.tasks@[i].id@ != plan.tasks@[j].id@,
        start_of(plan.tasks@[i]) == Some(a),
        start_of(plan.tasks@[j]) == Some(b),
        a < b + plan.tasks@[j].duration_minutes,
        b < a + plan.tasks@[i].duration_minutes,
    ensures
        hard_penalty(plan) >= 1,
{
    lemma_hard_parts_nonneg(plan);
    lemma_pair_sum_at_least(plan.tasks@, overlap_term(), i, j);
}

/// A task assigned to start before a task it depends on has ended breaks a
/// hard rule, as does an assigned task whose predecessor is unassigned (the
/// pair taken in list order, as the solver's self-join enumerates it).
pub proof fn law_dependency_out_of_order_breaks_a_hard_rule(plan: SolverPlan, i: int, j: int)
    requires
        0 <= i < j < plan.tasks.len(),
        plan.tasks@[i].id@ != plan.tasks@[j].id@,
        exists|p: int| 0 <= p < plan.tasks@[i].predecessor_ids.len() && #[trigger] plan.tasks@[i].predecessor_ids@[p]@
            == plan.tasks@[j].id@,
        start_of(plan.tasks@[i]) is Some,
        start_of(plan.tasks@[j]) matches Some(b) ==> start_of(plan.tasks@[i])->Some_0 < b + plan.tasks@[j].duration_minutes,
    ensures
        hard_penalty(plan) >= 1,
{
    lemma_hard_parts_nonneg(plan);
    lemma_pair_sum_at_least(plan.tasks@, dependency_term(), i, j);
}


proof fn lemma_task_sum_at_least(tasks: Seq<SolverTask>, f: spec_fn(SolverTask) -> int, i: int)
    requires
        forall|a: int| 0 <= a < tasks.len() ==> f(#[trigger] tasks[a]) >= 0,
        0 <= i < tasks.len(),
    ensures
        task_sum(tasks, f) >= f(tasks[i]),
    decreases tasks.len(),
{
    let init = tasks.drop_last();
    assert forall|a: int| 0 <= a < init.len() implies f(#[trigger] init[a]) >= 0 by {
        assert(init[a] == tasks[a]);
    }
    if i == tasks.len() - 1 {
        lemma_task_sum_nonneg(init, f);
    } else {
        assert(init[i] == tasks[i]);
        lemma_task_sum_at_least(init, f, i);
        assert(f(tasks[tasks.len() - 1]) >= 0);
    }
}

proof fn lemma_slot_count_at_least_one(task: SolverTask, slots: Seq<SolverSlot>, q: int)
    requires
        0 <= q < slots.len(),
        infeasible_spec(task, slots[q]),
    ensures
        slot_count(task, slots) >= 1,
    decreases slots.len(),
{
    if q == slots.len() - 1 {
        lemma_slot_count_nonneg(task, slots.drop_last());
    } else {
        assert(slots.drop_last()[q] == slots[q]);
        lemma_slot_count_at_least_one(task, slots.drop_last(), q);
    }
}

/// A task assigned to a slot of the plan that is not among its feasible
/// slots breaks a hard rule.
pub proof fn law_infeasible_slot_breaks_a_hard_rule(plan: SolverPlan, i: int, q: int)
    requires
        0 <= i < plan.tasks.len(),
        0 <= q < plan.slots.len(),
        plan.tasks@[i].slot_id == Some(plan.slots@[q].id),
        !plan.tasks@[i].feasible_slot_ids@.contains(plan.slots@[q].id),
    ensures
        hard_penalty(plan) >= 1,
{
    lemma_hard_parts_nonneg(plan);
    let tasks = plan.tasks@;
    assert forall|a: int| 0 <= a < tasks.len() implies infeasible_term(plan.slots@)(#[trigger] tasks[a]) >= 0 by {
        lemma_slot_count_nonneg(tasks[a], plan.slots@);
    }
    lemma_slot_count_at_least_one(tasks[i], plan.slots@, q);
    lemma_task_sum_at_least(tasks, infeasible_term(plan.slots@), i);
}

/// Two high-load tasks, the earlier in the list with the smaller id,
/// assigned closer together than that task's recovery time, cost that
/// task's recovery penalty at the soft level, given non-negative penalties.
pub proof fn law_close_high_load_tasks_cost_recovery(plan: SolverPlan, i: int, j: int, a: i64, b: i64)
    requires
        penalties_nonneg(plan),
        0 <= i < j < plan.tasks.len(),
        text_lt(plan.tasks@[i].id@, plan.tasks@[j].id@),
        plan.tasks@[i].high_cognitive_load,
        plan.tasks@[j].high_cognitive_load,
        start_of(plan.tasks@[i]) == Some(a),
        start_of(plan.tasks@[j]) == Some(b),
        ({
            let gap = if a >= b {
                a - (b + plan.tasks@[j].duration_minutes)
            } else {
                b - (a + plan.tasks@[i].duration_minutes)
            };
            0 <= gap < plan.tasks@[i].recovery_minutes
        }),
    ensures
        soft_penalty(plan) >= plan.tasks@[i].recovery_penalty,
{
    let tasks = plan.tasks@;
    law_score_never_positive(plan);
    assert forall|x: int, y: int| 0 <= x < tasks.len() && 0 <= y < tasks.len() implies recovery_term()(
        #[trigger] tasks[x],
        #[trigger] tasks[y],
    ) >= 0 by {
        assert(task_nonneg(plan.tasks@[x]));
    }
    lemma_pair_sum_at_least(tasks, recovery_term(), i, j);
    assert forall|x: int| 0 <= x < tasks.len() implies cognitive_fn()(#[trigger] tasks[x]) >= 0 by {
        assert(task_nonneg(plan.tasks@[x]));
        if tasks[x].slot_id is Some {
            lemma_lookup_nonneg(tasks[x].cognitive_penalty_by_slot@, tasks[x].slot_id->Some_0);
        }
    }
    lemma_task_sum_nonneg(tasks, cognitive_fn());
    assert forall|x: int| 0 <= x < tasks.len() implies applied_term(plan.fixed_tasks@)(#[trigger] tasks[x]) >= 0 by {
        assert(task_nonneg(plan.tasks@[x]));
        let t = tasks[x];
        assert forall|q: int| 0 <= q < plan.fixed_tasks@.len() implies fixed_term()(t, #[trigger] plan.fixed_tasks@[q]) >= 0 by {}
        lemma_fixed_sum_nonneg(t, plan.fixed_tasks@, fixed_term());
    }
    lemma_task_sum_nonneg(tasks, applied_term(plan.fixed_tasks@));
}

} // verus!

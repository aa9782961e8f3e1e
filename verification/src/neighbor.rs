//! Neighbouring schedules for local search.
//!
//! A neighbour differs from a schedule by one random move: a task handed to
//! another capable agent, a task's start moved by at most ten time units
//! (within its deadline), or the agents of two tasks exchanged. The kind of
//! move is chosen by the caller; the positions and amounts are drawn here,
//! and `apply_move` makes the move for given positions and amounts.

use crate::agent::AgentProfile;
use crate::constraint::{
    find_last_agent, find_last_task, last_agent_index, last_task_index, lemma_last_agent_index_bounds,
    lemma_last_task_index_bounds,
};
use crate::idmap::put;
use crate::schedule::{Assignment, AssignmentView, Schedule};
use crate::task::{string_views, TaskSpec};
use rand::rngs::ThreadRng;
use rand::Rng;
use vstd::prelude::*;

verus! {

/// `rand::rngs::ThreadRng`, declared so that it can be carried through verified code.
#[verifier::external_type_specification]
#[verifier::external_body]
pub struct ExThreadRng(ThreadRng);

/// `Rng::random_range(0..n)` on `usize`: a position below `n`, drawn at
/// random. Claimed: the result lies in the range, as rand documents; the call
/// panics on an empty range, which `n > 0` excludes.
#[verifier::external_body]
pub(crate) fn random_position(rng: &mut ThreadRng, n: usize) -> (r: usize)
    requires
        n > 0,
    ensures
        r < n,
{
    rng.random_range(0..n)
}

/// `Rng::random_range(-10..=10)` on `i64`: a shift drawn at random. Claimed:
/// the result lies in the range, as rand documents.
#[verifier::external_body]
pub(crate) fn random_shift(rng: &mut ThreadRng) -> (r: i64)
    ensures
        -10 <= r <= 10,
{
    rng.random_range(-10..=10)
}

/// The kind of change a neighbour makes.
#[derive(Debug, Clone, Copy, PartialEq, Eq)]
pub enum MoveKind {
    /// Move a task to another capable agent.
    Reassign,
    /// Change a task's start time, within its deadline.
    Shift,
    /// Exchange the agents of two tasks.
    Swap,
}

/// The positions, among the first `n` agents, of those able to do a task
/// requiring `required`.
pub open spec fn capable_positions(agents: Seq<AgentProfile>, required: Seq<Seq<char>>, n: int) -> Seq<usize>
    decreases n,
{
    if n <= 0 {
        seq![]
    } else {
        let rest = capable_positions(agents, required, n - 1);
        if agents[n - 1].can_do(required) {
            rest.push((n - 1) as usize)
        } else {
            rest
        }
    }
}

/// `s` with the task at position `i` handed to the capable agent numbered
/// `pick` among the capable ones, when its task is known and more than one
/// agent can do it.
pub open spec fn reassigned(s: Seq<(Seq<char>, AssignmentView)>, agents: Seq<AgentProfile>, tasks: Seq<TaskSpec>, i: int, pick: int) -> Seq<(Seq<char>, AssignmentView)> {
    let ti = last_task_index(tasks, s[i].0);
    if ti < 0 {
        s
    } else {
        let capable = capable_positions(agents, tasks[ti].required(), agents.len() as int);
        if capable.len() > 1 {
            put(s, s[i].0, AssignmentView { agent: agents[capable[pick] as int].id@, ..s[i].1 })
        } else {
            s
        }
    }
}

/// Whether `pick` is a possible draw for a reassignment of position `i`.
pub open spec fn pick_in_range(s: Seq<(Seq<char>, AssignmentView)>, agents: Seq<AgentProfile>, tasks: Seq<TaskSpec>, i: int, pick: int) -> bool {
    let ti = last_task_index(tasks, s[i].0);
    ti >= 0 && capable_positions(agents, tasks[ti].required(), agents.len() as int).len() > 1 ==> 0 <= pick
        < capable_positions(agents, tasks[ti].required(), agents.len() as int).len()
}

/// The start `shift` time units from `start`, no earlier than 0 (the start is
/// first read as a signed number).
pub open spec fn shifted_start(start: u64, shift: int) -> int {
    let moved = (start as i64) + shift;
    if moved < 0 {
        0
    } else {
        moved
    }
}

/// `s` with the start of the task at position `i` shifted by `shift`, when its
/// task is known and the shifted assignment still meets the deadline.
pub open spec fn shifted(s: Seq<(Seq<char>, AssignmentView)>, tasks: Seq<TaskSpec>, i: int, shift: int) -> Seq<(Seq<char>, AssignmentView)> {
    let ti = last_task_index(tasks, s[i].0);
    if ti < 0 {
        s
    } else {
        let new_start = shifted_start(s[i].1.start, shift);
        if new_start + tasks[ti].duration_estimate <= tasks[ti].deadline {
            put(s, s[i].0, AssignmentView { start: new_start as u64, ..s[i].1 })
        } else {
            s
        }
    }
}

/// `s` with the agents of the tasks at positions `i` and `j` exchanged, when
/// the positions differ, both tasks and both agents are known, and each agent
/// can do the other task.
pub open spec fn swapped(s: Seq<(Seq<char>, AssignmentView)>, agents: Seq<AgentProfile>, tasks: Seq<TaskSpec>, i: int, j: int) -> Seq<(Seq<char>, AssignmentView)> {
    let t1 = last_task_index(tasks, s[i].0);
    let t2 = last_task_index(tasks, s[j].0);
    let g1 = last_agent_index(agents, s[i].1.agent);
    let g2 = last_agent_index(agents, s[j].1.agent);
    if i == j || t1 < 0 || t2 < 0 || g1 < 0 || g2 < 0 {
        s
    } else if agents[g1].can_do(tasks[t2].required()) && agents[g2].can_do(tasks[t1].required()) {
        let first = put(s, s[i].0, AssignmentView { agent: s[j].1.agent, ..s[i].1 });
        put(first, s[j].0, AssignmentView { agent: s[i].1.agent, ..s[j].1 })
    } else {
        s
    }
}

/// Whether `r` is a neighbour of `s` that a move of kind `kind` can give.
pub open spec fn is_neighbor(s: Seq<(Seq<char>, AssignmentView)>, agents: Seq<AgentProfile>, tasks: Seq<TaskSpec>, kind: MoveKind, r: Seq<(Seq<char>, AssignmentView)>) -> bool {
    if s.len() == 0 {
        r == s
    } else {
        match kind {
            MoveKind::Reassign => exists|i: int, pick: int|
                0 <= i < s.len() && pick_in_range(s, agents, tasks, i, pick) && r == #[trigger] reassigned(
                    s,
                    agents,
                    tasks,
                    i,
                    pick,
                ),
            MoveKind::Shift => exists|i: int, shift: int|
                0 <= i < s.len() && -10 <= shift <= 10 && r == #[trigger] shifted(s, tasks, i, shift),
            MoveKind::Swap => (s.len() < 2 && r == s) || exists|i: int, j: int|
                0 <= i < s.len() && 0 <= j < s.len() && r == #[trigger] swapped(s, agents, tasks, i, j),
        }
    }
}

/// Whether shifting any start by up to ten units stays representable: the
/// start read as a signed number leaves room for the shift either way, and the shifted
/// end of a known task fits.
pub open spec fn shifts_fit(s: Seq<(Seq<char>, AssignmentView)>, tasks: Seq<TaskSpec>) -> bool {
    forall|i: int|
        0 <= i < s.len() && last_task_index(tasks, (#[trigger] s[i]).0) >= 0 ==> {
            &&& i64::MIN + 10 <= s[i].1.start as i64 <= i64::MAX - 10
            &&& shifted_start(s[i].1.start, 10) + tasks[last_task_index(tasks, s[i].0)].duration_estimate <= u64::MAX
        }
}

/// Whether shifting the start of the assignment at position `i` by up to ten
/// units stays representable (see `shifts_fit`).
pub open spec fn shift_fits_at(s: Seq<(Seq<char>, AssignmentView)>, tasks: Seq<TaskSpec>, i: int) -> bool {
    last_task_index(tasks, s[i].0) >= 0 ==> {
        &&& i64::MIN + 10 <= s[i].1.start as i64 <= i64::MAX - 10
        &&& shifted_start(s[i].1.start, 10) + tasks[last_task_index(tasks, s[i].0)].duration_estimate <= u64::MAX
    }
}

fn capable_agent_positions(agents: &[AgentProfile], task: &TaskSpec) -> (r: Vec<usize>)
    ensures
        r@ == capable_positions(agents@, task.required(), agents@.len() as int),
        forall|q: int| 0 <= q < r@.len() ==> #[trigger] r@[q] < agents@.len(),
{
    let mut r: Vec<usize> = Vec::new();
    let mut i: usize = 0;
    while i < agents.len()
        invariant
            i <= agents@.len(),
            r@ == capable_positions(agents@, task.required(), i as int),
            forall|q: int| 0 <= q < r@.len() ==> #[trigger] r@[q] < i,
        decreases agents@.len() - i,
    {
        if agents[i].has_capabilities(task.required_capabilities.as_slice()) {
            r.push(i);
        }
        i = i + 1;
    }
    r
}

/// One move, with its positions and amounts given: hand the task at
/// position `i` to the capable agent numbered `pick` among the capable ones
/// (Reassign); move the start of the task at position `i` by `shift`
/// (Shift); exchange the agents of the tasks at positions `i` and `j` (Swap).
/// The move is made only where the rules of its kind allow it.
pub fn apply_move(
    schedule: &Schedule,
    agents: &[AgentProfile],
    tasks: &[TaskSpec],
    kind: MoveKind,
    i: usize,
    j: usize,
    pick: usize,
    shift: i64,
) -> (r: Schedule)
    requires
        i < schedule.entries().len(),
        kind == MoveKind::Swap ==> j < schedule.entries().len(),
        kind == MoveKind::Reassign ==> pick_in_range(schedule.entries(), agents@, tasks@, i as int, pick as int),
        kind == MoveKind::Shift ==> -10 <= shift <= 10 && shift_fits_at(schedule.entries(), tasks@, i as int),
    ensures
        r.entries() == match kind {
            MoveKind::Reassign => reassigned(schedule.entries(), agents@, tasks@, i as int, pick as int),
            MoveKind::Shift => shifted(schedule.entries(), tasks@, i as int, shift as int),
            MoveKind::Swap => swapped(schedule.entries(), agents@, tasks@, i as int, j as int),
        },
{
    let ghost s = schedule.entries();
    let mut neighbor = schedule.copy();
    schedule.assignments.keys_distinct();
    let n = neighbor.assignments.len();
    match kind {
        MoveKind::Reassign => {
            let idx = i;
            let task_id = neighbor.assignments.key_at(idx).clone();
            let current = neighbor.assignments.value_at(idx).copy();
            assert(task_id@ == s[idx as int].0 && current@ == s[idx as int].1);
            proof {
                lemma_last_task_index_bounds(tasks@, task_id@);
            }
            let ti = match find_last_task(tasks, &task_id) {
                Some(t) => t,
                None => {
                    assert(neighbor.entries() == reassigned(s, agents@, tasks@, idx as int, pick as int));
                    return neighbor;
                },
            };
            let capable = capable_agent_positions(agents, &tasks[ti]);
            if capable.len() > 1 {
                let new_agent = &agents[capable[pick]];
                let moved = Assignment {
                    agent_id: new_agent.id.clone(),
                    start_time: current.start_time,
                    duration: current.duration,
                };
                neighbor.assignments.insert(task_id, moved);
                assert(neighbor.entries() == reassigned(s, agents@, tasks@, idx as int, pick as int));
            } else {
                assert(neighbor.entries() == reassigned(s, agents@, tasks@, idx as int, pick as int));
            }
        },
        MoveKind::Shift => {
            let idx = i;
            let task_id = neighbor.assignments.key_at(idx).clone();
            let current = neighbor.assignments.value_at(idx).copy();
            assert(task_id@ == s[idx as int].0 && current@ == s[idx as int].1);
            proof {
                lemma_last_task_index_bounds(tasks@, task_id@);
            }
            let ti = match find_last_task(tasks, &task_id) {
                Some(t) => t,
                None => {
                    assert(neighbor.entries() == shifted(s, tasks@, idx as int, shift as int));
                    return neighbor;
                },
            };
            let task = &tasks[ti];
            assert(s[idx as int].1.start as i64 <= i64::MAX - 10);
            let signed_start: i64 = #[verifier::truncate] (current.start_time as i64);
            assert(signed_start == s[idx as int].1.start as i64);
            assert(i64::MIN + 10 <= signed_start <= i64::MAX - 10);
            let moved: i64 = signed_start + shift;
            let new_start: u64 = if moved < 0 {
                0
            } else {
                moved as u64
            };
            assert(shifted_start(s[idx as int].1.start, 10) + task.duration_estimate <= u64::MAX);
            assert(new_start as int == shifted_start(s[idx as int].1.start, shift as int));
            if new_start + task.duration_estimate <= task.deadline {
                let moved_assignment = Assignment {
                    agent_id: current.agent_id.clone(),
                    start_time: new_start,
                    duration: current.duration,
                };
                neighbor.assignments.insert(task_id, moved_assignment);
            }
            assert(neighbor.entries() == shifted(s, tasks@, idx as int, shift as int));
        },
        MoveKind::Swap => {
            {
                if i != j {
                    let t1 = neighbor.assignments.key_at(i).clone();
                    let t2 = neighbor.assignments.key_at(j).clone();
                    let a1 = neighbor.assignments.value_at(i).copy();
                    let a2 = neighbor.assignments.value_at(j).copy();
                    assert(t1@ == s[i as int].0 && a1@ == s[i as int].1);
                    assert(t2@ == s[j as int].0 && a2@ == s[j as int].1);
                    proof {
                        lemma_last_task_index_bounds(tasks@, t1@);
                        lemma_last_task_index_bounds(tasks@, t2@);
                        lemma_last_agent_index_bounds(agents@, a1@.agent);
                        lemma_last_agent_index_bounds(agents@, a2@.agent);
                    }
                    let task1 = find_last_task(tasks, &t1);
                    let task2 = find_last_task(tasks, &t2);
                    let ag1 = find_last_agent(agents, &a1.agent_id);
                    let ag2 = find_last_agent(agents, &a2.agent_id);
                    match (task1, task2, ag1, ag2) {
                        (Some(k1), Some(k2), Some(g1), Some(g2)) => {
                            if agents[g1].has_capabilities(tasks[k2].required_capabilities.as_slice())
                                && agents[g2].has_capabilities(tasks[k1].required_capabilities.as_slice()) {
                                let first = Assignment {
                                    agent_id: a2.agent_id.clone(),
                                    start_time: a1.start_time,
                                    duration: a1.duration,
                                };
                                let second = Assignment {
                                    agent_id: a1.agent_id.clone(),
                                    start_time: a2.start_time,
                                    duration: a2.duration,
                                };
                                neighbor.assignments.insert(t1, first);
                                neighbor.assignments.insert(t2, second);
                            }
                        },
                        _ => {},
                    }
                    assert(neighbor.entries() == swapped(s, agents@, tasks@, i as int, j as int));
                } else {
                    assert(neighbor.entries() == swapped(s, agents@, tasks@, i as int, j as int));
                }
            }
        },
    }
    neighbor
}


/// The number of agents the task at position `i` could be handed to: the
/// capable agents of its task, when its task is known (0 otherwise).
fn reassign_choices(schedule: &Schedule, agents: &[AgentProfile], tasks: &[TaskSpec], i: usize) -> (n: usize)
    requires
        i < schedule.entries().len(),
    ensures
        last_task_index(tasks@, schedule.entries()[i as int].0) >= 0 ==> n == capable_positions(
            agents@,
            tasks@[last_task_index(tasks@, schedule.entries()[i as int].0)].required(),
            agents@.len() as int,
        ).len(),
        last_task_index(tasks@, schedule.entries()[i as int].0) < 0 ==> n == 0,
{
    let key = schedule.assignments.key_at(i);
    match find_last_task(tasks, key) {
        Some(t) => capable_agent_positions(agents, &tasks[t]).len(),
        None => 0,
    }
}

/// Whether the task at position `i` is one of `tasks`.
fn task_known(schedule: &Schedule, tasks: &[TaskSpec], i: usize) -> (b: bool)
    requires
        i < schedule.entries().len(),
    ensures
        b == (last_task_index(tasks@, schedule.entries()[i as int].0) >= 0),
{
    let key = schedule.assignments.key_at(i);
    proof {
        lemma_last_task_index_bounds(tasks@, key@);
    }
    find_last_task(tasks, key).is_some()
}

/// A neighbour of `schedule` made by one random move of kind `kind`; an empty
/// schedule is its own neighbour. The positions and amounts are drawn here
/// (a position, then for a reassignment the new agent among the capable
/// ones, for a shift the amount; two positions for a swap), and `apply_move`
/// makes the move. Whatever is drawn, the neighbour keeps the same tasks with
/// the same durations and differs in at most two assignments.
pub fn generate_neighbor(
    schedule: &Schedule,
    agents: &[AgentProfile],
    tasks: &[TaskSpec],
    kind: MoveKind,
    rng: &mut ThreadRng,
) -> (r: Schedule)
    requires
        kind == MoveKind::Shift ==> shifts_fit(schedule.entries(), tasks@),
    ensures
        is_neighbor(schedule.entries(), agents@, tasks@, kind, r.entries()),
        crate::idmap::keys_of(r.entries()) == crate::idmap::keys_of(schedule.entries()),
        forall|q: int| 0 <= q < r.entries().len() ==> (#[trigger] r.entries()[q]).1.duration == schedule.entries()[q].1.duration,
        exists|i: int, j: int| #[trigger] same_except(schedule.entries(), r.entries(), i, j),
        kind != MoveKind::Shift ==> forall|q: int|
            0 <= q < schedule.entries().len() && (#[trigger] r.entries()[q]).1.agent != schedule.entries()[q].1.agent
                ==> exists|g: int|
                0 <= g < agents@.len() && agents@[g].id@ == r.entries()[q].1.agent && #[trigger] agents@[g].can_do(
                    tasks@[last_task_index(tasks@, schedule.entries()[q].0)].required(),
                ),
        kind == MoveKind::Shift ==> forall|q: int|
            0 <= q < schedule.entries().len() && (#[trigger] r.entries()[q]) != schedule.entries()[q] ==> {
                &&& r.entries()[q].1.agent == schedule.entries()[q].1.agent
                &&& schedule.entries()[q].1.start <= i64::MAX ==> schedule.entries()[q].1.start - 10 <= r.entries()[q].1.start
                    <= schedule.entries()[q].1.start + 10
                &&& r.entries()[q].1.start + tasks@[last_task_index(tasks@, schedule.entries()[q].0)].duration_estimate
                    <= tasks@[last_task_index(tasks@, schedule.entries()[q].0)].deadline
            },
{
    let ghost s = schedule.entries();
    schedule.assignments.keys_distinct();
    let n = schedule.assignments.len();
    let r = if n == 0 {
        schedule.copy()
    } else {
        match kind {
            MoveKind::Reassign => {
                let i = random_position(rng, n);
                let choices = reassign_choices(schedule, agents, tasks, i);
                let pick = if choices > 1 {
                    random_position(rng, choices)
                } else {
                    0
                };
                apply_move(schedule, agents, tasks, kind, i, 0, pick, 0)
            },
            MoveKind::Shift => {
                let i = random_position(rng, n);
                let shift = if task_known(schedule, tasks, i) {
                    random_shift(rng)
                } else {
                    0
                };
                assert(shift_fits_at(s, tasks@, i as int));
                apply_move(schedule, agents, tasks, kind, i, 0, 0, shift)
            },
            MoveKind::Swap => {
                if n >= 2 {
                    let i = random_position(rng, n);
                    let j = random_position(rng, n);
                    apply_move(schedule, agents, tasks, kind, i, j, 0, 0)
                } else {
                    schedule.copy()
                }
            },
        }
    };
    let n_agents = agents.len();
    assert(agents@.len() == n_agents);
    proof {
        law_neighbor_keeps_tasks(s, agents@, tasks@, kind, r.entries());
        law_neighbor_local(s, agents@, tasks@, kind, r.entries());
    }
    r
}

} // verus!

verus! {

proof fn lemma_put_existing(s: Seq<(Seq<char>, AssignmentView)>, i: int, v: AssignmentView)
    requires
        crate::idmap::distinct_keys(s),
        0 <= i < s.len(),
    ensures
        put(s, s[i].0, v) == s.update(i, (s[i].0, v)),
        crate::idmap::distinct_keys(put(s, s[i].0, v)),
        crate::idmap::keys_of(put(s, s[i].0, v)) == crate::idmap::keys_of(s),
{
    crate::idmap::lemma_index_of_unique(s, i);
    crate::idmap::lemma_put_distinct(s, s[i].0, v);
    assert(crate::idmap::keys_of(put(s, s[i].0, v)) =~= crate::idmap::keys_of(s));
}

/// A neighbour assigns the same tasks, in the same order, as the schedule it
/// comes from; only agents and start times change.
pub proof fn law_neighbor_keeps_tasks(
    s: Seq<(Seq<char>, AssignmentView)>,
    agents: Seq<AgentProfile>,
    tasks: Seq<TaskSpec>,
    kind: MoveKind,
    r: Seq<(Seq<char>, AssignmentView)>,
)
    requires
        crate::idmap::distinct_keys(s),
        is_neighbor(s, agents, tasks, kind, r),
    ensures
        crate::idmap::keys_of(r) == crate::idmap::keys_of(s),
        forall|i: int| 0 <= i < r.len() ==> (#[trigger] r[i]).1.duration == s[i].1.duration,
{
    if s.len() > 0 {
        match kind {
            MoveKind::Reassign => {
                let (i, pick) = choose|i: int, pick: int|
                    0 <= i < s.len() && pick_in_range(s, agents, tasks, i, pick) && r == #[trigger] reassigned(
                        s,
                        agents,
                        tasks,
                        i,
                        pick,
                    );
                let ti = last_task_index(tasks, s[i].0);
                if ti >= 0 {
                    let capable = capable_positions(agents, tasks[ti].required(), agents.len() as int);
                    if capable.len() > 1 {
                        lemma_put_existing(s, i, AssignmentView { agent: agents[capable[pick] as int].id@, ..s[i].1 });
                    }
                }
            },
            MoveKind::Shift => {
                let (i, shift) = choose|i: int, shift: int|
                    0 <= i < s.len() && -10 <= shift <= 10 && r == #[trigger] shifted(s, tasks, i, shift);
                let ti = last_task_index(tasks, s[i].0);
                if ti >= 0 {
                    let new_start = shifted_start(s[i].1.start, shift);
                    if new_start + tasks[ti].duration_estimate <= tasks[ti].deadline {
                        lemma_put_existing(s, i, AssignmentView { start: new_start as u64, ..s[i].1 });
                    }
                }
            },
            MoveKind::Swap => {
                if !(s.len() < 2 && r == s) {
                    let (i, j) = choose|i: int, j: int|
                        0 <= i < s.len() && 0 <= j < s.len() && r == #[trigger] swapped(s, agents, tasks, i, j);
                    let t1 = last_task_index(tasks, s[i].0);
                    let t2 = last_task_index(tasks, s[j].0);
                    let g1 = last_agent_index(agents, s[i].1.agent);
                    let g2 = last_agent_index(agents, s[j].1.agent);
                    if !(i == j || t1 < 0 || t2 < 0 || g1 < 0 || g2 < 0) && agents[g1].can_do(tasks[t2].required())
                        && agents[g2].can_do(tasks[t1].required()) {
                        let first = put(s, s[i].0, AssignmentView { agent: s[j].1.agent, ..s[i].1 });
                        lemma_put_existing(s, i, AssignmentView { agent: s[j].1.agent, ..s[i].1 });
                        assert(first[j] == s[j]);
                        lemma_put_existing(first, j, AssignmentView { agent: s[i].1.agent, ..s[j].1 });
                    }
                }
            },
        }
    }
}

} // verus!

verus! {

proof fn lemma_capable_positions(agents: Seq<AgentProfile>, required: Seq<Seq<char>>, n: int)
    requires
        0 <= n <= agents.len(),
        agents.len() <= usize::MAX,
    ensures
        forall|q: int|
            0 <= q < capable_positions(agents, required, n).len() ==> (#[trigger] capable_positions(agents, required, n)[q]) < n
                && agents[capable_positions(agents, required, n)[q] as int].can_do(required),
    decreases n,
{
    if n > 0 {
        lemma_capable_positions(agents, required, n - 1);
        let rest = capable_positions(agents, required, n - 1);
        let r = capable_positions(agents, required, n);
        assert forall|q: int| 0 <= q < r.len() implies (#[trigger] r[q]) < n && agents[r[q] as int].can_do(required) by {
            if q < rest.len() {
                assert(r[q] == rest[q]);
            }
        }
    }
}

/// Whether `r` agrees with `s` everywhere but at positions `i` and `j`.
pub open spec fn same_except(s: Seq<(Seq<char>, AssignmentView)>, r: Seq<(Seq<char>, AssignmentView)>, i: int, j: int) -> bool {
    forall|q: int| 0 <= q < s.len() && q != i && q != j ==> #[trigger] r[q] == s[q]
}

/// A neighbour changes little: a reassignment or a shift changes at most one
/// assignment, a swap at most two. A reassigned task goes to an agent able to
/// do it; a shifted start moves by at most ten time units (stopping at 0) and
/// keeps the task's estimated duration within its deadline.
pub proof fn law_neighbor_local(
    s: Seq<(Seq<char>, AssignmentView)>,
    agents: Seq<AgentProfile>,
    tasks: Seq<TaskSpec>,
    kind: MoveKind,
    r: Seq<(Seq<char>, AssignmentView)>,
)
    requires
        crate::idmap::distinct_keys(s),
        is_neighbor(s, agents, tasks, kind, r),
        kind == MoveKind::Shift ==> shifts_fit(s, tasks),
        agents.len() <= usize::MAX,
    ensures
        r.len() == s.len(),
        exists|i: int, j: int| #[trigger] same_except(s, r, i, j),
        kind != MoveKind::Swap ==> exists|i: int| #[trigger] same_except(s, r, i, i),
        kind != MoveKind::Shift ==> forall|q: int|
            0 <= q < s.len() && (#[trigger] r[q]).1.agent != s[q].1.agent ==> exists|g: int|
                0 <= g < agents.len() && agents[g].id@ == r[q].1.agent && #[trigger] agents[g].can_do(
                    tasks[last_task_index(tasks, s[q].0)].required(),
                ),
        kind == MoveKind::Shift ==> forall|q: int|
            0 <= q < s.len() && (#[trigger] r[q]) != s[q] ==> {
                &&& r[q].1.agent == s[q].1.agent
                &&& s[q].1.start <= i64::MAX ==> s[q].1.start - 10 <= r[q].1.start <= s[q].1.start + 10
                &&& r[q].1.start + tasks[last_task_index(tasks, s[q].0)].duration_estimate <= tasks[last_task_index(
                    tasks,
                    s[q].0,
                )].deadline
            },
{
    law_neighbor_keeps_tasks(s, agents, tasks, kind, r);
    if s.len() == 0 {
        assert(same_except(s, r, 0, 0));
        return;
    }
    match kind {
        MoveKind::Reassign => {
            let (i, pick) = choose|i: int, pick: int|
                0 <= i < s.len() && pick_in_range(s, agents, tasks, i, pick) && r == #[trigger] reassigned(s, agents, tasks, i, pick);
            let ti = last_task_index(tasks, s[i].0);
            if ti >= 0 {
                let capable = capable_positions(agents, tasks[ti].required(), agents.len() as int);
                if capable.len() > 1 {
                    lemma_put_existing(s, i, AssignmentView { agent: agents[capable[pick] as int].id@, ..s[i].1 });
                    lemma_capable_positions(agents, tasks[ti].required(), agents.len() as int);
                    let g = capable[pick] as int;
                    assert(agents[g].can_do(tasks[ti].required()));
                    assert forall|q: int|
                        0 <= q < s.len() && (#[trigger] r[q]).1.agent != s[q].1.agent implies exists|g2: int|
                            0 <= g2 < agents.len() && agents[g2].id@ == r[q].1.agent && #[trigger] agents[g2].can_do(
                                tasks[last_task_index(tasks, s[q].0)].required(),
                            ) by {
                        assert(q == i);
                        assert(agents[g].id@ == r[q].1.agent);
                    }
                }
            }
            assert(same_except(s, r, i, i));
        },
        MoveKind::Shift => {
            let (i, shift) = choose|i: int, shift: int|
                0 <= i < s.len() && -10 <= shift <= 10 && r == #[trigger] shifted(s, tasks, i, shift);
            let ti = last_task_index(tasks, s[i].0);
            if ti >= 0 {
                let new_start = shifted_start(s[i].1.start, shift);
                if new_start + tasks[ti].duration_estimate <= tasks[ti].deadline {
                    lemma_put_existing(s, i, AssignmentView { start: new_start as u64, ..s[i].1 });
                    if s[i].1.start <= i64::MAX {
                        let st = s[i].1.start;
                        assert(st as i64 == st) by (bit_vector)
                            requires
                                st <= 0x7fff_ffff_ffff_ffffu64,
                        ;
                    }
                }
            }
            assert(same_except(s, r, i, i));
        },
        MoveKind::Swap => {
            if s.len() < 2 && r == s {
                assert(same_except(s, r, 0, 0));
            } else {
                let (i, j) = choose|i: int, j: int| 0 <= i < s.len() && 0 <= j < s.len() && r == #[trigger] swapped(s, agents, tasks, i, j);
                let t1 = last_task_index(tasks, s[i].0);
                let t2 = last_task_index(tasks, s[j].0);
                let g1 = last_agent_index(agents, s[i].1.agent);
                let g2 = last_agent_index(agents, s[j].1.agent);
                if !(i == j || t1 < 0 || t2 < 0 || g1 < 0 || g2 < 0) && agents[g1].can_do(tasks[t2].required())
                    && agents[g2].can_do(tasks[t1].required()) {
                    let first = put(s, s[i].0, AssignmentView { agent: s[j].1.agent, ..s[i].1 });
                    lemma_put_existing(s, i, AssignmentView { agent: s[j].1.agent, ..s[i].1 });
                    assert(first[j] == s[j]);
                    lemma_put_existing(first, j, AssignmentView { agent: s[i].1.agent, ..s[j].1 });
                }
                law_swap_hands_tasks_to_capable_agents(s, agents, tasks, i, j);
                assert forall|q: int|
                    0 <= q < s.len() && (#[trigger] r[q]).1.agent != s[q].1.agent implies exists|g: int|
                        0 <= g < agents.len() && agents[g].id@ == r[q].1.agent && #[trigger] agents[g].can_do(
                            tasks[last_task_index(tasks, s[q].0)].required(),
                        ) by {
                    let g = choose|g: int|
                        0 <= g < agents.len() && agents[g].id@ == r[q].1.agent && !crate::checker_laws::lacks_a_required_skill(
                            agents[g],
                            tasks[last_task_index(tasks, s[q].0)],
                        );
                    crate::checker_laws::lemma_can_do_iff_no_skill_lacking(agents[g], tasks[last_task_index(tasks, s[q].0)]);
                }
                assert(same_except(s, r, i, j));
            }
        },
    }
}

} // verus!

verus! {

/// A swap hands each of the two exchanged tasks only to an agent able to do
/// it: wherever the agent of an entry changes, the entry's task is known and
/// an agent profile with the new identifier has every skill that task
/// requires.
pub proof fn law_swap_hands_tasks_to_capable_agents(
    s: Seq<(Seq<char>, AssignmentView)>,
    agents: Seq<AgentProfile>,
    tasks: Seq<TaskSpec>,
    i: int,
    j: int,
)
    requires
        crate::idmap::distinct_keys(s),
        0 <= i < s.len(),
        0 <= j < s.len(),
    ensures
        swapped(s, agents, tasks, i, j).len() == s.len(),
        forall|q: int|
            0 <= q < s.len() && (#[trigger] swapped(s, agents, tasks, i, j)[q]).1.agent != s[q].1.agent ==> {
                &&& last_task_index(tasks, s[q].0) >= 0
                &&& exists|g: int|
                    0 <= g < agents.len() && agents[g].id@ == swapped(s, agents, tasks, i, j)[q].1.agent
                        && !crate::checker_laws::lacks_a_required_skill(#[trigger] agents[g], tasks[last_task_index(tasks, s[q].0)])
            },
{
    let r = swapped(s, agents, tasks, i, j);
    let t1 = last_task_index(tasks, s[i].0);
    let t2 = last_task_index(tasks, s[j].0);
    let g1 = last_agent_index(agents, s[i].1.agent);
    let g2 = last_agent_index(agents, s[j].1.agent);
    lemma_last_task_index_bounds(tasks, s[i].0);
    lemma_last_task_index_bounds(tasks, s[j].0);
    lemma_last_agent_index_bounds(agents, s[i].1.agent);
    lemma_last_agent_index_bounds(agents, s[j].1.agent);
    if !(i == j || t1 < 0 || t2 < 0 || g1 < 0 || g2 < 0) && agents[g1].can_do(tasks[t2].required()) && agents[g2].can_do(
        tasks[t1].required(),
    ) {
        let first = put(s, s[i].0, AssignmentView { agent: s[j].1.agent, ..s[i].1 });
        lemma_put_existing(s, i, AssignmentView { agent: s[j].1.agent, ..s[i].1 });
        assert(first[j] == s[j]);
        lemma_put_existing(first, j, AssignmentView { agent: s[i].1.agent, ..s[j].1 });
        crate::checker_laws::lemma_can_do_iff_no_skill_lacking(agents[g1], tasks[t2]);
        crate::checker_laws::lemma_can_do_iff_no_skill_lacking(agents[g2], tasks[t1]);
        assert forall|q: int| 0 <= q < s.len() && (#[trigger] r[q]).1.agent != s[q].1.agent implies {
            &&& last_task_index(tasks, s[q].0) >= 0
            &&& exists|g: int|
                0 <= g < agents.len() && agents[g].id@ == r[q].1.agent && !crate::checker_laws::lacks_a_required_skill(
                    #[trigger] agents[g],
                    tasks[last_task_index(tasks, s[q].0)],
                )
        } by {
            if q == i {
                assert(r[q].1.agent == s[j].1.agent);
                assert(agents[g2].id@ == r[q].1.agent);
            } else {
                assert(q == j);
                assert(r[q].1.agent == s[i].1.agent);
                assert(agents[g1].id@ == r[q].1.agent);
            }
        }
    }
}

} // verus!

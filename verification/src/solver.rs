//! CSP solver with backtracking, forward checking, and AC-3.
//!
//! Tasks are ordered by the number of agents able to do them (fewest first),
//! each task deferred until the tasks its dependencies name are placed. Each
//! task's domain lists (agent, start time) pairs: every capable agent with
//! every candidate start time, agents of larger capacity first. AC-3 then
//! removes the values that no value of a dependency can end before. The
//! search assigns tasks in order, trying the values of each domain that are
//! consistent with the partial schedule, and looks ahead after each
//! assignment (forward checking). Capacity bounds how many of an agent's
//! tasks overlap in time.

use crate::agent::AgentProfile;
use crate::clock::{elapsed, exceeds, longer_than, now, seconds};
use crate::constraint::{ConstraintChecker, Constraints};
use crate::idmap::{distinct_keys, drop_key, has_key, lookup, put, IdMap};
use crate::order::{stable_order, stable_order_of};
use crate::schedule::{all_fit, end_of, AssignmentView, Schedule};
use crate::task::{latest_completion, string_views, task_views, TaskSpec, TaskView};
use std::collections::VecDeque;
use std::time::{Duration, Instant};
use vstd::prelude::*;

verus! {

/// The largest start time any candidate list holds.
pub open spec fn start_time_limit() -> u64 {
    10000
}

/// Number of agents of `agents` able to do task `t`.
pub open spec fn capable_count(t: TaskView, agents: Seq<AgentProfile>) -> nat
    decreases agents.len(),
{
    if agents.len() == 0 {
        0
    } else {
        capable_count(t, agents.drop_last()) + if agents.last().can_do(t.required) {
            1nat
        } else {
            0nat
        }
    }
}

/// The sort keys of the tasks: their numbers of capable agents.
pub open spec fn mrv_keys(tv: Seq<TaskView>, agents: Seq<AgentProfile>) -> Seq<u64> {
    Seq::new(tv.len(), |i: int| capable_count(tv[i], agents) as u64)
}

/// Whether some task of `tv` has identifier `id`.
pub open spec fn names_task(tv: Seq<TaskView>, id: Seq<char>) -> bool {
    exists|m: int| 0 <= m < tv.len() && (#[trigger] tv[m]).id == id
}

/// Whether a task of `tv` at one of the positions `done` has identifier `id`.
pub open spec fn placed_before(tv: Seq<TaskView>, done: Seq<usize>, id: Seq<char>) -> bool {
    exists|m: int| 0 <= m < done.len() && tv[(#[trigger] done[m]) as int].id == id
}

/// Whether every dependency of `t` that names a task of `tv` names one of
/// the tasks at positions `done`.
pub open spec fn ready(tv: Seq<TaskView>, done: Seq<usize>, t: TaskView) -> bool {
    forall|j: int| 0 <= j < t.deps.len() && names_task(tv, #[trigger] t.deps[j]) ==> placed_before(tv, done, t.deps[j])
}

/// Whether `i` is the first position of `rem` holding a ready task.
pub open spec fn is_first_ready(tv: Seq<TaskView>, done: Seq<usize>, rem: Seq<usize>, i: int) -> bool {
    &&& 0 <= i < rem.len()
    &&& ready(tv, done, tv[rem[i] as int])
    &&& forall|j: int| 0 <= j < i ==> !ready(tv, done, #[trigger] tv[rem[j] as int])
}

/// The position of `rem` taken next: the first ready task, or the first task
/// when none is ready.
pub open spec fn pick_index(tv: Seq<TaskView>, done: Seq<usize>, rem: Seq<usize>) -> int {
    if exists|i: int| is_first_ready(tv, done, rem, i) {
        choose|i: int| is_first_ready(tv, done, rem, i)
    } else {
        0
    }
}

/// The positions `rem`, reordered so that each task comes after the tasks its
/// dependencies name: each step takes the first task of `rem` whose
/// dependencies are all among `done` and those already taken, or the first
/// task when there is none.
pub open spec fn ready_first(tv: Seq<TaskView>, done: Seq<usize>, rem: Seq<usize>) -> Seq<usize>
    decreases rem.len(),
{
    if rem.len() == 0 {
        seq![]
    } else {
        let p = pick_index(tv, done, rem);
        if 0 <= p < rem.len() {
            seq![rem[p]] + ready_first(tv, done.push(rem[p]), rem.remove(p))
        } else {
            seq![]
        }
    }
}

/// The order in which the solver places tasks, as positions of `tv`: by
/// ascending number of capable agents (ties in input order), each task
/// deferred until the tasks its dependencies name are placed.
pub open spec fn task_perm(tv: Seq<TaskView>, agents: Seq<AgentProfile>) -> Seq<usize> {
    ready_first(tv, seq![], stable_order_of(mrv_keys(tv, agents)))
}

/// The tasks ordered by ascending number of capable agents, ties in input order.
pub open spec fn mrv_order(tv: Seq<TaskView>, agents: Seq<AgentProfile>) -> Seq<TaskView> {
    stable_order_of(mrv_keys(tv, agents)).map_values(|i: usize| tv[i as int])
}

/// The tasks in the order the solver places them.
pub open spec fn search_order(tv: Seq<TaskView>, agents: Seq<AgentProfile>) -> Seq<TaskView> {
    task_perm(tv, agents).map_values(|i: usize| tv[i as int])
}

pub(crate) proof fn lemma_pick_index(tv: Seq<TaskView>, done: Seq<usize>, rem: Seq<usize>)
    requires
        rem.len() > 0,
    ensures
        0 <= pick_index(tv, done, rem) < rem.len(),
        (exists|i: int| is_first_ready(tv, done, rem, i)) ==> is_first_ready(tv, done, rem, pick_index(tv, done, rem)),
        !(exists|i: int| is_first_ready(tv, done, rem, i)) ==> forall|j: int|
            0 <= j < rem.len() ==> !ready(tv, done, #[trigger] tv[rem[j] as int]),
{
    if !(exists|i: int| is_first_ready(tv, done, rem, i)) {
        assert forall|j: int| 0 <= j < rem.len() implies !ready(tv, done, #[trigger] tv[rem[j] as int]) by {
            if ready(tv, done, tv[rem[j] as int]) {
                lemma_first_ready_exists(tv, done, rem, j);
            }
        }
    }
}

proof fn lemma_first_ready_exists(tv: Seq<TaskView>, done: Seq<usize>, rem: Seq<usize>, j: int)
    requires
        0 <= j < rem.len(),
        ready(tv, done, tv[rem[j] as int]),
    ensures
        exists|i: int| is_first_ready(tv, done, rem, i),
    decreases j,
{
    if forall|k: int| 0 <= k < j ==> !ready(tv, done, #[trigger] tv[rem[k] as int]) {
        assert(is_first_ready(tv, done, rem, j));
    } else {
        let k = choose|k: int| 0 <= k < j && ready(tv, done, #[trigger] tv[rem[k] as int]);
        lemma_first_ready_exists(tv, done, rem, k);
    }
}

proof fn lemma_first_ready_unique(tv: Seq<TaskView>, done: Seq<usize>, rem: Seq<usize>, i: int)
    requires
        is_first_ready(tv, done, rem, i),
    ensures
        pick_index(tv, done, rem) == i,
{
    let c = choose|c: int| is_first_ready(tv, done, rem, c);
    assert(is_first_ready(tv, done, rem, c));
    if c < i {
        assert(!ready(tv, done, tv[rem[c] as int]));
    } else if c > i {
        assert(!ready(tv, done, tv[rem[i] as int]));
    }
}

/// Reordering keeps exactly the positions it is given.
pub(crate) proof fn lemma_ready_first_perm(tv: Seq<TaskView>, done: Seq<usize>, rem: Seq<usize>)
    requires
        rem.no_duplicates(),
    ensures
        ready_first(tv, done, rem).len() == rem.len(),
        ready_first(tv, done, rem).no_duplicates(),
        forall|x: usize| ready_first(tv, done, rem).contains(x) <==> rem.contains(x),
    decreases rem.len(),
{
    if rem.len() > 0 {
        lemma_pick_index(tv, done, rem);
        let p = pick_index(tv, done, rem);
        let x = rem[p];
        let rest = rem.remove(p);
        assert forall|a: int, b: int| 0 <= a < b < rest.len() implies rest[a] != rest[b] by {
            let a2 = if a < p { a } else { a + 1 };
            let b2 = if b < p { b } else { b + 1 };
            assert(rest[a] == rem[a2] && rest[b] == rem[b2]);
        }
        assert(rest.no_duplicates());
        lemma_ready_first_perm(tv, done.push(x), rest);
        let r2 = ready_first(tv, done.push(x), rest);
        let r = ready_first(tv, done, rem);
        assert(r == seq![x] + r2);
        assert forall|y: usize| rest.contains(y) <==> (rem.contains(y) && y != x) by {
            if rest.contains(y) {
                let a = choose|a: int| 0 <= a < rest.len() && rest[a] == y;
                let a2 = if a < p { a } else { a + 1 };
                assert(rem[a2] == y);
                assert(a2 != p);
            }
            if rem.contains(y) && y != x {
                let a = choose|a: int| 0 <= a < rem.len() && rem[a] == y;
                assert(a != p);
                let a2 = if a < p { a } else { a - 1 };
                assert(rest[a2] == y);
            }
        }
        assert forall|y: usize| r.contains(y) <==> rem.contains(y) by {
            if r.contains(y) {
                let a = choose|a: int| 0 <= a < r.len() && r[a] == y;
                if a > 0 {
                    assert(r2[a - 1] == y);
                    assert(r2.contains(y));
                }
            }
            if rem.contains(y) {
                if y == x {
                    assert(r[0] == y);
                } else {
                    assert(r2.contains(y));
                    let a = choose|a: int| 0 <= a < r2.len() && r2[a] == y;
                    assert(r[a + 1] == y);
                }
            }
        }
        assert forall|a: int, b: int| 0 <= a < b < r.len() implies r[a] != r[b] by {
            if a == 0 {
                assert(r[0] == x);
                let y = r2[b - 1];
                assert(r[b] == y);
                assert(r2.contains(y));
                assert(rest.contains(y));
            } else {
                assert(r[a] == r2[a - 1] && r[b] == r2[b - 1]);
            }
        }
    }
}

/// The solver's order lists each position of `tv` once.
pub(crate) proof fn lemma_task_perm(tv: Seq<TaskView>, agents: Seq<AgentProfile>)
    requires
        tv.len() <= usize::MAX,
    ensures
        task_perm(tv, agents).len() == tv.len(),
        task_perm(tv, agents).no_duplicates(),
        forall|q: int| 0 <= q < tv.len() ==> #[trigger] task_perm(tv, agents)[q] < tv.len(),
        forall|i: int| 0 <= i < tv.len() ==> #[trigger] task_perm(tv, agents).contains(i as usize),
{
    let keys = mrv_keys(tv, agents);
    crate::order::lemma_stable_order_in_range(keys);
    crate::order::lemma_stable_order_permutation(keys);
    let sorted = stable_order_of(keys);
    lemma_ready_first_perm(tv, seq![], sorted);
    let r = task_perm(tv, agents);
    assert forall|q: int| 0 <= q < tv.len() implies #[trigger] r[q] < tv.len() by {
        let x = r[q];
        assert(r.contains(x));
        assert(sorted.contains(x));
        let a = choose|a: int| 0 <= a < sorted.len() && sorted[a] == x;
        assert(sorted[a] < keys.len());
    }
    assert forall|i: int| 0 <= i < tv.len() implies #[trigger] r.contains(i as usize) by {
        assert(sorted.contains(i as usize));
    }
}

/// The latest start of a task that still meets its deadline (0 if none does).
pub open spec fn latest_start_of(t: TaskView) -> u64 {
    if t.deadline >= t.duration {
        (t.deadline - t.duration) as u64
    } else {
        0
    }
}

/// The spacing of candidate start times: the duration, kept within 1..=10.
pub open spec fn start_step(t: TaskView) -> u64 {
    if t.duration < 1 {
        1
    } else if t.duration > 10 {
        10
    } else {
        t.duration
    }
}

/// The candidate start times of a task: the multiples of its step from 0 up to
/// its latest start, and no further than `start_time_limit()`.
pub open spec fn start_times(t: TaskView) -> Seq<u64> {
    let latest = latest_start_of(t);
    let limit = if latest < start_time_limit() {
        latest
    } else {
        start_time_limit()
    };
    let step = start_step(t);
    Seq::new((limit / step + 1) as nat, |k: int| (k * step) as u64)
}

/// Position of the first agent with identifier `id`, or -1.
pub open spec fn first_agent_index(agents: Seq<AgentProfile>, id: Seq<char>) -> int
    decreases agents.len(),
{
    if agents.len() == 0 {
        -1
    } else {
        let r = first_agent_index(agents.drop_last(), id);
        if r >= 0 {
            r
        } else if agents.last().id@ == id {
            agents.len() - 1
        } else {
            -1
        }
    }
}

/// The capacity of the first agent with identifier `id`, 0 if there is none.
pub open spec fn capacity_of(agents: Seq<AgentProfile>, id: Seq<char>) -> u32 {
    let i = first_agent_index(agents, id);
    if i >= 0 {
        agents[i].capacity
    } else {
        0
    }
}

/// The (agent, start) pairs of the first `n` agents for task `t`.
pub open spec fn raw_domain(t: TaskView, agents: Seq<AgentProfile>, n: int) -> Seq<(Seq<char>, u64)>
    decreases n,
{
    if n <= 0 {
        seq![]
    } else {
        raw_domain(t, agents, n - 1) + if agents[n - 1].can_do(t.required) {
            start_times(t).map_values(|x: u64| (agents[n - 1].id@, x))
        } else {
            seq![]
        }
    }
}

/// The domain of task `t`: every capable agent with every candidate start
/// time, ordered by descending capacity of the agent, ties in agent order.
pub open spec fn domain_of(t: TaskView, agents: Seq<AgentProfile>) -> Seq<(Seq<char>, u64)> {
    let raw = raw_domain(t, agents, agents.len() as int);
    let keys = raw.map_values(|p: (Seq<char>, u64)| (u32::MAX - capacity_of(agents, p.0)) as u64);
    stable_order_of(keys).map_values(|i: usize| raw[i as int])
}

/// The domains of the first `n` tasks of `order`, keyed by task identifier;
/// a later task replaces the domain of an earlier one with the same identifier.
pub open spec fn domains_of(order: Seq<TaskView>, agents: Seq<AgentProfile>, n: int) -> Seq<(Seq<char>, Seq<(Seq<char>, u64)>)>
    decreases n,
{
    if n <= 0 {
        seq![]
    } else {
        put(domains_of(order, agents, n - 1), order[n - 1].id, domain_of(order[n - 1], agents))
    }
}

/// Result of the solver.
#[derive(Debug)]
pub struct SolverResult {
    /// The found schedule, if any.
    pub schedule: Option<Schedule>,
    /// Number of assignments explored.
    pub nodes_explored: u64,
    /// Time spent solving.
    pub elapsed: Duration,
    /// Whether the solver exhausted its time budget.
    pub timed_out: bool,
}

/// CSP Solver using backtracking with forward checking and AC-3.
pub struct CSPSolver {
    /// Constraints to satisfy.
    pub constraints: Constraints,
    /// Time budget for solving.
    pub time_budget: Duration,
}

pub(crate) proof fn lemma_first_agent_index_bounds(agents: Seq<AgentProfile>, id: Seq<char>)
    ensures
        -1 <= first_agent_index(agents, id) < agents.len(),
        first_agent_index(agents, id) >= 0 ==> agents[first_agent_index(agents, id)].id@ == id,
    decreases agents.len(),
{
    if agents.len() > 0 {
        lemma_first_agent_index_bounds(agents.drop_last(), id);
    }
}

fn find_first_agent(agents: &[AgentProfile], id: &String) -> (r: Option<usize>)
    ensures
        match r {
            Some(i) => i < agents@.len() && first_agent_index(agents@, id@) == i,
            None => first_agent_index(agents@, id@) == -1,
        },
{
    let mut i: usize = 0;
    while i < agents.len()
        invariant
            i <= agents@.len(),
            first_agent_index(agents@.take(i as int), id@) == -1,
        decreases agents@.len() - i,
    {
        assert(agents@.take(i + 1).drop_last() =~= agents@.take(i as int));
        if agents[i].id == *id {
            assert(first_agent_index(agents@.take(i + 1), id@) == i);
            proof {
                lemma_first_prefix(agents@, id@, i as int + 1);
            }
            return Some(i);
        }
        i = i + 1;
    }
    assert(agents@.take(agents@.len() as int) =~= agents@);
    None
}

proof fn lemma_first_prefix(agents: Seq<AgentProfile>, id: Seq<char>, n: int)
    requires
        0 <= n <= agents.len(),
        first_agent_index(agents.take(n), id) >= 0,
    ensures
        first_agent_index(agents, id) == first_agent_index(agents.take(n), id),
    decreases agents.len() - n,
{
    if n < agents.len() {
        let m = n + 1;
        assert(agents.take(m).drop_last() =~= agents.take(n));
        lemma_first_prefix(agents, id, m);
    } else {
        assert(agents.take(n) =~= agents);
    }
}


fn names_task_exec(tasks: &[TaskSpec], id: &String) -> (b: bool)
    ensures
        b == names_task(task_views(tasks@), id@),
{
    let ghost tv = task_views(tasks@);
    let mut m: usize = 0;
    while m < tasks.len()
        invariant
            tv == task_views(tasks@),
            m <= tasks@.len(),
            forall|k: int| 0 <= k < m ==> (#[trigger] tv[k]).id != id@,
        decreases tasks@.len() - m,
    {
        if tasks[m].id == *id {
            assert(tv[m as int].id == id@);
            return true;
        }
        m = m + 1;
    }
    false
}

fn placed_before_exec(tasks: &[TaskSpec], done: &Vec<usize>, id: &String) -> (b: bool)
    requires
        forall|k: int| 0 <= k < done@.len() ==> #[trigger] done@[k] < tasks@.len(),
    ensures
        b == placed_before(task_views(tasks@), done@, id@),
{
    let ghost tv = task_views(tasks@);
    let mut m: usize = 0;
    while m < done.len()
        invariant
            tv == task_views(tasks@),
            forall|k: int| 0 <= k < done@.len() ==> #[trigger] done@[k] < tasks@.len(),
            m <= done@.len(),
            forall|k: int| 0 <= k < m ==> tv[(#[trigger] done@[k]) as int].id != id@,
        decreases done@.len() - m,
    {
        let t = done[m];
        if tasks[t].id == *id {
            assert(tv[done@[m as int] as int].id == id@);
            return true;
        }
        m = m + 1;
    }
    false
}

fn is_ready(tasks: &[TaskSpec], done: &Vec<usize>, t: usize) -> (b: bool)
    requires
        t < tasks@.len(),
        forall|k: int| 0 <= k < done@.len() ==> #[trigger] done@[k] < tasks@.len(),
    ensures
        b == ready(task_views(tasks@), done@, task_views(tasks@)[t as int]),
{
    let ghost tv = task_views(tasks@);
    let task = &tasks[t];
    assert(tv[t as int] == task@);
    let mut j: usize = 0;
    while j < task.dependencies.len()
        invariant
            tv == task_views(tasks@),
            tv[t as int] == task@,
            forall|k: int| 0 <= k < done@.len() ==> #[trigger] done@[k] < tasks@.len(),
            j <= task.dependencies@.len(),
            forall|k: int| 0 <= k < j && names_task(tv, #[trigger] task@.deps[k]) ==> placed_before(tv, done@, task@.deps[k]),
        decreases task.dependencies@.len() - j,
    {
        let dep = &task.dependencies[j];
        assert(task@.deps[j as int] == dep@);
        if names_task_exec(tasks, dep) && !placed_before_exec(tasks, done, dep) {
            return false;
        }
        j = j + 1;
    }
    true
}

fn first_ready(tasks: &[TaskSpec], done: &Vec<usize>, rem: &Vec<usize>) -> (p: usize)
    requires
        rem@.len() > 0,
        forall|k: int| 0 <= k < rem@.len() ==> #[trigger] rem@[k] < tasks@.len(),
        forall|k: int| 0 <= k < done@.len() ==> #[trigger] done@[k] < tasks@.len(),
    ensures
        p == pick_index(task_views(tasks@), done@, rem@),
{
    let ghost tv = task_views(tasks@);
    let mut i: usize = 0;
    while i < rem.len()
        invariant
            tv == task_views(tasks@),
            rem@.len() > 0,
            forall|k: int| 0 <= k < rem@.len() ==> #[trigger] rem@[k] < tasks@.len(),
            forall|k: int| 0 <= k < done@.len() ==> #[trigger] done@[k] < tasks@.len(),
            i <= rem@.len(),
            forall|k: int| 0 <= k < i ==> !ready(tv, done@, #[trigger] tv[rem@[k] as int]),
        decreases rem@.len() - i,
    {
        if is_ready(tasks, done, rem[i]) {
            assert(is_first_ready(tv, done@, rem@, i as int));
            proof {
                lemma_first_ready_unique(tv, done@, rem@, i as int);
            }
            return i;
        }
        i = i + 1;
    }
    assert(!exists|q: int| is_first_ready(tv, done@, rem@, q));
    0
}

/// The positions `sorted`, reordered so that dependencies come first.
fn ready_order(tasks: &[TaskSpec], sorted: Vec<usize>) -> (r: Vec<usize>)
    requires
        forall|k: int| 0 <= k < sorted@.len() ==> #[trigger] sorted@[k] < tasks@.len(),
    ensures
        r@ == ready_first(task_views(tasks@), seq![], sorted@),
{
    let ghost tv = task_views(tasks@);
    let ghost target = ready_first(tv, seq![], sorted@);
    let mut rem = sorted;
    let mut done: Vec<usize> = Vec::new();
    assert(done@ + ready_first(tv, done@, rem@) =~= target);
    while rem.len() > 0
        invariant
            tv == task_views(tasks@),
            forall|k: int| 0 <= k < rem@.len() ==> #[trigger] rem@[k] < tasks@.len(),
            forall|k: int| 0 <= k < done@.len() ==> #[trigger] done@[k] < tasks@.len(),
            done@ + ready_first(tv, done@, rem@) == target,
        decreases rem@.len(),
    {
        let p = first_ready(tasks, &done, &rem);
        proof {
            lemma_pick_index(tv, done@, rem@);
        }
        let ghost old_rem = rem@;
        let ghost old_done = done@;
        let x = rem.remove(p);
        done.push(x);
        proof {
            assert(rem@ == old_rem.remove(p as int));
            assert(ready_first(tv, old_done, old_rem) == seq![x] + ready_first(tv, done@, rem@));
            assert(old_done + (seq![x] + ready_first(tv, done@, rem@)) =~= done@ + ready_first(tv, done@, rem@));
            assert forall|k: int| 0 <= k < rem@.len() implies #[trigger] rem@[k] < tasks@.len() by {
                if k < p {
                    assert(rem@[k] == old_rem[k]);
                } else {
                    assert(rem@[k] == old_rem[k + 1]);
                }
            }
        }
    }
    assert(done@ + Seq::<usize>::empty() =~= done@);
    done
}

impl CSPSolver {
    /// Create a new solver with all hard constraints and a budget of ten seconds.
    pub fn new() -> (s: Self)
        ensures
            s.constraints.capability_match && s.constraints.capacity_limits
                && s.constraints.dependency_ordering && s.constraints.deadline_enforcement,
            s.time_budget == crate::clock::duration_of_secs(10),
    {
        CSPSolver { constraints: Constraints::new(), time_budget: seconds(10) }
    }

    /// Builder: set the constraints.
    pub fn with_constraints(self, constraints: Constraints) -> (s: Self)
        ensures
            s.constraints == constraints,
            s.time_budget == self.time_budget,
    {
        CSPSolver { constraints, ..self }
    }

    /// Builder: set the time budget.
    pub fn with_time_budget(self, budget: Duration) -> (s: Self)
        ensures
            s.constraints == self.constraints,
            s.time_budget == budget,
    {
        CSPSolver { time_budget: budget, ..self }
    }

    fn count_capable(task: &TaskSpec, agents: &[AgentProfile]) -> (n: u64)
        ensures
            n == capable_count(task@, agents@),
    {
        let mut n: u64 = 0;
        let mut i: usize = 0;
        while i < agents.len()
            invariant
                i <= agents@.len(),
                n == capable_count(task@, agents@.take(i as int)),
                n <= i,
            decreases agents@.len() - i,
        {
            assert(agents@.take(i + 1).drop_last() =~= agents@.take(i as int));
            if agents[i].has_capabilities(task.required_capabilities.as_slice()) {
                n = n + 1;
            }
            i = i + 1;
        }
        assert(agents@.take(agents@.len() as int) =~= agents@);
        n
    }

    /// Order tasks by the MRV heuristic: ascending number of agents able to do
    /// them, ties in input order.
    pub fn order_tasks_mrv(&self, tasks: &[TaskSpec], agents: &[AgentProfile]) -> (r: Vec<TaskSpec>)
        ensures
            task_views(r@) == mrv_order(task_views(tasks@), agents@),
    {
        let ghost tv = task_views(tasks@);
        let mut keys: Vec<u64> = Vec::new();
        let mut i: usize = 0;
        while i < tasks.len()
            invariant
                tv == task_views(tasks@),
                i <= tasks@.len(),
                keys@ == mrv_keys(tv, agents@).take(i as int),
            decreases tasks@.len() - i,
        {
            let k = Self::count_capable(&tasks[i], agents);
            keys.push(k);
            assert(keys@ =~= mrv_keys(tv, agents@).take(i + 1));
            i = i + 1;
        }
        assert(keys@ =~= mrv_keys(tv, agents@));
        let perm = stable_order(&keys);
        let ghost sorted = stable_order_of(keys@);
        proof {
            crate::order::lemma_stable_order_in_range(keys@);
        }
        let mut r: Vec<TaskSpec> = Vec::new();
        let mut j: usize = 0;
        while j < perm.len()
            invariant
                tv == task_views(tasks@),
                perm@ == sorted,
                sorted == stable_order_of(mrv_keys(tv, agents@)),
                forall|q: int| 0 <= q < sorted.len() ==> #[trigger] sorted[q] < tasks@.len(),
                j <= perm@.len(),
                task_views(r@) == sorted.take(j as int).map_values(|p: usize| tv[p as int]),
            decreases perm@.len() - j,
        {
            let t = tasks[perm[j]].copy();
            assert(t@ == tv[sorted[j as int] as int]);
            let ghost before = r@;
            r.push(t);
            assert(task_views(r@) =~= task_views(before).push(t@));
            assert(task_views(r@) =~= sorted.take(j + 1).map_values(|p: usize| tv[p as int]));
            j = j + 1;
        }
        assert(sorted.take(sorted.len() as int) =~= sorted);
        r
    }


    /// The order in which the search places tasks: the MRV order, with each
    /// task deferred until the tasks its dependencies name are placed (a task
    /// is taken out of turn only when no remaining task is ready).
    pub fn order_for_search(&self, tasks: &[TaskSpec], agents: &[AgentProfile]) -> (r: Vec<TaskSpec>)
        ensures
            task_views(r@) == search_order(task_views(tasks@), agents@),
    {
        let ghost tv = task_views(tasks@);
        let mut keys: Vec<u64> = Vec::new();
        let mut i: usize = 0;
        while i < tasks.len()
            invariant
                tv == task_views(tasks@),
                i <= tasks@.len(),
                keys@ == mrv_keys(tv, agents@).take(i as int),
            decreases tasks@.len() - i,
        {
            let k = Self::count_capable(&tasks[i], agents);
            keys.push(k);
            assert(keys@ =~= mrv_keys(tv, agents@).take(i + 1));
            i = i + 1;
        }
        assert(keys@ =~= mrv_keys(tv, agents@));
        let by_mrv = stable_order(&keys);
        proof {
            crate::order::lemma_stable_order_in_range(keys@);
        }
        let perm = ready_order(tasks, by_mrv);
        let ghost sorted = task_perm(tv, agents@);
        proof {
            lemma_task_perm(tv, agents@);
        }
        let mut r: Vec<TaskSpec> = Vec::new();
        let mut j: usize = 0;
        while j < perm.len()
            invariant
                tv == task_views(tasks@),
                perm@ == sorted,
                sorted == task_perm(tv, agents@),
                sorted.len() == tasks@.len(),
                forall|q: int| 0 <= q < sorted.len() ==> #[trigger] sorted[q] < tasks@.len(),
                j <= perm@.len(),
                task_views(r@) == sorted.take(j as int).map_values(|p: usize| tv[p as int]),
            decreases perm@.len() - j,
        {
            let t = tasks[perm[j]].copy();
            assert(t@ == tv[sorted[j as int] as int]);
            let ghost before = r@;
            r.push(t);
            assert(task_views(r@) =~= task_views(before).push(t@));
            assert(task_views(r@) =~= sorted.take(j + 1).map_values(|p: usize| tv[p as int]));
            j = j + 1;
        }
        assert(sorted.take(sorted.len() as int) =~= sorted);
        r
    }
}


proof fn lemma_start_count(limit: int, step: int, k: int)
    requires
        step >= 1,
        limit >= 0,
        k >= 1,
        (k - 1) * step <= limit,
        k * step > limit,
    ensures
        k == limit / step + 1,
{
    assert(k - 1 == limit / step) by (nonlinear_arith)
        requires
            step >= 1,
            limit >= 0,
            (k - 1) * step <= limit,
            k * step > limit,
    ;
}

impl CSPSolver {
    /// The candidate start times of a task: 0, then every step (its duration
    /// kept within 1..=10) up to its latest start, no further than 10000.
    pub fn possible_start_times(&self, task: &TaskSpec, _schedule: &Schedule, _all_tasks: &[TaskSpec]) -> (times: Vec<u64>)
        ensures
            times@ == start_times(task@),
    {
        let latest = task.deadline.saturating_sub(task.duration_estimate);
        let step: u64 = if task.duration_estimate < 1 {
            1
        } else if task.duration_estimate > 10 {
            10
        } else {
            task.duration_estimate
        };
        let ghost limit: int = if latest < 10000 { latest as int } else { 10000 };
        let mut times: Vec<u64> = Vec::new();
        let mut t: u64 = 0;
        let ghost mut k: int = 0;
        while t <= latest
            invariant_except_break
                t <= 10000 || k == 0,
            invariant
                step == start_step(task@),
                latest == latest_start_of(task@),
                limit == (if latest < 10000 { latest as int } else { 10000int }),
                1 <= step <= 10,
                t == k * step,
                k >= 0,
                k >= 1 ==> (k - 1) * step <= limit,
                times@ =~= Seq::new(k as nat, |j: int| (j * step) as u64),
            ensures
                k >= 1,
                (k - 1) * step <= limit,
                k * step > limit,
                times@ =~= Seq::new(k as nat, |j: int| (j * step) as u64),
            decreases 10001 + step - t,
        {
            times.push(t);
            proof {
                assert(k * step <= limit);
                assert((k + 1) * step == k * step + step) by (nonlinear_arith);
            }
            t = t + step;
            proof {
                k = k + 1;
            }
            if t > 10000 {
                break;
            }
        }
        proof {
            lemma_start_count(limit, step as int, k);
        }
        if times.len() == 0 {
            times.push(0);
        }
        times
    }

    /// The domain of one task: every capable agent with every candidate start
    /// time, agents of larger capacity first.
    pub fn task_domain(&self, task: &TaskSpec, agents: &[AgentProfile], all_tasks: &[TaskSpec]) -> (d: Vec<(String, u64)>)
        ensures
            d.deep_view() == domain_of(task@, agents@),
    {
        let empty = Schedule::new();
        let times = self.possible_start_times(task, &empty, all_tasks);
        let mut raw: Vec<(String, u64)> = Vec::new();
        let mut i: usize = 0;
        while i < agents.len()
            invariant
                times@ == start_times(task@),
                i <= agents@.len(),
                raw.deep_view() == raw_domain(task@, agents@, i as int),
            decreases agents@.len() - i,
        {
            let ghost before = raw.deep_view();
            let agent = &agents[i];
            if agent.has_capabilities(task.required_capabilities.as_slice()) {
                let mut j: usize = 0;
                while j < times.len()
                    invariant
                        times@ == start_times(task@),
                        i < agents@.len(),
                        agent == agents@[i as int],
                        j <= times@.len(),
                        raw.deep_view() == before + times@.take(j as int).map_values(|x: u64| (agents@[i as int].id@, x)),
                    decreases times@.len() - j,
                {
                    let ghost before_push = raw.deep_view();
                    let id = agent.id.clone();
                    raw.push((id, times[j]));
                    assert(raw@[raw@.len() - 1].0@ == agents@[i as int].id@);
                    assert(raw.deep_view() =~= before_push.push((agents@[i as int].id@, times@[j as int])));
                    assert(raw.deep_view() =~= before + times@.take(j + 1).map_values(|x: u64| (agents@[i as int].id@, x)));
                    j = j + 1;
                }
                assert(times@.take(times@.len() as int) =~= times@);
            }
            assert(raw.deep_view() =~= raw_domain(task@, agents@, i + 1));
            i = i + 1;
        }
        let ghost rv = raw.deep_view();
        let mut keys: Vec<u64> = Vec::new();
        let mut q: usize = 0;
        while q < raw.len()
            invariant
                rv == raw.deep_view(),
                q <= raw@.len(),
                keys@ == rv.map_values(|p: (Seq<char>, u64)| (u32::MAX - capacity_of(agents@, p.0)) as u64).take(q as int),
            decreases raw@.len() - q,
        {
            proof {
                lemma_first_agent_index_bounds(agents@, raw@[q as int].0@);
            }
            let cap: u32 = match find_first_agent(agents, &raw[q].0) {
                Some(a) => agents[a].capacity,
                None => 0,
            };
            keys.push((u32::MAX - cap) as u64);
            assert(keys@ =~= rv.map_values(|p: (Seq<char>, u64)| (u32::MAX - capacity_of(agents@, p.0)) as u64).take(q + 1));
            q = q + 1;
        }
        let ghost kv = rv.map_values(|p: (Seq<char>, u64)| (u32::MAX - capacity_of(agents@, p.0)) as u64);
        assert(keys@ =~= kv);
        let perm = stable_order(&keys);
        proof {
            crate::order::lemma_stable_order_in_range(keys@);
        }
        let mut d: Vec<(String, u64)> = Vec::new();
        let mut m: usize = 0;
        while m < perm.len()
            invariant
                rv == raw.deep_view(),
                perm@ == stable_order_of(kv),
                kv.len() == rv.len(),
                forall|z: int| 0 <= z < perm@.len() ==> #[trigger] perm@[z] < rv.len(),
                m <= perm@.len(),
                d.deep_view() == perm@.take(m as int).map_values(|z: usize| rv[z as int]),
            decreases perm@.len() - m,
        {
            let e = &raw[perm[m]];
            let ghost before_push = d.deep_view();
            assert(e.0@ == rv[perm@[m as int] as int].0 && e.1 == rv[perm@[m as int] as int].1);
            d.push((e.0.clone(), e.1));
            assert(d.deep_view() =~= before_push.push(rv[perm@[m as int] as int]));
            assert(d.deep_view() =~= perm@.take(m + 1).map_values(|z: usize| rv[z as int]));
            m = m + 1;
        }
        assert(perm@.take(perm@.len() as int) =~= perm@);
        d
    }

    /// The domains of the tasks of `order`, keyed by task identifier.
    pub fn build_domains(&self, order: &[TaskSpec], agents: &[AgentProfile], all_tasks: &[TaskSpec]) -> (domains: IdMap<Vec<(String, u64)>>)
        ensures
            domains@ == domains_of(task_views(order@), agents@, order@.len() as int),
    {
        let mut domains: IdMap<Vec<(String, u64)>> = IdMap::new();
        let mut i: usize = 0;
        while i < order.len()
            invariant
                i <= order@.len(),
                domains@ == domains_of(task_views(order@), agents@, i as int),
            decreases order@.len() - i,
        {
            let d = self.task_domain(&order[i], agents, all_tasks);
            domains.insert(order[i].id.clone(), d);
            i = i + 1;
        }
        domains
    }
}

fn find_first_task(tasks: &[TaskSpec], id: &String) -> (r: Option<usize>)
    ensures
        match r {
            Some(i) => is_first_task(task_views(tasks@), id@, i as int),
            None => forall|i: int| 0 <= i < tasks@.len() ==> #[trigger] tasks@[i].id@ != id@,
        },
{
    let mut i: usize = 0;
    while i < tasks.len()
        invariant
            i <= tasks@.len(),
            forall|j: int| 0 <= j < i ==> #[trigger] tasks@[j].id@ != id@,
        decreases tasks@.len() - i,
    {
        if tasks[i].id == *id {
            return Some(i);
        }
        i = i + 1;
    }
    None
}

fn contains_string(v: &Vec<String>, s: &String) -> (b: bool)
    ensures
        b == string_views(v@).contains(s@),
{
    let mut i: usize = 0;
    while i < v.len()
        invariant
            i <= v@.len(),
            forall|j: int| 0 <= j < i ==> #[trigger] v@[j]@ != s@,
        decreases v@.len() - i,
    {
        if v[i] == *s {
            assert(string_views(v@)[i as int] == s@);
            return true;
        }
        i = i + 1;
    }
    proof {
        if string_views(v@).contains(s@) {
            let j = choose|j: int| 0 <= j < string_views(v@).len() && string_views(v@)[j] == s@;
            assert(v@[j]@ == s@);
        }
    }
    false
}

/// Domains keyed by task identifier.
pub type DomainsView = Seq<(Seq<char>, Seq<(Seq<char>, u64)>)>;

/// Whether `i` is the first position of `tv` holding a task with identifier `id`.
pub open spec fn is_first_task(tv: Seq<TaskView>, id: Seq<char>, i: int) -> bool {
    &&& 0 <= i < tv.len()
    &&& tv[i].id == id
    &&& forall|j: int| 0 <= j < i ==> (#[trigger] tv[j]).id != id
}

/// Position of the first task of `tv` with identifier `id`, or -1.
pub open spec fn first_task_index(tv: Seq<TaskView>, id: Seq<char>) -> int {
    if exists|i: int| is_first_task(tv, id, i) {
        choose|i: int| is_first_task(tv, id, i)
    } else {
        -1
    }
}

/// Whether some value of `dj`, a domain of a task lasting `dur`, ends no later
/// than the start of value `v`.
pub open spec fn supported(v: (Seq<char>, u64), dj: Seq<(Seq<char>, u64)>, dur: u64) -> bool {
    exists|k: int| 0 <= k < dj.len() && (#[trigger] dj[k]).1 + dur <= v.1
}

/// The values among the first `n` of `di` that `dj` supports, in order.
pub open spec fn supported_values(di: Seq<(Seq<char>, u64)>, dj: Seq<(Seq<char>, u64)>, dur: u64, n: int) -> Seq<(Seq<char>, u64)>
    decreases n,
{
    if n <= 0 {
        seq![]
    } else {
        let rest = supported_values(di, dj, dur, n - 1);
        if supported(di[n - 1], dj, dur) {
            rest.push(di[n - 1])
        } else {
            rest
        }
    }
}

/// The revision of the arc from task `xi` to task `xj` (the first tasks of
/// `tv` with those identifiers): when `xj` is a dependency of `xi`, the values
/// of `xi` that no value of `xj` can end before are removed. The flag tells
/// whether anything was removed.
pub open spec fn revise_spec(tv: Seq<TaskView>, d: DomainsView, xi: Seq<char>, xj: Seq<char>) -> (DomainsView, bool) {
    let a = first_task_index(tv, xi);
    let b = first_task_index(tv, xj);
    if a >= 0 && b >= 0 && tv[a].deps.contains(xj) {
        match (lookup(d, xi), lookup(d, xj)) {
            (Some(di), Some(dj)) => {
                let kept = supported_values(di, dj, tv[b].duration, di.len() as int);
                if kept.len() < di.len() {
                    (put(d, xi, kept), true)
                } else {
                    (d, false)
                }
            },
            _ => (d, false),
        }
    } else {
        (d, false)
    }
}

/// One pass over the arcs between tasks with different identifiers, from the
/// pair of positions (`a`, `b`) on; the flag records whether any revision
/// removed a value.
pub open spec fn ac_pass(tv: Seq<TaskView>, d: DomainsView, a: int, b: int, changed: bool) -> (DomainsView, bool)
    decreases tv.len() - a, tv.len() - b,
{
    if a < 0 || a >= tv.len() || b < 0 {
        (d, changed)
    } else if b >= tv.len() {
        ac_pass(tv, d, a + 1, 0, changed)
    } else if tv[a].id != tv[b].id {
        let r = revise_spec(tv, d, tv[a].id, tv[b].id);
        ac_pass(tv, r.0, a, b + 1, changed || r.1)
    } else {
        ac_pass(tv, d, a, b + 1, changed)
    }
}

/// Passes over all arcs, repeated while one removes a value (at most `fuel`).
pub open spec fn ac_fix(tv: Seq<TaskView>, d: DomainsView, fuel: nat) -> DomainsView
    decreases fuel,
{
    if fuel == 0 {
        d
    } else {
        let r = ac_pass(tv, d, 0, 0, false);
        if r.1 {
            ac_fix(tv, r.0, (fuel - 1) as nat)
        } else {
            r.0
        }
    }
}

/// The number of values over all domains.
pub open spec fn total_size(d: DomainsView) -> nat
    decreases d.len(),
{
    if d.len() == 0 {
        0
    } else {
        total_size(d.drop_last()) + d.last().1.len()
    }
}

/// The domains made arc consistent: no dependency arc can remove a value.
pub open spec fn ac_domains(tv: Seq<TaskView>, d: DomainsView) -> DomainsView {
    ac_fix(tv, d, total_size(d) + 1)
}

/// Whether every value kept for a key of `d` was a value for that key in `d0`.
pub open spec fn domains_within(d: DomainsView, d0: DomainsView) -> bool {
    &&& distinct_keys(d)
    &&& forall|k: Seq<char>| #[trigger] has_key(d, k) <==> has_key(d0, k)
    &&& forall|k: Seq<char>, v: (Seq<char>, u64)|
        #![trigger lookup(d, k), lookup(d0, k).unwrap().contains(v)]
        (lookup(d, k) matches Some(dk) && dk.contains(v)) ==> lookup(d0, k).unwrap().contains(v)
}

proof fn lemma_first_task_unique(tv: Seq<TaskView>, id: Seq<char>, i: int)
    requires
        is_first_task(tv, id, i),
    ensures
        first_task_index(tv, id) == i,
{
    let c = choose|c: int| is_first_task(tv, id, c);
    assert(is_first_task(tv, id, c));
    if c < i {
        assert(tv[c].id != id);
    } else if c > i {
        assert(tv[i].id != id);
    }
}

proof fn lemma_first_task_none(tv: Seq<TaskView>, id: Seq<char>)
    requires
        forall|i: int| 0 <= i < tv.len() ==> (#[trigger] tv[i]).id != id,
    ensures
        first_task_index(tv, id) == -1,
{
}

proof fn lemma_supported_values(di: Seq<(Seq<char>, u64)>, dj: Seq<(Seq<char>, u64)>, dur: u64, n: int)
    requires
        0 <= n <= di.len(),
    ensures
        supported_values(di, dj, dur, n).len() <= n,
        supported_values(di, dj, dur, n).len() == n ==> forall|m: int| 0 <= m < n ==> supported(#[trigger] di[m], dj, dur),
        forall|v: (Seq<char>, u64)| #[trigger] supported_values(di, dj, dur, n).contains(v) ==> di.take(n).contains(v) && supported(v, dj, dur),
    decreases n,
{
    if n > 0 {
        lemma_supported_values(di, dj, dur, n - 1);
        let rest = supported_values(di, dj, dur, n - 1);
        let r = supported_values(di, dj, dur, n);
        assert forall|v: (Seq<char>, u64)| #[trigger] r.contains(v) implies di.take(n).contains(v) && supported(v, dj, dur) by {
            let q = choose|q: int| 0 <= q < r.len() && r[q] == v;
            if q < rest.len() {
                assert(rest[q] == v);
                assert(rest.contains(v));
                let w = choose|w: int| 0 <= w < n - 1 && #[trigger] di.take(n - 1)[w] == v;
                assert(di.take(n)[w] == v);
            } else {
                assert(di.take(n)[n - 1] == v);
            }
        }
    }
}

proof fn lemma_size_put(d: DomainsView, k: Seq<char>, v: Seq<(Seq<char>, u64)>)
    requires
        has_key(d, k),
    ensures
        total_size(put(d, k, v)) + lookup(d, k).unwrap().len() == total_size(d) + v.len(),
{
    let i = crate::idmap::index_of(d, k);
    lemma_size_update(d, i, (k, v));
}

proof fn lemma_size_update(d: DomainsView, i: int, x: (Seq<char>, Seq<(Seq<char>, u64)>))
    requires
        0 <= i < d.len(),
    ensures
        total_size(d.update(i, x)) + d[i].1.len() == total_size(d) + x.1.len(),
    decreases d.len(),
{
    let u = d.update(i, x);
    if i < d.len() - 1 {
        assert(u.drop_last() =~= d.drop_last().update(i, x));
        lemma_size_update(d.drop_last(), i, x);
    } else {
        assert(u.drop_last() =~= d.drop_last());
    }
}

proof fn lemma_revise_spec(tv: Seq<TaskView>, d: DomainsView, xi: Seq<char>, xj: Seq<char>)
    requires
        distinct_keys(d),
    ensures
        domains_within(revise_spec(tv, d, xi, xj).0, d),
        revise_spec(tv, d, xi, xj).1 ==> total_size(revise_spec(tv, d, xi, xj).0) < total_size(d),
        !revise_spec(tv, d, xi, xj).1 ==> revise_spec(tv, d, xi, xj).0 == d,
{
    let a = first_task_index(tv, xi);
    let b = first_task_index(tv, xj);
    lemma_within_refl(d);
    if a >= 0 && b >= 0 && tv[a].deps.contains(xj) {
        match (lookup(d, xi), lookup(d, xj)) {
            (Some(di), Some(dj)) => {
                let kept = supported_values(di, dj, tv[b].duration, di.len() as int);
                lemma_supported_values(di, dj, tv[b].duration, di.len() as int);
                if kept.len() < di.len() {
                    let d2 = put(d, xi, kept);
                    crate::idmap::lemma_put_distinct(d, xi, kept);
                    lemma_size_put(d, xi, kept);
                    assert(di.take(di.len() as int) =~= di);
                    assert forall|k: Seq<char>, v: (Seq<char>, u64)|
                        (lookup(d2, k) matches Some(dk) && dk.contains(v)) implies #[trigger] lookup(d, k).unwrap().contains(v) by {
                        if k == xi {
                            assert(kept.contains(v));
                        }
                    }
                    assert forall|k: Seq<char>| #[trigger] has_key(d2, k) <==> has_key(d, k) by {
                        assert(has_key(d, xi));
                    }
                }
            },
            _ => {},
        }
    }
}

proof fn lemma_within_refl(d: DomainsView)
    requires
        distinct_keys(d),
    ensures
        domains_within(d, d),
{
}

proof fn lemma_within_trans(d2: DomainsView, d1: DomainsView, d0: DomainsView)
    requires
        domains_within(d2, d1),
        domains_within(d1, d0),
    ensures
        domains_within(d2, d0),
{
    assert forall|k: Seq<char>, v: (Seq<char>, u64)|
        (lookup(d2, k) matches Some(dk) && dk.contains(v)) implies #[trigger] lookup(d0, k).unwrap().contains(v) by {
        assert(lookup(d1, k).unwrap().contains(v));
        assert(has_key(d1, k));
    }
}

proof fn lemma_ac_pass(tv: Seq<TaskView>, d: DomainsView, a: int, b: int, changed: bool)
    requires
        distinct_keys(d),
    ensures
        domains_within(ac_pass(tv, d, a, b, changed).0, d),
        ac_pass(tv, d, a, b, changed).1 ==> changed || total_size(ac_pass(tv, d, a, b, changed).0) < total_size(d),
        total_size(ac_pass(tv, d, a, b, changed).0) <= total_size(d),
        !ac_pass(tv, d, a, b, changed).1 ==> ac_pass(tv, d, a, b, changed).0 == d,
    decreases tv.len() - a, tv.len() - b,
{
    lemma_within_refl(d);
    if a < 0 || a >= tv.len() || b < 0 {
    } else if b >= tv.len() {
        lemma_ac_pass(tv, d, a + 1, 0, changed);
    } else if tv[a].id != tv[b].id {
        let r = revise_spec(tv, d, tv[a].id, tv[b].id);
        lemma_revise_spec(tv, d, tv[a].id, tv[b].id);
        lemma_ac_pass(tv, r.0, a, b + 1, changed || r.1);
        lemma_within_trans(ac_pass(tv, r.0, a, b + 1, changed || r.1).0, r.0, d);
        if changed || r.1 {
            lemma_ac_pass_true(tv, r.0, a, b + 1);
        }
    } else {
        lemma_ac_pass(tv, d, a, b + 1, changed);
    }
    if changed {
        lemma_ac_pass_true(tv, d, a, b);
    }
}

/// Arc consistency of the passes' result: when a whole pass removes
/// nothing, no arc can remove anything.
proof fn lemma_ac_pass_stable(tv: Seq<TaskView>, d: DomainsView, a: int, b: int)
    requires
        distinct_keys(d),
        0 <= a,
        0 <= b,
        !ac_pass(tv, d, a, b, false).1,
    ensures
        forall|x: int, y: int|
            ((a < x < tv.len() && 0 <= y < tv.len()) || (x == a && a < tv.len() && b <= y < tv.len())) && tv[x].id != tv[y].id
                ==> !(#[trigger] revise_spec(tv, d, tv[x].id, tv[y].id)).1,
    decreases tv.len() - a, tv.len() - b,
{
    if a >= tv.len() {
    } else if b >= tv.len() {
        lemma_ac_pass_stable(tv, d, a + 1, 0);
        assert forall|x: int, y: int|
            ((a < x < tv.len() && 0 <= y < tv.len()) || (x == a && a < tv.len() && b <= y < tv.len())) && tv[x].id != tv[y].id
                implies !(#[trigger] revise_spec(tv, d, tv[x].id, tv[y].id)).1 by {
            if x == a + 1 {
            }
        }
    } else if tv[a].id != tv[b].id {
        let r = revise_spec(tv, d, tv[a].id, tv[b].id);
        lemma_revise_spec(tv, d, tv[a].id, tv[b].id);
        assert(ac_pass(tv, d, a, b, false) == ac_pass(tv, r.0, a, b + 1, false || r.1));
        if r.1 {
            lemma_ac_pass_true(tv, r.0, a, b + 1);
        } else {
            assert(r.0 == d);
            lemma_ac_pass_stable(tv, d, a, b + 1);
            assert forall|x: int, y: int|
                ((a < x < tv.len() && 0 <= y < tv.len()) || (x == a && a < tv.len() && b <= y < tv.len())) && tv[x].id != tv[y].id
                    implies !(#[trigger] revise_spec(tv, d, tv[x].id, tv[y].id)).1 by {
                if x == a && y == b {
                    assert(!r.1);
                }
            }
        }
    } else {
        lemma_ac_pass_stable(tv, d, a, b + 1);
        assert forall|x: int, y: int|
            ((a < x < tv.len() && 0 <= y < tv.len()) || (x == a && a < tv.len() && b <= y < tv.len())) && tv[x].id != tv[y].id
                implies !(#[trigger] revise_spec(tv, d, tv[x].id, tv[y].id)).1 by {
            if x == a && y == b {
                assert(tv[x].id == tv[y].id);
            }
        }
    }
}

proof fn lemma_ac_pass_true(tv: Seq<TaskView>, d: DomainsView, a: int, b: int)
    ensures
        ac_pass(tv, d, a, b, true).1,
    decreases tv.len() - a, tv.len() - b,
{
    if a < 0 || a >= tv.len() || b < 0 {
    } else if b >= tv.len() {
        lemma_ac_pass_true(tv, d, a + 1, 0);
    } else if tv[a].id != tv[b].id {
        lemma_ac_pass_true(tv, revise_spec(tv, d, tv[a].id, tv[b].id).0, a, b + 1);
    } else {
        lemma_ac_pass_true(tv, d, a, b + 1);
    }
}

/// What the repeated passes give: values kept from the domains they start
/// from, and, when the fuel outlasts the values, arc consistency.
proof fn lemma_ac_fix(tv: Seq<TaskView>, d: DomainsView, fuel: nat)
    requires
        distinct_keys(d),
        total_size(d) < fuel,
    ensures
        domains_within(ac_fix(tv, d, fuel), d),
        forall|x: int, y: int|
            0 <= x < tv.len() && 0 <= y < tv.len() && tv[x].id != tv[y].id
                ==> !(#[trigger] revise_spec(tv, ac_fix(tv, d, fuel), tv[x].id, tv[y].id)).1,
    decreases fuel,
{
    let r = ac_pass(tv, d, 0, 0, false);
    lemma_ac_pass(tv, d, 0, 0, false);
    if r.1 {
        lemma_ac_fix(tv, r.0, (fuel - 1) as nat);
        lemma_within_trans(ac_fix(tv, r.0, (fuel - 1) as nat), r.0, d);
    } else {
        lemma_ac_pass_stable(tv, d, 0, 0);
    }
}

/// Whether dependency `xj` of the task with identifier `k` supports value `v`
/// nowhere in `d`: `xj` names a task, is a dependency of the first task named
/// `k`, has a domain in `d`, and none of its values ends by `v`'s start.
pub open spec fn unsupported_by(tv: Seq<TaskView>, d: DomainsView, k: Seq<char>, xj: Seq<char>, v: (Seq<char>, u64)) -> bool {
    &&& first_task_index(tv, k) >= 0
    &&& first_task_index(tv, xj) >= 0
    &&& tv[first_task_index(tv, k)].deps.contains(xj)
    &&& lookup(d, xj) is Some
    &&& !supported(v, lookup(d, xj).unwrap(), tv[first_task_index(tv, xj)].duration)
}

/// Whether every value of `d0` missing from `d` has, in `d`, a dependency
/// that supports it nowhere.
pub open spec fn removed_unsupported(tv: Seq<TaskView>, d0: DomainsView, d: DomainsView) -> bool {
    forall|k: Seq<char>, v: (Seq<char>, u64)|
        #![trigger lookup(d0, k).unwrap().contains(v), lookup(d, k)]
        lookup(d0, k) is Some && lookup(d0, k).unwrap().contains(v) && !lookup(d, k).unwrap().contains(v)
            ==> exists|xj: Seq<char>| #[trigger] unsupported_by(tv, d, k, xj, v)
}

proof fn lemma_unsupported_shrinks(tv: Seq<TaskView>, d2: DomainsView, d1: DomainsView, k: Seq<char>, xj: Seq<char>, v: (Seq<char>, u64))
    requires
        domains_within(d2, d1),
        unsupported_by(tv, d1, k, xj, v),
    ensures
        unsupported_by(tv, d2, k, xj, v),
{
    assert(has_key(d1, xj));
    assert(has_key(d2, xj));
    let dur = tv[first_task_index(tv, xj)].duration;
    if supported(v, lookup(d2, xj).unwrap(), dur) {
        let dj2 = lookup(d2, xj).unwrap();
        let w = choose|w: int| 0 <= w < dj2.len() && (#[trigger] dj2[w]).1 + dur <= v.1;
        assert(dj2.contains(dj2[w]));
        assert(lookup(d1, xj).unwrap().contains(dj2[w]));
        let w1 = choose|w1: int| 0 <= w1 < lookup(d1, xj).unwrap().len() && lookup(d1, xj).unwrap()[w1] == dj2[w];
        assert(supported(v, lookup(d1, xj).unwrap(), dur));
    }
}

proof fn lemma_removed_trans(tv: Seq<TaskView>, d0: DomainsView, d1: DomainsView, d2: DomainsView)
    requires
        domains_within(d1, d0),
        domains_within(d2, d1),
        removed_unsupported(tv, d0, d1),
        removed_unsupported(tv, d1, d2),
    ensures
        removed_unsupported(tv, d0, d2),
{
    assert forall|k: Seq<char>, v: (Seq<char>, u64)|
        lookup(d0, k) is Some && lookup(d0, k).unwrap().contains(v) && !#[trigger] lookup(d2, k).unwrap().contains(v)
            implies exists|xj: Seq<char>| #[trigger] unsupported_by(tv, d2, k, xj, v) by {
        assert(has_key(d0, k) && has_key(d1, k) && has_key(d2, k));
        if lookup(d1, k).unwrap().contains(v) {
            assert(lookup(d1, k) is Some);
        } else {
            let xj = choose|xj: Seq<char>| #[trigger] unsupported_by(tv, d1, k, xj, v);
            lemma_unsupported_shrinks(tv, d2, d1, k, xj, v);
        }
    }
}

proof fn lemma_supported_kept(di: Seq<(Seq<char>, u64)>, dj: Seq<(Seq<char>, u64)>, dur: u64, n: int)
    requires
        0 <= n <= di.len(),
    ensures
        forall|m: int| 0 <= m < n && supported(#[trigger] di[m], dj, dur) ==> supported_values(di, dj, dur, n).contains(di[m]),
    decreases n,
{
    if n > 0 {
        lemma_supported_kept(di, dj, dur, n - 1);
        let rest = supported_values(di, dj, dur, n - 1);
        let r = supported_values(di, dj, dur, n);
        assert forall|m: int| 0 <= m < n && supported(#[trigger] di[m], dj, dur) implies r.contains(di[m]) by {
            if m < n - 1 {
                let q = choose|q: int| 0 <= q < rest.len() && rest[q] == di[m];
                assert(r[q] == di[m]);
            } else {
                assert(r[r.len() - 1] == di[m]);
            }
        }
    }
}

proof fn lemma_revise_removed(tv: Seq<TaskView>, d: DomainsView, xi: Seq<char>, xj: Seq<char>)
    requires
        distinct_keys(d),
    ensures
        removed_unsupported(tv, d, revise_spec(tv, d, xi, xj).0),
{
    let r = revise_spec(tv, d, xi, xj);
    lemma_revise_spec(tv, d, xi, xj);
    if r.1 {
        let di = lookup(d, xi).unwrap();
        let dj = lookup(d, xj).unwrap();
        let b = first_task_index(tv, xj);
        let dur = tv[b].duration;
        let kept = supported_values(di, dj, dur, di.len() as int);
        lemma_supported_kept(di, dj, dur, di.len() as int);
        crate::idmap::lemma_put_distinct(d, xi, kept);
        assert forall|k: Seq<char>, v: (Seq<char>, u64)|
            lookup(d, k) is Some && lookup(d, k).unwrap().contains(v) && !#[trigger] lookup(r.0, k).unwrap().contains(v)
                implies exists|x: Seq<char>| #[trigger] unsupported_by(tv, r.0, k, x, v) by {
            if k != xi {
                assert(lookup(r.0, k) == lookup(d, k));
            } else {
                assert(lookup(r.0, k) == Some(kept));
                let m = choose|m: int| 0 <= m < di.len() && di[m] == v;
                assert(!supported(v, dj, dur));
                assert(unsupported_by(tv, d, k, xj, v));
                lemma_unsupported_shrinks(tv, r.0, d, k, xj, v);
            }
        }
    } else {
        assert forall|k: Seq<char>, v: (Seq<char>, u64)|
            lookup(d, k) is Some && lookup(d, k).unwrap().contains(v) && !#[trigger] lookup(r.0, k).unwrap().contains(v)
                implies exists|x: Seq<char>| #[trigger] unsupported_by(tv, r.0, k, x, v) by {
        }
    }
}

proof fn lemma_pass_removed(tv: Seq<TaskView>, d: DomainsView, a: int, b: int, changed: bool)
    requires
        distinct_keys(d),
    ensures
        removed_unsupported(tv, d, ac_pass(tv, d, a, b, changed).0),
    decreases tv.len() - a, tv.len() - b,
{
    if a < 0 || a >= tv.len() || b < 0 {
        lemma_removed_refl(tv, d);
    } else if b >= tv.len() {
        lemma_pass_removed(tv, d, a + 1, 0, changed);
    } else if tv[a].id != tv[b].id {
        let r = revise_spec(tv, d, tv[a].id, tv[b].id);
        lemma_revise_spec(tv, d, tv[a].id, tv[b].id);
        lemma_revise_removed(tv, d, tv[a].id, tv[b].id);
        lemma_pass_removed(tv, r.0, a, b + 1, changed || r.1);
        lemma_ac_pass(tv, r.0, a, b + 1, changed || r.1);
        lemma_removed_trans(tv, d, r.0, ac_pass(tv, r.0, a, b + 1, changed || r.1).0);
    } else {
        lemma_pass_removed(tv, d, a, b + 1, changed);
    }
}

proof fn lemma_removed_refl(tv: Seq<TaskView>, d: DomainsView)
    ensures
        removed_unsupported(tv, d, d),
{
}

proof fn lemma_fix_removed(tv: Seq<TaskView>, d: DomainsView, fuel: nat)
    requires
        distinct_keys(d),
    ensures
        removed_unsupported(tv, d, ac_fix(tv, d, fuel)),
    decreases fuel,
{
    if fuel == 0 {
        lemma_removed_refl(tv, d);
    } else {
        let r = ac_pass(tv, d, 0, 0, false);
        lemma_pass_removed(tv, d, 0, 0, false);
        lemma_ac_pass(tv, d, 0, 0, false);
        if r.1 {
            lemma_fix_removed(tv, r.0, (fuel - 1) as nat);
            lemma_ac_fix_within(tv, r.0, (fuel - 1) as nat);
            lemma_removed_trans(tv, d, r.0, ac_fix(tv, r.0, (fuel - 1) as nat));
        }
    }
}

proof fn lemma_ac_fix_within(tv: Seq<TaskView>, d: DomainsView, fuel: nat)
    requires
        distinct_keys(d),
    ensures
        domains_within(ac_fix(tv, d, fuel), d),
    decreases fuel,
{
    lemma_within_refl(d);
    if fuel > 0 {
        let r = ac_pass(tv, d, 0, 0, false);
        lemma_ac_pass(tv, d, 0, 0, false);
        if r.1 {
            lemma_ac_fix_within(tv, r.0, (fuel - 1) as nat);
            lemma_within_trans(ac_fix(tv, r.0, (fuel - 1) as nat), r.0, d);
        }
    }
}

/// AC-3 removes only unsupported values: every value it drops from a task's
/// domain has a dependency none of whose remaining values ends by the
/// value's start.
pub proof fn law_ac3_removes_only_unsupported(tv: Seq<TaskView>, d: DomainsView)
    requires
        distinct_keys(d),
    ensures
        removed_unsupported(tv, d, ac_domains(tv, d)),
{
    lemma_fix_removed(tv, d, total_size(d) + 1);
}

/// Arc consistency: the domains AC-3 leaves keep only values the domains it
/// was given had, under the same identifiers, and no arc between two tasks can
/// remove a value from them: each value of a task has, for each dependency, a
/// value of the dependency that ends no later than it starts.
pub proof fn law_ac3_arc_consistent(tv: Seq<TaskView>, d: DomainsView)
    requires
        distinct_keys(d),
    ensures
        domains_within(ac_domains(tv, d), d),
        forall|x: int, y: int|
            0 <= x < tv.len() && 0 <= y < tv.len() && tv[x].id != tv[y].id
                ==> !(#[trigger] revise_spec(tv, ac_domains(tv, d), tv[x].id, tv[y].id)).1,
{
    lemma_ac_fix(tv, d, total_size(d) + 1);
}

/// When an arc removes nothing, every value it examined is supported.
pub proof fn law_unrevised_values_supported(tv: Seq<TaskView>, d: DomainsView, xi: Seq<char>, xj: Seq<char>)
    requires
        !revise_spec(tv, d, xi, xj).1,
        first_task_index(tv, xi) >= 0,
        first_task_index(tv, xj) >= 0,
        tv[first_task_index(tv, xi)].deps.contains(xj),
        lookup(d, xi) is Some,
        lookup(d, xj) is Some,
    ensures
        forall|m: int|
            0 <= m < lookup(d, xi).unwrap().len() ==> supported(
                #[trigger] lookup(d, xi).unwrap()[m],
                lookup(d, xj).unwrap(),
                tv[first_task_index(tv, xj)].duration,
            ),
{
    let di = lookup(d, xi).unwrap();
    let dj = lookup(d, xj).unwrap();
    lemma_supported_values(di, dj, tv[first_task_index(tv, xj)].duration, di.len() as int);
}

impl CSPSolver {
    /// One revision step of AC-3 for the arc from task `xi` to task `xj`:
    /// when `xj` is a dependency of `xi`, every (agent, start) value of `xi`
    /// that no value of `xj` can end before is removed. Returns whether any
    /// value was removed.
    pub fn revise(
        &self,
        domains: &mut IdMap<Vec<(String, u64)>>,
        xi: &str,
        xj: &str,
        tasks: &[TaskSpec],
        _agents: &[AgentProfile],
    ) -> (revised: bool)
        ensures
            (final(domains)@, revised) == revise_spec(task_views(tasks@), old(domains)@, xi@, xj@),
    {
        let ghost tv = task_views(tasks@);
        let xi_id = xi.to_owned();
        let xj_id = xj.to_owned();
        let a = match find_first_task(tasks, &xi_id) {
            Some(i) => i,
            None => {
                proof {
                    lemma_first_task_none(tv, xi@);
                }
                return false;
            },
        };
        let b = match find_first_task(tasks, &xj_id) {
            Some(i) => i,
            None => {
                proof {
                    lemma_first_task_none(tv, xj@);
                }
                return false;
            },
        };
        proof {
            lemma_first_task_unique(tv, xi@, a as int);
            lemma_first_task_unique(tv, xj@, b as int);
        }
        assert(tv[a as int] == tasks@[a as int]@);
        assert(tv[b as int] == tasks@[b as int]@);
        if !contains_string(&tasks[a].dependencies, &xj_id) {
            return false;
        }
        let dur = tasks[b].duration_estimate;
        let kept = match (domains.get(xi), domains.get(xj)) {
            (Some(di), Some(dj)) => {
                let ghost div = di.deep_view();
                let ghost djv = dj.deep_view();
                let mut kept: Vec<(String, u64)> = Vec::new();
                let mut i: usize = 0;
                while i < di.len()
                    invariant
                        div == di.deep_view(),
                        djv == dj.deep_view(),
                        i <= di@.len(),
                        kept.deep_view() == supported_values(div, djv, dur, i as int),
                    decreases di@.len() - i,
                {
                    let v = &di[i];
                    assert(div[i as int] == (v.0@, v.1));
                    let mut found = false;
                    let mut k: usize = 0;
                    while k < dj.len()
                        invariant
                            djv == dj.deep_view(),
                            div[i as int] == (v.0@, v.1),
                            k <= dj@.len(),
                            found ==> supported(div[i as int], djv, dur),
                            !found ==> forall|q: int| 0 <= q < k ==> (#[trigger] djv[q]).1 + dur > v.1,
                        decreases dj@.len() - k,
                    {
                        assert(djv[k as int].1 == dj@[k as int].1);
                        if (dj[k].1 as u128) + (dur as u128) <= (v.1 as u128) {
                            found = true;
                        }
                        k = k + 1;
                    }
                    let ghost before = kept.deep_view();
                    if found {
                        kept.push((v.0.clone(), v.1));
                        assert(kept.deep_view() =~= before.push(div[i as int]));
                    }
                    i = i + 1;
                }
                if kept.len() < di.len() {
                    kept
                } else {
                    return false;
                }
            },
            _ => {
                return false;
            },
        };
        domains.insert(xi_id, kept);
        true
    }

    /// AC-3: revise every arc between tasks with different identifiers, pass
    /// after pass, until a whole pass removes nothing. Every value left has a
    /// supporting value for each dependency arc; the values removed are the
    /// ones `ac_domains` removes.
    pub fn ac3(
        &self,
        domains: &mut IdMap<Vec<(String, u64)>>,
        tasks: &[TaskSpec],
        agents: &[AgentProfile],
        _all_tasks: &[TaskSpec],
    )
        ensures
            final(domains)@ == ac_domains(task_views(tasks@), old(domains)@),
    {
        let ghost tv = task_views(tasks@);
        let ghost d0 = domains@;
        let ghost mut fuel: nat = total_size(d0) + 1;
        domains.keys_distinct();
        let n = tasks.len();
        loop
            invariant
                tv == task_views(tasks@),
                n == tasks@.len(),
                distinct_keys(domains@),
                total_size(domains@) < fuel,
                d0 == old(domains)@,
                ac_domains(tv, d0) == ac_fix(tv, domains@, fuel),
            decreases total_size(domains@),
        {
            let ghost start = domains@;
            let mut any = false;
            let mut a: usize = 0;
            while a < n
                invariant
                    tv == task_views(tasks@),
                    n == tasks@.len(),
                    a <= n,
                    distinct_keys(domains@),
                    ac_pass(tv, start, 0, 0, false) == ac_pass(tv, domains@, a as int, 0, any),
                decreases n - a,
            {
                let mut b: usize = 0;
                while b < n
                    invariant
                        tv == task_views(tasks@),
                        n == tasks@.len(),
                        a < n,
                        b <= n,
                        distinct_keys(domains@),
                        ac_pass(tv, start, 0, 0, false) == ac_pass(tv, domains@, a as int, b as int, any),
                    decreases n - b,
                {
                    assert(tv[a as int].id == tasks@[a as int].id@ && tv[b as int].id == tasks@[b as int].id@);
                    if tasks[a].id != tasks[b].id {
                        let ghost before = domains@;
                        let r = self.revise(domains, tasks[a].id.as_str(), tasks[b].id.as_str(), tasks, agents);
                        proof {
                            lemma_revise_spec(tv, before, tv[a as int].id, tv[b as int].id);
                        }
                        any = any || r;
                    }
                    b = b + 1;
                }
                a = a + 1;
            }
            proof {
                lemma_ac_pass(tv, start, 0, 0, false);
                assert(ac_pass(tv, domains@, n as int, 0, any) == (domains@, any));
                assert(fuel > 0);
                assert(ac_fix(tv, start, fuel) == (if any { ac_fix(tv, domains@, (fuel - 1) as nat) } else { domains@ }));
            }
            if !any {
                return;
            }
            proof {
                fuel = (fuel - 1) as nat;
            }
        }
    }
}

/// Number of assignments of `agent` in `s` that overlap the interval from
/// `start` to `end`.
pub open spec fn overlapping_count(s: Seq<(Seq<char>, AssignmentView)>, agent: Seq<char>, start: int, end: int) -> nat
    decreases s.len(),
{
    if s.len() == 0 {
        0
    } else {
        let a = s.last().1;
        overlapping_count(s.drop_last(), agent, start, end) + if a.agent == agent && a.start < end && start
            < end_of(a) {
            1nat
        } else {
            0nat
        }
    }
}

/// Whether placing task `t` with `agent` at `start` is consistent with the
/// partial schedule `s`: the agent has room (when capacity limits apply), no
/// assignment of the agent overlaps, every dependency is placed and has ended
/// (when ordering applies), the deadline is met (when enforced), and the first
/// agent with that identifier can do the task (when capabilities apply).
pub open spec fn consistent(c: Constraints, t: TaskView, agent: Seq<char>, start: u64, s: Seq<(Seq<char>, AssignmentView)>, agents: Seq<AgentProfile>) -> bool {
    let end = start + t.duration;
    let fi = first_agent_index(agents, agent);
    &&& c.capacity_limits ==> fi >= 0 && (overlapping_count(s, agent, start as int, end) as u32)
        < agents[fi].capacity
    &&& forall|i: int|
        0 <= i < s.len() && (#[trigger] s[i]).1.agent == agent ==> !(start < end_of(s[i].1) && s[i].1.start < end)
    &&& c.dependency_ordering ==> forall|j: int|
        0 <= j < t.deps.len() ==> (#[trigger] lookup(s, t.deps[j]) matches Some(d) && start >= end_of(d))
    &&& !(c.deadline_enforcement && end > t.deadline)
    &&& (c.capability_match && fi >= 0) ==> agents[fi].can_do(t.required)
}

/// The end times of the entries among the first `n` of `s` whose identifier is
/// one of `deps`.
pub open spec fn dep_completions(s: Seq<(Seq<char>, AssignmentView)>, deps: Seq<Seq<char>>, n: int) -> Seq<(Seq<char>, u64)>
    decreases n,
{
    if n <= 0 {
        seq![]
    } else {
        let rest = dep_completions(s, deps, n - 1);
        if deps.contains(s[n - 1].0) {
            rest.push((s[n - 1].0, end_of(s[n - 1].1) as u64))
        } else {
            rest
        }
    }
}

/// The elements of `times` that are at least `m`, in order.
pub open spec fn at_least(times: Seq<u64>, m: nat) -> Seq<u64>
    decreases times.len(),
{
    if times.len() == 0 {
        seq![]
    } else {
        let rest = at_least(times.drop_last(), m);
        if times.last() >= m {
            rest.push(times.last())
        } else {
            rest
        }
    }
}

/// The candidate start times of task `t` given the partial schedule `s`: when
/// dependency ordering applies, those not before the latest end of its placed
/// dependencies.
pub open spec fn candidate_times(c: Constraints, t: TaskView, s: Seq<(Seq<char>, AssignmentView)>) -> Seq<u64> {
    if c.dependency_ordering {
        at_least(start_times(t), latest_completion(t.deps, dep_completions(s, t.deps, s.len() as int)))
    } else {
        start_times(t)
    }
}

/// Whether `agent` can still take task `t`: at some candidate start time,
/// fewer of its assignments overlap the task than its capacity.
pub open spec fn agent_has_room(c: Constraints, t: TaskView, s: Seq<(Seq<char>, AssignmentView)>, agent: AgentProfile) -> bool {
    exists|q: int| 0 <= q < candidate_times(c, t, s).len() && #[trigger] room_at(s, agent, candidate_times(c, t, s)[q], t.duration)
}

/// Whether fewer assignments of `agent` overlap the interval of length `dur`
/// from `start` than its capacity.
pub open spec fn room_at(s: Seq<(Seq<char>, AssignmentView)>, agent: AgentProfile, start: u64, dur: u64) -> bool {
    (overlapping_count(s, agent.id@, start as int, start + dur) as u32) < agent.capacity
}

/// Whether some agent able to do task `t` can still take it.
pub open spec fn has_room_for(c: Constraints, t: TaskView, s: Seq<(Seq<char>, AssignmentView)>, agents: Seq<AgentProfile>) -> bool {
    exists|a: int| 0 <= a < agents.len() && (#[trigger] agents[a]).can_do(t.required) && agent_has_room(c, t, s, agents[a])
}

proof fn lemma_at_least_within(times: Seq<u64>, m: nat)
    ensures
        forall|q: int| 0 <= q < at_least(times, m).len() ==> times.contains(#[trigger] at_least(times, m)[q]),
    decreases times.len(),
{
    if times.len() > 0 {
        lemma_at_least_within(times.drop_last(), m);
        let rest = at_least(times.drop_last(), m);
        let r = at_least(times, m);
        assert forall|q: int| 0 <= q < r.len() implies times.contains(#[trigger] r[q]) by {
            if q < rest.len() {
                assert(r[q] == rest[q]);
                assert(times.drop_last().contains(rest[q]));
                let w = choose|w: int| 0 <= w < times.drop_last().len() && times.drop_last()[w] == rest[q];
                assert(times[w] == rest[q]);
            } else {
                assert(r[q] == times.last());
                assert(times[times.len() - 1] == r[q]);
            }
        }
    }
}

/// Every candidate start time leaves room for the task's duration.
proof fn lemma_candidate_times_fit(c: Constraints, t: TaskView, s: Seq<(Seq<char>, AssignmentView)>)
    ensures
        forall|q: int| 0 <= q < candidate_times(c, t, s).len() ==> #[trigger] candidate_times(c, t, s)[q] + t.duration <= u64::MAX,
{
    lemma_start_times_bounded(t);
    let st = start_times(t);
    if c.dependency_ordering {
        let m = latest_completion(t.deps, dep_completions(s, t.deps, s.len() as int));
        lemma_at_least_within(st, m);
        assert forall|q: int| 0 <= q < candidate_times(c, t, s).len() implies #[trigger] candidate_times(c, t, s)[q] + t.duration <= u64::MAX by {
            let v = candidate_times(c, t, s)[q];
            assert(st.contains(v));
            let w = choose|w: int| 0 <= w < st.len() && st[w] == v;
            assert(st[w] <= latest_start_of(t));
        }
    } else {
        assert forall|q: int| 0 <= q < candidate_times(c, t, s).len() implies #[trigger] candidate_times(c, t, s)[q] + t.duration <= u64::MAX by {
            assert(st[q] <= latest_start_of(t));
        }
    }
}

/// Forward checking of one future task: some agent able to do it can still
/// take it at one of its candidate start times.
pub open spec fn future_task_ok(c: Constraints, t: TaskView, s: Seq<(Seq<char>, AssignmentView)>, agents: Seq<AgentProfile>) -> bool {
    has_room_for(c, t, s, agents)
}

/// Forward checking of the tasks of `order` from position `from` on.
pub open spec fn forward_ok(c: Constraints, order: Seq<TaskView>, from: int, s: Seq<(Seq<char>, AssignmentView)>, agents: Seq<AgentProfile>) -> bool {
    forall|k: int| from <= k < order.len() ==> future_task_ok(c, #[trigger] order[k], s, agents)
}

proof fn lemma_dep_completions_keys(s: Seq<(Seq<char>, AssignmentView)>, deps: Seq<Seq<char>>, n: int, k: Seq<char>)
    requires
        0 <= n <= s.len(),
        has_key(dep_completions(s, deps, n), k),
    ensures
        exists|j: int| 0 <= j < n && s[j].0 == k,
    decreases n,
{
    let r = dep_completions(s, deps, n);
    if n > 0 {
        let rest = dep_completions(s, deps, n - 1);
        let q = crate::idmap::index_of(r, k);
        if q < rest.len() {
            assert(rest[q] == r[q]);
            lemma_dep_completions_keys(s, deps, n - 1, k);
        } else {
            assert(s[n - 1].0 == k);
        }
    }
}

impl CSPSolver {
    /// Check if placing `task` with `agent_id` at `start_time` is consistent
    /// with the partial schedule.
    pub fn is_consistent(
        &self,
        task: &TaskSpec,
        agent_id: &str,
        start_time: u64,
        schedule: &Schedule,
        agents: &[AgentProfile],
        _all_tasks: &[TaskSpec],
    ) -> (ok: bool)
        requires
            start_time + task.duration_estimate <= u64::MAX,
            forall|i: int|
                0 <= i < schedule.entries().len() && (#[trigger] schedule.entries()[i]).1.agent == agent_id@
                    ==> crate::schedule::fits(schedule.entries()[i].1),
            self.constraints.dependency_ordering ==> forall|j: int|
                0 <= j < task@.deps.len() ==> (#[trigger] lookup(schedule.entries(), task@.deps[j]) matches Some(d)
                    ==> crate::schedule::fits(d)),
        ensures
            ok == consistent(self.constraints, task@, agent_id@, start_time, schedule.entries(), agents@),
    {
        let ghost s = schedule.entries();
        let ghost c = self.constraints;
        let id = agent_id.to_owned();
        let end_time = start_time + task.duration_estimate;
        let n = schedule.assignments.len();
        proof {
            lemma_first_agent_index_bounds(agents@, id@);
        }

        if self.constraints.capacity_limits {
            let agent = match find_first_agent(agents, &id) {
                Some(a) => &agents[a],
                None => return false,
            };
            let mut overlapping: usize = 0;
            let mut i: usize = 0;
            while i < n
                invariant
                    s == schedule.entries(),
                    n == s.len(),
                    forall|q: int| 0 <= q < s.len() && (#[trigger] s[q]).1.agent == agent_id@ ==> crate::schedule::fits(s[q].1),
                    id@ == agent_id@,
                    end_time == start_time + task.duration_estimate,
                    i <= n,
                    overlapping <= i,
                    overlapping == overlapping_count(s.take(i as int), id@, start_time as int, end_time as int),
                decreases n - i,
            {
                assert(s.take(i + 1).drop_last() =~= s.take(i as int));
                let a = schedule.assignments.value_at(i);
                assert(a@ == s[i as int].1);
                if a.agent_id == id && a.start_time < end_time && start_time < a.start_time + a.duration {
                    overlapping = overlapping + 1;
                }
                i = i + 1;
            }
            assert(s.take(n as int) =~= s);
            if #[verifier::truncate] (overlapping as u32) >= agent.capacity {
                return false;
            }
        }

        let mut i: usize = 0;
        while i < n
            invariant
                s == schedule.entries(),
                n == s.len(),
                forall|q: int| 0 <= q < s.len() && (#[trigger] s[q]).1.agent == agent_id@ ==> crate::schedule::fits(s[q].1),
                id@ == agent_id@,
                end_time == start_time + task.duration_estimate,
                i <= n,
                forall|j: int|
                    0 <= j < i && (#[trigger] s[j]).1.agent == agent_id@ ==> !(start_time < end_of(s[j].1)
                        && s[j].1.start < end_time),
            decreases n - i,
        {
            let existing = schedule.assignments.value_at(i);
            assert(existing@ == s[i as int].1);
            if existing.agent_id == id {
                let existing_end = existing.start_time + existing.duration;
                if start_time < existing_end && existing.start_time < end_time {
                    return false;
                }
            }
            i = i + 1;
        }

        if self.constraints.dependency_ordering {
            let mut j: usize = 0;
            while j < task.dependencies.len()
                invariant
                    s == schedule.entries(),
                    forall|q: int|
                        0 <= q < task@.deps.len() ==> (#[trigger] lookup(s, task@.deps[q]) matches Some(d) ==> crate::schedule::fits(d)),
                    j <= task.dependencies@.len(),
                    self.constraints.dependency_ordering,
                    forall|q: int|
                        0 <= q < j ==> (#[trigger] lookup(s, task@.deps[q]) matches Some(d) && start_time
                            >= end_of(d)),
                decreases task.dependencies@.len() - j,
            {
                assert(task@.deps[j as int] == task.dependencies@[j as int]@);
                match schedule.assignments.get(task.dependencies[j].as_str()) {
                    Some(dep_assignment) => {
                        assert(lookup(s, task@.deps[j as int]) == Some(dep_assignment@));
                        let dep_end = dep_assignment.start_time + dep_assignment.duration;
                        if start_time < dep_end {
                            assert(!(lookup(s, task@.deps[j as int]) matches Some(d) && start_time >= end_of(d)));
                            return false;
                        }
                    },
                    None => {
                        assert(!(lookup(s, task@.deps[j as int]) matches Some(d) && start_time >= end_of(d)));
                        return false;
                    },
                }
                j = j + 1;
            }
        }

        if self.constraints.deadline_enforcement && end_time > task.deadline {
            return false;
        }

        if self.constraints.capability_match {
            match find_first_agent(agents, &id) {
                Some(a) => {
                    if !agents[a].has_capabilities(task.required_capabilities.as_slice()) {
                        return false;
                    }
                },
                None => {},
            }
        }
        true
    }

    /// The candidate start times of a task given the partial schedule: when
    /// dependency ordering applies, those not before its placed dependencies
    /// have ended.
    pub fn possible_start_times_for(&self, task: &TaskSpec, schedule: &Schedule, all_tasks: &[TaskSpec]) -> (times: Vec<u64>)
        requires
            self.constraints.dependency_ordering ==> forall|i: int|
                0 <= i < schedule.entries().len() && task@.deps.contains((#[trigger] schedule.entries()[i]).0)
                    ==> crate::schedule::fits(schedule.entries()[i].1),
        ensures
            times@ == candidate_times(self.constraints, task@, schedule.entries()),
    {
        let times = self.possible_start_times(task, schedule, all_tasks);
        if !self.constraints.dependency_ordering {
            return times;
        }
        let ghost s = schedule.entries();
        schedule.assignments.keys_distinct();
        let n = schedule.assignments.len();
        let mut completions: IdMap<u64> = IdMap::new();
        let mut i: usize = 0;
        while i < n
            invariant
                s == schedule.entries(),
                n == s.len(),
                forall|q: int| 0 <= q < s.len() && task@.deps.contains((#[trigger] s[q]).0) ==> crate::schedule::fits(s[q].1),
                crate::idmap::distinct_keys(s),
                i <= n,
                completions@ == dep_completions(s, task@.deps, i as int),
            decreases n - i,
        {
            let id = schedule.assignments.key_at(i);
            let a = schedule.assignments.value_at(i);
            assert(id@ == s[i as int].0 && a@ == s[i as int].1);
            if contains_string(&task.dependencies, id) {
                proof {
                    if has_key(completions@, id@) {
                        lemma_dep_completions_keys(s, task@.deps, i as int, id@);
                        let j = choose|j: int| 0 <= j < i && s[j].0 == id@;
                        assert(s[j].0 == s[i as int].0);
                    }
                }
                completions.insert(id.clone(), a.start_time + a.duration);
            }
            i = i + 1;
        }
        let min_start = task.earliest_start(&completions);
        let mut kept: Vec<u64> = Vec::new();
        let mut k: usize = 0;
        while k < times.len()
            invariant
                k <= times@.len(),
                kept@ == at_least(times@.take(k as int), min_start as nat),
            decreases times@.len() - k,
        {
            assert(times@.take(k + 1).drop_last() =~= times@.take(k as int));
            if times[k] >= min_start {
                kept.push(times[k]);
            }
            k = k + 1;
        }
        assert(times@.take(times@.len() as int) =~= times@);
        kept
    }

    /// Forward checking: whether every task of `tasks` from `from_idx` on can
    /// still be placed, as far as a quick look tells: some capable agent has
    /// fewer overlapping assignments than its capacity at one of the task's
    /// candidate start times (those not before its placed dependencies end).
    /// When a task's choices have run out, the search backtracks at once.
    pub fn forward_check(
        &self,
        tasks: &[TaskSpec],
        from_idx: usize,
        schedule: &Schedule,
        agents: &[AgentProfile],
        all_tasks: &[TaskSpec],
    ) -> (ok: bool)
        requires
            self.constraints.dependency_ordering ==> forall|k: int, i: int|
                from_idx <= k < tasks@.len() && 0 <= i < schedule.entries().len() && (#[trigger] tasks@[k])@.deps.contains(
                    (#[trigger] schedule.entries()[i]).0,
                ) ==> crate::schedule::fits(schedule.entries()[i].1),
        ensures
            ok == forward_ok(self.constraints, task_views(tasks@), from_idx as int, schedule.entries(), agents@),
    {
        let ghost s = schedule.entries();
        let ghost tv = task_views(tasks@);
        let mut k: usize = from_idx;
        while k < tasks.len()
            invariant
                s == schedule.entries(),
                tv == task_views(tasks@),
                self.constraints.dependency_ordering ==> forall|k2: int, i: int|
                    from_idx <= k2 < tasks@.len() && 0 <= i < s.len() && (#[trigger] tasks@[k2])@.deps.contains((#[trigger] s[i]).0)
                        ==> crate::schedule::fits(s[i].1),
                from_idx <= k,
                forall|q: int| from_idx <= q < k && q < tv.len() ==> future_task_ok(self.constraints, #[trigger] tv[q], s, agents@),
            decreases tasks@.len() - k,
        {
            let task = &tasks[k];
            assert(tv[k as int] == task@);
            assert(self.constraints.dependency_ordering ==> forall|i: int|
                0 <= i < s.len() && task@.deps.contains((#[trigger] s[i]).0) ==> crate::schedule::fits(s[i].1)) by {
                assert(tasks@[k as int] == *task);
            }
            let times = self.possible_start_times_for(task, schedule, all_tasks);
            let ghost ct = candidate_times(self.constraints, task@, s);
            proof {
                lemma_candidate_times_fit(self.constraints, task@, s);
            }
            let no_skip = String::new();
            let mut has_valid = false;
            let mut a: usize = 0;
            while a < agents.len()
                invariant
                    s == schedule.entries(),
                    times@ == ct,
                    ct == candidate_times(self.constraints, task@, s),
                    forall|q: int| 0 <= q < ct.len() ==> #[trigger] ct[q] + task@.duration <= u64::MAX,
                    a <= agents@.len(),
                    has_valid ==> has_room_for(self.constraints, task@, s, agents@),
                    !has_valid ==> forall|b: int| 0 <= b < a ==> !((#[trigger] agents@[b]).can_do(task@.required)
                        && agent_has_room(self.constraints, task@, s, agents@[b])),
                ensures
                    has_valid ==> has_room_for(self.constraints, task@, s, agents@),
                    !has_valid ==> forall|b: int| 0 <= b < agents@.len() ==> !((#[trigger] agents@[b]).can_do(task@.required)
                        && agent_has_room(self.constraints, task@, s, agents@[b])),
                decreases agents@.len() - a,
            {
                let agent = &agents[a];
                if agent.has_capabilities(task.required_capabilities.as_slice()) {
                    let mut q: usize = 0;
                    while q < times.len()
                        invariant
                            s == schedule.entries(),
                            times@ == ct,
                            ct == candidate_times(self.constraints, task@, s),
                            forall|r: int| 0 <= r < ct.len() ==> #[trigger] ct[r] + task@.duration <= u64::MAX,
                            a < agents@.len(),
                            agent == agents@[a as int],
                            agent.can_do(task@.required),
                            q <= times@.len(),
                            has_valid ==> has_room_for(self.constraints, task@, s, agents@),
                            !has_valid ==> forall|r: int| 0 <= r < q ==> (overlapping_count(
                                s,
                                agent.id@,
                                #[trigger] ct[r] as int,
                                ct[r] + task@.duration,
                            ) as u32) >= agent.capacity,
                            !has_valid ==> forall|b: int| 0 <= b < a ==> !((#[trigger] agents@[b]).can_do(task@.required)
                                && agent_has_room(self.constraints, task@, s, agents@[b])),
                        ensures
                            has_valid ==> has_room_for(self.constraints, task@, s, agents@),
                            !has_valid ==> forall|r: int| 0 <= r < ct.len() ==> (overlapping_count(
                                s,
                                agent.id@,
                                #[trigger] ct[r] as int,
                                ct[r] + task@.duration,
                            ) as u32) >= agent.capacity,
                            !has_valid ==> forall|b: int| 0 <= b < a ==> !((#[trigger] agents@[b]).can_do(task@.required)
                                && agent_has_room(self.constraints, task@, s, agents@[b])),
                        decreases times@.len() - q,
                    {
                        let t0 = times[q];
                        assert(t0 + task.duration_estimate <= u64::MAX);
                        let n_over = crate::constraint::count_overlapping(schedule, &agent.id, t0, (t0 as u128) + (task.duration_estimate as u128), &no_skip, false);
                        let count = #[verifier::truncate] (n_over as u32);
                        if count < agent.capacity {
                            has_valid = true;
                            assert(ct[q as int] == t0);
                            assert(room_at(s, agents@[a as int], ct[q as int], task@.duration));
                            assert(agent_has_room(self.constraints, task@, s, agents@[a as int]));
                            break;
                        }
                        q = q + 1;
                    }
                    if has_valid {
                        break;
                    }
                    assert(!agent_has_room(self.constraints, task@, s, agents@[a as int])) by {
                        if agent_has_room(self.constraints, task@, s, agents@[a as int]) {
                            let r = choose|r: int| 0 <= r < ct.len() && #[trigger] room_at(s, agents@[a as int], ct[r], task@.duration);
                            assert((overlapping_count(s, agent.id@, ct[r] as int, ct[r] + task@.duration) as u32) >= agent.capacity);
                        }
                    }
                }
                a = a + 1;
            }
            if !has_valid {
                proof {
                    if has_room_for(self.constraints, task@, s, agents@) {
                        let b = choose|b: int|
                            0 <= b < agents@.len() && (#[trigger] agents@[b]).can_do(task@.required) && agent_has_room(
                                self.constraints,
                                task@,
                                s,
                                agents@[b],
                            );
                        assert(!(agents@[b].can_do(task@.required) && agent_has_room(self.constraints, task@, s, agents@[b])));
                    }
                    assert(!future_task_ok(self.constraints, tv[k as int], s, agents@));
                }
                return false;
            }
            k = k + 1;
        }
        true
    }
}

/// What the search works on: the constraints, the tasks in the order they are
/// placed, the domains keyed by task identifier, and the agents.
pub struct SearchSpace {
    pub constraints: Constraints,
    pub order: Seq<TaskView>,
    pub domains: Seq<(Seq<char>, Seq<(Seq<char>, u64)>)>,
    pub agents: Seq<AgentProfile>,
}

/// What a search gives: the schedule it found, if any; the number of
/// assignments it tried; the partial schedule it leaves behind.
pub struct SearchOutcome {
    pub found: Option<Seq<(Seq<char>, AssignmentView)>>,
    pub nodes: nat,
    pub last: Seq<(Seq<char>, AssignmentView)>,
}

/// `a + b`, or `u64::MAX` when that is larger.
pub open spec fn sat_add(a: u64, b: nat) -> u64 {
    if a + b > u64::MAX {
        u64::MAX
    } else {
        (a + b) as u64
    }
}

/// The values of domain `d` that are consistent for task `t` with `s`, in order.
pub open spec fn valid_values(c: Constraints, agents: Seq<AgentProfile>, t: TaskView, d: Seq<(Seq<char>, u64)>, s: Seq<(Seq<char>, AssignmentView)>) -> Seq<(Seq<char>, u64)>
    decreases d.len(),
{
    if d.len() == 0 {
        seq![]
    } else {
        let rest = valid_values(c, agents, t, d.drop_last(), s);
        if consistent(c, t, d.last().0, d.last().1, s, agents) {
            rest.push(d.last())
        } else {
            rest
        }
    }
}

/// `s` with task `t` placed at value `v` (agent, start).
pub open spec fn place(s: Seq<(Seq<char>, AssignmentView)>, t: TaskView, v: (Seq<char>, u64)) -> Seq<(Seq<char>, AssignmentView)> {
    put(s, t.id, AssignmentView { agent: v.0, start: v.1, duration: t.duration })
}

/// Depth-first search from position `idx` of the order with partial schedule
/// `s`: the first complete schedule reached, trying the consistent values of
/// each task's domain in order and descending only where forward checking
/// passes.
pub open spec fn search(sp: SearchSpace, idx: int, s: Seq<(Seq<char>, AssignmentView)>) -> SearchOutcome
    decreases sp.order.len() - idx, 1int, 0int,
{
    if idx < 0 || idx >= sp.order.len() {
        SearchOutcome { found: Some(s), nodes: 0, last: s }
    } else {
        let t = sp.order[idx];
        match lookup(sp.domains, t.id) {
            None => SearchOutcome { found: None, nodes: 0, last: s },
            Some(d) => try_values(sp, idx, valid_values(sp.constraints, sp.agents, t, d, s), 0, s),
        }
    }
}

/// The search at position `idx` from value `k` of `vals` on, with partial
/// schedule `s`.
pub open spec fn try_values(sp: SearchSpace, idx: int, vals: Seq<(Seq<char>, u64)>, k: int, s: Seq<(Seq<char>, AssignmentView)>) -> SearchOutcome
    decreases sp.order.len() - idx, 0int, vals.len() - k,
{
    if idx < 0 || idx >= sp.order.len() || k < 0 || k >= vals.len() {
        SearchOutcome { found: None, nodes: 0, last: s }
    } else {
        let t = sp.order[idx];
        let s1 = place(s, t, vals[k]);
        let child = if forward_ok(sp.constraints, sp.order, idx + 1, s1, sp.agents) {
            search(sp, idx + 1, s1)
        } else {
            SearchOutcome { found: None, nodes: 0, last: s1 }
        };
        if child.found is Some {
            SearchOutcome { found: child.found, nodes: child.nodes + 1, last: child.last }
        } else {
            let rest = try_values(sp, idx, vals, k + 1, drop_key(child.last, t.id));
            SearchOutcome { found: rest.found, nodes: 1 + child.nodes + rest.nodes, last: rest.last }
        }
    }
}

/// Whether the tasks of `order` from position `idx` on have distinct
/// identifiers, none of which is a key of `s`.
pub open spec fn fresh_keys(order: Seq<TaskView>, idx: int, s: Seq<(Seq<char>, AssignmentView)>) -> bool {
    &&& forall|i: int, j: int| idx <= i < j < order.len() ==> (#[trigger] order[i]).id != (#[trigger] order[j]).id
    &&& forall|i: int| idx <= i < order.len() ==> !has_key(s, (#[trigger] order[i]).id)
}

/// Whether every start time in the domain of each task of `order` leaves room
/// for the task's duration.
pub open spec fn fits_domains(order: Seq<TaskView>, domains: Seq<(Seq<char>, Seq<(Seq<char>, u64)>)>) -> bool {
    forall|i: int|
        0 <= i < order.len() ==> (#[trigger] lookup(domains, order[i].id) matches Some(d) && forall|j: int|
            0 <= j < d.len() ==> d[j].1 + order[i].duration <= u64::MAX)
}

/// Whether every task that shares its identifier with another task has a
/// duration that leaves room for any candidate start time.
pub open spec fn duplicates_bounded(tv: Seq<TaskView>) -> bool {
    forall|i: int, j: int|
        0 <= i < tv.len() && 0 <= j < tv.len() && i != j && (#[trigger] tv[i]).id == (#[trigger] tv[j]).id
            ==> tv[i].duration <= u64::MAX - start_time_limit()
}

/// Whether no domain holds a start time beyond `start_time_limit()`.
pub open spec fn starts_bounded(domains: Seq<(Seq<char>, Seq<(Seq<char>, u64)>)>) -> bool {
    forall|i: int, j: int|
        0 <= i < domains.len() && 0 <= j < domains[i].1.len() ==> #[trigger] domains[i].1[j].1 <= start_time_limit()
}

impl CSPSolver {
    /// The search space over `order` and `domains`.
    pub open spec fn space(&self, order: Seq<TaskSpec>, domains: Seq<(Seq<char>, Seq<(Seq<char>, u64)>)>, agents: Seq<AgentProfile>) -> SearchSpace {
        SearchSpace { constraints: self.constraints, order: task_views(order), domains, agents }
    }

    /// The values of `domain` consistent for `task` with the partial schedule.
    pub fn consistent_values(
        &self,
        task: &TaskSpec,
        domain: &Vec<(String, u64)>,
        schedule: &Schedule,
        agents: &[AgentProfile],
        all_tasks: &[TaskSpec],
    ) -> (vals: Vec<(String, u64)>)
        requires
            all_fit(schedule.entries()),
            forall|j: int| 0 <= j < domain@.len() ==> (#[trigger] domain@[j]).1 + task.duration_estimate <= u64::MAX,
        ensures
            vals.deep_view() == valid_values(
                self.constraints,
                agents@,
                task@,
                domain.deep_view(),
                schedule.entries(),
            ),
            forall|j: int| 0 <= j < vals@.len() ==> (#[trigger] vals@[j]).1 + task.duration_estimate <= u64::MAX,
    {
        let ghost dv = domain.deep_view();
        let mut vals: Vec<(String, u64)> = Vec::new();
        let mut i: usize = 0;
        while i < domain.len()
            invariant
                dv == domain.deep_view(),
                all_fit(schedule.entries()),
                forall|j: int| 0 <= j < domain@.len() ==> (#[trigger] domain@[j]).1 + task.duration_estimate <= u64::MAX,
                i <= domain@.len(),
                vals.deep_view() == valid_values(self.constraints, agents@, task@, dv.take(i as int), schedule.entries()),
                forall|j: int| 0 <= j < vals@.len() ==> (#[trigger] vals@[j]).1 + task.duration_estimate <= u64::MAX,
            decreases domain@.len() - i,
        {
            assert(dv.take(i + 1).drop_last() =~= dv.take(i as int));
            assert(dv.take(i + 1).last() == dv[i as int]);
            let v = &domain[i];
            assert(v.1 + task.duration_estimate <= u64::MAX);
            if self.is_consistent(task, v.0.as_str(), v.1, schedule, agents, all_tasks) {
                let ghost before = vals.deep_view();
                vals.push((v.0.clone(), v.1));
                assert(vals.deep_view() =~= before.push(dv[i as int]));
            }
            i = i + 1;
        }
        assert(dv.take(dv.len() as int) =~= dv);
        vals
    }
}

pub(crate) proof fn lemma_fresh_next(order: Seq<TaskView>, idx: int, s: Seq<(Seq<char>, AssignmentView)>, k: Seq<char>, a: AssignmentView)
    requires
        fresh_keys(order, idx, s),
        0 <= idx < order.len(),
        k == order[idx].id,
    ensures
        put(s, k, a) == s.push((k, a)),
        fresh_keys(order, idx + 1, put(s, k, a)),
        drop_key(put(s, k, a), k) == s,
{
    assert(!has_key(s, k));
    let s1 = s.push((k, a));
    assert(put(s, k, a) == s1);
    assert forall|i: int| idx + 1 <= i < order.len() implies !has_key(s1, (#[trigger] order[i]).id) by {
        assert(order[idx].id != order[i].id);
        assert(!has_key(s, order[i].id));
        if has_key(s1, order[i].id) {
            let q = choose|q: int| 0 <= q < s1.len() && s1[q].0 == order[i].id;
            if q < s.len() {
                assert(s[q] == s1[q]);
            }
        }
    }
    assert(s1[s.len() as int].0 == k);
    assert(has_key(s1, k));
    let q = crate::idmap::index_of(s1, k);
    if q < s.len() {
        assert(s[q] == s1[q]);
        assert(has_key(s, k));
    }
    assert(s1.remove(q) =~= s);
}

pub(crate) proof fn lemma_sat_add(a: u64, b: nat, c: nat)
    ensures
        sat_add(sat_add(a, b), c) == sat_add(a, b + c),
        sat_add(a, 0) == a,
{
}

/// The loop over the values of one task has tried the first `k` of them
/// without finding a schedule; what remains to be done gives the same outcome
/// as the whole loop.
pub open spec fn progress(sp: SearchSpace, idx: int, vals: Seq<(Seq<char>, u64)>, s0: Seq<(Seq<char>, AssignmentView)>, n0: u64, k: int, s: Seq<(Seq<char>, AssignmentView)>, n: u64) -> bool {
    let total = try_values(sp, idx, vals, 0, s0);
    let rest = try_values(sp, idx, vals, k, s);
    &&& total.found == rest.found
    &&& total.last == rest.last
    &&& sat_add(n0, total.nodes) == sat_add(n, rest.nodes)
}

/// The outcome of trying value `k` of the task at `idx` with schedule `s`.
pub open spec fn child_outcome(sp: SearchSpace, idx: int, vals: Seq<(Seq<char>, u64)>, k: int, s: Seq<(Seq<char>, AssignmentView)>) -> SearchOutcome {
    let s1 = place(s, sp.order[idx], vals[k]);
    if forward_ok(sp.constraints, sp.order, idx + 1, s1, sp.agents) {
        search(sp, idx + 1, s1)
    } else {
        SearchOutcome { found: None, nodes: 0, last: s1 }
    }
}

proof fn lemma_progress_next(sp: SearchSpace, idx: int, vals: Seq<(Seq<char>, u64)>, s0: Seq<(Seq<char>, AssignmentView)>, n0: u64, k: int, s: Seq<(Seq<char>, AssignmentView)>, n: u64)
    requires
        0 <= idx < sp.order.len(),
        0 <= k < vals.len(),
        progress(sp, idx, vals, s0, n0, k, s, n),
        child_outcome(sp, idx, vals, k, s).found is None,
    ensures
        progress(
            sp,
            idx,
            vals,
            s0,
            n0,
            k + 1,
            drop_key(child_outcome(sp, idx, vals, k, s).last, sp.order[idx].id),
            sat_add(sat_add(n, 1), child_outcome(sp, idx, vals, k, s).nodes),
        ),
{
    let child = child_outcome(sp, idx, vals, k, s);
    let rest = try_values(sp, idx, vals, k + 1, drop_key(child.last, sp.order[idx].id));
    assert(try_values(sp, idx, vals, k, s) == SearchOutcome { found: rest.found, nodes: 1 + child.nodes + rest.nodes, last: rest.last });
    lemma_sat_add(n, 1, child.nodes);
    lemma_sat_add(n, 1 + child.nodes, rest.nodes);
}

proof fn lemma_progress_found(sp: SearchSpace, idx: int, vals: Seq<(Seq<char>, u64)>, s0: Seq<(Seq<char>, AssignmentView)>, n0: u64, k: int, s: Seq<(Seq<char>, AssignmentView)>, n: u64)
    requires
        0 <= idx < sp.order.len(),
        0 <= k < vals.len(),
        progress(sp, idx, vals, s0, n0, k, s, n),
        child_outcome(sp, idx, vals, k, s).found is Some,
    ensures
        try_values(sp, idx, vals, 0, s0).found == child_outcome(sp, idx, vals, k, s).found,
        try_values(sp, idx, vals, 0, s0).last == child_outcome(sp, idx, vals, k, s).last,
        sat_add(n0, try_values(sp, idx, vals, 0, s0).nodes) == sat_add(sat_add(n, 1), child_outcome(sp, idx, vals, k, s).nodes),
{
    let child = child_outcome(sp, idx, vals, k, s);
    lemma_sat_add(n, 1, child.nodes);
}

proof fn lemma_progress_done(sp: SearchSpace, idx: int, vals: Seq<(Seq<char>, u64)>, s0: Seq<(Seq<char>, AssignmentView)>, n0: u64, k: int, s: Seq<(Seq<char>, AssignmentView)>, n: u64)
    requires
        k >= vals.len(),
        progress(sp, idx, vals, s0, n0, k, s, n),
    ensures
        try_values(sp, idx, vals, 0, s0).found is None,
        try_values(sp, idx, vals, 0, s0).last == s,
        sat_add(n0, try_values(sp, idx, vals, 0, s0).nodes) == n,
{
    lemma_sat_add(n, 0, 0);
}

impl CSPSolver {
    #[verifier::rlimit(40)]
    fn backtrack(
        &self,
        tasks: &[TaskSpec],
        idx: usize,
        domains: &IdMap<Vec<(String, u64)>>,
        schedule: &mut Schedule,
        checker: &ConstraintChecker,
        agents: &[AgentProfile],
        all_tasks: &[TaskSpec],
        nodes: &mut u64,
        start: &Instant,
        aborted: &mut bool,
    ) -> (r: Option<Schedule>)
        requires
            idx <= tasks@.len(),
            fits_domains(task_views(tasks@), domains@),
            all_fit(old(schedule).entries()),
        ensures
            all_fit(final(schedule).entries()),
            *old(aborted) ==> *final(aborted),
            *final(aborted) ==> r is None,
            *final(aborted) ==> *old(aborted) || exists|d: Duration| exceeds(d, self.time_budget),
            (fresh_keys(task_views(tasks@), idx as int, old(schedule).entries()) && r is None)
                ==> final(schedule).entries() == old(schedule).entries(),
            !*final(aborted) ==> ({
                let o = search(self.space(tasks@, domains@, agents@), idx as int, old(schedule).entries());
                &&& (r is Some <==> o.found is Some)
                &&& (r matches Some(x) ==> o.found == Some(x.entries()))
                &&& final(schedule).entries() == o.last
                &&& *final(nodes) == sat_add(*old(nodes), o.nodes)
            }),
        decreases tasks@.len() - idx,
    {
        let ghost sp = self.space(tasks@, domains@, agents@);
        let ghost s0 = schedule.entries();
        let ghost n0 = *nodes;
        proof {
            lemma_sat_add(n0, 0, 0);
        }
        if *aborted {
            return None;
        }
        let spent = elapsed(start);
        if longer_than(&spent, &self.time_budget) {
            *aborted = true;
            return None;
        }
        if idx == tasks.len() {
            return Some(schedule.copy());
        }
        let next_idx = idx + 1;
        let task = &tasks[idx];
        assert(sp.order[idx as int] == task@);
        let domain = match domains.get(task.id.as_str()) {
            Some(d) => d,
            None => {
                return None;
            },
        };
        proof {
            assert(task.duration_estimate == task_views(tasks@)[idx as int].duration);
            let dv = domain.deep_view();
            let tv = task_views(tasks@);
            assert(lookup(domains@, tv[idx as int].id) == Some(dv));
            assert(lookup(domains@, tv[idx as int].id) matches Some(d) && forall|j: int|
                0 <= j < d.len() ==> d[j].1 + tv[idx as int].duration <= u64::MAX);
            assert forall|j: int| 0 <= j < domain@.len() implies (#[trigger] domain@[j]).1 + task.duration_estimate <= u64::MAX by {
                assert(dv[j].1 == domain@[j].1);
                assert(dv[j].1 + tv[idx as int].duration <= u64::MAX);
            }
        }
        let valid = self.consistent_values(task, domain, schedule, agents, all_tasks);
        let ghost vv = valid.deep_view();
        assert(search(sp, idx as int, s0) == try_values(sp, idx as int, vv, 0, s0));
        let mut k: usize = 0;
        while k < valid.len()
            invariant
                sp == self.space(tasks@, domains@, agents@),
                idx < tasks@.len(),
                next_idx == idx + 1,
                task == tasks@[idx as int],
                sp.order[idx as int] == task@,
                fits_domains(task_views(tasks@), domains@),
                vv == valid.deep_view(),
                forall|j: int| 0 <= j < valid@.len() ==> (#[trigger] valid@[j]).1 + task.duration_estimate <= u64::MAX,
                k <= valid@.len(),
                all_fit(schedule.entries()),
                !*old(aborted),
                s0 == old(schedule).entries(),
                n0 == *old(nodes),
                search(sp, idx as int, s0) == try_values(sp, idx as int, vv, 0, s0),
                !*aborted ==> progress(sp, idx as int, vv, s0, n0, k as int, schedule.entries(), *nodes),
                *aborted ==> exists|d: Duration| exceeds(d, self.time_budget),
                fresh_keys(sp.order, idx as int, s0) ==> schedule.entries() == s0,
            decreases valid@.len() - k,
        {
            let ghost sk = schedule.entries();
            let ghost nk = *nodes;
            let ghost was_aborted = *aborted;
            let agent_id = &valid[k].0;
            let start_time = valid[k].1;
            assert(vv[k as int] == (agent_id@, start_time));
            *nodes = nodes.saturating_add(1);
            schedule.assign(task.id.as_str(), agent_id.as_str(), start_time, task.duration_estimate);
            let ghost s1 = schedule.entries();
            proof {
                assert(s1 == place(sk, task@, vv[k as int]));
                crate::schedule::lemma_put_all_fit(
                    sk,
                    task@.id,
                    AssignmentView { agent: agent_id@, start: start_time, duration: task.duration_estimate },
                );
            }
            let ghost nodes1 = *nodes;
            assert(nodes1 == sat_add(nk, 1));
            proof {
                if fresh_keys(sp.order, idx as int, s0) {
                    lemma_fresh_next(sp.order, idx as int, s0, task@.id, AssignmentView { agent: agent_id@, start: start_time, duration: task.duration_estimate });
                }
            }
            let fc = self.forward_check(tasks, next_idx, schedule, agents, all_tasks);
            if fc {
                let result = self.backtrack(
                    tasks,
                    next_idx,
                    domains,
                    schedule,
                    checker,
                    agents,
                    all_tasks,
                    nodes,
                    start,
                    aborted,
                );
                if result.is_some() {
                    proof {
                        assert(!*aborted);
                        assert(!was_aborted);
                        assert(child_outcome(sp, idx as int, vv, k as int, sk) == search(sp, idx + 1, s1));
                        lemma_progress_found(sp, idx as int, vv, s0, n0, k as int, sk, nk);
                    }
                    return result;
                }
            }
            let ghost after_child = schedule.entries();
            schedule.unassign(task.id.as_str());
            proof {
                crate::schedule::lemma_drop_all_fit(after_child, task@.id);
                if fresh_keys(sp.order, idx as int, s0) {
                    lemma_fresh_next(sp.order, idx as int, s0, task@.id, AssignmentView { agent: agent_id@, start: start_time, duration: task.duration_estimate });
                    assert(sk == s0);
                    assert(after_child == s1);
                    assert(schedule.entries() == s0);
                }
                if !*aborted {
                    assert(!was_aborted);
                    assert(child_outcome(sp, idx as int, vv, k as int, sk).last == after_child);
                    lemma_progress_next(sp, idx as int, vv, s0, n0, k as int, sk, nk);
                }
            }
            k = k + 1;
        }
        proof {
            if !*aborted {
                lemma_progress_done(sp, idx as int, vv, s0, n0, k as int, schedule.entries(), *nodes);
            }
        }
        None
    }
}


proof fn lemma_start_times_bounded(t: TaskView)
    ensures
        forall|k: int| 0 <= k < start_times(t).len() ==> #[trigger] start_times(t)[k] <= start_time_limit(),
        forall|k: int| 0 <= k < start_times(t).len() ==> #[trigger] start_times(t)[k] <= latest_start_of(t),
{
    let latest = latest_start_of(t);
    let limit: int = if latest < start_time_limit() { latest as int } else { start_time_limit() as int };
    let step = start_step(t) as int;
    assert forall|k: int| 0 <= k < start_times(t).len() implies #[trigger] start_times(t)[k] <= start_time_limit()
        && start_times(t)[k] <= latest_start_of(t) by {
        assert(k <= limit / step);
        assert(k * step <= limit) by (nonlinear_arith)
            requires
                0 <= k <= limit / step,
                step >= 1,
                limit >= 0,
        {
            assert(k * step <= (limit / step) * step);
            assert((limit / step) * step <= limit);
        }
    }
}

proof fn lemma_raw_domain_bounded(t: TaskView, agents: Seq<AgentProfile>, n: int)
    requires
        0 <= n <= agents.len(),
    ensures
        forall|j: int| 0 <= j < raw_domain(t, agents, n).len() ==> #[trigger] raw_domain(t, agents, n)[j].1 <= start_time_limit(),
        forall|j: int| 0 <= j < raw_domain(t, agents, n).len() ==> #[trigger] raw_domain(t, agents, n)[j].1 <= latest_start_of(t),
    decreases n,
{
    if n > 0 {
        lemma_raw_domain_bounded(t, agents, n - 1);
        lemma_start_times_bounded(t);
        let rest = raw_domain(t, agents, n - 1);
        let r = raw_domain(t, agents, n);
        assert forall|j: int| 0 <= j < r.len() implies #[trigger] r[j].1 <= start_time_limit() && r[j].1 <= latest_start_of(t) by {
            if j < rest.len() {
                assert(r[j] == rest[j]);
            } else {
                assert(r[j].1 == start_times(t)[j - rest.len()]);
            }
        }
    }
}

proof fn lemma_domain_bounded(t: TaskView, agents: Seq<AgentProfile>)
    ensures
        forall|j: int| 0 <= j < domain_of(t, agents).len() ==> #[trigger] domain_of(t, agents)[j].1 <= start_time_limit(),
        forall|j: int| 0 <= j < domain_of(t, agents).len() ==> #[trigger] domain_of(t, agents)[j].1 <= latest_start_of(t),
{
    let raw = raw_domain(t, agents, agents.len() as int);
    let keys = raw.map_values(|p: (Seq<char>, u64)| (u32::MAX - capacity_of(agents, p.0)) as u64);
    crate::order::lemma_stable_order_in_range(keys);
    lemma_raw_domain_bounded(t, agents, agents.len() as int);
    let perm = stable_order_of(keys);
    assert forall|j: int| 0 <= j < domain_of(t, agents).len() implies #[trigger] domain_of(t, agents)[j].1 <= start_time_limit()
        && domain_of(t, agents)[j].1 <= latest_start_of(t) by {
        assert(perm[j] < raw.len());
        assert(domain_of(t, agents)[j] == raw[perm[j] as int]);
    }
}

proof fn lemma_domains_bounded(order: Seq<TaskView>, agents: Seq<AgentProfile>, n: int)
    requires
        0 <= n <= order.len(),
    ensures
        starts_bounded(domains_of(order, agents, n)),
    decreases n,
{
    if n > 0 {
        lemma_domains_bounded(order, agents, n - 1);
        lemma_domain_bounded(order[n - 1], agents);
        let before = domains_of(order, agents, n - 1);
        let k = order[n - 1].id;
        let v = domain_of(order[n - 1], agents);
        let after = domains_of(order, agents, n);
        assert(after == put(before, k, v));
        assert forall|i: int, j: int| 0 <= i < after.len() && 0 <= j < after[i].1.len() implies #[trigger] after[i].1[j].1 <= start_time_limit() by {
            if has_key(before, k) {
                if i != crate::idmap::index_of(before, k) {
                    assert(after[i] == before[i]);
                } else {
                    assert(after[i].1 == v);
                }
            } else if i < before.len() {
                assert(after[i] == before[i]);
            } else {
                assert(after[i].1 == v);
            }
        }
    }
}

pub(crate) proof fn lemma_domains_distinct(order: Seq<TaskView>, agents: Seq<AgentProfile>, n: int)
    requires
        0 <= n <= order.len(),
    ensures
        crate::idmap::distinct_keys(domains_of(order, agents, n)),
    decreases n,
{
    if n > 0 {
        lemma_domains_distinct(order, agents, n - 1);
        crate::idmap::lemma_put_distinct(domains_of(order, agents, n - 1), order[n - 1].id, domain_of(order[n - 1], agents));
    }
}

proof fn lemma_domains_has_key(order: Seq<TaskView>, agents: Seq<AgentProfile>, i: int, n: int)
    requires
        0 <= i < n <= order.len(),
    ensures
        has_key(domains_of(order, agents, n), order[i].id),
    decreases n,
{
    lemma_domains_distinct(order, agents, n - 1);
    crate::idmap::lemma_put_distinct(domains_of(order, agents, n - 1), order[n - 1].id, domain_of(order[n - 1], agents));
    if i < n - 1 {
        lemma_domains_has_key(order, agents, i, n - 1);
    }
}

/// The domain kept for a task whose identifier no other task of the first `n`
/// shares is its own.
proof fn lemma_domains_lookup_unique(order: Seq<TaskView>, agents: Seq<AgentProfile>, i: int, n: int)
    requires
        0 <= i < n <= order.len(),
        forall|m: int| 0 <= m < n && m != i ==> (#[trigger] order[m]).id != order[i].id,
    ensures
        lookup(domains_of(order, agents, n), order[i].id) == Some(domain_of(order[i], agents)),
    decreases n,
{
    lemma_domains_distinct(order, agents, n - 1);
    let prev = domains_of(order, agents, n - 1);
    crate::idmap::lemma_put_distinct(prev, order[n - 1].id, domain_of(order[n - 1], agents));
    if i < n - 1 {
        assert(order[n - 1].id != order[i].id);
        lemma_domains_lookup_unique(order, agents, i, n - 1);
    }
}

pub(crate) proof fn lemma_fits_within(order: Seq<TaskView>, d: DomainsView, d0: DomainsView)
    requires
        domains_within(d, d0),
        fits_domains(order, d0),
    ensures
        fits_domains(order, d),
{
    assert forall|i: int| 0 <= i < order.len() implies (#[trigger] lookup(d, order[i].id) matches Some(dd) && forall|j: int|
        0 <= j < dd.len() ==> dd[j].1 + order[i].duration <= u64::MAX) by {
        let k = order[i].id;
        assert(lookup(d0, k) matches Some(d0k) && forall|j: int| 0 <= j < d0k.len() ==> d0k[j].1 + order[i].duration <= u64::MAX);
        assert(has_key(d0, k));
        assert(has_key(d, k));
        let dd = lookup(d, k).unwrap();
        assert forall|j: int| 0 <= j < dd.len() implies dd[j].1 + order[i].duration <= u64::MAX by {
            let v = dd[j];
            assert(dd.contains(v));
            assert(lookup(d0, k).unwrap().contains(v));
            let q = choose|q: int| 0 <= q < lookup(d0, k).unwrap().len() && lookup(d0, k).unwrap()[q] == v;
        }
    }
}

pub(crate) proof fn lemma_fits_domains(tasks: Seq<TaskSpec>, agents: Seq<AgentProfile>)
    requires
        tasks.len() <= usize::MAX,
        duplicates_bounded(task_views(tasks)),
    ensures
        fits_domains(search_order(task_views(tasks), agents), domains_of(search_order(task_views(tasks), agents), agents, tasks.len() as int)),
        search_order(task_views(tasks), agents).len() == tasks.len(),
{
    let tv = task_views(tasks);
    lemma_task_perm(tv, agents);
    let perm = task_perm(tv, agents);
    let order = search_order(tv, agents);
    let n = order.len() as int;
    let ds = domains_of(order, agents, n);
    lemma_domains_bounded(order, agents, n);
    assert forall|i: int| 0 <= i < order.len() implies (#[trigger] lookup(ds, order[i].id) matches Some(d) && forall|j: int|
        0 <= j < d.len() ==> d[j].1 + order[i].duration <= u64::MAX) by {
        assert(order[i] == tv[perm[i] as int]);
        if exists|m: int| 0 <= m < n && m != i && (#[trigger] order[m]).id == order[i].id {
            let m = choose|m: int| 0 <= m < n && m != i && (#[trigger] order[m]).id == order[i].id;
            assert(order[m] == tv[perm[m] as int]);
            assert(perm[m] != perm[i]);
            assert(tv[perm[i] as int].duration <= u64::MAX - start_time_limit());
            crate::idmap::lemma_lookup_in(ds, order[i].id);
            lemma_domains_has_key(order, agents, i, n);
            if lookup(ds, order[i].id) is Some {
                let d = lookup(ds, order[i].id).unwrap();
                let q = choose|q: int| 0 <= q < ds.len() && ds[q] == (order[i].id, d);
                assert forall|j: int| 0 <= j < d.len() implies d[j].1 + order[i].duration <= u64::MAX by {
                    assert(ds[q].1[j].1 <= start_time_limit());
                }
            }
        } else {
            lemma_domains_lookup_unique(order, agents, i, n);
            lemma_domain_bounded(order[i], agents);
            let d = domain_of(order[i], agents);
            assert(lookup(ds, order[i].id) == Some(d));
            assert forall|j: int| 0 <= j < d.len() implies d[j].1 + order[i].duration <= u64::MAX by {
                assert(d[j].1 <= latest_start_of(order[i]));
            }
        }
    }
}

impl CSPSolver {
    /// The search space `solve` explores for `agents` and `tasks`: the tasks in
    /// MRV order, each with its domain.
    pub open spec fn solve_space(&self, agents: Seq<AgentProfile>, tasks: Seq<TaskSpec>) -> SearchSpace {
        let order = search_order(task_views(tasks), agents);
        SearchSpace {
            constraints: self.constraints,
            order,
            domains: ac_domains(order, domains_of(order, agents, order.len() as int)),
            agents,
        }
    }

    /// The outcome of a search that the clock does not cut short.
    pub open spec fn solve_outcome(&self, agents: Seq<AgentProfile>, tasks: Seq<TaskSpec>) -> SearchOutcome {
        search(self.solve_space(agents, tasks), 0, seq![])
    }

    /// Solve the scheduling problem: the first schedule found by the search,
    /// unless the time budget runs out first (then `timed_out` is set and
    /// there is no schedule).
    pub fn solve(&self, agents: &[AgentProfile], tasks: &[TaskSpec]) -> (r: SolverResult)
        requires
            duplicates_bounded(task_views(tasks@)),
        ensures
            r.timed_out ==> r.schedule is None,
            r.timed_out ==> exists|d: Duration| exceeds(d, self.time_budget),
            !r.timed_out ==> ({
                let o = self.solve_outcome(agents@, tasks@);
                &&& (r.schedule is Some <==> o.found is Some)
                &&& (r.schedule matches Some(x) ==> o.found == Some(x.entries()))
                &&& r.nodes_explored == sat_add(0, o.nodes)
            }),
    {
        let start = now();
        let checker = ConstraintChecker::new(self.constraints);
        let task_order = self.order_for_search(tasks, agents);
        let n_tasks = tasks.len();
        let mut domains = self.build_domains(task_order.as_slice(), agents, tasks);
        self.ac3(&mut domains, task_order.as_slice(), agents, tasks);
        proof {
            lemma_fits_domains(tasks@, agents@);
            lemma_domains_distinct(task_views(task_order@), agents@, task_order@.len() as int);
            law_ac3_arc_consistent(task_views(task_order@), domains_of(task_views(task_order@), agents@, task_order@.len() as int));
            lemma_fits_within(task_views(task_order@), domains@, domains_of(task_views(task_order@), agents@, task_order@.len() as int));
        }
        let mut schedule = Schedule::new();
        let mut nodes: u64 = 0;
        let mut aborted = false;
        let found = self.backtrack(
            task_order.as_slice(),
            0,
            &domains,
            &mut schedule,
            &checker,
            agents,
            tasks,
            &mut nodes,
            &start,
            &mut aborted,
        );
        proof {
            assert(self.space(task_order@, domains@, agents@) == self.solve_space(agents@, tasks@));
        }
        SolverResult { schedule: found, nodes_explored: nodes, elapsed: elapsed(&start), timed_out: aborted }
    }
}

impl Default for CSPSolver {
    fn default() -> (s: Self)
        ensures
            s.constraints.capability_match && s.constraints.capacity_limits
                && s.constraints.dependency_ordering && s.constraints.deadline_enforcement,
            s.time_budget == crate::clock::duration_of_secs(10),
    {
        Self::new()
    }
}
} // verus!

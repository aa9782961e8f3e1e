//! Constraint definitions and checking for scheduling.
//!
//! The hard constraints are checked here. The soft cost weighs preferences,
//! load balance and deadline slack in floating point; this module computes the
//! integer quantities that cost is made of (`ConstraintChecker::cost_terms`).

use crate::agent::AgentProfile;
use crate::idmap::lookup;
use crate::schedule::{all_fit, end_of, AssignmentView, Schedule};
use crate::solver::overlapping_count;
use crate::task::TaskSpec;
use crate::text::{debug_text, debug_text_of_strings, decimal, push_decimal};
use vstd::prelude::*;
use vstd::string::StringExecFns;

verus! {

/// Hard constraint configuration: which hard constraints are enforced.
#[derive(Debug, Clone, Copy, PartialEq, Eq)]
pub struct Constraints {
    /// Whether to enforce capability matching (agent must have required skills).
    pub capability_match: bool,
    /// Whether to enforce capacity limits.
    pub capacity_limits: bool,
    /// Whether to enforce dependency ordering (deps must finish before task starts).
    pub dependency_ordering: bool,
    /// Whether to enforce deadline constraints.
    pub deadline_enforcement: bool,
}

impl Default for Constraints {
    fn default() -> (c: Self)
        ensures
            c.capability_match && c.capacity_limits && c.dependency_ordering && c.deadline_enforcement,
    {
        Constraints {
            capability_match: true,
            capacity_limits: true,
            dependency_ordering: true,
            deadline_enforcement: true,
        }
    }
}

impl Constraints {
    /// Create constraints with all hard constraints enabled.
    pub fn new() -> (c: Self)
        ensures
            c.capability_match && c.capacity_limits && c.dependency_ordering && c.deadline_enforcement,
    {
        Self::default()
    }

    /// Disable all hard constraints (for testing / relaxed scheduling).
    pub fn relaxed() -> (c: Self)
        ensures
            !c.capability_match && !c.capacity_limits && !c.dependency_ordering
                && !c.deadline_enforcement,
    {
        Constraints {
            capability_match: false,
            capacity_limits: false,
            dependency_ordering: false,
            deadline_enforcement: false,
        }
    }
}

/// What a violation states.
pub struct ViolationView {
    pub constraint_name: Seq<char>,
    pub task_id: Seq<char>,
    pub agent_id: Seq<char>,
    pub message: Seq<char>,
}

/// Result of checking a single constraint.
#[derive(Debug, Clone, PartialEq, Eq)]
pub struct ConstraintViolation {
    pub constraint_name: String,
    pub task_id: String,
    pub agent_id: String,
    pub message: String,
}

impl DeepView for ConstraintViolation {
    type V = ViolationView;

    open spec fn deep_view(&self) -> ViolationView {
        ViolationView {
            constraint_name: self.constraint_name@,
            task_id: self.task_id@,
            agent_id: self.agent_id@,
            message: self.message@,
        }
    }
}

/// A violation with the given fields.
pub open spec fn violation(name: Seq<char>, task: Seq<char>, agent: Seq<char>, message: Seq<char>) -> ViolationView {
    ViolationView { constraint_name: name, task_id: task, agent_id: agent, message }
}

/// Number of entries of `s` assigned to `agent`.
pub open spec fn count_for_agent(s: Seq<(Seq<char>, AssignmentView)>, agent: Seq<char>) -> nat
    decreases s.len(),
{
    if s.len() == 0 {
        0
    } else {
        count_for_agent(s.drop_last(), agent) + if s.last().1.agent == agent {
            1nat
        } else {
            0nat
        }
    }
}

/// Number of assignments of `agent` in `s`, other than the one of task `key`,
/// that overlap the interval from `start` to `end`.
pub open spec fn overlapping_except(s: Seq<(Seq<char>, AssignmentView)>, key: Seq<char>, agent: Seq<char>, start: int, end: int) -> nat
    decreases s.len(),
{
    if s.len() == 0 {
        0
    } else {
        let a = s.last().1;
        overlapping_except(s.drop_last(), key, agent, start, end) + if s.last().0 != key && a.agent == agent
            && a.start < end && start < end_of(a) {
            1nat
        } else {
            0nat
        }
    }
}

/// The most assignments of `agent` that overlap one of its assignments among
/// the first `n` of `s` (that assignment included), or 0.
pub open spec fn peak_overlap(s: Seq<(Seq<char>, AssignmentView)>, agent: Seq<char>, n: int) -> nat
    decreases n,
{
    if n <= 0 {
        0
    } else {
        let rest = peak_overlap(s, agent, n - 1);
        let e = s[n - 1].1;
        let here = if e.agent == agent {
            overlapping_count(s, agent, e.start as int, end_of(e))
        } else {
            0
        };
        if here > rest {
            here
        } else {
            rest
        }
    }
}

/// The load of `agent` in `s`: the most of its assignments that overlap one
/// of them in time. Capacity bounds this number of concurrent tasks.
pub open spec fn peak_load(s: Seq<(Seq<char>, AssignmentView)>, agent: Seq<char>) -> nat {
    peak_overlap(s, agent, s.len() as int)
}

/// The number of tasks `agent` already runs that a proposal of task `key`
/// competes with: those overlapping the task's own assignment when it has
/// one, else the agent's peak load.
pub open spec fn competing_count(s: Seq<(Seq<char>, AssignmentView)>, key: Seq<char>, agent: Seq<char>) -> nat {
    match lookup(s, key) {
        Some(ours) => overlapping_except(s, key, agent, ours.start as int, end_of(ours)),
        None => peak_load(s, agent),
    }
}

pub open spec fn msg_lacks(agent: Seq<char>, caps: Seq<Seq<char>>) -> Seq<char> {
    "Agent "@ + agent + " lacks capabilities: "@ + debug_text_of_strings(caps)
}

pub open spec fn msg_at_capacity(agent: Seq<char>, count: nat, cap: nat) -> Seq<char> {
    "Agent "@ + agent + " at capacity ("@ + decimal(count) + "/"@ + decimal(cap) + ")"@
}

pub open spec fn msg_starts_before(task: Seq<char>, start: nat, dep: Seq<char>, dep_end: nat) -> Seq<char> {
    "Task "@ + task + " starts at "@ + decimal(start) + " but dependency "@ + dep + " ends at "@
        + decimal(dep_end)
}

pub open spec fn msg_ends_after(task: Seq<char>, end: nat, deadline: nat) -> Seq<char> {
    "Task "@ + task + " ends at "@ + decimal(end) + " but deadline is "@ + decimal(deadline)
}

pub open spec fn msg_unknown_agent(agent: Seq<char>) -> Seq<char> {
    "Unknown agent: "@ + agent
}

pub open spec fn msg_misses_deadline(end: nat, deadline: nat) -> Seq<char> {
    "Misses deadline (ends "@ + decimal(end) + " > "@ + decimal(deadline) + ")"@
}

pub open spec fn msg_over_capacity(count: nat, cap: nat) -> Seq<char> {
    "Agent has "@ + decimal(count) + " tasks but capacity is "@ + decimal(cap)
}

pub open spec fn msg_dep_order(start: nat, dep: Seq<char>, dep_end: nat) -> Seq<char> {
    "Starts "@ + decimal(start) + " before dep "@ + dep + " ends "@ + decimal(dep_end)
}

// ---------------------------------------------------------------------------
// check_assignment

/// The violation, if any, of dependency `dep` when `task` is placed with
/// `agent` in `s`.
pub open spec fn dependency_violation(task: TaskSpec, agent: AgentProfile, s: Seq<(Seq<char>, AssignmentView)>, dep: Seq<char>) -> Seq<ViolationView> {
    match (lookup(s, dep), lookup(s, task.id@)) {
        (Some(d), Some(ours)) => if ours.start < end_of(d) {
            seq![
                violation(
                    "dependency_ordering"@,
                    task.id@,
                    agent.id@,
                    msg_starts_before(task.id@, ours.start as nat, dep, end_of(d) as nat),
                ),
            ]
        } else {
            seq![]
        },
        _ => seq![],
    }
}

/// The violations for the first `n` dependencies of `task` when placing it
/// with `agent` in `s`.
pub open spec fn dependency_violations_of(task: TaskSpec, agent: AgentProfile, s: Seq<(Seq<char>, AssignmentView)>, n: int) -> Seq<ViolationView>
    decreases n,
{
    if n <= 0 {
        seq![]
    } else {
        dependency_violations_of(task, agent, s, n - 1) + dependency_violation(task, agent, s, task.deps()[n - 1])
    }
}

/// The violations found when proposing `task` for `agent` against `s`.
pub open spec fn assignment_violations(c: Constraints, task: TaskSpec, agent: AgentProfile, s: Seq<(Seq<char>, AssignmentView)>) -> Seq<ViolationView> {
    let cap = if c.capability_match && !agent.can_do(task.required()) {
        seq![violation("capability_match"@, task.id@, agent.id@, msg_lacks(agent.id@, task.required()))]
    } else {
        seq![]
    };
    let count = competing_count(s, task.id@, agent.id@) as u32;
    let capacity = if c.capacity_limits && count >= agent.capacity {
        seq![
            violation(
                "capacity_limits"@,
                task.id@,
                agent.id@,
                msg_at_capacity(agent.id@, count as nat, agent.capacity as nat),
            ),
        ]
    } else {
        seq![]
    };
    let deps = if c.dependency_ordering {
        dependency_violations_of(task, agent, s, task.deps().len() as int)
    } else {
        seq![]
    };
    let deadline = match lookup(s, task.id@) {
        Some(a) => if c.deadline_enforcement && end_of(a) > task.deadline {
            seq![
                violation(
                    "deadline"@,
                    task.id@,
                    agent.id@,
                    msg_ends_after(task.id@, end_of(a) as nat, task.deadline as nat),
                ),
            ]
        } else {
            seq![]
        },
        None => seq![],
    };
    cap + capacity + deps + deadline
}

// ---------------------------------------------------------------------------
// check_schedule

/// Position of the last agent of `agents` with identifier `id`, or -1.
pub open spec fn last_agent_index(agents: Seq<AgentProfile>, id: Seq<char>) -> int
    decreases agents.len(),
{
    if agents.len() == 0 {
        -1
    } else if agents.last().id@ == id {
        agents.len() - 1
    } else {
        last_agent_index(agents.drop_last(), id)
    }
}

/// Position of the last task of `tasks` with identifier `id`, or -1.
pub open spec fn last_task_index(tasks: Seq<TaskSpec>, id: Seq<char>) -> int
    decreases tasks.len(),
{
    if tasks.len() == 0 {
        -1
    } else if tasks.last().id@ == id {
        tasks.len() - 1
    } else {
        last_task_index(tasks.drop_last(), id)
    }
}

/// The violations of the entry `(key, a)` of a schedule.
pub open spec fn entry_violations(c: Constraints, key: Seq<char>, a: AssignmentView, agents: Seq<AgentProfile>, tasks: Seq<TaskSpec>) -> Seq<ViolationView> {
    let ti = last_task_index(tasks, key);
    let ai = last_agent_index(agents, a.agent);
    if ti < 0 {
        seq![]
    } else if ai < 0 {
        seq![violation("unknown_agent"@, key, a.agent, msg_unknown_agent(a.agent))]
    } else {
        let task = tasks[ti];
        let agent = agents[ai];
        let cap = if c.capability_match && !agent.can_do(task.required()) {
            seq![violation("capability_match"@, key, agent.id@, "Agent lacks required capabilities"@)]
        } else {
            seq![]
        };
        let deadline = if c.deadline_enforcement && end_of(a) > task.deadline {
            seq![
                violation(
                    "deadline"@,
                    key,
                    agent.id@,
                    msg_misses_deadline(end_of(a) as nat, task.deadline as nat),
                ),
            ]
        } else {
            seq![]
        };
        cap + deadline
    }
}

/// The violations of the first `n` entries of `s`.
pub open spec fn entries_violations(c: Constraints, s: Seq<(Seq<char>, AssignmentView)>, agents: Seq<AgentProfile>, tasks: Seq<TaskSpec>, n: int) -> Seq<ViolationView>
    decreases n,
{
    if n <= 0 {
        seq![]
    } else {
        entries_violations(c, s, agents, tasks, n - 1) + entry_violations(
            c,
            s[n - 1].0,
            s[n - 1].1,
            agents,
            tasks,
        )
    }
}

/// The capacity violation, if any, of `agent`: more of its tasks overlap
/// than its capacity allows.
pub open spec fn capacity_violation(s: Seq<(Seq<char>, AssignmentView)>, agent: AgentProfile) -> Seq<ViolationView> {
    let count = peak_load(s, agent.id@);
    if count > agent.capacity {
        seq![violation("capacity_limits"@, "N/A"@, agent.id@, msg_over_capacity(count, agent.capacity as nat))]
    } else {
        seq![]
    }
}

/// The capacity violations of the first `n` agents.
pub open spec fn capacity_violations(s: Seq<(Seq<char>, AssignmentView)>, agents: Seq<AgentProfile>, n: int) -> Seq<ViolationView>
    decreases n,
{
    if n <= 0 {
        seq![]
    } else {
        capacity_violations(s, agents, n - 1) + capacity_violation(s, agents[n - 1])
    }
}

/// The ordering violation, if any, of dependency `dep` of the task `key`
/// placed at `ours`.
pub open spec fn order_violation(key: Seq<char>, ours: AssignmentView, dep: Seq<char>, s: Seq<(Seq<char>, AssignmentView)>) -> Seq<ViolationView> {
    match lookup(s, dep) {
        Some(d) => if ours.start < end_of(d) {
            seq![
                violation(
                    "dependency_ordering"@,
                    key,
                    ours.agent,
                    msg_dep_order(ours.start as nat, dep, end_of(d) as nat),
                ),
            ]
        } else {
            seq![]
        },
        None => seq![],
    }
}

/// The ordering violations of the first `n` dependencies of the task `key`
/// placed at `ours`.
pub open spec fn order_violations_of(key: Seq<char>, ours: AssignmentView, deps: Seq<Seq<char>>, s: Seq<(Seq<char>, AssignmentView)>, n: int) -> Seq<ViolationView>
    decreases n,
{
    if n <= 0 {
        seq![]
    } else {
        order_violations_of(key, ours, deps, s, n - 1) + order_violation(key, ours, deps[n - 1], s)
    }
}

/// The ordering violations of the first `n` tasks.
pub open spec fn ordering_violations(s: Seq<(Seq<char>, AssignmentView)>, tasks: Seq<TaskSpec>, n: int) -> Seq<ViolationView>
    decreases n,
{
    if n <= 0 {
        seq![]
    } else {
        let rest = ordering_violations(s, tasks, n - 1);
        let task = tasks[n - 1];
        match lookup(s, task.id@) {
            Some(ours) => rest + order_violations_of(task.id@, ours, task.deps(), s, task.deps().len() as int),
            None => rest,
        }
    }
}

/// Whether every end time the checker computes is representable: the end of
/// each assignment whose task and agent are known, when deadlines are
/// enforced; the end of each placed dependency of a placed task, when
/// dependency ordering is enforced.
pub open spec fn checked_ends_fit(c: Constraints, s: Seq<(Seq<char>, AssignmentView)>, agents: Seq<AgentProfile>, tasks: Seq<TaskSpec>) -> bool {
    &&& forall|i: int|
        0 <= i < s.len() && c.deadline_enforcement && last_task_index(tasks, (#[trigger] s[i]).0) >= 0
            && last_agent_index(agents, s[i].1.agent) >= 0 ==> crate::schedule::fits(s[i].1)
    &&& forall|t: int, j: int|
        0 <= t < tasks.len() && 0 <= j < tasks[t].deps().len() && c.dependency_ordering && lookup(s, tasks[t].id@) is Some
            ==> (#[trigger] lookup(s, tasks[t].deps()[j]) matches Some(dd) ==> crate::schedule::fits(dd))
}

/// All violations of a schedule, in the order they are reported.
pub open spec fn schedule_violations(c: Constraints, s: Seq<(Seq<char>, AssignmentView)>, agents: Seq<AgentProfile>, tasks: Seq<TaskSpec>) -> Seq<ViolationView> {
    entries_violations(c, s, agents, tasks, s.len() as int) + (if c.capacity_limits {
        capacity_violations(s, agents, agents.len() as int)
    } else {
        seq![]
    }) + (if c.dependency_ordering {
        ordering_violations(s, tasks, tasks.len() as int)
    } else {
        seq![]
    })
}

/// Validates schedules against constraints.
pub struct ConstraintChecker {
    pub constraints: Constraints,
}

fn text(s: &str) -> (r: String)
    ensures
        r@ == s@,
{
    s.to_owned()
}

/// The number of assignments of `agent_id` overlapping the interval from
/// `start` to `end`, leaving out the one of task `skip` when `skipping`.
pub(crate) fn count_overlapping(schedule: &Schedule, agent_id: &String, start: u64, end: u128, skip: &String, skipping: bool) -> (n: usize)
    ensures
        skipping ==> n == overlapping_except(schedule.entries(), skip@, agent_id@, start as int, end as int),
        !skipping ==> n == overlapping_count(schedule.entries(), agent_id@, start as int, end as int),
{
    let ghost s = schedule.entries();
    let len = schedule.assignments.len();
    let mut n: usize = 0;
    let mut i: usize = 0;
    while i < len
        invariant
            len == s.len(),
            s == schedule.entries(),
            i <= len,
            skipping ==> n == overlapping_except(s.take(i as int), skip@, agent_id@, start as int, end as int),
            !skipping ==> n == overlapping_count(s.take(i as int), agent_id@, start as int, end as int),
            n <= i,
        decreases len - i,
    {
        assert(s.take(i + 1).drop_last() =~= s.take(i as int));
        let k = schedule.assignments.key_at(i);
        let a = schedule.assignments.value_at(i);
        let a_end: u128 = a.start_time as u128 + a.duration as u128;
        if (!skipping || *k != *skip) && a.agent_id == *agent_id && (a.start_time as u128) < end && (start as u128) < a_end {
            n = n + 1;
        }
        i = i + 1;
    }
    assert(s.take(len as int) =~= s);
    n
}

/// The peak load of `agent_id` in the schedule.
fn peak_of(schedule: &Schedule, agent_id: &String) -> (p: usize)
    ensures
        p == peak_load(schedule.entries(), agent_id@),
{
    let ghost s = schedule.entries();
    let len = schedule.assignments.len();
    let empty = String::new();
    let mut p: usize = 0;
    let mut i: usize = 0;
    while i < len
        invariant
            len == s.len(),
            s == schedule.entries(),
            i <= len,
            p == peak_overlap(s, agent_id@, i as int),
        decreases len - i,
    {
        let a = schedule.assignments.value_at(i);
        if a.agent_id == *agent_id {
            let here = count_overlapping(schedule, agent_id, a.start_time, (a.start_time as u128) + (a.duration as u128), &empty, false);
            if here > p {
                p = here;
            }
        }
        i = i + 1;
    }
    p
}

pub(crate) fn count_assigned(schedule: &Schedule, agent_id: &String) -> (n: usize)
    ensures
        n == count_for_agent(schedule.entries(), agent_id@),
{
    let ghost s = schedule.entries();
    let len = schedule.assignments.len();
    let mut n: usize = 0;
    let mut i: usize = 0;
    while i < len
        invariant
            len == s.len(),
            s == schedule.entries(),
            i <= len,
            n == count_for_agent(s.take(i as int), agent_id@),
            n <= i,
        decreases len - i,
    {
        assert(s.take(i + 1).drop_last() =~= s.take(i as int));
        if schedule.assignments.value_at(i).agent_id == *agent_id {
            n = n + 1;
        }
        i = i + 1;
    }
    assert(s.take(len as int) =~= s);
    n
}

pub(crate) fn find_last_agent(agents: &[AgentProfile], id: &String) -> (r: Option<usize>)
    ensures
        match r {
            Some(i) => i < agents@.len() && last_agent_index(agents@, id@) == i,
            None => last_agent_index(agents@, id@) == -1,
        },
{
    let mut found: Option<usize> = None;
    let mut i: usize = 0;
    while i < agents.len()
        invariant
            i <= agents@.len(),
            match found {
                Some(j) => j < i && last_agent_index(agents@.take(i as int), id@) == j,
                None => last_agent_index(agents@.take(i as int), id@) == -1,
            },
        decreases agents@.len() - i,
    {
        assert(agents@.take(i + 1).drop_last() =~= agents@.take(i as int));
        if agents[i].id == *id {
            found = Some(i);
        }
        i = i + 1;
    }
    assert(agents@.take(agents@.len() as int) =~= agents@);
    found
}

pub(crate) fn find_last_task(tasks: &[TaskSpec], id: &String) -> (r: Option<usize>)
    ensures
        match r {
            Some(i) => i < tasks@.len() && last_task_index(tasks@, id@) == i,
            None => last_task_index(tasks@, id@) == -1,
        },
{
    let mut found: Option<usize> = None;
    let mut i: usize = 0;
    while i < tasks.len()
        invariant
            i <= tasks@.len(),
            match found {
                Some(j) => j < i && last_task_index(tasks@.take(i as int), id@) == j,
                None => last_task_index(tasks@.take(i as int), id@) == -1,
            },
        decreases tasks@.len() - i,
    {
        assert(tasks@.take(i + 1).drop_last() =~= tasks@.take(i as int));
        if tasks[i].id == *id {
            found = Some(i);
        }
        i = i + 1;
    }
    assert(tasks@.take(tasks@.len() as int) =~= tasks@);
    found
}

pub(crate) proof fn lemma_last_agent_index_bounds(agents: Seq<AgentProfile>, id: Seq<char>)
    ensures
        -1 <= last_agent_index(agents, id) < agents.len(),
        last_agent_index(agents, id) >= 0 ==> agents[last_agent_index(agents, id)].id@ == id,
    decreases agents.len(),
{
    if agents.len() > 0 && agents.last().id@ != id {
        lemma_last_agent_index_bounds(agents.drop_last(), id);
    }
}

pub(crate) proof fn lemma_last_task_index_bounds(tasks: Seq<TaskSpec>, id: Seq<char>)
    ensures
        -1 <= last_task_index(tasks, id) < tasks.len(),
        last_task_index(tasks, id) >= 0 ==> tasks[last_task_index(tasks, id)].id@ == id,
    decreases tasks.len(),
{
    if tasks.len() > 0 && tasks.last().id@ != id {
        lemma_last_task_index_bounds(tasks.drop_last(), id);
    }
}


fn make_violation(name: &str, task: &String, agent: &String, message: String) -> (v: ConstraintViolation)
    ensures
        v.deep_view() == violation(name@, task@, agent@, message@),
{
    ConstraintViolation {
        constraint_name: text(name),
        task_id: task.clone(),
        agent_id: agent.clone(),
        message,
    }
}

fn text_lacks(agent: &String, caps: &Vec<String>) -> (r: String)
    ensures
        r@ == msg_lacks(agent@, crate::task::string_views(caps@)),
{
    let mut m = text("Agent ");
    m.append(agent.as_str());
    m.append(" lacks capabilities: ");
    let d = debug_text(caps);
    m.append(d.as_str());
    assert(m@ =~= msg_lacks(agent@, crate::task::string_views(caps@)));
    m
}

fn text_at_capacity(agent: &String, count: u32, cap: u32) -> (r: String)
    ensures
        r@ == msg_at_capacity(agent@, count as nat, cap as nat),
{
    let mut m = text("Agent ");
    m.append(agent.as_str());
    m.append(" at capacity (");
    push_decimal(&mut m, count as u64);
    m.append("/");
    push_decimal(&mut m, cap as u64);
    m.append(")");
    assert(m@ =~= msg_at_capacity(agent@, count as nat, cap as nat));
    m
}

fn text_starts_before(task: &String, start: u64, dep: &String, dep_end: u64) -> (r: String)
    ensures
        r@ == msg_starts_before(task@, start as nat, dep@, dep_end as nat),
{
    let mut m = text("Task ");
    m.append(task.as_str());
    m.append(" starts at ");
    push_decimal(&mut m, start);
    m.append(" but dependency ");
    m.append(dep.as_str());
    m.append(" ends at ");
    push_decimal(&mut m, dep_end);
    assert(m@ =~= msg_starts_before(task@, start as nat, dep@, dep_end as nat));
    m
}

fn text_ends_after(task: &String, end: u64, deadline: u64) -> (r: String)
    ensures
        r@ == msg_ends_after(task@, end as nat, deadline as nat),
{
    let mut m = text("Task ");
    m.append(task.as_str());
    m.append(" ends at ");
    push_decimal(&mut m, end);
    m.append(" but deadline is ");
    push_decimal(&mut m, deadline);
    assert(m@ =~= msg_ends_after(task@, end as nat, deadline as nat));
    m
}

fn text_unknown_agent(agent: &String) -> (r: String)
    ensures
        r@ == msg_unknown_agent(agent@),
{
    let mut m = text("Unknown agent: ");
    m.append(agent.as_str());
    m
}

fn text_misses_deadline(end: u64, deadline: u64) -> (r: String)
    ensures
        r@ == msg_misses_deadline(end as nat, deadline as nat),
{
    let mut m = text("Misses deadline (ends ");
    push_decimal(&mut m, end);
    m.append(" > ");
    push_decimal(&mut m, deadline);
    m.append(")");
    assert(m@ =~= msg_misses_deadline(end as nat, deadline as nat));
    m
}

fn text_over_capacity(count: u64, cap: u32) -> (r: String)
    ensures
        r@ == msg_over_capacity(count as nat, cap as nat),
{
    let mut m = text("Agent has ");
    push_decimal(&mut m, count);
    m.append(" tasks but capacity is ");
    push_decimal(&mut m, cap as u64);
    assert(m@ =~= msg_over_capacity(count as nat, cap as nat));
    m
}

fn text_dep_order(start: u64, dep: &String, dep_end: u64) -> (r: String)
    ensures
        r@ == msg_dep_order(start as nat, dep@, dep_end as nat),
{
    let mut m = text("Starts ");
    push_decimal(&mut m, start);
    m.append(" before dep ");
    m.append(dep.as_str());
    m.append(" ends ");
    push_decimal(&mut m, dep_end);
    assert(m@ =~= msg_dep_order(start as nat, dep@, dep_end as nat));
    m
}

impl ConstraintChecker {
    /// Create a new checker with the given constraints.
    pub fn new(constraints: Constraints) -> (c: Self)
        ensures
            c.constraints == constraints,
    {
        ConstraintChecker { constraints }
    }

    /// Check a single proposed assignment (task to agent) against the hard
    /// constraints. Returns the violations (empty if valid): a missing
    /// capability, the agent already running as many tasks at once as its
    /// capacity (those overlapping the task's scheduled slot, or its peak when
    /// the task is not scheduled), each dependency that ends after the task's
    /// scheduled start,
    /// and a scheduled end after the deadline.
    pub fn check_assignment(
        &self,
        task: &TaskSpec,
        agent: &AgentProfile,
        schedule: &Schedule,
        _tasks: &[TaskSpec],
    ) -> (r: Vec<ConstraintViolation>)
        requires
            self.constraints.deadline_enforcement ==> (lookup(schedule.entries(), task.id@) matches Some(a) ==> crate::schedule::fits(a)),
            self.constraints.dependency_ordering ==> forall|j: int|
                0 <= j < task.deps().len() ==> (#[trigger] lookup(schedule.entries(), task.deps()[j]) matches Some(d)
                    ==> crate::schedule::fits(d)),
        ensures
            r.deep_view() == assignment_violations(self.constraints, *task, *agent, schedule.entries()),
    {
        let ghost s = schedule.entries();
        let ghost c = self.constraints;
        let mut violations: Vec<ConstraintViolation> = Vec::new();

        if self.constraints.capability_match && !agent.has_capabilities(task.required_capabilities.as_slice()) {
            let m = text_lacks(&agent.id, &task.required_capabilities);
            violations.push(make_violation("capability_match", &task.id, &agent.id, m));
        }
        let ghost after_cap = violations.deep_view();
        assert(after_cap =~= (if c.capability_match && !agent.can_do(task.required()) {
            seq![violation("capability_match"@, task.id@, agent.id@, msg_lacks(agent.id@, task.required()))]
        } else {
            seq![]
        }));

        if self.constraints.capacity_limits {
            let competing = match schedule.assignments.get(task.id.as_str()) {
                Some(ours) => {
                    count_overlapping(schedule, &agent.id, ours.start_time, (ours.start_time as u128) + (ours.duration as u128), &task.id, true)
                },
                None => peak_of(schedule, &agent.id),
            };
            assert(competing == competing_count(s, task.id@, agent.id@));
            let assigned_count = #[verifier::truncate] (competing as u32);
            if assigned_count >= agent.capacity {
                let m = text_at_capacity(&agent.id, assigned_count, agent.capacity);
                violations.push(make_violation("capacity_limits", &task.id, &agent.id, m));
            }
        }
        let ghost after_capacity = violations.deep_view();
        assert(after_capacity =~= after_cap + (if c.capacity_limits && (competing_count(s, task.id@, agent.id@) as u32) >= agent.capacity {
            seq![
                violation(
                    "capacity_limits"@,
                    task.id@,
                    agent.id@,
                    msg_at_capacity(agent.id@, (competing_count(s, task.id@, agent.id@) as u32) as nat, agent.capacity as nat),
                ),
            ]
        } else {
            seq![]
        }));

        if self.constraints.dependency_ordering {
            let mut i: usize = 0;
            while i < task.dependencies.len()
                invariant
                    s == schedule.entries(),
                    forall|j: int|
                        0 <= j < task.deps().len() ==> (#[trigger] lookup(s, task.deps()[j]) matches Some(d) ==> crate::schedule::fits(d)),
                    i <= task.dependencies@.len(),
                    violations.deep_view() == after_capacity + dependency_violations_of(*task, *agent, s, i as int),
                decreases task.dependencies@.len() - i,
            {
                let dep_id = &task.dependencies[i];
                assert(task.deps()[i as int] == dep_id@);
                let ghost before = violations.deep_view();
                match schedule.assignments.get(dep_id.as_str()) {
                    Some(dep_assignment) => {
                        assert(lookup(s, task.deps()[i as int]) == Some(dep_assignment@));
                        let dep_end = dep_assignment.start_time + dep_assignment.duration;
                        match schedule.assignments.get(task.id.as_str()) {
                            Some(our_assignment) => {
                                if our_assignment.start_time < dep_end {
                                    let m = text_starts_before(&task.id, our_assignment.start_time, dep_id, dep_end);
                                    violations.push(make_violation("dependency_ordering", &task.id, &agent.id, m));
                                }
                            },
                            None => {},
                        }
                    },
                    None => {},
                }
                assert(violations.deep_view() =~= before + dependency_violation(*task, *agent, s, dep_id@));
                assert(violations.deep_view() =~= after_capacity + dependency_violations_of(*task, *agent, s, i + 1));
                i = i + 1;
            }
        }
        let ghost after_deps = violations.deep_view();
        assert(after_deps =~= after_capacity + (if c.dependency_ordering {
            dependency_violations_of(*task, *agent, s, task.deps().len() as int)
        } else {
            seq![]
        }));

        if self.constraints.deadline_enforcement {
            match schedule.assignments.get(task.id.as_str()) {
                Some(assignment) => {
                    let end_time = assignment.start_time + assignment.duration;
                    if end_time > task.deadline {
                        let m = text_ends_after(&task.id, end_time, task.deadline);
                        violations.push(make_violation("deadline", &task.id, &agent.id, m));
                    }
                },
                None => {},
            }
        }
        assert(violations.deep_view() =~= assignment_violations(c, *task, *agent, s));
        violations
    }
}

proof fn lemma_count_bound(s: Seq<(Seq<char>, AssignmentView)>, agent: Seq<char>)
    ensures
        count_for_agent(s, agent) <= s.len(),
    decreases s.len(),
{
    if s.len() > 0 {
        lemma_count_bound(s.drop_last(), agent);
    }
}

impl ConstraintChecker {
    fn check_entry(
        &self,
        key: &String,
        a: &crate::schedule::Assignment,
        agents: &[AgentProfile],
        tasks: &[TaskSpec],
        violations: &mut Vec<ConstraintViolation>,
    )
        requires
            (self.constraints.deadline_enforcement && last_task_index(tasks@, key@) >= 0 && last_agent_index(
                agents@,
                a@.agent,
            ) >= 0) ==> crate::schedule::fits(a@),
        ensures
            final(violations).deep_view() == old(violations).deep_view() + entry_violations(
                self.constraints,
                key@,
                a@,
                agents@,
                tasks@,
            ),
    {
        let ghost before = violations.deep_view();
        proof {
            lemma_last_task_index_bounds(tasks@, key@);
            lemma_last_agent_index_bounds(agents@, a@.agent);
        }
        let ti = match find_last_task(tasks, key) {
            Some(t) => t,
            None => {
                assert(entry_violations(self.constraints, key@, a@, agents@, tasks@) =~= seq![]);
                assert(violations.deep_view() =~= before + seq![]);
                return;
            },
        };
        let ai = match find_last_agent(agents, &a.agent_id) {
            Some(x) => x,
            None => {
                let m = text_unknown_agent(&a.agent_id);
                violations.push(make_violation("unknown_agent", key, &a.agent_id, m));
                assert(violations.deep_view() =~= before + entry_violations(self.constraints, key@, a@, agents@, tasks@));
                return;
            },
        };
        let task = &tasks[ti];
        let agent = &agents[ai];
        if self.constraints.capability_match && !agent.has_capabilities(task.required_capabilities.as_slice()) {
            let m = text("Agent lacks required capabilities");
            violations.push(make_violation("capability_match", key, &agent.id, m));
        }
        if self.constraints.deadline_enforcement {
            let end = a.start_time + a.duration;
            if end > task.deadline {
                let m = text_misses_deadline(end, task.deadline);
                violations.push(make_violation("deadline", key, &agent.id, m));
            }
        }
        assert(violations.deep_view() =~= before + entry_violations(self.constraints, key@, a@, agents@, tasks@));
    }

    /// Check an entire schedule for violations: for each assignment whose
    /// task is known, an unknown agent, a missing capability or a missed
    /// deadline; then each agent with more tasks overlapping in time than its
    /// capacity;
    /// then each task that starts before one of its dependencies ends.
    pub fn check_schedule(
        &self,
        schedule: &Schedule,
        agents: &[AgentProfile],
        tasks: &[TaskSpec],
    ) -> (r: Vec<ConstraintViolation>)
        requires
            checked_ends_fit(self.constraints, schedule.entries(), agents@, tasks@),
        ensures
            r.deep_view() == schedule_violations(self.constraints, schedule.entries(), agents@, tasks@),
    {
        let ghost s = schedule.entries();
        let ghost c = self.constraints;
        let mut violations: Vec<ConstraintViolation> = Vec::new();
        let n = schedule.assignments.len();
        let mut i: usize = 0;
        while i < n
            invariant
                s == schedule.entries(),
                n == s.len(),
                checked_ends_fit(c, s, agents@, tasks@),
                i <= n,
                c == self.constraints,
                violations.deep_view() == entries_violations(c, s, agents@, tasks@, i as int),
            decreases n - i,
        {
            let key = schedule.assignments.key_at(i);
            let a = schedule.assignments.value_at(i);
            let ghost before = violations.deep_view();
            assert(a@ == s[i as int].1);
            assert(key@ == s[i as int].0);
            self.check_entry(key, a, agents, tasks, &mut violations);
            assert(violations.deep_view() == before + entry_violations(self.constraints, key@, a@, agents@, tasks@));
            assert(violations.deep_view() == before + entry_violations(c, s[i as int].0, s[i as int].1, agents@, tasks@));
            assert(entries_violations(c, s, agents@, tasks@, i + 1) == entries_violations(c, s, agents@, tasks@, i as int) + entry_violations(c, s[i as int].0, s[i as int].1, agents@, tasks@));
            i = i + 1;
        }
        let ghost after_entries = violations.deep_view();

        if self.constraints.capacity_limits {
            let mut j: usize = 0;
            while j < agents.len()
                invariant
                    s == schedule.entries(),
                    j <= agents@.len(),
                    violations.deep_view() == after_entries + capacity_violations(s, agents@, j as int),
                decreases agents@.len() - j,
            {
                let agent = &agents[j];
                let ghost before = violations.deep_view();
                let count = peak_of(schedule, &agent.id);
                if count > agent.capacity as usize {
                    let m = text_over_capacity(count as u64, agent.capacity);
                    violations.push(make_violation("capacity_limits", &text("N/A"), &agent.id, m));
                }
                assert(violations.deep_view() =~= before + capacity_violation(s, agents@[j as int]));
                assert(violations.deep_view() =~= after_entries + capacity_violations(s, agents@, j + 1));
                j = j + 1;
            }
        }
        let ghost after_capacity = violations.deep_view();
        assert(after_capacity =~= after_entries + (if c.capacity_limits {
            capacity_violations(s, agents@, agents@.len() as int)
        } else {
            seq![]
        }));

        if self.constraints.dependency_ordering {
            let mut t: usize = 0;
            while t < tasks.len()
                invariant
                    s == schedule.entries(),
                    checked_ends_fit(c, s, agents@, tasks@),
                    c == self.constraints,
                    c.dependency_ordering,
                    t <= tasks@.len(),
                    violations.deep_view() == after_capacity + ordering_violations(s, tasks@, t as int),
                decreases tasks@.len() - t,
            {
                let task = &tasks[t];
                let ghost before_task = violations.deep_view();
                match schedule.assignments.get(task.id.as_str()) {
                    Some(ours) => {
                        let mut d: usize = 0;
                        while d < task.dependencies.len()
                            invariant
                                s == schedule.entries(),
                                checked_ends_fit(c, s, agents@, tasks@),
                                c.dependency_ordering,
                                task == tasks@[t as int],
                                t < tasks@.len(),
                                d <= task.dependencies@.len(),
                                lookup(s, task.id@) == Some(ours@),
                                violations.deep_view() == before_task + order_violations_of(task.id@, ours@, task.deps(), s, d as int),
                            decreases task.dependencies@.len() - d,
                        {
                            let dep_id = &task.dependencies[d];
                            assert(task.deps()[d as int] == dep_id@);
                            let ghost before = violations.deep_view();
                            match schedule.assignments.get(dep_id.as_str()) {
                                Some(dep_assignment) => {
                                    proof {
                                        assert(lookup(s, tasks@[t as int].deps()[d as int]) == Some(dep_assignment@));
                                    }
                                    let dep_end = dep_assignment.start_time + dep_assignment.duration;
                                    if ours.start_time < dep_end {
                                        let m = text_dep_order(ours.start_time, dep_id, dep_end);
                                        violations.push(make_violation("dependency_ordering", &task.id, &ours.agent_id, m));
                                    }
                                },
                                None => {},
                            }
                            assert(violations.deep_view() =~= before + order_violation(task.id@, ours@, dep_id@, s));
                            assert(violations.deep_view() =~= before_task + order_violations_of(task.id@, ours@, task.deps(), s, d + 1));
                            d = d + 1;
                        }
                        assert(violations.deep_view() =~= after_capacity + ordering_violations(s, tasks@, t + 1));
                    },
                    None => {
                        assert(violations.deep_view() =~= after_capacity + ordering_violations(s, tasks@, t + 1));
                    },
                }
                t = t + 1;
            }
        }
        assert(violations.deep_view() =~= schedule_violations(c, s, agents@, tasks@));
        violations
    }
}

/// The quantities the soft cost of a schedule is computed from.
#[derive(Debug)]
pub struct CostTerms {
    /// For each assignment whose agent and task are both known, in schedule
    /// order: the positions of that agent and that task (the last ones with
    /// those identifiers).
    pub preference_pairs: Vec<(usize, usize)>,
    /// For each agent identifier that occurs in the schedule, in order of
    /// first occurrence: the number of assignments it holds.
    pub agent_loads: Vec<u32>,
    /// For each assignment whose task is known and that ends by the task's
    /// deadline, in schedule order: the time left until the deadline.
    pub slacks: Vec<u64>,
}

/// The preference pairs of the first `n` entries.
pub open spec fn preference_pairs(s: Seq<(Seq<char>, AssignmentView)>, agents: Seq<AgentProfile>, tasks: Seq<TaskSpec>, n: int) -> Seq<(usize, usize)>
    decreases n,
{
    if n <= 0 {
        seq![]
    } else {
        let rest = preference_pairs(s, agents, tasks, n - 1);
        let ai = last_agent_index(agents, s[n - 1].1.agent);
        let ti = last_task_index(tasks, s[n - 1].0);
        if ai >= 0 && ti >= 0 {
            rest.push((ai as usize, ti as usize))
        } else {
            rest
        }
    }
}

/// The agent identifiers of the first `n` entries, each once, in order of
/// first occurrence.
pub open spec fn agents_in_order(s: Seq<(Seq<char>, AssignmentView)>, n: int) -> Seq<Seq<char>>
    decreases n,
{
    if n <= 0 {
        seq![]
    } else {
        let rest = agents_in_order(s, n - 1);
        if rest.contains(s[n - 1].1.agent) {
            rest
        } else {
            rest.push(s[n - 1].1.agent)
        }
    }
}

/// The slacks of the first `n` entries.
pub open spec fn slacks_of(s: Seq<(Seq<char>, AssignmentView)>, tasks: Seq<TaskSpec>, n: int) -> Seq<u64>
    decreases n,
{
    if n <= 0 {
        seq![]
    } else {
        let rest = slacks_of(s, tasks, n - 1);
        let ti = last_task_index(tasks, s[n - 1].0);
        if ti >= 0 && end_of(s[n - 1].1) <= tasks[ti].deadline {
            rest.push((tasks[ti].deadline - end_of(s[n - 1].1)) as u64)
        } else {
            rest
        }
    }
}

proof fn lemma_agents_in_order_contains(s: Seq<(Seq<char>, AssignmentView)>, n: int, x: Seq<char>)
    requires
        0 <= n <= s.len(),
    ensures
        agents_in_order(s, n).contains(x) <==> exists|j: int| 0 <= j < n && s[j].1.agent == x,
    decreases n,
{
    if n > 0 {
        lemma_agents_in_order_contains(s, n - 1, x);
        let rest = agents_in_order(s, n - 1);
        if rest.contains(s[n - 1].1.agent) {
        } else {
            let r = rest.push(s[n - 1].1.agent);
            if r.contains(x) && x != s[n - 1].1.agent {
                let k = choose|k: int| 0 <= k < r.len() && r[k] == x;
                assert(rest[k] == x);
            }
            if rest.contains(x) {
                let k = choose|k: int| 0 <= k < rest.len() && rest[k] == x;
                assert(r[k] == x);
            }
            assert(r[r.len() - 1] == s[n - 1].1.agent);
        }
    }
}

impl ConstraintChecker {
    /// The integer quantities of the soft cost of `schedule`: which agent and
    /// task each assignment weighs the preference of, how many assignments
    /// each agent holds, and how much slack each assignment leaves.
    pub fn cost_terms(&self, schedule: &Schedule, agents: &[AgentProfile], tasks: &[TaskSpec]) -> (r: CostTerms)
        requires
            forall|i: int|
                0 <= i < schedule.entries().len() && last_task_index(tasks@, (#[trigger] schedule.entries()[i]).0) >= 0
                    ==> crate::schedule::fits(schedule.entries()[i].1),
            schedule.entries().len() <= u32::MAX,
        ensures
            r.preference_pairs@ == preference_pairs(schedule.entries(), agents@, tasks@, schedule.entries().len() as int),
            r.agent_loads@ == agents_in_order(schedule.entries(), schedule.entries().len() as int).map_values(
                |id: Seq<char>| count_for_agent(schedule.entries(), id) as u32,
            ),
            r.slacks@ == slacks_of(schedule.entries(), tasks@, schedule.entries().len() as int),
    {
        let ghost s = schedule.entries();
        let n = schedule.assignments.len();
        let mut pairs: Vec<(usize, usize)> = Vec::new();
        let mut loads: Vec<u32> = Vec::new();
        let mut slacks: Vec<u64> = Vec::new();
        let mut i: usize = 0;
        while i < n
            invariant
                s == schedule.entries(),
                n == s.len(),
                n <= u32::MAX,
                forall|q: int| 0 <= q < s.len() && last_task_index(tasks@, (#[trigger] s[q]).0) >= 0 ==> crate::schedule::fits(s[q].1),
                i <= n,
                pairs@ == preference_pairs(s, agents@, tasks@, i as int),
                loads@ == agents_in_order(s, i as int).map_values(|id: Seq<char>| count_for_agent(s, id) as u32),
                slacks@ == slacks_of(s, tasks@, i as int),
            decreases n - i,
        {
            let key = schedule.assignments.key_at(i);
            let a = schedule.assignments.value_at(i);
            assert(key@ == s[i as int].0 && a@ == s[i as int].1);
            proof {
                lemma_last_task_index_bounds(tasks@, key@);
                lemma_last_agent_index_bounds(agents@, a@.agent);
            }
            let ai = find_last_agent(agents, &a.agent_id);
            let ti = find_last_task(tasks, key);
            match (ai, ti) {
                (Some(x), Some(y)) => {
                    pairs.push((x, y));
                },
                _ => {},
            }
            match ti {
                Some(y) => {
                    let end = a.start_time + a.duration;
                    if end <= tasks[y].deadline {
                        slacks.push(tasks[y].deadline - end);
                    }
                },
                None => {},
            }
            let mut seen = false;
            let mut j: usize = 0;
            while j < i
                invariant
                    s == schedule.entries(),
                    n == s.len(),
                    i < n,
                    j <= i,
                    a@ == s[i as int].1,
                    seen == exists|k: int| 0 <= k < j && s[k].1.agent == s[i as int].1.agent,
                decreases i - j,
            {
                if schedule.assignments.value_at(j).agent_id == a.agent_id {
                    seen = true;
                }
                j = j + 1;
            }
            proof {
                lemma_agents_in_order_contains(s, i as int, s[i as int].1.agent);
            }
            if !seen {
                proof {
                    lemma_count_bound(s, a@.agent);
                }
                let count = count_assigned(schedule, &a.agent_id) as u32;
                loads.push(count);
            }
            assert(loads@ =~= agents_in_order(s, i + 1).map_values(|id: Seq<char>| count_for_agent(s, id) as u32));
            i = i + 1;
        }
        CostTerms { preference_pairs: pairs, agent_loads: loads, slacks }
    }
}
} // verus!

//! What the checker reports, stated task by task.

use crate::agent::AgentProfile;
use crate::constraint::{
    assignment_violations, capacity_violation, capacity_violations, dependency_violations_of, entries_violations, entry_violations, last_agent_index,
    last_task_index, lemma_last_agent_index_bounds, lemma_last_task_index_bounds, order_violation, order_violations_of,
    ordering_violations, schedule_violations, Constraints, ViolationView,
};
use crate::idmap::{distinct_keys, lemma_index_of_unique, lookup};
use crate::schedule::{end_of, AssignmentView};
use crate::task::TaskSpec;
use vstd::prelude::*;

verus! {

/// Whether `v` holds a deadline violation of task `k`.
pub open spec fn reports_deadline(v: Seq<ViolationView>, k: Seq<char>) -> bool {
    exists|j: int| 0 <= j < v.len() && (#[trigger] v[j]).constraint_name == "deadline"@ && v[j].task_id == k
}

proof fn lemma_reports_concat(a: Seq<ViolationView>, b: Seq<ViolationView>, k: Seq<char>)
    ensures
        reports_deadline(a + b, k) <==> (reports_deadline(a, k) || reports_deadline(b, k)),
{
    let ab = a + b;
    if reports_deadline(ab, k) {
        let j = choose|j: int| 0 <= j < ab.len() && (#[trigger] ab[j]).constraint_name == "deadline"@ && ab[j].task_id == k;
        if j < a.len() {
            assert(ab[j] == a[j]);
        } else {
            assert(ab[j] == b[j - a.len()]);
        }
    }
    if reports_deadline(a, k) {
        let j = choose|j: int| 0 <= j < a.len() && (#[trigger] a[j]).constraint_name == "deadline"@ && a[j].task_id == k;
        assert(ab[j] == a[j]);
    }
    if reports_deadline(b, k) {
        let j = choose|j: int| 0 <= j < b.len() && (#[trigger] b[j]).constraint_name == "deadline"@ && b[j].task_id == k;
        assert(ab[j + a.len()] == b[j]);
    }
}

proof fn lemma_capacity_no_deadline(s: Seq<(Seq<char>, AssignmentView)>, agents: Seq<AgentProfile>, n: int, k: Seq<char>)
    requires
        0 <= n <= agents.len(),
    ensures
        !reports_deadline(capacity_violations(s, agents, n), k),
    decreases n,
{
    reveal_strlit("deadline");
    reveal_strlit("capacity_limits");
    if n > 0 {
        lemma_capacity_no_deadline(s, agents, n - 1, k);
        lemma_reports_concat(capacity_violations(s, agents, n - 1), capacity_violation(s, agents[n - 1]), k);
        let cv = capacity_violation(s, agents[n - 1]);
        if reports_deadline(cv, k) {
            let j = choose|j: int| 0 <= j < cv.len() && (#[trigger] cv[j]).constraint_name == "deadline"@ && cv[j].task_id == k;
            assert(cv[j].constraint_name == "capacity_limits"@);
            assert("capacity_limits"@.len() != "deadline"@.len());
        }
    }
}

proof fn lemma_order_of_no_deadline(key: Seq<char>, ours: AssignmentView, deps: Seq<Seq<char>>, s: Seq<(Seq<char>, AssignmentView)>, m: int, k: Seq<char>)
    ensures
        !reports_deadline(order_violations_of(key, ours, deps, s, m), k),
    decreases m,
{
    reveal_strlit("deadline");
    reveal_strlit("dependency_ordering");
    if m > 0 {
        lemma_order_of_no_deadline(key, ours, deps, s, m - 1, k);
        let ov = order_violation(key, ours, deps[m - 1], s);
        lemma_reports_concat(order_violations_of(key, ours, deps, s, m - 1), ov, k);
        if reports_deadline(ov, k) {
            let j = choose|j: int| 0 <= j < ov.len() && (#[trigger] ov[j]).constraint_name == "deadline"@ && ov[j].task_id == k;
            assert(ov[j].constraint_name == "dependency_ordering"@);
            assert("dependency_ordering"@.len() != "deadline"@.len());
        }
    }
}

proof fn lemma_ordering_no_deadline(s: Seq<(Seq<char>, AssignmentView)>, tasks: Seq<TaskSpec>, n: int, k: Seq<char>)
    requires
        0 <= n <= tasks.len(),
    ensures
        !reports_deadline(ordering_violations(s, tasks, n), k),
    decreases n,
{
    if n > 0 {
        lemma_ordering_no_deadline(s, tasks, n - 1, k);
        let task = tasks[n - 1];
        match lookup(s, task.id@) {
            Some(ours) => {
                lemma_order_of_no_deadline(task.id@, ours, task.deps(), s, task.deps().len() as int, k);
                lemma_reports_concat(
                    ordering_violations(s, tasks, n - 1),
                    order_violations_of(task.id@, ours, task.deps(), s, task.deps().len() as int),
                    k,
                );
            },
            None => {},
        }
    }
}

/// The deadline violation of an entry, if any, names the entry's task; the
/// entry reports one exactly when its task is known, its agent is known,
/// deadlines are enforced and the assignment ends after the deadline.
proof fn lemma_entry_deadline(c: Constraints, key: Seq<char>, a: AssignmentView, agents: Seq<AgentProfile>, tasks: Seq<TaskSpec>, k: Seq<char>)
    ensures
        reports_deadline(entry_violations(c, key, a, agents, tasks), k) <==> (key == k && last_task_index(tasks, key) >= 0
            && last_agent_index(agents, a.agent) >= 0 && c.deadline_enforcement && end_of(a)
            > tasks[last_task_index(tasks, key)].deadline),
{
    reveal_strlit("deadline");
    reveal_strlit("capability_match");
    reveal_strlit("unknown_agent");
    let ev = entry_violations(c, key, a, agents, tasks);
    lemma_last_task_index_bounds(tasks, key);
    lemma_last_agent_index_bounds(agents, a.agent);
    let ti = last_task_index(tasks, key);
    let ai = last_agent_index(agents, a.agent);
    if reports_deadline(ev, k) {
        let j = choose|j: int| 0 <= j < ev.len() && (#[trigger] ev[j]).constraint_name == "deadline"@ && ev[j].task_id == k;
        assert(ev[j].task_id == key);
        if ti < 0 {
            assert(ev.len() == 0);
        } else if ai < 0 {
            assert(ev[j].constraint_name == "unknown_agent"@);
            assert("unknown_agent"@.len() != "deadline"@.len());
        } else {
            let task = tasks[ti];
            let agent = agents[ai];
            let cap = if c.capability_match && !agent.can_do(task.required()) {
                seq![crate::constraint::violation("capability_match"@, key, agent.id@, "Agent lacks required capabilities"@)]
            } else {
                seq![]
            };
            if j < cap.len() {
                assert(ev[j] == cap[j]);
                assert(ev[j].constraint_name == "capability_match"@);
                assert("capability_match"@.len() != "deadline"@.len());
            } else {
                assert(c.deadline_enforcement && end_of(a) > task.deadline);
            }
        }
    }
    if key == k && ti >= 0 && ai >= 0 && c.deadline_enforcement && end_of(a) > tasks[ti].deadline {
        assert(ev[ev.len() - 1].constraint_name == "deadline"@);
        assert(ev[ev.len() - 1].task_id == k);
        assert(reports_deadline(ev, k));
    }
}

proof fn lemma_entries_deadline(c: Constraints, s: Seq<(Seq<char>, AssignmentView)>, agents: Seq<AgentProfile>, tasks: Seq<TaskSpec>, n: int, k: Seq<char>)
    requires
        0 <= n <= s.len(),
    ensures
        reports_deadline(entries_violations(c, s, agents, tasks, n), k) <==> exists|q: int|
            0 <= q < n && #[trigger] reports_deadline(entry_violations(c, s[q].0, s[q].1, agents, tasks), k),
    decreases n,
{
    if n > 0 {
        lemma_entries_deadline(c, s, agents, tasks, n - 1, k);
        lemma_reports_concat(
            entries_violations(c, s, agents, tasks, n - 1),
            entry_violations(c, s[n - 1].0, s[n - 1].1, agents, tasks),
            k,
        );
    }
}

proof fn lemma_last_agent_found(agents: Seq<AgentProfile>, id: Seq<char>, g: int)
    requires
        0 <= g < agents.len(),
        agents[g].id@ == id,
    ensures
        last_agent_index(agents, id) >= 0,
    decreases agents.len(),
{
    if agents.last().id@ != id {
        assert(g < agents.len() - 1);
        assert(agents.drop_last()[g] == agents[g]);
        lemma_last_agent_found(agents.drop_last(), id, g);
    }
}

proof fn lemma_last_task_unique(tasks: Seq<TaskSpec>, i: int)
    requires
        0 <= i < tasks.len(),
        forall|x: int, y: int| 0 <= x < y < tasks.len() ==> (#[trigger] tasks[x]).id@ != (#[trigger] tasks[y]).id@,
    ensures
        last_task_index(tasks, tasks[i].id@) == i,
    decreases tasks.len(),
{
    let n = tasks.len() - 1;
    if i < n {
        assert(tasks[i].id@ != tasks[n].id@);
        let rest = tasks.drop_last();
        assert forall|x: int, y: int| 0 <= x < y < rest.len() implies (#[trigger] rest[x]).id@ != (#[trigger] rest[y]).id@ by {
            assert(rest[x] == tasks[x] && rest[y] == tasks[y]);
        }
        lemma_last_task_unique(rest, i);
        assert(rest[i] == tasks[i]);
    }
}

/// For tasks with distinct identifiers, `check_schedule` reports a deadline
/// violation of a task placed with a known agent exactly when deadlines are
/// enforced and the assignment (with its own duration) ends after the task's
/// deadline; ending exactly at the deadline is allowed.
pub proof fn law_deadline_violation_iff_late(
    c: Constraints,
    s: Seq<(Seq<char>, AssignmentView)>,
    agents: Seq<AgentProfile>,
    tasks: Seq<TaskSpec>,
    i: int,
    g: int,
)
    requires
        distinct_keys(s),
        forall|x: int, y: int| 0 <= x < y < tasks.len() ==> (#[trigger] tasks[x]).id@ != (#[trigger] tasks[y]).id@,
        0 <= i < tasks.len(),
        lookup(s, tasks[i].id@) is Some,
        0 <= g < agents.len(),
        agents[g].id@ == lookup(s, tasks[i].id@).unwrap().agent,
    ensures
        reports_deadline(schedule_violations(c, s, agents, tasks), tasks[i].id@) <==> (c.deadline_enforcement
            && end_of(lookup(s, tasks[i].id@).unwrap()) > tasks[i].deadline),
{
    let k = tasks[i].id@;
    let a = lookup(s, k).unwrap();
    let ev = entries_violations(c, s, agents, tasks, s.len() as int);
    let cap = if c.capacity_limits { capacity_violations(s, agents, agents.len() as int) } else { seq![] };
    let ord = if c.dependency_ordering { ordering_violations(s, tasks, tasks.len() as int) } else { seq![] };
    lemma_capacity_no_deadline(s, agents, agents.len() as int, k);
    lemma_ordering_no_deadline(s, tasks, tasks.len() as int, k);
    assert(!reports_deadline(Seq::<ViolationView>::empty(), k));
    lemma_reports_concat(ev, cap, k);
    lemma_reports_concat(ev + cap, ord, k);
    lemma_entries_deadline(c, s, agents, tasks, s.len() as int, k);
    crate::idmap::lemma_lookup_in(s, k);
    let q0 = choose|q: int| 0 <= q < s.len() && s[q] == (k, a);
    lemma_last_task_unique(tasks, i);
    lemma_last_agent_index_bounds(agents, a.agent);
    lemma_last_agent_found(agents, a.agent, g);
    lemma_entry_deadline(c, s[q0].0, s[q0].1, agents, tasks, k);
    assert forall|q: int| 0 <= q < s.len() && #[trigger] reports_deadline(entry_violations(c, s[q].0, s[q].1, agents, tasks), k) implies q == q0 by {
        lemma_entry_deadline(c, s[q].0, s[q].1, agents, tasks, k);
        assert(s[q].0 == k);
        lemma_index_of_unique(s, q);
        lemma_index_of_unique(s, q0);
    }
}

} // verus!

verus! {

proof fn lemma_dependency_violations_name(c: Constraints, task: TaskSpec, agent: AgentProfile, s: Seq<(Seq<char>, AssignmentView)>, n: int)
    ensures
        forall|j: int|
            0 <= j < dependency_violations_of(task, agent, s, n).len() ==> (#[trigger] dependency_violations_of(task, agent, s, n)[j]).task_id
                == task.id@ && dependency_violations_of(task, agent, s, n)[j].agent_id == agent.id@
                && dependency_violations_of(task, agent, s, n)[j].constraint_name == "dependency_ordering"@,
    decreases n,
{
    if n > 0 {
        lemma_dependency_violations_name(c, task, agent, s, n - 1);
        let rest = dependency_violations_of(task, agent, s, n - 1);
        let all = dependency_violations_of(task, agent, s, n);
        assert forall|j: int| 0 <= j < all.len() implies (#[trigger] all[j]).task_id == task.id@ && all[j].agent_id == agent.id@
            && all[j].constraint_name == "dependency_ordering"@ by {
            if j < rest.len() {
                assert(all[j] == rest[j]);
            }
        }
    }
}

/// Every violation `check_assignment` reports names the proposed task and
/// agent, and comes from an enforced constraint; the capability violation,
/// when there is one, comes first, and there is one exactly when capability
/// matching is enforced and the agent lacks a required skill.
pub proof fn law_check_assignment_shape(c: Constraints, task: TaskSpec, agent: AgentProfile, s: Seq<(Seq<char>, AssignmentView)>)
    ensures
        forall|j: int|
            0 <= j < assignment_violations(c, task, agent, s).len() ==> {
                let v = #[trigger] assignment_violations(c, task, agent, s)[j];
                &&& v.task_id == task.id@
                &&& v.agent_id == agent.id@
                &&& (v.constraint_name == "capability_match"@ && c.capability_match)
                    || (v.constraint_name == "capacity_limits"@ && c.capacity_limits)
                    || (v.constraint_name == "dependency_ordering"@ && c.dependency_ordering)
                    || (v.constraint_name == "deadline"@ && c.deadline_enforcement)
            },
        (assignment_violations(c, task, agent, s).len() > 0 && assignment_violations(c, task, agent, s)[0].constraint_name
            == "capability_match"@) <==> (c.capability_match && !agent.can_do(task.required())),
{
    reveal_strlit("capability_match");
    reveal_strlit("capacity_limits");
    reveal_strlit("dependency_ordering");
    reveal_strlit("deadline");
    let v = assignment_violations(c, task, agent, s);
    lemma_dependency_violations_name(c, task, agent, s, task.deps().len() as int);
    let cap = if c.capability_match && !agent.can_do(task.required()) {
        seq![crate::constraint::violation("capability_match"@, task.id@, agent.id@, crate::constraint::msg_lacks(agent.id@, task.required()))]
    } else {
        seq![]
    };
    let count = crate::constraint::competing_count(s, task.id@, agent.id@) as u32;
    let capacity = if c.capacity_limits && count >= agent.capacity {
        seq![
            crate::constraint::violation(
                "capacity_limits"@,
                task.id@,
                agent.id@,
                crate::constraint::msg_at_capacity(agent.id@, count as nat, agent.capacity as nat),
            ),
        ]
    } else {
        seq![]
    };
    let deps = if c.dependency_ordering {
        dependency_violations_of(task, agent, s, task.deps().len() as int)
    } else {
        seq![]
    };
    let deadline = match lookup(s, task.id@) {
        Some(a) => if c.deadline_enforcement && end_of(a) > task.deadline {
            seq![
                crate::constraint::violation(
                    "deadline"@,
                    task.id@,
                    agent.id@,
                    crate::constraint::msg_ends_after(task.id@, end_of(a) as nat, task.deadline as nat),
                ),
            ]
        } else {
            seq![]
        },
        None => seq![],
    };
    assert(v == cap + capacity + deps + deadline);
    assert forall|j: int| 0 <= j < v.len() implies {
        let x = #[trigger] v[j];
        &&& x.task_id == task.id@
        &&& x.agent_id == agent.id@
        &&& (x.constraint_name == "capability_match"@ && c.capability_match)
            || (x.constraint_name == "capacity_limits"@ && c.capacity_limits)
            || (x.constraint_name == "dependency_ordering"@ && c.dependency_ordering)
            || (x.constraint_name == "deadline"@ && c.deadline_enforcement)
    } by {
        if j < cap.len() {
            assert(v[j] == cap[j]);
        } else if j < cap.len() + capacity.len() {
            assert(v[j] == capacity[j - cap.len()]);
        } else if j < cap.len() + capacity.len() + deps.len() {
            assert(v[j] == deps[j - cap.len() - capacity.len()]);
        } else {
            assert(v[j] == deadline[j - cap.len() - capacity.len() - deps.len()]);
        }
    }
    if v.len() > 0 && v[0].constraint_name == "capability_match"@ {
        if cap.len() == 0 {
            assert(v[0].constraint_name != "capability_match"@) by {
                assert("capacity_limits"@.len() != "capability_match"@.len());
                assert("dependency_ordering"@.len() != "capability_match"@.len());
                assert("deadline"@.len() != "capability_match"@.len());
                if capacity.len() > 0 {
                    assert(v[0] == capacity[0]);
                } else if deps.len() > 0 {
                    assert(v[0] == deps[0]);
                } else {
                    assert(v[0] == deadline[0]);
                }
            }
        }
    }
    if cap.len() > 0 {
        assert(v[0] == cap[0]);
    }
}

/// With every hard constraint relaxed, `check_schedule` reports only
/// assignments of known tasks to unknown agents.
pub proof fn law_relaxed_reports_only_unknown_agents(c: Constraints, s: Seq<(Seq<char>, AssignmentView)>, agents: Seq<AgentProfile>, tasks: Seq<TaskSpec>)
    requires
        !c.capability_match,
        !c.capacity_limits,
        !c.dependency_ordering,
        !c.deadline_enforcement,
    ensures
        forall|j: int|
            0 <= j < schedule_violations(c, s, agents, tasks).len() ==> (#[trigger] schedule_violations(c, s, agents, tasks)[j]).constraint_name
                == "unknown_agent"@,
{
    lemma_entries_unknown_only(c, s, agents, tasks, s.len() as int);
    assert(schedule_violations(c, s, agents, tasks) =~= entries_violations(c, s, agents, tasks, s.len() as int));
}

proof fn lemma_entries_unknown_only(c: Constraints, s: Seq<(Seq<char>, AssignmentView)>, agents: Seq<AgentProfile>, tasks: Seq<TaskSpec>, n: int)
    requires
        !c.capability_match,
        !c.deadline_enforcement,
        0 <= n <= s.len(),
    ensures
        forall|j: int|
            0 <= j < entries_violations(c, s, agents, tasks, n).len() ==> (#[trigger] entries_violations(c, s, agents, tasks, n)[j]).constraint_name
                == "unknown_agent"@,
    decreases n,
{
    if n > 0 {
        lemma_entries_unknown_only(c, s, agents, tasks, n - 1);
        let rest = entries_violations(c, s, agents, tasks, n - 1);
        let ev = entry_violations(c, s[n - 1].0, s[n - 1].1, agents, tasks);
        let all = entries_violations(c, s, agents, tasks, n);
        assert(all == rest + ev);
        let ti = last_task_index(tasks, s[n - 1].0);
        let ai = last_agent_index(agents, s[n - 1].1.agent);
        if ti >= 0 && ai >= 0 {
            assert(ev =~= Seq::<ViolationView>::empty());
        }
        assert forall|j: int| 0 <= j < all.len() implies (#[trigger] all[j]).constraint_name == "unknown_agent"@ by {
            if j < rest.len() {
                assert(all[j] == rest[j]);
            } else {
                assert(all[j] == ev[j - rest.len()]);
            }
        }
    }
}

} // verus!

verus! {

/// Whether `v` holds a violation named `name` of task `k`.
pub open spec fn reports_named(v: Seq<ViolationView>, name: Seq<char>, k: Seq<char>) -> bool {
    exists|j: int| 0 <= j < v.len() && (#[trigger] v[j]).constraint_name == name && v[j].task_id == k
}

proof fn lemma_named_concat(a: Seq<ViolationView>, b: Seq<ViolationView>, name: Seq<char>, k: Seq<char>)
    ensures
        reports_named(a + b, name, k) <==> (reports_named(a, name, k) || reports_named(b, name, k)),
{
    let ab = a + b;
    if reports_named(ab, name, k) {
        let j = choose|j: int| 0 <= j < ab.len() && (#[trigger] ab[j]).constraint_name == name && ab[j].task_id == k;
        if j < a.len() {
            assert(ab[j] == a[j]);
        } else {
            assert(ab[j] == b[j - a.len()]);
        }
    }
    if reports_named(a, name, k) {
        let j = choose|j: int| 0 <= j < a.len() && (#[trigger] a[j]).constraint_name == name && a[j].task_id == k;
        assert(ab[j] == a[j]);
    }
    if reports_named(b, name, k) {
        let j = choose|j: int| 0 <= j < b.len() && (#[trigger] b[j]).constraint_name == name && b[j].task_id == k;
        assert(ab[j + a.len()] == b[j]);
    }
}

/// Whether `name` is one of the names an entry of the schedule reports.
pub open spec fn entry_name(name: Seq<char>) -> bool {
    name == "unknown_agent"@ || name == "capability_match"@ || name == "deadline"@
}

proof fn lemma_entry_names_distinct(name: Seq<char>)
    requires
        entry_name(name),
    ensures
        name != "capacity_limits"@,
        name != "dependency_ordering"@,
{
    reveal_strlit("unknown_agent");
    reveal_strlit("capability_match");
    reveal_strlit("deadline");
    reveal_strlit("capacity_limits");
    reveal_strlit("dependency_ordering");
    assert("capacity_limits"@.len() == 15);
    assert("dependency_ordering"@.len() == 19);
}

proof fn lemma_capacity_not_named(s: Seq<(Seq<char>, AssignmentView)>, agents: Seq<AgentProfile>, n: int, name: Seq<char>, k: Seq<char>)
    requires
        0 <= n <= agents.len(),
        name != "capacity_limits"@,
    ensures
        !reports_named(capacity_violations(s, agents, n), name, k),
    decreases n,
{
    if n > 0 {
        lemma_capacity_not_named(s, agents, n - 1, name, k);
        let cv = capacity_violation(s, agents[n - 1]);
        lemma_named_concat(capacity_violations(s, agents, n - 1), cv, name, k);
        if reports_named(cv, name, k) {
            let j = choose|j: int| 0 <= j < cv.len() && (#[trigger] cv[j]).constraint_name == name && cv[j].task_id == k;
            assert(cv[j].constraint_name == "capacity_limits"@);
        }
    }
}

proof fn lemma_order_of_named(key: Seq<char>, ours: AssignmentView, deps: Seq<Seq<char>>, s: Seq<(Seq<char>, AssignmentView)>, m: int, name: Seq<char>, k: Seq<char>)
    requires
        0 <= m <= deps.len(),
    ensures
        reports_named(order_violations_of(key, ours, deps, s, m), name, k) <==> (name == "dependency_ordering"@ && key == k
            && exists|j: int| 0 <= j < m && (#[trigger] lookup(s, deps[j]) matches Some(d) && ours.start < end_of(d))),
    decreases m,
{
    if m > 0 {
        lemma_order_of_named(key, ours, deps, s, m - 1, name, k);
        let ov = order_violation(key, ours, deps[m - 1], s);
        lemma_named_concat(order_violations_of(key, ours, deps, s, m - 1), ov, name, k);
        if reports_named(ov, name, k) {
            let j = choose|j: int| 0 <= j < ov.len() && (#[trigger] ov[j]).constraint_name == name && ov[j].task_id == k;
            assert(ov[j].constraint_name == "dependency_ordering"@ && ov[j].task_id == key);
            assert(lookup(s, deps[m - 1]) matches Some(d) && ours.start < end_of(d));
            assert(0 <= m - 1 < m && (lookup(s, deps[m - 1]) matches Some(d) && ours.start < end_of(d)));
        }
        if name == "dependency_ordering"@ && key == k && (lookup(s, deps[m - 1]) matches Some(d) && ours.start < end_of(d)) {
            assert(ov[0].constraint_name == name && ov[0].task_id == k);
        }
        if name == "dependency_ordering"@ && key == k && exists|j: int| 0 <= j < m && (#[trigger] lookup(s, deps[j]) matches Some(d) && ours.start < end_of(d)) {
            let j = choose|j: int| 0 <= j < m && (#[trigger] lookup(s, deps[j]) matches Some(d) && ours.start < end_of(d));
            if j < m - 1 {
                assert(reports_named(order_violations_of(key, ours, deps, s, m - 1), name, k));
            }
        }
    }
}

/// Whether task `t` is placed in `s` and starts before one of its placed
/// dependencies ends.
pub open spec fn starts_before_dependency(t: TaskSpec, s: Seq<(Seq<char>, AssignmentView)>) -> bool {
    lookup(s, t.id@) matches Some(ours) && exists|j: int|
        0 <= j < t.deps().len() && (#[trigger] lookup(s, t.deps()[j]) matches Some(d) && ours.start < end_of(d))
}

proof fn lemma_ordering_named(s: Seq<(Seq<char>, AssignmentView)>, tasks: Seq<TaskSpec>, n: int, k: Seq<char>)
    requires
        0 <= n <= tasks.len(),
    ensures
        reports_named(ordering_violations(s, tasks, n), "dependency_ordering"@, k) <==> exists|t: int|
            0 <= t < n && (#[trigger] tasks[t]).id@ == k && starts_before_dependency(tasks[t], s),
    decreases n,
{
    let name = "dependency_ordering"@;
    if n > 0 {
        lemma_ordering_named(s, tasks, n - 1, k);
        let task = tasks[n - 1];
        let rest = ordering_violations(s, tasks, n - 1);
        match lookup(s, task.id@) {
            Some(ours) => {
                let ov = order_violations_of(task.id@, ours, task.deps(), s, task.deps().len() as int);
                lemma_order_of_named(task.id@, ours, task.deps(), s, task.deps().len() as int, name, k);
                lemma_named_concat(rest, ov, name, k);
            },
            None => {},
        }
        if exists|t: int| 0 <= t < n && (#[trigger] tasks[t]).id@ == k && starts_before_dependency(tasks[t], s) {
            let t = choose|t: int| 0 <= t < n && (#[trigger] tasks[t]).id@ == k && starts_before_dependency(tasks[t], s);
            if t < n - 1 {
                assert(exists|t2: int| 0 <= t2 < n - 1 && (#[trigger] tasks[t2]).id@ == k && starts_before_dependency(tasks[t2], s));
            }
        }
    }
}

proof fn lemma_entries_named(c: Constraints, s: Seq<(Seq<char>, AssignmentView)>, agents: Seq<AgentProfile>, tasks: Seq<TaskSpec>, n: int, name: Seq<char>, k: Seq<char>)
    requires
        0 <= n <= s.len(),
    ensures
        reports_named(entries_violations(c, s, agents, tasks, n), name, k) ==> exists|q: int|
            0 <= q < n && s[q].0 == k && #[trigger] reports_named(entry_violations(c, s[q].0, s[q].1, agents, tasks), name, k),
        forall|q: int|
            0 <= q < n && #[trigger] reports_named(entry_violations(c, s[q].0, s[q].1, agents, tasks), name, k) ==> reports_named(
                entries_violations(c, s, agents, tasks, n),
                name,
                k,
            ),
    decreases n,
{
    if n > 0 {
        lemma_entries_named(c, s, agents, tasks, n - 1, name, k);
        let ev = entry_violations(c, s[n - 1].0, s[n - 1].1, agents, tasks);
        lemma_named_concat(entries_violations(c, s, agents, tasks, n - 1), ev, name, k);
        if reports_named(ev, name, k) {
            let j = choose|j: int| 0 <= j < ev.len() && (#[trigger] ev[j]).constraint_name == name && ev[j].task_id == k;
            lemma_entry_task_id(c, s[n - 1].0, s[n - 1].1, agents, tasks, j);
        }
    }
}

proof fn lemma_entry_task_id(c: Constraints, key: Seq<char>, a: AssignmentView, agents: Seq<AgentProfile>, tasks: Seq<TaskSpec>, j: int)
    requires
        0 <= j < entry_violations(c, key, a, agents, tasks).len(),
    ensures
        entry_violations(c, key, a, agents, tasks)[j].task_id == key,
        entry_name(entry_violations(c, key, a, agents, tasks)[j].constraint_name),
        last_task_index(tasks, key) >= 0,
{
    let ev = entry_violations(c, key, a, agents, tasks);
    let ti = last_task_index(tasks, key);
    let ai = last_agent_index(agents, a.agent);
    if ti >= 0 && ai >= 0 {
        lemma_last_task_index_bounds(tasks, key);
        lemma_last_agent_index_bounds(agents, a.agent);
        let task = tasks[ti];
        let agent = agents[ai];
        let cap = if c.capability_match && !agent.can_do(task.required()) {
            seq![crate::constraint::violation("capability_match"@, key, agent.id@, "Agent lacks required capabilities"@)]
        } else {
            seq![]
        };
        if j < cap.len() {
            assert(ev[j] == cap[j]);
        }
    }
}

/// For tasks with distinct identifiers, `check_schedule` reports that a task
/// starts before one of its dependencies ends exactly when dependency
/// ordering is enforced, the task is placed, and one of its placed
/// dependencies ends after its start; a dependency that is not placed is never
/// a violation.
pub proof fn law_dependency_violation_iff_early(
    c: Constraints,
    s: Seq<(Seq<char>, AssignmentView)>,
    agents: Seq<AgentProfile>,
    tasks: Seq<TaskSpec>,
    i: int,
)
    requires
        forall|x: int, y: int| 0 <= x < y < tasks.len() ==> (#[trigger] tasks[x]).id@ != (#[trigger] tasks[y]).id@,
        0 <= i < tasks.len(),
    ensures
        reports_named(schedule_violations(c, s, agents, tasks), "dependency_ordering"@, tasks[i].id@) <==> (
        c.dependency_ordering && starts_before_dependency(tasks[i], s)),
{
    let k = tasks[i].id@;
    let name = "dependency_ordering"@;
    let ev = entries_violations(c, s, agents, tasks, s.len() as int);
    let cap = if c.capacity_limits { capacity_violations(s, agents, agents.len() as int) } else { seq![] };
    let ord = if c.dependency_ordering { ordering_violations(s, tasks, tasks.len() as int) } else { seq![] };
    lemma_named_concat(ev, cap, name, k);
    lemma_named_concat(ev + cap, ord, name, k);
    assert(!reports_named(Seq::<ViolationView>::empty(), name, k));
    lemma_entries_named(c, s, agents, tasks, s.len() as int, name, k);
    if reports_named(ev, name, k) {
        let q = choose|q: int| 0 <= q < s.len() && s[q].0 == k && #[trigger] reports_named(entry_violations(c, s[q].0, s[q].1, agents, tasks), name, k);
        let evq = entry_violations(c, s[q].0, s[q].1, agents, tasks);
        let j = choose|j: int| 0 <= j < evq.len() && (#[trigger] evq[j]).constraint_name == name && evq[j].task_id == k;
        lemma_entry_task_id(c, s[q].0, s[q].1, agents, tasks, j);
        reveal_strlit("unknown_agent");
        reveal_strlit("capability_match");
        reveal_strlit("deadline");
        reveal_strlit("dependency_ordering");
        assert("dependency_ordering"@.len() == 19);
    }
    assert(name != "capacity_limits"@) by {
        reveal_strlit("capacity_limits");
        reveal_strlit("dependency_ordering");
        assert("capacity_limits"@.len() != "dependency_ordering"@.len());
    }
    lemma_capacity_not_named(s, agents, agents.len() as int, name, k);
    lemma_ordering_named(s, tasks, tasks.len() as int, k);
    if exists|t: int| 0 <= t < tasks.len() && (#[trigger] tasks[t]).id@ == k && starts_before_dependency(tasks[t], s) {
        let t = choose|t: int| 0 <= t < tasks.len() && (#[trigger] tasks[t]).id@ == k && starts_before_dependency(tasks[t], s);
        if t != i {
            if t < i {
                assert(tasks[t].id@ != tasks[i].id@);
            } else {
                assert(tasks[i].id@ != tasks[t].id@);
            }
        }
    }
}

/// For a task placed with an agent no profile names, `check_schedule`
/// reports the unknown agent whatever constraints are enforced, and reports no
/// missing capability and no missed deadline for that task (tasks with
/// distinct identifiers).
pub proof fn law_unknown_agent_reported(
    c: Constraints,
    s: Seq<(Seq<char>, AssignmentView)>,
    agents: Seq<AgentProfile>,
    tasks: Seq<TaskSpec>,
    i: int,
)
    requires
        distinct_keys(s),
        forall|x: int, y: int| 0 <= x < y < tasks.len() ==> (#[trigger] tasks[x]).id@ != (#[trigger] tasks[y]).id@,
        0 <= i < tasks.len(),
        lookup(s, tasks[i].id@) is Some,
        forall|g: int| 0 <= g < agents.len() ==> (#[trigger] agents[g]).id@ != lookup(s, tasks[i].id@).unwrap().agent,
    ensures
        schedule_violations(c, s, agents, tasks).contains(
            crate::constraint::violation(
                "unknown_agent"@,
                tasks[i].id@,
                lookup(s, tasks[i].id@).unwrap().agent,
                crate::constraint::msg_unknown_agent(lookup(s, tasks[i].id@).unwrap().agent),
            ),
        ),
        !reports_named(schedule_violations(c, s, agents, tasks), "capability_match"@, tasks[i].id@),
        !reports_named(schedule_violations(c, s, agents, tasks), "deadline"@, tasks[i].id@),
{
    let k = tasks[i].id@;
    let a = lookup(s, k).unwrap();
    let ev = entries_violations(c, s, agents, tasks, s.len() as int);
    let cap = if c.capacity_limits { capacity_violations(s, agents, agents.len() as int) } else { seq![] };
    let ord = if c.dependency_ordering { ordering_violations(s, tasks, tasks.len() as int) } else { seq![] };
    let v = schedule_violations(c, s, agents, tasks);
    assert(v == ev + cap + ord);
    crate::idmap::lemma_lookup_in(s, k);
    let q0 = choose|q: int| 0 <= q < s.len() && s[q] == (k, a);
    lemma_last_task_unique(tasks, i);
    lemma_last_agent_index_bounds(agents, a.agent);
    let ai = last_agent_index(agents, a.agent);
    if ai >= 0 {
        assert(agents[ai].id@ != a.agent);
    }
    let uv = crate::constraint::violation("unknown_agent"@, k, a.agent, crate::constraint::msg_unknown_agent(a.agent));
    assert(entry_violations(c, k, a, agents, tasks) == seq![uv]);
    assert(s[q0].0 == k && s[q0].1 == a);
    assert(entry_violations(c, s[q0].0, s[q0].1, agents, tasks)[0] == uv);
    assert(entry_violations(c, s[q0].0, s[q0].1, agents, tasks).contains(uv));
    lemma_entries_contain(c, s, agents, tasks, s.len() as int, q0, uv);
    let p = choose|p: int| 0 <= p < ev.len() && ev[p] == uv;
    assert(v[p] == uv);
    reveal_strlit("unknown_agent");
    reveal_strlit("capability_match");
    reveal_strlit("deadline");
    assert("unknown_agent"@.len() == 13);
    assert("capability_match"@.len() == 16);
    assert("deadline"@.len() == 8);
    let names = seq!["capability_match"@, "deadline"@];
    assert forall|m: int| 0 <= m < 2 implies !reports_named(v, #[trigger] names[m], k) by {
        let name = names[m];
        lemma_entry_names_distinct(name);
        lemma_named_concat(ev, cap, name, k);
        lemma_named_concat(ev + cap, ord, name, k);
        assert(!reports_named(Seq::<ViolationView>::empty(), name, k));
        lemma_capacity_not_named(s, agents, agents.len() as int, name, k);
        lemma_ordering_not_named(s, tasks, tasks.len() as int, name, k);
        lemma_entries_named(c, s, agents, tasks, s.len() as int, name, k);
        if reports_named(ev, name, k) {
            let q = choose|q: int| 0 <= q < s.len() && s[q].0 == k && #[trigger] reports_named(entry_violations(c, s[q].0, s[q].1, agents, tasks), name, k);
            lemma_index_of_unique(s, q);
            lemma_index_of_unique(s, q0);
            assert(q == q0);
        }
    }
    assert(names[0] == "capability_match"@);
    assert(names[1] == "deadline"@);
}

proof fn lemma_ordering_not_named(s: Seq<(Seq<char>, AssignmentView)>, tasks: Seq<TaskSpec>, n: int, name: Seq<char>, k: Seq<char>)
    requires
        0 <= n <= tasks.len(),
        name != "dependency_ordering"@,
    ensures
        !reports_named(ordering_violations(s, tasks, n), name, k),
    decreases n,
{
    if n > 0 {
        lemma_ordering_not_named(s, tasks, n - 1, name, k);
        let task = tasks[n - 1];
        match lookup(s, task.id@) {
            Some(ours) => {
                lemma_order_of_named(task.id@, ours, task.deps(), s, task.deps().len() as int, name, k);
                lemma_named_concat(
                    ordering_violations(s, tasks, n - 1),
                    order_violations_of(task.id@, ours, task.deps(), s, task.deps().len() as int),
                    name,
                    k,
                );
            },
            None => {},
        }
    }
}

proof fn lemma_entries_contain(c: Constraints, s: Seq<(Seq<char>, AssignmentView)>, agents: Seq<AgentProfile>, tasks: Seq<TaskSpec>, n: int, q: int, x: ViolationView)
    requires
        0 <= q < n <= s.len(),
        entry_violations(c, s[q].0, s[q].1, agents, tasks).contains(x),
    ensures
        entries_violations(c, s, agents, tasks, n).contains(x),
    decreases n,
{
    let rest = entries_violations(c, s, agents, tasks, n - 1);
    let ev = entry_violations(c, s[n - 1].0, s[n - 1].1, agents, tasks);
    let all = entries_violations(c, s, agents, tasks, n);
    if q < n - 1 {
        lemma_entries_contain(c, s, agents, tasks, n - 1, q, x);
        let p = choose|p: int| 0 <= p < rest.len() && rest[p] == x;
        assert(all[p] == x);
    } else {
        let p = choose|p: int| 0 <= p < ev.len() && ev[p] == x;
        assert(all[rest.len() + p] == x);
    }
}

/// An assignment whose key is no task's identifier gets no unknown-agent,
/// capability or deadline violation.
pub proof fn law_unknown_task_not_checked(c: Constraints, s: Seq<(Seq<char>, AssignmentView)>, agents: Seq<AgentProfile>, tasks: Seq<TaskSpec>, k: Seq<char>, name: Seq<char>)
    requires
        forall|t: int| 0 <= t < tasks.len() ==> (#[trigger] tasks[t]).id@ != k,
        entry_name(name),
    ensures
        !reports_named(schedule_violations(c, s, agents, tasks), name, k),
{
    let ev = entries_violations(c, s, agents, tasks, s.len() as int);
    let cap = if c.capacity_limits { capacity_violations(s, agents, agents.len() as int) } else { seq![] };
    let ord = if c.dependency_ordering { ordering_violations(s, tasks, tasks.len() as int) } else { seq![] };
    lemma_entry_names_distinct(name);
    lemma_named_concat(ev, cap, name, k);
    lemma_named_concat(ev + cap, ord, name, k);
    assert(!reports_named(Seq::<ViolationView>::empty(), name, k));
    lemma_capacity_not_named(s, agents, agents.len() as int, name, k);
    lemma_ordering_not_named(s, tasks, tasks.len() as int, name, k);
    lemma_entries_named(c, s, agents, tasks, s.len() as int, name, k);
    if reports_named(ev, name, k) {
        let q = choose|q: int| 0 <= q < s.len() && s[q].0 == k && #[trigger] reports_named(entry_violations(c, s[q].0, s[q].1, agents, tasks), name, k);
        let evq = entry_violations(c, s[q].0, s[q].1, agents, tasks);
        let j = choose|j: int| 0 <= j < evq.len() && (#[trigger] evq[j]).constraint_name == name && evq[j].task_id == k;
        lemma_entry_task_id(c, s[q].0, s[q].1, agents, tasks, j);
        lemma_last_task_index_bounds(tasks, k);
    }
}

} // verus!

verus! {

/// The dependency violation of `task`, proposed for `agent` against `s`, for
/// its dependency at position `j`: the task starts before that dependency ends.
pub open spec fn late_dependency_report(task: TaskSpec, agent: AgentProfile, s: Seq<(Seq<char>, AssignmentView)>, j: int) -> ViolationView {
    let ours = lookup(s, task.id@).unwrap();
    let d = lookup(s, task.dependencies@[j]@).unwrap();
    crate::constraint::violation(
        "dependency_ordering"@,
        task.id@,
        agent.id@,
        crate::constraint::msg_starts_before(task.id@, ours.start as nat, task.dependencies@[j]@, (d.start + d.duration) as nat),
    )
}

/// Whether the task is placed in `s`, its dependency at position `j` is placed
/// too, and the task starts before that dependency ends.
pub open spec fn starts_before_dependency_at(task: TaskSpec, s: Seq<(Seq<char>, AssignmentView)>, j: int) -> bool {
    &&& 0 <= j < task.dependencies@.len()
    &&& lookup(s, task.id@) is Some
    &&& lookup(s, task.dependencies@[j]@) is Some
    &&& lookup(s, task.id@).unwrap().start < lookup(s, task.dependencies@[j]@).unwrap().start + lookup(
        s,
        task.dependencies@[j]@,
    ).unwrap().duration
}

/// Whether `x` is the report of some dependency that the task starts before.
pub open spec fn reports_a_late_dependency(task: TaskSpec, agent: AgentProfile, s: Seq<(Seq<char>, AssignmentView)>, x: ViolationView) -> bool {
    exists|j: int| starts_before_dependency_at(task, s, j) && x == #[trigger] late_dependency_report(task, agent, s, j)
}

proof fn lemma_dependency_reports(task: TaskSpec, agent: AgentProfile, s: Seq<(Seq<char>, AssignmentView)>, n: int)
    requires
        0 <= n <= task.dependencies@.len(),
    ensures
        forall|j: int|
            0 <= j < n && starts_before_dependency_at(task, s, j) ==> dependency_violations_of(task, agent, s, n).contains(
                #[trigger] late_dependency_report(task, agent, s, j),
            ),
        forall|p: int|
            0 <= p < dependency_violations_of(task, agent, s, n).len() ==> reports_a_late_dependency(
                task,
                agent,
                s,
                #[trigger] dependency_violations_of(task, agent, s, n)[p],
            ),
    decreases n,
{
    if n > 0 {
        lemma_dependency_reports(task, agent, s, n - 1);
        let rest = dependency_violations_of(task, agent, s, n - 1);
        let dep = task.deps()[n - 1];
        assert(dep == task.dependencies@[n - 1]@);
        let dv = crate::constraint::dependency_violation(task, agent, s, dep);
        let all = dependency_violations_of(task, agent, s, n);
        assert(all == rest + dv);
        if starts_before_dependency_at(task, s, n - 1) {
            assert(dv == seq![late_dependency_report(task, agent, s, n - 1)]);
        } else {
            assert(dv.len() == 0);
        }
        assert forall|j: int| 0 <= j < n && starts_before_dependency_at(task, s, j) implies all.contains(
            #[trigger] late_dependency_report(task, agent, s, j),
        ) by {
            if j < n - 1 {
                let p = choose|p: int| 0 <= p < rest.len() && rest[p] == late_dependency_report(task, agent, s, j);
                assert(all[p] == rest[p]);
            } else {
                assert(all[rest.len() as int] == dv[0]);
            }
        }
        assert forall|p: int| 0 <= p < all.len() implies reports_a_late_dependency(task, agent, s, #[trigger] all[p]) by {
            if p < rest.len() {
                assert(all[p] == rest[p]);
            } else {
                assert(all[p] == dv[0]);
                assert(starts_before_dependency_at(task, s, n - 1));
                assert(all[p] == late_dependency_report(task, agent, s, n - 1));
            }
        }
    }
}

/// When dependency ordering is enforced, `check_assignment` reports every
/// dependency of the task that is placed and ends after the task's scheduled
/// start, each with its own report, whichever position it has among the
/// dependencies; and each dependency report it gives is one of those. When
/// ordering is not enforced it reports none.
pub proof fn law_check_assignment_reports_each_late_dependency(c: Constraints, task: TaskSpec, agent: AgentProfile, s: Seq<(Seq<char>, AssignmentView)>)
    ensures
        c.dependency_ordering ==> forall|j: int|
            starts_before_dependency_at(task, s, j) ==> assignment_violations(c, task, agent, s).contains(
                #[trigger] late_dependency_report(task, agent, s, j),
            ),
        forall|p: int|
            0 <= p < assignment_violations(c, task, agent, s).len() && (#[trigger] assignment_violations(c, task, agent, s)[p]).constraint_name
                == "dependency_ordering"@ ==> c.dependency_ordering && reports_a_late_dependency(
                task,
                agent,
                s,
                assignment_violations(c, task, agent, s)[p],
            ),
{
    reveal_strlit("capability_match");
    reveal_strlit("capacity_limits");
    reveal_strlit("dependency_ordering");
    reveal_strlit("deadline");
    let n = task.dependencies@.len() as int;
    assert(task.deps().len() == n);
    lemma_dependency_reports(task, agent, s, n);
    let v = assignment_violations(c, task, agent, s);
    let cap = if c.capability_match && !agent.can_do(task.required()) {
        seq![crate::constraint::violation("capability_match"@, task.id@, agent.id@, crate::constraint::msg_lacks(agent.id@, task.required()))]
    } else {
        seq![]
    };
    let count = crate::constraint::competing_count(s, task.id@, agent.id@) as u32;
    let capacity = if c.capacity_limits && count >= agent.capacity {
        seq![
            crate::constraint::violation(
                "capacity_limits"@,
                task.id@,
                agent.id@,
                crate::constraint::msg_at_capacity(agent.id@, count as nat, agent.capacity as nat),
            ),
        ]
    } else {
        seq![]
    };
    let deps = if c.dependency_ordering {
        dependency_violations_of(task, agent, s, n)
    } else {
        seq![]
    };
    let deadline = match lookup(s, task.id@) {
        Some(a) => if c.deadline_enforcement && end_of(a) > task.deadline {
            seq![
                crate::constraint::violation(
                    "deadline"@,
                    task.id@,
                    agent.id@,
                    crate::constraint::msg_ends_after(task.id@, end_of(a) as nat, task.deadline as nat),
                ),
            ]
        } else {
            seq![]
        },
        None => seq![],
    };
    assert(v == cap + capacity + deps + deadline);
    let lo = cap.len() + capacity.len();
    if c.dependency_ordering {
        assert forall|j: int| starts_before_dependency_at(task, s, j) implies v.contains(#[trigger] late_dependency_report(task, agent, s, j)) by {
            let p = choose|p: int| 0 <= p < deps.len() && deps[p] == late_dependency_report(task, agent, s, j);
            assert(v[lo + p] == deps[p]);
        }
    }
    assert forall|p: int| 0 <= p < v.len() && (#[trigger] v[p]).constraint_name == "dependency_ordering"@ implies c.dependency_ordering
        && reports_a_late_dependency(task, agent, s, v[p]) by {
        assert("capability_match"@.len() != "dependency_ordering"@.len());
        assert("capacity_limits"@.len() != "dependency_ordering"@.len());
        assert("deadline"@.len() != "dependency_ordering"@.len());
        if p < cap.len() {
            assert(v[p] == cap[p]);
        } else if p < lo {
            assert(v[p] == capacity[p - cap.len()]);
        } else if p < lo + deps.len() {
            assert(v[p] == deps[p - lo]);
        } else {
            assert(v[p] == deadline[p - lo - deps.len()]);
        }
    }
}

} // verus!

verus! {

/// Whether the skill at position `m` of those the task requires is none of
/// the agent's capabilities.
pub open spec fn skill_missing(agent: AgentProfile, task: TaskSpec, m: int) -> bool {
    forall|x: int| 0 <= x < agent.capabilities@.len() ==> (#[trigger] agent.capabilities@[x])@ != task.required_capabilities@[m]@
}

/// Whether some skill the task requires is none of the agent's capabilities.
pub open spec fn lacks_a_required_skill(agent: AgentProfile, task: TaskSpec) -> bool {
    exists|m: int| 0 <= m < task.required_capabilities@.len() && #[trigger] skill_missing(agent, task, m)
}

/// An agent can do a task exactly when it lacks none of the required skills.
pub proof fn lemma_can_do_iff_no_skill_lacking(agent: AgentProfile, task: TaskSpec)
    ensures
        agent.can_do(task.required()) <==> !lacks_a_required_skill(agent, task),
{
    let caps = agent.skills();
    let req = task.required();
    assert(caps.len() == agent.capabilities@.len());
    assert(req.len() == task.required_capabilities@.len());
    assert forall|x: int| 0 <= x < caps.len() implies #[trigger] caps[x] == agent.capabilities@[x]@ by {}
    assert forall|m: int| 0 <= m < req.len() implies #[trigger] req[m] == task.required_capabilities@[m]@ by {}
    if agent.can_do(req) {
        if lacks_a_required_skill(agent, task) {
            let m = choose|m: int| 0 <= m < task.required_capabilities@.len() && #[trigger] skill_missing(agent, task, m);
            assert(req[m] == task.required_capabilities@[m]@);
            assert(crate::agent::has_skill(caps, req[m]));
            let x = choose|x: int| 0 <= x < caps.len() && caps[x] == req[m];
            assert(caps[x] == agent.capabilities@[x]@);
            assert(agent.capabilities@[x]@ != task.required_capabilities@[m]@);
        }
    } else {
        let m = choose|m: int| 0 <= m < req.len() && !crate::agent::has_skill(caps, #[trigger] req[m]);
        assert forall|x: int| 0 <= x < agent.capabilities@.len() implies (#[trigger] agent.capabilities@[x])@
            != task.required_capabilities@[m]@ by {
            assert(caps[x] == agent.capabilities@[x]@);
        }
        assert(skill_missing(agent, task, m));
    }
}

proof fn lemma_last_agent_unique(agents: Seq<AgentProfile>, g: int)
    requires
        0 <= g < agents.len(),
        forall|x: int, y: int| 0 <= x < y < agents.len() ==> (#[trigger] agents[x]).id@ != (#[trigger] agents[y]).id@,
    ensures
        last_agent_index(agents, agents[g].id@) == g,
    decreases agents.len(),
{
    let n = agents.len() - 1;
    if g < n {
        assert(agents[g].id@ != agents[n].id@);
        let rest = agents.drop_last();
        assert forall|x: int, y: int| 0 <= x < y < rest.len() implies (#[trigger] rest[x]).id@ != (#[trigger] rest[y]).id@ by {
            assert(rest[x] == agents[x] && rest[y] == agents[y]);
        }
        lemma_last_agent_unique(rest, g);
        assert(rest[g] == agents[g]);
    }
}

proof fn lemma_entry_capability(c: Constraints, key: Seq<char>, a: AssignmentView, agents: Seq<AgentProfile>, tasks: Seq<TaskSpec>, k: Seq<char>)
    ensures
        reports_named(entry_violations(c, key, a, agents, tasks), "capability_match"@, k) <==> (key == k && last_task_index(tasks, key)
            >= 0 && last_agent_index(agents, a.agent) >= 0 && c.capability_match && !agents[last_agent_index(
            agents,
            a.agent,
        )].can_do(tasks[last_task_index(tasks, key)].required())),
{
    reveal_strlit("deadline");
    reveal_strlit("capability_match");
    reveal_strlit("unknown_agent");
    assert("capability_match"@.len() == 16);
    assert("deadline"@.len() == 8);
    assert("unknown_agent"@.len() == 13);
    let name = "capability_match"@;
    let ev = entry_violations(c, key, a, agents, tasks);
    lemma_last_task_index_bounds(tasks, key);
    lemma_last_agent_index_bounds(agents, a.agent);
    let ti = last_task_index(tasks, key);
    let ai = last_agent_index(agents, a.agent);
    if ti >= 0 && ai >= 0 {
        let task = tasks[ti];
        let agent = agents[ai];
        let cap = if c.capability_match && !agent.can_do(task.required()) {
            seq![crate::constraint::violation("capability_match"@, key, agent.id@, "Agent lacks required capabilities"@)]
        } else {
            seq![]
        };
        let deadline = if c.deadline_enforcement && end_of(a) > task.deadline {
            seq![
                crate::constraint::violation(
                    "deadline"@,
                    key,
                    agent.id@,
                    crate::constraint::msg_misses_deadline(end_of(a) as nat, task.deadline as nat),
                ),
            ]
        } else {
            seq![]
        };
        assert(ev == cap + deadline);
        if reports_named(ev, name, k) {
            let j = choose|j: int| 0 <= j < ev.len() && (#[trigger] ev[j]).constraint_name == name && ev[j].task_id == k;
            if j < cap.len() {
                assert(ev[j] == cap[j]);
            } else {
                assert(ev[j] == deadline[j - cap.len()]);
            }
        }
        if key == k && c.capability_match && !agent.can_do(task.required()) {
            assert(ev[0] == cap[0]);
        }
    } else if ti >= 0 {
        if reports_named(ev, name, k) {
            let j = choose|j: int| 0 <= j < ev.len() && (#[trigger] ev[j]).constraint_name == name && ev[j].task_id == k;
            assert(ev[j].constraint_name == "unknown_agent"@);
        }
    }
}

/// For tasks and agents with distinct identifiers, `check_schedule` reports a
/// missing capability for a task placed with a known agent exactly when
/// capability matching is enforced and some skill the task requires is none of
/// that agent's capabilities, whichever of the required skills it is.
pub proof fn law_capability_violation_iff_skill_missing(
    c: Constraints,
    s: Seq<(Seq<char>, AssignmentView)>,
    agents: Seq<AgentProfile>,
    tasks: Seq<TaskSpec>,
    i: int,
    g: int,
)
    requires
        distinct_keys(s),
        forall|x: int, y: int| 0 <= x < y < tasks.len() ==> (#[trigger] tasks[x]).id@ != (#[trigger] tasks[y]).id@,
        forall|x: int, y: int| 0 <= x < y < agents.len() ==> (#[trigger] agents[x]).id@ != (#[trigger] agents[y]).id@,
        0 <= i < tasks.len(),
        lookup(s, tasks[i].id@) is Some,
        0 <= g < agents.len(),
        agents[g].id@ == lookup(s, tasks[i].id@).unwrap().agent,
    ensures
        reports_named(schedule_violations(c, s, agents, tasks), "capability_match"@, tasks[i].id@) <==> (c.capability_match
            && lacks_a_required_skill(agents[g], tasks[i])),
{
    let k = tasks[i].id@;
    let name = "capability_match"@;
    let a = lookup(s, k).unwrap();
    let ev = entries_violations(c, s, agents, tasks, s.len() as int);
    let cap = if c.capacity_limits { capacity_violations(s, agents, agents.len() as int) } else { seq![] };
    let ord = if c.dependency_ordering { ordering_violations(s, tasks, tasks.len() as int) } else { seq![] };
    let v = schedule_violations(c, s, agents, tasks);
    assert(v == ev + cap + ord);
    reveal_strlit("capability_match");
    assert(entry_name(name));
    lemma_entry_names_distinct(name);
    lemma_named_concat(ev, cap, name, k);
    lemma_named_concat(ev + cap, ord, name, k);
    assert(!reports_named(Seq::<ViolationView>::empty(), name, k));
    lemma_capacity_not_named(s, agents, agents.len() as int, name, k);
    lemma_ordering_not_named(s, tasks, tasks.len() as int, name, k);
    lemma_entries_named(c, s, agents, tasks, s.len() as int, name, k);
    crate::idmap::lemma_lookup_in(s, k);
    let q0 = choose|q: int| 0 <= q < s.len() && s[q] == (k, a);
    lemma_last_task_unique(tasks, i);
    lemma_last_agent_unique(agents, g);
    lemma_can_do_iff_no_skill_lacking(agents[g], tasks[i]);
    lemma_entry_capability(c, s[q0].0, s[q0].1, agents, tasks, k);
    if reports_named(ev, name, k) {
        let q = choose|q: int| 0 <= q < s.len() && s[q].0 == k && #[trigger] reports_named(entry_violations(c, s[q].0, s[q].1, agents, tasks), name, k);
        lemma_index_of_unique(s, q);
        lemma_index_of_unique(s, q0);
        assert(q == q0);
    }
}

} // verus!

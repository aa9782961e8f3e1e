//! What holds of every schedule the solver finds.

use crate::agent::AgentProfile;
use crate::constraint::{capacity_violation, capacity_violations, peak_load, peak_overlap, entries_violations, entry_violations, last_agent_index, last_task_index, lemma_last_task_index_bounds, order_violation, order_violations_of, ordering_violations, schedule_violations, Constraints, ViolationView};
use crate::idmap::{distinct_keys, drop_key, has_key, index_of, lemma_index_of_unique, lemma_put_distinct, lookup, put};
use crate::order::{lemma_stable_order_in_range, lemma_stable_order_permutation, stable_order_of};
use crate::schedule::{all_conflicts, conflicts_before, conflicts_of, end_of, overlaps, pair_conflict, AssignmentView};
use crate::solver::{ac_domains, overlapping_count, lemma_task_perm, lemma_ready_first_perm, lemma_pick_index, names_task, placed_before, ready, ready_first, is_first_ready, pick_index, task_perm, capable_count, mrv_order, search_order, consistent, domain_of, domains_of, first_agent_index, forward_ok, mrv_keys, place, raw_domain, search, try_values, valid_values, capacity_of, CSPSolver, SearchOutcome, SearchSpace};
use crate::task::{task_views, TaskSpec, TaskView};
use vstd::prelude::*;

verus! {

/// Whether no two assignments of the same agent overlap in time.
pub open spec fn no_overlaps(s: Seq<(Seq<char>, AssignmentView)>) -> bool {
    forall|i: int, j: int|
        0 <= i < j < s.len() && (#[trigger] s[i]).1.agent == (#[trigger] s[j]).1.agent ==> !overlaps(s[i].1, s[j].1)
}

/// Whether the tasks have distinct identifiers.
pub open spec fn distinct_task_ids(tasks: Seq<TaskSpec>) -> bool {
    forall|i: int, j: int| 0 <= i < j < tasks.len() ==> (#[trigger] tasks[i]).id@ != (#[trigger] tasks[j]).id@
}

/// Whether some agent with identifier `id` can do a task requiring `required`.
pub open spec fn capable_agent(agents: Seq<AgentProfile>, id: Seq<char>, required: Seq<Seq<char>>) -> bool {
    exists|g: int| 0 <= g < agents.len() && (#[trigger] agents[g]).id@ == id && agents[g].can_do(required)
}

/// Whether assignment `a` places task `t` within schedule `s` as the hard
/// constraints ask: for the task's duration; with an agent able to do the
/// task; by the deadline (when enforced); after every dependency, each of
/// them placed (when ordering applies); with an agent whose first profile has
/// room for a task (when capacity limits apply).
pub open spec fn placed_ok(c: Constraints, t: TaskView, a: AssignmentView, s: Seq<(Seq<char>, AssignmentView)>, agents: Seq<AgentProfile>) -> bool {
    &&& a.duration == t.duration
    &&& capable_agent(agents, a.agent, t.required)
    &&& c.deadline_enforcement ==> end_of(a) <= t.deadline
    &&& c.dependency_ordering ==> forall|j: int|
        0 <= j < t.deps.len() ==> (#[trigger] lookup(s, t.deps[j]) matches Some(d) && end_of(d) <= a.start)
    &&& c.capacity_limits ==> first_agent_index(agents, a.agent) >= 0 && agents[first_agent_index(
        agents,
        a.agent,
    )].capacity > 0
}

/// Whether `f` is a valid complete schedule of `tasks`: one entry per task,
/// each placed as the hard constraints ask, and no agent doing two things at
/// once.
pub open spec fn solution_valid(c: Constraints, tasks: Seq<TaskSpec>, agents: Seq<AgentProfile>, f: Seq<(Seq<char>, AssignmentView)>) -> bool {
    &&& f.len() == tasks.len()
    &&& distinct_keys(f)
    &&& forall|i: int|
        0 <= i < tasks.len() ==> (#[trigger] lookup(f, tasks[i].id@) matches Some(a) && placed_ok(
            c,
            tasks[i]@,
            a,
            f,
            agents,
        ))
    &&& forall|i: int|
        #![trigger f[i]]
        0 <= i < f.len() ==> exists|j: int| 0 <= j < tasks.len() && (#[trigger] tasks[j]).id@ == f[i].0
    &&& no_overlaps(f)
}

/// The search space has distinct task identifiers, and every value of a
/// task's domain names an agent able to do the task.
pub open spec fn space_ok(sp: SearchSpace) -> bool {
    &&& forall|i: int, j: int|
        0 <= i < j < sp.order.len() ==> (#[trigger] sp.order[i]).id != (#[trigger] sp.order[j]).id
    &&& forall|i: int, m: int|
        0 <= i < sp.order.len() && lookup(sp.domains, sp.order[i].id) is Some && 0 <= m < lookup(
            sp.domains,
            sp.order[i].id,
        ).unwrap().len() ==> capable_agent(
            sp.agents,
            (#[trigger] lookup(sp.domains, sp.order[i].id).unwrap()[m]).0,
            sp.order[i].required,
        )
}

/// The partial schedule at depth `idx`: the first `idx` tasks of the order, in
/// order, each placed as the hard constraints ask, without overlaps.
pub open spec fn level_ok(sp: SearchSpace, idx: int, s: Seq<(Seq<char>, AssignmentView)>) -> bool {
    &&& s.len() == idx
    &&& forall|j: int| 0 <= j < idx ==> (#[trigger] s[j]).0 == sp.order[j].id
    &&& forall|j: int| 0 <= j < idx ==> placed_ok(sp.constraints, sp.order[j], (#[trigger] s[j]).1, s, sp.agents)
    &&& no_overlaps(s)
}

/// Whether value `v` may be placed for task `t` in `s`.
pub open spec fn placeable(sp: SearchSpace, t: TaskView, v: (Seq<char>, u64), s: Seq<(Seq<char>, AssignmentView)>) -> bool {
    &&& consistent(sp.constraints, t, v.0, v.1, s, sp.agents)
    &&& capable_agent(sp.agents, v.0, t.required)
}

proof fn lemma_raw_domain_capable(t: TaskView, agents: Seq<AgentProfile>, n: int)
    requires
        0 <= n <= agents.len(),
    ensures
        forall|m: int|
            0 <= m < raw_domain(t, agents, n).len() ==> capable_agent(agents, (#[trigger] raw_domain(t, agents, n)[m]).0, t.required),
    decreases n,
{
    if n > 0 {
        lemma_raw_domain_capable(t, agents, n - 1);
        let rest = raw_domain(t, agents, n - 1);
        assert forall|m: int| 0 <= m < raw_domain(t, agents, n).len() implies capable_agent(
            agents,
            (#[trigger] raw_domain(t, agents, n)[m]).0,
            t.required,
        ) by {
            let r = raw_domain(t, agents, n);
            if m < rest.len() {
                assert(r[m] == rest[m]);
            } else {
                assert(r[m].0 == agents[n - 1].id@);
                assert(agents[n - 1].can_do(t.required));
            }
        }
    }
}

proof fn lemma_domain_capable(t: TaskView, agents: Seq<AgentProfile>)
    ensures
        forall|m: int|
            0 <= m < domain_of(t, agents).len() ==> capable_agent(agents, (#[trigger] domain_of(t, agents)[m]).0, t.required),
{
    let raw = raw_domain(t, agents, agents.len() as int);
    let keys = raw.map_values(|p: (Seq<char>, u64)| (u32::MAX - capacity_of(agents, p.0)) as u64);
    lemma_stable_order_in_range(keys);
    lemma_raw_domain_capable(t, agents, agents.len() as int);
    let perm = stable_order_of(keys);
    assert forall|m: int| 0 <= m < domain_of(t, agents).len() implies capable_agent(
        agents,
        (#[trigger] domain_of(t, agents)[m]).0,
        t.required,
    ) by {
        assert(perm[m] < raw.len());
        assert(domain_of(t, agents)[m] == raw[perm[m] as int]);
    }
}

proof fn lemma_lookup_domains(order: Seq<TaskView>, agents: Seq<AgentProfile>, n: int, idx: int)
    requires
        0 <= n <= order.len(),
        forall|i: int, j: int| 0 <= i < j < order.len() ==> (#[trigger] order[i]).id != (#[trigger] order[j]).id,
    ensures
        distinct_keys(domains_of(order, agents, n)),
        0 <= idx < n ==> lookup(domains_of(order, agents, n), order[idx].id) == Some(domain_of(order[idx], agents)),
        forall|k: Seq<char>| #[trigger] has_key(domains_of(order, agents, n), k) ==> exists|i: int| 0 <= i < n && order[i].id == k,
    decreases n,
{
    if n > 0 {
        lemma_lookup_domains(order, agents, n - 1, idx);
        let before = domains_of(order, agents, n - 1);
        lemma_put_distinct(before, order[n - 1].id, domain_of(order[n - 1], agents));
        if 0 <= idx < n - 1 {
            assert(order[idx].id != order[n - 1].id);
        }
        assert forall|k: Seq<char>| #[trigger] has_key(domains_of(order, agents, n), k) implies exists|i: int| 0 <= i < n && order[i].id == k by {
            if k != order[n - 1].id {
                assert(has_key(before, k));
            }
        }
    }
}

/// The values of the domains the solver searches name capable agents.
proof fn lemma_space_capable(sp: SearchSpace)
    requires
        forall|i: int, j: int|
            0 <= i < j < sp.order.len() ==> (#[trigger] sp.order[i]).id != (#[trigger] sp.order[j]).id,
        sp.domains == ac_domains(sp.order, domains_of(sp.order, sp.agents, sp.order.len() as int)),
    ensures
        space_ok(sp),
{
    let n = sp.order.len() as int;
    let d0 = domains_of(sp.order, sp.agents, n);
    lemma_lookup_domains(sp.order, sp.agents, n, 0);
    crate::solver::law_ac3_arc_consistent(sp.order, d0);
    assert forall|i: int, m: int|
        0 <= i < sp.order.len() && lookup(sp.domains, sp.order[i].id) is Some && 0 <= m < lookup(sp.domains, sp.order[i].id).unwrap().len()
            implies capable_agent(sp.agents, (#[trigger] lookup(sp.domains, sp.order[i].id).unwrap()[m]).0, sp.order[i].required) by {
        let k = sp.order[i].id;
        let v = lookup(sp.domains, k).unwrap()[m];
        assert(lookup(sp.domains, k).unwrap().contains(v));
        assert(lookup(d0, k).unwrap().contains(v));
        lemma_lookup_domains(sp.order, sp.agents, n, i);
        lemma_domain_capable(sp.order[i], sp.agents);
        let q = choose|q: int| 0 <= q < lookup(d0, k).unwrap().len() && lookup(d0, k).unwrap()[q] == v;
        assert(domain_of(sp.order[i], sp.agents)[q] == v);
    }
}

proof fn lemma_valid_values_placeable(sp: SearchSpace, t: TaskView, d: Seq<(Seq<char>, u64)>, s: Seq<(Seq<char>, AssignmentView)>)
    requires
        forall|m: int| 0 <= m < d.len() ==> capable_agent(sp.agents, (#[trigger] d[m]).0, t.required),
    ensures
        forall|m: int|
            0 <= m < valid_values(sp.constraints, sp.agents, t, d, s).len() ==> placeable(
                sp,
                t,
                #[trigger] valid_values(sp.constraints, sp.agents, t, d, s)[m],
                s,
            ),
    decreases d.len(),
{
    if d.len() > 0 {
        let dl = d.drop_last();
        assert forall|m: int| 0 <= m < dl.len() implies capable_agent(sp.agents, (#[trigger] dl[m]).0, t.required) by {
            assert(dl[m] == d[m]);
        }
        lemma_valid_values_placeable(sp, t, dl, s);
        let rest = valid_values(sp.constraints, sp.agents, t, dl, s);
        let vv = valid_values(sp.constraints, sp.agents, t, d, s);
        assert forall|m: int| 0 <= m < vv.len() implies placeable(sp, t, #[trigger] vv[m], s) by {
            if m < rest.len() {
                assert(vv[m] == rest[m]);
            } else {
                assert(vv[m] == d[d.len() - 1]);
            }
        }
    }
}

proof fn lemma_lookup_push(s: Seq<(Seq<char>, AssignmentView)>, k: Seq<char>, v: AssignmentView, d: Seq<char>)
    requires
        distinct_keys(s),
        !has_key(s, k),
    ensures
        d != k ==> lookup(s.push((k, v)), d) == lookup(s, d),
        put(s, k, v) == s.push((k, v)),
        drop_key(s.push((k, v)), k) == s,
        distinct_keys(s.push((k, v))),
{
    lemma_put_distinct(s, k, v);
    let r = s.push((k, v));
    lemma_index_of_unique(r, s.len() as int);
    assert(r.remove(s.len() as int) =~= s);
}

proof fn lemma_place(sp: SearchSpace, idx: int, s: Seq<(Seq<char>, AssignmentView)>, v: (Seq<char>, u64))
    requires
        space_ok(sp),
        0 <= idx < sp.order.len(),
        level_ok(sp, idx, s),
        placeable(sp, sp.order[idx], v, s),
    ensures
        level_ok(sp, idx + 1, place(s, sp.order[idx], v)),
        drop_key(place(s, sp.order[idx], v), sp.order[idx].id) == s,
{
    let t = sp.order[idx];
    let c = sp.constraints;
    let a = AssignmentView { agent: v.0, start: v.1, duration: t.duration };
    let s1 = s.push((t.id, a));
    assert(distinct_keys(s)) by {
        assert forall|i: int, j: int| 0 <= i < j < s.len() implies s[i].0 != s[j].0 by {
            assert(s[i].0 == sp.order[i].id);
            assert(s[j].0 == sp.order[j].id);
        }
    }
    assert(!has_key(s, t.id)) by {
        if has_key(s, t.id) {
            let q = index_of(s, t.id);
            assert(s[q].0 == sp.order[q].id);
        }
    }
    lemma_lookup_push(s, t.id, a, seq![]);
    assert(place(s, t, v) == s1);
    assert forall|d: Seq<char>| has_key(s, d) implies #[trigger] lookup(s1, d) == lookup(s, d) by {
        if d == t.id {
        } else {
            lemma_lookup_push(s, t.id, a, d);
        }
    }
    assert forall|j: int| 0 <= j < idx + 1 implies (#[trigger] s1[j]).0 == sp.order[j].id by {
        if j < idx {
            assert(s1[j] == s[j]);
        }
    }
    assert forall|j: int| 0 <= j < idx + 1 implies placed_ok(c, sp.order[j], (#[trigger] s1[j]).1, s1, sp.agents) by {
        if j < idx {
            assert(s1[j] == s[j]);
            let tj = sp.order[j];
            assert(placed_ok(c, tj, s[j].1, s, sp.agents));
            if c.dependency_ordering {
                assert forall|q: int| 0 <= q < tj.deps.len() implies (#[trigger] lookup(s1, tj.deps[q]) matches Some(d)
                    && end_of(d) <= s[j].1.start) by {
                    assert(lookup(s, tj.deps[q]) matches Some(d) && end_of(d) <= s[j].1.start);
                    assert(has_key(s, tj.deps[q]));
                }
            }
        } else {
            assert(s1[j] == (t.id, a));
            if c.dependency_ordering {
                assert forall|q: int| 0 <= q < t.deps.len() implies (#[trigger] lookup(s1, t.deps[q]) matches Some(d)
                    && end_of(d) <= a.start) by {
                    assert(lookup(s, t.deps[q]) matches Some(d) && v.1 >= end_of(d));
                    assert(has_key(s, t.deps[q]));
                }
            }
        }
    }
    assert forall|i: int, j: int| 0 <= i < j < s1.len() && (#[trigger] s1[i]).1.agent == (#[trigger] s1[j]).1.agent implies !overlaps(s1[i].1, s1[j].1) by {
        if j < s.len() {
            assert(s1[i] == s[i] && s1[j] == s[j]);
        } else {
            assert(s1[i] == s[i]);
            assert(s[i].1.agent == v.0);
        }
    }
}

proof fn lemma_search_sound(sp: SearchSpace, idx: int, s: Seq<(Seq<char>, AssignmentView)>)
    requires
        space_ok(sp),
        0 <= idx <= sp.order.len(),
        level_ok(sp, idx, s),
    ensures
        search(sp, idx, s).found matches Some(f) ==> level_ok(sp, sp.order.len() as int, f),
        search(sp, idx, s).found is None ==> search(sp, idx, s).last == s,
    decreases sp.order.len() - idx, 1int, 0int,
{
    if idx < sp.order.len() {
        let t = sp.order[idx];
        if lookup(sp.domains, t.id) is Some {
            let d = lookup(sp.domains, t.id).unwrap();
            assert forall|m: int| 0 <= m < d.len() implies capable_agent(sp.agents, (#[trigger] d[m]).0, t.required) by {
                assert(capable_agent(sp.agents, lookup(sp.domains, sp.order[idx].id).unwrap()[m].0, sp.order[idx].required));
            }
            lemma_valid_values_placeable(sp, t, d, s);
            lemma_try_sound(sp, idx, valid_values(sp.constraints, sp.agents, t, d, s), 0, s);
        }
    }
}

proof fn lemma_try_sound(sp: SearchSpace, idx: int, vals: Seq<(Seq<char>, u64)>, k: int, s: Seq<(Seq<char>, AssignmentView)>)
    requires
        space_ok(sp),
        0 <= idx < sp.order.len(),
        0 <= k,
        level_ok(sp, idx, s),
        forall|m: int| 0 <= m < vals.len() ==> placeable(sp, sp.order[idx], #[trigger] vals[m], s),
    ensures
        try_values(sp, idx, vals, k, s).found matches Some(f) ==> level_ok(sp, sp.order.len() as int, f),
        try_values(sp, idx, vals, k, s).found is None ==> try_values(sp, idx, vals, k, s).last == s,
    decreases sp.order.len() - idx, 0int, vals.len() - k,
{
    if k < vals.len() {
        let t = sp.order[idx];
        let s1 = place(s, t, vals[k]);
        assert(placeable(sp, t, vals[k], s));
        lemma_place(sp, idx, s, vals[k]);
        if forward_ok(sp.constraints, sp.order, idx + 1, s1, sp.agents) {
            lemma_search_sound(sp, idx + 1, s1);
        }
        let child = if forward_ok(sp.constraints, sp.order, idx + 1, s1, sp.agents) {
            search(sp, idx + 1, s1)
        } else {
            SearchOutcome { found: None, nodes: 0, last: s1 }
        };
        if child.found is None {
            assert(drop_key(child.last, t.id) == s);
            lemma_try_sound(sp, idx, vals, k + 1, s);
        }
    }
}

/// Every schedule the solver finds for tasks with distinct identifiers is
/// valid: each task is placed once, for its duration, with an agent able to
/// do it, by its deadline when deadlines are enforced, after each of its
/// dependencies when ordering applies, with an agent that has room when
/// capacity limits apply; every entry is a task's; and no agent works on two
/// tasks at once.
pub proof fn law_solved_schedule_is_valid(solver: CSPSolver, agents: Seq<AgentProfile>, tasks: Seq<TaskSpec>)
    requires
        distinct_task_ids(tasks),
        tasks.len() <= usize::MAX,
    ensures
        solver.solve_outcome(agents, tasks).found matches Some(f) ==> solution_valid(
            solver.constraints,
            tasks,
            agents,
            f,
        ),
{
    let sp = solver.solve_space(agents, tasks);
    let tv = task_views(tasks);
    let perm = task_perm(tv, agents);
    lemma_task_perm(tv, agents);
    let order = sp.order;
    assert(order == perm.map_values(|i: usize| tv[i as int]));
    assert forall|i: int, j: int| 0 <= i < j < order.len() implies (#[trigger] order[i]).id != (#[trigger] order[j]).id by {
        assert(perm[i] != perm[j]);
        assert(order[i] == tasks[perm[i] as int]@);
        assert(order[j] == tasks[perm[j] as int]@);
        if perm[i] < perm[j] {
            assert(tasks[perm[i] as int].id@ != tasks[perm[j] as int].id@);
        } else {
            assert(tasks[perm[j] as int].id@ != tasks[perm[i] as int].id@);
        }
    }
    lemma_space_capable(sp);
    assert(level_ok(sp, 0, seq![]));
    lemma_search_sound(sp, 0, seq![]);
    let o = search(sp, 0, seq![]);
    if o.found is Some {
        let f = o.found.unwrap();
        assert(level_ok(sp, order.len() as int, f));
        assert(distinct_keys(f)) by {
            assert forall|i: int, j: int| 0 <= i < j < f.len() implies f[i].0 != f[j].0 by {
                assert(f[i].0 == order[i].id);
                assert(f[j].0 == order[j].id);
            }
        }
        assert forall|i: int| 0 <= i < tasks.len() implies (#[trigger] lookup(f, tasks[i].id@) matches Some(a) && placed_ok(
            solver.constraints,
            tasks[i]@,
            a,
            f,
            agents,
        )) by {
            assert(perm.contains(i as usize));
            let j = choose|j: int| 0 <= j < perm.len() && perm[j] == i as usize;
            assert(order[j] == tasks[i]@);
            assert(f[j].0 == tasks[i].id@);
            lemma_index_of_unique(f, j);
            assert(placed_ok(sp.constraints, order[j], f[j].1, f, agents));
        }
        assert forall|i: int|
            #![trigger f[i]]
            0 <= i < f.len() implies exists|j: int| 0 <= j < tasks.len() && (#[trigger] tasks[j]).id@ == f[i].0 by {
            assert(f[i].0 == order[i].id);
            assert(order[i] == tasks[perm[i] as int]@);
        }
    }
}

/// The solver finds no schedule when a task of distinct-identifier tasks
/// cannot be placed: no agent can do it, or its duration exceeds its deadline
/// while deadlines are enforced.
pub proof fn law_unplaceable_task_blocks_solution(solver: CSPSolver, agents: Seq<AgentProfile>, tasks: Seq<TaskSpec>, i: int)
    requires
        distinct_task_ids(tasks),
        tasks.len() <= usize::MAX,
        0 <= i < tasks.len(),
        (forall|g: int| 0 <= g < agents.len() ==> !(#[trigger] agents[g]).can_do(tasks[i]@.required)) || (
        solver.constraints.deadline_enforcement && tasks[i].duration_estimate > tasks[i].deadline),
    ensures
        solver.solve_outcome(agents, tasks).found is None,
{
    law_solved_schedule_is_valid(solver, agents, tasks);
    let o = solver.solve_outcome(agents, tasks);
    if o.found is Some {
        let f = o.found.unwrap();
        assert(lookup(f, tasks[i].id@) matches Some(a) && placed_ok(solver.constraints, tasks[i]@, a, f, agents));
    }
}

/// With no tasks, the solver finds the empty schedule.
pub proof fn law_no_tasks_empty_schedule(solver: CSPSolver, agents: Seq<AgentProfile>, tasks: Seq<TaskSpec>)
    requires
        tasks.len() == 0,
    ensures
        solver.solve_outcome(agents, tasks).found == Some(Seq::<(Seq<char>, AssignmentView)>::empty()),
{
}

/// A schedule without overlapping assignments of one agent has no conflicts.
pub proof fn law_no_overlaps_no_conflicts(s: Seq<(Seq<char>, AssignmentView)>)
    requires
        no_overlaps(s),
    ensures
        all_conflicts(s) == Seq::<crate::schedule::ConflictView>::empty(),
{
    lemma_conflicts_empty(s, s.len() as int);
}

proof fn lemma_conflicts_empty(s: Seq<(Seq<char>, AssignmentView)>, n: int)
    requires
        no_overlaps(s),
        n <= s.len(),
    ensures
        conflicts_before(s, n) == Seq::<crate::schedule::ConflictView>::empty(),
    decreases n,
{
    if n > 0 {
        lemma_conflicts_empty(s, n - 1);
        lemma_conflicts_of_empty(s, n - 1, s.len() as int);
        assert(conflicts_before(s, n) =~= Seq::<crate::schedule::ConflictView>::empty());
    }
}

proof fn lemma_conflicts_of_empty(s: Seq<(Seq<char>, AssignmentView)>, i: int, hi: int)
    requires
        no_overlaps(s),
        0 <= i,
        hi <= s.len(),
    ensures
        conflicts_of(s, i, hi) == Seq::<crate::schedule::ConflictView>::empty(),
    decreases hi - i,
{
    if hi > i + 1 {
        lemma_conflicts_of_empty(s, i, hi - 1);
        let j = hi - 1;
        if s[i].1.agent == s[j].1.agent {
            assert(!overlaps(s[i].1, s[j].1));
        }
        assert(pair_conflict(s, i, j) =~= Seq::<crate::schedule::ConflictView>::empty());
        assert(conflicts_of(s, i, hi) =~= Seq::<crate::schedule::ConflictView>::empty());
    }
}

/// Whether every entry of `a` is an entry of `b`.
pub open spec fn sub_entries(a: Seq<(Seq<char>, AssignmentView)>, b: Seq<(Seq<char>, AssignmentView)>) -> bool {
    forall|i: int| 0 <= i < a.len() ==> b.contains(#[trigger] a[i])
}

proof fn lemma_drop_entries(s: Seq<(Seq<char>, AssignmentView)>, k: Seq<char>)
    requires
        distinct_keys(s),
    ensures
        sub_entries(drop_key(s, k), s),
        forall|i: int| 0 <= i < drop_key(s, k).len() ==> (#[trigger] drop_key(s, k)[i]).0 != k,
        forall|e: (Seq<char>, AssignmentView)| s.contains(e) && e.0 != k ==> #[trigger] drop_key(s, k).contains(e),
        distinct_keys(drop_key(s, k)),
{
    crate::idmap::lemma_drop_distinct(s, k);
    let r = drop_key(s, k);
    if has_key(s, k) {
        let p = index_of(s, k);
        assert forall|i: int| 0 <= i < r.len() implies s.contains(#[trigger] r[i]) by {
            let q = if i < p { i } else { i + 1 };
            assert(r[i] == s[q]);
        }
        assert forall|i: int| 0 <= i < r.len() implies (#[trigger] r[i]).0 != k by {
            let q = if i < p { i } else { i + 1 };
            assert(r[i] == s[q]);
            if s[q].0 == k {
                lemma_index_of_unique(s, q);
            }
        }
        assert forall|e: (Seq<char>, AssignmentView)| s.contains(e) && e.0 != k implies #[trigger] r.contains(e) by {
            let q = choose|q: int| 0 <= q < s.len() && s[q] == e;
            assert(q != p);
            let i = if q < p { q } else { q - 1 };
            assert(r[i] == e);
        }
    } else {
        assert forall|i: int| 0 <= i < r.len() implies s.contains(#[trigger] r[i]) by {
            assert(r[i] == s[i]);
        }
        assert forall|i: int| 0 <= i < r.len() implies (#[trigger] r[i]).0 != k by {
            assert(r[i] == s[i]);
        }
    }
}

proof fn lemma_drop_monotone(a: Seq<(Seq<char>, AssignmentView)>, b: Seq<(Seq<char>, AssignmentView)>, k: Seq<char>)
    requires
        distinct_keys(a),
        distinct_keys(b),
        sub_entries(a, b),
    ensures
        sub_entries(drop_key(a, k), drop_key(b, k)),
{
    lemma_drop_entries(a, k);
    lemma_drop_entries(b, k);
    let ra = drop_key(a, k);
    assert forall|i: int| 0 <= i < ra.len() implies drop_key(b, k).contains(#[trigger] ra[i]) by {
        assert(a.contains(ra[i]));
        let q = choose|q: int| 0 <= q < a.len() && a[q] == ra[i];
        assert(b.contains(a[q]));
    }
}

proof fn lemma_put_then_drop(s: Seq<(Seq<char>, AssignmentView)>, k: Seq<char>, v: AssignmentView)
    requires
        distinct_keys(s),
    ensures
        sub_entries(drop_key(put(s, k, v), k), s),
{
    lemma_put_distinct(s, k, v);
    let r = put(s, k, v);
    lemma_drop_entries(r, k);
    let d = drop_key(r, k);
    assert forall|i: int| 0 <= i < d.len() implies s.contains(#[trigger] d[i]) by {
        assert(r.contains(d[i]));
        assert(d[i].0 != k);
        let q = choose|q: int| 0 <= q < r.len() && r[q] == d[i];
        if has_key(s, k) {
            let p = index_of(s, k);
            if q == p {
                assert(r[q].0 == k);
            }
            assert(r[q] == s[q]);
        } else {
            if q == s.len() {
                assert(r[q].0 == k);
            }
            assert(r[q] == s[q]);
        }
    }
}

proof fn lemma_sub_trans(a: Seq<(Seq<char>, AssignmentView)>, b: Seq<(Seq<char>, AssignmentView)>, c: Seq<(Seq<char>, AssignmentView)>)
    requires
        sub_entries(a, b),
        sub_entries(b, c),
    ensures
        sub_entries(a, c),
{
    assert forall|i: int| 0 <= i < a.len() implies c.contains(#[trigger] a[i]) by {
        assert(b.contains(a[i]));
        let q = choose|q: int| 0 <= q < b.len() && b[q] == a[i];
        assert(c.contains(b[q]));
    }
}

proof fn lemma_place_keeps_apart(
    c: Constraints,
    agents: Seq<AgentProfile>,
    t: TaskView,
    v: (Seq<char>, u64),
    s0: Seq<(Seq<char>, AssignmentView)>,
    s: Seq<(Seq<char>, AssignmentView)>,
)
    requires
        distinct_keys(s),
        no_overlaps(s),
        sub_entries(s, s0),
        consistent(c, t, v.0, v.1, s0, agents),
    ensures
        no_overlaps(place(s, t, v)),
        distinct_keys(place(s, t, v)),
{
    let a = AssignmentView { agent: v.0, start: v.1, duration: t.duration };
    lemma_put_distinct(s, t.id, a);
    let r = place(s, t, v);
    let p = if has_key(s, t.id) { index_of(s, t.id) } else { s.len() as int };
    if has_key(s, t.id) {
        assert(0 <= p < s.len() && s[p].0 == t.id);
    }
    assert(r[p] == (t.id, a));
    assert forall|i: int| 0 <= i < r.len() && i != p implies #[trigger] r[i] == s[i] by {}
    assert forall|i: int| 0 <= i < r.len() && i != p && (#[trigger] r[i]).1.agent == a.agent implies !overlaps(r[i].1, a) by {
        assert(r[i] == s[i]);
        assert(s0.contains(s[i]));
        let q = choose|q: int| 0 <= q < s0.len() && s0[q] == s[i];
        assert(s0[q].1.agent == v.0);
    }
    assert forall|i: int, j: int| 0 <= i < j < r.len() && (#[trigger] r[i]).1.agent == (#[trigger] r[j]).1.agent implies !overlaps(r[i].1, r[j].1) by {
        if i == p {
            assert(!overlaps(r[j].1, a));
        } else if j == p {
            assert(!overlaps(r[i].1, a));
        } else {
            assert(r[i] == s[i] && r[j] == s[j]);
        }
    }
}

proof fn lemma_search_apart(sp: SearchSpace, idx: int, s: Seq<(Seq<char>, AssignmentView)>)
    requires
        distinct_keys(s),
        no_overlaps(s),
    ensures
        search(sp, idx, s).found matches Some(f) ==> no_overlaps(f),
        search(sp, idx, s).found is None ==> sub_entries(search(sp, idx, s).last, s) && distinct_keys(
            search(sp, idx, s).last,
        ),
    decreases sp.order.len() - idx, 1int, 0int,
{
    if 0 <= idx < sp.order.len() {
        let t = sp.order[idx];
        match lookup(sp.domains, t.id) {
            None => {
                assert(sub_entries(s, s) ) by {
                    assert forall|i: int| 0 <= i < s.len() implies s.contains(#[trigger] s[i]) by {}
                }
            },
            Some(d) => {
                let vals = valid_values(sp.constraints, sp.agents, t, d, s);
                lemma_valid_values_consistent(sp.constraints, sp.agents, t, d, s);
                assert(sub_entries(s, s)) by {
                    assert forall|i: int| 0 <= i < s.len() implies s.contains(#[trigger] s[i]) by {}
                }
                lemma_try_apart(sp, idx, vals, 0, s, s);
            },
        }
    } else {
        assert(sub_entries(s, s)) by {
            assert forall|i: int| 0 <= i < s.len() implies s.contains(#[trigger] s[i]) by {}
        }
    }
}

proof fn lemma_try_apart(
    sp: SearchSpace,
    idx: int,
    vals: Seq<(Seq<char>, u64)>,
    k: int,
    s: Seq<(Seq<char>, AssignmentView)>,
    s0: Seq<(Seq<char>, AssignmentView)>,
)
    requires
        0 <= idx < sp.order.len(),
        distinct_keys(s),
        distinct_keys(s0),
        no_overlaps(s),
        sub_entries(s, s0),
        forall|m: int|
            0 <= m < vals.len() ==> consistent(sp.constraints, sp.order[idx], (#[trigger] vals[m]).0, vals[m].1, s0, sp.agents),
    ensures
        try_values(sp, idx, vals, k, s).found matches Some(f) ==> no_overlaps(f),
        try_values(sp, idx, vals, k, s).found is None ==> sub_entries(try_values(sp, idx, vals, k, s).last, s)
            && distinct_keys(try_values(sp, idx, vals, k, s).last),
    decreases sp.order.len() - idx, 0int, vals.len() - k,
{
    if 0 <= k < vals.len() {
        let t = sp.order[idx];
        let s1 = place(s, t, vals[k]);
        lemma_place_keeps_apart(sp.constraints, sp.agents, t, vals[k], s0, s);
        let child = if forward_ok(sp.constraints, sp.order, idx + 1, s1, sp.agents) {
            lemma_search_apart(sp, idx + 1, s1);
            search(sp, idx + 1, s1)
        } else {
            assert(sub_entries(s1, s1)) by {
                assert forall|i: int| 0 <= i < s1.len() implies s1.contains(#[trigger] s1[i]) by {}
            }
            SearchOutcome { found: None, nodes: 0, last: s1 }
        };
        if child.found is None {
            let next = drop_key(child.last, t.id);
            lemma_drop_monotone(child.last, s1, t.id);
            lemma_put_then_drop(s, t.id, AssignmentView { agent: vals[k].0, start: vals[k].1, duration: t.duration });
            lemma_sub_trans(next, drop_key(s1, t.id), s);
            lemma_sub_trans(next, s, s0);
            lemma_drop_entries(child.last, t.id);
            assert(no_overlaps(next)) by {
                assert forall|i: int, j: int| 0 <= i < j < next.len() && (#[trigger] next[i]).1.agent == (#[trigger] next[j]).1.agent implies !overlaps(next[i].1, next[j].1) by {
                    assert(s.contains(next[i]));
                    assert(s.contains(next[j]));
                    let qi = choose|q: int| 0 <= q < s.len() && s[q] == next[i];
                    let qj = choose|q: int| 0 <= q < s.len() && s[q] == next[j];
                    assert(next[i].0 != next[j].0);
                    assert(qi != qj);
                    if qi < qj {
                        assert(!overlaps(s[qi].1, s[qj].1));
                    } else {
                        assert(!overlaps(s[qj].1, s[qi].1));
                    }
                }
            }
            lemma_try_apart(sp, idx, vals, k + 1, next, s0);
            let rest = try_values(sp, idx, vals, k + 1, next);
            if rest.found is None {
                lemma_sub_trans(rest.last, next, s);
            }
        }
    } else {
        assert(sub_entries(s, s)) by {
            assert forall|i: int| 0 <= i < s.len() implies s.contains(#[trigger] s[i]) by {}
        }
    }
}

proof fn lemma_valid_values_consistent(c: Constraints, agents: Seq<AgentProfile>, t: TaskView, d: Seq<(Seq<char>, u64)>, s: Seq<(Seq<char>, AssignmentView)>)
    ensures
        forall|m: int|
            0 <= m < valid_values(c, agents, t, d, s).len() ==> consistent(
                c,
                t,
                (#[trigger] valid_values(c, agents, t, d, s)[m]).0,
                valid_values(c, agents, t, d, s)[m].1,
                s,
                agents,
            ),
    decreases d.len(),
{
    if d.len() > 0 {
        lemma_valid_values_consistent(c, agents, t, d.drop_last(), s);
        let rest = valid_values(c, agents, t, d.drop_last(), s);
        let vv = valid_values(c, agents, t, d, s);
        assert forall|m: int| 0 <= m < vv.len() implies consistent(c, t, (#[trigger] vv[m]).0, vv[m].1, s, agents) by {
            if m < rest.len() {
                assert(vv[m] == rest[m]);
            }
        }
    }
}

/// Every schedule the solver finds has no conflicts: no agent is given two
/// tasks at overlapping times, so `find_conflicts` reports none.
pub proof fn law_solved_schedule_has_no_conflicts(solver: CSPSolver, agents: Seq<AgentProfile>, tasks: Seq<TaskSpec>)
    ensures
        solver.solve_outcome(agents, tasks).found matches Some(f) ==> no_overlaps(f) && all_conflicts(f) == Seq::<
            crate::schedule::ConflictView,
        >::empty(),
{
    let s = Seq::<(Seq<char>, AssignmentView)>::empty();
    lemma_search_apart(solver.solve_space(agents, tasks), 0, s);
    let o = solver.solve_outcome(agents, tasks);
    if o.found is Some {
        law_no_overlaps_no_conflicts(o.found.unwrap());
    }
}

} // verus!

verus! {

/// Whether the agents have distinct identifiers.
pub open spec fn distinct_agent_ids(agents: Seq<AgentProfile>) -> bool {
    forall|i: int, j: int| 0 <= i < j < agents.len() ==> (#[trigger] agents[i]).id@ != (#[trigger] agents[j]).id@
}

proof fn lemma_last_agent_index(agents: Seq<AgentProfile>, id: Seq<char>, g: int)
    requires
        distinct_agent_ids(agents),
        0 <= g < agents.len(),
        agents[g].id@ == id,
    ensures
        last_agent_index(agents, id) == g,
    decreases agents.len(),
{
    let n = agents.len() - 1;
    if g < n {
        assert(agents[g].id@ != agents[n].id@);
        let rest = agents.drop_last();
        assert forall|i: int, j: int| 0 <= i < j < rest.len() implies (#[trigger] rest[i]).id@ != (#[trigger] rest[j]).id@ by {
            assert(rest[i] == agents[i] && rest[j] == agents[j]);
        }
        lemma_last_agent_index(rest, id, g);
    }
}

proof fn lemma_entries_clean(c: Constraints, tasks: Seq<TaskSpec>, agents: Seq<AgentProfile>, f: Seq<(Seq<char>, AssignmentView)>, n: int)
    requires
        solution_valid(c, tasks, agents, f),
        distinct_agent_ids(agents),
        0 <= n <= f.len(),
    ensures
        entries_violations(c, f, agents, tasks, n) == Seq::<ViolationView>::empty(),
    decreases n,
{
    if n > 0 {
        lemma_entries_clean(c, tasks, agents, f, n - 1);
        let i = n - 1;
        let key = f[i].0;
        let a = f[i].1;
        lemma_last_task_index_bounds(tasks, key);
        let ti = last_task_index(tasks, key);
        if ti >= 0 {
            lemma_index_of_unique(f, i);
            assert(lookup(f, tasks[ti].id@) == Some(a));
            assert(placed_ok(c, tasks[ti]@, a, f, agents));
            let g = choose|g: int| 0 <= g < agents.len() && (#[trigger] agents[g]).id@ == a.agent && agents[g].can_do(tasks[ti]@.required);
            lemma_last_agent_index(agents, a.agent, g);
        }
        assert(entry_violations(c, key, a, agents, tasks) =~= Seq::<ViolationView>::empty());
        assert(entries_violations(c, f, agents, tasks, n) =~= Seq::<ViolationView>::empty());
    }
}

proof fn lemma_deps_clean(key: Seq<char>, ours: AssignmentView, deps: Seq<Seq<char>>, f: Seq<(Seq<char>, AssignmentView)>, m: int)
    requires
        forall|j: int| 0 <= j < deps.len() ==> (#[trigger] lookup(f, deps[j]) matches Some(d) && end_of(d) <= ours.start),
        0 <= m <= deps.len(),
    ensures
        order_violations_of(key, ours, deps, f, m) == Seq::<ViolationView>::empty(),
    decreases m,
{
    if m > 0 {
        lemma_deps_clean(key, ours, deps, f, m - 1);
        assert(lookup(f, deps[m - 1]) matches Some(d) && end_of(d) <= ours.start);
        assert(order_violation(key, ours, deps[m - 1], f) =~= Seq::<ViolationView>::empty());
        assert(order_violations_of(key, ours, deps, f, m) =~= Seq::<ViolationView>::empty());
    }
}

proof fn lemma_ordering_clean(c: Constraints, tasks: Seq<TaskSpec>, agents: Seq<AgentProfile>, f: Seq<(Seq<char>, AssignmentView)>, n: int)
    requires
        solution_valid(c, tasks, agents, f),
        c.dependency_ordering,
        0 <= n <= tasks.len(),
    ensures
        ordering_violations(f, tasks, n) == Seq::<ViolationView>::empty(),
    decreases n,
{
    if n > 0 {
        lemma_ordering_clean(c, tasks, agents, f, n - 1);
        let task = tasks[n - 1];
        assert(lookup(f, tasks[n - 1].id@) matches Some(a) && placed_ok(c, tasks[n - 1]@, a, f, agents));
        let ours = lookup(f, task.id@).unwrap();
        lemma_deps_clean(task.id@, ours, task.deps(), f, task.deps().len() as int);
        assert(ordering_violations(f, tasks, n) =~= Seq::<ViolationView>::empty());
    }
}

proof fn lemma_overlap_at_most_one(f: Seq<(Seq<char>, AssignmentView)>, i: int, n: int)
    requires
        no_overlaps(f),
        0 <= i < f.len(),
        0 <= n <= f.len(),
    ensures
        overlapping_count(f.take(n), f[i].1.agent, f[i].1.start as int, end_of(f[i].1)) <= (if i < n { 1int } else { 0int }),
    decreases n,
{
    if n > 0 {
        let e = f[i].1;
        assert(f.take(n).drop_last() =~= f.take(n - 1));
        lemma_overlap_at_most_one(f, i, n - 1);
        let a = f[n - 1].1;
        if n - 1 != i && a.agent == e.agent {
            if n - 1 < i {
                assert(!overlaps(f[n - 1].1, f[i].1));
            } else {
                assert(!overlaps(f[i].1, f[n - 1].1));
            }
        }
    }
}

proof fn lemma_peak_at_most_one(f: Seq<(Seq<char>, AssignmentView)>, agent: Seq<char>, n: int)
    requires
        no_overlaps(f),
        0 <= n <= f.len(),
    ensures
        peak_overlap(f, agent, n) <= 1,
        peak_overlap(f, agent, n) > 0 ==> exists|q: int| 0 <= q < n && (#[trigger] f[q]).1.agent == agent,
    decreases n,
{
    if n > 0 {
        lemma_peak_at_most_one(f, agent, n - 1);
        lemma_overlap_at_most_one(f, n - 1, f.len() as int);
        assert(f.take(f.len() as int) =~= f);
        if peak_overlap(f, agent, n - 1) > 0 {
            let q = choose|q: int| 0 <= q < n - 1 && (#[trigger] f[q]).1.agent == agent;
            assert(f[q].1.agent == agent);
        }
    }
}

proof fn lemma_first_agent_index_unique(agents: Seq<AgentProfile>, id: Seq<char>, g: int)
    requires
        distinct_agent_ids(agents),
        0 <= g < agents.len(),
        agents[g].id@ == id,
    ensures
        first_agent_index(agents, id) == g,
    decreases agents.len(),
{
    let n = agents.len() - 1;
    let rest = agents.drop_last();
    assert forall|i: int, j: int| 0 <= i < j < rest.len() implies (#[trigger] rest[i]).id@ != (#[trigger] rest[j]).id@ by {
        assert(rest[i] == agents[i] && rest[j] == agents[j]);
    }
    if g < n {
        lemma_first_agent_index_unique(rest, id, g);
    } else {
        crate::solver::lemma_first_agent_index_bounds(rest, id);
        let r = first_agent_index(rest, id);
        if r >= 0 {
            assert(rest[r] == agents[r]);
            assert(agents[r].id@ != agents[n].id@);
        }
    }
}

proof fn lemma_capacity_clean(c: Constraints, tasks: Seq<TaskSpec>, agents: Seq<AgentProfile>, f: Seq<(Seq<char>, AssignmentView)>, n: int)
    requires
        solution_valid(c, tasks, agents, f),
        distinct_agent_ids(agents),
        c.capacity_limits,
        0 <= n <= agents.len(),
    ensures
        capacity_violations(f, agents, n) == Seq::<ViolationView>::empty(),
    decreases n,
{
    if n > 0 {
        lemma_capacity_clean(c, tasks, agents, f, n - 1);
        let g = n - 1;
        let id = agents[g].id@;
        lemma_peak_at_most_one(f, id, f.len() as int);
        if peak_load(f, id) > 0 {
            let q = choose|q: int| 0 <= q < f.len() && (#[trigger] f[q]).1.agent == id;
            assert(f[q].1.agent == id);
            let j = choose|j: int| 0 <= j < tasks.len() && (#[trigger] tasks[j]).id@ == f[q].0;
            lemma_index_of_unique(f, q);
            assert(lookup(f, tasks[j].id@) == Some(f[q].1));
            assert(placed_ok(c, tasks[j]@, f[q].1, f, agents));
            lemma_first_agent_index_unique(agents, id, g);
            assert(agents[g].capacity > 0);
        }
        assert(capacity_violation(f, agents[g]) =~= Seq::<ViolationView>::empty());
        assert(capacity_violations(f, agents, n) =~= Seq::<ViolationView>::empty());
    }
}

/// A valid complete schedule, over agents with distinct identifiers, passes
/// the checker: `check_schedule` reports no violation, whichever hard
/// constraints are enforced.
pub proof fn law_valid_solution_passes_checker(c: Constraints, tasks: Seq<TaskSpec>, agents: Seq<AgentProfile>, f: Seq<(Seq<char>, AssignmentView)>)
    requires
        solution_valid(c, tasks, agents, f),
        distinct_agent_ids(agents),
    ensures
        schedule_violations(c, f, agents, tasks) == Seq::<ViolationView>::empty(),
{
    lemma_entries_clean(c, tasks, agents, f, f.len() as int);
    if c.dependency_ordering {
        lemma_ordering_clean(c, tasks, agents, f, tasks.len() as int);
    }
    if c.capacity_limits {
        lemma_capacity_clean(c, tasks, agents, f, agents.len() as int);
    }
    assert(schedule_violations(c, f, agents, tasks) =~= Seq::<ViolationView>::empty());
}

/// Every schedule the solver finds, for tasks and agents with distinct
/// identifiers, passes `check_schedule` with no violation: it meets every
/// enforced hard constraint, capacity counted over concurrent tasks.
pub proof fn law_solved_schedule_passes_checker(solver: CSPSolver, agents: Seq<AgentProfile>, tasks: Seq<TaskSpec>)
    requires
        distinct_task_ids(tasks),
        distinct_agent_ids(agents),
        tasks.len() <= usize::MAX,
    ensures
        solver.solve_outcome(agents, tasks).found matches Some(f) ==> schedule_violations(solver.constraints, f, agents, tasks)
            == Seq::<ViolationView>::empty(),
{
    law_solved_schedule_is_valid(solver, agents, tasks);
    let o = solver.solve_outcome(agents, tasks);
    if o.found is Some {
        law_valid_solution_passes_checker(solver.constraints, tasks, agents, o.found.unwrap());
    }
}

/// The solver's order lists every task exactly once.
pub proof fn law_task_order_permutation(tasks: Seq<TaskSpec>, agents: Seq<AgentProfile>)
    requires
        tasks.len() <= usize::MAX,
    ensures
        search_order(task_views(tasks), agents).len() == tasks.len(),
        forall|i: int|
            0 <= i < tasks.len() ==> exists|j: int|
                0 <= j < tasks.len() && #[trigger] search_order(task_views(tasks), agents)[j] == (#[trigger] tasks[i])@,
        forall|j: int|
            0 <= j < tasks.len() ==> exists|i: int|
                0 <= i < tasks.len() && #[trigger] search_order(task_views(tasks), agents)[j] == (#[trigger] tasks[i])@,
{
    let tv = task_views(tasks);
    let perm = task_perm(tv, agents);
    let order = search_order(tv, agents);
    lemma_task_perm(tv, agents);
    assert forall|i: int| 0 <= i < tasks.len() implies exists|j: int|
        0 <= j < tasks.len() && #[trigger] order[j] == (#[trigger] tasks[i])@ by {
        assert(perm.contains(i as usize));
        let j = choose|j: int| 0 <= j < perm.len() && perm[j] == i as usize;
        assert(order[j] == tv[i]);
    }
    assert forall|j: int| 0 <= j < tasks.len() implies exists|i: int|
        0 <= i < tasks.len() && #[trigger] order[j] == (#[trigger] tasks[i])@ by {
        let i = perm[j] as int;
        assert(order[j] == tv[i]);
    }
}

proof fn lemma_ready_first_deps(tv: Seq<TaskView>, done: Seq<usize>, rem: Seq<usize>)
    requires
        rem.no_duplicates(),
    ensures
        forall|q: int, q2: int|
            0 <= q <= q2 < ready_first(tv, done, rem).len() && !ready(tv, done + ready_first(tv, done, rem).take(q), tv[ready_first(tv, done, rem)[q] as int])
                ==> !#[trigger] ready(tv, done + ready_first(tv, done, rem).take(q), tv[ready_first(tv, done, rem)[q2] as int]),
    decreases rem.len(),
{
    let r = ready_first(tv, done, rem);
    lemma_ready_first_perm(tv, done, rem);
    if rem.len() > 0 {
        lemma_pick_index(tv, done, rem);
        let p = pick_index(tv, done, rem);
        let x = rem[p];
        let rest = rem.remove(p);
        assert forall|a: int, b: int| 0 <= a < b < rest.len() implies rest[a] != rest[b] by {
            let a2 = if a < p { a } else { a + 1 };
            let b2 = if b < p { b } else { b + 1 };
            assert(rest[a] == rem[a2] && rest[b] == rem[b2]);
        }
        let d2 = done.push(x);
        let r2 = ready_first(tv, d2, rest);
        lemma_ready_first_deps(tv, d2, rest);
        assert(r == seq![x] + r2);
        assert forall|q: int, q2: int|
            0 <= q <= q2 < r.len() && !ready(tv, done + r.take(q), tv[r[q] as int])
                implies !#[trigger] ready(tv, done + r.take(q), tv[r[q2] as int]) by {
            if q == 0 {
                assert(done + r.take(0) =~= done);
                assert(r[0] == x);
                assert(!exists|i: int| is_first_ready(tv, done, rem, i));
                let y = r[q2];
                assert(r.contains(y));
                assert(rem.contains(y));
                let a = choose|a: int| 0 <= a < rem.len() && rem[a] == y;
                assert(!ready(tv, done, tv[rem[a] as int]));
            } else {
                assert(done + r.take(q) =~= d2 + r2.take(q - 1));
                assert(r[q] == r2[q - 1]);
                assert(r[q2] == r2[q2 - 1]);
            }
        }
    }
}

/// The solver places a task before the tasks its dependencies name only when
/// every task still to be placed is in the same position: at each step it
/// takes a task whose named dependencies are all placed, if there is one.
pub proof fn law_task_order_dependencies_first(tasks: Seq<TaskSpec>, agents: Seq<AgentProfile>)
    requires
        tasks.len() <= usize::MAX,
    ensures
        forall|q: int, q2: int|
            0 <= q <= q2 < tasks.len() && !ready(
                task_views(tasks),
                task_perm(task_views(tasks), agents).take(q),
                search_order(task_views(tasks), agents)[q],
            ) ==> !#[trigger] ready(
                task_views(tasks),
                task_perm(task_views(tasks), agents).take(q),
                search_order(task_views(tasks), agents)[q2],
            ),
{
    let tv = task_views(tasks);
    let keys = mrv_keys(tv, agents);
    crate::order::lemma_stable_order_permutation(keys);
    crate::order::lemma_stable_order_in_range(keys);
    lemma_task_perm(tv, agents);
    let sorted = stable_order_of(keys);
    lemma_ready_first_deps(tv, seq![], sorted);
    let perm = task_perm(tv, agents);
    let order = search_order(tv, agents);
    assert forall|q: int, q2: int|
        0 <= q <= q2 < tasks.len() && !ready(tv, perm.take(q), order[q]) implies !#[trigger] ready(tv, perm.take(q), order[q2]) by {
        assert(Seq::<usize>::empty() + perm.take(q) =~= perm.take(q));
        assert(order[q] == tv[perm[q] as int]);
        assert(order[q2] == tv[perm[q2] as int]);
    }
}

/// Whether no dependency of a task of `tv` names a task of `tv`.
pub open spec fn no_task_dependencies(tv: Seq<TaskView>) -> bool {
    forall|i: int, j: int| 0 <= i < tv.len() && 0 <= j < tv[i].deps.len() ==> !names_task(tv, #[trigger] tv[i].deps[j])
}

proof fn lemma_ready_first_keeps(tv: Seq<TaskView>, done: Seq<usize>, rem: Seq<usize>)
    requires
        no_task_dependencies(tv),
        forall|k: int| 0 <= k < rem.len() ==> #[trigger] rem[k] < tv.len(),
    ensures
        ready_first(tv, done, rem) == rem,
    decreases rem.len(),
{
    if rem.len() > 0 {
        assert(ready(tv, done, tv[rem[0] as int])) by {
            let t = tv[rem[0] as int];
            assert forall|j: int| 0 <= j < t.deps.len() && names_task(tv, #[trigger] t.deps[j]) implies placed_before(tv, done, t.deps[j]) by {
                assert(!names_task(tv, tv[rem[0] as int].deps[j]));
            }
        }
        assert(is_first_ready(tv, done, rem, 0));
        crate::solver::lemma_pick_index(tv, done, rem);
        let p = pick_index(tv, done, rem);
        if p != 0 {
            assert(!ready(tv, done, tv[rem[0] as int]));
        }
        let rest = rem.remove(0);
        assert forall|k: int| 0 <= k < rest.len() implies #[trigger] rest[k] < tv.len() by {
            assert(rest[k] == rem[k + 1]);
        }
        lemma_ready_first_keeps(tv, done.push(rem[0]), rest);
        assert(seq![rem[0]] + rest =~= rem);
    }
}

/// MRV ordering puts tasks in ascending order of the number of agents able to
/// do them, lists every task exactly once, and keeps tasks with equal numbers
/// in input order: the task at each place comes from the input position the
/// stable order gives, and those positions increase among equal numbers.
pub proof fn law_mrv_order_sorted_permutation(tasks: Seq<TaskSpec>, agents: Seq<AgentProfile>)
    requires
        tasks.len() <= usize::MAX,
        agents.len() <= usize::MAX,
    ensures
        mrv_order(task_views(tasks), agents).len() == tasks.len(),
        forall|a: int|
            0 <= a < tasks.len() ==> #[trigger] mrv_order(task_views(tasks), agents)[a] == tasks[stable_order_of(
                mrv_keys(task_views(tasks), agents),
            )[a] as int]@,
        forall|a: int, b: int|
            0 <= a < b < tasks.len() && capable_count(mrv_order(task_views(tasks), agents)[a], agents) == capable_count(
                mrv_order(task_views(tasks), agents)[b],
                agents,
            ) ==> #[trigger] stable_order_of(mrv_keys(task_views(tasks), agents))[a] < #[trigger] stable_order_of(
                mrv_keys(task_views(tasks), agents),
            )[b],
        forall|a: int, b: int|
            0 <= a <= b < tasks.len() ==> capable_count(mrv_order(task_views(tasks), agents)[a], agents)
                <= capable_count(mrv_order(task_views(tasks), agents)[b], agents),
        forall|i: int|
            0 <= i < tasks.len() ==> exists|j: int|
                0 <= j < tasks.len() && #[trigger] mrv_order(task_views(tasks), agents)[j] == (#[trigger] tasks[i])@,
        forall|j: int|
            0 <= j < tasks.len() ==> exists|i: int|
                0 <= i < tasks.len() && #[trigger] mrv_order(task_views(tasks), agents)[j] == (#[trigger] tasks[i])@,
{
    let tv = task_views(tasks);
    let keys = mrv_keys(tv, agents);
    let perm = stable_order_of(keys);
    let order = mrv_order(tv, agents);
    lemma_stable_order_in_range(keys);
    lemma_stable_order_permutation(keys);
    crate::order::lemma_stable_order_sorted(keys);
    crate::order::lemma_stable_order_stable(keys);
    assert forall|a: int| 0 <= a < tasks.len() implies #[trigger] order[a] == tasks[perm[a] as int]@ by {
        assert(order[a] == tv[perm[a] as int]);
    }
    assert forall|a: int, b: int|
        0 <= a < b < tasks.len() && capable_count(order[a], agents) == capable_count(order[b], agents) implies #[trigger] perm[a]
            < #[trigger] perm[b] by {
        assert(order[a] == tv[perm[a] as int]);
        assert(order[b] == tv[perm[b] as int]);
        lemma_capable_count_bound(tv[perm[a] as int], agents);
        lemma_capable_count_bound(tv[perm[b] as int], agents);
        assert(keys[perm[a] as int] == keys[perm[b] as int]);
    }
    assert forall|a: int, b: int| 0 <= a <= b < tasks.len() implies capable_count(order[a], agents) <= capable_count(order[b], agents) by {
        assert(keys[perm[a] as int] <= keys[perm[b] as int]);
        assert(order[a] == tv[perm[a] as int]);
        assert(order[b] == tv[perm[b] as int]);
        lemma_capable_count_bound(tv[perm[a] as int], agents);
        lemma_capable_count_bound(tv[perm[b] as int], agents);
        assert(keys[perm[a] as int] == capable_count(tv[perm[a] as int], agents) as u64);
        assert(keys[perm[b] as int] == capable_count(tv[perm[b] as int], agents) as u64);
    }
    assert forall|i: int| 0 <= i < tasks.len() implies exists|j: int|
        0 <= j < tasks.len() && #[trigger] order[j] == (#[trigger] tasks[i])@ by {
        assert(perm.contains(i as usize));
        let j = choose|j: int| 0 <= j < perm.len() && perm[j] == i as usize;
        assert(order[j] == tv[i]);
    }
    assert forall|j: int| 0 <= j < tasks.len() implies exists|i: int|
        0 <= i < tasks.len() && #[trigger] order[j] == (#[trigger] tasks[i])@ by {
        let i = perm[j] as int;
        assert(order[j] == tv[i]);
    }
}

/// When no task depends on another task of the list, the search places the
/// tasks in the MRV order.
pub proof fn law_search_order_is_mrv_without_dependencies(tasks: Seq<TaskSpec>, agents: Seq<AgentProfile>)
    requires
        tasks.len() <= usize::MAX,
        no_task_dependencies(task_views(tasks)),
    ensures
        search_order(task_views(tasks), agents) == mrv_order(task_views(tasks), agents),
{
    let tv = task_views(tasks);
    let keys = mrv_keys(tv, agents);
    let perm = stable_order_of(keys);
    lemma_stable_order_in_range(keys);
    lemma_ready_first_keeps(tv, seq![], perm);
    assert(task_perm(tv, agents) == perm);
}

proof fn lemma_capable_count_bound(t: TaskView, agents: Seq<AgentProfile>)
    ensures
        capable_count(t, agents) <= agents.len(),
    decreases agents.len(),
{
    if agents.len() > 0 {
        lemma_capable_count_bound(t, agents.drop_last());
    }
}

} // verus!

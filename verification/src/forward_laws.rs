//! What forward checking prunes: a partial schedule is given up only when
//! some later task has no agent able to do it with room at any of its start
//! times.

use crate::agent::AgentProfile;
use crate::constraint::Constraints;
use crate::idmap::{distinct_keys, has_key, lookup, put};
use crate::schedule::{end_of, fits, AssignmentView};
use crate::solver::{
    at_least, candidate_times, consistent, dep_completions, forward_ok, future_task_ok, has_room_for, overlapping_count, room_at,
    start_times, agent_has_room,
};
use crate::task::{latest_completion, TaskView};
use vstd::prelude::*;

verus! {

/// Whether task `t` could start at `st` with `agent` as far as the partial
/// schedule `s` tells: the agent has every required skill, `st` is one of the
/// task's start times, no placed dependency ends after `st` (when ordering is
/// enforced), and fewer of the agent's assignments overlap the task than its
/// capacity.
pub open spec fn could_start_at(c: Constraints, t: TaskView, s: Seq<(Seq<char>, AssignmentView)>, agent: AgentProfile, st: u64) -> bool {
    &&& agent.can_do(t.required)
    &&& start_times(t).contains(st)
    &&& c.dependency_ordering ==> forall|j: int|
        0 <= j < t.deps.len() ==> (#[trigger] lookup(s, t.deps[j]) matches Some(d) ==> st >= d.start + d.duration)
    &&& overlapping_count(s, agent.id@, st as int, st + t.duration) < agent.capacity
}

/// Whether some agent could start task `t` at some time (see
/// `could_start_at`).
pub open spec fn could_start_somewhere(c: Constraints, t: TaskView, s: Seq<(Seq<char>, AssignmentView)>, agents: Seq<AgentProfile>) -> bool {
    exists|g: int, st: u64| 0 <= g < agents.len() && #[trigger] could_start_at(c, t, s, agents[g], st)
}

proof fn lemma_overlapping_count_bound(s: Seq<(Seq<char>, AssignmentView)>, agent: Seq<char>, start: int, end: int)
    ensures
        overlapping_count(s, agent, start, end) <= s.len(),
    decreases s.len(),
{
    if s.len() > 0 {
        lemma_overlapping_count_bound(s.drop_last(), agent, start, end);
    }
}

proof fn lemma_no_overlap_count_zero(s: Seq<(Seq<char>, AssignmentView)>, agent: Seq<char>, start: int, end: int)
    requires
        forall|i: int| 0 <= i < s.len() && (#[trigger] s[i]).1.agent == agent ==> !(start < end_of(s[i].1) && s[i].1.start < end),
    ensures
        overlapping_count(s, agent, start, end) == 0,
    decreases s.len(),
{
    if s.len() > 0 {
        let r = s.drop_last();
        assert forall|i: int| 0 <= i < r.len() && (#[trigger] r[i]).1.agent == agent implies !(start < end_of(r[i].1) && r[i].1.start < end) by {
            assert(r[i] == s[i]);
        }
        lemma_no_overlap_count_zero(r, agent, start, end);
        assert(s.last() == s[s.len() - 1]);
    }
}

proof fn lemma_at_least_member(times: Seq<u64>, m: nat, v: u64)
    ensures
        at_least(times, m).contains(v) <==> (times.contains(v) && v >= m),
    decreases times.len(),
{
    if times.len() > 0 {
        let d = times.drop_last();
        lemma_at_least_member(d, m, v);
        let rest = at_least(d, m);
        let r = at_least(times, m);
        if r.contains(v) {
            let p = choose|p: int| 0 <= p < r.len() && r[p] == v;
            if p < rest.len() {
                assert(r[p] == rest[p]);
                assert(rest.contains(v));
                let w = choose|w: int| 0 <= w < d.len() && d[w] == v;
                assert(times[w] == v);
            } else {
                assert(times[times.len() - 1] == v);
            }
        }
        if times.contains(v) && v >= m {
            let w = choose|w: int| 0 <= w < times.len() && times[w] == v;
            if w < times.len() - 1 {
                assert(d[w] == v);
                assert(d.contains(v));
                let p = choose|p: int| 0 <= p < rest.len() && rest[p] == v;
                assert(r[p] == v);
            } else {
                assert(r[r.len() - 1] == v);
            }
        }
    }
}

proof fn lemma_dep_completions_lookup(s: Seq<(Seq<char>, AssignmentView)>, deps: Seq<Seq<char>>, n: int)
    requires
        distinct_keys(s),
        0 <= n <= s.len(),
    ensures
        distinct_keys(dep_completions(s, deps, n)),
        forall|i: int|
            0 <= i < n && deps.contains(s[i].0) ==> lookup(dep_completions(s, deps, n), #[trigger] s[i].0) == Some(
                end_of(s[i].1) as u64,
            ),
        forall|k: Seq<char>| #[trigger] has_key(dep_completions(s, deps, n), k) ==> exists|i: int| 0 <= i < n && s[i].0 == k,
    decreases n,
{
    if n > 0 {
        lemma_dep_completions_lookup(s, deps, n - 1);
        let rest = dep_completions(s, deps, n - 1);
        let key = s[n - 1].0;
        let e = end_of(s[n - 1].1) as u64;
        if deps.contains(key) {
            if has_key(rest, key) {
                let i = choose|i: int| 0 <= i < n - 1 && s[i].0 == key;
                assert(false);
            }
            assert(put(rest, key, e) == rest.push((key, e)));
            crate::idmap::lemma_put_distinct(rest, key, e);
            assert forall|i: int| 0 <= i < n && deps.contains(s[i].0) implies lookup(dep_completions(s, deps, n), #[trigger] s[i].0)
                == Some(end_of(s[i].1) as u64) by {
                if i < n - 1 {
                    assert(s[i].0 != key);
                }
            }
            assert forall|k: Seq<char>| #[trigger] has_key(dep_completions(s, deps, n), k) implies exists|i: int|
                0 <= i < n && s[i].0 == k by {
                if k != key {
                    assert(has_key(rest, k));
                    let i = choose|i: int| 0 <= i < n - 1 && s[i].0 == k;
                    assert(0 <= i < n && s[i].0 == k);
                } else {
                    assert(s[n - 1].0 == k);
                }
            }
        } else {
            assert forall|k: Seq<char>| #[trigger] has_key(dep_completions(s, deps, n), k) implies exists|i: int|
                0 <= i < n && s[i].0 == k by {
                let i = choose|i: int| 0 <= i < n - 1 && s[i].0 == k;
                assert(0 <= i < n && s[i].0 == k);
            }
        }
    }
}

proof fn lemma_latest_completion_bound(deps: Seq<Seq<char>>, times: Seq<(Seq<char>, u64)>)
    ensures
        latest_completion(deps, times) <= u64::MAX,
    decreases deps.len(),
{
    if deps.len() > 0 {
        lemma_latest_completion_bound(deps.drop_last(), times);
    }
}

/// A start is no earlier than the latest recorded completion of the task's
/// dependencies exactly when no placed dependency ends after it.
proof fn lemma_after_latest_completion(s: Seq<(Seq<char>, AssignmentView)>, deps: Seq<Seq<char>>, st: u64)
    requires
        distinct_keys(s),
        forall|j: int| 0 <= j < deps.len() ==> (#[trigger] lookup(s, deps[j]) matches Some(d) ==> fits(d)),
    ensures
        st >= latest_completion(deps, dep_completions(s, deps, s.len() as int)) <==> forall|j: int|
            0 <= j < deps.len() ==> (#[trigger] lookup(s, deps[j]) matches Some(d) ==> st >= d.start + d.duration),
{
    let dc = dep_completions(s, deps, s.len() as int);
    let m = latest_completion(deps, dc);
    lemma_dep_completions_lookup(s, deps, s.len() as int);
    crate::task::law_earliest_start_is_latest_completion(deps, dc);
    assert forall|j: int| 0 <= j < deps.len() implies (lookup(dc, deps[j]) == match #[trigger] lookup(s, deps[j]) {
        Some(d) => Some((d.start + d.duration) as u64),
        None => None,
    }) by {
        let k = deps[j];
        assert(deps.contains(k));
        crate::idmap::lemma_lookup_in(s, k);
        if lookup(s, k) is Some {
            let i = choose|i: int| 0 <= i < s.len() && s[i] == (k, lookup(s, k).unwrap());
            assert(s[i].0 == k);
        } else {
            if has_key(dc, k) {
                let i = choose|i: int| 0 <= i < s.len() && s[i].0 == k;
                assert(has_key(s, k));
            }
        }
    }
    if st >= m {
        assert forall|j: int| 0 <= j < deps.len() implies (#[trigger] lookup(s, deps[j]) matches Some(d) ==> st >= d.start
            + d.duration) by {
            if lookup(s, deps[j]) is Some {
                assert(lookup(dc, deps[j]) matches Some(t) && t <= m);
            }
        }
    }
    if forall|j: int| 0 <= j < deps.len() ==> (#[trigger] lookup(s, deps[j]) matches Some(d) ==> st >= d.start + d.duration) {
        if m != 0 {
            let j = choose|j: int| 0 <= j < deps.len() && lookup(dc, #[trigger] deps[j]) == Some(m as u64);
            assert(lookup(s, deps[j]) is Some);
            let d = lookup(s, deps[j]).unwrap();
            assert(fits(d));
            assert(st >= d.start + d.duration);
            assert(lookup(dc, deps[j]) == Some((d.start + d.duration) as u64));
            assert(m as u64 == (d.start + d.duration) as u64);
            lemma_latest_completion_bound(deps, dc);
            assert(m == d.start + d.duration);
        }
    }
}

/// A start time is a candidate exactly when it is one of the task's start
/// times and, when ordering is enforced, no placed dependency ends after it.
proof fn lemma_candidate_member(c: Constraints, t: TaskView, s: Seq<(Seq<char>, AssignmentView)>, st: u64)
    requires
        distinct_keys(s),
        c.dependency_ordering ==> forall|j: int| 0 <= j < t.deps.len() ==> (#[trigger] lookup(s, t.deps[j]) matches Some(d) ==> fits(d)),
    ensures
        candidate_times(c, t, s).contains(st) <==> (start_times(t).contains(st) && (c.dependency_ordering ==> forall|j: int|
            0 <= j < t.deps.len() ==> (#[trigger] lookup(s, t.deps[j]) matches Some(d) ==> st >= d.start + d.duration))),
{
    if c.dependency_ordering {
        let m = latest_completion(t.deps, dep_completions(s, t.deps, s.len() as int));
        lemma_at_least_member(start_times(t), m, st);
        lemma_after_latest_completion(s, t.deps, st);
    }
}

proof fn lemma_future_task_ok_iff(c: Constraints, t: TaskView, s: Seq<(Seq<char>, AssignmentView)>, agents: Seq<AgentProfile>)
    requires
        distinct_keys(s),
        s.len() <= u32::MAX,
        c.dependency_ordering ==> forall|j: int| 0 <= j < t.deps.len() ==> (#[trigger] lookup(s, t.deps[j]) matches Some(d) ==> fits(d)),
    ensures
        future_task_ok(c, t, s, agents) <==> could_start_somewhere(c, t, s, agents),
{
    let ct = candidate_times(c, t, s);
    if future_task_ok(c, t, s, agents) {
        let g = choose|g: int| 0 <= g < agents.len() && (#[trigger] agents[g]).can_do(t.required) && agent_has_room(c, t, s, agents[g]);
        let q = choose|q: int| 0 <= q < ct.len() && #[trigger] room_at(s, agents[g], ct[q], t.duration);
        let st = ct[q];
        lemma_candidate_member(c, t, s, st);
        lemma_overlapping_count_bound(s, agents[g].id@, st as int, st + t.duration);
        assert(ct.contains(st));
        assert(could_start_at(c, t, s, agents[g], st));
    }
    if exists|g: int, st: u64| 0 <= g < agents.len() && #[trigger] could_start_at(c, t, s, agents[g], st) {
        let (g, st) = choose|g: int, st: u64| 0 <= g < agents.len() && #[trigger] could_start_at(c, t, s, agents[g], st);
        lemma_candidate_member(c, t, s, st);
        lemma_overlapping_count_bound(s, agents[g].id@, st as int, st + t.duration);
        let q = choose|q: int| 0 <= q < ct.len() && ct[q] == st;
        assert(room_at(s, agents[g], ct[q], t.duration));
        assert(agent_has_room(c, t, s, agents[g]));
        assert(has_room_for(c, t, s, agents));
    }
}

/// Forward checking gives up a partial schedule only when some later task has
/// no way left to start: it passes exactly when every task from position
/// `from` of the order has an agent able to do it and a start time, among all
/// of the task's start times, that no placed dependency ends after (when
/// ordering is enforced) and at which fewer of that agent's assignments
/// overlap the task than its capacity.
pub proof fn law_forward_check_sees_every_start(
    c: Constraints,
    order: Seq<TaskView>,
    from: int,
    s: Seq<(Seq<char>, AssignmentView)>,
    agents: Seq<AgentProfile>,
)
    requires
        distinct_keys(s),
        s.len() <= u32::MAX,
        c.dependency_ordering ==> forall|k: int, j: int|
            from <= k < order.len() && 0 <= j < order[k].deps.len() ==> (#[trigger] lookup(s, order[k].deps[j]) matches Some(d)
                ==> fits(d)),
    ensures
        forward_ok(c, order, from, s, agents) <==> forall|k: int|
            from <= k < order.len() ==> could_start_somewhere(c, #[trigger] order[k], s, agents),
{
    assert forall|k: int| from <= k < order.len() implies (future_task_ok(c, #[trigger] order[k], s, agents) <==> could_start_somewhere(
        c,
        order[k],
        s,
        agents,
    )) by {
        if c.dependency_ordering {
            assert forall|j: int| 0 <= j < order[k].deps.len() implies (#[trigger] lookup(s, order[k].deps[j]) matches Some(d) ==> fits(
                d,
            )) by {}
        }
        lemma_future_task_ok_iff(c, order[k], s, agents);
    }
}

/// Forward checking never gives up a partial schedule in which every later
/// task could still be placed: if each task from position `from` on has an
/// agent able to do it, with some capacity, and a start time at which
/// `is_consistent` accepts the placement, forward checking passes.
pub proof fn law_forward_check_passes_consistent_placements(
    c: Constraints,
    order: Seq<TaskView>,
    from: int,
    s: Seq<(Seq<char>, AssignmentView)>,
    agents: Seq<AgentProfile>,
)
    requires
        distinct_keys(s),
        s.len() <= u32::MAX,
        c.dependency_ordering ==> forall|k: int, j: int|
            from <= k < order.len() && 0 <= j < order[k].deps.len() ==> (#[trigger] lookup(s, order[k].deps[j]) matches Some(d)
                ==> fits(d)),
        forall|k: int|
            #![trigger order[k]]
            from <= k < order.len() ==> exists|g: int, st: u64|
                0 <= g < agents.len() && agents[g].can_do(order[k].required) && agents[g].capacity > 0 && start_times(
                    order[k],
                ).contains(st) && #[trigger] consistent(c, order[k], agents[g].id@, st, s, agents),
    ensures
        forward_ok(c, order, from, s, agents),
{
    law_forward_check_sees_every_start(c, order, from, s, agents);
    assert forall|k: int| from <= k < order.len() implies could_start_somewhere(c, #[trigger] order[k], s, agents) by {
        let (g, st) = choose|g: int, st: u64|
            0 <= g < agents.len() && agents[g].can_do(order[k].required) && agents[g].capacity > 0 && start_times(order[k]).contains(st)
                && #[trigger] consistent(c, order[k], agents[g].id@, st, s, agents);
        let t = order[k];
        let end = st + t.duration;
        lemma_no_overlap_count_zero(s, agents[g].id@, st as int, end);
        if c.dependency_ordering {
            assert forall|j: int| 0 <= j < t.deps.len() implies (#[trigger] lookup(s, t.deps[j]) matches Some(d) ==> st >= d.start
                + d.duration) by {}
        }
        assert(could_start_at(c, t, s, agents[g], st));
    }
}

} // verus!

//! Exhaustive search: every complete schedule the backtracking search
//! reaches, in the order it reaches them. Choosing the best of them by a
//! floating-point cost is left to the caller.

use crate::agent::AgentProfile;
use crate::clock::{elapsed, exceeds, longer_than, now};
use crate::idmap::{drop_key, lookup, IdMap};
use crate::schedule::{all_fit, AssignmentView, Schedule};
use crate::solver::{
    search, try_values, SearchOutcome, fits_domains, forward_ok, lemma_fits_domains, lemma_sat_add, place, sat_add, valid_values, duplicates_bounded,
    CSPSolver, SearchSpace,
};
use crate::task::{task_views, TaskSpec};
use std::time::{Duration, Instant};
use vstd::prelude::*;

verus! {

/// What an exhaustive search gives: the complete schedules it reached, in
/// order; the number of assignments it tried; the partial schedule it leaves.
pub struct LeafOutcome {
    pub leaves: Seq<Seq<(Seq<char>, AssignmentView)>>,
    pub nodes: nat,
    pub last: Seq<(Seq<char>, AssignmentView)>,
}

/// Every complete schedule reachable from position `idx` of the order with
/// partial schedule `s`, trying the consistent values of each task's domain in
/// order and descending only where forward checking passes.
pub open spec fn all_leaves(sp: SearchSpace, idx: int, s: Seq<(Seq<char>, AssignmentView)>) -> LeafOutcome
    decreases sp.order.len() - idx, 1int, 0int,
{
    if idx < 0 || idx >= sp.order.len() {
        LeafOutcome { leaves: seq![s], nodes: 0, last: s }
    } else {
        let t = sp.order[idx];
        match lookup(sp.domains, t.id) {
            None => LeafOutcome { leaves: seq![], nodes: 0, last: s },
            Some(d) => leaves_from(sp, idx, valid_values(sp.constraints, sp.agents, t, d, s), 0, s),
        }
    }
}

/// The complete schedules reachable at position `idx` from value `k` of
/// `vals` on, with partial schedule `s`.
pub open spec fn leaves_from(sp: SearchSpace, idx: int, vals: Seq<(Seq<char>, u64)>, k: int, s: Seq<(Seq<char>, AssignmentView)>) -> LeafOutcome
    decreases sp.order.len() - idx, 0int, vals.len() - k,
{
    if idx < 0 || idx >= sp.order.len() || k < 0 || k >= vals.len() {
        LeafOutcome { leaves: seq![], nodes: 0, last: s }
    } else {
        let t = sp.order[idx];
        let s1 = place(s, t, vals[k]);
        let child = if forward_ok(sp.constraints, sp.order, idx + 1, s1, sp.agents) {
            all_leaves(sp, idx + 1, s1)
        } else {
            LeafOutcome { leaves: seq![], nodes: 0, last: s1 }
        };
        let rest = leaves_from(sp, idx, vals, k + 1, drop_key(child.last, t.id));
        LeafOutcome { leaves: child.leaves + rest.leaves, nodes: 1 + child.nodes + rest.nodes, last: rest.last }
    }
}

/// Whether `a` is a prefix of `b`.
pub open spec fn prefix_of<T>(a: Seq<T>, b: Seq<T>) -> bool {
    a.len() <= b.len() && a == b.take(a.len() as int)
}

proof fn lemma_prefix_extend<T>(a: Seq<T>, b: Seq<T>, c: Seq<T>)
    requires
        prefix_of(a, b),
    ensures
        prefix_of(a, b + c),
{
    assert((b + c).take(a.len() as int) =~= b.take(a.len() as int));
}

proof fn lemma_prefix_trans<T>(a: Seq<T>, b: Seq<T>, c: Seq<T>)
    requires
        prefix_of(a, b),
        prefix_of(b, c),
    ensures
        prefix_of(a, c),
{
    assert(c.take(a.len() as int) =~= c.take(b.len() as int).take(a.len() as int));
}

/// The entries of each schedule of `v`.
pub open spec fn entries_of(v: Seq<Schedule>) -> Seq<Seq<(Seq<char>, AssignmentView)>> {
    v.map_values(|x: Schedule| x.entries())
}

/// The outcome of trying value `k` of the task at `idx` with schedule `s`.
pub open spec fn child_leaves(sp: SearchSpace, idx: int, vals: Seq<(Seq<char>, u64)>, k: int, s: Seq<(Seq<char>, AssignmentView)>) -> LeafOutcome {
    let s1 = place(s, sp.order[idx], vals[k]);
    if forward_ok(sp.constraints, sp.order, idx + 1, s1, sp.agents) {
        all_leaves(sp, idx + 1, s1)
    } else {
        LeafOutcome { leaves: seq![], nodes: 0, last: s1 }
    }
}

/// The loop over the values of one task has tried the first `k` of them,
/// collecting `l`; what remains gives the same outcome as the whole loop.
pub open spec fn leaf_progress(sp: SearchSpace, idx: int, vals: Seq<(Seq<char>, u64)>, s0: Seq<(Seq<char>, AssignmentView)>, n0: u64, l0: Seq<Seq<(Seq<char>, AssignmentView)>>, k: int, s: Seq<(Seq<char>, AssignmentView)>, n: u64, l: Seq<Seq<(Seq<char>, AssignmentView)>>) -> bool {
    let total = leaves_from(sp, idx, vals, 0, s0);
    let rest = leaves_from(sp, idx, vals, k, s);
    &&& l0 + total.leaves == l + rest.leaves
    &&& total.last == rest.last
    &&& sat_add(n0, total.nodes) == sat_add(n, rest.nodes)
}

proof fn lemma_leaf_step(sp: SearchSpace, idx: int, vals: Seq<(Seq<char>, u64)>, s0: Seq<(Seq<char>, AssignmentView)>, n0: u64, l0: Seq<Seq<(Seq<char>, AssignmentView)>>, k: int, s: Seq<(Seq<char>, AssignmentView)>, n: u64, l: Seq<Seq<(Seq<char>, AssignmentView)>>)
    requires
        0 <= idx < sp.order.len(),
        0 <= k < vals.len(),
        leaf_progress(sp, idx, vals, s0, n0, l0, k, s, n, l),
    ensures
        leaf_progress(
            sp,
            idx,
            vals,
            s0,
            n0,
            l0,
            k + 1,
            drop_key(child_leaves(sp, idx, vals, k, s).last, sp.order[idx].id),
            sat_add(sat_add(n, 1), child_leaves(sp, idx, vals, k, s).nodes),
            l + child_leaves(sp, idx, vals, k, s).leaves,
        ),
{
    let child = child_leaves(sp, idx, vals, k, s);
    let rest = leaves_from(sp, idx, vals, k + 1, drop_key(child.last, sp.order[idx].id));
    assert(leaves_from(sp, idx, vals, k, s) == LeafOutcome { leaves: child.leaves + rest.leaves, nodes: 1 + child.nodes + rest.nodes, last: rest.last });
    assert(l + (child.leaves + rest.leaves) =~= (l + child.leaves) + rest.leaves);
    lemma_sat_add(n, 1, child.nodes);
    lemma_sat_add(n, 1 + child.nodes, rest.nodes);
}

proof fn lemma_leaf_done(sp: SearchSpace, idx: int, vals: Seq<(Seq<char>, u64)>, s0: Seq<(Seq<char>, AssignmentView)>, n0: u64, l0: Seq<Seq<(Seq<char>, AssignmentView)>>, k: int, s: Seq<(Seq<char>, AssignmentView)>, n: u64, l: Seq<Seq<(Seq<char>, AssignmentView)>>)
    requires
        k >= vals.len(),
        leaf_progress(sp, idx, vals, s0, n0, l0, k, s, n, l),
    ensures
        l0 + leaves_from(sp, idx, vals, 0, s0).leaves == l,
        leaves_from(sp, idx, vals, 0, s0).last == s,
        sat_add(n0, leaves_from(sp, idx, vals, 0, s0).nodes) == n,
{
    lemma_sat_add(n, 0, 0);
    assert(l + Seq::<Seq<(Seq<char>, AssignmentView)>>::empty() =~= l);
}

impl CSPSolver {
    #[verifier::rlimit(40)]
    fn collect_leaves(
        &self,
        tasks: &[TaskSpec],
        idx: usize,
        domains: &IdMap<Vec<(String, u64)>>,
        schedule: &mut Schedule,
        agents: &[AgentProfile],
        all_tasks: &[TaskSpec],
        nodes: &mut u64,
        start: &Instant,
        aborted: &mut bool,
        leaves: &mut Vec<Schedule>,
    )
        requires
            idx <= tasks@.len(),
            fits_domains(task_views(tasks@), domains@),
            all_fit(old(schedule).entries()),
        ensures
            all_fit(final(schedule).entries()),
            *old(aborted) ==> *final(aborted),
            *final(aborted) ==> *old(aborted) || exists|d: Duration| exceeds(d, self.time_budget),
            *old(aborted) ==> final(leaves)@ == old(leaves)@,
            *final(aborted) ==> prefix_of(entries_of(old(leaves)@), entries_of(final(leaves)@)) && prefix_of(
                entries_of(final(leaves)@),
                entries_of(old(leaves)@) + all_leaves(self.space(tasks@, domains@, agents@), idx as int, old(schedule).entries()).leaves,
            ),
            !*final(aborted) ==> ({
                let o = all_leaves(self.space(tasks@, domains@, agents@), idx as int, old(schedule).entries());
                &&& entries_of(final(leaves)@) == entries_of(old(leaves)@) + o.leaves
                &&& final(schedule).entries() == o.last
                &&& *final(nodes) == sat_add(*old(nodes), o.nodes)
            }),
        decreases tasks@.len() - idx,
    {
        let ghost sp = self.space(tasks@, domains@, agents@);
        let ghost s0 = schedule.entries();
        let ghost n0 = *nodes;
        let ghost l0 = entries_of(leaves@);
        proof {
            lemma_sat_add(n0, 0, 0);
        }
        if *aborted {
            proof {
                assert(l0.take(l0.len() as int) =~= l0);
                assert((l0 + all_leaves(sp, idx as int, s0).leaves).take(l0.len() as int) =~= l0);
            }
            return;
        }
        let spent = elapsed(start);
        if longer_than(&spent, &self.time_budget) {
            *aborted = true;
            proof {
                assert(entries_of(leaves@).take(l0.len() as int) =~= l0);
                assert((l0 + all_leaves(sp, idx as int, s0).leaves).take(l0.len() as int) =~= l0);
            }
            return;
        }
        if idx == tasks.len() {
            leaves.push(schedule.copy());
            assert(entries_of(leaves@) =~= l0 + seq![s0]);
            return;
        }
        let next_idx = idx + 1;
        let task = &tasks[idx];
        assert(sp.order[idx as int] == task@);
        let domain = match domains.get(task.id.as_str()) {
            Some(d) => d,
            None => {
                assert(entries_of(leaves@) =~= l0 + Seq::<Seq<(Seq<char>, AssignmentView)>>::empty());
                return;
            },
        };
        proof {
            assert(task.duration_estimate == task_views(tasks@)[idx as int].duration);
            let dv = domain.deep_view();
            let tv = task_views(tasks@);
            assert(lookup(domains@, tv[idx as int].id) == Some(dv));
            assert(lookup(domains@, tv[idx as int].id) matches Some(d) && forall|j: int|
                0 <= j < d.len() ==> d[j].1 + tv[idx as int].duration <= u64::MAX);
            assert forall|j: int| 0 <= j < domain@.len() implies (#[trigger] domain@[j]).1 + task.duration_estimate <= u64::MAX by {
                assert(dv[j].1 == domain@[j].1);
                assert(dv[j].1 + tv[idx as int].duration <= u64::MAX);
            }
        }
        let valid = self.consistent_values(task, domain, schedule, agents, all_tasks);
        let ghost vv = valid.deep_view();
        assert(all_leaves(sp, idx as int, s0) == leaves_from(sp, idx as int, vv, 0, s0));
        assert(l0.take(l0.len() as int) =~= l0);
        let mut k: usize = 0;
        while k < valid.len()
            invariant
                sp == self.space(tasks@, domains@, agents@),
                idx < tasks@.len(),
                next_idx == idx + 1,
                task == tasks@[idx as int],
                sp.order[idx as int] == task@,
                fits_domains(task_views(tasks@), domains@),
                vv == valid.deep_view(),
                forall|j: int| 0 <= j < valid@.len() ==> (#[trigger] valid@[j]).1 + task.duration_estimate <= u64::MAX,
                k <= valid@.len(),
                all_fit(schedule.entries()),
                !*old(aborted),
                s0 == old(schedule).entries(),
                n0 == *old(nodes),
                l0 == entries_of(old(leaves)@),
                all_leaves(sp, idx as int, s0) == leaves_from(sp, idx as int, vv, 0, s0),
                !*aborted ==> leaf_progress(sp, idx as int, vv, s0, n0, l0, k as int, schedule.entries(), *nodes, entries_of(leaves@)),
                *aborted ==> exists|d: Duration| exceeds(d, self.time_budget),
                prefix_of(l0, entries_of(leaves@)),
                *aborted ==> prefix_of(entries_of(leaves@), l0 + leaves_from(sp, idx as int, vv, 0, s0).leaves),
            decreases valid@.len() - k,
        {
            let ghost sk = schedule.entries();
            let ghost nk = *nodes;
            let ghost lk = entries_of(leaves@);
            let ghost was_aborted = *aborted;
            let agent_id = &valid[k].0;
            let start_time = valid[k].1;
            assert(vv[k as int] == (agent_id@, start_time));
            *nodes = nodes.saturating_add(1);
            schedule.assign(task.id.as_str(), agent_id.as_str(), start_time, task.duration_estimate);
            let ghost s1 = schedule.entries();
            proof {
                assert(s1 == place(sk, task@, vv[k as int]));
                crate::schedule::lemma_put_all_fit(
                    sk,
                    task@.id,
                    AssignmentView { agent: agent_id@, start: start_time, duration: task.duration_estimate },
                );
            }
            let fc = self.forward_check(tasks, next_idx, schedule, agents, all_tasks);
            if fc {
                self.collect_leaves(
                    tasks,
                    next_idx,
                    domains,
                    schedule,
                    agents,
                    all_tasks,
                    nodes,
                    start,
                    aborted,
                    leaves,
                );
            } else {
                assert(entries_of(leaves@) =~= lk + Seq::<Seq<(Seq<char>, AssignmentView)>>::empty());
            }
            let ghost after_child = schedule.entries();
            schedule.unassign(task.id.as_str());
            proof {
                crate::schedule::lemma_drop_all_fit(after_child, task@.id);
                let child = child_leaves(sp, idx as int, vv, k as int, sk);
                let total = leaves_from(sp, idx as int, vv, 0, s0);
                if !was_aborted {
                    let rest = leaves_from(sp, idx as int, vv, k as int + 1, drop_key(child.last, sp.order[idx as int].id));
                    assert(leaves_from(sp, idx as int, vv, k as int, sk).leaves == child.leaves + rest.leaves);
                    assert(l0 + total.leaves == lk + (child.leaves + rest.leaves));
                    assert(lk + (child.leaves + rest.leaves) =~= (lk + child.leaves) + rest.leaves);
                    if *aborted {
                        assert(prefix_of(entries_of(leaves@), lk + child.leaves));
                        lemma_prefix_extend(entries_of(leaves@), lk + child.leaves, rest.leaves);
                    }
                    if fc {
                        if !*aborted {
                            assert(entries_of(leaves@) == lk + child.leaves);
                            assert((lk + child.leaves).take(lk.len() as int) =~= lk);
                        }
                        assert(prefix_of(lk, entries_of(leaves@)));
                    } else {
                        assert(entries_of(leaves@) == lk);
                        assert(entries_of(leaves@).take(lk.len() as int) =~= lk);
                    }
                    lemma_prefix_trans(l0, lk, entries_of(leaves@));
                } else {
                    assert(entries_of(leaves@) == lk);
                }
                if !*aborted {
                    assert(!was_aborted);
                    assert(child_leaves(sp, idx as int, vv, k as int, sk).last == after_child);
                    assert(entries_of(leaves@) == lk + child_leaves(sp, idx as int, vv, k as int, sk).leaves);
                    lemma_leaf_step(sp, idx as int, vv, s0, n0, l0, k as int, sk, nk, lk);
                }
            }
            k = k + 1;
        }
        proof {
            if !*aborted {
                lemma_leaf_done(sp, idx as int, vv, s0, n0, l0, k as int, schedule.entries(), *nodes, entries_of(leaves@));
            }
        }
    }

    /// Every complete schedule the search reaches, in the order it reaches
    /// them, with the number of assignments tried; or, when the time budget
    /// runs out first, `true` in the last place (the schedules and count
    /// then cover only the part searched).
    pub fn enumerate_schedules(&self, agents: &[AgentProfile], tasks: &[TaskSpec]) -> (r: (Vec<Schedule>, u64, bool))
        requires
            duplicates_bounded(task_views(tasks@)),
        ensures
            r.2 ==> exists|d: Duration| exceeds(d, self.time_budget),
            r.2 ==> prefix_of(entries_of(r.0@), all_leaves(self.solve_space(agents@, tasks@), 0, seq![]).leaves),
            !r.2 ==> ({
                let o = all_leaves(self.solve_space(agents@, tasks@), 0, seq![]);
                &&& entries_of(r.0@) == o.leaves
                &&& r.1 == sat_add(0, o.nodes)
            }),
    {
        let start = now();
        let task_order = self.order_for_search(tasks, agents);
        let n_tasks = tasks.len();
        let mut domains = self.build_domains(task_order.as_slice(), agents, tasks);
        self.ac3(&mut domains, task_order.as_slice(), agents, tasks);
        proof {
            lemma_fits_domains(tasks@, agents@);
            crate::solver::lemma_domains_distinct(task_views(task_order@), agents@, task_order@.len() as int);
            crate::solver::law_ac3_arc_consistent(task_views(task_order@), crate::solver::domains_of(task_views(task_order@), agents@, task_order@.len() as int));
            crate::solver::lemma_fits_within(task_views(task_order@), domains@, crate::solver::domains_of(task_views(task_order@), agents@, task_order@.len() as int));
        }
        let mut schedule = Schedule::new();
        let mut nodes: u64 = 0;
        let mut aborted = false;
        let mut leaves: Vec<Schedule> = Vec::new();
        assert(entries_of(leaves@) =~= Seq::<Seq<(Seq<char>, AssignmentView)>>::empty());
        self.collect_leaves(
            task_order.as_slice(),
            0,
            &domains,
            &mut schedule,
            agents,
            tasks,
            &mut nodes,
            &start,
            &mut aborted,
            &mut leaves,
        );
        proof {
            assert(self.space(task_order@, domains@, agents@) == self.solve_space(agents@, tasks@));
            assert(Seq::<Seq<(Seq<char>, AssignmentView)>>::empty() + all_leaves(self.solve_space(agents@, tasks@), 0, seq![]).leaves
                =~= all_leaves(self.solve_space(agents@, tasks@), 0, seq![]).leaves);
        }
        (leaves, nodes, aborted)
    }
}

} // verus!

verus! {

proof fn lemma_search_leaves(sp: SearchSpace, idx: int, s: Seq<(Seq<char>, AssignmentView)>)
    ensures
        search(sp, idx, s).found is None ==> all_leaves(sp, idx, s).leaves.len() == 0 && all_leaves(sp, idx, s).last
            == search(sp, idx, s).last,
        search(sp, idx, s).found matches Some(f) ==> all_leaves(sp, idx, s).leaves.len() > 0 && all_leaves(
            sp,
            idx,
            s,
        ).leaves[0] == f,
    decreases sp.order.len() - idx, 1int, 0int,
{
    if 0 <= idx < sp.order.len() {
        let t = sp.order[idx];
        match lookup(sp.domains, t.id) {
            None => {},
            Some(d) => {
                lemma_try_leaves(sp, idx, valid_values(sp.constraints, sp.agents, t, d, s), 0, s);
            },
        }
    }
}

proof fn lemma_try_leaves(sp: SearchSpace, idx: int, vals: Seq<(Seq<char>, u64)>, k: int, s: Seq<(Seq<char>, AssignmentView)>)
    ensures
        try_values(sp, idx, vals, k, s).found is None ==> leaves_from(sp, idx, vals, k, s).leaves.len() == 0
            && leaves_from(sp, idx, vals, k, s).last == try_values(sp, idx, vals, k, s).last,
        try_values(sp, idx, vals, k, s).found matches Some(f) ==> leaves_from(sp, idx, vals, k, s).leaves.len() > 0
            && leaves_from(sp, idx, vals, k, s).leaves[0] == f,
    decreases sp.order.len() - idx, 0int, vals.len() - k,
{
    if 0 <= idx < sp.order.len() && 0 <= k < vals.len() {
        let t = sp.order[idx];
        let s1 = place(s, t, vals[k]);
        let fwd = forward_ok(sp.constraints, sp.order, idx + 1, s1, sp.agents);
        if fwd {
            lemma_search_leaves(sp, idx + 1, s1);
        }
        let cs = if fwd {
            search(sp, idx + 1, s1)
        } else {
            SearchOutcome { found: None, nodes: 0, last: s1 }
        };
        let cl = if fwd {
            all_leaves(sp, idx + 1, s1)
        } else {
            LeafOutcome { leaves: seq![], nodes: 0, last: s1 }
        };
        if cs.found is None {
            assert(cl.last == cs.last);
            lemma_try_leaves(sp, idx, vals, k + 1, drop_key(cs.last, t.id));
            let rest = leaves_from(sp, idx, vals, k + 1, drop_key(cl.last, t.id));
            assert(cl.leaves + rest.leaves =~= rest.leaves);
        } else {
            let rest = leaves_from(sp, idx, vals, k + 1, drop_key(cl.last, t.id));
            assert((cl.leaves + rest.leaves)[0] == cl.leaves[0]);
        }
    }
}

/// The exhaustive search and the first-solution search agree: the schedules
/// enumerated are non-empty exactly when the search finds a schedule, and
/// the first of them is the one the search finds.
pub proof fn law_enumeration_matches_solve(solver: CSPSolver, agents: Seq<AgentProfile>, tasks: Seq<TaskSpec>)
    ensures
        all_leaves(solver.solve_space(agents, tasks), 0, seq![]).leaves.len() > 0 <==> solver.solve_outcome(
            agents,
            tasks,
        ).found is Some,
        solver.solve_outcome(agents, tasks).found matches Some(f) ==> all_leaves(solver.solve_space(agents, tasks), 0, seq![]).leaves[0]
            == f,
{
    lemma_search_leaves(solver.solve_space(agents, tasks), 0, seq![]);
}

} // verus!

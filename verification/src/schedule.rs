//! Schedule representation and validation.

use crate::idmap::{drop_key, has_key, index_of, lookup, put, IdMap};
use vstd::prelude::*;
use vstd::string::StringExecFns;

verus! {

/// What an assignment states: agent, start time and duration.
pub struct AssignmentView {
    pub agent: Seq<char>,
    pub start: u64,
    pub duration: u64,
}

/// A single assignment of a task to an agent at a specific time.
#[derive(Debug, Clone, PartialEq)]
pub struct Assignment {
    /// Agent that carries out the task.
    pub agent_id: String,
    /// Start time of the task.
    pub start_time: u64,
    /// Duration of the task.
    pub duration: u64,
}

impl DeepView for Assignment {
    type V = AssignmentView;

    open spec fn deep_view(&self) -> AssignmentView {
        AssignmentView { agent: self.agent_id@, start: self.start_time, duration: self.duration }
    }
}

impl View for Assignment {
    type V = AssignmentView;

    open spec fn view(&self) -> AssignmentView {
        self.deep_view()
    }
}

/// The end of an assignment, as a mathematical integer.
pub open spec fn end_of(a: AssignmentView) -> int {
    a.start + a.duration
}

/// Whether the end of `a` is representable.
pub open spec fn fits(a: AssignmentView) -> bool {
    end_of(a) <= u64::MAX
}

/// Whether the end of every assignment in `s` is representable.
pub open spec fn all_fit(s: Seq<(Seq<char>, AssignmentView)>) -> bool {
    forall|i: int| 0 <= i < s.len() ==> fits(#[trigger] s[i].1)
}

/// Whether every two assignments of one agent have representable ends.
pub open spec fn shared_agents_fit(s: Seq<(Seq<char>, AssignmentView)>) -> bool {
    forall|i: int, j: int|
        0 <= i < j < s.len() && (#[trigger] s[i]).1.agent == (#[trigger] s[j]).1.agent ==> fits(s[i].1) && fits(s[j].1)
}

/// Whether two assignments overlap in time.
pub open spec fn overlaps(a: AssignmentView, b: AssignmentView) -> bool {
    a.start < end_of(b) && b.start < end_of(a)
}

impl Assignment {
    /// Create a new assignment.
    pub fn new(agent_id: &str, start_time: u64, duration: u64) -> (a: Self)
        ensures
            a@ == (AssignmentView { agent: agent_id@, start: start_time, duration }),
    {
        Assignment { agent_id: agent_id.to_owned(), start_time, duration }
    }

    /// End time of this assignment.
    pub fn end_time(&self) -> (t: u64)
        requires
            fits(self@),
        ensures
            t == end_of(self@),
    {
        self.start_time + self.duration
    }

    /// A copy of this assignment.
    pub fn copy(&self) -> (r: Assignment)
        ensures
            r == *self,
    {
        Assignment { agent_id: self.agent_id.clone(), start_time: self.start_time, duration: self.duration }
    }
}

/// Type of schedule conflict.
#[derive(Debug, Clone, Copy, PartialEq, Eq)]
pub enum ConflictType {
    /// Two tasks assigned to the same agent overlap in time.
    TimeOverlap,
}

/// What a conflict states.
pub struct ConflictView {
    pub first_task: Seq<char>,
    pub second_task: Seq<char>,
    pub agent: Seq<char>,
    pub conflict_type: ConflictType,
    pub message: Seq<char>,
}

/// A conflict between two assignments.
#[derive(Debug)]
pub struct ScheduleConflict {
    pub task_ids: (String, String),
    pub agent_id: String,
    pub conflict_type: ConflictType,
    pub message: String,
}

impl DeepView for ScheduleConflict {
    type V = ConflictView;

    open spec fn deep_view(&self) -> ConflictView {
        ConflictView {
            first_task: self.task_ids.0@,
            second_task: self.task_ids.1@,
            agent: self.agent_id@,
            conflict_type: self.conflict_type,
            message: self.message@,
        }
    }
}

impl Clone for ScheduleConflict {
    fn clone(&self) -> (r: Self)
        ensures
            r.deep_view() == self.deep_view(),
    {
        ScheduleConflict {
            task_ids: (self.task_ids.0.clone(), self.task_ids.1.clone()),
            agent_id: self.agent_id.clone(),
            conflict_type: self.conflict_type,
            message: self.message.clone(),
        }
    }
}

/// The message of an overlap between tasks `a` and `b` on `agent`.
pub open spec fn overlap_message(a: Seq<char>, b: Seq<char>, agent: Seq<char>) -> Seq<char> {
    "Tasks "@ + a + " and "@ + b + " overlap for agent "@ + agent
}

/// The conflict, if any, between entries `i` and `j` of `s`.
pub open spec fn pair_conflict(s: Seq<(Seq<char>, AssignmentView)>, i: int, j: int) -> Seq<ConflictView> {
    if s[i].1.agent == s[j].1.agent && overlaps(s[i].1, s[j].1) {
        seq![
            ConflictView {
                first_task: s[i].0,
                second_task: s[j].0,
                agent: s[i].1.agent,
                conflict_type: ConflictType::TimeOverlap,
                message: overlap_message(s[i].0, s[j].0, s[i].1.agent),
            },
        ]
    } else {
        seq![]
    }
}

/// The conflicts of entry `i` with the entries after it and before `hi`.
pub open spec fn conflicts_of(s: Seq<(Seq<char>, AssignmentView)>, i: int, hi: int) -> Seq<ConflictView>
    decreases hi - i,
{
    if hi <= i + 1 {
        seq![]
    } else {
        conflicts_of(s, i, hi - 1) + pair_conflict(s, i, hi - 1)
    }
}

/// The conflicts among the entries of `s`, for first entries before `n`, in
/// order of first entry, then of second entry.
pub open spec fn conflicts_before(s: Seq<(Seq<char>, AssignmentView)>, n: int) -> Seq<ConflictView>
    decreases n,
{
    if n <= 0 {
        seq![]
    } else {
        conflicts_before(s, n - 1) + conflicts_of(s, n - 1, s.len() as int)
    }
}

/// Every pair of entries of the same agent that overlap in time.
pub open spec fn all_conflicts(s: Seq<(Seq<char>, AssignmentView)>) -> Seq<ConflictView> {
    conflicts_before(s, s.len() as int)
}

/// A complete schedule mapping task IDs to assignments.
#[derive(Debug)]
pub struct Schedule {
    /// Map from task ID to assignment.
    pub assignments: IdMap<Assignment>,
}

impl Schedule {
    /// The entries of the schedule, in order.
    pub open spec fn entries(&self) -> Seq<(Seq<char>, AssignmentView)> {
        self.assignments@
    }

    /// Create an empty schedule.
    pub fn new() -> (s: Self)
        ensures
            s.entries() == Seq::<(Seq<char>, AssignmentView)>::empty(),
    {
        Schedule { assignments: IdMap::new() }
    }

    /// Number of assignments in the schedule.
    pub fn len(&self) -> (n: usize)
        ensures
            n == self.entries().len(),
    {
        self.assignments.len()
    }

    /// Check if the schedule has no assignments.
    pub fn is_empty(&self) -> (b: bool)
        ensures
            b == (self.entries().len() == 0),
    {
        self.assignments.is_empty()
    }

    /// Assign a task to an agent at a given time, replacing any assignment
    /// the task had.
    pub fn assign(&mut self, task_id: &str, agent_id: &str, start_time: u64, duration: u64)
        ensures
            final(self).entries() == put(
                old(self).entries(),
                task_id@,
                AssignmentView { agent: agent_id@, start: start_time, duration },
            ),
    {
        self.assignments.insert(task_id.to_owned(), Assignment::new(agent_id, start_time, duration));
    }

    /// Remove an assignment.
    pub fn unassign(&mut self, task_id: &str)
        ensures
            final(self).entries() == drop_key(old(self).entries(), task_id@),
    {
        self.assignments.remove(task_id);
    }

    /// Get the assignment for a task.
    pub fn get(&self, task_id: &str) -> (r: Option<&Assignment>)
        ensures
            match r {
                Some(a) => lookup(self.entries(), task_id@) == Some(a@),
                None => lookup(self.entries(), task_id@) is None,
            },
    {
        self.assignments.get(task_id)
    }

    /// Whether the schedule violates none of the hard constraints.
    pub fn is_valid(
        &self,
        agents: &[crate::agent::AgentProfile],
        tasks: &[crate::task::TaskSpec],
        constraints: &crate::constraint::Constraints,
    ) -> (b: bool)
        requires
            crate::constraint::checked_ends_fit(*constraints, self.entries(), agents@, tasks@),
        ensures
            b == (crate::constraint::schedule_violations(*constraints, self.entries(), agents@, tasks@).len() == 0),
    {
        let checker = crate::constraint::ConstraintChecker::new(*constraints);
        checker.check_schedule(self, agents, tasks).len() == 0
    }

    /// Find the pairs of assignments of one agent that overlap in time.
    pub fn find_conflicts(&self) -> (r: Vec<ScheduleConflict>)
        requires
            shared_agents_fit(self.entries()),
        ensures
            r.deep_view() == all_conflicts(self.entries()),
    {
        let ghost s = self.entries();
        let n = self.assignments.len();
        let mut conflicts: Vec<ScheduleConflict> = Vec::new();
        let mut i: usize = 0;
        while i < n
            invariant
                n == s.len(),
                s == self.entries(),
                shared_agents_fit(s),
                i <= n,
                conflicts.deep_view() == conflicts_before(s, i as int),
            decreases n - i,
        {
            let mut j: usize = i + 1;
            while j < n
                invariant
                    n == s.len(),
                    s == self.entries(),
                    shared_agents_fit(s),
                    i < n,
                    i + 1 <= j <= n,
                    conflicts.deep_view() == conflicts_before(s, i as int) + conflicts_of(s, i as int, j as int),
                decreases n - j,
            {
                let id_a = self.assignments.key_at(i);
                let a = self.assignments.value_at(i);
                let id_b = self.assignments.key_at(j);
                let b = self.assignments.value_at(j);
                let ghost before = conflicts.deep_view();
                assert(a@ == s[i as int].1 && b@ == s[j as int].1);
                if a.agent_id == b.agent_id && time_overlaps(a, b) {
                    let mut message = "Tasks ".to_owned();
                    message.append(id_a.as_str());
                    message.append(" and ");
                    message.append(id_b.as_str());
                    message.append(" overlap for agent ");
                    message.append(a.agent_id.as_str());
                    conflicts.push(
                        ScheduleConflict {
                            task_ids: (id_a.clone(), id_b.clone()),
                            agent_id: a.agent_id.clone(),
                            conflict_type: ConflictType::TimeOverlap,
                            message,
                        },
                    );
                    assert(conflicts.deep_view() =~= before + pair_conflict(s, i as int, j as int));
                } else {
                    assert(pair_conflict(s, i as int, j as int) =~= seq![]);
                    assert(conflicts.deep_view() =~= before + pair_conflict(s, i as int, j as int));
                }
                assert(conflicts_of(s, i as int, j + 1) == conflicts_of(s, i as int, j as int)
                    + pair_conflict(s, i as int, j as int));
                assert(conflicts.deep_view() =~= conflicts_before(s, i as int) + conflicts_of(s, i as int, j + 1));
                j = j + 1;
            }
            assert(conflicts_before(s, i + 1) == conflicts_before(s, i as int) + conflicts_of(s, i as int, n as int));
            i = i + 1;
        }
        conflicts
    }

    /// A copy of this schedule.
    pub fn copy(&self) -> (r: Schedule)
        ensures
            r.entries() == self.entries(),
    {
        let ghost s = self.entries();
        self.assignments.keys_distinct();
        let mut out = IdMap::new();
        let mut i: usize = 0;
        while i < self.assignments.len()
            invariant
                s == self.entries(),
                crate::idmap::distinct_keys(s),
                i <= s.len(),
                out@ == s.take(i as int),
            decreases s.len() - i,
        {
            let k = self.assignments.key_at(i).clone();
            let v = self.assignments.value_at(i).copy();
            proof {
                assert(!crate::idmap::has_key(out@, k@)) by {
                    if crate::idmap::has_key(out@, k@) {
                        let q = crate::idmap::index_of(out@, k@);
                        assert(s[q].0 == s[i as int].0);
                    }
                }
            }
            out.insert(k, v);
            assert(out@ =~= s.take(i + 1));
            i = i + 1;
        }
        assert(s.take(s.len() as int) =~= s);
        Schedule { assignments: out }
    }
}

impl Clone for Schedule {
    fn clone(&self) -> (r: Self)
        ensures
            r.entries() == self.entries(),
    {
        self.copy()
    }
}

impl Default for Schedule {
    fn default() -> (s: Self)
        ensures
            s.entries() == Seq::<(Seq<char>, AssignmentView)>::empty(),
    {
        Schedule::new()
    }
}

fn time_overlaps(a: &Assignment, b: &Assignment) -> (r: bool)
    requires
        fits(a@),
        fits(b@),
    ensures
        r == overlaps(a@, b@),
{
    a.start_time < b.end_time() && b.start_time < a.end_time()
}

} // verus!

verus! {

/// Storing a representable assignment keeps every end representable.
pub proof fn lemma_put_all_fit(s: Seq<(Seq<char>, AssignmentView)>, k: Seq<char>, v: AssignmentView)
    requires
        all_fit(s),
        fits(v),
    ensures
        all_fit(put(s, k, v)),
{
    let r = put(s, k, v);
    assert forall|i: int| 0 <= i < r.len() implies fits(#[trigger] r[i].1) by {
        if has_key(s, k) {
            if i != index_of(s, k) {
                assert(r[i] == s[i]);
            }
        } else if i < s.len() {
            assert(r[i] == s[i]);
        }
    }
}

/// Removing an entry keeps every end representable.
pub proof fn lemma_drop_all_fit(s: Seq<(Seq<char>, AssignmentView)>, k: Seq<char>)
    requires
        all_fit(s),
    ensures
        all_fit(drop_key(s, k)),
{
    let r = drop_key(s, k);
    if has_key(s, k) {
        let p = index_of(s, k);
        assert forall|i: int| 0 <= i < r.len() implies fits(#[trigger] r[i].1) by {
            if i < p {
                assert(r[i] == s[i]);
            } else {
                assert(r[i] == s[i + 1]);
            }
        }
    }
}

} // verus!

verus! {

/// The conflict reported for entries `i` and `j` of `s` when they overlap on
/// one agent.
pub open spec fn conflict_between(s: Seq<(Seq<char>, AssignmentView)>, i: int, j: int) -> ConflictView {
    ConflictView {
        first_task: s[i].0,
        second_task: s[j].0,
        agent: s[i].1.agent,
        conflict_type: ConflictType::TimeOverlap,
        message: overlap_message(s[i].0, s[j].0, s[i].1.agent),
    }
}

/// Whether entries `i` and `j` of `s` are assigned to one agent and their
/// intervals intersect.
pub open spec fn clash(s: Seq<(Seq<char>, AssignmentView)>, i: int, j: int) -> bool {
    &&& s[i].1.agent == s[j].1.agent
    &&& s[i].1.start < s[j].1.start + s[j].1.duration
    &&& s[j].1.start < s[i].1.start + s[i].1.duration
}

proof fn lemma_conflicts_of_exact(s: Seq<(Seq<char>, AssignmentView)>, i: int, hi: int)
    requires
        0 <= i,
        hi <= s.len(),
    ensures
        forall|j: int| i < j < hi && clash(s, i, j) ==> conflicts_of(s, i, hi).contains(#[trigger] conflict_between(s, i, j)),
        forall|p: int|
            #![trigger conflicts_of(s, i, hi)[p]]
            0 <= p < conflicts_of(s, i, hi).len() ==> exists|j: int|
                i < j < hi && clash(s, i, j) && conflicts_of(s, i, hi)[p] == #[trigger] conflict_between(s, i, j),
    decreases hi - i,
{
    if hi > i + 1 {
        lemma_conflicts_of_exact(s, i, hi - 1);
        let rest = conflicts_of(s, i, hi - 1);
        let pc = pair_conflict(s, i, hi - 1);
        let all = conflicts_of(s, i, hi);
        assert(all == rest + pc);
        assert forall|j: int| i < j < hi && clash(s, i, j) implies all.contains(#[trigger] conflict_between(s, i, j)) by {
            if j < hi - 1 {
                let p = choose|p: int| 0 <= p < rest.len() && rest[p] == conflict_between(s, i, j);
                assert(all[p] == rest[p]);
            } else {
                assert(pc == seq![conflict_between(s, i, j)]);
                assert(all[rest.len() as int] == pc[0]);
            }
        }
        assert forall|p: int| #![trigger all[p]] 0 <= p < all.len() implies exists|j: int|
            i < j < hi && clash(s, i, j) && all[p] == #[trigger] conflict_between(s, i, j) by {
            if p < rest.len() {
                assert(all[p] == rest[p]);
                let j = choose|j: int| i < j < hi - 1 && clash(s, i, j) && rest[p] == #[trigger] conflict_between(s, i, j);
                assert(all[p] == conflict_between(s, i, j));
            } else {
                assert(all[p] == pc[p - rest.len()]);
                assert(clash(s, i, hi - 1) && all[p] == conflict_between(s, i, hi - 1));
            }
        }
    }
}

proof fn lemma_conflicts_before_exact(s: Seq<(Seq<char>, AssignmentView)>, n: int)
    requires
        0 <= n <= s.len(),
    ensures
        forall|i: int, j: int|
            0 <= i < n && i < j < s.len() && clash(s, i, j) ==> conflicts_before(s, n).contains(#[trigger] conflict_between(s, i, j)),
        forall|p: int|
            #![trigger conflicts_before(s, n)[p]]
            0 <= p < conflicts_before(s, n).len() ==> exists|i: int, j: int|
                0 <= i < n && i < j < s.len() && clash(s, i, j) && conflicts_before(s, n)[p] == #[trigger] conflict_between(s, i, j),
    decreases n,
{
    if n > 0 {
        lemma_conflicts_before_exact(s, n - 1);
        lemma_conflicts_of_exact(s, n - 1, s.len() as int);
        let rest = conflicts_before(s, n - 1);
        let co = conflicts_of(s, n - 1, s.len() as int);
        let all = conflicts_before(s, n);
        assert(all == rest + co);
        assert forall|i: int, j: int| 0 <= i < n && i < j < s.len() && clash(s, i, j) implies all.contains(
            #[trigger] conflict_between(s, i, j),
        ) by {
            if i < n - 1 {
                let p = choose|p: int| 0 <= p < rest.len() && rest[p] == conflict_between(s, i, j);
                assert(all[p] == rest[p]);
            } else {
                let p = choose|p: int| 0 <= p < co.len() && co[p] == conflict_between(s, i, j);
                assert(all[rest.len() + p] == co[p]);
            }
        }
        assert forall|p: int| #![trigger all[p]] 0 <= p < all.len() implies exists|i: int, j: int|
            0 <= i < n && i < j < s.len() && clash(s, i, j) && all[p] == #[trigger] conflict_between(s, i, j) by {
            if p < rest.len() {
                assert(all[p] == rest[p]);
                let (i, j) = choose|i: int, j: int|
                    0 <= i < n - 1 && i < j < s.len() && clash(s, i, j) && rest[p] == #[trigger] conflict_between(s, i, j);
                assert(all[p] == conflict_between(s, i, j));
            } else {
                let q = p - rest.len();
                assert(all[p] == co[q]);
                let j = choose|j: int| n - 1 < j < s.len() && clash(s, n - 1, j) && co[q] == #[trigger] conflict_between(s, n - 1, j);
                assert(all[p] == conflict_between(s, n - 1, j));
            }
        }
    }
}

/// Whether `c` is the conflict of two clashing entries `i < j` of `s`.
pub open spec fn from_clashing_pair(s: Seq<(Seq<char>, AssignmentView)>, c: ConflictView) -> bool {
    exists|i: int, j: int| 0 <= i < j < s.len() && clash(s, i, j) && c == #[trigger] conflict_between(s, i, j)
}

/// The conflicts of a schedule are exactly its clashing pairs: every two
/// entries `i < j` assigned to one agent whose intervals intersect are
/// reported, as (`i`'s task, `j`'s task) on that agent, whatever lies between
/// them; and every reported conflict is such a pair.
pub proof fn law_every_overlapping_pair_reported(s: Seq<(Seq<char>, AssignmentView)>)
    ensures
        forall|i: int, j: int|
            0 <= i < j < s.len() && clash(s, i, j) ==> all_conflicts(s).contains(#[trigger] conflict_between(s, i, j)),
        forall|p: int| 0 <= p < all_conflicts(s).len() ==> from_clashing_pair(s, #[trigger] all_conflicts(s)[p]),
{
    let n = s.len() as int;
    lemma_conflicts_before_exact(s, n);
    assert(all_conflicts(s) == conflicts_before(s, n));
    assert forall|p: int| 0 <= p < all_conflicts(s).len() implies from_clashing_pair(s, #[trigger] all_conflicts(s)[p]) by {
        assert(conflicts_before(s, n)[p] == all_conflicts(s)[p]);
        let (i, j) = choose|i: int, j: int|
            0 <= i < n && i < j < s.len() && clash(s, i, j) && conflicts_before(s, n)[p] == #[trigger] conflict_between(s, i, j);
        assert(0 <= i < j < s.len() && clash(s, i, j) && all_conflicts(s)[p] == conflict_between(s, i, j));
    }
}

/// Reading a task's assignment right after assigning it gives back what was
/// assigned; the assignments of other tasks are unchanged; the number of
/// assignments grows by one exactly when the task had none.
pub proof fn law_get_after_assign(s: Seq<(Seq<char>, AssignmentView)>, task_id: Seq<char>, a: AssignmentView)
    requires
        crate::idmap::distinct_keys(s),
    ensures
        lookup(put(s, task_id, a), task_id) == Some(a),
        forall|k: Seq<char>| k != task_id ==> lookup(#[trigger] put(s, task_id, a), k) == lookup(s, k),
        put(s, task_id, a).len() == s.len() + if has_key(s, task_id) {
            0int
        } else {
            1int
        },
        crate::idmap::distinct_keys(put(s, task_id, a)),
{
    crate::idmap::lemma_put_distinct(s, task_id, a);
}

/// After removing a task's assignment, reading it gives nothing; the
/// assignments of other tasks are unchanged; the number of assignments shrinks
/// by one exactly when the task had one.
pub proof fn law_get_after_unassign(s: Seq<(Seq<char>, AssignmentView)>, task_id: Seq<char>)
    requires
        crate::idmap::distinct_keys(s),
    ensures
        lookup(drop_key(s, task_id), task_id) is None,
        forall|k: Seq<char>| k != task_id ==> lookup(#[trigger] drop_key(s, task_id), k) == lookup(s, k),
        drop_key(s, task_id).len() == s.len() - if has_key(s, task_id) {
            1int
        } else {
            0int
        },
        crate::idmap::distinct_keys(drop_key(s, task_id)),
{
    crate::idmap::lemma_drop_distinct(s, task_id);
}

} // verus!

//! Task specifications and states for constraint-satisfaction scheduling.

use crate::idmap::{lookup, IdMap};
use vstd::prelude::*;

verus! {

/// The character sequences of a sequence of strings.
pub open spec fn string_views(v: Seq<String>) -> Seq<Seq<char>> {
    v.map_values(|s: String| s@)
}

/// A copy of a vector of strings.
pub fn copy_strings(v: &Vec<String>) -> (r: Vec<String>)
    ensures
        r@ == v@,
{
    let mut r: Vec<String> = Vec::new();
    let mut i: usize = 0;
    while i < v.len()
        invariant
            i <= v@.len(),
            r@ == v@.take(i as int),
        decreases v@.len() - i,
    {
        r.push(v[i].clone());
        assert(r@ =~= v@.take(i + 1));
        i = i + 1;
    }
    assert(v@.take(v@.len() as int) =~= v@);
    r
}

/// Current state of a task in the scheduling lifecycle.
#[derive(Debug, Clone, PartialEq, Eq)]
pub enum TaskState {
    /// Task has not yet been assigned.
    Pending,
    /// Task has been assigned to an agent (contains agent ID).
    Assigned(String),
    /// Task is currently being worked on.
    InProgress,
    /// Task has been completed successfully.
    Completed,
    /// Task has failed.
    Failed,
}

impl TaskState {
    /// Check if the task is assigned (to any agent).
    pub fn is_assigned(&self) -> (b: bool)
        ensures
            b == (*self is Assigned),
    {
        match self {
            TaskState::Assigned(_) => true,
            _ => false,
        }
    }

    /// Check if the task is in a terminal state (completed or failed).
    pub fn is_terminal(&self) -> (b: bool)
        ensures
            b == (*self is Completed || *self is Failed),
    {
        match self {
            TaskState::Completed => true,
            TaskState::Failed => true,
            _ => false,
        }
    }

    /// A copy of this state.
    pub fn copy(&self) -> (r: TaskState)
        ensures
            r == *self,
    {
        match self {
            TaskState::Pending => TaskState::Pending,
            TaskState::Assigned(a) => TaskState::Assigned(a.clone()),
            TaskState::InProgress => TaskState::InProgress,
            TaskState::Completed => TaskState::Completed,
            TaskState::Failed => TaskState::Failed,
        }
    }
}

/// The largest completion time recorded for any of `deps`, or 0 when none of
/// them has one.
pub open spec fn latest_completion(deps: Seq<Seq<char>>, times: Seq<(Seq<char>, u64)>) -> nat
    decreases deps.len(),
{
    if deps.len() == 0 {
        0
    } else {
        let rest = latest_completion(deps.drop_last(), times);
        match lookup(times, deps.last()) {
            Some(t) => if t > rest {
                t as nat
            } else {
                rest
            },
            None => rest,
        }
    }
}

/// What a task specification states.
pub struct TaskView {
    pub id: Seq<char>,
    pub required: Seq<Seq<char>>,
    pub deadline: u64,
    pub duration: u64,
    pub deps: Seq<Seq<char>>,
    pub priority: u32,
    pub state: TaskState,
}

/// The views of a sequence of tasks.
pub open spec fn task_views(s: Seq<TaskSpec>) -> Seq<TaskView> {
    s.map_values(|t: TaskSpec| t@)
}

/// Specification of a task to be scheduled.
#[derive(Debug, Clone)]
pub struct TaskSpec {
    /// Unique task identifier.
    pub id: String,
    /// Capabilities required to perform the task.
    pub required_capabilities: Vec<String>,
    /// Deadline as a timestamp (epoch seconds or arbitrary time unit).
    pub deadline: u64,
    /// Estimated duration in the same time unit as deadline.
    pub duration_estimate: u64,
    /// IDs of tasks that must complete before this one can start.
    pub dependencies: Vec<String>,
    /// Priority level (higher = more important).
    pub priority: u32,
    /// Current state of the task.
    pub state: TaskState,
}

impl View for TaskSpec {
    type V = TaskView;

    open spec fn view(&self) -> TaskView {
        TaskView {
            id: self.id@,
            required: self.required(),
            deadline: self.deadline,
            duration: self.duration_estimate,
            deps: self.deps(),
            priority: self.priority,
            state: self.state,
        }
    }
}

impl TaskSpec {
    /// The character sequences of the required capabilities.
    pub open spec fn required(&self) -> Seq<Seq<char>> {
        string_views(self.required_capabilities@)
    }

    /// The character sequences of the dependencies.
    pub open spec fn deps(&self) -> Seq<Seq<char>> {
        string_views(self.dependencies@)
    }

    /// Create a new task specification: no deadline (0), duration 1, no
    /// dependencies, priority 0, pending.
    pub fn new(id: &str, required_capabilities: Vec<String>) -> (t: Self)
        ensures
            t.id@ == id@,
            t.required_capabilities == required_capabilities,
            t.deadline == 0,
            t.duration_estimate == 1,
            t.dependencies@.len() == 0,
            t.priority == 0,
            t.state == TaskState::Pending,
    {
        TaskSpec {
            id: id.to_owned(),
            required_capabilities,
            deadline: 0,
            duration_estimate: 1,
            dependencies: Vec::new(),
            priority: 0,
            state: TaskState::Pending,
        }
    }

    /// Builder: set deadline.
    pub fn with_deadline(self, deadline: u64) -> (t: Self)
        ensures
            t == (TaskSpec { deadline, ..self }),
    {
        TaskSpec { deadline, ..self }
    }

    /// Builder: set duration estimate.
    pub fn with_duration(self, duration: u64) -> (t: Self)
        ensures
            t == (TaskSpec { duration_estimate: duration, ..self }),
    {
        TaskSpec { duration_estimate: duration, ..self }
    }

    /// Builder: set dependencies.
    pub fn with_dependencies(self, deps: Vec<String>) -> (t: Self)
        ensures
            t == (TaskSpec { dependencies: deps, ..self }),
    {
        TaskSpec { dependencies: deps, ..self }
    }

    /// Builder: set priority.
    pub fn with_priority(self, priority: u32) -> (t: Self)
        ensures
            t == (TaskSpec { priority, ..self }),
    {
        TaskSpec { priority, ..self }
    }

    /// Earliest start time given dependency completion times: the latest
    /// completion time among the dependencies that have one, 0 if none has.
    pub fn earliest_start(&self, completion_times: &IdMap<u64>) -> (t: u64)
        ensures
            t == latest_completion(self.deps(), completion_times@),
    {
        let mut best: u64 = 0;
        let mut i: usize = 0;
        while i < self.dependencies.len()
            invariant
                i <= self.dependencies@.len(),
                best == latest_completion(self.deps().take(i as int), completion_times@),
            decreases self.dependencies@.len() - i,
        {
            assert(self.deps().take(i + 1).drop_last() =~= self.deps().take(i as int));
            assert(self.deps().take(i + 1).last() == self.dependencies@[i as int]@);
            match completion_times.get(self.dependencies[i].as_str()) {
                Some(t) => {
                    if *t > best {
                        best = *t;
                    }
                },
                None => {},
            }
            i = i + 1;
        }
        assert(self.deps().take(self.dependencies@.len() as int) =~= self.deps());
        best
    }

    /// Latest possible start time to meet the deadline (0 when the duration
    /// exceeds the deadline).
    pub fn latest_start(&self) -> (t: u64)
        ensures
            t == if self.deadline >= self.duration_estimate {
                self.deadline - self.duration_estimate
            } else {
                0
            },
    {
        self.deadline.saturating_sub(self.duration_estimate)
    }

    /// Check if the task has any dependencies.
    pub fn has_dependencies(&self) -> (b: bool)
        ensures
            b == (self.dependencies@.len() > 0),
    {
        self.dependencies.len() > 0
    }

    /// Whether `other` holds the same values as `self`.
    pub open spec fn same_as(&self, other: TaskSpec) -> bool {
        &&& self.id == other.id
        &&& self.required_capabilities@ == other.required_capabilities@
        &&& self.deadline == other.deadline
        &&& self.duration_estimate == other.duration_estimate
        &&& self.dependencies@ == other.dependencies@
        &&& self.priority == other.priority
        &&& self.state == other.state
    }

    /// A copy of the task specification.
    pub fn copy(&self) -> (r: TaskSpec)
        ensures
            r.same_as(*self),
            r@ == self@,
    {
        let caps = copy_strings(&self.required_capabilities);
        let deps = copy_strings(&self.dependencies);
        TaskSpec {
            id: self.id.clone(),
            required_capabilities: caps,
            deadline: self.deadline,
            duration_estimate: self.duration_estimate,
            dependencies: deps,
            priority: self.priority,
            state: self.state.copy(),
        }
    }
}

} // verus!

verus! {

/// The earliest start is no earlier than the completion time recorded for any
/// dependency, and is either 0 or one of those completion times.
pub proof fn law_earliest_start_is_latest_completion(deps: Seq<Seq<char>>, times: Seq<(Seq<char>, u64)>)
    ensures
        forall|j: int|
            0 <= j < deps.len() ==> (#[trigger] lookup(times, deps[j]) matches Some(t) ==> t <= latest_completion(
                deps,
                times,
            )),
        latest_completion(deps, times) == 0 || exists|j: int|
            0 <= j < deps.len() && lookup(times, #[trigger] deps[j]) == Some(latest_completion(deps, times) as u64),
    decreases deps.len(),
{
    if deps.len() > 0 {
        let d = deps.drop_last();
        law_earliest_start_is_latest_completion(d, times);
        assert forall|j: int|
            0 <= j < deps.len() implies (#[trigger] lookup(times, deps[j]) matches Some(t) ==> t <= latest_completion(
                deps,
                times,
            )) by {
            if j < d.len() {
                assert(deps[j] == d[j]);
            }
        }
        let rest = latest_completion(d, times);
        if latest_completion(deps, times) != rest {
            assert(lookup(times, deps[deps.len() - 1]) == Some(latest_completion(deps, times) as u64));
        } else if rest != 0 {
            let j = choose|j: int| 0 <= j < d.len() && lookup(times, #[trigger] d[j]) == Some(rest as u64);
            assert(deps[j] == d[j]);
        }
    }
}

} // verus!

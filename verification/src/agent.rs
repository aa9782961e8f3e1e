//! Agent profiles for constraint-satisfaction scheduling.
//!
//! An agent's skill preferences are weights in floating point; they serve only
//! the soft cost and are kept beside the profile by the code that computes it.

use crate::task::string_views;
use vstd::prelude::*;

verus! {

/// Whether `skill` is among `caps`.
pub open spec fn has_skill(caps: Seq<Seq<char>>, skill: Seq<char>) -> bool {
    exists|i: int| 0 <= i < caps.len() && caps[i] == skill
}

/// Whether every one of `skills` is among `caps`.
pub open spec fn has_all_skills(caps: Seq<Seq<char>>, skills: Seq<Seq<char>>) -> bool {
    forall|j: int| 0 <= j < skills.len() ==> has_skill(caps, #[trigger] skills[j])
}

/// Profile describing an agent's capabilities and capacity.
#[derive(Debug, Clone)]
pub struct AgentProfile {
    /// Unique agent identifier.
    pub id: String,
    /// Skills this agent possesses (e.g., "rust", "python", "database").
    pub capabilities: Vec<String>,
    /// Maximum number of concurrent tasks this agent can handle.
    pub capacity: u32,
    /// Current number of active tasks.
    pub current_load: u32,
}

impl AgentProfile {
    /// The character sequences of the capabilities.
    pub open spec fn skills(&self) -> Seq<Seq<char>> {
        string_views(self.capabilities@)
    }

    /// Whether this agent has every skill of `skills`.
    pub open spec fn can_do(&self, skills: Seq<Seq<char>>) -> bool {
        has_all_skills(self.skills(), skills)
    }

    /// Create a new agent profile with no current load.
    pub fn new(id: &str, capabilities: Vec<String>, capacity: u32) -> (a: Self)
        ensures
            a.id@ == id@,
            a.capabilities == capabilities,
            a.capacity == capacity,
            a.current_load == 0,
    {
        AgentProfile { id: id.to_owned(), capabilities, capacity, current_load: 0 }
    }

    /// Builder: set the current load.
    pub fn with_load(self, load: u32) -> (a: Self)
        ensures
            a == (AgentProfile { current_load: load, ..self }),
    {
        AgentProfile { current_load: load, ..self }
    }

    /// Check if this agent has a specific capability.
    pub fn has_capability(&self, skill: &str) -> (b: bool)
        ensures
            b == has_skill(self.skills(), skill@),
    {
        let wanted = skill.to_owned();
        let mut i: usize = 0;
        while i < self.capabilities.len()
            invariant
                i <= self.capabilities@.len(),
                wanted@ == skill@,
                forall|j: int| 0 <= j < i ==> #[trigger] self.skills()[j] != skill@,
            decreases self.capabilities@.len() - i,
        {
            if self.capabilities[i] == wanted {
                assert(self.skills()[i as int] == skill@);
                return true;
            }
            i = i + 1;
        }
        false
    }

    /// Check if this agent has all the required capabilities.
    pub fn has_capabilities(&self, skills: &[String]) -> (b: bool)
        ensures
            b == self.can_do(string_views(skills@)),
    {
        let mut i: usize = 0;
        while i < skills.len()
            invariant
                i <= skills@.len(),
                forall|j: int| 0 <= j < i ==> has_skill(self.skills(), #[trigger] string_views(skills@)[j]),
            decreases skills@.len() - i,
        {
            if !self.has_capability(skills[i].as_str()) {
                assert(!has_skill(self.skills(), string_views(skills@)[i as int]));
                return false;
            }
            i = i + 1;
        }
        true
    }

    /// Remaining capacity for new tasks (0 when the load exceeds the capacity).
    pub fn remaining_capacity(&self) -> (r: u32)
        ensures
            r == if self.capacity >= self.current_load {
                self.capacity - self.current_load
            } else {
                0
            },
    {
        self.capacity.saturating_sub(self.current_load)
    }

    /// Check if the agent can accept more tasks.
    pub fn has_capacity(&self) -> (b: bool)
        ensures
            b == (self.capacity > self.current_load),
    {
        self.remaining_capacity() > 0
    }

    /// Whether `other` holds the same values as this agent.
    pub open spec fn same_as(&self, other: AgentProfile) -> bool {
        &&& self.id == other.id
        &&& self.capabilities@ == other.capabilities@
        &&& self.capacity == other.capacity
        &&& self.current_load == other.current_load
    }
}

} // verus!

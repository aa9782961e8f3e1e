//! Constraint-satisfaction scheduling of tasks onto agents.
//!
//! Agents have skills and a capacity (how many tasks they run at once);
//! tasks have required skills, a duration, a deadline and dependencies. The
//! solver orders tasks by how few agents can do them, dependencies first,
//! builds each task's domain of (agent, start time) pairs, prunes it with
//! AC-3, and searches depth first with forward checking; it can also list
//! every complete schedule the search reaches. The constraint
//! checker reports every violation of the hard constraints in a schedule, and
//! computes the integer quantities of its soft cost. Neighbouring schedules
//! for local search differ by one random move.

pub mod agent;
pub mod checker_laws;
pub mod clock;
pub mod enumerate;
pub mod forward_laws;
pub mod constraint;
pub mod idmap;
pub mod neighbor;
pub mod order;
pub mod schedule;
pub mod solver;
pub mod soundness;
pub mod task;
pub mod text;

pub use agent::AgentProfile;
pub use constraint::{ConstraintChecker, ConstraintViolation, Constraints, CostTerms};
pub use idmap::IdMap;
pub use neighbor::{apply_move, generate_neighbor, MoveKind};
pub use schedule::{Assignment, ConflictType, Schedule, ScheduleConflict};
pub use solver::{CSPSolver, SolverResult};
pub use task::{TaskSpec, TaskState};

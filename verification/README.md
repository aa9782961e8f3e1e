# constraint_schedule

Constraint-satisfaction scheduling of tasks onto agents, verified with Verus.

Agents have skills and a capacity (how many tasks they may run at once);
tasks have required skills, a duration, a deadline and dependencies. The
library checks schedules against the hard constraints, solves for a valid
schedule, lists every schedule its search reaches, and makes the local moves
of a simulated-annealing optimizer.

## Layout

- `src/` — the verified library.
  - `idmap.rs`: a map from string identifiers to values, in insertion order.
  - `task.rs`, `agent.rs`, `schedule.rs`: tasks, agents, assignments, schedules
    and conflict detection.
  - `constraint.rs`: the constraint checker and the integer terms of the soft
    cost; `checker_laws.rs`: what the checker reports, task by task.
  - `order.rs`: a stable sort by integer keys.
  - `solver.rs`: MRV ordering, domains, AC-3, consistency, forward checking and
    the backtracking search; `enumerate.rs`: the exhaustive search;
    `soundness.rs`: what holds of every schedule the solver finds.
  - `neighbor.rs`: neighbouring schedules for local search.
  - `clock.rs`, `text.rs`: the calls into `std` that the library makes.
- `tests/` — tests of the library.
- `app/` — the parts that use floating point or serde: the weighted soft
  cost, the choice of the cheapest enumerated schedule, simulated annealing,
  and serialisable copies of the library's types.

Each public function of `src/` states its result in its `ensures`; the
`law_*` proof functions state properties that span several functions.

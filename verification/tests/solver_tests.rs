use constraint_schedule::{AgentProfile, CSPSolver, ConstraintChecker, Constraints, Schedule, TaskSpec};
use std::time::Duration;

fn make_simple_setup() -> (Vec<AgentProfile>, Vec<TaskSpec>) {
    let agents = vec![
        AgentProfile::new("a1", vec!["rust".into()], 2),
        AgentProfile::new("a2", vec!["python".into()], 2),
    ];
    let tasks = vec![
        TaskSpec::new("t1", vec!["rust".into()]).with_deadline(100).with_duration(10),
        TaskSpec::new("t2", vec!["python".into()]).with_deadline(100).with_duration(10),
    ];
    (agents, tasks)
}

#[test]
fn test_solver_finds_valid_schedule() {
    let (agents, tasks) = make_simple_setup();
    let solver = CSPSolver::new();
    let result = solver.solve(&agents, &tasks);
    assert!(result.schedule.is_some());
    let schedule = result.schedule.unwrap();
    assert_eq!(schedule.len(), 2);
    assert_eq!(schedule.get("t1").unwrap().agent_id, "a1");
    assert_eq!(schedule.get("t2").unwrap().agent_id, "a2");
}

#[test]
fn test_solver_no_solution_wrong_capabilities() {
    let agents = vec![AgentProfile::new("a1", vec!["rust".into()], 1)];
    let tasks = vec![
        TaskSpec::new("t1", vec!["rust".into()]).with_deadline(100).with_duration(10),
        TaskSpec::new("t2", vec!["python".into()]).with_deadline(100).with_duration(10),
    ];
    let solver = CSPSolver::new();
    let result = solver.solve(&agents, &tasks);
    assert!(result.schedule.is_none());
}

#[test]
fn test_solver_single_agent_single_task() {
    let agents = vec![AgentProfile::new("a1", vec!["rust".into()], 1)];
    let tasks = vec![TaskSpec::new("t1", vec!["rust".into()]).with_deadline(100).with_duration(10)];
    let solver = CSPSolver::new();
    let result = solver.solve(&agents, &tasks);
    assert!(result.schedule.is_some());
}

#[test]
fn test_solver_respects_dependencies() {
    let agents = vec![AgentProfile::new("a1", vec!["rust".into()], 2)];
    let tasks = vec![
        TaskSpec::new("t1", vec!["rust".into()]).with_deadline(100).with_duration(10),
        TaskSpec::new("t2", vec!["rust".into()])
            .with_deadline(100)
            .with_duration(10)
            .with_dependencies(vec!["t1".into()]),
    ];
    let solver = CSPSolver::new();
    let result = solver.solve(&agents, &tasks);
    assert!(result.schedule.is_some());
    let schedule = result.schedule.unwrap();
    let t1 = schedule.get("t1").unwrap();
    let t2 = schedule.get("t2").unwrap();
    assert!(t2.start_time >= t1.start_time + t1.duration);
}

#[test]
fn test_solver_respects_capacity() {
    let agents = vec![AgentProfile::new("a1", vec!["rust".into()], 1)];
    let tasks = vec![
        TaskSpec::new("t1", vec!["rust".into()]).with_deadline(100).with_duration(10),
        TaskSpec::new("t2", vec!["rust".into()]).with_deadline(100).with_duration(10),
    ];
    let solver = CSPSolver::new();
    let result = solver.solve(&agents, &tasks);
    assert!(result.schedule.is_some());
    let schedule = result.schedule.unwrap();
    let t1 = schedule.get("t1").unwrap();
    let t2 = schedule.get("t2").unwrap();
    assert!(t2.start_time >= t1.end_time() || t1.start_time >= t2.end_time());
}

#[test]
fn test_solver_overconstrained_deadline() {
    let agents = vec![AgentProfile::new("a1", vec!["rust".into()], 1)];
    let tasks = vec![TaskSpec::new("t1", vec!["rust".into()]).with_deadline(5).with_duration(10)];
    let solver = CSPSolver::new();
    let result = solver.solve(&agents, &tasks);
    assert!(result.schedule.is_none());
}

#[test]
fn test_empty_tasks() {
    let agents = vec![AgentProfile::new("a1", vec!["rust".into()], 1)];
    let solver = CSPSolver::new();
    let result = solver.solve(&agents, &[]);
    assert!(result.schedule.is_some());
    assert!(result.schedule.unwrap().is_empty());
}

#[test]
fn test_empty_agents() {
    let tasks = vec![TaskSpec::new("t1", vec!["rust".into()]).with_deadline(100).with_duration(10)];
    let solver = CSPSolver::new();
    let result = solver.solve(&[], &tasks);
    assert!(result.schedule.is_none());
}

#[test]
fn test_multiple_compatible_agents() {
    let agents = vec![
        AgentProfile::new("a1", vec!["rust".into()], 2),
        AgentProfile::new("a2", vec!["rust".into()], 2),
    ];
    let tasks = vec![TaskSpec::new("t1", vec!["rust".into()]).with_deadline(100).with_duration(10)];
    let solver = CSPSolver::new();
    let result = solver.solve(&agents, &tasks);
    assert!(result.schedule.is_some());
    let schedule = result.schedule.unwrap();
    let agent_id = &schedule.get("t1").unwrap().agent_id;
    assert!(agent_id == "a1" || agent_id == "a2");
}

#[test]
fn test_mrv_orders_constrained_first() {
    let agents = vec![
        AgentProfile::new("a1", vec!["rust".into()], 2),
        AgentProfile::new("a2", vec!["rust".into(), "python".into()], 2),
    ];
    let tasks = vec![
        TaskSpec::new("t1", vec!["rust".into()]).with_deadline(100).with_duration(10),
        TaskSpec::new("t2", vec!["python".into()]).with_deadline(100).with_duration(10),
    ];
    let solver = CSPSolver::new();
    let ordered = solver.order_tasks_mrv(&tasks, &agents);
    assert_eq!(ordered[0].id, "t2");
    assert_eq!(ordered[1].id, "t1");
}

#[test]
fn test_solver_result_stats() {
    let (agents, tasks) = make_simple_setup();
    let solver = CSPSolver::new();
    let result = solver.solve(&agents, &tasks);
    assert!(result.nodes_explored > 0);
    assert!(!result.timed_out);
}

#[test]
fn first_solution_and_node_count() {
    let (agents, tasks) = make_simple_setup();
    let result = CSPSolver::new().solve(&agents, &tasks);
    let schedule = result.schedule.unwrap();
    assert_eq!(schedule.get("t1").unwrap().start_time, 0);
    assert_eq!(schedule.get("t2").unwrap().start_time, 0);
    assert_eq!(result.nodes_explored, 2);
}

#[test]
fn start_times_and_domains() {
    let solver = CSPSolver::new();
    let empty = Schedule::new();
    let t = TaskSpec::new("t", vec![]).with_deadline(35).with_duration(10);
    assert_eq!(solver.possible_start_times(&t, &empty, &[]), vec![0, 10, 20]);
    let short = TaskSpec::new("s", vec![]).with_deadline(7).with_duration(3);
    assert_eq!(solver.possible_start_times(&short, &empty, &[]), vec![0, 3]);
    let late = TaskSpec::new("l", vec![]).with_deadline(1).with_duration(5);
    assert_eq!(solver.possible_start_times(&late, &empty, &[]), vec![0]);
    let zero = TaskSpec::new("z", vec![]).with_deadline(3).with_duration(0);
    assert_eq!(solver.possible_start_times(&zero, &empty, &[]), vec![0, 1, 2, 3]);
    let long = TaskSpec::new("g", vec![]).with_deadline(50_000).with_duration(20);
    let times = solver.possible_start_times(&long, &empty, &[]);
    assert_eq!(times.len(), 1001);
    assert_eq!(*times.last().unwrap(), 10_000);

    let agents = vec![
        AgentProfile::new("small", vec!["x".into()], 1),
        AgentProfile::new("big", vec!["x".into()], 3),
        AgentProfile::new("none", vec![], 9),
    ];
    let task = TaskSpec::new("t", vec!["x".into()]).with_deadline(20).with_duration(10);
    let domain = solver.task_domain(&task, &agents, &[]);
    let expected: Vec<(String, u64)> = vec![
        ("big".into(), 0),
        ("big".into(), 10),
        ("small".into(), 0),
        ("small".into(), 10),
    ];
    assert_eq!(domain, expected);
}

#[test]
fn start_times_after_placed_dependencies() {
    let solver = CSPSolver::new();
    let mut schedule = Schedule::new();
    schedule.assign("d1", "a", 0, 25);
    schedule.assign("other", "a", 0, 90);
    let t = TaskSpec::new("t", vec![]).with_deadline(60).with_duration(10)
        .with_dependencies(vec!["d1".into(), "d2".into()]);
    assert_eq!(solver.possible_start_times_for(&t, &schedule, &[]), vec![30, 40, 50]);
    let relaxed = CSPSolver::new().with_constraints(Constraints::relaxed());
    assert_eq!(relaxed.possible_start_times_for(&t, &schedule, &[]).len(), 6);
}

#[test]
fn ac3_without_dependencies_keeps_domains() {
    let (agents, tasks) = make_simple_setup();
    let solver = CSPSolver::new();
    let order = solver.order_tasks_mrv(&tasks, &agents);
    let mut domains = solver.build_domains(&order, &agents, &tasks);
    let before: Vec<usize> = (0..domains.len()).map(|i| domains.value_at(i).len()).collect();
    solver.ac3(&mut domains, &order, &agents, &tasks);
    let after: Vec<usize> = (0..domains.len()).map(|i| domains.value_at(i).len()).collect();
    assert_eq!(before, after);
    assert_eq!(domains.get("t1").unwrap()[0], ("a1".to_string(), 0));
}

#[test]
fn consistency_and_forward_check() {
    let solver = CSPSolver::new();
    let agents = vec![AgentProfile::new("a1", vec!["rust".into()], 1)];
    let t1 = TaskSpec::new("t1", vec!["rust".into()]).with_deadline(100).with_duration(10);
    let t2 = TaskSpec::new("t2", vec!["rust".into()]).with_deadline(100).with_duration(10)
        .with_dependencies(vec!["t1".into()]);
    let mut schedule = Schedule::new();
    assert!(!solver.is_consistent(&t2, "a1", 0, &schedule, &agents, &[]));
    assert!(solver.is_consistent(&t1, "a1", 0, &schedule, &agents, &[]));
    assert!(!solver.is_consistent(&t1, "a1", 95, &schedule, &agents, &[]));
    assert!(!solver.is_consistent(&t1, "nobody", 0, &schedule, &agents, &[]));
    schedule.assign("t1", "a1", 0, 10);
    assert!(!solver.is_consistent(&t2, "a1", 5, &schedule, &agents, &[]));
    assert!(solver.is_consistent(&t2, "a1", 10, &schedule, &agents, &[]));
    // t2 can still start at 10, when t1 has ended.
    let order = vec![t1.clone(), t2.clone()];
    assert!(solver.forward_check(&order, 1, &schedule, &agents, &[]));
    // With t1 running until 95, no candidate start of t2 is left.
    schedule.assign("t1", "a1", 0, 95);
    assert!(!solver.forward_check(&order, 1, &schedule, &agents, &[]));
    assert!(solver.forward_check(&order, 2, &schedule, &agents, &[]));
    // An agent busy at every candidate start has no room.
    let mut busy = Schedule::new();
    busy.assign("t1", "a1", 0, 10);
    busy.assign("x", "a1", 10, 90);
    assert!(!solver.forward_check(&order, 1, &busy, &agents, &[]));
    let roomy = vec![AgentProfile::new("a1", vec!["rust".into()], 2)];
    assert!(solver.forward_check(&order, 1, &busy, &roomy, &[]));
}

#[test]
fn fewest_agents_first_yields_to_dependencies() {
    // "deploy" has fewer capable agents, but its dependency is placed first.
    let agents = vec![
        AgentProfile::new("a1", vec!["rust".into(), "wasm".into()], 2),
        AgentProfile::new("a2", vec!["rust".into()], 2),
    ];
    let tasks = vec![
        TaskSpec::new("build", vec!["rust".into()]).with_deadline(100).with_duration(20),
        TaskSpec::new("deploy", vec!["wasm".into()]).with_deadline(120).with_duration(15)
            .with_dependencies(vec!["build".into()]),
    ];
    let result = CSPSolver::new().solve(&agents, &tasks);
    assert!(!result.timed_out);
    let s = result.schedule.unwrap();
    assert!(s.get("deploy").unwrap().start_time >= s.get("build").unwrap().end_time());
    assert!(s.is_valid(&agents, &tasks, &Constraints::new()));
}

#[test]
fn zero_budget_times_out() {
    let (agents, tasks) = make_simple_setup();
    let solver = CSPSolver::new().with_time_budget(Duration::from_nanos(0));
    let result = solver.solve(&agents, &tasks);
    if result.timed_out {
        assert!(result.schedule.is_none());
    }
}

#[test]
fn solved_schedule_has_no_conflicts() {
    let agents = vec![AgentProfile::new("a1", vec!["rust".into()], 1)];
    let tasks: Vec<TaskSpec> = (0..4)
        .map(|i| TaskSpec::new(&format!("t{}", i), vec!["rust".into()]).with_deadline(100).with_duration(10))
        .collect();
    let schedule = CSPSolver::new().solve(&agents, &tasks).schedule.unwrap();
    assert_eq!(schedule.len(), 4);
    assert!(schedule.find_conflicts().is_empty());
}

#[test]
fn solved_schedule_passes_checker() {
    let agents = vec![
        AgentProfile::new("a1", vec!["rust".into()], 1),
        AgentProfile::new("a2", vec!["ml".into()], 3),
    ];
    let tasks = vec![
        TaskSpec::new("t1", vec!["rust".into()]).with_deadline(100).with_duration(10),
        TaskSpec::new("t2", vec!["rust".into()]).with_deadline(100).with_duration(10),
        TaskSpec::new("t3", vec!["ml".into()])
            .with_deadline(100)
            .with_duration(5)
            .with_dependencies(vec!["t1".into()]),
    ];
    let schedule = CSPSolver::new().solve(&agents, &tasks).schedule.unwrap();
    assert!(ConstraintChecker::new(Constraints::new()).check_schedule(&schedule, &agents, &tasks).is_empty());
    assert!(schedule.is_valid(&agents, &tasks, &Constraints::new()));
}

#[test]
fn dependency_listed_after_its_dependent_is_placed_first() {
    let agents = vec![AgentProfile::new("a1", vec!["rust".into()], 2)];
    let tasks = vec![
        TaskSpec::new("t2", vec!["rust".into()])
            .with_deadline(100)
            .with_duration(10)
            .with_dependencies(vec!["t1".into()]),
        TaskSpec::new("t1", vec!["rust".into()]).with_deadline(100).with_duration(10),
    ];
    let solver = CSPSolver::new();
    let mrv = solver.order_tasks_mrv(&tasks, &agents);
    assert_eq!(mrv[0].id, "t2");
    assert_eq!(mrv[1].id, "t1");
    let order = solver.order_for_search(&tasks, &agents);
    assert_eq!(order[0].id, "t1");
    assert_eq!(order[1].id, "t2");
    let s = solver.solve(&agents, &tasks).schedule.unwrap();
    assert!(s.get("t2").unwrap().start_time >= s.get("t1").unwrap().end_time());
}

#[test]
fn enumerate_lists_every_reached_schedule() {
    let agents = vec![
        AgentProfile::new("a1", vec!["rust".into()], 1),
        AgentProfile::new("a2", vec!["rust".into()], 1),
    ];
    let tasks = vec![TaskSpec::new("t1", vec!["rust".into()]).with_deadline(10).with_duration(10)];
    let (leaves, nodes, timed_out) = CSPSolver::new().enumerate_schedules(&agents, &tasks);
    assert!(!timed_out);
    assert_eq!(leaves.len(), 2);
    assert_eq!(nodes, 2);
    assert_eq!(leaves[0].get("t1").unwrap().agent_id, "a1");
    assert_eq!(leaves[1].get("t1").unwrap().agent_id, "a2");
}

#[test]
fn huge_durations_are_solved() {
    let agents = vec![AgentProfile::new("a1", vec!["rust".into()], 1)];
    let tasks = vec![TaskSpec::new("t1", vec!["rust".into()]).with_deadline(u64::MAX).with_duration(u64::MAX - 5)];
    let s = CSPSolver::new().solve(&agents, &tasks).schedule.unwrap();
    assert_eq!(s.get("t1").unwrap().start_time, 0);
}

#[test]
fn ac3_prunes_starts_before_a_dependency_can_end() {
    let agents = vec![AgentProfile::new("a1", vec!["rust".into()], 2)];
    let tasks = vec![
        TaskSpec::new("t1", vec!["rust".into()]).with_deadline(10).with_duration(10),
        TaskSpec::new("t2", vec!["rust".into()])
            .with_deadline(20)
            .with_duration(10)
            .with_dependencies(vec!["t1".into()]),
    ];
    let solver = CSPSolver::new();
    let order = solver.order_tasks_mrv(&tasks, &agents);
    let mut domains = solver.build_domains(&order, &agents, &tasks);
    assert_eq!(domains.get("t2").unwrap().len(), 2);
    assert!(solver.revise(&mut domains, "t2", "t1", &order, &agents));
    assert_eq!(domains.get("t2").unwrap(), &vec![("a1".to_string(), 10)]);
    assert!(!solver.revise(&mut domains, "t2", "t1", &order, &agents));
    assert!(!solver.revise(&mut domains, "t1", "t2", &order, &agents));

    let mut domains = solver.build_domains(&order, &agents, &tasks);
    solver.ac3(&mut domains, &order, &agents, &tasks);
    assert_eq!(domains.get("t1").unwrap(), &vec![("a1".to_string(), 0)]);
    assert_eq!(domains.get("t2").unwrap(), &vec![("a1".to_string(), 10)]);
}

#[test]
fn forward_check_looks_at_every_later_task() {
    let solver = CSPSolver::new();
    let agents = vec![AgentProfile::new("a1", vec!["rust".into()], 1)];
    let t1 = TaskSpec::new("t1", vec!["rust".into()]).with_deadline(100).with_duration(10);
    let t3 = TaskSpec::new("t3", vec!["rust".into()]).with_deadline(10).with_duration(10);
    let order = vec![t1.clone(), t3.clone()];
    let mut schedule = Schedule::new();
    schedule.assign("t1", "a1", 0, 10);
    // t3 has no dependencies; its only start, 0, is taken.
    assert!(!solver.forward_check(&order, 1, &schedule, &agents, &[]));
}

#[test]
fn mrv_order_ignores_dependencies() {
    let agents = vec![
        AgentProfile::new("a1", vec!["rust".into()], 1),
        AgentProfile::new("a2", vec!["python".into()], 1),
    ];
    let tasks = vec![
        TaskSpec::new("t2", vec!["rust".into()]).with_dependencies(vec!["t1".into()]),
        TaskSpec::new("t1", vec![]),
    ];
    let solver = CSPSolver::new();
    let ids: Vec<String> = solver.order_tasks_mrv(&tasks, &agents).iter().map(|t| t.id.clone()).collect();
    assert_eq!(ids, vec!["t2".to_string(), "t1".to_string()]);
    let ids: Vec<String> = solver.order_for_search(&tasks, &agents).iter().map(|t| t.id.clone()).collect();
    assert_eq!(ids, vec!["t1".to_string(), "t2".to_string()]);
}

#[test]
fn enumeration_starts_with_the_solved_schedule() {
    let agents = vec![
        AgentProfile::new("a1", vec!["rust".into()], 1),
        AgentProfile::new("a2", vec!["rust".into()], 1),
    ];
    let tasks = vec![
        TaskSpec::new("t1", vec!["rust".into()]).with_deadline(20).with_duration(10),
        TaskSpec::new("t2", vec!["rust".into()]).with_deadline(20).with_duration(10),
    ];
    let solver = CSPSolver::new();
    let (leaves, _, timed_out) = solver.enumerate_schedules(&agents, &tasks);
    assert!(!timed_out);
    let found = solver.solve(&agents, &tasks).schedule.unwrap();
    assert!(!leaves.is_empty());
    for id in ["t1", "t2"] {
        assert_eq!(leaves[0].get(id).unwrap(), found.get(id).unwrap());
    }
    let none = vec![TaskSpec::new("t9", vec!["go".into()]).with_deadline(20).with_duration(10)];
    assert!(solver.enumerate_schedules(&agents, &none).0.is_empty());
    assert!(solver.solve(&agents, &none).schedule.is_none());
}

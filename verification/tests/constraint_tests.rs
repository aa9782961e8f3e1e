use constraint_schedule::{AgentProfile, Assignment, ConstraintChecker, Constraints, Schedule, TaskSpec};

fn make_agents() -> Vec<AgentProfile> {
    vec![AgentProfile::new("a1", vec!["rust".into()], 2)]
}

fn make_tasks() -> Vec<TaskSpec> {
    vec![TaskSpec::new("t1", vec!["rust".into()]).with_deadline(100).with_duration(10)]
}

#[test]
fn test_default_constraints() {
    let c = Constraints::default();
    assert!(c.capability_match);
    assert!(c.capacity_limits);
    assert!(c.dependency_ordering);
    assert!(c.deadline_enforcement);
}

#[test]
fn test_relaxed_constraints() {
    let c = Constraints::relaxed();
    assert!(!c.capability_match);
    assert!(!c.capacity_limits);
    assert!(!c.dependency_ordering);
    assert!(!c.deadline_enforcement);
}

#[test]
fn test_check_assignment_valid() {
    let checker = ConstraintChecker::new(Constraints::new());
    let agents = make_agents();
    let tasks = make_tasks();
    let schedule = Schedule::new();
    let violations = checker.check_assignment(&tasks[0], &agents[0], &schedule, &tasks);
    assert!(violations.is_empty());
}

#[test]
fn test_check_assignment_capability_mismatch() {
    let checker = ConstraintChecker::new(Constraints::new());
    let agents = make_agents();
    let tasks = vec![TaskSpec::new("t1", vec!["python".into()])];
    let schedule = Schedule::new();
    let violations = checker.check_assignment(&tasks[0], &agents[0], &schedule, &tasks);
    assert!(!violations.is_empty());
    assert_eq!(violations[0].constraint_name, "capability_match");
}

#[test]
fn test_check_assignment_capacity_exceeded() {
    let checker = ConstraintChecker::new(Constraints::new());
    let agents = make_agents();
    let tasks = make_tasks();
    let mut schedule = Schedule::new();
    schedule.assignments.insert(
        "t0a".into(),
        Assignment { agent_id: "a1".into(), start_time: 0, duration: 10 },
    );
    schedule.assignments.insert(
        "t0b".into(),
        Assignment { agent_id: "a1".into(), start_time: 0, duration: 10 },
    );
    let violations = checker.check_assignment(&tasks[0], &agents[0], &schedule, &tasks);
    assert!(violations.iter().any(|v| v.constraint_name == "capacity_limits"));
}

#[test]
fn test_check_schedule_valid() {
    let checker = ConstraintChecker::new(Constraints::new());
    let agents = make_agents();
    let tasks = make_tasks();
    let mut schedule = Schedule::new();
    schedule.assignments.insert(
        "t1".into(),
        Assignment { agent_id: "a1".into(), start_time: 0, duration: 10 },
    );
    let violations = checker.check_schedule(&schedule, &agents, &tasks);
    assert!(violations.is_empty());
}

#[test]
fn test_check_schedule_deadline_violation() {
    let checker = ConstraintChecker::new(Constraints::new());
    let agents = make_agents();
    let tasks = vec![TaskSpec::new("t1", vec!["rust".into()]).with_deadline(5).with_duration(10)];
    let mut schedule = Schedule::new();
    schedule.assignments.insert(
        "t1".into(),
        Assignment { agent_id: "a1".into(), start_time: 0, duration: 10 },
    );
    let violations = checker.check_schedule(&schedule, &agents, &tasks);
    assert!(violations.iter().any(|v| v.constraint_name == "deadline"));
}

#[test]
fn check_assignment_messages() {
    let checker = ConstraintChecker::new(Constraints::new());
    let agents = make_agents();
    let task = TaskSpec::new("t1", vec!["python".into(), "go\"lang".into()])
        .with_deadline(12)
        .with_duration(10)
        .with_dependencies(vec!["t0".into()]);
    let mut schedule = Schedule::new();
    schedule.assign("t0", "a1", 0, 8);
    schedule.assign("t1", "a1", 5, 10);
    schedule.assign("t9", "a1", 12, 20);
    let violations = checker.check_assignment(&task, &agents[0], &schedule, &[]);
    assert_eq!(violations.len(), 4);
    assert_eq!(violations[0].constraint_name, "capability_match");
    assert_eq!(violations[0].message, "Agent a1 lacks capabilities: [\"python\", \"go\\\"lang\"]");
    assert_eq!(violations[1].constraint_name, "capacity_limits");
    assert_eq!(violations[1].message, "Agent a1 at capacity (2/2)");
    assert_eq!(violations[2].constraint_name, "dependency_ordering");
    assert_eq!(violations[2].message, "Task t1 starts at 5 but dependency t0 ends at 8");
    assert_eq!(violations[3].constraint_name, "deadline");
    assert_eq!(violations[3].message, "Task t1 ends at 15 but deadline is 12");
    for v in &violations {
        assert_eq!(v.task_id, "t1");
        assert_eq!(v.agent_id, "a1");
    }
}

#[test]
fn check_assignment_relaxed_reports_nothing() {
    let checker = ConstraintChecker::new(Constraints::relaxed());
    let agents = make_agents();
    let task = TaskSpec::new("t1", vec!["python".into()]).with_deadline(1).with_duration(10);
    let mut schedule = Schedule::new();
    schedule.assign("t1", "a1", 5, 10);
    schedule.assign("t2", "a1", 5, 10);
    assert!(checker.check_assignment(&task, &agents[0], &schedule, &[]).is_empty());
}

#[test]
fn check_schedule_reports_each_kind() {
    let checker = ConstraintChecker::new(Constraints::new());
    let agents = vec![
        AgentProfile::new("a1", vec!["rust".into()], 1),
        AgentProfile::new("a2", vec!["python".into()], 5),
    ];
    let tasks = vec![
        TaskSpec::new("t1", vec!["rust".into()]).with_deadline(100).with_duration(10),
        TaskSpec::new("t2", vec!["rust".into()]).with_deadline(100).with_duration(10)
            .with_dependencies(vec!["t1".into()]),
        TaskSpec::new("t3", vec!["rust".into()]).with_deadline(100).with_duration(10),
        TaskSpec::new("t4", vec!["rust".into()]).with_deadline(100).with_duration(10),
    ];
    let mut schedule = Schedule::new();
    schedule.assign("t1", "a1", 0, 10);
    schedule.assign("t2", "a1", 5, 10);
    schedule.assign("t3", "ghost", 0, 10);
    schedule.assign("t4", "a2", 95, 10);
    schedule.assign("unknown-task", "a1", 0, 1);
    let violations = checker.check_schedule(&schedule, &agents, &tasks);
    let names: Vec<&str> = violations.iter().map(|v| v.constraint_name.as_str()).collect();
    assert_eq!(names, vec!["unknown_agent", "capability_match", "deadline", "capacity_limits", "dependency_ordering"]);
    assert_eq!(violations[0].message, "Unknown agent: ghost");
    assert_eq!(violations[0].task_id, "t3");
    assert_eq!(violations[1].message, "Agent lacks required capabilities");
    assert_eq!(violations[1].task_id, "t4");
    assert_eq!(violations[2].message, "Misses deadline (ends 105 > 100)");
    assert_eq!(violations[3].task_id, "N/A");
    assert_eq!(violations[3].agent_id, "a1");
    assert_eq!(violations[3].message, "Agent has 3 tasks but capacity is 1");
    assert_eq!(violations[4].task_id, "t2");
    assert_eq!(violations[4].message, "Starts 5 before dep t1 ends 10");
    assert!(!schedule.is_valid(&agents, &tasks, &Constraints::new()));
    assert!(!schedule.is_valid(&agents, &tasks, &Constraints::relaxed()));
}

#[test]
fn is_valid_matches_check_schedule() {
    let agents = make_agents();
    let tasks = make_tasks();
    let mut schedule = Schedule::new();
    schedule.assign("t1", "a1", 0, 10);
    assert!(schedule.is_valid(&agents, &tasks, &Constraints::new()));
    schedule.assign("t1", "a1", 95, 10);
    assert!(!schedule.is_valid(&agents, &tasks, &Constraints::new()));
    assert!(schedule.is_valid(&agents, &tasks, &Constraints::relaxed()));
}

#[test]
fn cost_terms_of_a_schedule() {
    let checker = ConstraintChecker::new(Constraints::new());
    let agents = vec![
        AgentProfile::new("a1", vec!["rust".into()], 2),
        AgentProfile::new("a2", vec!["rust".into()], 2),
    ];
    let tasks = vec![
        TaskSpec::new("t1", vec!["rust".into()]).with_deadline(100).with_duration(10),
        TaskSpec::new("t2", vec!["rust".into()]).with_deadline(15).with_duration(10),
    ];
    let mut schedule = Schedule::new();
    schedule.assign("t1", "a2", 0, 10);
    schedule.assign("t2", "a2", 10, 10);
    schedule.assign("tx", "a1", 0, 1);
    schedule.assign("t1b", "nobody", 0, 1);
    let terms = checker.cost_terms(&schedule, &agents, &tasks);
    assert_eq!(terms.preference_pairs, vec![(1, 0), (1, 1)]);
    assert_eq!(terms.agent_loads, vec![2, 1, 1]);
    assert_eq!(terms.slacks, vec![90]);
}

#[test]
fn back_to_back_tasks_fit_capacity_one() {
    let checker = ConstraintChecker::new(Constraints::new());
    let agents = vec![AgentProfile::new("a1", vec!["rust".into()], 1)];
    let tasks = vec![
        TaskSpec::new("t1", vec!["rust".into()]).with_deadline(100).with_duration(10),
        TaskSpec::new("t2", vec!["rust".into()]).with_deadline(100).with_duration(10),
    ];
    let mut schedule = Schedule::new();
    schedule.assign("t1", "a1", 0, 10);
    schedule.assign("t2", "a1", 10, 10);
    assert!(checker.check_schedule(&schedule, &agents, &tasks).is_empty());
    schedule.assign("t2", "a1", 9, 10);
    let violations = checker.check_schedule(&schedule, &agents, &tasks);
    assert_eq!(violations.len(), 1);
    assert_eq!(violations[0].message, "Agent has 2 tasks but capacity is 1");
}

#[test]
fn check_assignment_counts_overlapping_tasks() {
    let checker = ConstraintChecker::new(Constraints::new());
    let agent = AgentProfile::new("a1", vec!["rust".into()], 1);
    let task = TaskSpec::new("t2", vec!["rust".into()]).with_deadline(100).with_duration(10);
    let mut schedule = Schedule::new();
    schedule.assign("t1", "a1", 0, 10);
    schedule.assign("t2", "a1", 10, 10);
    assert!(checker.check_assignment(&task, &agent, &schedule, &[]).is_empty());
    schedule.assign("t2", "a1", 5, 10);
    let violations = checker.check_assignment(&task, &agent, &schedule, &[]);
    assert_eq!(violations.len(), 1);
    assert_eq!(violations[0].message, "Agent a1 at capacity (1/1)");
}

#[test]
fn deadline_violation_only_when_ending_after_deadline() {
    let checker = ConstraintChecker::new(Constraints::new());
    let agents = vec![AgentProfile::new("a1", vec!["rust".into()], 1)];
    let tasks = vec![TaskSpec::new("t1", vec!["rust".into()]).with_deadline(100).with_duration(10)];
    let mut schedule = Schedule::new();
    schedule.assign("t1", "a1", 90, 10);
    assert!(checker.check_schedule(&schedule, &agents, &tasks).is_empty());
    schedule.assign("t1", "a1", 85, 16);
    let violations = checker.check_schedule(&schedule, &agents, &tasks);
    assert_eq!(violations.len(), 1);
    assert_eq!(violations[0].constraint_name, "deadline");
    assert_eq!(violations[0].message, "Misses deadline (ends 101 > 100)");
}

#[test]
fn relaxed_check_reports_only_unknown_agents() {
    let checker = ConstraintChecker::new(Constraints::relaxed());
    let agents = vec![AgentProfile::new("a1", vec!["rust".into()], 1)];
    let tasks = vec![
        TaskSpec::new("t1", vec!["go".into()]).with_deadline(5).with_duration(10),
        TaskSpec::new("t2", vec!["rust".into()]).with_deadline(100).with_duration(10),
    ];
    let mut schedule = Schedule::new();
    schedule.assign("t1", "a1", 0, 10);
    schedule.assign("t2", "ghost", 0, 10);
    let violations = checker.check_schedule(&schedule, &agents, &tasks);
    assert_eq!(violations.len(), 1);
    assert_eq!(violations[0].constraint_name, "unknown_agent");
    assert_eq!(violations[0].task_id, "t2");
}

#[test]
fn missing_dependency_is_no_ordering_violation() {
    let checker = ConstraintChecker::new(Constraints::new());
    let agents = vec![AgentProfile::new("a1", vec!["rust".into()], 2)];
    let tasks = vec![
        TaskSpec::new("t1", vec!["rust".into()]).with_deadline(100).with_duration(10),
        TaskSpec::new("t2", vec!["rust".into()]).with_deadline(100).with_duration(10)
            .with_dependencies(vec!["t1".into()]),
    ];
    let mut schedule = Schedule::new();
    schedule.assign("t2", "a1", 0, 10);
    assert!(checker.check_schedule(&schedule, &agents, &tasks).is_empty());
    schedule.assign("t1", "a1", 0, 10);
    let names: Vec<String> = checker.check_schedule(&schedule, &agents, &tasks).iter().map(|v| v.constraint_name.clone()).collect();
    assert_eq!(names, vec!["dependency_ordering".to_string()]);
    schedule.assign("t2", "a1", 10, 10);
    assert!(checker.check_schedule(&schedule, &agents, &tasks).is_empty());
}

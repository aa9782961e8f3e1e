use constraint_schedule::{IdMap, TaskSpec, TaskState};

#[test]
fn test_new_task() {
    let t = TaskSpec::new("t1", vec!["rust".into()]);
    assert_eq!(t.id, "t1");
    assert_eq!(t.required_capabilities, vec!["rust"]);
    assert_eq!(t.deadline, 0);
    assert_eq!(t.duration_estimate, 1);
    assert!(t.dependencies.is_empty());
    assert_eq!(t.priority, 0);
    assert_eq!(t.state, TaskState::Pending);
}

#[test]
fn test_builder_pattern() {
    let t = TaskSpec::new("t1", vec!["rust".into()])
        .with_deadline(100)
        .with_duration(20)
        .with_dependencies(vec!["t0".into()])
        .with_priority(5);
    assert_eq!(t.deadline, 100);
    assert_eq!(t.duration_estimate, 20);
    assert_eq!(t.dependencies, vec!["t0"]);
    assert_eq!(t.priority, 5);
}

#[test]
fn test_earliest_start_no_deps() {
    let t = TaskSpec::new("t1", vec![]);
    let ct = IdMap::new();
    assert_eq!(t.earliest_start(&ct), 0);
}

#[test]
fn test_earliest_start_with_deps() {
    let t = TaskSpec::new("t1", vec![]).with_dependencies(vec!["t0".into()]);
    let mut ct = IdMap::new();
    ct.insert("t0".to_string(), 50);
    assert_eq!(t.earliest_start(&ct), 50);
}

#[test]
fn test_earliest_start_multiple_deps() {
    let t = TaskSpec::new("t1", vec![]).with_dependencies(vec!["t0".into(), "t0b".into()]);
    let mut ct = IdMap::new();
    ct.insert("t0".to_string(), 30);
    ct.insert("t0b".to_string(), 50);
    assert_eq!(t.earliest_start(&ct), 50);
}

#[test]
fn test_latest_start() {
    let t = TaskSpec::new("t1", vec![]).with_deadline(100).with_duration(20);
    assert_eq!(t.latest_start(), 80);
}

#[test]
fn test_latest_start_overflow() {
    let t = TaskSpec::new("t1", vec![]).with_deadline(5).with_duration(100);
    assert_eq!(t.latest_start(), 0);
}

#[test]
fn test_has_dependencies() {
    let t1 = TaskSpec::new("t1", vec![]);
    assert!(!t1.has_dependencies());
    let t2 = TaskSpec::new("t2", vec![]).with_dependencies(vec!["t1".into()]);
    assert!(t2.has_dependencies());
}

#[test]
fn test_task_state_pending() {
    let s = TaskState::Pending;
    assert!(!s.is_assigned());
    assert!(!s.is_terminal());
}

#[test]
fn test_task_state_assigned() {
    let s = TaskState::Assigned("a1".into());
    assert!(s.is_assigned());
    assert!(!s.is_terminal());
}

#[test]
fn test_task_state_completed() {
    let s = TaskState::Completed;
    assert!(s.is_terminal());
}

#[test]
fn test_task_state_failed() {
    let s = TaskState::Failed;
    assert!(s.is_terminal());
}

#[test]
fn earliest_start_ignores_unrecorded_and_unrelated_times() {
    let t = TaskSpec::new("t1", vec![]).with_dependencies(vec!["a".into(), "missing".into(), "b".into()]);
    let mut ct = IdMap::new();
    ct.insert("a".to_string(), 7);
    ct.insert("b".to_string(), 3);
    ct.insert("other".to_string(), 99);
    assert_eq!(t.earliest_start(&ct), 7);
}

#[test]
fn task_state_in_progress_is_neither() {
    let s = TaskState::InProgress;
    assert!(!s.is_assigned());
    assert!(!s.is_terminal());
}

#[test]
fn latest_start_exact_fit() {
    let t = TaskSpec::new("t", vec![]).with_deadline(30).with_duration(30);
    assert_eq!(t.latest_start(), 0);
    let u = TaskSpec::new("u", vec![]).with_deadline(31).with_duration(30);
    assert_eq!(u.latest_start(), 1);
}

use constraint_schedule::{Assignment, ConflictType, Schedule};

#[test]
fn test_new_schedule() {
    let s = Schedule::new();
    assert!(s.is_empty());
    assert_eq!(s.len(), 0);
}

#[test]
fn test_assign_and_get() {
    let mut s = Schedule::new();
    s.assign("t1", "a1", 0, 10);
    assert!(!s.is_empty());
    assert_eq!(s.len(), 1);
    let a = s.get("t1").unwrap();
    assert_eq!(a.agent_id, "a1");
    assert_eq!(a.start_time, 0);
    assert_eq!(a.duration, 10);
}

#[test]
fn test_unassign() {
    let mut s = Schedule::new();
    s.assign("t1", "a1", 0, 10);
    s.unassign("t1");
    assert!(s.is_empty());
    assert!(s.get("t1").is_none());
}

#[test]
fn test_assignment_end_time() {
    let a = Assignment::new("a1", 10, 20);
    assert_eq!(a.end_time(), 30);
}

#[test]
fn test_no_conflict_different_agents() {
    let mut s = Schedule::new();
    s.assign("t1", "a1", 0, 10);
    s.assign("t2", "a2", 5, 10);
    assert!(s.find_conflicts().is_empty());
}

#[test]
fn test_no_conflict_same_agent_no_overlap() {
    let mut s = Schedule::new();
    s.assign("t1", "a1", 0, 10);
    s.assign("t2", "a1", 10, 10);
    assert!(s.find_conflicts().is_empty());
}

#[test]
fn test_conflict_same_agent_overlap() {
    let mut s = Schedule::new();
    s.assign("t1", "a1", 0, 10);
    s.assign("t2", "a1", 5, 10);
    let conflicts = s.find_conflicts();
    assert_eq!(conflicts.len(), 1);
    assert_eq!(conflicts[0].conflict_type, ConflictType::TimeOverlap);
}

#[test]
fn reassigning_replaces_the_assignment() {
    let mut s = Schedule::new();
    s.assign("t1", "a1", 0, 10);
    s.assign("t2", "a2", 0, 10);
    s.assign("t1", "a3", 5, 7);
    assert_eq!(s.len(), 2);
    let a = s.get("t1").unwrap();
    assert_eq!(a.agent_id, "a3");
    assert_eq!(a.start_time, 5);
    assert_eq!(a.duration, 7);
    assert_eq!(s.get("t2").unwrap().agent_id, "a2");
    assert_eq!(s.assignments.key_at(0), "t1");
}

#[test]
fn unassigning_an_absent_task_changes_nothing() {
    let mut s = Schedule::new();
    s.assign("t1", "a1", 0, 10);
    s.unassign("t9");
    assert_eq!(s.len(), 1);
    assert!(s.get("t1").is_some());
}

#[test]
fn conflict_lists_both_tasks_and_message() {
    let mut s = Schedule::new();
    s.assign("t1", "a1", 0, 10);
    s.assign("t2", "a1", 9, 10);
    s.assign("t3", "a1", 30, 1);
    let conflicts = s.find_conflicts();
    assert_eq!(conflicts.len(), 1);
    assert_eq!(conflicts[0].task_ids.0, "t1");
    assert_eq!(conflicts[0].task_ids.1, "t2");
    assert_eq!(conflicts[0].agent_id, "a1");
    assert_eq!(conflicts[0].message, "Tasks t1 and t2 overlap for agent a1");
}

#[test]
fn copy_keeps_every_assignment() {
    let mut s = Schedule::new();
    s.assign("t1", "a1", 0, 10);
    s.assign("t2", "a2", 3, 4);
    let c = s.clone();
    assert_eq!(c.len(), 2);
    assert_eq!(c.get("t2").unwrap().start_time, 3);
    assert_eq!(c.assignments.key_at(1), "t2");
}

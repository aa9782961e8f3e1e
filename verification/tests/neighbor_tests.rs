use constraint_schedule::{apply_move, generate_neighbor, AgentProfile, MoveKind, Schedule, TaskSpec};

fn setup() -> (Vec<AgentProfile>, Vec<TaskSpec>, Schedule) {
    let agents = vec![
        AgentProfile::new("a1", vec!["rust".into()], 2),
        AgentProfile::new("a2", vec!["rust".into()], 2),
    ];
    let tasks = vec![
        TaskSpec::new("t1", vec!["rust".into()]).with_deadline(100).with_duration(10),
        TaskSpec::new("t2", vec!["rust".into()]).with_deadline(100).with_duration(10),
    ];
    let mut schedule = Schedule::new();
    schedule.assign("t1", "a2", 0, 10);
    schedule.assign("t2", "a2", 10, 20);
    (agents, tasks, schedule)
}

#[test]
fn neighbors_keep_the_tasks() {
    let (agents, tasks, schedule) = setup();
    let mut rng = rand::rng();
    for kind in [MoveKind::Reassign, MoveKind::Shift, MoveKind::Swap] {
        for _ in 0..50 {
            let n = generate_neighbor(&schedule, &agents, &tasks, kind, &mut rng);
            assert_eq!(n.len(), 2);
            assert_eq!(n.assignments.key_at(0), "t1");
            assert_eq!(n.assignments.key_at(1), "t2");
            assert_eq!(n.get("t1").unwrap().duration, 10);
            assert_eq!(n.get("t2").unwrap().duration, 20);
        }
    }
}

#[test]
fn shifts_stay_within_ten_and_the_deadline() {
    let (agents, tasks, schedule) = setup();
    let mut rng = rand::rng();
    let mut moved = false;
    for _ in 0..200 {
        let n = generate_neighbor(&schedule, &agents, &tasks, MoveKind::Shift, &mut rng);
        let s1 = n.get("t1").unwrap().start_time;
        let s2 = n.get("t2").unwrap().start_time;
        assert!(s1 <= 10);
        assert!(s2 <= 20);
        assert!(s1 + 10 <= 100);
        if s1 != 0 || s2 != 10 {
            moved = true;
        }
        assert_eq!(n.get("t1").unwrap().agent_id, "a2");
    }
    assert!(moved);
}

#[test]
fn reassignment_uses_capable_agents() {
    let (agents, tasks, schedule) = setup();
    let mut rng = rand::rng();
    let mut seen_a1 = false;
    for _ in 0..200 {
        let n = generate_neighbor(&schedule, &agents, &tasks, MoveKind::Reassign, &mut rng);
        for id in ["t1", "t2"] {
            let a = &n.get(id).unwrap().agent_id;
            assert!(a == "a1" || a == "a2");
            if a == "a1" {
                seen_a1 = true;
            }
        }
    }
    assert!(seen_a1);
}

#[test]
fn empty_schedule_is_its_own_neighbor() {
    let (agents, tasks, _) = setup();
    let mut rng = rand::rng();
    let n = generate_neighbor(&Schedule::new(), &agents, &tasks, MoveKind::Swap, &mut rng);
    assert!(n.is_empty());
}

#[test]
fn apply_move_makes_the_drawn_move() {
    let agents = vec![
        AgentProfile::new("a1", vec!["rust".into()], 2),
        AgentProfile::new("a2", vec!["rust".into()], 2),
    ];
    let tasks = vec![
        TaskSpec::new("t1", vec!["rust".into()]).with_deadline(100).with_duration(10),
        TaskSpec::new("t2", vec!["rust".into()]).with_deadline(100).with_duration(10),
    ];
    let mut s = Schedule::new();
    s.assign("t1", "a1", 20, 10);
    s.assign("t2", "a2", 90, 10);

    let r = apply_move(&s, &agents, &tasks, MoveKind::Reassign, 0, 0, 1, 0);
    assert_eq!(r.get("t1").unwrap().agent_id, "a2");
    assert_eq!(r.get("t1").unwrap().start_time, 20);
    let r = apply_move(&s, &agents, &tasks, MoveKind::Reassign, 0, 0, 0, 0);
    assert_eq!(r.get("t1").unwrap().agent_id, "a1");

    let r = apply_move(&s, &agents, &tasks, MoveKind::Shift, 0, 0, 0, -5);
    assert_eq!(r.get("t1").unwrap().start_time, 15);
    let r = apply_move(&s, &agents, &tasks, MoveKind::Shift, 1, 0, 0, 5);
    assert_eq!(r.get("t2").unwrap().start_time, 90);
    let r = apply_move(&s, &agents, &tasks, MoveKind::Shift, 1, 0, 0, -10);
    assert_eq!(r.get("t2").unwrap().start_time, 80);

    let r = apply_move(&s, &agents, &tasks, MoveKind::Swap, 0, 1, 0, 0);
    assert_eq!(r.get("t1").unwrap().agent_id, "a2");
    assert_eq!(r.get("t2").unwrap().agent_id, "a1");
    assert_eq!(r.get("t1").unwrap().start_time, 20);
    let r = apply_move(&s, &agents, &tasks, MoveKind::Swap, 1, 1, 0, 0);
    assert_eq!(r.get("t2").unwrap().agent_id, "a2");
}

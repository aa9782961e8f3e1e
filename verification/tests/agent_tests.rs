use constraint_schedule::AgentProfile;

fn make_agent() -> AgentProfile {
    AgentProfile::new("agent-1", vec!["rust".into(), "python".into()], 3).with_load(1)
}

#[test]
fn test_new_agent() {
    let a = AgentProfile::new("a", vec!["x".into()], 2);
    assert_eq!(a.id, "a");
    assert_eq!(a.capabilities, vec!["x"]);
    assert_eq!(a.capacity, 2);
    assert_eq!(a.current_load, 0);
}

#[test]
fn test_has_capability() {
    let a = make_agent();
    assert!(a.has_capability("rust"));
    assert!(a.has_capability("python"));
    assert!(!a.has_capability("java"));
}

#[test]
fn test_has_capabilities() {
    let a = make_agent();
    assert!(a.has_capabilities(&["rust".into()]));
    assert!(a.has_capabilities(&["rust".into(), "python".into()]));
    assert!(!a.has_capabilities(&["rust".into(), "java".into()]));
}

#[test]
fn test_remaining_capacity() {
    let a = make_agent();
    assert_eq!(a.remaining_capacity(), 2);
    assert!(a.has_capacity());
}

#[test]
fn test_zero_capacity() {
    let a = AgentProfile::new("a", vec![], 2).with_load(2);
    assert_eq!(a.remaining_capacity(), 0);
    assert!(!a.has_capacity());
}

#[test]
fn test_overflow_capacity() {
    let a = AgentProfile::new("a", vec![], 1).with_load(5);
    assert_eq!(a.remaining_capacity(), 0);
}

#[test]
fn test_empty_agent() {
    let a = AgentProfile::new("empty", vec![], 0);
    assert!(!a.has_capability("anything"));
    assert_eq!(a.remaining_capacity(), 0);
    assert!(!a.has_capacity());
}

#[test]
fn no_skills_required_is_always_met() {
    let a = AgentProfile::new("a", vec![], 1);
    assert!(a.has_capabilities(&[]));
}

#[test]
fn capability_match_is_exact() {
    let a = AgentProfile::new("a", vec!["rust".into()], 1);
    assert!(!a.has_capability("Rust"));
    assert!(!a.has_capability("rus"));
    assert!(!a.has_capability(""));
}

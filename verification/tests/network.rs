use ternary_trust::{TrustEvent, TrustNetwork};

#[test]
fn test_network_basic() {
    let mut net = TrustNetwork::with_agents(&["alice", "bob", "carol"]);
    assert_eq!(net.agent_count(), 3);

    net.apply_event("alice", "bob", TrustEvent::Cooperate(20));
    let rel = net.trust_between("alice", "bob").unwrap();
    assert_eq!(rel.a_trusts_b, 20);

    // Reverse direction still 0
    assert_eq!(rel.b_trusts_a, 0);
}

#[test]
fn test_network_most_least_trusted() {
    let mut net = TrustNetwork::with_agents(&["alice", "bob", "carol"]);
    net.apply_event("alice", "bob", TrustEvent::Cooperate(30));
    net.apply_event("carol", "bob", TrustEvent::Cooperate(20));
    assert_eq!(net.most_trusted().unwrap(), "bob");

    net.apply_event("alice", "carol", TrustEvent::Betray(-40));
    net.apply_event("bob", "carol", TrustEvent::Defect(-10));
    assert_eq!(net.least_trusted().unwrap(), "carol");
}

#[test]
fn test_network_mutual_trust() {
    let mut net = TrustNetwork::with_agents(&["alice", "bob"]);
    net.apply_event("alice", "bob", TrustEvent::Cooperate(20));
    net.apply_event("bob", "alice", TrustEvent::Cooperate(10));
    let rel = net.trust_between("alice", "bob").unwrap();
    let mt = (rel.a_trusts_b as f64 + rel.b_trusts_a as f64) / 2.0;
    assert_eq!(mt, 15.0); // (20 + 10) / 2
}

#[test]
fn test_network_trust_circle() {
    let mut net = TrustNetwork::with_agents(&["alice", "bob", "carol", "dave"]);
    net.apply_event("alice", "bob", TrustEvent::Cooperate(30));
    net.apply_event("bob", "alice", TrustEvent::Cooperate(30));
    net.apply_event("alice", "carol", TrustEvent::Cooperate(10));
    net.apply_event("carol", "alice", TrustEvent::Cooperate(10));
    // dave stays neutral; a mutual trust of at least 10.0 is a pair sum of at least 20
    let circle = net.trust_circle_by_sum("alice", 20);
    assert!(circle.contains(&"bob"));
    assert!(circle.contains(&"carol"));
    assert!(!circle.contains(&"dave"));
}

#[test]
fn test_network_symmetric_lookup() {
    let mut net = TrustNetwork::with_agents(&["bob", "alice"]);
    net.apply_event("bob", "alice", TrustEvent::Cooperate(25));
    let ab = net.trust_between("alice", "bob").unwrap().clone();
    let ba = net.trust_between("bob", "alice").unwrap().clone();
    assert_eq!(ab, ba);
    // "alice" < "bob", so side A is alice: bob's trust in alice is b_trusts_a
    assert_eq!(ab.b_trusts_a, 25);
    assert_eq!(ab.a_trusts_b, 0);
}

#[test]
fn test_network_unknown_and_self() {
    let mut net = TrustNetwork::with_agents(&["alice", "bob"]);
    assert!(net.trust_between("alice", "alice").is_none());
    assert!(net.trust_between("alice", "zed").is_none());
    net.apply_event("alice", "zed", TrustEvent::Cooperate(50));
    net.apply_event("alice", "alice", TrustEvent::Cooperate(50));
    let rel = net.trust_between("alice", "bob").unwrap();
    assert_eq!((rel.a_trusts_b, rel.b_trusts_a), (0, 0));
    assert_eq!(net.reputation_totals("zed"), (0, 0));
}

#[test]
fn test_network_add_agent_idempotent() {
    let mut net = TrustNetwork::new();
    assert_eq!(net.agent_count(), 0);
    assert!(net.most_trusted().is_none());
    assert!(net.least_trusted().is_none());
    net.add_agent("alice");
    net.add_agent("bob");
    net.apply_event("alice", "bob", TrustEvent::Cooperate(40));
    net.add_agent("alice");
    assert_eq!(net.agent_count(), 2);
    assert_eq!(net.trust_between("alice", "bob").unwrap().a_trusts_b, 40);
    net.add_agent("carol");
    assert_eq!(net.agent_count(), 3);
    let rel = net.trust_between("carol", "alice").unwrap();
    assert_eq!((rel.a_trusts_b, rel.b_trusts_a), (0, 0));
    assert_eq!(net.agent_names(), vec!["alice", "bob", "carol"]);
}

#[test]
fn test_network_with_duplicate_names() {
    let net = TrustNetwork::with_agents(&["a", "b", "a", "c", "b"]);
    assert_eq!(net.agent_count(), 3);
    assert_eq!(net.agent_names(), vec!["a", "b", "c"]);
}

#[test]
fn test_network_clamps_events() {
    let mut net = TrustNetwork::with_agents(&["x", "y"]);
    net.apply_event("y", "x", TrustEvent::Betray(-300));
    assert_eq!(net.trust_between("x", "y").unwrap().b_trusts_a, -100);
    net.apply_event("x", "y", TrustEvent::Cooperate(300));
    assert_eq!(net.trust_between("x", "y").unwrap().a_trusts_b, 100);
}

#[test]
fn test_network_trust_between_mut() {
    let mut net = TrustNetwork::with_agents(&["alice", "bob"]);
    {
        let rel = net.trust_between_mut("bob", "alice").unwrap();
        rel.a_trusts_b = 7;
        rel.b_trusts_a = -3;
    }
    let rel = net.trust_between("alice", "bob").unwrap();
    assert_eq!((rel.a_trusts_b, rel.b_trusts_a), (7, -3));
    assert!(net.trust_between_mut("alice", "nobody").is_none());
}

#[test]
fn test_network_reputation_totals() {
    let mut net = TrustNetwork::with_agents(&["alice", "bob", "carol"]);
    net.apply_event("alice", "bob", TrustEvent::Cooperate(30));
    net.apply_event("carol", "bob", TrustEvent::Cooperate(20));
    net.apply_event("bob", "alice", TrustEvent::Defect(-10));
    assert_eq!(net.reputation_totals("bob"), (50, 2));
    assert_eq!(net.reputation_totals("alice"), (-10, 2));
    assert_eq!(net.reputation_totals("carol"), (0, 2));
}

#[test]
fn test_network_ties() {
    // all neutral: most trusted is the last registered, least the first
    let net = TrustNetwork::with_agents(&["m", "a", "z"]);
    assert_eq!(net.most_trusted().unwrap(), "z");
    assert_eq!(net.least_trusted().unwrap(), "m");
}

#[test]
fn test_network_exact_average_order() {
    // bob: (1 + 0) / 2 = 0.5, carol: (1 + 1 + 0) ... compare 1/2 against 2/3
    let mut net = TrustNetwork::with_agents(&["alice", "bob", "carol", "dave"]);
    net.apply_event("alice", "bob", TrustEvent::Cooperate(1));
    net.apply_event("alice", "carol", TrustEvent::Cooperate(1));
    net.apply_event("dave", "carol", TrustEvent::Cooperate(1));
    net.apply_event("bob", "carol", TrustEvent::Ignore(-1));
    net.apply_event("carol", "bob", TrustEvent::Cooperate(1));
    // bob: 1 + 1 + 0 = 2 / 3; carol: 1 + 1 - 1 = 1 / 3
    assert_eq!(net.reputation_totals("bob"), (2, 3));
    assert_eq!(net.reputation_totals("carol"), (1, 3));
    assert_eq!(net.most_trusted().unwrap(), "bob");
    net.apply_event("alice", "dave", TrustEvent::Betray(-1));
    assert_eq!(net.least_trusted().unwrap(), "dave");
}

#[test]
fn test_network_circle_without_registration() {
    let net = TrustNetwork::with_agents(&["a", "b"]);
    // an unknown agent has no relations: every agent counts as zero
    assert_eq!(net.trust_circle_by_sum("q", 0), vec!["a", "b"]);
    assert!(net.trust_circle_by_sum("q", 1).is_empty());
    assert_eq!(net.trust_circle_by_sum("a", 0), vec!["b"]);
}

#[test]
fn test_network_extreme_impacts_clamp() {
    let mut net = TrustNetwork::with_agents(&["x", "y"]);
    net.apply_event("x", "y", TrustEvent::Cooperate(i32::MAX));
    net.apply_event("y", "x", TrustEvent::Betray(i32::MIN));
    let rel = net.trust_between("x", "y").unwrap();
    assert_eq!((rel.a_trusts_b, rel.b_trusts_a), (100, -100));
}

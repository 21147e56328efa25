use shardring::health::{
    first_healthy, health_stats, initial_health, remove_nodes_with_id, set_node_weight,
    CheckOutcome,
};
use shardring::{
    CompactRing, ConsistentHashError, DefaultHash, HealthConfig, HealthStatus, Node, NodeHealth,
    RingConfig,
};
use std::time::Instant;

#[test]
fn checks_move_health_by_thresholds() {
    let config = HealthConfig::default();
    assert_eq!(config.healthy_threshold, 2);
    assert_eq!(config.unhealthy_threshold, 3);
    assert_eq!(config.check_interval, std::time::Duration::from_secs(10));
    let mut h = NodeHealth::default();
    assert_eq!(h.status, HealthStatus::Unknown);
    h.record_check(CheckOutcome::Passed, &config, Instant::now());
    assert_eq!(h.status, HealthStatus::Unknown);
    assert_eq!(h.consecutive_successes, 1);
    h.record_check(CheckOutcome::Passed, &config, Instant::now());
    assert_eq!(h.status, HealthStatus::Healthy);
    h.record_check(CheckOutcome::Failed("refused".to_string()), &config, Instant::now());
    assert_eq!(h.status, HealthStatus::Healthy);
    assert_eq!(h.consecutive_successes, 0);
    assert_eq!(h.last_error.as_deref(), Some("refused"));
    h.record_check(CheckOutcome::TimedOut, &config, Instant::now());
    h.record_check(CheckOutcome::TimedOut, &config, Instant::now());
    assert_eq!(h.status, HealthStatus::Unhealthy);
    assert_eq!(h.consecutive_failures, 3);
    assert_eq!(h.last_error.as_deref(), Some("timeout"));
    assert!(h.last_check.is_some());
    h.record_check(CheckOutcome::Passed, &config, Instant::now());
    assert_eq!(h.last_error, None);
    assert_eq!(h.status, HealthStatus::Unhealthy);
}

fn ring() -> CompactRing<DefaultHash> {
    CompactRing::new(
        vec![Node::new("a", 1), Node::new("b", 1), Node::new("c", 1)],
        RingConfig::default(),
        DefaultHash,
    )
    .unwrap()
}

#[test]
fn only_healthy_nodes_answer() {
    let ring = ring();
    let mut health = initial_health(ring.nodes());
    assert!(matches!(
        first_healthy(&ring, &health, b"key"),
        Err(ConsistentHashError::EmptyRing)
    ));
    let mut b = NodeHealth::default();
    b.status = HealthStatus::Healthy;
    health.insert("b", b);
    for i in 0..50 {
        let key = format!("key-{}", i);
        assert_eq!(first_healthy(&ring, &health, key.as_bytes()).unwrap().id, "b");
    }
}

#[test]
fn healthy_owner_answers_itself() {
    let ring = ring();
    let mut health = initial_health(ring.nodes());
    for id in ["a", "b", "c"] {
        let mut h = NodeHealth::default();
        h.status = HealthStatus::Healthy;
        health.insert(id, h);
    }
    for i in 0..50 {
        let key = format!("key-{}", i);
        assert_eq!(
            first_healthy(&ring, &health, key.as_bytes()).unwrap().id,
            ring.get(key.as_bytes()).unwrap().id
        );
    }
}

#[test]
fn stats_count_statuses() {
    let ring = ring();
    let mut health = initial_health(ring.nodes());
    let mut h = NodeHealth::default();
    h.status = HealthStatus::Unhealthy;
    health.insert("c", h);
    let st = health_stats(&ring, &health);
    assert_eq!(st.total_nodes, 3);
    assert_eq!(st.unknown_count, 2);
    assert_eq!(st.unhealthy_count, 1);
    assert_eq!(st.healthy_count, 0);
    assert_eq!(st.ring_stats.node_count, 3);
}

#[test]
fn membership_changes() {
    let mut nodes = vec![Node::new("a", 1), Node::new("b", 2), Node::new("a", 3)];
    assert!(set_node_weight(&mut nodes, "a", 9).is_ok());
    assert_eq!(nodes[0].weight, 9);
    assert_eq!(nodes[2].weight, 3);
    match set_node_weight(&mut nodes, "zz", 1) {
        Err(ConsistentHashError::NodeNotFound(id)) => assert_eq!(id, "zz"),
        _ => panic!("expected NodeNotFound"),
    }
    remove_nodes_with_id(&mut nodes, "a");
    assert_eq!(nodes.len(), 1);
    assert_eq!(nodes[0].id, "b");
}

use shardring::migration::{generate_migration_plan, rollout_admits, MIGRATION_SAMPLE_KEYS};
use shardring::{
    CompactRing, ConsistentHashError, DefaultHash, DualRing, MigrationConfig, MigrationStrategy,
    Node, RingConfig,
};

fn create_test_rings() -> (CompactRing<DefaultHash>, CompactRing<DefaultHash>) {
    let nodes = vec![
        Node::new("n1", 100),
        Node::new("n2", 200),
        Node::new("n3", 300),
    ];

    let old_config = RingConfig {
        base_hashes_per_node: 100,
        target_cv_ppm: 100_000,
        ..Default::default()
    };

    let new_config = RingConfig {
        base_hashes_per_node: 160,
        target_cv_ppm: 80_000,
        ..Default::default()
    };

    let old = CompactRing::new(nodes.clone(), old_config, DefaultHash).unwrap();
    let new = CompactRing::new(nodes, new_config, DefaultHash).unwrap();

    (old, new)
}

#[test]
fn test_dual_ring_creation() {
    let (old, new) = create_test_rings();
    let mut dual = DualRing::new(old, new, MigrationConfig::default()).unwrap();

    let node = dual.get(b"test").unwrap();
    assert!(["n1", "n2", "n3"].contains(&node.id.as_str()));
}

#[test]
fn test_hash_based_rollout() {
    let (old, new) = create_test_rings();
    let config = MigrationConfig {
        strategy: MigrationStrategy::HashBased,
        rollout_ppm: 500_000,
        ..Default::default()
    };

    let mut dual = DualRing::new(old, new, config).unwrap();

    let keys = 10_000;
    for i in 0..keys {
        let key = format!("key-{}", i);
        dual.get(key.as_bytes()).unwrap();
    }

    let metrics = dual.metrics();
    assert_eq!(metrics.old_ring_requests + metrics.new_ring_requests, keys);
    let new_share = metrics.new_ring_requests as f64 / keys as f64;
    assert!(
        (0.45..0.55).contains(&new_share),
        "rollout of 0.5 routed {:.1}% to the new ring",
        new_share * 100.0
    );
}

#[test]
fn test_rollout_is_stable_per_key() {
    let (old, new) = create_test_rings();
    let mut dual = DualRing::builder(old, new)
        .strategy(MigrationStrategy::HashBased)
        .rollout_percentage(300_000)
        .build()
        .unwrap();

    for i in 0..1_000 {
        let key = format!("key-{}", i);
        let first = dual.get(key.as_bytes()).unwrap().id.clone();
        assert_eq!(dual.get(key.as_bytes()).unwrap().id, first);
    }
}

#[test]
fn test_datacenter_rollout() {
    let (old, new) = create_test_rings();
    let config = MigrationConfig {
        strategy: MigrationStrategy::Datacenter,
        datacenter_allowlist: vec!["dc1".to_string(), "dc2".to_string()],
        ..Default::default()
    };

    let mut dual = DualRing::new(old, new, config).unwrap();

    for i in 0..500 {
        let key = format!("key-{}", i);
        dual.get_with_datacenter(key.as_bytes(), "dc1").unwrap();
        dual.get_with_datacenter(key.as_bytes(), "dc3").unwrap();
    }

    let metrics = dual.metrics();
    assert_eq!(metrics.new_ring_requests, 500);
    assert_eq!(metrics.old_ring_requests, 500);
}

#[test]
fn test_shadow_mode() {
    let (old, new) = create_test_rings();
    let config = MigrationConfig {
        enable_shadow_mode: true,
        ..Default::default()
    };

    let mut dual = DualRing::new(old, new, config).unwrap();

    let (old_node, new_node) = dual.get_shadow(b"test").unwrap();
    let (old_id, new_id) = (old_node.id.clone(), new_node.id.clone());
    assert_eq!(old_id, dual.old_ring().get(b"test").unwrap().id);
    assert_eq!(new_id, dual.new_ring().get(b"test").unwrap().id);
}

#[test]
fn test_migration_plan() {
    let nodes = vec![Node::new("n1", 100), Node::new("n2", 200)];

    let old_config = RingConfig {
        base_hashes_per_node: 100,
        ..Default::default()
    };
    let new_config = RingConfig {
        base_hashes_per_node: 160,
        ..Default::default()
    };

    let plan = generate_migration_plan(&old_config, &new_config, &nodes);

    assert_eq!(plan.node_changes.len(), 2);
    let pct = plan.sample_keys_moved as f64 / MIGRATION_SAMPLE_KEYS as f64 * 100.0;
    assert!(pct >= 0.0 && pct <= 100.0);
}

// ---------------------------------------------------------------------------

#[test]
fn mismatched_rings_are_refused() {
    let (old, _) = create_test_rings();
    let other = CompactRing::new(
        vec![Node::new("n1", 1), Node::new("n2", 1)],
        RingConfig::default(),
        DefaultHash,
    )
    .unwrap();
    match DualRing::new(old, other, MigrationConfig::default()) {
        Err(ConsistentHashError::MigrationInProgress(m)) => {
            assert_eq!(m, "Node count mismatch between rings")
        }
        _ => panic!("expected a count mismatch"),
    }
    let (old, _) = create_test_rings();
    let renamed = CompactRing::new(
        vec![Node::new("n1", 1), Node::new("x", 1), Node::new("n3", 1)],
        RingConfig::default(),
        DefaultHash,
    )
    .unwrap();
    match DualRing::new(old, renamed, MigrationConfig::default()) {
        Err(ConsistentHashError::MigrationInProgress(m)) => {
            assert_eq!(m, "Node ID mismatch between rings")
        }
        _ => panic!("expected an id mismatch"),
    }
}

#[test]
fn rollout_rule_at_its_edges() {
    assert!(!rollout_admits(0, 0));
    assert!(rollout_admits(0, 1));
    assert!(rollout_admits(u64::MAX / 2, 500_001));
    assert!(!rollout_admits(u64::MAX / 2 + 1, 500_000));
    assert!(rollout_admits(u64::MAX - 1, 1_000_000));
    assert!(!rollout_admits(u64::MAX, 1_000_000));
}

#[test]
fn zero_and_full_rollouts() {
    let (old, new) = create_test_rings();
    let mut dual = DualRing::new(old, new, MigrationConfig::default()).unwrap();
    for i in 0..200 {
        dual.get(format!("key-{}", i).as_bytes()).unwrap();
    }
    assert_eq!(dual.metrics().new_ring_requests, 0);
    assert!(!dual.is_fully_migrated());
    dual.set_rollout(5_000_000);
    assert_eq!(dual.rollout_percentage(), 1_000_000);
    assert!(dual.is_fully_migrated());
    dual.reset_metrics();
    for i in 0..200 {
        dual.get(format!("key-{}", i).as_bytes()).unwrap();
    }
    assert_eq!(dual.metrics().new_ring_requests, 200);
    assert_eq!(dual.metrics().old_ring_requests, 0);
}

#[test]
fn datacenter_strategy_with_a_list_is_fully_migrated() {
    let (old, new) = create_test_rings();
    let mut dual = DualRing::builder(old, new)
        .strategy(MigrationStrategy::Datacenter)
        .datacenter_allowlist(vec!["dc1".to_string()])
        .enable_shadow_mode(true)
        .build()
        .unwrap();
    assert!(dual.is_fully_migrated());
    dual.get(b"no-datacenter").unwrap();
    assert_eq!(dual.metrics().old_ring_requests, 1);
    let mut config = MigrationConfig::default();
    config.rollout_ppm = 1_000_000;
    dual.update_config(config);
    assert!(dual.is_fully_migrated());
    let (a, b) = dual.into_inner();
    assert_eq!(a.nodes().len(), b.nodes().len());
}

#[test]
fn shadow_mismatches_are_counted() {
    let (old, new) = create_test_rings();
    let config = MigrationConfig {
        enable_shadow_mode: true,
        ..Default::default()
    };
    let mut dual = DualRing::new(old, new, config).unwrap();
    let mut disagreements = 0;
    for i in 0..300 {
        let key = format!("key-{}", i);
        let (a, b) = dual.get_shadow(key.as_bytes()).unwrap();
        if a.id != b.id {
            disagreements += 1;
        }
    }
    assert_eq!(dual.metrics().shadow_mismatches, disagreements);
}

#[test]
fn plan_counts_points_per_node() {
    let nodes = vec![Node::new("n1", 1), Node::new("n2", 3)];
    let config = RingConfig::default();
    let plan = generate_migration_plan(&config, &config, &nodes);
    assert_eq!(plan.sample_keys_moved, 0);
    assert_eq!(plan.old_stats.total_points, plan.new_stats.total_points);
    assert_eq!(plan.node_changes[0].node_id, "n1");
    assert_eq!(plan.node_changes[0].old_hash_count, 26);
    assert_eq!(plan.node_changes[1].new_hash_count, 79);
    assert_eq!(plan.node_changes[1].hash_delta, 0);
    assert_eq!(plan.old_stats.memory_bytes, 6 * (26 + 79));
}

#[test]
fn raising_the_rollout_only_moves_keys_to_the_new_ring() {
    let (old, new) = create_test_rings();
    let mut dual = DualRing::builder(old, new)
        .rollout_percentage(200_000)
        .build()
        .unwrap();
    let keys: Vec<String> = (0..500).map(|i| format!("key-{}", i)).collect();
    let mut on_new_before = Vec::new();
    for k in &keys {
        let before = dual.metrics().new_ring_requests;
        dual.get(k.as_bytes()).unwrap();
        on_new_before.push(dual.metrics().new_ring_requests > before);
    }
    dual.set_rollout(600_000);
    let mut moved_back = 0;
    let mut moved_forward = 0;
    for (k, was_new) in keys.iter().zip(on_new_before) {
        let before = dual.metrics().new_ring_requests;
        dual.get(k.as_bytes()).unwrap();
        let is_new = dual.metrics().new_ring_requests > before;
        if was_new && !is_new {
            moved_back += 1;
        }
        if !was_new && is_new {
            moved_forward += 1;
        }
    }
    assert_eq!(moved_back, 0);
    assert!(moved_forward > 0);
}

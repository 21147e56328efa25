use shardring::{
    BoundedConfig, BoundedRing, CompactRing, ConsistentHashError, DefaultHash, LoadTracker, Node,
};

fn create_test_ring() -> CompactRing<DefaultHash> {
    let nodes = vec![
        Node::new("node1", 100),
        Node::new("node2", 100),
        Node::new("node3", 100),
    ];
    CompactRing::builder().add_nodes(nodes).build().unwrap()
}

#[test]
fn test_bounded_load_basic() {
    let ring = create_test_ring();
    let bounded = BoundedRing::builder(ring)
        .max_load_factor(1_500_000)
        .build()
        .unwrap();

    let node = bounded.get(b"test-key").unwrap();
    assert!(["node1", "node2", "node3"].contains(&node.id.as_str()));
}

#[test]
fn test_bounded_load_overload_protection() {
    let ring = create_test_ring();
    let mut bounded = BoundedRing::builder(ring)
        .max_load_factor(1_000_000)
        .max_probes(100)
        .build()
        .unwrap();

    bounded.acquire("node1");
    bounded.acquire("node1");
    bounded.acquire("node1");

    let mut skipped = 0;
    for i in 0..100 {
        let key = format!("hot-key-{}", i);
        let node = bounded.get(key.as_bytes()).unwrap();
        if node.id != "node1" {
            skipped += 1;
        }
    }
    assert!(
        skipped > 50,
        "Overloaded node should be skipped for most keys"
    );
}

#[test]
fn test_bounded_load_unhealthy() {
    let ring = create_test_ring();
    let mut bounded = BoundedRing::builder(ring).build().unwrap();

    bounded.set_healthy("node1", false);
    bounded.set_healthy("node2", false);

    let node = bounded.get(b"test").unwrap();
    assert_eq!(node.id, "node3");
}

#[test]
fn test_bounded_load_disabled() {
    let ring = create_test_ring();
    let mut bounded = BoundedRing::builder(ring).disabled().build().unwrap();

    bounded.acquire("node1");
    bounded.acquire("node1");

    let _node = bounded.get(b"test").unwrap();
}

#[test]
fn test_bounded_stats() {
    let ring = create_test_ring();
    let mut bounded = BoundedRing::builder(ring)
        .max_load_factor(1_500_000)
        .build()
        .unwrap();

    bounded.acquire("node1");
    bounded.acquire("node1");

    let stats = bounded.stats();
    assert_eq!(stats.healthy_count, 3);
    assert_eq!(stats.total_load, 2);
    assert!(stats
        .node_loads
        .iter()
        .any(|n| n.node_id == "node1" && n.load == 2));
}

#[test]
fn test_get_n_distinct() {
    let ring = create_test_ring();
    let bounded = BoundedRing::builder(ring).build().unwrap();

    let nodes = bounded.get_n(b"test", 2).unwrap();
    assert_eq!(nodes.len(), 2);
    assert_ne!(nodes[0].id, nodes[1].id);
}

// ---------------------------------------------------------------------------

#[test]
fn load_tracker_counts_known_ids_and_wraps() {
    let ids = vec!["a".to_string(), "b".to_string(), "a".to_string()];
    let mut t = LoadTracker::new(&ids);
    assert_eq!(t.total_load(), 0);
    t.acquire("a");
    t.acquire("a");
    t.acquire("b");
    t.acquire("zzz");
    assert_eq!(t.get_load("a"), 2);
    assert_eq!(t.get_load("b"), 1);
    assert_eq!(t.get_load("zzz"), 0);
    assert_eq!(t.total_load(), 3);
    t.release("b");
    t.release("b");
    assert_eq!(t.get_load("b"), u64::MAX);
    // 2 + (2^64 - 1), modulo 2^64.
    assert_eq!(t.total_load(), 1);
    let all = t.get_all_loads();
    assert_eq!(all.len(), 2);
    assert_eq!(all[0], ("a".to_string(), 2));
    assert_eq!(all[1], ("b".to_string(), u64::MAX));
}

#[test]
fn config_defaults() {
    let d = BoundedConfig::default();
    assert!(d.enabled);
    assert_eq!(d.max_load_factor_ppm, 1_250_000);
    assert_eq!(d.max_probes, 100);
    let n = BoundedConfig::new(2_000_000);
    assert_eq!((n.enabled, n.max_load_factor_ppm, n.max_probes), (true, 2_000_000, 100));
    let off = BoundedConfig::disabled();
    assert_eq!((off.enabled, off.max_load_factor_ppm, off.max_probes), (false, 1_000_000, 1));
}

#[test]
fn allowed_load_is_the_scaled_average() {
    let ring = create_test_ring();
    let mut bounded = BoundedRing::builder(ring)
        .max_load_factor(1_500_000)
        .build()
        .unwrap();
    for _ in 0..7 {
        bounded.acquire("node2");
    }
    // 7 requests over 3 healthy nodes, times 1.5: 3.5, rounded down.
    let stats = bounded.stats();
    assert_eq!(stats.max_allowed_load, 3);
    let n2 = stats.node_loads.iter().find(|n| n.node_id == "node2").unwrap();
    assert!(n2.overloaded && n2.healthy && n2.load == 7);
    bounded.set_healthy("node3", false);
    assert_eq!(bounded.stats().healthy_count, 2);
    // 7 * 1.5 / 2 = 5.25
    assert_eq!(bounded.stats().max_allowed_load, 5);
}

#[test]
fn lookups_route_only_and_callers_count_requests() {
    let ring = create_test_ring();
    let mut bounded = BoundedRing::builder(ring)
        .max_load_factor(1_250_000)
        .build()
        .unwrap();
    let before = bounded.loads();
    for i in 0..30 {
        let key = format!("k-{}", i);
        let id = bounded.get(key.as_bytes()).unwrap().id.clone();
        assert_eq!(bounded.loads(), before);
        assert_eq!(bounded.stats().total_load, 0);
        bounded.acquire(&id);
        assert_eq!(bounded.stats().total_load, 1);
        bounded.release(&id);
        assert_eq!(bounded.loads(), before);
        assert_eq!(bounded.stats().total_load, 0);
    }
}

#[test]
fn chosen_node_stays_within_the_cap() {
    let ring = create_test_ring();
    let mut bounded = BoundedRing::builder(ring)
        .max_load_factor(1_250_000)
        .build()
        .unwrap();
    for i in 0..300 {
        let key = format!("hot-{}", i % 7);
        let id = bounded.get(key.as_bytes()).unwrap().id.clone();
        bounded.acquire(&id);
        let total = bounded.stats().total_load;
        let load = bounded.loads().iter().find(|(k, _)| *k == id).unwrap().1;
        // load <= ceil(1.25 * total / 3)
        assert!(load * 3 * 1_000_000 < 1_250_000 * total + 3 * 1_000_000);
    }
    assert_eq!(bounded.stats().total_load, 300);
}

#[test]
fn no_healthy_node_means_empty_ring() {
    let ring = create_test_ring();
    let mut bounded = BoundedRing::builder(ring).build().unwrap();
    for id in ["node1", "node2", "node3"] {
        bounded.set_healthy(id, false);
    }
    assert!(matches!(bounded.get(b"k"), Err(ConsistentHashError::EmptyRing)));
    assert_eq!(bounded.stats().total_load, 0);
    assert!(!bounded.is_healthy("node1"));
    assert!(!bounded.is_healthy("unknown"));
}

#[test]
fn fallback_is_least_loaded_healthy_node() {
    let ring = create_test_ring();
    let mut bounded = BoundedRing::builder(ring)
        .max_load_factor(0)
        .max_probes(3)
        .build()
        .unwrap();
    // With a bound of zero every loaded node is over it.
    bounded.acquire("node1");
    bounded.acquire("node2");
    bounded.acquire("node2");
    bounded.acquire("node3");
    bounded.acquire("node3");
    bounded.acquire("node3");
    let node = bounded.get(b"anything").unwrap();
    assert_eq!(node.id, "node1");
}

#[test]
fn disabled_ring_counts_nothing_and_follows_the_ring() {
    let ring = create_test_ring();
    let plain = ring.get(b"key").unwrap().id.clone();
    let bounded = BoundedRing::builder(ring).disabled().build().unwrap();
    assert_eq!(bounded.get(b"key").unwrap().id, plain);
    assert_eq!(bounded.stats().total_load, 0);
    let inner_n = bounded.inner_ring().get_n(b"key", 3).unwrap().len();
    assert_eq!(bounded.get_n(b"key", 3).unwrap().len(), inner_n);
}

#[test]
fn get_n_fills_with_healthy_nodes() {
    let ring = create_test_ring();
    let mut bounded = BoundedRing::builder(ring).max_probes(1).build().unwrap();
    bounded.set_healthy("node2", false);
    let nodes = bounded.get_n(b"key", 3).unwrap();
    let ids: Vec<&str> = nodes.iter().map(|n| n.id.as_str()).collect();
    assert_eq!(ids.len(), 2);
    assert!(!ids.contains(&"node2"));
    assert_ne!(ids[0], ids[1]);
    let ring = bounded.into_inner();
    assert_eq!(ring.nodes().len(), 3);
}

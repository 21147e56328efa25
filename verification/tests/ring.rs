use shardring::{
    optimal_hashes_for_cv_ppm, CompactRing, ConsistentHashError, HashFunction, KetamaHash, Node,
    RingConfig,
};
use shardring::DefaultHash;
use std::collections::HashMap;

#[test]
fn test_basic_ring() {
    let nodes = vec![
        Node::new("node1", 100),
        Node::new("node2", 200),
        Node::new("node3", 300),
    ];
    let ring = CompactRing::<DefaultHash>::builder()
        .add_nodes(nodes)
        .build()
        .unwrap();

    let node = ring.get(b"test-key").unwrap();
    assert!(["node1", "node2", "node3"].contains(&node.id.as_str()));
}

#[test]
fn test_deterministic() {
    let nodes = vec![Node::new("a", 1), Node::new("b", 1)];
    let ring = CompactRing::<DefaultHash>::builder()
        .add_nodes(nodes)
        .build()
        .unwrap();

    let first = ring.get(b"consistent").unwrap().id.clone();
    for _ in 0..100 {
        let node = ring.get(b"consistent").unwrap();
        assert_eq!(node.id, first, "Same key should always map to same node");
    }
}

#[test]
fn test_weight_distribution() {
    let nodes = vec![Node::new("light", 1), Node::new("heavy", 100)];
    let ring = CompactRing::<DefaultHash>::builder()
        .add_nodes(nodes)
        .config(RingConfig {
            base_hashes_per_node: 160,
            ..Default::default()
        })
        .build()
        .unwrap();

    let mut counts = HashMap::new();
    for i in 0..10000 {
        let key = format!("key-{}", i);
        let node = ring.get(key.as_bytes()).unwrap();
        *counts.entry(node.id.clone()).or_insert(0) += 1;
    }

    let light = counts.get("light").copied().unwrap_or(0);
    let heavy = counts.get("heavy").copied().unwrap_or(0);
    assert!(heavy > light * 10);
}

#[test]
fn test_get_n() {
    let nodes = vec![Node::new("n1", 1), Node::new("n2", 1), Node::new("n3", 1)];
    let ring = CompactRing::<DefaultHash>::builder()
        .add_nodes(nodes)
        .build()
        .unwrap();

    let results = ring.get_n(b"test", 2).unwrap();
    assert_eq!(results.len(), 2);
    assert_ne!(results[0].id, results[1].id);
}

#[test]
fn test_serialization() {
    let nodes = vec![Node::new("a", 1), Node::new("b", 2)];
    let ring = CompactRing::<DefaultHash>::builder()
        .add_nodes(nodes.clone())
        .build()
        .unwrap();

    let bytes = ring.to_bytes();
    let restored =
        CompactRing::<DefaultHash>::from_bytes(&bytes, RingConfig::default(), DefaultHash)
            .unwrap();

    assert_eq!(ring.nodes().len(), restored.nodes().len());
    for (a, b) in nodes.iter().zip(restored.nodes()) {
        assert_eq!(a.id, b.id);
        assert_eq!(a.weight, b.weight);
    }
    for i in 0..1000 {
        let key = format!("key-{}", i);
        assert_eq!(
            ring.get(key.as_bytes()).unwrap().id,
            restored.get(key.as_bytes()).unwrap().id
        );
    }
    assert_eq!(ring.points().len(), restored.points().len());
    for (a, b) in ring.points().iter().zip(restored.points().iter()) {
        assert_eq!(a.hash(), b.hash());
        assert_eq!(a.node_index(), b.node_index());
    }
}

fn equal_nodes(n: usize) -> Vec<Node> {
    (0..n).map(|i| Node::new(&format!("node-{}", i), 1)).collect()
}

#[test]
fn test_independent_rings_agree() {
    let a = CompactRing::<DefaultHash>::new(equal_nodes(20), RingConfig::default(), DefaultHash)
        .unwrap();
    let b = CompactRing::<DefaultHash>::new(equal_nodes(20), RingConfig::default(), DefaultHash)
        .unwrap();

    for i in 0..10_000 {
        let key = format!("key-{}", i);
        assert_eq!(
            a.get(key.as_bytes()).unwrap().id,
            b.get(key.as_bytes()).unwrap().id
        );
    }
}

#[test]
fn test_distribution_cv_with_many_nodes() {
    for n in [10, 50, 200] {
        let ring =
            CompactRing::<DefaultHash>::new(equal_nodes(n), RingConfig::default(), DefaultHash)
                .unwrap();

        let keys = n * 2_000;
        let mut counts = HashMap::new();
        for i in 0..keys {
            let key = format!("key-{}", i);
            *counts
                .entry(ring.get(key.as_bytes()).unwrap().id.clone())
                .or_insert(0usize) += 1;
        }
        assert_eq!(counts.len(), n, "every node should own keys");

        let mean = keys as f64 / n as f64;
        let variance = counts
            .values()
            .map(|&c| (c as f64 - mean).powi(2))
            .sum::<f64>()
            / n as f64;
        let cv = variance.sqrt() / mean;
        assert!(cv < 0.15, "CV {:.3} too high for {} nodes", cv, n);
    }
}

#[test]
fn test_adding_node_moves_few_keys() {
    let before =
        CompactRing::<DefaultHash>::new(equal_nodes(10), RingConfig::default(), DefaultHash)
            .unwrap();
    let after =
        CompactRing::<DefaultHash>::new(equal_nodes(11), RingConfig::default(), DefaultHash)
            .unwrap();

    let keys = 20_000;
    let mut moved = 0;
    for i in 0..keys {
        let key = format!("key-{}", i);
        let old = &before.get(key.as_bytes()).unwrap().id;
        let new = &after.get(key.as_bytes()).unwrap().id;
        if old != new {
            moved += 1;
        }
    }
    let moved_frac = moved as f64 / keys as f64;
    assert!(moved_frac < 0.2, "moved {:.1}% of keys", moved_frac * 100.0);
}

#[test]
fn test_from_bytes_rejects_bad_input() {
    let ring = CompactRing::<DefaultHash>::new(equal_nodes(3), RingConfig::default(), DefaultHash)
        .unwrap();
    let bytes = ring.to_bytes();

    let mut wrong_version = bytes.clone();
    wrong_version[0] ^= 0xff;
    assert!(matches!(
        CompactRing::<DefaultHash>::from_bytes(&wrong_version, RingConfig::default(), DefaultHash),
        Err(ConsistentHashError::VersionMismatch { .. })
    ));

    let truncated = &bytes[..bytes.len() - 1];
    assert!(
        CompactRing::<DefaultHash>::from_bytes(truncated, RingConfig::default(), DefaultHash)
            .is_err()
    );
}

#[test]
fn test_stats() {
    let nodes = vec![Node::new("a", 1), Node::new("b", 1)];
    let ring = CompactRing::<DefaultHash>::builder()
        .add_nodes(nodes)
        .build()
        .unwrap();

    let stats = ring.stats();
    assert_eq!(stats.node_count, 2);
    assert!(stats.total_points > 0);
    assert!(stats.memory_bytes > 0);
}

// ---------------------------------------------------------------------------

#[test]
fn empty_node_list_is_refused() {
    let r = CompactRing::<DefaultHash>::new(Vec::new(), RingConfig::default(), DefaultHash);
    assert!(matches!(r, Err(ConsistentHashError::EmptyRing)));
}

#[test]
fn zero_weight_is_refused() {
    let r = CompactRing::<DefaultHash>::new(
        vec![Node::new("a", 1), Node::new("b", 0)],
        RingConfig::default(),
        DefaultHash,
    );
    assert!(matches!(r, Err(ConsistentHashError::InvalidWeight(0))));
}

#[test]
fn more_nodes_than_sixteen_bits_are_refused() {
    let config = RingConfig {
        min_hashes_per_node: 1,
        max_hashes_per_node: 1,
        ..Default::default()
    };
    let r = CompactRing::<DefaultHash>::new(equal_nodes(65537), config, DefaultHash);
    assert!(matches!(r, Err(ConsistentHashError::SerializationError(_))));
}

#[test]
fn points_are_sorted_and_counted_by_weight() {
    let ring = CompactRing::<DefaultHash>::new(
        vec![Node::new("a", 1), Node::new("b", 3)],
        RingConfig::default(),
        DefaultHash,
    )
    .unwrap();
    let points = ring.points();
    for w in points.windows(2) {
        assert!((w[0].hash(), w[0].node_index()) <= (w[1].hash(), w[1].node_index()));
    }
    // Two nodes: 53 points per average node, so 2 * 53 * w / 4 each.
    let a = points.iter().filter(|p| p.node_index() == 0).count();
    let b = points.iter().filter(|p| p.node_index() == 1).count();
    assert_eq!(a, 53 * 2 / 4);
    assert_eq!(b, 53 * 2 * 3 / 4);
}

#[test]
fn optimal_hashes_formula() {
    assert_eq!(optimal_hashes_for_cv_ppm(1, 80_000), 1);
    assert_eq!(optimal_hashes_for_cv_ppm(2, 80_000), 53);
    assert_eq!(optimal_hashes_for_cv_ppm(3, 80_000), 79);
    assert_eq!(optimal_hashes_for_cv_ppm(10, 0), 1);
}

#[test]
fn get_with_hash_agrees_with_get() {
    let ring = CompactRing::<DefaultHash>::new(equal_nodes(5), RingConfig::default(), DefaultHash)
        .unwrap();
    for i in 0..200 {
        let key = format!("key-{}", i);
        let h = DefaultHash.hash(key.as_bytes());
        assert_eq!(
            ring.get(key.as_bytes()).unwrap().id,
            ring.get_with_hash(h).unwrap().id
        );
    }
}

#[test]
fn get_n_is_led_by_get_and_capped_by_node_count() {
    let ring = CompactRing::<DefaultHash>::new(equal_nodes(4), RingConfig::default(), DefaultHash)
        .unwrap();
    for i in 0..100 {
        let key = format!("key-{}", i);
        let all = ring.get_n(key.as_bytes(), 10).unwrap();
        assert_eq!(all.len(), 4);
        assert_eq!(all[0].id, ring.get(key.as_bytes()).unwrap().id);
        let mut ids: Vec<&str> = all.iter().map(|n| n.id.as_str()).collect();
        ids.sort();
        ids.dedup();
        assert_eq!(ids.len(), 4);
    }
    assert!(ring.get_n(b"k", 0).unwrap().is_empty());
}

#[test]
fn ketama_ring_routes_and_differs_from_default() {
    let ketama = CompactRing::<KetamaHash>::new(equal_nodes(8), RingConfig::default(), KetamaHash)
        .unwrap();
    let default =
        CompactRing::<DefaultHash>::new(equal_nodes(8), RingConfig::default(), DefaultHash)
            .unwrap();
    let differing = ketama
        .points()
        .iter()
        .zip(default.points())
        .filter(|(a, b)| a.hash() != b.hash())
        .count();
    assert!(differing > 0);
    assert!(ketama.get(b"key").is_ok());
}

#[test]
fn hash_functions_are_not_identity() {
    // The low 32 bits of XXH3-64 and the first four MD5 bytes, little-endian.
    assert_eq!(KetamaHash.hash(b""), u32::from_le_bytes([0xd4, 0x1d, 0x8c, 0xd9]));
    // XXH3-64 of the empty input is 0x2D06800538D394C2.
    assert_eq!(DefaultHash.hash(b""), 0x38D3_94C2);
    let d = DefaultHash.hash(b"abc");
    assert_eq!(d, DefaultHash.hash(b"abc"));
    assert_ne!(d, DefaultHash.hash(b"abd"));
}

#[test]
fn snapshot_with_unknown_node_index_is_refused() {
    let ring = CompactRing::<DefaultHash>::new(equal_nodes(2), RingConfig::default(), DefaultHash)
        .unwrap();
    let mut bytes = ring.to_bytes();
    let n = bytes.len();
    // The last point's node index sits in its final two bytes.
    bytes[n - 2] = 0xff;
    bytes[n - 1] = 0xff;
    assert!(matches!(
        CompactRing::<DefaultHash>::from_bytes(&bytes, RingConfig::default(), DefaultHash),
        Err(ConsistentHashError::DeserializationError(_))
    ));
}

#[test]
fn owner_is_the_first_point_at_or_after_the_hash() {
    let ring = CompactRing::<DefaultHash>::new(equal_nodes(6), RingConfig::default(), DefaultHash)
        .unwrap();
    let points = ring.points();
    for i in 0..300 {
        let key = format!("key-{}", i);
        let h = DefaultHash.hash(key.as_bytes());
        let owner_point = points
            .iter()
            .find(|p| p.hash() >= h)
            .unwrap_or(&points[0]);
        let owner = ring.get(key.as_bytes()).unwrap();
        assert_eq!(owner.id, ring.nodes()[owner_point.node_index() as usize].id);
    }
}

#[test]
fn every_strict_prefix_of_a_snapshot_is_refused() {
    let nodes = vec![Node::new("a", 1), Node::new("bé", 2)];
    let config = RingConfig {
        min_hashes_per_node: 2,
        max_hashes_per_node: 4,
        ..RingConfig::default()
    };
    let ring = CompactRing::<DefaultHash>::new(nodes, config, DefaultHash).unwrap();
    let bytes = ring.to_bytes();
    for k in 0..bytes.len() {
        assert!(matches!(
            CompactRing::<DefaultHash>::from_bytes(&bytes[..k], RingConfig::default(), DefaultHash),
            Err(ConsistentHashError::DeserializationError(_))
        ));
    }
    assert!(CompactRing::<DefaultHash>::from_bytes(&bytes, RingConfig::default(), DefaultHash).is_ok());
}

use shardring::maglev::{is_prime, next_prime};
use shardring::{ConsistentHashError, DefaultHash, HashFunction, MaglevConfig, MaglevTable, Node};

#[test]
fn test_maglev_basic() {
    let nodes = vec![
        Node::new("node1", 100),
        Node::new("node2", 200),
        Node::new("node3", 300),
    ];
    let table: MaglevTable<DefaultHash> = MaglevTable::builder(nodes).build().unwrap();

    let node = table.get(b"test-key").unwrap();
    assert!(["node1", "node2", "node3"].contains(&node.id.as_str()));
}

#[test]
fn test_maglev_deterministic() {
    let nodes = vec![Node::new("a", 1), Node::new("b", 1)];
    let table: MaglevTable<DefaultHash> = MaglevTable::builder(nodes).build().unwrap();

    let first = table.get(b"consistent").unwrap().id.clone();
    for _ in 0..100 {
        let node = table.get(b"consistent").unwrap();
        assert_eq!(
            node.id, first,
            "Same key should always map to same physical node"
        );
    }
}

#[test]
fn test_maglev_weight_distribution() {
    let nodes = vec![Node::new("light", 1), Node::new("heavy", 100)];
    let table: MaglevTable<DefaultHash> = MaglevTable::builder(nodes)
        .table_size(65537)
        .build()
        .unwrap();

    let dist = table.load_distribution();
    let total = table.table_size() as f64;
    let light = dist.iter().find(|(id, _)| id == "light").unwrap();
    let heavy = dist.iter().find(|(id, _)| id == "heavy").unwrap();

    assert!(
        heavy.1 > light.1,
        "Heavy node should get more slots than light node: heavy={}, light={}",
        heavy.1,
        light.1
    );
    let heavy_frac = heavy.1 as f64 / total;
    assert!(
        heavy_frac > 0.5,
        "Heavy node should get majority of slots: heavy_frac={}",
        heavy_frac
    );
}

#[test]
fn test_maglev_get_n() {
    let nodes = vec![Node::new("n1", 1), Node::new("n2", 1), Node::new("n3", 1)];
    let table: MaglevTable<DefaultHash> = MaglevTable::builder(nodes).build().unwrap();

    let results = table.get_n(b"test", 2).unwrap();
    assert_eq!(results.len(), 2);
    assert_ne!(results[0].id, results[1].id);
}

#[test]
fn test_maglev_stats() {
    let nodes = vec![Node::new("a", 1), Node::new("b", 1)];
    let table: MaglevTable<DefaultHash> = MaglevTable::builder(nodes).build().unwrap();

    let stats = table.stats();
    assert_eq!(stats.node_count, 2);
    assert_eq!(stats.table_size, 65537);
    assert!(stats.vnode_count >= 2);
    // The coefficient of variation of the loads, from the integer counts.
    let dist = table.load_distribution();
    let expected = 1.0 / dist.len() as f64;
    let sum_sq: f64 = dist
        .iter()
        .map(|(_, c)| (*c as f64 / stats.table_size as f64 - expected).powi(2))
        .sum();
    let cv = sum_sq.sqrt() / expected;
    assert!(cv >= 0.0);
}

#[test]
fn test_maglev_custom_table_size() {
    let nodes = vec![Node::new("a", 1), Node::new("b", 1)];
    let table: MaglevTable<DefaultHash> = MaglevTable::builder(nodes)
        .table_size(1000)
        .build()
        .unwrap();

    assert!(table.table_size() >= 1000);
}

#[test]
fn builder_rounds_the_table_size_up_to_a_prime() {
    let nodes = vec![Node::new("a", 1), Node::new("b", 1)];
    let table: MaglevTable<DefaultHash> = MaglevTable::builder(nodes)
        .table_size(10000)
        .build()
        .unwrap();
    assert_eq!(table.table_size(), 10007);
    assert!(is_prime(table.table_size()));
}

#[test]
fn test_maglev_next_prime() {
    assert_eq!(next_prime(100), 101);
    assert_eq!(next_prime(1000), 1009);
    assert_eq!(next_prime(65537), 65537);
}

// ---------------------------------------------------------------------------

#[test]
fn primes() {
    assert!(!is_prime(0));
    assert!(!is_prime(1));
    assert!(is_prime(2));
    assert!(is_prime(3));
    assert!(!is_prime(9));
    assert!(!is_prime(65535));
    assert!(is_prime(65537));
    assert_eq!(next_prime(0), 2);
    assert_eq!(next_prime(14), 17);
    assert_eq!(MaglevConfig::new(1000).table_size, 1009);
    assert_eq!(MaglevConfig::new(1000).with_seed(7).seed, 7);
    assert_eq!(MaglevConfig::default().table_size, 65537);
}

#[test]
fn empty_and_zero_weight_tables_are_refused() {
    let r = MaglevTable::<DefaultHash>::builder(Vec::new()).build();
    assert!(matches!(r, Err(ConsistentHashError::EmptyRing)));
    let r = MaglevTable::<DefaultHash>::builder(vec![Node::new("a", 0)]).build();
    assert!(matches!(r, Err(ConsistentHashError::InvalidWeight(0))));
}

#[test]
fn every_slot_is_owned_and_loads_add_up() {
    let nodes = vec![Node::new("a", 2), Node::new("b", 3), Node::new("c", 1)];
    let table: MaglevTable<DefaultHash> = MaglevTable::builder(nodes)
        .table_size(101)
        .build()
        .unwrap();
    assert_eq!(table.table_size(), 101);
    assert_eq!(table.vnode_count(), 6);
    let dist = table.load_distribution();
    assert_eq!(dist.len(), 3);
    assert_eq!(dist.iter().map(|(_, c)| c).sum::<usize>(), 101);
    let stats = table.stats();
    assert_eq!(stats.min_load, dist.iter().map(|(_, c)| *c).min().unwrap());
    assert_eq!(stats.max_load, dist.iter().map(|(_, c)| *c).max().unwrap());
    assert_eq!(
        stats.memory_bytes,
        (101 + 6) * std::mem::size_of::<usize>()
    );
}

#[test]
fn get_n_is_led_by_get() {
    let nodes = vec![Node::new("a", 1), Node::new("b", 1), Node::new("c", 1)];
    let table: MaglevTable<DefaultHash> = MaglevTable::builder(nodes)
        .table_size(251)
        .build()
        .unwrap();
    for i in 0..100 {
        let key = format!("key-{}", i);
        let all = table.get_n(key.as_bytes(), 5).unwrap();
        assert!(all.len() <= 3);
        assert_eq!(all[0].id, table.get(key.as_bytes()).unwrap().id);
        assert_eq!(
            table.get(key.as_bytes()).unwrap().id,
            table.get_with_hash(DefaultHash.hash(key.as_bytes())).unwrap().id
        );
    }
    assert!(table.get_n(b"x", 0).unwrap().is_empty());
}

#[test]
fn seed_changes_the_table() {
    let mk = |seed| {
        MaglevTable::<DefaultHash>::builder(vec![Node::new("a", 1), Node::new("b", 1)])
            .table_size(1009)
            .seed(seed)
            .build()
            .unwrap()
    };
    let a = mk(1);
    let b = mk(2);
    let differing = (0..500)
        .filter(|i| {
            let key = format!("key-{}", i);
            a.get(key.as_bytes()).unwrap().id != b.get(key.as_bytes()).unwrap().id
        })
        .count();
    assert!(differing > 0);
    assert_eq!(a.config().seed, 1);
}

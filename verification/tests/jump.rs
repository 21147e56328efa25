use shardring::{jump_consistent_hash, jump_consistent_hash_u64, JumpHash};

/// Double-precision walk, written the way the algorithm is usually published.
fn float_jump(key: u64, num_buckets: i64) -> i64 {
    let mut b: i64 = -1;
    let mut j: i64 = 0;
    let mut key = key;
    while j < num_buckets {
        b = j;
        key = key.wrapping_mul(2862933555777941757).wrapping_add(1);
        j = ((b + 1) as f64 * ((1u64 << 31) as f64 / ((key >> 33) + 1) as f64)).floor() as i64;
    }
    b
}

#[test]
fn test_jump_basic() {
    let result = jump_consistent_hash(12345, 10).unwrap();
    assert!(result < 10);
}

#[test]
fn test_jump_deterministic() {
    for _ in 0..100 {
        let r1 = jump_consistent_hash(42, 100).unwrap();
        let r2 = jump_consistent_hash(42, 100).unwrap();
        assert_eq!(r1, r2);
    }
}

#[test]
fn test_jump_distribution() {
    let mut counts = vec![0u32; 10];
    for i in 0..10000 {
        let bucket = jump_consistent_hash(i, 10).unwrap();
        counts[bucket as usize] += 1;
    }

    for count in counts {
        assert!(
            count > 800 && count < 1200,
            "Bucket count {} out of expected range",
            count
        );
    }
}

#[test]
fn test_jump_monotonic() {
    let prev = jump_consistent_hash(12345, 10).unwrap();
    let next = jump_consistent_hash(12345, 11).unwrap();
    assert!(next >= prev || next == 10);
}

#[test]
fn test_jump_minimal_remapping() {
    let total_keys = 10000;
    let mut remapped = 0;

    for i in 0..total_keys {
        let b10 = jump_consistent_hash(i, 10).unwrap();
        let b11 = jump_consistent_hash(i, 11).unwrap();

        if b10 != b11 && b11 != 10 {
            remapped += 1;
        }
    }

    let pct = remapped as f64 / total_keys as f64 * 100.0;
    assert!(pct < 15.0, "Remapped {:.1}%, expected <10%", pct);
}

#[test]
fn test_jump_u64() {
    let result = jump_consistent_hash_u64(12345, 1000).unwrap();
    assert!(result < 1000);
}

#[test]
fn test_jump_empty() {
    assert!(jump_consistent_hash(12345, 0).is_err());
}

#[test]
fn jump_matches_double_precision_walk() {
    let mut key: u64 = 0x9e37_79b9_7f4a_7c15;
    for round in 0..20_000u64 {
        key = key.wrapping_mul(6364136223846793005).wrapping_add(1442695040888963407);
        let n = [1u32, 2, 3, 7, 10, 11, 100, 1000, 65_537, 1 << 20, u32::MAX][(round % 11) as usize];
        let ours = jump_consistent_hash(key, n).unwrap();
        assert_eq!(ours as i64, float_jump(key, n as i64), "key {} buckets {}", key, n);
    }
}

#[test]
fn jump_u64_matches_double_precision_walk() {
    for key in 0..2_000u64 {
        let k = key.wrapping_mul(0x2545_f491_4f6c_dd1d);
        for n in [1u64, 5, 1 << 33, 1 << 53] {
            let ours = jump_consistent_hash_u64(k, n).unwrap();
            assert_eq!(ours as i64, float_jump(k, n as i64));
        }
    }
}

#[test]
fn jump_adding_a_bucket_moves_keys_only_to_it() {
    for key in 0..5_000u64 {
        for n in [1u32, 2, 9, 10, 99] {
            let before = jump_consistent_hash(key, n).unwrap();
            let after = jump_consistent_hash(key, n + 1).unwrap();
            assert!(after == before || after == n);
        }
    }
}

#[test]
fn jump_hash_namespace_agrees() {
    assert_eq!(JumpHash::hash(777, 33).unwrap(), jump_consistent_hash(777, 33).unwrap());
    assert_eq!(JumpHash::hash_u64(777, 33).unwrap(), jump_consistent_hash_u64(777, 33).unwrap());
    assert!(JumpHash::hash_u64(1, 0).is_err());
}

#[test]
fn jump_single_bucket_is_zero() {
    for key in 0..100u64 {
        assert_eq!(jump_consistent_hash(key, 1).unwrap(), 0);
    }
}

#[test]
fn u64_variant_matches_the_float_walk_past_2_pow_53() {
    let counts: [u64; 6] = [
        (1u64 << 53) + 1,
        (1u64 << 54) + 3,
        1u64 << 60,
        (1u64 << 62) + 12345,
        i64::MAX as u64 - 1,
        i64::MAX as u64,
    ];
    for &n in counts.iter() {
        for key in 0..200u64 {
            let b = jump_consistent_hash_u64(key, n).unwrap();
            assert!(b < n);
            assert_eq!(b as i64, float_jump(key, n as i64));
        }
    }
}

#[test]
fn u64_variant_from_2_pow_63_answers_as_the_float_walk_does() {
    for &n in [1u64 << 63, u64::MAX].iter() {
        for key in [0u64, 1, 42, u64::MAX].iter() {
            assert_eq!(jump_consistent_hash_u64(*key, n).unwrap(), u64::MAX);
            assert_eq!(float_jump(*key, n as i64) as u64, u64::MAX);
            assert_eq!(JumpHash::hash_u64(*key, n).unwrap(), u64::MAX);
        }
    }
}

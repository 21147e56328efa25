use shardring::{AtomicMetrics, NoOpMetrics, RingMetrics};

#[test]
fn averages_follow_the_recorded_latencies() {
    let mut m = AtomicMetrics::default();
    assert_eq!(m.avg_get_latency_ns(), None);
    assert_eq!(m.avg_healthy_get_latency_ns(), None);
    m.record_get(100);
    assert_eq!(m.avg_get_latency_ns(), Some(100));
    m.record_get(201);
    assert_eq!(m.avg_get_latency_ns(), Some(150));
    assert_eq!(m.gets_total(), 2);
    m.record_get_healthy(7);
    assert_eq!(m.avg_healthy_get_latency_ns(), Some(7));
    m.record_migration("hash");
    m.record_rebalance(4);
    m.record_error("timeout");
    assert_eq!(m.gets_total(), 2);
}

#[test]
fn latency_sum_wraps() {
    let mut m = AtomicMetrics::default();
    m.record_get(u64::MAX);
    m.record_get(3);
    assert_eq!(m.avg_get_latency_ns(), Some(1));
}

#[test]
fn no_op_sink_accepts_everything() {
    let mut m = NoOpMetrics;
    m.record_get(1);
    m.record_get_healthy(1);
    m.record_migration("x");
    m.record_rebalance(1);
    m.record_error("x");
}

//! Counters a ring can report to: a sink that drops everything, and plain
//! counters that wrap at 2^64 as atomic counters do.

use vstd::prelude::*;

verus! {

/// Where a ring reports lookups, migrations, rebalances and errors.
pub trait RingMetrics: Send + Sync {
    fn record_get(&mut self, latency_ns: u64);

    fn record_get_healthy(&mut self, latency_ns: u64);

    fn record_migration(&mut self, strategy: &str);

    fn record_rebalance(&mut self, nodes_affected: u64);

    fn record_error(&mut self, error_type: &str);
}

/// Reports nowhere.
#[derive(Debug, Clone, Copy)]
pub struct NoOpMetrics;

impl RingMetrics for NoOpMetrics {
    fn record_get(&mut self, latency_ns: u64) {
    }

    fn record_get_healthy(&mut self, latency_ns: u64) {
    }

    fn record_migration(&mut self, strategy: &str) {
    }

    fn record_rebalance(&mut self, nodes_affected: u64) {
    }

    fn record_error(&mut self, error_type: &str) {
    }
}

/// Counts of lookups (plain and health-aware) with their summed latencies,
/// of migrations, of nodes affected by rebalances, and of errors.
#[derive(Debug, Clone, Copy)]
pub struct AtomicMetrics {
    gets_total: u64,
    gets_latency_sum: u64,
    gets_latency_count: u64,
    healthy_gets_total: u64,
    healthy_gets_latency_sum: u64,
    healthy_gets_latency_count: u64,
    migrations_total: u64,
    rebalances_total: u64,
    errors_total: u64,
}

/// `x + y` modulo 2^64.
pub open spec fn wrap_add(x: u64, y: u64) -> u64 {
    vstd::wrapping::u64_specs::wrapping_add(x, y)
}

impl AtomicMetrics {
    pub closed spec fn spec_gets_total(&self) -> u64 {
        self.gets_total
    }

    pub closed spec fn spec_gets_latency_sum(&self) -> u64 {
        self.gets_latency_sum
    }

    pub closed spec fn spec_gets_latency_count(&self) -> u64 {
        self.gets_latency_count
    }

    pub closed spec fn spec_healthy_gets_total(&self) -> u64 {
        self.healthy_gets_total
    }

    pub closed spec fn spec_healthy_gets_latency_sum(&self) -> u64 {
        self.healthy_gets_latency_sum
    }

    pub closed spec fn spec_healthy_gets_latency_count(&self) -> u64 {
        self.healthy_gets_latency_count
    }

    pub closed spec fn spec_migrations_total(&self) -> u64 {
        self.migrations_total
    }

    pub closed spec fn spec_rebalances_total(&self) -> u64 {
        self.rebalances_total
    }

    pub closed spec fn spec_errors_total(&self) -> u64 {
        self.errors_total
    }

    /// Lookups recorded.
    pub fn gets_total(&self) -> (n: u64)
        ensures
            n == self.spec_gets_total(),
    {
        self.gets_total
    }

    /// The mean latency of recorded lookups, rounded down; none before the
    /// first.
    pub fn avg_get_latency_ns(&self) -> (a: Option<u64>)
        ensures
            self.spec_gets_latency_count() == 0 ==> a is None,
            self.spec_gets_latency_count() > 0 ==> a == Some(
                (self.spec_gets_latency_sum() / self.spec_gets_latency_count()) as u64,
            ),
    {
        let count = self.gets_latency_count;
        if count == 0 {
            return None;
        }
        Some(self.gets_latency_sum / count)
    }

    /// The mean latency of recorded health-aware lookups, rounded down; none
    /// before the first.
    pub fn avg_healthy_get_latency_ns(&self) -> (a: Option<u64>)
        ensures
            self.spec_healthy_gets_latency_count() == 0 ==> a is None,
            self.spec_healthy_gets_latency_count() > 0 ==> a == Some(
                (self.spec_healthy_gets_latency_sum() / self.spec_healthy_gets_latency_count()) as u64,
            ),
    {
        let count = self.healthy_gets_latency_count;
        if count == 0 {
            return None;
        }
        Some(self.healthy_gets_latency_sum / count)
    }
}

impl Default for AtomicMetrics {
    fn default() -> (m: Self)
        ensures
            m.spec_gets_total() == 0,
            m.spec_gets_latency_sum() == 0,
            m.spec_gets_latency_count() == 0,
            m.spec_healthy_gets_total() == 0,
            m.spec_healthy_gets_latency_sum() == 0,
            m.spec_healthy_gets_latency_count() == 0,
            m.spec_migrations_total() == 0,
            m.spec_rebalances_total() == 0,
            m.spec_errors_total() == 0,
    {
        AtomicMetrics {
            gets_total: 0,
            gets_latency_sum: 0,
            gets_latency_count: 0,
            healthy_gets_total: 0,
            healthy_gets_latency_sum: 0,
            healthy_gets_latency_count: 0,
            migrations_total: 0,
            rebalances_total: 0,
            errors_total: 0,
        }
    }
}

impl RingMetrics for AtomicMetrics {
    fn record_get(&mut self, latency_ns: u64)
        ensures
            final(self).spec_gets_total() == wrap_add(old(self).spec_gets_total(), 1),
            final(self).spec_gets_latency_sum() == wrap_add(old(self).spec_gets_latency_sum(), latency_ns),
            final(self).spec_gets_latency_count() == wrap_add(old(self).spec_gets_latency_count(), 1),
            final(self).spec_healthy_gets_total() == old(self).spec_healthy_gets_total(),
            final(self).spec_healthy_gets_latency_sum() == old(self).spec_healthy_gets_latency_sum(),
            final(self).spec_healthy_gets_latency_count() == old(self).spec_healthy_gets_latency_count(),
            final(self).spec_migrations_total() == old(self).spec_migrations_total(),
            final(self).spec_rebalances_total() == old(self).spec_rebalances_total(),
            final(self).spec_errors_total() == old(self).spec_errors_total(),
    {
        self.gets_total = self.gets_total.wrapping_add(1);
        self.gets_latency_sum = self.gets_latency_sum.wrapping_add(latency_ns);
        self.gets_latency_count = self.gets_latency_count.wrapping_add(1);
    }

    fn record_get_healthy(&mut self, latency_ns: u64)
        ensures
            final(self).spec_gets_total() == old(self).spec_gets_total(),
            final(self).spec_gets_latency_sum() == old(self).spec_gets_latency_sum(),
            final(self).spec_gets_latency_count() == old(self).spec_gets_latency_count(),
            final(self).spec_healthy_gets_total() == wrap_add(old(self).spec_healthy_gets_total(), 1),
            final(self).spec_healthy_gets_latency_sum() == wrap_add(old(self).spec_healthy_gets_latency_sum(), latency_ns),
            final(self).spec_healthy_gets_latency_count() == wrap_add(old(self).spec_healthy_gets_latency_count(), 1),
            final(self).spec_migrations_total() == old(self).spec_migrations_total(),
            final(self).spec_rebalances_total() == old(self).spec_rebalances_total(),
            final(self).spec_errors_total() == old(self).spec_errors_total(),
    {
        self.healthy_gets_total = self.healthy_gets_total.wrapping_add(1);
        self.healthy_gets_latency_sum = self.healthy_gets_latency_sum.wrapping_add(latency_ns);
        self.healthy_gets_latency_count = self.healthy_gets_latency_count.wrapping_add(1);
    }

    fn record_migration(&mut self, strategy: &str)
        ensures
            final(self).spec_gets_total() == old(self).spec_gets_total(),
            final(self).spec_gets_latency_sum() == old(self).spec_gets_latency_sum(),
            final(self).spec_gets_latency_count() == old(self).spec_gets_latency_count(),
            final(self).spec_healthy_gets_total() == old(self).spec_healthy_gets_total(),
            final(self).spec_healthy_gets_latency_sum() == old(self).spec_healthy_gets_latency_sum(),
            final(self).spec_healthy_gets_latency_count() == old(self).spec_healthy_gets_latency_count(),
            final(self).spec_migrations_total() == wrap_add(old(self).spec_migrations_total(), 1),
            final(self).spec_rebalances_total() == old(self).spec_rebalances_total(),
            final(self).spec_errors_total() == old(self).spec_errors_total(),
    {
        self.migrations_total = self.migrations_total.wrapping_add(1);
    }

    fn record_rebalance(&mut self, nodes_affected: u64)
        ensures
            final(self).spec_gets_total() == old(self).spec_gets_total(),
            final(self).spec_gets_latency_sum() == old(self).spec_gets_latency_sum(),
            final(self).spec_gets_latency_count() == old(self).spec_gets_latency_count(),
            final(self).spec_healthy_gets_total() == old(self).spec_healthy_gets_total(),
            final(self).spec_healthy_gets_latency_sum() == old(self).spec_healthy_gets_latency_sum(),
            final(self).spec_healthy_gets_latency_count() == old(self).spec_healthy_gets_latency_count(),
            final(self).spec_migrations_total() == old(self).spec_migrations_total(),
            final(self).spec_rebalances_total() == wrap_add(old(self).spec_rebalances_total(), nodes_affected),
            final(self).spec_errors_total() == old(self).spec_errors_total(),
    {
        self.rebalances_total = self.rebalances_total.wrapping_add(nodes_affected);
    }

    fn record_error(&mut self, error_type: &str)
        ensures
            final(self).spec_gets_total() == old(self).spec_gets_total(),
            final(self).spec_gets_latency_sum() == old(self).spec_gets_latency_sum(),
            final(self).spec_gets_latency_count() == old(self).spec_gets_latency_count(),
            final(self).spec_healthy_gets_total() == old(self).spec_healthy_gets_total(),
            final(self).spec_healthy_gets_latency_sum() == old(self).spec_healthy_gets_latency_sum(),
            final(self).spec_healthy_gets_latency_count() == old(self).spec_healthy_gets_latency_count(),
            final(self).spec_migrations_total() == old(self).spec_migrations_total(),
            final(self).spec_rebalances_total() == old(self).spec_rebalances_total(),
            final(self).spec_errors_total() == wrap_add(old(self).spec_errors_total(), 1),
    {
        self.errors_total = self.errors_total.wrapping_add(1);
    }
}

} // verus!

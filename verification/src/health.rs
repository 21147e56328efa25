//! The decisions of a health-aware ring: how a node's health follows its
//! checks, which node a key goes to when only healthy nodes may answer, and
//! the counts a caller reports. The checks themselves, their timing and
//! the shared state are run by the caller.

use vstd::prelude::*;
use crate::{ConsistentHashError, HashFunction};
use crate::ring::{CompactRing, Node, RingStats, owner_index, points_in_range, search_points};
use crate::strmap::StrMap;
use crate::bytes::str_eq;
use crate::outside;

verus! {

/// How often nodes are checked, how long a check may take, and how many
/// successes in a row make a node healthy and failures in a row unhealthy.
#[derive(Debug, Clone, Copy)]
pub struct HealthConfig {
    pub check_interval: core::time::Duration,
    pub timeout: core::time::Duration,
    pub healthy_threshold: u32,
    pub unhealthy_threshold: u32,
}

impl Default for HealthConfig {
    /// Checks every 10 s with a 2 s timeout.
    fn default() -> (c: Self)
        ensures
            c.healthy_threshold == 2,
            c.unhealthy_threshold == 3,
    {
        HealthConfig {
            check_interval: outside::duration_from_secs(10),
            timeout: outside::duration_from_secs(2),
            healthy_threshold: 2,
            unhealthy_threshold: 3,
        }
    }
}

#[derive(Debug, Clone, Copy, PartialEq, Eq, Structural)]
pub enum HealthStatus {
    Healthy,
    Unhealthy,
    Unknown,
}

/// A node's health and the run of checks behind it.
#[derive(Debug, Clone)]
pub struct NodeHealth {
    pub status: HealthStatus,
    pub consecutive_successes: u32,
    pub consecutive_failures: u32,
    pub last_check: Option<std::time::Instant>,
    pub last_error: Option<String>,
}

impl Default for NodeHealth {
    fn default() -> (h: Self)
        ensures
            h.status == HealthStatus::Unknown,
            h.consecutive_successes == 0,
            h.consecutive_failures == 0,
            h.last_check is None,
            h.last_error is None,
    {
        NodeHealth {
            status: HealthStatus::Unknown,
            consecutive_successes: 0,
            consecutive_failures: 0,
            last_check: None,
            last_error: None,
        }
    }
}

/// What a health check came back with.
#[derive(Debug, Clone)]
pub enum CheckOutcome {
    Passed,
    /// The check failed with this message.
    Failed(String),
    TimedOut,
}

impl NodeHealth {
    /// Takes in one check made at `now`: a success extends the run of
    /// successes and ends that of failures, and the node turns healthy once
    /// the run reaches the healthy threshold; a failure or timeout does the
    /// converse and keeps its message ("timeout" for a timeout).
    pub fn record_check(&mut self, outcome: CheckOutcome, config: &HealthConfig, now: std::time::Instant)
        requires
            outcome is Passed ==> old(self).consecutive_successes < u32::MAX,
            !(outcome is Passed) ==> old(self).consecutive_failures < u32::MAX,
        ensures
            final(self).last_check == Some(now),
            outcome is Passed ==> {
                &&& final(self).consecutive_successes == old(self).consecutive_successes + 1
                &&& final(self).consecutive_failures == 0
                &&& final(self).last_error is None
                &&& final(self).status == if final(self).consecutive_successes >= config.healthy_threshold {
                    HealthStatus::Healthy
                } else {
                    old(self).status
                }
            },
            !(outcome is Passed) ==> {
                &&& final(self).consecutive_failures == old(self).consecutive_failures + 1
                &&& final(self).consecutive_successes == 0
                &&& final(self).status == if final(self).consecutive_failures >= config.unhealthy_threshold {
                    HealthStatus::Unhealthy
                } else {
                    old(self).status
                }
            },
            outcome matches CheckOutcome::Failed(m) ==> (final(self).last_error matches Some(e) && e@ == m@),
            outcome is TimedOut ==> (final(self).last_error matches Some(e) && e@ == "timeout"@),
            (final(self).status, final(self).consecutive_successes as nat, final(self).consecutive_failures as nat)
                == after_check(
                (old(self).status, old(self).consecutive_successes as nat, old(self).consecutive_failures as nat),
                outcome is Passed,
                *config,
            ),
    {
        self.last_check = Some(now);
        match outcome {
            CheckOutcome::Passed => {
                self.consecutive_successes = self.consecutive_successes + 1;
                self.consecutive_failures = 0;
                self.last_error = None;
                if self.consecutive_successes >= config.healthy_threshold {
                    self.status = HealthStatus::Healthy;
                }
            },
            CheckOutcome::Failed(message) => {
                self.consecutive_failures = self.consecutive_failures + 1;
                self.consecutive_successes = 0;
                self.last_error = Some(message);
                if self.consecutive_failures >= config.unhealthy_threshold {
                    self.status = HealthStatus::Unhealthy;
                }
            },
            CheckOutcome::TimedOut => {
                self.consecutive_failures = self.consecutive_failures + 1;
                self.consecutive_successes = 0;
                self.last_error = Some("timeout".to_owned());
                if self.consecutive_failures >= config.unhealthy_threshold {
                    self.status = HealthStatus::Unhealthy;
                }
            },
        }
    }
}

// ---------------------------------------------------------------------------
// Health of the ring's nodes
// ---------------------------------------------------------------------------

/// Node `id` has a health entry, and it is healthy.
pub open spec fn is_healthy_in(health: Map<Seq<char>, NodeHealth>, id: Seq<char>) -> bool {
    health.contains_key(id) && health[id].status == HealthStatus::Healthy
}

/// The first of the points `p, p + 1, .., len - 1` clockwise from `start`
/// whose node is healthy.
pub open spec fn healthy_probe(
    points: Seq<crate::CompactPointV2>,
    nodes: Seq<Node>,
    health: Map<Seq<char>, NodeHealth>,
    start: int,
    p: nat,
) -> Option<int>
    decreases points.len() - p,
{
    if p >= points.len() {
        None
    } else {
        let ni = points[(start + p) % (points.len() as int)].node_index_spec() as int;
        if is_healthy_in(health, nodes[ni].id@) {
            Some(ni)
        } else {
            healthy_probe(points, nodes, health, start, p + 1)
        }
    }
}

/// Every node of `nodes` with a fresh health entry (one per id).
pub fn initial_health(nodes: &[Node]) -> (h: StrMap<NodeHealth>)
    ensures
        forall|k: Seq<char>| #[trigger] h.spec_map().contains_key(k) <==> exists|i: int| 0 <= i < nodes@.len() && nodes@[i].id@ == k,
        forall|k: Seq<char>| #[trigger] h.spec_map().contains_key(k) ==> h.spec_map()[k].status == HealthStatus::Unknown,
{
    let mut h: StrMap<NodeHealth> = StrMap::new();
    let mut i: usize = 0;
    while i < nodes.len()
        invariant
            i <= nodes@.len(),
            forall|k: Seq<char>| #[trigger] h.spec_map().contains_key(k) <==> exists|j: int| 0 <= j < i && nodes@[j].id@ == k,
            forall|k: Seq<char>| #[trigger] h.spec_map().contains_key(k) ==> h.spec_map()[k].status == HealthStatus::Unknown,
        decreases nodes@.len() - i,
    {
        h.insert(nodes[i].id.as_str(), NodeHealth::default());
        proof {
            assert forall|k: Seq<char>| #[trigger] h.spec_map().contains_key(k) <==> exists|j: int| 0 <= j < i + 1 && nodes@[j].id@ == k by {
                if k == nodes@[i as int].id@ {
                    assert(nodes@[i as int].id@ == k);
                } else if exists|j: int| 0 <= j < i + 1 && nodes@[j].id@ == k {
                    let j = choose|j: int| 0 <= j < i + 1 && nodes@[j].id@ == k;
                    assert(j < i);
                }
            }
        }
        i = i + 1;
    }
    h
}

/// The node for `key` when only healthy nodes may answer: the first node
/// with a healthy entry clockwise from the key's point, one lap at most.
pub fn first_healthy<'a, H: HashFunction>(
    ring: &'a CompactRing<H>,
    health: &StrMap<NodeHealth>,
    key: &[u8],
) -> (r: crate::Result<&'a Node>)
    ensures
        ({
            let points = ring.spec_points();
            let nodes = ring.spec_nodes();
            let h = ring.spec_hash_fn().spec_hash(key@);
            match if points.len() == 0 {
                None
            } else {
                healthy_probe(points, nodes, health.spec_map(), owner_index(points, h), 0)
            } {
                None => r matches Err(ConsistentHashError::EmptyRing),
                Some(i) => r matches Ok(node) && *node == nodes[i],
            }
        }),
        r matches Ok(node) ==> health.spec_map().contains_key(node.id@) && health.spec_map()[node.id@].status
            == HealthStatus::Healthy,
{
    proof {
        if ring.spec_points().len() > 0 {
            lemma_first_healthy_answers(*ring, health.spec_map(), ring.spec_hash_fn().spec_hash(key@));
        }
    }
    let h = ring.hash_function().hash(key);
    let points = ring.points();
    let nodes = ring.nodes();
    let len = points.len();
    if len == 0 {
        return Err(ConsistentHashError::EmptyRing);
    }
    let start = search_points(points, h) % len;
    let ghost hp = healthy_probe(points@, nodes@, health.spec_map(), start as int, 0);
    let mut probe: usize = 0;
    while probe < len
        invariant
            points@ == ring.spec_points(),
            nodes@ == ring.spec_nodes(),
            points_in_range(points@, nodes@.len()),
            len == points@.len(),
            start < len,
            probe <= len,
            start as int == owner_index(points@, h),
            h == ring.spec_hash_fn().spec_hash(key@),
            hp == healthy_probe(points@, nodes@, health.spec_map(), start as int, 0),
            hp == healthy_probe(points@, nodes@, health.spec_map(), start as int, probe as nat),
        decreases len - probe,
    {
        let idx = if probe < len - start {
            start + probe
        } else {
            probe - (len - start)
        };
        proof {
            if probe < len - start {
                vstd::arithmetic::div_mod::lemma_small_mod((start + probe) as nat, len as nat);
            } else {
                vstd::arithmetic::div_mod::lemma_mod_sub_multiples_vanish((start + probe) as int, len as int);
                vstd::arithmetic::div_mod::lemma_small_mod((start + probe - len) as nat, len as nat);
            }
            assert(idx as int == (start + probe) % (len as int));
        }
        let ni = points[idx].node_index() as usize;
        assert(points@[idx as int].node_index_spec() < nodes@.len());
        let healthy = match health.get(nodes[ni].id.as_str()) {
            Some(entry) => matches!(entry.status, HealthStatus::Healthy),
            None => false,
        };
        if healthy {
            assert(hp == Some(ni as int));
            return Ok(&nodes[ni]);
        }
        probe = probe + 1;
    }
    Err(ConsistentHashError::EmptyRing)
}

/// Entries among `s` with status `st`.
pub open spec fn count_status(s: Seq<NodeHealth>, st: HealthStatus) -> nat
    decreases s.len(),
{
    if s.len() == 0 {
        0
    } else {
        count_status(s.drop_last(), st) + if s.last().status == st {
            1nat
        } else {
            0nat
        }
    }
}

/// The ring's counts with how many health entries are healthy, unhealthy
/// and unknown.
#[derive(Debug, Clone)]
pub struct HealthAwareStats {
    pub ring_stats: RingStats,
    pub healthy_count: usize,
    pub unhealthy_count: usize,
    pub unknown_count: usize,
    pub total_nodes: usize,
}

fn count_with_status(health: &StrMap<NodeHealth>, st: HealthStatus) -> (c: usize)
    ensures
        c == count_status(health.spec_vals(), st),
{
    let n = health.len();
    let mut c: usize = 0;
    let mut i: usize = 0;
    while i < n
        invariant
            n == health.spec_vals().len(),
            i <= n,
            c <= i,
            c == count_status(health.spec_vals().take(i as int), st),
        decreases n - i,
    {
        assert(health.spec_vals().take(i + 1).drop_last() =~= health.spec_vals().take(i as int));
        if health.value_at(i).status == st {
            c = c + 1;
        }
        i = i + 1;
    }
    assert(health.spec_vals().take(n as int) =~= health.spec_vals());
    c
}

/// Counts of the ring and of its health entries by status.
pub fn health_stats<H: HashFunction>(ring: &CompactRing<H>, health: &StrMap<NodeHealth>) -> (st: HealthAwareStats)
    requires
        ring.spec_points().len() * 6 <= usize::MAX,
    ensures
        st.ring_stats.node_count == ring.spec_nodes().len(),
        st.ring_stats.total_points == ring.spec_points().len(),
        st.ring_stats.memory_bytes == ring.spec_points().len() * 6,
        st.healthy_count == count_status(health.spec_vals(), HealthStatus::Healthy),
        st.unhealthy_count == count_status(health.spec_vals(), HealthStatus::Unhealthy),
        st.unknown_count == count_status(health.spec_vals(), HealthStatus::Unknown),
        st.total_nodes == health.spec_vals().len(),
{
    HealthAwareStats {
        ring_stats: ring.stats(),
        healthy_count: count_with_status(health, HealthStatus::Healthy),
        unhealthy_count: count_with_status(health, HealthStatus::Unhealthy),
        unknown_count: count_with_status(health, HealthStatus::Unknown),
        total_nodes: health.len(),
    }
}

// ---------------------------------------------------------------------------
// Membership changes
// ---------------------------------------------------------------------------

/// Nodes whose id is not `node_id`.
pub open spec fn id_is_not(node_id: Seq<char>) -> spec_fn(Node) -> bool {
    |n: Node| n.id@ != node_id
}

/// Drops every node whose id is `node_id`, keeping the others in order.
pub fn remove_nodes_with_id(nodes: &mut Vec<Node>, node_id: &str)
    ensures
        final(nodes)@ == old(nodes)@.filter(id_is_not(node_id@)),
{
    let mut rest: Vec<Node> = Vec::new();
    core::mem::swap(&mut rest, nodes);
    let total_len: usize = rest.len();
    let ghost all = rest@;
    let mut kept: Vec<Node> = Vec::new();
    let mut i: usize = 0;
    while rest.len() > 0
        invariant
            all.len() <= usize::MAX,
            i + rest@.len() == all.len(),
            rest@ == all.skip(i as int),
            kept@ == all.take(i as int).filter(id_is_not(node_id@)),
        decreases rest@.len(),
    {
        let n = rest.remove(0);
        assert(n == all[i as int]);
        assert(all.take(i + 1) =~= all.take(i as int).push(all[i as int]));
        proof {
            all.take(i as int).lemma_filter_push(all[i as int], id_is_not(node_id@));
        }
        assert(rest@ =~= all.skip(i + 1));
        if !str_eq(n.id.as_str(), node_id) {
            kept.push(n);
        }
        i = i + 1;
    }
    assert(all.take(all.len() as int) =~= all);
    *nodes = kept;
}

/// Sets the weight of the first node whose id is `node_id`.
pub fn set_node_weight(nodes: &mut Vec<Node>, node_id: &str, weight: u64) -> (r: crate::Result<()>)
    ensures
        (exists|i: int| 0 <= i < old(nodes)@.len() && #[trigger] old(nodes)@[i].id@ == node_id@) ==> {
            let i = choose|i: int| 0 <= i < old(nodes)@.len() && #[trigger] old(nodes)@[i].id@ == node_id@
                && forall|j: int| 0 <= j < i ==> old(nodes)@[j].id@ != node_id@;
            &&& r is Ok
            &&& final(nodes)@.len() == old(nodes)@.len()
            &&& final(nodes)@[i].weight == weight
            &&& final(nodes)@[i].id == old(nodes)@[i].id
            &&& final(nodes)@[i].metadata == old(nodes)@[i].metadata
            &&& forall|j: int| 0 <= j < old(nodes)@.len() && j != i ==> final(nodes)@[j] == old(nodes)@[j]
        },
        !(exists|i: int| 0 <= i < old(nodes)@.len() && #[trigger] old(nodes)@[i].id@ == node_id@) ==> {
            &&& r matches Err(ConsistentHashError::NodeNotFound(m)) && m@ == node_id@
            &&& final(nodes)@ == old(nodes)@
        },
{
    let mut i: usize = 0;
    while i < nodes.len()
        invariant
            nodes@ == old(nodes)@,
            i <= nodes@.len(),
            forall|j: int| 0 <= j < i ==> nodes@[j].id@ != node_id@,
        decreases nodes@.len() - i,
    {
        if str_eq(nodes[i].id.as_str(), node_id) {
            let ghost first = i as int;
            let mut taken: Vec<Node> = Vec::new();
            core::mem::swap(&mut taken, nodes);
            let mut node = taken.remove(i);
            node.weight = weight;
            taken.insert(i, node);
            *nodes = taken;
            proof {
                let pick = choose|k: int| 0 <= k < old(nodes)@.len() && #[trigger] old(nodes)@[k].id@ == node_id@
                    && forall|j: int| 0 <= j < k ==> old(nodes)@[j].id@ != node_id@;
                assert(0 <= first < old(nodes)@.len() && old(nodes)@[first].id@ == node_id@
                    && forall|j: int| 0 <= j < first ==> old(nodes)@[j].id@ != node_id@);
                if pick != first {
                    if pick < first {
                        assert(old(nodes)@[pick].id@ != node_id@);
                    } else {
                        assert(old(nodes)@[first].id@ != node_id@);
                    }
                }
            }
            return Ok(());
        }
        i = i + 1;
    }
    Err(ConsistentHashError::NodeNotFound(node_id.to_owned()))
}


// ---------------------------------------------------------------------------
// Laws
// ---------------------------------------------------------------------------

/// Status, successes in a row and failures in a row after a check that
/// passed or not, as `record_check` leaves them.
pub open spec fn after_check(state: (HealthStatus, nat, nat), passed: bool, config: HealthConfig) -> (HealthStatus, nat, nat) {
    let (status, succ, fail) = state;
    if passed {
        (if succ + 1 >= config.healthy_threshold { HealthStatus::Healthy } else { status }, succ + 1, 0)
    } else {
        (if fail + 1 >= config.unhealthy_threshold { HealthStatus::Unhealthy } else { status }, 0, fail + 1)
    }
}

/// The state after `k` checks in a row with the same outcome.
pub open spec fn after_run(state: (HealthStatus, nat, nat), passed: bool, k: nat, config: HealthConfig) -> (HealthStatus, nat, nat)
    decreases k,
{
    if k == 0 {
        state
    } else {
        after_check(after_run(state, passed, (k - 1) as nat, config), passed, config)
    }
}

proof fn lemma_after_run_counts(state: (HealthStatus, nat, nat), passed: bool, k: nat, config: HealthConfig)
    requires
        k >= 1,
    ensures
        passed ==> after_run(state, passed, k, config).1 >= k && after_run(state, passed, k, config).2 == 0,
        !passed ==> after_run(state, passed, k, config).2 >= k && after_run(state, passed, k, config).1 == 0,
    decreases k,
{
    if k > 1 {
        lemma_after_run_counts(state, passed, (k - 1) as nat, config);
    }
}

/// A node turns healthy after as many passed checks in a row as the healthy
/// threshold (at least one), and unhealthy after as many failed ones as the
/// unhealthy threshold (at least one), whatever it was before.
pub proof fn lemma_runs_decide_health(state: (HealthStatus, nat, nat), k: nat, config: HealthConfig)
    ensures
        k >= 1 && k >= config.healthy_threshold ==> after_run(state, true, k, config).0 == HealthStatus::Healthy,
        k >= 1 && k >= config.unhealthy_threshold ==> after_run(state, false, k, config).0 == HealthStatus::Unhealthy,
{
    if k >= 1 {
        lemma_after_run_counts(state, true, (k - 1) as nat + 1, config);
        lemma_after_run_counts(state, false, (k - 1) as nat + 1, config);
        if k > 1 {
            lemma_after_run_counts(state, true, (k - 1) as nat, config);
            lemma_after_run_counts(state, false, (k - 1) as nat, config);
        }
    }
}

proof fn lemma_healthy_probe_none(
    points: Seq<crate::CompactPointV2>,
    nodes: Seq<Node>,
    health: Map<Seq<char>, NodeHealth>,
    start: int,
    p: nat,
)
    requires
        healthy_probe(points, nodes, health, start, p) is None,
    ensures
        forall|q: int| p <= q < points.len() ==> !is_healthy_in(
            health,
            nodes[#[trigger] points[(start + q) % (points.len() as int)].node_index_spec() as int].id@,
        ),
    decreases points.len() - p,
{
    if p < points.len() {
        lemma_healthy_probe_none(points, nodes, health, start, p + 1);
    }
}

proof fn lemma_healthy_probe_some(
    points: Seq<crate::CompactPointV2>,
    nodes: Seq<Node>,
    health: Map<Seq<char>, NodeHealth>,
    start: int,
    p: nat,
)
    ensures
        healthy_probe(points, nodes, health, start, p) matches Some(i) ==> is_healthy_in(health, nodes[i].id@),
    decreases points.len() - p,
{
    if p < points.len() {
        lemma_healthy_probe_some(points, nodes, health, start, p + 1);
    }
}

/// The node index of the point `t` steps clockwise from point `start`.
pub open spec fn clockwise_node(points: Seq<crate::CompactPointV2>, start: int, t: int) -> int {
    points[(start + t) % (points.len() as int)].node_index_spec() as int
}

/// Node `id` has a health entry whose status is `Healthy`.
pub open spec fn marked_healthy(health: Map<Seq<char>, NodeHealth>, id: Seq<char>) -> bool {
    health.contains_key(id) && health[id].status == HealthStatus::Healthy
}

/// Between `p` and `t`, no point clockwise from `start` names a node marked
/// `Healthy`.
pub open spec fn none_healthy_between(
    points: Seq<crate::CompactPointV2>,
    nodes: Seq<Node>,
    health: Map<Seq<char>, NodeHealth>,
    start: int,
    p: int,
    t: int,
) -> bool {
    forall|u: int| p <= u < t ==> !marked_healthy(health, nodes[#[trigger] clockwise_node(points, start, u)].id@)
}

#[verifier::rlimit(30)]
proof fn lemma_healthy_probe_first(
    points: Seq<crate::CompactPointV2>,
    nodes: Seq<Node>,
    health: Map<Seq<char>, NodeHealth>,
    start: int,
    p: nat,
)
    ensures
        healthy_probe(points, nodes, health, start, p) matches Some(i) ==> exists|t: int|
            p <= t < points.len() && #[trigger] clockwise_node(points, start, t) == i && none_healthy_between(
                points,
                nodes,
                health,
                start,
                p as int,
                t,
            ),
    decreases points.len() - p,
{
    if p < points.len() {
        lemma_healthy_probe_first(points, nodes, health, start, p + 1);
        let len = points.len() as int;
        let ni = clockwise_node(points, start, p as int);
        if is_healthy_in(health, nodes[ni].id@) {
            assert(none_healthy_between(points, nodes, health, start, p as int, p as int));
            assert(clockwise_node(points, start, p as int) == ni);
        } else if let Some(i) = healthy_probe(points, nodes, health, start, p + 1) {
            let t = choose|t: int|
                p + 1 <= t < len && #[trigger] clockwise_node(points, start, t) == i && none_healthy_between(
                    points,
                    nodes,
                    health,
                    start,
                    (p + 1) as int,
                    t,
                );
            assert(!marked_healthy(health, nodes[ni].id@));
            assert(none_healthy_between(points, nodes, health, start, p as int, t));
        }
    }
}

/// A health-aware lookup answers with the node of the first point,
/// clockwise from the key's point, whose node is marked `Healthy`: every
/// point passed on the way names a node not marked `Healthy`.
pub proof fn lemma_first_healthy_is_first_clockwise<H: HashFunction>(
    ring: CompactRing<H>,
    health: Map<Seq<char>, NodeHealth>,
    h: u32,
)
    requires
        ring.spec_points().len() > 0,
    ensures
        ({
            let points = ring.spec_points();
            let nodes = ring.spec_nodes();
            let start = owner_index(points, h);
            healthy_probe(points, nodes, health, start, 0) matches Some(i) ==> exists|t: int|
                0 <= t < points.len() && #[trigger] clockwise_node(points, start, t) == i
                    && marked_healthy(health, nodes[i].id@)
                    && none_healthy_between(points, nodes, health, start, 0, t)
        }),
{
    let points = ring.spec_points();
    let start = owner_index(points, h);
    lemma_healthy_probe_first(points, ring.spec_nodes(), health, start, 0);
    lemma_healthy_probe_some(points, ring.spec_nodes(), health, start, 0);
}

/// Only healthy nodes answer a health-aware lookup, and it finds one
/// whenever some point of the ring names a healthy node.
pub proof fn lemma_first_healthy_answers<H: HashFunction>(ring: CompactRing<H>, health: Map<Seq<char>, NodeHealth>, h: u32)
    requires
        ring.spec_points().len() > 0,
    ensures
        ({
            let points = ring.spec_points();
            let nodes = ring.spec_nodes();
            let r = healthy_probe(points, nodes, health, owner_index(points, h), 0);
            &&& r matches Some(i) ==> is_healthy_in(health, nodes[i].id@)
            &&& r matches Some(i) ==> health.contains_key(nodes[i].id@) && health[nodes[i].id@].status
                == HealthStatus::Healthy
            &&& (exists|q: int| 0 <= q < points.len() && is_healthy_in(health, nodes[#[trigger] points[q].node_index_spec() as int].id@)) ==> r is Some
        }),
{
    let points = ring.spec_points();
    let nodes = ring.spec_nodes();
    let len = points.len() as int;
    let start = owner_index(points, h);
    lemma_healthy_probe_some(points, nodes, health, start, 0);
    if exists|q: int| 0 <= q < len && is_healthy_in(health, nodes[#[trigger] points[q].node_index_spec() as int].id@) {
        let q = choose|q: int| 0 <= q < len && is_healthy_in(health, nodes[#[trigger] points[q].node_index_spec() as int].id@);
        if healthy_probe(points, nodes, health, start, 0) is None {
            lemma_healthy_probe_none(points, nodes, health, start, 0);
            vstd::arithmetic::div_mod::lemma_mod_bound(crate::ring::search_from(points, h, 0, len), len);
            let p = if q >= start { q - start } else { q - start + len };
            assert(0 <= p < len);
            assert((start + p) % len == q) by {
                if q >= start {
                    vstd::arithmetic::div_mod::lemma_small_mod(q as nat, len as nat);
                } else {
                    vstd::arithmetic::div_mod::lemma_mod_sub_multiples_vanish(q + len, len);
                    vstd::arithmetic::div_mod::lemma_small_mod(q as nat, len as nat);
                }
            }
            assert(!is_healthy_in(health, nodes[points[(start + p) % len].node_index_spec() as int].id@));
        }
    }
}

/// A health-aware lookup answers with the key's owner exactly when the
/// owner's entry says `Healthy`, as the plain ring would; any other status,
/// or no entry, passes the key on.
pub proof fn lemma_healthy_owner_answers<H: HashFunction>(ring: CompactRing<H>, health: Map<Seq<char>, NodeHealth>, h: u32)
    requires
        ring.spec_points().len() > 0,
    ensures
        ({
            let points = ring.spec_points();
            let nodes = ring.spec_nodes();
            let start = owner_index(points, h);
            let owner = points[start].node_index_spec() as int;
            let r = healthy_probe(points, nodes, health, start, 0);
            &&& health.contains_key(nodes[owner].id@) && health[nodes[owner].id@].status == HealthStatus::Healthy
                ==> r == Some(owner)
            &&& !(health.contains_key(nodes[owner].id@) && health[nodes[owner].id@].status == HealthStatus::Healthy)
                ==> r != Some(owner)
        }),
{
    let points = ring.spec_points();
    let len = points.len() as int;
    let start = owner_index(points, h);
    vstd::arithmetic::div_mod::lemma_mod_bound(crate::ring::search_from(points, h, 0, len), len);
    vstd::arithmetic::div_mod::lemma_small_mod(start as nat, len as nat);
    assert((start + 0) % len == start);
    lemma_first_healthy_answers(ring, health, h);
}

} // verus!

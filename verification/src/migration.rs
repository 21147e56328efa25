//! Live migration between two rings over the same nodes: a rollout rule
//! decides, key by key, which ring answers; a plan compares two ring
//! configurations before the switch.

use vstd::prelude::*;
use vstd::utf8::encode_utf8;
use vstd::multiset::Multiset;
use crate::{ConsistentHashError, HashFunction, DefaultHash, CompactPointV2, points_sorted};
use crate::ring::{
    CompactRing,
    Node,
    RingConfig,
    RingStats,
    owner_index,
    ring_points,
    nodes_valid,
    ring_inputs_fit,
    ring_point_count,
    same_members,
    lemma_ring_points_same_members,
    lemma_ring_points_len,
    lemma_sorted_points_unique,
    lemma_weight_sum_same,
    points_in_range,
    hashes_per_node,
    node_point_count,
    points_for_node,
    total_weight,
    lemma_points_follow_weight,
};
use crate::bytes::{decimal, push_all, push_decimal, str_eq};
use crate::strmap::key_views;
use crate::outside;

verus! {

/// How keys are moved to the new ring.
#[derive(Debug, Clone, Copy, PartialEq, Eq, Structural)]
pub enum MigrationStrategy {
    HashBased,
    Percentage,
    Datacenter,
}

/// The rollout: strategy, share of keys on the new ring (in millionths,
/// 1_000_000 being all of them), datacenters moved, and whether lookups are
/// compared on both rings.
#[derive(Debug, Clone)]
pub struct MigrationConfig {
    pub strategy: MigrationStrategy,
    pub rollout_ppm: u64,
    pub datacenter_allowlist: Vec<String>,
    pub enable_shadow_mode: bool,
}

impl Default for MigrationConfig {
    fn default() -> (c: Self)
        ensures
            c.strategy == MigrationStrategy::HashBased,
            c.rollout_ppm == 0,
            c.datacenter_allowlist@.len() == 0,
            !c.enable_shadow_mode,
    {
        MigrationConfig {
            strategy: MigrationStrategy::HashBased,
            rollout_ppm: 0,
            datacenter_allowlist: Vec::new(),
            enable_shadow_mode: false,
        }
    }
}

/// Requests answered by each ring, lookups on which the two rings
/// disagreed in shadow mode, and errors.
#[derive(Debug, Clone, Copy, PartialEq, Eq, Structural)]
pub struct MigrationMetrics {
    pub old_ring_requests: u64,
    pub new_ring_requests: u64,
    pub shadow_mismatches: u64,
    pub errors: u64,
}

impl Default for MigrationMetrics {
    fn default() -> (m: Self)
        ensures
            m == (MigrationMetrics { old_ring_requests: 0, new_ring_requests: 0, shadow_mismatches: 0, errors: 0 }),
    {
        MigrationMetrics { old_ring_requests: 0, new_ring_requests: 0, shadow_mismatches: 0, errors: 0 }
    }
}

// ---------------------------------------------------------------------------
// The rollout rule
// ---------------------------------------------------------------------------

/// `hash / u64::MAX < rollout_ppm / 1_000_000`, in exact arithmetic.
pub open spec fn rollout_admits_spec(hash: u64, rollout_ppm: u64) -> bool {
    (hash as int) * 1_000_000 < (rollout_ppm as int) * (u64::MAX as int)
}

/// Whether a key whose rollout hash is `hash` goes to the new ring under a
/// rollout of `rollout_ppm` millionths.
pub fn rollout_admits(hash: u64, rollout_ppm: u64) -> (b: bool)
    ensures
        b == rollout_admits_spec(hash, rollout_ppm),
{
    assert((rollout_ppm as int) * (u64::MAX as int) <= u64::MAX * u64::MAX) by (nonlinear_arith);
    (hash as u128) * 1_000_000u128 < (rollout_ppm as u128) * (u64::MAX as u128)
}

/// The bytes hashed to place a key in the rollout: the key, then the
/// datacenter's name where the strategy is hash based and one is given.
pub open spec fn rollout_bytes(strategy: MigrationStrategy, key: Seq<u8>, dc: Option<Seq<char>>) -> Seq<u8> {
    match (strategy, dc) {
        (MigrationStrategy::HashBased, Some(d)) => key + encode_utf8(d),
        _ => key,
    }
}

/// Whether a lookup of `key` (from datacenter `dc`, if given) goes to the
/// new ring.
pub open spec fn routes_to_new(config: MigrationConfig, key: Seq<u8>, dc: Option<Seq<char>>) -> bool {
    match config.strategy {
        MigrationStrategy::Datacenter => dc matches Some(d) && key_views(config.datacenter_allowlist@).contains(d),
        _ => rollout_admits_spec(
            outside::xxh3_digest(rollout_bytes(config.strategy, key, dc)),
            config.rollout_ppm,
        ),
    }
}

/// What a ring answers for `key`: its owner's node, or nothing on a ring
/// without points.
pub open spec fn ring_answer<H: HashFunction>(ring: CompactRing<H>, key: Seq<u8>) -> Option<Node> {
    if ring.spec_points().len() == 0 {
        None
    } else {
        Some(ring.owner_of(ring.spec_hash_fn().spec_hash(key)))
    }
}

// ---------------------------------------------------------------------------
// Two rings
// ---------------------------------------------------------------------------

/// An old and a new ring over the same node ids, with the rollout that
/// picks between them and counts of what it picked.
#[derive(Debug)]
pub struct DualRing<H: HashFunction = DefaultHash> {
    old_ring: CompactRing<H>,
    new_ring: CompactRing<H>,
    config: MigrationConfig,
    metrics: MigrationMetrics,
}

impl<H: HashFunction> DualRing<H> {
    pub closed spec fn spec_old(&self) -> CompactRing<H> {
        self.old_ring
    }

    pub closed spec fn spec_new(&self) -> CompactRing<H> {
        self.new_ring
    }

    pub closed spec fn spec_config(&self) -> MigrationConfig {
        self.config
    }

    pub closed spec fn spec_metrics(&self) -> MigrationMetrics {
        self.metrics
    }

    /// Pairs two rings with equally many nodes of the same ids, in order.
    pub fn new(old_ring: CompactRing<H>, new_ring: CompactRing<H>, config: MigrationConfig) -> (r: crate::Result<Self>)
        ensures
            old_ring.spec_nodes().len() != new_ring.spec_nodes().len() ==> (r matches Err(
                ConsistentHashError::MigrationInProgress(m),
            ) && m@ == "Node count mismatch between rings"@),
            old_ring.spec_nodes().len() == new_ring.spec_nodes().len() && (exists|i: int|
                0 <= i < old_ring.spec_nodes().len() && #[trigger] old_ring.spec_nodes()[i].id@
                    != new_ring.spec_nodes()[i].id@) ==> (r matches Err(
                ConsistentHashError::MigrationInProgress(m),
            ) && m@ == "Node ID mismatch between rings"@),
            old_ring.spec_nodes().len() == new_ring.spec_nodes().len() && (forall|i: int|
                0 <= i < old_ring.spec_nodes().len() ==> #[trigger] old_ring.spec_nodes()[i].id@
                    == new_ring.spec_nodes()[i].id@) ==> (r matches Ok(d) && {
                &&& d.spec_old() == old_ring
                &&& d.spec_new() == new_ring
                &&& d.spec_config() == config
                &&& d.spec_metrics() == (MigrationMetrics { old_ring_requests: 0, new_ring_requests: 0, shadow_mismatches: 0, errors: 0 })
            }),
    {
        let old_nodes = old_ring.nodes();
        let new_nodes = new_ring.nodes();
        if old_nodes.len() != new_nodes.len() {
            return Err(ConsistentHashError::MigrationInProgress("Node count mismatch between rings".to_owned()));
        }
        let mut i: usize = 0;
        while i < old_nodes.len()
            invariant
                old_nodes@ == old_ring.spec_nodes(),
                new_nodes@ == new_ring.spec_nodes(),
                old_nodes@.len() == new_nodes@.len(),
                i <= old_nodes@.len(),
                forall|j: int| 0 <= j < i ==> #[trigger] old_nodes@[j].id@ == new_nodes@[j].id@,
            decreases old_nodes@.len() - i,
        {
            if !str_eq(old_nodes[i].id.as_str(), new_nodes[i].id.as_str()) {
                return Err(ConsistentHashError::MigrationInProgress("Node ID mismatch between rings".to_owned()));
            }
            i = i + 1;
        }
        Ok(DualRing { old_ring, new_ring, config, metrics: MigrationMetrics::default() })
    }

    pub fn builder(old_ring: CompactRing<H>, new_ring: CompactRing<H>) -> (b: DualRingBuilder<H>)
        ensures
            b.spec_old() == old_ring,
            b.spec_new() == new_ring,
            b.spec_config().strategy == MigrationStrategy::HashBased,
            b.spec_config().rollout_ppm == 0,
            b.spec_config().datacenter_allowlist@.len() == 0,
            !b.spec_config().enable_shadow_mode,
    {
        DualRingBuilder::new(old_ring, new_ring)
    }

    fn in_allowlist(&self, dc: &str) -> (b: bool)
        ensures
            b == key_views(self.config.datacenter_allowlist@).contains(dc@),
    {
        let list = &self.config.datacenter_allowlist;
        let mut i: usize = 0;
        while i < list.len()
            invariant
                list@ == self.config.datacenter_allowlist@,
                i <= list@.len(),
                forall|j: int| 0 <= j < i ==> key_views(list@)[j] != dc@,
            decreases list@.len() - i,
        {
            if str_eq(list[i].as_str(), dc) {
                assert(key_views(list@)[i as int] == dc@);
                assert(key_views(list@).contains(dc@));
                return true;
            }
            i = i + 1;
        }
        false
    }

    fn should_use_new_ring(&self, key: &[u8], datacenter: Option<&str>) -> (b: bool)
        ensures
            b == routes_to_new(self.spec_config(), key@, match datacenter {
                Some(d) => Some(d@),
                None => None,
            }),
    {
        match self.config.strategy {
            MigrationStrategy::Datacenter => match datacenter {
                Some(dc) => self.in_allowlist(dc),
                None => false,
            },
            MigrationStrategy::HashBased => {
                let mut bytes: Vec<u8> = Vec::new();
                push_all(&mut bytes, key);
                match datacenter {
                    Some(dc) => {
                        proof {
                            vstd::utf8::encode_utf8_decode_utf8(dc@);
                        }
                        push_all(&mut bytes, dc.as_bytes());
                    },
                    None => {},
                }
                assert(bytes@ =~= rollout_bytes(self.config.strategy, key@, match datacenter {
                    Some(d) => Some(d@),
                    None => None,
                }));
                let hash = outside::xxh3_64(bytes.as_slice());
                rollout_admits(hash, self.config.rollout_ppm)
            },
            MigrationStrategy::Percentage => {
                let hash = outside::xxh3_64(key);
                rollout_admits(hash, self.config.rollout_ppm)
            },
        }
    }

    fn route(&mut self, key: &[u8], datacenter: Option<&str>) -> (r: crate::Result<&Node>)
        requires
            old(self).spec_metrics().old_ring_requests < u64::MAX,
            old(self).spec_metrics().new_ring_requests < u64::MAX,
        ensures
            ({
                let dc = match datacenter {
                    Some(d) => Some(d@),
                    None => None,
                };
                let use_new = routes_to_new(old(self).spec_config(), key@, dc);
                let ring = if use_new { old(self).spec_new() } else { old(self).spec_old() };
                let m = old(self).spec_metrics();
                &&& final(self).spec_old() == old(self).spec_old()
                &&& final(self).spec_new() == old(self).spec_new()
                &&& final(self).spec_config() == old(self).spec_config()
                &&& final(self).spec_metrics() == if use_new {
                    MigrationMetrics { new_ring_requests: (m.new_ring_requests + 1) as u64, ..m }
                } else {
                    MigrationMetrics { old_ring_requests: (m.old_ring_requests + 1) as u64, ..m }
                }
                &&& match ring_answer(ring, key@) {
                    None => r matches Err(ConsistentHashError::EmptyRing),
                    Some(node) => r matches Ok(n) && *n == node,
                }
            }),
    {
        let use_new = self.should_use_new_ring(key, datacenter);
        if use_new {
            self.metrics.new_ring_requests = self.metrics.new_ring_requests + 1;
            self.new_ring.get(key)
        } else {
            self.metrics.old_ring_requests = self.metrics.old_ring_requests + 1;
            self.old_ring.get(key)
        }
    }

    /// Looks `key` up on the ring the rollout picks, and counts it.
    pub fn get(&mut self, key: &[u8]) -> (r: crate::Result<&Node>)
        requires
            old(self).spec_metrics().old_ring_requests < u64::MAX,
            old(self).spec_metrics().new_ring_requests < u64::MAX,
        ensures
            ({
                let use_new = routes_to_new(old(self).spec_config(), key@, None);
                let ring = if use_new { old(self).spec_new() } else { old(self).spec_old() };
                let m = old(self).spec_metrics();
                &&& final(self).spec_old() == old(self).spec_old()
                &&& final(self).spec_new() == old(self).spec_new()
                &&& final(self).spec_config() == old(self).spec_config()
                &&& final(self).spec_metrics() == if use_new {
                    MigrationMetrics { new_ring_requests: (m.new_ring_requests + 1) as u64, ..m }
                } else {
                    MigrationMetrics { old_ring_requests: (m.old_ring_requests + 1) as u64, ..m }
                }
                &&& match ring_answer(ring, key@) {
                    None => r matches Err(ConsistentHashError::EmptyRing),
                    Some(node) => r matches Ok(n) && *n == node,
                }
            }),
    {
        self.route(key, None)
    }

    /// Looks `key` up, from datacenter `datacenter`, on the ring the rollout
    /// picks, and counts it.
    pub fn get_with_datacenter(&mut self, key: &[u8], datacenter: &str) -> (r: crate::Result<&Node>)
        requires
            old(self).spec_metrics().old_ring_requests < u64::MAX,
            old(self).spec_metrics().new_ring_requests < u64::MAX,
        ensures
            ({
                let use_new = routes_to_new(old(self).spec_config(), key@, Some(datacenter@));
                let ring = if use_new { old(self).spec_new() } else { old(self).spec_old() };
                let m = old(self).spec_metrics();
                &&& final(self).spec_old() == old(self).spec_old()
                &&& final(self).spec_new() == old(self).spec_new()
                &&& final(self).spec_config() == old(self).spec_config()
                &&& final(self).spec_metrics() == if use_new {
                    MigrationMetrics { new_ring_requests: (m.new_ring_requests + 1) as u64, ..m }
                } else {
                    MigrationMetrics { old_ring_requests: (m.old_ring_requests + 1) as u64, ..m }
                }
                &&& match ring_answer(ring, key@) {
                    None => r matches Err(ConsistentHashError::EmptyRing),
                    Some(node) => r matches Ok(n) && *n == node,
                }
            }),
    {
        self.route(key, Some(datacenter))
    }

    /// Both rings' answers for `key`; in shadow mode a disagreement between
    /// them is counted.
    pub fn get_shadow(&mut self, key: &[u8]) -> (r: crate::Result<(&Node, &Node)>)
        requires
            old(self).spec_metrics().shadow_mismatches < u64::MAX,
        ensures
            final(self).spec_old() == old(self).spec_old(),
            final(self).spec_new() == old(self).spec_new(),
            final(self).spec_config() == old(self).spec_config(),
            ({
                let a = ring_answer(old(self).spec_old(), key@);
                let b = ring_answer(old(self).spec_new(), key@);
                let m = old(self).spec_metrics();
                match (a, b) {
                    (Some(x), Some(y)) => {
                        &&& r matches Ok(pair) && *pair.0 == x && *pair.1 == y
                        &&& final(self).spec_metrics() == if old(self).spec_config().enable_shadow_mode && x.id@ != y.id@ {
                            MigrationMetrics { shadow_mismatches: (m.shadow_mismatches + 1) as u64, ..m }
                        } else {
                            m
                        }
                    },
                    _ => {
                        &&& r matches Err(ConsistentHashError::EmptyRing)
                        &&& final(self).spec_metrics() == m
                    },
                }
            }),
    {
        let old_node = match self.old_ring.get(key) {
            Ok(n) => n,
            Err(e) => {
                return Err(e);
            },
        };
        let new_node = match self.new_ring.get(key) {
            Ok(n) => n,
            Err(e) => {
                return Err(e);
            },
        };
        if self.config.enable_shadow_mode && !str_eq(old_node.id.as_str(), new_node.id.as_str()) {
            self.metrics.shadow_mismatches = self.metrics.shadow_mismatches + 1;
        }
        Ok((old_node, new_node))
    }

    pub fn update_config(&mut self, config: MigrationConfig)
        ensures
            final(self).spec_old() == old(self).spec_old(),
            final(self).spec_new() == old(self).spec_new(),
            final(self).spec_config() == config,
            final(self).spec_metrics() == old(self).spec_metrics(),
    {
        self.config = config;
    }

    /// The rollout, in millionths.
    pub fn rollout_percentage(&self) -> (p: u64)
        ensures
            p == self.spec_config().rollout_ppm,
    {
        self.config.rollout_ppm
    }

    /// Sets the rollout, in millionths, held to at most all keys.
    pub fn set_rollout(&mut self, rollout_ppm: u64)
        ensures
            final(self).spec_old() == old(self).spec_old(),
            final(self).spec_new() == old(self).spec_new(),
            final(self).spec_metrics() == old(self).spec_metrics(),
            final(self).spec_config().rollout_ppm == if rollout_ppm > 1_000_000 {
                1_000_000
            } else {
                rollout_ppm
            },
            final(self).spec_config().strategy == old(self).spec_config().strategy,
            final(self).spec_config().datacenter_allowlist == old(self).spec_config().datacenter_allowlist,
            final(self).spec_config().enable_shadow_mode == old(self).spec_config().enable_shadow_mode,
    {
        self.config.rollout_ppm = if rollout_ppm > 1_000_000 {
            1_000_000
        } else {
            rollout_ppm
        };
    }

    pub fn metrics(&self) -> (m: MigrationMetrics)
        ensures
            m == self.spec_metrics(),
    {
        self.metrics
    }

    pub fn reset_metrics(&mut self)
        ensures
            final(self).spec_old() == old(self).spec_old(),
            final(self).spec_new() == old(self).spec_new(),
            final(self).spec_config() == old(self).spec_config(),
            final(self).spec_metrics() == (MigrationMetrics { old_ring_requests: 0, new_ring_requests: 0, shadow_mismatches: 0, errors: 0 }),
    {
        self.metrics = MigrationMetrics::default();
    }

    pub fn old_ring(&self) -> (r: &CompactRing<H>)
        ensures
            *r == self.spec_old(),
    {
        &self.old_ring
    }

    pub fn new_ring(&self) -> (r: &CompactRing<H>)
        ensures
            *r == self.spec_new(),
    {
        &self.new_ring
    }

    pub fn into_inner(self) -> (r: (CompactRing<H>, CompactRing<H>))
        ensures
            r.0 == self.spec_old(),
            r.1 == self.spec_new(),
    {
        (self.old_ring, self.new_ring)
    }

    /// Every key is on the new ring: the rollout is complete, or the
    /// datacenter strategy names at least one datacenter.
    pub fn is_fully_migrated(&self) -> (b: bool)
        ensures
            b == (self.spec_config().rollout_ppm >= 1_000_000 || (self.spec_config().strategy
                == MigrationStrategy::Datacenter && self.spec_config().datacenter_allowlist@.len() > 0)),
    {
        self.config.rollout_ppm >= 1_000_000 || (matches!(self.config.strategy, MigrationStrategy::Datacenter)
            && self.config.datacenter_allowlist.len() > 0)
    }
}

/// Settings of a dual ring being built.
pub struct DualRingBuilder<H: HashFunction> {
    old_ring: CompactRing<H>,
    new_ring: CompactRing<H>,
    config: MigrationConfig,
}

impl<H: HashFunction> DualRingBuilder<H> {
    pub closed spec fn spec_old(&self) -> CompactRing<H> {
        self.old_ring
    }

    pub closed spec fn spec_new(&self) -> CompactRing<H> {
        self.new_ring
    }

    pub closed spec fn spec_config(&self) -> MigrationConfig {
        self.config
    }

    pub fn new(old_ring: CompactRing<H>, new_ring: CompactRing<H>) -> (b: Self)
        ensures
            b.spec_old() == old_ring,
            b.spec_new() == new_ring,
            b.spec_config().strategy == MigrationStrategy::HashBased,
            b.spec_config().rollout_ppm == 0,
            b.spec_config().datacenter_allowlist@.len() == 0,
            !b.spec_config().enable_shadow_mode,
    {
        DualRingBuilder { old_ring, new_ring, config: MigrationConfig::default() }
    }

    pub fn strategy(self, strategy: MigrationStrategy) -> (b: Self)
        ensures
            b.spec_old() == self.spec_old(),
            b.spec_new() == self.spec_new(),
            b.spec_config() == (MigrationConfig { strategy, ..self.spec_config() }),
    {
        let mut config = self.config;
        config.strategy = strategy;
        DualRingBuilder { old_ring: self.old_ring, new_ring: self.new_ring, config }
    }

    /// Sets the rollout, in millionths, held to at most all keys.
    pub fn rollout_percentage(self, rollout_ppm: u64) -> (b: Self)
        ensures
            b.spec_old() == self.spec_old(),
            b.spec_new() == self.spec_new(),
            b.spec_config() == (MigrationConfig {
                rollout_ppm: if rollout_ppm > 1_000_000 {
                    1_000_000
                } else {
                    rollout_ppm
                },
                ..self.spec_config()
            }),
    {
        let mut config = self.config;
        config.rollout_ppm = if rollout_ppm > 1_000_000 {
            1_000_000
        } else {
            rollout_ppm
        };
        DualRingBuilder { old_ring: self.old_ring, new_ring: self.new_ring, config }
    }

    pub fn datacenter_allowlist(self, dcs: Vec<String>) -> (b: Self)
        ensures
            b.spec_old() == self.spec_old(),
            b.spec_new() == self.spec_new(),
            b.spec_config() == (MigrationConfig { datacenter_allowlist: dcs, ..self.spec_config() }),
    {
        let mut config = self.config;
        config.datacenter_allowlist = dcs;
        DualRingBuilder { old_ring: self.old_ring, new_ring: self.new_ring, config }
    }

    pub fn enable_shadow_mode(self, enable: bool) -> (b: Self)
        ensures
            b.spec_old() == self.spec_old(),
            b.spec_new() == self.spec_new(),
            b.spec_config() == (MigrationConfig { enable_shadow_mode: enable, ..self.spec_config() }),
    {
        let mut config = self.config;
        config.enable_shadow_mode = enable;
        DualRingBuilder { old_ring: self.old_ring, new_ring: self.new_ring, config }
    }

    pub fn build(self) -> (r: crate::Result<DualRing<H>>)
        ensures
            self.spec_old().spec_nodes().len() != self.spec_new().spec_nodes().len() ==> (r matches Err(
                ConsistentHashError::MigrationInProgress(m),
            ) && m@ == "Node count mismatch between rings"@),
            self.spec_old().spec_nodes().len() == self.spec_new().spec_nodes().len() && (exists|i: int|
                0 <= i < self.spec_old().spec_nodes().len() && #[trigger] self.spec_old().spec_nodes()[i].id@
                    != self.spec_new().spec_nodes()[i].id@) ==> (r matches Err(
                ConsistentHashError::MigrationInProgress(m),
            ) && m@ == "Node ID mismatch between rings"@),
            self.spec_old().spec_nodes().len() == self.spec_new().spec_nodes().len() && (forall|i: int|
                0 <= i < self.spec_old().spec_nodes().len() ==> #[trigger] self.spec_old().spec_nodes()[i].id@
                    == self.spec_new().spec_nodes()[i].id@) ==> (r matches Ok(d) && {
                &&& d.spec_old() == self.spec_old()
                &&& d.spec_new() == self.spec_new()
                &&& d.spec_config() == self.spec_config()
                &&& d.spec_metrics() == (MigrationMetrics { old_ring_requests: 0, new_ring_requests: 0, shadow_mismatches: 0, errors: 0 })
            }),
    {
        DualRing::new(self.old_ring, self.new_ring, self.config)
    }
}


// ---------------------------------------------------------------------------
// Migration plans
// ---------------------------------------------------------------------------

/// How many sample keys a plan looks up on both rings.
pub const MIGRATION_SAMPLE_KEYS: usize = 10_000;

/// The sorted points of the ring that `CompactRing::new` builds from these
/// nodes and this configuration with the default hash. (Sorted point
/// sequences with the same points are equal, so there is exactly one.)
pub open spec fn built_points(nodes: Seq<Node>, config: RingConfig) -> Seq<CompactPointV2> {
    choose|s: Seq<CompactPointV2>|
        points_sorted(s) && s.to_multiset() == ring_points(DefaultHash, nodes, config).to_multiset()
}

/// The id of the node that such a ring names for `key`, if it has points.
pub open spec fn built_answer(nodes: Seq<Node>, config: RingConfig, key: Seq<u8>) -> Option<Seq<char>> {
    let pts = built_points(nodes, config);
    if pts.len() == 0 {
        None
    } else {
        Some(nodes[pts[owner_index(pts, DefaultHash.spec_hash(key))].node_index_spec() as int].id@)
    }
}

/// The `i`-th sample key: `"sample-key-{i}"`.
pub open spec fn sample_key(i: nat) -> Seq<u8> {
    encode_utf8("sample-key-"@) + decimal(i)
}

/// Sample keys among the first `k` that the two configurations send to
/// different node ids.
pub open spec fn moved_samples(nodes: Seq<Node>, old_config: RingConfig, new_config: RingConfig, k: nat) -> nat
    decreases k,
{
    if k == 0 {
        0
    } else {
        moved_samples(nodes, old_config, new_config, (k - 1) as nat) + if built_answer(
            nodes,
            old_config,
            sample_key((k - 1) as nat),
        ) != built_answer(nodes, new_config, sample_key((k - 1) as nat)) {
            1nat
        } else {
            0nat
        }
    }
}

/// The id a ring names for `key`, if it has points.
pub open spec fn answer_id<H: HashFunction>(ring: CompactRing<H>, key: Seq<u8>) -> Option<Seq<char>> {
    match ring_answer(ring, key) {
        Some(n) => Some(n.id@),
        None => None,
    }
}

/// Sample keys among the first `k` that two rings send to different ids.
pub open spec fn moved_between<H: HashFunction>(old: CompactRing<H>, new: CompactRing<H>, k: nat) -> nat
    decreases k,
{
    if k == 0 {
        0
    } else {
        moved_between(old, new, (k - 1) as nat) + if answer_id(old, sample_key((k - 1) as nat))
            != answer_id(new, sample_key((k - 1) as nat)) {
            1nat
        } else {
            0nat
        }
    }
}

proof fn lemma_node_point_count_bound(points: Seq<CompactPointV2>, i: int)
    ensures
        node_point_count(points, i) <= points.len(),
    decreases points.len(),
{
    if points.len() > 0 {
        lemma_node_point_count_bound(points.drop_last(), i);
    }
}

/// How one node's point count changes between two configurations.
#[derive(Debug, Clone)]
pub struct NodeMigrationChange {
    pub node_id: String,
    pub old_hash_count: usize,
    pub new_hash_count: usize,
    pub hash_delta: i64,
}

/// What moving from one ring configuration to another changes: both rings'
/// counts, each node's points, and how many of the sample keys change node.
#[derive(Debug, Clone)]
pub struct MigrationPlan {
    pub old_stats: RingStats,
    pub new_stats: RingStats,
    pub node_changes: Vec<NodeMigrationChange>,
    pub sample_keys_moved: usize,
}

fn copy_nodes(nodes: &[Node]) -> (v: Vec<Node>)
    ensures
        same_members(v@, nodes@),
{
    let mut v: Vec<Node> = Vec::new();
    let mut i: usize = 0;
    while i < nodes.len()
        invariant
            i <= nodes@.len(),
            v@.len() == i,
            forall|j: int| 0 <= j < i ==> (#[trigger] v@[j]).id@ == nodes@[j].id@ && v@[j].weight == nodes@[j].weight,
        decreases nodes@.len() - i,
    {
        v.push(nodes[i].clone());
        i = i + 1;
    }
    v
}

/// Sample keys that the two rings send to different node ids.
fn estimate_keys_moved<H: HashFunction>(old: &CompactRing<H>, new: &CompactRing<H>) -> (m: usize)
    ensures
        m == moved_between(*old, *new, MIGRATION_SAMPLE_KEYS as nat),
{
    let mut moved: usize = 0;
    let mut i: usize = 0;
    while i < MIGRATION_SAMPLE_KEYS
        invariant
            i <= MIGRATION_SAMPLE_KEYS,
            moved <= i,
            moved == moved_between(*old, *new, i as nat),
        decreases MIGRATION_SAMPLE_KEYS - i,
    {
        let mut key: Vec<u8> = Vec::new();
        push_all(&mut key, "sample-key-".as_bytes());
        push_decimal(&mut key, i as u64);
        assert(key@ == sample_key(i as nat));
        let a = old.get(key.as_slice());
        let b = new.get(key.as_slice());
        let differ = match (a, b) {
            (Ok(x), Ok(y)) => !str_eq(x.id.as_str(), y.id.as_str()),
            (Err(_), Err(_)) => false,
            _ => true,
        };
        if differ {
            moved = moved + 1;
        }
        i = i + 1;
    }
    moved
}

/// Points of `points` that name node `i`.
fn count_node_points(points: &[CompactPointV2], i: u16) -> (c: usize)
    ensures
        c == node_point_count(points@, i as int),
{
    let mut c: usize = 0;
    let mut k: usize = 0;
    while k < points.len()
        invariant
            k <= points@.len(),
            c == node_point_count(points@.take(k as int), i as int),
            c <= k,
        decreases points@.len() - k,
    {
        assert(points@.take(k + 1).drop_last() =~= points@.take(k as int));
        if points[k].node_index() == i {
            c = c + 1;
        }
        k = k + 1;
    }
    assert(points@.take(points@.len() as int) =~= points@);
    c
}

proof fn lemma_moved_between_built<H: HashFunction>(
    old: CompactRing<H>,
    new: CompactRing<H>,
    nodes: Seq<Node>,
    old_config: RingConfig,
    new_config: RingConfig,
    k: nat,
)
    requires
        forall|key: Seq<u8>| #[trigger] answer_id(old, key) == built_answer(nodes, old_config, key),
        forall|key: Seq<u8>| #[trigger] answer_id(new, key) == built_answer(nodes, new_config, key),
    ensures
        moved_between(old, new, k) == moved_samples(nodes, old_config, new_config, k),
    decreases k,
{
    if k > 0 {
        lemma_moved_between_built(old, new, nodes, old_config, new_config, (k - 1) as nat);
        assert(answer_id(old, sample_key((k - 1) as nat)) == built_answer(nodes, old_config, sample_key((k - 1) as nat)));
        assert(answer_id(new, sample_key((k - 1) as nat)) == built_answer(nodes, new_config, sample_key((k - 1) as nat)));
    }
}

/// Builds a ring from a copy of `nodes` with the default hash, and shows
/// its points are `built_points` and its answers `built_answer`.
fn build_for_plan(nodes: &[Node], config: RingConfig) -> (ring: CompactRing<DefaultHash>)
    requires
        nodes_valid(nodes@),
        nodes@.len() <= 65536,
        ring_inputs_fit(nodes@, config),
    ensures
        same_members(ring.spec_nodes(), nodes@),
        ring.spec_config() == config,
        ring.spec_points() == built_points(nodes@, config),
        ring.spec_points().len() == ring_point_count(nodes@, config),
        points_in_range(ring.spec_points(), nodes@.len()),
        forall|key: Seq<u8>| #[trigger] answer_id(ring, key) == built_answer(nodes@, config, key),
        forall|i: int| 0 <= i < nodes@.len() ==> #[trigger] node_point_count(ring.spec_points(), i)
            == points_for_node(hashes_per_node(nodes@.len(), config), nodes@[i].weight as nat, nodes@.len(), total_weight(nodes@)),
{
    let copy = copy_nodes(nodes);
    proof {
        lemma_weight_sum_same(copy@, nodes@, nodes@.len());
        assert(nodes_valid(copy@)) by {
            assert forall|i: int| 0 <= i < copy@.len() implies #[trigger] copy@[i].weight > 0 by {
                assert(copy@[i].weight == nodes@[i].weight);
            }
        }
    }
    let ring = match CompactRing::new(copy, config, DefaultHash) {
        Ok(r) => r,
        Err(_) => {
            return vstd::pervasive::unreached();
        },
    };
    let pts = ring.points();
    proof {
        lemma_ring_points_same_members(DefaultHash, ring.spec_nodes(), nodes@, config);
        lemma_ring_points_len(DefaultHash, nodes@, config);
        broadcast use vstd::seq_lib::group_to_multiset_ensures;
        let b = built_points(nodes@, config);
        assert(points_sorted(b) && b.to_multiset() == ring_points(DefaultHash, nodes@, config).to_multiset());
        lemma_sorted_points_unique(ring.spec_points(), b);
        assert(ring.spec_points().len() == ring.spec_points().to_multiset().len());
        assert(ring_points(DefaultHash, nodes@, config).len() == ring_points(DefaultHash, nodes@, config).to_multiset().len());
        assert forall|key: Seq<u8>| #[trigger] answer_id(ring, key) == built_answer(nodes@, config, key) by {
            let p = ring.spec_points();
            if p.len() > 0 {
                let h = DefaultHash.spec_hash(key);
                let k = owner_index(p, h);
                vstd::arithmetic::div_mod::lemma_mod_bound(crate::ring::search_from(p, h, 0, p.len() as int), p.len() as int);
                assert(p[k].node_index_spec() < nodes@.len());
                assert(ring.spec_nodes()[p[k].node_index_spec() as int].id@ == nodes@[p[k].node_index_spec() as int].id@);
            }
        }
        assert forall|i: int| 0 <= i < nodes@.len() implies #[trigger] node_point_count(ring.spec_points(), i)
            == points_for_node(hashes_per_node(nodes@.len(), config), nodes@[i].weight as nat, nodes@.len(), total_weight(nodes@)) by {
            lemma_points_follow_weight(ring, config, i);
            assert(ring.spec_nodes()[i].weight == nodes@[i].weight);
        }
    }
    ring
}

/// Compares the rings that two configurations build from `nodes`.
pub fn generate_migration_plan(old_config: &RingConfig, new_config: &RingConfig, nodes: &[Node]) -> (plan: MigrationPlan)
    requires
        nodes_valid(nodes@),
        nodes@.len() <= 65536,
        ring_inputs_fit(nodes@, *old_config),
        ring_inputs_fit(nodes@, *new_config),
        ring_point_count(nodes@, *old_config) * 6 <= usize::MAX,
        ring_point_count(nodes@, *new_config) * 6 <= usize::MAX,
    ensures
        plan.old_stats.node_count == nodes@.len(),
        plan.old_stats.total_points == ring_point_count(nodes@, *old_config),
        plan.old_stats.memory_bytes == ring_point_count(nodes@, *old_config) * 6,
        plan.new_stats.node_count == nodes@.len(),
        plan.new_stats.total_points == ring_point_count(nodes@, *new_config),
        plan.new_stats.memory_bytes == ring_point_count(nodes@, *new_config) * 6,
        plan.node_changes@.len() == nodes@.len(),
        forall|i: int| 0 <= i < nodes@.len() ==> {
            let c = #[trigger] plan.node_changes@[i];
            &&& c.node_id@ == nodes@[i].id@
            &&& c.old_hash_count == points_for_node(
                hashes_per_node(nodes@.len(), *old_config),
                nodes@[i].weight as nat,
                nodes@.len(),
                total_weight(nodes@),
            )
            &&& c.new_hash_count == points_for_node(
                hashes_per_node(nodes@.len(), *new_config),
                nodes@[i].weight as nat,
                nodes@.len(),
                total_weight(nodes@),
            )
            &&& c.hash_delta == c.new_hash_count - c.old_hash_count
        },
        plan.sample_keys_moved == moved_samples(nodes@, *old_config, *new_config, MIGRATION_SAMPLE_KEYS as nat),
{
    let old_ring = build_for_plan(nodes, *old_config);
    let new_ring = build_for_plan(nodes, *new_config);
    let old_points = old_ring.points();
    let new_points = new_ring.points();
    let mut changes: Vec<NodeMigrationChange> = Vec::new();
    let mut i: usize = 0;
    while i < nodes.len()
        invariant
            nodes@.len() <= 65536,
            old_points@ == old_ring.spec_points(),
            new_points@ == new_ring.spec_points(),
            forall|j: int| 0 <= j < nodes@.len() ==> #[trigger] node_point_count(old_ring.spec_points(), j)
                == points_for_node(hashes_per_node(nodes@.len(), *old_config), nodes@[j].weight as nat, nodes@.len(), total_weight(nodes@)),
            forall|j: int| 0 <= j < nodes@.len() ==> #[trigger] node_point_count(new_ring.spec_points(), j)
                == points_for_node(hashes_per_node(nodes@.len(), *new_config), nodes@[j].weight as nat, nodes@.len(), total_weight(nodes@)),
            old_points@.len() * 6 <= usize::MAX,
            new_points@.len() * 6 <= usize::MAX,
            i <= nodes@.len(),
            changes@.len() == i,
            forall|j: int| 0 <= j < i ==> {
                let c = #[trigger] changes@[j];
                &&& c.node_id@ == nodes@[j].id@
                &&& c.old_hash_count == points_for_node(
                    hashes_per_node(nodes@.len(), *old_config),
                    nodes@[j].weight as nat,
                    nodes@.len(),
                    total_weight(nodes@),
                )
                &&& c.new_hash_count == points_for_node(
                    hashes_per_node(nodes@.len(), *new_config),
                    nodes@[j].weight as nat,
                    nodes@.len(),
                    total_weight(nodes@),
                )
                &&& c.hash_delta == c.new_hash_count - c.old_hash_count
            },
        decreases nodes@.len() - i,
    {
        let old_count = count_node_points(old_points, i as u16);
        let new_count = count_node_points(new_points, i as u16);
        proof {
            lemma_node_point_count_bound(old_points@, i as int);
            lemma_node_point_count_bound(new_points@, i as int);
        }
        let delta = (new_count as i64) - (old_count as i64);
        changes.push(NodeMigrationChange {
            node_id: nodes[i].id.clone(),
            old_hash_count: old_count,
            new_hash_count: new_count,
            hash_delta: delta,
        });
        i = i + 1;
    }
    let moved = estimate_keys_moved(&old_ring, &new_ring);
    proof {
        lemma_moved_between_built(old_ring, new_ring, nodes@, *old_config, *new_config, MIGRATION_SAMPLE_KEYS as nat);
    }
    MigrationPlan {
        old_stats: old_ring.stats(),
        new_stats: new_ring.stats(),
        node_changes: changes,
        sample_keys_moved: moved,
    }
}


// ---------------------------------------------------------------------------
// Laws
// ---------------------------------------------------------------------------

/// What decides a key's ring, strategy by strategy. Hash based: the XXH3
/// hash of the key followed by the datacenter's name (the key alone without
/// one), below the rollout share of `u64::MAX`. Percentage: the hash of the
/// key alone, whatever the datacenter. Datacenter: the datacenter is on the
/// allowlist.
pub proof fn lemma_rollout_decision(config: MigrationConfig, key: Seq<u8>, dc: Option<Seq<char>>)
    ensures
        config.strategy == MigrationStrategy::HashBased ==> (dc matches Some(d) ==> routes_to_new(config, key, dc) == (
            outside::xxh3_digest(key + encode_utf8(d)) as int * 1_000_000 < config.rollout_ppm as int
                * u64::MAX as int)),
        config.strategy == MigrationStrategy::HashBased ==> (dc is None ==> routes_to_new(config, key, dc) == (
            outside::xxh3_digest(key) as int * 1_000_000 < config.rollout_ppm as int * u64::MAX as int)),
        config.strategy == MigrationStrategy::Percentage ==> routes_to_new(config, key, dc) == (outside::xxh3_digest(
            key,
        ) as int * 1_000_000 < config.rollout_ppm as int * u64::MAX as int),
        config.strategy == MigrationStrategy::Datacenter ==> routes_to_new(config, key, dc) == (dc matches Some(d)
            && exists|i: int| 0 <= i < config.datacenter_allowlist@.len() && config.datacenter_allowlist@[i]@ == d),
{
    if config.strategy == MigrationStrategy::Datacenter {
        if let Some(d) = dc {
            let ks = key_views(config.datacenter_allowlist@);
            if ks.contains(d) {
                let i = choose|i: int| 0 <= i < ks.len() && ks[i] == d;
                assert(config.datacenter_allowlist@[i]@ == d);
            }
            if exists|i: int| 0 <= i < config.datacenter_allowlist@.len() && config.datacenter_allowlist@[i]@ == d {
                let i = choose|i: int| 0 <= i < config.datacenter_allowlist@.len() && config.datacenter_allowlist@[i]@ == d;
                assert(ks[i] == d);
            }
        }
    }
}

/// Raising the rollout only moves keys from the old ring to the new one: a
/// key on the new ring under a rollout stays there under any larger one.
pub proof fn lemma_rollout_monotone(config: MigrationConfig, key: Seq<u8>, dc: Option<Seq<char>>, larger_ppm: u64)
    requires
        config.rollout_ppm <= larger_ppm,
        routes_to_new(config, key, dc),
    ensures
        routes_to_new(MigrationConfig { rollout_ppm: larger_ppm, ..config }, key, dc),
{
    let h = outside::xxh3_digest(rollout_bytes(config.strategy, key, dc));
    assert((config.rollout_ppm as int) * (u64::MAX as int) <= (larger_ppm as int) * (u64::MAX as int)) by (nonlinear_arith)
        requires
            config.rollout_ppm <= larger_ppm,
    ;
}

/// With a rollout of zero no key goes to the new ring, unless the strategy
/// is by datacenter.
pub proof fn lemma_zero_rollout_keeps_old_ring(config: MigrationConfig, key: Seq<u8>, dc: Option<Seq<char>>)
    requires
        config.rollout_ppm == 0,
        config.strategy != MigrationStrategy::Datacenter,
    ensures
        !routes_to_new(config, key, dc),
{
}

/// With a complete rollout every key goes to the new ring, but for a key
/// whose rollout hash is `u64::MAX` (whose share is exactly one).
pub proof fn lemma_full_rollout_moves_every_key(config: MigrationConfig, key: Seq<u8>, dc: Option<Seq<char>>)
    requires
        config.rollout_ppm >= 1_000_000,
        config.strategy != MigrationStrategy::Datacenter,
        outside::xxh3_digest(rollout_bytes(config.strategy, key, dc)) < u64::MAX,
    ensures
        routes_to_new(config, key, dc),
{
    let h = outside::xxh3_digest(rollout_bytes(config.strategy, key, dc));
    assert((h as int) * 1_000_000 < (config.rollout_ppm as int) * (u64::MAX as int)) by (nonlinear_arith)
        requires
            h < u64::MAX,
            config.rollout_ppm >= 1_000_000,
    ;
}

/// Under the datacenter strategy exactly the allowlisted datacenters are
/// sent to the new ring, whatever the key.
pub proof fn lemma_datacenter_rollout(config: MigrationConfig, key: Seq<u8>, dc: Seq<char>)
    requires
        config.strategy == MigrationStrategy::Datacenter,
    ensures
        routes_to_new(config, key, Some(dc)) <==> key_views(config.datacenter_allowlist@).contains(dc),
        !routes_to_new(config, key, None),
{
}

/// Two dual rings with the same rings and rollout answer a key alike: a
/// lookup does not change where the next lookup of the key goes.
pub proof fn lemma_lookup_stable<H: HashFunction>(a: DualRing<H>, b: DualRing<H>, key: Seq<u8>, dc: Option<Seq<char>>)
    requires
        a.spec_old() == b.spec_old(),
        a.spec_new() == b.spec_new(),
        a.spec_config() == b.spec_config(),
    ensures
        routes_to_new(a.spec_config(), key, dc) == routes_to_new(b.spec_config(), key, dc),
        ring_answer(
            if routes_to_new(a.spec_config(), key, dc) { a.spec_new() } else { a.spec_old() },
            key,
        ) == ring_answer(
            if routes_to_new(b.spec_config(), key, dc) { b.spec_new() } else { b.spec_old() },
            key,
        ),
{
}

} // verus!

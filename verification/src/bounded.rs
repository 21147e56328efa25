//! Consistent hashing with bounded loads: a key goes to the first healthy
//! node clockwise from its point whose load is within the allowed bound,
//! else to the least loaded healthy node.

use vstd::prelude::*;
use vstd::arithmetic::div_mod::{
    lemma_fundamental_div_mod,
    lemma_add_mod_noop,
    lemma_small_mod,
    lemma_mod_self_0,
    lemma_mod_sub_multiples_vanish,
    lemma_mod_multiples_vanish,
};
use crate::strmap::StrMap;
use crate::{ConsistentHashError, HashFunction, CompactPointV2};
use crate::ring::{CompactRing, Node, owner_index, points_in_range, replica_indices, search_points};

verus! {

pub open spec fn word() -> int {
    0x1_0000_0000_0000_0000
}

/// Sum of a sequence of counters, as an integer.
pub open spec fn seq_sum(s: Seq<u64>) -> int
    decreases s.len(),
{
    if s.len() == 0 {
        0
    } else {
        seq_sum(s.drop_last()) + s.last()
    }
}

proof fn lemma_seq_sum_update(s: Seq<u64>, i: int, x: u64)
    requires
        0 <= i < s.len(),
    ensures
        seq_sum(s.update(i, x)) == seq_sum(s) - s[i] + x,
    decreases s.len(),
{
    if i == s.len() - 1 {
        assert(s.update(i, x).drop_last() =~= s.drop_last());
    } else {
        lemma_seq_sum_update(s.drop_last(), i, x);
        assert(s.update(i, x).drop_last() =~= s.drop_last().update(i, x));
    }
}

proof fn lemma_seq_sum_nonneg(s: Seq<u64>)
    ensures
        seq_sum(s) >= 0,
    decreases s.len(),
{
    if s.len() > 0 {
        lemma_seq_sum_nonneg(s.drop_last());
    }
}

proof fn lemma_seq_sum_zeros(s: Seq<u64>)
    requires
        forall|i: int| 0 <= i < s.len() ==> s[i] == 0,
    ensures
        seq_sum(s) == 0,
    decreases s.len(),
{
    if s.len() > 0 {
        lemma_seq_sum_zeros(s.drop_last());
    }
}

proof fn lemma_wrapping_inc(x: u64)
    ensures
        vstd::wrapping::u64_specs::wrapping_add(x, 1) == (x + 1) % word(),
{
    if x == u64::MAX {
        lemma_mod_self_0(word());
    } else {
        lemma_small_mod((x + 1) as nat, word() as nat);
    }
}

proof fn lemma_wrapping_dec(x: u64)
    ensures
        vstd::wrapping::u64_specs::wrapping_sub(x, 1) == (x - 1) % word(),
{
    if x == 0 {
        lemma_mod_sub_multiples_vanish(word() - 1, word());
        lemma_small_mod((word() - 1) as nat, word() as nat);
    } else {
        lemma_small_mod((x - 1) as nat, word() as nat);
    }
}

/// After a counter and the total both move by `d` modulo 2^64, the total is
/// still the sum of the counters modulo 2^64.
proof fn lemma_total_after_step(vals: Seq<u64>, i: int, nl: u64, total: u64, nt: u64, d: int)
    requires
        0 <= i < vals.len(),
        total == seq_sum(vals) % word(),
        nl == (vals[i] + d) % word(),
        nt == (total + d) % word(),
    ensures
        nt == seq_sum(vals.update(i, nl)) % word(),
{
    lemma_seq_sum_update(vals, i, nl);
    let s = seq_sum(vals);
    let q = (vals[i] + d) / word();
    lemma_fundamental_div_mod(vals[i] + d, word());
    assert(seq_sum(vals.update(i, nl)) == word() * (-q) + (s + d));
    lemma_mod_multiples_vanish(-q, s + d, word());
    lemma_add_mod_noop(s, d, word());
    lemma_add_mod_noop(total as int, d, word());
    lemma_small_mod(total as nat, word() as nat);
    lemma_small_mod((d % word()) as nat, word() as nat);
}

/// Per-node load counters and their total, keyed by node id. The counters
/// wrap at 2^64 as atomic counters do.
#[derive(Debug)]
pub struct LoadTracker {
    loads: StrMap<u64>,
    total_load: u64,
}

impl LoadTracker {
    #[verifier::type_invariant]
    spec fn wf(&self) -> bool {
        self.total_load == seq_sum(self.loads.spec_vals()) % word()
    }

    /// Each tracked id with its load.
    pub closed spec fn spec_loads(&self) -> Map<Seq<char>, u64> {
        self.loads.spec_map()
    }

    /// The tracked ids, in the order they were given.
    pub closed spec fn spec_ids(&self) -> Seq<Seq<char>> {
        self.loads.spec_keys()
    }

    pub closed spec fn spec_total(&self) -> u64 {
        self.total_load
    }

    /// Tracks every id given, each at load 0.
    pub fn new(node_ids: &[String]) -> (t: Self)
        ensures
            forall|k: Seq<char>| #[trigger] t.spec_loads().contains_key(k) <==> exists|i: int| 0 <= i < node_ids@.len() && node_ids@[i]@ == k,
            forall|k: Seq<char>| #[trigger] t.spec_loads().contains_key(k) ==> t.spec_loads()[k] == 0,
            t.spec_total() == 0,
    {
        let mut loads: StrMap<u64> = StrMap::new();
        let mut i: usize = 0;
        while i < node_ids.len()
            invariant
                i <= node_ids@.len(),
                forall|k: Seq<char>| #[trigger] loads.spec_map().contains_key(k) <==> exists|j: int| 0 <= j < i && node_ids@[j]@ == k,
                forall|k: Seq<char>| #[trigger] loads.spec_map().contains_key(k) ==> loads.spec_map()[k] == 0,
                forall|j: int| 0 <= j < loads.spec_vals().len() ==> loads.spec_vals()[j] == 0,
            decreases node_ids@.len() - i,
        {
            proof {
                use_type_invariant(&loads);
            }
            let ghost before = loads;
            loads.insert(node_ids[i].as_str(), 0);
            proof {
                assert forall|k: Seq<char>| #[trigger] loads.spec_map().contains_key(k) <==> exists|j: int| 0 <= j < i + 1 && node_ids@[j]@ == k by {
                    if k == node_ids@[i as int]@ {
                        assert(node_ids@[i as int]@ == k);
                    } else if exists|j: int| 0 <= j < i + 1 && node_ids@[j]@ == k {
                        let j = choose|j: int| 0 <= j < i + 1 && node_ids@[j]@ == k;
                        assert(j < i);
                    }
                }
                if before.spec_keys().contains(node_ids@[i as int]@) {
                    use_type_invariant(&loads);
                    loads.lemma_view();
                    assert forall|j: int| 0 <= j < loads.spec_vals().len() implies loads.spec_vals()[j] == 0 by {
                        assert(loads.spec_map()[loads.spec_keys()[j]] == loads.spec_vals()[j]);
                        if loads.spec_keys()[j] != node_ids@[i as int]@ {
                            before.lemma_view();
                            assert(loads.spec_keys()[j] == before.spec_keys()[j]);
                            assert(before.spec_map()[before.spec_keys()[j]] == before.spec_vals()[j]);
                        }
                    }
                }
            }
            i = i + 1;
        }
        proof {
            lemma_seq_sum_zeros(loads.spec_vals());
            lemma_small_mod(0, word() as nat);
        }
        LoadTracker { loads, total_load: 0 }
    }

    /// One more request on `node_id`, where it is tracked; the total moves
    /// with it.
    pub fn acquire(&mut self, node_id: &str)
        ensures
            old(self).spec_loads().contains_key(node_id@) ==> {
                &&& final(self).spec_loads() == old(self).spec_loads().insert(
                    node_id@,
                    vstd::wrapping::u64_specs::wrapping_add(old(self).spec_loads()[node_id@], 1),
                )
                &&& final(self).spec_total() == vstd::wrapping::u64_specs::wrapping_add(old(self).spec_total(), 1)
            },
            !old(self).spec_loads().contains_key(node_id@) ==> {
                &&& final(self).spec_loads() == old(self).spec_loads()
                &&& final(self).spec_total() == old(self).spec_total()
            },
            final(self).spec_ids() == old(self).spec_ids(),
            (final(self).spec_loads(), final(self).spec_total()) == acquire_load(
                old(self).spec_loads(),
                old(self).spec_total(),
                node_id@,
            ),
    {
        self.step(node_id, true);
    }

    /// One request fewer on `node_id`, where it is tracked; the total moves
    /// with it.
    pub fn release(&mut self, node_id: &str)
        ensures
            old(self).spec_loads().contains_key(node_id@) ==> {
                &&& final(self).spec_loads() == old(self).spec_loads().insert(
                    node_id@,
                    vstd::wrapping::u64_specs::wrapping_sub(old(self).spec_loads()[node_id@], 1),
                )
                &&& final(self).spec_total() == vstd::wrapping::u64_specs::wrapping_sub(old(self).spec_total(), 1)
            },
            !old(self).spec_loads().contains_key(node_id@) ==> {
                &&& final(self).spec_loads() == old(self).spec_loads()
                &&& final(self).spec_total() == old(self).spec_total()
            },
            final(self).spec_ids() == old(self).spec_ids(),
            (final(self).spec_loads(), final(self).spec_total()) == release_load(
                old(self).spec_loads(),
                old(self).spec_total(),
                node_id@,
            ),
    {
        self.step(node_id, false);
    }

    fn step(&mut self, node_id: &str, up: bool)
        ensures
            old(self).spec_loads().contains_key(node_id@) ==> {
                &&& final(self).spec_loads() == old(self).spec_loads().insert(
                    node_id@,
                    if up {
                        vstd::wrapping::u64_specs::wrapping_add(old(self).spec_loads()[node_id@], 1)
                    } else {
                        vstd::wrapping::u64_specs::wrapping_sub(old(self).spec_loads()[node_id@], 1)
                    },
                )
                &&& final(self).spec_total() == if up {
                    vstd::wrapping::u64_specs::wrapping_add(old(self).spec_total(), 1)
                } else {
                    vstd::wrapping::u64_specs::wrapping_sub(old(self).spec_total(), 1)
                }
            },
            !old(self).spec_loads().contains_key(node_id@) ==> {
                &&& final(self).spec_loads() == old(self).spec_loads()
                &&& final(self).spec_total() == old(self).spec_total()
            },
            final(self).spec_ids() == old(self).spec_ids(),
    {
        proof {
            use_type_invariant(&*self);
            use_type_invariant(&self.loads);
            self.loads.lemma_view();
        }
        match self.loads.find(node_id) {
            Some(i) => {
                let ghost vals = self.loads.spec_vals();
                let mut taken = LoadTracker { loads: StrMap::new(), total_load: 0 };
                proof {
                    lemma_small_mod(0, word() as nat);
                    assert(seq_sum(taken.loads.spec_vals()) == 0);
                }
                core::mem::swap(&mut taken, self);
                let LoadTracker { mut loads, total_load } = taken;
                let cur = *loads.value_at(i);
                let (nl, nt) = if up {
                    (cur.wrapping_add(1), total_load.wrapping_add(1))
                } else {
                    (cur.wrapping_sub(1), total_load.wrapping_sub(1))
                };
                proof {
                    let d: int = if up { 1 } else { -1 };
                    if up {
                        lemma_wrapping_inc(cur);
                        lemma_wrapping_inc(total_load);
                    } else {
                        lemma_wrapping_dec(cur);
                        lemma_wrapping_dec(total_load);
                    }
                    lemma_total_after_step(vals, i as int, nl, total_load, nt, d);
                }
                loads.set_value(i, nl);
                *self = LoadTracker { loads, total_load: nt };
            },
            None => {},
        }
    }

    /// The load of `node_id`; 0 where it is not tracked.
    pub fn get_load(&self, node_id: &str) -> (l: u64)
        ensures
            l == if self.spec_loads().contains_key(node_id@) {
                self.spec_loads()[node_id@]
            } else {
                0
            },
    {
        match self.loads.get(node_id) {
            Some(l) => *l,
            None => 0,
        }
    }

    /// Every tracked id with its load, in the order the ids were given.
    pub fn get_all_loads(&self) -> (r: Vec<(String, u64)>)
        ensures
            r@.len() == self.spec_ids().len(),
            forall|i: int| 0 <= i < r@.len() ==> {
                &&& (#[trigger] r@[i]).0@ == self.spec_ids()[i]
                &&& r@[i].1 == self.spec_loads()[self.spec_ids()[i]]
            },
            self.spec_ids().no_duplicates(),
            self.spec_loads().dom() == self.spec_ids().to_set(),
    {
        proof {
            use_type_invariant(&self.loads);
            self.loads.lemma_view();
        }
        let mut r: Vec<(String, u64)> = Vec::new();
        let mut i: usize = 0;
        let n = self.loads.len();
        while i < n
            invariant
                n == self.loads.spec_keys().len(),
                n == self.loads.spec_vals().len(),
                forall|j: int| 0 <= j < n ==> #[trigger] self.loads.spec_map()[self.loads.spec_keys()[j]] == self.loads.spec_vals()[j],
                i <= n,
                r@.len() == i,
                forall|j: int| 0 <= j < i ==> {
                    &&& (#[trigger] r@[j]).0@ == self.spec_ids()[j]
                    &&& r@[j].1 == self.spec_loads()[self.spec_ids()[j]]
                },
            decreases n - i,
        {
            let k = self.loads.key_at(i).clone();
            let v = *self.loads.value_at(i);
            assert(self.loads.spec_map()[self.loads.spec_keys()[i as int]] == self.loads.spec_vals()[i as int]);
            r.push((k, v));
            i = i + 1;
        }
        r
    }

    /// The running total of all loads: their sum, modulo 2^64.
    pub fn total_load(&self) -> (t: u64)
        ensures
            t == self.spec_total(),
            t == seq_sum(self.spec_ids().map_values(|k: Seq<char>| self.spec_loads()[k])) % word(),
            seq_sum(self.spec_ids().map_values(|k: Seq<char>| self.spec_loads()[k])) < word() ==> t == seq_sum(
                self.spec_ids().map_values(|k: Seq<char>| self.spec_loads()[k]),
            ),
    {
        proof {
            use_type_invariant(self);
            use_type_invariant(&self.loads);
            self.loads.lemma_view();
            assert(self.spec_ids().map_values(|k: Seq<char>| self.spec_loads()[k]) =~= self.loads.spec_vals());
            lemma_seq_sum_nonneg(self.loads.spec_vals());
            if seq_sum(self.loads.spec_vals()) < word() {
                lemma_small_mod(seq_sum(self.loads.spec_vals()) as nat, word() as nat);
            }
        }
        self.total_load
    }
}


// ---------------------------------------------------------------------------
// Configuration
// ---------------------------------------------------------------------------

/// Whether loads are bounded, the bound as a multiple of the average load
/// (in millionths), and how many points a lookup may try.
#[derive(Debug, Clone, Copy, PartialEq, Eq, Structural)]
pub struct BoundedConfig {
    pub enabled: bool,
    pub max_load_factor_ppm: u64,
    pub max_probes: usize,
}

impl Default for BoundedConfig {
    fn default() -> (c: Self)
        ensures
            c.enabled,
            c.max_load_factor_ppm == 1_250_000,
            c.max_probes == 100,
    {
        BoundedConfig { enabled: true, max_load_factor_ppm: 1_250_000, max_probes: 100 }
    }
}

impl BoundedConfig {
    pub fn new(max_load_factor_ppm: u64) -> (c: Self)
        ensures
            c.enabled,
            c.max_load_factor_ppm == max_load_factor_ppm,
            c.max_probes == 100,
    {
        BoundedConfig { enabled: true, max_load_factor_ppm, max_probes: 100 }
    }

    pub fn disabled() -> (c: Self)
        ensures
            !c.enabled,
            c.max_load_factor_ppm == 1_000_000,
            c.max_probes == 1,
    {
        BoundedConfig { enabled: false, max_load_factor_ppm: 1_000_000, max_probes: 1 }
    }
}

// ---------------------------------------------------------------------------
// The choice of a node
// ---------------------------------------------------------------------------

/// Node `id` is marked healthy.
pub open spec fn is_up(health: Map<Seq<char>, bool>, id: Seq<char>) -> bool {
    health.contains_key(id) && health[id]
}

/// The load of `id`; 0 where it is not tracked.
pub open spec fn load_in(loads: Map<Seq<char>, u64>, id: Seq<char>) -> u64 {
    if loads.contains_key(id) {
        loads[id]
    } else {
        0
    }
}

/// Loads and total after one more request on `id`.
pub open spec fn acquire_load(loads: Map<Seq<char>, u64>, total: u64, id: Seq<char>) -> (Map<Seq<char>, u64>, u64) {
    if loads.contains_key(id) {
        (
            loads.insert(id, vstd::wrapping::u64_specs::wrapping_add(loads[id], 1)),
            vstd::wrapping::u64_specs::wrapping_add(total, 1),
        )
    } else {
        (loads, total)
    }
}

/// Loads and total after one request fewer on `id`.
pub open spec fn release_load(loads: Map<Seq<char>, u64>, total: u64, id: Seq<char>) -> (Map<Seq<char>, u64>, u64) {
    if loads.contains_key(id) {
        (
            loads.insert(id, vstd::wrapping::u64_specs::wrapping_sub(loads[id], 1)),
            vstd::wrapping::u64_specs::wrapping_sub(total, 1),
        )
    } else {
        (loads, total)
    }
}

/// Counting a request on `id` and then releasing it leaves every load and
/// the total as they were.
pub proof fn lemma_acquire_then_release(loads: Map<Seq<char>, u64>, total: u64, id: Seq<char>)
    ensures
        ({
            let a = acquire_load(loads, total, id);
            release_load(a.0, a.1, id) == (loads, total)
        }),
{
    if loads.contains_key(id) {
        let a = acquire_load(loads, total, id);
        assert(a.0.insert(id, vstd::wrapping::u64_specs::wrapping_sub(a.0[id], 1)) =~= loads);
    }
}

pub open spec fn count_true(s: Seq<bool>) -> nat
    decreases s.len(),
{
    if s.len() == 0 {
        0
    } else {
        count_true(s.drop_last()) + if s.last() {
            1nat
        } else {
            0nat
        }
    }
}

proof fn lemma_count_true_update(s: Seq<bool>, i: int)
    requires
        0 <= i < s.len(),
    ensures
        count_true(s) == count_true(s.update(i, false)) + if s[i] {
            1nat
        } else {
            0nat
        },
    decreases s.len(),
{
    if i == s.len() - 1 {
        assert(s.update(i, false).drop_last() =~= s.drop_last());
    } else {
        lemma_count_true_update(s.drop_last(), i);
        assert(s.update(i, false).drop_last() =~= s.drop_last().update(i, false));
    }
}

proof fn lemma_count_true_none(s: Seq<bool>)
    requires
        forall|j: int| 0 <= j < s.len() ==> !s[j],
    ensures
        count_true(s) == 0,
    decreases s.len(),
{
    if s.len() > 0 {
        lemma_count_true_none(s.drop_last());
    }
}

/// Where each key marked `true` has its own counter of at least `low`, the
/// counters add up to at least `low` times the number of such keys.
proof fn lemma_marked_loads_bound(
    keys: Seq<Seq<char>>,
    marks: Seq<bool>,
    ids: Seq<Seq<char>>,
    vals: Seq<u64>,
    low: u64,
)
    requires
        keys.len() == marks.len(),
        keys.no_duplicates(),
        ids.len() == vals.len(),
        ids.no_duplicates(),
        forall|j: int|
            0 <= j < keys.len() && #[trigger] marks[j] ==> exists|q: int|
                0 <= q < ids.len() && ids[q] == keys[j] && low <= vals[q],
    ensures
        count_true(marks) * low <= seq_sum(vals),
    decreases ids.len(),
{
    if ids.len() == 0 {
        lemma_count_true_none(marks);
    } else {
        let last = ids.len() - 1;
        let t = ids[last];
        let ids2 = ids.drop_last();
        let vals2 = vals.drop_last();
        assert(seq_sum(vals) == seq_sum(vals2) + vals[last]);
        if keys.contains(t) {
            let p = choose|p: int| 0 <= p < keys.len() && keys[p] == t;
            let marks2 = marks.update(p, false);
            lemma_count_true_update(marks, p);
            assert forall|j: int| 0 <= j < keys.len() && #[trigger] marks2[j] implies exists|q: int|
                0 <= q < ids2.len() && ids2[q] == keys[j] && low <= vals2[q] by {
                assert(j != p);
                assert(marks[j]);
                let q = choose|q: int| 0 <= q < ids.len() && ids[q] == keys[j] && low <= vals[q];
                assert(keys[j] != keys[p]);
                assert(q != last);
                assert(ids2[q] == ids[q] && vals2[q] == vals[q]);
            }
            lemma_marked_loads_bound(keys, marks2, ids2, vals2, low);
            let c2 = count_true(marks2);
            if marks[p] {
                let q = choose|q: int| 0 <= q < ids.len() && ids[q] == keys[p] && low <= vals[q];
                assert(q == last);
                assert((c2 + 1) * low == c2 * low + low) by (nonlinear_arith);
            }
        } else {
            assert forall|j: int| 0 <= j < keys.len() && #[trigger] marks[j] implies exists|q: int|
                0 <= q < ids2.len() && ids2[q] == keys[j] && low <= vals2[q] by {
                let q = choose|q: int| 0 <= q < ids.len() && ids[q] == keys[j] && low <= vals[q];
                assert(q != last);
                assert(ids2[q] == ids[q] && vals2[q] == vals[q]);
            }
            lemma_marked_loads_bound(keys, marks, ids2, vals2, low);
        }
    }
}

/// A node with load `load`, chosen among `healthy` healthy nodes while the
/// total load is `total`, stays within the cap once the request is counted:
/// `load + 1` is at most the factor times the mean load `(total + 1) /
/// healthy`, rounded up.
pub open spec fn within_cap(load: u64, total: u64, healthy: nat, factor_ppm: u64) -> bool {
    &&& healthy >= 1
    &&& (load + 1) * (healthy * 1_000_000) < factor_ppm * (total + 1) + healthy * 1_000_000
}

proof fn lemma_cap_below_bound(load: u64, total: u64, healthy: nat, factor_ppm: u64)
    requires
        healthy >= 1,
        factor_ppm >= 1,
        load <= (total as nat * factor_ppm as nat) / (healthy * 1_000_000),
    ensures
        within_cap(load, total, healthy, factor_ppm),
{
    let d: int = (healthy * 1_000_000) as int;
    let x: int = (total as nat * factor_ppm as nat) as int;
    lemma_fundamental_div_mod(x, d);
    assert(load * d <= x) by (nonlinear_arith)
        requires
            load <= x / d,
            d > 0,
            x == d * (x / d) + x % d,
            x % d >= 0,
    ;
    assert((load + 1) * d == load * d + d) by (nonlinear_arith);
    assert(factor_ppm * (total + 1) == x + factor_ppm) by (nonlinear_arith)
        requires
            x == total as nat * factor_ppm as nat,
    ;
}

proof fn lemma_cap_below_mean(load: u64, total: u64, healthy: nat, factor_ppm: u64)
    requires
        healthy >= 1,
        factor_ppm >= 1_000_000,
        healthy * load <= total,
    ensures
        within_cap(load, total, healthy, factor_ppm),
{
    let d: int = (healthy * 1_000_000) as int;
    assert((load + 1) * d == (healthy * load) * 1_000_000 + d) by (nonlinear_arith)
        requires
            d == healthy * 1_000_000,
    ;
    assert(total * 1_000_000 <= total * factor_ppm) by (nonlinear_arith)
        requires
            factor_ppm >= 1_000_000,
    ;
    assert(factor_ppm * (total + 1) == total * factor_ppm + factor_ppm) by (nonlinear_arith);
}

/// The most load a node may carry and still be chosen: the average load per
/// healthy node times the factor, rounded down (0 with no healthy node,
/// `u64::MAX` where the product is larger).
pub open spec fn allowed_load(total: u64, healthy: nat, factor_ppm: u64) -> u64 {
    if healthy == 0 {
        0
    } else {
        let q = (total as nat * factor_ppm as nat) / (healthy * 1_000_000);
        if q > u64::MAX {
            u64::MAX
        } else {
            q as u64
        }
    }
}

/// The first of the probes `p, p + 1, .., max_probes - 1` clockwise from
/// point `start` whose node is healthy and within `max_load`.
pub open spec fn probe_pick(
    points: Seq<CompactPointV2>,
    nodes: Seq<Node>,
    health: Map<Seq<char>, bool>,
    loads: Map<Seq<char>, u64>,
    start: int,
    max_load: u64,
    p: nat,
    max_probes: nat,
) -> Option<int>
    decreases max_probes - p,
{
    if p >= max_probes {
        None
    } else {
        let ni = points[(start + p) % (points.len() as int)].node_index_spec() as int;
        let id = nodes[ni].id@;
        if is_up(health, id) && load_in(loads, id) <= max_load {
            Some(ni)
        } else {
            probe_pick(points, nodes, health, loads, start, max_load, p + 1, max_probes)
        }
    }
}

/// Among the first `k` nodes, the healthy one with the least load below
/// `u64::MAX`, the first such on ties.
pub open spec fn least_loaded(
    nodes: Seq<Node>,
    health: Map<Seq<char>, bool>,
    loads: Map<Seq<char>, u64>,
    k: nat,
) -> Option<int>
    decreases k,
{
    if k == 0 {
        None
    } else {
        let prev = least_loaded(nodes, health, loads, (k - 1) as nat);
        let id = nodes[k - 1].id@;
        if !is_up(health, id) {
            prev
        } else {
            let l = load_in(loads, id);
            match prev {
                None => if l < u64::MAX {
                    Some(k - 1)
                } else {
                    None
                },
                Some(j) => if l < load_in(loads, nodes[j].id@) {
                    Some(k - 1)
                } else {
                    prev
                },
            }
        }
    }
}

proof fn lemma_least_loaded_range(
    nodes: Seq<Node>,
    health: Map<Seq<char>, bool>,
    loads: Map<Seq<char>, u64>,
    k: nat,
)
    ensures
        least_loaded(nodes, health, loads, k) matches Some(j) ==> 0 <= j < k,
    decreases k,
{
    if k > 0 {
        lemma_least_loaded_range(nodes, health, loads, (k - 1) as nat);
    }
}

/// Ids of the nodes at the given indices.
pub open spec fn ids_of(nodes: Seq<Node>, idx: Seq<int>) -> Seq<Seq<char>> {
    idx.map_values(|j: int| nodes[j].id@)
}

/// The second step of `get_n`: healthy nodes in ring order whose ids were
/// not met before, appended while fewer than `n` are chosen.
pub open spec fn fill(
    nodes: Seq<Node>,
    health: Map<Seq<char>, bool>,
    seen: Seq<Seq<char>>,
    acc: Seq<int>,
    n: nat,
    k: nat,
) -> Seq<int>
    decreases k,
{
    if k == 0 {
        acc
    } else {
        let prev = fill(nodes, health, seen, acc, n, (k - 1) as nat);
        let id = nodes[k - 1].id@;
        if prev.len() < n && is_up(health, id) && !seen.contains(id) {
            prev.push(k - 1)
        } else {
            prev
        }
    }
}

fn allowed_load_exec(total: u64, healthy: usize, factor_ppm: u64) -> (m: u64)
    ensures
        m == allowed_load(total, healthy as nat, factor_ppm),
{
    if healthy == 0 {
        return 0;
    }
    assert((total as nat) * (factor_ppm as nat) <= u64::MAX * u64::MAX) by (nonlinear_arith);
    assert((healthy as nat) * 1_000_000 <= usize::MAX * 1_000_000) by (nonlinear_arith);
    let num: u128 = (total as u128) * (factor_ppm as u128);
    let den: u128 = (healthy as u128) * 1_000_000u128;
    let q = num / den;
    if q > u64::MAX as u128 {
        u64::MAX
    } else {
        q as u64
    }
}

// ---------------------------------------------------------------------------
// The ring
// ---------------------------------------------------------------------------

/// A ring that bounds each node's load: a lookup skips unhealthy nodes and
/// nodes above the allowed load; callers count their in-flight requests.
#[derive(Debug)]
pub struct BoundedRing<H: HashFunction> {
    ring: CompactRing<H>,
    config: BoundedConfig,
    load_tracker: LoadTracker,
    healthy: StrMap<bool>,
}

impl<H: HashFunction> BoundedRing<H> {
    pub closed spec fn spec_ring(&self) -> CompactRing<H> {
        self.ring
    }

    pub closed spec fn spec_config(&self) -> BoundedConfig {
        self.config
    }

    pub closed spec fn spec_loads(&self) -> Map<Seq<char>, u64> {
        self.load_tracker.spec_loads()
    }

    pub closed spec fn spec_total(&self) -> u64 {
        self.load_tracker.spec_total()
    }

    /// Health marks by node id (ids outside the ring may be marked too).
    pub closed spec fn spec_health(&self) -> Map<Seq<char>, bool> {
        self.healthy.spec_map()
    }

    /// How many ids are marked healthy.
    pub closed spec fn healthy_count(&self) -> nat {
        count_true(self.healthy.spec_vals())
    }

    /// The tracked ids, in the order they were given.
    pub closed spec fn spec_ids(&self) -> Seq<Seq<char>> {
        self.load_tracker.spec_ids()
    }

    /// The sum of all loads, as an integer; the running total is this sum
    /// modulo 2^64.
    pub open spec fn load_sum(&self) -> int {
        seq_sum(self.spec_ids().map_values(|k: Seq<char>| self.spec_loads()[k]))
    }

    /// Every id marked healthy is the id of a node of the ring.
    pub open spec fn marks_only_ring_nodes(&self) -> bool {
        forall|k: Seq<char>| #[trigger]
            is_up(self.spec_health(), k) ==> exists|j: int|
                0 <= j < self.spec_ring().spec_nodes().len() && self.spec_ring().spec_nodes()[j].id@ == k
    }

    /// Ring, settings and health marks are those of `other`.
    pub open spec fn same_setup(&self, other: &Self) -> bool {
        &&& self.spec_ring() == other.spec_ring()
        &&& self.spec_config() == other.spec_config()
        &&& self.spec_health() == other.spec_health()
        &&& self.healthy_count() == other.healthy_count()
    }

    /// The node index a bounded lookup of hash `h` chooses under the given
    /// loads, if any: the first healthy node within the allowed load among
    /// the probed points, else the least loaded healthy node.
    pub open spec fn pick(&self, loads: Map<Seq<char>, u64>, total: u64, h: u32) -> Option<int> {
        let points = self.spec_ring().spec_points();
        let nodes = self.spec_ring().spec_nodes();
        if points.len() == 0 {
            None
        } else {
            let max_load = allowed_load(total, self.healthy_count(), self.spec_config().max_load_factor_ppm);
            match probe_pick(
                points,
                nodes,
                self.spec_health(),
                loads,
                owner_index(points, h),
                max_load,
                0,
                self.spec_config().max_probes as nat,
            ) {
                Some(i) => Some(i),
                None => least_loaded(nodes, self.spec_health(), loads, nodes.len()),
            }
        }
    }

    /// The first step of `get_n` on hash `h`: the node a bounded lookup
    /// chooses (none where `n` or `max_probes` is 0), or `None` where the
    /// lookup finds no node. Lookups count nothing, so repeating one chooses
    /// the same node again.
    pub open spec fn first_choice(&self, h: u32, n: nat) -> Option<Seq<int>> {
        if n == 0 || self.spec_config().max_probes == 0 {
            Some(Seq::empty())
        } else {
            match self.pick(self.spec_loads(), self.spec_total(), h) {
                None => None,
                Some(i) => Some(seq![i]),
            }
        }
    }

    proof fn lemma_pick_range(&self, loads: Map<Seq<char>, u64>, total: u64, h: u32)
        requires
            points_in_range(self.spec_ring().spec_points(), self.spec_ring().spec_nodes().len()),
        ensures
            self.pick(loads, total, h) matches Some(i) ==> 0 <= i < self.spec_ring().spec_nodes().len(),
    {
        let points = self.spec_ring().spec_points();
        let nodes = self.spec_ring().spec_nodes();
        if points.len() > 0 {
            let max_load = allowed_load(total, self.healthy_count(), self.spec_config().max_load_factor_ppm);
            self.lemma_probe_range(loads, owner_index(points, h), max_load, 0);
            lemma_least_loaded_range(nodes, self.spec_health(), loads, nodes.len());
        }
    }

    proof fn lemma_probe_range(&self, loads: Map<Seq<char>, u64>, start: int, max_load: u64, p: nat)
        requires
            points_in_range(self.spec_ring().spec_points(), self.spec_ring().spec_nodes().len()),
            self.spec_ring().spec_points().len() > 0,
        ensures
            probe_pick(
                self.spec_ring().spec_points(),
                self.spec_ring().spec_nodes(),
                self.spec_health(),
                loads,
                start,
                max_load,
                p,
                self.spec_config().max_probes as nat,
            ) matches Some(i) ==> 0 <= i < self.spec_ring().spec_nodes().len(),
        decreases self.spec_config().max_probes - p,
    {
        let points = self.spec_ring().spec_points();
        if p < self.spec_config().max_probes {
            let k = (start + p) % (points.len() as int);
            vstd::arithmetic::div_mod::lemma_mod_bound(start + p, points.len() as int);
            assert(points[k].node_index_spec() < self.spec_ring().spec_nodes().len());
            self.lemma_probe_range(loads, start, max_load, p + 1);
        }
    }

    /// A bounded ring over `ring`: every node id tracked at load 0 and
    /// marked healthy.
    pub fn new(ring: CompactRing<H>, config: BoundedConfig) -> (r: crate::Result<Self>)
        ensures
            r matches Ok(b) && {
                &&& b.spec_ring() == ring
                &&& b.spec_config() == config
                &&& b.spec_total() == 0
                &&& forall|k: Seq<char>| #[trigger] b.spec_loads().contains_key(k) <==> ids_of(ring.spec_nodes(), Seq::new(ring.spec_nodes().len(), |i: int| i)).contains(k)
                &&& forall|k: Seq<char>| #[trigger] b.spec_loads().contains_key(k) ==> b.spec_loads()[k] == 0
                &&& forall|k: Seq<char>| #[trigger] b.spec_health().contains_key(k) <==> b.spec_loads().contains_key(k)
                &&& forall|k: Seq<char>| #[trigger] b.spec_health().contains_key(k) ==> b.spec_health()[k]
            },
    {
        let nodes = ring.nodes();
        let ghost all = Seq::new(ring.spec_nodes().len(), |i: int| i);
        let mut node_ids: Vec<String> = Vec::new();
        let mut healthy: StrMap<bool> = StrMap::new();
        let mut i: usize = 0;
        while i < nodes.len()
            invariant
                nodes@ == ring.spec_nodes(),
                all == Seq::new(ring.spec_nodes().len(), |i: int| i),
                i <= nodes@.len(),
                node_ids@.len() == i,
                forall|j: int| 0 <= j < i ==> (#[trigger] node_ids@[j])@ == nodes@[j].id@,
                forall|k: Seq<char>| #[trigger] healthy.spec_map().contains_key(k) <==> exists|j: int| 0 <= j < i && nodes@[j].id@ == k,
                forall|k: Seq<char>| #[trigger] healthy.spec_map().contains_key(k) ==> healthy.spec_map()[k],
            decreases nodes@.len() - i,
        {
            let id = nodes[i].id.clone();
            healthy.insert(id.as_str(), true);
            node_ids.push(id);
            proof {
                assert forall|k: Seq<char>| #[trigger] healthy.spec_map().contains_key(k) <==> exists|j: int| 0 <= j < i + 1 && nodes@[j].id@ == k by {
                    if k == nodes@[i as int].id@ {
                        assert(nodes@[i as int].id@ == k);
                    } else if exists|j: int| 0 <= j < i + 1 && nodes@[j].id@ == k {
                        let j = choose|j: int| 0 <= j < i + 1 && nodes@[j].id@ == k;
                        assert(j < i);
                    }
                }
            }
            i = i + 1;
        }
        let load_tracker = LoadTracker::new(node_ids.as_slice());
        let b = BoundedRing { ring, config, load_tracker, healthy };
        proof {
            let ids = ids_of(b.ring.spec_nodes(), all);
            assert forall|k: Seq<char>| (exists|j: int| 0 <= j < node_ids@.len() && node_ids@[j]@ == k) <==> #[trigger] ids.contains(k) by {
                if ids.contains(k) {
                    let j = choose|j: int| 0 <= j < ids.len() && ids[j] == k;
                    assert(node_ids@[j]@ == k);
                }
                if exists|j: int| 0 <= j < node_ids@.len() && node_ids@[j]@ == k {
                    let j = choose|j: int| 0 <= j < node_ids@.len() && node_ids@[j]@ == k;
                    assert(ids[j] == k);
                }
            }
            assert forall|k: Seq<char>| #[trigger] b.spec_health().contains_key(k) <==> b.spec_loads().contains_key(k) by {
                if exists|j: int| 0 <= j < node_ids@.len() && node_ids@[j]@ == k {
                    let j = choose|j: int| 0 <= j < node_ids@.len() && node_ids@[j]@ == k;
                    assert(nodes@[j].id@ == k);
                }
                if exists|j: int| 0 <= j < nodes@.len() && nodes@[j].id@ == k {
                    let j = choose|j: int| 0 <= j < nodes@.len() && nodes@[j].id@ == k;
                    assert(node_ids@[j]@ == k);
                }
            }
        }
        Ok(b)
    }

    pub fn builder(ring: CompactRing<H>) -> (b: BoundedRingBuilder<H>)
        ensures
            b.spec_ring() == ring,
            b.spec_config() == (BoundedConfig { enabled: true, max_load_factor_ppm: 1_250_000, max_probes: 100 }),
    {
        BoundedRingBuilder::new(ring)
    }

    fn count_healthy(&self) -> (c: usize)
        ensures
            c == self.healthy_count(),
    {
        let n = self.healthy.len();
        let mut c: usize = 0;
        let mut i: usize = 0;
        while i < n
            invariant
                n == self.healthy.spec_vals().len(),
                i <= n,
                c <= i,
                c == count_true(self.healthy.spec_vals().take(i as int)),
            decreases n - i,
        {
            assert(self.healthy.spec_vals().take(i + 1).drop_last() =~= self.healthy.spec_vals().take(i as int));
            if *self.healthy.value_at(i) {
                c = c + 1;
            }
            i = i + 1;
        }
        assert(self.healthy.spec_vals().take(n as int) =~= self.healthy.spec_vals());
        c
    }

    /// Whether `node_id` is marked healthy.
    pub fn is_healthy(&self, node_id: &str) -> (b: bool)
        ensures
            b == is_up(self.spec_health(), node_id@),
    {
        match self.healthy.get(node_id) {
            Some(h) => *h,
            None => false,
        }
    }

    fn find_least_loaded(&self) -> (r: Option<usize>)
        ensures
            match least_loaded(
                self.spec_ring().spec_nodes(),
                self.spec_health(),
                self.spec_loads(),
                self.spec_ring().spec_nodes().len(),
            ) {
                Some(i) => r == Some(i as usize),
                None => r is None,
            },
    {
        let nodes = self.ring.nodes();
        let mut best: Option<usize> = None;
        let mut best_load: u64 = u64::MAX;
        let mut k: usize = 0;
        while k < nodes.len()
            invariant
                nodes@ == self.spec_ring().spec_nodes(),
                k <= nodes@.len(),
                match least_loaded(nodes@, self.spec_health(), self.spec_loads(), k as nat) {
                    Some(j) => best == Some(j as usize) && 0 <= j < k && best_load == load_in(self.spec_loads(), nodes@[j].id@),
                    None => best is None && best_load == u64::MAX,
                },
            decreases nodes@.len() - k,
        {
            let id = nodes[k].id.as_str();
            if self.is_healthy(id) {
                let load = self.load_tracker.get_load(id);
                if load < best_load {
                    best_load = load;
                    best = Some(k);
                }
            }
            k = k + 1;
        }
        best
    }

    proof fn lemma_pick_within_cap(&self, h: u32)
        requires
            self.healthy.wf(),
            self.load_tracker.loads.wf(),
            points_in_range(self.spec_ring().spec_points(), self.spec_ring().spec_nodes().len()),
            self.spec_config().max_load_factor_ppm >= 1_000_000,
            self.marks_only_ring_nodes(),
            self.load_sum() == self.spec_total(),
        ensures
            self.pick(self.spec_loads(), self.spec_total(), h) matches Some(i) ==> within_cap(
                load_in(self.spec_loads(), self.spec_ring().spec_nodes()[i].id@),
                self.spec_total(),
                self.healthy_count(),
                self.spec_config().max_load_factor_ppm,
            ),
    {
        let points = self.spec_ring().spec_points();
        let nodes = self.spec_ring().spec_nodes();
        let health = self.spec_health();
        let loads = self.spec_loads();
        let total = self.spec_total();
        let ppm = self.spec_config().max_load_factor_ppm;
        let hc = self.healthy_count();
        self.lemma_pick_chooses_healthy_node(loads, total, h);
        if let Some(i) = self.pick(loads, total, h) {
            let id = nodes[i].id@;
            let l = load_in(loads, id);
            let keys = self.healthy.spec_keys();
            let marks = self.healthy.spec_vals();
            self.healthy.lemma_view();
            self.load_tracker.loads.lemma_view();
            let p = choose|p: int| 0 <= p < keys.len() && keys[p] == id;
            assert(marks[p]);
            lemma_count_true_update(marks, p);
            let max_load = allowed_load(total, hc, ppm);
            let start = owner_index(points, h);
            let mp = self.spec_config().max_probes as nat;
            lemma_probe_pick_sound(points, nodes, health, loads, start, max_load, 0, mp);
            if probe_pick(points, nodes, health, loads, start, max_load, 0, mp) is Some {
                lemma_cap_below_bound(l, total, hc, ppm);
            } else {
                lemma_least_loaded_sound(nodes, health, loads, nodes.len());
                if l > 0 {
                    let ids = self.load_tracker.loads.spec_keys();
                    let vals = self.load_tracker.loads.spec_vals();
                    assert forall|j: int| 0 <= j < keys.len() && #[trigger] marks[j] implies exists|q: int|
                        0 <= q < ids.len() && ids[q] == keys[j] && l <= vals[q] by {
                        assert(is_up(health, keys[j]));
                        let r = choose|r: int| 0 <= r < nodes.len() && nodes[r].id@ == keys[j];
                        assert(is_up(health, nodes[r].id@));
                        assert(loads.contains_key(keys[j]));
                        let q = choose|q: int| 0 <= q < ids.len() && ids[q] == keys[j];
                        assert(loads[ids[q]] == vals[q]);
                    }
                    lemma_marked_loads_bound(keys, marks, ids, vals, l);
                    assert(self.spec_ids().map_values(|k: Seq<char>| self.spec_loads()[k]) =~= vals);
                    assert(hc * l == count_true(marks) * l);
                    assert(hc * l <= total);
                } else {
                    assert(hc * l == 0) by (nonlinear_arith)
                        requires
                            l == 0,
                    ;
                }
                lemma_cap_below_mean(l, total, hc, ppm);
            }
        }
    }

    /// The node index that `pick` chooses for `key` under the current loads.
    fn pick_index(&self, key: &[u8]) -> (r: crate::Result<usize>)
        ensures
            ({
                let h = self.spec_ring().spec_hash_fn().spec_hash(key@);
                match self.pick(self.spec_loads(), self.spec_total(), h) {
                    None => r matches Err(ConsistentHashError::EmptyRing),
                    Some(i) => {
                        &&& r matches Ok(j) && j == i
                        &&& 0 <= i < self.spec_ring().spec_nodes().len()
                    },
                }
            }),
    {
        let h = self.ring.hash_function().hash(key);
        let n_points = self.ring.points().len();
        proof {
            self.lemma_pick_range(self.spec_loads(), self.spec_total(), h);
        }
        if n_points == 0 {
            return Err(ConsistentHashError::EmptyRing);
        }
        let healthy_count = self.count_healthy();
        let max_load = allowed_load_exec(self.load_tracker.total_load(), healthy_count, self.config.max_load_factor_ppm);
        let start = search_points(self.ring.points(), h) % n_points;
        let max_probes = self.config.max_probes;
        let ghost points = self.spec_ring().spec_points();
        let ghost nodes = self.spec_ring().spec_nodes();
        let ghost pp = probe_pick(points, nodes, self.spec_health(), self.spec_loads(), start as int, max_load, 0, max_probes as nat);
        assert(start as int == owner_index(points, h));
        let mut probe: usize = 0;
        while probe < max_probes
            invariant
                points == self.spec_ring().spec_points(),
                nodes == self.spec_ring().spec_nodes(),
                points_in_range(points, nodes.len()),
                n_points == points.len(),
                n_points > 0,
                max_probes == self.spec_config().max_probes,
                probe <= max_probes,
                start < n_points,
                start as int == owner_index(points, h),
                pp == probe_pick(points, nodes, self.spec_health(), self.spec_loads(), start as int, max_load, 0, max_probes as nat),
                h == self.spec_ring().spec_hash_fn().spec_hash(key@),
                max_load == allowed_load(self.spec_total(), self.healthy_count(), self.spec_config().max_load_factor_ppm),
                pp == probe_pick(points, nodes, self.spec_health(), self.spec_loads(), start as int, max_load, probe as nat, max_probes as nat),
            decreases max_probes - probe,
        {
            let rem = probe % n_points;
            let idx = if rem < n_points - start {
                start + rem
            } else {
                rem - (n_points - start)
            };
            proof {
                vstd::arithmetic::div_mod::lemma_add_mod_noop_right(start as int, probe as int, n_points as int);
                if rem < n_points - start {
                    lemma_small_mod((start + rem) as nat, n_points as nat);
                } else {
                    lemma_mod_sub_multiples_vanish((start + rem) as int, n_points as int);
                    lemma_small_mod((start + rem - n_points) as nat, n_points as nat);
                }
                assert(idx as int == (start + probe) % (n_points as int));
            }
            let ni = self.ring.points()[idx].node_index() as usize;
            assert(points[idx as int].node_index_spec() < nodes.len());
            let up = self.is_healthy(self.ring.nodes()[ni].id.as_str());
            if up && self.load_tracker.get_load(self.ring.nodes()[ni].id.as_str()) <= max_load {
                assert(pp == Some(ni as int));
                return Ok(ni);
            }
            probe = probe + 1;
        }
        assert(pp is None);
        assert(self.pick(self.spec_loads(), self.spec_total(), h) == least_loaded(
            nodes,
            self.spec_health(),
            self.spec_loads(),
            nodes.len(),
        ));
        let best = self.find_least_loaded();
        let node_count = self.ring.nodes().len();
        assert(node_count == nodes.len());
        proof {
            lemma_least_loaded_range(nodes, self.spec_health(), self.spec_loads(), nodes.len());
        }
        match best {
            Some(i) => {
                Ok(i)
            },
            None => Err(ConsistentHashError::EmptyRing),
        }
    }
}

impl<H: HashFunction> BoundedRing<H> {
    /// Bounded lookup of `key`: routes only, and counts nothing (callers
    /// count their in-flight work with `acquire` and `release`). Disabled,
    /// it is the ring's plain lookup.
    pub fn get(&self, key: &[u8]) -> (r: crate::Result<&Node>)
        ensures
            !self.spec_config().enabled ==> {
                &&& self.spec_ring().spec_points().len() == 0 ==> (r matches Err(ConsistentHashError::EmptyRing))
                &&& self.spec_ring().spec_points().len() > 0 ==> (r matches Ok(node) && *node == self.spec_ring().owner_of(
                    self.spec_ring().spec_hash_fn().spec_hash(key@),
                ))
            },
            self.spec_config().enabled ==> ({
                let h = self.spec_ring().spec_hash_fn().spec_hash(key@);
                match self.pick(self.spec_loads(), self.spec_total(), h) {
                    None => r matches Err(ConsistentHashError::EmptyRing),
                    Some(i) => r matches Ok(node) && *node == self.spec_ring().spec_nodes()[i],
                }
            }),
            self.spec_config().enabled && self.spec_ring().spec_points().len() > 0 && self.spec_config().max_probes >= 1
                && is_up(self.spec_health(), self.spec_ring().owner_of(self.spec_ring().spec_hash_fn().spec_hash(key@)).id@)
                && load_in(
                self.spec_loads(),
                self.spec_ring().owner_of(self.spec_ring().spec_hash_fn().spec_hash(key@)).id@,
            ) <= allowed_load(self.spec_total(), self.healthy_count(), self.spec_config().max_load_factor_ppm)
                ==> (r matches Ok(node) && *node == self.spec_ring().owner_of(
                self.spec_ring().spec_hash_fn().spec_hash(key@),
            )),
            self.spec_config().enabled && self.spec_config().max_load_factor_ppm >= 1_000_000
                && self.marks_only_ring_nodes() && self.load_sum() == self.spec_total() ==> (r matches Ok(node)
                ==> within_cap(
                load_in(self.spec_loads(), node.id@),
                self.spec_total(),
                self.healthy_count(),
                self.spec_config().max_load_factor_ppm,
            )),
    {
        if !self.config.enabled {
            return self.ring.get(key);
        }
        let points = self.ring.points();
        proof {
            let h = self.spec_ring().spec_hash_fn().spec_hash(key@);
            let owner = self.spec_ring().owner_of(h);
            if points@.len() > 0 && self.spec_config().max_probes >= 1 && is_up(self.spec_health(), owner.id@)
                && load_in(self.spec_loads(), owner.id@) <= allowed_load(
                self.spec_total(),
                self.healthy_count(),
                self.spec_config().max_load_factor_ppm,
            ) {
                self.lemma_pick_keeps_owner_within_bound(self.spec_loads(), self.spec_total(), h);
            }
        }
        proof {
            use_type_invariant(&self.healthy);
            use_type_invariant(&self.load_tracker.loads);
            assert(points_in_range(points@, self.spec_ring().spec_nodes().len()));
            if self.spec_config().max_load_factor_ppm >= 1_000_000 && self.marks_only_ring_nodes()
                && self.load_sum() == self.spec_total() {
                self.lemma_pick_within_cap(self.spec_ring().spec_hash_fn().spec_hash(key@));
            }
        }
        match self.pick_index(key) {
            Ok(i) => Ok(&self.ring.nodes()[i]),
            Err(e) => Err(e),
        }
    }
}


impl<H: HashFunction> BoundedRing<H> {
    /// Marks `node_id` healthy or not (any id may be marked).
    pub fn set_healthy(&mut self, node_id: &str, healthy: bool)
        ensures
            final(self).spec_ring() == old(self).spec_ring(),
            final(self).spec_config() == old(self).spec_config(),
            final(self).spec_loads() == old(self).spec_loads(),
            final(self).spec_total() == old(self).spec_total(),
            final(self).spec_health() == old(self).spec_health().insert(node_id@, healthy),
    {
        self.healthy.insert(node_id, healthy);
    }

    /// Counts one more request on `node_id`, where it is a node of the ring.
    pub fn acquire(&mut self, node_id: &str)
        ensures
            final(self).same_setup(&*old(self)),
            (final(self).spec_loads(), final(self).spec_total()) == acquire_load(
                old(self).spec_loads(),
                old(self).spec_total(),
                node_id@,
            ),
    {
        self.load_tracker.acquire(node_id);
    }

    /// Counts one request fewer on `node_id`, where it is a node of the ring.
    pub fn release(&mut self, node_id: &str)
        ensures
            final(self).same_setup(&*old(self)),
            (final(self).spec_loads(), final(self).spec_total()) == release_load(
                old(self).spec_loads(),
                old(self).spec_total(),
                node_id@,
            ),
            old(self).spec_loads().contains_key(node_id@) ==> {
                &&& final(self).spec_loads() == old(self).spec_loads().insert(
                    node_id@,
                    vstd::wrapping::u64_specs::wrapping_sub(old(self).spec_loads()[node_id@], 1),
                )
                &&& final(self).spec_total() == vstd::wrapping::u64_specs::wrapping_sub(old(self).spec_total(), 1)
            },
            !old(self).spec_loads().contains_key(node_id@) ==> {
                &&& final(self).spec_loads() == old(self).spec_loads()
                &&& final(self).spec_total() == old(self).spec_total()
            },
    {
        self.load_tracker.release(node_id);
    }

    /// Every node id with its load.
    pub fn loads(&self) -> (r: Vec<(String, u64)>)
        ensures
            r@.len() == self.spec_loads().dom().len(),
            forall|i: int| 0 <= i < r@.len() ==> {
                &&& self.spec_loads().contains_key((#[trigger] r@[i]).0@)
                &&& r@[i].1 == self.spec_loads()[r@[i].0@]
            },
            forall|k: Seq<char>| #[trigger] self.spec_loads().contains_key(k) ==> exists|i: int| 0 <= i < r@.len() && r@[i].0@ == k,
    {
        let r = self.load_tracker.get_all_loads();
        proof {
            let ids = self.load_tracker.spec_ids();
            ids.unique_seq_to_set();
            assert forall|i: int| 0 <= i < r@.len() implies self.spec_loads().contains_key((#[trigger] r@[i]).0@) by {
                assert(ids.to_set().contains(ids[i]));
            }
            assert forall|k: Seq<char>| #[trigger] self.spec_loads().contains_key(k) implies exists|i: int| 0 <= i < r@.len() && r@[i].0@ == k by {
                assert(ids.to_set().contains(k));
                let i = choose|i: int| 0 <= i < ids.len() && ids[i] == k;
                assert(r@[i].0@ == k);
            }
        }
        r
    }

    pub fn inner_ring(&self) -> (r: &CompactRing<H>)
        ensures
            *r == self.spec_ring(),
    {
        &self.ring
    }

    pub fn into_inner(self) -> (r: CompactRing<H>)
        ensures
            r == self.spec_ring(),
    {
        self.ring
    }

    /// Health, load and bound of every node of the ring.
    pub fn stats(&self) -> (st: BoundedStats)
        ensures
            st.config == self.spec_config(),
            st.healthy_count == self.healthy_count(),
            st.max_allowed_load == allowed_load(self.spec_total(), self.healthy_count(), self.spec_config().max_load_factor_ppm),
            st.total_load == self.spec_total(),
            st.node_loads@.len() == self.spec_ring().spec_nodes().len(),
            forall|i: int| 0 <= i < st.node_loads@.len() ==> {
                let id = self.spec_ring().spec_nodes()[i].id@;
                &&& (#[trigger] st.node_loads@[i]).node_id@ == id
                &&& st.node_loads@[i].load == load_in(self.spec_loads(), id)
                &&& st.node_loads@[i].healthy == is_up(self.spec_health(), id)
                &&& st.node_loads@[i].overloaded == (st.node_loads@[i].load > st.max_allowed_load && st.node_loads@[i].healthy)
            },
    {
        let healthy_count = self.count_healthy();
        let total = self.load_tracker.total_load();
        let max_load = allowed_load_exec(total, healthy_count, self.config.max_load_factor_ppm);
        let nodes = self.ring.nodes();
        let mut node_loads: Vec<NodeLoadStat> = Vec::new();
        let mut i: usize = 0;
        while i < nodes.len()
            invariant
                nodes@ == self.spec_ring().spec_nodes(),
                i <= nodes@.len(),
                node_loads@.len() == i,
                forall|j: int| 0 <= j < i ==> {
                    let id = nodes@[j].id@;
                    &&& (#[trigger] node_loads@[j]).node_id@ == id
                    &&& node_loads@[j].load == load_in(self.spec_loads(), id)
                    &&& node_loads@[j].healthy == is_up(self.spec_health(), id)
                    &&& node_loads@[j].overloaded == (node_loads@[j].load > max_load && node_loads@[j].healthy)
                },
            decreases nodes@.len() - i,
        {
            let id = nodes[i].id.as_str();
            let load = self.load_tracker.get_load(id);
            let healthy = self.is_healthy(id);
            node_loads.push(NodeLoadStat { node_id: nodes[i].id.clone(), load, healthy, overloaded: load > max_load && healthy });
            i = i + 1;
        }
        BoundedStats { config: self.config, healthy_count, max_allowed_load: max_load, total_load: total, node_loads }
    }
}

/// Settings of a bounded ring being built.
pub struct BoundedRingBuilder<H: HashFunction> {
    ring: CompactRing<H>,
    config: BoundedConfig,
}

impl<H: HashFunction> BoundedRingBuilder<H> {
    pub closed spec fn spec_ring(&self) -> CompactRing<H> {
        self.ring
    }

    pub closed spec fn spec_config(&self) -> BoundedConfig {
        self.config
    }

    pub fn new(ring: CompactRing<H>) -> (b: Self)
        ensures
            b.spec_ring() == ring,
            b.spec_config() == (BoundedConfig { enabled: true, max_load_factor_ppm: 1_250_000, max_probes: 100 }),
    {
        BoundedRingBuilder { ring, config: BoundedConfig::default() }
    }

    /// Sets the bound, as a multiple of the average load in millionths.
    pub fn max_load_factor(self, factor_ppm: u64) -> (b: Self)
        ensures
            b.spec_ring() == self.spec_ring(),
            b.spec_config() == (BoundedConfig { max_load_factor_ppm: factor_ppm, ..self.spec_config() }),
    {
        let mut config = self.config;
        config.max_load_factor_ppm = factor_ppm;
        BoundedRingBuilder { ring: self.ring, config }
    }

    pub fn max_probes(self, probes: usize) -> (b: Self)
        ensures
            b.spec_ring() == self.spec_ring(),
            b.spec_config() == (BoundedConfig { max_probes: probes, ..self.spec_config() }),
    {
        let mut config = self.config;
        config.max_probes = probes;
        BoundedRingBuilder { ring: self.ring, config }
    }

    pub fn disabled(self) -> (b: Self)
        ensures
            b.spec_ring() == self.spec_ring(),
            b.spec_config() == (BoundedConfig { enabled: false, max_load_factor_ppm: 1_000_000, max_probes: 1 }),
    {
        BoundedRingBuilder { ring: self.ring, config: BoundedConfig::disabled() }
    }

    pub fn build(self) -> (r: crate::Result<BoundedRing<H>>)
        ensures
            r matches Ok(b) && {
                &&& b.spec_ring() == self.spec_ring()
                &&& b.spec_config() == self.spec_config()
                &&& b.spec_total() == 0
                &&& forall|k: Seq<char>| #[trigger] b.spec_loads().contains_key(k) ==> b.spec_loads()[k] == 0
                &&& forall|k: Seq<char>| #[trigger] b.spec_health().contains_key(k) <==> b.spec_loads().contains_key(k)
                &&& forall|k: Seq<char>| #[trigger] b.spec_health().contains_key(k) ==> b.spec_health()[k]
            },
    {
        BoundedRing::new(self.ring, self.config)
    }
}

/// Settings, health and loads of a bounded ring.
#[derive(Debug, Clone)]
pub struct BoundedStats {
    pub config: BoundedConfig,
    pub healthy_count: usize,
    pub max_allowed_load: u64,
    pub total_load: u64,
    pub node_loads: Vec<NodeLoadStat>,
}

/// One node's load, health, and whether it is above the bound.
#[derive(Debug, Clone)]
pub struct NodeLoadStat {
    pub node_id: String,
    pub load: u64,
    pub healthy: bool,
    pub overloaded: bool,
}


pub open spec fn as_ints(v: Seq<usize>) -> Seq<int> {
    v.map_values(|j: usize| j as int)
}

impl<H: HashFunction> BoundedRing<H> {
    /// Whether one of the first `upto` chosen nodes has id `id`.
    fn id_listed(&self, picked: &Vec<usize>, upto: usize, id: &str) -> (b: bool)
        requires
            upto <= picked@.len(),
            forall|k: int| 0 <= k < picked@.len() ==> picked@[k] < self.spec_ring().spec_nodes().len(),
        ensures
            b == ids_of(self.spec_ring().spec_nodes(), as_ints(picked@.take(upto as int))).contains(id@),
    {
        let nodes = self.ring.nodes();
        let ghost ids = ids_of(nodes@, as_ints(picked@.take(upto as int)));
        let mut k: usize = 0;
        while k < upto
            invariant
                nodes@ == self.spec_ring().spec_nodes(),
                upto <= picked@.len(),
                forall|q: int| 0 <= q < picked@.len() ==> picked@[q] < nodes@.len(),
                ids == ids_of(nodes@, as_ints(picked@.take(upto as int))),
                ids.len() == upto,
                k <= upto,
                forall|q: int| 0 <= q < k ==> ids[q] != id@,
            decreases upto - k,
        {
            assert(ids[k as int] == nodes@[picked@[k as int] as int].id@);
            if crate::bytes::str_eq(nodes[picked[k]].id.as_str(), id) {
                return true;
            }
            k = k + 1;
        }
        false
    }

    /// Up to `n` distinct nodes for `key`: the node a bounded lookup
    /// chooses, then healthy nodes not yet chosen, in ring order. It counts
    /// nothing. Disabled, it is the ring's plain `get_n`.
    pub fn get_n(&self, key: &[u8], n: usize) -> (r: crate::Result<Vec<&Node>>)
        ensures
            !self.spec_config().enabled ==> {
                let ring = self.spec_ring();
                &&& ring.spec_points().len() == 0 ==> (r matches Err(ConsistentHashError::EmptyRing))
                &&& ring.spec_points().len() > 0 ==> (r matches Ok(v) && {
                    let idx = replica_indices(
                        ring.spec_points(),
                        ring.spec_nodes().len(),
                        ring.spec_hash_fn().spec_hash(key@),
                        n as nat,
                    );
                    &&& v@.len() == idx.len()
                    &&& forall|k: int| 0 <= k < v@.len() ==> *v@[k] == ring.spec_nodes()[#[trigger] idx[k]]
                })
            },
            self.spec_config().enabled ==> ({
                let h = self.spec_ring().spec_hash_fn().spec_hash(key@);
                let nodes = self.spec_ring().spec_nodes();
                match self.first_choice(h, n as nat) {
                    None => r matches Err(ConsistentHashError::EmptyRing),
                    Some(acc) => r matches Ok(v) && {
                        let idx = fill(nodes, self.spec_health(), ids_of(nodes, acc), acc, n as nat, nodes.len());
                        &&& v@.len() == idx.len()
                        &&& forall|k: int| 0 <= k < v@.len() ==> *v@[k] == nodes[#[trigger] idx[k]]
                    },
                }
            }),
    {
        if !self.config.enabled {
            return self.ring.get_n(key, n);
        }
        let ghost h = self.spec_ring().spec_hash_fn().spec_hash(key@);
        let ghost nodes = self.spec_ring().spec_nodes();
        let mut picked: Vec<usize> = Vec::new();
        if n > 0 && self.config.max_probes > 0 {
            match self.pick_index(key) {
                Ok(i) => {
                    picked.push(i);
                },
                Err(e) => {
                    return Err(e);
                },
            }
        }
        assert(self.first_choice(h, n as nat) == Some(as_ints(picked@))) by {
            if picked@.len() == 0 {
                assert(as_ints(picked@) =~= Seq::<int>::empty());
            } else {
                assert(as_ints(picked@) =~= seq![picked@[0] as int]);
            }
        }
        let base = picked.len();
        let ghost acc = as_ints(picked@);
        let ghost seen = ids_of(nodes, acc);
        let ghost health = self.spec_health();
        assert(fill(nodes, health, seen, acc, n as nat, 0) == acc);
        let node_count = self.ring.nodes().len();
        let mut j: usize = 0;
        while j < node_count
            invariant
                nodes == self.spec_ring().spec_nodes(),
                health == self.spec_health(),
                node_count == nodes.len(),
                j <= node_count,
                base <= picked@.len(),
                forall|k: int| 0 <= k < picked@.len() ==> picked@[k] < nodes.len(),
                as_ints(picked@.take(base as int)) == acc,
                seen == ids_of(nodes, acc),
                as_ints(picked@) == fill(nodes, health, seen, acc, n as nat, j as nat),
            decreases node_count - j,
        {
            if picked.len() < n {
                let up = self.is_healthy(self.ring.nodes()[j].id.as_str());
                if up {
                    let listed = self.id_listed(&picked, base, self.ring.nodes()[j].id.as_str());
                    if !listed {
                        let ghost before = picked@;
                        picked.push(j);
                        assert(as_ints(picked@) =~= as_ints(before).push(j as int));
                        assert(picked@.take(base as int) =~= before.take(base as int));
                    }
                }
            }
            j = j + 1;
        }
        let node_refs = self.ring.nodes();
        let mut out: Vec<&Node> = Vec::new();
        let mut k: usize = 0;
        while k < picked.len()
            invariant
                node_refs@ == nodes,
                forall|q: int| 0 <= q < picked@.len() ==> picked@[q] < nodes.len(),
                k <= picked@.len(),
                out@.len() == k,
                forall|q: int| 0 <= q < k ==> *out@[q] == nodes[picked@[q] as int],
            decreases picked@.len() - k,
        {
            out.push(&node_refs[picked[k]]);
            k = k + 1;
        }
        Ok(out)
    }
}


// ---------------------------------------------------------------------------
// Laws
// ---------------------------------------------------------------------------

proof fn lemma_probe_pick_sound(
    points: Seq<CompactPointV2>,
    nodes: Seq<Node>,
    health: Map<Seq<char>, bool>,
    loads: Map<Seq<char>, u64>,
    start: int,
    max_load: u64,
    p: nat,
    max_probes: nat,
)
    ensures
        probe_pick(points, nodes, health, loads, start, max_load, p, max_probes) matches Some(i) ==> {
            &&& is_up(health, nodes[i].id@)
            &&& load_in(loads, nodes[i].id@) <= max_load
        },
    decreases max_probes - p,
{
    if p < max_probes {
        lemma_probe_pick_sound(points, nodes, health, loads, start, max_load, p + 1, max_probes);
    }
}

proof fn lemma_least_loaded_sound(
    nodes: Seq<Node>,
    health: Map<Seq<char>, bool>,
    loads: Map<Seq<char>, u64>,
    k: nat,
)
    requires
        k <= nodes.len(),
    ensures
        least_loaded(nodes, health, loads, k) matches Some(i) ==> {
            &&& 0 <= i < k
            &&& is_up(health, nodes[i].id@)
            &&& load_in(loads, nodes[i].id@) < u64::MAX
            &&& forall|j: int| 0 <= j < k && is_up(health, #[trigger] nodes[j].id@) ==> load_in(loads, nodes[i].id@) <= load_in(loads, nodes[j].id@)
        },
        least_loaded(nodes, health, loads, k) is None ==> forall|j: int| 0 <= j < k && is_up(health, #[trigger] nodes[j].id@) ==> load_in(loads, nodes[j].id@) == u64::MAX,
    decreases k,
{
    if k > 0 {
        lemma_least_loaded_sound(nodes, health, loads, (k - 1) as nat);
    }
}

impl<H: HashFunction> BoundedRing<H> {
    /// A bounded lookup only ever chooses a healthy node of the ring, and that
    /// node is within the allowed load, or else no healthy node carries less.
    pub proof fn lemma_pick_chooses_healthy_node(&self, loads: Map<Seq<char>, u64>, total: u64, h: u32)
        requires
            points_in_range(self.spec_ring().spec_points(), self.spec_ring().spec_nodes().len()),
        ensures
            self.pick(loads, total, h) matches Some(i) ==> {
                let nodes = self.spec_ring().spec_nodes();
                &&& 0 <= i < nodes.len()
                &&& is_up(self.spec_health(), nodes[i].id@)
                &&& load_in(loads, nodes[i].id@) <= allowed_load(total, self.healthy_count(), self.spec_config().max_load_factor_ppm)
                    || forall|j: int| 0 <= j < nodes.len() && is_up(self.spec_health(), #[trigger] nodes[j].id@) ==> load_in(loads, nodes[i].id@) <= load_in(loads, nodes[j].id@)
            },
    {
        let points = self.spec_ring().spec_points();
        let nodes = self.spec_ring().spec_nodes();
        self.lemma_pick_range(loads, total, h);
        if points.len() > 0 {
            let max_load = allowed_load(total, self.healthy_count(), self.spec_config().max_load_factor_ppm);
            lemma_probe_pick_sound(points, nodes, self.spec_health(), loads, owner_index(points, h), max_load, 0, self.spec_config().max_probes as nat);
            lemma_least_loaded_sound(nodes, self.spec_health(), loads, nodes.len());
        }
    }

    /// While the key's owner on the plain ring is healthy and carries no
    /// more than the allowed load, a bounded lookup with at least one probe
    /// answers with that owner, as the plain ring does.
    pub proof fn lemma_pick_keeps_owner_within_bound(&self, loads: Map<Seq<char>, u64>, total: u64, h: u32)
        requires
            self.spec_ring().spec_points().len() > 0,
            points_in_range(self.spec_ring().spec_points(), self.spec_ring().spec_nodes().len()),
            self.spec_config().max_probes >= 1,
            is_up(self.spec_health(), self.spec_ring().owner_of(h).id@),
            load_in(loads, self.spec_ring().owner_of(h).id@) <= allowed_load(
                total,
                self.healthy_count(),
                self.spec_config().max_load_factor_ppm,
            ),
        ensures
            self.pick(loads, total, h) matches Some(i) && self.spec_ring().spec_nodes()[i] == self.spec_ring().owner_of(h)
                && i == self.spec_ring().spec_points()[owner_index(self.spec_ring().spec_points(), h)].node_index_spec(),
    {
        let points = self.spec_ring().spec_points();
        let len = points.len() as int;
        let start = owner_index(points, h);
        vstd::arithmetic::div_mod::lemma_mod_bound(crate::ring::search_from(points, h, 0, len), len);
        lemma_small_mod(start as nat, len as nat);
        assert((start + 0) % len == start);
    }

    /// The same rule in plain arithmetic: while the owner is healthy and its
    /// load is at most the factor times the average load over the healthy
    /// nodes (`load * healthy <= total * factor`), the owner answers.
    pub proof fn lemma_owner_kept_up_to_factor_times_mean(&self, loads: Map<Seq<char>, u64>, total: u64, h: u32)
        requires
            self.spec_ring().spec_points().len() > 0,
            points_in_range(self.spec_ring().spec_points(), self.spec_ring().spec_nodes().len()),
            self.spec_config().max_probes >= 1,
            self.healthy_count() >= 1,
            is_up(self.spec_health(), self.spec_ring().owner_of(h).id@),
            load_in(loads, self.spec_ring().owner_of(h).id@) * (self.healthy_count() * 1_000_000) <= total
                * self.spec_config().max_load_factor_ppm,
        ensures
            self.pick(loads, total, h) matches Some(i) && self.spec_ring().spec_nodes()[i] == self.spec_ring().owner_of(h),
    {
        let l = load_in(loads, self.spec_ring().owner_of(h).id@);
        let d = (self.healthy_count() * 1_000_000) as int;
        let x = (total as nat * self.spec_config().max_load_factor_ppm as nat) as int;
        lemma_fundamental_div_mod(x, d);
        assert(l <= x / d) by (nonlinear_arith)
            requires
                l * d <= x,
                d > 0,
                x == d * (x / d) + x % d,
                x % d < d,
                x % d >= 0,
        ;
        vstd::arithmetic::div_mod::lemma_mod_bound(x, d);
        assert(l <= allowed_load(total, self.healthy_count(), self.spec_config().max_load_factor_ppm));
        self.lemma_pick_keeps_owner_within_bound(loads, total, h);
    }

    /// With no load anywhere, a bounded lookup whose owner is healthy
    /// routes exactly as the plain ring does.
    pub proof fn lemma_unloaded_ring_routes_as_plain_ring(&self, loads: Map<Seq<char>, u64>, h: u32)
        requires
            self.spec_ring().spec_points().len() > 0,
            points_in_range(self.spec_ring().spec_points(), self.spec_ring().spec_nodes().len()),
            self.spec_config().max_probes >= 1,
            is_up(self.spec_health(), self.spec_ring().owner_of(h).id@),
            forall|k: Seq<char>| #[trigger] loads.contains_key(k) ==> loads[k] == 0,
        ensures
            self.pick(loads, 0, h) matches Some(i) && self.spec_ring().spec_nodes()[i] == self.spec_ring().owner_of(h),
    {
        self.lemma_pick_keeps_owner_within_bound(loads, 0, h);
    }

    /// A bounded lookup on a ring with points finds a node whenever some
    /// node of the ring is healthy with a load below `u64::MAX`.
    pub proof fn lemma_pick_answers_while_a_node_is_up(&self, loads: Map<Seq<char>, u64>, total: u64, h: u32, j: int)
        requires
            self.spec_ring().spec_points().len() > 0,
            0 <= j < self.spec_ring().spec_nodes().len(),
            is_up(self.spec_health(), self.spec_ring().spec_nodes()[j].id@),
            load_in(loads, self.spec_ring().spec_nodes()[j].id@) < u64::MAX,
        ensures
            self.pick(loads, total, h) is Some,
    {
        let nodes = self.spec_ring().spec_nodes();
        lemma_least_loaded_sound(nodes, self.spec_health(), loads, nodes.len());
        assert(is_up(self.spec_health(), nodes[j].id@));
    }

    /// The nodes `get_n` answers with are distinct nodes of the ring, and
    /// never more than `n`.
    pub proof fn lemma_get_n_distinct(&self, h: u32, n: nat)
        ensures
            self.first_choice(h, n) matches Some(acc) ==> ({
                let nodes = self.spec_ring().spec_nodes();
                let idx = fill(nodes, self.spec_health(), ids_of(nodes, acc), acc, n, nodes.len());
                &&& idx.no_duplicates()
                &&& idx.len() <= n
            }),
    {
        let nodes = self.spec_ring().spec_nodes();
        if let Some(acc) = self.first_choice(h, n) {
            if acc.len() == 0 {
                assert(ids_of(nodes, acc) =~= Seq::<Seq<char>>::empty());
            } else {
                assert(ids_of(nodes, acc) =~= seq![nodes[acc[0]].id@]);
            }
            lemma_fill_distinct(nodes, self.spec_health(), acc, n, nodes.len());
        }
    }
}

proof fn lemma_fill_distinct(nodes: Seq<Node>, health: Map<Seq<char>, bool>, acc: Seq<int>, n: nat, k: nat)
    requires
        ids_of(nodes, acc).no_duplicates(),
        acc.len() <= n,
        k <= nodes.len(),
    ensures
        fill(nodes, health, ids_of(nodes, acc), acc, n, k).no_duplicates(),
        fill(nodes, health, ids_of(nodes, acc), acc, n, k).len() <= n,
        forall|q: int| acc.len() <= q < fill(nodes, health, ids_of(nodes, acc), acc, n, k).len()
            ==> #[trigger] fill(nodes, health, ids_of(nodes, acc), acc, n, k)[q] < k
                && !ids_of(nodes, acc).contains(nodes[fill(nodes, health, ids_of(nodes, acc), acc, n, k)[q]].id@),
        fill(nodes, health, ids_of(nodes, acc), acc, n, k).take(acc.len() as int) == acc,
        fill(nodes, health, ids_of(nodes, acc), acc, n, k).len() >= acc.len(),
    decreases k,
{
    let seen = ids_of(nodes, acc);
    if k == 0 {
        assert(acc.take(acc.len() as int) =~= acc);
        assert forall|a: int, b: int| 0 <= a < acc.len() && 0 <= b < acc.len() && a != b implies acc[a] != acc[b] by {
            assert(seen[a] != seen[b]);
        }
    } else {
        lemma_fill_distinct(nodes, health, acc, n, (k - 1) as nat);
        let prev = fill(nodes, health, seen, acc, n, (k - 1) as nat);
        let cur = fill(nodes, health, seen, acc, n, k);
        if cur != prev {
            assert(cur == prev.push(k - 1));
            assert(!seen.contains(nodes[k - 1].id@));
            assert forall|a: int| 0 <= a < prev.len() implies prev[a] != k - 1 by {
                if a < acc.len() {
                    assert(prev.take(acc.len() as int)[a] == acc[a]);
                    assert(seen[a] == nodes[acc[a]].id@);
                    if acc[a] == k - 1 {
                        assert(seen.contains(seen[a]));
                    }
                } else {
                    assert(prev[a] < k - 1);
                }
            }
            assert(cur.take(acc.len() as int) =~= prev.take(acc.len() as int));
        }
    }
}

} // verus!

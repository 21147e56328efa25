//! `CompactRing`: a consistent hashing ring of weighted virtual nodes, six
//! bytes per point (32-bit hash, 16-bit node index).

use vstd::prelude::*;
use vstd::utf8::encode_utf8;
use vstd::multiset::Multiset;
use crate::{CompactPointV2, ConsistentHashError, HashFunction, DefaultHash, points_sorted};
use crate::bytes::{decimal, push_all, push_decimal, push_le2, push_le4, push_le8, le2, le4, le8, read_le2, read_le4, read_le8};
use vstd::utf8::{valid_utf8, decode_utf8};
use crate::outside;

verus! {

broadcast use CompactPointV2::lemma_mk;

/// Which hash function a ring configuration names.
#[derive(Debug, Clone, Copy, PartialEq, Eq, Structural)]
pub enum HashFunctionType {
    Default,
    Ketama,
}

/// How many points each node gets. The target coefficient of variation is
/// given in millionths (0.08 is `80_000`).
#[derive(Debug, Clone, Copy)]
pub struct RingConfig {
    pub base_hashes_per_node: usize,
    pub target_cv_ppm: u32,
    pub max_hashes_per_node: usize,
    pub min_hashes_per_node: usize,
    pub use_v2_format: bool,
    pub hash_function: HashFunctionType,
}

impl Default for RingConfig {
    fn default() -> (c: Self)
        ensures
            c.base_hashes_per_node == 160,
            c.target_cv_ppm == 80_000,
            c.max_hashes_per_node == 100_000,
            c.min_hashes_per_node == 1,
            c.use_v2_format,
            c.hash_function == HashFunctionType::Default,
    {
        RingConfig {
            base_hashes_per_node: 160,
            target_cv_ppm: 80_000,
            max_hashes_per_node: 100_000,
            min_hashes_per_node: 1,
            use_v2_format: true,
            hash_function: HashFunctionType::Default,
        }
    }
}

/// A member of a ring: its id, its weight and optional metadata.
#[derive(Debug)]
pub struct Node {
    pub id: String,
    pub weight: u64,
    pub metadata: Option<serde_json::Value>,
}

impl Node {
    pub fn new(id: &str, weight: u64) -> (n: Self)
        ensures
            n.id@ == id@,
            n.weight == weight,
            n.metadata is None,
    {
        Node { id: id.to_owned(), weight, metadata: None }
    }

    pub fn with_metadata(self, metadata: serde_json::Value) -> (n: Self)
        ensures
            n.id == self.id,
            n.weight == self.weight,
            n.metadata == Some(metadata),
    {
        Node { id: self.id, weight: self.weight, metadata: Some(metadata) }
    }
}

impl Clone for Node {
    fn clone(&self) -> (n: Self)
        ensures
            n.id == self.id,
            n.weight == self.weight,
    {
        Node { id: self.id.clone(), weight: self.weight, metadata: self.metadata.clone() }
    }
}

/// Node sequences with the same ids and weights, position by position.
pub open spec fn same_members(a: Seq<Node>, b: Seq<Node>) -> bool {
    &&& a.len() == b.len()
    &&& forall|i: int| 0 <= i < a.len() ==> (#[trigger] a[i]).id@ == b[i].id@ && a[i].weight == b[i].weight
}

// ---------------------------------------------------------------------------
// Points per node
// ---------------------------------------------------------------------------

pub open spec fn ceil_div(a: nat, b: nat) -> nat {
    if a % b == 0 {
        a / b
    } else {
        a / b + 1
    }
}

/// Points per node that reach the target coefficient of variation
/// `sqrt((n - 1) / (n + 1) / k)`: the least `k >= 1` with a variation of at
/// most `target_cv_ppm / 10^6`, capped at `usize::MAX`.
pub open spec fn optimal_hashes_spec(n: nat, target_cv_ppm: nat) -> nat {
    if n <= 1 || target_cv_ppm == 0 {
        1
    } else {
        let k = ceil_div(
            ((n - 1) * 1_000_000_000_000) as nat,
            ((n + 1) * (target_cv_ppm * target_cv_ppm)) as nat,
        );
        let k = if k < 1 {
            1
        } else {
            k
        };
        if k > usize::MAX {
            usize::MAX as nat
        } else {
            k
        }
    }
}

pub fn optimal_hashes_for_cv_ppm(n_nodes: usize, target_cv_ppm: u32) -> (k: usize)
    ensures
        k == optimal_hashes_spec(n_nodes as nat, target_cv_ppm as nat),
{
    if n_nodes <= 1 || target_cv_ppm == 0 {
        return 1;
    }
    let n = n_nodes as u128;
    let c = target_cv_ppm as u128;
    assert((n - 1) * 1_000_000_000_000 <= 0x1_0000_0000_0000_0000 * 1_000_000_000_000)
        by (nonlinear_arith)
        requires
            n <= 0x1_0000_0000_0000_0000,
            n >= 1,
    ;
    let num: u128 = (n - 1) * 1_000_000_000_000;
    assert(c * c <= 0xffff_ffff * 0xffff_ffff) by (nonlinear_arith)
        requires
            c <= 0xffff_ffff,
    ;
    let cc: u128 = c * c;
    assert(cc >= 1) by (nonlinear_arith)
        requires
            cc == c * c,
            c >= 1,
    ;
    assert((n + 1) * cc <= 0x1_0000_0000_0000_0000 * (0xffff_ffff * 0xffff_ffff))
        by (nonlinear_arith)
        requires
            n + 1 <= 0x1_0000_0000_0000_0000,
            cc <= 0xffff_ffff * 0xffff_ffff,
    ;
    assert((n + 1) * cc >= 1) by (nonlinear_arith)
        requires
            n + 1 >= 1,
            cc >= 1,
            cc == c * c,
            c >= 1,
    ;
    let den: u128 = (n + 1) * cc;
    let mut k: u128 = num / den;
    if num % den != 0 {
        k = k + 1;
    }
    if k < 1 {
        k = 1;
    }
    if k > usize::MAX as u128 {
        usize::MAX
    } else {
        k as usize
    }
}

pub open spec fn clamp(x: nat, lo: nat, hi: nat) -> nat {
    if x < lo {
        lo
    } else if x > hi {
        hi
    } else {
        x
    }
}

/// Points per average-weight node for a ring of `n` nodes.
pub open spec fn hashes_per_node(n: nat, config: RingConfig) -> nat {
    clamp(
        optimal_hashes_spec(n, config.target_cv_ppm as nat),
        config.min_hashes_per_node as nat,
        config.max_hashes_per_node as nat,
    )
}

/// Sum of the weights of the first `k` nodes.
pub open spec fn weight_sum(nodes: Seq<Node>, k: nat) -> nat
    decreases k,
{
    if k == 0 || k > nodes.len() {
        0
    } else {
        weight_sum(nodes, (k - 1) as nat) + nodes[k - 1].weight as nat
    }
}

pub open spec fn total_weight(nodes: Seq<Node>) -> nat {
    weight_sum(nodes, nodes.len())
}

/// Points of a node of weight `w`: its share of `h * n` by weight, at least one.
pub open spec fn points_for_node(h: nat, w: nat, n: nat, total: nat) -> nat {
    let c = h * w * n / total;
    if c < 1 {
        1
    } else {
        c
    }
}

/// The bytes hashed for point `i` of the node with this id: `"{id}-{i}"`.
pub open spec fn seed_bytes(id: Seq<char>, i: nat) -> Seq<u8> {
    encode_utf8(id) + seq![45u8] + decimal(i)
}

/// The points of node `j`, in the order of their seeds.
pub open spec fn node_points<H: HashFunction>(hf: H, id: Seq<char>, j: u16, count: nat) -> Seq<
    CompactPointV2,
> {
    Seq::new(count, |i: int| CompactPointV2::mk(hf.spec_hash(seed_bytes(id, i as nat)), j))
}

/// The points of the first `k` nodes of a ring with `h` points per average
/// node, before sorting.
pub open spec fn points_upto<H: HashFunction>(hf: H, nodes: Seq<Node>, h: nat, k: nat) -> Seq<
    CompactPointV2,
>
    decreases k,
{
    if k == 0 || k > nodes.len() {
        Seq::empty()
    } else {
        points_upto(hf, nodes, h, (k - 1) as nat) + node_points(
            hf,
            nodes[k - 1].id@,
            (k - 1) as u16,
            points_for_node(h, nodes[k - 1].weight as nat, nodes.len(), total_weight(nodes)),
        )
    }
}

/// All points of the ring that `new` builds from these nodes, before sorting.
pub open spec fn ring_points<H: HashFunction>(hf: H, nodes: Seq<Node>, config: RingConfig) -> Seq<
    CompactPointV2,
> {
    points_upto(hf, nodes, hashes_per_node(nodes.len(), config), nodes.len())
}

/// Nodes that `new` accepts: at least one, none of weight zero.
pub open spec fn nodes_valid(nodes: Seq<Node>) -> bool {
    nodes.len() > 0 && forall|i: int| 0 <= i < nodes.len() ==> #[trigger] nodes[i].weight > 0
}

/// What `new` needs of accepted nodes to run without overflow: a weight
/// total that fits `u64`, a minimum no larger than the maximum, and points
/// that fit in memory.
pub open spec fn ring_inputs_fit(nodes: Seq<Node>, config: RingConfig) -> bool {
    nodes_valid(nodes) ==> {
        &&& total_weight(nodes) <= u64::MAX
        &&& config.min_hashes_per_node <= config.max_hashes_per_node
        &&& nodes.len() <= 65536 ==> nodes.len() * hashes_per_node(nodes.len(), config) * 6
            <= isize::MAX
    }
}

proof fn lemma_weight_sum_mono(nodes: Seq<Node>, a: nat, b: nat)
    requires
        a <= b <= nodes.len(),
    ensures
        weight_sum(nodes, a) <= weight_sum(nodes, b),
    decreases b,
{
    if a < b {
        lemma_weight_sum_mono(nodes, a, (b - 1) as nat);
    }
}

proof fn lemma_weight_le_total(nodes: Seq<Node>, j: int)
    requires
        0 <= j < nodes.len(),
    ensures
        nodes[j].weight <= total_weight(nodes),
        nodes[j].weight > 0 ==> total_weight(nodes) > 0,
{
    lemma_weight_sum_mono(nodes, (j + 1) as nat, nodes.len());
    assert(weight_sum(nodes, (j + 1) as nat) == weight_sum(nodes, j as nat) + nodes[j].weight);
}

proof fn lemma_points_upto_in_range<H: HashFunction>(hf: H, nodes: Seq<Node>, h: nat, k: nat)
    requires
        k <= nodes.len() <= 65536,
    ensures
        points_in_range(points_upto(hf, nodes, h, k), k),
    decreases k,
{
    if k > 0 {
        lemma_points_upto_in_range(hf, nodes, h, (k - 1) as nat);
    }
}

/// Every point made for the first `k` nodes hashes `"{id}-{i}"` for the id
/// of the node it names and some point number `i`.
proof fn lemma_points_upto_seeded_by_id<H: HashFunction>(hf: H, nodes: Seq<Node>, h: nat, k: nat)
    requires
        k <= nodes.len() <= 65536,
    ensures
        forall|q: int|
            0 <= q < points_upto(hf, nodes, h, k).len() ==> {
                let p = #[trigger] points_upto(hf, nodes, h, k)[q];
                &&& p.node_index_spec() < k
                &&& exists|i: nat|
                    #![auto]
                    p.hash_spec() == hf.spec_hash(
                        encode_utf8(nodes[p.node_index_spec() as int].id@) + seq![45u8] + decimal(i),
                    )
            },
    decreases k,
{
    if k > 0 {
        lemma_points_upto_seeded_by_id(hf, nodes, h, (k - 1) as nat);
        let prev = points_upto(hf, nodes, h, (k - 1) as nat);
        let id = nodes[k - 1].id@;
        let j = (k - 1) as u16;
        let c = points_for_node(h, nodes[k - 1].weight as nat, nodes.len(), total_weight(nodes));
        let np = node_points(hf, id, j, c);
        let all = points_upto(hf, nodes, h, k);
        assert(all == prev + np);
        assert forall|q: int| 0 <= q < all.len() implies {
            let p = #[trigger] all[q];
            &&& p.node_index_spec() < k
            &&& exists|i: nat|
                #![auto]
                p.hash_spec() == hf.spec_hash(
                    encode_utf8(nodes[p.node_index_spec() as int].id@) + seq![45u8] + decimal(i),
                )
        } by {
            if q >= prev.len() {
                let i = (q - prev.len()) as nat;
                assert(all[q] == np[i as int]);
                assert(np[i as int].node_index_spec() == j);
                assert(j as int == k - 1);
                assert(all[q].hash_spec() == hf.spec_hash(seed_bytes(id, i)));
            } else {
                assert(all[q] == prev[q]);
            }
        }
    }
}

/// Placement comes from node ids alone: every point of the ring `new`
/// builds is the hash of `"{id}-{i}"`, for the id of the node the point
/// names and some point number `i`. Where a node stands in the list, and
/// which other nodes there are, plays no part in its points' hashes.
pub proof fn lemma_points_hash_their_node_ids<H: HashFunction>(hf: H, nodes: Seq<Node>, config: RingConfig)
    requires
        nodes.len() <= 65536,
    ensures
        forall|q: int|
            0 <= q < ring_points(hf, nodes, config).len() ==> {
                let p = #[trigger] ring_points(hf, nodes, config)[q];
                &&& p.node_index_spec() < nodes.len()
                &&& exists|i: nat|
                    #![auto]
                    p.hash_spec() == hf.spec_hash(
                        encode_utf8(nodes[p.node_index_spec() as int].id@) + seq![45u8] + decimal(i),
                    )
            },
{
    lemma_points_upto_seeded_by_id(hf, nodes, hashes_per_node(nodes.len(), config), nodes.len());
}

// ---------------------------------------------------------------------------
// Lookup
// ---------------------------------------------------------------------------

/// The binary search of `slice::binary_search_by_key` on point hashes, from
/// `base` over `size` candidates: `Ok` index or insertion index.
pub open spec fn search_from(s: Seq<CompactPointV2>, h: u32, base: int, size: int) -> int
    decreases size,
{
    if size <= 1 {
        if s[base].hash_spec() == h {
            base
        } else if s[base].hash_spec() < h {
            base + 1
        } else {
            base
        }
    } else {
        let half = size / 2;
        let mid = base + half;
        if s[mid].hash_spec() > h {
            search_from(s, h, base, size - half)
        } else {
            search_from(s, h, mid, size - half)
        }
    }
}

/// Index of the point that owns hash `h`: the search result, wrapping past
/// the last point to the first.
pub open spec fn owner_index(s: Seq<CompactPointV2>, h: u32) -> int {
    search_from(s, h, 0, s.len() as int) % (s.len() as int)
}

pub open spec fn hashes_sorted(s: Seq<CompactPointV2>) -> bool {
    forall|i: int, j: int|
        0 <= i < j < s.len() ==> (#[trigger] s[i]).hash_spec() <= (#[trigger] s[j]).hash_spec()
}

proof fn lemma_search_range(s: Seq<CompactPointV2>, h: u32, base: int, size: int)
    requires
        0 <= base,
        1 <= size,
        base + size <= s.len(),
    ensures
        base <= search_from(s, h, base, size) <= base + size,
    decreases size,
{
    if size > 1 {
        let half = size / 2;
        if s[base + half].hash_spec() > h {
            lemma_search_range(s, h, base, size - half);
        } else {
            lemma_search_range(s, h, base + half, size - half);
        }
    }
}

proof fn lemma_search_sorted(s: Seq<CompactPointV2>, h: u32, base: int, size: int)
    requires
        hashes_sorted(s),
        0 <= base,
        1 <= size,
        base + size <= s.len(),
        base > 0 ==> s[base].hash_spec() <= h,
        forall|i: int| base + size <= i < s.len() ==> (#[trigger] s[i]).hash_spec() > h,
    ensures
        ({
            let r = search_from(s, h, base, size);
            &&& 0 <= r <= s.len()
            &&& (exists|i: int| 0 <= i < s.len() && (#[trigger] s[i]).hash_spec() == h) ==> {
                &&& r < s.len()
                &&& s[r].hash_spec() == h
                &&& forall|i: int| r < i < s.len() ==> (#[trigger] s[i]).hash_spec() > h
            }
            &&& !(exists|i: int| 0 <= i < s.len() && (#[trigger] s[i]).hash_spec() == h) ==> {
                &&& forall|i: int| 0 <= i < r ==> (#[trigger] s[i]).hash_spec() < h
                &&& forall|i: int| r <= i < s.len() ==> (#[trigger] s[i]).hash_spec() > h
            }
        }),
    decreases size,
{
    if size > 1 {
        let half = size / 2;
        let mid = base + half;
        if s[mid].hash_spec() > h {
            assert forall|i: int| base + (size - half) <= i < s.len() implies (
            #[trigger] s[i]).hash_spec() > h by {
                if i > mid {
                    assert(s[mid].hash_spec() <= s[i].hash_spec());
                }
            }
            lemma_search_sorted(s, h, base, size - half);
        } else {
            lemma_search_sorted(s, h, mid, size - half);
        }
    } else {
        let r = search_from(s, h, base, size);
        if exists|i: int| 0 <= i < s.len() && (#[trigger] s[i]).hash_spec() == h {
            let w = choose|i: int| 0 <= i < s.len() && (#[trigger] s[i]).hash_spec() == h;
            if s[base].hash_spec() < h {
                if w <= base {
                    assert(s[w].hash_spec() <= s[base].hash_spec());
                }
            } else if s[base].hash_spec() > h {
                assert(base == 0);
                if w > 0 {
                    assert(s[0].hash_spec() <= s[w].hash_spec());
                }
            }
        } else {
            assert forall|i: int| 0 <= i < r implies (#[trigger] s[i]).hash_spec() < h by {
                if i < base {
                    assert(s[i].hash_spec() <= s[base].hash_spec());
                }
            }
            assert forall|i: int| r <= i < s.len() implies (#[trigger] s[i]).hash_spec() > h by {
                if s[base].hash_spec() > h && i > base {
                    assert(s[base].hash_spec() <= s[i].hash_spec());
                }
            }
        }
    }
}

/// On points sorted by hash, the owner of `h` is the last point whose hash
/// is `h`, or else the first point whose hash exceeds `h`, wrapping past the
/// last point to the first.
pub proof fn lemma_owner_sorted(s: Seq<CompactPointV2>, h: u32)
    requires
        hashes_sorted(s),
        s.len() > 0,
    ensures
        0 <= owner_index(s, h) < s.len(),
        (exists|i: int| 0 <= i < s.len() && (#[trigger] s[i]).hash_spec() == h) ==> {
            &&& s[owner_index(s, h)].hash_spec() == h
            &&& forall|i: int| owner_index(s, h) < i < s.len() ==> (#[trigger] s[i]).hash_spec() > h
        },
        !(exists|i: int| 0 <= i < s.len() && (#[trigger] s[i]).hash_spec() == h) ==> {
            &&& (forall|i: int| 0 <= i < s.len() ==> (#[trigger] s[i]).hash_spec() < h) ==> owner_index(s, h) == 0
            &&& (exists|i: int| 0 <= i < s.len() && (#[trigger] s[i]).hash_spec() > h) ==> {
                &&& s[owner_index(s, h)].hash_spec() > h
                &&& forall|i: int| 0 <= i < owner_index(s, h) ==> (#[trigger] s[i]).hash_spec() < h
            }
        },
{
    lemma_search_sorted(s, h, 0, s.len() as int);
    let r = search_from(s, h, 0, s.len() as int);
    let len = s.len() as int;
    if r < len {
        vstd::arithmetic::div_mod::lemma_small_mod(r as nat, len as nat);
    } else {
        vstd::arithmetic::div_mod::lemma_mod_self_0(len);
    }
    if !(exists|i: int| 0 <= i < s.len() && (#[trigger] s[i]).hash_spec() == h) {
        if exists|i: int| 0 <= i < s.len() && (#[trigger] s[i]).hash_spec() > h {
            let w = choose|i: int| 0 <= i < s.len() && (#[trigger] s[i]).hash_spec() > h;
            assert(r < s.len()) by {
                if r >= s.len() {
                    assert(s[w].hash_spec() < h);
                }
            }
        } else if forall|i: int| 0 <= i < s.len() ==> (#[trigger] s[i]).hash_spec() < h {
            assert(r == s.len()) by {
                if r < s.len() {
                    assert(s[r].hash_spec() > h);
                }
            }
        }
    }
}

/// The search of `slice::binary_search_by_key`, as `Ok(i) => i` and
/// `Err(i) => i`.
pub(crate) fn search_points(s: &[CompactPointV2], h: u32) -> (r: usize)
    requires
        s@.len() > 0,
    ensures
        r == search_from(s@, h, 0, s@.len() as int),
        r <= s@.len(),
{
    let len = s.len();
    let mut size = len;
    let mut base: usize = 0;
    proof {
        lemma_search_range(s@, h, 0, s@.len() as int);
    }
    while size > 1
        invariant
            1 <= size,
            len == s@.len(),
            base + size <= len,
            search_from(s@, h, base as int, size as int) == search_from(s@, h, 0, s@.len() as int),
        decreases size,
    {
        let half = size / 2;
        assert(half < size);
        let mid = base + half;
        if s[mid].hash() > h {
        } else {
            base = mid;
        }
        size = size - half;
    }
    let b = s[base].hash();
    if b == h {
        base
    } else if b < h {
        base + 1
    } else {
        base
    }
}

/// Node indices met walking `t` points clockwise from point `start`, each
/// kept once, in the order met.
pub open spec fn walk_nodes(points: Seq<CompactPointV2>, start: int, t: nat) -> Seq<int>
    decreases t,
{
    if t == 0 {
        Seq::empty()
    } else {
        let prev = walk_nodes(points, start, (t - 1) as nat);
        let idx = points[(start + t - 1) % (points.len() as int)].node_index_spec() as int;
        if prev.contains(idx) {
            prev
        } else {
            prev.push(idx)
        }
    }
}

pub open spec fn min(a: int, b: int) -> int {
    if a < b {
        a
    } else {
        b
    }
}

/// The node indices `get_n` returns: the first distinct nodes met walking
/// once around the ring from the key's owner, at most `n` of them and at
/// most as many as there are nodes.
pub open spec fn replica_indices(points: Seq<CompactPointV2>, node_count: nat, h: u32, n: nat) -> Seq<
    int,
> {
    let w = walk_nodes(points, owner_index(points, h), points.len());
    w.take(min(min(n as int, node_count as int), w.len() as int))
}

proof fn lemma_walk_prefix(points: Seq<CompactPointV2>, start: int, a: nat, b: nat)
    requires
        a <= b,
    ensures
        walk_nodes(points, start, a).len() <= walk_nodes(points, start, b).len(),
        walk_nodes(points, start, b).take(walk_nodes(points, start, a).len() as int)
            == walk_nodes(points, start, a),
    decreases b,
{
    if a < b {
        lemma_walk_prefix(points, start, a, (b - 1) as nat);
        let wa = walk_nodes(points, start, a);
        let wb1 = walk_nodes(points, start, (b - 1) as nat);
        let wb = walk_nodes(points, start, b);
        assert(wb.take(wa.len() as int) =~= wb1.take(wa.len() as int));
    } else {
        assert(walk_nodes(points, start, b).take(walk_nodes(points, start, a).len() as int)
            =~= walk_nodes(points, start, a));
    }
}

// ---------------------------------------------------------------------------
// Snapshot format
// ---------------------------------------------------------------------------

/// A node as a snapshot holds it: id and weight.
pub open spec fn node_view(n: Node) -> (Seq<char>, u64) {
    (n.id@, n.weight)
}

pub open spec fn nodes_view(nodes: Seq<Node>) -> Seq<(Seq<char>, u64)> {
    nodes.map_values(|n: Node| node_view(n))
}

/// `weight: u64 | id_len: u32 | id`, little-endian.
pub open spec fn node_bytes(n: (Seq<char>, u64)) -> Seq<u8> {
    le8(n.1) + le4(encode_utf8(n.0).len() as u32) + encode_utf8(n.0)
}

pub open spec fn nodes_bytes(nodes: Seq<(Seq<char>, u64)>) -> Seq<u8>
    decreases nodes.len(),
{
    if nodes.len() == 0 {
        Seq::empty()
    } else {
        nodes_bytes(nodes.drop_last()) + node_bytes(nodes.last())
    }
}

/// `hash: u32 | node_index: u16`, little-endian.
pub open spec fn point_bytes(p: CompactPointV2) -> Seq<u8> {
    le4(p.hash_spec()) + le2(p.node_index_spec())
}

pub open spec fn points_bytes(points: Seq<CompactPointV2>) -> Seq<u8>
    decreases points.len(),
{
    if points.len() == 0 {
        Seq::empty()
    } else {
        points_bytes(points.drop_last()) + point_bytes(points.last())
    }
}

/// A snapshot: `version | n_nodes | nodes | n_points | points`, counts as
/// `u32`, everything little-endian.
pub open spec fn ring_bytes(nodes: Seq<(Seq<char>, u64)>, points: Seq<CompactPointV2>) -> Seq<u8> {
    le4(crate::SERIALIZATION_VERSION) + le4(nodes.len() as u32) + nodes_bytes(nodes) + le4(
        points.len() as u32,
    ) + points_bytes(points)
}

/// Reads `k` nodes starting at `off`: the nodes and the offset after them,
/// or `None` when the bytes run out or an id is not UTF-8.
pub open spec fn parse_nodes(b: Seq<u8>, off: int, k: nat) -> Option<(Seq<(Seq<char>, u64)>, int)>
    decreases k,
{
    if k == 0 {
        Some((Seq::empty(), off))
    } else {
        match parse_nodes(b, off, (k - 1) as nat) {
            None => None,
            Some((ns, o)) => {
                if o + 12 > b.len() {
                    None
                } else {
                    let l = read_le4(b, o + 8) as int;
                    if o + 12 + l > b.len() {
                        None
                    } else {
                        let id = b.subrange(o + 12, o + 12 + l);
                        if !valid_utf8(id) {
                            None
                        } else {
                            Some((ns.push((decode_utf8(id), read_le8(b, o))), o + 12 + l))
                        }
                    }
                }
            },
        }
    }
}

/// Reads `k` points starting at `off`, each naming one of `n` nodes.
pub open spec fn parse_points(b: Seq<u8>, off: int, k: nat, n: nat) -> Option<Seq<CompactPointV2>>
    decreases k,
{
    if k == 0 {
        Some(Seq::empty())
    } else {
        match parse_points(b, off, (k - 1) as nat, n) {
            None => None,
            Some(ps) => {
                let o = off + 6 * (k - 1);
                if o + 6 > b.len() {
                    None
                } else if read_le2(b, o + 4) >= n {
                    None
                } else {
                    Some(ps.push(CompactPointV2::mk(read_le4(b, o), read_le2(b, o + 4))))
                }
            },
        }
    }
}

/// Why a snapshot was refused.
pub enum SnapshotFault {
    Version(u32),
    Malformed,
}

/// What `from_bytes` reads from a snapshot. Bytes after the points are not read.
pub open spec fn parse_ring(b: Seq<u8>) -> Result<(Seq<(Seq<char>, u64)>, Seq<CompactPointV2>), SnapshotFault> {
    if b.len() < 4 {
        Err(SnapshotFault::Malformed)
    } else if read_le4(b, 0) != crate::SERIALIZATION_VERSION {
        Err(SnapshotFault::Version(read_le4(b, 0)))
    } else if b.len() < 8 {
        Err(SnapshotFault::Malformed)
    } else {
        let n = read_le4(b, 4) as nat;
        match parse_nodes(b, 8, n) {
            None => Err(SnapshotFault::Malformed),
            Some((ns, o)) => {
                if o + 4 > b.len() {
                    Err(SnapshotFault::Malformed)
                } else {
                    match parse_points(b, o + 4, read_le4(b, o) as nat, n) {
                        None => Err(SnapshotFault::Malformed),
                        Some(ps) => Ok((ns, ps)),
                    }
                }
            },
        }
    }
}

proof fn lemma_parse_nodes_len(b: Seq<u8>, off: int, k: nat)
    requires
        parse_nodes(b, off, k) is Some,
    ensures
        parse_nodes(b, off, k).unwrap().0.len() == k,
    decreases k,
{
    if k > 0 {
        lemma_parse_nodes_len(b, off, (k - 1) as nat);
    }
}

proof fn lemma_parse_nodes_none(b: Seq<u8>, off: int, k: nat, k2: nat)
    requires
        k <= k2,
        parse_nodes(b, off, k) is None,
    ensures
        parse_nodes(b, off, k2) is None,
    decreases k2,
{
    if k < k2 {
        lemma_parse_nodes_none(b, off, k, (k2 - 1) as nat);
    }
}

proof fn lemma_parse_points_none(b: Seq<u8>, off: int, k: nat, k2: nat, n: nat)
    requires
        k <= k2,
        parse_points(b, off, k, n) is None,
    ensures
        parse_points(b, off, k2, n) is None,
    decreases k2,
{
    if k < k2 {
        lemma_parse_points_none(b, off, k, (k2 - 1) as nat, n);
    }
}

proof fn lemma_read_le4_at(b: Seq<u8>, o: int, x: u32)
    requires
        0 <= o,
        o + 4 <= b.len(),
        b.subrange(o, o + 4) == le4(x),
    ensures
        read_le4(b, o) == x,
{
    crate::bytes::lemma_le4_roundtrip(x);
    assert(b[o] == le4(x)[0] && b[o + 1] == le4(x)[1] && b[o + 2] == le4(x)[2] && b[o + 3] == le4(x)[3]) by {
        assert(b.subrange(o, o + 4)[0] == b[o]);
        assert(b.subrange(o, o + 4)[1] == b[o + 1]);
        assert(b.subrange(o, o + 4)[2] == b[o + 2]);
        assert(b.subrange(o, o + 4)[3] == b[o + 3]);
    }
}

proof fn lemma_read_le2_at(b: Seq<u8>, o: int, x: u16)
    requires
        0 <= o,
        o + 2 <= b.len(),
        b.subrange(o, o + 2) == le2(x),
    ensures
        read_le2(b, o) == x,
{
    crate::bytes::lemma_le2_roundtrip(x);
    assert(b.subrange(o, o + 2)[0] == b[o]);
    assert(b.subrange(o, o + 2)[1] == b[o + 1]);
}

proof fn lemma_read_le8_at(b: Seq<u8>, o: int, x: u64)
    requires
        0 <= o,
        o + 8 <= b.len(),
        b.subrange(o, o + 8) == le8(x),
    ensures
        read_le8(b, o) == x,
{
    crate::bytes::lemma_le8_roundtrip(x);
    let l = le8(x);
    assert forall|t: int| 0 <= t < 8 implies b[o + t] == l[t] by {
        assert(b.subrange(o, o + 8)[t] == b[o + t]);
    }
    assert(read_le4(b, o) == read_le4(l, 0));
    assert(read_le4(b, o + 4) == read_le4(l, 4));
}

/// Bytes inside a window: `b` holds `s` at `off`.
pub open spec fn holds_at(b: Seq<u8>, off: int, s: Seq<u8>) -> bool {
    0 <= off && off + s.len() <= b.len() && b.subrange(off, off + s.len()) == s
}

proof fn lemma_holds_split(b: Seq<u8>, off: int, s1: Seq<u8>, s2: Seq<u8>)
    requires
        holds_at(b, off, s1 + s2),
    ensures
        holds_at(b, off, s1),
        holds_at(b, off + s1.len(), s2),
{
    let s = s1 + s2;
    assert(b.subrange(off, off + s1.len()) =~= s1) by {
        assert forall|t: int| 0 <= t < s1.len() implies b.subrange(off, off + s1.len())[t] == s1[t] by {
            assert(b.subrange(off, off + s.len())[t] == s[t]);
        }
    }
    assert(b.subrange(off + s1.len(), off + s1.len() + s2.len()) =~= s2) by {
        assert forall|t: int| 0 <= t < s2.len() implies b.subrange(off + s1.len(), off + s1.len() + s2.len())[t] == s2[t] by {
            assert(b.subrange(off, off + s.len())[s1.len() + t] == s[s1.len() + t]);
        }
    }
}

proof fn lemma_nodes_bytes_take(ns: Seq<(Seq<char>, u64)>, k: int)
    requires
        0 <= k < ns.len(),
    ensures
        nodes_bytes(ns.take(k + 1)) == nodes_bytes(ns.take(k)) + node_bytes(ns[k]),
{
    assert(ns.take(k + 1).drop_last() =~= ns.take(k));
}

proof fn lemma_holds_prefix(b: Seq<u8>, off: int, s: Seq<u8>, len: int)
    requires
        holds_at(b, off, s),
        0 <= len <= s.len(),
    ensures
        holds_at(b, off, s.subrange(0, len)),
{
    assert(b.subrange(off, off + len) =~= s.subrange(0, len)) by {
        assert forall|t: int| 0 <= t < len implies b.subrange(off, off + len)[t] == s.subrange(0, len)[t] by {
            assert(b.subrange(off, off + s.len())[t] == s[t]);
        }
    }
}

proof fn lemma_nodes_bytes_prefix(ns: Seq<(Seq<char>, u64)>, k: int)
    requires
        0 <= k <= ns.len(),
    ensures
        nodes_bytes(ns.take(k)).len() <= nodes_bytes(ns).len(),
        nodes_bytes(ns).subrange(0, nodes_bytes(ns.take(k)).len() as int) == nodes_bytes(ns.take(k)),
    decreases ns.len() - k,
{
    if k == ns.len() {
        assert(ns.take(k) =~= ns);
        assert(nodes_bytes(ns).subrange(0, nodes_bytes(ns).len() as int) =~= nodes_bytes(ns));
    } else {
        lemma_nodes_bytes_prefix(ns, k + 1);
        lemma_nodes_bytes_take(ns, k);
        let a = nodes_bytes(ns.take(k));
        let c = nodes_bytes(ns.take(k + 1));
        assert(nodes_bytes(ns).subrange(0, a.len() as int) =~= c.subrange(0, a.len() as int));
        assert(c.subrange(0, a.len() as int) =~= a);
    }
}

proof fn lemma_parse_nodes_of_bytes(b: Seq<u8>, off: int, ns: Seq<(Seq<char>, u64)>, k: nat)
    requires
        holds_at(b, off, nodes_bytes(ns)),
        k <= ns.len(),
        forall|i: int| 0 <= i < ns.len() ==> encode_utf8((#[trigger] ns[i]).0).len() <= u32::MAX,
    ensures
        parse_nodes(b, off, k) == Some((ns.take(k as int), off + nodes_bytes(ns.take(k as int)).len())),
    decreases k,
{
    if k == 0 {
        assert(ns.take(0) =~= Seq::<(Seq<char>, u64)>::empty());
    } else {
        let j = (k - 1) as int;
        lemma_parse_nodes_of_bytes(b, off, ns, (k - 1) as nat);
        lemma_nodes_bytes_prefix(ns, k as int);
        lemma_holds_prefix(b, off, nodes_bytes(ns), nodes_bytes(ns.take(k as int)).len() as int);
        lemma_nodes_bytes_take(ns, j);
        lemma_holds_split(b, off, nodes_bytes(ns.take(j)), node_bytes(ns[j]));
        let o = off + nodes_bytes(ns.take(j)).len();
        let nd = ns[j];
        let enc = encode_utf8(nd.0);
        let l32 = enc.len() as u32;
        assert(node_bytes(nd) == (le8(nd.1) + le4(l32)) + enc);
        lemma_holds_split(b, o, le8(nd.1) + le4(l32), enc);
        lemma_holds_split(b, o, le8(nd.1), le4(l32));
        lemma_read_le8_at(b, o, nd.1);
        lemma_read_le4_at(b, o + 8, l32);
        assert(read_le4(b, o + 8) as int == enc.len());
        vstd::utf8::encode_utf8_valid_utf8(nd.0);
        vstd::utf8::encode_utf8_decode_utf8(nd.0);
        assert(ns.take(j).push(nd) =~= ns.take(k as int));
    }
}

proof fn lemma_points_bytes_len(ps: Seq<CompactPointV2>)
    ensures
        points_bytes(ps).len() == 6 * ps.len(),
    decreases ps.len(),
{
    if ps.len() > 0 {
        lemma_points_bytes_len(ps.drop_last());
    }
}

proof fn lemma_points_bytes_prefix(ps: Seq<CompactPointV2>, k: int)
    requires
        0 <= k <= ps.len(),
    ensures
        points_bytes(ps.take(k)).len() <= points_bytes(ps).len(),
        points_bytes(ps).subrange(0, points_bytes(ps.take(k)).len() as int) == points_bytes(ps.take(k)),
    decreases ps.len() - k,
{
    if k == ps.len() {
        assert(ps.take(k) =~= ps);
        assert(points_bytes(ps).subrange(0, points_bytes(ps).len() as int) =~= points_bytes(ps));
    } else {
        lemma_points_bytes_prefix(ps, k + 1);
        assert(ps.take(k + 1).drop_last() =~= ps.take(k));
        let a = points_bytes(ps.take(k));
        let c = points_bytes(ps.take(k + 1));
        assert(points_bytes(ps).subrange(0, a.len() as int) =~= c.subrange(0, a.len() as int));
        assert(c.subrange(0, a.len() as int) =~= a);
    }
}

proof fn lemma_parse_points_of_bytes(b: Seq<u8>, off: int, ps: Seq<CompactPointV2>, k: nat, n: nat)
    requires
        holds_at(b, off, points_bytes(ps)),
        k <= ps.len(),
        points_in_range(ps, n),
    ensures
        parse_points(b, off, k, n) == Some(ps.take(k as int)),
    decreases k,
{
    if k == 0 {
        assert(ps.take(0) =~= Seq::<CompactPointV2>::empty());
    } else {
        let j = (k - 1) as int;
        lemma_parse_points_of_bytes(b, off, ps, (k - 1) as nat, n);
        lemma_points_bytes_prefix(ps, k as int);
        lemma_holds_prefix(b, off, points_bytes(ps), points_bytes(ps.take(k as int)).len() as int);
        assert(ps.take(k as int).drop_last() =~= ps.take(j));
        lemma_holds_split(b, off, points_bytes(ps.take(j)), point_bytes(ps[j]));
        lemma_points_bytes_len(ps.take(j));
        let o = off + 6 * j;
        let p = ps[j];
        lemma_holds_split(b, o, le4(p.hash_spec()), le2(p.node_index_spec()));
        lemma_read_le4_at(b, o, p.hash_spec());
        lemma_read_le2_at(b, o + 4, p.node_index_spec());
        CompactPointV2::lemma_ext(p, CompactPointV2::mk(p.hash_spec(), p.node_index_spec()));
        assert(ps.take(j).push(p) =~= ps.take(k as int));
    }
}

/// Snapshot sizes that the `u32` counts of the format can hold.
pub open spec fn snapshot_fits(ns: Seq<(Seq<char>, u64)>, ps: Seq<CompactPointV2>) -> bool {
    &&& ns.len() <= u32::MAX
    &&& ps.len() <= u32::MAX
    &&& forall|i: int| 0 <= i < ns.len() ==> encode_utf8((#[trigger] ns[i]).0).len() <= u32::MAX
}

proof fn lemma_parse_ring_parts(
    b: Seq<u8>,
    ns: Seq<(Seq<char>, u64)>,
    ps: Seq<CompactPointV2>,
    o: int,
)
    requires
        b.len() >= 8,
        read_le4(b, 0) == crate::SERIALIZATION_VERSION,
        parse_nodes(b, 8, read_le4(b, 4) as nat) == Some((ns, o)),
        o + 4 <= b.len(),
        parse_points(b, o + 4, read_le4(b, o) as nat, read_le4(b, 4) as nat) == Some(ps),
    ensures
        parse_ring(b) == Ok::<(Seq<(Seq<char>, u64)>, Seq<CompactPointV2>), SnapshotFault>((ns, ps)),
{
}

/// Reading a snapshot gives back the nodes and points it was written from,
/// whatever bytes follow it.
#[verifier::rlimit(40)]
pub proof fn lemma_snapshot_roundtrip(ns: Seq<(Seq<char>, u64)>, ps: Seq<CompactPointV2>, rest: Seq<u8>)
    requires
        snapshot_fits(ns, ps),
        points_in_range(ps, ns.len()),
    ensures
        parse_ring(ring_bytes(ns, ps) + rest) == Ok::<(Seq<(Seq<char>, u64)>, Seq<CompactPointV2>), SnapshotFault>((ns, ps)),
{
    let n32 = ns.len() as u32;
    let m32 = ps.len() as u32;
    let nb = nodes_bytes(ns);
    let pb = points_bytes(ps);
    let b = ring_bytes(ns, ps) + rest;
    let head = le4(crate::SERIALIZATION_VERSION) + le4(n32);
    assert(b =~= head + (nb + (le4(m32) + (pb + rest))));
    assert(b.subrange(0, b.len() as int) =~= b);
    assert(holds_at(b, 0, head + (nb + (le4(m32) + (pb + rest)))));
    lemma_holds_split(b, 0, head, nb + (le4(m32) + (pb + rest)));
    lemma_holds_split(b, 0, le4(crate::SERIALIZATION_VERSION), le4(n32));
    lemma_read_le4_at(b, 0, crate::SERIALIZATION_VERSION);
    lemma_read_le4_at(b, 4, n32);
    lemma_holds_split(b, 8, nb, le4(m32) + (pb + rest));
    lemma_parse_nodes_of_bytes(b, 8, ns, ns.len());
    assert(ns.take(ns.len() as int) =~= ns);
    let o: int = 8 + nb.len() as int;
    lemma_holds_split(b, o, le4(m32), pb + rest);
    lemma_read_le4_at(b, o, m32);
    lemma_holds_split(b, o + 4, pb, rest);
    lemma_parse_points_of_bytes(b, o + 4, ps, ps.len(), ns.len());
    assert(ps.take(ps.len() as int) =~= ps);
    lemma_parse_ring_parts(b, ns, ps, o);
}

/// Where the parts of a snapshot lie and what reading each gives.
#[verifier::rlimit(40)]
proof fn lemma_snapshot_layout(ns: Seq<(Seq<char>, u64)>, ps: Seq<CompactPointV2>)
    requires
        snapshot_fits(ns, ps),
        points_in_range(ps, ns.len()),
    ensures
        ({
            let b = ring_bytes(ns, ps);
            let o: int = 8 + nodes_bytes(ns).len() as int;
            &&& b.len() == o + 4 + 6 * ps.len()
            &&& read_le4(b, 0) == crate::SERIALIZATION_VERSION
            &&& read_le4(b, 4) == ns.len()
            &&& parse_nodes(b, 8, ns.len()) == Some((ns, o))
            &&& read_le4(b, o) == ps.len()
            &&& parse_points(b, o + 4, ps.len(), ns.len()) == Some(ps)
        }),
{
    let n32 = ns.len() as u32;
    let m32 = ps.len() as u32;
    let nb = nodes_bytes(ns);
    let pb = points_bytes(ps);
    let b = ring_bytes(ns, ps);
    let head = le4(crate::SERIALIZATION_VERSION) + le4(n32);
    lemma_points_bytes_len(ps);
    assert(b =~= head + (nb + (le4(m32) + pb)));
    assert(b.subrange(0, b.len() as int) =~= b);
    assert(holds_at(b, 0, head + (nb + (le4(m32) + pb))));
    lemma_holds_split(b, 0, head, nb + (le4(m32) + pb));
    lemma_holds_split(b, 0, le4(crate::SERIALIZATION_VERSION), le4(n32));
    lemma_read_le4_at(b, 0, crate::SERIALIZATION_VERSION);
    lemma_read_le4_at(b, 4, n32);
    lemma_holds_split(b, 8, nb, le4(m32) + pb);
    lemma_parse_nodes_of_bytes(b, 8, ns, ns.len());
    assert(ns.take(ns.len() as int) =~= ns);
    let o: int = 8 + nb.len() as int;
    lemma_holds_split(b, o, le4(m32), pb);
    lemma_read_le4_at(b, o, m32);
    lemma_parse_points_of_bytes(b, o + 4, ps, ps.len(), ns.len());
    assert(ps.take(ps.len() as int) =~= ps);
}

/// Reading nodes from the first `m` bytes, `m` at or past the start, gives
/// what reading them from all the bytes gives where they end within those `m`
/// bytes, and nothing otherwise.
proof fn lemma_parse_nodes_prefix(b: Seq<u8>, off: int, k: nat, m: int)
    requires
        0 <= off <= m <= b.len(),
        parse_nodes(b, off, k) is Some,
    ensures
        off <= parse_nodes(b, off, k).unwrap().1,
        m >= parse_nodes(b, off, k).unwrap().1 ==> parse_nodes(b.take(m), off, k) == parse_nodes(b, off, k),
        m < parse_nodes(b, off, k).unwrap().1 ==> parse_nodes(b.take(m), off, k) is None,
    decreases k,
{
    if k > 0 {
        let c = b.take(m);
        lemma_parse_nodes_prefix(b, off, (k - 1) as nat, m);
        let (ns1, o1) = parse_nodes(b, off, (k - 1) as nat).unwrap();
        if m >= o1 {
            if o1 + 12 <= m {
                assert(read_le4(c, o1 + 8) == read_le4(b, o1 + 8));
                let l = read_le4(b, o1 + 8) as int;
                if o1 + 12 + l <= m {
                    assert(c.subrange(o1 + 12, o1 + 12 + l) =~= b.subrange(o1 + 12, o1 + 12 + l));
                    assert(read_le8(c, o1) == read_le8(b, o1));
                }
            }
        }
    }
}

/// Reading points from the first `m` bytes, `m` at or past the start, gives
/// what reading them from all the bytes gives where they end within those `m`
/// bytes, and nothing otherwise.
proof fn lemma_parse_points_prefix(b: Seq<u8>, off: int, k: nat, n: nat, m: int)
    requires
        0 <= off <= m <= b.len(),
        parse_points(b, off, k, n) is Some,
    ensures
        m >= off + 6 * k ==> parse_points(b.take(m), off, k, n) == parse_points(b, off, k, n),
        m < off + 6 * k ==> parse_points(b.take(m), off, k, n) is None,
    decreases k,
{
    if k > 0 {
        let c = b.take(m);
        lemma_parse_points_prefix(b, off, (k - 1) as nat, n, m);
        let o = off + 6 * (k - 1);
        if o + 6 <= m {
            assert(read_le4(c, o) == read_le4(b, o));
            assert(read_le2(c, o + 4) == read_le2(b, o + 4));
        }
    }
}

/// A snapshot cut short is refused as malformed, wherever it is cut.
pub proof fn lemma_snapshot_prefix_refused(ns: Seq<(Seq<char>, u64)>, ps: Seq<CompactPointV2>, m: int)
    requires
        snapshot_fits(ns, ps),
        points_in_range(ps, ns.len()),
        0 <= m < ring_bytes(ns, ps).len(),
    ensures
        parse_ring(ring_bytes(ns, ps).take(m)) == Err::<(Seq<(Seq<char>, u64)>, Seq<CompactPointV2>), SnapshotFault>(
            SnapshotFault::Malformed,
        ),
{
    lemma_snapshot_layout(ns, ps);
    let b = ring_bytes(ns, ps);
    let c = b.take(m);
    let o: int = 8 + nodes_bytes(ns).len() as int;
    if m >= 4 {
        assert(read_le4(c, 0) == read_le4(b, 0));
        if m >= 8 {
            assert(read_le4(c, 4) == read_le4(b, 4));
            lemma_parse_nodes_prefix(b, 8, ns.len(), m);
            if m >= o + 4 {
                assert(read_le4(c, o) == read_le4(b, o));
                lemma_parse_points_prefix(b, o + 4, ps.len(), ns.len(), m);
            }
        }
    }
}

struct ByteReader<'a> {
    bytes: &'a [u8],
    offset: usize,
}

impl<'a> ByteReader<'a> {
    fn take(&mut self, len: usize) -> (r: crate::Result<&'a [u8]>)
        requires
            old(self).offset <= old(self).bytes@.len(),
        ensures
            final(self).bytes == old(self).bytes,
            final(self).offset <= final(self).bytes@.len(),
            old(self).offset + len <= old(self).bytes@.len() ==> (r matches Ok(s) && s@
                == old(self).bytes@.subrange(
                old(self).offset as int,
                old(self).offset + len,
            ) && final(self).offset == old(self).offset + len),
            old(self).offset + len > old(self).bytes@.len() ==> (r matches Err(
                ConsistentHashError::DeserializationError(_),
            )),
            old(self).offset + len > old(self).bytes@.len() ==> final(self).offset == old(self).offset,
    {
        let end = self.offset.checked_add(len);
        match end {
            Some(e) => {
                if e <= self.bytes.len() {
                    let slice = vstd::slice::slice_subrange(self.bytes, self.offset, e);
                    self.offset = e;
                    return Ok(slice);
                }
            },
            None => {},
        }
        Err(
            ConsistentHashError::DeserializationError(
                outside::unexpected_end_message(self.offset, len, self.bytes.len() - self.offset),
            ),
        )
    }

    fn u32(&mut self) -> (r: crate::Result<u32>)
        requires
            old(self).offset <= old(self).bytes@.len(),
        ensures
            final(self).bytes == old(self).bytes,
            final(self).offset <= final(self).bytes@.len(),
            old(self).offset + 4 <= old(self).bytes@.len() ==> (r matches Ok(x) && x == read_le4(
                old(self).bytes@,
                old(self).offset as int,
            ) && final(self).offset == old(self).offset + 4),
            old(self).offset + 4 > old(self).bytes@.len() ==> r matches Err(
                ConsistentHashError::DeserializationError(_),
            ),
    {
        let s = self.take(4)?;
        Ok((s[0] as u32) | ((s[1] as u32) << 8) | ((s[2] as u32) << 16) | ((s[3] as u32) << 24))
    }

    fn u64(&mut self) -> (r: crate::Result<u64>)
        requires
            old(self).offset <= old(self).bytes@.len(),
        ensures
            final(self).bytes == old(self).bytes,
            final(self).offset <= final(self).bytes@.len(),
            old(self).offset + 8 <= old(self).bytes@.len() ==> (r matches Ok(x) && x == read_le8(
                old(self).bytes@,
                old(self).offset as int,
            ) && final(self).offset == old(self).offset + 8),
            old(self).offset + 8 > old(self).bytes@.len() ==> r matches Err(
                ConsistentHashError::DeserializationError(_),
            ),
    {
        let s = self.take(8)?;
        let lo = (s[0] as u32) | ((s[1] as u32) << 8) | ((s[2] as u32) << 16) | ((s[3] as u32)
            << 24);
        let hi = (s[4] as u32) | ((s[5] as u32) << 8) | ((s[6] as u32) << 16) | ((s[7] as u32)
            << 24);
        Ok((lo as u64) | ((hi as u64) << 32))
    }
}

// ---------------------------------------------------------------------------
// The ring
// ---------------------------------------------------------------------------

/// A consistent hashing ring: points sorted by hash, each naming a node.
#[derive(Debug)]
pub struct CompactRing<H: HashFunction = DefaultHash> {
    points: Vec<CompactPointV2>,
    nodes: Vec<Node>,
    config: RingConfig,
    hash_fn: H,
}

/// Every point names one of the nodes.
pub open spec fn points_in_range(points: Seq<CompactPointV2>, n: nat) -> bool {
    forall|i: int| 0 <= i < points.len() ==> (#[trigger] points[i]).node_index_spec() < n
}

impl<H: HashFunction> CompactRing<H> {
    #[verifier::type_invariant]
    spec fn wf(self) -> bool {
        points_in_range(self.points@, self.nodes@.len())
    }

    pub closed spec fn spec_points(&self) -> Seq<CompactPointV2> {
        self.points@
    }

    pub closed spec fn spec_nodes(&self) -> Seq<Node> {
        self.nodes@
    }

    pub closed spec fn spec_config(&self) -> RingConfig {
        self.config
    }

    pub closed spec fn spec_hash_fn(&self) -> H {
        self.hash_fn
    }

    /// The node that owns hash `h` on this ring, when it has points.
    pub open spec fn owner_of(&self, h: u32) -> Node {
        self.spec_nodes()[self.spec_points()[owner_index(self.spec_points(), h)].node_index_spec() as int]
    }

    /// Builds the ring: every node gets its weight's share of `n` times the
    /// points per average node (at least one), each point hashing
    /// `"{id}-{i}"`; the points are sorted by hash, then node index.
    pub fn new(nodes: Vec<Node>, config: RingConfig, hash_fn: H) -> (r: crate::Result<Self>)
        requires
            ring_inputs_fit(nodes@, config),
        ensures
            nodes@.len() == 0 ==> r matches Err(ConsistentHashError::EmptyRing),
            nodes@.len() > 0 && !nodes_valid(nodes@) ==> r matches Err(
                ConsistentHashError::InvalidWeight(0),
            ),
            nodes_valid(nodes@) && nodes@.len() > 65536 ==> r matches Err(
                ConsistentHashError::SerializationError(_),
            ),
            nodes_valid(nodes@) && nodes@.len() <= 65536 ==> (r matches Ok(ring) && {
                &&& ring.spec_nodes() == nodes@
                &&& ring.spec_config() == config
                &&& ring.spec_hash_fn() == hash_fn
                &&& points_sorted(ring.spec_points())
                &&& ring.spec_points().to_multiset() == ring_points(hash_fn, nodes@, config).to_multiset()
                &&& forall|q: int|
                    0 <= q < ring.spec_points().len() ==> {
                        let p = #[trigger] ring.spec_points()[q];
                        &&& p.node_index_spec() < nodes@.len()
                        &&& exists|i: nat|
                            #![auto]
                            p.hash_spec() == hash_fn.spec_hash(
                                encode_utf8(nodes@[p.node_index_spec() as int].id@) + seq![45u8] + decimal(i),
                            )
                    }
            }),
    {
        if nodes.len() == 0 {
            return Err(ConsistentHashError::EmptyRing);
        }
        let mut z: usize = 0;
        while z < nodes.len()
            invariant
                z <= nodes@.len(),
                forall|i: int| 0 <= i < z ==> #[trigger] nodes@[i].weight > 0,
            decreases nodes@.len() - z,
        {
            if nodes[z].weight == 0 {
                return Err(ConsistentHashError::InvalidWeight(nodes[z].weight));
            }
            z = z + 1;
        }
        let n_nodes = nodes.len();
        let mut total: u64 = 0;
        let mut t: usize = 0;
        while t < n_nodes
            invariant
                n_nodes == nodes@.len(),
                t <= n_nodes,
                total == weight_sum(nodes@, t as nat),
                total_weight(nodes@) <= u64::MAX,
            decreases n_nodes - t,
        {
            proof {
                lemma_weight_sum_mono(nodes@, (t + 1) as nat, n_nodes as nat);
            }
            total = total + nodes[t].weight;
            t = t + 1;
        }
        let adaptive = optimal_hashes_for_cv_ppm(n_nodes, config.target_cv_ppm);
        let mut hashes_per = adaptive;
        if hashes_per < config.min_hashes_per_node {
            hashes_per = config.min_hashes_per_node;
        }
        if hashes_per > config.max_hashes_per_node {
            hashes_per = config.max_hashes_per_node;
        }
        assert(hashes_per == hashes_per_node(n_nodes as nat, config));
        if n_nodes > 65536 {
            return Err(
                ConsistentHashError::SerializationError(
                    outside::too_many_nodes_message(n_nodes, 65536),
                ),
            );
        }
        proof {
            lemma_weight_le_total(nodes@, 0);
        }
        let mut points: Vec<CompactPointV2> = Vec::new();
        let mut j: usize = 0;
        while j < n_nodes
            invariant
                n_nodes == nodes@.len(),
                1 <= n_nodes <= 65536,
                nodes_valid(nodes@),
                j <= n_nodes,
                total == total_weight(nodes@),
                total > 0,
                hashes_per == hashes_per_node(n_nodes as nat, config),
                n_nodes * hashes_per * 6 <= isize::MAX,
                points@ == points_upto(hash_fn, nodes@, hashes_per as nat, j as nat),
            decreases n_nodes - j,
        {
            let w = nodes[j].weight;
            proof {
                lemma_weight_le_total(nodes@, j as int);
            }
            assert((hashes_per as int) * (n_nodes as int) * (w as int) < 0x8000_0000_0000_0000 * 0x1_0000_0000_0000_0000)
                by (nonlinear_arith)
                requires
                    n_nodes * hashes_per * 6 <= isize::MAX,
                    isize::MAX < 0x8000_0000_0000_0000,
                    w <= u64::MAX,
                    hashes_per >= 0,
                    n_nodes >= 0,
            ;
            let hn: u128 = (hashes_per as u128) * (n_nodes as u128);
            let prod: u128 = hn * (w as u128);
            assert(prod == (hashes_per as int) * (w as int) * (n_nodes as int)) by (nonlinear_arith)
                requires
                    prod == hn * w,
                    hn == hashes_per * n_nodes,
            ;
            let mut c: u128 = prod / (total as u128);
            if c < 1 {
                c = 1;
            }
            assert(c <= (hashes_per as int) * (n_nodes as int) || c == 1) by (nonlinear_arith)
                requires
                    c == 1 || c == prod / (total as u128),
                    prod == (hashes_per as int) * (w as int) * (n_nodes as int),
                    w <= total,
                    total > 0,
            {
                if c != 1 {
                    vstd::arithmetic::div_mod::lemma_div_is_ordered(
                        prod as int,
                        ((hashes_per as int) * (n_nodes as int) * (total as int)),
                        total as int,
                    );
                    vstd::arithmetic::div_mod::lemma_div_by_multiple(
                        (hashes_per as int) * (n_nodes as int),
                        total as int,
                    );
                }
            }
            let count = c as usize;
            assert(count == points_for_node(
                hashes_per as nat,
                nodes@[j as int].weight as nat,
                n_nodes as nat,
                total as nat,
            ));
            let id_bytes = nodes[j].id.as_str().as_bytes();
            let ghost before = points@;
            let ghost mine = node_points(hash_fn, nodes@[j as int].id@, j as u16, count as nat);
            let mut i: usize = 0;
            while i < count
                invariant
                    i <= count,
                    j < n_nodes <= 65536,
                    id_bytes@ == encode_utf8(nodes@[j as int].id@),
                    mine == node_points(hash_fn, nodes@[j as int].id@, j as u16, count as nat),
                    points@ == before + mine.subrange(0, i as int),
                decreases count - i,
            {
                let mut seed: Vec<u8> = Vec::new();
                push_all(&mut seed, id_bytes);
                seed.push(45u8);
                push_decimal(&mut seed, i as u64);
                assert(seed@ =~= seed_bytes(nodes@[j as int].id@, i as nat));
                let hash = hash_fn.hash(seed.as_slice());
                points.push(CompactPointV2::new(hash, j as u16));
                i = i + 1;
                assert(points@ =~= before + mine.subrange(0, i as int));
            }
            assert(mine.subrange(0, count as int) =~= mine);
            j = j + 1;
        }
        let ghost unsorted = points@;
        outside::sort_points(&mut points);
        proof {
            lemma_points_upto_in_range(hash_fn, nodes@, hashes_per as nat, n_nodes as nat);
            lemma_points_upto_seeded_by_id(hash_fn, nodes@, hashes_per as nat, n_nodes as nat);
            assert forall|i: int| 0 <= i < points@.len() implies {
                let p = #[trigger] points@[i];
                &&& p.node_index_spec() < n_nodes
                &&& exists|t: nat|
                    #![auto]
                    p.hash_spec() == hash_fn.spec_hash(
                        encode_utf8(nodes@[p.node_index_spec() as int].id@) + seq![45u8] + decimal(t),
                    )
            } by {
                broadcast use vstd::seq_lib::group_to_multiset_ensures;

                let x = points@[i];
                assert(points@.contains(x));
                assert(points@.to_multiset().count(x) > 0);
                assert(unsorted.to_multiset().count(x) > 0);
                assert(unsorted.contains(x));
                let w = choose|w: int| 0 <= w < unsorted.len() && unsorted[w] == x;
                assert(unsorted[w] == x);
            }
        }
        let ring = CompactRing { points, nodes, config, hash_fn };
        Ok(ring)
    }

    /// The node owning `key`: hash the key, find its point, name its node.
    pub fn get(&self, key: &[u8]) -> (r: crate::Result<&Node>)
        ensures
            self.spec_points().len() == 0 ==> r matches Err(ConsistentHashError::EmptyRing),
            self.spec_points().len() > 0 ==> (r matches Ok(node) && *node == self.owner_of(
                self.spec_hash_fn().spec_hash(key@),
            )),
    {
        let h = self.hash_fn.hash(key);
        self.get_with_hash(h)
    }

    /// The node owning hash `hash`.
    pub fn get_with_hash(&self, hash: u32) -> (r: crate::Result<&Node>)
        ensures
            self.spec_points().len() == 0 ==> r matches Err(ConsistentHashError::EmptyRing),
            self.spec_points().len() > 0 ==> (r matches Ok(node) && *node == self.owner_of(hash)),
    {
        proof {
            use_type_invariant(self);
        }
        if self.points.len() == 0 {
            return Err(ConsistentHashError::EmptyRing);
        }
        let found = search_points(self.points.as_slice(), hash);
        let point_idx = found % self.points.len();
        let node_idx = self.points[point_idx].node_index() as usize;
        Ok(&self.nodes[node_idx])
    }

    /// The owner of `key` and the next distinct nodes clockwise: at most `n`,
    /// and no more than one walk around the ring finds.
    pub fn get_n(&self, key: &[u8], n: usize) -> (r: crate::Result<Vec<&Node>>)
        ensures
            self.spec_points().len() == 0 ==> r matches Err(ConsistentHashError::EmptyRing),
            self.spec_points().len() > 0 ==> (r matches Ok(v) && {
                let idx = replica_indices(
                    self.spec_points(),
                    self.spec_nodes().len(),
                    self.spec_hash_fn().spec_hash(key@),
                    n as nat,
                );
                &&& v@.len() == idx.len()
                &&& forall|k: int| 0 <= k < v@.len() ==> *v@[k] == self.spec_nodes()[#[trigger] idx[k]]
            }),
    {
        proof {
            use_type_invariant(self);
        }
        if self.points.len() == 0 {
            return Err(ConsistentHashError::EmptyRing);
        }
        let hash = self.hash_fn.hash(key);
        let len = self.points.len();
        let start = search_points(self.points.as_slice(), hash) % len;
        let node_count = self.nodes.len();
        let target = if n < node_count {
            n
        } else {
            node_count
        };
        let ghost pts = self.points@;
        let mut result: Vec<&Node> = Vec::new();
        let mut seen: Vec<bool> = vec![false; node_count];
        let mut i: usize = start;
        let mut steps: usize = 0;
        proof {
            vstd::arithmetic::div_mod::lemma_small_mod(start as nat, len as nat);
        }
        while result.len() < target && steps < len
            invariant
                len == pts.len(),
                pts == self.points@,
                node_count == self.nodes@.len(),
                points_in_range(pts, node_count as nat),
                target <= node_count,
                steps <= len,
                start < len,
                i == (start + steps) % (len as int),
                seen@.len() == node_count,
                result@.len() == walk_nodes(pts, start as int, steps as nat).len(),
                result@.len() <= target,
                forall|k: int|
                    0 <= k < result@.len() ==> *result@[k] == self.nodes@[#[trigger] walk_nodes(
                        pts,
                        start as int,
                        steps as nat,
                    )[k]],
                forall|x: int|
                    0 <= x < node_count ==> (seen@[x] <==> #[trigger] walk_nodes(
                        pts,
                        start as int,
                        steps as nat,
                    ).contains(x)),
                forall|k: int|
                    0 <= k < walk_nodes(pts, start as int, steps as nat).len() ==> 0 <= #[trigger] walk_nodes(
                        pts,
                        start as int,
                        steps as nat,
                    )[k] < node_count,
            decreases len - steps,
        {
            let ghost w0 = walk_nodes(pts, start as int, steps as nat);
            let node_idx = self.points[i].node_index() as usize;
            assert(i == (start + (steps + 1) - 1) % (len as int));
            if !seen[node_idx] {
                seen.set(node_idx, true);
                result.push(&self.nodes[node_idx]);
            }
            let ghost w1 = walk_nodes(pts, start as int, (steps + 1) as nat);
            assert(w1 == if w0.contains(node_idx as int) { w0 } else { w0.push(node_idx as int) });
            proof {
                if !w0.contains(node_idx as int) {
                    assert forall|x: int| 0 <= x < node_count implies (seen@[x] <==> #[trigger] w1.contains(x)) by {
                        if x == node_idx {
                            assert(w1[w1.len() - 1] == x);
                        } else {
                            if w1.contains(x) {
                                let k = choose|k: int| 0 <= k < w1.len() && w1[k] == x;
                                assert(w0[k] == x);
                            }
                            if w0.contains(x) {
                                let k = choose|k: int| 0 <= k < w0.len() && w0[k] == x;
                                assert(w1[k] == x);
                            }
                        }
                    }
                }
            }
            i = (i + 1) % len;
            steps = steps + 1;
            proof {
                vstd::arithmetic::div_mod::lemma_add_mod_noop_right(1, (start + steps - 1) as int, len as int);
            }
        }
        proof {
            let w = walk_nodes(pts, start as int, len as nat);
            let ws = walk_nodes(pts, start as int, steps as nat);
            lemma_walk_prefix(pts, start as int, steps as nat, len as nat);
            assert(start as int == owner_index(pts, hash));
            let idx = replica_indices(pts, node_count as nat, hash, n as nat);
            if result@.len() == target {
                assert(idx =~= ws);
            } else {
                assert(steps == len);
                assert(idx =~= ws);
            }
        }
        Ok(result)
    }

    /// The snapshot of the ring: version, nodes (weight, id) and points.
    /// Node metadata is not written.
    pub fn to_bytes(&self) -> (b: Vec<u8>)
        ensures
            b@ == ring_bytes(nodes_view(self.spec_nodes()), self.spec_points()),
            snapshot_fits(nodes_view(self.spec_nodes()), self.spec_points()) ==> parse_ring(b@)
                == Ok::<(Seq<(Seq<char>, u64)>, Seq<CompactPointV2>), SnapshotFault>((
                nodes_view(self.spec_nodes()),
                self.spec_points(),
            )),
    {
        proof {
            use_type_invariant(self);
            let ns = nodes_view(self.nodes@);
            if snapshot_fits(ns, self.points@) {
                lemma_snapshot_roundtrip(ns, self.points@, Seq::empty());
                assert(ring_bytes(ns, self.points@) + Seq::<u8>::empty() =~= ring_bytes(ns, self.points@));
            }
        }
        let mut buf: Vec<u8> = Vec::new();
        push_le4(&mut buf, crate::SERIALIZATION_VERSION);
        push_le4(&mut buf, self.nodes.len() as u32);
        let ghost head = buf@;
        let mut k: usize = 0;
        while k < self.nodes.len()
            invariant
                k <= self.nodes@.len(),
                buf@ == head + nodes_bytes(nodes_view(self.nodes@).take(k as int)),
            decreases self.nodes@.len() - k,
        {
            let node = &self.nodes[k];
            let id = node.id.as_str().as_bytes();
            push_le8(&mut buf, node.weight);
            push_le4(&mut buf, id.len() as u32);
            push_all(&mut buf, id);
            proof {
                let v = nodes_view(self.nodes@);
                assert(v.take(k + 1).drop_last() =~= v.take(k as int));
                assert(v.take(k + 1).last() == node_view(self.nodes@[k as int]));
            }
            k = k + 1;
        }
        assert(nodes_view(self.nodes@).take(self.nodes@.len() as int) =~= nodes_view(self.nodes@));
        push_le4(&mut buf, self.points.len() as u32);
        let ghost mid = buf@;
        let mut q: usize = 0;
        while q < self.points.len()
            invariant
                q <= self.points@.len(),
                buf@ == mid + points_bytes(self.points@.take(q as int)),
            decreases self.points@.len() - q,
        {
            let p = self.points[q];
            push_le4(&mut buf, p.hash());
            push_le2(&mut buf, p.node_index());
            proof {
                assert(self.points@.take(q + 1).drop_last() =~= self.points@.take(q as int));
            }
            q = q + 1;
        }
        assert(self.points@.take(self.points@.len() as int) =~= self.points@);
        assert(buf@ =~= ring_bytes(nodes_view(self.nodes@), self.points@));
        buf
    }

    /// Rebuilds a ring from a snapshot, checking the version, every length and
    /// every node index.
    pub fn from_bytes(bytes: &[u8], config: RingConfig, hash_fn: H) -> (r: crate::Result<Self>)
        ensures
            match parse_ring(bytes@) {
                Ok((ns, ps)) => r matches Ok(ring) && {
                    &&& nodes_view(ring.spec_nodes()) == ns
                    &&& forall|i: int| 0 <= i < ring.spec_nodes().len() ==> (#[trigger] ring.spec_nodes()[i]).metadata is None
                    &&& ring.spec_points() == ps
                    &&& ring.spec_config() == config
                    &&& ring.spec_hash_fn() == hash_fn
                },
                Err(SnapshotFault::Version(v)) => r matches Err(
                    ConsistentHashError::VersionMismatch { expected, got },
                ) && expected == crate::SERIALIZATION_VERSION && got == v,
                Err(SnapshotFault::Malformed) => r matches Err(
                    ConsistentHashError::DeserializationError(_),
                ),
            },
    {
        let mut reader = ByteReader { bytes, offset: 0 };
        let version = reader.u32()?;
        if version != crate::SERIALIZATION_VERSION {
            return Err(
                ConsistentHashError::VersionMismatch {
                    expected: crate::SERIALIZATION_VERSION,
                    got: version,
                },
            );
        }
        let n32 = reader.u32()?;
        let n_nodes = n32 as usize;
        let mut nodes: Vec<Node> = Vec::new();
        let mut k: usize = 0;
        while k < n_nodes
            invariant
                reader.bytes == bytes,
                reader.offset <= bytes@.len(),
                n_nodes == n32,
                bytes@.len() >= 8,
                read_le4(bytes@, 0) == crate::SERIALIZATION_VERSION,
                read_le4(bytes@, 4) == n32,
                k <= n_nodes,
                parse_nodes(bytes@, 8, k as nat) == Some((nodes_view(nodes@), reader.offset as int)),
                forall|i: int| 0 <= i < nodes@.len() ==> (#[trigger] nodes@[i]).metadata is None,
            decreases n_nodes - k,
        {
            let ghost o = reader.offset as int;
            let ghost b = bytes@;
            proof {
                if o + 12 > b.len() || o + 12 + read_le4(b, o + 8) > b.len() {
                    assert(parse_nodes(b, 8, (k + 1) as nat) is None);
                    lemma_parse_nodes_none(b, 8, (k + 1) as nat, n32 as nat);
                }
            }
            let weight = reader.u64()?;
            let id_len = reader.u32()? as usize;
            let raw = reader.take(id_len)?;
            let id = match outside::str_from_utf8(raw) {
                Ok(s) => s,
                Err(e) => {
                    proof {
                        assert(parse_nodes(b, 8, (k + 1) as nat) is None);
                        lemma_parse_nodes_none(b, 8, (k + 1) as nat, n32 as nat);
                    }
                    return Err(
                        ConsistentHashError::DeserializationError(outside::utf8_error_message(&e)),
                    );
                },
            };
            let ghost before = nodes@;
            nodes.push(Node::new(id, weight));
            proof {
                assert(nodes_view(nodes@) =~= nodes_view(before).push((decode_utf8(raw@), weight)));
            }
            k = k + 1;
        }
        proof {
            lemma_parse_nodes_len(bytes@, 8, n32 as nat);
        }
        let ghost nodes_end = reader.offset as int;
        let n_points = reader.u32()? as usize;
        let ghost po = reader.offset as int;
        let mut points: Vec<CompactPointV2> = Vec::new();
        let mut q: usize = 0;
        while q < n_points
            invariant
                reader.bytes == bytes,
                reader.offset <= bytes@.len(),
                reader.offset == po + 6 * q,
                po == nodes_end + 4,
                nodes_end + 4 <= bytes@.len(),
                bytes@.len() >= 8,
                read_le4(bytes@, 0) == crate::SERIALIZATION_VERSION,
                read_le4(bytes@, 4) == n32,
                n_nodes == n32,
                parse_nodes(bytes@, 8, n32 as nat) == Some((nodes_view(nodes@), nodes_end)),
                read_le4(bytes@, nodes_end) == n_points,
                forall|i: int| 0 <= i < nodes@.len() ==> (#[trigger] nodes@[i]).metadata is None,
                nodes@.len() == n_nodes,
                q <= n_points,
                parse_points(bytes@, po, q as nat, n_nodes as nat) == Some(points@),
                points_in_range(points@, nodes@.len()),
            decreases n_points - q,
        {
            proof {
                if reader.offset + 6 > bytes@.len() {
                    assert(parse_points(bytes@, po, (q + 1) as nat, n_nodes as nat) is None);
                    lemma_parse_points_none(bytes@, po, (q + 1) as nat, n_points as nat, n_nodes as nat);
                }
            }
            let hash = reader.u32()?;
            let raw = reader.take(2)?;
            let node_index = (raw[0] as u16) | ((raw[1] as u16) << 8);
            if node_index as usize >= nodes.len() {
                proof {
                    assert(parse_points(bytes@, po, (q + 1) as nat, n_nodes as nat) is None);
                    lemma_parse_points_none(bytes@, po, (q + 1) as nat, n_points as nat, n_nodes as nat);
                }
                return Err(
                    ConsistentHashError::DeserializationError(
                        outside::bad_node_index_message(node_index, nodes.len()),
                    ),
                );
            }
            points.push(CompactPointV2::new(hash, node_index));
            q = q + 1;
        }
        Ok(CompactRing { points, nodes, config, hash_fn })
    }

    pub fn builder() -> (b: RingBuilder<H>)
        ensures
            b.spec_nodes().len() == 0,
            b.spec_hash_fn() is None,
    {
        RingBuilder::new()
    }

    /// Counts of the ring: nodes, points and the bytes its points take.
    pub fn stats(&self) -> (st: RingStats)
        requires
            self.spec_points().len() * 6 <= usize::MAX,
        ensures
            st.node_count == self.spec_nodes().len(),
            st.total_points == self.spec_points().len(),
            st.memory_bytes == self.spec_points().len() * 6,
    {
        let n_points = self.points.len();
        RingStats {
            node_count: self.nodes.len(),
            total_points: n_points,
            memory_bytes: n_points * CompactPointV2::SIZE,
        }
    }

    pub fn nodes(&self) -> (r: &[Node])
        ensures
            r@ == self.spec_nodes(),
    {
        self.nodes.as_slice()
    }

    pub fn points(&self) -> (r: &[CompactPointV2])
        ensures
            r@ == self.spec_points(),
            points_in_range(r@, self.spec_nodes().len()),
    {
        proof {
            use_type_invariant(self);
        }
        self.points.as_slice()
    }

    pub fn config(&self) -> (r: &RingConfig)
        ensures
            *r == self.spec_config(),
    {
        &self.config
    }

    pub fn hash_function(&self) -> (r: &H)
        ensures
            *r == self.spec_hash_fn(),
    {
        &self.hash_fn
    }
}

impl<H: HashFunction + Clone> Clone for CompactRing<H> {
    fn clone(&self) -> (r: Self)
        ensures
            r.spec_points() == self.spec_points(),
            same_members(r.spec_nodes(), self.spec_nodes()),
            r.spec_config() == self.spec_config(),
    {
        proof {
            use_type_invariant(self);
        }
        let points = self.points.clone();
        let nodes = self.nodes.clone();
        assert(points@ =~= self.points@);
        assert forall|i: int| 0 <= i < nodes@.len() implies (#[trigger] nodes@[i]).id@ == self.nodes@[i].id@
            && nodes@[i].weight == self.nodes@[i].weight by {
            assert(cloned::<Node>(self.nodes@[i], nodes@[i]));
        }
        CompactRing { points, nodes, config: self.config, hash_fn: self.hash_fn.clone() }
    }
}

/// The counts of a ring.
#[derive(Debug, Clone, Copy)]
pub struct RingStats {
    pub node_count: usize,
    pub total_points: usize,
    pub memory_bytes: usize,
}

/// Collects nodes and settings, then builds a ring.
pub struct RingBuilder<H: HashFunction = DefaultHash> {
    nodes: Vec<Node>,
    config: RingConfig,
    hash_fn: Option<H>,
}

impl<H: HashFunction> RingBuilder<H> {
    pub closed spec fn spec_nodes(&self) -> Seq<Node> {
        self.nodes@
    }

    pub closed spec fn spec_config(&self) -> RingConfig {
        self.config
    }

    pub closed spec fn spec_hash_fn(&self) -> Option<H> {
        self.hash_fn
    }

    pub fn new() -> (b: Self)
        ensures
            b.spec_nodes().len() == 0,
            b.spec_config().base_hashes_per_node == 160,
            b.spec_config().target_cv_ppm == 80_000,
            b.spec_config().max_hashes_per_node == 100_000,
            b.spec_config().min_hashes_per_node == 1,
            b.spec_config().use_v2_format,
            b.spec_config().hash_function == HashFunctionType::Default,
            b.spec_hash_fn() is None,
    {
        RingBuilder { nodes: Vec::new(), config: RingConfig::default(), hash_fn: None }
    }

    pub fn add_node(self, node: Node) -> (b: Self)
        ensures
            b.spec_nodes() == self.spec_nodes().push(node),
            b.spec_config() == self.spec_config(),
            b.spec_hash_fn() == self.spec_hash_fn(),
    {
        let mut nodes = self.nodes;
        nodes.push(node);
        RingBuilder { nodes, config: self.config, hash_fn: self.hash_fn }
    }

    pub fn add_nodes(self, nodes: Vec<Node>) -> (b: Self)
        ensures
            b.spec_nodes() == self.spec_nodes() + nodes@,
            b.spec_config() == self.spec_config(),
            b.spec_hash_fn() == self.spec_hash_fn(),
    {
        let mut all = self.nodes;
        let mut more = nodes;
        all.append(&mut more);
        RingBuilder { nodes: all, config: self.config, hash_fn: self.hash_fn }
    }

    pub fn config(self, config: RingConfig) -> (b: Self)
        ensures
            b.spec_nodes() == self.spec_nodes(),
            b.spec_config() == config,
            b.spec_hash_fn() == self.spec_hash_fn(),
    {
        RingBuilder { nodes: self.nodes, config, hash_fn: self.hash_fn }
    }

    pub fn base_hashes(self, n: usize) -> (b: Self)
        ensures
            b.spec_nodes() == self.spec_nodes(),
            b.spec_config() == (RingConfig { base_hashes_per_node: n, ..self.spec_config() }),
            b.spec_hash_fn() == self.spec_hash_fn(),
    {
        let mut config = self.config;
        config.base_hashes_per_node = n;
        RingBuilder { nodes: self.nodes, config, hash_fn: self.hash_fn }
    }

    /// Sets the target coefficient of variation, in millionths.
    pub fn target_cv(self, cv_ppm: u32) -> (b: Self)
        ensures
            b.spec_nodes() == self.spec_nodes(),
            b.spec_config() == (RingConfig { target_cv_ppm: cv_ppm, ..self.spec_config() }),
            b.spec_hash_fn() == self.spec_hash_fn(),
    {
        let mut config = self.config;
        config.target_cv_ppm = cv_ppm;
        RingBuilder { nodes: self.nodes, config, hash_fn: self.hash_fn }
    }

    pub fn hash_function(self, hash_fn: H) -> (b: Self)
        ensures
            b.spec_nodes() == self.spec_nodes(),
            b.spec_config() == self.spec_config(),
            b.spec_hash_fn() == Some(hash_fn),
    {
        RingBuilder { nodes: self.nodes, config: self.config, hash_fn: Some(hash_fn) }
    }

    pub fn use_v2_format(self, use_v2: bool) -> (b: Self)
        ensures
            b.spec_nodes() == self.spec_nodes(),
            b.spec_config() == (RingConfig { use_v2_format: use_v2, ..self.spec_config() }),
            b.spec_hash_fn() == self.spec_hash_fn(),
    {
        let mut config = self.config;
        config.use_v2_format = use_v2;
        RingBuilder { nodes: self.nodes, config, hash_fn: self.hash_fn }
    }

    /// Builds the ring with the chosen hash function, or the default one.
    pub fn build(self) -> (r: crate::Result<CompactRing<H>>) where H: Default
        requires
            ring_inputs_fit(self.spec_nodes(), self.spec_config()),
        ensures
            self.spec_nodes().len() == 0 ==> r matches Err(ConsistentHashError::EmptyRing),
            self.spec_nodes().len() > 0 && !nodes_valid(self.spec_nodes()) ==> r matches Err(
                ConsistentHashError::InvalidWeight(0),
            ),
            nodes_valid(self.spec_nodes()) && self.spec_nodes().len() > 65536 ==> r matches Err(
                ConsistentHashError::SerializationError(_),
            ),
            nodes_valid(self.spec_nodes()) && self.spec_nodes().len() <= 65536 ==> (r matches Ok(ring) && {
                &&& ring.spec_nodes() == self.spec_nodes()
                &&& ring.spec_config() == self.spec_config()
                &&& (self.spec_hash_fn() matches Some(h) ==> ring.spec_hash_fn() == h)
                &&& points_sorted(ring.spec_points())
                &&& ring.spec_points().to_multiset() == ring_points(ring.spec_hash_fn(), self.spec_nodes(), self.spec_config()).to_multiset()
            }),
    {
        let hash_fn = match self.hash_fn {
            Some(h) => h,
            None => H::default(),
        };
        CompactRing::new(self.nodes, self.config, hash_fn)
    }
}

impl<H: HashFunction> Default for RingBuilder<H> {
    fn default() -> (b: Self)
        ensures
            b.spec_nodes().len() == 0,
            b.spec_hash_fn() is None,
    {
        Self::new()
    }
}

// ---------------------------------------------------------------------------
// Laws
// ---------------------------------------------------------------------------

proof fn lemma_point_le_antisym(a: CompactPointV2, b: CompactPointV2)
    requires
        crate::point_le(a, b),
        crate::point_le(b, a),
    ensures
        a == b,
{
    CompactPointV2::lemma_ext(a, b);
}

/// Two point sequences in ring order with the same points are equal.
pub proof fn lemma_sorted_points_unique(a: Seq<CompactPointV2>, b: Seq<CompactPointV2>)
    requires
        points_sorted(a),
        points_sorted(b),
        a.to_multiset() == b.to_multiset(),
    ensures
        a == b,
    decreases a.len(),
{
    broadcast use vstd::seq_lib::group_to_multiset_ensures;

    assert(a.len() == b.len()) by {
        assert(a.len() == a.to_multiset().len());
        assert(b.len() == b.to_multiset().len());
    }
    if a.len() > 0 {
        let x = a[0];
        let y = b[0];
        assert(a.to_multiset().count(x) > 0);
        assert(b.contains(x));
        let j = choose|j: int| 0 <= j < b.len() && b[j] == x;
        if j > 0 {
            assert(crate::point_le(b[0], b[j]));
        }
        assert(b.to_multiset().count(y) > 0);
        assert(a.contains(y));
        let i = choose|i: int| 0 <= i < a.len() && a[i] == y;
        if i > 0 {
            assert(crate::point_le(a[0], a[i]));
        }
        lemma_point_le_antisym(x, y);
        assert(a.remove(0) =~= a.drop_first());
        assert(b.remove(0) =~= b.drop_first());
        assert(a.drop_first().to_multiset() == a.to_multiset().remove(x));
        assert(b.drop_first().to_multiset() == b.to_multiset().remove(y));
        assert forall|p: int, q: int| 0 <= p < q < a.drop_first().len() implies crate::point_le(
            #[trigger] a.drop_first()[p],
            #[trigger] a.drop_first()[q],
        ) by {
            assert(crate::point_le(a[p + 1], a[q + 1]));
        }
        assert forall|p: int, q: int| 0 <= p < q < b.drop_first().len() implies crate::point_le(
            #[trigger] b.drop_first()[p],
            #[trigger] b.drop_first()[q],
        ) by {
            assert(crate::point_le(b[p + 1], b[q + 1]));
        }
        lemma_sorted_points_unique(a.drop_first(), b.drop_first());
        assert(a =~= seq![x] + a.drop_first());
        assert(b =~= seq![y] + b.drop_first());
    } else {
        assert(a =~= b);
    }
}

/// Rings built from the same nodes, configuration and hash function have the
/// same points, so they send every key to the same node.
pub proof fn lemma_independent_rings_agree<H: HashFunction>(r1: CompactRing<H>, r2: CompactRing<H>)
    requires
        r1.spec_nodes() == r2.spec_nodes(),
        r1.spec_hash_fn() == r2.spec_hash_fn(),
        points_sorted(r1.spec_points()),
        points_sorted(r2.spec_points()),
        r1.spec_points().to_multiset() == ring_points(r1.spec_hash_fn(), r1.spec_nodes(), r1.spec_config()).to_multiset(),
        r2.spec_points().to_multiset() == ring_points(r2.spec_hash_fn(), r2.spec_nodes(), r2.spec_config()).to_multiset(),
        hashes_per_node(r1.spec_nodes().len(), r1.spec_config()) == hashes_per_node(r2.spec_nodes().len(), r2.spec_config()),
    ensures
        r1.spec_points() == r2.spec_points(),
        forall|h: u32| #[trigger] r1.owner_of(h) == r2.owner_of(h),
{
    lemma_sorted_points_unique(r1.spec_points(), r2.spec_points());
}

/// A ring rebuilt from a snapshot sends every hash to a node with the same id
/// and weight as the ring the snapshot was taken from.
pub proof fn lemma_restored_ring_routes_identically<H: HashFunction>(
    original: CompactRing<H>,
    restored: CompactRing<H>,
)
    requires
        restored.spec_points() == original.spec_points(),
        nodes_view(restored.spec_nodes()) == nodes_view(original.spec_nodes()),
        points_in_range(original.spec_points(), original.spec_nodes().len()),
        original.spec_points().len() > 0,
    ensures
        forall|h: u32| #[trigger] node_view(restored.owner_of(h)) == node_view(original.owner_of(h)),
{
    assert forall|h: u32| #[trigger] node_view(restored.owner_of(h)) == node_view(original.owner_of(h)) by {
        let s = original.spec_points();
        lemma_search_range(s, h, 0, s.len() as int);
        let k = owner_index(s, h);
        let idx = s[k].node_index_spec() as int;
        assert(0 <= k < s.len());
        assert(nodes_view(original.spec_nodes()).len() == original.spec_nodes().len());
        assert(nodes_view(restored.spec_nodes())[idx] == node_view(restored.spec_nodes()[idx]));
        assert(nodes_view(original.spec_nodes())[idx] == node_view(original.spec_nodes()[idx]));
    }
}

proof fn lemma_walk_distinct(points: Seq<CompactPointV2>, start: int, t: nat)
    ensures
        walk_nodes(points, start, t).no_duplicates(),
    decreases t,
{
    if t > 0 {
        lemma_walk_distinct(points, start, (t - 1) as nat);
    }
}

/// `get_n` names each node at most once, and its first node is the owner
/// that `get` names.
pub proof fn lemma_replicas_distinct_and_led_by_owner(
    points: Seq<CompactPointV2>,
    node_count: nat,
    h: u32,
    n: nat,
)
    requires
        points.len() > 0,
    ensures
        replica_indices(points, node_count, h, n).no_duplicates(),
        replica_indices(points, node_count, h, n).len() <= n,
        replica_indices(points, node_count, h, n).len() <= node_count,
        n >= 1 && node_count >= 1 ==> replica_indices(points, node_count, h, n)[0]
            == points[owner_index(points, h)].node_index_spec() as int,
{
    let start = owner_index(points, h);
    let w = walk_nodes(points, start, points.len());
    lemma_walk_distinct(points, start, points.len());
    lemma_walk_prefix(points, start, 1, points.len());
    lemma_search_range(points, h, 0, points.len() as int);
    let r = replica_indices(points, node_count, h, n);
    assert forall|i: int, j: int| 0 <= i < r.len() && 0 <= j < r.len() && i != j implies r[i] != r[j] by {
        assert(r[i] == w[i] && r[j] == w[j]);
    }
    if n >= 1 && node_count >= 1 {
        let first = points[(start + 1 - 1) % (points.len() as int)].node_index_spec() as int;
        assert(walk_nodes(points, start, 0) =~= Seq::<int>::empty());
        assert(!Seq::<int>::empty().contains(first));
        assert(walk_nodes(points, start, 1) =~= Seq::<int>::empty().push(first));
        vstd::arithmetic::div_mod::lemma_small_mod(start as nat, points.len());
        assert(w.take(1)[0] == w[0]);
    }
}


pub proof fn lemma_weight_sum_same(a: Seq<Node>, b: Seq<Node>, k: nat)
    requires
        same_members(a, b),
    ensures
        weight_sum(a, k) == weight_sum(b, k),
    decreases k,
{
    if k > 0 && k <= a.len() {
        lemma_weight_sum_same(a, b, (k - 1) as nat);
        assert(a[k - 1].weight == b[k - 1].weight);
    }
}

proof fn lemma_points_upto_same<H: HashFunction>(hf: H, a: Seq<Node>, b: Seq<Node>, h: nat, k: nat)
    requires
        same_members(a, b),
    ensures
        points_upto(hf, a, h, k) == points_upto(hf, b, h, k),
    decreases k,
{
    if k > 0 && k <= a.len() {
        lemma_points_upto_same(hf, a, b, h, (k - 1) as nat);
        lemma_weight_sum_same(a, b, a.len());
        assert(a[k - 1].id@ == b[k - 1].id@ && a[k - 1].weight == b[k - 1].weight);
    }
}

/// A ring's points depend on its nodes' ids and weights alone.
pub proof fn lemma_ring_points_same_members<H: HashFunction>(hf: H, a: Seq<Node>, b: Seq<Node>, config: RingConfig)
    requires
        same_members(a, b),
    ensures
        ring_points(hf, a, config) == ring_points(hf, b, config),
{
    lemma_points_upto_same(hf, a, b, hashes_per_node(a.len(), config), a.len());
}

/// Number of points `new` makes for the first `k` nodes.
pub open spec fn point_count_upto(nodes: Seq<Node>, h: nat, k: nat) -> nat
    decreases k,
{
    if k == 0 || k > nodes.len() {
        0
    } else {
        point_count_upto(nodes, h, (k - 1) as nat) + points_for_node(
            h,
            nodes[k - 1].weight as nat,
            nodes.len(),
            total_weight(nodes),
        )
    }
}

/// Number of points of the ring `new` builds from these nodes.
pub open spec fn ring_point_count(nodes: Seq<Node>, config: RingConfig) -> nat {
    point_count_upto(nodes, hashes_per_node(nodes.len(), config), nodes.len())
}

proof fn lemma_points_upto_len<H: HashFunction>(hf: H, nodes: Seq<Node>, h: nat, k: nat)
    ensures
        points_upto(hf, nodes, h, k).len() == point_count_upto(nodes, h, k),
    decreases k,
{
    if k > 0 && k <= nodes.len() {
        lemma_points_upto_len(hf, nodes, h, (k - 1) as nat);
    }
}

/// The points of a ring number `ring_point_count`, whatever the hash.
pub proof fn lemma_ring_points_len<H: HashFunction>(hf: H, nodes: Seq<Node>, config: RingConfig)
    ensures
        ring_points(hf, nodes, config).len() == ring_point_count(nodes, config),
{
    lemma_points_upto_len(hf, nodes, hashes_per_node(nodes.len(), config), nodes.len());
}


/// Points of a sequence that name node `i`.
pub open spec fn node_point_count(points: Seq<CompactPointV2>, i: int) -> nat
    decreases points.len(),
{
    if points.len() == 0 {
        0
    } else {
        node_point_count(points.drop_last(), i) + if points.last().node_index_spec() as int == i {
            1nat
        } else {
            0nat
        }
    }
}

proof fn lemma_count_concat(a: Seq<CompactPointV2>, b: Seq<CompactPointV2>, i: int)
    ensures
        node_point_count(a + b, i) == node_point_count(a, i) + node_point_count(b, i),
    decreases b.len(),
{
    if b.len() == 0 {
        assert(a + b =~= a);
    } else {
        lemma_count_concat(a, b.drop_last(), i);
        assert((a + b).drop_last() =~= a + b.drop_last());
        assert((a + b).last() == b.last());
    }
}

proof fn lemma_count_node_points<H: HashFunction>(hf: H, id: Seq<char>, j: u16, c: nat, i: int)
    ensures
        node_point_count(node_points(hf, id, j, c), i) == if j as int == i {
            c
        } else {
            0
        },
    decreases c,
{
    if c > 0 {
        let np = node_points(hf, id, j, c);
        assert(np.drop_last() =~= node_points(hf, id, j, (c - 1) as nat));
        assert(np.last().node_index_spec() == j);
        lemma_count_node_points(hf, id, j, (c - 1) as nat, i);
    } else {
        assert(node_points(hf, id, j, c).len() == 0);
    }
}

proof fn lemma_count_points_upto<H: HashFunction>(hf: H, nodes: Seq<Node>, h: nat, k: nat, i: int)
    requires
        k <= nodes.len() <= 65536,
        0 <= i,
    ensures
        node_point_count(points_upto(hf, nodes, h, k), i) == if i < k {
            points_for_node(h, nodes[i].weight as nat, nodes.len(), total_weight(nodes))
        } else {
            0
        },
    decreases k,
{
    if k > 0 {
        lemma_count_points_upto(hf, nodes, h, (k - 1) as nat, i);
        let c = points_for_node(h, nodes[k - 1].weight as nat, nodes.len(), total_weight(nodes));
        lemma_count_concat(
            points_upto(hf, nodes, h, (k - 1) as nat),
            node_points(hf, nodes[k - 1].id@, (k - 1) as u16, c),
            i,
        );
        lemma_count_node_points(hf, nodes[k - 1].id@, (k - 1) as u16, c, i);
    } else {
        assert(points_upto(hf, nodes, h, 0).len() == 0);
    }
}

proof fn lemma_count_remove(t: Seq<CompactPointV2>, k: int, i: int)
    requires
        0 <= k < t.len(),
    ensures
        node_point_count(t, i) == node_point_count(t.remove(k), i) + if t[k].node_index_spec() as int == i {
            1nat
        } else {
            0nat
        },
    decreases t.len(),
{
    if k == t.len() - 1 {
        assert(t.remove(k) =~= t.drop_last());
    } else {
        lemma_count_remove(t.drop_last(), k, i);
        assert(t.remove(k).drop_last() =~= t.drop_last().remove(k));
        assert(t.remove(k).last() == t.last());
    }
}

/// How many points name a node is the same for any ordering of the points.
proof fn lemma_count_multiset(s: Seq<CompactPointV2>, t: Seq<CompactPointV2>, i: int)
    requires
        s.to_multiset() == t.to_multiset(),
    ensures
        node_point_count(s, i) == node_point_count(t, i),
    decreases s.len(),
{
    broadcast use vstd::seq_lib::group_to_multiset_ensures;

    assert(s.len() == s.to_multiset().len());
    assert(t.len() == t.to_multiset().len());
    if s.len() > 0 {
        let x = s.last();
        assert(s.drop_last().push(x) =~= s);
        assert(s.to_multiset().count(x) > 0) by {
            assert(s.contains(x)) by {
                assert(s[s.len() - 1] == x);
            }
        }
        assert(t.contains(x));
        let k = choose|k: int| 0 <= k < t.len() && t[k] == x;
        assert(t.remove(k).to_multiset() == t.to_multiset().remove(x));
        assert(s.drop_last().to_multiset() =~= s.to_multiset().remove(x)) by {
            broadcast use vstd::multiset::group_multiset_axioms;

            assert(s.to_multiset() == s.drop_last().to_multiset().insert(x));
        }
        lemma_count_multiset(s.drop_last(), t.remove(k), i);
        lemma_count_remove(t, k, i);
    }
}

/// Weighted placement: in a ring that `new` builds, node `i` has its
/// weight's share of `n` times the points per average node, rounded down,
/// and at least one point.
pub proof fn lemma_points_follow_weight<H: HashFunction>(ring: CompactRing<H>, config: RingConfig, i: int)
    requires
        nodes_valid(ring.spec_nodes()),
        ring.spec_nodes().len() <= 65536,
        ring.spec_points().to_multiset() == ring_points(ring.spec_hash_fn(), ring.spec_nodes(), config).to_multiset(),
        0 <= i < ring.spec_nodes().len(),
    ensures
        node_point_count(ring.spec_points(), i) == points_for_node(
            hashes_per_node(ring.spec_nodes().len(), config),
            ring.spec_nodes()[i].weight as nat,
            ring.spec_nodes().len(),
            total_weight(ring.spec_nodes()),
        ),
        node_point_count(ring.spec_points(), i) >= 1,
{
    let nodes = ring.spec_nodes();
    let rp = ring_points(ring.spec_hash_fn(), nodes, config);
    lemma_count_multiset(ring.spec_points(), rp, i);
    lemma_count_points_upto(ring.spec_hash_fn(), nodes, hashes_per_node(nodes.len(), config), nodes.len(), i);
}

} // verus!

//! `MaglevTable`: Google's Maglev lookup table. Every node gets one virtual
//! node per unit of weight; each virtual node walks its own permutation of the
//! table's slots and, in turns, claims the first free slot it meets.

use vstd::prelude::*;
use vstd::utf8::encode_utf8;
use vstd::set_lib::{set_int_range, lemma_int_range, lemma_len_subset};
use crate::{ConsistentHashError, HashFunction, DefaultHash};
use crate::ring::{Node, nodes_valid};
use crate::bytes::{le8, push_all, push_le8};
use crate::outside;

verus! {

// ---------------------------------------------------------------------------
// Primes
// ---------------------------------------------------------------------------

pub open spec fn is_prime_spec(n: nat) -> bool {
    n >= 2 && forall|d: nat| 2 <= d < n ==> #[trigger] (n % d) != 0
}

/// The least prime at or above `n`.
pub open spec fn is_next_prime(n: nat, p: nat) -> bool {
    &&& is_prime_spec(p)
    &&& p >= n
    &&& forall|q: nat| n <= q < p ==> !#[trigger] is_prime_spec(q)
}

/// Some prime lies in `n..=usize::MAX`.
pub open spec fn prime_at_or_above(n: nat) -> bool {
    exists|q: nat| n <= q <= usize::MAX && #[trigger] is_prime_spec(q)
}

proof fn lemma_odd_no_even_divisor(n: nat, d: nat)
    requires
        n % 2 == 1,
        d % 2 == 0,
        d >= 2,
    ensures
        n % d != 0,
{
    if n % d == 0 {
        let q = n / d;
        let h = d / 2;
        assert(n == d * q) by {
            vstd::arithmetic::div_mod::lemma_fundamental_div_mod(n as int, d as int);
        }
        assert(n == 2 * (h * q)) by (nonlinear_arith)
            requires
                n == d * q,
                d == 2 * h,
        ;
        assert((2 * (h * q)) % 2 == 0) by {
            vstd::arithmetic::div_mod::lemma_mod_multiples_basic((h * q) as int, 2);
        }
    }
}

proof fn lemma_cofactor(n: nat, d: nat, i: nat)
    requires
        n % d == 0,
        2 <= d < n,
        i <= d,
        n < i * i,
    ensures
        2 <= n / d < i,
        n % (n / d) == 0,
{
    let q = n / d;
    vstd::arithmetic::div_mod::lemma_fundamental_div_mod(n as int, d as int);
    assert(n == d * q);
    assert(q >= 2) by (nonlinear_arith)
        requires
            n == d * q,
            d < n,
            d >= 2,
    ;
    assert(q < i) by (nonlinear_arith)
        requires
            n == d * q,
            n < i * i,
            i <= d,
            q >= 0,
    ;
    assert(n == q * d) by (nonlinear_arith)
        requires
            n == d * q,
    ;
    vstd::arithmetic::div_mod::lemma_mod_multiples_basic(d as int, q as int);
}

/// Trial division by odd numbers up to the square root.
pub fn is_prime(n: usize) -> (r: bool)
    ensures
        r == is_prime_spec(n as nat),
{
    if n < 2 {
        return false;
    }
    if n % 2 == 0 {
        if n == 2 {
            return true;
        }
        assert(n % 2 == 0);
        return false;
    }
    let mut i: usize = 3;
    while i <= n / i
        invariant
            3 <= i <= n + 2,
            i % 2 == 1,
            n % 2 == 1,
            n >= 3,
            forall|d: nat| 2 <= d < i ==> #[trigger] ((n as nat) % d) != 0,
        decreases n + 2 - i,
    {
        assert(i * i <= n && i + 2 <= n) by (nonlinear_arith)
            requires
                i <= n / i,
                i >= 3,
                n >= 3,
        {
            vstd::arithmetic::div_mod::lemma_fundamental_div_mod(n as int, i as int);
            assert(i * i <= i * (n / i)) by (nonlinear_arith)
                requires
                    i <= n / i,
                    i >= 0,
            ;
        }
        if n % i == 0 {
            return false;
        }
        proof {
            assert forall|d: nat| 2 <= d < i + 2 implies #[trigger] ((n as nat) % d) != 0 by {
                if d == i + 1 {
                    lemma_odd_no_even_divisor(n as nat, d);
                }
            }
        }
        i = i + 2;
    }
    assert(n < i * i) by (nonlinear_arith)
        requires
            n / i < i,
            i >= 3,
    {
        vstd::arithmetic::div_mod::lemma_fundamental_div_mod(n as int, i as int);
        assert(i * (n / i) <= i * (i - 1)) by (nonlinear_arith)
            requires
                n / i <= i - 1,
                i >= 0,
        ;
    }
    proof {
        assert forall|d: nat| 2 <= d < n implies #[trigger] ((n as nat) % d) != 0 by {
            if d >= i && (n as nat) % d == 0 {
                lemma_cofactor(n as nat, d, i as nat);
                let q = (n as nat) / d;
                assert((n as nat) % q != 0);
            }
        }
    }
    true
}

/// The least prime at or above `n` (2 for `n <= 2`).
pub fn next_prime(n: usize) -> (r: usize)
    requires
        prime_at_or_above(n as nat),
    ensures
        is_next_prime(n as nat, r as nat),
{
    if n <= 2 {
        assert forall|q: nat| n <= q < 2 implies !#[trigger] is_prime_spec(q) by {}
        assert(is_prime_spec(2));
        return 2;
    }
    let ghost q = choose|q: nat| n <= q <= usize::MAX && #[trigger] is_prime_spec(q);
    assert(q % 2 == 1) by {
        if q % 2 == 0 {
            assert(q % 2 != 0);
        }
    }
    let mut p: usize = if n % 2 == 0 {
        n + 1
    } else {
        n
    };
    proof {
        if n % 2 == 0 {
            assert(!is_prime_spec(n as nat)) by {
                assert((n as nat) % 2 == 0);
            }
        }
    }
    loop
        invariant
            n >= 3,
            n <= p <= q <= usize::MAX,
            p % 2 == 1,
            q % 2 == 1,
            is_prime_spec(q),
            forall|x: nat| n <= x < p ==> !#[trigger] is_prime_spec(x),
        decreases q - p,
    {
        if is_prime(p) {
            return p;
        }
        proof {
            assert(p != q);
            assert forall|x: nat| n <= x < p + 2 implies !#[trigger] is_prime_spec(x) by {
                if x == p + 1 {
                    assert(x % 2 == 0);
                    assert(x % 2 != 0 || !is_prime_spec(x));
                }
            }
        }
        p = p + 2;
    }
}

// ---------------------------------------------------------------------------
// Configuration
// ---------------------------------------------------------------------------

/// Table size (a prime) and the seed of the slot permutations.
#[derive(Debug, Clone)]
pub struct MaglevConfig {
    pub table_size: usize,
    pub seed: u64,
}

impl Default for MaglevConfig {
    fn default() -> (c: Self)
        ensures
            c.table_size == 65537,
            c.seed == 0x9e3779b97f4a7c15,
    {
        MaglevConfig { table_size: 65537, seed: 0x9e3779b97f4a7c15 }
    }
}

impl MaglevConfig {
    /// A configuration whose table size is the least prime at or above
    /// `table_size`.
    pub fn new(table_size: usize) -> (c: Self)
        requires
            prime_at_or_above(table_size as nat),
        ensures
            is_next_prime(table_size as nat, c.table_size as nat),
            c.seed == 0x9e3779b97f4a7c15,
    {
        MaglevConfig { table_size: next_prime(table_size), seed: 0x9e3779b97f4a7c15 }
    }

    pub fn with_seed(self, seed: u64) -> (c: Self)
        ensures
            c.table_size == self.table_size,
            c.seed == seed,
    {
        MaglevConfig { table_size: self.table_size, seed }
    }
}

// ---------------------------------------------------------------------------
// Virtual nodes and their permutations
// ---------------------------------------------------------------------------

/// Virtual nodes of the first `k` nodes, as (node index, virtual index): one
/// per unit of weight.
pub open spec fn vnodes_upto(nodes: Seq<Node>, k: nat) -> Seq<(int, nat)>
    decreases k,
{
    if k == 0 || k > nodes.len() {
        Seq::empty()
    } else {
        vnodes_upto(nodes, (k - 1) as nat) + Seq::new(
            (nodes[k - 1].weight as usize) as nat,
            |v: int| ((k - 1) as int, v as nat),
        )
    }
}

pub open spec fn vnodes(nodes: Seq<Node>) -> Seq<(int, nat)> {
    vnodes_upto(nodes, nodes.len())
}

/// Every weight fits a `usize`, so each node has as many virtual nodes as
/// its weight.
pub open spec fn weights_fit_usize(nodes: Seq<Node>) -> bool {
    forall|i: int| 0 <= i < nodes.len() ==> #[trigger] nodes[i].weight <= usize::MAX
}

proof fn lemma_valid_nodes_have_vnodes(nodes: Seq<Node>)
    requires
        nodes_valid(nodes),
        weights_fit_usize(nodes),
    ensures
        vnodes(nodes).len() > 0,
{
    let last = nodes[nodes.len() - 1];
    assert(last.weight > 0 && last.weight <= usize::MAX);
}

/// The bytes hashed for a virtual node: its node's id, then its index as
/// eight little-endian bytes.
pub open spec fn vnode_key(id: Seq<char>, v: nat) -> Seq<u8> {
    encode_utf8(id) + le8(v as u64)
}

pub open spec fn perm_offset(key: Seq<u8>, table_size: nat, seed: u64) -> nat {
    ((outside::xxh3_seeded_digest(key, seed) as usize) as nat) % table_size
}

pub open spec fn perm_skip(key: Seq<u8>, table_size: nat, seed: u64) -> nat {
    ((outside::xxh3_seeded_digest(key, seed.wrapping_add(1)) as usize) as nat) % ((table_size
        - 1) as nat) + 1
}

/// The slot order of a virtual node: `offset, offset + skip, ...` modulo the
/// table size.
pub open spec fn permutation(key: Seq<u8>, table_size: nat, seed: u64) -> Seq<int> {
    Seq::new(
        table_size,
        |i: int|
            ((perm_offset(key, table_size, seed) + i * perm_skip(key, table_size, seed))
                % (table_size as int)),
    )
}

pub open spec fn vnode_permutation(nodes: Seq<Node>, config: MaglevConfig, k: int) -> Seq<int> {
    let vn = vnodes(nodes)[k];
    permutation(vnode_key(nodes[vn.0].id@, vn.1), config.table_size as nat, config.seed)
}

/// Every slot lies on the permutation of some virtual node, so the table can
/// be filled.
pub open spec fn table_reachable(nodes: Seq<Node>, config: MaglevConfig) -> bool {
    forall|s: int| 0 <= s < config.table_size ==> #[trigger] slot_reachable(nodes, config, s)
}

/// Slot `s` lies on the permutation of some virtual node.
pub open spec fn slot_reachable(nodes: Seq<Node>, config: MaglevConfig, s: int) -> bool {
    exists|k: int|
        0 <= k < vnodes(nodes).len() && #[trigger] vnode_permutation(nodes, config, k).contains(s)
}

fn generate_permutation(key: &[u8], table_size: usize, seed: u64) -> (perm: Vec<usize>)
    requires
        2 <= table_size <= usize::MAX / 2,
    ensures
        perm@.len() == table_size,
        forall|i: int|
            0 <= i < table_size ==> perm@[i] as int == #[trigger] permutation(
                key@,
                table_size as nat,
                seed,
            )[i],
        forall|i: int| 0 <= i < table_size ==> #[trigger] perm@[i] < table_size,
{
    let h1 = outside::xxh3_64_seeded(key, seed);
    let h2 = outside::xxh3_64_seeded(key, seed.wrapping_add(1));
    let offset = (h1 as usize) % table_size;
    let skip = ((h2 as usize) % (table_size - 1)) + 1;
    let ghost spec_perm = permutation(key@, table_size as nat, seed);
    assert(offset == perm_offset(key@, table_size as nat, seed));
    assert(skip == perm_skip(key@, table_size as nat, seed));
    let mut perm: Vec<usize> = Vec::new();
    let mut current = offset;
    let mut i: usize = 0;
    proof {
        vstd::arithmetic::div_mod::lemma_small_mod(offset as nat, table_size as nat);
    }
    while i < table_size
        invariant
            2 <= table_size <= usize::MAX / 2,
            i <= table_size,
            1 <= skip < table_size,
            offset < table_size,
            spec_perm == permutation(key@, table_size as nat, seed),
            offset == perm_offset(key@, table_size as nat, seed),
            skip == perm_skip(key@, table_size as nat, seed),
            current == (offset + i * skip) % (table_size as int),
            perm@.len() == i,
            forall|t: int| 0 <= t < i ==> perm@[t] as int == #[trigger] spec_perm[t],
            forall|t: int| 0 <= t < i ==> #[trigger] perm@[t] < table_size,
        decreases table_size - i,
    {
        perm.push(current);
        proof {
            let m = table_size as int;
            let x = offset + i * skip;
            vstd::arithmetic::div_mod::lemma_add_mod_noop(x, skip as int, m);
            vstd::arithmetic::div_mod::lemma_small_mod(skip as nat, m as nat);
            assert(x + skip == offset + (i + 1) * skip) by (nonlinear_arith)
                requires
                    x == offset + i * skip,
            ;
        }
        current = (current + skip) % table_size;
        i = i + 1;
    }
    perm
}

// ---------------------------------------------------------------------------
// The table
// ---------------------------------------------------------------------------

/// Slots that hold a virtual node.
pub open spec fn filled_slots(table: Seq<usize>) -> Set<int> {
    Set::new(|s: int| 0 <= s < table.len() && table[s] != usize::MAX)
}

proof fn lemma_filled_slots_finite(table: Seq<usize>)
    ensures
        filled_slots(table).finite(),
        filled_slots(table).subset_of(set_int_range(0, table.len() as int)),
        filled_slots(table).len() <= table.len(),
{
    lemma_int_range(0, table.len() as int);
    lemma_len_subset(filled_slots(table), set_int_range(0, table.len() as int));
}

proof fn lemma_some_slot_empty(table: Seq<usize>)
    requires
        filled_slots(table).len() < table.len(),
    ensures
        exists|s: int| 0 <= s < table.len() && table[s] == usize::MAX,
{
    lemma_filled_slots_finite(table);
    lemma_int_range(0, table.len() as int);
    if !(exists|s: int| 0 <= s < table.len() && table[s] == usize::MAX) {
        assert forall|s: int| set_int_range(0, table.len() as int).contains(s) implies filled_slots(
            table,
        ).contains(s) by {
            assert(!(0 <= s < table.len() && table[s] == usize::MAX));
        }
        lemma_len_subset(set_int_range(0, table.len() as int), filled_slots(table));
    }
}

proof fn lemma_no_slot_empty(table: Seq<usize>)
    requires
        filled_slots(table).len() == table.len(),
    ensures
        forall|s: int| 0 <= s < table.len() ==> table[s] != usize::MAX,
{
    lemma_filled_slots_finite(table);
    assert forall|s: int| 0 <= s < table.len() implies table[s] != usize::MAX by {
        if table[s] == usize::MAX {
            let r = set_int_range(0, table.len() as int).remove(s);
            lemma_int_range(0, table.len() as int);
            assert(filled_slots(table).subset_of(r));
            lemma_len_subset(filled_slots(table), r);
        }
    }
}


// ---------------------------------------------------------------------------
// The filling process
// ---------------------------------------------------------------------------

/// A filling state: the table (`usize::MAX` marks a free slot), each virtual
/// node's next position on its permutation, and how many slots are taken.
pub type FillState = (Seq<usize>, Seq<usize>, nat);

/// The first position at or after `j` on `perm` whose slot is free;
/// `perm.len()` if there is none.
pub open spec fn first_free(perm: Seq<int>, table: Seq<usize>, j: nat) -> nat
    decreases perm.len() - j,
{
    if j >= perm.len() {
        perm.len()
    } else if table[perm[j as int]] == usize::MAX {
        j
    } else {
        first_free(perm, table, j + 1)
    }
}

/// Virtual node `v`'s turn: it claims the first free slot from its next
/// position on, or runs out of positions.
pub open spec fn take_turn(nodes: Seq<Node>, config: MaglevConfig, st: FillState, v: int) -> FillState {
    let perm = vnode_permutation(nodes, config, v);
    let i = first_free(perm, st.0, st.1[v] as nat);
    if i < perm.len() {
        (st.0.update(perm[i as int], v as usize), st.1.update(v, (i + 1) as usize), st.2 + 1)
    } else {
        (st.0, st.1.update(v, perm.len() as usize), st.2)
    }
}

/// The first `v` turns of a round, which stops once the table is full.
pub open spec fn round_upto(nodes: Seq<Node>, config: MaglevConfig, st: FillState, v: nat) -> FillState
    decreases v,
{
    if v == 0 {
        st
    } else {
        let prev = round_upto(nodes, config, st, (v - 1) as nat);
        if prev.2 >= config.table_size {
            prev
        } else {
            take_turn(nodes, config, prev, v - 1)
        }
    }
}

/// Rounds until the table is full; `None` once a round takes no slot.
pub open spec fn populate(nodes: Seq<Node>, config: MaglevConfig, st: FillState) -> Option<Seq<usize>>
    decreases config.table_size - st.2,
{
    if st.2 >= config.table_size {
        Some(st.0)
    } else {
        let next = round_upto(nodes, config, st, vnodes(nodes).len());
        if next.2 <= st.2 || next.2 > config.table_size {
            None
        } else {
            populate(nodes, config, next)
        }
    }
}

/// The table that filling produces from an empty table, if it fills.
pub open spec fn maglev_fill(nodes: Seq<Node>, config: MaglevConfig) -> Option<Seq<usize>> {
    populate(
        nodes,
        config,
        (
            Seq::new(config.table_size as nat, |i: int| usize::MAX),
            Seq::new(vnodes(nodes).len(), |i: int| 0usize),
            0,
        ),
    )
}

proof fn lemma_round_stable(nodes: Seq<Node>, config: MaglevConfig, st: FillState, v: nat, w: nat)
    requires
        v <= w,
        round_upto(nodes, config, st, v).2 >= config.table_size,
    ensures
        round_upto(nodes, config, st, w) == round_upto(nodes, config, st, v),
    decreases w,
{
    if w > v {
        lemma_round_stable(nodes, config, st, v, (w - 1) as nat);
    }
}

/// A Maglev lookup table: slot to virtual node to node.
#[derive(Debug)]
pub struct MaglevTable<H: HashFunction = DefaultHash> {
    table: Vec<usize>,
    vnode_to_node: Vec<usize>,
    nodes: Vec<Node>,
    config: MaglevConfig,
    hash_fn: H,
}

impl<H: HashFunction> MaglevTable<H> {
    /// The table's invariant: every slot names a virtual node and every
    /// virtual node a node.
    #[verifier::type_invariant]
    pub closed spec fn wf(self) -> bool {
        &&& self.table@.len() >= 1
        &&& forall|s: int| 0 <= s < self.table@.len() ==> #[trigger] self.table@[s] < self.vnode_to_node@.len()
        &&& forall|k: int| 0 <= k < self.vnode_to_node@.len() ==> #[trigger] self.vnode_to_node@[k] < self.nodes@.len()
    }

    pub closed spec fn spec_table(&self) -> Seq<usize> {
        self.table@
    }

    pub closed spec fn spec_vnode_to_node(&self) -> Seq<usize> {
        self.vnode_to_node@
    }

    pub closed spec fn spec_nodes(&self) -> Seq<Node> {
        self.nodes@
    }

    pub closed spec fn spec_config(&self) -> MaglevConfig {
        self.config
    }

    pub closed spec fn spec_hash_fn(&self) -> H {
        self.hash_fn
    }

    /// Slot of hash `h`.
    pub open spec fn slot_of(&self, h: u32) -> int {
        (h as usize) as int % (self.spec_table().len() as int)
    }

    /// Index of the node that owns the table slot `s`.
    pub open spec fn node_at(&self, s: int) -> int {
        self.spec_vnode_to_node()[self.spec_table()[s] as int] as int
    }

    /// Fills the table: virtual nodes take turns, each claiming the next free
    /// slot on its permutation. When some slot lies on no permutation the
    /// table can never fill; that is answered with `EmptyRing`.
    pub fn new(nodes: Vec<Node>, config: MaglevConfig, hash_fn: H) -> (r: crate::Result<Self>)
        requires
            nodes_valid(nodes@) ==> 2 <= config.table_size <= usize::MAX / 2,
        ensures
            nodes@.len() == 0 ==> r matches Err(ConsistentHashError::EmptyRing),
            nodes@.len() > 0 && !nodes_valid(nodes@) ==> r matches Err(
                ConsistentHashError::InvalidWeight(0),
            ),
            nodes_valid(nodes@) && !table_reachable(nodes@, config) ==> r matches Err(
                ConsistentHashError::EmptyRing,
            ),
            nodes_valid(nodes@) ==> (r is Ok <==> maglev_fill(nodes@, config) is Some),
            nodes_valid(nodes@) && weights_fit_usize(nodes@) && is_prime_spec(config.table_size as nat) ==> r is Ok,
            nodes_valid(nodes@) && table_reachable(nodes@, config) ==> (r matches Ok(t) && {
                &&& maglev_fill(nodes@, config) == Some(t.spec_table())
                &&& t.spec_nodes() == nodes@
                &&& t.spec_config() == config
                &&& t.spec_hash_fn() == hash_fn
                &&& t.spec_vnode_to_node().len() == vnodes(nodes@).len()
                &&& forall|k: int| 0 <= k < vnodes(nodes@).len() ==> #[trigger] t.spec_vnode_to_node()[k] == vnodes(nodes@)[k].0
                &&& t.spec_table().len() == config.table_size
                &&& forall|s: int| 0 <= s < config.table_size ==> {
                    &&& #[trigger] t.spec_table()[s] < vnodes(nodes@).len()
                    &&& vnode_permutation(nodes@, config, t.spec_table()[s] as int).contains(s)
                }
            }),
    {
        if nodes.len() == 0 {
            return Err(ConsistentHashError::EmptyRing);
        }
        let mut z: usize = 0;
        while z < nodes.len()
            invariant
                z <= nodes@.len(),
                forall|i: int| 0 <= i < z ==> #[trigger] nodes@[i].weight > 0,
            decreases nodes@.len() - z,
        {
            if nodes[z].weight == 0 {
                return Err(ConsistentHashError::InvalidWeight(nodes[z].weight));
            }
            z = z + 1;
        }
        assert(nodes_valid(nodes@));
        let table_size = config.table_size;
        let n_nodes = nodes.len();
        let mut vnode_to_node: Vec<usize> = Vec::new();
        let mut vnode_idx: Vec<usize> = Vec::new();
        let mut j: usize = 0;
        while j < n_nodes
            invariant
                n_nodes == nodes@.len(),
                nodes_valid(nodes@),
                2 <= table_size <= usize::MAX / 2,
                table_size == config.table_size,
                j <= n_nodes,
                vnode_to_node@.len() == vnodes_upto(nodes@, j as nat).len(),
                vnode_idx@.len() == vnode_to_node@.len(),
                forall|k: int| 0 <= k < vnode_to_node@.len() ==> #[trigger] vnode_to_node@[k] == vnodes_upto(nodes@, j as nat)[k].0,
                forall|k: int| 0 <= k < vnode_idx@.len() ==> #[trigger] vnode_idx@[k] == vnodes_upto(nodes@, j as nat)[k].1,
                forall|k: int| 0 <= k < vnode_to_node@.len() ==> #[trigger] vnode_to_node@[k] < n_nodes,
            decreases n_nodes - j,
        {
            let count = nodes[j].weight as usize;
            let ghost before = vnodes_upto(nodes@, j as nat);
            let ghost after = vnodes_upto(nodes@, (j + 1) as nat);
            assert(after == before + Seq::new(count as nat, |v: int| (j as int, v as nat)));
            let mut v: usize = 0;
            while v < count
                invariant
                    j < n_nodes,
                    n_nodes == nodes@.len(),
                    v <= count,
                    vnode_to_node@.len() == before.len() + v,
                    vnode_idx@.len() == vnode_to_node@.len(),
                    after == before + Seq::new(count as nat, |v: int| (j as int, v as nat)),
                    forall|k: int| 0 <= k < vnode_to_node@.len() ==> #[trigger] vnode_to_node@[k] == after[k].0,
                    forall|k: int| 0 <= k < vnode_idx@.len() ==> #[trigger] vnode_idx@[k] == after[k].1,
                    forall|k: int| 0 <= k < vnode_to_node@.len() ==> #[trigger] vnode_to_node@[k] < n_nodes,
                decreases count - v,
            {
                vnode_to_node.push(j);
                vnode_idx.push(v);
                v = v + 1;
            }
            j = j + 1;
        }
        let n_vnodes = vnode_to_node.len();
        if n_vnodes == 0 {
            proof {
                assert(vnodes(nodes@).len() == 0);
                assert(!slot_reachable(nodes@, config, 0));
                let st0: FillState = (
                    Seq::new(config.table_size as nat, |i: int| usize::MAX),
                    Seq::new(0, |i: int| 0usize),
                    0,
                );
                assert(round_upto(nodes@, config, st0, 0) == st0);
            }
            return Err(ConsistentHashError::EmptyRing);
        }
        let mut permutations: Vec<Vec<usize>> = Vec::new();
        let mut k: usize = 0;
        while k < n_vnodes
            invariant
                nodes_valid(nodes@),
                n_vnodes == vnode_to_node@.len(),
                n_vnodes == vnode_idx@.len(),
                n_vnodes == vnodes(nodes@).len(),
                n_nodes == nodes@.len(),
                2 <= table_size <= usize::MAX / 2,
                table_size == config.table_size,
                forall|q: int| 0 <= q < n_vnodes ==> #[trigger] vnode_to_node@[q] == vnodes(nodes@)[q].0,
                forall|q: int| 0 <= q < n_vnodes ==> #[trigger] vnode_idx@[q] == vnodes(nodes@)[q].1,
                forall|q: int| 0 <= q < n_vnodes ==> #[trigger] vnode_to_node@[q] < n_nodes,
                k <= n_vnodes,
                permutations@.len() == k,
                forall|q: int| 0 <= q < k ==> (#[trigger] permutations@[q])@.len() == table_size,
                forall|q: int, i: int| 0 <= q < k && 0 <= i < table_size ==> (#[trigger] permutations@[q]@[i]) as int == vnode_permutation(nodes@, config, q)[i],
                forall|q: int, i: int| 0 <= q < k && 0 <= i < table_size ==> #[trigger] permutations@[q]@[i] < table_size,
            decreases n_vnodes - k,
        {
            let node = &nodes[vnode_to_node[k]];
            let mut key: Vec<u8> = Vec::new();
            push_all(&mut key, node.id.as_str().as_bytes());
            push_le8(&mut key, vnode_idx[k] as u64);
            assert(key@ == vnode_key(nodes@[vnodes(nodes@)[k as int].0].id@, vnodes(nodes@)[k as int].1));
            let perm = generate_permutation(key.as_slice(), table_size, config.seed);
            permutations.push(perm);
            k = k + 1;
        }
        let mut table: Vec<usize> = vec![usize::MAX; table_size];
        let mut next_idx: Vec<usize> = vec![0; n_vnodes];
        let mut filled: usize = 0;
        proof {
            assert(filled_slots(table@) =~= Set::empty());
            assert(table@ =~= Seq::new(config.table_size as nat, |i: int| usize::MAX));
            assert(next_idx@ =~= Seq::new(vnodes(nodes@).len(), |i: int| 0usize));
        }
        while filled < table_size
            invariant
                maglev_fill(nodes@, config) == populate(nodes@, config, (table@, next_idx@, filled as nat)),
                nodes_valid(nodes@),
                n_vnodes == vnode_to_node@.len(),
                n_nodes == nodes@.len(),
                forall|q: int| 0 <= q < n_vnodes ==> #[trigger] vnode_to_node@[q] == vnodes(nodes@)[q].0,
                forall|q: int| 0 <= q < n_vnodes ==> #[trigger] vnode_to_node@[q] < n_nodes,
                n_vnodes == permutations@.len(),
                n_vnodes == next_idx@.len(),
                n_vnodes == vnodes(nodes@).len(),
                n_vnodes > 0,
                table@.len() == table_size,
                table_size == config.table_size,
                forall|q: int| 0 <= q < n_vnodes ==> (#[trigger] permutations@[q])@.len() == table_size,
                forall|q: int, i: int| 0 <= q < n_vnodes && 0 <= i < table_size ==> (#[trigger] permutations@[q]@[i]) as int == vnode_permutation(nodes@, config, q)[i],
                forall|q: int, i: int| 0 <= q < n_vnodes && 0 <= i < table_size ==> #[trigger] permutations@[q]@[i] < table_size,
                forall|q: int| 0 <= q < n_vnodes ==> #[trigger] next_idx@[q] <= table_size,
                forall|s: int| 0 <= s < table_size && #[trigger] table@[s] != usize::MAX ==> table@[s] < n_vnodes && vnode_permutation(nodes@, config, table@[s] as int).contains(s),
                forall|q: int, s: int| 0 <= q < n_vnodes && 0 <= s < table_size && table@[s] == usize::MAX && #[trigger] vnode_permutation(nodes@, config, q).contains(s) ==> exists|i: int| next_idx@[q] <= i < table_size && #[trigger] vnode_permutation(nodes@, config, q)[i] == s,
                filled == filled_slots(table@).len(),
            decreases table_size - filled,
        {
            let round_start = filled;
            let ghost st0: FillState = (table@, next_idx@, filled as nat);
            let mut v: usize = 0;
            while v < n_vnodes
                invariant
                    (table@, next_idx@, filled as nat) == round_upto(nodes@, config, st0, v as nat),
                    st0.2 == round_start,
                    round_start < table_size,
                    n_vnodes == permutations@.len(),
                    n_vnodes == next_idx@.len(),
                    n_vnodes == vnodes(nodes@).len(),
                    table@.len() == table_size,
                    table_size == config.table_size,
                    v <= n_vnodes,
                    round_start <= filled <= table_size,
                    forall|q: int| 0 <= q < n_vnodes ==> (#[trigger] permutations@[q])@.len() == table_size,
                    forall|q: int, i: int| 0 <= q < n_vnodes && 0 <= i < table_size ==> (#[trigger] permutations@[q]@[i]) as int == vnode_permutation(nodes@, config, q)[i],
                    forall|q: int, i: int| 0 <= q < n_vnodes && 0 <= i < table_size ==> #[trigger] permutations@[q]@[i] < table_size,
                    forall|q: int| 0 <= q < n_vnodes ==> #[trigger] next_idx@[q] <= table_size,
                    forall|s: int| 0 <= s < table_size && #[trigger] table@[s] != usize::MAX ==> table@[s] < n_vnodes && vnode_permutation(nodes@, config, table@[s] as int).contains(s),
                    forall|q: int, s: int| 0 <= q < n_vnodes && 0 <= s < table_size && table@[s] == usize::MAX && #[trigger] vnode_permutation(nodes@, config, q).contains(s) ==> exists|i: int| next_idx@[q] <= i < table_size && #[trigger] vnode_permutation(nodes@, config, q)[i] == s,
                    filled == filled_slots(table@).len(),
                    filled == round_start ==> forall|q: int| 0 <= q < v ==> #[trigger] next_idx@[q] == table_size,
                ensures
                    filled > round_start || forall|q: int| 0 <= q < n_vnodes ==> #[trigger] next_idx@[q] == table_size,
                    (table@, next_idx@, filled as nat) == round_upto(nodes@, config, st0, n_vnodes as nat),
                decreases n_vnodes - v,
            {
                if filled >= table_size {
                    proof {
                        lemma_round_stable(nodes@, config, st0, v as nat, n_vnodes as nat);
                    }
                    break;
                }
                let perm = &permutations[v];
                let ghost pq = vnode_permutation(nodes@, config, v as int);
                let ghost next_before = next_idx@;
                let ghost filled_before = filled;
                let ghost table_before = table@;
                assert(next_idx@ =~= next_before.update(v as int, next_idx@[v as int]));
                while next_idx[v] < perm.len()
                    invariant_except_break
                        next_idx@[v as int] <= table_size,
                        table@ == table_before,
                        filled == filled_before,
                        next_before.len() == n_vnodes,
                        next_idx@ == next_before.update(v as int, next_idx@[v as int]),
                        first_free(pq, table_before, next_before[v as int] as nat) == first_free(pq, table_before, next_idx@[v as int] as nat),
                    invariant
                        v < n_vnodes,
                        n_vnodes == permutations@.len(),
                        n_vnodes == next_idx@.len(),
                        table@.len() == table_size,
                        table_size == config.table_size,
                        perm == permutations@[v as int],
                        perm@.len() == table_size,
                        pq == vnode_permutation(nodes@, config, v as int),
                        forall|i: int| 0 <= i < table_size ==> (#[trigger] perm@[i]) as int == pq[i],
                        forall|i: int| 0 <= i < table_size ==> #[trigger] perm@[i] < table_size,
                        forall|q: int| 0 <= q < n_vnodes ==> #[trigger] next_idx@[q] <= table_size,
                        forall|s: int| 0 <= s < table_size && #[trigger] table@[s] != usize::MAX ==> table@[s] < n_vnodes && vnode_permutation(nodes@, config, table@[s] as int).contains(s),
                        forall|q: int, s: int| 0 <= q < n_vnodes && 0 <= s < table_size && table@[s] == usize::MAX && #[trigger] vnode_permutation(nodes@, config, q).contains(s) ==> exists|i: int| next_idx@[q] <= i < table_size && #[trigger] vnode_permutation(nodes@, config, q)[i] == s,
                        filled == filled_slots(table@).len(),
                        round_start <= filled_before <= filled <= table_size,
                        forall|q: int| 0 <= q < n_vnodes && q != v ==> #[trigger] next_idx@[q] == next_before[q],
                    ensures
                        filled > round_start || next_idx@[v as int] == table_size,
                        (table@, next_idx@, filled as nat) == take_turn(nodes@, config, (table_before, next_before, filled_before as nat), v as int),
                    decreases table_size - next_idx@[v as int],
                {
                    let at = next_idx[v];
                    let slot = perm[at];
                    let ghost old_table = table@;
                    let ghost old_next = next_idx@;
                    assert(old_next == next_before.update(v as int, at));
                    next_idx.set(v, at + 1);
                    assert(next_idx@ == old_next.update(v as int, (at + 1) as usize));
                    assert(next_idx@ =~= next_before.update(v as int, (at + 1) as usize));
                    if table[slot] == usize::MAX {
                        table.set(slot, v);
                        proof {
                            lemma_filled_slots_finite(old_table);
                            assert(filled_slots(table@) =~= filled_slots(old_table).insert(slot as int));
                            assert(pq[at as int] == slot as int);
                            assert(pq.contains(slot as int));
                            lemma_filled_slots_finite(table@);
                        }
                        filled = filled + 1;
                        proof {
                            assert(first_free(pq, table_before, at as nat) == at);
                            assert(table@ =~= table_before.update(pq[at as int], v as usize));
                            assert forall|q: int, s: int| 0 <= q < n_vnodes && 0 <= s < table_size && table@[s] == usize::MAX && #[trigger] vnode_permutation(nodes@, config, q).contains(s) implies exists|i: int| next_idx@[q] <= i < table_size && #[trigger] vnode_permutation(nodes@, config, q)[i] == s by {
                                assert(old_table[s] == usize::MAX);
                                let i = choose|i: int| old_next[q] <= i < table_size && #[trigger] vnode_permutation(nodes@, config, q)[i] == s;
                                if q == v {
                                    assert(i != at);
                                }
                            }
                        }
                        break;
                    }
                    proof {
                        assert(table@ == old_table);
                        assert(first_free(pq, table_before, at as nat) == first_free(pq, table_before, (at + 1) as nat));
                        assert forall|q: int, s: int| 0 <= q < n_vnodes && 0 <= s < table_size && table@[s] == usize::MAX && #[trigger] vnode_permutation(nodes@, config, q).contains(s) implies exists|i: int| next_idx@[q] <= i < table_size && #[trigger] vnode_permutation(nodes@, config, q)[i] == s by {
                            let i = choose|i: int| old_next[q] <= i < table_size && #[trigger] vnode_permutation(nodes@, config, q)[i] == s;
                            if q == v {
                                assert(pq[at as int] == slot as int);
                                assert(i != at);
                            }
                        }
                    }
                }
                proof {
                    if next_idx@[v as int] >= table_size && filled == filled_before {
                        assert(first_free(pq, table_before, next_idx@[v as int] as nat) == pq.len());
                        assert(next_idx@ =~= next_before.update(v as int, pq.len() as usize));
                    }
                }
                v = v + 1;
            }
            if filled == round_start {
                proof {
                    lemma_filled_slots_finite(table@);
                    lemma_some_slot_empty(table@);
                    let s = choose|s: int| 0 <= s < table@.len() && table@[s] == usize::MAX;
                    assert forall|q: int| 0 <= q < vnodes(nodes@).len() implies !#[trigger] vnode_permutation(nodes@, config, q).contains(s) by {
                        if vnode_permutation(nodes@, config, q).contains(s) {
                            assert(next_idx@[q] == table_size);
                        }
                    }
                    assert(!slot_reachable(nodes@, config, s));
                    if weights_fit_usize(nodes@) && is_prime_spec(config.table_size as nat) {
                        lemma_valid_nodes_have_vnodes(nodes@);
                        lemma_prime_table_fills(nodes@, config);
                        assert(slot_reachable(nodes@, config, s));
                    }
                }
                return Err(ConsistentHashError::EmptyRing);
            }
        }
        proof {
            lemma_filled_slots_finite(table@);
            lemma_no_slot_empty(table@);
            assert forall|s: int| 0 <= s < config.table_size implies #[trigger] slot_reachable(nodes@, config, s) by {
                assert(table@[s] != usize::MAX);
                assert(vnode_permutation(nodes@, config, table@[s] as int).contains(s));
            }
        }
        Ok(MaglevTable { table, vnode_to_node, nodes, config, hash_fn })
    }
}


// ---------------------------------------------------------------------------
// Lookups
// ---------------------------------------------------------------------------

/// Node indices met walking `t` slots on from slot `start` (wrapping), each
/// kept once, in the order met.
pub open spec fn slot_walk(owners: Seq<int>, start: int, t: nat) -> Seq<int>
    decreases t,
{
    if t == 0 {
        Seq::empty()
    } else {
        let prev = slot_walk(owners, start, (t - 1) as nat);
        let idx = owners[(start + t - 1) % (owners.len() as int)];
        if prev.contains(idx) {
            prev
        } else {
            prev.push(idx)
        }
    }
}

/// The node indices `get_n` returns: the first distinct nodes met walking
/// the table once from the key's slot, at most `n` of them and at most as
/// many as there are nodes.
pub open spec fn maglev_replicas(owners: Seq<int>, node_count: nat, start: int, n: nat) -> Seq<int> {
    let w = slot_walk(owners, start, owners.len());
    w.take(crate::ring::min(crate::ring::min(n as int, node_count as int), w.len() as int))
}

proof fn lemma_slot_walk_prefix(owners: Seq<int>, start: int, a: nat, b: nat)
    requires
        a <= b,
    ensures
        slot_walk(owners, start, a).len() <= slot_walk(owners, start, b).len(),
        slot_walk(owners, start, b).take(slot_walk(owners, start, a).len() as int)
            == slot_walk(owners, start, a),
    decreases b,
{
    if a < b {
        lemma_slot_walk_prefix(owners, start, a, (b - 1) as nat);
        let wa = slot_walk(owners, start, a);
        let wb1 = slot_walk(owners, start, (b - 1) as nat);
        let wb = slot_walk(owners, start, b);
        assert(wb.take(wa.len() as int) =~= wb1.take(wa.len() as int));
    } else {
        assert(slot_walk(owners, start, b).take(slot_walk(owners, start, a).len() as int)
            =~= slot_walk(owners, start, a));
    }
}

proof fn lemma_slot_walk_distinct(owners: Seq<int>, start: int, t: nat)
    ensures
        slot_walk(owners, start, t).no_duplicates(),
    decreases t,
{
    if t > 0 {
        lemma_slot_walk_distinct(owners, start, (t - 1) as nat);
    }
}

/// Slots among the first `t` whose owner is node `i`.
pub open spec fn slots_of_node(owners: Seq<int>, i: int, t: nat) -> nat
    decreases t,
{
    if t == 0 {
        0
    } else {
        slots_of_node(owners, i, (t - 1) as nat) + if owners[t - 1] == i {
            1nat
        } else {
            0nat
        }
    }
}

proof fn lemma_slots_of_node_bound(owners: Seq<int>, i: int, t: nat)
    ensures
        slots_of_node(owners, i, t) <= t,
    decreases t,
{
    if t > 0 {
        lemma_slots_of_node_bound(owners, i, (t - 1) as nat);
    }
}

impl<H: HashFunction> MaglevTable<H> {
    /// The node index of every slot.
    pub open spec fn slot_owners(&self) -> Seq<int> {
        Seq::new(self.spec_table().len(), |s: int| self.node_at(s))
    }

    /// The node owning hash `h`.
    pub open spec fn owner_of(&self, h: u32) -> Node {
        self.spec_nodes()[self.node_at(self.slot_of(h))]
    }

    proof fn lemma_owners_in_range(&self)
        requires
            self.wf(),
        ensures
            self.spec_table().len() >= 1,
            self.spec_nodes().len() >= 1,
            forall|s: int| 0 <= s < self.spec_table().len() ==> 0 <= #[trigger] self.node_at(s) < self.spec_nodes().len(),
    {
        assert(0 <= self.node_at(0) < self.spec_nodes().len());
    }

    /// The node owning `key`: hash the key, take its slot, name the slot's
    /// node.
    pub fn get(&self, key: &[u8]) -> (r: crate::Result<&Node>)
        ensures
            r matches Ok(node) && *node == self.owner_of(self.spec_hash_fn().spec_hash(key@)),
            0 <= self.node_at(self.slot_of(self.spec_hash_fn().spec_hash(key@))) < self.spec_nodes().len(),
    {
        let h = self.hash_fn.hash(key);
        self.get_with_hash(h)
    }

    /// The node owning hash `hash`.
    pub fn get_with_hash(&self, hash: u32) -> (r: crate::Result<&Node>)
        ensures
            r matches Ok(node) && *node == self.owner_of(hash),
            0 <= self.node_at(self.slot_of(hash)) < self.spec_nodes().len(),
    {
        proof {
            use_type_invariant(self);
            self.lemma_owners_in_range();
        }
        let idx = (hash as usize) % self.table.len();
        let vnode_idx = self.table[idx];
        let node_idx = self.vnode_to_node[vnode_idx];
        Ok(&self.nodes[node_idx])
    }

    /// The owner of `key` and the next distinct nodes met walking the table
    /// on from its slot: at most `n`, and no more than one walk round the
    /// table finds.
    pub fn get_n(&self, key: &[u8], n: usize) -> (r: crate::Result<Vec<&Node>>)
        ensures
            r matches Ok(v) && {
                let idx = maglev_replicas(
                    self.slot_owners(),
                    self.spec_nodes().len(),
                    self.slot_of(self.spec_hash_fn().spec_hash(key@)),
                    n as nat,
                );
                &&& v@.len() == idx.len()
                &&& forall|k: int| 0 <= k < v@.len() ==> *v@[k] == self.spec_nodes()[#[trigger] idx[k]]
            },
    {
        proof {
            use_type_invariant(self);
            self.lemma_owners_in_range();
        }
        let node_count = self.nodes.len();
        let table_len = self.table.len();
        let hash = self.hash_fn.hash(key);
        let start = (hash as usize) % table_len;
        let ghost owners = self.slot_owners();
        let mut result: Vec<&Node> = Vec::new();
        let mut seen: Vec<bool> = vec![false; node_count];
        let mut idx: usize = start;
        let mut probe: usize = 0;
        proof {
            vstd::arithmetic::div_mod::lemma_small_mod(start as nat, table_len as nat);
        }
        while result.len() < n && result.len() < node_count && probe < table_len
            invariant
                table_len == owners.len(),
                owners == self.slot_owners(),
                table_len == self.table@.len(),
                node_count == self.nodes@.len(),
                forall|s: int| 0 <= s < table_len ==> 0 <= #[trigger] self.node_at(s) < node_count,
                forall|s: int| 0 <= s < self.table@.len() ==> #[trigger] self.table@[s] < self.vnode_to_node@.len(),
                forall|q: int| 0 <= q < self.vnode_to_node@.len() ==> #[trigger] self.vnode_to_node@[q] < self.nodes@.len(),
                probe <= table_len,
                start < table_len,
                idx == (start + probe) % (table_len as int),
                seen@.len() == node_count,
                result@.len() <= n,
                result@.len() <= node_count,
                result@.len() == slot_walk(owners, start as int, probe as nat).len(),
                forall|k: int|
                    0 <= k < result@.len() ==> *result@[k] == self.nodes@[#[trigger] slot_walk(
                        owners,
                        start as int,
                        probe as nat,
                    )[k]],
                forall|x: int|
                    0 <= x < node_count ==> (seen@[x] <==> #[trigger] slot_walk(
                        owners,
                        start as int,
                        probe as nat,
                    ).contains(x)),
                forall|k: int|
                    0 <= k < slot_walk(owners, start as int, probe as nat).len() ==> 0 <= #[trigger] slot_walk(
                        owners,
                        start as int,
                        probe as nat,
                    )[k] < node_count,
            decreases table_len - probe,
        {
            let ghost w0 = slot_walk(owners, start as int, probe as nat);
            proof {
                vstd::arithmetic::div_mod::lemma_mod_bound((start + probe) as int, table_len as int);
            }
            let vnode_idx = self.table[idx];
            let node_idx = self.vnode_to_node[vnode_idx];
            assert(idx == (start + (probe + 1) - 1) % (table_len as int));
            assert(owners[idx as int] == node_idx as int);
            if !seen[node_idx] {
                seen.set(node_idx, true);
                result.push(&self.nodes[node_idx]);
            }
            let ghost w1 = slot_walk(owners, start as int, (probe + 1) as nat);
            assert(w1 == if w0.contains(node_idx as int) { w0 } else { w0.push(node_idx as int) });
            proof {
                if !w0.contains(node_idx as int) {
                    assert forall|x: int| 0 <= x < node_count implies (seen@[x] <==> #[trigger] w1.contains(x)) by {
                        if x == node_idx {
                            assert(w1[w1.len() - 1] == x);
                        } else {
                            if w1.contains(x) {
                                let k = choose|k: int| 0 <= k < w1.len() && w1[k] == x;
                                assert(w0[k] == x);
                            }
                            if w0.contains(x) {
                                let k = choose|k: int| 0 <= k < w0.len() && w0[k] == x;
                                assert(w1[k] == x);
                            }
                        }
                    }
                }
            }
            idx = (idx + 1) % table_len;
            probe = probe + 1;
            proof {
                vstd::arithmetic::div_mod::lemma_add_mod_noop_right(1, (start + probe - 1) as int, table_len as int);
            }
        }
        proof {
            let ws = slot_walk(owners, start as int, probe as nat);
            lemma_slot_walk_prefix(owners, start as int, probe as nat, table_len as nat);
            assert(start as int == self.slot_of(hash));
            let target = crate::ring::min(n as int, node_count as int);
            if result@.len() < target {
                assert(probe == table_len);
            } else {
                assert(result@.len() == target);
            }
            let rep = maglev_replicas(owners, node_count as nat, start as int, n as nat);
            assert(rep =~= ws);
        }
        Ok(result)
    }

    pub fn nodes(&self) -> (r: &[Node])
        ensures
            r@ == self.spec_nodes(),
    {
        self.nodes.as_slice()
    }

    pub fn config(&self) -> (r: &MaglevConfig)
        ensures
            *r == self.spec_config(),
    {
        &self.config
    }

    pub fn table_size(&self) -> (r: usize)
        ensures
            r == self.spec_table().len(),
    {
        self.table.len()
    }

    pub fn vnode_count(&self) -> (r: usize)
        ensures
            r == self.spec_vnode_to_node().len(),
    {
        self.vnode_to_node.len()
    }

    /// Each node's id with the number of table slots it owns, in node order.
    pub fn load_distribution(&self) -> (d: Vec<(String, usize)>)
        ensures
            d@.len() == self.spec_nodes().len(),
            forall|i: int| 0 <= i < d@.len() ==> {
                &&& (#[trigger] d@[i]).0@ == self.spec_nodes()[i].id@
                &&& d@[i].1 == slots_of_node(self.slot_owners(), i, self.spec_table().len())
            },
    {
        proof {
            use_type_invariant(self);
            self.lemma_owners_in_range();
        }
        let node_count = self.nodes.len();
        let table_len = self.table.len();
        let ghost owners = self.slot_owners();
        let mut counts: Vec<usize> = vec![0; node_count];
        let mut t: usize = 0;
        while t < table_len
            invariant
                table_len == owners.len(),
                owners == self.slot_owners(),
                table_len == self.table@.len(),
                node_count == self.nodes@.len(),
                forall|s: int| 0 <= s < table_len ==> 0 <= #[trigger] self.node_at(s) < node_count,
                forall|s: int| 0 <= s < self.table@.len() ==> #[trigger] self.table@[s] < self.vnode_to_node@.len(),
                t <= table_len,
                counts@.len() == node_count,
                forall|i: int| 0 <= i < node_count ==> #[trigger] counts@[i] == slots_of_node(owners, i, t as nat),
            decreases table_len - t,
        {
            let node_idx = self.vnode_to_node[self.table[t]];
            assert(owners[t as int] == node_idx as int);
            proof {
                lemma_slots_of_node_bound(owners, node_idx as int, t as nat);
            }
            let c = counts[node_idx];
            counts.set(node_idx, c + 1);
            t = t + 1;
            assert forall|i: int| 0 <= i < node_count implies #[trigger] counts@[i] == slots_of_node(owners, i, t as nat) by {
                assert(slots_of_node(owners, i, t as nat) == slots_of_node(owners, i, (t - 1) as nat) + if owners[t - 1] == i { 1nat } else { 0nat });
            }
        }
        let mut d: Vec<(String, usize)> = Vec::new();
        let mut i: usize = 0;
        while i < node_count
            invariant
                node_count == self.nodes@.len(),
                counts@.len() == node_count,
                forall|j: int| 0 <= j < node_count ==> #[trigger] counts@[j] == slots_of_node(owners, j, table_len as nat),
                owners == self.slot_owners(),
                table_len == self.spec_table().len(),
                i <= node_count,
                d@.len() == i,
                forall|j: int| 0 <= j < i ==> {
                    &&& (#[trigger] d@[j]).0@ == self.spec_nodes()[j].id@
                    &&& d@[j].1 == slots_of_node(owners, j, table_len as nat)
                },
            decreases node_count - i,
        {
            d.push((self.nodes[i].id.clone(), counts[i]));
            i = i + 1;
        }
        d
    }
}


impl<H: HashFunction> MaglevTable<H> {
    /// Slots that node `i` owns.
    pub open spec fn load_of(&self, i: int) -> nat {
        slots_of_node(self.slot_owners(), i, self.spec_table().len())
    }

    pub fn builder(nodes: Vec<Node>) -> (b: MaglevTableBuilder<H>)
        ensures
            b.spec_nodes() == nodes@,
            b.spec_config().table_size == 65537,
            b.spec_config().seed == 0x9e3779b97f4a7c15,
            b.spec_hash_fn() is None,
    {
        MaglevTableBuilder::new(nodes)
    }

    /// Counts of the table: its size, nodes and virtual nodes, the least and
    /// the most slots a node owns, and the bytes its two index vectors take.
    pub fn stats(&self) -> (st: MaglevStats)
        requires
            (self.spec_table().len() + self.spec_vnode_to_node().len()) * vstd::layout::size_of::<
                usize,
            >() <= usize::MAX,
        ensures
            st.table_size == self.spec_table().len(),
            st.node_count == self.spec_nodes().len(),
            st.vnode_count == self.spec_vnode_to_node().len(),
            forall|i: int| 0 <= i < self.spec_nodes().len() ==> st.min_load <= #[trigger] self.load_of(i),
            exists|i: int| 0 <= i < self.spec_nodes().len() && st.min_load == #[trigger] self.load_of(i),
            forall|i: int| 0 <= i < self.spec_nodes().len() ==> st.max_load >= #[trigger] self.load_of(i),
            exists|i: int| 0 <= i < self.spec_nodes().len() && st.max_load == #[trigger] self.load_of(i),
            st.memory_bytes == (self.spec_table().len() + self.spec_vnode_to_node().len())
                * vstd::layout::size_of::<usize>(),
    {
        proof {
            use_type_invariant(self);
            self.lemma_owners_in_range();
        }
        let dist = self.load_distribution();
        let mut min_load: usize = usize::MAX;
        let mut max_load: usize = 0;
        let mut i: usize = 0;
        while i < dist.len()
            invariant
                dist@.len() == self.spec_nodes().len(),
                dist@.len() >= 1,
                forall|j: int| 0 <= j < dist@.len() ==> (#[trigger] dist@[j]).1 == self.load_of(j),
                i <= dist@.len(),
                forall|j: int| 0 <= j < i ==> min_load <= #[trigger] self.load_of(j),
                forall|j: int| 0 <= j < i ==> max_load >= #[trigger] self.load_of(j),
                i == 0 ==> min_load == usize::MAX && max_load == 0,
                i > 0 ==> exists|j: int| 0 <= j < i && min_load == #[trigger] self.load_of(j),
                i > 0 ==> exists|j: int| 0 <= j < i && max_load == #[trigger] self.load_of(j),
            decreases dist@.len() - i,
        {
            let count = dist[i].1;
            assert(count == self.load_of(i as int));
            if count < min_load || i == 0 {
                min_load = count;
            }
            if count > max_load || i == 0 {
                max_load = count;
            }
            i = i + 1;
        }
        let word = core::mem::size_of::<usize>();
        let table_len = self.table.len();
        let vnodes = self.vnode_to_node.len();
        assert(table_len * word + vnodes * word == (table_len + vnodes) * word) by (nonlinear_arith);
        assert(table_len * word <= (table_len + vnodes) * word) by (nonlinear_arith);
        MaglevStats {
            table_size: table_len,
            node_count: self.nodes.len(),
            vnode_count: vnodes,
            min_load,
            max_load,
            memory_bytes: table_len * word + vnodes * word,
        }
    }
}

impl<H: HashFunction + Clone> Clone for MaglevTable<H> {
    fn clone(&self) -> (r: Self)
        ensures
            r.spec_table() == self.spec_table(),
            r.spec_vnode_to_node() == self.spec_vnode_to_node(),
            crate::ring::same_members(r.spec_nodes(), self.spec_nodes()),
            r.spec_config() == self.spec_config(),
    {
        proof {
            use_type_invariant(self);
        }
        let table = self.table.clone();
        let vnode_to_node = self.vnode_to_node.clone();
        let nodes = self.nodes.clone();
        assert(table@ =~= self.table@);
        assert(vnode_to_node@ =~= self.vnode_to_node@);
        assert forall|i: int| 0 <= i < nodes@.len() implies (#[trigger] nodes@[i]).id@ == self.nodes@[i].id@
            && nodes@[i].weight == self.nodes@[i].weight by {
            assert(cloned::<Node>(self.nodes@[i], nodes@[i]));
        }
        MaglevTable {
            table,
            vnode_to_node,
            nodes,
            config: MaglevConfig { table_size: self.config.table_size, seed: self.config.seed },
            hash_fn: self.hash_fn.clone(),
        }
    }
}

/// The counts of a Maglev table.
#[derive(Debug, Clone, Copy)]
pub struct MaglevStats {
    pub table_size: usize,
    pub node_count: usize,
    pub vnode_count: usize,
    pub min_load: usize,
    pub max_load: usize,
    pub memory_bytes: usize,
}

/// Collects nodes and settings, then builds a Maglev table.
pub struct MaglevTableBuilder<H: HashFunction = DefaultHash> {
    nodes: Vec<Node>,
    config: MaglevConfig,
    hash_fn: Option<H>,
}

impl<H: HashFunction> MaglevTableBuilder<H> {
    pub closed spec fn spec_nodes(&self) -> Seq<Node> {
        self.nodes@
    }

    pub closed spec fn spec_config(&self) -> MaglevConfig {
        self.config
    }

    pub closed spec fn spec_hash_fn(&self) -> Option<H> {
        self.hash_fn
    }

    pub fn new(nodes: Vec<Node>) -> (b: Self)
        ensures
            b.spec_nodes() == nodes@,
            b.spec_config().table_size == 65537,
            b.spec_config().seed == 0x9e3779b97f4a7c15,
            b.spec_hash_fn() is None,
    {
        MaglevTableBuilder { nodes, config: MaglevConfig::default(), hash_fn: None }
    }

    /// Sets the table size to the least prime at or above `size`, so that
    /// every permutation visits every slot.
    pub fn table_size(self, size: usize) -> (b: Self)
        requires
            prime_at_or_above(size as nat),
        ensures
            b.spec_nodes() == self.spec_nodes(),
            is_next_prime(size as nat, b.spec_config().table_size as nat),
            b.spec_config().seed == self.spec_config().seed,
            b.spec_hash_fn() == self.spec_hash_fn(),
    {
        let mut config = self.config;
        config.table_size = next_prime(size);
        MaglevTableBuilder { nodes: self.nodes, config, hash_fn: self.hash_fn }
    }

    pub fn seed(self, seed: u64) -> (b: Self)
        ensures
            b.spec_nodes() == self.spec_nodes(),
            b.spec_config() == (MaglevConfig { seed, ..self.spec_config() }),
            b.spec_hash_fn() == self.spec_hash_fn(),
    {
        let mut config = self.config;
        config.seed = seed;
        MaglevTableBuilder { nodes: self.nodes, config, hash_fn: self.hash_fn }
    }

    pub fn hash_function(self, hash_fn: H) -> (b: Self)
        ensures
            b.spec_nodes() == self.spec_nodes(),
            b.spec_config() == self.spec_config(),
            b.spec_hash_fn() == Some(hash_fn),
    {
        MaglevTableBuilder { nodes: self.nodes, config: self.config, hash_fn: Some(hash_fn) }
    }

    /// Builds the table with the chosen hash function, or the default one.
    pub fn build(self) -> (r: crate::Result<MaglevTable<H>>) where H: Default
        requires
            nodes_valid(self.spec_nodes()) ==> 2 <= self.spec_config().table_size <= usize::MAX / 2,
        ensures
            self.spec_nodes().len() == 0 ==> r matches Err(ConsistentHashError::EmptyRing),
            self.spec_nodes().len() > 0 && !nodes_valid(self.spec_nodes()) ==> r matches Err(
                ConsistentHashError::InvalidWeight(0),
            ),
            nodes_valid(self.spec_nodes()) && !table_reachable(self.spec_nodes(), self.spec_config())
                ==> r matches Err(ConsistentHashError::EmptyRing),
            nodes_valid(self.spec_nodes()) ==> (r is Ok <==> maglev_fill(self.spec_nodes(), self.spec_config()) is Some),
            nodes_valid(self.spec_nodes()) && weights_fit_usize(self.spec_nodes()) && is_prime_spec(
                self.spec_config().table_size as nat,
            ) ==> r is Ok,
            nodes_valid(self.spec_nodes()) && table_reachable(self.spec_nodes(), self.spec_config())
                ==> (r matches Ok(t) && {
                &&& maglev_fill(self.spec_nodes(), self.spec_config()) == Some(t.spec_table())
                &&& t.spec_nodes() == self.spec_nodes()
                &&& t.spec_config() == self.spec_config()
                &&& (self.spec_hash_fn() matches Some(h) ==> t.spec_hash_fn() == h)
                &&& t.spec_vnode_to_node().len() == vnodes(self.spec_nodes()).len()
                &&& forall|k: int| 0 <= k < vnodes(self.spec_nodes()).len() ==> #[trigger] t.spec_vnode_to_node()[k] == vnodes(self.spec_nodes())[k].0
                &&& t.spec_table().len() == self.spec_config().table_size
                &&& forall|s: int| 0 <= s < self.spec_config().table_size ==> {
                    &&& #[trigger] t.spec_table()[s] < vnodes(self.spec_nodes()).len()
                    &&& vnode_permutation(self.spec_nodes(), self.spec_config(), t.spec_table()[s] as int).contains(s)
                }
            }),
    {
        let hash_fn = match self.hash_fn {
            Some(h) => h,
            None => H::default(),
        };
        MaglevTable::new(self.nodes, self.config, hash_fn)
    }
}

impl<H: HashFunction> Default for MaglevTableBuilder<H> {
    fn default() -> (b: Self)
        ensures
            b.spec_nodes().len() == 0,
            b.spec_hash_fn() is None,
    {
        Self::new(Vec::new())
    }
}

// ---------------------------------------------------------------------------
// Laws
// ---------------------------------------------------------------------------

/// `get_n` names each node at most once, never more than asked for or than
/// there are nodes, and its first node is the one `get` names for the key.
pub proof fn lemma_maglev_replicas_distinct_and_led_by_owner<H: HashFunction>(
    t: MaglevTable<H>,
    h: u32,
    n: nat,
)
    ensures
        maglev_replicas(t.slot_owners(), t.spec_nodes().len(), t.slot_of(h), n).no_duplicates(),
        maglev_replicas(t.slot_owners(), t.spec_nodes().len(), t.slot_of(h), n).len() <= n,
        maglev_replicas(t.slot_owners(), t.spec_nodes().len(), t.slot_of(h), n).len()
            <= t.spec_nodes().len(),
        n >= 1 && t.spec_table().len() >= 1 && t.spec_nodes().len() >= 1 ==> t.spec_nodes()[maglev_replicas(
            t.slot_owners(),
            t.spec_nodes().len(),
            t.slot_of(h),
            n,
        )[0]] == t.owner_of(h),
{
    let owners = t.slot_owners();
    let start = t.slot_of(h);
    let len = owners.len();
    let w = slot_walk(owners, start, len);
    lemma_slot_walk_distinct(owners, start, len);
    let r = maglev_replicas(owners, t.spec_nodes().len(), start, n);
    assert forall|i: int, j: int| 0 <= i < r.len() && 0 <= j < r.len() && i != j implies r[i] != r[j] by {
        assert(r[i] == w[i] && r[j] == w[j]);
    }
    if n >= 1 && len >= 1 && t.spec_nodes().len() >= 1 {
        lemma_slot_walk_prefix(owners, start, 1, len);
        let first = owners[(start + 1 - 1) % (len as int)];
        assert(slot_walk(owners, start, 0) =~= Seq::<int>::empty());
        assert(slot_walk(owners, start, 1) =~= Seq::<int>::empty().push(first));
        vstd::arithmetic::div_mod::lemma_mod_bound((h as usize) as int, len as int);
        vstd::arithmetic::div_mod::lemma_small_mod(start as nat, len);
        assert(r[0] == w[0]);
    }
}


/// Slots among the first `t` owned by nodes `0..k`.
pub open spec fn slots_of_nodes(owners: Seq<int>, k: nat, t: nat) -> nat
    decreases k,
{
    if k == 0 {
        0
    } else {
        slots_of_nodes(owners, (k - 1) as nat, t) + slots_of_node(owners, k - 1, t)
    }
}

proof fn lemma_slots_of_nodes_step(owners: Seq<int>, k: nat, t: nat)
    requires
        t < owners.len(),
    ensures
        slots_of_nodes(owners, k, t + 1) == slots_of_nodes(owners, k, t) + if 0 <= owners[t as int] < k {
            1nat
        } else {
            0nat
        },
    decreases k,
{
    if k > 0 {
        lemma_slots_of_nodes_step(owners, (k - 1) as nat, t);
    }
}

proof fn lemma_slots_of_nodes_total(owners: Seq<int>, k: nat, t: nat)
    requires
        t <= owners.len(),
        forall|s: int| 0 <= s < owners.len() ==> 0 <= #[trigger] owners[s] < k,
    ensures
        slots_of_nodes(owners, k, t) == t,
    decreases t,
{
    if t > 0 {
        lemma_slots_of_nodes_total(owners, k, (t - 1) as nat);
        lemma_slots_of_nodes_step(owners, k, (t - 1) as nat);
    } else {
        lemma_slots_of_nodes_zero(owners, k);
    }
}

proof fn lemma_slots_of_nodes_zero(owners: Seq<int>, k: nat)
    ensures
        slots_of_nodes(owners, k, 0) == 0,
    decreases k,
{
    if k > 0 {
        lemma_slots_of_nodes_zero(owners, (k - 1) as nat);
    }
}

impl<H: HashFunction> MaglevTable<H> {
    /// Every slot of the table belongs to exactly one node: the nodes' loads
    /// add up to the table size.
    pub proof fn lemma_loads_cover_table(&self)
        requires
            self.wf(),
        ensures
            slots_of_nodes(self.slot_owners(), self.spec_nodes().len(), self.spec_table().len())
                == self.spec_table().len(),
    {
        self.lemma_owners_in_range();
        lemma_slots_of_nodes_total(self.slot_owners(), self.spec_nodes().len(), self.spec_table().len());
    }
}


// ---------------------------------------------------------------------------
// Prime table sizes
// ---------------------------------------------------------------------------

/// A prime that divides a product, and not its first factor, divides the
/// second.
proof fn lemma_prime_divides_product(p: nat, a: nat, b: nat)
    requires
        is_prime_spec(p),
        0 < a < p,
        ((a * b) as int) % (p as int) == 0,
    ensures
        b % p == 0,
    decreases a,
{
    if a == 1 {
        assert(a * b == b);
    } else {
        let q = (p / a) as int;
        let r = (p % a) as int;
        vstd::arithmetic::div_mod::lemma_fundamental_div_mod(p as int, a as int);
        assert(p % a != 0);
        let k = ((a * b) as int) / (p as int);
        vstd::arithmetic::div_mod::lemma_fundamental_div_mod((a * b) as int, p as int);
        assert(r * b == (b - q * k) * p) by (nonlinear_arith)
            requires
                p == a * q + r,
                a * b == p * k + 0,
        ;
        assert(b - q * k >= 0) by (nonlinear_arith)
            requires
                r * b == (b - q * k) * p,
                r > 0,
                b >= 0,
                p > 0,
        ;
        vstd::arithmetic::div_mod::lemma_mod_multiples_basic(b - q * k, p as int);
        assert(0 < r < a) by {
            vstd::arithmetic::div_mod::lemma_mod_bound(p as int, a as int);
        }
        lemma_prime_divides_product(p, r as nat, b);
    }
}

/// On a prime table, the positions of a permutation name distinct slots.
proof fn lemma_permutation_distinct(key: Seq<u8>, t: nat, seed: u64, i: int, j: int)
    requires
        is_prime_spec(t),
        0 <= j < i < t,
    ensures
        permutation(key, t, seed)[i] != permutation(key, t, seed)[j],
{
    let off = perm_offset(key, t, seed) as int;
    let skip = perm_skip(key, t, seed) as int;
    let m = t as int;
    assert(1 <= skip < m) by {
        vstd::arithmetic::div_mod::lemma_mod_bound(
            ((outside::xxh3_seeded_digest(key, seed.wrapping_add(1)) as usize) as nat) as int,
            (m - 1),
        );
    }
    let x = off + i * skip;
    let y = off + j * skip;
    if x % m == y % m {
        vstd::arithmetic::div_mod::lemma_fundamental_div_mod(x, m);
        vstd::arithmetic::div_mod::lemma_fundamental_div_mod(y, m);
        let d = (i - j) as nat;
        assert((d * skip) == m * (x / m - y / m)) by (nonlinear_arith)
            requires
                x == m * (x / m) + x % m,
                y == m * (y / m) + y % m,
                x % m == y % m,
                x == off + i * skip,
                y == off + j * skip,
                d == i - j,
        ;
        assert((d * skip) as int % m == 0) by {
            vstd::arithmetic::div_mod::lemma_mod_multiples_basic(x / m - y / m, m);
            assert(m * (x / m - y / m) == (x / m - y / m) * m) by (nonlinear_arith);
        }
        lemma_prime_divides_product(t, d, skip as nat);
        vstd::arithmetic::div_mod::lemma_small_mod(skip as nat, t);
    }
}

/// On a prime table, a permutation passes every slot.
proof fn lemma_permutation_covers(key: Seq<u8>, t: nat, seed: u64, s: int)
    requires
        is_prime_spec(t),
        0 <= s < t,
    ensures
        permutation(key, t, seed).contains(s),
{
    let perm = permutation(key, t, seed);
    assert(perm.no_duplicates()) by {
        assert forall|i: int, j: int| 0 <= i < perm.len() && 0 <= j < perm.len() && i != j implies perm[i] != perm[j] by {
            if i < j {
                lemma_permutation_distinct(key, t, seed, j, i);
            } else {
                lemma_permutation_distinct(key, t, seed, i, j);
            }
        }
    }
    perm.unique_seq_to_set();
    let range = set_int_range(0, t as int);
    lemma_int_range(0, t as int);
    assert(perm.to_set().subset_of(range)) by {
        assert forall|x: int| perm.to_set().contains(x) implies range.contains(x) by {
            let i = choose|i: int| 0 <= i < perm.len() && perm[i] == x;
            vstd::arithmetic::div_mod::lemma_mod_bound(
                perm_offset(key, t, seed) + i * perm_skip(key, t, seed),
                t as int,
            );
        }
    }
    if !perm.contains(s) {
        assert(perm.to_set().subset_of(range.remove(s)));
        lemma_len_subset(perm.to_set(), range.remove(s));
    }
}

/// A table whose size is prime can always be filled: every slot lies on
/// every virtual node's permutation. (`MaglevConfig::new` and the builder's
/// `table_size` round the size up to a prime.)
pub proof fn lemma_prime_table_fills(nodes: Seq<Node>, config: MaglevConfig)
    requires
        is_prime_spec(config.table_size as nat),
        vnodes(nodes).len() > 0,
    ensures
        table_reachable(nodes, config),
{
    assert forall|s: int| 0 <= s < config.table_size implies #[trigger] slot_reachable(nodes, config, s) by {
        let vn = vnodes(nodes)[0];
        lemma_permutation_covers(vnode_key(nodes[vn.0].id@, vn.1), config.table_size as nat, config.seed, s);
        assert(vnode_permutation(nodes, config, 0).contains(s));
    }
}

} // verus!

//! Consistent hashing with weighted virtual nodes, bounded loads, Maglev
//! tables, jump hashing and live migration between ring configurations.

use vstd::prelude::*;

pub mod bytes;
pub mod outside;
pub mod jump;
pub mod ring;
pub mod maglev;
pub mod metrics;
pub mod strmap;
pub mod bounded;
pub mod migration;
pub mod health;

pub use jump::{jump_consistent_hash, jump_consistent_hash_u64, JumpHash};
pub use maglev::{MaglevConfig, MaglevStats, MaglevTable, MaglevTableBuilder};
pub use migration::{DualRing, MigrationConfig, MigrationStrategy};
pub use ring::{CompactRing, Node, RingBuilder, RingConfig, RingStats, HashFunctionType, optimal_hashes_for_cv_ppm};
pub use bounded::{BoundedConfig, BoundedRing, BoundedStats, LoadTracker, NodeLoadStat};
pub use health::{HealthAwareStats, HealthConfig, HealthStatus, NodeHealth};
pub use metrics::{AtomicMetrics, NoOpMetrics, RingMetrics};




verus! {

/// Errors reported by the rings and tables of this crate.
#[derive(Debug)]
pub enum ConsistentHashError {
    EmptyRing,
    InvalidWeight(u64),
    NodeNotFound(String),
    MigrationInProgress(String),
    SerializationError(String),
    DeserializationError(String),
    VersionMismatch { expected: u32, got: u32 },
}

pub type Result<T> = core::result::Result<T, ConsistentHashError>;

/// Current serialization format version.
pub const SERIALIZATION_VERSION: u32 = 1;

} // verus!

verus! {

/// An eight-byte ring point: 32-bit hash, 16-bit node index and two bytes of
/// padding.
#[derive(Clone, Copy, Debug)]
pub struct CompactPoint {
    hash: u32,
    node_index: u16,
    _padding: u16,
}

impl CompactPoint {
    pub const SIZE: usize = 8;

    pub closed spec fn hash_spec(self) -> u32 {
        self.hash
    }

    pub closed spec fn node_index_spec(self) -> u16 {
        self.node_index
    }

    pub closed spec fn padding_spec(self) -> u16 {
        self._padding
    }

    /// The eight bytes of the point: hash, node index and padding, each little-endian.
    pub open spec fn bytes_spec(self) -> Seq<u8> {
        bytes::le4(self.hash_spec()) + bytes::le2(self.node_index_spec()) + bytes::le2(
            self.padding_spec(),
        )
    }

    pub fn new(hash: u32, node_index: u16) -> (p: Self)
        ensures
            p.hash_spec() == hash,
            p.node_index_spec() == node_index,
            p.padding_spec() == 0,
    {
        Self { hash, node_index, _padding: 0 }
    }

    pub fn hash(&self) -> (h: u32)
        ensures
            h == self.hash_spec(),
    {
        self.hash
    }

    pub fn node_index(&self) -> (i: u16)
        ensures
            i == self.node_index_spec(),
    {
        self.node_index
    }

    /// Reads a point from its eight-byte layout.
    pub fn from_bytes(bytes: &[u8; 8]) -> (p: Self)
        ensures
            p.hash_spec() == bytes::read_le4(bytes@, 0),
            p.node_index_spec() == bytes::read_le2(bytes@, 4),
            p.padding_spec() == bytes::read_le2(bytes@, 6),
    {
        let hash = (bytes[0] as u32) | ((bytes[1] as u32) << 8) | ((bytes[2] as u32) << 16) | ((
        bytes[3] as u32) << 24);
        let node_index = (bytes[4] as u16) | ((bytes[5] as u16) << 8);
        let padding = (bytes[6] as u16) | ((bytes[7] as u16) << 8);
        Self { hash, node_index, _padding: padding }
    }

    /// Writes the point in its eight-byte layout.
    pub fn to_bytes(&self) -> (b: [u8; 8])
        ensures
            b@ == self.bytes_spec(),
    {
        let b = [
            (self.hash & 0xff) as u8,
            ((self.hash >> 8) & 0xff) as u8,
            ((self.hash >> 16) & 0xff) as u8,
            (self.hash >> 24) as u8,
            (self.node_index & 0xff) as u8,
            (self.node_index >> 8) as u8,
            (self._padding & 0xff) as u8,
            (self._padding >> 8) as u8,
        ];
        assert(b@ =~= self.bytes_spec());
        b
    }
}

impl Default for CompactPoint {
    fn default() -> (p: Self)
        ensures
            p.hash_spec() == 0 && p.node_index_spec() == 0 && p.padding_spec() == 0,
    {
        Self { hash: 0, node_index: 0, _padding: 0 }
    }
}

/// Writing a point and reading it back gives the same point.
pub proof fn lemma_compact_point_roundtrip(p: CompactPoint)
    ensures
        bytes::read_le4(p.bytes_spec(), 0) == p.hash_spec(),
        bytes::read_le2(p.bytes_spec(), 4) == p.node_index_spec(),
        bytes::read_le2(p.bytes_spec(), 6) == p.padding_spec(),
{
    let b = p.bytes_spec();
    bytes::lemma_le4_roundtrip(p.hash_spec());
    bytes::lemma_le2_roundtrip(p.node_index_spec());
    bytes::lemma_le2_roundtrip(p.padding_spec());
    assert(b.subrange(0, 4) =~= bytes::le4(p.hash_spec()));
    assert(b.subrange(4, 6) =~= bytes::le2(p.node_index_spec()));
    assert(b.subrange(6, 8) =~= bytes::le2(p.padding_spec()));
    assert(bytes::read_le4(b, 0) == bytes::read_le4(b.subrange(0, 4), 0));
    assert(bytes::read_le2(b, 4) == bytes::read_le2(b.subrange(4, 6), 0));
    assert(bytes::read_le2(b, 6) == bytes::read_le2(b.subrange(6, 8), 0));
}

/// A ring point as stored in a ring, in six bytes: the 32-bit hash and the
/// 16-bit node index, each little-endian.
#[derive(Clone, Copy, Debug)]
pub struct CompactPointV2 {
    bytes: [u8; 6],
}

/// Four little-endian bytes are fixed by the `u32` they encode.
proof fn lemma_le4_bytes(a: Seq<u8>, b: Seq<u8>, i: int)
    requires
        0 <= i,
        i + 4 <= a.len(),
        i + 4 <= b.len(),
        bytes::read_le4(a, i) == bytes::read_le4(b, i),
    ensures
        a[i] == b[i],
        a[i + 1] == b[i + 1],
        a[i + 2] == b[i + 2],
        a[i + 3] == b[i + 3],
{
    let (a0, a1, a2, a3) = (a[i], a[i + 1], a[i + 2], a[i + 3]);
    let (b0, b1, b2, b3) = (b[i], b[i + 1], b[i + 2], b[i + 3]);
    assert(a0 == b0 && a1 == b1 && a2 == b2 && a3 == b3) by (bit_vector)
        requires
            (a0 as u32) | ((a1 as u32) << 8u32) | ((a2 as u32) << 16u32) | ((a3 as u32) << 24u32)
                == (b0 as u32) | ((b1 as u32) << 8u32) | ((b2 as u32) << 16u32) | ((b3 as u32)
                << 24u32),
    ;
}

/// Two little-endian bytes are fixed by the `u16` they encode.
proof fn lemma_le2_bytes(a: Seq<u8>, b: Seq<u8>, i: int)
    requires
        0 <= i,
        i + 2 <= a.len(),
        i + 2 <= b.len(),
        bytes::read_le2(a, i) == bytes::read_le2(b, i),
    ensures
        a[i] == b[i],
        a[i + 1] == b[i + 1],
{
    let (a0, a1, b0, b1) = (a[i], a[i + 1], b[i], b[i + 1]);
    assert(a0 == b0 && a1 == b1) by (bit_vector)
        requires
            (a0 as u16) | ((a1 as u16) << 8u16) == (b0 as u16) | ((b1 as u16) << 8u16),
    ;
}

impl CompactPointV2 {
    pub const SIZE: usize = 6;

    pub closed spec fn hash_spec(self) -> u32 {
        bytes::read_le4(self.bytes@, 0)
    }

    pub closed spec fn node_index_spec(self) -> u16 {
        bytes::read_le2(self.bytes@, 4)
    }

    /// The point with the given hash and node index.
    pub closed spec fn mk(hash: u32, node_index: u16) -> Self {
        choose|p: Self| p.hash_spec() == hash && p.node_index_spec() == node_index
    }

    pub broadcast proof fn lemma_mk(hash: u32, node_index: u16)
        ensures
            (#[trigger] Self::mk(hash, node_index)).hash_spec() == hash,
            Self::mk(hash, node_index).node_index_spec() == node_index,
    {
        let w = Self::encode(hash, node_index);
        assert(w.hash_spec() == hash && w.node_index_spec() == node_index);
    }

    /// Two points with the same hash and node index are the same point.
    pub proof fn lemma_ext(a: Self, b: Self)
        requires
            a.hash_spec() == b.hash_spec(),
            a.node_index_spec() == b.node_index_spec(),
        ensures
            a == b,
    {
        broadcast use vstd::array::group_array_axioms;
        lemma_le4_bytes(a.bytes@, b.bytes@, 0);
        lemma_le2_bytes(a.bytes@, b.bytes@, 4);
        assert(a.bytes@ =~= b.bytes@);
        assert(a.bytes == b.bytes);
    }

    proof fn encode(hash: u32, node_index: u16) -> (p: Self)
        ensures
            p.hash_spec() == hash,
            p.node_index_spec() == node_index,
    {
        let p = CompactPointV2 {
            bytes: [
                (hash & 0xff) as u8,
                ((hash >> 8u32) & 0xff) as u8,
                ((hash >> 16u32) & 0xff) as u8,
                (hash >> 24u32) as u8,
                (node_index & 0xff) as u8,
                (node_index >> 8u16) as u8,
            ],
        };
        bytes::lemma_le4_roundtrip(hash);
        bytes::lemma_le2_roundtrip(node_index);
        assert(p.bytes@.subrange(0, 4) =~= bytes::le4(hash));
        assert(p.bytes@.subrange(4, 6) =~= bytes::le2(node_index));
        assert(bytes::read_le4(p.bytes@, 0) == bytes::read_le4(p.bytes@.subrange(0, 4), 0));
        assert(bytes::read_le2(p.bytes@, 4) == bytes::read_le2(p.bytes@.subrange(4, 6), 0));
        p
    }

    pub fn new(hash: u32, node_index: u16) -> (p: Self)
        ensures
            p == Self::mk(hash, node_index),
            p.hash_spec() == hash,
            p.node_index_spec() == node_index,
    {
        let p = CompactPointV2 {
            bytes: [
                (hash & 0xff) as u8,
                ((hash >> 8) & 0xff) as u8,
                ((hash >> 16) & 0xff) as u8,
                (hash >> 24) as u8,
                (node_index & 0xff) as u8,
                (node_index >> 8) as u8,
            ],
        };
        proof {
            bytes::lemma_le4_roundtrip(hash);
            bytes::lemma_le2_roundtrip(node_index);
            assert(p.bytes@.subrange(0, 4) =~= bytes::le4(hash));
            assert(p.bytes@.subrange(4, 6) =~= bytes::le2(node_index));
            assert(bytes::read_le4(p.bytes@, 0) == bytes::read_le4(p.bytes@.subrange(0, 4), 0));
            assert(bytes::read_le2(p.bytes@, 4) == bytes::read_le2(p.bytes@.subrange(4, 6), 0));
            Self::lemma_mk(hash, node_index);
            Self::lemma_ext(p, Self::mk(hash, node_index));
        }
        p
    }

    pub fn hash(&self) -> (h: u32)
        ensures
            h == self.hash_spec(),
    {
        (self.bytes[0] as u32) | ((self.bytes[1] as u32) << 8) | ((self.bytes[2] as u32) << 16) | ((
        self.bytes[3] as u32) << 24)
    }

    pub fn node_index(&self) -> (i: u16)
        ensures
            i == self.node_index_spec(),
    {
        (self.bytes[4] as u16) | ((self.bytes[5] as u16) << 8)
    }
}

/// Points ordered by hash, then by node index.
pub open spec fn point_le(a: CompactPointV2, b: CompactPointV2) -> bool {
    a.hash_spec() < b.hash_spec() || (a.hash_spec() == b.hash_spec() && a.node_index_spec()
        <= b.node_index_spec())
}

pub open spec fn points_sorted(s: Seq<CompactPointV2>) -> bool {
    forall|i: int, j: int| 0 <= i < j < s.len() ==> point_le(#[trigger] s[i], #[trigger] s[j])
}

impl Default for CompactPointV2 {
    fn default() -> (p: Self)
        ensures
            p.hash_spec() == 0 && p.node_index_spec() == 0,
    {
        Self::new(0, 0)
    }
}

/// A 32-bit hash of byte strings. Rings and tables rely on it being a
/// function of the bytes alone.
pub trait HashFunction: Send + Sync {
    spec fn spec_hash(&self, data: Seq<u8>) -> u32;

    fn hash(&self, data: &[u8]) -> (h: u32)
        ensures
            h == self.spec_hash(data@),
    ;
}

/// The low 32 bits of the 64-bit XXH3 digest.
#[derive(Clone, Copy, Debug)]
pub struct DefaultHash;

impl Default for DefaultHash {
    fn default() -> (h: Self) {
        DefaultHash
    }
}

impl HashFunction for DefaultHash {
    open spec fn spec_hash(&self, data: Seq<u8>) -> u32 {
        outside::xxh3_digest(data) as u32
    }

    fn hash(&self, data: &[u8]) -> (h: u32) {
        let d = outside::xxh3_64(data);
        d as u32
    }
}

/// The first four bytes of the MD5 digest, read little-endian (as Ketama does).
#[derive(Clone, Copy, Debug)]
pub struct KetamaHash;

impl HashFunction for KetamaHash {
    open spec fn spec_hash(&self, data: Seq<u8>) -> u32 {
        bytes::read_le4(outside::md5_digest(data), 0)
    }

    fn hash(&self, data: &[u8]) -> (h: u32) {
        let d = outside::md5(data);
        (d[0] as u32) | ((d[1] as u32) << 8) | ((d[2] as u32) << 16) | ((d[3] as u32) << 24)
    }
}

} // verus!

//! The calls this crate makes into outside code, each with the contract that
//! the verified code relies on.

use vstd::prelude::*;
use md5::Digest;
use vstd::utf8::{valid_utf8, decode_utf8};
use crate::{CompactPointV2, points_sorted};

verus! {

/// The 64-bit XXH3 digest (seed 0) of a byte string.
pub uninterp spec fn xxh3_digest(data: Seq<u8>) -> u64;

/// Calls `xxhash_rust::xxh3::Xxh3::new`, `update` once with `data`, and
/// `digest`. Claimed: the digest depends on the bytes alone.
#[verifier::external_body]
pub(crate) fn xxh3_64(data: &[u8]) -> (h: u64)
    ensures
        h == xxh3_digest(data@),
{
    let mut hasher = xxhash_rust::xxh3::Xxh3::new();
    hasher.update(data);
    hasher.digest()
}

/// The 64-bit XXH3 digest of a byte string under a seed.
pub uninterp spec fn xxh3_seeded_digest(data: Seq<u8>, seed: u64) -> u64;

/// Calls `xxhash_rust::xxh3::Xxh3::with_seed(seed)`, `update` once with
/// `data`, and `digest`. Claimed: the digest depends on the bytes and the
/// seed alone.
#[verifier::external_body]
pub(crate) fn xxh3_64_seeded(data: &[u8], seed: u64) -> (h: u64)
    ensures
        h == xxh3_seeded_digest(data@, seed),
{
    let mut hasher = xxhash_rust::xxh3::Xxh3::with_seed(seed);
    hasher.update(data);
    hasher.digest()
}

/// The 16-byte MD5 digest of a byte string.
pub uninterp spec fn md5_digest(data: Seq<u8>) -> Seq<u8>;

/// Calls `md5::Md5::new`, `update` once with `data`, and `finalize`. Claimed:
/// the digest depends on the bytes alone and has 16 bytes (the hasher's
/// output size is `U16`).
#[verifier::external_body]
pub(crate) fn md5(data: &[u8]) -> (d: Vec<u8>)
    ensures
        d@ == md5_digest(data@),
        d@.len() == 16,
{
    let mut hasher = md5::Md5::new();
    hasher.update(data);
    hasher.finalize().to_vec()
}

/// Sorts ring points by hash, then by node index, with
/// `slice::sort_unstable_by_key`. Claimed: the result is a permutation of the
/// input in that order.
#[verifier::external_body]
pub(crate) fn sort_points(v: &mut Vec<CompactPointV2>)
    ensures
        final(v)@.to_multiset() == old(v)@.to_multiset(),
        points_sorted(final(v)@),
{
    v.sort_unstable_by_key(|p| (p.hash(), p.node_index()));
}

#[verifier::external_type_specification]
#[verifier::external_body]
pub struct ExUtf8Error(core::str::Utf8Error);

#[verifier::external_type_specification]
#[verifier::external_body]
pub struct ExJsonValue(serde_json::Value);

/// `core::str::from_utf8`. Claimed: it succeeds exactly on valid UTF-8, and
/// the string it returns decodes those bytes.
#[verifier::external_body]
pub(crate) fn str_from_utf8(v: &[u8]) -> (r: core::result::Result<&str, core::str::Utf8Error>)
    ensures
        match r {
            Ok(s) => valid_utf8(v@) && s@ == decode_utf8(v@),
            Err(_) => !valid_utf8(v@),
        },
{
    core::str::from_utf8(v)
}

/// The `Display` text of a UTF-8 error (`ToString::to_string`).
#[verifier::external_body]
pub(crate) fn utf8_error_message(e: &core::str::Utf8Error) -> String {
    e.to_string()
}

/// Formats the message for a ring with more nodes than a 16-bit index can
/// address.
#[verifier::external_body]
pub(crate) fn too_many_nodes_message(n: usize, max: usize) -> String {
    format!("Too many nodes: {} (max {})", n, max)
}

/// Formats the message for a point whose node index is out of range.
#[verifier::external_body]
pub(crate) fn bad_node_index_message(node_index: u16, n_nodes: usize) -> String {
    format!("Point references node {} but ring has {} nodes", node_index, n_nodes)
}

/// Formats the message for a read past the end of a buffer.
#[verifier::external_body]
pub(crate) fn unexpected_end_message(offset: usize, needed: usize, have: usize) -> String {
    format!("Unexpected end of buffer at offset {} (needed {} bytes, have {})", offset, needed, have)
}

#[verifier::external_type_specification]
#[verifier::external_body]
pub struct ExInstant(std::time::Instant);

/// `core::time::Duration::from_secs`. Nothing is claimed of the duration:
/// the verified code only carries it.
#[verifier::external_body]
pub(crate) fn duration_from_secs(secs: u64) -> core::time::Duration {
    core::time::Duration::from_secs(secs)
}

} // verus!

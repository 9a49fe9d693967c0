//! Seeded FNV-1a hashing of keys and the partition that a hash selects.

use vstd::prelude::*;
use vstd::utf8::encode_utf8;

verus! {

/// Name under which plans record the hash function.
pub const HASH_FUNCTION_NAME: &'static str = "fnv1a64_seeded";

/// Start value of 64-bit FNV-1a.
pub const FNV_OFFSET_BASIS: u64 = 0xcbf29ce484222325;

/// Multiplier of 64-bit FNV-1a.
pub const FNV_PRIME: u64 = 0x100000001b3;

/// One FNV-1a step.
pub open spec fn fnv_step(hash: u64, byte: u8) -> u64 {
    (hash ^ (byte as u64)).wrapping_mul(FNV_PRIME)
}

/// FNV-1a over `bytes`, starting from the offset basis mixed with the seed.
pub open spec fn fnv(seed: u64, bytes: Seq<u8>) -> u64 {
    bytes.fold_left(FNV_OFFSET_BASIS ^ seed, |hash: u64, byte: u8| fnv_step(hash, byte))
}

/// Hash of a string: the hash of its UTF-8 bytes.
pub open spec fn key_hash(seed: u64, key: Seq<char>) -> u64 {
    fnv(seed, encode_utf8(key))
}

/// The partition that hashing selects among `partition_count`.
pub open spec fn hashed_partition(key: Seq<char>, partition_count: usize, seed: u64) -> usize {
    if partition_count == 0 {
        0
    } else {
        (key_hash(seed, key) as usize) % partition_count
    }
}

/// Hashes a byte string.
pub fn hash_bytes_seeded(seed: u64, bytes: &[u8]) -> (hash: u64)
    ensures
        hash == fnv(seed, bytes@),
{
    let mut hash: u64 = FNV_OFFSET_BASIS ^ seed;
    let ghost f = |hash: u64, byte: u8| fnv_step(hash, byte);
    let mut i: usize = 0;
    while i < bytes.len()
        invariant
            i <= bytes@.len(),
            f == (|hash: u64, byte: u8| fnv_step(hash, byte)),
            hash == bytes@.take(i as int).fold_left(FNV_OFFSET_BASIS ^ seed, f),
        decreases bytes.len() - i,
    {
        let ghost before = hash;
        hash = hash ^ (bytes[i] as u64);
        hash = hash.wrapping_mul(FNV_PRIME);
        assert(hash == f(before, bytes@[i as int]));
        assert(bytes@.take(i + 1).drop_last() =~= bytes@.take(i as int));
        i += 1;
    }
    assert(bytes@.take(i as int) =~= bytes@);
    hash
}

/// Hashes a key.
pub fn hash_key(seed: u64, key: &str) -> (hash: u64)
    ensures
        hash == key_hash(seed, key@),
{
    hash_bytes_seeded(seed, key.as_bytes())
}

/// The partition of a key that is placed by its hash.
pub fn partition_id(key: &str, partition_count: usize, seed: u64) -> (id: usize)
    ensures
        id == hashed_partition(key@, partition_count, seed),
        partition_count > 0 ==> id < partition_count,
{
    if partition_count == 0 {
        return 0;
    }
    let hash: u64 = hash_key(seed, key);
    (#[verifier::truncate] (hash as usize)) % partition_count
}

/// Hash placement stays within the partitions, whatever the key and the seed.
pub proof fn hashed_partition_in_range(key: Seq<char>, partition_count: usize, seed: u64)
    requires
        partition_count > 0,
    ensures
        0 <= hashed_partition(key, partition_count, seed) < partition_count,
{
}

} // verus!

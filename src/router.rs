//! Routing of keys to buckets.
use std::collections::hash_map::DefaultHasher;
use std::hash::Hasher;
use vstd::bytes::{spec_u64_to_le_bytes, u64_to_le_bytes};
use vstd::prelude::*;
use vstd::std_specs::hash::DefaultHasherAdditionalSpecFns;

verus! {

/// The hash of a key: `DefaultHasher` fed with the key's eight little-endian bytes.
pub open spec fn key_hash(key: u64) -> u64 {
    DefaultHasher::spec_finish(seq![spec_u64_to_le_bytes(key)])
}

/// The bucket that owns `key` among `bucket_count` buckets.
pub open spec fn bucket_of(key: u64, bucket_count: nat) -> nat
    recommends
        bucket_count >= 1,
{
    (key_hash(key) as nat) % bucket_count
}

/// Hashes a key with a freshly created `DefaultHasher`.
pub fn hash_key(key: u64) -> (h: u64)
    ensures
        h == key_hash(key),
{
    let bytes = u64_to_le_bytes(key);
    let mut hasher = DefaultHasher::new();
    hasher.write(bytes.as_slice());
    hasher.finish()
}

/// The index of the bucket that owns `key`; always below `bucket_count`.
pub fn bucket_index(key: u64, bucket_count: usize) -> (i: usize)
    requires
        bucket_count >= 1,
    ensures
        i as nat == bucket_of(key, bucket_count as nat),
        i < bucket_count,
{
    let h = hash_key(key);
    (h % (bucket_count as u64)) as usize
}

} // verus!

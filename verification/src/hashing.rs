//! The hasher adapter: turns a key into a 64-bit digest and reduces the
//! digest to a bucket index.
//!
//! The digest comes from `std`'s `DefaultHasher`, fed the UTF-8 bytes of the
//! key. `digest_of` is a pure function of the key's characters, so the same
//! key always maps to the same digest — the determinism the table relies on.
//! Nothing is promised about how digests are distributed: unrelated keys may
//! collide, and the table's chains absorb that.

use std::collections::hash_map::DefaultHasher;
use std::hash::Hasher;
use vstd::prelude::*;
use vstd::std_specs::hash::DefaultHasherAdditionalSpecFns;
use vstd::utf8::encode_utf8;

verus! {

/// The 64-bit digest of a key: what `DefaultHasher` computes after one
/// `write` of the key's UTF-8 bytes.
pub open spec fn digest_of(key: Seq<char>) -> u64 {
    DefaultHasher::spec_finish(seq![encode_utf8(key)])
}

/// The bucket a key belongs to in a table with `capacity` slots: its digest
/// reduced modulo the capacity.
pub open spec fn spec_bucket_of(key: Seq<char>, capacity: nat) -> nat
    recommends
        capacity > 0,
{
    digest_of(key) as nat % capacity
}

/// Computes the bucket index of `key` for a table with `capacity` slots.
pub fn bucket_of(key: &str, capacity: usize) -> (index: usize)
    requires
        capacity > 0,
    ensures
        index as nat == spec_bucket_of(key@, capacity as nat),
        index < capacity,
{
    let mut hasher = DefaultHasher::new();
    hasher.write(key.as_bytes());
    let digest: u64 = hasher.finish();
    proof {
        assert(hasher@ =~= seq![encode_utf8(key@)]);
    }
    let index64: u64 = digest % (capacity as u64);
    index64 as usize
}

} // verus!

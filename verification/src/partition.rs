//! The mapping from keys to shards.

use vstd::prelude::*;
use crate::hash::HashValue;

verus! {

/// The largest number of shards a store can have: the shard of a key is
/// chosen by one byte of it.
pub const MAX_SHARDS: usize = 256;

/// The shard that owns `key` among `num_shards` shards: the first byte of the
/// key, reduced modulo the number of shards.
pub open spec fn shard_of_spec(key: Seq<u8>, num_shards: nat) -> nat
    recommends
        num_shards > 0,
{
    (key[0] as nat) % num_shards
}

/// The shard that owns `key` among `num_shards` shards.
pub fn shard_of(key: &HashValue, num_shards: usize) -> (shard: usize)
    requires
        num_shards > 0,
    ensures
        shard == shard_of_spec(key@, num_shards as nat),
        shard < num_shards,
{
    (key.bytes[0] as usize) % num_shards
}

} // verus!

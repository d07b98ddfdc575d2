//! What a driver of the store needs around it: keys for a run of lookups,
//! the routing of a batch of updates to the shards, and the counts that a run
//! reports.

use vstd::prelude::*;
use crate::error::Error;
use crate::hash::{sha3_256, HashValue};
use crate::laws::update_view;
use crate::node::{Node, StoredNode};
use crate::partition::{shard_of, shard_of_spec};
use crate::snapshot::{routed, snapshot_for, value_at, StoreSnapshot};
use crate::store::ShardedStore;
use crate::value_store::{copy_bytes, ValueUpdate};

verus! {

/// The bytes from which the key of the lookup `i` of a run is made: 32 bytes
/// that all hold the lowest byte of `i`.
pub open spec fn lookup_seed(i: nat) -> Seq<u8> {
    Seq::new(32, |j: int| (i % 256) as u8)
}

/// The key of the lookup `i` of a run.
pub open spec fn lookup_key(i: nat) -> Seq<u8> {
    sha3_256(lookup_seed(i))
}

/// How many of the first `count` lookups of a run find a value in a snapshot.
pub open spec fn hits(snapshot: StoreSnapshot, count: nat) -> nat
    decreases count,
{
    if count == 0 {
        0
    } else {
        let found: nat = if value_at(snapshot, lookup_key((count - 1) as nat)) is Some {
            1
        } else {
            0
        };
        hits(snapshot, (count - 1) as nat) + found
    }
}

/// How many blocks of `block_size` operations a run of `count` operations
/// starts.
pub open spec fn blocks_started(count: nat, block_size: nat) -> int
    recommends
        block_size > 0,
{
    (count as int + block_size as int - 1) / (block_size as int)
}

/// What a run of lookups did.
#[derive(Clone, Copy, Debug, PartialEq, Eq)]
pub struct OperationCounts {
    /// The operations carried out.
    pub operations: usize,
    /// The operations whose key had a value.
    pub found: usize,
    /// The operations whose proof showed what was found against the root
    /// hash: all of them.
    pub verified: usize,
    /// The blocks of operations that were started.
    pub blocks: usize,
}

/// The key of the lookup `i` of a run.
pub fn key_for_lookup(i: usize) -> (key: HashValue)
    ensures
        key@ == lookup_key(i as nat),
{
    let byte: u8 = (i % 256) as u8;
    let mut seed: Vec<u8> = Vec::new();
    let mut j: usize = 0;
    while j < 32
        invariant
            j <= 32,
            seed.len() == j,
            forall|k: int| 0 <= k < j ==> seed@[k] == byte,
        decreases 32 - j,
    {
        seed.push(byte);
        j += 1;
    }
    proof {
        assert(seed@ =~= lookup_seed(i as nat));
    }
    HashValue::digest(&seed)
}

/// Runs `num_operations` operations against the latest committed version, in
/// blocks of `block_size`. Each operation looks a key up with its proof, gets
/// the root hash, and checks the proof against it; every proof shows what the
/// lookup found.
///
/// A store without a committed version cannot be read and gives a version
/// error.
pub fn run_jmt_operations(store: &ShardedStore, num_operations: usize, block_size: usize) -> (res:
    Result<OperationCounts, Error>)
    requires
        store.wf(),
        block_size > 0,
    ensures
        res is Ok <==> store@.history.len() > 0,
        res matches Err(e) ==> e == Error::VersionError,
        res matches Ok(counts) ==> {
            &&& counts.operations == num_operations
            &&& counts.found == hits(store@.history.last(), num_operations as nat)
            &&& counts.verified == num_operations
            &&& counts.blocks == blocks_started(num_operations as nat, block_size as nat)
        },
{
    let version = match store.latest_version() {
        Some(v) => v,
        None => {
            return Err(Error::VersionError);
        },
    };
    let ghost latest = store@.history.last();
    proof {
        store.lemma_view();
        let h = store@.history;
        let last = h.len() - 1;
        assert(crate::snapshot::covers(h, last, version));
        crate::snapshot::lemma_covering_unique(h, last, version);
    }
    let num_shards = store.num_shards();
    let mut found: usize = 0;
    let mut verified: usize = 0;
    let mut blocks: usize = 0;
    let mut i: usize = 0;
    proof {
        let b = block_size as int;
        assert((0 + b - 1) / b == 0) by (nonlinear_arith)
            requires
                b > 0,
        ;
    }
    while i < num_operations
        invariant
            store.wf(),
            block_size > 0,
            i <= num_operations,
            store@.history.len() > 0,
            latest == store@.history.last(),
            snapshot_for(store@.history, version) == latest,
            crate::snapshot::readable(store@.history, store@.retained, version),
            num_shards == store@.num_shards,
            found == hits(latest, i as nat),
            found <= i,
            verified == i,
            blocks == blocks_started(i as nat, block_size as nat),
            blocks <= i,
        decreases num_operations - i,
    {
        if i % block_size == 0 {
            proof {
                lemma_block_starts(i as nat, block_size as nat);
            }
            blocks += 1;
        } else {
            proof {
                lemma_block_goes_on(i as nat, block_size as nat);
            }
        }
        let key = key_for_lookup(i);
        let (value, proof) = match store.get_with_proof(&key, version) {
            Ok(found) => found,
            Err(e) => {
                return Err(e);
            },
        };
        let root = match store.get_root_hash(version) {
            Ok(root) => root,
            Err(e) => {
                return Err(e);
            },
        };
        let value_hash: Option<HashValue> = match &value {
            Some(v) => Some(HashValue::digest(v)),
            None => None,
        };
        if proof.verify(&root, &key, value_hash, num_shards) {
            verified += 1;
        }
        if value.is_some() {
            found += 1;
        }
        i += 1;
    }
    Ok(OperationCounts { operations: num_operations, found, verified, blocks })
}

/// An operation at a multiple of the block size starts a block.
proof fn lemma_block_starts(i: nat, block_size: nat)
    requires
        block_size > 0,
        i % block_size == 0,
    ensures
        blocks_started(i + 1, block_size) == blocks_started(i, block_size) + 1,
{
    let b = block_size as int;
    let n = i as int;
    let q = n / b;
    assert(n == q * b) by (nonlinear_arith)
        requires
            b > 0,
            n % b == 0,
            q == n / b,
    ;
    assert((q * b + b - 1) / b == q) by (nonlinear_arith)
        requires
            b > 0,
    ;
    assert((q * b + b) / b == q + 1) by (nonlinear_arith)
        requires
            b > 0,
    ;
}

/// An operation elsewhere goes on with the block it is in.
proof fn lemma_block_goes_on(i: nat, block_size: nat)
    requires
        block_size > 0,
        i % block_size != 0,
    ensures
        blocks_started(i + 1, block_size) == blocks_started(i, block_size),
{
    let b = block_size as int;
    let n = i as int;
    let q = n / b;
    let r = n % b;
    assert(n == q * b + r && 0 < r < b) by (nonlinear_arith)
        requires
            b > 0,
            n >= 0,
            r == n % b,
            q == n / b,
            r != 0,
    ;
    assert((q * b + r + b - 1) / b == q + 1) by (nonlinear_arith)
        requires
            b > 0,
            0 < r < b,
    ;
    assert((q * b + r + b) / b == q + 1) by (nonlinear_arith)
        requires
            b > 0,
            0 < r < b,
    ;
}

/// The updates of a batch that belong to the shard `shard`, in their order.
pub open spec fn updates_of_shard(
    updates: Seq<ValueUpdate>,
    shard: int,
    num_shards: nat,
) -> Seq<(Seq<u8>, Option<Seq<u8>>)>
    decreases updates.len(),
{
    if updates.len() == 0 {
        Seq::empty()
    } else {
        let rest = updates_of_shard(updates.drop_last(), shard, num_shards);
        if shard_of_spec(updates.last().0@, num_shards) == shard {
            rest.push(update_view(updates.last()))
        } else {
            rest
        }
    }
}

/// What a batch of updates says, update by update.
pub open spec fn updates_view(updates: Seq<ValueUpdate>) -> Seq<(Seq<u8>, Option<Seq<u8>>)> {
    Seq::new(updates.len(), |i: int| update_view(updates[i]))
}

/// Routes a batch of updates to the shards: every update goes to the batch of
/// the shard that owns its key, and keeps its place among the updates of that
/// shard. The result is routed as a commit asks.
pub fn route_updates(updates: &Vec<ValueUpdate>, num_shards: usize) -> (batches: Vec<
    Vec<ValueUpdate>,
>)
    requires
        0 < num_shards,
    ensures
        routed(batches@, num_shards),
        forall|s: int|
            0 <= s < num_shards ==> updates_view(#[trigger] batches[s]@) == updates_of_shard(
                updates@,
                s,
                num_shards as nat,
            ),
{
    let mut batches: Vec<Vec<ValueUpdate>> = Vec::new();
    let mut s: usize = 0;
    while s < num_shards
        invariant
            s <= num_shards,
            batches.len() == s,
            forall|t: int| 0 <= t < s ==> (#[trigger] batches[t]).len() == 0,
        decreases num_shards - s,
    {
        batches.push(Vec::new());
        s += 1;
    }
    proof {
        assert forall|t: int| 0 <= t < num_shards implies updates_view(#[trigger] batches[t]@)
            == updates_of_shard(updates@.take(0), t, num_shards as nat) by {
            assert(updates_view(batches[t]@) =~= Seq::empty());
        }
    }
    let mut i: usize = 0;
    while i < updates.len()
        invariant
            0 < num_shards,
            i <= updates.len(),
            batches.len() == num_shards,
            forall|t: int, j: int|
                0 <= t < num_shards && 0 <= j < batches[t].len() ==> shard_of_spec(
                    #[trigger] batches[t][j].0@,
                    num_shards as nat,
                ) == t,
            forall|t: int|
                0 <= t < num_shards ==> updates_view(#[trigger] batches[t]@) == updates_of_shard(
                    updates@.take(i as int),
                    t,
                    num_shards as nat,
                ),
        decreases updates.len() - i,
    {
        let shard = shard_of(&updates[i].0, num_shards);
        let value: Option<Vec<u8>> = match &updates[i].1 {
            Some(v) => Some(copy_bytes(v)),
            None => None,
        };
        let update: ValueUpdate = (updates[i].0, value);
        let ghost before = batches@;
        proof {
            assert(update_view(update) == update_view(updates@[i as int]));
            assert(updates@.take(i + 1).drop_last() =~= updates@.take(i as int));
            assert(updates@.take(i + 1).last() == updates@[i as int]);
        }
        batches[shard].push(update);
        proof {
            assert forall|t: int| 0 <= t < num_shards implies updates_view(#[trigger] batches[t]@)
                == updates_of_shard(updates@.take(i + 1), t, num_shards as nat) by {
                if t == shard {
                    assert(updates_view(batches[t]@) =~= updates_view(before[t]@).push(
                        update_view(update),
                    ));
                } else {
                    assert(batches[t] == before[t]);
                }
            }
            assert forall|t: int, j: int|
                0 <= t < num_shards && 0 <= j < batches[t].len() implies shard_of_spec(
                #[trigger] batches[t][j].0@,
                num_shards as nat,
            ) == t by {
                if t == shard {
                    if j < before[t].len() {
                        assert(batches[t][j] == before[t][j]);
                    }
                } else {
                    assert(batches[t] == before[t]);
                }
            }
        }
        i += 1;
    }
    proof {
        assert(updates@.take(updates.len() as int) =~= updates@);
    }
    batches
}

/// How many of the first `count` nodes of a batch are leaves.
pub open spec fn leaves_among(batch: Seq<StoredNode>, count: nat) -> nat
    decreases count,
{
    if count == 0 {
        0
    } else {
        let leaf: nat = if batch[count - 1].node is Leaf {
            1
        } else {
            0
        };
        leaves_among(batch, (count - 1) as nat) + leaf
    }
}

/// The numbers of branches and of leaves among the nodes of a batch.
pub fn count_nodes(batch: &Vec<StoredNode>) -> (counts: (usize, usize))
    ensures
        counts.1 == leaves_among(batch@, batch.len() as nat),
        counts.0 + counts.1 == batch.len(),
{
    let mut branches: usize = 0;
    let mut leaves: usize = 0;
    let mut i: usize = 0;
    while i < batch.len()
        invariant
            i <= batch.len(),
            leaves == leaves_among(batch@, i as nat),
            branches + leaves == i,
        decreases batch.len() - i,
    {
        match batch[i].node {
            Node::Leaf { key, value_hash } => {
                leaves += 1;
            },
            Node::Internal { left, right } => {
                branches += 1;
            },
        }
        i += 1;
    }
    (branches, leaves)
}

} // verus!

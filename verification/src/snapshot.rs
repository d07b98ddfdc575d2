//! What the store holds at one version, as a mathematical value, and what
//! follows from it: the global root hash, the value of every key, and the
//! proof for every key.

use vstd::prelude::*;
use crate::hash::{key_bit, key_prefix, sha3_256, HASH_LENGTH};
use crate::merkle_proof::{proof_shard_root, proof_start, proves, shard_steps, ProofView};
use crate::partition::{shard_of_spec, MAX_SHARDS};
use crate::shard::shard_proof;
use crate::top_level::{lemma_top_siblings, top_root, top_siblings};
use crate::tree::{
    is_tree_of, lemma_fold_siblings, lemma_terminal_finds, lemma_terminal_prefix,
    lemma_terminal_shape, map_root, representable, tree_of, HashMapping,
};
use crate::updates::{apply_update, apply_updates, HashUpdate};
use crate::value_store::{apply_value, apply_values, ValueMapping, ValueUpdate};

verus! {

/// What the store holds at one version: for each shard, the values of its
/// keys.
pub struct StoreSnapshot {
    pub version: u64,
    pub shards: Seq<ValueMapping>,
}

/// The bindings that a shard tree authenticates for the values `m`: every key
/// with the hash of its value.
pub open spec fn hashed(m: ValueMapping) -> HashMapping {
    Map::new(|k: Seq<u8>| m.contains_key(k), |k: Seq<u8>| sha3_256(m[k]))
}

/// The root hashes of the shard trees of a snapshot, shard `i` at index `i`.
pub open spec fn shard_roots(s: StoreSnapshot) -> Seq<Seq<u8>> {
    Seq::new(s.shards.len(), |i: int| map_root(hashed(s.shards[i])))
}

/// The global root hash of a snapshot. It is determined by the values that
/// each shard holds, whatever the order in which they were written.
pub open spec fn global_root(s: StoreSnapshot) -> Seq<u8> {
    top_root(shard_roots(s))
}

/// The value of `key` in a snapshot, if it has one.
pub open spec fn value_at(s: StoreSnapshot, key: Seq<u8>) -> Option<Seq<u8>> {
    let m = s.shards[shard_of_spec(key, s.shards.len()) as int];
    if m.contains_key(key) {
        Some(m[key])
    } else {
        None
    }
}

/// The hash of the value of `key` in a snapshot, if it has one.
pub open spec fn value_hash_at(s: StoreSnapshot, key: Seq<u8>) -> Option<Seq<u8>> {
    match value_at(s, key) {
        Some(v) => Some(sha3_256(v)),
        None => None,
    }
}

/// The proof for `key` in a snapshot: the walk through the tree of the key's
/// shard, followed by the walk from that shard's root to the global root.
pub open spec fn store_proof(s: StoreSnapshot, key: Seq<u8>) -> ProofView {
    let i = shard_of_spec(key, s.shards.len()) as int;
    let below = shard_proof(hashed(s.shards[i]), key);
    ProofView { leaf: below.leaf, siblings: below.siblings + top_siblings(shard_roots(s), i) }
}

/// Whether a snapshot is one that a store can hold: it has between 1 and 256
/// shards, and the bindings of every shard fit a shard tree.
pub open spec fn snapshot_wf(s: StoreSnapshot) -> bool {
    &&& 0 < s.shards.len() <= MAX_SHARDS
    &&& forall|i: int| 0 <= i < s.shards.len() ==> representable(hashed(#[trigger] s.shards[i]))
}

/// The snapshot that follows `base` when each shard takes its updates.
pub open spec fn next_snapshot(
    base: Seq<ValueMapping>,
    version: u64,
    updates: Seq<Vec<ValueUpdate>>,
) -> StoreSnapshot {
    StoreSnapshot {
        version,
        shards: Seq::new(base.len(), |i: int| apply_values(base[i], updates[i]@)),
    }
}

/// The values that a commit starts from: those of the last version, or none
/// where the store holds no version yet.
pub open spec fn latest_values(history: Seq<StoreSnapshot>, num_shards: nat) -> Seq<ValueMapping> {
    if history.len() == 0 {
        Seq::new(num_shards, |i: int| Map::empty())
    } else {
        history.last().shards
    }
}

/// Whether versions grow strictly along a history.
pub open spec fn history_ordered(history: Seq<StoreSnapshot>) -> bool {
    forall|i: int, j: int|
        0 <= i < j < history.len() ==> (#[trigger] history[i]).version < (
        #[trigger] history[j]).version
}

/// Whether `version` can be read from a history whose snapshots before the
/// index `retained` were pruned: it lies between the earliest retained and
/// the latest committed version.
pub open spec fn readable(history: Seq<StoreSnapshot>, retained: nat, version: u64) -> bool {
    retained < history.len() && history[retained as int].version <= version
        <= history.last().version
}

/// Whether the snapshot at index `j` is the one that a reader pinned to
/// `version` sees: the last one that is not after `version`.
pub open spec fn covers(history: Seq<StoreSnapshot>, j: int, version: u64) -> bool {
    &&& 0 <= j < history.len()
    &&& history[j].version <= version
    &&& j + 1 < history.len() ==> version < history[j + 1].version
}

/// The index of the snapshot that a reader pinned to `version` sees.
pub open spec fn covering(history: Seq<StoreSnapshot>, version: u64) -> int {
    choose|j: int| covers(history, j, version)
}

/// The snapshot that a reader pinned to `version` sees.
pub open spec fn snapshot_for(history: Seq<StoreSnapshot>, version: u64) -> StoreSnapshot {
    history[covering(history, version)]
}

/// In an ordered history one snapshot at most covers a version.
pub proof fn lemma_covering_unique(history: Seq<StoreSnapshot>, j: int, version: u64)
    requires
        history_ordered(history),
        covers(history, j, version),
    ensures
        covering(history, version) == j,
{
    let c = covering(history, version);
    if c < j {
        if c + 1 < j {
            assert(history[c + 1].version < history[j].version);
        }
    }
    if j < c {
        if j + 1 < c {
            assert(history[j + 1].version < history[c].version);
        }
    }
}

/// Whether a commit of `version` on `base_version` follows the history: the
/// base is the latest committed version, or `None` where there is none, and
/// the new version lies after it.
pub open spec fn commit_follows(
    history: Seq<StoreSnapshot>,
    version: u64,
    base_version: Option<u64>,
) -> bool {
    if history.len() == 0 {
        base_version is None
    } else {
        base_version == Some(history.last().version) && history.last().version < version
    }
}

/// Whether the versions handed to the merge of one shard fit the store: the
/// caller knows the last persisted version, the base is one of the committed
/// versions, or `None` for the empty tree, and the target lies after all of
/// them.
pub open spec fn merge_fits(
    history: Seq<StoreSnapshot>,
    base_version: Option<u64>,
    target_version: u64,
    persisted_version: Option<u64>,
) -> bool {
    &&& persisted_version == (if history.len() == 0 {
        None
    } else {
        Some(history.last().version)
    })
    &&& base_version matches Some(b) ==> exists|j: int|
        0 <= j < history.len() && #[trigger] history[j].version == b
    &&& history.len() > 0 ==> history.last().version < target_version
}

/// Whether the updates of a commit are routed: there is one batch for each
/// shard, and every key lies in the batch of the shard that owns it.
pub open spec fn routed(updates: Seq<Vec<ValueUpdate>>, num_shards: usize) -> bool {
    &&& updates.len() == num_shards
    &&& forall|s: int, i: int|
        0 <= s < num_shards && 0 <= i < updates[s].len() ==> shard_of_spec(
            #[trigger] updates[s][i].0@,
            num_shards as nat,
        ) == s
}

/// Whether `hashes` are the updates `values` with every value replaced by its
/// hash.
pub open spec fn hashes_of(hashes: Seq<HashUpdate>, values: Seq<ValueUpdate>) -> bool {
    &&& hashes.len() == values.len()
    &&& forall|i: int|
        0 <= i < values.len() ==> {
            &&& (#[trigger] hashes[i]).0 == values[i].0
            &&& hashes[i].1 is Some <==> values[i].1 is Some
            &&& hashes[i].1 matches Some(h) ==> h@ == sha3_256(values[i].1->0@)
        }
}

/// Updating values and then hashing them gives what updating the hashed
/// bindings by the hashed updates gives.
pub proof fn lemma_hashed_updates(m: ValueMapping, hashes: Seq<HashUpdate>, values: Seq<ValueUpdate>)
    requires
        hashes_of(hashes, values),
    ensures
        apply_updates(hashed(m), hashes) == hashed(apply_values(m, values)),
    decreases values.len(),
{
    if values.len() == 0 {
    } else {
        let h = hashes.last();
        let v = values.last();
        assert(hashes[hashes.len() - 1].0 == values[values.len() - 1].0);
        assert forall|i: int| 0 <= i < values.drop_last().len() implies {
            &&& (#[trigger] hashes.drop_last()[i]).0 == values.drop_last()[i].0
            &&& hashes.drop_last()[i].1 is Some <==> values.drop_last()[i].1 is Some
            &&& hashes.drop_last()[i].1 matches Some(h) ==> h@ == sha3_256(
                values.drop_last()[i].1->0@,
            )
        } by {
            assert(hashes[i].0 == values[i].0);
        }
        lemma_hashed_updates(m, hashes.drop_last(), values.drop_last());
        let before = apply_values(m, values.drop_last());
        assert(apply_update(hashed(before), h) =~= hashed(apply_value(before, v)));
    }
}

/// In a snapshot that a store can hold, the proof for a key shows, against
/// the global root hash, the value that the key has, and for a key without a
/// value that it has none.
pub proof fn lemma_store_proof(s: StoreSnapshot, key: Seq<u8>)
    requires
        snapshot_wf(s),
        key.len() == HASH_LENGTH,
    ensures
        proves(store_proof(s, key), global_root(s), key, value_hash_at(s, key), s.shards.len()),
{
    let n = s.shards.len();
    let i = shard_of_spec(key, n) as int;
    let m = hashed(s.shards[i]);
    let t = tree_of(m);
    let roots = shard_roots(s);
    let p = store_proof(s, key);
    let lower = t.siblings(key, 0);
    let upper = top_siblings(roots, i);
    assert(is_tree_of(t, m));
    assert(key_prefix(key, 0) =~= Seq::<bool>::empty());
    lemma_terminal_shape(t, key, 0);
    lemma_fold_siblings(t, key, 0);
    lemma_terminal_finds(t, key, 0);
    lemma_top_siblings(roots, i);
    assert(shard_steps(p, n) == lower.len());
    assert(p.siblings.take(lower.len() as int) =~= lower);
    assert(p.siblings.skip(lower.len() as int) =~= upper);
    assert(proof_start(p.leaf) == t.terminal(key, 0).hash());
    assert(proof_shard_root(p, key, n) == roots[i]);
    if t.terminal(key, 0) is Leaf {
        lemma_terminal_prefix(t, key, 0);
        let k = t.terminal(key, 0)->key;
        assert forall|b: int| 0 <= b < lower.len() implies key_bit(k, b) == key_bit(key, b) by {
            assert(key_prefix(key, lower.len())[b] == key_bit(key, b));
        }
    }
}

} // verus!

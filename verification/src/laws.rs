//! What holds of the store across commits.

use vstd::prelude::*;
use crate::hash::HASH_LENGTH;
use crate::merkle_proof::proves;
use crate::node::{NodeAddress, NodeRef};
use crate::snapshot::{
    commit_follows, covers, global_root, history_ordered, latest_values, lemma_covering_unique,
    lemma_store_proof, next_snapshot, readable, snapshot_for, snapshot_wf, store_proof, value_at,
    StoreSnapshot,
};
use crate::partition::shard_of_spec;
use crate::store::ShardedStore;
use crate::value_store::{apply_values, ValueMapping, ValueUpdate};

verus! {

/// What an update says: the key, and its new value or `None` for a deletion.
pub open spec fn update_view(u: ValueUpdate) -> (Seq<u8>, Option<Seq<u8>>) {
    (
        u.0@,
        match u.1 {
            Some(v) => Some(v@),
            None => None,
        },
    )
}

/// The value of a key in a mapping, if it has one.
pub open spec fn lookup(m: ValueMapping, key: Seq<u8>) -> Option<Seq<u8>> {
    if m.contains_key(key) {
        Some(m[key])
    } else {
        None
    }
}

/// Whether no two updates of a batch are of one key.
pub open spec fn distinct_keys(ups: Seq<ValueUpdate>) -> bool {
    forall|i: int, j: int| 0 <= i < j < ups.len() ==> (#[trigger] ups[i]).0@ != (#[trigger] ups[j]).0@
}

/// Whether every update of `a` is among the updates of `b`.
pub open spec fn updates_among(a: Seq<ValueUpdate>, b: Seq<ValueUpdate>) -> bool {
    forall|i: int|
        0 <= i < a.len() ==> exists|j: int|
            0 <= j < b.len() && update_view(#[trigger] b[j]) == update_view(#[trigger] a[i])
}

/// Whether two batches hold the same updates, in whatever order.
pub open spec fn same_updates(a: Seq<ValueUpdate>, b: Seq<ValueUpdate>) -> bool {
    updates_among(a, b) && updates_among(b, a)
}

/// A key that no update of a batch names keeps what it had.
pub proof fn lemma_untouched(m: ValueMapping, ups: Seq<ValueUpdate>, key: Seq<u8>)
    requires
        forall|j: int| 0 <= j < ups.len() ==> (#[trigger] ups[j]).0@ != key,
    ensures
        lookup(apply_values(m, ups), key) == lookup(m, key),
    decreases ups.len(),
{
    if ups.len() > 0 {
        assert(ups[ups.len() - 1].0@ != key);
        lemma_untouched(m, ups.drop_last(), key);
    }
}

/// The last update of a key in a batch decides what the key has afterwards.
pub proof fn lemma_last_update(m: ValueMapping, ups: Seq<ValueUpdate>, key: Seq<u8>, i: int)
    requires
        0 <= i < ups.len(),
        ups[i].0@ == key,
        forall|j: int| i < j < ups.len() ==> (#[trigger] ups[j]).0@ != key,
    ensures
        lookup(apply_values(m, ups), key) == update_view(ups[i]).1,
    decreases ups.len(),
{
    if i < ups.len() - 1 {
        assert(ups[ups.len() - 1].0@ != key);
        lemma_last_update(m, ups.drop_last(), key, i);
    }
}

/// Batches of distinct keys that hold the same updates leave the same values,
/// whatever their order.
pub proof fn lemma_order_of_updates(m: ValueMapping, a: Seq<ValueUpdate>, b: Seq<ValueUpdate>)
    requires
        distinct_keys(a),
        distinct_keys(b),
        same_updates(a, b),
    ensures
        apply_values(m, a) == apply_values(m, b),
{
    let ma = apply_values(m, a);
    let mb = apply_values(m, b);
    assert forall|k: Seq<u8>| lookup(ma, k) == lookup(mb, k) by {
        if exists|i: int| 0 <= i < a.len() && (#[trigger] a[i]).0@ == k {
            let i = choose|i: int| 0 <= i < a.len() && (#[trigger] a[i]).0@ == k;
            let j = choose|j: int|
                0 <= j < b.len() && update_view(#[trigger] b[j]) == update_view(a[i]);
            lemma_last_update(m, a, k, i);
            lemma_last_update(m, b, k, j);
        } else {
            if exists|j: int| 0 <= j < b.len() && (#[trigger] b[j]).0@ == k {
                let j = choose|j: int| 0 <= j < b.len() && (#[trigger] b[j]).0@ == k;
                let i = choose|i: int|
                    0 <= i < a.len() && update_view(#[trigger] a[i]) == update_view(b[j]);
                assert(a[i].0@ == k);
            }
            lemma_untouched(m, a, k);
            lemma_untouched(m, b, k);
        }
    }
    assert forall|k: Seq<u8>|
        #![trigger ma.dom().contains(k)]
        #![trigger mb.dom().contains(k)]
        #![trigger ma[k]]
        ma.dom().contains(k) == mb.dom().contains(k) && (ma.dom().contains(k) ==> ma[k]
            == mb[k]) by {
        assert(lookup(ma, k) == lookup(mb, k));
    }
    assert(ma =~= mb);
}

/// The root hash of a version depends on the values that each shard ends up
/// with, not on the order in which they were written: two commits on one base
/// whose batches hold, shard by shard, the same updates of distinct keys give
/// the same snapshot and the same global root hash.
pub proof fn law_order_independence(
    base: Seq<ValueMapping>,
    version: u64,
    a: Seq<Vec<ValueUpdate>>,
    b: Seq<Vec<ValueUpdate>>,
)
    requires
        a.len() == base.len(),
        b.len() == base.len(),
        forall|s: int|
            0 <= s < base.len() ==> distinct_keys(#[trigger] a[s]@) && distinct_keys(b[s]@)
                && same_updates(a[s]@, b[s]@),
    ensures
        next_snapshot(base, version, a) == next_snapshot(base, version, b),
        global_root(next_snapshot(base, version, a)) == global_root(
            next_snapshot(base, version, b),
        ),
{
    let one = next_snapshot(base, version, a);
    let two = next_snapshot(base, version, b);
    assert forall|s: int| 0 <= s < base.len() implies one.shards[s] == two.shards[s] by {
        assert(distinct_keys(a[s]@));
        lemma_order_of_updates(base[s], a[s]@, b[s]@);
    }
    assert(one.shards =~= two.shards);
}

/// A commit that failed can be replayed: the failed attempt left the
/// committed history as it was, so the same version, base and updates are
/// accepted exactly if they were the first time, and give the snapshot and the
/// global root hash that an uninterrupted commit gives.
pub proof fn law_replay(
    before: Seq<StoreSnapshot>,
    after_failure: Seq<StoreSnapshot>,
    num_shards: nat,
    version: u64,
    base_version: Option<u64>,
    updates: Seq<Vec<ValueUpdate>>,
)
    requires
        after_failure == before,
    ensures
        commit_follows(after_failure, version, base_version) == commit_follows(
            before,
            version,
            base_version,
        ),
        next_snapshot(latest_values(after_failure, num_shards), version, updates) == next_snapshot(
            latest_values(before, num_shards),
            version,
            updates,
        ),
        global_root(next_snapshot(latest_values(after_failure, num_shards), version, updates))
            == global_root(next_snapshot(latest_values(before, num_shards), version, updates)),
{
}

/// No node address lies in two shards: an address that two shards of a store
/// hold is held by one and the same shard.
pub proof fn law_shard_disjointness(store: &ShardedStore, one: int, other: int, address: NodeAddress)
    requires
        store.wf(),
        0 <= one < store@.num_shards,
        0 <= other < store@.num_shards,
        store.shard_holds(one, address),
        store.shard_holds(other, address),
    ensures
        one == other,
        address.shard_id == one,
{
    store.lemma_shard_namespace(one, address);
    store.lemma_shard_namespace(other, address);
}

/// A node is written exactly once: a shard holds no two nodes under one
/// address, so an address names one node for good.
pub proof fn law_written_once(
    store: &ShardedStore,
    shard: int,
    one: NodeRef,
    other: NodeRef,
    address: NodeAddress,
    same: NodeAddress,
)
    requires
        store.wf(),
        0 <= shard < store@.num_shards,
        store.shard_holds_at(shard, one, address),
        store.shard_holds_at(shard, other, same),
        address@ == same@,
    ensures
        one == other,
{
    store.lemma_shard_written_once(shard, one, other, address, same);
}

/// A commit whose last update of `key` is a deletion leaves the key without a
/// value, and the proof for the key in the new snapshot shows that it has
/// none.
pub proof fn law_deletion(
    base: Seq<ValueMapping>,
    version: u64,
    updates: Seq<Vec<ValueUpdate>>,
    key: Seq<u8>,
    i: int,
)
    requires
        updates.len() == base.len(),
        key.len() == HASH_LENGTH,
        snapshot_wf(next_snapshot(base, version, updates)),
        ({
            let ups = updates[shard_of_spec(key, base.len()) as int]@;
            &&& 0 <= i < ups.len()
            &&& ups[i].0@ == key
            &&& ups[i].1 is None
            &&& forall|j: int| i < j < ups.len() ==> (#[trigger] ups[j]).0@ != key
        }),
    ensures
        value_at(next_snapshot(base, version, updates), key) is None,
        proves(
            store_proof(next_snapshot(base, version, updates), key),
            global_root(next_snapshot(base, version, updates)),
            key,
            None,
            base.len(),
        ),
{
    let next = next_snapshot(base, version, updates);
    let s = shard_of_spec(key, base.len()) as int;
    lemma_last_update(base[s], updates[s]@, key, i);
    lemma_store_proof(next, key);
}

/// A commit without an update of `key` leaves the key what it had: a value
/// stays, and a key that was deleted stays without a value.
pub proof fn law_untouched_key(
    base: StoreSnapshot,
    version: u64,
    updates: Seq<Vec<ValueUpdate>>,
    key: Seq<u8>,
)
    requires
        updates.len() == base.shards.len(),
        0 < base.shards.len(),
        forall|j: int|
            0 <= j < updates[shard_of_spec(key, base.shards.len()) as int]@.len() ==> (
            #[trigger] updates[shard_of_spec(key, base.shards.len()) as int]@[j]).0@ != key,
    ensures
        value_at(next_snapshot(base.shards, version, updates), key) == value_at(base, key),
{
    let s = shard_of_spec(key, base.shards.len()) as int;
    lemma_untouched(base.shards[s], updates[s]@, key);
}

/// A commit changes nothing for a reader pinned to an earlier version: the
/// snapshot it sees, and therefore every value, root hash and proof it is
/// given, stays what it was.
pub proof fn law_earlier_versions(
    history: Seq<StoreSnapshot>,
    retained: nat,
    next: StoreSnapshot,
    version: u64,
)
    requires
        history_ordered(history.push(next)),
        readable(history, retained, version),
    ensures
        readable(history.push(next), retained, version),
        snapshot_for(history.push(next), version) == snapshot_for(history, version),
{
    let longer = history.push(next);
    let last = history.len() - 1;
    assert(longer[last] == history[last]);
    assert(longer[retained as int] == history[retained as int]);
    assert(longer[last].version < longer[last + 1].version);
    assert forall|i: int, j: int| 0 <= i < j < history.len() implies (#[trigger] history[i]).version
        < (#[trigger] history[j]).version by {
        assert(longer[i].version < longer[j].version);
    }
    // Some snapshot of the shorter history covers the version.
    let j = lemma_cover_exists(history, retained, version);
    lemma_covering_unique(history, j, version);
    assert(longer[j] == history[j]);
    if j + 1 < history.len() {
        assert(longer[j + 1] == history[j + 1]);
    }
    assert(covers(longer, j, version));
    lemma_covering_unique(longer, j, version);
}

/// In an ordered history some snapshot covers every readable version.
pub proof fn lemma_cover_exists(history: Seq<StoreSnapshot>, retained: nat, version: u64) -> (j:
    int)
    requires
        history_ordered(history),
        readable(history, retained, version),
    ensures
        covers(history, j, version),
        retained <= j,
    decreases history.len(),
{
    let last = history.len() - 1;
    if history[last].version <= version {
        last
    } else {
        let shorter = history.drop_last();
        assert(retained < last);
        assert(shorter[retained as int] == history[retained as int]);
        assert forall|i: int, k: int| 0 <= i < k < shorter.len() implies (
        #[trigger] shorter[i]).version < (#[trigger] shorter[k]).version by {
            assert(history[i].version < history[k].version);
        }
        if shorter.last().version <= version {
            assert(shorter.last() == history[last - 1]);
            last - 1
        } else {
            let j = lemma_cover_exists(shorter, retained, version);
            assert(shorter[j] == history[j]);
            assert(shorter[j + 1] == history[j + 1]);
            j
        }
    }
}

} // verus!

//! The sharded store: the shard trees, the raw value store, and the commit
//! coordinator that moves both from one version to the next.

use vstd::prelude::*;
use crate::cache::{CachedNode, NodeCache, PartitionView};
use crate::error::Error;
use crate::hash::{lemma_hash_length, sha3_256, HashValue};
use crate::merkle_proof::{proves, MerkleProof};
use crate::node::{AddressView, NodeAddress, NodeRef};
use crate::partition::{shard_of, shard_of_spec, MAX_SHARDS};
use crate::shard::{
    latest_version, updates_in_shard, versions_consistent, ShardTree, ShardUpdate, Snapshot,
};
use crate::snapshot::{
    commit_follows, covering, covers, global_root, hashed, hashes_of, history_ordered, merge_fits,
    latest_values, lemma_covering_unique, lemma_hashed_updates, lemma_store_proof, next_snapshot,
    readable, routed, shard_roots, snapshot_for, snapshot_wf, store_proof, value_at, value_hash_at,
    StoreSnapshot,
};
use crate::merklize::{along_updates, distinct_paths};
use crate::top_level::{
    aggregate, hashes_view, proof_from_nodes, top_batch_view, top_nodes, TopNode,
};
use crate::tree::{map_root, representable};
use crate::updates::{apply_updates, HashUpdate};
use crate::value_store::{
    apply_values, copy_bytes, lemma_values_later, lemma_values_latest, lemma_values_written,
    log_within, records_of, values_at, visible, RawValueStore, RecordView, ValueUpdate,
};

verus! {

/// Where the commit coordinator stands.
///
/// A commit is received, merklized shard by shard, aggregated, and then waits
/// in `Persist` until it is known whether its batches became durable. Only
/// then does the store advance to the new version, and the commit ends in
/// `Committed`; a commit that is refused or not persisted ends in `Failed`.
#[derive(Clone, Copy, Debug, PartialEq, Eq, Structural)]
pub enum CommitPhase {
    Receive,
    Merklize,
    Aggregate,
    Persist,
    Advance,
    Committed,
    Failed,
}

/// What moves the commit coordinator from one phase to the next.
#[derive(Clone, Copy, Debug, PartialEq, Eq, Structural)]
pub enum CommitEvent {
    /// A new commit arrives.
    Begin,
    /// The work of the current phase succeeded.
    Done,
    /// The work of the current phase failed.
    Fail,
}

/// The phase that follows `phase` on `event`.
///
/// A commit is begun only where none is in flight; each phase is followed by
/// the next when its work is done; any phase before the store advances ends
/// in `Failed` when its work fails. Every other event leaves the phase as it
/// is.
pub open spec fn next_phase(phase: CommitPhase, event: CommitEvent) -> CommitPhase {
    match (phase, event) {
        (CommitPhase::Receive, CommitEvent::Begin) => CommitPhase::Receive,
        (CommitPhase::Committed, CommitEvent::Begin) => CommitPhase::Receive,
        (CommitPhase::Failed, CommitEvent::Begin) => CommitPhase::Receive,
        (CommitPhase::Receive, CommitEvent::Done) => CommitPhase::Merklize,
        (CommitPhase::Merklize, CommitEvent::Done) => CommitPhase::Aggregate,
        (CommitPhase::Aggregate, CommitEvent::Done) => CommitPhase::Persist,
        (CommitPhase::Persist, CommitEvent::Done) => CommitPhase::Advance,
        (CommitPhase::Advance, CommitEvent::Done) => CommitPhase::Committed,
        (CommitPhase::Receive, CommitEvent::Fail) => CommitPhase::Failed,
        (CommitPhase::Merklize, CommitEvent::Fail) => CommitPhase::Failed,
        (CommitPhase::Aggregate, CommitEvent::Fail) => CommitPhase::Failed,
        (CommitPhase::Persist, CommitEvent::Fail) => CommitPhase::Failed,
        _ => phase,
    }
}

impl CommitPhase {
    /// The phase that follows this one on `event`.
    pub fn step(self, event: CommitEvent) -> (next: CommitPhase)
        ensures
            next == next_phase(self, event),
    {
        match (self, event) {
            (CommitPhase::Receive, CommitEvent::Begin) => CommitPhase::Receive,
            (CommitPhase::Committed, CommitEvent::Begin) => CommitPhase::Receive,
            (CommitPhase::Failed, CommitEvent::Begin) => CommitPhase::Receive,
            (CommitPhase::Receive, CommitEvent::Done) => CommitPhase::Merklize,
            (CommitPhase::Merklize, CommitEvent::Done) => CommitPhase::Aggregate,
            (CommitPhase::Aggregate, CommitEvent::Done) => CommitPhase::Persist,
            (CommitPhase::Persist, CommitEvent::Done) => CommitPhase::Advance,
            (CommitPhase::Advance, CommitEvent::Done) => CommitPhase::Committed,
            (CommitPhase::Receive, CommitEvent::Fail) => CommitPhase::Failed,
            (CommitPhase::Merklize, CommitEvent::Fail) => CommitPhase::Failed,
            (CommitPhase::Aggregate, CommitEvent::Fail) => CommitPhase::Failed,
            (CommitPhase::Persist, CommitEvent::Fail) => CommitPhase::Failed,
            (phase, _) => phase,
        }
    }

    /// Whether a commit is in flight in this phase, so that no other can be
    /// begun.
    pub fn in_flight(self) -> (busy: bool)
        ensures
            busy == !at_rest(self),
    {
        match self {
            CommitPhase::Receive => false,
            CommitPhase::Committed => false,
            CommitPhase::Failed => false,
            _ => true,
        }
    }
}

/// Whether the outcome of the merge of one shard is what is to be persisted
/// for that shard at `version`: its root hash is `root`, and its nodes lie in
/// the namespace of the shard, carry the version, and have paths of their
/// own.
pub open spec fn shard_batch_ok(update: ShardUpdate, shard: int, version: u64, root: Seq<u8>) -> bool {
    &&& update.version == version
    &&& update.root_hash@ == root
    &&& distinct_paths(update.batch@)
    &&& forall|i: int|
        0 <= i < update.batch.len() ==> {
            &&& (#[trigger] update.batch[i]).address.shard_id == shard
            &&& update.batch[i].address.version == version
        }
}

/// Whether the batches of a pending commit are what is to be persisted for
/// the snapshot `next`: one outcome for each shard, the top-level nodes over
/// the shard roots, and the updates that lead to the snapshot's values.
pub open spec fn pending_batches(p: PendingCommit, next: StoreSnapshot, num_shards: usize) -> bool {
    &&& p.version == next.version
    &&& p.root_hash@ == global_root(next)
    &&& p.shard_updates.len() == num_shards
    &&& p.value_updates.len() == num_shards
    &&& forall|s: int|
        0 <= s < num_shards ==> shard_batch_ok(
            #[trigger] p.shard_updates[s],
            s,
            next.version,
            shard_roots(next)[s],
        )
    &&& top_batch_view(p.top_batch@) == top_nodes(shard_roots(next), num_shards, next.version, 0)
}

/// Whether no commit is in flight in `phase`.
pub open spec fn at_rest(phase: CommitPhase) -> bool {
    phase == CommitPhase::Receive || phase == CommitPhase::Committed || phase
        == CommitPhase::Failed
}

/// A committed version: its global root hash and the nodes of its top-level
/// tree.
#[derive(Debug)]
pub struct VersionEntry {
    pub version: u64,
    pub root_hash: HashValue,
    pub top: Vec<TopNode>,
}

/// A commit that waits for its batches to be persisted.
#[derive(Debug)]
pub struct PendingCommit {
    pub version: u64,
    pub root_hash: HashValue,
    pub shard_updates: Vec<ShardUpdate>,
    pub top_batch: Vec<TopNode>,
    pub value_updates: Vec<Vec<ValueUpdate>>,
}

/// The store as a mathematical value: the snapshots of its committed
/// versions, oldest first, the phase of its coordinator, and the snapshot
/// that waits to be persisted, if one does.
pub struct StoreView {
    pub num_shards: usize,
    pub history: Seq<StoreSnapshot>,
    /// The index of the earliest snapshot that is still retained; those
    /// before it were pruned and are not read any more.
    pub retained: nat,
    pub phase: CommitPhase,
    pub pending: Option<StoreSnapshot>,
}

/// The updates of one shard with every value replaced by its hash, as the
/// shard tree takes them.
pub fn hash_value_updates(updates: &Vec<ValueUpdate>) -> (hashes: Vec<HashUpdate>)
    ensures
        hashes_of(hashes@, updates@),
{
    let mut hashes: Vec<HashUpdate> = Vec::new();
    let mut i: usize = 0;
    while i < updates.len()
        invariant
            i <= updates.len(),
            hashes_of(hashes@, updates@.take(i as int)),
        decreases updates.len() - i,
    {
        let hash: Option<HashValue> = match &updates[i].1 {
            Some(v) => Some(HashValue::digest(v)),
            None => None,
        };
        let ghost before = hashes@;
        hashes.push((updates[i].0, hash));
        proof {
            let upto = updates@.take(i + 1);
            assert forall|j: int| 0 <= j < upto.len() implies {
                &&& (#[trigger] hashes@[j]).0 == upto[j].0
                &&& hashes@[j].1 is Some <==> upto[j].1 is Some
                &&& hashes@[j].1 matches Some(h) ==> h@ == sha3_256(upto[j].1->0@)
            } by {
                if j < i {
                    assert(hashes@[j] == before[j]);
                    assert(upto[j] == updates@.take(i as int)[j]);
                }
            }
        }
        i += 1;
    }
    proof {
        assert(updates@.take(updates.len() as int) =~= updates@);
    }
    hashes
}

/// The siblings of a shard tree followed by those of the top-level tree.
fn join_siblings(lower: Vec<HashValue>, upper: &Vec<HashValue>) -> (all: Vec<HashValue>)
    ensures
        hashes_view(all@) == hashes_view(lower@) + hashes_view(upper@),
{
    let ghost below = hashes_view(lower@);
    let mut siblings = lower;
    let mut i: usize = 0;
    proof {
        assert(below + hashes_view(upper@).take(0) =~= below);
    }
    while i < upper.len()
        invariant
            i <= upper.len(),
            hashes_view(siblings@) == below + hashes_view(upper@).take(i as int),
        decreases upper.len() - i,
    {
        let ghost before = hashes_view(siblings@);
        siblings.push(upper[i]);
        proof {
            assert(hashes_view(siblings@) =~= before.push(upper@[i as int]@));
            assert(hashes_view(upper@).take(i + 1) =~= hashes_view(upper@).take(i as int).push(
                upper@[i as int]@,
            ));
        }
        i += 1;
    }
    proof {
        assert(hashes_view(upper@).take(upper.len() as int) =~= hashes_view(upper@));
    }
    siblings
}

/// The sharded, versioned, authenticated key-value store.
#[derive(Debug)]
pub struct ShardedStore {
    num_shards: usize,
    trees: Vec<ShardTree>,
    values: RawValueStore,
    versions: Vec<VersionEntry>,
    retained: usize,
    pending: Option<PendingCommit>,
    phase: CommitPhase,
}

impl View for ShardedStore {
    type V = StoreView;

    closed spec fn view(&self) -> StoreView {
        StoreView {
            num_shards: self.num_shards,
            history: self.history(),
            retained: self.retained as nat,
            phase: self.phase,
            pending: match self.pending {
                Some(p) => Some(
                    next_snapshot(
                        latest_values(self.history(), self.num_shards as nat),
                        p.version,
                        p.value_updates@,
                    ),
                ),
                None => None,
            },
        }
    }
}

impl ShardedStore {
    /// The snapshot of the version `version`, read from the value store.
    spec fn snapshot(&self, version: u64) -> StoreSnapshot {
        StoreSnapshot {
            version,
            shards: Seq::new(
                self.num_shards as nat,
                |s: int| values_at(self.values.log(s), version),
            ),
        }
    }

    /// The snapshots of the committed versions.
    spec fn history(&self) -> Seq<StoreSnapshot> {
        Seq::new(self.versions.len() as nat, |j: int| self.snapshot(self.versions[j].version))
    }

    /// Whether the tree of shard `s` and the value store agree at every
    /// version.
    spec fn shard_agrees(&self, s: int) -> bool {
        &&& self.trees[s].wf()
        &&& self.trees[s]@.shard_id == s
        &&& self.trees[s]@.num_shards == self.num_shards
        &&& self.trees[s]@.history.len() == self.versions.len()
        &&& forall|j: int|
            0 <= j < self.versions.len() ==> {
                &&& (#[trigger] self.trees[s]@.history[j]).version == self.versions[j].version
                &&& self.trees[s]@.history[j].mapping == hashed(
                    values_at(self.values.log(s), self.versions[j].version),
                )
            }
        &&& if self.versions.len() == 0 {
            self.values.log(s) == Seq::<RecordView>::empty()
        } else {
            log_within(self.values.log(s), self.versions[self.versions.len() - 1].version)
        }
    }

    /// Whether the commit that waits, if one does, fits the store.
    spec fn pending_ok(&self) -> bool {
        match self.pending {
            Some(p) => {
                &&& self.phase == CommitPhase::Persist
                &&& p.shard_updates.len() == self.num_shards
                &&& p.value_updates.len() == self.num_shards
                &&& self.versions.len() > 0 ==> self.versions[self.versions.len() - 1].version
                    < p.version
                &&& forall|s: int|
                    0 <= s < self.num_shards ==> {
                        &&& self.trees[s].accepts(#[trigger] p.shard_updates[s])
                        &&& p.shard_updates[s].version == p.version
                        &&& self.trees[s].updated_mapping(p.shard_updates[s]) == hashed(
                            apply_values(
                                latest_values(self.history(), self.num_shards as nat)[s],
                                p.value_updates[s]@,
                            ),
                        )
                    }
                &&& pending_batches(
                    p,
                    next_snapshot(
                        latest_values(self.history(), self.num_shards as nat),
                        p.version,
                        p.value_updates@,
                    ),
                    self.num_shards,
                )
            },
            None => at_rest(self.phase),
        }
    }

    /// The invariant of the store.
    pub closed spec fn wf(&self) -> bool {
        &&& 0 < self.num_shards <= MAX_SHARDS
        &&& self.trees.len() == self.num_shards
        &&& self.values.wf()
        &&& self.values.shard_count() == self.num_shards
        &&& if self.versions.len() == 0 {
            self.retained == 0
        } else {
            self.retained < self.versions.len()
        }
        &&& forall|s: int| 0 <= s < self.num_shards ==> #[trigger] self.shard_agrees(s)
        &&& forall|j: int|
            0 <= j < self.versions.len() ==> {
                &&& (#[trigger] self.versions[j]).root_hash@ == global_root(
                    self.snapshot(self.versions[j].version),
                )
                &&& top_batch_view(self.versions[j].top@) == top_nodes(
                    shard_roots(self.snapshot(self.versions[j].version)),
                    self.num_shards,
                    self.versions[j].version,
                    0,
                )
            }
        &&& self.pending_ok()
    }

    /// What the invariant says of the view: versions grow along the history,
    /// every snapshot is one that a store can hold, and a commit waits exactly
    /// in the phase `Persist`.
    pub proof fn lemma_view(&self)
        requires
            self.wf(),
        ensures
            0 < self@.num_shards <= MAX_SHARDS,
            history_ordered(self@.history),
            forall|j: int|
                0 <= j < self@.history.len() ==> {
                    &&& snapshot_wf(#[trigger] self@.history[j])
                    &&& self@.history[j].shards.len() == self@.num_shards
                },
            self@.pending is Some <==> self@.phase == CommitPhase::Persist,
            self@.pending is None <==> at_rest(self@.phase),
            if self@.history.len() == 0 {
                self@.retained == 0
            } else {
                self@.retained < self@.history.len()
            },
    {
        let h = self@.history;
        assert(self.shard_agrees(0));
        self.trees[0].lemma_history();
        assert forall|i: int, j: int| 0 <= i < j < h.len() implies (#[trigger] h[i]).version < (
        #[trigger] h[j]).version by {
            let th = self.trees[0]@.history;
            assert(th[i].version < th[j].version);
        }
        assert forall|j: int| 0 <= j < h.len() implies {
            &&& snapshot_wf(#[trigger] h[j])
            &&& h[j].shards.len() == self@.num_shards
        } by {
            self.lemma_snapshot(j);
        }
    }

    /// The snapshot of a committed version is the one that the shard trees
    /// hold.
    proof fn lemma_snapshot(&self, j: int)
        requires
            self.wf(),
            0 <= j < self.versions.len(),
        ensures
            snapshot_wf(self.history()[j]),
            self.history()[j].shards.len() == self.num_shards,
            self.history()[j].version == self.versions[j].version,
            forall|s: int|
                0 <= s < self.num_shards ==> (#[trigger] self.trees[s])@.history[j].mapping
                    == hashed(self.history()[j].shards[s]),
    {
        let snap = self.history()[j];
        assert forall|s: int| 0 <= s < self.num_shards implies representable(
            hashed(#[trigger] snap.shards[s]),
        ) && self.trees[s]@.history[j].mapping == hashed(snap.shards[s]) by {
            assert(self.shard_agrees(s));
            assert(self.trees[s]@.history[j].version == self.versions[j].version);
            self.trees[s].lemma_representable(j);
        }
    }

    /// Whether the shard `shard` holds a node under the address `address`.
    pub closed spec fn shard_holds(&self, shard: int, address: NodeAddress) -> bool {
        self.trees[shard].holds(address)
    }

    /// Whether the shard `shard` holds, at the place `at` of its arena, a node
    /// under the address `address`.
    pub closed spec fn shard_holds_at(&self, shard: int, at: NodeRef, address: NodeAddress) -> bool {
        self.trees[shard].holds_at(at, address)
    }

    /// A shard holds no two nodes of one version and one path.
    pub proof fn lemma_shard_written_once(
        &self,
        shard: int,
        one: NodeRef,
        other: NodeRef,
        address: NodeAddress,
        same: NodeAddress,
    )
        requires
            self.wf(),
            0 <= shard < self@.num_shards,
            self.shard_holds_at(shard, one, address),
            self.shard_holds_at(shard, other, same),
            address.version == same.version,
            address.path@ == same.path@,
        ensures
            one == other,
    {
        assert(self.shard_agrees(shard));
        self.trees[shard].lemma_written_once(one, other, address, same);
    }

    /// Every node of a shard lies in the namespace of that shard.
    pub proof fn lemma_shard_namespace(&self, shard: int, address: NodeAddress)
        requires
            self.wf(),
            0 <= shard < self@.num_shards,
            self.shard_holds(shard, address),
        ensures
            address.shard_id == shard,
    {
        assert(self.shard_agrees(shard));
        self.trees[shard].lemma_namespace(address);
    }

    /// An empty store of `num_shards` shards, or `None` where the number of
    /// shards is not between 1 and 256.
    pub fn new(num_shards: usize) -> (store: Option<ShardedStore>)
        ensures
            store is Some <==> 0 < num_shards <= MAX_SHARDS,
            store matches Some(s) ==> {
                &&& s.wf()
                &&& s@.num_shards == num_shards
                &&& s@.history == Seq::<StoreSnapshot>::empty()
                &&& s@.retained == 0
                &&& s@.phase == CommitPhase::Receive
                &&& s@.pending is None
            },
    {
        if num_shards == 0 || num_shards > MAX_SHARDS {
            return None;
        }
        let mut trees: Vec<ShardTree> = Vec::new();
        let mut i: usize = 0;
        while i < num_shards
            invariant
                i <= num_shards <= MAX_SHARDS,
                trees.len() == i,
                forall|s: int|
                    0 <= s < i ==> {
                        &&& (#[trigger] trees[s]).wf()
                        &&& trees[s]@.shard_id == s
                        &&& trees[s]@.num_shards == num_shards
                        &&& trees[s]@.history == Seq::<Snapshot>::empty()
                    },
            decreases num_shards - i,
        {
            trees.push(ShardTree::new(i, num_shards));
            i += 1;
        }
        let store = ShardedStore {
            num_shards,
            trees,
            values: RawValueStore::new(num_shards),
            versions: Vec::new(),
            retained: 0,
            pending: None,
            phase: CommitPhase::Receive,
        };
        proof {
            assert forall|s: int| 0 <= s < num_shards implies #[trigger] store.shard_agrees(s) by {
                assert(store.trees[s].wf());
            }
            assert(store@.history =~= Seq::<StoreSnapshot>::empty());
        }
        Some(store)
    }

    /// The number of shards of the store.
    pub fn num_shards(&self) -> (n: usize)
        ensures
            n == self@.num_shards,
    {
        self.num_shards
    }

    /// The phase of the commit coordinator.
    pub fn phase(&self) -> (phase: CommitPhase)
        ensures
            phase == self@.phase,
    {
        self.phase
    }

    /// The latest committed version, if there is one.
    pub fn latest_version(&self) -> (latest: Option<u64>)
        ensures
            latest == (if self@.history.len() == 0 {
                None
            } else {
                Some(self@.history.last().version)
            }),
    {
        if self.versions.len() == 0 {
            None
        } else {
            Some(self.versions[self.versions.len() - 1].version)
        }
    }

    /// The tree of the shard `shard`.
    pub fn shard(&self, shard: usize) -> (tree: &ShardTree)
        requires
            self.wf(),
            shard < self@.num_shards,
        ensures
            tree.wf(),
            tree@.shard_id == shard,
            tree@.num_shards == self@.num_shards,
            tree@.history.len() == self@.history.len(),
            forall|j: int|
                0 <= j < self@.history.len() ==> {
                    &&& (#[trigger] tree@.history[j]).version == self@.history[j].version
                    &&& tree@.history[j].mapping == hashed(self@.history[j].shards[shard as int])
                },
    {
        proof {
            assert(self.shard_agrees(shard as int));
        }
        &self.trees[shard]
    }

    /// The commit that waits to be persisted, with the batches to write: the
    /// new nodes of every shard, the top-level nodes, and the value records.
    pub fn pending(&self) -> (pending: &Option<PendingCommit>)
        requires
            self.wf(),
        ensures
            pending is Some <==> self@.pending is Some,
            pending matches Some(p) ==> {
                &&& self@.pending == Some(
                    next_snapshot(
                        latest_values(self@.history, self@.num_shards as nat),
                        p.version,
                        p.value_updates@,
                    ),
                )
                &&& pending_batches(*p, self@.pending->0, self@.num_shards)
            },
    {
        &self.pending
    }

    /// The index of the committed version that a reader pinned to `version`
    /// sees, or a version error where `version` lies before the first or after
    /// the last committed version.
    fn resolve(&self, version: u64) -> (res: Result<usize, Error>)
        requires
            self.wf(),
        ensures
            res is Ok <==> readable(self@.history, self@.retained, version),
            res matches Err(e) ==> e == Error::VersionError,
            res matches Ok(j) ==> j < self.versions.len() && j == covering(self@.history, version)
                && covers(self@.history, j as int, version),
    {
        let n = self.versions.len();
        if n == 0 || version < self.versions[self.retained].version || version > self.versions[n
            - 1].version {
            return Err(Error::VersionError);
        }
        proof {
            self.lemma_view();
            if self.retained > 0 {
                assert(self@.history[0].version < self@.history[self.retained as int].version);
            }
        }
        let mut i: usize = n - 1;
        while self.versions[i].version > version
            invariant
                i < self.versions.len(),
                self.versions[0].version <= version,
                i + 1 < self.versions.len() ==> version < self.versions[i + 1].version,
            decreases i,
        {
            i -= 1;
        }
        proof {
            assert(covers(self@.history, i as int, version));
            lemma_covering_unique(self@.history, i as int, version);
        }
        Ok(i)
    }

    /// The global root hash of the store as a reader pinned to `version` sees
    /// it. The version is refused where it lies before the first or after the
    /// last committed version.
    pub fn get_root_hash(&self, version: u64) -> (res: Result<HashValue, Error>)
        requires
            self.wf(),
        ensures
            res is Ok <==> readable(self@.history, self@.retained, version),
            res matches Err(e) ==> e == Error::VersionError,
            res matches Ok(h) ==> h@ == global_root(snapshot_for(self@.history, version)),
    {
        match self.resolve(version) {
            Ok(j) => Ok(self.versions[j].root_hash),
            Err(e) => Err(e),
        }
    }

    /// The value of `key` as a reader pinned to `version` sees it, with the
    /// proof that shows it against the global root hash of that version. For
    /// a key without a value the result holds no value, and the proof shows
    /// that there is none.
    ///
    /// The version is refused where it lies before the first or after the
    /// last committed version.
    #[verifier::rlimit(30)]
    pub fn get_with_proof(&self, key: &HashValue, version: u64) -> (res: Result<
        (Option<Vec<u8>>, MerkleProof),
        Error,
    >)
        requires
            self.wf(),
        ensures
            res is Ok <==> readable(self@.history, self@.retained, version),
            res matches Err(e) ==> e == Error::VersionError,
            res matches Ok(found) ==> {
                let snap = snapshot_for(self@.history, version);
                &&& match found.0 {
                    Some(v) => value_at(snap, key@) == Some(v@),
                    None => value_at(snap, key@) is None,
                }
                &&& found.1@ == store_proof(snap, key@)
                &&& proves(
                    found.1@,
                    global_root(snap),
                    key@,
                    value_hash_at(snap, key@),
                    self@.num_shards as nat,
                )
            },
    {
        let j = match self.resolve(version) {
            Ok(j) => j,
            Err(e) => {
                return Err(e);
            },
        };
        let ghost snap = self@.history[j as int];
        let shard = shard_of(key, self.num_shards);
        let committed = self.versions[j].version;
        proof {
            self.lemma_snapshot(j as int);
            assert(self.shard_agrees(shard as int));
            lemma_hash_length(*key);
            lemma_store_proof(snap, key@);
        }
        let below = self.trees[shard].prove(j, key);
        let above = proof_from_nodes(
            &self.versions[j].top,
            self.num_shards,
            shard,
            Ghost(shard_roots(snap)),
            Ghost(self.num_shards),
            Ghost(committed),
        );
        let siblings = join_siblings(below.siblings, &above);
        let proof = MerkleProof { leaf: below.leaf, siblings };
        let value: Option<Vec<u8>> = match self.values.get(key, committed) {
            Some(v) => Some(copy_bytes(v)),
            None => None,
        };
        proof {
            assert(proof@ == store_proof(snap, key@));
        }
        Ok((value, proof))
    }

    /// Whether a cache goes with the store: it has one partition for each
    /// shard and one for the top-level tree, and every entry of a shard's
    /// partition is a true copy of a node of that shard. Nodes never change,
    /// so a cache that goes with the store goes with it after every commit.
    pub closed spec fn coherent(&self, cache: Seq<PartitionView<CachedNode>>) -> bool {
        &&& cache.len() == self.num_shards + 1
        &&& forall|s: int|
            0 <= s < self.num_shards ==> self.trees[s].caches(#[trigger] cache[s].entries)
    }

    /// A cache without entries and with a partition for each shard and one
    /// for the top-level tree goes with the store.
    pub proof fn lemma_empty_cache(&self, cache: Seq<PartitionView<CachedNode>>)
        requires
            cache.len() == self@.num_shards + 1,
            forall|p: int| 0 <= p < cache.len() ==> (#[trigger] cache[p]).entries.len() == 0,
        ensures
            self.coherent(cache),
    {
        assert forall|s: int| 0 <= s < self.num_shards implies self.trees[s].caches(
            #[trigger] cache[s].entries,
        ) by {
            self.trees[s].lemma_caches_nothing(cache[s].entries);
        }
    }

    /// An empty cache for the store, with the capacity `capacity` for each
    /// shard and `top_capacity` for the top-level tree.
    pub fn new_cache(&self, capacity: usize, top_capacity: usize) -> (cache: NodeCache<CachedNode>)
        requires
            self.wf(),
        ensures
            cache.wf(),
            self.coherent(cache@),
            forall|p: int|
                0 <= p < self@.num_shards ==> (#[trigger] cache@[p]).capacity == capacity
                    && cache@[p].entries.len() == 0,
            cache@[self@.num_shards as int].capacity == top_capacity,
            cache@[self@.num_shards as int].entries.len() == 0,
    {
        let cache = NodeCache::new(self.num_shards, capacity, top_capacity);
        proof {
            assert forall|s: int| 0 <= s < self.num_shards implies self.trees[s].caches(
                #[trigger] cache@[s].entries,
            ) by {
                self.trees[s].lemma_caches_nothing(cache@[s].entries);
            }
        }
        cache
    }

    /// What `get_with_proof` gives, with the nodes of the shard tree read
    /// through the cache. The result does not depend on what the cache held;
    /// only the partition of the key's shard is touched.
    #[verifier::rlimit(30)]
    pub fn get_with_proof_cached(
        &self,
        cache: &mut NodeCache<CachedNode>,
        key: &HashValue,
        version: u64,
    ) -> (res: Result<(Option<Vec<u8>>, MerkleProof), Error>)
        requires
            self.wf(),
            old(cache).wf(),
            self.coherent(old(cache)@),
        ensures
            res is Ok <==> readable(self@.history, self@.retained, version),
            res matches Err(e) ==> e == Error::VersionError,
            res matches Ok(found) ==> {
                let snap = snapshot_for(self@.history, version);
                &&& match found.0 {
                    Some(v) => value_at(snap, key@) == Some(v@),
                    None => value_at(snap, key@) is None,
                }
                &&& found.1@ == store_proof(snap, key@)
                &&& proves(
                    found.1@,
                    global_root(snap),
                    key@,
                    value_hash_at(snap, key@),
                    self@.num_shards as nat,
                )
            },
            final(cache).wf(),
            self.coherent(final(cache)@),
            forall|p: int|
                0 <= p < old(cache)@.len() ==> (#[trigger] final(cache)@[p]).capacity == old(
                    cache,
                )@[p].capacity,
            forall|p: int|
                0 <= p < old(cache)@.len() && p != shard_of_spec(key@, self@.num_shards as nat)
                    ==> #[trigger] final(cache)@[p] == old(cache)@[p],
    {
        let j = match self.resolve(version) {
            Ok(j) => j,
            Err(e) => {
                return Err(e);
            },
        };
        let ghost snap = self@.history[j as int];
        let ghost held = cache@;
        let shard = shard_of(key, self.num_shards);
        let committed = self.versions[j].version;
        proof {
            self.lemma_snapshot(j as int);
            assert(self.shard_agrees(shard as int));
            lemma_hash_length(*key);
            lemma_store_proof(snap, key@);
            assert(self.trees[shard as int].caches(held[shard as int].entries));
        }
        let below = self.trees[shard].prove_cached(cache, j, key);
        proof {
            assert forall|s: int| 0 <= s < self.num_shards implies self.trees[s].caches(
                #[trigger] cache@[s].entries,
            ) by {
                if s != shard {
                    assert(cache@[s] == held[s]);
                    assert(self.trees[s].caches(held[s].entries));
                }
            }
        }
        let above = proof_from_nodes(
            &self.versions[j].top,
            self.num_shards,
            shard,
            Ghost(shard_roots(snap)),
            Ghost(self.num_shards),
            Ghost(committed),
        );
        let proof = MerkleProof { leaf: below.leaf, siblings: join_siblings(below.siblings, &above) };
        let value: Option<Vec<u8>> = match self.values.get(key, committed) {
            Some(v) => Some(copy_bytes(v)),
            None => None,
        };
        proof {
            assert(proof@ == store_proof(snap, key@));
        }
        Ok((value, proof))
    }

    /// Takes note that everything before `version` was pruned: the snapshot
    /// that a reader pinned to `version` sees becomes the earliest retained
    /// one, and earlier versions are refused from now on. Nothing else
    /// changes, and no later version reads differently.
    ///
    /// A version that cannot be read is refused, and nothing is pruned.
    pub fn retain_from(&mut self, version: u64) -> (res: Result<(), Error>)
        requires
            old(self).wf(),
        ensures
            final(self).wf(),
            final(self)@.num_shards == old(self)@.num_shards,
            final(self)@.history == old(self)@.history,
            final(self)@.phase == old(self)@.phase,
            final(self)@.pending == old(self)@.pending,
            forall|c: Seq<PartitionView<CachedNode>>|
                old(self).coherent(c) ==> #[trigger] final(self).coherent(c),
            res is Ok <==> readable(old(self)@.history, old(self)@.retained, version),
            res matches Err(e) ==> e == Error::VersionError && final(self)@.retained == old(
                self,
            )@.retained,
            res is Ok ==> final(self)@.retained == covering(old(self)@.history, version),
    {
        let ghost start = *self;
        match self.resolve(version) {
            Ok(j) => {
                self.retained = j;
                proof {
                    assert forall|s: int| 0 <= s < self.num_shards implies #[trigger] self.shard_agrees(
                        s,
                    ) by {
                        assert(start.shard_agrees(s));
                    }
                    assert forall|i: int| 0 <= i < self.versions.len() implies {
                        &&& (#[trigger] self.versions[i]).root_hash@ == global_root(
                            self.snapshot(self.versions[i].version),
                        )
                        &&& top_batch_view(self.versions[i].top@) == top_nodes(
                            shard_roots(self.snapshot(self.versions[i].version)),
                            self.num_shards,
                            self.versions[i].version,
                            0,
                        )
                    } by {
                        assert(self.snapshot(self.versions[i].version) == start.snapshot(
                            start.versions[i].version,
                        ));
                    }
                    assert(self.history() =~= start.history());
                    Self::lemma_same_trees(start, *self);
                }
                Ok(())
            },
            Err(e) => Err(e),
        }
    }

    /// The value of `key` as a reader pinned to `version` sees it. A key
    /// without a value at that version is reported as not found.
    pub fn get(&self, key: &HashValue, version: u64) -> (res: Result<Vec<u8>, Error>)
        requires
            self.wf(),
        ensures
            res is Ok <==> readable(self@.history, self@.retained, version) && value_at(
                snapshot_for(self@.history, version),
                key@,
            ) is Some,
            res matches Ok(v) ==> value_at(snapshot_for(self@.history, version), key@) == Some(v@),
            res matches Err(e) ==> e == (if readable(self@.history, self@.retained, version) {
                Error::NotFound
            } else {
                Error::VersionError
            }),
    {
        let j = match self.resolve(version) {
            Ok(j) => j,
            Err(e) => {
                return Err(e);
            },
        };
        proof {
            self.lemma_snapshot(j as int);
        }
        match self.values.get(key, self.versions[j].version) {
            Some(v) => Ok(copy_bytes(v)),
            None => Err(Error::NotFound),
        }
    }

    /// Merges the updates of `target_version` into the tree of the shard
    /// `shard_id`, without changing the store. Shards share no state, so the
    /// merges of one version can run side by side.
    ///
    /// A shard id that is none of the store's, and a key that belongs to
    /// another shard, are refused as a shard mismatch; versions that do not
    /// fit the shard as a version error.
    pub fn merklize(
        &self,
        shard_id: usize,
        updates: &Vec<HashUpdate>,
        base_version: Option<u64>,
        target_version: u64,
        persisted_version: Option<u64>,
    ) -> (res: Result<ShardUpdate, Error>)
        requires
            self.wf(),
        ensures
            res matches Ok(u) ==> {
                &&& shard_id < self@.num_shards
                &&& u.version == target_version
                &&& u.root_hash@ == map_root(
                    apply_updates(
                        match base_version {
                            Some(b) => hashed(
                                snapshot_for(self@.history, b).shards[shard_id as int],
                            ),
                            None => Map::empty(),
                        },
                        updates@,
                    ),
                )
                &&& updates.len() == 0 ==> u.batch.len() == 0
                &&& forall|i: int|
                    0 <= i < u.batch.len() ==> {
                        &&& (#[trigger] u.batch[i]).address.shard_id == shard_id
                        &&& u.batch[i].address.version == target_version
                    }
                &&& along_updates(u.batch@, updates@)
                &&& distinct_paths(u.batch@)
            },
            res is Ok <==> {
                &&& shard_id < self@.num_shards
                &&& updates_in_shard(updates@, shard_id, self@.num_shards)
                &&& merge_fits(self@.history, base_version, target_version, persisted_version)
            },
            res matches Err(e) ==> e == (if shard_id < self@.num_shards && !merge_fits(
                self@.history,
                base_version,
                target_version,
                persisted_version,
            ) {
                Error::VersionError
            } else {
                Error::ShardMismatch
            }),
    {
        if shard_id >= self.num_shards {
            return Err(Error::ShardMismatch);
        }
        proof {
            assert(self.shard_agrees(shard_id as int));
        }
        let res = self.trees[shard_id].merklize(
            updates,
            base_version,
            target_version,
            persisted_version,
        );
        proof {
            let tree = self.trees[shard_id as int];
            let th = tree@.history;
            let h = self@.history;
            assert(self.shard_agrees(shard_id as int));
            self.lemma_view();
            tree.lemma_history();
            assert forall|j: int| 0 <= j < h.len() implies (#[trigger] th[j]).version
                == h[j].version by {}
            if let Some(b) = base_version {
                if crate::shard::has_version(th, b) {
                    let j = crate::shard::index_of(th, b);
                    assert(h[j].version == b);
                }
                if exists|j: int| 0 <= j < h.len() && #[trigger] h[j].version == b {
                    let j = choose|j: int| 0 <= j < h.len() && #[trigger] h[j].version == b;
                    assert(th[j].version == b);
                    let i = crate::shard::index_of(th, b);
                    if i < j {
                        assert(th[i].version < th[j].version);
                    }
                    if j < i {
                        assert(th[j].version < th[i].version);
                    }
                    if j + 1 < h.len() {
                        assert(h[j].version < h[j + 1].version);
                    }
                    assert(covers(h, j, b));
                    lemma_covering_unique(h, j, b);
                    self.lemma_snapshot(j);
                }
            }
            if h.len() > 0 {
                assert(th[th.len() - 1].version == h[h.len() - 1].version);
            }
        }
        res
    }

    /// Merklizes every shard for the commit of `version` on `base_version`
    /// and aggregates the shard roots, without changing the store.
    #[verifier::rlimit(50)]
    fn prepare(&self, version: u64, base_version: Option<u64>, updates: &Vec<Vec<ValueUpdate>>) -> (res:
        Result<(HashValue, Vec<ShardUpdate>, Vec<TopNode>, CommitPhase), (Error, CommitPhase)>)
        requires
            self.wf(),
            !(self.phase == CommitPhase::Persist),
        ensures
            res is Ok <==> commit_follows(self.history(), version, base_version) && routed(
                updates@,
                self.num_shards,
            ),
            res matches Err(e) ==> {
                &&& e.0 == (if commit_follows(self.history(), version, base_version) {
                    Error::ShardMismatch
                } else {
                    Error::VersionError
                })
                &&& e.1 == CommitPhase::Failed
            },
            res matches Ok(out) ==> {
                let base = latest_values(self.history(), self.num_shards as nat);
                &&& out.3 == CommitPhase::Persist
                &&& out.1.len() == self.num_shards
                &&& out.0@ == global_root(next_snapshot(base, version, updates@))
                &&& forall|t: int|
                    0 <= t < self.num_shards ==> {
                        &&& self.trees[t].accepts(#[trigger] out.1[t])
                        &&& out.1[t].version == version
                        &&& self.trees[t].updated_mapping(out.1[t]) == hashed(
                            apply_values(base[t], updates[t]@),
                        )
                        &&& shard_batch_ok(
                            out.1[t],
                            t,
                            version,
                            shard_roots(next_snapshot(base, version, updates@))[t],
                        )
                    }
                &&& top_batch_view(out.2@) == top_nodes(
                    shard_roots(next_snapshot(base, version, updates@)),
                    self.num_shards,
                    version,
                    0,
                )
            },
    {
        let ghost base = latest_values(self.history(), self.num_shards as nat);
        let ghost next = next_snapshot(base, version, updates@);
        proof {
            self.lemma_view();
            if self.history().len() > 0 {
                self.lemma_snapshot(self.history().len() - 1);
            }
            assert(base.len() == self.num_shards);
        }
        // Receive.
        let mut phase = self.phase.step(CommitEvent::Begin);
        let latest = self.latest_version();
        let follows: bool = match (latest, base_version) {
            (None, None) => true,
            (Some(l), Some(b)) => l == b && l < version,
            _ => false,
        };
        if !follows {
            return Err((Error::VersionError, phase.step(CommitEvent::Fail)));
        }
        if updates.len() != self.num_shards {
            return Err((Error::ShardMismatch, phase.step(CommitEvent::Fail)));
        }
        // Merklize: every shard on its own; one failure fails the version.
        phase = phase.step(CommitEvent::Done);
        let mut shard_updates: Vec<ShardUpdate> = Vec::new();
        let mut roots: Vec<HashValue> = Vec::new();
        let mut s: usize = 0;
        while s < self.num_shards
            invariant
                self.wf(),
                phase == CommitPhase::Merklize,
                s <= self.num_shards,
                updates.len() == self.num_shards,
                shard_updates.len() == s,
                roots.len() == s,
                latest == (if self.history().len() == 0 {
                    None
                } else {
                    Some(self.history().last().version)
                }),
                commit_follows(self.history(), version, base_version),
                base == latest_values(self.history(), self.num_shards as nat),
                forall|t: int, i: int|
                    0 <= t < s && 0 <= i < updates[t].len() ==> shard_of_spec(
                        #[trigger] updates[t][i].0@,
                        self.num_shards as nat,
                    ) == t,
                forall|t: int|
                    0 <= t < s ==> {
                        &&& self.trees[t].accepts(#[trigger] shard_updates[t])
                        &&& shard_updates[t].version == version
                        &&& self.trees[t].updated_mapping(shard_updates[t]) == hashed(
                            apply_values(base[t], updates[t]@),
                        )
                        &&& shard_batch_ok(
                            shard_updates[t],
                            t,
                            version,
                            map_root(hashed(apply_values(base[t], updates[t]@))),
                        )
                    },
                forall|t: int|
                    0 <= t < s ==> (#[trigger] roots[t])@ == map_root(
                        hashed(apply_values(base[t], updates[t]@)),
                    ),
            decreases self.num_shards - s,
        {
            let hashes = hash_value_updates(&updates[s]);
            proof {
                self.lemma_merge_base(s as int, base_version, version);
                lemma_hashed_updates(base[s as int], hashes@, updates[s as int]@);
            }
            match self.trees[s].merklize(&hashes, base_version, version, latest) {
                Ok(u) => {
                    proof {
                        assert forall|i: int| 0 <= i < updates[s as int].len() implies shard_of_spec(
                            #[trigger] updates[s as int][i].0@,
                            self.num_shards as nat,
                        ) == s by {
                            assert(hashes@[i].0 == updates[s as int][i].0);
                            assert(shard_of_spec(hashes@[i].0@, self.num_shards as nat) == s);
                        }
                    }
                    let ghost done_updates = shard_updates@;
                    let ghost done_roots = roots@;
                    roots.push(u.root_hash);
                    shard_updates.push(u);
                    proof {
                        assert forall|t: int, i: int|
                            0 <= t < s + 1 && 0 <= i < updates[t].len() implies shard_of_spec(
                            #[trigger] updates[t][i].0@,
                            self.num_shards as nat,
                        ) == t by {
                            if t == s {
                                assert(shard_of_spec(
                                    updates[s as int][i].0@,
                                    self.num_shards as nat,
                                ) == s);
                            }
                        }
                        assert forall|t: int| 0 <= t < s + 1 implies {
                            &&& self.trees[t].accepts(#[trigger] shard_updates[t])
                            &&& shard_updates[t].version == version
                            &&& self.trees[t].updated_mapping(shard_updates[t]) == hashed(
                                apply_values(base[t], updates[t]@),
                            )
                            &&& shard_batch_ok(
                                shard_updates[t],
                                t,
                                version,
                                map_root(hashed(apply_values(base[t], updates[t]@))),
                            )
                        } by {
                            if t < s {
                                assert(shard_updates[t] == done_updates[t]);
                            }
                        }
                        assert forall|t: int| 0 <= t < s + 1 implies (#[trigger] roots[t])@
                            == map_root(hashed(apply_values(base[t], updates[t]@))) by {
                            if t < s {
                                assert(roots[t] == done_roots[t]);
                            }
                        }
                    }
                },
                Err(e) => {
                    proof {
                        let i = choose|i: int|
                            0 <= i < hashes@.len() && shard_of_spec(
                                #[trigger] hashes@[i].0@,
                                self.num_shards as nat,
                            ) != s;
                        assert(hashes@[i].0 == updates[s as int][i].0);
                        assert(shard_of_spec(updates@[s as int][i].0@, self.num_shards as nat) != s);
                    }
                    return Err((e, phase.step(CommitEvent::Fail)));
                },
            }
            s += 1;
        }
        // Aggregate: only now that every shard has returned.
        phase = phase.step(CommitEvent::Done);
        proof {
            assert(next.shards.len() == self.num_shards);
            assert forall|t: int| 0 <= t < self.num_shards implies hashes_view(roots@)[t]
                == shard_roots(next)[t] by {
                assert(roots[t]@ == map_root(hashed(apply_values(base[t], updates[t]@))));
            }
            assert(hashes_view(roots@) =~= shard_roots(next));
            assert forall|t: int| 0 <= t < self.num_shards implies shard_batch_ok(
                #[trigger] shard_updates[t],
                t,
                version,
                shard_roots(next)[t],
            ) by {
                assert(shard_roots(next)[t] == map_root(hashed(apply_values(base[t], updates[t]@))));
            }
        }
        match aggregate(&roots, version, self.num_shards) {
            Ok(out) => Ok((out.0, shard_updates, out.1, phase.step(CommitEvent::Done))),
            Err(e) => Err((e, phase.step(CommitEvent::Fail))),
        }
    }

    /// A store that differs from a well-formed one in its phase alone, and
    /// holds no pending commit, is well formed.
    proof fn lemma_phase_only(before: ShardedStore, after: ShardedStore)
        requires
            before.wf(),
            after.num_shards == before.num_shards,
            after.trees == before.trees,
            after.values == before.values,
            after.versions == before.versions,
            after.retained == before.retained,
            after.pending is None,
            at_rest(after.phase),
        ensures
            after.wf(),
            after@.history == before@.history,
            after@.retained == before@.retained,
            after@.num_shards == before@.num_shards,
            after@.pending is None,
            after@.phase == after.phase,
    {
        assert forall|s: int| 0 <= s < after.num_shards implies #[trigger] after.shard_agrees(s) by {
            assert(before.shard_agrees(s));
        }
        assert forall|j: int| 0 <= j < after.versions.len() implies {
            &&& (#[trigger] after.versions[j]).root_hash@ == global_root(
                after.snapshot(after.versions[j].version),
            )
            &&& top_batch_view(after.versions[j].top@) == top_nodes(
                shard_roots(after.snapshot(after.versions[j].version)),
                after.num_shards,
                after.versions[j].version,
                0,
            )
        } by {
            assert(after.snapshot(after.versions[j].version) == before.snapshot(
                before.versions[j].version,
            ));
        }
        assert(after.history() =~= before.history());
    }

    /// A cache that goes with a store goes with every store of the same
    /// trees.
    proof fn lemma_same_trees(before: ShardedStore, after: ShardedStore)
        requires
            after.num_shards == before.num_shards,
            after.trees == before.trees,
        ensures
            forall|c: Seq<PartitionView<CachedNode>>|
                before.coherent(c) ==> #[trigger] after.coherent(c),
    {
    }

    /// A cache that goes with a store goes with it when its trees have
    /// grown.
    proof fn lemma_grown_trees(before: ShardedStore, after: ShardedStore)
        requires
            after.num_shards == before.num_shards,
            forall|t: int, entries: Seq<(AddressView, CachedNode)>|
                0 <= t < before.num_shards && before.trees[t].caches(entries)
                    ==> #[trigger] after.trees[t].caches(entries),
        ensures
            forall|c: Seq<PartitionView<CachedNode>>|
                before.coherent(c) ==> #[trigger] after.coherent(c),
    {
        assert forall|c: Seq<PartitionView<CachedNode>>| before.coherent(c) implies #[trigger] after.coherent(
            c,
        ) by {
            assert forall|s: int| 0 <= s < after.num_shards implies after.trees[s].caches(
                #[trigger] c[s].entries,
            ) by {
                assert(before.trees[s].caches(c[s].entries));
            }
        }
    }

    /// Receives the commit of `version` on `base_version`, merklizes every
    /// shard, aggregates the shard roots, and leaves the commit waiting in the
    /// phase `Persist`, with its batches at hand through `pending`. Nothing of
    /// it is visible to readers yet. Returns the global root hash that the
    /// version will have.
    ///
    /// While another commit waits in `Persist` the request is refused with a
    /// version error and that commit stays as it is. Otherwise the commit is
    /// refused, and ends in `Failed`, with a version error where it does not
    /// follow the latest committed version, and with a shard mismatch where
    /// its updates are not routed.
    #[verifier::rlimit(30)]
    pub fn begin_commit(
        &mut self,
        version: u64,
        base_version: Option<u64>,
        updates: Vec<Vec<ValueUpdate>>,
    ) -> (res: Result<HashValue, Error>)
        requires
            old(self).wf(),
        ensures
            final(self).wf(),
            final(self)@.num_shards == old(self)@.num_shards,
            final(self)@.retained == old(self)@.retained,
            final(self)@.history == old(self)@.history,
            forall|c: Seq<PartitionView<CachedNode>>|
                old(self).coherent(c) ==> #[trigger] final(self).coherent(c),
            old(self)@.phase == CommitPhase::Persist ==> res == Err::<HashValue, Error>(
                Error::VersionError,
            ) && final(self)@ == old(self)@,
            old(self)@.phase != CommitPhase::Persist ==> {
                &&& res is Ok <==> commit_follows(old(self)@.history, version, base_version)
                    && routed(updates@, old(self)@.num_shards)
                &&& res matches Err(e) ==> {
                    &&& e == (if commit_follows(old(self)@.history, version, base_version) {
                        Error::ShardMismatch
                    } else {
                        Error::VersionError
                    })
                    &&& final(self)@.phase == CommitPhase::Failed
                    &&& final(self)@.pending is None
                }
                &&& res matches Ok(h) ==> {
                    &&& final(self)@.phase == CommitPhase::Persist
                    &&& final(self)@.pending == Some(
                        next_snapshot(
                            latest_values(old(self)@.history, old(self)@.num_shards as nat),
                            version,
                            updates@,
                        ),
                    )
                    &&& h@ == global_root(final(self)@.pending->0)
                }
            },
    {
        if let CommitPhase::Persist = self.phase {
            return Err(Error::VersionError);
        }
        let ghost start = *self;
        match self.prepare(version, base_version, &updates) {
            Err((e, phase)) => {
                self.phase = phase;
                proof {
                    Self::lemma_phase_only(start, *self);
                    Self::lemma_same_trees(start, *self);
                }
                Err(e)
            },
            Ok((root_hash, shard_updates, top_batch, phase)) => {
                let pending = PendingCommit {
                    version,
                    root_hash,
                    shard_updates,
                    top_batch,
                    value_updates: updates,
                };
                self.pending = Some(pending);
                self.phase = phase;
                proof {
                    assert forall|s: int| 0 <= s < self.num_shards implies #[trigger] self.shard_agrees(
                        s,
                    ) by {
                        assert(start.shard_agrees(s));
                    }
                    assert forall|j: int| 0 <= j < self.versions.len() implies {
                        &&& (#[trigger] self.versions[j]).root_hash@ == global_root(
                            self.snapshot(self.versions[j].version),
                        )
                        &&& top_batch_view(self.versions[j].top@) == top_nodes(
                            shard_roots(self.snapshot(self.versions[j].version)),
                            self.num_shards,
                            self.versions[j].version,
                            0,
                        )
                    } by {
                        assert(self.snapshot(self.versions[j].version) == start.snapshot(
                            start.versions[j].version,
                        ));
                    }
                    assert(self.history() =~= start.history());
                    if self.versions.len() > 0 {
                        assert(self.history().last().version
                            == self.versions[self.versions.len() - 1].version);
                    }
                    Self::lemma_same_trees(start, *self);
                }
                Ok(root_hash)
            },
        }
    }

    /// What the value log of the shard `s` holds once the records of the
    /// pending commit are written: at every earlier version what it held, and
    /// at the new version the latest values with the updates applied.
    spec fn log_advanced(before: ShardedStore, after: ShardedStore, s: int) -> bool {
        let p = before.pending->0;
        &&& forall|j: int|
            0 <= j < before.versions.len() ==> values_at(
                after.values.log(s),
                #[trigger] before.versions[j].version,
            ) == values_at(before.values.log(s), before.versions[j].version)
        &&& values_at(after.values.log(s), p.version) == apply_values(
            latest_values(before.history(), before.num_shards as nat)[s],
            p.value_updates[s]@,
        )
        &&& log_within(after.values.log(s), p.version)
    }

    /// Writing the records of the pending commit advances the value log of a
    /// shard.
    proof fn lemma_log_advanced(before: ShardedStore, after: ShardedStore, s: int)
        requires
            before.wf(),
            before.pending is Some,
            0 <= s < before.num_shards,
            after.values.log(s) == before.values.log(s) + records_of(
                before.pending->0.value_updates[s]@,
                before.pending->0.version,
            ),
        ensures
            Self::log_advanced(before, after, s),
    {
        let p = before.pending->0;
        let version = p.version;
        let count = before.versions.len() as int;
        let old_log = before.values.log(s);
        let ups = p.value_updates[s]@;
        let written = records_of(ups, version);
        before.lemma_view();
        assert(before.shard_agrees(s));
        if count > 0 {
            before.lemma_snapshot(count - 1);
        }
        assert forall|j: int| 0 <= j < count implies values_at(
            after.values.log(s),
            #[trigger] before.versions[j].version,
        ) == values_at(old_log, before.versions[j].version) by {
            let v = before.versions[j].version;
            assert(before.history()[j].version == v);
            if j < count - 1 {
                assert(before.history()[j].version < before.history()[count - 1].version);
            }
            assert(v < version);
            lemma_values_later(old_log, written, v);
        }
        lemma_values_written(old_log, ups, version);
        if count == 0 {
            assert(values_at(old_log, version) =~= Map::<Seq<u8>, Seq<u8>>::empty());
        } else {
            lemma_values_latest(old_log, before.versions[count - 1].version, version);
        }
    }

    /// What the store looks like once every shard has taken the pending
    /// commit: it is well formed, and its history is the earlier one with the
    /// pending snapshot at its end.
    #[verifier::rlimit(50)]
    proof fn lemma_advanced(before: ShardedStore, after: ShardedStore)
        requires
            before.wf(),
            before.pending is Some,
            after.num_shards == before.num_shards,
            after.trees.len() == before.num_shards,
            after.values.wf(),
            after.values.shard_count() == before.num_shards,
            after.versions@ == before.versions@.push(
                VersionEntry {
                    version: before.pending->0.version,
                    root_hash: before.pending->0.root_hash,
                    top: before.pending->0.top_batch,
                },
            ),
            after.retained == before.retained,
            after.pending is None,
            after.phase == CommitPhase::Committed,
            forall|s: int|
                0 <= s < before.num_shards ==> {
                    &&& (#[trigger] after.trees[s]).wf()
                    &&& after.trees[s]@.shard_id == s
                    &&& after.trees[s]@.num_shards == before.num_shards
                    &&& after.trees[s]@.history == before.trees[s]@.history.push(
                        Snapshot {
                            version: before.pending->0.version,
                            mapping: before.trees[s].updated_mapping(
                                before.pending->0.shard_updates[s],
                            ),
                        },
                    )
                },
            forall|s: int|
                0 <= s < before.num_shards ==> #[trigger] after.values.log(s) == before.values.log(
                    s,
                ) + records_of(before.pending->0.value_updates[s]@, before.pending->0.version),
        ensures
            after.wf(),
            after@.num_shards == before@.num_shards,
            after@.retained == before@.retained,
            after@.history == before@.history.push(before@.pending->0),
            after@.phase == CommitPhase::Committed,
            after@.pending is None,
    {
        let p = before.pending->0;
        let n = before.num_shards;
        let version = p.version;
        let count = before.versions.len() as int;
        let base = latest_values(before.history(), n as nat);
        let pend = next_snapshot(base, version, p.value_updates@);
        before.lemma_view();
        if count > 0 {
            before.lemma_snapshot(count - 1);
        }
        assert(base.len() == n);
        // Every snapshot of the history is what it was, and the new one is the
        // pending one.
        assert forall|j: int| 0 <= j < count implies after.snapshot(
            #[trigger] after.versions[j].version,
        ) == before.snapshot(before.versions[j].version) by {
            assert(after.versions[j] == before.versions[j]);
            let v = before.versions[j].version;
            assert forall|s: int| 0 <= s < n implies after.snapshot(v).shards[s]
                == before.snapshot(v).shards[s] by {
                Self::lemma_log_advanced(before, after, s);
            }
            assert(after.snapshot(v).shards =~= before.snapshot(v).shards);
        }
        assert(after.versions[count].version == version);
        assert(after.snapshot(version) == pend) by {
            assert forall|s: int| 0 <= s < n implies after.snapshot(version).shards[s]
                == pend.shards[s] by {
                Self::lemma_log_advanced(before, after, s);
            }
            assert(after.snapshot(version).shards =~= pend.shards);
        }
        assert(after.history() =~= before.history().push(pend));
        assert forall|s: int| 0 <= s < n implies #[trigger] after.shard_agrees(s) by {
            assert(before.shard_agrees(s));
            assert(after.trees[s].wf());
            Self::lemma_log_advanced(before, after, s);
            let th = after.trees[s]@.history;
            let oh = before.trees[s]@.history;
            assert forall|j: int| 0 <= j < after.versions.len() implies {
                &&& (#[trigger] th[j]).version == after.versions[j].version
                &&& th[j].mapping == hashed(
                    values_at(after.values.log(s), after.versions[j].version),
                )
            } by {
                if j < count {
                    assert(th[j] == oh[j]);
                    assert(after.versions[j] == before.versions[j]);
                    assert(values_at(after.values.log(s), before.versions[j].version) == values_at(
                        before.values.log(s),
                        before.versions[j].version,
                    ));
                }
            }
        }
        assert forall|j: int| 0 <= j < after.versions.len() implies {
            &&& (#[trigger] after.versions[j]).root_hash@ == global_root(
                after.snapshot(after.versions[j].version),
            )
            &&& top_batch_view(after.versions[j].top@) == top_nodes(
                shard_roots(after.snapshot(after.versions[j].version)),
                after.num_shards,
                after.versions[j].version,
                0,
            )
        } by {
            if j < count {
                assert(after.versions[j] == before.versions[j]);
                assert(after.snapshot(after.versions[j].version) == before.snapshot(
                    before.versions[j].version,
                ));
            }
        }
    }

    /// Lets the shard `shard` take its part of a commit: the outcome of its
    /// merge and its value records. Nothing else of the store changes.
    fn advance_shard(&mut self, shard: usize, update: ShardUpdate, version: u64, updates: &Vec<ValueUpdate>)
        requires
            shard < old(self).trees.len(),
            old(self).trees[shard as int].wf(),
            old(self).trees[shard as int].accepts(update),
            old(self).values.wf(),
            shard < old(self).values.shard_count(),
        ensures
            final(self).num_shards == old(self).num_shards,
            final(self).versions == old(self).versions,
            final(self).retained == old(self).retained,
            final(self).pending == old(self).pending,
            final(self).phase == old(self).phase,
            final(self).trees.len() == old(self).trees.len(),
            final(self).values.wf(),
            final(self).values.shard_count() == old(self).values.shard_count(),
            forall|t: int|
                0 <= t < old(self).trees.len() && t != shard ==> (#[trigger] final(self).trees[t])
                    == old(self).trees[t],
            forall|t: int|
                0 <= t < old(self).values.shard_count() && t != shard ==> #[trigger] final(self).values.log(
                    t,
                ) == old(self).values.log(t),
            final(self).trees[shard as int].wf(),
            final(self).trees[shard as int]@.shard_id == old(self).trees[shard as int]@.shard_id,
            final(self).trees[shard as int]@.num_shards
                == old(self).trees[shard as int]@.num_shards,
            final(self).trees[shard as int]@.history == old(self).trees[shard as int]@.history.push(
                Snapshot {
                    version: update.version,
                    mapping: old(self).trees[shard as int].updated_mapping(update),
                },
            ),
            final(self).values.log(shard as int) == old(self).values.log(shard as int)
                + records_of(updates@, version),
            forall|entries: Seq<(AddressView, CachedNode)>|
                old(self).trees[shard as int].caches(entries)
                    ==> #[trigger] final(self).trees[shard as int].caches(entries),
    {
        self.trees[shard].apply(update);
        self.values.put(shard, version, updates);
    }

    /// Ends the commit that waits in `Persist`, on the outcome of the durable
    /// write of its batches.
    ///
    /// Where the batches were persisted the store advances: every shard takes
    /// its new root and nodes, the value records are written, and the version
    /// becomes the latest committed one. Where they were not, the commit
    /// fails as a whole: the store stays at the version it had, and the same
    /// commit can be begun again. Where no commit waits, the call is refused
    /// with a version error and changes nothing.
    #[verifier::rlimit(50)]
    pub fn complete_commit(&mut self, persisted: bool) -> (res: Result<HashValue, Error>)
        requires
            old(self).wf(),
        ensures
            final(self).wf(),
            final(self)@.num_shards == old(self)@.num_shards,
            final(self)@.retained == old(self)@.retained,
            forall|c: Seq<PartitionView<CachedNode>>|
                old(self).coherent(c) ==> #[trigger] final(self).coherent(c),
            old(self)@.phase != CommitPhase::Persist ==> res == Err::<HashValue, Error>(
                Error::VersionError,
            ) && final(self)@ == old(self)@,
            old(self)@.phase == CommitPhase::Persist && !persisted ==> {
                &&& res == Err::<HashValue, Error>(Error::IoError)
                &&& final(self)@.history == old(self)@.history
                &&& final(self)@.phase == CommitPhase::Failed
                &&& final(self)@.pending is None
            },
            old(self)@.phase == CommitPhase::Persist && persisted ==> {
                &&& res matches Ok(h) && h@ == global_root(old(self)@.pending->0)
                &&& final(self)@.history == old(self)@.history.push(old(self)@.pending->0)
                &&& final(self)@.phase == CommitPhase::Committed
                &&& final(self)@.pending is None
            },
    {
        let ghost start = *self;
        let pending = match self.pending.take() {
            Some(p) => p,
            None => {
                return Err(Error::VersionError);
            },
        };
        if !persisted {
            self.phase = self.phase.step(CommitEvent::Fail);
            proof {
                Self::lemma_phase_only(start, *self);
                Self::lemma_same_trees(start, *self);
            }
            return Err(Error::IoError);
        }
        // Advance: the version becomes visible only now.
        self.phase = self.phase.step(CommitEvent::Done);
        let version = pending.version;
        let root_hash = pending.root_hash;
        let value_updates = pending.value_updates;
        let top_batch = pending.top_batch;
        let mut shard_updates = pending.shard_updates;
        let ghost all_updates = shard_updates@;
        let mut s: usize = self.num_shards;
        while s > 0
            invariant
                start.wf(),
                start.pending == Some(pending),
                all_updates == pending.shard_updates@,
                value_updates == pending.value_updates,
                top_batch == pending.top_batch,
                version == pending.version,
                self.num_shards == start.num_shards,
                self.versions == start.versions,
                self.retained == start.retained,
                self.pending is None,
                self.phase == CommitPhase::Advance,
                self.trees.len() == start.num_shards,
                self.values.wf(),
                self.values.shard_count() == start.num_shards,
                s <= start.num_shards,
                shard_updates@ == all_updates.take(s as int),
                forall|t: int| 0 <= t < s ==> (#[trigger] self.trees[t]) == start.trees[t],
                forall|t: int| 0 <= t < s ==> #[trigger] self.values.log(t) == start.values.log(t),
                forall|t: int|
                    s <= t < start.num_shards ==> {
                        &&& (#[trigger] self.trees[t]).wf()
                        &&& self.trees[t]@.shard_id == t
                        &&& self.trees[t]@.num_shards == start.num_shards
                        &&& self.trees[t]@.history == start.trees[t]@.history.push(
                            Snapshot {
                                version,
                                mapping: start.trees[t].updated_mapping(all_updates[t]),
                            },
                        )
                    },
                forall|t: int|
                    s <= t < start.num_shards ==> #[trigger] self.values.log(t) == start.values.log(
                        t,
                    ) + records_of(value_updates[t]@, version),
                forall|t: int, entries: Seq<(AddressView, CachedNode)>|
                    0 <= t < start.num_shards && start.trees[t].caches(entries)
                        ==> #[trigger] self.trees[t].caches(entries),
            decreases s,
        {
            s -= 1;
            let ghost held = *self;
            proof {
                assert(start.shard_agrees(s as int));
                assert(start.trees[s as int].accepts(pending.shard_updates[s as int]));
                assert(shard_updates@.len() == s + 1);
                assert(shard_updates@[s as int] == all_updates[s as int]);
                assert(held.trees[s as int] == start.trees[s as int]);
            }
            match shard_updates.pop() {
                Some(update) => {
                    self.advance_shard(s, update, version, &value_updates[s]);
                },
                None => {},
            }
            proof {
                assert(shard_updates@ =~= all_updates.take(s as int));
                assert forall|t: int| 0 <= t < s implies (#[trigger] self.trees[t])
                    == start.trees[t] by {
                    assert(held.trees[t] == start.trees[t]);
                }
                assert forall|t: int| 0 <= t < s implies #[trigger] self.values.log(t)
                    == start.values.log(t) by {
                    assert(held.values.log(t) == start.values.log(t));
                }
                assert forall|t: int| s <= t < start.num_shards implies {
                    &&& (#[trigger] self.trees[t]).wf()
                    &&& self.trees[t]@.shard_id == t
                    &&& self.trees[t]@.num_shards == start.num_shards
                    &&& self.trees[t]@.history == start.trees[t]@.history.push(
                        Snapshot {
                            version,
                            mapping: start.trees[t].updated_mapping(all_updates[t]),
                        },
                    )
                } by {
                    if t > s {
                        assert(self.trees[t] == held.trees[t]);
                    }
                }
                assert forall|t: int| s <= t < start.num_shards implies #[trigger] self.values.log(t)
                    == start.values.log(t) + records_of(value_updates[t]@, version) by {
                    if t > s {
                        assert(self.values.log(t) == held.values.log(t));
                    }
                }
                assert forall|t: int, entries: Seq<(AddressView, CachedNode)>|
                    0 <= t < start.num_shards && start.trees[t].caches(
                        entries,
                    ) implies #[trigger] self.trees[t].caches(entries) by {
                    assert(held.trees[t].caches(entries));
                    if t != s {
                        assert(self.trees[t] == held.trees[t]);
                    }
                }
            }
        }
        self.versions.push(VersionEntry { version, root_hash, top: top_batch });
        self.phase = self.phase.step(CommitEvent::Done);
        proof {
            Self::lemma_advanced(start, *self);
            Self::lemma_grown_trees(start, *self);
        }
        Ok(root_hash)
    }

    /// Commits the version `version` on `base_version` when nothing stands
    /// between the store and its durable storage: the commit is begun and
    /// ended at once as persisted.
    ///
    /// On success the new version holds, in every shard, the values of the
    /// base with that shard's updates applied in order, and the result is its
    /// global root hash. A refused commit leaves the committed versions as
    /// they are.
    pub fn commit(&mut self, version: u64, base_version: Option<u64>, updates: Vec<Vec<ValueUpdate>>) -> (res:
        Result<HashValue, Error>)
        requires
            old(self).wf(),
        ensures
            final(self).wf(),
            final(self)@.num_shards == old(self)@.num_shards,
            final(self)@.retained == old(self)@.retained,
            forall|c: Seq<PartitionView<CachedNode>>|
                old(self).coherent(c) ==> #[trigger] final(self).coherent(c),
            old(self)@.phase == CommitPhase::Persist ==> res == Err::<HashValue, Error>(
                Error::VersionError,
            ) && final(self)@ == old(self)@,
            old(self)@.phase != CommitPhase::Persist ==> {
                let next = next_snapshot(
                    latest_values(old(self)@.history, old(self)@.num_shards as nat),
                    version,
                    updates@,
                );
                &&& res is Ok <==> commit_follows(old(self)@.history, version, base_version)
                    && routed(updates@, old(self)@.num_shards)
                &&& res matches Err(e) ==> {
                    &&& e == (if commit_follows(old(self)@.history, version, base_version) {
                        Error::ShardMismatch
                    } else {
                        Error::VersionError
                    })
                    &&& final(self)@.history == old(self)@.history
                    &&& final(self)@.phase == CommitPhase::Failed
                }
                &&& res matches Ok(h) ==> {
                    &&& h@ == global_root(next)
                    &&& final(self)@.history == old(self)@.history.push(next)
                    &&& final(self)@.phase == CommitPhase::Committed
                }
                &&& final(self)@.pending is None
            },
    {
        match self.begin_commit(version, base_version, updates) {
            Ok(_) => self.complete_commit(true),
            Err(e) => Err(e),
        }
    }

    /// What a merge of the shard `s` starts from when the commit follows the
    /// history: the versions fit the shard, and the bindings of the base are
    /// those of the latest values.
    proof fn lemma_merge_base(&self, s: int, base_version: Option<u64>, version: u64)
        requires
            self.wf(),
            0 <= s < self.num_shards,
            commit_follows(self.history(), version, base_version),
        ensures
            versions_consistent(
                self.trees[s]@.history,
                base_version,
                version,
                if self.history().len() == 0 {
                    None
                } else {
                    Some(self.history().last().version)
                },
            ),
            crate::shard::base_mapping(self.trees[s]@.history, base_version) == hashed(
                latest_values(self.history(), self.num_shards as nat)[s],
            ),
            self.trees[s]@.shard_id == s,
            self.trees[s]@.num_shards == self.num_shards,
            self.trees[s].wf(),
    {
        let tree = self.trees[s];
        let th = tree@.history;
        let h = self.history();
        assert(self.shard_agrees(s));
        tree.lemma_history();
        if h.len() == 0 {
            assert(hashed(Map::<Seq<u8>, Seq<u8>>::empty()) =~= Map::<Seq<u8>, Seq<u8>>::empty());
        } else {
            let last = h.len() - 1;
            let b = base_version->0;
            assert(th[last].version == b);
            let i = crate::shard::index_of(th, b);
            if i < last {
                assert(th[i].version < th[last].version);
            }
            self.lemma_snapshot(last);
        }
    }
}

} // verus!

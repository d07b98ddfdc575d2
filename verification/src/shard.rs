//! One shard: its arena of nodes and the root of its tree at every version.

use vstd::prelude::*;
use crate::cache::{
    copy_address, lemma_stored_members, lemma_touched_members, position, stored, CachedNode,
    NodeCache,
};
use crate::error::Error;
use crate::hash::{key_bit, key_prefix, HashValue, KEY_BITS};
use crate::merkle_proof::{MerkleProof, ProofView};
use crate::merklize::{
    along_updates, batch_tagged, distinct_paths, get_node, load_child, place, sub_wf,
    update_subtree,
};
use crate::node::{
    arena_of, arena_wf, child_hash, child_tree, extends, lemma_extends_node_wf, lemma_extends_tree,
    lemma_tree_at, node_at, node_wf, root_tree, tree_at, valid_ref, AddressView, Arena, Node,
    NodeAddress, NodeRef, StoredNode,
};
use crate::partition::{shard_of, shard_of_spec, MAX_SHARDS};
use crate::top_level::hashes_view;
use crate::tree::{
    is_tree_of, lemma_prefix_step, lemma_tree_of, map_root, representable, tree_of, HashMapping,
    Tree,
};
use crate::updates::{apply_updates, lemma_apply_keys, HashUpdate};

verus! {

/// The root of a shard tree at one version.
#[derive(Clone, Copy, Debug, PartialEq, Eq)]
pub struct RootEntry {
    pub version: u64,
    pub root: Option<NodeRef>,
    pub root_hash: HashValue,
}

/// What a shard held at one version: the bindings of its keys to the hashes
/// of their values.
pub struct Snapshot {
    pub version: u64,
    pub mapping: HashMapping,
}

/// A shard as a mathematical value: its place among the shards, and what it
/// held at each of its versions, oldest first.
pub struct ShardView {
    pub shard_id: usize,
    pub num_shards: usize,
    pub history: Seq<Snapshot>,
}

/// The outcome of merging one version's updates into a shard: the new root
/// and the nodes to persist for it.
#[derive(Debug)]
pub struct ShardUpdate {
    pub version: u64,
    pub root: Option<NodeRef>,
    pub root_hash: HashValue,
    pub batch: Vec<StoredNode>,
}

/// One shard's persistent tree.
#[derive(Debug)]
pub struct ShardTree {
    shard_id: usize,
    num_shards: usize,
    segments: Vec<Vec<StoredNode>>,
    roots: Vec<RootEntry>,
}

/// The last version of a history, if it has one.
pub open spec fn latest_version(history: Seq<Snapshot>) -> Option<u64> {
    if history.len() == 0 {
        None
    } else {
        Some(history.last().version)
    }
}

/// Whether a history holds the version `version`.
pub open spec fn has_version(history: Seq<Snapshot>, version: u64) -> bool {
    exists|j: int| 0 <= j < history.len() && #[trigger] history[j].version == version
}

/// The index of the version `version` in a history that holds it.
pub open spec fn index_of(history: Seq<Snapshot>, version: u64) -> int {
    choose|j: int| 0 <= j < history.len() && #[trigger] history[j].version == version
}

/// The bindings that a merge starts from: those of the base version, or none
/// where there is no base.
pub open spec fn base_mapping(history: Seq<Snapshot>, base_version: Option<u64>) -> HashMapping {
    match base_version {
        Some(b) => history[index_of(history, b)].mapping,
        None => Map::empty(),
    }
}

/// Whether the versions handed to a merge fit the shard: the caller knows the
/// shard's last persisted version, the base is one of the persisted versions,
/// and the target lies after all of them.
pub open spec fn versions_consistent(
    history: Seq<Snapshot>,
    base_version: Option<u64>,
    target_version: u64,
    persisted_version: Option<u64>,
) -> bool {
    &&& persisted_version == latest_version(history)
    &&& base_version matches Some(b) ==> has_version(history, b)
    &&& history.len() > 0 ==> history.last().version < target_version
}

/// Whether every key of the updates belongs to the shard `shard_id`.
pub open spec fn updates_in_shard(ups: Seq<HashUpdate>, shard_id: usize, num_shards: usize) -> bool {
    forall|j: int|
        0 <= j < ups.len() ==> shard_of_spec(#[trigger] ups[j].0@, num_shards as nat) == shard_id
}

/// Whether every key of the bindings belongs to the shard `shard_id`.
pub open spec fn mapping_in_shard(m: HashMapping, shard_id: usize, num_shards: usize) -> bool {
    forall|k: Seq<u8>| #[trigger] m.contains_key(k) ==> shard_of_spec(k, num_shards as nat) == shard_id
}

/// Whether versions grow strictly along a history.
pub open spec fn versions_increase(history: Seq<Snapshot>) -> bool {
    forall|i: int, j: int|
        0 <= i < j < history.len() ==> (#[trigger] history[i]).version < (
        #[trigger] history[j]).version
}

/// The walk towards `key` through the shard tree of the bindings `m`: the
/// leaf at which it ends, and the hashes left aside, lowest first.
pub open spec fn shard_proof(m: HashMapping, key: Seq<u8>) -> ProofView {
    let t = tree_of(m);
    ProofView {
        leaf: match t.terminal(key, 0) {
            Tree::Leaf { key: k, value_hash } => Some((k, value_hash)),
            _ => None,
        },
        siblings: t.siblings(key, 0),
    }
}

/// Whether a root and its recorded hash are in order within an arena.
pub open spec fn root_ok(arena: Arena, root: Option<NodeRef>, root_hash: HashValue) -> bool {
    &&& root matches Some(r) ==> valid_ref(arena, r) && node_at(arena, r).address.path@
        == Seq::<bool>::empty()
    &&& root_hash@ == root_tree(arena, root).hash()
}

/// A root in order stands for the canonical tree of its bindings.
pub proof fn lemma_root_tree(arena: Arena, shard_id: usize, root: Option<NodeRef>, root_hash: HashValue)
    requires
        arena_wf(arena, shard_id),
        root_ok(arena, root, root_hash),
    ensures
        is_tree_of(root_tree(arena, root), root_tree(arena, root).contents()),
        tree_of(root_tree(arena, root).contents()) == root_tree(arena, root),
        map_root(root_tree(arena, root).contents()) == root_hash@,
{
    if let Some(r) = root {
        lemma_tree_at(arena, shard_id, r);
    }
    lemma_tree_of(root_tree(arena, root), root_tree(arena, root).contents());
}

/// One step of the walk towards `key` at a branch: the walk goes on in the
/// child chosen by the key's next bit and leaves the other child's hash aside.
pub proof fn lemma_walk_step(arena: Arena, shard_id: usize, r: NodeRef, key: Seq<u8>, depth: nat)
    requires
        arena_wf(arena, shard_id),
        valid_ref(arena, r),
        node_at(arena, r).node is Internal,
        node_at(arena, r).address.path@ == key_prefix(key, depth),
    ensures
        depth < KEY_BITS,
        ({
            let left = node_at(arena, r).node->left;
            let right = node_at(arena, r).node->right;
            let next = if key_bit(key, depth as int) {
                right
            } else {
                left
            };
            let aside = if key_bit(key, depth as int) {
                left
            } else {
                right
            };
            &&& next matches Some(n) ==> valid_ref(arena, n) && node_at(arena, n).address.path@
                == key_prefix(key, depth + 1)
            &&& aside matches Some(a) ==> valid_ref(arena, a)
            &&& tree_at(arena, r).siblings(key, depth) == root_tree(arena, next).siblings(
                key,
                depth + 1,
            ).push(child_hash(arena, aside))
            &&& tree_at(arena, r).terminal(key, depth) == root_tree(arena, next).terminal(
                key,
                depth + 1,
            )
        }),
{
    let left = node_at(arena, r).node->left;
    let right = node_at(arena, r).node->right;
    let here = tree_at(arena, r);
    assert(node_wf(arena, r, shard_id));
    lemma_tree_at(arena, shard_id, r);
    assert(*here->left == child_tree(arena, left, r));
    assert(*here->right == child_tree(arena, right, r));
    if let Some(l) = left {
        lemma_tree_at(arena, shard_id, l);
    }
    if let Some(rr) = right {
        lemma_tree_at(arena, shard_id, rr);
    }
    lemma_prefix_step(key, depth);
}

/// The walk ends at a leaf and at an empty subtree.
pub proof fn lemma_walk_end(arena: Arena, current: Option<NodeRef>, key: Seq<u8>, depth: nat)
    requires
        current matches Some(r) ==> valid_ref(arena, r) && node_at(arena, r).node is Leaf,
    ensures
        root_tree(arena, current).siblings(key, depth) == Seq::<Seq<u8>>::empty(),
        root_tree(arena, current).terminal(key, depth) == root_tree(arena, current),
        current matches Some(r) ==> root_tree(arena, current) == (Tree::Leaf {
            key: node_at(arena, r).node->key@,
            value_hash: node_at(arena, r).node->value_hash@,
        }),
        current is None ==> root_tree(arena, current) == Tree::Empty,
{
}

/// Closing the segment being written and opening an empty one keeps the arena
/// well formed and every tree as it was.
pub proof fn lemma_seal(segments: Seq<Vec<StoredNode>>, batch: Vec<StoredNode>, shard_id: usize)
    requires
        arena_wf(arena_of(segments, batch@), shard_id),
    ensures
        extends(arena_of(segments, batch@), arena_of(segments.push(batch), Seq::empty())),
        arena_wf(arena_of(segments.push(batch), Seq::empty()), shard_id),
{
    let a = arena_of(segments, batch@);
    let b = arena_of(segments.push(batch), Seq::empty());
    assert(extends(a, b));
    assert forall|r: NodeRef| #[trigger] valid_ref(b, r) implies node_wf(b, r, shard_id) by {
        assert(valid_ref(a, r));
        lemma_extends_node_wf(a, b, shard_id, r);
    }
}

/// One step of the walk towards a key: the walk ends, at a leaf or at an
/// empty subtree, or goes down into one child and leaves the hash of the
/// other aside.
enum Step {
    End { leaf: Option<(HashValue, HashValue)> },
    Down { next: Option<NodeRef>, aside: HashValue },
}

/// Whether a walk towards `key` stands at `current`, at depth `depth`: `rest`
/// are the hashes that it will still leave aside, deepest first, and `end` is
/// where it will end.
#[verifier::opaque]
spec fn walking(
    arena: Arena,
    current: Option<NodeRef>,
    key: Seq<u8>,
    depth: nat,
    rest: Seq<Seq<u8>>,
    end: Tree,
) -> bool {
    &&& current matches Some(r) ==> valid_ref(arena, r) && node_at(arena, r).address.path@
        == key_prefix(key, depth)
    &&& rest == root_tree(arena, current).siblings(key, depth)
    &&& end == root_tree(arena, current).terminal(key, depth)
}

/// What a step says of the walk that took it: at its end nothing is left to
/// be set aside and the walk's end is the leaf found, or the empty subtree;
/// on its way down the hash set aside is the topmost of those left, and the
/// walk stands at the next node with the others.
spec fn step_taken(
    arena: Arena,
    key: Seq<u8>,
    depth: nat,
    rest: Seq<Seq<u8>>,
    end: Tree,
    step: Step,
) -> bool {
    match step {
        Step::End { leaf } => {
            &&& rest.len() == 0
            &&& match leaf {
                Some((k, v)) => end == (Tree::Leaf { key: k@, value_hash: v@ }),
                None => end == Tree::Empty,
            }
        },
        Step::Down { next, aside } => {
            &&& depth < KEY_BITS
            &&& rest.len() > 0
            &&& rest.last() == aside@
            &&& walking(arena, next, key, depth + 1, rest.drop_last(), end)
        },
    }
}

/// A walk that starts at a root in order.
proof fn lemma_walk_start(arena: Arena, root: Option<NodeRef>, root_hash: HashValue, key: Seq<u8>)
    requires
        root_ok(arena, root, root_hash),
    ensures
        walking(
            arena,
            root,
            key,
            0,
            root_tree(arena, root).siblings(key, 0),
            root_tree(arena, root).terminal(key, 0),
        ),
{
    reveal(walking);
    assert(key_prefix(key, 0) =~= Seq::<bool>::empty());
}

/// What a walk that stands at a leaf or at an empty subtree has come to.
proof fn lemma_walk_ended(
    arena: Arena,
    current: Option<NodeRef>,
    key: Seq<u8>,
    depth: nat,
    rest: Seq<Seq<u8>>,
    end: Tree,
)
    requires
        walking(arena, current, key, depth, rest, end),
        current matches Some(r) ==> node_at(arena, r).node is Leaf,
    ensures
        rest.len() == 0,
        current matches Some(r) ==> end == (Tree::Leaf {
            key: node_at(arena, r).node->key@,
            value_hash: node_at(arena, r).node->value_hash@,
        }),
        current is None ==> end == Tree::Empty,
{
    reveal(walking);
    lemma_walk_end(arena, current, key, depth);
}

/// Where a walk that stands at a branch goes on, and what it sets aside.
proof fn lemma_walk_down(
    arena: Arena,
    shard_id: usize,
    r: NodeRef,
    key: Seq<u8>,
    depth: nat,
    rest: Seq<Seq<u8>>,
    end: Tree,
)
    requires
        arena_wf(arena, shard_id),
        walking(arena, Some(r), key, depth, rest, end),
        node_at(arena, r).node is Internal,
    ensures
        depth < KEY_BITS,
        valid_ref(arena, r),
        ({
            let left = node_at(arena, r).node->left;
            let right = node_at(arena, r).node->right;
            let next = if key_bit(key, depth as int) {
                right
            } else {
                left
            };
            let aside = if key_bit(key, depth as int) {
                left
            } else {
                right
            };
            &&& aside matches Some(a) ==> valid_ref(arena, a)
            &&& rest.len() > 0
            &&& rest.last() == child_hash(arena, aside)
            &&& walking(arena, next, key, depth + 1, rest.drop_last(), end)
        }),
{
    reveal(walking);
    lemma_walk_step(arena, shard_id, r, key, depth);
    let left = node_at(arena, r).node->left;
    let right = node_at(arena, r).node->right;
    let next = if key_bit(key, depth as int) {
        right
    } else {
        left
    };
    let aside = if key_bit(key, depth as int) {
        left
    } else {
        right
    };
    let below = root_tree(arena, next).siblings(key, depth + 1);
    assert(below.push(child_hash(arena, aside)).drop_last() =~= below);
}

/// A walk stands at a node of the arena, or at the empty subtree.
proof fn lemma_walk_stands(
    arena: Arena,
    current: Option<NodeRef>,
    key: Seq<u8>,
    depth: nat,
    rest: Seq<Seq<u8>>,
    end: Tree,
)
    requires
        walking(arena, current, key, depth, rest, end),
    ensures
        current matches Some(r) ==> valid_ref(arena, r),
{
    reveal(walking);
}

/// The step that the walk towards `key` takes at `current`, at depth `depth`.
fn step_towards(
    segments: &Vec<Vec<StoredNode>>,
    shard_id: usize,
    current: Option<NodeRef>,
    key: &HashValue,
    depth: usize,
    Ghost(rest): Ghost<Seq<Seq<u8>>>,
    Ghost(end): Ghost<Tree>,
) -> (step: Step)
    requires
        arena_wf(arena_of(segments@, Seq::empty()), shard_id),
        walking(arena_of(segments@, Seq::empty()), current, key@, depth as nat, rest, end),
    ensures
        step_taken(arena_of(segments@, Seq::empty()), key@, depth as nat, rest, end, step),
{
    let ghost arena = arena_of(segments@, Seq::empty());
    let empty: Vec<StoredNode> = Vec::new();
    proof {
        assert(arena =~= arena_of(segments@, empty@));
        lemma_walk_stands(arena, current, key@, depth as nat, rest, end);
    }
    let r = match current {
        Some(r) => r,
        None => {
            proof {
                lemma_walk_ended(arena, current, key@, depth as nat, rest, end);
            }
            return Step::End { leaf: None };
        },
    };
    let node = get_node(segments, &empty, r);
    match node.node {
        Node::Leaf { key: k, value_hash } => {
            proof {
                lemma_walk_ended(arena, current, key@, depth as nat, rest, end);
            }
            Step::End { leaf: Some((k, value_hash)) }
        },
        Node::Internal { left, right } => {
            proof {
                lemma_walk_down(arena, shard_id, r, key@, depth as nat, rest, end);
            }
            let (next, aside) = if key.bit(depth) {
                (right, left)
            } else {
                (left, right)
            };
            let aside_hash = match aside {
                Some(a) => get_node(segments, &empty, a).hash,
                None => HashValue::placeholder(),
            };
            Step::Down { next, aside: aside_hash }
        },
    }
}

/// Whether a cache entry is a true copy of the node at the place `r` of an
/// arena.
pub open spec fn entry_of(arena: Arena, entry: (AddressView, CachedNode), r: NodeRef) -> bool {
    &&& valid_ref(arena, r)
    &&& node_at(arena, r).address@ == entry.0
    &&& node_at(arena, r).node == entry.1.node
    &&& node_at(arena, r).hash == entry.1.hash
}

/// Whether a cache entry is a true copy of some node of an arena.
pub open spec fn true_copy(arena: Arena, entry: (AddressView, CachedNode)) -> bool {
    exists|r: NodeRef| entry_of(arena, entry, r)
}

impl View for ShardTree {
    type V = ShardView;

    closed spec fn view(&self) -> ShardView {
        ShardView {
            shard_id: self.shard_id,
            num_shards: self.num_shards,
            history: Seq::new(
                self.roots.len() as nat,
                |j: int|
                    Snapshot {
                        version: self.roots[j].version,
                        mapping: root_tree(self.arena(), self.roots[j].root).contents(),
                    },
            ),
        }
    }
}

impl ShardTree {
    /// The arena of the shard, with an empty segment open for writing.
    spec fn arena(&self) -> Arena {
        arena_of(self.segments@, Seq::empty())
    }

    /// The invariant of a shard: its arena is well formed, every version has a
    /// root in order, versions grow, every node carries the version that
    /// wrote it, and every key belongs to the shard.
    pub closed spec fn wf(&self) -> bool {
        &&& self.shard_id < self.num_shards <= MAX_SHARDS
        &&& self.segments.len() == self.roots.len()
        &&& arena_wf(self.arena(), self.shard_id)
        &&& forall|j: int|
            0 <= j < self.roots.len() ==> root_ok(
                self.arena(),
                (#[trigger] self.roots[j]).root,
                self.roots[j].root_hash,
            )
        &&& forall|i: int, j: int|
            0 <= i < j < self.roots.len() ==> (#[trigger] self.roots[i]).version < (
            #[trigger] self.roots[j]).version
        &&& forall|s: int, o: int|
            0 <= s < self.segments.len() && 0 <= o < self.segments[s].len() ==> (
            #[trigger] self.segments[s]@[o]).address.version == self.roots[s].version
        &&& forall|s: int| 0 <= s < self.segments.len() ==> distinct_paths(#[trigger] self.segments[s]@)
        &&& forall|j: int|
            0 <= j < self.roots.len() ==> mapping_in_shard(
                root_tree(self.arena(), (#[trigger] self.roots[j]).root).contents(),
                self.shard_id,
                self.num_shards,
            )
    }

    /// Whether `update` is the outcome of a merge into this very shard, so
    /// that it can be applied.
    pub closed spec fn accepts(&self, update: ShardUpdate) -> bool {
        let arena = arena_of(self.segments@, update.batch@);
        &&& arena_wf(arena, self.shard_id)
        &&& batch_tagged(update.batch@, update.version)
        &&& distinct_paths(update.batch@)
        &&& root_ok(arena, update.root, update.root_hash)
        &&& self.roots.len() > 0 ==> self.roots[self.roots.len() - 1].version < update.version
        &&& mapping_in_shard(
            root_tree(arena, update.root).contents(),
            self.shard_id,
            self.num_shards,
        )
    }

    /// The bindings that the shard holds once `update` is applied.
    pub closed spec fn updated_mapping(&self, update: ShardUpdate) -> HashMapping {
        root_tree(arena_of(self.segments@, update.batch@), update.root).contents()
    }

    /// What the invariant says of the history: versions grow along it, every
    /// key belongs to the shard, and the shard id is one of the shard ids.
    pub proof fn lemma_history(&self)
        requires
            self.wf(),
        ensures
            self@.shard_id < self@.num_shards <= MAX_SHARDS,
            versions_increase(self@.history),
            forall|j: int|
                0 <= j < self@.history.len() ==> mapping_in_shard(
                    (#[trigger] self@.history[j]).mapping,
                    self@.shard_id,
                    self@.num_shards,
                ),
    {
        assert forall|i: int, j: int| 0 <= i < j < self@.history.len() implies (
        #[trigger] self@.history[i]).version < (#[trigger] self@.history[j]).version by {
            assert(self.roots[i].version < self.roots[j].version);
        }
        assert forall|j: int| 0 <= j < self@.history.len() implies mapping_in_shard(
            (#[trigger] self@.history[j]).mapping,
            self@.shard_id,
            self@.num_shards,
        ) by {
            assert(mapping_in_shard(
                root_tree(self.arena(), self.roots[j].root).contents(),
                self.shard_id,
                self.num_shards,
            ));
        }
    }

    /// Whether the shard holds a node under the address `address`.
    pub closed spec fn holds(&self, address: NodeAddress) -> bool {
        exists|r: NodeRef|
            #[trigger] valid_ref(self.arena(), r) && node_at(self.arena(), r).address == address
    }

    /// Every node of the shard lies in the shard's own namespace.
    pub proof fn lemma_namespace(&self, address: NodeAddress)
        requires
            self.wf(),
            self.holds(address),
        ensures
            address.shard_id == self@.shard_id,
    {
        let r = choose|r: NodeRef|
            #[trigger] valid_ref(self.arena(), r) && node_at(self.arena(), r).address == address;
        assert(node_wf(self.arena(), r, self.shard_id));
    }

    /// Whether the shard holds, at the place `r` of its arena, a node under
    /// the address `address`.
    pub closed spec fn holds_at(&self, r: NodeRef, address: NodeAddress) -> bool {
        valid_ref(self.arena(), r) && node_at(self.arena(), r).address == address
    }

    /// A node is written once: the shard holds no two nodes under one
    /// address, that is, of one version and one path.
    pub proof fn lemma_written_once(&self, one: NodeRef, other: NodeRef, address: NodeAddress, same: NodeAddress)
        requires
            self.wf(),
            self.holds_at(one, address),
            self.holds_at(other, same),
            address.version == same.version,
            address.path@ == same.path@,
        ensures
            one == other,
    {
        let a = self.arena();
        assert(one.segment < self.segments.len());
        assert(other.segment < self.segments.len());
        assert(self.segments[one.segment as int]@[one.offset as int].address.version
            == self.roots[one.segment as int].version);
        assert(self.segments[other.segment as int]@[other.offset as int].address.version
            == self.roots[other.segment as int].version);
        if one.segment < other.segment {
            assert(self.roots[one.segment as int].version < self.roots[other.segment as int].version);
        }
        if other.segment < one.segment {
            assert(self.roots[other.segment as int].version < self.roots[one.segment as int].version);
        }
        assert(distinct_paths(self.segments[one.segment as int]@));
        if one.offset < other.offset {
            assert(self.segments[one.segment as int]@[one.offset as int].address.path@
                != self.segments[one.segment as int]@[other.offset as int].address.path@);
        }
        if other.offset < one.offset {
            assert(self.segments[one.segment as int]@[other.offset as int].address.path@
                != self.segments[one.segment as int]@[one.offset as int].address.path@);
        }
    }

    /// Whether every entry of a cache partition is a true copy of a node of
    /// the shard.
    pub closed spec fn caches(&self, entries: Seq<(AddressView, CachedNode)>) -> bool {
        forall|i: int| 0 <= i < entries.len() ==> true_copy(self.arena(), #[trigger] entries[i])
    }

    /// An empty partition holds true copies only.
    pub proof fn lemma_caches_nothing(&self, entries: Seq<(AddressView, CachedNode)>)
        requires
            entries.len() == 0,
        ensures
            self.caches(entries),
    {
    }

    /// The bindings of every version fit a shard tree.
    pub proof fn lemma_representable(&self, j: int)
        requires
            self.wf(),
            0 <= j < self@.history.len(),
        ensures
            representable(self@.history[j].mapping),
    {
        lemma_root_tree(self.arena(), self.shard_id, self.roots[j].root, self.roots[j].root_hash);
    }

    /// An empty shard, the one with id `shard_id` among `num_shards`.
    pub fn new(shard_id: usize, num_shards: usize) -> (shard: ShardTree)
        requires
            shard_id < num_shards <= MAX_SHARDS,
        ensures
            shard.wf(),
            shard@.shard_id == shard_id,
            shard@.num_shards == num_shards,
            shard@.history == Seq::<Snapshot>::empty(),
    {
        let shard = ShardTree { shard_id, num_shards, segments: Vec::new(), roots: Vec::new() };
        proof {
            assert(shard@.history =~= Seq::<Snapshot>::empty());
        }
        shard
    }

    /// The id of the shard.
    pub fn shard_id(&self) -> (id: usize)
        ensures
            id == self@.shard_id,
    {
        self.shard_id
    }

    /// The number of shards that the shard is one of.
    pub fn num_shards(&self) -> (n: usize)
        ensures
            n == self@.num_shards,
    {
        self.num_shards
    }

    /// The number of versions that the shard holds.
    pub fn version_count(&self) -> (n: usize)
        ensures
            n == self@.history.len(),
    {
        self.roots.len()
    }

    /// The last version of the shard, if it has one.
    pub fn latest(&self) -> (latest: Option<u64>)
        ensures
            latest == latest_version(self@.history),
    {
        if self.roots.len() == 0 {
            None
        } else {
            Some(self.roots[self.roots.len() - 1].version)
        }
    }

    /// The index of the version `version`, if the shard holds it.
    pub fn find_version(&self, version: u64) -> (found: Option<usize>)
        requires
            self.wf(),
        ensures
            found is Some <==> has_version(self@.history, version),
            found matches Some(j) ==> j == index_of(self@.history, version) && j
                < self@.history.len() && self@.history[j as int].version == version,
    {
        let mut i: usize = 0;
        while i < self.roots.len()
            invariant
                self.wf(),
                i <= self.roots.len(),
                forall|j: int| 0 <= j < i ==> (#[trigger] self@.history[j]).version != version,
            decreases self.roots.len() - i,
        {
            if self.roots[i].version == version {
                proof {
                    self.lemma_history();
                    assert(self@.history[i as int].version == version);
                    let j = index_of(self@.history, version);
                    if j < i {
                        assert(self@.history[j].version < self@.history[i as int].version);
                    }
                    if i < j {
                        assert(self@.history[i as int].version < self@.history[j].version);
                    }
                }
                return Some(i);
            }
            i += 1;
        }
        None
    }

    /// The root hash of the shard at the version of index `index`.
    pub fn root_hash_at(&self, index: usize) -> (hash: HashValue)
        requires
            self.wf(),
            index < self@.history.len(),
        ensures
            hash@ == map_root(self@.history[index as int].mapping),
    {
        proof {
            lemma_root_tree(
                self.arena(),
                self.shard_id,
                self.roots[index as int].root,
                self.roots[index as int].root_hash,
            );
        }
        self.roots[index].root_hash
    }

    /// The root of the shard at the version of index `index`.
    pub fn root_at(&self, index: usize) -> (entry: RootEntry)
        requires
            self.wf(),
            index < self@.history.len(),
        ensures
            entry.version == self@.history[index as int].version,
            entry.root_hash@ == map_root(self@.history[index as int].mapping),
            entry.root is None <==> self@.history[index as int].mapping == Map::<
                Seq<u8>,
                Seq<u8>,
            >::empty(),
    {
        proof {
            let root = self.roots[index as int].root;
            lemma_root_tree(self.arena(), self.shard_id, root, self.roots[index as int].root_hash);
            match root {
                Some(r) => {
                    lemma_tree_at(self.arena(), self.shard_id, r);
                    crate::tree::lemma_some_key(tree_at(self.arena(), r), Seq::empty());
                },
                None => {
                    assert(Tree::Empty.contents() =~= Map::<Seq<u8>, Seq<u8>>::empty());
                },
            }
        }
        self.roots[index]
    }

    /// Merges the updates of the version `target_version` into the tree of
    /// `base_version`, or into the empty tree where that is `None`.
    ///
    /// The shard itself is not changed: the outcome holds the new root and the
    /// nodes to persist, and takes effect when it is handed to `apply`. New
    /// nodes are written only along the paths of the updated keys; without
    /// updates the root of the base is kept and nothing is written.
    ///
    /// The versions are refused where `persisted_version` is not the shard's
    /// last version, where the base is none of its versions, or where the
    /// target does not lie after all of them; the updates are refused where a
    /// key belongs to another shard.
    #[verifier::rlimit(50)]
    pub fn merklize(
        &self,
        updates: &Vec<HashUpdate>,
        base_version: Option<u64>,
        target_version: u64,
        persisted_version: Option<u64>,
    ) -> (res: Result<ShardUpdate, Error>)
        requires
            self.wf(),
        ensures
            res is Ok <==> versions_consistent(
                self@.history,
                base_version,
                target_version,
                persisted_version,
            ) && updates_in_shard(updates@, self@.shard_id, self@.num_shards),
            res matches Err(e) ==> e == (if versions_consistent(
                self@.history,
                base_version,
                target_version,
                persisted_version,
            ) {
                Error::ShardMismatch
            } else {
                Error::VersionError
            }),
            res matches Ok(u) ==> {
                &&& self.accepts(u)
                &&& u.version == target_version
                &&& self.updated_mapping(u) == apply_updates(
                    base_mapping(self@.history, base_version),
                    updates@,
                )
                &&& u.root_hash@ == map_root(self.updated_mapping(u))
                &&& updates.len() == 0 ==> u.batch.len() == 0
                &&& forall|i: int|
                    0 <= i < u.batch.len() ==> {
                        &&& (#[trigger] u.batch[i]).address.shard_id == self@.shard_id
                        &&& u.batch[i].address.version == target_version
                    }
                &&& along_updates(u.batch@, updates@)
                &&& distinct_paths(u.batch@)
            },
    {
        let latest = self.latest();
        let persisted_ok: bool = match (persisted_version, latest) {
            (Some(p), Some(l)) => p == l,
            (None, None) => true,
            _ => false,
        };
        if !persisted_ok {
            return Err(Error::VersionError);
        }
        if let Some(l) = latest {
            if target_version <= l {
                return Err(Error::VersionError);
            }
        }
        let base_root: Option<NodeRef> = match base_version {
            Some(b) => match self.find_version(b) {
                Some(j) => self.roots[j].root,
                None => {
                    return Err(Error::VersionError);
                },
            },
            None => None,
        };
        proof {
            assert(versions_consistent(
                self@.history,
                base_version,
                target_version,
                persisted_version,
            ));
        }
        let mut i: usize = 0;
        while i < updates.len()
            invariant
                self.wf(),
                i <= updates.len(),
                versions_consistent(
                    self@.history,
                    base_version,
                    target_version,
                    persisted_version,
                ),
                updates_in_shard(updates@.take(i as int), self.shard_id, self.num_shards),
            decreases updates.len() - i,
        {
            if shard_of(&updates[i].0, self.num_shards) != self.shard_id {
                proof {
                    assert(shard_of_spec(updates@[i as int].0@, self.num_shards as nat)
                        != self.shard_id);
                }
                return Err(Error::ShardMismatch);
            }
            proof {
                assert forall|j: int| 0 <= j < i + 1 implies shard_of_spec(
                    #[trigger] updates@.take(i + 1)[j].0@,
                    self.num_shards as nat,
                ) == self.shard_id by {
                    if j < i {
                        assert(updates@.take(i as int)[j] == updates@.take(i + 1)[j]);
                    }
                }
            }
            i += 1;
        }
        let ghost arena = self.arena();
        let ghost before = root_tree(arena, base_root).contents();
        let ghost in_shard = |k: Seq<u8>| shard_of_spec(k, self.num_shards as nat) == self.shard_id;
        proof {
            assert(updates@.take(updates.len() as int) =~= updates@);
            assert(before == base_mapping(self@.history, base_version)) by {
                match base_version {
                    Some(b) => {
                        let j = index_of(self@.history, b);
                        assert(self@.history[j].mapping == root_tree(
                            arena,
                            self.roots[j].root,
                        ).contents());
                    },
                    None => {},
                }
            }
            assert forall|k: Seq<u8>| #[trigger] before.contains_key(k) implies in_shard(k) by {
                match base_version {
                    Some(b) => {
                        let j = index_of(self@.history, b);
                        assert(mapping_in_shard(
                            root_tree(arena, self.roots[j].root).contents(),
                            self.shard_id,
                            self.num_shards,
                        ));
                    },
                    None => {},
                }
            }
            assert forall|j: int| 0 <= j < updates@.len() implies in_shard(
                #[trigger] updates@[j].0@,
            ) by {}
            lemma_apply_keys(before, updates@, in_shard);
        }
        let mut batch: Vec<StoredNode> = Vec::new();
        if updates.len() == 0 {
            let root_hash = match base_version {
                Some(b) => match self.find_version(b) {
                    Some(j) => self.roots[j].root_hash,
                    None => HashValue::placeholder(),
                },
                None => HashValue::placeholder(),
            };
            let update = ShardUpdate { version: target_version, root: base_root, root_hash, batch };
            proof {
                assert(root_ok(arena, base_root, root_hash));
                lemma_root_tree(arena, self.shard_id, base_root, root_hash);
            }
            return Ok(update);
        }
        let sub = load_child(&self.segments, &batch, self.shard_id, base_root);
        proof {
            assert(sub_wf(arena, sub, Seq::empty()));
        }
        let out = update_subtree(
            &self.segments,
            &mut batch,
            self.shard_id,
            target_version,
            sub,
            0,
            updates,
            Ghost(Seq::empty()),
        );
        let ghost merged = batch@;
        let (root, root_hash) = place(
            &self.segments,
            &mut batch,
            self.shard_id,
            target_version,
            out,
            0,
            Ghost(Seq::empty()),
        );
        let update = ShardUpdate { version: target_version, root, root_hash, batch };
        proof {
            let done = arena_of(self.segments@, update.batch@);
            assert(root_tree(done, root).contents() == apply_updates(before, updates@));
            lemma_root_tree(done, self.shard_id, root, root_hash);
            assert(along_updates(update.batch@, updates@) && distinct_paths(update.batch@)) by {
                if update.batch@ != merged {
                    assert(merged.len() == 0);
                    assert(update.batch@.last().address.path@.len() == 0);
                }
            }
            assert forall|i: int| 0 <= i < update.batch.len() implies (
            #[trigger] update.batch[i]).address.shard_id == self.shard_id by {
                let r = NodeRef { segment: self.segments.len(), offset: i as usize };
                assert(valid_ref(done, r));
                assert(node_wf(done, r, self.shard_id));
            }
        }
        Ok(update)
    }

    /// Takes the outcome of a merge into the shard: its nodes become a new
    /// segment of the arena and its root the root of a new version. Every
    /// earlier version stays as it was.
    #[verifier::rlimit(50)]
    pub fn apply(&mut self, update: ShardUpdate)
        requires
            old(self).wf(),
            old(self).accepts(update),
        ensures
            final(self).wf(),
            final(self)@.shard_id == old(self)@.shard_id,
            final(self)@.num_shards == old(self)@.num_shards,
            final(self)@.history == old(self)@.history.push(
                Snapshot { version: update.version, mapping: old(self).updated_mapping(update) },
            ),
            forall|entries: Seq<(AddressView, CachedNode)>|
                old(self).caches(entries) ==> #[trigger] final(self).caches(entries),
    {
        let ghost before = arena_of(self.segments@, update.batch@);
        let ghost old_arena = self.arena();
        let ghost old_self = *self;
        let entry = RootEntry {
            version: update.version,
            root: update.root,
            root_hash: update.root_hash,
        };
        proof {
            lemma_seal(self.segments@, update.batch, self.shard_id);
            assert(extends(old_arena, before));
        }
        self.segments.push(update.batch);
        self.roots.push(entry);
        proof {
            let after = self.arena();
            crate::node::lemma_extends_trans(old_arena, before, after);
            assert forall|j: int| 0 <= j < self.roots.len() implies root_ok(
                after,
                (#[trigger] self.roots[j]).root,
                self.roots[j].root_hash,
            ) && root_tree(after, self.roots[j].root) == (if j < old_self.roots.len() {
                root_tree(old_arena, old_self.roots[j].root)
            } else {
                root_tree(before, update.root)
            }) by {
                if j < old_self.roots.len() {
                    assert(self.roots[j] == old_self.roots[j]);
                    assert(root_ok(old_arena, old_self.roots[j].root, old_self.roots[j].root_hash));
                    if let Some(r) = self.roots[j].root {
                        lemma_extends_tree(old_arena, after, self.shard_id, r);
                    }
                } else {
                    if let Some(r) = update.root {
                        lemma_extends_tree(before, after, self.shard_id, r);
                    }
                }
            }
            assert forall|s: int, o: int|
                0 <= s < self.segments.len() && 0 <= o < self.segments[s].len() implies (
            #[trigger] self.segments[s]@[o]).address.version == self.roots[s].version by {
                if s < old_self.segments.len() {
                    assert(self.segments[s] == old_self.segments[s]);
                    assert(old_self.segments[s]@[o].address.version == old_self.roots[s].version);
                } else {
                    assert(update.batch@[o].address.version == update.version);
                }
            }
            assert forall|s: int| 0 <= s < self.segments.len() implies distinct_paths(
                #[trigger] self.segments[s]@,
            ) by {
                if s < old_self.segments.len() {
                    assert(self.segments[s] == old_self.segments[s]);
                }
            }
            assert forall|j: int| 0 <= j < self.roots.len() implies mapping_in_shard(
                root_tree(after, (#[trigger] self.roots[j]).root).contents(),
                self.shard_id,
                self.num_shards,
            ) by {
                if j < old_self.roots.len() {
                    assert(mapping_in_shard(
                        root_tree(old_arena, old_self.roots[j].root).contents(),
                        old_self.shard_id,
                        old_self.num_shards,
                    ));
                }
            }
            assert forall|i: int, j: int| 0 <= i < j < self.roots.len() implies (
            #[trigger] self.roots[i]).version < (#[trigger] self.roots[j]).version by {
                if j < old_self.roots.len() {
                    assert(old_self.roots[i].version < old_self.roots[j].version);
                } else if i + 1 < j {
                    assert(old_self.roots[i].version < old_self.roots[j - 1].version);
                }
            }
            assert(self@.history =~= old_self@.history.push(
                Snapshot { version: update.version, mapping: old_self.updated_mapping(update) },
            ));
            assert forall|entries: Seq<(AddressView, CachedNode)>|
                old_self.caches(entries) implies #[trigger] self.caches(entries) by {
                assert forall|i: int| 0 <= i < entries.len() implies true_copy(
                    after,
                    #[trigger] entries[i],
                ) by {
                    assert(true_copy(old_arena, entries[i]));
                    let r = choose|r: NodeRef| entry_of(old_arena, entries[i], r);
                    lemma_extends_tree(old_arena, after, self.shard_id, r);
                    assert(entry_of(after, entries[i], r));
                }
            }
        }
    }

    /// The walk from the root of the version of index `index` towards `key`:
    /// the leaf at which it ends and the hashes left aside, lowest first. All
    /// nodes read belong to that one version's tree.
    #[verifier::rlimit(50)]
    pub fn prove(&self, index: usize, key: &HashValue) -> (proof: MerkleProof)
        requires
            self.wf(),
            index < self@.history.len(),
        ensures
            proof@ == shard_proof(self@.history[index as int].mapping, key@),
            proof.siblings.len() <= KEY_BITS,
    {
        let ghost arena = self.arena();
        let ghost total = root_tree(arena, self.roots[index as int].root);
        let ghost all = total.siblings(key@, 0);
        let ghost end = total.terminal(key@, 0);
        let ghost mut rest = all;
        let mut siblings: Vec<HashValue> = Vec::new();
        let mut leaf: Option<(HashValue, HashValue)> = None;
        let mut current: Option<NodeRef> = self.roots[index].root;
        let mut depth: usize = 0;
        proof {
            lemma_root_tree(
                arena,
                self.shard_id,
                self.roots[index as int].root,
                self.roots[index as int].root_hash,
            );
            lemma_walk_start(
                arena,
                self.roots[index as int].root,
                self.roots[index as int].root_hash,
                key@,
            );
            assert(all =~= rest + hashes_view(siblings@));
        }
        loop
            invariant_except_break
                leaf is None,
                walking(arena, current, key@, depth as nat, rest, end),
                all == rest + hashes_view(siblings@),
            invariant
                arena == arena_of(self.segments@, Seq::empty()),
                arena_wf(arena, self.shard_id),
                depth <= KEY_BITS,
                siblings.len() == depth,
            ensures
                siblings.len() <= KEY_BITS,
                all == hashes_view(siblings@),
                match end {
                    Tree::Leaf { key: k, value_hash } => leaf matches Some((lk, lv)) && lk@ == k
                        && lv@ == value_hash,
                    _ => leaf is None,
                },
            decreases KEY_BITS - depth,
        {
            let ghost done = hashes_view(siblings@);
            match step_towards(
                &self.segments,
                self.shard_id,
                current,
                key,
                depth,
                Ghost(rest),
                Ghost(end),
            ) {
                Step::End { leaf: found } => {
                    leaf = found;
                    proof {
                        assert(rest + done =~= done);
                    }
                    break ;
                },
                Step::Down { next, aside } => {
                    siblings.insert(0, aside);
                    proof {
                        assert(hashes_view(siblings@) =~= seq![aside@] + done);
                        assert(rest =~= rest.drop_last().push(aside@));
                        assert(rest.drop_last().push(aside@) + done =~= rest.drop_last() + (
                        seq![aside@] + done));
                        rest = rest.drop_last();
                    }
                    current = next;
                    depth += 1;
                },
            }
        }
        let proof = MerkleProof { leaf, siblings };
        proof {
            let m = self@.history[index as int].mapping;
            assert(tree_of(m) == total);
            assert(proof@.siblings == shard_proof(m, key@).siblings);
            assert(proof@.leaf == shard_proof(m, key@).leaf);
        }
        proof
    }

    /// The node at the place `r`, read through the cache: a hit answers from
    /// the shard's partition, a miss reads the shard and caches what it read.
    fn read_node(&self, cache: &mut NodeCache<CachedNode>, r: NodeRef) -> (n: CachedNode)
        requires
            self.wf(),
            valid_ref(self.arena(), r),
            old(cache).wf(),
            self.shard_id < old(cache)@.len(),
            self.caches(old(cache)@[self.shard_id as int].entries),
        ensures
            n.node == node_at(self.arena(), r).node,
            n.hash == node_at(self.arena(), r).hash,
            final(cache).wf(),
            final(cache)@.len() == old(cache)@.len(),
            forall|p: int|
                0 <= p < old(cache)@.len() && p != self.shard_id ==> #[trigger] final(cache)@[p]
                    == old(cache)@[p],
            final(cache)@[self.shard_id as int].capacity == old(
                cache,
            )@[self.shard_id as int].capacity,
            self.caches(final(cache)@[self.shard_id as int].entries),
    {
        let empty: Vec<StoredNode> = Vec::new();
        let ghost arena = self.arena();
        proof {
            assert(arena =~= arena_of(self.segments@, empty@));
        }
        let stored_node = get_node(&self.segments, &empty, r);
        let ghost before = cache@[self.shard_id as int].entries;
        let fresh = CachedNode { node: stored_node.node, hash: stored_node.hash };
        let found: Option<CachedNode> = match cache.get(self.shard_id, &stored_node.address) {
            Some(n) => Some(*n),
            None => None,
        };
        match found {
            Some(n) => {
                proof {
                    let i = position(before, stored_node.address@);
                    assert(true_copy(arena, before[i]));
                    let other = choose|other: NodeRef| entry_of(arena, before[i], other);
                    self.lemma_written_once(
                        r,
                        other,
                        node_at(arena, r).address,
                        node_at(arena, other).address,
                    );
                    let after = cache@[self.shard_id as int].entries;
                    assert forall|k: int| 0 <= k < after.len() implies true_copy(
                        arena,
                        #[trigger] after[k],
                    ) by {
                        let from = lemma_touched_members(before, i, k);
                        assert(true_copy(arena, before[from]));
                    }
                }
                n
            },
            None => {
                let ghost capacity = cache@[self.shard_id as int].capacity;
                cache.put(self.shard_id, copy_address(&stored_node.address), fresh);
                proof {
                    let key = stored_node.address@;
                    let after = cache@[self.shard_id as int].entries;
                    assert(after == stored(before, capacity, key, fresh));
                    assert forall|k: int| 0 <= k < after.len() implies true_copy(
                        arena,
                        #[trigger] after[k],
                    ) by {
                        let from = lemma_stored_members(before, capacity, key, fresh, k);
                        if after[k] == (key, fresh) {
                            assert(entry_of(arena, after[k], r));
                        } else {
                            assert(true_copy(arena, before[from]));
                        }
                    }
                }
                fresh
            },
        }
    }

    /// The step that the walk towards `key` takes at `current`, at depth
    /// `depth`, with every node read through the cache.
    fn step_cached(
        &self,
        cache: &mut NodeCache<CachedNode>,
        current: Option<NodeRef>,
        key: &HashValue,
        depth: usize,
        Ghost(rest): Ghost<Seq<Seq<u8>>>,
        Ghost(end): Ghost<Tree>,
    ) -> (step: Step)
        requires
            self.wf(),
            walking(self.arena(), current, key@, depth as nat, rest, end),
            old(cache).wf(),
            self.shard_id < old(cache)@.len(),
            self.caches(old(cache)@[self.shard_id as int].entries),
        ensures
            step_taken(self.arena(), key@, depth as nat, rest, end, step),
            final(cache).wf(),
            final(cache)@.len() == old(cache)@.len(),
            forall|p: int|
                0 <= p < old(cache)@.len() && p != self.shard_id ==> #[trigger] final(cache)@[p]
                    == old(cache)@[p],
            final(cache)@[self.shard_id as int].capacity == old(
                cache,
            )@[self.shard_id as int].capacity,
            self.caches(final(cache)@[self.shard_id as int].entries),
    {
        let ghost arena = self.arena();
        proof {
            lemma_walk_stands(arena, current, key@, depth as nat, rest, end);
        }
        let r = match current {
            Some(r) => r,
            None => {
                proof {
                    lemma_walk_ended(arena, current, key@, depth as nat, rest, end);
                }
                return Step::End { leaf: None };
            },
        };
        let here = self.read_node(cache, r);
        match here.node {
            Node::Leaf { key: k, value_hash } => {
                proof {
                    lemma_walk_ended(arena, current, key@, depth as nat, rest, end);
                }
                Step::End { leaf: Some((k, value_hash)) }
            },
            Node::Internal { left, right } => {
                proof {
                    lemma_walk_down(arena, self.shard_id, r, key@, depth as nat, rest, end);
                }
                let (next, aside) = if key.bit(depth) {
                    (right, left)
                } else {
                    (left, right)
                };
                let aside_hash = match aside {
                    Some(a) => self.read_node(cache, a).hash,
                    None => HashValue::placeholder(),
                };
                Step::Down { next, aside: aside_hash }
            },
        }
    }

    /// The walk of `prove`, with every node read through the cache. The proof
    /// is the one that `prove` gives, whatever the cache held; the partitions
    /// of other shards stay as they are.
    #[verifier::rlimit(50)]
    pub fn prove_cached(&self, cache: &mut NodeCache<CachedNode>, index: usize, key: &HashValue) -> (proof:
        MerkleProof)
        requires
            self.wf(),
            index < self@.history.len(),
            old(cache).wf(),
            self@.shard_id < old(cache)@.len(),
            self.caches(old(cache)@[self@.shard_id as int].entries),
        ensures
            proof@ == shard_proof(self@.history[index as int].mapping, key@),
            proof.siblings.len() <= KEY_BITS,
            final(cache).wf(),
            final(cache)@.len() == old(cache)@.len(),
            forall|p: int|
                0 <= p < old(cache)@.len() && p != self@.shard_id ==> #[trigger] final(cache)@[p]
                    == old(cache)@[p],
            final(cache)@[self@.shard_id as int].capacity == old(
                cache,
            )@[self@.shard_id as int].capacity,
            self.caches(final(cache)@[self@.shard_id as int].entries),
    {
        let ghost arena = self.arena();
        let ghost total = root_tree(arena, self.roots[index as int].root);
        let ghost all = total.siblings(key@, 0);
        let ghost end = total.terminal(key@, 0);
        let ghost mut rest = all;
        let ghost start = cache@;
        let mut siblings: Vec<HashValue> = Vec::new();
        let mut leaf: Option<(HashValue, HashValue)> = None;
        let mut current: Option<NodeRef> = self.roots[index].root;
        let mut depth: usize = 0;
        proof {
            lemma_root_tree(
                arena,
                self.shard_id,
                self.roots[index as int].root,
                self.roots[index as int].root_hash,
            );
            lemma_walk_start(
                arena,
                self.roots[index as int].root,
                self.roots[index as int].root_hash,
                key@,
            );
            assert(all =~= rest + hashes_view(siblings@));
        }
        loop
            invariant_except_break
                leaf is None,
                walking(arena, current, key@, depth as nat, rest, end),
                all == rest + hashes_view(siblings@),
            invariant
                self.wf(),
                arena == self.arena(),
                depth <= KEY_BITS,
                siblings.len() == depth,
                cache.wf(),
                cache@.len() == start.len(),
                self.shard_id < cache@.len(),
                forall|p: int|
                    0 <= p < start.len() && p != self.shard_id ==> #[trigger] cache@[p] == start[p],
                cache@[self.shard_id as int].capacity == start[self.shard_id as int].capacity,
                self.caches(cache@[self.shard_id as int].entries),
            ensures
                siblings.len() <= KEY_BITS,
                all == hashes_view(siblings@),
                match end {
                    Tree::Leaf { key: k, value_hash } => leaf matches Some((lk, lv)) && lk@ == k
                        && lv@ == value_hash,
                    _ => leaf is None,
                },
            decreases KEY_BITS - depth,
        {
            let ghost done = hashes_view(siblings@);
            match self.step_cached(cache, current, key, depth, Ghost(rest), Ghost(end)) {
                Step::End { leaf: found } => {
                    leaf = found;
                    proof {
                        assert(rest + done =~= done);
                    }
                    break ;
                },
                Step::Down { next, aside } => {
                    siblings.insert(0, aside);
                    proof {
                        assert(hashes_view(siblings@) =~= seq![aside@] + done);
                        assert(rest =~= rest.drop_last().push(aside@));
                        assert(rest.drop_last().push(aside@) + done =~= rest.drop_last() + (
                        seq![aside@] + done));
                        rest = rest.drop_last();
                    }
                    current = next;
                    depth += 1;
                },
            }
        }
        let proof = MerkleProof { leaf, siblings };
        proof {
            let m = self@.history[index as int].mapping;
            assert(tree_of(m) == total);
            assert(proof@.siblings == shard_proof(m, key@).siblings);
            assert(proof@.leaf == shard_proof(m, key@).leaf);
        }
        proof
    }
}

} // verus!

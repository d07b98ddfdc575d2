//! Merging a batch of updates into a shard tree.
//!
//! The merge walks the tree once. At every branch the batch is split by the
//! next bit of its keys; a side that receives no update is referenced as it
//! stands, and new nodes are written only where some update passes.

use vstd::prelude::*;
use crate::hash::{
    has_prefix, key_bit, key_prefix, lemma_full_path_one_key, lemma_hash_length, HashValue,
    KEY_BITS,
};
use crate::node::{
    arena_of, arena_wf, child_is_leaf, child_tree, extends, lemma_extends_node_wf,
    lemma_extends_trans, lemma_extends_tree, lemma_tree_at, node_at, node_wf, root_tree, tree_at,
    valid_ref, Arena, Node, NodeAddress, NodeRef, StoredNode,
};
use crate::tree::{lemma_keys_under_path, lemma_prefix_step, Tree};
use crate::updates::{
    apply_update, apply_updates, lemma_apply_single_key, lemma_apply_split, lemma_prefix_of_key,
    lemma_select_member, lemma_select_under, select_bit, sided, split_updates, updates_under,
    HashUpdate,
};

verus! {

/// A subtree while it is being merged: empty, a single binding that may not
/// have a node at this depth yet, or a branch that is stored.
#[derive(Clone, Copy, Debug)]
#[allow(inconsistent_fields)]
pub enum Subtree {
    Empty,
    Leaf { key: HashValue, value_hash: HashValue, at: Option<NodeRef> },
    Branch { at: NodeRef },
}

/// The tree that a subtree stands for.
pub open spec fn sub_tree(arena: Arena, sub: Subtree) -> Tree {
    match sub {
        Subtree::Empty => Tree::Empty,
        Subtree::Leaf { key, value_hash, at } => Tree::Leaf { key: key@, value_hash: value_hash@ },
        Subtree::Branch { at } => tree_at(arena, at),
    }
}

/// Whether a subtree is in order for the place reached by `path`.
pub open spec fn sub_wf(arena: Arena, sub: Subtree, path: Seq<bool>) -> bool {
    match sub {
        Subtree::Empty => true,
        Subtree::Leaf { key, value_hash, at } => {
            &&& has_prefix(key@, path)
            &&& at matches Some(r) ==> {
                &&& valid_ref(arena, r)
                &&& node_at(arena, r).node == (Node::Leaf { key, value_hash })
                &&& node_at(arena, r).address.path@ == path
            }
        },
        Subtree::Branch { at } => {
            &&& valid_ref(arena, at)
            &&& node_at(arena, at).node is Internal
            &&& node_at(arena, at).address.path@ == path
        },
    }
}

/// Whether every node of the segment being written carries `version`.
pub open spec fn batch_tagged(batch: Seq<StoredNode>, version: u64) -> bool {
    forall|i: int| 0 <= i < batch.len() ==> (#[trigger] batch[i]).address.version == version
}

/// Whether the path `p` leads through `path`.
pub open spec fn continues(p: Seq<bool>, path: Seq<bool>) -> bool {
    path.len() <= p.len() && p.take(path.len() as int) == path
}

/// Whether the path `p` lies on the way to an updated key, or directly beside
/// it: up to its last step it is the beginning of the path of some update.
pub open spec fn beside_update(p: Seq<bool>, ups: Seq<HashUpdate>) -> bool {
    p.len() == 0 || exists|j: int|
        0 <= j < ups.len() && has_prefix(#[trigger] ups[j].0@, p.drop_last())
}

/// Whether no two nodes of a segment have the same path.
pub open spec fn distinct_paths(batch: Seq<StoredNode>) -> bool {
    forall|i: int, j: int|
        0 <= i < j < batch.len() ==> (#[trigger] batch[i]).address.path@ != (
        #[trigger] batch[j]).address.path@
}

/// Whether every node of a segment lies on the way to an updated key or
/// directly beside it.
pub open spec fn along_updates(batch: Seq<StoredNode>, ups: Seq<HashUpdate>) -> bool {
    forall|i: int| 0 <= i < batch.len() ==> beside_update(#[trigger] batch[i].address.path@, ups)
}

/// What holds of the nodes that a merge below `path` adds to the segment
/// being written: each lies below `path`, on the way to an updated key or
/// directly beside it, and no two of them have the same path.
pub open spec fn written_below(
    before: Seq<StoredNode>,
    after: Seq<StoredNode>,
    path: Seq<bool>,
    ups: Seq<HashUpdate>,
) -> bool {
    &&& before.len() <= after.len()
    &&& forall|i: int|
        before.len() <= i < after.len() ==> {
            &&& continues(#[trigger] after[i].address.path@, path)
            &&& beside_update(after[i].address.path@, ups)
        }
    &&& forall|i: int, j: int|
        before.len() <= i < j < after.len() ==> (#[trigger] after[i]).address.path@ != (
        #[trigger] after[j]).address.path@
}

/// What the outcome of a merge says of what was written: a branch is the
/// last node written, at `path`, above everything else written; anything
/// else was given back without a node being written.
pub open spec fn outcome_written(
    before: Seq<StoredNode>,
    after: Seq<StoredNode>,
    segment: nat,
    path: Seq<bool>,
    out: Subtree,
) -> bool {
    match out {
        Subtree::Branch { at } => {
            &&& before.len() < after.len()
            &&& at.segment == segment
            &&& at.offset == after.len() - 1
            &&& after[after.len() - 1].address.path@ == path
            &&& forall|i: int|
                before.len() <= i < after.len() - 1 ==> path.len() < (
                #[trigger] after[i]).address.path@.len()
        },
        _ => after == before,
    }
}

/// A key under a path lies under the path without its last step.
pub proof fn lemma_prefix_shorter(key: Seq<u8>, path: Seq<bool>)
    requires
        has_prefix(key, path),
        path.len() > 0,
    ensures
        has_prefix(key, path.drop_last()),
{
    assert forall|i: int| 0 <= i < path.drop_last().len() implies key_bit(key, i)
        == path.drop_last()[i] by {
        assert(path.drop_last()[i] == path[i]);
    }
}

/// A subtree in order stands for a canonical tree.
pub proof fn lemma_sub_canonical(arena: Arena, shard_id: usize, sub: Subtree, path: Seq<bool>)
    requires
        arena_wf(arena, shard_id),
        sub_wf(arena, sub, path),
    ensures
        sub_tree(arena, sub).canonical(path),
        sub is Empty <==> sub_tree(arena, sub) is Empty,
        sub is Leaf <==> sub_tree(arena, sub) is Leaf,
{
    broadcast use lemma_hash_length;

    if let Subtree::Branch { at } = sub {
        lemma_tree_at(arena, shard_id, at);
    }
}

/// A subtree in order stays so, and stands for the same tree, when the arena
/// grows.
pub proof fn lemma_sub_extends(a: Arena, b: Arena, shard_id: usize, sub: Subtree, path: Seq<bool>)
    requires
        arena_wf(a, shard_id),
        extends(a, b),
        sub_wf(a, sub, path),
    ensures
        sub_wf(b, sub, path),
        sub_tree(b, sub) == sub_tree(a, sub),
{
    match sub {
        Subtree::Empty => {},
        Subtree::Leaf { key, value_hash, at } => {
            if let Some(r) = at {
                lemma_extends_tree(a, b, shard_id, r);
            }
        },
        Subtree::Branch { at } => {
            lemma_extends_tree(a, b, shard_id, at);
        },
    }
}

/// Writing one well-formed node at the end of the segment being written keeps
/// the arena well formed.
pub proof fn lemma_push_node(
    segments: Seq<Vec<StoredNode>>,
    batch: Seq<StoredNode>,
    shard_id: usize,
    node: StoredNode,
)
    requires
        arena_wf(arena_of(segments, batch), shard_id),
        node_wf(
            arena_of(segments, batch.push(node)),
            NodeRef { segment: segments.len() as usize, offset: batch.len() as usize },
            shard_id,
        ),
        segments.len() <= usize::MAX,
        batch.len() <= usize::MAX,
    ensures
        extends(arena_of(segments, batch), arena_of(segments, batch.push(node))),
        arena_wf(arena_of(segments, batch.push(node)), shard_id),
{
    let a = arena_of(segments, batch);
    let b = arena_of(segments, batch.push(node));
    let fresh = NodeRef { segment: segments.len() as usize, offset: batch.len() as usize };
    assert(extends(a, b));
    assert forall|r: NodeRef| #[trigger] valid_ref(b, r) implies node_wf(b, r, shard_id) by {
        if r != fresh {
            assert(valid_ref(a, r));
            lemma_extends_node_wf(a, b, shard_id, r);
        }
    }
}

/// The node that `r` names.
pub(crate) fn get_node<'a>(
    segments: &'a Vec<Vec<StoredNode>>,
    batch: &'a Vec<StoredNode>,
    r: NodeRef,
) -> (n: &'a StoredNode)
    requires
        valid_ref(arena_of(segments@, batch@), r),
    ensures
        *n == node_at(arena_of(segments@, batch@), r),
{
    if r.segment < segments.len() {
        &segments[r.segment][r.offset]
    } else {
        &batch[r.offset]
    }
}

/// The subtree below a child reference.
pub(crate) fn load_child(
    segments: &Vec<Vec<StoredNode>>,
    batch: &Vec<StoredNode>,
    shard_id: usize,
    child: Option<NodeRef>,
) -> (sub: Subtree)
    requires
        arena_wf(arena_of(segments@, batch@), shard_id),
        child matches Some(r) ==> valid_ref(arena_of(segments@, batch@), r),
    ensures
        child is None ==> sub is Empty,
        child matches Some(r) ==> sub_wf(
            arena_of(segments@, batch@),
            sub,
            node_at(arena_of(segments@, batch@), r).address.path@,
        ),
        child matches Some(r) ==> !(sub is Empty),
        sub_tree(arena_of(segments@, batch@), sub) == root_tree(arena_of(segments@, batch@), child),
        sub matches Subtree::Leaf { key, value_hash, at } ==> at == child,
        sub matches Subtree::Branch { at } ==> child == Some(at),
{
    match child {
        None => Subtree::Empty,
        Some(r) => {
            let n = get_node(segments, batch, r);
            proof {
                assert(node_wf(arena_of(segments@, batch@), r, shard_id));
            }
            match n.node {
                Node::Leaf { key, value_hash } => Subtree::Leaf { key, value_hash, at: Some(r) },
                Node::Internal { left, right } => Subtree::Branch { at: r },
            }
        },
    }
}

/// The first `depth` bits of `key`, as the path of a node.
pub(crate) fn path_of(key: &HashValue, depth: usize) -> (path: Vec<bool>)
    requires
        depth <= KEY_BITS,
    ensures
        path@ == key_prefix(key@, depth as nat),
{
    let mut path: Vec<bool> = Vec::new();
    let mut i: usize = 0;
    while i < depth
        invariant
            i <= depth <= KEY_BITS,
            path@ == key_prefix(key@, i as nat),
        decreases depth - i,
    {
        path.push(key.bit(i));
        proof {
            lemma_prefix_step(key@, i as nat);
        }
        i += 1;
    }
    path
}

/// Gives a subtree its node at the place reached by `path`: a binding that
/// has no node there yet gets a new leaf, anything else is referenced as it
/// stands.
pub(crate) fn place(
    segments: &Vec<Vec<StoredNode>>,
    batch: &mut Vec<StoredNode>,
    shard_id: usize,
    version: u64,
    sub: Subtree,
    depth: usize,
    Ghost(path): Ghost<Seq<bool>>,
) -> (out: (Option<NodeRef>, HashValue))
    requires
        path.len() == depth <= KEY_BITS,
        arena_wf(arena_of(segments@, old(batch)@), shard_id),
        sub_wf(arena_of(segments@, old(batch)@), sub, path),
        batch_tagged(old(batch)@, version),
    ensures
        extends(arena_of(segments@, old(batch)@), arena_of(segments@, final(batch)@)),
        arena_wf(arena_of(segments@, final(batch)@), shard_id),
        batch_tagged(final(batch)@, version),
        out.0 is None <==> sub is Empty,
        out.0 matches Some(r) ==> {
            &&& valid_ref(arena_of(segments@, final(batch)@), r)
            &&& node_at(arena_of(segments@, final(batch)@), r).address.path@ == path
        },
        child_is_leaf(arena_of(segments@, final(batch)@), out.0) <==> sub is Leaf,
        root_tree(arena_of(segments@, final(batch)@), out.0) == sub_tree(
            arena_of(segments@, old(batch)@),
            sub,
        ),
        out.1@ == sub_tree(arena_of(segments@, old(batch)@), sub).hash(),
        if sub matches Subtree::Leaf { key, value_hash, at: None } {
            &&& final(batch)@.len() == old(batch)@.len() + 1
            &&& final(batch)@.drop_last() == old(batch)@
            &&& final(batch)@.last().address.path@ == path
        } else {
            final(batch)@ == old(batch)@
        },
{
    let ghost before = arena_of(segments@, batch@);
    match sub {
        Subtree::Empty => (None, HashValue::placeholder()),
        Subtree::Branch { at } => {
            let hash = get_node(segments, batch, at).hash;
            proof {
                lemma_tree_at(before, shard_id, at);
            }
            (Some(at), hash)
        },
        Subtree::Leaf { key, value_hash, at: Some(r) } => {
            let hash = get_node(segments, batch, r).hash;
            proof {
                lemma_tree_at(before, shard_id, r);
            }
            (Some(r), hash)
        },
        Subtree::Leaf { key, value_hash, at: None } => {
            let hash = HashValue::of_leaf(&key, &value_hash);
            let node = StoredNode {
                address: NodeAddress { shard_id, version, path: path_of(&key, depth) },
                node: Node::Leaf { key, value_hash },
                hash,
            };
            let fresh = NodeRef { segment: segments.len(), offset: batch.len() };
            proof {
                lemma_prefix_of_key(key@, path);
                let after = arena_of(segments@, batch@.push(node));
                assert(node_at(after, fresh) == node);
                assert(node_wf(after, fresh, shard_id));
                lemma_push_node(segments@, batch@, shard_id, node);
            }
            let ghost held = batch@;
            batch.push(node);
            proof {
                lemma_tree_at(arena_of(segments@, batch@), shard_id, fresh);
                assert(batch@.drop_last() =~= held);
            }
            (Some(fresh), hash)
        },
    }
}

/// Writes the branch at the place reached by `path` over two children that
/// have their nodes.
fn write_branch(
    segments: &Vec<Vec<StoredNode>>,
    batch: &mut Vec<StoredNode>,
    shard_id: usize,
    version: u64,
    left: (Option<NodeRef>, HashValue),
    right: (Option<NodeRef>, HashValue),
    depth: usize,
    anchor: &HashValue,
    Ghost(path): Ghost<Seq<bool>>,
) -> (at: NodeRef)
    requires
        path.len() == depth < KEY_BITS,
        has_prefix(anchor@, path),
        arena_wf(arena_of(segments@, old(batch)@), shard_id),
        batch_tagged(old(batch)@, version),
        left.0 matches Some(r) ==> valid_ref(arena_of(segments@, old(batch)@), r) && node_at(
            arena_of(segments@, old(batch)@),
            r,
        ).address.path@ == path.push(false),
        right.0 matches Some(r) ==> valid_ref(arena_of(segments@, old(batch)@), r) && node_at(
            arena_of(segments@, old(batch)@),
            r,
        ).address.path@ == path.push(true),
        left.1@ == root_tree(arena_of(segments@, old(batch)@), left.0).hash(),
        right.1@ == root_tree(arena_of(segments@, old(batch)@), right.0).hash(),
        !(left.0 is None && right.0 is None),
        !(left.0 is None && child_is_leaf(arena_of(segments@, old(batch)@), right.0)),
        !(right.0 is None && child_is_leaf(arena_of(segments@, old(batch)@), left.0)),
    ensures
        extends(arena_of(segments@, old(batch)@), arena_of(segments@, final(batch)@)),
        arena_wf(arena_of(segments@, final(batch)@), shard_id),
        batch_tagged(final(batch)@, version),
        final(batch)@.len() == old(batch)@.len() + 1,
        final(batch)@.drop_last() == old(batch)@,
        final(batch)@.last().address.path@ == path,
        at == (NodeRef { segment: segments.len(), offset: old(batch).len() }),
        sub_wf(arena_of(segments@, final(batch)@), Subtree::Branch { at }, path),
        tree_at(arena_of(segments@, final(batch)@), at).contents() == root_tree(
            arena_of(segments@, old(batch)@),
            left.0,
        ).contents().union_prefer_right(
            root_tree(arena_of(segments@, old(batch)@), right.0).contents(),
        ),
{
    let ghost a2 = arena_of(segments@, batch@);
    let ghost held = batch@;
    let hash = HashValue::of_internal(&left.1, &right.1);
    let node = StoredNode {
        address: NodeAddress { shard_id, version, path: path_of(anchor, depth) },
        node: Node::Internal { left: left.0, right: right.0 },
        hash,
    };
    let fresh = NodeRef { segment: segments.len(), offset: batch.len() };
    proof {
        lemma_prefix_of_key(anchor@, path);
        let a3 = arena_of(segments@, batch@.push(node));
        assert(extends(a2, a3));
        if let Some(l) = left.0 {
            lemma_extends_tree(a2, a3, shard_id, l);
            lemma_tree_at(a2, shard_id, l);
        }
        if let Some(r) = right.0 {
            lemma_extends_tree(a2, a3, shard_id, r);
            lemma_tree_at(a2, shard_id, r);
        }
        assert(node_at(a3, fresh) == node);
        assert(node_wf(a3, fresh, shard_id));
        lemma_push_node(segments@, batch@, shard_id, node);
    }
    batch.push(node);
    proof {
        let a3 = arena_of(segments@, batch@);
        assert(tree_at(a3, fresh)->left == child_tree(a3, left.0, fresh));
        assert(tree_at(a3, fresh)->right == child_tree(a3, right.0, fresh));
        assert(batch@.drop_last() =~= held);
    }
    fresh
}

/// Joins the two sides of a branch at the place reached by `path`. A branch
/// that would cover a single binding gives way to that binding; one that
/// would cover none gives way to the empty subtree.
#[verifier::rlimit(30)]
pub(crate) fn join(
    segments: &Vec<Vec<StoredNode>>,
    batch: &mut Vec<StoredNode>,
    shard_id: usize,
    version: u64,
    left: Subtree,
    right: Subtree,
    depth: usize,
    anchor: &HashValue,
    Ghost(path): Ghost<Seq<bool>>,
) -> (out: Subtree)
    requires
        path.len() == depth < KEY_BITS,
        has_prefix(anchor@, path),
        arena_wf(arena_of(segments@, old(batch)@), shard_id),
        sub_wf(arena_of(segments@, old(batch)@), left, path.push(false)),
        sub_wf(arena_of(segments@, old(batch)@), right, path.push(true)),
        batch_tagged(old(batch)@, version),
    ensures
        extends(arena_of(segments@, old(batch)@), arena_of(segments@, final(batch)@)),
        arena_wf(arena_of(segments@, final(batch)@), shard_id),
        batch_tagged(final(batch)@, version),
        sub_wf(arena_of(segments@, final(batch)@), out, path),
        sub_tree(arena_of(segments@, final(batch)@), out).contents() == sub_tree(
            arena_of(segments@, old(batch)@),
            left,
        ).contents().union_prefer_right(
            sub_tree(arena_of(segments@, old(batch)@), right).contents(),
        ),
        out is Branch <==> (left is Branch || right is Branch || (left is Leaf && right is Leaf)),
        outcome_written(old(batch)@, final(batch)@, segments@.len(), path, out),
        joined_nodes(old(batch)@, final(batch)@, path, left, right),
{
    let ghost a0 = arena_of(segments@, batch@);
    let ghost b0 = batch@;
    match (left, right) {
        (Subtree::Empty, Subtree::Empty) => {
            proof {
                assert(Tree::Empty.contents() =~= Tree::Empty.contents().union_prefer_right(
                    Tree::Empty.contents(),
                ));
            }
            Subtree::Empty
        },
        (Subtree::Leaf { key, value_hash, at }, Subtree::Empty) => {
            let out = Subtree::Leaf { key, value_hash, at: None };
            proof {
                assert forall|i: int| 0 <= i < path.len() implies key_bit(key@, i) == path[i] by {
                    assert(path.push(false)[i] == path[i]);
                }
                assert(sub_tree(a0, out).contents() =~= sub_tree(
                    a0,
                    left,
                ).contents().union_prefer_right(Tree::Empty.contents()));
            }
            out
        },
        (Subtree::Empty, Subtree::Leaf { key, value_hash, at }) => {
            let out = Subtree::Leaf { key, value_hash, at: None };
            proof {
                assert forall|i: int| 0 <= i < path.len() implies key_bit(key@, i) == path[i] by {
                    assert(path.push(true)[i] == path[i]);
                }
                assert(sub_tree(a0, out).contents() =~= Tree::Empty.contents().union_prefer_right(
                    sub_tree(a0, right).contents(),
                ));
            }
            out
        },
        _ => {
            let placed_left = place(
                segments,
                batch,
                shard_id,
                version,
                left,
                depth + 1,
                Ghost(path.push(false)),
            );
            let ghost a1 = arena_of(segments@, batch@);
            let ghost b1 = batch@;
            proof {
                lemma_sub_extends(a0, a1, shard_id, right, path.push(true));
            }
            let placed_right = place(
                segments,
                batch,
                shard_id,
                version,
                right,
                depth + 1,
                Ghost(path.push(true)),
            );
            let ghost a2 = arena_of(segments@, batch@);
            let ghost b2 = batch@;
            proof {
                lemma_extends_trans(a0, a1, a2);
                if let Some(l) = placed_left.0 {
                    lemma_extends_tree(a1, a2, shard_id, l);
                }
            }
            let at = write_branch(
                segments,
                batch,
                shard_id,
                version,
                placed_left,
                placed_right,
                depth,
                anchor,
                Ghost(path),
            );
            proof {
                let b3 = batch@;
                lemma_extends_trans(a0, a2, arena_of(segments@, batch@));
                lemma_joined(b0, b1, b2, b3, path, left, right);
            }
            Subtree::Branch { at }
        },
    }
}

/// What a join writes besides the branch itself: the leaf of a side that is
/// a single binding without a node at its place.
pub open spec fn joined_nodes(
    before: Seq<StoredNode>,
    after: Seq<StoredNode>,
    path: Seq<bool>,
    left: Subtree,
    right: Subtree,
) -> bool {
    &&& forall|i: int|
        before.len() <= i < after.len() - 1 ==> {
            ||| (#[trigger] after[i]).address.path@ == path.push(false) && (
            left matches Subtree::Leaf { key, value_hash, at: None })
            ||| after[i].address.path@ == path.push(true) && (
            right matches Subtree::Leaf { key, value_hash, at: None })
        }
    &&& forall|i: int, j: int|
        before.len() <= i < j < after.len() ==> (#[trigger] after[i]).address.path@ != (
        #[trigger] after[j]).address.path@
}

/// The nodes that a join writes, from what its three steps wrote.
proof fn lemma_joined(
    b0: Seq<StoredNode>,
    b1: Seq<StoredNode>,
    b2: Seq<StoredNode>,
    b3: Seq<StoredNode>,
    path: Seq<bool>,
    left: Subtree,
    right: Subtree,
)
    requires
        if left matches Subtree::Leaf { key, value_hash, at: None } {
            &&& b1.len() == b0.len() + 1
            &&& b1.drop_last() == b0
            &&& b1.last().address.path@ == path.push(false)
        } else {
            b1 == b0
        },
        if right matches Subtree::Leaf { key, value_hash, at: None } {
            &&& b2.len() == b1.len() + 1
            &&& b2.drop_last() == b1
            &&& b2.last().address.path@ == path.push(true)
        } else {
            b2 == b1
        },
        b3.len() == b2.len() + 1,
        b3.drop_last() == b2,
        b3.last().address.path@ == path,
    ensures
        joined_nodes(b0, b3, path, left, right),
        forall|i: int|
            b0.len() <= i < b3.len() - 1 ==> path.len() < (#[trigger] b3[i]).address.path@.len(),
{
    let depth = path.len() as int;
    assert(path.push(false)[depth] != path.push(true)[depth]);
    assert forall|i: int| b0.len() <= i < b3.len() - 1 implies {
        &&& {
            ||| (#[trigger] b3[i]).address.path@ == path.push(false) && (
            left matches Subtree::Leaf { key, value_hash, at: None })
            ||| b3[i].address.path@ == path.push(true) && (
            right matches Subtree::Leaf { key, value_hash, at: None })
        }
        &&& path.len() < b3[i].address.path@.len()
    } by {
        assert(b3[i] == b3.drop_last()[i]);
        if i < b1.len() {
            if b2.len() > b1.len() {
                assert(b2[i] == b2.drop_last()[i]);
            }
            assert(b1[i] == b1.last());
        } else {
            assert(b2[i] == b2.last());
        }
    }
    assert forall|i: int, j: int| b0.len() <= i < j < b3.len() implies (
    #[trigger] b3[i]).address.path@ != (#[trigger] b3[j]).address.path@ by {
        assert(path.len() < b3[i].address.path@.len());
        if j < b3.len() - 1 {
            assert(path.len() < b3[j].address.path@.len());
            assert(b3[i] == b3.drop_last()[i]);
            assert(b3[j] == b3.drop_last()[j]);
            assert(i == b0.len() && j == b0.len() + 1);
            assert(b2[j] == b2.last());
            assert(b2[i] == b2.drop_last()[i]);
            assert(b1[i] == b1.last());
        }
    }
}

/// Whether `longer` holds every node of `shorter` at the same place.
pub open spec fn batch_grown(shorter: Seq<StoredNode>, longer: Seq<StoredNode>) -> bool {
    &&& shorter.len() <= longer.len()
    &&& forall|i: int| 0 <= i < shorter.len() ==> (#[trigger] longer[i]) == shorter[i]
}

/// The arena grows exactly as the segment being written grows.
pub proof fn lemma_batch_grown(
    segments: Seq<Vec<StoredNode>>,
    shorter: Seq<StoredNode>,
    longer: Seq<StoredNode>,
)
    requires
        extends(arena_of(segments, shorter), arena_of(segments, longer)),
    ensures
        batch_grown(shorter, longer),
{
    let a = arena_of(segments, shorter);
    let b = arena_of(segments, longer);
    let last = segments.len() as int;
    assert(a[last] == shorter);
    assert(b[last] == longer);
    assert(a[last].len() <= b[last].len());
    assert forall|i: int| 0 <= i < shorter.len() implies (#[trigger] longer[i]) == shorter[i] by {
        assert(b[last][i] == a[last][i]);
    }
}

/// What a merge at a branch wrote, from what the merges of its two sides and
/// the join wrote.
#[verifier::rlimit(50)]
proof fn lemma_merged(
    b0: Seq<StoredNode>,
    b1: Seq<StoredNode>,
    b2: Seq<StoredNode>,
    b3: Seq<StoredNode>,
    segment: nat,
    path: Seq<bool>,
    ups: Seq<HashUpdate>,
    new_left: Subtree,
    new_right: Subtree,
    out: Subtree,
)
    requires
        path.len() < KEY_BITS,
        ups.len() > 0,
        updates_under(ups, path),
        batch_grown(b0, b1),
        batch_grown(b1, b2),
        batch_grown(b2, b3),
        if select_bit(ups, path.len() as int, false).len() > 0 {
            &&& written_below(b0, b1, path.push(false), select_bit(ups, path.len() as int, false))
            &&& outcome_written(b0, b1, segment, path.push(false), new_left)
        } else {
            b1 == b0
        },
        if select_bit(ups, path.len() as int, true).len() > 0 {
            &&& written_below(b1, b2, path.push(true), select_bit(ups, path.len() as int, true))
            &&& outcome_written(b1, b2, segment, path.push(true), new_right)
        } else {
            b2 == b1
        },
        new_left is Branch || b1 == b0,
        new_right is Branch || b2 == b1,
        outcome_written(b2, b3, segment, path, out),
        joined_nodes(b2, b3, path, new_left, new_right),
        out is Branch <==> (new_left is Branch || new_right is Branch || (new_left is Leaf
            && new_right is Leaf)),
    ensures
        written_below(b0, b3, path, ups),
        outcome_written(b0, b3, segment, path, out),
{
    let depth = path.len() as int;
    let lpath = path.push(false);
    let rpath = path.push(true);
    let zeros = select_bit(ups, depth, false);
    let ones = select_bit(ups, depth, true);
    assert(lpath[depth] != rpath[depth]);
    assert(has_prefix(ups[0].0@, path));
    // Where each written node lies.
    assert forall|i: int| b0.len() <= i < b3.len() implies {
        &&& continues(#[trigger] b3[i].address.path@, path)
        &&& beside_update(b3[i].address.path@, ups)
        &&& (i < b3.len() - 1 || !(out is Branch) ==> path.len() < b3[i].address.path@.len())
        &&& (i < b1.len() ==> continues(b3[i].address.path@, lpath) && new_left is Branch)
        &&& (b1.len() <= i < b2.len() ==> continues(b3[i].address.path@, rpath)
            && new_right is Branch)
        &&& (b2.len() <= i < b3.len() - 1 ==> b3[i].address.path@ == lpath || b3[i].address.path@
            == rpath)
    } by {
        let p = b3[i].address.path@;
        if i < b1.len() {
            assert(b3[i] == b2[i] && b2[i] == b1[i]);
            assert(continues(p, lpath));
            assert(p.take(depth) =~= p.take(depth + 1).take(depth));
            assert(lpath.take(depth) =~= path);
            assert(beside_update(p, zeros));
            let j = choose|j: int| 0 <= j < zeros.len() && has_prefix(#[trigger] zeros[j].0@, p.drop_last());
            let k = lemma_select_member(ups, depth, false, j);
        } else if i < b2.len() {
            assert(b3[i] == b2[i]);
            assert(continues(p, rpath));
            assert(p.take(depth) =~= p.take(depth + 1).take(depth));
            assert(rpath.take(depth) =~= path);
            assert(beside_update(p, ones));
            let j = choose|j: int| 0 <= j < ones.len() && has_prefix(#[trigger] ones[j].0@, p.drop_last());
            let k = lemma_select_member(ups, depth, true, j);
        } else if i < b3.len() - 1 {
            assert(p == lpath || p == rpath);
            assert(lpath.take(depth) =~= path);
            assert(rpath.take(depth) =~= path);
            assert(lpath.drop_last() =~= path);
            assert(rpath.drop_last() =~= path);
        } else {
            assert(out is Branch);
            assert(p == path);
            assert(path.take(depth) =~= path);
            if path.len() > 0 {
                lemma_prefix_shorter(ups[0].0@, path);
            }
        }
    }
    // No two written nodes have one path.
    assert forall|i: int, j: int| b0.len() <= i < j < b3.len() implies (
    #[trigger] b3[i]).address.path@ != (#[trigger] b3[j]).address.path@ by {
        let p = b3[i].address.path@;
        let q = b3[j].address.path@;
        if j < b1.len() {
            assert(b3[i] == b2[i] && b2[i] == b1[i]);
            assert(b3[j] == b2[j] && b2[j] == b1[j]);
        } else if j < b2.len() {
            if i < b1.len() {
                assert(p.take(depth + 1)[depth] == p[depth]);
                assert(q.take(depth + 1)[depth] == q[depth]);
            } else {
                assert(b3[i] == b2[i]);
                assert(b3[j] == b2[j]);
            }
        } else if j < b3.len() - 1 {
            if i < b2.len() {
                assert(p.take(depth + 1)[depth] == p[depth]);
                if q == lpath {
                    assert(!(new_left is Branch));
                } else {
                    assert(!(new_right is Branch));
                }
            }
        } else {
        }
    }
}

/// Whether all updates are of one key, and `existing`, where there is one, is
/// that key too.
pub(crate) fn single_key(ups: &Vec<HashUpdate>, existing: Option<HashValue>) -> (single: bool)
    requires
        ups.len() > 0,
    ensures
        single == ((forall|j: int| 0 <= j < ups.len() ==> #[trigger] ups[j].0@ == ups[0].0@) && (
        existing matches Some(k) ==> k@ == ups[0].0@)),
{
    let first: HashValue = ups[0].0;
    if let Some(k) = existing {
        if !k.equals(&first) {
            return false;
        }
    }
    let mut i: usize = 1;
    while i < ups.len()
        invariant
            1 <= i <= ups.len(),
            first == ups[0].0,
            forall|j: int| 0 <= j < i ==> #[trigger] ups[j].0@ == ups[0].0@,
        decreases ups.len() - i,
    {
        if !ups[i].0.equals(&first) {
            return false;
        }
        i += 1;
    }
    true
}

/// Merges the updates `ups`, all of which lie under `path`, into the subtree
/// at the place reached by `path`.
#[verifier::rlimit(40)]
pub(crate) fn update_subtree(
    segments: &Vec<Vec<StoredNode>>,
    batch: &mut Vec<StoredNode>,
    shard_id: usize,
    version: u64,
    sub: Subtree,
    depth: usize,
    ups: &Vec<HashUpdate>,
    Ghost(path): Ghost<Seq<bool>>,
) -> (out: Subtree)
    requires
        ups.len() > 0,
        path.len() == depth <= KEY_BITS,
        updates_under(ups@, path),
        arena_wf(arena_of(segments@, old(batch)@), shard_id),
        sub_wf(arena_of(segments@, old(batch)@), sub, path),
        batch_tagged(old(batch)@, version),
    ensures
        extends(arena_of(segments@, old(batch)@), arena_of(segments@, final(batch)@)),
        arena_wf(arena_of(segments@, final(batch)@), shard_id),
        batch_tagged(final(batch)@, version),
        sub_wf(arena_of(segments@, final(batch)@), out, path),
        sub_tree(arena_of(segments@, final(batch)@), out).contents() == apply_updates(
            sub_tree(arena_of(segments@, old(batch)@), sub).contents(),
            ups@,
        ),
        written_below(old(batch)@, final(batch)@, path, ups@),
        outcome_written(old(batch)@, final(batch)@, segments@.len(), path, out),
    decreases KEY_BITS - depth,
{
    let ghost a0 = arena_of(segments@, batch@);
    let ghost b0 = batch@;
    let ghost before = sub_tree(a0, sub).contents();
    let anchor: HashValue = ups[0].0;
    proof {
        lemma_hash_length(anchor);
        lemma_sub_canonical(a0, shard_id, sub, path);
        assert(has_prefix(ups@[0].0@, path));
    }
    let existing: Option<HashValue> = match sub {
        Subtree::Leaf { key, value_hash, at } => Some(key),
        _ => None,
    };
    let sides: Option<(Subtree, Subtree)> = match sub {
        Subtree::Branch { at } => {
            let n = get_node(segments, batch, at);
            proof {
                assert(node_wf(a0, at, shard_id));
                lemma_tree_at(a0, shard_id, at);
            }
            match n.node {
                Node::Internal { left, right } => Some(
                    (
                        load_child(segments, batch, shard_id, left),
                        load_child(segments, batch, shard_id, right),
                    ),
                ),
                Node::Leaf { key, value_hash } => None,
            }
        },
        _ => {
            if single_key(ups, existing) {
                None
            } else {
                proof {
                    if depth == KEY_BITS {
                        assert forall|j: int| 0 <= j < ups.len() implies #[trigger] ups[j].0@
                            == ups[0].0@ by {
                            lemma_hash_length(ups[j].0);
                            assert(has_prefix(ups@[j].0@, path));
                            lemma_full_path_one_key(ups[j].0@, ups[0].0@, path);
                        }
                        if let Some(k) = existing {
                            lemma_hash_length(k);
                            lemma_full_path_one_key(k@, ups[0].0@, path);
                        }
                    }
                }
                match sub {
                    Subtree::Leaf { key, value_hash, at } => {
                        let moved = Subtree::Leaf { key, value_hash, at: None };
                        if key.bit(depth) {
                            Some((Subtree::Empty, moved))
                        } else {
                            Some((moved, Subtree::Empty))
                        }
                    },
                    _ => Some((Subtree::Empty, Subtree::Empty)),
                }
            }
        },
    };
    match sides {
        None => {
            // Every update is of one key, and the subtree holds no other key:
            // the last update decides.
            let last: HashUpdate = ups[ups.len() - 1];
            proof {
                assert(!(sub is Branch));
                assert forall|k: Seq<u8>| #[trigger] before.contains_key(k) implies k == anchor@ by {}
                lemma_apply_single_key(before, ups@, anchor@);
                assert(ups@[ups.len() - 1].0@ == anchor@);
                assert(has_prefix(last.0@, path));
            }
            match last.1 {
                Some(value_hash) => {
                    let out = Subtree::Leaf { key: last.0, value_hash, at: None };
                    proof {
                        assert(sub_tree(a0, out).contents() =~= apply_update(Map::empty(), last));
                    }
                    out
                },
                None => {
                    proof {
                        assert(Tree::Empty.contents() =~= apply_update(Map::empty(), last));
                    }
                    Subtree::Empty
                },
            }
        },
        Some((left, right)) => {
            let ghost lpath = path.push(false);
            let ghost rpath = path.push(true);
            proof {
                assert(depth < KEY_BITS);
                assert(sub_wf(a0, left, lpath) && sub_wf(a0, right, rpath) && before =~= sub_tree(
                    a0,
                    left,
                ).contents().union_prefer_right(sub_tree(a0, right).contents())) by {
                    match sub {
                        Subtree::Branch { at } => {
                            assert(node_wf(a0, at, shard_id));
                            lemma_tree_at(a0, shard_id, at);
                            let t = tree_at(a0, at);
                            assert(*t->left == child_tree(a0, node_at(a0, at).node->left, at));
                            assert(*t->right == child_tree(a0, node_at(a0, at).node->right, at));
                        },
                        Subtree::Leaf { key, value_hash, at } => {
                            assert(lpath[depth as int] == false);
                            assert(rpath[depth as int] == true);
                            assert forall|i: int| 0 <= i < depth + 1 implies (key_bit(key@, i) == (
                            if key_bit(key@, depth as int) {
                                rpath
                            } else {
                                lpath
                            })[i]) by {
                                if i < depth {
                                    assert(lpath[i] == path[i]);
                                    assert(rpath[i] == path[i]);
                                }
                            }
                        },
                        Subtree::Empty => {},
                    }
                }
                lemma_sub_canonical(a0, shard_id, left, lpath);
                lemma_sub_canonical(a0, shard_id, right, rpath);
                assert(sided(sub_tree(a0, left).contents(), depth as int, false)) by {
                    assert forall|k: Seq<u8>| #[trigger]
                        sub_tree(a0, left).contents().contains_key(k) implies key_bit(k, depth as int)
                        == false by {
                        lemma_keys_under_path(sub_tree(a0, left), lpath, k);
                        assert(lpath[depth as int] == false);
                    }
                }
                assert(sided(sub_tree(a0, right).contents(), depth as int, true)) by {
                    assert forall|k: Seq<u8>| #[trigger]
                        sub_tree(a0, right).contents().contains_key(k) implies key_bit(
                        k,
                        depth as int,
                    ) == true by {
                        lemma_keys_under_path(sub_tree(a0, right), rpath, k);
                        assert(rpath[depth as int] == true);
                    }
                }
                lemma_apply_split(
                    sub_tree(a0, left).contents(),
                    sub_tree(a0, right).contents(),
                    ups@,
                    depth as int,
                );
                lemma_select_under(ups@, path, false);
                lemma_select_under(ups@, path, true);
            }
            let (zeros, ones) = split_updates(ups, depth);
            let new_left = if zeros.len() > 0 {
                update_subtree(
                    segments,
                    batch,
                    shard_id,
                    version,
                    left,
                    depth + 1,
                    &zeros,
                    Ghost(lpath),
                )
            } else {
                left
            };
            let ghost a1 = arena_of(segments@, batch@);
            let ghost b1 = batch@;
            proof {
                lemma_sub_extends(a0, a1, shard_id, right, rpath);
                lemma_sub_extends(a0, a1, shard_id, left, lpath);
                lemma_batch_grown(segments@, b0, b1);
            }
            let new_right = if ones.len() > 0 {
                update_subtree(
                    segments,
                    batch,
                    shard_id,
                    version,
                    right,
                    depth + 1,
                    &ones,
                    Ghost(rpath),
                )
            } else {
                right
            };
            let ghost a2 = arena_of(segments@, batch@);
            let ghost b2 = batch@;
            proof {
                lemma_sub_extends(a1, a2, shard_id, new_left, lpath);
                lemma_sub_extends(a1, a2, shard_id, right, rpath);
                lemma_extends_trans(a0, a1, a2);
                lemma_batch_grown(segments@, b1, b2);
            }
            let out = join(
                segments,
                batch,
                shard_id,
                version,
                new_left,
                new_right,
                depth,
                &anchor,
                Ghost(path),
            );
            proof {
                lemma_extends_trans(a0, a2, arena_of(segments@, batch@));
                lemma_batch_grown(segments@, b2, batch@);
                assert(new_left is Branch || b1 == b0) by {
                    if zeros.len() == 0 {
                        assert(b1 == b0);
                    }
                }
                assert(new_right is Branch || b2 == b1) by {
                    if ones.len() == 0 {
                        assert(b2 == b1);
                    }
                }
                lemma_merged(
                    b0,
                    b1,
                    b2,
                    batch@,
                    segments@.len(),
                    path,
                    ups@,
                    new_left,
                    new_right,
                    out,
                );
            }
            out
        },
    }
}

} // verus!

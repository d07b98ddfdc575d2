//! The nodes of a shard tree as they are stored, and the arena that holds them.
//!
//! Nodes are never changed once written. Every version appends one segment of
//! new nodes to a shard's arena; a node refers to its children by segment and
//! offset, and only to nodes written before it.

use vstd::prelude::*;
use crate::hash::{
    has_prefix, internal_hash, leaf_hash, lemma_hash_length, placeholder_hash, HashValue, KEY_BITS,
};
use crate::tree::Tree;

verus! {

/// Where a node lives in a shard's arena: the segment of the version that
/// wrote it, and its place in that segment.
#[derive(Clone, Copy, Debug, PartialEq, Eq, Structural)]
pub struct NodeRef {
    pub segment: usize,
    pub offset: usize,
}

/// The address under which a node is persisted: the namespace of its shard,
/// the version that wrote it, and the path from the shard root down to it.
#[derive(Clone, Debug, PartialEq, Eq)]
pub struct NodeAddress {
    pub shard_id: usize,
    pub version: u64,
    pub path: Vec<bool>,
}

/// A node address as a mathematical value.
pub struct AddressView {
    pub shard_id: usize,
    pub version: u64,
    pub path: Seq<bool>,
}

impl View for NodeAddress {
    type V = AddressView;

    open spec fn view(&self) -> AddressView {
        AddressView { shard_id: self.shard_id, version: self.version, path: self.path@ }
    }
}

/// A node of a shard tree.
#[derive(Clone, Copy, Debug, PartialEq, Eq)]
pub enum Node {
    /// A branch on the next bit of the key; an absent child is an empty
    /// subtree.
    Internal { left: Option<NodeRef>, right: Option<NodeRef> },
    /// The binding of a key to the hash of its value.
    Leaf { key: HashValue, value_hash: HashValue },
}

/// A node together with its address and its Merkle hash.
#[derive(Clone, Debug, PartialEq, Eq)]
pub struct StoredNode {
    pub address: NodeAddress,
    pub node: Node,
    pub hash: HashValue,
}

/// The nodes of one shard, one sequence per version that wrote any.
pub type Arena = Seq<Seq<StoredNode>>;

/// The arena made of the committed segments and, after them, the segment
/// being written.
pub open spec fn arena_of(segments: Seq<Vec<StoredNode>>, batch: Seq<StoredNode>) -> Arena {
    Seq::new(
        segments.len() + 1,
        |s: int|
            if s < segments.len() {
                segments[s]@
            } else {
                batch
            },
    )
}

/// Whether `r` names a node of the arena.
pub open spec fn valid_ref(arena: Arena, r: NodeRef) -> bool {
    r.segment < arena.len() && r.offset < arena[r.segment as int].len()
}

/// The node that `r` names.
pub open spec fn node_at(arena: Arena, r: NodeRef) -> StoredNode {
    arena[r.segment as int][r.offset as int]
}

/// Whether the node `c` was written before the node `p`.
pub open spec fn precedes(c: NodeRef, p: NodeRef) -> bool {
    c.segment < p.segment || (c.segment == p.segment && c.offset < p.offset)
}

/// The tree rooted at the node `r`.
pub open spec fn tree_at(arena: Arena, r: NodeRef) -> Tree
    decreases r.segment, r.offset,
{
    if valid_ref(arena, r) {
        match node_at(arena, r).node {
            Node::Leaf { key, value_hash } => Tree::Leaf { key: key@, value_hash: value_hash@ },
            Node::Internal { left, right } => Tree::Node {
                left: Box::new(
                    match left {
                        Some(l) => if precedes(l, r) {
                            tree_at(arena, l)
                        } else {
                            Tree::Empty
                        },
                        None => Tree::Empty,
                    },
                ),
                right: Box::new(
                    match right {
                        Some(l) => if precedes(l, r) {
                            tree_at(arena, l)
                        } else {
                            Tree::Empty
                        },
                        None => Tree::Empty,
                    },
                ),
            },
        }
    } else {
        Tree::Empty
    }
}

/// The tree below the child reference `c` of the node `parent`.
pub open spec fn child_tree(arena: Arena, c: Option<NodeRef>, parent: NodeRef) -> Tree {
    match c {
        Some(r) => if precedes(r, parent) {
            tree_at(arena, r)
        } else {
            Tree::Empty
        },
        None => Tree::Empty,
    }
}

/// The tree below an optional root.
pub open spec fn root_tree(arena: Arena, root: Option<NodeRef>) -> Tree {
    match root {
        Some(r) => tree_at(arena, r),
        None => Tree::Empty,
    }
}

/// The hash recorded for a child, or the placeholder for an absent one.
pub open spec fn child_hash(arena: Arena, c: Option<NodeRef>) -> Seq<u8> {
    match c {
        Some(r) => node_at(arena, r).hash@,
        None => placeholder_hash(),
    }
}

/// Whether a child reference names a leaf.
pub open spec fn child_is_leaf(arena: Arena, c: Option<NodeRef>) -> bool {
    c matches Some(r) && node_at(arena, r).node is Leaf
}

/// Whether a child reference of `parent` is in order: it names a node written
/// earlier whose address continues the parent's path by one bit.
pub open spec fn child_ok(arena: Arena, c: Option<NodeRef>, parent: NodeRef, path: Seq<bool>) -> bool {
    c matches Some(r) ==> {
        &&& valid_ref(arena, r)
        &&& precedes(r, parent)
        &&& node_at(arena, r).address.path@ == path
    }
}

/// Whether the node `r` is well formed within its arena.
pub open spec fn node_wf(arena: Arena, r: NodeRef, shard_id: usize) -> bool {
    let n = node_at(arena, r);
    let path = n.address.path@;
    &&& n.address.shard_id == shard_id
    &&& match n.node {
        Node::Leaf { key, value_hash } => {
            &&& has_prefix(key@, path)
            &&& n.hash@ == leaf_hash(key@, value_hash@)
        },
        Node::Internal { left, right } => {
            &&& path.len() < KEY_BITS
            &&& child_ok(arena, left, r, path.push(false))
            &&& child_ok(arena, right, r, path.push(true))
            &&& !(left is None && right is None)
            &&& !(left is None && child_is_leaf(arena, right))
            &&& !(right is None && child_is_leaf(arena, left))
            &&& n.hash@ == internal_hash(child_hash(arena, left), child_hash(arena, right))
        },
    }
}

/// Whether every node of the arena is well formed.
pub open spec fn arena_wf(arena: Arena, shard_id: usize) -> bool {
    forall|r: NodeRef| #[trigger] valid_ref(arena, r) ==> node_wf(arena, r, shard_id)
}

/// Whether `b` holds every node of `a` at the same place: `b` came from `a` by
/// appending nodes and segments.
pub open spec fn extends(a: Arena, b: Arena) -> bool {
    &&& a.len() <= b.len()
    &&& forall|s: int| 0 <= s < a.len() ==> a[s].len() <= (#[trigger] b[s]).len()
    &&& forall|s: int, o: int|
        0 <= s < a.len() && 0 <= o < a[s].len() ==> (#[trigger] b[s][o]) == a[s][o]
}

/// What a well-formed arena says of the tree at one of its nodes: the tree is
/// canonical for the node's path, it has the node's kind, and its hash is the
/// one recorded in the node.
pub proof fn lemma_tree_at(arena: Arena, shard_id: usize, r: NodeRef)
    requires
        arena_wf(arena, shard_id),
        valid_ref(arena, r),
    ensures
        tree_at(arena, r).canonical(node_at(arena, r).address.path@),
        tree_at(arena, r).hash() == node_at(arena, r).hash@,
        tree_at(arena, r) is Leaf <==> node_at(arena, r).node is Leaf,
        tree_at(arena, r) is Node <==> node_at(arena, r).node is Internal,
    decreases r.segment, r.offset,
{
    broadcast use lemma_hash_length;

    assert(node_wf(arena, r, shard_id));
    let n = node_at(arena, r);
    match n.node {
        Node::Leaf { key, value_hash } => {
            assert(tree_at(arena, r).canonical(n.address.path@));
            assert(tree_at(arena, r).hash() == n.hash@);
        },
        Node::Internal { left, right } => {
            if let Some(l) = left {
                lemma_tree_at(arena, shard_id, l);
            }
            if let Some(rr) = right {
                lemma_tree_at(arena, shard_id, rr);
            }
            let t = tree_at(arena, r);
            let path = n.address.path@;
            assert(*t->left == child_tree(arena, left, r));
            assert(*t->right == child_tree(arena, right, r));
            assert(t->left.canonical(path.push(false)));
            assert(t->right.canonical(path.push(true)));
            assert(t->left.hash() == child_hash(arena, left));
            assert(t->right.hash() == child_hash(arena, right));
            assert(t.canonical(path));
            assert(t.hash() == n.hash@);
        },
    }
}

/// Appending to an arena changes neither the nodes it held nor the trees
/// rooted at them.
pub proof fn lemma_extends_tree(a: Arena, b: Arena, shard_id: usize, r: NodeRef)
    requires
        arena_wf(a, shard_id),
        extends(a, b),
        valid_ref(a, r),
    ensures
        valid_ref(b, r),
        node_at(b, r) == node_at(a, r),
        tree_at(b, r) == tree_at(a, r),
    decreases r.segment, r.offset,
{
    assert(node_wf(a, r, shard_id));
    assert(b[r.segment as int].len() >= a[r.segment as int].len());
    assert(b[r.segment as int][r.offset as int] == a[r.segment as int][r.offset as int]);
    match node_at(a, r).node {
        Node::Leaf { key, value_hash } => {},
        Node::Internal { left, right } => {
            if let Some(l) = left {
                lemma_extends_tree(a, b, shard_id, l);
            }
            if let Some(rr) = right {
                lemma_extends_tree(a, b, shard_id, rr);
            }
        },
    }
}

/// A node that was well formed stays so when the arena grows.
pub proof fn lemma_extends_node_wf(a: Arena, b: Arena, shard_id: usize, r: NodeRef)
    requires
        arena_wf(a, shard_id),
        extends(a, b),
        valid_ref(a, r),
    ensures
        node_wf(b, r, shard_id),
{
    assert(node_wf(a, r, shard_id));
    lemma_extends_tree(a, b, shard_id, r);
    match node_at(a, r).node {
        Node::Leaf { key, value_hash } => {},
        Node::Internal { left, right } => {
            if let Some(l) = left {
                lemma_extends_tree(a, b, shard_id, l);
            }
            if let Some(rr) = right {
                lemma_extends_tree(a, b, shard_id, rr);
            }
        },
    }
}

/// Growing is transitive.
pub proof fn lemma_extends_trans(a: Arena, b: Arena, c: Arena)
    requires
        extends(a, b),
        extends(b, c),
    ensures
        extends(a, c),
{
    assert forall|s: int| 0 <= s < a.len() implies a[s].len() <= (#[trigger] c[s]).len() by {
        assert(a[s].len() <= b[s].len());
    }
    assert forall|s: int, o: int| 0 <= s < a.len() && 0 <= o < a[s].len() implies (#[trigger] c[s][o])
        == a[s][o] by {
        assert(a[s].len() <= b[s].len());
        assert(b[s][o] == a[s][o]);
    }
}

} // verus!

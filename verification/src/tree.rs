//! The mathematical model of one shard's tree.
//!
//! A shard tree is a binary radix tree over the bits of its keys in which a
//! leaf sits as high as it can: an internal node always covers at least two
//! keys. That shape is canonical, so the tree, and with it the root hash, is
//! determined by the set of bindings alone.

use vstd::prelude::*;
use crate::hash::{
    has_prefix, internal_hash, key_bit, key_prefix, leaf_hash, placeholder_hash, HASH_LENGTH,
    KEY_BITS,
};

verus! {

/// A shard tree as a mathematical value.
pub enum Tree {
    /// The empty subtree.
    Empty,
    /// One binding of a key to the hash of its value.
    Leaf { key: Seq<u8>, value_hash: Seq<u8> },
    /// A branch on one bit of the key: `left` holds the keys whose bit is 0.
    Node { left: Box<Tree>, right: Box<Tree> },
}

/// A map from keys to value hashes: what one shard tree authenticates.
pub type HashMapping = Map<Seq<u8>, Seq<u8>>;

impl Tree {
    /// The bindings that the tree holds.
    pub open spec fn contents(self) -> HashMapping
        decreases self,
    {
        match self {
            Tree::Empty => Map::empty(),
            Tree::Leaf { key, value_hash } => Map::empty().insert(key, value_hash),
            Tree::Node { left, right } => left.contents().union_prefer_right(right.contents()),
        }
    }

    /// Whether the tree is in canonical shape for the subtree reached by
    /// `path`: every key lies under `path`, every branch splits its keys by
    /// the next bit, and no branch covers fewer than two keys.
    pub open spec fn canonical(self, path: Seq<bool>) -> bool
        decreases self,
    {
        match self {
            Tree::Empty => true,
            Tree::Leaf { key, value_hash } => {
                &&& key.len() == HASH_LENGTH
                &&& value_hash.len() == HASH_LENGTH
                &&& has_prefix(key, path)
            },
            Tree::Node { left, right } => {
                &&& path.len() < KEY_BITS
                &&& left.canonical(path.push(false))
                &&& right.canonical(path.push(true))
                &&& !(*left is Empty && *right is Empty)
                &&& !(*left is Empty && *right is Leaf)
                &&& !(*left is Leaf && *right is Empty)
            },
        }
    }

    /// The Merkle hash of the tree.
    pub open spec fn hash(self) -> Seq<u8>
        decreases self,
    {
        match self {
            Tree::Empty => placeholder_hash(),
            Tree::Leaf { key, value_hash } => leaf_hash(key, value_hash),
            Tree::Node { left, right } => internal_hash(left.hash(), right.hash()),
        }
    }

    /// The child that a walk towards `key` enters at a branch of depth `depth`.
    pub open spec fn toward(self, key: Seq<u8>, depth: nat) -> Tree
        recommends
            self is Node,
    {
        if key_bit(key, depth as int) {
            *self->right
        } else {
            *self->left
        }
    }

    /// The child that a walk towards `key` leaves aside at a branch of depth
    /// `depth`.
    pub open spec fn aside(self, key: Seq<u8>, depth: nat) -> Tree
        recommends
            self is Node,
    {
        if key_bit(key, depth as int) {
            *self->left
        } else {
            *self->right
        }
    }

    /// Where the walk from this subtree, at depth `depth`, towards `key`
    /// ends: at an empty subtree or at a leaf.
    pub open spec fn terminal(self, key: Seq<u8>, depth: nat) -> Tree
        decreases self,
    {
        match self {
            Tree::Node { left, right } => self.toward(key, depth).terminal(key, depth + 1),
            _ => self,
        }
    }

    /// The hashes of the subtrees left aside on the walk towards `key`,
    /// deepest first.
    pub open spec fn siblings(self, key: Seq<u8>, depth: nat) -> Seq<Seq<u8>>
        decreases self,
    {
        match self {
            Tree::Node { left, right } => self.toward(key, depth).siblings(key, depth + 1).push(
                self.aside(key, depth).hash(),
            ),
            _ => Seq::empty(),
        }
    }

    /// A key of a tree that is not empty.
    pub open spec fn some_key(self) -> Seq<u8>
        decreases self,
    {
        match self {
            Tree::Empty => Seq::empty(),
            Tree::Leaf { key, value_hash } => key,
            Tree::Node { left, right } => if *left is Empty {
                right.some_key()
            } else {
                left.some_key()
            },
        }
    }

    /// Another key of a branch than `some_key`.
    pub open spec fn other_key(self) -> Seq<u8>
        decreases self,
    {
        match self {
            Tree::Node { left, right } => if *left is Empty {
                right.other_key()
            } else if *right is Empty {
                left.other_key()
            } else {
                right.some_key()
            },
            _ => Seq::empty(),
        }
    }
}

/// The hash that a walk of `siblings.len()` steps, which starts at depth
/// `depth` and follows the bits of `key`, recomputes from the hash `start` at
/// its end and the hashes left aside, deepest first.
pub open spec fn fold_siblings(start: Seq<u8>, key: Seq<u8>, depth: nat, siblings: Seq<Seq<u8>>) -> Seq<
    u8,
>
    decreases siblings.len(),
{
    if siblings.len() == 0 {
        start
    } else {
        let below = fold_siblings(start, key, depth + 1, siblings.drop_last());
        if key_bit(key, depth as int) {
            internal_hash(siblings.last(), below)
        } else {
            internal_hash(below, siblings.last())
        }
    }
}

/// Every key of a canonical tree is 32 bytes long and lies under the tree's
/// path.
pub proof fn lemma_keys_under_path(t: Tree, path: Seq<bool>, key: Seq<u8>)
    requires
        t.canonical(path),
        t.contents().contains_key(key),
    ensures
        key.len() == HASH_LENGTH,
        t.contents()[key].len() == HASH_LENGTH,
        has_prefix(key, path),
    decreases t,
{
    match t {
        Tree::Empty => {},
        Tree::Leaf { key: k, value_hash } => {},
        Tree::Node { left, right } => {
            if right.contents().contains_key(key) {
                lemma_keys_under_path(*right, path.push(true), key);
                assert forall|i: int| 0 <= i < path.len() implies key_bit(key, i) == path[i] by {
                    assert(path.push(true)[i] == path[i]);
                }
            } else {
                lemma_keys_under_path(*left, path.push(false), key);
                assert forall|i: int| 0 <= i < path.len() implies key_bit(key, i) == path[i] by {
                    assert(path.push(false)[i] == path[i]);
                }
            }
        },
    }
}

/// A key of a branch lies in exactly the child that its next bit selects.
pub proof fn lemma_branch_side(t: Tree, path: Seq<bool>, key: Seq<u8>)
    requires
        t is Node,
        t.canonical(path),
    ensures
        t->left.contents().contains_key(key) ==> !key_bit(key, path.len() as int),
        t->right.contents().contains_key(key) ==> key_bit(key, path.len() as int),
        t.contents().contains_key(key) <==> t.toward(key, path.len()).contents().contains_key(key),
        t.contents().contains_key(key) ==> t.contents()[key] == t.toward(
            key,
            path.len(),
        ).contents()[key],
        !t.aside(key, path.len()).contents().contains_key(key),
{
    let d = path.len() as int;
    if t->left.contents().contains_key(key) {
        lemma_keys_under_path(*t->left, path.push(false), key);
        assert(path.push(false)[d] == false);
    }
    if t->right.contents().contains_key(key) {
        lemma_keys_under_path(*t->right, path.push(true), key);
        assert(path.push(true)[d] == true);
    }
}

/// A canonical tree that is not empty holds `some_key`.
pub proof fn lemma_some_key(t: Tree, path: Seq<bool>)
    requires
        t.canonical(path),
        !(t is Empty),
    ensures
        t.contents().contains_key(t.some_key()),
    decreases t,
{
    match t {
        Tree::Node { left, right } => {
            if *left is Empty {
                lemma_some_key(*right, path.push(true));
            } else {
                lemma_some_key(*left, path.push(false));
                lemma_branch_side(t, path, left.some_key());
            }
        },
        _ => {},
    }
}

/// A canonical branch holds two different keys.
pub proof fn lemma_two_keys(t: Tree, path: Seq<bool>)
    requires
        t.canonical(path),
        t is Node,
    ensures
        t.contents().contains_key(t.some_key()),
        t.contents().contains_key(t.other_key()),
        t.some_key() != t.other_key(),
    decreases t,
{
    let left = *t->left;
    let right = *t->right;
    lemma_some_key(t, path);
    if left is Empty {
        lemma_two_keys(right, path.push(true));
    } else if right is Empty {
        lemma_two_keys(left, path.push(false));
        lemma_branch_side(t, path, left.other_key());
    } else {
        lemma_some_key(left, path.push(false));
        lemma_some_key(right, path.push(true));
        lemma_branch_side(t, path, left.some_key());
        lemma_branch_side(t, path, right.some_key());
    }
}

/// The canonical shape is unique: two canonical trees for one path that hold
/// the same bindings are the same tree.
pub proof fn lemma_canonical_unique(a: Tree, b: Tree, path: Seq<bool>)
    requires
        a.canonical(path),
        b.canonical(path),
        a.contents() == b.contents(),
    ensures
        a == b,
    decreases a,
{
    match a {
        Tree::Empty => {
            if !(b is Empty) {
                lemma_some_key(b, path);
            }
        },
        Tree::Leaf { key, value_hash } => {
            assert(a.contents().contains_key(key));
            if b is Empty {
                assert(false);
            } else if b is Node {
                lemma_two_keys(b, path);
                assert(false);
            } else {
                assert(b.contents().contains_key(b->key));
                assert(b->key == key);
                assert(a.contents()[key] == value_hash);
                assert(b.contents()[key] == b->value_hash);
            }
        },
        Tree::Node { left, right } => {
            lemma_two_keys(a, path);
            if b is Empty {
                assert(false);
            } else if b is Leaf {
                assert(a.contents().contains_key(a.some_key()));
                assert(a.contents().contains_key(a.other_key()));
                assert(false);
            } else {
                let bl = *b->left;
                let br = *b->right;
                assert forall|k: Seq<u8>|
                    #![trigger left.contents().dom().contains(k)]
                    #![trigger bl.contents().dom().contains(k)]
                    #![trigger left.contents()[k]]
                    left.contents().dom().contains(k) == bl.contents().dom().contains(k) && (
                    left.contents().dom().contains(k) ==> left.contents()[k] == bl.contents()[k]) by {
                    lemma_branch_side(a, path, k);
                    lemma_branch_side(b, path, k);
                }
                assert(left.contents() =~= bl.contents());
                assert forall|k: Seq<u8>|
                    #![trigger right.contents().dom().contains(k)]
                    #![trigger br.contents().dom().contains(k)]
                    #![trigger right.contents()[k]]
                    right.contents().dom().contains(k) == br.contents().dom().contains(k) && (
                    right.contents().dom().contains(k) ==> right.contents()[k] == br.contents()[k]) by {
                    lemma_branch_side(a, path, k);
                    lemma_branch_side(b, path, k);
                }
                assert(right.contents() =~= br.contents());
                lemma_canonical_unique(*left, bl, path.push(false));
                lemma_canonical_unique(*right, br, path.push(true));
            }
        },
    }
}

/// Whether `t` is the canonical tree, from the root, of the bindings `m`.
pub open spec fn is_tree_of(t: Tree, m: HashMapping) -> bool {
    t.canonical(Seq::empty()) && t.contents() == m
}

/// Whether the bindings `m` can be held by a shard tree: the keys and value
/// hashes are 32 bytes long and there are finitely many of them.
pub open spec fn representable(m: HashMapping) -> bool {
    exists|t: Tree| is_tree_of(t, m)
}

/// The canonical tree of the bindings `m`.
pub open spec fn tree_of(m: HashMapping) -> Tree {
    choose|t: Tree| is_tree_of(t, m)
}

/// The root hash of the shard tree that holds exactly the bindings `m`.
pub open spec fn map_root(m: HashMapping) -> Seq<u8> {
    tree_of(m).hash()
}

/// A canonical tree from the root is the tree of its bindings.
pub proof fn lemma_tree_of(t: Tree, m: HashMapping)
    requires
        is_tree_of(t, m),
    ensures
        representable(m),
        tree_of(m) == t,
        map_root(m) == t.hash(),
{
    lemma_canonical_unique(tree_of(m), t, Seq::empty());
}

/// The walk towards a key ends at an empty subtree or at a leaf, after no more
/// steps than the key has bits left.
pub proof fn lemma_terminal_shape(t: Tree, key: Seq<u8>, depth: nat)
    requires
        depth <= KEY_BITS,
        t.canonical(key_prefix(key, depth)),
    ensures
        !(t.terminal(key, depth) is Node),
        t.siblings(key, depth).len() + depth <= KEY_BITS,
    decreases t,
{
    if t is Node {
        lemma_prefix_step(key, depth);
        lemma_terminal_shape(t.toward(key, depth), key, depth + 1);
    }
}

/// The path to depth `depth + 1` along a key extends the path to `depth` by
/// the key's next bit.
pub proof fn lemma_prefix_step(key: Seq<u8>, depth: nat)
    ensures
        key_prefix(key, depth + 1) == key_prefix(key, depth).push(key_bit(key, depth as int)),
        has_prefix(key, key_prefix(key, depth)) <==> depth <= KEY_BITS,
{
    assert(key_prefix(key, depth + 1) =~= key_prefix(key, depth).push(key_bit(key, depth as int)));
}

/// Folding the hashes left aside on the walk towards a key over the hash of
/// the walk's end gives back the hash of the tree.
pub proof fn lemma_fold_siblings(t: Tree, key: Seq<u8>, depth: nat)
    ensures
        fold_siblings(t.terminal(key, depth).hash(), key, depth, t.siblings(key, depth)) == t.hash(),
    decreases t,
{
    if t is Node {
        let sub = t.toward(key, depth);
        lemma_fold_siblings(sub, key, depth + 1);
        let sibs = t.siblings(key, depth);
        assert(sibs.drop_last() =~= sub.siblings(key, depth + 1));
        assert(sibs.last() == t.aside(key, depth).hash());
    }
}

/// In a canonical tree the walk towards a key ends at the key's leaf exactly
/// if the tree holds the key.
pub proof fn lemma_terminal_finds(t: Tree, key: Seq<u8>, depth: nat)
    requires
        t.canonical(key_prefix(key, depth)),
    ensures
        t.contents().contains_key(key) <==> (t.terminal(key, depth) is Leaf && t.terminal(
            key,
            depth,
        )->key == key),
        t.contents().contains_key(key) ==> t.terminal(key, depth)->value_hash == t.contents()[key],
        t.terminal(key, depth) is Leaf ==> {
            &&& t.contents().contains_key(t.terminal(key, depth)->key)
            &&& t.terminal(key, depth)->key.len() == HASH_LENGTH
            &&& t.terminal(key, depth)->value_hash.len() == HASH_LENGTH
        },
    decreases t,
{
    match t {
        Tree::Node { left, right } => {
            lemma_prefix_step(key, depth);
            let sub = t.toward(key, depth);
            lemma_terminal_finds(sub, key, depth + 1);
            lemma_branch_side(t, key_prefix(key, depth), key);
            if sub.terminal(key, depth + 1) is Leaf {
                let k = sub.terminal(key, depth + 1)->key;
                assert(t.contents().contains_key(k));
            }
        },
        _ => {},
    }
}

/// The leaf at which the walk towards a key ends lies under the whole path
/// walked.
pub proof fn lemma_terminal_prefix(t: Tree, key: Seq<u8>, depth: nat)
    requires
        depth <= KEY_BITS,
        t.canonical(key_prefix(key, depth)),
        t.terminal(key, depth) is Leaf,
    ensures
        has_prefix(
            t.terminal(key, depth)->key,
            key_prefix(key, depth + t.siblings(key, depth).len()),
        ),
    decreases t,
{
    if t is Node {
        lemma_prefix_step(key, depth);
        lemma_terminal_prefix(t.toward(key, depth), key, depth + 1);
    }
}

} // verus!

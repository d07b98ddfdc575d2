//! Proofs that a key has, or does not have, a value under a global root hash.

use vstd::prelude::*;
use crate::hash::{key_bit, leaf_hash, placeholder_hash, HashValue, KEY_BITS};
use crate::partition::{shard_of, shard_of_spec, MAX_SHARDS};
use crate::top_level::{fold_top, hashes_view, top_depth};
use crate::tree::fold_siblings;

verus! {

/// A proof for one key.
///
/// `leaf` is the binding at which the walk from the shard root towards the
/// key ends, or `None` where it ends at an empty subtree. `siblings` holds the
/// hashes left aside on the way back up, lowest first: those of the shard
/// tree, then those of the top-level tree.
#[derive(Clone, Debug, PartialEq, Eq)]
pub struct MerkleProof {
    pub leaf: Option<(HashValue, HashValue)>,
    pub siblings: Vec<HashValue>,
}

/// What a proof holds, as mathematical values.
pub struct ProofView {
    pub leaf: Option<(Seq<u8>, Seq<u8>)>,
    pub siblings: Seq<Seq<u8>>,
}

impl View for MerkleProof {
    type V = ProofView;

    open spec fn view(&self) -> ProofView {
        ProofView {
            leaf: match self.leaf {
                Some((k, v)) => Some((k@, v@)),
                None => None,
            },
            siblings: hashes_view(self.siblings@),
        }
    }
}

/// The hash at the lower end of a proof: that of its leaf, or the placeholder.
pub open spec fn proof_start(leaf: Option<(Seq<u8>, Seq<u8>)>) -> Seq<u8> {
    match leaf {
        Some((k, v)) => leaf_hash(k, v),
        None => placeholder_hash(),
    }
}

/// The number of siblings of a proof that belong to the shard tree.
pub open spec fn shard_steps(p: ProofView, num_shards: nat) -> int {
    p.siblings.len() - top_depth(num_shards)
}

/// The root hash of the shard tree that a proof for `key` recomputes.
pub open spec fn proof_shard_root(p: ProofView, key: Seq<u8>, num_shards: nat) -> Seq<u8> {
    fold_siblings(proof_start(p.leaf), key, 0, p.siblings.take(shard_steps(p, num_shards)))
}

/// The global root hash that a proof for `key` recomputes.
pub open spec fn proof_root(p: ProofView, key: Seq<u8>, num_shards: nat) -> Seq<u8> {
    fold_top(
        proof_shard_root(p, key, num_shards),
        shard_of_spec(key, num_shards) as int,
        p.siblings.skip(shard_steps(p, num_shards)),
    )
}

/// Whether the first `n` bits of two keys are the same.
pub open spec fn same_prefix(a: Seq<u8>, b: Seq<u8>, n: int) -> bool {
    forall|i: int| 0 <= i < n ==> key_bit(a, i) == key_bit(b, i)
}

/// Whether `p` proves, against the global root hash `root` of a store of
/// `num_shards` shards, that `key` has the value hash `value_hash`, or, where
/// that is `None`, that `key` has no value.
///
/// Absence is shown by a walk that ends at an empty subtree, or at the leaf of
/// another key that shares with `key` the whole path walked.
pub open spec fn proves(
    p: ProofView,
    root: Seq<u8>,
    key: Seq<u8>,
    value_hash: Option<Seq<u8>>,
    num_shards: nat,
) -> bool {
    &&& 0 < num_shards <= MAX_SHARDS
    &&& 0 <= shard_steps(p, num_shards) <= KEY_BITS
    &&& match value_hash {
        Some(v) => p.leaf == Some((key, v)),
        None => p.leaf matches Some((k, v)) ==> k != key && same_prefix(
            k,
            key,
            shard_steps(p, num_shards),
        ),
    }
    &&& proof_root(p, key, num_shards) == root
}

/// The number of levels of the top-level tree over `n` shards.
pub fn top_levels(n: usize) -> (d: usize)
    requires
        n <= MAX_SHARDS,
    ensures
        d == top_depth(n as nat),
        d <= 8,
{
    let mut width: usize = n;
    let mut d: usize = 0;
    proof {
        lemma_top_depth_bound(n as nat);
    }
    while width > 1
        invariant
            d + top_depth(width as nat) == top_depth(n as nat),
            width <= MAX_SHARDS,
            top_depth(n as nat) <= 8,
        decreases width,
    {
        width = (width + 1) / 2;
        d += 1;
    }
    d
}

/// A tree over at most 256 shards has at most eight levels.
pub proof fn lemma_top_depth_bound(n: nat)
    requires
        n <= MAX_SHARDS,
    ensures
        top_depth(n) <= 8,
{
    reveal_with_fuel(top_depth, 10);
}

/// Whether the first `n` bits of two keys are the same.
pub fn shares_prefix(a: &HashValue, b: &HashValue, n: usize) -> (same: bool)
    requires
        n <= KEY_BITS,
    ensures
        same == same_prefix(a@, b@, n as int),
{
    let mut i: usize = 0;
    while i < n
        invariant
            i <= n <= KEY_BITS,
            same_prefix(a@, b@, i as int),
        decreases n - i,
    {
        if a.bit(i) != b.bit(i) {
            return false;
        }
        i += 1;
    }
    true
}

impl MerkleProof {
    /// The global root hash that the proof recomputes for `key`, or `None`
    /// where the proof has not the length of one for `num_shards` shards.
    pub fn compute_root(&self, key: &HashValue, num_shards: usize) -> (root: Option<HashValue>)
        ensures
            root is Some <==> {
                &&& 0 < num_shards <= MAX_SHARDS
                &&& 0 <= shard_steps(self@, num_shards as nat) <= KEY_BITS
            },
            root matches Some(h) ==> h@ == proof_root(self@, key@, num_shards as nat),
    {
        if num_shards == 0 || num_shards > MAX_SHARDS {
            return None;
        }
        let levels = top_levels(num_shards);
        let total = self.siblings.len();
        if total < levels || total - levels > KEY_BITS {
            return None;
        }
        let steps: usize = total - levels;
        let ghost all = hashes_view(self.siblings@);
        let ghost lower = all.take(steps as int);
        let ghost upper = all.skip(steps as int);
        let mut current: HashValue = match self.leaf {
            Some((k, v)) => HashValue::of_leaf(&k, &v),
            None => HashValue::placeholder(),
        };
        // Up the shard tree: the lowest sibling belongs to the deepest step.
        let mut i: usize = 0;
        while i < steps
            invariant
                i <= steps <= KEY_BITS,
                steps + levels == self.siblings.len(),
                all == hashes_view(self.siblings@),
                lower == all.take(steps as int),
                current@ == fold_siblings(
                    proof_start(self@.leaf),
                    key@,
                    (steps - i) as nat,
                    lower.take(i as int),
                ),
            decreases steps - i,
        {
            let sibling = self.siblings[i];
            let depth: usize = steps - i - 1;
            proof {
                let upto = lower.take(i + 1);
                assert(upto.drop_last() =~= lower.take(i as int));
                assert(upto.last() == sibling@);
            }
            current = if key.bit(depth) {
                HashValue::of_internal(&sibling, &current)
            } else {
                HashValue::of_internal(&current, &sibling)
            };
            i += 1;
        }
        proof {
            assert(lower.take(steps as int) =~= lower);
        }
        // Up the top-level tree, from the index of the key's shard.
        let mut index: usize = shard_of(key, num_shards);
        let ghost shard_root = current@;
        let mut j: usize = 0;
        proof {
            assert(upper.skip(0) =~= upper);
        }
        while j < levels
            invariant
                j <= levels,
                num_shards > 0,
                steps + levels == self.siblings.len(),
                all == hashes_view(self.siblings@),
                upper == all.skip(steps as int),
                fold_top(current@, index as int, upper.skip(j as int)) == fold_top(
                    shard_root,
                    shard_of_spec(key@, num_shards as nat) as int,
                    upper,
                ),
            decreases levels - j,
        {
            let sibling = self.siblings[steps + j];
            proof {
                let rest = upper.skip(j as int);
                assert(rest[0] == sibling@);
                assert(rest.drop_first() =~= upper.skip(j + 1));
            }
            current = if index % 2 == 0 {
                HashValue::of_internal(&current, &sibling)
            } else {
                HashValue::of_internal(&sibling, &current)
            };
            index = index / 2;
            j += 1;
        }
        Some(current)
    }

    /// Whether the proof shows, against the global root hash `root` of a store
    /// of `num_shards` shards, that `key` has the value hash `value_hash`, or,
    /// where that is `None`, that `key` has no value.
    pub fn verify(
        &self,
        root: &HashValue,
        key: &HashValue,
        value_hash: Option<HashValue>,
        num_shards: usize,
    ) -> (ok: bool)
        ensures
            ok == proves(
                self@,
                root@,
                key@,
                match value_hash {
                    Some(v) => Some(v@),
                    None => None,
                },
                num_shards as nat,
            ),
    {
        let computed = match self.compute_root(key, num_shards) {
            Some(h) => h,
            None => {
                return false;
            },
        };
        let steps: usize = self.siblings.len() - top_levels(num_shards);
        let leaf_ok: bool = match value_hash {
            Some(v) => match self.leaf {
                Some((k, w)) => k.equals(key) && w.equals(&v),
                None => false,
            },
            None => match self.leaf {
                Some((k, w)) => !k.equals(key) && shares_prefix(&k, key, steps),
                None => true,
            },
        };
        leaf_ok && computed.equals(root)
    }
}

} // verus!

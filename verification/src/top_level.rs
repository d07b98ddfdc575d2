//! The fixed tree that combines the shard roots of one version into the global
//! root hash.
//!
//! The shard roots are the leaves, shard `i` at index `i`. Each level pairs
//! its neighbours into the next; a hash without a neighbour is paired with the
//! placeholder. The shape depends on the number of shards alone.

use vstd::prelude::*;
use crate::error::Error;
use crate::hash::{internal_hash, placeholder_hash, HashValue};

verus! {

/// The hashes held by a sequence of hash values.
pub open spec fn hashes_view(hashes: Seq<HashValue>) -> Seq<Seq<u8>> {
    Seq::new(hashes.len(), |i: int| hashes[i]@)
}

/// The number of levels above `n` leaves: the least `d` with `2^d >= n`.
pub open spec fn top_depth(n: nat) -> nat
    decreases n,
{
    if n <= 1 {
        0
    } else {
        1 + top_depth((n + 1) / 2)
    }
}

/// The hash at index `i` of a level, or the placeholder beyond its end.
pub open spec fn level_hash(level: Seq<Seq<u8>>, i: int) -> Seq<u8> {
    if 0 <= i < level.len() {
        level[i]
    } else {
        placeholder_hash()
    }
}

/// The level above `level`: hash `i` covers the hashes `2i` and `2i + 1`.
pub open spec fn pair_up(level: Seq<Seq<u8>>) -> Seq<Seq<u8>> {
    Seq::new(
        (level.len() + 1) / 2,
        |i: int| internal_hash(level_hash(level, 2 * i), level_hash(level, 2 * i + 1)),
    )
}

/// The root hash above a level of hashes.
pub open spec fn top_root(level: Seq<Seq<u8>>) -> Seq<u8>
    decreases level.len(),
{
    if level.len() <= 1 {
        level_hash(level, 0)
    } else {
        top_root(pair_up(level))
    }
}

/// The index of the neighbour that is paired with index `i`.
pub open spec fn neighbour(i: int) -> int {
    if i % 2 == 0 {
        i + 1
    } else {
        i - 1
    }
}

/// The hashes paired with the hash at `index` and with its ancestors, from the
/// level of the shard roots up to the level below the global root.
pub open spec fn top_siblings(level: Seq<Seq<u8>>, index: int) -> Seq<Seq<u8>>
    decreases level.len(),
{
    if level.len() <= 1 {
        Seq::empty()
    } else {
        seq![level_hash(level, neighbour(index))] + top_siblings(pair_up(level), index / 2)
    }
}

/// The hash that the siblings `siblings`, lowest first, give above the hash
/// `current` at index `index`.
pub open spec fn fold_top(current: Seq<u8>, index: int, siblings: Seq<Seq<u8>>) -> Seq<u8>
    decreases siblings.len(),
{
    if siblings.len() == 0 {
        current
    } else {
        let above = if index % 2 == 0 {
            internal_hash(current, siblings[0])
        } else {
            internal_hash(siblings[0], current)
        };
        fold_top(above, index / 2, siblings.drop_first())
    }
}

/// The siblings of a shard root lead from it to the global root, and there
/// are as many of them as the tree has levels.
pub proof fn lemma_top_siblings(level: Seq<Seq<u8>>, index: int)
    requires
        0 <= index < level.len(),
    ensures
        top_siblings(level, index).len() == top_depth(level.len()),
        fold_top(level[index], index, top_siblings(level, index)) == top_root(level),
    decreases level.len(),
{
    if level.len() > 1 {
        let above = pair_up(level);
        let sibs = top_siblings(level, index);
        lemma_top_siblings(above, index / 2);
        assert(sibs.drop_first() =~= top_siblings(above, index / 2));
        assert(sibs[0] == level_hash(level, neighbour(index)));
        assert(above[index / 2] == internal_hash(
            level_hash(level, 2 * (index / 2)),
            level_hash(level, 2 * (index / 2) + 1),
        ));
    }
}

/// A node of the top-level tree as it is persisted.
#[derive(Clone, Copy, Debug, PartialEq, Eq)]
pub struct TopNode {
    /// The namespace of the top-level tree: the number of shards, which no
    /// shard has as its id.
    pub namespace: usize,
    /// The version that wrote the node.
    pub version: u64,
    /// The height of the node above the shard roots, from 1.
    pub level: usize,
    /// The index of the node within its level.
    pub index: usize,
    pub left: HashValue,
    pub right: HashValue,
    pub hash: HashValue,
}

/// A top-level node as a mathematical value.
pub struct TopNodeView {
    pub namespace: usize,
    pub version: u64,
    pub level: nat,
    pub index: nat,
    pub left: Seq<u8>,
    pub right: Seq<u8>,
    pub hash: Seq<u8>,
}

impl View for TopNode {
    type V = TopNodeView;

    open spec fn view(&self) -> TopNodeView {
        TopNodeView {
            namespace: self.namespace,
            version: self.version,
            level: self.level as nat,
            index: self.index as nat,
            left: self.left@,
            right: self.right@,
            hash: self.hash@,
        }
    }
}

/// The node at index `i` of the level above `level`, which has the height
/// `height`.
pub open spec fn level_node(
    level: Seq<Seq<u8>>,
    namespace: usize,
    version: u64,
    height: nat,
    i: int,
) -> TopNodeView {
    TopNodeView {
        namespace,
        version,
        level: height,
        index: i as nat,
        left: level_hash(level, 2 * i),
        right: level_hash(level, 2 * i + 1),
        hash: pair_up(level)[i],
    }
}

/// The nodes of the level above `level`, which has the height `height`.
pub open spec fn level_nodes(level: Seq<Seq<u8>>, namespace: usize, version: u64, height: nat) -> Seq<
    TopNodeView,
> {
    Seq::new((level.len() + 1) / 2, |i: int| level_node(level, namespace, version, height, i))
}

/// The nodes of all levels above `level`, lowest level first, where the level
/// above `level` has the height `height + 1`.
pub open spec fn top_nodes(level: Seq<Seq<u8>>, namespace: usize, version: u64, height: nat) -> Seq<
    TopNodeView,
>
    decreases level.len(),
{
    if level.len() <= 1 {
        Seq::empty()
    } else {
        level_nodes(level, namespace, version, height + 1) + top_nodes(
            pair_up(level),
            namespace,
            version,
            height + 1,
        )
    }
}

/// The views of a batch of top-level nodes.
pub open spec fn top_batch_view(batch: Seq<TopNode>) -> Seq<TopNodeView> {
    Seq::new(batch.len(), |i: int| batch[i]@)
}

/// The hash at index `i` of a level, or the placeholder beyond its end.
fn hash_at(level: &Vec<HashValue>, i: usize) -> (h: HashValue)
    ensures
        h@ == level_hash(hashes_view(level@), i as int),
{
    if i < level.len() {
        level[i]
    } else {
        HashValue::placeholder()
    }
}

/// The level above `level`.
fn next_level(level: &Vec<HashValue>) -> (above: Vec<HashValue>)
    requires
        level.len() > 1,
    ensures
        hashes_view(above@) == pair_up(hashes_view(level@)),
        above.len() == (level.len() + 1) / 2,
{
    let ghost below = hashes_view(level@);
    let count: usize = level.len() / 2 + level.len() % 2;
    let mut above: Vec<HashValue> = Vec::new();
    let mut i: usize = 0;
    while i < count
        invariant
            i <= count,
            count == (level.len() + 1) / 2,
            below == hashes_view(level@),
            above.len() == i,
            forall|j: int| 0 <= j < i ==> (#[trigger] above[j])@ == pair_up(below)[j],
        decreases count - i,
    {
        let left = hash_at(level, 2 * i);
        let right = hash_at(level, 2 * i + 1);
        above.push(HashValue::of_internal(&left, &right));
        i += 1;
    }
    proof {
        assert(hashes_view(above@) =~= pair_up(below));
    }
    above
}

/// Appends to `batch` the nodes of the level `above`, which lies above
/// `level` at the height `height`.
fn append_level_nodes(
    level: &Vec<HashValue>,
    above: &Vec<HashValue>,
    namespace: usize,
    version: u64,
    height: usize,
    batch: &mut Vec<TopNode>,
)
    requires
        hashes_view(above@) == pair_up(hashes_view(level@)),
    ensures
        top_batch_view(final(batch)@) == top_batch_view(old(batch)@) + level_nodes(
            hashes_view(level@),
            namespace,
            version,
            height as nat,
        ),
{
    let ghost below = hashes_view(level@);
    let ghost start = top_batch_view(batch@);
    let ghost fresh = level_nodes(below, namespace, version, height as nat);
    let mut i: usize = 0;
    proof {
        assert(start + fresh.take(0) =~= start);
        assert(hashes_view(above@).len() == above.len());
        assert(pair_up(below).len() == (level.len() + 1) / 2);
    }
    while i < above.len()
        invariant
            i <= above.len(),
            above.len() == (level.len() + 1) / 2,
            below == hashes_view(level@),
            hashes_view(above@) == pair_up(below),
            fresh == level_nodes(below, namespace, version, height as nat),
            top_batch_view(batch@) == start + fresh.take(i as int),
        decreases above.len() - i,
    {
        let node = TopNode {
            namespace,
            version,
            level: height,
            index: i,
            left: hash_at(level, 2 * i),
            right: hash_at(level, 2 * i + 1),
            hash: above[i],
        };
        let ghost before = top_batch_view(batch@);
        batch.push(node);
        proof {
            assert(above[i as int]@ == hashes_view(above@)[i as int]);
            assert(node@ == fresh[i as int]);
            assert(top_batch_view(batch@) =~= before.push(node@));
            assert(start + fresh.take(i + 1) =~= (start + fresh.take(i as int)).push(fresh[i as int]));
        }
        i += 1;
    }
    proof {
        assert(fresh.take(above.len() as int) =~= fresh);
    }
}

/// A copy of a vector of hashes.
fn copy_hashes(hashes: &Vec<HashValue>) -> (copy: Vec<HashValue>)
    ensures
        copy@ == hashes@,
{
    let mut copy: Vec<HashValue> = Vec::new();
    let mut i: usize = 0;
    while i < hashes.len()
        invariant
            i <= hashes.len(),
            copy@ == hashes@.take(i as int),
        decreases hashes.len() - i,
    {
        copy.push(hashes[i]);
        proof {
            assert(copy@ =~= hashes@.take(i + 1));
        }
        i += 1;
    }
    proof {
        assert(hashes@.take(hashes.len() as int) =~= hashes@);
    }
    copy
}

/// Combines the roots of all shards of one version into the global root hash,
/// and returns with it the top-level nodes to persist for that version.
///
/// The result is a function of the shard roots alone; `version` only tags the
/// nodes, which all lie in the namespace `num_shards`. Anything but exactly
/// `num_shards` roots is refused.
pub fn aggregate(shard_roots: &Vec<HashValue>, version: u64, num_shards: usize) -> (res: Result<
    (HashValue, Vec<TopNode>),
    Error,
>)
    ensures
        res is Ok <==> (shard_roots.len() == num_shards && num_shards > 0),
        res matches Err(e) ==> e == Error::ShardMismatch,
        res matches Ok(out) ==> {
            &&& out.0@ == top_root(hashes_view(shard_roots@))
            &&& top_batch_view(out.1@) == top_nodes(
                hashes_view(shard_roots@),
                num_shards,
                version,
                0,
            )
        },
{
    if shard_roots.len() != num_shards || num_shards == 0 {
        return Err(Error::ShardMismatch);
    }
    let mut batch: Vec<TopNode> = Vec::new();
    let mut level: Vec<HashValue> = copy_hashes(shard_roots);
    let mut height: usize = 0;
    proof {
        assert(top_batch_view(batch@) =~= Seq::empty());
    }
    while level.len() > 1
        invariant
            level.len() >= 1,
            height + level.len() <= usize::MAX,
            top_root(hashes_view(level@)) == top_root(hashes_view(shard_roots@)),
            top_batch_view(batch@) + top_nodes(
                hashes_view(level@),
                num_shards,
                version,
                height as nat,
            ) == top_nodes(hashes_view(shard_roots@), num_shards, version, 0),
        decreases level.len(),
    {
        let ghost below = hashes_view(level@);
        let ghost done = top_batch_view(batch@);
        let above = next_level(&level);
        append_level_nodes(&level, &above, num_shards, version, height + 1, &mut batch);
        proof {
            let fresh = level_nodes(below, num_shards, version, (height + 1) as nat);
            let rest = top_nodes(pair_up(below), num_shards, version, (height + 1) as nat);
            assert(top_nodes(below, num_shards, version, height as nat) == fresh + rest);
            assert((done + fresh) + rest =~= done + (fresh + rest));
        }
        level = above;
        height += 1;
    }
    proof {
        assert(top_nodes(hashes_view(level@), num_shards, version, height as nat) =~= Seq::empty());
        assert(top_batch_view(batch@) =~= top_batch_view(batch@) + Seq::<TopNodeView>::empty());
    }
    (Ok((level[0], batch)))
}

/// The siblings that lead from the root of shard `index` to the global root,
/// lowest first.
pub fn top_proof(shard_roots: &Vec<HashValue>, index: usize) -> (siblings: Vec<HashValue>)
    requires
        index < shard_roots.len(),
    ensures
        hashes_view(siblings@) == top_siblings(hashes_view(shard_roots@), index as int),
{
    let mut siblings: Vec<HashValue> = Vec::new();
    let mut level: Vec<HashValue> = copy_hashes(shard_roots);
    let mut at: usize = index;
    proof {
        assert(hashes_view(siblings@) =~= Seq::empty());
    }
    while level.len() > 1
        invariant
            at < level.len(),
            hashes_view(siblings@) + top_siblings(hashes_view(level@), at as int) == top_siblings(
                hashes_view(shard_roots@),
                index as int,
            ),
        decreases level.len(),
    {
        let ghost below = hashes_view(level@);
        let ghost done = hashes_view(siblings@);
        let beside: usize = if at % 2 == 0 {
            at + 1
        } else {
            at - 1
        };
        let sibling = hash_at(&level, beside);
        siblings.push(sibling);
        let above = next_level(&level);
        proof {
            assert(hashes_view(siblings@) =~= done.push(sibling@));
            let rest = top_siblings(pair_up(below), (at / 2) as int);
            assert(top_siblings(below, at as int) == seq![sibling@] + rest);
            assert(done.push(sibling@) + rest =~= done + (seq![sibling@] + rest));
        }
        level = above;
        at = at / 2;
    }
    proof {
        assert(top_siblings(hashes_view(level@), at as int) =~= Seq::empty());
        assert(hashes_view(siblings@) =~= hashes_view(siblings@) + Seq::<Seq<u8>>::empty());
    }
    siblings
}

/// The siblings that lead from the root of the shard `index` to the global
/// root, lowest first, read from the top-level nodes of a version over
/// `width` shards.
pub(crate) fn proof_from_nodes(
    nodes: &Vec<TopNode>,
    width: usize,
    index: usize,
    Ghost(roots): Ghost<Seq<Seq<u8>>>,
    Ghost(namespace): Ghost<usize>,
    Ghost(version): Ghost<u64>,
) -> (siblings: Vec<HashValue>)
    requires
        roots.len() == width,
        index < width,
        top_batch_view(nodes@) == top_nodes(roots, namespace, version, 0),
    ensures
        hashes_view(siblings@) == top_siblings(roots, index as int),
{
    let mut siblings: Vec<HashValue> = Vec::new();
    let mut span: usize = width;
    let mut at: usize = index;
    let mut offset: usize = 0;
    let ghost mut level = roots;
    let ghost mut height: nat = 0;
    proof {
        assert(hashes_view(siblings@) =~= Seq::empty());
        assert(top_batch_view(nodes@).skip(0) =~= top_batch_view(nodes@));
    }
    while span > 1
        invariant
            level.len() == span,
            at < span,
            offset <= nodes.len(),
            top_batch_view(nodes@).skip(offset as int) == top_nodes(
                level,
                namespace,
                version,
                height,
            ),
            hashes_view(siblings@) + top_siblings(level, at as int) == top_siblings(
                roots,
                index as int,
            ),
        decreases span,
    {
        let count: usize = span / 2 + span % 2;
        let ghost rest = top_batch_view(nodes@).skip(offset as int);
        let ghost fresh = level_nodes(level, namespace, version, height + 1);
        let ghost above = top_nodes(pair_up(level), namespace, version, height + 1);
        let ghost done = hashes_view(siblings@);
        proof {
            assert(rest == fresh + above);
            assert(rest.len() == nodes.len() - offset);
            assert(fresh.len() == count);
            assert(rest[at as int / 2] == fresh[at as int / 2]);
            assert(rest[at as int / 2] == nodes@[offset + at / 2]@);
        }
        let node = &nodes[offset + at / 2];
        let sibling = if at % 2 == 0 {
            node.right
        } else {
            node.left
        };
        siblings.push(sibling);
        proof {
            assert(sibling@ == level_hash(level, neighbour(at as int)));
            assert(hashes_view(siblings@) =~= done.push(sibling@));
            let further = top_siblings(pair_up(level), (at / 2) as int);
            assert(top_siblings(level, at as int) == seq![sibling@] + further);
            assert(done.push(sibling@) + further =~= done + (seq![sibling@] + further));
            assert(rest.skip(count as int) =~= above);
            assert(top_batch_view(nodes@).skip(offset + count) =~= rest.skip(count as int));
            level = pair_up(level);
            height = height + 1;
        }
        offset = offset + count;
        span = count;
        at = at / 2;
    }
    proof {
        assert(top_siblings(level, at as int) =~= Seq::empty());
        assert(hashes_view(siblings@) =~= hashes_view(siblings@) + Seq::<Seq<u8>>::empty());
    }
    siblings
}

} // verus!

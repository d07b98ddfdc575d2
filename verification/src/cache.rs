//! The node cache: one least-recently-used partition for each shard and one
//! for the top-level tree.
//!
//! Nodes never change once written, so a cached node never goes stale: an
//! entry leaves its partition only when the partition is full and a newer
//! entry needs its place. The partitions are independent of each other: what
//! is read or written in one never evicts an entry of another.

use vstd::prelude::*;
use crate::hash::HashValue;
use crate::node::{AddressView, Node, NodeAddress};

verus! {

/// Whether two addresses are the same.
pub fn same_address(a: &NodeAddress, b: &NodeAddress) -> (same: bool)
    ensures
        same == (a@ == b@),
{
    if a.shard_id != b.shard_id || a.version != b.version || a.path.len() != b.path.len() {
        return false;
    }
    let mut i: usize = 0;
    while i < a.path.len()
        invariant
            i <= a.path.len(),
            a.path.len() == b.path.len(),
            forall|j: int| 0 <= j < i ==> a.path@[j] == b.path@[j],
        decreases a.path.len() - i,
    {
        if a.path[i] != b.path[i] {
            return false;
        }
        i += 1;
    }
    proof {
        assert(a.path@ =~= b.path@);
    }
    true
}

/// A copy of an address.
pub fn copy_address(address: &NodeAddress) -> (copy: NodeAddress)
    ensures
        copy@ == address@,
{
    let mut path: Vec<bool> = Vec::new();
    let mut i: usize = 0;
    while i < address.path.len()
        invariant
            i <= address.path.len(),
            path@ == address.path@.take(i as int),
        decreases address.path.len() - i,
    {
        path.push(address.path[i]);
        proof {
            assert(path@ =~= address.path@.take(i + 1));
        }
        i += 1;
    }
    proof {
        assert(address.path@.take(address.path.len() as int) =~= address.path@);
    }
    NodeAddress { shard_id: address.shard_id, version: address.version, path }
}

/// What the cache keeps of a node of a shard tree: the node and its hash.
#[derive(Clone, Copy, Debug, PartialEq, Eq)]
pub struct CachedNode {
    pub node: Node,
    pub hash: HashValue,
}

/// One entry of the cache.
pub struct CacheEntry<V> {
    pub address: NodeAddress,
    pub node: V,
}

/// One partition of the cache: its entries from the least to the most
/// recently used.
pub struct CachePartition<V> {
    pub capacity: usize,
    pub entries: Vec<CacheEntry<V>>,
}

/// The node cache.
pub struct NodeCache<V> {
    partitions: Vec<CachePartition<V>>,
}

/// A partition as a mathematical value: its capacity, and its entries from
/// the least to the most recently used.
pub struct PartitionView<V> {
    pub capacity: nat,
    pub entries: Seq<(AddressView, V)>,
}

/// The entries of a partition as mathematical values.
pub open spec fn entries_view<V>(entries: Seq<CacheEntry<V>>) -> Seq<(AddressView, V)> {
    Seq::new(entries.len(), |i: int| (entries[i].address@, entries[i].node))
}

/// Whether the entry at index `i` is the one of `address`.
pub open spec fn entry_at<V>(entries: Seq<(AddressView, V)>, address: AddressView, i: int) -> bool {
    0 <= i < entries.len() && entries[i].0 == address
}

/// Whether a partition holds an entry of `address`.
pub open spec fn cached<V>(entries: Seq<(AddressView, V)>, address: AddressView) -> bool {
    exists|i: int| entry_at(entries, address, i)
}

/// The index of the entry of `address` in a partition that holds one.
pub open spec fn position<V>(entries: Seq<(AddressView, V)>, address: AddressView) -> int {
    choose|i: int| entry_at(entries, address, i)
}

/// Whether no address has two entries.
pub open spec fn no_duplicates<V>(entries: Seq<(AddressView, V)>) -> bool {
    forall|i: int, j: int|
        0 <= i < j < entries.len() ==> (#[trigger] entries[i]).0 != (#[trigger] entries[j]).0
}

/// The entries after the one at index `i` was used: it is now the most
/// recently used.
pub open spec fn touched<V>(entries: Seq<(AddressView, V)>, i: int) -> Seq<(AddressView, V)> {
    entries.remove(i).push(entries[i])
}

/// The entries after `node` was stored under `address`. A node that was
/// cached under the address is replaced; otherwise, in a full partition, the
/// least recently used entry gives way. The new entry is the most recently
/// used. A partition without capacity stays empty.
pub open spec fn stored<V>(
    entries: Seq<(AddressView, V)>,
    capacity: nat,
    address: AddressView,
    node: V,
) -> Seq<(AddressView, V)> {
    if capacity == 0 {
        entries
    } else if cached(entries, address) {
        entries.remove(position(entries, address)).push((address, node))
    } else if entries.len() >= capacity {
        entries.drop_first().push((address, node))
    } else {
        entries.push((address, node))
    }
}

impl<V> View for NodeCache<V> {
    type V = Seq<PartitionView<V>>;

    closed spec fn view(&self) -> Seq<PartitionView<V>> {
        Seq::new(
            self.partitions.len() as nat,
            |p: int|
                PartitionView {
                    capacity: self.partitions[p].capacity as nat,
                    entries: entries_view(self.partitions[p].entries@),
                },
        )
    }
}

/// Without duplicates the entry of an address is found at one index only.
pub proof fn lemma_position<V>(entries: Seq<(AddressView, V)>, address: AddressView, i: int)
    requires
        no_duplicates(entries),
        entry_at(entries, address, i),
    ensures
        cached(entries, address),
        position(entries, address) == i,
{
    let j = position(entries, address);
    if j < i {
        assert(entries[j].0 != entries[i].0);
    }
    if i < j {
        assert(entries[i].0 != entries[j].0);
    }
}

/// Using an entry keeps a partition free of duplicates and of the same size.
pub proof fn lemma_touched<V>(entries: Seq<(AddressView, V)>, i: int, replacement: (AddressView, V))
    requires
        no_duplicates(entries),
        0 <= i < entries.len(),
        replacement.0 == entries[i].0,
    ensures
        no_duplicates(entries.remove(i).push(replacement)),
        entries.remove(i).push(replacement).len() == entries.len(),
{
    let after = entries.remove(i).push(replacement);
    assert forall|a: int, b: int| 0 <= a < b < after.len() implies (#[trigger] after[a]).0 != (
    #[trigger] after[b]).0 by {
        let from_a = if a < i {
            a
        } else {
            a + 1
        };
        assert(after[a] == entries[from_a]);
        if b < after.len() - 1 {
            let from_b = if b < i {
                b
            } else {
                b + 1
            };
            assert(after[b] == entries[from_b]);
            assert(entries[from_a].0 != entries[from_b].0);
        } else {
            if from_a < i {
                assert(entries[from_a].0 != entries[i].0);
            } else {
                assert(entries[i].0 != entries[from_a].0);
            }
        }
    }
}

/// Every entry of a partition after a use was an entry before it.
pub proof fn lemma_touched_members<V>(entries: Seq<(AddressView, V)>, i: int, k: int) -> (from: int)
    requires
        0 <= i < entries.len(),
        0 <= k < touched(entries, i).len(),
    ensures
        0 <= from < entries.len(),
        touched(entries, i)[k] == entries[from],
{
    if k < entries.len() - 1 {
        if k < i {
            k
        } else {
            k + 1
        }
    } else {
        i
    }
}

/// Every entry of a partition after a node was stored is that node's entry or
/// was an entry before.
pub proof fn lemma_stored_members<V>(
    entries: Seq<(AddressView, V)>,
    capacity: nat,
    address: AddressView,
    node: V,
    k: int,
) -> (from: int)
    requires
        0 <= k < stored(entries, capacity, address, node).len(),
    ensures
        stored(entries, capacity, address, node)[k] == (address, node) || (0 <= from < entries.len()
            && stored(entries, capacity, address, node)[k] == entries[from]),
{
    let after = stored(entries, capacity, address, node);
    if capacity == 0 {
        k
    } else if cached(entries, address) {
        let i = position(entries, address);
        if k < after.len() - 1 {
            if k < i {
                k
            } else {
                k + 1
            }
        } else {
            0
        }
    } else if entries.len() >= capacity {
        if k < after.len() - 1 {
            k + 1
        } else {
            0
        }
    } else {
        if k < after.len() - 1 {
            k
        } else {
            0
        }
    }
}

impl<V> NodeCache<V> {
    /// The invariant of the cache: no partition holds two entries of one
    /// address, or more entries than its capacity.
    pub closed spec fn wf(&self) -> bool {
        forall|p: int|
            0 <= p < self.partitions.len() ==> {
                &&& no_duplicates(#[trigger] self@[p].entries)
                &&& self@[p].entries.len() <= self@[p].capacity
            }
    }

    /// An empty cache with one partition of capacity `capacity` for each of
    /// `num_shards` shards, and one more, of capacity `top_capacity`, for the
    /// top-level tree.
    pub fn new(num_shards: usize, capacity: usize, top_capacity: usize) -> (cache: NodeCache<V>)
        ensures
            cache.wf(),
            cache@.len() == num_shards + 1,
            forall|p: int|
                0 <= p < num_shards ==> (#[trigger] cache@[p]).capacity == capacity
                    && cache@[p].entries.len() == 0,
            cache@[num_shards as int].capacity == top_capacity,
            cache@[num_shards as int].entries.len() == 0,
    {
        let mut partitions: Vec<CachePartition<V>> = Vec::new();
        let mut p: usize = 0;
        while p < num_shards
            invariant
                p <= num_shards,
                partitions.len() == p,
                forall|q: int|
                    0 <= q < p ==> (#[trigger] partitions[q]).capacity == capacity
                        && partitions[q].entries.len() == 0,
            decreases num_shards - p,
        {
            partitions.push(CachePartition { capacity, entries: Vec::new() });
            p += 1;
        }
        partitions.push(CachePartition { capacity: top_capacity, entries: Vec::new() });
        NodeCache { partitions }
    }

    /// An empty cache with one partition for each capacity given: those of
    /// the shards in their order, and last that of the top-level tree.
    pub fn with_capacities(capacities: &Vec<usize>) -> (cache: NodeCache<V>)
        ensures
            cache.wf(),
            cache@.len() == capacities.len(),
            forall|p: int|
                0 <= p < capacities.len() ==> (#[trigger] cache@[p]).capacity == capacities[p]
                    && cache@[p].entries.len() == 0,
    {
        let mut partitions: Vec<CachePartition<V>> = Vec::new();
        let mut p: usize = 0;
        while p < capacities.len()
            invariant
                p <= capacities.len(),
                partitions.len() == p,
                forall|q: int|
                    0 <= q < p ==> (#[trigger] partitions[q]).capacity == capacities[q]
                        && partitions[q].entries.len() == 0,
            decreases capacities.len() - p,
        {
            partitions.push(CachePartition { capacity: capacities[p], entries: Vec::new() });
            p += 1;
        }
        NodeCache { partitions }
    }

    /// The number of partitions: one for each shard and one for the top-level
    /// tree.
    pub fn partition_count(&self) -> (n: usize)
        ensures
            n == self@.len(),
    {
        self.partitions.len()
    }

    /// The number of entries of the partition `partition`.
    pub fn len(&self, partition: usize) -> (n: usize)
        requires
            partition < self@.len(),
        ensures
            n == self@[partition as int].entries.len(),
    {
        self.partitions[partition].entries.len()
    }

    /// The index of the entry of `address` in the partition `partition`.
    fn find(&self, partition: usize, address: &NodeAddress) -> (found: Option<usize>)
        requires
            self.wf(),
            partition < self.partitions.len(),
        ensures
            found is Some <==> cached(self@[partition as int].entries, address@),
            found matches Some(i) ==> entry_at(self@[partition as int].entries, address@, i as int)
                && i == position(self@[partition as int].entries, address@),
    {
        let entries = &self.partitions[partition].entries;
        let ghost view = self@[partition as int].entries;
        let mut i: usize = 0;
        while i < entries.len()
            invariant
                i <= entries.len(),
                partition < self.partitions.len(),
                view == self@[partition as int].entries,
                view == entries_view(entries@),
                no_duplicates(view),
                forall|j: int| 0 <= j < i ==> (#[trigger] view[j]).0 != address@,
            decreases entries.len() - i,
        {
            if same_address(&entries[i].address, address) {
                proof {
                    assert(entry_at(view, address@, i as int));
                    lemma_position(view, address@, i as int);
                }
                return Some(i);
            }
            i += 1;
        }
        proof {
            assert forall|j: int| !entry_at(view, address@, j) by {
                if 0 <= j < view.len() {
                    assert(view[j].0 != address@);
                }
            }
        }
        None
    }

    /// The node cached under `address` in the partition `partition`, or
    /// `None` on a miss. A hit makes the entry the most recently used of its
    /// partition; the other partitions stay as they are.
    #[verifier::rlimit(30)]
    pub fn get(&mut self, partition: usize, address: &NodeAddress) -> (node: Option<&V>)
        requires
            old(self).wf(),
            partition < old(self)@.len(),
        ensures
            final(self).wf(),
            final(self)@.len() == old(self)@.len(),
            forall|p: int|
                0 <= p < old(self)@.len() && p != partition ==> #[trigger] final(self)@[p] == old(
                    self,
                )@[p],
            final(self)@[partition as int].capacity == old(self)@[partition as int].capacity,
            node is Some <==> cached(old(self)@[partition as int].entries, address@),
            node is None ==> final(self)@[partition as int] == old(self)@[partition as int],
            node matches Some(n) ==> {
                let before = old(self)@[partition as int].entries;
                let i = position(before, address@);
                &&& *n == before[i].1
                &&& final(self)@[partition as int].entries == touched(before, i)
            },
    {
        let ghost before = self@;
        let ghost entries = self@[partition as int].entries;
        match self.find(partition, address) {
            None => {
                proof {
                    assert(self@ =~= before);
                }
                None
            },
            Some(i) => {
                let entry = self.partitions[partition].entries.remove(i);
                self.partitions[partition].entries.push(entry);
                proof {
                    let after = self@[partition as int].entries;
                    assert(after =~= touched(entries, i as int));
                    lemma_touched(entries, i as int, entries[i as int]);
                    assert forall|p: int| 0 <= p < before.len() && p != partition implies #[trigger] self@[p]
                        == before[p] by {}
                    assert forall|p: int| 0 <= p < self.partitions.len() implies {
                        &&& no_duplicates(#[trigger] self@[p].entries)
                        &&& self@[p].entries.len() <= self@[p].capacity
                    } by {
                        if p != partition {
                            assert(self@[p] == before[p]);
                        }
                    }
                }
                let last = self.partitions[partition].entries.len() - 1;
                Some(&self.partitions[partition].entries[last].node)
            },
        }
    }

    /// Stores `node` under `address` in the partition `partition` as its most
    /// recently used entry. A node already cached under the address is
    /// replaced; otherwise, where the partition is full, its least recently
    /// used entry is evicted. The other partitions stay as they are.
    #[verifier::rlimit(30)]
    pub fn put(&mut self, partition: usize, address: NodeAddress, node: V)
        requires
            old(self).wf(),
            partition < old(self)@.len(),
        ensures
            final(self).wf(),
            final(self)@.len() == old(self)@.len(),
            forall|p: int|
                0 <= p < old(self)@.len() && p != partition ==> #[trigger] final(self)@[p] == old(
                    self,
                )@[p],
            final(self)@[partition as int].capacity == old(self)@[partition as int].capacity,
            final(self)@[partition as int].entries == stored(
                old(self)@[partition as int].entries,
                old(self)@[partition as int].capacity,
                address@,
                node,
            ),
    {
        let ghost before = self@;
        let ghost entries = self@[partition as int].entries;
        let capacity = self.partitions[partition].capacity;
        if capacity == 0 {
            proof {
                assert(self@ =~= before);
            }
            return ;
        }
        let found = self.find(partition, &address);
        let ghost key = address@;
        let entry = CacheEntry { address, node };
        match found {
            Some(i) => {
                let _ = self.partitions[partition].entries.remove(i);
                self.partitions[partition].entries.push(entry);
                proof {
                    lemma_touched(entries, i as int, (key, node));
                    assert(self@[partition as int].entries =~= entries.remove(i as int).push(
                        (key, node),
                    ));
                }
            },
            None => {
                if self.partitions[partition].entries.len() >= capacity {
                    let _ = self.partitions[partition].entries.remove(0);
                    proof {
                        assert(entries_view(self.partitions[partition as int].entries@)
                            =~= entries.drop_first());
                    }
                }
                let ghost kept = entries_view(self.partitions[partition as int].entries@);
                self.partitions[partition].entries.push(entry);
                proof {
                    let after = self@[partition as int].entries;
                    assert(after =~= kept.push((key, node)));
                    assert forall|a: int, b: int| 0 <= a < b < after.len() implies (
                    #[trigger] after[a]).0 != (#[trigger] after[b]).0 by {
                        let shift = entries.len() - kept.len();
                        assert(after[a] == entries[a + shift]);
                        if b < after.len() - 1 {
                            assert(after[b] == entries[b + shift]);
                        } else {
                            assert(!entry_at(entries, key, a + shift));
                        }
                    }
                }
            },
        }
        proof {
            assert forall|p: int| 0 <= p < before.len() && p != partition implies #[trigger] self@[p]
                == before[p] by {}
            assert forall|p: int| 0 <= p < self.partitions.len() implies {
                &&& no_duplicates(#[trigger] self@[p].entries)
                &&& self@[p].entries.len() <= self@[p].capacity
            } by {
                if p != partition {
                    assert(self@[p] == before[p]);
                }
            }
        }
    }
}

} // verus!

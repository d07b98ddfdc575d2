//! Batches of updates and what they do to the bindings of a shard.

use vstd::prelude::*;
use crate::hash::{has_prefix, key_bit, key_prefix, HashValue, KEY_BITS};
use crate::tree::HashMapping;

verus! {

/// One update of a shard tree: a key with the hash of its new value, or with
/// `None` where the key is deleted.
pub type HashUpdate = (HashValue, Option<HashValue>);

/// The bindings after one update.
pub open spec fn apply_update(m: HashMapping, u: HashUpdate) -> HashMapping {
    match u.1 {
        Some(v) => m.insert(u.0@, v@),
        None => m.remove(u.0@),
    }
}

/// The bindings after a sequence of updates, applied in order: of two updates
/// of one key the later one decides.
pub open spec fn apply_updates(m: HashMapping, ups: Seq<HashUpdate>) -> HashMapping
    decreases ups.len(),
{
    if ups.len() == 0 {
        m
    } else {
        apply_update(apply_updates(m, ups.drop_last()), ups.last())
    }
}

/// The updates whose key has the bit `bit` at position `depth`, in their
/// order.
pub open spec fn select_bit(ups: Seq<HashUpdate>, depth: int, bit: bool) -> Seq<HashUpdate>
    decreases ups.len(),
{
    if ups.len() == 0 {
        Seq::empty()
    } else {
        let rest = select_bit(ups.drop_last(), depth, bit);
        if key_bit(ups.last().0@, depth) == bit {
            rest.push(ups.last())
        } else {
            rest
        }
    }
}

/// Whether every key of the bindings has the bit `bit` at position `depth`.
pub open spec fn sided(m: HashMapping, depth: int, bit: bool) -> bool {
    forall|k: Seq<u8>| #[trigger] m.contains_key(k) ==> key_bit(k, depth) == bit
}

/// Whether every key of the updates lies under `path`.
pub open spec fn updates_under(ups: Seq<HashUpdate>, path: Seq<bool>) -> bool {
    forall|j: int| 0 <= j < ups.len() ==> has_prefix(#[trigger] ups[j].0@, path)
}

/// One more update at the end is applied last.
pub proof fn lemma_apply_push(m: HashMapping, ups: Seq<HashUpdate>, u: HashUpdate)
    ensures
        apply_updates(m, ups.push(u)) == apply_update(apply_updates(m, ups), u),
{
    assert(ups.push(u).drop_last() =~= ups);
}

/// Updates whose keys have one bit in common leave bindings on that side.
pub proof fn lemma_apply_sided(m: HashMapping, ups: Seq<HashUpdate>, depth: int, bit: bool)
    requires
        sided(m, depth, bit),
        forall|j: int| 0 <= j < ups.len() ==> key_bit(#[trigger] ups[j].0@, depth) == bit,
    ensures
        sided(apply_updates(m, ups), depth, bit),
    decreases ups.len(),
{
    if ups.len() > 0 {
        lemma_apply_sided(m, ups.drop_last(), depth, bit);
        let before = apply_updates(m, ups.drop_last());
        assert(key_bit(ups[ups.len() - 1].0@, depth) == bit);
        assert forall|k: Seq<u8>| #[trigger]
            apply_updates(m, ups).contains_key(k) implies key_bit(k, depth) == bit by {
            if k != ups.last().0@ {
                assert(before.contains_key(k));
            }
        }
    }
}

/// A selected update is an update of the batch, and its key has the selected
/// bit.
pub proof fn lemma_select_member(ups: Seq<HashUpdate>, depth: int, bit: bool, j: int) -> (i: int)
    requires
        0 <= j < select_bit(ups, depth, bit).len(),
    ensures
        0 <= i < ups.len(),
        ups[i] == select_bit(ups, depth, bit)[j],
        key_bit(ups[i].0@, depth) == bit,
    decreases ups.len(),
{
    let rest = ups.drop_last();
    let sel_rest = select_bit(rest, depth, bit);
    if j < sel_rest.len() {
        let i = lemma_select_member(rest, depth, bit, j);
        assert(rest[i] == ups[i]);
        i
    } else {
        ups.len() - 1
    }
}

/// The updates selected by the next bit lie under the path extended by that
/// bit.
pub proof fn lemma_select_under(ups: Seq<HashUpdate>, path: Seq<bool>, bit: bool)
    requires
        updates_under(ups, path),
        path.len() < KEY_BITS,
    ensures
        updates_under(select_bit(ups, path.len() as int, bit), path.push(bit)),
        forall|j: int|
            0 <= j < select_bit(ups, path.len() as int, bit).len() ==> key_bit(
                #[trigger] select_bit(ups, path.len() as int, bit)[j].0@,
                path.len() as int,
            ) == bit,
{
    let sel = select_bit(ups, path.len() as int, bit);
    assert forall|j: int| 0 <= j < sel.len() implies has_prefix(#[trigger] sel[j].0@, path.push(bit))
        && key_bit(sel[j].0@, path.len() as int) == bit by {
        let i = lemma_select_member(ups, path.len() as int, bit, j);
        assert(has_prefix(ups[i].0@, path));
        assert forall|b: int| 0 <= b < path.push(bit).len() implies key_bit(sel[j].0@, b)
            == path.push(bit)[b] by {
            if b < path.len() {
                assert(path.push(bit)[b] == path[b]);
            }
        }
    }
}

/// A key under a path has that path as its prefix of the same length.
pub proof fn lemma_prefix_of_key(key: Seq<u8>, path: Seq<bool>)
    requires
        has_prefix(key, path),
    ensures
        key_prefix(key, path.len()) == path,
{
    assert(key_prefix(key, path.len()) =~= path);
}

/// Updates split by one bit act on the two sides of the bindings
/// independently.
pub proof fn lemma_apply_split(left: HashMapping, right: HashMapping, ups: Seq<HashUpdate>, depth: int)
    requires
        sided(left, depth, false),
        sided(right, depth, true),
    ensures
        apply_updates(left.union_prefer_right(right), ups) == apply_updates(
            left,
            select_bit(ups, depth, false),
        ).union_prefer_right(apply_updates(right, select_bit(ups, depth, true))),
        sided(apply_updates(left, select_bit(ups, depth, false)), depth, false),
        sided(apply_updates(right, select_bit(ups, depth, true)), depth, true),
    decreases ups.len(),
{
    let zeros = select_bit(ups, depth, false);
    let ones = select_bit(ups, depth, true);
    assert forall|j: int| 0 <= j < zeros.len() implies key_bit(#[trigger] zeros[j].0@, depth)
        == false by {
        let i = lemma_select_member(ups, depth, false, j);
    }
    assert forall|j: int| 0 <= j < ones.len() implies key_bit(#[trigger] ones[j].0@, depth)
        == true by {
        let i = lemma_select_member(ups, depth, true, j);
    }
    lemma_apply_sided(left, zeros, depth, false);
    lemma_apply_sided(right, ones, depth, true);
    if ups.len() > 0 {
        let rest = ups.drop_last();
        let u = ups.last();
        lemma_apply_split(left, right, rest, depth);
        let zeros_rest = select_bit(rest, depth, false);
        let ones_rest = select_bit(rest, depth, true);
        let l = apply_updates(left, zeros_rest);
        let r = apply_updates(right, ones_rest);
        if key_bit(u.0@, depth) {
            lemma_apply_push(right, ones_rest, u);
            assert(!l.contains_key(u.0@));
            assert(apply_update(l.union_prefer_right(r), u) =~= l.union_prefer_right(
                apply_update(r, u),
            ));
        } else {
            lemma_apply_push(left, zeros_rest, u);
            assert(!r.contains_key(u.0@));
            assert(apply_update(l.union_prefer_right(r), u) =~= apply_update(
                l,
                u,
            ).union_prefer_right(r));
        }
    } else {
        assert(apply_updates(left.union_prefer_right(right), ups) =~= apply_updates(
            left,
            zeros,
        ).union_prefer_right(apply_updates(right, ones)));
    }
}

/// Where the bindings hold no other key than `key` and every update is of
/// `key`, the last update decides alone.
pub proof fn lemma_apply_single_key(m: HashMapping, ups: Seq<HashUpdate>, key: Seq<u8>)
    requires
        ups.len() > 0,
        forall|k: Seq<u8>| #[trigger] m.contains_key(k) ==> k == key,
        forall|j: int| 0 <= j < ups.len() ==> #[trigger] ups[j].0@ == key,
    ensures
        apply_updates(m, ups) == apply_update(Map::empty(), ups.last()),
        forall|k: Seq<u8>| #[trigger] apply_updates(m, ups).contains_key(k) ==> k == key,
    decreases ups.len(),
{
    let before = apply_updates(m, ups.drop_last());
    assert(ups[ups.len() - 1].0@ == key);
    if ups.len() > 1 {
        lemma_apply_single_key(m, ups.drop_last(), key);
    }
    assert forall|k: Seq<u8>| #[trigger] before.contains_key(k) implies k == key by {}
    assert(apply_update(before, ups.last()) =~= apply_update(Map::empty(), ups.last()));
}

/// Updates whose keys all have a property leave bindings whose keys all have
/// it.
pub proof fn lemma_apply_keys(m: HashMapping, ups: Seq<HashUpdate>, holds: spec_fn(Seq<u8>) -> bool)
    requires
        forall|k: Seq<u8>| #[trigger] m.contains_key(k) ==> holds(k),
        forall|j: int| 0 <= j < ups.len() ==> holds(#[trigger] ups[j].0@),
    ensures
        forall|k: Seq<u8>| #[trigger] apply_updates(m, ups).contains_key(k) ==> holds(k),
    decreases ups.len(),
{
    if ups.len() > 0 {
        lemma_apply_keys(m, ups.drop_last(), holds);
        let before = apply_updates(m, ups.drop_last());
        assert(holds(ups[ups.len() - 1].0@));
        assert forall|k: Seq<u8>| #[trigger] apply_updates(m, ups).contains_key(k) implies holds(
            k,
        ) by {
            if k != ups.last().0@ {
                assert(before.contains_key(k));
            }
        }
    }
}

/// Splits a batch by the bit of its keys at position `depth`, keeping the
/// order of the updates on each side.
pub fn split_updates(ups: &Vec<HashUpdate>, depth: usize) -> (sides: (Vec<HashUpdate>, Vec<HashUpdate>))
    requires
        depth < KEY_BITS,
    ensures
        sides.0@ == select_bit(ups@, depth as int, false),
        sides.1@ == select_bit(ups@, depth as int, true),
{
    let mut zeros: Vec<HashUpdate> = Vec::new();
    let mut ones: Vec<HashUpdate> = Vec::new();
    let mut i: usize = 0;
    while i < ups.len()
        invariant
            i <= ups.len(),
            depth < KEY_BITS,
            zeros@ == select_bit(ups@.take(i as int), depth as int, false),
            ones@ == select_bit(ups@.take(i as int), depth as int, true),
        decreases ups.len() - i,
    {
        let u: HashUpdate = ups[i];
        proof {
            assert(ups@.take(i + 1).drop_last() =~= ups@.take(i as int));
            assert(ups@.take(i + 1).last() == u);
        }
        if u.0.bit(depth) {
            ones.push(u);
        } else {
            zeros.push(u);
        }
        i += 1;
    }
    proof {
        assert(ups@.take(ups.len() as int) =~= ups@);
    }
    (zeros, ones)
}

} // verus!

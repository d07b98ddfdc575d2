//! The raw value store: the values of the keys, version by version, kept apart
//! from the trees and partitioned like them.
//!
//! Each shard keeps a log of records, appended in the order of the versions.
//! A lookup at a version sees the last record of the key that is not after
//! that version.

use vstd::prelude::*;
use crate::hash::HashValue;
use crate::partition::{shard_of, shard_of_spec, MAX_SHARDS};

verus! {

/// One record of the value store: the value that `key` got at `version`, or
/// `None` where the key was deleted at that version.
#[derive(Clone, Debug, PartialEq, Eq)]
pub struct ValueRecord {
    pub key: HashValue,
    pub version: u64,
    pub value: Option<Vec<u8>>,
}

/// A record as a mathematical value.
pub struct RecordView {
    pub key: Seq<u8>,
    pub version: u64,
    pub value: Option<Seq<u8>>,
}

/// A map from keys to values: what a shard holds at a version.
pub type ValueMapping = Map<Seq<u8>, Seq<u8>>;

/// One update of a key: its new value, or `None` where the key is deleted.
pub type ValueUpdate = (HashValue, Option<Vec<u8>>);

impl View for ValueRecord {
    type V = RecordView;

    open spec fn view(&self) -> RecordView {
        RecordView {
            key: self.key@,
            version: self.version,
            value: match self.value {
                Some(v) => Some(v@),
                None => None,
            },
        }
    }
}

/// The records of a log as mathematical values.
pub open spec fn records_view(log: Seq<ValueRecord>) -> Seq<RecordView> {
    Seq::new(log.len(), |i: int| log[i]@)
}

/// Whether a record counts for a lookup of `key` at `version`.
pub open spec fn record_matches(r: RecordView, key: Seq<u8>, version: u64) -> bool {
    r.key == key && r.version <= version
}

/// What a lookup of `key` at `version` sees in a log: the last record of the
/// key that is not after the version, or `None` where there is none. The
/// record's value is itself `None` where it marks a deletion.
pub open spec fn visible(log: Seq<RecordView>, key: Seq<u8>, version: u64) -> Option<Option<Seq<u8>>>
    decreases log.len(),
{
    if log.len() == 0 {
        None
    } else if record_matches(log.last(), key, version) {
        Some(log.last().value)
    } else {
        visible(log.drop_last(), key, version)
    }
}

/// The values that a log holds at `version`.
pub open spec fn values_at(log: Seq<RecordView>, version: u64) -> ValueMapping {
    Map::new(
        |k: Seq<u8>| visible(log, k, version) matches Some(Some(v)),
        |k: Seq<u8>| visible(log, k, version)->0->0,
    )
}

/// Whether the versions of a log never decrease along it.
pub open spec fn log_ordered(log: Seq<RecordView>) -> bool {
    forall|i: int, j: int| 0 <= i <= j < log.len() ==> (#[trigger] log[i]).version <= (
    #[trigger] log[j]).version
}

/// Whether no record of a log is after `version`.
pub open spec fn log_within(log: Seq<RecordView>, version: u64) -> bool {
    forall|i: int| 0 <= i < log.len() ==> (#[trigger] log[i]).version <= version
}

/// The values after one update.
pub open spec fn apply_value(m: ValueMapping, u: ValueUpdate) -> ValueMapping {
    match u.1 {
        Some(v) => m.insert(u.0@, v@),
        None => m.remove(u.0@),
    }
}

/// The values after a sequence of updates, applied in order.
pub open spec fn apply_values(m: ValueMapping, ups: Seq<ValueUpdate>) -> ValueMapping
    decreases ups.len(),
{
    if ups.len() == 0 {
        m
    } else {
        apply_value(apply_values(m, ups.drop_last()), ups.last())
    }
}

/// The record that an update writes at `version`.
pub open spec fn record_of(u: ValueUpdate, version: u64) -> RecordView {
    RecordView {
        key: u.0@,
        version,
        value: match u.1 {
            Some(v) => Some(v@),
            None => None,
        },
    }
}

/// The records that a sequence of updates writes at `version`, in order.
pub open spec fn records_of(ups: Seq<ValueUpdate>, version: u64) -> Seq<RecordView> {
    Seq::new(ups.len(), |i: int| record_of(ups[i], version))
}

/// What a lookup sees is the value of the record of the key with the greatest
/// version not after the one asked for; among records of one version, of the
/// last.
pub proof fn lemma_visible_nearest(log: Seq<RecordView>, key: Seq<u8>, version: u64) -> (at: int)
    requires
        log_ordered(log),
    ensures
        visible(log, key, version) is None <==> forall|i: int|
            0 <= i < log.len() ==> !record_matches(#[trigger] log[i], key, version),
        visible(log, key, version) is Some ==> {
            &&& 0 <= at < log.len()
            &&& record_matches(log[at], key, version)
            &&& visible(log, key, version) == Some(log[at].value)
            &&& forall|j: int|
                0 <= j < log.len() && record_matches(#[trigger] log[j], key, version) ==> j <= at
                    && log[j].version <= log[at].version
        },
    decreases log.len(),
{
    if log.len() == 0 {
        0
    } else if record_matches(log.last(), key, version) {
        log.len() - 1
    } else {
        let rest = log.drop_last();
        assert forall|i: int, j: int| 0 <= i <= j < rest.len() implies (#[trigger] rest[i]).version
            <= (#[trigger] rest[j]).version by {
            assert(log[i].version <= log[j].version);
        }
        let at = lemma_visible_nearest(rest, key, version);
        assert forall|i: int| 0 <= i < log.len() && visible(log, key, version) is None implies
            !record_matches(#[trigger] log[i], key, version) by {
            if i < rest.len() {
                assert(!record_matches(rest[i], key, version));
            }
        }
        if visible(log, key, version) is Some {
            assert(log[at] == rest[at]);
            assert forall|j: int|
                0 <= j < log.len() && record_matches(#[trigger] log[j], key, version) implies j
                <= at && log[j].version <= log[at].version by {
                assert(j < rest.len());
                assert(record_matches(rest[j], key, version));
            }
        } else {
            assert forall|i: int| 0 <= i < rest.len() implies !record_matches(
                #[trigger] rest[i],
                key,
                version,
            ) by {
                assert(rest[i] == log[i]);
            }
        }
        at
    }
}

/// A record written after `version` is not seen at `version`.
pub proof fn lemma_visible_later(
    log: Seq<RecordView>,
    later: Seq<RecordView>,
    key: Seq<u8>,
    version: u64,
)
    requires
        forall|i: int| 0 <= i < later.len() ==> version < (#[trigger] later[i]).version,
    ensures
        visible(log + later, key, version) == visible(log, key, version),
    decreases later.len(),
{
    if later.len() == 0 {
        assert(log + later =~= log);
    } else {
        let all = log + later;
        assert(all.last() == later[later.len() - 1]);
        assert(all.drop_last() =~= log + later.drop_last());
        lemma_visible_later(log, later.drop_last(), key, version);
    }
}

/// Where no record is after `v1`, a lookup at any later version sees what a
/// lookup at `v1` sees.
pub proof fn lemma_visible_latest(log: Seq<RecordView>, key: Seq<u8>, v1: u64, v2: u64)
    requires
        log_within(log, v1),
        v1 <= v2,
    ensures
        visible(log, key, v2) == visible(log, key, v1),
    decreases log.len(),
{
    if log.len() > 0 {
        assert(log[log.len() - 1].version <= v1);
        lemma_visible_latest(log.drop_last(), key, v1, v2);
    }
}

/// The values of a version stay as they are when later versions are written.
pub proof fn lemma_values_later(log: Seq<RecordView>, later: Seq<RecordView>, version: u64)
    requires
        forall|i: int| 0 <= i < later.len() ==> version < (#[trigger] later[i]).version,
    ensures
        values_at(log + later, version) == values_at(log, version),
{
    assert forall|k: Seq<u8>| visible(log + later, k, version) == visible(log, k, version) by {
        lemma_visible_later(log, later, k, version);
    }
    assert(values_at(log + later, version) =~= values_at(log, version));
}

/// Where no record is after `v1`, the values at any later version are those
/// at `v1`.
pub proof fn lemma_values_latest(log: Seq<RecordView>, v1: u64, v2: u64)
    requires
        log_within(log, v1),
        v1 <= v2,
    ensures
        values_at(log, v2) == values_at(log, v1),
{
    assert forall|k: Seq<u8>| visible(log, k, v2) == visible(log, k, v1) by {
        lemma_visible_latest(log, k, v1, v2);
    }
    assert(values_at(log, v2) =~= values_at(log, v1));
}

/// Writing the records of a batch of updates at `version` changes the values
/// at `version` as the updates say.
pub proof fn lemma_values_written(log: Seq<RecordView>, ups: Seq<ValueUpdate>, version: u64)
    ensures
        values_at(log + records_of(ups, version), version) == apply_values(
            values_at(log, version),
            ups,
        ),
    decreases ups.len(),
{
    if ups.len() == 0 {
        assert(log + records_of(ups, version) =~= log);
    } else {
        let rest = ups.drop_last();
        let u = ups.last();
        let before = log + records_of(rest, version);
        let after = log + records_of(ups, version);
        lemma_values_written(log, rest, version);
        assert(after.drop_last() =~= before);
        assert(after.last() == record_of(u, version));
        assert forall|k: Seq<u8>|
            visible(after, k, version) == (if k == u.0@ {
                Some(record_of(u, version).value)
            } else {
                visible(before, k, version)
            }) by {}
        assert(values_at(after, version) =~= apply_value(values_at(before, version), u));
    }
}

/// A copy of a byte string.
pub fn copy_bytes(bytes: &Vec<u8>) -> (copy: Vec<u8>)
    ensures
        copy@ == bytes@,
{
    let mut copy: Vec<u8> = Vec::new();
    let mut i: usize = 0;
    while i < bytes.len()
        invariant
            i <= bytes.len(),
            copy@ == bytes@.take(i as int),
        decreases bytes.len() - i,
    {
        copy.push(bytes[i]);
        proof {
            assert(copy@ =~= bytes@.take(i + 1));
        }
        i += 1;
    }
    proof {
        assert(bytes@.take(bytes.len() as int) =~= bytes@);
    }
    copy
}

/// The raw value store of all shards.
#[derive(Debug)]
pub struct RawValueStore {
    num_shards: usize,
    logs: Vec<Vec<ValueRecord>>,
}

impl RawValueStore {
    /// The invariant of the store: it has one log for each shard.
    pub closed spec fn wf(&self) -> bool {
        &&& 0 < self.num_shards <= MAX_SHARDS
        &&& self.logs.len() == self.num_shards
    }

    /// The number of shards of the store.
    pub closed spec fn shard_count(&self) -> nat {
        self.num_shards as nat
    }

    /// The log of the shard `shard`.
    pub closed spec fn log(&self, shard: int) -> Seq<RecordView> {
        records_view(self.logs[shard]@)
    }

    /// An empty store for `num_shards` shards.
    pub fn new(num_shards: usize) -> (store: RawValueStore)
        requires
            0 < num_shards <= MAX_SHARDS,
        ensures
            store.wf(),
            store.shard_count() == num_shards,
            forall|s: int| 0 <= s < num_shards ==> #[trigger] store.log(s) == Seq::<RecordView>::empty(),
    {
        let mut logs: Vec<Vec<ValueRecord>> = Vec::new();
        let mut i: usize = 0;
        while i < num_shards
            invariant
                i <= num_shards,
                logs.len() == i,
                forall|s: int| 0 <= s < i ==> (#[trigger] logs[s]).len() == 0,
            decreases num_shards - i,
        {
            logs.push(Vec::new());
            i += 1;
        }
        let store = RawValueStore { num_shards, logs };
        proof {
            assert forall|s: int| 0 <= s < num_shards implies #[trigger] store.log(s) == Seq::<
                RecordView,
            >::empty() by {
                assert(store.logs[s].len() == 0);
                assert(store.log(s) =~= Seq::<RecordView>::empty());
            }
        }
        store
    }

    /// The value of `key` that is visible at `version`: that of the nearest
    /// version not after `version` at which the key has a record. There is
    /// none where the key has no such record, and where that record marks a
    /// deletion.
    pub fn get(&self, key: &HashValue, version: u64) -> (value: Option<&Vec<u8>>)
        requires
            self.wf(),
        ensures
            match visible(
                self.log(shard_of_spec(key@, self.shard_count()) as int),
                key@,
                version,
            ) {
                Some(Some(v)) => value matches Some(found) && found@ == v,
                _ => value is None,
            },
    {
        let shard = shard_of(key, self.num_shards);
        let log = &self.logs[shard];
        let ghost all = records_view(log@);
        let mut i: usize = log.len();
        proof {
            assert(all.take(log.len() as int) =~= all);
        }
        while i > 0
            invariant
                i <= log.len(),
                all == records_view(log@),
                all == self.log(shard_of_spec(key@, self.shard_count()) as int),
                visible(all, key@, version) == visible(all.take(i as int), key@, version),
            decreases i,
        {
            i -= 1;
            let record = &log[i];
            proof {
                let upto = all.take(i + 1);
                assert(upto.last() == record@);
                assert(upto.drop_last() =~= all.take(i as int));
            }
            if record.version <= version && record.key.equals(key) {
                proof {
                    assert(record_matches(record@, key@, version));
                    assert(visible(all, key@, version) == Some(record@.value));
                }
                return match &record.value {
                    Some(v) => Some(v),
                    None => None,
                };
            }
        }
        None
    }

    /// Appends to the log of `shard` the records that `updates` write at
    /// `version`, in their order. The logs of the other shards stay as they
    /// are.
    pub fn put(&mut self, shard: usize, version: u64, updates: &Vec<ValueUpdate>)
        requires
            old(self).wf(),
            shard < old(self).shard_count(),
        ensures
            final(self).wf(),
            final(self).shard_count() == old(self).shard_count(),
            final(self).log(shard as int) == old(self).log(shard as int) + records_of(
                updates@,
                version,
            ),
            forall|s: int|
                0 <= s < old(self).shard_count() && s != shard ==> #[trigger] final(self).log(s)
                    == old(self).log(s),
    {
        let ghost before = self.log(shard as int);
        let ghost old_logs = self.logs@;
        let mut i: usize = 0;
        proof {
            assert(records_of(updates@.take(0), version) =~= Seq::empty());
            assert(before + Seq::<RecordView>::empty() =~= before);
        }
        while i < updates.len()
            invariant
                i <= updates.len(),
                self.wf(),
                self.num_shards == old(self).num_shards,
                shard < self.num_shards,
                self.logs.len() == old_logs.len(),
                forall|s: int| 0 <= s < self.logs.len() && s != shard ==> self.logs[s] == old_logs[s],
                records_view(self.logs[shard as int]@) == before + records_of(
                    updates@.take(i as int),
                    version,
                ),
            decreases updates.len() - i,
        {
            let value: Option<Vec<u8>> = match &updates[i].1 {
                Some(v) => Some(copy_bytes(v)),
                None => None,
            };
            let record = ValueRecord { key: updates[i].0, version, value };
            let ghost log_before = records_view(self.logs[shard as int]@);
            proof {
                assert(record@ == record_of(updates@[i as int], version));
            }
            self.logs[shard].push(record);
            proof {
                assert(records_view(self.logs[shard as int]@) =~= log_before.push(record@));
                assert(records_of(updates@.take(i + 1), version) =~= records_of(
                    updates@.take(i as int),
                    version,
                ).push(record@));
                assert(log_before.push(record@) =~= before + records_of(
                    updates@.take(i + 1),
                    version,
                ));
            }
            i += 1;
        }
        proof {
            assert(updates@.take(updates.len() as int) =~= updates@);
        }
    }
}

} // verus!

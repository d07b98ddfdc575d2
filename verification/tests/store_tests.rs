use sharded_merkle::error::Error;
use sharded_merkle::hash::HashValue;
use sharded_merkle::store::{CommitEvent, CommitPhase, ShardedStore};
use sharded_merkle::top_level::{aggregate, top_proof};

fn key(first: u8, rest: u8) -> HashValue {
    let mut bytes = [rest; 32];
    bytes[0] = first;
    HashValue::new(bytes)
}

fn value(n: u8) -> Vec<u8> {
    vec![n, n, n]
}

type Updates = Vec<Vec<(HashValue, Option<Vec<u8>>)>>;

fn four_keys() -> Updates {
    vec![
        vec![(key(0, 1), Some(value(10)))],
        vec![(key(1, 1), Some(value(11)))],
        vec![(key(2, 1), Some(value(12)))],
        vec![(key(3, 1), Some(value(13)))],
    ]
}

fn store_with_four_keys() -> (ShardedStore, HashValue) {
    let mut store = ShardedStore::new(4).unwrap();
    let root = store.commit(1, None, four_keys()).unwrap();
    (store, root)
}

#[test]
fn four_shards_with_one_key_each() {
    let (store, root) = store_with_four_keys();
    let mut shard_roots = Vec::new();
    for s in 0..4 {
        let entry = store.shard(s).root_at(0);
        assert!(entry.root.is_some());
        assert_ne!(entry.root_hash, HashValue::placeholder());
        shard_roots.push(entry.root_hash);
    }
    for a in 0..4 {
        for b in (a + 1)..4 {
            assert_ne!(shard_roots[a], shard_roots[b]);
        }
    }
    let empty_root = ShardedStore::new(4).unwrap().commit(1, None, vec![vec![]; 4]).unwrap();
    assert_ne!(root, empty_root);
    assert_eq!(store.get_root_hash(1), Ok(root));
    let k1 = key(0, 1);
    let (found, proof) = store.get_with_proof(&k1, 1).unwrap();
    assert_eq!(found, Some(value(10)));
    assert!(proof.verify(&root, &k1, Some(HashValue::digest(&value(10))), 4));
    assert!(!proof.verify(&root, &k1, None, 4));
    assert!(!proof.verify(&empty_root, &k1, Some(HashValue::digest(&value(10))), 4));
}

#[test]
fn untouched_shards_keep_their_roots() {
    let (mut store, root_one) = store_with_four_keys();
    let updates: Updates =
        vec![vec![(key(0, 1), Some(value(20))), (key(4, 9), Some(value(21)))], vec![], vec![], vec![]];
    let root_two = store.commit(2, Some(1), updates).unwrap();
    assert_ne!(root_one, root_two);
    assert_ne!(store.shard(0).root_at(0).root_hash, store.shard(0).root_at(1).root_hash);
    for s in 1..4 {
        assert_eq!(store.shard(s).root_at(0).root_hash, store.shard(s).root_at(1).root_hash);
        assert_eq!(store.shard(s).root_at(0).root, store.shard(s).root_at(1).root);
    }
}

#[test]
fn the_global_root_is_the_aggregate_of_the_shard_roots() {
    let (store, root) = store_with_four_keys();
    let roots: Vec<HashValue> = (0..4).map(|s| store.shard(s).root_at(0).root_hash).collect();
    let (combined, batch) = aggregate(&roots, 1, 4).unwrap();
    assert_eq!(combined, root);
    let left = HashValue::of_internal(&roots[0], &roots[1]);
    let right = HashValue::of_internal(&roots[2], &roots[3]);
    assert_eq!(root, HashValue::of_internal(&left, &right));
    assert_eq!(batch.len(), 3);
    assert!(batch.iter().all(|n| n.namespace == 4 && n.version == 1));
    assert_eq!((batch[0].level, batch[0].index), (1, 0));
    assert_eq!((batch[1].level, batch[1].index), (1, 1));
    assert_eq!((batch[2].level, batch[2].index), (2, 0));
    assert_eq!(batch[2].hash, root);
}

#[test]
fn aggregate_refuses_a_partial_set_of_roots() {
    let roots = vec![HashValue::placeholder(); 3];
    assert_eq!(aggregate(&roots, 1, 4).err(), Some(Error::ShardMismatch));
    assert_eq!(aggregate(&Vec::new(), 1, 0).err(), Some(Error::ShardMismatch));
    assert!(aggregate(&roots, 1, 3).is_ok());
}

#[test]
fn aggregate_pairs_an_odd_root_with_the_placeholder() {
    let a = HashValue::digest(&vec![1]);
    let b = HashValue::digest(&vec![2]);
    let c = HashValue::digest(&vec![3]);
    let (root, batch) = aggregate(&vec![a, b, c], 7, 3).unwrap();
    let left = HashValue::of_internal(&a, &b);
    let right = HashValue::of_internal(&c, &HashValue::placeholder());
    assert_eq!(root, HashValue::of_internal(&left, &right));
    assert_eq!(batch.len(), 3);
    let (single, none) = aggregate(&vec![a], 7, 1).unwrap();
    assert_eq!(single, a);
    assert!(none.is_empty());
}

#[test]
fn every_key_is_proved_at_every_version() {
    let (mut store, root_one) = store_with_four_keys();
    let updates: Updates = vec![
        vec![(key(0, 1), Some(value(20)))],
        vec![(key(1, 1), None)],
        vec![(key(6, 6), Some(value(22)))],
        vec![],
    ];
    let root_two = store.commit(2, Some(1), updates).unwrap();
    let expected_one = [(key(0, 1), Some(value(10))), (key(1, 1), Some(value(11))), (key(6, 6), None)];
    let expected_two = [(key(0, 1), Some(value(20))), (key(1, 1), None), (key(6, 6), Some(value(22)))];
    for (k, v) in expected_one.iter() {
        let (found, proof) = store.get_with_proof(k, 1).unwrap();
        assert_eq!(&found, v);
        assert!(proof.verify(&root_one, k, v.as_ref().map(|b| HashValue::digest(b)), 4));
        assert!(!proof.verify(&root_two, k, v.as_ref().map(|b| HashValue::digest(b)), 4));
    }
    for (k, v) in expected_two.iter() {
        let (found, proof) = store.get_with_proof(k, 2).unwrap();
        assert_eq!(&found, v);
        assert!(proof.verify(&root_two, k, v.as_ref().map(|b| HashValue::digest(b)), 4));
    }
}

#[test]
fn a_deleted_key_is_not_found_from_then_on() {
    let (mut store, root_one) = store_with_four_keys();
    let k = key(2, 1);
    let (_, proof_before) = store.get_with_proof(&k, 1).unwrap();
    let deletion: Updates = vec![vec![], vec![], vec![(k, None)], vec![]];
    let root_two = store.commit(2, Some(1), deletion).unwrap();
    let other: Updates = vec![vec![(key(4, 4), Some(value(1)))], vec![], vec![], vec![]];
    let root_three = store.commit(3, Some(2), other).unwrap();
    assert_eq!(store.get(&k, 1), Ok(value(12)));
    assert_eq!(store.get(&k, 2), Err(Error::NotFound));
    assert_eq!(store.get(&k, 3), Err(Error::NotFound));
    let (gone, absent) = store.get_with_proof(&k, 2).unwrap();
    assert_eq!(gone, None);
    assert!(absent.verify(&root_two, &k, None, 4));
    let (still_gone, still_absent) = store.get_with_proof(&k, 3).unwrap();
    assert_eq!(still_gone, None);
    assert!(still_absent.verify(&root_three, &k, None, 4));
    let (found, proof_after) = store.get_with_proof(&k, 1).unwrap();
    assert_eq!(found, Some(value(12)));
    assert_eq!(proof_after, proof_before);
    assert!(proof_after.verify(&root_one, &k, Some(HashValue::digest(&value(12))), 4));
    assert_eq!(store.get_root_hash(1), Ok(root_one));
}

#[test]
fn the_order_within_a_shard_does_not_change_the_root() {
    let a = (key(0, 1), Some(value(1)));
    let b = (key(4, 1), Some(value(2)));
    let c = (key(8, 200), Some(value(3)));
    let d = (key(1, 1), Some(value(4)));
    let e = (key(5, 1), Some(value(5)));
    let one: Updates = vec![vec![a.clone(), b.clone(), c.clone()], vec![d.clone(), e.clone()], vec![], vec![]];
    let two: Updates = vec![vec![c, a, b], vec![e, d], vec![], vec![]];
    let first = ShardedStore::new(4).unwrap().commit(1, None, one).unwrap();
    let second = ShardedStore::new(4).unwrap().commit(1, None, two).unwrap();
    assert_eq!(first, second);
}

#[test]
fn a_failed_commit_can_be_replayed() {
    let (mut replayed, _) = store_with_four_keys();
    let (mut direct, _) = store_with_four_keys();
    let updates: Updates =
        vec![vec![(key(0, 1), Some(value(20)))], vec![(key(1, 1), None)], vec![], vec![]];
    let announced = replayed.begin_commit(2, Some(1), updates.clone()).unwrap();
    assert_eq!(replayed.phase(), CommitPhase::Persist);
    assert!(replayed.pending().is_some());
    assert_eq!(replayed.latest_version(), Some(1));
    assert_eq!(replayed.get_root_hash(2), Err(Error::VersionError));
    assert_eq!(replayed.complete_commit(false), Err(Error::IoError));
    assert_eq!(replayed.phase(), CommitPhase::Failed);
    assert!(replayed.pending().is_none());
    assert_eq!(replayed.latest_version(), Some(1));
    assert_eq!(replayed.get(&key(0, 1), 1), Ok(value(10)));
    let second = replayed.commit(2, Some(1), updates.clone()).unwrap();
    let uninterrupted = direct.commit(2, Some(1), updates).unwrap();
    assert_eq!(second, uninterrupted);
    assert_eq!(second, announced);
    assert_eq!(replayed.phase(), CommitPhase::Committed);
    assert_eq!(replayed.get_root_hash(2), Ok(second));
}

#[test]
fn one_commit_at_a_time_waits_to_be_persisted() {
    let (mut store, _) = store_with_four_keys();
    let updates: Updates = vec![vec![(key(0, 1), Some(value(20)))], vec![], vec![], vec![]];
    let root = store.begin_commit(2, Some(1), updates.clone()).unwrap();
    assert_eq!(store.begin_commit(3, Some(1), updates.clone()), Err(Error::VersionError));
    assert_eq!(store.commit(2, Some(1), updates), Err(Error::VersionError));
    assert_eq!(store.phase(), CommitPhase::Persist);
    {
        let pending = store.pending().as_ref().unwrap();
        assert_eq!(pending.version, 2);
        assert_eq!(pending.root_hash, root);
        assert_eq!(pending.shard_updates.len(), 4);
        assert_eq!(pending.top_batch.len(), 3);
        assert!(pending.shard_updates[0].batch.iter().all(|n| n.address.shard_id == 0));
        assert!(pending.shard_updates[0].batch.iter().all(|n| n.address.version == 2));
        assert!(pending.shard_updates[1].batch.is_empty());
    }
    assert_eq!(store.complete_commit(true), Ok(root));
    assert_eq!(store.latest_version(), Some(2));
    assert_eq!(store.complete_commit(true), Err(Error::VersionError));
    assert_eq!(store.phase(), CommitPhase::Committed);
}

#[test]
fn commits_that_do_not_follow_the_latest_version_are_refused() {
    let mut store = ShardedStore::new(4).unwrap();
    assert_eq!(store.commit(1, Some(0), four_keys()), Err(Error::VersionError));
    assert_eq!(store.phase(), CommitPhase::Failed);
    assert_eq!(store.commit(5, None, four_keys()).is_ok(), true);
    assert_eq!(store.commit(6, None, four_keys()), Err(Error::VersionError));
    assert_eq!(store.commit(6, Some(4), four_keys()), Err(Error::VersionError));
    assert_eq!(store.commit(5, Some(5), four_keys()), Err(Error::VersionError));
    assert_eq!(store.commit(3, Some(5), four_keys()), Err(Error::VersionError));
    assert!(store.commit(9, Some(5), four_keys()).is_ok());
    assert_eq!(store.latest_version(), Some(9));
}

#[test]
fn updates_that_are_not_routed_are_refused() {
    let mut store = ShardedStore::new(4).unwrap();
    let misrouted: Updates = vec![vec![(key(1, 1), Some(value(1)))], vec![], vec![], vec![]];
    assert_eq!(store.commit(1, None, misrouted), Err(Error::ShardMismatch));
    assert_eq!(store.phase(), CommitPhase::Failed);
    let too_few: Updates = vec![vec![], vec![], vec![]];
    assert_eq!(store.commit(1, None, too_few), Err(Error::ShardMismatch));
    assert_eq!(store.latest_version(), None);
    assert!(store.commit(1, None, four_keys()).is_ok());
}

#[test]
fn versions_outside_the_committed_range_are_refused() {
    let mut store = ShardedStore::new(2).unwrap();
    let k = key(0, 1);
    assert_eq!(store.get_root_hash(0), Err(Error::VersionError));
    assert_eq!(store.get_with_proof(&k, 0).err(), Some(Error::VersionError));
    let first = store.commit(3, None, vec![vec![(k, Some(value(1)))], vec![]]).unwrap();
    let second = store.commit(7, Some(3), vec![vec![(k, Some(value(2)))], vec![]]).unwrap();
    assert_eq!(store.get_root_hash(2), Err(Error::VersionError));
    assert_eq!(store.get_root_hash(8), Err(Error::VersionError));
    assert_eq!(store.get(&k, 2), Err(Error::VersionError));
    assert_eq!(store.get(&k, 8), Err(Error::VersionError));
    assert_eq!(store.get_root_hash(3), Ok(first));
    assert_eq!(store.get_root_hash(5), Ok(first));
    assert_eq!(store.get_root_hash(6), Ok(first));
    assert_eq!(store.get_root_hash(7), Ok(second));
    assert_eq!(store.get(&k, 6), Ok(value(1)));
    assert_eq!(store.get(&k, 7), Ok(value(2)));
}

#[test]
fn a_store_has_between_one_and_256_shards() {
    assert!(ShardedStore::new(0).is_none());
    assert!(ShardedStore::new(257).is_none());
    assert_eq!(ShardedStore::new(1).unwrap().num_shards(), 1);
    assert_eq!(ShardedStore::new(256).unwrap().num_shards(), 256);
    assert_eq!(ShardedStore::new(16).unwrap().phase(), CommitPhase::Receive);
}

#[test]
fn the_coordinator_walks_through_its_phases() {
    let mut phase = CommitPhase::Committed;
    let expected = [
        CommitPhase::Receive,
        CommitPhase::Merklize,
        CommitPhase::Aggregate,
        CommitPhase::Persist,
        CommitPhase::Advance,
        CommitPhase::Committed,
    ];
    phase = phase.step(CommitEvent::Begin);
    assert_eq!(phase, expected[0]);
    for next in expected[1..].iter() {
        phase = phase.step(CommitEvent::Done);
        assert_eq!(phase, *next);
    }
    assert_eq!(CommitPhase::Persist.step(CommitEvent::Fail), CommitPhase::Failed);
    assert_eq!(CommitPhase::Merklize.step(CommitEvent::Fail), CommitPhase::Failed);
    assert_eq!(CommitPhase::Persist.step(CommitEvent::Begin), CommitPhase::Persist);
    assert_eq!(CommitPhase::Advance.step(CommitEvent::Fail), CommitPhase::Advance);
    assert_eq!(CommitPhase::Failed.step(CommitEvent::Begin), CommitPhase::Receive);
    assert!(CommitPhase::Persist.in_flight());
    assert!(!CommitPhase::Failed.in_flight());
}

#[test]
fn a_store_of_sixteen_shards_proves_many_keys() {
    let n = 16;
    let mut store = ShardedStore::new(n).unwrap();
    let mut updates: Updates = vec![Vec::new(); n];
    let mut keys = Vec::new();
    for i in 0..300u32 {
        let k = HashValue::digest(&i.to_le_bytes().to_vec());
        let shard = (k.bytes[0] as usize) % n;
        updates[shard].push((k, Some(i.to_be_bytes().to_vec())));
        keys.push((k, i.to_be_bytes().to_vec()));
    }
    let root = store.commit(1, None, updates).unwrap();
    for (k, v) in keys.iter() {
        let (found, proof) = store.get_with_proof(k, 1).unwrap();
        assert_eq!(found.as_ref(), Some(v));
        assert!(proof.verify(&root, k, Some(HashValue::digest(v)), n));
        assert_eq!(proof.compute_root(k, n), Some(root));
    }
    let stranger = HashValue::digest(&vec![9, 9, 9, 9, 9]);
    let (none, proof) = store.get_with_proof(&stranger, 1).unwrap();
    assert_eq!(none, None);
    assert!(proof.verify(&root, &stranger, None, n));
    assert_eq!(proof.compute_root(&stranger, 0), None);
    assert_eq!(proof.compute_root(&stranger, 257), None);
    assert_ne!(proof.compute_root(&stranger, 2), Some(root));
    assert!(!proof.verify(&root, &stranger, None, 2));
}

#[test]
fn reads_through_the_cache_give_what_plain_reads_give() {
    let (mut store, _) = store_with_four_keys();
    let mut cache = store.new_cache(3, 1);
    assert_eq!(cache.partition_count(), 5);
    let more: Updates = vec![
        vec![(key(4, 1), Some(value(1))), (key(8, 1), Some(value(2))), (key(12, 1), Some(value(3)))],
        vec![(key(5, 1), Some(value(4)))],
        vec![],
        vec![(key(3, 1), None)],
    ];
    let keys = [key(0, 1), key(4, 1), key(8, 1), key(12, 1), key(1, 1), key(3, 1), key(2, 1), key(77, 7)];
    for round in 0..3 {
        for k in keys.iter() {
            for version in 1..=store.latest_version().unwrap() {
                let plain = store.get_with_proof(k, version).unwrap();
                let cached = store.get_with_proof_cached(&mut cache, k, version).unwrap();
                assert_eq!(plain, cached);
            }
        }
        for shard in 0..4 {
            assert!(cache.len(shard) <= 3);
        }
        assert_eq!(cache.len(4), 0);
        if round == 0 {
            store.commit(2, Some(1), more.clone()).unwrap();
        }
    }
    assert!(cache.len(0) > 0);
    assert_eq!(
        store.get_with_proof_cached(&mut cache, &keys[0], 9).err(),
        Some(Error::VersionError)
    );
}

#[test]
fn pruned_versions_are_refused() {
    let mut store = ShardedStore::new(2).unwrap();
    let k = key(0, 1);
    assert_eq!(store.retain_from(1), Err(Error::VersionError));
    let one = store.commit(1, None, vec![vec![(k, Some(value(1)))], vec![]]).unwrap();
    let four = store.commit(4, Some(1), vec![vec![(k, Some(value(4)))], vec![]]).unwrap();
    let nine = store.commit(9, Some(4), vec![vec![(k, None)], vec![]]).unwrap();
    assert_eq!(store.get_root_hash(2), Ok(one));
    assert_eq!(store.retain_from(10), Err(Error::VersionError));
    assert_eq!(store.retain_from(0), Err(Error::VersionError));
    assert_eq!(store.retain_from(6), Ok(()));
    assert_eq!(store.get_root_hash(1), Err(Error::VersionError));
    assert_eq!(store.get_root_hash(3), Err(Error::VersionError));
    assert_eq!(store.get(&k, 3), Err(Error::VersionError));
    assert_eq!(store.get_with_proof(&k, 2).err(), Some(Error::VersionError));
    assert_eq!(store.get_root_hash(4), Ok(four));
    assert_eq!(store.get_root_hash(6), Ok(four));
    assert_eq!(store.get(&k, 5), Ok(value(4)));
    assert_eq!(store.get_root_hash(9), Ok(nine));
    assert_eq!(store.retain_from(2), Err(Error::VersionError));
    assert_eq!(store.retain_from(9), Ok(()));
    assert_eq!(store.get_root_hash(4), Err(Error::VersionError));
    assert_eq!(store.get(&k, 9), Err(Error::NotFound));
    let ten = store.commit(10, Some(9), vec![vec![(k, Some(value(10)))], vec![]]).unwrap();
    assert_eq!(store.get_root_hash(10), Ok(ten));
    assert_eq!(store.get_root_hash(9), Ok(nine));
    assert_eq!(store.latest_version(), Some(10));
}

#[test]
fn the_last_siblings_of_a_proof_lead_through_the_top_level_tree() {
    let mut store = ShardedStore::new(5).unwrap();
    let updates: Updates = vec![
        vec![(key(0, 1), Some(value(1)))],
        vec![(key(1, 1), Some(value(2)))],
        vec![],
        vec![(key(3, 1), Some(value(3))), (key(8, 1), Some(value(4)))],
        vec![(key(4, 1), Some(value(5)))],
    ];
    let root = store.commit(1, None, updates).unwrap();
    let roots: Vec<HashValue> = (0..5).map(|s| store.shard(s).root_at(0).root_hash).collect();
    assert_eq!(roots[2], HashValue::placeholder());
    for (k, shard) in [(key(0, 1), 0usize), (key(8, 1), 3), (key(4, 1), 4), (key(2, 9), 2)].iter() {
        let (_, proof) = store.get_with_proof(k, 1).unwrap();
        let above = top_proof(&roots, *shard);
        assert_eq!(above.len(), 3);
        assert_eq!(&proof.siblings[proof.siblings.len() - 3..], &above[..]);
        assert_eq!(proof.compute_root(k, 5), Some(root));
    }
    let last = top_proof(&roots, 4);
    assert_eq!(last[0], HashValue::placeholder());
    assert_eq!(last[1], HashValue::placeholder());
    assert_eq!(
        last[2],
        HashValue::of_internal(
            &HashValue::of_internal(&roots[0], &roots[1]),
            &HashValue::of_internal(&roots[2], &roots[3])
        )
    );
}

use sharded_merkle::cache::NodeCache;
use sharded_merkle::codec::{
    decode_node, decode_value, encode_address, encode_node, encode_record_key, encode_value,
};
use sharded_merkle::error::Error;
use sharded_merkle::hash::HashValue;
use sharded_merkle::node::{Node, NodeAddress, NodeRef};
use sharded_merkle::partition::shard_of;
use sharded_merkle::shard::ShardTree;
use sharded_merkle::store::ShardedStore;
use sharded_merkle::value_store::RawValueStore;
use sharded_merkle::workload::{count_nodes, key_for_lookup, route_updates, run_jmt_operations};

fn key(first: u8, rest: u8) -> HashValue {
    let mut bytes = [rest; 32];
    bytes[0] = first;
    HashValue::new(bytes)
}

fn address(shard_id: usize, version: u64, path: &[bool]) -> NodeAddress {
    NodeAddress { shard_id, version, path: path.to_vec() }
}

#[test]
fn the_shard_of_a_key_is_its_first_byte_modulo_the_shard_count() {
    assert_eq!(shard_of(&key(0, 9), 16), 0);
    assert_eq!(shard_of(&key(17, 9), 16), 1);
    assert_eq!(shard_of(&key(255, 9), 16), 15);
    assert_eq!(shard_of(&key(255, 9), 7), 3);
    assert_eq!(shard_of(&key(200, 0), 1), 0);
    assert_eq!(shard_of(&key(200, 0), 256), 200);
}

#[test]
fn the_value_store_sees_the_nearest_earlier_record() {
    let mut store = RawValueStore::new(2);
    let k = key(0, 1);
    let other = key(2, 1);
    store.put(0, 3, &vec![(k, Some(vec![3])), (other, Some(vec![30]))]);
    store.put(0, 5, &vec![(k, None)]);
    store.put(0, 8, &vec![(k, Some(vec![8]))]);
    assert_eq!(store.get(&k, 2), None);
    assert_eq!(store.get(&k, 3), Some(&vec![3]));
    assert_eq!(store.get(&k, 4), Some(&vec![3]));
    assert_eq!(store.get(&k, 5), None);
    assert_eq!(store.get(&k, 7), None);
    assert_eq!(store.get(&k, 8), Some(&vec![8]));
    assert_eq!(store.get(&k, u64::MAX), Some(&vec![8]));
    assert_eq!(store.get(&other, 100), Some(&vec![30]));
    assert_eq!(store.get(&key(1, 1), 100), None);
}

#[test]
fn of_two_records_of_one_version_the_later_is_seen() {
    let mut store = RawValueStore::new(1);
    let k = key(9, 9);
    store.put(0, 1, &vec![(k, Some(vec![1])), (k, Some(vec![2]))]);
    assert_eq!(store.get(&k, 1), Some(&vec![2]));
}

#[test]
fn the_cache_evicts_the_least_recently_used_entry() {
    let mut cache: NodeCache<u32> = NodeCache::new(2, 2, 1);
    assert_eq!(cache.partition_count(), 3);
    let a = address(0, 1, &[]);
    let b = address(0, 1, &[true]);
    let c = address(0, 1, &[false]);
    cache.put(0, a.clone(), 1);
    cache.put(0, b.clone(), 2);
    assert_eq!(cache.get(0, &a), Some(&1));
    cache.put(0, c.clone(), 3);
    assert_eq!(cache.len(0), 2);
    assert_eq!(cache.get(0, &b), None);
    assert_eq!(cache.get(0, &a), Some(&1));
    assert_eq!(cache.get(0, &c), Some(&3));
    cache.put(0, a.clone(), 10);
    assert_eq!(cache.len(0), 2);
    assert_eq!(cache.get(0, &a), Some(&10));
}

#[test]
fn a_hot_partition_does_not_evict_from_a_cold_one() {
    let mut cache: NodeCache<u32> = NodeCache::new(2, 1, 1);
    let cold = address(1, 1, &[true, false]);
    cache.put(1, cold.clone(), 7);
    for v in 0..50u64 {
        cache.put(0, address(0, v, &[]), v as u32);
    }
    cache.put(2, address(2, 1, &[]), 99);
    assert_eq!(cache.len(0), 1);
    assert_eq!(cache.len(1), 1);
    assert_eq!(cache.len(2), 1);
    assert_eq!(cache.get(1, &cold), Some(&7));
    assert_eq!(cache.get(0, &cold), None);
    assert_eq!(cache.get(0, &address(0, 49, &[])), Some(&49));
}

#[test]
fn a_partition_without_capacity_stays_empty() {
    let mut cache: NodeCache<u32> = NodeCache::new(1, 0, 0);
    let a = address(0, 1, &[]);
    cache.put(0, a.clone(), 1);
    assert_eq!(cache.len(0), 0);
    assert_eq!(cache.get(0, &a), None);
}

#[test]
fn addresses_differ_by_shard_version_and_path() {
    let mut cache: NodeCache<u32> = NodeCache::new(1, 8, 1);
    cache.put(0, address(0, 1, &[true]), 1);
    assert_eq!(cache.get(0, &address(0, 2, &[true])), None);
    assert_eq!(cache.get(0, &address(1, 1, &[true])), None);
    assert_eq!(cache.get(0, &address(0, 1, &[false])), None);
    assert_eq!(cache.get(0, &address(0, 1, &[true, true])), None);
    assert_eq!(cache.get(0, &address(0, 1, &[true])), Some(&1));
}

#[test]
fn nodes_round_trip_through_their_encoding() {
    let leaf = Node::Leaf { key: key(1, 2), value_hash: key(3, 4) };
    let bytes = encode_node(&leaf);
    assert_eq!(bytes.len(), 65);
    assert_eq!(bytes[0], 0);
    assert_eq!(&bytes[1..33], &key(1, 2).bytes[..]);
    assert_eq!(decode_node(&bytes), Ok(leaf));
    let branch = Node::Internal {
        left: Some(NodeRef { segment: 258, offset: 3 }),
        right: None,
    };
    let bytes = encode_node(&branch);
    assert_eq!(bytes, vec![1, 1, 2, 1, 0, 0, 0, 0, 0, 0, 3, 0, 0, 0, 0, 0, 0, 0, 0]);
    assert_eq!(decode_node(&bytes), Ok(branch));
    let both = Node::Internal {
        left: Some(NodeRef { segment: 0, offset: 0 }),
        right: Some(NodeRef { segment: 7, offset: usize::MAX }),
    };
    assert_eq!(encode_node(&both).len(), 35);
    assert_eq!(decode_node(&encode_node(&both)), Ok(both));
    let neither = Node::Internal { left: None, right: None };
    assert_eq!(encode_node(&neither), vec![1, 0, 0]);
    assert_eq!(decode_node(&vec![1, 0, 0]), Ok(neither));
}

#[test]
fn bytes_that_encode_no_node_are_corrupt() {
    assert_eq!(decode_node(&vec![]), Err(Error::CorruptNode));
    assert_eq!(decode_node(&vec![2, 0, 0]), Err(Error::CorruptNode));
    assert_eq!(decode_node(&vec![0; 64]), Err(Error::CorruptNode));
    assert_eq!(decode_node(&vec![0; 66]), Err(Error::CorruptNode));
    assert_eq!(decode_node(&vec![1, 0]), Err(Error::CorruptNode));
    assert_eq!(decode_node(&vec![1, 0, 0, 0]), Err(Error::CorruptNode));
    assert_eq!(decode_node(&vec![1, 2, 0]), Err(Error::CorruptNode));
    assert_eq!(decode_node(&vec![1, 1, 0, 0, 0]), Err(Error::CorruptNode));
    assert!(decode_node(&vec![0; 65]).is_ok());
}

#[test]
fn updates_are_routed_to_the_shards_of_their_keys() {
    let updates = vec![
        (key(5, 0), Some(vec![1])),
        (key(0, 0), Some(vec![2])),
        (key(1, 0), None),
        (key(4, 0), Some(vec![3])),
        (key(9, 0), Some(vec![4])),
    ];
    let batches = route_updates(&updates, 4);
    assert_eq!(batches.len(), 4);
    assert_eq!(batches[0], vec![(key(0, 0), Some(vec![2])), (key(4, 0), Some(vec![3]))]);
    assert_eq!(
        batches[1],
        vec![(key(5, 0), Some(vec![1])), (key(1, 0), None), (key(9, 0), Some(vec![4]))]
    );
    assert!(batches[2].is_empty());
    assert!(batches[3].is_empty());
    let mut store = ShardedStore::new(4).unwrap();
    assert!(store.commit(1, None, batches).is_ok());
    assert_eq!(store.get(&key(9, 0), 1), Ok(vec![4]));
    assert_eq!(store.get(&key(1, 0), 1), Err(Error::NotFound));
}

#[test]
fn a_run_of_lookups_counts_what_it_finds() {
    let mut store = ShardedStore::new(4).unwrap();
    assert_eq!(run_jmt_operations(&store, 10, 3), Err(Error::VersionError));
    let updates = vec![
        (key_for_lookup(0), Some(vec![0])),
        (key_for_lookup(2), Some(vec![2])),
        (key_for_lookup(300), Some(vec![44])),
        (key(1, 2), Some(vec![9])),
    ];
    store.commit(1, None, route_updates(&updates, 4)).unwrap();
    assert_eq!(key_for_lookup(300), key_for_lookup(44));
    assert_eq!(key_for_lookup(1), HashValue::digest(&vec![1u8; 32]));
    let counts = run_jmt_operations(&store, 10, 3).unwrap();
    assert_eq!((counts.operations, counts.found, counts.blocks), (10, 2, 4));
    assert_eq!(counts.verified, 10);
    let counts = run_jmt_operations(&store, 45, 45).unwrap();
    assert_eq!((counts.operations, counts.found, counts.blocks), (45, 3, 1));
    let counts = run_jmt_operations(&store, 0, 1).unwrap();
    assert_eq!((counts.operations, counts.found, counts.blocks), (0, 0, 0));
    let counts = run_jmt_operations(&store, 7, 1).unwrap();
    assert_eq!(counts.blocks, 7);
}

#[test]
fn the_nodes_of_a_batch_are_counted_by_kind() {
    let mut store = ShardedStore::new(1).unwrap();
    let updates = vec![vec![
        (key(0, 0), Some(vec![1])),
        (key(128, 0), Some(vec![2])),
        (key(192, 0), Some(vec![3])),
    ]];
    store.begin_commit(1, None, updates).unwrap();
    let counts = count_nodes(&store.pending().as_ref().unwrap().shard_updates[0].batch);
    assert_eq!(counts, (2, 3));
}

#[test]
fn addresses_and_records_have_their_storage_keys() {
    let bytes = encode_address(&address(3, 258, &[true, false, true]));
    assert_eq!(bytes, vec![3, 0, 0, 0, 0, 0, 0, 0, 2, 1, 0, 0, 0, 0, 0, 0, 1, 0, 1]);
    assert_eq!(encode_address(&address(0, 0, &[])).len(), 16);
    assert_ne!(encode_address(&address(1, 2, &[])), encode_address(&address(2, 1, &[])));
    let record = encode_record_key(2, &key(7, 9), 5);
    assert_eq!(record.len(), 48);
    assert_eq!(&record[..8], &[2, 0, 0, 0, 0, 0, 0, 0]);
    assert_eq!(&record[8..40], &key(7, 9).bytes[..]);
    assert_eq!(&record[40..], &[5, 0, 0, 0, 0, 0, 0, 0]);
}

#[test]
fn values_round_trip_through_their_encoding() {
    assert_eq!(encode_value(&None), vec![0]);
    assert_eq!(encode_value(&Some(vec![])), vec![1]);
    assert_eq!(encode_value(&Some(vec![9, 8])), vec![1, 9, 8]);
    assert_eq!(decode_value(&vec![0]), Ok(None));
    assert_eq!(decode_value(&vec![1]), Ok(Some(vec![])));
    assert_eq!(decode_value(&vec![1, 9, 8]), Ok(Some(vec![9, 8])));
    assert_eq!(decode_value(&vec![]), Err(Error::CorruptNode));
    assert_eq!(decode_value(&vec![0, 1]), Err(Error::CorruptNode));
    assert_eq!(decode_value(&vec![2, 1]), Err(Error::CorruptNode));
}

#[test]
fn no_address_is_written_twice_or_in_two_shards() {
    let mut store = ShardedStore::new(4).unwrap();
    let mut seen: Vec<Vec<u8>> = Vec::new();
    let mut base = None;
    for version in 1..=6u64 {
        let mut updates = Vec::new();
        for i in 0..40u32 {
            let k = HashValue::digest(&(i * (version as u32 % 3 + 1)).to_le_bytes().to_vec());
            let value = if (i + version as u32) % 5 == 0 { None } else { Some(vec![version as u8, i as u8]) };
            updates.push((k, value));
        }
        store.begin_commit(version, base, route_updates(&updates, 4)).unwrap();
        {
            let pending = store.pending().as_ref().unwrap();
            for (shard, update) in pending.shard_updates.iter().enumerate() {
                for node in update.batch.iter() {
                    assert_eq!(node.address.shard_id, shard);
                    assert_eq!(node.address.version, version);
                    let encoded = encode_address(&node.address);
                    assert!(!seen.contains(&encoded));
                    seen.push(encoded);
                }
            }
            for node in pending.top_batch.iter() {
                assert_eq!(node.namespace, 4);
                assert_eq!(node.version, version);
            }
        }
        store.complete_commit(true).unwrap();
        base = Some(version);
    }
    assert!(seen.len() > 100);
}

#[test]
fn new_nodes_lie_along_the_updated_paths() {
    let mut shard = ShardTree::new(0, 1);
    let mut updates = Vec::new();
    for i in 0..64u32 {
        updates.push((HashValue::digest(&i.to_le_bytes().to_vec()), Some(key(i as u8, 1))));
    }
    let first = shard.merklize(&updates, None, 1, None).unwrap();
    let total = first.batch.len();
    shard.apply(first);
    let k = HashValue::digest(&7u32.to_le_bytes().to_vec());
    let second = shard.merklize(&vec![(k, Some(key(0, 0)))], Some(1), 2, Some(1)).unwrap();
    assert!(second.batch.len() < total / 4);
    for node in second.batch.iter() {
        let path = &node.address.path;
        for (i, bit) in path.iter().enumerate().take(path.len().saturating_sub(1)) {
            assert_eq!(*bit, k.bit(i));
        }
    }
    assert_eq!(shard.shard_id(), 0);
    assert_eq!(shard.num_shards(), 1);
    assert_eq!(shard.latest(), Some(1));
    assert_eq!(shard.find_version(1), Some(0));
    assert_eq!(shard.find_version(2), None);
}

#[test]
fn every_error_has_its_message() {
    assert_eq!(Error::IoError.message(), "storage failure");
    assert_eq!(Error::CorruptNode.message(), "corrupt node");
    assert_eq!(Error::NotFound.message(), "not found");
    assert_eq!(Error::VersionError.message(), "version out of range");
    assert_eq!(Error::ShardMismatch.message(), "shard mismatch");
}

#[test]
fn every_partition_can_have_its_own_capacity() {
    let mut cache: NodeCache<u32> = NodeCache::with_capacities(&vec![1, 3, 0]);
    assert_eq!(cache.partition_count(), 3);
    for v in 0..5u64 {
        cache.put(0, address(0, v, &[]), v as u32);
        cache.put(1, address(1, v, &[]), v as u32);
        cache.put(2, address(2, v, &[]), v as u32);
    }
    assert_eq!((cache.len(0), cache.len(1), cache.len(2)), (1, 3, 0));
    assert_eq!(cache.get(1, &address(1, 1, &[])), None);
    assert_eq!(cache.get(1, &address(1, 2, &[])), Some(&2));
}

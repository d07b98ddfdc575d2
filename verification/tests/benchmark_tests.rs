use sharded_merkle::hash::HashValue;
use sharded_merkle::store::ShardedStore;
use sharded_merkle::workload::{key_for_lookup, route_updates, run_jmt_operations};

fn store_with_accounts(num_accounts: usize, num_shards: usize) -> ShardedStore {
    let mut store = ShardedStore::new(num_shards).unwrap();
    let updates: Vec<(HashValue, Option<Vec<u8>>)> = (0..num_accounts)
        .map(|i| {
            let key = if i < 256 {
                key_for_lookup(i)
            } else {
                HashValue::digest(&(i as u64).to_le_bytes().to_vec())
            };
            (key, Some(100_000_000_000u64.to_le_bytes().to_vec()))
        })
        .collect();
    store.commit(1, None, route_updates(&updates, num_shards)).unwrap();
    store
}

#[test]
fn test_jmt_sharding_benchmark() {
    // With sharding enabled.
    let sharded = store_with_accounts(1000, 16);
    let counts = run_jmt_operations(&sharded, 10000, 100).unwrap();
    assert_eq!(counts.operations, 10000);
    assert_eq!(counts.found, 10000);
    assert_eq!(counts.verified, 10000);
    assert_eq!(counts.blocks, 100);

    // With sharding disabled, for comparison.
    let single = store_with_accounts(1000, 1);
    let counts = run_jmt_operations(&single, 10000, 100).unwrap();
    assert_eq!(counts.operations, 10000);
    assert_eq!(counts.found, 10000);
    assert_eq!(counts.verified, 10000);
    assert_eq!(counts.blocks, 100);
}

#[test]
fn a_run_against_few_accounts_finds_only_those() {
    let store = store_with_accounts(10, 16);
    let counts = run_jmt_operations(&store, 512, 100).unwrap();
    assert_eq!(counts.found, 20);
    assert_eq!(counts.blocks, 6);
}

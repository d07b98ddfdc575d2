use sharded_merkle::error::Error;
use sharded_merkle::hash::HashValue;
use sharded_merkle::shard::ShardTree;

fn key(first: u8, second: u8) -> HashValue {
    let mut bytes = [0u8; 32];
    bytes[0] = first;
    bytes[1] = second;
    HashValue::new(bytes)
}

fn value_hash(n: u8) -> HashValue {
    HashValue::digest(&vec![n])
}

#[test]
fn a_single_shard_proves_every_key_it_holds() {
    let mut shard = ShardTree::new(0, 1);
    let updates = vec![
        (key(0, 1), Some(value_hash(1))),
        (key(0, 2), Some(value_hash(2))),
        (key(128, 0), Some(value_hash(3))),
        (key(129, 0), Some(value_hash(4))),
    ];
    let update = shard.merklize(&updates, None, 1, None).unwrap();
    let root = update.root_hash;
    shard.apply(update);
    assert_eq!(shard.version_count(), 1);
    assert_eq!(shard.root_hash_at(0), root);
    for (k, v) in updates.iter() {
        let proof = shard.prove(0, k);
        assert!(proof.verify(&root, k, *v, 1));
        assert!(!proof.verify(&root, k, None, 1));
        assert!(!proof.verify(&root, k, Some(value_hash(9)), 1));
    }
    let absent = key(64, 0);
    let proof = shard.prove(0, &absent);
    assert!(proof.verify(&root, &absent, None, 1));
    assert!(!proof.verify(&root, &absent, Some(value_hash(1)), 1));
}

#[test]
fn the_root_does_not_depend_on_the_order_of_the_updates() {
    let a = (key(1, 0), Some(value_hash(1)));
    let b = (key(2, 0), Some(value_hash(2)));
    let c = (key(2, 1), Some(value_hash(3)));
    let d = (key(255, 255), Some(value_hash(4)));
    let shard = ShardTree::new(0, 1);
    let one = shard.merklize(&vec![a, b, c, d], None, 1, None).unwrap();
    let two = shard.merklize(&vec![d, c, b, a], None, 1, None).unwrap();
    let three = shard.merklize(&vec![c, a, d, b], None, 1, None).unwrap();
    assert_eq!(one.root_hash, two.root_hash);
    assert_eq!(one.root_hash, three.root_hash);
    assert_ne!(one.root_hash, HashValue::placeholder());
}

#[test]
fn building_in_two_versions_gives_the_root_of_building_at_once() {
    let a = (key(1, 0), Some(value_hash(1)));
    let b = (key(2, 0), Some(value_hash(2)));
    let c = (key(2, 1), Some(value_hash(3)));
    let mut stepwise = ShardTree::new(0, 1);
    let first = stepwise.merklize(&vec![a, b], None, 1, None).unwrap();
    stepwise.apply(first);
    let second = stepwise.merklize(&vec![c], Some(1), 2, Some(1)).unwrap();
    let at_once = ShardTree::new(0, 1).merklize(&vec![a, b, c], None, 1, None).unwrap();
    assert_eq!(second.root_hash, at_once.root_hash);
}

#[test]
fn a_deletion_gives_back_the_earlier_root() {
    let a = (key(1, 0), Some(value_hash(1)));
    let b = (key(1, 1), Some(value_hash(2)));
    let mut shard = ShardTree::new(0, 1);
    let first = shard.merklize(&vec![a], None, 1, None).unwrap();
    let root_one = first.root_hash;
    shard.apply(first);
    let second = shard.merklize(&vec![b], Some(1), 2, Some(1)).unwrap();
    let root_two = second.root_hash;
    shard.apply(second);
    let third = shard.merklize(&vec![(key(1, 1), None)], Some(2), 3, Some(2)).unwrap();
    assert_ne!(root_one, root_two);
    assert_eq!(third.root_hash, root_one);
    shard.apply(third);
    let emptied = shard.merklize(&vec![(key(1, 0), None)], Some(3), 4, Some(3)).unwrap();
    assert_eq!(emptied.root_hash, HashValue::placeholder());
    assert_eq!(emptied.root, None);
}

#[test]
fn a_single_leaf_tree_has_the_hash_of_its_leaf() {
    let k = key(7, 7);
    let v = value_hash(7);
    let update = ShardTree::new(0, 1).merklize(&vec![(k, Some(v))], None, 1, None).unwrap();
    assert_eq!(update.root_hash, HashValue::of_leaf(&k, &v));
    assert_eq!(update.batch.len(), 1);
    assert_eq!(update.batch[0].address.path.len(), 0);
    assert_eq!(update.batch[0].address.version, 1);
}

#[test]
fn two_keys_that_differ_in_the_first_bit_hang_below_one_branch() {
    let left = key(0, 0);
    let right = key(128, 0);
    let update = ShardTree::new(0, 1)
        .merklize(&vec![(left, Some(value_hash(1))), (right, Some(value_hash(2)))], None, 5, None)
        .unwrap();
    let expected = HashValue::of_internal(
        &HashValue::of_leaf(&left, &value_hash(1)),
        &HashValue::of_leaf(&right, &value_hash(2)),
    );
    assert_eq!(update.root_hash, expected);
    assert_eq!(update.batch.len(), 3);
}

#[test]
fn the_later_of_two_updates_of_one_key_decides() {
    let k = key(3, 3);
    let shard = ShardTree::new(0, 1);
    let twice =
        shard.merklize(&vec![(k, Some(value_hash(1))), (k, Some(value_hash(2)))], None, 1, None).unwrap();
    let once = shard.merklize(&vec![(k, Some(value_hash(2)))], None, 1, None).unwrap();
    assert_eq!(twice.root_hash, once.root_hash);
    let gone = shard.merklize(&vec![(k, Some(value_hash(1))), (k, None)], None, 1, None).unwrap();
    assert_eq!(gone.root_hash, HashValue::placeholder());
}

#[test]
fn a_key_of_another_shard_is_refused() {
    let shard = ShardTree::new(1, 4);
    let res = shard.merklize(&vec![(key(1, 0), Some(value_hash(1))), (key(2, 0), Some(value_hash(2)))], None, 1, None);
    assert_eq!(res.err(), Some(Error::ShardMismatch));
    let ok = shard.merklize(&vec![(key(1, 0), Some(value_hash(1))), (key(5, 0), Some(value_hash(2)))], None, 1, None);
    assert!(ok.is_ok());
}

#[test]
fn versions_that_do_not_fit_are_refused() {
    let mut shard = ShardTree::new(0, 1);
    let updates = vec![(key(1, 0), Some(value_hash(1)))];
    assert_eq!(shard.merklize(&updates, None, 1, Some(0)).err(), Some(Error::VersionError));
    assert_eq!(shard.merklize(&updates, Some(0), 1, None).err(), Some(Error::VersionError));
    let first = shard.merklize(&updates, None, 3, None).unwrap();
    shard.apply(first);
    assert_eq!(shard.merklize(&updates, Some(3), 4, None).err(), Some(Error::VersionError));
    assert_eq!(shard.merklize(&updates, Some(2), 4, Some(3)).err(), Some(Error::VersionError));
    assert_eq!(shard.merklize(&updates, Some(3), 3, Some(3)).err(), Some(Error::VersionError));
    assert_eq!(shard.merklize(&updates, Some(3), 2, Some(3)).err(), Some(Error::VersionError));
    assert!(shard.merklize(&updates, Some(3), 4, Some(3)).is_ok());
}

#[test]
fn a_merge_without_updates_writes_nothing() {
    let mut shard = ShardTree::new(0, 1);
    let first = shard.merklize(&vec![(key(1, 0), Some(value_hash(1)))], None, 1, None).unwrap();
    let root = first.root;
    let hash = first.root_hash;
    shard.apply(first);
    let second = shard.merklize(&vec![], Some(1), 2, Some(1)).unwrap();
    assert_eq!(second.batch.len(), 0);
    assert_eq!(second.root, root);
    assert_eq!(second.root_hash, hash);
}

#[test]
fn many_keys_round_trip_through_proofs() {
    let mut shard = ShardTree::new(0, 1);
    let mut updates = Vec::new();
    for i in 0..200u32 {
        let k = HashValue::digest(&i.to_le_bytes().to_vec());
        updates.push((k, Some(HashValue::digest(&vec![(i % 251) as u8, 1]))));
    }
    let update = shard.merklize(&updates, None, 1, None).unwrap();
    let root = update.root_hash;
    shard.apply(update);
    for (k, v) in updates.iter() {
        assert!(shard.prove(0, k).verify(&root, k, *v, 1));
    }
    for i in 200..260u32 {
        let k = HashValue::digest(&i.to_le_bytes().to_vec());
        assert!(shard.prove(0, &k).verify(&root, &k, None, 1));
    }
}

use sharded_merkle::hash::HashValue;

fn hex(h: &HashValue) -> String {
    let mut s = String::new();
    for b in h.bytes.iter() {
        s.push_str(&format!("{:02x}", b));
    }
    s
}

#[test]
fn digest_of_empty_input_is_the_sha3_256_test_vector() {
    let h = HashValue::digest(&Vec::new());
    assert_eq!(hex(&h), "a7ffc6f8bf1ed76651c14756a061d662f580ff4de43b49fa82d80a4b80f8434a");
}

#[test]
fn digest_of_hello_world_matches_the_published_value() {
    let h = HashValue::digest(&b"hello world".to_vec());
    assert_eq!(hex(&h), "644bcc7e564373040999aac89e7622f3ca71fba1d972fd94a31c3bfbf24e3938");
}

#[test]
fn bits_are_counted_from_the_most_significant_bit() {
    let mut bytes = [0u8; 32];
    bytes[0] = 0b1010_0000;
    bytes[31] = 0b0000_0001;
    let h = HashValue::new(bytes);
    assert!(h.bit(0));
    assert!(!h.bit(1));
    assert!(h.bit(2));
    assert!(!h.bit(3));
    assert!(!h.bit(254));
    assert!(h.bit(255));
}

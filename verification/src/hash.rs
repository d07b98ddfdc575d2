//! Hash values, the hash function, and the two node encodings.

use vstd::prelude::*;

verus! {

/// Number of bytes in a hash value.
pub const HASH_LENGTH: usize = 32;

/// Number of bits in a key, which bounds the depth of every shard tree.
pub const KEY_BITS: usize = 256;

/// The SHA3-256 digest (FIPS 202) of a byte string.
///
/// The digest is computed by the `tiny_keccak` crate; nothing is known of it
/// here beyond its being a function of the input bytes.
pub uninterp spec fn sha3_256(data: Seq<u8>) -> Seq<u8>;

/// Runs `tiny_keccak::Sha3::v256()` over `data` (`Hasher::update` followed by
/// `Hasher::finalize` into a 32-byte buffer). The contract only names the
/// digest: it is the SHA3-256 of exactly the bytes of `data`.
#[verifier::external_body]
fn sha3_256_digest(data: &Vec<u8>) -> (out: [u8; 32])
    ensures
        out@ == sha3_256(data@),
{
    let mut hasher = tiny_keccak::Sha3::v256();
    let mut out = [0u8; 32];
    tiny_keccak::Hasher::update(&mut hasher, data.as_slice());
    tiny_keccak::Hasher::finalize(hasher, &mut out);
    out
}

/// A 32-byte value: the hash of a key, of a value, or of a tree node.
#[derive(Clone, Copy, Debug, PartialEq, Eq, Hash)]
pub struct HashValue {
    pub bytes: [u8; 32],
}

impl View for HashValue {
    type V = Seq<u8>;

    open spec fn view(&self) -> Seq<u8> {
        self.bytes@
    }
}

/// Bit `i` of a key, counting from the most significant bit of the first byte.
pub open spec fn key_bit(key: Seq<u8>, i: int) -> bool {
    byte_bit(key[i / 8], i % 8)
}

/// Bit `j` of a byte, counting from its most significant bit.
pub open spec fn byte_bit(byte: u8, j: int) -> bool {
    (byte >> ((7 - j) as u8)) & 1u8 == 1u8
}

/// The first `depth` bits of a key.
pub open spec fn key_prefix(key: Seq<u8>, depth: nat) -> Seq<bool> {
    Seq::new(depth, |i: int| key_bit(key, i))
}

/// Whether the leading bits of `key` are exactly `path`.
pub open spec fn has_prefix(key: Seq<u8>, path: Seq<bool>) -> bool {
    &&& path.len() <= KEY_BITS
    &&& forall|i: int| 0 <= i < path.len() ==> key_bit(key, i) == path[i]
}

/// The hash that stands for an empty subtree.
pub open spec fn placeholder_hash() -> Seq<u8> {
    Seq::new(HASH_LENGTH as nat, |i: int| 0u8)
}

/// The bytes hashed for a leaf: the tag `0`, the key, the value hash.
pub open spec fn leaf_preimage(key: Seq<u8>, value_hash: Seq<u8>) -> Seq<u8> {
    seq![0u8] + key + value_hash
}

/// The bytes hashed for an internal node: the tag `1`, the left child's hash,
/// the right child's hash.
pub open spec fn internal_preimage(left: Seq<u8>, right: Seq<u8>) -> Seq<u8> {
    seq![1u8] + left + right
}

/// The hash of a leaf that binds `key` to `value_hash`.
pub open spec fn leaf_hash(key: Seq<u8>, value_hash: Seq<u8>) -> Seq<u8> {
    sha3_256(leaf_preimage(key, value_hash))
}

/// The hash of an internal node over the hashes of its two children.
pub open spec fn internal_hash(left: Seq<u8>, right: Seq<u8>) -> Seq<u8> {
    sha3_256(internal_preimage(left, right))
}

/// The two encodings never collide: a leaf's bytes start with another tag than
/// an internal node's.
pub proof fn lemma_encodings_distinct(
    key: Seq<u8>,
    value_hash: Seq<u8>,
    left: Seq<u8>,
    right: Seq<u8>,
)
    ensures
        leaf_preimage(key, value_hash) != internal_preimage(left, right),
{
    assert(leaf_preimage(key, value_hash)[0] == 0u8);
    assert(internal_preimage(left, right)[0] == 1u8);
}

/// The leaf encoding is unambiguous: equal bytes come from equal keys and
/// equal value hashes.
pub proof fn lemma_leaf_encoding_injective(k1: Seq<u8>, v1: Seq<u8>, k2: Seq<u8>, v2: Seq<u8>)
    requires
        k1.len() == HASH_LENGTH,
        k2.len() == HASH_LENGTH,
        leaf_preimage(k1, v1) == leaf_preimage(k2, v2),
    ensures
        k1 == k2,
        v1 == v2,
{
    let a = leaf_preimage(k1, v1);
    let b = leaf_preimage(k2, v2);
    assert(a.len() == 1 + k1.len() + v1.len());
    assert(b.len() == 1 + k2.len() + v2.len());
    assert(k1 =~= a.subrange(1, 33));
    assert(k2 =~= b.subrange(1, 33));
    assert(v1 =~= a.subrange(33, a.len() as int));
    assert(v2 =~= b.subrange(33, b.len() as int));
}

/// The internal encoding is unambiguous: equal bytes come from equal pairs of
/// child hashes.
pub proof fn lemma_internal_encoding_injective(l1: Seq<u8>, r1: Seq<u8>, l2: Seq<u8>, r2: Seq<u8>)
    requires
        l1.len() == HASH_LENGTH,
        l2.len() == HASH_LENGTH,
        internal_preimage(l1, r1) == internal_preimage(l2, r2),
    ensures
        l1 == l2,
        r1 == r2,
{
    let a = internal_preimage(l1, r1);
    let b = internal_preimage(l2, r2);
    assert(a.len() == 1 + l1.len() + r1.len());
    assert(b.len() == 1 + l2.len() + r2.len());
    assert(l1 =~= a.subrange(1, 33));
    assert(l2 =~= b.subrange(1, 33));
    assert(r1 =~= a.subrange(33, a.len() as int));
    assert(r2 =~= b.subrange(33, b.len() as int));
}

/// Two bytes that agree on each of their eight bits are equal.
proof fn lemma_byte_from_bits(a: u8, b: u8)
    requires
        forall|j: int| 0 <= j < 8 ==> byte_bit(a, j) == byte_bit(b, j),
    ensures
        a == b,
{
    assert(byte_bit(a, 0) == byte_bit(b, 0));
    assert(byte_bit(a, 1) == byte_bit(b, 1));
    assert(byte_bit(a, 2) == byte_bit(b, 2));
    assert(byte_bit(a, 3) == byte_bit(b, 3));
    assert(byte_bit(a, 4) == byte_bit(b, 4));
    assert(byte_bit(a, 5) == byte_bit(b, 5));
    assert(byte_bit(a, 6) == byte_bit(b, 6));
    assert(byte_bit(a, 7) == byte_bit(b, 7));
    assert(a == b) by (bit_vector)
        requires
            ((a >> 7u8) & 1u8 == 1u8) == ((b >> 7u8) & 1u8 == 1u8),
            ((a >> 6u8) & 1u8 == 1u8) == ((b >> 6u8) & 1u8 == 1u8),
            ((a >> 5u8) & 1u8 == 1u8) == ((b >> 5u8) & 1u8 == 1u8),
            ((a >> 4u8) & 1u8 == 1u8) == ((b >> 4u8) & 1u8 == 1u8),
            ((a >> 3u8) & 1u8 == 1u8) == ((b >> 3u8) & 1u8 == 1u8),
            ((a >> 2u8) & 1u8 == 1u8) == ((b >> 2u8) & 1u8 == 1u8),
            ((a >> 1u8) & 1u8 == 1u8) == ((b >> 1u8) & 1u8 == 1u8),
            ((a >> 0u8) & 1u8 == 1u8) == ((b >> 0u8) & 1u8 == 1u8),
    ;
}

/// A key is determined by its 256 bits.
pub proof fn lemma_key_from_bits(k1: Seq<u8>, k2: Seq<u8>)
    requires
        k1.len() == HASH_LENGTH,
        k2.len() == HASH_LENGTH,
        forall|i: int| 0 <= i < KEY_BITS ==> key_bit(k1, i) == key_bit(k2, i),
    ensures
        k1 == k2,
{
    assert forall|b: int| 0 <= b < 32 implies k1[b] == k2[b] by {
        assert forall|j: int| 0 <= j < 8 implies byte_bit(k1[b], j) == byte_bit(k2[b], j) by {
            let i = 8 * b + j;
            assert(i / 8 == b && i % 8 == j);
            assert(key_bit(k1, i) == key_bit(k2, i));
        }
        lemma_byte_from_bits(k1[b], k2[b]);
    }
    assert(k1 =~= k2);
}

/// Two keys that lie under one path of full length are the same key.
pub proof fn lemma_full_path_one_key(k1: Seq<u8>, k2: Seq<u8>, path: Seq<bool>)
    requires
        k1.len() == HASH_LENGTH,
        k2.len() == HASH_LENGTH,
        path.len() == KEY_BITS,
        has_prefix(k1, path),
        has_prefix(k2, path),
    ensures
        k1 == k2,
{
    lemma_key_from_bits(k1, k2);
}

/// A hash value has 32 bytes.
pub broadcast proof fn lemma_hash_length(h: HashValue)
    ensures
        #[trigger] h@.len() == HASH_LENGTH,
{
    broadcast use vstd::array::group_array_axioms;

    assert(h.bytes@.len() == 32);
}

impl HashValue {
    /// The hash value made of the given bytes.
    pub fn new(bytes: [u8; 32]) -> (h: HashValue)
        ensures
            h@ == bytes@,
    {
        HashValue { bytes }
    }

    /// The hash that stands for an empty subtree: 32 zero bytes.
    pub fn placeholder() -> (h: HashValue)
        ensures
            h@ == placeholder_hash(),
    {
        let h = HashValue { bytes: [0u8; 32] };
        assert(h@ =~= placeholder_hash());
        h
    }

    /// The SHA3-256 digest of `data`.
    pub fn digest(data: &Vec<u8>) -> (h: HashValue)
        ensures
            h@ == sha3_256(data@),
    {
        HashValue { bytes: sha3_256_digest(data) }
    }

    /// Whether two hash values hold the same bytes.
    pub fn equals(&self, other: &HashValue) -> (same: bool)
        ensures
            same == (self@ == other@),
            same == (*self == *other),
    {
        let mut i: usize = 0;
        while i < 32
            invariant
                i <= 32,
                forall|j: int| 0 <= j < i ==> self.bytes@[j] == other.bytes@[j],
            decreases 32 - i,
        {
            if self.bytes[i] != other.bytes[i] {
                return false;
            }
            i += 1;
        }
        assert(self.bytes@ =~= other.bytes@);
        assert(self.bytes =~= other.bytes);
        true
    }

    /// Bit `i` of the value, counting from the most significant bit of the
    /// first byte.
    pub fn bit(&self, i: usize) -> (b: bool)
        requires
            i < KEY_BITS,
        ensures
            b == key_bit(self@, i as int),
    {
        let byte: u8 = self.bytes[i / 8];
        let shift: u8 = (7 - i % 8) as u8;
        (byte >> shift) & 1u8 == 1u8
    }

    /// The hash of a leaf that binds `key` to `value_hash`.
    pub fn of_leaf(key: &HashValue, value_hash: &HashValue) -> (h: HashValue)
        ensures
            h@ == leaf_hash(key@, value_hash@),
    {
        let mut buf: Vec<u8> = Vec::new();
        buf.push(0u8);
        append_hash(&mut buf, key);
        append_hash(&mut buf, value_hash);
        assert(buf@ =~= leaf_preimage(key@, value_hash@));
        HashValue::digest(&buf)
    }

    /// The hash of an internal node over the hashes of its two children.
    pub fn of_internal(left: &HashValue, right: &HashValue) -> (h: HashValue)
        ensures
            h@ == internal_hash(left@, right@),
    {
        let mut buf: Vec<u8> = Vec::new();
        buf.push(1u8);
        append_hash(&mut buf, left);
        append_hash(&mut buf, right);
        assert(buf@ =~= internal_preimage(left@, right@));
        HashValue::digest(&buf)
    }
}

/// Appends the 32 bytes of `h` to `buf`.
pub fn append_hash(buf: &mut Vec<u8>, h: &HashValue)
    ensures
        final(buf)@ == old(buf)@ + h@,
{
    let ghost start = buf@;
    let mut i: usize = 0;
    while i < 32
        invariant
            i <= 32,
            buf@ == start + h@.subrange(0, i as int),
        decreases 32 - i,
    {
        buf.push(h.bytes[i]);
        assert(buf@ =~= start + h@.subrange(0, i + 1));
        i += 1;
    }
    assert(h@.subrange(0, 32) =~= h@);
}

} // verus!

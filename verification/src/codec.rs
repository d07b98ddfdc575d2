//! How nodes and value records are laid out in durable storage.
//!
//! A node is stored under its address: the shard id and the version, each as
//! eight bytes, lowest first, and one byte for each step of the path. A leaf
//! is the tag `0`, its key and its value hash. A branch is the tag `1` and its
//! two children; a child is the byte `0` where it is absent, and otherwise
//! the byte `1`, the segment and the offset of the node, each as eight bytes.
//! No encoding of a node is the beginning of another, so bytes decode to one
//! node at most.
//!
//! A value record is stored under the shard id, the key and the version; it
//! is the byte `0` for a deletion and the byte `1` followed by the value
//! otherwise.

use vstd::prelude::*;
use vstd::bytes::{
    lemma_auto_spec_u64_to_from_le_bytes, spec_u64_from_le_bytes, spec_u64_to_le_bytes,
    u64_from_le_bytes, u64_to_le_bytes,
};
use vstd::slice::slice_subrange;
use crate::error::Error;
use crate::hash::{append_hash, lemma_hash_length, HashValue};
use crate::node::{AddressView, Node, NodeAddress, NodeRef};

verus! {

/// The bytes of a child reference.
pub open spec fn encoded_child(child: Option<NodeRef>) -> Seq<u8> {
    match child {
        None => seq![0u8],
        Some(r) => seq![1u8] + spec_u64_to_le_bytes(r.segment as u64) + spec_u64_to_le_bytes(
            r.offset as u64,
        ),
    }
}

/// The bytes of a node.
pub open spec fn encoded_node(node: Node) -> Seq<u8> {
    match node {
        Node::Leaf { key, value_hash } => seq![0u8] + key@ + value_hash@,
        Node::Internal { left, right } => seq![1u8] + encoded_child(left) + encoded_child(right),
    }
}

/// Whether `bytes` begin with `prefix`.
pub open spec fn starts_with(bytes: Seq<u8>, prefix: Seq<u8>) -> bool {
    prefix.len() <= bytes.len() && bytes.subrange(0, prefix.len() as int) == prefix
}

/// The length of the bytes of a child reference.
pub proof fn lemma_child_length(child: Option<NodeRef>)
    ensures
        encoded_child(child).len() == (if child is Some {
            17nat
        } else {
            1nat
        }),
        encoded_child(child)[0] == (if child is Some {
            1u8
        } else {
            0u8
        }),
{
    lemma_auto_spec_u64_to_from_le_bytes();
}

/// Two child references whose bytes begin the same byte string are the same
/// reference.
pub proof fn lemma_child_prefix_free(a: Option<NodeRef>, b: Option<NodeRef>, bytes: Seq<u8>)
    requires
        starts_with(bytes, encoded_child(a)),
        starts_with(bytes, encoded_child(b)),
    ensures
        a == b,
{
    lemma_auto_spec_u64_to_from_le_bytes();
    lemma_child_length(a);
    lemma_child_length(b);
    let ea = encoded_child(a);
    let eb = encoded_child(b);
    assert(bytes.subrange(0, ea.len() as int)[0] == bytes[0]);
    assert(bytes.subrange(0, eb.len() as int)[0] == bytes[0]);
    if let Some(ra) = a {
        let rb = b->0;
        assert(ea =~= eb);
        let sa = spec_u64_to_le_bytes(ra.segment as u64);
        let sb = spec_u64_to_le_bytes(rb.segment as u64);
        let oa = spec_u64_to_le_bytes(ra.offset as u64);
        let ob = spec_u64_to_le_bytes(rb.offset as u64);
        assert(sa =~= ea.subrange(1, 9));
        assert(sb =~= eb.subrange(1, 9));
        assert(oa =~= ea.subrange(9, 17));
        assert(ob =~= eb.subrange(9, 17));
        assert(spec_u64_from_le_bytes(sa) == ra.segment as u64);
        assert(spec_u64_from_le_bytes(sb) == rb.segment as u64);
        assert(spec_u64_from_le_bytes(oa) == ra.offset as u64);
        assert(spec_u64_from_le_bytes(ob) == rb.offset as u64);
    }
}

/// Appends the bytes of a child reference to `buf`.
fn append_child(buf: &mut Vec<u8>, child: Option<NodeRef>)
    ensures
        final(buf)@ == old(buf)@ + encoded_child(child),
{
    let ghost start = buf@;
    match child {
        None => {
            buf.push(0u8);
            proof {
                assert(buf@ =~= start + encoded_child(child));
            }
        },
        Some(r) => {
            buf.push(1u8);
            let mut segment = u64_to_le_bytes(r.segment as u64);
            let mut offset = u64_to_le_bytes(r.offset as u64);
            let ghost seg = segment@;
            let ghost off = offset@;
            buf.append(&mut segment);
            buf.append(&mut offset);
            proof {
                assert(buf@ =~= start + encoded_child(child));
            }
        },
    }
}

/// The bytes of a node, as they are persisted under the node's address.
pub fn encode_node(node: &Node) -> (bytes: Vec<u8>)
    ensures
        bytes@ == encoded_node(*node),
{
    let mut bytes: Vec<u8> = Vec::new();
    match node {
        Node::Leaf { key, value_hash } => {
            bytes.push(0u8);
            append_hash(&mut bytes, key);
            append_hash(&mut bytes, value_hash);
            proof {
                assert(bytes@ =~= encoded_node(*node));
            }
        },
        Node::Internal { left, right } => {
            bytes.push(1u8);
            append_child(&mut bytes, *left);
            append_child(&mut bytes, *right);
            proof {
                assert(bytes@ =~= encoded_node(*node));
            }
        },
    }
    bytes
}

/// The 32 bytes of `bytes` from index `at` on, as a hash value.
fn read_hash(bytes: &Vec<u8>, at: usize) -> (hash: HashValue)
    requires
        at + 32 <= bytes.len(),
    ensures
        hash@ == bytes@.subrange(at as int, at + 32),
{
    let mut out: [u8; 32] = [0u8; 32];
    let mut i: usize = 0;
    while i < 32
        invariant
            i <= 32,
            at + 32 <= bytes.len(),
            forall|j: int| 0 <= j < i ==> out@[j] == bytes@[at + j],
        decreases 32 - i,
    {
        out[i] = bytes[at + i];
        i += 1;
    }
    let hash = HashValue::new(out);
    proof {
        assert(hash@ =~= bytes@.subrange(at as int, at + 32));
    }
    hash
}

/// The child reference whose bytes begin at index `at`, with the index at
/// which they end; `None` where no child reference begins there.
#[verifier::rlimit(30)]
fn read_child(bytes: &Vec<u8>, at: usize) -> (res: Option<(Option<NodeRef>, usize)>)
    requires
        at <= bytes.len(),
    ensures
        res matches Some(found) ==> {
            &&& at <= found.1 <= bytes.len()
            &&& bytes@.subrange(at as int, found.1 as int) == encoded_child(found.0)
        },
        res is None ==> forall|c: Option<NodeRef>| !starts_with(bytes@.skip(at as int), encoded_child(c)),
{
    let ghost rest = bytes@.skip(at as int);
    proof {
        lemma_auto_spec_u64_to_from_le_bytes();
        assert forall|c: Option<NodeRef>| starts_with(rest, encoded_child(c)) implies rest.len() >= 1
            && rest[0] == encoded_child(c)[0] by {
            lemma_child_length(c);
            assert(rest.subrange(0, encoded_child(c).len() as int)[0] == rest[0]);
        }
    }
    if at >= bytes.len() {
        return None;
    }
    let tag = bytes[at];
    proof {
        assert(rest[0] == tag);
    }
    if tag == 0u8 {
        proof {
            assert(bytes@.subrange(at as int, at + 1) =~= encoded_child(None));
        }
        return Some((None, at + 1));
    }
    if tag != 1u8 {
        proof {
            assert forall|c: Option<NodeRef>| !starts_with(rest, encoded_child(c)) by {
                lemma_child_length(c);
            }
        }
        return None;
    }
    if bytes.len() - at < 17 {
        proof {
            assert forall|c: Option<NodeRef>| !starts_with(rest, encoded_child(c)) by {
                lemma_child_length(c);
            }
        }
        return None;
    }
    let segment = u64_from_le_bytes(slice_subrange(bytes.as_slice(), at + 1, at + 9));
    let offset = u64_from_le_bytes(slice_subrange(bytes.as_slice(), at + 9, at + 17));
    let ghost seg_bytes = bytes@.subrange(at + 1, at + 9);
    let ghost off_bytes = bytes@.subrange(at + 9, at + 17);
    if segment > usize::MAX as u64 || offset > usize::MAX as u64 {
        proof {
            assert forall|c: Option<NodeRef>| !starts_with(rest, encoded_child(c)) by {
                lemma_child_length(c);
                if starts_with(rest, encoded_child(c)) {
                    let r = c->0;
                    let e = encoded_child(c);
                    assert(e =~= rest.subrange(0, 17));
                    assert(spec_u64_to_le_bytes(r.segment as u64) =~= e.subrange(1, 9));
                    assert(spec_u64_to_le_bytes(r.offset as u64) =~= e.subrange(9, 17));
                    assert(e.subrange(1, 9) =~= seg_bytes);
                    assert(e.subrange(9, 17) =~= off_bytes);
                    assert(spec_u64_from_le_bytes(seg_bytes) == r.segment as u64);
                    assert(spec_u64_from_le_bytes(off_bytes) == r.offset as u64);
                }
            }
        }
        return None;
    }
    let child = NodeRef { segment: segment as usize, offset: offset as usize };
    proof {
        assert(spec_u64_to_le_bytes(segment) == seg_bytes);
        assert(spec_u64_to_le_bytes(offset) == off_bytes);
        assert(bytes@.subrange(at as int, at + 17) =~= encoded_child(Some(child)));
    }
    Some((Some(child), at + 17))
}

/// The node that `bytes` are the encoding of. Bytes that are the encoding of
/// no node are refused as corrupt.
pub fn decode_node(bytes: &Vec<u8>) -> (res: Result<Node, Error>)
    ensures
        res matches Ok(node) ==> encoded_node(node) == bytes@,
        res matches Ok(node) ==> forall|other: Node|
            encoded_node(other) == bytes@ ==> other == node,
        res matches Err(e) ==> e == Error::CorruptNode && forall|node: Node|
            encoded_node(node) != bytes@,
{
    let res = parse_node(bytes);
    proof {
        if let Ok(node) = res {
            assert forall|other: Node| encoded_node(other) == bytes@ implies other == node by {
                lemma_encoding_injective(other, node);
            }
        }
    }
    res
}

/// The node that `bytes` are the encoding of, if they are the encoding of
/// one.
#[verifier::rlimit(30)]
fn parse_node(bytes: &Vec<u8>) -> (res: Result<Node, Error>)
    ensures
        res matches Ok(node) ==> encoded_node(node) == bytes@,
        res matches Err(e) ==> e == Error::CorruptNode && forall|node: Node|
            encoded_node(node) != bytes@,
{
    proof {
        assert forall|node: Node| encoded_node(node) == bytes@ implies bytes.len() >= 1 && bytes@[0]
            == (if node is Leaf {
            0u8
        } else {
            1u8
        }) by {}
    }
    if bytes.len() == 0 {
        return Err(Error::CorruptNode);
    }
    let tag = bytes[0];
    if tag == 0u8 {
        if bytes.len() != 65 {
            proof {
                assert forall|node: Node| encoded_node(node) != bytes@ by {
                    if let Node::Leaf { key, value_hash } = node {
                        lemma_hash_length(key);
                        lemma_hash_length(value_hash);
                    }
                }
            }
            return Err(Error::CorruptNode);
        }
        let key = read_hash(bytes, 1);
        let value_hash = read_hash(bytes, 33);
        let node = Node::Leaf { key, value_hash };
        proof {
            assert(encoded_node(node) =~= bytes@);
        }
        return Ok(node);
    }
    if tag != 1u8 {
        return Err(Error::CorruptNode);
    }
    let ghost after_tag = bytes@.skip(1);
    let (left, mid) = match read_child(bytes, 1) {
        Some(found) => found,
        None => {
            proof {
                assert forall|node: Node| encoded_node(node) != bytes@ by {
                    if let Node::Internal { left, right } = node {
                        if encoded_node(node) == bytes@ {
                            assert(after_tag.subrange(0, encoded_child(left).len() as int)
                                =~= encoded_child(left));
                            assert(starts_with(after_tag, encoded_child(left)));
                        }
                    }
                }
            }
            return Err(Error::CorruptNode);
        },
    };
    proof {
        assert(after_tag.subrange(0, mid - 1) =~= bytes@.subrange(1, mid as int));
        assert(starts_with(after_tag, encoded_child(left)));
    }
    let ghost after_left = bytes@.skip(mid as int);
    let found_right = read_child(bytes, mid);
    proof {
        // Whatever node the bytes encode has `left` as its left child, and
        // the bytes of its right child are all that follows.
        assert forall|node: Node| encoded_node(node) == bytes@ implies node is Internal
            && node->left == left && after_left == encoded_child(node->right) by {
            let l = node->left;
            let r = node->right;
            assert(after_tag.subrange(0, encoded_child(l).len() as int) =~= encoded_child(l));
            assert(starts_with(after_tag, encoded_child(l)));
            lemma_child_prefix_free(l, left, after_tag);
            assert(after_left =~= encoded_child(r));
        }
    }
    let (right, end) = match found_right {
        Some(found) => found,
        None => {
            proof {
                assert forall|node: Node| encoded_node(node) != bytes@ by {
                    if encoded_node(node) == bytes@ {
                        let r = node->right;
                        assert(after_left.subrange(0, encoded_child(r).len() as int)
                            =~= encoded_child(r));
                        assert(starts_with(after_left, encoded_child(r)));
                    }
                }
            }
            return Err(Error::CorruptNode);
        },
    };
    proof {
        assert(after_left.subrange(0, end - mid) =~= bytes@.subrange(mid as int, end as int));
        assert(starts_with(after_left, encoded_child(right)));
    }
    if end != bytes.len() {
        proof {
            assert forall|node: Node| encoded_node(node) != bytes@ by {
                if encoded_node(node) == bytes@ {
                    let r = node->right;
                    assert(after_left.subrange(0, after_left.len() as int) =~= after_left);
                    assert(starts_with(after_left, encoded_child(r)));
                    lemma_child_prefix_free(r, right, after_left);
                }
            }
        }
        return Err(Error::CorruptNode);
    }
    let node = Node::Internal { left, right };
    proof {
        assert(encoded_node(node) =~= bytes@);
    }
    Ok(node)
}

/// Nodes with the same bytes are the same node.
pub proof fn lemma_encoding_injective(a: Node, b: Node)
    requires
        encoded_node(a) == encoded_node(b),
    ensures
        a == b,
{
    broadcast use vstd::array::group_array_axioms;

    let ea = encoded_node(a);
    let eb = encoded_node(b);
    match a {
        Node::Leaf { key, value_hash } => {
            assert(ea[0] == 0u8);
            assert(eb[0] == 0u8);
            let bk = b->key;
            let bv = b->value_hash;
            lemma_hash_length(key);
            lemma_hash_length(value_hash);
            lemma_hash_length(bk);
            lemma_hash_length(bv);
            assert(key@ =~= ea.subrange(1, 33));
            assert(bk@ =~= eb.subrange(1, 33));
            assert(value_hash@ =~= ea.subrange(33, 65));
            assert(bv@ =~= eb.subrange(33, 65));
            assert(key.bytes =~= bk.bytes);
            assert(value_hash.bytes =~= bv.bytes);
        },
        Node::Internal { left, right } => {
            assert(ea[0] == 1u8);
            assert(eb[0] == 1u8);
            let bl = b->left;
            let br = b->right;
            let rest = ea.skip(1);
            assert(rest.subrange(0, encoded_child(left).len() as int) =~= encoded_child(left));
            assert(rest.subrange(0, encoded_child(bl).len() as int) =~= encoded_child(bl));
            lemma_child_prefix_free(left, bl, rest);
            let tail = rest.skip(encoded_child(left).len() as int);
            assert(tail =~= encoded_child(right));
            assert(tail =~= encoded_child(br));
            assert(tail.subrange(0, tail.len() as int) =~= tail);
            lemma_child_prefix_free(right, br, tail);
        },
    }
}

/// The bytes of the steps of a path: `1` for a step to the right, `0` for a
/// step to the left.
pub open spec fn encoded_path(path: Seq<bool>) -> Seq<u8> {
    Seq::new(
        path.len(),
        |i: int|
            if path[i] {
                1u8
            } else {
                0u8
            },
    )
}

/// The bytes of a node address, under which the node is stored.
pub open spec fn encoded_address(address: AddressView) -> Seq<u8> {
    spec_u64_to_le_bytes(address.shard_id as u64) + spec_u64_to_le_bytes(address.version)
        + encoded_path(address.path)
}

/// The bytes of a node address.
pub fn encode_address(address: &NodeAddress) -> (bytes: Vec<u8>)
    ensures
        bytes@ == encoded_address(address@),
{
    let mut bytes = u64_to_le_bytes(address.shard_id as u64);
    let mut version = u64_to_le_bytes(address.version);
    bytes.append(&mut version);
    let ghost head = bytes@;
    let mut i: usize = 0;
    while i < address.path.len()
        invariant
            i <= address.path.len(),
            bytes@ == head + encoded_path(address.path@.take(i as int)),
        decreases address.path.len() - i,
    {
        let step: u8 = if address.path[i] {
            1u8
        } else {
            0u8
        };
        bytes.push(step);
        proof {
            assert(bytes@ =~= head + encoded_path(address.path@.take(i + 1)));
        }
        i += 1;
    }
    proof {
        assert(address.path@.take(address.path.len() as int) =~= address.path@);
    }
    bytes
}

/// Addresses with the same bytes are the same address: no two nodes are
/// stored under one key.
pub proof fn lemma_address_injective(a: AddressView, b: AddressView)
    requires
        encoded_address(a) == encoded_address(b),
    ensures
        a == b,
{
    lemma_auto_spec_u64_to_from_le_bytes();
    let ea = encoded_address(a);
    let eb = encoded_address(b);
    assert(ea.len() == 16 + a.path.len());
    assert(eb.len() == 16 + b.path.len());
    assert(spec_u64_to_le_bytes(a.shard_id as u64) =~= ea.subrange(0, 8));
    assert(spec_u64_to_le_bytes(b.shard_id as u64) =~= eb.subrange(0, 8));
    assert(spec_u64_to_le_bytes(a.version) =~= ea.subrange(8, 16));
    assert(spec_u64_to_le_bytes(b.version) =~= eb.subrange(8, 16));
    assert(spec_u64_from_le_bytes(ea.subrange(0, 8)) == a.shard_id as u64);
    assert(spec_u64_from_le_bytes(eb.subrange(0, 8)) == b.shard_id as u64);
    assert(spec_u64_from_le_bytes(ea.subrange(8, 16)) == a.version);
    assert(spec_u64_from_le_bytes(eb.subrange(8, 16)) == b.version);
    assert forall|i: int| 0 <= i < a.path.len() implies a.path[i] == b.path[i] by {
        assert(ea[16 + i] == encoded_path(a.path)[i]);
        assert(eb[16 + i] == encoded_path(b.path)[i]);
    }
    assert(a.path =~= b.path);
}

/// The bytes under which the record of `key` at `version` is stored in the
/// value store of the shard `shard_id`.
pub open spec fn encoded_record_key(shard_id: usize, key: Seq<u8>, version: u64) -> Seq<u8> {
    spec_u64_to_le_bytes(shard_id as u64) + key + spec_u64_to_le_bytes(version)
}

/// The bytes under which a value record is stored.
pub fn encode_record_key(shard_id: usize, key: &HashValue, version: u64) -> (bytes: Vec<u8>)
    ensures
        bytes@ == encoded_record_key(shard_id, key@, version),
{
    let mut bytes = u64_to_le_bytes(shard_id as u64);
    append_hash(&mut bytes, key);
    let mut tail = u64_to_le_bytes(version);
    bytes.append(&mut tail);
    bytes
}

/// The bytes of a value record: of a value, or of the mark of a deletion.
pub open spec fn encoded_value(value: Option<Seq<u8>>) -> Seq<u8> {
    match value {
        None => seq![0u8],
        Some(v) => seq![1u8] + v,
    }
}

/// The bytes of a value record.
pub fn encode_value(value: &Option<Vec<u8>>) -> (bytes: Vec<u8>)
    ensures
        bytes@ == encoded_value(
            match value {
                Some(v) => Some(v@),
                None => None,
            },
        ),
{
    let mut bytes: Vec<u8> = Vec::new();
    match value {
        None => {
            bytes.push(0u8);
        },
        Some(v) => {
            bytes.push(1u8);
            let mut i: usize = 0;
            while i < v.len()
                invariant
                    i <= v.len(),
                    bytes@ == seq![1u8] + v@.take(i as int),
                decreases v.len() - i,
            {
                bytes.push(v[i]);
                proof {
                    assert(bytes@ =~= seq![1u8] + v@.take(i + 1));
                }
                i += 1;
            }
            proof {
                assert(v@.take(v.len() as int) =~= v@);
            }
        },
    }
    bytes
}

/// The value record that `bytes` are the encoding of: a value, or `None` for
/// the mark of a deletion. Bytes that are the encoding of no record are
/// refused as corrupt.
pub fn decode_value(bytes: &Vec<u8>) -> (res: Result<Option<Vec<u8>>, Error>)
    ensures
        res matches Ok(value) ==> encoded_value(
            match value {
                Some(v) => Some(v@),
                None => None,
            },
        ) == bytes@,
        res matches Err(e) ==> e == Error::CorruptNode && forall|value: Option<Seq<u8>>|
            encoded_value(value) != bytes@,
{
    proof {
        assert forall|value: Option<Seq<u8>>| encoded_value(value) == bytes@ implies bytes.len() >= 1
            && (bytes@[0] == 0u8 ==> bytes.len() == 1) && (bytes@[0] == 0u8 || bytes@[0] == 1u8) by {
            match value {
                Some(v) => {
                    assert(encoded_value(value)[0] == 1u8);
                },
                None => {},
            }
        }
    }
    if bytes.len() == 0 {
        return Err(Error::CorruptNode);
    }
    if bytes[0] == 0u8 {
        if bytes.len() != 1 {
            return Err(Error::CorruptNode);
        }
        proof {
            assert(encoded_value(None) =~= bytes@);
        }
        return Ok(None);
    }
    if bytes[0] != 1u8 {
        return Err(Error::CorruptNode);
    }
    let mut value: Vec<u8> = Vec::new();
    let mut i: usize = 1;
    while i < bytes.len()
        invariant
            1 <= i <= bytes.len(),
            value@ == bytes@.subrange(1, i as int),
        decreases bytes.len() - i,
    {
        value.push(bytes[i]);
        proof {
            assert(value@ =~= bytes@.subrange(1, i + 1));
        }
        i += 1;
    }
    proof {
        assert(encoded_value(Some(value@)) =~= bytes@);
    }
    Ok(Some(value))
}

} // verus!

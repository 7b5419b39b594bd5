//! The canonical byte encoding of nodes.
//!
//! Layouts (integers are little-endian):
//! - leaf: tag, round (8 bytes), key (bit length in 2 bytes, then the key
//!   bytes), value (length in 4 bytes, then the value bytes);
//! - internal: tag, round (8 bytes), label bit length (2 bytes), the label's
//!   `ceil(bits / 8)` bytes, the embedded leaf (a full leaf encoding or a single
//!   empty tag), then, in the full form only, the left and right digests.
//!
//! A decoder reads the full form of an internal node when at least 64 bytes
//! remain after the embedded leaf, and the compact form otherwise. Keys are
//! byte strings, so a key's bit length must be a multiple of eight. A value of
//! length zero decodes as no value: an absent value and an empty one encode
//! alike.
use vstd::prelude::*;

use crate::hash::{empty_hash_spec, sha512_256_of, Digest, HASH_LEN};
use crate::ints::{
    le_u16, le_u32, le_u64, push_u16, push_u32, push_u64, read_u16, read_u32, read_u64, u16_le,
    u32_le, u64_le,
};
use crate::node::{
    append_bytes, key_enc, label_bytes, value_bytes, InternalNode, LeafNode, NodeBox, NodeKind,
    NodePointer, ValuePointer, MAX_KEY_LEN, TAG_INTERNAL, TAG_LEAF, TAG_NONE,
};

verus! {

/// Why a buffer does not decode.
#[derive(Clone, Copy, Debug, PartialEq, Eq, Structural)]
pub enum TreeError {
    MalformedNode,
    MalformedKey,
}

/// A length-prefixed value.
pub open spec fn value_enc(v: Seq<u8>) -> Seq<u8> {
    u32_le(v.len() as u32) + v
}

/// The encoding of a leaf with the given fields.
pub open spec fn leaf_enc(round: u64, key: Seq<u8>, value: Seq<u8>) -> Seq<u8> {
    seq![TAG_LEAF] + u64_le(round) + key_enc(key) + value_enc(value)
}

/// The encoding of a leaf node.
pub open spec fn leaf_node_enc(l: LeafNode) -> Seq<u8> {
    leaf_enc(l.round, l.key@, value_bytes(l.value.value))
}

/// The encoding of an embedded-leaf slot: a leaf, or the empty tag.
pub open spec fn slot_enc(p: NodePointer) -> Seq<u8> {
    match p.node {
        Option::Some(b) => match *b {
            NodeBox::Leaf(l) => leaf_node_enc(l),
            NodeBox::Internal(_) => seq![TAG_NONE],
        },
        Option::None => seq![TAG_NONE],
    }
}

/// The compact encoding of an internal node: everything but the child digests.
pub open spec fn internal_compact_enc(n: InternalNode) -> Seq<u8> {
    seq![TAG_INTERNAL] + u64_le(n.round) + u16_le(n.label_bit_length) + n.label@ + slot_enc(
        *n.leaf_node,
    )
}

/// The full encoding of an internal node.
pub open spec fn internal_enc(n: InternalNode) -> Seq<u8> {
    internal_compact_enc(n) + n.left.hash@ + n.right.hash@
}

/// The encoding of a node.
pub open spec fn node_enc(n: NodeBox) -> Seq<u8> {
    match n {
        NodeBox::Internal(i) => internal_enc(i),
        NodeBox::Leaf(l) => leaf_node_enc(l),
    }
}

/// A leaf that the encoder can write: its key's bit length fits two bytes and
/// its value's length fits four.
pub open spec fn leaf_encodable(l: LeafNode) -> bool {
    &&& l.key@.len() <= MAX_KEY_LEN
    &&& value_bytes(l.value.value).len() <= u32::MAX
}

/// An embedded-leaf slot that the encoder can write: null, or an encodable leaf.
pub open spec fn slot_encodable(p: NodePointer) -> bool {
    match p.node {
        Option::Some(b) => match *b {
            NodeBox::Leaf(l) => leaf_encodable(l),
            NodeBox::Internal(_) => false,
        },
        Option::None => p.hash@ == empty_hash_spec(),
    }
}

/// Copies `data[start..end]`.
fn copy_range(data: &[u8], start: usize, end: usize) -> (r: Vec<u8>)
    requires
        start <= end <= data@.len(),
    ensures
        r@ == data@.subrange(start as int, end as int),
{
    let mut r: Vec<u8> = Vec::new();
    let mut i: usize = start;
    while i < end
        invariant
            start <= i <= end <= data@.len(),
            r@ == data@.subrange(start as int, i as int),
        decreases end - i,
    {
        r.push(data[i]);
        i = i + 1;
        assert(data@.subrange(start as int, i as int) =~= data@.subrange(start as int, i - 1).push(
            data@[i - 1],
        ));
    }
    r
}

impl NodeKind {
    /// Encodes this kind as its tag byte.
    pub fn marshal_binary(&self) -> (r: Vec<u8>)
        ensures
            r@ == seq![self.tag_spec()],
    {
        let mut r: Vec<u8> = Vec::new();
        r.push(self.tag());
        assert(r@ =~= seq![self.tag_spec()]);
        r
    }

    /// Decodes a kind from the tag byte at the start of `data` into `self`,
    /// returning the number of bytes read; on error `self` is left as it was.
    pub fn unmarshal_binary(&mut self, data: &[u8]) -> (r: Result<usize, TreeError>)
        ensures
            r is Ok <==> data@.len() >= 1 && (data@[0] == TAG_NONE || data@[0] == TAG_INTERNAL
                || data@[0] == TAG_LEAF),
            r is Err ==> r == Err::<usize, TreeError>(TreeError::MalformedNode) && *final(self)
                == *old(self),
            r is Ok ==> r == Ok::<usize, TreeError>(1) && final(self).tag_spec() == data@[0],
    {
        match unmarshal_kind(data) {
            Ok(k) => {
                *self = k;
                Ok(1)
            },
            Err(e) => Err(e),
        }
    }
}

/// Decodes a node kind from its tag byte.
fn unmarshal_kind(data: &[u8]) -> (r: Result<NodeKind, TreeError>)
    ensures
        r matches Ok(k) ==> data@.len() >= 1 && k.tag_spec() == data@[0],
        r is Err ==> r == Err::<NodeKind, TreeError>(TreeError::MalformedNode),
        r is Ok <==> data@.len() >= 1 && (data@[0] == TAG_NONE || data@[0] == TAG_INTERNAL
            || data@[0] == TAG_LEAF),
{
    if data.len() < 1 {
        Err(TreeError::MalformedNode)
    } else if data[0] == TAG_NONE {
        Ok(NodeKind::Empty)
    } else if data[0] == TAG_INTERNAL {
        Ok(NodeKind::Internal)
    } else if data[0] == TAG_LEAF {
        Ok(NodeKind::Leaf)
    } else {
        Err(TreeError::MalformedNode)
    }
}

/// Encodes a key: its bit length, then its bytes.
pub fn marshal_key(key: &[u8]) -> (r: Vec<u8>)
    requires
        key@.len() <= MAX_KEY_LEN,
    ensures
        r@ == key_enc(key@),
{
    let mut r: Vec<u8> = Vec::new();
    push_u16(&mut r, (key.len() * 8) as u16);
    append_bytes(&mut r, key);
    r
}

/// Encodes a value: its length in four bytes, then its bytes.
pub fn marshal_value(value: &ValuePointer) -> (r: Vec<u8>)
    requires
        value_bytes(value.value).len() <= u32::MAX,
    ensures
        r@ == value_enc(value_bytes(value.value)),
{
    let mut r: Vec<u8> = Vec::new();
    match &value.value {
        Option::None => {
            push_u32(&mut r, 0);
        },
        Option::Some(v) => {
            push_u32(&mut r, v.len() as u32);
            append_bytes(&mut r, v.as_slice());
        },
    }
    assert(r@ =~= value_enc(value_bytes(value.value)));
    r
}

/// A whole key is encoded at `p`: its bit length is a byte count of bits and
/// all its bytes are present.
pub open spec fn key_ok_at(d: Seq<u8>, p: int) -> bool {
    &&& d.len() >= p + 2
    &&& le_u16(d.subrange(p, p + 2)) % 8 == 0
    &&& d.len() >= p + 2 + le_u16(d.subrange(p, p + 2)) / 8
}

/// Decodes the key encoded at `pos`, with the position just past it.
pub fn unmarshal_key(data: &[u8], pos: usize) -> (r: Result<(Vec<u8>, usize), TreeError>)
    requires
        pos <= data@.len(),
    ensures
        r is Ok <==> key_ok_at(data@, pos as int),
        r is Err ==> r == Err::<(Vec<u8>, usize), TreeError>(TreeError::MalformedKey),
        r matches Ok((k, end)) ==> end == pos + 2 + le_u16(data@.subrange(pos as int, pos + 2)) / 8
            && k@ == data@.subrange(pos + 2, end as int),
{
    if data.len() - pos < 2 {
        return Err(TreeError::MalformedKey);
    }
    let bits = read_u16(data, pos);
    let key_len = (bits / 8) as usize;
    if bits % 8 != 0 || data.len() - (pos + 2) < key_len {
        return Err(TreeError::MalformedKey);
    }
    Ok((copy_range(data, pos + 2, pos + 2 + key_len), pos + 2 + key_len))
}

/// A whole value is encoded at `p`: its length prefix and all its bytes.
pub open spec fn value_ok_at(d: Seq<u8>, p: int) -> bool {
    d.len() >= p + 4 && d.len() >= p + 4 + le_u32(d.subrange(p, p + 4))
}

/// Decodes the value encoded at `pos` into a clean value pointer with a
/// fresh digest, with the position just past it. A length of zero decodes
/// as no value.
pub fn unmarshal_value(data: &[u8], pos: usize) -> (r: Result<(ValuePointer, usize), TreeError>)
    requires
        pos <= data@.len(),
    ensures
        r is Ok <==> value_ok_at(data@, pos as int),
        r is Err ==> r == Err::<(ValuePointer, usize), TreeError>(TreeError::MalformedNode),
        r matches Ok((v, end)) ==> {
            &&& end == pos + 4 + le_u32(data@.subrange(pos as int, pos + 4))
            &&& value_bytes(v.value) == data@.subrange(pos + 4, end as int)
            &&& (v.value is None <==> end == pos + 4)
            &&& v.clean
            &&& v.hash@ == sha512_256_of(value_bytes(v.value))
        },
{
    if data.len() - pos < 4 {
        return Err(TreeError::MalformedNode);
    }
    let value_len = read_u32(data, pos) as usize;
    if data.len() - (pos + 4) < value_len {
        return Err(TreeError::MalformedNode);
    }
    let value = if value_len == 0 {
        Option::None
    } else {
        Option::Some(copy_range(data, pos + 4, pos + 4 + value_len))
    };
    proof {
        if value_len == 0 {
            assert(data@.subrange(pos + 4, pos + 4) =~= Seq::<u8>::empty());
        }
    }
    Ok((ValuePointer::new(value), pos + 4 + value_len))
}

/// Bit length of the key of a leaf encoded at `p`.
pub open spec fn key_bits_at(d: Seq<u8>, p: int) -> u16 {
    le_u16(d.subrange(p + 9, p + 11))
}

/// Byte length of the key of a leaf encoded at `p`.
pub open spec fn key_len_at(d: Seq<u8>, p: int) -> int {
    key_bits_at(d, p) as int / 8
}

/// Where the value of a leaf encoded at `p` starts.
pub open spec fn value_pos_at(d: Seq<u8>, p: int) -> int {
    p + 11 + key_len_at(d, p)
}

/// Length of the value of a leaf encoded at `p`.
pub open spec fn value_len_at(d: Seq<u8>, p: int) -> int {
    le_u32(d.subrange(value_pos_at(d, p), value_pos_at(d, p) + 4)) as int
}

/// Where a leaf encoded at `p` ends.
pub open spec fn leaf_end_at(d: Seq<u8>, p: int) -> int {
    value_pos_at(d, p) + 4 + value_len_at(d, p)
}

/// The tag, round and key prefix of a leaf are present at `p`.
pub open spec fn leaf_header_ok(d: Seq<u8>, p: int) -> bool {
    d.len() >= p + 11 && d[p] == TAG_LEAF
}

/// The key of a leaf at `p` is whole: a byte count of bits, all present.
pub open spec fn leaf_key_ok(d: Seq<u8>, p: int) -> bool {
    key_bits_at(d, p) % 8 == 0 && d.len() >= value_pos_at(d, p)
}

/// The value of a leaf at `p` is whole: its length prefix and bytes present.
pub open spec fn leaf_value_ok(d: Seq<u8>, p: int) -> bool {
    d.len() >= value_pos_at(d, p) + 4 && d.len() >= leaf_end_at(d, p)
}

/// A whole leaf is encoded at `p`.
pub open spec fn leaf_ok(d: Seq<u8>, p: int) -> bool {
    leaf_header_ok(d, p) && leaf_key_ok(d, p) && leaf_value_ok(d, p)
}

/// `l` is the clean leaf, with fresh digests, that the bytes at `p` encode.
pub open spec fn leaf_decoded_from(l: LeafNode, d: Seq<u8>, p: int) -> bool {
    &&& l.clean
    &&& l.round == le_u64(d.subrange(p + 1, p + 9))
    &&& l.key@ == d.subrange(p + 11, value_pos_at(d, p))
    &&& value_bytes(l.value.value) == d.subrange(value_pos_at(d, p) + 4, leaf_end_at(d, p))
    &&& (l.value.value is None <==> value_len_at(d, p) == 0)
    &&& l.value.clean
    &&& l.value.hash@ == sha512_256_of(value_bytes(l.value.value))
    &&& l.hash@ == l.computed_hash()
    &&& l.wf()
}

impl LeafNode {
    /// Encodes this leaf.
    pub fn marshal_binary(&self) -> (r: Vec<u8>)
        requires
            leaf_encodable(*self),
        ensures
            r@ == leaf_node_enc(*self),
    {
        let mut r: Vec<u8> = Vec::new();
        r.push(TAG_LEAF);
        push_u64(&mut r, self.round);
        let k = marshal_key(self.key.as_slice());
        append_bytes(&mut r, k.as_slice());
        let v = marshal_value(&self.value);
        append_bytes(&mut r, v.as_slice());
        r
    }

    /// Decodes the leaf encoded at `pos`, with the position just past it.
    pub fn unmarshal_at(data: &[u8], pos: usize) -> (r: Result<(LeafNode, usize), TreeError>)
        requires
            pos <= data@.len(),
        ensures
            r is Ok <==> leaf_ok(data@, pos as int),
            r == Err::<(LeafNode, usize), TreeError>(TreeError::MalformedKey) <==> (leaf_header_ok(
                data@,
                pos as int,
            ) && !leaf_key_ok(data@, pos as int)),
            r matches Ok((l, end)) ==> end == leaf_end_at(data@, pos as int) && leaf_decoded_from(
                l,
                data@,
                pos as int,
            ),
    {
        if data.len() - pos < 11 || data[pos] != TAG_LEAF {
            return Err(TreeError::MalformedNode);
        }
        let round = read_u64(data, pos + 1);
        let (key, vpos) = match unmarshal_key(data, pos + 9) {
            Ok(k) => k,
            Err(e) => {
                return Err(e);
            },
        };
        let (value, end) = match unmarshal_value(data, vpos) {
            Ok(v) => v,
            Err(e) => {
                return Err(e);
            },
        };
        let mut leaf = LeafNode { clean: true, hash: [0u8; 32], round, key, value };
        leaf.update_hash();
        Ok((leaf, end))
    }

    /// Decodes a leaf from the start of `data` into `self`, returning the
    /// number of bytes read; on error `self` is left as it was.
    pub fn unmarshal_binary(&mut self, data: &[u8]) -> (r: Result<usize, TreeError>)
        ensures
            r is Ok <==> leaf_ok(data@, 0),
            r == Err::<usize, TreeError>(TreeError::MalformedKey) <==> (leaf_header_ok(data@, 0)
                && !leaf_key_ok(data@, 0)),
            r matches Ok(n) ==> n == leaf_end_at(data@, 0) && leaf_decoded_from(
                *final(self),
                data@,
                0,
            ),
            r is Err ==> *final(self) == *old(self),
    {
        match LeafNode::unmarshal_at(data, 0) {
            Ok((l, n)) => {
                *self = l;
                Ok(n)
            },
            Err(e) => Err(e),
        }
    }
}

/// Where a leaf's encoding sits inside a buffer, the decoder's reading of
/// that buffer at that place gives back the leaf's fields.
proof fn lemma_leaf_enc_at(l: LeafNode, d: Seq<u8>, p: int)
    requires
        leaf_encodable(l),
        0 <= p,
        p + leaf_node_enc(l).len() <= d.len(),
        d.subrange(p, p + leaf_node_enc(l).len()) == leaf_node_enc(l),
    ensures
        leaf_ok(d, p),
        leaf_end_at(d, p) == p + leaf_node_enc(l).len(),
        le_u64(d.subrange(p + 1, p + 9)) == l.round,
        d.subrange(p + 11, value_pos_at(d, p)) == l.key@,
        d.subrange(value_pos_at(d, p) + 4, leaf_end_at(d, p)) == value_bytes(l.value.value),
        value_len_at(d, p) == value_bytes(l.value.value).len(),
{
    let e = leaf_node_enc(l);
    let k = l.key@;
    let v = value_bytes(l.value.value);
    let kl = k.len() as int;
    assert(e.len() == 1 + 8 + 2 + kl + 4 + v.len());
    assert(d[p] == e[0]);
    assert(d.subrange(p + 1, p + 9) =~= u64_le(l.round)) by {
        assert forall|i: int| 0 <= i < 8 implies #[trigger] d.subrange(p + 1, p + 9)[i] == u64_le(l.round)[i] by {
            assert(d[p + 1 + i] == e[1 + i]);
        }
    }
    crate::ints::lemma_u64_round_trip(l.round);
    assert(d.subrange(p + 9, p + 11) =~= u16_le((kl * 8) as u16)) by {
        assert forall|i: int| 0 <= i < 2 implies #[trigger] d.subrange(p + 9, p + 11)[i] == u16_le(
            (kl * 8) as u16,
        )[i] by {
            assert(d[p + 9 + i] == e[9 + i]);
        }
    }
    crate::ints::lemma_u16_round_trip((kl * 8) as u16);
    assert(key_bits_at(d, p) == kl * 8);
    assert(key_len_at(d, p) == kl);
    assert(d.subrange(p + 11, p + 11 + kl) =~= k) by {
        assert forall|i: int| 0 <= i < kl implies #[trigger] d.subrange(p + 11, p + 11 + kl)[i] == k[i] by {
            assert(d[p + 11 + i] == e[11 + i]);
        }
    }
    let vp = p + 11 + kl;
    assert(d.subrange(vp, vp + 4) =~= u32_le(v.len() as u32)) by {
        assert forall|i: int| 0 <= i < 4 implies #[trigger] d.subrange(vp, vp + 4)[i] == u32_le(
            v.len() as u32,
        )[i] by {
            assert(d[vp + i] == e[11 + kl + i]);
        }
    }
    crate::ints::lemma_u32_round_trip(v.len() as u32);
    assert(value_len_at(d, p) == v.len());
    assert(d.subrange(vp + 4, vp + 4 + v.len()) =~= v) by {
        assert forall|i: int| 0 <= i < v.len() implies #[trigger] d.subrange(vp + 4, vp + 4 + v.len())[i]
            == v[i] by {
            assert(d[vp + 4 + i] == e[15 + kl + i]);
        }
    }
}

/// Decoding the encoding of a leaf gives back its round, key and value, and
/// a digest equal to the one computed from those fields; where the leaf's
/// cached digests were fresh, equal to its own.
pub proof fn lemma_leaf_round_trip(l: LeafNode, decoded: LeafNode)
    requires
        leaf_encodable(l),
        leaf_decoded_from(decoded, leaf_node_enc(l), 0),
    ensures
        leaf_ok(leaf_node_enc(l), 0),
        leaf_end_at(leaf_node_enc(l), 0) == leaf_node_enc(l).len(),
        decoded.round == l.round,
        decoded.key@ == l.key@,
        value_bytes(decoded.value.value) == value_bytes(l.value.value),
        decoded.hash@ == crate::node::leaf_hash(l.round, l.key@, value_bytes(l.value.value)),
        l.value.hash@ == sha512_256_of(value_bytes(l.value.value)) ==> decoded.hash@
            == l.computed_hash(),
{
    let e = leaf_node_enc(l);
    assert(e.subrange(0, e.len() as int) =~= e);
    lemma_leaf_enc_at(l, e, 0);
}

/// The encoding of an encodable leaf decodes whole, and every leaf it
/// decodes to carries the original's round, key and value, and a digest
/// equal to the one computed from them; where the original's value digest
/// was fresh, equal to the one computed for the original.
pub proof fn lemma_leaf_encoding_decodes(l: LeafNode)
    requires
        leaf_encodable(l),
    ensures
        leaf_ok(leaf_node_enc(l), 0),
        leaf_end_at(leaf_node_enc(l), 0) == leaf_node_enc(l).len(),
        forall|d: LeafNode| #[trigger]
            leaf_decoded_from(d, leaf_node_enc(l), 0) ==> {
                &&& same_leaf_fields(d, l)
                &&& d.hash@ == crate::node::leaf_hash(l.round, l.key@, value_bytes(l.value.value))
                &&& (l.value.hash@ == sha512_256_of(value_bytes(l.value.value)) ==> d.hash@
                    == l.computed_hash())
            },
{
    let e = leaf_node_enc(l);
    assert(e.subrange(0, e.len() as int) =~= e);
    lemma_leaf_enc_at(l, e, 0);
    assert forall|d: LeafNode| #[trigger] leaf_decoded_from(d, leaf_node_enc(l), 0) implies {
        &&& same_leaf_fields(d, l)
        &&& d.hash@ == crate::node::leaf_hash(l.round, l.key@, value_bytes(l.value.value))
        &&& (l.value.hash@ == sha512_256_of(value_bytes(l.value.value)) ==> d.hash@
            == l.computed_hash())
    } by {
        lemma_leaf_round_trip(l, d);
    }
}

/// Where the embedded-leaf slot of an internal node starts.
pub open spec fn slot_pos(d: Seq<u8>) -> int {
    11 + label_bytes(le_u16(d.subrange(9, 11))) as int
}

/// Where the embedded-leaf slot of an internal node ends.
pub open spec fn slot_end(d: Seq<u8>) -> int {
    if d[slot_pos(d)] == TAG_NONE {
        slot_pos(d) + 1
    } else {
        leaf_end_at(d, slot_pos(d))
    }
}

/// The tag, round and label prefix of an internal node are present.
pub open spec fn internal_header_ok(d: Seq<u8>) -> bool {
    d.len() >= 12 && d[0] == TAG_INTERNAL
}

/// The label is present and followed by at least one byte.
pub open spec fn internal_label_ok(d: Seq<u8>) -> bool {
    d.len() > slot_pos(d)
}

/// The embedded-leaf slot is the empty tag or a whole leaf.
pub open spec fn internal_slot_ok(d: Seq<u8>) -> bool {
    d[slot_pos(d)] == TAG_NONE || leaf_ok(d, slot_pos(d))
}

/// A whole internal node, full or compact, is encoded at the start of `d`.
pub open spec fn internal_ok(d: Seq<u8>) -> bool {
    internal_header_ok(d) && internal_label_ok(d) && internal_slot_ok(d)
}

/// The embedded leaf's key is malformed.
pub open spec fn internal_key_malformed(d: Seq<u8>) -> bool {
    &&& internal_header_ok(d)
    &&& internal_label_ok(d)
    &&& d[slot_pos(d)] != TAG_NONE
    &&& leaf_header_ok(d, slot_pos(d))
    &&& !leaf_key_ok(d, slot_pos(d))
}

/// Both child digests follow the embedded leaf.
pub open spec fn internal_is_full(d: Seq<u8>) -> bool {
    d.len() >= slot_end(d) + 2 * HASH_LEN
}

/// Where the encoding of an internal node at the start of `d` ends.
pub open spec fn internal_end(d: Seq<u8>) -> int {
    if internal_is_full(d) {
        slot_end(d) + 2 * HASH_LEN
    } else {
        slot_end(d)
    }
}

/// The pointer a child digest decodes to: null for the sentinel, else unresolved.
pub open spec fn child_decoded_from(p: NodePointer, h: Seq<u8>) -> bool {
    &&& p.clean
    &&& p.node is None
    &&& p.hash@ == h
}

/// `n` is the internal node that the start of `d` encodes.
pub open spec fn internal_decoded_from(n: InternalNode, d: Seq<u8>) -> bool {
    let s = slot_pos(d);
    let e = slot_end(d);
    &&& n.round == le_u64(d.subrange(1, 9))
    &&& n.label_bit_length == le_u16(d.subrange(9, 11))
    &&& n.label@ == d.subrange(11, s)
    &&& d[s] == TAG_NONE ==> n.leaf_node.is_null_spec()
    &&& d[s] != TAG_NONE ==> {
        &&& n.leaf_node.clean
        &&& n.leaf_node.node matches Some(b) && *b matches NodeBox::Leaf(l) && leaf_decoded_from(
            l,
            d,
            s,
        ) && n.leaf_node.hash == l.hash
    }
    &&& internal_is_full(d) ==> {
        &&& child_decoded_from(*n.left, d.subrange(e, e + HASH_LEN))
        &&& child_decoded_from(*n.right, d.subrange(e + HASH_LEN, e + 2 * HASH_LEN))
        &&& n.clean
        &&& n.hash@ == n.computed_hash()
    }
    &&& !internal_is_full(d) ==> {
        &&& n.left.is_null_spec()
        &&& n.right.is_null_spec()
        &&& !n.clean
    }
}

/// Copies the digest at `pos`.
fn read_digest(data: &[u8], pos: usize) -> (r: Digest)
    requires
        pos + HASH_LEN <= data@.len(),
    ensures
        r@ == data@.subrange(pos as int, pos + HASH_LEN),
{
    let mut r: Digest = [0u8; 32];
    let len = data.len();
    let mut i: usize = 0;
    while i < HASH_LEN
        invariant
            i <= HASH_LEN,
            pos + HASH_LEN <= data@.len() == len,
            r@.len() == HASH_LEN,
            forall|j: int| 0 <= j < i ==> r@[j] == data@[pos + j],
        decreases HASH_LEN - i,
    {
        r[i] = data[pos + i];
        i = i + 1;
    }
    assert(r@ =~= data@.subrange(pos as int, pos + HASH_LEN));
    r
}

/// The pointer for a child digest: null for the sentinel, else unresolved.
fn child_from_digest(h: Digest) -> (r: NodePointer)
    ensures
        child_decoded_from(r, h@),
{
    if crate::hash::is_empty_hash(&h) {
        NodePointer::null_ptr()
    } else {
        NodePointer::unresolved(h)
    }
}

impl InternalNode {
    /// Encodes this node in the full form.
    pub fn marshal_binary(&self) -> (r: Vec<u8>)
        requires
            slot_encodable(*self.leaf_node),
        ensures
            r@ == internal_enc(*self),
    {
        let mut r: Vec<u8> = Vec::new();
        r.push(TAG_INTERNAL);
        push_u64(&mut r, self.round);
        push_u16(&mut r, self.label_bit_length);
        append_bytes(&mut r, self.label.as_slice());
        match &self.leaf_node.node {
            Option::Some(b) => match &**b {
                NodeBox::Leaf(l) => {
                    let e = l.marshal_binary();
                    append_bytes(&mut r, e.as_slice());
                },
                NodeBox::Internal(_) => {
                    r.push(TAG_NONE);
                },
            },
            Option::None => {
                r.push(TAG_NONE);
            },
        }
        append_bytes(&mut r, &self.left.hash);
        append_bytes(&mut r, &self.right.hash);
        proof {
            assert(r@ =~= internal_enc(*self));
        }
        r
    }

    /// Decodes an internal node from the start of `data`, with the number of
    /// bytes read.
    pub fn unmarshal(data: &[u8]) -> (r: Result<(InternalNode, usize), TreeError>)
        ensures
            r is Ok <==> internal_ok(data@),
            r == Err::<(InternalNode, usize), TreeError>(TreeError::MalformedKey)
                <==> internal_key_malformed(data@),
            r matches Ok((n, end)) ==> end == internal_end(data@) && internal_decoded_from(
                n,
                data@,
            ),
    {
        if data.len() < 12 || data[0] != TAG_INTERNAL {
            return Err(TreeError::MalformedNode);
        }
        let round = read_u64(data, 1);
        let bits = read_u16(data, 9);
        let label_len = ((bits as usize) + 7) / 8;
        if data.len() - 11 <= label_len {
            return Err(TreeError::MalformedNode);
        }
        let label = copy_range(data, 11, 11 + label_len);
        let s = 11 + label_len;
        let leaf_node: NodePointer;
        let e: usize;
        if data[s] == TAG_NONE {
            leaf_node = NodePointer::null_ptr();
            e = s + 1;
        } else {
            match LeafNode::unmarshal_at(data, s) {
                Ok((l, end)) => {
                    let h = l.hash;
                    leaf_node = NodePointer {
                        clean: true,
                        hash: h,
                        node: Option::Some(Box::new(NodeBox::Leaf(l))),
                    };
                    e = end;
                },
                Err(err) => {
                    return Err(err);
                },
            }
        }
        if data.len() - e >= 2 * HASH_LEN {
            let left = child_from_digest(read_digest(data, e));
            let right = child_from_digest(read_digest(data, e + HASH_LEN));
            let mut n = InternalNode {
                clean: true,
                hash: [0u8; 32],
                round,
                label,
                label_bit_length: bits,
                leaf_node: Box::new(leaf_node),
                left: Box::new(left),
                right: Box::new(right),
            };
            n.update_hash();
            Ok((n, e + 2 * HASH_LEN))
        } else {
            let n = InternalNode {
                clean: false,
                hash: [0u8; 32],
                round,
                label,
                label_bit_length: bits,
                leaf_node: Box::new(leaf_node),
                left: Box::new(NodePointer::null_ptr()),
                right: Box::new(NodePointer::null_ptr()),
            };
            Ok((n, e))
        }
    }

    /// Decodes an internal node from the start of `data` into `self`,
    /// returning the number of bytes read; on error `self` is left as it was.
    pub fn unmarshal_binary(&mut self, data: &[u8]) -> (r: Result<usize, TreeError>)
        ensures
            r is Ok <==> internal_ok(data@),
            r == Err::<usize, TreeError>(TreeError::MalformedKey) <==> internal_key_malformed(
                data@,
            ),
            r matches Ok(n) ==> n == internal_end(data@) && internal_decoded_from(
                *final(self),
                data@,
            ),
            r is Err ==> *final(self) == *old(self),
    {
        match InternalNode::unmarshal(data) {
            Ok((n, end)) => {
                *self = n;
                Ok(end)
            },
            Err(e) => Err(e),
        }
    }
}

/// An internal node that encodes and decodes back: an encodable slot and a
/// label of exactly `ceil(bits / 8)` bytes.
pub open spec fn internal_encodable(n: InternalNode) -> bool {
    &&& slot_encodable(*n.leaf_node)
    &&& n.label@.len() == label_bytes(n.label_bit_length)
}

/// An embedded-leaf slot whose cached digests are fresh.
pub open spec fn slot_fresh(p: NodePointer) -> bool {
    match p.node {
        Option::Some(b) => match *b {
            NodeBox::Leaf(l) => {
                &&& l.value.hash@ == sha512_256_of(value_bytes(l.value.value))
                &&& p.hash@ == l.computed_hash()
            },
            NodeBox::Internal(_) => false,
        },
        Option::None => p.hash@ == empty_hash_spec(),
    }
}

/// The leaf held by an embedded-leaf slot, if any.
pub open spec fn slot_leaf(p: NodePointer) -> Option<LeafNode> {
    match p.node {
        Option::Some(b) => match *b {
            NodeBox::Leaf(l) => Option::Some(l),
            NodeBox::Internal(_) => Option::None,
        },
        Option::None => Option::None,
    }
}

/// Two leaves with the same round, key and value bytes.
pub open spec fn same_leaf_fields(a: LeafNode, b: LeafNode) -> bool {
    &&& a.round == b.round
    &&& a.key@ == b.key@
    &&& value_bytes(a.value.value) == value_bytes(b.value.value)
}

/// Decoding the full encoding of an internal node gives back its round,
/// label, embedded leaf and child digests; where the embedded leaf's digests
/// were fresh, the decoded digest is the one computed for the original.
pub proof fn lemma_internal_round_trip(n: InternalNode, decoded: InternalNode)
    requires
        internal_encodable(n),
        internal_decoded_from(decoded, internal_enc(n)),
    ensures
        internal_ok(internal_enc(n)),
        internal_is_full(internal_enc(n)),
        internal_end(internal_enc(n)) == internal_enc(n).len(),
        decoded.round == n.round,
        decoded.label_bit_length == n.label_bit_length,
        decoded.label@ == n.label@,
        decoded.left.hash@ == n.left.hash@,
        decoded.right.hash@ == n.right.hash@,
        n.leaf_node.node is None ==> decoded.leaf_node.is_null_spec(),
        slot_leaf(*n.leaf_node) is Some ==> slot_leaf(*decoded.leaf_node) is Some
            && same_leaf_fields(slot_leaf(*n.leaf_node).unwrap(), slot_leaf(*decoded.leaf_node).unwrap()),
        decoded.clean,
        slot_fresh(*n.leaf_node) ==> decoded.hash@ == n.computed_hash(),
{
    let e = internal_enc(n);
    let lb = n.label@.len() as int;
    let sl = slot_enc(*n.leaf_node);
    let s = 11 + lb;
    assert(e.len() == s + sl.len() + 64);
    assert(e[0] == TAG_INTERNAL);
    assert(e.subrange(1, 9) =~= u64_le(n.round)) by {
        assert forall|i: int| 0 <= i < 8 implies #[trigger] e.subrange(1, 9)[i] == u64_le(
            n.round,
        )[i] by {}
    }
    crate::ints::lemma_u64_round_trip(n.round);
    assert(e.subrange(9, 11) =~= u16_le(n.label_bit_length)) by {
        assert forall|i: int| 0 <= i < 2 implies #[trigger] e.subrange(9, 11)[i] == u16_le(
            n.label_bit_length,
        )[i] by {}
    }
    crate::ints::lemma_u16_round_trip(n.label_bit_length);
    assert(slot_pos(e) == s);
    assert(e.subrange(11, s) =~= n.label@);
    assert(e.subrange(s, s + sl.len()) =~= sl);
    match n.leaf_node.node {
        Option::Some(b) => match *b {
            NodeBox::Leaf(l) => {
                lemma_leaf_enc_at(l, e, s);
                assert(e[s] == TAG_LEAF);
                assert(slot_end(e) == s + sl.len());
                match decoded.leaf_node.node {
                    Option::Some(b2) => match *b2 {
                        NodeBox::Leaf(l2) => {
                            assert(leaf_decoded_from(l2, e, s));
                            assert(l2.round == l.round);
                            assert(l2.key@ == l.key@);
                            assert(value_bytes(l2.value.value) == value_bytes(l.value.value));
                        },
                        NodeBox::Internal(_) => {},
                    },
                    Option::None => {},
                }
            },
            NodeBox::Internal(_) => {},
        },
        Option::None => {
            assert(e[s] == TAG_NONE);
        },
    }
    let se = s + sl.len();
    assert(slot_end(e) == se);
    assert(e.subrange(se, se + 32) =~= n.left.hash@);
    assert(e.subrange(se + 32, se + 64) =~= n.right.hash@);
}

/// The full encoding of an encodable internal node decodes whole, in the
/// full form, and every node it decodes to carries the original's round,
/// label, embedded leaf and child digests; where the embedded leaf's digests
/// were fresh, its digest is the one computed for the original.
pub proof fn lemma_internal_encoding_decodes(n: InternalNode)
    requires
        internal_encodable(n),
    ensures
        internal_ok(internal_enc(n)),
        internal_is_full(internal_enc(n)),
        internal_end(internal_enc(n)) == internal_enc(n).len(),
        forall|d: InternalNode| #[trigger]
            internal_decoded_from(d, internal_enc(n)) ==> {
                &&& d.round == n.round
                &&& d.label_bit_length == n.label_bit_length
                &&& d.label@ == n.label@
                &&& d.left.hash@ == n.left.hash@
                &&& d.right.hash@ == n.right.hash@
                &&& d.clean
                &&& (slot_fresh(*n.leaf_node) ==> d.hash@ == n.computed_hash())
            },
{
    let e = internal_enc(n);
    let lb = n.label@.len() as int;
    let sl = slot_enc(*n.leaf_node);
    let s = 11 + lb;
    assert(e.len() == s + sl.len() + 64);
    assert(e[0] == TAG_INTERNAL);
    assert(e.subrange(1, 9) =~= u64_le(n.round)) by {
        assert forall|i: int| 0 <= i < 8 implies #[trigger] e.subrange(1, 9)[i] == u64_le(
            n.round,
        )[i] by {}
    }
    crate::ints::lemma_u64_round_trip(n.round);
    assert(e.subrange(9, 11) =~= u16_le(n.label_bit_length)) by {
        assert forall|i: int| 0 <= i < 2 implies #[trigger] e.subrange(9, 11)[i] == u16_le(
            n.label_bit_length,
        )[i] by {}
    }
    crate::ints::lemma_u16_round_trip(n.label_bit_length);
    assert(slot_pos(e) == s);
    assert(e.subrange(11, s) =~= n.label@);
    assert(e.subrange(s, s + sl.len()) =~= sl);
    match n.leaf_node.node {
        Option::Some(b) => match *b {
            NodeBox::Leaf(l) => {
                lemma_leaf_enc_at(l, e, s);
                assert(e[s] == TAG_LEAF);
                assert(slot_end(e) == s + sl.len());
            },
            NodeBox::Internal(_) => {},
        },
        Option::None => {
            assert(e[s] == TAG_NONE);
        },
    }
    let se = s + sl.len();
    assert(slot_end(e) == se);
    assert(e.subrange(se, se + 32) =~= n.left.hash@);
    assert(e.subrange(se + 32, se + 64) =~= n.right.hash@);
    assert forall|d: InternalNode| #[trigger] internal_decoded_from(d, internal_enc(n)) implies {
        &&& d.round == n.round
        &&& d.label_bit_length == n.label_bit_length
        &&& d.label@ == n.label@
        &&& d.left.hash@ == n.left.hash@
        &&& d.right.hash@ == n.right.hash@
        &&& d.clean
        &&& (slot_fresh(*n.leaf_node) ==> d.hash@ == n.computed_hash())
    } by {
        lemma_internal_round_trip(n, d);
    }
}

/// `nb` is the node that the start of `d` encodes.
pub open spec fn node_decoded_from(nb: NodeBox, d: Seq<u8>) -> bool {
    match nb {
        NodeBox::Internal(n) => d[0] == TAG_INTERNAL && internal_decoded_from(n, d),
        NodeBox::Leaf(l) => d[0] == TAG_LEAF && leaf_decoded_from(l, d, 0),
    }
}

/// A whole node is encoded at the start of `d`.
pub open spec fn node_ok(d: Seq<u8>) -> bool {
    &&& d.len() >= 1
    &&& d[0] == TAG_INTERNAL ==> internal_ok(d)
    &&& d[0] == TAG_LEAF ==> leaf_ok(d, 0)
    &&& d[0] == TAG_INTERNAL || d[0] == TAG_LEAF
}

/// The key of the node encoded at the start of `d` is malformed.
pub open spec fn node_key_malformed(d: Seq<u8>) -> bool {
    ||| d.len() >= 1 && d[0] == TAG_INTERNAL && internal_key_malformed(d)
    ||| d.len() >= 1 && d[0] == TAG_LEAF && leaf_header_ok(d, 0) && !leaf_key_ok(d, 0)
}

/// Where the encoding of the node at the start of `d` ends.
pub open spec fn node_end(d: Seq<u8>) -> int {
    if d[0] == TAG_INTERNAL {
        internal_end(d)
    } else {
        leaf_end_at(d, 0)
    }
}

/// An encodable node.
pub open spec fn node_encodable(nb: NodeBox) -> bool {
    match nb {
        NodeBox::Internal(n) => slot_encodable(*n.leaf_node),
        NodeBox::Leaf(l) => leaf_encodable(l),
    }
}

impl NodeBox {
    /// Encodes this node.
    pub fn marshal_binary(&self) -> (r: Vec<u8>)
        requires
            node_encodable(*self),
        ensures
            r@ == node_enc(*self),
    {
        match self {
            NodeBox::Internal(n) => n.marshal_binary(),
            NodeBox::Leaf(l) => l.marshal_binary(),
        }
    }

    /// Decodes a node from the start of `data`, with the number of bytes read.
    pub fn unmarshal(data: &[u8]) -> (r: Result<(NodeBox, usize), TreeError>)
        ensures
            r is Ok <==> node_ok(data@),
            r == Err::<(NodeBox, usize), TreeError>(TreeError::MalformedKey) <==> node_key_malformed(
                data@,
            ),
            data@.len() == 0 ==> r == Err::<(NodeBox, usize), TreeError>(TreeError::MalformedNode),
            data@.len() >= 1 && data@[0] != TAG_INTERNAL && data@[0] != TAG_LEAF ==> r == Err::<
                (NodeBox, usize),
                TreeError,
            >(TreeError::MalformedNode),
            r matches Ok((nb, end)) ==> end == node_end(data@) && node_decoded_from(nb, data@),
    {
        match unmarshal_kind(data) {
            Ok(NodeKind::Internal) => match InternalNode::unmarshal(data) {
                Ok((n, end)) => Ok((NodeBox::Internal(n), end)),
                Err(e) => Err(e),
            },
            Ok(NodeKind::Leaf) => match LeafNode::unmarshal_at(data, 0) {
                Ok((l, end)) => Ok((NodeBox::Leaf(l), end)),
                Err(e) => Err(e),
            },
            _ => Err(TreeError::MalformedNode),
        }
    }

    /// Decodes a node from the start of `data` into `self`, returning the
    /// number of bytes read; on error `self` is left as it was.
    pub fn unmarshal_binary(&mut self, data: &[u8]) -> (r: Result<usize, TreeError>)
        ensures
            r is Ok <==> node_ok(data@),
            r == Err::<usize, TreeError>(TreeError::MalformedKey) <==> node_key_malformed(data@),
            data@.len() == 0 ==> r == Err::<usize, TreeError>(TreeError::MalformedNode),
            data@.len() >= 1 && data@[0] != TAG_INTERNAL && data@[0] != TAG_LEAF ==> r == Err::<
                usize,
                TreeError,
            >(TreeError::MalformedNode),
            r matches Ok(end) ==> end == node_end(data@) && node_decoded_from(*final(self), data@),
            r is Err ==> *final(self) == *old(self),
    {
        match NodeBox::unmarshal(data) {
            Ok((nb, end)) => {
                *self = nb;
                Ok(end)
            },
            Err(e) => Err(e),
        }
    }
}

/// The digest a node caches.
pub open spec fn node_hash(nb: NodeBox) -> Seq<u8> {
    match nb {
        NodeBox::Internal(n) => n.hash@,
        NodeBox::Leaf(l) => l.hash@,
    }
}

/// A node whose cached digests, its own and those it is computed from, are
/// fresh: what a clean node holds.
pub open spec fn node_fresh(nb: NodeBox) -> bool {
    match nb {
        NodeBox::Internal(n) => slot_fresh(*n.leaf_node) && n.hash@ == n.computed_hash(),
        NodeBox::Leaf(l) => {
            &&& l.value.hash@ == sha512_256_of(value_bytes(l.value.value))
            &&& l.hash@ == l.computed_hash()
        },
    }
}

/// A node that encodes and decodes back.
pub open spec fn node_round_trips(nb: NodeBox) -> bool {
    match nb {
        NodeBox::Internal(n) => internal_encodable(n),
        NodeBox::Leaf(l) => leaf_encodable(l),
    }
}

/// The encoding of a node decodes whole, to a node of the same kind whose
/// digest is the one recorded for the original when that was fresh: a node
/// evicted after a commit and fetched again from its bytes carries the digest
/// recorded before eviction.
pub proof fn lemma_node_encoding_decodes(nb: NodeBox)
    requires
        node_round_trips(nb),
    ensures
        node_ok(node_enc(nb)),
        node_end(node_enc(nb)) == node_enc(nb).len(),
        forall|d: NodeBox| #[trigger]
            node_decoded_from(d, node_enc(nb)) ==> (node_fresh(nb) ==> node_hash(d) == node_hash(
                nb,
            )),
{
    match nb {
        NodeBox::Internal(n) => {
            lemma_internal_encoding_decodes(n);
        },
        NodeBox::Leaf(l) => {
            lemma_leaf_encoding_decodes(l);
        },
    }
    assert forall|d: NodeBox| #[trigger] node_decoded_from(d, node_enc(nb)) && node_fresh(
        nb,
    ) implies node_hash(d) == node_hash(nb) by {
        lemma_refetch_keeps_hash(nb, d);
    }
}

/// The encoding of a node decodes whole, to a node of the same kind whose
/// digest is the one recorded for the original when that was fresh.
pub proof fn lemma_refetch_keeps_hash(nb: NodeBox, decoded: NodeBox)
    requires
        node_round_trips(nb),
        node_decoded_from(decoded, node_enc(nb)),
    ensures
        node_ok(node_enc(nb)),
        node_end(node_enc(nb)) == node_enc(nb).len(),
        node_fresh(nb) ==> node_hash(decoded) == node_hash(nb),
{
    match nb {
        NodeBox::Internal(n) => {
            assert(node_enc(nb)[0] == TAG_INTERNAL);
            match decoded {
                NodeBox::Internal(d) => {
                    lemma_internal_round_trip(n, d);
                },
                NodeBox::Leaf(_) => {},
            }
        },
        NodeBox::Leaf(l) => {
            assert(node_enc(nb)[0] == TAG_LEAF);
            match decoded {
                NodeBox::Leaf(d) => {
                    lemma_leaf_round_trip(l, d);
                },
                NodeBox::Internal(_) => {},
            }
        },
    }
}

} // verus!

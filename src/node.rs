//! Nodes, pointers and the hashes they commit to.
use vstd::prelude::*;

use crate::hash::{digest_bytes, empty_hash, empty_hash_spec, sha512_256_of, Digest};
use crate::ints::{push_u16, push_u64, u16_le, u64_le};

verus! {

/// Tag byte of a leaf node.
pub const TAG_LEAF: u8 = 0;

/// Tag byte of an internal node.
pub const TAG_INTERNAL: u8 = 1;

/// Tag byte of an absent node.
pub const TAG_NONE: u8 = 2;

/// Largest key length, in bytes, whose bit length fits the depth prefix.
pub const MAX_KEY_LEN: usize = 8191;

/// The kind of node a pointer leads to.
#[derive(Clone, Copy, Debug, PartialEq, Eq, Structural)]
pub enum NodeKind {
    Empty,
    Internal,
    Leaf,
}

impl NodeKind {
    pub open spec fn tag_spec(self) -> u8 {
        match self {
            NodeKind::Empty => TAG_NONE,
            NodeKind::Internal => TAG_INTERNAL,
            NodeKind::Leaf => TAG_LEAF,
        }
    }

    /// The tag byte of this kind.
    pub fn tag(&self) -> (r: u8)
        ensures
            r == self.tag_spec(),
    {
        match self {
            NodeKind::Empty => TAG_NONE,
            NodeKind::Internal => TAG_INTERNAL,
            NodeKind::Leaf => TAG_LEAF,
        }
    }
}

/// Raw value bytes with a cached digest of them.
#[derive(Debug)]
pub struct ValuePointer {
    pub clean: bool,
    pub hash: Digest,
    pub value: Option<Vec<u8>>,
}

/// The bytes a value holds; an absent value holds none.
pub open spec fn value_bytes(v: Option<Vec<u8>>) -> Seq<u8> {
    match v {
        Option::None => Seq::empty(),
        Option::Some(b) => b@,
    }
}

/// A depth-prefixed key: its length in bits, then its bytes.
pub open spec fn key_enc(k: Seq<u8>) -> Seq<u8> {
    u16_le((k.len() * 8) as u16) + k
}

/// The bytes a leaf's digest is taken over.
pub open spec fn leaf_hash_input(round: u64, key: Seq<u8>, value_hash: Seq<u8>) -> Seq<u8> {
    seq![TAG_LEAF] + u64_le(round) + key_enc(key) + value_hash
}

/// The digest of a leaf with the given fields.
pub open spec fn leaf_hash(round: u64, key: Seq<u8>, value: Seq<u8>) -> Seq<u8> {
    sha512_256_of(leaf_hash_input(round, key, sha512_256_of(value)))
}

/// The bytes an internal node's digest is taken over.
pub open spec fn internal_hash_input(
    round: u64,
    label_bit_length: u16,
    label: Seq<u8>,
    leaf_hash: Seq<u8>,
    left_hash: Seq<u8>,
    right_hash: Seq<u8>,
) -> Seq<u8> {
    seq![TAG_INTERNAL] + u64_le(round) + u16_le(label_bit_length) + label + leaf_hash + left_hash
        + right_hash
}

/// Number of label bytes for a bit length: `ceil(bits / 8)`.
pub open spec fn label_bytes(bits: u16) -> nat {
    ((bits as nat) + 7) / 8
}

impl ValuePointer {
    /// A clean pointer to the given value, with its digest.
    pub fn new(value: Option<Vec<u8>>) -> (r: ValuePointer)
        ensures
            r.value == value,
            r.clean,
            r.hash@ == sha512_256_of(value_bytes(value)),
    {
        let mut r = ValuePointer { clean: true, hash: [0u8; 32], value };
        r.update_hash();
        r
    }

    /// Recomputes the cached digest from the value bytes.
    pub fn update_hash(&mut self)
        ensures
            final(self).value == old(self).value,
            final(self).clean == old(self).clean,
            final(self).hash@ == sha512_256_of(value_bytes(old(self).value)),
    {
        match &self.value {
            Option::None => {
                let e: Vec<u8> = Vec::new();
                assert(e@ =~= Seq::<u8>::empty());
                self.hash = digest_bytes(e.as_slice());
            },
            Option::Some(v) => {
                self.hash = digest_bytes(v.as_slice());
            },
        }
    }
}

/// A leaf: a key with its value.
#[derive(Debug)]
pub struct LeafNode {
    pub clean: bool,
    pub hash: Digest,
    pub round: u64,
    pub key: Vec<u8>,
    pub value: ValuePointer,
}

impl LeafNode {
    /// Whether the key's bit length fits the depth prefix.
    pub open spec fn wf(&self) -> bool {
        self.key@.len() <= MAX_KEY_LEN
    }

    /// The digest of this leaf given its value's cached digest.
    pub open spec fn computed_hash(&self) -> Seq<u8> {
        sha512_256_of(leaf_hash_input(self.round, self.key@, self.value.hash@))
    }

    /// A dirty leaf whose value digest is computed and whose own digest is not.
    pub fn new(round: u64, key: Vec<u8>, value: Option<Vec<u8>>) -> (r: LeafNode)
        ensures
            !r.clean,
            r.round == round,
            r.key == key,
            r.value.value == value,
            r.value.clean,
            r.value.hash@ == sha512_256_of(value_bytes(value)),
    {
        LeafNode { clean: false, hash: [0u8; 32], round, key, value: ValuePointer::new(value) }
    }

    /// The bytes the digest is taken over.
    pub fn hash_input(&self) -> (r: Vec<u8>)
        requires
            self.wf(),
        ensures
            r@ == leaf_hash_input(self.round, self.key@, self.value.hash@),
    {
        let mut r: Vec<u8> = Vec::new();
        r.push(TAG_LEAF);
        push_u64(&mut r, self.round);
        push_u16(&mut r, (self.key.len() * 8) as u16);
        append_bytes(&mut r, self.key.as_slice());
        append_bytes(&mut r, &self.value.hash);
        r
    }

    /// Recomputes the cached digest from the fields and the value's digest.
    pub fn update_hash(&mut self)
        requires
            old(self).wf(),
        ensures
            final(self).clean == old(self).clean,
            final(self).round == old(self).round,
            final(self).key == old(self).key,
            final(self).value == old(self).value,
            final(self).hash@ == old(self).computed_hash(),
    {
        let input = self.hash_input();
        self.hash = digest_bytes(input.as_slice());
    }
}

/// An internal node: a radix label, an optional embedded leaf and two children.
#[derive(Debug)]
pub struct InternalNode {
    pub clean: bool,
    pub hash: Digest,
    pub round: u64,
    pub label: Vec<u8>,
    pub label_bit_length: u16,
    pub leaf_node: Box<NodePointer>,
    pub left: Box<NodePointer>,
    pub right: Box<NodePointer>,
}

/// A resolved node.
#[derive(Debug)]
pub enum NodeBox {
    Internal(InternalNode),
    Leaf(LeafNode),
}

/// An indirection cell: a clean flag, a cached digest and, when resolved, the node.
///
/// A pointer with no node is null when its digest is the empty-hash sentinel,
/// and unresolved otherwise.
#[derive(Debug)]
pub struct NodePointer {
    pub clean: bool,
    pub hash: Digest,
    pub node: Option<Box<NodeBox>>,
}

impl InternalNode {
    /// The digest of this node given the cached digests of its three slots.
    pub open spec fn computed_hash(&self) -> Seq<u8> {
        sha512_256_of(
            internal_hash_input(
                self.round,
                self.label_bit_length,
                self.label@,
                self.leaf_node.hash@,
                self.left.hash@,
                self.right.hash@,
            ),
        )
    }

    /// The bytes the digest is taken over.
    pub fn hash_input(&self) -> (r: Vec<u8>)
        ensures
            r@ == internal_hash_input(
                self.round,
                self.label_bit_length,
                self.label@,
                self.leaf_node.hash@,
                self.left.hash@,
                self.right.hash@,
            ),
    {
        let mut r: Vec<u8> = Vec::new();
        r.push(TAG_INTERNAL);
        push_u64(&mut r, self.round);
        push_u16(&mut r, self.label_bit_length);
        append_bytes(&mut r, self.label.as_slice());
        append_bytes(&mut r, &self.leaf_node.hash);
        append_bytes(&mut r, &self.left.hash);
        append_bytes(&mut r, &self.right.hash);
        r
    }

    /// Recomputes the cached digest from the fields and the slots' digests.
    pub fn update_hash(&mut self)
        ensures
            final(self).clean == old(self).clean,
            final(self).round == old(self).round,
            final(self).label == old(self).label,
            final(self).label_bit_length == old(self).label_bit_length,
            final(self).leaf_node == old(self).leaf_node,
            final(self).left == old(self).left,
            final(self).right == old(self).right,
            final(self).hash@ == old(self).computed_hash(),
    {
        let input = self.hash_input();
        self.hash = digest_bytes(input.as_slice());
    }
}

/// Appends `b` to `out`.
pub fn append_bytes(out: &mut Vec<u8>, b: &[u8])
    ensures
        final(out)@ == old(out)@ + b@,
{
    let ghost start = out@;
    let mut i: usize = 0;
    while i < b.len()
        invariant
            i <= b@.len(),
            out@ == start + b@.subrange(0, i as int),
        decreases b@.len() - i,
    {
        out.push(b[i]);
        i = i + 1;
        assert(b@.subrange(0, i as int) =~= b@.subrange(0, i - 1).push(b@[i - 1]));
    }
    assert(b@.subrange(0, b@.len() as int) =~= b@);
}

impl NodePointer {
    /// A null pointer: clean, no node, the empty-hash sentinel.
    pub fn null_ptr() -> (r: NodePointer)
        ensures
            r.is_null_spec(),
    {
        NodePointer { clean: true, hash: empty_hash(), node: Option::None }
    }

    /// A clean unresolved pointer with a known digest.
    pub fn unresolved(hash: Digest) -> (r: NodePointer)
        ensures
            r.clean,
            r.hash == hash,
            r.node is None,
    {
        NodePointer { clean: true, hash, node: Option::None }
    }

    /// A dirty pointer to a node.
    pub fn dirty(node: NodeBox) -> (r: NodePointer)
        ensures
            !r.clean,
            r.node == Some(Box::new(node)),
    {
        NodePointer { clean: false, hash: [0u8; 32], node: Option::Some(Box::new(node)) }
    }

    pub open spec fn is_null_spec(&self) -> bool {
        &&& self.clean
        &&& self.node is None
        &&& self.hash@ == empty_hash_spec()
    }

    /// Whether no node is held and the digest is the empty-hash sentinel.
    pub fn is_null(&self) -> (r: bool)
        ensures
            r == (self.node is None && self.hash@ == empty_hash_spec()),
    {
        self.node.is_none() && crate::hash::is_empty_hash(&self.hash)
    }

    pub open spec fn kind_spec(&self) -> NodeKind {
        match self.node {
            Option::None => NodeKind::Empty,
            Option::Some(b) => match *b {
                NodeBox::Internal(_) => NodeKind::Internal,
                NodeBox::Leaf(_) => NodeKind::Leaf,
            },
        }
    }

    /// The kind of the held node; a pointer with no node classifies as empty.
    pub fn kind(&self) -> (r: NodeKind)
        ensures
            r == self.kind_spec(),
    {
        match &self.node {
            Option::None => NodeKind::Empty,
            Option::Some(b) => match &**b {
                NodeBox::Internal(_) => NodeKind::Internal,
                NodeBox::Leaf(_) => NodeKind::Leaf,
            },
        }
    }
}

} // verus!

use mkvs::codec::TreeError;
use mkvs::hash::{digest_bytes, empty_hash};
use mkvs::node::{InternalNode, LeafNode, NodeBox, NodeKind, NodePointer, ValuePointer};

fn leaf(round: u64, key: &[u8], value: &[u8]) -> LeafNode {
    let mut l = LeafNode::new(round, key.to_vec(), Some(value.to_vec()));
    l.update_hash();
    l.clean = true;
    l
}

fn leaf_ptr(l: LeafNode) -> NodePointer {
    NodePointer { clean: true, hash: l.hash, node: Some(Box::new(NodeBox::Leaf(l))) }
}

fn sample_internal(with_leaf: bool) -> InternalNode {
    let slot = if with_leaf { leaf_ptr(leaf(5, b"ab", b"v")) } else { NodePointer::null_ptr() };
    let mut n = InternalNode {
        clean: true,
        hash: [0u8; 32],
        round: 9,
        label: vec![0xa5, 0x80],
        label_bit_length: 9,
        leaf_node: Box::new(slot),
        left: Box::new(NodePointer::unresolved(digest_bytes(b"left"))),
        right: Box::new(NodePointer::null_ptr()),
    };
    n.update_hash();
    n
}

#[test]
fn leaf_encoding_layout() {
    let l = leaf(3, b"abc", b"xyz");
    let enc = l.marshal_binary();
    let expected: Vec<u8> = vec![
        0, 3, 0, 0, 0, 0, 0, 0, 0, 24, 0, b'a', b'b', b'c', 3, 0, 0, 0, b'x', b'y', b'z',
    ];
    assert_eq!(enc, expected);
}

#[test]
fn leaf_round_trip() {
    let l = leaf(3, b"abc", b"xyz");
    let enc = l.marshal_binary();
    let mut d = LeafNode::new(0, Vec::new(), None);
    assert_eq!(d.unmarshal_binary(&enc), Ok(enc.len()));
    assert_eq!(d.round, 3);
    assert_eq!(d.key, b"abc".to_vec());
    assert_eq!(d.value.value, Some(b"xyz".to_vec()));
    assert!(d.clean);
    assert_eq!(d.hash, l.hash);
    assert_eq!(d.value.hash, digest_bytes(b"xyz"));
}

#[test]
fn leaf_hash_covers_fields() {
    let a = leaf(3, b"abc", b"xyz");
    let b = leaf(4, b"abc", b"xyz");
    let c = leaf(3, b"abd", b"xyz");
    let d = leaf(3, b"abc", b"xyw");
    assert_ne!(a.hash, b.hash);
    assert_ne!(a.hash, c.hash);
    assert_ne!(a.hash, d.hash);
    let mut input = vec![0u8, 3, 0, 0, 0, 0, 0, 0, 0, 24, 0, b'a', b'b', b'c'];
    input.extend_from_slice(&digest_bytes(b"xyz"));
    assert_eq!(a.hash, digest_bytes(&input));
}

#[test]
fn empty_value_decodes_as_absent() {
    let l = leaf(1, b"k", b"");
    let enc = l.marshal_binary();
    let (d, n) = LeafNode::unmarshal_at(&enc, 0).unwrap();
    assert_eq!(n, enc.len());
    assert_eq!(d.value.value, None);
    assert_eq!(d.hash, l.hash);
}

#[test]
fn internal_round_trip_with_leaf() {
    let n = sample_internal(true);
    let enc = n.marshal_binary();
    let (d, end) = InternalNode::unmarshal(&enc).unwrap();
    assert_eq!(end, enc.len());
    assert!(d.clean);
    assert_eq!(d.round, 9);
    assert_eq!(d.label, vec![0xa5, 0x80]);
    assert_eq!(d.label_bit_length, 9);
    assert_eq!(d.left.hash, digest_bytes(b"left"));
    assert!(d.left.node.is_none());
    assert!(d.right.is_null());
    assert_eq!(d.leaf_node.hash, n.leaf_node.hash);
    match d.leaf_node.node.as_deref() {
        Some(NodeBox::Leaf(l)) => {
            assert_eq!(l.key, b"ab".to_vec());
            assert_eq!(l.round, 5);
        }
        _ => panic!("embedded leaf lost"),
    }
    assert_eq!(d.hash, n.hash);
}

#[test]
fn internal_round_trip_without_leaf() {
    let n = sample_internal(false);
    let enc = n.marshal_binary();
    assert_eq!(enc.len(), 1 + 8 + 2 + 2 + 1 + 64);
    assert_eq!(enc[13], 2);
    let mut d = NodeBox::Leaf(LeafNode::new(0, Vec::new(), None));
    assert_eq!(d.unmarshal_binary(&enc), Ok(enc.len()));
    match d {
        NodeBox::Internal(i) => {
            assert!(i.leaf_node.is_null());
            assert_eq!(i.hash, n.hash);
        }
        _ => panic!("wrong kind"),
    }
}

#[test]
fn internal_compact_form() {
    let n = sample_internal(false);
    let mut enc = n.marshal_binary();
    enc.truncate(enc.len() - 64);
    let (d, end) = InternalNode::unmarshal(&enc).unwrap();
    assert_eq!(end, enc.len());
    assert!(!d.clean);
    assert!(d.left.is_null());
    assert!(d.right.is_null());
    // One byte short of the full form still reads as compact.
    let mut full = n.marshal_binary();
    full.pop();
    let (d, end) = InternalNode::unmarshal(&full).unwrap();
    assert_eq!(end, full.len() - 63);
    assert!(!d.clean);
}

#[test]
fn malformed_empty_buffer() {
    assert_eq!(NodeBox::unmarshal(&[]).err(), Some(TreeError::MalformedNode));
    assert_eq!(LeafNode::unmarshal_at(&[], 0).err(), Some(TreeError::MalformedNode));
    assert_eq!(InternalNode::unmarshal(&[]).err(), Some(TreeError::MalformedNode));
    let mut k = NodeKind::Leaf;
    assert_eq!(k.unmarshal_binary(&[]), Err(TreeError::MalformedNode));
    assert_eq!(k, NodeKind::Leaf);
}

#[test]
fn malformed_tag() {
    let mut enc = leaf(3, b"abc", b"xyz").marshal_binary();
    enc[0] = 0xff;
    assert_eq!(NodeBox::unmarshal(&enc).err(), Some(TreeError::MalformedNode));
    assert_eq!(LeafNode::unmarshal_at(&enc, 0).err(), Some(TreeError::MalformedNode));
    assert_eq!(InternalNode::unmarshal(&enc).err(), Some(TreeError::MalformedNode));
    let mut k = NodeKind::Leaf;
    assert_eq!(k.unmarshal_binary(&enc), Err(TreeError::MalformedNode));
    assert_eq!(k.unmarshal_binary(&[2u8]), Ok(1));
    assert_eq!(k, NodeKind::Empty);
    let none_tag = [2u8; 20];
    assert_eq!(NodeBox::unmarshal(&none_tag).err(), Some(TreeError::MalformedNode));
}

#[test]
fn malformed_key_too_long() {
    let mut enc = vec![0u8, 3, 0, 0, 0, 0, 0, 0, 0];
    enc.extend_from_slice(&[80, 0]);
    enc.extend_from_slice(b"abc");
    assert_eq!(LeafNode::unmarshal_at(&enc, 0).err(), Some(TreeError::MalformedKey));
    assert_eq!(NodeBox::unmarshal(&enc).err(), Some(TreeError::MalformedKey));
    let mut l = leaf(1, b"x", b"y");
    let before = l.hash;
    assert_eq!(l.unmarshal_binary(&enc), Err(TreeError::MalformedKey));
    assert_eq!(l.hash, before);
    assert_eq!(l.key, b"x".to_vec());
}

#[test]
fn malformed_truncated() {
    let enc = leaf(3, b"abc", b"xyz").marshal_binary();
    for cut in 0..enc.len() {
        assert!(NodeBox::unmarshal(&enc[..cut]).is_err());
    }
    let enc = sample_internal(true).marshal_binary();
    let compact = enc.len() - 64;
    for cut in 0..compact {
        assert!(NodeBox::unmarshal(&enc[..cut]).is_err());
    }
}

#[test]
fn key_and_value_encodings() {
    assert_eq!(mkvs::codec::marshal_key(b"ab"), vec![16, 0, b'a', b'b']);
    let v = ValuePointer::new(None);
    assert_eq!(mkvs::codec::marshal_value(&v), vec![0, 0, 0, 0]);
    assert_eq!(v.hash, empty_hash());
    let v = ValuePointer::new(Some(vec![7, 8]));
    assert_eq!(mkvs::codec::marshal_value(&v), vec![2, 0, 0, 0, 7, 8]);
    assert_eq!(NodeKind::Internal.marshal_binary(), vec![1]);
    assert_eq!(mkvs::codec::unmarshal_key(&[16, 0, b'a', b'b', 9], 0), Ok((b"ab".to_vec(), 4)));
    assert_eq!(mkvs::codec::unmarshal_key(&[12, 0, b'a', b'b'], 0), Err(TreeError::MalformedKey));
    assert_eq!(mkvs::codec::unmarshal_key(&[16], 0), Err(TreeError::MalformedKey));
    let (v, end) = mkvs::codec::unmarshal_value(&[1, 0, 0, 0, 5, 6], 0).unwrap();
    assert_eq!((v.value, end), (Some(vec![5]), 5));
    assert!(mkvs::codec::unmarshal_value(&[2, 0, 0, 0, 5], 0).is_err());
}

#[test]
fn empty_hash_is_digest_of_nothing() {
    let expected: [u8; 32] = [
        0xc6, 0x72, 0xb8, 0xd1, 0xef, 0x56, 0xed, 0x28, 0xab, 0x87, 0xc3, 0x62, 0x2c, 0x51, 0x14,
        0x06, 0x9b, 0xdd, 0x3a, 0xd7, 0xb8, 0xf9, 0x73, 0x74, 0x98, 0xd0, 0xc0, 0x1e, 0xce, 0xf0,
        0x96, 0x7a,
    ];
    assert_eq!(empty_hash(), expected);
    assert!(mkvs::hash::is_empty_hash(&expected));
    assert!(!mkvs::hash::is_empty_hash(&digest_bytes(b"a")));
}

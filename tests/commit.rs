use mkvs::commit::{commit_pointer, Update, STEP_LEFT, STEP_RIGHT};
use mkvs::context::StorageContext;
use mkvs::hash::{digest_bytes, empty_hash};
use mkvs::node::{InternalNode, LeafNode, NodeBox, NodePointer, ValuePointer};
use mkvs::tree::{EvictError, Root, RootType, Tree};

fn dirty_leaf(round: u64, key: &[u8], value: &[u8]) -> NodePointer {
    NodePointer::dirty(NodeBox::Leaf(LeafNode::new(round, key.to_vec(), Some(value.to_vec()))))
}

fn dirty_internal(round: u64, left: NodePointer, right: NodePointer) -> NodePointer {
    NodePointer::dirty(NodeBox::Internal(InternalNode {
        clean: false,
        hash: [0u8; 32],
        round,
        label: vec![0x80],
        label_bit_length: 1,
        leaf_node: Box::new(NodePointer::null_ptr()),
        left: Box::new(left),
        right: Box::new(right),
    }))
}

fn sample_root() -> NodePointer {
    dirty_internal(1, dirty_leaf(1, b"a", b"1"), dirty_leaf(1, b"b", b"2"))
}

fn genesis() -> Root {
    Root { namespace: [7u8; 32], version: 0, root_type: RootType::State, hash: empty_hash() }
}

fn internal(p: &NodePointer) -> &InternalNode {
    match p.node.as_deref() {
        Some(NodeBox::Internal(n)) => n,
        _ => panic!("not an internal node"),
    }
}

fn leaf(p: &NodePointer) -> &LeafNode {
    match p.node.as_deref() {
        Some(NodeBox::Leaf(l)) => l,
        _ => panic!("not a leaf"),
    }
}

fn expected_leaf_hash(round: u64, key: &[u8], value: &[u8]) -> [u8; 32] {
    let mut l = LeafNode::new(round, key.to_vec(), Some(value.to_vec()));
    l.update_hash();
    l.hash
}

fn expected_root_hash(left: [u8; 32], right: [u8; 32]) -> [u8; 32] {
    let mut input = vec![1u8, 1, 0, 0, 0, 0, 0, 0, 0, 1, 0, 0x80];
    input.extend_from_slice(&empty_hash());
    input.extend_from_slice(&left);
    input.extend_from_slice(&right);
    digest_bytes(&input)
}

#[test]
fn commit_computes_root_hash() {
    let mut tree = Tree::new(sample_root(), genesis());
    let h = tree.commit([9u8; 32], 4);
    let l = expected_leaf_hash(1, b"a", b"1");
    let r = expected_leaf_hash(1, b"b", b"2");
    assert_eq!(h, expected_root_hash(l, r));
    let root = &tree.cache.pending_root;
    assert!(root.clean);
    assert_eq!(root.hash, h);
    let n = internal(root);
    assert!(n.clean);
    assert_eq!(n.hash, h);
    assert!(n.left.clean && n.right.clean);
    assert!(leaf(&n.left).clean);
    assert_eq!(n.left.hash, l);
    assert_eq!(tree.cache.sync_root.hash, h);
    assert_eq!(tree.cache.sync_root.version, 4);
    assert_eq!(tree.cache.sync_root.namespace, [9u8; 32]);
    assert_eq!(tree.cache.sync_root.root_type, RootType::State);
    assert_eq!(tree.cache.evictable.len(), 3);
}

#[test]
fn commit_is_idempotent() {
    let mut tree = Tree::new(sample_root(), genesis());
    let h1 = tree.commit([0u8; 32], 1);
    let evictable = tree.cache.evictable.len();
    let h2 = tree.commit([0u8; 32], 2);
    assert_eq!(h1, h2);
    assert_eq!(tree.cache.evictable.len(), evictable);
    let mut path = Vec::new();
    let mut updates = Vec::new();
    let root = std::mem::replace(&mut tree.cache.pending_root, NodePointer::null_ptr());
    let (_, h3) = commit_pointer(root, &mut path, &mut updates);
    assert_eq!(h3, h1);
    assert!(updates.is_empty());
}

#[test]
fn commit_update_order() {
    let mut path = Vec::new();
    let mut updates = Vec::new();
    let (_, _) = commit_pointer(sample_root(), &mut path, &mut updates);
    let shape: Vec<(bool, Vec<u8>)> = updates
        .iter()
        .map(|u| match u {
            Update::MarkNodeClean(p) => (false, p.clone()),
            Update::MarkPointerClean(p) => (true, p.clone()),
        })
        .collect();
    assert_eq!(
        shape,
        vec![
            (false, vec![1]),
            (true, vec![1]),
            (false, vec![2]),
            (true, vec![2]),
            (false, vec![]),
            (true, vec![]),
        ]
    );
}

#[test]
fn commit_locality() {
    let mut tree = Tree::new(sample_root(), genesis());
    tree.commit([0u8; 32], 1);
    let left_before = internal(&tree.cache.pending_root).left.hash;
    let right_before = internal(&tree.cache.pending_root).right.hash;
    // Change the right leaf's value and mark the path to it dirty.
    {
        let root = &mut tree.cache.pending_root;
        root.clean = false;
        match root.node.as_deref_mut() {
            Some(NodeBox::Internal(n)) => {
                n.clean = false;
                n.right.clean = false;
                match n.right.node.as_deref_mut() {
                    Some(NodeBox::Leaf(l)) => {
                        l.clean = false;
                        l.value = ValuePointer::new(Some(b"3".to_vec()));
                    }
                    _ => panic!("not a leaf"),
                }
            }
            _ => panic!("not an internal node"),
        }
    }
    let root = std::mem::replace(&mut tree.cache.pending_root, NodePointer::null_ptr());
    let mut path = Vec::new();
    let mut updates = Vec::new();
    let (root, h) = commit_pointer(root, &mut path, &mut updates);
    // Two recomputed digests (the leaf and the root), two dirty pointers.
    let recomputed = updates.iter().filter(|u| matches!(u, Update::MarkNodeClean(_))).count();
    assert_eq!(recomputed, 2);
    assert_eq!(updates.len(), 4);
    assert_eq!(internal(&root).left.hash, left_before);
    let r = expected_leaf_hash(1, b"b", b"3");
    assert_ne!(r, right_before);
    assert_eq!(internal(&root).right.hash, r);
    assert_eq!(h, expected_root_hash(left_before, r));
}

#[test]
fn commit_deterministic() {
    let mut a = Tree::new(sample_root(), genesis());
    let mut other = dirty_internal(1, dirty_leaf(1, b"a", b"1"), dirty_leaf(1, b"b", b"2"));
    other.hash = [0xee; 32];
    let mut b = Tree::new(other, genesis());
    assert_eq!(a.commit([1u8; 32], 1), b.commit([2u8; 32], 8));
}

#[test]
fn commit_null_pointer() {
    let mut path = Vec::new();
    let mut updates = Vec::new();
    let (p, h) = commit_pointer(NodePointer::null_ptr(), &mut path, &mut updates);
    assert_eq!(h, empty_hash());
    assert!(updates.is_empty());
    assert!(p.is_null());
    let mut tree = Tree::new(NodePointer::null_ptr(), genesis());
    assert_eq!(tree.commit([0u8; 32], 1), empty_hash());
    let dirty_none = NodePointer { clean: false, hash: empty_hash(), node: None };
    let (_, h) = commit_pointer(dirty_none, &mut path, &mut updates);
    assert_eq!(h, empty_hash());
    assert_eq!(updates.len(), 1);
}

#[test]
fn eviction_keeps_hash() {
    let mut tree = Tree::new(sample_root(), genesis());
    let h = tree.commit([0u8; 32], 1);
    let bytes = match internal(&tree.cache.pending_root).left.node.as_deref() {
        Some(n) => n.marshal_binary(),
        None => panic!("left not resolved"),
    };
    let recorded = internal(&tree.cache.pending_root).left.hash;
    assert_eq!(tree.cache.evict(&vec![STEP_LEFT]), Ok(()));
    let left = &internal(&tree.cache.pending_root).left;
    assert!(left.node.is_none());
    assert!(left.clean);
    assert_eq!(left.hash, recorded);
    assert_eq!(tree.cache.pending_root.hash, h);
    assert_eq!(tree.cache.evict(&vec![STEP_LEFT]), Err(EvictError::NotResolved));
    let (fetched, _) = NodeBox::unmarshal(&bytes).unwrap();
    match fetched {
        NodeBox::Leaf(l) => assert_eq!(l.hash, recorded),
        _ => panic!("wrong kind"),
    }
    assert_eq!(tree.commit([0u8; 32], 2), h);
}

#[test]
fn eviction_rejects_dirty() {
    let mut tree = Tree::new(sample_root(), genesis());
    assert_eq!(tree.cache.evict(&vec![STEP_RIGHT]), Err(EvictError::Dirty));
    assert_eq!(tree.cache.evict(&vec![STEP_RIGHT, STEP_LEFT]), Err(EvictError::NotFound));
    assert_eq!(tree.cache.evict(&vec![7]), Err(EvictError::NotFound));
    assert!(leaf(&internal(&tree.cache.pending_root).right).key == b"b".to_vec());
}

#[test]
fn context_lends_store() {
    let mut ctx = StorageContext::new();
    let tree = Tree::new(sample_root(), genesis());
    let (tree, h) = ctx.enter(tree, |mut t: Tree| {
        let h = t.commit([0u8; 32], 1);
        (t, h)
    });
    assert_eq!(tree.cache.pending_root.hash, h);
    let (_, n) = ctx.enter(5u32, |x| (x, x + 1));
    assert_eq!(n, 6);
}

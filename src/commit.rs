//! Committing a tree: recomputing the digests of its dirty part bottom-up,
//! then applying the deferred bookkeeping.
use vstd::prelude::*;

use crate::hash::{empty_hash, empty_hash_spec, sha512_256_of, Digest};
use crate::node::{internal_hash_input, value_bytes, InternalNode, LeafNode, NodeBox, NodePointer};

verus! {

/// Path step into an internal node's embedded-leaf slot.
pub const STEP_LEAF: u8 = 0;

/// Path step into an internal node's left child.
pub const STEP_LEFT: u8 = 1;

/// Path step into an internal node's right child.
pub const STEP_RIGHT: u8 = 2;

/// The digest that committing `p` yields: a clean pointer keeps its digest, a
/// dirty pointer without a node is empty, and a dirty pointer to a node takes
/// the node's digest, recomputed from its children unless the node is clean.
pub open spec fn commit_hash(p: NodePointer) -> Seq<u8>
    decreases p,
{
    if p.clean {
        p.hash@
    } else {
        match p.node {
            Option::None => empty_hash_spec(),
            Option::Some(b) => match *b {
                NodeBox::Leaf(l) => if l.clean {
                    l.hash@
                } else {
                    l.computed_hash()
                },
                NodeBox::Internal(n) => if n.clean {
                    n.hash@
                } else {
                    sha512_256_of(
                        internal_hash_input(
                            n.round,
                            n.label_bit_length,
                            n.label@,
                            commit_hash(*n.leaf_node),
                            commit_hash(*n.left),
                            commit_hash(*n.right),
                        ),
                    )
                },
            },
        }
    }
}

/// What a deferred update says, over plain values.
pub enum UpdateView {
    NodeClean(Seq<u8>),
    PointerClean(Seq<u8>),
}

/// The updates that committing `p`, found at `path`, gathers, in order: those
/// of the embedded-leaf slot, the left child and the right child, then the
/// marking of a recomputed node, then the marking of the pointer itself.
pub open spec fn commit_updates(p: NodePointer, path: Seq<u8>) -> Seq<UpdateView>
    decreases p,
{
    if p.clean {
        Seq::empty()
    } else {
        match p.node {
            Option::None => seq![UpdateView::PointerClean(path)],
            Option::Some(b) => match *b {
                NodeBox::Leaf(l) => if l.clean {
                    seq![UpdateView::PointerClean(path)]
                } else {
                    seq![UpdateView::NodeClean(path), UpdateView::PointerClean(path)]
                },
                NodeBox::Internal(n) => if n.clean {
                    seq![UpdateView::PointerClean(path)]
                } else {
                    commit_updates(*n.leaf_node, path.push(STEP_LEAF)) + commit_updates(
                        *n.left,
                        path.push(STEP_LEFT),
                    ) + commit_updates(*n.right, path.push(STEP_RIGHT)) + seq![
                        UpdateView::NodeClean(path),
                        UpdateView::PointerClean(path),
                    ]
                },
            },
        }
    }
}

/// `r` is `p` after the hashing pass of a commit: a clean pointer is kept
/// as it is; a dirty one keeps its clean flag and takes its commit digest,
/// and so does its node, whose fields are kept and whose slots are committed
/// in turn. A clean node is kept as it is.
pub open spec fn is_committed(r: NodePointer, p: NodePointer) -> bool
    decreases p,
{
    if p.clean {
        r == p
    } else {
        &&& !r.clean
        &&& r.hash@ == commit_hash(p)
        &&& match p.node {
            Option::None => r.node is None,
            Option::Some(b) => r.node is Some && match (*b, *r.node.unwrap()) {
                (NodeBox::Leaf(l), NodeBox::Leaf(m)) => {
                    &&& m.clean == l.clean
                    &&& m.round == l.round
                    &&& m.key == l.key
                    &&& m.value == l.value
                    &&& m.hash@ == r.hash@
                    &&& l.clean ==> m == l
                },
                (NodeBox::Internal(n), NodeBox::Internal(m)) => if n.clean {
                    m == n
                } else {
                    &&& !m.clean
                    &&& m.round == n.round
                    &&& m.label == n.label
                    &&& m.label_bit_length == n.label_bit_length
                    &&& m.hash@ == r.hash@
                    &&& is_committed(*m.leaf_node, *n.leaf_node)
                    &&& is_committed(*m.left, *n.left)
                    &&& is_committed(*m.right, *n.right)
                },
                _ => false,
            },
        }
    }
}

/// Every dirty pointer under `p` is resolved or null, and every dirty leaf
/// has a key whose bit length fits the depth prefix. A dirty unresolved
/// pointer cannot be committed.
pub open spec fn commit_ready(p: NodePointer) -> bool
    decreases p,
{
    if p.clean {
        true
    } else {
        match p.node {
            Option::None => p.hash@ == empty_hash_spec(),
            Option::Some(b) => match *b {
                NodeBox::Leaf(l) => l.clean || l.wf(),
                NodeBox::Internal(n) => n.clean || (commit_ready(*n.leaf_node) && commit_ready(
                    *n.left,
                ) && commit_ready(*n.right)),
            },
        }
    }
}

/// A deferred bookkeeping action, addressed by the path of steps from the root.
#[derive(Debug)]
pub enum Update {
    /// Mark the node under the pointer at the path clean.
    MarkNodeClean(Vec<u8>),
    /// Mark the pointer at the path clean and make it eligible for eviction.
    MarkPointerClean(Vec<u8>),
}

impl Update {
    /// Whether this marks the pointer at `path` clean.
    pub open spec fn marks_pointer_at(self, path: Seq<u8>) -> bool {
        self matches Update::MarkPointerClean(q) && q@ == path
    }

    /// The action this update makes.
    pub open spec fn action(self) -> Action {
        match self {
            Update::MarkNodeClean(_) => Action::MarkNodeClean,
            Update::MarkPointerClean(_) => Action::MarkPointerClean,
        }
    }

    /// What this update says, over plain values.
    pub open spec fn view(self) -> UpdateView {
        match self {
            Update::MarkNodeClean(p) => UpdateView::NodeClean(p@),
            Update::MarkPointerClean(p) => UpdateView::PointerClean(p@),
        }
    }

    pub open spec fn path(self) -> Seq<u8> {
        match self {
            Update::MarkNodeClean(p) => p@,
            Update::MarkPointerClean(p) => p@,
        }
    }
}

/// What a sequence of updates says.
pub open spec fn updates_view(s: Seq<Update>) -> Seq<UpdateView> {
    s.map_values(|u: Update| u.view())
}

proof fn lemma_updates_view_push(s: Seq<Update>, u: Update)
    ensures
        updates_view(s.push(u)) == updates_view(s).push(u.view()),
{
    assert(updates_view(s.push(u)) =~= updates_view(s).push(u.view()));
}

/// Copies a path.
pub(crate) fn copy_path(path: &Vec<u8>) -> (r: Vec<u8>)
    ensures
        r@ == path@,
{
    let mut r: Vec<u8> = Vec::new();
    let mut i: usize = 0;
    while i < path.len()
        invariant
            i <= path@.len(),
            r@ == path@.subrange(0, i as int),
        decreases path@.len() - i,
    {
        r.push(path[i]);
        i = i + 1;
        assert(path@.subrange(0, i as int) =~= path@.subrange(0, i - 1).push(path@[i - 1]));
    }
    assert(path@.subrange(0, path@.len() as int) =~= path@);
    r
}

/// Commits the subtree under `ptr`, found at `path`: recomputes the digests of
/// its dirty nodes and pointers bottom-up, in the order embedded leaf, left,
/// right, and appends the bookkeeping to `updates`. A clean pointer is returned
/// as it is, with nothing appended.
pub fn commit_pointer(ptr: NodePointer, path: &mut Vec<u8>, updates: &mut Vec<Update>) -> (r: (
    NodePointer,
    Digest,
))
    requires
        commit_ready(ptr),
    ensures
        r.1@ == commit_hash(ptr),
        r.0.hash == r.1,
        is_committed(r.0, ptr),
        final(path)@ == old(path)@,
        updates_view(final(updates)@) == updates_view(old(updates)@) + commit_updates(
            ptr,
            old(path)@,
        ),
        final(updates)@.subrange(0, old(updates)@.len() as int) == old(updates)@,
        !ptr.clean ==> final(updates)@.len() > old(updates)@.len()
            && final(updates)@.last().marks_pointer_at(old(path)@),
    decreases ptr,
{
    if ptr.clean {
        let h = ptr.hash;
        proof {
            assert(updates@.subrange(0, updates@.len() as int) =~= updates@);
            assert(updates_view(updates@) + Seq::<UpdateView>::empty() =~= updates_view(updates@));
        }
        return (ptr, h);
    }
    let NodePointer { clean, hash: _, node } = ptr;
    let ghost start = updates@;
    let ghost p0 = path@;
    let h: Digest;
    let new_node: Option<Box<NodeBox>>;
    match node {
        Option::None => {
            h = empty_hash();
            new_node = Option::None;
        },
        Option::Some(b) => {
            match *b {
                NodeBox::Leaf(mut l) => {
                    if !l.clean {
                        l.update_hash();
                        let u = Update::MarkNodeClean(copy_path(path));
                        proof {
                            lemma_updates_view_push(updates@, u);
                        }
                        updates.push(u);
                    }
                    h = l.hash;
                    new_node = Option::Some(Box::new(NodeBox::Leaf(l)));
                },
                NodeBox::Internal(n) => {
                    if n.clean {
                        h = n.hash;
                        new_node = Option::Some(Box::new(NodeBox::Internal(n)));
                    } else {
                        let ghost leaf_node_old = n.leaf_node;
                        let ghost left_old = n.left;
                        let ghost right_old = n.right;
                        let InternalNode {
                            clean: nclean,
                            hash: nhash,
                            round,
                            label,
                            label_bit_length,
                            leaf_node,
                            left,
                            right,
                        } = n;
                        path.push(STEP_LEAF);
                        let (leaf_node, _) = commit_pointer(*leaf_node, path, updates);
                        path.pop();
                        proof {
                            assert(path@ =~= p0);
                        }
                        let ghost u1 = updates@;
                        path.push(STEP_LEFT);
                        let (left, _) = commit_pointer(*left, path, updates);
                        path.pop();
                        proof {
                            assert(path@ =~= p0);
                        }
                        let ghost u2 = updates@;
                        path.push(STEP_RIGHT);
                        let (right, _) = commit_pointer(*right, path, updates);
                        path.pop();
                        proof {
                            assert(path@ =~= p0);
                        }
                        let ghost u3 = updates@;
                        proof {
                            assert(u1.len() == updates_view(u1).len());
                            assert(u2.len() == updates_view(u2).len());
                            assert(u3.len() == updates_view(u3).len());
                            assert(start.len() == updates_view(start).len());
                            assert forall|k: int| 0 <= k < start.len() implies #[trigger] u3[k]
                                == start[k] by {
                                assert(u3[k] == u3.subrange(0, u2.len() as int)[k]);
                                assert(u2[k] == u2.subrange(0, u1.len() as int)[k]);
                                assert(u1[k] == u1.subrange(0, start.len() as int)[k]);
                            }
                            assert(u3.subrange(0, start.len() as int) =~= start);
                            assert(updates_view(u3) =~= updates_view(start) + commit_updates(
                                *leaf_node_old,
                                p0.push(STEP_LEAF),
                            ) + commit_updates(*left_old, p0.push(STEP_LEFT)) + commit_updates(
                                *right_old,
                                p0.push(STEP_RIGHT),
                            ));
                        }
                        let mut m = InternalNode {
                            clean: nclean,
                            hash: nhash,
                            round,
                            label,
                            label_bit_length,
                            leaf_node: Box::new(leaf_node),
                            left: Box::new(left),
                            right: Box::new(right),
                        };
                        m.update_hash();
                        let u = Update::MarkNodeClean(copy_path(path));
                        proof {
                            lemma_updates_view_push(updates@, u);
                        }
                        updates.push(u);
                        h = m.hash;
                        new_node = Option::Some(Box::new(NodeBox::Internal(m)));
                    }
                },
            }
        },
    }
    let u = Update::MarkPointerClean(copy_path(path));
    proof {
        lemma_updates_view_push(updates@, u);
    }
    updates.push(u);
    proof {
        assert(updates@.subrange(0, start.len() as int) =~= start);
        assert(updates_view(updates@) =~= updates_view(start) + commit_updates(ptr, p0));
    }
    (NodePointer { clean, hash: h, node: new_node }, h)
}

/// The child of an internal node that a path step leads to.
pub open spec fn child_at(n: InternalNode, step: u8) -> Option<NodePointer> {
    if step == STEP_LEAF {
        Option::Some(*n.leaf_node)
    } else if step == STEP_LEFT {
        Option::Some(*n.left)
    } else if step == STEP_RIGHT {
        Option::Some(*n.right)
    } else {
        Option::None
    }
}

/// The pointer that `path` leads to from `p`, through resolved internal nodes.
pub open spec fn ptr_at(p: NodePointer, path: Seq<u8>) -> Option<NodePointer>
    decreases path.len(),
{
    if path.len() == 0 {
        Option::Some(p)
    } else {
        match p.node {
            Option::Some(b) => match *b {
                NodeBox::Internal(n) => match child_at(n, path[0]) {
                    Option::Some(c) => ptr_at(c, path.drop_first()),
                    Option::None => Option::None,
                },
                NodeBox::Leaf(_) => Option::None,
            },
            Option::None => Option::None,
        }
    }
}

/// A change made to the pointer at a path.
#[derive(Clone, Copy, Debug, PartialEq, Eq, Structural)]
pub enum Action {
    /// Mark the node under the pointer clean.
    MarkNodeClean,
    /// Mark the pointer clean.
    MarkPointerClean,
    /// Release the pointer's node, keeping its digest and clean flag.
    Evict,
}

/// A node with its clean flag set.
pub open spec fn node_marked_clean(nb: NodeBox) -> NodeBox {
    match nb {
        NodeBox::Internal(n) => NodeBox::Internal(InternalNode { clean: true, ..n }),
        NodeBox::Leaf(l) => NodeBox::Leaf(LeafNode { clean: true, ..l }),
    }
}

/// The pointer `q` after `a`.
pub open spec fn acted(q: NodePointer, a: Action) -> NodePointer {
    match a {
        Action::MarkNodeClean => match q.node {
            Option::Some(b) => NodePointer {
                node: Option::Some(Box::new(node_marked_clean(*b))),
                ..q
            },
            Option::None => q,
        },
        Action::MarkPointerClean => NodePointer { clean: true, ..q },
        Action::Evict => NodePointer { node: Option::None, ..q },
    }
}

proof fn lemma_drop_first_subrange(s: Seq<u8>, i: int)
    requires
        0 <= i < s.len(),
    ensures
        s.subrange(i, s.len() as int).drop_first() == s.subrange(i + 1, s.len() as int),
        s.subrange(i, s.len() as int)[0] == s[i],
{
    assert(s.subrange(i, s.len() as int).drop_first() =~= s.subrange(i + 1, s.len() as int));
}

/// `p` with `a` applied to the pointer that `path` leads to, and everything
/// else kept; `p` itself when the path leads nowhere.
pub open spec fn act_spec(p: NodePointer, path: Seq<u8>, a: Action) -> NodePointer
    decreases path.len(),
{
    if path.len() == 0 {
        acted(p, a)
    } else {
        match p.node {
            Option::Some(b) => match *b {
                NodeBox::Internal(n) => if path[0] == STEP_LEAF {
                    NodePointer {
                        node: Option::Some(
                            Box::new(
                                NodeBox::Internal(
                                    InternalNode {
                                        leaf_node: Box::new(
                                            act_spec(*n.leaf_node, path.drop_first(), a),
                                        ),
                                        ..n
                                    },
                                ),
                            ),
                        ),
                        ..p
                    }
                } else if path[0] == STEP_LEFT {
                    NodePointer {
                        node: Option::Some(
                            Box::new(
                                NodeBox::Internal(
                                    InternalNode {
                                        left: Box::new(act_spec(*n.left, path.drop_first(), a)),
                                        ..n
                                    },
                                ),
                            ),
                        ),
                        ..p
                    }
                } else if path[0] == STEP_RIGHT {
                    NodePointer {
                        node: Option::Some(
                            Box::new(
                                NodeBox::Internal(
                                    InternalNode {
                                        right: Box::new(act_spec(*n.right, path.drop_first(), a)),
                                        ..n
                                    },
                                ),
                            ),
                        ),
                        ..p
                    }
                } else {
                    p
                },
                NodeBox::Leaf(_) => p,
            },
            Option::None => p,
        }
    }
}

/// Applies `a` to the pointer that `path[i..]` leads to from `p`, keeping
/// everything else; the digest of `p` is kept, and so is its clean flag
/// unless `p` itself is the target.
pub fn act_at(p: NodePointer, path: &Vec<u8>, i: usize, a: Action) -> (r: NodePointer)
    requires
        i <= path@.len(),
    ensures
        r.hash == p.hash,
        i < path@.len() ==> r.clean == p.clean,
        i == path@.len() ==> r == acted(p, a),
        ptr_at(p, path@.subrange(i as int, path@.len() as int)) matches Some(q) ==> ptr_at(
            r,
            path@.subrange(i as int, path@.len() as int),
        ) == Some(acted(q, a)),
        ptr_at(p, path@.subrange(i as int, path@.len() as int)) is None ==> r == p,
        r == act_spec(p, path@.subrange(i as int, path@.len() as int), a),
    decreases path@.len() - i,
{
    if i == path.len() {
        proof {
            assert(path@.subrange(i as int, path@.len() as int).len() == 0);
        }
        return match a {
            Action::MarkPointerClean => NodePointer { clean: true, hash: p.hash, node: p.node },
            Action::Evict => NodePointer { clean: p.clean, hash: p.hash, node: Option::None },
            Action::MarkNodeClean => {
                let NodePointer { clean, hash, node } = p;
                match node {
                    Option::None => NodePointer { clean, hash, node: Option::None },
                    Option::Some(b) => {
                        let nb = match *b {
                            NodeBox::Internal(n) => NodeBox::Internal(
                                InternalNode { clean: true, ..n },
                            ),
                            NodeBox::Leaf(l) => NodeBox::Leaf(LeafNode { clean: true, ..l }),
                        };
                        NodePointer { clean, hash, node: Option::Some(Box::new(nb)) }
                    },
                }
            },
        };
    }
    proof {
        lemma_drop_first_subrange(path@, i as int);
    }
    let step = path[i];
    let NodePointer { clean, hash, node } = p;
    match node {
        Option::None => NodePointer { clean, hash, node: Option::None },
        Option::Some(b) => match *b {
            NodeBox::Leaf(l) => NodePointer {
                clean,
                hash,
                node: Option::Some(Box::new(NodeBox::Leaf(l))),
            },
            NodeBox::Internal(n) => {
                let InternalNode {
                    clean: nclean,
                    hash: nhash,
                    round,
                    label,
                    label_bit_length,
                    leaf_node,
                    left,
                    right,
                } = n;
                let (leaf_node, left, right) = if step == STEP_LEAF {
                    (Box::new(act_at(*leaf_node, path, i + 1, a)), left, right)
                } else if step == STEP_LEFT {
                    (leaf_node, Box::new(act_at(*left, path, i + 1, a)), right)
                } else if step == STEP_RIGHT {
                    (leaf_node, left, Box::new(act_at(*right, path, i + 1, a)))
                } else {
                    (leaf_node, left, right)
                };
                let m = InternalNode {
                    clean: nclean,
                    hash: nhash,
                    round,
                    label,
                    label_bit_length,
                    leaf_node,
                    left,
                    right,
                };
                NodePointer { clean, hash, node: Option::Some(Box::new(NodeBox::Internal(m))) }
            },
        },
    }
}

/// Once a commit has left a pointer clean with digest `h`, committing it
/// again yields `h` and gathers no work.
pub proof fn lemma_commit_idempotent(p: NodePointer, h: Digest)
    requires
        p.clean,
        p.hash == h,
    ensures
        commit_ready(p),
        commit_hash(p) == h@,
        forall|path: Seq<u8>| commit_updates(p, path).len() == 0,
        is_committed(p, p),
{
}

/// Committing a dirty internal node recomputes its digest from the commit
/// digests of its three slots, and a clean slot contributes its cached digest
/// unchanged and gathers no work.
pub proof fn lemma_commit_locality(p: NodePointer, n: InternalNode, path: Seq<u8>)
    requires
        !p.clean,
        p.node == Some(Box::new(NodeBox::Internal(n))),
        !n.clean,
    ensures
        commit_hash(p) == sha512_256_of(
            internal_hash_input(
                n.round,
                n.label_bit_length,
                n.label@,
                commit_hash(*n.leaf_node),
                commit_hash(*n.left),
                commit_hash(*n.right),
            ),
        ),
        commit_updates(p, path) == commit_updates(*n.leaf_node, path.push(STEP_LEAF))
            + commit_updates(*n.left, path.push(STEP_LEFT)) + commit_updates(
            *n.right,
            path.push(STEP_RIGHT),
        ) + seq![UpdateView::NodeClean(path), UpdateView::PointerClean(path)],
        n.leaf_node.clean ==> commit_hash(*n.leaf_node) == n.leaf_node.hash@ && commit_updates(
            *n.leaf_node,
            path.push(STEP_LEAF),
        ).len() == 0,
        n.left.clean ==> commit_hash(*n.left) == n.left.hash@ && commit_updates(
            *n.left,
            path.push(STEP_LEFT),
        ).len() == 0,
        n.right.clean ==> commit_hash(*n.right) == n.right.hash@ && commit_updates(
            *n.right,
            path.push(STEP_RIGHT),
        ).len() == 0,
        forall|r: NodePointer| #[trigger] is_committed(r, *n.left) && n.left.clean ==> r == *n.left,
        forall|r: NodePointer| #[trigger] is_committed(r, *n.right) && n.right.clean ==> r
            == *n.right,
        forall|r: NodePointer| #[trigger] is_committed(r, *n.leaf_node) && n.leaf_node.clean ==> r
            == *n.leaf_node,
{
}

/// The digest of the content under `p`, whatever its flags and cached
/// digests: a pointer without a node stands for its digest when clean (null
/// or unresolved) and for the empty subtree when dirty.
pub open spec fn content_hash(p: NodePointer) -> Seq<u8>
    decreases p,
{
    match p.node {
        Option::None => if p.clean {
            p.hash@
        } else {
            empty_hash_spec()
        },
        Option::Some(b) => match *b {
            NodeBox::Leaf(l) => crate::node::leaf_hash(l.round, l.key@, value_bytes(l.value.value)),
            NodeBox::Internal(n) => sha512_256_of(
                internal_hash_input(
                    n.round,
                    n.label_bit_length,
                    n.label@,
                    content_hash(*n.leaf_node),
                    content_hash(*n.left),
                    content_hash(*n.right),
                ),
            ),
        },
    }
}

/// Every cached digest under `p` that is marked clean is the digest of its
/// content, and every value digest is fresh.
pub open spec fn consistent(p: NodePointer) -> bool
    decreases p,
{
    &&& p.clean ==> p.hash@ == content_hash(p)
    &&& match p.node {
        Option::None => true,
        Option::Some(b) => match *b {
            NodeBox::Leaf(l) => {
                &&& l.value.hash@ == sha512_256_of(value_bytes(l.value.value))
                &&& l.clean ==> l.hash@ == content_hash(p)
            },
            NodeBox::Internal(n) => {
                &&& n.clean ==> n.hash@ == content_hash(p)
                &&& consistent(*n.leaf_node)
                &&& consistent(*n.left)
                &&& consistent(*n.right)
            },
        },
    }
}

/// On a consistent tree a commit yields the digest of its content.
pub proof fn lemma_commit_hash_is_content_hash(p: NodePointer)
    requires
        consistent(p),
    ensures
        commit_hash(p) == content_hash(p),
    decreases p,
{
    if !p.clean {
        match p.node {
            Option::Some(b) => match *b {
                NodeBox::Internal(n) => {
                    lemma_commit_hash_is_content_hash(*n.leaf_node);
                    lemma_commit_hash_is_content_hash(*n.left);
                    lemma_commit_hash_is_content_hash(*n.right);
                },
                NodeBox::Leaf(_) => {},
            },
            Option::None => {},
        }
    }
}

/// Two trees with the same content: the same nodes with the same rounds,
/// keys, values and labels, and the same digests where a pointer holds no
/// node; clean flags and cached digests of nodes do not count.
pub open spec fn same_content(a: NodePointer, b: NodePointer) -> bool
    decreases a,
{
    match (a.node, b.node) {
        (Option::None, Option::None) => content_hash(a) == content_hash(b),
        (Option::Some(x), Option::Some(y)) => match (*x, *y) {
            (NodeBox::Leaf(l), NodeBox::Leaf(m)) => {
                &&& l.round == m.round
                &&& l.key@ == m.key@
                &&& value_bytes(l.value.value) == value_bytes(m.value.value)
            },
            (NodeBox::Internal(n), NodeBox::Internal(o)) => {
                &&& n.round == o.round
                &&& n.label_bit_length == o.label_bit_length
                &&& n.label@ == o.label@
                &&& same_content(*n.leaf_node, *o.leaf_node)
                &&& same_content(*n.left, *o.left)
                &&& same_content(*n.right, *o.right)
            },
            _ => false,
        },
        _ => false,
    }
}

/// Two consistent trees built independently, in any order, with the same
/// content commit to the same digest.
pub proof fn lemma_commit_deterministic(a: NodePointer, b: NodePointer)
    requires
        consistent(a),
        consistent(b),
        same_content(a, b),
    ensures
        commit_hash(a) == commit_hash(b),
{
    lemma_commit_hash_is_content_hash(a);
    lemma_commit_hash_is_content_hash(b);
    lemma_same_content_hash(a, b);
}

proof fn lemma_same_content_hash(a: NodePointer, b: NodePointer)
    requires
        same_content(a, b),
    ensures
        content_hash(a) == content_hash(b),
    decreases a,
{
    match (a.node, b.node) {
        (Option::Some(x), Option::Some(y)) => match (*x, *y) {
            (NodeBox::Internal(n), NodeBox::Internal(o)) => {
                lemma_same_content_hash(*n.leaf_node, *o.leaf_node);
                lemma_same_content_hash(*n.left, *o.left);
                lemma_same_content_hash(*n.right, *o.right);
            },
            _ => {},
        },
        _ => {},
    }
}

/// After a commit and its bookkeeping, the pointer is clean and carries its
/// commit digest; a pointer that was clean is kept as it was.
pub proof fn lemma_finished_clean(c: NodePointer, p: NodePointer)
    requires
        is_committed(c, p),
    ensures
        crate::finish::finished(c, p).clean,
        crate::finish::finished(c, p).hash@ == commit_hash(p),
        p.clean ==> crate::finish::finished(c, p) == p,
{
}

/// Committing a null pointer, or a dirty pointer without a node, yields the
/// empty-hash sentinel; the null pointer gathers no work.
pub proof fn lemma_commit_empty_subtree(p: NodePointer)
    requires
        p.node is None,
        p.hash@ == empty_hash_spec(),
    ensures
        commit_ready(p),
        commit_hash(p) == empty_hash_spec(),
        p.clean ==> commit_updates(p, Seq::empty()).len() == 0,
        !p.clean ==> commit_updates(p, Seq::empty()) == seq![UpdateView::PointerClean(Seq::empty())],
{
}

} // verus!

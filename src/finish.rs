//! What a whole commit leaves behind: the committed subtree with every
//! pointer and node that was dirty marked clean.
use vstd::prelude::*;

use crate::commit::{
    act_spec, acted, commit_updates, is_committed, node_marked_clean, ptr_at, Action, UpdateView,
    STEP_LEAF, STEP_LEFT, STEP_RIGHT,
};
use crate::node::{InternalNode, LeafNode, NodeBox, NodePointer};
use crate::tree::{applied, apply_step};

verus! {

/// `r` with the pointer that `path` leads to replaced by `x`.
pub open spec fn set_at(r: NodePointer, path: Seq<u8>, x: NodePointer) -> NodePointer
    decreases path.len(),
{
    if path.len() == 0 {
        x
    } else {
        match r.node {
            Option::Some(b) => match *b {
                NodeBox::Internal(n) => if path[0] == STEP_LEAF {
                    NodePointer {
                        node: Option::Some(Box::new(NodeBox::Internal(InternalNode {
                            leaf_node: Box::new(set_at(*n.leaf_node, path.drop_first(), x)),
                            ..n
                        }))),
                        ..r
                    }
                } else if path[0] == STEP_LEFT {
                    NodePointer {
                        node: Option::Some(Box::new(NodeBox::Internal(InternalNode {
                            left: Box::new(set_at(*n.left, path.drop_first(), x)),
                            ..n
                        }))),
                        ..r
                    }
                } else if path[0] == STEP_RIGHT {
                    NodePointer {
                        node: Option::Some(Box::new(NodeBox::Internal(InternalNode {
                            right: Box::new(set_at(*n.right, path.drop_first(), x)),
                            ..n
                        }))),
                        ..r
                    }
                } else {
                    r
                },
                NodeBox::Leaf(_) => r,
            },
            Option::None => r,
        }
    }
}

/// An internal pointer `c` with the child at `step` replaced by `x`.
pub open spec fn set_child(c: NodePointer, step: u8, x: NodePointer) -> NodePointer {
    set_at(c, seq![step], x)
}

/// The committed pointer `c` of `p` once every update of its commit has been
/// applied: each pointer and node that was dirty is clean.
pub open spec fn finished(c: NodePointer, p: NodePointer) -> NodePointer
    decreases p,
{
    if p.clean {
        c
    } else {
        match (p.node, c.node) {
            (Option::Some(pb), Option::Some(cb)) => match (*pb, *cb) {
                (NodeBox::Internal(n), NodeBox::Internal(m)) => if n.clean {
                    NodePointer { clean: true, ..c }
                } else {
                    NodePointer {
                        clean: true,
                        node: Option::Some(Box::new(NodeBox::Internal(InternalNode {
                            clean: true,
                            leaf_node: Box::new(finished(*m.leaf_node, *n.leaf_node)),
                            left: Box::new(finished(*m.left, *n.left)),
                            right: Box::new(finished(*m.right, *n.right)),
                            ..m
                        }))),
                        ..c
                    }
                },
                (NodeBox::Leaf(l), NodeBox::Leaf(m)) => if l.clean {
                    NodePointer { clean: true, ..c }
                } else {
                    NodePointer {
                        clean: true,
                        node: Option::Some(Box::new(NodeBox::Leaf(LeafNode { clean: true, ..m }))),
                        ..c
                    }
                },
                _ => NodePointer { clean: true, ..c },
            },
            _ => NodePointer { clean: true, ..c },
        }
    }
}

proof fn lemma_push_drop_first(path: Seq<u8>, k: u8)
    requires
        path.len() > 0,
    ensures
        path.push(k).drop_first() == path.drop_first().push(k),
        path.push(k)[0] == path[0],
{
    assert(path.push(k).drop_first() =~= path.drop_first().push(k));
}

/// Acting at a path replaces the pointer there by the acted one.
proof fn lemma_act_is_set(r: NodePointer, path: Seq<u8>, a: Action)
    requires
        ptr_at(r, path) is Some,
    ensures
        act_spec(r, path, a) == set_at(r, path, acted(ptr_at(r, path).unwrap(), a)),
    decreases path.len(),
{
    if path.len() > 0 {
        match r.node {
            Option::Some(b) => match *b {
                NodeBox::Internal(n) => {
                    if path[0] == STEP_LEAF {
                        lemma_act_is_set(*n.leaf_node, path.drop_first(), a);
                    } else if path[0] == STEP_LEFT {
                        lemma_act_is_set(*n.left, path.drop_first(), a);
                    } else if path[0] == STEP_RIGHT {
                        lemma_act_is_set(*n.right, path.drop_first(), a);
                    }
                },
                _ => {},
            },
            _ => {},
        }
    }
}

/// Replacing twice at one path keeps the second replacement, and the
/// replacement is found there.
proof fn lemma_set_set(r: NodePointer, path: Seq<u8>, x: NodePointer, y: NodePointer)
    requires
        ptr_at(r, path) is Some,
    ensures
        set_at(set_at(r, path, x), path, y) == set_at(r, path, y),
        ptr_at(set_at(r, path, x), path) == Some(x),
    decreases path.len(),
{
    if path.len() > 0 {
        match r.node {
            Option::Some(b) => match *b {
                NodeBox::Internal(n) => {
                    if path[0] == STEP_LEAF {
                        lemma_set_set(*n.leaf_node, path.drop_first(), x, y);
                    } else if path[0] == STEP_LEFT {
                        lemma_set_set(*n.left, path.drop_first(), x, y);
                    } else if path[0] == STEP_RIGHT {
                        lemma_set_set(*n.right, path.drop_first(), x, y);
                    }
                },
                _ => {},
            },
            _ => {},
        }
    }
}

/// Replacing one step below a path is replacing at the path with the child
/// replaced, and the child is found one step below.
proof fn lemma_set_below(r: NodePointer, path: Seq<u8>, k: u8, x: NodePointer)
    requires
        ptr_at(r, path) is Some,
        ptr_at(r, path.push(k)) is Some,
    ensures
        set_at(r, path.push(k), x) == set_at(r, path, set_child(ptr_at(r, path).unwrap(), k, x)),
        ptr_at(r, path.push(k)) == ptr_at(ptr_at(r, path).unwrap(), seq![k]),
    decreases path.len(),
{
    let c = ptr_at(r, path).unwrap();
    if path.len() == 0 {
        assert(path.push(k) =~= seq![k]);
        assert(seq![k].drop_first() =~= Seq::<u8>::empty());
    } else {
        lemma_push_drop_first(path, k);
        match r.node {
            Option::Some(b) => match *b {
                NodeBox::Internal(n) => {
                    if path[0] == STEP_LEAF {
                        lemma_set_below(*n.leaf_node, path.drop_first(), k, x);
                    } else if path[0] == STEP_LEFT {
                        lemma_set_below(*n.left, path.drop_first(), k, x);
                    } else if path[0] == STEP_RIGHT {
                        lemma_set_below(*n.right, path.drop_first(), k, x);
                    }
                },
                _ => {},
            },
            _ => {},
        }
    }
}

/// Applying `a + b` is applying `a`, then `b`.
proof fn lemma_applied_concat(
    r: NodePointer,
    ev: Seq<Seq<u8>>,
    a: Seq<UpdateView>,
    b: Seq<UpdateView>,
)
    ensures
        applied(r, ev, a + b) == applied(applied(r, ev, a).0, applied(r, ev, a).1, b),
    decreases b.len(),
{
    if b.len() == 0 {
        assert(a + b =~= a);
    } else {
        assert((a + b).drop_last() =~= a + b.drop_last());
        lemma_applied_concat(r, ev, a, b.drop_last());
    }
}

/// One step below a path is one step below the pointer found there.
proof fn lemma_ptr_below(r: NodePointer, path: Seq<u8>, k: u8)
    requires
        ptr_at(r, path) is Some,
    ensures
        ptr_at(r, path.push(k)) == ptr_at(ptr_at(r, path).unwrap(), seq![k]),
    decreases path.len(),
{
    if path.len() == 0 {
        assert(path.push(k) =~= seq![k]);
    } else {
        lemma_push_drop_first(path, k);
        match r.node {
            Option::Some(b) => match *b {
                NodeBox::Internal(n) => {
                    if path[0] == STEP_LEAF {
                        lemma_ptr_below(*n.leaf_node, path.drop_first(), k);
                    } else if path[0] == STEP_LEFT {
                        lemma_ptr_below(*n.left, path.drop_first(), k);
                    } else if path[0] == STEP_RIGHT {
                        lemma_ptr_below(*n.right, path.drop_first(), k);
                    }
                },
                _ => {},
            },
            _ => {},
        }
    }
}

/// Replacing a pointer by itself changes nothing.
proof fn lemma_set_same(r: NodePointer, path: Seq<u8>)
    requires
        ptr_at(r, path) is Some,
    ensures
        set_at(r, path, ptr_at(r, path).unwrap()) == r,
    decreases path.len(),
{
    if path.len() > 0 {
        match r.node {
            Option::Some(b) => match *b {
                NodeBox::Internal(n) => {
                    if path[0] == STEP_LEAF {
                        lemma_set_same(*n.leaf_node, path.drop_first());
                    } else if path[0] == STEP_LEFT {
                        lemma_set_same(*n.left, path.drop_first());
                    } else if path[0] == STEP_RIGHT {
                        lemma_set_same(*n.right, path.drop_first());
                    }
                },
                _ => {},
            },
            _ => {},
        }
    }
}

/// Applying the updates that committing `p` at `path` gathers, to a tree
/// holding `p`'s committed form `c` there, leaves `c` with every pointer and
/// node that was dirty marked clean, and the rest of the tree as it was.
pub proof fn lemma_apply_commit(
    r: NodePointer,
    ev: Seq<Seq<u8>>,
    p: NodePointer,
    c: NodePointer,
    path: Seq<u8>,
)
    requires
        ptr_at(r, path) == Some(c),
        is_committed(c, p),
    ensures
        applied(r, ev, commit_updates(p, path)).0 == set_at(r, path, finished(c, p)),
    decreases p,
{
    if p.clean {
        lemma_set_same(r, path);
        return ;
    }
    let pc = seq![UpdateView::PointerClean(path)];
    assert(pc.drop_last() =~= Seq::<UpdateView>::empty());
    assert(applied(r, ev, pc.drop_last()) == (r, ev));
    assert(applied(r, ev, pc) == apply_step(r, ev, pc.last()));
    lemma_act_is_set(r, path, Action::MarkPointerClean);
    match (p.node, c.node) {
        (Option::Some(pb), Option::Some(cb)) => match (*pb, *cb) {
            (NodeBox::Internal(n), NodeBox::Internal(m)) => {
                if !n.clean {
                    let u0 = commit_updates(*n.leaf_node, path.push(STEP_LEAF));
                    let u1 = commit_updates(*n.left, path.push(STEP_LEFT));
                    let u2 = commit_updates(*n.right, path.push(STEP_RIGHT));
                    let tail = seq![UpdateView::NodeClean(path), UpdateView::PointerClean(path)];
                    lemma_applied_concat(r, ev, u0 + u1 + u2, tail);
                    lemma_applied_concat(r, ev, u0 + u1, u2);
                    lemma_applied_concat(r, ev, u0, u1);
                    // the embedded leaf
                    lemma_ptr_below(r, path, STEP_LEAF);
                    assert(seq![STEP_LEAF].drop_first() =~= Seq::<u8>::empty());
                    assert(ptr_at(*m.leaf_node, Seq::empty()) == Some(*m.leaf_node));
                    assert(ptr_at(c, seq![STEP_LEAF]) == Some(*m.leaf_node));
                    lemma_apply_commit(r, ev, *n.leaf_node, *m.leaf_node, path.push(STEP_LEAF));
                    let f0 = finished(*m.leaf_node, *n.leaf_node);
                    let a0 = applied(r, ev, u0);
                    lemma_set_below(r, path, STEP_LEAF, f0);
                    let c1 = set_child(c, STEP_LEAF, f0);
                    assert(set_at(*m.leaf_node, seq![STEP_LEAF].drop_first(), f0) == f0);
                    let m1 = InternalNode { leaf_node: Box::new(f0), ..m };
                    assert(c1 == NodePointer {
                        node: Option::Some(Box::new(NodeBox::Internal(m1))),
                        ..c
                    });
                    lemma_set_set(r, path, c1, c1);
                    // the left child
                    lemma_ptr_below(a0.0, path, STEP_LEFT);
                    assert(seq![STEP_LEFT].drop_first() =~= Seq::<u8>::empty());
                    assert(set_at(*m.leaf_node, Seq::empty(), f0) == f0);
                    assert(ptr_at(*m.left, Seq::empty()) == Some(*m.left));
                    assert(ptr_at(c1, seq![STEP_LEFT]) == Some(*m.left));
                    lemma_apply_commit(a0.0, a0.1, *n.left, *m.left, path.push(STEP_LEFT));
                    let f1 = finished(*m.left, *n.left);
                    let a1 = applied(a0.0, a0.1, u1);
                    lemma_set_below(a0.0, path, STEP_LEFT, f1);
                    let c2 = set_child(c1, STEP_LEFT, f1);
                    assert(set_at(*m.left, seq![STEP_LEFT].drop_first(), f1) == f1);
                    let m2 = InternalNode { left: Box::new(f1), ..m1 };
                    assert(c2 == NodePointer {
                        node: Option::Some(Box::new(NodeBox::Internal(m2))),
                        ..c
                    });
                    lemma_set_set(r, path, c1, c2);
                    lemma_set_set(r, path, c2, c2);
                    // the right child
                    lemma_ptr_below(a1.0, path, STEP_RIGHT);
                    assert(seq![STEP_RIGHT].drop_first() =~= Seq::<u8>::empty());
                    assert(set_at(*m.left, Seq::empty(), f1) == f1);
                    assert(ptr_at(*m.right, Seq::empty()) == Some(*m.right));
                    assert(ptr_at(c2, seq![STEP_RIGHT]) == Some(*m.right));
                    lemma_apply_commit(a1.0, a1.1, *n.right, *m.right, path.push(STEP_RIGHT));
                    let f2 = finished(*m.right, *n.right);
                    let a2 = applied(a1.0, a1.1, u2);
                    lemma_set_below(a1.0, path, STEP_RIGHT, f2);
                    let c3 = set_child(c2, STEP_RIGHT, f2);
                    assert(set_at(*m.right, seq![STEP_RIGHT].drop_first(), f2) == f2);
                    let m3 = InternalNode { right: Box::new(f2), ..m2 };
                    assert(c3 == NodePointer {
                        node: Option::Some(Box::new(NodeBox::Internal(m3))),
                        ..c
                    });
                    lemma_set_set(r, path, c2, c3);
                    lemma_set_set(r, path, c3, c3);
                    // the node, then the pointer
                    assert(tail.drop_last() =~= seq![UpdateView::NodeClean(path)]);
                    assert(seq![UpdateView::NodeClean(path)].drop_last() =~= Seq::<UpdateView>::empty());
                    lemma_act_is_set(a2.0, path, Action::MarkNodeClean);
                    let x = acted(c3, Action::MarkNodeClean);
                    lemma_set_set(r, path, c3, x);
                    lemma_set_set(r, path, x, acted(x, Action::MarkPointerClean));
                    lemma_act_is_set(set_at(r, path, x), path, Action::MarkPointerClean);
                    assert(acted(x, Action::MarkPointerClean) == finished(c, p));
                    assert(commit_updates(p, path) == u0 + u1 + u2 + tail);
                    assert(applied(r, ev, u0 + u1 + u2).0 == a2.0);
                    let nc = seq![UpdateView::NodeClean(path)];
                    assert(applied(a2.0, a2.1, nc.drop_last()) == (a2.0, a2.1));
                    assert(applied(a2.0, a2.1, nc) == apply_step(a2.0, a2.1, nc.last()));
                    let b = applied(a2.0, a2.1, nc);
                    assert(applied(a2.0, a2.1, tail) == apply_step(b.0, b.1, tail.last()));
                    assert(applied(a2.0, a2.1, tail).0 == act_spec(
                        act_spec(a2.0, path, Action::MarkNodeClean),
                        path,
                        Action::MarkPointerClean,
                    ));
                    assert(act_spec(a2.0, path, Action::MarkNodeClean) == set_at(r, path, x));
                }
            },
            (NodeBox::Leaf(l), NodeBox::Leaf(m)) => {
                if !l.clean {
                    let tail = seq![UpdateView::NodeClean(path), UpdateView::PointerClean(path)];
                    assert(tail.drop_last() =~= seq![UpdateView::NodeClean(path)]);
                    assert(seq![UpdateView::NodeClean(path)].drop_last() =~= Seq::<UpdateView>::empty());
                    lemma_act_is_set(r, path, Action::MarkNodeClean);
                    let x = acted(c, Action::MarkNodeClean);
                    let nc = seq![UpdateView::NodeClean(path)];
                    assert(applied(r, ev, nc.drop_last()) == (r, ev));
                    assert(applied(r, ev, nc) == apply_step(r, ev, nc.last()));
                    let b = applied(r, ev, nc);
                    assert(applied(r, ev, tail) == apply_step(b.0, b.1, tail.last()));
                    assert(commit_updates(p, path) == tail);
                    lemma_set_set(r, path, x, acted(x, Action::MarkPointerClean));
                    lemma_act_is_set(set_at(r, path, x), path, Action::MarkPointerClean);
                }
            },
            _ => {},
        },
        _ => {},
    }
}

} // verus!

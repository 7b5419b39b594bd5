//! The cache that owns a tree's root, the update list, and the tree itself.
use vstd::prelude::*;

use crate::commit::{
    act_at, act_spec, acted, commit_hash, commit_pointer, commit_ready, commit_updates, copy_path,
    is_committed, ptr_at, updates_view, Action, Update, UpdateView, STEP_LEAF, STEP_LEFT,
    STEP_RIGHT,
};
use crate::finish::{finished, lemma_apply_commit};
use crate::hash::Digest;
use crate::node::{NodeBox, NodePointer};

verus! {

/// An opaque identifier that scopes a tree instance.
pub type Namespace = [u8; 32];

/// Which logical tree a root belongs to.
#[derive(Clone, Copy, Debug, PartialEq, Eq, Structural)]
pub enum RootType {
    State,
    IO,
}

/// The published identity of a committed tree state.
#[derive(Clone, Copy, Debug)]
pub struct Root {
    pub namespace: Namespace,
    pub version: u64,
    pub root_type: RootType,
    pub hash: Digest,
}

/// Why an eviction was refused.
#[derive(Clone, Copy, Debug, PartialEq, Eq, Structural)]
pub enum EvictError {
    /// No pointer is found at the path.
    NotFound,
    /// The pointer is dirty: evicting it would drop an uncommitted change.
    Dirty,
    /// The pointer holds no node.
    NotResolved,
}

/// The pending root, the last synced root, and the pointers, by path, that
/// are eligible for eviction.
#[derive(Debug)]
pub struct Cache {
    pub pending_root: NodePointer,
    pub sync_root: Root,
    pub evictable: Vec<Vec<u8>>,
}

/// Deferred bookkeeping gathered during one commit and applied after it.
#[derive(Debug)]
pub struct UpdateList {
    pub updates: Vec<Update>,
}

impl Cache {
    /// A cache over the given pending root.
    pub fn new(pending_root: NodePointer, sync_root: Root) -> (r: Cache)
        ensures
            r.pending_root == pending_root,
            r.sync_root == sync_root,
            r.evictable@.len() == 0,
    {
        Cache { pending_root, sync_root, evictable: Vec::new() }
    }

    /// The pending root.
    pub fn get_pending_root(&self) -> (r: &NodePointer)
        ensures
            *r == self.pending_root,
    {
        &self.pending_root
    }

    /// Records the last committed root.
    pub fn set_sync_root(&mut self, root: Root)
        ensures
            final(self).sync_root == root,
            final(self).pending_root == old(self).pending_root,
            final(self).evictable@ == old(self).evictable@,
    {
        self.sync_root = root;
    }

    /// Makes the pointer at `path` eligible for eviction.
    pub fn commit_node(&mut self, path: Vec<u8>)
        ensures
            final(self).evictable@ == old(self).evictable@.push(path),
            final(self).pending_root == old(self).pending_root,
            final(self).sync_root == old(self).sync_root,
    {
        self.evictable.push(path);
    }

    /// Applies one deferred update.
    pub fn apply(&mut self, update: &Update)
        ensures
            final(self).pending_root.hash == old(self).pending_root.hash,
            update.path().len() > 0 ==> final(self).pending_root.clean
                == old(self).pending_root.clean,
            update.path().len() == 0 && update is MarkPointerClean ==> final(self).pending_root.clean,
            update is MarkNodeClean ==> final(self).pending_root.clean == old(self).pending_root.clean,
            final(self).sync_root == old(self).sync_root,
            update is MarkNodeClean ==> final(self).evictable@ == old(self).evictable@,
            update is MarkPointerClean ==> final(self).evictable@.len() == old(self).evictable@.len()
                + 1 && final(self).evictable@.last()@ == update.path() && final(self).evictable@.drop_last()
                == old(self).evictable@,
            ptr_at(old(self).pending_root, update.path()) matches Some(q) ==> ptr_at(
                final(self).pending_root,
                update.path(),
            ) == Some(acted(q, update.action())),
            ptr_at(old(self).pending_root, update.path()) is None ==> final(self).pending_root
                == old(self).pending_root,
            (final(self).pending_root, paths_view(final(self).evictable@)) == apply_step(
                old(self).pending_root,
                paths_view(old(self).evictable@),
                update.view(),
            ),
    {
        let mut root = NodePointer::null_ptr();
        std::mem::swap(&mut root, &mut self.pending_root);
        match update {
            Update::MarkNodeClean(p) => {
                self.pending_root = act_at(root, p, 0, Action::MarkNodeClean);
                proof {
                    assert(p@.subrange(0, p@.len() as int) =~= p@);
                }
            },
            Update::MarkPointerClean(p) => {
                self.pending_root = act_at(root, p, 0, Action::MarkPointerClean);
                proof {
                    assert(p@.subrange(0, p@.len() as int) =~= p@);
                }
                self.commit_node(copy_path(p));
                proof {
                    assert(self.evictable@.drop_last() =~= old(self).evictable@);
                    assert(paths_view(self.evictable@) =~= paths_view(old(self).evictable@).push(
                        p@,
                    ));
                }
            },
        }
    }

    /// Evicts the node under the pointer at `path`: the pointer keeps its
    /// digest and clean flag and becomes unresolved. Only a clean, resolved
    /// pointer can be evicted.
    pub fn evict(&mut self, path: &Vec<u8>) -> (r: Result<(), EvictError>)
        ensures
            r == Err::<(), EvictError>(EvictError::NotFound) <==> ptr_at(
                old(self).pending_root,
                path@,
            ) is None,
            r == Err::<(), EvictError>(EvictError::Dirty) <==> (ptr_at(
                old(self).pending_root,
                path@,
            ) is Some && !ptr_at(old(self).pending_root, path@).unwrap().clean),
            r == Err::<(), EvictError>(EvictError::NotResolved) <==> (ptr_at(
                old(self).pending_root,
                path@,
            ) is Some && ptr_at(old(self).pending_root, path@).unwrap().clean && ptr_at(
                old(self).pending_root,
                path@,
            ).unwrap().node is None),
            r is Err ==> *final(self) == *old(self),
            r is Ok ==> ptr_at(final(self).pending_root, path@) == Some(
                acted(ptr_at(old(self).pending_root, path@).unwrap(), Action::Evict),
            ) && final(self).pending_root.hash == old(self).pending_root.hash,
            final(self).sync_root == old(self).sync_root,
            final(self).evictable@ == old(self).evictable@,
    {
        proof {
            assert(path@.subrange(0, path@.len() as int) =~= path@);
        }
        match find_at(&self.pending_root, path, 0) {
            Option::None => Err(EvictError::NotFound),
            Option::Some((clean, resolved)) => {
                if !clean {
                    Err(EvictError::Dirty)
                } else if !resolved {
                    Err(EvictError::NotResolved)
                } else {
                    let mut root = NodePointer::null_ptr();
                    std::mem::swap(&mut root, &mut self.pending_root);
                    self.pending_root = act_at(root, path, 0, Action::Evict);
                    proof {
                        assert(path@.subrange(0, path@.len() as int) =~= path@);
                    }
                    Ok(())
                }
            },
        }
    }
}

impl UpdateList {
    /// An empty list.
    pub fn new() -> (r: UpdateList)
        ensures
            r.updates@.len() == 0,
    {
        UpdateList { updates: Vec::new() }
    }

    /// Applies every update, in the order gathered, to the cache. The root's
    /// digest is kept; a root marked clean stays clean, and the root becomes
    /// clean when the last update marks it so.
    pub fn commit(&self, cache: &mut Cache)
        ensures
            final(cache).pending_root.hash == old(cache).pending_root.hash,
            final(cache).sync_root == old(cache).sync_root,
            old(cache).pending_root.clean ==> final(cache).pending_root.clean,
            self.updates@.len() > 0 && self.updates@.last().marks_pointer_at(Seq::empty())
                ==> final(cache).pending_root.clean,
            self.updates@.len() == 0 ==> *final(cache) == *old(cache),
            (final(cache).pending_root, paths_view(final(cache).evictable@)) == applied(
                old(cache).pending_root,
                paths_view(old(cache).evictable@),
                updates_view(self.updates@),
            ),
    {
        let n = self.updates.len();
        let mut i: usize = 0;
        while i < n
            invariant
                n == self.updates@.len(),
                i <= n,
                cache.pending_root.hash == old(cache).pending_root.hash,
                cache.sync_root == old(cache).sync_root,
                old(cache).pending_root.clean ==> cache.pending_root.clean,
                i == n && n > 0 && self.updates@.last().marks_pointer_at(Seq::empty())
                    ==> cache.pending_root.clean,
                n == 0 ==> *cache == *old(cache),
                (cache.pending_root, paths_view(cache.evictable@)) == applied(
                    old(cache).pending_root,
                    paths_view(old(cache).evictable@),
                    updates_view(self.updates@).subrange(0, i as int),
                ),
            decreases n - i,
        {
            proof {
                let ups = updates_view(self.updates@);
                assert(ups.subrange(0, i + 1).drop_last() =~= ups.subrange(0, i as int));
                assert(ups.subrange(0, i + 1).last() == self.updates@[i as int].view());
            }
            cache.apply(&self.updates[i]);
            i = i + 1;
        }
        proof {
            assert(updates_view(self.updates@).subrange(0, n as int) =~= updates_view(
                self.updates@,
            ));
        }
    }
}

/// An authenticated tree: its cache and the kind of root it publishes.
#[derive(Debug)]
pub struct Tree {
    pub cache: Cache,
    pub root_type: RootType,
}

impl Tree {
    /// A tree over `pending_root` whose last synced root is `sync_root`.
    pub fn new(pending_root: NodePointer, sync_root: Root) -> (r: Tree)
        ensures
            r.cache.pending_root == pending_root,
            r.cache.sync_root == sync_root,
            r.cache.evictable@.len() == 0,
            r.root_type == sync_root.root_type,
    {
        Tree { cache: Cache::new(pending_root, sync_root), root_type: sync_root.root_type }
    }

    /// Commits the pending root: recomputes the digests of its dirty part,
    /// applies the deferred bookkeeping, records the new root and returns its
    /// digest. Afterwards the root is the committed form of the old one with
    /// every pointer and node that was dirty marked clean, and the paths of the
    /// committed pointers, in commit order, are added to the eviction list; a
    /// clean root is left untouched.
    pub fn commit(&mut self, namespace: Namespace, version: u64) -> (r: Digest)
        requires
            commit_ready(old(self).cache.pending_root),
        ensures
            r@ == commit_hash(old(self).cache.pending_root),
            final(self).cache.pending_root.clean,
            final(self).cache.pending_root.hash == r,
            final(self).cache.sync_root == (Root {
                namespace,
                version,
                root_type: old(self).root_type,
                hash: r,
            }),
            final(self).root_type == old(self).root_type,
            old(self).cache.pending_root.clean ==> final(self).cache.pending_root == old(
                self,
            ).cache.pending_root && final(self).cache.evictable@ == old(self).cache.evictable@,
            exists|c: NodePointer|
                #![trigger is_committed(c, old(self).cache.pending_root)]
                is_committed(c, old(self).cache.pending_root) && final(self).cache.pending_root
                    == finished(c, old(self).cache.pending_root) && (
                final(self).cache.pending_root,
                paths_view(final(self).cache.evictable@),
            ) == applied(
                c,
                paths_view(old(self).cache.evictable@),
                commit_updates(old(self).cache.pending_root, Seq::empty()),
            ),
            paths_view(final(self).cache.evictable@) == paths_view(old(self).cache.evictable@)
                + pointer_paths(commit_updates(old(self).cache.pending_root, Seq::empty())),
    {
        let ghost old_root = self.cache.pending_root;
        let ghost old_ev = paths_view(self.cache.evictable@);
        let mut update_list = UpdateList::new();
        let mut root = NodePointer::null_ptr();
        std::mem::swap(&mut root, &mut self.cache.pending_root);
        let mut path: Vec<u8> = Vec::new();
        let (root, new_hash) = commit_pointer(root, &mut path, &mut update_list.updates);
        let ghost c = root;
        self.cache.pending_root = root;
        proof {
            assert(updates_view(update_list.updates@) =~= commit_updates(old_root, Seq::empty()));
        }
        update_list.commit(&mut self.cache);
        proof {
            lemma_applied_evictable(c, old_ev, commit_updates(old_root, Seq::empty()));
            lemma_apply_commit(c, old_ev, old_root, c, Seq::empty());
        }
        self.cache.set_sync_root(
            Root { namespace, version, root_type: self.root_type, hash: new_hash },
        );
        new_hash
    }
}

/// The paths an eviction list holds.
pub open spec fn paths_view(v: Seq<Vec<u8>>) -> Seq<Seq<u8>> {
    v.map_values(|p: Vec<u8>| p@)
}

/// A root and an eviction list after one update.
pub open spec fn apply_step(root: NodePointer, ev: Seq<Seq<u8>>, u: UpdateView) -> (
    NodePointer,
    Seq<Seq<u8>>,
) {
    match u {
        UpdateView::NodeClean(p) => (act_spec(root, p, Action::MarkNodeClean), ev),
        UpdateView::PointerClean(p) => (act_spec(root, p, Action::MarkPointerClean), ev.push(p)),
    }
}

/// A root and an eviction list after the updates, applied in order.
pub open spec fn applied(root: NodePointer, ev: Seq<Seq<u8>>, ups: Seq<UpdateView>) -> (
    NodePointer,
    Seq<Seq<u8>>,
)
    decreases ups.len(),
{
    if ups.len() == 0 {
        (root, ev)
    } else {
        let prev = applied(root, ev, ups.drop_last());
        apply_step(prev.0, prev.1, ups.last())
    }
}

/// The paths of the pointers that the updates mark clean, in order.
pub open spec fn pointer_paths(ups: Seq<UpdateView>) -> Seq<Seq<u8>>
    decreases ups.len(),
{
    if ups.len() == 0 {
        Seq::empty()
    } else {
        match ups.last() {
            UpdateView::PointerClean(p) => pointer_paths(ups.drop_last()).push(p),
            UpdateView::NodeClean(_) => pointer_paths(ups.drop_last()),
        }
    }
}

/// Applying updates appends to the eviction list the paths of the pointers
/// they mark clean, in order.
pub proof fn lemma_applied_evictable(root: NodePointer, ev: Seq<Seq<u8>>, ups: Seq<UpdateView>)
    ensures
        applied(root, ev, ups).1 == ev + pointer_paths(ups),
    decreases ups.len(),
{
    if ups.len() == 0 {
        assert(ev + Seq::<Seq<u8>>::empty() =~= ev);
    } else {
        lemma_applied_evictable(root, ev, ups.drop_last());
        match ups.last() {
            UpdateView::PointerClean(p) => {
                assert((ev + pointer_paths(ups.drop_last())).push(p) =~= ev + pointer_paths(
                    ups.drop_last(),
                ).push(p));
            },
            UpdateView::NodeClean(_) => {},
        }
    }
}

/// The clean flag of the pointer that `path[i..]` leads to from `p`, and
/// whether it holds a node.
fn find_at(p: &NodePointer, path: &Vec<u8>, i: usize) -> (r: Option<(bool, bool)>)
    requires
        i <= path@.len(),
    ensures
        r is None <==> ptr_at(*p, path@.subrange(i as int, path@.len() as int)) is None,
        ptr_at(*p, path@.subrange(i as int, path@.len() as int)) matches Some(q) ==> r == Some(
            (q.clean, q.node is Some),
        ),
    decreases path@.len() - i,
{
    if i == path.len() {
        proof {
            assert(path@.subrange(i as int, path@.len() as int).len() == 0);
        }
        return Option::Some((p.clean, p.node.is_some()));
    }
    proof {
        assert(path@.subrange(i as int, path@.len() as int).drop_first() =~= path@.subrange(
            i + 1,
            path@.len() as int,
        ));
    }
    let step = path[i];
    match &p.node {
        Option::None => Option::None,
        Option::Some(b) => match &**b {
            NodeBox::Leaf(_) => Option::None,
            NodeBox::Internal(n) => {
                if step == STEP_LEAF {
                    find_at(&n.leaf_node, path, i + 1)
                } else if step == STEP_LEFT {
                    find_at(&n.left, path, i + 1)
                } else if step == STEP_RIGHT {
                    find_at(&n.right, path, i + 1)
                } else {
                    Option::None
                }
            },
        },
    }
}

} // verus!

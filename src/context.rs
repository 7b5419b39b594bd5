//! An explicit storage context that lends a tree to a closure.
use vstd::prelude::*;

verus! {

/// A storage context: lends a store to one closure at a time and refuses
/// nested entry.
#[derive(Debug)]
pub struct StorageContext {
    entered: bool,
}

impl StorageContext {
    /// Whether a closure is running inside this context.
    pub closed spec fn is_entered(&self) -> bool {
        self.entered
    }

    /// A context that no closure has entered.
    pub fn new() -> (r: StorageContext)
        ensures
            !r.is_entered(),
    {
        StorageContext { entered: false }
    }

    /// Lends the store `mkvs` to `f`, which hands it back, possibly changed,
    /// with its result. Entry is refused while another closure runs.
    pub fn enter<M, F, R>(&mut self, mkvs: M, f: F) -> (r: (M, R))
        where
            F: FnOnce(M) -> (M, R),
        requires
            !old(self).is_entered(),
            f.requires((mkvs,)),
        ensures
            !final(self).is_entered(),
            f.ensures((mkvs,), r),
    {
        self.entered = true;
        let r = f(mkvs);
        self.entered = false;
        r
    }
}

} // verus!

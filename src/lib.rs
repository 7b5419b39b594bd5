//! The authenticated-tree core of a Merklized key-value store: nodes and
//! pointers with clean and dirty state, the commit that recomputes digests
//! bottom-up and defers its bookkeeping, eviction of committed nodes, and the
//! canonical byte encoding of nodes.
pub mod hash;
pub mod codec;
pub mod commit;
pub mod context;
pub mod finish;
pub mod ints;
pub mod node;
pub mod tree;

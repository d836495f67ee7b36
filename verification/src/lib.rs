//! An ordered multiset of `u64` items, backed by an unbalanced binary search
//! tree that keeps duplicate items on a per-node chain instead of extra tree
//! nodes. Every operation carries a contract over the in-order sequence of
//! stored items, and the general laws of the container are proved in `laws`.

pub mod laws;
pub mod tree;

pub use tree::Node;
pub use tree::Tree;

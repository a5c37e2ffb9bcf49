//! An ordered multiset of `i64` values kept in a balanced search tree whose
//! internal nodes have two or three children and whose leaves hold one or two
//! values, with counts for lookup by rank and a cursor that walks the values
//! in order from either end.

pub mod node;
pub mod search;
pub mod tree;
pub mod iter;
pub mod laws;

pub use iter::BTreeIter;
pub use node::{BTreeLeaf, BTreeNode, BTreeSubTree};
pub use tree::BTree;

//! A chained, recursive binary search tree over `i64` values.
//!
//! The tree keeps at least one value at all times: it is created from a root
//! value, grows through [`BinarySearchTree::insert`], answers membership
//! queries through [`BinarySearchTree::find`], and shrinks through
//! [`BinarySearchTree::remove`], which consumes the tree and returns `None`
//! once the last value is gone. No balancing is performed.

mod binary_search_tree;

pub use binary_search_tree::BinarySearchTree;
pub use binary_search_tree::lemma_find_after_insert;
pub use binary_search_tree::lemma_insert_idempotent;
pub use binary_search_tree::lemma_node_ordering;
pub use binary_search_tree::lemma_remove_empties_only_singleton;
pub use binary_search_tree::lemma_remove_keeps_others;
pub use binary_search_tree::lemma_removed_value_absent;

//! A balanced multi-way search tree (B-tree) of runtime order `m`,
//! supporting ordered key insertion with automatic node splitting and
//! root growth. Lookup, deletion and iteration are out of scope; the
//! tree exposes insertion and an in-order read-out of its keys.

mod node;
mod order;
mod tree;

pub use node::Flow;
pub use node::Node;
pub use tree::lemma_tree_in_order_sorted;
pub use tree::lemma_tree_leaves_level;
pub use tree::lemma_tree_node_shape;
pub use tree::BTree;

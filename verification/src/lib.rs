//! A family of key-ordered containers: a red-black map, a splay map, a
//! treap map and set, leftist mergeable heaps (ephemeral and
//! persistent), and segment trees (array-backed and
//! version-persistent), together with a few self-contained utilities
//! (a Fenwick tree and a disjoint-set union).
//!
//! Every container carries a mathematical view (a `Map`, `Multiset`,
//! `Set` or `Seq`) and each operation's contract states its effect on
//! that view.

pub mod bitree;
pub mod dsu;
pub mod leftist_tree;
pub mod rbtree;
mod rng;
pub mod segment_tree;
mod shared;
pub mod sparse_table;
pub mod splay_tree;
pub mod treap;

pub use bitree::BIT;
pub use dsu::DSU;
pub use leftist_tree::LeftistTree;
pub use leftist_tree::PstLeftistTree;
pub use rbtree::RBTreeMap;
pub use segment_tree::PstSegTree;
pub use segment_tree::SegTree;
pub use sparse_table::SparseTable;
pub use splay_tree::SplayTreeMap;
pub use treap::TreapMap;
pub use treap::TreapSet;

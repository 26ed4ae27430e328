//! An ordered store of entries in memory, kept as a red-black tree whose
//! nodes live in an arena, with proofs that every insertion keeps the
//! search order and the balance of the tree.
//!
//! `tree` holds the mathematical model of a tree and of insertion and
//! search; `laws` what is proved of that model; `node` the arena, its nodes
//! and the links between them; `route` and `layout` the way from the root to
//! a node and the state of the arena while an insertion is under way;
//! `memtable` the store itself; `order` the order of the keys.

pub mod laws;
pub mod layout;
pub mod memtable;
pub mod node;
pub mod order;
pub mod route;
pub mod tree;

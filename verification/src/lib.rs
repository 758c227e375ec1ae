//! A persistent ordered collection of `i32` keys with rank and k-th element
//! queries, kept in shape by top-down splaying.
//!
//! Every operation takes a tree version and builds a new one, sharing the
//! subtrees that it did not touch with the version it started from. Nodes are
//! never changed once built, so a version stays valid and keeps its keys for
//! as long as it is held.

pub mod assembly;
pub mod command;
pub mod descent;
pub mod engine;
pub mod laws;
pub mod node;
pub mod ops;
pub mod order;

pub use crate::assembly::Splay;
pub use crate::command::{execute, predecessor, successor, Reply};
pub use crate::descent::{Descent, KeyProbe, RankProbe};
pub use crate::node::{TreeNode, LCHD, RCHD};

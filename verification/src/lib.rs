//! Building blocks for higher-throughput systems.
//!
//! - [`persistent_tree`]: an AVL tree whose every update gives a new version
//!   and leaves the old one as it was, so that a snapshot costs nothing.
//! - [`concurrent_hash_map`]: a hash map over a fixed table of chained
//!   buckets, with [`hash_key`] for what it asks of its keys.
//! - [`combinatorics`]: binomial coefficients modulo a number.
//! - [`ranking`]: the best `k` of a list of ranked items.
//! - [`key_order`]: what the tree asks of its keys.
//!
//! Every function states what it returns and what it changes, over the map
//! or the sequence that its data stands for, and is proved to do so.

pub mod combinatorics;
pub mod concurrent_hash_map;
pub mod hash_key;
pub mod key_order;
pub mod persistent_tree;
pub mod ranking;

//! Core of a structural source-code diff engine on compressed syntax trees.
//!
//! Two trees, already linearised in post-order, are related by a mapping
//! between their node indices.  The crate provides the mapping-store
//! substrate (dense, hash-backed and multi-valued variants), a decompressed
//! post-order view of a tree, an optimal Zhang–Shasha matcher for small
//! subtree pairs, and the greedy bottom-up matcher that drives them.

pub mod mapping_store;
pub mod multi_store;
pub mod tree_store;
pub mod decompressed;
pub mod zs;
pub mod greedy_bottom_up;
pub mod position;
pub mod full_node;
pub mod tuple_store;

//! Intrusive doubly-linked lists and a bounded "bucket" priority queue,
//! the core primitives of a gain-driven selection algorithm.
//!
//! Nodes live in a caller-owned [`dllist::Arena`]; links are arena indices,
//! so a node can migrate between a bucket of the queue and an external
//! waiting list without being copied.

pub mod array_like;
pub mod bpqueue;
pub mod dllist;
pub mod lict;
pub mod robin;

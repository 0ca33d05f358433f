//! Recall evaluation for approximate nearest-neighbor search.
//!
//! The crate selects the k smallest-distance candidates out of a stream
//! (two interchangeable algorithms, proved to agree), ranks a whole
//! dataset against a query to obtain the exact ground truth, scores the
//! recall of a retrieved neighbor list against it, and plans and
//! aggregates many seed-deterministic trials whose report cannot depend
//! on execution order.
//!
//! Distances are carried as IEEE 754 bit patterns ([`order`]), so every
//! comparison is an exact integer comparison; the floating-point oracle
//! that produces them, and all storage and index I/O, live with the
//! caller.

pub mod config;
pub mod errors;
pub mod order;
pub mod ranker;
pub mod recall;
pub mod select;
pub mod trials;

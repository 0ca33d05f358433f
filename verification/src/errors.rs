//! Error kinds.
//!
//! A data error poisons a trial and the whole run: a corrupted trial
//! cannot be safely averaged in. A configuration error is detected before
//! any trial runs. Each variant carries the offending values, so a failure
//! can be reproduced from its report. Storage failures — opening or
//! reading the dataset or the index — are the collaborators' own errors;
//! they arise outside this crate and propagate unchanged, never retried.

use vstd::prelude::*;

verus! {

/// Corrupted evaluation data, surfaced immediately and never retried.
#[derive(Clone, Copy, Debug, PartialEq, Eq, Structural)]
pub enum DataError {
    /// The query and a dataset vector differ in dimensionality; comparing
    /// them would silently truncate, so it is refused instead.
    DimensionMismatch { expected: usize, got: usize },
    /// The distance oracle produced a NaN or an infinity for the given
    /// identifier; the offending IEEE 754 bit pattern is kept.
    NonFiniteDistance { id: u32, bits: u32 },
}

/// An invalid run configuration, rejected before any trial executes.
#[derive(Clone, Copy, Debug, PartialEq, Eq, Structural)]
pub enum ConfigError {
    /// No trials were requested.
    NoTrials,
    /// No recall level was requested, so there is no k to rank at.
    NoRecallLevels,
    /// A recall level of zero was requested at the given position.
    ZeroRecallLevel { index: usize },
    /// The recall levels must be strictly increasing; the level at the
    /// given position is not above its predecessor.
    NonIncreasingRecallLevels { index: usize },
    /// A recall level exceeds the size of the computed ground truth.
    RecallLevelExceedsGroundTruth { index: usize, level: usize, ground_truth_len: usize },
    /// The dataset holds no vectors, so no query can be drawn.
    EmptyDataset,
}

} // verus!

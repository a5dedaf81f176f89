//! Aggregation and ranking of kill-event logs.
//!
//! The library turns rows of a fixed-layout CSV schema into per-file
//! aggregates, merges those aggregates (an associative and commutative
//! operation, so a parallel reduction may combine them in any order), and
//! ranks the most-used weapons and deadliest killers with deterministic
//! tie-breaking. All distances and percentages are held in hundredths,
//! so every quantity is an integer.

use vstd::prelude::*;

pub mod aggregate;
pub mod csv_input;
pub mod dist;
pub mod events;
pub mod merge;
pub mod ranking;
pub mod report;
pub mod text;

verus! {

/// A fatal pipeline failure: either a row could not be decoded into its
/// required fields, or the underlying input could not be read.
#[derive(Clone, Copy, PartialEq, Eq, Debug)]
pub enum PipelineError {
    /// A row is missing a required field or the file is not valid CSV.
    Parse,
    /// A file could not be opened or read.
    Io,
}

} // verus!

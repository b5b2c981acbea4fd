use vstd::prelude::*;

verus! {

/// The ways a simulation run can fail. All of them are fatal for the run.
#[derive(Debug, Clone, Copy, PartialEq, Eq, Structural)]
pub enum SimError {
    /// The run parameters are unusable (for instance a margin at least as large
    /// as the largest key, or no buckets at all).
    InvalidConfig,
    /// The random pool was asked for more values than it holds.
    Exhausted,
    /// The key range grew wider than the key width can hold, even after a rebase.
    RangeExhausted,
}

} // verus!

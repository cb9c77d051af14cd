//! How much of the machine sync may use.
use vstd::prelude::*;

verus! {

/// How much of the machine sync may use.
#[derive(Clone, Copy, Debug, PartialEq, Eq, Structural)]
pub enum PerformanceLevel {
    /// The least memory and load.
    Low,
    Medium,
    High,
    /// The most memory and load.
    Maximum,
}

/// The number of nullifiers that the wallet's map may hold, where there is a limit.
pub open spec fn nullifier_map_limit(performance_level: PerformanceLevel) -> Option<usize> {
    match performance_level {
        PerformanceLevel::Low => Some(0),
        PerformanceLevel::Medium => Some(125_000),
        PerformanceLevel::High => Some(2_000_000),
        PerformanceLevel::Maximum => None,
    }
}

/// The number of nullifiers that the wallet's map may hold, where there is a limit.
pub fn max_nullifier_map_size(performance_level: PerformanceLevel) -> (r: Option<usize>)
    ensures
        r == nullifier_map_limit(performance_level),
{
    match performance_level {
        PerformanceLevel::Low => Some(0),
        PerformanceLevel::Medium => Some(125_000),
        PerformanceLevel::High => Some(2_000_000),
        PerformanceLevel::Maximum => None,
    }
}

} // verus!

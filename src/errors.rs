use vstd::prelude::*;

verus! {

/// Conditions that stop a whole test run.
#[derive(Debug, Clone, Copy, PartialEq, Eq, Structural)]
pub enum AppError {
    /// The requested `(seed, instances)` pair runs past the largest seed.
    SeedRangeOutOfBounds,
    /// A spawned game could not be talked to through its standard streams.
    BrokenChildCommunication,
}

} // verus!

//! The error taxonomy of the engine.

use vstd::prelude::*;

verus! {

/// What training and generation can fail with.
#[derive(Debug, Clone, Copy, PartialEq, Eq, Structural)]
pub enum MarkovError {
    /// The sampler was asked to choose from an empty collection, or one
    /// with a weight that is not strictly positive.
    InvalidDistribution,
    /// Generation was asked for, but no trained prefix begins with
    /// `Start` (the model is empty or pathological).
    NoStartState,
    /// Reserved for the impossibility of a `Start` successor during
    /// training. The training operation proves this case unreachable, so
    /// the engine never produces it.
    InternalInvariantViolation,
}

} // verus!

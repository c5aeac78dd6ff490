//! Kinds of metabolism: how fast a culture's domain is meant to shrink.
use vstd::prelude::*;

verus! {

/// Kind of metabolism profile for a culture.
#[derive(Debug, Clone, Copy, PartialEq, Eq, Structural)]
pub enum MetabolismKind {
    /// Fast exponential domain reduction: aggressive pruning
    Exponential,
    /// Slow steady reduction: cautious, more stable
    Steady,
    /// Temperature-adaptive: switches between fast and slow
    Adaptive,
}

} // verus!

//! How strongly the circuit propagator prunes.

use vstd::prelude::*;

verus! {

/// The approach used to propagate the circuit constraint.
#[derive(Debug, Clone, Copy, PartialEq, Eq, Structural)]
pub enum CircuitPropagationMethod {
    /// Use the baseline circuit propagator.
    Base,
    /// Enable strong bridge detection.
    StrongBridges,
}

impl Default for CircuitPropagationMethod {
    fn default() -> (method: Self)
        ensures
            method == CircuitPropagationMethod::Base,
    {
        CircuitPropagationMethod::Base
    }
}

} // verus!

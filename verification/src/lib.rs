//! A circuit (Hamiltonian cycle) propagator over successor variables, with
//! its inference checkers, verified with Verus.
//!
//! Node `i` (0-based) has a successor variable whose values are 1-based node
//! labels: the value `j + 1` in its domain is the edge `i -> j`. The
//! propagator removes values that no single cycle through all nodes can use,
//! and fails where no such cycle remains.

pub mod options;
pub mod domains;
pub mod graph;
pub mod walk;
pub mod search;
pub mod checking;
pub mod scc_checker;
pub mod strong_bridge_checker;
pub mod propagator;
pub mod subcycles;
pub mod connectivity;
mod bitset;

pub use options::CircuitPropagationMethod;
pub use scc_checker::SCCChecker;
pub use strong_bridge_checker::StrongBridgeChecker;
pub use propagator::{CircuitChecker, CircuitConstructor, CircuitPropagator};

//! The checker that accepts an inference forced by a strong bridge.

use vstd::prelude::*;
use crate::checking::{VariableState, checker_graph, checker_successor_lists};
use crate::domains::{Comparison, Predicate};
use crate::graph::{reachable, without_edge};
use crate::search::search_avoiding_edge;

verus! {

/// Checks a propagation `[x_u == v + 1]` that claims the edge `u -> v` is a
/// strong bridge: without that edge, `u` cannot reach `v`.
#[derive(Debug, Clone)]
pub struct StrongBridgeChecker {
    /// The successor variable of each node, by variable index.
    pub successors: Vec<usize>,
}

impl StrongBridgeChecker {
    /// The node whose successor variable the consequent constrains (the first
    /// such node).
    pub open spec fn constrained_node(&self, consequent: Predicate, u: int) -> bool {
        &&& 0 <= u < self.successors@.len()
        &&& self.successors@[u] == consequent.variable
        &&& forall|j: int| 0 <= j < u ==> self.successors@[j] != consequent.variable
    }

    /// Whether the consequent is an assignment `[x_u == v + 1]` such that, in
    /// the graph induced by `state` without the edge `u -> v`, `u` cannot
    /// reach `v`. False where there is no consequent or it is not an
    /// assignment.
    pub fn check(&self, state: VariableState, premises: &[Predicate], consequent: Option<&Predicate>) -> (r: bool)
        requires
            state.above_min(),
            self.successors@.len() < i32::MAX,
            match consequent {
                Some(c) => c.comparison == Comparison::Equal ==> {
                    &&& 1 <= c.value <= self.successors@.len()
                    &&& exists|i: int| 0 <= i < self.successors@.len() && self.successors@[i] == c.variable
                },
                None => true,
            },
        ensures
            r == match consequent {
                None => false,
                Some(c) => c.comparison == Comparison::Equal && exists|u: int|
                    #[trigger] self.constrained_node(*c, u) && !reachable(
                        without_edge(checker_graph(state, self.successors@), u, c.value - 1),
                        u,
                        c.value - 1,
                    ),
            },
    {
        let consequent = match consequent {
            Some(c) => c,
            None => {
                return false;
            },
        };
        if consequent.comparison != Comparison::Equal {
            return false;
        }
        let v = (consequent.value - 1) as usize;
        let n = self.successors.len();
        let mut u: usize = 0;
        while u < n && self.successors[u] != consequent.variable
            invariant
                u <= n,
                n == self.successors@.len(),
                forall|j: int| 0 <= j < u ==> self.successors@[j] != consequent.variable,
            decreases n - u,
        {
            u = u + 1;
        }
        assert(self.constrained_node(*consequent, u as int));
        let adj = checker_successor_lists(&state, &self.successors);
        let ghost g = checker_graph(state, self.successors@);
        let (found, _marked) = search_avoiding_edge(&adj, u, v);
        proof {
            assert forall|w: int| #[trigger] self.constrained_node(*consequent, w) implies w == u by {
                if w < u {
                } else if w > u {
                }
            }
        }
        !found
    }
}

} // verus!

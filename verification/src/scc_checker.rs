//! The checker that accepts a conflict when the induced graph is not strongly
//! connected.

use vstd::prelude::*;
use crate::checking::{VariableState, checker_graph, checker_successor_lists};
use crate::domains::Predicate;
use crate::graph::strongly_connected;
use crate::search::{all_false, any_false, search_forward, search_backward};

verus! {

/// Checks a conflict that claims the possible successor graph is not a single
/// strongly connected component.
#[derive(Debug, Clone)]
pub struct SCCChecker {
    /// The successor variable of each node, by variable index.
    pub successors: Vec<usize>,
}

impl SCCChecker {
    /// Whether the graph induced by `state` fails to be one strongly connected
    /// component: true where it is not, false where it is (and for at most one
    /// node).
    pub fn check(&self, state: VariableState, premises: &[Predicate], consequent: Option<&Predicate>) -> (r: bool)
        requires
            state.above_min(),
            self.successors@.len() < i32::MAX,
        ensures
            r == (self.successors@.len() >= 2 && !strongly_connected(checker_graph(state, self.successors@))),
    {
        let n = self.successors.len();
        if n <= 1 {
            return false;
        }
        let adj = checker_successor_lists(&state, &self.successors);
        let ghost g = checker_graph(state, self.successors@);
        let mut visited = all_false(n);
        search_forward(&adj, 0, &mut visited);
        if any_false(&visited) {
            proof {
                let v = choose|v: int| 0 <= v < visited@.len() && !#[trigger] visited@[v];
                assert(!crate::graph::reachable(g, 0, v));
            }
            return true;
        }
        let mut visited_reverse = all_false(n);
        search_backward(&adj, 0, &mut visited_reverse);
        if any_false(&visited_reverse) {
            proof {
                let v = choose|v: int| 0 <= v < visited_reverse@.len() && !#[trigger] visited_reverse@[v];
                assert(!crate::graph::reachable(g, v, 0));
                if strongly_connected(g) {
                    assert(crate::graph::reachable(g, 0, v));
                }
            }
            return true;
        }
        proof {
            assert forall|v: int| 0 <= v < g.len() implies #[trigger] crate::graph::reachable(g, 0, v) && crate::graph::reachable(g, v, 0) by {
                assert(visited@[v]);
                assert(visited_reverse@[v]);
            }
        }
        false
    }
}

} // verus!

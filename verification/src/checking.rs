//! The variable state an inference checker reads, and the graph it induces.

use vstd::prelude::*;
use crate::domains::{Comparison, Predicate};
use crate::graph::Graph;
use crate::search::lists_graph;

verus! {

/// What an inference checker knows of the variables: for each variable (by
/// index), the values of its domain as induced by the premises, or `None`
/// where the premises leave it unbounded. Variables beyond the vector are
/// unbounded.
pub struct VariableState {
    pub induced: Vec<Option<Vec<i32>>>,
}

impl VariableState {
    /// The induced domain of `var`, if it is bounded.
    pub open spec fn induced_domain(&self, var: int) -> Option<Seq<i32>> {
        if 0 <= var < self.induced@.len() {
            match self.induced@[var] {
                Some(d) => Some(d@),
                None => None,
            }
        } else {
            None
        }
    }

    /// No induced domain holds `i32::MIN`.
    pub open spec fn above_min(&self) -> bool {
        forall|var: int| #![trigger self.induced_domain(var)]
            self.induced_domain(var) matches Some(d) ==> !d.contains(i32::MIN)
    }

    /// The induced domain of `var`, if it is bounded.
    pub fn iter_induced_domain(&self, var: usize) -> (r: Option<Vec<i32>>)
        ensures
            match r {
                Some(d) => self.induced_domain(var as int) == Some(d@),
                None => self.induced_domain(var as int) is None,
            },
    {
        if var < self.induced.len() {
            match &self.induced[var] {
                Some(d) => {
                    let mut copy: Vec<i32> = Vec::new();
                    let mut k: usize = 0;
                    while k < d.len()
                        invariant
                            k <= d@.len(),
                            copy@ == d@.subrange(0, k as int),
                        decreases d@.len() - k,
                    {
                        copy.push(d[k]);
                        k = k + 1;
                    }
                    assert(d@.subrange(0, d@.len() as int) == d@);
                    Some(copy)
                },
                None => None,
            }
        } else {
            None
        }
    }
}

/// Some premise bounds `var` from below (an assignment does).
pub open spec fn bounded_below(premises: Seq<Predicate>, var: int) -> bool {
    exists|i: int|
        #![trigger premises[i]]
        0 <= i < premises.len() && premises[i].variable == var && (premises[i].comparison == Comparison::GreaterEqual
            || premises[i].comparison == Comparison::Equal)
}

/// Some premise bounds `var` from above (an assignment does).
pub open spec fn bounded_above(premises: Seq<Predicate>, var: int) -> bool {
    exists|i: int|
        #![trigger premises[i]]
        0 <= i < premises.len() && premises[i].variable == var && (premises[i].comparison == Comparison::LessEqual
            || premises[i].comparison == Comparison::Equal)
}

/// The value `x` of `var` satisfies every premise on `var`.
pub open spec fn satisfies_premises(premises: Seq<Predicate>, var: int, x: i32) -> bool {
    forall|i: int| #![trigger premises[i]] 0 <= i < premises.len() && premises[i].variable == var ==> premises[i].holds(x)
}

/// `state` is what the atomic predicates `premises` induce: a variable that
/// the premises bound from below and from above gets exactly the values that
/// satisfy all its premises; every other variable is unbounded.
pub open spec fn induced_by(state: VariableState, premises: Seq<Predicate>) -> bool {
    forall|var: int|
        #![trigger state.induced_domain(var)]
        0 <= var ==> if bounded_below(premises, var) && bounded_above(premises, var) {
            &&& state.induced_domain(var) is Some
            &&& forall|x: i32| #[trigger] state.induced_domain(var)->0.contains(x) <==> satisfies_premises(premises, var, x)
        } else {
            state.induced_domain(var) is None
        }
}

/// The graph that a checker sees: node `u` has an edge to `v` where the value
/// `v + 1` is in the induced domain of the successor variable of `u`.
pub open spec fn checker_graph(state: VariableState, successors: Seq<usize>) -> Graph {
    Seq::new(
        successors.len(),
        |u: int|
            Set::new(
                |v: int|
                    0 <= v < successors.len() && match state.induced_domain(successors[u] as int) {
                        Some(d) => d.contains((v + 1) as i32),
                        None => false,
                    },
            ),
    )
}

/// The successor lists of the checker graph.
pub fn checker_successor_lists(state: &VariableState, successors: &Vec<usize>) -> (adj: Vec<Vec<usize>>)
    requires
        state.above_min(),
        successors@.len() < i32::MAX,
    ensures
        adj@.len() == successors@.len(),
        lists_graph(adj@) == checker_graph(*state, successors@),
{
    let n = successors.len();
    let mut adj: Vec<Vec<usize>> = Vec::new();
    let mut u: usize = 0;
    while u < n
        invariant
            u <= n,
            n == successors@.len(),
            n < i32::MAX,
            state.above_min(),
            adj@.len() == u,
            forall|w: int, v: int| #![trigger adj@[w]@.contains(v as usize)]
                0 <= w < u && 0 <= v < n ==> (adj@[w]@.contains(v as usize) <==> checker_graph(*state, successors@)[w].contains(v)),
        decreases n - u,
    {
        let mut list: Vec<usize> = Vec::new();
        match state.iter_induced_domain(successors[u]) {
            Some(domain) => {
                let mut k: usize = 0;
                while k < domain.len()
                    invariant
                        k <= domain@.len(),
                        n < i32::MAX,
                        u < n,
                        state.induced_domain(successors@[u as int] as int) == Some(domain@),
                        state.above_min(),
                        forall|v: int| 0 <= v < n ==> (#[trigger] list@.contains(v as usize) <==> domain@.subrange(0, k as int).contains((v + 1) as i32)),
                    decreases domain@.len() - k,
                {
                    let domain_value = domain[k];
                    proof {
                        assert(!domain@.contains(i32::MIN));
                        assert(domain@.contains(domain_value));
                    }
                    let ghost old_list = list@;
                    if domain_value >= 1 && ((domain_value - 1) as usize) < n {
                        list.push((domain_value - 1) as usize);
                    }
                    proof {
                        let ghost pre = domain@.subrange(0, k as int);
                        assert(domain@.subrange(0, k + 1) == pre.push(domain_value));
                        crate::domains::lemma_push_contains(pre, domain_value);
                        crate::domains::lemma_push_contains(old_list, (domain_value - 1) as usize);
                        assert forall|v: int| 0 <= v < n implies (#[trigger] list@.contains(v as usize) <==> domain@.subrange(0, k + 1).contains((v + 1) as i32)) by {
                            if (v + 1) as i32 == domain_value {
                                assert(v + 1 == domain_value);
                            }
                        }
                    }
                    k = k + 1;
                }
                assert(domain@.subrange(0, domain@.len() as int) == domain@);
            },
            None => {},
        }
        adj.push(list);
        proof {
            assert forall|w: int, v: int| #![trigger adj@[w]@.contains(v as usize)]
                0 <= w < u + 1 && 0 <= v < n implies (adj@[w]@.contains(v as usize) <==> checker_graph(*state, successors@)[w].contains(v)) by {
                if w == u {
                    assert(adj@[w] == list);
                    if state.induced_domain(successors@[u as int] as int) is None {
                        assert(!list@.contains(v as usize));
                    }
                }
            }
        }
        u = u + 1;
    }
    proof {
        let g = lists_graph(adj@);
        let h = checker_graph(*state, successors@);
        assert forall|w: int| 0 <= w < n implies g[w] =~= h[w] by {
            assert forall|v: int| g[w].contains(v) <==> h[w].contains(v) by {
                if 0 <= v < n {
                    assert(adj@[w]@.contains(v as usize) <==> h[w].contains(v));
                }
            }
        }
        assert(g =~= h);
    }
    adj
}

} // verus!

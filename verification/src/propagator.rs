//! The circuit propagator: its constructor, its state, explanations, and the
//! propagation entry points.

use vstd::prelude::*;
use crate::domains::{
    Comparison, Conflict, Domains, InferenceCode, InferenceLabel, Predicate, equals, lemma_sorted_subset_len_le,
    not_equals,
};
use crate::graph::{
    Graph, has_edge, lemma_closed_forward, lemma_reachable_refl, lemma_reachable_step, marked, reachable,
    strongly_connected, without_edge,
};
use crate::options::CircuitPropagationMethod;
use crate::scc_checker::SCCChecker;
use crate::checking::{
    VariableState, bounded_above, bounded_below, checker_graph, induced_by, satisfies_premises,
};
use crate::strong_bridge_checker::StrongBridgeChecker;
use crate::walk::{
    Successors, hamiltonian_from, has_short_cycle, walk_nodes, stops, first_repeat,
    total, lemma_total_hamiltonian,
};

verus! {

/// The offset between 0-based node indices and the 1-based values of the
/// successor variables.
pub const VALUE_OFFSET: usize = 1;

/// The 0-based node that the value `domain_value` names.
pub fn domain_value_to_index(domain_value: i32) -> (index: usize)
    requires
        domain_value >= 1,
    ensures
        index == domain_value - 1,
{
    domain_value as usize - VALUE_OFFSET
}

/// The value that names the 0-based node `index`.
pub fn index_to_domain_value(index: usize) -> (value: i32)
    requires
        index < i32::MAX,
    ensures
        value == index + 1,
{
    index as i32 + VALUE_OFFSET as i32
}

/// The domain events on which a propagator asks to be run.
#[derive(Debug, Clone, Copy, PartialEq, Eq, Structural)]
pub enum DomainEvents {
    /// A variable is assigned.
    Assign,
    /// Any change of an integer domain.
    AnyInt,
}

/// A request to run the propagator when `variable` changes by `events`;
/// `local_id` is the position of the variable among the successors.
#[derive(Debug, Clone, Copy, PartialEq, Eq, Structural)]
pub struct Registration {
    pub variable: usize,
    pub events: DomainEvents,
    pub local_id: u32,
    pub backtrack: bool,
}

/// What a propagator registers while it is created.
pub struct PropagatorConstructorContext {
    pub registrations: Vec<Registration>,
}

impl PropagatorConstructorContext {
    /// Asks to run the propagator when `variable` changes by `events`.
    pub fn register(&mut self, variable: usize, events: DomainEvents, local_id: u32)
        ensures
            final(self).registrations@ == old(self).registrations@.push(
                Registration { variable, events, local_id, backtrack: false },
            ),
    {
        self.registrations.push(Registration { variable, events, local_id, backtrack: false });
    }

    /// Asks to be notified when `variable` is restored on backtracking.
    pub fn register_backtrack(&mut self, variable: usize, events: DomainEvents, local_id: u32)
        ensures
            final(self).registrations@ == old(self).registrations@.push(
                Registration { variable, events, local_id, backtrack: true },
            ),
    {
        self.registrations.push(Registration { variable, events, local_id, backtrack: true });
    }
}

/// The checker of the subcycle prevention inferences of the circuit
/// constraint: it holds the successor variables it checks them against.
#[derive(Debug, Clone)]
pub struct CircuitChecker {
    /// The successor variable of each node, by variable index.
    pub successors: Vec<usize>,
}

/// An inference checker of the circuit constraint.
#[derive(Debug)]
pub enum InferenceChecker {
    Circuit(CircuitChecker),
    StrongBridge(StrongBridgeChecker),
    SCC(SCCChecker),
}

/// The inference checkers registered for a constraint, each with the code of
/// the inferences it checks.
#[derive(Debug)]
pub struct InferenceCheckers {
    pub checkers: Vec<(InferenceCode, InferenceChecker)>,
}

impl InferenceCheckers {
    /// Registers `checker` for the inferences with `code`.
    pub fn add_inference_checker(&mut self, code: InferenceCode, checker: InferenceChecker)
        ensures
            final(self).checkers@ == old(self).checkers@.push((code, checker)),
    {
        self.checkers.push((code, checker));
    }
}

/// The constructor of the circuit propagator: the successor variables, the
/// tag of the constraint (for proof logging) and the propagation method.
pub struct CircuitConstructor {
    /// The successor variable of each node, by variable index.
    pub successors: Vec<usize>,
    pub constraint_tag: u32,
    pub propagation_method: CircuitPropagationMethod,
}

/// The registrations of the successor variables for `events`: for each node in
/// order, one for changes and one for backtracking, with the node as local id.
pub open spec fn registrations_for(successors: Seq<usize>, events: DomainEvents) -> Seq<Registration> {
    Seq::new(
        2 * successors.len(),
        |k: int| Registration { variable: successors[k / 2], events, local_id: (k / 2) as u32, backtrack: k % 2 == 1 },
    )
}

/// A copy of a list of variables.
fn copy_variables(v: &Vec<usize>) -> (r: Vec<usize>)
    ensures
        r@ == v@,
{
    let mut r: Vec<usize> = Vec::new();
    let mut k: usize = 0;
    while k < v.len()
        invariant
            k <= v@.len(),
            r@ == v@.subrange(0, k as int),
        decreases v@.len() - k,
    {
        r.push(v[k]);
        k = k + 1;
    }
    assert(v@.subrange(0, v@.len() as int) == v@);
    r
}

impl CircuitConstructor {
    /// The events on which the propagator runs: assignments for the base
    /// method, any domain change with strong bridges.
    pub open spec fn events(&self) -> DomainEvents {
        match self.propagation_method {
            CircuitPropagationMethod::Base => DomainEvents::Assign,
            CircuitPropagationMethod::StrongBridges => DomainEvents::AnyInt,
        }
    }

    /// Registers the successor variables and creates the propagator.
    pub fn create(self, context: &mut PropagatorConstructorContext) -> (p: CircuitPropagator)
        ensures
            final(context).registrations@ == old(context).registrations@ + registrations_for(self.successors@, self.events()),
            final(context).registrations@.len() == old(context).registrations@.len() + 2 * self.successors@.len(),
            forall|k: int| 0 <= k < 2 * self.successors@.len() ==> {
                let reg = #[trigger] final(context).registrations@[old(context).registrations@.len() + k];
                &&& reg.variable == self.successors@[k / 2]
                &&& reg.local_id == (k / 2) as u32
                &&& reg.backtrack == (k % 2 == 1)
                &&& reg.events == self.events()
            },
            p.successors@ == self.successors@,
            p.inference_code == (InferenceCode { constraint_tag: self.constraint_tag, label: InferenceLabel::CircuitPrevent }),
            p.strong_bridge_code == (InferenceCode { constraint_tag: self.constraint_tag, label: InferenceLabel::StrongBridge }),
            p.scc_code == (InferenceCode { constraint_tag: self.constraint_tag, label: InferenceLabel::SCCCheck }),
            p.statistics == (StrongBridgeStatistics { number_of_sb_propagations: 0, number_of_scc_propagations: 0 }),
            p.use_strong_bridges == (self.propagation_method == CircuitPropagationMethod::StrongBridges),
    {
        let event = match self.propagation_method {
            CircuitPropagationMethod::Base => DomainEvents::Assign,
            CircuitPropagationMethod::StrongBridges => DomainEvents::AnyInt,
        };
        let ghost base = context.registrations@;
        let ghost all = registrations_for(self.successors@, event);
        let mut index: usize = 0;
        while index < self.successors.len()
            invariant
                index <= self.successors@.len(),
                all == registrations_for(self.successors@, event),
                context.registrations@ == base + all.subrange(0, 2 * index as int),
            decreases self.successors@.len() - index,
        {
            let successor = self.successors[index];
            context.register(successor, event, index as u32);
            context.register_backtrack(successor, event, index as u32);
            proof {
                assert(all[2 * index as int] == Registration { variable: successor, events: event, local_id: index as u32, backtrack: false });
                assert(all[2 * index + 1] == Registration { variable: successor, events: event, local_id: index as u32, backtrack: true });
                assert(all.subrange(0, 2 * index + 2) =~= all.subrange(0, 2 * index as int).push(all[2 * index as int]).push(all[2 * index + 1]));
            }
            index = index + 1;
        }
        proof {
            assert(all.subrange(0, 2 * self.successors@.len() as int) =~= all);
        }
        let use_strong_bridges = match self.propagation_method {
            CircuitPropagationMethod::Base => false,
            CircuitPropagationMethod::StrongBridges => true,
        };
        CircuitPropagator {
            successors: self.successors,
            inference_code: InferenceCode { constraint_tag: self.constraint_tag, label: InferenceLabel::CircuitPrevent },
            strong_bridge_code: InferenceCode { constraint_tag: self.constraint_tag, label: InferenceLabel::StrongBridge },
            scc_code: InferenceCode { constraint_tag: self.constraint_tag, label: InferenceLabel::SCCCheck },
            statistics: StrongBridgeStatistics { number_of_sb_propagations: 0, number_of_scc_propagations: 0 },
            use_strong_bridges,
        }
    }

    /// Registers the checkers for the propagator's inferences: the subcycle
    /// prevention checker, the strong bridge checker and the connectivity
    /// checker, in that order.
    pub fn add_inference_checkers(&self, checkers: &mut InferenceCheckers)
        ensures
            final(checkers).checkers@.len() == old(checkers).checkers@.len() + 3,
            final(checkers).checkers@.subrange(0, old(checkers).checkers@.len() as int) == old(checkers).checkers@,
            ({
                let (code, checker) = final(checkers).checkers@[old(checkers).checkers@.len() as int];
                &&& code == InferenceCode { constraint_tag: self.constraint_tag, label: InferenceLabel::CircuitPrevent }
                &&& checker matches InferenceChecker::Circuit(c) && c.successors@ == self.successors@
            }),
            ({
                let (code, checker) = final(checkers).checkers@[old(checkers).checkers@.len() as int + 1];
                &&& code == InferenceCode { constraint_tag: self.constraint_tag, label: InferenceLabel::StrongBridge }
                &&& checker matches InferenceChecker::StrongBridge(c) && c.successors@ == self.successors@
            }),
            ({
                let (code, checker) = final(checkers).checkers@[old(checkers).checkers@.len() as int + 2];
                &&& code == InferenceCode { constraint_tag: self.constraint_tag, label: InferenceLabel::SCCCheck }
                &&& checker matches InferenceChecker::SCC(c) && c.successors@ == self.successors@
            }),
    {
        checkers.add_inference_checker(
            InferenceCode { constraint_tag: self.constraint_tag, label: InferenceLabel::CircuitPrevent },
            InferenceChecker::Circuit(CircuitChecker { successors: copy_variables(&self.successors) }),
        );
        checkers.add_inference_checker(
            InferenceCode { constraint_tag: self.constraint_tag, label: InferenceLabel::StrongBridge },
            InferenceChecker::StrongBridge(StrongBridgeChecker { successors: copy_variables(&self.successors) }),
        );
        checkers.add_inference_checker(
            InferenceCode { constraint_tag: self.constraint_tag, label: InferenceLabel::SCCCheck },
            InferenceChecker::SCC(SCCChecker { successors: copy_variables(&self.successors) }),
        );
        proof {
            assert(checkers.checkers@.subrange(0, old(checkers).checkers@.len() as int) =~= old(checkers).checkers@);
        }
    }
}

/// Counts of the propagations made by the strong bridge extension.
#[derive(Debug, Clone, Copy, PartialEq, Eq, Structural)]
pub struct StrongBridgeStatistics {
    pub number_of_sb_propagations: usize,
    pub number_of_scc_propagations: usize,
}

/// The circuit propagator: the successor variables of the nodes must form a
/// single cycle through all nodes.
pub struct CircuitPropagator {
    /// The successor variable of each node, by variable index.
    pub successors: Vec<usize>,
    pub inference_code: InferenceCode,
    pub strong_bridge_code: InferenceCode,
    pub scc_code: InferenceCode,
    pub statistics: StrongBridgeStatistics,
    pub use_strong_bridges: bool,
}

/// The graph whose edges `u -> v` are the values `v + 1` of the successor
/// variables.
pub open spec fn successor_graph(d: Domains, successors: Seq<usize>) -> Graph {
    Seq::new(
        successors.len(),
        |u: int| Set::new(|v: int| 0 <= v < successors.len() && d.values(successors[u] as int).contains((v + 1) as i32)),
    )
}

/// A solution as a successor function.
pub open spec fn as_successors(sol: Seq<int>) -> Successors {
    Seq::new(sol.len(), |u: int| Some(sol[u]))
}

/// The predicate `[x >= value]`.
pub open spec fn at_least(variable: usize, value: i32) -> Predicate {
    Predicate { variable, comparison: Comparison::GreaterEqual, value }
}

/// The predicate `[x <= value]`.
pub open spec fn at_most(variable: usize, value: i32) -> Predicate {
    Predicate { variable, comparison: Comparison::LessEqual, value }
}

/// The domain of `var` as predicates: its bounds and its holes.
pub open spec fn domain_description(d: Domains, var: usize) -> Seq<Predicate> {
    seq![at_least(var, d.values(var as int)[0]), at_most(var, d.values(var as int).last())]
        + d.holes(var as int).map_values(|h: i32| not_equals(var, h))
}

impl CircuitPropagator {
    /// The number of nodes.
    pub open spec fn n(&self) -> nat {
        self.successors@.len()
    }

    /// The domains hold the successor variables, and the nodes can be named
    /// by `i32` values.
    pub open spec fn covers(&self, d: Domains) -> bool {
        &&& d.wf()
        &&& self.successors@.len() < i32::MAX
        &&& forall|u: int| 0 <= u < self.successors@.len() ==> (#[trigger] self.successors@[u] as int) < d.num_vars()
    }

    /// The domains hold the successor variables, and every current value of
    /// a successor variable names a node.
    pub open spec fn in_range(&self, d: Domains) -> bool {
        &&& self.covers(d)
        &&& forall|u: int, x: i32|
            0 <= u < self.successors@.len() && #[trigger] d.values(self.successors@[u] as int).contains(x)
                ==> 1 <= x <= self.successors@.len()
    }

    /// The domains hold the successor variables, and every value they ever
    /// had names a node.
    pub open spec fn fits(&self, d: Domains) -> bool {
        &&& self.in_range(d)
        &&& forall|u: int, x: i32|
            0 <= u < self.successors@.len() && #[trigger] d.initial_values(self.successors@[u] as int).contains(x)
                ==> 1 <= x <= self.successors@.len()
    }

    /// The number of values of the successor variables of the first `k`
    /// nodes, together.
    pub open spec fn domain_total(&self, d: Domains, k: int) -> nat
        decreases k,
    {
        if k <= 0 {
            0
        } else {
            self.domain_total(d, k - 1) + d.values(self.successors@[k - 1] as int).len()
        }
    }

    /// Shrinking the domains never makes their total larger.
    pub proof fn lemma_domain_total_shrinks(&self, d0: Domains, d: Domains, k: int)
        requires
            self.covers(d0),
            Domains::shrinks_to(d0, d),
            0 <= k <= self.n(),
        ensures
            self.domain_total(d, k) <= self.domain_total(d0, k),
        decreases k,
    {
        if k > 0 {
            self.lemma_domain_total_shrinks(d0, d, k - 1);
            d.lemma_wf();
            d0.lemma_wf();
            let var = self.successors@[k - 1] as int;
            assert forall|y: i32| #[trigger] d.values(var).contains(y) implies d0.values(var).contains(y) by {}
            lemma_sorted_subset_len_le(d.values(var), d0.values(var));
        }
    }

    /// The graph of the possible successors (values that name no node give no
    /// edge).
    pub open spec fn graph(&self, d: Domains) -> Graph {
        successor_graph(d, self.successors@)
    }

    /// The successor of each node whose variable is assigned a value that
    /// names a node.
    pub open spec fn fixed_successors(&self, d: Domains) -> Successors {
        Seq::new(
            self.successors@.len(),
            |u: int|
                match d.fixed(self.successors@[u] as int) {
                    Some(x) => if 1 <= x <= self.successors@.len() { Some(x - 1) } else { None },
                    None => None,
                },
        )
    }

    /// `sol` (the successor node of each node) is a solution within `d`: a
    /// single cycle through all nodes, agreeing with the domains and with
    /// nodes that share a variable.
    pub open spec fn is_solution(&self, d: Domains, sol: Seq<int>) -> bool {
        let n = self.successors@.len();
        &&& sol.len() == n
        &&& forall|u: int|
            0 <= u < n ==> 0 <= #[trigger] sol[u] < n && d.values(self.successors@[u] as int).contains((sol[u] + 1) as i32)
        &&& forall|u: int, w: int|
            0 <= u < n && 0 <= w < n && #[trigger] self.successors@[u] == #[trigger] self.successors@[w] ==> sol[u] == sol[w]
        &&& hamiltonian_from(as_successors(sol), 0)
    }

    /// The predicates `[x_u == value]` for the nodes `u` of `path`, whose
    /// variables are assigned.
    pub open spec fn fixed_description(&self, d: Domains, path: Seq<usize>) -> Seq<Predicate> {
        Seq::new(
            path.len(),
            |i: int| equals(self.successors@[path[i] as int], d.fixed(self.successors@[path[i] as int] as int)->0),
        )
    }

    /// The domains of the successor variables of the first `k` nodes, as
    /// predicates.
    pub open spec fn full_description(&self, d: Domains, k: int) -> Seq<Predicate>
        decreases k,
    {
        if k <= 0 {
            Seq::empty()
        } else {
            self.full_description(d, k - 1) + domain_description(d, self.successors@[k - 1])
        }
    }

    /// For the node `node`, the predicates `[x_node != x]` for the values `x`
    /// among `vals` that its initial domain had and its domain has lost, whose
    /// node is not marked in `visited`, and that are not the edge `u -> v`.
    pub open spec fn pruned_exits(&self, d: Domains, visited: Seq<bool>, u: int, v: int, node: int, vals: Seq<i32>) -> Seq<Predicate>
        decreases vals.len(),
    {
        if vals.len() == 0 {
            Seq::empty()
        } else {
            let rest = self.pruned_exits(d, visited, u, v, node, vals.drop_last());
            let x = vals.last();
            if !d.values(self.successors@[node] as int).contains(x) && !visited[x - 1] && !(node == u && x - 1 == v) {
                rest.push(not_equals(self.successors@[node], x))
            } else {
                rest
            }
        }
    }

    /// The removed edges that leave the marked nodes among the first `k`, but
    /// for `u -> v`, as predicates.
    pub open spec fn bridge_description(&self, d: Domains, visited: Seq<bool>, u: int, v: int, k: int) -> Seq<Predicate>
        decreases k,
    {
        if k <= 0 {
            Seq::empty()
        } else {
            let rest = self.bridge_description(d, visited, u, v, k - 1);
            if visited[k - 1] {
                rest + self.pruned_exits(d, visited, u, v, k - 1, d.initial_values(self.successors@[k - 1] as int))
            } else {
                rest
            }
        }
    }

    /// The graph of the initial edges `w -> y` (the values `y + 1` that the
    /// initial domains held) without those that `explanation` negates and
    /// without the edge `u -> v`: what the explanation of a strong bridge
    /// leaves possible.
    pub open spec fn explained_graph(&self, d: Domains, explanation: Seq<Predicate>, u: int, v: int) -> Graph {
        Seq::new(
            self.successors@.len(),
            |w: int|
                Set::new(
                    |y: int|
                        0 <= y < self.successors@.len() && d.initial_values(self.successors@[w] as int).contains((y + 1) as i32)
                            && !explanation.contains(not_equals(self.successors@[w], (y + 1) as i32)) && !(w == u && y == v),
                ),
        )
    }

    /// A removed exit of `node` with a value of `vals` is among its pruned
    /// exits.
    proof fn lemma_pruned_exits_contains(&self, d: Domains, visited: Seq<bool>, u: int, v: int, node: int, vals: Seq<i32>, x: i32)
        requires
            vals.contains(x),
            !d.values(self.successors@[node] as int).contains(x),
            !visited[x - 1],
            !(node == u && x - 1 == v),
        ensures
            self.pruned_exits(d, visited, u, v, node, vals).contains(not_equals(self.successors@[node], x)),
        decreases vals.len(),
    {
        let rest = self.pruned_exits(d, visited, u, v, node, vals.drop_last());
        let all = self.pruned_exits(d, visited, u, v, node, vals);
        let p = not_equals(self.successors@[node], x);
        if vals.last() == x {
            assert(all == rest.push(p));
            assert(all[all.len() - 1] == p);
        } else {
            let i = choose|i: int| 0 <= i < vals.len() && vals[i] == x;
            assert(i < vals.len() - 1);
            assert(vals.drop_last()[i] == x);
            self.lemma_pruned_exits_contains(d, visited, u, v, node, vals.drop_last(), x);
            let j = choose|j: int| 0 <= j < rest.len() && rest[j] == p;
            if all != rest {
                assert(all[j] == p);
            }
        }
    }

    /// A removed exit of a marked node among the first `k` is in the strong
    /// bridge description.
    proof fn lemma_bridge_description_contains(&self, d: Domains, visited: Seq<bool>, u: int, v: int, k: int, node: int, x: i32)
        requires
            0 <= node < k,
            visited[node],
            d.initial_values(self.successors@[node] as int).contains(x),
            !d.values(self.successors@[node] as int).contains(x),
            !visited[x - 1],
            !(node == u && x - 1 == v),
        ensures
            self.bridge_description(d, visited, u, v, k).contains(not_equals(self.successors@[node], x)),
        decreases k,
    {
        let rest = self.bridge_description(d, visited, u, v, k - 1);
        let all = self.bridge_description(d, visited, u, v, k);
        let p = not_equals(self.successors@[node], x);
        if node == k - 1 {
            let pe = self.pruned_exits(d, visited, u, v, node, d.initial_values(self.successors@[node] as int));
            self.lemma_pruned_exits_contains(d, visited, u, v, node, d.initial_values(self.successors@[node] as int), x);
            assert(all == rest + pe);
            let j = choose|j: int| 0 <= j < pe.len() && pe[j] == p;
            assert(all[rest.len() + j] == p);
        } else {
            self.lemma_bridge_description_contains(d, visited, u, v, k - 1, node, x);
            let j = choose|j: int| 0 <= j < rest.len() && rest[j] == p;
            assert(all[j] == p);
        }
    }

    /// The explanation of a strong bridge implies it: where `visited` marks
    /// exactly the nodes that `u` reaches without the edge `u -> v`, and `v`
    /// is not among them, then also in the initial graph without the edges
    /// that the explanation negates and without `u -> v`, `u` cannot reach
    /// `v`.
    pub proof fn lemma_bridge_explanation_implies_bridge(&self, d: Domains, visited: Seq<bool>, u: int, v: int)
        requires
            self.fits(d),
            0 <= u < self.n(),
            0 <= v < self.n(),
            visited.len() == self.n(),
            forall|w: int| 0 <= w < self.n() ==> (visited[w] <==> #[trigger] reachable(without_edge(self.graph(d), u, v), u, w)),
            !reachable(without_edge(self.graph(d), u, v), u, v),
        ensures
            !reachable(self.explained_graph(d, self.bridge_description(d, visited, u, v, self.n() as int), u, v), u, v),
    {
        let n = self.n() as int;
        let e = self.bridge_description(d, visited, u, v, n);
        let g2 = self.explained_graph(d, e, u, v);
        let gw = without_edge(self.graph(d), u, v);
        let set = marked(visited);
        lemma_reachable_refl(gw, u);
        assert(set.contains(u));
        assert forall|a: int, b: int| #[trigger] set.contains(a) && has_edge(g2, a, b) implies #[trigger] set.contains(b) by {
            assert(visited[a]);
            assert(reachable(gw, u, a));
            let x = (b + 1) as i32;
            assert(x - 1 == b);
            if d.values(self.successors@[a] as int).contains(x) {
                assert(self.graph(d)[a].contains(b));
                assert(has_edge(gw, a, b));
                lemma_reachable_step(gw, u, a, b);
            } else if !visited[b] {
                self.lemma_bridge_description_contains(d, visited, u, v, n, a, x);
                assert(!e.contains(not_equals(self.successors@[a], x)));
            }
        }
        if reachable(g2, u, v) {
            lemma_closed_forward(g2, set, u, v);
        }
    }

    /// Every current value of a successor variable names a node, and so does
    /// every initial one where the domains fit.
    pub proof fn lemma_values_in_range(&self, d: Domains, u: int, x: i32)
        requires
            self.in_range(d),
            0 <= u < self.n(),
        ensures
            d.values(self.successors@[u] as int).contains(x) ==> 1 <= x <= self.n(),
            self.fits(d) ==> (d.initial_values(self.successors@[u] as int).contains(x) ==> 1 <= x <= self.n()),
    {
    }

    /// The whole graph of possible successors as a conjunction: the bounds and
    /// holes of every successor variable.
    pub fn create_full_graph_explanation(&self, d: &Domains) -> (explanation: Vec<Predicate>)
        requires
            self.covers(*d),
        ensures
            explanation@ == self.full_description(*d, self.n() as int),
    {
        let n = self.successors.len();
        let mut explanation: Vec<Predicate> = Vec::new();
        let mut i: usize = 0;
        while i < n
            invariant
                i <= n,
                n == self.n(),
                self.covers(*d),
                explanation@ == self.full_description(*d, i as int),
            decreases n - i,
        {
            let node = self.successors[i];
            let lb = d.lower_bound(node);
            explanation.push(Predicate { variable: node, comparison: Comparison::GreaterEqual, value: lb });
            let ub = d.upper_bound(node);
            explanation.push(Predicate { variable: node, comparison: Comparison::LessEqual, value: ub });
            let ghost base = self.full_description(*d, i as int);
            let holes = d.get_holes(node);
            let mut k: usize = 0;
            while k < holes.len()
                invariant
                    k <= holes@.len(),
                    explanation@ == base + seq![at_least(node, lb), at_most(node, ub)] + holes@.subrange(0, k as int).map_values(|h: i32| not_equals(node, h)),
                decreases holes@.len() - k,
            {
                explanation.push(Predicate { variable: node, comparison: Comparison::NotEqual, value: holes[k] });
                proof {
                    assert(holes@.subrange(0, k + 1).map_values(|h: i32| not_equals(node, h)) =~= holes@.subrange(0, k as int).map_values(|h: i32| not_equals(node, h)).push(not_equals(node, holes@[k as int])));
                }
                k = k + 1;
            }
            proof {
                assert(holes@.subrange(0, holes@.len() as int) == holes@);
                assert(explanation@ =~= self.full_description(*d, i + 1));
            }
            i = i + 1;
        }
        explanation
    }

    /// The assignments `[x_u == value]` of the nodes `u` of `path`.
    fn fixed_explanation(&self, d: &Domains, path: &Vec<usize>) -> (explanation: Vec<Predicate>)
        requires
            self.covers(*d),
            forall|i: int| 0 <= i < path@.len() ==> (#[trigger] path@[i] as int) < self.n() && d.fixed(self.successors@[path@[i] as int] as int) is Some,
        ensures
            explanation@ == self.fixed_description(*d, path@),
    {
        let mut explanation: Vec<Predicate> = Vec::new();
        let mut k: usize = 0;
        while k < path.len()
            invariant
                k <= path@.len(),
                self.covers(*d),
                forall|i: int| 0 <= i < path@.len() ==> (#[trigger] path@[i] as int) < self.n() && d.fixed(self.successors@[path@[i] as int] as int) is Some,
                explanation@ == self.fixed_description(*d, path@.subrange(0, k as int)),
            decreases path@.len() - k,
        {
            let var = self.successors[path[k]];
            let value = d.fixed_value(var).unwrap();
            explanation.push(Predicate { variable: var, comparison: Comparison::Equal, value });
            proof {
                assert(explanation@ =~= self.fixed_description(*d, path@.subrange(0, k + 1)));
            }
            k = k + 1;
        }
        assert(path@.subrange(0, path@.len() as int) == path@);
        explanation
    }

    /// The explanation of a subcycle conflict: the assignments along the cycle.
    pub fn create_check_explanation(&self, d: &Domains, cycle: &Vec<usize>) -> (explanation: Vec<Predicate>)
        requires
            self.covers(*d),
            forall|i: int| 0 <= i < cycle@.len() ==> (#[trigger] cycle@[i] as int) < self.n() && d.fixed(self.successors@[cycle@[i] as int] as int) is Some,
        ensures
            explanation@ == self.fixed_description(*d, cycle@),
    {
        self.fixed_explanation(d, cycle)
    }

    /// The explanation of a pruned closing edge: the assignments along the
    /// chain.
    pub fn create_prevent_explanation(&self, d: &Domains, path: &Vec<usize>) -> (explanation: Vec<Predicate>)
        requires
            self.covers(*d),
            forall|i: int| 0 <= i < path@.len() ==> (#[trigger] path@[i] as int) < self.n() && d.fixed(self.successors@[path@[i] as int] as int) is Some,
        ensures
            explanation@ == self.fixed_description(*d, path@),
    {
        self.fixed_explanation(d, path)
    }

    /// The explanation of the strong bridge `u -> v`, given the nodes
    /// `visited` that `u` reaches without it: every edge of the initial graph
    /// from a marked node to an unmarked one, other than `u -> v`, is removed.
    pub fn create_strong_bridge_explanation(&self, d: &Domains, visited: &Vec<bool>, u: usize, v: usize) -> (explanation: Vec<Predicate>)
        requires
            self.fits(*d),
            visited@.len() == self.n(),
            u < self.n(),
            v < self.n(),
        ensures
            explanation@ == self.bridge_description(*d, visited@, u as int, v as int, self.n() as int),
    {
        let n = self.successors.len();
        let mut explanation: Vec<Predicate> = Vec::new();
        let mut node_index: usize = 0;
        while node_index < n
            invariant
                node_index <= n,
                n == self.n(),
                self.fits(*d),
                visited@.len() == n,
                explanation@ == self.bridge_description(*d, visited@, u as int, v as int, node_index as int),
            decreases n - node_index,
        {
            if visited[node_index] {
                let node = self.successors[node_index];
                let initial_domain = d.iterate_initial_domain(node);
                let ghost base = explanation@;
                let mut k: usize = 0;
                while k < initial_domain.len()
                    invariant
                        k <= initial_domain@.len(),
                        n == self.n(),
                        node_index < n,
                        node == self.successors@[node_index as int],
                        self.fits(*d),
                        visited@.len() == n,
                        initial_domain@ == d.initial_values(node as int),
                        explanation@ == base + self.pruned_exits(*d, visited@, u as int, v as int, node_index as int, initial_domain@.subrange(0, k as int)),
                    decreases initial_domain@.len() - k,
                {
                    let domain_value = initial_domain[k];
                    proof {
                        assert(initial_domain@.contains(domain_value));
                        self.lemma_values_in_range(*d, node_index as int, domain_value);
                        assert(initial_domain@.subrange(0, k + 1).drop_last() == initial_domain@.subrange(0, k as int));
                    }
                    if !d.contains(node, domain_value) {
                        let i = domain_value_to_index(domain_value);
                        if !visited[i] && !(node_index == u && i == v) {
                            explanation.push(Predicate { variable: node, comparison: Comparison::NotEqual, value: domain_value });
                        }
                    }
                    proof {
                        assert(explanation@ =~= base + self.pruned_exits(*d, visited@, u as int, v as int, node_index as int, initial_domain@.subrange(0, k + 1)));
                    }
                    k = k + 1;
                }
                assert(initial_domain@.subrange(0, initial_domain@.len() as int) == initial_domain@);
            }
            node_index = node_index + 1;
        }
        explanation
    }

    /// The name of the propagator.
    pub fn name(&self) -> (name: &'static str)
        ensures
            name@ == "Circuit"@,
    {
        "Circuit"
    }

    /// The propagation counters.
    pub fn statistics(&self) -> (s: StrongBridgeStatistics)
        ensures
            s == self.statistics,
    {
        self.statistics
    }

    /// Whether `r` and `d` are what `check` gives on `d0`.
    pub open spec fn check_outcome(&self, d0: Domains, r: Result<(), Conflict>) -> bool {
        &&& (r is Err <==> has_short_cycle(self.fixed_successors(d0)))
        &&& r matches Err(c) ==> exists|s: int, m: nat| {
            &&& 0 <= s < self.n()
            &&& forall|s2: int| 0 <= s2 < s ==> #[trigger] stops(self.fixed_successors(d0), s2)
            &&& #[trigger] first_repeat(self.fixed_successors(d0), s, m)
            &&& c matches Conflict::Propagator { conjunction, code }
            &&& code == self.inference_code
            &&& conjunction@ == self.fixed_description(d0, walk_nodes(self.fixed_successors(d0), s, m))
        }
    }

    /// Whether `prevent` may turn `d0` into `d` with the result `r`.
    pub open spec fn prevent_outcome(&self, d0: Domains, d: Domains, r: Result<(), Conflict>) -> bool {
        exists|starts: Seq<usize>| #[trigger] self.unmarked_nodes(d0, starts) && Domains::applied(d0, self.prevent_steps(starts), d, r)
    }

    /// Whether strong bridge propagation may turn `d0` into `d` with the
    /// result `r`.
    pub open spec fn bridge_outcome(&self, d0: Domains, d: Domains, r: Result<(), Conflict>) -> bool {
        &&& !strongly_connected(self.graph(d0)) ==> d == d0 && (r matches Err(Conflict::Propagator { conjunction, code })
            && conjunction@ == self.full_description(d0, self.n() as int) && code == self.scc_code)
        &&& strongly_connected(self.graph(d0)) ==> Domains::applied(d0, self.bridge_steps(d0), d, r)
    }

    /// How strong bridge propagation from `d0` to `d` with the result `r`
    /// changes the counters from `s0` to `s`: a connectivity conflict counts
    /// one, and every strong bridge post made counts one.
    pub open spec fn bridge_counts(&self, d0: Domains, d: Domains, r: Result<(), Conflict>, s0: StrongBridgeStatistics, s: StrongBridgeStatistics) -> bool {
        &&& !strongly_connected(self.graph(d0)) ==> s.number_of_scc_propagations == s0.number_of_scc_propagations + 1
            && s.number_of_sb_propagations == s0.number_of_sb_propagations
        &&& strongly_connected(self.graph(d0)) ==> {
            &&& s.number_of_scc_propagations == s0.number_of_scc_propagations
            &&& r is Ok ==> s.number_of_sb_propagations == s0.number_of_sb_propagations + self.required_edges(d0, self.n() as int).len()
            &&& r is Err ==> exists|k: int| #[trigger] Domains::fails_at(d0, self.bridge_steps(d0), k, d, r)
                && s.number_of_sb_propagations == s0.number_of_sb_propagations + k
        }
    }

    /// Whether a propagation may turn `d0` into `d` with the result `r`, and
    /// the counters from `s0` into `s`: self-loops are removed, subcycles are
    /// detected, closing edges of chains are removed, and, where `bridges`
    /// holds, strong bridges are enforced (counted where `counted` holds); the
    /// first conflict ends it.
    pub open spec fn propagation(
        &self,
        d0: Domains,
        d: Domains,
        r: Result<(), Conflict>,
        bridges: bool,
        counted: bool,
        s0: StrongBridgeStatistics,
        s: StrongBridgeStatistics,
    ) -> bool {
        exists|d1: Domains, r1: Result<(), Conflict>| #[trigger] Domains::applied(d0, self.self_loop_steps(), d1, r1) && if r1 is Err {
            d == d1 && r == r1 && s == s0
        } else if has_short_cycle(self.fixed_successors(d1)) {
            d == d1 && r is Err && self.check_outcome(d1, r) && s == s0
        } else {
            exists|d2: Domains, r2: Result<(), Conflict>| #[trigger] self.prevent_outcome(d1, d2, r2) && if r2 is Err {
                d == d2 && r == r2 && s == s0
            } else if bridges {
                self.bridge_outcome(d2, d, r) && if counted {
                    self.bridge_counts(d2, d, r, s0, s)
                } else {
                    s == s0
                }
            } else {
                d == d2 && r is Ok && s == s0
            }
        }
    }

    /// Counting the strong bridge propagations changes no domain and no
    /// result: every outcome of `propagate` is an outcome of
    /// `propagate_from_scratch` from the same domains.
    pub proof fn lemma_counting_keeps_outcome(
        &self,
        d0: Domains,
        d: Domains,
        r: Result<(), Conflict>,
        bridges: bool,
        s0: StrongBridgeStatistics,
        s: StrongBridgeStatistics,
    )
        requires
            self.propagation(d0, d, r, bridges, true, s0, s),
        ensures
            self.propagation(d0, d, r, bridges, false, s0, s0),
    {
        let (d1, r1) = choose|d1: Domains, r1: Result<(), Conflict>| #[trigger] Domains::applied(d0, self.self_loop_steps(), d1, r1) && if r1 is Err {
            d == d1 && r == r1 && s == s0
        } else if has_short_cycle(self.fixed_successors(d1)) {
            d == d1 && r is Err && self.check_outcome(d1, r) && s == s0
        } else {
            exists|d2: Domains, r2: Result<(), Conflict>| #[trigger] self.prevent_outcome(d1, d2, r2) && if r2 is Err {
                d == d2 && r == r2 && s == s0
            } else if bridges {
                self.bridge_outcome(d2, d, r) && self.bridge_counts(d2, d, r, s0, s)
            } else {
                d == d2 && r is Ok && s == s0
            }
        };
        if r1 is Ok && !has_short_cycle(self.fixed_successors(d1)) {
            let (d2, r2) = choose|d2: Domains, r2: Result<(), Conflict>| #[trigger] self.prevent_outcome(d1, d2, r2) && if r2 is Err {
                d == d2 && r == r2 && s == s0
            } else if bridges {
                self.bridge_outcome(d2, d, r) && self.bridge_counts(d2, d, r, s0, s)
            } else {
                d == d2 && r is Ok && s == s0
            };
            assert(self.prevent_outcome(d1, d2, r2));
        }
        assert(Domains::applied(d0, self.self_loop_steps(), d1, r1));
    }

    /// Propagates from scratch: removes the self-loops, checks for subcycles,
    /// prevents subcycles, and, with the strong bridge extension, enforces
    /// strong bridges.
    pub fn propagate_from_scratch(&self, d: &mut Domains) -> (r: Result<(), Conflict>)
        requires
            self.in_range(*old(d)),
            self.use_strong_bridges ==> self.fits(*old(d)),
        ensures
            self.propagation(*old(d), *final(d), r, self.use_strong_bridges, false, self.statistics, self.statistics),
            self.in_range(*final(d)),
            self.fits(*old(d)) ==> self.fits(*final(d)),
            Domains::shrinks_to(*old(d), *final(d)),
            self.n() >= 2 ==> forall|sol: Seq<int>| #[trigger] self.is_solution(*old(d), sol) ==> r is Ok && self.is_solution(*final(d), sol),
            self.n() >= 2 && self.all_assigned(*old(d)) ==> (r is Ok <==> hamiltonian_from(self.fixed_successors(*old(d)), 0)),
    {
        let ghost d0 = *d;
        proof {
            if self.all_assigned(d0) && hamiltonian_from(self.fixed_successors(d0), 0) {
                self.lemma_assignment_solution(d0);
            }
        }
        let r1 = self.remove_self_loops(d);
        let ghost d1 = *d;
        if r1.is_err() {
            proof {
                assert(Domains::applied(d0, self.self_loop_steps(), d1, r1));
            }
            return r1;
        }
        let rc = self.check(d);
        proof {
            if self.all_assigned(d0) && rc is Ok && self.n() >= 1 {
                self.lemma_assignment_kept(d0, d1);
                self.lemma_assignment_total(d0);
                lemma_total_hamiltonian(self.fixed_successors(d0));
            }
        }
        if rc.is_err() {
            proof {
                assert(Domains::applied(d0, self.self_loop_steps(), d1, r1));
                assert forall|sol: Seq<int>| #[trigger] self.is_solution(d0, sol) && self.n() >= 2 implies false by {
                    self.lemma_short_cycle_no_solution(d1, sol);
                }
            }
            return rc;
        }
        let r2 = self.prevent(d);
        let ghost d2 = *d;
        proof {
            Domains::lemma_shrinks_trans(d0, d1, d2);
            if self.fits(d0) {
                self.lemma_fits_shrinks(d0, d2);
            }
        }
        if r2.is_err() {
            proof {
                assert(self.prevent_outcome(d1, d2, r2));
                assert(Domains::applied(d0, self.self_loop_steps(), d1, r1));
            }
            return r2;
        }
        if self.use_strong_bridges {
            let r3 = self.strong_bridge_prevent(d);
            proof {
                assert(self.prevent_outcome(d1, d2, r2));
                assert(self.bridge_outcome(d2, *d, r3));
                Domains::lemma_shrinks_trans(d0, d2, *d);
                assert(Domains::applied(d0, self.self_loop_steps(), d1, r1));
            }
            return r3;
        } else {
            proof {
                assert(self.prevent_outcome(d1, d2, r2));
                assert(Domains::applied(d0, self.self_loop_steps(), d1, r1));
            }
        }
        Ok(())
    }

    /// Propagates: as `propagate_from_scratch`, counting the strong bridge
    /// propagations.
    pub fn propagate(&mut self, d: &mut Domains) -> (r: Result<(), Conflict>)
        requires
            old(self).in_range(*old(d)),
            old(self).use_strong_bridges ==> old(self).fits(*old(d)),
            old(self).statistics.number_of_scc_propagations < usize::MAX,
            old(self).statistics.number_of_sb_propagations + old(self).domain_total(*old(d), old(self).n() as int) <= usize::MAX,
        ensures
            final(self).successors == old(self).successors,
            final(self).inference_code == old(self).inference_code,
            final(self).strong_bridge_code == old(self).strong_bridge_code,
            final(self).scc_code == old(self).scc_code,
            final(self).use_strong_bridges == old(self).use_strong_bridges,
            old(self).propagation(*old(d), *final(d), r, old(self).use_strong_bridges, true, old(self).statistics, final(self).statistics),
            final(self).in_range(*final(d)),
            old(self).fits(*old(d)) ==> final(self).fits(*final(d)),
            Domains::shrinks_to(*old(d), *final(d)),
            old(self).n() >= 2 ==> forall|sol: Seq<int>| #[trigger] old(self).is_solution(*old(d), sol) ==> r is Ok && final(self).is_solution(*final(d), sol),
            old(self).n() >= 2 && old(self).all_assigned(*old(d)) ==> (r is Ok <==> hamiltonian_from(old(self).fixed_successors(*old(d)), 0)),
    {
        let ghost me = *self;
        let ghost d0 = *d;
        proof {
            if me.all_assigned(d0) && hamiltonian_from(me.fixed_successors(d0), 0) {
                me.lemma_assignment_solution(d0);
            }
        }
        let r1 = self.remove_self_loops(d);
        let ghost d1 = *d;
        if r1.is_err() {
            proof {
                assert(Domains::applied(d0, me.self_loop_steps(), d1, r1));
            }
            return r1;
        }
        let rc = self.check(d);
        proof {
            if me.all_assigned(d0) && rc is Ok && me.n() >= 1 {
                me.lemma_assignment_kept(d0, d1);
                me.lemma_assignment_total(d0);
                lemma_total_hamiltonian(me.fixed_successors(d0));
            }
        }
        if rc.is_err() {
            proof {
                assert(Domains::applied(d0, me.self_loop_steps(), d1, r1));
                assert forall|sol: Seq<int>| #[trigger] me.is_solution(d0, sol) && me.n() >= 2 implies false by {
                    me.lemma_short_cycle_no_solution(d1, sol);
                }
            }
            return rc;
        }
        let r2 = self.prevent(d);
        let ghost d2 = *d;
        proof {
            Domains::lemma_shrinks_trans(d0, d1, d2);
            if me.fits(d0) {
                me.lemma_fits_shrinks(d0, d2);
            }
            me.lemma_domain_total_shrinks(d0, d2, me.n() as int);
        }
        if r2.is_err() {
            proof {
                assert(me.prevent_outcome(d1, d2, r2));
                assert(Domains::applied(d0, me.self_loop_steps(), d1, r1));
            }
            return r2;
        }
        if self.use_strong_bridges {
            let r3 = self.strong_bridge_prevent_with_stats(d);
            proof {
                assert(me.prevent_outcome(d1, d2, r2));
                assert(me.bridge_outcome(d2, *d, r3));
                assert(me.bridge_counts(d2, *d, r3, me.statistics, self.statistics));
                Domains::lemma_shrinks_trans(d0, d2, *d);
                assert(Domains::applied(d0, me.self_loop_steps(), d1, r1));
                assert(self.successors == me.successors);
            }
            return r3;
        } else {
            proof {
                assert(me.prevent_outcome(d1, d2, r2));
                assert(Domains::applied(d0, me.self_loop_steps(), d1, r1));
            }
        }
        Ok(())
    }

    /// Every successor variable is assigned.
    pub open spec fn all_assigned(&self, d: Domains) -> bool {
        forall|u: int| 0 <= u < self.n() ==> (#[trigger] d.fixed(self.successors@[u] as int)) is Some
    }

    /// The successor of each node under a complete assignment.
    pub open spec fn assigned_successors(&self, d: Domains) -> Seq<int> {
        Seq::new(self.n(), |u: int| self.fixed_successors(d)[u]->0)
    }

    /// A complete assignment whose successors go through all nodes in one
    /// cycle is a solution.
    pub proof fn lemma_assignment_solution(&self, d: Domains)
        requires
            self.in_range(d),
            self.all_assigned(d),
            hamiltonian_from(self.fixed_successors(d), 0),
        ensures
            self.is_solution(d, self.assigned_successors(d)),
    {
        let sol = self.assigned_successors(d);
        let next = self.fixed_successors(d);
        d.lemma_wf();
        assert forall|u: int| 0 <= u < self.n() implies 0 <= #[trigger] sol[u] < self.n() && d.values(self.successors@[u] as int).contains((sol[u] + 1) as i32) by {
            let var = self.successors@[u] as int;
            assert(d.fixed(var) is Some);
            assert(d.values(var).contains(d.values(var)[0]));
            self.lemma_values_in_range(d, u, d.values(var)[0]);
            assert((sol[u] + 1) as i32 == d.values(var)[0]);
        }
        assert(as_successors(sol) =~= next) by {
            assert forall|u: int| 0 <= u < self.n() implies as_successors(sol)[u] == next[u] by {
                assert(d.fixed(self.successors@[u] as int) is Some);
            }
        }
    }

    /// Removing values from a complete assignment leaves it as it is.
    pub proof fn lemma_assignment_kept(&self, d0: Domains, d: Domains)
        requires
            self.in_range(d0),
            self.all_assigned(d0),
            Domains::shrinks_to(d0, d),
        ensures
            self.all_assigned(d),
            self.fixed_successors(d) == self.fixed_successors(d0),
    {
        d.lemma_wf();
        d0.lemma_wf();
        assert forall|u: int| 0 <= u < self.n() implies (#[trigger] d.fixed(self.successors@[u] as int)) == d0.fixed(self.successors@[u] as int) by {
            let var = self.successors@[u] as int;
            assert(d0.fixed(var) is Some);
            let x = d.values(var)[0];
            assert(d.values(var).contains(x));
            assert(d0.values(var).contains(x));
            assert(d0.values(var)[0] == x);
            if d.values(var).len() > 1 {
                let y = d.values(var)[1];
                assert(d.values(var).contains(y));
                assert(d0.values(var).contains(y));
                assert(x < y);
            }
        }
        assert(self.fixed_successors(d) =~= self.fixed_successors(d0));
    }

    /// A complete assignment of node labels is a total successor function.
    pub proof fn lemma_assignment_total(&self, d: Domains)
        requires
            self.in_range(d),
            self.all_assigned(d),
        ensures
            total(self.fixed_successors(d)),
    {
        d.lemma_wf();
        assert forall|u: int| 0 <= u < self.n() implies (#[trigger] self.fixed_successors(d)[u]) is Some && 0 <= self.fixed_successors(d)[u]->0 < self.n() by {
            let var = self.successors@[u] as int;
            assert(d.fixed(var) is Some);
            assert(d.values(var).contains(d.values(var)[0]));
            self.lemma_values_in_range(d, u, d.values(var)[0]);
        }
    }

    /// What the description of a domain holds: its bounds and one
    /// disequality for each of its holes, all on its variable.
    proof fn lemma_domain_description(d: Domains, var: usize)
        requires
            d.wf(),
            (var as int) < d.num_vars(),
        ensures
            domain_description(d, var).contains(at_least(var, d.values(var as int)[0])),
            domain_description(d, var).contains(at_most(var, d.values(var as int).last())),
            forall|h: i32| #[trigger] d.holes(var as int).contains(h) ==> domain_description(d, var).contains(not_equals(var, h)),
            forall|p: Predicate| #[trigger] domain_description(d, var).contains(p) ==> {
                ||| p == at_least(var, d.values(var as int)[0])
                ||| p == at_most(var, d.values(var as int).last())
                ||| p.variable == var && p.comparison == Comparison::NotEqual && d.holes(var as int).contains(p.value)
            },
    {
        let dd = domain_description(d, var);
        let hs = d.holes(var as int);
        let f = |h: i32| not_equals(var, h);
        assert(dd[0] == at_least(var, d.values(var as int)[0]));
        assert(dd[1] == at_most(var, d.values(var as int).last()));
        assert forall|h: i32| #[trigger] hs.contains(h) implies dd.contains(not_equals(var, h)) by {
            let j = choose|j: int| 0 <= j < hs.len() && hs[j] == h;
            assert(dd[2 + j] == hs.map_values(f)[j]);
        }
        assert forall|p: Predicate| #[trigger] dd.contains(p) implies {
            ||| p == at_least(var, d.values(var as int)[0])
            ||| p == at_most(var, d.values(var as int).last())
            ||| p.variable == var && p.comparison == Comparison::NotEqual && hs.contains(p.value)
        } by {
            let i = choose|i: int| 0 <= i < dd.len() && dd[i] == p;
            if i >= 2 {
                assert(dd[i] == hs.map_values(f)[i - 2]);
                assert(hs.contains(hs[i - 2]));
            }
        }
    }

    /// A predicate of the description of node `w`'s domain is in the
    /// description of the first `k` nodes' domains, for `w < k`.
    proof fn lemma_full_description_has(&self, d: Domains, k: int, w: int, p: Predicate)
        requires
            0 <= w < k <= self.n(),
            domain_description(d, self.successors@[w]).contains(p),
        ensures
            self.full_description(d, k).contains(p),
        decreases k,
    {
        let rest = self.full_description(d, k - 1);
        let last = domain_description(d, self.successors@[k - 1]);
        assert(self.full_description(d, k) == rest + last);
        if w == k - 1 {
            let j = choose|j: int| 0 <= j < last.len() && last[j] == p;
            assert((rest + last)[rest.len() + j] == p);
        } else {
            self.lemma_full_description_has(d, k - 1, w, p);
            let j = choose|j: int| 0 <= j < rest.len() && rest[j] == p;
            assert((rest + last)[j] == p);
        }
    }

    /// Every predicate of the description of the first `k` nodes' domains
    /// comes from the description of one of them.
    proof fn lemma_full_description_from(&self, d: Domains, k: int, p: Predicate) -> (w: int)
        requires
            0 <= k <= self.n(),
            self.full_description(d, k).contains(p),
        ensures
            0 <= w < k,
            domain_description(d, self.successors@[w]).contains(p),
        decreases k,
    {
        let rest = self.full_description(d, k - 1);
        let last = domain_description(d, self.successors@[k - 1]);
        assert(self.full_description(d, k) == rest + last);
        let i = choose|i: int| 0 <= i < rest.len() + last.len() && (rest + last)[i] == p;
        if i < rest.len() {
            assert(rest[i] == p);
            self.lemma_full_description_from(d, k - 1, p)
        } else {
            assert(last[i - rest.len()] == p);
            k - 1
        }
    }

    /// Where a checker's state is what the explanation of a connectivity
    /// conflict (the bounds and holes of every successor variable) induces,
    /// its graph is the graph of possible successors: the connectivity checker
    /// accepts exactly the conflicts that the propagator reports.
    pub proof fn lemma_connectivity_conflict_induces_graph(&self, d: Domains, state: VariableState)
        requires
            self.covers(d),
            induced_by(state, self.full_description(d, self.n() as int)),
        ensures
            checker_graph(state, self.successors@) == self.graph(d),
            strongly_connected(checker_graph(state, self.successors@)) == strongly_connected(self.graph(d)),
    {
        let n = self.n() as int;
        let desc = self.full_description(d, n);
        let g = checker_graph(state, self.successors@);
        let h = self.graph(d);
        d.lemma_wf();
        assert forall|u: int| 0 <= u < n implies g[u] =~= h[u] by {
            let var = self.successors@[u];
            let vals = d.values(var as int);
            let lo = at_least(var, vals[0]);
            let hi = at_most(var, vals.last());
            d.lemma_holes(var as int);
            Self::lemma_domain_description(d, var);
            self.lemma_full_description_has(d, n, u, lo);
            self.lemma_full_description_has(d, n, u, hi);
            let i0 = choose|i: int| 0 <= i < desc.len() && desc[i] == lo;
            let i1 = choose|i: int| 0 <= i < desc.len() && desc[i] == hi;
            assert(desc[i0] == lo);
            assert(desc[i1] == hi);
            assert(bounded_below(desc, var as int));
            assert(bounded_above(desc, var as int));
            assert(state.induced_domain(var as int) is Some);
            assert(vals.contains(vals[0]));
            assert(vals.contains(vals[vals.len() - 1]));
            assert forall|x: i32| satisfies_premises(desc, var as int, x) <==> vals.contains(x) by {
                if vals.contains(x) {
                    let j = choose|j: int| 0 <= j < vals.len() && vals[j] == x;
                    assert(vals[0] <= x <= vals.last()) by {
                        if j > 0 {
                            assert(vals[0] < vals[j]);
                        }
                        if j < vals.len() - 1 {
                            assert(vals[j] < vals[vals.len() - 1]);
                        }
                    }
                    assert forall|i: int| #![trigger desc[i]] 0 <= i < desc.len() && desc[i].variable == var as int implies desc[i].holds(x) by {
                        let p = desc[i];
                        assert(desc.contains(p));
                        let w = self.lemma_full_description_from(d, n, p);
                        Self::lemma_domain_description(d, self.successors@[w]);
                        assert(self.successors@[w] == var);
                    }
                }
                if satisfies_premises(desc, var as int, x) {
                    assert(desc[i0].holds(x));
                    assert(desc[i1].holds(x));
                    if !vals.contains(x) {
                        assert(d.holes(var as int).contains(x));
                        let q = not_equals(var, x);
                        self.lemma_full_description_has(d, n, u, q);
                        let i2 = choose|i: int| 0 <= i < desc.len() && desc[i] == q;
                        assert(desc[i2].holds(x));
                    }
                }
            }
            assert forall|y: int| g[u].contains(y) <==> h[u].contains(y) by {
                if 0 <= y < n {
                    assert(state.induced_domain(var as int)->0.contains((y + 1) as i32) <==> satisfies_premises(desc, var as int, (y + 1) as i32));
                }
            }
        }
        assert(g =~= h);
    }

    /// Where an inference checker sees, for each node, the current domain of
    /// the node's successor variable, its graph is the graph of possible
    /// successors: the connectivity checker then accepts a conflict exactly
    /// when the propagator's connectivity rule reports one.
    pub proof fn lemma_checker_sees_possible_graph(&self, d: Domains, state: VariableState)
        requires
            self.fits(d),
            forall|u: int| 0 <= u < self.n() ==> #[trigger] state.induced_domain(self.successors@[u] as int) == Some(d.values(self.successors@[u] as int)),
        ensures
            checker_graph(state, self.successors@) == self.graph(d),
            strongly_connected(checker_graph(state, self.successors@)) == strongly_connected(self.graph(d)),
    {
        let g = checker_graph(state, self.successors@);
        let h = self.graph(d);
        assert forall|u: int| 0 <= u < self.n() implies g[u] =~= h[u] by {
            assert(state.induced_domain(self.successors@[u] as int) == Some(d.values(self.successors@[u] as int)));
        }
        assert(g =~= h);
    }

    /// Where an inference checker sees the current domains, but for the value
    /// `v + 1` taken out of the domain of node `u`'s variable (the negated
    /// assignment `[x_u == v + 1]`), and no other node shares that variable,
    /// its graph is the graph of possible successors without the edge
    /// `u -> v`: the strong bridge checker then accepts the assignment
    /// exactly when `u -> v` is a strong bridge the propagator enforces.
    pub proof fn lemma_checker_sees_graph_without_edge(&self, d: Domains, state: VariableState, checker: StrongBridgeChecker, u: int, v: int)
        requires
            self.fits(d),
            checker.successors@ == self.successors@,
            0 <= u < self.n(),
            0 <= v < self.n(),
            forall|w: int| 0 <= w < self.n() && w != u ==> #[trigger] self.successors@[w] != self.successors@[u],
            forall|w: int| 0 <= w < self.n() && w != u ==> #[trigger] state.induced_domain(self.successors@[w] as int) == Some(d.values(self.successors@[w] as int)),
            state.induced_domain(self.successors@[u] as int) is Some,
            forall|x: i32| #[trigger] state.induced_domain(self.successors@[u] as int)->0.contains(x) <==> (d.values(self.successors@[u] as int).contains(x) && x != (v + 1) as i32),
        ensures
            checker_graph(state, self.successors@) == without_edge(self.graph(d), u, v),
            checker.constrained_node(equals(self.successors@[u], (v + 1) as i32), u),
            reachable(without_edge(checker_graph(state, checker.successors@), u, v), u, v) == reachable(without_edge(self.graph(d), u, v), u, v),
    {
        let g = checker_graph(state, self.successors@);
        let h = without_edge(self.graph(d), u, v);
        assert forall|w: int| 0 <= w < self.n() implies g[w] =~= h[w] by {
            if w == u {
                assert forall|y: int| g[w].contains(y) <==> h[w].contains(y) by {
                    if 0 <= y < self.n() {
                        assert(state.induced_domain(self.successors@[u] as int)->0.contains((y + 1) as i32) <==> (d.values(self.successors@[u] as int).contains((y + 1) as i32) && (y + 1) as i32 != (v + 1) as i32));
                    }
                }
            } else {
                assert(state.induced_domain(self.successors@[w] as int) == Some(d.values(self.successors@[w] as int)));
            }
        }
        assert(g =~= h);
        assert(without_edge(g, u, v) =~= h) by {
            assert forall|w: int| 0 <= w < g.len() implies without_edge(g, u, v)[w] =~= h[w] by {}
        }
    }
}

} // verus!

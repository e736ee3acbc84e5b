//! Connectivity reasoning on the graph of possible successors: strong
//! connectivity, reachability around one edge, and the pruning that fixes
//! strong bridges.

use vstd::prelude::*;
use crate::domains::{Comparison, Conflict, Domains, PostStep, Predicate, StepRelation, equals};
use crate::graph::{reachable, strongly_connected, without_edge, lemma_reachable_refl};
use crate::search::{all_false, any_false, lists_graph, search_avoiding_edge, search_backward, search_forward};
use crate::walk::{
    iterate, lemma_hamiltonian_reaches, lemma_iterate_reachable, walk_step_in,
};
use crate::propagator::{CircuitPropagator, as_successors, domain_value_to_index, index_to_domain_value};

verus! {

impl CircuitPropagator {
    /// The successor lists of the graph of possible successors; values that
    /// name no node give no edge.
    fn successor_lists(&self, d: &Domains) -> (adj: Vec<Vec<usize>>)
        requires
            self.covers(*d),
        ensures
            adj@.len() == self.n(),
            lists_graph(adj@) == self.graph(*d),
    {
        let n = self.successors.len();
        let mut adj: Vec<Vec<usize>> = Vec::new();
        let mut u: usize = 0;
        while u < n
            invariant
                u <= n,
                n == self.n(),
                self.covers(*d),
                adj@.len() == u,
                forall|w: int, v: int| #![trigger adj@[w]@.contains(v as usize)]
                    0 <= w < u && 0 <= v < n ==> (adj@[w]@.contains(v as usize) <==> self.graph(*d)[w].contains(v)),
            decreases n - u,
        {
            let domain = d.iterate_domain(self.successors[u]);
            let mut list: Vec<usize> = Vec::new();
            let mut k: usize = 0;
            while k < domain.len()
                invariant
                    k <= domain@.len(),
                    n == self.n(),
                    u < n,
                    self.covers(*d),
                    domain@ == d.values(self.successors@[u as int] as int),
                    forall|v: int| 0 <= v < n ==> (#[trigger] list@.contains(v as usize) <==> domain@.subrange(0, k as int).contains((v + 1) as i32)),
                decreases domain@.len() - k,
            {
                let value = domain[k];
                let ghost old_list = list@;
                if 1 <= value && ((value - 1) as usize) < n {
                    list.push(domain_value_to_index(value));
                }
                proof {
                    let ghost pre = domain@.subrange(0, k as int);
                    assert(domain@.subrange(0, k + 1) == pre.push(value));
                    crate::domains::lemma_push_contains(pre, value);
                    crate::domains::lemma_push_contains(old_list, (value - 1) as usize);
                    assert forall|v: int| 0 <= v < n implies (#[trigger] list@.contains(v as usize) <==> domain@.subrange(0, k + 1).contains((v + 1) as i32)) by {
                        if (v + 1) as i32 == value {
                            assert(v + 1 == value);
                        }
                    }
                }
                k = k + 1;
            }
            assert(domain@.subrange(0, domain@.len() as int) == domain@);
            adj.push(list);
            proof {
                assert forall|w: int, v: int| #![trigger adj@[w]@.contains(v as usize)]
                    0 <= w < u + 1 && 0 <= v < n implies (adj@[w]@.contains(v as usize) <==> self.graph(*d)[w].contains(v)) by {
                    if w == u {
                        assert(adj@[w] == list);
                    }
                }
            }
            u = u + 1;
        }
        proof {
            let g = lists_graph(adj@);
            let h = self.graph(*d);
            assert forall|w: int| 0 <= w < n implies g[w] =~= h[w] by {
                assert forall|v: int| g[w].contains(v) <==> h[w].contains(v) by {
                    if 0 <= v < n {
                        assert(adj@[w]@.contains(v as usize) <==> h[w].contains(v));
                    }
                }
            }
            assert(g =~= h);
        }
        adj
    }

    /// Marks in `visited` the nodes that `start` reaches.
    pub fn dfs_forward(&self, d: &Domains, start: usize, visited: &mut Vec<bool>)
        requires
            self.covers(*d),
            start < self.n(),
            old(visited)@.len() == self.n(),
            forall|i: int| 0 <= i < self.n() ==> !#[trigger] old(visited)@[i],
        ensures
            final(visited)@.len() == self.n(),
            forall|v: int| 0 <= v < self.n() ==> (final(visited)@[v] <==> #[trigger] reachable(self.graph(*d), start as int, v)),
    {
        let adj = self.successor_lists(d);
        search_forward(&adj, start, visited);
    }

    /// Marks in `visited_reverse` the nodes that reach `start`.
    pub fn dfs_backward(&self, d: &Domains, start: usize, visited_reverse: &mut Vec<bool>)
        requires
            self.covers(*d),
            start < self.n(),
            old(visited_reverse)@.len() == self.n(),
            forall|i: int| 0 <= i < self.n() ==> !#[trigger] old(visited_reverse)@[i],
        ensures
            final(visited_reverse)@.len() == self.n(),
            forall|v: int| 0 <= v < self.n() ==> (final(visited_reverse)@[v] <==> #[trigger] reachable(self.graph(*d), v, start as int)),
    {
        let adj = self.successor_lists(d);
        search_backward(&adj, start, visited_reverse);
    }

    /// Whether the graph of possible successors is strongly connected.
    pub fn is_strongly_connected(&self, d: &Domains) -> (b: bool)
        requires
            self.covers(*d),
        ensures
            b == strongly_connected(self.graph(*d)),
    {
        let n = self.successors.len();
        let ghost g = self.graph(*d);
        if n <= 1 {
            proof {
                if n == 1 {
                    lemma_reachable_refl(g, 0);
                }
            }
            return true;
        }
        let mut visited = all_false(n);
        self.dfs_forward(d, 0, &mut visited);
        if any_false(&visited) {
            proof {
                let v = choose|v: int| 0 <= v < visited@.len() && !#[trigger] visited@[v];
                assert(!reachable(g, 0, v));
            }
            return false;
        }
        let mut visited_reverse = all_false(n);
        self.dfs_backward(d, 0, &mut visited_reverse);
        if any_false(&visited_reverse) {
            proof {
                let v = choose|v: int| 0 <= v < visited_reverse@.len() && !#[trigger] visited_reverse@[v];
                assert(!reachable(g, v, 0));
                if strongly_connected(g) {
                    assert(reachable(g, 0, v));
                }
            }
            return false;
        }
        proof {
            assert forall|v: int| 0 <= v < g.len() implies #[trigger] reachable(g, 0, v) && reachable(g, v, 0) by {
                assert(visited@[v]);
                assert(visited_reverse@[v]);
            }
        }
        true
    }

    /// Whether `start` reaches `target` without the edge `start -> target`,
    /// and the nodes marked by the search; where it does not, they are exactly
    /// the nodes that `start` reaches without that edge.
    pub fn reachable_without_edge(&self, d: &Domains, start: usize, target: usize) -> (r: (bool, Vec<bool>))
        requires
            self.covers(*d),
            start < self.n(),
            target < self.n(),
        ensures
            r.1@.len() == self.n(),
            r.0 == reachable(without_edge(self.graph(*d), start as int, target as int), start as int, target as int),
            forall|v: int| 0 <= v < self.n() && #[trigger] r.1@[v] ==> reachable(without_edge(self.graph(*d), start as int, target as int), start as int, v),
            !r.0 ==> forall|v: int|
                0 <= v < self.n() ==> (r.1@[v] <==> #[trigger] reachable(without_edge(self.graph(*d), start as int, target as int), start as int, v)),
    {
        let adj = self.successor_lists(d);
        search_avoiding_edge(&adj, start, target)
    }

    /// The graph of possible successors of a solution's domains holds the
    /// solution's edges, so it is strongly connected.
    pub proof fn lemma_solution_strongly_connected(&self, d: Domains, sol: Seq<int>)
        requires
            self.fits(d),
            self.is_solution(d, sol),
        ensures
            strongly_connected(self.graph(d)),
    {
        let g = self.graph(d);
        let ssol = as_successors(sol);
        assert forall|v: int| 0 <= v < g.len() implies #[trigger] reachable(g, 0, v) && reachable(g, v, 0) by {
            self.lemma_solution_reaches(d, sol, 0, v);
            self.lemma_solution_reaches(d, sol, v, 0);
        }
    }

    /// In the graph of possible successors of a solution's domains, every node
    /// reaches every node along the solution.
    proof fn lemma_solution_reaches(&self, d: Domains, sol: Seq<int>, u: int, v: int)
        requires
            self.fits(d),
            self.is_solution(d, sol),
            0 <= u < self.n(),
            0 <= v < self.n(),
        ensures
            reachable(self.graph(d), u, v),
    {
        let g = self.graph(d);
        let ssol = as_successors(sol);
        lemma_hamiltonian_reaches(ssol, 0, u, v);
        let k = choose|k: nat| k < self.n() && #[trigger] iterate(ssol, u, k) == Some(v);
        assert forall|j: nat| j <= k implies (#[trigger] iterate(ssol, u, j)) is Some by {
        }
        assert forall|j: nat| j < k implies #[trigger] walk_step_in(ssol, g, u, j) by {
            let a = iterate(ssol, u, j)->0;
            assert(iterate(ssol, u, j + 1) == Some(sol[a]));
            assert(0 <= sol[a] < self.n());
            assert(d.values(self.successors@[a] as int).contains((sol[a] + 1) as i32));
            assert(g[a].contains(sol[a]));
        }
        lemma_iterate_reachable(ssol, g, u, k);
    }

    /// Where `u` cannot reach `v` without the edge `u -> v`, every solution
    /// takes that edge.
    pub proof fn lemma_bridge_forced(&self, d: Domains, sol: Seq<int>, u: int, v: int)
        requires
            self.fits(d),
            self.is_solution(d, sol),
            0 <= u < self.n(),
            0 <= v < self.n(),
            !reachable(without_edge(self.graph(d), u, v), u, v),
        ensures
            sol[u] == v,
    {
        if sol[u] != v {
            let g = without_edge(self.graph(d), u, v);
            let ssol = as_successors(sol);
            lemma_hamiltonian_reaches(ssol, 0, u, v);
            let k = choose|k: nat| k < self.n() && #[trigger] iterate(ssol, u, k) == Some(v);
            assert forall|j: nat| j <= k implies (#[trigger] iterate(ssol, u, j)) is Some by {
            }
            assert forall|j: nat| j < k implies #[trigger] walk_step_in(ssol, g, u, j) by {
                let a = iterate(ssol, u, j)->0;
                assert(iterate(ssol, u, j + 1) == Some(sol[a]));
                assert(0 <= sol[a] < self.n());
                assert(d.values(self.successors@[a] as int).contains((sol[a] + 1) as i32));
                assert(self.graph(d)[a].contains(sol[a]));
                if a == u {
                    if j >= 1 {
                        assert(iterate(ssol, u, j) != Some(u));
                    }
                    assert(sol[a] != v);
                }
            }
            lemma_iterate_reachable(ssol, g, u, k);
        }
    }

    /// For the node `u`, the edges to the values among `vals` that are
    /// strong bridges: `u` cannot reach their end without them.
    pub open spec fn bridges_from(&self, d: Domains, u: int, vals: Seq<i32>) -> Seq<(int, int)>
        decreases vals.len(),
    {
        if vals.len() == 0 {
            Seq::empty()
        } else {
            let rest = self.bridges_from(d, u, vals.drop_last());
            let v = vals.last() - 1;
            if !reachable(without_edge(self.graph(d), u, v), u, v) {
                rest.push((u, v))
            } else {
                rest
            }
        }
    }

    /// The strong bridges out of the first `k` nodes whose successor is not
    /// assigned, in node and value order.
    pub open spec fn required_edges(&self, d: Domains, k: int) -> Seq<(int, int)>
        decreases k,
    {
        if k <= 0 {
            Seq::empty()
        } else {
            let rest = self.required_edges(d, k - 1);
            let vals = d.values(self.successors@[k - 1] as int);
            if vals.len() <= 1 {
                rest
            } else {
                rest + self.bridges_from(d, k - 1, vals)
            }
        }
    }

    /// A value of `vals` whose edge is a strong bridge gives a bridge of
    /// `bridges_from`.
    proof fn lemma_bridges_from_contains(&self, d: Domains, u: int, vals: Seq<i32>, x: i32)
        requires
            vals.contains(x),
            !reachable(without_edge(self.graph(d), u, x - 1), u, x - 1),
        ensures
            self.bridges_from(d, u, vals).contains((u, x - 1)),
        decreases vals.len(),
    {
        let rest = self.bridges_from(d, u, vals.drop_last());
        let all = self.bridges_from(d, u, vals);
        if vals.last() == x {
            assert(all == rest.push((u, x - 1)));
            assert(all[all.len() - 1] == (u, x - 1));
        } else {
            let i = choose|i: int| 0 <= i < vals.len() && vals[i] == x;
            assert(vals.drop_last()[i] == x);
            self.lemma_bridges_from_contains(d, u, vals.drop_last(), x);
            let j = choose|j: int| 0 <= j < rest.len() && rest[j] == (u, x - 1);
            assert(all[j] == (u, x - 1));
        }
    }

    /// Every strong bridge out of one of the first `k` nodes with at least
    /// two possible successors is a required edge.
    proof fn lemma_required_edges_contains(&self, d: Domains, k: int, u: int, x: i32)
        requires
            0 <= u < k <= self.n(),
            d.values(self.successors@[u] as int).len() >= 2,
            d.values(self.successors@[u] as int).contains(x),
            !reachable(without_edge(self.graph(d), u, x - 1), u, x - 1),
        ensures
            self.required_edges(d, k).contains((u, x - 1)),
        decreases k,
    {
        let rest = self.required_edges(d, k - 1);
        let all = self.required_edges(d, k);
        if u == k - 1 {
            let vals = d.values(self.successors@[u] as int);
            self.lemma_bridges_from_contains(d, u, vals, x);
            let b = self.bridges_from(d, u, vals);
            assert(all == rest + b);
            let j = choose|j: int| 0 <= j < b.len() && b[j] == (u, x - 1);
            assert(all[rest.len() + j] == (u, x - 1));
        } else {
            self.lemma_required_edges_contains(d, k - 1, u, x);
            let j = choose|j: int| 0 <= j < rest.len() && rest[j] == (u, x - 1);
            let vals = d.values(self.successors@[k - 1] as int);
            if vals.len() > 1 {
                assert(all == rest + self.bridges_from(d, k - 1, vals));
            }
            assert(all[j] == (u, x - 1));
        }
    }

    /// Along a successful run of the strong bridge posts, the domains only
    /// shrink.
    proof fn lemma_bridge_run_shrinks(&self, d0: Domains, states: Seq<Domains>, d: Domains, r: Result<(), Conflict>, a: int, b: int)
        requires
            Domains::run(d0, self.bridge_steps(d0), states, d, r),
            r is Ok,
            d0.wf(),
            0 <= a <= b < states.len(),
        ensures
            Domains::shrinks_to(states[a], states[b]),
        decreases b - a,
    {
        if b == 0 {
            Domains::lemma_shrinks_refl(d0);
        } else {
            let steps = self.bridge_steps(d0);
            let edges = self.required_edges(d0, self.n() as int);
            let j = b - 1;
            let rj: Result<(), Conflict> = if j < states.len() - 2 { Ok(()) } else { r };
            assert((steps[j])(states[j], states[b], rj));
            let post: PostStep = |dm2: Domains| (
                equals(self.successors@[edges[j].0], (edges[j].1 + 1) as i32),
                self.bridge_description(dm2, self.reach_marks(d0, edges[j].0, edges[j].1), edges[j].0, edges[j].1, self.n() as int),
                self.strong_bridge_code,
            );
            assert(steps[j] == Domains::post_step(post));
            let (p, rs, c) = post(states[j]);
            assert(Domains::posted(states[j], states[b], p, rs, c, rj));
            if a == b {
                Domains::lemma_shrinks_refl(states[b]);
            } else {
                self.lemma_bridge_run_shrinks(d0, states, d, r, a, b - 1);
                Domains::lemma_posted_shrinks(states[j], states[b], p, rs, c, rj);
                Domains::lemma_shrinks_trans(states[a], states[j], states[b]);
            }
        }
    }

    /// Strong bridge propagation that succeeds enforces every strong bridge:
    /// where a node `u` had at least two possible successors and `u` cannot
    /// reach `v` without its edge `u -> v`, its successor variable is then
    /// assigned `v + 1`.
    pub proof fn lemma_bridges_enforced(&self, d0: Domains, d: Domains, r: Result<(), Conflict>, u: int, v: int)
        requires
            self.fits(d0),
            strongly_connected(self.graph(d0)),
            self.bridge_outcome(d0, d, r),
            r is Ok,
            0 <= u < self.n(),
            0 <= v < self.n(),
            d0.values(self.successors@[u] as int).len() >= 2,
            d0.values(self.successors@[u] as int).contains((v + 1) as i32),
            !reachable(without_edge(self.graph(d0), u, v), u, v),
        ensures
            d.fixed(self.successors@[u] as int) == Some((v + 1) as i32),
    {
        let n = self.n() as int;
        let x = (v + 1) as i32;
        assert(x - 1 == v);
        self.lemma_required_edges_contains(d0, n, u, x);
        let edges = self.required_edges(d0, n);
        let i = choose|i: int| 0 <= i < edges.len() && edges[i] == (u, v);
        let steps = self.bridge_steps(d0);
        let states = choose|states: Seq<Domains>| #[trigger] Domains::run(d0, steps, states, d, r);
        let m = states.len() - 1;
        assert(m == steps.len());
        let ri: Result<(), Conflict> = if i < m - 1 { Ok(()) } else { r };
        assert((steps[i])(states[i], states[i + 1], ri));
        let post: PostStep = |dm2: Domains| (
            equals(self.successors@[edges[i].0], (edges[i].1 + 1) as i32),
            self.bridge_description(dm2, self.reach_marks(d0, edges[i].0, edges[i].1), edges[i].0, edges[i].1, self.n() as int),
            self.strong_bridge_code,
        );
        assert(steps[i] == Domains::post_step(post));
        let (p, rs, c) = post(states[i]);
        assert(p == equals(self.successors@[u], x));
        assert(Domains::posted(states[i], states[i + 1], p, rs, c, ri));
        self.lemma_bridge_run_shrinks(d0, states, d, r, i + 1, m);
        self.lemma_bridge_run_shrinks(d0, states, d, r, 0, m);
        let var = self.successors@[u] as int;
        assert(states[m] == d);
        d.lemma_wf();
        let vals = d.values(var);
        assert forall|y: i32| #[trigger] vals.contains(y) implies y == x by {
            assert(states[i + 1].values(var).contains(y));
        }
        assert(vals.contains(vals[0]));
        if vals.len() >= 2 {
            assert(vals.contains(vals[1]));
            assert(vals[0] < vals[1]);
        }
    }

    /// The nodes that `u` reaches without the edge `u -> v`.
    pub open spec fn reach_marks(&self, d: Domains, u: int, v: int) -> Seq<bool> {
        Seq::new(self.n(), |w: int| reachable(without_edge(self.graph(d), u, v), u, w))
    }

    /// The posts that enforce the strong bridges of `d0`, in order: each
    /// assigns its edge, with the removed edges leaving the nodes its start
    /// reaches without it as reason (read from the domains at that post).
    pub open spec fn bridge_steps(&self, d0: Domains) -> Seq<StepRelation> {
        let edges = self.required_edges(d0, self.n() as int);
        Seq::new(
            edges.len(),
            |i: int| Domains::post_step(
                |dm: Domains| (
                    equals(self.successors@[edges[i].0], (edges[i].1 + 1) as i32),
                    self.bridge_description(dm, self.reach_marks(d0, edges[i].0, edges[i].1), edges[i].0, edges[i].1, self.n() as int),
                    self.strong_bridge_code,
                ),
            ),
        )
    }

    /// The strong bridges of the graph of possible successors, each with the
    /// nodes its start reaches without it.
    fn find_strong_bridges(&self, d: &Domains) -> (required: Vec<(usize, usize, Vec<bool>)>)
        requires
            self.fits(*d),
        ensures
            required@.len() == self.required_edges(*d, self.n() as int).len(),
            required@.len() <= self.domain_total(*d, self.n() as int),
            forall|i: int| 0 <= i < required@.len() ==> {
                &&& (#[trigger] required@[i]).0 < self.n()
                &&& required@[i].1 < self.n()
                &&& (required@[i].0 as int, required@[i].1 as int) == self.required_edges(*d, self.n() as int)[i]
                &&& required@[i].2@ == self.reach_marks(*d, required@[i].0 as int, required@[i].1 as int)
            },
    {
        let n = self.successors.len();
        let mut required: Vec<(usize, usize, Vec<bool>)> = Vec::new();
        let mut u: usize = 0;
        while u < n
            invariant
                u <= n,
                n == self.n(),
                self.fits(*d),
                required@.len() == self.required_edges(*d, u as int).len(),
                required@.len() <= self.domain_total(*d, u as int),
                forall|i: int| 0 <= i < required@.len() ==> {
                    &&& (#[trigger] required@[i]).0 < n
                    &&& required@[i].1 < n
                    &&& (required@[i].0 as int, required@[i].1 as int) == self.required_edges(*d, u as int)[i]
                    &&& required@[i].2@ == self.reach_marks(*d, required@[i].0 as int, required@[i].1 as int)
                },
            decreases n - u,
        {
            let domain = d.iterate_domain(self.successors[u]);
            if domain.len() <= 1 {
                proof {
                    assert(self.required_edges(*d, u + 1) == self.required_edges(*d, u as int));
                }
                u = u + 1;
                continue;
            }
            let ghost base = self.required_edges(*d, u as int);
            let mut k: usize = 0;
            while k < domain.len()
                invariant
                    k <= domain@.len(),
                    u < n,
                    n == self.n(),
                    self.fits(*d),
                    domain@ == d.values(self.successors@[u as int] as int),
                    base == self.required_edges(*d, u as int),
                    required@.len() == (base + self.bridges_from(*d, u as int, domain@.subrange(0, k as int))).len(),
                    required@.len() <= self.domain_total(*d, u as int) + k,
                    forall|i: int| 0 <= i < required@.len() ==> {
                        &&& (#[trigger] required@[i]).0 < n
                        &&& required@[i].1 < n
                        &&& (required@[i].0 as int, required@[i].1 as int) == (base + self.bridges_from(*d, u as int, domain@.subrange(0, k as int)))[i]
                        &&& required@[i].2@ == self.reach_marks(*d, required@[i].0 as int, required@[i].1 as int)
                    },
                decreases domain@.len() - k,
            {
                let value = domain[k];
                proof {
                    assert(domain@.contains(value));
                    self.lemma_values_in_range(*d, u as int, value);
                    assert(domain@.subrange(0, k + 1).drop_last() == domain@.subrange(0, k as int));
                    assert(domain@.subrange(0, k + 1).last() == value);
                }
                let v = domain_value_to_index(value);
                let (reachable, visited) = self.reachable_without_edge(d, u, v);
                let ghost prev = required@;
                if !reachable {
                    required.push((u, v, visited));
                    proof {
                        assert(visited@ =~= self.reach_marks(*d, u as int, v as int));
                    }
                }
                proof {
                    let seq_k1 = base + self.bridges_from(*d, u as int, domain@.subrange(0, k + 1));
                    let seq_k = base + self.bridges_from(*d, u as int, domain@.subrange(0, k as int));
                    if !reachable {
                        assert(seq_k1 =~= seq_k.push((u as int, v as int)));
                        assert forall|i: int| 0 <= i < required@.len() implies {
                            &&& (#[trigger] required@[i]).0 < n
                            &&& required@[i].1 < n
                            &&& (required@[i].0 as int, required@[i].1 as int) == seq_k1[i]
                            &&& required@[i].2@ == self.reach_marks(*d, required@[i].0 as int, required@[i].1 as int)
                        } by {
                            if i < prev.len() {
                                assert(required@[i] == prev[i]);
                            }
                        }
                    } else {
                        assert(seq_k1 =~= seq_k);
                    }
                }
                k = k + 1;
            }
            proof {
                assert(domain@.subrange(0, domain@.len() as int) == domain@);
                assert(self.required_edges(*d, u + 1) == base + self.bridges_from(*d, u as int, domain@));
            }
            u = u + 1;
        }
        required
    }

    /// Strong bridge propagation: fails where the graph of possible
    /// successors is not strongly connected (with the whole graph as reason);
    /// otherwise assigns every strong bridge `u -> v` (an edge without which
    /// `u` cannot reach `v`) out of the nodes whose successor is not assigned.
    pub fn strong_bridge_prevent(&self, d: &mut Domains) -> (r: Result<(), Conflict>)
        requires
            self.fits(*old(d)),
        ensures
            !strongly_connected(self.graph(*old(d))) ==> *final(d) == *old(d) && (r matches Err(Conflict::Propagator { conjunction, code })
                && conjunction@ == self.full_description(*old(d), self.n() as int) && code == self.scc_code),
            strongly_connected(self.graph(*old(d))) ==> Domains::applied(*old(d), self.bridge_steps(*old(d)), *final(d), r),
            self.fits(*final(d)),
            Domains::shrinks_to(*old(d), *final(d)),
            forall|sol: Seq<int>| #[trigger] self.is_solution(*old(d), sol) ==> r is Ok && self.is_solution(*final(d), sol),
            r is Ok ==> forall|u: int, v: int|
                0 <= u < self.n() && 0 <= v < self.n() && old(d).values(self.successors@[u] as int).len() >= 2
                    && old(d).values(self.successors@[u] as int).contains((v + 1) as i32)
                    && !#[trigger] reachable(without_edge(self.graph(*old(d)), u, v), u, v)
                    ==> final(d).fixed(self.successors@[u] as int) == Some((v + 1) as i32),
            forall|i: int| old(d).inferences().len() <= i < final(d).inferences().len() ==> {
                &&& (#[trigger] final(d).inferences()[i]).code == self.strong_bridge_code
                &&& exists|u: int, v: int| 0 <= u < self.n() && 0 <= v < self.n()
                    && final(d).inferences()[i].predicate == equals(self.successors@[u], (v + 1) as i32)
                    && !reachable(without_edge(self.graph(*old(d)), u, v), u, v)
            },
    {
        let ghost d0 = *d;
        proof {
            Domains::lemma_shrinks_refl(d0);
        }
        if !self.is_strongly_connected(d) {
            proof {
                assert forall|sol: Seq<int>| #[trigger] self.is_solution(d0, sol) implies false by {
                    self.lemma_solution_strongly_connected(d0, sol);
                }
            }
            return Err(Conflict::Propagator { conjunction: self.create_full_graph_explanation(d), code: self.scc_code });
        }
        let required = self.find_strong_bridges(d);
        let (result, _attempted) = self.post_bridges(d, &required);
        proof {
            if result is Ok {
                assert(self.bridge_outcome(d0, *d, result));
                assert forall|u: int, v: int|
                    0 <= u < self.n() && 0 <= v < self.n() && d0.values(self.successors@[u] as int).len() >= 2
                        && d0.values(self.successors@[u] as int).contains((v + 1) as i32)
                        && !#[trigger] reachable(without_edge(self.graph(d0), u, v), u, v)
                        implies d.fixed(self.successors@[u] as int) == Some((v + 1) as i32) by {
                    self.lemma_bridges_enforced(d0, *d, result, u, v);
                }
            }
        }
        result
    }

    /// Assigns the strong bridges `required` of the domains, in order; returns
    /// the result and the number of posts made.
    fn post_bridges(&self, d: &mut Domains, required: &Vec<(usize, usize, Vec<bool>)>) -> (res: (Result<(), Conflict>, usize))
        requires
            self.fits(*old(d)),
            strongly_connected(self.graph(*old(d))),
            required@.len() == self.required_edges(*old(d), self.n() as int).len(),
            forall|i: int| 0 <= i < required@.len() ==> {
                &&& (#[trigger] required@[i]).0 < self.n()
                &&& required@[i].1 < self.n()
                &&& (required@[i].0 as int, required@[i].1 as int) == self.required_edges(*old(d), self.n() as int)[i]
                &&& required@[i].2@ == self.reach_marks(*old(d), required@[i].0 as int, required@[i].1 as int)
            },
        ensures
            Domains::applied(*old(d), self.bridge_steps(*old(d)), *final(d), res.0),
            self.fits(*final(d)),
            Domains::shrinks_to(*old(d), *final(d)),
            forall|sol: Seq<int>| #[trigger] self.is_solution(*old(d), sol) ==> res.0 is Ok && self.is_solution(*final(d), sol),
            res.1 <= required@.len(),
            res.0 is Ok ==> res.1 == required@.len(),
            res.0 is Err ==> Domains::fails_at(*old(d), self.bridge_steps(*old(d)), res.1 as int, *final(d), res.0),
            forall|i: int| old(d).inferences().len() <= i < final(d).inferences().len() ==> {
                &&& (#[trigger] final(d).inferences()[i]).code == self.strong_bridge_code
                &&& exists|u: int, v: int| 0 <= u < self.n() && 0 <= v < self.n()
                    && final(d).inferences()[i].predicate == equals(self.successors@[u], (v + 1) as i32)
                    && !reachable(without_edge(self.graph(*old(d)), u, v), u, v)
            },
    {
        let ghost d0 = *d;
        proof {
            Domains::lemma_shrinks_refl(d0);
        }
        let ghost steps = self.bridge_steps(d0);
        let ghost mut states: Seq<Domains> = seq![d0];
        proof {
            Domains::lemma_run_empty(d0);
            assert(steps.take(0) =~= Seq::<StepRelation>::empty());
        }
        let mut idx: usize = 0;
        while idx < required.len()
            invariant
                idx <= required@.len(),
                self.fits(d0),
                d0 == *old(d),
                strongly_connected(self.graph(d0)),
                steps == self.bridge_steps(d0),
                steps.len() == required@.len(),
                forall|i: int| 0 <= i < required@.len() ==> {
                    &&& (#[trigger] required@[i]).0 < self.n()
                    &&& required@[i].1 < self.n()
                    &&& (required@[i].0 as int, required@[i].1 as int) == self.required_edges(d0, self.n() as int)[i]
                    &&& required@[i].2@ == self.reach_marks(d0, required@[i].0 as int, required@[i].1 as int)
                },
                Domains::run(d0, steps.take(idx as int), states, *d, Ok(())),
                self.fits(*d),
                Domains::shrinks_to(d0, *d),
                forall|sol: Seq<int>| #[trigger] self.is_solution(d0, sol) ==> self.is_solution(*d, sol),
                required@.len() == self.required_edges(d0, self.n() as int).len(),
                forall|i: int| d0.inferences().len() <= i < d.inferences().len() ==> {
                    &&& (#[trigger] d.inferences()[i]).code == self.strong_bridge_code
                    &&& exists|u: int, v: int| 0 <= u < self.n() && 0 <= v < self.n()
                        && d.inferences()[i].predicate == equals(self.successors@[u], (v + 1) as i32)
                        && !reachable(without_edge(self.graph(d0), u, v), u, v)
                },
            decreases required@.len() - idx,
        {
            let ghost dm = *d;
            let ghost states_before = states;
            let u = required[idx].0;
            let v = required[idx].1;
            let reason = self.create_strong_bridge_explanation(d, &required[idx].2, u, v);
            let ghost rs = reason@;
            let predicate = Predicate { variable: self.successors[u], comparison: Comparison::Equal, value: index_to_domain_value(v) };
            let result = d.post(predicate, reason, self.strong_bridge_code);
            proof {
                self.lemma_bridge_step(d0, steps, idx as int, u, v, dm, *d, rs, result);
                Domains::lemma_run_push(d0, steps.take(idx as int), states, steps[idx as int], dm, *d, result);
                assert(steps.take(idx as int).push(steps[idx as int]) =~= steps.take(idx + 1));
                states = states.push(*d);
                Domains::lemma_posted_shrinks(dm, *d, predicate, rs, self.strong_bridge_code, result);
                Domains::lemma_shrinks_trans(d0, dm, *d);
                self.lemma_fits_shrinks(dm, *d);
                assert(self.required_edges(d0, self.n() as int)[idx as int] == (u as int, v as int));
                self.lemma_required_edge_is_bridge(d0, idx as int);
                assert forall|i: int| d0.inferences().len() <= i < d.inferences().len() implies {
                    &&& (#[trigger] d.inferences()[i]).code == self.strong_bridge_code
                    &&& exists|u2: int, v2: int| 0 <= u2 < self.n() && 0 <= v2 < self.n()
                        && d.inferences()[i].predicate == equals(self.successors@[u2], (v2 + 1) as i32)
                        && !reachable(without_edge(self.graph(d0), u2, v2), u2, v2)
                } by {
                    if i < dm.inferences().len() {
                        assert(d.inferences()[i] == dm.inferences()[i]) by {
                            if d.inferences() != dm.inferences() {
                                assert(d.inferences().drop_last()[i] == d.inferences()[i]);
                            }
                        }
                    } else {
                        assert(d.inferences() != dm.inferences());
                        assert(i == d.inferences().len() - 1);
                        assert(d.inferences()[i].predicate == equals(self.successors@[u as int], (v + 1) as i32));
                    }
                }
                assert forall|sol: Seq<int>| #[trigger] self.is_solution(d0, sol) implies result is Ok && self.is_solution(*d, sol) by {
                    assert(self.required_edges(d0, self.n() as int)[idx as int] == (u as int, v as int));
                    self.lemma_required_edge_is_bridge(d0, idx as int);
                    self.lemma_bridge_forced(d0, sol, u as int, v as int);
                    assert(self.is_solution(dm, sol));
                    assert forall|w: int| 0 <= w < self.n() && #[trigger] self.successors@[w] == predicate.variable implies predicate.holds((sol[w] + 1) as i32) by {
                        assert(sol[w] == sol[u as int]);
                    }
                    self.lemma_post_keeps_solution(dm, *d, predicate, rs, self.strong_bridge_code, result, sol, u as int);
                }
            }
            if result.is_err() {
                proof {
                    Domains::lemma_run_stopped_rest(d0, steps, idx + 1, states, *d, result);
                    assert(Domains::applied(d0, steps, *d, result));
                    assert(Domains::run(d0, steps.take(idx as int), states_before, dm, Ok(())));
                    assert(steps.take(idx + 1 - 1) == steps.take(idx as int));
                    assert(Domains::applied(d0, steps.take(idx + 1 - 1), dm, Ok(())));
                    assert(Domains::fails_at(d0, steps, idx + 1, *d, result));
                }
                return (result, idx + 1);
            }
            idx = idx + 1;
        }
        proof {
            assert(steps.take(required@.len() as int) =~= steps);
            assert(Domains::applied(d0, steps, *d, Ok(())));
        }
        (Ok(()), required.len())
    }

    /// The `i`-th strong bridge post is the one the bridge steps describe.
    proof fn lemma_bridge_step(
        &self,
        d0: Domains,
        steps: Seq<StepRelation>,
        i: int,
        u: usize,
        v: usize,
        dm: Domains,
        d: Domains,
        rs: Seq<Predicate>,
        result: Result<(), Conflict>,
    )
        requires
            steps == self.bridge_steps(d0),
            0 <= i < steps.len(),
            self.required_edges(d0, self.n() as int)[i] == (u as int, v as int),
            v < self.n(),
            rs == self.bridge_description(dm, self.reach_marks(d0, u as int, v as int), u as int, v as int, self.n() as int),
            Domains::posted(dm, d, equals(self.successors@[u as int], (v + 1) as i32), rs, self.strong_bridge_code, result),
        ensures
            (steps[i])(dm, d, result),
    {
        let edges = self.required_edges(d0, self.n() as int);
        let post: PostStep = |dm2: Domains| (
            equals(self.successors@[edges[i].0], (edges[i].1 + 1) as i32),
            self.bridge_description(dm2, self.reach_marks(d0, edges[i].0, edges[i].1), edges[i].0, edges[i].1, self.n() as int),
            self.strong_bridge_code,
        );
        assert(steps[i] == Domains::post_step(post));
        assert(Domains::posted_step(dm, d, post, result));
    }

    /// Every required edge is a strong bridge between nodes.
    pub proof fn lemma_required_edge_is_bridge(&self, d: Domains, i: int)
        requires
            self.fits(d),
            0 <= i < self.required_edges(d, self.n() as int).len(),
        ensures
            ({
                let (u, v) = self.required_edges(d, self.n() as int)[i];
                &&& 0 <= u < self.n()
                &&& 0 <= v < self.n()
                &&& !reachable(without_edge(self.graph(d), u, v), u, v)
            }),
    {
        self.lemma_required_edges_are_bridges(d, self.n() as int);
    }

    proof fn lemma_required_edges_are_bridges(&self, d: Domains, k: int)
        requires
            self.fits(d),
            k <= self.n(),
        ensures
            forall|i: int| 0 <= i < self.required_edges(d, k).len() ==> {
                let (u, v) = #[trigger] self.required_edges(d, k)[i];
                &&& 0 <= u < self.n()
                &&& 0 <= v < self.n()
                &&& !reachable(without_edge(self.graph(d), u, v), u, v)
            },
        decreases k,
    {
        if k > 0 {
            self.lemma_required_edges_are_bridges(d, k - 1);
            let vals = d.values(self.successors@[k - 1] as int);
            self.lemma_bridges_from_are_bridges(d, k - 1, vals);
            let rest = self.required_edges(d, k - 1);
            if vals.len() > 1 {
                assert forall|i: int| 0 <= i < self.required_edges(d, k).len() implies {
                    let (u, v) = #[trigger] self.required_edges(d, k)[i];
                    &&& 0 <= u < self.n()
                    &&& 0 <= v < self.n()
                    &&& !reachable(without_edge(self.graph(d), u, v), u, v)
                } by {
                    if i < rest.len() {
                        assert(self.required_edges(d, k)[i] == rest[i]);
                    } else {
                        assert(self.required_edges(d, k)[i] == self.bridges_from(d, k - 1, vals)[i - rest.len()]);
                    }
                }
            }
        }
    }

    proof fn lemma_bridges_from_are_bridges(&self, d: Domains, u: int, vals: Seq<i32>)
        requires
            self.fits(d),
            0 <= u < self.n(),
            forall|x: i32| vals.contains(x) ==> d.values(self.successors@[u] as int).contains(x),
        ensures
            forall|i: int| 0 <= i < self.bridges_from(d, u, vals).len() ==> {
                let (a, b) = #[trigger] self.bridges_from(d, u, vals)[i];
                &&& a == u
                &&& 0 <= b < self.n()
                &&& !reachable(without_edge(self.graph(d), a, b), a, b)
            },
        decreases vals.len(),
    {
        if vals.len() > 0 {
            let pre = vals.drop_last();
            assert forall|x: i32| pre.contains(x) implies d.values(self.successors@[u] as int).contains(x) by {
                let j = choose|j: int| 0 <= j < pre.len() && pre[j] == x;
                assert(vals[j] == x);
                assert(vals.contains(x));
            }
            self.lemma_bridges_from_are_bridges(d, u, pre);
            assert(vals.contains(vals.last()));
            self.lemma_values_in_range(d, u, vals.last());
            let rest = self.bridges_from(d, u, pre);
            assert forall|i: int| 0 <= i < self.bridges_from(d, u, vals).len() implies {
                let (a, b) = #[trigger] self.bridges_from(d, u, vals)[i];
                &&& a == u
                &&& 0 <= b < self.n()
                &&& !reachable(without_edge(self.graph(d), a, b), a, b)
            } by {
                if i < rest.len() {
                    assert(self.bridges_from(d, u, vals)[i] == rest[i]);
                }
            }
        }
    }

    /// Strong bridge propagation as `strong_bridge_prevent`, counting the
    /// connectivity conflicts and the strong bridge posts.
    pub fn strong_bridge_prevent_with_stats(&mut self, d: &mut Domains) -> (r: Result<(), Conflict>)
        requires
            old(self).fits(*old(d)),
            old(self).statistics.number_of_scc_propagations < usize::MAX,
            old(self).statistics.number_of_sb_propagations + old(self).domain_total(*old(d), old(self).n() as int) <= usize::MAX,
        ensures
            final(self).successors == old(self).successors,
            final(self).inference_code == old(self).inference_code,
            final(self).strong_bridge_code == old(self).strong_bridge_code,
            final(self).scc_code == old(self).scc_code,
            final(self).use_strong_bridges == old(self).use_strong_bridges,
            old(self).bridge_outcome(*old(d), *final(d), r),
            old(self).bridge_counts(*old(d), *final(d), r, old(self).statistics, final(self).statistics),
            final(self).fits(*final(d)),
            Domains::shrinks_to(*old(d), *final(d)),
            forall|sol: Seq<int>| #[trigger] old(self).is_solution(*old(d), sol) ==> r is Ok && final(self).is_solution(*final(d), sol),
            r is Ok ==> forall|u: int, v: int|
                0 <= u < old(self).n() && 0 <= v < old(self).n() && old(d).values(old(self).successors@[u] as int).len() >= 2
                    && old(d).values(old(self).successors@[u] as int).contains((v + 1) as i32)
                    && !#[trigger] reachable(without_edge(old(self).graph(*old(d)), u, v), u, v)
                    ==> final(d).fixed(old(self).successors@[u] as int) == Some((v + 1) as i32),
            forall|i: int| old(d).inferences().len() <= i < final(d).inferences().len() ==> {
                &&& (#[trigger] final(d).inferences()[i]).code == old(self).strong_bridge_code
                &&& exists|u: int, v: int| 0 <= u < old(self).n() && 0 <= v < old(self).n()
                    && final(d).inferences()[i].predicate == equals(old(self).successors@[u], (v + 1) as i32)
                    && !reachable(without_edge(old(self).graph(*old(d)), u, v), u, v)
            },
    {
        let ghost d0 = *d;
        proof {
            Domains::lemma_shrinks_refl(d0);
        }
        if !self.is_strongly_connected(d) {
            proof {
                assert forall|sol: Seq<int>| #[trigger] self.is_solution(d0, sol) implies false by {
                    self.lemma_solution_strongly_connected(d0, sol);
                }
            }
            let conjunction = self.create_full_graph_explanation(d);
            self.statistics.number_of_scc_propagations = self.statistics.number_of_scc_propagations + 1;
            return Err(Conflict::Propagator { conjunction, code: self.scc_code });
        }
        let required = self.find_strong_bridges(d);
        let (result, attempted) = self.post_bridges(d, &required);
        proof {
            if result is Ok {
                assert(self.bridge_outcome(d0, *d, result));
                assert forall|u: int, v: int|
                    0 <= u < self.n() && 0 <= v < self.n() && d0.values(self.successors@[u] as int).len() >= 2
                        && d0.values(self.successors@[u] as int).contains((v + 1) as i32)
                        && !#[trigger] reachable(without_edge(self.graph(d0), u, v), u, v)
                        implies d.fixed(self.successors@[u] as int) == Some((v + 1) as i32) by {
                    self.lemma_bridges_enforced(d0, *d, result, u, v);
                }
            }
        }
        self.statistics.number_of_sb_propagations = self.statistics.number_of_sb_propagations + attempted;
        result
    }
}

} // verus!

//! Subcycle detection over assigned successors: the check that fails on a
//! closed cycle shorter than all nodes, and the pruning that forbids the edge
//! which would close one.

use vstd::prelude::*;
use crate::domains::{
    Comparison, Conflict, Domains, InferenceCode, PostStep, Predicate, StepRelation, not_equals,
};
use crate::walk::{
    chain_stop, first_repeat, hamiltonian_from, has_short_cycle, iterate, lemma_cycle_never_stops,
    lemma_distinct_len_bound, lemma_hamiltonian_no_short_cycle, lemma_hamiltonian_reaches,
    lemma_iterate_agree, lemma_iterate_compose, lemma_iterate_none_stays, lemma_iterate_some_prefix,
    lemma_stopped_walk_is_chain, repeats, step, stops, walk_nodes,
};
use crate::bitset::{
    bitset_contains, bitset_count_ones, bitset_insert, bitset_len, bitset_ones, bitset_with_capacity,
    bitset_zeroes,
};
use crate::propagator::{CircuitPropagator, as_successors, domain_value_to_index, index_to_domain_value};

verus! {

/// Whether `x` is among the nodes of `v`.
fn contains_node(v: &Vec<usize>, x: usize) -> (b: bool)
    ensures
        b == v@.contains(x),
{
    let mut k: usize = 0;
    while k < v.len()
        invariant
            k <= v@.len(),
            forall|j: int| 0 <= j < k ==> v@[j] != x,
        decreases v@.len() - k,
    {
        if v[k] == x {
            assert(v@[k as int] == x);
            return true;
        }
        k = k + 1;
    }
    false
}

impl CircuitPropagator {
    /// Detects a subcycle among the assigned successors. Follows, from each
    /// node in turn, the assigned edges until it meets an unassigned node, a
    /// node assigned a value that names no node, or a node it visited: if the walk closed a cycle through all nodes,
    /// there is no conflict; otherwise the cycle is shorter than the number of
    /// nodes, and the assignments along the walk are a conflict.
    pub fn check(&self, d: &Domains) -> (r: Result<(), Conflict>)
        requires
            self.covers(*d),
        ensures
            self.check_outcome(*d, r),
    {
        let n = self.successors.len();
        let ghost next = self.fixed_successors(*d);
        let mut start: usize = 0;
        while start < n
            invariant
                start <= n,
                n == self.n(),
                self.covers(*d),
                next == self.fixed_successors(*d),
                forall|s2: int| 0 <= s2 < start ==> #[trigger] stops(next, s2),
            decreases n - start,
        {
            let mut visited = bitset_with_capacity(n);
            let mut cycle_path: Vec<usize> = Vec::new();
            let mut current = start;
            loop
                invariant_except_break
                    n == self.n(),
                    self.covers(*d),
                    next == self.fixed_successors(*d),
                    start < n,
                    current < n,
                    iterate(next, start as int, cycle_path@.len()) == Some(current as int),
                    forall|i: int| 0 <= i < cycle_path@.len() ==> iterate(next, start as int, i as nat) == Some(#[trigger] cycle_path@[i] as int),
                    forall|i: int| 0 <= i < cycle_path@.len() ==> (#[trigger] cycle_path@[i] as int) < n && next[cycle_path@[i] as int] is Some,
                    cycle_path@.no_duplicates(),
                    bitset_ones(visited) == cycle_path@.to_set(),
                    bitset_len(visited) == n,
                    forall|s2: int| 0 <= s2 < start ==> #[trigger] stops(next, s2),
                ensures
                    stops(next, start as int),
                    n == self.n(),
                    self.covers(*d),
                    next == self.fixed_successors(*d),
                    start < n,
                    forall|s2: int| 0 <= s2 < start ==> #[trigger] stops(next, s2),
                decreases n - cycle_path@.len(),
            {
                let var = self.successors[current];
                let fixed_value = match d.fixed_value(var) {
                    Some(value) if 1 <= value && ((value - 1) as usize) < n => value,
                    _ => {
                        proof {
                            let len = cycle_path@.len();
                            assert(next[current as int] is None);
                            assert(iterate(next, start as int, len + 1) is None);
                            assert(!cycle_path@.contains(current)) by {
                                if cycle_path@.contains(current) {
                                    let i = choose|i: int| 0 <= i < cycle_path@.len() && cycle_path@[i] == current;
                                }
                            }
                            let p2 = cycle_path@.push(current);
                            assert(p2.no_duplicates()) by {
                                assert forall|i: int, j: int| 0 <= i < p2.len() && 0 <= j < p2.len() && i != j implies p2[i] != p2[j] by {
                                    if i < len && j < len {
                                        assert(cycle_path@[i] != cycle_path@[j]);
                                    } else if i == len {
                                        assert(!cycle_path@.contains(current));
                                        assert(cycle_path@[j] == p2[j]);
                                    } else {
                                        assert(cycle_path@[i] == p2[i]);
                                    }
                                }
                            }
                            assert forall|i: int| 0 <= i < p2.len() implies (#[trigger] p2[i] as int) < n by {
                                if i < len {
                                    assert(p2[i] == cycle_path@[i]);
                                }
                            }
                            lemma_distinct_len_bound(p2, n as int);
                            lemma_iterate_none_stays(next, start as int, len + 1, n as nat);
                        }
                        break;
                    },
                };
                proof {
                    cycle_path@.unique_seq_to_set();
                }
                if bitset_contains(&visited, current) {
                    let count = bitset_count_ones(&visited);
                    assert(cycle_path@.to_set().contains(current));
                    let ghost len = cycle_path@.len();
                    let ghost j = choose|j: int| 0 <= j < len && cycle_path@[j] == current;
                    proof {
                        lemma_distinct_len_bound(cycle_path@, n as int);
                        assert(iterate(next, start as int, j as nat) == Some(current as int));
                    }
                    if count == n && current == start {
                        proof {
                            assert(hamiltonian_from(next, start as int)) by {
                                assert forall|i: nat| i < next.len() implies (#[trigger] iterate(next, start as int, i)) is Some && 0 <= iterate(next, start as int, i)->0 < next.len() by {
                                    assert(iterate(next, start as int, i) == Some(cycle_path@[i as int] as int));
                                }
                                assert forall|i: nat, k: nat| i < k < next.len() implies #[trigger] iterate(next, start as int, i) != #[trigger] iterate(next, start as int, k) by {
                                    assert(iterate(next, start as int, i) == Some(cycle_path@[i as int] as int));
                                    assert(iterate(next, start as int, k) == Some(cycle_path@[k as int] as int));
                                    assert(cycle_path@[i as int] != cycle_path@[k as int]);
                                }
                            }
                            lemma_hamiltonian_no_short_cycle(next, start as int);
                        }
                        return Ok(());
                    }
                    let explanation = self.create_check_explanation(d, &cycle_path);
                    proof {
                        let w = current as int;
                        let k = (len - j) as nat;
                        lemma_iterate_compose(next, start as int, j as nat, k);
                        assert(j as nat + k == len);
                        assert(iterate(next, w, k) == Some(w));
                        assert(1 <= k < n) by {
                            if j == 0 {
                                assert(cycle_path@[0] == start);
                                assert(len != n);
                            }
                        }
                        assert(has_short_cycle(next));
                        assert(first_repeat(next, start as int, len)) by {
                            assert forall|i: nat| i <= len implies (#[trigger] iterate(next, start as int, i)) is Some by {
                                if i < len {
                                    assert(iterate(next, start as int, i) == Some(cycle_path@[i as int] as int));
                                }
                            }
                            assert forall|i: nat, k2: nat| i < k2 < len implies #[trigger] iterate(next, start as int, i) != #[trigger] iterate(next, start as int, k2) by {
                                assert(iterate(next, start as int, i) == Some(cycle_path@[i as int] as int));
                                assert(iterate(next, start as int, k2) == Some(cycle_path@[k2 as int] as int));
                                assert(cycle_path@[i as int] != cycle_path@[k2 as int]);
                            }
                            assert(iterate(next, start as int, j as nat) == iterate(next, start as int, len));
                        }
                        assert(walk_nodes(next, start as int, len) =~= cycle_path@) by {
                            assert forall|i: int| 0 <= i < len implies walk_nodes(next, start as int, len)[i] == cycle_path@[i] by {
                                assert(iterate(next, start as int, i as nat) == Some(cycle_path@[i] as int));
                            }
                        }
                    }
                    return Err(Conflict::Propagator { conjunction: explanation, code: self.inference_code });
                }
                proof {
                    assert(!cycle_path@.contains(current));
                }
                let ghost old_path = cycle_path@;
                bitset_insert(&mut visited, current);
                cycle_path.push(current);
                proof {
                    assert(cycle_path@.to_set() =~= old_path.to_set().insert(current)) by {
                        crate::domains::lemma_push_contains(old_path, current);
                    }
                    assert(cycle_path@.no_duplicates()) by {
                        assert forall|i: int, j: int| 0 <= i < cycle_path@.len() && 0 <= j < cycle_path@.len() && i != j implies cycle_path@[i] != cycle_path@[j] by {
                            if i < old_path.len() && j < old_path.len() {
                                assert(old_path[i] != old_path[j]);
                            } else if i == old_path.len() {
                                assert(old_path[j] == cycle_path@[j]);
                            } else {
                                assert(old_path[i] == cycle_path@[i]);
                            }
                        }
                    }
                    lemma_distinct_len_bound(cycle_path@, n as int);
                }
                let next_index = domain_value_to_index(fixed_value);
                if next_index >= n {
                    break;
                }
                proof {
                    assert(next[current as int] == Some(next_index as int));
                    assert forall|i: int| 0 <= i < cycle_path@.len() implies iterate(next, start as int, i as nat) == Some(#[trigger] cycle_path@[i] as int) by {
                        if i < old_path.len() {
                            assert(cycle_path@[i] == old_path[i]);
                        }
                    }
                    assert forall|i: int| 0 <= i < cycle_path@.len() implies (#[trigger] cycle_path@[i] as int) < n && next[cycle_path@[i] as int] is Some by {
                        if i < old_path.len() {
                            assert(cycle_path@[i] == old_path[i]);
                        }
                    }
                }
                current = next_index;
            }
            start = start + 1;
        }
        proof {
            if has_short_cycle(next) {
                let (u, k) = choose|u: int, k: nat| 0 <= u < next.len() && 1 <= k < next.len() && #[trigger] iterate(next, u, k) == Some(u);
                lemma_cycle_never_stops(next, u, k, next.len());
                assert(stops(next, u));
            }
        }
        Ok(())
    }

    /// The posts that remove the self-loops, in node order.
    pub open spec fn self_loop_steps(&self) -> Seq<StepRelation> {
        Seq::new(
            self.successors@.len(),
            |u: int| Domains::post_step(|dm: Domains| (not_equals(self.successors@[u], (u + 1) as i32), Seq::<Predicate>::empty(), self.inference_code)),
        )
    }

    /// Shrinking keeps every current value naming a node.
    pub proof fn lemma_in_range_shrinks(&self, d0: Domains, d: Domains)
        requires
            self.in_range(d0),
            Domains::shrinks_to(d0, d),
        ensures
            self.in_range(d),
    {
        assert forall|u: int, x: i32|
            0 <= u < self.successors@.len() && #[trigger] d.values(self.successors@[u] as int).contains(x)
                implies 1 <= x <= self.successors@.len() by {
            assert(d0.values(self.successors@[u] as int).contains(x));
        }
    }

    /// Shrinking keeps the domains fitting.
    pub proof fn lemma_fits_shrinks(&self, d0: Domains, d: Domains)
        requires
            self.fits(d0),
            Domains::shrinks_to(d0, d),
        ensures
            self.fits(d),
    {
        self.lemma_in_range_shrinks(d0, d);
        assert forall|u: int, x: i32|
            0 <= u < self.successors@.len() && #[trigger] d.initial_values(self.successors@[u] as int).contains(x)
                implies 1 <= x <= self.successors@.len() by {
            assert(d.initial_values(self.successors@[u] as int) == d0.initial_values(self.successors@[u] as int));
        }
    }

    /// A post on a successor variable that every solution satisfies succeeds
    /// and keeps every solution.
    pub proof fn lemma_post_keeps_solution(
        &self,
        dm: Domains,
        d: Domains,
        p: Predicate,
        rs: Seq<Predicate>,
        c: InferenceCode,
        r: Result<(), Conflict>,
        sol: Seq<int>,
        u0: int,
    )
        requires
            self.covers(dm),
            Domains::posted(dm, d, p, rs, c, r),
            self.is_solution(dm, sol),
            0 <= u0 < self.n(),
            self.successors@[u0] == p.variable,
            forall|u: int| 0 <= u < self.n() && #[trigger] self.successors@[u] == p.variable ==> p.holds((sol[u] + 1) as i32),
        ensures
            r is Ok,
            self.is_solution(d, sol),
    {
        let var = p.variable as int;
        let x0 = (sol[u0] + 1) as i32;
        assert(dm.values(var).contains(x0));
        assert(p.holds(x0));
        assert forall|u: int| 0 <= u < self.n() implies 0 <= #[trigger] sol[u] < self.n() && d.values(self.successors@[u] as int).contains((sol[u] + 1) as i32) by {
            assert(0 <= sol[u] < self.n());
            assert(dm.values(self.successors@[u] as int).contains((sol[u] + 1) as i32));
            if self.successors@[u] == p.variable {
                assert(p.holds((sol[u] + 1) as i32));
            } else {
                assert(d.values(self.successors@[u] as int) == dm.values(self.successors@[u] as int));
            }
        }
    }

    /// Removes the self-loop of every node: posts `[x_u != u + 1]` for each
    /// node `u` in turn, without reason.
    pub fn remove_self_loops(&self, d: &mut Domains) -> (r: Result<(), Conflict>)
        requires
            self.covers(*old(d)),
        ensures
            Domains::applied(*old(d), self.self_loop_steps(), *final(d), r),
            self.covers(*final(d)),
            self.in_range(*old(d)) ==> self.in_range(*final(d)),
            self.fits(*old(d)) ==> self.fits(*final(d)),
            Domains::shrinks_to(*old(d), *final(d)),
            self.n() >= 2 ==> forall|sol: Seq<int>| #[trigger] self.is_solution(*old(d), sol) ==> r is Ok && self.is_solution(*final(d), sol),
            forall|i: int| old(d).inferences().len() <= i < final(d).inferences().len() ==> {
                &&& (#[trigger] final(d).inferences()[i]).code == self.inference_code
                &&& final(d).inferences()[i].reason@ == Seq::<Predicate>::empty()
                &&& exists|w: int| 0 <= w < self.n() && final(d).inferences()[i].predicate == not_equals(self.successors@[w], (w + 1) as i32)
            },
            r is Ok ==> forall|u: int| 0 <= u < self.n() ==> !#[trigger] final(d).values(self.successors@[u] as int).contains((u + 1) as i32),
    {
        let n = self.successors.len();
        let ghost d0 = *d;
        let ghost steps = self.self_loop_steps();
        let ghost mut states: Seq<Domains> = seq![d0];
        proof {
            Domains::lemma_run_empty(d0);
            assert(steps.take(0) =~= Seq::<StepRelation>::empty());
            Domains::lemma_shrinks_refl(d0);
        }
        let mut zero_indexed_node: usize = 0;
        while zero_indexed_node < n
            invariant
                zero_indexed_node <= n,
                n == self.n(),
                self.covers(d0),
                d0 == *old(d),
                steps == self.self_loop_steps(),
                Domains::run(d0, steps.take(zero_indexed_node as int), states, *d, Ok(())),
                self.covers(*d),
                self.in_range(d0) ==> self.in_range(*d),
                self.fits(d0) ==> self.fits(*d),
                Domains::shrinks_to(d0, *d),
                n >= 2 ==> forall|sol: Seq<int>| #[trigger] self.is_solution(d0, sol) ==> self.is_solution(*d, sol),
                forall|i: int| d0.inferences().len() <= i < d.inferences().len() ==> {
                    &&& (#[trigger] d.inferences()[i]).code == self.inference_code
                    &&& d.inferences()[i].reason@ == Seq::<Predicate>::empty()
                    &&& exists|w: int| 0 <= w < n && d.inferences()[i].predicate == not_equals(self.successors@[w], (w + 1) as i32)
                },
                forall|u: int| 0 <= u < zero_indexed_node ==> !#[trigger] d.values(self.successors@[u] as int).contains((u + 1) as i32),
            decreases n - zero_indexed_node,
        {
            let ghost dm = *d;
            let var = self.successors[zero_indexed_node];
            let value = index_to_domain_value(zero_indexed_node);
            let reason: Vec<Predicate> = Vec::new();
            assert(reason@ == Seq::<Predicate>::empty());
            let result = d.post(
                Predicate { variable: var, comparison: Comparison::NotEqual, value },
                reason,
                self.inference_code,
            );
            proof {
                let step = steps[zero_indexed_node as int];
                let post: PostStep = |dm: Domains| (not_equals(var, value), Seq::<Predicate>::empty(), self.inference_code);
                assert(step == Domains::post_step(post));
                assert(Domains::posted_step(dm, *d, post, result));
                assert(step(dm, *d, result));
                Domains::lemma_run_push(d0, steps.take(zero_indexed_node as int), states, step, dm, *d, result);
                assert(steps.take(zero_indexed_node as int).push(step) =~= steps.take(zero_indexed_node + 1));
                states = states.push(*d);
                Domains::lemma_posted_shrinks(dm, *d, not_equals(var, value), Seq::<Predicate>::empty(), self.inference_code, result);
                Domains::lemma_shrinks_trans(d0, dm, *d);
                assert forall|i: int| d0.inferences().len() <= i < d.inferences().len() implies {
                    &&& (#[trigger] d.inferences()[i]).code == self.inference_code
                    &&& d.inferences()[i].reason@ == Seq::<Predicate>::empty()
                    &&& exists|w: int| 0 <= w < n && d.inferences()[i].predicate == not_equals(self.successors@[w], (w + 1) as i32)
                } by {
                    if i < dm.inferences().len() {
                        assert(d.inferences()[i] == dm.inferences()[i]) by {
                            if d.inferences() != dm.inferences() {
                                assert(d.inferences().drop_last()[i] == d.inferences()[i]);
                            }
                        }
                    } else {
                        assert(d.inferences() != dm.inferences());
                        assert(i == d.inferences().len() - 1);
                        assert(d.inferences()[i].predicate == not_equals(self.successors@[zero_indexed_node as int], (zero_indexed_node + 1) as i32));
                    }
                }
                if result is Ok {
                    assert forall|u: int| 0 <= u < zero_indexed_node + 1 implies !#[trigger] d.values(self.successors@[u] as int).contains((u + 1) as i32) by {
                        if u < zero_indexed_node {
                            assert(!dm.values(self.successors@[u] as int).contains((u + 1) as i32));
                        }
                    }
                }
                if self.in_range(d0) {
                    self.lemma_in_range_shrinks(d0, *d);
                }
                if self.fits(d0) {
                    self.lemma_fits_shrinks(d0, *d);
                }
                if n >= 2 {
                    assert forall|sol: Seq<int>| #[trigger] self.is_solution(d0, sol) implies result is Ok && self.is_solution(*d, sol) by {
                        assert(self.is_solution(dm, sol));
                        lemma_hamiltonian_reaches(as_successors(sol), 0, zero_indexed_node as int, zero_indexed_node as int);
                        assert(iterate(as_successors(sol), zero_indexed_node as int, 1) != Some(zero_indexed_node as int));
                        assert(iterate(as_successors(sol), zero_indexed_node as int, 1) == Some(sol[zero_indexed_node as int]));
                        assert forall|u: int| 0 <= u < self.n() && #[trigger] self.successors@[u] == var implies not_equals(var, value).holds((sol[u] + 1) as i32) by {
                            assert(sol[u] == sol[zero_indexed_node as int]);
                        }
                        self.lemma_post_keeps_solution(dm, *d, not_equals(var, value), Seq::<Predicate>::empty(), self.inference_code, result, sol, zero_indexed_node as int);
                    }
                }
            }
            if result.is_err() {
                proof {
                    assert(Domains::run(d0, steps.take(zero_indexed_node + 1), states, *d, result));
                    Domains::lemma_run_stopped_rest(d0, steps, zero_indexed_node + 1, states, *d, result);
                    assert(Domains::applied(d0, steps, *d, result));
                }
                return result;
            }
            zero_indexed_node = zero_indexed_node + 1;
        }
        proof {
            assert(steps.take(n as int) =~= steps);
            assert(Domains::applied(d0, steps, *d, Ok(())));
        }
        Ok(())
    }

    /// A solution follows the assigned edges.
    pub proof fn lemma_solution_follows_fixed(&self, d: Domains, sol: Seq<int>, u: int, k: nat)
        requires
            self.in_range(d),
            self.is_solution(d, sol),
            0 <= u < self.n(),
            iterate(self.fixed_successors(d), u, k) is Some,
        ensures
            iterate(as_successors(sol), u, k) == iterate(self.fixed_successors(d), u, k),
        decreases k,
    {
        let next = self.fixed_successors(d);
        if k > 0 {
            lemma_iterate_some_prefix(next, u, (k - 1) as nat, k);
            self.lemma_solution_follows_fixed(d, sol, u, (k - 1) as nat);
            let w = iterate(next, u, (k - 1) as nat)->0;
            assert(step(next, w) is Some);
            let var = self.successors@[w] as int;
            let x = d.fixed(var)->0;
            assert(d.values(var).len() == 1);
            assert(d.values(var).contains((sol[w] + 1) as i32));
            assert(d.values(var)[0] == x);
            assert(0 <= sol[w] < self.n());
        }
    }

    /// One step of `prevent`, from the node `un`: where its successor is
    /// assigned, the chain of assigned edges from it is followed to its end;
    /// where the end may still close the cycle back to `un` before all nodes
    /// are in it, that edge is removed, with the chain's assignments as reason.
    pub open spec fn prevent_step(&self, dm: Domains, d: Domains, un: int, r: Result<(), Conflict>) -> bool {
        let next = self.fixed_successors(dm);
        if next[un] is None {
            d == dm && r is Ok
        } else {
            exists|len: nat| #[trigger] chain_stop(next, un, len) && {
                let end = iterate(next, un, len)->0;
                if dm.values(self.successors@[end] as int).contains((un + 1) as i32) && len + 1 < self.n() {
                    Domains::posted(
                        dm,
                        d,
                        not_equals(self.successors@[end], (un + 1) as i32),
                        self.fixed_description(dm, walk_nodes(next, un, len)),
                        self.inference_code,
                        r,
                    )
                } else {
                    d == dm && r is Ok
                }
            }
        }
    }

    /// The steps of `prevent` from the nodes `starts`, in order.
    pub open spec fn prevent_steps(&self, starts: Seq<usize>) -> Seq<StepRelation> {
        Seq::new(
            starts.len(),
            |i: int| (|a: Domains, b: Domains, r: Result<(), Conflict>| self.prevent_step(a, b, starts[i] as int, r)),
        )
    }

    /// A step of `prevent` only shrinks the domains.
    proof fn lemma_prevent_step_shrinks(&self, dm: Domains, d: Domains, un: int, r: Result<(), Conflict>)
        requires
            dm.wf(),
            self.prevent_step(dm, d, un, r),
        ensures
            Domains::shrinks_to(dm, d),
    {
        let next = self.fixed_successors(dm);
        if next[un] is None {
            Domains::lemma_shrinks_refl(dm);
        } else {
            let len = choose|len: nat| #[trigger] chain_stop(next, un, len) && {
                let end = iterate(next, un, len)->0;
                if dm.values(self.successors@[end] as int).contains((un + 1) as i32) && len + 1 < self.n() {
                    Domains::posted(
                        dm,
                        d,
                        not_equals(self.successors@[end], (un + 1) as i32),
                        self.fixed_description(dm, walk_nodes(next, un, len)),
                        self.inference_code,
                        r,
                    )
                } else {
                    d == dm && r is Ok
                }
            };
            let end = iterate(next, un, len)->0;
            if dm.values(self.successors@[end] as int).contains((un + 1) as i32) && len + 1 < self.n() {
                Domains::lemma_posted_shrinks(
                    dm,
                    d,
                    not_equals(self.successors@[end], (un + 1) as i32),
                    self.fixed_description(dm, walk_nodes(next, un, len)),
                    self.inference_code,
                    r,
                );
            } else {
                Domains::lemma_shrinks_refl(dm);
            }
        }
    }

    /// Along a successful run of the steps of `prevent`, the domains only
    /// shrink.
    proof fn lemma_prevent_run_shrinks(
        &self,
        d0: Domains,
        starts: Seq<usize>,
        states: Seq<Domains>,
        d: Domains,
        r: Result<(), Conflict>,
        a: int,
        b: int,
    )
        requires
            Domains::run(d0, self.prevent_steps(starts), states, d, r),
            r is Ok,
            d0.wf(),
            0 <= a <= b < states.len(),
        ensures
            Domains::shrinks_to(states[a], states[b]),
        decreases b,
    {
        if b == 0 {
            Domains::lemma_shrinks_refl(d0);
        } else {
            let j = b - 1;
            let steps = self.prevent_steps(starts);
            let rj: Result<(), Conflict> = if j < states.len() - 2 { Ok(()) } else { r };
            assert((steps[j])(states[j], states[b], rj));
            assert(self.prevent_step(states[j], states[b], starts[j] as int, rj));
            self.lemma_prevent_run_shrinks(d0, starts, states, d, r, 0, j);
            self.lemma_prevent_step_shrinks(states[j], states[b], starts[j] as int, rj);
            if a == b {
                Domains::lemma_shrinks_refl(states[b]);
            } else {
                self.lemma_prevent_run_shrinks(d0, starts, states, d, r, a, j);
                Domains::lemma_shrinks_trans(states[a], states[j], states[b]);
            }
        }
    }

    /// Subcycle prevention that succeeds closes no short chain: for every
    /// node `un` with an assigned successor and no assigned edge into it,
    /// whose chain of `len` assigned edges ends at a node `end` without an
    /// assigned successor, with `len + 1` less than the number of nodes, the
    /// edge `end -> un` is then gone (unless `end` became assigned meanwhile).
    pub proof fn lemma_prevent_closes_chains(&self, d0: Domains, d: Domains, r: Result<(), Conflict>, un: int, len: nat)
        requires
            self.in_range(d0),
            self.prevent_outcome(d0, d, r),
            r is Ok,
            0 <= un < self.n(),
            1 <= len,
            len + 1 < self.n(),
            forall|w: int| 0 <= w < self.n() ==> #[trigger] d0.fixed(self.successors@[w] as int) != Some((un + 1) as i32),
            iterate(self.fixed_successors(d0), un, len) is Some,
            step(self.fixed_successors(d0), iterate(self.fixed_successors(d0), un, len)->0) is None,
        ensures
            ({
                let end = iterate(self.fixed_successors(d0), un, len)->0;
                !d.values(self.successors@[end] as int).contains((un + 1) as i32) || d.fixed(self.successors@[end] as int) is Some
            }),
    {
        let n = self.n() as int;
        let next0 = self.fixed_successors(d0);
        let end = iterate(next0, un, len)->0;
        let starts = choose|starts: Seq<usize>| #[trigger] self.unmarked_nodes(d0, starts) && Domains::applied(d0, self.prevent_steps(starts), d, r);
        assert(!exists|w: int| 0 <= w < n && #[trigger] next0[w] == Some(un)) by {
            if exists|w: int| 0 <= w < n && #[trigger] next0[w] == Some(un) {
                let w = choose|w: int| 0 <= w < n && #[trigger] next0[w] == Some(un);
                assert(d0.fixed(self.successors@[w] as int) == Some((un + 1) as i32));
            }
        }
        assert(starts.contains(un as usize));
        let i = choose|i: int| 0 <= i < starts.len() && starts[i] == un as usize;
        let steps = self.prevent_steps(starts);
        let states = choose|states: Seq<Domains>| #[trigger] Domains::run(d0, steps, states, d, r);
        let m = states.len() - 1;
        assert(m == steps.len());
        let ri: Result<(), Conflict> = if i < m - 1 { Ok(()) } else { r };
        assert((steps[i])(states[i], states[i + 1], ri));
        let dm = states[i];
        assert(self.prevent_step(dm, states[i + 1], un, ri));
        d0.lemma_wf();
        self.lemma_prevent_run_shrinks(d0, starts, states, d, r, 0, i);
        self.lemma_prevent_run_shrinks(d0, starts, states, d, r, i, m);
        self.lemma_prevent_run_shrinks(d0, starts, states, d, r, i + 1, m);
        assert(states[m] == d);
        let nextm = self.fixed_successors(dm);
        assert forall|w: int| 0 <= w < next0.len() && (#[trigger] next0[w]) is Some implies nextm[w] == next0[w] by {
            Domains::lemma_fixed_kept(d0, dm, self.successors@[w] as int);
        }
        lemma_iterate_agree(next0, nextm, un, len);
        assert(iterate(next0, un, 1) is Some) by {
            if iterate(next0, un, 1) is None {
                lemma_iterate_none_stays(next0, un, 1, len);
            }
        }
        assert(iterate(next0, un, 0) == Some(un));
        assert(iterate(next0, un, 1) == step(next0, un));
        assert(next0[un] is Some);
        assert(nextm[un] is Some);
        let evar = self.successors@[end] as int;
        if step(nextm, end) is Some {
            assert(dm.fixed(evar) is Some);
            Domains::lemma_fixed_kept(dm, d, evar);
        } else {
            lemma_stopped_walk_is_chain(nextm, un, len);
            let len2 = choose|len2: nat| #[trigger] chain_stop(nextm, un, len2) && {
                let end2 = iterate(nextm, un, len2)->0;
                if dm.values(self.successors@[end2] as int).contains((un + 1) as i32) && len2 + 1 < self.n() {
                    Domains::posted(
                        dm,
                        states[i + 1],
                        not_equals(self.successors@[end2], (un + 1) as i32),
                        self.fixed_description(dm, walk_nodes(nextm, un, len2)),
                        self.inference_code,
                        ri,
                    )
                } else {
                    states[i + 1] == dm && ri is Ok
                }
            };
            assert(len2 == len);
            if dm.values(evar).contains((un + 1) as i32) {
                assert(!states[i + 1].values(evar).contains((un + 1) as i32));
            }
        }
    }

    /// `starts` are, in increasing order, the nodes without an assigned edge
    /// into them.
    pub open spec fn unmarked_nodes(&self, d: Domains, starts: Seq<usize>) -> bool {
        &&& forall|i: int, j: int| 0 <= i < j < starts.len() ==> starts[i] < starts[j]
        &&& forall|u: usize| #[trigger] starts.contains(u) <==> ((u as int) < self.n() && !exists|w: int|
            0 <= w < self.n() && #[trigger] self.fixed_successors(d)[w] == Some(u as int))
    }

    /// One step of `prevent`, from the node `unmarked`.
    fn prevent_from(&self, d: &mut Domains, unmarked: usize) -> (r: Result<(), Conflict>)
        requires
            self.in_range(*old(d)),
            unmarked < self.n(),
        ensures
            self.prevent_step(*old(d), *final(d), unmarked as int, r),
            self.in_range(*final(d)),
            Domains::shrinks_to(*old(d), *final(d)),
            forall|sol: Seq<int>| #[trigger] self.is_solution(*old(d), sol) ==> r is Ok && self.is_solution(*final(d), sol),
            forall|i: int| old(d).inferences().len() <= i < final(d).inferences().len() ==> {
                &&& (#[trigger] final(d).inferences()[i]).code == self.inference_code
                &&& exists|w: int, x: i32| 0 <= w < self.n() && final(d).inferences()[i].predicate == not_equals(self.successors@[w], x)
            },
    {
        let n = self.successors.len();
        let ghost next_tbl = self.fixed_successors(*d);
        let ghost un = unmarked as int;
        proof {
            Domains::lemma_shrinks_refl(*d);
            d.lemma_wf();
        }
        let fixed_value = match d.fixed_value(self.successors[unmarked]) {
            Some(value) => value,
            None => {
                return Ok(());
            },
        };
        proof {
            let var = self.successors@[unmarked as int] as int;
            assert(d.values(var).contains(d.values(var)[0]));
            self.lemma_values_in_range(*d, unmarked as int, fixed_value);
        }
        let mut chain: Vec<usize> = Vec::new();
        chain.push(unmarked);
        let mut next = domain_value_to_index(fixed_value);
        proof {
            assert(iterate(next_tbl, un, 0) == Some(un));
            assert(iterate(next_tbl, un, 1) == Some(next as int));
            assert(chain@[0] == unmarked);
        }
        loop
            invariant_except_break
                n == self.n(),
                self.in_range(*d),
                next_tbl == self.fixed_successors(*d),
                un == unmarked as int,
                unmarked < n,
                1 <= chain@.len() <= n,
                next < n,
                forall|i: int| 0 <= i < chain@.len() ==> iterate(next_tbl, un, i as nat) == Some(#[trigger] chain@[i] as int),
                forall|i: int| 0 <= i < chain@.len() ==> (#[trigger] chain@[i] as int) < n,
                iterate(next_tbl, un, chain@.len()) == Some(next as int),
                forall|j: nat| 2 <= j <= chain@.len() ==> !#[trigger] repeats(next_tbl, un, j),
                chain@.len() >= 2 ==> iterate(next_tbl, un, 1) != iterate(next_tbl, un, 0),
            ensures
                n == self.n(),
                self.in_range(*d),
                next_tbl == self.fixed_successors(*d),
                un == unmarked as int,
                unmarked < n,
                next < n,
                1 <= chain@.len() <= n + 1,
                forall|i: int| 0 <= i < chain@.len() ==> iterate(next_tbl, un, i as nat) == Some(#[trigger] chain@[i] as int),
                forall|i: int| 0 <= i < chain@.len() ==> (#[trigger] chain@[i] as int) < n,
                iterate(next_tbl, un, chain@.len()) == Some(next as int),
                chain_stop(next_tbl, un, chain@.len()),
            decreases n - chain@.len(),
        {
            let ghost len = chain@.len();
            let fixed_value_next = match d.fixed_value(self.successors[next]) {
                Some(value) => value,
                None => {
                    proof {
                        assert(step(next_tbl, next as int) is None);
                        assert forall|i: nat| i <= len implies (#[trigger] iterate(next_tbl, un, i)) is Some by {
                            if i < len {
                                assert(iterate(next_tbl, un, i) == Some(chain@[i as int] as int));
                            }
                        }
                    }
                    break;
                },
            };
            proof {
                let var = self.successors@[next as int] as int;
                assert(d.values(var).contains(d.values(var)[0]));
                self.lemma_values_in_range(*d, next as int, fixed_value_next);
            }
            let ghost old_chain = chain@;
            chain.push(next);
            next = domain_value_to_index(fixed_value_next);
            proof {
                assert(iterate(next_tbl, un, len + 1) == Some(next as int));
                assert forall|i: int| 0 <= i < chain@.len() implies iterate(next_tbl, un, i as nat) == Some(#[trigger] chain@[i] as int) by {
                    if i < len {
                        assert(chain@[i] == old_chain[i]);
                    }
                }
                assert forall|i: int| 0 <= i < chain@.len() implies (#[trigger] chain@[i] as int) < n by {
                    if i < len {
                        assert(chain@[i] == old_chain[i]);
                    }
                }
                assert forall|i: nat| i <= len + 1 implies (#[trigger] iterate(next_tbl, un, i)) is Some by {
                    if i <= len {
                        assert(iterate(next_tbl, un, i) == Some(chain@[i as int] as int));
                    }
                }
            }
            if contains_node(&chain, next) {
                proof {
                    let a = choose|a: int| 0 <= a < chain@.len() && chain@[a] == next;
                    assert(iterate(next_tbl, un, a as nat) == iterate(next_tbl, un, len + 1));
                    assert(repeats(next_tbl, un, len + 1));
                    assert(len + 1 >= 2);
                }
                break;
            }
            proof {
                assert(!repeats(next_tbl, un, len + 1)) by {
                    if repeats(next_tbl, un, len + 1) {
                        let a = choose|a: nat| a < len + 1 && #[trigger] iterate(next_tbl, un, a) == iterate(next_tbl, un, len + 1);
                        assert(chain@[a as int] == next);
                    }
                }
                if len == 1 {
                    if iterate(next_tbl, un, 1) == iterate(next_tbl, un, 0) {
                        assert(iterate(next_tbl, un, 2) == iterate(next_tbl, un, 1));
                        assert(chain@[1] == next);
                    }
                }
                assert(chain@.no_duplicates()) by {
                    assert forall|i: int, j: int| 0 <= i < j < chain@.len() implies chain@[i] != chain@[j] by {
                        if chain@[i] == chain@[j] {
                            if j >= 2 {
                                assert(iterate(next_tbl, un, i as nat) == iterate(next_tbl, un, j as nat));
                                assert(repeats(next_tbl, un, j as nat));
                            } else {
                                assert(iterate(next_tbl, un, 1) == iterate(next_tbl, un, 0));
                            }
                        }
                    }
                }
                lemma_distinct_len_bound(chain@, n as int);
            }
        }
        let ghost len = chain@.len();
        let end = next;
        let closing_value = index_to_domain_value(unmarked);
        if d.contains(self.successors[end], closing_value) && chain.len() + 1 < n {
            proof {
                assert forall|i: int| 0 <= i < chain@.len() implies (#[trigger] chain@[i] as int) < self.n() && d.fixed(self.successors@[chain@[i] as int] as int) is Some by {
                    assert(iterate(next_tbl, un, i as nat) == Some(chain@[i] as int));
                    assert(iterate(next_tbl, un, (i + 1) as nat) is Some);
                }
            }
            let reason = self.create_prevent_explanation(d, &chain);
            let ghost dm = *d;
            let ghost rs = reason@;
            let predicate = Predicate { variable: self.successors[end], comparison: Comparison::NotEqual, value: closing_value };
            let r = d.post(predicate, reason, self.inference_code);
            proof {
                assert(walk_nodes(next_tbl, un, len) =~= chain@) by {
                    assert forall|i: int| 0 <= i < len implies walk_nodes(next_tbl, un, len)[i] == chain@[i] by {
                        assert(iterate(next_tbl, un, i as nat) == Some(chain@[i] as int));
                    }
                }
                assert(chain_stop(next_tbl, un, len));
                assert(self.prevent_step(dm, *d, un, r));
                Domains::lemma_posted_shrinks(dm, *d, predicate, rs, self.inference_code, r);
                self.lemma_in_range_shrinks(dm, *d);
                assert forall|i: int| dm.inferences().len() <= i < d.inferences().len() implies {
                    &&& (#[trigger] d.inferences()[i]).code == self.inference_code
                    &&& exists|w: int, x: i32| 0 <= w < self.n() && d.inferences()[i].predicate == not_equals(self.successors@[w], x)
                } by {
                    assert(d.inferences() != dm.inferences());
                    assert(i == d.inferences().len() - 1);
                    assert(d.inferences()[i].predicate == not_equals(self.successors@[end as int], closing_value));
                }
                assert forall|sol: Seq<int>| #[trigger] self.is_solution(dm, sol) implies r is Ok && self.is_solution(*d, sol) by {
                    let ssol = as_successors(sol);
                    self.lemma_solution_follows_fixed(dm, sol, un, len);
                    assert(iterate(ssol, un, len) == Some(end as int));
                    lemma_hamiltonian_reaches(ssol, 0, un, un);
                    assert(sol[end as int] != un) by {
                        if sol[end as int] == un {
                            assert(iterate(ssol, un, len + 1) == Some(un));
                        }
                    }
                    assert forall|u: int| 0 <= u < self.n() && #[trigger] self.successors@[u] == predicate.variable implies predicate.holds((sol[u] + 1) as i32) by {
                        assert(sol[u] == sol[end as int]);
                    }
                    self.lemma_post_keeps_solution(dm, *d, predicate, rs, self.inference_code, r, sol, end as int);
                }
            }
            return r;
        }
        proof {
            assert(chain_stop(next_tbl, un, len));
            assert(self.prevent_step(*d, *d, un, Ok(())));
        }
        Ok(())
    }

    /// Prevents subcycles of assigned edges: for each node without an assigned
    /// edge into it (in increasing order), follows the chain of assigned edges
    /// from it, and removes the edge from the chain's end back to it where the
    /// chain does not hold all but one node.
    pub fn prevent(&self, d: &mut Domains) -> (r: Result<(), Conflict>)
        requires
            self.in_range(*old(d)),
        ensures
            exists|starts: Seq<usize>| #[trigger] self.unmarked_nodes(*old(d), starts) && Domains::applied(*old(d), self.prevent_steps(starts), *final(d), r),
            self.in_range(*final(d)),
            Domains::shrinks_to(*old(d), *final(d)),
            forall|sol: Seq<int>| #[trigger] self.is_solution(*old(d), sol) ==> r is Ok && self.is_solution(*final(d), sol),
            forall|i: int| old(d).inferences().len() <= i < final(d).inferences().len() ==> {
                &&& (#[trigger] final(d).inferences()[i]).code == self.inference_code
                &&& exists|w: int, x: i32| 0 <= w < self.n() && final(d).inferences()[i].predicate == not_equals(self.successors@[w], x)
            },
            r is Ok ==> forall|un: int, len: nat|
                0 <= un < self.n() && 1 <= len && len + 1 < self.n()
                    && (forall|w: int| 0 <= w < self.n() ==> #[trigger] old(d).fixed(self.successors@[w] as int) != Some((un + 1) as i32))
                    && (#[trigger] iterate(self.fixed_successors(*old(d)), un, len)) is Some
                    && step(self.fixed_successors(*old(d)), iterate(self.fixed_successors(*old(d)), un, len)->0) is None
                    ==> !final(d).values(self.successors@[iterate(self.fixed_successors(*old(d)), un, len)->0] as int).contains((un + 1) as i32)
                        || final(d).fixed(self.successors@[iterate(self.fixed_successors(*old(d)), un, len)->0] as int) is Some,
    {
        let n = self.successors.len();
        let ghost d0 = *d;
        let ghost next_tbl = self.fixed_successors(*d);
        let mut has_incoming_edge = bitset_with_capacity(n);
        let mut i: usize = 0;
        while i < n
            invariant
                i <= n,
                n == self.n(),
                self.in_range(*d),
                next_tbl == self.fixed_successors(*d),
                bitset_len(has_incoming_edge) == n,
                forall|b: usize| #[trigger] bitset_ones(has_incoming_edge).contains(b) <==> exists|w: int| 0 <= w < i && #[trigger] next_tbl[w] == Some(b as int),
            decreases n - i,
        {
            if let Some(fixed_value) = d.fixed_value(self.successors[i]) {
                proof {
                    let var = self.successors@[i as int] as int;
                    d.lemma_wf();
                    assert(d.values(var).contains(d.values(var)[0]));
                    self.lemma_values_in_range(*d, i as int, fixed_value);
                }
                let target = domain_value_to_index(fixed_value);
                bitset_insert(&mut has_incoming_edge, target);
                proof {
                    assert(next_tbl[i as int] == Some(target as int));
                    assert forall|b: usize| #[trigger] bitset_ones(has_incoming_edge).contains(b) <==> exists|w: int| 0 <= w < i + 1 && #[trigger] next_tbl[w] == Some(b as int) by {
                        if exists|w: int| 0 <= w < i + 1 && #[trigger] next_tbl[w] == Some(b as int) {
                            let w = choose|w: int| 0 <= w < i + 1 && #[trigger] next_tbl[w] == Some(b as int);
                            if w < i {
                                assert(exists|w2: int| 0 <= w2 < i && #[trigger] next_tbl[w2] == Some(b as int));
                            }
                        }
                    }
                }
            } else {
                proof {
                    assert(next_tbl[i as int] is None);
                    assert forall|b: usize| #[trigger] bitset_ones(has_incoming_edge).contains(b) <==> exists|w: int| 0 <= w < i + 1 && #[trigger] next_tbl[w] == Some(b as int) by {
                        if exists|w: int| 0 <= w < i + 1 && #[trigger] next_tbl[w] == Some(b as int) {
                            let w = choose|w: int| 0 <= w < i + 1 && #[trigger] next_tbl[w] == Some(b as int);
                            assert(w != i);
                            assert(exists|w2: int| 0 <= w2 < i && #[trigger] next_tbl[w2] == Some(b as int));
                        }
                    }
                }
            }
            i = i + 1;
        }
        let zeroes = bitset_zeroes(&has_incoming_edge);
        let ghost starts = zeroes@;
        proof {
            assert(self.unmarked_nodes(d0, starts)) by {
                assert forall|u: usize| #[trigger] starts.contains(u) <==> ((u as int) < self.n() && !exists|w: int|
                    0 <= w < self.n() && #[trigger] self.fixed_successors(d0)[w] == Some(u as int)) by {
                }
            }
        }
        let ghost steps = self.prevent_steps(starts);
        let ghost mut states: Seq<Domains> = seq![d0];
        proof {
            Domains::lemma_run_empty(d0);
            assert(steps.take(0) =~= Seq::<StepRelation>::empty());
            Domains::lemma_shrinks_refl(d0);
        }
        let mut k: usize = 0;
        while k < zeroes.len()
            invariant
                k <= zeroes@.len(),
                n == self.n(),
                self.in_range(d0),
                d0 == *old(d),
                starts == zeroes@,
                self.unmarked_nodes(d0, starts),
                steps == self.prevent_steps(starts),
                Domains::run(d0, steps.take(k as int), states, *d, Ok(())),
                self.in_range(*d),
                Domains::shrinks_to(d0, *d),
                forall|sol: Seq<int>| #[trigger] self.is_solution(d0, sol) ==> self.is_solution(*d, sol),
                forall|i: int| d0.inferences().len() <= i < d.inferences().len() ==> {
                    &&& (#[trigger] d.inferences()[i]).code == self.inference_code
                    &&& exists|w: int, x: i32| 0 <= w < self.n() && d.inferences()[i].predicate == not_equals(self.successors@[w], x)
                },
            decreases zeroes@.len() - k,
        {
            let ghost dm = *d;
            let unmarked = zeroes[k];
            proof {
                assert(starts.contains(unmarked));
            }
            let result = self.prevent_from(d, unmarked);
            proof {
                let st = steps[k as int];
                assert(st(dm, *d, result));
                Domains::lemma_run_push(d0, steps.take(k as int), states, st, dm, *d, result);
                assert(steps.take(k as int).push(st) =~= steps.take(k + 1));
                states = states.push(*d);
                Domains::lemma_shrinks_trans(d0, dm, *d);
                assert forall|i: int| d0.inferences().len() <= i < d.inferences().len() implies {
                    &&& (#[trigger] d.inferences()[i]).code == self.inference_code
                    &&& exists|w: int, x: i32| 0 <= w < self.n() && d.inferences()[i].predicate == not_equals(self.successors@[w], x)
                } by {
                    if i < dm.inferences().len() {
                        assert(d.inferences().subrange(0, dm.inferences().len() as int)[i] == d.inferences()[i]);
                    }
                }
            }
            if result.is_err() {
                proof {
                    Domains::lemma_run_stopped_rest(d0, steps, k + 1, states, *d, result);
                    assert(Domains::applied(d0, steps, *d, result));
                }
                return result;
            }
            k = k + 1;
        }
        proof {
            assert(steps.take(zeroes@.len() as int) =~= steps);
            assert(Domains::applied(d0, steps, *d, Ok(())));
            assert(self.prevent_outcome(d0, *d, Ok(())));
            assert forall|un: int, len: nat|
                0 <= un < self.n() && 1 <= len && len + 1 < self.n()
                    && (forall|w: int| 0 <= w < self.n() ==> #[trigger] d0.fixed(self.successors@[w] as int) != Some((un + 1) as i32))
                    && (#[trigger] iterate(self.fixed_successors(d0), un, len)) is Some
                    && step(self.fixed_successors(d0), iterate(self.fixed_successors(d0), un, len)->0) is None
                    implies !d.values(self.successors@[iterate(self.fixed_successors(d0), un, len)->0] as int).contains((un + 1) as i32)
                        || d.fixed(self.successors@[iterate(self.fixed_successors(d0), un, len)->0] as int) is Some by {
                self.lemma_prevent_closes_chains(d0, *d, Ok(()), un, len);
            }
        }
        Ok(())
    }

    /// Where the assigned successors close a cycle through fewer than all
    /// nodes, there is no solution.
    pub proof fn lemma_short_cycle_no_solution(&self, d: Domains, sol: Seq<int>)
        requires
            self.in_range(d),
            has_short_cycle(self.fixed_successors(d)),
        ensures
            !self.is_solution(d, sol),
    {
        if !self.is_solution(d, sol) {
            return;
        }
        let next = self.fixed_successors(d);
        let (u, k) = choose|u: int, k: nat| 0 <= u < next.len() && 1 <= k < next.len() && #[trigger] iterate(next, u, k) == Some(u);
        self.lemma_solution_follows_fixed(d, sol, u, k);
        lemma_hamiltonian_reaches(as_successors(sol), 0, u, u);
    }
}

} // verus!

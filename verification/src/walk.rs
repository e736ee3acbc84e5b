//! Walks along a partial successor function: iteration, repetition, and
//! Hamiltonian cycles.

use vstd::prelude::*;
use crate::graph::{Graph, has_edge, is_path, path_step, reachable};

verus! {

/// A partial successor function on the nodes `0..next.len()`: `next[u]` is the
/// successor of `u`, if it has one.
pub type Successors = Seq<Option<int>>;

/// The successor of `w`, if `w` is a node and has one.
pub open spec fn step(next: Successors, w: int) -> Option<int> {
    if 0 <= w < next.len() {
        next[w]
    } else {
        None
    }
}

/// Where `k` steps along `next` lead from `s`, if they can all be taken.
pub open spec fn iterate(next: Successors, s: int, k: nat) -> Option<int>
    decreases k,
{
    if k == 0 {
        Some(s)
    } else {
        match iterate(next, s, (k - 1) as nat) {
            Some(w) => step(next, w),
            None => None,
        }
    }
}

/// Whether every successor is a node.
pub open spec fn closed(next: Successors) -> bool {
    forall|u: int| 0 <= u < next.len() && (#[trigger] next[u]) is Some ==> 0 <= next[u]->0 < next.len()
}

/// Whether the walk from `s` visits every node once and returns to `s` after
/// exactly `next.len()` steps.
pub open spec fn hamiltonian_from(next: Successors, s: int) -> bool {
    &&& next.len() >= 1
    &&& 0 <= s < next.len()
    &&& forall|i: nat| i < next.len() ==> (#[trigger] iterate(next, s, i)) is Some && 0 <= iterate(next, s, i)->0 < next.len()
    &&& forall|i: nat, j: nat| i < j < next.len() ==> #[trigger] iterate(next, s, i) != #[trigger] iterate(next, s, j)
    &&& iterate(next, s, next.len()) == Some(s)
}

/// Whether some node returns to itself after fewer steps than there are nodes.
pub open spec fn has_short_cycle(next: Successors) -> bool {
    exists|u: int, k: nat| 0 <= u < next.len() && 1 <= k < next.len() && #[trigger] iterate(next, u, k) == Some(u)
}

/// Steps compose: `a` steps and then `k` steps are `a + k` steps.
pub proof fn lemma_iterate_compose(next: Successors, s: int, a: nat, k: nat)
    requires
        iterate(next, s, a) is Some,
    ensures
        iterate(next, iterate(next, s, a)->0, k) == iterate(next, s, a + k),
    decreases k,
{
    if k > 0 {
        lemma_iterate_compose(next, s, a, (k - 1) as nat);
        assert((a + k - 1) as nat == a + (k - 1) as nat);
    }
}

/// Once a walk stops, it stays stopped.
pub proof fn lemma_iterate_none_stays(next: Successors, s: int, a: nat, b: nat)
    requires
        iterate(next, s, a) is None,
        a <= b,
    ensures
        iterate(next, s, b) is None,
    decreases b - a,
{
    if b > a {
        lemma_iterate_none_stays(next, s, a, (b - 1) as nat);
    }
}

/// A walk that can take `b` steps can take fewer.
pub proof fn lemma_iterate_some_prefix(next: Successors, s: int, a: nat, b: nat)
    requires
        iterate(next, s, b) is Some,
        a <= b,
    ensures
        iterate(next, s, a) is Some,
{
    if iterate(next, s, a) is None {
        lemma_iterate_none_stays(next, s, a, b);
    }
}

/// Every node lies on a Hamiltonian walk.
pub proof fn lemma_hamiltonian_covers(next: Successors, s: int, v: int)
    requires
        hamiltonian_from(next, s),
        0 <= v < next.len(),
    ensures
        exists|a: nat| a < next.len() && #[trigger] iterate(next, s, a) == Some(v),
{
    let n = next.len();
    let nodes = Seq::new(n, |i: int| iterate(next, s, i as nat)->0);
    assert(nodes.no_duplicates()) by {
        assert forall|i: int, j: int| 0 <= i < nodes.len() && 0 <= j < nodes.len() && i != j implies nodes[i] != nodes[j] by {
            if i < j {
                assert(iterate(next, s, i as nat) != iterate(next, s, j as nat));
            } else {
                assert(iterate(next, s, j as nat) != iterate(next, s, i as nat));
            }
            assert(iterate(next, s, i as nat) is Some);
            assert(iterate(next, s, j as nat) is Some);
        }
    }
    nodes.unique_seq_to_set();
    let range = vstd::set_lib::set_int_range(0, n as int);
    vstd::set_lib::lemma_int_range(0, n as int);
    assert(nodes.to_set().subset_of(range)) by {
        assert forall|x: int| nodes.to_set().contains(x) implies range.contains(x) by {
            let i = choose|i: int| 0 <= i < nodes.len() && nodes[i] == x;
            assert(iterate(next, s, i as nat) is Some);
        }
    }
    vstd::set_lib::lemma_subset_equality(nodes.to_set(), range);
    assert(range.contains(v));
    assert(nodes.to_set().contains(v));
    let i = choose|i: int| 0 <= i < nodes.len() && nodes[i] == v;
    assert(iterate(next, s, i as nat) is Some);
    assert(iterate(next, s, i as nat) == Some(v));
}

/// A Hamiltonian walk repeats itself every `next.len()` steps.
pub proof fn lemma_hamiltonian_periodic(next: Successors, s: int, i: nat)
    requires
        hamiltonian_from(next, s),
    ensures
        iterate(next, s, next.len() + i) == iterate(next, s, i),
{
    lemma_iterate_compose(next, s, next.len(), i);
}

/// Where `k` steps lead from the node `a` steps along a Hamiltonian walk.
proof fn lemma_hamiltonian_shift(next: Successors, s: int, a: nat, k: nat)
    requires
        hamiltonian_from(next, s),
        a < next.len(),
        k < next.len(),
    ensures
        a + k < next.len() ==> iterate(next, iterate(next, s, a)->0, k) == iterate(next, s, a + k),
        a + k >= next.len() ==> iterate(next, iterate(next, s, a)->0, k) == iterate(next, s, (a + k - next.len()) as nat),
{
    lemma_iterate_compose(next, s, a, k);
    if a + k >= next.len() {
        let r = (a + k - next.len()) as nat;
        lemma_hamiltonian_periodic(next, s, r);
        assert(next.len() + r == a + k);
    }
}

/// A successor function with a Hamiltonian walk has no short cycle.
pub proof fn lemma_hamiltonian_no_short_cycle(next: Successors, s: int)
    requires
        hamiltonian_from(next, s),
    ensures
        !has_short_cycle(next),
{
    let n = next.len();
    if has_short_cycle(next) {
        let (u, k) = choose|u: int, k: nat| 0 <= u < n && 1 <= k < n && #[trigger] iterate(next, u, k) == Some(u);
        lemma_hamiltonian_covers(next, s, u);
        let a = choose|a: nat| a < n && #[trigger] iterate(next, s, a) == Some(u);
        lemma_hamiltonian_shift(next, s, a, k);
        if a + k < n {
            assert(iterate(next, s, a) != iterate(next, s, a + k));
        } else {
            let r = (a + k - n) as nat;
            assert(r < a);
            assert(iterate(next, s, r) != iterate(next, s, a));
        }
    }
}

/// Along a Hamiltonian walk, every node reaches every node in fewer than
/// `next.len()` steps, and a walk from `u` of fewer steps does not come back to `u`.
pub proof fn lemma_hamiltonian_reaches(next: Successors, s: int, u: int, v: int)
    requires
        hamiltonian_from(next, s),
        0 <= u < next.len(),
        0 <= v < next.len(),
    ensures
        exists|k: nat| k < next.len() && #[trigger] iterate(next, u, k) == Some(v),
        forall|j: nat| 1 <= j < next.len() ==> #[trigger] iterate(next, u, j) != Some(u),
        forall|j: nat| j < next.len() ==> (#[trigger] iterate(next, u, j)) is Some,
{
    let n = next.len();
    lemma_hamiltonian_covers(next, s, u);
    lemma_hamiltonian_covers(next, s, v);
    let a = choose|a: nat| a < n && #[trigger] iterate(next, s, a) == Some(u);
    let b = choose|b: nat| b < n && #[trigger] iterate(next, s, b) == Some(v);
    let k: nat = if b >= a { (b - a) as nat } else { (b + n - a) as nat };
    lemma_hamiltonian_shift(next, s, a, k);
    if b >= a {
        assert(iterate(next, u, k) == iterate(next, s, b));
    } else {
        assert(iterate(next, u, k) == iterate(next, s, b));
    }
    lemma_hamiltonian_no_short_cycle(next, s);
    assert forall|j: nat| 1 <= j < n implies #[trigger] iterate(next, u, j) != Some(u) by {
        if iterate(next, u, j) == Some(u) {
            assert(has_short_cycle(next));
        }
    }
    assert forall|j: nat| j < n implies (#[trigger] iterate(next, u, j)) is Some by {
        lemma_hamiltonian_shift(next, s, a, j);
        if a + j >= n {
            assert(iterate(next, s, (a + j - n) as nat) is Some);
        } else {
            assert(iterate(next, s, a + j) is Some);
        }
    }
}

/// Whether the `j`-th step of the walk from `u` is an edge of `g`.
pub open spec fn walk_step_in(next: Successors, g: Graph, u: int, j: nat) -> bool {
    has_edge(g, iterate(next, u, j)->0, iterate(next, u, j + 1)->0)
}

/// A walk whose every step is an edge of `g` is a path of `g`.
pub proof fn lemma_iterate_reachable(next: Successors, g: Graph, u: int, k: nat)
    requires
        0 <= u < g.len(),
        forall|j: nat| j <= k ==> (#[trigger] iterate(next, u, j)) is Some,
        forall|j: nat| j < k ==> #[trigger] walk_step_in(next, g, u, j),
    ensures
        reachable(g, u, iterate(next, u, k)->0),
{
    let p = Seq::new(k + 1, |i: int| iterate(next, u, i as nat)->0);
    assert forall|i: int| 0 <= i < p.len() - 1 implies #[trigger] path_step(g, p, i) by {
        assert(walk_step_in(next, g, u, i as nat));
        assert((i + 1) as nat == i as nat + 1);
    }
    assert forall|i: int| 0 <= i < p.len() implies crate::graph::is_node(g, #[trigger] p[i]) by {
        if i < p.len() - 1 {
            assert(path_step(g, p, i));
        } else if i > 0 {
            assert(path_step(g, p, i - 1));
        }
    }
    assert(is_path(g, p));
    assert(p[0] == u);
}

/// A walk that returns to its start never stops.
pub proof fn lemma_cycle_never_stops(next: Successors, u: int, k: nat, i: nat)
    requires
        k >= 1,
        iterate(next, u, k) == Some(u),
    ensures
        iterate(next, u, i) is Some,
    decreases i,
{
    if i < k {
        lemma_iterate_some_prefix(next, u, i, k);
    } else {
        lemma_cycle_never_stops(next, u, k, (i - k) as nat);
        lemma_iterate_compose(next, u, k, (i - k) as nat);
        assert(k + (i - k) as nat == i);
    }
}

/// The first `m` nodes of the walk from `s`.
pub open spec fn walk_nodes(next: Successors, s: int, m: nat) -> Seq<usize> {
    Seq::new(m, |i: int| iterate(next, s, i as nat)->0 as usize)
}

/// The walk from `s` stops before it has taken `next.len()` steps.
pub open spec fn stops(next: Successors, s: int) -> bool {
    iterate(next, s, next.len()) is None
}

/// After `m` steps, the walk from `s` first comes back to a node it visited.
pub open spec fn first_repeat(next: Successors, s: int, m: nat) -> bool {
    &&& 1 <= m
    &&& forall|i: nat| i <= m ==> (#[trigger] iterate(next, s, i)) is Some
    &&& forall|i: nat, j: nat| i < j < m ==> #[trigger] iterate(next, s, i) != #[trigger] iterate(next, s, j)
    &&& exists|j: nat| j < m && #[trigger] iterate(next, s, j) == iterate(next, s, m)
}

/// A sequence of distinct integers in `0..n` has at most `n` entries.
pub proof fn lemma_distinct_int_len_bound(t: Seq<int>, n: int)
    requires
        n >= 0,
        t.no_duplicates(),
        forall|i: int| 0 <= i < t.len() ==> 0 <= #[trigger] t[i] < n,
    ensures
        t.len() <= n,
{
    t.unique_seq_to_set();
    vstd::set_lib::lemma_int_range(0, n);
    assert(t.to_set().subset_of(vstd::set_lib::set_int_range(0, n))) by {
        assert forall|x: int| t.to_set().contains(x) implies vstd::set_lib::set_int_range(0, n).contains(x) by {
            let i = choose|i: int| 0 <= i < t.len() && t[i] == x;
            assert(0 <= t[i] < n);
        }
    }
    vstd::set_lib::lemma_len_subset(t.to_set(), vstd::set_lib::set_int_range(0, n));
}

/// A sequence of distinct values below `n` has at most `n` entries.
pub proof fn lemma_distinct_len_bound(s: Seq<usize>, n: int)
    requires
        n >= 0,
        s.no_duplicates(),
        forall|i: int| 0 <= i < s.len() ==> (#[trigger] s[i] as int) < n,
    ensures
        s.len() <= n,
{
    let t = Seq::new(s.len(), |i: int| s[i] as int);
    assert(t.no_duplicates()) by {
        assert forall|i: int, j: int| 0 <= i < t.len() && 0 <= j < t.len() && i != j implies t[i] != t[j] by {
            assert(s[i] != s[j]);
        }
    }
    t.unique_seq_to_set();
    vstd::set_lib::lemma_int_range(0, n);
    assert(t.to_set().subset_of(vstd::set_lib::set_int_range(0, n))) by {
        assert forall|x: int| t.to_set().contains(x) implies vstd::set_lib::set_int_range(0, n).contains(x) by {
            let i = choose|i: int| 0 <= i < t.len() && t[i] == x;
            assert((s[i] as int) < n);
        }
    }
    vstd::set_lib::lemma_len_subset(t.to_set(), vstd::set_lib::set_int_range(0, n));
}

/// After `j` steps, the walk from `s` is back at a node of its first `j` steps.
pub open spec fn repeats(next: Successors, s: int, j: nat) -> bool {
    exists|a: nat| a < j && #[trigger] iterate(next, s, a) == iterate(next, s, j)
}

/// Where a chain of assigned edges from `s` ends: after `len` steps the walk
/// either meets a node without successor, or (from the second step on) comes
/// back to a node of the chain; before that it did not come back (from the
/// second step on).
pub open spec fn chain_stop(next: Successors, s: int, len: nat) -> bool {
    &&& 1 <= len
    &&& forall|i: nat| i <= len ==> (#[trigger] iterate(next, s, i)) is Some
    &&& forall|j: nat| 2 <= j < len ==> !#[trigger] repeats(next, s, j)
    &&& {
        ||| len >= 2 && repeats(next, s, len)
        ||| step(next, iterate(next, s, len)->0) is None && (len >= 2 ==> !repeats(next, s, len))
    }
}

/// Whether every node has a successor, and it is a node.
pub open spec fn total(next: Successors) -> bool {
    forall|u: int| 0 <= u < next.len() ==> (#[trigger] next[u]) is Some && 0 <= next[u]->0 < next.len()
}

/// Along a total successor function, every walk goes on and stays on nodes.
pub proof fn lemma_total_iterate(next: Successors, s: int, k: nat)
    requires
        total(next),
        0 <= s < next.len(),
    ensures
        iterate(next, s, k) is Some,
        0 <= iterate(next, s, k)->0 < next.len(),
    decreases k,
{
    if k > 0 {
        lemma_total_iterate(next, s, (k - 1) as nat);
    }
}

/// A total successor function without short cycles walks through all nodes
/// from node 0 and back.
pub proof fn lemma_total_hamiltonian(next: Successors)
    requires
        next.len() >= 1,
        total(next),
        !has_short_cycle(next),
    ensures
        hamiltonian_from(next, 0),
{
    let n = next.len();
    assert forall|i: nat| i <= n implies (#[trigger] iterate(next, 0, i)) is Some && 0 <= iterate(next, 0, i)->0 < n by {
        lemma_total_iterate(next, 0, i);
    }
    // Two visits of the same node, other than the first and the n-th step, make a short cycle.
    assert forall|a: nat, b: nat| a < b <= n && !(a == 0 && b == n) implies #[trigger] iterate(next, 0, a) != #[trigger] iterate(next, 0, b) by {
        if iterate(next, 0, a) == iterate(next, 0, b) {
            let w = iterate(next, 0, a)->0;
            lemma_iterate_compose(next, 0, a, (b - a) as nat);
            assert(a + (b - a) as nat == b);
            assert(iterate(next, w, (b - a) as nat) == Some(w));
            assert(has_short_cycle(next));
        }
    }
    // Pigeonhole: the n + 1 first nodes of the walk cannot all differ.
    if iterate(next, 0, n) != Some(0int) {
        let t = Seq::new(n + 1, |i: int| iterate(next, 0, i as nat)->0);
        assert(t.no_duplicates()) by {
            assert forall|i: int, j: int| 0 <= i < t.len() && 0 <= j < t.len() && i != j implies t[i] != t[j] by {
                assert(t.len() == n + 1);
                let oi = iterate(next, 0, i as nat);
                let oj = iterate(next, 0, j as nat);
                assert(oi is Some && 0 <= oi->0 < n);
                assert(oj is Some && 0 <= oj->0 < n);
                assert(t[i] == oi->0);
                assert(t[j] == oj->0);
                if i < j {
                    if i == 0 && j == n {
                        assert(oi == Some(0int));
                    } else {
                        assert(oi != oj);
                    }
                } else {
                    if j == 0 && i == n {
                        assert(oj == Some(0int));
                    } else {
                        assert(oj != oi);
                    }
                }
            }
        }
        assert forall|i: int| 0 <= i < t.len() implies 0 <= #[trigger] t[i] < n by {
            assert(iterate(next, 0, i as nat) is Some);
        }
        lemma_distinct_int_len_bound(t, n as int);
    }
}

/// A walk that ends after `len` steps at a node without successor never
/// comes back to a node it visited, so it is a chain that stops exactly
/// there.
pub proof fn lemma_stopped_walk_is_chain(next: Successors, s: int, len: nat)
    requires
        1 <= len,
        iterate(next, s, len) is Some,
        step(next, iterate(next, s, len)->0) is None,
    ensures
        chain_stop(next, s, len),
        forall|j: nat| j <= len ==> !#[trigger] repeats(next, s, j),
        forall|len2: nat| #[trigger] chain_stop(next, s, len2) ==> len2 == len,
{
    assert(iterate(next, s, len + 1) is None);
    assert forall|i: nat| i <= len implies (#[trigger] iterate(next, s, i)) is Some by {
        if iterate(next, s, i) is None {
            lemma_iterate_none_stays(next, s, i, len);
        }
    }
    assert forall|j: nat| j <= len implies !#[trigger] repeats(next, s, j) by {
        if repeats(next, s, j) {
            let a = choose|a: nat| a < j && #[trigger] iterate(next, s, a) == iterate(next, s, j);
            let k = (len + 1 - j) as nat;
            lemma_iterate_compose(next, s, j, k);
            lemma_iterate_compose(next, s, a, k);
            assert(iterate(next, s, a + k) is Some);
        }
    }
    assert forall|len2: nat| #[trigger] chain_stop(next, s, len2) implies len2 == len by {
        if len2 < len {
            if len2 >= 2 && repeats(next, s, len2) {
            } else {
                assert(iterate(next, s, len2 + 1) is None);
                assert(iterate(next, s, len2 + 1) is Some);
            }
        } else if len2 > len {
            assert(iterate(next, s, len + 1) is Some);
        }
    }
}

/// Where `next1` keeps every successor that `next0` has, a walk along
/// `next0` is also one along `next1`.
pub proof fn lemma_iterate_agree(next0: Successors, next1: Successors, s: int, len: nat)
    requires
        next0.len() == next1.len(),
        forall|w: int| 0 <= w < next0.len() && (#[trigger] next0[w]) is Some ==> next1[w] == next0[w],
        iterate(next0, s, len) is Some,
    ensures
        forall|i: nat| i <= len ==> #[trigger] iterate(next1, s, i) == iterate(next0, s, i),
    decreases len,
{
    if len > 0 {
        if iterate(next0, s, (len - 1) as nat) is None {
            lemma_iterate_none_stays(next0, s, (len - 1) as nat, len);
        }
        lemma_iterate_agree(next0, next1, s, (len - 1) as nat);
        let w = iterate(next0, s, (len - 1) as nat)->0;
        assert(iterate(next1, s, (len - 1) as nat) == Some(w));
        assert(step(next0, w) is Some);
        assert(0 <= w < next0.len() && next0[w] is Some);
        assert(step(next1, w) == step(next0, w));
        assert(iterate(next1, s, len) == iterate(next0, s, len));
    }
}

} // verus!

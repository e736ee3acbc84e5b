//! Depth-first searches over successor lists, proved to mark exactly the
//! reachable nodes.

use vstd::prelude::*;
use crate::graph::{
    Graph, count_false, lemma_count_false_update, lemma_reachable_refl, lemma_reachable_step,
    lemma_reachable_trans, reachable, has_edge, without_edge, forward_search_inv, backward_search_inv,
    lemma_forward_search_done, lemma_backward_search_done,
};

verus! {

/// The graph whose successors of `u` are the entries of `adj[u]` below `adj.len()`.
pub open spec fn lists_graph(adj: Seq<Vec<usize>>) -> Graph {
    Seq::new(adj.len(), |u: int| Set::new(|v: int| 0 <= v < adj.len() && adj[u]@.contains(v as usize)))
}

/// A vector of `n` times `false`.
pub fn all_false(n: usize) -> (v: Vec<bool>)
    ensures
        v@.len() == n,
        forall|i: int| 0 <= i < n ==> !#[trigger] v@[i],
{
    let mut v: Vec<bool> = Vec::new();
    let mut k: usize = 0;
    while k < n
        invariant
            k <= n,
            v@.len() == k,
            forall|i: int| 0 <= i < k ==> !#[trigger] v@[i],
        decreases n - k,
    {
        v.push(false);
        k = k + 1;
    }
    v
}

/// Whether some entry of `v` is `false`.
pub fn any_false(v: &Vec<bool>) -> (b: bool)
    ensures
        b == exists|i: int| 0 <= i < v@.len() && !#[trigger] v@[i],
{
    let mut k: usize = 0;
    while k < v.len()
        invariant
            k <= v@.len(),
            forall|i: int| 0 <= i < k ==> #[trigger] v@[i],
        decreases v@.len() - k,
    {
        if !v[k] {
            return true;
        }
        k = k + 1;
    }
    false
}

/// The stack after popping its top still holds every other value it held.
proof fn lemma_pop_contains(stack: Seq<usize>, x: usize)
    requires
        stack.len() >= 1,
        stack.contains(x),
        stack.last() != x,
    ensures
        stack.drop_last().contains(x),
{
    let j = choose|j: int| 0 <= j < stack.len() && stack[j] == x;
    assert(stack.drop_last()[j] == x);
}

/// Marks, in `visited`, every node that `start` reaches in the graph of `adj`,
/// searching depth first; nodes already marked are not searched through.
/// Starting from no marks, the marks are exactly the nodes that `start` reaches.
pub fn search_forward(adj: &Vec<Vec<usize>>, start: usize, visited: &mut Vec<bool>)
    requires
        start < adj@.len(),
        old(visited)@.len() == adj@.len(),
        forall|i: int| 0 <= i < adj@.len() ==> !#[trigger] old(visited)@[i],
    ensures
        final(visited)@.len() == adj@.len(),
        forall|v: int|
            0 <= v < adj@.len() ==> (final(visited)@[v] <==> #[trigger] reachable(
                lists_graph(adj@),
                start as int,
                v,
            )),
{
    let ghost g = lists_graph(adj@);
    let n = adj.len();
    let mut stack: Vec<usize> = Vec::new();
    stack.push(start);
    proof {
        lemma_reachable_refl(g, start as int);
        assert(stack@[0] == start);
    }
    while stack.len() > 0
        invariant
            n == adj@.len(),
            g == lists_graph(adj@),
            forward_search_inv(g, start as int, visited@, stack@),
        decreases count_false(visited@), stack@.len(),
    {
        let ghost old_stack = stack@;
        let node_index = stack.pop().unwrap();
        proof {
            assert(stack@ == old_stack.drop_last());
            assert(old_stack[old_stack.len() - 1] == node_index);
            assert forall|x: usize| old_stack.contains(x) && x != node_index implies stack@.contains(x) by {
                lemma_pop_contains(old_stack, x);
            }
        }
        if visited[node_index] {
            continue;
        }
        let ghost before = visited@;
        visited.set(node_index, true);
        proof {
            lemma_count_false_update(before, node_index as int);
        }
        let succ = &adj[node_index];
        let mut k: usize = 0;
        while k < succ.len()
            invariant
                n == adj@.len(),
                g == lists_graph(adj@),
                node_index < n,
                succ@ == adj@[node_index as int]@,
                k <= succ@.len(),
                visited@.len() == n,
                visited@[node_index as int],
                reachable(g, start as int, node_index as int),
                count_false(visited@) < count_false(before),
                forall|i: int| 0 <= i < stack@.len() ==> (#[trigger] stack@[i] as int) < g.len() && reachable(g, start as int, stack@[i] as int),
                forall|v: int| 0 <= v < g.len() && #[trigger] visited@[v] ==> reachable(g, start as int, v),
                visited@[start as int] || stack@.contains(start),
                forall|u: int, v: int|
                    0 <= u < g.len() && u != node_index && #[trigger] visited@[u] && #[trigger] has_edge(g, u, v) ==> visited@[v] || stack@.contains(v as usize),
                forall|j: int|
                    0 <= j < k && (#[trigger] succ@[j] as int) < n ==> visited@[succ@[j] as int] || stack@.contains(succ@[j]),
            decreases succ@.len() - k,
        {
            let next = succ[k];
            if next < n && !visited[next] {
                let ghost s0 = stack@;
                proof {
                    assert(succ@.contains(next));
                    assert(has_edge(g, node_index as int, next as int));
                    lemma_reachable_step(g, start as int, node_index as int, next as int);
                }
                stack.push(next);
                proof {
                    vstd::seq_lib::lemma_seq_contains_after_push(s0, next, next);
                    assert forall|x: usize| s0.contains(x) implies stack@.contains(x) by {
                        let j = choose|j: int| 0 <= j < s0.len() && s0[j] == x;
                        assert(stack@[j] == x);
                    }
                    assert(stack@[s0.len() as int] == next);
                }
            }
            k = k + 1;
        }
        proof {
            assert forall|u: int, v: int|
                0 <= u < g.len() && #[trigger] visited@[u] && #[trigger] has_edge(g, u, v) implies visited@[v] || stack@.contains(v as usize) by {
                if u == node_index {
                    assert(adj@[u]@.contains(v as usize));
                    let j = choose|j: int| 0 <= j < succ@.len() && succ@[j] == v as usize;
                    assert((succ@[j] as int) < n);
                }
            }
        }
    }
    proof {
        assert(stack@ == Seq::<usize>::empty());
        lemma_forward_search_done(g, start as int, visited@);
    }
}

/// Marks, in `visited`, every node that reaches `start` in the graph of `adj`,
/// searching depth first along reversed edges. Starting from no marks, the
/// marks are exactly the nodes that reach `start`.
pub fn search_backward(adj: &Vec<Vec<usize>>, start: usize, visited: &mut Vec<bool>)
    requires
        start < adj@.len(),
        old(visited)@.len() == adj@.len(),
        forall|i: int| 0 <= i < adj@.len() ==> !#[trigger] old(visited)@[i],
    ensures
        final(visited)@.len() == adj@.len(),
        forall|v: int|
            0 <= v < adj@.len() ==> (final(visited)@[v] <==> #[trigger] reachable(
                lists_graph(adj@),
                v,
                start as int,
            )),
{
    let ghost g = lists_graph(adj@);
    let n = adj.len();
    let mut stack: Vec<usize> = Vec::new();
    stack.push(start);
    proof {
        lemma_reachable_refl(g, start as int);
        assert(stack@[0] == start);
    }
    while stack.len() > 0
        invariant
            n == adj@.len(),
            g == lists_graph(adj@),
            backward_search_inv(g, start as int, visited@, stack@),
        decreases count_false(visited@), stack@.len(),
    {
        let ghost old_stack = stack@;
        let node_index = stack.pop().unwrap();
        proof {
            assert(stack@ == old_stack.drop_last());
            assert(old_stack[old_stack.len() - 1] == node_index);
            assert forall|x: usize| old_stack.contains(x) && x != node_index implies stack@.contains(x) by {
                lemma_pop_contains(old_stack, x);
            }
        }
        if visited[node_index] {
            continue;
        }
        let ghost before = visited@;
        visited.set(node_index, true);
        proof {
            lemma_count_false_update(before, node_index as int);
        }
        let mut i: usize = 0;
        while i < n
            invariant
                n == adj@.len(),
                g == lists_graph(adj@),
                node_index < n,
                i <= n,
                visited@.len() == n,
                visited@[node_index as int],
                reachable(g, node_index as int, start as int),
                count_false(visited@) < count_false(before),
                forall|j: int| 0 <= j < stack@.len() ==> (#[trigger] stack@[j] as int) < g.len() && reachable(g, stack@[j] as int, start as int),
                forall|v: int| 0 <= v < g.len() && #[trigger] visited@[v] ==> reachable(g, v, start as int),
                visited@[start as int] || stack@.contains(start),
                forall|u: int, v: int|
                    0 <= v < g.len() && v != node_index && #[trigger] visited@[v] && #[trigger] has_edge(g, u, v) ==> visited@[u] || stack@.contains(u as usize),
                forall|u: int|
                    0 <= u < i && #[trigger] has_edge(g, u, node_index as int) ==> visited@[u] || stack@.contains(u as usize),
            decreases n - i,
        {
            let succ = &adj[i];
            let mut k: usize = 0;
            let ghost s_start = stack@;
            while k < succ.len()
                invariant
                    n == adj@.len(),
                    g == lists_graph(adj@),
                    node_index < n,
                    i < n,
                    succ@ == adj@[i as int]@,
                    k <= succ@.len(),
                    visited@.len() == n,
                    visited@[node_index as int],
                    reachable(g, node_index as int, start as int),
                    count_false(visited@) < count_false(before),
                    forall|j: int| 0 <= j < stack@.len() ==> (#[trigger] stack@[j] as int) < g.len() && reachable(g, stack@[j] as int, start as int),
                    forall|v: int| 0 <= v < g.len() && #[trigger] visited@[v] ==> reachable(g, v, start as int),
                    visited@[start as int] || stack@.contains(start),
                    forall|u: int, v: int|
                        0 <= v < g.len() && v != node_index && #[trigger] visited@[v] && #[trigger] has_edge(g, u, v) ==> visited@[u] || stack@.contains(u as usize),
                    forall|u: int|
                        0 <= u < i && #[trigger] has_edge(g, u, node_index as int) ==> visited@[u] || stack@.contains(u as usize),
                    forall|x: usize| s_start.contains(x) ==> stack@.contains(x),
                    (exists|j: int| 0 <= j < k && succ@[j] == node_index) ==> visited@[i as int] || stack@.contains(i),
                decreases succ@.len() - k,
            {
                if succ[k] == node_index && !visited[i] {
                    let ghost s0 = stack@;
                    proof {
                        assert(succ@.contains(node_index));
                        assert(has_edge(g, i as int, node_index as int));
                        assert(reachable(g, i as int, node_index as int)) by {
                            lemma_reachable_refl(g, i as int);
                            lemma_reachable_step(g, i as int, i as int, node_index as int);
                        }
                        lemma_reachable_trans(g, i as int, node_index as int, start as int);
                    }
                    stack.push(i);
                    proof {
                        assert forall|x: usize| s0.contains(x) implies stack@.contains(x) by {
                            let j = choose|j: int| 0 <= j < s0.len() && s0[j] == x;
                            assert(stack@[j] == x);
                        }
                        assert(stack@[s0.len() as int] == i);
                    }
                }
                proof {
                    if exists|j: int| 0 <= j < k + 1 && succ@[j] == node_index {
                        let j = choose|j: int| 0 <= j < k + 1 && succ@[j] == node_index;
                        if j < k {
                        }
                    }
                }
                k = k + 1;
            }
            proof {
                assert forall|u: int|
                    0 <= u < i + 1 && #[trigger] has_edge(g, u, node_index as int) implies visited@[u] || stack@.contains(u as usize) by {
                    if u == i {
                        assert(adj@[u]@.contains(node_index));
                        let j = choose|j: int| 0 <= j < succ@.len() && succ@[j] == node_index;
                    }
                }
            }
            i = i + 1;
        }
    }
    proof {
        assert(stack@ == Seq::<usize>::empty());
        lemma_backward_search_done(g, start as int, visited@);
    }
}

/// Searches depth first from `start` for `target` in the graph of `adj`
/// without its edge `start -> target`. Returns whether `target` was found, and
/// the nodes marked by then; where it was not found, they are exactly the
/// nodes that `start` reaches in that graph.
pub fn search_avoiding_edge(adj: &Vec<Vec<usize>>, start: usize, target: usize) -> (r: (bool, Vec<bool>))
    requires
        start < adj@.len(),
        target < adj@.len(),
    ensures
        r.1@.len() == adj@.len(),
        r.0 == reachable(without_edge(lists_graph(adj@), start as int, target as int), start as int, target as int),
        r.0 ==> r.1@[target as int],
        forall|v: int| 0 <= v < adj@.len() && #[trigger] r.1@[v] ==> reachable(without_edge(lists_graph(adj@), start as int, target as int), start as int, v),
        !r.0 ==> forall|v: int|
            0 <= v < adj@.len() ==> (r.1@[v] <==> #[trigger] reachable(without_edge(lists_graph(adj@), start as int, target as int), start as int, v)),
{
    let ghost g = without_edge(lists_graph(adj@), start as int, target as int);
    let n = adj.len();
    let mut visited = all_false(n);
    let mut stack: Vec<usize> = Vec::new();
    stack.push(start);
    proof {
        lemma_reachable_refl(g, start as int);
        assert(stack@[0] == start);
    }
    while stack.len() > 0
        invariant
            n == adj@.len(),
            g == without_edge(lists_graph(adj@), start as int, target as int),
            g.len() == n,
            target < n,
            !visited@[target as int],
            forward_search_inv(g, start as int, visited@, stack@),
        decreases count_false(visited@), stack@.len(),
    {
        let ghost old_stack = stack@;
        let current = stack.pop().unwrap();
        proof {
            assert(stack@ == old_stack.drop_last());
            assert(old_stack[old_stack.len() - 1] == current);
            assert forall|x: usize| old_stack.contains(x) && x != current implies stack@.contains(x) by {
                lemma_pop_contains(old_stack, x);
            }
        }
        if visited[current] {
            continue;
        }
        let ghost before = visited@;
        visited.set(current, true);
        proof {
            lemma_count_false_update(before, current as int);
        }
        if current == target {
            return (true, visited);
        }
        let succ = &adj[current];
        let mut k: usize = 0;
        while k < succ.len()
            invariant
                n == adj@.len(),
                g == without_edge(lists_graph(adj@), start as int, target as int),
                g.len() == n,
                current < n,
                target < n,
                current != target,
                !visited@[target as int],
                succ@ == adj@[current as int]@,
                k <= succ@.len(),
                visited@.len() == n,
                visited@[current as int],
                reachable(g, start as int, current as int),
                count_false(visited@) < count_false(before),
                forall|i: int| 0 <= i < stack@.len() ==> (#[trigger] stack@[i] as int) < g.len() && reachable(g, start as int, stack@[i] as int),
                forall|v: int| 0 <= v < g.len() && #[trigger] visited@[v] ==> reachable(g, start as int, v),
                visited@[start as int] || stack@.contains(start),
                forall|u: int, v: int|
                    0 <= u < g.len() && u != current && #[trigger] visited@[u] && #[trigger] has_edge(g, u, v) ==> visited@[v] || stack@.contains(v as usize),
                forall|j: int|
                    0 <= j < k && (#[trigger] succ@[j] as int) < n && !(current == start && succ@[j] == target) ==> visited@[succ@[j] as int] || stack@.contains(succ@[j]),
            decreases succ@.len() - k,
        {
            let next = succ[k];
            if current == start && next == target {
            } else if next < n && !visited[next] {
                let ghost s0 = stack@;
                proof {
                    assert(succ@.contains(next));
                    assert(lists_graph(adj@)[current as int].contains(next as int));
                    if current == start {
                        assert(g[current as int] == lists_graph(adj@)[current as int].remove(target as int));
                    } else {
                        assert(g[current as int] == lists_graph(adj@)[current as int]);
                    }
                    assert(has_edge(g, current as int, next as int));
                    lemma_reachable_step(g, start as int, current as int, next as int);
                }
                stack.push(next);
                proof {
                    assert forall|x: usize| s0.contains(x) implies stack@.contains(x) by {
                        let j = choose|j: int| 0 <= j < s0.len() && s0[j] == x;
                        assert(stack@[j] == x);
                    }
                    assert(stack@[s0.len() as int] == next);
                }
            }
            k = k + 1;
        }
        proof {
            assert forall|u: int, v: int|
                0 <= u < g.len() && #[trigger] visited@[u] && #[trigger] has_edge(g, u, v) implies visited@[v] || stack@.contains(v as usize) by {
                if u == current {
                    if current == start {
                        assert(g[u] == lists_graph(adj@)[u].remove(target as int));
                    } else {
                        assert(g[u] == lists_graph(adj@)[u]);
                    }
                    assert(lists_graph(adj@)[u].contains(v));
                    assert(adj@[u]@.contains(v as usize));
                    let j = choose|j: int| 0 <= j < succ@.len() && succ@[j] == v as usize;
                    assert((succ@[j] as int) < n);
                }
            }
        }
    }
    proof {
        assert(stack@ == Seq::<usize>::empty());
        lemma_forward_search_done(g, start as int, visited@);
    }
    (false, visited)
}

} // verus!

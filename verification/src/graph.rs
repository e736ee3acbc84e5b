//! Directed graphs over nodes `0..n` as sequences of successor sets, with
//! paths, reachability and strong connectivity.

use vstd::prelude::*;

verus! {

/// A directed graph on the nodes `0..g.len()`: `g[u]` holds the successors of `u`.
pub type Graph = Seq<Set<int>>;

/// Whether `v` is a node of `g`.
pub open spec fn is_node(g: Graph, v: int) -> bool {
    0 <= v < g.len()
}

/// Whether `g` has the edge `u -> v`.
pub open spec fn has_edge(g: Graph, u: int, v: int) -> bool {
    is_node(g, u) && is_node(g, v) && g[u].contains(v)
}

/// Whether the `i`-th step of `p` is an edge of `g`.
pub open spec fn path_step(g: Graph, p: Seq<int>, i: int) -> bool {
    has_edge(g, p[i], p[i + 1])
}

/// Whether `p` is a (non-empty) walk in `g`.
pub open spec fn is_path(g: Graph, p: Seq<int>) -> bool {
    &&& p.len() >= 1
    &&& forall|i: int| 0 <= i < p.len() ==> is_node(g, #[trigger] p[i])
    &&& forall|i: int| 0 <= i < p.len() - 1 ==> #[trigger] path_step(g, p, i)
}

/// Whether a walk in `g` leads from `s` to `t`.
pub open spec fn reachable(g: Graph, s: int, t: int) -> bool {
    exists|p: Seq<int>| #[trigger] is_path(g, p) && p[0] == s && p.last() == t
}

/// Whether every node reaches node 0 and is reached from it (so every node
/// reaches every other).
pub open spec fn strongly_connected(g: Graph) -> bool {
    forall|v: int| 0 <= v < g.len() ==> #[trigger] reachable(g, 0, v) && reachable(g, v, 0)
}

/// `g` without the edge `a -> b`.
pub open spec fn without_edge(g: Graph, a: int, b: int) -> Graph {
    g.update(a, g[a].remove(b))
}

/// The number of entries of `s` that are `false`.
pub open spec fn count_false(s: Seq<bool>) -> nat
    decreases s.len(),
{
    if s.len() == 0 {
        0
    } else {
        count_false(s.drop_last()) + if s.last() {
            0nat
        } else {
            1nat
        }
    }
}

/// Setting a `false` entry to `true` lowers the count of `false` entries by one.
pub proof fn lemma_count_false_update(s: Seq<bool>, i: int)
    requires
        0 <= i < s.len(),
        !s[i],
    ensures
        count_false(s.update(i, true)) + 1 == count_false(s),
    decreases s.len(),
{
    let t = s.update(i, true);
    if i == s.len() - 1 {
        assert(t.drop_last() =~= s.drop_last());
    } else {
        assert(t.drop_last() =~= s.drop_last().update(i, true));
        lemma_count_false_update(s.drop_last(), i);
    }
}

/// Every node reaches itself.
pub proof fn lemma_reachable_refl(g: Graph, s: int)
    requires
        is_node(g, s),
    ensures
        reachable(g, s, s),
{
    let p = seq![s];
    assert(is_path(g, p));
}

/// Reachability extends along an edge.
pub proof fn lemma_reachable_step(g: Graph, s: int, u: int, v: int)
    requires
        reachable(g, s, u),
        has_edge(g, u, v),
    ensures
        reachable(g, s, v),
{
    let p = choose|p: Seq<int>| #[trigger] is_path(g, p) && p[0] == s && p.last() == u;
    let q = p.push(v);
    assert forall|i: int| 0 <= i < q.len() - 1 implies #[trigger] path_step(g, q, i) by {
        if i < p.len() - 1 {
            assert(path_step(g, p, i));
        }
    }
    assert forall|i: int| 0 <= i < q.len() implies is_node(g, #[trigger] q[i]) by {
        if i < p.len() {
            assert(is_node(g, p[i]));
        }
    }
    assert(is_path(g, q));
}

/// Reachability is transitive.
pub proof fn lemma_reachable_trans(g: Graph, s: int, u: int, t: int)
    requires
        reachable(g, s, u),
        reachable(g, u, t),
    ensures
        reachable(g, s, t),
{
    let p = choose|p: Seq<int>| #[trigger] is_path(g, p) && p[0] == s && p.last() == u;
    let q = choose|q: Seq<int>| #[trigger] is_path(g, q) && q[0] == u && q.last() == t;
    let r = p + q.drop_first();
    assert forall|i: int| 0 <= i < r.len() implies is_node(g, #[trigger] r[i]) by {
        if i < p.len() {
            assert(is_node(g, p[i]));
        } else {
            assert(r[i] == q[i - p.len() + 1]);
            assert(is_node(g, q[i - p.len() + 1]));
        }
    }
    assert forall|i: int| 0 <= i < r.len() - 1 implies #[trigger] path_step(g, r, i) by {
        if i < p.len() - 1 {
            assert(path_step(g, p, i));
        } else if i == p.len() - 1 {
            assert(path_step(g, q, 0));
            assert(r[i] == u);
            assert(r[i + 1] == q[1]);
        } else {
            let j = i - p.len() + 1;
            assert(path_step(g, q, j));
            assert(r[i] == q[j]);
            assert(r[i + 1] == q[j + 1]);
        }
    }
    assert(is_path(g, r));
    if q.len() == 1 {
        assert(r =~= p);
    }
}

/// Every node of a walk from a node of an edge-closed set lies in the set.
proof fn lemma_closed_forward_prefix(g: Graph, set: Set<int>, p: Seq<int>, k: int)
    requires
        is_path(g, p),
        0 <= k < p.len(),
        set.contains(p[0]),
        forall|u: int, v: int| #[trigger] set.contains(u) && has_edge(g, u, v) ==> #[trigger] set.contains(v),
    ensures
        set.contains(p[k]),
    decreases k,
{
    if k > 0 {
        lemma_closed_forward_prefix(g, set, p, k - 1);
        assert(path_step(g, p, k - 1));
    }
}

/// Every node of a walk into a predecessor-closed set lies in the set.
proof fn lemma_closed_backward_suffix(g: Graph, set: Set<int>, p: Seq<int>, k: int)
    requires
        is_path(g, p),
        0 <= k < p.len(),
        set.contains(p.last()),
        forall|u: int, v: int| #[trigger] set.contains(v) && has_edge(g, u, v) ==> #[trigger] set.contains(u),
    ensures
        set.contains(p[k]),
    decreases p.len() - k,
{
    if k < p.len() - 1 {
        lemma_closed_backward_suffix(g, set, p, k + 1);
        assert(path_step(g, p, k));
    }
}

/// A set of nodes that holds `s` and is closed under edges holds every node
/// that `s` reaches.
pub proof fn lemma_closed_forward(g: Graph, set: Set<int>, s: int, t: int)
    requires
        set.contains(s),
        forall|u: int, v: int| #[trigger] set.contains(u) && has_edge(g, u, v) ==> #[trigger] set.contains(v),
        reachable(g, s, t),
    ensures
        set.contains(t),
{
    let p = choose|p: Seq<int>| #[trigger] is_path(g, p) && p[0] == s && p.last() == t;
    lemma_closed_forward_prefix(g, set, p, p.len() - 1);
}

/// A set of nodes that holds `t` and is closed under predecessors holds every
/// node that reaches `t`.
pub proof fn lemma_closed_backward(g: Graph, set: Set<int>, s: int, t: int)
    requires
        set.contains(t),
        forall|u: int, v: int| #[trigger] set.contains(v) && has_edge(g, u, v) ==> #[trigger] set.contains(u),
        reachable(g, s, t),
    ensures
        set.contains(s),
{
    let p = choose|p: Seq<int>| #[trigger] is_path(g, p) && p[0] == s && p.last() == t;
    lemma_closed_backward_suffix(g, set, p, 0);
}

/// The set of nodes marked `true`.
pub open spec fn marked(visited: Seq<bool>) -> Set<int> {
    Set::new(|i: int| 0 <= i < visited.len() && visited[i])
}

/// What a depth-first search from `start` keeps true: all marked and stacked
/// nodes are reached from `start`, `start` is marked or stacked, and every edge
/// out of a marked node ends in a marked or stacked node.
pub open spec fn forward_search_inv(g: Graph, start: int, visited: Seq<bool>, stack: Seq<usize>) -> bool {
    &&& visited.len() == g.len()
    &&& is_node(g, start)
    &&& forall|i: int| 0 <= i < stack.len() ==> (#[trigger] stack[i] as int) < g.len() && reachable(g, start, stack[i] as int)
    &&& forall|v: int| 0 <= v < g.len() && #[trigger] visited[v] ==> reachable(g, start, v)
    &&& visited[start] || stack.contains(start as usize)
    &&& forall|u: int, v: int|
        0 <= u < g.len() && #[trigger] visited[u] && #[trigger] has_edge(g, u, v) ==> visited[v] || stack.contains(v as usize)
}

/// What a depth-first search along reversed edges towards `start` keeps true.
pub open spec fn backward_search_inv(g: Graph, start: int, visited: Seq<bool>, stack: Seq<usize>) -> bool {
    &&& visited.len() == g.len()
    &&& is_node(g, start)
    &&& forall|i: int| 0 <= i < stack.len() ==> (#[trigger] stack[i] as int) < g.len() && reachable(g, stack[i] as int, start)
    &&& forall|v: int| 0 <= v < g.len() && #[trigger] visited[v] ==> reachable(g, v, start)
    &&& visited[start] || stack.contains(start as usize)
    &&& forall|u: int, v: int|
        0 <= v < g.len() && #[trigger] visited[v] && #[trigger] has_edge(g, u, v) ==> visited[u] || stack.contains(u as usize)
}

/// When the stack of a forward search is empty, the marked nodes are exactly
/// those that `start` reaches.
pub proof fn lemma_forward_search_done(g: Graph, start: int, visited: Seq<bool>)
    requires
        forward_search_inv(g, start, visited, Seq::<usize>::empty()),
    ensures
        forall|v: int| 0 <= v < g.len() ==> (visited[v] <==> #[trigger] reachable(g, start, v)),
{
    let set = marked(visited);
    assert(set.contains(start));
    assert forall|u: int, v: int| #[trigger] set.contains(u) && has_edge(g, u, v) implies #[trigger] set.contains(v) by {
        assert(visited[u]);
    }
    assert forall|v: int| 0 <= v < g.len() implies (visited[v] <==> #[trigger] reachable(g, start, v)) by {
        if reachable(g, start, v) {
            lemma_closed_forward(g, set, start, v);
        }
    }
}

/// When the stack of a backward search is empty, the marked nodes are exactly
/// those that reach `start`.
pub proof fn lemma_backward_search_done(g: Graph, start: int, visited: Seq<bool>)
    requires
        backward_search_inv(g, start, visited, Seq::<usize>::empty()),
    ensures
        forall|v: int| 0 <= v < g.len() ==> (visited[v] <==> #[trigger] reachable(g, v, start)),
{
    let set = marked(visited);
    assert(set.contains(start));
    assert forall|u: int, v: int| #[trigger] set.contains(v) && has_edge(g, u, v) implies #[trigger] set.contains(u) by {
        assert(visited[v]);
    }
    assert forall|v: int| 0 <= v < g.len() implies (visited[v] <==> #[trigger] reachable(g, v, start)) by {
        if reachable(g, v, start) {
            lemma_closed_backward(g, set, v, start);
        }
    }
}

} // verus!

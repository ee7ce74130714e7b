//! Directed graphs over node indices: paths, reachability, cycles and
//! topological orders, with the lemmas that the sorting code relies on.
//!
//! A graph is a sequence of adjacency lists: `g[v]` lists the nodes that `v`
//! depends on.

use vstd::prelude::*;
use vstd::set_lib::{lemma_int_range, lemma_len_subset, set_int_range};

verus! {

/// Every adjacency entry is a node of the graph.
pub open spec fn well_formed_graph(g: Seq<Seq<int>>) -> bool {
    forall|v: int, e: int| 0 <= v < g.len() && 0 <= e < g[v].len() ==> 0 <= #[trigger] g[v][e] < g.len()
}

/// `p` is a path of `g`: each step goes from a node to one it depends on.
pub open spec fn is_path(g: Seq<Seq<int>>, p: Seq<int>) -> bool {
    &&& p.len() >= 1
    &&& forall|i: int| 0 <= i < p.len() ==> 0 <= #[trigger] p[i] < g.len()
    &&& forall|i: int| 0 <= i < p.len() - 1 ==> g[p[i]].contains(#[trigger] p[i + 1])
}

/// There is a path from `a` to `b`.
pub open spec fn reachable(g: Seq<Seq<int>>, a: int, b: int) -> bool {
    exists|p: Seq<int>| is_path(g, p) && p[0] == a && #[trigger] p.last() == b
}

/// Some path that starts at `a` visits a node twice: a cycle can be reached from `a`.
pub open spec fn has_cycle_from(g: Seq<Seq<int>>, a: int) -> bool {
    exists|p: Seq<int>, i: int, j: int|
        is_path(g, p) && p[0] == a && 0 <= i < j < p.len() && #[trigger] p[i] == #[trigger] p[j]
}

/// Some path of at least one step leads from `d` back to `d`.
pub open spec fn on_cycle(g: Seq<Seq<int>>, d: int) -> bool {
    exists|p: Seq<int>| is_path(g, p) && p.len() >= 2 && p[0] == d && #[trigger] p.last() == d
}

/// `order` lists each node reachable from `root` exactly once, and no node
/// depends on itself or on a node listed after it.
pub open spec fn is_topological_order(g: Seq<Seq<int>>, root: int, order: Seq<int>) -> bool {
    &&& order.no_duplicates()
    &&& forall|v: int| order.contains(v) <==> (0 <= v < g.len() && reachable(g, root, v))
    &&& forall|q1: int, q2: int|
        0 <= q1 <= q2 < order.len() ==> !g[#[trigger] order[q1]].contains(#[trigger] order[q2])
}

/// A single node is a path to itself.
pub proof fn lemma_reachable_self(g: Seq<Seq<int>>, a: int)
    requires
        0 <= a < g.len(),
    ensures
        reachable(g, a, a),
{
    let p = seq![a];
    assert(is_path(g, p));
    assert(p.last() == a);
}

/// A path extended by one dependency edge is a path.
pub proof fn lemma_reachable_step(g: Seq<Seq<int>>, a: int, b: int, c: int)
    requires
        well_formed_graph(g),
        reachable(g, a, b),
        0 <= b < g.len(),
        g[b].contains(c),
    ensures
        reachable(g, a, c),
{
    let p = choose|p: Seq<int>| is_path(g, p) && p[0] == a && #[trigger] p.last() == b;
    let e = choose|e: int| 0 <= e < g[b].len() && #[trigger] g[b][e] == c;
    let q = p.push(c);
    assert forall|i: int| 0 <= i < q.len() - 1 implies g[q[i]].contains(#[trigger] q[i + 1]) by {
        if i < p.len() - 1 {
            assert(q[i] == p[i] && q[i + 1] == p[i + 1]);
        } else {
            assert(q[i] == b && q[i + 1] == c);
        }
    }
    assert(q.last() == c);
    assert(is_path(g, q));
}

/// A set of nodes that holds `root` and is closed under dependencies holds every
/// node reachable from `root`.
pub proof fn lemma_closed_holds_reachable(g: Seq<Seq<int>>, root: int, s: Set<int>, v: int)
    requires
        s.contains(root),
        forall|x: int, e: int|
            s.contains(x) && 0 <= x < g.len() && 0 <= e < g[x].len() ==> s.contains(#[trigger] g[x][e]),
        reachable(g, root, v),
    ensures
        s.contains(v),
{
    let p = choose|p: Seq<int>| is_path(g, p) && p[0] == root && #[trigger] p.last() == v;
    assert forall|k: int| 0 <= k < p.len() implies s.contains(#[trigger] p[k]) by {
        lemma_path_prefix_in_closed(g, s, p, k);
    }
    assert(s.contains(p[p.len() - 1]));
}

proof fn lemma_path_prefix_in_closed(g: Seq<Seq<int>>, s: Set<int>, p: Seq<int>, k: int)
    requires
        is_path(g, p),
        s.contains(p[0]),
        forall|x: int, e: int|
            s.contains(x) && 0 <= x < g.len() && 0 <= e < g[x].len() ==> s.contains(#[trigger] g[x][e]),
        0 <= k < p.len(),
    ensures
        s.contains(p[k]),
    decreases k,
{
    if k > 0 {
        lemma_path_prefix_in_closed(g, s, p, k - 1);
        assert(g[p[k - 1]].contains(p[k - 1 + 1]));
        let e = choose|e: int| 0 <= e < g[p[k - 1]].len() && #[trigger] g[p[k - 1]][e] == p[k];
        assert(s.contains(g[p[k - 1]][e]));
    }
}

/// Along a path through listed nodes of a topological order, positions strictly decrease.
pub proof fn lemma_topological_positions_decrease(
    g: Seq<Seq<int>>,
    root: int,
    order: Seq<int>,
    p: Seq<int>,
    pos: Seq<int>,
    i: int,
    k: int,
)
    requires
        is_topological_order(g, root, order),
        is_path(g, p),
        pos.len() == p.len(),
        forall|m: int| 0 <= m < p.len() ==> 0 <= #[trigger] pos[m] < order.len() && order[pos[m]] == p[m],
        0 <= i <= k < p.len(),
    ensures
        pos[k] <= pos[i] - (k - i),
    decreases k - i,
{
    if k > i {
        lemma_topological_positions_decrease(g, root, order, p, pos, i, k - 1);
        assert(g[p[k - 1]].contains(p[k - 1 + 1]));
        if pos[k - 1] <= pos[k] {
            assert(order[pos[k - 1]] == p[k - 1]);
            assert(order[pos[k]] == p[k]);
            assert(!g[order[pos[k - 1]]].contains(order[pos[k]]));
        }
    }
}

/// No cycle can be reached from the root of a topological order.
pub proof fn lemma_topological_order_acyclic(g: Seq<Seq<int>>, root: int, order: Seq<int>)
    requires
        is_topological_order(g, root, order),
    ensures
        !has_cycle_from(g, root),
{
    if has_cycle_from(g, root) {
        let (p, i, j) = choose|p: Seq<int>, i: int, j: int|
            is_path(g, p) && p[0] == root && 0 <= i < j < p.len() && #[trigger] p[i]
                == #[trigger] p[j];
        assert forall|m: int| 0 <= m < p.len() implies order.contains(#[trigger] p[m]) by {
            let q = p.subrange(0, m + 1);
            assert(is_path(g, q)) by {
                assert forall|t: int| 0 <= t < q.len() - 1 implies g[q[t]].contains(
                    #[trigger] q[t + 1],
                ) by {
                    assert(q[t] == p[t] && q[t + 1] == p[t + 1]);
                }
            }
            assert(q.last() == p[m]);
        }
        let pos = Seq::new(p.len(), |m: int| order.index_of(p[m]));
        assert forall|m: int| 0 <= m < p.len() implies 0 <= #[trigger] pos[m] < order.len()
            && order[pos[m]] == p[m] by {
            assert(order.contains(p[m]));
        }
        lemma_topological_positions_decrease(g, root, order, p, pos, i, j);
        assert(pos[i] == pos[j]);
    }
}

/// A sequence of distinct nodes of a graph with `n` nodes has at most `n` elements.
pub proof fn lemma_distinct_nodes_bounded(s: Seq<int>, n: int)
    requires
        s.no_duplicates(),
        0 <= n,
        forall|i: int| 0 <= i < s.len() ==> 0 <= #[trigger] s[i] < n,
    ensures
        s.len() <= n,
{
    s.unique_seq_to_set();
    lemma_int_range(0, n);
    assert(s.to_set().subset_of(set_int_range(0, n)));
    lemma_len_subset(s.to_set(), set_int_range(0, n));
}

/// The root of a topological order is listed last.
pub proof fn lemma_topological_root_last(g: Seq<Seq<int>>, root: int, order: Seq<int>)
    requires
        is_topological_order(g, root, order),
        0 <= root < g.len(),
    ensures
        order.len() > 0,
        order.last() == root,
{
    lemma_reachable_self(g, root);
    assert(order.contains(root));
    let v = order.last();
    assert(order.contains(v));
    let p = choose|p: Seq<int>| is_path(g, p) && p[0] == root && #[trigger] p.last() == v;
    assert forall|m: int| 0 <= m < p.len() implies order.contains(#[trigger] p[m]) by {
        let q = p.subrange(0, m + 1);
        assert(is_path(g, q)) by {
            assert forall|t: int| 0 <= t < q.len() - 1 implies g[q[t]].contains(#[trigger] q[t + 1]) by {
                assert(q[t] == p[t] && q[t + 1] == p[t + 1]);
            }
        }
        assert(q.last() == p[m]);
    }
    let pos = Seq::new(p.len(), |m: int| order.index_of(p[m]));
    assert forall|m: int| 0 <= m < p.len() implies 0 <= #[trigger] pos[m] < order.len() && order[pos[m]]
        == p[m] by {
        assert(order.contains(p[m]));
    }
    lemma_topological_positions_decrease(g, root, order, p, pos, 0, p.len() - 1);
    assert(order[order.len() - 1] == v);
    assert(pos[p.len() - 1] == order.len() - 1);
    if root != v {
        assert(pos[0] >= order.len() - 1 + (p.len() - 1));
    }
}

/// Along a path of a graph whose every dependency has a smaller rank than the
/// node that depends on it, the ranks strictly decrease.
proof fn lemma_path_decreases(g: Seq<Seq<int>>, rank: spec_fn(int) -> int, p: Seq<int>, a: int, b: int)
    requires
        is_path(g, p),
        forall|v: int, e: int| 0 <= v < g.len() && 0 <= e < g[v].len() ==> rank(#[trigger] g[v][e]) < rank(v),
        0 <= a < b < p.len(),
    ensures
        rank(p[b]) < rank(p[a]),
    decreases b - a,
{
    let k = b - 1;
    assert(g[p[k]].contains(p[k + 1]));
    let e = choose|e: int| 0 <= e < g[p[k]].len() && g[p[k]][e] == p[k + 1];
    assert(rank(g[p[k]][e]) < rank(p[k]));
    if a < k {
        lemma_path_decreases(g, rank, p, a, k);
    }
}

/// A graph whose every dependency has a smaller rank than the node that
/// depends on it has no cycle.
pub proof fn lemma_ranked_acyclic(g: Seq<Seq<int>>, rank: spec_fn(int) -> int, root: int)
    requires
        forall|v: int, e: int| 0 <= v < g.len() && 0 <= e < g[v].len() ==> rank(#[trigger] g[v][e]) < rank(v),
    ensures
        !has_cycle_from(g, root),
{
    if has_cycle_from(g, root) {
        let (p, i, j) = choose|p: Seq<int>, i: int, j: int|
            is_path(g, p) && p[0] == root && 0 <= i < j < p.len() && #[trigger] p[i] == #[trigger] p[j];
        lemma_path_decreases(g, rank, p, i, j);
    }
}

} // verus!

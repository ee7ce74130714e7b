//! Renumbering is stable: a network renumbered in search order is renumbered
//! again into itself.

use vstd::prelude::*;

use crate::graph::{has_cycle_from, is_topological_order, reachable, well_formed_graph};
use crate::proto::{ProtoNetworkView, ProtoNodeView, node_refs, rename_refs, lemma_rename_refs};
use crate::reorder::{
    last_pos, lemma_last_pos, lemma_order_refs, lemma_reordered_is_sorted, order_keys, remap_inputs,
    reordered,
};
use crate::sort::{
    NodeState, adjacency_upto, dfs_order, dfs_run, dfs_scan, is_resolvable, last_index_of, lemma_last_index_of,
    lemma_network_graph_well_formed, lemma_state_weight_update, network_graph, output_index, ref_indices,
    refs_resolve, state_weight,
};
use crate::types::NodeId;

verus! {

/// The search over `g1` follows the search over `g0` through `pf`: `o` lists
/// the nodes of `g0` that `g1` keeps, `pf` sends the node at position `q` of `o`
/// to `q`, node `i` of `g1` depends on the images of the dependencies of `o[i]`,
/// and the dependencies of a listed node are listed.
pub open spec fn search_follows(g0: Seq<Seq<int>>, g1: Seq<Seq<int>>, o: Seq<int>, pf: spec_fn(int) -> int) -> bool {
    &&& well_formed_graph(g0)
    &&& g1.len() == o.len()
    &&& forall|q: int| 0 <= q < o.len() ==> 0 <= #[trigger] o[q] < g0.len() && pf(o[q]) == q
    &&& forall|i: int| 0 <= i < o.len() ==> #[trigger] g1[i] == g0[o[i]].map_values(pf)
    &&& forall|v: int, e: int| o.contains(v) && 0 <= e < g0[v].len() ==> o.contains(#[trigger] g0[v][e])
}

/// A state of the search over `g1` is the image of a state over `g0`.
pub open spec fn states_follow(
    g0: Seq<Seq<int>>,
    o: Seq<int>,
    pf: spec_fn(int) -> int,
    st0: Seq<NodeState>,
    s0: Seq<int>,
    so0: Seq<int>,
    st1: Seq<NodeState>,
    s1: Seq<int>,
    so1: Seq<int>,
) -> bool {
    &&& st0.len() == g0.len()
    &&& st1.len() == o.len()
    &&& forall|i: int| 0 <= i < o.len() ==> #[trigger] st1[i] == st0[o[i]]
    &&& forall|v: int| 0 <= v < g0.len() && #[trigger] st0[v] != NodeState::Unvisited ==> o.contains(v)
    &&& forall|j: int| 0 <= j < s0.len() ==> o.contains(#[trigger] s0[j])
    &&& s1 == s0.map_values(pf)
    &&& so1 == so0.map_values(pf)
}

/// A listed node is at the position that `pf` gives it.
proof fn lemma_listed_position(g0: Seq<Seq<int>>, g1: Seq<Seq<int>>, o: Seq<int>, pf: spec_fn(int) -> int, v: int)
    requires
        search_follows(g0, g1, o, pf),
        o.contains(v),
    ensures
        0 <= pf(v) < o.len(),
        o[pf(v)] == v,
        0 <= v < g0.len(),
{
    let q = choose|q: int| 0 <= q < o.len() && o[q] == v;
    assert(pf(o[q]) == q);
}

/// Changing the state of a listed node keeps the states in step.
proof fn lemma_follow_update(
    g0: Seq<Seq<int>>,
    g1: Seq<Seq<int>>,
    o: Seq<int>,
    pf: spec_fn(int) -> int,
    st0: Seq<NodeState>,
    s0: Seq<int>,
    so0: Seq<int>,
    st1: Seq<NodeState>,
    s1: Seq<int>,
    so1: Seq<int>,
    v: int,
    x: NodeState,
)
    requires
        search_follows(g0, g1, o, pf),
        states_follow(g0, o, pf, st0, s0, so0, st1, s1, so1),
        o.contains(v),
    ensures
        states_follow(g0, o, pf, st0.update(v, x), s0, so0, st1.update(pf(v), x), s1, so1),
{
    lemma_listed_position(g0, g1, o, pf, v);
    let u0 = st0.update(v, x);
    let u1 = st1.update(pf(v), x);
    assert forall|i: int| 0 <= i < o.len() implies #[trigger] u1[i] == u0[o[i]] by {
        if i != pf(v) {
            if o[i] == v {
                assert(pf(o[i]) == i);
            }
        }
    }
}

/// The search over `g1` from the image of a state ends with the image of what
/// the search over `g0` ends with.
pub proof fn lemma_run_follows(
    g0: Seq<Seq<int>>,
    g1: Seq<Seq<int>>,
    o: Seq<int>,
    pf: spec_fn(int) -> int,
    st0: Seq<NodeState>,
    s0: Seq<int>,
    so0: Seq<int>,
    st1: Seq<NodeState>,
    s1: Seq<int>,
    so1: Seq<int>,
)
    requires
        search_follows(g0, g1, o, pf),
        states_follow(g0, o, pf, st0, s0, so0, st1, s1, so1),
        dfs_run(g0, st0, s0, so0) is Ok,
    ensures
        dfs_run(g1, st1, s1, so1) == Ok::<Seq<int>, int>(dfs_run(g0, st0, s0, so0)->Ok_0.map_values(pf)),
    decreases state_weight(st0), s0.len(), 0nat,
{
    if s0.len() == 0 {
        assert(s1.len() == 0);
    } else {
        let v = s0.last();
        assert(o.contains(s0[s0.len() - 1]));
        lemma_listed_position(g0, g1, o, pf, v);
        let w = pf(v);
        assert(s1.last() == w);
        assert(st1[w] == st0[o[w]]);
        match st0[v] {
            NodeState::Unvisited => {
                lemma_state_weight_update(st0, v, NodeState::Visiting);
                lemma_follow_update(g0, g1, o, pf, st0, s0, so0, st1, s1, so1, v, NodeState::Visiting);
                assert(g1[w] == g0[v].map_values(pf));
                lemma_scan_follows(
                    g0,
                    g1,
                    o,
                    pf,
                    st0.update(v, NodeState::Visiting),
                    s0,
                    so0,
                    st1.update(w, NodeState::Visiting),
                    s1,
                    so1,
                    v,
                    g0[v].len(),
                );
            },
            NodeState::Visiting => {
                lemma_state_weight_update(st0, v, NodeState::Visited);
                lemma_follow_update(g0, g1, o, pf, st0, s0, so0, st1, s1, so1, v, NodeState::Visited);
                let t0 = s0.drop_last();
                assert(s1.drop_last() =~= t0.map_values(pf));
                assert(so1.push(w) =~= so0.push(v).map_values(pf));
                assert forall|j: int| 0 <= j < t0.len() implies o.contains(#[trigger] t0[j]) by {
                    assert(t0[j] == s0[j]);
                }
                lemma_run_follows(
                    g0,
                    g1,
                    o,
                    pf,
                    st0.update(v, NodeState::Visited),
                    t0,
                    so0.push(v),
                    st1.update(w, NodeState::Visited),
                    s1.drop_last(),
                    so1.push(w),
                );
            },
            NodeState::Visited => {
                let t0 = s0.drop_last();
                assert(s1.drop_last() =~= t0.map_values(pf));
                assert forall|j: int| 0 <= j < t0.len() implies o.contains(#[trigger] t0[j]) by {
                    assert(t0[j] == s0[j]);
                }
                lemma_run_follows(g0, g1, o, pf, st0, t0, so0, st1, s1.drop_last(), so1);
            },
        }
    }
}

/// The scan of the dependencies of a listed node follows the scan over `g0`
/// (see `lemma_run_follows`).
pub proof fn lemma_scan_follows(
    g0: Seq<Seq<int>>,
    g1: Seq<Seq<int>>,
    o: Seq<int>,
    pf: spec_fn(int) -> int,
    st0: Seq<NodeState>,
    s0: Seq<int>,
    so0: Seq<int>,
    st1: Seq<NodeState>,
    s1: Seq<int>,
    so1: Seq<int>,
    v: int,
    e: nat,
)
    requires
        search_follows(g0, g1, o, pf),
        states_follow(g0, o, pf, st0, s0, so0, st1, s1, so1),
        o.contains(v),
        e <= g0[v].len(),
        dfs_scan(g0, st0, s0, so0, v, e) is Ok,
    ensures
        dfs_scan(g1, st1, s1, so1, pf(v), e) == Ok::<Seq<int>, int>(
            dfs_scan(g0, st0, s0, so0, v, e)->Ok_0.map_values(pf),
        ),
    decreases state_weight(st0), s0.len() + e + 1, e,
{
    lemma_listed_position(g0, g1, o, pf, v);
    let w = pf(v);
    assert(g1[w] == g0[o[w]].map_values(pf));
    assert(g1[w].len() == g0[v].len());
    if e == 0 {
        lemma_run_follows(g0, g1, o, pf, st0, s0, so0, st1, s1, so1);
    } else {
        let d = g0[v][e - 1];
        assert(o.contains(d));
        lemma_listed_position(g0, g1, o, pf, d);
        assert(g1[w][e - 1] == pf(d));
        assert(st1[pf(d)] == st0[o[pf(d)]]);
        match st0[d] {
            NodeState::Visiting => {},
            NodeState::Unvisited => {
                let t0 = s0.push(d);
                assert(s1.push(pf(d)) =~= t0.map_values(pf));
                assert forall|j: int| 0 <= j < t0.len() implies o.contains(#[trigger] t0[j]) by {
                    if j < s0.len() {
                        assert(t0[j] == s0[j]);
                    }
                }
                lemma_scan_follows(g0, g1, o, pf, st0, t0, so0, st1, s1.push(pf(d)), so1, v, (e - 1) as nat);
            },
            NodeState::Visited => {
                lemma_scan_follows(g0, g1, o, pf, st0, s0, so0, st1, s1, so1, v, (e - 1) as nat);
            },
        }
    }
}

/// The scan of a list of dependencies from the last one down, apart from the
/// stack: the nodes it pushes, in the order it pushes them, or the node found
/// being visited (see `dfs_scan`).
pub open spec fn scan_pushes(st: Seq<NodeState>, list: Seq<int>) -> Result<Seq<int>, int>
    decreases list.len(),
{
    if list.len() == 0 {
        Ok(Seq::empty())
    } else {
        let d = list.last();
        if !(0 <= d < st.len()) {
            Err(-1)
        } else {
            match st[d] {
                NodeState::Visiting => Err(d),
                NodeState::Unvisited => match scan_pushes(st, list.drop_last()) {
                    Ok(p) => Ok(seq![d] + p),
                    Err(x) => Err(x),
                },
                NodeState::Visited => scan_pushes(st, list.drop_last()),
            }
        }
    }
}

/// The nodes pushed by a scan are nodes of the graph.
proof fn lemma_scan_pushes_in_range(st: Seq<NodeState>, list: Seq<int>)
    ensures
        scan_pushes(st, list) matches Ok(p) ==> forall|j: int| 0 <= j < p.len() ==> 0 <= #[trigger] p[j] < st.len(),
    decreases list.len(),
{
    if list.len() > 0 {
        lemma_scan_pushes_in_range(st, list.drop_last());
        let d = list.last();
        if 0 <= d < st.len() && st[d] == NodeState::Unvisited {
            if let Ok(q) = scan_pushes(st, list.drop_last()) {
                let p = seq![d] + q;
                assert forall|j: int| 0 <= j < p.len() implies 0 <= #[trigger] p[j] < st.len() by {
                    if j > 0 {
                        assert(p[j] == q[j - 1]);
                    }
                }
            }
        }
    }
}

/// A scan of the first `e` dependencies of `v` pushes what `scan_pushes` says
/// and goes on with the search, or stops at a node being visited.
proof fn lemma_scan_closed(g: Seq<Seq<int>>, st: Seq<NodeState>, s: Seq<int>, so: Seq<int>, v: int, e: nat)
    requires
        0 <= v < g.len(),
        e <= g[v].len(),
    ensures
        dfs_scan(g, st, s, so, v, e) == match scan_pushes(st, g[v].take(e as int)) {
            Ok(p) => dfs_run(g, st, s + p, so),
            Err(x) => Err(x),
        },
    decreases e,
{
    let l = g[v].take(e as int);
    if e == 0 {
        assert(l =~= Seq::<int>::empty());
        assert(s + Seq::<int>::empty() =~= s);
    } else {
        let d = g[v][e - 1];
        assert(l.drop_last() =~= g[v].take(e - 1));
        assert(l.last() == d);
        if 0 <= d < st.len() {
            match st[d] {
                NodeState::Unvisited => {
                    lemma_scan_closed(g, st, s.push(d), so, v, (e - 1) as nat);
                    if let Ok(q) = scan_pushes(st, g[v].take(e - 1)) {
                        assert(s.push(d) + q =~= s + (seq![d] + q));
                    }
                },
                NodeState::Visited => {
                    lemma_scan_closed(g, st, s, so, v, (e - 1) as nat);
                },
                NodeState::Visiting => {},
            }
        }
    }
}

/// Scanning one list after another.
proof fn lemma_scan_append(st: Seq<NodeState>, a: Seq<int>, b: Seq<int>)
    ensures
        scan_pushes(st, a + b) == match scan_pushes(st, b) {
            Err(x) => Err(x),
            Ok(pb) => match scan_pushes(st, a) {
                Err(x) => Err(x),
                Ok(pa) => Ok(pb + pa),
            },
        },
    decreases b.len(),
{
    if b.len() == 0 {
        assert(a + b =~= a);
        if let Ok(pa) = scan_pushes(st, a) {
            assert(Seq::<int>::empty() + pa =~= pa);
        }
    } else {
        assert((a + b).drop_last() =~= a + b.drop_last());
        assert((a + b).last() == b.last());
        lemma_scan_append(st, a, b.drop_last());
        let d = b.last();
        if 0 <= d < st.len() && st[d] == NodeState::Unvisited {
            if let Ok(q) = scan_pushes(st, b.drop_last()) {
                if let Ok(pa) = scan_pushes(st, a) {
                    assert(seq![d] + (q + pa) =~= (seq![d] + q) + pa);
                }
            }
        }
    }
}

/// `c` copies of a list, one after the other.
pub open spec fn repeat_seq(l: Seq<int>, c: nat) -> Seq<int>
    decreases c,
{
    if c == 0 {
        Seq::empty()
    } else {
        repeat_seq(l, (c - 1) as nat) + l
    }
}

/// A list of copies is the same whichever end a copy is added at.
proof fn lemma_repeat_commute(l: Seq<int>, c: nat)
    ensures
        l + repeat_seq(l, c) == repeat_seq(l, c) + l,
    decreases c,
{
    if c == 0 {
        assert(l + Seq::<int>::empty() =~= Seq::<int>::empty() + l);
    } else {
        lemma_repeat_commute(l, (c - 1) as nat);
        let r = repeat_seq(l, (c - 1) as nat);
        assert(l + (r + l) =~= (l + r) + l);
        assert((r + l) + l =~= (r + l) + l);
    }
}

/// Every item of the copies is an item of the list, and with a copy at least
/// every item of the list is among them.
proof fn lemma_repeat_items(l: Seq<int>, c: nat)
    ensures
        forall|x: int| repeat_seq(l, c).contains(x) ==> l.contains(x),
        c >= 1 ==> forall|x: int| l.contains(x) ==> repeat_seq(l, c).contains(x),
    decreases c,
{
    if c > 0 {
        lemma_repeat_items(l, (c - 1) as nat);
        let r = repeat_seq(l, (c - 1) as nat);
        assert forall|x: int| (r + l).contains(x) implies l.contains(x) by {
            let i = choose|i: int| 0 <= i < (r + l).len() && (r + l)[i] == x;
            if i < r.len() {
                assert(r[i] == x);
            } else {
                assert(l[i - r.len()] == x);
            }
        }
        assert forall|x: int| l.contains(x) implies (r + l).contains(x) by {
            let i = choose|i: int| 0 <= i < l.len() && l[i] == x;
            assert((r + l)[r.len() + i] == x);
        }
    }
}

/// Copies of nothing are nothing.
proof fn lemma_repeat_empty(c: nat)
    ensures
        repeat_seq(Seq::<int>::empty(), c) == Seq::<int>::empty(),
    decreases c,
{
    if c > 0 {
        lemma_repeat_empty((c - 1) as nat);
        assert(Seq::<int>::empty() + Seq::<int>::empty() =~= Seq::<int>::empty());
    }
}

/// Scanning copies of a list pushes copies of what scanning it once pushes.
proof fn lemma_scan_repeat(st: Seq<NodeState>, l: Seq<int>, c: nat)
    requires
        c >= 1,
    ensures
        scan_pushes(st, repeat_seq(l, c)) == match scan_pushes(st, l) {
            Err(x) => Err(x),
            Ok(p) => Ok(repeat_seq(p, c)),
        },
    decreases c,
{
    if c == 1 {
        assert(repeat_seq(l, 1) =~= l);
        if let Ok(p) = scan_pushes(st, l) {
            assert(repeat_seq(p, 1) =~= p);
        }
    } else {
        lemma_scan_repeat(st, l, (c - 1) as nat);
        lemma_scan_append(st, repeat_seq(l, (c - 1) as nat), l);
        if let Ok(p) = scan_pushes(st, l) {
            lemma_repeat_commute(p, (c - 1) as nat);
        }
    }
}

/// Every entry of the stack is a node of the graph.
pub open spec fn stack_in_range(st: Seq<NodeState>, s: Seq<int>) -> bool {
    forall|j: int| 0 <= j < s.len() ==> 0 <= #[trigger] s[j] < st.len()
}

/// An entry of the stack that is finished, or that stands again higher up,
/// changes nothing: by the time the search comes down to it, it is finished.
proof fn lemma_shadow_removed(g: Seq<Seq<int>>, st: Seq<NodeState>, s: Seq<int>, so: Seq<int>, i: int)
    requires
        st.len() == g.len(),
        stack_in_range(st, s),
        0 <= i < s.len(),
        st[s[i]] == NodeState::Visited || exists|j: int| i < j < s.len() && s[j] == s[i],
    ensures
        dfs_run(g, st, s, so) == dfs_run(g, st, s.remove(i), so),
    decreases state_weight(st), s.len(),
{
    let t = s.len() - 1;
    let v = s.last();
    let r = s.remove(i);
    assert(0 <= s[t] < st.len());
    if i == t {
        assert(r =~= s.drop_last());
    } else {
        assert(r.len() > 0);
        assert(r.last() == v) by {
            assert(r[r.len() - 1] == s[t]);
        }
        match st[v] {
            NodeState::Unvisited => {
                lemma_state_weight_update(st, v, NodeState::Visiting);
                let st2 = st.update(v, NodeState::Visiting);
                lemma_scan_closed(g, st2, s, so, v, g[v].len());
                lemma_scan_closed(g, st2, r, so, v, g[v].len());
                lemma_scan_pushes_in_range(st2, g[v].take(g[v].len() as int));
                if let Ok(p) = scan_pushes(st2, g[v].take(g[v].len() as int)) {
                    let s2 = s + p;
                    assert(s2.remove(i) =~= r + p);
                    assert(stack_in_range(st2, s2)) by {
                        assert forall|j: int| 0 <= j < s2.len() implies 0 <= #[trigger] s2[j] < st2.len() by {
                            if j >= s.len() {
                                assert(s2[j] == p[j - s.len()]);
                            } else {
                                assert(s2[j] == s[j]);
                            }
                        }
                    }
                    if st[s[i]] == NodeState::Visited {
                        assert(s[i] != v);
                        assert(st2[s2[i]] == NodeState::Visited);
                    } else {
                        let j = choose|j: int| i < j < s.len() && s[j] == s[i];
                        assert(s2[j] == s2[i]);
                    }
                    lemma_shadow_removed(g, st2, s2, so, i);
                }
            },
            NodeState::Visiting => {
                lemma_state_weight_update(st, v, NodeState::Visited);
                let st2 = st.update(v, NodeState::Visited);
                let s2 = s.drop_last();
                assert(s2.remove(i) =~= r.drop_last());
                if st[s[i]] != NodeState::Visited {
                    let j = choose|j: int| i < j < s.len() && s[j] == s[i];
                    if j == t {
                        assert(st2[s2[i]] == NodeState::Visited);
                    } else {
                        assert(s2[j] == s2[i]);
                    }
                } else {
                    assert(st2[s2[i]] == NodeState::Visited);
                }
                lemma_shadow_removed(g, st2, s2, so.push(v), i);
            },
            NodeState::Visited => {
                let s2 = s.drop_last();
                assert(s2.remove(i) =~= r.drop_last());
                if st[s[i]] != NodeState::Visited {
                    let j = choose|j: int| i < j < s.len() && s[j] == s[i];
                    if j == t {
                        assert(st[s2[i]] == NodeState::Visited);
                    } else {
                        assert(s2[j] == s2[i]);
                    }
                }
                lemma_shadow_removed(g, st, s2, so, i);
            },
        }
    }
}

/// Entries below a list that holds each of them again change nothing.
proof fn lemma_shadowed_block(g: Seq<Seq<int>>, st: Seq<NodeState>, s: Seq<int>, x: Seq<int>, p: Seq<int>, so: Seq<int>)
    requires
        st.len() == g.len(),
        stack_in_range(st, s + x + p),
        forall|y: int| x.contains(y) ==> p.contains(y),
    ensures
        dfs_run(g, st, s + x + p, so) == dfs_run(g, st, s + p, so),
    decreases x.len(),
{
    if x.len() == 0 {
        assert(s + x + p =~= s + p);
    } else {
        let full = s + x + p;
        let i = s.len() + x.len() - 1;
        assert(full[i] == x.last());
        assert(x.contains(x[x.len() - 1]));
        let k = choose|k: int| 0 <= k < p.len() && p[k] == x.last();
        assert(full[s.len() + x.len() + k] == full[i]);
        lemma_shadow_removed(g, st, full, so, i);
        let x2 = x.drop_last();
        assert(full.remove(i) =~= s + x2 + p);
        assert forall|y: int| x2.contains(y) implies p.contains(y) by {
            let j = choose|j: int| 0 <= j < x2.len() && x2[j] == y;
            assert(x[j] == y);
        }
        assert(stack_in_range(st, s + x2 + p)) by {
            assert forall|j: int| 0 <= j < (s + x2 + p).len() implies 0 <= #[trigger] (s + x2 + p)[j] < st.len() by {
                assert((s + x2 + p)[j] == full.remove(i)[j]);
                if j < i {
                    assert(full.remove(i)[j] == full[j]);
                } else {
                    assert(full.remove(i)[j] == full[j + 1]);
                }
            }
        }
        lemma_shadowed_block(g, st, s, x2, p, so);
    }
}

/// `a` is made of copies of `b`, at least one.
pub open spec fn repeats(a: Seq<int>, b: Seq<int>) -> bool {
    exists|c: nat| c >= 1 && a == #[trigger] repeat_seq(b, c)
}

/// Listing each dependency several times over does not change the search.
proof fn lemma_repeated_search(g: Seq<Seq<int>>, h: Seq<Seq<int>>, st: Seq<NodeState>, s: Seq<int>, so: Seq<int>)
    requires
        g.len() == h.len(),
        st.len() == g.len(),
        forall|v: int| 0 <= v < g.len() ==> #[trigger] repeats(g[v], h[v]),
        stack_in_range(st, s),
    ensures
        dfs_run(g, st, s, so) == dfs_run(h, st, s, so),
    decreases state_weight(st), s.len(),
{
    if s.len() > 0 {
        let v = s.last();
        assert(0 <= s[s.len() - 1] < st.len());
        match st[v] {
            NodeState::Unvisited => {
                lemma_state_weight_update(st, v, NodeState::Visiting);
                let st2 = st.update(v, NodeState::Visiting);
                assert(repeats(g[v], h[v]));
                let c = choose|c: nat| c >= 1 && g[v] == #[trigger] repeat_seq(h[v], c);
                lemma_scan_closed(g, st2, s, so, v, g[v].len());
                lemma_scan_closed(h, st2, s, so, v, h[v].len());
                assert(g[v].take(g[v].len() as int) =~= g[v]);
                assert(h[v].take(h[v].len() as int) =~= h[v]);
                lemma_scan_repeat(st2, h[v], c);
                lemma_scan_pushes_in_range(st2, h[v]);
                if let Ok(p) = scan_pushes(st2, h[v]) {
                    let x = repeat_seq(p, (c - 1) as nat);
                    assert(s + repeat_seq(p, c) =~= s + x + p);
                    lemma_repeat_items(p, (c - 1) as nat);
                    assert(stack_in_range(st2, s + x + p)) by {
                        assert forall|j: int| 0 <= j < (s + x + p).len() implies 0 <= #[trigger] (s + x + p)[j] < st2.len() by {
                            if j < s.len() {
                                assert((s + x + p)[j] == s[j]);
                            } else if j < s.len() + x.len() {
                                assert((s + x + p)[j] == x[j - s.len()]);
                                let y = x[j - s.len()];
                                assert(x.contains(y));
                                assert(p.contains(y));
                                let k = choose|k: int| 0 <= k < p.len() && p[k] == y;
                                assert(0 <= p[k] < st2.len());
                            } else {
                                assert((s + x + p)[j] == p[j - s.len() - x.len()]);
                            }
                        }
                    }
                    lemma_shadowed_block(g, st2, s, x, p, so);
                    assert(stack_in_range(st2, s + p)) by {
                        assert forall|j: int| 0 <= j < (s + p).len() implies 0 <= #[trigger] (s + p)[j] < st2.len() by {
                            if j < s.len() {
                                assert((s + p)[j] == s[j]);
                            } else {
                                assert((s + p)[j] == p[j - s.len()]);
                            }
                        }
                    }
                    lemma_repeated_search(g, h, st2, s + p, so);
                }
            },
            NodeState::Visiting => {
                lemma_state_weight_update(st, v, NodeState::Visited);
                lemma_repeated_search(g, h, st.update(v, NodeState::Visited), s.drop_last(), so.push(v));
            },
            NodeState::Visited => {
                lemma_repeated_search(g, h, st, s.drop_last(), so);
            },
        }
    }
}

/// No two nodes share an id.
pub open spec fn distinct_ids(nodes: Seq<(NodeId, ProtoNodeView)>) -> bool {
    forall|i: int, j: int| 0 <= i < j < nodes.len() ==> #[trigger] nodes[i].0 != #[trigger] nodes[j].0
}

/// With distinct ids, a node is the last one with its id.
pub proof fn lemma_distinct_last(nodes: Seq<(NodeId, ProtoNodeView)>, j: int)
    requires
        distinct_ids(nodes),
        0 <= j < nodes.len(),
    ensures
        last_index_of(nodes, nodes[j].0) == j,
{
    lemma_last_index_of(nodes, nodes[j].0);
    let l = last_index_of(nodes, nodes[j].0);
    if l != j {
        assert(nodes[l].0 == nodes[j].0);
    }
}

/// With distinct ids, the dependencies of a node are its own references.
pub proof fn lemma_adjacency_distinct(nodes: Seq<(NodeId, ProtoNodeView)>, m: int, k: int)
    requires
        distinct_ids(nodes),
        0 <= k < nodes.len(),
        0 <= m <= nodes.len(),
    ensures
        adjacency_upto(nodes, m, k) == if k < m {
            ref_indices(nodes, k)
        } else {
            Seq::<int>::empty()
        },
    decreases m,
{
    if m > 0 {
        lemma_adjacency_distinct(nodes, m - 1, k);
        lemma_distinct_last(nodes, m - 1);
        if k == m - 1 {
            assert(adjacency_upto(nodes, m - 1, k) + ref_indices(nodes, k) =~= ref_indices(nodes, k));
        } else {
            assert(adjacency_upto(nodes, m - 1, k) + Seq::<int>::empty() =~= adjacency_upto(nodes, m - 1, k));
        }
    }
}

/// Nodes numbered by their positions have distinct ids, and each is found at its number.
proof fn lemma_numbered_distinct(nodes: Seq<(NodeId, ProtoNodeView)>)
    requires
        nodes.len() <= u64::MAX + 1,
        forall|i: int| 0 <= i < nodes.len() ==> (#[trigger] nodes[i]).0 == NodeId(i as u64),
    ensures
        distinct_ids(nodes),
        forall|i: int| 0 <= i < nodes.len() ==> last_index_of(nodes, #[trigger] nodes[i].0) == i,
{
    assert forall|i: int, j: int| 0 <= i < j < nodes.len() implies #[trigger] nodes[i].0 != #[trigger] nodes[j].0 by {
        assert(nodes[i].0 == NodeId(i as u64));
        assert(nodes[j].0 == NodeId(j as u64));
    }
    assert forall|i: int| 0 <= i < nodes.len() implies last_index_of(nodes, #[trigger] nodes[i].0) == i by {
        lemma_distinct_last(nodes, i);
    }
}

/// The position in the order of the node at position `v`, through its id.
pub open spec fn order_position(nodes: Seq<(NodeId, ProtoNodeView)>, o: Seq<int>, v: int) -> int {
    last_pos(order_keys(nodes, o), nodes[v].0)
}

/// The dependency graph of a network in which each node that the output
/// depends on lists only its own references (in `network_graph`, a node also
/// lists those of the nodes before it that have its id).
pub open spec fn own_graph(net: ProtoNetworkView) -> Seq<Seq<int>> {
    let g = network_graph(net.nodes);
    Seq::new(
        net.nodes.len(),
        |v: int| if reachable(g, output_index(net), v) { ref_indices(net.nodes, v) } else { g[v] },
    )
}

/// Renumbering along a topological order: the search over the renumbered
/// network follows the search over the graph of own references.
proof fn lemma_reordered_follows(net: ProtoNetworkView, o: Seq<int>)
    requires
        is_resolvable(net),
        net.nodes.len() <= u64::MAX,
        is_topological_order(network_graph(net.nodes), output_index(net), o),
    ensures
        search_follows(
            own_graph(net),
            network_graph(reordered(net, o).nodes),
            o,
            |v: int| order_position(net.nodes, o, v),
        ),
{
    let nodes = net.nodes;
    let g0 = network_graph(nodes);
    let h0 = own_graph(net);
    let root = output_index(net);
    let keys = order_keys(nodes, o);
    let net1 = reordered(net, o);
    let g1 = network_graph(net1.nodes);
    let pf = |v: int| order_position(nodes, o, v);
    lemma_network_graph_well_formed(nodes);
    lemma_reordered_is_sorted(net, o);
    assert forall|q: int| 0 <= q < o.len() implies 0 <= #[trigger] o[q] < nodes.len() by {
        assert(o.contains(o[q]));
    }
    crate::graph::lemma_distinct_nodes_bounded(o, nodes.len() as int);
    lemma_numbered_distinct(net1.nodes);
    // the graph of own references is well formed
    assert forall|v: int, e: int| 0 <= v < h0.len() && 0 <= e < h0[v].len() implies 0 <= #[trigger] h0[v][e] < h0.len() by {
        if reachable(g0, root, v) {
            let r = node_refs(nodes[v].1)[e];
            assert(h0[v][e] == last_index_of(nodes, r));
            lemma_last_index_of(nodes, r);
        }
    }
    // each listed node is at its position in the order
    assert forall|q: int| 0 <= q < o.len() implies 0 <= #[trigger] o[q] < h0.len() && pf(o[q]) == q by {
        assert(keys[q] == nodes[o[q]].0);
        lemma_last_pos(keys, nodes[o[q]].0);
        let l = last_pos(keys, nodes[o[q]].0);
        if l != q {
            assert(keys[l] == nodes[o[l]].0);
            assert(o.contains(o[l]));
            assert(o.contains(o[q]));
            crate::reorder::lemma_reachable_is_last(net, o[l]);
            crate::reorder::lemma_reachable_is_last(net, o[q]);
            assert(o[l] == o[q]);
        }
    }
    // the dependencies of a renumbered node are the images of its own references
    assert forall|i: int| 0 <= i < o.len() implies #[trigger] g1[i] == h0[o[i]].map_values(pf) by {
        let n0 = nodes[o[i]].1;
        let f = |r: NodeId| NodeId(last_pos(keys, r) as u64);
        lemma_rename_refs(n0, f);
        assert(net1.nodes[i].1 == rename_refs(n0, f, false));
        lemma_adjacency_distinct(net1.nodes, net1.nodes.len() as int, i);
        assert(o.contains(o[i]));
        assert(h0[o[i]] == ref_indices(nodes, o[i]));
        let refs = node_refs(n0);
        assert forall|j: int| 0 <= j < refs.len() implies #[trigger] g1[i][j] == pf(h0[o[i]][j]) by {
            lemma_order_refs(net, o, i, j);
            let lp = last_pos(keys, refs[j]);
            assert(node_refs(net1.nodes[i].1)[j] == NodeId(lp as u64));
            assert(net1.nodes[lp].0 == NodeId(lp as u64));
            assert(last_index_of(net1.nodes, net1.nodes[lp].0) == lp);
            assert(g1[i][j] == last_index_of(net1.nodes, NodeId(lp as u64)));
            assert(h0[o[i]][j] == last_index_of(nodes, refs[j]));
            assert(o[lp] == last_index_of(nodes, refs[j]));
        }
        assert(g1[i] =~= h0[o[i]].map_values(pf));
    }
    // the own references of a listed node are listed
    assert forall|v: int, e: int| o.contains(v) && 0 <= e < h0[v].len() implies o.contains(#[trigger] h0[v][e]) by {
        crate::reorder::lemma_reachable_is_last(net, v);
        crate::reorder::lemma_own_refs_in_adjacency(nodes, nodes.len() as int, v);
        assert(h0[v][e] == ref_indices(nodes, v)[e]);
        assert(g0[v].contains(h0[v][e]));
        crate::graph::lemma_reachable_step(g0, root, v, h0[v][e]);
    }
}

/// Every node that shares its id with a node that the output depends on has no
/// references, or the same references as that node.
pub open spec fn reached_ids_agree(net: ProtoNetworkView) -> bool {
    forall|k: int, j: int|
        0 <= k < net.nodes.len() && 0 <= j < net.nodes.len() && reachable(
            network_graph(net.nodes),
            output_index(net),
            k,
        ) && #[trigger] net.nodes[j].0 == #[trigger] net.nodes[k].0 ==> node_refs(net.nodes[j].1).len() == 0
            || node_refs(net.nodes[j].1) == node_refs(net.nodes[k].1)
}

/// The number of nodes among the first `m` that have the id of node `k` and some reference.
pub open spec fn same_id_with_refs(nodes: Seq<(NodeId, ProtoNodeView)>, m: int, k: int) -> nat
    decreases m,
{
    if m <= 0 {
        0
    } else {
        same_id_with_refs(nodes, m - 1, k) + if nodes[m - 1].0 == nodes[k].0 && node_refs(nodes[m - 1].1).len() > 0 {
            1nat
        } else {
            0nat
        }
    }
}

/// When the nodes that share the id of a last node have no references or the
/// same ones, its dependencies are copies of its own references.
proof fn lemma_adjacency_repeats(nodes: Seq<(NodeId, ProtoNodeView)>, m: int, k: int)
    requires
        0 <= k < nodes.len(),
        0 <= m <= nodes.len(),
        last_index_of(nodes, nodes[k].0) == k,
        forall|j: int|
            0 <= j < nodes.len() && #[trigger] nodes[j].0 == nodes[k].0 ==> node_refs(nodes[j].1).len() == 0
                || node_refs(nodes[j].1) == node_refs(nodes[k].1),
    ensures
        adjacency_upto(nodes, m, k) == repeat_seq(ref_indices(nodes, k), same_id_with_refs(nodes, m, k)),
        k < m && node_refs(nodes[k].1).len() > 0 ==> same_id_with_refs(nodes, m, k) >= 1,
    decreases m,
{
    if m == 0 {
    } else {
        lemma_adjacency_repeats(nodes, m - 1, k);
        let j = m - 1;
        let l = ref_indices(nodes, k);
        let c = same_id_with_refs(nodes, m - 1, k);
        if last_index_of(nodes, nodes[j].0) == k {
            lemma_last_index_of(nodes, nodes[j].0);
            assert(nodes[j].0 == nodes[k].0);
            if node_refs(nodes[j].1).len() == 0 {
                assert(ref_indices(nodes, j) =~= Seq::<int>::empty());
                assert(adjacency_upto(nodes, m - 1, k) + ref_indices(nodes, j) =~= adjacency_upto(nodes, m - 1, k));
            } else {
                assert(node_refs(nodes[j].1) == node_refs(nodes[k].1));
                assert(ref_indices(nodes, j) =~= l);
            }
        } else {
            if nodes[j].0 == nodes[k].0 {
                assert(last_index_of(nodes, nodes[j].0) == k);
            }
            assert(adjacency_upto(nodes, m - 1, k) + Seq::<int>::empty() =~= adjacency_upto(nodes, m - 1, k));
        }
    }
}

/// Under `reached_ids_agree`, the dependencies of each node are copies of its
/// dependencies in the graph of own references.
proof fn lemma_own_graph_repeats(net: ProtoNetworkView)
    requires
        is_resolvable(net),
        reached_ids_agree(net),
    ensures
        own_graph(net).len() == network_graph(net.nodes).len(),
        forall|v: int|
            0 <= v < network_graph(net.nodes).len() ==> #[trigger] repeats(network_graph(net.nodes)[v], own_graph(net)[v]),
{
    let nodes = net.nodes;
    let g0 = network_graph(nodes);
    let h0 = own_graph(net);
    let root = output_index(net);
    assert forall|v: int| 0 <= v < g0.len() implies #[trigger] repeats(g0[v], h0[v]) by {
        if reachable(g0, root, v) {
            crate::reorder::lemma_reachable_is_last(net, v);
            assert forall|j: int|
                0 <= j < nodes.len() && #[trigger] nodes[j].0 == nodes[v].0 implies node_refs(nodes[j].1).len() == 0
                    || node_refs(nodes[j].1) == node_refs(nodes[v].1) by {
                assert(nodes[j].0 == nodes[v].0);
            }
            lemma_adjacency_repeats(nodes, nodes.len() as int, v);
            let l = ref_indices(nodes, v);
            let c = same_id_with_refs(nodes, nodes.len() as int, v);
            if node_refs(nodes[v].1).len() > 0 {
                assert(g0[v] == repeat_seq(l, c));
            } else {
                assert(l =~= Seq::<int>::empty());
                lemma_repeat_empty(c);
                lemma_repeat_empty(1);
                assert(g0[v] == repeat_seq(l, 1));
            }
        } else {
            assert(repeat_seq(h0[v], 0) == Seq::<int>::empty());
            assert(repeat_seq(h0[v], 1) =~= h0[v]);
            assert(g0[v] == repeat_seq(h0[v], 1));
        }
    }
}

/// The ids kept by renumbering name positions of the order.
proof fn lemma_remap_inputs_bounded(inputs: Seq<NodeId>, keys: Seq<NodeId>)
    requires
        keys.len() <= u64::MAX + 1,
    ensures
        forall|j: int| 0 <= j < remap_inputs(inputs, keys).len() ==> (#[trigger] remap_inputs(inputs, keys)[j]).0 < keys.len(),
    decreases inputs.len(),
{
    if inputs.len() > 0 {
        lemma_remap_inputs_bounded(inputs.drop_last(), keys);
        lemma_last_pos(keys, inputs.last());
        let rest = remap_inputs(inputs.drop_last(), keys);
        assert forall|j: int| 0 <= j < remap_inputs(inputs, keys).len() implies (#[trigger] remap_inputs(
            inputs,
            keys,
        )[j]).0 < keys.len() by {
            if j < rest.len() {
                assert(remap_inputs(inputs, keys)[j] == rest[j]);
            }
        }
    }
}

/// Renumbering ids that are already positions keeps them.
proof fn lemma_remap_inputs_identity(inputs: Seq<NodeId>, keys: Seq<NodeId>)
    requires
        keys.len() <= u64::MAX + 1,
        forall|p: int| 0 <= p < keys.len() ==> #[trigger] keys[p] == NodeId(p as u64),
        forall|j: int| 0 <= j < inputs.len() ==> (#[trigger] inputs[j]).0 < keys.len(),
    ensures
        remap_inputs(inputs, keys) == inputs,
    decreases inputs.len(),
{
    if inputs.len() > 0 {
        let d = inputs.drop_last();
        assert forall|j: int| 0 <= j < d.len() implies (#[trigger] d[j]).0 < keys.len() by {
            assert(d[j] == inputs[j]);
        }
        lemma_remap_inputs_identity(d, keys);
        let x = inputs.last();
        assert(inputs[inputs.len() - 1] == x);
        let p = x.0 as int;
        assert(keys[p] == x);
        lemma_last_pos(keys, x);
        let l = last_pos(keys, x);
        assert(keys[l] == NodeId(l as u64));
        assert(l == p);
        assert(d.push(x) =~= inputs);
    }
}

/// Renumbering along the search order of a network in which the nodes that
/// share an id with a reached node agree with it gives a network whose own
/// search lists its nodes in the order they stand.
proof fn lemma_reorder_twice_along(net: ProtoNetworkView, o: Seq<int>)
    requires
        is_resolvable(net),
        reached_ids_agree(net),
        net.nodes.len() <= u64::MAX,
        dfs_order(network_graph(net.nodes), output_index(net)) == Ok::<Seq<int>, int>(o),
        is_topological_order(network_graph(net.nodes), output_index(net), o),
    ensures
        is_resolvable(reordered(net, o)),
        distinct_ids(reordered(net, o).nodes),
        !has_cycle_from(network_graph(reordered(net, o).nodes), output_index(reordered(net, o))),
        dfs_order(network_graph(reordered(net, o).nodes), output_index(reordered(net, o))) == Ok::<Seq<int>, int>(
            Seq::new(o.len(), |q: int| q),
        ),
        reordered(reordered(net, o), Seq::new(o.len(), |q: int| q)) == reordered(net, o),
{
    let nodes = net.nodes;
    let g0 = network_graph(nodes);
    let root0 = output_index(net);
    let net1 = reordered(net, o);
    let n1 = o.len();
    let g1 = network_graph(net1.nodes);
    let pf = |v: int| order_position(nodes, o, v);
    let ident = Seq::new(n1, |q: int| q);
    lemma_reordered_follows(net, o);
    lemma_reordered_is_sorted(net, o);
    lemma_network_graph_well_formed(nodes);
    crate::graph::lemma_distinct_nodes_bounded(o, nodes.len() as int);
    lemma_numbered_distinct(net1.nodes);
    // the renumbered network is resolvable
    let root1 = output_index(net1);
    assert(net1.output == NodeId((n1 - 1) as u64));
    assert(root1 == n1 - 1);
    assert forall|i: int, k: int|
        0 <= i < net1.nodes.len() && 0 <= k < node_refs(net1.nodes[i].1).len() implies last_index_of(
        net1.nodes,
        #[trigger] node_refs(net1.nodes[i].1)[k],
    ) >= 0 by {
        let r = node_refs(net1.nodes[i].1)[k];
        assert(r.0 < i);
        assert(net1.nodes[r.0 as int].0 == r);
        assert(last_index_of(net1.nodes, net1.nodes[r.0 as int].0) == r.0);
    }
    assert(refs_resolve(net1.nodes));
    // every dependency of the renumbered network has a smaller index
    assert forall|v: int, e: int| 0 <= v < g1.len() && 0 <= e < g1[v].len() implies #[trigger] g1[v][e] < v by {
        lemma_adjacency_distinct(net1.nodes, net1.nodes.len() as int, v);
        let r = node_refs(net1.nodes[v].1)[e];
        assert(g1[v][e] == last_index_of(net1.nodes, r));
        assert(r.0 < v);
        assert(net1.nodes[r.0 as int].0 == r);
        assert(last_index_of(net1.nodes, net1.nodes[r.0 as int].0) == r.0);
    }
    crate::graph::lemma_ranked_acyclic(g1, |v: int| v, root1);
    // the second search follows the first one
    crate::graph::lemma_topological_root_last(g0, root0, o);
    lemma_last_index_of(nodes, net.output);
    assert(o[n1 - 1] == root0);
    assert(pf(o[n1 - 1]) == n1 - 1);
    let h0 = own_graph(net);
    let st0 = Seq::new(g0.len(), |_i: int| NodeState::Unvisited);
    let st1 = Seq::new(g1.len(), |_i: int| NodeState::Unvisited);
    assert(o.contains(o[n1 - 1]));
    assert(0 <= root0 < g0.len());
    lemma_own_graph_repeats(net);
    lemma_repeated_search(g0, h0, st0, seq![root0], Seq::empty());
    assert(seq![n1 - 1] =~= seq![root0].map_values(pf));
    assert(Seq::<int>::empty() =~= Seq::<int>::empty().map_values(pf));
    assert(states_follow(h0, o, pf, st0, seq![root0], Seq::empty(), st1, seq![n1 - 1], Seq::empty()));
    lemma_run_follows(h0, g1, o, pf, st0, seq![root0], Seq::empty(), st1, seq![n1 - 1], Seq::empty());
    assert(o.map_values(pf) =~= ident);
    // renumbering again changes nothing
    let keys1 = order_keys(net1.nodes, ident);
    assert forall|p: int| 0 <= p < keys1.len() implies #[trigger] keys1[p] == NodeId(p as u64) by {}
    assert forall|j: int| 0 <= j < keys1.len() implies last_pos(keys1, #[trigger] keys1[j]) == j by {
        lemma_last_pos(keys1, keys1[j]);
        let l = last_pos(keys1, keys1[j]);
        assert(keys1[l] == NodeId(l as u64));
    }
    let net2 = reordered(net1, ident);
    let f1 = |r: NodeId| NodeId(last_pos(keys1, r) as u64);
    assert forall|q: int| 0 <= q < n1 implies #[trigger] net2.nodes[q] == net1.nodes[q] by {
        let nd = net1.nodes[q].1;
        assert forall|k: int| 0 <= k < node_refs(nd).len() implies f1(#[trigger] node_refs(nd)[k]) == node_refs(nd)[k] by {
            let r = node_refs(nd)[k];
            assert(r.0 < q);
            assert(keys1[r.0 as int] == r);
            assert(last_pos(keys1, keys1[r.0 as int]) == r.0);
        }
        crate::proto::lemma_rename_unchanged(nd, f1, false);
    }
    assert(net2.nodes =~= net1.nodes);
    lemma_remap_inputs_bounded(net.inputs, order_keys(nodes, o));
    lemma_remap_inputs_identity(net1.inputs, keys1);
    assert(keys1[n1 - 1] == net1.output);
    assert(last_pos(keys1, keys1[n1 - 1]) == n1 - 1);
}

/// Renumbering is stable: when no cycle can be reached from the output of a
/// network and every node that shares its id with a node the output depends on
/// has no references or the same references as that node, renumbering it
/// (along its search order, as `reorder_ids` does) gives a network with
/// distinct ids and no reachable cycle, whose own search lists its nodes in the
/// order they stand, so that renumbering it again gives it back.
pub proof fn lemma_reorder_idempotent(net: ProtoNetworkView)
    requires
        is_resolvable(net),
        reached_ids_agree(net),
        net.nodes.len() <= u64::MAX,
        !has_cycle_from(network_graph(net.nodes), output_index(net)),
    ensures
        dfs_order(network_graph(net.nodes), output_index(net)) is Ok,
        ({
            let once = reordered(net, dfs_order(network_graph(net.nodes), output_index(net))->Ok_0);
            &&& is_resolvable(once)
            &&& distinct_ids(once.nodes)
            &&& !has_cycle_from(network_graph(once.nodes), output_index(once))
            &&& dfs_order(network_graph(once.nodes), output_index(once)) == Ok::<Seq<int>, int>(
                Seq::new(once.nodes.len(), |q: int| q),
            )
            &&& reordered(once, dfs_order(network_graph(once.nodes), output_index(once))->Ok_0) == once
        }),
{
    let g = network_graph(net.nodes);
    lemma_network_graph_well_formed(net.nodes);
    lemma_last_index_of(net.nodes, net.output);
    crate::sort::lemma_dfs_order_sound(g, output_index(net));
    let o = dfs_order(g, output_index(net))->Ok_0;
    lemma_reorder_twice_along(net, o);
    assert(reordered(net, o).nodes.len() == o.len());
}

} // verus!

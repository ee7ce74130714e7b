//! The dependency graph of a proto network and its topological sort.

use vstd::prelude::*;

use rustc_hash::FxHashMap;

use crate::fxmap::{fx_map_get, fx_map_insert, fx_map_new};
use crate::graph::{well_formed_graph, reachable, has_cycle_from, is_topological_order, is_path, on_cycle};
use crate::proto::{
    ConstructionArgs, ProtoNetwork, ProtoNetworkView, ProtoNodeInput, ProtoNodeView, node_refs,
    input_ref, ConstructionArgsView,
};
use crate::types::NodeId;

verus! {

/// The position of the last node with the given id, or -1 when there is none.
pub open spec fn last_index_of(nodes: Seq<(NodeId, ProtoNodeView)>, id: NodeId) -> int
    decreases nodes.len(),
{
    if nodes.len() == 0 {
        -1
    } else if nodes.last().0 == id {
        nodes.len() - 1
    } else {
        last_index_of(nodes.drop_last(), id)
    }
}

pub proof fn lemma_last_index_of(nodes: Seq<(NodeId, ProtoNodeView)>, id: NodeId)
    ensures
        -1 <= last_index_of(nodes, id) < nodes.len(),
        last_index_of(nodes, id) >= 0 ==> nodes[last_index_of(nodes, id)].0 == id,
        forall|i: int| 0 <= i < nodes.len() && nodes[i].0 == id ==> i <= last_index_of(nodes, id),
    decreases nodes.len(),
{
    if nodes.len() > 0 {
        lemma_last_index_of(nodes.drop_last(), id);
        assert forall|i: int| 0 <= i < nodes.len() - 1 implies #[trigger] nodes[i] == nodes.drop_last()[i] by {}
    }
}

/// Every reference of every node names a node of the list.
pub open spec fn refs_resolve(nodes: Seq<(NodeId, ProtoNodeView)>) -> bool {
    forall|i: int, k: int|
        0 <= i < nodes.len() && 0 <= k < node_refs(nodes[i].1).len() ==> last_index_of(
            nodes,
            #[trigger] node_refs(nodes[i].1)[k],
        ) >= 0
}

/// A network whose output and references all name nodes of the network.
pub open spec fn is_resolvable(net: ProtoNetworkView) -> bool {
    &&& last_index_of(net.nodes, net.output) >= 0
    &&& refs_resolve(net.nodes)
}

/// The positions of the nodes that node `i` refers to.
pub open spec fn ref_indices(nodes: Seq<(NodeId, ProtoNodeView)>, i: int) -> Seq<int> {
    node_refs(nodes[i].1).map_values(|r: NodeId| last_index_of(nodes, r))
}

/// The dependencies recorded for position `k` after the first `m` nodes: the
/// references of each such node are recorded under the position that its id maps to.
pub open spec fn adjacency_upto(nodes: Seq<(NodeId, ProtoNodeView)>, m: int, k: int) -> Seq<int>
    decreases m,
{
    if m <= 0 {
        Seq::empty()
    } else {
        adjacency_upto(nodes, m - 1, k) + if last_index_of(nodes, nodes[m - 1].0) == k {
            ref_indices(nodes, m - 1)
        } else {
            Seq::empty()
        }
    }
}

/// The dependency graph of a list of nodes, over their positions.
pub open spec fn network_graph(nodes: Seq<(NodeId, ProtoNodeView)>) -> Seq<Seq<int>> {
    Seq::new(nodes.len(), |k: int| adjacency_upto(nodes, nodes.len() as int, k))
}

/// The position of the node that provides the output.
pub open spec fn output_index(net: ProtoNetworkView) -> int {
    last_index_of(net.nodes, net.output)
}

/// The map from each id to the position of the last node with that id.
pub open spec fn is_id_map(m: Map<NodeId, usize>, nodes: Seq<(NodeId, ProtoNodeView)>) -> bool {
    forall|id: NodeId|
        (#[trigger] m.contains_key(id) <==> last_index_of(nodes, id) >= 0) && (m.contains_key(id)
            ==> m[id] == last_index_of(nodes, id))
}

proof fn lemma_adjacency_bounded(nodes: Seq<(NodeId, ProtoNodeView)>, m: int, k: int)
    requires
        refs_resolve(nodes),
        m <= nodes.len(),
    ensures
        forall|e: int|
            0 <= e < adjacency_upto(nodes, m, k).len() ==> 0 <= #[trigger] adjacency_upto(
                nodes,
                m,
                k,
            )[e] < nodes.len(),
    decreases m,
{
    if m > 0 {
        lemma_adjacency_bounded(nodes, m - 1, k);
        let r = node_refs(nodes[m - 1].1);
        assert forall|e: int| 0 <= e < r.len() implies 0 <= #[trigger] ref_indices(nodes, m - 1)[e]
            < nodes.len() by {
            lemma_last_index_of(nodes, r[e]);
            assert(0 <= m - 1 < nodes.len());
            assert(0 <= e < node_refs(nodes[m - 1].1).len());
        }
        let a = adjacency_upto(nodes, m - 1, k);
        let b = if last_index_of(nodes, nodes[m - 1].0) == k {
            ref_indices(nodes, m - 1)
        } else {
            Seq::empty()
        };
        assert(adjacency_upto(nodes, m, k) == a + b);
        assert forall|e: int| 0 <= e < (a + b).len() implies 0 <= #[trigger] (a + b)[e] < nodes.len() by {
            if e < a.len() {
                assert((a + b)[e] == a[e]);
            } else {
                assert((a + b)[e] == b[e - a.len()]);
            }
        }
    }
}

/// With resolvable references, every dependency is a node of the graph.
pub proof fn lemma_network_graph_well_formed(nodes: Seq<(NodeId, ProtoNodeView)>)
    requires
        refs_resolve(nodes),
    ensures
        well_formed_graph(network_graph(nodes)),
        network_graph(nodes).len() == nodes.len(),
{
    let g = network_graph(nodes);
    assert forall|v: int, e: int| 0 <= v < g.len() && 0 <= e < g[v].len() implies 0
        <= #[trigger] g[v][e] < g.len() by {
        lemma_adjacency_bounded(nodes, nodes.len() as int, v);
    }
}

/// The id-to-position map of a list of nodes.
pub fn build_id_map(nodes: &Vec<(NodeId, crate::proto::ProtoNode)>) -> (m: FxHashMap<NodeId, usize>)
    ensures
        is_id_map(m@, nodes@.map_values(|e: (NodeId, crate::proto::ProtoNode)| crate::proto::entry_view(e))),
{
    let ghost nv = nodes@.map_values(|e: (NodeId, crate::proto::ProtoNode)| crate::proto::entry_view(e));
    let mut m = fx_map_new();
    let mut i: usize = 0;
    while i < nodes.len()
        invariant
            i <= nodes.len(),
            nv == nodes@.map_values(|e: (NodeId, crate::proto::ProtoNode)| crate::proto::entry_view(e)),
            is_id_map(m@, nv.take(i as int)),
        decreases nodes.len() - i,
    {
        let id = nodes[i].0;
        fx_map_insert(&mut m, id, i);
        proof {
            let t = nv.take(i + 1);
            assert(t.drop_last() =~= nv.take(i as int));
            assert(t.last().0 == id);
            assert forall|x: NodeId| (#[trigger] m@.contains_key(x) <==> last_index_of(t, x) >= 0)
                && (m@.contains_key(x) ==> m@[x] == last_index_of(t, x)) by {
                lemma_last_index_of(nv.take(i as int), x);
            }
        }
        i = i + 1;
    }
    assert(nv.take(nodes.len() as int) =~= nv);
    m
}

/// A list of positions, as integers.
pub open spec fn as_ints(s: Seq<usize>) -> Seq<int> {
    s.map_values(|x: usize| x as int)
}

proof fn lemma_adjacency_step(nodes: Seq<(NodeId, ProtoNodeView)>, i: int, k: int)
    requires
        0 <= i < nodes.len(),
    ensures
        adjacency_upto(nodes, i + 1, k) == adjacency_upto(nodes, i, k) + if last_index_of(
            nodes,
            nodes[i].0,
        ) == k {
            ref_indices(nodes, i)
        } else {
            Seq::empty()
        },
{
}

impl ProtoNetwork {
    /// The dependency lists of the nodes by position, and the map from ids to positions.
    fn collect_inwards_edges_with_mapping(&self) -> (r: (Vec<Vec<usize>>, FxHashMap<NodeId, usize>))
        requires
            refs_resolve(self@.nodes),
        ensures
            r.0@.len() == self@.nodes.len(),
            forall|k: int| 0 <= k < r.0@.len() ==> as_ints(#[trigger] r.0@[k]@) == network_graph(self@.nodes)[k],
            is_id_map(r.1@, self@.nodes),
    {
        let ghost nv = self@.nodes;
        let id_map = build_id_map(&self.nodes);
        let n = self.nodes.len();
        let mut inwards_edges: Vec<Vec<usize>> = Vec::new();
        let mut k: usize = 0;
        while k < n
            invariant
                k <= n,
                n == self.nodes.len(),
                inwards_edges.len() == k,
                forall|j: int| 0 <= j < k ==> (#[trigger] inwards_edges@[j])@.len() == 0,
            decreases n - k,
        {
            inwards_edges.push(Vec::new());
            k = k + 1;
        }
        assert forall|j: int| 0 <= j < n implies as_ints(#[trigger] inwards_edges@[j]@) == adjacency_upto(nv, 0, j) by {
            assert(as_ints(inwards_edges@[j]@) =~= Seq::<int>::empty());
        }
        let mut i: usize = 0;
        while i < n
            invariant
                i <= n,
                n == self.nodes.len(),
                nv == self@.nodes,
                refs_resolve(nv),
                is_id_map(id_map@, nv),
                inwards_edges.len() == n,
                forall|j: int| 0 <= j < n ==> as_ints(#[trigger] inwards_edges@[j]@) == adjacency_upto(nv, i as int, j),
            decreases n - i,
        {
            let node_id = self.nodes[i].0;
            proof {
                lemma_last_index_of(nv, node_id);
                assert(nv[i as int].0 == node_id);
            }
            let node_index = match fx_map_get(&id_map, &node_id) {
                Some(x) => x,
                None => { proof { assert(false); } 0 },
            };
            let ghost before = inwards_edges@;
            let ghost refs = node_refs(nv[i as int].1);
            let ghost targets = ref_indices(nv, i as int);
            let ghost base = as_ints(inwards_edges@[node_index as int]@);
            proof {
                assert(nv[i as int] == crate::proto::entry_view(self.nodes@[i as int]));
            }
            let mut cnt: usize = 0;
            match &self.nodes[i].1.input {
                ProtoNodeInput::Node(ref_id) | ProtoNodeInput::NodeLambda(ref_id) => {
                    proof {
                        assert(refs[0] == *ref_id);
                        assert(0 <= 0 < refs.len());
                        assert(last_index_of(nv, refs[0]) >= 0);
                    }
                    let target = match fx_map_get(&id_map, ref_id) {
                        Some(x) => x,
                        None => { proof { assert(false); } 0 },
                    };
                    inwards_edges[node_index].push(target);
                    cnt = 1;
                    proof {
                        assert(as_ints(inwards_edges@[node_index as int]@) =~= base + targets.take(1));
                    }
                },
                _ => {
                    proof {
                        assert(as_ints(inwards_edges@[node_index as int]@) =~= base + targets.take(0));
                    }
                },
            }
            assert(cnt as int == input_ref(nv[i as int].1.input).len());
            assert(as_ints(inwards_edges@[node_index as int]@) == base + targets.take(cnt as int));
            assert(forall|j: int| 0 <= j < n && j != node_index ==> inwards_edges@[j] == before[j]);
            match &self.nodes[i].1.construction_args {
                ConstructionArgs::Nodes(ref_nodes) => {
                    let mut t: usize = 0;
                    while t < ref_nodes.len()
                        invariant
                            t <= ref_nodes.len(),
                            ref_nodes@ == (match nv[i as int].1.construction_args {
                                ConstructionArgsView::Nodes(v) => v,
                                _ => Seq::empty(),
                            }),
                            cnt as int == input_ref(nv[i as int].1.input).len(),
                            refs == node_refs(nv[i as int].1),
                            targets == ref_indices(nv, i as int),
                            refs.len() == cnt + ref_nodes.len(),
                            0 <= i < n,
                            n == self.nodes.len(),
                            nv == self@.nodes,
                            refs_resolve(nv),
                            is_id_map(id_map@, nv),
                            node_index < n,
                            inwards_edges.len() == n,
                            forall|j: int| 0 <= j < n && j != node_index ==> inwards_edges@[j] == before[j],
                            as_ints(inwards_edges@[node_index as int]@) == base + targets.take(cnt + t),
                        decreases ref_nodes.len() - t,
                    {
                        let (ref_id, _) = ref_nodes[t];
                        proof {
                            assert(refs[cnt + t] == ref_id);
                            assert(last_index_of(nv, refs[cnt + t]) >= 0);
                        }
                        let target = match fx_map_get(&id_map, &ref_id) {
                            Some(x) => x,
                            None => { proof { assert(false); } 0 },
                        };
                        let ghost prev = inwards_edges@[node_index as int]@;
                        inwards_edges[node_index].push(target);
                        proof {
                            assert(inwards_edges@[node_index as int]@ == prev.push(target));
                            assert(as_ints(prev.push(target)) =~= as_ints(prev).push(target as int));
                            assert(targets[cnt + t] == target as int);
                            assert(targets.take(cnt + t + 1) =~= targets.take(cnt + t).push(target as int));
                            assert(as_ints(inwards_edges@[node_index as int]@) =~= base + targets.take(cnt + t + 1));
                        }
                        t = t + 1;
                    }
                    proof {
                        assert(targets.take(cnt + t) =~= targets);
                    }
                },
                _ => {
                    proof {
                        assert(refs.len() == cnt);
                        assert(targets.take(cnt as int) =~= targets);
                    }
                },
            }
            proof {
                assert(as_ints(inwards_edges@[node_index as int]@) == base + targets);
                assert(node_index as int == last_index_of(nv, nv[i as int].0));
                assert forall|j: int| 0 <= j < n implies as_ints(#[trigger] inwards_edges@[j]@) == adjacency_upto(nv, i + 1, j) by {
                    if j != node_index {
                        assert(inwards_edges@[j] == before[j]);
                    }
                    lemma_adjacency_step(nv, i as int, j);
                }
            }
            i = i + 1;
        }
        (inwards_edges, id_map)
    }
}

/// The visiting state of a node during the depth-first search.
#[derive(Clone, Copy, PartialEq, Eq, Structural)]
pub enum NodeState {
    Unvisited,
    Visiting,
    Visited,
}

/// The weight of one node state: two before the visit, one during it, none after.
pub open spec fn state_weight_of(x: NodeState) -> nat {
    match x {
        NodeState::Unvisited => 2,
        NodeState::Visiting => 1,
        NodeState::Visited => 0,
    }
}

/// The total weight of the node states; every step of the search lowers it or
/// shortens the stack.
pub open spec fn state_weight(st: Seq<NodeState>) -> nat
    decreases st.len(),
{
    if st.len() == 0 {
        0
    } else {
        state_weight(st.drop_last()) + state_weight_of(st.last())
    }
}

pub proof fn lemma_state_weight_update(st: Seq<NodeState>, v: int, x: NodeState)
    requires
        0 <= v < st.len(),
    ensures
        state_weight(st.update(v, x)) + state_weight_of(st[v]) == state_weight(st) + state_weight_of(x),
    decreases st.len(),
{
    let u = st.update(v, x);
    if v == st.len() - 1 {
        assert(u.drop_last() =~= st.drop_last());
    } else {
        lemma_state_weight_update(st.drop_last(), v, x);
        assert(u.drop_last() =~= st.drop_last().update(v, x));
    }
}

/// The depth-first search from a state: node states `st`, stack `s` and the
/// finished nodes `so`. The top of the stack is visited when it was not yet:
/// its dependencies are then scanned (see `dfs_scan`); it is finished when it
/// is being visited; it is dropped when it was finished. The result is the
/// finished nodes in finishing order once the stack is empty, or the node found
/// on a cycle.
pub open spec fn dfs_run(g: Seq<Seq<int>>, st: Seq<NodeState>, s: Seq<int>, so: Seq<int>) -> Result<Seq<int>, int>
    decreases state_weight(st), s.len(), 0nat,
{
    if s.len() == 0 {
        Ok(so)
    } else if !(0 <= s.last() < st.len()) {
        Err(-1)
    } else {
        let v = s.last();
        match st[v] {
            NodeState::Unvisited => {
                proof {
                    lemma_state_weight_update(st, v, NodeState::Visiting);
                }
                dfs_scan(g, st.update(v, NodeState::Visiting), s, so, v, if 0 <= v < g.len() { g[v].len() } else { 0 })
            },
            NodeState::Visiting => {
                proof {
                    lemma_state_weight_update(st, v, NodeState::Visited);
                }
                dfs_run(g, st.update(v, NodeState::Visited), s.drop_last(), so.push(v))
            },
            NodeState::Visited => dfs_run(g, st, s.drop_last(), so),
        }
    }
}

/// The scan of the first `e` dependencies of `v`, from the last one down: a
/// dependency being visited closes a cycle, one not visited yet is pushed, a
/// finished one is skipped; then the search goes on (see `dfs_run`).
pub open spec fn dfs_scan(g: Seq<Seq<int>>, st: Seq<NodeState>, s: Seq<int>, so: Seq<int>, v: int, e: nat) -> Result<
    Seq<int>,
    int,
>
    decreases state_weight(st), s.len() + e + 1, e,
{
    if e == 0 || !(0 <= v < g.len()) || e > g[v].len() {
        dfs_run(g, st, s, so)
    } else {
        let d = g[v][e - 1];
        if !(0 <= d < st.len()) {
            Err(-1)
        } else {
            match st[d] {
                NodeState::Visiting => Err(d),
                NodeState::Unvisited => dfs_scan(g, st, s.push(d), so, v, (e - 1) as nat),
                NodeState::Visited => dfs_scan(g, st, s, so, v, (e - 1) as nat),
            }
        }
    }
}

/// The depth-first search of `g` from `root`, with every node not visited yet.
pub open spec fn dfs_order(g: Seq<Seq<int>>, root: int) -> Result<Seq<int>, int> {
    dfs_run(g, Seq::new(g.len(), |_i: int| NodeState::Unvisited), seq![root], Seq::empty())
}

/// Stack position `j` lies above the entry of chain element `k` and below the
/// entry of the next one (or the top of the stack).
spec fn in_seg(p: Seq<int>, slen: int, k: int, j: int) -> bool {
    p[k] < j && if k + 1 < p.len() {
        j < p[k + 1]
    } else {
        j < slen
    }
}

/// As `in_seg`, with the entry of the next chain element included.
spec fn in_seg_incl(p: Seq<int>, slen: int, k: int, j: int) -> bool {
    p[k] < j && if k + 1 < p.len() {
        j <= p[k + 1]
    } else {
        j < slen
    }
}

/// A dependency of chain element `k` is finished or still waits on the stack in its segment.
spec fn covered(st: Seq<NodeState>, s: Seq<int>, p: Seq<int>, k: int, d: int) -> bool {
    st[d] == NodeState::Visited || exists|j: int| #[trigger] in_seg_incl(p, s.len() as int, k, j) && s[j] == d
}

/// The state of the search: `st` the node states, `s` the stack, `c` the chain of
/// nodes being visited (each one a dependency of the previous), `p` the stack
/// positions of their entries and `so` the finished nodes in finishing order.
/// The dependencies of the last chain element below index `lo` may be uncovered.
spec fn dfs_inv(
    g: Seq<Seq<int>>,
    root: int,
    st: Seq<NodeState>,
    s: Seq<int>,
    c: Seq<int>,
    p: Seq<int>,
    so: Seq<int>,
    lo: int,
) -> bool {
    &&& dfs_core(g, root, st, s, c, p, so)
    &&& dfs_cover(g, st, s, c, p, lo)
}

/// Every dependency of a chain element is covered, except those of the last one below `lo`.
spec fn dfs_cover(g: Seq<Seq<int>>, st: Seq<NodeState>, s: Seq<int>, c: Seq<int>, p: Seq<int>, lo: int) -> bool {
    forall|k: int, e: int|
        0 <= k < c.len() && 0 <= e < g[c[k]].len() && (k == c.len() - 1 ==> e >= lo) ==> covered(
            st,
            s,
            p,
            k,
            #[trigger] g[c[k]][e],
        )
}

/// Everything in `dfs_inv` but the coverage of dependencies.
#[verifier::opaque]
spec fn dfs_core(
    g: Seq<Seq<int>>,
    root: int,
    st: Seq<NodeState>,
    s: Seq<int>,
    c: Seq<int>,
    p: Seq<int>,
    so: Seq<int>,
) -> bool {
    let n = g.len() as int;
    &&& well_formed_graph(g)
    &&& 0 <= root < n
    &&& st.len() == n
    &&& forall|j: int| 0 <= j < s.len() ==> 0 <= #[trigger] s[j] < n && reachable(g, root, s[j])
    &&& forall|v: int| 0 <= v < n && #[trigger] st[v] != NodeState::Unvisited ==> reachable(g, root, v)
    &&& c.len() == p.len()
    &&& forall|k: int|
        0 <= k < c.len() ==> 0 <= #[trigger] p[k] < s.len() && s[p[k]] == c[k] && st[c[k]]
            == NodeState::Visiting
    &&& forall|k1: int, k2: int| 0 <= k1 < k2 < c.len() ==> #[trigger] p[k1] < #[trigger] p[k2]
    &&& c.no_duplicates()
    &&& forall|v: int| 0 <= v < n && #[trigger] st[v] == NodeState::Visiting ==> c.contains(v)
    &&& c.len() > 0 ==> c[0] == root && p[0] == 0
    &&& forall|k: int| 0 <= k < c.len() - 1 ==> g[#[trigger] c[k]].contains(c[k + 1])
    &&& c.len() == 0 ==> ((s.len() == 0 && st[root] == NodeState::Visited) || (s.len() == 1
        && s[0] == root && st[root] == NodeState::Unvisited))
    &&& forall|k: int, j: int|
        0 <= k < c.len() && #[trigger] in_seg_incl(p, s.len() as int, k, j) ==> g[c[k]].contains(
            s[j],
        )
    &&& forall|k: int, j: int, m: int|
        0 <= m <= k < c.len() && #[trigger] in_seg(p, s.len() as int, k, j) ==> s[j] != #[trigger] c[m]
    &&& forall|v: int, e: int|
        0 <= v < n && st[v] == NodeState::Visited && 0 <= e < g[v].len() ==> st[#[trigger] g[v][e]]
            == NodeState::Visited
    &&& so.no_duplicates()
    &&& forall|q: int| 0 <= q < so.len() ==> 0 <= #[trigger] so[q] < n
    &&& forall|v: int| 0 <= v < n ==> (#[trigger] st[v] == NodeState::Visited <==> so.contains(v))
    &&& forall|q1: int, q2: int|
        0 <= q1 <= q2 < so.len() ==> !g[#[trigger] so[q1]].contains(#[trigger] so[q2])
    &&& so.len() + c.len() <= n
}

proof fn lemma_dfs_init(g: Seq<Seq<int>>, root: int, st: Seq<NodeState>)
    requires
        well_formed_graph(g),
        0 <= root < g.len(),
        st.len() == g.len(),
        forall|v: int| 0 <= v < st.len() ==> #[trigger] st[v] == NodeState::Unvisited,
    ensures
        dfs_inv(g, root, st, seq![root], Seq::empty(), Seq::empty(), Seq::empty(), 0),
{
    reveal(dfs_core);
    crate::graph::lemma_reachable_self(g, root);
    let s = seq![root];
    assert forall|j: int| 0 <= j < s.len() implies 0 <= #[trigger] s[j] < g.len() && reachable(g, root, s[j]) by {
        assert(s[j] == root);
    }
}

#[verifier::spinoff_prover]
#[verifier::rlimit(40)]
proof fn lemma_dfs_pop_visited(
    g: Seq<Seq<int>>,
    root: int,
    st: Seq<NodeState>,
    s: Seq<int>,
    c: Seq<int>,
    p: Seq<int>,
    so: Seq<int>,
)
    requires
        dfs_inv(g, root, st, s, c, p, so, 0),
        s.len() > 0,
        st[s.last()] == NodeState::Visited,
    ensures
        c.len() > 0,
        dfs_inv(g, root, st, s.drop_last(), c, p, so, 0),
{
    reveal(dfs_core);
    let t = s.len() - 1;
    let s2 = s.drop_last();
    if c.len() == 0 {
        assert(s[0] == root);
    }
    let last = c.len() - 1;
    assert(p[last] < t) by {
        if p[last] == t {
            assert(s[p[last]] == c[last]);
        }
    }
    assert forall|k: int| 0 <= k < c.len() implies 0 <= #[trigger] p[k] < s2.len() by {
        if k < last {
            assert(p[k] < p[last]);
        }
    }
    assert forall|k: int, j: int| 0 <= k < c.len() && #[trigger] in_seg_incl(p, s2.len() as int, k, j)
        implies g[c[k]].contains(s2[j]) by {
        assert(in_seg_incl(p, s.len() as int, k, j));
    }
    assert forall|k: int, j: int, m: int| 0 <= m <= k < c.len() && #[trigger] in_seg(p, s2.len() as int, k, j)
        implies s2[j] != #[trigger] c[m] by {
        assert(in_seg(p, s.len() as int, k, j));
    }
    assert forall|k: int, e: int|
        0 <= k < c.len() && 0 <= e < g[c[k]].len() implies covered(st, s2, p, k, #[trigger] g[c[k]][e]) by {
        let d = g[c[k]][e];
        assert(covered(st, s, p, k, d));
        if st[d] != NodeState::Visited {
            let j = choose|j: int| #[trigger] in_seg_incl(p, s.len() as int, k, j) && s[j] == d;
            if j == t {
                assert(s[t] == s.last());
            }
            assert(in_seg_incl(p, s2.len() as int, k, j));
            assert(s2[j] == d);
        }
    }
}

#[verifier::spinoff_prover]
#[verifier::rlimit(40)]
proof fn lemma_dfs_finish(
    g: Seq<Seq<int>>,
    root: int,
    st: Seq<NodeState>,
    s: Seq<int>,
    c: Seq<int>,
    p: Seq<int>,
    so: Seq<int>,
)
    requires
        dfs_inv(g, root, st, s, c, p, so, 0),
        s.len() > 0,
        st[s.last()] == NodeState::Visiting,
    ensures
        c.len() > 0,
        c.last() == s.last(),
        dfs_inv(
            g,
            root,
            st.update(s.last(), NodeState::Visited),
            s.drop_last(),
            c.drop_last(),
            p.drop_last(),
            so.push(s.last()),
            0,
        ),
{
    reveal(dfs_core);
    let n = g.len() as int;
    let t = s.len() - 1;
    let y = s[t];
    assert(c.contains(y));
    let m0 = choose|m: int| 0 <= m < c.len() && c[m] == y;
    let last = c.len() - 1;
    assert(p[last] == t) by {
        if p[last] < t {
            assert(in_seg(p, s.len() as int, last, t));
            assert(s[t] != c[m0]);
        }
    }
    assert(c[last] == y);
    let st2 = st.update(y, NodeState::Visited);
    let s2 = s.drop_last();
    let c2 = c.drop_last();
    let p2 = p.drop_last();
    let so2 = so.push(y);
    // every dependency of y is finished
    assert forall|e: int| 0 <= e < g[y].len() implies st[#[trigger] g[y][e]] == NodeState::Visited by {
        assert(covered(st, s, p, last, g[c[last]][e]));
        let d = g[y][e];
        if st[d] != NodeState::Visited {
            let j = choose|j: int| #[trigger] in_seg_incl(p, s.len() as int, last, j) && s[j] == d;
            assert(false);
        }
    }
    assert forall|k: int| 0 <= k < c2.len() implies 0 <= #[trigger] p2[k] < s2.len() && s2[p2[k]]
        == c2[k] && st2[c2[k]] == NodeState::Visiting by {
        assert(p[k] < p[last]);
        assert(c[k] != c[last]);
    }
    assert forall|v: int| 0 <= v < n && #[trigger] st2[v] == NodeState::Visiting implies c2.contains(v) by {
        assert(c.contains(v));
        let m = choose|m: int| 0 <= m < c.len() && c[m] == v;
        assert(m != last);
        assert(c2[m] == v);
    }
    assert forall|k: int, j: int| 0 <= k < c2.len() && #[trigger] in_seg_incl(p2, s2.len() as int, k, j)
        implies g[c2[k]].contains(s2[j]) by {
        assert(in_seg_incl(p, s.len() as int, k, j));
    }
    assert forall|k: int, j: int, m: int| 0 <= m <= k < c2.len() && #[trigger] in_seg(p2, s2.len() as int, k, j)
        implies s2[j] != #[trigger] c2[m] by {
        assert(in_seg(p, s.len() as int, k, j));
    }
    assert forall|k: int, e: int| 0 <= k < c2.len() && 0 <= e < g[c2[k]].len() implies covered(
        st2,
        s2,
        p2,
        k,
        #[trigger] g[c2[k]][e],
    ) by {
        let d = g[c[k]][e];
        assert(covered(st, s, p, k, d));
        if st2[d] != NodeState::Visited {
            let j = choose|j: int| #[trigger] in_seg_incl(p, s.len() as int, k, j) && s[j] == d;
            assert(j != t);
            assert(in_seg_incl(p2, s2.len() as int, k, j));
            assert(s2[j] == d);
        }
    }
    assert forall|v: int, e: int| 0 <= v < n && st2[v] == NodeState::Visited && 0 <= e < g[v].len()
        implies st2[#[trigger] g[v][e]] == NodeState::Visited by {
        if v != y {
            assert(st[v] == NodeState::Visited);
        }
    }
    assert(!so.contains(y));
    assert forall|v: int| 0 <= v < n implies (#[trigger] st2[v] == NodeState::Visited <==> so2.contains(v)) by {
        if so.contains(v) {
            let q = choose|q: int| 0 <= q < so.len() && so[q] == v;
            assert(so2[q] == v);
        }
        if so2.contains(v) && v != y {
            let q = choose|q: int| 0 <= q < so2.len() && so2[q] == v;
            assert(so[q] == v);
        }
        if v == y {
            assert(so2[so.len() as int] == y);
        }
    }
    assert forall|q1: int, q2: int| 0 <= q1 <= q2 < so2.len() implies !g[#[trigger] so2[q1]].contains(
        #[trigger] so2[q2],
    ) by {
        if q2 == so.len() {
            if q1 < q2 {
                let v = so[q1];
                assert(st[v] == NodeState::Visited);
                if g[v].contains(y) {
                    let e = choose|e: int| 0 <= e < g[v].len() && g[v][e] == y;
                    assert(st[g[v][e]] == NodeState::Visited);
                }
            } else {
                if g[y].contains(y) {
                    let e = choose|e: int| 0 <= e < g[y].len() && g[y][e] == y;
                    assert(st[g[y][e]] == NodeState::Visited);
                }
            }
        } else {
            assert(so2[q1] == so[q1] && so2[q2] == so[q2]);
        }
    }
    assert forall|k: int| 0 <= k < c2.len() - 1 implies g[#[trigger] c2[k]].contains(c2[k + 1]) by {
        assert(g[c[k]].contains(c[k + 1]));
    }
    assert forall|k1: int, k2: int| 0 <= k1 < k2 < c2.len() implies #[trigger] p2[k1] < #[trigger] p2[k2] by {
        assert(p[k1] < p[k2]);
    }
    assert forall|v: int| 0 <= v < n && #[trigger] st2[v] != NodeState::Unvisited implies reachable(g, root, v) by {
        if v != y {
            assert(st[v] != NodeState::Unvisited);
        }
    }
    if c2.len() == 0 {
        assert(c.len() == 1);
        assert(y == root);
        assert(p[0] == 0);
    }
}

#[verifier::spinoff_prover]
#[verifier::rlimit(40)]
proof fn lemma_dfs_expand(
    g: Seq<Seq<int>>,
    root: int,
    st: Seq<NodeState>,
    s: Seq<int>,
    c: Seq<int>,
    p: Seq<int>,
    so: Seq<int>,
)
    requires
        dfs_inv(g, root, st, s, c, p, so, 0),
        s.len() > 0,
        st[s.last()] == NodeState::Unvisited,
    ensures
        dfs_inv(
            g,
            root,
            st.update(s.last(), NodeState::Visiting),
            s,
            c.push(s.last()),
            p.push(s.len() - 1),
            so,
            g[s.last()].len() as int,
        ),
{
    reveal(dfs_core);
    let n = g.len() as int;
    let t = s.len() - 1;
    let y = s[t];
    let st2 = st.update(y, NodeState::Visiting);
    let c2 = c.push(y);
    let p2 = p.push(t);
    let last = c.len() - 1;
    assert(!c.contains(y)) by {
        if c.contains(y) {
            let m = choose|m: int| 0 <= m < c.len() && c[m] == y;
            assert(st[c[m]] == NodeState::Visiting);
        }
    }
    assert(!so.contains(y));
    if c.len() > 0 {
        assert(p[last] < t) by {
            if p[last] == t {
                assert(s[p[last]] == c[last]);
            }
        }
        assert(in_seg_incl(p, s.len() as int, last, t));
        assert(g[c[last]].contains(y));
    } else {
        assert(y == root);
    }
    assert forall|k: int| 0 <= k < c2.len() implies 0 <= #[trigger] p2[k] < s.len() && s[p2[k]]
        == c2[k] && st2[c2[k]] == NodeState::Visiting by {
        if k < c.len() {
            assert(c[k] != y);
        }
    }
    assert forall|k1: int, k2: int| 0 <= k1 < k2 < c2.len() implies #[trigger] p2[k1] < #[trigger] p2[k2] by {
        if k2 < c.len() {
            assert(p[k1] < p[k2]);
        } else {
            assert(p[k1] <= p[last]);
        }
    }
    assert forall|v: int| 0 <= v < n && #[trigger] st2[v] == NodeState::Visiting implies c2.contains(v) by {
        if v == y {
            assert(c2[c.len() as int] == y);
        } else {
            assert(c.contains(v));
            let m = choose|m: int| 0 <= m < c.len() && c[m] == v;
            assert(c2[m] == v);
        }
    }
    assert forall|k: int| 0 <= k < c2.len() - 1 implies g[#[trigger] c2[k]].contains(c2[k + 1]) by {
        if k < c.len() - 1 {
            assert(g[c[k]].contains(c[k + 1]));
        }
    }
    assert forall|k: int, j: int| 0 <= k < c2.len() && #[trigger] in_seg_incl(p2, s.len() as int, k, j)
        implies g[c2[k]].contains(s[j]) by {
        if k < c.len() {
            assert(in_seg_incl(p, s.len() as int, k, j));
        }
    }
    assert forall|k: int, j: int, m: int| 0 <= m <= k < c2.len() && #[trigger] in_seg(p2, s.len() as int, k, j)
        implies s[j] != #[trigger] c2[m] by {
        if k < c.len() {
            assert(in_seg(p, s.len() as int, k, j));
            if m < c.len() {
                assert(c2[m] == c[m]);
            }
        }
    }
    assert forall|k: int, e: int|
        0 <= k < c2.len() && 0 <= e < g[c2[k]].len() && (k == c2.len() - 1 ==> e >= g[y].len())
        implies covered(st2, s, p2, k, #[trigger] g[c2[k]][e]) by {
        let d = g[c[k]][e];
        assert(covered(st, s, p, k, d));
        if st[d] != NodeState::Visited {
            let j = choose|j: int| #[trigger] in_seg_incl(p, s.len() as int, k, j) && s[j] == d;
            assert(in_seg_incl(p2, s.len() as int, k, j));
        }
    }
    assert forall|v: int, e: int| 0 <= v < n && st2[v] == NodeState::Visited && 0 <= e < g[v].len()
        implies st2[#[trigger] g[v][e]] == NodeState::Visited by {
        assert(st[v] == NodeState::Visited);
        assert(st[g[v][e]] == NodeState::Visited);
    }
    assert forall|v: int| 0 <= v < n implies (#[trigger] st2[v] == NodeState::Visited <==> so.contains(v)) by {
        if v != y {
            assert(st2[v] == st[v]);
        }
    }
    assert forall|v: int| 0 <= v < n && #[trigger] st2[v] != NodeState::Unvisited implies reachable(g, root, v) by {
        if v != y {
            assert(st[v] != NodeState::Unvisited);
        }
    }
    // the finished nodes and the chain are distinct nodes of the graph
    let all = so + c2;
    assert(all.no_duplicates()) by {
        assert forall|i: int, j: int| 0 <= i < all.len() && 0 <= j < all.len() && i != j implies all[i] != all[j] by {
            if i < so.len() && j < so.len() {
            } else if i >= so.len() && j >= so.len() {
                assert(c2[i - so.len()] != c2[j - so.len()]) by {
                    if i - so.len() < c.len() && j - so.len() < c.len() {
                    } else if i - so.len() < c.len() {
                        assert(c.contains(c[i - so.len()]));
                    } else {
                        assert(c.contains(c[j - so.len()]));
                    }
                }
            } else if i < so.len() {
                let x = so[i];
                assert(st[x] == NodeState::Visited);
                let k = j - so.len();
                if k < c.len() {
                    assert(st[c[k]] == NodeState::Visiting);
                }
            } else {
                let x = so[j];
                assert(st[x] == NodeState::Visited);
                let k = i - so.len();
                if k < c.len() {
                    assert(st[c[k]] == NodeState::Visiting);
                }
            }
        }
    }
    assert forall|i: int| 0 <= i < all.len() implies 0 <= #[trigger] all[i] < n by {
        if i < so.len() {
            assert(all[i] == so[i]);
        } else {
            let k = i - so.len();
            if k < c.len() {
                assert(s[p[k]] == c[k]);
            }
        }
    }
    crate::graph::lemma_distinct_nodes_bounded(all, n);
}

#[verifier::spinoff_prover]
#[verifier::rlimit(40)]
proof fn lemma_dfs_skip_dep(
    g: Seq<Seq<int>>,
    root: int,
    st: Seq<NodeState>,
    s: Seq<int>,
    c: Seq<int>,
    p: Seq<int>,
    so: Seq<int>,
    lo: int,
)
    requires
        dfs_inv(g, root, st, s, c, p, so, lo),
        c.len() > 0,
        0 < lo <= g[c.last()].len(),
        st[g[c.last()][lo - 1]] == NodeState::Visited,
    ensures
        dfs_inv(g, root, st, s, c, p, so, lo - 1),
{
    let last = c.len() - 1;
    assert forall|k: int, e: int|
        0 <= k < c.len() && 0 <= e < g[c[k]].len() && (k == c.len() - 1 ==> e >= lo - 1)
        implies covered(st, s, p, k, #[trigger] g[c[k]][e]) by {
        if k == last && e == lo - 1 {
            assert(g[c[k]][e] == g[c.last()][lo - 1]);
        }
    }
}

#[verifier::spinoff_prover]
#[verifier::rlimit(40)]
proof fn lemma_dfs_push_dep(
    g: Seq<Seq<int>>,
    root: int,
    st: Seq<NodeState>,
    s: Seq<int>,
    c: Seq<int>,
    p: Seq<int>,
    so: Seq<int>,
    lo: int,
)
    requires
        dfs_inv(g, root, st, s, c, p, so, lo),
        c.len() > 0,
        0 < lo <= g[c.last()].len(),
        st[g[c.last()][lo - 1]] == NodeState::Unvisited,
    ensures
        dfs_inv(g, root, st, s.push(g[c.last()][lo - 1]), c, p, so, lo - 1),
{
    reveal(dfs_core);
    let n = g.len() as int;
    let last = c.len() - 1;
    let y = c[last];
    let d = g[y][lo - 1];
    let s2 = s.push(d);
    let t = s.len() as int;
    assert(g[y].contains(d));
    assert(reachable(g, root, y)) by {
        assert(s[p[last]] == y);
    }
    crate::graph::lemma_reachable_step(g, root, y, d);
    assert forall|j: int| 0 <= j < s2.len() implies 0 <= #[trigger] s2[j] < n && reachable(g, root, s2[j]) by {
        if j < s.len() {
            assert(s2[j] == s[j]);
        }
    }
    assert forall|k: int| 0 <= k < c.len() implies 0 <= #[trigger] p[k] < s2.len() && s2[p[k]] == c[k]
        && st[c[k]] == NodeState::Visiting by {
        assert(s2[p[k]] == s[p[k]]);
    }
    assert forall|k: int, j: int| 0 <= k < c.len() && #[trigger] in_seg_incl(p, s2.len() as int, k, j)
        implies g[c[k]].contains(s2[j]) by {
        if j < t {
            assert(in_seg_incl(p, s.len() as int, k, j));
            assert(s2[j] == s[j]);
        } else {
            if k < last {
                assert(p[k + 1] <= p[last]);
            }
        }
    }
    assert forall|k: int, j: int, m: int| 0 <= m <= k < c.len() && #[trigger] in_seg(p, s2.len() as int, k, j)
        implies s2[j] != #[trigger] c[m] by {
        if j < t {
            assert(in_seg(p, s.len() as int, k, j));
            assert(s2[j] == s[j]);
        } else {
            assert(st[c[m]] == NodeState::Visiting);
        }
    }
    assert forall|k: int, e: int|
        0 <= k < c.len() && 0 <= e < g[c[k]].len() && (k == c.len() - 1 ==> e >= lo - 1)
        implies covered(st, s2, p, k, #[trigger] g[c[k]][e]) by {
        let x = g[c[k]][e];
        if k == last && e == lo - 1 {
            assert(in_seg_incl(p, s2.len() as int, k, t));
            assert(s2[t] == x);
        } else {
            assert(covered(st, s, p, k, x));
            if st[x] != NodeState::Visited {
                let j = choose|j: int| #[trigger] in_seg_incl(p, s.len() as int, k, j) && s[j] == x;
                assert(in_seg_incl(p, s2.len() as int, k, j));
                assert(s2[j] == x);
            }
        }
    }
}

/// A dependency of the last chain element that is itself being visited closes a cycle.
proof fn lemma_dfs_cycle(
    g: Seq<Seq<int>>,
    root: int,
    st: Seq<NodeState>,
    s: Seq<int>,
    c: Seq<int>,
    p: Seq<int>,
    so: Seq<int>,
    lo: int,
    d: int,
)
    requires
        dfs_inv(g, root, st, s, c, p, so, lo),
        c.len() > 0,
        g[c.last()].contains(d),
        0 <= d < g.len(),
        st[d] == NodeState::Visiting,
    ensures
        has_cycle_from(g, root),
        reachable(g, root, d),
        on_cycle(g, d),
{
    reveal(dfs_core);
    let q = c.push(d);
    assert(c.contains(d));
    let m = choose|m: int| 0 <= m < c.len() && c[m] == d;
    assert forall|i: int| 0 <= i < q.len() implies 0 <= #[trigger] q[i] < g.len() by {
        if i < c.len() {
            assert(s[p[i]] == c[i]);
        }
    }
    assert forall|i: int| 0 <= i < q.len() - 1 implies g[q[i]].contains(#[trigger] q[i + 1]) by {
        if i < c.len() - 1 {
            assert(g[c[i]].contains(c[i + 1]));
        }
    }
    assert(is_path(g, q));
    assert(q[m] == q[c.len() as int]);
    assert(has_cycle_from(g, root));
    let r = q.subrange(m, q.len() as int);
    assert forall|i: int| 0 <= i < r.len() - 1 implies g[r[i]].contains(#[trigger] r[i + 1]) by {
        assert(r[i] == q[m + i] && r[i + 1] == q[m + i + 1]);
    }
    assert(is_path(g, r));
    assert(r.last() == d && r[0] == d);
    assert(st[d] != NodeState::Unvisited);
}

proof fn lemma_dfs_facts(
    g: Seq<Seq<int>>,
    root: int,
    st: Seq<NodeState>,
    s: Seq<int>,
    c: Seq<int>,
    p: Seq<int>,
    so: Seq<int>,
    lo: int,
)
    requires
        dfs_inv(g, root, st, s, c, p, so, lo),
    ensures
        well_formed_graph(g),
        0 <= root < g.len(),
        st.len() == g.len(),
        forall|j: int| 0 <= j < s.len() ==> 0 <= #[trigger] s[j] < g.len(),
        forall|q: int| 0 <= q < so.len() ==> 0 <= #[trigger] so[q] < g.len(),
        so.len() + c.len() <= g.len(),
        c.len() == p.len(),
        c.len() > 0 ==> 0 <= p.last() < s.len() && s[p.last()] == c.last(),
{
    reveal(dfs_core);
}

/// When the stack is empty, the finished nodes form a topological order.
proof fn lemma_dfs_done(
    g: Seq<Seq<int>>,
    root: int,
    st: Seq<NodeState>,
    s: Seq<int>,
    c: Seq<int>,
    p: Seq<int>,
    so: Seq<int>,
)
    requires
        dfs_inv(g, root, st, s, c, p, so, 0),
        s.len() == 0,
    ensures
        is_topological_order(g, root, so),
{
    reveal(dfs_core);
    let n = g.len() as int;
    if c.len() > 0 {
        assert(0 <= p[0] < s.len());
    }
    assert(st[root] == NodeState::Visited);
    let fin = Set::new(|v: int| 0 <= v < n && st[v] == NodeState::Visited);
    assert forall|v: int| so.contains(v) <==> (0 <= v < n && reachable(g, root, v)) by {
        if so.contains(v) {
            let q = choose|q: int| 0 <= q < so.len() && so[q] == v;
            assert(0 <= so[q] < n);
            assert(st[v] == NodeState::Visited);
        }
        if 0 <= v < n && reachable(g, root, v) {
            assert forall|x: int, e: int| fin.contains(x) && 0 <= x < g.len() && 0 <= e < g[x].len()
                implies fin.contains(#[trigger] g[x][e]) by {
                assert(st[g[x][e]] == NodeState::Visited);
            }
            crate::graph::lemma_closed_holds_reachable(g, root, fin, v);
        }
    }
}

/// The text of the error for a cycle through the node with the given id.
pub open spec fn cycle_message(id: NodeId) -> Seq<char> {
    "Cycle detected involving node "@ + crate::text::decimal_text(id.0 as nat)
}

/// The positions named by a list of node ids.
pub open spec fn id_positions(ids: Seq<NodeId>) -> Seq<int> {
    ids.map_values(|x: NodeId| x.0 as int)
}

/// When no cycle can be reached, the search from a state of the search ends
/// with a topological order.
proof fn lemma_dfs_run_sound(
    g: Seq<Seq<int>>,
    root: int,
    st: Seq<NodeState>,
    s: Seq<int>,
    c: Seq<int>,
    p: Seq<int>,
    so: Seq<int>,
)
    requires
        dfs_inv(g, root, st, s, c, p, so, 0),
        !has_cycle_from(g, root),
    ensures
        dfs_run(g, st, s, so) is Ok,
        is_topological_order(g, root, dfs_run(g, st, s, so)->Ok_0),
    decreases state_weight(st), s.len(), 0nat,
{
    lemma_dfs_facts(g, root, st, s, c, p, so, 0);
    if s.len() == 0 {
        lemma_dfs_done(g, root, st, s, c, p, so);
    } else {
        let v = s.last();
        assert(0 <= s[s.len() - 1] < g.len());
        match st[v] {
            NodeState::Unvisited => {
                lemma_state_weight_update(st, v, NodeState::Visiting);
                lemma_dfs_expand(g, root, st, s, c, p, so);
                lemma_dfs_scan_sound(
                    g,
                    root,
                    st.update(v, NodeState::Visiting),
                    s,
                    c.push(v),
                    p.push(s.len() - 1),
                    so,
                    v,
                    g[v].len(),
                );
            },
            NodeState::Visiting => {
                lemma_state_weight_update(st, v, NodeState::Visited);
                lemma_dfs_finish(g, root, st, s, c, p, so);
                lemma_dfs_run_sound(
                    g,
                    root,
                    st.update(v, NodeState::Visited),
                    s.drop_last(),
                    c.drop_last(),
                    p.drop_last(),
                    so.push(v),
                );
            },
            NodeState::Visited => {
                lemma_dfs_pop_visited(g, root, st, s, c, p, so);
                lemma_dfs_run_sound(g, root, st, s.drop_last(), c, p, so);
            },
        }
    }
}

/// When no cycle can be reached, the scan of the dependencies of the node
/// being visited goes on to a topological order.
proof fn lemma_dfs_scan_sound(
    g: Seq<Seq<int>>,
    root: int,
    st: Seq<NodeState>,
    s: Seq<int>,
    c: Seq<int>,
    p: Seq<int>,
    so: Seq<int>,
    v: int,
    e: nat,
)
    requires
        dfs_inv(g, root, st, s, c, p, so, e as int),
        c.len() > 0,
        c.last() == v,
        e <= g[v].len(),
        !has_cycle_from(g, root),
    ensures
        dfs_scan(g, st, s, so, v, e) is Ok,
        is_topological_order(g, root, dfs_scan(g, st, s, so, v, e)->Ok_0),
    decreases state_weight(st), s.len() + e + 1, e,
{
    lemma_dfs_facts(g, root, st, s, c, p, so, e as int);
    assert(0 <= c[c.len() - 1] < g.len()) by {
        assert(s[p.last()] == c.last());
    }
    if e == 0 {
        lemma_dfs_run_sound(g, root, st, s, c, p, so);
    } else {
        let d = g[v][e - 1];
        assert(0 <= d < g.len());
        match st[d] {
            NodeState::Visiting => {
                assert(g[c.last()].contains(d));
                lemma_dfs_cycle(g, root, st, s, c, p, so, e as int, d);
            },
            NodeState::Unvisited => {
                lemma_dfs_push_dep(g, root, st, s, c, p, so, e as int);
                lemma_dfs_scan_sound(g, root, st, s.push(d), c, p, so, v, (e - 1) as nat);
            },
            NodeState::Visited => {
                lemma_dfs_skip_dep(g, root, st, s, c, p, so, e as int);
                lemma_dfs_scan_sound(g, root, st, s, c, p, so, v, (e - 1) as nat);
            },
        }
    }
}

/// When no cycle can be reached from `root`, the depth-first search from it
/// ends with a topological order.
pub proof fn lemma_dfs_order_sound(g: Seq<Seq<int>>, root: int)
    requires
        well_formed_graph(g),
        0 <= root < g.len(),
        !has_cycle_from(g, root),
    ensures
        dfs_order(g, root) is Ok,
        is_topological_order(g, root, dfs_order(g, root)->Ok_0),
{
    let st = Seq::new(g.len(), |_i: int| NodeState::Unvisited);
    lemma_dfs_init(g, root, st);
    lemma_dfs_run_sound(g, root, st, seq![root], Seq::empty(), Seq::empty(), Seq::empty());
}

impl ProtoNetwork {
    /// Sorts the nodes that the output depends on, directly or not, so that each
    /// comes after all of its dependencies (a depth-first search from the output).
    /// Returns the sorted positions and the map from ids to positions, or an error
    /// when a cycle can be reached from the output.
    pub fn topological_sort(&self) -> (r: Result<(Vec<NodeId>, FxHashMap<NodeId, usize>), String>)
        requires
            is_resolvable(self@),
        ensures
            r is Ok <==> !has_cycle_from(network_graph(self@.nodes), output_index(self@)),
            r matches Ok((sorted, id_map)) ==> is_topological_order(
                network_graph(self@.nodes),
                output_index(self@),
                id_positions(sorted@),
            ) && is_id_map(id_map@, self@.nodes),
            r matches Ok((sorted, _)) ==> dfs_order(network_graph(self@.nodes), output_index(self@)) == Ok::<
                Seq<int>,
                int,
            >(id_positions(sorted@)),
            r matches Err(msg) ==> dfs_order(network_graph(self@.nodes), output_index(self@)) matches Err(d) && 0
                <= d < self@.nodes.len() && reachable(network_graph(self@.nodes), output_index(self@), d) && on_cycle(
                network_graph(self@.nodes),
                d,
            ) && msg@ == cycle_message(self@.nodes[d].0),
    {
        let ghost nv = self@.nodes;
        let ghost g = network_graph(nv);
        let ghost root_i = output_index(self@);
        proof {
            lemma_network_graph_well_formed(nv);
            lemma_last_index_of(nv, self.output);
        }
        let (inwards_edges, id_map) = self.collect_inwards_edges_with_mapping();
        let n = self.nodes.len();
        let root = match fx_map_get(&id_map, &self.output) {
            Some(x) => x,
            None => { proof { assert(false); } 0 },
        };
        let mut sorted: Vec<NodeId> = Vec::with_capacity(n);
        let mut stack: Vec<usize> = Vec::new();
        stack.push(root);
        let mut state: Vec<NodeState> = Vec::new();
        let mut k: usize = 0;
        while k < n
            invariant
                k <= n,
                state.len() == k,
                forall|v: int| 0 <= v < k ==> #[trigger] state@[v] == NodeState::Unvisited,
            decreases n - k,
        {
            state.push(NodeState::Unvisited);
            k = k + 1;
        }
        let ghost mut c: Seq<int> = Seq::empty();
        let ghost mut p: Seq<int> = Seq::empty();
        proof {
            assert(as_ints(stack@) =~= seq![root as int]);
            assert(id_positions(sorted@) =~= Seq::<int>::empty());
            assert(state@ =~= Seq::new(g.len(), |_i: int| NodeState::Unvisited));
            lemma_dfs_init(g, root as int, state@);
        }
        while stack.len() > 0
            invariant
                n == self.nodes.len(),
                nv == self@.nodes,
                g == network_graph(nv),
                g.len() == n,
                root == root_i,
                root_i == output_index(self@),
                inwards_edges.len() == n,
                forall|v: int| 0 <= v < n ==> as_ints(#[trigger] inwards_edges@[v]@) == g[v],
                dfs_inv(g, root as int, state@, as_ints(stack@), c, p, id_positions(sorted@), 0),
                dfs_run(g, state@, as_ints(stack@), id_positions(sorted@)) == dfs_order(g, root_i),
            decreases n - sorted.len() - c.len(), c.len(), stack.len(),
        {
            proof {
                lemma_dfs_facts(g, root as int, state@, as_ints(stack@), c, p, id_positions(sorted@), 0);
            }
            let top = stack.len() - 1;
            let node_index = stack[top];
            proof {
                assert(as_ints(stack@)[top as int] == node_index as int);
                assert(as_ints(stack@).last() == node_index as int);
            }
            match state[node_index] {
                NodeState::Unvisited => {
                    proof {
                        lemma_dfs_expand(g, root as int, state@, as_ints(stack@), c, p, id_positions(sorted@));
                    }
                    state.set(node_index, NodeState::Visiting);
                    proof {
                        c = c.push(node_index as int);
                        p = p.push(top as int);
                    }
                    let deps = &inwards_edges[node_index];
                    let mut e = deps.len();
                    while e > 0
                        invariant
                            e <= deps.len(),
                            as_ints(deps@) == g[node_index as int],
                            c.len() > 0,
                            c.last() == node_index as int,
                            n == self.nodes.len(),
                            nv == self@.nodes,
                            g == network_graph(nv),
                            g.len() == n,
                            root == root_i,
                root_i == output_index(self@),
                            dfs_inv(g, root as int, state@, as_ints(stack@), c, p, id_positions(sorted@), e as int),
                            dfs_scan(g, state@, as_ints(stack@), id_positions(sorted@), node_index as int, e as nat)
                                == dfs_order(g, root_i),
                        decreases e,
                    {
                        proof {
                            lemma_dfs_facts(g, root as int, state@, as_ints(stack@), c, p, id_positions(sorted@), e as int);
                        }
                        let dep_index = deps[e - 1];
                        proof {
                            assert(as_ints(deps@)[e - 1] == dep_index as int);
                            assert(g[c.last()][e - 1] == dep_index as int);
                            assert(0 <= dep_index < n);
                        }
                        match state[dep_index] {
                            NodeState::Visiting => {
                                proof {
                                    assert(g[c.last()].contains(dep_index as int));
                                    lemma_dfs_cycle(g, root as int, state@, as_ints(stack@), c, p, id_positions(sorted@), e as int, dep_index as int);
                                }
                                let mut msg = String::new();
                                msg.append("Cycle detected involving node ");
                                msg.append(crate::text::decimal_string(self.nodes[dep_index].0.0).as_str());
                                proof {
                                    reveal_strlit("Cycle detected involving node ");
                                    assert(nv[dep_index as int].0 == self.nodes@[dep_index as int].0);
                                    assert(msg@ =~= cycle_message(nv[dep_index as int].0));
                                }
                                return Err(msg);
                            },
                            NodeState::Unvisited => {
                                proof {
                                    lemma_dfs_push_dep(g, root as int, state@, as_ints(stack@), c, p, id_positions(sorted@), e as int);
                                }
                                let ghost prev = stack@;
                                stack.push(dep_index);
                                proof {
                                    assert(as_ints(stack@) =~= as_ints(prev).push(dep_index as int));
                                }
                            },
                            NodeState::Visited => {
                                proof {
                                    lemma_dfs_skip_dep(g, root as int, state@, as_ints(stack@), c, p, id_positions(sorted@), e as int);
                                }
                            },
                        }
                        e = e - 1;
                    }
                    proof {
                        lemma_dfs_facts(g, root as int, state@, as_ints(stack@), c, p, id_positions(sorted@), 0);
                    }
                },
                NodeState::Visiting => {
                    proof {
                        lemma_dfs_finish(g, root as int, state@, as_ints(stack@), c, p, id_positions(sorted@));
                    }
                    let ghost prev_stack = stack@;
                    let ghost prev_sorted = sorted@;
                    stack.pop();
                    state.set(node_index, NodeState::Visited);
                    sorted.push(NodeId(node_index as u64));
                    proof {
                        assert(as_ints(stack@) =~= as_ints(prev_stack).drop_last());
                        assert(id_positions(sorted@) =~= id_positions(prev_sorted).push(node_index as int));
                        c = c.drop_last();
                        p = p.drop_last();
                    }
                },
                NodeState::Visited => {
                    proof {
                        lemma_dfs_pop_visited(g, root as int, state@, as_ints(stack@), c, p, id_positions(sorted@));
                    }
                    let ghost prev_stack = stack@;
                    stack.pop();
                    proof {
                        assert(as_ints(stack@) =~= as_ints(prev_stack).drop_last());
                    }
                },
            }
        }
        proof {
            lemma_dfs_done(g, root as int, state@, as_ints(stack@), c, p, id_positions(sorted@));
            crate::graph::lemma_topological_order_acyclic(g, root as int, id_positions(sorted@));
        }
        Ok((sorted, id_map))
    }
}

} // verus!

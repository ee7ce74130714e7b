//! Input resolution: every node that is composed with another one gets a
//! compose node that runs the other one first and feeds the result on.

use vstd::prelude::*;

use crate::edges::{is_edge_map, listed, outwards, outwards_upto, occurrences, replaced};
use crate::graph::{has_cycle_from, on_cycle, reachable};
use crate::proto::{
    ConstructionArgs, ConstructionArgsView, ProtoNetwork, ProtoNetworkView, ProtoNode, ProtoNodeInput, ProtoNodeInputView,
    ProtoNodeView, entry_view, node_refs, input_ref, args_refs,
};
use crate::reorder::{is_sorted_network, lemma_reordered_is_sorted, reordered};
use crate::sort::{
    cycle_message, dfs_order, is_resolvable, last_index_of, lemma_last_index_of, network_graph, output_index,
};
use crate::types::{NodeId, OriginalLocation, OriginalLocationView, ProtoNodeIdentifier, clone_ids};

verus! {

/// The identifier of the node that runs its first argument and passes the
/// result to its second.
pub open spec fn compose_node_name() -> Seq<char> {
    "graphene_core::structural::ComposeNode"@
}

/// The node that composes `input_id` (whose node is `input_node`) with `node_id`:
/// it takes over the input of `input_node`, and its path is that of
/// `input_node` followed by `node_id`.
pub open spec fn compose_node(input_node: ProtoNodeView, input_id: NodeId, node_id: NodeId) -> ProtoNodeView {
    ProtoNodeView {
        identifier: compose_node_name(),
        construction_args: ConstructionArgsView::Nodes(seq![(input_id, false), (node_id, true)]),
        input: input_node.input,
        original_location: OriginalLocationView {
            path: match input_node.original_location.path {
                Some(p) => Some(p.push(node_id)),
                None => None,
            },
            inputs_exposed: Seq::empty(),
            skip_inputs: 0,
        },
        skip_deduplication: false,
    }
}

/// One step of input resolution on node `k`: when it is composed with another
/// node, a compose node is appended and every listed reference to `k` (other
/// than as a lambda), the output and the inputs are sent to it.
pub open spec fn resolve_step(
    cur: ProtoNetworkView,
    refs_of: spec_fn(NodeId) -> Seq<NodeId>,
    k: int,
) -> ProtoNetworkView {
    match cur.nodes[k].1.input {
        ProtoNodeInputView::Node(inp) => {
            let compose_id = NodeId(cur.nodes.len() as u64);
            let node_id = NodeId(k as u64);
            let with_compose = ProtoNetworkView {
                nodes: cur.nodes.push((compose_id, compose_node(cur.nodes[inp.0 as int].1, inp, node_id))),
                ..cur
            };
            replaced(with_compose, refs_of(node_id), node_id, compose_id, true)
        },
        _ => cur,
    }
}

/// Input resolution of the first `m` nodes of `net`, with the dependents taken from `net`.
pub open spec fn resolve_upto(net: ProtoNetworkView, m: int) -> ProtoNetworkView
    decreases m,
{
    if m <= 0 {
        net
    } else {
        resolve_step(resolve_upto(net, m - 1), |x: NodeId| outwards(net.nodes, x), m - 1)
    }
}

/// `after` makes every reference that `before` makes as a lambda, in the same
/// place: a lambda input stays, and every construction argument marked as a
/// lambda stays where it was.
pub open spec fn keeps_lambdas(before: ProtoNodeView, after: ProtoNodeView) -> bool {
    &&& before.input is NodeLambda ==> after.input == before.input
    &&& before.construction_args is Nodes ==> after.construction_args is Nodes && ({
        let v = before.construction_args->Nodes_0;
        let w = after.construction_args->Nodes_0;
        &&& w.len() == v.len()
        &&& forall|j: int| 0 <= j < v.len() && #[trigger] v[j].1 ==> w[j] == v[j]
    })
}

proof fn lemma_keeps_lambdas_trans(a: ProtoNodeView, b: ProtoNodeView, c: ProtoNodeView)
    requires
        keeps_lambdas(a, b),
        keeps_lambdas(b, c),
    ensures
        keeps_lambdas(a, c),
{
    if a.construction_args is Nodes {
        let v = a.construction_args->Nodes_0;
        let w = b.construction_args->Nodes_0;
        let u = c.construction_args->Nodes_0;
        assert forall|j: int| 0 <= j < v.len() && #[trigger] v[j].1 implies u[j] == v[j] by {
            assert(w[j] == v[j]);
            assert(w[j].1);
        }
    }
}

/// A resolution step never redirects a lambda reference: every node that was
/// there before makes the same lambda references afterwards, whichever
/// dependents are listed, and only nodes are added.
pub proof fn lemma_resolve_step_keeps_lambdas(cur: ProtoNetworkView, refs_of: spec_fn(NodeId) -> Seq<NodeId>, k: int)
    ensures
        resolve_step(cur, refs_of, k).nodes.len() >= cur.nodes.len(),
        forall|i: int| 0 <= i < cur.nodes.len() ==> keeps_lambdas(
            cur.nodes[i].1,
            #[trigger] resolve_step(cur, refs_of, k).nodes[i].1,
        ),
{
    let next = resolve_step(cur, refs_of, k);
    assert forall|i: int| 0 <= i < cur.nodes.len() implies keeps_lambdas(cur.nodes[i].1, #[trigger] next.nodes[i].1) by {
        let n = cur.nodes[i].1;
        let m = next.nodes[i].1;
        if n.construction_args is Nodes {
            let v = n.construction_args->Nodes_0;
            let w = m.construction_args->Nodes_0;
            assert(w.len() == v.len());
            assert forall|j: int| 0 <= j < v.len() && #[trigger] v[j].1 implies w[j] == v[j] by {}
        }
    }
}

/// Input resolution never redirects a lambda reference: after resolving any
/// number of nodes, every node of the network makes the same lambda
/// references as before, and the network only grows.
pub proof fn lemma_resolution_keeps_lambdas(net: ProtoNetworkView, m: int)
    ensures
        resolve_upto(net, m).nodes.len() >= net.nodes.len(),
        forall|i: int| 0 <= i < net.nodes.len() ==> keeps_lambdas(
            net.nodes[i].1,
            #[trigger] resolve_upto(net, m).nodes[i].1,
        ),
    decreases m,
{
    if m > 0 {
        lemma_resolution_keeps_lambdas(net, m - 1);
        let prev = resolve_upto(net, m - 1);
        lemma_resolve_step_keeps_lambdas(prev, |x: NodeId| outwards(net.nodes, x), m - 1);
        assert forall|i: int| 0 <= i < net.nodes.len() implies keeps_lambdas(
            net.nodes[i].1,
            #[trigger] resolve_upto(net, m).nodes[i].1,
        ) by {
            lemma_keeps_lambdas_trans(net.nodes[i].1, prev.nodes[i].1, resolve_upto(net, m).nodes[i].1);
        }
    } else {
        assert forall|i: int| 0 <= i < net.nodes.len() implies keeps_lambdas(
            net.nodes[i].1,
            #[trigger] resolve_upto(net, m).nodes[i].1,
        ) by {
            let n = net.nodes[i].1;
            if n.construction_args is Nodes {
                let v = n.construction_args->Nodes_0;
                assert forall|j: int| 0 <= j < v.len() && #[trigger] v[j].1 implies v[j] == v[j] by {}
            }
        }
    }
}

/// Resolving every node of a network keeps the lambda references of each of its nodes.
pub proof fn lemma_resolve_all_keeps_lambdas(net: ProtoNetworkView)
    ensures
        resolve_all(net).nodes.len() >= net.nodes.len(),
        forall|i: int| 0 <= i < net.nodes.len() ==> keeps_lambdas(net.nodes[i].1, #[trigger] resolve_all(net).nodes[i].1),
{
    lemma_resolution_keeps_lambdas(net, net.nodes.len() as int);
}

/// Input resolution of every node of `net`.
pub open spec fn resolve_all(net: ProtoNetworkView) -> ProtoNetworkView {
    resolve_upto(net, net.nodes.len() as int)
}

/// Every node is numbered by its position, and every reference names a node of the list.
pub open spec fn is_numbered_list(nodes: Seq<(NodeId, ProtoNodeView)>) -> bool {
    &&& nodes.len() <= u64::MAX
    &&& forall|i: int| 0 <= i < nodes.len() ==> (#[trigger] nodes[i]).0 == NodeId(i as u64)
    &&& forall|i: int, k: int|
        0 <= i < nodes.len() && 0 <= k < node_refs(nodes[i].1).len() ==> (#[trigger] node_refs(
            nodes[i].1,
        )[k]).0 < nodes.len()
}

/// The nodes are numbered by their positions, and every reference and the
/// output name a node of the network.
pub open spec fn is_numbered(net: ProtoNetworkView) -> bool {
    &&& is_numbered_list(net.nodes)
    &&& net.output.0 < net.nodes.len()
}

proof fn lemma_numbered_last_index(net: ProtoNetworkView, j: int)
    requires
        is_numbered(net),
        0 <= j < net.nodes.len(),
    ensures
        last_index_of(net.nodes, NodeId(j as u64)) == j,
{
    lemma_last_index_of(net.nodes, NodeId(j as u64));
    assert(net.nodes[j].0 == NodeId(j as u64));
    let l = last_index_of(net.nodes, NodeId(j as u64));
    assert(net.nodes[l].0 == NodeId(l as u64));
}

/// A numbered network is resolvable.
pub proof fn lemma_numbered_resolvable(net: ProtoNetworkView)
    requires
        is_numbered(net),
    ensures
        is_resolvable(net),
{
    lemma_numbered_last_index(net, net.output.0 as int);
    assert forall|i: int, k: int|
        0 <= i < net.nodes.len() && 0 <= k < node_refs(net.nodes[i].1).len() implies last_index_of(
        net.nodes,
        #[trigger] node_refs(net.nodes[i].1)[k],
    ) >= 0 by {
        let r = node_refs(net.nodes[i].1)[k];
        lemma_numbered_last_index(net, r.0 as int);
    }
}

/// A sorted network is numbered.
pub proof fn lemma_sorted_numbered(net: ProtoNetworkView)
    requires
        is_sorted_network(net),
        net.nodes.len() <= u64::MAX,
    ensures
        is_numbered(net),
{
}

pub proof fn lemma_occurrences_are_id(refs: Seq<NodeId>, r: NodeId, id: NodeId)
    ensures
        forall|k: int| 0 <= k < occurrences(refs, r, id).len() ==> #[trigger] occurrences(refs, r, id)[k] == id,
    decreases refs.len(),
{
    if refs.len() > 0 {
        lemma_occurrences_are_id(refs.drop_last(), r, id);
        let a = occurrences(refs.drop_last(), r, id);
        let b = if refs.last() == r {
            seq![id]
        } else {
            Seq::<NodeId>::empty()
        };
        assert(occurrences(refs, r, id) == a + b);
        assert forall|k: int| 0 <= k < (a + b).len() implies #[trigger] (a + b)[k] == id by {
            if k < a.len() {
                assert((a + b)[k] == a[k]);
            } else {
                assert((a + b)[k] == b[k - a.len()]);
            }
        }
    }
}

/// The dependents of a node of a numbered network are nodes of the network.
pub proof fn lemma_outwards_in_range(net: ProtoNetworkView, m: int, r: NodeId)
    requires
        is_numbered_list(net.nodes),
        0 <= m <= net.nodes.len(),
    ensures
        forall|k: int| 0 <= k < outwards_upto(net.nodes, m, r).len() ==> (#[trigger] outwards_upto(
            net.nodes,
            m,
            r,
        )[k]).0 < m,
    decreases m,
{
    if m > 0 {
        lemma_outwards_in_range(net, m - 1, r);
        let a = outwards_upto(net.nodes, m - 1, r);
        let b = occurrences(node_refs(net.nodes[m - 1].1), r, net.nodes[m - 1].0);
        lemma_occurrences_are_id(node_refs(net.nodes[m - 1].1), r, net.nodes[m - 1].0);
        assert(outwards_upto(net.nodes, m, r) == a + b);
        assert forall|k: int| 0 <= k < (a + b).len() implies (#[trigger] (a + b)[k]).0 < m by {
            if k < a.len() {
                assert((a + b)[k] == a[k]);
            } else {
                assert((a + b)[k] == b[k - a.len()]);
            }
        }
    }
}

/// A resolution step keeps a network numbered.
proof fn lemma_resolve_step_numbered(cur: ProtoNetworkView, net: ProtoNetworkView, k: int)
    requires
        is_numbered(cur),
        cur.nodes.len() < u64::MAX,
        0 <= k < cur.nodes.len(),
        net.nodes.len() <= cur.nodes.len(),
        forall|r: NodeId, j: int| 0 <= j < outwards(net.nodes, r).len() ==> (#[trigger] outwards(net.nodes, r)[j]).0 < net.nodes.len(),
    ensures
        is_numbered(resolve_step(cur, |x: NodeId| outwards(net.nodes, x), k)),
        resolve_step(cur, |x: NodeId| outwards(net.nodes, x), k).nodes.len() <= cur.nodes.len() + 1,
        resolve_step(cur, |x: NodeId| outwards(net.nodes, x), k).nodes.len() >= cur.nodes.len(),
{
    let next = resolve_step(cur, |x: NodeId| outwards(net.nodes, x), k);
    match cur.nodes[k].1.input {
        ProtoNodeInputView::Node(inp) => {
            let n = cur.nodes.len() as int;
            let compose_id = NodeId(n as u64);
            let node_id = NodeId(k as u64);
            assert(node_refs(cur.nodes[k].1)[0] == inp);
            let cn = compose_node(cur.nodes[inp.0 as int].1, inp, node_id);
            let with_compose = ProtoNetworkView {
                nodes: cur.nodes.push((compose_id, cn)),
                ..cur
            };
            assert forall|i: int| 0 <= i < with_compose.nodes.len() implies (#[trigger] with_compose.nodes[i]).0
                == NodeId(i as u64) by {
                if i < n {
                    assert(with_compose.nodes[i] == cur.nodes[i]);
                }
            }
            // the references of the compose node
            let ir = input_ref(cn.input);
            assert(cn.input == cur.nodes[inp.0 as int].1.input);
            assert forall|j: int| 0 <= j < node_refs(cn).len() implies (#[trigger] node_refs(cn)[j]).0 < n by {
                if j < ir.len() {
                    assert(node_refs(cur.nodes[inp.0 as int].1)[j] == node_refs(cn)[j]);
                } else {
                    assert(args_refs(cn.construction_args) =~= seq![inp, node_id]);
                }
            }
            let f = crate::edges::swap_id(node_id, compose_id);
            assert forall|i: int, j: int|
                0 <= i < next.nodes.len() && 0 <= j < node_refs(next.nodes[i].1).len() implies (#[trigger] node_refs(
                next.nodes[i].1,
            )[j]).0 < next.nodes.len() by {
                let src = with_compose.nodes[i].1;
                let refs = node_refs(src);
                if outwards(net.nodes, node_id).contains(NodeId(i as u64)) {
                    crate::proto::lemma_rename_refs_skip(src, f);
                    let x = node_refs(next.nodes[i].1)[j];
                    assert(x == refs[j] || (x == compose_id && refs[j] == node_id));
                    if i < n {
                        assert(with_compose.nodes[i] == cur.nodes[i]);
                    }
                } else {
                    if i < n {
                        assert(with_compose.nodes[i] == cur.nodes[i]);
                    }
                }
            }
        },
        _ => {},
    }
}

/// A reference is listed in `occurrences` only when it occurs.
proof fn lemma_occurrences_present(refs: Seq<NodeId>, r: NodeId, id: NodeId)
    ensures
        occurrences(refs, r, id).len() > 0 ==> refs.contains(r),
    decreases refs.len(),
{
    if refs.len() > 0 {
        lemma_occurrences_present(refs.drop_last(), r, id);
        if occurrences(refs.drop_last(), r, id).len() > 0 {
            let i = choose|i: int| 0 <= i < refs.drop_last().len() && refs.drop_last()[i] == r;
            assert(refs[i] == r);
        }
        if refs.last() == r {
            assert(refs[refs.len() - 1] == r);
        }
    }
}

/// In a sorted network, the nodes that depend on a node come after it.
proof fn lemma_outwards_after(net: ProtoNetworkView, m: int, r: NodeId)
    requires
        is_sorted_network(net),
        net.nodes.len() <= u64::MAX,
        0 <= m <= net.nodes.len(),
    ensures
        forall|j: int| 0 <= j < outwards_upto(net.nodes, m, r).len() ==> r.0 < (#[trigger] outwards_upto(
            net.nodes,
            m,
            r,
        )[j]).0,
    decreases m,
{
    if m > 0 {
        lemma_outwards_after(net, m - 1, r);
        let a = outwards_upto(net.nodes, m - 1, r);
        let refs = node_refs(net.nodes[m - 1].1);
        let b = occurrences(refs, r, net.nodes[m - 1].0);
        lemma_occurrences_are_id(refs, r, net.nodes[m - 1].0);
        lemma_occurrences_present(refs, r, net.nodes[m - 1].0);
        assert(outwards_upto(net.nodes, m, r) == a + b);
        assert forall|j: int| 0 <= j < (a + b).len() implies r.0 < (#[trigger] (a + b)[j]).0 by {
            if j < a.len() {
                assert((a + b)[j] == a[j]);
            } else {
                assert((a + b)[j] == b[j - a.len()]);
                let i = choose|i: int| 0 <= i < refs.len() && refs[i] == r;
                assert(node_refs(net.nodes[m - 1].1)[i].0 < m - 1);
                assert(net.nodes[m - 1].0 == NodeId((m - 1) as u64));
            }
        }
    }
}

/// The rank of a node during input resolution of a network of `n` nodes: twice
/// its position for the first `n` nodes, and for an added compose node one
/// more than twice the position of the node it composes.
pub open spec fn compose_rank(nodes: Seq<(NodeId, ProtoNodeView)>, n: int, i: int) -> int {
    if i < n {
        2 * i
    } else {
        2 * (args_refs(nodes[i].1.construction_args)[1].0 as int) + 1
    }
}

/// Every reference names a node of smaller rank.
pub open spec fn rank_decreasing(net: ProtoNetworkView, n: int) -> bool {
    forall|i: int, k: int|
        0 <= i < net.nodes.len() && 0 <= k < node_refs(net.nodes[i].1).len() ==> compose_rank(
            net.nodes,
            n,
            (#[trigger] node_refs(net.nodes[i].1)[k]).0 as int,
        ) < compose_rank(net.nodes, n, i)
}

/// Input resolution of a sorted network keeps every reference pointing to a node
/// of smaller rank.
#[verifier::spinoff_prover]
#[verifier::rlimit(60)]
proof fn lemma_resolve_ranked(net: ProtoNetworkView, m: int)
    requires
        is_sorted_network(net),
        net.nodes.len() < u64::MAX / 2,
        0 <= m <= net.nodes.len(),
    ensures
        is_numbered(resolve_upto(net, m)),
        net.nodes.len() <= resolve_upto(net, m).nodes.len() <= net.nodes.len() + m,
        rank_decreasing(resolve_upto(net, m), net.nodes.len() as int),
    decreases m,
{
    let n = net.nodes.len() as int;
    if m == 0 {
        lemma_sorted_numbered(net);
    } else {
        lemma_resolve_ranked(net, m - 1);
        let k = m - 1;
        let cur = resolve_upto(net, k);
        lemma_sorted_numbered(net);
        assert forall|r: NodeId, j: int| 0 <= j < outwards(net.nodes, r).len() implies (#[trigger] outwards(
            net.nodes,
            r,
        )[j]).0 < net.nodes.len() by {
            lemma_outwards_in_range(net, net.nodes.len() as int, r);
        }
        lemma_resolve_step_numbered(cur, net, k);
        let next = resolve_step(cur, |x: NodeId| outwards(net.nodes, x), k);
        assert(next == resolve_upto(net, m));
        match cur.nodes[k].1.input {
            ProtoNodeInputView::Node(inp) => {
                let p = cur.nodes.len() as int;
                let cid = NodeId(p as u64);
                let kid = NodeId(k as u64);
                let refs_k = node_refs(cur.nodes[k].1);
                assert(refs_k[0] == inp);
                assert(inp.0 < p);
                assert(compose_rank(cur.nodes, n, inp.0 as int) < 2 * k);
                let cn = compose_node(cur.nodes[inp.0 as int].1, inp, kid);
                let referrers = outwards(net.nodes, kid);
                lemma_outwards_after(net, n, kid);
                lemma_outwards_in_range(net, n, kid);
                assert(next.nodes.len() == p + 1);
                assert(next.nodes[p] == (cid, cn)) by {
                    if referrers.contains(NodeId(p as u64)) {
                        let j = choose|j: int| 0 <= j < referrers.len() && referrers[j] == NodeId(p as u64);
                        assert(referrers[j].0 < n);
                    }
                }
                assert(args_refs(cn.construction_args) =~= seq![inp, kid]);
                // ranks of the nodes already there are unchanged
                assert forall|y: int| 0 <= y < p implies compose_rank(next.nodes, n, y) == compose_rank(cur.nodes, n, y) by {
                    if y >= n {
                        if referrers.contains(NodeId(y as u64)) {
                            let j = choose|j: int| 0 <= j < referrers.len() && referrers[j] == NodeId(y as u64);
                            assert(referrers[j].0 < n);
                        }
                        assert(next.nodes[y] == cur.nodes[y]);
                    }
                }
                assert(compose_rank(next.nodes, n, p) == 2 * k + 1);
                assert forall|i: int, j: int|
                    0 <= i < next.nodes.len() && 0 <= j < node_refs(next.nodes[i].1).len() implies compose_rank(
                    next.nodes,
                    n,
                    (#[trigger] node_refs(next.nodes[i].1)[j]).0 as int,
                ) < compose_rank(next.nodes, n, i) by {
                    let x = node_refs(next.nodes[i].1)[j];
                    if i == p {
                        let ir = input_ref(cn.input);
                        assert(cn.input == cur.nodes[inp.0 as int].1.input);
                        if j < ir.len() {
                            let y = node_refs(cur.nodes[inp.0 as int].1)[j];
                            assert(y == x);
                            assert(compose_rank(cur.nodes, n, y.0 as int) < compose_rank(cur.nodes, n, inp.0 as int));
                        } else {
                            assert(x == args_refs(cn.construction_args)[j - ir.len()]);
                        }
                    } else if referrers.contains(NodeId(i as u64)) {
                        let src = cur.nodes[i].1;
                        let f = crate::edges::swap_id(kid, cid);
                        crate::proto::lemma_rename_refs_skip(src, f);
                        let jj = choose|jj: int| 0 <= jj < referrers.len() && referrers[jj] == NodeId(i as u64);
                        assert(kid.0 < referrers[jj].0);
                        assert(referrers[jj].0 < n);
                        assert(next.nodes[i].1 == crate::proto::rename_refs(src, f, true));
                        let y = node_refs(src)[j];
                        assert(compose_rank(cur.nodes, n, y.0 as int) < compose_rank(cur.nodes, n, i));
                    } else {
                        assert(next.nodes[i] == cur.nodes[i]);
                        assert(compose_rank(cur.nodes, n, x.0 as int) < compose_rank(cur.nodes, n, i));
                    }
                }
            },
            _ => {},
        }
    }
}

/// Input resolution of a sorted network leaves no cycle.
pub proof fn lemma_resolved_acyclic(net: ProtoNetworkView)
    requires
        is_sorted_network(net),
        net.nodes.len() < u64::MAX / 2,
    ensures
        !has_cycle_from(network_graph(resolve_all(net).nodes), output_index(resolve_all(net))),
{
    let n = net.nodes.len() as int;
    lemma_resolve_ranked(net, n);
    let r = resolve_all(net);
    let nodes = r.nodes;
    let g = network_graph(nodes);
    let rank = |i: int| compose_rank(nodes, n, i);
    assert(crate::renumber::distinct_ids(nodes)) by {
        assert forall|i: int, j: int| 0 <= i < j < nodes.len() implies #[trigger] nodes[i].0 != #[trigger] nodes[j].0 by {
            assert(nodes[i].0 == NodeId(i as u64));
            assert(nodes[j].0 == NodeId(j as u64));
        }
    }
    assert forall|v: int, e: int| 0 <= v < g.len() && 0 <= e < g[v].len() implies rank(#[trigger] g[v][e]) < rank(v) by {
        crate::renumber::lemma_adjacency_distinct(nodes, nodes.len() as int, v);
        let x = node_refs(nodes[v].1)[e];
        assert(g[v][e] == last_index_of(nodes, x));
        lemma_numbered_last_index(r, x.0 as int);
        assert(NodeId(x.0 as u64) == x);
    }
    crate::graph::lemma_ranked_acyclic(g, rank, output_index(r));
}

/// The result of resolving the inputs of the network renumbered along `o`.
pub open spec fn resolved_along(net: ProtoNetworkView, o: Seq<int>) -> ProtoNetworkView {
    resolve_all(reordered(net, o))
}

impl ProtoNetwork {
    /// Inserts a compose node for each node whose input is another node: the
    /// compose node evaluates that other node first and sends the result into
    /// the node. The network is sorted before and after.
    pub fn resolve_inputs(&mut self) -> (r: Result<(), String>)
        requires
            is_resolvable(old(self)@),
            old(self)@.nodes.len() < u64::MAX / 2,
        ensures
            r is Ok <==> !has_cycle_from(network_graph(old(self)@.nodes), output_index(old(self)@)),
            r is Ok ==> ({
                let g = network_graph(old(self)@.nodes);
                let mid = resolved_along(old(self)@, dfs_order(g, output_index(old(self)@))->Ok_0);
                let g2 = network_graph(mid.nodes);
                &&& dfs_order(g, output_index(old(self)@)) is Ok
                &&& dfs_order(g2, output_index(mid)) is Ok
                &&& final(self)@ == reordered(mid, dfs_order(g2, output_index(mid))->Ok_0)
                &&& is_sorted_network(final(self)@)
            }),
            r matches Err(msg) ==> ({
                let g = network_graph(old(self)@.nodes);
                let root = output_index(old(self)@);
                &&& final(self)@ == old(self)@
                &&& dfs_order(g, root) matches Err(d) && 0 <= d < old(self)@.nodes.len() && reachable(g, root, d)
                    && on_cycle(g, d) && msg@ == cycle_message(old(self)@.nodes[d].0)
            }),
    {
        let ghost net0 = self@;
        match self.reorder_ids() {
            Ok(()) => {},
            Err(e) => { return Err(e); },
        }
        let ghost o1 = dfs_order(network_graph(net0.nodes), output_index(net0))->Ok_0;
        let ghost net1 = self@;
        proof {
            assert forall|i: int| 0 <= i < o1.len() implies 0 <= #[trigger] o1[i] < net0.nodes.len() by {
                assert(o1.contains(o1[i]));
            }
            crate::graph::lemma_distinct_nodes_bounded(o1, net0.nodes.len() as int);
            lemma_reordered_is_sorted(net0, o1);
            lemma_sorted_numbered(net1);
            lemma_numbered_resolvable(net1);
            assert forall|r: NodeId, j: int| 0 <= j < outwards(net1.nodes, r).len() implies (#[trigger] outwards(
                net1.nodes,
                r,
            )[j]).0 < net1.nodes.len() by {
                lemma_outwards_in_range(net1, net1.nodes.len() as int, r);
            }
        }
        let n1 = self.nodes.len();
        let outwards_edges = self.collect_outwards_edges();
        let mut k: usize = 0;
        while k < n1
            invariant
                k <= n1,
                n1 == net1.nodes.len(),
                net1.nodes.len() < u64::MAX / 2,
                is_edge_map(outwards_edges@, |x: NodeId| outwards(net1.nodes, x)),
                forall|r: NodeId, j: int| 0 <= j < outwards(net1.nodes, r).len() ==> (#[trigger] outwards(
                    net1.nodes,
                    r,
                )[j]).0 < net1.nodes.len(),
                self@ == resolve_upto(net1, k as int),
                is_numbered(self@),
                n1 <= self@.nodes.len() <= n1 + k,
            decreases n1 - k,
        {
            let ghost cur = self@;
            let node_id = NodeId(k as u64);
            proof {
                lemma_resolve_step_numbered(cur, net1, k as int);
                assert(cur.nodes[k as int] == entry_view(self.nodes@[k as int]));
            }
            let input_node_id = match &self.nodes[k].1.input {
                ProtoNodeInput::Node(id) => Some(*id),
                _ => None,
            };
            match input_node_id {
                Some(input_node_id) => {
                    let compose_node_id = NodeId(self.nodes.len() as u64);
                    proof {
                        assert(node_refs(cur.nodes[k as int].1)[0] == input_node_id);
                    }
                    let inp = input_node_id.0 as usize;
                    let ghost input_view = cur.nodes[inp as int].1;
                    proof {
                        assert(cur.nodes[inp as int] == entry_view(self.nodes@[inp as int]));
                    }
                    let input = self.nodes[inp].1.input.clone();
                    let path = match &self.nodes[inp].1.original_location.path {
                        Some(p) => {
                            let mut q = clone_ids(p);
                            q.push(node_id);
                            Some(q)
                        },
                        None => None,
                    };
                    let mut args: Vec<(NodeId, bool)> = Vec::new();
                    args.push((input_node_id, false));
                    args.push((node_id, true));
                    let compose = ProtoNode {
                        identifier: ProtoNodeIdentifier::new("graphene_core::structural::ComposeNode"),
                        construction_args: ConstructionArgs::Nodes(args),
                        input,
                        original_location: OriginalLocation {
                            path,
                            inputs_exposed: Vec::new(),
                            skip_inputs: 0,
                        },
                        skip_deduplication: false,
                    };
                    proof {
                        assert(args@ =~= seq![(input_node_id, false), (node_id, true)]);
                        assert(compose@.construction_args == ConstructionArgsView::Nodes(seq![(input_node_id, false), (node_id, true)]));
                        assert(compose@.original_location == compose_node(input_view, input_node_id, node_id).original_location);
                        assert(compose@ == compose_node(input_view, input_node_id, node_id));
                    }
                    self.nodes.push((compose_node_id, compose));
                    proof {
                        let with_compose = ProtoNetworkView {
                            nodes: cur.nodes.push((compose_node_id, compose_node(input_view, input_node_id, node_id))),
                            ..cur
                        };
                        assert(self@.nodes =~= with_compose.nodes);
                        assert(listed(outwards_edges@, node_id) == outwards(net1.nodes, node_id)) by {
                            if !outwards_edges@.contains_key(node_id.0) {
                                assert(outwards(net1.nodes, NodeId(node_id.0)).len() == 0);
                            }
                        }
                        assert forall|j: int| 0 <= j < listed(outwards_edges@, node_id).len() implies (#[trigger] listed(
                            outwards_edges@,
                            node_id,
                        )[j]).0 < self@.nodes.len() by {
                            assert(outwards(net1.nodes, node_id)[j].0 < net1.nodes.len());
                        }
                    }
                    self.replace_node_id(&outwards_edges, node_id, compose_node_id, true);
                },
                None => {},
            }
            k = k + 1;
        }
        proof {
            assert(self@ == resolve_all(net1));
            lemma_numbered_resolvable(self@);
        }
        let ghost net2 = self@;
        proof {
            lemma_resolved_acyclic(net1);
            assert(resolved_along(net0, o1) == net2);
        }
        let r = self.reorder_ids();
        proof {
            assert(r is Ok);
            let o2 = dfs_order(network_graph(net2.nodes), output_index(net2))->Ok_0;
            lemma_reordered_is_sorted(net2, o2);
        }
        r
    }
}

} // verus!

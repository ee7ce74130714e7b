//! Renumbering a network so that its nodes stand in topological order.

use vstd::prelude::*;

use crate::fxmap::{fx_map_get, fx_map_insert, fx_map_new};
use crate::graph::{has_cycle_from, is_topological_order, on_cycle, reachable, is_path};
use crate::proto::{
    ProtoNetwork, ProtoNetworkView, ProtoNode, ProtoNodeView, entry_view, node_refs, rename_refs,
    lemma_mapped_is_renamed,
};
use crate::sort::{
    adjacency_upto, cycle_message, dfs_order, id_positions, is_resolvable, last_index_of, lemma_last_index_of,
    network_graph, output_index, ref_indices, refs_resolve, lemma_network_graph_well_formed,
};
use crate::types::NodeId;

verus! {

/// The position of the last occurrence of `id` in `ids`, or -1.
pub open spec fn last_pos(ids: Seq<NodeId>, id: NodeId) -> int
    decreases ids.len(),
{
    if ids.len() == 0 {
        -1
    } else if ids.last() == id {
        ids.len() - 1
    } else {
        last_pos(ids.drop_last(), id)
    }
}

pub proof fn lemma_last_pos(ids: Seq<NodeId>, id: NodeId)
    ensures
        -1 <= last_pos(ids, id) < ids.len(),
        last_pos(ids, id) >= 0 ==> ids[last_pos(ids, id)] == id,
        forall|i: int| 0 <= i < ids.len() && ids[i] == id ==> i <= last_pos(ids, id),
    decreases ids.len(),
{
    if ids.len() > 0 {
        lemma_last_pos(ids.drop_last(), id);
        assert forall|i: int| 0 <= i < ids.len() - 1 implies #[trigger] ids[i] == ids.drop_last()[i] by {}
    }
}

/// The ids of the nodes at the positions listed in `o`.
pub open spec fn order_keys(nodes: Seq<(NodeId, ProtoNodeView)>, o: Seq<int>) -> Seq<NodeId> {
    o.map_values(|k: int| nodes[k].0)
}

/// The ids kept by renumbering: each id that names a listed node becomes the
/// position of that node in the list; the others are dropped.
pub open spec fn remap_inputs(inputs: Seq<NodeId>, keys: Seq<NodeId>) -> Seq<NodeId>
    decreases inputs.len(),
{
    if inputs.len() == 0 {
        Seq::empty()
    } else {
        let rest = remap_inputs(inputs.drop_last(), keys);
        if last_pos(keys, inputs.last()) >= 0 {
            rest.push(NodeId(last_pos(keys, inputs.last()) as u64))
        } else {
            rest
        }
    }
}

/// The network made of the nodes at the positions listed in `o`, in that order,
/// each one numbered by its new position, with every reference renumbered.
pub open spec fn reordered(net: ProtoNetworkView, o: Seq<int>) -> ProtoNetworkView {
    let keys = order_keys(net.nodes, o);
    ProtoNetworkView {
        inputs: remap_inputs(net.inputs, keys),
        output: NodeId(last_pos(keys, net.output) as u64),
        nodes: Seq::new(
            o.len(),
            |q: int|
                (
                    NodeId(q as u64),
                    rename_refs(net.nodes[o[q]].1, |r: NodeId| NodeId(last_pos(keys, r) as u64), false),
                ),
        ),
    }
}

/// Every node is numbered by its position, every reference names an earlier node,
/// and the output is the last node.
pub open spec fn is_sorted_network(net: ProtoNetworkView) -> bool {
    &&& net.nodes.len() > 0
    &&& net.output == NodeId((net.nodes.len() - 1) as u64)
    &&& forall|i: int| 0 <= i < net.nodes.len() ==> (#[trigger] net.nodes[i]).0 == NodeId(i as u64)
    &&& forall|i: int, k: int|
        0 <= i < net.nodes.len() && 0 <= k < node_refs(net.nodes[i].1).len() ==> (#[trigger] node_refs(
            net.nodes[i].1,
        )[k]).0 < i
}

/// Position `k` is the last position of its id.
pub open spec fn is_last_index(nodes: Seq<(NodeId, ProtoNodeView)>, k: int) -> bool {
    last_index_of(nodes, nodes[k].0) == k
}

proof fn lemma_last_index_of_is_last(nodes: Seq<(NodeId, ProtoNodeView)>, id: NodeId)
    requires
        last_index_of(nodes, id) >= 0,
    ensures
        is_last_index(nodes, last_index_of(nodes, id)),
{
    lemma_last_index_of(nodes, id);
}

proof fn lemma_adjacency_entries_last(nodes: Seq<(NodeId, ProtoNodeView)>, m: int, k: int)
    requires
        refs_resolve(nodes),
        m <= nodes.len(),
    ensures
        forall|e: int|
            0 <= e < adjacency_upto(nodes, m, k).len() ==> is_last_index(
                nodes,
                #[trigger] adjacency_upto(nodes, m, k)[e],
            ),
    decreases m,
{
    if m > 0 {
        lemma_adjacency_entries_last(nodes, m - 1, k);
        let a = adjacency_upto(nodes, m - 1, k);
        let b = if last_index_of(nodes, nodes[m - 1].0) == k {
            ref_indices(nodes, m - 1)
        } else {
            Seq::empty()
        };
        assert(adjacency_upto(nodes, m, k) == a + b);
        assert forall|e: int| 0 <= e < (a + b).len() implies is_last_index(nodes, #[trigger] (a + b)[e]) by {
            if e < a.len() {
                assert((a + b)[e] == a[e]);
            } else {
                let r = node_refs(nodes[m - 1].1)[e - a.len()];
                assert(0 <= e - a.len() < node_refs(nodes[m - 1].1).len());
                assert((a + b)[e] == last_index_of(nodes, r));
                lemma_last_index_of_is_last(nodes, r);
            }
        }
    }
}

pub proof fn lemma_own_refs_in_adjacency(nodes: Seq<(NodeId, ProtoNodeView)>, m: int, k: int)
    requires
        0 <= k < m <= nodes.len(),
        is_last_index(nodes, k),
    ensures
        forall|e: int|
            0 <= e < ref_indices(nodes, k).len() ==> adjacency_upto(nodes, m, k).contains(
                #[trigger] ref_indices(nodes, k)[e],
            ),
    decreases m,
{
    let a = adjacency_upto(nodes, m - 1, k);
    let b = if last_index_of(nodes, nodes[m - 1].0) == k {
        ref_indices(nodes, m - 1)
    } else {
        Seq::empty()
    };
    assert(adjacency_upto(nodes, m, k) == a + b);
    if m - 1 == k {
        assert forall|e: int| 0 <= e < ref_indices(nodes, k).len() implies (a + b).contains(
            #[trigger] ref_indices(nodes, k)[e],
        ) by {
            assert((a + b)[a.len() + e] == b[e]);
        }
    } else {
        lemma_own_refs_in_adjacency(nodes, m - 1, k);
        assert forall|e: int| 0 <= e < ref_indices(nodes, k).len() implies (a + b).contains(
            #[trigger] ref_indices(nodes, k)[e],
        ) by {
            let x = ref_indices(nodes, k)[e];
            assert(a.contains(x));
            let i = choose|i: int| 0 <= i < a.len() && a[i] == x;
            assert((a + b)[i] == x);
        }
    }
}

/// Every node reachable from the output is the last position of its id.
pub proof fn lemma_reachable_is_last(net: ProtoNetworkView, v: int)
    requires
        is_resolvable(net),
        reachable(network_graph(net.nodes), output_index(net), v),
    ensures
        is_last_index(net.nodes, v),
        0 <= v < net.nodes.len(),
{
    let nodes = net.nodes;
    let g = network_graph(nodes);
    let p = choose|p: Seq<int>| is_path(g, p) && p[0] == output_index(net) && #[trigger] p.last() == v;
    assert(0 <= p[p.len() - 1] < g.len());
    if p.len() == 1 {
        lemma_last_index_of_is_last(nodes, net.output);
    } else {
        let u = p[p.len() - 2];
        assert(g[u].contains(p[p.len() - 2 + 1]));
        let e = choose|e: int| 0 <= e < g[u].len() && #[trigger] g[u][e] == v;
        lemma_adjacency_entries_last(nodes, nodes.len() as int, u);
    }
}

/// In a topological order, every reference of a listed node names a listed node
/// that comes earlier; the renumbered reference is that earlier position.
pub proof fn lemma_order_refs(net: ProtoNetworkView, o: Seq<int>, q: int, j: int)
    requires
        is_resolvable(net),
        is_topological_order(network_graph(net.nodes), output_index(net), o),
        0 <= q < o.len(),
        0 <= j < node_refs(net.nodes[o[q]].1).len(),
    ensures
        0 <= last_pos(order_keys(net.nodes, o), node_refs(net.nodes[o[q]].1)[j]) < q,
        o[last_pos(order_keys(net.nodes, o), node_refs(net.nodes[o[q]].1)[j])] == last_index_of(
            net.nodes,
            node_refs(net.nodes[o[q]].1)[j],
        ),
{
    let nodes = net.nodes;
    let g = network_graph(nodes);
    let root = output_index(net);
    let keys = order_keys(nodes, o);
    let k = o[q];
    let r = node_refs(nodes[k].1)[j];
    lemma_network_graph_well_formed(nodes);
    assert(o.contains(k));
    lemma_reachable_is_last(net, k);
    let d = last_index_of(nodes, r);
    assert(d >= 0);
    lemma_last_index_of(nodes, r);
    lemma_own_refs_in_adjacency(nodes, nodes.len() as int, k);
    assert(ref_indices(nodes, k)[j] == d);
    assert(g[k].contains(d));
    crate::graph::lemma_reachable_step(g, root, k, d);
    assert(o.contains(d));
    let q2 = choose|q2: int| 0 <= q2 < o.len() && o[q2] == d;
    if q <= q2 {
        assert(!g[o[q]].contains(o[q2]));
    }
    assert(keys[q2] == r);
    lemma_last_pos(keys, r);
    let lp = last_pos(keys, r);
    assert(o[lp] == q2 || true);
    // the keys of a topological order are distinct
    assert(nodes[o[lp]].0 == r);
    assert(o.contains(o[lp]));
    lemma_reachable_is_last(net, o[lp]);
    assert(o[lp] == d);
    if lp != q2 {
        assert(o[lp] == o[q2]);
    }
}

/// Renumbering the nodes of a topological order yields a sorted network: every
/// node is numbered by its position, takes input only from earlier nodes, and
/// the output is the last node.
pub proof fn lemma_reordered_is_sorted(net: ProtoNetworkView, o: Seq<int>)
    requires
        is_resolvable(net),
        is_topological_order(network_graph(net.nodes), output_index(net), o),
        net.nodes.len() <= u64::MAX,
    ensures
        is_sorted_network(reordered(net, o)),
{
    let nodes = net.nodes;
    let g = network_graph(nodes);
    let root = output_index(net);
    let keys = order_keys(nodes, o);
    let rn = reordered(net, o);
    lemma_network_graph_well_formed(nodes);
    lemma_last_index_of(nodes, net.output);
    crate::graph::lemma_topological_root_last(g, root, o);
    assert forall|i: int| 0 <= i < o.len() implies 0 <= #[trigger] o[i] < nodes.len() by {
        assert(o.contains(o[i]));
    }
    crate::graph::lemma_distinct_nodes_bounded(o, nodes.len() as int);
    // the output is renumbered to the last position
    let last = o.len() - 1;
    assert(keys[last] == net.output);
    lemma_last_pos(keys, net.output);
    let lp = last_pos(keys, net.output);
    assert(o.contains(o[lp]));
    lemma_reachable_is_last(net, o[lp]);
    assert(o.contains(o[last]));
    assert(o[lp] == o[last]);
    assert(lp == last);
    assert forall|i: int, k: int|
        0 <= i < rn.nodes.len() && 0 <= k < node_refs(rn.nodes[i].1).len() implies (#[trigger] node_refs(
            rn.nodes[i].1,
        )[k]).0 < i by {
        let f = |r: NodeId| NodeId(last_pos(keys, r) as u64);
        crate::proto::lemma_rename_refs(nodes[o[i]].1, f);
        assert(rn.nodes[i].1 == rename_refs(nodes[o[i]].1, f, false));
        lemma_order_refs(net, o, i, k);
    }
}

impl ProtoNetwork {
    /// Sorts the nodes so that they stand in topological order: no node takes an
    /// input from a node found later in the list. Nodes that the output does not
    /// depend on are dropped, every node is numbered by its new position, and
    /// every reference, input and the output are renumbered to match.
    pub fn reorder_ids(&mut self) -> (r: Result<(), String>)
        requires
            is_resolvable(old(self)@),
        ensures
            r is Ok <==> !has_cycle_from(network_graph(old(self)@.nodes), output_index(old(self)@)),
            r is Ok ==> ({
                let g = network_graph(old(self)@.nodes);
                let root = output_index(old(self)@);
                &&& dfs_order(g, root) is Ok
                &&& is_topological_order(g, root, dfs_order(g, root)->Ok_0)
                &&& final(self)@ == reordered(old(self)@, dfs_order(g, root)->Ok_0)
                &&& is_sorted_network(final(self)@)
            }),
            r matches Err(msg) ==> ({
                let g = network_graph(old(self)@.nodes);
                let root = output_index(old(self)@);
                &&& final(self)@ == old(self)@
                &&& dfs_order(g, root) matches Err(d) && 0 <= d < old(self)@.nodes.len() && reachable(g, root, d)
                    && on_cycle(g, d) && msg@ == cycle_message(old(self)@.nodes[d].0)
            }),
    {
        let ghost net = self@;
        let (order, _id_map) = match self.topological_sort() {
            Ok(x) => x,
            Err(e) => { return Err(e); },
        };
        let ghost o = id_positions(order@);
        let ghost nv = self@.nodes;
        let ghost keys = order_keys(nv, o);
        proof {
            lemma_network_graph_well_formed(nv);
            assert forall|i: int| 0 <= i < o.len() implies 0 <= #[trigger] o[i] < nv.len() by {
                assert(o.contains(o[i]));
            }
            crate::graph::lemma_distinct_nodes_bounded(o, nv.len() as int);
        }
        // map from old ids to new positions
        let mut new_positions = fx_map_new();
        let mut pos: usize = 0;
        while pos < order.len()
            invariant
                pos <= order.len(),
                o == id_positions(order@),
                nv == self@.nodes,
                nv.len() == self.nodes.len(),
                keys == order_keys(nv, o),
                forall|i: int| 0 <= i < o.len() ==> 0 <= #[trigger] o[i] < nv.len(),
                forall|x: NodeId|
                    (#[trigger] new_positions@.contains_key(x) <==> last_pos(keys.take(pos as int), x) >= 0)
                        && (new_positions@.contains_key(x) ==> new_positions@[x] == last_pos(
                        keys.take(pos as int),
                        x,
                    )),
            decreases order.len() - pos,
        {
            assert(0 <= o[pos as int] < nv.len());
            assert(order@[pos as int].0 as int == o[pos as int]);
            let idx = order[pos].0 as usize;
            assert(o[pos as int] == idx as int);
            let key = self.nodes[idx].0;
            fx_map_insert(&mut new_positions, key, pos);
            proof {
                let t = keys.take(pos + 1);
                assert(t.drop_last() =~= keys.take(pos as int));
                assert(t.last() == key);
                assert forall|x: NodeId| (#[trigger] new_positions@.contains_key(x) <==> last_pos(t, x) >= 0)
                    && (new_positions@.contains_key(x) ==> new_positions@[x] == last_pos(t, x)) by {
                    lemma_last_pos(keys.take(pos as int), x);
                }
            }
            pos = pos + 1;
        }
        proof {
            assert(keys.take(order.len() as int) =~= keys);
        }
        // move the nodes out, renumber them and place them in the new order
        let mut old_nodes: Vec<(NodeId, ProtoNode)> = Vec::new();
        std::mem::swap(&mut old_nodes, &mut self.nodes);
        let ghost on = old_nodes@;
        let mut new_nodes: Vec<(NodeId, ProtoNode)> = Vec::with_capacity(order.len());
        let np = &new_positions;
        let mut index: usize = 0;
        while index < order.len()
            invariant
                index <= order.len(),
                o == id_positions(order@),
                nv == on.map_values(|e: (NodeId, ProtoNode)| entry_view(e)),
                is_resolvable(net),
                nv == net.nodes,
                is_topological_order(network_graph(nv), output_index(net), o),
                keys == order_keys(nv, o),
                forall|i: int| 0 <= i < o.len() ==> 0 <= #[trigger] o[i] < nv.len(),
                old_nodes.len() == nv.len(),
                forall|i: int| index <= i < o.len() ==> #[trigger] old_nodes@[o[i]] == on[o[i]],
                forall|x: NodeId|
                    (#[trigger] np@.contains_key(x) <==> last_pos(keys, x) >= 0) && (np@.contains_key(x)
                        ==> np@[x] == last_pos(keys, x)),
                new_nodes.len() == index,
                forall|q: int|
                    0 <= q < index ==> entry_view(#[trigger] new_nodes@[q]) == reordered(net, o).nodes[q],
            decreases order.len() - index,
        {
            assert(0 <= o[index as int] < nv.len());
            assert(order@[index as int].0 as int == o[index as int]);
            let idx = order[index].0 as usize;
            assert(o[index as int] == idx as int);
            let ghost old_entry = old_nodes@[idx as int];
            let mut entry = (NodeId(0), ProtoNode::default());
            std::mem::swap(&mut entry, &mut old_nodes[idx]);
            proof {
                assert(entry == old_entry);
                assert(entry_view(old_entry) == nv[idx as int]);
                assert forall|i: int| index + 1 <= i < o.len() implies #[trigger] old_nodes@[o[i]] == on[o[i]] by {
                    assert(o[i] != o[index as int]);
                }
            }
            let mut node = entry.1;
            let ghost before = node@;
            let f = |id: NodeId| -> (r: NodeId)
                requires
                    np@.contains_key(id),
                ensures
                    r == NodeId(np@[id] as u64),
                {
                    match fx_map_get(np, &id) {
                        Some(x) => NodeId(x as u64),
                        None => NodeId(0),
                    }
                };
            proof {
                assert forall|k: int| 0 <= k < node_refs(before).len() implies f.requires(
                    (#[trigger] node_refs(before)[k],),
                ) by {
                    lemma_order_refs(net, o, index as int, k);
                }
            }
            node.map_ids(f, false);
            proof {
                let fs = |r: NodeId| NodeId(last_pos(keys, r) as u64);
                assert forall|k: int, b: NodeId|
                    0 <= k < node_refs(before).len() && #[trigger] f.ensures((node_refs(before)[k],), b)
                    implies b == fs(node_refs(before)[k]) by {
                    lemma_order_refs(net, o, index as int, k);
                    let r = node_refs(before)[k];
                    assert(np@.contains_key(r));
                    assert(f.requires((r,)));
                    assert(b == NodeId(np@[r] as u64));
                    assert(np@[r] as int == last_pos(keys, r));
                }
                lemma_mapped_is_renamed(before, node@, f, fs, false);
            }
            new_nodes.push((NodeId(index as u64), node));
            index = index + 1;
        }
        proof {
            assert(new_nodes@.map_values(|e: (NodeId, ProtoNode)| entry_view(e)) =~= reordered(net, o).nodes);
        }
        self.nodes = new_nodes;
        // inputs
        let mut new_inputs: Vec<NodeId> = Vec::new();
        let mut i: usize = 0;
        while i < self.inputs.len()
            invariant
                i <= self.inputs.len(),
                self.inputs@ == net.inputs,
                keys == order_keys(nv, o),
                forall|x: NodeId|
                    (#[trigger] np@.contains_key(x) <==> last_pos(keys, x) >= 0) && (np@.contains_key(x)
                        ==> np@[x] == last_pos(keys, x)),
                new_inputs@ == remap_inputs(net.inputs.take(i as int), keys),
            decreases self.inputs.len() - i,
        {
            let id = self.inputs[i];
            proof {
                assert(net.inputs.take(i + 1).drop_last() =~= net.inputs.take(i as int));
            }
            match fx_map_get(np, &id) {
                Some(x) => { new_inputs.push(NodeId(x as u64)); },
                None => {},
            }
            i = i + 1;
        }
        proof {
            assert(net.inputs.take(net.inputs.len() as int) =~= net.inputs);
        }
        self.inputs = new_inputs;
        // output
        proof {
            lemma_last_index_of(nv, net.output);
            crate::graph::lemma_topological_root_last(network_graph(nv), output_index(net), o);
            assert(keys[o.len() - 1] == net.output);
            lemma_last_pos(keys, net.output);
        }
        let out = match fx_map_get(np, &self.output) {
            Some(x) => x,
            None => { proof { assert(false); } 0 },
        };
        self.output = NodeId(out as u64);
        proof {
            assert(self@.nodes =~= reordered(net, o).nodes);
            assert(self@ == reordered(net, o));
            lemma_reordered_is_sorted(net, o);
        }
        Ok(())
    }
}

} // verus!

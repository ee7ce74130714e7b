//! Checking the order of a network, and replacing node ids by stable ids
//! derived from the content of the nodes.

use vstd::prelude::*;

use std::collections::HashSet;
use std::hash::Hasher;

use rustc_hash::FxHasher;

use crate::edges::{inwards, inwards_upto, is_edge_map, listed, occurrences, outwards, outwards_upto, positioned, replaced};
use crate::proto::{ProtoNetwork, ProtoNetworkView, ProtoNodeView, entry_view, node_refs};
use crate::reorder::is_sorted_network;
use crate::resolve::is_numbered_list;
use crate::encode::HashWrite;
use crate::types::NodeId;

verus! {

broadcast use vstd::std_specs::hash::group_hash_axioms;

/// The ids of the first `i` nodes.
pub open spec fn ids_before(nodes: Seq<(NodeId, ProtoNodeView)>, i: int) -> Seq<NodeId> {
    nodes.take(i).map_values(|e: (NodeId, ProtoNodeView)| e.0)
}

/// Every reference recorded under the id of a node names a node listed before it.
pub open spec fn topologically_sorted(nodes: Seq<(NodeId, ProtoNodeView)>) -> bool {
    forall|i: int, k: int|
        0 <= i < nodes.len() && 0 <= k < inwards(nodes, nodes[i].0).len() ==> ids_before(nodes, i).contains(
            #[trigger] inwards(nodes, nodes[i].0)[k],
        )
}

impl ProtoNetwork {
    /// Whether every node comes after all the nodes that it refers to.
    pub fn is_topologically_sorted(&self) -> (r: bool)
        requires
            crate::sort::refs_resolve(self@.nodes),
        ensures
            r == topologically_sorted(self@.nodes),
    {
        let ghost nv = self@.nodes;
        let mut visited: HashSet<u64> = HashSet::new();
        let inwards_edges = self.collect_inwards_edges();
        let empty: Vec<NodeId> = Vec::new();
        let mut i: usize = 0;
        while i < self.nodes.len()
            invariant
                i <= self.nodes.len(),
                nv == self@.nodes,
                is_edge_map(inwards_edges@, |x: NodeId| inwards(nv, x)),
                empty@.len() == 0,
                forall|x: u64| #[trigger] visited@.contains(x) <==> ids_before(nv, i as int).contains(NodeId(x)),
                forall|i2: int, k: int|
                    0 <= i2 < i && 0 <= k < inwards(nv, nv[i2].0).len() ==> ids_before(nv, i2).contains(
                        #[trigger] inwards(nv, nv[i2].0)[k],
                    ),
            decreases self.nodes.len() - i,
        {
            let id = self.nodes[i].0;
            proof {
                assert(nv[i as int] == entry_view(self.nodes@[i as int]));
            }
            let deps = match inwards_edges.get(&id.0) {
                Some(v) => v,
                None => &empty,
            };
            proof {
                assert(NodeId(id.0) == id);
                if !inwards_edges@.contains_key(id.0) {
                    assert(inwards(nv, id).len() == 0);
                    assert(deps@ =~= inwards(nv, id));
                }
                assert(deps@ == inwards(nv, id));
            }
            let mut t: usize = 0;
            while t < deps.len()
                invariant
                    t <= deps.len(),
                    deps@ == inwards(nv, id),
                    0 <= i < nv.len(),
                    nv == self@.nodes,
                    nv[i as int].0 == id,
                    forall|x: u64| #[trigger] visited@.contains(x) <==> ids_before(nv, i as int).contains(NodeId(x)),
                    forall|k: int| 0 <= k < t ==> ids_before(nv, i as int).contains(#[trigger] deps@[k]),
                decreases deps.len() - t,
            {
                let dependency = deps[t];
                if !visited.contains(&dependency.0) {
                    proof {
                        assert(NodeId(dependency.0) == dependency);
                        assert(!ids_before(nv, i as int).contains(inwards(nv, nv[i as int].0)[t as int]));
                    }
                    return false;
                }
                assert(NodeId(dependency.0) == dependency);
                t = t + 1;
            }
            visited.insert(id.0);
            proof {
                let before = ids_before(nv, i as int);
                assert(ids_before(nv, i + 1) =~= before.push(id));
                assert forall|x: u64| #[trigger] visited@.contains(x) <==> ids_before(nv, i + 1).contains(NodeId(x)) by {
                    if x == id.0 {
                        assert(ids_before(nv, i + 1)[i as int] == id);
                    } else {
                        assert(NodeId(x) != id);
                        if before.contains(NodeId(x)) {
                            let j = choose|j: int| 0 <= j < i && #[trigger] before[j] == NodeId(x);
                            assert(ids_before(nv, i + 1)[j] == NodeId(x));
                        }
                        if ids_before(nv, i + 1).contains(NodeId(x)) {
                            let j = choose|j: int| 0 <= j < i + 1 && #[trigger] ids_before(nv, i + 1)[j] == NodeId(x);
                            assert(before[j] == NodeId(x));
                        }
                    }
                }
                assert(nv[i as int].0 == id);
            }
            i = i + 1;
        }
        true
    }
}

/// In a numbered list, the references recorded under the id of node `i` are those of node `i`.
pub proof fn lemma_numbered_inwards(nodes: Seq<(NodeId, ProtoNodeView)>, m: int, i: int)
    requires
        is_numbered_list(nodes),
        0 <= m <= nodes.len(),
        0 <= i < nodes.len(),
    ensures
        inwards_upto(nodes, m, NodeId(i as u64)) == if i < m {
            node_refs(nodes[i].1)
        } else {
            Seq::empty()
        },
    decreases m,
{
    if m > 0 {
        lemma_numbered_inwards(nodes, m - 1, i);
        assert(nodes[m - 1].0 == NodeId((m - 1) as u64));
        if m - 1 != i {
            assert(NodeId((m - 1) as u64) != NodeId(i as u64));
        }
        assert(inwards_upto(nodes, m, NodeId(i as u64)) =~= if i < m {
            node_refs(nodes[i].1)
        } else {
            Seq::empty()
        });
    }
}

/// A sorted network passes the order check: sorting a network makes
/// `is_topologically_sorted` hold of it.
pub proof fn lemma_sorted_network_is_topologically_sorted(net: ProtoNetworkView)
    requires
        is_sorted_network(net),
        net.nodes.len() <= u64::MAX,
    ensures
        topologically_sorted(net.nodes),
{
    let nodes = net.nodes;
    assert forall|i: int, k: int|
        0 <= i < nodes.len() && 0 <= k < inwards(nodes, nodes[i].0).len() implies ids_before(nodes, i).contains(
        #[trigger] inwards(nodes, nodes[i].0)[k],
    ) by {
        assert(nodes[i].0 == NodeId(i as u64));
        lemma_numbered_inwards(nodes, nodes.len() as int, i);
        let r = node_refs(nodes[i].1)[k];
        assert(r.0 < i);
        let j = r.0 as int;
        assert(nodes[j].0 == NodeId(j as u64));
        assert(ids_before(nodes, i)[j] == r);
    }
}

#[verifier::external_type_specification]
#[verifier::external_body]
pub struct ExFxHasher(FxHasher);

/// `FxHasher::default()` of rustc-hash: a hasher whose state is zero. Nothing is
/// stated of the hasher, whose state Verus does not see.
#[verifier::external_body]
fn fx_hasher_new() -> FxHasher {
    FxHasher::default()
}

/// `Hasher::write` of rustc-hash's `FxHasher`: mixes the bytes into the state.
/// What the state becomes depends on the width of `usize` on the machine, so
/// nothing is stated of it.
#[verifier::external_body]
fn fx_hasher_write(hasher: &mut FxHasher, bytes: &[u8]) {
    hasher.write(bytes);
}

/// `Hasher::write_u8` of rustc-hash's `FxHasher`: mixes the byte into the
/// state. Nothing is stated of the state, which depends on the machine.
#[verifier::external_body]
fn fx_hasher_write_u8(hasher: &mut FxHasher, x: u8) {
    hasher.write_u8(x);
}

/// `Hasher::write_u32` of rustc-hash's `FxHasher`: mixes the number into the
/// state. Nothing is stated of the state, which depends on the machine.
#[verifier::external_body]
fn fx_hasher_write_u32(hasher: &mut FxHasher, x: u32) {
    hasher.write_u32(x);
}

/// `Hasher::write_u64` of rustc-hash's `FxHasher`: mixes the number into the
/// state. Nothing is stated of the state, which depends on the machine.
#[verifier::external_body]
fn fx_hasher_write_u64(hasher: &mut FxHasher, x: u64) {
    hasher.write_u64(x);
}

/// `Hasher::write_usize` of rustc-hash's `FxHasher`: mixes the number into the
/// state. Nothing is stated of the state, which depends on the machine.
#[verifier::external_body]
fn fx_hasher_write_usize(hasher: &mut FxHasher, x: usize) {
    hasher.write_usize(x);
}

/// `Hasher::write_isize` of std, which `FxHasher` keeps: writes the number as a
/// `usize`. Nothing is stated of the state, which depends on the machine.
#[verifier::external_body]
fn fx_hasher_write_isize(hasher: &mut FxHasher, x: isize) {
    hasher.write_isize(x);
}

/// `Hasher::finish` of rustc-hash's `FxHasher`: the hash of what was written.
/// It depends on the width of `usize` on the machine, so nothing is stated of it.
#[verifier::external_body]
fn fx_hasher_finish(hasher: &FxHasher) -> u64 {
    hasher.finish()
}

impl crate::proto::ProtoNode {
    /// A stable id for the node: the `FxHasher` hash of its content, written to
    /// the hasher as `stable_hash_writes` lists (its identifier, construction
    /// arguments, path when it must not be deduplicated, and input). Used to
    /// remove duplicates from the graph.
    pub fn stable_node_id(&self) -> (r: Option<NodeId>)
        ensures
            r is Some,
    {
        let writes = self.stable_hash_writes();
        let mut hasher = fx_hasher_new();
        let mut i: usize = 0;
        while i < writes.len()
            decreases writes.len() - i,
        {
            match &writes[i] {
                HashWrite::Bytes(b) => fx_hasher_write(&mut hasher, b.as_slice()),
                HashWrite::U8(x) => fx_hasher_write_u8(&mut hasher, *x),
                HashWrite::U32(x) => fx_hasher_write_u32(&mut hasher, *x),
                HashWrite::U64(x) => fx_hasher_write_u64(&mut hasher, *x),
                HashWrite::Usize(x) => fx_hasher_write_usize(&mut hasher, *x),
                HashWrite::Isize(x) => fx_hasher_write_isize(&mut hasher, *x),
            }
            i = i + 1;
        }
        Some(NodeId(fx_hasher_finish(&hasher)))
    }
}

/// `net` with the id of node `i` set to `id`.
pub open spec fn with_id(net: ProtoNetworkView, i: int, id: NodeId) -> ProtoNetworkView {
    ProtoNetworkView { nodes: net.nodes.update(i, (id, net.nodes[i].1)), ..net }
}

/// One step of stable renumbering: the references to `old_id` in the nodes at
/// the positions listed in `refs`, the output and the inputs are sent to `id`,
/// and node `i` takes `id`.
pub open spec fn stable_step(
    cur: ProtoNetworkView,
    refs: Seq<NodeId>,
    i: int,
    old_id: NodeId,
    id: NodeId,
) -> ProtoNetworkView {
    with_id(replaced(cur, refs, old_id, id, false), i, id)
}

/// Stable renumbering of the first `m` nodes of `net` with the ids `ids`: each
/// node's references to the id of node `i` (the dependents and their positions
/// taken from `net`), the output and the inputs follow it to `ids[i]`.
pub open spec fn stable_upto(net: ProtoNetworkView, ids: Seq<NodeId>, m: int) -> ProtoNetworkView
    decreases m,
{
    if m <= 0 {
        net
    } else {
        stable_step(
            stable_upto(net, ids, m - 1),
            outwards(positioned(net.nodes), net.nodes[m - 1].0),
            m - 1,
            net.nodes[m - 1].0,
            ids[m - 1],
        )
    }
}

/// The dependents of a node, named by their positions, are positions of the list.
proof fn lemma_positioned_in_range(nodes: Seq<(NodeId, ProtoNodeView)>, m: int, r: NodeId)
    requires
        0 <= m <= nodes.len(),
        nodes.len() <= u64::MAX,
    ensures
        forall|k: int| 0 <= k < outwards_upto(positioned(nodes), m, r).len() ==> (#[trigger] outwards_upto(
            positioned(nodes),
            m,
            r,
        )[k]).0 < m,
    decreases m,
{
    if m > 0 {
        let pn = positioned(nodes);
        lemma_positioned_in_range(nodes, m - 1, r);
        let a = outwards_upto(pn, m - 1, r);
        let b = occurrences(node_refs(pn[m - 1].1), r, pn[m - 1].0);
        crate::resolve::lemma_occurrences_are_id(node_refs(pn[m - 1].1), r, pn[m - 1].0);
        assert(outwards_upto(pn, m, r) == a + b);
        assert forall|k: int| 0 <= k < (a + b).len() implies (#[trigger] (a + b)[k]).0 < m by {
            if k < a.len() {
                assert((a + b)[k] == a[k]);
            } else {
                assert((a + b)[k] == b[k - a.len()]);
            }
        }
    }
}

impl ProtoNetwork {
    /// Converts all node ids to stable ids (see `ProtoNode::stable_node_id`),
    /// in order, each node's references already renamed when it is hashed:
    /// every reference to a node's old id from the nodes that depended on it,
    /// the output and the inputs follow it to its new id. The nodes must be
    /// topologically sorted.
    pub fn generate_stable_node_ids(&mut self)
        requires
            topologically_sorted(old(self)@.nodes),
        ensures
            final(self)@ == stable_upto(
                old(self)@,
                final(self)@.nodes.map_values(|e: (NodeId, ProtoNodeView)| e.0),
                old(self)@.nodes.len() as int,
            ),
    {
        let ghost net = self@;
        let referrers = self.collect_outwards_keyed(true);
        let n = self.nodes.len();
        proof {
            assert(net.nodes.len() == n);
            assert forall|r: NodeId, j: int| 0 <= j < outwards(positioned(net.nodes), r).len() implies (
            #[trigger] outwards(positioned(net.nodes), r)[j]).0 < n by {
                lemma_positioned_in_range(net.nodes, n as int, r);
            }
        }
        let ghost mut ids: Seq<NodeId> = Seq::empty();
        let mut index: usize = 0;
        while index < n
            invariant
                index <= n,
                n == net.nodes.len(),
                self@.nodes.len() == n,
                ids.len() == index,
                is_edge_map(referrers@, |x: NodeId| outwards(positioned(net.nodes), x)),
                forall|r: NodeId, j: int| 0 <= j < outwards(positioned(net.nodes), r).len() ==> (
                #[trigger] outwards(positioned(net.nodes), r)[j]).0 < n,
                self@ == stable_upto(net, ids, index as int),
                forall|j: int| 0 <= j < index ==> (#[trigger] self@.nodes[j]).0 == ids[j],
                forall|j: int| index <= j < n ==> (#[trigger] self@.nodes[j]).0 == net.nodes[j].0,
            decreases n - index,
        {
            let old_id = self.nodes[index].0;
            let sni = match self.nodes[index].1.stable_node_id() {
                Some(x) => x,
                None => { proof { assert(false); } NodeId(0) },
            };
            proof {
                assert(self@.nodes[index as int] == entry_view(self.nodes@[index as int]));
                assert(old_id == net.nodes[index as int].0);
                assert(listed(referrers@, old_id) == outwards(positioned(net.nodes), old_id)) by {
                    if !referrers@.contains_key(old_id.0) {
                        assert(outwards(positioned(net.nodes), NodeId(old_id.0)).len() == 0);
                    }
                }
            }
            let ghost prev = self@;
            self.replace_node_id(&referrers, old_id, sni, false);
            let ghost mid = self@;
            assert(self@.nodes.len() == self.nodes@.len());
            let mut entry = (NodeId(0), crate::proto::ProtoNode::default());
            std::mem::swap(&mut entry, &mut self.nodes[index]);
            entry.0 = sni;
            std::mem::swap(&mut entry, &mut self.nodes[index]);
            proof {
                assert(self@.nodes =~= mid.nodes.update(index as int, (sni, mid.nodes[index as int].1)));
                let ids2 = ids.push(sni);
                assert forall|m: int| 0 <= m <= index implies #[trigger] stable_upto(net, ids2, m) == stable_upto(net, ids, m) by {
                    lemma_stable_upto_prefix(net, ids, ids2, m);
                }
                lemma_stable_upto_prefix(net, ids, ids2, index as int);
                assert(prev == stable_upto(net, ids2, index as int));
                assert(ids2[index as int] == sni);
                assert(stable_upto(net, ids2, index + 1) == stable_step(
                    stable_upto(net, ids2, index as int),
                    outwards(positioned(net.nodes), net.nodes[index as int].0),
                    index as int,
                    net.nodes[index as int].0,
                    ids2[index as int],
                ));
                ids = ids2;
                assert(self@ == stable_upto(net, ids, index + 1));
                assert forall|j: int| index + 1 <= j < n implies (#[trigger] self@.nodes[j]).0 == net.nodes[j].0 by {
                    assert(mid.nodes[j] == prev.nodes[j] || mid.nodes[j].0 == prev.nodes[j].0);
                }
            }
            index = index + 1;
        }
        proof {
            assert(self@.nodes.map_values(|e: (NodeId, ProtoNodeView)| e.0) =~= ids);
        }
    }
}

proof fn lemma_stable_upto_prefix(net: ProtoNetworkView, ids: Seq<NodeId>, ids2: Seq<NodeId>, m: int)
    requires
        0 <= m <= ids.len(),
        ids.len() <= ids2.len(),
        forall|j: int| 0 <= j < ids.len() ==> ids[j] == ids2[j],
    ensures
        stable_upto(net, ids2, m) == stable_upto(net, ids, m),
    decreases m,
{
    if m > 0 {
        lemma_stable_upto_prefix(net, ids, ids2, m - 1);
    }
}

} // verus!

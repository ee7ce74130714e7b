//! Edge lists keyed by node id, and the rewiring of references from one node to another.

use vstd::prelude::*;

use std::collections::HashMap;

use crate::proto::{
    ConstructionArgs, ProtoNetwork, ProtoNetworkView, ProtoNodeInput, ProtoNodeView, node_refs,
    rename_refs, entry_view, lemma_mapped_is_renamed,
};
use crate::types::NodeId;
use crate::proto::ProtoNode;

verus! {

broadcast use vstd::std_specs::hash::group_hash_axioms;

/// `id` once for each occurrence of `r` in `refs`.
pub open spec fn occurrences(refs: Seq<NodeId>, r: NodeId, id: NodeId) -> Seq<NodeId>
    decreases refs.len(),
{
    if refs.len() == 0 {
        Seq::empty()
    } else {
        occurrences(refs.drop_last(), r, id) + if refs.last() == r {
            seq![id]
        } else {
            Seq::empty()
        }
    }
}

/// The ids of the nodes among the first `m` that refer to `r`, once per reference, in order.
pub open spec fn outwards_upto(nodes: Seq<(NodeId, ProtoNodeView)>, m: int, r: NodeId) -> Seq<NodeId>
    decreases m,
{
    if m <= 0 {
        Seq::empty()
    } else {
        outwards_upto(nodes, m - 1, r) + occurrences(node_refs(nodes[m - 1].1), r, nodes[m - 1].0)
    }
}

/// The ids of the nodes that depend on `r`, once per reference, in order.
pub open spec fn outwards(nodes: Seq<(NodeId, ProtoNodeView)>, r: NodeId) -> Seq<NodeId> {
    outwards_upto(nodes, nodes.len() as int, r)
}

/// The references of the nodes among the first `m` whose id is `id`, in order.
pub open spec fn inwards_upto(nodes: Seq<(NodeId, ProtoNodeView)>, m: int, id: NodeId) -> Seq<NodeId>
    decreases m,
{
    if m <= 0 {
        Seq::empty()
    } else {
        inwards_upto(nodes, m - 1, id) + if nodes[m - 1].0 == id {
            node_refs(nodes[m - 1].1)
        } else {
            Seq::empty()
        }
    }
}

/// The references of the nodes with id `id`, in order.
pub open spec fn inwards(nodes: Seq<(NodeId, ProtoNodeView)>, id: NodeId) -> Seq<NodeId> {
    inwards_upto(nodes, nodes.len() as int, id)
}

/// `x` is listed among the occurrences exactly when it is the id and the reference occurs.
proof fn lemma_occurrences_contains(refs: Seq<NodeId>, r: NodeId, id: NodeId, x: NodeId)
    ensures
        occurrences(refs, r, id).contains(x) <==> (x == id && refs.contains(r)),
    decreases refs.len(),
{
    if refs.len() > 0 {
        let d = refs.drop_last();
        lemma_occurrences_contains(d, r, id, x);
        let a = occurrences(d, r, id);
        let b = if refs.last() == r {
            seq![id]
        } else {
            Seq::<NodeId>::empty()
        };
        assert(occurrences(refs, r, id) == a + b);
        if (a + b).contains(x) {
            let i = choose|i: int| 0 <= i < (a + b).len() && (a + b)[i] == x;
            if i < a.len() {
                assert(a[i] == x);
                let j = choose|j: int| 0 <= j < d.len() && d[j] == r;
                assert(refs[j] == r);
            } else {
                assert(b[i - a.len()] == x);
                assert(refs[refs.len() - 1] == r);
            }
        }
        if x == id && refs.contains(r) {
            let j = choose|j: int| 0 <= j < refs.len() && refs[j] == r;
            if j < d.len() {
                assert(d[j] == r);
                let i = choose|i: int| 0 <= i < a.len() && a[i] == x;
                assert((a + b)[i] == x);
            } else {
                assert((a + b)[a.len() as int] == id);
            }
        }
    }
}

/// The edges in both directions agree: node `x` is listed among the nodes that
/// depend on `r` exactly when `r` is listed among the references of `x`.
pub proof fn lemma_edges_inverse(nodes: Seq<(NodeId, ProtoNodeView)>, r: NodeId, x: NodeId)
    ensures
        outwards(nodes, r).contains(x) <==> inwards(nodes, x).contains(r),
{
    lemma_edges_inverse_upto(nodes, nodes.len() as int, r, x);
}

proof fn lemma_edges_inverse_upto(nodes: Seq<(NodeId, ProtoNodeView)>, m: int, r: NodeId, x: NodeId)
    requires
        m <= nodes.len(),
    ensures
        outwards_upto(nodes, m, r).contains(x) <==> inwards_upto(nodes, m, x).contains(r),
    decreases m,
{
    if m > 0 {
        lemma_edges_inverse_upto(nodes, m - 1, r, x);
        let refs = node_refs(nodes[m - 1].1);
        let oa = outwards_upto(nodes, m - 1, r);
        let ob = occurrences(refs, r, nodes[m - 1].0);
        let ia = inwards_upto(nodes, m - 1, x);
        let ib = if nodes[m - 1].0 == x {
            refs
        } else {
            Seq::<NodeId>::empty()
        };
        lemma_occurrences_contains(refs, r, nodes[m - 1].0, x);
        assert(outwards_upto(nodes, m, r) == oa + ob);
        assert(inwards_upto(nodes, m, x) == ia + ib);
        if (oa + ob).contains(x) {
            let i = choose|i: int| 0 <= i < (oa + ob).len() && (oa + ob)[i] == x;
            if i < oa.len() {
                assert(oa[i] == x);
                let j = choose|j: int| 0 <= j < ia.len() && ia[j] == r;
                assert((ia + ib)[j] == r);
            } else {
                assert(ob[i - oa.len()] == x);
                let j = choose|j: int| 0 <= j < refs.len() && refs[j] == r;
                assert((ia + ib)[ia.len() + j] == r);
            }
        }
        if (ia + ib).contains(r) {
            let i = choose|i: int| 0 <= i < (ia + ib).len() && (ia + ib)[i] == r;
            if i < ia.len() {
                assert(ia[i] == r);
                let j = choose|j: int| 0 <= j < oa.len() && oa[j] == x;
                assert((oa + ob)[j] == x);
            } else {
                assert(ib[i - ia.len()] == r);
                assert(refs.contains(r));
                let j = choose|j: int| 0 <= j < ob.len() && ob[j] == x;
                assert((oa + ob)[oa.len() + j] == x);
            }
        }
    }
}

/// The number of times `v` occurs in `s`.
pub open spec fn count_in(s: Seq<NodeId>, v: NodeId) -> nat
    decreases s.len(),
{
    if s.len() == 0 {
        0
    } else {
        count_in(s.drop_last(), v) + if s.last() == v { 1nat } else { 0nat }
    }
}

proof fn lemma_count_append(a: Seq<NodeId>, b: Seq<NodeId>, v: NodeId)
    ensures
        count_in(a + b, v) == count_in(a, v) + count_in(b, v),
    decreases b.len(),
{
    if b.len() == 0 {
        assert(a + b =~= a);
    } else {
        lemma_count_append(a, b.drop_last(), v);
        assert((a + b).drop_last() =~= a + b.drop_last());
    }
}

proof fn lemma_count_occurrences(refs: Seq<NodeId>, r: NodeId, id: NodeId, x: NodeId)
    ensures
        count_in(occurrences(refs, r, id), x) == if id == x { count_in(refs, r) } else { 0 },
    decreases refs.len(),
{
    if refs.len() > 0 {
        lemma_count_occurrences(refs.drop_last(), r, id, x);
        let a = occurrences(refs.drop_last(), r, id);
        let b = if refs.last() == r {
            seq![id]
        } else {
            Seq::<NodeId>::empty()
        };
        assert(occurrences(refs, r, id) == a + b);
        lemma_count_append(a, b, x);
        if refs.last() == r {
            assert(b.drop_last() =~= Seq::<NodeId>::empty());
            assert(count_in(Seq::<NodeId>::empty(), x) == 0);
            assert(b.last() == id);
            assert(count_in(b, x) == if id == x { 1nat } else { 0nat });
        } else {
            assert(count_in(b, x) == 0);
        }
    }
}

/// The edge maps mirror each other's counts: `r` occurs among the references of
/// the nodes with id `x` as many times as `x` occurs among the nodes that
/// depend on `r`.
pub proof fn lemma_edge_counts(nodes: Seq<(NodeId, ProtoNodeView)>, r: NodeId, x: NodeId)
    ensures
        count_in(inwards(nodes, x), r) == count_in(outwards(nodes, r), x),
{
    lemma_edge_counts_upto(nodes, nodes.len() as int, r, x);
}

proof fn lemma_edge_counts_upto(nodes: Seq<(NodeId, ProtoNodeView)>, m: int, r: NodeId, x: NodeId)
    requires
        m <= nodes.len(),
    ensures
        count_in(inwards_upto(nodes, m, x), r) == count_in(outwards_upto(nodes, m, r), x),
    decreases m,
{
    if m > 0 {
        lemma_edge_counts_upto(nodes, m - 1, r, x);
        let refs = node_refs(nodes[m - 1].1);
        let ib = if nodes[m - 1].0 == x {
            refs
        } else {
            Seq::<NodeId>::empty()
        };
        lemma_count_append(inwards_upto(nodes, m - 1, x), ib, r);
        lemma_count_append(outwards_upto(nodes, m - 1, r), occurrences(refs, r, nodes[m - 1].0), x);
        lemma_count_occurrences(refs, r, nodes[m - 1].0, x);
    }
}

/// The nodes, each with its position as its id.
pub open spec fn positioned(nodes: Seq<(NodeId, ProtoNodeView)>) -> Seq<(NodeId, ProtoNodeView)> {
    Seq::new(nodes.len(), |j: int| (NodeId(j as u64), nodes[j].1))
}

/// The nodes as they are, or each with its position as its id.
pub open spec fn keyed(nodes: Seq<(NodeId, ProtoNodeView)>, by_position: bool) -> Seq<(NodeId, ProtoNodeView)> {
    if by_position {
        positioned(nodes)
    } else {
        nodes
    }
}

/// `m` holds, under the number of each id, the list `lists(id)` when it is not empty.
pub open spec fn is_edge_map(m: Map<u64, Vec<NodeId>>, lists: spec_fn(NodeId) -> Seq<NodeId>) -> bool {
    forall|key: u64|
        (#[trigger] m.contains_key(key) <==> lists(NodeId(key)).len() > 0) && (m.contains_key(key)
            ==> m[key]@ == lists(NodeId(key)))
}

/// Appends `id` to the list stored under `key`.
fn push_edge(edges: &mut HashMap<u64, Vec<NodeId>>, key: u64, id: NodeId)
    ensures
        final(edges)@.contains_key(key),
        final(edges)@[key]@ == (if old(edges)@.contains_key(key) {
            old(edges)@[key]@
        } else {
            Seq::empty()
        }).push(id),
        forall|k: u64| k != key ==> (#[trigger] final(edges)@.contains_key(k) <==> old(edges)@.contains_key(k)),
        forall|k: u64| k != key && old(edges)@.contains_key(k) ==> #[trigger] final(edges)@[k] == old(edges)@[k],
{
    let mut list = match edges.remove(&key) {
        Some(v) => v,
        None => Vec::new(),
    };
    list.push(id);
    edges.insert(key, list);
}

/// The lists of `outwards_upto(nodes, i, _)` extended by the first `t` references of node `i`.
pub open spec fn outwards_partial(nodes: Seq<(NodeId, ProtoNodeView)>, i: int, t: int, x: NodeId) -> Seq<NodeId> {
    outwards_upto(nodes, i, x) + occurrences(node_refs(nodes[i].1).take(t), x, nodes[i].0)
}

proof fn lemma_outwards_partial_step(nodes: Seq<(NodeId, ProtoNodeView)>, i: int, t: int, x: NodeId)
    requires
        0 <= i < nodes.len(),
        0 <= t < node_refs(nodes[i].1).len(),
    ensures
        outwards_partial(nodes, i, t + 1, x) == outwards_partial(nodes, i, t, x) + if node_refs(
            nodes[i].1,
        )[t] == x {
            seq![nodes[i].0]
        } else {
            Seq::empty()
        },
{
    let refs = node_refs(nodes[i].1);
    assert(refs.take(t + 1).drop_last() =~= refs.take(t));
    assert(refs.take(t + 1).last() == refs[t]);
    let a = outwards_upto(nodes, i, x);
    let b = occurrences(refs.take(t), x, nodes[i].0);
    let c = if refs[t] == x {
        seq![nodes[i].0]
    } else {
        Seq::<NodeId>::empty()
    };
    assert(a + (b + c) =~= (a + b) + c);
}

proof fn lemma_outwards_partial_ends(nodes: Seq<(NodeId, ProtoNodeView)>, i: int, x: NodeId)
    requires
        0 <= i < nodes.len(),
    ensures
        outwards_partial(nodes, i, 0, x) == outwards_upto(nodes, i, x),
        outwards_partial(nodes, i, node_refs(nodes[i].1).len() as int, x) == outwards_upto(
            nodes,
            i + 1,
            x,
        ),
{
    let refs = node_refs(nodes[i].1);
    assert(refs.take(0) =~= Seq::<NodeId>::empty());
    assert(outwards_partial(nodes, i, 0, x) =~= outwards_upto(nodes, i, x));
    assert(refs.take(refs.len() as int) =~= refs);
}

/// Records the reference `r` (the `t`-th reference of node `i`) in the outwards lists.
proof fn lemma_push_outwards(
    before: Map<u64, Vec<NodeId>>,
    after: Map<u64, Vec<NodeId>>,
    nodes: Seq<(NodeId, ProtoNodeView)>,
    i: int,
    t: int,
)
    requires
        0 <= i < nodes.len(),
        0 <= t < node_refs(nodes[i].1).len(),
        is_edge_map(before, |x: NodeId| outwards_partial(nodes, i, t, x)),
        after.contains_key(node_refs(nodes[i].1)[t].0),
        after[node_refs(nodes[i].1)[t].0]@ == (if before.contains_key(node_refs(nodes[i].1)[t].0) {
            before[node_refs(nodes[i].1)[t].0]@
        } else {
            Seq::empty()
        }).push(nodes[i].0),
        forall|k: u64| k != node_refs(nodes[i].1)[t].0 ==> (#[trigger] after.contains_key(k) <==> before.contains_key(k)),
        forall|k: u64| k != node_refs(nodes[i].1)[t].0 && before.contains_key(k) ==> #[trigger] after[k] == before[k],
    ensures
        is_edge_map(after, |x: NodeId| outwards_partial(nodes, i, t + 1, x)),
{
    let r = node_refs(nodes[i].1)[t];
    assert forall|key: u64|
        (#[trigger] after.contains_key(key) <==> outwards_partial(nodes, i, t + 1, NodeId(key)).len() > 0)
            && (after.contains_key(key) ==> after[key]@ == outwards_partial(nodes, i, t + 1, NodeId(key))) by {
        lemma_outwards_partial_step(nodes, i, t, NodeId(key));
        assert(before.contains_key(key) <==> outwards_partial(nodes, i, t, NodeId(key)).len() > 0);
        if key == r.0 {
            assert(NodeId(key) == r);
            if !before.contains_key(key) {
                assert(outwards_partial(nodes, i, t, NodeId(key)) =~= Seq::<NodeId>::empty());
            }
        } else {
            assert(NodeId(key) != r);
            assert(outwards_partial(nodes, i, t + 1, NodeId(key)) =~= outwards_partial(nodes, i, t, NodeId(key)));
        }
    }
}

impl ProtoNetwork {
    /// For each node id, the ids of the nodes that take it as an input or a
    /// construction argument (once per reference, in the order of the nodes).
    pub fn collect_outwards_edges(&self) -> (r: HashMap<u64, Vec<NodeId>>)
        requires
            crate::sort::refs_resolve(self@.nodes),
        ensures
            is_edge_map(r@, |x: NodeId| outwards(self@.nodes, x)),
    {
        self.collect_outwards_keyed(false)
    }

    /// For each node id, the nodes that refer to it (once per reference, in the
    /// order of the nodes), each named by its id or, with `by_position`, by its
    /// position.
    pub(crate) fn collect_outwards_keyed(&self, by_position: bool) -> (r: HashMap<u64, Vec<NodeId>>)
        ensures
            is_edge_map(r@, |x: NodeId| outwards(keyed(self@.nodes, by_position), x)),
    {
        let ghost nv = keyed(self@.nodes, by_position);
        let mut edges: HashMap<u64, Vec<NodeId>> = HashMap::new();
        proof {
            assert forall|key: u64| #![auto] !edges@.contains_key(key) && outwards_upto(nv, 0, NodeId(key)).len() == 0 by {}
        }
        let mut i: usize = 0;
        while i < self.nodes.len()
            invariant
                i <= self.nodes.len(),
                nv == keyed(self@.nodes, by_position),
                nv.len() == self@.nodes.len(),
                is_edge_map(edges@, |x: NodeId| outwards_upto(nv, i as int, x)),
            decreases self.nodes.len() - i,
        {
            let id = if by_position { NodeId(i as u64) } else { self.nodes[i].0 };
            let ghost refs = node_refs(nv[i as int].1);
            proof {
                assert(self@.nodes[i as int] == entry_view(self.nodes@[i as int]));
                assert(nv[i as int].1 == self@.nodes[i as int].1);
                assert(nv[i as int].0 == id);
                assert forall|x: NodeId| #![auto] outwards_partial(nv, i as int, 0, x) == outwards_upto(nv, i as int, x) by {
                    lemma_outwards_partial_ends(nv, i as int, x);
                }
                assert(is_edge_map(edges@, |x: NodeId| outwards_partial(nv, i as int, 0, x)));
            }
            let mut cnt: usize = 0;
            match &self.nodes[i].1.input {
                ProtoNodeInput::Node(ref_id) | ProtoNodeInput::NodeLambda(ref_id) => {
                    let ghost before = edges@;
                    assert(refs[0] == *ref_id);
                    push_edge(&mut edges, ref_id.0, id);
                    proof {
                        lemma_push_outwards(before, edges@, nv, i as int, 0);
                    }
                    cnt = 1;
                },
                _ => {},
            }
            assert(cnt as int == crate::proto::input_ref(nv[i as int].1.input).len());
            match &self.nodes[i].1.construction_args {
                ConstructionArgs::Nodes(ref_nodes) => {
                    let mut t: usize = 0;
                    while t < ref_nodes.len()
                        invariant
                            t <= ref_nodes.len(),
                            0 <= i < self.nodes.len(),
                            nv == keyed(self@.nodes, by_position),
                            nv.len() == self@.nodes.len(),
                            id == nv[i as int].0,
                            refs == node_refs(nv[i as int].1),
                            refs.len() == cnt + ref_nodes.len(),
                            forall|k: int| 0 <= k < ref_nodes.len() ==> refs[cnt + k] == (#[trigger] ref_nodes@[k]).0,
                            is_edge_map(edges@, |x: NodeId| outwards_partial(nv, i as int, cnt + t, x)),
                        decreases ref_nodes.len() - t,
                    {
                        let (ref_id, _) = ref_nodes[t];
                        assert(refs[cnt + t] == ref_id);
                        let ghost before = edges@;
                        push_edge(&mut edges, ref_id.0, id);
                        proof {
                            lemma_push_outwards(before, edges@, nv, i as int, cnt + t);
                        }
                        t = t + 1;
                    }
                },
                _ => {},
            }
            proof {
                assert forall|x: NodeId| #![auto] outwards_partial(nv, i as int, refs.len() as int, x) == outwards_upto(nv, i + 1, x) by {
                    lemma_outwards_partial_ends(nv, i as int, x);
                }
            }
            i = i + 1;
        }
        edges
    }
}

/// The lists of `inwards_upto(nodes, i, _)` extended by the first `t` references of node `i`.
pub open spec fn inwards_partial(nodes: Seq<(NodeId, ProtoNodeView)>, i: int, t: int, x: NodeId) -> Seq<NodeId> {
    inwards_upto(nodes, i, x) + if nodes[i].0 == x {
        node_refs(nodes[i].1).take(t)
    } else {
        Seq::empty()
    }
}

proof fn lemma_push_inwards(
    before: Map<u64, Vec<NodeId>>,
    after: Map<u64, Vec<NodeId>>,
    nodes: Seq<(NodeId, ProtoNodeView)>,
    i: int,
    t: int,
)
    requires
        0 <= i < nodes.len(),
        0 <= t < node_refs(nodes[i].1).len(),
        is_edge_map(before, |x: NodeId| inwards_partial(nodes, i, t, x)),
        after.contains_key(nodes[i].0.0),
        after[nodes[i].0.0]@ == (if before.contains_key(nodes[i].0.0) {
            before[nodes[i].0.0]@
        } else {
            Seq::empty()
        }).push(node_refs(nodes[i].1)[t]),
        forall|k: u64| k != nodes[i].0.0 ==> (#[trigger] after.contains_key(k) <==> before.contains_key(k)),
        forall|k: u64| k != nodes[i].0.0 && before.contains_key(k) ==> #[trigger] after[k] == before[k],
    ensures
        is_edge_map(after, |x: NodeId| inwards_partial(nodes, i, t + 1, x)),
{
    let refs = node_refs(nodes[i].1);
    let id = nodes[i].0;
    assert(refs.take(t + 1) =~= refs.take(t).push(refs[t]));
    assert forall|key: u64|
        (#[trigger] after.contains_key(key) <==> inwards_partial(nodes, i, t + 1, NodeId(key)).len() > 0)
            && (after.contains_key(key) ==> after[key]@ == inwards_partial(nodes, i, t + 1, NodeId(key))) by {
        assert(before.contains_key(key) <==> inwards_partial(nodes, i, t, NodeId(key)).len() > 0);
        let a = inwards_upto(nodes, i, NodeId(key));
        if key == id.0 {
            assert(NodeId(key) == id);
            assert(inwards_partial(nodes, i, t + 1, NodeId(key)) =~= inwards_partial(nodes, i, t, NodeId(key)).push(refs[t]));
            if !before.contains_key(key) {
                assert(inwards_partial(nodes, i, t, NodeId(key)) =~= Seq::<NodeId>::empty());
            }
        } else {
            assert(NodeId(key) != id);
            assert(inwards_partial(nodes, i, t + 1, NodeId(key)) =~= inwards_partial(nodes, i, t, NodeId(key)));
        }
    }
}

proof fn lemma_inwards_partial_ends(nodes: Seq<(NodeId, ProtoNodeView)>, i: int, x: NodeId)
    requires
        0 <= i < nodes.len(),
    ensures
        inwards_partial(nodes, i, 0, x) == inwards_upto(nodes, i, x),
        inwards_partial(nodes, i, node_refs(nodes[i].1).len() as int, x) == inwards_upto(nodes, i + 1, x),
{
    let refs = node_refs(nodes[i].1);
    assert(refs.take(0) =~= Seq::<NodeId>::empty());
    assert(inwards_partial(nodes, i, 0, x) =~= inwards_upto(nodes, i, x));
    assert(refs.take(refs.len() as int) =~= refs);
}

impl ProtoNetwork {
    /// For each node id, the ids of the nodes that it takes as an input or a
    /// construction argument (in the order of the nodes).
    pub fn collect_inwards_edges(&self) -> (r: HashMap<u64, Vec<NodeId>>)
        requires
            crate::sort::refs_resolve(self@.nodes),
        ensures
            is_edge_map(r@, |x: NodeId| inwards(self@.nodes, x)),
    {
        let ghost nv = self@.nodes;
        let mut edges: HashMap<u64, Vec<NodeId>> = HashMap::new();
        proof {
            assert forall|key: u64| #![auto] !edges@.contains_key(key) && inwards_upto(nv, 0, NodeId(key)).len() == 0 by {}
        }
        let mut i: usize = 0;
        while i < self.nodes.len()
            invariant
                i <= self.nodes.len(),
                nv == self@.nodes,
                is_edge_map(edges@, |x: NodeId| inwards_upto(nv, i as int, x)),
            decreases self.nodes.len() - i,
        {
            let id = self.nodes[i].0;
            let ghost refs = node_refs(nv[i as int].1);
            proof {
                assert(nv[i as int] == entry_view(self.nodes@[i as int]));
                assert forall|x: NodeId| #![auto] inwards_partial(nv, i as int, 0, x) == inwards_upto(nv, i as int, x) by {
                    lemma_inwards_partial_ends(nv, i as int, x);
                }
                assert(is_edge_map(edges@, |x: NodeId| inwards_partial(nv, i as int, 0, x)));
            }
            let mut cnt: usize = 0;
            match &self.nodes[i].1.input {
                ProtoNodeInput::Node(ref_id) | ProtoNodeInput::NodeLambda(ref_id) => {
                    let ghost before = edges@;
                    assert(refs[0] == *ref_id);
                    push_edge(&mut edges, id.0, *ref_id);
                    proof {
                        lemma_push_inwards(before, edges@, nv, i as int, 0);
                    }
                    cnt = 1;
                },
                _ => {},
            }
            assert(cnt as int == crate::proto::input_ref(nv[i as int].1.input).len());
            match &self.nodes[i].1.construction_args {
                ConstructionArgs::Nodes(ref_nodes) => {
                    let mut t: usize = 0;
                    while t < ref_nodes.len()
                        invariant
                            t <= ref_nodes.len(),
                            0 <= i < self.nodes.len(),
                            nv == self@.nodes,
                            id == nv[i as int].0,
                            refs == node_refs(nv[i as int].1),
                            refs.len() == cnt + ref_nodes.len(),
                            forall|k: int| 0 <= k < ref_nodes.len() ==> refs[cnt + k] == (#[trigger] ref_nodes@[k]).0,
                            is_edge_map(edges@, |x: NodeId| inwards_partial(nv, i as int, cnt + t, x)),
                        decreases ref_nodes.len() - t,
                    {
                        let (ref_id, _) = ref_nodes[t];
                        assert(refs[cnt + t] == ref_id);
                        let ghost before = edges@;
                        push_edge(&mut edges, id.0, ref_id);
                        proof {
                            lemma_push_inwards(before, edges@, nv, i as int, cnt + t);
                        }
                        t = t + 1;
                    }
                },
                _ => {},
            }
            proof {
                assert forall|x: NodeId| #![auto] inwards_partial(nv, i as int, refs.len() as int, x) == inwards_upto(nv, i + 1, x) by {
                    lemma_inwards_partial_ends(nv, i as int, x);
                }
            }
            i = i + 1;
        }
        edges
    }
}

/// The renaming that sends `a` to `b` and leaves every other id alone.
pub open spec fn swap_id(a: NodeId, b: NodeId) -> spec_fn(NodeId) -> NodeId {
    |x: NodeId| if x == a { b } else { x }
}

/// The ids of the nodes listed in `m` under `a`, or none.
pub open spec fn listed(m: Map<u64, Vec<NodeId>>, a: NodeId) -> Seq<NodeId> {
    if m.contains_key(a.0) {
        m[a.0]@
    } else {
        Seq::empty()
    }
}

/// `net` with every reference to `a` in the nodes at the positions named by
/// `referrers` sent to `b` (with `skip_lambdas`, references to lambda nodes
/// stay), and with `a` replaced by `b` as the output and among the inputs.
pub open spec fn replaced(
    net: ProtoNetworkView,
    referrers: Seq<NodeId>,
    a: NodeId,
    b: NodeId,
    skip_lambdas: bool,
) -> ProtoNetworkView {
    ProtoNetworkView {
        nodes: Seq::new(
            net.nodes.len(),
            |i: int|
                if referrers.contains(NodeId(i as u64)) {
                    (net.nodes[i].0, rename_refs(net.nodes[i].1, swap_id(a, b), skip_lambdas))
                } else {
                    net.nodes[i]
                },
        ),
        output: swap_id(a, b)(net.output),
        inputs: net.inputs.map_values(swap_id(a, b)),
    }
}

/// Sending `a` to `b` twice is sending it once.
pub proof fn lemma_rename_swap_twice(n: ProtoNodeView, a: NodeId, b: NodeId, skip_lambdas: bool)
    ensures
        rename_refs(rename_refs(n, swap_id(a, b), skip_lambdas), swap_id(a, b), skip_lambdas)
            == rename_refs(n, swap_id(a, b), skip_lambdas),
{
    let f = swap_id(a, b);
    let once = rename_refs(n, f, skip_lambdas);
    let twice = rename_refs(once, f, skip_lambdas);
    match n.construction_args {
        crate::proto::ConstructionArgsView::Nodes(v) => {
            let w1 = once.construction_args->Nodes_0;
            let w2 = twice.construction_args->Nodes_0;
            assert(w2 =~= w1);
        },
        _ => {},
    }
}

impl ProtoNetwork {
    /// Updates every reference to `node_id` in the nodes that `outwards_edges`
    /// lists under it, and the output and the inputs, to `compose_node_id`.
    /// With `skip_lambdas`, references to lambda nodes are left alone.
    pub fn replace_node_id(
        &mut self,
        outwards_edges: &HashMap<u64, Vec<NodeId>>,
        node_id: NodeId,
        compose_node_id: NodeId,
        skip_lambdas: bool,
    )
        requires
            forall|k: int|
                0 <= k < listed(outwards_edges@, node_id).len() ==> (#[trigger] listed(
                    outwards_edges@,
                    node_id,
                )[k]).0 < old(self)@.nodes.len(),
        ensures
            final(self)@ == replaced(
                old(self)@,
                listed(outwards_edges@, node_id),
                node_id,
                compose_node_id,
                skip_lambdas,
            ),
    {
        let ghost net = self@;
        let ghost referrers = listed(outwards_edges@, node_id);
        let ghost sw = swap_id(node_id, compose_node_id);
        let empty: Vec<NodeId> = Vec::new();
        let referring_nodes = match outwards_edges.get(&node_id.0) {
            Some(v) => v,
            None => &empty,
        };
        assert(referring_nodes@ == referrers);
        let mut t: usize = 0;
        while t < referring_nodes.len()
            invariant
                t <= referring_nodes.len(),
                referring_nodes@ == referrers,
                sw == swap_id(node_id, compose_node_id),
                forall|k: int| 0 <= k < referrers.len() ==> (#[trigger] referrers[k]).0 < net.nodes.len(),
                self.nodes.len() == net.nodes.len(),
                self@.output == net.output,
                self@.inputs == net.inputs,
                forall|i: int|
                    0 <= i < net.nodes.len() ==> #[trigger] self@.nodes[i] == if referrers.take(t as int).contains(
                        NodeId(i as u64),
                    ) {
                        (net.nodes[i].0, rename_refs(net.nodes[i].1, sw, skip_lambdas))
                    } else {
                        net.nodes[i]
                    },
            decreases referring_nodes.len() - t,
        {
            let referring_node_id = referring_nodes[t];
            let idx = referring_node_id.0 as usize;
            let ghost before = self@.nodes;
            let ghost old_node = self@.nodes[idx as int].1;
            let f = |id: NodeId| -> (r: NodeId)
                ensures
                    r == (if id == node_id { compose_node_id } else { id }),
                {
                    if id == node_id {
                        compose_node_id
                    } else {
                        id
                    }
                };
            let mut entry = (NodeId(0), crate::proto::ProtoNode::default());
            std::mem::swap(&mut entry, &mut self.nodes[idx]);
            entry.1.map_ids(f, skip_lambdas);
            proof {
                assert forall|k: int, b: NodeId|
                    0 <= k < node_refs(old_node).len() && #[trigger] f.ensures((node_refs(old_node)[k],), b)
                    implies b == sw(node_refs(old_node)[k]) by {}
                lemma_mapped_is_renamed(old_node, entry.1@, f, sw, skip_lambdas);
                lemma_rename_swap_twice(net.nodes[idx as int].1, node_id, compose_node_id, skip_lambdas);
            }
            std::mem::swap(&mut entry, &mut self.nodes[idx]);
            proof {
                assert(referrers.take(t + 1) =~= referrers.take(t as int).push(referring_node_id));
                assert forall|i: int| 0 <= i < net.nodes.len() implies #[trigger] self@.nodes[i] == if referrers.take(
                    t + 1,
                ).contains(NodeId(i as u64)) {
                    (net.nodes[i].0, rename_refs(net.nodes[i].1, sw, skip_lambdas))
                } else {
                    net.nodes[i]
                } by {
                    if i == idx {
                        assert(NodeId(i as u64) == referring_node_id);
                        assert(referrers.take(t + 1)[t as int] == referring_node_id);
                    } else {
                        assert(self@.nodes[i] == before[i]);
                        assert(NodeId(i as u64) != referring_node_id);
                        if referrers.take(t + 1).contains(NodeId(i as u64)) {
                            let j = choose|j: int| 0 <= j < t + 1 && #[trigger] referrers.take(t + 1)[j] == NodeId(i as u64);
                            assert(referrers.take(t as int)[j] == NodeId(i as u64));
                        }
                    }
                }
            }
            t = t + 1;
        }
        proof {
            assert(referrers.take(referrers.len() as int) =~= referrers);
        }
        proof {
            assert forall|i: int| 0 <= i < net.nodes.len() implies #[trigger] self@.nodes[i]
                == replaced(net, referrers, node_id, compose_node_id, skip_lambdas).nodes[i] by {}
            assert(self@.nodes =~= replaced(net, referrers, node_id, compose_node_id, skip_lambdas).nodes);
        }
        if self.output == node_id {
            self.output = compose_node_id;
        }
        let ghost nodes_done = self@.nodes;
        let ghost output_done = self@.output;
        let mut i: usize = 0;
        while i < self.inputs.len()
            invariant
                i <= self.inputs.len(),
                self.inputs.len() == net.inputs.len(),
                sw == swap_id(node_id, compose_node_id),
                forall|k: int| 0 <= k < i ==> #[trigger] self.inputs@[k] == sw(net.inputs[k]),
                forall|k: int| i <= k < self.inputs.len() ==> #[trigger] self.inputs@[k] == net.inputs[k],
                self@.nodes == nodes_done,
                self@.output == output_done,
            decreases self.inputs.len() - i,
        {
            if self.inputs[i] == node_id {
                self.inputs.set(i, compose_node_id);
            }
            i = i + 1;
        }
        proof {
            assert(self@.inputs =~= net.inputs.map_values(sw));
        }
    }
}

} // verus!

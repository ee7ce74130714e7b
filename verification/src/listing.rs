//! A readable listing of a proto network: the output node, and under each node
//! the nodes it is built from, indented.

use vstd::prelude::*;

use crate::proto::{ConstructionArgs, ConstructionArgsView, ProtoNetwork, ProtoNode, ProtoNodeInput, ProtoNodeInputView, ProtoNodeView};
use crate::report::{debug_quoted, push_quoted};
use crate::text::decimal_text;
use crate::typecheck::{push_type_text, type_text};
use crate::types::{InlineRust, InlineRustView, NodeId, TaggedValue, TaggedValueView};

verus! {

/// `n` tab characters.
pub open spec fn tabs(n: nat) -> Seq<char> {
    Seq::new(n, |_i: int| '\t')
}

/// The position of the first node with the given id, or -1.
pub open spec fn first_index_of(nodes: Seq<(NodeId, ProtoNodeView)>, id: NodeId) -> int
    decreases nodes.len(),
{
    if nodes.len() == 0 {
        -1
    } else if first_index_of(nodes.drop_last(), id) >= 0 {
        first_index_of(nodes.drop_last(), id)
    } else if nodes.last().0 == id {
        nodes.len() - 1
    } else {
        -1
    }
}

/// How a node's call argument is described.
pub open spec fn input_label(input: ProtoNodeInputView) -> Seq<char> {
    match input {
        ProtoNodeInputView::Empty => "None"@,
        ProtoNodeInputView::ManualComposition(t) => "Manual Composition (type = "@ + type_text(t) + ")"@,
        ProtoNodeInputView::Node(_) => "Node"@,
        ProtoNodeInputView::NodeLambda(_) => "Lambda Node"@,
    }
}

/// A stored value as it is listed: its kind, with its content in brackets.
pub open spec fn value_label(v: TaggedValueView) -> Seq<char> {
    match v {
        TaggedValueView::Unit => "None"@,
        TaggedValueView::Bool(b) => "Bool("@ + (if b { "true"@ } else { "false"@ }) + ")"@,
        TaggedValueView::U32(x) => "U32("@ + decimal_text(x as nat) + ")"@,
        TaggedValueView::U64(x) => "U64("@ + decimal_text(x as nat) + ")"@,
        TaggedValueView::String(s) => "String("@ + debug_quoted(s) + ")"@,
    }
}

/// An expression as it is listed: the expression quoted, and its type.
pub open spec fn inline_label(i: InlineRustView) -> Seq<char> {
    "InlineRust { expr: "@ + debug_quoted(i.expr) + ", ty: "@ + type_text(i.ty) + " }"@
}

/// Which of the four ways of calling a node an input is.
pub open spec fn input_kind(input: ProtoNodeInputView) -> int {
    match input {
        ProtoNodeInputView::Empty => 0,
        ProtoNodeInputView::ManualComposition(_) => 1,
        ProtoNodeInputView::Node(_) => 2,
        ProtoNodeInputView::NodeLambda(_) => 3,
    }
}

/// The listing tells the ways of calling a node apart: inputs of different
/// kinds get different labels, a node input is listed as "Node" and a lambda
/// input as "Lambda Node", whatever node they name.
pub proof fn lemma_input_labels_distinct(x: ProtoNodeInputView, y: ProtoNodeInputView)
    ensures
        input_kind(x) != input_kind(y) ==> input_label(x) != input_label(y),
        x is Node ==> input_label(x) == "Node"@,
        x is NodeLambda ==> input_label(x) == "Lambda Node"@,
{
    reveal_strlit("None");
    reveal_strlit("Manual Composition (type = ");
    reveal_strlit(")");
    reveal_strlit("Node");
    reveal_strlit("Lambda Node");
    let lx = input_label(x);
    let ly = input_label(y);
    if input_kind(x) != input_kind(y) {
        if input_kind(x) == 1 {
            assert(lx[0] == 'M');
        }
        if input_kind(y) == 1 {
            assert(ly[0] == 'M');
        }
        if input_kind(x) == 3 || input_kind(y) == 3 {
            assert(lx[0] != ly[0] || lx.len() != ly.len());
        } else if input_kind(x) != 1 && input_kind(y) != 1 {
            assert(lx[2] != ly[2]);
        }
    }
}

/// The first lines of a node's listing: its name, and how it is called one level deeper.
pub open spec fn node_head(node: ProtoNodeView, indent: nat) -> Seq<char> {
    tabs(indent) + "Node: "@ + node.identifier + "\n"@ + tabs(indent) + "{\n"@ + tabs(indent + 1) + "Input: "@
        + input_label(node.input) + "\n"@
}

/// The closing line of a node's listing.
pub open spec fn node_tail(indent: nat) -> Seq<char> {
    tabs(indent) + "}\n"@
}

/// The listing of the node with the given id at the given depth: its head, its
/// body and its closing line; `{{Unknown Node}}` for an id that no node has.
/// `None` when the nesting goes deeper than `fuel` levels.
pub open spec fn node_listing(nodes: Seq<(NodeId, ProtoNodeView)>, id: NodeId, indent: nat, fuel: nat) -> Option<
    Seq<char>,
>
    decreases fuel, 2nat,
{
    if fuel == 0 {
        None
    } else {
        let k = first_index_of(nodes, id);
        if k < 0 {
            Some(tabs(indent) + "{{Unknown Node}}"@)
        } else {
            match node_body(nodes, nodes[k].1.construction_args, indent, fuel) {
                Some(body) => Some(node_head(nodes[k].1, indent) + body + node_tail(indent)),
                None => None,
            }
        }
    }
}

/// The body of a node's listing, one level deeper: its value, its expression,
/// or the listings of the nodes it is built from.
pub open spec fn node_body(nodes: Seq<(NodeId, ProtoNodeView)>, args: ConstructionArgsView, indent: nat, fuel: nat) -> Option<
    Seq<char>,
>
    decreases fuel, 1nat,
{
    match args {
        ConstructionArgsView::Value(v) => Some(tabs(indent + 1) + "Value construction argument: "@ + value_label(v)),
        ConstructionArgsView::Inline(i) => Some(tabs(indent + 1) + "Inline construction argument: "@ + inline_label(i)),
        ConstructionArgsView::Nodes(list) => if fuel == 0 {
            None
        } else {
            args_listing(nodes, list, indent + 1, (fuel - 1) as nat)
        },
    }
}

/// The listings of the given nodes one after the other (see `node_listing`).
pub open spec fn args_listing(
    nodes: Seq<(NodeId, ProtoNodeView)>,
    list: Seq<(NodeId, bool)>,
    indent: nat,
    fuel: nat,
) -> Option<Seq<char>>
    decreases fuel, list.len() + 3,
{
    if list.len() == 0 {
        Some(Seq::empty())
    } else {
        match args_listing(nodes, list.drop_last(), indent, fuel) {
            Some(a) => match node_listing(nodes, list.last().0, indent, fuel) {
                Some(b) => Some(a + b),
                None => None,
            },
            None => None,
        }
    }
}

/// Whether the listing of a network ends: no node reached from the output
/// through construction arguments is built, directly or not, from itself (the
/// nesting then stays within one level per node, and one more for an unknown id).
pub open spec fn listing_ends(net: crate::proto::ProtoNetworkView) -> bool {
    node_listing(net.nodes, net.output, 0, net.nodes.len() + 1) is Some
}

/// The listing of a network, from its output node (see `node_listing`).
pub open spec fn network_listing(net: crate::proto::ProtoNetworkView) -> Seq<char> {
    "Proto Network with nodes: "@ + node_listing(net.nodes, net.output, 0, net.nodes.len() + 1)->Some_0
}

/// When the listings of a prefix of some nodes do not exist, neither do theirs.
proof fn lemma_args_listing_none(
    nodes: Seq<(NodeId, ProtoNodeView)>,
    list: Seq<(NodeId, bool)>,
    indent: nat,
    fuel: nat,
    j: int,
)
    requires
        0 <= j <= list.len(),
        args_listing(nodes, list.take(j), indent, fuel) is None,
    ensures
        args_listing(nodes, list, indent, fuel) is None,
    decreases list.len() - j,
{
    if j == list.len() {
        assert(list.take(j) =~= list);
    } else {
        assert(list.take(j + 1).drop_last() =~= list.take(j));
        lemma_args_listing_none(nodes, list, indent, fuel, j + 1);
    }
}

/// Appends `n` tabs.
fn push_tabs(out: &mut String, n: usize)
    ensures
        final(out)@ == old(out)@ + tabs(n as nat),
{
    let ghost start = out@;
    let mut i: usize = 0;
    assert(start + tabs(0) =~= start);
    while i < n
        invariant
            i <= n,
            out@ == start + tabs(i as nat),
        decreases n - i,
    {
        out.append("\t");
        proof {
            reveal_strlit("\t");
            assert(start + tabs(i as nat) + "\t"@ =~= start + tabs((i + 1) as nat));
        }
        i = i + 1;
    }
}

/// Appends the listing of a stored value (see `value_label`).
fn push_value_label(out: &mut String, v: &TaggedValue)
    ensures
        final(out)@ == old(out)@ + value_label(v@),
{
    let ghost start = out@;
    match v {
        TaggedValue::Unit => {
            out.append("None");
        },
        TaggedValue::Bool(b) => {
            out.append("Bool(");
            if *b {
                out.append("true");
            } else {
                out.append("false");
            }
            out.append(")");
        },
        TaggedValue::U32(x) => {
            out.append("U32(");
            crate::text::push_digits(out, *x as u64, 10);
            out.append(")");
        },
        TaggedValue::U64(x) => {
            out.append("U64(");
            crate::text::push_digits(out, *x, 10);
            out.append(")");
        },
        TaggedValue::String(s) => {
            out.append("String(");
            push_quoted(out, s.as_str());
            out.append(")");
        },
    }
    proof {
        reveal_strlit("None");
        reveal_strlit("Bool(");
        reveal_strlit("true");
        reveal_strlit("false");
        reveal_strlit(")");
        reveal_strlit("U32(");
        reveal_strlit("U64(");
        reveal_strlit("String(");
        assert(out@ =~= start + value_label(v@));
    }
}

/// Appends the listing of an expression (see `inline_label`).
fn push_inline_label(out: &mut String, i: &InlineRust)
    ensures
        final(out)@ == old(out)@ + inline_label(i@),
{
    let ghost start = out@;
    out.append("InlineRust { expr: ");
    push_quoted(out, i.expr.as_str());
    out.append(", ty: ");
    push_type_text(out, &i.ty);
    out.append(" }");
    proof {
        reveal_strlit("InlineRust { expr: ");
        reveal_strlit(", ty: ");
        reveal_strlit(" }");
        assert(out@ =~= start + inline_label(i@));
    }
}

/// Appends how a node is called (see `input_label`).
fn push_input_label(out: &mut String, input: &ProtoNodeInput)
    ensures
        final(out)@ == old(out)@ + input_label(input@),
{
    let ghost start = out@;
    match input {
        ProtoNodeInput::Empty => {
            out.append("None");
        },
        ProtoNodeInput::ManualComposition(t) => {
            out.append("Manual Composition (type = ");
            push_type_text(out, t);
            out.append(")");
        },
        ProtoNodeInput::Node(_) => {
            out.append("Node");
        },
        ProtoNodeInput::NodeLambda(_) => {
            out.append("Lambda Node");
        },
    }
    proof {
        reveal_strlit("None");
        reveal_strlit("Manual Composition (type = ");
        reveal_strlit(")");
        reveal_strlit("Node");
        reveal_strlit("Lambda Node");
        assert(out@ =~= start + input_label(input@));
    }
}

impl ProtoNetwork {
    /// The position of the first node with the given id (see `first_index_of`).
    fn find_first(&self, id: NodeId) -> (r: Option<usize>)
        ensures
            match r {
                Some(k) => first_index_of(self@.nodes, id) == k as int && k < self.nodes.len(),
                None => first_index_of(self@.nodes, id) < 0,
            },
    {
        let ghost nv = self@.nodes;
        let mut i: usize = 0;
        assert(nv.take(0) =~= Seq::<(NodeId, ProtoNodeView)>::empty());
        while i < self.nodes.len()
            invariant
                i <= self.nodes.len(),
                nv == self@.nodes,
                first_index_of(nv.take(i as int), id) < 0,
            decreases self.nodes.len() - i,
        {
            proof {
                assert(nv.take(i + 1).drop_last() =~= nv.take(i as int));
                assert(nv[i as int].0 == self.nodes@[i as int].0);
            }
            if self.nodes[i].0 == id {
                proof {
                    lemma_first_index_prefix(nv, id, i + 1);
                }
                return Some(i);
            }
            i = i + 1;
        }
        assert(nv.take(nv.len() as int) =~= nv);
        None
    }

    /// Appends the listing of the node with the given id (see `node_listing`).
    fn push_node_listing(&self, out: &mut String, id: NodeId, indent: usize, fuel: usize) -> (r: bool)
        requires
            indent + fuel <= self.nodes.len() + 1,
            self.nodes.len() < usize::MAX,
        ensures
            r == node_listing(self@.nodes, id, indent as nat, fuel as nat) is Some,
            r ==> final(out)@ == old(out)@ + node_listing(self@.nodes, id, indent as nat, fuel as nat)->Some_0,
        decreases fuel, 1nat,
    {
        let ghost start = out@;
        let ghost nv = self@.nodes;
        if fuel == 0 {
            return false;
        }
        match self.find_first(id) {
            None => {
                push_tabs(out, indent);
                out.append("{{Unknown Node}}");
                proof {
                    reveal_strlit("{{Unknown Node}}");
                }
                true
            },
            Some(k) => {
                let node: &ProtoNode = &self.nodes[k].1;
                assert(nv[k as int].1 == node@);
                self.push_node_head(out, node, indent);
                let ghost head = out@;
                if !self.push_node_body(out, &node.construction_args, indent, fuel) {
                    return false;
                }
                let ghost body = out@;
                push_tabs(out, indent);
                out.append("}\n");
                proof {
                    reveal_strlit("}\n");
                    assert(out@ =~= body + node_tail(indent as nat));
                }
                true
            },
        }
    }

    /// Appends the first lines of a node's listing (see `node_head`).
    fn push_node_head(&self, out: &mut String, node: &ProtoNode, indent: usize)
        requires
            indent < usize::MAX,
        ensures
            final(out)@ == old(out)@ + node_head(node@, indent as nat),
    {
        let ghost start = out@;
        push_tabs(out, indent);
        out.append("Node: ");
        out.append(node.identifier.name.as_str());
        out.append("\n");
        push_tabs(out, indent);
        out.append("{\n");
        push_tabs(out, indent + 1);
        out.append("Input: ");
        push_input_label(out, &node.input);
        out.append("\n");
        proof {
            reveal_strlit("Node: ");
            reveal_strlit("\n");
            reveal_strlit("{\n");
            reveal_strlit("Input: ");
            assert(out@ =~= start + node_head(node@, indent as nat));
        }
    }

    /// Appends the body of a node's listing (see `node_body`).
    fn push_node_body(&self, out: &mut String, args: &ConstructionArgs, indent: usize, fuel: usize) -> (r: bool)
        requires
            fuel >= 1,
            indent + fuel <= self.nodes.len() + 1,
            self.nodes.len() < usize::MAX,
        ensures
            r == node_body(self@.nodes, args@, indent as nat, fuel as nat) is Some,
            r ==> final(out)@ == old(out)@ + node_body(self@.nodes, args@, indent as nat, fuel as nat)->Some_0,
        decreases fuel, 0nat,
    {
        let ghost start = out@;
        let ghost nv = self@.nodes;
        match args {
            ConstructionArgs::Value(v) => {
                push_tabs(out, indent + 1);
                out.append("Value construction argument: ");
                push_value_label(out, v);
                proof {
                    reveal_strlit("Value construction argument: ");
                    assert(out@ =~= start + node_body(nv, args@, indent as nat, fuel as nat)->Some_0);
                }
                true
            },
            ConstructionArgs::Inline(i) => {
                push_tabs(out, indent + 1);
                out.append("Inline construction argument: ");
                push_inline_label(out, i);
                proof {
                    reveal_strlit("Inline construction argument: ");
                    assert(out@ =~= start + node_body(nv, args@, indent as nat, fuel as nat)->Some_0);
                }
                true
            },
            ConstructionArgs::Nodes(list) => {
                let inner = fuel - 1;
                let mut j: usize = 0;
                proof {
                    assert(list@.take(0) =~= Seq::<(NodeId, bool)>::empty());
                    assert(start + Seq::<char>::empty() =~= start);
                }
                while j < list.len()
                    invariant
                        j <= list.len(),
                        nv == self@.nodes,
                        inner == fuel - 1,
                        args@ == ConstructionArgsView::Nodes(list@),
                        indent + fuel <= self.nodes.len() + 1,
                        self.nodes.len() < usize::MAX,
                        args_listing(nv, list@.take(j as int), (indent + 1) as nat, inner as nat) is Some,
                        out@ == start + args_listing(nv, list@.take(j as int), (indent + 1) as nat, inner as nat)->Some_0,
                    decreases list.len() - j,
                {
                    proof {
                        assert(list@.take(j + 1).drop_last() =~= list@.take(j as int));
                        assert(list@.take(j + 1).last() == list@[j as int]);
                    }
                    if !self.push_node_listing(out, list[j].0, indent + 1, inner) {
                        proof {
                            let t = list@.take(j + 1);
                            assert(t.drop_last() =~= list@.take(j as int));
                            assert(t.last() == list@[j as int]);
                            assert(args_listing(nv, t, (indent + 1) as nat, inner as nat) is None);
                            lemma_args_listing_none(nv, list@, (indent + 1) as nat, inner as nat, j + 1);
                            assert(args@ == ConstructionArgsView::Nodes(list@));
                            assert(node_body(nv, args@, indent as nat, fuel as nat) == args_listing(
                                nv,
                                list@,
                                (indent + 1) as nat,
                                inner as nat,
                            ));
                        }
                        return false;
                    }
                    j = j + 1;
                }
                proof {
                    assert(list@.take(list.len() as int) =~= list@);
                }
                true
            },
        }
    }

    /// A readable listing of the network, from its output node down through the
    /// nodes each node is built from (see `network_listing`); `None` when that
    /// nesting does not end.
    pub fn listing(&self) -> (r: Option<String>)
        requires
            self.nodes.len() < usize::MAX,
        ensures
            r is Some <==> listing_ends(self@),
            r matches Some(text) ==> text@ == network_listing(self@),
    {
        let mut out = String::new();
        out.append("Proto Network with nodes: ");
        if self.push_node_listing(&mut out, self.output, 0, self.nodes.len() + 1) {
            proof {
                reveal_strlit("Proto Network with nodes: ");
            }
            Some(out)
        } else {
            None
        }
    }
}

/// Once a prefix holds the id, its first position is the first position overall.
proof fn lemma_first_index_prefix(nodes: Seq<(NodeId, ProtoNodeView)>, id: NodeId, k: int)
    requires
        0 <= k <= nodes.len(),
        first_index_of(nodes.take(k), id) >= 0,
    ensures
        first_index_of(nodes, id) == first_index_of(nodes.take(k), id),
    decreases nodes.len() - k,
{
    if k < nodes.len() {
        assert(nodes.take(k + 1).drop_last() =~= nodes.take(k));
        lemma_first_index_prefix(nodes, id, k + 1);
    } else {
        assert(nodes.take(k) =~= nodes);
    }
}

} // verus!

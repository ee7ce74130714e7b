//! Proto nodes and proto networks, with their mathematical models.

use vstd::prelude::*;

use crate::types::{
    InlineRust, InlineRustView, NodeId, OriginalLocation, OriginalLocationView, ProtoNodeIdentifier,
    TaggedValue, TaggedValueView, Type, TypeView, clone_ids,
};

verus! {

/// The arguments used to construct a node.
#[derive(Debug, PartialEq, Eq, Hash)]
pub enum ConstructionArgs {
    /// A value of a known type.
    Value(TaggedValue),
    /// A list of nodes used as inputs to the constructor.
    /// The flag tells whether the node is treated as a lambda node.
    Nodes(Vec<(NodeId, bool)>),
    /// An expression that stands in for the node.
    Inline(InlineRust),
}

/// The mathematical model of `ConstructionArgs`.
pub enum ConstructionArgsView {
    Value(TaggedValueView),
    Nodes(Seq<(NodeId, bool)>),
    Inline(InlineRustView),
}

impl View for ConstructionArgs {
    type V = ConstructionArgsView;

    open spec fn view(&self) -> ConstructionArgsView {
        match self {
            ConstructionArgs::Value(v) => ConstructionArgsView::Value(v@),
            ConstructionArgs::Nodes(v) => ConstructionArgsView::Nodes(v@),
            ConstructionArgs::Inline(i) => ConstructionArgsView::Inline(i@),
        }
    }
}

/// Clones a list of (node id, lambda flag) pairs.
pub fn clone_node_args(v: &Vec<(NodeId, bool)>) -> (r: Vec<(NodeId, bool)>)
    ensures
        r@ == v@,
{
    let mut r: Vec<(NodeId, bool)> = Vec::new();
    let mut i: usize = 0;
    while i < v.len()
        invariant
            i <= v.len(),
            r@ == v@.take(i as int),
        decreases v.len() - i,
    {
        let (id, lambda) = v[i];
        r.push((id, lambda));
        i = i + 1;
        assert(r@ =~= v@.take(i as int));
    }
    assert(v@.take(v.len() as int) =~= v@);
    r
}

impl Clone for ConstructionArgs {
    fn clone(&self) -> (r: Self)
        ensures
            r@ == self@,
    {
        match self {
            ConstructionArgs::Value(v) => ConstructionArgs::Value(v.clone()),
            ConstructionArgs::Nodes(v) => ConstructionArgs::Nodes(clone_node_args(v)),
            ConstructionArgs::Inline(i) => ConstructionArgs::Inline(i.clone()),
        }
    }
}

/// What a node receives as its call argument.
#[derive(Debug, PartialEq, Eq, Hash)]
pub enum ProtoNodeInput {
    /// The node is called with `()`.
    Empty,
    /// The node consumes the provided input itself instead of composing with its predecessor.
    ManualComposition(Type),
    /// The node is composed with the given node: that node runs first and its
    /// result is passed on.
    Node(NodeId),
    /// The given node is passed as a lambda, without evaluating what feeds into it.
    NodeLambda(NodeId),
}

/// The mathematical model of a `ProtoNodeInput`.
pub enum ProtoNodeInputView {
    Empty,
    ManualComposition(TypeView),
    Node(NodeId),
    NodeLambda(NodeId),
}

impl View for ProtoNodeInput {
    type V = ProtoNodeInputView;

    open spec fn view(&self) -> ProtoNodeInputView {
        match self {
            ProtoNodeInput::Empty => ProtoNodeInputView::Empty,
            ProtoNodeInput::ManualComposition(t) => ProtoNodeInputView::ManualComposition(t@),
            ProtoNodeInput::Node(id) => ProtoNodeInputView::Node(*id),
            ProtoNodeInput::NodeLambda(id) => ProtoNodeInputView::NodeLambda(*id),
        }
    }
}

impl Clone for ProtoNodeInput {
    fn clone(&self) -> (r: Self)
        ensures
            r == *self,
    {
        match self {
            ProtoNodeInput::Empty => ProtoNodeInput::Empty,
            ProtoNodeInput::ManualComposition(t) => ProtoNodeInput::ManualComposition(t.clone()),
            ProtoNodeInput::Node(id) => ProtoNodeInput::Node(*id),
            ProtoNodeInput::NodeLambda(id) => ProtoNodeInput::NodeLambda(*id),
        }
    }
}

/// A node of a proto network.
#[derive(Debug, PartialEq, Eq, Hash)]
pub struct ProtoNode {
    pub construction_args: ConstructionArgs,
    pub input: ProtoNodeInput,
    pub identifier: ProtoNodeIdentifier,
    pub original_location: OriginalLocation,
    pub skip_deduplication: bool,
}

/// The mathematical model of a `ProtoNode`.
pub struct ProtoNodeView {
    pub construction_args: ConstructionArgsView,
    pub input: ProtoNodeInputView,
    /// The name of the identifier.
    pub identifier: Seq<char>,
    pub original_location: OriginalLocationView,
    pub skip_deduplication: bool,
}

impl View for ProtoNode {
    type V = ProtoNodeView;

    open spec fn view(&self) -> ProtoNodeView {
        ProtoNodeView {
            construction_args: self.construction_args@,
            input: self.input@,
            identifier: self.identifier.name@,
            original_location: self.original_location@,
            skip_deduplication: self.skip_deduplication,
        }
    }
}

impl Clone for ProtoNode {
    fn clone(&self) -> (r: Self)
        ensures
            r@ == self@,
    {
        ProtoNode {
            construction_args: self.construction_args.clone(),
            input: self.input.clone(),
            identifier: self.identifier.clone(),
            original_location: self.original_location.clone(),
            skip_deduplication: self.skip_deduplication,
        }
    }
}

/// The identifier of the identity node, which a default node runs.
pub open spec fn identity_node_name() -> Seq<char> {
    "graphene_core::ops::IdentityNode"@
}

impl Default for ProtoNode {
    fn default() -> (r: Self)
        ensures
            r@.identifier == identity_node_name(),
            r@.construction_args == ConstructionArgsView::Value(TaggedValueView::U32(0)),
            r@.input == ProtoNodeInputView::Empty,
            r@.original_location.path == None::<Seq<NodeId>>,
            r@.original_location.inputs_exposed == Seq::<bool>::empty(),
            r@.original_location.skip_inputs == 0,
            !r@.skip_deduplication,
    {
        ProtoNode {
            identifier: ProtoNodeIdentifier::new("graphene_core::ops::IdentityNode"),
            construction_args: ConstructionArgs::Value(TaggedValue::U32(0)),
            input: ProtoNodeInput::Empty,
            original_location: OriginalLocation::default(),
            skip_deduplication: false,
        }
    }
}

/// The node that the input of a node refers to, if any.
pub open spec fn input_ref(input: ProtoNodeInputView) -> Seq<NodeId> {
    match input {
        ProtoNodeInputView::Node(id) => seq![id],
        ProtoNodeInputView::NodeLambda(id) => seq![id],
        _ => Seq::empty(),
    }
}

/// The nodes that the construction arguments of a node refer to, in order.
pub open spec fn args_refs(args: ConstructionArgsView) -> Seq<NodeId> {
    match args {
        ConstructionArgsView::Nodes(v) => v.map_values(|p: (NodeId, bool)| p.0),
        _ => Seq::empty(),
    }
}

/// Every reference of a node to another node: first the one of its input,
/// then those of its construction arguments.
pub open spec fn node_refs(n: ProtoNodeView) -> Seq<NodeId> {
    input_ref(n.input) + args_refs(n.construction_args)
}

/// Whether `new` is `old` with each referenced id `a` replaced by some `b` with
/// `f.ensures((a,), b)`; with `skip_lambdas`, references to lambda nodes stay.
pub open spec fn node_mapped_by<F: Fn(NodeId) -> NodeId>(
    old: ProtoNodeView,
    new: ProtoNodeView,
    f: F,
    skip_lambdas: bool,
) -> bool {
    &&& new.identifier == old.identifier
    &&& new.original_location == old.original_location
    &&& new.skip_deduplication == old.skip_deduplication
    &&& match old.input {
        ProtoNodeInputView::Node(a) => new.input matches ProtoNodeInputView::Node(b) && f.ensures((a,), b),
        ProtoNodeInputView::NodeLambda(a) => if skip_lambdas {
            new.input == old.input
        } else {
            new.input matches ProtoNodeInputView::NodeLambda(b) && f.ensures((a,), b)
        },
        _ => new.input == old.input,
    }
    &&& match old.construction_args {
        ConstructionArgsView::Nodes(v) => new.construction_args matches ConstructionArgsView::Nodes(w)
            && w.len() == v.len() && forall|i: int|
            0 <= i < v.len() ==> {
                &&& (#[trigger] w[i]).1 == v[i].1
                &&& if skip_lambdas && v[i].1 {
                    w[i].0 == v[i].0
                } else {
                    f.ensures((v[i].0,), w[i].0)
                }
            },
        _ => new.construction_args == old.construction_args,
    }
}

/// `f` may be called on every reference of `n`.
pub open spec fn callable_on_refs<F: Fn(NodeId) -> NodeId>(f: F, n: ProtoNodeView) -> bool {
    forall|k: int| 0 <= k < node_refs(n).len() ==> f.requires((#[trigger] node_refs(n)[k],))
}

/// `n` with each referenced id `a` replaced by `f(a)`; with `skip_lambdas`,
/// references to lambda nodes stay.
pub open spec fn rename_refs(n: ProtoNodeView, f: spec_fn(NodeId) -> NodeId, skip_lambdas: bool) -> ProtoNodeView {
    ProtoNodeView {
        input: match n.input {
            ProtoNodeInputView::Node(a) => ProtoNodeInputView::Node(f(a)),
            ProtoNodeInputView::NodeLambda(a) => if skip_lambdas {
                n.input
            } else {
                ProtoNodeInputView::NodeLambda(f(a))
            },
            _ => n.input,
        },
        construction_args: match n.construction_args {
            ConstructionArgsView::Nodes(v) => ConstructionArgsView::Nodes(
                v.map_values(|e: (NodeId, bool)| if skip_lambdas && e.1 { e } else { (f(e.0), e.1) }),
            ),
            _ => n.construction_args,
        },
        ..n
    }
}

/// Renaming without skipping renames every reference.
pub proof fn lemma_rename_refs(n: ProtoNodeView, f: spec_fn(NodeId) -> NodeId)
    ensures
        node_refs(rename_refs(n, f, false)) == node_refs(n).map_values(f),
{
    let r = rename_refs(n, f, false);
    assert(input_ref(r.input) =~= input_ref(n.input).map_values(f));
    assert(args_refs(r.construction_args) =~= args_refs(n.construction_args).map_values(f));
    assert(node_refs(r) =~= node_refs(n).map_values(f));
}

/// Each reference of a renamed node is the reference as it was, or its renaming.
pub proof fn lemma_rename_refs_skip(n: ProtoNodeView, f: spec_fn(NodeId) -> NodeId)
    ensures
        node_refs(rename_refs(n, f, true)).len() == node_refs(n).len(),
        forall|j: int|
            0 <= j < node_refs(n).len() ==> #[trigger] node_refs(rename_refs(n, f, true))[j] == node_refs(n)[j]
                || node_refs(rename_refs(n, f, true))[j] == f(node_refs(n)[j]),
{
    let r = rename_refs(n, f, true);
    let il = input_ref(n.input).len();
    assert(input_ref(r.input).len() == il);
    assert forall|j: int| 0 <= j < node_refs(n).len() implies #[trigger] node_refs(r)[j] == node_refs(n)[j]
        || node_refs(r)[j] == f(node_refs(n)[j]) by {
        if j >= il {
            assert(node_refs(r)[j] == args_refs(r.construction_args)[j - il]);
            assert(node_refs(n)[j] == args_refs(n.construction_args)[j - il]);
        }
    }
}

/// When the function computes `fs` on every reference, mapping by it is renaming by `fs`.
pub proof fn lemma_mapped_is_renamed<F: Fn(NodeId) -> NodeId>(
    old: ProtoNodeView,
    new: ProtoNodeView,
    f: F,
    fs: spec_fn(NodeId) -> NodeId,
    skip_lambdas: bool,
)
    requires
        node_mapped_by(old, new, f, skip_lambdas),
        forall|k: int, b: NodeId|
            0 <= k < node_refs(old).len() && #[trigger] f.ensures((node_refs(old)[k],), b) ==> b == fs(
                node_refs(old)[k],
            ),
    ensures
        new == rename_refs(old, fs, skip_lambdas),
{
    let r = rename_refs(old, fs, skip_lambdas);
    let il = input_ref(old.input).len();
    match old.input {
        ProtoNodeInputView::Node(a) => {
            assert(node_refs(old)[0] == a);
        },
        ProtoNodeInputView::NodeLambda(a) => {
            assert(node_refs(old)[0] == a);
        },
        _ => {},
    }
    match old.construction_args {
        ConstructionArgsView::Nodes(v) => {
            let w = new.construction_args->Nodes_0;
            let rv = v.map_values(|e: (NodeId, bool)| if skip_lambdas && e.1 { e } else { (fs(e.0), e.1) });
            assert forall|i: int| 0 <= i < v.len() implies #[trigger] w[i] == rv[i] by {
                assert(node_refs(old)[il + i] == v[i].0);
            }
            assert(w =~= rv);
        },
        _ => {},
    }
    assert(new.input == r.input);
    assert(new.construction_args == r.construction_args);
}

/// Renaming by `f` and then by `g` is renaming by `g` after `f`.
pub proof fn lemma_rename_compose(n: ProtoNodeView, f: spec_fn(NodeId) -> NodeId, g: spec_fn(NodeId) -> NodeId, skip_lambdas: bool)
    ensures
        rename_refs(rename_refs(n, f, skip_lambdas), g, skip_lambdas) == rename_refs(
            n,
            |x: NodeId| g(f(x)),
            skip_lambdas,
        ),
{
    let twice = rename_refs(rename_refs(n, f, skip_lambdas), g, skip_lambdas);
    let once = rename_refs(n, |x: NodeId| g(f(x)), skip_lambdas);
    match n.construction_args {
        ConstructionArgsView::Nodes(v) => {
            let w1 = twice.construction_args->Nodes_0;
            let w2 = once.construction_args->Nodes_0;
            assert(w1 =~= w2);
        },
        _ => {},
    }
    assert(twice.input == once.input);
    assert(twice.construction_args == once.construction_args);
}

/// Renaming every reference to itself changes nothing.
pub proof fn lemma_rename_unchanged(n: ProtoNodeView, f: spec_fn(NodeId) -> NodeId, skip_lambdas: bool)
    requires
        forall|k: int| 0 <= k < node_refs(n).len() ==> f(#[trigger] node_refs(n)[k]) == node_refs(n)[k],
    ensures
        rename_refs(n, f, skip_lambdas) == n,
{
    let il = input_ref(n.input).len();
    match n.input {
        ProtoNodeInputView::Node(a) => {
            assert(node_refs(n)[0] == a);
        },
        ProtoNodeInputView::NodeLambda(a) => {
            assert(node_refs(n)[0] == a);
        },
        _ => {},
    }
    let r = rename_refs(n, f, skip_lambdas);
    match n.construction_args {
        ConstructionArgsView::Nodes(v) => {
            let w = r.construction_args->Nodes_0;
            assert forall|i: int| 0 <= i < v.len() implies #[trigger] w[i] == v[i] by {
                assert(node_refs(n)[il + i] == v[i].0);
            }
            assert(w =~= v);
        },
        _ => {},
    }
    assert(r.input == n.input);
    assert(r.construction_args == n.construction_args);
}

/// Mapping the ids of a node by `f` and then by `g` gives what mapping them once
/// by `g` after `f` gives (for functions that always return the same id).
pub proof fn lemma_map_ids_compose<F: Fn(NodeId) -> NodeId, G: Fn(NodeId) -> NodeId, H: Fn(NodeId) -> NodeId>(
    node: ProtoNodeView,
    after_f: ProtoNodeView,
    after_fg: ProtoNodeView,
    after_h: ProtoNodeView,
    f: F,
    g: G,
    h: H,
    fs: spec_fn(NodeId) -> NodeId,
    gs: spec_fn(NodeId) -> NodeId,
    skip_lambdas: bool,
)
    requires
        forall|x: NodeId, y: NodeId| #[trigger] f.ensures((x,), y) ==> y == fs(x),
        forall|x: NodeId, y: NodeId| #[trigger] g.ensures((x,), y) ==> y == gs(x),
        forall|x: NodeId, y: NodeId| #[trigger] h.ensures((x,), y) ==> y == gs(fs(x)),
        node_mapped_by(node, after_f, f, skip_lambdas),
        node_mapped_by(after_f, after_fg, g, skip_lambdas),
        node_mapped_by(node, after_h, h, skip_lambdas),
    ensures
        after_fg == after_h,
{
    lemma_mapped_is_renamed(node, after_f, f, fs, skip_lambdas);
    lemma_mapped_is_renamed(after_f, after_fg, g, gs, skip_lambdas);
    lemma_mapped_is_renamed(node, after_h, h, |x: NodeId| gs(fs(x)), skip_lambdas);
    lemma_rename_compose(node, fs, gs, skip_lambdas);
}

/// Mapping the ids of a node by a function that returns each id unchanged
/// leaves the node as it is.
pub proof fn lemma_map_ids_identity<F: Fn(NodeId) -> NodeId>(
    node: ProtoNodeView,
    after: ProtoNodeView,
    f: F,
    skip_lambdas: bool,
)
    requires
        forall|x: NodeId, y: NodeId| #[trigger] f.ensures((x,), y) ==> y == x,
        node_mapped_by(node, after, f, skip_lambdas),
    ensures
        after == node,
{
    lemma_mapped_is_renamed(node, after, f, |x: NodeId| x, skip_lambdas);
    lemma_rename_unchanged(node, |x: NodeId| x, skip_lambdas);
}

impl ProtoNode {
    /// Converts all references to other node ids into new ids by running `f` on them.
    /// With `skip_lambdas`, references to nodes used as lambdas are left alone.
    pub fn map_ids(&mut self, f: impl Fn(NodeId) -> NodeId, skip_lambdas: bool)
        requires
            callable_on_refs(f, old(self)@),
        ensures
            node_mapped_by(old(self)@, final(self)@, f, skip_lambdas),
    {
        let ghost refs = node_refs(self@);
        let ghost il = input_ref(self@.input).len();
        match self.input {
            ProtoNodeInput::Node(id) => {
                assert(refs[0] == id);
                self.input = ProtoNodeInput::Node(f(id))
            },
            ProtoNodeInput::NodeLambda(id) => {
                assert(refs[0] == id);
                if !skip_lambdas {
                    self.input = ProtoNodeInput::NodeLambda(f(id))
                }
            },
            _ => {},
        }
        let mut new_args: Option<Vec<(NodeId, bool)>> = None;
        match &self.construction_args {
            ConstructionArgs::Nodes(ids) => {
                let mut out: Vec<(NodeId, bool)> = Vec::new();
                let mut i: usize = 0;
                while i < ids.len()
                    invariant
                        i <= ids.len(),
                        out.len() == i,
                        forall|k: int| 0 <= k < refs.len() ==> f.requires((#[trigger] refs[k],)),
                        refs.len() == il + ids.len(),
                        forall|k: int| 0 <= k < ids.len() ==> refs[il + k] == (#[trigger] ids@[k]).0,
                        forall|k: int|
                            0 <= k < i ==> {
                                &&& (#[trigger] out@[k]).1 == ids@[k].1
                                &&& if skip_lambdas && ids@[k].1 {
                                    out@[k].0 == ids@[k].0
                                } else {
                                    f.ensures((ids@[k].0,), out@[k].0)
                                }
                            },
                    decreases ids.len() - i,
                {
                    let (id, lambda) = ids[i];
                    assert(refs[il + i] == id);
                    if skip_lambdas && lambda {
                        out.push((id, lambda));
                    } else {
                        out.push((f(id), lambda));
                    }
                    i = i + 1;
                }
                new_args = Some(out);
            },
            _ => {},
        }
        match new_args {
            Some(out) => { self.construction_args = ConstructionArgs::Nodes(out) },
            None => {},
        }
    }

    /// The construction arguments of a node built from other nodes.
    pub fn unwrap_construction_nodes(&self) -> (r: Vec<(NodeId, bool)>)
        requires
            self.construction_args is Nodes,
        ensures
            self@.construction_args == ConstructionArgsView::Nodes(r@),
    {
        match &self.construction_args {
            ConstructionArgs::Nodes(nodes) => clone_node_args(nodes),
            _ => { proof { assert(false); } Vec::new() },
        }
    }
}

/// The name of the node that hands out a stored value.
pub open spec fn cloned_node_name() -> Seq<char> {
    "graphene_core::value::ClonedNode"@
}

/// The number of input flags a value node is made with: one per argument node
/// and one for the call argument, or two for a value or an expression.
pub open spec fn value_inputs_exposed(args: ConstructionArgsView) -> nat {
    match args {
        ConstructionArgsView::Nodes(l) => l.len() + 1,
        _ => 2,
    }
}

/// The names of the arguments a function built from these construction
/// arguments takes: `n` and the hexadecimal id of each argument node, the
/// value as a literal, or the expression.
pub open spec fn function_args_text(args: ConstructionArgsView) -> Seq<Seq<char>> {
    match args {
        ConstructionArgsView::Nodes(l) => l.map_values(|e: (NodeId, bool)| "n"@ + crate::text::hex_text(e.0.0 as nat)),
        ConstructionArgsView::Value(v) => seq![crate::types::primitive_text(v)],
        ConstructionArgsView::Inline(i) => seq![i.expr],
    }
}

impl ConstructionArgs {
    /// The names of the arguments of a function built from these construction
    /// arguments (see `function_args_text`).
    pub fn new_function_args(&self) -> (r: Vec<String>)
        ensures
            crate::typecheck::string_views(r@) == function_args_text(self@),
    {
        let mut out: Vec<String> = Vec::new();
        match self {
            ConstructionArgs::Nodes(nodes) => {
                let mut i: usize = 0;
                while i < nodes.len()
                    invariant
                        i <= nodes.len(),
                        crate::typecheck::string_views(out@) == function_args_text(self@).take(i as int),
                        self@ == ConstructionArgsView::Nodes(nodes@),
                    decreases nodes.len() - i,
                {
                    let mut name = String::new();
                    name.append("n");
                    crate::text::push_digits(&mut name, nodes[i].0.0, 16);
                    let ghost prev = out@;
                    let ghost nv = name@;
                    out.push(name);
                    proof {
                        reveal_strlit("n");
                        assert(crate::typecheck::string_views(out@) =~= crate::typecheck::string_views(prev).push(nv));
                        assert(function_args_text(self@).take(i + 1) =~= function_args_text(self@).take(i as int).push(nv));
                    }
                    i = i + 1;
                }
                assert(function_args_text(self@).take(nodes.len() as int) =~= function_args_text(self@));
            },
            ConstructionArgs::Value(v) => {
                out.push(v.to_primitive_string());
                assert(crate::typecheck::string_views(out@) =~= function_args_text(self@));
            },
            ConstructionArgs::Inline(inline) => {
                out.push(inline.expr.clone());
                assert(crate::typecheck::string_views(out@) =~= function_args_text(self@));
            },
        }
        out
    }
}

impl ProtoNode {
    /// A node that hands out the given construction arguments, called with the
    /// context, at the given document path, with all its inputs hidden.
    pub fn value(value: ConstructionArgs, path: Vec<NodeId>) -> (r: Self)
        requires
            value matches ConstructionArgs::Nodes(l) ==> l.len() < usize::MAX,
        ensures
            r@.identifier == cloned_node_name(),
            r@.construction_args == value@,
            r@.input == ProtoNodeInputView::ManualComposition(TypeView::Concrete(crate::typing::context_type_name())),
            r@.original_location.path == Some(path@),
            r@.original_location.inputs_exposed == Seq::new(value_inputs_exposed(value@), |_i: int| false),
            r@.original_location.skip_inputs == 0,
            !r@.skip_deduplication,
    {
        let n: usize = match &value {
            ConstructionArgs::Nodes(nodes) => nodes.len() + 1,
            _ => 2,
        };
        let mut flags: Vec<bool> = Vec::new();
        let mut i: usize = 0;
        while i < n
            invariant
                i <= n,
                flags@ == Seq::new(i as nat, |_i: int| false),
            decreases n - i,
        {
            flags.push(false);
            i = i + 1;
            assert(flags@ =~= Seq::new(i as nat, |_i: int| false));
        }
        ProtoNode {
            identifier: ProtoNodeIdentifier::new("graphene_core::value::ClonedNode"),
            construction_args: value,
            input: ProtoNodeInput::ManualComposition(Type::concrete("graphene_core::context::Context")),
            original_location: OriginalLocation { path: Some(path), inputs_exposed: flags, skip_inputs: 0 },
            skip_deduplication: false,
        }
    }
}

/// A list of proto nodes: the flattened form of a network.
#[derive(Debug, PartialEq, Eq, Hash)]
pub struct ProtoNetwork {
    pub inputs: Vec<NodeId>,
    /// The node that provides the output; it calls the rest of the graph.
    pub output: NodeId,
    /// The nodes, each with its id, kept in a list so that they can be sorted.
    pub nodes: Vec<(NodeId, ProtoNode)>,
}

/// The mathematical model of a `ProtoNetwork`.
pub struct ProtoNetworkView {
    pub inputs: Seq<NodeId>,
    pub output: NodeId,
    pub nodes: Seq<(NodeId, ProtoNodeView)>,
}

pub open spec fn entry_view(e: (NodeId, ProtoNode)) -> (NodeId, ProtoNodeView) {
    (e.0, e.1@)
}

impl View for ProtoNetwork {
    type V = ProtoNetworkView;

    open spec fn view(&self) -> ProtoNetworkView {
        ProtoNetworkView {
            inputs: self.inputs@,
            output: self.output,
            nodes: self.nodes@.map_values(|e: (NodeId, ProtoNode)| entry_view(e)),
        }
    }
}

impl ProtoNetwork {
    /// A network of a single default node, which is both its input and its
    /// output, with that node's id and the node.
    pub fn example() -> (r: (Self, NodeId, ProtoNode))
        ensures
            r.1 == NodeId(1),
            r.0@.inputs == seq![r.1],
            r.0@.output == r.1,
            r.0@.nodes == seq![(r.1, r.2@)],
            r.2@.identifier == identity_node_name(),
            r.2@.construction_args == ConstructionArgsView::Value(TaggedValueView::U32(0)),
            r.2@.input == ProtoNodeInputView::Empty,
            r.2@.original_location.path == None::<Seq<NodeId>>,
            r.2@.original_location.inputs_exposed == Seq::<bool>::empty(),
            r.2@.original_location.skip_inputs == 0,
            !r.2@.skip_deduplication,
    {
        let node_id = NodeId(1);
        let proto_node = ProtoNode::default();
        let mut inputs: Vec<NodeId> = Vec::new();
        inputs.push(node_id);
        let mut nodes: Vec<(NodeId, ProtoNode)> = Vec::new();
        nodes.push((node_id, proto_node.clone()));
        let proto_network = ProtoNetwork { inputs, output: node_id, nodes };
        assert(proto_network@.nodes =~= seq![(node_id, proto_node@)]);
        assert(proto_network@.inputs =~= seq![node_id]);
        (proto_network, node_id, proto_node)
    }
}

impl Clone for ProtoNetwork {
    fn clone(&self) -> (r: Self)
        ensures
            r@ == self@,
    {
        let mut nodes: Vec<(NodeId, ProtoNode)> = Vec::new();
        let mut i: usize = 0;
        while i < self.nodes.len()
            invariant
                i <= self.nodes.len(),
                nodes.len() == i,
                nodes@.map_values(|e: (NodeId, ProtoNode)| entry_view(e)) == self@.nodes.take(i as int),
            decreases self.nodes.len() - i,
        {
            let ghost prev = nodes@;
            let c = self.nodes[i].1.clone();
            nodes.push((self.nodes[i].0, c));
            proof {
                assert(self@.nodes[i as int] == entry_view(self.nodes@[i as int]));
                assert(entry_view(nodes@[i as int]) == self@.nodes[i as int]);
                assert(nodes@.map_values(|e: (NodeId, ProtoNode)| entry_view(e)) =~= self@.nodes.take(i + 1));
            }
            i = i + 1;
        }
        assert(self@.nodes.take(self.nodes.len() as int) =~= self@.nodes);
        ProtoNetwork { inputs: clone_ids(&self.inputs), output: self.output, nodes }
    }
}

impl Default for ProtoNetwork {
    fn default() -> (r: Self)
        ensures
            r@.inputs == Seq::<NodeId>::empty(),
            r@.output == NodeId(0),
            r@.nodes == Seq::<(NodeId, ProtoNodeView)>::empty(),
    {
        let r = ProtoNetwork { inputs: Vec::new(), output: NodeId(0), nodes: Vec::new() };
        assert(r@.nodes =~= Seq::<(NodeId, ProtoNodeView)>::empty());
        r
    }
}

} // verus!

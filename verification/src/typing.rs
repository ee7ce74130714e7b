//! Type inference over a proto network: each node's signature is chosen among
//! the implementations registered for its identifier.

use vstd::prelude::*;

use std::collections::HashMap;

use crate::proto::{ConstructionArgs, ConstructionArgsView, ProtoNode, ProtoNodeInput, ProtoNodeInputView, ProtoNodeView};
use crate::text::decimal_text;
use crate::typecheck::{
    check_generic_result, io_generics, join_texts, replace_generics_of, type_text, type_texts, valid_type,
};
use crate::types::{
    NodeConstructor, NodeId, NodeIOTypes, NodeIOTypesView, OriginalLocationView, ProtoNodeIdentifier,
    TaggedValueView, Type, TypeView, clone_ids, io_type, type_views,
};

verus! {

broadcast use vstd::std_specs::hash::group_hash_axioms;

/// What went wrong while inferring the type of a node.
#[derive(Debug, PartialEq, Eq)]
pub enum GraphErrorType {
    NodeNotFound(NodeId),
    InputNodeNotFound(NodeId),
    UnexpectedGenerics { index: usize, inputs: Vec<Type> },
    NoImplementations,
    NoConstructor,
    InvalidImplementations { inputs: String, error_inputs: Vec<Vec<(usize, (Type, Type))>> },
    MultipleImplementations { inputs: String, valid: Vec<NodeIOTypes> },
}

/// The mathematical model of a `GraphErrorType`.
pub enum GraphErrorTypeView {
    NodeNotFound(NodeId),
    InputNodeNotFound(NodeId),
    UnexpectedGenerics { index: usize, inputs: Seq<TypeView> },
    NoImplementations,
    NoConstructor,
    InvalidImplementations { inputs: Seq<char>, error_inputs: Seq<Seq<(usize, (TypeView, TypeView))>> },
    MultipleImplementations { inputs: Seq<char>, valid: Seq<NodeIOTypesView> },
}

/// The models of a list of mismatches.
pub open spec fn mismatches_view(v: Seq<(usize, (Type, Type))>) -> Seq<(usize, (TypeView, TypeView))> {
    v.map_values(|m: (usize, (Type, Type))| (m.0, (m.1.0@, m.1.1@)))
}

/// The models of a list of signatures.
pub open spec fn ios_view(v: Seq<NodeIOTypes>) -> Seq<NodeIOTypesView> {
    v.map_values(|io: NodeIOTypes| io@)
}

impl View for GraphErrorType {
    type V = GraphErrorTypeView;

    open spec fn view(&self) -> GraphErrorTypeView {
        match self {
            GraphErrorType::NodeNotFound(id) => GraphErrorTypeView::NodeNotFound(*id),
            GraphErrorType::InputNodeNotFound(id) => GraphErrorTypeView::InputNodeNotFound(*id),
            GraphErrorType::UnexpectedGenerics { index, inputs } => GraphErrorTypeView::UnexpectedGenerics {
                index: *index,
                inputs: type_views(inputs@),
            },
            GraphErrorType::NoImplementations => GraphErrorTypeView::NoImplementations,
            GraphErrorType::NoConstructor => GraphErrorTypeView::NoConstructor,
            GraphErrorType::InvalidImplementations { inputs, error_inputs } => GraphErrorTypeView::InvalidImplementations {
                inputs: inputs@,
                error_inputs: error_inputs@.map_values(|l: Vec<(usize, (Type, Type))>| mismatches_view(l@)),
            },
            GraphErrorType::MultipleImplementations { inputs, valid } => GraphErrorTypeView::MultipleImplementations {
                inputs: inputs@,
                valid: ios_view(valid@),
            },
        }
    }
}

/// An error of type inference, with the node it concerns.
#[derive(Debug, PartialEq, Eq)]
pub struct GraphError {
    pub node_path: Vec<NodeId>,
    pub identifier: String,
    pub error: GraphErrorType,
}

/// The mathematical model of a `GraphError`.
pub struct GraphErrorView {
    pub node_path: Seq<NodeId>,
    pub identifier: Seq<char>,
    pub error: GraphErrorTypeView,
}

impl View for GraphError {
    type V = GraphErrorView;

    open spec fn view(&self) -> GraphErrorView {
        GraphErrorView { node_path: self.node_path@, identifier: self.identifier@, error: self.error@ }
    }
}

/// The error `e` about `node`: its path (or none) and its identifier.
pub open spec fn error_about(node: ProtoNodeView, e: GraphErrorTypeView) -> GraphErrorView {
    GraphErrorView {
        node_path: match node.original_location.path {
            Some(p) => p,
            None => Seq::empty(),
        },
        identifier: node.identifier,
        error: e,
    }
}

impl GraphError {
    pub fn new(node: &ProtoNode, error: GraphErrorType) -> (r: Self)
        ensures
            r@ == error_about(node@, error@),
    {
        let node_path = match &node.original_location.path {
            Some(p) => clone_ids(p),
            None => Vec::new(),
        };
        GraphError { node_path, identifier: node.identifier.name.clone(), error }
    }
}

/// The models of the registered implementations of an identifier.
pub open spec fn impls_view(v: Seq<(NodeIOTypes, NodeConstructor)>) -> Seq<(NodeIOTypesView, NodeConstructor)> {
    v.map_values(|e: (NodeIOTypes, NodeConstructor)| (e.0@, e.1))
}

/// The models of a registry: each identifier's name with its implementations.
pub open spec fn registry_view(v: Seq<(ProtoNodeIdentifier, Vec<(NodeIOTypes, NodeConstructor)>)>) -> Seq<
    (Seq<char>, Seq<(NodeIOTypesView, NodeConstructor)>),
> {
    v.map_values(|e: (ProtoNodeIdentifier, Vec<(NodeIOTypes, NodeConstructor)>)| (e.0.name@, impls_view(e.1@)))
}

/// No two entries of a registry have the same name, and no identifier lists the
/// same signature twice.
pub open spec fn registry_distinct(lookup: Seq<(Seq<char>, Seq<(NodeIOTypesView, NodeConstructor)>)>) -> bool {
    &&& forall|i: int, j: int| 0 <= i < j < lookup.len() ==> #[trigger] lookup[i].0 != #[trigger] lookup[j].0
    &&& forall|i: int, a: int, b: int|
        0 <= i < lookup.len() && 0 <= a < b < lookup[i].1.len() ==> #[trigger] lookup[i].1[a].0
            != #[trigger] lookup[i].1[b].0
}

/// A context is well formed when its registry is distinct and every node with a
/// recorded constructor also has a recorded type.
pub open spec fn context_well_formed(c: TypingContextView) -> bool {
    &&& registry_distinct(c.lookup)
    &&& forall|k: u64| #[trigger] c.constructor.contains_key(k) ==> c.inferred.contains_key(k)
}

/// In a well-formed context, a node with a recorded constructor has a recorded type.
pub proof fn lemma_constructor_has_type(c: TypingContextView, k: u64)
    requires
        context_well_formed(c),
        c.constructor.contains_key(k),
    ensures
        c.inferred.contains_key(k),
{
}

/// The types of the nodes of a network, indexed by their node ids.
pub struct TypingContext {
    lookup: Vec<(ProtoNodeIdentifier, Vec<(NodeIOTypes, NodeConstructor)>)>,
    inferred: HashMap<u64, NodeIOTypes>,
    constructor: HashMap<u64, NodeConstructor>,
}

/// The mathematical model of a `TypingContext`: the registry, and the
/// signature and constructor chosen for each node id (by its number).
pub struct TypingContextView {
    pub lookup: Seq<(Seq<char>, Seq<(NodeIOTypesView, NodeConstructor)>)>,
    pub inferred: Map<u64, NodeIOTypesView>,
    pub constructor: Map<u64, NodeConstructor>,
}

impl View for TypingContext {
    type V = TypingContextView;

    closed spec fn view(&self) -> TypingContextView {
        TypingContextView {
            lookup: registry_view(self.lookup@),
            inferred: self.inferred@.map_values(|io: NodeIOTypes| io@),
            constructor: self.constructor@,
        }
    }
}

/// A copy of the implementations registered for one identifier.
fn clone_impls(v: &Vec<(NodeIOTypes, NodeConstructor)>) -> (r: Vec<(NodeIOTypes, NodeConstructor)>)
    ensures
        impls_view(r@) == impls_view(v@),
{
    let mut r: Vec<(NodeIOTypes, NodeConstructor)> = Vec::new();
    let mut i: usize = 0;
    while i < v.len()
        invariant
            i <= v.len(),
            r.len() == i,
            impls_view(r@) == impls_view(v@.take(i as int)),
        decreases v.len() - i,
    {
        let ghost r0 = r@;
        let e = (v[i].0.clone(), v[i].1);
        r.push(e);
        proof {
            let t0 = v@.take(i as int);
            let t1 = v@.take(i + 1);
            assert(r@ == r0.push(e));
            assert(t1.len() == i + 1);
            assert forall|j: int| 0 <= j < i implies impls_view(r@)[j] == impls_view(t1)[j] by {
                assert(r@[j] == r0[j]);
                assert(impls_view(r@)[j] == (r@[j].0@, r@[j].1));
                assert(impls_view(r0)[j] == impls_view(t0)[j]);
                assert(t0[j] == t1[j]);
            }
            assert(impls_view(r@)[i as int] == impls_view(t1)[i as int]);
            assert(impls_view(r@) =~= impls_view(t1));
        }
        i = i + 1;
    }
    assert(v@.take(v.len() as int) =~= v@);
    r
}

/// A copy of a registry.
fn clone_registry(v: &Vec<(ProtoNodeIdentifier, Vec<(NodeIOTypes, NodeConstructor)>)>) -> (r: Vec<
    (ProtoNodeIdentifier, Vec<(NodeIOTypes, NodeConstructor)>),
>)
    ensures
        registry_view(r@) == registry_view(v@),
{
    let mut r: Vec<(ProtoNodeIdentifier, Vec<(NodeIOTypes, NodeConstructor)>)> = Vec::new();
    let mut i: usize = 0;
    while i < v.len()
        invariant
            i <= v.len(),
            r.len() == i,
            registry_view(r@) == registry_view(v@.take(i as int)),
        decreases v.len() - i,
    {
        let ghost r0 = r@;
        let e = (v[i].0.clone(), clone_impls(&v[i].1));
        r.push(e);
        proof {
            let t0 = v@.take(i as int);
            let t1 = v@.take(i + 1);
            assert(r@ == r0.push(e));
            assert(t1.len() == i + 1);
            assert forall|j: int| 0 <= j < i implies registry_view(r@)[j] == registry_view(t1)[j] by {
                assert(r@[j] == r0[j]);
                assert(registry_view(r0)[j] == registry_view(t0)[j]);
                assert(t0[j] == t1[j]);
            }
            assert(registry_view(r@)[i as int] == registry_view(t1)[i as int]);
            assert(registry_view(r@) =~= registry_view(t1));
        }
        i = i + 1;
    }
    assert(v@.take(v.len() as int) =~= v@);
    r
}

impl Clone for TypingContext {
    /// A copy with the same registry and the same inferences.
    fn clone(&self) -> (r: Self)
        ensures
            r@ == self@,
    {
        let r = TypingContext {
            lookup: clone_registry(&self.lookup),
            inferred: self.inferred.clone(),
            constructor: self.constructor.clone(),
        };
        assert(r@.inferred =~= self@.inferred);
        r
    }
}

impl TypingContext {
    /// A context over the given registry, with nothing inferred yet. The
    /// registry holds each identifier once, with each of its signatures once.
    pub fn new(lookup: Vec<(ProtoNodeIdentifier, Vec<(NodeIOTypes, NodeConstructor)>)>) -> (r: Self)
        requires
            registry_distinct(registry_view(lookup@)),
        ensures
            r@.lookup == registry_view(lookup@),
            r@.inferred == Map::<u64, NodeIOTypesView>::empty(),
            r@.constructor == Map::<u64, NodeConstructor>::empty(),
            context_well_formed(r@),
    {
        let r = TypingContext { lookup, inferred: HashMap::new(), constructor: HashMap::new() };
        assert(r@.inferred =~= Map::<u64, NodeIOTypesView>::empty());
        r
    }

    /// Forgets what was inferred for a node; returns its signature if there was one.
    pub fn remove_inference(&mut self, node_id: NodeId) -> (r: Option<NodeIOTypes>)
        ensures
            final(self)@.lookup == old(self)@.lookup,
            final(self)@.inferred == old(self)@.inferred.remove(node_id.0),
            final(self)@.constructor == old(self)@.constructor.remove(node_id.0),
            match r {
                Some(io) => old(self)@.inferred.contains_key(node_id.0) && io@ == old(self)@.inferred[node_id.0],
                None => !old(self)@.inferred.contains_key(node_id.0),
            },
            context_well_formed(old(self)@) ==> context_well_formed(final(self)@),
    {
        self.constructor.remove(&node_id.0);
        let r = self.inferred.remove(&node_id.0);
        proof {
            assert(self@.inferred =~= old(self)@.inferred.remove(node_id.0));
        }
        r
    }

    /// The constructor chosen for a node.
    pub fn constructor(&self, node_id: NodeId) -> (r: Option<NodeConstructor>)
        ensures
            r == (if self@.constructor.contains_key(node_id.0) {
                Some(self@.constructor[node_id.0])
            } else {
                None::<NodeConstructor>
            }),
    {
        match self.constructor.get(&node_id.0) {
            Some(c) => Some(*c),
            None => None,
        }
    }

    /// The signature inferred for a node.
    pub fn type_of(&self, node_id: NodeId) -> (r: Option<&NodeIOTypes>)
        ensures
            match r {
                Some(io) => self@.inferred.contains_key(node_id.0) && io@ == self@.inferred[node_id.0],
                None => !self@.inferred.contains_key(node_id.0),
            },
    {
        self.inferred.get(&node_id.0)
    }

    /// Whether `infer` accepts the node: a node that holds a value and is not
    /// typed yet must be called with nothing or with the context.
    pub fn value_input_accepted(&self, node_id: NodeId, node: &ProtoNode) -> (r: bool)
        ensures
            r == value_input_ok(self@, node_id, node@),
    {
        if self.inferred.contains_key(&node_id.0) {
            return true;
        }
        match &node.construction_args {
            ConstructionArgs::Value(_) => match &node.input {
                ProtoNodeInput::Empty => true,
                ProtoNodeInput::ManualComposition(t) => {
                    let context = Type::concrete("graphene_core::context::Context");
                    crate::typecheck::types_equal(t, &context)
                },
                _ => false,
            },
            _ => true,
        }
    }
}

impl Default for TypingContext {
    /// A context over an empty registry.
    fn default() -> (r: Self)
        ensures
            r@.lookup == Seq::<(Seq<char>, Seq<(NodeIOTypesView, NodeConstructor)>)>::empty(),
            r@.inferred == Map::<u64, NodeIOTypesView>::empty(),
            r@.constructor == Map::<u64, NodeConstructor>::empty(),
            context_well_formed(r@),
    {
        let lookup: Vec<(ProtoNodeIdentifier, Vec<(NodeIOTypes, NodeConstructor)>)> = Vec::new();
        assert(registry_view(lookup@) =~= Seq::<(Seq<char>, Seq<(NodeIOTypesView, NodeConstructor)>)>::empty());
        TypingContext::new(lookup)
    }
}

/// The name of the type that nodes fed with a value are called with.
pub open spec fn context_type_name() -> Seq<char> {
    "graphene_core::context::Context"@
}

/// The name of the unit type.
pub open spec fn unit_type_name() -> Seq<char> {
    "()"@
}

/// The type of a constant value.
pub open spec fn tagged_type(v: TaggedValueView) -> TypeView {
    TypeView::Concrete(
        match v {
            TaggedValueView::Unit => "()"@,
            TaggedValueView::Bool(_) => "bool"@,
            TaggedValueView::U32(_) => "u32"@,
            TaggedValueView::U64(_) => "u64"@,
            TaggedValueView::String(_) => "alloc::string::String"@,
        },
    )
}

/// The types of the nodes given as construction arguments, or the first of
/// them whose type is not known.
pub open spec fn arg_types(inferred: Map<u64, NodeIOTypesView>, list: Seq<(NodeId, bool)>) -> Result<Seq<TypeView>, NodeId>
    decreases list.len(),
{
    if list.len() == 0 {
        Ok(Seq::empty())
    } else {
        match arg_types(inferred, list.drop_last()) {
            Err(id) => Err(id),
            Ok(ts) => if inferred.contains_key(list.last().0.0) {
                Ok(ts.push(io_type(inferred[list.last().0.0])))
            } else {
                Err(list.last().0)
            },
        }
    }
}

/// The types of the construction arguments of a node built from other nodes
/// or from an expression.
pub open spec fn input_types_of(inferred: Map<u64, NodeIOTypesView>, args: ConstructionArgsView) -> Result<Seq<TypeView>, NodeId> {
    match args {
        ConstructionArgsView::Nodes(list) => arg_types(inferred, list),
        ConstructionArgsView::Inline(i) => Ok(seq![i.ty]),
        ConstructionArgsView::Value(_) => Ok(Seq::empty()),
    }
}

/// The type a node is called with: `()`, the type of a manual composition, or
/// the return type of the node it is composed with (unless that is unknown).
pub open spec fn primary_of(inferred: Map<u64, NodeIOTypesView>, input: ProtoNodeInputView) -> Result<TypeView, NodeId> {
    match input {
        ProtoNodeInputView::Empty => Ok(TypeView::Concrete(unit_type_name())),
        ProtoNodeInputView::ManualComposition(t) => Ok(t),
        ProtoNodeInputView::Node(id) => if inferred.contains_key(id.0) {
            Ok(inferred[id.0].return_value)
        } else {
            Err(id)
        },
        ProtoNodeInputView::NodeLambda(id) => if inferred.contains_key(id.0) {
            Ok(inferred[id.0].return_value)
        } else {
            Err(id)
        },
    }
}

/// Whether a node consumes its call argument itself.
pub open spec fn uses_manual_composition(input: ProtoNodeInputView) -> bool {
    input is ManualComposition || input is Empty
}

/// The position of the first registry entry with the given name, or -1.
pub open spec fn impl_index(lookup: Seq<(Seq<char>, Seq<(NodeIOTypesView, NodeConstructor)>)>, name: Seq<char>) -> int
    decreases lookup.len(),
{
    if lookup.len() == 0 {
        -1
    } else if impl_index(lookup.drop_last(), name) >= 0 {
        impl_index(lookup.drop_last(), name)
    } else if lookup.last().0 == name {
        lookup.len() - 1
    } else {
        -1
    }
}

/// Whether a type is a function whose output is generic.
pub open spec fn is_fn_to_generic(t: TypeView) -> bool {
    t matches TypeView::Fn(_, out) && *out is Generic
}

/// The position of the first function type with a generic output, or -1.
pub open spec fn first_fn_to_generic(ts: Seq<TypeView>) -> int
    decreases ts.len(),
{
    if ts.len() == 0 {
        -1
    } else if first_fn_to_generic(ts.drop_last()) >= 0 {
        first_fn_to_generic(ts.drop_last())
    } else if is_fn_to_generic(ts.last()) {
        ts.len() - 1
    } else {
        -1
    }
}

/// Whether a signature accepts the call argument and inputs (inputs compared
/// pairwise up to the shorter list).
pub open spec fn accepts(io: NodeIOTypesView, primary: TypeView, inputs: Seq<TypeView>) -> bool {
    &&& valid_type(io.call_argument, primary)
    &&& forall|i: int| 0 <= i < inputs.len() && 0 <= i < io.inputs.len() ==> #[trigger] valid_type(inputs[i], io.inputs[i])
}

/// The implementations that accept the call argument and inputs, in order.
pub open spec fn accepted(impls: Seq<(NodeIOTypesView, NodeConstructor)>, primary: TypeView, inputs: Seq<TypeView>) -> Seq<
    (NodeIOTypesView, NodeConstructor),
>
    decreases impls.len(),
{
    if impls.len() == 0 {
        Seq::empty()
    } else {
        accepted(impls.drop_last(), primary, inputs) + if accepts(impls.last().0, primary, inputs) {
            seq![impls.last()]
        } else {
            Seq::empty()
        }
    }
}

/// The bindings of the given generic names, or the reason of the first one that fails.
pub open spec fn bind_generics(io: NodeIOTypesView, primary: TypeView, inputs: Seq<TypeView>, gens: Seq<Seq<char>>) -> Result<
    Seq<(Seq<char>, TypeView)>,
    Seq<char>,
>
    decreases gens.len(),
{
    if gens.len() == 0 {
        Ok(Seq::empty())
    } else {
        match bind_generics(io, primary, inputs, gens.drop_last()) {
            Err(e) => Err(e),
            Ok(l) => match check_generic_result(io, primary, inputs, gens.last()) {
                Err(e) => Err(e),
                Ok(t) => Ok(l.push((gens.last(), t))),
            },
        }
    }
}

/// A signature with its generics bound to concrete types, if they can all be bound.
pub open spec fn substituted(io: NodeIOTypesView, primary: TypeView, inputs: Seq<TypeView>) -> Option<NodeIOTypesView> {
    match bind_generics(io, primary, inputs, io_generics(io)) {
        Ok(l) => Some(replace_generics_of(io, l)),
        Err(_) => None,
    }
}

/// The accepted implementations whose generics can be bound: the substituted
/// signature with the constructor, in order.
pub open spec fn candidates(valid: Seq<(NodeIOTypesView, NodeConstructor)>, primary: TypeView, inputs: Seq<TypeView>) -> Seq<
    (NodeIOTypesView, NodeConstructor),
>
    decreases valid.len(),
{
    if valid.len() == 0 {
        Seq::empty()
    } else {
        candidates(valid.drop_last(), primary, inputs) + match substituted(valid.last().0, primary, inputs) {
            Some(io) => seq![(io, valid.last().1)],
            None => Seq::empty(),
        }
    }
}

/// The number the user sees for input `index` of a node: its position among
/// the exposed inputs of the document node past the skipped ones.
pub open spec fn input_position(loc: OriginalLocationView, index: int) -> int {
    if index >= loc.skip_inputs {
        let n = index - loc.skip_inputs;
        count_true(loc.inputs_exposed.take(if n <= loc.inputs_exposed.len() { n } else { loc.inputs_exposed.len() as int }))
    } else {
        index
    }
}

/// The number of set flags.
pub open spec fn count_true(v: Seq<bool>) -> int
    decreases v.len(),
{
    if v.len() == 0 {
        0
    } else {
        count_true(v.drop_last()) + if v.last() { 1int } else { 0int }
    }
}

/// The number an input is reported under: the user's number, past the call
/// argument when the node is composed automatically.
pub open spec fn reported_index(loc: OriginalLocationView, index: int, manual: bool) -> int {
    if manual {
        input_position(loc, index)
    } else {
        input_position(loc, index) + 1
    }
}

/// The mismatches of a signature against the given types: each position
/// (call argument first, then the inputs, up to the shorter list) where the
/// given type is not valid for the expected one, with both types.
pub open spec fn mismatches(
    given: Seq<TypeView>,
    wanted: Seq<TypeView>,
    loc: OriginalLocationView,
    manual: bool,
    m: int,
) -> Seq<(usize, (TypeView, TypeView))>
    decreases m,
{
    if m <= 0 {
        Seq::empty()
    } else {
        mismatches(given, wanted, loc, manual, m - 1) + if valid_type(given[m - 1], wanted[m - 1]) {
            Seq::empty()
        } else {
            seq![(reported_index(loc, m - 1, manual) as usize, (given[m - 1], wanted[m - 1]))]
        }
    }
}

/// The mismatches of one signature (see `mismatches`).
pub open spec fn io_mismatches(
    io: NodeIOTypesView,
    primary: TypeView,
    inputs: Seq<TypeView>,
    loc: OriginalLocationView,
    manual: bool,
) -> Seq<(usize, (TypeView, TypeView))> {
    let given = seq![primary] + inputs;
    let wanted = seq![io.call_argument] + io.inputs;
    let m = if given.len() <= wanted.len() { given.len() } else { wanted.len() };
    mismatches(given, wanted, loc, manual, m as int)
}

/// Over the first `k` implementations: the fewest mismatches seen so far (the
/// largest `usize` when none were seen) and the mismatch lists of that size.
pub open spec fn fewest_mismatches(
    impls: Seq<(NodeIOTypesView, NodeConstructor)>,
    primary: TypeView,
    inputs: Seq<TypeView>,
    loc: OriginalLocationView,
    manual: bool,
    k: int,
) -> (int, Seq<Seq<(usize, (TypeView, TypeView))>>)
    decreases k,
{
    if k <= 0 {
        (usize::MAX as int, Seq::empty())
    } else {
        let (best, lists) = fewest_mismatches(impls, primary, inputs, loc, manual, k - 1);
        let cur = io_mismatches(impls[k - 1].0, primary, inputs, loc, manual);
        let (best2, lists2) = if cur.len() < best {
            (cur.len() as int, Seq::empty())
        } else {
            (best, lists)
        };
        if cur.len() <= best2 {
            (best2, lists2.push(cur))
        } else {
            (best2, lists2)
        }
    }
}

/// `• Input i: type` for each given type but the call argument of an automatically
/// composed node, numbered from the call argument, one per line.
pub open spec fn numbered_inputs_text(given: Seq<TypeView>, manual: bool) -> Seq<char> {
    join_texts(numbered_lines(given, manual, given.len() as int), "\n"@)
}

pub open spec fn numbered_lines(given: Seq<TypeView>, manual: bool, m: int) -> Seq<Seq<char>>
    decreases m,
{
    if m <= 0 {
        Seq::empty()
    } else {
        let i = if manual { m - 1 } else { m };
        numbered_lines(given, manual, m - 1) + if i == 0 {
            Seq::empty()
        } else {
            seq!["• Input "@ + decimal_text(i as nat) + ": "@ + type_text(given[m - 1])]
        }
    }
}

/// The outcome of inferring the type of node `id` in context `ctx`: the
/// signature or the error, and the context afterwards.
pub open spec fn infer_outcome(ctx: TypingContextView, id: NodeId, node: ProtoNodeView) -> (
    Result<NodeIOTypesView, GraphErrorTypeView>,
    TypingContextView,
) {
    if ctx.inferred.contains_key(id.0) {
        (Ok(ctx.inferred[id.0]), ctx)
    } else if node.construction_args is Value {
        let types = NodeIOTypesView {
            call_argument: TypeView::Concrete(context_type_name()),
            return_value: TypeView::Future(Box::new(tagged_type(node.construction_args->Value_0))),
            inputs: Seq::empty(),
        };
        (Ok(types), TypingContextView { inferred: ctx.inferred.insert(id.0, types), ..ctx })
    } else {
        match input_types_of(ctx.inferred, node.construction_args) {
            Err(missing) => (Err(GraphErrorTypeView::NodeNotFound(missing)), ctx),
            Ok(inputs) => match primary_of(ctx.inferred, node.input) {
                Err(missing) => (Err(GraphErrorTypeView::InputNodeNotFound(missing)), ctx),
                Ok(primary) => {
                    let k = impl_index(ctx.lookup, node.identifier);
                    if k < 0 {
                        (Err(GraphErrorTypeView::NoImplementations), ctx)
                    } else if first_fn_to_generic(inputs) >= 0 {
                        (
                            Err(
                                GraphErrorTypeView::UnexpectedGenerics {
                                    index: first_fn_to_generic(inputs) as usize,
                                    inputs,
                                },
                            ),
                            ctx,
                        )
                    } else {
                        let impls = ctx.lookup[k].1;
                        let valid = accepted(impls, primary, inputs);
                        let cands = candidates(valid, primary, inputs);
                        let manual = uses_manual_composition(node.input);
                        let given = seq![primary] + inputs;
                        let multiple = GraphErrorTypeView::MultipleImplementations {
                            inputs: join_texts(type_texts(given), ", "@),
                            valid: valid.map_values(|e: (NodeIOTypesView, NodeConstructor)| e.0),
                        };
                        if cands.len() == 0 {
                            (
                                Err(
                                    GraphErrorTypeView::InvalidImplementations {
                                        inputs: numbered_inputs_text(given, manual),
                                        error_inputs: fewest_mismatches(
                                            impls,
                                            primary,
                                            inputs,
                                            node.original_location,
                                            manual,
                                            impls.len() as int,
                                        ).1,
                                    },
                                ),
                                ctx,
                            )
                        } else if cands.len() == 1 {
                            chosen(ctx, id, cands[0])
                        } else if cands.len() == 2 && cands[0].0.call_argument != cands[1].0.call_argument {
                            if cands[0].0.call_argument == TypeView::Concrete(unit_type_name()) {
                                chosen(ctx, id, cands[0])
                            } else if cands[1].0.call_argument == TypeView::Concrete(unit_type_name()) {
                                chosen(ctx, id, cands[1])
                            } else {
                                (Err(multiple), ctx)
                            }
                        } else {
                            (Err(multiple), ctx)
                        }
                    }
                },
            },
        }
    }
}

/// `ctx` with the implementations registered at position `k` replaced by `impls`.
pub open spec fn with_impls(
    ctx: TypingContextView,
    k: int,
    impls: Seq<(NodeIOTypesView, NodeConstructor)>,
) -> TypingContextView {
    TypingContextView { lookup: ctx.lookup.update(k, (ctx.lookup[k].0, impls)), ..ctx }
}

/// Replacing the implementations of a registered identifier keeps where each name is found.
proof fn lemma_impl_index_update(
    lookup: Seq<(Seq<char>, Seq<(NodeIOTypesView, NodeConstructor)>)>,
    k: int,
    impls: Seq<(NodeIOTypesView, NodeConstructor)>,
    name: Seq<char>,
)
    requires
        0 <= k < lookup.len(),
    ensures
        impl_index(lookup.update(k, (lookup[k].0, impls)), name) == impl_index(lookup, name),
    decreases lookup.len(),
{
    let l2 = lookup.update(k, (lookup[k].0, impls));
    if k < lookup.len() - 1 {
        assert(l2.drop_last() =~= lookup.drop_last().update(k, (lookup[k].0, impls)));
        lemma_impl_index_update(lookup.drop_last(), k, impls, name);
    } else {
        assert(l2.drop_last() =~= lookup.drop_last());
    }
}

proof fn lemma_impl_index_in_range(lookup: Seq<(Seq<char>, Seq<(NodeIOTypesView, NodeConstructor)>)>, name: Seq<char>)
    ensures
        impl_index(lookup, name) < lookup.len(),
    decreases lookup.len(),
{
    if lookup.len() > 0 {
        lemma_impl_index_in_range(lookup.drop_last(), name);
    }
}

proof fn lemma_reverse_concat<A>(a: Seq<A>, b: Seq<A>)
    ensures
        (a + b).reverse() == b.reverse() + a.reverse(),
{
    assert((a + b).reverse() =~= b.reverse() + a.reverse());
}

proof fn lemma_accepted_concat(
    a: Seq<(NodeIOTypesView, NodeConstructor)>,
    b: Seq<(NodeIOTypesView, NodeConstructor)>,
    primary: TypeView,
    inputs: Seq<TypeView>,
)
    ensures
        accepted(a + b, primary, inputs) == accepted(a, primary, inputs) + accepted(b, primary, inputs),
    decreases b.len(),
{
    if b.len() == 0 {
        assert(a + b =~= a);
        assert(accepted(a, primary, inputs) + accepted(b, primary, inputs) =~= accepted(a, primary, inputs));
    } else {
        lemma_accepted_concat(a, b.drop_last(), primary, inputs);
        assert((a + b).drop_last() =~= a + b.drop_last());
        assert((a + b).last() == b.last());
        let e = if accepts(b.last().0, primary, inputs) { seq![b.last()] } else { Seq::empty() };
        assert(accepted(a + b, primary, inputs) =~= accepted(a, primary, inputs) + (accepted(b.drop_last(), primary, inputs) + e));
    }
}

proof fn lemma_candidates_concat(
    a: Seq<(NodeIOTypesView, NodeConstructor)>,
    b: Seq<(NodeIOTypesView, NodeConstructor)>,
    primary: TypeView,
    inputs: Seq<TypeView>,
)
    ensures
        candidates(a + b, primary, inputs) == candidates(a, primary, inputs) + candidates(b, primary, inputs),
    decreases b.len(),
{
    if b.len() == 0 {
        assert(a + b =~= a);
        assert(candidates(a, primary, inputs) + candidates(b, primary, inputs) =~= candidates(a, primary, inputs));
    } else {
        lemma_candidates_concat(a, b.drop_last(), primary, inputs);
        assert((a + b).drop_last() =~= a + b.drop_last());
        assert((a + b).last() == b.last());
        let e = match substituted(b.last().0, primary, inputs) {
            Some(io) => seq![(io, b.last().1)],
            None => Seq::<(NodeIOTypesView, NodeConstructor)>::empty(),
        };
        assert(candidates(a + b, primary, inputs) =~= candidates(a, primary, inputs) + (candidates(b.drop_last(), primary, inputs) + e));
    }
}

proof fn lemma_accepted_single(x: (NodeIOTypesView, NodeConstructor), primary: TypeView, inputs: Seq<TypeView>)
    ensures
        accepted(seq![x], primary, inputs).len() <= 1,
        candidates(seq![x], primary, inputs).len() <= 1,
{
    let s = seq![x];
    let e = Seq::<(NodeIOTypesView, NodeConstructor)>::empty();
    assert(s.drop_last() =~= e);
    assert(s.last() == x);
    assert(accepted(e, primary, inputs) == e);
    assert(candidates(e, primary, inputs) == e);
    assert(accepted(s, primary, inputs) == accepted(e, primary, inputs) + if accepts(x.0, primary, inputs) {
        seq![x]
    } else {
        e
    });
}

proof fn lemma_short_reverse<A>(s: Seq<A>)
    requires
        s.len() <= 1,
    ensures
        s.reverse() == s,
{
    assert(s.reverse() =~= s);
}

/// Accepting implementations keeps their order.
proof fn lemma_accepted_reverse(s: Seq<(NodeIOTypesView, NodeConstructor)>, primary: TypeView, inputs: Seq<TypeView>)
    ensures
        accepted(s.reverse(), primary, inputs) == accepted(s, primary, inputs).reverse(),
    decreases s.len(),
{
    if s.len() == 0 {
        assert(s.reverse() =~= s);
        lemma_short_reverse(accepted(s, primary, inputs));
    } else {
        let d = s.drop_last();
        let l = seq![s.last()];
        lemma_accepted_reverse(d, primary, inputs);
        assert(s =~= d + l);
        assert(s.reverse() =~= l + d.reverse());
        lemma_accepted_concat(l, d.reverse(), primary, inputs);
        lemma_accepted_concat(d, l, primary, inputs);
        lemma_accepted_single(s.last(), primary, inputs);
        lemma_short_reverse(accepted(l, primary, inputs));
        lemma_reverse_concat(accepted(d, primary, inputs), accepted(l, primary, inputs));
    }
}

/// Substituting implementations keeps their order.
proof fn lemma_candidates_reverse(v: Seq<(NodeIOTypesView, NodeConstructor)>, primary: TypeView, inputs: Seq<TypeView>)
    ensures
        candidates(v.reverse(), primary, inputs) == candidates(v, primary, inputs).reverse(),
    decreases v.len(),
{
    if v.len() == 0 {
        assert(v.reverse() =~= v);
        lemma_short_reverse(candidates(v, primary, inputs));
    } else {
        let d = v.drop_last();
        let l = seq![v.last()];
        lemma_candidates_reverse(d, primary, inputs);
        assert(v =~= d + l);
        assert(v.reverse() =~= l + d.reverse());
        lemma_candidates_concat(l, d.reverse(), primary, inputs);
        lemma_candidates_concat(d, l, primary, inputs);
        lemma_accepted_single(v.last(), primary, inputs);
        lemma_short_reverse(candidates(l, primary, inputs));
        lemma_reverse_concat(candidates(d, primary, inputs), candidates(l, primary, inputs));
    }
}

/// The order in which the implementations of a node are registered does not
/// matter: with them listed the other way round, inference succeeds exactly
/// when it did, with the same signature and constructor. In particular, of two
/// usable implementations with different call arguments, the one taking `()`
/// is chosen wherever it stands.
pub proof fn lemma_infer_ignores_registration_order(ctx: TypingContextView, id: NodeId, node: ProtoNodeView)
    requires
        0 <= impl_index(ctx.lookup, node.identifier),
    ensures
        ({
            let k = impl_index(ctx.lookup, node.identifier);
            let reversed = with_impls(ctx, k, ctx.lookup[k].1.reverse());
            let before = infer_outcome(ctx, id, node);
            let after = infer_outcome(reversed, id, node);
            &&& (after.0 is Ok <==> before.0 is Ok)
            &&& before.0 is Ok ==> after.0 == before.0 && after.1.inferred == before.1.inferred
                && after.1.constructor == before.1.constructor
        }),
{
    let k = impl_index(ctx.lookup, node.identifier);
    let impls = ctx.lookup[k].1;
    let rv = impls.reverse();
    let reversed = with_impls(ctx, k, rv);
    lemma_impl_index_in_range(ctx.lookup, node.identifier);
    lemma_impl_index_update(ctx.lookup, k, rv, node.identifier);
    assert(reversed.lookup[k].1 == rv);
    if let Ok(inputs) = input_types_of(ctx.inferred, node.construction_args) {
        if let Ok(primary) = primary_of(ctx.inferred, node.input) {
            lemma_accepted_reverse(impls, primary, inputs);
            lemma_candidates_reverse(accepted(impls, primary, inputs), primary, inputs);
            let c1 = candidates(accepted(impls, primary, inputs), primary, inputs);
            let c2 = candidates(accepted(rv, primary, inputs), primary, inputs);
            assert(c2 == c1.reverse());
            assert(c2.len() == c1.len());
            if c1.len() == 1 {
                assert(c2[0] == c1[0]);
            } else if c1.len() == 2 {
                assert(c2[0] == c1[1] && c2[1] == c1[0]);
            }
        }
    }
}

/// Of exactly two usable implementations with different call arguments, the
/// one that takes `()` is chosen: inference succeeds and the signature it
/// records takes `()`.
pub proof fn lemma_infer_prefers_unit(
    ctx: TypingContextView,
    id: NodeId,
    node: ProtoNodeView,
    primary: TypeView,
    inputs: Seq<TypeView>,
)
    requires
        !ctx.inferred.contains_key(id.0),
        !(node.construction_args is Value),
        input_types_of(ctx.inferred, node.construction_args) == Ok::<Seq<TypeView>, NodeId>(inputs),
        primary_of(ctx.inferred, node.input) == Ok::<TypeView, NodeId>(primary),
        0 <= impl_index(ctx.lookup, node.identifier),
        first_fn_to_generic(inputs) < 0,
        ({
            let c = candidates(accepted(ctx.lookup[impl_index(ctx.lookup, node.identifier)].1, primary, inputs), primary, inputs);
            &&& c.len() == 2
            &&& c[0].0.call_argument != c[1].0.call_argument
            &&& (c[0].0.call_argument == TypeView::Concrete(unit_type_name()) || c[1].0.call_argument
                == TypeView::Concrete(unit_type_name()))
        }),
    ensures
        infer_outcome(ctx, id, node).0 is Ok,
        infer_outcome(ctx, id, node).0->Ok_0.call_argument == TypeView::Concrete(unit_type_name()),
        infer_outcome(ctx, id, node).1.inferred[id.0] == infer_outcome(ctx, id, node).0->Ok_0,
{
}

/// Once inferred, the type of a node is kept: inferring it again, whatever node
/// is given for it, returns the same type and changes nothing.
pub proof fn lemma_infer_cached(ctx: TypingContextView, id: NodeId, node: ProtoNodeView, again: ProtoNodeView)
    requires
        infer_outcome(ctx, id, node).0 is Ok,
    ensures
        infer_outcome(infer_outcome(ctx, id, node).1, id, again) == infer_outcome(ctx, id, node),
{
    let after = infer_outcome(ctx, id, node).1;
    assert(after.inferred.contains_key(id.0));
    assert(after.inferred[id.0] == infer_outcome(ctx, id, node).0->Ok_0);
}

/// Forgetting a node that was not known before it was inferred gives back the
/// context as it was.
pub proof fn lemma_remove_undoes_infer(ctx: TypingContextView, id: NodeId, node: ProtoNodeView)
    requires
        !ctx.inferred.contains_key(id.0),
        !ctx.constructor.contains_key(id.0),
    ensures
        infer_outcome(ctx, id, node).1.lookup == ctx.lookup,
        infer_outcome(ctx, id, node).1.inferred.remove(id.0) == ctx.inferred,
        infer_outcome(ctx, id, node).1.constructor.remove(id.0) == ctx.constructor,
{
    let after = infer_outcome(ctx, id, node).1;
    assert(after.inferred.remove(id.0) =~= ctx.inferred);
    assert(after.constructor.remove(id.0) =~= ctx.constructor);
}

/// Records the chosen signature and constructor for node `id`.
pub open spec fn chosen(ctx: TypingContextView, id: NodeId, c: (NodeIOTypesView, NodeConstructor)) -> (
    Result<NodeIOTypesView, GraphErrorTypeView>,
    TypingContextView,
) {
    (
        Ok(c.0),
        TypingContextView {
            inferred: ctx.inferred.insert(id.0, c.0),
            constructor: ctx.constructor.insert(id.0, c.1),
            ..ctx
        },
    )
}

impl TypingContext {
    /// The signature inferred for the node numbered `key`, with its model.
    fn inferred_io(&self, key: u64) -> (r: Option<&NodeIOTypes>)
        ensures
            match r {
                Some(io) => self@.inferred.contains_key(key) && io@ == self@.inferred[key],
                None => !self@.inferred.contains_key(key),
            },
    {
        self.inferred.get(&key)
    }

    /// The types of the nodes given as construction arguments (see `arg_types`).
    fn arg_types(&self, list: &Vec<(NodeId, bool)>) -> (r: Result<Vec<Type>, NodeId>)
        ensures
            match arg_types(self@.inferred, list@) {
                Ok(ts) => r matches Ok(v) && type_views(v@) == ts,
                Err(id) => r == Err::<Vec<Type>, NodeId>(id),
            },
    {
        let mut out: Vec<Type> = Vec::new();
        let mut i: usize = 0;
        assert(list@.take(0) =~= Seq::<(NodeId, bool)>::empty());
        assert(type_views(out@) =~= Seq::<TypeView>::empty());
        while i < list.len()
            invariant
                i <= list.len(),
                arg_types(self@.inferred, list@.take(i as int)) == Ok::<Seq<TypeView>, NodeId>(type_views(out@)),
            decreases list.len() - i,
        {
            let (id, _) = list[i];
            proof {
                assert(list@.take(i + 1).drop_last() =~= list@.take(i as int));
                assert(list@.take(i + 1).last() == list@[i as int]);
            }
            match self.inferred_io(id.0) {
                Some(io) => {
                    let ghost prev = out@;
                    out.push(io.ty());
                    assert(type_views(out@) =~= type_views(prev).push(io_type(self@.inferred[id.0])));
                },
                None => {
                    proof {
                        lemma_arg_types_err_prefix(self@.inferred, list@, i + 1);
                    }
                    return Err(id);
                },
            }
            i = i + 1;
        }
        assert(list@.take(list.len() as int) =~= list@);
        Ok(out)
    }
}

/// Once the arguments fail on a prefix, they fail with the same node.
proof fn lemma_arg_types_err_prefix(inferred: Map<u64, NodeIOTypesView>, list: Seq<(NodeId, bool)>, k: int)
    requires
        0 <= k <= list.len(),
        arg_types(inferred, list.take(k)) is Err,
    ensures
        arg_types(inferred, list) == arg_types(inferred, list.take(k)),
    decreases list.len() - k,
{
    if k < list.len() {
        assert(list.take(k + 1).drop_last() =~= list.take(k));
        lemma_arg_types_err_prefix(inferred, list, k + 1);
    } else {
        assert(list.take(k) =~= list);
    }
}

impl TypingContext {
    /// The types of a node's construction arguments (see `input_types_of`).
    fn input_types(&self, node: &ProtoNode) -> (r: Result<Vec<Type>, NodeId>)
        ensures
            match input_types_of(self@.inferred, node@.construction_args) {
                Ok(ts) => r matches Ok(v) && type_views(v@) == ts,
                Err(id) => r == Err::<Vec<Type>, NodeId>(id),
            },
    {
        match &node.construction_args {
            ConstructionArgs::Nodes(list) => self.arg_types(list),
            ConstructionArgs::Inline(inline) => {
                let mut v: Vec<Type> = Vec::new();
                v.push(inline.ty.clone());
                assert(type_views(v@) =~= seq![inline.ty@]);
                Ok(v)
            },
            ConstructionArgs::Value(_) => {
                let v: Vec<Type> = Vec::new();
                assert(type_views(v@) =~= Seq::<TypeView>::empty());
                Ok(v)
            },
        }
    }

    /// The type a node is called with (see `primary_of`).
    fn primary_input(&self, node: &ProtoNode) -> (r: Result<Type, NodeId>)
        ensures
            match primary_of(self@.inferred, node@.input) {
                Ok(t) => r matches Ok(x) && x@ == t,
                Err(id) => r matches Err(x) && x == id,
            },
    {
        match &node.input {
            ProtoNodeInput::Empty => Ok(Type::concrete("()")),
            ProtoNodeInput::ManualComposition(t) => Ok(t.clone()),
            ProtoNodeInput::Node(id) | ProtoNodeInput::NodeLambda(id) => match self.inferred_io(id.0) {
                Some(io) => Ok(io.return_value.clone()),
                None => Err(*id),
            },
        }
    }

    /// The position of the registry entry for a name (see `impl_index`).
    fn find_impls(&self, name: &String) -> (r: Option<usize>)
        ensures
            match r {
                Some(k) => impl_index(self@.lookup, name@) == k as int && k < self.lookup.len()
                    && self@.lookup[k as int] == (self.lookup@[k as int].0.name@, impls_view(self.lookup@[k as int].1@)),
                None => impl_index(self@.lookup, name@) < 0,
            },
    {
        let ghost lv = self@.lookup;
        let mut i: usize = 0;
        assert(lv.take(0) =~= Seq::<(Seq<char>, Seq<(NodeIOTypesView, NodeConstructor)>)>::empty());
        while i < self.lookup.len()
            invariant
                i <= self.lookup.len(),
                lv == self@.lookup,
                lv.len() == self.lookup.len(),
                impl_index(lv.take(i as int), name@) < 0,
            decreases self.lookup.len() - i,
        {
            proof {
                assert(lv.take(i + 1).drop_last() =~= lv.take(i as int));
                assert(lv[i as int].0 == self.lookup@[i as int].0.name@);
            }
            if self.lookup[i].0.name == *name {
                proof {
                    lemma_impl_index_prefix(lv, name@, i + 1);
                }
                return Some(i);
            }
            i = i + 1;
        }
        assert(lv.take(lv.len() as int) =~= lv);
        None
    }
}

/// Once a prefix holds the name, its first position is the first position overall.
proof fn lemma_impl_index_prefix(
    lookup: Seq<(Seq<char>, Seq<(NodeIOTypesView, NodeConstructor)>)>,
    name: Seq<char>,
    k: int,
)
    requires
        0 <= k <= lookup.len(),
        impl_index(lookup.take(k), name) >= 0,
    ensures
        impl_index(lookup, name) == impl_index(lookup.take(k), name),
    decreases lookup.len() - k,
{
    if k < lookup.len() {
        assert(lookup.take(k + 1).drop_last() =~= lookup.take(k));
        lemma_impl_index_prefix(lookup, name, k + 1);
    } else {
        assert(lookup.take(k) =~= lookup);
    }
}

/// The position of the first function type with a generic output (see `first_fn_to_generic`).
fn find_fn_to_generic(ts: &Vec<Type>) -> (r: Option<usize>)
    ensures
        match r {
            Some(k) => first_fn_to_generic(type_views(ts@)) == k as int,
            None => first_fn_to_generic(type_views(ts@)) < 0,
        },
{
    let ghost tv = type_views(ts@);
    let mut i: usize = 0;
    assert(tv.take(0) =~= Seq::<TypeView>::empty());
    while i < ts.len()
        invariant
            i <= ts.len(),
            tv == type_views(ts@),
            first_fn_to_generic(tv.take(i as int)) < 0,
        decreases ts.len() - i,
    {
        proof {
            assert(tv.take(i + 1).drop_last() =~= tv.take(i as int));
            assert(tv[i as int] == ts@[i as int]@);
        }
        let hit = match &ts[i] {
            Type::Fn(_, out) => match &**out {
                Type::Generic(_) => true,
                _ => false,
            },
            _ => false,
        };
        assert(hit == is_fn_to_generic(tv[i as int])) by {
            match ts@[i as int] {
                Type::Fn(a, b) => {
                    assert(tv[i as int] == TypeView::Fn(Box::new(crate::types::type_view(*a)), Box::new(crate::types::type_view(*b))));
                    match *b {
                        Type::Generic(_) => {},
                        _ => {},
                    }
                },
                _ => {},
            }
        }
        if hit {
            proof {
                lemma_first_fn_to_generic_prefix(tv, i + 1);
            }
            return Some(i);
        }
        i = i + 1;
    }
    assert(tv.take(tv.len() as int) =~= tv);
    None
}

proof fn lemma_first_fn_to_generic_prefix(ts: Seq<TypeView>, k: int)
    requires
        0 <= k <= ts.len(),
        first_fn_to_generic(ts.take(k)) >= 0,
    ensures
        first_fn_to_generic(ts) == first_fn_to_generic(ts.take(k)),
    decreases ts.len() - k,
{
    if k < ts.len() {
        assert(ts.take(k + 1).drop_last() =~= ts.take(k));
        lemma_first_fn_to_generic_prefix(ts, k + 1);
    } else {
        assert(ts.take(k) =~= ts);
    }
}

/// Whether a signature accepts the call argument and inputs (see `accepts`).
fn signature_accepts(io: &NodeIOTypes, primary: &Type, inputs: &Vec<Type>) -> (r: bool)
    ensures
        r == accepts(io@, primary@, type_views(inputs@)),
{
    if !crate::typecheck::is_valid_type(&io.call_argument, primary) {
        return false;
    }
    let mut i: usize = 0;
    while i < inputs.len() && i < io.inputs.len()
        invariant
            i <= inputs.len(),
            forall|j: int| 0 <= j < i && j < io.inputs.len() ==> #[trigger] valid_type(type_views(inputs@)[j], io@.inputs[j]),
        decreases inputs.len() - i,
    {
        if !crate::typecheck::is_valid_type(&inputs[i], &io.inputs[i]) {
            proof {
                assert(type_views(inputs@)[i as int] == inputs@[i as int]@);
                assert(io@.inputs[i as int] == io.inputs@[i as int]@);
                assert(!valid_type(type_views(inputs@)[i as int], io@.inputs[i as int]));
            }
            return false;
        }
        proof {
            assert(type_views(inputs@)[i as int] == inputs@[i as int]@);
            assert(io@.inputs[i as int] == io.inputs@[i as int]@);
        }
        i = i + 1;
    }
    true
}

proof fn lemma_bind_generics_err_prefix(
    io: NodeIOTypesView,
    primary: TypeView,
    inputs: Seq<TypeView>,
    gens: Seq<Seq<char>>,
    k: int,
)
    requires
        0 <= k <= gens.len(),
        bind_generics(io, primary, inputs, gens.take(k)) is Err,
    ensures
        bind_generics(io, primary, inputs, gens) is Err,
    decreases gens.len() - k,
{
    if k < gens.len() {
        assert(gens.take(k + 1).drop_last() =~= gens.take(k));
        lemma_bind_generics_err_prefix(io, primary, inputs, gens, k + 1);
    } else {
        assert(gens.take(k) =~= gens);
    }
}

/// A signature with its generics bound (see `substituted`).
fn substitute(io: &NodeIOTypes, primary: &Type, inputs: &Vec<Type>) -> (r: Option<NodeIOTypes>)
    ensures
        match substituted(io@, primary@, type_views(inputs@)) {
            Some(x) => r matches Some(y) && y@ == x,
            None => r is None,
        },
{
    let ghost tv = type_views(inputs@);
    let gens = crate::typecheck::collect_generics(io);
    let ghost gv = crate::typecheck::string_views(gens@);
    let mut lookup: Vec<(String, Type)> = Vec::new();
    let mut k: usize = 0;
    assert(gv.take(0) =~= Seq::<Seq<char>>::empty());
    assert(crate::typecheck::bindings_view(lookup@) =~= Seq::<(Seq<char>, TypeView)>::empty());
    while k < gens.len()
        invariant
            k <= gens.len(),
            gv == crate::typecheck::string_views(gens@),
            gv == io_generics(io@),
            tv == type_views(inputs@),
            lookup.len() == k,
            bind_generics(io@, primary@, tv, gv.take(k as int)) == Ok::<Seq<(Seq<char>, TypeView)>, Seq<char>>(
                crate::typecheck::bindings_view(lookup@),
            ),
        decreases gens.len() - k,
    {
        proof {
            assert(gv.take(k + 1).drop_last() =~= gv.take(k as int));
            assert(gv.take(k + 1).last() == gens@[k as int]@);
        }
        match crate::typecheck::check_generic(io, primary, inputs, &gens[k]) {
            Ok(t) => {
                let ghost prev = lookup@;
                let ghost tview = t@;
                lookup.push((gens[k].clone(), t));
                assert(crate::typecheck::bindings_view(lookup@) =~= crate::typecheck::bindings_view(prev).push(
                    (gens@[k as int]@, tview),
                ));
            },
            Err(_) => {
                proof {
                    lemma_bind_generics_err_prefix(io@, primary@, tv, gv, k + 1);
                }
                return None;
            },
        }
        k = k + 1;
    }
    assert(gv.take(gens.len() as int) =~= gv);
    let mut out = io.clone();
    crate::typecheck::replace_generics(&mut out, &lookup);
    Some(out)
}

/// The signatures of a list of implementations.
pub open spec fn signatures(v: Seq<(NodeIOTypesView, NodeConstructor)>) -> Seq<NodeIOTypesView> {
    v.map_values(|e: (NodeIOTypesView, NodeConstructor)| e.0)
}

/// The accepted signatures and the substituted candidates among `impls`.
fn select_candidates(impls: &Vec<(NodeIOTypes, NodeConstructor)>, primary: &Type, inputs: &Vec<Type>) -> (r: (
    Vec<NodeIOTypes>,
    Vec<(NodeIOTypes, NodeConstructor)>,
))
    ensures
        ios_view(r.0@) == signatures(accepted(impls_view(impls@), primary@, type_views(inputs@))),
        impls_view(r.1@) == candidates(accepted(impls_view(impls@), primary@, type_views(inputs@)), primary@, type_views(inputs@)),
{
    let ghost iv = impls_view(impls@);
    let ghost tv = type_views(inputs@);
    let mut valid: Vec<NodeIOTypes> = Vec::new();
    let mut cands: Vec<(NodeIOTypes, NodeConstructor)> = Vec::new();
    let mut i: usize = 0;
    assert(iv.take(0) =~= Seq::<(NodeIOTypesView, NodeConstructor)>::empty());
    assert(ios_view(valid@) =~= Seq::<NodeIOTypesView>::empty());
    assert(impls_view(cands@) =~= Seq::<(NodeIOTypesView, NodeConstructor)>::empty());
    while i < impls.len()
        invariant
            i <= impls.len(),
            iv == impls_view(impls@),
            tv == type_views(inputs@),
            ios_view(valid@) == signatures(accepted(iv.take(i as int), primary@, tv)),
            impls_view(cands@) == candidates(accepted(iv.take(i as int), primary@, tv), primary@, tv),
        decreases impls.len() - i,
    {
        proof {
            assert(iv.take(i + 1).drop_last() =~= iv.take(i as int));
            assert(iv.take(i + 1).last() == iv[i as int]);
            assert(iv[i as int] == (impls@[i as int].0@, impls@[i as int].1));
        }
        let io = &impls[i].0;
        let ctor = impls[i].1;
        if signature_accepts(io, primary, inputs) {
            let ghost acc = accepted(iv.take(i as int), primary@, tv);
            let ghost acc2 = acc.push(iv[i as int]);
            assert(accepted(iv.take(i + 1), primary@, tv) == acc2);
            assert(acc2.drop_last() =~= acc);
            let ghost prev_valid = valid@;
            let c = io.clone();
            let ghost cview = c@;
            valid.push(c);
            assert(ios_view(valid@) =~= ios_view(prev_valid).push(cview));
            assert(signatures(acc2) =~= signatures(acc).push(iv[i as int].0));
            assert(ios_view(valid@) =~= signatures(acc2));
            match substitute(io, primary, inputs) {
                Some(x) => {
                    let ghost prev = cands@;
                    let ghost xv = x@;
                    cands.push((x, ctor));
                    assert(impls_view(cands@) =~= impls_view(prev).push((xv, ctor)));
                },
                None => {},
            }
            assert(impls_view(cands@) =~= candidates(acc2, primary@, tv));
        } else {
            assert(accepted(iv.take(i + 1), primary@, tv) =~= accepted(iv.take(i as int), primary@, tv));
        }
        i = i + 1;
    }
    assert(iv.take(impls.len() as int) =~= iv);
    (valid, cands)
}

proof fn lemma_count_true_bounded(v: Seq<bool>)
    ensures
        0 <= count_true(v) <= v.len(),
    decreases v.len(),
{
    if v.len() > 0 {
        lemma_count_true_bounded(v.drop_last());
    }
}

/// The number the user sees for input `index` (see `input_position`).
fn input_number(loc: &crate::types::OriginalLocation, index: usize) -> (r: usize)
    ensures
        r as int == input_position(loc@, index as int),
        r <= index,
{
    if index >= loc.skip_inputs {
        let n = index - loc.skip_inputs;
        let lim = if n <= loc.inputs_exposed.len() { n } else { loc.inputs_exposed.len() };
        let ghost flags = loc.inputs_exposed@;
        let mut count: usize = 0;
        let mut i: usize = 0;
        assert(flags.take(0) =~= Seq::<bool>::empty());
        while i < lim
            invariant
                i <= lim,
                lim <= flags.len(),
                flags == loc.inputs_exposed@,
                count as int == count_true(flags.take(i as int)),
                count <= i,
            decreases lim - i,
        {
            proof {
                assert(flags.take(i + 1).drop_last() =~= flags.take(i as int));
                assert(flags.take(i + 1).last() == flags[i as int]);
            }
            if loc.inputs_exposed[i] {
                count = count + 1;
            }
            i = i + 1;
        }
        count
    } else {
        index
    }
}

/// The given types against the expected ones (see `io_mismatches`).
fn signature_mismatches(
    io: &NodeIOTypes,
    given: &Vec<Type>,
    loc: &crate::types::OriginalLocation,
    manual: bool,
) -> (r: Vec<(usize, (Type, Type))>)
    requires
        given.len() >= 1,
    ensures
        mismatches_view(r@) == mismatches(
            type_views(given@),
            seq![io@.call_argument] + io@.inputs,
            loc@,
            manual,
            (if given.len() <= io.inputs.len() + 1 { given.len() as int } else { io.inputs.len() + 1 }),
        ),
{
    let ghost gv = type_views(given@);
    let ghost wv = seq![io@.call_argument] + io@.inputs;
    let m = if given.len() - 1 <= io.inputs.len() { given.len() } else { io.inputs.len() + 1 };
    let mut out: Vec<(usize, (Type, Type))> = Vec::new();
    let mut k: usize = 0;
    assert(mismatches_view(out@) =~= mismatches(gv, wv, loc@, manual, 0));
    while k < m
        invariant
            k <= m,
            m <= given.len(),
            m <= io.inputs.len() + 1,
            gv == type_views(given@),
            wv == seq![io@.call_argument] + io@.inputs,
            mismatches_view(out@) == mismatches(gv, wv, loc@, manual, k as int),
        decreases m - k,
    {
        let wanted = if k == 0 { &io.call_argument } else { &io.inputs[k - 1] };
        proof {
            assert(gv[k as int] == given@[k as int]@);
            if k > 0 {
                assert(wv[k as int] == io@.inputs[k - 1]);
                assert(io@.inputs[k - 1] == io.inputs@[k - 1]@);
            }
            assert(wv[k as int] == wanted@);
        }
        if !crate::typecheck::is_valid_type(&given[k], wanted) {
            let index = input_number(loc, k);
            let reported = if manual { index } else { index + 1 };
            let ghost prev = out@;
            let a = given[k].clone();
            let b = wanted.clone();
            let ghost entry = (reported, (a@, b@));
            out.push((reported, (a, b)));
            assert(mismatches_view(out@) =~= mismatches_view(prev).push(entry));
        }
        k = k + 1;
    }
    out
}

/// The models of lists of mismatches.
pub open spec fn mismatch_lists_view(v: Seq<Vec<(usize, (Type, Type))>>) -> Seq<Seq<(usize, (TypeView, TypeView))>> {
    v.map_values(|l: Vec<(usize, (Type, Type))>| mismatches_view(l@))
}

/// The mismatch lists of the implementations with the fewest mismatches (see `fewest_mismatches`).
fn fewest_mismatch_lists(
    impls: &Vec<(NodeIOTypes, NodeConstructor)>,
    given: &Vec<Type>,
    loc: &crate::types::OriginalLocation,
    manual: bool,
) -> (r: Vec<Vec<(usize, (Type, Type))>>)
    requires
        given.len() >= 1,
    ensures
        mismatch_lists_view(r@) == fewest_mismatches(
            impls_view(impls@),
            type_views(given@)[0],
            type_views(given@).drop_first(),
            loc@,
            manual,
            impls.len() as int,
        ).1,
{
    let ghost iv = impls_view(impls@);
    let ghost gv = type_views(given@);
    let ghost primary = gv[0];
    let ghost inputs = gv.drop_first();
    assert(seq![primary] + inputs =~= gv);
    let mut best: usize = usize::MAX;
    let mut lists: Vec<Vec<(usize, (Type, Type))>> = Vec::new();
    let mut i: usize = 0;
    assert(mismatch_lists_view(lists@) =~= Seq::<Seq<(usize, (TypeView, TypeView))>>::empty());
    while i < impls.len()
        invariant
            i <= impls.len(),
            given.len() >= 1,
            iv == impls_view(impls@),
            gv == type_views(given@),
            seq![primary] + inputs == gv,
            best as int == fewest_mismatches(iv, primary, inputs, loc@, manual, i as int).0,
            mismatch_lists_view(lists@) == fewest_mismatches(iv, primary, inputs, loc@, manual, i as int).1,
        decreases impls.len() - i,
    {
        proof {
            assert(iv[i as int].0 == impls@[i as int].0@);
            assert(inputs.len() == given.len() - 1);
        }
        let cur = signature_mismatches(&impls[i].0, given, loc, manual);
        proof {
            let io = iv[i as int].0;
            let wanted = seq![io.call_argument] + io.inputs;
            assert(wanted.len() == impls@[i as int].0.inputs.len() + 1);
            assert(mismatches_view(cur@) == io_mismatches(io, primary, inputs, loc@, manual));
        }
        let ghost prev_lists = lists@;
        if cur.len() < best {
            best = cur.len();
            lists = Vec::new();
        }
        let ghost mid_lists = lists@;
        if cur.len() <= best {
            let ghost cv = mismatches_view(cur@);
            lists.push(cur);
            assert(mismatch_lists_view(lists@) =~= mismatch_lists_view(mid_lists).push(cv));
        }
        proof {
            assert(mismatch_lists_view(Seq::<Vec<(usize, (Type, Type))>>::empty()) =~= Seq::<Seq<(usize, (TypeView, TypeView))>>::empty());
        }
        i = i + 1;
    }
    lists
}

/// `• Input i: type` lines (see `numbered_inputs_text`).
fn numbered_inputs(given: &Vec<Type>, manual: bool) -> (r: String)
    ensures
        r@ == numbered_inputs_text(type_views(given@), manual),
{
    let ghost gv = type_views(given@);
    let mut lines: Vec<String> = Vec::new();
    let mut k: usize = 0;
    assert(crate::typecheck::string_views(lines@) =~= numbered_lines(gv, manual, 0));
    while k < given.len()
        invariant
            k <= given.len(),
            gv == type_views(given@),
            crate::typecheck::string_views(lines@) == numbered_lines(gv, manual, k as int),
        decreases given.len() - k,
    {
        let i = if manual { k } else { k + 1 };
        if i != 0 {
            let mut line = String::new();
            line.append("• Input ");
            crate::text::push_digits(&mut line, i as u64, 10);
            line.append(": ");
            crate::typecheck::push_type_text(&mut line, &given[k]);
            proof {
                reveal_strlit("• Input ");
                reveal_strlit(": ");
                assert(gv[k as int] == given@[k as int]@);
                assert(line@ =~= "• Input "@ + decimal_text(i as nat) + ": "@ + type_text(gv[k as int]));
            }
            let ghost prev = lines@;
            let ghost lv = line@;
            lines.push(line);
            assert(crate::typecheck::string_views(lines@) =~= crate::typecheck::string_views(prev).push(lv));
        } else {
            assert(numbered_lines(gv, manual, k + 1) =~= numbered_lines(gv, manual, k as int));
        }
        k = k + 1;
    }
    let mut out = String::new();
    crate::typecheck::push_joined(&mut out, &lines, "\n");
    proof {
        reveal_strlit("\n");
        assert(out@ =~= numbered_inputs_text(gv, manual));
    }
    out
}

/// The texts of the given types joined by `, `.
fn comma_inputs(given: &Vec<Type>) -> (r: String)
    ensures
        r@ == join_texts(type_texts(type_views(given@)), ", "@),
{
    let ghost gv = type_views(given@);
    let mut texts: Vec<String> = Vec::new();
    let mut k: usize = 0;
    assert(crate::typecheck::string_views(texts@) =~= type_texts(gv.take(0)));
    while k < given.len()
        invariant
            k <= given.len(),
            gv == type_views(given@),
            texts.len() == k,
            crate::typecheck::string_views(texts@) == type_texts(gv.take(k as int)),
        decreases given.len() - k,
    {
        let t = crate::typecheck::type_to_string(&given[k]);
        let ghost tv = t@;
        let ghost prev = texts@;
        texts.push(t);
        proof {
            assert(gv[k as int] == given@[k as int]@);
            assert(crate::typecheck::string_views(texts@) =~= crate::typecheck::string_views(prev).push(tv));
            assert(type_texts(gv.take(k + 1)) =~= type_texts(gv.take(k as int)).push(type_text(gv[k as int])));
        }
        k = k + 1;
    }
    assert(gv.take(given.len() as int) =~= gv);
    let mut out = String::new();
    crate::typecheck::push_joined(&mut out, &texts, ", ");
    assert(out@ =~= join_texts(type_texts(gv), ", "@));
    out
}

/// The type of a constant value (see `tagged_type`).
fn value_type(v: &crate::types::TaggedValue) -> (r: Type)
    ensures
        r@ == tagged_type(v@),
{
    match v {
        crate::types::TaggedValue::Unit => Type::concrete("()"),
        crate::types::TaggedValue::Bool(_) => Type::concrete("bool"),
        crate::types::TaggedValue::U32(_) => Type::concrete("u32"),
        crate::types::TaggedValue::U64(_) => Type::concrete("u64"),
        crate::types::TaggedValue::String(_) => Type::concrete("alloc::string::String"),
    }
}

/// A node fed with a value must be called with nothing or with the context.
pub open spec fn value_input_ok(ctx: TypingContextView, id: NodeId, node: ProtoNodeView) -> bool {
    !ctx.inferred.contains_key(id.0) && node.construction_args is Value ==> (node.input is Empty || node.input
        == ProtoNodeInputView::ManualComposition(TypeView::Concrete(context_type_name())))
}

/// The single error `e` about `node`.
fn single_error(node: &ProtoNode, e: GraphErrorType) -> (r: Vec<GraphError>)
    ensures
        r@.len() == 1,
        r@[0]@ == error_about(node@, e@),
{
    let mut v: Vec<GraphError> = Vec::new();
    v.push(GraphError::new(node, e));
    v
}

impl TypingContext {
    /// Records the chosen signature and constructor for a node.
    fn record(&mut self, node_id: NodeId, io: &NodeIOTypes, ctor: NodeConstructor) -> (r: NodeIOTypes)
        ensures
            r@ == io@,
            final(self)@ == chosen(old(self)@, node_id, (io@, ctor)).1,
    {
        self.inferred.insert(node_id.0, io.clone());
        self.constructor.insert(node_id.0, ctor);
        proof {
            assert(self@.inferred =~= old(self)@.inferred.insert(node_id.0, io@));
        }
        io.clone()
    }

    /// Infers the signature of a node from the signatures already known for
    /// its inputs and from the implementations registered for its identifier
    /// (see `infer_outcome`), and records it.
    pub fn infer(&mut self, node_id: NodeId, node: &ProtoNode) -> (r: Result<NodeIOTypes, Vec<GraphError>>)
        requires
            value_input_ok(old(self)@, node_id, node@),
        ensures
            final(self)@ == infer_outcome(old(self)@, node_id, node@).1,
            match infer_outcome(old(self)@, node_id, node@).0 {
                Ok(io) => r matches Ok(x) && x@ == io,
                Err(e) => r matches Err(errs) && errs@.len() == 1 && errs@[0]@ == error_about(node@, e),
            },
            context_well_formed(old(self)@) ==> context_well_formed(final(self)@),
    {
        proof {
            lemma_infer_keeps_well_formed(self@, node_id, node@);
        }
        let ghost ctx = self@;
        match self.inferred_io(node_id.0) {
            Some(io) => { return Ok(io.clone()); },
            None => {},
        }
        match &node.construction_args {
            ConstructionArgs::Value(v) => {
                let types = NodeIOTypes::new(
                    Type::concrete("graphene_core::context::Context"),
                    Type::Future(Box::new(value_type(v))),
                    Vec::new(),
                );
                self.inferred.insert(node_id.0, types.clone());
                proof {
                    assert(types@.inputs =~= Seq::<TypeView>::empty());
                    assert(self@.inferred =~= ctx.inferred.insert(node_id.0, types@));
                }
                return Ok(types);
            },
            _ => {},
        }
        let inputs = match self.input_types(node) {
            Ok(v) => v,
            Err(missing) => { return Err(single_error(node, GraphErrorType::NodeNotFound(missing))); },
        };
        let primary = match self.primary_input(node) {
            Ok(t) => t,
            Err(missing) => { return Err(single_error(node, GraphErrorType::InputNodeNotFound(missing))); },
        };
        let manual = match &node.input {
            ProtoNodeInput::ManualComposition(_) | ProtoNodeInput::Empty => true,
            _ => false,
        };
        let k = match self.find_impls(&node.identifier.name) {
            Some(k) => k,
            None => { return Err(single_error(node, GraphErrorType::NoImplementations)); },
        };
        match find_fn_to_generic(&inputs) {
            Some(index) => {
                let ghost iv = type_views(inputs@);
                let e = GraphErrorType::UnexpectedGenerics { index, inputs };
                assert(e@ == GraphErrorTypeView::UnexpectedGenerics { index, inputs: iv });
                return Err(single_error(node, e));
            },
            None => {},
        }
        let (valid, cands) = select_candidates(&self.lookup[k].1, &primary, &inputs);
        let mut given: Vec<Type> = Vec::new();
        given.push(primary.clone());
        let mut j: usize = 0;
        while j < inputs.len()
            invariant
                j <= inputs.len(),
                given.len() == j + 1,
                given@[0]@ == primary@,
                forall|q: int| 0 <= q < j ==> (#[trigger] given@[q + 1])@ == inputs@[q]@,
            decreases inputs.len() - j,
        {
            given.push(inputs[j].clone());
            j = j + 1;
        }
        proof {
            assert forall|q: int| 0 <= q < given.len() implies #[trigger] type_views(given@)[q] == (seq![primary@]
                + type_views(inputs@))[q] by {
                if q > 0 {
                    assert(given@[(q - 1) + 1]@ == inputs@[q - 1]@);
                }
            }
            assert(type_views(given@) =~= seq![primary@] + type_views(inputs@));
            assert(type_views(given@)[0] == primary@);
            assert(type_views(given@).drop_first() =~= type_views(inputs@));
        }
        if cands.len() == 0 {
            let lists = fewest_mismatch_lists(&self.lookup[k].1, &given, &node.original_location, manual);
            let text = numbered_inputs(&given, manual);
            let e = GraphErrorType::InvalidImplementations { inputs: text, error_inputs: lists };
            return Err(single_error(node, e));
        }
        if cands.len() == 1 {
            return Ok(self.record(node_id, &cands[0].0, cands[0].1));
        }
        if cands.len() == 2 && !crate::typecheck::types_equal(&cands[0].0.call_argument, &cands[1].0.call_argument) {
            let unit = Type::concrete("()");
            proof {
                assert(impls_view(cands@)[0] == (cands@[0].0@, cands@[0].1));
                assert(impls_view(cands@)[1] == (cands@[1].0@, cands@[1].1));
            }
            if crate::typecheck::types_equal(&cands[0].0.call_argument, &unit) {
                return Ok(self.record(node_id, &cands[0].0, cands[0].1));
            }
            if crate::typecheck::types_equal(&cands[1].0.call_argument, &unit) {
                return Ok(self.record(node_id, &cands[1].0, cands[1].1));
            }
        }
        let text = comma_inputs(&given);
        let e = GraphErrorType::MultipleImplementations { inputs: text, valid };
        Err(single_error(node, e))
    }

    /// Infers the signatures of the nodes of a network in order, stopping at
    /// the first error.
    pub fn update(&mut self, network: &crate::proto::ProtoNetwork) -> (r: Result<(), Vec<GraphError>>)
        requires
            updatable(old(self)@, network@.nodes),
        ensures
            final(self)@ == update_outcome(old(self)@, network@.nodes).1,
            match update_outcome(old(self)@, network@.nodes).0 {
                Ok(_) => r is Ok,
                Err(e) => r matches Err(errs) && errs@.len() == 1 && errs@[0]@ == e,
            },
            context_well_formed(old(self)@) ==> context_well_formed(final(self)@),
    {
        proof {
            lemma_update_keeps_well_formed(self@, network@.nodes);
        }
        let ghost nv = network@.nodes;
        let ghost ctx0 = self@;
        let mut i: usize = 0;
        assert(nv.take(0) =~= Seq::<(NodeId, ProtoNodeView)>::empty());
        while i < network.nodes.len()
            invariant
                i <= network.nodes.len(),
                nv == network@.nodes,
                ctx0 == old(self)@,
                context_well_formed(ctx0) ==> context_well_formed(update_outcome(ctx0, nv).1),
                updatable(ctx0, nv),
                update_outcome(ctx0, nv.take(i as int)) == (Ok::<(), GraphErrorView>(()), self@),
            decreases network.nodes.len() - i,
        {
            let id = network.nodes[i].0;
            proof {
                assert(nv.take(i + 1).drop_last() =~= nv.take(i as int));
                assert(nv[i as int] == crate::proto::entry_view(network.nodes@[i as int]));
                assert(nv.take(i + 1).last() == nv[i as int]);
                lemma_updatable_prefix(ctx0, nv, i as int);
            }
            let ghost pre = self@;
            match self.infer(id, &network.nodes[i].1) {
                Ok(_) => {},
                Err(e) => {
                    proof {
                        let out = infer_outcome(pre, nv[i as int].0, nv[i as int].1);
                        assert(out.0 is Err);
                        assert(update_outcome(ctx0, nv.take(i + 1)) == (
                            Err::<(), GraphErrorView>(error_about(nv[i as int].1, out.0->Err_0)),
                            self@,
                        ));
                        lemma_update_err_prefix(ctx0, nv, i + 1);
                    }
                    return Err(e);
                },
            }
            i = i + 1;
        }
        assert(nv.take(network.nodes.len() as int) =~= nv);
        Ok(())
    }
}

/// Inferring the nodes one by one: stops at the first error.
pub open spec fn update_outcome(ctx: TypingContextView, nodes: Seq<(NodeId, ProtoNodeView)>) -> (
    Result<(), GraphErrorView>,
    TypingContextView,
)
    decreases nodes.len(),
{
    if nodes.len() == 0 {
        (Ok(()), ctx)
    } else {
        let (r, c) = update_outcome(ctx, nodes.drop_last());
        match r {
            Err(e) => (Err(e), c),
            Ok(_) => {
                let (r2, c2) = infer_outcome(c, nodes.last().0, nodes.last().1);
                match r2 {
                    Ok(_) => (Ok(()), c2),
                    Err(e) => (Err(error_about(nodes.last().1, e)), c2),
                }
            },
        }
    }
}

/// Each node fed with a value is called with nothing or with the context, when its turn comes.
pub open spec fn updatable(ctx: TypingContextView, nodes: Seq<(NodeId, ProtoNodeView)>) -> bool {
    forall|i: int|
        0 <= i < nodes.len() && #[trigger] update_outcome(ctx, nodes.take(i)).0 is Ok ==> value_input_ok(
            update_outcome(ctx, nodes.take(i)).1,
            nodes[i].0,
            nodes[i].1,
        )
}

proof fn lemma_updatable_prefix(ctx: TypingContextView, nodes: Seq<(NodeId, ProtoNodeView)>, i: int)
    requires
        updatable(ctx, nodes),
        0 <= i < nodes.len(),
        update_outcome(ctx, nodes.take(i)).0 is Ok,
    ensures
        value_input_ok(update_outcome(ctx, nodes.take(i)).1, nodes[i].0, nodes[i].1),
{
}

proof fn lemma_update_err_prefix(ctx: TypingContextView, nodes: Seq<(NodeId, ProtoNodeView)>, k: int)
    requires
        0 <= k <= nodes.len(),
        update_outcome(ctx, nodes.take(k)).0 is Err,
    ensures
        update_outcome(ctx, nodes) == update_outcome(ctx, nodes.take(k)),
    decreases nodes.len() - k,
{
    if k < nodes.len() {
        assert(nodes.take(k + 1).drop_last() =~= nodes.take(k));
        lemma_update_err_prefix(ctx, nodes, k + 1);
    } else {
        assert(nodes.take(k) =~= nodes);
    }
}

/// Inference keeps a context well formed: a constructor is recorded only
/// together with a type.
pub proof fn lemma_infer_keeps_well_formed(ctx: TypingContextView, id: NodeId, node: ProtoNodeView)
    ensures
        context_well_formed(ctx) ==> context_well_formed(infer_outcome(ctx, id, node).1),
{
    let after = infer_outcome(ctx, id, node).1;
    if context_well_formed(ctx) {
        assert(after.lookup == ctx.lookup);
        assert forall|k: u64| #[trigger] after.constructor.contains_key(k) implies after.inferred.contains_key(k) by {
            if !ctx.constructor.contains_key(k) {
                assert(k == id.0);
            }
        }
    }
}

/// Inferring the nodes of a network one by one keeps a context well formed.
pub proof fn lemma_update_keeps_well_formed(ctx: TypingContextView, nodes: Seq<(NodeId, ProtoNodeView)>)
    ensures
        context_well_formed(ctx) ==> context_well_formed(update_outcome(ctx, nodes).1),
    decreases nodes.len(),
{
    if nodes.len() > 0 {
        lemma_update_keeps_well_formed(ctx, nodes.drop_last());
        let c = update_outcome(ctx, nodes.drop_last()).1;
        lemma_infer_keeps_well_formed(c, nodes.last().0, nodes.last().1);
    }
}

} // verus!

//! The values a proto network is built from: node ids, types, node signatures,
//! constant values, node identifiers and the bookkeeping of where a node came from.

use vstd::prelude::*;

verus! {

/// Identifier of a node inside a network.
#[derive(Clone, Copy, Debug, PartialEq, Eq, Structural, Hash, PartialOrd, Ord, Default)]
pub struct NodeId(pub u64);

/// The type of a value flowing along an edge of the graph.
#[derive(Debug, PartialEq, Eq, Hash)]
pub enum Type {
    /// A type variable, identified by its name.
    Generic(String),
    /// A concrete type, identified by its name.
    Concrete(String),
    /// A function from the first type to the second.
    Fn(Box<Type>, Box<Type>),
    /// A value of the inner type that becomes available later.
    Future(Box<Type>),
}

impl Clone for Type {
    fn clone(&self) -> (r: Self)
        ensures
            r == *self,
        decreases self,
    {
        match self {
            Type::Generic(name) => Type::Generic(name.clone()),
            Type::Concrete(name) => Type::Concrete(name.clone()),
            Type::Fn(input, output) => Type::Fn(
                Box::new((**input).clone()),
                Box::new((**output).clone()),
            ),
            Type::Future(inner) => Type::Future(Box::new((**inner).clone())),
        }
    }
}

/// The mathematical model of a `Type`: names become sequences of characters.
pub enum TypeView {
    Generic(Seq<char>),
    Concrete(Seq<char>),
    Fn(Box<TypeView>, Box<TypeView>),
    Future(Box<TypeView>),
}

pub open spec fn type_view(t: Type) -> TypeView
    decreases t,
{
    match t {
        Type::Generic(name) => TypeView::Generic(name@),
        Type::Concrete(name) => TypeView::Concrete(name@),
        Type::Fn(input, output) => TypeView::Fn(Box::new(type_view(*input)), Box::new(type_view(*output))),
        Type::Future(inner) => TypeView::Future(Box::new(type_view(*inner))),
    }
}

impl View for Type {
    type V = TypeView;

    open spec fn view(&self) -> TypeView {
        type_view(*self)
    }
}

/// The innermost output type: the type itself for generic and concrete types,
/// the nested output type of a function or a future.
pub open spec fn nested_type_of(t: TypeView) -> TypeView
    decreases t,
{
    match t {
        TypeView::Fn(_, output) => nested_type_of(*output),
        TypeView::Future(inner) => nested_type_of(*inner),
        _ => t,
    }
}

impl Type {
    /// A concrete type with the given name.
    pub fn concrete(name: &str) -> (r: Type)
        ensures
            r@ == TypeView::Concrete(name@),
    {
        Type::Concrete(name.to_string())
    }

    /// The innermost output type (see `nested_type_of`).
    pub fn nested_type(&self) -> (r: &Type)
        ensures
            r@ == nested_type_of(self@),
        decreases self,
    {
        match self {
            Type::Fn(_, output) => output.nested_type(),
            Type::Future(inner) => inner.nested_type(),
            _ => self,
        }
    }

    /// The input type of a function type.
    pub fn fn_input(&self) -> (r: Option<&Type>)
        ensures
            match self@ {
                TypeView::Fn(input, _) => r matches Some(t) && t@ == *input,
                _ => r is None,
            },
    {
        match self {
            Type::Fn(input, _) => Some(&**input),
            _ => None,
        }
    }

    /// The output type of a function type.
    pub fn fn_output(&self) -> (r: Option<&Type>)
        ensures
            match self@ {
                TypeView::Fn(_, output) => r matches Some(t) && t@ == *output,
                _ => r is None,
            },
    {
        match self {
            Type::Fn(_, output) => Some(&**output),
            _ => None,
        }
    }
}

/// The name under which the registry knows the implementation of a node.
#[derive(Debug, PartialEq, Eq, Hash)]
pub struct ProtoNodeIdentifier {
    pub name: String,
}

impl Clone for ProtoNodeIdentifier {
    fn clone(&self) -> (r: Self)
        ensures
            r == *self,
    {
        ProtoNodeIdentifier { name: self.name.clone() }
    }
}

impl ProtoNodeIdentifier {
    pub fn new(name: &str) -> (r: Self)
        ensures
            r.name@ == name@,
    {
        ProtoNodeIdentifier { name: name.to_string() }
    }
}

/// A constant value stored in a node.
#[derive(Debug, PartialEq, Eq, Hash)]
pub enum TaggedValue {
    Unit,
    Bool(bool),
    U32(u32),
    U64(u64),
    String(String),
}

/// The mathematical model of a `TaggedValue`.
pub enum TaggedValueView {
    Unit,
    Bool(bool),
    U32(u32),
    U64(u64),
    String(Seq<char>),
}

impl View for TaggedValue {
    type V = TaggedValueView;

    open spec fn view(&self) -> TaggedValueView {
        match self {
            TaggedValue::Unit => TaggedValueView::Unit,
            TaggedValue::Bool(b) => TaggedValueView::Bool(*b),
            TaggedValue::U32(x) => TaggedValueView::U32(*x),
            TaggedValue::U64(x) => TaggedValueView::U64(*x),
            TaggedValue::String(s) => TaggedValueView::String(s@),
        }
    }
}

impl Clone for TaggedValue {
    fn clone(&self) -> (r: Self)
        ensures
            r == *self,
    {
        match self {
            TaggedValue::Unit => TaggedValue::Unit,
            TaggedValue::Bool(b) => TaggedValue::Bool(*b),
            TaggedValue::U32(x) => TaggedValue::U32(*x),
            TaggedValue::U64(x) => TaggedValue::U64(*x),
            TaggedValue::String(s) => TaggedValue::String(s.clone()),
        }
    }
}

/// The text of a value as a literal: `()`, `true`/`false`, a number with its
/// type as suffix, or a string in double quotes.
pub open spec fn primitive_text(v: TaggedValueView) -> Seq<char> {
    match v {
        TaggedValueView::Unit => "()"@,
        TaggedValueView::Bool(b) => if b { "true"@ } else { "false"@ },
        TaggedValueView::U32(x) => crate::text::decimal_text(x as nat) + "_u32"@,
        TaggedValueView::U64(x) => crate::text::decimal_text(x as nat) + "_u64"@,
        TaggedValueView::String(s) => "\""@ + s + "\""@,
    }
}

impl TaggedValue {
    /// The value written as a literal (see `primitive_text`).
    pub fn to_primitive_string(&self) -> (r: String)
        ensures
            r@ == primitive_text(self@),
    {
        let mut out = String::new();
        match self {
            TaggedValue::Unit => {
                out.append("()");
            },
            TaggedValue::Bool(b) => {
                if *b {
                    out.append("true");
                } else {
                    out.append("false");
                }
            },
            TaggedValue::U32(x) => {
                crate::text::push_digits(&mut out, *x as u64, 10);
                out.append("_u32");
            },
            TaggedValue::U64(x) => {
                crate::text::push_digits(&mut out, *x, 10);
                out.append("_u64");
            },
            TaggedValue::String(s) => {
                out.append("\"");
                out.append(s.as_str());
                out.append("\"");
            },
        }
        proof {
            reveal_strlit("()");
            reveal_strlit("true");
            reveal_strlit("false");
            reveal_strlit("_u32");
            reveal_strlit("_u64");
            reveal_strlit("\"");
            assert(out@ =~= primitive_text(self@));
        }
        out
    }
}

/// An expression that stands in for a node, with its type.
#[derive(Debug, PartialEq, Eq, Hash)]
pub struct InlineRust {
    pub expr: String,
    pub ty: Type,
}

/// The mathematical model of an `InlineRust`.
pub struct InlineRustView {
    pub expr: Seq<char>,
    pub ty: TypeView,
}

impl View for InlineRust {
    type V = InlineRustView;

    open spec fn view(&self) -> InlineRustView {
        InlineRustView { expr: self.expr@, ty: self.ty@ }
    }
}

impl Clone for InlineRust {
    fn clone(&self) -> (r: Self)
        ensures
            r == *self,
    {
        InlineRust { expr: self.expr.clone(), ty: self.ty.clone() }
    }
}

/// Where a proto node came from in the document graph.
#[derive(Debug, PartialEq, Eq, Hash)]
pub struct OriginalLocation {
    /// The path of document node ids that led to this node.
    pub path: Option<Vec<NodeId>>,
    /// For each input, whether it is exposed in the document graph.
    pub inputs_exposed: Vec<bool>,
    /// The number of leading inputs that have no counterpart in the document node.
    pub skip_inputs: usize,
}

/// The mathematical model of an `OriginalLocation`.
pub struct OriginalLocationView {
    pub path: Option<Seq<NodeId>>,
    pub inputs_exposed: Seq<bool>,
    pub skip_inputs: usize,
}

impl View for OriginalLocation {
    type V = OriginalLocationView;

    open spec fn view(&self) -> OriginalLocationView {
        OriginalLocationView {
            path: match self.path {
                Some(p) => Some(p@),
                None => None,
            },
            inputs_exposed: self.inputs_exposed@,
            skip_inputs: self.skip_inputs,
        }
    }
}

/// Clones a list of node ids.
pub fn clone_ids(ids: &Vec<NodeId>) -> (r: Vec<NodeId>)
    ensures
        r@ == ids@,
{
    let mut r: Vec<NodeId> = Vec::new();
    let mut i: usize = 0;
    while i < ids.len()
        invariant
            i <= ids.len(),
            r@ == ids@.take(i as int),
        decreases ids.len() - i,
    {
        r.push(ids[i]);
        i = i + 1;
        assert(r@ =~= ids@.take(i as int));
    }
    assert(ids@.take(ids.len() as int) =~= ids@);
    r
}

/// Clones a list of flags.
pub fn clone_flags(flags: &Vec<bool>) -> (r: Vec<bool>)
    ensures
        r@ == flags@,
{
    let mut r: Vec<bool> = Vec::new();
    let mut i: usize = 0;
    while i < flags.len()
        invariant
            i <= flags.len(),
            r@ == flags@.take(i as int),
        decreases flags.len() - i,
    {
        r.push(flags[i]);
        i = i + 1;
        assert(r@ =~= flags@.take(i as int));
    }
    assert(flags@.take(flags.len() as int) =~= flags@);
    r
}

impl Clone for OriginalLocation {
    fn clone(&self) -> (r: Self)
        ensures
            r@ == self@,
    {
        let path = match &self.path {
            Some(p) => Some(clone_ids(p)),
            None => None,
        };
        OriginalLocation {
            path,
            inputs_exposed: clone_flags(&self.inputs_exposed),
            skip_inputs: self.skip_inputs,
        }
    }
}

impl Default for OriginalLocation {
    fn default() -> (r: Self)
        ensures
            r@.path == None::<Seq<NodeId>>,
            r@.inputs_exposed == Seq::<bool>::empty(),
            r@.skip_inputs == 0,
    {
        OriginalLocation { path: None, inputs_exposed: Vec::new(), skip_inputs: 0 }
    }
}

/// The number of constructors in a type.
pub open spec fn type_size(t: TypeView) -> nat
    decreases t,
{
    match t {
        TypeView::Fn(input, output) => 1 + type_size(*input) + type_size(*output),
        TypeView::Future(inner) => 1 + type_size(*inner),
        _ => 1,
    }
}

/// A handle to the function that constructs a node implementation.
#[derive(Clone, Copy, Debug, PartialEq, Eq, Structural, Hash)]
pub struct NodeConstructor(pub u64);

/// The signature of a node implementation: the type it is called with, the
/// type it returns, and the types of its further inputs.
#[derive(Debug, PartialEq, Eq, Hash)]
pub struct NodeIOTypes {
    pub call_argument: Type,
    pub return_value: Type,
    pub inputs: Vec<Type>,
}

/// The mathematical model of a `NodeIOTypes`.
pub struct NodeIOTypesView {
    pub call_argument: TypeView,
    pub return_value: TypeView,
    pub inputs: Seq<TypeView>,
}

/// The models of a list of types.
pub open spec fn type_views(v: Seq<Type>) -> Seq<TypeView> {
    v.map_values(|t: Type| t@)
}

impl View for NodeIOTypes {
    type V = NodeIOTypesView;

    open spec fn view(&self) -> NodeIOTypesView {
        NodeIOTypesView {
            call_argument: self.call_argument@,
            return_value: self.return_value@,
            inputs: type_views(self.inputs@),
        }
    }
}

/// Clones a list of types.
pub fn clone_types(v: &Vec<Type>) -> (r: Vec<Type>)
    ensures
        type_views(r@) == type_views(v@),
        r@ == v@,
{
    let mut r: Vec<Type> = Vec::new();
    let mut i: usize = 0;
    while i < v.len()
        invariant
            i <= v.len(),
            r@ == v@.take(i as int),
        decreases v.len() - i,
    {
        r.push(v[i].clone());
        i = i + 1;
        assert(r@ =~= v@.take(i as int));
    }
    assert(v@.take(v.len() as int) =~= v@);
    r
}

impl Clone for NodeIOTypes {
    fn clone(&self) -> (r: Self)
        ensures
            r@ == self@,
    {
        NodeIOTypes {
            call_argument: self.call_argument.clone(),
            return_value: self.return_value.clone(),
            inputs: clone_types(&self.inputs),
        }
    }
}

/// The type of a node as a function: from its call argument to its return value.
pub open spec fn io_type(io: NodeIOTypesView) -> TypeView {
    TypeView::Fn(Box::new(io.call_argument), Box::new(io.return_value))
}

impl NodeIOTypes {
    pub fn new(call_argument: Type, return_value: Type, inputs: Vec<Type>) -> (r: Self)
        ensures
            r@.call_argument == call_argument@,
            r@.return_value == return_value@,
            r@.inputs == type_views(inputs@),
    {
        NodeIOTypes { call_argument, return_value, inputs }
    }

    /// The type of the node as a function (see `io_type`).
    pub fn ty(&self) -> (r: Type)
        ensures
            r@ == io_type(self@),
    {
        Type::Fn(Box::new(self.call_argument.clone()), Box::new(self.return_value.clone()))
    }
}

} // verus!

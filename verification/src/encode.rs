//! What the stable id of a node is hashed from: the writes to the hasher that
//! hashing its content field by field makes, as the `Hash` implementations of
//! the field types make them.
//!
//! A string writes its UTF-8 bytes and then the byte `0xff`; an enum writes the
//! number of its variant as an `isize`, then its fields; a list writes its
//! length as a `usize`, then its items; a pair writes its two parts; a flag
//! writes one byte; an id writes its `u64`.

use vstd::prelude::*;

use vstd::utf8::encode_utf8;

use crate::proto::{ConstructionArgs, ConstructionArgsView, ProtoNode, ProtoNodeInput, ProtoNodeInputView, ProtoNodeView};
use crate::types::{NodeId, TaggedValue, TaggedValueView, Type, TypeView};

verus! {

/// One write to a hasher.
pub enum HashWrite {
    Bytes(Vec<u8>),
    U8(u8),
    U32(u32),
    U64(u64),
    Usize(usize),
    Isize(isize),
}

/// The mathematical model of a `HashWrite`.
pub enum HashWriteView {
    Bytes(Seq<u8>),
    U8(u8),
    U32(u32),
    U64(u64),
    Usize(usize),
    Isize(isize),
}

impl View for HashWrite {
    type V = HashWriteView;

    open spec fn view(&self) -> HashWriteView {
        match self {
            HashWrite::Bytes(b) => HashWriteView::Bytes(b@),
            HashWrite::U8(x) => HashWriteView::U8(*x),
            HashWrite::U32(x) => HashWriteView::U32(*x),
            HashWrite::U64(x) => HashWriteView::U64(*x),
            HashWrite::Usize(x) => HashWriteView::Usize(*x),
            HashWrite::Isize(x) => HashWriteView::Isize(*x),
        }
    }
}

/// The models of a list of writes.
pub open spec fn writes_view(v: Seq<HashWrite>) -> Seq<HashWriteView> {
    v.map_values(|w: HashWrite| w@)
}

/// A flag as a byte.
pub open spec fn bool_byte(b: bool) -> u8 {
    if b { 1 } else { 0 }
}

/// A string: its UTF-8 bytes, then the byte `0xff`.
pub open spec fn text_writes(s: Seq<char>) -> Seq<HashWriteView> {
    seq![HashWriteView::Bytes(encode_utf8(s)), HashWriteView::U8(0xff)]
}

/// A type: the number of its kind, then its parts.
pub open spec fn type_writes(t: TypeView) -> Seq<HashWriteView>
    decreases t,
{
    match t {
        TypeView::Generic(name) => seq![HashWriteView::Isize(0)] + text_writes(name),
        TypeView::Concrete(name) => seq![HashWriteView::Isize(1)] + text_writes(name),
        TypeView::Fn(input, output) => seq![HashWriteView::Isize(2)] + type_writes(*input) + type_writes(*output),
        TypeView::Future(inner) => seq![HashWriteView::Isize(3)] + type_writes(*inner),
    }
}

/// A constant value: the number of its kind, then its content.
pub open spec fn value_writes(v: TaggedValueView) -> Seq<HashWriteView> {
    match v {
        TaggedValueView::Unit => seq![HashWriteView::Isize(0)],
        TaggedValueView::Bool(b) => seq![HashWriteView::Isize(1), HashWriteView::U8(bool_byte(b))],
        TaggedValueView::U32(x) => seq![HashWriteView::Isize(2), HashWriteView::U32(x)],
        TaggedValueView::U64(x) => seq![HashWriteView::Isize(3), HashWriteView::U64(x)],
        TaggedValueView::String(s) => seq![HashWriteView::Isize(4)] + text_writes(s),
    }
}

/// Each (id, lambda flag) pair of a list: the id, then the flag.
pub open spec fn pair_list_writes(v: Seq<(NodeId, bool)>) -> Seq<HashWriteView>
    decreases v.len(),
{
    if v.len() == 0 {
        Seq::empty()
    } else {
        pair_list_writes(v.drop_last()) + seq![HashWriteView::U64(v.last().0.0), HashWriteView::U8(bool_byte(v.last().1))]
    }
}

/// Each id of a list.
pub open spec fn id_list_writes(v: Seq<NodeId>) -> Seq<HashWriteView>
    decreases v.len(),
{
    if v.len() == 0 {
        Seq::empty()
    } else {
        id_list_writes(v.drop_last()) + seq![HashWriteView::U64(v.last().0)]
    }
}

/// Construction arguments: the number of their kind, then their content; the
/// pairs of a list of nodes are written one after the other, without the length.
pub open spec fn args_writes(a: ConstructionArgsView) -> Seq<HashWriteView> {
    match a {
        ConstructionArgsView::Value(v) => seq![HashWriteView::Isize(0)] + value_writes(v),
        ConstructionArgsView::Nodes(v) => seq![HashWriteView::Isize(1)] + pair_list_writes(v),
        ConstructionArgsView::Inline(i) => seq![HashWriteView::Isize(2)] + text_writes(i.expr) + type_writes(i.ty),
    }
}

/// An optional path of ids: the number of its kind, then the length and the ids.
pub open spec fn path_writes(p: Option<Seq<NodeId>>) -> Seq<HashWriteView> {
    match p {
        Some(ids) => seq![HashWriteView::Isize(1), HashWriteView::Usize(ids.len() as usize)] + id_list_writes(ids),
        None => seq![HashWriteView::Isize(0)],
    }
}

/// The input of a node: the number of its kind, then the type of a manual
/// composition, or the id of the node with the lambda flag.
pub open spec fn input_writes(i: ProtoNodeInputView) -> Seq<HashWriteView> {
    match i {
        ProtoNodeInputView::Empty => seq![HashWriteView::Isize(0)],
        ProtoNodeInputView::ManualComposition(t) => seq![HashWriteView::Isize(1)] + type_writes(t),
        ProtoNodeInputView::Node(id) => seq![HashWriteView::Isize(2), HashWriteView::U64(id.0), HashWriteView::U8(0)],
        ProtoNodeInputView::NodeLambda(id) => seq![
            HashWriteView::Isize(3),
            HashWriteView::U64(id.0),
            HashWriteView::U8(1),
        ],
    }
}

/// What the stable id of a node is hashed from: its identifier, its
/// construction arguments, its path when it must not be deduplicated, and its
/// input.
pub open spec fn node_writes(n: ProtoNodeView) -> Seq<HashWriteView> {
    text_writes(n.identifier) + args_writes(n.construction_args) + (if n.skip_deduplication {
        path_writes(n.original_location.path)
    } else {
        Seq::empty()
    }) + input_writes(n.input)
}

/// What the stable id of a node is hashed from tells apart nodes that differ
/// only in the node they are fed from: when one of them takes its input from a
/// node (plainly or as a lambda), a different input gives different writes.
pub proof fn lemma_node_writes_tell_inputs_apart(n: ProtoNodeView, other: ProtoNodeInputView)
    requires
        n.input is Node || n.input is NodeLambda,
        other != n.input,
    ensures
        node_writes(n) != node_writes(ProtoNodeView { input: other, ..n }),
{
    let m = ProtoNodeView { input: other, ..n };
    let p = text_writes(n.identifier) + args_writes(n.construction_args) + (if n.skip_deduplication {
        path_writes(n.original_location.path)
    } else {
        Seq::empty()
    });
    let x = input_writes(n.input);
    let y = input_writes(other);
    assert(node_writes(n) == p + x);
    assert(node_writes(m) == p + y);
    if node_writes(n) == node_writes(m) {
        assert((p + x)[p.len() as int] == x[0]);
        assert((p + y)[p.len() as int] == y[0]);
        assert(x[0] == y[0]);
        assert((p + x)[p.len() as int + 1] == x[1]);
        assert((p + y)[p.len() as int + 1] == y[1]);
        assert(x[1] == y[1]);
    }
}

/// The writes of a list of (id, lambda flag) pairs: two per pair, the id then the flag.
pub proof fn lemma_pair_list_writes_shape(v: Seq<(NodeId, bool)>)
    ensures
        pair_list_writes(v).len() == 2 * v.len(),
        forall|j: int| 0 <= j < v.len() ==> #[trigger] pair_list_writes(v)[2 * j] == HashWriteView::U64(v[j].0.0)
            && pair_list_writes(v)[2 * j + 1] == HashWriteView::U8(bool_byte(v[j].1)),
    decreases v.len(),
{
    if v.len() > 0 {
        let d = v.drop_last();
        lemma_pair_list_writes_shape(d);
        let tail = seq![HashWriteView::U64(v.last().0.0), HashWriteView::U8(bool_byte(v.last().1))];
        assert(pair_list_writes(v) == pair_list_writes(d) + tail);
        assert forall|j: int| 0 <= j < v.len() implies #[trigger] pair_list_writes(v)[2 * j] == HashWriteView::U64(
            v[j].0.0,
        ) && pair_list_writes(v)[2 * j + 1] == HashWriteView::U8(bool_byte(v[j].1)) by {
            if j < d.len() {
                assert(pair_list_writes(d)[2 * j] == HashWriteView::U64(d[j].0.0));
                assert(v[j] == d[j]);
            } else {
                assert(j == d.len());
            }
        }
    }
}

/// What the stable id of a node is hashed from tells apart nodes that differ
/// only in the nodes they are built from: every argument id and lambda flag
/// is written.
pub proof fn lemma_node_writes_tell_arguments_apart(n: ProtoNodeView, v: Seq<(NodeId, bool)>)
    requires
        n.construction_args is Nodes,
        n.construction_args->Nodes_0 != v,
    ensures
        node_writes(n) != node_writes(ProtoNodeView { construction_args: ConstructionArgsView::Nodes(v), ..n }),
{
    let u = n.construction_args->Nodes_0;
    let m = ProtoNodeView { construction_args: ConstructionArgsView::Nodes(v), ..n };
    let a = text_writes(n.identifier);
    let c = (if n.skip_deduplication {
        path_writes(n.original_location.path)
    } else {
        Seq::empty()
    }) + input_writes(n.input);
    let b1 = args_writes(n.construction_args);
    let b2 = args_writes(m.construction_args);
    assert(node_writes(n) =~= a + b1 + c);
    assert(node_writes(m) =~= a + b2 + c);
    lemma_pair_list_writes_shape(u);
    lemma_pair_list_writes_shape(v);
    if node_writes(n) == node_writes(m) {
        if u.len() == v.len() {
            let j = choose|j: int| 0 <= j < u.len() && u[j] != v[j];
            if !(0 <= j < u.len() && u[j] != v[j]) {
                assert(u =~= v);
            }
            let p0 = a.len() + 1 + 2 * j;
            assert((a + b1 + c)[p0] == b1[1 + 2 * j]);
            assert((a + b2 + c)[p0] == b2[1 + 2 * j]);
            assert(b1[1 + 2 * j] == pair_list_writes(u)[2 * j]);
            assert(b2[1 + 2 * j] == pair_list_writes(v)[2 * j]);
            assert((a + b1 + c)[p0 + 1] == b1[2 + 2 * j]);
            assert((a + b2 + c)[p0 + 1] == b2[2 + 2 * j]);
            assert(b1[2 + 2 * j] == pair_list_writes(u)[2 * j + 1]);
            assert(b2[2 + 2 * j] == pair_list_writes(v)[2 * j + 1]);
            assert(u[j].0.0 == v[j].0.0);
            assert(bool_byte(u[j].1) == bool_byte(v[j].1));
            assert(u[j] == v[j]);
        } else {
            assert((a + b1 + c).len() != (a + b2 + c).len());
        }
    }
}

/// Appends a write.
fn push_write(out: &mut Vec<HashWrite>, w: HashWrite)
    ensures
        writes_view(final(out)@) == writes_view(old(out)@).push(w@),
{
    let ghost wv = w@;
    out.push(w);
    assert(writes_view(out@) =~= writes_view(old(out)@).push(wv));
}

/// Appends the writes of a string (see `text_writes`).
fn push_text(out: &mut Vec<HashWrite>, s: &str)
    ensures
        writes_view(final(out)@) == writes_view(old(out)@) + text_writes(s@),
{
    let bytes = s.as_bytes();
    let mut copy: Vec<u8> = Vec::new();
    let mut i: usize = 0;
    while i < bytes.len()
        invariant
            i <= bytes.len(),
            copy@ == bytes@.take(i as int),
        decreases bytes.len() - i,
    {
        copy.push(bytes[i]);
        i = i + 1;
        assert(copy@ =~= bytes@.take(i as int));
    }
    assert(copy@ =~= encode_utf8(s@));
    let ghost start = writes_view(out@);
    push_write(out, HashWrite::Bytes(copy));
    push_write(out, HashWrite::U8(0xff));
    assert(writes_view(out@) =~= start + text_writes(s@));
}

/// Appends the writes of a type (see `type_writes`).
fn push_type(out: &mut Vec<HashWrite>, t: &Type)
    ensures
        writes_view(final(out)@) == writes_view(old(out)@) + type_writes(t@),
    decreases t,
{
    let ghost start = writes_view(out@);
    match t {
        Type::Generic(n) => {
            push_write(out, HashWrite::Isize(0));
            push_text(out, n.as_str());
        },
        Type::Concrete(n) => {
            push_write(out, HashWrite::Isize(1));
            push_text(out, n.as_str());
        },
        Type::Fn(input, output) => {
            push_write(out, HashWrite::Isize(2));
            push_type(out, &**input);
            push_type(out, &**output);
        },
        Type::Future(inner) => {
            push_write(out, HashWrite::Isize(3));
            push_type(out, &**inner);
        },
    }
    assert(writes_view(out@) =~= start + type_writes(t@));
}

/// Appends the writes of a constant value (see `value_writes`).
fn push_value(out: &mut Vec<HashWrite>, v: &TaggedValue)
    ensures
        writes_view(final(out)@) == writes_view(old(out)@) + value_writes(v@),
{
    let ghost start = writes_view(out@);
    match v {
        TaggedValue::Unit => {
            push_write(out, HashWrite::Isize(0));
        },
        TaggedValue::Bool(b) => {
            push_write(out, HashWrite::Isize(1));
            push_write(out, HashWrite::U8(if *b { 1 } else { 0 }));
        },
        TaggedValue::U32(x) => {
            push_write(out, HashWrite::Isize(2));
            push_write(out, HashWrite::U32(*x));
        },
        TaggedValue::U64(x) => {
            push_write(out, HashWrite::Isize(3));
            push_write(out, HashWrite::U64(*x));
        },
        TaggedValue::String(s) => {
            push_write(out, HashWrite::Isize(4));
            push_text(out, s.as_str());
        },
    }
    assert(writes_view(out@) =~= start + value_writes(v@));
}

/// Appends the writes of construction arguments (see `args_writes`).
fn push_args(out: &mut Vec<HashWrite>, a: &ConstructionArgs)
    ensures
        writes_view(final(out)@) == writes_view(old(out)@) + args_writes(a@),
{
    let ghost start = writes_view(out@);
    match a {
        ConstructionArgs::Value(v) => {
            push_write(out, HashWrite::Isize(0));
            push_value(out, v);
        },
        ConstructionArgs::Nodes(v) => {
            push_write(out, HashWrite::Isize(1));
            let ghost mid = writes_view(out@);
            let mut i: usize = 0;
            assert(mid + pair_list_writes(v@.take(0)) =~= mid);
            while i < v.len()
                invariant
                    i <= v.len(),
                    writes_view(out@) == mid + pair_list_writes(v@.take(i as int)),
                decreases v.len() - i,
            {
                let (id, lambda) = v[i];
                push_write(out, HashWrite::U64(id.0));
                push_write(out, HashWrite::U8(if lambda { 1 } else { 0 }));
                proof {
                    assert(v@.take(i + 1).drop_last() =~= v@.take(i as int));
                }
                i = i + 1;
                assert(writes_view(out@) =~= mid + pair_list_writes(v@.take(i as int)));
            }
            assert(v@.take(v.len() as int) =~= v@);
        },
        ConstructionArgs::Inline(inline) => {
            push_write(out, HashWrite::Isize(2));
            push_text(out, inline.expr.as_str());
            push_type(out, &inline.ty);
        },
    }
    assert(writes_view(out@) =~= start + args_writes(a@));
}

/// Appends the writes of an optional path (see `path_writes`).
fn push_path(out: &mut Vec<HashWrite>, p: &Option<Vec<NodeId>>)
    ensures
        writes_view(final(out)@) == writes_view(old(out)@) + path_writes(match p {
            Some(v) => Some(v@),
            None => None,
        }),
{
    let ghost start = writes_view(out@);
    match p {
        Some(v) => {
            push_write(out, HashWrite::Isize(1));
            push_write(out, HashWrite::Usize(v.len()));
            let ghost mid = writes_view(out@);
            let mut i: usize = 0;
            assert(mid + id_list_writes(v@.take(0)) =~= mid);
            while i < v.len()
                invariant
                    i <= v.len(),
                    writes_view(out@) == mid + id_list_writes(v@.take(i as int)),
                decreases v.len() - i,
            {
                push_write(out, HashWrite::U64(v[i].0));
                proof {
                    assert(v@.take(i + 1).drop_last() =~= v@.take(i as int));
                }
                i = i + 1;
                assert(writes_view(out@) =~= mid + id_list_writes(v@.take(i as int)));
            }
            assert(v@.take(v.len() as int) =~= v@);
            assert(writes_view(out@) =~= start + path_writes(Some(v@)));
        },
        None => {
            push_write(out, HashWrite::Isize(0));
            assert(writes_view(out@) =~= start + path_writes(None));
        },
    }
}

/// Appends the writes of a node's input (see `input_writes`).
fn push_input(out: &mut Vec<HashWrite>, i: &ProtoNodeInput)
    ensures
        writes_view(final(out)@) == writes_view(old(out)@) + input_writes(i@),
{
    let ghost start = writes_view(out@);
    match i {
        ProtoNodeInput::Empty => {
            push_write(out, HashWrite::Isize(0));
        },
        ProtoNodeInput::ManualComposition(t) => {
            push_write(out, HashWrite::Isize(1));
            push_type(out, t);
        },
        ProtoNodeInput::Node(id) => {
            push_write(out, HashWrite::Isize(2));
            push_write(out, HashWrite::U64(id.0));
            push_write(out, HashWrite::U8(0));
        },
        ProtoNodeInput::NodeLambda(id) => {
            push_write(out, HashWrite::Isize(3));
            push_write(out, HashWrite::U64(id.0));
            push_write(out, HashWrite::U8(1));
        },
    }
    assert(writes_view(out@) =~= start + input_writes(i@));
}

impl ProtoNode {
    /// The writes that the stable id of the node is hashed from (see `node_writes`).
    pub fn stable_hash_writes(&self) -> (r: Vec<HashWrite>)
        ensures
            writes_view(r@) == node_writes(self@),
    {
        let mut out: Vec<HashWrite> = Vec::new();
        assert(writes_view(out@) =~= Seq::<HashWriteView>::empty());
        push_text(&mut out, self.identifier.name.as_str());
        push_args(&mut out, &self.construction_args);
        if self.skip_deduplication {
            push_path(&mut out, &self.original_location.path);
        }
        push_input(&mut out, &self.input);
        assert(writes_view(out@) =~= node_writes(self@));
        out
    }
}

} // verus!

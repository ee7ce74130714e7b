//! Type rules: when a value may be passed to an input, and how the generic
//! types of a node signature are substituted by concrete ones.

use vstd::prelude::*;

use crate::types::{NodeIOTypes, NodeIOTypesView, Type, TypeView, nested_type_of, type_size, type_views};

verus! {

/// Texts joined by a separator.
pub open spec fn join_texts(items: Seq<Seq<char>>, sep: Seq<char>) -> Seq<char>
    decreases items.len(),
{
    if items.len() == 0 {
        Seq::empty()
    } else if items.len() == 1 {
        items[0]
    } else {
        join_texts(items.drop_last(), sep) + sep + items.last()
    }
}

/// The text of a type: names as they are, `input → output` for functions and
/// `Future<inner>` for futures.
pub open spec fn type_text(t: TypeView) -> Seq<char>
    decreases t,
{
    match t {
        TypeView::Generic(n) => n,
        TypeView::Concrete(n) => n,
        TypeView::Fn(input, output) => type_text(*input) + " → "@ + type_text(*output),
        TypeView::Future(inner) => "Future<"@ + type_text(*inner) + ">"@,
    }
}

/// The models of a list of strings.
pub open spec fn string_views(v: Seq<String>) -> Seq<Seq<char>> {
    v.map_values(|s: String| s@)
}

/// The texts of a list of types.
pub open spec fn type_texts(v: Seq<TypeView>) -> Seq<Seq<char>> {
    v.map_values(|t: TypeView| type_text(t))
}

/// The text of a list of types: `[a, b]`.
pub open spec fn type_list_text(v: Seq<TypeView>) -> Seq<char> {
    "["@ + join_texts(type_texts(v), ", "@) + "]"@
}

/// Appends the text of a type.
pub fn push_type_text(out: &mut String, t: &Type)
    ensures
        final(out)@ == old(out)@ + type_text(t@),
    decreases t,
{
    let ghost start = out@;
    match t {
        Type::Generic(n) => {
            out.append(n.as_str());
        },
        Type::Concrete(n) => {
            out.append(n.as_str());
        },
        Type::Fn(input, output) => {
            push_type_text(out, &**input);
            out.append(" → ");
            push_type_text(out, &**output);
            proof {
                reveal_strlit(" → ");
            }
        },
        Type::Future(inner) => {
            out.append("Future<");
            push_type_text(out, &**inner);
            out.append(">");
            proof {
                reveal_strlit("Future<");
                reveal_strlit(">");
            }
        },
    }
    assert(out@ =~= start + type_text(t@));
}

/// The text of a type.
pub fn type_to_string(t: &Type) -> (r: String)
    ensures
        r@ == type_text(t@),
{
    let mut out = String::new();
    push_type_text(&mut out, t);
    assert(out@ =~= type_text(t@));
    out
}

/// Appends texts joined by a separator.
pub fn push_joined(out: &mut String, items: &Vec<String>, sep: &str)
    ensures
        final(out)@ == old(out)@ + join_texts(string_views(items@), sep@),
{
    let ghost start = out@;
    let ghost texts = string_views(items@);
    let mut i: usize = 0;
    while i < items.len()
        invariant
            i <= items.len(),
            texts == string_views(items@),
            out@ == start + join_texts(texts.take(i as int), sep@),
        decreases items.len() - i,
    {
        if i > 0 {
            out.append(sep);
        }
        out.append(items[i].as_str());
        proof {
            let t = texts.take(i + 1);
            assert(t.drop_last() =~= texts.take(i as int));
            assert(t.last() == items@[i as int]@);
            if i == 0 {
                assert(join_texts(texts.take(0), sep@) =~= Seq::<char>::empty());
            }
        }
        i = i + 1;
        assert(out@ =~= start + join_texts(texts.take(i as int), sep@));
    }
    assert(texts.take(items.len() as int) =~= texts);
}

/// The text of a list of types (see `type_list_text`).
pub fn type_list_to_string(v: &Vec<Type>) -> (r: String)
    ensures
        r@ == type_list_text(type_views(v@)),
{
    let mut texts: Vec<String> = Vec::new();
    let mut i: usize = 0;
    while i < v.len()
        invariant
            i <= v.len(),
            texts.len() == i,
            string_views(texts@) == type_texts(type_views(v@).take(i as int)),
        decreases v.len() - i,
    {
        let ghost prev = texts@;
        let text = type_to_string(&v[i]);
        let ghost tview = text@;
        texts.push(text);
        proof {
            let tv = type_views(v@);
            assert forall|k: int| 0 <= k < i + 1 implies #[trigger] string_views(texts@)[k]
                == type_texts(tv.take(i + 1))[k] by {
                if k < i {
                    assert(string_views(prev)[k] == type_texts(tv.take(i as int))[k]);
                    assert(texts@[k] == prev[k]);
                } else {
                    assert(texts@[k]@ == tview);
                    assert(tv.take(i + 1)[k] == tv[k]);
                    assert(tv[k] == v@[k]@);
                }
            }
        }
        i = i + 1;
        assert(string_views(texts@) =~= type_texts(type_views(v@).take(i as int)));
    }
    assert(type_views(v@).take(v.len() as int) =~= type_views(v@));
    let mut out = String::new();
    out.append("[");
    push_joined(&mut out, &texts, ", ");
    out.append("]");
    proof {
        reveal_strlit("[");
        reveal_strlit("]");
        reveal_strlit(", ");
    }
    assert(out@ =~= type_list_text(type_views(v@)));
    out
}

/// Whether a value of type `from` may be given to an input of type `to`:
/// concrete types must be the same, futures are compared by their inner types,
/// functions are contravariant in their input and covariant in their output,
/// and a generic type on either side is accepted.
pub open spec fn valid_type(from: TypeView, to: TypeView) -> bool
    decreases type_size(from) + type_size(to),
{
    match (from, to) {
        (TypeView::Concrete(a), TypeView::Concrete(b)) => a == b,
        (TypeView::Future(a), TypeView::Future(b)) => valid_type(*a, *b),
        (TypeView::Fn(in1, out1), TypeView::Fn(in2, out2)) => valid_type(*out2, *out1) && valid_type(*in1, *in2),
        (TypeView::Generic(_), _) => true,
        (_, TypeView::Generic(_)) => true,
        _ => false,
    }
}

/// Whether a type mentions no generic parameter anywhere in it.
pub open spec fn generic_free(t: TypeView) -> bool
    decreases t,
{
    match t {
        TypeView::Generic(_) => false,
        TypeView::Concrete(_) => true,
        TypeView::Fn(input, output) => generic_free(*input) && generic_free(*output),
        TypeView::Future(inner) => generic_free(*inner),
    }
}

/// Without generic parameters, a value is accepted exactly where its type is
/// the same type: in particular a future of one type is never accepted where a
/// future of another type is expected.
pub proof fn lemma_valid_type_without_generics(from: TypeView, to: TypeView)
    requires
        generic_free(from),
        generic_free(to),
    ensures
        valid_type(from, to) <==> from == to,
    decreases type_size(from) + type_size(to),
{
    match (from, to) {
        (TypeView::Future(a), TypeView::Future(b)) => {
            lemma_valid_type_without_generics(*a, *b);
        },
        (TypeView::Fn(in1, out1), TypeView::Fn(in2, out2)) => {
            lemma_valid_type_without_generics(*out2, *out1);
            lemma_valid_type_without_generics(*in1, *in2);
        },
        _ => {},
    }
}

/// A future is accepted where another future is expected exactly when its
/// inner type is accepted there, and a function exactly when the expected
/// input is accepted by it and its output is accepted as the expected output.
pub proof fn lemma_valid_type_structure(a: TypeView, b: TypeView, c: TypeView, d: TypeView)
    ensures
        valid_type(TypeView::Future(Box::new(a)), TypeView::Future(Box::new(b))) <==> valid_type(a, b),
        valid_type(TypeView::Fn(Box::new(a), Box::new(b)), TypeView::Fn(Box::new(c), Box::new(d))) <==> (
        valid_type(a, c) && valid_type(d, b)),
{
}

/// Every type is accepted where the same type is expected, and a generic type
/// accepts and is accepted by anything.
pub proof fn lemma_valid_type_reflexive_and_generic(t: TypeView, g: Seq<char>)
    ensures
        valid_type(t, t),
        valid_type(TypeView::Generic(g), t),
        valid_type(t, TypeView::Generic(g)),
    decreases t,
{
    match t {
        TypeView::Future(a) => {
            lemma_valid_type_reflexive_and_generic(*a, g);
        },
        TypeView::Fn(a, b) => {
            lemma_valid_type_reflexive_and_generic(*a, g);
            lemma_valid_type_reflexive_and_generic(*b, g);
        },
        _ => {},
    }
}

/// Whether `from` may be given to an input of type `to` (see `valid_type`).
pub fn is_valid_type(from: &Type, to: &Type) -> (r: bool)
    ensures
        r == valid_type(from@, to@),
    decreases type_size(from@) + type_size(to@),
{
    match (from, to) {
        (Type::Concrete(a), Type::Concrete(b)) => *a == *b,
        (Type::Future(a), Type::Future(b)) => is_valid_type(&**a, &**b),
        (Type::Fn(in1, out1), Type::Fn(in2, out2)) => is_valid_type(&**out2, &**out1) && is_valid_type(&**in1, &**in2),
        (Type::Generic(_), _) => true,
        (_, Type::Generic(_)) => true,
        _ => false,
    }
}

/// Whether two types are the same (structurally, with names compared as text).
pub fn types_equal(a: &Type, b: &Type) -> (r: bool)
    ensures
        r == (a@ == b@),
    decreases a,
{
    match (a, b) {
        (Type::Generic(x), Type::Generic(y)) => *x == *y,
        (Type::Concrete(x), Type::Concrete(y)) => *x == *y,
        (Type::Fn(i1, o1), Type::Fn(i2, o2)) => types_equal(&**i1, &**i2) && types_equal(&**o1, &**o2),
        (Type::Future(x), Type::Future(y)) => types_equal(&**x, &**y),
        _ => false,
    }
}

/// The name of a generic type.
pub open spec fn generic_name(t: TypeView) -> Option<Seq<char>> {
    match t {
        TypeView::Generic(n) => Some(n),
        _ => None,
    }
}

/// The names of the generic types among `ts`, in order.
pub open spec fn generic_names(ts: Seq<TypeView>) -> Seq<Seq<char>>
    decreases ts.len(),
{
    if ts.len() == 0 {
        Seq::empty()
    } else {
        generic_names(ts.drop_last()) + match generic_name(ts.last()) {
            Some(n) => seq![n],
            None => Seq::empty(),
        }
    }
}

/// `s` with runs of equal consecutive texts reduced to one.
pub open spec fn dedup_texts(s: Seq<Seq<char>>) -> Seq<Seq<char>>
    decreases s.len(),
{
    if s.len() == 0 {
        s
    } else {
        let d = dedup_texts(s.drop_last());
        if d.len() > 0 && d.last() == s.last() {
            d
        } else {
            d.push(s.last())
        }
    }
}

/// The types that may hold generics of a signature: the call argument, the
/// innermost output type of each input, and the return value.
pub open spec fn generic_candidates(io: NodeIOTypesView) -> Seq<TypeView> {
    seq![io.call_argument] + io.inputs.map_values(|t: TypeView| nested_type_of(t)) + seq![io.return_value]
}

/// The generic names used in a signature, consecutive repeats removed.
pub open spec fn io_generics(io: NodeIOTypesView) -> Seq<Seq<char>> {
    dedup_texts(generic_names(generic_candidates(io)))
}

/// Adds the name of `t` to `out` when `t` is generic and its name is not the last one.
fn push_generic(out: &mut Vec<String>, t: &Type, Ghost(seen): Ghost<Seq<TypeView>>)
    requires
        crate::typecheck::string_views(old(out)@) == dedup_texts(generic_names(seen)),
    ensures
        crate::typecheck::string_views(final(out)@) == dedup_texts(generic_names(seen.push(t@))),
{
    proof {
        assert(seen.push(t@).drop_last() =~= seen);
    }
    match t {
        Type::Generic(name) => {
            let ghost d = dedup_texts(generic_names(seen));
            assert(generic_names(seen.push(t@)) =~= generic_names(seen).push(name@));
            assert(generic_names(seen).push(name@).drop_last() =~= generic_names(seen));
            let n = out.len();
            if n > 0 && out[n - 1] == *name {
                assert(d.last() == out@[n - 1]@);
            } else {
                let ghost prev = out@;
                out.push(name.clone());
                proof {
                    if n > 0 {
                        assert(d.last() == out@[n - 1]@);
                    }
                    assert(string_views(out@) =~= string_views(prev).push(name@));
                }
            }
        },
        _ => {
            assert(generic_names(seen.push(t@)) =~= generic_names(seen));
        },
    }
}

/// The generic names used in a signature (see `io_generics`).
pub fn collect_generics(types: &NodeIOTypes) -> (r: Vec<String>)
    ensures
        string_views(r@) == io_generics(types@),
{
    let mut out: Vec<String> = Vec::new();
    let ghost mut seen: Seq<TypeView> = Seq::empty();
    proof {
        assert(string_views(out@) =~= dedup_texts(generic_names(seen)));
    }
    push_generic(&mut out, &types.call_argument, Ghost(seen));
    proof {
        seen = seen.push(types.call_argument@);
    }
    let mut i: usize = 0;
    while i < types.inputs.len()
        invariant
            i <= types.inputs.len(),
            seen == seq![types@.call_argument] + types@.inputs.take(i as int).map_values(|t: TypeView| nested_type_of(t)),
            string_views(out@) == dedup_texts(generic_names(seen)),
        decreases types.inputs.len() - i,
    {
        let nested = types.inputs[i].nested_type();
        push_generic(&mut out, nested, Ghost(seen));
        proof {
            assert(types@.inputs[i as int] == types.inputs@[i as int]@);
            seen = seen.push(nested@);
            assert(seen =~= seq![types@.call_argument] + types@.inputs.take(i + 1).map_values(|t: TypeView| nested_type_of(t)));
        }
        i = i + 1;
    }
    push_generic(&mut out, &types.return_value, Ghost(seen));
    proof {
        assert(types@.inputs.take(types.inputs.len() as int) =~= types@.inputs);
        assert(seen.push(types@.return_value) =~= generic_candidates(types@));
    }
    out
}

/// The input type of a function type.
pub open spec fn fn_input_of(t: TypeView) -> Option<TypeView> {
    match t {
        TypeView::Fn(input, _) => Some(*input),
        _ => None,
    }
}

/// The output type of a function type.
pub open spec fn fn_output_of(t: TypeView) -> Option<TypeView> {
    match t {
        TypeView::Fn(_, output) => Some(*output),
        _ => None,
    }
}

/// The places where a generic of a signature can be bound, each with the type
/// found there: the call argument against the given input, then the inputs of
/// function-typed inputs against those of the given parameters, then their
/// outputs (pairs taken up to the shorter list).
pub open spec fn generic_pairs(io: NodeIOTypesView, input: TypeView, params: Seq<TypeView>) -> Seq<
    (Option<TypeView>, Option<TypeView>),
> {
    let m = if io.inputs.len() <= params.len() {
        io.inputs.len()
    } else {
        params.len()
    };
    seq![(Some(io.call_argument), Some(input))] + Seq::new(
        m as nat,
        |i: int| (fn_input_of(io.inputs[i]), fn_input_of(params[i])),
    ) + Seq::new(m as nat, |i: int| (fn_output_of(io.inputs[i]), fn_output_of(params[i])))
}

/// The types bound to the generic named `g`: the found type of each place where
/// the signature has exactly that generic and a type is found.
pub open spec fn generic_bindings(pairs: Seq<(Option<TypeView>, Option<TypeView>)>, g: Seq<char>) -> Seq<TypeView>
    decreases pairs.len(),
{
    if pairs.len() == 0 {
        Seq::empty()
    } else {
        generic_bindings(pairs.drop_last(), g) + if pairs.last().0 == Some(TypeView::Generic(g))
            && pairs.last().1 is Some {
            seq![pairs.last().1->0]
        } else {
            Seq::empty()
        }
    }
}

/// The concrete type of generic `g`, or the reason there is none: it must be
/// bound at least once, and to the same type each time.
pub open spec fn check_generic_result(io: NodeIOTypesView, input: TypeView, params: Seq<TypeView>, g: Seq<char>) -> Result<
    TypeView,
    Seq<char>,
> {
    let b = generic_bindings(generic_pairs(io, input, params), g);
    if b.len() == 0 {
        Err(
            "Generic output type "@ + g + " is not dependent on input "@ + type_text(input)
                + " or parameters "@ + type_list_text(params),
        )
    } else if exists|j: int| 1 <= j < b.len() && #[trigger] b[j] != b[0] {
        Err("Generic output type "@ + g + " is dependent on multiple inputs or parameters"@)
    } else {
        Ok(b[0])
    }
}

/// Adds the found type of a place when the signature has exactly the generic `g` there.
fn push_binding(
    out: &mut Vec<Type>,
    sig: Option<&Type>,
    found: Option<&Type>,
    g: &String,
    Ghost(pairs): Ghost<Seq<(Option<TypeView>, Option<TypeView>)>>,
)
    requires
        type_views(old(out)@) == generic_bindings(pairs, g@),
    ensures
        type_views(final(out)@) == generic_bindings(
            pairs.push(
                (
                    match sig {
                        Some(t) => Some(t@),
                        None => None,
                    },
                    match found {
                        Some(t) => Some(t@),
                        None => None,
                    },
                ),
            ),
            g@,
        ),
{
    let ghost p = (
        match sig {
            Some(t) => Some(t@),
            None => None,
        },
        match found {
            Some(t) => Some(t@),
            None => None,
        },
    );
    assert(pairs.push(p).drop_last() =~= pairs);
    let ghost prev = out@;
    match (sig, found) {
        (Some(Type::Generic(name)), Some(f)) => {
            if *name == *g {
                out.push(f.clone());
                assert(type_views(out@) =~= type_views(prev).push(f@));
            }
        },
        _ => {},
    }
}

/// The concrete type of a generic of a signature (see `check_generic_result`).
pub fn check_generic(types: &NodeIOTypes, input: &Type, parameters: &Vec<Type>, generic: &String) -> (r: Result<Type, String>)
    ensures
        match check_generic_result(types@, input@, type_views(parameters@), generic@) {
            Ok(t) => r matches Ok(x) && x@ == t,
            Err(m) => r matches Err(x) && x@ == m,
        },
{
    let ghost io = types@;
    let ghost params = type_views(parameters@);
    let ghost all = generic_pairs(io, input@, params);
    let m = if types.inputs.len() <= parameters.len() { types.inputs.len() } else { parameters.len() };
    let mut bound: Vec<Type> = Vec::new();
    let ghost mut pairs: Seq<(Option<TypeView>, Option<TypeView>)> = Seq::empty();
    assert(type_views(bound@) =~= Seq::<TypeView>::empty());
    push_binding(&mut bound, Some(&types.call_argument), Some(input), generic, Ghost(pairs));
    proof {
        pairs = pairs.push((Some(io.call_argument), Some(input@)));
        assert(pairs =~= all.take(1));
    }
    let mut i: usize = 0;
    while i < m
        invariant
            i <= m,
            m == (if types.inputs.len() <= parameters.len() { types.inputs.len() } else { parameters.len() }),
            io == types@,
            params == type_views(parameters@),
            pairs == all.take(1 + i),
            all == generic_pairs(io, input@, params),
            type_views(bound@) == generic_bindings(pairs, generic@),
        decreases m - i,
    {
        let a = types.inputs[i].fn_input();
        let b = parameters[i].fn_input();
        push_binding(&mut bound, a, b, generic, Ghost(pairs));
        proof {
            assert(io.inputs[i as int] == types.inputs@[i as int]@);
            assert(params[i as int] == parameters@[i as int]@);
            assert(all[1 + i] == (fn_input_of(io.inputs[i as int]), fn_input_of(params[i as int])));
            assert(all.take(1 + i + 1) =~= all.take(1 + i).push(all[1 + i]));
            pairs = all.take(1 + i + 1);
        }
        i = i + 1;
    }
    let mut j: usize = 0;
    while j < m
        invariant
            j <= m,
            m == (if types.inputs.len() <= parameters.len() { types.inputs.len() } else { parameters.len() }),
            io == types@,
            params == type_views(parameters@),
            pairs == all.take(1 + m + j),
            all == generic_pairs(io, input@, params),
            type_views(bound@) == generic_bindings(pairs, generic@),
        decreases m - j,
    {
        let a = types.inputs[j].fn_output();
        let b = parameters[j].fn_output();
        push_binding(&mut bound, a, b, generic, Ghost(pairs));
        proof {
            assert(io.inputs[j as int] == types.inputs@[j as int]@);
            assert(params[j as int] == parameters@[j as int]@);
            assert(all[1 + m + j] == (fn_output_of(io.inputs[j as int]), fn_output_of(params[j as int])));
            assert(all.take(1 + m + j + 1) =~= all.take(1 + m + j).push(all[1 + m + j]));
            pairs = all.take(1 + m + j + 1);
        }
        j = j + 1;
    }
    proof {
        assert(all.take(1 + 2 * m) =~= all);
    }
    let ghost bs = generic_bindings(all, generic@);
    if bound.len() == 0 {
        let mut msg = String::new();
        msg.append("Generic output type ");
        msg.append(generic.as_str());
        msg.append(" is not dependent on input ");
        push_type_text(&mut msg, input);
        msg.append(" or parameters ");
        let list = type_list_to_string(parameters);
        msg.append(list.as_str());
        proof {
            reveal_strlit("Generic output type ");
            reveal_strlit(" is not dependent on input ");
            reveal_strlit(" or parameters ");
        }
        return Err(msg);
    }
    let mut k: usize = 1;
    while k < bound.len()
        invariant
            1 <= k <= bound.len(),
            type_views(bound@) == bs,
            bs == generic_bindings(generic_pairs(types@, input@, type_views(parameters@)), generic@),
            forall|q: int| 1 <= q < k ==> #[trigger] bs[q] == bs[0],
        decreases bound.len() - k,
    {
        if !types_equal(&bound[k], &bound[0]) {
            let mut msg = String::new();
            msg.append("Generic output type ");
            msg.append(generic.as_str());
            msg.append(" is dependent on multiple inputs or parameters");
            proof {
                reveal_strlit("Generic output type ");
                reveal_strlit(" is dependent on multiple inputs or parameters");
                assert(bs[k as int] != bs[0]);
                assert(exists|q: int| 1 <= q < bs.len() && #[trigger] bs[q] != bs[0]);
                assert(msg@ =~= "Generic output type "@ + generic@ + " is dependent on multiple inputs or parameters"@);
                assert(bs.len() > 0);
            }
            return Err(msg);
        }
        k = k + 1;
    }
    Ok(bound[0].clone())
}

/// The models of (generic name, type) pairs.
pub open spec fn bindings_view(v: Seq<(String, Type)>) -> Seq<(Seq<char>, TypeView)> {
    v.map_values(|p: (String, Type)| (p.0@, p.1@))
}

/// The type bound to a generic name: the last binding of that name.
pub open spec fn lookup_generic(lookup: Seq<(Seq<char>, TypeView)>, name: Seq<char>) -> Option<TypeView>
    decreases lookup.len(),
{
    if lookup.len() == 0 {
        None
    } else if lookup.last().0 == name {
        Some(lookup.last().1)
    } else {
        lookup_generic(lookup.drop_last(), name)
    }
}

/// A type with a bound generic replaced by its binding, looking into the
/// output of functions and into futures.
pub open spec fn replace_nested_of(t: TypeView, lookup: Seq<(Seq<char>, TypeView)>) -> TypeView
    decreases t,
{
    match t {
        TypeView::Generic(n) => match lookup_generic(lookup, n) {
            Some(r) => r,
            None => t,
        },
        TypeView::Fn(input, output) => TypeView::Fn(input, Box::new(replace_nested_of(*output, lookup))),
        TypeView::Future(inner) => TypeView::Future(Box::new(replace_nested_of(*inner, lookup))),
        _ => t,
    }
}

/// A signature with its generics replaced by their bindings.
pub open spec fn replace_generics_of(io: NodeIOTypesView, lookup: Seq<(Seq<char>, TypeView)>) -> NodeIOTypesView {
    NodeIOTypesView {
        call_argument: replace_nested_of(io.call_argument, lookup),
        return_value: replace_nested_of(io.return_value, lookup),
        inputs: io.inputs.map_values(|t: TypeView| replace_nested_of(t, lookup)),
    }
}

/// The binding of a generic name (see `lookup_generic`).
fn find_binding<'a>(lookup: &'a Vec<(String, Type)>, name: &String) -> (r: Option<&'a Type>)
    ensures
        match lookup_generic(bindings_view(lookup@), name@) {
            Some(t) => r matches Some(x) && x@ == t,
            None => r is None,
        },
{
    let mut i = lookup.len();
    assert(bindings_view(lookup@).take(i as int) =~= bindings_view(lookup@));
    while i > 0
        invariant
            i <= lookup.len(),
            lookup_generic(bindings_view(lookup@), name@) == lookup_generic(bindings_view(lookup@).take(i as int), name@),
        decreases i,
    {
        proof {
            assert(bindings_view(lookup@).take(i as int).drop_last() =~= bindings_view(lookup@).take(i - 1));
        }
        if lookup[i - 1].0 == *name {
            return Some(&lookup[i - 1].1);
        }
        i = i - 1;
    }
    None
}

/// A type with its bound generics replaced (see `replace_nested_of`).
pub fn replace_nested(t: &Type, lookup: &Vec<(String, Type)>) -> (r: Type)
    ensures
        r@ == replace_nested_of(t@, bindings_view(lookup@)),
    decreases t,
{
    match t {
        Type::Generic(n) => match find_binding(lookup, n) {
            Some(x) => x.clone(),
            None => t.clone(),
        },
        Type::Fn(input, output) => Type::Fn(Box::new((**input).clone()), Box::new(replace_nested(&**output, lookup))),
        Type::Future(inner) => Type::Future(Box::new(replace_nested(&**inner, lookup))),
        _ => t.clone(),
    }
}

/// Replaces the generics of a signature by their bindings.
pub fn replace_generics(types: &mut NodeIOTypes, lookup: &Vec<(String, Type)>)
    ensures
        final(types)@ == replace_generics_of(old(types)@, bindings_view(lookup@)),
{
    let ghost lv = bindings_view(lookup@);
    let call_argument = replace_nested(&types.call_argument, lookup);
    let return_value = replace_nested(&types.return_value, lookup);
    let mut inputs: Vec<Type> = Vec::new();
    let mut i: usize = 0;
    while i < types.inputs.len()
        invariant
            i <= types.inputs.len(),
            inputs.len() == i,
            forall|k: int| 0 <= k < i ==> (#[trigger] inputs@[k])@ == replace_nested_of(types.inputs@[k]@, lv),
            lv == bindings_view(lookup@),
        decreases types.inputs.len() - i,
    {
        let t = replace_nested(&types.inputs[i], lookup);
        inputs.push(t);
        i = i + 1;
    }
    let ghost old_io = types@;
    types.call_argument = call_argument;
    types.return_value = return_value;
    types.inputs = inputs;
    proof {
        assert(types@.inputs =~= old_io.inputs.map_values(|t: TypeView| replace_nested_of(t, lv)));
    }
}

} // verus!

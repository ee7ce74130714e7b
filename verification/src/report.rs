//! The messages that describe type errors.

use vstd::prelude::*;
use vstd::utf8::encode_utf8;

use crate::text::decimal_text;
use crate::typecheck::{join_texts, push_joined, push_type_text, string_views, type_list_text, type_text, type_texts};
use crate::types::{NodeIOTypes, NodeIOTypesView, Type, TypeView, type_views};
use crate::typing::{GraphError, GraphErrorType, GraphErrorTypeView, GraphErrorView, ios_view, mismatches_view};

verus! {

/// The number of times `c` occurs in `s`.
pub open spec fn char_count(s: Seq<char>, c: char) -> nat
    decreases s.len(),
{
    if s.len() == 0 {
        0
    } else {
        char_count(s.drop_last(), c) + if s.last() == c { 1nat } else { 0nat }
    }
}

proof fn lemma_char_count_push(s: Seq<char>, x: char, c: char)
    ensures
        char_count(s.push(x), c) == char_count(s, c) + if x == c { 1nat } else { 0nat },
{
    assert(s.push(x).drop_last() =~= s);
}

/// Whether `c` occurs exactly once in `s`.
fn occurs_once(s: &str, c: char) -> (r: bool)
    ensures
        r == (char_count(s@, c) == 1),
{
    broadcast use vstd::string::axiom_spec_iter, vstd::string::next_postcondition;

    let mut it = s.chars();
    let mut n: u8 = 0;
    let ghost mut seen: Seq<char> = Seq::empty();
    assert(seen + vstd::std_specs::iter::IteratorSpec::remaining(&it) =~= s@);
    loop
        invariant
            seen + vstd::std_specs::iter::IteratorSpec::remaining(&it) == s@,
            vstd::std_specs::iter::IteratorSpec::obeys_prophetic_iter_laws(&it),
            vstd::std_specs::iter::IteratorSpec::decrease(&it) is Some,
            n <= 2,
            n < 2 ==> n == char_count(seen, c),
            n == 2 ==> char_count(seen, c) >= 2,
        ensures
            seen == s@,
        decreases s@.len() - seen.len(),
    {
        let ghost before = it;
        match it.next() {
            Some(x) => {
                proof {
                    lemma_char_count_push(seen, x, c);
                    assert(seen.push(x) + vstd::std_specs::iter::IteratorSpec::remaining(&it) =~= seen + vstd::std_specs::iter::IteratorSpec::remaining(&before));
                    seen = seen.push(x);
                }
                if x == c && n < 2 {
                    n = n + 1;
                }
            },
            None => {
                assert(seen =~= s@);
                break;
            },
        }
    }
    n == 1
}

/// Whether the bytes `a` come before the bytes `b`, comparing from position `i` on
/// (a proper prefix comes first).
pub open spec fn bytes_lt_from(a: Seq<u8>, b: Seq<u8>, i: int) -> bool
    decreases a.len() - i,
{
    if i < 0 || i >= a.len() {
        i < b.len()
    } else if i >= b.len() {
        false
    } else if a[i] != b[i] {
        a[i] < b[i]
    } else {
        bytes_lt_from(a, b, i + 1)
    }
}

/// Whether text `a` comes before text `b`: their UTF-8 bytes compared in
/// lexicographic order, which is how strings are ordered.
pub open spec fn text_lt(a: Seq<char>, b: Seq<char>) -> bool {
    bytes_lt_from(encode_utf8(a), encode_utf8(b), 0)
}

/// Whether `a` comes before `b` (see `text_lt`).
fn text_less(a: &String, b: &String) -> (r: bool)
    ensures
        r == text_lt(a@, b@),
{
    let x = a.as_str().as_bytes();
    let y = b.as_str().as_bytes();
    let mut i: usize = 0;
    while i < x.len() && i < y.len()
        invariant
            i <= x.len(),
            i <= y.len(),
            x@ == encode_utf8(a@),
            y@ == encode_utf8(b@),
            forall|k: int| 0 <= k < i ==> x@[k] == y@[k],
            bytes_lt_from(x@, y@, 0) == bytes_lt_from(x@, y@, i as int),
        decreases x.len() - i,
    {
        if x[i] != y[i] {
            return x[i] < y[i];
        }
        i = i + 1;
    }
    i < y.len()
}

/// Inserts `x` into the sorted texts `t` after every text that does not come after it.
pub open spec fn insert_sorted(t: Seq<Seq<char>>, x: Seq<char>) -> Seq<Seq<char>>
    decreases t.len(),
{
    if t.len() == 0 {
        seq![x]
    } else if text_lt(x, t.last()) {
        insert_sorted(t.drop_last(), x).push(t.last())
    } else {
        t.push(x)
    }
}

/// The texts in sorted order, equal texts kept in the order they came in.
pub open spec fn sorted_texts(s: Seq<Seq<char>>) -> Seq<Seq<char>>
    decreases s.len(),
{
    if s.len() == 0 {
        Seq::empty()
    } else {
        insert_sorted(sorted_texts(s.drop_last()), s.last())
    }
}

/// Inserting before the texts that `x` comes before, and after the rest.
proof fn lemma_insert_sorted_at(t: Seq<Seq<char>>, x: Seq<char>, j: int)
    requires
        0 <= j <= t.len(),
        forall|k: int| j <= k < t.len() ==> text_lt(x, #[trigger] t[k]),
        j == 0 || !text_lt(x, t[j - 1]),
    ensures
        insert_sorted(t, x) == t.insert(j, x),
    decreases t.len() - j,
{
    if j == t.len() {
        if t.len() == 0 {
            assert(t.insert(j, x) =~= seq![x]);
        } else {
            assert(t.insert(j, x) =~= t.push(x));
        }
    } else {
        let d = t.drop_last();
        assert(text_lt(x, t[t.len() - 1]));
        assert forall|k: int| j <= k < d.len() implies text_lt(x, #[trigger] d[k]) by {
            assert(d[k] == t[k]);
        }
        if j > 0 {
            assert(d[j - 1] == t[j - 1]);
        }
        lemma_insert_sorted_at(d, x, j);
        assert(d.insert(j, x).push(t.last()) =~= t.insert(j, x));
    }
}

/// Sorts texts (see `sorted_texts`).
fn sort_strings(v: &Vec<String>) -> (r: Vec<String>)
    ensures
        string_views(r@) == sorted_texts(string_views(v@)),
{
    let ghost vs = string_views(v@);
    let mut sorted: Vec<String> = Vec::new();
    let mut i: usize = 0;
    let n = v.len();
    assert(vs.take(0) =~= Seq::<Seq<char>>::empty());
    assert(string_views(sorted@) =~= Seq::<Seq<char>>::empty());
    while i < n
        invariant
            i <= n,
            n == vs.len(),
            n == v.len(),
            vs == string_views(v@),
            string_views(sorted@) == sorted_texts(vs.take(i as int)),
        decreases n - i,
    {
        let x = v[i].clone();
        assert(x@ == vs[i as int]);
        let ghost t = string_views(sorted@);
        let mut j: usize = sorted.len();
        let mut done = false;
        while !done && j > 0
            invariant
                j <= sorted.len(),
                t == string_views(sorted@),
                forall|k: int| j <= k < t.len() ==> text_lt(x@, #[trigger] t[k]),
                done ==> j > 0 && !text_lt(x@, t[j - 1]),
            decreases j, if done { 0int } else { 1int },
        {
            if text_less(&x, &sorted[j - 1]) {
                j = j - 1;
            } else {
                done = true;
            }
        }
        proof {
            lemma_insert_sorted_at(t, x@, j as int);
            assert(vs.take(i + 1).drop_last() =~= vs.take(i as int));
        }
        let ghost xv = x@;
        sorted.insert(j, x);
        proof {
            assert(string_views(sorted@) =~= t.insert(j as int, xv));
        }
        i = i + 1;
    }
    assert(vs.take(n as int) =~= vs);
    sorted
}

/// The text of one mismatch: the input's number (counted from one), the type
/// found there and the type expected.
pub open spec fn mismatch_text(m: (usize, (TypeView, TypeView))) -> Seq<char> {
    "• Input "@ + decimal_text((m.0 + 1) as nat) + ":\n…found:       "@ + type_text(m.1.0) + "\n…expected: "@
        + type_text(m.1.1)
}

/// The mismatches of one implementation, one per line.
pub open spec fn mismatch_list_text(l: Seq<(usize, (TypeView, TypeView))>) -> Seq<char> {
    join_texts(l.map_values(|m: (usize, (TypeView, TypeView))| mismatch_text(m)), "\n"@)
}

/// The message for implementations that do not fit: the mismatch lists in
/// sorted order, under a heading that is singular when they hold a single
/// bullet, followed by the types the node receives.
pub open spec fn incompatible_text(lists: Seq<Seq<(usize, (TypeView, TypeView))>>, inputs: Seq<char>) -> Seq<char> {
    let errors = join_texts(
        sorted_texts(lists.map_values(|l: Seq<(usize, (TypeView, TypeView))>| mismatch_list_text(l))),
        "\n"@,
    );
    let heading = if char_count(errors, '•') == 1 {
        "This input type is incompatible:"@
    } else {
        "These input types are incompatible:"@
    };
    heading + "\n"@ + errors + "\n\nThe node is currently receiving all of the following input types:\n"@ + inputs
        + "\nThis is not a supported arrangement of types for the node."@
}

/// The text of a signature: `node(call argument, inputs...) → return type`.
pub open spec fn io_text(io: NodeIOTypesView) -> Seq<char> {
    "node("@ + join_texts(type_texts(seq![io.call_argument] + io.inputs), ", "@) + ") → "@ + type_text(io.return_value)
}

/// One line per signature, indented, each followed by a comma.
pub open spec fn io_lines_text(v: Seq<NodeIOTypesView>) -> Seq<char>
    decreases v.len(),
{
    if v.len() == 0 {
        Seq::empty()
    } else {
        io_lines_text(v.drop_last()) + "    "@ + io_text(v.last()) + ",\n"@
    }
}

/// A list of signatures, one per line between brackets (`[]` when empty).
pub open spec fn io_list_text(v: Seq<NodeIOTypesView>) -> Seq<char> {
    if v.len() == 0 {
        "[]"@
    } else {
        "[\n"@ + io_lines_text(v) + "]"@
    }
}

/// Whether every mismatch can be numbered from one.
pub open spec fn numbers_fit(lists: Seq<Seq<(usize, (TypeView, TypeView))>>) -> bool {
    forall|i: int, j: int| 0 <= i < lists.len() && 0 <= j < lists[i].len() ==> #[trigger] lists[i][j].0 < usize::MAX
}

/// The message that describes a type error.
pub open spec fn error_type_text(e: GraphErrorTypeView) -> Seq<char> {
    match e {
        GraphErrorTypeView::NodeNotFound(id) => "Input node "@ + decimal_text(id.0 as nat)
            + " is not present in the typing context"@,
        GraphErrorTypeView::InputNodeNotFound(id) => "Input node "@ + decimal_text(id.0 as nat)
            + " is not present in the typing context"@,
        GraphErrorTypeView::UnexpectedGenerics { index, inputs } => "Generic inputs should not exist but found at "@
            + decimal_text(index as nat) + ": "@ + type_list_text(inputs),
        GraphErrorTypeView::NoImplementations => "No implementations found"@,
        GraphErrorTypeView::NoConstructor => "No construct found for node"@,
        GraphErrorTypeView::InvalidImplementations { inputs, error_inputs } => incompatible_text(error_inputs, inputs),
        GraphErrorTypeView::MultipleImplementations { inputs, valid } => "Multiple implementations found ("@ + inputs
            + "):\n"@ + io_list_text(valid),
    }
}

/// Appends the text of one mismatch.
fn push_mismatch(out: &mut String, m: &(usize, (Type, Type)))
    requires
        m.0 < usize::MAX,
    ensures
        final(out)@ == old(out)@ + mismatch_text((m.0, (m.1.0@, m.1.1@))),
{
    let ghost start = out@;
    out.append("• Input ");
    crate::text::push_digits(out, (m.0 + 1) as u64, 10);
    out.append(":\n…found:       ");
    push_type_text(out, &m.1.0);
    out.append("\n…expected: ");
    push_type_text(out, &m.1.1);
    proof {
        reveal_strlit("• Input ");
        reveal_strlit(":\n…found:       ");
        reveal_strlit("\n…expected: ");
        assert(out@ =~= start + mismatch_text((m.0, (m.1.0@, m.1.1@))));
    }
}

/// The mismatches of one implementation, one per line (see `mismatch_list_text`).
fn mismatch_list_string(l: &Vec<(usize, (Type, Type))>) -> (r: String)
    requires
        forall|j: int| 0 <= j < l.len() ==> (#[trigger] l@[j]).0 < usize::MAX,
    ensures
        r@ == mismatch_list_text(mismatches_view(l@)),
{
    let ghost items = mismatches_view(l@).map_values(|m: (usize, (TypeView, TypeView))| mismatch_text(m));
    let mut texts: Vec<String> = Vec::new();
    let mut i: usize = 0;
    while i < l.len()
        invariant
            i <= l.len(),
            texts.len() == i,
            forall|j: int| 0 <= j < l.len() ==> (#[trigger] l@[j]).0 < usize::MAX,
            items == mismatches_view(l@).map_values(|m: (usize, (TypeView, TypeView))| mismatch_text(m)),
            string_views(texts@) == items.take(i as int),
        decreases l.len() - i,
    {
        let mut t = String::new();
        push_mismatch(&mut t, &l[i]);
        let ghost prev = texts@;
        let ghost tv = t@;
        texts.push(t);
        proof {
            assert(tv == items[i as int]);
            assert(string_views(texts@) =~= string_views(prev).push(tv));
            assert(items.take(i + 1) =~= items.take(i as int).push(tv));
        }
        i = i + 1;
    }
    assert(items.take(l.len() as int) =~= items);
    let mut out = String::new();
    push_joined(&mut out, &texts, "\n");
    proof {
        reveal_strlit("\n");
        assert(out@ =~= mismatch_list_text(mismatches_view(l@)));
    }
    out
}

/// The message for implementations that do not fit (see `incompatible_text`).
fn incompatible_string(lists: &Vec<Vec<(usize, (Type, Type))>>, inputs: &String) -> (r: String)
    requires
        numbers_fit(lists@.map_values(|l: Vec<(usize, (Type, Type))>| mismatches_view(l@))),
    ensures
        r@ == incompatible_text(lists@.map_values(|l: Vec<(usize, (Type, Type))>| mismatches_view(l@)), inputs@),
{
    let ghost lv = lists@.map_values(|l: Vec<(usize, (Type, Type))>| mismatches_view(l@));
    let ghost items = lv.map_values(|l: Seq<(usize, (TypeView, TypeView))>| mismatch_list_text(l));
    let mut texts: Vec<String> = Vec::new();
    let mut i: usize = 0;
    while i < lists.len()
        invariant
            i <= lists.len(),
            texts.len() == i,
            lv == lists@.map_values(|l: Vec<(usize, (Type, Type))>| mismatches_view(l@)),
            numbers_fit(lv),
            items == lv.map_values(|l: Seq<(usize, (TypeView, TypeView))>| mismatch_list_text(l)),
            string_views(texts@) == items.take(i as int),
        decreases lists.len() - i,
    {
        proof {
            assert forall|j: int| 0 <= j < lists@[i as int].len() implies (#[trigger] lists@[i as int]@[j]).0
                < usize::MAX by {
                assert(lv[i as int][j].0 == lists@[i as int]@[j].0);
            }
        }
        let t = mismatch_list_string(&lists[i]);
        let ghost prev = texts@;
        let ghost tv = t@;
        texts.push(t);
        proof {
            assert(tv == items[i as int]);
            assert(string_views(texts@) =~= string_views(prev).push(tv));
            assert(items.take(i + 1) =~= items.take(i as int).push(tv));
        }
        i = i + 1;
    }
    assert(items.take(lists.len() as int) =~= items);
    let sorted = sort_strings(&texts);
    let mut errors = String::new();
    push_joined(&mut errors, &sorted, "\n");
    assert(errors@ =~= join_texts(sorted_texts(items), "\n"@)) by {
        reveal_strlit("\n");
    }
    let mut out = String::new();
    if occurs_once(errors.as_str(), '•') {
        out.append("This input type is incompatible:");
    } else {
        out.append("These input types are incompatible:");
    }
    out.append("\n");
    out.append(errors.as_str());
    out.append("\n\nThe node is currently receiving all of the following input types:\n");
    out.append(inputs.as_str());
    out.append("\nThis is not a supported arrangement of types for the node.");
    proof {
        reveal_strlit("This input type is incompatible:");
        reveal_strlit("These input types are incompatible:");
        reveal_strlit("\n");
        reveal_strlit("\n\nThe node is currently receiving all of the following input types:\n");
        reveal_strlit("\nThis is not a supported arrangement of types for the node.");
        assert(out@ =~= incompatible_text(lv, inputs@));
    }
    out
}

/// Appends the text of a signature (see `io_text`).
fn push_io(out: &mut String, io: &NodeIOTypes)
    ensures
        final(out)@ == old(out)@ + io_text(io@),
{
    let ghost start = out@;
    let ghost given = seq![io@.call_argument] + io@.inputs;
    let mut texts: Vec<String> = Vec::new();
    texts.push(crate::typecheck::type_to_string(&io.call_argument));
    let mut i: usize = 0;
    proof {
        assert(string_views(texts@) =~= type_texts(given.take(1)));
    }
    while i < io.inputs.len()
        invariant
            i <= io.inputs.len(),
            texts.len() == i + 1,
            given == seq![io@.call_argument] + io@.inputs,
            io@.inputs == type_views(io.inputs@),
            string_views(texts@) == type_texts(given.take(i + 1)),
        decreases io.inputs.len() - i,
    {
        let t = crate::typecheck::type_to_string(&io.inputs[i]);
        let ghost prev = texts@;
        let ghost tv = t@;
        texts.push(t);
        proof {
            assert(given[i + 1] == io.inputs@[i as int]@);
            assert(string_views(texts@) =~= string_views(prev).push(tv));
            assert(type_texts(given.take(i + 2)) =~= type_texts(given.take(i + 1)).push(type_text(given[i + 1])));
        }
        i = i + 1;
    }
    assert(given.take(io.inputs.len() + 1) =~= given);
    out.append("node(");
    push_joined(out, &texts, ", ");
    out.append(") → ");
    push_type_text(out, &io.return_value);
    proof {
        reveal_strlit("node(");
        reveal_strlit(", ");
        reveal_strlit(") → ");
        assert(out@ =~= start + io_text(io@));
    }
}

impl NodeIOTypes {
    /// The text of the signature (see `io_text`).
    pub fn description(&self) -> (r: String)
        ensures
            r@ == io_text(self@),
    {
        let mut out = String::new();
        push_io(&mut out, self);
        assert(out@ =~= io_text(self@));
        out
    }
}

/// A list of signatures (see `io_list_text`).
fn io_list_string(v: &Vec<NodeIOTypes>) -> (r: String)
    ensures
        r@ == io_list_text(ios_view(v@)),
{
    let ghost vv = ios_view(v@);
    let mut out = String::new();
    if v.len() == 0 {
        out.append("[]");
        proof {
            reveal_strlit("[]");
        }
        return out;
    }
    out.append("[\n");
    let mut i: usize = 0;
    proof {
        reveal_strlit("[\n");
        assert(vv.take(0) =~= Seq::<NodeIOTypesView>::empty());
    }
    while i < v.len()
        invariant
            i <= v.len(),
            vv == ios_view(v@),
            out@ == "[\n"@ + io_lines_text(vv.take(i as int)),
        decreases v.len() - i,
    {
        let ghost before = out@;
        out.append("    ");
        push_io(&mut out, &v[i]);
        out.append(",\n");
        proof {
            reveal_strlit("    ");
            reveal_strlit(",\n");
            assert(vv.take(i + 1).drop_last() =~= vv.take(i as int));
            assert(vv[i as int] == v@[i as int]@);
            assert(out@ =~= "[\n"@ + io_lines_text(vv.take(i + 1)));
        }
        i = i + 1;
    }
    out.append("]");
    proof {
        reveal_strlit("]");
        assert(vv.take(v.len() as int) =~= vv);
    }
    out
}

impl GraphErrorType {
    /// The message that describes the error (see `error_type_text`).
    pub fn description(&self) -> (r: String)
        requires
            self@ matches GraphErrorTypeView::InvalidImplementations { error_inputs, .. } ==> numbers_fit(error_inputs),
        ensures
            r@ == error_type_text(self@),
    {
        let mut out = String::new();
        match self {
            GraphErrorType::NodeNotFound(id) | GraphErrorType::InputNodeNotFound(id) => {
                out.append("Input node ");
                crate::text::push_digits(&mut out, id.0, 10);
                out.append(" is not present in the typing context");
                proof {
                    reveal_strlit("Input node ");
                    reveal_strlit(" is not present in the typing context");
                }
            },
            GraphErrorType::UnexpectedGenerics { index, inputs } => {
                out.append("Generic inputs should not exist but found at ");
                crate::text::push_digits(&mut out, *index as u64, 10);
                out.append(": ");
                let list = crate::typecheck::type_list_to_string(inputs);
                out.append(list.as_str());
                proof {
                    reveal_strlit("Generic inputs should not exist but found at ");
                    reveal_strlit(": ");
                }
            },
            GraphErrorType::NoImplementations => {
                out.append("No implementations found");
                proof {
                    reveal_strlit("No implementations found");
                }
            },
            GraphErrorType::NoConstructor => {
                out.append("No construct found for node");
                proof {
                    reveal_strlit("No construct found for node");
                }
            },
            GraphErrorType::InvalidImplementations { inputs, error_inputs } => {
                let text = incompatible_string(error_inputs, inputs);
                out.append(text.as_str());
            },
            GraphErrorType::MultipleImplementations { inputs, valid } => {
                out.append("Multiple implementations found (");
                out.append(inputs.as_str());
                out.append("):\n");
                let list = io_list_string(valid);
                out.append(list.as_str());
                proof {
                    reveal_strlit("Multiple implementations found (");
                    reveal_strlit("):\n");
                }
            },
        }
        assert(out@ =~= error_type_text(self@));
        out
    }
}

/// The text of a string as the standard library's `Debug` writes it: in double
/// quotes, with the characters that need it escaped.
pub uninterp spec fn debug_quoted(s: Seq<char>) -> Seq<char>;

/// `format!("{:?}", s)`: the standard library's `Debug` text of a string. The
/// contract names the result and says no more of it: which characters are
/// escaped, and how, follows the standard library's Unicode tables, which its
/// documentation does not list.
#[verifier::external_body]
fn debug_text(s: &str) -> (r: String)
    ensures
        r@ == debug_quoted(s@),
{
    format!("{:?}", s)
}

/// Appends the `Debug` text of a string (see `debug_quoted`).
pub(crate) fn push_quoted(out: &mut String, s: &str)
    ensures
        final(out)@ == old(out)@ + debug_quoted(s@),
{
    let q = debug_text(s);
    out.append(q.as_str());
}

/// The ids of a path in decimal, separated by commas, in brackets.
pub open spec fn path_text(p: Seq<crate::types::NodeId>) -> Seq<char> {
    "["@ + join_texts(p.map_values(|id: crate::types::NodeId| decimal_text(id.0 as nat)), ", "@) + "]"@
}

/// The text of an error with the node it concerns: its path, its identifier
/// (as `Debug` writes a string, see `debug_quoted`) and the message of the error.
pub open spec fn error_text(e: GraphErrorView) -> Seq<char> {
    "NodeGraphError { path: "@ + path_text(e.node_path) + ", identifier: "@ + debug_quoted(e.identifier)
        + ", error: "@ + error_type_text(e.error) + " }"@
}

impl GraphError {
    /// The text of the error (see `error_text`).
    pub fn description(&self) -> (r: String)
        requires
            self@.error matches GraphErrorTypeView::InvalidImplementations { error_inputs, .. } ==> numbers_fit(
                error_inputs,
            ),
        ensures
            r@ == error_text(self@),
    {
        let ghost ids = self.node_path@.map_values(|id: crate::types::NodeId| decimal_text(id.0 as nat));
        let mut texts: Vec<String> = Vec::new();
        let mut i: usize = 0;
        while i < self.node_path.len()
            invariant
                i <= self.node_path.len(),
                ids == self.node_path@.map_values(|id: crate::types::NodeId| decimal_text(id.0 as nat)),
                string_views(texts@) == ids.take(i as int),
            decreases self.node_path.len() - i,
        {
            let t = crate::text::decimal_string(self.node_path[i].0);
            let ghost prev = texts@;
            let ghost tv = t@;
            texts.push(t);
            proof {
                assert(string_views(texts@) =~= string_views(prev).push(tv));
                assert(ids.take(i + 1) =~= ids.take(i as int).push(tv));
            }
            i = i + 1;
        }
        assert(ids.take(self.node_path.len() as int) =~= ids);
        let mut out = String::new();
        out.append("NodeGraphError { path: [");
        push_joined(&mut out, &texts, ", ");
        out.append("], identifier: ");
        push_quoted(&mut out, self.identifier.as_str());
        out.append(", error: ");
        let message = self.error.description();
        out.append(message.as_str());
        out.append(" }");
        proof {
            reveal_strlit("NodeGraphError { path: [");
            reveal_strlit(", ");
            reveal_strlit("], identifier: ");
            reveal_strlit(", error: ");
            reveal_strlit(" }");
            reveal_strlit("NodeGraphError { path: ");
            reveal_strlit("[");
            reveal_strlit("]");
            reveal_strlit(", identifier: ");
            assert(out@ =~= error_text(self@));
        }
        out
    }
}

} // verus!

use graph_craft_proto::proto::{ConstructionArgs, ProtoNetwork, ProtoNode, ProtoNodeInput};
use graph_craft_proto::typecheck::{check_generic, collect_generics, is_valid_type, replace_generics, type_to_string};
use graph_craft_proto::types::{InlineRust, NodeConstructor, NodeIOTypes, NodeId, ProtoNodeIdentifier, TaggedValue, Type};
use graph_craft_proto::typing::{GraphError, GraphErrorType, TypingContext};

fn concrete(name: &str) -> Type {
    Type::concrete(name)
}

fn generic(name: &str) -> Type {
    Type::Generic(name.to_string())
}

fn func(input: Type, output: Type) -> Type {
    Type::Fn(Box::new(input), Box::new(output))
}

fn io(call_argument: Type, return_value: Type, inputs: Vec<Type>) -> NodeIOTypes {
    NodeIOTypes::new(call_argument, return_value, inputs)
}

fn node(name: &str, input: ProtoNodeInput, construction_args: ConstructionArgs) -> ProtoNode {
    ProtoNode { identifier: ProtoNodeIdentifier::new(name), input, construction_args, ..Default::default() }
}

fn value_node() -> ProtoNode {
    node("value", ProtoNodeInput::Empty, ConstructionArgs::Value(TaggedValue::U32(2)))
}

fn value_io() -> NodeIOTypes {
    io(concrete("graphene_core::context::Context"), Type::Future(Box::new(concrete("u32"))), vec![])
}

#[test]
fn value_nodes_are_typed_by_their_value() {
    let mut ctx = TypingContext::new(vec![]);
    assert_eq!(ctx.infer(NodeId(1), &value_node()), Ok(value_io()));
    assert_eq!(ctx.type_of(NodeId(1)), Some(&value_io()));
    assert_eq!(ctx.constructor(NodeId(1)), None);
    let text = node("text", ProtoNodeInput::Empty, ConstructionArgs::Value(TaggedValue::String("a".to_string())));
    let expected = io(concrete("graphene_core::context::Context"), Type::Future(Box::new(concrete("alloc::string::String"))), vec![]);
    assert_eq!(ctx.infer(NodeId(2), &text), Ok(expected));
}

#[test]
fn known_nodes_are_not_inferred_again() {
    let mut ctx = TypingContext::new(vec![]);
    ctx.infer(NodeId(1), &value_node()).unwrap();
    let other = node("unknown", ProtoNodeInput::Empty, ConstructionArgs::Nodes(vec![]));
    assert_eq!(ctx.infer(NodeId(1), &other), Ok(value_io()));
    assert_eq!(ctx.remove_inference(NodeId(1)), Some(value_io()));
    assert_eq!(ctx.type_of(NodeId(1)), None);
    assert_eq!(ctx.remove_inference(NodeId(1)), None);
}

#[test]
fn missing_argument_node_is_reported() {
    let mut ctx = TypingContext::new(vec![]);
    let mut n = node("add", ProtoNodeInput::Empty, ConstructionArgs::Nodes(vec![(NodeId(5), false)]));
    n.original_location.path = Some(vec![NodeId(8), NodeId(9)]);
    let errors = ctx.infer(NodeId(1), &n).unwrap_err();
    assert_eq!(
        errors,
        vec![GraphError { node_path: vec![NodeId(8), NodeId(9)], identifier: "add".to_string(), error: GraphErrorType::NodeNotFound(NodeId(5)) }]
    );
    assert_eq!(ctx.type_of(NodeId(1)), None);
}

#[test]
fn missing_input_node_is_reported() {
    let mut ctx = TypingContext::new(vec![]);
    let n = node("add", ProtoNodeInput::Node(NodeId(9)), ConstructionArgs::Nodes(vec![]));
    let errors = ctx.infer(NodeId(1), &n).unwrap_err();
    assert_eq!(errors.len(), 1);
    assert_eq!(errors[0].error, GraphErrorType::InputNodeNotFound(NodeId(9)));
    assert_eq!(errors[0].node_path, vec![]);
}

#[test]
fn unregistered_identifier_has_no_implementations() {
    let mut ctx = TypingContext::new(vec![]);
    let n = node("add", ProtoNodeInput::Empty, ConstructionArgs::Nodes(vec![]));
    let errors = ctx.infer(NodeId(1), &n).unwrap_err();
    assert_eq!(errors[0].error, GraphErrorType::NoImplementations);
}

#[test]
fn generic_function_inputs_are_rejected() {
    let lookup = vec![(ProtoNodeIdentifier::new("map"), vec![(io(concrete("()"), concrete("()"), vec![]), NodeConstructor(1))])];
    let mut ctx = TypingContext::new(lookup);
    let inline = InlineRust { expr: "x".to_string(), ty: func(concrete("()"), generic("T")) };
    let n = node("map", ProtoNodeInput::Empty, ConstructionArgs::Inline(inline));
    let errors = ctx.infer(NodeId(1), &n).unwrap_err();
    assert_eq!(errors[0].error, GraphErrorType::UnexpectedGenerics { index: 0, inputs: vec![func(concrete("()"), generic("T"))] });
}

#[test]
fn single_implementation_is_chosen() {
    let add = io(concrete("u32"), concrete("u32"), vec![func(concrete("graphene_core::context::Context"), Type::Future(Box::new(concrete("u32"))))]);
    let lookup = vec![(ProtoNodeIdentifier::new("add"), vec![(add.clone(), NodeConstructor(7))])];
    let mut ctx = TypingContext::new(lookup);
    ctx.infer(NodeId(1), &value_node()).unwrap();
    let n = node("add", ProtoNodeInput::ManualComposition(concrete("u32")), ConstructionArgs::Nodes(vec![(NodeId(1), false)]));
    assert_eq!(ctx.infer(NodeId(2), &n), Ok(add.clone()));
    assert_eq!(ctx.type_of(NodeId(2)), Some(&add));
    assert_eq!(ctx.constructor(NodeId(2)), Some(NodeConstructor(7)));
}

#[test]
fn generics_are_substituted() {
    let identity = io(generic("T"), generic("T"), vec![]);
    let lookup = vec![(ProtoNodeIdentifier::new("id"), vec![(identity, NodeConstructor(3))])];
    let mut ctx = TypingContext::new(lookup);
    let n = node("id", ProtoNodeInput::ManualComposition(concrete("f")), ConstructionArgs::Nodes(vec![]));
    assert_eq!(ctx.infer(NodeId(1), &n), Ok(io(concrete("f"), concrete("f"), vec![])));
    assert_eq!(ctx.constructor(NodeId(1)), Some(NodeConstructor(3)));
}

#[test]
fn unit_call_argument_is_preferred_between_two() {
    let first = io(concrete("u32"), concrete("a"), vec![]);
    let second = io(concrete("()"), concrete("b"), vec![]);
    let lookup = vec![(ProtoNodeIdentifier::new("n"), vec![(first, NodeConstructor(1)), (second.clone(), NodeConstructor(2))])];
    let mut ctx = TypingContext::new(lookup);
    let n = node("n", ProtoNodeInput::ManualComposition(generic("X")), ConstructionArgs::Nodes(vec![]));
    assert_eq!(ctx.infer(NodeId(1), &n), Ok(second));
    assert_eq!(ctx.constructor(NodeId(1)), Some(NodeConstructor(2)));
}

#[test]
fn several_implementations_are_ambiguous() {
    let first = io(concrete("u32"), concrete("a"), vec![]);
    let second = io(concrete("u32"), concrete("b"), vec![]);
    let lookup = vec![(ProtoNodeIdentifier::new("n"), vec![(first.clone(), NodeConstructor(1)), (second.clone(), NodeConstructor(2))])];
    let mut ctx = TypingContext::new(lookup);
    let n = node("n", ProtoNodeInput::ManualComposition(concrete("u32")), ConstructionArgs::Nodes(vec![]));
    let errors = ctx.infer(NodeId(1), &n).unwrap_err();
    assert_eq!(errors[0].error, GraphErrorType::MultipleImplementations { inputs: "u32".to_string(), valid: vec![first, second] });
    assert_eq!(ctx.type_of(NodeId(1)), None);
}

#[test]
fn mismatched_implementations_are_listed() {
    let wanted = io(concrete("u32"), concrete("a"), vec![]);
    let lookup = vec![(ProtoNodeIdentifier::new("n"), vec![(wanted, NodeConstructor(1))])];
    let mut ctx = TypingContext::new(lookup);
    let n = node("n", ProtoNodeInput::ManualComposition(concrete("bool")), ConstructionArgs::Nodes(vec![]));
    let errors = ctx.infer(NodeId(1), &n).unwrap_err();
    assert_eq!(
        errors[0].error,
        GraphErrorType::InvalidImplementations { inputs: String::new(), error_inputs: vec![vec![(0, (concrete("bool"), concrete("u32")))]] }
    );
}

#[test]
fn update_types_a_network_in_order() {
    let add = io(concrete("u32"), concrete("u32"), vec![func(concrete("graphene_core::context::Context"), Type::Future(Box::new(concrete("u32"))))]);
    let lookup = vec![(ProtoNodeIdentifier::new("add"), vec![(add.clone(), NodeConstructor(7))])];
    let mut ctx = TypingContext::new(lookup);
    let network = ProtoNetwork {
        inputs: vec![],
        output: NodeId(1),
        nodes: vec![
            (NodeId(0), value_node()),
            (NodeId(1), node("add", ProtoNodeInput::ManualComposition(concrete("u32")), ConstructionArgs::Nodes(vec![(NodeId(0), false)]))),
        ],
    };
    assert_eq!(ctx.update(&network), Ok(()));
    assert_eq!(ctx.type_of(NodeId(0)), Some(&value_io()));
    assert_eq!(ctx.type_of(NodeId(1)), Some(&add));

    let mut fresh = TypingContext::new(vec![]);
    let broken = ProtoNetwork {
        inputs: vec![],
        output: NodeId(2),
        nodes: vec![
            (NodeId(0), value_node()),
            (NodeId(1), node("missing", ProtoNodeInput::Empty, ConstructionArgs::Nodes(vec![]))),
            (NodeId(2), value_node()),
        ],
    };
    let errors = fresh.update(&broken).unwrap_err();
    assert_eq!(errors.len(), 1);
    assert_eq!(errors[0].identifier, "missing");
    assert_eq!(errors[0].error, GraphErrorType::NoImplementations);
    assert_eq!(fresh.type_of(NodeId(0)), Some(&value_io()));
    assert_eq!(fresh.type_of(NodeId(2)), None);
}

#[test]
fn valid_type_rules() {
    assert!(is_valid_type(&concrete("u32"), &concrete("u32")));
    assert!(!is_valid_type(&concrete("u32"), &concrete("u64")));
    assert!(is_valid_type(&generic("T"), &concrete("u64")));
    assert!(is_valid_type(&concrete("u64"), &generic("T")));
    assert!(is_valid_type(&Type::Future(Box::new(concrete("a"))), &Type::Future(Box::new(concrete("a")))));
    assert!(!is_valid_type(&Type::Future(Box::new(concrete("a"))), &concrete("a")));
    assert!(is_valid_type(&func(concrete("a"), concrete("b")), &func(concrete("a"), concrete("b"))));
    assert!(!is_valid_type(&func(concrete("a"), concrete("b")), &func(concrete("a"), concrete("c"))));
}

#[test]
fn generics_are_collected_without_adjacent_repeats() {
    let types = io(generic("T"), generic("T"), vec![func(concrete("()"), generic("U")), generic("U")]);
    assert_eq!(collect_generics(&types), vec!["T".to_string(), "U".to_string(), "T".to_string()]);
    let types = io(generic("T"), generic("U"), vec![Type::Future(Box::new(generic("T")))]);
    assert_eq!(collect_generics(&types), vec!["T".to_string(), "U".to_string()]);
    let types = io(concrete("()"), generic("V"), vec![]);
    assert_eq!(collect_generics(&types), vec!["V".to_string()]);
}

#[test]
fn generic_bindings_are_checked() {
    let types = io(generic("T"), generic("T"), vec![func(concrete("()"), generic("T"))]);
    let params = vec![func(concrete("()"), concrete("u32"))];
    assert_eq!(check_generic(&types, &concrete("u32"), &params, &"T".to_string()), Ok(concrete("u32")));
    assert_eq!(
        check_generic(&types, &concrete("u64"), &params, &"T".to_string()),
        Err("Generic output type T is dependent on multiple inputs or parameters".to_string())
    );
    assert_eq!(
        check_generic(&types, &concrete("u64"), &params, &"U".to_string()),
        Err("Generic output type U is not dependent on input u64 or parameters [() → u32]".to_string())
    );
}

#[test]
fn generics_are_replaced() {
    let mut types = io(generic("T"), Type::Future(Box::new(generic("T"))), vec![generic("U"), func(generic("T"), generic("T"))]);
    replace_generics(&mut types, &vec![("T".to_string(), concrete("u8"))]);
    assert_eq!(types, io(concrete("u8"), Type::Future(Box::new(concrete("u8"))), vec![generic("U"), func(generic("T"), concrete("u8"))]));
}

#[test]
fn types_are_written_out() {
    assert_eq!(type_to_string(&func(concrete("a"), Type::Future(Box::new(generic("T"))))), "a → Future<T>");
}

#[test]
fn error_descriptions() {
    assert_eq!(GraphErrorType::NodeNotFound(NodeId(5)).description(), "Input node 5 is not present in the typing context");
    assert_eq!(GraphErrorType::InputNodeNotFound(NodeId(12)).description(), "Input node 12 is not present in the typing context");
    assert_eq!(
        GraphErrorType::UnexpectedGenerics { index: 0, inputs: vec![func(concrete("()"), generic("T"))] }.description(),
        "Generic inputs should not exist but found at 0: [() → T]"
    );
    assert_eq!(GraphErrorType::NoImplementations.description(), "No implementations found");
    assert_eq!(GraphErrorType::NoConstructor.description(), "No construct found for node");
}

#[test]
fn invalid_implementations_are_described_in_sorted_order() {
    let error = GraphErrorType::InvalidImplementations {
        inputs: "• Input 1: u32".to_string(),
        error_inputs: vec![
            vec![(1, (concrete("bool"), concrete("u32")))],
            vec![(0, (concrete("a"), concrete("b"))), (2, (concrete("c"), concrete("d")))],
        ],
    };
    assert_eq!(
        error.description(),
        "These input types are incompatible:\n\
         • Input 1:\n…found:       a\n…expected: b\n\
         • Input 3:\n…found:       c\n…expected: d\n\
         • Input 2:\n…found:       bool\n…expected: u32\n\
         \n\
         The node is currently receiving all of the following input types:\n\
         • Input 1: u32\n\
         This is not a supported arrangement of types for the node."
    );
    let single = GraphErrorType::InvalidImplementations { inputs: String::new(), error_inputs: vec![vec![(0, (concrete("bool"), concrete("u32")))]] };
    assert_eq!(
        single.description(),
        "This input type is incompatible:\n\
         • Input 1:\n…found:       bool\n…expected: u32\n\
         \n\
         The node is currently receiving all of the following input types:\n\
         \n\
         This is not a supported arrangement of types for the node."
    );
}

#[test]
fn multiple_implementations_are_listed() {
    let error = GraphErrorType::MultipleImplementations {
        inputs: "u32".to_string(),
        valid: vec![io(concrete("u32"), concrete("a"), vec![]), io(concrete("u32"), concrete("b"), vec![concrete("x")])],
    };
    assert_eq!(error.description(), "Multiple implementations found (u32):\n[\n    node(u32) → a,\n    node(u32, x) → b,\n]");
    let none = GraphErrorType::MultipleImplementations { inputs: String::new(), valid: vec![] };
    assert_eq!(none.description(), "Multiple implementations found ():\n[]");
}

#[test]
fn graph_error_description() {
    let error = GraphError { node_path: vec![NodeId(1), NodeId(2)], identifier: "a\"b".to_string(), error: GraphErrorType::NoImplementations };
    assert_eq!(error.description(), "NodeGraphError { path: [1, 2], identifier: \"a\\\"b\", error: No implementations found }");
    let n = node("add", ProtoNodeInput::Empty, ConstructionArgs::Nodes(vec![]));
    let error = GraphError::new(&n, GraphErrorType::NoConstructor);
    assert_eq!(error.description(), "NodeGraphError { path: [], identifier: \"add\", error: No construct found for node }");
}

#[test]
fn signature_description() {
    assert_eq!(io(concrete("()"), Type::Future(Box::new(concrete("u32"))), vec![generic("T"), concrete("bool")]).description(), "node((), T, bool) → Future<u32>");
}

#[test]
fn removing_an_inference_forgets_type_and_constructor() {
    let add = io(concrete("u32"), concrete("u32"), vec![]);
    let lookup = vec![(ProtoNodeIdentifier::new("add"), vec![(add.clone(), NodeConstructor(7))])];
    let mut ctx = TypingContext::new(lookup);
    let n = node("add", ProtoNodeInput::ManualComposition(concrete("u32")), ConstructionArgs::Nodes(vec![]));
    assert_eq!(ctx.infer(NodeId(4), &n), Ok(add.clone()));
    assert_eq!(ctx.infer(NodeId(4), &value_node()), Ok(add.clone()));
    assert_eq!(ctx.remove_inference(NodeId(4)), Some(add));
    assert_eq!(ctx.type_of(NodeId(4)), None);
    assert_eq!(ctx.constructor(NodeId(4)), None);
}

#[test]
fn a_constructor_is_recorded_only_with_a_type() {
    let add = io(concrete("u32"), concrete("u32"), vec![]);
    let lookup = vec![(ProtoNodeIdentifier::new("add"), vec![(add.clone(), NodeConstructor(7))])];
    let mut ctx = TypingContext::new(lookup);
    let n = node("add", ProtoNodeInput::ManualComposition(concrete("u32")), ConstructionArgs::Nodes(vec![]));
    ctx.infer(NodeId(4), &n).unwrap();
    ctx.infer(NodeId(1), &value_node()).unwrap();
    assert_eq!(ctx.constructor(NodeId(4)), Some(NodeConstructor(7)));
    assert_eq!(ctx.type_of(NodeId(4)), Some(&add));
    assert_eq!(ctx.constructor(NodeId(1)), None);
    assert!(ctx.type_of(NodeId(1)).is_some());
    let copy = ctx.clone();
    assert_eq!(copy.constructor(NodeId(4)), Some(NodeConstructor(7)));
    assert_eq!(copy.type_of(NodeId(4)), Some(&add));
    ctx.remove_inference(NodeId(4));
    assert_eq!(copy.constructor(NodeId(4)), Some(NodeConstructor(7)));
    assert_eq!(ctx.constructor(NodeId(4)), None);
    let empty = TypingContext::default();
    assert_eq!(empty.constructor(NodeId(4)), None);
    assert_eq!(empty.type_of(NodeId(4)), None);
}

#[test]
fn identifiers_are_quoted_as_debug_writes_them() {
    let error = GraphError { node_path: vec![], identifier: "a\u{1}é'\u{301}\t".to_string(), error: GraphErrorType::NoImplementations };
    assert_eq!(error.description(), "NodeGraphError { path: [], identifier: \"a\\u{1}é'\\u{301}\\t\", error: No implementations found }");
    assert_eq!(error.description(), format!("NodeGraphError {{ path: [], identifier: {:?}, error: No implementations found }}", error.identifier));
}

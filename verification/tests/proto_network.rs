use graph_craft_proto::{ConstructionArgs, NodeId, ProtoNetwork, ProtoNode, ProtoNodeIdentifier, ProtoNodeInput, TaggedValue, Type};

fn test_network() -> ProtoNetwork {
    ProtoNetwork {
        inputs: vec![NodeId(10)],
        output: NodeId(1),
        nodes: vec![
            (
                NodeId(7),
                ProtoNode {
                    identifier: ProtoNodeIdentifier::new("id"),
                    input: ProtoNodeInput::Node(NodeId(11)),
                    construction_args: ConstructionArgs::Nodes(vec![]),
                    ..Default::default()
                },
            ),
            (
                NodeId(1),
                ProtoNode {
                    identifier: ProtoNodeIdentifier::new("id"),
                    input: ProtoNodeInput::Node(NodeId(11)),
                    construction_args: ConstructionArgs::Nodes(vec![]),
                    ..Default::default()
                },
            ),
            (
                NodeId(10),
                ProtoNode {
                    identifier: ProtoNodeIdentifier::new("cons"),
                    input: ProtoNodeInput::ManualComposition(Type::concrete("u32")),
                    construction_args: ConstructionArgs::Nodes(vec![(NodeId(14), false)]),
                    ..Default::default()
                },
            ),
            (
                NodeId(11),
                ProtoNode {
                    identifier: ProtoNodeIdentifier::new("add"),
                    input: ProtoNodeInput::Node(NodeId(10)),
                    construction_args: ConstructionArgs::Nodes(vec![]),
                    ..Default::default()
                },
            ),
            (
                NodeId(14),
                ProtoNode {
                    identifier: ProtoNodeIdentifier::new("value"),
                    input: ProtoNodeInput::Empty,
                    construction_args: ConstructionArgs::Value(TaggedValue::U32(2)),
                    ..Default::default()
                },
            ),
        ],
    }
}

fn test_network_with_cycles() -> ProtoNetwork {
    ProtoNetwork {
        inputs: vec![NodeId(1)],
        output: NodeId(1),
        nodes: vec![
            (
                NodeId(1),
                ProtoNode {
                    identifier: ProtoNodeIdentifier::new("id"),
                    input: ProtoNodeInput::Node(NodeId(2)),
                    construction_args: ConstructionArgs::Nodes(vec![]),
                    ..Default::default()
                },
            ),
            (
                NodeId(2),
                ProtoNode {
                    identifier: ProtoNodeIdentifier::new("id"),
                    input: ProtoNodeInput::Node(NodeId(1)),
                    construction_args: ConstructionArgs::Nodes(vec![]),
                    ..Default::default()
                },
            ),
        ],
    }
}

#[test]
fn topological_sort() {
    let construction_network = test_network();
    let (sorted, _) = construction_network.topological_sort().expect("Error when calling 'topological_sort' on 'construction_network.");
    let sorted: Vec<_> = sorted.iter().map(|x| construction_network.nodes[x.0 as usize].0).collect();
    println!("{sorted:#?}");
    assert_eq!(sorted, vec![NodeId(14), NodeId(10), NodeId(11), NodeId(1)]);
}

#[test]
fn topological_sort_with_cycles() {
    let construction_network = test_network_with_cycles();
    let sorted = construction_network.topological_sort();

    assert!(sorted.is_err())
}

#[test]
fn id_reordering() {
    let mut construction_network = test_network();
    construction_network.reorder_ids().expect("Error when calling 'reorder_ids' on 'construction_network.");
    let (sorted, _) = construction_network.topological_sort().expect("Error when calling 'topological_sort' on 'construction_network.");
    let sorted: Vec<_> = sorted.iter().map(|x| construction_network.nodes[x.0 as usize].0).collect();
    println!("nodes: {:#?}", construction_network.nodes);
    assert_eq!(sorted, vec![NodeId(0), NodeId(1), NodeId(2), NodeId(3)]);
    let ids: Vec<_> = construction_network.nodes.iter().map(|(id, _)| *id).collect();
    println!("{ids:#?}");
    println!("nodes: {:#?}", construction_network.nodes);
    assert_eq!(construction_network.nodes[0].1.identifier.name.as_str(), "value");
    assert_eq!(ids, vec![NodeId(0), NodeId(1), NodeId(2), NodeId(3)]);
}

#[test]
fn id_reordering_idempotent() {
    let mut construction_network = test_network();
    construction_network.reorder_ids().expect("Error when calling 'reorder_ids' on 'construction_network.");
    construction_network.reorder_ids().expect("Error when calling 'reorder_ids' on 'construction_network.");
    let (sorted, _) = construction_network.topological_sort().expect("Error when calling 'topological_sort' on 'construction_network.");
    assert_eq!(sorted, vec![NodeId(0), NodeId(1), NodeId(2), NodeId(3)]);
    let ids: Vec<_> = construction_network.nodes.iter().map(|(id, _)| *id).collect();
    println!("{ids:#?}");
    assert_eq!(construction_network.nodes[0].1.identifier.name.as_str(), "value");
    assert_eq!(ids, vec![NodeId(0), NodeId(1), NodeId(2), NodeId(3)]);
}

#[test]
fn input_resolution() {
    let mut construction_network = test_network();
    construction_network.resolve_inputs().expect("Error when calling 'resolve_inputs' on 'construction_network.");
    println!("{construction_network:#?}");
    assert_eq!(construction_network.nodes[0].1.identifier.name.as_str(), "value");
    assert_eq!(construction_network.nodes.len(), 6);
    assert_eq!(construction_network.nodes[5].1.construction_args, ConstructionArgs::Nodes(vec![(NodeId(3), false), (NodeId(4), true)]));
}

// Further cases on the same networks.

#[test]
fn topological_sort_maps_ids_to_positions() {
    let construction_network = test_network();
    let (_, id_map) = construction_network.topological_sort().unwrap();
    assert_eq!(id_map.len(), 5);
    assert_eq!(id_map.get(&NodeId(7)), Some(&0));
    assert_eq!(id_map.get(&NodeId(1)), Some(&1));
    assert_eq!(id_map.get(&NodeId(14)), Some(&4));
    assert_eq!(id_map.get(&NodeId(3)), None);
}

#[test]
fn topological_sort_cycle_message() {
    let construction_network = test_network_with_cycles();
    let err = construction_network.topological_sort().unwrap_err();
    assert!(err == "Cycle detected involving node 1" || err == "Cycle detected involving node 2", "{err}");
}

#[test]
fn reorder_ids_on_cycle_leaves_network_unchanged() {
    let mut construction_network = test_network_with_cycles();
    let before = construction_network.clone();
    assert!(construction_network.reorder_ids().is_err());
    assert_eq!(construction_network, before);
}

#[test]
fn reorder_ids_drops_unused_nodes_and_renumbers() {
    let mut construction_network = test_network();
    construction_network.reorder_ids().unwrap();
    assert_eq!(construction_network.nodes.len(), 4);
    assert_eq!(construction_network.output, NodeId(3));
    assert_eq!(construction_network.inputs, vec![NodeId(1)]);
    assert_eq!(construction_network.nodes[1].1.construction_args, ConstructionArgs::Nodes(vec![(NodeId(0), false)]));
    assert_eq!(construction_network.nodes[2].1.input, ProtoNodeInput::Node(NodeId(1)));
    assert_eq!(construction_network.nodes[3].1.input, ProtoNodeInput::Node(NodeId(2)));
    assert!(construction_network.is_topologically_sorted());
}

#[test]
fn unsorted_network_is_not_topologically_sorted() {
    let construction_network = ProtoNetwork {
        inputs: vec![],
        output: NodeId(0),
        nodes: vec![
            (NodeId(0), ProtoNode { input: ProtoNodeInput::Node(NodeId(1)), construction_args: ConstructionArgs::Nodes(vec![]), ..Default::default() }),
            (NodeId(1), ProtoNode::default()),
        ],
    };
    assert!(!construction_network.is_topologically_sorted());
}

#[test]
fn input_resolution_inserts_compose_nodes() {
    let mut construction_network = test_network();
    construction_network.resolve_inputs().unwrap();
    let names: Vec<&str> = construction_network.nodes.iter().map(|(_, n)| n.identifier.name.as_str()).collect();
    assert_eq!(names, vec!["value", "cons", "add", "graphene_core::structural::ComposeNode", "id", "graphene_core::structural::ComposeNode"]);
    let ids: Vec<NodeId> = construction_network.nodes.iter().map(|(id, _)| *id).collect();
    assert_eq!(ids, vec![NodeId(0), NodeId(1), NodeId(2), NodeId(3), NodeId(4), NodeId(5)]);
    assert_eq!(construction_network.output, NodeId(5));
    assert_eq!(construction_network.nodes[3].1.construction_args, ConstructionArgs::Nodes(vec![(NodeId(1), false), (NodeId(2), true)]));
    assert_eq!(construction_network.nodes[3].1.input, ProtoNodeInput::ManualComposition(Type::concrete("u32")));
    assert_eq!(construction_network.nodes[4].1.input, ProtoNodeInput::Node(NodeId(3)));
    assert!(construction_network.is_topologically_sorted());
}

#[test]
fn input_resolution_with_cycles_fails() {
    let mut construction_network = test_network_with_cycles();
    assert!(construction_network.resolve_inputs().is_err());
}

#[test]
fn stable_node_ids_replace_position_ids() {
    let mut construction_network = test_network();
    construction_network.resolve_inputs().unwrap();
    let expected: Vec<NodeId> = construction_network.nodes.iter().map(|(_, n)| n.stable_node_id().unwrap()).collect();
    construction_network.generate_stable_node_ids();
    assert_eq!(construction_network.nodes[0].1.identifier.name.as_str(), "value");
    let ids: Vec<NodeId> = construction_network.nodes.iter().map(|(id, _)| *id).collect();
    // The first node refers to no other node, so its id is its stable id as it was.
    assert_eq!(ids[0], expected[0]);
    assert_ne!(ids, vec![NodeId(0), NodeId(1), NodeId(2), NodeId(3), NodeId(4), NodeId(5)]);
    assert_eq!(construction_network.output, ids[5]);
    for (id, node) in &construction_network.nodes {
        assert_eq!(node.stable_node_id(), Some(*id));
    }
}

#[test]
fn stable_node_id_depends_on_the_node() {
    let a = ProtoNode::default();
    let mut b = ProtoNode::default();
    b.identifier = ProtoNodeIdentifier::new("other");
    assert_eq!(a.stable_node_id(), a.clone().stable_node_id());
    assert_ne!(a.stable_node_id(), b.stable_node_id());
    let mut c = ProtoNode::default();
    c.original_location.path = Some(vec![NodeId(3)]);
    assert_eq!(a.stable_node_id(), c.stable_node_id());
    c.skip_deduplication = true;
    assert_ne!(a.stable_node_id(), c.stable_node_id());
}

#[test]
fn outwards_and_inwards_edges() {
    let construction_network = test_network();
    let outwards = construction_network.collect_outwards_edges();
    assert_eq!(outwards.get(&11), Some(&vec![NodeId(7), NodeId(1)]));
    assert_eq!(outwards.get(&10), Some(&vec![NodeId(11)]));
    assert_eq!(outwards.get(&14), Some(&vec![NodeId(10)]));
    assert_eq!(outwards.get(&1), None);
    let inwards = construction_network.collect_inwards_edges();
    assert_eq!(inwards.get(&7), Some(&vec![NodeId(11)]));
    assert_eq!(inwards.get(&10), Some(&vec![NodeId(14)]));
    assert_eq!(inwards.get(&14), None);
}

#[test]
fn replace_node_id_redirects_references() {
    let mut construction_network = test_network();
    construction_network.reorder_ids().unwrap();
    let outwards = construction_network.collect_outwards_edges();
    assert_eq!(outwards.get(&1), Some(&vec![NodeId(2)]));
    construction_network.replace_node_id(&outwards, NodeId(1), NodeId(20), false);
    assert_eq!(construction_network.nodes[2].1.input, ProtoNodeInput::Node(NodeId(20)));
    assert_eq!(construction_network.nodes[3].1.input, ProtoNodeInput::Node(NodeId(2)));
    assert_eq!(construction_network.inputs, vec![NodeId(20)]);
    assert_eq!(construction_network.output, NodeId(3));
    construction_network.replace_node_id(&outwards, NodeId(3), NodeId(30), false);
    assert_eq!(construction_network.output, NodeId(30));
}

#[test]
fn map_ids_skips_lambdas_when_asked() {
    let mut node = ProtoNode {
        input: ProtoNodeInput::NodeLambda(NodeId(2)),
        construction_args: ConstructionArgs::Nodes(vec![(NodeId(3), false), (NodeId(4), true)]),
        ..Default::default()
    };
    let mut skipped = node.clone();
    node.map_ids(|id| NodeId(id.0 + 10), false);
    assert_eq!(node.input, ProtoNodeInput::NodeLambda(NodeId(12)));
    assert_eq!(node.construction_args, ConstructionArgs::Nodes(vec![(NodeId(13), false), (NodeId(14), true)]));
    skipped.map_ids(|id| NodeId(id.0 + 10), true);
    assert_eq!(skipped.input, ProtoNodeInput::NodeLambda(NodeId(2)));
    assert_eq!(skipped.construction_args, ConstructionArgs::Nodes(vec![(NodeId(13), false), (NodeId(4), true)]));
    assert_eq!(skipped.unwrap_construction_nodes(), vec![(NodeId(13), false), (NodeId(4), true)]);
}

#[test]
fn value_node_is_called_with_the_context() {
    let node = ProtoNode::value(ConstructionArgs::Nodes(vec![(NodeId(1), false), (NodeId(2), true)]), vec![NodeId(5)]);
    assert_eq!(node.identifier.name.as_str(), "graphene_core::value::ClonedNode");
    assert_eq!(node.input, ProtoNodeInput::ManualComposition(Type::concrete("graphene_core::context::Context")));
    assert_eq!(node.original_location.path, Some(vec![NodeId(5)]));
    assert_eq!(node.original_location.inputs_exposed, vec![false, false, false]);
    assert!(!node.skip_deduplication);
    let node = ProtoNode::value(ConstructionArgs::Value(TaggedValue::Bool(true)), vec![]);
    assert_eq!(node.original_location.inputs_exposed, vec![false, false]);
}

#[test]
fn new_function_args_names() {
    let args = ConstructionArgs::Nodes(vec![(NodeId(255), false), (NodeId(0), true), (NodeId(4096), false)]);
    assert_eq!(args.new_function_args(), vec!["nff".to_string(), "n0".to_string(), "n1000".to_string()]);
    assert_eq!(ConstructionArgs::Value(TaggedValue::U32(42)).new_function_args(), vec!["42_u32".to_string()]);
    assert_eq!(ConstructionArgs::Value(TaggedValue::U64(7)).new_function_args(), vec!["7_u64".to_string()]);
    assert_eq!(ConstructionArgs::Value(TaggedValue::Bool(false)).new_function_args(), vec!["false".to_string()]);
    assert_eq!(ConstructionArgs::Value(TaggedValue::Unit).new_function_args(), vec!["()".to_string()]);
    assert_eq!(ConstructionArgs::Value(TaggedValue::String("hi".to_string())).new_function_args(), vec!["\"hi\"".to_string()]);
}

#[test]
fn default_node_is_the_identity() {
    let node = ProtoNode::default();
    assert_eq!(node.identifier.name.as_str(), "graphene_core::ops::IdentityNode");
    assert_eq!(node.construction_args, ConstructionArgs::Value(TaggedValue::U32(0)));
    assert_eq!(node.input, ProtoNodeInput::Empty);
    assert_eq!(node.original_location.path, None);
    let network = ProtoNetwork::default();
    assert!(network.nodes.is_empty());
    assert_eq!(network.output, NodeId(0));
}

#[test]
fn listing_follows_construction_arguments() {
    let construction_network = test_network();
    assert_eq!(construction_network.listing().unwrap(), "Proto Network with nodes: Node: id\n{\n\tInput: Node\n}\n");
    let nested = ProtoNetwork {
        inputs: vec![],
        output: NodeId(1),
        nodes: vec![
            (
                NodeId(1),
                ProtoNode {
                    identifier: ProtoNodeIdentifier::new("x"),
                    input: ProtoNodeInput::ManualComposition(Type::concrete("u32")),
                    construction_args: ConstructionArgs::Nodes(vec![(NodeId(2), false), (NodeId(99), true)]),
                    ..Default::default()
                },
            ),
            (
                NodeId(2),
                ProtoNode {
                    identifier: ProtoNodeIdentifier::new("a"),
                    input: ProtoNodeInput::Empty,
                    construction_args: ConstructionArgs::Value(TaggedValue::U32(2)),
                    ..Default::default()
                },
            ),
        ],
    };
    assert_eq!(
        nested.listing().unwrap(),
        "Proto Network with nodes: Node: x\n{\n\tInput: Manual Composition (type = u32)\n\
         \tNode: a\n\t{\n\t\tInput: None\n\t\tValue construction argument: U32(2)\t}\n\
         \t{{Unknown Node}}}\n"
    );
}

#[test]
fn listing_of_a_node_built_from_itself_does_not_end() {
    let looped = ProtoNetwork {
        inputs: vec![],
        output: NodeId(1),
        nodes: vec![(
            NodeId(1),
            ProtoNode {
                identifier: ProtoNodeIdentifier::new("x"),
                construction_args: ConstructionArgs::Nodes(vec![(NodeId(1), false)]),
                ..Default::default()
            },
        )],
    };
    assert_eq!(looped.listing(), None);
    let unknown = ProtoNetwork { inputs: vec![], output: NodeId(4), nodes: vec![] };
    assert_eq!(unknown.listing(), Some("Proto Network with nodes: {{Unknown Node}}".to_string()));
}

#[test]
fn outwards_and_inwards_edges_are_inverse() {
    let construction_network = test_network();
    let outwards = construction_network.collect_outwards_edges();
    let inwards = construction_network.collect_inwards_edges();
    let ids = [1u64, 7, 10, 11, 14];
    for &r in &ids {
        for &x in &ids {
            let out_has = outwards.get(&r).map_or(false, |v| v.contains(&NodeId(x)));
            let in_has = inwards.get(&x).map_or(false, |v| v.contains(&NodeId(r)));
            assert_eq!(out_has, in_has, "{r} {x}");
        }
    }
}

#[test]
fn example_network_has_one_default_node() {
    let (network, id, node) = ProtoNetwork::example();
    assert_eq!(id, NodeId(1));
    assert_eq!(network.inputs, vec![NodeId(1)]);
    assert_eq!(network.output, NodeId(1));
    assert_eq!(network.nodes, vec![(NodeId(1), node.clone())]);
    assert_eq!(node, ProtoNode::default());
}

#[test]
fn reordering_twice_differs_when_reached_ids_are_shared() {
    // Two nodes share id 5; the output depends on that id, and both have references.
    let mut network = ProtoNetwork {
        inputs: vec![],
        output: NodeId(9),
        nodes: vec![
            (NodeId(5), ProtoNode { construction_args: ConstructionArgs::Nodes(vec![(NodeId(1), false)]), ..Default::default() }),
            (NodeId(1), ProtoNode::default()),
            (NodeId(5), ProtoNode { construction_args: ConstructionArgs::Nodes(vec![(NodeId(2), false)]), ..Default::default() }),
            (NodeId(2), ProtoNode::default()),
            (NodeId(9), ProtoNode { construction_args: ConstructionArgs::Nodes(vec![(NodeId(5), false)]), ..Default::default() }),
        ],
    };
    network.reorder_ids().unwrap();
    assert_eq!(network.nodes.len(), 4);
    network.reorder_ids().unwrap();
    assert_eq!(network.nodes.len(), 3);
}

#[test]
fn stable_node_id_generation() {
    let mut construction_network = test_network();
    construction_network.resolve_inputs().expect("Error when calling 'resolve_inputs' on 'construction_network.");
    construction_network.generate_stable_node_ids();
    assert_eq!(construction_network.nodes[0].1.identifier.name.as_str(), "value");
    let ids: Vec<_> = construction_network.nodes.iter().map(|(id, _)| *id).collect();
    // The values of the ids are hashes; what holds whatever they are:
    assert_eq!(ids.len(), 6);
    for (id, node) in &construction_network.nodes {
        assert_eq!(node.stable_node_id(), Some(*id));
    }
    assert_eq!(construction_network.output, ids[5]);
    assert_eq!(construction_network.nodes[5].1.construction_args, ConstructionArgs::Nodes(vec![(ids[3], false), (ids[4], true)]));
}

#[test]
fn reordering_twice_agrees_when_shared_ids_have_the_same_references() {
    // Two nodes share id 5 and refer to the same node: the second reorder changes nothing.
    let mut network = ProtoNetwork {
        inputs: vec![],
        output: NodeId(9),
        nodes: vec![
            (NodeId(5), ProtoNode { construction_args: ConstructionArgs::Nodes(vec![(NodeId(1), false)]), ..Default::default() }),
            (NodeId(1), ProtoNode::default()),
            (NodeId(5), ProtoNode { construction_args: ConstructionArgs::Nodes(vec![(NodeId(1), false)]), ..Default::default() }),
            (NodeId(9), ProtoNode { construction_args: ConstructionArgs::Nodes(vec![(NodeId(5), false)]), ..Default::default() }),
        ],
    };
    network.reorder_ids().unwrap();
    let once = network.clone();
    network.reorder_ids().unwrap();
    assert_eq!(network, once);
}

#[test]
fn mapping_ids_twice_is_mapping_by_the_composition() {
    let node = ProtoNode {
        input: ProtoNodeInput::NodeLambda(NodeId(3)),
        construction_args: ConstructionArgs::Nodes(vec![(NodeId(1), false), (NodeId(2), true)]),
        ..Default::default()
    };
    for skip in [false, true] {
        let mut a = node.clone();
        a.map_ids(|x| NodeId(x.0 + 10), skip);
        a.map_ids(|x| NodeId(x.0 * 2), skip);
        let mut b = node.clone();
        b.map_ids(|x| NodeId((x.0 + 10) * 2), skip);
        assert_eq!(a, b);
        let mut c = node.clone();
        c.map_ids(|x| x, skip);
        assert_eq!(c, node);
    }
    let mut d = node.clone();
    d.map_ids(|x| NodeId(x.0 + 10), false);
    assert_eq!(d.input, ProtoNodeInput::NodeLambda(NodeId(13)));
    assert_eq!(d.construction_args, ConstructionArgs::Nodes(vec![(NodeId(11), false), (NodeId(12), true)]));
}

#[test]
fn inwards_and_outwards_edges_have_the_same_counts() {
    let network = ProtoNetwork {
        inputs: vec![],
        output: NodeId(3),
        nodes: vec![
            (NodeId(1), ProtoNode::default()),
            (NodeId(2), ProtoNode { input: ProtoNodeInput::Node(NodeId(1)), ..Default::default() }),
            (
                NodeId(3),
                ProtoNode {
                    input: ProtoNodeInput::Node(NodeId(1)),
                    construction_args: ConstructionArgs::Nodes(vec![(NodeId(1), false), (NodeId(2), true)]),
                    ..Default::default()
                },
            ),
        ],
    };
    let outwards = network.collect_outwards_edges();
    let inwards = network.collect_inwards_edges();
    assert_eq!(inwards.get(&3), Some(&vec![NodeId(1), NodeId(1), NodeId(2)]));
    assert_eq!(inwards.get(&1), None);
    for r in 1..=3u64 {
        for x in 1..=3u64 {
            let n_in = inwards.get(&x).map_or(0, |v| v.iter().filter(|y| **y == NodeId(r)).count());
            let n_out = outwards.get(&r).map_or(0, |v| v.iter().filter(|y| **y == NodeId(x)).count());
            assert_eq!(n_in, n_out, "{r} {x}");
        }
    }
}

#[test]
fn stable_ids_follow_references_by_id() {
    let mut network = ProtoNetwork {
        inputs: vec![NodeId(5)],
        output: NodeId(6),
        nodes: vec![
            (NodeId(5), ProtoNode::default()),
            (NodeId(6), ProtoNode { input: ProtoNodeInput::Node(NodeId(5)), ..Default::default() }),
        ],
    };
    assert!(network.is_topologically_sorted());
    network.generate_stable_node_ids();
    for (id, node) in &network.nodes {
        assert_eq!(node.stable_node_id(), Some(*id));
    }
    assert_eq!(network.nodes[1].1.input, ProtoNodeInput::Node(network.nodes[0].0));
    assert_eq!(network.output, network.nodes[1].0);
    assert_eq!(network.inputs, vec![network.nodes[0].0]);
}

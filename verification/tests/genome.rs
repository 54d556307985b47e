use rand::Rng;
use snake_neat::neural_net::activation_functions::ActivationFunction;
use snake_neat::neural_net::connections::ConnectionId;
use snake_neat::neural_net::genes::{ConnectionGene, NodeGene};
use snake_neat::neural_net::ids::IdAllocator;
use snake_neat::neural_net::layers::Layer;
use snake_neat::neural_net::mutation::{MutationPlan, WeightSource};
use snake_neat::neural_net::nets::{
    ConnectionIndex, MutationParams, Net, NetId, NetParams, NodeIndex,
};
use snake_neat::neural_net::nodes::NodeId;

const ONE: u32 = 1_000_000;

struct Weights;

impl WeightSource for Weights {
    fn fresh_weight(&mut self) -> u32 {
        (rand::thread_rng().gen::<f32>() * 2.0 - 1.0).to_bits()
    }

    fn perturbed_weight(&mut self, weight: u32, max_magnitude: u32) -> u32 {
        let change = (rand::thread_rng().gen::<f32>() * 2.0 - 1.0) * f32::from_bits(max_magnitude);
        (f32::from_bits(weight) + change).to_bits()
    }
}

fn shape(input_count: usize, output_count: usize) -> NetParams {
    NetParams::from_size(input_count, output_count)
}

fn no_mutation() -> MutationParams {
    MutationParams {
        prob_add_connection: 0,
        prob_add_node: 0,
        prob_mutate_activation_function_of_node: 0,
        prob_mutate_weight: 0,
        max_weight_change_magnitude: 0f32.to_bits(),
        prob_toggle_enabled: 0,
        prob_remove_connection: 0,
        prob_remove_node: 0,
    }
}

fn apply(af: ActivationFunction, x: f32) -> f32 {
    match af {
        ActivationFunction::Identity => x,
        ActivationFunction::Sigmoid => 1.0 / (1.0 + (-x).exp()),
        ActivationFunction::ReLU => {
            if x > 0.0 {
                x
            } else {
                0.0
            }
        }
        ActivationFunction::LReLU => {
            if x >= 0.0 {
                x
            } else {
                0.1 * x
            }
        }
        ActivationFunction::Tanh => x.tanh(),
    }
}

fn evaluate(net: &mut Net<i64>) {
    assert!(net.is_evaluation_order_up_to_date);
    let order = net.evaluation_order().clone();
    for node in order {
        if !net.is_computed(node) {
            continue;
        }
        let mut sum = 0.0f32;
        for (from, weight) in net.incoming_enabled(node) {
            sum += f32::from_bits(net.node_value(from)) * f32::from_bits(weight);
        }
        let af = net.get_node(node).activation_function;
        net.set_node_value(node, apply(af, sum).to_bits());
    }
}

fn outputs(net: &Net<i64>) -> Vec<f32> {
    net.get_outputs().into_iter().map(f32::from_bits).collect()
}

fn position(order: &[NodeIndex], node: NodeIndex) -> Option<usize> {
    order.iter().position(|&n| n == node)
}

fn check_order_and_layers(net: &Net<i64>) {
    assert!(net.is_evaluation_order_up_to_date);
    let order = net.evaluation_order();
    for connection in net.connections.iter() {
        let from = net.get_node(connection.input_node).layer;
        let to = net.get_node(connection.output_node).layer;
        // Every connection leads to a later layer, unless an end is unreachable.
        assert!(
            from.to_number() < to.to_number()
                || from == Layer::Unreachable
                || to == Layer::Unreachable
        );
        if to != Layer::Unreachable {
            assert!(from != Layer::Unreachable);
        }
        // The start of an enabled connection is evaluated before its end.
        if connection.is_enabled {
            if let Some(p) = position(order, connection.output_node) {
                let q = position(order, connection.input_node).unwrap();
                assert!(q < p);
            }
        }
    }
    for i in 0..net.nodes.len() {
        for k in (i + 1)..net.nodes.len() {
            assert!(net.nodes[i].id != net.nodes[k].id);
        }
    }
    for i in 0..net.connections.len() {
        for k in (i + 1)..net.connections.len() {
            assert!(net.connections[i].id != net.connections[k].id);
        }
    }
    for (p, node) in order.iter().enumerate() {
        assert!(position(order, *node) == Some(p));
    }
}

#[test]
fn test_neutral_values() {
    for af in [
        ActivationFunction::Identity,
        ActivationFunction::ReLU,
        ActivationFunction::LReLU,
    ] {
        assert_eq!(1.0, apply(af, f32::from_bits(af.get_neutral_value())));
    }
    for af in [ActivationFunction::Sigmoid, ActivationFunction::Tanh] {
        let v = apply(af, f32::from_bits(af.get_neutral_value()));
        assert!((0.982 - v).abs() < 0.001);
    }
}

#[test]
fn neutral_values_are_the_documented_numbers() {
    assert_eq!(f32::from_bits(ActivationFunction::Identity.get_neutral_value()), 1.0);
    assert_eq!(f32::from_bits(ActivationFunction::ReLU.get_neutral_value()), 1.0);
    assert_eq!(f32::from_bits(ActivationFunction::LReLU.get_neutral_value()), 1.0);
    assert_eq!(f32::from_bits(ActivationFunction::Sigmoid.get_neutral_value()), 4.0);
    assert_eq!(f32::from_bits(ActivationFunction::Tanh.get_neutral_value()), 2.37);
}

#[test]
fn test_choose() {
    let mut found = [false; 5];
    for _ in 0..1000 {
        let i = match ActivationFunction::choose_random() {
            ActivationFunction::Identity => 0,
            ActivationFunction::Sigmoid => 1,
            ActivationFunction::ReLU => 2,
            ActivationFunction::LReLU => 3,
            ActivationFunction::Tanh => 4,
        };
        found[i] = true;
    }
    assert!(found.iter().all(|&b| b));
}

#[test]
fn activation_functions_have_a_fixed_order() {
    let all = [
        ActivationFunction::Identity,
        ActivationFunction::Sigmoid,
        ActivationFunction::ReLU,
        ActivationFunction::LReLU,
        ActivationFunction::Tanh,
    ];
    for (i, af) in all.iter().enumerate() {
        assert_eq!(ActivationFunction::from_index(i), *af);
        assert_eq!(af.to_index(), i);
    }
}

#[test]
fn verify_invariants_on_empty() {
    let mut ids = IdAllocator::new();
    let net = Net::<i64>::new(shape(7, 5), &mut ids);
    assert!(net.verify_invariants());
}

#[test]
fn new_net_has_inputs_then_outputs() {
    let mut ids = IdAllocator::new();
    let net = Net::<i64>::new(shape(3, 2), &mut ids);
    assert_eq!(net.id, NetId(1));
    assert_eq!(net.node_count(), 5);
    assert_eq!(net.connection_count(), 0);
    assert_eq!(net.fitness_info, i64::MIN);
    assert!(!net.is_evaluation_order_up_to_date);
    for i in 0..5 {
        let node = &net.nodes[i];
        assert_eq!(node.index, NodeIndex(NetId(1), i));
        assert_eq!(node.id, NodeId(i + 1));
        assert_eq!(node.value, 0);
        if i < 3 {
            assert_eq!(node.layer, Layer::Input);
            assert_eq!(node.activation_function, ActivationFunction::Identity);
        } else {
            assert_eq!(node.layer, Layer::Output);
            assert_eq!(node.activation_function, ActivationFunction::Sigmoid);
        }
    }
    assert_eq!(ids.next_node, 6);
    assert_eq!(ids.next_net, 2);
    assert_eq!(ids.next_connection, 1);
}

#[test]
fn test_mutations_separately() {
    let mut ids = IdAllocator::new();
    let mut weights = Weights;
    let net = Net::<i64>::new(shape(10, 4), &mut ids);
    assert!(net.verify_invariants());
    let params = no_mutation();
    let mut param_add_connection = params;
    param_add_connection.prob_add_connection = ONE;
    let mut param_add_node = params;
    param_add_node.prob_add_node = ONE;
    let mut param_toggle_enabled = params;
    param_toggle_enabled.prob_toggle_enabled = ONE;
    let mut param_mutate_weight = params;
    param_mutate_weight.prob_mutate_weight = ONE;
    param_mutate_weight.max_weight_change_magnitude = 5.0f32.to_bits();
    let mut param_mutate_af = params;
    param_mutate_af.prob_mutate_activation_function_of_node = ONE;

    let mut net = Net::<i64>::new(shape(10, 4), &mut ids);
    net.mutate_self(&param_add_connection, 1, &mut weights, &mut ids);
    assert!(net.verify_invariants());

    let mut net = Net::<i64>::new(shape(10, 4), &mut ids);
    net.mutate_self(&param_add_node, 1, &mut weights, &mut ids);
    assert!(net.verify_invariants());

    let mut net = Net::<i64>::new(shape(10, 4), &mut ids);
    net.mutate_self(&param_toggle_enabled, 1, &mut weights, &mut ids);
    assert!(net.verify_invariants());

    let mut net = Net::<i64>::new(shape(10, 4), &mut ids);
    net.mutate_self(&param_mutate_weight, 1, &mut weights, &mut ids);
    assert!(net.verify_invariants());

    let mut net = Net::<i64>::new(shape(10, 4), &mut ids);
    net.mutate_self(&param_mutate_af, 1, &mut weights, &mut ids);
    assert!(net.verify_invariants());
}

#[test]
fn test_multiple_mutatations() {
    let mut ids = IdAllocator::new();
    let mut weights = Weights;
    let mut net = Net::<i64>::new(shape(11, 2), &mut ids);
    assert!(net.verify_invariants());
    let params = MutationParams {
        prob_add_connection: 100_000,
        prob_add_node: 100_000,
        prob_mutate_activation_function_of_node: 100_000,
        prob_mutate_weight: 100_000,
        max_weight_change_magnitude: 1.0f32.to_bits(),
        prob_toggle_enabled: 100_000,
        prob_remove_connection: 0,
        prob_remove_node: 0,
    };
    for _ in 0..100 {
        net.mutate_self(&params, 1, &mut weights, &mut ids);
        assert!(net.verify_invariants());
        check_order_and_layers(&net);
    }
}

#[test]
fn test_unconnected_hidden_node() {
    let mut ids = IdAllocator::new();
    let mut net_a = Net::<i64>::new(shape(1, 1), &mut ids);
    assert!(net_a.nodes[0].layer == Layer::Input);
    let _ni_input = NodeIndex(net_a.id, 0);
    assert!(net_a.nodes[1].layer == Layer::Output);
    let ni_output = NodeIndex(net_a.id, 1);
    let ni_ha = net_a.add_node(None, ActivationFunction::LReLU, None, 0f32.to_bits(), &mut ids);
    let _ci_x = net_a.add_connection(None, 1.0f32.to_bits(), false, ni_ha, ni_output, &mut ids);
    let ni_hb = net_a.add_node(None, ActivationFunction::LReLU, None, 0f32.to_bits(), &mut ids);
    let _ci_y = net_a.add_connection(None, 1.0f32.to_bits(), true, ni_ha, ni_hb, &mut ids);
    assert!(net_a.verify_invariants());
    net_a.build_evaluation_order();
    assert!(net_a.verify_invariants());
    // The first hidden node leads to the output over a disabled connection and is placed;
    // the second leads nowhere.
    assert_eq!(net_a.get_node(ni_ha).layer, Layer::Hidden(0));
    assert_eq!(net_a.get_node(ni_hb).layer, Layer::Unreachable);
    // Only the output is evaluated: nothing enabled feeds it.
    assert_eq!(net_a.evaluation_order(), &vec![ni_output]);
}

#[test]
fn single_connection_evaluates_to_sigmoid_of_the_input() {
    let mut ids = IdAllocator::new();
    let mut net = Net::<i64>::new(shape(2, 1), &mut ids);
    let input = NodeIndex(net.id, 0);
    let output = NodeIndex(net.id, 2);
    net.add_connection(None, 1.0f32.to_bits(), true, input, output, &mut ids);
    net.build_evaluation_order();
    net.set_inputs(&[1.0f32.to_bits(), 0.0f32.to_bits()]);
    evaluate(&mut net);
    let out = outputs(&net);
    assert_eq!(out.len(), 1);
    assert_eq!(out[0], 1.0 / (1.0 + (-1.0f32).exp()));
    assert!((out[0] - 0.7311).abs() < 0.0001);
}

#[test]
fn disabled_connection_feeds_nothing() {
    let mut ids = IdAllocator::new();
    let mut net = Net::<i64>::new(shape(2, 1), &mut ids);
    let first = NodeIndex(net.id, 0);
    let second = NodeIndex(net.id, 1);
    let output = NodeIndex(net.id, 2);
    net.add_connection(None, 1.0f32.to_bits(), true, first, output, &mut ids);
    net.add_connection(None, 3.0f32.to_bits(), false, second, output, &mut ids);
    net.build_evaluation_order();
    assert_eq!(net.incoming_enabled(output), vec![(first, 1.0f32.to_bits())]);
    net.set_inputs(&[1.0f32.to_bits(), 5.0f32.to_bits()]);
    evaluate(&mut net);
    assert!((outputs(&net)[0] - 0.7311).abs() < 0.0001);
    // The disabled connection still counts for the layers.
    assert_eq!(net.evaluation_order(), &vec![first, output]);
}

#[test]
fn layers_are_one_more_than_the_deepest_predecessor() {
    let mut ids = IdAllocator::new();
    let mut net = Net::<i64>::new(shape(1, 1), &mut ids);
    let input = NodeIndex(net.id, 0);
    let output = NodeIndex(net.id, 1);
    let a = net.add_node(None, ActivationFunction::Identity, None, 0, &mut ids);
    let b = net.add_node(None, ActivationFunction::Identity, None, 0, &mut ids);
    let c = net.add_node(None, ActivationFunction::Identity, None, 0, &mut ids);
    net.add_connection(None, 1.0f32.to_bits(), true, input, a, &mut ids);
    net.add_connection(None, 1.0f32.to_bits(), true, a, b, &mut ids);
    net.add_connection(None, 1.0f32.to_bits(), false, b, output, &mut ids);
    net.add_connection(None, 1.0f32.to_bits(), true, a, output, &mut ids);
    net.add_connection(None, 1.0f32.to_bits(), true, c, output, &mut ids);
    net.build_evaluation_order();
    assert_eq!(net.get_node(input).layer, Layer::Input);
    assert_eq!(net.get_node(a).layer, Layer::Hidden(1));
    assert_eq!(net.get_node(b).layer, Layer::Hidden(2));
    assert_eq!(net.get_node(c).layer, Layer::Hidden(0));
    assert_eq!(net.get_node(output).layer, Layer::Output);
    // The walk over enabled connections: input, a, then the output's other feeder c.
    assert_eq!(net.evaluation_order(), &vec![input, a, c, output]);
    check_order_and_layers(&net);
    assert!(net.verify_invariants());
}

#[test]
fn build_evaluation_order_twice_changes_nothing() {
    let mut ids = IdAllocator::new();
    let mut weights = Weights;
    let mut net = Net::<i64>::new(shape(4, 2), &mut ids);
    let mut params = no_mutation();
    params.prob_add_connection = ONE;
    params.prob_add_node = ONE;
    for _ in 0..10 {
        net.mutate_self(&params, 1, &mut weights, &mut ids);
    }
    let order = net.evaluation_order().clone();
    let layers: Vec<Layer> = net.nodes.iter().map(|n| n.layer).collect();
    net.build_evaluation_order();
    assert_eq!(net.evaluation_order(), &order);
    assert_eq!(net.nodes.iter().map(|n| n.layer).collect::<Vec<_>>(), layers);
}

#[test]
fn apply_mutation_follows_the_plan() {
    let mut ids = IdAllocator::new();
    let mut net = Net::<i64>::new(shape(2, 1), &mut ids);
    let first = NodeIndex(net.id, 0);
    let second = NodeIndex(net.id, 1);
    let output = NodeIndex(net.id, 2);
    let old = net.add_connection(None, 0.5f32.to_bits(), true, first, output, &mut ids);
    net.build_evaluation_order();
    let plan = MutationPlan {
        activation: Some((output, ActivationFunction::Tanh)),
        weight: Some((old, 0.25f32.to_bits())),
        toggle: None,
        new_connection: Some((second, output, 0.75f32.to_bits())),
        split: Some(old),
    };
    let nodes_before = ids.next_node;
    let connections_before = ids.next_connection;
    net.apply_mutation(&plan, &mut ids);
    assert!(net.verify_invariants());
    assert_eq!(ids.next_node, nodes_before + 1);
    assert_eq!(ids.next_connection, connections_before + 3);
    assert_eq!(net.node_count(), 4);
    assert_eq!(net.connection_count(), 4);
    let middle = NodeIndex(net.id, 3);
    assert_eq!(net.get_node(output).activation_function, ActivationFunction::Tanh);
    // The split connection keeps its new weight and is disabled.
    let c = net.get_connection(old);
    assert_eq!((c.weight, c.is_enabled), (0.25f32.to_bits(), false));
    // The new connection.
    let c = net.get_connection(ConnectionIndex(net.id, 1));
    assert_eq!(c.id, ConnectionId(connections_before));
    assert_eq!((c.input_node, c.output_node), (second, output));
    assert_eq!((c.weight, c.is_enabled), (0.75f32.to_bits(), true));
    // The two halves of the split.
    let c = net.get_connection(ConnectionIndex(net.id, 2));
    assert_eq!(c.id, ConnectionId(connections_before + 1));
    assert_eq!((c.input_node, c.output_node), (first, middle));
    assert_eq!((c.weight, c.is_enabled), (0.25f32.to_bits(), true));
    let c = net.get_connection(ConnectionIndex(net.id, 3));
    assert_eq!(c.id, ConnectionId(connections_before + 2));
    assert_eq!((c.input_node, c.output_node), (middle, output));
    assert_eq!((c.weight, c.is_enabled), (2.37f32.to_bits(), true));
    // The new node has the activation function of the node the old connection ends in.
    let node = net.get_node(middle);
    assert_eq!(node.id, NodeId(nodes_before));
    assert_eq!(node.activation_function, ActivationFunction::Tanh);
    assert_eq!(node.layer, Layer::Hidden(1));
    assert_eq!(node.value, 0);
    check_order_and_layers(&net);
}

#[test]
fn new_connection_between_hidden_nodes_goes_from_the_shallower() {
    let mut ids = IdAllocator::new();
    let mut net = Net::<i64>::new(shape(1, 1), &mut ids);
    let input = NodeIndex(net.id, 0);
    let output = NodeIndex(net.id, 1);
    let a = net.add_node(None, ActivationFunction::Identity, None, 0, &mut ids);
    let b = net.add_node(None, ActivationFunction::Identity, None, 0, &mut ids);
    net.add_connection(None, 1.0f32.to_bits(), true, input, a, &mut ids);
    net.add_connection(None, 1.0f32.to_bits(), true, a, output, &mut ids);
    net.add_connection(None, 1.0f32.to_bits(), true, b, output, &mut ids);
    net.build_evaluation_order();
    assert_eq!(net.get_node(a).layer, Layer::Hidden(1));
    assert_eq!(net.get_node(b).layer, Layer::Hidden(0));
    let mut plan = MutationPlan::nothing();
    plan.new_connection = Some((a, b, 1.0f32.to_bits()));
    net.apply_mutation(&plan, &mut ids);
    let c = net.get_connection(ConnectionIndex(net.id, 3));
    assert_eq!((c.input_node, c.output_node), (b, a));
    assert_eq!(net.get_node(a).layer, Layer::Hidden(1));
    check_order_and_layers(&net);
}

#[test]
fn splitting_a_connection_into_an_identity_node_keeps_the_outputs() {
    let mut ids = IdAllocator::new();
    let mut net = Net::<i64>::new(shape(2, 1), &mut ids);
    let first = NodeIndex(net.id, 0);
    let second = NodeIndex(net.id, 1);
    let output = NodeIndex(net.id, 2);
    let split = net.add_connection(None, 0.7f32.to_bits(), true, first, output, &mut ids);
    net.add_connection(None, (-0.3f32).to_bits(), true, second, output, &mut ids);
    net.build_evaluation_order();
    let mut plan = MutationPlan::nothing();
    plan.activation = Some((output, ActivationFunction::Identity));
    net.apply_mutation(&plan, &mut ids);
    let inputs = [0.9f32.to_bits(), 0.4f32.to_bits()];
    net.set_inputs(&inputs);
    evaluate(&mut net);
    let before = outputs(&net);
    let mut plan = MutationPlan::nothing();
    plan.split = Some(split);
    net.apply_mutation(&plan, &mut ids);
    net.set_inputs(&inputs);
    evaluate(&mut net);
    let after = outputs(&net);
    assert_eq!(before.len(), 1);
    assert!((before[0] - (0.7 * 0.9 - 0.3 * 0.4)).abs() < 1e-6);
    assert!((before[0] - after[0]).abs() < 1e-3);
}

#[test]
fn a_copy_evaluates_to_the_same_bits() {
    let mut ids = IdAllocator::new();
    let mut weights = Weights;
    let mut net = Net::<i64>::new(shape(3, 2), &mut ids);
    let mut params = no_mutation();
    params.prob_add_connection = ONE;
    params.prob_add_node = ONE;
    params.prob_mutate_weight = ONE;
    params.max_weight_change_magnitude = 1.0f32.to_bits();
    for _ in 0..20 {
        net.mutate_self(&params, 1, &mut weights, &mut ids);
    }
    let inputs = [0.25f32.to_bits(), (-1.5f32).to_bits(), 1.0f32.to_bits()];
    let mut copy = net.clone();
    assert!(copy.verify_invariants());
    net.set_inputs(&inputs);
    evaluate(&mut net);
    copy.set_inputs(&inputs);
    evaluate(&mut copy);
    assert_eq!(net.get_outputs(), copy.get_outputs());
    assert_eq!(net.evaluation_order(), copy.evaluation_order());
    assert_eq!(copy.id, net.id);
}

#[test]
fn verify_invariants_finds_a_broken_gene() {
    let mut ids = IdAllocator::new();
    let mut net = Net::<i64>::new(shape(2, 1), &mut ids);
    let first = NodeIndex(net.id, 0);
    let output = NodeIndex(net.id, 2);
    let c = net.add_connection(None, 1.0f32.to_bits(), true, first, output, &mut ids);
    assert!(net.verify_invariants());

    // A node under an identifier that the table does not know.
    let mut broken = net.clone();
    broken.get_node_mut(first).id = NodeId(99);
    assert!(!broken.verify_invariants());

    // Two nodes with one identifier.
    let mut broken = net.clone();
    broken.get_node_mut(first).id = NodeId(2);
    assert!(!broken.verify_invariants());

    // A connection listed twice.
    let mut broken = net.clone();
    broken.get_node_mut(output).input_connections.push(c);
    assert!(!broken.verify_invariants());

    // A connection that is not listed.
    let mut broken = net.clone();
    broken.get_node_mut(output).input_connections.clear();
    assert!(!broken.verify_invariants());

    // A connection into an input.
    let mut broken = net.clone();
    broken.get_connection_mut(c).output_node = first;
    assert!(!broken.verify_invariants());

    // An index of another genome.
    let mut broken = net.clone();
    broken.get_connection_mut(c).input_node = NodeIndex(NetId(77), 0);
    assert!(!broken.verify_invariants());

    // A hidden layer where an input belongs.
    let mut broken = net.clone();
    broken.get_node_mut(first).layer = Layer::Hidden(0);
    assert!(!broken.verify_invariants());

    // Layers that a connection offends, on a genome marked current.
    let mut broken = net.clone();
    broken.build_evaluation_order();
    assert!(broken.verify_invariants());
    let hidden = broken.add_node(None, ActivationFunction::Identity, None, 0, &mut ids);
    broken.add_connection(None, 1.0f32.to_bits(), true, hidden, output, &mut ids);
    broken.add_connection(None, 1.0f32.to_bits(), true, first, hidden, &mut ids);
    broken.build_evaluation_order();
    assert!(broken.verify_invariants());
    broken.get_node_mut(hidden).layer = Layer::Hidden(65535);
    assert!(!broken.verify_invariants());
}

#[test]
fn layer_numbers_and_order() {
    assert_eq!(Layer::Input.to_number(), 0);
    assert_eq!(Layer::Hidden(0).to_number(), 1);
    assert_eq!(Layer::Hidden(7).to_number(), 8);
    assert_eq!(Layer::Output.to_number(), 65536);
    assert_eq!(Layer::Unreachable.to_number(), 65537);
    assert_eq!(Layer::Input.comes_before(Layer::Hidden(0)), Some(true));
    assert_eq!(Layer::Hidden(3).comes_before(Layer::Hidden(3)), Some(false));
    assert_eq!(Layer::Hidden(4).comes_before(Layer::Hidden(3)), Some(false));
    assert_eq!(Layer::Hidden(65535).comes_before(Layer::Output), Some(false));
    assert_eq!(Layer::Output.comes_before(Layer::Input), Some(false));
    assert_eq!(Layer::Unreachable.comes_before(Layer::Output), Some(true));
    assert_eq!(Layer::Unreachable.comes_before(Layer::Input), Some(false));
    assert_eq!(Layer::Unreachable.comes_before(Layer::Hidden(1)), None);
    assert_eq!(Layer::Unreachable.comes_before(Layer::Unreachable), None);
    assert_eq!(Layer::Input.comes_before(Layer::Unreachable), Some(true));
    assert_eq!(Layer::Output.comes_before(Layer::Unreachable), Some(false));
    assert_eq!(Layer::Hidden(1).comes_before(Layer::Unreachable), None);
}

#[test]
fn identifiers_are_handed_out_once() {
    let mut ids = IdAllocator::new();
    let a = NodeId::new_unique(&mut ids);
    let b = NodeId::new_unique(&mut ids);
    let c = ConnectionId::new_unique(&mut ids);
    let d = ConnectionId::new_unique(&mut ids);
    let e = NetId::new_unique(&mut ids);
    let f = NetId::new_unique(&mut ids);
    assert_eq!((a, b), (NodeId(1), NodeId(2)));
    assert_eq!((c, d), (ConnectionId(1), ConnectionId(2)));
    assert_eq!((e, f), (NetId(1), NetId(2)));
    let mut later = IdAllocator::starting_at(10, 20, 30);
    assert_eq!(NodeId::new_unique(&mut later), NodeId(10));
    assert_eq!(ConnectionId::new_unique(&mut later), ConnectionId(20));
    assert_eq!(NetId::new_unique(&mut later), NetId(30));
    assert!(later.check_room(5, 5));
    let full = IdAllocator::starting_at(usize::MAX - 1, usize::MAX, 1);
    assert!(full.check_room(1, 0));
    assert!(!full.check_room(2, 0));
    assert!(!full.check_room(0, 1));
}

#[test]
fn genes_written_down_make_the_same_genome_again() {
    let mut ids = IdAllocator::new();
    let mut weights = Weights;
    let mut net = Net::<i64>::new(shape(3, 2), &mut ids);
    let mut params = no_mutation();
    params.prob_add_connection = ONE;
    params.prob_add_node = ONE;
    params.prob_mutate_weight = ONE;
    params.prob_toggle_enabled = 300_000;
    params.prob_mutate_activation_function_of_node = ONE;
    params.max_weight_change_magnitude = 1.0f32.to_bits();
    for _ in 0..40 {
        net.mutate_self(&params, 1, &mut weights, &mut ids);
    }
    net.fitness_info = 17;
    let nodes = net.node_genes();
    let connections = net.connection_genes();
    let mut again =
        Net::<i64>::from_genes(net.id, net.net_params, &nodes, &connections, net.fitness_info)
            .unwrap();
    assert!(again.verify_invariants());
    assert!(again.is_evaluation_order_up_to_date);
    assert_eq!(again.id, net.id);
    assert_eq!(again.fitness_info, 17);
    assert_eq!(again.node_count(), net.node_count());
    assert_eq!(again.connection_count(), net.connection_count());
    for (a, b) in again.nodes.iter().zip(net.nodes.iter()) {
        assert_eq!(
            (a.index, a.id, a.activation_function, a.layer, &a.input_connections, a.value),
            (b.index, b.id, b.activation_function, b.layer, &b.input_connections, b.value)
        );
    }
    for (a, b) in again.connections.iter().zip(net.connections.iter()) {
        assert_eq!(
            (a.index, a.id, a.input_node, a.output_node, a.weight, a.is_enabled),
            (b.index, b.id, b.input_node, b.output_node, b.weight, b.is_enabled)
        );
    }
    assert_eq!(again.evaluation_order(), net.evaluation_order());
    let inputs = [0.5f32.to_bits(), (-0.75f32).to_bits(), 1.0f32.to_bits()];
    net.set_inputs(&inputs);
    evaluate(&mut net);
    again.set_inputs(&inputs);
    evaluate(&mut again);
    assert_eq!(net.get_outputs(), again.get_outputs());
}

#[test]
fn genes_that_make_no_genome_are_turned_down() {
    let node = |id: usize, layer: Layer| NodeGene {
        id: NodeId(id),
        activation_function: ActivationFunction::Identity,
        layer,
        value: 0,
    };
    let connection = |id: usize, input_node: usize, output_node: usize| ConnectionGene {
        id: ConnectionId(id),
        input_node,
        output_node,
        weight: 1.0f32.to_bits(),
        is_enabled: true,
    };
    let params = shape(1, 1);
    let nodes = vec![
        node(1, Layer::Input),
        node(2, Layer::Output),
        node(3, Layer::Hidden(0)),
        node(4, Layer::Unreachable),
    ];
    let make = |nodes: &Vec<NodeGene>, connections: &Vec<ConnectionGene>| {
        Net::<i64>::from_genes(NetId(9), params, nodes, connections, 0)
    };
    let good = vec![connection(1, 0, 2), connection(2, 2, 3), connection(3, 3, 1)];
    let net = make(&nodes, &good).unwrap();
    assert_eq!(net.nodes[2].layer, Layer::Hidden(1));
    assert_eq!(net.nodes[3].layer, Layer::Hidden(2));
    assert_eq!(
        net.evaluation_order(),
        &vec![NodeIndex(NetId(9), 0), NodeIndex(NetId(9), 2), NodeIndex(NetId(9), 3), NodeIndex(NetId(9), 1)]
    );
    assert!(make(&nodes, &vec![]).is_some());
    // A cycle between the hidden nodes.
    assert!(make(&nodes, &vec![connection(1, 2, 3), connection(2, 3, 2)]).is_none());
    assert!(make(&nodes, &vec![connection(1, 2, 2)]).is_none());
    // An identifier twice.
    assert!(make(&nodes, &vec![connection(1, 0, 2), connection(1, 2, 1)]).is_none());
    let mut twice = nodes.clone();
    twice[3].id = NodeId(1);
    assert!(make(&twice, &good).is_none());
    // Ends that are no nodes, an input as an end, an output as a start.
    assert!(make(&nodes, &vec![connection(1, 0, 4)]).is_none());
    assert!(make(&nodes, &vec![connection(1, 7, 1)]).is_none());
    assert!(make(&nodes, &vec![connection(1, 2, 0)]).is_none());
    assert!(make(&nodes, &vec![connection(1, 1, 2)]).is_none());
    // Inputs and outputs out of place.
    let mut misplaced = nodes.clone();
    misplaced[0].layer = Layer::Hidden(3);
    assert!(make(&misplaced, &good).is_none());
    let mut misplaced = nodes.clone();
    misplaced[3].layer = Layer::Output;
    assert!(make(&misplaced, &good).is_none());
    assert!(make(&vec![node(1, Layer::Input)], &vec![]).is_none());
}

#[test]
fn a_cycle_is_found() {
    let mut ids = IdAllocator::new();
    let mut net = Net::<i64>::new(shape(1, 1), &mut ids);
    let input = NodeIndex(net.id, 0);
    let output = NodeIndex(net.id, 1);
    let a = net.add_node(None, ActivationFunction::Identity, None, 0, &mut ids);
    let b = net.add_node(None, ActivationFunction::Identity, None, 0, &mut ids);
    net.add_connection(None, 1.0f32.to_bits(), true, input, a, &mut ids);
    net.add_connection(None, 1.0f32.to_bits(), true, a, b, &mut ids);
    let back = net.add_connection(None, 1.0f32.to_bits(), false, b, output, &mut ids);
    assert!(net.is_acyclic());
    // Bend the last connection back to the first hidden node.
    net.get_connection_mut(back).output_node = a;
    net.get_node_mut(output).input_connections.clear();
    net.get_node_mut(a).input_connections.push(back);
    assert!(net.verify_invariants());
    assert!(!net.is_acyclic());
}

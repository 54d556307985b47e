use rand::Rng;
use snake_neat::neural_net::connections::ConnectionId;
use snake_neat::neural_net::crossover::CrossoverPlan;
use snake_neat::neural_net::ids::IdAllocator;
use snake_neat::neural_net::layers::Layer;
use snake_neat::neural_net::mutation::{MutationPlan, WeightSource};
use snake_neat::neural_net::nets::{MutationParams, Net, NetId, NetParams, NodeIndex};
use snake_neat::neural_net::nodes::NodeId;

const ONE: u32 = 1_000_000;

struct Weights;

impl WeightSource for Weights {
    fn fresh_weight(&mut self) -> u32 {
        (rand::thread_rng().gen::<f32>() * 2.0 - 1.0).to_bits()
    }

    fn perturbed_weight(&mut self, weight: u32, max_magnitude: u32) -> u32 {
        let change = (rand::thread_rng().gen::<f32>() * 2.0 - 1.0) * f32::from_bits(max_magnitude);
        (f32::from_bits(weight) + change).to_bits()
    }
}

fn params(prob_remove_node: u32, prob_remove_connection: u32) -> MutationParams {
    MutationParams {
        prob_add_connection: 0,
        prob_add_node: 0,
        prob_mutate_activation_function_of_node: 0,
        prob_mutate_weight: 0,
        max_weight_change_magnitude: 1.0f32.to_bits(),
        prob_toggle_enabled: 0,
        prob_remove_connection,
        prob_remove_node,
    }
}

fn growth() -> MutationParams {
    MutationParams {
        prob_add_connection: ONE,
        prob_add_node: ONE,
        prob_mutate_activation_function_of_node: 0,
        prob_mutate_weight: 0,
        max_weight_change_magnitude: 1.0f32.to_bits(),
        prob_toggle_enabled: 0,
        prob_remove_connection: 0,
        prob_remove_node: 0,
    }
}

/// Two genomes with node identifiers 1, 2, 3 and one connection of identifier 10.
fn twins(first: (f32, bool), second: (f32, bool)) -> (Net<i64>, Net<i64>, IdAllocator) {
    let mut ids_a = IdAllocator::new();
    let mut a = Net::<i64>::new(NetParams::from_size(2, 1), &mut ids_a);
    let mut ids_b = IdAllocator::starting_at(1, 1, 2);
    let mut b = Net::<i64>::new(NetParams::from_size(2, 1), &mut ids_b);
    for (net, gene, ids) in [(&mut a, first, &mut ids_a), (&mut b, second, &mut ids_b)] {
        let from = NodeIndex(net.id, 0);
        let to = NodeIndex(net.id, 2);
        net.add_connection(Some(ConnectionId(10)), gene.0.to_bits(), gene.1, from, to, ids);
        net.build_evaluation_order();
    }
    assert_eq!(a.nodes.iter().map(|n| n.id).collect::<Vec<_>>(), vec![NodeId(1), NodeId(2), NodeId(3)]);
    assert_eq!(b.nodes.iter().map(|n| n.id).collect::<Vec<_>>(), vec![NodeId(1), NodeId(2), NodeId(3)]);
    (a, b, IdAllocator::starting_at(4, 11, 3))
}

fn plain_plan(net: &Net<i64>) -> CrossoverPlan {
    CrossoverPlan {
        swap_roles: false,
        excluded_node: None,
        excluded_connection: None,
        node_from_loser: vec![false; net.node_count()],
        connection_from_loser: vec![false; net.connection_count()],
    }
}

#[test]
fn test_remove_node() {
    for _ in 0..100 {
        let mut ids = IdAllocator::new();
        let mut weights = Weights;
        let mut net_a = Net::<i64>::new(NetParams::from_size(6, 6), &mut ids);
        let mut net_b = Net::<i64>::new(NetParams::from_size(6, 6), &mut ids);
        assert!(net_a.verify_invariants());
        assert!(net_b.verify_invariants());
        let grow = growth();
        for _ in 0..5 {
            net_a.mutate_self(&grow, 1, &mut weights, &mut ids);
            net_b.mutate_self(&grow, 1, &mut weights, &mut ids);
        }
        let remove = params(ONE, 0);
        let net_d = net_a.cross_into_new_net(&net_b, &remove, 1, &mut weights, &mut ids);
        let nodes_a = net_a.nodes.len();
        let nodes_b = net_b.nodes.len();
        let nodes_d = net_d.nodes.len();
        assert!(nodes_d < nodes_a && nodes_d < nodes_b);
        assert!(net_d.verify_invariants());
    }
}

#[test]
fn test_remove_connection() {
    for _ in 0..100 {
        let mut ids = IdAllocator::new();
        let mut weights = Weights;
        let mut net_a = Net::<i64>::new(NetParams::from_size(7, 7), &mut ids);
        let mut net_b = Net::<i64>::new(NetParams::from_size(7, 7), &mut ids);
        assert!(net_a.verify_invariants());
        assert!(net_b.verify_invariants());
        let grow = growth();
        for _ in 0..5 {
            net_a.mutate_self(&grow, 1, &mut weights, &mut ids);
            net_b.mutate_self(&grow, 1, &mut weights, &mut ids);
        }
        let remove = params(0, ONE);
        let net_c = net_a.cross_into_new_net(&net_b, &remove, 1, &mut weights, &mut ids);
        let connections_a = net_a.connections.len();
        let connections_b = net_b.connections.len();
        let connections_c = net_c.connections.len();
        assert!(
            connections_a == 0 || (connections_c < connections_a && connections_c < connections_b)
        );
        assert!(net_c.verify_invariants());
    }
}

#[test]
fn shared_gene_comes_from_either_parent_half_of_the_time() {
    let (a, b, mut ids) = twins((0.2, true), (0.8, true));
    let mut weights = Weights;
    let quiet = params(0, 0);
    let mut from_first = 0;
    for _ in 0..2000 {
        let child = a.cross_into_new_net(&b, &quiet, 1, &mut weights, &mut ids);
        assert_eq!(child.connection_count(), 1);
        assert_eq!(child.connections[0].id, ConnectionId(10));
        let weight = f32::from_bits(child.connections[0].weight);
        assert!(weight == 0.2 || weight == 0.8);
        if weight == 0.2 {
            from_first += 1;
        }
    }
    let fraction = from_first as f64 / 2000.0;
    assert!((fraction - 0.5).abs() < 0.05, "fraction was {fraction}");
}

#[test]
fn enabled_flag_is_always_the_winners() {
    let (mut a, mut b, mut ids) = twins((0.2, true), (0.8, false));
    a.fitness_info = 5;
    b.fitness_info = 3;
    let quiet = params(0, 0);
    let mut weights_seen = [false; 2];
    let mut winners_seen = [false; 2];
    for _ in 0..1000 {
        let plan = a.draw_crossover_plan(&b, &quiet, 1);
        let first_wins = !plan.swap_roles;
        let child = a.cross_with_plan(&b, &plan, &mut ids);
        let gene = child.connections[0];
        assert_eq!(gene.is_enabled, if first_wins { true } else { false });
        weights_seen[if f32::from_bits(gene.weight) == 0.2 { 0 } else { 1 }] = true;
        winners_seen[if first_wins { 0 } else { 1 }] = true;
        assert!(child.verify_invariants());
    }
    // Both weights and both winners were seen, so the flag did not follow the weight.
    assert!(weights_seen[0] && weights_seen[1]);
    assert!(winners_seen[0] && winners_seen[1]);
}

#[test]
fn cross_with_plan_takes_what_the_plan_says() {
    let (mut a, mut b, mut ids) = twins((0.2, false), (0.8, true));
    a.fitness_info = 1;
    b.fitness_info = 2;
    // The second parent is fitter and wins: its flag, and with no gene from the loser, its weight.
    let plan = plain_plan(&b);
    let child = a.cross_with_plan(&b, &plan, &mut ids);
    assert_eq!(child.id, NetId(3));
    assert_eq!(ids.next_net, 4);
    assert_eq!(child.fitness_info, i64::MIN);
    let gene = child.connections[0];
    assert_eq!((f32::from_bits(gene.weight), gene.is_enabled), (0.8, true));
    assert_eq!(gene.input_node, NodeIndex(child.id, 0));
    assert_eq!(gene.output_node, NodeIndex(child.id, 2));
    // The loser's weight, still the winner's flag.
    let mut plan = plain_plan(&b);
    plan.connection_from_loser[0] = true;
    let child = a.cross_with_plan(&b, &plan, &mut ids);
    let gene = child.connections[0];
    assert_eq!((f32::from_bits(gene.weight), gene.is_enabled), (0.2, true));
    // With the roles swapped the first parent wins.
    let mut plan = plain_plan(&a);
    plan.swap_roles = true;
    let child = a.cross_with_plan(&b, &plan, &mut ids);
    let gene = child.connections[0];
    assert_eq!((f32::from_bits(gene.weight), gene.is_enabled), (0.2, false));
    // Equal fitness: the first parent wins.
    b.fitness_info = 1;
    let plan = plain_plan(&a);
    let child = a.cross_with_plan(&b, &plan, &mut ids);
    assert_eq!(f32::from_bits(child.connections[0].weight), 0.2);
    // Leaving the connection out.
    let mut plan = plain_plan(&a);
    plan.excluded_connection = Some(ConnectionId(10));
    let child = a.cross_with_plan(&b, &plan, &mut ids);
    assert_eq!(child.connection_count(), 0);
    assert_eq!(child.node_count(), 3);
    assert!(child.verify_invariants());
}

#[test]
fn leaving_out_a_node_leaves_out_its_connections() {
    let mut ids = IdAllocator::new();
    let mut a = Net::<i64>::new(NetParams::from_size(2, 1), &mut ids);
    let first = NodeIndex(a.id, 0);
    let second = NodeIndex(a.id, 1);
    let output = NodeIndex(a.id, 2);
    let split = a.add_connection(None, 0.5f32.to_bits(), true, first, output, &mut ids);
    a.add_connection(None, 0.25f32.to_bits(), true, second, output, &mut ids);
    a.build_evaluation_order();
    let mut plan = MutationPlan::nothing();
    plan.split = Some(split);
    a.apply_mutation(&plan, &mut ids);
    let hidden = a.nodes[3].id;
    assert_eq!(a.nodes[3].layer, Layer::Hidden(1));
    let b = Net::<i64>::new(NetParams::from_size(2, 1), &mut ids);
    let mut plan = plain_plan(&a);
    plan.excluded_node = Some(hidden);
    let child = a.cross_with_plan(&b, &plan, &mut ids);
    assert_eq!(child.node_count(), 3);
    // Left are the disabled old connection and the one from the second input.
    assert_eq!(child.connection_count(), 2);
    assert_eq!(child.connections[0].id, a.connections[0].id);
    assert!(!child.connections[0].is_enabled);
    assert_eq!(child.connections[1].id, a.connections[1].id);
    assert_eq!(
        child.nodes.iter().map(|n| n.id).collect::<Vec<_>>(),
        a.nodes[0..3].iter().map(|n| n.id).collect::<Vec<_>>()
    );
    assert!(child.verify_invariants());
    assert!(child.is_evaluation_order_up_to_date);
}

#[test]
fn child_of_grown_parents_is_well_formed() {
    let mut weights = Weights;
    for _ in 0..50 {
        let mut ids = IdAllocator::new();
        let mut a = Net::<i64>::new(NetParams::from_size(4, 3), &mut ids);
        let grow = growth();
        for _ in 0..6 {
            a.mutate_self(&grow, 1, &mut weights, &mut ids);
        }
        // A sibling shares genes with its source and grows apart from it.
        let mut b = a.clone();
        for _ in 0..4 {
            a.mutate_self(&grow, 1, &mut weights, &mut ids);
            b.mutate_self(&grow, 2, &mut weights, &mut ids);
        }
        a.fitness_info = 1;
        b.fitness_info = 2;
        let mut lively = growth();
        lively.prob_remove_node = 500_000;
        lively.prob_remove_connection = 500_000;
        lively.prob_toggle_enabled = 500_000;
        let child = a.cross_into_new_net(&b, &lively, 1, &mut weights, &mut ids);
        assert!(child.verify_invariants());
        assert!(child.is_evaluation_order_up_to_date);
        for connection in child.connections.iter() {
            let from = child.get_node(connection.input_node).layer;
            let to = child.get_node(connection.output_node).layer;
            assert!(
                from.to_number() < to.to_number()
                    || from == Layer::Unreachable
                    || to == Layer::Unreachable
            );
        }
        for i in 0..child.nodes.len() {
            for k in (i + 1)..child.nodes.len() {
                assert!(child.nodes[i].id != child.nodes[k].id);
            }
        }
    }
}

//! What holds of every genome.

use crate::neural_net::crossing::lemma_cross_nodes_bare;
use crate::neural_net::crossing::lemma_crossed_flags;
use crate::neural_net::crossover::CrossoverPlan;
use crate::neural_net::layers::Layer;
use crate::neural_net::nets::{Genome, Net, NetId, NodeIndex};
use crate::neural_net::ordering::lemma_enabled_connection_in_order;
use crate::neural_net::populations::FitnessInfo;
use vstd::prelude::*;

verus! {

/// In a genome whose evaluation order is current, the node that an enabled
/// connection starts from stands in the order before the node it ends in,
/// wherever the latter stands in the order.
pub proof fn law_enabled_connections_in_order<F: FitnessInfo>(net: &Net<F>, j: int, p: int)
    requires
        net.wf(),
        net.is_evaluation_order_up_to_date,
        0 <= j < net.genome().connections.len(),
        net.genome().connections[j].is_enabled,
        0 <= p < net.node_order_list@.len(),
        net.node_order_list@[p] == net.genome().connections[j].output_node,
    ensures
        exists|q: int|
            0 <= q < p && #[trigger] net.node_order_list@[q]
                == net.genome().connections[j].input_node,
{
    lemma_enabled_connection_in_order(net.genome(), net.node_order_list@, j, p);
}

/// In a genome whose evaluation order is current, every output stands in
/// the order, and no node stands there twice.
pub proof fn law_order_holds_outputs<F: FitnessInfo>(net: &Net<F>, i: int)
    requires
        net.wf(),
        net.is_evaluation_order_up_to_date,
        net.genome().is_output_slot(i),
    ensures
        net.node_order_list@.contains(NodeIndex(net.id, i as usize)),
        net.node_order_list@.no_duplicates(),
{
}

/// In a genome whose evaluation order is current, every connection,
/// enabled or not, leads from a layer to a later one, unless one of its
/// ends is unreachable or both are hidden nodes of the same depth.
pub proof fn law_connections_respect_layers<F: FitnessInfo>(net: &Net<F>, j: int)
    requires
        net.wf(),
        net.is_evaluation_order_up_to_date,
        0 <= j < net.genome().connections.len(),
    ensures
        ({
            let from = net.genome().layer(net.genome().src(j));
            let to = net.genome().layer(net.genome().dst(j));
            ||| from.number() < to.number()
            ||| (from is Hidden && to is Hidden && from == to)
            ||| from == Layer::Unreachable
            ||| to == Layer::Unreachable
        }),
{
    let g = net.genome();
    if g.layer(g.dst(j)).is_placed() {
        assert(g.layer(g.src(j)).number() < g.layer(g.dst(j)).number());
    }
}

/// In a genome whose evaluation order is current, a connection never leads
/// from a layer to the same or an earlier one: where the node it ends in is
/// placed, the node it starts from is placed in a strictly earlier layer.
pub proof fn law_layers_strict<F: FitnessInfo>(net: &Net<F>, j: int)
    requires
        net.wf(),
        net.is_evaluation_order_up_to_date,
        0 <= j < net.genome().connections.len(),
        net.genome().layer(net.genome().dst(j)) != Layer::Unreachable,
    ensures
        net.genome().layer(net.genome().src(j)) != Layer::Unreachable,
        net.genome().layer(net.genome().src(j)).number() < net.genome().layer(
            net.genome().dst(j),
        ).number(),
{
    let g = net.genome();
    assert(g.layer(g.dst(j)).is_placed());
}

/// In a well-formed genome no two nodes share an identifier, and no two
/// connections.
pub proof fn law_ids_unique<F: FitnessInfo>(net: &Net<F>)
    requires
        net.wf(),
    ensures
        forall|i: int, k: int|
            0 <= i < net.genome().nodes.len() && 0 <= k < net.genome().nodes.len() && i != k ==> (
            #[trigger] net.genome().nodes[i]).id != (#[trigger] net.genome().nodes[k]).id,
        forall|j: int, k: int|
            0 <= j < net.genome().connections.len() && 0 <= k < net.genome().connections.len() && j
                != k ==> (#[trigger] net.genome().connections[j]).id != (
            #[trigger] net.genome().connections[k]).id,
{
    let g = net.genome();
    assert forall|i: int, k: int|
        0 <= i < g.nodes.len() && 0 <= k < g.nodes.len() && i != k implies (#[trigger] g.nodes[i]).id
        != (#[trigger] g.nodes[k]).id by {
        if i < k {
            assert(g.nodes[i].id != g.nodes[k].id);
        } else {
            assert(g.nodes[k].id != g.nodes[i].id);
        }
    }
    assert forall|j: int, k: int|
        0 <= j < g.connections.len() && 0 <= k < g.connections.len() && j != k implies (
    #[trigger] g.connections[j]).id != (#[trigger] g.connections[k]).id by {
        if j < k {
            assert(g.connections[j].id != g.connections[k].id);
        } else {
            assert(g.connections[k].id != g.connections[j].id);
        }
    }
}

/// Whatever a crossover plan says, a connection of the child has the
/// enabled flag of the winner's connection of the same identifier, whether
/// its weight came from the winner or from the loser.
pub proof fn law_crossover_keeps_winners_flags(
    winner: Genome,
    loser: Genome,
    plan: CrossoverPlan,
    child: NetId,
    q: int,
    t: int,
)
    requires
        winner.ids_distinct(),
        0 <= q < winner.crossed(loser, plan, child).connections.len(),
        0 <= t < winner.connections.len(),
        winner.crossed(loser, plan, child).connections[q].id == winner.connections[t].id,
    ensures
        winner.crossed(loser, plan, child).connections[q].is_enabled
            == winner.connections[t].is_enabled,
{
    let start = winner.cross_nodes(loser, plan, child, winner.nodes.len() as int);
    lemma_cross_nodes_bare(winner, loser, plan, child, winner.nodes.len() as int);
    lemma_crossed_flags(winner, loser, plan, start, winner.connections.len() as int);
    let made = winner.crossed(loser, plan, child);
    assert(winner.has_twin(made.connections[q], winner.connections.len() as int));
    let twin = choose|twin: int|
        0 <= twin < winner.connections.len() && winner.is_twin(made.connections[q], twin);
    if twin < t {
        assert(winner.connections[twin].id != winner.connections[t].id);
    } else if t < twin {
        assert(winner.connections[t].id != winner.connections[twin].id);
    }
}

/// A copy of a genome is evaluated as the genome is: it has the same
/// evaluation order, and every node of it is fed by the same nodes with the
/// same weights and holds the same value.
pub proof fn law_copies_evaluate_alike<F: FitnessInfo>(net: &Net<F>, copy: &Net<F>, i: int)
    requires
        copy@ == net@,
        0 <= i < net.genome().nodes.len(),
    ensures
        copy.node_order_list@ == net.node_order_list@,
        copy.genome().all_feeders(i) == net.genome().all_feeders(i),
        copy.genome().nodes[i].value == net.genome().nodes[i].value,
        copy.genome().nodes[i].activation_function == net.genome().nodes[i].activation_function,
{
}

} // verus!

//! Making a genome and adding genes to it.

use crate::neural_net::activation_functions::ActivationFunction;
use crate::neural_net::connections::{Connection, ConnectionId};
use crate::neural_net::genome_lemmas::{
    lemma_with_connection_base,
    lemma_with_connection_slots,
    lemma_with_node_base,
    lemma_with_node_ranked,
    lemma_with_node_slots,
};
use crate::neural_net::ids::IdAllocator;
use crate::neural_net::kinship::lemma_compatible_fresh;
use crate::neural_net::layers::Layer;
use crate::neural_net::nets::{ConnectionIndex, Genome, Net, NetId, NetParams, NodeIndex, MAX_NODES};
use crate::neural_net::nodes::{Node, NodeId, NodeView};
use crate::neural_net::populations::FitnessInfo;
use crate::tables::{IdTable, id_table_entries, lookup};
use vstd::prelude::*;

verus! {

impl Genome {
    /// The node at position `i` of a genome that was just made: an input
    /// with the identity function while `i` is below `input_count`, an
    /// output with the sigmoid from there on; its identifier is `first`
    /// plus `i`, and its value the bits of zero.
    pub open spec fn fresh_node(id: NetId, input_count: usize, first: usize, i: int) -> NodeView {
        NodeView {
            index: NodeIndex(id, i as usize),
            id: NodeId((first + i) as usize),
            activation_function: if i < input_count {
                ActivationFunction::Identity
            } else {
                ActivationFunction::Sigmoid
            },
            layer: if i < input_count {
                Layer::Input
            } else {
                Layer::Output
            },
            input_connections: Seq::empty(),
            value: 0,
        }
    }

    /// The first `count` nodes of a genome that was just made.
    pub open spec fn fresh_nodes(id: NetId, input_count: usize, first: usize, count: int) -> Seq<
        NodeView,
    > {
        Seq::new(count as nat, |i: int| Self::fresh_node(id, input_count, first, i))
    }

    /// A genome that was just made: inputs, then outputs, no connection.
    pub open spec fn fresh(id: NetId, params: NetParams, first: usize) -> Genome {
        Genome {
            id,
            input_count: params.input_count,
            output_count: params.output_count,
            nodes: Self::fresh_nodes(
                id,
                params.input_count,
                first,
                params.input_count + params.output_count,
            ),
            connections: Seq::empty(),
        }
    }
}

impl<F: FitnessInfo> Net<F> {
    /// Puts a node at the end of the node list and enters it in the table.
    pub(crate) fn push_node(
        &mut self,
        id: NodeId,
        activation_function: ActivationFunction,
        layer: Layer,
        value: u32,
    ) -> (index: NodeIndex)
        requires
            old(self).base_ok(),
            old(self).nodes.len() < usize::MAX,
            !old(self).genome().has_node_id(id),
        ensures
            final(self).base_ok(),
            final(self).genome() == old(self).genome().with_node(
                old(self).genome().next_node(id, activation_function, layer, value),
            ),
            index == NodeIndex(old(self).id, old(self).nodes.len()),
            final(self).same_shell(old(self)),
            final(self).is_evaluation_order_up_to_date == old(self).is_evaluation_order_up_to_date,
    {
        let index = NodeIndex(self.id, self.nodes.len());
        let node = Node {
            index,
            id,
            activation_function,
            layer,
            input_connections: Vec::new(),
            value,
        };
        let ghost g = self.genome();
        let ghost added = g.next_node(id, activation_function, layer, value);
        proof {
            lemma_with_node_base(g, added);
            assert forall|k: usize| #[trigger]
                id_table_entries(self.map_node_id_to_index).contains_key(k) implies k != id.0 by {
                let at = id_table_entries(self.map_node_id_to_index)[k] as int;
                assert(self.nodes[at].id.0 == k);
                assert(g.nodes[at].id == self.nodes[at].id);
            }
        }
        self.map_node_id_to_index.insert(id.0, index.1);
        self.nodes.push(node);
        proof {
            assert(node@ == added);
            assert(self.genome().nodes =~= g.with_node(added).nodes);
            assert forall|i: int| 0 <= i < self.nodes.len() implies lookup(
                id_table_entries(self.map_node_id_to_index),
                (#[trigger] self.nodes[i]).id.0,
            ) == Some(i as usize) by {
                if i < g.nodes.len() {
                    assert(self.nodes[i] == old(self).nodes[i]);
                    assert(g.nodes[i].id == old(self).nodes[i].id);
                    assert(g.nodes[i].id != id);
                }
            }
        }
        index
    }

    /// Puts a connection at the end of the connection list, enters it in the
    /// table and in the list of the node it ends in.
    pub(crate) fn push_connection(
        &mut self,
        id: ConnectionId,
        weight: u32,
        is_enabled: bool,
        input_node: NodeIndex,
        output_node: NodeIndex,
    ) -> (index: ConnectionIndex)
        requires
            old(self).base_ok(),
            old(self).connections.len() < usize::MAX,
            !old(self).genome().has_connection_id(id),
            old(self).genome().node_in_range(input_node),
            old(self).genome().node_in_range(output_node),
            !old(self).genome().is_output_slot(input_node.1 as int),
            !old(self).genome().is_input_slot(output_node.1 as int),
        ensures
            final(self).base_ok(),
            final(self).genome() == old(self).genome().with_connection(
                old(self).genome().next_connection(id, weight, is_enabled, input_node, output_node),
            ),
            index == ConnectionIndex(old(self).id, old(self).connections.len()),
            final(self).same_shell(old(self)),
            final(self).is_evaluation_order_up_to_date == old(self).is_evaluation_order_up_to_date,
    {
        let index = ConnectionIndex(self.id, self.connections.len());
        let connection = Connection { index, id, weight, is_enabled, input_node, output_node };
        let ghost g = self.genome();
        let ghost added = g.next_connection(id, weight, is_enabled, input_node, output_node);
        proof {
            lemma_with_connection_base(g, added);
            assert forall|k: usize| #[trigger]
                id_table_entries(self.map_connection_id_to_index).contains_key(k) implies k
                != id.0 by {
                let at = id_table_entries(self.map_connection_id_to_index)[k] as int;
                assert(self.connections[at].id.0 == k);
                assert(g.connections[at].id == self.connections[at].id);
            }
        }
        self.map_connection_id_to_index.insert(id.0, index.1);
        self.connections.push(connection);
        self.nodes[output_node.1].input_connections.push(index);
        proof {
            assert(self.genome().nodes =~= g.with_connection(added).nodes);
            assert(self.genome().connections =~= g.with_connection(added).connections);
            assert forall|j: int| 0 <= j < self.connections.len() implies lookup(
                id_table_entries(self.map_connection_id_to_index),
                (#[trigger] self.connections[j]).id.0,
            ) == Some(j as usize) by {
                if j < g.connections.len() {
                    assert(g.connections[j].id != id);
                }
            }
            assert forall|i: int| 0 <= i < self.nodes.len() implies lookup(
                id_table_entries(self.map_node_id_to_index),
                (#[trigger] self.nodes[i]).id.0,
            ) == Some(i as usize) by {
                assert(self.nodes[i].id == old(self).nodes[i].id);
            }
            assert forall|k: usize| #[trigger]
                id_table_entries(self.map_node_id_to_index).contains_key(k) implies id_table_entries(
                self.map_node_id_to_index,
            )[k] < self.nodes.len() && self.nodes[id_table_entries(
                self.map_node_id_to_index,
            )[k] as int].id.0 == k by {
                let at = id_table_entries(self.map_node_id_to_index)[k] as int;
                assert(self.nodes[at].id == old(self).nodes[at].id);
            }
        }
        index
    }

    /// Adds a node that is neither input nor output. Without an identifier
    /// the node gets the next one of `ids`; without a layer it is put in the
    /// hidden layer of depth 1 until the layers are built again. The
    /// evaluation order is no longer current.
    pub fn add_node(
        &mut self,
        id: Option<NodeId>,
        activation_function: ActivationFunction,
        layer: Option<Layer>,
        value: u32,
        ids: &mut IdAllocator,
    ) -> (index: NodeIndex)
        requires
            old(self).wf(),
            old(self).nodes.len() < MAX_NODES,
            layer != Some(Layer::Input),
            layer != Some(Layer::Output),
            match id {
                Some(id) => !old(self).genome().has_node_id(id),
                None => old(ids).next_node < usize::MAX && old(self).genome().ids_below(*old(ids)),
            },
        ensures
            final(self).wf(),
            final(self).genome() == old(self).genome().with_node(
                old(self).genome().next_node(
                    chosen_node_id(id, *old(ids)),
                    activation_function,
                    chosen_layer(layer),
                    value,
                ),
            ),
            index == NodeIndex(old(self).id, old(self).nodes.len()),
            final(self).same_shell(old(self)),
            !final(self).is_evaluation_order_up_to_date,
            *final(ids) == after_node(id, *old(ids)),
    {
        let id = match id {
            Some(id) => id,
            None => {
                proof {
                    let g = self.genome();
                    assert forall|i: int| 0 <= i < g.nodes.len() implies (#[trigger] g.nodes[i]).id
                        != NodeId(ids.next_node) by {}
                }
                NodeId::new_unique(ids)
            },
        };
        let layer = match layer {
            Some(layer) => layer,
            None => Layer::Hidden(1),
        };
        let ghost g = self.genome();
        let ghost added = g.next_node(id, activation_function, layer, value);
        proof {
            let rank = choose|rank: Seq<nat>| g.ranked_by(rank);
            lemma_with_node_ranked(g, added, rank, 0);
            lemma_with_node_slots(g, added);
        }
        let index = self.push_node(id, activation_function, layer, value);
        self.is_evaluation_order_up_to_date = false;
        index
    }

    /// Adds a connection between two nodes of the genome. Without an
    /// identifier the connection gets the next one of `ids`. The evaluation
    /// order is no longer current.
    pub fn add_connection(
        &mut self,
        id: Option<ConnectionId>,
        weight: u32,
        is_enabled: bool,
        input_node: NodeIndex,
        output_node: NodeIndex,
        ids: &mut IdAllocator,
    ) -> (index: ConnectionIndex)
        requires
            old(self).wf(),
            old(self).connections.len() < usize::MAX,
            old(self).genome().node_in_range(input_node),
            old(self).genome().node_in_range(output_node),
            !old(self).genome().is_output_slot(input_node.1 as int),
            !old(self).genome().is_input_slot(output_node.1 as int),
            match id {
                Some(id) => !old(self).genome().has_connection_id(id),
                None => old(ids).next_connection < usize::MAX && old(self).genome().ids_below(
                    *old(ids),
                ),
            },
            old(self).genome().with_connection(
                old(self).genome().next_connection(
                    chosen_connection_id(id, *old(ids)),
                    weight,
                    is_enabled,
                    input_node,
                    output_node,
                ),
            ).acyclic(),
        ensures
            final(self).wf(),
            final(self).genome() == old(self).genome().with_connection(
                old(self).genome().next_connection(
                    chosen_connection_id(id, *old(ids)),
                    weight,
                    is_enabled,
                    input_node,
                    output_node,
                ),
            ),
            index == ConnectionIndex(old(self).id, old(self).connections.len()),
            final(self).same_shell(old(self)),
            !final(self).is_evaluation_order_up_to_date,
            *final(ids) == after_connection(id, *old(ids)),
    {
        let id = match id {
            Some(id) => id,
            None => {
                proof {
                    let g = self.genome();
                    assert forall|j: int| 0 <= j < g.connections.len() implies (
                    #[trigger] g.connections[j]).id != ConnectionId(ids.next_connection) by {}
                }
                ConnectionId::new_unique(ids)
            },
        };
        let ghost g = self.genome();
        let ghost added = g.next_connection(id, weight, is_enabled, input_node, output_node);
        proof {
            lemma_with_connection_slots(g, added);
        }
        let index = self.push_connection(id, weight, is_enabled, input_node, output_node);
        self.is_evaluation_order_up_to_date = false;
        index
    }

    /// Makes a genome of the given shape: the inputs, then the outputs, and
    /// no connection. Every node gets the next identifier of `ids`, and the
    /// genome the next identity.
    pub fn new(net_params: NetParams, ids: &mut IdAllocator) -> (net: Self)
        requires
            old(ids).next_net < usize::MAX,
            net_params.input_count + net_params.output_count <= MAX_NODES,
            old(ids).next_node + net_params.input_count + net_params.output_count <= usize::MAX,
        ensures
            net.settled(),
            net.genome() == Genome::fresh(NetId(old(ids).next_net), net_params, old(ids).next_node),
            net.net_params == net_params,
            net.fitness_info == F::unevaluated(),
            !net.is_evaluation_order_up_to_date,
            net.node_order_list@.len() == 0,
            net.genome().ids_below(*final(ids)),
            final(ids).next_net == old(ids).next_net + 1,
            final(ids).next_node == old(ids).next_node + net_params.input_count
                + net_params.output_count,
            final(ids).next_connection == old(ids).next_connection,
            forall|x: Genome| #[trigger] x.ids_below(*old(ids)) ==> net.genome().compatible(x),
    {
        let capacity = net_params.input_count + net_params.output_count;
        let ghost first = ids.next_node;
        let id = NetId::new_unique(ids);
        let mut net = Net {
            id,
            net_params,
            nodes: Vec::with_capacity(capacity),
            map_node_id_to_index: IdTable::with_capacity(capacity),
            connections: Vec::with_capacity(capacity),
            map_connection_id_to_index: IdTable::with_capacity(capacity),
            fitness_info: F::new_unevaluated(),
            is_evaluation_order_up_to_date: false,
            node_order_list: Vec::with_capacity(capacity),
        };
        assert(net.genome().nodes =~= Genome::fresh_nodes(id, net_params.input_count, first, 0));
        let mut count: usize = 0;
        while count < capacity
            invariant
                count <= capacity,
                capacity == net_params.input_count + net_params.output_count,
                capacity <= MAX_NODES,
                first + capacity <= usize::MAX,
                ids.next_node == first + count,
                ids.next_net == id.0 + 1,
                ids.next_connection == old(ids).next_connection,
                net.base_ok(),
                net.id == id,
                net.net_params == net_params,
                net.fitness_info == F::unevaluated(),
                !net.is_evaluation_order_up_to_date,
                net.node_order_list@.len() == 0,
                net.connections.len() == 0,
                net.genome().nodes == Genome::fresh_nodes(
                    id,
                    net_params.input_count,
                    first,
                    count as int,
                ),
            decreases capacity - count,
        {
            let ghost before = net.genome();
            proof {
                assert forall|i: int| 0 <= i < before.nodes.len() implies (
                #[trigger] before.nodes[i]).id != NodeId(ids.next_node) by {}
            }
            let node_id = NodeId::new_unique(ids);
            if count < net_params.input_count {
                net.push_node(node_id, ActivationFunction::Identity, Layer::Input, 0);
            } else {
                net.push_node(node_id, ActivationFunction::Sigmoid, Layer::Output, 0);
            }
            count += 1;
            assert(net.genome().nodes =~= Genome::fresh_nodes(
                id,
                net_params.input_count,
                first,
                count as int,
            ));
        }
        proof {
            let g = net.genome();
            assert(g.connections =~= Seq::empty());
            assert(g == Genome::fresh(id, net_params, first as usize));
            assert(g.ranked_by(Seq::new(g.nodes.len(), |i: int| 0nat)));
            assert forall|x: Genome| #[trigger] x.ids_below(*old(ids)) implies g.compatible(x) by {
                lemma_compatible_fresh(g, x, *old(ids));
            }
        }
        net
    }

    /// The node at an index of this genome.
    pub fn get_node(&self, i: NodeIndex) -> (node: &Node)
        requires
            self.genome().node_in_range(i),
        ensures
            *node == self.nodes[i.1 as int],
    {
        &self.nodes[i.1]
    }

    /// The node at an index of this genome, to be changed. Whoever changes
    /// it answers for the invariants of the genome.
    pub fn get_node_mut(&mut self, i: NodeIndex) -> (node: &mut Node)
        requires
            old(self).genome().node_in_range(i),
        ensures
            *node == old(self).nodes[i.1 as int],
            final(self).nodes@ == old(self).nodes@.update(i.1 as int, *final(node)),
            final(self).connections == old(self).connections,
            final(self).id == old(self).id,
            final(self).net_params == old(self).net_params,
            final(self).fitness_info == old(self).fitness_info,
            final(self).is_evaluation_order_up_to_date == old(self).is_evaluation_order_up_to_date,
            final(self).node_order_list == old(self).node_order_list,
            final(self).map_node_id_to_index == old(self).map_node_id_to_index,
            final(self).map_connection_id_to_index == old(self).map_connection_id_to_index,
    {
        &mut self.nodes[i.1]
    }

    /// The connection at an index of this genome, to be changed. Whoever
    /// changes it answers for the invariants of the genome.
    pub fn get_connection_mut(&mut self, i: ConnectionIndex) -> (connection: &mut Connection)
        requires
            old(self).genome().connection_in_range(i),
        ensures
            *connection == old(self).connections[i.1 as int],
            final(self).connections@ == old(self).connections@.update(
                i.1 as int,
                *final(connection),
            ),
            final(self).nodes == old(self).nodes,
            final(self).id == old(self).id,
            final(self).net_params == old(self).net_params,
            final(self).fitness_info == old(self).fitness_info,
            final(self).is_evaluation_order_up_to_date == old(self).is_evaluation_order_up_to_date,
            final(self).node_order_list == old(self).node_order_list,
            final(self).map_node_id_to_index == old(self).map_node_id_to_index,
            final(self).map_connection_id_to_index == old(self).map_connection_id_to_index,
    {
        &mut self.connections[i.1]
    }

    /// The connection at an index of this genome.
    pub fn get_connection(&self, i: ConnectionIndex) -> (connection: &Connection)
        requires
            self.genome().connection_in_range(i),
        ensures
            *connection == self.connections[i.1 as int],
    {
        &self.connections[i.1]
    }

    /// How many nodes the genome has.
    pub fn node_count(&self) -> (n: usize)
        ensures
            n == self.genome().nodes.len(),
    {
        self.nodes.len()
    }

    /// How many connections the genome has.
    pub fn connection_count(&self) -> (n: usize)
        ensures
            n == self.genome().connections.len(),
    {
        self.connections.len()
    }
}

/// The identifier a new node gets: the one that was asked for, or the next
/// one of the allocator.
pub open spec fn chosen_node_id(id: Option<NodeId>, ids: IdAllocator) -> NodeId {
    match id {
        Some(id) => id,
        None => NodeId(ids.next_node),
    }
}

/// The identifier a new connection gets: the one that was asked for, or the
/// next one of the allocator.
pub open spec fn chosen_connection_id(id: Option<ConnectionId>, ids: IdAllocator) -> ConnectionId {
    match id {
        Some(id) => id,
        None => ConnectionId(ids.next_connection),
    }
}

/// The layer a new node is put in: the one that was asked for, or the
/// hidden layer of depth 1.
pub open spec fn chosen_layer(layer: Option<Layer>) -> Layer {
    match layer {
        Some(layer) => layer,
        None => Layer::Hidden(1),
    }
}

/// The allocator after a node was added: unchanged where an identifier was
/// asked for, one node identifier further where not.
pub open spec fn after_node(id: Option<NodeId>, ids: IdAllocator) -> IdAllocator {
    match id {
        Some(_) => ids,
        None => IdAllocator { next_node: (ids.next_node + 1) as usize, ..ids },
    }
}

/// The allocator after a connection was added: unchanged where an
/// identifier was asked for, one connection identifier further where not.
pub open spec fn after_connection(id: Option<ConnectionId>, ids: IdAllocator) -> IdAllocator {
    match id {
        Some(_) => ids,
        None => IdAllocator { next_connection: (ids.next_connection + 1) as usize, ..ids },
    }
}

} // verus!

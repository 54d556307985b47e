//! The genome.
//!
//! A genome owns its node genes and connection genes in two dense lists and
//! finds a gene by its stable identifier through a hash table. What the
//! contracts of this module say, they say of the genome as a mathematical
//! value: [`Genome`] is the graph, [`NetView`] the graph together with the
//! fitness record and the cached evaluation order.

use crate::neural_net::activation_functions::ActivationFunction;
use crate::neural_net::connections::{Connection, ConnectionId};
use crate::neural_net::ids::IdAllocator;
use crate::neural_net::layers::Layer;
use crate::neural_net::nodes::{Node, NodeId, NodeView};
use crate::neural_net::populations::FitnessInfo;
use crate::tables::{id_table_entries, lookup, IdTable};
use vstd::prelude::*;

verus! {

/// The most nodes a genome can hold: the depth of a hidden node must fit in
/// sixteen bits.
pub const MAX_NODES: usize = 65535;

/// The identity of a genome. Every index into a genome carries it, so that an
/// index of one genome is never taken for an index of another. A clone keeps
/// the identity of the genome it was cloned from.
#[derive(Copy, Clone, PartialEq, Eq, Hash, Debug, Structural)]
pub struct NetId(pub usize);

impl NetId {
    /// Hands out the next genome identity.
    pub fn new_unique(ids: &mut IdAllocator) -> (id: NetId)
        requires
            old(ids).next_net < usize::MAX,
        ensures
            id.0 == old(ids).next_net,
            final(ids).next_net == old(ids).next_net + 1,
            final(ids).next_node == old(ids).next_node,
            final(ids).next_connection == old(ids).next_connection,
    {
        let id = NetId(ids.next_net);
        ids.next_net = ids.next_net + 1;
        id
    }
}

/// The position of a node in the genome named by the first field.
#[derive(Copy, Clone, PartialEq, Eq, Hash, Debug, Structural)]
pub struct NodeIndex(pub NetId, pub usize);

/// The position of a connection in the genome named by the first field.
#[derive(Copy, Clone, PartialEq, Eq, Hash, Debug, Structural)]
pub struct ConnectionIndex(pub NetId, pub usize);

/// The shape of a genome: how many inputs and outputs it has, and what they
/// are called.
#[derive(Copy, Clone, Debug, PartialEq)]
pub struct NetParams {
    pub input_count: usize,
    pub input_names: Option<&'static [&'static str]>,
    pub output_count: usize,
    pub output_names: Option<&'static [&'static str]>,
}

impl NetParams {
    /// A shape without names.
    pub fn from_size(input_count: usize, output_count: usize) -> (params: NetParams)
        ensures
            params.input_count == input_count,
            params.output_count == output_count,
            params.input_names is None,
            params.output_names is None,
    {
        NetParams { input_count, input_names: None, output_count, output_names: None }
    }
}

/// How likely each mutation is, in parts per million, and the bits of the
/// largest change of a weight.
#[derive(Copy, Clone, Debug, PartialEq)]
pub struct MutationParams {
    pub prob_mutate_activation_function_of_node: u32,
    pub prob_mutate_weight: u32,
    pub max_weight_change_magnitude: u32,
    pub prob_toggle_enabled: u32,
    pub prob_remove_connection: u32,
    pub prob_add_connection: u32,
    pub prob_remove_node: u32,
    pub prob_add_node: u32,
}

/// The graph of a genome: its nodes and connections, its identity and the
/// number of its inputs and outputs.
pub struct Genome {
    pub id: NetId,
    pub input_count: usize,
    pub output_count: usize,
    pub nodes: Seq<NodeView>,
    pub connections: Seq<Connection>,
}

impl Genome {
    /// The position of the node a connection starts from.
    pub open spec fn src(self, j: int) -> int {
        self.connections[j].input_node.1 as int
    }

    /// The position of the node a connection ends in.
    pub open spec fn dst(self, j: int) -> int {
        self.connections[j].output_node.1 as int
    }

    /// The layer of the node at a position.
    pub open spec fn layer(self, i: int) -> Layer {
        self.nodes[i].layer
    }

    /// The first positions hold the inputs.
    pub open spec fn is_input_slot(self, i: int) -> bool {
        0 <= i < self.input_count
    }

    /// The outputs follow the inputs.
    pub open spec fn is_output_slot(self, i: int) -> bool {
        self.input_count <= i < self.input_count + self.output_count
    }

    /// Whether an index names a node of this genome.
    pub open spec fn node_in_range(self, i: NodeIndex) -> bool {
        i.0 == self.id && i.1 < self.nodes.len()
    }

    /// Whether an index names a connection of this genome.
    pub open spec fn connection_in_range(self, c: ConnectionIndex) -> bool {
        c.0 == self.id && c.1 < self.connections.len()
    }

    /// Whether some node carries the identifier.
    pub open spec fn has_node_id(self, id: NodeId) -> bool {
        exists|i: int| 0 <= i < self.nodes.len() && (#[trigger] self.nodes[i]).id == id
    }

    /// Whether some connection carries the identifier.
    pub open spec fn has_connection_id(self, id: ConnectionId) -> bool {
        exists|j: int| 0 <= j < self.connections.len() && (#[trigger] self.connections[j]).id == id
    }

    /// Every gene records its own position, tagged with this genome.
    pub open spec fn indices_ok(self) -> bool {
        &&& forall|i: int|
            0 <= i < self.nodes.len() ==> (#[trigger] self.nodes[i]).index == NodeIndex(
                self.id,
                i as usize,
            )
        &&& forall|j: int|
            0 <= j < self.connections.len() ==> (#[trigger] self.connections[j]).index
                == ConnectionIndex(self.id, j as usize)
    }

    /// No two nodes share an identifier, and no two connections.
    pub open spec fn ids_distinct(self) -> bool {
        &&& forall|i: int, k: int|
            0 <= i < k < self.nodes.len() ==> (#[trigger] self.nodes[i]).id != (
            #[trigger] self.nodes[k]).id
        &&& forall|j: int, k: int|
            0 <= j < k < self.connections.len() ==> (#[trigger] self.connections[j]).id != (
            #[trigger] self.connections[k]).id
    }

    /// Every connection joins two nodes of this genome, never starts from an
    /// output and never ends in an input.
    pub open spec fn endpoints_ok(self) -> bool {
        forall|j: int|
            0 <= j < self.connections.len() ==> {
                let c = #[trigger] self.connections[j];
                &&& self.node_in_range(c.input_node)
                &&& self.node_in_range(c.output_node)
                &&& !self.is_output_slot(c.input_node.1 as int)
                &&& !self.is_input_slot(c.output_node.1 as int)
            }
    }

    /// The list of incoming connections of every node holds exactly the
    /// connections that end in it, each once.
    pub open spec fn incoming_ok(self) -> bool {
        &&& forall|i: int, k: int|
            0 <= i < self.nodes.len() && 0 <= k < self.nodes[i].input_connections.len() ==> {
                let c = #[trigger] self.nodes[i].input_connections[k];
                self.connection_in_range(c) && self.dst(c.1 as int) == i
            }
        &&& forall|i: int|
            0 <= i < self.nodes.len() ==> (#[trigger] self.nodes[i]).input_connections.no_duplicates()
        &&& forall|j: int|
            0 <= j < self.connections.len() ==> self.nodes[#[trigger] self.dst(
                j,
            )].input_connections.contains(ConnectionIndex(self.id, j as usize))
    }

    /// The inputs come first, the outputs next, and every other node is
    /// neither; no more nodes than [`MAX_NODES`].
    pub open spec fn slots_ok(self) -> bool {
        &&& self.input_count + self.output_count <= self.nodes.len() <= MAX_NODES
        &&& forall|i: int|
            0 <= i < self.nodes.len() ==> {
                &&& (#[trigger] self.nodes[i]).layer == Layer::Input <==> self.is_input_slot(i)
                &&& self.nodes[i].layer == Layer::Output <==> self.is_output_slot(i)
            }
    }

    /// The invariants that hold of a genome even while its inputs and
    /// outputs are being laid down.
    pub open spec fn base_ok(self) -> bool {
        &&& self.indices_ok()
        &&& self.ids_distinct()
        &&& self.endpoints_ok()
        &&& self.incoming_ok()
    }

    /// The invariants of the data structure.
    pub open spec fn structure_ok(self) -> bool {
        &&& self.base_ok()
        &&& self.slots_ok()
    }

    /// Whether `rank` gives every node a number that grows along every
    /// connection, enabled or not.
    pub open spec fn ranked_by(self, rank: Seq<nat>) -> bool {
        &&& rank.len() == self.nodes.len()
        &&& forall|j: int|
            0 <= j < self.connections.len() ==> rank[#[trigger] self.src(j)] < rank[self.dst(j)]
    }

    /// The connections form no cycle.
    pub open spec fn acyclic(self) -> bool {
        exists|rank: Seq<nat>| self.ranked_by(rank)
    }

    /// Every identifier in the genome was handed out by `ids` or by an
    /// allocator that `ids` continues, so there are no more genes of a kind
    /// than identifiers of that kind were handed out.
    pub open spec fn ids_below(self, ids: IdAllocator) -> bool {
        &&& self.nodes.len() <= ids.next_node
        &&& self.connections.len() <= ids.next_connection
        &&& forall|i: int|
            0 <= i < self.nodes.len() ==> (#[trigger] self.nodes[i]).id.0 < ids.next_node
        &&& forall|j: int|
            0 <= j < self.connections.len() ==> (#[trigger] self.connections[j]).id.0
                < ids.next_connection
    }

    /// The depth a layer stands for: that of a hidden layer, and 0 for the
    /// inputs.
    pub open spec fn depth(self, i: int) -> int {
        match self.nodes[i].layer {
            Layer::Hidden(d) => d as int,
            _ => 0,
        }
    }

    /// The depth of the hidden node at `i` is 0 if no connection ends in it,
    /// and else one more than the greatest depth among the nodes that its
    /// incoming connections start from.
    pub open spec fn depth_is_exact(self, i: int) -> bool {
        &&& forall|j: int|
            0 <= j < self.connections.len() && #[trigger] self.dst(j) == i ==> self.depth(
                self.src(j),
            ) + 1 <= self.depth(i)
        &&& self.depth(i) > 0 ==> exists|j: int|
            0 <= j < self.connections.len() && #[trigger] self.dst(j) == i && self.depth(
                self.src(j),
            ) + 1 == self.depth(i)
    }

    /// Whether the node at `i` is hidden and placed.
    pub open spec fn hidden_at(self, i: int) -> bool {
        self.nodes[i].layer is Hidden
    }

    /// Some connection leads from the node at `i` to a placed node.
    pub open spec fn leads_on(self, i: int) -> bool {
        exists|j: int|
            0 <= j < self.connections.len() && #[trigger] self.src(j) == i && self.layer(
                self.dst(j),
            ).is_placed()
    }

    /// The layers are those that the connections, enabled or not, give:
    /// a connection into a placed node starts from a placed node of a
    /// strictly earlier layer; the depth of a hidden node is exact; and a
    /// hidden node is placed only if a connection leads from it to a placed
    /// node.
    pub open spec fn layering_ok(self) -> bool {
        &&& forall|j: int|
            0 <= j < self.connections.len() && self.layer(#[trigger] self.dst(j)).is_placed() ==> {
                &&& self.layer(self.src(j)).is_placed()
                &&& self.layer(self.src(j)).number() < self.layer(self.dst(j)).number()
            }
        &&& forall|i: int|
            0 <= i < self.nodes.len() && #[trigger] self.hidden_at(i) ==> {
                &&& self.depth_is_exact(i)
                &&& self.leads_on(i)
            }
    }

    /// Whether some enabled connection leads from the node at `a` to the
    /// node at `b`.
    pub open spec fn feeds(self, a: int, b: int) -> bool {
        exists|j: int|
            0 <= j < self.connections.len() && self.connections[j].is_enabled && #[trigger] self.src(
                j,
            ) == a && self.dst(j) == b
    }

    /// Every node from which an enabled connection leads to the node at
    /// position `p` of `order` stands in `order` before `p`.
    pub open spec fn fed_before(self, order: Seq<NodeIndex>, p: int) -> bool {
        forall|j: int|
            0 <= j < self.connections.len() && self.connections[j].is_enabled && #[trigger] self.dst(
                j,
            ) == order[p].1 ==> exists|q: int|
                0 <= q < p && #[trigger] order[q] == self.connections[j].input_node
    }

    /// The node at position `p` of `order` is an output, or an enabled
    /// connection leads from it to a node further on in `order`.
    pub open spec fn supported_in(self, order: Seq<NodeIndex>, p: int) -> bool {
        self.is_output_slot(order[p].1 as int) || exists|q: int|
            p < q < order.len() && self.feeds(order[p].1 as int, (#[trigger] order[q]).1 as int)
    }

    /// Whether `order` is an evaluation order of the genome: it holds every
    /// output; with a node it holds, earlier, every node from which an
    /// enabled connection leads to it; it holds no node twice; and it holds
    /// no other node, so every node in it that is not an output has an
    /// enabled connection to a node further on.
    pub open spec fn order_ok(self, order: Seq<NodeIndex>) -> bool {
        &&& forall|p: int| 0 <= p < order.len() ==> self.node_in_range(#[trigger] order[p])
        &&& order.no_duplicates()
        &&& forall|i: int| #[trigger]
            self.is_output_slot(i) ==> order.contains(NodeIndex(self.id, i as usize))
        &&& forall|p: int| 0 <= p < order.len() ==> #[trigger] self.fed_before(order, p)
        &&& forall|p: int| 0 <= p < order.len() ==> #[trigger] self.supported_in(order, p)
    }

    /// The genome with one more node at the end.
    pub open spec fn with_node(self, node: NodeView) -> Genome {
        Genome { nodes: self.nodes.push(node), ..self }
    }

    /// The genome with one more connection at the end, entered in the list
    /// of the node it ends in.
    pub open spec fn with_connection(self, c: Connection) -> Genome {
        let target = c.output_node.1 as int;
        let node = self.nodes[target];
        Genome {
            nodes: self.nodes.update(
                target,
                NodeView { input_connections: node.input_connections.push(c.index), ..node },
            ),
            connections: self.connections.push(c),
            ..self
        }
    }

    /// The connection that `with_connection` is given when a connection with
    /// these properties is added.
    pub open spec fn next_connection(
        self,
        id: ConnectionId,
        weight: u32,
        is_enabled: bool,
        input_node: NodeIndex,
        output_node: NodeIndex,
    ) -> Connection {
        Connection {
            index: ConnectionIndex(self.id, self.connections.len() as usize),
            id,
            input_node,
            output_node,
            weight,
            is_enabled,
        }
    }

    /// The node that `with_node` is given when a node with these properties
    /// is added.
    pub open spec fn next_node(
        self,
        id: NodeId,
        activation_function: ActivationFunction,
        layer: Layer,
        value: u32,
    ) -> NodeView {
        NodeView {
            index: NodeIndex(self.id, self.nodes.len() as usize),
            id,
            activation_function,
            layer,
            input_connections: Seq::empty(),
            value,
        }
    }
}

/// A genome: an evolvable feed-forward network, with the fitness record `F`
/// of the caller's choosing.
pub struct Net<F: FitnessInfo> {
    pub id: NetId,
    pub net_params: NetParams,
    pub nodes: Vec<Node>,
    pub map_node_id_to_index: IdTable,
    pub connections: Vec<Connection>,
    pub map_connection_id_to_index: IdTable,
    pub fitness_info: F,
    pub is_evaluation_order_up_to_date: bool,
    pub node_order_list: Vec<NodeIndex>,
}

/// A genome as a mathematical value.
pub struct NetView<F> {
    pub id: NetId,
    pub net_params: NetParams,
    pub nodes: Seq<NodeView>,
    pub connections: Seq<Connection>,
    pub fitness_info: F,
    pub is_evaluation_order_up_to_date: bool,
    pub node_order_list: Seq<NodeIndex>,
}

impl<F> NetView<F> {
    /// The graph of the genome.
    pub open spec fn genome(self) -> Genome {
        Genome {
            id: self.id,
            input_count: self.net_params.input_count,
            output_count: self.net_params.output_count,
            nodes: self.nodes,
            connections: self.connections,
        }
    }
}

impl<F: FitnessInfo> View for Net<F> {
    type V = NetView<F>;

    open spec fn view(&self) -> NetView<F> {
        NetView {
            id: self.id,
            net_params: self.net_params,
            nodes: self.nodes@.map_values(|n: Node| n@),
            connections: self.connections@,
            fitness_info: self.fitness_info,
            is_evaluation_order_up_to_date: self.is_evaluation_order_up_to_date,
            node_order_list: self.node_order_list@,
        }
    }
}

impl<F: FitnessInfo> Net<F> {
    /// The graph of the genome.
    pub open spec fn genome(&self) -> Genome {
        self@.genome()
    }

    /// The table of node identifiers holds every node under its identifier,
    /// and nothing else.
    pub open spec fn node_table_ok(&self) -> bool {
        let entries = id_table_entries(self.map_node_id_to_index);
        &&& forall|i: int|
            0 <= i < self.nodes.len() ==> lookup(entries, (#[trigger] self.nodes[i]).id.0) == Some(
                i as usize,
            )
        &&& forall|k: usize| #[trigger]
            entries.contains_key(k) ==> entries[k] < self.nodes.len() && self.nodes[entries[k] as int].id.0
                == k
    }

    /// The table of connection identifiers holds every connection under its
    /// identifier, and nothing else.
    pub open spec fn connection_table_ok(&self) -> bool {
        let entries = id_table_entries(self.map_connection_id_to_index);
        &&& forall|j: int|
            0 <= j < self.connections.len() ==> lookup(
                entries,
                (#[trigger] self.connections[j]).id.0,
            ) == Some(j as usize)
        &&& forall|k: usize| #[trigger]
            entries.contains_key(k) ==> entries[k] < self.connections.len()
                && self.connections[entries[k] as int].id.0 == k
    }

    /// The invariants that hold of a genome even while its inputs and
    /// outputs are being laid down, tables included.
    pub open spec fn base_ok(&self) -> bool {
        &&& self.genome().base_ok()
        &&& self.node_table_ok()
        &&& self.connection_table_ok()
    }

    /// The invariants of the data structure, tables included.
    pub open spec fn structure_ok(&self) -> bool {
        &&& self.base_ok()
        &&& self.genome().slots_ok()
    }

    /// Whether two genomes agree in all but their graph and the mark on
    /// their evaluation order.
    pub open spec fn same_shell(&self, other: &Net<F>) -> bool {
        &&& self.id == other.id
        &&& self.net_params == other.net_params
        &&& self.fitness_info == other.fitness_info
        &&& self.node_order_list@ == other.node_order_list@
    }

    /// The genome is well formed: its structure holds, its connections form
    /// no cycle, and if its evaluation order is marked current, then the
    /// layers are those of its connections and the order is the one in
    /// which the walk from the outputs comes by the nodes.
    pub open spec fn wf(&self) -> bool {
        &&& self.structure_ok()
        &&& self.genome().acyclic()
        &&& self.is_evaluation_order_up_to_date ==> {
            &&& self.genome().layering_ok()
            &&& self.genome().order_ok(self.node_order_list@)
            &&& self.node_order_list@ == self.genome().evaluation_order()
        }
    }

    /// The genome is well formed and its layers are those of its
    /// connections, whether or not the evaluation order is marked current.
    /// This is what a mutation starts from.
    pub open spec fn settled(&self) -> bool {
        &&& self.wf()
        &&& self.genome().layering_ok()
    }
}

} // verus!

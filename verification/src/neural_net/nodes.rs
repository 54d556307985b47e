//! Node genes.

use crate::neural_net::activation_functions::ActivationFunction;
use crate::neural_net::ids::IdAllocator;
use crate::neural_net::layers::Layer;
use crate::neural_net::nets::{ConnectionIndex, NodeIndex};
use vstd::prelude::*;

verus! {

/// The stable identifier of a node gene. It stays with the gene through
/// clones and crossovers.
#[derive(Copy, Clone, PartialEq, Eq, Hash, Debug, Structural)]
pub struct NodeId(pub usize);

impl NodeId {
    /// Hands out the next node identifier.
    pub fn new_unique(ids: &mut IdAllocator) -> (id: NodeId)
        requires
            old(ids).next_node < usize::MAX,
        ensures
            id.0 == old(ids).next_node,
            final(ids).next_node == old(ids).next_node + 1,
            final(ids).next_connection == old(ids).next_connection,
            final(ids).next_net == old(ids).next_net,
    {
        let id = NodeId(ids.next_node);
        ids.next_node = ids.next_node + 1;
        id
    }
}

/// A node gene.
#[derive(Debug)]
pub struct Node {
    /// Where the node sits in its genome.
    pub index: NodeIndex,
    pub id: NodeId,
    pub activation_function: ActivationFunction,
    pub layer: Layer,
    /// The connections that end in this node, in the order they were made.
    pub input_connections: Vec<ConnectionIndex>,
    /// The bits of the activation value of the latest evaluation.
    pub value: u32,
}

/// A node gene as a mathematical value.
pub struct NodeView {
    pub index: NodeIndex,
    pub id: NodeId,
    pub activation_function: ActivationFunction,
    pub layer: Layer,
    pub input_connections: Seq<ConnectionIndex>,
    pub value: u32,
}

impl View for Node {
    type V = NodeView;

    open spec fn view(&self) -> NodeView {
        NodeView {
            index: self.index,
            id: self.id,
            activation_function: self.activation_function,
            layer: self.layer,
            input_connections: self.input_connections@,
            value: self.value,
        }
    }
}

impl Clone for Node {
    /// A copy of the node.
    fn clone(&self) -> (copy: Node)
        ensures
            copy@ == self@,
    {
        let mut input_connections: Vec<ConnectionIndex> = Vec::with_capacity(
            self.input_connections.len(),
        );
        let mut k: usize = 0;
        while k < self.input_connections.len()
            invariant
                k <= self.input_connections.len(),
                input_connections@ == self.input_connections@.subrange(0, k as int),
            decreases self.input_connections.len() - k,
        {
            input_connections.push(self.input_connections[k]);
            k += 1;
        }
        assert(input_connections@ == self.input_connections@);
        Node {
            index: self.index,
            id: self.id,
            activation_function: self.activation_function,
            layer: self.layer,
            input_connections,
            value: self.value,
        }
    }
}

} // verus!

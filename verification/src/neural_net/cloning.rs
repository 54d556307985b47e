//! Copying a genome.

use crate::neural_net::connections::Connection;
use crate::neural_net::nets::{Net, NodeIndex};
use crate::neural_net::nodes::Node;
use crate::neural_net::populations::FitnessInfo;
use vstd::prelude::*;

verus! {

impl<F: FitnessInfo> Clone for Net<F> {
    /// A copy of the genome, identity included: the copy is the same
    /// mathematical value, and well formed if the genome is.
    fn clone(&self) -> (copy: Net<F>)
        ensures
            copy@ == self@,
            copy.same_ids(self),
            self.base_ok() ==> copy.base_ok(),
            self.wf() ==> copy.wf(),
    {
        let mut nodes: Vec<Node> = Vec::with_capacity(self.nodes.len());
        let mut i: usize = 0;
        while i < self.nodes.len()
            invariant
                i <= self.nodes.len(),
                nodes.len() == i,
                forall|k: int| 0 <= k < i ==> (#[trigger] nodes[k])@ == self.nodes[k]@,
            decreases self.nodes.len() - i,
        {
            nodes.push(self.nodes[i].clone());
            i += 1;
        }
        let mut connections: Vec<Connection> = Vec::with_capacity(self.connections.len());
        let mut j: usize = 0;
        while j < self.connections.len()
            invariant
                j <= self.connections.len(),
                connections@ == self.connections@.subrange(0, j as int),
            decreases self.connections.len() - j,
        {
            connections.push(self.connections[j]);
            j += 1;
        }
        let mut node_order_list: Vec<NodeIndex> = Vec::with_capacity(self.node_order_list.len());
        let mut p: usize = 0;
        while p < self.node_order_list.len()
            invariant
                p <= self.node_order_list.len(),
                node_order_list@ == self.node_order_list@.subrange(0, p as int),
            decreases self.node_order_list.len() - p,
        {
            node_order_list.push(self.node_order_list[p]);
            p += 1;
        }
        let copy = Net {
            id: self.id,
            net_params: self.net_params,
            nodes,
            map_node_id_to_index: self.map_node_id_to_index.duplicate(),
            connections,
            map_connection_id_to_index: self.map_connection_id_to_index.duplicate(),
            fitness_info: self.fitness_info,
            is_evaluation_order_up_to_date: self.is_evaluation_order_up_to_date,
            node_order_list,
        };
        proof {
            assert(copy.connections@ == self.connections@);
            assert(copy.node_order_list@ == self.node_order_list@);
            assert(copy@.nodes =~= self@.nodes);
            assert forall|i: int| 0 <= i < copy.nodes.len() implies (#[trigger] copy.nodes[i]).id
                == self.nodes[i].id by {
                assert(copy.nodes[i]@ == self.nodes[i]@);
            }
            if self.base_ok() {
                copy.lemma_tables_like(self);
            }
        }
        copy
    }
}

} // verus!

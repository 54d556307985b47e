//! Crossover.
//!
//! A child takes the genes of the fitter parent, the winner. A gene that
//! the other parent, the loser, carries too may come from either; on a
//! connection the enabled flag is the winner's whichever copy is taken. One
//! hidden node and one connection of the winner may be left out. As with
//! mutation, what is decided at random is a plan, and crossing by a plan is
//! a function of the parents and the plan alone.

use crate::neural_net::connections::{Connection, ConnectionId};
use crate::neural_net::nets::{Genome, NetId, NodeIndex};
use crate::neural_net::nodes::{NodeId, NodeView};
use vstd::prelude::*;

verus! {

/// What one crossover decides.
#[derive(Debug)]
pub struct CrossoverPlan {
    /// Whether the parent of lower fitness is the winner this time.
    pub swap_roles: bool,
    /// The hidden node of the winner that is left out, if any.
    pub excluded_node: Option<NodeId>,
    /// The connection of the winner that is left out, if any.
    pub excluded_connection: Option<ConnectionId>,
    /// For every node of the winner, whether the loser's copy is taken
    /// where the loser has one.
    pub node_from_loser: Vec<bool>,
    /// For every connection of the winner, whether the loser's copy is
    /// taken where the loser has one.
    pub connection_from_loser: Vec<bool>,
}

/// Whether the first parent is the winner: it is if its fitness is at least
/// that of the second, unless the roles are swapped.
pub open spec fn first_wins(first: i64, second: i64, swap_roles: bool) -> bool {
    (first >= second) != swap_roles
}

impl Genome {
    /// The position of the node with an identifier.
    pub open spec fn node_position(self, id: NodeId) -> int {
        choose|i: int| 0 <= i < self.nodes.len() && (#[trigger] self.nodes[i]).id == id
    }

    /// The position of the connection with an identifier.
    pub open spec fn connection_position(self, id: ConnectionId) -> int {
        choose|j: int| 0 <= j < self.connections.len() && (#[trigger] self.connections[j]).id == id
    }

    /// Whether a gene means the same in both genomes: a node that both
    /// carry is an input in both, an output in both or neither in both, and
    /// a connection that both carry joins nodes of the same identifiers.
    pub open spec fn compatible(self, other: Genome) -> bool {
        &&& forall|i: int, k: int|
            0 <= i < self.nodes.len() && 0 <= k < other.nodes.len() && (#[trigger] self.nodes[i]).id
                == (#[trigger] other.nodes[k]).id ==> {
                &&& self.is_input_slot(i) == other.is_input_slot(k)
                &&& self.is_output_slot(i) == other.is_output_slot(k)
            }
        &&& forall|j: int, l: int|
            0 <= j < self.connections.len() && 0 <= l < other.connections.len() && (
            #[trigger] self.connections[j]).id == (#[trigger] other.connections[l]).id ==> {
                &&& self.nodes[self.src(j)].id == other.nodes[other.src(l)].id
                &&& self.nodes[self.dst(j)].id == other.nodes[other.dst(l)].id
            }
    }

    /// Whether a plan fits the winner: it says of every gene which copy to
    /// take, and the node it leaves out is neither input nor output.
    pub open spec fn cross_plan_ok(self, plan: CrossoverPlan) -> bool {
        &&& plan.node_from_loser@.len() == self.nodes.len()
        &&& plan.connection_from_loser@.len() == self.connections.len()
        &&& forall|i: int|
            0 <= i < self.nodes.len() && Some((#[trigger] self.nodes[i]).id) == plan.excluded_node
                ==> !self.is_input_slot(i) && !self.is_output_slot(i)
    }

    /// The copy of the winner's node at `i` that the child takes.
    pub open spec fn node_source(self, loser: Genome, plan: CrossoverPlan, i: int) -> NodeView {
        if plan.node_from_loser@[i] && loser.has_node_id(self.nodes[i].id) {
            loser.nodes[loser.node_position(self.nodes[i].id)]
        } else {
            self.nodes[i]
        }
    }

    /// The copy of the winner's connection at `j` that the child takes.
    pub open spec fn connection_source(self, loser: Genome, plan: CrossoverPlan, j: int) -> Connection {
        if plan.connection_from_loser@[j] && loser.has_connection_id(self.connections[j].id) {
            loser.connections[loser.connection_position(self.connections[j].id)]
        } else {
            self.connections[j]
        }
    }

    /// Whether the child takes the winner's node at `i`.
    pub open spec fn keeps_node(self, plan: CrossoverPlan, i: int) -> bool {
        plan.excluded_node != Some(self.nodes[i].id)
    }

    /// Whether the child takes the winner's connection at `j`: it does
    /// unless the connection is left out or touches the node left out.
    pub open spec fn keeps_connection(self, plan: CrossoverPlan, j: int) -> bool {
        &&& plan.excluded_connection != Some(self.connections[j].id)
        &&& plan.excluded_node != Some(self.nodes[self.src(j)].id)
        &&& plan.excluded_node != Some(self.nodes[self.dst(j)].id)
    }

    /// The child after the first `upto` nodes of the winner were gone
    /// through.
    pub open spec fn cross_nodes(
        self,
        loser: Genome,
        plan: CrossoverPlan,
        child: NetId,
        upto: int,
    ) -> Genome
        decreases upto,
    {
        if upto <= 0 {
            Genome {
                id: child,
                input_count: self.input_count,
                output_count: self.output_count,
                nodes: Seq::empty(),
                connections: Seq::empty(),
            }
        } else {
            let before = self.cross_nodes(loser, plan, child, upto - 1);
            if self.keeps_node(plan, upto - 1) {
                let source = self.node_source(loser, plan, upto - 1);
                before.with_node(
                    before.next_node(
                        source.id,
                        source.activation_function,
                        source.layer,
                        source.value,
                    ),
                )
            } else {
                before
            }
        }
    }

    /// The child `start` after the first `upto` connections of the winner
    /// were gone through.
    pub open spec fn cross_connections(
        self,
        loser: Genome,
        plan: CrossoverPlan,
        start: Genome,
        upto: int,
    ) -> Genome
        decreases upto,
    {
        if upto <= 0 {
            start
        } else {
            let before = self.cross_connections(loser, plan, start, upto - 1);
            if self.keeps_connection(plan, upto - 1) {
                let source = self.connection_source(loser, plan, upto - 1);
                let j = upto - 1;
                before.with_connection(
                    before.next_connection(
                        source.id,
                        source.weight,
                        self.connections[j].is_enabled,
                        NodeIndex(
                            start.id,
                            start.node_position(self.nodes[self.src(j)].id) as usize,
                        ),
                        NodeIndex(
                            start.id,
                            start.node_position(self.nodes[self.dst(j)].id) as usize,
                        ),
                    ),
                )
            } else {
                before
            }
        }
    }

    /// The child of the winner `self` and the loser, but for its layers,
    /// which are built anew.
    pub open spec fn crossed(self, loser: Genome, plan: CrossoverPlan, child: NetId) -> Genome {
        self.cross_connections(
            loser,
            plan,
            self.cross_nodes(loser, plan, child, self.nodes.len() as int),
            self.connections.len() as int,
        )
    }
}

} // verus!

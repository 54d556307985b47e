//! What an evaluation reads and writes.
//!
//! The library does no arithmetic on real numbers, so it does not evaluate
//! a network itself. It says in which order the nodes are evaluated, which
//! connections feed a node, and it holds the values: the caller sets the
//! inputs, goes through the order, computes the value of each node that is
//! not an input from what feeds it and stores it, and reads the outputs.

use crate::neural_net::genome_lemmas::{
    lemma_same_skeleton_layering, lemma_same_skeleton_ranked, lemma_same_skeleton_structure,
};
use crate::neural_net::layers::Layer;
use crate::neural_net::nets::{Genome, Net, NodeIndex};
use crate::neural_net::nodes::NodeView;
use crate::neural_net::ordering::law_order_follows_the_wiring;
use crate::neural_net::populations::FitnessInfo;
use vstd::prelude::*;

verus! {

impl Genome {
    /// The genome with the first values of `values` in its inputs.
    pub open spec fn with_inputs(self, values: Seq<u32>, count: int) -> Genome {
        Genome {
            nodes: Seq::new(
                self.nodes.len(),
                |i: int|
                    if i < count {
                        NodeView { value: values[i], ..self.nodes[i] }
                    } else {
                        self.nodes[i]
                    },
            ),
            ..self
        }
    }

    /// What feeds the node at `i` through the first `upto` of its incoming
    /// connections: for every enabled one, in their order, the node it
    /// starts from and the bits of its weight.
    pub open spec fn feeders(self, i: int, upto: int) -> Seq<(NodeIndex, u32)>
        decreases upto,
    {
        if upto <= 0 {
            Seq::empty()
        } else {
            let c = self.connections[self.nodes[i].input_connections[upto - 1].1 as int];
            if c.is_enabled {
                self.feeders(i, upto - 1).push((c.input_node, c.weight))
            } else {
                self.feeders(i, upto - 1)
            }
        }
    }

    /// What feeds the node at `i`.
    pub open spec fn all_feeders(self, i: int) -> Seq<(NodeIndex, u32)> {
        self.feeders(i, self.nodes[i].input_connections.len() as int)
    }
}

/// An order of evaluation stays one when nothing but activation functions,
/// values and weights change.
pub proof fn lemma_order_keeps(g: Genome, h: Genome, order: Seq<NodeIndex>)
    requires
        g.same_skeleton(h),
        forall|j: int|
            0 <= j < g.connections.len() ==> (#[trigger] g.connections[j]).is_enabled
                == h.connections[j].is_enabled,
        g.order_ok(order),
    ensures
        h.order_ok(order),
{
    assert forall|j: int| 0 <= j < g.connections.len() implies g.src(j) == h.src(j) && g.dst(j)
        == h.dst(j) by {
        assert(g.connections[j].input_node == h.connections[j].input_node);
    }
    assert forall|a: int, b: int| g.feeds(a, b) implies h.feeds(a, b) by {
        let j = choose|j: int|
            0 <= j < g.connections.len() && g.connections[j].is_enabled && #[trigger] g.src(j) == a
                && g.dst(j) == b;
        assert(h.connections[j].is_enabled && h.src(j) == a && h.dst(j) == b);
    }
    assert forall|p: int| 0 <= p < order.len() implies #[trigger] h.fed_before(order, p) by {
        assert(g.fed_before(order, p));
        assert forall|j: int|
            0 <= j < h.connections.len() && h.connections[j].is_enabled && #[trigger] h.dst(j)
                == order[p].1 implies exists|q: int|
            0 <= q < p && #[trigger] order[q] == h.connections[j].input_node by {
            assert(g.connections[j].is_enabled && g.dst(j) == order[p].1);
        }
    }
    assert forall|p: int| 0 <= p < order.len() implies #[trigger] h.supported_in(order, p) by {
        assert(g.supported_in(order, p));
        if !g.is_output_slot(order[p].1 as int) {
            let q = choose|q: int|
                p < q < order.len() && g.feeds(order[p].1 as int, (#[trigger] order[q]).1 as int);
            assert(h.feeds(order[p].1 as int, order[q].1 as int));
        }
    }
    assert forall|p: int| 0 <= p < order.len() implies h.node_in_range(#[trigger] order[p]) by {
        assert(g.node_in_range(order[p]));
    }
    assert forall|i: int| #[trigger] h.is_output_slot(i) implies order.contains(
        NodeIndex(h.id, i as usize),
    ) by {
        assert(g.is_output_slot(i));
    }
}

impl<F: FitnessInfo> Net<F> {
    /// A well-formed genome stays well formed when nothing but activation
    /// functions, values and weights change.
    pub proof fn lemma_wf_keeps(&self, before: &Net<F>)
        requires
            before.wf(),
            self.base_ok(),
            self.genome().same_skeleton(before.genome()),
            forall|j: int|
                0 <= j < self.connections.len() ==> (
                #[trigger] self.genome().connections[j]).is_enabled
                    == before.genome().connections[j].is_enabled,
            self.node_order_list@ == before.node_order_list@,
            self.is_evaluation_order_up_to_date == before.is_evaluation_order_up_to_date,
        ensures
            self.wf(),
            before.genome().layering_ok() ==> self.genome().layering_ok(),
    {
        let g = before.genome();
        let h = self.genome();
        assert(g.same_skeleton(h));
        lemma_same_skeleton_structure(g, h);
        let rank = choose|rank: Seq<nat>| g.ranked_by(rank);
        lemma_same_skeleton_ranked(g, h, rank);
        if g.layering_ok() {
            lemma_same_skeleton_layering(g, h);
        }
        if before.is_evaluation_order_up_to_date {
            lemma_order_keeps(g, h, before.node_order_list@);
            assert(g.same_walk(h)) by {
                assert forall|j: int| 0 <= j < g.connections.len() implies (
                #[trigger] g.connections[j]).input_node == h.connections[j].input_node
                    && g.connections[j].is_enabled == h.connections[j].is_enabled by {
                    assert(h.connections[j].input_node == g.connections[j].input_node);
                }
            }
            law_order_follows_the_wiring(g, h);
        }
    }

    /// Puts the values in the inputs, the first in the first input.
    pub fn set_inputs(&mut self, inputs: &[u32])
        requires
            old(self).wf(),
            inputs@.len() == old(self).net_params.input_count,
        ensures
            final(self).wf(),
            final(self).genome() == old(self).genome().with_inputs(
                inputs@,
                old(self).net_params.input_count as int,
            ),
            old(self).genome().layering_ok() ==> final(self).genome().layering_ok(),
            final(self).same_shell(old(self)),
            final(self).is_evaluation_order_up_to_date == old(self).is_evaluation_order_up_to_date,
    {
        let count = self.net_params.input_count;
        let ghost g = self.genome();
        let mut i: usize = 0;
        assert(g.with_inputs(inputs@, 0).nodes =~= g.nodes);
        while i < count
            invariant
                i <= count,
                count == self.net_params.input_count,
                count <= self.nodes.len(),
                inputs@.len() == count,
                self.base_ok(),
                self.genome() == g.with_inputs(inputs@, i as int),
                self.genome().same_skeleton(g),
                self.same_shell(old(self)),
                self.is_evaluation_order_up_to_date == old(self).is_evaluation_order_up_to_date,
            decreases count - i,
        {
            let ghost before = self.genome();
            self.put_value(i, inputs[i]);
            i += 1;
            proof {
                assert(self.genome().nodes =~= g.with_inputs(inputs@, i as int).nodes);
            }
        }
        proof {
            self.lemma_wf_keeps(old(self));
        }
    }

    /// The values of the outputs, the first output first.
    pub fn get_outputs(&self) -> (outputs: Vec<u32>)
        requires
            self.structure_ok(),
        ensures
            outputs@.len() == self.net_params.output_count,
            forall|k: int|
                0 <= k < outputs@.len() ==> #[trigger] outputs@[k] == self.genome().nodes[
                    self.net_params.input_count + k].value,
    {
        let mut outputs: Vec<u32> = Vec::with_capacity(self.net_params.output_count);
        let mut k: usize = 0;
        while k < self.net_params.output_count
            invariant
                k <= self.net_params.output_count,
                self.net_params.input_count + self.net_params.output_count <= self.nodes.len(),
                outputs@.len() == k,
                forall|x: int|
                    0 <= x < k ==> #[trigger] outputs@[x] == self.genome().nodes[
                        self.net_params.input_count + x].value,
            decreases self.net_params.output_count - k,
        {
            let at = self.net_params.input_count + k;
            assert(self.genome().nodes[at as int] == self.nodes[at as int]@);
            outputs.push(self.nodes[at].value);
            k += 1;
        }
        outputs
    }

    /// The value of the node at an index.
    pub fn node_value(&self, i: NodeIndex) -> (value: u32)
        requires
            self.genome().node_in_range(i),
        ensures
            value == self.genome().nodes[i.1 as int].value,
    {
        self.nodes[i.1].value
    }

    /// Stores the value of the node at an index.
    pub fn set_node_value(&mut self, i: NodeIndex, value: u32)
        requires
            old(self).wf(),
            old(self).genome().node_in_range(i),
        ensures
            final(self).wf(),
            final(self).genome() == old(self).genome().with_value(i.1 as int, value),
            old(self).genome().layering_ok() ==> final(self).genome().layering_ok(),
            final(self).same_shell(old(self)),
            final(self).is_evaluation_order_up_to_date == old(self).is_evaluation_order_up_to_date,
    {
        self.put_value(i.1, value);
        proof {
            self.lemma_wf_keeps(old(self));
        }
    }

    /// Whether the value of the node at an index is computed in an
    /// evaluation: that of an input is not, it is given.
    pub fn is_computed(&self, i: NodeIndex) -> (computed: bool)
        requires
            self.genome().node_in_range(i),
        ensures
            computed == (self.genome().nodes[i.1 as int].layer != Layer::Input),
    {
        self.nodes[i.1].layer != Layer::Input
    }

    /// The order in which the nodes are evaluated. The inputs that feed an
    /// output stand in it too, before what they feed; their values are
    /// given, not computed.
    pub fn evaluation_order(&self) -> (order: &Vec<NodeIndex>)
        ensures
            order@ == self.node_order_list@,
    {
        &self.node_order_list
    }

    /// What feeds the node at an index: for every enabled connection that
    /// ends in it, in the order of its list, the node the connection starts
    /// from and the bits of its weight. A disabled connection feeds
    /// nothing.
    pub fn incoming_enabled(&self, i: NodeIndex) -> (feeders: Vec<(NodeIndex, u32)>)
        requires
            self.structure_ok(),
            self.genome().node_in_range(i),
        ensures
            feeders@ == self.genome().all_feeders(i.1 as int),
    {
        let ghost g = self.genome();
        let count = self.nodes[i.1].input_connections.len();
        let mut feeders: Vec<(NodeIndex, u32)> = Vec::new();
        let mut k: usize = 0;
        assert(g.nodes[i.1 as int] == self.nodes[i.1 as int]@);
        while k < count
            invariant
                k <= count,
                i.1 < self.nodes.len(),
                count == self.nodes[i.1 as int].input_connections.len(),
                g == self.genome(),
                g.base_ok(),
                feeders@ == g.feeders(i.1 as int, k as int),
            decreases count - k,
        {
            let at = self.nodes[i.1].input_connections[k];
            proof {
                assert(g.nodes[i.1 as int] == self.nodes[i.1 as int]@);
                let c = g.nodes[i.1 as int].input_connections[k as int];
                assert(c == at);
                assert(g.connection_in_range(c));
                reveal_with_fuel(Genome::feeders, 2);
            }
            let connection = self.connections[at.1];
            if connection.is_enabled {
                feeders.push((connection.input_node, connection.weight));
            }
            k += 1;
        }
        feeders
    }
}

} // verus!

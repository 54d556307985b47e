//! Mutation.
//!
//! A mutation is decided first and applied afterwards. The decision, a
//! [`MutationPlan`], is drawn at random; applying a plan is a function of
//! the genome and the plan alone.

use crate::chance::{may_happen, random_below, roll, scaled_probability, PROBABILITY_ONE};
use crate::neural_net::activation_functions::ActivationFunction;
use crate::neural_net::connections::{Connection, ConnectionId};
use crate::neural_net::genome_lemmas::{
    lemma_same_skeleton_ids,
    lemma_same_skeleton_layering,
    lemma_same_skeleton_ranked,
    lemma_same_skeleton_structure,
    lemma_with_connection_ranked,
    lemma_with_connection_slots,
    lemma_with_node_ranked,
    lemma_with_node_slots,
};
use crate::neural_net::ids::IdAllocator;
use crate::neural_net::kinship::{lemma_compatible_mutated, lemma_compatible_relayered};
use crate::neural_net::layers::Layer;
use crate::neural_net::nets::{
    ConnectionIndex, Genome, MutationParams, Net, NodeIndex, MAX_NODES,
};
use crate::neural_net::nodes::{NodeId, NodeView};
use crate::neural_net::populations::FitnessInfo;
use vstd::prelude::*;

verus! {

/// Where new weights come from. The library carries a weight as the bits of
/// a single-precision number and does no arithmetic on it; whoever
/// implements this trait does.
pub trait WeightSource {
    /// The bits of a weight drawn evenly between -1 and 1.
    fn fresh_weight(&mut self) -> u32;

    /// The bits of `weight` plus an even draw between -1 and 1 times
    /// `max_magnitude`, both given as bits.
    fn perturbed_weight(&mut self, weight: u32, max_magnitude: u32) -> u32;
}

/// What one mutation does to a genome. Each part may be absent.
#[derive(Copy, Clone, Debug)]
pub struct MutationPlan {
    /// A node and the activation function it gets, unless it is an input.
    pub activation: Option<(NodeIndex, ActivationFunction)>,
    /// A connection and the bits of its new weight.
    pub weight: Option<(ConnectionIndex, u32)>,
    /// A connection whose enabled flag is flipped.
    pub toggle: Option<ConnectionIndex>,
    /// Two nodes to join by a new enabled connection, and the bits of its
    /// weight. Two hidden nodes are joined from the shallower to the deeper.
    pub new_connection: Option<(NodeIndex, NodeIndex, u32)>,
    /// A connection to split in two by a new hidden node.
    pub split: Option<ConnectionIndex>,
}

impl MutationPlan {
    /// The plan that changes nothing.
    pub fn nothing() -> (plan: MutationPlan)
        ensures
            plan.activation is None,
            plan.weight is None,
            plan.toggle is None,
            plan.new_connection is None,
            plan.split is None,
    {
        MutationPlan { activation: None, weight: None, toggle: None, new_connection: None, split: None }
    }
}

impl Genome {
    /// Whether the node at an index may start a new connection: it is an
    /// input or a placed hidden node.
    pub open spec fn may_start(self, i: NodeIndex) -> bool {
        &&& self.node_in_range(i)
        &&& self.nodes[i.1 as int].layer != Layer::Output
        &&& self.nodes[i.1 as int].layer != Layer::Unreachable
    }

    /// Whether the node at an index may end a new connection: it is an
    /// output or a placed hidden node.
    pub open spec fn may_end(self, i: NodeIndex) -> bool {
        &&& self.node_in_range(i)
        &&& self.nodes[i.1 as int].layer != Layer::Input
        &&& self.nodes[i.1 as int].layer != Layer::Unreachable
    }

    /// Whether a plan can be applied to the genome.
    pub open spec fn plan_ok(self, plan: MutationPlan) -> bool {
        &&& plan.activation matches Some((i, _)) ==> self.node_in_range(i)
        &&& plan.weight matches Some((c, _)) ==> self.connection_in_range(c)
        &&& plan.toggle matches Some(c) ==> self.connection_in_range(c)
        &&& plan.new_connection matches Some((from, to, _)) ==> self.may_start(from)
            && self.may_end(to) && from != to
        &&& plan.split matches Some(c) ==> self.connection_in_range(c) && self.nodes.len()
            < MAX_NODES
    }

    /// The genome after the first part of a plan.
    pub open spec fn after_activation(self, plan: MutationPlan) -> Genome {
        match plan.activation {
            Some((i, f)) => if self.nodes[i.1 as int].layer != Layer::Input {
                self.with_activation(i.1 as int, f)
            } else {
                self
            },
            None => self,
        }
    }

    /// The genome after the second part of a plan.
    pub open spec fn after_weight(self, plan: MutationPlan) -> Genome {
        match plan.weight {
            Some((c, w)) => self.with_weight(c.1 as int, w),
            None => self,
        }
    }

    /// The genome after the third part of a plan.
    pub open spec fn after_toggle(self, plan: MutationPlan) -> Genome {
        match plan.toggle {
            Some(c) => self.with_enabled(c.1 as int, !self.connections[c.1 as int].is_enabled),
            None => self,
        }
    }

    /// The two nodes in the order in which a new connection joins them: as
    /// given, unless both are hidden and the first is the deeper.
    pub open spec fn oriented(self, from: NodeIndex, to: NodeIndex) -> (NodeIndex, NodeIndex) {
        if self.nodes[from.1 as int].layer is Hidden && self.nodes[to.1 as int].layer is Hidden
            && self.depth(from.1 as int) > self.depth(to.1 as int) {
            (to, from)
        } else {
            (from, to)
        }
    }

    /// The genome after the fourth part of a plan, the new connection
    /// getting the next identifier of `ids`.
    pub open spec fn after_new_connection(self, plan: MutationPlan, ids: IdAllocator) -> Genome {
        match plan.new_connection {
            Some((from, to, w)) => {
                let ends = self.oriented(from, to);
                self.with_connection(
                    self.next_connection(ConnectionId(ids.next_connection), w, true, ends.0, ends.1),
                )
            },
            None => self,
        }
    }

    /// The genome after the connection at `j` was split: the connection is
    /// disabled; a hidden node with the activation function of the node the
    /// connection ends in is added; a connection with the old weight leads
    /// from where the old one starts to the new node, and one with the
    /// neutral weight of the activation function from the new node to where
    /// the old one ends. The node gets the next node identifier of `ids`,
    /// the connections the next two connection identifiers.
    pub open spec fn split_at(self, j: int, ids: IdAllocator) -> Genome {
        let old = self.connections[j];
        let f = self.nodes[old.output_node.1 as int].activation_function;
        let disabled = self.with_enabled(j, false);
        let noded = disabled.with_node(
            disabled.next_node(NodeId(ids.next_node), f, Layer::Hidden(1), 0),
        );
        let middle = NodeIndex(self.id, self.nodes.len() as usize);
        let first = noded.with_connection(
            noded.next_connection(
                ConnectionId(ids.next_connection),
                old.weight,
                true,
                old.input_node,
                middle,
            ),
        );
        first.with_connection(
            first.next_connection(
                ConnectionId((ids.next_connection + 1) as usize),
                f.neutral_bits(),
                true,
                middle,
                old.output_node,
            ),
        )
    }

    /// The genome after the last part of a plan.
    pub open spec fn after_split(self, plan: MutationPlan, ids: IdAllocator) -> Genome {
        match plan.split {
            Some(c) => self.split_at(c.1 as int, ids),
            None => self,
        }
    }

    /// The genome after a plan, but for its layers, which are built anew.
    pub open spec fn mutated(self, plan: MutationPlan, ids: IdAllocator) -> Genome {
        self.after_activation(plan).after_weight(plan).after_toggle(plan).after_new_connection(
            plan,
            ids,
        ).after_split(plan, ids_after_new_connection(plan, ids))
    }
}

/// The allocator after the fourth part of a plan.
pub open spec fn ids_after_new_connection(plan: MutationPlan, ids: IdAllocator) -> IdAllocator {
    if plan.new_connection is Some {
        IdAllocator { next_connection: (ids.next_connection + 1) as usize, ..ids }
    } else {
        ids
    }
}

/// The allocator after the last part of a plan.
pub open spec fn ids_after_split(plan: MutationPlan, ids: IdAllocator) -> IdAllocator {
    if plan.split is Some {
        IdAllocator {
            next_node: (ids.next_node + 1) as usize,
            next_connection: (ids.next_connection + 2) as usize,
            ..ids
        }
    } else {
        ids
    }
}

/// The allocator after a whole plan.
pub open spec fn ids_after_plan(plan: MutationPlan, ids: IdAllocator) -> IdAllocator {
    ids_after_split(plan, ids_after_new_connection(plan, ids))
}

/// A genome whose layering holds stays free of cycles when a connection is
/// added from a placed node to a placed node of the same or a later layer.
pub proof fn lemma_new_connection_ranked(g: Genome, rank: Seq<nat>, c: Connection) -> (new_rank: Seq<
    nat,
>)
    requires
        g.structure_ok(),
        g.layering_ok(),
        g.ranked_by(rank),
        g.node_in_range(c.input_node),
        g.node_in_range(c.output_node),
        c.input_node != c.output_node,
        g.layer(c.input_node.1 as int).is_placed(),
        g.layer(c.output_node.1 as int).is_placed(),
        g.layer(c.input_node.1 as int).number() <= g.layer(c.output_node.1 as int).number(),
    ensures
        g.with_connection(c).ranked_by(new_rank),
{
    let to = c.output_node.1 as int;
    let new_rank = Seq::new(
        g.nodes.len(),
        |x: int|
            if g.layer(x).is_placed() {
                (2 * g.layer(x).number() + if x == to {
                    1int
                } else {
                    0int
                }) as nat
            } else {
                (0x4_0000 + rank[x]) as nat
            },
    );
    assert(g.ranked_by(new_rank)) by {
        assert forall|j: int| 0 <= j < g.connections.len() implies new_rank[#[trigger] g.src(j)]
            < new_rank[g.dst(j)] by {
            assert(g.node_in_range(g.connections[j].input_node));
            assert(g.node_in_range(g.connections[j].output_node));
            assert(rank[g.src(j)] < rank[g.dst(j)]);
            if g.layer(g.dst(j)).is_placed() {
                assert(g.layer(g.src(j)).number() < g.layer(g.dst(j)).number());
            }
        }
    }
    lemma_with_connection_ranked(g, c, new_rank);
    new_rank
}

/// A genome stays free of cycles when a new node is put in the middle of
/// one of its connections.
pub proof fn lemma_split_ranked(
    g: Genome,
    rank: Seq<nat>,
    node: NodeView,
    first: Connection,
    second: Connection,
    j: int,
) -> (new_rank: Seq<nat>)
    requires
        g.base_ok(),
        g.ranked_by(rank),
        0 <= j < g.connections.len(),
        first.input_node == g.connections[j].input_node,
        first.output_node == NodeIndex(g.id, g.nodes.len() as usize),
        second.input_node == NodeIndex(g.id, g.nodes.len() as usize),
        second.output_node == g.connections[j].output_node,
        g.nodes.len() < usize::MAX,
    ensures
        g.with_node(node).with_connection(first).with_connection(second).ranked_by(new_rank),
{
    let a = g.src(j);
    let n = g.nodes.len() as int;
    assert(g.node_in_range(g.connections[j].input_node));
    assert(g.node_in_range(g.connections[j].output_node));
    assert(rank[g.src(j)] < rank[g.dst(j)]);
    let doubled = Seq::new(g.nodes.len(), |x: int| (2 * rank[x]) as nat);
    assert(g.ranked_by(doubled)) by {
        assert forall|k: int| 0 <= k < g.connections.len() implies doubled[#[trigger] g.src(k)]
            < doubled[g.dst(k)] by {
            assert(g.node_in_range(g.connections[k].input_node));
            assert(g.node_in_range(g.connections[k].output_node));
            assert(rank[g.src(k)] < rank[g.dst(k)]);
        }
    }
    let middle = (2 * rank[a] + 1) as nat;
    lemma_with_node_ranked(g, node, doubled, middle);
    let new_rank = doubled.push(middle);
    let noded = g.with_node(node);
    lemma_with_connection_ranked(noded, first, new_rank);
    lemma_with_connection_ranked(noded.with_connection(first), second, new_rank);
    new_rank
}

impl<F: FitnessInfo> Net<F> {
    /// Applies the first three parts of a plan: the activation function,
    /// the weight and the enabled flag.
    fn apply_edits(&mut self, plan: &MutationPlan)
        requires
            old(self).base_ok(),
            old(self).genome().plan_ok(*plan),
        ensures
            final(self).base_ok(),
            final(self).genome() == old(self).genome().after_activation(*plan).after_weight(
                *plan,
            ).after_toggle(*plan),
            final(self).genome().same_skeleton(old(self).genome()),
            final(self).same_shell(old(self)),
            final(self).is_evaluation_order_up_to_date == old(self).is_evaluation_order_up_to_date,
    {
        match plan.activation {
            Some((i, f)) => {
                assert(self.genome().nodes[i.1 as int].layer == self.nodes[i.1 as int].layer);
                if self.nodes[i.1].layer != Layer::Input {
                    self.put_activation(i.1, f);
                }
            },
            None => {},
        }
        match plan.weight {
            Some((c, w)) => {
                self.put_weight(c.1, w);
            },
            None => {},
        }
        match plan.toggle {
            Some(c) => {
                let was = self.connections[c.1].is_enabled;
                self.put_enabled(c.1, !was);
            },
            None => {},
        }
    }

    /// Applies the fourth part of a plan: the new connection.
    fn apply_new_connection(
        &mut self,
        plan: &MutationPlan,
        ids: &mut IdAllocator,
        Ghost(rank): Ghost<Seq<nat>>,
    ) -> (new_rank: Ghost<Seq<nat>>)
        requires
            old(self).structure_ok(),
            old(self).genome().layering_ok(),
            old(self).genome().ranked_by(rank),
            old(self).genome().plan_ok(*plan),
            old(self).genome().ids_below(*old(ids)),
            old(ids).has_room(0, 1),
        ensures
            final(self).structure_ok(),
            final(self).genome() == old(self).genome().after_new_connection(*plan, *old(ids)),
            final(self).genome().ranked_by(new_rank@),
            final(self).genome().ids_below(*final(ids)),
            *final(ids) == ids_after_new_connection(*plan, *old(ids)),
            final(self).same_shell(old(self)),
            final(self).is_evaluation_order_up_to_date == old(self).is_evaluation_order_up_to_date,
    {
        match plan.new_connection {
            Some((from, to, w)) => {
                let ghost g = self.genome();
                assert(g.nodes[from.1 as int].layer == self.nodes[from.1 as int].layer);
                assert(g.nodes[to.1 as int].layer == self.nodes[to.1 as int].layer);
                let ends = match (self.nodes[from.1].layer, self.nodes[to.1].layer) {
                    (Layer::Hidden(a), Layer::Hidden(b)) => if a > b {
                        (to, from)
                    } else {
                        (from, to)
                    },
                    _ => (from, to),
                };
                assert(ends == g.oriented(from, to));
                proof {
                    assert forall|j: int| 0 <= j < g.connections.len() implies (
                    #[trigger] g.connections[j]).id != ConnectionId(ids.next_connection) by {}
                }
                let id = ConnectionId::new_unique(ids);
                let ghost c = g.next_connection(id, w, true, ends.0, ends.1);
                let ghost new_rank = rank;
                proof {
                    new_rank = lemma_new_connection_ranked(g, rank, c);
                    lemma_with_connection_slots(g, c);
                    let h = g.with_connection(c);
                    assert forall|j: int| 0 <= j < h.connections.len() implies (
                    #[trigger] h.connections[j]).id.0 < ids.next_connection by {
                        if j < g.connections.len() {
                            assert(g.connections[j].id.0 < old(ids).next_connection);
                        }
                    }
                    assert forall|i: int| 0 <= i < h.nodes.len() implies (#[trigger] h.nodes[i]).id.0
                        < ids.next_node by {
                        assert(g.nodes[i].id.0 < old(ids).next_node);
                    }
                }
                self.push_connection(id, w, true, ends.0, ends.1);
                Ghost(new_rank)
            },
            None => Ghost(rank),
        }
    }

    /// Applies the last part of a plan: the split of a connection.
    fn apply_split(
        &mut self,
        plan: &MutationPlan,
        ids: &mut IdAllocator,
        Ghost(rank): Ghost<Seq<nat>>,
    ) -> (new_rank: Ghost<Seq<nat>>)
        requires
            old(self).structure_ok(),
            old(self).genome().ranked_by(rank),
            plan.split matches Some(c) ==> old(self).genome().connection_in_range(c) && old(self).nodes.len() < MAX_NODES,
            old(self).genome().ids_below(*old(ids)),
            old(ids).has_room(1, 2),
        ensures
            final(self).structure_ok(),
            final(self).genome() == old(self).genome().after_split(*plan, *old(ids)),
            final(self).genome().ranked_by(new_rank@),
            final(self).genome().ids_below(*final(ids)),
            *final(ids) == ids_after_split(*plan, *old(ids)),
            final(self).same_shell(old(self)),
            final(self).is_evaluation_order_up_to_date == old(self).is_evaluation_order_up_to_date,
    {
        match plan.split {
            Some(c) => {
                let ghost g = self.genome();
                let old_connection = self.connections[c.1];
                proof {
                    assert(old_connection == g.connections[c.1 as int]);
                    assert(g.node_in_range(old_connection.input_node));
                    assert(g.node_in_range(old_connection.output_node));
                }
                self.put_enabled(c.1, false);
                let ghost disabled = self.genome();
                let f = self.nodes[old_connection.output_node.1].activation_function;
                proof {
                    lemma_same_skeleton_structure(g, disabled);
                    lemma_same_skeleton_ranked(g, disabled, rank);
                    lemma_same_skeleton_ids(g, disabled, *ids);
                    assert(disabled.nodes[old_connection.output_node.1 as int]
                        == self.nodes[old_connection.output_node.1 as int]@);
                    assert forall|i: int| 0 <= i < disabled.nodes.len() implies (
                    #[trigger] disabled.nodes[i]).id != NodeId(ids.next_node) by {}
                    assert forall|j: int| 0 <= j < disabled.connections.len() implies (
                    #[trigger] disabled.connections[j]).id.0 < ids.next_connection by {}
                }
                let node_id = NodeId::new_unique(ids);
                let ghost node = disabled.next_node(node_id, f, Layer::Hidden(1), 0);
                let ghost noded = disabled.with_node(node);
                proof {
                    lemma_with_node_slots(disabled, node);
                }
                let middle = self.push_node(node_id, f, Layer::Hidden(1), 0);
                let first_id = ConnectionId::new_unique(ids);
                let ghost first = noded.next_connection(
                    first_id,
                    old_connection.weight,
                    true,
                    old_connection.input_node,
                    middle,
                );
                let ghost firsted = noded.with_connection(first);
                proof {
                    assert forall|j: int| 0 <= j < noded.connections.len() implies (
                    #[trigger] noded.connections[j]).id != first_id by {
                        assert(disabled.connections[j].id.0 < first_id.0);
                    }
                    lemma_with_connection_slots(noded, first);
                }
                self.push_connection(
                    first_id,
                    old_connection.weight,
                    true,
                    old_connection.input_node,
                    middle,
                );
                let second_id = ConnectionId::new_unique(ids);
                let ghost second = firsted.next_connection(
                    second_id,
                    f.neutral_bits(),
                    true,
                    middle,
                    old_connection.output_node,
                );
                let ghost new_rank = rank;
                proof {
                    assert forall|j: int| 0 <= j < firsted.connections.len() implies (
                    #[trigger] firsted.connections[j]).id != second_id by {
                        if j < disabled.connections.len() {
                            assert(disabled.connections[j].id.0 < first_id.0);
                        }
                    }
                    lemma_with_connection_slots(firsted, second);
                    new_rank = lemma_split_ranked(disabled, rank, node, first, second, c.1 as int);
                    let h = firsted.with_connection(second);
                    assert forall|j: int| 0 <= j < h.connections.len() implies (
                    #[trigger] h.connections[j]).id.0 < second_id.0 + 1 by {
                        if j < disabled.connections.len() {
                            assert(disabled.connections[j].id.0 < first_id.0);
                        }
                    }
                    assert forall|i: int| 0 <= i < h.nodes.len() implies (#[trigger] h.nodes[i]).id.0
                        < node_id.0 + 1 by {
                        if i < disabled.nodes.len() {
                            assert(disabled.nodes[i].id.0 < node_id.0);
                        }
                    }
                }
                self.push_connection(
                    second_id,
                    f.get_neutral_value(),
                    true,
                    middle,
                    old_connection.output_node,
                );
                Ghost(new_rank)
            },
            None => Ghost(rank),
        }
    }

    /// Applies a plan and builds the layers and the evaluation order anew.
    /// The genome is then the one that [`Genome::mutated`] describes, with
    /// the layers that its connections give.
    pub fn apply_mutation(&mut self, plan: &MutationPlan, ids: &mut IdAllocator)
        requires
            old(self).settled(),
            old(self).genome().plan_ok(*plan),
            old(self).genome().ids_below(*old(ids)),
            old(ids).has_room(1, 3),
        ensures
            final(self).settled(),
            final(self).is_evaluation_order_up_to_date,
            final(self).genome().same_but_layers(
                old(self).genome().mutated(*plan, *old(ids)),
            ),
            final(self).genome().ids_below(*final(ids)),
            *final(ids) == ids_after_plan(*plan, *old(ids)),
            final(self).id == old(self).id,
            final(self).net_params == old(self).net_params,
            final(self).fitness_info == old(self).fitness_info,
            forall|x: Genome|
                #![trigger final(self).genome().compatible(x)]
                old(self).genome().compatible(x) && x.ids_below(*old(ids))
                    ==> final(self).genome().compatible(x),
    {
        let ghost g = self.genome();
        let ghost rank = choose|rank: Seq<nat>| g.ranked_by(rank);
        self.apply_edits(plan);
        proof {
            let edited = self.genome();
            lemma_same_skeleton_structure(g, edited);
            lemma_same_skeleton_layering(g, edited);
            lemma_same_skeleton_ranked(g, edited, rank);
            lemma_same_skeleton_ids(g, edited, *ids);
            assert(edited.plan_ok(*plan)) by {
                match plan.new_connection {
                    Some((from, to, _)) => {
                        assert(edited.nodes[from.1 as int].layer == g.nodes[from.1 as int].layer);
                        assert(edited.nodes[to.1 as int].layer == g.nodes[to.1 as int].layer);
                    },
                    None => {},
                }
            }
        }
        let Ghost(rank) = self.apply_new_connection(plan, ids, Ghost(rank));
        let Ghost(rank) = self.apply_split(plan, ids, Ghost(rank));
        self.is_evaluation_order_up_to_date = false;
        let ghost after = self.genome();
        self.build_evaluation_order();
        proof {
            let built = self.genome();
            assert(built.ids_below(*ids)) by {
                assert forall|i: int| 0 <= i < built.nodes.len() implies (
                #[trigger] built.nodes[i]).id.0 < ids.next_node by {
                    assert(after.nodes[i].id.0 < ids.next_node);
                }
            }
            assert forall|x: Genome|
                #![trigger built.compatible(x)]
                g.compatible(x) && x.ids_below(*old(ids)) implies built.compatible(x) by {
                lemma_compatible_mutated(g, *plan, *old(ids), x);
                lemma_compatible_relayered(after, built, x);
            }
        }
    }
}

impl Genome {
    /// What the probabilities say of a plan drawn for the genome. A part
    /// whose probability is zero is absent, and so is a part that has
    /// nothing to work on: no node, no connection, fewer than two nodes
    /// that may start a connection, no room for another node. The weight,
    /// the toggle and the split are present when their probability is
    /// certain and there is something to work on.
    pub open spec fn plan_allowed(
        self,
        plan: MutationPlan,
        params: MutationParams,
        multiplier: u32,
    ) -> bool {
        &&& plan.activation is Some ==> may_happen(
            params.prob_mutate_activation_function_of_node,
            multiplier,
        ) && self.nodes.len() > 0
        &&& plan.weight is Some ==> may_happen(params.prob_mutate_weight, multiplier)
        &&& plan.toggle is Some ==> may_happen(params.prob_toggle_enabled, multiplier)
        &&& plan.new_connection is Some ==> may_happen(params.prob_add_connection, multiplier)
            && exists|a: int, b: int|
            0 <= a < b < self.nodes.len() && #[trigger] self.may_start(NodeIndex(self.id, a as usize))
                && #[trigger] self.may_start(NodeIndex(self.id, b as usize))
        &&& plan.split is Some ==> may_happen(params.prob_add_node, multiplier)
        &&& self.connections.len() > 0 && scaled_probability(params.prob_mutate_weight, multiplier)
            == PROBABILITY_ONE ==> plan.weight is Some
        &&& self.connections.len() > 0 && scaled_probability(
            params.prob_toggle_enabled,
            multiplier,
        ) == PROBABILITY_ONE ==> plan.toggle is Some
        &&& self.connections.len() > 0 && self.nodes.len() < MAX_NODES && scaled_probability(
            params.prob_add_node,
            multiplier,
        ) == PROBABILITY_ONE ==> plan.split is Some
    }
}

impl<F: FitnessInfo> Net<F> {
    /// The nodes that may start a new connection, in their order.
    fn input_and_hidden(&self) -> (list: Vec<NodeIndex>)
        requires
            self.structure_ok(),
        ensures
            forall|k: int| 0 <= k < list.len() ==> self.genome().may_start(#[trigger] list[k]),
            forall|i: int|
                0 <= i < self.nodes.len() && #[trigger] self.genome().may_start(
                    NodeIndex(self.id, i as usize),
                ) ==> list@.contains(NodeIndex(self.id, i as usize)),
            list@.no_duplicates(),
    {
        let mut list: Vec<NodeIndex> = Vec::new();
        let mut i: usize = 0;
        while i < self.nodes.len()
            invariant
                i <= self.nodes.len(),
                forall|k: int|
                    0 <= k < list.len() ==> self.genome().may_start(#[trigger] list[k]) && list[k].1
                        < i,
                forall|x: int|
                    0 <= x < i && #[trigger] self.genome().may_start(NodeIndex(self.id, x as usize))
                        ==> list@.contains(NodeIndex(self.id, x as usize)),
                list@.no_duplicates(),
            decreases self.nodes.len() - i,
        {
            assert(self.genome().nodes[i as int].layer == self.nodes[i as int].layer);
            let layer = self.nodes[i].layer;
            if layer != Layer::Output && layer != Layer::Unreachable {
                let ghost before = list@;
                list.push(NodeIndex(self.id, i));
                proof {
                    assert forall|x: int|
                        0 <= x < i + 1 && #[trigger] self.genome().may_start(
                            NodeIndex(self.id, x as usize),
                        ) implies list@.contains(NodeIndex(self.id, x as usize)) by {
                        if x < i {
                            let at = choose|at: int|
                                0 <= at < before.len() && before[at] == NodeIndex(
                                    self.id,
                                    x as usize,
                                );
                            assert(list@[at] == before[at]);
                        } else {
                            assert(list@[before.len() as int] == NodeIndex(self.id, x as usize));
                        }
                    }
                }
            }
            i += 1;
        }
        list
    }

    /// The nodes that may end a new connection, in their order: every such
    /// node once, and none else.
    fn hidden_and_output(&self) -> (list: Vec<NodeIndex>)
        requires
            self.structure_ok(),
        ensures
            forall|k: int| 0 <= k < list.len() ==> self.genome().may_end(#[trigger] list[k]),
            forall|i: int|
                0 <= i < self.nodes.len() && #[trigger] self.genome().may_end(
                    NodeIndex(self.id, i as usize),
                ) ==> list@.contains(NodeIndex(self.id, i as usize)),
            forall|a: int, b: int|
                #![trigger list[a], list[b]]
                0 <= a < b < list.len() ==> list[a].1 < list[b].1,
    {
        let mut list: Vec<NodeIndex> = Vec::new();
        let mut i: usize = 0;
        while i < self.nodes.len()
            invariant
                i <= self.nodes.len(),
                forall|k: int|
                    0 <= k < list.len() ==> self.genome().may_end(#[trigger] list[k]) && list[k].1
                        < i,
                forall|x: int|
                    0 <= x < i && #[trigger] self.genome().may_end(NodeIndex(self.id, x as usize))
                        ==> list@.contains(NodeIndex(self.id, x as usize)),
                forall|a: int, b: int|
                    #![trigger list[a], list[b]]
                    0 <= a < b < list.len() ==> list[a].1 < list[b].1,
            decreases self.nodes.len() - i,
        {
            assert(self.genome().nodes[i as int].layer == self.nodes[i as int].layer);
            let layer = self.nodes[i].layer;
            if layer != Layer::Input && layer != Layer::Unreachable {
                let ghost before = list@;
                list.push(NodeIndex(self.id, i));
                proof {
                    assert forall|x: int|
                        0 <= x < i + 1 && #[trigger] self.genome().may_end(
                            NodeIndex(self.id, x as usize),
                        ) implies list@.contains(NodeIndex(self.id, x as usize)) by {
                        if x < i {
                            let at = choose|at: int|
                                0 <= at < before.len() && before[at] == NodeIndex(
                                    self.id,
                                    x as usize,
                                );
                            assert(list@[at] == before[at]);
                        } else {
                            assert(list@[before.len() as int] == NodeIndex(self.id, x as usize));
                        }
                    }
                    assert forall|a: int, b: int|
                        #![trigger list[a], list[b]]
                        0 <= a < b < list.len() implies list[a].1 < list[b].1 by {
                        assert(list[a] == before[a]);
                        if b < before.len() {
                            assert(list[b] == before[b]);
                        }
                    }
                }
            }
            i += 1;
        }
        list
    }

    /// One item of the list, drawn evenly.
    fn choose_index(id_list: &Vec<NodeIndex>) -> (chosen: NodeIndex)
        requires
            id_list.len() > 0,
        ensures
            id_list@.contains(chosen),
    {
        let i = random_below(id_list.len());
        id_list[i]
    }

    /// One item of the list other than `not`, drawn evenly; none if twenty
    /// draws in a row gave `not`, or if the list is empty. A list that has
    /// an item and does not hold `not` gives one at the first draw.
    fn choose_index_not(id_list: &Vec<NodeIndex>, not: NodeIndex) -> (chosen: Option<NodeIndex>)
        ensures
            chosen matches Some(x) ==> id_list@.contains(x) && x != not,
            id_list.len() > 0 && !id_list@.contains(not) ==> chosen is Some,
            id_list.len() == 0 ==> chosen is None,
    {
        if id_list.len() == 0 {
            return None;
        }
        let mut tries: usize = 0;
        while tries < 20
            invariant
                tries <= 20,
                id_list.len() > 0,
                tries > 0 ==> id_list@.contains(not),
            decreases 20 - tries,
        {
            let i = random_below(id_list.len());
            let id = id_list[i];
            if id != not {
                return Some(id);
            }
            assert(id_list@[i as int] == not);
            tries += 1;
        }
        None
    }

    /// Draws a plan: each part is rolled for with its probability times the
    /// multiplier, and what it works on is drawn evenly.
    pub fn draw_mutation_plan<W: WeightSource>(
        &self,
        mut_params: &MutationParams,
        mutation_multiplier: u32,
        weights: &mut W,
    ) -> (plan: MutationPlan)
        requires
            self.structure_ok(),
        ensures
            self.genome().plan_ok(plan),
            self.genome().plan_allowed(plan, *mut_params, mutation_multiplier),
    {
        let ghost g = self.genome();
        let input_and_hidden = self.input_and_hidden();
        let hidden_and_output = self.hidden_and_output();
        let node_count = self.nodes.len();
        let connection_count = self.connections.len();
        let mut plan = MutationPlan::nothing();

        // Change a node's activation function.
        if roll(mut_params.prob_mutate_activation_function_of_node, mutation_multiplier)
            && node_count > 0 {
            let i = random_below(node_count);
            if self.nodes[i].layer != Layer::Input {
                plan.activation = Some((NodeIndex(self.id, i), ActivationFunction::choose_random()));
            }
        }
        // Change a connection's weight.
        if roll(mut_params.prob_mutate_weight, mutation_multiplier) && connection_count > 0 {
            let j = random_below(connection_count);
            let weight = weights.perturbed_weight(
                self.connections[j].weight,
                mut_params.max_weight_change_magnitude,
            );
            plan.weight = Some((ConnectionIndex(self.id, j), weight));
        }
        // Toggle a connection.
        if roll(mut_params.prob_toggle_enabled, mutation_multiplier) && connection_count > 0 {
            let j = random_below(connection_count);
            plan.toggle = Some(ConnectionIndex(self.id, j));
        }
        // Add a connection.
        if roll(mut_params.prob_add_connection, mutation_multiplier) && input_and_hidden.len() > 1 {
            let from = Self::choose_index(&input_and_hidden);
            match Self::choose_index_not(&hidden_and_output, from) {
                Some(to) => {
                    plan.new_connection = Some((from, to, weights.fresh_weight()));
                    proof {
                        let a = input_and_hidden@[0];
                        let b = input_and_hidden@[1];
                        assert(g.may_start(a) && g.may_start(b) && a != b);
                        if a.1 < b.1 {
                            assert(g.may_start(NodeIndex(g.id, a.1 as int as usize)));
                            assert(g.may_start(NodeIndex(g.id, b.1 as int as usize)));
                        } else {
                            assert(g.may_start(NodeIndex(g.id, b.1 as int as usize)));
                            assert(g.may_start(NodeIndex(g.id, a.1 as int as usize)));
                        }
                    }
                },
                None => {},
            }
        }
        // Add a node.
        if roll(mut_params.prob_add_node, mutation_multiplier) && connection_count > 0 && node_count
            < MAX_NODES {
            let j = random_below(connection_count);
            plan.split = Some(ConnectionIndex(self.id, j));
        }
        plan
    }

    /// Mutates the genome: draws a plan, applies it, and builds the layers
    /// and the evaluation order anew.
    pub fn mutate_self<W: WeightSource>(
        &mut self,
        mut_params: &MutationParams,
        mutation_multiplier: u32,
        weights: &mut W,
        ids: &mut IdAllocator,
    )
        requires
            old(self).settled(),
            old(self).genome().ids_below(*old(ids)),
            old(ids).has_room(1, 3),
        ensures
            final(self).settled(),
            final(self).is_evaluation_order_up_to_date,
            exists|plan: MutationPlan|
                {
                    &&& old(self).genome().plan_ok(plan)
                    &&& old(self).genome().plan_allowed(plan, *mut_params, mutation_multiplier)
                    &&& #[trigger] final(self).genome().same_but_layers(
                        old(self).genome().mutated(plan, *old(ids)),
                    )
                    &&& *final(ids) == ids_after_plan(plan, *old(ids))
                },
            final(self).genome().ids_below(*final(ids)),
            final(self).id == old(self).id,
            final(self).net_params == old(self).net_params,
            final(self).fitness_info == old(self).fitness_info,
            old(ids).no_later_than(*final(ids)),
            forall|x: Genome|
                #![trigger final(self).genome().compatible(x)]
                old(self).genome().compatible(x) && x.ids_below(*old(ids))
                    ==> final(self).genome().compatible(x),
    {
        let plan = self.draw_mutation_plan(mut_params, mutation_multiplier, weights);
        self.apply_mutation(&plan, ids);
    }
}

} // verus!

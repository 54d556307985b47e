//! Crossing two genomes by a plan.

use crate::chance::{coin, may_happen, random_below, random_ratio, roll, scaled_probability, PROBABILITY_ONE};
use crate::neural_net::activation_functions::ActivationFunction;
use crate::neural_net::connections::{Connection, ConnectionId};
use crate::neural_net::crossover::{CrossoverPlan, first_wins};
use crate::neural_net::genome_lemmas::{
    lemma_with_connection_ranked, lemma_with_connection_slots,
};
use crate::neural_net::ids::IdAllocator;
use crate::neural_net::kinship::{lemma_compatible_crossed, lemma_compatible_relayered, lemma_ends_in_range};
use crate::neural_net::layers::Layer;
use crate::neural_net::mutation::{MutationPlan, WeightSource};
use crate::neural_net::nets::{Genome, Net, NetId, NodeIndex};
use crate::neural_net::nets::MutationParams;
use crate::neural_net::nodes::{NodeId, NodeView};
use crate::neural_net::populations::FitnessInfo;
use crate::tables::{id_table_entries, lookup, IdTable};
use vstd::prelude::*;

verus! {

impl Genome {
    /// Where in the winner the node stands that the plan leaves out, if the
    /// winner has it.
    pub open spec fn excluded_position(self, plan: CrossoverPlan) -> Option<int> {
        match plan.excluded_node {
            Some(id) => if self.has_node_id(id) {
                Some(self.node_position(id))
            } else {
                None
            },
            None => None,
        }
    }

    /// How many of the first `i` nodes of the winner the child takes.
    pub open spec fn kept_before(self, plan: CrossoverPlan, i: int) -> int {
        match self.excluded_position(plan) {
            Some(x) => if x < i {
                i - 1
            } else {
                i
            },
            None => i,
        }
    }

    /// The position in the winner of the node at position `k` of the child.
    pub open spec fn origin_of(self, plan: CrossoverPlan, k: int) -> int {
        match self.excluded_position(plan) {
            Some(x) => if k >= x {
                k + 1
            } else {
                k
            },
            None => k,
        }
    }

    /// Whether the nodes of `child` are those that the child takes of the
    /// first `i` nodes of the winner `self`: the same identifiers in the
    /// same order, inputs for inputs and outputs for outputs.
    pub open spec fn child_nodes_match(self, plan: CrossoverPlan, child: Genome, i: int) -> bool {
        &&& child.nodes.len() == self.kept_before(plan, i)
        &&& child.input_count == self.input_count
        &&& child.output_count == self.output_count
        &&& forall|k: int|
            0 <= k < child.nodes.len() ==> {
                let o = self.origin_of(plan, k);
                &&& 0 <= o < i
                &&& (#[trigger] child.nodes[k]).id == self.nodes[o].id
                &&& (child.nodes[k].layer == Layer::Input) == (self.nodes[o].layer == Layer::Input)
                &&& (child.nodes[k].layer == Layer::Output) == (self.nodes[o].layer
                    == Layer::Output)
            }
    }
}

/// A genome with distinct identifiers has the node of an identifier at one
/// position only.
pub proof fn lemma_node_position(g: Genome, i: int)
    requires
        g.ids_distinct(),
        0 <= i < g.nodes.len(),
    ensures
        g.has_node_id(g.nodes[i].id),
        g.node_position(g.nodes[i].id) == i,
{
    let id = g.nodes[i].id;
    let p = g.node_position(id);
    assert(0 <= p < g.nodes.len() && g.nodes[p].id == id);
    if p < i {
        assert(g.nodes[p].id != g.nodes[i].id);
    } else if i < p {
        assert(g.nodes[i].id != g.nodes[p].id);
    }
}

/// A genome with distinct identifiers has the connection of an identifier
/// at one position only.
pub proof fn lemma_connection_position(g: Genome, j: int)
    requires
        g.ids_distinct(),
        0 <= j < g.connections.len(),
    ensures
        g.has_connection_id(g.connections[j].id),
        g.connection_position(g.connections[j].id) == j,
{
    let id = g.connections[j].id;
    let p = g.connection_position(id);
    assert(0 <= p < g.connections.len() && g.connections[p].id == id);
    if p < j {
        assert(g.connections[p].id != g.connections[j].id);
    } else if j < p {
        assert(g.connections[j].id != g.connections[p].id);
    }
}

impl<F: FitnessInfo> Net<F> {
    /// What the table of node identifiers says of an identifier is what the
    /// genome says.
    pub proof fn lemma_node_lookup(&self, id: NodeId)
        requires
            self.base_ok(),
        ensures
            match lookup(id_table_entries(self.map_node_id_to_index), id.0) {
                Some(at) => self.genome().has_node_id(id) && self.genome().node_position(id) == at,
                None => !self.genome().has_node_id(id),
            },
    {
        let g = self.genome();
        let entries = id_table_entries(self.map_node_id_to_index);
        if entries.contains_key(id.0) {
            let at = entries[id.0] as int;
            assert(self.nodes[at].id.0 == id.0);
            assert(g.nodes[at].id == id);
            lemma_node_position(g, at);
        } else {
            if g.has_node_id(id) {
                let i = choose|i: int| 0 <= i < g.nodes.len() && (#[trigger] g.nodes[i]).id == id;
                assert(lookup(entries, self.nodes[i].id.0) == Some(i as usize));
            }
        }
    }

    /// What the table of connection identifiers says of an identifier is
    /// what the genome says.
    pub proof fn lemma_connection_lookup(&self, id: ConnectionId)
        requires
            self.base_ok(),
        ensures
            match lookup(id_table_entries(self.map_connection_id_to_index), id.0) {
                Some(at) => self.genome().has_connection_id(id) && self.genome().connection_position(
                    id,
                ) == at,
                None => !self.genome().has_connection_id(id),
            },
    {
        let g = self.genome();
        let entries = id_table_entries(self.map_connection_id_to_index);
        if entries.contains_key(id.0) {
            let at = entries[id.0] as int;
            assert(self.connections[at].id.0 == id.0);
            assert(g.connections[at].id == id);
            lemma_connection_position(g, at);
        } else {
            if g.has_connection_id(id) {
                let j = choose|j: int|
                    0 <= j < g.connections.len() && (#[trigger] g.connections[j]).id == id;
                assert(lookup(entries, self.connections[j].id.0) == Some(j as usize));
            }
        }
    }

    /// The copy of the winner's node at `i` that the child takes: its
    /// identifier, its activation function, its layer and the bits of its
    /// value.
    fn node_source(winner: &Net<F>, loser: &Net<F>, plan: &CrossoverPlan, i: usize) -> (source: (
        NodeId,
        ActivationFunction,
        Layer,
        u32,
    ))
        requires
            winner.structure_ok(),
            loser.structure_ok(),
            winner.genome().compatible(loser.genome()),
            winner.genome().cross_plan_ok(*plan),
            i < winner.nodes.len(),
        ensures
            source.0 == winner.genome().nodes[i as int].id,
            source.1 == winner.genome().node_source(loser.genome(), *plan, i as int).activation_function,
            source.2 == winner.genome().node_source(loser.genome(), *plan, i as int).layer,
            source.3 == winner.genome().node_source(loser.genome(), *plan, i as int).value,
            (source.2 == Layer::Input) == (winner.genome().nodes[i as int].layer == Layer::Input),
            (source.2 == Layer::Output) == (winner.genome().nodes[i as int].layer == Layer::Output),
    {
        let ghost w = winner.genome();
        let ghost l = loser.genome();
        let node_winner = &winner.nodes[i];
        proof {
            assert(w.nodes[i as int] == node_winner@);
            loser.lemma_node_lookup(node_winner.id);
        }
        match loser.map_node_id_to_index.get(node_winner.id.0) {
            None => (
                node_winner.id,
                node_winner.activation_function,
                node_winner.layer,
                node_winner.value,
            ),
            Some(at) => if plan.node_from_loser[i] {
                let node_loser = &loser.nodes[at];
                proof {
                    assert(l.nodes[at as int] == node_loser@);
                    assert(w.nodes[i as int].id == l.nodes[at as int].id);
                    assert(w.is_input_slot(i as int) == l.is_input_slot(at as int));
                }
                (
                    node_loser.id,
                    node_loser.activation_function,
                    node_loser.layer,
                    node_loser.value,
                )
            } else {
                (
                    node_winner.id,
                    node_winner.activation_function,
                    node_winner.layer,
                    node_winner.value,
                )
            },
        }
    }

    /// Goes through the winner's node at `i`.
    fn cross_node_into(&mut self, winner: &Net<F>, loser: &Net<F>, plan: &CrossoverPlan, i: usize)
        requires
            winner.structure_ok(),
            loser.structure_ok(),
            winner.genome().compatible(loser.genome()),
            winner.genome().cross_plan_ok(*plan),
            i < winner.nodes.len(),
            old(self).base_ok(),
            old(self).genome() == winner.genome().cross_nodes(
                loser.genome(),
                *plan,
                old(self).id,
                i as int,
            ),
            winner.genome().child_nodes_match(*plan, old(self).genome(), i as int),
        ensures
            final(self).base_ok(),
            final(self).genome() == winner.genome().cross_nodes(
                loser.genome(),
                *plan,
                old(self).id,
                i + 1,
            ),
            winner.genome().child_nodes_match(*plan, final(self).genome(), i + 1),
            final(self).same_shell(old(self)),
            final(self).is_evaluation_order_up_to_date == old(self).is_evaluation_order_up_to_date,
    {
        let ghost w = winner.genome();
        let ghost l = loser.genome();
        let ghost before = self.genome();
        let excluded = match plan.excluded_node {
            Some(id) => id == winner.nodes[i].id,
            None => false,
        };
        proof {
            assert(w.nodes[i as int] == winner.nodes[i as int]@);
            assert(excluded == !w.keeps_node(*plan, i as int));
        }
        if !excluded {
            let (id, activation_function, layer, value) = Self::node_source(winner, loser, plan, i);
            proof {
                lemma_cross_node_ready(w, *plan, before, i as int);
            }
            self.push_node(id, activation_function, layer, value);
            proof {
                lemma_cross_node_done(
                    w,
                    l,
                    *plan,
                    before,
                    i as int,
                    before.next_node(id, activation_function, layer, value),
                );
            }
        } else {
            proof {
                lemma_cross_node_skipped(w, l, *plan, before, i as int);
            }
        }
    }

    /// Gives the child the nodes of the winner, but for the one the plan
    /// leaves out, each in the copy the plan names.
    pub(crate) fn cross_nodes_into(&mut self, winner: &Net<F>, loser: &Net<F>, plan: &CrossoverPlan)
        requires
            winner.structure_ok(),
            loser.structure_ok(),
            winner.genome().compatible(loser.genome()),
            winner.genome().cross_plan_ok(*plan),
            old(self).base_ok(),
            old(self).genome() == winner.genome().cross_nodes(
                loser.genome(),
                *plan,
                old(self).id,
                0,
            ),
        ensures
            final(self).base_ok(),
            final(self).genome() == winner.genome().cross_nodes(
                loser.genome(),
                *plan,
                old(self).id,
                winner.nodes.len() as int,
            ),
            winner.genome().child_nodes_match(*plan, final(self).genome(), winner.nodes.len() as int),
            final(self).same_shell(old(self)),
            final(self).is_evaluation_order_up_to_date == old(self).is_evaluation_order_up_to_date,
    {
        let ghost cid = self.id;
        let n = winner.nodes.len();
        let mut i: usize = 0;
        proof {
            reveal_with_fuel(Genome::cross_nodes, 1);
        }
        while i < n
            invariant
                i <= n,
                n == winner.nodes.len(),
                winner.structure_ok(),
                loser.structure_ok(),
                winner.genome().compatible(loser.genome()),
                winner.genome().cross_plan_ok(*plan),
                self.base_ok(),
                self.id == cid,
                self.genome() == winner.genome().cross_nodes(loser.genome(), *plan, cid, i as int),
                winner.genome().child_nodes_match(*plan, self.genome(), i as int),
                self.same_shell(old(self)),
                self.is_evaluation_order_up_to_date == old(self).is_evaluation_order_up_to_date,
            decreases n - i,
        {
            self.cross_node_into(winner, loser, plan, i);
            i += 1;
        }
    }

    /// What holds while the connections of the winner are gone through,
    /// `j` of them so far.
    pub open spec fn crossing_ok(
        &self,
        winner: &Net<F>,
        loser: &Net<F>,
        plan: CrossoverPlan,
        start: Genome,
        child_rank: Seq<nat>,
        j: int,
    ) -> bool {
        &&& self.node_table_ok()
        &&& self.connection_table_ok()
        &&& winner.genome().crossing_state(
            loser.genome(),
            plan,
            start,
            self.genome(),
            child_rank,
            j,
        )
    }

    /// The copy of the winner's connection at `j` that the child takes:
    /// its identifier, the bits of its weight, and the identifiers of the
    /// nodes it joins in the parent it comes from.
    fn connection_source(winner: &Net<F>, loser: &Net<F>, plan: &CrossoverPlan, j: usize) -> (source:
        (ConnectionId, u32, NodeId, NodeId))
        requires
            winner.structure_ok(),
            loser.structure_ok(),
            winner.genome().compatible(loser.genome()),
            winner.genome().cross_plan_ok(*plan),
            j < winner.connections.len(),
        ensures
            source.0 == winner.genome().connections[j as int].id,
            source.1 == winner.genome().connection_source(loser.genome(), *plan, j as int).weight,
            source.2 == winner.genome().nodes[winner.genome().src(j as int)].id,
            source.3 == winner.genome().nodes[winner.genome().dst(j as int)].id,
    {
        let ghost w = winner.genome();
        let ghost l = loser.genome();
        let connection_winner = winner.connections[j];
        proof {
            assert(w.connections[j as int] == connection_winner);
            assert(w.node_in_range(connection_winner.input_node));
            assert(w.node_in_range(connection_winner.output_node));
            lemma_connection_position(w, j as int);
            assert(w.nodes[w.src(j as int)] == winner.nodes[connection_winner.input_node.1 as int]@);
            assert(w.nodes[w.dst(j as int)]
                == winner.nodes[connection_winner.output_node.1 as int]@);
            loser.lemma_connection_lookup(connection_winner.id);
        }
        match loser.map_connection_id_to_index.get(connection_winner.id.0) {
            None => (
                connection_winner.id,
                connection_winner.weight,
                winner.nodes[connection_winner.input_node.1].id,
                winner.nodes[connection_winner.output_node.1].id,
            ),
            Some(at) => if plan.connection_from_loser[j] {
                let connection_loser = loser.connections[at];
                proof {
                    assert(l.connections[at as int] == connection_loser);
                    assert(l.node_in_range(connection_loser.input_node));
                    assert(l.node_in_range(connection_loser.output_node));
                    assert(w.connections[j as int].id == l.connections[at as int].id);
                    assert(l.nodes[l.src(at as int)]
                        == loser.nodes[connection_loser.input_node.1 as int]@);
                    assert(l.nodes[l.dst(at as int)]
                        == loser.nodes[connection_loser.output_node.1 as int]@);
                }
                (
                    connection_loser.id,
                    connection_loser.weight,
                    loser.nodes[connection_loser.input_node.1].id,
                    loser.nodes[connection_loser.output_node.1].id,
                )
            } else {
                (
                    connection_winner.id,
                    connection_winner.weight,
                    winner.nodes[connection_winner.input_node.1].id,
                    winner.nodes[connection_winner.output_node.1].id,
                )
            },
        }
    }

    /// Whether the child takes the winner's connection at `j`.
    fn keeps(winner: &Net<F>, plan: &CrossoverPlan, j: usize) -> (kept: bool)
        requires
            winner.structure_ok(),
            j < winner.connections.len(),
        ensures
            kept == winner.genome().keeps_connection(*plan, j as int),
    {
        let ghost w = winner.genome();
        let connection_winner = winner.connections[j];
        proof {
            assert(w.connections[j as int] == connection_winner);
            assert(w.node_in_range(connection_winner.input_node));
            assert(w.node_in_range(connection_winner.output_node));
            assert(w.nodes[w.src(j as int)] == winner.nodes[connection_winner.input_node.1 as int]@);
            assert(w.nodes[w.dst(j as int)]
                == winner.nodes[connection_winner.output_node.1 as int]@);
        }
        let left_out = match plan.excluded_connection {
            Some(id) => id == connection_winner.id,
            None => false,
        };
        let touches = match plan.excluded_node {
            Some(id) => id == winner.nodes[connection_winner.input_node.1].id || id
                == winner.nodes[connection_winner.output_node.1].id,
            None => false,
        };
        !left_out && !touches
    }

    /// Goes through the winner's connection at `j`.
    fn cross_connection_into(
        &mut self,
        winner: &Net<F>,
        loser: &Net<F>,
        plan: &CrossoverPlan,
        j: usize,
        Ghost(start): Ghost<Genome>,
        Ghost(rank): Ghost<Seq<nat>>,
        Ghost(child_rank): Ghost<Seq<nat>>,
    )
        requires
            winner.structure_ok(),
            loser.structure_ok(),
            winner.genome().ranked_by(rank),
            winner.genome().compatible(loser.genome()),
            winner.genome().cross_plan_ok(*plan),
            child_rank == Seq::new(
                start.nodes.len(),
                |k: int| rank[winner.genome().origin_of(*plan, k)],
            ),
            j < winner.connections.len(),
            old(self).crossing_ok(winner, loser, *plan, start, child_rank, j as int),
        ensures
            final(self).crossing_ok(winner, loser, *plan, start, child_rank, j + 1),
            final(self).same_shell(old(self)),
            final(self).is_evaluation_order_up_to_date == old(self).is_evaluation_order_up_to_date,
    {
        let ghost w = winner.genome();
        let ghost l = loser.genome();
        let ghost before = self.genome();
        if Self::keeps(winner, plan, j) {
            let is_enabled = winner.connections[j].is_enabled;
            let (id, weight, input_node_id, output_node_id) = Self::connection_source(
                winner,
                loser,
                plan,
                j,
            );
            let ghost ka = w.child_position(*plan, w.src(j as int));
            let ghost kb = w.child_position(*plan, w.dst(j as int));
            proof {
                assert(before.structure_ok()) by {
                    reveal(Genome::sound);
                }
                lemma_cross_ready(w, l, *plan, start, before, rank, child_rank, j as int);
                assert(self.nodes[ka]@ == before.nodes[ka]);
                assert(self.nodes[kb]@ == before.nodes[kb]);
                self.lemma_node_lookup(input_node_id);
                self.lemma_node_lookup(output_node_id);
                lemma_node_position(before, ka);
                lemma_node_position(before, kb);
            }
            let input_at = match self.map_node_id_to_index.get(input_node_id.0) {
                Some(at) => at,
                None => 0,
            };
            let output_at = match self.map_node_id_to_index.get(output_node_id.0) {
                Some(at) => at,
                None => 0,
            };
            assert(input_at == ka && output_at == kb);
            let ghost added = before.next_connection(
                id,
                weight,
                is_enabled,
                NodeIndex(self.id, input_at),
                NodeIndex(self.id, output_at),
            );
            self.push_connection(
                id,
                weight,
                is_enabled,
                NodeIndex(self.id, input_at),
                NodeIndex(self.id, output_at),
            );
            proof {
                assert(before.with_connection(added).sound()) by {
                    lemma_with_connection_slots(before, added);
                    reveal(Genome::sound);
                }
                lemma_cross_done(w, l, *plan, start, before, rank, child_rank, j as int, added);
            }
        } else {
            proof {
                lemma_cross_skipped(w, l, *plan, start, before, child_rank, j as int);
            }
        }
    }

    /// Gives the child the connections of the winner, but for the one the
    /// plan leaves out and those that touch the node it leaves out, each in
    /// the copy the plan names and with the winner's enabled flag.
    pub(crate) fn cross_connections_into(
        &mut self,
        winner: &Net<F>,
        loser: &Net<F>,
        plan: &CrossoverPlan,
        Ghost(rank): Ghost<Seq<nat>>,
    )
        requires
            winner.structure_ok(),
            loser.structure_ok(),
            winner.genome().ranked_by(rank),
            winner.genome().compatible(loser.genome()),
            winner.genome().cross_plan_ok(*plan),
            old(self).base_ok(),
            old(self).genome() == winner.genome().cross_nodes(
                loser.genome(),
                *plan,
                old(self).id,
                winner.nodes.len() as int,
            ),
            winner.genome().child_nodes_match(*plan, old(self).genome(), winner.nodes.len() as int),
        ensures
            final(self).structure_ok(),
            final(self).genome() == winner.genome().crossed(loser.genome(), *plan, old(self).id),
            final(self).genome().acyclic(),
            winner.genome().child_nodes_match(*plan, final(self).genome(), winner.nodes.len() as int),
            winner.genome().child_connections_match(*plan, final(self).genome()),
            final(self).same_shell(old(self)),
            final(self).is_evaluation_order_up_to_date == old(self).is_evaluation_order_up_to_date,
    {
        let ghost w = winner.genome();
        let ghost l = loser.genome();
        let ghost start = self.genome();
        let ghost n = w.nodes.len() as int;
        let ghost child_rank = Seq::new(start.nodes.len(), |k: int| rank[w.origin_of(*plan, k)]);
        let m = winner.connections.len();
        proof {
            assert(start.connections.len() == 0) by {
                lemma_cross_nodes_bare(w, l, *plan, self.id, n);
            }
            assert(start.slots_ok()) by {
                lemma_child_slots(w, *plan, start);
            }
            assert(start.ranked_by(child_rank));
            assert(start.sound()) by {
                reveal(Genome::sound);
            }
            reveal_with_fuel(Genome::cross_connections, 1);
        }
        let mut j: usize = 0;
        while j < m
            invariant
                j <= m,
                m == winner.connections.len(),
                winner.structure_ok(),
                loser.structure_ok(),
                winner.genome().ranked_by(rank),
                winner.genome().compatible(loser.genome()),
                winner.genome().cross_plan_ok(*plan),
                child_rank == Seq::new(
                    start.nodes.len(),
                    |k: int| rank[winner.genome().origin_of(*plan, k)],
                ),
                self.crossing_ok(winner, loser, *plan, start, child_rank, j as int),
                self.same_shell(old(self)),
                self.is_evaluation_order_up_to_date == old(self).is_evaluation_order_up_to_date,
            decreases m - j,
        {
            self.cross_connection_into(
                winner,
                loser,
                plan,
                j,
                Ghost(start),
                Ghost(rank),
                Ghost(child_rank),
            );
            j += 1;
        }
        proof {
            assert(self.genome().structure_ok()) by {
                reveal(Genome::sound);
            }
        }
    }
}

impl Genome {
    /// The invariants of the data structure, under a name of their own so
    /// that a proof takes them apart only where it asks to.
    #[verifier::opaque]
    pub open spec fn sound(self) -> bool {
        self.structure_ok()
    }

    /// What holds of the child while the connections of the winner `self`
    /// are gone through, `j` of them so far: the child is the one the plan
    /// describes, its structure stands, its nodes are those the child took,
    /// `child_rank` ranks it, and every connection of it is one of the
    /// winner's first `j`.
    pub open spec fn crossing_state(
        self,
        loser: Genome,
        plan: CrossoverPlan,
        start: Genome,
        child: Genome,
        child_rank: Seq<nat>,
        j: int,
    ) -> bool {
        let n = self.nodes.len() as int;
        &&& child.sound()
        &&& start.id == child.id
        &&& start.ids_distinct()
        &&& start.connections.len() == 0
        &&& self.child_nodes_match(plan, start, n)
        &&& child == self.cross_connections(loser, plan, start, j)
        &&& self.child_nodes_match(plan, child, n)
        &&& child.nodes.len() == start.nodes.len()
        &&& forall|k: int|
            0 <= k < start.nodes.len() ==> (#[trigger] child.nodes[k]).id == start.nodes[k].id
        &&& child.ranked_by(child_rank)
        &&& forall|q: int|
            0 <= q < child.connections.len() ==> #[trigger] self.has_kin(child, q, j)
    }
}

/// A node of the winner that the child does not take leaves the child as
/// it is.
pub proof fn lemma_cross_node_skipped(w: Genome, l: Genome, plan: CrossoverPlan, child: Genome, i: int)
    requires
        w.ids_distinct(),
        0 <= i < w.nodes.len(),
        child == w.cross_nodes(l, plan, child.id, i),
        w.child_nodes_match(plan, child, i),
        !w.keeps_node(plan, i),
    ensures
        child == w.cross_nodes(l, plan, child.id, i + 1),
        w.child_nodes_match(plan, child, i + 1),
{
    reveal_with_fuel(Genome::cross_nodes, 2);
    lemma_node_position(w, i);
}

/// Before the child takes the winner's node at `i`, it does not hold its
/// identifier.
pub proof fn lemma_cross_node_ready(w: Genome, plan: CrossoverPlan, child: Genome, i: int)
    requires
        w.ids_distinct(),
        0 <= i < w.nodes.len(),
        w.child_nodes_match(plan, child, i),
    ensures
        !child.has_node_id(w.nodes[i].id),
        child.nodes.len() <= i,
{
    lemma_node_position(w, i);
    if child.has_node_id(w.nodes[i].id) {
        let k = choose|k: int| 0 <= k < child.nodes.len() && (#[trigger] child.nodes[k]).id == w.nodes[i].id;
        let o = w.origin_of(plan, k);
        assert(w.nodes[o].id != w.nodes[i].id);
    }
}

/// After the child has taken the winner's node at `i`.
pub proof fn lemma_cross_node_done(
    w: Genome,
    l: Genome,
    plan: CrossoverPlan,
    child: Genome,
    i: int,
    added: NodeView,
)
    requires
        w.ids_distinct(),
        0 <= i < w.nodes.len(),
        child == w.cross_nodes(l, plan, child.id, i),
        w.child_nodes_match(plan, child, i),
        w.keeps_node(plan, i),
        added == child.next_node(
            w.nodes[i].id,
            w.node_source(l, plan, i).activation_function,
            w.node_source(l, plan, i).layer,
            w.node_source(l, plan, i).value,
        ),
        (added.layer == Layer::Input) == (w.nodes[i].layer == Layer::Input),
        (added.layer == Layer::Output) == (w.nodes[i].layer == Layer::Output),
    ensures
        child.with_node(added) == w.cross_nodes(l, plan, child.id, i + 1),
        w.child_nodes_match(plan, child.with_node(added), i + 1),
{
    reveal_with_fuel(Genome::cross_nodes, 2);
    lemma_node_position(w, i);
    let after = child.with_node(added);
    assert(w.node_source(l, plan, i).id == w.nodes[i].id) by {
        if plan.node_from_loser@[i] && l.has_node_id(w.nodes[i].id) {
            let at = l.node_position(w.nodes[i].id);
            assert(0 <= at < l.nodes.len() && l.nodes[at].id == w.nodes[i].id);
        }
    }
    assert forall|k: int| 0 <= k < after.nodes.len() implies {
        let o = w.origin_of(plan, k);
        &&& 0 <= o < i + 1
        &&& (#[trigger] after.nodes[k]).id == w.nodes[o].id
        &&& (after.nodes[k].layer == Layer::Input) == (w.nodes[o].layer == Layer::Input)
        &&& (after.nodes[k].layer == Layer::Output) == (w.nodes[o].layer == Layer::Output)
    } by {
        if k < child.nodes.len() {
            assert(after.nodes[k] == child.nodes[k]);
        }
    }
}

/// A connection of the winner that the child does not take leaves the
/// child as it is.
pub proof fn lemma_cross_skipped(
    w: Genome,
    l: Genome,
    plan: CrossoverPlan,
    start: Genome,
    child: Genome,
    child_rank: Seq<nat>,
    j: int,
)
    requires
        0 <= j < w.connections.len(),
        w.crossing_state(l, plan, start, child, child_rank, j),
        !w.keeps_connection(plan, j),
    ensures
        w.crossing_state(l, plan, start, child, child_rank, j + 1),
{
    reveal_with_fuel(Genome::cross_connections, 2);
    assert forall|q: int| 0 <= q < child.connections.len() implies #[trigger] w.has_kin(
        child,
        q,
        j + 1,
    ) by {
        assert(w.has_kin(child, q, j));
        let t = choose|t: int| 0 <= t < j && w.is_kin(child, q, t);
        assert(w.is_kin(child, q, t));
    }
}

/// Before the child takes the winner's connection at `j`: the nodes that
/// the connection joins stand in the child at their child positions, the
/// first not among the outputs and the second not among the inputs and of
/// higher rank, and the child does not hold the identifier yet.
pub proof fn lemma_cross_ready(
    w: Genome,
    l: Genome,
    plan: CrossoverPlan,
    start: Genome,
    child: Genome,
    rank: Seq<nat>,
    child_rank: Seq<nat>,
    j: int,
)
    requires
        w.structure_ok(),
        w.ranked_by(rank),
        w.cross_plan_ok(plan),
        child_rank == Seq::new(start.nodes.len(), |k: int| rank[w.origin_of(plan, k)]),
        0 <= j < w.connections.len(),
        w.connections.len() <= usize::MAX,
        w.crossing_state(l, plan, start, child, child_rank, j),
        w.keeps_connection(plan, j),
    ensures
        ({
            let ka = w.child_position(plan, w.src(j));
            let kb = w.child_position(plan, w.dst(j));
            &&& 0 <= ka < child.nodes.len()
            &&& 0 <= kb < child.nodes.len()
            &&& child.nodes[ka].id == w.nodes[w.src(j)].id
            &&& child.nodes[kb].id == w.nodes[w.dst(j)].id
            &&& start.node_position(w.nodes[w.src(j)].id) == ka
            &&& start.node_position(w.nodes[w.dst(j)].id) == kb
            &&& !child.is_output_slot(ka)
            &&& !child.is_input_slot(kb)
            &&& child_rank[ka] < child_rank[kb]
            &&& !child.has_connection_id(w.connections[j].id)
            &&& child.connections.len() < usize::MAX
        }),
{
    let a = w.src(j);
    let b = w.dst(j);
    assert(w.node_in_range(w.connections[j].input_node));
    assert(w.node_in_range(w.connections[j].output_node));
    lemma_child_position(w, plan, start, a);
    lemma_child_position(w, plan, start, b);
    let ka = w.child_position(plan, a);
    let kb = w.child_position(plan, b);
    assert(child.nodes[ka].id == start.nodes[ka].id);
    assert(child.nodes[kb].id == start.nodes[kb].id);
    lemma_node_position(start, ka);
    lemma_node_position(start, kb);
    lemma_child_slots(w, plan, child);
    assert(child.is_output_slot(ka) == w.is_output_slot(w.origin_of(plan, ka)));
    assert(child.is_input_slot(kb) == w.is_input_slot(w.origin_of(plan, kb)));
    assert(rank[w.src(j)] < rank[w.dst(j)]);
    lemma_child_connections_count(w, l, plan, start, j);
    if child.has_connection_id(w.connections[j].id) {
        let q = choose|q: int|
            0 <= q < child.connections.len() && (#[trigger] child.connections[q]).id
                == w.connections[j].id;
        assert(w.has_kin(child, q, j));
        let t = choose|t: int| 0 <= t < j && w.is_kin(child, q, t);
        assert(w.connections[t].id != w.connections[j].id);
    }
}

/// After the child has taken the winner's connection at `j`.
pub proof fn lemma_cross_done(
    w: Genome,
    l: Genome,
    plan: CrossoverPlan,
    start: Genome,
    child: Genome,
    rank: Seq<nat>,
    child_rank: Seq<nat>,
    j: int,
    added: Connection,
)
    requires
        w.structure_ok(),
        w.ranked_by(rank),
        w.cross_plan_ok(plan),
        child_rank == Seq::new(start.nodes.len(), |k: int| rank[w.origin_of(plan, k)]),
        0 <= j < w.connections.len(),
        w.connections.len() <= usize::MAX,
        w.crossing_state(l, plan, start, child, child_rank, j),
        w.keeps_connection(plan, j),
        added == child.next_connection(
            w.connections[j].id,
            w.connection_source(l, plan, j).weight,
            w.connections[j].is_enabled,
            NodeIndex(child.id, w.child_position(plan, w.src(j)) as usize),
            NodeIndex(child.id, w.child_position(plan, w.dst(j)) as usize),
        ),
        child.with_connection(added).sound(),
    ensures
        w.crossing_state(l, plan, start, child.with_connection(added), child_rank, j + 1),
{
    let after = child.with_connection(added);
    let ka = w.child_position(plan, w.src(j));
    let kb = w.child_position(plan, w.dst(j));
    let n = w.nodes.len() as int;
    lemma_cross_ready(w, l, plan, start, child, rank, child_rank, j);
    lemma_connection_position(w, j);
    assert(w.connection_source(l, plan, j).id == w.connections[j].id) by {
        if plan.connection_from_loser@[j] && l.has_connection_id(w.connections[j].id) {
            let at = l.connection_position(w.connections[j].id);
            assert(0 <= at < l.connections.len() && l.connections[at].id == w.connections[j].id);
        }
    }
    assert(after == w.cross_connections(l, plan, start, j + 1)) by {
        reveal_with_fuel(Genome::cross_connections, 2);
    }
    lemma_with_connection_ranked(child, added, child_rank);
    assert forall|k: int| 0 <= k < after.nodes.len() implies (#[trigger] after.nodes[k]).id
        == child.nodes[k].id && after.nodes[k].layer == child.nodes[k].layer by {}
    assert forall|k: int| 0 <= k < after.nodes.len() implies {
        let o = w.origin_of(plan, k);
        &&& 0 <= o < n
        &&& (#[trigger] after.nodes[k]).id == w.nodes[o].id
        &&& (after.nodes[k].layer == Layer::Input) == (w.nodes[o].layer == Layer::Input)
        &&& (after.nodes[k].layer == Layer::Output) == (w.nodes[o].layer == Layer::Output)
    } by {
        assert(after.nodes[k].id == child.nodes[k].id);
        assert(after.nodes[k].layer == child.nodes[k].layer);
    }
    assert forall|k: int| 0 <= k < start.nodes.len() implies (#[trigger] after.nodes[k]).id
        == start.nodes[k].id by {
        assert(after.nodes[k].id == child.nodes[k].id);
    }
    assert forall|q: int| 0 <= q < after.connections.len() implies #[trigger] w.has_kin(
        after,
        q,
        j + 1,
    ) by {
        if q < child.connections.len() {
            assert(after.connections[q] == child.connections[q]);
            assert(w.has_kin(child, q, j));
            let t = choose|t: int| 0 <= t < j && w.is_kin(child, q, t);
            assert(after.nodes[after.src(q)].id == child.nodes[child.src(q)].id);
            assert(after.nodes[after.dst(q)].id == child.nodes[child.dst(q)].id);
            assert(w.is_kin(after, q, t));
        } else {
            assert(after.connections[q] == added);
            assert(after.nodes[ka].id == child.nodes[ka].id);
            assert(after.nodes[kb].id == child.nodes[kb].id);
            assert(w.is_kin(after, q, j));
        }
    }
}

impl Genome {
    /// The position in the child of the winner's node at `i`.
    pub open spec fn child_position(self, plan: CrossoverPlan, i: int) -> int {
        match self.excluded_position(plan) {
            Some(x) => if i > x {
                i - 1
            } else {
                i
            },
            None => i,
        }
    }

    /// Whether the connection `c` of the child is the winner's connection at
    /// `t`: it has its identifier and its enabled flag, and joins the nodes
    /// of the child that stand for the nodes the winner's connection joins.
    pub open spec fn is_twin(self, c: Connection, t: int) -> bool {
        &&& c.id == self.connections[t].id
        &&& c.is_enabled == self.connections[t].is_enabled
    }

    /// Whether the connection `c` of the child is one of the first `upto`
    /// connections of the winner.
    pub open spec fn has_twin(self, c: Connection, upto: int) -> bool {
        exists|t: int| 0 <= t < upto && self.is_twin(c, t)
    }

    /// Whether the connection at `q` of the child is the winner's
    /// connection at `t` and joins nodes of the same identifiers.
    pub open spec fn is_kin(self, child: Genome, q: int, t: int) -> bool {
        &&& self.is_twin(child.connections[q], t)
        &&& 0 <= child.src(q) < child.nodes.len()
        &&& 0 <= child.dst(q) < child.nodes.len()
        &&& child.nodes[child.src(q)].id == self.nodes[self.src(t)].id
        &&& child.nodes[child.dst(q)].id == self.nodes[self.dst(t)].id
    }

    /// Whether the connection at `q` of the child is one of the first
    /// `upto` connections of the winner and joins nodes of the same
    /// identifiers.
    pub open spec fn has_kin(self, child: Genome, q: int, upto: int) -> bool {
        exists|t: int| 0 <= t < upto && self.is_kin(child, q, t)
    }

    /// Whether every connection of `child` is one of the winner's, with the
    /// winner's enabled flag, and joins nodes of the same identifiers.
    pub open spec fn child_connections_match(self, plan: CrossoverPlan, child: Genome) -> bool {
        forall|q: int|
            0 <= q < child.connections.len() ==> #[trigger] self.has_kin(
                child,
                q,
                self.connections.len() as int,
            )
    }
}

/// While the nodes of the child are laid down it has no connection.
pub proof fn lemma_cross_nodes_bare(w: Genome, l: Genome, plan: CrossoverPlan, child: NetId, upto: int)
    ensures
        w.cross_nodes(l, plan, child, upto).connections.len() == 0,
        w.cross_nodes(l, plan, child, upto).id == child,
    decreases upto,
{
    if upto > 0 {
        lemma_cross_nodes_bare(w, l, plan, child, upto - 1);
    }
}

/// The child has at most as many connections as the winner has gone
/// through.
pub proof fn lemma_child_connections_count(
    w: Genome,
    l: Genome,
    plan: CrossoverPlan,
    start: Genome,
    upto: int,
)
    requires
        start.connections.len() == 0,
        0 <= upto,
    ensures
        w.cross_connections(l, plan, start, upto).connections.len() <= upto,
    decreases upto,
{
    if upto > 0 {
        lemma_child_connections_count(w, l, plan, start, upto - 1);
    }
}

/// The inputs and outputs of the child stand where those of the winner
/// stand.
pub proof fn lemma_child_slots(w: Genome, plan: CrossoverPlan, child: Genome)
    requires
        w.structure_ok(),
        w.cross_plan_ok(plan),
        w.child_nodes_match(plan, child, w.nodes.len() as int),
    ensures
        child.slots_ok(),
        forall|k: int|
            0 <= k < child.nodes.len() ==> child.is_input_slot(k) == w.is_input_slot(
                #[trigger] w.origin_of(plan, k),
            ) && child.is_output_slot(k) == w.is_output_slot(w.origin_of(plan, k)),
{
    match w.excluded_position(plan) {
        Some(x) => {
            let id = plan.excluded_node->0;
            assert(0 <= x < w.nodes.len() && w.nodes[x].id == id);
            assert(!w.is_input_slot(x) && !w.is_output_slot(x));
        },
        None => {},
    }
    assert forall|k: int| 0 <= k < child.nodes.len() implies {
        &&& (#[trigger] child.nodes[k]).layer == Layer::Input <==> child.is_input_slot(k)
        &&& child.nodes[k].layer == Layer::Output <==> child.is_output_slot(k)
    } by {
        let o = w.origin_of(plan, k);
        assert(w.nodes[o].layer == Layer::Input <==> w.is_input_slot(o));
    }
}

/// A node of the winner that the child takes stands in the child at its
/// child position.
pub proof fn lemma_child_position(w: Genome, plan: CrossoverPlan, child: Genome, i: int)
    requires
        w.structure_ok(),
        w.cross_plan_ok(plan),
        w.child_nodes_match(plan, child, w.nodes.len() as int),
        0 <= i < w.nodes.len(),
        w.keeps_node(plan, i),
    ensures
        0 <= w.child_position(plan, i) < child.nodes.len(),
        w.origin_of(plan, w.child_position(plan, i)) == i,
        child.nodes[w.child_position(plan, i)].id == w.nodes[i].id,
        child.is_input_slot(w.child_position(plan, i)) == w.is_input_slot(i),
        child.is_output_slot(w.child_position(plan, i)) == w.is_output_slot(i),
{
    lemma_child_slots(w, plan, child);
    match w.excluded_position(plan) {
        Some(x) => {
            let id = plan.excluded_node->0;
            assert(0 <= x < w.nodes.len() && w.nodes[x].id == id);
            assert(i != x);
        },
        None => {
            if plan.excluded_node is Some {
                assert(!w.has_node_id(plan.excluded_node->0));
            }
        },
    }
    let k = w.child_position(plan, i);
    assert(child.nodes[k].id == w.nodes[w.origin_of(plan, k)].id);
}

/// Whether a gene means the same in two genomes does not depend on which of
/// the two is asked.
pub proof fn lemma_compatible_symmetric(a: Genome, b: Genome)
    requires
        a.compatible(b),
    ensures
        b.compatible(a),
{
    assert forall|i: int, k: int|
        0 <= i < b.nodes.len() && 0 <= k < a.nodes.len() && (#[trigger] b.nodes[i]).id == (
        #[trigger] a.nodes[k]).id implies {
        &&& b.is_input_slot(i) == a.is_input_slot(k)
        &&& b.is_output_slot(i) == a.is_output_slot(k)
    } by {
        assert(a.nodes[k].id == b.nodes[i].id);
    }
    assert forall|j: int, l: int|
        0 <= j < b.connections.len() && 0 <= l < a.connections.len() && (
        #[trigger] b.connections[j]).id == (#[trigger] a.connections[l]).id implies {
        &&& b.nodes[b.src(j)].id == a.nodes[a.src(l)].id
        &&& b.nodes[b.dst(j)].id == a.nodes[a.dst(l)].id
    } by {
        assert(a.connections[l].id == b.connections[j].id);
    }
}

/// Every connection of the child is one of the winner's and has the
/// winner's enabled flag, whichever copy its weight came from.
pub proof fn lemma_crossed_flags(w: Genome, l: Genome, plan: CrossoverPlan, start: Genome, upto: int)
    requires
        start.connections.len() == 0,
        0 <= upto,
    ensures
        forall|q: int|
            0 <= q < w.cross_connections(l, plan, start, upto).connections.len() ==> w.has_twin(
                #[trigger] w.cross_connections(l, plan, start, upto).connections[q],
                upto,
            ),
    decreases upto,
{
    if upto > 0 {
        lemma_crossed_flags(w, l, plan, start, upto - 1);
        let before = w.cross_connections(l, plan, start, upto - 1);
        let after = w.cross_connections(l, plan, start, upto);
        assert forall|q: int| 0 <= q < after.connections.len() implies w.has_twin(
            #[trigger] after.connections[q],
            upto,
        ) by {
            if q < before.connections.len() {
                assert(after.connections[q] == before.connections[q]);
                assert(w.has_twin(before.connections[q], upto - 1));
                let t = choose|t: int| 0 <= t < upto - 1 && w.is_twin(before.connections[q], t);
                assert(w.is_twin(after.connections[q], t));
            } else {
                assert(w.is_twin(after.connections[q], upto - 1));
            }
        }
    }
}

/// The child holds no identifier that the winner does not hold, and no
/// more genes than the winner.
pub proof fn lemma_child_ids_below(
    w: Genome,
    plan: CrossoverPlan,
    child: Genome,
    ids: crate::neural_net::ids::IdAllocator,
)
    requires
        w.ids_below(ids),
        w.child_nodes_match(plan, child, w.nodes.len() as int),
        w.child_connections_match(plan, child),
        child.connections.len() <= w.connections.len(),
    ensures
        child.ids_below(ids),
{
    assert forall|k: int| 0 <= k < child.nodes.len() implies (#[trigger] child.nodes[k]).id.0
        < ids.next_node by {
        let o = w.origin_of(plan, k);
        assert(w.nodes[o].id.0 < ids.next_node);
    }
    assert forall|q: int| 0 <= q < child.connections.len() implies (
    #[trigger] child.connections[q]).id.0 < ids.next_connection by {
        assert(w.has_kin(child, q, w.connections.len() as int));
        let t = choose|t: int| 0 <= t < w.connections.len() && w.is_kin(child, q, t);
        assert(w.connections[t].id.0 < ids.next_connection);
    }
}

impl<F: FitnessInfo> Net<F> {
    /// Whether this genome is the winner over `other` when the roles are
    /// swapped or not as the plan says.
    pub open spec fn wins_over(&self, other: &Net<F>, swap_roles: bool) -> bool {
        first_wins(
            self.fitness_info.fitness(),
            other.fitness_info.fitness(),
            swap_roles,
        )
    }

    /// The child of the winner `self` and `loser` by a plan.
    fn cross_as_winner(&self, loser: &Net<F>, plan: &CrossoverPlan, ids: &mut IdAllocator) -> (child:
        Self)
        requires
            self.wf(),
            loser.wf(),
            self.genome().compatible(loser.genome()),
            self.genome().cross_plan_ok(*plan),
            old(ids).next_net < usize::MAX,
        ensures
            child.settled(),
            child.is_evaluation_order_up_to_date,
            child.genome().same_but_layers(
                self.genome().crossed(loser.genome(), *plan, NetId(old(ids).next_net)),
            ),
            child.id == NetId(old(ids).next_net),
            child.net_params == self.net_params,
            child.fitness_info == F::unevaluated(),
            final(ids).next_net == old(ids).next_net + 1,
            final(ids).next_node == old(ids).next_node,
            final(ids).next_connection == old(ids).next_connection,
            forall|a: IdAllocator| self.genome().ids_below(a) ==> child.genome().ids_below(a),
            forall|x: Genome|
                #![trigger child.genome().compatible(x)]
                self.genome().compatible(x) ==> child.genome().compatible(x),
    {
        let ghost w = self.genome();
        let ghost l = loser.genome();
        let ghost rank = choose|rank: Seq<nat>| w.ranked_by(rank);
        let max_node_count = if self.nodes.len() > loser.nodes.len() {
            self.nodes.len()
        } else {
            loser.nodes.len()
        };
        let max_connection_count = if self.connections.len() > loser.connections.len() {
            self.connections.len()
        } else {
            loser.connections.len()
        };
        let mut child = Net {
            id: NetId::new_unique(ids),
            net_params: self.net_params,
            nodes: Vec::with_capacity(max_node_count),
            map_node_id_to_index: IdTable::with_capacity(max_node_count),
            connections: Vec::with_capacity(max_connection_count),
            map_connection_id_to_index: IdTable::with_capacity(max_connection_count),
            fitness_info: F::new_unevaluated(),
            is_evaluation_order_up_to_date: false,
            node_order_list: Vec::new(),
        };
        proof {
            reveal_with_fuel(Genome::cross_nodes, 1);
            assert(child.genome().nodes =~= Seq::empty());
            assert(child.genome().connections =~= Seq::empty());
            assert(child.genome() == w.cross_nodes(l, *plan, child.id, 0));
        }
        child.cross_nodes_into(self, loser, plan);
        child.cross_connections_into(self, loser, plan, Ghost(rank));
        let ghost crossed = child.genome();
        proof {
            lemma_cross_nodes_bare(w, l, *plan, child.id, w.nodes.len() as int);
            lemma_child_connections_count(
                w,
                l,
                *plan,
                w.cross_nodes(l, *plan, child.id, w.nodes.len() as int),
                w.connections.len() as int,
            );
        }
        child.build_evaluation_order();
        proof {
            let built = child.genome();
            assert forall|x: Genome|
                #![trigger built.compatible(x)]
                w.compatible(x) implies built.compatible(x) by {
                lemma_compatible_crossed(w, *plan, crossed, x);
                lemma_ends_in_range(crossed);
                lemma_compatible_relayered(crossed, built, x);
            }
            assert forall|a: IdAllocator| w.ids_below(a) implies built.ids_below(a) by {
                lemma_child_ids_below(w, *plan, crossed, a);
                assert forall|k: int| 0 <= k < built.nodes.len() implies (
                #[trigger] built.nodes[k]).id.0 < a.next_node by {
                    assert(crossed.nodes[k].id.0 < a.next_node);
                }
            }
        }
        child
    }

    /// Crosses two genomes by a plan. The winner is the genome of higher
    /// fitness, `self` if both are equally fit, unless the plan swaps the
    /// roles. The child is the one that [`Genome::crossed`] describes, with
    /// the layers that its connections give, a new identity and the fitness
    /// record of a genome not yet evaluated.
    pub fn cross_with_plan(&self, other: &Net<F>, plan: &CrossoverPlan, ids: &mut IdAllocator) -> (child:
        Self)
        requires
            self.wf(),
            other.wf(),
            self.genome().compatible(other.genome()),
            self.wins_over(other, plan.swap_roles) ==> self.genome().cross_plan_ok(*plan),
            !self.wins_over(other, plan.swap_roles) ==> other.genome().cross_plan_ok(*plan),
            old(ids).next_net < usize::MAX,
        ensures
            child.settled(),
            child.is_evaluation_order_up_to_date,
            self.wins_over(other, plan.swap_roles) ==> child.genome().same_but_layers(
                self.genome().crossed(other.genome(), *plan, NetId(old(ids).next_net)),
            ) && child.net_params == self.net_params,
            !self.wins_over(other, plan.swap_roles) ==> child.genome().same_but_layers(
                other.genome().crossed(self.genome(), *plan, NetId(old(ids).next_net)),
            ) && child.net_params == other.net_params,
            child.id == NetId(old(ids).next_net),
            child.fitness_info == F::unevaluated(),
            final(ids).next_net == old(ids).next_net + 1,
            final(ids).next_node == old(ids).next_node,
            final(ids).next_connection == old(ids).next_connection,
            forall|a: IdAllocator|
                self.genome().ids_below(a) && other.genome().ids_below(a)
                    ==> child.genome().ids_below(a),
            forall|x: Genome|
                #![trigger child.genome().compatible(x)]
                self.genome().compatible(x) && other.genome().compatible(x)
                    ==> child.genome().compatible(x),
    {
        let self_wins = (self.fitness_info.get_fitness() >= other.fitness_info.get_fitness())
            != plan.swap_roles;
        if self_wins {
            self.cross_as_winner(other, plan, ids)
        } else {
            proof {
                lemma_compatible_symmetric(self.genome(), other.genome());
            }
            other.cross_as_winner(self, plan, ids)
        }
    }
}

impl Genome {
    /// Whether some placed hidden node carries the identifier.
    pub open spec fn has_hidden_id(self, id: NodeId) -> bool {
        exists|i: int|
            0 <= i < self.nodes.len() && (#[trigger] self.nodes[i]).id == id
                && self.nodes[i].layer is Hidden
    }

    /// What the probabilities say of a plan drawn for the winner `self`: a
    /// node is left out only if that may happen, and then it is a placed
    /// hidden node of the winner; a connection is left out only if that may
    /// happen, and then it is one of the winner's. Where leaving out is
    /// certain and there is something to leave out, something is.
    pub open spec fn cross_plan_allowed(
        self,
        plan: CrossoverPlan,
        params: MutationParams,
        multiplier: u32,
    ) -> bool {
        &&& plan.excluded_node matches Some(id) ==> may_happen(params.prob_remove_node, multiplier)
            && self.has_hidden_id(id)
        &&& plan.excluded_connection matches Some(id) ==> may_happen(
            params.prob_remove_connection,
            multiplier,
        ) && self.has_connection_id(id)
        &&& scaled_probability(params.prob_remove_node, multiplier) == PROBABILITY_ONE && (
        exists|i: int| 0 <= i < self.nodes.len() && #[trigger] self.hidden_at(i))
            ==> plan.excluded_node is Some
        &&& scaled_probability(params.prob_remove_connection, multiplier) == PROBABILITY_ONE
            && self.connections.len() > 0 ==> plan.excluded_connection is Some
    }
}

impl<F: FitnessInfo> Net<F> {
    /// The identifiers of the placed hidden nodes, in their order.
    fn hidden_node_ids(&self) -> (list: Vec<NodeId>)
        ensures
            forall|k: int| 0 <= k < list.len() ==> self.genome().has_hidden_id(#[trigger] list[k]),
            (exists|i: int| 0 <= i < self.nodes.len() && #[trigger] self.genome().hidden_at(i))
                ==> list.len() > 0,
    {
        let mut list: Vec<NodeId> = Vec::new();
        let mut i: usize = 0;
        while i < self.nodes.len()
            invariant
                i <= self.nodes.len(),
                forall|k: int|
                    0 <= k < list.len() ==> self.genome().has_hidden_id(#[trigger] list[k]),
                (exists|x: int| 0 <= x < i && #[trigger] self.genome().hidden_at(x)) ==> list.len()
                    > 0,
            decreases self.nodes.len() - i,
        {
            assert(self.genome().nodes[i as int] == self.nodes[i as int]@);
            match self.nodes[i].layer {
                Layer::Hidden(_) => {
                    let ghost before = list@;
                    list.push(self.nodes[i].id);
                    proof {
                        assert forall|k: int| 0 <= k < list.len() implies self.genome().has_hidden_id(
                            #[trigger] list[k],
                        ) by {
                            if k < before.len() {
                                assert(list[k] == before[k]);
                            } else {
                                assert(self.genome().nodes[i as int].id == list[k]);
                            }
                        }
                    }
                },
                _ => {
                    assert(!self.genome().hidden_at(i as int));
                },
            }
            i += 1;
        }
        list
    }

    /// Draws a plan for the winner `self`.
    fn draw_plan_as_winner(
        &self,
        loser: &Net<F>,
        mut_params: &MutationParams,
        mutation_multiplier: u32,
        swap_roles: bool,
    ) -> (plan: CrossoverPlan)
        requires
            self.structure_ok(),
            loser.structure_ok(),
        ensures
            plan.swap_roles == swap_roles,
            self.genome().cross_plan_ok(plan),
            self.genome().cross_plan_allowed(plan, *mut_params, mutation_multiplier),
    {
        let ghost w = self.genome();
        // Remove a node by choosing one not to copy.
        let mut excluded_node: Option<NodeId> = None;
        if roll(mut_params.prob_remove_node, mutation_multiplier) {
            let hidden = self.hidden_node_ids();
            if hidden.len() > 0 {
                let at = random_below(hidden.len());
                excluded_node = Some(hidden[at]);
            }
        }
        // Remove a connection by choosing one not to copy.
        let mut excluded_connection: Option<ConnectionId> = None;
        if roll(mut_params.prob_remove_connection, mutation_multiplier) {
            if self.connections.len() > 0 {
                let at = random_below(self.connections.len());
                excluded_connection = Some(self.connections[at].id);
                assert(w.connections[at as int].id == self.connections[at as int].id);
            }
        }
        // A gene that both parents carry comes from either with even odds.
        let mut node_from_loser: Vec<bool> = Vec::with_capacity(self.nodes.len());
        let mut i: usize = 0;
        while i < self.nodes.len()
            invariant
                i <= self.nodes.len(),
                node_from_loser.len() == i,
            decreases self.nodes.len() - i,
        {
            let id = self.nodes[i].id;
            let left_out = match excluded_node {
                Some(x) => x == id,
                None => false,
            };
            let take = if left_out {
                false
            } else {
                match loser.map_node_id_to_index.get(id.0) {
                    Some(_) => !coin(),
                    None => false,
                }
            };
            node_from_loser.push(take);
            i += 1;
        }
        let mut connection_from_loser: Vec<bool> = Vec::with_capacity(self.connections.len());
        let mut j: usize = 0;
        while j < self.connections.len()
            invariant
                j <= self.connections.len(),
                connection_from_loser.len() == j,
                self.structure_ok(),
            decreases self.connections.len() - j,
        {
            let connection = self.connections[j];
            proof {
                assert(self.genome().connections[j as int] == connection);
                assert(self.genome().node_in_range(connection.input_node));
                assert(self.genome().node_in_range(connection.output_node));
            }
            let left_out = match excluded_connection {
                Some(x) => x == connection.id,
                None => false,
            };
            let touches = match excluded_node {
                Some(x) => x == self.nodes[connection.input_node.1].id || x
                    == self.nodes[connection.output_node.1].id,
                None => false,
            };
            let take = if left_out || touches {
                false
            } else {
                match loser.map_connection_id_to_index.get(connection.id.0) {
                    Some(_) => !coin(),
                    None => false,
                }
            };
            connection_from_loser.push(take);
            j += 1;
        }
        let plan = CrossoverPlan {
            swap_roles,
            excluded_node,
            excluded_connection,
            node_from_loser,
            connection_from_loser,
        };
        proof {
            assert forall|i: int|
                0 <= i < w.nodes.len() && Some((#[trigger] w.nodes[i]).id)
                    == plan.excluded_node implies !w.is_input_slot(i) && !w.is_output_slot(i) by {
                let id = plan.excluded_node->0;
                let x = choose|x: int|
                    0 <= x < w.nodes.len() && (#[trigger] w.nodes[x]).id == id
                        && w.nodes[x].layer is Hidden;
                lemma_node_position(w, x);
                lemma_node_position(w, i);
            }
        }
        plan
    }

    /// Draws a plan for crossing `self` with `other`: with one chance in
    /// five the roles of winner and loser are swapped; a hidden node and a
    /// connection of the winner are left out with their probabilities times
    /// the multiplier; and every gene that both parents carry comes from
    /// either with even odds.
    pub fn draw_crossover_plan(
        &self,
        other: &Net<F>,
        mut_params: &MutationParams,
        mutation_multiplier: u32,
    ) -> (plan: CrossoverPlan)
        requires
            self.structure_ok(),
            other.structure_ok(),
        ensures
            self.wins_over(other, plan.swap_roles) ==> self.genome().cross_plan_ok(plan)
                && self.genome().cross_plan_allowed(plan, *mut_params, mutation_multiplier),
            !self.wins_over(other, plan.swap_roles) ==> other.genome().cross_plan_ok(plan)
                && other.genome().cross_plan_allowed(plan, *mut_params, mutation_multiplier),
    {
        let swap_roles = random_ratio(1, 5);
        let self_wins = (self.fitness_info.get_fitness() >= other.fitness_info.get_fitness())
            != swap_roles;
        if self_wins {
            self.draw_plan_as_winner(other, mut_params, mutation_multiplier, swap_roles)
        } else {
            other.draw_plan_as_winner(self, mut_params, mutation_multiplier, swap_roles)
        }
    }

    /// Crosses two genomes and mutates the child: a crossover plan is drawn
    /// and followed, then a mutation plan is drawn for the child and
    /// applied.
    pub fn cross_into_new_net<W: WeightSource>(
        &self,
        other: &Net<F>,
        mut_params: &MutationParams,
        mutation_multiplier: u32,
        weights: &mut W,
        ids: &mut IdAllocator,
    ) -> (child: Self)
        requires
            self.wf(),
            other.wf(),
            self.genome().compatible(other.genome()),
            self.genome().ids_below(*old(ids)),
            other.genome().ids_below(*old(ids)),
            old(ids).next_net < usize::MAX,
            old(ids).has_room(1, 3),
        ensures
            child.settled(),
            child.is_evaluation_order_up_to_date,
            child.genome().ids_below(*final(ids)),
            child.id == NetId(old(ids).next_net),
            child.fitness_info == F::unevaluated(),
            child.net_params == self.net_params || child.net_params == other.net_params,
            old(ids).no_later_than(*final(ids)),
            self.descends(other, &child, *mut_params, mutation_multiplier, *old(ids)),
            forall|x: Genome|
                #![trigger child.genome().compatible(x)]
                self.genome().compatible(x) && other.genome().compatible(x) && x.ids_below(
                    *old(ids),
                ) ==> child.genome().compatible(x),
    {
        let plan = self.draw_crossover_plan(other, mut_params, mutation_multiplier);
        let mut child = self.cross_with_plan(other, &plan, ids);
        let ghost crossed = child.genome();
        let ghost mid = *ids;
        let mutation = child.draw_mutation_plan(mut_params, mutation_multiplier, weights);
        child.apply_mutation(&mutation, ids);
        proof {
            assert(self.descends_by(
                other,
                &child,
                *mut_params,
                mutation_multiplier,
                *old(ids),
                plan,
                crossed,
                mutation,
            ));
        }
        child
    }

    /// Whether `child` can come of crossing `self` with `other` by `plan`,
    /// which gives `crossed`, and then mutating by `mutation`.
    pub open spec fn descends_by(
        &self,
        other: &Net<F>,
        child: &Net<F>,
        params: MutationParams,
        multiplier: u32,
        ids: IdAllocator,
        plan: CrossoverPlan,
        crossed: Genome,
        mutation: MutationPlan,
    ) -> bool {
        let winner = if self.wins_over(other, plan.swap_roles) {
            self.genome()
        } else {
            other.genome()
        };
        let loser = if self.wins_over(other, plan.swap_roles) {
            other.genome()
        } else {
            self.genome()
        };
        &&& winner.cross_plan_ok(plan)
        &&& winner.cross_plan_allowed(plan, params, multiplier)
        &&& crossed.same_but_layers(winner.crossed(loser, plan, NetId(ids.next_net)))
        &&& crossed.layering_ok()
        &&& crossed.plan_ok(mutation)
        &&& crossed.plan_allowed(mutation, params, multiplier)
        &&& child.genome().same_but_layers(crossed.mutated(mutation, ids))
    }

    /// Whether `child` can come of crossing `self` with `other` and
    /// mutating the outcome: there is a crossover plan that the
    /// probabilities allow, and a mutation plan that they allow for the
    /// crossed genome, such that the child is the crossed genome mutated,
    /// with the layers that its connections give.
    pub open spec fn descends(
        &self,
        other: &Net<F>,
        child: &Net<F>,
        params: MutationParams,
        multiplier: u32,
        ids: IdAllocator,
    ) -> bool {
        exists|plan: CrossoverPlan, crossed: Genome, mutation: MutationPlan| #[trigger]
            self.descends_by(other, child, params, multiplier, ids, plan, crossed, mutation)
    }
}

} // verus!

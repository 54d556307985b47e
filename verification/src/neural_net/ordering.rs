//! The evaluation order of a genome.
//!
//! Starting from every output, the enabled connections are followed
//! backwards, and a node is put in the order once every node that feeds it
//! stands there. The walk is recursive; it ends because the connections of a
//! well-formed genome form no cycle.

use crate::neural_net::layering::{lemma_chain_single, lemma_layers_from_depths, walk_done};
use crate::neural_net::layers::Layer;
use crate::neural_net::nets::{ConnectionIndex, Genome, MAX_NODES, Net, NodeIndex};
use crate::neural_net::populations::FitnessInfo;
use crate::tables::{id_table_entries, lookup, IdTable};
use vstd::prelude::*;

verus! {

impl Genome {
    /// What holds of the order while it is being built: `visited` marks
    /// exactly the nodes in `order`, no node stands there twice, and every
    /// node stands behind the nodes that feed it.
    pub open spec fn order_partial(self, order: Seq<NodeIndex>, visited: Seq<bool>) -> bool {
        &&& visited.len() == self.nodes.len()
        &&& forall|p: int| 0 <= p < order.len() ==> self.node_in_range(#[trigger] order[p])
        &&& order.no_duplicates()
        &&& forall|p: int| 0 <= p < order.len() ==> visited[(#[trigger] order[p]).1 as int]
        &&& forall|i: int|
            0 <= i < visited.len() && #[trigger] visited[i] ==> order.contains(
                NodeIndex(self.id, i as usize),
            )
        &&& forall|p: int| 0 <= p < order.len() ==> #[trigger] self.fed_before(order, p)
    }

    /// Whether `longer` starts with `shorter`.
    pub open spec fn extends(shorter: Seq<NodeIndex>, longer: Seq<NodeIndex>) -> bool {
        &&& shorter.len() <= longer.len()
        &&& forall|p: int| 0 <= p < shorter.len() ==> #[trigger] longer[p] == shorter[p]
    }
}

impl Genome {
    /// Whether the walk can be followed: the graph is ranked and its lists
    /// of incoming connections are right.
    pub open spec fn walkable(self, rank: Seq<nat>) -> bool {
        &&& self.ranked_by(rank)
        &&& self.endpoints_ok()
        &&& self.incoming_ok()
    }

    /// The order after the walk has come to the node at `v`: as it was if
    /// the node stands in it; else the order after the walk has gone along
    /// the connections that end in the node, and then the node.
    pub open spec fn walk_to(self, rank: Seq<nat>, order: Seq<NodeIndex>, v: int) -> Seq<NodeIndex>
        decreases rank[v], 1int, 0int,
        when self.walkable(rank) && 0 <= v < self.nodes.len()
    {
        if order.contains(NodeIndex(self.id, v as usize)) {
            order
        } else {
            self.walk_along(rank, order, v, 0).push(NodeIndex(self.id, v as usize))
        }
    }

    /// The order after the walk has gone along the connections that end in
    /// the node at `v`, from the one at place `k` of its list on: the walk
    /// comes to the node that an enabled connection starts from, and passes
    /// a disabled connection by.
    pub open spec fn walk_along(self, rank: Seq<nat>, order: Seq<NodeIndex>, v: int, k: int) -> Seq<
        NodeIndex,
    >
        decreases rank[v], 0int, self.nodes[v].input_connections.len() - k,
        when self.walkable(rank) && 0 <= v < self.nodes.len() && 0 <= k
    {
        let list = self.nodes[v].input_connections;
        if k >= list.len() {
            order
        } else {
            let j = list[k].1 as int;
            let next = if self.connections[j].is_enabled {
                proof {
                    assert(self.connection_in_range(list[k]) && self.dst(j) == v);
                    assert(self.node_in_range(self.connections[j].input_node));
                    assert(rank[self.src(j)] < rank[self.dst(j)]);
                }
                self.walk_to(rank, order, self.src(j))
            } else {
                order
            };
            self.walk_along(rank, next, v, k + 1)
        }
    }

    /// The order after the walk has come to every output among the first
    /// `upto` nodes.
    pub open spec fn walk_outputs(self, rank: Seq<nat>, upto: int) -> Seq<NodeIndex>
        decreases upto,
    {
        if upto <= 0 {
            Seq::empty()
        } else if self.nodes[upto - 1].layer == Layer::Output {
            self.walk_to(rank, self.walk_outputs(rank, upto - 1), upto - 1)
        } else {
            self.walk_outputs(rank, upto - 1)
        }
    }

    /// The evaluation order of the genome: the order in which the walk from
    /// every output, one after the other, comes by the nodes.
    pub open spec fn evaluation_order(self) -> Seq<NodeIndex> {
        self.walk_outputs(choose|rank: Seq<nat>| self.ranked_by(rank), self.nodes.len() as int)
    }
}

impl Genome {
    /// Whether the walk goes the same way in both genomes: they have the
    /// same identity and the same outputs, every node has the same list of
    /// incoming connections, and every connection starts from the same node
    /// and is enabled in both or in neither.
    pub open spec fn same_walk(self, other: Genome) -> bool {
        &&& self.id == other.id
        &&& self.nodes.len() == other.nodes.len()
        &&& self.connections.len() == other.connections.len()
        &&& forall|i: int|
            0 <= i < self.nodes.len() ==> (#[trigger] self.nodes[i]).input_connections
                == other.nodes[i].input_connections && (self.nodes[i].layer == Layer::Output) == (
            other.nodes[i].layer == Layer::Output)
        &&& forall|j: int|
            0 <= j < self.connections.len() ==> (#[trigger] self.connections[j]).input_node
                == other.connections[j].input_node && self.connections[j].is_enabled
                == other.connections[j].is_enabled
    }
}

/// Where the walk goes the same way in two genomes, it comes by the same
/// nodes in the same order, whatever ranks the genomes are ranked by.
pub proof fn lemma_walk_to_same(
    g: Genome,
    h: Genome,
    rank: Seq<nat>,
    other_rank: Seq<nat>,
    order: Seq<NodeIndex>,
    v: int,
)
    requires
        g.walkable(rank),
        h.walkable(other_rank),
        g.same_walk(h),
        0 <= v < g.nodes.len(),
    ensures
        g.walk_to(rank, order, v) == h.walk_to(other_rank, order, v),
    decreases rank[v], 1int, 0int,
{
    if !order.contains(NodeIndex(g.id, v as usize)) {
        lemma_walk_along_same(g, h, rank, other_rank, order, v, 0);
    }
}

/// Where the walk goes the same way in two genomes, it goes along the
/// connections that end in a node in the same way.
pub proof fn lemma_walk_along_same(
    g: Genome,
    h: Genome,
    rank: Seq<nat>,
    other_rank: Seq<nat>,
    order: Seq<NodeIndex>,
    v: int,
    k: int,
)
    requires
        g.walkable(rank),
        h.walkable(other_rank),
        g.same_walk(h),
        0 <= v < g.nodes.len(),
        0 <= k,
    ensures
        g.walk_along(rank, order, v, k) == h.walk_along(other_rank, order, v, k),
    decreases rank[v], 0int, g.nodes[v].input_connections.len() - k,
{
    let list = g.nodes[v].input_connections;
    assert(h.nodes[v].input_connections == list);
    if k < list.len() {
        let j = list[k].1 as int;
        assert(g.connection_in_range(list[k]) && g.dst(j) == v);
        assert(g.node_in_range(g.connections[j].input_node));
        assert(rank[g.src(j)] < rank[g.dst(j)]);
        assert(h.connections[j].input_node == g.connections[j].input_node);
        if g.connections[j].is_enabled {
            lemma_walk_to_same(g, h, rank, other_rank, order, g.src(j));
            lemma_walk_along_same(
                g,
                h,
                rank,
                other_rank,
                g.walk_to(rank, order, g.src(j)),
                v,
                k + 1,
            );
        } else {
            lemma_walk_along_same(g, h, rank, other_rank, order, v, k + 1);
        }
    }
}

/// Where the walk goes the same way in two genomes, the walk from the
/// outputs gives the same order.
pub proof fn lemma_walk_outputs_same(
    g: Genome,
    h: Genome,
    rank: Seq<nat>,
    other_rank: Seq<nat>,
    upto: int,
)
    requires
        g.walkable(rank),
        h.walkable(other_rank),
        g.same_walk(h),
        0 <= upto <= g.nodes.len(),
    ensures
        g.walk_outputs(rank, upto) == h.walk_outputs(other_rank, upto),
    decreases upto,
{
    if upto > 0 {
        lemma_walk_outputs_same(g, h, rank, other_rank, upto - 1);
        assert((g.nodes[upto - 1].layer == Layer::Output) == (h.nodes[upto - 1].layer
            == Layer::Output));
        if g.nodes[upto - 1].layer == Layer::Output {
            lemma_walk_to_same(g, h, rank, other_rank, g.walk_outputs(rank, upto - 1), upto - 1);
        }
    }
}

/// The evaluation order is a matter of the wiring and of which connections
/// are enabled: two genomes in which the walk goes the same way have the
/// same evaluation order, whatever their layers, values, weights and
/// activation functions.
pub proof fn law_order_follows_the_wiring(g: Genome, h: Genome)
    requires
        g.base_ok(),
        h.base_ok(),
        g.acyclic(),
        h.acyclic(),
        g.same_walk(h),
    ensures
        g.evaluation_order() == h.evaluation_order(),
{
    let rank = choose|rank: Seq<nat>| g.ranked_by(rank);
    let other_rank = choose|rank: Seq<nat>| h.ranked_by(rank);
    lemma_walk_outputs_same(g, h, rank, other_rank, g.nodes.len() as int);
}

/// A node that is supported in an order is supported in every order that
/// starts with it.
pub proof fn lemma_supported_extends(g: Genome, shorter: Seq<NodeIndex>, longer: Seq<NodeIndex>, p: int)
    requires
        Genome::extends(shorter, longer),
        0 <= p < shorter.len(),
        g.supported_in(shorter, p),
    ensures
        g.supported_in(longer, p),
{
    assert(longer[p] == shorter[p]);
    if !g.is_output_slot(shorter[p].1 as int) {
        let q = choose|q: int|
            p < q < shorter.len() && g.feeds(shorter[p].1 as int, (#[trigger] shorter[q]).1 as int);
        assert(longer[q] == shorter[q]);
    }
}

/// A node that stands behind the nodes that feed it still does so in every
/// order that starts with the given one.
pub proof fn lemma_fed_extends(g: Genome, shorter: Seq<NodeIndex>, longer: Seq<NodeIndex>, p: int)
    requires
        Genome::extends(shorter, longer),
        0 <= p < shorter.len(),
        g.fed_before(shorter, p),
    ensures
        g.fed_before(longer, p),
{
    assert(longer[p] == shorter[p]);
    assert forall|j: int|
        0 <= j < g.connections.len() && g.connections[j].is_enabled && #[trigger] g.dst(j)
            == longer[p].1 implies exists|q: int|
        0 <= q < p && #[trigger] longer[q] == g.connections[j].input_node by {
        let q = choose|q: int| 0 <= q < p && #[trigger] shorter[q] == g.connections[j].input_node;
        assert(longer[q] == shorter[q]);
    }
}

impl<F: FitnessInfo> Net<F> {
    /// Puts `node` in the order, behind every node that feeds it.
    fn build_evaluation_order_recurse(
        &self,
        node_order_list: &mut Vec<NodeIndex>,
        node_has_been_evaluated: &mut Vec<bool>,
        node: usize,
        Ghost(rank): Ghost<Seq<nat>>,
    )
        requires
            self.genome().base_ok(),
            self.genome().ranked_by(rank),
            self.genome().order_partial(old(node_order_list)@, old(node_has_been_evaluated)@),
            node < self.nodes.len(),
        ensures
            self.genome().order_partial(final(node_order_list)@, final(node_has_been_evaluated)@),
            final(node_order_list)@ == self.genome().walk_to(
                rank,
                old(node_order_list)@,
                node as int,
            ),
            Genome::extends(old(node_order_list)@, final(node_order_list)@),
            final(node_has_been_evaluated)@[node as int],
            forall|p: int|
                old(node_order_list)@.len() <= p < final(node_order_list)@.len() ==> {
                    ||| #[trigger] self.genome().supported_in(final(node_order_list)@, p)
                    ||| final(node_order_list)@[p].1 == node
                },
            forall|p: int|
                old(node_order_list)@.len() <= p < final(node_order_list)@.len() ==> rank[(
                #[trigger] final(node_order_list)@[p]).1 as int] <= rank[node as int],
        decreases rank[node as int],
    {
        let ghost g = self.genome();
        let ghost start = node_order_list@;
        if node_has_been_evaluated[node] {
            assert(start.contains(NodeIndex(g.id, node)));
            return ;
        }
        proof {
            if start.contains(NodeIndex(g.id, node)) {
                let at = choose|p: int| 0 <= p < start.len() && start[p] == NodeIndex(g.id, node);
                assert(node_has_been_evaluated@[start[at].1 as int]);
            }
        }
        let count = self.nodes[node].input_connections.len();
        let mut k: usize = 0;
        while k < count
            invariant
                k <= count,
                count == self.nodes[node as int].input_connections.len(),
                node < self.nodes.len(),
                g == self.genome(),
                g.base_ok(),
                g.ranked_by(rank),
                g.order_partial(node_order_list@, node_has_been_evaluated@),
                g.walk_along(rank, node_order_list@, node as int, k as int) == g.walk_along(
                    rank,
                    start,
                    node as int,
                    0,
                ),
                Genome::extends(start, node_order_list@),
                !node_has_been_evaluated@[node as int],
                forall|kk: int|
                    0 <= kk < k ==> {
                        let c = g.connections[(#[trigger] g.nodes[node as int].input_connections[kk]).1 as int];
                        c.is_enabled ==> node_has_been_evaluated@[c.input_node.1 as int]
                    },
                forall|p: int|
                    start.len() <= p < node_order_list@.len() ==> {
                        ||| #[trigger] g.supported_in(node_order_list@, p)
                        ||| g.feeds(node_order_list@[p].1 as int, node as int)
                    },
                forall|p: int|
                    start.len() <= p < node_order_list@.len() ==> rank[(
                    #[trigger] node_order_list@[p]).1 as int] < rank[node as int],
            decreases count - k,
        {
            let connection_index = self.nodes[node].input_connections[k];
            proof {
                let c = g.nodes[node as int].input_connections[k as int];
                assert(c == connection_index);
                assert(g.connection_in_range(c) && g.dst(c.1 as int) == node);
                assert(g.node_in_range(g.connections[c.1 as int].input_node));
            }
            let connection = &self.connections[connection_index.1];
            let ghost entry = node_order_list@;
            proof {
                let source = connection.input_node.1 as int;
                let j = connection_index.1 as int;
                assert(g.src(j) == source);
                assert(g.connections[j] == *connection);
                assert(g.walk_along(rank, entry, node as int, k as int) == g.walk_along(
                    rank,
                    if g.connections[j].is_enabled {
                        g.walk_to(rank, entry, g.src(j))
                    } else {
                        entry
                    },
                    node as int,
                    k + 1,
                ));
                if connection.is_enabled && node_has_been_evaluated@[source] {
                    assert(entry.contains(NodeIndex(g.id, source as usize)));
                    assert(g.walk_to(rank, entry, source) == entry);
                }
            }
            if connection.is_enabled && !node_has_been_evaluated[connection.input_node.1] {
                let ghost before = node_order_list@;
                let ghost source = connection.input_node.1 as int;
                proof {
                    assert(g.src(connection_index.1 as int) == source);
                    assert(rank[g.src(connection_index.1 as int)] < rank[g.dst(
                        connection_index.1 as int,
                    )]);
                }
                self.build_evaluation_order_recurse(
                    node_order_list,
                    node_has_been_evaluated,
                    connection.input_node.1,
                    Ghost(rank),
                );
                proof {
                    let after = node_order_list@;
                    assert(g.feeds(source, node as int));
                    assert forall|p: int| start.len() <= p < after.len() implies {
                        ||| #[trigger] g.supported_in(after, p)
                        ||| g.feeds(after[p].1 as int, node as int)
                    } by {
                        if p < before.len() {
                            assert(after[p] == before[p]);
                            if g.supported_in(before, p) {
                                lemma_supported_extends(g, before, after, p);
                            }
                        }
                    }
                    assert forall|p: int| start.len() <= p < after.len() implies rank[(
                    #[trigger] after[p]).1 as int] < rank[node as int] by {
                        if p < before.len() {
                            assert(after[p] == before[p]);
                        }
                    }
                    // The node itself was not reached: whatever was reached ranks below it.
                    if node_has_been_evaluated@[node as int] {
                        let at = choose|p: int|
                            0 <= p < after.len() && after[p] == NodeIndex(g.id, node);
                        if at < before.len() {
                            assert(after[at] == before[at]);
                        }
                    }
                    assert forall|kk: int| 0 <= kk < k + 1 implies {
                        let c = g.connections[(
                        #[trigger] g.nodes[node as int].input_connections[kk]).1 as int];
                        c.is_enabled ==> node_has_been_evaluated@[c.input_node.1 as int]
                    } by {
                        let c = g.connections[g.nodes[node as int].input_connections[kk].1 as int];
                        if kk < k && c.is_enabled {
                            let was = choose|p: int|
                                0 <= p < before.len() && before[p] == NodeIndex(
                                    g.id,
                                    c.input_node.1,
                                );
                            assert(after[was] == before[was]);
                        }
                    }
                }
            }
            k += 1;
        }
        let ghost before = node_order_list@;
        node_order_list.push(NodeIndex(self.id, node));
        node_has_been_evaluated[node] = true;
        proof {
            let after = node_order_list@;
            let last = before.len() as int;
            assert(Genome::extends(before, after));
            assert(after.no_duplicates()) by {
                assert forall|a: int, b: int|
                    0 <= a < after.len() && 0 <= b < after.len() && a != b implies after[a]
                    != after[b] by {
                    if a == last {
                        assert(before[b] == after[b]);
                        assert(node_has_been_evaluated@[before[b].1 as int]);
                    } else if b == last {
                        assert(before[a] == after[a]);
                        assert(node_has_been_evaluated@[before[a].1 as int]);
                    } else {
                        assert(before[a] != before[b]);
                    }
                }
            }
            assert forall|i: int|
                0 <= i < node_has_been_evaluated@.len() && #[trigger] node_has_been_evaluated@[i]
                implies after.contains(NodeIndex(g.id, i as usize)) by {
                if i == node {
                    assert(after[last] == NodeIndex(g.id, i as usize));
                } else {
                    let at = choose|p: int|
                        0 <= p < before.len() && before[p] == NodeIndex(g.id, i as usize);
                    assert(after[at] == before[at]);
                }
            }
            assert forall|p: int| 0 <= p < after.len() implies #[trigger] g.fed_before(after, p) by {
                if p < last {
                    lemma_fed_extends(g, before, after, p);
                } else {
                    assert forall|j: int|
                        0 <= j < g.connections.len() && g.connections[j].is_enabled
                            && #[trigger] g.dst(j) == after[p].1 implies exists|q: int|
                        0 <= q < p && #[trigger] after[q] == g.connections[j].input_node by {
                        let list = g.nodes[node as int].input_connections;
                        assert(g.connections.len() == self.connections.len());
                        assert(list.contains(
                            ConnectionIndex(g.id, j as usize),
                        ));
                        let kk = choose|kk: int|
                            0 <= kk < list.len() && list[kk]
                                == ConnectionIndex(g.id, j as usize);
                        let c = g.connections[(g.nodes[node as int].input_connections[kk]).1 as int];
                        assert(c == g.connections[j]);
                        assert(g.node_in_range(c.input_node));
                        let q = choose|q: int|
                            0 <= q < before.len() && before[q] == NodeIndex(g.id, c.input_node.1);
                        assert(after[q] == before[q]);
                    }
                }
            }
            assert forall|p: int| start.len() <= p < after.len() implies {
                ||| #[trigger] g.supported_in(after, p)
                ||| after[p].1 == node
            } by {
                if p < last {
                    assert(after[p] == before[p]);
                    if g.supported_in(before, p) {
                        lemma_supported_extends(g, before, after, p);
                    } else {
                        assert(g.feeds(before[p].1 as int, node as int));
                        assert(after[last].1 == node);
                    }
                }
            }
            assert forall|p: int| start.len() <= p < after.len() implies rank[(
            #[trigger] after[p]).1 as int] <= rank[node as int] by {
                if p < last {
                    assert(after[p] == before[p]);
                }
            }
            assert forall|p: int| 0 <= p < after.len() implies node_has_been_evaluated@[(
            #[trigger] after[p]).1 as int] by {
                if p < last {
                    assert(after[p] == before[p]);
                }
            }
        }
    }

    /// Builds the layers and the evaluation order, unless they are marked
    /// current. Afterwards they are current: the layers are those that the
    /// connections give, and the order holds the nodes from which an output
    /// is reached over enabled connections, each behind the nodes that feed
    /// it. Nothing but the layers of hidden nodes, the order and its mark
    /// changes.
    pub fn build_evaluation_order(&mut self)
        requires
            old(self).wf(),
        ensures
            final(self).settled(),
            final(self).is_evaluation_order_up_to_date,
            final(self).genome().same_but_layers(old(self).genome()),
            old(self).is_evaluation_order_up_to_date ==> final(self)@ == old(self)@,
            !old(self).is_evaluation_order_up_to_date ==> final(self).node_order_list@ == old(self).genome().evaluation_order(),
            final(self).id == old(self).id,
            final(self).net_params == old(self).net_params,
            final(self).fitness_info == old(self).fitness_info,
    {
        if self.is_evaluation_order_up_to_date {
            return ;
        }
        let n = self.nodes.len();
        let ghost g = self.genome();
        let ghost rank = choose|rank: Seq<nat>| g.ranked_by(rank);
        let mut node_has_been_evaluated = vec![false; n];
        let mut node_order_list: Vec<NodeIndex> = Vec::with_capacity(n);
        let mut layer_list = IdTable::with_capacity(n);

        // The inputs are at depth 0.
        let mut i: usize = 0;
        while i < n
            invariant
                i <= n,
                n == self.nodes.len(),
                g == self.genome(),
                g.structure_ok(),
                forall|k: usize| #[trigger]
                    id_table_entries(layer_list).contains_key(k) ==> k < i && g.is_input_slot(
                        k as int,
                    ) && id_table_entries(layer_list)[k] == 0,
                forall|k: int|
                    0 <= k < i && #[trigger] g.is_input_slot(k) ==> id_table_entries(
                        layer_list,
                    ).contains_key(k as usize),
            decreases n - i,
        {
            assert(g.nodes[i as int].layer == self.nodes[i as int].layer);
            if self.nodes[i].layer == Layer::Input {
                layer_list.insert(i, 0);
            }
            i += 1;
        }
        proof {
            let depths = id_table_entries(layer_list);
            assert forall|k: usize| #[trigger] depths.contains_key(k) implies k < g.nodes.len()
                && g.has_chain(rank, k as int, depths[k] + 1) by {
                lemma_chain_single(g, rank, k as int);
            }
            assert(node_order_list@.len() == 0);
            assert(g.order_partial(node_order_list@, node_has_been_evaluated@));
        }

        // Walk back from every output.
        let mut i: usize = 0;
        while i < n
            invariant
                i <= n,
                n == self.nodes.len(),
                g == self.genome(),
                g.structure_ok(),
                g.ranked_by(rank),
                g.order_partial(node_order_list@, node_has_been_evaluated@),
                node_order_list@ == g.walk_outputs(rank, i as int),
                forall|p: int|
                    0 <= p < node_order_list@.len() ==> #[trigger] g.supported_in(
                        node_order_list@,
                        p,
                    ),
                forall|k: int|
                    0 <= k < i && #[trigger] g.is_output_slot(k) ==> node_has_been_evaluated@[k]
                        && id_table_entries(layer_list).contains_key(k as usize),
                g.depth_partial(rank, id_table_entries(layer_list)),
                forall|k: usize| #[trigger]
                    id_table_entries(layer_list).contains_key(k) ==> g.is_input_slot(k as int)
                        || g.is_output_slot(k as int) || g.leads_into(
                        id_table_entries(layer_list),
                        k as int,
                    ),
            decreases n - i,
        {
            assert(g.nodes[i as int].layer == self.nodes[i as int].layer);
            if self.nodes[i].layer == Layer::Output {
                let ghost order_before = node_order_list@;
                let ghost depths_before = id_table_entries(layer_list);
                self.build_evaluation_order_recurse(
                    &mut node_order_list,
                    &mut node_has_been_evaluated,
                    i,
                    Ghost(rank),
                );
                self.build_layer_order_recurse(&mut layer_list, i, Ghost(rank));
                proof {
                    let after = node_order_list@;
                    let depths = id_table_entries(layer_list);
                    assert forall|p: int| 0 <= p < after.len() implies #[trigger] g.supported_in(
                        after,
                        p,
                    ) by {
                        if p < order_before.len() {
                            lemma_supported_extends(g, order_before, after, p);
                        }
                    }
                    assert forall|k: int| 0 <= k < i + 1 && #[trigger] g.is_output_slot(k) implies node_has_been_evaluated@[k]
                        && depths.contains_key(k as usize) by {
                        if k < i {
                            let at = choose|p: int|
                                0 <= p < order_before.len() && order_before[p] == NodeIndex(
                                    g.id,
                                    k as usize,
                                );
                            assert(after[at] == order_before[at]);
                            assert(depths_before.contains_key(k as usize));
                        }
                    }
                    assert forall|k: usize| #[trigger] depths.contains_key(k) implies g.is_input_slot(
                        k as int,
                    ) || g.is_output_slot(k as int) || g.leads_into(depths, k as int) by {
                        if depths_before.contains_key(k) {
                            if g.leads_into(depths_before, k as int) {
                                let j = choose|j: int|
                                    0 <= j < g.connections.len() && #[trigger] g.src(j) == k
                                        && depths_before.contains_key(g.dst(j) as usize);
                                assert(depths.contains_key(g.dst(j) as usize));
                            }
                        }
                    }
                }
            }
            i += 1;
        }
        let ghost depths = id_table_entries(layer_list);
        proof {
            assert(walk_done(g, rank, depths));
            lemma_layers_from_depths(g, rank, depths);
        }

        // Give every hidden node its layer.
        let mut i: usize = 0;
        while i < n
            invariant
                i <= n,
                n == self.nodes.len(),
                n == g.nodes.len(),
                depths == id_table_entries(layer_list),
                forall|k: usize| #[trigger] depths.contains_key(k) ==> depths[k] < MAX_NODES,
                g.slots_ok(),
                self.same_shell(old(self)),
                self.connections == old(self).connections,
                self.map_node_id_to_index == old(self).map_node_id_to_index,
                self.map_connection_id_to_index == old(self).map_connection_id_to_index,
                forall|k: int|
                    0 <= k < i ==> (#[trigger] self.nodes[k])@ == g.relayered(depths).nodes[k],
                forall|k: int| i <= k < n ==> (#[trigger] self.nodes[k])@ == g.nodes[k],
            decreases n - i,
        {
            match self.nodes[i].layer {
                Layer::Input => {},
                Layer::Output => {},
                _ => {
                    let layer = match layer_list.get(i) {
                        Some(depth) => Layer::Hidden(depth as u16),
                        None => Layer::Unreachable,
                    };
                    self.nodes[i].layer = layer;
                },
            }
            i += 1;
        }
        self.node_order_list = node_order_list;
        self.is_evaluation_order_up_to_date = true;
        proof {
            let h = g.relayered(depths);
            assert(self.genome().nodes =~= h.nodes);
            assert(self.genome() == h);
            assert(h.evaluation_order() == g.evaluation_order()) by {
                assert(g.same_walk(h));
                law_order_follows_the_wiring(g, h);
            }
            assert(h.order_ok(self.node_order_list@)) by {
                let order = self.node_order_list@;
                assert forall|i: int| #[trigger] h.is_output_slot(i) implies order.contains(
                    NodeIndex(h.id, i as usize),
                ) by {
                    assert(g.is_output_slot(i));
                    assert(node_has_been_evaluated@[i]);
                }
                assert forall|p: int| 0 <= p < order.len() implies #[trigger] h.fed_before(
                    order,
                    p,
                ) by {
                    assert(g.fed_before(order, p));
                    assert forall|j: int|
                        0 <= j < h.connections.len() && h.connections[j].is_enabled
                            && #[trigger] h.dst(j) == order[p].1 implies exists|q: int|
                        0 <= q < p && #[trigger] order[q] == h.connections[j].input_node by {
                        assert(g.dst(j) == order[p].1);
                    }
                }
                assert forall|p: int| 0 <= p < order.len() implies #[trigger] h.supported_in(
                    order,
                    p,
                ) by {
                    assert(g.supported_in(order, p));
                    if !g.is_output_slot(order[p].1 as int) {
                        let q = choose|q: int|
                            p < q < order.len() && g.feeds(
                                order[p].1 as int,
                                (#[trigger] order[q]).1 as int,
                            );
                        let j = choose|j: int|
                            0 <= j < g.connections.len() && g.connections[j].is_enabled
                                && #[trigger] g.src(j) == order[p].1 as int && g.dst(j)
                                == order[q].1 as int;
                        assert(h.src(j) == order[p].1 as int && h.dst(j) == order[q].1 as int);
                        assert(h.feeds(order[p].1 as int, order[q].1 as int));
                    }
                }
            }
            assert(self.node_table_ok()) by {
                assert forall|i: int| 0 <= i < self.nodes.len() implies lookup(
                    id_table_entries(self.map_node_id_to_index),
                    (#[trigger] self.nodes[i]).id.0,
                ) == Some(i as usize) by {
                    assert(self.nodes[i]@.id == old(self).nodes[i]@.id);
                }
                assert forall|k: usize| #[trigger]
                    id_table_entries(self.map_node_id_to_index).contains_key(k) implies id_table_entries(
                    self.map_node_id_to_index,
                )[k] < self.nodes.len() && self.nodes[id_table_entries(
                    self.map_node_id_to_index,
                )[k] as int].id.0 == k by {
                    let at = id_table_entries(self.map_node_id_to_index)[k] as int;
                    assert(self.nodes[at]@.id == old(self).nodes[at]@.id);
                }
            }
        }
    }
}

/// In a current evaluation order, the node an enabled connection starts
/// from stands before the node it ends in, wherever the latter stands in
/// the order.
pub proof fn lemma_enabled_connection_in_order(g: Genome, order: Seq<NodeIndex>, j: int, p: int)
    requires
        g.order_ok(order),
        0 <= j < g.connections.len(),
        g.connections[j].is_enabled,
        0 <= p < order.len(),
        order[p] == g.connections[j].output_node,
    ensures
        exists|q: int| 0 <= q < p && #[trigger] order[q] == g.connections[j].input_node,
{
    assert(g.fed_before(order, p));
    assert(g.dst(j) == order[p].1);
}

} // verus!

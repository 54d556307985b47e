//! The layers of a genome.
//!
//! The depth of a node is 0 if no connection ends in it and else one more
//! than the greatest depth among the nodes that its incoming connections
//! start from, enabled or not. Depths are found by walking back from every
//! output; a hidden node that the walk does not reach leads to no output
//! and is unreachable.

use crate::neural_net::layers::Layer;
use crate::neural_net::nets::{ConnectionIndex, Genome, MAX_NODES, Net, NodeIndex};
use crate::neural_net::nodes::NodeView;
use crate::neural_net::populations::FitnessInfo;
use crate::tables::{id_table_entries, IdTable};
use vstd::prelude::*;

verus! {

impl Genome {
    /// Whether some connection, enabled or not, leads from the node at `a`
    /// to the node at `b`.
    pub open spec fn links(self, a: int, b: int) -> bool {
        exists|j: int|
            0 <= j < self.connections.len() && #[trigger] self.src(j) == a && self.dst(j) == b
    }

    /// Whether `chain` is a list of `len` nodes that ends in the node at `k`
    /// and whose ranks grow.
    pub open spec fn is_chain(self, rank: Seq<nat>, chain: Seq<int>, k: int, len: int) -> bool {
        &&& chain.len() == len
        &&& len >= 1
        &&& chain[len - 1] == k
        &&& forall|a: int| 0 <= a < len ==> 0 <= #[trigger] chain[a] < self.nodes.len()
        &&& forall|a: int, b: int|
            0 <= a < b < len ==> rank[#[trigger] chain[a]] < rank[#[trigger] chain[b]]
    }

    /// Whether there is such a chain.
    pub open spec fn has_chain(self, rank: Seq<nat>, k: int, len: int) -> bool {
        exists|chain: Seq<int>| self.is_chain(rank, chain, k, len)
    }

    /// The depth recorded for the node at `k` is 0 if no connection ends in
    /// it and else one more than the greatest depth recorded among the nodes
    /// that its incoming connections start from.
    pub open spec fn depth_settled(self, depths: Map<usize, usize>, k: int) -> bool {
        &&& forall|j: int|
            0 <= j < self.connections.len() && #[trigger] self.dst(j) == k ==> {
                &&& depths.contains_key(self.src(j) as usize)
                &&& depths[self.src(j) as usize] + 1 <= depths[k as usize]
            }
        &&& depths[k as usize] > 0 ==> exists|j: int|
            0 <= j < self.connections.len() && #[trigger] self.dst(j) == k && depths[self.src(
                j,
            ) as usize] + 1 == depths[k as usize]
    }

    /// Some connection leads from the node at `k` to a node with a recorded
    /// depth.
    pub open spec fn leads_into(self, depths: Map<usize, usize>, k: int) -> bool {
        exists|j: int|
            0 <= j < self.connections.len() && #[trigger] self.src(j) == k && depths.contains_key(
                self.dst(j) as usize,
            )
    }

    /// What holds of the recorded depths while they are being found: every
    /// input has depth 0, the depth of every other recorded node is settled,
    /// and a recorded depth is witnessed by a chain of that many nodes and
    /// one more.
    pub open spec fn depth_partial(self, rank: Seq<nat>, depths: Map<usize, usize>) -> bool {
        &&& forall|k: usize| #[trigger]
            depths.contains_key(k) ==> k < self.nodes.len() && self.has_chain(
                rank,
                k as int,
                depths[k] + 1,
            )
        &&& forall|i: int| #[trigger]
            self.is_input_slot(i) ==> depths.contains_key(i as usize) && depths[i as usize] == 0
        &&& forall|k: usize| #[trigger]
            depths.contains_key(k) && !self.is_input_slot(k as int) ==> self.depth_settled(
                depths,
                k as int,
            )
    }

    /// The layer that the recorded depths give the node at `i`.
    pub open spec fn assigned_layer(self, depths: Map<usize, usize>, i: int) -> Layer {
        if self.is_input_slot(i) {
            Layer::Input
        } else if self.is_output_slot(i) {
            Layer::Output
        } else if depths.contains_key(i as usize) {
            Layer::Hidden(depths[i as usize] as u16)
        } else {
            Layer::Unreachable
        }
    }

    /// The genome with the layers that the recorded depths give.
    pub open spec fn relayered(self, depths: Map<usize, usize>) -> Genome {
        Genome {
            nodes: Seq::new(
                self.nodes.len(),
                |i: int| NodeView { layer: self.assigned_layer(depths, i), ..self.nodes[i] },
            ),
            ..self
        }
    }

    /// Whether the two genomes are the same but for the layers of their
    /// nodes.
    pub open spec fn same_but_layers(self, other: Genome) -> bool {
        &&& self.id == other.id
        &&& self.input_count == other.input_count
        &&& self.output_count == other.output_count
        &&& self.connections == other.connections
        &&& self.nodes.len() == other.nodes.len()
        &&& forall|i: int|
            0 <= i < self.nodes.len() ==> #[trigger] self.nodes[i] == (NodeView {
                layer: self.nodes[i].layer,
                ..other.nodes[i]
            })
    }
}

/// A chain holds no node twice, so it is no longer than the genome has
/// nodes.
pub proof fn lemma_chain_bound(g: Genome, rank: Seq<nat>, k: int, len: int)
    requires
        g.has_chain(rank, k, len),
    ensures
        len <= g.nodes.len(),
{
    let chain = choose|chain: Seq<int>| g.is_chain(rank, chain, k, len);
    assert(chain.no_duplicates()) by {
        assert forall|a: int, b: int| 0 <= a < chain.len() && 0 <= b < chain.len() && a != b implies chain[a]
            != chain[b] by {
            if a < b {
                assert(rank[chain[a]] < rank[chain[b]]);
            } else {
                assert(rank[chain[b]] < rank[chain[a]]);
            }
        }
    }
    chain.unique_seq_to_set();
    let all = vstd::set_lib::set_int_range(0, g.nodes.len() as int);
    vstd::set_lib::lemma_int_range(0, g.nodes.len() as int);
    assert(chain.to_set().subset_of(all)) by {
        assert forall|x: int| chain.to_set().contains(x) implies all.contains(x) by {
            let a = choose|a: int| 0 <= a < chain.len() && chain[a] == x;
            assert(0 <= chain[a] < g.nodes.len());
        }
    }
    vstd::set_lib::lemma_len_subset(chain.to_set(), all);
}

/// The chain of one node.
pub proof fn lemma_chain_single(g: Genome, rank: Seq<nat>, k: int)
    requires
        0 <= k < g.nodes.len(),
    ensures
        g.has_chain(rank, k, 1),
{
    assert(g.is_chain(rank, seq![k], k, 1));
}

/// A chain that ends in a node of lower rank can be continued.
pub proof fn lemma_chain_grows(g: Genome, rank: Seq<nat>, u: int, len: int, v: int)
    requires
        g.has_chain(rank, u, len),
        0 <= v < g.nodes.len(),
        rank[u] < rank[v],
    ensures
        g.has_chain(rank, v, len + 1),
{
    let chain = choose|chain: Seq<int>| g.is_chain(rank, chain, u, len);
    let longer = chain.push(v);
    assert forall|a: int, b: int| 0 <= a < b < len + 1 implies rank[#[trigger] longer[a]] < rank[
    #[trigger] longer[b]] by {
        if b == len {
            if a < len - 1 {
                assert(rank[chain[a]] < rank[chain[len - 1]]);
            }
        } else {
            assert(rank[chain[a]] < rank[chain[b]]);
        }
    }
    assert(g.is_chain(rank, longer, v, len + 1));
}

/// Whether the walk from every output is done: the recorded depths hold of
/// what was reached, every output was reached, and whatever else was
/// reached leads on to something reached.
pub open spec fn walk_done(g: Genome, rank: Seq<nat>, depths: Map<usize, usize>) -> bool {
    &&& g.structure_ok()
    &&& g.ranked_by(rank)
    &&& g.depth_partial(rank, depths)
    &&& forall|i: int| #[trigger] g.is_output_slot(i) ==> depths.contains_key(i as usize)
    &&& forall|k: usize| #[trigger]
        depths.contains_key(k) ==> g.is_input_slot(k as int) || g.is_output_slot(k as int)
            || g.leads_into(depths, k as int)
}

/// A recorded depth is less than the number of nodes.
pub proof fn lemma_depth_bound(g: Genome, rank: Seq<nat>, depths: Map<usize, usize>, k: usize)
    requires
        g.slots_ok(),
        g.depth_partial(rank, depths),
        depths.contains_key(k),
    ensures
        depths[k] < MAX_NODES,
        k < g.nodes.len(),
{
    lemma_chain_bound(g, rank, k as int, depths[k] + 1);
}

/// With the layers that the recorded depths give, a node is placed exactly
/// if a depth is recorded for it, and the depth of a node that is not an
/// output is the recorded one.
pub proof fn lemma_relayered_node(g: Genome, rank: Seq<nat>, depths: Map<usize, usize>, i: int)
    requires
        walk_done(g, rank, depths),
        0 <= i < g.nodes.len(),
    ensures
        g.relayered(depths).layer(i).is_placed() <==> depths.contains_key(i as usize),
        depths.contains_key(i as usize) && !g.is_output_slot(i) ==> g.relayered(depths).depth(i)
            == depths[i as usize],
        depths.contains_key(i as usize) ==> depths[i as usize] < MAX_NODES,
        g.relayered(depths).layer(i) == g.assigned_layer(depths, i),
        g.relayered(depths).hidden_at(i) ==> depths.contains_key(i as usize) && !g.is_input_slot(i)
            && !g.is_output_slot(i),
{
    if depths.contains_key(i as usize) {
        lemma_depth_bound(g, rank, depths, i as usize);
    }
    if g.is_input_slot(i) {
        assert(depths.contains_key(i as usize));
    } else if g.is_output_slot(i) {
        assert(depths.contains_key(i as usize));
    }
}

/// The ends of a connection are nodes of the genome, and stay what they are
/// when the layers change.
pub proof fn lemma_relayered_ends(g: Genome, depths: Map<usize, usize>, j: int)
    requires
        g.endpoints_ok(),
        0 <= j < g.connections.len(),
    ensures
        g.relayered(depths).src(j) == g.src(j),
        g.relayered(depths).dst(j) == g.dst(j),
        0 <= g.src(j) < g.nodes.len(),
        0 <= g.dst(j) < g.nodes.len(),
        !g.is_output_slot(g.src(j)),
        !g.is_input_slot(g.dst(j)),
{
    let c = g.connections[j];
    assert(g.node_in_range(c.input_node));
}

/// With the layers that the recorded depths give, a connection into a
/// placed node starts from a placed node of a strictly earlier layer.
pub proof fn lemma_relayered_connection(g: Genome, rank: Seq<nat>, depths: Map<usize, usize>, j: int)
    requires
        walk_done(g, rank, depths),
        0 <= j < g.connections.len(),
        g.relayered(depths).layer(g.relayered(depths).dst(j)).is_placed(),
    ensures
        g.relayered(depths).layer(g.relayered(depths).src(j)).is_placed(),
        g.relayered(depths).layer(g.relayered(depths).src(j)).number() < g.relayered(depths).layer(
            g.relayered(depths).dst(j),
        ).number(),
{
    let a = g.src(j);
    let b = g.dst(j);
    lemma_relayered_ends(g, depths, j);
    lemma_relayered_node(g, rank, depths, a);
    lemma_relayered_node(g, rank, depths, b);
    assert(depths.contains_key(b as usize));
    assert(g.depth_settled(depths, b));
    assert(depths.contains_key(a as usize) && depths[a as usize] + 1 <= depths[b as usize]);
}

/// With the layers that the recorded depths give, the depth of a hidden
/// node is exact and a connection leads from it to a placed node.
pub proof fn lemma_relayered_hidden(g: Genome, rank: Seq<nat>, depths: Map<usize, usize>, i: int)
    requires
        walk_done(g, rank, depths),
        0 <= i < g.nodes.len(),
        g.relayered(depths).hidden_at(i),
    ensures
        g.relayered(depths).depth_is_exact(i),
        g.relayered(depths).leads_on(i),
{
    let h = g.relayered(depths);
    lemma_relayered_node(g, rank, depths, i);
    assert(depths.contains_key(i as usize));
    assert(g.depth_settled(depths, i));
    assert forall|j: int| 0 <= j < h.connections.len() && #[trigger] h.dst(j) == i implies h.depth(
        h.src(j),
    ) + 1 <= h.depth(i) by {
        lemma_relayered_ends(g, depths, j);
        assert(g.dst(j) == i);
        lemma_relayered_node(g, rank, depths, g.src(j));
    }
    if h.depth(i) > 0 {
        let j = choose|j: int|
            0 <= j < g.connections.len() && #[trigger] g.dst(j) == i && depths[g.src(j) as usize]
                + 1 == depths[i as usize];
        lemma_relayered_ends(g, depths, j);
        assert(depths.contains_key(g.src(j) as usize));
        lemma_relayered_node(g, rank, depths, g.src(j));
        assert(h.dst(j) == i && h.depth(h.src(j)) + 1 == h.depth(i));
    }
    assert(g.leads_into(depths, i));
    let j = choose|j: int|
        0 <= j < g.connections.len() && #[trigger] g.src(j) == i && depths.contains_key(
            g.dst(j) as usize,
        );
    lemma_relayered_ends(g, depths, j);
    lemma_relayered_node(g, rank, depths, g.dst(j));
    assert(h.src(j) == i && h.layer(h.dst(j)).is_placed());
}

/// Changing the layers of nodes that are neither input nor output leaves
/// the structure and every ranking as they are.
pub proof fn lemma_relayered_structure(g: Genome, rank: Seq<nat>, depths: Map<usize, usize>)
    requires
        g.structure_ok(),
        g.ranked_by(rank),
    ensures
        g.relayered(depths).structure_ok(),
        g.relayered(depths).ranked_by(rank),
        g.relayered(depths).same_but_layers(g),
{
    let h = g.relayered(depths);
    assert(h.indices_ok()) by {
        assert forall|i: int| 0 <= i < h.nodes.len() implies (#[trigger] h.nodes[i]).index
            == NodeIndex(h.id, i as usize) by {
            assert(g.nodes[i].index == NodeIndex(g.id, i as usize));
        }
    }
    assert(h.ids_distinct()) by {
        assert forall|i: int, k: int| 0 <= i < k < h.nodes.len() implies (#[trigger] h.nodes[i]).id
            != (#[trigger] h.nodes[k]).id by {
            assert(g.nodes[i].id != g.nodes[k].id);
        }
    }
    assert(h.endpoints_ok()) by {
        assert forall|j: int| 0 <= j < h.connections.len() implies {
            let c = #[trigger] h.connections[j];
            &&& h.node_in_range(c.input_node)
            &&& h.node_in_range(c.output_node)
            &&& !h.is_output_slot(c.input_node.1 as int)
            &&& !h.is_input_slot(c.output_node.1 as int)
        } by {
            let c = g.connections[j];
            assert(g.node_in_range(c.input_node));
        }
    }
    assert(h.incoming_ok()) by {
        assert forall|i: int, k: int|
            0 <= i < h.nodes.len() && 0 <= k < h.nodes[i].input_connections.len() implies {
            let c = #[trigger] h.nodes[i].input_connections[k];
            h.connection_in_range(c) && h.dst(c.1 as int) == i
        } by {
            let c = g.nodes[i].input_connections[k];
            assert(g.connection_in_range(c) && g.dst(c.1 as int) == i);
        }
        assert forall|i: int| 0 <= i < h.nodes.len() implies (
        #[trigger] h.nodes[i]).input_connections.no_duplicates() by {
            assert(g.nodes[i].input_connections.no_duplicates());
        }
        assert forall|j: int| 0 <= j < h.connections.len() implies h.nodes[#[trigger] h.dst(
            j,
        )].input_connections.contains(ConnectionIndex(h.id, j as usize)) by {
            lemma_relayered_ends(g, depths, j);
            assert(g.nodes[g.dst(j)].input_connections.contains(ConnectionIndex(g.id, j as usize)));
        }
    }
    assert(h.slots_ok()) by {
        assert forall|i: int| 0 <= i < h.nodes.len() implies {
            &&& (#[trigger] h.nodes[i]).layer == Layer::Input <==> h.is_input_slot(i)
            &&& h.nodes[i].layer == Layer::Output <==> h.is_output_slot(i)
        } by {}
    }
    assert(h.ranked_by(rank)) by {
        assert forall|j: int| 0 <= j < h.connections.len() implies rank[#[trigger] h.src(j)] < rank[h.dst(
            j,
        )] by {
            assert(rank[g.src(j)] < rank[g.dst(j)]);
        }
    }
}

/// Once the walk from every output is done, the layers that the recorded
/// depths give are the layers of the genome: the structure stands, the
/// ranking too, and the layering holds.
pub proof fn lemma_layers_from_depths(g: Genome, rank: Seq<nat>, depths: Map<usize, usize>)
    requires
        walk_done(g, rank, depths),
    ensures
        g.relayered(depths).structure_ok(),
        g.relayered(depths).ranked_by(rank),
        g.relayered(depths).layering_ok(),
        g.relayered(depths).same_but_layers(g),
        forall|k: usize| #[trigger] depths.contains_key(k) ==> depths[k] < MAX_NODES,
{
    let h = g.relayered(depths);
    lemma_relayered_structure(g, rank, depths);
    assert forall|k: usize| #[trigger] depths.contains_key(k) implies depths[k] < MAX_NODES by {
        lemma_depth_bound(g, rank, depths, k);
    }
    assert forall|j: int|
        0 <= j < h.connections.len() && h.layer(#[trigger] h.dst(j)).is_placed() implies {
        &&& h.layer(h.src(j)).is_placed()
        &&& h.layer(h.src(j)).number() < h.layer(h.dst(j)).number()
    } by {
        lemma_relayered_connection(g, rank, depths, j);
    }
    assert forall|i: int| 0 <= i < h.nodes.len() && #[trigger] h.hidden_at(i) implies {
        &&& h.depth_is_exact(i)
        &&& h.leads_on(i)
    } by {
        lemma_relayered_hidden(g, rank, depths, i);
    }
}

impl<F: FitnessInfo> Net<F> {
    /// Finds the depth of `node`, and on the way that of every node from
    /// which a connection leads to it.
    pub(crate) fn build_layer_order_recurse(
        &self,
        layer_list: &mut IdTable,
        node: usize,
        Ghost(rank): Ghost<Seq<nat>>,
    ) -> (layer: usize)
        requires
            self.genome().base_ok(),
            self.genome().ranked_by(rank),
            self.genome().depth_partial(rank, id_table_entries(*old(layer_list))),
            node < self.nodes.len(),
        ensures
            self.genome().depth_partial(rank, id_table_entries(*final(layer_list))),
            forall|k: usize| #[trigger]
                id_table_entries(*old(layer_list)).contains_key(k) ==> id_table_entries(
                    *final(layer_list),
                ).contains_key(k) && id_table_entries(*final(layer_list))[k] == id_table_entries(
                    *old(layer_list),
                )[k],
            id_table_entries(*final(layer_list)).contains_key(node),
            id_table_entries(*final(layer_list))[node] == layer,
            forall|k: usize| #[trigger]
                id_table_entries(*final(layer_list)).contains_key(k) && !id_table_entries(
                    *old(layer_list),
                ).contains_key(k) ==> rank[k as int] <= rank[node as int] && (k == node
                    || self.genome().leads_into(id_table_entries(*final(layer_list)), k as int)),
        decreases rank[node as int],
    {
        match layer_list.get(node) {
            Some(layer) => {
                return layer;
            },
            None => {},
        }
        let ghost g = self.genome();
        let ghost start = id_table_entries(*layer_list);
        let mut layer: usize = 0;
        let count = self.nodes[node].input_connections.len();
        let mut k: usize = 0;
        proof {
            lemma_chain_single(g, rank, node as int);
        }
        while k < count
            invariant
                k <= count,
                count == self.nodes[node as int].input_connections.len(),
                node < self.nodes.len(),
                g == self.genome(),
                g.base_ok(),
                g.ranked_by(rank),
                g.depth_partial(rank, id_table_entries(*layer_list)),
                forall|x: usize| #[trigger]
                    start.contains_key(x) ==> id_table_entries(*layer_list).contains_key(x)
                        && id_table_entries(*layer_list)[x] == start[x],
                !id_table_entries(*layer_list).contains_key(node),
                forall|kk: int|
                    0 <= kk < k ==> {
                        let c = g.connections[(
                        #[trigger] g.nodes[node as int].input_connections[kk]).1 as int];
                        &&& id_table_entries(*layer_list).contains_key(c.input_node.1)
                        &&& id_table_entries(*layer_list)[c.input_node.1] + 1 <= layer
                    },
                layer > 0 ==> exists|kk: int|
                    0 <= kk < k && id_table_entries(*layer_list)[g.connections[(
                    #[trigger] g.nodes[node as int].input_connections[kk]).1 as int].input_node.1]
                        + 1 == layer,
                g.has_chain(rank, node as int, layer + 1),
                forall|x: usize| #[trigger]
                    id_table_entries(*layer_list).contains_key(x) && !start.contains_key(x)
                        ==> rank[x as int] < rank[node as int] && (g.leads_into(
                        id_table_entries(*layer_list),
                        x as int,
                    ) || g.links(x as int, node as int)),
            decreases count - k,
        {
            let connection_index = self.nodes[node].input_connections[k];
            proof {
                let c = g.nodes[node as int].input_connections[k as int];
                assert(c == connection_index);
                assert(g.connection_in_range(c) && g.dst(c.1 as int) == node);
                assert(g.node_in_range(g.connections[c.1 as int].input_node));
                assert(rank[g.src(c.1 as int)] < rank[g.dst(c.1 as int)]);
            }
            let connection = &self.connections[connection_index.1];
            let ghost before = id_table_entries(*layer_list);
            let ghost source = connection.input_node.1;
            let below = self.build_layer_order_recurse(
                layer_list,
                connection.input_node.1,
                Ghost(rank),
            );
            let ghost after = id_table_entries(*layer_list);
            proof {
                assert(g.src(connection_index.1 as int) == source);
                assert(g.links(source as int, node as int));
                lemma_chain_bound(g, rank, source as int, below + 1);
                assert forall|x: usize| #[trigger]
                    after.contains_key(x) && !start.contains_key(x) implies rank[x as int]
                    < rank[node as int] && (g.leads_into(after, x as int) || g.links(
                    x as int,
                    node as int,
                )) by {
                    if before.contains_key(x) {
                        if g.leads_into(before, x as int) {
                            let j = choose|j: int|
                                0 <= j < g.connections.len() && #[trigger] g.src(j) == x
                                    && before.contains_key(g.dst(j) as usize);
                            assert(after.contains_key(g.dst(j) as usize));
                        }
                    } else {
                        if x != source {
                            assert(g.leads_into(after, x as int));
                        }
                    }
                }
                assert forall|kk: int| 0 <= kk < k implies {
                    let c = g.connections[(
                    #[trigger] g.nodes[node as int].input_connections[kk]).1 as int];
                    &&& after.contains_key(c.input_node.1)
                    &&& after[c.input_node.1] == before[c.input_node.1]
                } by {
                    let c = g.connections[g.nodes[node as int].input_connections[kk].1 as int];
                    assert(before.contains_key(c.input_node.1));
                }
            }
            if below + 1 > layer {
                proof {
                    lemma_chain_grows(g, rank, source as int, below + 1, node as int);
                }
                layer = below + 1;
            }
            k += 1;
        }
        let ghost before = id_table_entries(*layer_list);
        layer_list.insert(node, layer);
        proof {
            let after = id_table_entries(*layer_list);
            assert(g.connections.len() == self.connections.len());
            assert forall|j: int| 0 <= j < g.connections.len() && #[trigger] g.dst(j) == node implies {
                &&& before.contains_key(g.src(j) as usize)
                &&& before[g.src(j) as usize] + 1 <= layer
            } by {
                let list = g.nodes[node as int].input_connections;
                assert(list.contains(ConnectionIndex(g.id, j as usize)));
                let kk = choose|kk: int|
                    0 <= kk < list.len() && list[kk] == ConnectionIndex(g.id, j as usize);
                let c = g.connections[(g.nodes[node as int].input_connections[kk]).1 as int];
                assert(c == g.connections[j]);
            }
            assert(g.depth_settled(after, node as int)) by {
                if layer > 0 {
                    let kk = choose|kk: int|
                        0 <= kk < k && before[g.connections[(
                        #[trigger] g.nodes[node as int].input_connections[kk]).1 as int].input_node.1]
                            + 1 == layer;
                    let c = g.nodes[node as int].input_connections[kk];
                    assert(g.connection_in_range(c) && g.dst(c.1 as int) == node);
                }
            }
            assert forall|x: usize| #[trigger]
                after.contains_key(x) && !g.is_input_slot(x as int) implies g.depth_settled(
                after,
                x as int,
            ) by {
                if x != node {
                    assert(g.depth_settled(before, x as int));
                    assert forall|j: int|
                        0 <= j < g.connections.len() && #[trigger] g.dst(j) == x implies {
                        &&& after.contains_key(g.src(j) as usize)
                        &&& after[g.src(j) as usize] + 1 <= after[x as int as usize]
                    } by {
                        assert(before.contains_key(g.src(j) as usize));
                    }
                    if after[x] > 0 {
                        let j = choose|j: int|
                            0 <= j < g.connections.len() && #[trigger] g.dst(j) == x && before[g.src(
                                j,
                            ) as usize] + 1 == before[x as int as usize];
                        assert(before.contains_key(g.src(j) as usize));
                    }
                }
            }
            assert forall|x: usize| #[trigger]
                after.contains_key(x) && !start.contains_key(x) implies rank[x as int]
                <= rank[node as int] && (x == node || g.leads_into(after, x as int)) by {
                if x != node {
                    if g.leads_into(before, x as int) {
                        let j = choose|j: int|
                            0 <= j < g.connections.len() && #[trigger] g.src(j) == x
                                && before.contains_key(g.dst(j) as usize);
                        assert(after.contains_key(g.dst(j) as usize));
                    } else {
                        let j = choose|j: int|
                            0 <= j < g.connections.len() && #[trigger] g.src(j) == x && g.dst(j)
                                == node;
                        assert(after.contains_key(g.dst(j) as usize));
                    }
                }
            }
        }
        layer
    }
}

} // verus!

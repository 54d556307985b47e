//! What adding a gene does to the invariants of a genome.

use crate::neural_net::activation_functions::ActivationFunction;
use crate::neural_net::connections::Connection;
use crate::neural_net::ids::IdAllocator;
use crate::neural_net::layers::Layer;
use crate::neural_net::nets::{ConnectionIndex, Genome, NodeIndex, MAX_NODES};
use crate::neural_net::nodes::NodeView;
use vstd::prelude::*;

verus! {

/// A node with a new identifier and no connections, put at the end, keeps
/// the basic invariants.
pub proof fn lemma_with_node_base(g: Genome, node: NodeView)
    requires
        g.base_ok(),
        node.index == NodeIndex(g.id, g.nodes.len() as usize),
        g.nodes.len() < usize::MAX,
        node.input_connections.len() == 0,
        !g.has_node_id(node.id),
    ensures
        g.with_node(node).base_ok(),
{
    let h = g.with_node(node);
    assert forall|i: int, k: int| 0 <= i < k < h.nodes.len() implies (#[trigger] h.nodes[i]).id != (
    #[trigger] h.nodes[k]).id by {
        if k == g.nodes.len() {
            assert(g.nodes[i].id != node.id);
        } else {
            assert(g.nodes[i].id != g.nodes[k].id);
        }
    }
    assert forall|j: int| 0 <= j < h.connections.len() implies {
        let c = #[trigger] h.connections[j];
        &&& h.node_in_range(c.input_node)
        &&& h.node_in_range(c.output_node)
        &&& !h.is_output_slot(c.input_node.1 as int)
        &&& !h.is_input_slot(c.output_node.1 as int)
    } by {
        let c = g.connections[j];
        assert(g.node_in_range(c.input_node));
    }
    assert forall|i: int, k: int|
        0 <= i < h.nodes.len() && 0 <= k < h.nodes[i].input_connections.len() implies {
        let c = #[trigger] h.nodes[i].input_connections[k];
        h.connection_in_range(c) && h.dst(c.1 as int) == i
    } by {
        let c = g.nodes[i].input_connections[k];
        assert(g.connection_in_range(c));
    }
    assert forall|j: int| 0 <= j < h.connections.len() implies h.nodes[#[trigger] h.dst(
        j,
    )].input_connections.contains(ConnectionIndex(h.id, j as usize)) by {
        assert(g.dst(j) == h.dst(j));
        assert(g.node_in_range(g.connections[j].output_node));
        assert(g.nodes[g.dst(j)].input_connections.contains(ConnectionIndex(g.id, j as usize)));
    }
}

/// A node that is neither input nor output, put at the end of a genome that
/// is not full, keeps the inputs and outputs in their places.
pub proof fn lemma_with_node_slots(g: Genome, node: NodeView)
    requires
        g.slots_ok(),
        g.nodes.len() < MAX_NODES,
        node.layer != Layer::Input,
        node.layer != Layer::Output,
    ensures
        g.with_node(node).slots_ok(),
{
    let h = g.with_node(node);
    assert forall|i: int| 0 <= i < h.nodes.len() implies {
        &&& (#[trigger] h.nodes[i]).layer == Layer::Input <==> h.is_input_slot(i)
        &&& h.nodes[i].layer == Layer::Output <==> h.is_output_slot(i)
    } by {
        if i < g.nodes.len() {
            assert(h.nodes[i] == g.nodes[i]);
        }
    }
}

/// A ranking of a genome, extended by any number for the new node, ranks
/// the genome with the node.
pub proof fn lemma_with_node_ranked(g: Genome, node: NodeView, rank: Seq<nat>, r: nat)
    requires
        g.endpoints_ok(),
        g.ranked_by(rank),
    ensures
        g.with_node(node).ranked_by(rank.push(r)),
{
    let h = g.with_node(node);
    assert forall|j: int| 0 <= j < h.connections.len() implies rank.push(r)[#[trigger] h.src(j)]
        < rank.push(r)[h.dst(j)] by {
        assert(g.node_in_range(g.connections[j].input_node));
        assert(g.node_in_range(g.connections[j].output_node));
        assert(rank[g.src(j)] < rank[g.dst(j)]);
    }
}

/// A connection with a new identifier between two nodes of the genome, put
/// at the end, keeps the basic invariants, provided that it does not start
/// from an output or end in an input.
pub proof fn lemma_with_connection_base(g: Genome, c: Connection)
    requires
        g.base_ok(),
        c.index == ConnectionIndex(g.id, g.connections.len() as usize),
        g.connections.len() < usize::MAX,
        !g.has_connection_id(c.id),
        g.node_in_range(c.input_node),
        g.node_in_range(c.output_node),
        !g.is_output_slot(c.input_node.1 as int),
        !g.is_input_slot(c.output_node.1 as int),
    ensures
        g.with_connection(c).base_ok(),
{
    let h = g.with_connection(c);
    let m = g.connections.len() as int;
    let t = c.output_node.1 as int;
    assert forall|i: int| 0 <= i < h.nodes.len() implies (#[trigger] h.nodes[i]).index == NodeIndex(
        h.id,
        i as usize,
    ) by {
        assert(g.nodes[i].index == NodeIndex(g.id, i as usize));
    }
    assert forall|j: int| 0 <= j < h.connections.len() implies (#[trigger] h.connections[j]).index
        == ConnectionIndex(h.id, j as usize) by {
        if j < m {
            assert(g.connections[j].index == ConnectionIndex(g.id, j as usize));
        }
    }
    assert forall|i: int, k: int| 0 <= i < k < h.nodes.len() implies (#[trigger] h.nodes[i]).id != (
    #[trigger] h.nodes[k]).id by {
        assert(g.nodes[i].id != g.nodes[k].id);
    }
    assert forall|j: int, k: int| 0 <= j < k < h.connections.len() implies (
    #[trigger] h.connections[j]).id != (#[trigger] h.connections[k]).id by {
        if k == m {
            assert(g.connections[j].id != c.id);
        } else {
            assert(g.connections[j].id != g.connections[k].id);
        }
    }
    assert forall|j: int| 0 <= j < h.connections.len() implies {
        let x = #[trigger] h.connections[j];
        &&& h.node_in_range(x.input_node)
        &&& h.node_in_range(x.output_node)
        &&& !h.is_output_slot(x.input_node.1 as int)
        &&& !h.is_input_slot(x.output_node.1 as int)
    } by {
        if j < m {
            let x = g.connections[j];
            assert(g.node_in_range(x.input_node));
        }
    }
    assert forall|i: int, k: int|
        0 <= i < h.nodes.len() && 0 <= k < h.nodes[i].input_connections.len() implies {
        let x = #[trigger] h.nodes[i].input_connections[k];
        h.connection_in_range(x) && h.dst(x.1 as int) == i
    } by {
        if i == t && k == g.nodes[t].input_connections.len() {
            assert(h.nodes[i].input_connections[k] == c.index);
        } else {
            let x = g.nodes[i].input_connections[k];
            assert(g.connection_in_range(x) && g.dst(x.1 as int) == i);
            assert(h.nodes[i].input_connections[k] == x);
        }
    }
    assert forall|i: int| 0 <= i < h.nodes.len() implies (
    #[trigger] h.nodes[i]).input_connections.no_duplicates() by {
        assert(g.nodes[i].input_connections.no_duplicates());
        if i == t {
            let old_list = g.nodes[t].input_connections;
            let new_list = h.nodes[t].input_connections;
            assert forall|a: int, b: int|
                0 <= a < new_list.len() && 0 <= b < new_list.len() && a != b implies new_list[a]
                != new_list[b] by {
                if a < old_list.len() {
                    let x = g.nodes[t].input_connections[a];
                    assert(g.connection_in_range(x));
                }
                if b < old_list.len() {
                    let x = g.nodes[t].input_connections[b];
                    assert(g.connection_in_range(x));
                }
            }
        }
    }
    assert forall|j: int| 0 <= j < h.connections.len() implies h.nodes[#[trigger] h.dst(
        j,
    )].input_connections.contains(ConnectionIndex(h.id, j as usize)) by {
        if j < m {
            assert(g.dst(j) == h.dst(j));
            assert(g.node_in_range(g.connections[j].output_node));
            let list = g.nodes[g.dst(j)].input_connections;
            assert(list.contains(ConnectionIndex(g.id, j as usize)));
            let k = choose|k: int| 0 <= k < list.len() && list[k] == ConnectionIndex(g.id, j as usize);
            assert(h.nodes[h.dst(j)].input_connections[k] == ConnectionIndex(h.id, j as usize));
        } else {
            let list = h.nodes[t].input_connections;
            assert(list[list.len() - 1] == c.index);
        }
    }
}

/// Adding a connection moves no node, so the inputs and outputs stay in
/// their places.
pub proof fn lemma_with_connection_slots(g: Genome, c: Connection)
    requires
        g.slots_ok(),
        g.node_in_range(c.output_node),
    ensures
        g.with_connection(c).slots_ok(),
{
    let h = g.with_connection(c);
    assert forall|i: int| 0 <= i < h.nodes.len() implies {
        &&& (#[trigger] h.nodes[i]).layer == Layer::Input <==> h.is_input_slot(i)
        &&& h.nodes[i].layer == Layer::Output <==> h.is_output_slot(i)
    } by {
        assert(h.nodes[i].layer == g.nodes[i].layer);
    }
}

/// A ranking that grows along the new connection ranks the genome with the
/// connection.
pub proof fn lemma_with_connection_ranked(g: Genome, c: Connection, rank: Seq<nat>)
    requires
        g.ranked_by(rank),
        g.node_in_range(c.input_node),
        g.node_in_range(c.output_node),
        rank[c.input_node.1 as int] < rank[c.output_node.1 as int],
    ensures
        g.with_connection(c).ranked_by(rank),
{
    let h = g.with_connection(c);
    assert forall|j: int| 0 <= j < h.connections.len() implies rank[#[trigger] h.src(j)] < rank[h.dst(
        j,
    )] by {
        if j < g.connections.len() {
            assert(rank[g.src(j)] < rank[g.dst(j)]);
        }
    }
}

impl Genome {
    /// Whether the two genomes have the same graph: the same nodes with the
    /// same identifiers, layers and incoming connections, and the same
    /// connections with the same identifiers and ends. Activation functions,
    /// values, weights and enabled flags may differ.
    pub open spec fn same_skeleton(self, other: Genome) -> bool {
        &&& self.id == other.id
        &&& self.input_count == other.input_count
        &&& self.output_count == other.output_count
        &&& self.nodes.len() == other.nodes.len()
        &&& self.connections.len() == other.connections.len()
        &&& forall|i: int|
            0 <= i < self.nodes.len() ==> {
                &&& (#[trigger] self.nodes[i]).index == other.nodes[i].index
                &&& self.nodes[i].id == other.nodes[i].id
                &&& self.nodes[i].layer == other.nodes[i].layer
                &&& self.nodes[i].input_connections == other.nodes[i].input_connections
            }
        &&& forall|j: int|
            0 <= j < self.connections.len() ==> {
                &&& (#[trigger] self.connections[j]).index == other.connections[j].index
                &&& self.connections[j].id == other.connections[j].id
                &&& self.connections[j].input_node == other.connections[j].input_node
                &&& self.connections[j].output_node == other.connections[j].output_node
            }
    }

    /// The genome with another activation function in the node at `i`.
    pub open spec fn with_activation(self, i: int, f: ActivationFunction) -> Genome {
        Genome {
            nodes: self.nodes.update(i, NodeView { activation_function: f, ..self.nodes[i] }),
            ..self
        }
    }

    /// The genome with another value in the node at `i`.
    pub open spec fn with_value(self, i: int, value: u32) -> Genome {
        Genome { nodes: self.nodes.update(i, NodeView { value, ..self.nodes[i] }), ..self }
    }

    /// The genome with another weight on the connection at `j`.
    pub open spec fn with_weight(self, j: int, weight: u32) -> Genome {
        Genome {
            connections: self.connections.update(j, Connection { weight, ..self.connections[j] }),
            ..self
        }
    }

    /// The genome with the connection at `j` enabled or disabled.
    pub open spec fn with_enabled(self, j: int, is_enabled: bool) -> Genome {
        Genome {
            connections: self.connections.update(
                j,
                Connection { is_enabled, ..self.connections[j] },
            ),
            ..self
        }
    }
}

/// Two genomes with the same graph agree on where every connection starts
/// and ends and on the layer and depth of every node.
pub proof fn lemma_same_skeleton_ends(g: Genome, h: Genome)
    requires
        g.same_skeleton(h),
    ensures
        forall|j: int|
            0 <= j < g.connections.len() ==> #[trigger] g.src(j) == h.src(j) && #[trigger] g.dst(j)
                == h.dst(j),
        forall|i: int|
            0 <= i < g.nodes.len() ==> #[trigger] g.layer(i) == h.layer(i) && #[trigger] g.depth(i)
                == h.depth(i),
{
    assert forall|j: int| 0 <= j < g.connections.len() implies g.src(j) == h.src(j) && g.dst(j)
        == h.dst(j) by {
        assert(g.connections[j].input_node == h.connections[j].input_node);
    }
    assert forall|i: int| 0 <= i < g.nodes.len() implies g.layer(i) == h.layer(i) && g.depth(i)
        == h.depth(i) by {
        assert(g.nodes[i].layer == h.nodes[i].layer);
    }
}

/// Two genomes with the same graph share the basic invariants.
pub proof fn lemma_same_skeleton_base(g: Genome, h: Genome)
    requires
        g.same_skeleton(h),
        g.base_ok(),
    ensures
        h.base_ok(),
{
    lemma_same_skeleton_ends(g, h);
    assert(h.indices_ok()) by {
        assert forall|i: int| 0 <= i < h.nodes.len() implies (#[trigger] h.nodes[i]).index
            == NodeIndex(h.id, i as usize) by {
            assert(g.nodes[i].index == h.nodes[i].index);
        }
        assert forall|j: int| 0 <= j < h.connections.len() implies (
        #[trigger] h.connections[j]).index == ConnectionIndex(h.id, j as usize) by {
            assert(g.connections[j].index == h.connections[j].index);
        }
    }
    assert(h.ids_distinct()) by {
        assert forall|i: int, k: int| 0 <= i < k < h.nodes.len() implies (
        #[trigger] h.nodes[i]).id != (#[trigger] h.nodes[k]).id by {
            assert(g.nodes[i].id != g.nodes[k].id);
        }
        assert forall|j: int, k: int| 0 <= j < k < h.connections.len() implies (
        #[trigger] h.connections[j]).id != (#[trigger] h.connections[k]).id by {
            assert(g.connections[j].id != g.connections[k].id);
        }
    }
    assert(h.endpoints_ok()) by {
        assert forall|j: int| 0 <= j < h.connections.len() implies {
            let c = #[trigger] h.connections[j];
            &&& h.node_in_range(c.input_node)
            &&& h.node_in_range(c.output_node)
            &&& !h.is_output_slot(c.input_node.1 as int)
            &&& !h.is_input_slot(c.output_node.1 as int)
        } by {
            let c = g.connections[j];
            assert(g.node_in_range(c.input_node));
        }
    }
    assert(h.incoming_ok()) by {
        assert forall|i: int, k: int|
            0 <= i < h.nodes.len() && 0 <= k < h.nodes[i].input_connections.len() implies {
            let c = #[trigger] h.nodes[i].input_connections[k];
            h.connection_in_range(c) && h.dst(c.1 as int) == i
        } by {
            let c = g.nodes[i].input_connections[k];
            assert(g.connection_in_range(c) && g.dst(c.1 as int) == i);
        }
        assert forall|i: int| 0 <= i < h.nodes.len() implies (
        #[trigger] h.nodes[i]).input_connections.no_duplicates() by {
            assert(g.nodes[i].input_connections.no_duplicates());
        }
        assert forall|j: int| 0 <= j < h.connections.len() implies h.nodes[#[trigger] h.dst(
            j,
        )].input_connections.contains(ConnectionIndex(h.id, j as usize)) by {
            assert(g.dst(j) == h.dst(j));
            assert(g.node_in_range(g.connections[j].output_node));
            assert(g.nodes[g.dst(j)].input_connections.contains(
                ConnectionIndex(g.id, j as usize),
            ));
        }
    }
}

/// Two genomes with the same graph share the invariants of the structure.
pub proof fn lemma_same_skeleton_structure(g: Genome, h: Genome)
    requires
        g.same_skeleton(h),
        g.structure_ok(),
    ensures
        h.structure_ok(),
{
    lemma_same_skeleton_base(g, h);
    assert(h.slots_ok()) by {
        assert forall|i: int| 0 <= i < h.nodes.len() implies {
            &&& (#[trigger] h.nodes[i]).layer == Layer::Input <==> h.is_input_slot(i)
            &&& h.nodes[i].layer == Layer::Output <==> h.is_output_slot(i)
        } by {
            assert(g.nodes[i].layer == h.nodes[i].layer);
        }
    }
}

/// Two genomes with the same graph share their rankings.
pub proof fn lemma_same_skeleton_ranked(g: Genome, h: Genome, rank: Seq<nat>)
    requires
        g.same_skeleton(h),
        g.ranked_by(rank),
    ensures
        h.ranked_by(rank),
{
    lemma_same_skeleton_ends(g, h);
    assert forall|j: int| 0 <= j < h.connections.len() implies rank[#[trigger] h.src(j)] < rank[h.dst(
        j,
    )] by {
        assert(rank[g.src(j)] < rank[g.dst(j)]);
    }
}

/// Two genomes with the same graph share their layering.
pub proof fn lemma_same_skeleton_layering(g: Genome, h: Genome)
    requires
        g.same_skeleton(h),
        g.endpoints_ok(),
        g.layering_ok(),
    ensures
        h.layering_ok(),
{
    assert forall|j: int|
        0 <= j < h.connections.len() && h.layer(#[trigger] h.dst(j)).is_placed() implies {
        &&& h.layer(h.src(j)).is_placed()
        &&& h.layer(h.src(j)).number() < h.layer(h.dst(j)).number()
    } by {
        lemma_same_skeleton_at(g, h, j);
        assert(g.node_in_range(g.connections[j].input_node));
        assert(g.layer(g.dst(j)).is_placed());
    }
    assert forall|i: int| 0 <= i < h.nodes.len() && #[trigger] h.hidden_at(i) implies {
        &&& h.depth_is_exact(i)
        &&& h.leads_on(i)
    } by {
        assert(g.hidden_at(i));
        lemma_same_skeleton_depth(g, h, i);
        let j = choose|j: int|
            0 <= j < g.connections.len() && #[trigger] g.src(j) == i && g.layer(g.dst(j)).is_placed();
        lemma_same_skeleton_at(g, h, j);
        assert(h.src(j) == i);
    }
}

/// Two genomes with the same graph agree on the ends of the connection at
/// `j`, and on the layers at them where the ends are nodes of the genome.
pub proof fn lemma_same_skeleton_at(g: Genome, h: Genome, j: int)
    requires
        g.same_skeleton(h),
        0 <= j < g.connections.len(),
    ensures
        g.src(j) == h.src(j),
        g.dst(j) == h.dst(j),
        0 <= g.src(j) < g.nodes.len() ==> g.layer(g.src(j)) == h.layer(h.src(j)) && g.depth(
            g.src(j),
        ) == h.depth(h.src(j)),
        0 <= g.dst(j) < g.nodes.len() ==> g.layer(g.dst(j)) == h.layer(h.dst(j)) && g.depth(
            g.dst(j),
        ) == h.depth(h.dst(j)),
{
    assert(g.connections[j].input_node == h.connections[j].input_node);
    assert(g.connections[j].output_node == h.connections[j].output_node);
    if 0 <= g.src(j) < g.nodes.len() {
        assert(g.nodes[g.src(j)].layer == h.nodes[g.src(j)].layer);
    }
    if 0 <= g.dst(j) < g.nodes.len() {
        assert(g.nodes[g.dst(j)].layer == h.nodes[g.dst(j)].layer);
    }
}

/// Two genomes with the same graph agree on whether the depth of a node is
/// exact, provided the layering of the first holds.
pub proof fn lemma_same_skeleton_depth(g: Genome, h: Genome, i: int)
    requires
        g.same_skeleton(h),
        g.endpoints_ok(),
        g.layering_ok(),
        0 <= i < g.nodes.len(),
        g.hidden_at(i),
    ensures
        h.depth_is_exact(i),
{
    assert(g.depth_is_exact(i));
    assert(g.nodes[i].layer == h.nodes[i].layer);
    assert forall|j: int| 0 <= j < h.connections.len() && #[trigger] h.dst(j) == i implies h.depth(
        h.src(j),
    ) + 1 <= h.depth(i) by {
        lemma_same_skeleton_at(g, h, j);
        assert(g.node_in_range(g.connections[j].input_node));
        assert(g.dst(j) == i);
        assert(g.layer(g.dst(j)).is_placed());
        assert(g.layer(g.src(j)).is_placed());
        assert(g.depth(g.src(j)) + 1 <= g.depth(i));
        lemma_depth_needs_layer(g, h, g.src(j));
    }
    if h.depth(i) > 0 {
        let j = choose|j: int|
            0 <= j < g.connections.len() && #[trigger] g.dst(j) == i && g.depth(g.src(j)) + 1
                == g.depth(i);
        lemma_same_skeleton_at(g, h, j);
        assert(g.node_in_range(g.connections[j].input_node));
        assert(g.layer(g.dst(j)).is_placed());
        assert(g.layer(g.src(j)).is_placed());
        lemma_depth_needs_layer(g, h, g.src(j));
        assert(h.dst(j) == i && h.depth(h.src(j)) + 1 == h.depth(i));
    }
}

/// The depth of a node is read off its layer.
pub proof fn lemma_depth_needs_layer(g: Genome, h: Genome, i: int)
    requires
        g.nodes[i].layer == h.nodes[i].layer,
    ensures
        g.depth(i) == h.depth(i),
{
}

/// Two genomes with the same graph hold the same identifiers.
pub proof fn lemma_same_skeleton_ids(g: Genome, h: Genome, ids: IdAllocator)
    requires
        g.same_skeleton(h),
        g.ids_below(ids),
    ensures
        h.ids_below(ids),
{
    assert forall|i: int| 0 <= i < h.nodes.len() implies (#[trigger] h.nodes[i]).id.0
        < ids.next_node by {
        assert(g.nodes[i].id == h.nodes[i].id);
    }
    assert forall|j: int| 0 <= j < h.connections.len() implies (#[trigger] h.connections[j]).id.0
        < ids.next_connection by {
        assert(g.connections[j].id == h.connections[j].id);
    }
}

} // verus!

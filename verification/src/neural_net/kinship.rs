//! Genes that mean the same in several genomes.
//!
//! Crossing two genomes takes for granted that a gene both carry is the
//! same gene: a node of the same kind, a connection between nodes of the
//! same identifiers. This module shows that the operations of the library
//! keep it so: a genome made, mutated or crossed stays compatible with
//! every genome it was compatible with.

use crate::neural_net::connections::{Connection, ConnectionId};
use crate::neural_net::crossing::lemma_child_slots;
use crate::neural_net::crossover::CrossoverPlan;
use crate::neural_net::ids::IdAllocator;
use crate::neural_net::layers::Layer;
use crate::neural_net::mutation::{ids_after_new_connection, MutationPlan};
use crate::neural_net::nets::{Genome, NodeIndex};
use crate::neural_net::nodes::{NodeId, NodeView};
use vstd::prelude::*;

verus! {

impl Genome {
    /// Whether the two genomes have the same graph but for the layers of
    /// their nodes and what their genes carry: the same identifiers in the
    /// same places, and connections between the same places.
    pub open spec fn same_wiring(self, other: Genome) -> bool {
        &&& self.input_count == other.input_count
        &&& self.output_count == other.output_count
        &&& self.nodes.len() == other.nodes.len()
        &&& self.connections.len() == other.connections.len()
        &&& forall|i: int|
            0 <= i < self.nodes.len() ==> (#[trigger] self.nodes[i]).id == other.nodes[i].id
        &&& forall|j: int|
            0 <= j < self.connections.len() ==> {
                &&& (#[trigger] self.connections[j]).id == other.connections[j].id
                &&& self.connections[j].input_node.1 == other.connections[j].input_node.1
                &&& self.connections[j].output_node.1 == other.connections[j].output_node.1
            }
    }

    /// Whether both ends of every connection are places of the genome.
    pub open spec fn ends_in_range(self) -> bool {
        forall|j: int|
            0 <= j < self.connections.len() ==> 0 <= #[trigger] self.src(j) < self.nodes.len() && 0
                <= self.dst(j) < self.nodes.len()
    }
}

/// Where the ends are as they should be, they are places of the genome.
pub proof fn lemma_ends_in_range(g: Genome)
    requires
        g.endpoints_ok(),
    ensures
        g.ends_in_range(),
{
    assert forall|j: int| 0 <= j < g.connections.len() implies 0 <= #[trigger] g.src(j)
        < g.nodes.len() && 0 <= g.dst(j) < g.nodes.len() by {
        assert(g.node_in_range(g.connections[j].input_node));
    }
}

/// A genome is compatible with itself.
pub proof fn lemma_compatible_self(g: Genome)
    requires
        g.ids_distinct(),
    ensures
        g.compatible(g),
{
    assert forall|i: int, k: int|
        0 <= i < g.nodes.len() && 0 <= k < g.nodes.len() && (#[trigger] g.nodes[i]).id == (
        #[trigger] g.nodes[k]).id implies i == k by {
        if i < k {
            assert(g.nodes[i].id != g.nodes[k].id);
        } else if k < i {
            assert(g.nodes[k].id != g.nodes[i].id);
        }
    }
    assert forall|j: int, l: int|
        0 <= j < g.connections.len() && 0 <= l < g.connections.len() && (
        #[trigger] g.connections[j]).id == (#[trigger] g.connections[l]).id implies j == l by {
        if j < l {
            assert(g.connections[j].id != g.connections[l].id);
        } else if l < j {
            assert(g.connections[l].id != g.connections[j].id);
        }
    }
}

/// Two genomes with the same wiring are compatible with the same genomes.
pub proof fn lemma_compatible_wiring(g: Genome, h: Genome, x: Genome)
    requires
        g.same_wiring(h),
        g.ends_in_range(),
        g.compatible(x),
    ensures
        h.compatible(x),
{
    assert forall|i: int, k: int|
        0 <= i < h.nodes.len() && 0 <= k < x.nodes.len() && (#[trigger] h.nodes[i]).id == (
        #[trigger] x.nodes[k]).id implies {
        &&& h.is_input_slot(i) == x.is_input_slot(k)
        &&& h.is_output_slot(i) == x.is_output_slot(k)
    } by {
        assert(g.nodes[i].id == x.nodes[k].id);
    }
    assert forall|j: int, l: int|
        0 <= j < h.connections.len() && 0 <= l < x.connections.len() && (
        #[trigger] h.connections[j]).id == (#[trigger] x.connections[l]).id implies {
        &&& h.nodes[h.src(j)].id == x.nodes[x.src(l)].id
        &&& h.nodes[h.dst(j)].id == x.nodes[x.dst(l)].id
    } by {
        assert(g.connections[j].id == x.connections[l].id);
        assert(0 <= g.src(j) < g.nodes.len());
        assert(g.nodes[g.src(j)].id == h.nodes[h.src(j)].id);
        assert(g.nodes[g.dst(j)].id == h.nodes[h.dst(j)].id);
    }
}

/// A node whose identifier the other genome does not hold keeps the two
/// compatible.
pub proof fn lemma_compatible_with_node(g: Genome, node: NodeView, x: Genome)
    requires
        g.compatible(x),
        g.ends_in_range(),
        !x.has_node_id(node.id),
    ensures
        g.with_node(node).compatible(x),
        g.with_node(node).ends_in_range(),
{
    let h = g.with_node(node);
    assert forall|j: int| 0 <= j < h.connections.len() implies 0 <= #[trigger] h.src(j)
        < h.nodes.len() && 0 <= h.dst(j) < h.nodes.len() by {
        assert(0 <= g.src(j) < g.nodes.len());
    }
    assert forall|i: int, k: int|
        0 <= i < h.nodes.len() && 0 <= k < x.nodes.len() && (#[trigger] h.nodes[i]).id == (
        #[trigger] x.nodes[k]).id implies {
        &&& h.is_input_slot(i) == x.is_input_slot(k)
        &&& h.is_output_slot(i) == x.is_output_slot(k)
    } by {
        if i < g.nodes.len() {
            assert(g.nodes[i].id == x.nodes[k].id);
        }
    }
    assert forall|j: int, l: int|
        0 <= j < h.connections.len() && 0 <= l < x.connections.len() && (
        #[trigger] h.connections[j]).id == (#[trigger] x.connections[l]).id implies {
        &&& h.nodes[h.src(j)].id == x.nodes[x.src(l)].id
        &&& h.nodes[h.dst(j)].id == x.nodes[x.dst(l)].id
    } by {
        assert(g.connections[j].id == x.connections[l].id);
        assert(0 <= g.src(j) < g.nodes.len());
    }
}

/// A connection whose identifier the other genome does not hold keeps the
/// two compatible.
pub proof fn lemma_compatible_with_connection(g: Genome, c: Connection, x: Genome)
    requires
        g.compatible(x),
        g.ends_in_range(),
        g.node_in_range(c.input_node),
        g.node_in_range(c.output_node),
        !x.has_connection_id(c.id),
    ensures
        g.with_connection(c).compatible(x),
        g.with_connection(c).ends_in_range(),
{
    let h = g.with_connection(c);
    assert forall|j: int| 0 <= j < h.connections.len() implies 0 <= #[trigger] h.src(j)
        < h.nodes.len() && 0 <= h.dst(j) < h.nodes.len() by {
        if j < g.connections.len() {
            assert(0 <= g.src(j) < g.nodes.len());
        }
    }
    assert forall|i: int, k: int|
        0 <= i < h.nodes.len() && 0 <= k < x.nodes.len() && (#[trigger] h.nodes[i]).id == (
        #[trigger] x.nodes[k]).id implies {
        &&& h.is_input_slot(i) == x.is_input_slot(k)
        &&& h.is_output_slot(i) == x.is_output_slot(k)
    } by {
        assert(g.nodes[i].id == x.nodes[k].id);
    }
    assert forall|j: int, l: int|
        0 <= j < h.connections.len() && 0 <= l < x.connections.len() && (
        #[trigger] h.connections[j]).id == (#[trigger] x.connections[l]).id implies {
        &&& h.nodes[h.src(j)].id == x.nodes[x.src(l)].id
        &&& h.nodes[h.dst(j)].id == x.nodes[x.dst(l)].id
    } by {
        if j < g.connections.len() {
            assert(g.connections[j].id == x.connections[l].id);
            assert(0 <= g.src(j) < g.nodes.len());
            assert(h.nodes[h.src(j)].id == g.nodes[g.src(j)].id);
            assert(h.nodes[h.dst(j)].id == g.nodes[g.dst(j)].id);
        }
    }
}

/// A genome that holds no identifier below those still to be handed out
/// shares no gene with a genome that holds only such, and so is compatible
/// with it.
pub proof fn lemma_compatible_fresh(g: Genome, x: Genome, ids: IdAllocator)
    requires
        x.ids_below(ids),
        forall|i: int| 0 <= i < g.nodes.len() ==> (#[trigger] g.nodes[i]).id.0 >= ids.next_node,
        g.connections.len() == 0,
    ensures
        g.compatible(x),
{
    assert forall|i: int, k: int|
        0 <= i < g.nodes.len() && 0 <= k < x.nodes.len() implies (#[trigger] g.nodes[i]).id != (
        #[trigger] x.nodes[k]).id by {
        assert(x.nodes[k].id.0 < ids.next_node);
    }
}

/// A genome that only holds identifiers handed out so far holds neither of
/// the next ones.
pub proof fn lemma_next_ids_unused(x: Genome, ids: IdAllocator, node: usize, connection: usize)
    requires
        x.ids_below(ids),
        node >= ids.next_node,
        connection >= ids.next_connection,
    ensures
        !x.has_node_id(NodeId(node)),
        !x.has_connection_id(ConnectionId(connection)),
{
    if x.has_node_id(NodeId(node)) {
        let i = choose|i: int| 0 <= i < x.nodes.len() && (#[trigger] x.nodes[i]).id == NodeId(node);
        assert(x.nodes[i].id.0 < ids.next_node);
    }
    if x.has_connection_id(ConnectionId(connection)) {
        let j = choose|j: int|
            0 <= j < x.connections.len() && (#[trigger] x.connections[j]).id
                == ConnectionId(connection);
        assert(x.connections[j].id.0 < ids.next_connection);
    }
}

/// Changing activation functions, weights and enabled flags keeps a genome
/// compatible with what it was compatible with.
pub proof fn lemma_compatible_edited(g: Genome, plan: MutationPlan, x: Genome)
    requires
        g.ends_in_range(),
        g.plan_ok(plan),
        g.compatible(x),
    ensures
        g.after_activation(plan).after_weight(plan).after_toggle(plan).compatible(x),
        g.after_activation(plan).after_weight(plan).after_toggle(plan).ends_in_range(),
        g.same_wiring(g.after_activation(plan).after_weight(plan).after_toggle(plan)),
        g.after_activation(plan).after_weight(plan).after_toggle(plan).id == g.id,
{
    let a = g.after_activation(plan);
    let b = a.after_weight(plan);
    let edited = b.after_toggle(plan);
    assert(g.same_wiring(edited)) by {
        assert forall|i: int| 0 <= i < g.nodes.len() implies (#[trigger] g.nodes[i]).id
            == edited.nodes[i].id by {
            assert(a.nodes[i].id == g.nodes[i].id);
        }
        assert forall|j: int| 0 <= j < g.connections.len() implies {
            &&& (#[trigger] g.connections[j]).id == edited.connections[j].id
            &&& g.connections[j].input_node.1 == edited.connections[j].input_node.1
            &&& g.connections[j].output_node.1 == edited.connections[j].output_node.1
        } by {
            assert(b.connections[j].id == g.connections[j].id);
            assert(b.connections[j].input_node == g.connections[j].input_node);
            assert(b.connections[j].output_node == g.connections[j].output_node);
        }
    }
    lemma_compatible_wiring(g, edited, x);
    assert forall|j: int| 0 <= j < edited.connections.len() implies 0 <= #[trigger] edited.src(j)
        < edited.nodes.len() && 0 <= edited.dst(j) < edited.nodes.len() by {
        assert(0 <= g.src(j) < g.nodes.len());
        assert(g.connections[j].input_node.1 == edited.connections[j].input_node.1);
    }
}

/// Splitting a connection keeps a genome compatible with every genome that
/// holds only identifiers handed out before.
pub proof fn lemma_compatible_split(g: Genome, j: int, ids: IdAllocator, x: Genome)
    requires
        g.ends_in_range(),
        0 <= j < g.connections.len(),
        g.connections[j].input_node.0 == g.id,
        g.connections[j].output_node.0 == g.id,
        g.nodes.len() < usize::MAX,
        g.compatible(x),
        !x.has_node_id(NodeId(ids.next_node)),
        !x.has_connection_id(ConnectionId(ids.next_connection)),
        !x.has_connection_id(
            ConnectionId((ids.next_connection + 1) as usize),
        ),
    ensures
        g.split_at(j, ids).compatible(x),
        g.split_at(j, ids).ends_in_range(),
{
    let old = g.connections[j];
    assert(0 <= g.src(j) < g.nodes.len());
    let f = g.nodes[old.output_node.1 as int].activation_function;
    let disabled = g.with_enabled(j, false);
    assert(g.same_wiring(disabled));
    lemma_compatible_wiring(g, disabled, x);
    assert(disabled.ends_in_range()) by {
        assert forall|k: int| 0 <= k < disabled.connections.len() implies 0
            <= #[trigger] disabled.src(k) < disabled.nodes.len() && 0 <= disabled.dst(k)
            < disabled.nodes.len() by {
            assert(0 <= g.src(k) < g.nodes.len());
        }
    }
    let node = disabled.next_node(
        NodeId(ids.next_node),
        f,
        Layer::Hidden(1),
        0,
    );
    lemma_compatible_with_node(disabled, node, x);
    let noded = disabled.with_node(node);
    let middle = NodeIndex(g.id, g.nodes.len() as usize);
    let first = noded.next_connection(
        ConnectionId(ids.next_connection),
        old.weight,
        true,
        old.input_node,
        middle,
    );
    lemma_compatible_with_connection(noded, first, x);
    let firsted = noded.with_connection(first);
    let second = firsted.next_connection(
        ConnectionId((ids.next_connection + 1) as usize),
        f.neutral_bits(),
        true,
        middle,
        old.output_node,
    );
    lemma_compatible_with_connection(firsted, second, x);
}

/// A mutated genome is compatible with every genome that the genome was
/// compatible with and that holds only identifiers handed out before the
/// mutation.
pub proof fn lemma_compatible_mutated(g: Genome, plan: MutationPlan, ids: IdAllocator, x: Genome)
    requires
        g.structure_ok(),
        g.plan_ok(plan),
        g.compatible(x),
        x.ids_below(ids),
        ids.has_room(1, 3),
    ensures
        g.mutated(plan, ids).compatible(x),
        g.mutated(plan, ids).ends_in_range(),
{
    lemma_ends_in_range(g);
    lemma_compatible_edited(g, plan, x);
    let edited = g.after_activation(plan).after_weight(plan).after_toggle(plan);
    let joined = edited.after_new_connection(plan, ids);
    match plan.new_connection {
        Some((from, to, w)) => {
            let ends = edited.oriented(from, to);
            lemma_next_ids_unused(x, ids, ids.next_node, ids.next_connection);
            lemma_compatible_with_connection(
                edited,
                edited.next_connection(
                    ConnectionId(ids.next_connection),
                    w,
                    true,
                    ends.0,
                    ends.1,
                ),
                x,
            );
        },
        None => {},
    }
    let mid = ids_after_new_connection(plan, ids);
    match plan.split {
        Some(c) => {
            let j = c.1 as int;
            assert(joined.connections[j] == edited.connections[j]);
            assert(g.node_in_range(g.connections[j].input_node));
            assert(g.node_in_range(g.connections[j].output_node));
            assert(edited.connections[j].input_node.1 == g.connections[j].input_node.1);
            lemma_split_ends(g, plan, j);
            lemma_next_ids_unused(x, ids, mid.next_node, mid.next_connection);
            lemma_next_ids_unused(x, ids, mid.next_node, (mid.next_connection + 1) as usize);
            lemma_compatible_split(joined, j, mid, x);
        },
        None => {},
    }
}

/// The first three parts of a plan leave the ends of every connection as
/// they are.
pub proof fn lemma_split_ends(g: Genome, plan: MutationPlan, j: int)
    requires
        0 <= j < g.connections.len(),
        g.plan_ok(plan),
    ensures
        g.after_activation(plan).after_weight(plan).after_toggle(plan).connections[j].input_node
            == g.connections[j].input_node,
        g.after_activation(plan).after_weight(plan).after_toggle(plan).connections[j].output_node
            == g.connections[j].output_node,
{
    let a = g.after_activation(plan);
    let b = a.after_weight(plan);
    assert(a.connections[j] == g.connections[j]);
    assert(b.connections[j].input_node == g.connections[j].input_node);
    assert(b.connections[j].output_node == g.connections[j].output_node);
}

/// A genome with other layers is compatible with the same genomes.
pub proof fn lemma_compatible_relayered(g: Genome, h: Genome, x: Genome)
    requires
        h.same_but_layers(g),
        g.ends_in_range(),
        g.compatible(x),
    ensures
        h.compatible(x),
        h.ends_in_range(),
{
    assert(g.same_wiring(h)) by {
        assert forall|i: int| 0 <= i < g.nodes.len() implies (#[trigger] g.nodes[i]).id
            == h.nodes[i].id by {
            assert(h.nodes[i].id == g.nodes[i].id);
        }
    }
    lemma_compatible_wiring(g, h, x);
    assert forall|j: int| 0 <= j < h.connections.len() implies 0 <= #[trigger] h.src(j)
        < h.nodes.len() && 0 <= h.dst(j) < h.nodes.len() by {
        assert(0 <= g.src(j) < g.nodes.len());
    }
}

/// The child of a crossover is compatible with every genome the winner is
/// compatible with.
pub proof fn lemma_compatible_crossed(w: Genome, plan: CrossoverPlan, child: Genome, x: Genome)
    requires
        w.structure_ok(),
        w.cross_plan_ok(plan),
        w.child_nodes_match(plan, child, w.nodes.len() as int),
        w.child_connections_match(plan, child),
        w.compatible(x),
    ensures
        child.compatible(x),
{
    lemma_child_slots(w, plan, child);
    assert forall|i: int, k: int|
        0 <= i < child.nodes.len() && 0 <= k < x.nodes.len() && (#[trigger] child.nodes[i]).id == (
        #[trigger] x.nodes[k]).id implies {
        &&& child.is_input_slot(i) == x.is_input_slot(k)
        &&& child.is_output_slot(i) == x.is_output_slot(k)
    } by {
        let o = w.origin_of(plan, i);
        assert(w.nodes[o].id == x.nodes[k].id);
        assert(child.is_input_slot(i) == w.is_input_slot(w.origin_of(plan, i)));
    }
    assert forall|j: int, l: int|
        0 <= j < child.connections.len() && 0 <= l < x.connections.len() && (
        #[trigger] child.connections[j]).id == (#[trigger] x.connections[l]).id implies {
        &&& child.nodes[child.src(j)].id == x.nodes[x.src(l)].id
        &&& child.nodes[child.dst(j)].id == x.nodes[x.dst(l)].id
    } by {
        assert(w.has_kin(child, j, w.connections.len() as int));
        let t = choose|t: int| 0 <= t < w.connections.len() && w.is_kin(child, j, t);
        assert(w.connections[t].id == x.connections[l].id);
    }
}

} // verus!

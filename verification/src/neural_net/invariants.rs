//! Checking the invariants of a genome at run time.

use crate::neural_net::layers::Layer;
use crate::neural_net::nets::{ConnectionIndex, Genome, Net, NodeIndex, MAX_NODES};
use crate::neural_net::populations::FitnessInfo;
use crate::tables::{has_size, id_set_items, id_table_entries, lookup, IdSet};
use vstd::prelude::*;

verus! {

/// Whether a table holds exactly the keys of the list, each with its
/// position.
pub open spec fn table_holds(entries: Map<usize, usize>, keys: Seq<usize>) -> bool {
    &&& forall|i: int| 0 <= i < keys.len() ==> lookup(entries, #[trigger] keys[i]) == Some(i as usize)
    &&& forall|k: usize| #[trigger]
        entries.contains_key(k) ==> entries[k] < keys.len() && keys[entries[k] as int] == k
}

/// A table that finds every key of a list at its position holds no key of
/// the list twice, so the list has as many keys as a set.
pub proof fn lemma_found_keys_distinct(entries: Map<usize, usize>, keys: Seq<usize>)
    requires
        keys.len() <= usize::MAX,
        forall|i: int| 0 <= i < keys.len() ==> lookup(entries, #[trigger] keys[i]) == Some(i as usize),
    ensures
        keys.no_duplicates(),
        keys.to_set().subset_of(entries.dom()),
        keys.to_set().finite(),
        keys.to_set().len() == keys.len(),
{
    assert forall|a: int, b: int| 0 <= a < keys.len() && 0 <= b < keys.len() && a != b implies keys[a]
        != keys[b] by {
        assert(lookup(entries, keys[a]) == Some(a as usize));
        assert(lookup(entries, keys[b]) == Some(b as usize));
    }
    keys.unique_seq_to_set();
    vstd::seq_lib::seq_to_set_is_finite(keys);
    assert forall|k: usize| keys.to_set().contains(k) implies entries.dom().contains(k) by {
        let i = choose|i: int| 0 <= i < keys.len() && keys[i] == k;
        assert(lookup(entries, keys[i]) == Some(i as usize));
    }
}

/// A table that holds a list has as many keys as the list.
pub proof fn lemma_table_size(entries: Map<usize, usize>, keys: Seq<usize>, n: usize)
    requires
        keys.len() <= usize::MAX,
        table_holds(entries, keys),
        has_size(entries.dom(), n),
    ensures
        n == keys.len(),
{
    lemma_found_keys_distinct(entries, keys);
    assert(entries.dom() =~= keys.to_set()) by {
        assert forall|k: usize| entries.dom().contains(k) implies keys.to_set().contains(k) by {
            assert(entries.contains_key(k));
            assert(keys[entries[k] as int] == k);
        }
    }
}

/// A table with as many keys as a list that finds every key of the list at
/// its position holds the list.
pub proof fn lemma_table_full(entries: Map<usize, usize>, keys: Seq<usize>)
    requires
        keys.len() <= usize::MAX,
        forall|i: int| 0 <= i < keys.len() ==> lookup(entries, #[trigger] keys[i]) == Some(i as usize),
        has_size(entries.dom(), keys.len() as usize),
    ensures
        table_holds(entries, keys),
{
    lemma_found_keys_distinct(entries, keys);
    vstd::set_lib::lemma_subset_equality(keys.to_set(), entries.dom());
    assert forall|k: usize| #[trigger] entries.contains_key(k) implies entries[k] < keys.len()
        && keys[entries[k] as int] == k by {
        assert(keys.to_set().contains(k));
        let i = choose|i: int| 0 <= i < keys.len() && keys[i] == k;
        assert(lookup(entries, keys[i]) == Some(i as usize));
    }
}

impl Genome {
    /// The identifiers of the nodes as numbers, in their order.
    pub open spec fn node_keys(self) -> Seq<usize> {
        Seq::new(self.nodes.len(), |i: int| self.nodes[i].id.0)
    }

    /// The identifiers of the connections as numbers, in their order.
    pub open spec fn connection_keys(self) -> Seq<usize> {
        Seq::new(self.connections.len(), |j: int| self.connections[j].id.0)
    }

    /// No connection leads from a layer to an earlier one or stays in its
    /// layer, as far as the layers of its ends are known: a connection with
    /// an unreachable end is in order unless it leads into an input or out
    /// of an output.
    pub open spec fn layers_respected(self) -> bool {
        forall|j: int|
            0 <= j < self.connections.len() ==> self.layer(#[trigger] self.src(j)).precedes(
                self.layer(self.dst(j)),
            ) != Some(false)
    }
}

/// Where the layering holds, the layers are respected.
pub proof fn lemma_layering_respected(g: Genome)
    requires
        g.endpoints_ok(),
        g.slots_ok(),
        g.layering_ok(),
    ensures
        g.layers_respected(),
{
    assert forall|j: int| 0 <= j < g.connections.len() implies g.layer(#[trigger] g.src(j)).precedes(
        g.layer(g.dst(j)),
    ) != Some(false) by {
        let c = g.connections[j];
        assert(g.node_in_range(c.input_node));
        assert(g.nodes[g.src(j)].layer != Layer::Output);
        assert(g.nodes[g.dst(j)].layer != Layer::Input);
        if g.layer(g.dst(j)).is_placed() {
            assert(g.layer(g.src(j)).number() < g.layer(g.dst(j)).number());
        }
    }
}

impl<F: FitnessInfo> Net<F> {
    /// Whether every gene records its own position.
    fn check_indices(&self) -> (ok: bool)
        ensures
            ok == self.genome().indices_ok(),
    {
        let ghost g = self.genome();
        let mut i: usize = 0;
        while i < self.nodes.len()
            invariant
                i <= self.nodes.len(),
                g == self.genome(),
                forall|k: int| 0 <= k < i ==> (#[trigger] g.nodes[k]).index == NodeIndex(g.id, k as usize),
            decreases self.nodes.len() - i,
        {
            assert(g.nodes[i as int] == self.nodes[i as int]@);
            let index = self.nodes[i].index;
            if !(index.0 == self.id && index.1 == i) {
                return false;
            }
            i += 1;
        }
        let mut j: usize = 0;
        while j < self.connections.len()
            invariant
                j <= self.connections.len(),
                g == self.genome(),
                forall|k: int|
                    0 <= k < self.nodes.len() ==> (#[trigger] g.nodes[k]).index == NodeIndex(
                        g.id,
                        k as usize,
                    ),
                forall|k: int|
                    0 <= k < j ==> (#[trigger] g.connections[k]).index == ConnectionIndex(
                        g.id,
                        k as usize,
                    ),
            decreases self.connections.len() - j,
        {
            let index = self.connections[j].index;
            if !(index.0 == self.id && index.1 == j) {
                assert(g.connections[j as int].index != ConnectionIndex(g.id, j as usize));
                return false;
            }
            j += 1;
        }
        true
    }

    /// Whether the inputs come first, the outputs next, and no other node
    /// is either, with no more nodes than a genome can hold.
    pub(crate) fn check_slots(&self) -> (ok: bool)
        ensures
            ok == self.genome().slots_ok(),
    {
        let ghost g = self.genome();
        let n = self.nodes.len();
        let inputs = self.net_params.input_count;
        let outputs = self.net_params.output_count;
        if n > MAX_NODES || inputs > n || outputs > n - inputs {
            return false;
        }
        let mut i: usize = 0;
        while i < n
            invariant
                i <= n,
                n == self.nodes.len(),
                inputs == self.net_params.input_count,
                outputs == self.net_params.output_count,
                inputs + outputs <= n <= MAX_NODES,
                g == self.genome(),
                forall|k: int|
                    0 <= k < i ==> {
                        &&& (#[trigger] g.nodes[k]).layer == Layer::Input <==> g.is_input_slot(k)
                        &&& g.nodes[k].layer == Layer::Output <==> g.is_output_slot(k)
                    },
            decreases n - i,
        {
            assert(g.nodes[i as int] == self.nodes[i as int]@);
            let layer = self.nodes[i].layer;
            let is_input = i < inputs;
            let is_output = inputs <= i && i < inputs + outputs;
            if (layer == Layer::Input) != is_input || (layer == Layer::Output) != is_output {
                return false;
            }
            i += 1;
        }
        true
    }

    /// Whether every connection joins two nodes of this genome, starts from
    /// no output and ends in no input.
    fn check_endpoints(&self) -> (ok: bool)
        ensures
            ok == self.genome().endpoints_ok(),
    {
        let ghost g = self.genome();
        let n = self.nodes.len();
        let inputs = self.net_params.input_count;
        let outputs = self.net_params.output_count;
        let mut j: usize = 0;
        while j < self.connections.len()
            invariant
                j <= self.connections.len(),
                n == self.nodes.len(),
                inputs == self.net_params.input_count,
                outputs == self.net_params.output_count,
                g == self.genome(),
                forall|k: int|
                    0 <= k < j ==> {
                        let c = #[trigger] g.connections[k];
                        &&& g.node_in_range(c.input_node)
                        &&& g.node_in_range(c.output_node)
                        &&& !g.is_output_slot(c.input_node.1 as int)
                        &&& !g.is_input_slot(c.output_node.1 as int)
                    },
            decreases self.connections.len() - j,
        {
            let c = self.connections[j];
            assert(g.connections[j as int] == c);
            let from_ok = c.input_node.0 == self.id && c.input_node.1 < n;
            let to_ok = c.output_node.0 == self.id && c.output_node.1 < n;
            let from_output = inputs <= c.input_node.1 && c.input_node.1 - inputs < outputs;
            let into_input = c.output_node.1 < inputs;
            if !from_ok || !to_ok || from_output || into_input {
                return false;
            }
            j += 1;
        }
        true
    }

    /// Whether the table of node identifiers holds the nodes.
    fn check_node_table(&self) -> (ok: bool)
        ensures
            ok == self.node_table_ok(),
    {
        let ghost g = self.genome();
        let ghost entries = id_table_entries(self.map_node_id_to_index);
        let ghost keys = g.node_keys();
        proof {
            assert(self.node_table_ok() == table_holds(entries, keys)) by {
                assert forall|i: int| 0 <= i < keys.len() implies #[trigger] keys[i]
                    == self.nodes[i].id.0 by {
                    assert(g.nodes[i] == self.nodes[i]@);
                }
                if self.node_table_ok() {
                    assert forall|i: int| 0 <= i < keys.len() implies lookup(
                        entries,
                        #[trigger] keys[i],
                    ) == Some(i as usize) by {
                        assert(lookup(entries, self.nodes[i].id.0) == Some(i as usize));
                    }
                }
                if table_holds(entries, keys) {
                    assert forall|i: int| 0 <= i < self.nodes.len() implies lookup(
                        entries,
                        (#[trigger] self.nodes[i]).id.0,
                    ) == Some(i as usize) by {
                        assert(lookup(entries, keys[i]) == Some(i as usize));
                    }
                }
            }
        }
        let size = self.map_node_id_to_index.len();
        if size != self.nodes.len() {
            proof {
                if table_holds(entries, keys) {
                    lemma_table_size(entries, keys, size);
                }
            }
            return false;
        }
        let mut i: usize = 0;
        while i < self.nodes.len()
            invariant
                i <= self.nodes.len(),
                g == self.genome(),
                keys == g.node_keys(),
                entries == id_table_entries(self.map_node_id_to_index),
                forall|k: int| 0 <= k < i ==> lookup(entries, #[trigger] keys[k]) == Some(k as usize),
            decreases self.nodes.len() - i,
        {
            assert(g.nodes[i as int] == self.nodes[i as int]@);
            assert(keys[i as int] == self.nodes[i as int].id.0);
            match self.map_node_id_to_index.get(self.nodes[i].id.0) {
                Some(at) => {
                    if at != i {
                        return false;
                    }
                },
                None => {
                    return false;
                },
            }
            i += 1;
        }
        proof {
            lemma_table_full(entries, keys);
        }
        true
    }

    /// Whether the table of connection identifiers holds the connections.
    fn check_connection_table(&self) -> (ok: bool)
        ensures
            ok == self.connection_table_ok(),
    {
        let ghost g = self.genome();
        let ghost entries = id_table_entries(self.map_connection_id_to_index);
        let ghost keys = g.connection_keys();
        proof {
            assert(self.connection_table_ok() == table_holds(entries, keys)) by {
                if self.connection_table_ok() {
                    assert forall|j: int| 0 <= j < keys.len() implies lookup(
                        entries,
                        #[trigger] keys[j],
                    ) == Some(j as usize) by {
                        assert(lookup(entries, self.connections[j].id.0) == Some(j as usize));
                    }
                }
                if table_holds(entries, keys) {
                    assert forall|j: int| 0 <= j < self.connections.len() implies lookup(
                        entries,
                        (#[trigger] self.connections[j]).id.0,
                    ) == Some(j as usize) by {
                        assert(lookup(entries, keys[j]) == Some(j as usize));
                    }
                }
            }
        }
        let size = self.map_connection_id_to_index.len();
        if size != self.connections.len() {
            proof {
                if table_holds(entries, keys) {
                    lemma_table_size(entries, keys, size);
                }
            }
            return false;
        }
        let mut j: usize = 0;
        while j < self.connections.len()
            invariant
                j <= self.connections.len(),
                g == self.genome(),
                keys == g.connection_keys(),
                entries == id_table_entries(self.map_connection_id_to_index),
                forall|k: int| 0 <= k < j ==> lookup(entries, #[trigger] keys[k]) == Some(k as usize),
            decreases self.connections.len() - j,
        {
            assert(keys[j as int] == self.connections[j as int].id.0);
            match self.map_connection_id_to_index.get(self.connections[j].id.0) {
                Some(at) => {
                    if at != j {
                        return false;
                    }
                },
                None => {
                    return false;
                },
            }
            j += 1;
        }
        proof {
            lemma_table_full(entries, keys);
        }
        true
    }

    /// Whether no connection leads from a layer to an earlier one or stays
    /// in its layer, as far as the layers of its ends are known.
    fn check_layers(&self) -> (ok: bool)
        requires
            self.genome().endpoints_ok(),
        ensures
            ok == self.genome().layers_respected(),
    {
        let ghost g = self.genome();
        let mut j: usize = 0;
        while j < self.connections.len()
            invariant
                j <= self.connections.len(),
                g == self.genome(),
                g.endpoints_ok(),
                forall|k: int|
                    0 <= k < j ==> g.layer(#[trigger] g.src(k)).precedes(g.layer(g.dst(k))) != Some(
                        false,
                    ),
            decreases self.connections.len() - j,
        {
            let c = self.connections[j];
            proof {
                assert(g.connections[j as int] == c);
                assert(g.node_in_range(c.input_node));
                assert(g.nodes[c.input_node.1 as int] == self.nodes[c.input_node.1 as int]@);
                assert(g.nodes[c.output_node.1 as int] == self.nodes[c.output_node.1 as int]@);
            }
            let from = self.nodes[c.input_node.1].layer;
            let to = self.nodes[c.output_node.1].layer;
            match from.comes_before(to) {
                Some(before) => {
                    if !before {
                        assert(g.layer(g.src(j as int)).precedes(g.layer(g.dst(j as int))) == Some(
                            false,
                        ));
                        return false;
                    }
                },
                None => {},
            }
            j += 1;
        }
        true
    }
}

impl Genome {
    /// Every entry of the list of the node at `i` names a connection of the
    /// genome that ends in that node.
    pub open spec fn incoming_point_here(self, i: int) -> bool {
        forall|k: int|
            0 <= k < self.nodes[i].input_connections.len() ==> {
                let c = #[trigger] self.nodes[i].input_connections[k];
                self.connection_in_range(c) && self.dst(c.1 as int) == i
            }
    }
}

impl<F: FitnessInfo> Net<F> {
    /// Whether the list of the node at `i` names only connections that end
    /// in it, and none twice.
    fn check_incoming_of(&self, i: usize) -> (ok: bool)
        requires
            i < self.nodes.len(),
        ensures
            ok == (self.genome().incoming_point_here(i as int) && self.genome().nodes[i as int].input_connections.no_duplicates()),
    {
        let ghost g = self.genome();
        let ghost list = g.nodes[i as int].input_connections;
        assert(g.nodes[i as int] == self.nodes[i as int]@);
        let count = self.nodes[i].input_connections.len();
        let mut seen = IdSet::with_capacity(count);
        let mut k: usize = 0;
        while k < count
            invariant
                k <= count,
                i < self.nodes.len(),
                count == self.nodes[i as int].input_connections.len(),
                g == self.genome(),
                list == g.nodes[i as int].input_connections,
                list == self.nodes[i as int].input_connections@,
                forall|x: int|
                    0 <= x < k ==> {
                        let c = #[trigger] list[x];
                        g.connection_in_range(c) && g.dst(c.1 as int) == i
                    },
                forall|x: int, y: int| 0 <= x < y < k ==> list[x] != list[y],
                forall|x: int| 0 <= x < k ==> id_set_items(seen).contains((#[trigger] list[x]).1),
                forall|v: usize|
                    id_set_items(seen).contains(v) ==> exists|x: int|
                        0 <= x < k && (#[trigger] list[x]).1 == v,
            decreases count - k,
        {
            let c = self.nodes[i].input_connections[k];
            assert(c == list[k as int]);
            if !(c.0 == self.id && c.1 < self.connections.len()) {
                return false;
            }
            assert(g.connections[c.1 as int] == self.connections[c.1 as int]);
            if self.connections[c.1].output_node.1 != i {
                return false;
            }
            let ghost before = id_set_items(seen);
            let fresh = seen.insert(c.1);
            if !fresh {
                proof {
                    let x = choose|x: int| 0 <= x < k && (#[trigger] list[x]).1 == c.1;
                    assert(g.connection_in_range(list[x]));
                    assert(list[x] == list[k as int]);
                }
                return false;
            }
            proof {
                assert forall|x: int, y: int| 0 <= x < y < k + 1 implies list[x] != list[y] by {
                    if y == k {
                        assert(before.contains(list[x].1));
                    }
                }
                assert forall|v: usize| id_set_items(seen).contains(v) implies exists|x: int|
                    0 <= x < k + 1 && (#[trigger] list[x]).1 == v by {
                    if v == c.1 {
                        assert(list[k as int].1 == v);
                    } else {
                        assert(before.contains(v));
                        let x = choose|x: int| 0 <= x < k && (#[trigger] list[x]).1 == v;
                        assert(list[x].1 == v);
                    }
                }
            }
            k += 1;
        }
        true
    }

    /// Whether the connection at `j` stands in the list of the node it ends
    /// in.
    fn check_listed(&self, j: usize) -> (ok: bool)
        requires
            j < self.connections.len(),
            self.genome().endpoints_ok(),
        ensures
            ok == self.genome().nodes[self.genome().dst(j as int)].input_connections.contains(
                ConnectionIndex(self.id, j),
            ),
    {
        let ghost g = self.genome();
        let c = self.connections[j];
        proof {
            assert(g.connections[j as int] == c);
            assert(g.node_in_range(c.input_node));
            assert(g.nodes[c.output_node.1 as int] == self.nodes[c.output_node.1 as int]@);
        }
        let list = &self.nodes[c.output_node.1].input_connections;
        assert(list@ == g.nodes[g.dst(j as int)].input_connections);
        let mut k: usize = 0;
        while k < list.len()
            invariant
                k <= list.len(),
                g == self.genome(),
                list@ == g.nodes[g.dst(j as int)].input_connections,
                forall|x: int| 0 <= x < k ==> list@[x] != ConnectionIndex(self.id, j),
            decreases list.len() - k,
        {
            let entry = list[k];
            if entry.0 == self.id && entry.1 == j {
                assert(list@[k as int] == ConnectionIndex(self.id, j));
                return true;
            }
            k += 1;
        }
        false
    }

    /// Whether the list of incoming connections of every node holds exactly
    /// the connections that end in it, each once.
    fn check_incoming(&self) -> (ok: bool)
        requires
            self.genome().endpoints_ok(),
        ensures
            ok == self.genome().incoming_ok(),
    {
        let ghost g = self.genome();
        let mut i: usize = 0;
        while i < self.nodes.len()
            invariant
                i <= self.nodes.len(),
                g == self.genome(),
                forall|x: int| 0 <= x < i ==> #[trigger] g.incoming_point_here(x),
                forall|x: int|
                    0 <= x < i ==> (#[trigger] g.nodes[x]).input_connections.no_duplicates(),
            decreases self.nodes.len() - i,
        {
            if !self.check_incoming_of(i) {
                proof {
                    if g.incoming_ok() {
                        assert(g.nodes[i as int].input_connections.no_duplicates());
                        assert(g.incoming_point_here(i as int));
                    }
                }
                return false;
            }
            i += 1;
        }
        let mut j: usize = 0;
        while j < self.connections.len()
            invariant
                j <= self.connections.len(),
                g == self.genome(),
                g.endpoints_ok(),
                forall|x: int| 0 <= x < self.nodes.len() ==> #[trigger] g.incoming_point_here(x),
                forall|x: int|
                    0 <= x < self.nodes.len() ==> (
                    #[trigger] g.nodes[x]).input_connections.no_duplicates(),
                forall|x: int|
                    0 <= x < j ==> g.nodes[#[trigger] g.dst(x)].input_connections.contains(
                        ConnectionIndex(g.id, x as usize),
                    ),
            decreases self.connections.len() - j,
        {
            if !self.check_listed(j) {
                return false;
            }
            j += 1;
        }
        proof {
            assert forall|x: int, k: int|
                0 <= x < g.nodes.len() && 0 <= k < g.nodes[x].input_connections.len() implies {
                let c = #[trigger] g.nodes[x].input_connections[k];
                g.connection_in_range(c) && g.dst(c.1 as int) == x
            } by {
                assert(g.incoming_point_here(x));
            }
        }
        true
    }

    /// Every identifier stands once where both tables hold their genes.
    proof fn lemma_tables_give_distinct(&self)
        requires
            self.node_table_ok(),
            self.connection_table_ok(),
        ensures
            self.genome().ids_distinct(),
    {
        let g = self.genome();
        assert forall|i: int, k: int| 0 <= i < k < g.nodes.len() implies (#[trigger] g.nodes[i]).id != (
        #[trigger] g.nodes[k]).id by {
            assert(lookup(id_table_entries(self.map_node_id_to_index), self.nodes[i].id.0) == Some(
                i as usize,
            ));
            assert(lookup(id_table_entries(self.map_node_id_to_index), self.nodes[k].id.0) == Some(
                k as usize,
            ));
        }
        assert forall|j: int, k: int| 0 <= j < k < g.connections.len() implies (
        #[trigger] g.connections[j]).id != (#[trigger] g.connections[k]).id by {
            assert(lookup(
                id_table_entries(self.map_connection_id_to_index),
                self.connections[j].id.0,
            ) == Some(j as usize));
            assert(lookup(
                id_table_entries(self.map_connection_id_to_index),
                self.connections[k].id.0,
            ) == Some(k as usize));
        }
    }

    /// Checks the invariants of the data structure: every gene records its
    /// own position; the tables hold the genes; every connection joins two
    /// nodes of this genome; the lists of incoming connections are right;
    /// the inputs and outputs are in their places; and, if the evaluation
    /// order is marked current, no connection offends the layers. Whether
    /// the connections form a cycle is not checked.
    pub fn verify_invariants(&self) -> (ok: bool)
        ensures
            ok == (self.structure_ok() && (self.is_evaluation_order_up_to_date
                ==> self.genome().layers_respected())),
            self.wf() ==> ok,
    {
        proof {
            if self.node_table_ok() && self.connection_table_ok() {
                self.lemma_tables_give_distinct();
            }
            if self.wf() && self.is_evaluation_order_up_to_date {
                lemma_layering_respected(self.genome());
            }
        }
        if !self.check_indices() {
            return false;
        }
        if !self.check_node_table() {
            return false;
        }
        if !self.check_connection_table() {
            return false;
        }
        if !self.check_endpoints() {
            return false;
        }
        if !self.check_incoming() {
            return false;
        }
        if !self.check_slots() {
            return false;
        }
        if self.is_evaluation_order_up_to_date {
            if !self.check_layers() {
                return false;
            }
        }
        true
    }
}

} // verus!

//! Changing a gene in place.

use crate::neural_net::activation_functions::ActivationFunction;
use crate::neural_net::genome_lemmas::lemma_same_skeleton_base;
use crate::neural_net::nets::Net;
use crate::neural_net::populations::FitnessInfo;
use crate::tables::{id_table_entries, lookup};
use vstd::prelude::*;

verus! {

impl<F: FitnessInfo> Net<F> {
    /// Whether `other` has tables with the same entries and the same
    /// identifiers in the same places.
    pub open spec fn same_ids(&self, other: &Net<F>) -> bool {
        &&& id_table_entries(self.map_node_id_to_index) == id_table_entries(
            other.map_node_id_to_index,
        )
        &&& id_table_entries(self.map_connection_id_to_index) == id_table_entries(
            other.map_connection_id_to_index,
        )
        &&& self.nodes.len() == other.nodes.len()
        &&& self.connections.len() == other.connections.len()
        &&& forall|i: int|
            0 <= i < self.nodes.len() ==> (#[trigger] self.nodes[i]).id == other.nodes[i].id
        &&& forall|j: int|
            0 <= j < self.connections.len() ==> (#[trigger] self.connections[j]).id
                == other.connections[j].id
    }

    /// The tables of a genome serve every genome with the same identifiers
    /// in the same places.
    pub proof fn lemma_tables_keep(&self, other: &Net<F>)
        requires
            self.same_ids(other),
            other.node_table_ok(),
            other.connection_table_ok(),
        ensures
            self.node_table_ok(),
            self.connection_table_ok(),
    {
        assert forall|i: int| 0 <= i < self.nodes.len() implies lookup(
            id_table_entries(self.map_node_id_to_index),
            (#[trigger] self.nodes[i]).id.0,
        ) == Some(i as usize) by {
            assert(self.nodes[i].id == other.nodes[i].id);
        }
        assert forall|k: usize| #[trigger]
            id_table_entries(self.map_node_id_to_index).contains_key(k) implies id_table_entries(
            self.map_node_id_to_index,
        )[k] < self.nodes.len() && self.nodes[id_table_entries(
            self.map_node_id_to_index,
        )[k] as int].id.0 == k by {
            let at = id_table_entries(self.map_node_id_to_index)[k] as int;
            assert(self.nodes[at].id == other.nodes[at].id);
        }
        assert forall|j: int| 0 <= j < self.connections.len() implies lookup(
            id_table_entries(self.map_connection_id_to_index),
            (#[trigger] self.connections[j]).id.0,
        ) == Some(j as usize) by {
            assert(self.connections[j].id == other.connections[j].id);
        }
        assert forall|k: usize| #[trigger]
            id_table_entries(self.map_connection_id_to_index).contains_key(k) implies id_table_entries(
            self.map_connection_id_to_index,
        )[k] < self.connections.len() && self.connections[id_table_entries(
            self.map_connection_id_to_index,
        )[k] as int].id.0 == k by {
            let at = id_table_entries(self.map_connection_id_to_index)[k] as int;
            assert(self.connections[at].id == other.connections[at].id);
        }
    }

    /// A genome with the same identifiers in the same places and tables
    /// with the same entries shares the basic invariants, if it is the same
    /// mathematical value.
    pub proof fn lemma_tables_like(&self, other: &Net<F>)
        requires
            self.same_ids(other),
            self@ == other@,
            other.base_ok(),
        ensures
            self.base_ok(),
    {
        self.lemma_tables_keep(other);
    }

    /// Gives the node at `i` another activation function.
    pub(crate) fn put_activation(&mut self, i: usize, f: ActivationFunction)
        requires
            old(self).base_ok(),
            i < old(self).nodes.len(),
        ensures
            final(self).base_ok(),
            final(self).genome() == old(self).genome().with_activation(i as int, f),
            final(self).genome().same_skeleton(old(self).genome()),
            final(self).same_shell(old(self)),
            final(self).is_evaluation_order_up_to_date == old(self).is_evaluation_order_up_to_date,
    {
        self.nodes[i].activation_function = f;
        proof {
            assert(self.genome().nodes =~= old(self).genome().with_activation(i as int, f).nodes);
            self.lemma_tables_keep(old(self));
            lemma_same_skeleton_base(old(self).genome(), self.genome());
        }
    }

    /// Gives the node at `i` another value.
    pub(crate) fn put_value(&mut self, i: usize, value: u32)
        requires
            old(self).base_ok(),
            i < old(self).nodes.len(),
        ensures
            final(self).base_ok(),
            final(self).genome() == old(self).genome().with_value(i as int, value),
            final(self).genome().same_skeleton(old(self).genome()),
            final(self).same_shell(old(self)),
            final(self).is_evaluation_order_up_to_date == old(self).is_evaluation_order_up_to_date,
    {
        self.nodes[i].value = value;
        proof {
            assert(self.genome().nodes =~= old(self).genome().with_value(i as int, value).nodes);
            self.lemma_tables_keep(old(self));
            lemma_same_skeleton_base(old(self).genome(), self.genome());
        }
    }

    /// Gives the connection at `j` another weight.
    pub(crate) fn put_weight(&mut self, j: usize, weight: u32)
        requires
            old(self).base_ok(),
            j < old(self).connections.len(),
        ensures
            final(self).base_ok(),
            final(self).genome() == old(self).genome().with_weight(j as int, weight),
            final(self).genome().same_skeleton(old(self).genome()),
            final(self).same_shell(old(self)),
            final(self).is_evaluation_order_up_to_date == old(self).is_evaluation_order_up_to_date,
    {
        self.connections[j].weight = weight;
        proof {
            assert(self.genome().connections =~= old(self).genome().with_weight(
                j as int,
                weight,
            ).connections);
            assert(self.genome().nodes =~= old(self).genome().nodes);
            self.lemma_tables_keep(old(self));
            lemma_same_skeleton_base(old(self).genome(), self.genome());
        }
    }

    /// Enables or disables the connection at `j`.
    pub(crate) fn put_enabled(&mut self, j: usize, is_enabled: bool)
        requires
            old(self).base_ok(),
            j < old(self).connections.len(),
        ensures
            final(self).base_ok(),
            final(self).genome() == old(self).genome().with_enabled(j as int, is_enabled),
            final(self).genome().same_skeleton(old(self).genome()),
            final(self).same_shell(old(self)),
            final(self).is_evaluation_order_up_to_date == old(self).is_evaluation_order_up_to_date,
    {
        self.connections[j].is_enabled = is_enabled;
        proof {
            assert(self.genome().connections =~= old(self).genome().with_enabled(
                j as int,
                is_enabled,
            ).connections);
            assert(self.genome().nodes =~= old(self).genome().nodes);
            self.lemma_tables_keep(old(self));
            lemma_same_skeleton_base(old(self).genome(), self.genome());
        }
    }
}

} // verus!

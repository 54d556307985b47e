//! A genome as plain genes, and back.
//!
//! To save a genome is to write down its genes; to restore it is to make a
//! genome of genes that were read. Genes that were read may be anything, so
//! they are checked: a genome is made of them exactly if they are the genes
//! of a well-formed genome.

use crate::neural_net::activation_functions::ActivationFunction;
use crate::neural_net::connections::ConnectionId;
use crate::neural_net::genome_lemmas::lemma_with_connection_slots;
use crate::neural_net::layers::Layer;
use crate::neural_net::nets::{Genome, Net, NetId, NetParams, NodeIndex, MAX_NODES};
use crate::neural_net::nodes::NodeId;
use crate::neural_net::populations::FitnessInfo;
use crate::tables::IdTable;
use vstd::prelude::*;

verus! {

/// A node gene without its place in a genome.
#[derive(Copy, Clone, Debug)]
pub struct NodeGene {
    pub id: NodeId,
    pub activation_function: ActivationFunction,
    pub layer: Layer,
    /// The bits of the value.
    pub value: u32,
}

/// A connection gene without its place in a genome. Its ends are the
/// positions of two node genes.
#[derive(Copy, Clone, Debug)]
pub struct ConnectionGene {
    pub id: ConnectionId,
    pub input_node: usize,
    pub output_node: usize,
    /// The bits of the weight.
    pub weight: u32,
    pub is_enabled: bool,
}

/// Whether genes are the genes of a well-formed genome of a shape: the
/// inputs come first, the outputs next, and no other node is either; no
/// identifier stands twice; every connection joins two of the nodes, starts
/// from no output and ends in no input; and the connections form no cycle.
pub open spec fn genes_ok(params: NetParams, nodes: Seq<NodeGene>, connections: Seq<ConnectionGene>) -> bool {
    &&& params.input_count + params.output_count <= nodes.len() <= MAX_NODES
    &&& forall|i: int|
        0 <= i < nodes.len() ==> {
            &&& (#[trigger] nodes[i]).layer == Layer::Input <==> i < params.input_count
            &&& nodes[i].layer == Layer::Output <==> params.input_count <= i < params.input_count
                + params.output_count
        }
    &&& forall|i: int, k: int|
        0 <= i < k < nodes.len() ==> (#[trigger] nodes[i]).id != (#[trigger] nodes[k]).id
    &&& forall|j: int, k: int|
        0 <= j < k < connections.len() ==> (#[trigger] connections[j]).id != (
        #[trigger] connections[k]).id
    &&& forall|j: int| 0 <= j < connections.len() ==> ends_ok(params, nodes, #[trigger] connections[j])
    &&& exists|rank: Seq<nat>| genes_ranked(connections, rank)
}

/// Whether a connection gene joins two of the nodes, starts from no output
/// and ends in no input.
pub open spec fn ends_ok(params: NetParams, nodes: Seq<NodeGene>, c: ConnectionGene) -> bool {
    &&& c.input_node < nodes.len()
    &&& c.output_node < nodes.len()
    &&& !(params.input_count <= c.input_node < params.input_count + params.output_count)
    &&& !(c.output_node < params.input_count)
}

/// Whether `rank` grows along every connection gene.
pub open spec fn genes_ranked(connections: Seq<ConnectionGene>, rank: Seq<nat>) -> bool {
    forall|j: int|
        0 <= j < connections.len() ==> rank[(#[trigger] connections[j]).input_node as int]
            < rank[connections[j].output_node as int]
}

impl Genome {
    /// The genome of a shape that holds the first `upto` of the node genes
    /// and no connection.
    pub open spec fn of_nodes(id: NetId, params: NetParams, nodes: Seq<NodeGene>, upto: int) -> Genome
        decreases upto,
    {
        if upto <= 0 {
            Genome {
                id,
                input_count: params.input_count,
                output_count: params.output_count,
                nodes: Seq::empty(),
                connections: Seq::empty(),
            }
        } else {
            let before = Self::of_nodes(id, params, nodes, upto - 1);
            let gene = nodes[upto - 1];
            before.with_node(
                before.next_node(gene.id, gene.activation_function, gene.layer, gene.value),
            )
        }
    }

    /// The genome `self` with the first `upto` of the connection genes.
    pub open spec fn with_genes(self, connections: Seq<ConnectionGene>, upto: int) -> Genome
        decreases upto,
    {
        if upto <= 0 {
            self
        } else {
            let before = self.with_genes(connections, upto - 1);
            let gene = connections[upto - 1];
            before.with_connection(
                before.next_connection(
                    gene.id,
                    gene.weight,
                    gene.is_enabled,
                    NodeIndex(self.id, gene.input_node),
                    NodeIndex(self.id, gene.output_node),
                ),
            )
        }
    }

    /// The genome that genes describe.
    pub open spec fn of_genes(
        id: NetId,
        params: NetParams,
        nodes: Seq<NodeGene>,
        connections: Seq<ConnectionGene>,
    ) -> Genome {
        Self::of_nodes(id, params, nodes, nodes.len() as int).with_genes(
            connections,
            connections.len() as int,
        )
    }

    /// Whether the genome holds the first `count` of the node genes, each
    /// at its place, and the first `made` of the connection genes.
    pub open spec fn holds_genes(
        self,
        nodes: Seq<NodeGene>,
        count: int,
        connections: Seq<ConnectionGene>,
        made: int,
    ) -> bool {
        &&& self.nodes.len() == count
        &&& self.connections.len() == made
        &&& forall|i: int|
            0 <= i < count ==> (#[trigger] self.nodes[i]).id == nodes[i].id && self.nodes[i].layer
                == nodes[i].layer
        &&& forall|j: int|
            0 <= j < made ==> (#[trigger] self.connections[j]).id == connections[j].id
                && self.connections[j].input_node.1 == connections[j].input_node
                && self.connections[j].output_node.1 == connections[j].output_node
    }
}

impl Genome {
    /// The node at `i` as a gene.
    pub open spec fn node_gene(self, i: int) -> NodeGene {
        NodeGene {
            id: self.nodes[i].id,
            activation_function: self.nodes[i].activation_function,
            layer: self.nodes[i].layer,
            value: self.nodes[i].value,
        }
    }

    /// The connection at `j` as a gene.
    pub open spec fn connection_gene(self, j: int) -> ConnectionGene {
        ConnectionGene {
            id: self.connections[j].id,
            input_node: self.connections[j].input_node.1,
            output_node: self.connections[j].output_node.1,
            weight: self.connections[j].weight,
            is_enabled: self.connections[j].is_enabled,
        }
    }

    /// The nodes as genes, in their order.
    pub open spec fn node_genes(self) -> Seq<NodeGene> {
        Seq::new(self.nodes.len(), |i: int| self.node_gene(i))
    }

    /// The connections as genes, in their order.
    pub open spec fn connection_genes(self) -> Seq<ConnectionGene> {
        Seq::new(self.connections.len(), |j: int| self.connection_gene(j))
    }
}

/// The genes of a well-formed genome are the genes of a well-formed genome:
/// of what was written down of a genome, a genome can be made again.
pub proof fn law_written_genes_are_good<F: FitnessInfo>(net: &Net<F>)
    requires
        net.wf(),
    ensures
        genes_ok(net.net_params, net.genome().node_genes(), net.genome().connection_genes()),
{
    let g = net.genome();
    let nodes = g.node_genes();
    let connections = g.connection_genes();
    assert forall|i: int, k: int| 0 <= i < k < nodes.len() implies (#[trigger] nodes[i]).id != (
    #[trigger] nodes[k]).id by {
        assert(g.nodes[i].id != g.nodes[k].id);
    }
    assert forall|j: int, k: int| 0 <= j < k < connections.len() implies (
    #[trigger] connections[j]).id != (#[trigger] connections[k]).id by {
        assert(g.connections[j].id != g.connections[k].id);
    }
    assert forall|j: int| 0 <= j < connections.len() implies ends_ok(
        net.net_params,
        nodes,
        #[trigger] connections[j],
    ) by {
        assert(g.node_in_range(g.connections[j].input_node));
    }
    assert forall|i: int| 0 <= i < nodes.len() implies {
        &&& (#[trigger] nodes[i]).layer == Layer::Input <==> i < net.net_params.input_count
        &&& nodes[i].layer == Layer::Output <==> net.net_params.input_count <= i
            < net.net_params.input_count + net.net_params.output_count
    } by {
        assert(g.nodes[i].layer == Layer::Input <==> g.is_input_slot(i));
    }
    let rank = choose|rank: Seq<nat>| g.ranked_by(rank);
    assert(genes_ranked(connections, rank)) by {
        assert forall|j: int| 0 <= j < connections.len() implies rank[(
        #[trigger] connections[j]).input_node as int] < rank[connections[j].output_node as int] by {
            assert(rank[g.src(j)] < rank[g.dst(j)]);
        }
    }
}

/// The genome that genes describe holds the genes: every node has the
/// identifier, the activation function, the layer and the value of its
/// gene, and every connection the identifier, the ends, the weight and the
/// enabled flag of its gene.
pub proof fn law_described_genome_holds_the_genes(
    id: NetId,
    params: NetParams,
    nodes: Seq<NodeGene>,
    connections: Seq<ConnectionGene>,
)
    requires
        forall|j: int| 0 <= j < connections.len() ==> ends_ok(params, nodes, #[trigger] connections[j]),
    ensures
        Genome::of_genes(id, params, nodes, connections).node_genes() == nodes,
        Genome::of_genes(id, params, nodes, connections).connection_genes() == connections,
        Genome::of_genes(id, params, nodes, connections).id == id,
{
    let start = Genome::of_nodes(id, params, nodes, nodes.len() as int);
    lemma_of_nodes(id, params, nodes, nodes.len() as int);
    lemma_with_genes(start, params, nodes, connections, connections.len() as int);
    let g = Genome::of_genes(id, params, nodes, connections);
    assert(g.node_genes() =~= nodes);
    assert(g.connection_genes() =~= connections);
}

/// What the genome of the first node genes holds.
pub proof fn lemma_of_nodes(id: NetId, params: NetParams, nodes: Seq<NodeGene>, upto: int)
    requires
        0 <= upto <= nodes.len(),
    ensures
        Genome::of_nodes(id, params, nodes, upto).nodes.len() == upto,
        Genome::of_nodes(id, params, nodes, upto).connections.len() == 0,
        Genome::of_nodes(id, params, nodes, upto).id == id,
        forall|i: int|
            0 <= i < upto ==> #[trigger] Genome::of_nodes(id, params, nodes, upto).node_gene(i)
                == nodes[i],
    decreases upto,
{
    if upto > 0 {
        lemma_of_nodes(id, params, nodes, upto - 1);
        let before = Genome::of_nodes(id, params, nodes, upto - 1);
        let after = Genome::of_nodes(id, params, nodes, upto);
        assert forall|i: int| 0 <= i < upto implies #[trigger] after.node_gene(i) == nodes[i] by {
            if i < upto - 1 {
                assert(after.nodes[i] == before.nodes[i]);
                assert(before.node_gene(i) == nodes[i]);
            }
        }
    }
}

/// What a genome holds once it has taken the first connection genes.
pub proof fn lemma_with_genes(
    start: Genome,
    params: NetParams,
    nodes: Seq<NodeGene>,
    connections: Seq<ConnectionGene>,
    upto: int,
)
    requires
        0 <= upto <= connections.len(),
        start.nodes.len() == nodes.len(),
        start.connections.len() == 0,
        forall|i: int| 0 <= i < nodes.len() ==> #[trigger] start.node_gene(i) == nodes[i],
        forall|j: int| 0 <= j < connections.len() ==> ends_ok(params, nodes, #[trigger] connections[j]),
    ensures
        start.with_genes(connections, upto).nodes.len() == nodes.len(),
        start.with_genes(connections, upto).connections.len() == upto,
        start.with_genes(connections, upto).id == start.id,
        forall|i: int|
            0 <= i < nodes.len() ==> #[trigger] start.with_genes(connections, upto).node_gene(i)
                == nodes[i],
        forall|j: int|
            0 <= j < upto ==> #[trigger] start.with_genes(connections, upto).connection_gene(j)
                == connections[j],
    decreases upto,
{
    if upto > 0 {
        lemma_with_genes(start, params, nodes, connections, upto - 1);
        let before = start.with_genes(connections, upto - 1);
        let after = start.with_genes(connections, upto);
        assert(ends_ok(params, nodes, connections[upto - 1]));
        assert forall|i: int| 0 <= i < nodes.len() implies #[trigger] after.node_gene(i)
            == nodes[i] by {
            assert(before.node_gene(i) == nodes[i]);
            assert(after.nodes[i].id == before.nodes[i].id);
        }
        assert forall|j: int| 0 <= j < upto implies #[trigger] after.connection_gene(j)
            == connections[j] by {
            if j < upto - 1 {
                assert(after.connections[j] == before.connections[j]);
                assert(before.connection_gene(j) == connections[j]);
            }
        }
    }
}

impl<F: FitnessInfo> Net<F> {
    /// The node genes of the genome, in their order.
    pub fn node_genes(&self) -> (genes: Vec<NodeGene>)
        ensures
            genes@ == self.genome().node_genes(),
    {
        let mut genes: Vec<NodeGene> = Vec::with_capacity(self.nodes.len());
        let mut i: usize = 0;
        while i < self.nodes.len()
            invariant
                i <= self.nodes.len(),
                genes@.len() == i,
                forall|k: int|
                    0 <= k < i ==> (#[trigger] genes@[k]) == (NodeGene {
                        id: self.genome().nodes[k].id,
                        activation_function: self.genome().nodes[k].activation_function,
                        layer: self.genome().nodes[k].layer,
                        value: self.genome().nodes[k].value,
                    }),
            decreases self.nodes.len() - i,
        {
            assert(self.genome().nodes[i as int] == self.nodes[i as int]@);
            let node = &self.nodes[i];
            genes.push(
                NodeGene {
                    id: node.id,
                    activation_function: node.activation_function,
                    layer: node.layer,
                    value: node.value,
                },
            );
            i += 1;
        }
        assert(genes@ =~= self.genome().node_genes());
        genes
    }

    /// The connection genes of the genome, in their order.
    pub fn connection_genes(&self) -> (genes: Vec<ConnectionGene>)
        ensures
            genes@ == self.genome().connection_genes(),
    {
        let mut genes: Vec<ConnectionGene> = Vec::with_capacity(self.connections.len());
        let mut j: usize = 0;
        while j < self.connections.len()
            invariant
                j <= self.connections.len(),
                genes@.len() == j,
                forall|k: int|
                    0 <= k < j ==> (#[trigger] genes@[k]) == (ConnectionGene {
                        id: self.genome().connections[k].id,
                        input_node: self.genome().connections[k].input_node.1,
                        output_node: self.genome().connections[k].output_node.1,
                        weight: self.genome().connections[k].weight,
                        is_enabled: self.genome().connections[k].is_enabled,
                    }),
            decreases self.connections.len() - j,
        {
            let connection = self.connections[j];
            genes.push(
                ConnectionGene {
                    id: connection.id,
                    input_node: connection.input_node.1,
                    output_node: connection.output_node.1,
                    weight: connection.weight,
                    is_enabled: connection.is_enabled,
                },
            );
            j += 1;
        }
        assert(genes@ =~= self.genome().connection_genes());
        genes
    }

    /// Puts the node genes into a genome that holds none.
    fn take_nodes(&mut self, nodes: &Vec<NodeGene>) -> (taken: bool)
        requires
            old(self).base_ok(),
            old(self).genome() == Genome::of_nodes(
                old(self).id,
                old(self).net_params,
                nodes@,
                0,
            ),
        ensures
            final(self).same_shell(old(self)),
            final(self).is_evaluation_order_up_to_date == old(self).is_evaluation_order_up_to_date,
            taken == (forall|i: int, k: int|
                0 <= i < k < nodes@.len() ==> (#[trigger] nodes@[i]).id != (#[trigger] nodes@[k]).id),
            taken ==> final(self).base_ok() && final(self).genome() == Genome::of_nodes(
                old(self).id,
                old(self).net_params,
                nodes@,
                nodes@.len() as int,
            ) && final(self).genome().holds_genes(nodes@, nodes@.len() as int, seq![], 0),
    {
        let ghost id = self.id;
        let ghost params = self.net_params;
        let mut i: usize = 0;
        while i < nodes.len()
            invariant
                i <= nodes.len(),
                self.base_ok(),
                self.id == id,
                self.net_params == params,
                self.same_shell(old(self)),
                self.is_evaluation_order_up_to_date == old(self).is_evaluation_order_up_to_date,
                self.genome() == Genome::of_nodes(id, params, nodes@, i as int),
                self.genome().holds_genes(nodes@, i as int, seq![], 0),
                forall|a: int, b: int|
                    0 <= a < b < i ==> (#[trigger] nodes@[a]).id != (#[trigger] nodes@[b]).id,
            decreases nodes.len() - i,
        {
            let gene = nodes[i];
            let ghost before = self.genome();
            proof {
                self.lemma_node_lookup(gene.id);
                reveal_with_fuel(Genome::of_nodes, 2);
            }
            match self.map_node_id_to_index.get(gene.id.0) {
                Some(_) => {
                    proof {
                        let at = before.node_position(gene.id);
                        assert(0 <= at < i && before.nodes[at].id == gene.id);
                        assert(nodes@[at].id == nodes@[i as int].id);
                    }
                    return false;
                },
                None => {},
            }
            self.push_node(gene.id, gene.activation_function, gene.layer, gene.value);
            proof {
                let after = self.genome();
                assert forall|k: int| 0 <= k < i + 1 implies (#[trigger] after.nodes[k]).id
                    == nodes@[k].id && after.nodes[k].layer == nodes@[k].layer by {
                    if k < i {
                        assert(after.nodes[k] == before.nodes[k]);
                    }
                }
                assert forall|a: int, b: int| 0 <= a < b < i + 1 implies (#[trigger] nodes@[a]).id
                    != (#[trigger] nodes@[b]).id by {
                    if b == i {
                        assert(before.nodes[a].id == nodes@[a].id);
                        if nodes@[a].id == gene.id {
                            assert(before.has_node_id(gene.id));
                        }
                    }
                }
            }
            i += 1;
        }
        true
    }

    /// Puts the connection genes into a genome that holds the node genes.
    fn take_connections(&mut self, nodes: Ghost<Seq<NodeGene>>, connections: &Vec<ConnectionGene>) -> (taken:
        bool)
        requires
            old(self).structure_ok(),
            old(self).genome().holds_genes(nodes@, nodes@.len() as int, seq![], 0),
        ensures
            final(self).same_shell(old(self)),
            final(self).is_evaluation_order_up_to_date == old(self).is_evaluation_order_up_to_date,
            taken == ((forall|j: int, k: int|
                0 <= j < k < connections@.len() ==> (#[trigger] connections@[j]).id != (
                #[trigger] connections@[k]).id) && (forall|j: int|
                0 <= j < connections@.len() ==> ends_ok(
                    old(self).net_params,
                    nodes@,
                    #[trigger] connections@[j],
                ))),
            taken ==> final(self).structure_ok() && final(self).genome() == old(self).genome().with_genes(connections@, connections@.len() as int) && final(self).genome().holds_genes(
                nodes@,
                nodes@.len() as int,
                connections@,
                connections@.len() as int,
            ),
    {
        let ghost start = self.genome();
        let ghost params = self.net_params;
        let n = self.nodes.len();
        let inputs = self.net_params.input_count;
        let outputs = self.net_params.output_count;
        let mut j: usize = 0;
        while j < connections.len()
            invariant
                j <= connections.len(),
                n == nodes@.len(),
                inputs == params.input_count,
                outputs == params.output_count,
                inputs + outputs <= n,
                self.structure_ok(),
                self.id == start.id,
                self.net_params == params,
                self.same_shell(old(self)),
                self.is_evaluation_order_up_to_date == old(self).is_evaluation_order_up_to_date,
                self.genome() == start.with_genes(connections@, j as int),
                self.genome().holds_genes(nodes@, nodes@.len() as int, connections@, j as int),
                forall|a: int, b: int|
                    0 <= a < b < j ==> (#[trigger] connections@[a]).id != (
                    #[trigger] connections@[b]).id,
                forall|a: int| 0 <= a < j ==> ends_ok(params, nodes@, #[trigger] connections@[a]),
            decreases connections.len() - j,
        {
            let gene = connections[j];
            let ghost before = self.genome();
            proof {
                self.lemma_connection_lookup(gene.id);
                reveal_with_fuel(Genome::with_genes, 2);
            }
            let from_output = inputs <= gene.input_node && gene.input_node - inputs < outputs;
            if !(gene.input_node < n && gene.output_node < n) || from_output || gene.output_node
                < inputs {
                assert(!ends_ok(params, nodes@, connections@[j as int]));
                return false;
            }
            match self.map_connection_id_to_index.get(gene.id.0) {
                Some(_) => {
                    proof {
                        let at = before.connection_position(gene.id);
                        assert(0 <= at < j && before.connections[at].id == gene.id);
                        assert(connections@[at].id == connections@[j as int].id);
                    }
                    return false;
                },
                None => {},
            }
            let ghost added = before.next_connection(
                gene.id,
                gene.weight,
                gene.is_enabled,
                NodeIndex(self.id, gene.input_node),
                NodeIndex(self.id, gene.output_node),
            );
            proof {
                lemma_with_connection_slots(before, added);
            }
            self.push_connection(
                gene.id,
                gene.weight,
                gene.is_enabled,
                NodeIndex(self.id, gene.input_node),
                NodeIndex(self.id, gene.output_node),
            );
            proof {
                let after = self.genome();
                assert forall|k: int| 0 <= k < nodes@.len() implies (#[trigger] after.nodes[k]).id
                    == nodes@[k].id && after.nodes[k].layer == nodes@[k].layer by {
                    assert(after.nodes[k].id == before.nodes[k].id);
                    assert(after.nodes[k].layer == before.nodes[k].layer);
                }
                assert forall|k: int| 0 <= k < j + 1 implies (#[trigger] after.connections[k]).id
                    == connections@[k].id && after.connections[k].input_node.1
                    == connections@[k].input_node && after.connections[k].output_node.1
                    == connections@[k].output_node by {
                    if k < j {
                        assert(after.connections[k] == before.connections[k]);
                    }
                }
                assert forall|a: int, b: int| 0 <= a < b < j + 1 implies (
                #[trigger] connections@[a]).id != (#[trigger] connections@[b]).id by {
                    if b == j {
                        assert(before.connections[a].id == connections@[a].id);
                        if connections@[a].id == gene.id {
                            assert(before.has_connection_id(gene.id));
                        }
                    }
                }
            }
            j += 1;
        }
        true
    }

    /// Makes a genome of genes, if they are the genes of a well-formed
    /// genome of the shape. The layers are built anew from the connections,
    /// and so is the evaluation order.
    pub fn from_genes(
        id: NetId,
        net_params: NetParams,
        nodes: &Vec<NodeGene>,
        connections: &Vec<ConnectionGene>,
        fitness_info: F,
    ) -> (made: Option<Net<F>>)
        ensures
            made is Some <==> genes_ok(net_params, nodes@, connections@),
            made matches Some(net) ==> {
                &&& net.settled()
                &&& net.is_evaluation_order_up_to_date
                &&& net.genome().same_but_layers(
                    Genome::of_genes(id, net_params, nodes@, connections@),
                )
                &&& net.id == id
                &&& net.net_params == net_params
                &&& net.fitness_info == fitness_info
            },
    {
        let mut net = Net {
            id,
            net_params,
            nodes: Vec::with_capacity(nodes.len()),
            map_node_id_to_index: IdTable::with_capacity(nodes.len()),
            connections: Vec::with_capacity(connections.len()),
            map_connection_id_to_index: IdTable::with_capacity(connections.len()),
            fitness_info,
            is_evaluation_order_up_to_date: false,
            node_order_list: Vec::new(),
        };
        proof {
            reveal_with_fuel(Genome::of_nodes, 1);
            assert(net.genome().nodes =~= Seq::empty());
            assert(net.genome().connections =~= Seq::empty());
        }
        if !net.take_nodes(nodes) {
            return None;
        }
        let ghost noded = net.genome();
        if !net.check_slots() {
            proof {
                if genes_ok(net_params, nodes@, connections@) {
                    assert forall|i: int| 0 <= i < noded.nodes.len() implies {
                        &&& (#[trigger] noded.nodes[i]).layer == Layer::Input <==> noded.is_input_slot(i)
                        &&& noded.nodes[i].layer == Layer::Output <==> noded.is_output_slot(i)
                    } by {
                        assert(noded.nodes[i].layer == nodes@[i].layer);
                    }
                }
            }
            return None;
        }
        proof {
            assert forall|i: int| 0 <= i < nodes@.len() implies {
                &&& (#[trigger] nodes@[i]).layer == Layer::Input <==> i < net_params.input_count
                &&& nodes@[i].layer == Layer::Output <==> net_params.input_count <= i
                    < net_params.input_count + net_params.output_count
            } by {
                assert(noded.nodes[i].layer == nodes@[i].layer);
                assert(noded.is_input_slot(i) <==> i < net_params.input_count);
            }
        }
        if !net.take_connections(Ghost(nodes@), connections) {
            return None;
        }
        let ghost g = net.genome();
        proof {
            assert(g.acyclic() <==> exists|rank: Seq<nat>| genes_ranked(connections@, rank)) by {
                if g.acyclic() {
                    let rank = choose|rank: Seq<nat>| g.ranked_by(rank);
                    assert forall|j: int| 0 <= j < connections@.len() implies rank[(
                    #[trigger] connections@[j]).input_node as int]
                        < rank[connections@[j].output_node as int] by {
                        assert(g.connections[j].input_node.1 == connections@[j].input_node);
                        assert(rank[g.src(j)] < rank[g.dst(j)]);
                    }
                    assert(genes_ranked(connections@, rank));
                }
                if exists|rank: Seq<nat>| genes_ranked(connections@, rank) {
                    let rank = choose|rank: Seq<nat>| genes_ranked(connections@, rank);
                    lemma_ranks_compare(g, net_params, nodes@, connections@, rank);
                }
            }
        }
        if !net.is_acyclic() {
            return None;
        }
        net.build_evaluation_order();
        Some(net)
    }
}

/// A ranking of connection genes gives a ranking of the genome that holds
/// them, whatever its length.
pub proof fn lemma_ranks_compare(
    g: Genome,
    params: NetParams,
    nodes: Seq<NodeGene>,
    connections: Seq<ConnectionGene>,
    rank: Seq<nat>,
)
    requires
        g.holds_genes(nodes, nodes.len() as int, connections, connections.len() as int),
        forall|j: int| 0 <= j < connections.len() ==> ends_ok(params, nodes, #[trigger] connections[j]),
        genes_ranked(connections, rank),
    ensures
        g.acyclic(),
{
    // Beyond its length a sequence still has values; a ranking reads them where it must.
    let full = Seq::new(g.nodes.len(), |i: int| rank[i]);
    assert forall|j: int| 0 <= j < g.connections.len() implies full[#[trigger] g.src(j)] < full[g.dst(
        j,
    )] by {
        assert(g.connections[j].input_node.1 == connections[j].input_node);
        assert(ends_ok(params, nodes, connections[j]));
        assert(rank[connections[j].input_node as int] < rank[connections[j].output_node as int]);
    }
    assert(g.ranked_by(full));
}

} // verus!

//! The population and its generations.

use crate::chance::random_bits;
use crate::neural_net::connections::ConnectionId;
use crate::neural_net::ids::IdAllocator;
use crate::neural_net::mutation::MutationPlan;
use crate::neural_net::nets::{Genome, MAX_NODES, MutationParams, Net, NetId, NetParams};
use crate::neural_net::nodes::NodeId;
use vstd::prelude::*;

verus! {

/// The record a caller keeps of how well a genome did. The library reads
/// one number of it, the fitness: a larger fitness is a better genome. What
/// else the record holds is the caller's business.
pub trait FitnessInfo: Copy {
    /// The fitness the record holds.
    spec fn fitness(&self) -> i64;

    /// The record of a genome that was not evaluated yet.
    spec fn unevaluated() -> Self;

    fn get_fitness(&self) -> (r: i64)
        ensures
            r == self.fitness(),
    ;

    fn set_fitness(&mut self, new: i64)
        ensures
            final(self).fitness() == new,
    ;

    /// Makes the record of a genome that was not evaluated yet.
    fn new_unevaluated() -> (r: Self)
        ensures
            r == Self::unevaluated(),
    ;
}

/// The plainest record: the fitness and nothing else. A genome that was not
/// evaluated yet has the least fitness there is.
impl FitnessInfo for i64 {
    open spec fn fitness(&self) -> i64 {
        *self
    }

    open spec fn unevaluated() -> i64 {
        i64::MIN
    }

    fn get_fitness(&self) -> (r: i64) {
        *self
    }

    fn set_fitness(&mut self, new: i64) {
        *self = new;
    }

    fn new_unevaluated() -> (r: i64) {
        i64::MIN
    }
}

/// How many of the fittest genomes go into the next generation unchanged.
pub const ELITE_COUNT: usize = 4;

/// How often, for every genome of the population, a genome may be drawn in
/// one phase of making the next generation before the phase gives up.
pub const DRAWS_PER_NET: usize = 20;

/// What a population is made with.
#[derive(Copy, Clone, Debug, PartialEq)]
pub struct PopulationParams {
    pub population_size: usize,
    pub mutation_params: MutationParams,
    pub net_params: NetParams,
}

/// The genomes of one generation, and the source of their identifiers.
pub struct Population<Fit: FitnessInfo> {
    pub nets: Vec<Net<Fit>>,
    pub population_params: PopulationParams,
    pub ids: IdAllocator,
}

/// An allocator that has handed out more serves every genome that an
/// allocator that has handed out less serves.
pub proof fn lemma_ids_below_later(g: Genome, earlier: IdAllocator, later: IdAllocator)
    requires
        g.ids_below(earlier),
        earlier.no_later_than(later),
    ensures
        g.ids_below(later),
{
    assert forall|i: int| 0 <= i < g.nodes.len() implies (#[trigger] g.nodes[i]).id.0
        < later.next_node by {
        assert(g.nodes[i].id.0 < earlier.next_node);
    }
    assert forall|j: int| 0 <= j < g.connections.len() implies (#[trigger] g.connections[j]).id.0
        < later.next_connection by {
        assert(g.connections[j].id.0 < earlier.next_connection);
    }
}

impl<Fit: FitnessInfo> Net<Fit> {
    /// Whether the genome was made with the shape of a population, its
    /// nodes getting identifiers from `first` on, and then mutated by a
    /// plan with the allocator at `ids`.
    pub open spec fn newly_made_by(
        &self,
        params: PopulationParams,
        id: NetId,
        first: usize,
        ids: IdAllocator,
        plan: MutationPlan,
    ) -> bool {
        let made = Genome::fresh(id, params.net_params, first);
        &&& made.plan_ok(plan)
        &&& made.plan_allowed(plan, params.mutation_params, 1)
        &&& self.genome().same_but_layers(made.mutated(plan, ids))
    }

    /// Whether the genome was made with the shape of a population and
    /// mutated once, with the probabilities of the population.
    pub open spec fn newly_made(&self, params: PopulationParams) -> bool {
        exists|
            id: NetId,
            first: usize,
            ids: IdAllocator,
            plan: MutationPlan,
        | #[trigger] self.newly_made_by(params, id, first, ids, plan)
    }
}

/// The index that a draw gives in a list of `len` genomes sorted from the
/// fittest down: the draw, taken as a fraction of one, is squared, which
/// favours the start of the list, scaled to the length of the list and
/// rounded, and the last index stands for whatever lies beyond.
pub open spec fn rank_biased_index(draw: u32, len: usize) -> int {
    let scaled = (draw * draw * len + 0x8000_0000_0000_0000) / 0x1_0000_0000_0000_0000;
    if scaled >= len {
        len - 1
    } else {
        scaled
    }
}

/// Whether some draw gives the index in a list of `len` genomes sorted from
/// the fittest down.
#[verifier::opaque]
pub open spec fn is_rank_biased(index: int, len: usize) -> bool {
    exists|draw: u32| index == #[trigger] rank_biased_index(draw, len)
}

/// The index that a draw gives in a list of `len` genomes sorted from the
/// fittest down.
pub fn rank_biased(draw: u32, len: usize) -> (index: usize)
    requires
        len > 0,
    ensures
        index == rank_biased_index(draw, len),
        index < len,
{
    assert(draw * draw * len + 0x8000_0000_0000_0000 <= 0xFFFF_FFFF * 0xFFFF_FFFF
        * 0xFFFF_FFFF_FFFF_FFFF + 0x8000_0000_0000_0000) by (nonlinear_arith)
        requires
            0 <= draw <= 0xFFFF_FFFF,
            0 <= len <= 0xFFFF_FFFF_FFFF_FFFF,
    ;
    assert(draw * draw <= 0xFFFF_FFFF * 0xFFFF_FFFF) by (nonlinear_arith)
        requires
            0 <= draw <= 0xFFFF_FFFF,
    ;
    assert(0 <= draw * draw * len) by (nonlinear_arith)
        requires
            0 <= draw,
            0 <= len,
    ;
    let square: u128 = (draw as u128) * (draw as u128);
    assert(square * len <= 0xFFFF_FFFF * 0xFFFF_FFFF * 0xFFFF_FFFF_FFFF_FFFF) by (nonlinear_arith)
        requires
            0 <= square <= 0xFFFF_FFFF * 0xFFFF_FFFF,
            0 <= len <= 0xFFFF_FFFF_FFFF_FFFF,
    ;
    let scaled: u128 = (square * (len as u128) + 0x8000_0000_0000_0000u128)
        / 0x1_0000_0000_0000_0000u128;
    if scaled >= len as u128 {
        len - 1
    } else {
        scaled as usize
    }
}

impl<Fit: FitnessInfo> Population<Fit> {
    /// Whether the genomes of a list can live in one population: each is
    /// settled and holds only identifiers that `ids` has handed out, and a
    /// gene that two of them carry means the same in both.
    pub open spec fn nets_ok(nets: Seq<Net<Fit>>, ids: IdAllocator) -> bool {
        &&& forall|i: int|
            0 <= i < nets.len() ==> (#[trigger] nets[i]).settled() && nets[i].genome().ids_below(ids)
        &&& forall|i: int, k: int|
            0 <= i < nets.len() && 0 <= k < nets.len() ==> (#[trigger] nets[i]).genome().compatible(
                (#[trigger] nets[k]).genome(),
            )
    }

    /// The population is well formed: its genomes can live together, and a
    /// genome of its shape is not too large.
    pub open spec fn wf(&self) -> bool {
        &&& Self::nets_ok(self.nets@, self.ids)
        &&& self.population_params.net_params.input_count
            + self.population_params.net_params.output_count < MAX_NODES
    }

    /// Whether the genome at `a` outranks the one at `b`: it is fitter, or
    /// as fit and earlier in the list.
    pub open spec fn outranks(nets: Seq<Net<Fit>>, a: int, b: int) -> bool {
        nets[a].fitness_info.fitness() > nets[b].fitness_info.fitness() || (
        nets[a].fitness_info.fitness() == nets[b].fitness_info.fitness() && a < b)
    }

    /// Whether `order` lists the positions of all genomes from the fittest
    /// down, genomes of equal fitness in the order they stand in.
    pub open spec fn is_ranking(nets: Seq<Net<Fit>>, order: Seq<usize>) -> bool {
        &&& order.len() == nets.len()
        &&& forall|p: int| 0 <= p < order.len() ==> #[trigger] order[p] < nets.len()
        &&& forall|k: int| 0 <= k < nets.len() ==> #[trigger] order.contains(k as usize)
        &&& forall|p: int, q: int|
            0 <= p < q < order.len() ==> Self::outranks(
                nets,
                #[trigger] order[p] as int,
                #[trigger] order[q] as int,
            )
    }

    /// Whether no genome of the list is fitter than the one at `b`.
    pub open spec fn is_fittest(nets: Seq<Net<Fit>>, b: int) -> bool {
        forall|k: int|
            0 <= k < nets.len() ==> (#[trigger] nets[k]).fitness_info.fitness()
                <= nets[b].fitness_info.fitness()
    }

    /// A population without genomes, with an allocator that has handed out
    /// nothing yet.
    pub fn new(meta: PopulationParams) -> (population: Self)
        ensures
            population.nets@.len() == 0,
            population.population_params == meta,
            population.ids.next_node == 1,
            population.ids.next_connection == 1,
            population.ids.next_net == 1,
            meta.net_params.input_count + meta.net_params.output_count < MAX_NODES
                ==> population.wf(),
    {
        Self { nets: Vec::new(), population_params: meta, ids: IdAllocator::new() }
    }

    /// Hands out the next node identifier of the population.
    pub fn new_node_id(&mut self) -> (id: NodeId)
        requires
            old(self).ids.next_node < usize::MAX,
        ensures
            id.0 == old(self).ids.next_node,
            final(self).ids.next_node == old(self).ids.next_node + 1,
            final(self).ids.next_connection == old(self).ids.next_connection,
            final(self).ids.next_net == old(self).ids.next_net,
            final(self).nets == old(self).nets,
            final(self).population_params == old(self).population_params,
    {
        NodeId::new_unique(&mut self.ids)
    }

    /// Hands out the next connection identifier of the population.
    pub fn new_connection_id(&mut self) -> (id: ConnectionId)
        requires
            old(self).ids.next_connection < usize::MAX,
        ensures
            id.0 == old(self).ids.next_connection,
            final(self).ids.next_connection == old(self).ids.next_connection + 1,
            final(self).ids.next_node == old(self).ids.next_node,
            final(self).ids.next_net == old(self).ids.next_net,
            final(self).nets == old(self).nets,
            final(self).population_params == old(self).population_params,
    {
        ConnectionId::new_unique(&mut self.ids)
    }

    /// Whether the allocator can serve one more genome made and mutated.
    pub open spec fn can_make_net(&self) -> bool {
        &&& self.ids.next_net < usize::MAX
        &&& self.ids.has_room(
            self.population_params.net_params.input_count
                + self.population_params.net_params.output_count + 1,
            3,
        )
    }

    /// The positions of all genomes from the fittest down.
    pub fn ranking(&self) -> (order: Vec<usize>)
        ensures
            Self::is_ranking(self.nets@, order@),
    {
        let n = self.nets.len();
        let mut order: Vec<usize> = Vec::with_capacity(n);
        let mut i: usize = 0;
        while i < n
            invariant
                i <= n,
                n == self.nets.len(),
                order.len() == i,
                forall|p: int| 0 <= p < order.len() ==> #[trigger] order[p] < i,
                forall|k: int| 0 <= k < i ==> #[trigger] order@.contains(k as usize),
                forall|p: int, q: int|
                    0 <= p < q < order.len() ==> Self::outranks(
                        self.nets@,
                        #[trigger] order[p] as int,
                        #[trigger] order[q] as int,
                    ),
            decreases n - i,
        {
            let fitness = self.nets[i].fitness_info.get_fitness();
            let mut at: usize = order.len();
            let ghost before = order@;
            while at > 0 && self.nets[order[at - 1]].fitness_info.get_fitness() < fitness
                invariant
                    at <= order.len(),
                    order@ == before,
                    order.len() == i,
                    i < n,
                    n == self.nets.len(),
                    fitness == self.nets[i as int].fitness_info.fitness(),
                    forall|p: int| 0 <= p < order.len() ==> #[trigger] order[p] < i,
                    forall|p: int|
                        at <= p < order.len() ==> self.nets[(#[trigger] order[p]) as int].fitness_info.fitness()
                            < fitness,
                decreases at,
            {
                at -= 1;
            }
            order.insert(at, i);
            proof {
                let after = order@;
                before.insert_ensures(at as int, i);
                assert forall|p: int| at <= p < before.len() implies after[p + 1] == before[p] by {}
                assert forall|k: int| 0 <= k < i + 1 implies #[trigger] after.contains(
                    k as usize,
                ) by {
                    if k < i {
                        assert(before.contains(k as usize));
                        let p = choose|p: int| 0 <= p < before.len() && before[p] == k as usize;
                        if p < at {
                            assert(after[p] == before[p]);
                        } else {
                            assert(after[p + 1] == before[p]);
                        }
                    } else {
                        assert(after[at as int] == i);
                    }
                }
                assert forall|p: int, q: int| 0 <= p < q < after.len() implies Self::outranks(
                    self.nets@,
                    #[trigger] after[p] as int,
                    #[trigger] after[q] as int,
                ) by {
                    if q < at {
                        assert(after[p] == before[p] && after[q] == before[q]);
                    } else if q == at {
                        assert(after[p] == before[p]);
                        if at > 0 {
                            assert(self.nets[before[at - 1] as int].fitness_info.fitness()
                                >= fitness);
                            if p < at - 1 {
                                assert(Self::outranks(
                                    self.nets@,
                                    before[p] as int,
                                    before[at - 1] as int,
                                ));
                            }
                        }
                    } else if p < at {
                        assert(after[p] == before[p] && after[q] == before[q - 1]);
                    } else if p == at {
                        assert(after[q] == before[q - 1]);
                    } else {
                        assert(after[p] == before[p - 1] && after[q] == before[q - 1]);
                    }
                }
                assert forall|p: int| 0 <= p < after.len() implies #[trigger] after[p] < i + 1 by {
                    if p < at {
                        assert(after[p] == before[p]);
                    } else if p > at {
                        assert(after[p] == before[p - 1]);
                    }
                }
            }
            i += 1;
        }
        order
    }

    /// A place in a list of the genomes sorted from the fittest down, drawn
    /// with a bias to the start of the list: the place that thirty-two
    /// random bits give.
    pub(crate) fn choose_ranked(&self) -> (index: usize)
        requires
            self.nets.len() > 0,
        ensures
            index < self.nets.len(),
            is_rank_biased(index as int, self.nets.len()),
    {
        let draw = random_bits();
        let index = rank_biased(draw, self.nets.len());
        proof {
            reveal(is_rank_biased);
            assert(index == rank_biased_index(draw, self.nets.len()));
        }
        index
    }
}

/// The first genome of a ranking is a fittest one.
pub proof fn lemma_ranking_starts_with_fittest<Fit: FitnessInfo>(
    nets: Seq<Net<Fit>>,
    order: Seq<usize>,
)
    requires
        Population::<Fit>::is_ranking(nets, order),
        0 < nets.len() <= usize::MAX,
    ensures
        Population::<Fit>::is_fittest(nets, order[0] as int),
{
    assert forall|k: int| 0 <= k < nets.len() implies (#[trigger] nets[k]).fitness_info.fitness()
        <= nets[order[0] as int].fitness_info.fitness() by {
        assert(order.contains(k as usize));
        let p = choose|p: int| 0 <= p < order.len() && order[p] == k as usize;
        if p > 0 {
            assert(Population::<Fit>::outranks(nets, order[0] as int, order[p] as int));
        }
    }
}

} // verus!

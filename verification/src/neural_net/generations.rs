//! From one generation to the next.

use crate::neural_net::crossing::lemma_compatible_symmetric;
use crate::neural_net::ids::IdAllocator;
use crate::neural_net::kinship::lemma_compatible_self;
use crate::neural_net::mutation::{MutationPlan, WeightSource, ids_after_plan};
use crate::neural_net::nets::{Genome, MutationParams, Net, NetView};
use crate::neural_net::populations::{
    lemma_ids_below_later, lemma_ranking_starts_with_fittest, FitnessInfo, Population,
    DRAWS_PER_NET, ELITE_COUNT,
};
use crate::tables::IdSet;
use vstd::prelude::*;

verus! {

impl<Fit: FitnessInfo> Population<Fit> {
    /// Whether `net` can join the genomes of a list: it is settled, holds
    /// only identifiers that `ids` has handed out, and a gene that it shares
    /// with one of them means the same in both.
    pub open spec fn can_join(nets: Seq<Net<Fit>>, net: &Net<Fit>, ids: IdAllocator) -> bool {
        &&& net.settled()
        &&& net.genome().ids_below(ids)
        &&& forall|i: int|
            0 <= i < nets.len() ==> net.genome().compatible((#[trigger] nets[i]).genome())
    }

    /// Whether a genome from outside, a copy kept of an earlier generation
    /// say, agrees with the genomes of a list: it holds only identifiers
    /// that `ids` has handed out, and a gene that it shares with one of the
    /// list means the same in both.
    pub open spec fn welcomed(nets: Seq<Net<Fit>>, ids: IdAllocator, x: Genome) -> bool {
        &&& x.ids_below(ids)
        &&& forall|i: int| 0 <= i < nets.len() ==> (#[trigger] nets[i]).genome().compatible(x)
    }

    /// Whether every genome that agreed with the genomes `nets` when the
    /// allocator stood at `ids` agrees with the genomes `next` too.
    pub open spec fn all_welcome(nets: Seq<Net<Fit>>, ids: IdAllocator, next: Seq<Net<Fit>>) -> bool {
        forall|x: Genome, k: int|
            #![trigger Self::welcomed(nets, ids, x), next[k]]
            Self::welcomed(nets, ids, x) && 0 <= k < next.len() ==> next[k].genome().compatible(x)
    }

    /// Whether a genome from outside agrees with the genomes of the
    /// population.
    pub open spec fn welcomes(&self, x: Genome) -> bool {
        Self::welcomed(self.nets@, self.ids, x)
    }

    /// A genome that agrees with everything that agreed with the genomes
    /// `nets` may be put at the end of a list of such genomes.
    pub proof fn lemma_all_welcome_push(
        nets: Seq<Net<Fit>>,
        ids: IdAllocator,
        next: Seq<Net<Fit>>,
        made: Net<Fit>,
    )
        requires
            Self::all_welcome(nets, ids, next),
            forall|x: Genome| #[trigger]
                Self::welcomed(nets, ids, x) ==> made.genome().compatible(x),
        ensures
            Self::all_welcome(nets, ids, next.push(made)),
    {
        let all = next.push(made);
        assert forall|x: Genome, k: int|
            #![trigger Self::welcomed(nets, ids, x), all[k]]
            Self::welcomed(nets, ids, x) && 0 <= k < all.len() implies all[k].genome().compatible(
            x,
        ) by {
            if k < next.len() {
                assert(all[k] == next[k]);
            }
        }
    }

    /// A genome that can join a list makes, put at its end, a list whose
    /// genomes can live in one population.
    pub proof fn lemma_joined(nets: Seq<Net<Fit>>, net: Net<Fit>, ids: IdAllocator)
        requires
            Self::nets_ok(nets, ids),
            Self::can_join(nets, &net, ids),
        ensures
            Self::nets_ok(nets.push(net), ids),
    {
        let all = nets.push(net);
        lemma_compatible_self(net.genome());
        assert forall|i: int, k: int| 0 <= i < all.len() && 0 <= k < all.len() implies (
        #[trigger] all[i]).genome().compatible((#[trigger] all[k]).genome()) by {
            if i < nets.len() && k < nets.len() {
                assert(nets[i].genome().compatible(nets[k].genome()));
            } else if i < nets.len() {
                assert(net.genome().compatible(nets[i].genome()));
                lemma_compatible_symmetric(net.genome(), nets[i].genome());
            } else if k < nets.len() {
                assert(net.genome().compatible(nets[k].genome()));
            }
        }
    }

    /// Genomes that can live in one population still can when the allocator
    /// has handed out more.
    pub proof fn lemma_nets_ok_later(nets: Seq<Net<Fit>>, earlier: IdAllocator, later: IdAllocator)
        requires
            Self::nets_ok(nets, earlier),
            earlier.no_later_than(later),
        ensures
            Self::nets_ok(nets, later),
    {
        assert forall|i: int| 0 <= i < nets.len() implies (#[trigger] nets[i]).settled()
            && nets[i].genome().ids_below(later) by {
            lemma_ids_below_later(nets[i].genome(), earlier, later);
        }
    }

    /// Fills the population up to its size with genomes that are made with
    /// the shape of the population and mutated once. It stops before the
    /// size is reached only if identifiers run out.
    pub fn create_initial_population<W: WeightSource>(&mut self, weights: &mut W)
        requires
            old(self).wf(),
        ensures
            final(self).wf(),
            final(self).population_params == old(self).population_params,
            old(self).ids.no_later_than(final(self).ids),
            final(self).nets@.len() >= old(self).nets@.len(),
            forall|i: int|
                0 <= i < old(self).nets@.len() ==> #[trigger] final(self).nets@[i] == old(self).nets@[i],
            final(self).nets@.len() >= final(self).population_params.population_size
                || !final(self).can_make_net(),
            Self::all_welcome(old(self).nets@, old(self).ids, final(self).nets@),
            forall|i: int|
                old(self).nets@.len() <= i < final(self).nets@.len() ==> (
                #[trigger] final(self).nets@[i]).is_evaluation_order_up_to_date && final(self).nets@[i].fitness_info == Fit::unevaluated() && final(self).nets@[i].net_params
                    == final(self).population_params.net_params && final(self).nets@[i].newly_made(
                    final(self).population_params,
                ),
    {
        let params = self.population_params;
        let node_count = params.net_params.input_count + params.net_params.output_count;
        let mut room = true;
        while room && self.nets.len() < params.population_size
            invariant
                self.wf(),
                params == self.population_params,
                self.population_params == old(self).population_params,
                node_count == params.net_params.input_count + params.net_params.output_count,
                old(self).ids.no_later_than(self.ids),
                self.nets@.len() >= old(self).nets@.len(),
                forall|i: int|
                    0 <= i < old(self).nets@.len() ==> #[trigger] self.nets@[i] == old(self).nets@[i],
                !room ==> !self.can_make_net(),
                Self::all_welcome(old(self).nets@, old(self).ids, self.nets@),
                forall|i: int|
                    old(self).nets@.len() <= i < self.nets@.len() ==> (
                    #[trigger] self.nets@[i]).is_evaluation_order_up_to_date
                        && self.nets@[i].fitness_info == Fit::unevaluated()
                        && self.nets@[i].net_params == params.net_params
                        && self.nets@[i].newly_made(params),
            decreases
                    (if room {
                        1int
                    } else {
                        0int
                    }) + params.population_size - self.nets.len(),
        {
            if !(self.ids.next_net < usize::MAX && self.ids.check_room(node_count + 1, 3)) {
                room = false;
            } else {
                let ghost before = self.ids;
                let ghost nets = self.nets@;
                let mut net = Net::new(params.net_params, &mut self.ids);
                let ghost made = net.genome();
                let ghost mid = self.ids;
                proof {
                    Self::lemma_nets_ok_later(nets, before, mid);
                }
                net.mutate_self(&params.mutation_params, 1, weights, &mut self.ids);
                proof {
                    assert(net.newly_made(params)) by {
                        let plan = choose|plan: MutationPlan|
                            {
                                &&& made.plan_ok(plan)
                                &&& made.plan_allowed(plan, params.mutation_params, 1)
                                &&& #[trigger] net.genome().same_but_layers(made.mutated(plan, mid))
                                &&& self.ids == ids_after_plan(plan, mid)
                            };
                        assert(net.newly_made_by(params, net.id, before.next_node, mid, plan));
                    }
                    Self::lemma_nets_ok_later(nets, mid, self.ids);
                    assert forall|i: int| 0 <= i < nets.len() implies net.genome().compatible(
                        (#[trigger] nets[i]).genome(),
                    ) by {
                        let x = nets[i].genome();
                        assert(x.ids_below(before));
                        assert(made.compatible(x));
                        lemma_ids_below_later(x, before, mid);
                    }
                    Self::lemma_joined(nets, net, self.ids);
                    assert forall|x: Genome| #[trigger]
                        Self::welcomed(old(self).nets@, old(self).ids, x) implies net.genome().compatible(
                        x,
                    ) by {
                        lemma_ids_below_later(x, old(self).ids, before);
                        assert(made.compatible(x));
                        lemma_ids_below_later(x, before, mid);
                    }
                    Self::lemma_all_welcome_push(old(self).nets@, old(self).ids, nets, net);
                }
                self.nets.push(net);
            }
        }
    }

    /// Stores for every genome the fitness record that was found for it.
    pub fn evaluate_population(&mut self, fitnesses: &Vec<Fit>)
        requires
            old(self).wf(),
            fitnesses@.len() == old(self).nets@.len(),
        ensures
            final(self).wf(),
            final(self).population_params == old(self).population_params,
            final(self).ids == old(self).ids,
            final(self).nets@.len() == old(self).nets@.len(),
            forall|i: int|
                0 <= i < final(self).nets@.len() ==> (#[trigger] final(self).nets@[i])@ == (
                NetView { fitness_info: fitnesses@[i], ..old(self).nets@[i]@ }),
    {
        let n = self.nets.len();
        let mut i: usize = 0;
        while i < n
            invariant
                i <= n,
                n == self.nets@.len(),
                n == old(self).nets@.len(),
                fitnesses@.len() == n,
                self.wf(),
                self.population_params == old(self).population_params,
                self.ids == old(self).ids,
                forall|k: int|
                    0 <= k < i ==> (#[trigger] self.nets@[k])@ == (NetView {
                        fitness_info: fitnesses@[k],
                        ..old(self).nets@[k]@
                    }),
                forall|k: int| i <= k < n ==> #[trigger] self.nets@[k] == old(self).nets@[k],
            decreases n - i,
        {
            let ghost before = self.nets@;
            self.nets[i].fitness_info = fitnesses[i];
            proof {
                let after = self.nets@;
                assert(after[i as int].genome() == before[i as int].genome());
                assert(after[i as int].settled()) by {
                    assert(before[i as int].settled());
                }
                assert forall|a: int| 0 <= a < after.len() implies (#[trigger] after[a]).settled()
                    && after[a].genome().ids_below(self.ids) by {
                    if a != i {
                        assert(after[a] == before[a]);
                    }
                }
                assert forall|a: int, b: int| 0 <= a < after.len() && 0 <= b < after.len() implies (
                #[trigger] after[a]).genome().compatible((#[trigger] after[b]).genome()) by {
                    assert(after[a].genome() == before[a].genome());
                    assert(after[b].genome() == before[b].genome());
                    assert(before[a].genome().compatible(before[b].genome()));
                }
            }
            i += 1;
        }
    }

    /// Whether the next generation starts with the fittest of this one: its
    /// first genomes, four of them or as many as this generation has, are
    /// copies of the first of the ranking, in their order.
    pub open spec fn starts_with_elite(
        nets: Seq<Net<Fit>>,
        order: Seq<usize>,
        next: Seq<Net<Fit>>,
    ) -> bool {
        &&& next.len() >= nets.len() || next.len() >= ELITE_COUNT
        &&& forall|e: int|
            0 <= e < nets.len() && e < ELITE_COUNT ==> (#[trigger] next[e])@ == nets[order[e] as int]@
    }

    /// A quarter of a number, rounded to the nearest whole, a half up.
    pub fn quarter(n: usize) -> (q: usize)
        ensures
            q == (n + 2) / 4,
    {
        n / 4 + if n % 4 >= 2 {
            1
        } else {
            0
        }
    }

    /// Whether the genome `made` of the next generation came of the
    /// genomes `nets` of this one: it is a copy of one of them, or the
    /// mutated child of two of them.
    pub open spec fn came_of(
        nets: Seq<Net<Fit>>,
        made: &Net<Fit>,
        params: MutationParams,
        multiplier: u32,
    ) -> bool {
        ||| exists|a: int| 0 <= a < nets.len() && made@ == (#[trigger] nets[a])@
        ||| exists|a: int, b: int, ids: IdAllocator|
            0 <= a < nets.len() && 0 <= b < nets.len() && a != b && #[trigger] nets[a].descends(
                &nets[b],
                made,
                params,
                multiplier,
                ids,
            )
    }

    /// What holds of the next generation while it is being made: its
    /// genomes can live in one population, with each other and with those
    /// of this generation, and each came of this generation.
    pub open spec fn next_ok(
        nets: Seq<Net<Fit>>,
        next: Seq<Net<Fit>>,
        ids: IdAllocator,
        params: MutationParams,
        multiplier: u32,
    ) -> bool {
        &&& Self::nets_ok(nets, ids)
        &&& Self::nets_ok(next, ids)
        &&& forall|k: int, i: int|
            0 <= k < next.len() && 0 <= i < nets.len() ==> (#[trigger] next[k]).genome().compatible(
                (#[trigger] nets[i]).genome(),
            )
        &&& forall|k: int|
            0 <= k < next.len() ==> Self::came_of(nets, &#[trigger] next[k], params, multiplier)
    }

    /// A genome that came of this generation and is compatible with it and
    /// with what was made so far may be put at the end of what was made.
    pub proof fn lemma_next_joined(
        nets: Seq<Net<Fit>>,
        next: Seq<Net<Fit>>,
        made: Net<Fit>,
        ids: IdAllocator,
        params: MutationParams,
        multiplier: u32,
    )
        requires
            Self::next_ok(nets, next, ids, params, multiplier),
            Self::can_join(next, &made, ids),
            forall|i: int|
                0 <= i < nets.len() ==> made.genome().compatible((#[trigger] nets[i]).genome()),
            Self::came_of(nets, &made, params, multiplier),
        ensures
            Self::next_ok(nets, next.push(made), ids, params, multiplier),
    {
        Self::lemma_joined(next, made, ids);
        let all = next.push(made);
        assert forall|k: int| 0 <= k < all.len() implies Self::came_of(
            nets,
            &#[trigger] all[k],
            params,
            multiplier,
        ) by {
            if k < next.len() {
                assert(all[k] == next[k]);
            }
        }
        assert forall|k: int, i: int| 0 <= k < all.len() && 0 <= i < nets.len() implies (
        #[trigger] all[k]).genome().compatible((#[trigger] nets[i]).genome()) by {
            if k < next.len() {
                assert(all[k] == next[k]);
            }
        }
    }

    /// A copy of a genome of this generation may be put at the end of what
    /// was made so far.
    pub proof fn lemma_copy_joins(
        nets: Seq<Net<Fit>>,
        next: Seq<Net<Fit>>,
        copy: Net<Fit>,
        at: int,
        ids: IdAllocator,
        params: MutationParams,
        multiplier: u32,
    )
        requires
            Self::next_ok(nets, next, ids, params, multiplier),
            0 <= at < nets.len(),
            copy@ == nets[at]@,
            copy.wf(),
        ensures
            Self::next_ok(nets, next.push(copy), ids, params, multiplier),
    {
        assert(copy.genome() == nets[at].genome());
        assert(nets[at].settled());
        assert forall|i: int| 0 <= i < nets.len() implies copy.genome().compatible(
            (#[trigger] nets[i]).genome(),
        ) by {
            assert(nets[at].genome().compatible(nets[i].genome()));
        }
        assert forall|k: int| 0 <= k < next.len() implies copy.genome().compatible(
            (#[trigger] next[k]).genome(),
        ) by {
            assert(next[k].genome().compatible(nets[at].genome()));
            lemma_compatible_symmetric(next[k].genome(), nets[at].genome());
        }
        assert(Self::came_of(nets, &copy, params, multiplier));
        Self::lemma_next_joined(nets, next, copy, ids, params, multiplier);
    }

    /// What was made so far still stands when the allocator has handed out
    /// more.
    pub proof fn lemma_next_ok_later(
        nets: Seq<Net<Fit>>,
        next: Seq<Net<Fit>>,
        earlier: IdAllocator,
        later: IdAllocator,
        params: MutationParams,
        multiplier: u32,
    )
        requires
            Self::next_ok(nets, next, earlier, params, multiplier),
            earlier.no_later_than(later),
        ensures
            Self::next_ok(nets, next, later, params, multiplier),
    {
        Self::lemma_nets_ok_later(nets, earlier, later);
        Self::lemma_nets_ok_later(next, earlier, later);
    }

    /// What holds while the next generation `next` is made of the genomes
    /// `nets`, the allocator having stood at `start` at first and standing
    /// at `ids` now: what was made can live in one population with what it
    /// was made of, came of it, and agrees with every genome from outside
    /// that agreed with it.
    #[verifier::opaque]
    pub open spec fn making(
        nets: Seq<Net<Fit>>,
        start: IdAllocator,
        next: Seq<Net<Fit>>,
        ids: IdAllocator,
        params: MutationParams,
        multiplier: u32,
    ) -> bool {
        &&& Self::next_ok(nets, next, ids, params, multiplier)
        &&& Self::all_welcome(nets, start, next)
        &&& start.no_later_than(ids)
    }

    /// Before anything is made.
    pub proof fn lemma_making_starts(
        nets: Seq<Net<Fit>>,
        start: IdAllocator,
        params: MutationParams,
        multiplier: u32,
    )
        requires
            Self::nets_ok(nets, start),
        ensures
            Self::making(nets, start, Seq::empty(), start, params, multiplier),
    {
        reveal(Population::making);
    }

    /// A copy of a genome of this generation may be put at the end of what
    /// was made so far.
    pub proof fn lemma_making_copy(
        nets: Seq<Net<Fit>>,
        start: IdAllocator,
        next: Seq<Net<Fit>>,
        ids: IdAllocator,
        params: MutationParams,
        multiplier: u32,
        copy: Net<Fit>,
        at: int,
    )
        requires
            Self::making(nets, start, next, ids, params, multiplier),
            0 <= at < nets.len(),
            copy@ == nets[at]@,
            copy.wf(),
        ensures
            Self::making(nets, start, next.push(copy), ids, params, multiplier),
    {
        reveal(Population::making);
        assert forall|x: Genome| #[trigger]
            Self::welcomed(nets, start, x) implies copy.genome().compatible(x) by {
            assert(nets[at].genome().compatible(x));
        }
        Self::lemma_all_welcome_push(nets, start, next, copy);
        Self::lemma_copy_joins(nets, next, copy, at, ids, params, multiplier);
    }

    /// Two genomes of this generation can be crossed.
    pub proof fn lemma_making_parents(
        nets: Seq<Net<Fit>>,
        start: IdAllocator,
        next: Seq<Net<Fit>>,
        ids: IdAllocator,
        params: MutationParams,
        multiplier: u32,
        a: int,
        b: int,
    )
        requires
            Self::making(nets, start, next, ids, params, multiplier),
            0 <= a < nets.len(),
            0 <= b < nets.len(),
        ensures
            nets[a].wf(),
            nets[b].wf(),
            nets[a].genome().compatible(nets[b].genome()),
            nets[a].genome().ids_below(ids),
            nets[b].genome().ids_below(ids),
    {
        reveal(Population::making);
        assert(nets[a].settled() && nets[b].settled());
    }

    /// The mutated child of two genomes of this generation may be put at
    /// the end of what was made so far.
    pub proof fn lemma_making_child(
        nets: Seq<Net<Fit>>,
        start: IdAllocator,
        next: Seq<Net<Fit>>,
        before: IdAllocator,
        ids: IdAllocator,
        params: MutationParams,
        multiplier: u32,
        child: Net<Fit>,
        a: int,
        b: int,
    )
        requires
            Self::making(nets, start, next, before, params, multiplier),
            0 <= a < nets.len(),
            0 <= b < nets.len(),
            a != b,
            before.no_later_than(ids),
            child.settled(),
            child.genome().ids_below(ids),
            nets[a].descends(&nets[b], &child, params, multiplier, before),
            forall|x: Genome|
                #![trigger child.genome().compatible(x)]
                nets[a].genome().compatible(x) && nets[b].genome().compatible(x) && x.ids_below(
                    before,
                ) ==> child.genome().compatible(x),
        ensures
            Self::making(nets, start, next.push(child), ids, params, multiplier),
    {
        reveal(Population::making);
        Self::lemma_next_ok_later(nets, next, before, ids, params, multiplier);
        assert forall|i: int| 0 <= i < nets.len() implies child.genome().compatible(
            (#[trigger] nets[i]).genome(),
        ) by {
            let x = nets[i].genome();
            assert(nets[a].genome().compatible(x));
            assert(nets[b].genome().compatible(x));
            assert(x.ids_below(before));
        }
        assert forall|k: int| 0 <= k < next.len() implies child.genome().compatible(
            (#[trigger] next[k]).genome(),
        ) by {
            let x = next[k].genome();
            assert(next[k].genome().compatible(nets[a].genome()));
            assert(next[k].genome().compatible(nets[b].genome()));
            lemma_compatible_symmetric(x, nets[a].genome());
            lemma_compatible_symmetric(x, nets[b].genome());
            assert(x.ids_below(before));
        }
        assert(Self::came_of(nets, &child, params, multiplier));
        Self::lemma_next_joined(nets, next, child, ids, params, multiplier);
        assert forall|x: Genome| #[trigger]
            Self::welcomed(nets, start, x) implies child.genome().compatible(x) by {
            assert(nets[a].genome().compatible(x));
            assert(nets[b].genome().compatible(x));
            lemma_ids_below_later(x, start, before);
        }
        Self::lemma_all_welcome_push(nets, start, next, child);
    }

    /// Once the next generation is made.
    pub proof fn lemma_making_done(
        nets: Seq<Net<Fit>>,
        start: IdAllocator,
        next: Seq<Net<Fit>>,
        ids: IdAllocator,
        params: MutationParams,
        multiplier: u32,
    )
        requires
            Self::making(nets, start, next, ids, params, multiplier),
        ensures
            Self::nets_ok(next, ids),
            Self::all_welcome(nets, start, next),
            start.no_later_than(ids),
            forall|k: int|
                0 <= k < next.len() ==> Self::came_of(nets, &#[trigger] next[k], params, multiplier),
    {
        reveal(Population::making);
    }

    /// Makes the next generation. The genomes are ranked from the fittest
    /// down. The first four go over unchanged. Then genomes are drawn with
    /// a bias to the fittest and go over unchanged, unless a genome of the
    /// same identity went over already, until a quarter of the population
    /// size has gone over this way. The rest of the population is filled
    /// with the mutated children of pairs drawn with the same bias, a
    /// genome never paired with itself. A phase gives up when it has drawn
    /// twenty times for every genome of the population, and the last when
    /// identifiers run out.
    pub fn create_next_generation<W: WeightSource>(
        &mut self,
        mutation_multiplier: u32,
        weights: &mut W,
    )
        requires
            old(self).wf(),
        ensures
            final(self).wf(),
            final(self).population_params == old(self).population_params,
            old(self).ids.no_later_than(final(self).ids),
            old(self).nets@.len() > 0 ==> final(self).nets@.len() > 0 && exists|b: int|
                0 <= b < old(self).nets@.len() && #[trigger] Self::is_fittest(old(self).nets@, b)
                    && final(self).nets@[0]@ == old(self).nets@[b]@,
            exists|order: Seq<usize>| #[trigger]
                Self::is_ranking(old(self).nets@, order) && Self::starts_with_elite(
                    old(self).nets@,
                    order,
                    final(self).nets@,
                ),
            forall|k: int|
                0 <= k < final(self).nets@.len() ==> Self::came_of(
                    old(self).nets@,
                    &#[trigger] final(self).nets@[k],
                    old(self).population_params.mutation_params,
                    mutation_multiplier,
                ),
            final(self).nets@.len() <= old(self).population_params.population_size
                || final(self).nets@.len() <= ELITE_COUNT,
            Self::all_welcome(old(self).nets@, old(self).ids, final(self).nets@),
    {
        let params = self.population_params;
        let n = self.nets.len();
        let order = self.ranking();
        let ghost nets = self.nets@;
        let mut ids = self.ids;
        let mut nets_already_chosen = IdSet::with_capacity(n);
        let mut nets_new: Vec<Net<Fit>> = Vec::with_capacity(n);

        proof {
            Self::lemma_making_starts(nets, self.ids, params.mutation_params, mutation_multiplier);
        }

        // The fittest go over as they are.
        let elite = if n < ELITE_COUNT {
            n
        } else {
            ELITE_COUNT
        };
        let mut e: usize = 0;
        while e < elite
            invariant
                e <= elite,
                elite <= n,
                elite <= ELITE_COUNT,
                n == self.nets.len(),
                nets == self.nets@,
                ids == self.ids,
                Self::is_ranking(nets, order@),
                nets_new.len() == e,
                forall|x: int| 0 <= x < e ==> (#[trigger] nets_new@[x])@ == nets[order@[x] as int]@,
                Self::making(
                    nets,
                    self.ids,
                    nets_new@,
                    ids,
                    params.mutation_params,
                    mutation_multiplier,
                ),
            decreases elite - e,
        {
            let at = order[e];
            let copy = self.nets[at].clone();
            proof {
                Self::lemma_making_parents(
                    nets,
                    self.ids,
                    nets_new@,
                    ids,
                    params.mutation_params,
                    mutation_multiplier,
                    at as int,
                    at as int,
                );
                Self::lemma_making_copy(
                    nets,
                    self.ids,
                    nets_new@,
                    ids,
                    params.mutation_params,
                    mutation_multiplier,
                    copy,
                    at as int,
                );
            }
            nets_already_chosen.insert(self.nets[at].id.0);
            nets_new.push(copy);
            e += 1;
        }

        // A quarter of the population is drawn from the old one, the fitter the likelier.
        let percent_25 = Self::quarter(params.population_size);
        let target = ELITE_COUNT + percent_25;
        let limit = if params.population_size <= usize::MAX / DRAWS_PER_NET {
            params.population_size * DRAWS_PER_NET
        } else {
            usize::MAX
        };
        let mut draws: usize = 0;
        while n > 0 && nets_new.len() < target && nets_new.len() < params.population_size && draws
            < limit
            invariant
                draws <= limit,
                n == self.nets.len(),
                nets == self.nets@,
                ids == self.ids,
                Self::is_ranking(nets, order@),
                Self::making(
                    nets,
                    self.ids,
                    nets_new@,
                    ids,
                    params.mutation_params,
                    mutation_multiplier,
                ),
                nets_new.len() >= elite,
                elite == if n < ELITE_COUNT { n } else { ELITE_COUNT },
                forall|x: int|
                    0 <= x < elite ==> (#[trigger] nets_new@[x])@ == nets[order@[x] as int]@,
                nets_new.len() <= params.population_size || nets_new.len() <= ELITE_COUNT,
            decreases limit - draws,
        {
            draws += 1;
            let at = order[self.choose_ranked()];
            if !nets_already_chosen.contains(self.nets[at].id.0) {
                let copy = self.nets[at].clone();
                proof {
                    Self::lemma_making_parents(
                        nets,
                        self.ids,
                        nets_new@,
                        ids,
                        params.mutation_params,
                        mutation_multiplier,
                        at as int,
                        at as int,
                    );
                    Self::lemma_making_copy(
                        nets,
                        self.ids,
                        nets_new@,
                        ids,
                        params.mutation_params,
                        mutation_multiplier,
                        copy,
                        at as int,
                    );
                }
                nets_already_chosen.insert(self.nets[at].id.0);
                nets_new.push(copy);
            }
        }

        // The rest are the children of pairs drawn the same way.
        let mut draws: usize = 0;
        let mut room = true;
        while room && n > 0 && nets_new.len() < params.population_size && draws < limit
            invariant
                draws <= limit,
                n == self.nets.len(),
                nets == self.nets@,
                Self::is_ranking(nets, order@),
                Self::making(
                    nets,
                    self.ids,
                    nets_new@,
                    ids,
                    params.mutation_params,
                    mutation_multiplier,
                ),
                nets_new.len() >= elite,
                elite == if n < ELITE_COUNT { n } else { ELITE_COUNT },
                forall|x: int|
                    0 <= x < elite ==> (#[trigger] nets_new@[x])@ == nets[order@[x] as int]@,
                nets_new.len() <= params.population_size || nets_new.len() <= ELITE_COUNT,
            decreases limit - draws,
        {
            draws += 1;
            let a = order[self.choose_ranked()];
            let b = order[self.choose_ranked()];
            if a != b {
                if !(ids.next_net < usize::MAX && ids.check_room(1, 3)) {
                    room = false;
                } else {
                    let ghost before = ids;
                    proof {
                        Self::lemma_making_parents(
                            nets,
                            self.ids,
                            nets_new@,
                            ids,
                            params.mutation_params,
                            mutation_multiplier,
                            a as int,
                            b as int,
                        );
                    }
                    let child = self.nets[a].cross_into_new_net(
                        &self.nets[b],
                        &params.mutation_params,
                        mutation_multiplier,
                        weights,
                        &mut ids,
                    );
                    proof {
                        Self::lemma_making_child(
                            nets,
                            self.ids,
                            nets_new@,
                            before,
                            ids,
                            params.mutation_params,
                            mutation_multiplier,
                            child,
                            a as int,
                            b as int,
                        );
                    }
                    nets_new.push(child);
                }
            }
        }
        proof {
            if n > 0 {
                lemma_ranking_starts_with_fittest(nets, order@);
            }
            assert(Self::starts_with_elite(nets, order@, nets_new@));
            Self::lemma_making_done(
                nets,
                self.ids,
                nets_new@,
                ids,
                params.mutation_params,
                mutation_multiplier,
            );
        }
        self.nets = nets_new;
        self.ids = ids;
    }
}

/// The genomes among the first `upto` of a list that are marked to be kept,
/// in their order.
pub open spec fn selected<Fit: FitnessInfo>(nets: Seq<Net<Fit>>, keep: Seq<bool>, upto: int) -> Seq<
    Net<Fit>,
>
    decreases upto,
{
    if upto <= 0 {
        Seq::empty()
    } else if keep[upto - 1] {
        selected(nets, keep, upto - 1).push(nets[upto - 1])
    } else {
        selected(nets, keep, upto - 1)
    }
}

/// Every genome that is kept is one of the list.
pub proof fn lemma_selected_from<Fit: FitnessInfo>(nets: Seq<Net<Fit>>, keep: Seq<bool>, upto: int)
    requires
        0 <= upto <= nets.len(),
    ensures
        selected(nets, keep, upto).len() <= upto,
        forall|k: int|
            0 <= k < selected(nets, keep, upto).len() ==> exists|j: int|
                0 <= j < upto && keep[j] && #[trigger] nets[j] == #[trigger] selected(
                    nets,
                    keep,
                    upto,
                )[k],
    decreases upto,
{
    if upto > 0 {
        lemma_selected_from(nets, keep, upto - 1);
        let before = selected(nets, keep, upto - 1);
        let after = selected(nets, keep, upto);
        assert forall|k: int| 0 <= k < after.len() implies exists|j: int|
            0 <= j < upto && keep[j] && #[trigger] nets[j] == #[trigger] after[k] by {
            if k < before.len() {
                let j = choose|j: int|
                    0 <= j < upto - 1 && keep[j] && #[trigger] nets[j] == #[trigger] before[k];
                assert(after[k] == before[k]);
                assert(nets[j] == after[k]);
            } else {
                assert(nets[upto - 1] == after[k]);
            }
        }
    }
}

impl<Fit: FitnessInfo> Population<Fit> {
    /// Keeps the genomes that are marked and drops the others.
    pub fn retain_marked(&mut self, keep: &Vec<bool>)
        requires
            old(self).wf(),
            keep@.len() == old(self).nets@.len(),
        ensures
            final(self).wf(),
            final(self).nets@ == selected(old(self).nets@, keep@, old(self).nets@.len() as int),
            final(self).population_params == old(self).population_params,
            final(self).ids == old(self).ids,
            Self::all_welcome(old(self).nets@, old(self).ids, final(self).nets@),
    {
        let ghost nets = self.nets@;
        let n = self.nets.len();
        let mut reversed: Vec<Net<Fit>> = Vec::with_capacity(n);
        while self.nets.len() > 0
            invariant
                self.nets@.len() + reversed@.len() == n,
                n == nets.len(),
                self.population_params == old(self).population_params,
                self.ids == old(self).ids,
                forall|k: int| 0 <= k < self.nets@.len() ==> #[trigger] self.nets@[k] == nets[k],
                forall|k: int| 0 <= k < reversed@.len() ==> #[trigger] reversed@[k] == nets[n - 1 - k],
            decreases self.nets@.len(),
        {
            let net = self.nets.pop().unwrap();
            reversed.push(net);
        }
        let mut i: usize = 0;
        while reversed.len() > 0
            invariant
                i + reversed@.len() == n,
                n == nets.len(),
                keep@.len() == n,
                self.population_params == old(self).population_params,
                self.ids == old(self).ids,
                forall|k: int| 0 <= k < reversed@.len() ==> #[trigger] reversed@[k] == nets[n - 1 - k],
                self.nets@ == selected(nets, keep@, i as int),
            decreases reversed@.len(),
        {
            let net = reversed.pop().unwrap();
            assert(net == nets[i as int]);
            if keep[i] {
                self.nets.push(net);
            }
            i += 1;
        }
        proof {
            let kept = self.nets@;
            lemma_selected_from(nets, keep@, n as int);
            assert forall|a: int| 0 <= a < kept.len() implies (#[trigger] kept[a]).settled()
                && kept[a].genome().ids_below(self.ids) by {
                let j = choose|j: int| 0 <= j < n && keep@[j] && #[trigger] nets[j] == kept[a];
                assert(nets[j].settled());
            }
            assert forall|a: int, b: int| 0 <= a < kept.len() && 0 <= b < kept.len() implies (
            #[trigger] kept[a]).genome().compatible((#[trigger] kept[b]).genome()) by {
                let j = choose|j: int| 0 <= j < n && keep@[j] && #[trigger] nets[j] == kept[a];
                let l = choose|l: int| 0 <= l < n && keep@[l] && #[trigger] nets[l] == kept[b];
                assert(nets[j].genome().compatible(nets[l].genome()));
            }
            assert forall|x: Genome, k: int|
                #![trigger Self::welcomed(nets, old(self).ids, x), kept[k]]
                Self::welcomed(nets, old(self).ids, x) && 0 <= k < kept.len() implies kept[k].genome().compatible(
                x,
            ) by {
                let j = choose|j: int| 0 <= j < n && keep@[j] && #[trigger] nets[j] == kept[k];
                assert(nets[j].genome().compatible(x));
            }
        }
    }
}

} // verus!

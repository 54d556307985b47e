//! The long run: eras, the stash of record holders, and the events that
//! shake a population that no longer improves.
//!
//! A run counts the generations since a genome last set a record. Every
//! two hundred of them make an era. In the first half of an era the fitness
//! is computed in a way that rotates with the era; at the start of an era an
//! event may strike the whole population.
//!
//! Playing the game and computing a fitness from it is arithmetic on real
//! numbers and is left to the caller. The records kept here are whole
//! numbers: the caller scales what it has computed.

use crate::chance::coin;
use crate::neural_net::crossing::lemma_compatible_symmetric;
use crate::neural_net::generations::selected;
use crate::neural_net::kinship::lemma_compatible_self;
use crate::neural_net::nets::{MutationParams, Net, NetParams, NetView};
use crate::neural_net::populations::{FitnessInfo, Population, PopulationParams};
use crate::snake_game::{Direction, SnakeGame};
use vstd::prelude::*;

verus! {

/// How many generations make an era.
pub const ERA_SIZE: usize = 200;

/// How many generations at the start of an era have a fitness of their own.
pub const ERA_FIRST_PORTION_SIZE: usize = 100;

/// How many inputs a network that plays the game has: the distance to the
/// wall and to the snake in four directions, the offset of the apple in two,
/// the length of the snake, and a constant.
pub const NUM_INPUTS: usize = 12;

/// How many outputs a network that plays the game has: one for each
/// direction.
pub const NUM_OUTPUTS: usize = 4;

/// The fitness of a genome that was not evaluated yet.
pub const UNEVALUATED: i64 = i64::MIN;

/// How a game is turned into a fitness.
#[derive(Copy, Clone, PartialEq, Eq, Debug, Structural)]
pub enum EraFitness {
    Normal,
    FavorVisits,
    FavorMoves,
}

/// Where a generation stands in the eras since the last record.
#[derive(Copy, Clone, Debug)]
pub struct EraInfo {
    /// How many generations ago the last record was set.
    pub generations: usize,
    /// How many whole eras have gone by since.
    pub eras: usize,
    pub is_era_boundary: bool,
    pub is_end_special_fitness: bool,
    pub fitness_kind: EraFitness,
}

/// How one genome did, in whole numbers that the caller has scaled.
#[derive(Copy, Clone, Debug)]
pub struct MyFitnessInfo {
    pub fitness: i64,
    pub apples: u64,
    pub visited: u64,
    pub moves: u64,
}

impl FitnessInfo for MyFitnessInfo {
    open spec fn fitness(&self) -> i64 {
        self.fitness
    }

    open spec fn unevaluated() -> MyFitnessInfo {
        MyFitnessInfo { fitness: UNEVALUATED, apples: 0, visited: 0, moves: 0 }
    }

    fn get_fitness(&self) -> (r: i64) {
        self.fitness
    }

    fn set_fitness(&mut self, new: i64) {
        self.fitness = new;
    }

    fn new_unevaluated() -> (r: MyFitnessInfo) {
        MyFitnessInfo { fitness: UNEVALUATED, apples: 0, visited: 0, moves: 0 }
    }
}

impl Default for MyFitnessInfo {
    fn default() -> (info: MyFitnessInfo)
        ensures
            info == <MyFitnessInfo as FitnessInfo>::unevaluated(),
    {
        MyFitnessInfo { fitness: UNEVALUATED, apples: 0, visited: 0, moves: 0 }
    }
}

/// What a run is made with.
#[derive(Copy, Clone, Debug)]
pub struct MyMetaParams {
    pub max_generations: usize,
    pub games_per_net: usize,
    pub generations_between_events: usize,
    pub meta: PopulationParams,
}

/// A genome that set a record, as it was then, and the generation in which
/// it did.
pub struct StashInfo {
    pub net: Net<MyFitnessInfo>,
    pub generation: usize,
}

/// A run.
pub struct NnPlaysSnake {
    pub my_meta: MyMetaParams,
    pub population: Population<MyFitnessInfo>,
    /// The record.
    pub max_info: MyFitnessInfo,
    /// Every genome that set a record, the latest last.
    pub stashed_nets: Vec<StashInfo>,
}

/// The fitness of a generation that lies `gens_since_max` generations and
/// `eras` eras after the last record: in the second half of an era the
/// normal one, in the first half the one the era calls for.
pub open spec fn era_fitness(eras: int, gens_since_max: int) -> EraFitness {
    if gens_since_max % (ERA_SIZE as int) >= ERA_FIRST_PORTION_SIZE {
        EraFitness::Normal
    } else if eras % 3 == 0 {
        EraFitness::Normal
    } else if eras % 3 == 1 {
        EraFitness::FavorVisits
    } else {
        EraFitness::FavorMoves
    }
}

/// Where a generation stands that lies `gens_since_max` generations after
/// the last record.
pub open spec fn era_of(gens_since_max: int) -> EraInfo {
    EraInfo {
        generations: gens_since_max as usize,
        eras: (gens_since_max / (ERA_SIZE as int)) as usize,
        is_era_boundary: gens_since_max % (ERA_SIZE as int) == 0,
        is_end_special_fitness: gens_since_max % (ERA_SIZE as int) == ERA_FIRST_PORTION_SIZE,
        fitness_kind: era_fitness(gens_since_max / (ERA_SIZE as int), gens_since_max),
    }
}

/// The place of the first of the greatest values, if that is above the
/// least value there is; else 0.
pub open spec fn first_greatest(values: Seq<i64>, upto: int) -> int
    decreases upto,
{
    if upto <= 0 {
        0
    } else {
        let before = first_greatest(values, upto - 1);
        if values[upto - 1] > greatest(values, upto - 1) {
            upto - 1
        } else {
            before
        }
    }
}

/// The greatest of the first `upto` values, and the least value there is
/// where there is none.
pub open spec fn greatest(values: Seq<i64>, upto: int) -> i64
    decreases upto,
{
    if upto <= 0 {
        i64::MIN
    } else if values[upto - 1] > greatest(values, upto - 1) {
        values[upto - 1]
    } else {
        greatest(values, upto - 1)
    }
}

/// The greatest value is at least every value, and the first of the
/// greatest is where it stands, before every other value as great.
pub proof fn law_first_of_the_greatest(values: Seq<i64>, upto: int)
    requires
        0 <= upto <= values.len(),
    ensures
        forall|k: int| 0 <= k < upto ==> #[trigger] values[k] <= greatest(values, upto),
        0 <= first_greatest(values, upto),
        upto > 0 ==> first_greatest(values, upto) < upto,
        greatest(values, upto) > i64::MIN ==> values[first_greatest(values, upto)] == greatest(
            values,
            upto,
        ),
        greatest(values, upto) == i64::MIN ==> first_greatest(values, upto) == 0,
        forall|k: int|
            0 <= k < first_greatest(values, upto) ==> #[trigger] values[k] < greatest(values, upto),
    decreases upto,
{
    if upto > 0 {
        law_first_of_the_greatest(values, upto - 1);
    }
}

/// The direction that four outputs call for: the one whose output is the
/// greatest, the first of them if several are; north if no output is above
/// the least value there is.
pub fn interpret_outputs(outputs: &[i64]) -> (direction: Direction)
    requires
        outputs@.len() == NUM_OUTPUTS,
    ensures
        direction == Direction::at(first_greatest(outputs@, NUM_OUTPUTS as int)),
{
    let mut i_max: usize = 0;
    let mut v_max: i64 = i64::MIN;
    let mut i: usize = 0;
    while i < 4
        invariant
            i <= 4,
            outputs@.len() == 4,
            i_max == first_greatest(outputs@, i as int),
            v_max == greatest(outputs@, i as int),
            i_max < 4,
        decreases 4 - i,
    {
        if outputs[i] > v_max {
            v_max = outputs[i];
            i_max = i;
        }
        i += 1;
    }
    Direction::from_index(i_max)
}

/// How many moves a game is given: five hundred, one for every cell the
/// snake came to anew, and six for every apple it ate.
pub open spec fn move_budget(points_visited: usize, apples_eaten: usize) -> int {
    500 + points_visited + apples_eaten * (1 + SnakeGame::GROW_INCREMENT)
}

/// Whether a game has gone on for more moves than it is given.
pub fn is_out_of_moves(moves: usize, points_visited: usize, apples_eaten: usize) -> (out: bool)
    ensures
        out == (moves > move_budget(points_visited, apples_eaten)),
{
    let budget: u128 = 500 + points_visited as u128 + (apples_eaten as u128) * 6;
    moves as u128 > budget
}

impl NnPlaysSnake {
    /// What a run is made with unless told otherwise: ten thousand genomes
    /// of twelve inputs and four outputs, two games for a genome, and the
    /// usual probabilities.
    pub fn default_params() -> (params: MyMetaParams)
        ensures
            params.meta.net_params.input_count == NUM_INPUTS,
            params.meta.net_params.output_count == NUM_OUTPUTS,
            params.meta.population_size == 10_000,
    {
        MyMetaParams {
            max_generations: 100_000,
            games_per_net: 2,
            generations_between_events: 25,
            meta: PopulationParams {
                population_size: 10_000,
                net_params: NetParams {
                    input_count: NUM_INPUTS,
                    input_names: None,
                    output_count: NUM_OUTPUTS,
                    output_names: None,
                },
                mutation_params: MutationParams {
                    prob_add_connection: 50_000,
                    prob_add_node: 30_000,
                    prob_mutate_activation_function_of_node: 20_000,
                    prob_mutate_weight: 800_000,
                    max_weight_change_magnitude: 0x3DCC_CCCD,
                    prob_toggle_enabled: 25_000,
                    prob_remove_connection: 0,
                    prob_remove_node: 0,
                },
            },
        }
    }

    /// A run that has not begun.
    #[allow(clippy::new_without_default)]
    pub fn new() -> (run: NnPlaysSnake)
        ensures
            run.wf(),
            run.population.nets@.len() == 0,
            run.stashed_nets@.len() == 0,
            run.max_info == <MyFitnessInfo as FitnessInfo>::unevaluated(),
    {
        let my_meta = Self::default_params();
        Self {
            my_meta,
            population: Population::new(my_meta.meta),
            max_info: MyFitnessInfo::new_unevaluated(),
            stashed_nets: Vec::new(),
        }
    }

    /// The genomes of the stash.
    pub open spec fn stash(&self) -> Seq<Net<MyFitnessInfo>> {
        self.stashed_nets@.map_values(|entry: StashInfo| entry.net)
    }

    /// The run is well formed: so is its population, and the genomes of
    /// the stash are settled and agree with each other and with the genomes
    /// of the population on what a gene means.
    pub open spec fn wf(&self) -> bool {
        &&& self.population.wf()
        &&& forall|s: int|
            0 <= s < self.stashed_nets@.len() ==> {
                &&& (#[trigger] self.stashed_nets@[s]).net.settled()
                &&& self.population.welcomes(self.stashed_nets@[s].net.genome())
            }
        &&& forall|s: int, t: int|
            0 <= s < self.stashed_nets@.len() && 0 <= t < self.stashed_nets@.len() ==> (
            #[trigger] self.stashed_nets@[s]).net.genome().compatible(
                (#[trigger] self.stashed_nets@[t]).net.genome(),
            )
    }

    /// The generation of the last record, and 0 where there is none.
    pub open spec fn generation_of_max(&self) -> usize {
        if self.stashed_nets@.len() == 0 {
            0
        } else {
            self.stashed_nets@.last().generation
        }
    }

    fn compute_era_fitness(eras: usize, gens_since_max: usize) -> (kind: EraFitness)
        ensures
            kind == era_fitness(eras as int, gens_since_max as int),
    {
        if (gens_since_max % ERA_SIZE) >= ERA_FIRST_PORTION_SIZE {
            return EraFitness::Normal;
        }
        let turn = eras % 3;
        if turn == 0 {
            EraFitness::Normal
        } else if turn == 1 {
            EraFitness::FavorVisits
        } else {
            EraFitness::FavorMoves
        }
    }

    /// Where a generation stands in the eras since the last record.
    pub fn eras_since_last_max(&self, generation: usize) -> (info: EraInfo)
        requires
            generation >= self.generation_of_max(),
        ensures
            info == era_of(generation - self.generation_of_max()),
    {
        let generation_of_max = if self.stashed_nets.len() == 0 {
            0
        } else {
            self.stashed_nets[self.stashed_nets.len() - 1].generation
        };
        let gens_since_max = generation - generation_of_max;
        let eras = gens_since_max / ERA_SIZE;
        EraInfo {
            generations: gens_since_max,
            eras,
            is_era_boundary: (gens_since_max % ERA_SIZE) == 0,
            is_end_special_fitness: (gens_since_max % ERA_SIZE) == ERA_FIRST_PORTION_SIZE,
            fitness_kind: Self::compute_era_fitness(eras, gens_since_max),
        }
    }

    /// By how much the probabilities of mutation are multiplied: one more
    /// than the eras gone by, and no more than fits.
    pub fn mutation_multiplier(era_info: &EraInfo) -> (multiplier: u32)
        ensures
            multiplier == if era_info.eras < u32::MAX {
                era_info.eras + 1
            } else {
                u32::MAX as int
            },
    {
        if era_info.eras < u32::MAX as usize {
            (era_info.eras + 1) as u32
        } else {
            u32::MAX
        }
    }

    /// Whether a genome has to be evaluated: it has if it was not evaluated
    /// yet, and at the start of an era, where the fitness may be another.
    pub fn needs_evaluation(net: &Net<MyFitnessInfo>, era_info: &EraInfo) -> (needed: bool)
        ensures
            needed == (net.fitness_info.fitness == UNEVALUATED || era_info.is_era_boundary),
    {
        net.fitness_info.fitness == UNEVALUATED || era_info.is_era_boundary
    }

    /// Stores the fitness record that was found for a genome of the
    /// population. If it beats the record, and the generation is not the
    /// first, it is the new record, and a copy of the genome goes to the
    /// stash with the generation. Tells whether a record was set.
    pub fn record_fitness(&mut self, index: usize, generation: usize, info: MyFitnessInfo) -> (is_record:
        bool)
        requires
            old(self).wf(),
            index < old(self).population.nets@.len(),
        ensures
            final(self).wf(),
            is_record == (generation != 0 && old(self).max_info.fitness < info.fitness),
            final(self).max_info == if is_record {
                info
            } else {
                old(self).max_info
            },
            final(self).my_meta == old(self).my_meta,
            final(self).population.population_params == old(self).population.population_params,
            final(self).population.ids == old(self).population.ids,
            final(self).population.nets@.len() == old(self).population.nets@.len(),
            forall|i: int|
                0 <= i < final(self).population.nets@.len() && i != index ==> #[trigger] final(self).population.nets@[i] == old(self).population.nets@[i],
            final(self).population.nets@[index as int]@ == (NetView {
                fitness_info: info,
                ..old(self).population.nets@[index as int]@
            }),
            is_record ==> final(self).stashed_nets@.len() == old(self).stashed_nets@.len() + 1
                && final(self).stashed_nets@.last().generation == generation && final(self).stashed_nets@.last().net@ == final(self).population.nets@[index as int]@,
            !is_record ==> final(self).stashed_nets@ == old(self).stashed_nets@,
            forall|s: int|
                0 <= s < old(self).stashed_nets@.len() ==> #[trigger] final(self).stashed_nets@[s]
                    == old(self).stashed_nets@[s],
    {
        let ghost nets = self.population.nets@;
        let ghost stash = self.stashed_nets@;
        self.population.nets[index].fitness_info = info;
        proof {
            let after = self.population.nets@;
            assert(after[index as int].genome() == nets[index as int].genome());
            assert(nets[index as int].settled());
            assert forall|a: int| 0 <= a < after.len() implies after[a].genome() == nets[a].genome()
                && (#[trigger] after[a]).settled() by {
                if a != index {
                    assert(after[a] == nets[a]);
                }
                assert(nets[a].settled());
            }
            assert forall|a: int, b: int| 0 <= a < after.len() && 0 <= b < after.len() implies (
            #[trigger] after[a]).genome().compatible((#[trigger] after[b]).genome()) by {
                assert(nets[a].genome().compatible(nets[b].genome()));
            }
            assert forall|a: int| 0 <= a < after.len() implies (#[trigger] after[a]).settled()
                && after[a].genome().ids_below(self.population.ids) by {
                assert(nets[a].genome().ids_below(self.population.ids));
            }
            assert forall|s: int| 0 <= s < stash.len() implies self.population.welcomes(
                (#[trigger] stash[s]).net.genome(),
            ) by {
                let x = stash[s].net.genome();
                assert(old(self).population.welcomes(x));
                assert forall|i: int| 0 <= i < after.len() implies (
                #[trigger] after[i]).genome().compatible(x) by {
                    assert(nets[i].genome().compatible(x));
                }
            }
        }
        if generation != 0 && self.max_info.fitness < info.fitness {
            self.max_info = info;
            let copy = self.population.nets[index].clone();
            proof {
                let after = self.population.nets@;
                let x = copy.genome();
                assert(x == after[index as int].genome());
                lemma_compatible_self(x);
                assert forall|i: int| 0 <= i < after.len() implies (
                #[trigger] after[i]).genome().compatible(x) by {
                    assert(after[i].genome().compatible(after[index as int].genome()));
                }
                assert forall|s: int| 0 <= s < stash.len() implies x.compatible(
                    (#[trigger] stash[s]).net.genome(),
                ) && stash[s].net.genome().compatible(x) by {
                    let y = stash[s].net.genome();
                    assert(self.population.welcomes(y));
                    assert(after[index as int].genome().compatible(y));
                    lemma_compatible_symmetric(x, y);
                }
            }
            self.stashed_nets.push(StashInfo { net: copy, generation });
            true
        } else {
            false
        }
    }

    /// Whether the run is as it was before.
    pub open spec fn unchanged(&self, before: &NnPlaysSnake) -> bool {
        &&& self.my_meta == before.my_meta
        &&& self.max_info == before.max_info
        &&& self.stashed_nets@ == before.stashed_nets@
        &&& self.population.population_params == before.population.population_params
        &&& self.population.ids == before.population.ids
        &&& self.population.nets@ == before.population.nets@
    }

    /// Whether the run is as it was but for copies of the genomes of the
    /// stash at the end of the population, the oldest record holder first.
    pub open spec fn resurrected(&self, before: &NnPlaysSnake) -> bool {
        &&& self.my_meta == before.my_meta
        &&& self.max_info == before.max_info
        &&& self.stashed_nets@ == before.stashed_nets@
        &&& self.population.population_params == before.population.population_params
        &&& self.population.ids == before.population.ids
        &&& self.population.nets@.len() == before.population.nets@.len()
            + before.stashed_nets@.len()
        &&& forall|i: int|
            0 <= i < before.population.nets@.len() ==> #[trigger] self.population.nets@[i]
                == before.population.nets@[i]
        &&& forall|s: int|
            0 <= s < before.stashed_nets@.len() ==> (
            #[trigger] self.population.nets@[before.population.nets@.len() + s])@
                == before.stashed_nets@[s].net@
    }

    /// Whether an era calls for the record holders to come back first: it
    /// does at its start if its fitness is the normal one, but for the time
    /// before the first era has gone by.
    pub open spec fn calls_back(era_info: EraInfo) -> bool {
        era_info.eras > 0 && era_info.is_era_boundary && era_info.fitness_kind == EraFitness::Normal
    }

    /// Whether the run `self` is the run `before` after the event of an
    /// era: first the record holders come back if the era calls for that;
    /// then era four drops the genomes that visited least, era five those
    /// that ate least, era eight brings the record holders back, and every
    /// other era leaves the population alone.
    pub open spec fn after_event(&self, before: &NnPlaysSnake, mid: &NnPlaysSnake, era_info: EraInfo) -> bool {
        &&& if Self::calls_back(era_info) {
            mid.resurrected(before)
        } else {
            mid.unchanged(before)
        }
        &&& if era_info.eras == 4 {
            self.struck(mid, Self::visited_of(mid.population.nets@))
        } else if era_info.eras == 5 {
            self.struck(mid, Self::apples_of(mid.population.nets@))
        } else if era_info.eras == 8 {
            self.resurrected(mid)
        } else {
            self.unchanged(mid)
        }
    }

    /// Strikes the population with the event that an era calls for: at the
    /// start of an era whose fitness is the normal one, the record holders
    /// come back; era four drops the genomes that visited least, era five
    /// those that ate least, and era eight brings the record holders back.
    pub fn pick_and_apply_event(&mut self, era_info: &EraInfo)
        requires
            old(self).wf(),
            era_info.eras == 4 || era_info.eras == 5 ==> old(self).population.nets@.len() > 0,
        ensures
            final(self).wf(),
            exists|mid: NnPlaysSnake| #[trigger] final(self).after_event(old(self), &mid, *era_info),
    {
        if era_info.eras > 0 && era_info.is_era_boundary && era_info.fitness_kind
            == EraFitness::Normal {
            self.event_resurrect_maxes();
        }
        let ghost mid = *self;
        if era_info.eras == 4 {
            self.event_cataclism_remove_fewest_visited();
        } else if era_info.eras == 5 {
            self.event_cataclism_remove_fewest_apples();
        } else if era_info.eras == 8 {
            self.event_resurrect_maxes();
        }
        assert(self.after_event(old(self), &mid, *era_info));
    }
}

/// The sum of the first `upto` values.
pub open spec fn total(values: Seq<u64>, upto: int) -> int
    decreases upto,
{
    if upto <= 0 {
        0
    } else {
        total(values, upto - 1) + values[upto - 1]
    }
}

/// The largest of the first `upto` values, and 0 where there is none.
pub open spec fn largest(values: Seq<u64>, upto: int) -> int
    decreases upto,
{
    if upto <= 0 {
        0
    } else if values[upto - 1] > largest(values, upto - 1) {
        values[upto - 1] as int
    } else {
        largest(values, upto - 1)
    }
}

/// For every value, whether it is above a mark.
pub open spec fn marks_above(values: Seq<u64>, mark: int) -> Seq<bool> {
    Seq::new(values.len(), |i: int| values[i] > mark)
}

/// Whether a mark is one that a cataclysm may set: half the largest value,
/// or the mean of the values.
pub open spec fn is_benchmark(values: Seq<u64>, mark: int) -> bool {
    ||| mark == largest(values, values.len() as int) / 2
    ||| mark == total(values, values.len() as int) / (values.len() as int)
}

impl NnPlaysSnake {
    /// For every genome, how many cells it visited.
    pub open spec fn visited_of(nets: Seq<Net<MyFitnessInfo>>) -> Seq<u64> {
        Seq::new(nets.len(), |i: int| nets[i].fitness_info.visited)
    }

    /// For every genome, how many apples it ate.
    pub open spec fn apples_of(nets: Seq<Net<MyFitnessInfo>>) -> Seq<u64> {
        Seq::new(nets.len(), |i: int| nets[i].fitness_info.apples)
    }

    /// Whether the run is as it was but for the genomes of the population,
    /// of which those are left whose value is above a benchmark: half the
    /// largest value or the mean.
    pub open spec fn struck(&self, before: &NnPlaysSnake, values: Seq<u64>) -> bool {
        &&& self.my_meta == before.my_meta
        &&& self.max_info == before.max_info
        &&& self.stashed_nets@ == before.stashed_nets@
        &&& self.population.population_params == before.population.population_params
        &&& self.population.ids == before.population.ids
        &&& exists|mark: int|
            is_benchmark(values, mark) && self.population.nets@
                == selected(
                before.population.nets@,
                #[trigger] marks_above(values, mark),
                before.population.nets@.len() as int,
            )
    }

    /// Drops the genomes whose value is not above a benchmark: with even
    /// odds half the largest value, or the mean.
    fn remove_fewest(&mut self, values: &Vec<u64>)
        requires
            old(self).wf(),
            values@.len() == old(self).population.nets@.len(),
            values@.len() > 0,
        ensures
            final(self).wf(),
            final(self).struck(old(self), values@),
    {
        let n = values.len();
        let mut greatest: u64 = 0;
        let mut sum: u128 = 0;
        let mut i: usize = 0;
        while i < n
            invariant
                i <= n,
                n == values@.len(),
                greatest == largest(values@, i as int),
                sum == total(values@, i as int),
                sum <= i * 0xFFFF_FFFF_FFFF_FFFF,
            decreases n - i,
        {
            if values[i] > greatest {
                greatest = values[i];
            }
            sum = sum + values[i] as u128;
            i += 1;
        }
        let benchmark: u128 = if coin() {
            (greatest / 2) as u128
        } else {
            sum / (n as u128)
        };
        let mut keep: Vec<bool> = Vec::with_capacity(n);
        let mut i: usize = 0;
        while i < n
            invariant
                i <= n,
                n == values@.len(),
                keep@.len() == i,
                forall|k: int| 0 <= k < i ==> #[trigger] keep@[k] == (values@[k] > benchmark),
            decreases n - i,
        {
            keep.push(values[i] as u128 > benchmark);
            i += 1;
        }
        assert(keep@ =~= marks_above(values@, benchmark as int));
        let ghost stash = self.stashed_nets@;
        let ghost nets = self.population.nets@;
        self.population.retain_marked(&keep);
        proof {
            let kept = self.population.nets@;
            assert forall|s: int| 0 <= s < stash.len() implies self.population.welcomes(
                (#[trigger] stash[s]).net.genome(),
            ) by {
                let x = stash[s].net.genome();
                assert(old(self).population.welcomes(x));
                assert(Population::<MyFitnessInfo>::welcomed(nets, self.population.ids, x));
                assert forall|k: int| 0 <= k < kept.len() implies (
                #[trigger] kept[k]).genome().compatible(x) by {}
            }
        }
    }

    /// A cataclysm: the genomes that visited least are dropped. Left are
    /// those that visited more than a benchmark: with even odds half of
    /// what the best visited, or the mean.
    pub fn event_cataclism_remove_fewest_visited(&mut self)
        requires
            old(self).wf(),
            old(self).population.nets@.len() > 0,
        ensures
            final(self).wf(),
            final(self).struck(old(self), Self::visited_of(old(self).population.nets@)),
    {
        let n = self.population.nets.len();
        let mut values: Vec<u64> = Vec::with_capacity(n);
        let mut i: usize = 0;
        while i < n
            invariant
                i <= n,
                n == self.population.nets@.len(),
                values@.len() == i,
                forall|k: int|
                    0 <= k < i ==> #[trigger] values@[k]
                        == self.population.nets@[k].fitness_info.visited,
            decreases n - i,
        {
            values.push(self.population.nets[i].fitness_info.visited);
            i += 1;
        }
        assert(values@ =~= Self::visited_of(self.population.nets@));
        self.remove_fewest(&values);
    }

    /// A cataclysm: the genomes that ate least are dropped. Left are those
    /// that ate more than a benchmark: with even odds half of what the best
    /// ate, or the mean.
    pub fn event_cataclism_remove_fewest_apples(&mut self)
        requires
            old(self).wf(),
            old(self).population.nets@.len() > 0,
        ensures
            final(self).wf(),
            final(self).struck(old(self), Self::apples_of(old(self).population.nets@)),
    {
        let n = self.population.nets.len();
        let mut values: Vec<u64> = Vec::with_capacity(n);
        let mut i: usize = 0;
        while i < n
            invariant
                i <= n,
                n == self.population.nets@.len(),
                values@.len() == i,
                forall|k: int|
                    0 <= k < i ==> #[trigger] values@[k]
                        == self.population.nets@[k].fitness_info.apples,
            decreases n - i,
        {
            values.push(self.population.nets[i].fitness_info.apples);
            i += 1;
        }
        assert(values@ =~= Self::apples_of(self.population.nets@));
        self.remove_fewest(&values);
    }

    /// A resurrection: a copy of every genome of the stash joins the
    /// population, the oldest record holder first.
    pub fn event_resurrect_maxes(&mut self)
        requires
            old(self).wf(),
        ensures
            final(self).wf(),
            final(self).resurrected(old(self)),
    {
        let count = self.stashed_nets.len();
        let ghost start = self.population.nets@;
        let mut s: usize = 0;
        while s < count
            invariant
                s <= count,
                count == self.stashed_nets@.len(),
                self.wf(),
                self.my_meta == old(self).my_meta,
                self.max_info == old(self).max_info,
                self.stashed_nets@ == old(self).stashed_nets@,
                self.population.population_params == old(self).population.population_params,
                self.population.ids == old(self).population.ids,
                start == old(self).population.nets@,
                self.population.nets@.len() == start.len() + s,
                forall|i: int|
                    0 <= i < start.len() ==> #[trigger] self.population.nets@[i] == start[i],
                forall|t: int|
                    0 <= t < s ==> (#[trigger] self.population.nets@[start.len() + t])@
                        == self.stashed_nets@[t].net@,
            decreases count - s,
        {
            let copy = self.stashed_nets[s].net.clone();
            let ghost nets = self.population.nets@;
            let ghost stash = self.stashed_nets@;
            proof {
                let x = copy.genome();
                assert(x == stash[s as int].net.genome());
                assert(stash[s as int].net.settled());
                assert(self.population.welcomes(x));
                assert forall|i: int| 0 <= i < nets.len() implies x.compatible(
                    (#[trigger] nets[i]).genome(),
                ) by {
                    assert(nets[i].genome().compatible(x));
                    lemma_compatible_symmetric(nets[i].genome(), x);
                }
                Population::<MyFitnessInfo>::lemma_joined(nets, copy, self.population.ids);
                let all = nets.push(copy);
                assert forall|t: int| 0 <= t < stash.len() implies Population::<
                    MyFitnessInfo,
                >::welcomed(all, self.population.ids, (#[trigger] stash[t]).net.genome()) by {
                    let y = stash[t].net.genome();
                    assert(self.population.welcomes(y));
                    assert forall|i: int| 0 <= i < all.len() implies (
                    #[trigger] all[i]).genome().compatible(y) by {
                        if i < nets.len() {
                            assert(nets[i].genome().compatible(y));
                        } else {
                            assert(stash[s as int].net.genome().compatible(y));
                        }
                    }
                }
            }
            self.population.nets.push(copy);
            s += 1;
        }
    }
}

} // verus!

use rand::Rng;
use snake_neat::chance::{adjust_prob, roll, PROBABILITY_ONE};
use snake_neat::neural_net::mutation::WeightSource;
use snake_neat::neural_net::nets::{MutationParams, NetParams};
use snake_neat::neural_net::populations::{rank_biased, Population, PopulationParams};
use snake_neat::nn_plays_snake::{
    interpret_outputs, is_out_of_moves, EraFitness, MyFitnessInfo, NnPlaysSnake, UNEVALUATED,
};
use snake_neat::snake_game::Direction;

struct Weights;

impl WeightSource for Weights {
    fn fresh_weight(&mut self) -> u32 {
        (rand::thread_rng().gen::<f32>() * 2.0 - 1.0).to_bits()
    }

    fn perturbed_weight(&mut self, weight: u32, max_magnitude: u32) -> u32 {
        let change = (rand::thread_rng().gen::<f32>() * 2.0 - 1.0) * f32::from_bits(max_magnitude);
        (f32::from_bits(weight) + change).to_bits()
    }
}

fn meta(population_size: usize) -> PopulationParams {
    PopulationParams {
        population_size,
        mutation_params: MutationParams {
            prob_add_connection: 500_000,
            prob_add_node: 300_000,
            prob_mutate_activation_function_of_node: 200_000,
            prob_mutate_weight: 800_000,
            max_weight_change_magnitude: 0.5f32.to_bits(),
            prob_toggle_enabled: 100_000,
            prob_remove_connection: 50_000,
            prob_remove_node: 50_000,
        },
        net_params: NetParams::from_size(3, 2),
    }
}

fn info(fitness: i64, apples: u64, visited: u64) -> MyFitnessInfo {
    MyFitnessInfo { fitness, apples, visited, moves: 0 }
}

#[test]
fn initial_population_has_the_size_asked_for() {
    let mut population = Population::<i64>::new(meta(25));
    assert_eq!(population.nets.len(), 0);
    population.create_initial_population(&mut Weights);
    assert_eq!(population.nets.len(), 25);
    for net in population.nets.iter() {
        assert!(net.verify_invariants());
        assert!(net.is_evaluation_order_up_to_date);
        assert_eq!(net.fitness_info, i64::MIN);
        assert_eq!(net.net_params.input_count, 3);
    }
    // A second call has nothing to add.
    population.create_initial_population(&mut Weights);
    assert_eq!(population.nets.len(), 25);
}

#[test]
fn ranking_is_from_the_fittest_down_and_stable() {
    let mut population = Population::<i64>::new(meta(6));
    population.create_initial_population(&mut Weights);
    population.evaluate_population(&vec![3, 9, 3, -2, 9, 0]);
    assert_eq!(population.nets.iter().map(|n| n.fitness_info).collect::<Vec<_>>(), vec![3, 9, 3, -2, 9, 0]);
    assert_eq!(population.ranking(), vec![1, 4, 0, 2, 5, 3]);
}

#[test]
fn the_fittest_genome_goes_over_unchanged() {
    let mut population = Population::<i64>::new(meta(30));
    for generation in 0..20 {
        population.create_initial_population(&mut Weights);
        let fitnesses: Vec<i64> =
            (0..population.nets.len()).map(|_| rand::thread_rng().gen_range(-1000..1000)).collect();
        population.evaluate_population(&fitnesses);
        let best = population.ranking()[0];
        for net in population.nets.iter() {
            assert!(net.fitness_info <= population.nets[best].fitness_info);
        }
        let kept = population.nets[best].clone();
        population.create_next_generation(1 + generation, &mut Weights);
        let first = &population.nets[0];
        assert_eq!(first.id, kept.id);
        assert_eq!(first.fitness_info, kept.fitness_info);
        assert_eq!(first.evaluation_order(), kept.evaluation_order());
        assert_eq!(first.nodes.len(), kept.nodes.len());
        for (a, b) in first.nodes.iter().zip(kept.nodes.iter()) {
            assert_eq!(
                (a.index, a.id, a.activation_function, a.layer, &a.input_connections, a.value),
                (b.index, b.id, b.activation_function, b.layer, &b.input_connections, b.value)
            );
        }
        assert_eq!(first.connections.len(), kept.connections.len());
        for (a, b) in first.connections.iter().zip(kept.connections.iter()) {
            assert_eq!(
                (a.index, a.id, a.input_node, a.output_node, a.weight, a.is_enabled),
                (b.index, b.id, b.input_node, b.output_node, b.weight, b.is_enabled)
            );
        }
        assert!(population.nets.len() <= 30);
        for net in population.nets.iter() {
            assert!(net.verify_invariants());
        }
    }
}

#[test]
fn next_generation_of_a_small_population() {
    let mut population = Population::<i64>::new(meta(2));
    population.create_initial_population(&mut Weights);
    population.evaluate_population(&vec![1, 2]);
    population.create_next_generation(1, &mut Weights);
    assert_eq!(population.nets.len(), 2);
    assert_eq!(population.nets[0].fitness_info, 2);
    assert_eq!(population.nets[1].fitness_info, 1);
    let mut empty = Population::<i64>::new(meta(0));
    empty.create_next_generation(1, &mut Weights);
    assert_eq!(empty.nets.len(), 0);
}

#[test]
fn rank_biased_index_squares_the_draw() {
    assert_eq!(rank_biased(0, 10), 0);
    assert_eq!(rank_biased(u32::MAX, 10), 9);
    // Half, squared, is a quarter: of 100 that is 25.
    assert_eq!(rank_biased(1 << 31, 100), 25);
    // Three quarters, squared, is 0.5625: of 1000 that is 562.5, rounded up.
    assert_eq!(rank_biased(3 << 30, 1000), 563);
    assert_eq!(rank_biased(1 << 31, 1), 0);
    assert_eq!(rank_biased(u32::MAX, usize::MAX), 18446744065119617024);
    for _ in 0..1000 {
        let draw = rand::thread_rng().gen::<u32>();
        assert!(rank_biased(draw, 7) < 7);
    }
}

#[test]
fn a_quarter_is_rounded() {
    assert_eq!(Population::<i64>::quarter(0), 0);
    assert_eq!(Population::<i64>::quarter(1), 0);
    assert_eq!(Population::<i64>::quarter(2), 1);
    assert_eq!(Population::<i64>::quarter(3), 1);
    assert_eq!(Population::<i64>::quarter(4), 1);
    assert_eq!(Population::<i64>::quarter(10_000), 2500);
    assert_eq!(Population::<i64>::quarter(usize::MAX), usize::MAX / 4 + 1);
}

#[test]
fn probabilities_are_scaled_and_capped() {
    assert_eq!(adjust_prob(50_000, 1), 50_000);
    assert_eq!(adjust_prob(50_000, 3), 150_000);
    assert_eq!(adjust_prob(400_000, 3), PROBABILITY_ONE);
    assert_eq!(adjust_prob(u32::MAX, u32::MAX), PROBABILITY_ONE);
    assert_eq!(adjust_prob(7, 0), 0);
    for _ in 0..200 {
        assert!(roll(PROBABILITY_ONE, 1));
        assert!(roll(250_000, 4));
        assert!(!roll(0, 9));
        assert!(!roll(123, 0));
    }
    let hits = (0..4000).filter(|_| roll(250_000, 1)).count();
    assert!(hits > 800 && hits < 1200, "hits were {hits}");
}

#[test]
fn eras_rotate_the_fitness() {
    let run = NnPlaysSnake::new();
    let at = |generation: usize| run.eras_since_last_max(generation);
    let first = at(0);
    assert_eq!((first.generations, first.eras), (0, 0));
    assert!(first.is_era_boundary && !first.is_end_special_fitness);
    assert_eq!(first.fitness_kind, EraFitness::Normal);
    let later = at(199);
    assert_eq!((later.generations, later.eras, later.is_era_boundary), (199, 0, false));
    let second = at(200);
    assert_eq!((second.eras, second.is_era_boundary), (1, true));
    assert_eq!(second.fitness_kind, EraFitness::FavorVisits);
    assert_eq!(at(299).fitness_kind, EraFitness::FavorVisits);
    let half = at(300);
    assert!(half.is_end_special_fitness && !half.is_era_boundary);
    assert_eq!(half.fitness_kind, EraFitness::Normal);
    assert_eq!(at(400).fitness_kind, EraFitness::FavorMoves);
    assert_eq!(at(499).fitness_kind, EraFitness::FavorMoves);
    assert_eq!(at(500).fitness_kind, EraFitness::Normal);
    assert_eq!(at(600).fitness_kind, EraFitness::Normal);
    assert_eq!(at(800).fitness_kind, EraFitness::FavorVisits);
    assert_eq!(at(1650).eras, 8);
    assert_eq!(NnPlaysSnake::mutation_multiplier(&at(0)), 1);
    assert_eq!(NnPlaysSnake::mutation_multiplier(&at(200)), 2);
    assert_eq!(NnPlaysSnake::mutation_multiplier(&at(1650)), 9);
}

#[test]
fn a_record_goes_to_the_stash_and_restarts_the_eras() {
    let mut run = NnPlaysSnake::new();
    run.population = Population::new(meta(8));
    run.population.create_initial_population(&mut Weights);
    assert_eq!(run.max_info.fitness, UNEVALUATED);
    // Nothing is stashed in the first generation.
    assert!(!run.record_fitness(0, 0, info(10, 1, 5)));
    assert_eq!(run.stashed_nets.len(), 0);
    assert_eq!(run.population.nets[0].fitness_info.fitness, 10);
    assert!(run.record_fitness(1, 3, info(20, 2, 6)));
    assert!(!run.record_fitness(2, 3, info(20, 2, 6)));
    assert!(!run.record_fitness(3, 3, info(-4, 0, 1)));
    assert!(run.record_fitness(4, 7, info(21, 2, 7)));
    assert_eq!(run.stashed_nets.len(), 2);
    assert_eq!(run.max_info.fitness, 21);
    assert_eq!(run.stashed_nets[0].generation, 3);
    assert_eq!(run.stashed_nets[1].generation, 7);
    assert_eq!(run.stashed_nets[1].net.id, run.population.nets[4].id);
    assert_eq!(run.stashed_nets[1].net.fitness_info.fitness, 21);
    let era = run.eras_since_last_max(207);
    assert_eq!((era.generations, era.eras, era.is_era_boundary), (200, 1, true));
    assert!(NnPlaysSnake::needs_evaluation(&run.population.nets[0], &era));
    let era = run.eras_since_last_max(208);
    assert!(!NnPlaysSnake::needs_evaluation(&run.population.nets[0], &era));
    assert!(NnPlaysSnake::needs_evaluation(&run.population.nets[7], &era));
}

#[test]
fn events_strike_the_population() {
    let mut run = NnPlaysSnake::new();
    run.population = Population::new(meta(6));
    run.population.create_initial_population(&mut Weights);
    let visited = [10u64, 40, 25, 0, 31, 100];
    let apples = [0u64, 1, 8, 3, 4, 2];
    for i in 0..6 {
        let is_record = run.record_fitness(i, 1, info(i as i64, apples[i], visited[i]));
        assert!(is_record);
    }
    assert_eq!(run.stashed_nets.len(), 6);
    let ids: Vec<_> = run.population.nets.iter().map(|n| n.id).collect();

    // Half the largest is 50, the mean is 34: either way the last is left, and
    // the one that visited 40 only by the mean.
    run.event_cataclism_remove_fewest_visited();
    let left: Vec<_> = run.population.nets.iter().map(|n| n.id).collect();
    assert!(left == vec![ids[5]] || left == vec![ids[1], ids[5]]);

    run.event_resurrect_maxes();
    assert_eq!(run.population.nets.len(), left.len() + 6);
    for (s, net) in run.population.nets[left.len()..].iter().enumerate() {
        assert_eq!(net.id, ids[s]);
        assert_eq!(net.fitness_info.fitness, s as i64);
    }
    for net in run.population.nets.iter() {
        assert!(net.verify_invariants());
    }

    // Era five drops those that ate least, era eight brings the record holders back,
    // and an era that calls for nothing leaves the population alone.
    let before = run.population.nets.len();
    let mut era = run.eras_since_last_max(1 + 7 * 200 + 1);
    assert_eq!(era.eras, 7);
    run.pick_and_apply_event(&era);
    assert_eq!(run.population.nets.len(), before);
    era.eras = 8;
    era.is_era_boundary = false;
    run.pick_and_apply_event(&era);
    assert_eq!(run.population.nets.len(), before + 6);
    era.eras = 5;
    let all: Vec<u64> = run.population.nets.iter().map(|n| n.fitness_info.apples).collect();
    let half = all.iter().max().unwrap() / 2;
    let mean = all.iter().sum::<u64>() / all.len() as u64;
    assert_eq!(half, 4);
    run.pick_and_apply_event(&era);
    let left: Vec<u64> = run.population.nets.iter().map(|n| n.fitness_info.apples).collect();
    let above = |mark: u64| all.iter().copied().filter(|&a| a > mark).collect::<Vec<_>>();
    assert!(left == above(half) || left == above(mean));
    assert!(left.len() < all.len());
    // The next generation can be made of what is left together with the stash.
    run.population.create_next_generation(2, &mut Weights);
    for net in run.population.nets.iter() {
        assert!(net.verify_invariants());
    }
}

#[test]
fn the_greatest_output_gives_the_direction() {
    assert_eq!(interpret_outputs(&[1, 2, 3, 4]), Direction::West);
    assert_eq!(interpret_outputs(&[1, 7, 3, 4]), Direction::East);
    assert_eq!(interpret_outputs(&[1, 2, 9, 4]), Direction::South);
    assert_eq!(interpret_outputs(&[5, 2, 3, 4]), Direction::North);
    // Of equals the first wins.
    assert_eq!(interpret_outputs(&[0, 6, 6, 6]), Direction::East);
    assert_eq!(interpret_outputs(&[-3, -3, -3, -3]), Direction::North);
    // Nothing beats the least value.
    assert_eq!(interpret_outputs(&[i64::MIN; 4]), Direction::North);
    assert_eq!(interpret_outputs(&[i64::MIN, i64::MIN, i64::MIN, i64::MIN + 1]), Direction::West);
}

#[test]
fn a_game_runs_out_of_moves() {
    assert!(!is_out_of_moves(500, 0, 0));
    assert!(is_out_of_moves(501, 0, 0));
    assert!(!is_out_of_moves(500 + 37 + 12, 37, 2));
    assert!(is_out_of_moves(500 + 37 + 13, 37, 2));
    assert!(!is_out_of_moves(usize::MAX, usize::MAX, usize::MAX));
}

#[test]
fn a_population_hands_out_identifiers() {
    let mut population = Population::<i64>::new(meta(3));
    assert_eq!(population.new_node_id().0, 1);
    assert_eq!(population.new_node_id().0, 2);
    assert_eq!(population.new_connection_id().0, 1);
    population.create_initial_population(&mut Weights);
    // Every genome got identifiers of its own, after those handed out before.
    let mut seen = vec![1usize, 2];
    for net in population.nets.iter() {
        for node in net.nodes.iter() {
            assert!(!seen.contains(&node.id.0));
            seen.push(node.id.0);
        }
    }
    assert!(population.new_node_id().0 > *seen.iter().max().unwrap());
}

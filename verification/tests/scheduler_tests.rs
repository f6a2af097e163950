//! Decisions, ranking, generations and reseeding.

use cannon_ai::ranking::{find_largest_index_unchecked, find_n_lowest_indices, rank_donors};
use cannon_ai::scheduler::{
    new_population, normalize_total_ais, reseed_population, run_candidate_window,
    advance_generation, update_dimensions, tick, collect_scores,
};
use cannon_ai::simulation::{get_direction_decision, get_shoot_decision};
use cannon_ai::neural_network::NeuralNetwork;

#[test]
fn argmax_prefers_the_first_of_equal_maxima() {
    assert_eq!(find_largest_index_unchecked(&vec![3, 7, 7, 1]), 1);
    assert_eq!(find_largest_index_unchecked(&vec![-5]), 0);
    assert_eq!(find_largest_index_unchecked(&vec![2, 2, 2]), 0);
    assert_eq!(find_largest_index_unchecked(&vec![-3, -1, -2]), 1);
}

#[test]
fn lowest_indices_rank_with_ties_toward_lower_index() {
    assert_eq!(find_n_lowest_indices(&vec![5, 1, 3, 1], 2), vec![1, 3]);
    assert_eq!(find_n_lowest_indices(&vec![9, 8, 7], 0), Vec::<usize>::new());
    assert_eq!(find_n_lowest_indices(&vec![4, 4, 4, 4], 2), vec![0, 1]);
    // asking for more than there are yields every index in rank order
    assert_eq!(find_n_lowest_indices(&vec![30, 10, 20], 9), vec![1, 2, 0]);
}

#[test]
fn population_size_is_even_and_at_least_ten() {
    assert_eq!(normalize_total_ais(1), 10);
    assert_eq!(normalize_total_ais(3), 10);
    assert_eq!(normalize_total_ais(8), 10);
    assert_eq!(normalize_total_ais(12), 10);
    assert_eq!(normalize_total_ais(13), 12);
    assert_eq!(normalize_total_ais(24), 22);
    assert_eq!(normalize_total_ais(25), 24);
}

#[test]
fn steering_decision_is_a_turn_direction() {
    let net = NeuralNetwork::new_random_unchecked(&vec![20, 10, 3]);
    let sensed: Vec<i64> = vec![0; 20];
    let d = get_direction_decision(&sensed, &net);
    assert!(d == -1 || d == 0 || d == 1);
}

#[test]
fn fire_decision_follows_the_first_output() {
    // Two outputs wired so the first always dominates: fire.
    let fire = NeuralNetwork {
        input_size: 2,
        output_size: 2,
        weights: vec![vec![vec![0, 0], vec![0, 0]]],
        biases: vec![vec![1000, -1000]],
    };
    assert!(get_shoot_decision(&vec![0, 0], &fire));
    // And the mirror image: hold.
    let hold = NeuralNetwork {
        input_size: 2,
        output_size: 2,
        weights: vec![vec![vec![0, 0], vec![0, 0]]],
        biases: vec![vec![-1000, 1000]],
    };
    assert!(!get_shoot_decision(&vec![0, 0], &hold));
}

#[test]
fn tick_advances_the_clock() {
    let mut population = new_population(2);
    let dims = population.dimensions;
    let direction_ai = population.direction_ais[0].duplicate();
    let shooting_ai = population.shooting_ais[0].duplicate();
    tick(&mut population.candidates[0], &direction_ai, &shooting_ai, &dims, 5);
    assert_eq!(population.candidates[0].elapsed_time, 5);
    assert_eq!(population.candidates[1].elapsed_time, 0);
}

#[test]
fn window_runs_to_completion() {
    let mut population = new_population(2);
    run_candidate_window(&mut population, 0, 5, 2_000);
    assert!(population.candidates[0].elapsed_time > 2_000);
    assert_eq!(population.candidates[1].elapsed_time, 0);
}

#[test]
fn donors_rank_best_first_with_ties_toward_lower_index() {
    // complement of the worst half, ordered by descending score
    assert_eq!(rank_donors(&vec![5, 1, 3, 1], &vec![1, 3]), vec![0, 2]);
    // score ties among donors go to the lower index
    assert_eq!(rank_donors(&vec![7, 7, 7, 7], &vec![0, 1]), vec![2, 3]);
    assert_eq!(rank_donors(&vec![10, 40, 20, 30], &vec![0, 2]), vec![1, 3]);
}

#[test]
fn reseeding_pairs_worst_with_best_and_resets_worlds() {
    let mut population = new_population(4);
    population.candidates[0].score = 0;
    population.candidates[1].score = 1_000;
    population.candidates[2].score = 2_000;
    population.candidates[3].score = 3_000;
    population.candidates[0].elapsed_time = 50_000;
    population.candidates[2].cannon.direction = 999;
    let donors_direction = vec![
        population.direction_ais[3].duplicate(),
        population.direction_ais[2].duplicate(),
    ];
    let scores = collect_scores(&population);
    assert_eq!(scores, vec![0, 1_000, 2_000, 3_000]);

    reseed_population(&mut population);

    for c in &population.candidates {
        assert_eq!(c.elapsed_time, 0);
        assert_eq!(c.score, 0);
        assert!(c.bullets.is_empty());
        assert!(c.enemies.is_empty());
        assert_eq!(c.cannon.direction, 0);
    }
    // the worst candidate is reseeded from the best donor, the next
    // worst from the next best: every scalar within the mutation bound
    // of its paired donor's
    for (bad, donor) in [(0usize, &donors_direction[0]), (1usize, &donors_direction[1])] {
        let child = &population.direction_ais[bad];
        assert_eq!(child.input_size, donor.input_size);
        assert_eq!(child.output_size, donor.output_size);
        for (mc, md) in child.weights.iter().zip(donor.weights.iter()) {
            for (rc, rd) in mc.iter().zip(md.iter()) {
                for (wc, wd) in rc.iter().zip(rd.iter()) {
                    assert!((wc - wd).abs() <= 50);
                }
            }
        }
    }
    // the donor slots themselves are untouched
    for (slot, donor) in [(3usize, &donors_direction[0]), (2usize, &donors_direction[1])] {
        assert_eq!(population.direction_ais[slot].weights, donor.weights);
        assert_eq!(population.direction_ais[slot].biases, donor.biases);
    }
}

#[test]
fn five_generations_complete_without_stalling() {
    // Ten candidates, a forty-unit window at a step of one milli-unit,
    // five consecutive generations.
    let mut population = new_population(10);
    for _ in 0..5 {
        advance_generation(&mut population, 1, 40_000);
        for c in &population.candidates {
            assert_eq!(c.elapsed_time, 0);
            assert!(c.bullets.is_empty());
            assert!(c.enemies.is_empty());
        }
        assert_eq!(population.candidates.len(), 10);
    }
}

#[test]
fn full_window_generation_for_one_candidate() {
    // One candidate simulated over the whole training window at the
    // original fast-forward step.
    let mut population = new_population(1);
    run_candidate_window(&mut population, 0, 5, 60_000);
    assert!(population.candidates[0].elapsed_time > 60_000);
}

#[test]
fn resize_recentres_every_turret() {
    let mut population = new_population(3);
    update_dimensions(&mut population, 1_000_000, 750_000);
    assert_eq!(population.dimensions.x, 1_000_000);
    assert_eq!(population.dimensions.y, 750_000);
    for c in &population.candidates {
        assert_eq!(c.cannon.position.x, 500_000);
        assert_eq!(c.cannon.position.y, 375_000);
    }
}

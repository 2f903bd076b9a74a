use hpcomplexity::config::UNIT;
use hpcomplexity::ga::{ga_step, idx_from_prob_dist, index_for_draw, normalise, DegenerateWeights};
use hpcomplexity::genotype::Genotype;

fn geno(bits: &[u32]) -> Genotype {
    Genotype { sequence: bits.to_vec() }
}

#[test]
fn normalise_divides_by_the_sum() {
    assert_eq!(normalise(vec![1, 1, 2]), Ok(vec![250_000, 250_000, 500_000]));
    assert_eq!(normalise(vec![200_000, 200_000, 200_000, 1_000_000]),
        Ok(vec![125_000, 125_000, 125_000, 625_000]));
    assert_eq!(normalise(vec![7]), Ok(vec![UNIT]));
}

#[test]
fn normalise_rounds_each_share_down() {
    assert_eq!(normalise(vec![1, 1, 1]), Ok(vec![333_333, 333_333, 333_333]));
    assert_eq!(normalise(vec![2, 1]), Ok(vec![666_666, 333_333]));
}

#[test]
fn normalised_weights_sum_to_one_within_rounding() {
    let cases: Vec<Vec<u64>> = vec![
        vec![1, 1, 1],
        vec![3, 5, 7, 11, 13],
        vec![u64::MAX, u64::MAX, 1],
        vec![200_000, 1_000_000, 200_000],
        vec![1; 97],
    ];
    for weights in cases {
        let len = weights.len() as u64;
        let probs = normalise(weights).unwrap();
        let sum: u64 = probs.iter().sum();
        assert!(sum <= UNIT);
        assert!(sum + len > UNIT);
        let as_real: f64 = probs.iter().map(|p| *p as f64 / UNIT as f64).sum();
        assert!((as_real - 1.0).abs() < 1e-3);
    }
}

#[test]
fn normalise_rejects_weights_that_sum_to_zero() {
    assert_eq!(normalise(vec![0, 0, 0]), Err(DegenerateWeights));
    assert_eq!(normalise(vec![]), Err(DegenerateWeights));
}

#[test]
fn normalise_keeps_zero_weights_at_zero() {
    assert_eq!(normalise(vec![0, 4, 0]), Ok(vec![0, UNIT, 0]));
}

#[test]
fn index_for_draw_returns_first_index_whose_running_sum_reaches_the_draw() {
    let probs = vec![250_000, 250_000, 500_000];
    assert_eq!(index_for_draw(&probs, 0), 0);
    assert_eq!(index_for_draw(&probs, 250_000), 0);
    assert_eq!(index_for_draw(&probs, 250_001), 1);
    assert_eq!(index_for_draw(&probs, 500_000), 1);
    assert_eq!(index_for_draw(&probs, 500_001), 2);
    assert_eq!(index_for_draw(&probs, 999_999), 2);
}

#[test]
fn index_for_draw_falls_back_to_the_last_index() {
    assert_eq!(index_for_draw(&vec![100, 100], 500), 1);
    assert_eq!(index_for_draw(&vec![333_333, 333_333, 333_333], 999_999), 2);
    assert_eq!(index_for_draw(&vec![0, 0, 0, 0], 1), 3);
    assert_eq!(index_for_draw(&vec![0], 5), 0);
}

#[test]
fn index_for_draw_skips_indices_without_weight() {
    assert_eq!(index_for_draw(&vec![0, 0, UNIT], 1), 2);
    assert_eq!(index_for_draw(&vec![0, UNIT, 0], 700_000), 1);
}

#[test]
fn index_for_draw_handles_sums_beyond_u64() {
    assert_eq!(index_for_draw(&vec![u64::MAX, u64::MAX, u64::MAX], u64::MAX), 0);
    assert_eq!(index_for_draw(&vec![1, u64::MAX, u64::MAX], u64::MAX), 1);
}

#[test]
fn sampled_index_is_always_within_the_vector() {
    let probs = vec![100_000, 200_000, 300_000, 399_990];
    for _ in 0..2000 {
        assert!(idx_from_prob_dist(&probs) < probs.len());
    }
    for _ in 0..200 {
        assert_eq!(idx_from_prob_dist(&vec![UNIT]), 0);
        assert_eq!(idx_from_prob_dist(&vec![0]), 0);
    }
}

#[test]
fn sampled_index_with_all_weight_on_the_first_index_is_zero() {
    for _ in 0..500 {
        assert_eq!(idx_from_prob_dist(&vec![UNIT, 0, 0]), 0);
    }
}

#[test]
fn sampled_index_reaches_every_weighted_index() {
    let probs = vec![500_000, 500_000];
    let mut seen = [false, false];
    for _ in 0..500 {
        seen[idx_from_prob_dist(&probs)] = true;
    }
    assert!(seen[0] && seen[1]);
}

#[test]
fn ga_step_keeps_the_population_size() {
    let pop = vec![geno(&[1, 0, 0]), geno(&[0, 1, 0]), geno(&[0, 0, 1]), geno(&[1, 1, 1])];
    let fit = vec![UNIT, 200_000, UNIT, 200_000];
    let next = ga_step(&pop, &fit, 2_000).unwrap();
    assert_eq!(next.len(), 4);
    for g in &next {
        assert_eq!(g.sequence.len(), 3);
        assert!(g.is_wf());
    }
}

#[test]
fn ga_step_without_mutation_copies_members_of_the_population() {
    let pop = vec![geno(&[1, 0, 0]), geno(&[0, 1, 0]), geno(&[0, 0, 1])];
    let fit = vec![UNIT, UNIT, UNIT];
    for _ in 0..50 {
        let next = ga_step(&pop, &fit, 0).unwrap();
        for g in &next {
            assert!(pop.contains(g));
        }
    }
}

#[test]
fn ga_step_selects_the_only_fit_individual() {
    let pop = vec![geno(&[1, 0, 1]), geno(&[0, 1, 0]), geno(&[0, 0, 0])];
    let fit = vec![5, 0, 0];
    for _ in 0..50 {
        let next = ga_step(&pop, &fit, 0).unwrap();
        for g in &next {
            assert_eq!(g.sequence, vec![1, 0, 1]);
        }
    }
}

#[test]
fn ga_step_at_full_mutation_rate_flips_the_selected_individual() {
    let pop = vec![geno(&[1, 0, 1]), geno(&[0, 1, 0])];
    let fit = vec![9, 0];
    let next = ga_step(&pop, &fit, UNIT).unwrap();
    assert_eq!(next.len(), 2);
    for g in &next {
        assert_eq!(g.sequence, vec![0, 1, 0]);
    }
}

#[test]
fn ga_step_leaves_its_inputs_as_they_were() {
    let pop = vec![geno(&[1, 0, 1]), geno(&[0, 1, 0])];
    let fit = vec![3, 4];
    let _ = ga_step(&pop, &fit, UNIT).unwrap();
    assert_eq!(pop, vec![geno(&[1, 0, 1]), geno(&[0, 1, 0])]);
    assert_eq!(fit, vec![3, 4]);
}

#[test]
fn ga_step_fails_on_degenerate_fitness() {
    let pop = vec![geno(&[1, 0, 1]), geno(&[0, 1, 0])];
    assert_eq!(ga_step(&pop, &vec![0, 0], 0), Err(DegenerateWeights));
    assert_eq!(ga_step(&Vec::new(), &Vec::new(), 0), Err(DegenerateWeights));
}

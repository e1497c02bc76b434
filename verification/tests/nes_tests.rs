use nes::NesError;
use nes::fixed::{fx_div_count, fx_mul, ln_fx, SCALE};
use nes::nes::{build_candidate, NES};
use nes::objective::{Constant, Evaluation, Objective, Quadratic};
use nes::utils::{
    argsort, array_from_vec_of_arrays, random_gaussian_matrix, random_gaussian_vector,
    reorder_array, reorder_vec, scale_draws, ReplaySource,
};

fn fx(x: f32) -> i64 {
    (x * SCALE as f32) as i64
}

#[test]
fn test_reorder_vec() {
    let vec = vec![1, 2, 3];
    let order: Vec<usize> = vec![2, 1, 0];
    let answer = vec![3, 2, 1];

    assert_eq!(reorder_vec(&vec, &order), answer);
}

#[test]
fn test_reorder_array() {
    let array: Vec<i64> = vec![1, 2, 3];
    let order: Vec<usize> = vec![2, 1, 0];
    let answer: Vec<i64> = vec![3, 2, 1];

    assert_eq!(reorder_array(&array, &order), answer);
}

#[test]
fn test_random_gaussian_vector() {
    let mut source = ReplaySource::new(vec![]);
    let rand_vec = random_gaussian_vector(&mut source, 10, 0, SCALE).unwrap();
    assert_eq!(rand_vec.len(), 10);
}

#[test]
fn test_random_gaussian_matrix() {
    let mut source = ReplaySource::new(vec![]);
    let rand_matrix = random_gaussian_matrix(&mut source, (4, 4), 0, SCALE).unwrap();
    assert_eq!(rand_matrix.len(), 4usize);
    for row in rand_matrix.iter() {
        assert_eq!(row.len(), 4usize);
    }
}

#[test]
fn test_nes_new() {
    let mu = vec![fx(1.), fx(1.)];
    let sigma = vec![fx(1.), fx(1.)];
    let nes = NES::new(Constant::new(fx(42.)), mu, sigma, 10, fx(0.1), fx(0.1), false);
    assert!(nes.is_ok());
}

#[test]
fn test_step() {
    let mu = vec![fx(1.), fx(1.)];
    let sigma = vec![fx(1.), fx(1.)];
    let Ok(mut nes) = NES::new(Constant::new(fx(42.)), mu, sigma, 10, fx(0.1), fx(0.1), false)
    else {
        panic!("construction must succeed");
    };
    let mut source = ReplaySource::new(vec![fx(0.5), fx(-0.25), fx(1.5), fx(-1.0)]);
    let fitness = nes.step(&mut source).unwrap();
    assert_eq!(fitness.len(), 10);
}

#[test]
fn test_constant_objective_step_scenario() {
    // mu = [1, 1], sigma = [1, 1], population of ten, constant objective 42,
    // no rank shaping: the fitness vector is ten 42s and the state keeps
    // its dimensions.
    let mu = vec![fx(1.), fx(1.)];
    let sigma = vec![fx(1.), fx(1.)];
    let Ok(mut nes) = NES::new(Constant::new(fx(42.)), mu, sigma, 10, fx(0.1), fx(0.1), false)
    else {
        panic!("construction must succeed");
    };
    let mut source = ReplaySource::new(vec![fx(0.5), fx(-0.5), fx(0.25)]);
    let fitness = nes.step(&mut source).unwrap();
    assert_eq!(fitness, vec![fx(42.); 10]);
    assert_eq!(nes.mu.len(), 2);
    assert_eq!(nes.sigma.len(), 2);
}

#[test]
fn test_degenerate_population_executes() {
    // Two dimensions, a population of one: the division by the population
    // size is still well defined and the step succeeds.
    let mu = vec![fx(1.), fx(2.)];
    let sigma = vec![fx(1.), fx(1.)];
    let Ok(mut nes) = NES::new(Constant::new(fx(3.)), mu, sigma, 1, fx(0.1), fx(0.1), true)
    else {
        panic!("construction must succeed");
    };
    let mut source = ReplaySource::new(vec![fx(0.5)]);
    let fitness = nes.step(&mut source).unwrap();
    assert_eq!(fitness.len(), 1);
}

#[test]
fn test_zero_noise_keeps_mu() {
    // With exactly zero noise the mean must not drift at all.
    let mu = vec![fx(1.), fx(-2.)];
    let sigma = vec![fx(1.), fx(1.)];
    let Ok(mut nes) = NES::new(Constant::new(fx(42.)), mu.clone(), sigma, 10, fx(1.5), fx(0.1), false)
    else {
        panic!("construction must succeed");
    };
    let mut source = ReplaySource::new(vec![0]);
    nes.step(&mut source).unwrap();
    assert_eq!(nes.mu, mu);
}

#[test]
fn test_non_finite_fitness_fails_shaping_step() {
    // A non-finite fitness must fail the step with InvalidFitnessError,
    // and the search state must be untouched.
    let mu = vec![fx(1.), fx(1.)];
    let sigma = vec![fx(1.), fx(1.)];
    let Ok(mut nes) = NES::new(
        Constant::with_outcome(Evaluation::NonFinite),
        mu.clone(),
        sigma.clone(),
        10,
        fx(0.1),
        fx(0.1),
        true,
    ) else {
        panic!("construction must succeed");
    };
    let mut source = ReplaySource::new(vec![0]);
    assert_eq!(nes.step(&mut source), Err(NesError::InvalidFitnessError));
    assert_eq!(nes.mu, mu);
    assert_eq!(nes.sigma, sigma);
}

#[test]
fn test_failed_evaluation_fails_step() {
    let mu = vec![fx(1.)];
    let sigma = vec![fx(1.)];
    let Ok(mut nes) = NES::new(
        Constant::with_outcome(Evaluation::Failed),
        mu,
        sigma,
        3,
        fx(0.1),
        fx(0.1),
        false,
    ) else {
        panic!("construction must succeed");
    };
    let mut source = ReplaySource::new(vec![0]);
    assert_eq!(nes.step(&mut source), Err(NesError::ObjectiveEvaluationError));
}

#[test]
fn test_overflow_is_surfaced() {
    // A scale at the edge of the range against large noise overflows the
    // candidate arithmetic; the step reports it instead of poisoning the
    // state.
    let mu = vec![0i64];
    let sigma = vec![i64::MAX];
    let Ok(mut nes) = NES::new(Constant::new(fx(1.)), mu, sigma, 2, fx(0.1), fx(0.1), false)
    else {
        panic!("construction must succeed");
    };
    let mut source = ReplaySource::new(vec![i64::MAX]);
    assert_eq!(nes.step(&mut source), Err(NesError::OverflowError));
}

#[test]
fn test_new_rejects_misconfiguration() {
    let obj = Constant::new(fx(1.));
    // mismatched dimensions
    assert_eq!(
        NES::new(obj, vec![fx(1.)], vec![fx(1.), fx(1.)], 10, fx(0.1), fx(0.1), false).err(),
        Some(NesError::ConfigurationError)
    );
    // empty dimensions
    let obj = Constant::new(fx(1.));
    assert_eq!(
        NES::new(obj, vec![], vec![], 10, fx(0.1), fx(0.1), false).err(),
        Some(NesError::ConfigurationError)
    );
    // population of zero
    let obj = Constant::new(fx(1.));
    assert_eq!(
        NES::new(obj, vec![fx(1.)], vec![fx(1.)], 0, fx(0.1), fx(0.1), false).err(),
        Some(NesError::ConfigurationError)
    );
    // negative scale
    let obj = Constant::new(fx(1.));
    assert_eq!(
        NES::new(obj, vec![fx(1.)], vec![fx(-1.)], 10, fx(0.1), fx(0.1), false).err(),
        Some(NesError::ConfigurationError)
    );
}

#[test]
fn test_negative_std_rejected_in_sampling() {
    let mut source = ReplaySource::new(vec![]);
    assert_eq!(
        random_gaussian_vector(&mut source, 4, 0, -SCALE),
        Err(NesError::ConfigurationError)
    );
}

#[test]
fn test_argsort_sorts_and_is_stable() {
    let keys: Vec<i64> = vec![5, 1, 5, 1];
    assert_eq!(argsort(&keys), vec![1usize, 3, 0, 2]);
    let sorted = reorder_vec(&keys, &argsort(&keys));
    assert_eq!(sorted, vec![1, 1, 5, 5]);
}

#[test]
fn test_argsort_of_sorted_is_identity() {
    let keys: Vec<i64> = vec![-3, 0, 0, 7];
    let order = argsort(&keys);
    assert_eq!(order, vec![0usize, 1, 2, 3]);
    // applying it twice changes nothing further
    let order_keys: Vec<i64> = order.iter().map(|&i| i as i64).collect();
    assert_eq!(argsort(&order_keys), vec![0usize, 1, 2, 3]);
}

#[test]
fn test_reorder_by_identity_is_noop() {
    let vec: Vec<i64> = vec![9, -4, 7, 0];
    let order: Vec<usize> = vec![0, 1, 2, 3];
    assert_eq!(reorder_vec(&vec, &order), vec);
}

#[test]
fn test_utility_weights_sum_near_zero() {
    for n in [1usize, 2, 3, 10, 37] {
        let Ok(nes) = NES::new(
            Constant::new(fx(1.)),
            vec![fx(1.)],
            vec![fx(1.)],
            n,
            fx(0.1),
            fx(0.1),
            true,
        ) else {
            panic!("construction must succeed");
        };
        let utility = nes.utility_function();
        assert_eq!(utility.len(), n);
        let total: i64 = utility.iter().sum();
        // within n raw units of zero, that is within n / SCALE
        assert!(total.abs() < n as i64, "sum {} for population {}", total, n);
    }
}

#[test]
fn test_utility_assignment_ignores_magnitudes() {
    // Two fitness vectors with the same relative order rank identically,
    // so the rank shaping assigns the same utilities to the same members.
    let f1: Vec<i64> = vec![fx(10.), fx(-3.), fx(7.)];
    let f2: Vec<i64> = vec![fx(1000.), fx(0.25), fx(999.)];
    assert_eq!(argsort(&f1), argsort(&f2));
}

#[test]
fn test_utility_single_member_is_zero() {
    let Ok(nes) = NES::new(
        Constant::new(fx(1.)),
        vec![fx(1.)],
        vec![fx(1.)],
        1,
        fx(0.1),
        fx(0.1),
        true,
    ) else {
        panic!("construction must succeed");
    };
    // raw(0) / sum(raw) - 1/1 = 1 - 1 = 0 exactly
    assert_eq!(nes.utility_function(), vec![0i64]);
}

#[test]
fn test_raw_step_exact_update() {
    // Population of two, one dimension, raw fitness as utility weights.
    // With recorded draws 0.5 and -0.25 the whole fixed-point update is
    // pinned down exactly:
    //   d      = 42*(0.5) + 42*(-0.25)            -> 688128 raw
    //   mu'    = 1 + 1 * 0.1 * d / 2              -> 99939 raw
    //   d_sig  = 42*(0.25 - 1) + 42*(0.0625 - 1)  -> -4644864 raw
    //   sigma' = 1 + (0.1/2) * 1 * d_sig / 2      -> -50557 raw
    // (sigma may go negative: the scale is deliberately not clamped.)
    let Ok(mut nes) = NES::new(
        Constant::new(fx(42.)),
        vec![SCALE],
        vec![SCALE],
        2,
        6553,
        6553,
        false,
    ) else {
        panic!("construction must succeed");
    };
    let mut source = ReplaySource::new(vec![32768, -16384]);
    let fitness = nes.step(&mut source).unwrap();
    assert_eq!(fitness, vec![fx(42.), fx(42.)]);
    assert_eq!(nes.mu, vec![99939]);
    assert_eq!(nes.sigma, vec![-50557]);
}

#[test]
fn test_utility_table_exact_values() {
    for (n, expected) in [
        (2usize, vec![32768i64, -32768]),
        (3usize, vec![30857, -9012, -21845]),
    ] {
        let Ok(nes) = NES::new(
            Constant::new(fx(1.)),
            vec![fx(1.)],
            vec![fx(1.)],
            n,
            fx(0.1),
            fx(0.1),
            true,
        ) else {
            panic!("construction must succeed");
        };
        assert_eq!(nes.utility_function(), expected);
    }
}

#[test]
fn test_quadratic_objective_values() {
    let q = Quadratic::new();
    let fitness = q.call(&vec![fx(2.), fx(3.)]);
    assert_eq!(fitness, Evaluation::Value(fx(13.)));
    let zero = q.call(&vec![0, 0, 0]);
    assert_eq!(zero, Evaluation::Value(0));
    // an overflowing square is reported as non-finite
    let big = q.call(&vec![i64::MAX, i64::MAX]);
    assert_eq!(big, Evaluation::NonFinite);
}

#[test]
fn test_fixed_point_arithmetic() {
    assert_eq!(fx_mul(SCALE, SCALE), Some(SCALE));
    assert_eq!(fx_mul(fx(2.), fx(3.)), Some(fx(6.)));
    // rounding is toward zero on both sides
    assert_eq!(fx_mul(-1, 1), Some(0));
    assert_eq!(fx_div_count(-7, 2), -3);
    assert_eq!(fx_div_count(7, 2), 3);
    assert_eq!(fx_mul(i64::MAX, i64::MAX), None);
}

#[test]
fn test_ln_fixed_point() {
    assert_eq!(ln_fx(SCALE), 0);
    // ln 2 in SCALE units
    assert_eq!(ln_fx(2 * SCALE), 45426);
    // ln 4 is twice ln 2
    assert_eq!(ln_fx(4 * SCALE), 2 * 45426);
    // monotone between: ln(3/2) is about 0.4055
    let l = ln_fx(fx(1.5));
    assert!(l > fx(0.40) && l < fx(0.41), "got {}", l);
}

#[test]
fn test_array_from_vec_of_arrays() {
    let rows: Vec<Vec<i64>> = vec![vec![1, 2], vec![3, 4], vec![5, 6]];
    assert_eq!(array_from_vec_of_arrays(&rows), vec![1, 2, 3, 4, 5, 6]);
}

#[test]
fn test_scale_draws_pins_each_component() {
    // mean 2, std 0.5: draws 1.0 and -3.0 become 2.5 and 0.5
    let draws = vec![fx(1.0), fx(-3.0)];
    assert_eq!(
        scale_draws(&draws, fx(2.0), fx(0.5)),
        Ok(vec![fx(2.5), fx(0.5)])
    );
    // a draw at the edge of the range overflows when scaled up
    let big = vec![i64::MAX];
    assert_eq!(scale_draws(&big, 0, 2 * SCALE), Err(NesError::OverflowError));
}

#[test]
fn test_build_candidate_pins_each_component() {
    let z = vec![fx(0.5), fx(-1.0)];
    let mu = vec![fx(4.0), fx(8.0)];
    let sigma = vec![fx(2.0), fx(1.0)];
    assert_eq!(
        build_candidate(&z, &mu, &sigma),
        Ok(vec![fx(5.0), fx(7.0)])
    );
    // an in-range product pushed out of range by the mean overflows
    let z2 = vec![fx(1.0)];
    let mu2 = vec![i64::MAX];
    let sigma2 = vec![fx(1.0)];
    assert_eq!(
        build_candidate(&z2, &mu2, &sigma2),
        Err(NesError::OverflowError)
    );
}

#[test]
fn test_replay_source_cycles() {
    let mut source = ReplaySource::new(vec![1, 2, 3]);
    let mu = vec![0i64; 4];
    let v = random_gaussian_vector(&mut source, 4, 0, SCALE).unwrap();
    assert_eq!(v, vec![1, 2, 3, 1]);
    assert_eq!(mu.len(), 4);
}

#[test]
fn test_shaped_step_moves_toward_better_candidates() {
    // With shaping on and a quadratic objective (minimized by the sort
    // order convention: ascending fitness ranks first), a step succeeds
    // and keeps the state dimensions.
    let mu = vec![fx(4.), fx(8.)];
    let sigma = vec![fx(1.), fx(1.)];
    let Ok(mut nes) = NES::new(Quadratic::new(), mu, sigma, 10, fx(0.5), fx(0.1), true)
    else {
        panic!("construction must succeed");
    };
    let mut source = ReplaySource::new(vec![
        fx(0.5),
        fx(-0.25),
        fx(1.5),
        fx(-1.0),
        fx(0.75),
        fx(-0.5),
        fx(0.25),
    ]);
    for _ in 0..5 {
        let fitness = nes.step(&mut source).unwrap();
        assert_eq!(fitness.len(), 10);
    }
    assert_eq!(nes.mu.len(), 2);
    assert_eq!(nes.sigma.len(), 2);
}

//! Whole-run optimizer tests: reproducibility, offspring count, bounds,
//! configuration validation, and the two-variable benchmark scenario.

use minotaur::{Evaluation, Evaluator, NSGA2, NSGA2Config, ConfigError, SCALE};

const S: f64 = 1_000_000.0;

/// The two-variable benchmark evaluator: `f0 = x0`, `g = 1 + x1`,
/// `f1 = g * (1 - sqrt(x0 / g))`, always feasible. It records every
/// decision vector it is handed.
struct ZdtEvaluator {
    seen: Vec<Vec<i64>>,
}

impl ZdtEvaluator {
    fn new() -> ZdtEvaluator {
        ZdtEvaluator { seen: Vec::new() }
    }
}

impl Evaluator for ZdtEvaluator {
    fn evaluate(&mut self, x: &Vec<i64>) -> Evaluation {
        self.seen.push(x.clone());
        let x0 = x[0] as f64 / S;
        let x1 = x[1] as f64 / S;
        let f1 = x0;
        let g = 1.0 + x1;
        let f2 = g * (1.0 - (x0 / g).sqrt());
        Evaluation {
            objectives: vec![(f1 * S).round() as i64, (f2 * S).round() as i64],
            violation: 0,
            status: 0,
            outputs: vec![],
        }
    }
}

fn expect_err(r: Result<NSGA2, ConfigError>) -> ConfigError {
    match r {
        Ok(_) => panic!("configuration unexpectedly accepted"),
        Err(e) => e,
    }
}

fn unit_square_config(pop: usize, gens: usize) -> NSGA2Config {
    NSGA2Config {
        pop_size: pop,
        generations: gens,
        bounds: vec![(0, SCALE), (0, SCALE)],
        ..Default::default()
    }
}

#[test]
fn test_nsga2_simple() {
    let config = unit_square_config(20, 5);
    let mut optimizer = NSGA2::new(config).unwrap();
    let mut eval_fn = ZdtEvaluator::new();
    let front = optimizer.optimize(&mut eval_fn);
    assert!(!front.solutions.is_empty());
}

#[test]
fn test_nsga2_initialization() {
    let config = unit_square_config(20, 1);
    let mut optimizer = NSGA2::new(config.clone()).unwrap();
    optimizer.initialize_population();

    let pop = optimizer.get_population();
    assert_eq!(pop.len(), config.pop_size);

    for ind in pop.iter() {
        assert!(ind.x[0] >= 0 && ind.x[0] <= SCALE);
        assert!(ind.x[1] >= 0 && ind.x[1] <= SCALE);
    }
}

#[test]
fn test_nsga2_optimization() {
    // the benchmark scenario: twenty individuals, ten generations, seed 42
    let config = unit_square_config(20, 10);
    assert_eq!(config.seed, 42);
    let mut optimizer = NSGA2::new(config).unwrap();
    let mut eval_fn = ZdtEvaluator::new();
    let front = optimizer.optimize(&mut eval_fn);

    assert!(!front.solutions.is_empty(), "Should find Pareto solutions");
    assert!(front.solutions.len() <= 20, "Front size bounded by pop size");

    for sol in &front.solutions {
        assert_eq!(sol.rank, 0, "Front solutions should be rank 0");
        assert!(sol.x[0] >= 0 && sol.x[0] <= SCALE);
        assert!(sol.x[1] >= 0 && sol.x[1] <= SCALE);
        // the returned objective pairs approximately trace
        // f1 = 1 - sqrt(f0)
        let f0 = sol.f[0] as f64 / S;
        let f1 = sol.f[1] as f64 / S;
        let ideal = 1.0 - f0.max(0.0).sqrt();
        assert!((f1 - ideal).abs() < 0.35, "objective pair far off the front: {} {}", f0, f1);
    }
}

#[test]
fn test_reproducibility() {
    // identical configuration and evaluator: identical evaluated decision
    // vector sequences and an identical final front
    let mut opt_one = NSGA2::new(unit_square_config(12, 4)).unwrap();
    let mut opt_two = NSGA2::new(unit_square_config(12, 4)).unwrap();
    let mut eval_one = ZdtEvaluator::new();
    let mut eval_two = ZdtEvaluator::new();
    let front_one = opt_one.optimize(&mut eval_one);
    let front_two = opt_two.optimize(&mut eval_two);

    assert_eq!(eval_one.seen, eval_two.seen);
    assert_eq!(front_one.solutions.len(), front_two.solutions.len());
    for (a, b) in front_one.solutions.iter().zip(front_two.solutions.iter()) {
        assert_eq!(a.x, b.x);
        assert_eq!(a.f, b.f);
        assert_eq!(a.rank, b.rank);
        assert_eq!(a.crowding_distance, b.crowding_distance);
    }
}

#[test]
fn test_offspring_count_odd_population() {
    // offspring count equals the population size even when it is odd
    let config = NSGA2Config {
        pop_size: 21,
        generations: 1,
        bounds: vec![(0, SCALE), (0, SCALE)],
        ..Default::default()
    };
    let mut optimizer = NSGA2::new(config).unwrap();
    let mut eval_fn = ZdtEvaluator::new();
    optimizer.initialize_population();
    optimizer.evaluate(&mut eval_fn);
    optimizer.non_dominated_sort();
    optimizer.crowding_distance();
    let seen_before = eval_fn.seen.len();
    let offspring = optimizer.create_offspring(&mut eval_fn);
    assert_eq!(offspring.len(), 21);
    // both children of every pair are evaluated; the surplus child of the
    // last pair is evaluated and then discarded
    assert_eq!(eval_fn.seen.len(), seen_before + 22);
}

#[test]
fn test_bounds_every_generation() {
    // the evaluator sees every candidate of every generation; all genes
    // stay within their configured intervals
    let config = NSGA2Config {
        pop_size: 10,
        generations: 5,
        bounds: vec![(200_000, 1_500_000), (4_000_000, 16_000_000)],
        ..Default::default()
    };
    let mut optimizer = NSGA2::new(config).unwrap();
    let mut eval_fn = ZdtEvaluator::new();
    let _ = optimizer.optimize(&mut eval_fn);
    assert!(!eval_fn.seen.is_empty());
    for x in &eval_fn.seen {
        assert!(x[0] >= 200_000 && x[0] <= 1_500_000);
        assert!(x[1] >= 4_000_000 && x[1] <= 16_000_000);
    }
}

#[test]
fn test_config_rejects_bad_population() {
    let config = NSGA2Config { pop_size: 0, ..Default::default() };
    assert_eq!(expect_err(NSGA2::new(config)), ConfigError::BadPopulationSize);
}

#[test]
fn test_config_rejects_bad_objective_count() {
    let config = NSGA2Config { num_objectives: 0, ..Default::default() };
    assert_eq!(expect_err(NSGA2::new(config)), ConfigError::BadObjectiveCount);
}

#[test]
fn test_config_rejects_bad_probability() {
    let config = NSGA2Config { crossover_prob: SCALE + 1, ..Default::default() };
    assert_eq!(expect_err(NSGA2::new(config)), ConfigError::BadProbability);
    let config = NSGA2Config { mutation_prob: -1, ..Default::default() };
    assert_eq!(expect_err(NSGA2::new(config)), ConfigError::BadProbability);
}

#[test]
fn test_config_rejects_bad_distribution_index() {
    let config = NSGA2Config { eta_c: 0, ..Default::default() };
    assert_eq!(expect_err(NSGA2::new(config)), ConfigError::BadDistributionIndex);
}

#[test]
fn test_config_rejects_empty_bounds() {
    let config = NSGA2Config { bounds: vec![], ..Default::default() };
    assert_eq!(expect_err(NSGA2::new(config)), ConfigError::EmptyBounds);
}

#[test]
fn test_config_rejects_inverted_bound() {
    let config = NSGA2Config { bounds: vec![(1_000_000, 0)], ..Default::default() };
    assert_eq!(expect_err(NSGA2::new(config)), ConfigError::BadBound);
}

#[test]
fn test_generation_count_reported() {
    let config = unit_square_config(8, 3);
    let mut optimizer = NSGA2::new(config).unwrap();
    let mut eval_fn = ZdtEvaluator::new();
    let front = optimizer.optimize(&mut eval_fn);
    assert_eq!(front.generation, 3);
    assert!(front.hypervolume.is_none());
}

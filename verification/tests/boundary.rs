//! Evaluator-boundary sanitization and selection-order tests.

use minotaur::{Evaluation, Evaluator, NSGA2, NSGA2Config, SCALE, VAL_LIMIT};

/// An evaluator that breaks its contract: wrong objective count and a
/// negative violation. The optimizer must sanitize both.
struct MisbehavingEvaluator;

impl Evaluator for MisbehavingEvaluator {
    fn evaluate(&mut self, _x: &Vec<i64>) -> Evaluation {
        Evaluation {
            objectives: vec![1, 2, 3, 4, 5],
            violation: -7,
            status: 99,
            outputs: vec![],
        }
    }
}

/// An evaluator returning objective magnitudes far beyond the value cap.
struct OverflowingEvaluator;

impl Evaluator for OverflowingEvaluator {
    fn evaluate(&mut self, _x: &Vec<i64>) -> Evaluation {
        Evaluation {
            objectives: vec![i64::MAX, i64::MIN],
            violation: i64::MAX,
            status: 0,
            outputs: vec![],
        }
    }
}

fn small_config() -> NSGA2Config {
    NSGA2Config {
        pop_size: 4,
        generations: 1,
        bounds: vec![(0, SCALE), (0, SCALE)],
        ..Default::default()
    }
}

#[test]
fn test_wrong_objective_count_is_sanitized() {
    let mut opt = NSGA2::new(small_config()).unwrap();
    let mut eval_fn = MisbehavingEvaluator;
    opt.initialize_population();
    opt.evaluate(&mut eval_fn);
    for ind in opt.get_population().iter() {
        // the configured objective count is enforced, with worst values
        assert_eq!(ind.f, vec![VAL_LIMIT, VAL_LIMIT]);
        // a negative violation is clamped to feasible
        assert_eq!(ind.cv, 0);
        // the status code is carried through uninterpreted
        assert_eq!(ind.status, 99);
    }
}

#[test]
fn test_overflowing_objectives_are_clamped() {
    let mut opt = NSGA2::new(small_config()).unwrap();
    let mut eval_fn = OverflowingEvaluator;
    opt.initialize_population();
    opt.evaluate(&mut eval_fn);
    for ind in opt.get_population().iter() {
        assert_eq!(ind.f, vec![VAL_LIMIT, -VAL_LIMIT]);
        assert_eq!(ind.cv, VAL_LIMIT);
    }
}

/// A plain trade-off evaluator on two variables.
struct TradeOff;

impl Evaluator for TradeOff {
    fn evaluate(&mut self, x: &Vec<i64>) -> Evaluation {
        Evaluation {
            objectives: vec![x[0], SCALE - x[0]],
            violation: 0,
            status: 0,
            outputs: vec![],
        }
    }
}

#[test]
fn test_final_population_sorted_by_rank_then_crowding() {
    let config = NSGA2Config {
        pop_size: 16,
        generations: 3,
        bounds: vec![(0, SCALE), (0, SCALE)],
        ..Default::default()
    };
    let mut opt = NSGA2::new(config).unwrap();
    let mut eval_fn = TradeOff;
    let front = opt.optimize(&mut eval_fn);
    assert!(!front.solutions.is_empty());
    let pop = opt.get_population();
    assert_eq!(pop[0].rank, 0);
    for w in pop.windows(2) {
        assert!(
            w[0].rank < w[1].rank
                || (w[0].rank == w[1].rank
                    && w[0].crowding_distance >= w[1].crowding_distance)
        );
    }
}

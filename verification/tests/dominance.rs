//! Dominance relation tests. Real values are fixed point with one million
//! as one.

use minotaur::Individual;

#[test]
fn test_dominance() {
    let mut a = Individual::new(vec![1_000_000, 1_000_000]);
    a.f = vec![1_000_000, 2_000_000];
    a.cv = 0;

    let mut b = Individual::new(vec![1_000_000, 1_000_000]);
    b.f = vec![2_000_000, 3_000_000];
    b.cv = 0;

    assert!(a.dominates(&b));
    assert!(!b.dominates(&a));
}

#[test]
fn test_individual_dominance() {
    let mut a = Individual::new(vec![1_000_000, 1_000_000]);
    a.f = vec![1_000_000, 2_000_000];
    a.cv = 0;

    let mut b = Individual::new(vec![1_000_000, 1_000_000]);
    b.f = vec![2_000_000, 3_000_000];
    b.cv = 0;

    assert!(a.dominates(&b), "a should dominate b");
    assert!(!b.dominates(&a), "b should not dominate a");
}

#[test]
fn test_dominance_is_irreflexive() {
    let mut a = Individual::new(vec![0, 0]);
    a.f = vec![500_000, 700_000];
    a.cv = 250_000;
    assert!(!a.dominates(&a));
}

#[test]
fn test_dominance_equal_vectors() {
    // equal violation and equal objectives: neither dominates
    let mut a = Individual::new(vec![0]);
    a.f = vec![1_000_000, 2_000_000];
    let mut b = Individual::new(vec![0]);
    b.f = vec![1_000_000, 2_000_000];
    assert!(!a.dominates(&b));
    assert!(!b.dominates(&a));
}

#[test]
fn test_dominance_feasibility_first() {
    // a lower constraint violation dominates regardless of objectives
    let mut worse_objectives = Individual::new(vec![0]);
    worse_objectives.f = vec![9_000_000, 9_000_000];
    worse_objectives.cv = 0;
    let mut better_objectives = Individual::new(vec![0]);
    better_objectives.f = vec![1_000_000, 1_000_000];
    better_objectives.cv = 1;
    assert!(worse_objectives.dominates(&better_objectives));
    assert!(!better_objectives.dominates(&worse_objectives));
}

#[test]
fn test_dominance_incomparable() {
    // a trade-off pair: each is better somewhere
    let mut a = Individual::new(vec![0]);
    a.f = vec![1_000_000, 3_000_000];
    let mut b = Individual::new(vec![0]);
    b.f = vec![2_000_000, 1_000_000];
    assert!(!a.dominates(&b));
    assert!(!b.dominates(&a));
}

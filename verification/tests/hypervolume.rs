//! Hypervolume indicator tests.

use minotaur::{Individual, hypervolume_2d};

fn point(f0: i64, f1: i64) -> Individual {
    let mut ind = Individual::new(vec![]);
    ind.f = vec![f0, f1];
    ind
}

#[test]
fn test_hypervolume() {
    let ind1 = point(500_000, 500_000);
    let ind2 = point(300_000, 800_000);
    let front = vec![ind1, ind2];
    let ref_point = (1_000_000, 1_000_000);

    let hv = hypervolume_2d(&front, ref_point);
    assert!(hv > 0, "Hypervolume should be positive");
    assert!(hv < 1_000_000, "Hypervolume should be less than reference area");
}

#[test]
fn test_hypervolume_exact_and_reproducible() {
    // front {(0.3, 0.8), (0.5, 0.5)} against reference (1.0, 1.0):
    // 0.7 * 0.2 + 0.5 * 0.3 = 0.29
    let front = vec![point(300_000, 800_000), point(500_000, 500_000)];
    let ref_point = (1_000_000, 1_000_000);
    let hv = hypervolume_2d(&front, ref_point);
    assert_eq!(hv, 290_000);
    assert!(hv > 0 && hv < 1_000_000);
    let again = hypervolume_2d(&front, ref_point);
    assert_eq!(hv, again);
}

#[test]
fn test_hypervolume_empty_front() {
    let front: Vec<Individual> = vec![];
    assert_eq!(hypervolume_2d(&front, (1_000_000, 1_000_000)), 0);
}

#[test]
fn test_hypervolume_dominated_reference() {
    // a point outside the reference contributes nothing
    let front = vec![point(2_000_000, 2_000_000)];
    assert_eq!(hypervolume_2d(&front, (1_000_000, 1_000_000)), 0);
}

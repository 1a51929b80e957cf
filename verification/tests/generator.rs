//! Deterministic generator tests.

use minotaur::{Lcg, SCALE};

#[test]
fn test_same_seed_same_draws() {
    let mut a = Lcg::new(42);
    let mut b = Lcg::new(42);
    for _ in 0..100 {
        assert_eq!(a.next_unit(), b.next_unit());
    }
    for n in 1..50usize {
        assert_eq!(a.next_below(n), b.next_below(n));
    }
}

#[test]
fn test_different_seeds_diverge() {
    let mut a = Lcg::new(1);
    let mut b = Lcg::new(2);
    let draws_a: Vec<i64> = (0..16).map(|_| a.next_unit()).collect();
    let draws_b: Vec<i64> = (0..16).map(|_| b.next_unit()).collect();
    assert_ne!(draws_a, draws_b);
}

#[test]
fn test_unit_draw_range() {
    let mut rng = Lcg::new(7);
    for _ in 0..1000 {
        let u = rng.next_unit();
        assert!(u >= 0 && u < SCALE);
    }
}

#[test]
fn test_below_draw_range() {
    let mut rng = Lcg::new(7);
    for n in 1..200usize {
        let k = rng.next_below(n);
        assert!(k < n);
    }
}

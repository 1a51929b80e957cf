//! Variation operator tests through the public operator functions.

use minotaur::ops::{sbx_crossover, polynomial_mutation, tournament_select};
use minotaur::{Individual, Lcg, SCALE};

#[test]
fn test_sbx_skip_keeps_parents() {
    // with crossover probability zero the first draw nearly always skips
    // recombination and the children copy the parents exactly
    let bounds = vec![(0, SCALE), (0, SCALE)];
    let p1 = vec![250_000, 750_000];
    let p2 = vec![600_000, 100_000];
    let mut rng = Lcg::new(42);
    let (c1, c2) = sbx_crossover(&p1, &p2, &bounds, 0, 20, &mut rng);
    assert_eq!(c1, p1);
    assert_eq!(c2, p2);
}

#[test]
fn test_sbx_children_in_bounds() {
    let bounds = vec![(0, SCALE), (200_000, 900_000), (-SCALE, SCALE)];
    let p1 = vec![0, 200_000, -SCALE];
    let p2 = vec![SCALE, 900_000, SCALE];
    let mut rng = Lcg::new(3);
    for _ in 0..50 {
        let (c1, c2) = sbx_crossover(&p1, &p2, &bounds, SCALE, 15, &mut rng);
        for j in 0..3 {
            assert!(c1[j] >= bounds[j].0 && c1[j] <= bounds[j].1);
            assert!(c2[j] >= bounds[j].0 && c2[j] <= bounds[j].1);
        }
    }
}

#[test]
fn test_mutation_stays_in_bounds() {
    let bounds = vec![(100_000, 300_000)];
    let mut rng = Lcg::new(9);
    let mut x = vec![200_000];
    for _ in 0..200 {
        // mutate every gene every time
        polynomial_mutation(&mut x, &bounds, SCALE, 20, &mut rng);
        assert!(x[0] >= 100_000 && x[0] <= 300_000);
    }
}

#[test]
fn test_tournament_prefers_lower_rank() {
    // the better-ranked member loses only when both draws hit the other,
    // so over many selections it must win most tournaments
    let mut best = Individual::new(vec![0]);
    best.rank = 0;
    let mut worst = Individual::new(vec![0]);
    worst.rank = 5;
    let pool = vec![best, worst];
    let mut rng = Lcg::new(11);
    let mut best_wins = 0;
    for _ in 0..100 {
        if tournament_select(&pool, &mut rng) == 0 {
            best_wins += 1;
        }
    }
    assert!(best_wins >= 60, "better rank won only {} of 100", best_wins);
}

#[test]
fn test_tournament_breaks_rank_ties_by_crowding() {
    // at equal rank the winner is never the member with the smaller
    // crowding distance when the draws differ; with both draws equal the
    // drawn member wins, so again the crowded member must dominate
    let mut roomy = Individual::new(vec![0]);
    roomy.rank = 0;
    roomy.crowding_distance = 1_000_000;
    let mut cramped = Individual::new(vec![0]);
    cramped.rank = 0;
    cramped.crowding_distance = 10;
    let pool = vec![roomy, cramped];
    let mut rng = Lcg::new(5);
    let mut roomy_wins = 0;
    for _ in 0..100 {
        if tournament_select(&pool, &mut rng) == 0 {
            roomy_wins += 1;
        }
    }
    assert!(roomy_wins >= 60, "larger crowding won only {} of 100", roomy_wins);
}

//! Non-dominated sorting and crowding distance tests, on hand-built pools.

use minotaur::{Individual, NSGA2, NSGA2Config, CROWD_INF};

fn evaluated(f: Vec<i64>) -> Individual {
    let mut ind = Individual::new(vec![0, 0]);
    ind.f = f;
    ind.cv = 0;
    ind
}

fn optimizer_with_pool(pool: Vec<Individual>) -> NSGA2 {
    let config = NSGA2Config { pop_size: pool.len(), generations: 1, ..Default::default() };
    let mut opt = NSGA2::new(config).unwrap();
    opt.population = pool;
    opt
}

#[test]
fn test_two_front_ranking() {
    // the first dominates the second, which dominates the third
    let pool = vec![
        evaluated(vec![1_000_000, 1_000_000]),
        evaluated(vec![2_000_000, 2_000_000]),
        evaluated(vec![3_000_000, 3_000_000]),
    ];
    let mut opt = optimizer_with_pool(pool);
    opt.non_dominated_sort();
    let pop = opt.get_population();
    assert_eq!(pop[0].rank, 0);
    assert_eq!(pop[1].rank, 1);
    assert_eq!(pop[2].rank, 2);
}

#[test]
fn test_ranking_deterministic() {
    // re-running the sorting on an unchanged pool yields identical ranks
    let pool = vec![
        evaluated(vec![1_000_000, 4_000_000]),
        evaluated(vec![2_000_000, 3_000_000]),
        evaluated(vec![3_000_000, 3_000_000]),
        evaluated(vec![2_500_000, 2_500_000]),
        evaluated(vec![5_000_000, 5_000_000]),
    ];
    let mut opt = optimizer_with_pool(pool);
    opt.non_dominated_sort();
    let first: Vec<usize> = opt.get_population().iter().map(|i| i.rank).collect();
    opt.non_dominated_sort();
    let second: Vec<usize> = opt.get_population().iter().map(|i| i.rank).collect();
    assert_eq!(first, second);
}

#[test]
fn test_rank_zero_mutually_nondominating() {
    let pool = vec![
        evaluated(vec![1_000_000, 4_000_000]),
        evaluated(vec![2_000_000, 3_000_000]),
        evaluated(vec![3_000_000, 2_000_000]),
        evaluated(vec![4_000_000, 4_000_000]),
    ];
    let mut opt = optimizer_with_pool(pool);
    opt.non_dominated_sort();
    let pop = opt.get_population();
    for i in 0..pop.len() {
        for j in 0..pop.len() {
            if i != j && pop[i].rank == 0 && pop[j].rank == 0 {
                assert!(!pop[i].dominates(&pop[j]));
            }
        }
    }
}

#[test]
fn test_crowding_small_front_infinite() {
    // a front of two: both members at infinity
    let pool = vec![
        evaluated(vec![1_000_000, 2_000_000]),
        evaluated(vec![2_000_000, 1_000_000]),
    ];
    let mut opt = optimizer_with_pool(pool);
    opt.non_dominated_sort();
    opt.crowding_distance();
    let pop = opt.get_population();
    assert_eq!(pop[0].crowding_distance, CROWD_INF);
    assert_eq!(pop[1].crowding_distance, CROWD_INF);
}

#[test]
fn test_crowding_boundaries_and_interior() {
    // one front of four mutually non-dominating members
    let pool = vec![
        evaluated(vec![1_000_000, 4_000_000]),
        evaluated(vec![2_000_000, 3_000_000]),
        evaluated(vec![3_000_000, 2_000_000]),
        evaluated(vec![4_000_000, 1_000_000]),
    ];
    let mut opt = optimizer_with_pool(pool);
    opt.non_dominated_sort();
    opt.crowding_distance();
    let pop = opt.get_population();
    for ind in pop.iter() {
        assert_eq!(ind.rank, 0);
    }
    // boundary members on each objective sit at infinity
    assert_eq!(pop[0].crowding_distance, CROWD_INF);
    assert_eq!(pop[3].crowding_distance, CROWD_INF);
    // each interior member accumulates (f[next]-f[prev])/range per
    // objective: (2/3) + (2/3) of one, in fixed point with truncation
    assert_eq!(pop[1].crowding_distance, 2 * 666_666);
    assert_eq!(pop[2].crowding_distance, 2 * 666_666);
}

#[test]
fn test_crowding_single_member_front() {
    let pool = vec![evaluated(vec![1_000_000, 1_000_000])];
    let mut opt = optimizer_with_pool(pool);
    opt.non_dominated_sort();
    opt.crowding_distance();
    assert_eq!(opt.get_population()[0].crowding_distance, CROWD_INF);
}

//! The optimizer: configuration, population lifecycle and the generational
//! driver.

use vstd::prelude::*;
use vstd::arithmetic::mul::*;
use vstd::arithmetic::div_mod::*;
use vstd::pervasive::VecAdditionalExecFns;
use crate::fixed::{SCALE, mul_fx, fxmul};
use crate::individual::{Individual, VAL_LIMIT, BOUND_LIMIT, CROWD_INF, genes_in_bounds,
    evaluated_wf, ind_dominates, clone_genes};
use crate::rng::{Lcg, lcg_iter};
use crate::ranking::{assign_ranks, valid_ranking, uniform_objectives, same_eval, same_eval_seq,
    lemma_exists_rank_zero};
use crate::crowding::{crowding_assign, count_rank, objectives_bounded, same_but_crowding,
    same_but_crowding_seq, crowding_bounded_upto, small_fronts_infinite_upto, front_extremes_upto,
    infinite_only_extremes_upto, lemma_count_rank_pos, M_LIMIT};
use crate::ops::{tournament_select, sbx_crossover, polynomial_mutation, tourney_pick,
    sbx_genes_prefix, mutate_genes_prefix, lemma_lcg_iter_add};
use crate::rng::{lcg_next, lcg_unit, lcg_below};
use crate::sorting::{Entry, key_le, sorted, sort_spec, sort_entries, lemma_sort_spec_sorted,
    lemma_sort_spec_multiset, lemma_sort_spec_contains};
use crate::evaluator::{Evaluation, Evaluator};

verus! {

/// Cap on the population size; far below any index overflow.
pub const POP_LIMIT: usize = 1_000_000;

/// A fatal configuration fault, reported before any generation runs.
#[derive(Debug, PartialEq, Eq, Clone, Copy)]
pub enum ConfigError {
    /// Population size out of `[1, POP_LIMIT]`.
    BadPopulationSize,
    /// Objective count out of `[1, M_LIMIT]`.
    BadObjectiveCount,
    /// A probability out of `[0, 1]`.
    BadProbability,
    /// A distribution index out of `[1, 100]`.
    BadDistributionIndex,
    /// No decision variables.
    EmptyBounds,
    /// A bound pair out of order or out of magnitude range.
    BadBound,
}

/// Optimizer configuration. Probabilities and bounds are fixed point;
/// distribution indices are integral.
#[derive(Debug, Clone)]
pub struct NSGA2Config {
    /// Population size.
    pub pop_size: usize,
    /// Number of generations.
    pub generations: usize,
    /// Number of objectives the evaluator returns.
    pub num_objectives: usize,
    /// Crossover probability in `[0, 1]`.
    pub crossover_prob: i64,
    /// Per-gene mutation probability in `[0, 1]`.
    pub mutation_prob: i64,
    /// Distribution index for the crossover spread.
    pub eta_c: u32,
    /// Distribution index for the mutation perturbation.
    pub eta_m: u32,
    /// Per-dimension closed intervals for the decision variables.
    pub bounds: Vec<(i64, i64)>,
    /// Seed of the deterministic generator.
    pub seed: u64,
}

/// The first configuration fault, in the order the constructor checks them;
/// a valid configuration has none.
pub open spec fn config_fault(c: NSGA2Config) -> Option<ConfigError> {
    if c.pop_size < 1 || c.pop_size > POP_LIMIT {
        Some(ConfigError::BadPopulationSize)
    } else if c.num_objectives < 1 || c.num_objectives > M_LIMIT {
        Some(ConfigError::BadObjectiveCount)
    } else if !(0 <= c.crossover_prob <= SCALE) || !(0 <= c.mutation_prob <= SCALE) {
        Some(ConfigError::BadProbability)
    } else if !(1 <= c.eta_c <= 100) || !(1 <= c.eta_m <= 100) {
        Some(ConfigError::BadDistributionIndex)
    } else if c.bounds@.len() < 1 {
        Some(ConfigError::EmptyBounds)
    } else if exists|j: int|
        0 <= j < c.bounds@.len() && !(-BOUND_LIMIT <= (#[trigger] c.bounds@[j]).0 <= c.bounds@[j].1
            <= BOUND_LIMIT) {
        Some(ConfigError::BadBound)
    } else {
        None
    }
}

/// A configuration the optimizer accepts.
pub open spec fn config_valid(c: NSGA2Config) -> bool {
    config_fault(c) is None
}

impl Default for NSGA2Config {
    /// A hundred individuals over fifty generations, two objectives,
    /// crossover probability 0.9, mutation probability 0.1, both
    /// distribution indices 20, four bounded variables, seed 42.
    fn default() -> (c: NSGA2Config)
        ensures
            c.pop_size == 100,
            c.generations == 50,
            c.num_objectives == 2,
            c.crossover_prob == 900_000,
            c.mutation_prob == 100_000,
            c.eta_c == 20,
            c.eta_m == 20,
            c.bounds@.len() == 4,
            c.seed == 42,
            config_valid(c),
    {
        let mut bounds: Vec<(i64, i64)> = Vec::new();
        bounds.push((200_000, 1_500_000));
        bounds.push((4_000_000, 16_000_000));
        bounds.push((750_000, 900_000));
        bounds.push((800_000, 920_000));
        NSGA2Config {
            pop_size: 100,
            generations: 50,
            num_objectives: 2,
            crossover_prob: 900_000,
            mutation_prob: 100_000,
            eta_c: 20,
            eta_m: 20,
            bounds,
            seed: 42,
        }
    }
}

/// The unshuffled stratum order of a population of `n`: the identity.
pub open spec fn stratum_order_base(n: nat) -> Seq<usize> {
    Seq::new(n, |i: int| i as usize)
}

/// The gene drawn for stratum `k` of `n` with unit draw `u`: the fraction
/// `(k + u) / n` of the way across the bound interval, in fixed point.
pub open spec fn stratum_gene(b: (i64, i64), k: int, u: int, n: int) -> int {
    b.0 + fxmul((k * (SCALE as int) + u) / n, b.1 - b.0)
}

/// One Fisher-Yates step at position `i`: the swap index is drawn below
/// `i + 1` and the generator advances once.
pub open spec fn shuffle_step(ord: Seq<usize>, s: u64, i: int) -> (Seq<usize>, u64) {
    let j = lcg_below(s, i + 1);
    (ord.update(i, ord[j]).update(j, ord[i]), lcg_next(s))
}

/// The Fisher-Yates shuffle from position `i` down to one, exactly as the
/// initializer draws it.
pub open spec fn shuffle_down(ord: Seq<usize>, s: u64, i: int) -> (Seq<usize>, u64)
    decreases i,
{
    if i <= 0 {
        (ord, s)
    } else {
        let st = shuffle_step(ord, s, i);
        shuffle_down(st.0, st.1, i - 1)
    }
}

/// The per-dimension stratum orders: each dimension shuffles the identity
/// order with the generator state left by the previous dimension.
pub open spec fn strata_spec(n: nat, s: u64, dims: nat) -> (Seq<Seq<usize>>, u64)
    decreases dims,
{
    if dims == 0 {
        (Seq::empty(), s)
    } else {
        let prev = strata_spec(n, s, (dims - 1) as nat);
        let sh = shuffle_down(stratum_order_base(n), prev.1, n as int - 1);
        (prev.0.push(sh.0), sh.1)
    }
}

/// The gene lies in stratum `k` of `n`: it equals the stratum formula for
/// some unit draw.
pub open spec fn gene_in_stratum(g: i64, b: (i64, i64), k: int, n: int) -> bool {
    exists|u: int| 0 <= u < SCALE && g == #[trigger] stratum_gene(b, k, u, n)
}

/// The stratified-sampling guarantee of the initializer: `strats` holds,
/// per dimension, a permutation of the `n` strata, and each individual's
/// gene was drawn inside its assigned stratum. Joint coverage across
/// dimensions is not claimed, only marginal.
pub open spec fn stratified_init(
    strats: Seq<Seq<usize>>,
    pop: Seq<Individual>,
    bounds: Seq<(i64, i64)>,
    n: int,
) -> bool {
    &&& strats.len() == bounds.len()
    &&& pop.len() == n
    &&& forall|j: int|
        0 <= j < strats.len() ==> (#[trigger] strats[j]).len() == n
            && strats[j].to_multiset() == stratum_order_base(n as nat).to_multiset()
    &&& forall|i: int, j: int|
        #![trigger strats[j][i]]
        0 <= i < n && 0 <= j < strats.len() ==> gene_in_stratum(
            pop[i].x@[j],
            bounds[j],
            strats[j][i] as int,
            n,
        )
}

/// Swapping two positions of a sequence keeps its multiset.
proof fn lemma_swap_multiset<A>(s: Seq<A>, i: int, j: int)
    requires
        0 <= i < s.len(),
        0 <= j < s.len(),
    ensures
        s.update(i, s[j]).update(j, s[i]).to_multiset() == s.to_multiset(),
{
    broadcast use vstd::seq_lib::lemma_update_is_remove_insert;
    broadcast use vstd::seq_lib::to_multiset_remove;
    broadcast use vstd::seq_lib::to_multiset_insert;
    broadcast use vstd::seq_lib::group_to_multiset_ensures;
    broadcast use vstd::multiset::group_multiset_axioms;

    if i == j {
        assert(s.update(i, s[j]).update(j, s[i]) =~= s);
    } else {
        let s1 = s.update(i, s[j]);
        let s2 = s1.update(j, s[i]);
        assert(s1.to_multiset() == s.to_multiset().remove(s[i]).insert(s[j])) by {
            assert(s1 == s.remove(i).insert(i, s[j]));
            assert(s.remove(i).to_multiset() == s.to_multiset().remove(s[i]));
            assert(s.remove(i).insert(i, s[j]).to_multiset() == s.remove(i).to_multiset().insert(
                s[j],
            ));
        }
        assert(s1[j] == s[j]);
        assert(s2.to_multiset() == s1.to_multiset().remove(s[j]).insert(s[i])) by {
            assert(s2 == s1.remove(j).insert(j, s[i]));
            assert(s1.remove(j).to_multiset() == s1.to_multiset().remove(s1[j]));
            assert(s1.remove(j).insert(j, s[i]).to_multiset() == s1.remove(j).to_multiset().insert(
                s[i],
            ));
        }
        assert(s.contains(s[i]));
        assert(s.to_multiset().count(s[i]) > 0);
        assert(s2.to_multiset() =~= s.to_multiset());
    }
}

/// The sanitized image of a raw objective vector: a vector of the wrong
/// length is replaced wholesale by the worst representable objectives, and
/// every in-range value passes through unchanged while out-of-range values
/// are clamped to the value cap.
pub open spec fn sanitized_objectives(raw: Seq<i64>, m: nat) -> Seq<i64> {
    Seq::new(
        m as nat,
        |k: int|
            if raw.len() != m {
                VAL_LIMIT
            } else if raw[k] < -VAL_LIMIT {
                (-VAL_LIMIT) as i64
            } else if raw[k] > VAL_LIMIT {
                VAL_LIMIT
            } else {
                raw[k]
            },
    )
}

/// The sanitized image of a raw constraint violation: clamped into
/// `[0, VAL_LIMIT]`, so a negative report counts as feasible.
pub open spec fn sanitized_violation(v: i64) -> i64 {
    if v < 0 {
        0
    } else if v > VAL_LIMIT {
        VAL_LIMIT
    } else {
        v
    }
}

/// The stored evaluation is the sanitized image of the evaluator's result
/// `ev`: objectives and violation clamped as above, status and auxiliary
/// outputs carried verbatim.
pub open spec fn sanitized_evaluation(ind: Individual, ev: Evaluation, m: nat) -> bool {
    &&& ind.f@ == sanitized_objectives(ev.objectives@, m)
    &&& ind.cv == sanitized_violation(ev.violation)
    &&& ind.status == ev.status
    &&& ind.outputs@ == ev.outputs@
}

/// Every member carries the sanitized image of its entry in `evs`, a
/// sequence of evaluator results.
pub open spec fn evaluations_of(pop: Seq<Individual>, evs: Seq<Evaluation>, m: nat) -> bool {
    evs.len() == pop.len() && forall|t: int|
        0 <= t < pop.len() ==> sanitized_evaluation(#[trigger] pop[t], evs[t], m)
}

/// A fresh, not yet evaluated individual of dimension matching `bounds`.
pub open spec fn fresh_individual(ind: Individual, bounds: Seq<(i64, i64)>) -> bool {
    &&& genes_in_bounds(ind.x@, bounds)
    &&& ind.f@ == Seq::<i64>::empty()
    &&& ind.cv == 0
    &&& ind.rank == usize::MAX
    &&& ind.crowding_distance == 0
    &&& ind.status == -1
}

/// A well-formed evaluated population for a given configuration: genes
/// within bounds and sanitized evaluations of the configured objective
/// count.
pub open spec fn pop_wf(pop: Seq<Individual>, c: NSGA2Config) -> bool {
    forall|i: int|
        0 <= i < pop.len() ==> genes_in_bounds((#[trigger] pop[i]).x@, c.bounds@) && evaluated_wf(
            pop[i],
            c.num_objectives as int,
        )
}

/// A well-formed population is uniform and bounded in the senses the
/// sorting and crowding passes ask for.
pub proof fn lemma_pop_wf_bridge(pop: Seq<Individual>, c: NSGA2Config)
    requires
        pop_wf(pop, c),
        config_valid(c),
    ensures
        uniform_objectives(pop),
        objectives_bounded(pop),
{
    assert forall|i: int, j: int|
        0 <= i < pop.len() && 0 <= j < pop.len() implies #[trigger] pop[i].f@.len()
        == #[trigger] pop[j].f@.len() by {
        assert(evaluated_wf(pop[i], c.num_objectives as int));
        assert(evaluated_wf(pop[j], c.num_objectives as int));
    }
    assert forall|i: int|
        0 <= i < pop.len() implies (#[trigger] pop[i].f@).len() <= M_LIMIT && forall|m: int|
            0 <= m < pop[i].f@.len() ==> -VAL_LIMIT <= #[trigger] pop[i].f@[m] <= VAL_LIMIT by {
        assert(evaluated_wf(pop[i], c.num_objectives as int));
    }
}

/// One parent pair's worth of offspring decision vectors: two tournaments
/// (two draws each), the crossover coin, the per-gene crossover draws and
/// the two per-child mutation passes, all threaded from state `s`.
pub open spec fn offspring_step(
    pool: Seq<Individual>,
    bounds: Seq<(i64, i64)>,
    pc: i64,
    pm: i64,
    eta_c: nat,
    eta_m: nat,
    s: u64,
) -> (Seq<i64>, Seq<i64>, u64) {
    let n = pool.len() as int;
    let w1 = tourney_pick(pool, lcg_below(s, n), lcg_below(lcg_next(s), n));
    let s2 = lcg_next(lcg_next(s));
    let w2 = tourney_pick(pool, lcg_below(s2, n), lcg_below(lcg_next(s2), n));
    let s4 = lcg_next(lcg_next(s2));
    let p1 = pool[w1].x@;
    let p2 = pool[w2].x@;
    let s5 = lcg_next(s4);
    let cross = if lcg_unit(s5) > pc {
        (p1, p2, s5)
    } else {
        sbx_genes_prefix(p1, p2, bounds, eta_c, s5, bounds.len())
    };
    let m1 = mutate_genes_prefix(cross.0, bounds, pm, eta_m, cross.2, bounds.len());
    let m2 = mutate_genes_prefix(cross.1, bounds, pm, eta_m, m1.1, bounds.len());
    (m1.0, m2.0, m2.1)
}

/// The first `count` offspring decision vectors and the generator state
/// after producing them; with an odd count the surplus child of the last
/// pair is discarded after its draws are consumed.
pub open spec fn offspring_xs(
    pool: Seq<Individual>,
    bounds: Seq<(i64, i64)>,
    pc: i64,
    pm: i64,
    eta_c: nat,
    eta_m: nat,
    s: u64,
    count: nat,
) -> (Seq<Seq<i64>>, u64)
    decreases count,
{
    if count == 0 {
        (Seq::empty(), s)
    } else {
        let st = offspring_step(pool, bounds, pc, pm, eta_c, eta_m, s);
        if count == 1 {
            (seq![st.0], st.2)
        } else {
            let rest = offspring_xs(pool, bounds, pc, pm, eta_c, eta_m, st.2, (count - 2) as nat);
            (seq![st.0, st.1] + rest.0, rest.1)
        }
    }
}

/// Appending one pair (or one final surplus-discarding child) to the
/// offspring sequence extends it at the back.
pub proof fn lemma_offspring_xs_snoc(
    pool: Seq<Individual>,
    bounds: Seq<(i64, i64)>,
    pc: i64,
    pm: i64,
    eta_c: nat,
    eta_m: nat,
    s: u64,
    k: nat,
)
    requires
        k % 2 == 0,
    ensures
        ({
            let base = offspring_xs(pool, bounds, pc, pm, eta_c, eta_m, s, k);
            let st = offspring_step(pool, bounds, pc, pm, eta_c, eta_m, base.1);
            &&& offspring_xs(pool, bounds, pc, pm, eta_c, eta_m, s, k + 2) == (
                base.0 + seq![st.0, st.1],
                st.2,
            )
            &&& offspring_xs(pool, bounds, pc, pm, eta_c, eta_m, s, k + 1) == (
                base.0 + seq![st.0],
                st.2,
            )
        }),
    decreases k,
{
    let base = offspring_xs(pool, bounds, pc, pm, eta_c, eta_m, s, k);
    let st = offspring_step(pool, bounds, pc, pm, eta_c, eta_m, base.1);
    if k == 0 {
        assert(seq![st.0, st.1] + offspring_xs(
            pool,
            bounds,
            pc,
            pm,
            eta_c,
            eta_m,
            st.2,
            0,
        ).0 =~= Seq::<Seq<i64>>::empty() + seq![st.0, st.1]);
        assert(Seq::<Seq<i64>>::empty() + seq![st.0, st.1] =~= seq![st.0, st.1]);
        assert(offspring_xs(pool, bounds, pc, pm, eta_c, eta_m, s, 2).0 =~= base.0 + seq![
            st.0,
            st.1,
        ]);
        assert(offspring_xs(pool, bounds, pc, pm, eta_c, eta_m, s, 1).0 =~= base.0 + seq![st.0]);
    } else {
        let a = offspring_step(pool, bounds, pc, pm, eta_c, eta_m, s);
        lemma_offspring_xs_snoc(pool, bounds, pc, pm, eta_c, eta_m, a.2, (k - 2) as nat);
        let inner = offspring_xs(pool, bounds, pc, pm, eta_c, eta_m, a.2, (k - 2) as nat);
        assert(base.0 =~= seq![a.0, a.1] + inner.0);
        assert(base.1 == inner.1);
        assert(offspring_xs(pool, bounds, pc, pm, eta_c, eta_m, s, k + 2).0 =~= base.0 + seq![
            st.0,
            st.1,
        ]);
        assert(offspring_xs(pool, bounds, pc, pm, eta_c, eta_m, s, k + 1).0 =~= base.0 + seq![
            st.0,
        ]);
    }
}

/// The returned result: the front-zero subset of the terminal population.
pub struct ParetoFront {
    /// The non-dominated solutions.
    pub solutions: Vec<Individual>,
    /// The generation count actually executed.
    pub generation: usize,
    /// A separately requested hypervolume, fixed point.
    pub hypervolume: Option<i64>,
}

/// The front-zero members of a pool, in pool order.
pub open spec fn rank_zero_filter(pool: Seq<Individual>) -> Seq<Individual>
    decreases pool.len(),
{
    if pool.len() == 0 {
        Seq::empty()
    } else {
        let p = rank_zero_filter(pool.drop_last());
        if pool.last().rank == 0 {
            p.push(pool.last())
        } else {
            p
        }
    }
}

/// The front-zero subsequence is as long as the zero front.
pub proof fn lemma_rank_zero_filter_len(pool: Seq<Individual>)
    ensures
        rank_zero_filter(pool).len() == count_rank(pool, 0),
    decreases pool.len(),
{
    if pool.len() > 0 {
        lemma_rank_zero_filter_len(pool.drop_last());
    }
}

/// The optimizer: an immutable configuration, the working population and
/// the exclusively owned generator.
pub struct NSGA2 {
    pub config: NSGA2Config,
    pub population: Vec<Individual>,
    pub rng: Lcg,
}

impl NSGA2 {
    /// Builds an optimizer from a configuration, failing fast on the first
    /// configuration fault, before any generation can run.
    pub fn new(config: NSGA2Config) -> (r: Result<NSGA2, ConfigError>)
        ensures
            match r {
                Result::Ok(o) => {
                    &&& config_fault(config) is None
                    &&& o.config == config
                    &&& o.population@ == Seq::<Individual>::empty()
                    &&& o.rng.state == config.seed
                },
                Result::Err(e) => config_fault(config) == Some(e),
            },
    {
        if config.pop_size < 1 || config.pop_size > POP_LIMIT {
            return Err(ConfigError::BadPopulationSize);
        }
        if config.num_objectives < 1 || config.num_objectives > 1000 {
            return Err(ConfigError::BadObjectiveCount);
        }
        if config.crossover_prob < 0 || config.crossover_prob > SCALE || config.mutation_prob < 0
            || config.mutation_prob > SCALE {
            return Err(ConfigError::BadProbability);
        }
        if config.eta_c < 1 || config.eta_c > 100 || config.eta_m < 1 || config.eta_m > 100 {
            return Err(ConfigError::BadDistributionIndex);
        }
        if config.bounds.len() < 1 {
            return Err(ConfigError::EmptyBounds);
        }
        let mut j: usize = 0;
        while j < config.bounds.len()
            invariant
                j <= config.bounds@.len(),
                1 <= config.pop_size <= POP_LIMIT,
                1 <= config.num_objectives <= M_LIMIT,
                0 <= config.crossover_prob <= SCALE,
                0 <= config.mutation_prob <= SCALE,
                1 <= config.eta_c <= 100,
                1 <= config.eta_m <= 100,
                config.bounds@.len() >= 1,
                forall|t: int|
                    0 <= t < j ==> -BOUND_LIMIT <= (#[trigger] config.bounds@[t]).0
                        <= config.bounds@[t].1 <= BOUND_LIMIT,
            decreases config.bounds@.len() - j,
        {
            let bj = config.bounds[j];
            let lo = bj.0;
            let hi = bj.1;
            if !(-BOUND_LIMIT <= lo && lo <= hi && hi <= BOUND_LIMIT) {
                proof {
                    let jj = j as int;
                    assert(!(-BOUND_LIMIT <= (config.bounds@[jj]).0 <= config.bounds@[jj].1
                        <= BOUND_LIMIT));
                    assert(exists|t: int|
                        0 <= t < config.bounds@.len() && !(-BOUND_LIMIT <= (
                        #[trigger] config.bounds@[t]).0 <= config.bounds@[t].1 <= BOUND_LIMIT));
                    assert(config_fault(config) == Some(ConfigError::BadBound));
                }
                return Err(ConfigError::BadBound);
            }
            j = j + 1;
        }
        let seed = config.seed;
        Ok(NSGA2 { config, population: Vec::new(), rng: Lcg::new(seed) })
    }

    /// Builds the first generation by stratified sampling: for each
    /// dimension the stratum order is shuffled, then each individual draws
    /// one unit value inside its stratum. Every gene lands inside its
    /// bounds by construction.
    pub fn initialize_population(&mut self)
        requires
            config_valid(old(self).config),
        ensures
            final(self).config == old(self).config,
            final(self).population@.len() == old(self).config.pop_size,
            forall|i: int|
                0 <= i < final(self).population@.len() ==> (#[trigger] final(self).population@[i]).x@.len() == old(self).config.bounds@.len() && fresh_individual(
                    final(self).population@[i],
                    old(self).config.bounds@,
                ),
            // stratified sampling: per dimension, a permutation of the
            // strata, each used by exactly one individual
            exists|strats: Seq<Seq<usize>>|
                #[trigger] stratified_init(
                    strats,
                    final(self).population@,
                    old(self).config.bounds@,
                    old(self).config.pop_size as int,
                ),
            // the shuffles and every gene draw are pinned to the seed state
            ({
                let n = old(self).config.pop_size as int;
                let d = old(self).config.bounds@.len() as int;
                let st = strata_spec(n as nat, old(self).rng.state, d as nat);
                &&& st.0.len() == d
                &&& (forall|i: int, j: int|
                    #![trigger final(self).population@[i].x@[j]]
                    0 <= i < n && 0 <= j < d ==> final(self).population@[i].x@[j] == stratum_gene(
                        old(self).config.bounds@[j],
                        st.0[j][i] as int,
                        lcg_unit(lcg_next(lcg_iter((i * d + j) as nat, st.1))),
                        n,
                    ))
                &&& final(self).rng.state == lcg_iter((n * d) as nat, st.1)
            }),
            exists|k: nat| final(self).rng.state == lcg_iter(k, old(self).rng.state),
    {
        let n = self.config.pop_size;
        let d = self.config.bounds.len();
        proof {
            assert(self.rng.state == lcg_iter(0, old(self).rng.state));
        }
        // one shuffled stratum order per dimension
        let mut strata: Vec<Vec<usize>> = Vec::new();
        let mut dim: usize = 0;
        while dim < d
            invariant
                n == self.config.pop_size,
                d == self.config.bounds@.len(),
                config_valid(self.config),
                self.config == old(self).config,
                self.population == old(self).population,
                dim <= d,
                strata@.len() == dim,
                forall|a: int, b: int|
                    0 <= a < dim && 0 <= b < n ==> (#[trigger] strata@[a]@[b]) < n,
                forall|a: int| 0 <= a < dim ==> (#[trigger] strata@[a])@.len() == n,
                forall|a: int|
                    0 <= a < dim ==> (#[trigger] strata@[a])@.to_multiset() == stratum_order_base(
                        n as nat,
                    ).to_multiset(),
                strata_spec(n as nat, old(self).rng.state, dim as nat).0.len() == dim,
                forall|a: int|
                    0 <= a < dim ==> (#[trigger] strata@[a])@ == strata_spec(
                        n as nat,
                        old(self).rng.state,
                        dim as nat,
                    ).0[a],
                self.rng.state == strata_spec(n as nat, old(self).rng.state, dim as nat).1,
                exists|k: nat| self.rng.state == lcg_iter(k, old(self).rng.state),
            decreases d - dim,
        {
            let mut order: Vec<usize> = Vec::new();
            let mut t: usize = 0;
            while t < n
                invariant
                    t <= n,
                    order@.len() == t,
                    forall|b: int| 0 <= b < t ==> (#[trigger] order@[b]) == b as usize,
                    forall|b: int| 0 <= b < t ==> (#[trigger] order@[b]) < n,
                decreases n - t,
            {
                order.push(t);
                t = t + 1;
            }
            proof {
                assert(order@ =~= stratum_order_base(n as nat));
            }
            let ghost s_dim = self.rng.state;
            proof {
                assert(self.rng.state == lcg_iter(0, s_dim));
            }
            let mut i: usize = n - 1;
            while i >= 1
                invariant
                    1 <= n <= POP_LIMIT,
                    i <= n - 1,
                    order@.len() == n,
                    self.config == old(self).config,
                    self.population == old(self).population,
                    n == self.config.pop_size,
                    forall|b: int| 0 <= b < n ==> (#[trigger] order@[b]) < n,
                    order@.to_multiset() == stratum_order_base(n as nat).to_multiset(),
                    shuffle_down(stratum_order_base(n as nat), s_dim, n as int - 1) == shuffle_down(
                        order@,
                        self.rng.state,
                        i as int,
                    ),
                    exists|k: nat| self.rng.state == lcg_iter(k, s_dim),
                decreases i,
            {
                let ghost s_in = self.rng.state;
                let ghost pre_order = order@;
                let j = self.rng.next_below(i + 1);
                let a = order[i];
                let b = order[j];
                order.set(i, b);
                order.set(j, a);
                proof {
                    assert(order@ == pre_order.update(i as int, pre_order[j as int]).update(
                        j as int,
                        pre_order[i as int],
                    ));
                    lemma_swap_multiset(pre_order, i as int, j as int);
                    assert(shuffle_step(pre_order, s_in, i as int) == (order@, self.rng.state));
                    assert(shuffle_down(pre_order, s_in, i as int) == shuffle_down(
                        order@,
                        self.rng.state,
                        i as int - 1,
                    ));
                }
                proof {
                    let k1 = choose|k: nat| s_in == lcg_iter(k, s_dim);
                    assert(lcg_iter(0, s_in) == s_in);
                    assert(lcg_iter(1, s_in) == crate::rng::lcg_next(s_in));
                    lemma_lcg_iter_add(k1, 1, s_dim);
                }
                i = i - 1;
            }
            proof {
                assert(shuffle_down(order@, self.rng.state, 0) == (order@, self.rng.state));
                assert((order@, self.rng.state) == shuffle_down(
                    stratum_order_base(n as nat),
                    s_dim,
                    n as int - 1,
                ));
            }
            strata.push(order);
            proof {
                let prev = strata_spec(n as nat, old(self).rng.state, dim as nat);
                let next = strata_spec(n as nat, old(self).rng.state, dim as nat + 1);
                assert(next.0 == prev.0.push(
                    shuffle_down(stratum_order_base(n as nat), prev.1, n as int - 1).0,
                ));
                assert forall|a: int|
                    0 <= a < dim + 1 implies (#[trigger] strata@[a])@ == next.0[a] by {
                    if a < dim {
                        assert(strata@.drop_last()[a]@ == prev.0[a]);
                        assert(next.0[a] == prev.0[a]);
                    }
                }
                let ka = choose|k: nat| s_dim == lcg_iter(k, old(self).rng.state);
                let kb = choose|k: nat| self.rng.state == lcg_iter(k, s_dim);
                lemma_lcg_iter_add(ka, kb, old(self).rng.state);
                assert forall|a: int, b: int|
                    0 <= a < dim + 1 && 0 <= b < n implies (#[trigger] strata@[a]@[b]) < n by {
                    if a < dim {
                        assert(strata@.drop_last()[a]@[b] < n);
                    }
                }
                assert forall|a: int|
                    0 <= a < dim + 1 implies (#[trigger] strata@[a])@.to_multiset()
                    == stratum_order_base(n as nat).to_multiset() by {
                    if a < dim {
                        assert(strata@.drop_last()[a]@.to_multiset() == stratum_order_base(
                            n as nat,
                        ).to_multiset());
                    }
                }
            }
            dim = dim + 1;
        }
        // one individual per stratum row
        let ghost s_g = self.rng.state;
        proof {
            assert(self.rng.state == lcg_iter(0, s_g));
        }
        let mut pop: Vec<Individual> = Vec::new();
        let mut i: usize = 0;
        while i < n
            invariant
                n == self.config.pop_size,
                d == self.config.bounds@.len(),
                1 <= n <= POP_LIMIT,
                config_valid(self.config),
                self.config == old(self).config,
                i <= n,
                pop@.len() == i,
                strata@.len() == d,
                forall|a: int, b: int|
                    0 <= a < d && 0 <= b < n ==> (#[trigger] strata@[a]@[b]) < n,
                forall|a: int| 0 <= a < d ==> (#[trigger] strata@[a])@.len() == n,
                forall|t: int|
                    0 <= t < i ==> (#[trigger] pop@[t]).x@.len() == d && fresh_individual(
                        pop@[t],
                        self.config.bounds@,
                    ),
                forall|a: int|
                    0 <= a < d ==> (#[trigger] strata@[a])@.to_multiset() == stratum_order_base(
                        n as nat,
                    ).to_multiset(),
                forall|t: int, a: int|
                    #![trigger pop@[t].x@[a]]
                    0 <= t < i && 0 <= a < d ==> gene_in_stratum(
                        pop@[t].x@[a],
                        self.config.bounds@[a],
                        strata@[a]@[t] as int,
                        n as int,
                    ),
                forall|t: int, a: int|
                    #![trigger pop@[t].x@[a]]
                    0 <= t < i && 0 <= a < d ==> pop@[t].x@[a] == stratum_gene(
                        self.config.bounds@[a],
                        strata@[a]@[t] as int,
                        lcg_unit(lcg_next(lcg_iter((t * d as int + a) as nat, s_g))),
                        n as int,
                    ),
                self.rng.state == lcg_iter((i * d) as nat, s_g),
                exists|k: nat| self.rng.state == lcg_iter(k, old(self).rng.state),
            decreases n - i,
        {
            let mut x: Vec<i64> = Vec::new();
            let mut jd: usize = 0;
            while jd < d
                invariant
                    n == self.config.pop_size,
                    d == self.config.bounds@.len(),
                    1 <= n <= POP_LIMIT,
                    i < n,
                    config_valid(self.config),
                    self.config == old(self).config,
                    jd <= d,
                    x@.len() == jd,
                    strata@.len() == d,
                    forall|a: int, b: int|
                        0 <= a < d && 0 <= b < n ==> (#[trigger] strata@[a]@[b]) < n,
                    forall|a: int| 0 <= a < d ==> (#[trigger] strata@[a])@.len() == n,
                    forall|t: int|
                        0 <= t < jd ==> self.config.bounds@[t].0 <= #[trigger] x@[t]
                            <= self.config.bounds@[t].1,
                    forall|t: int|
                        #![trigger x@[t]]
                        0 <= t < jd ==> gene_in_stratum(
                            x@[t],
                            self.config.bounds@[t],
                            strata@[t]@[i as int] as int,
                            n as int,
                        ),
                    forall|t: int|
                        #![trigger x@[t]]
                        0 <= t < jd ==> x@[t] == stratum_gene(
                            self.config.bounds@[t],
                            strata@[t]@[i as int] as int,
                            lcg_unit(lcg_next(lcg_iter((i as int * d as int + t) as nat, s_g))),
                            n as int,
                        ),
                    self.rng.state == lcg_iter((i * d + jd) as nat, s_g),
                    exists|k: nat| self.rng.state == lcg_iter(k, old(self).rng.state),
                decreases d - jd,
            {
                let ghost s_in = self.rng.state;
                let idx = strata[jd][i];
                let u = self.rng.next_unit();
                let (lo, hi) = self.config.bounds[jd];
                let num: u64 = (idx as u64) * (SCALE as u64) + (u as u64);
                let q64: u64 = num / (n as u64);
                proof {
                    let ni = n as int;
                    let s = SCALE as int;
                    lemma_mul_nonnegative(idx as int, s);
                    lemma_mul_inequality(idx as int, ni - 1, s);
                    lemma_mul_is_commutative(idx as int, s);
                    lemma_mul_is_commutative(ni - 1, s);
                    assert((ni - 1) * s == ni * s - s) by (nonlinear_arith);
                    assert(num as int <= ni * s - 1);
                    lemma_div_is_ordered(num as int, ni * s - 1, ni);
                    lemma_fundamental_div_mod_converse(ni * s - 1, ni, s - 1, ni - 1);
                    lemma_div_is_ordered(0, num as int, ni);
                }
                let q = q64 as i64;
                proof {
                    let s = SCALE as int;
                    let span = (hi - lo) as int;
                    assert(fxmul(q as int, span) <= span) by {
                        lemma_mul_nonnegative(q as int, span);
                        lemma_mul_inequality(q as int, s, span);
                        lemma_mul_is_commutative(q as int, span);
                        lemma_mul_is_commutative(s, span);
                        lemma_div_is_ordered(q as int * span, span * s, s);
                        lemma_div_multiples_vanish(span, s);
                        lemma_mul_is_commutative(s, span);
                    }
                }
                let gene = lo + mul_fx(q, hi - lo);
                x.push(gene);
                proof {
                    assert(gene_in_stratum(
                        gene,
                        self.config.bounds@[jd as int],
                        idx as int,
                        n as int,
                    )) by {
                        assert(num as int == idx as int * (SCALE as int) + u);
                        assert(0 <= u < SCALE && gene == stratum_gene(
                            self.config.bounds@[jd as int],
                            idx as int,
                            u as int,
                            n as int,
                        ));
                    }
                    // this draw sits at position i*d + jd of the gene phase
                    assert(s_in == lcg_iter((i * d + jd) as nat, s_g));
                    assert(u == lcg_unit(lcg_next(s_in)));
                    lemma_lcg_iter_add((i * d + jd) as nat, 1, s_g);
                    assert(lcg_iter(1, s_in) == crate::rng::lcg_next(s_in));
                    assert(lcg_iter(0, s_in) == s_in);
                    assert(self.rng.state == lcg_iter((i * d + jd + 1) as nat, s_g));
                    let k1 = choose|k: nat| s_in == lcg_iter(k, old(self).rng.state);
                    lemma_lcg_iter_add(k1, 1, old(self).rng.state);
                }
                jd = jd + 1;
            }
            proof {
                assert((i + 1) * d == i * d + d) by (nonlinear_arith);
            }
            pop.push(Individual::new(x));
            i = i + 1;
        }
        self.population = pop;
        proof {
            let st = strata_spec(n as nat, old(self).rng.state, d as nat);
            assert(s_g == st.1);
            assert(st.0.len() == d);
            assert forall|i2: int, j2: int|
                #![trigger self.population@[i2].x@[j2]]
                0 <= i2 < n && 0 <= j2 < d implies self.population@[i2].x@[j2] == stratum_gene(
                self.config.bounds@[j2],
                st.0[j2][i2] as int,
                lcg_unit(lcg_next(lcg_iter((i2 * d as int + j2) as nat, st.1))),
                n as int,
            ) by {
                assert(strata@[j2]@ == st.0[j2]);
                assert(pop@[i2].x@[j2] == stratum_gene(
                    self.config.bounds@[j2],
                    strata@[j2]@[i2] as int,
                    lcg_unit(lcg_next(lcg_iter((i2 * d as int + j2) as nat, s_g))),
                    n as int,
                ));
            }
            assert((n * d) as nat == (n as int * d as int) as nat);
            assert(self.rng.state == lcg_iter((n as int * d as int) as nat, st.1));
            let strats = Seq::new(d as nat, |a: int| strata@[a]@);
            assert(stratified_init(
                strats,
                self.population@,
                self.config.bounds@,
                n as int,
            )) by {
                assert forall|j: int|
                    0 <= j < strats.len() implies (#[trigger] strats[j]).len() == n as int
                    && strats[j].to_multiset() == stratum_order_base(n as nat).to_multiset() by {
                    assert(strats[j] == strata@[j]@);
                }
                assert forall|t: int, a: int|
                    #![trigger strats[a][t]]
                    0 <= t < n && 0 <= a < strats.len() implies gene_in_stratum(
                    self.population@[t].x@[a],
                    self.config.bounds@[a],
                    strats[a][t] as int,
                    n as int,
                ) by {
                    assert(strats[a] == strata@[a]@);
                    assert(gene_in_stratum(
                        self.population@[t].x@[a],
                        self.config.bounds@[a],
                        strata@[a]@[t] as int,
                        n as int,
                    ));
                }
            }
        }
    }

    /// Clamps a raw objective vector to the configured objective count and
    /// value range: a vector of the wrong length is replaced wholesale by
    /// the worst representable objectives.
    fn sanitize_objectives(raw: &Vec<i64>, m: usize) -> (f: Vec<i64>)
        ensures
            f@.len() == m,
            forall|k: int| 0 <= k < m ==> -VAL_LIMIT <= #[trigger] f@[k] <= VAL_LIMIT,
            f@ == sanitized_objectives(raw@, m as nat),
    {
        let mut f: Vec<i64> = Vec::new();
        if raw.len() != m {
            let mut k: usize = 0;
            while k < m
                invariant
                    k <= m,
                    raw@.len() != m,
                    f@.len() == k,
                    forall|t: int| 0 <= t < k ==> #[trigger] f@[t] == VAL_LIMIT,
                decreases m - k,
            {
                f.push(VAL_LIMIT);
                k = k + 1;
            }
        } else {
            let mut k: usize = 0;
            while k < m
                invariant
                    k <= m,
                    raw@.len() == m,
                    f@.len() == k,
                    forall|t: int|
                        0 <= t < k ==> #[trigger] f@[t] == sanitized_objectives(raw@, m as nat)[t],
                decreases m - k,
            {
                let v = raw[k];
                let w = if v < -VAL_LIMIT {
                    -VAL_LIMIT
                } else if v > VAL_LIMIT {
                    VAL_LIMIT
                } else {
                    v
                };
                f.push(w);
                k = k + 1;
            }
        }
        proof {
            assert(f@ =~= sanitized_objectives(raw@, m as nat));
        }
        f
    }

    /// Evaluates every individual in population order through the injected
    /// evaluator, sanitizing each result at the boundary. Decision vectors,
    /// ranks and crowding distances are untouched.
    pub fn evaluate<E: Evaluator>(&mut self, eval_fn: &mut E)
        requires
            config_valid(old(self).config),
        ensures
            final(self).config == old(self).config,
            final(self).rng == old(self).rng,
            final(self).population@.len() == old(self).population@.len(),
            forall|i: int|
                0 <= i < final(self).population@.len() ==> {
                    let ind = #[trigger] final(self).population@[i];
                    let pre = old(self).population@[i];
                    ind.x@ == pre.x@ && ind.rank == pre.rank && ind.crowding_distance
                        == pre.crowding_distance && evaluated_wf(
                        ind,
                        old(self).config.num_objectives as int,
                    )
                },
            exists|evs: Seq<Evaluation>|
                #[trigger] evaluations_of(
                    final(self).population@,
                    evs,
                    old(self).config.num_objectives as nat,
                ),
    {
        let m = self.config.num_objectives;
        let np = self.population.len();
        let ghost mut evs: Seq<Evaluation> = Seq::empty();
        let mut i: usize = 0;
        while i < np
            invariant
                m == self.config.num_objectives,
                config_valid(self.config),
                self.config == old(self).config,
                self.rng == old(self).rng,
                np == self.population@.len() == old(self).population@.len(),
                i <= np,
                forall|t: int|
                    i <= t < np ==> #[trigger] self.population@[t] == old(self).population@[t],
                forall|t: int|
                    0 <= t < i ==> {
                        let ind = #[trigger] self.population@[t];
                        let pre = old(self).population@[t];
                        ind.x@ == pre.x@ && ind.rank == pre.rank && ind.crowding_distance
                            == pre.crowding_distance && evaluated_wf(ind, m as int)
                    },
                evs.len() == i,
                forall|t: int|
                    0 <= t < i ==> sanitized_evaluation(#[trigger] self.population@[t], evs[t], m as nat),
            decreases np - i,
        {
            let ev = eval_fn.evaluate(&self.population[i].x);
            let ghost gev = ev;
            let f = Self::sanitize_objectives(&ev.objectives, m);
            let cv = if ev.violation < 0 {
                0
            } else if ev.violation > VAL_LIMIT {
                VAL_LIMIT
            } else {
                ev.violation
            };
            let ghost pre = self.population@;
            let mut ind = self.population[i].clone();
            ind.f = f;
            ind.cv = cv;
            ind.status = ev.status;
            ind.outputs = ev.outputs;
            self.population.set(i, ind);
            proof {
                evs = evs.push(gev);
                assert(sanitized_evaluation(self.population@[i as int], gev, m as nat));
                assert forall|t: int|
                    0 <= t < i + 1 implies {
                    let ind2 = #[trigger] self.population@[t];
                    let pre2 = old(self).population@[t];
                    ind2.x@ == pre2.x@ && ind2.rank == pre2.rank && ind2.crowding_distance
                        == pre2.crowding_distance && evaluated_wf(ind2, m as int)
                } by {
                    if t < i {
                        assert(self.population@[t] == pre[t]);
                    }
                }
                assert forall|t: int|
                    0 <= t < i + 1 implies sanitized_evaluation(
                    #[trigger] self.population@[t],
                    evs[t],
                    m as nat,
                ) by {
                    if t < i {
                        assert(self.population@[t] == pre[t]);
                    }
                }
            }
            i = i + 1;
        }
        proof {
            assert(evaluations_of(self.population@, evs, m as nat));
        }
    }

    /// Runs fast non-dominated sorting over the working population,
    /// assigning every member its front index; the ranking satisfies the
    /// characterization that pins it uniquely.
    pub fn non_dominated_sort(&mut self)
        requires
            config_valid(old(self).config),
            pop_wf(old(self).population@, old(self).config),
            old(self).population@.len() <= 2 * POP_LIMIT,
        ensures
            final(self).config == old(self).config,
            final(self).rng == old(self).rng,
            final(self).population@.len() == old(self).population@.len(),
            same_eval_seq(final(self).population@, old(self).population@),
            forall|i: int|
                0 <= i < final(self).population@.len() ==> (#[trigger] final(self).population@[i]).crowding_distance == old(self).population@[i].crowding_distance,
            valid_ranking(final(self).population@),
            forall|i: int|
                0 <= i < final(self).population@.len() ==> (#[trigger] final(self).population@[i].rank) < final(self).population@.len(),
            pop_wf(final(self).population@, old(self).config),
    {
        proof {
            lemma_pop_wf_bridge(self.population@, self.config);
        }
        assign_ranks(&mut self.population);
        proof {
            assert forall|i: int|
                0 <= i < self.population@.len() implies genes_in_bounds(
                (#[trigger] self.population@[i]).x@,
                old(self).config.bounds@,
            ) && evaluated_wf(self.population@[i], old(self).config.num_objectives as int) by {
                assert(same_eval(self.population@[i], old(self).population@[i]));
            }
        }
    }

    /// Recomputes every member's crowding distance within its front.
    pub fn crowding_distance(&mut self)
        requires
            config_valid(old(self).config),
            pop_wf(old(self).population@, old(self).config),
            forall|i: int|
                0 <= i < old(self).population@.len() ==> (#[trigger] old(self).population@[i].rank) < old(self).population@.len(),
        ensures
            final(self).config == old(self).config,
            final(self).rng == old(self).rng,
            final(self).population@.len() == old(self).population@.len(),
            same_but_crowding_seq(final(self).population@, old(self).population@),
            crowding_bounded_upto(final(self).population@, final(self).population@.len() as int),
            small_fronts_infinite_upto(final(self).population@, final(self).population@.len() as int),
            front_extremes_upto(final(self).population@, final(self).population@.len() as int),
            infinite_only_extremes_upto(final(self).population@, final(self).population@.len() as int),
            pop_wf(final(self).population@, old(self).config),
    {
        proof {
            lemma_pop_wf_bridge(self.population@, self.config);
        }
        crowding_assign(&mut self.population);
        proof {
            assert forall|i: int|
                0 <= i < self.population@.len() implies genes_in_bounds(
                (#[trigger] self.population@[i]).x@,
                old(self).config.bounds@,
            ) && evaluated_wf(self.population@[i], old(self).config.num_objectives as int) by {
                assert(same_but_crowding(self.population@[i], old(self).population@[i]));
            }
        }
    }

    /// Produces exactly `pop_size` offspring, every generation: repeated
    /// tournament selection, crossover, mutation and evaluation of both
    /// children; with an odd population size the surplus child of the last
    /// pair is evaluated and then discarded. Every offspring gene lies
    /// within its bounds, and every offspring decision vector is exactly
    /// the operators' image of the pinned draw sequence.
    pub fn create_offspring<E: Evaluator>(&mut self, eval_fn: &mut E) -> (off: Vec<Individual>)
        requires
            config_valid(old(self).config),
            pop_wf(old(self).population@, old(self).config),
            old(self).population@.len() == old(self).config.pop_size,
        ensures
            final(self).config == old(self).config,
            final(self).population == old(self).population,
            off@.len() == old(self).config.pop_size,
            forall|i: int|
                0 <= i < off@.len() ==> genes_in_bounds(
                    (#[trigger] off@[i]).x@,
                    old(self).config.bounds@,
                ) && evaluated_wf(off@[i], old(self).config.num_objectives as int) && off@[i].rank
                    == usize::MAX && off@[i].crowding_distance == 0,
            exists|k: nat| final(self).rng.state == lcg_iter(k, old(self).rng.state),
            ({
                let r = offspring_xs(
                    old(self).population@,
                    old(self).config.bounds@,
                    old(self).config.crossover_prob,
                    old(self).config.mutation_prob,
                    old(self).config.eta_c as nat,
                    old(self).config.eta_m as nat,
                    old(self).rng.state,
                    old(self).config.pop_size as nat,
                );
                &&& r.0.len() == off@.len()
                &&& (forall|t: int| 0 <= t < off@.len() ==> (#[trigger] off@[t]).x@ == r.0[t])
                &&& final(self).rng.state == r.1
            }),
            exists|evs: Seq<Evaluation>|
                #[trigger] evaluations_of(off@, evs, old(self).config.num_objectives as nat),
    {
        let n = self.config.pop_size;
        let m = self.config.num_objectives;
        proof {
            assert(self.rng.state == lcg_iter(0, old(self).rng.state));
        }
        let ghost mut offevs: Seq<Evaluation> = Seq::empty();
        let mut off: Vec<Individual> = Vec::new();
        while off.len() < n
            invariant
                config_valid(self.config),
                self.config == old(self).config,
                self.population == old(self).population,
                pop_wf(self.population@, self.config),
                self.population@.len() == n,
                n == self.config.pop_size,
                m == self.config.num_objectives,
                off@.len() <= n,
                forall|i: int|
                    0 <= i < off@.len() ==> genes_in_bounds(
                        (#[trigger] off@[i]).x@,
                        self.config.bounds@,
                    ) && evaluated_wf(off@[i], m as int) && off@[i].rank == usize::MAX
                        && off@[i].crowding_distance == 0,
                exists|k: nat| self.rng.state == lcg_iter(k, old(self).rng.state),
                off@.len() % 2 == 0 || off@.len() == n,
                offevs.len() == off@.len(),
                forall|t: int|
                    0 <= t < off@.len() ==> sanitized_evaluation(
                        #[trigger] off@[t],
                        offevs[t],
                        m as nat,
                    ),
                ({
                    let r = offspring_xs(
                        self.population@,
                        self.config.bounds@,
                        self.config.crossover_prob,
                        self.config.mutation_prob,
                        self.config.eta_c as nat,
                        self.config.eta_m as nat,
                        old(self).rng.state,
                        off@.len() as nat,
                    );
                    &&& r.0.len() == off@.len()
                    &&& (forall|t: int| 0 <= t < off@.len() ==> (#[trigger] off@[t]).x@ == r.0[t])
                    &&& self.rng.state == r.1
                }),
            decreases n - off@.len(),
        {
            let ghost k0 = off@.len();
            let ghost s0 = self.rng.state;
            let p1i = tournament_select(&self.population, &mut self.rng);
            let p2i = tournament_select(&self.population, &mut self.rng);
            let ghost s2 = self.rng.state;
            proof {
                assert(genes_in_bounds(self.population@[p1i as int].x@, self.config.bounds@));
                assert(genes_in_bounds(self.population@[p2i as int].x@, self.config.bounds@));
                assert(lcg_iter(0, s0) == s0);
                assert(lcg_iter(1, s0) == crate::rng::lcg_next(s0));
                assert(lcg_iter(2, s0) == crate::rng::lcg_next(crate::rng::lcg_next(s0)));
                let s1x = lcg_iter(2, s0);
                assert(lcg_iter(0, s1x) == s1x);
                assert(lcg_iter(1, s1x) == crate::rng::lcg_next(s1x));
                assert(lcg_iter(2, s1x) == crate::rng::lcg_next(crate::rng::lcg_next(s1x)));
                lemma_lcg_iter_add(2, 2, s0);
                assert(s2 == lcg_iter(4, s0));
            }
            let children = sbx_crossover(
                &self.population[p1i].x,
                &self.population[p2i].x,
                &self.config.bounds,
                self.config.crossover_prob,
                self.config.eta_c,
                &mut self.rng,
            );
            let ghost s3 = self.rng.state;
            let mut c1 = children.0;
            let mut c2 = children.1;
            polynomial_mutation(
                &mut c1,
                &self.config.bounds,
                self.config.mutation_prob,
                self.config.eta_m,
                &mut self.rng,
            );
            let ghost s4 = self.rng.state;
            polynomial_mutation(
                &mut c2,
                &self.config.bounds,
                self.config.mutation_prob,
                self.config.eta_m,
                &mut self.rng,
            );
            let ghost gc1 = c1@;
            let ghost gc2 = c2@;
            proof {
                let kold = choose|k: nat| s0 == lcg_iter(k, old(self).rng.state);
                let ka = choose|k: nat| s3 == lcg_iter(k, s2);
                let kb = choose|k: nat| s4 == lcg_iter(k, s3);
                let kc = choose|k: nat| self.rng.state == lcg_iter(k, s4);
                lemma_lcg_iter_add(4, ka, s0);
                lemma_lcg_iter_add(4 + ka, kb, s0);
                lemma_lcg_iter_add(4 + ka + kb, kc, s0);
                lemma_lcg_iter_add(kold, 4 + ka + kb + kc, old(self).rng.state);
                // the two children and the end state are exactly one
                // offspring step from the state the pair started at
                let st = offspring_step(
                    self.population@,
                    self.config.bounds@,
                    self.config.crossover_prob,
                    self.config.mutation_prob,
                    self.config.eta_c as nat,
                    self.config.eta_m as nat,
                    s0,
                );
                assert(s2 == lcg_next(lcg_next(lcg_next(lcg_next(s0)))));
                assert(gc1 == st.0 && gc2 == st.1 && self.rng.state == st.2);
            }
            let ind1 = Self::evaluated_child(c1, m, eval_fn);
            proof {
                let w1 = choose|ev: Evaluation| sanitized_evaluation(ind1, ev, m as nat);
                offevs = offevs.push(w1);
            }
            off.push(ind1);
            if off.len() < n {
                let ind2 = Self::evaluated_child(c2, m, eval_fn);
                proof {
                    let w2 = choose|ev: Evaluation| sanitized_evaluation(ind2, ev, m as nat);
                    offevs = offevs.push(w2);
                }
                off.push(ind2);
            } else {
                // with an odd population size the surplus child of the last
                // pair is still evaluated, then discarded
                let _surplus = eval_fn.evaluate(&c2);
            }
            proof {
                lemma_offspring_xs_snoc(
                    self.population@,
                    self.config.bounds@,
                    self.config.crossover_prob,
                    self.config.mutation_prob,
                    self.config.eta_c as nat,
                    self.config.eta_m as nat,
                    old(self).rng.state,
                    k0 as nat,
                );
            }
        }
        proof {
            assert(evaluations_of(off@, offevs, m as nat));
        }
        off
    }

    /// Builds and evaluates one child from a decision vector, sanitizing
    /// the evaluator's result at the boundary.
    fn evaluated_child<E: Evaluator>(x: Vec<i64>, m: usize, eval_fn: &mut E) -> (ind: Individual)
        ensures
            ind.x@ == x@,
            evaluated_wf(ind, m as int),
            ind.rank == usize::MAX,
            ind.crowding_distance == 0,
            exists|ev: Evaluation| #[trigger] sanitized_evaluation(ind, ev, m as nat),
    {
        let mut ind = Individual::new(x);
        let ev = eval_fn.evaluate(&ind.x);
        let ghost gev = ev;
        let f = Self::sanitize_objectives(&ev.objectives, m);
        let cv = if ev.violation < 0 {
            0
        } else if ev.violation > VAL_LIMIT {
            VAL_LIMIT
        } else {
            ev.violation
        };
        ind.f = f;
        ind.cv = cv;
        ind.status = ev.status;
        ind.outputs = ev.outputs;
        proof {
            assert(sanitized_evaluation(ind, gev, m as nat));
        }
        ind
    }

    /// Elitist environmental selection: merges the offspring into the
    /// working pool, re-runs non-dominated sorting and crowding over the
    /// whole merged pool, orders it by front index with ties broken toward
    /// larger crowding distance, and keeps the first `pop_size` members.
    #[verifier::rlimit(100)]
    pub fn environmental_selection(&mut self, offspring: Vec<Individual>)
        requires
            config_valid(old(self).config),
            pop_wf(old(self).population@, old(self).config),
            pop_wf(offspring@, old(self).config),
            old(self).population@.len() == old(self).config.pop_size,
            old(self).population@.len() + offspring@.len() <= 2 * POP_LIMIT,
        ensures
            final(self).config == old(self).config,
            final(self).rng == old(self).rng,
            final(self).population@.len() == old(self).config.pop_size,
            pop_wf(final(self).population@, old(self).config),
            final(self).population@[0].rank == 0,
            forall|a: int, b: int|
                0 <= a < b < final(self).population@.len() ==> (#[trigger] final(self).population@[a]).rank
                    < (#[trigger] final(self).population@[b]).rank || (final(self).population@[a].rank
                    == final(self).population@[b].rank && final(self).population@[a].crowding_distance
                    >= final(self).population@[b].crowding_distance),
            valid_ranking(final(self).population@),
            exists|proc: Seq<Individual>|
                #[trigger] selection_witness(
                    final(self).population@,
                    old(self).population@ + offspring@,
                    proc,
                ),
    {
        let n = self.config.pop_size;
        let ghost oldpop = self.population@;
        let nall = self.population.len() + offspring.len();
        // merge the offspring into the working pool
        let mut t: usize = 0;
        while t < offspring.len()
            invariant
                config_valid(self.config),
                self.config == old(self).config,
                self.rng == old(self).rng,
                oldpop == old(self).population@,
                pop_wf(oldpop, self.config),
                pop_wf(offspring@, self.config),
                t <= offspring@.len(),
                nall == oldpop.len() + offspring@.len(),
                self.population@.len() == oldpop.len() + t,
                forall|i: int| 0 <= i < oldpop.len() ==> #[trigger] self.population@[i] == oldpop[i],
                forall|i: int|
                    oldpop.len() <= i < self.population@.len() ==> same_ind(
                        #[trigger] self.population@[i],
                        offspring@[i - oldpop.len()],
                    ),
                pop_wf(self.population@, self.config),
            decreases offspring@.len() - t,
        {
            let ind = offspring[t].clone();
            self.population.push(ind);
            proof {
                assert forall|i: int|
                    0 <= i < self.population@.len() implies genes_in_bounds(
                    (#[trigger] self.population@[i]).x@,
                    self.config.bounds@,
                ) && evaluated_wf(self.population@[i], self.config.num_objectives as int) by {
                    if i == self.population@.len() - 1 {
                        assert(same_ind(self.population@[i], offspring@[t as int]));
                    }
                }
            }
            t = t + 1;
        }
        proof {
            assert(same_eval_seq(self.population@, oldpop + offspring@)) by {
                assert forall|i: int|
                    0 <= i < self.population@.len() implies same_eval(
                    #[trigger] self.population@[i],
                    (oldpop + offspring@)[i],
                ) by {
                    if i < oldpop.len() {
                        assert((oldpop + offspring@)[i] == oldpop[i]);
                    } else {
                        assert((oldpop + offspring@)[i] == offspring@[i - oldpop.len()]);
                        assert(same_ind(self.population@[i], offspring@[i - oldpop.len()]));
                    }
                }
            }
        }
        let ghost merged = self.population@;
        self.non_dominated_sort();
        let ghost ranked = self.population@;
        self.crowding_distance();
        let ghost proc = self.population@;
        proof {
            // the processed pool still carries the merged evaluations
            assert(same_eval_seq(proc, ranked)) by {
                assert forall|i: int|
                    0 <= i < proc.len() implies same_eval(#[trigger] proc[i], ranked[i]) by {
                    assert(same_but_crowding(proc[i], ranked[i]));
                }
            }
            assert(same_eval_seq(proc, oldpop + offspring@)) by {
                assert forall|i: int|
                    0 <= i < proc.len() implies same_eval(
                    #[trigger] proc[i],
                    (oldpop + offspring@)[i],
                ) by {
                    assert(same_eval(proc[i], ranked[i]));
                    assert(same_eval(ranked[i], merged[i]));
                    assert(same_eval(merged[i], (oldpop + offspring@)[i]));
                }
            }
            // ranks were untouched by the crowding pass
            crate::ranking::lemma_valid_ranking_preserved(proc, ranked);
        }
        // order the processed pool by front index, then by descending
        // crowding distance
        let np = self.population.len();
        let mut ent: Vec<(i64, i64, usize)> = Vec::new();
        let mut i: usize = 0;
        while i < np
            invariant
                np == self.population@.len(),
                np <= 2 * POP_LIMIT,
                i <= np,
                ent@.len() == i,
                crowding_bounded_upto(self.population@, np as int),
                forall|w: int|
                    0 <= w < np ==> (#[trigger] self.population@[w].rank) < np,
                forall|w: int|
                    0 <= w < i ==> (#[trigger] ent@[w]) == (
                        self.population@[w].rank as i64,
                        (i64::MAX - self.population@[w].crowding_distance) as i64,
                        w as usize,
                    ),
            decreases np - i,
        {
            let r = self.population[i].rank;
            let c = self.population[i].crowding_distance;
            proof {
                assert(crowding_bounded_upto(self.population@, np as int));
                assert(self.population@[i as int].rank < np);
                assert(c == CROWD_INF || 0 <= c);
            }
            ent.push(((r as i64), i64::MAX - c, i));
            i = i + 1;
        }
        let ghost ent0 = ent@;
        sort_entries(&mut ent);
        proof {
            lemma_sort_spec_sorted(ent0);
            lemma_sort_spec_multiset(ent0);
            assert(ent@.len() == np);
            assert forall|w: int| 0 <= w < np implies {
                &&& (#[trigger] ent@[w]).2 < np
                &&& ent@[w].0 == proc[ent@[w].2 as int].rank as i64
                &&& ent@[w].1 == (i64::MAX - proc[ent@[w].2 as int].crowding_distance) as i64
            } by {
                assert(ent@.contains(ent@[w]));
                lemma_sort_spec_contains(ent0, ent@[w]);
                let a = choose|a: int| 0 <= a < ent0.len() && ent0[a] == ent@[w];
            }
            // the member indices of the sorted entries are pairwise
            // distinct, so the entry order is a permutation of the pool
            assert(ent0.no_duplicates()) by {
                assert forall|w1: int, w2: int| 0 <= w1 < w2 < np implies ent0[w1] != ent0[w2] by {
                    assert(ent0[w1].2 == w1 as usize && ent0[w2].2 == w2 as usize);
                }
            }
            ent0.lemma_multiset_has_no_duplicates();
            ent@.lemma_multiset_has_no_duplicates_conv();
            assert forall|w1: int, w2: int|
                0 <= w1 < w2 < np implies (#[trigger] ent@[w1]).2 != (#[trigger] ent@[w2]).2 by {
                assert(ent@[w1] != ent@[w2]);
            }
        }
        let mut newpop: Vec<Individual> = Vec::new();
        let mut t: usize = 0;
        while t < n
            invariant
                n <= np == self.population@.len() == ent@.len(),
                proc == self.population@,
                t <= n,
                newpop@.len() == t,
                sorted(ent@),
                forall|w: int|
                    0 <= w < np ==> {
                        &&& (#[trigger] ent@[w]).2 < np
                        &&& ent@[w].0 == proc[ent@[w].2 as int].rank as i64
                        &&& ent@[w].1 == (i64::MAX - proc[ent@[w].2 as int].crowding_distance) as i64
                    },
                forall|w: int|
                    0 <= w < t ==> same_ind(#[trigger] newpop@[w], proc[ent@[w].2 as int]),
            decreases n - t,
        {
            let idx = ent[t].2;
            let ind = self.population[idx].clone();
            newpop.push(ind);
            t = t + 1;
        }
        self.population = newpop;
        proof {
            lemma_pop_wf_bridge(proc, self.config);
            // the kept members keep their well-formedness
            assert forall|w: int|
                0 <= w < self.population@.len() implies genes_in_bounds(
                (#[trigger] self.population@[w]).x@,
                self.config.bounds@,
            ) && evaluated_wf(self.population@[w], self.config.num_objectives as int) by {
                assert(same_ind(self.population@[w], proc[ent@[w].2 as int]));
            }
            // sortedness carries from the sorted entries to the kept members
            assert forall|a: int, b: int|
                0 <= a < b < self.population@.len() implies (#[trigger] self.population@[a]).rank
                < (#[trigger] self.population@[b]).rank || (self.population@[a].rank
                == self.population@[b].rank && self.population@[a].crowding_distance
                >= self.population@[b].crowding_distance) by {
                assert(key_le(ent@[a], ent@[b]));
                assert(same_ind(self.population@[a], proc[ent@[a].2 as int]));
                assert(same_ind(self.population@[b], proc[ent@[b].2 as int]));
            }
            // the best front survives at the head
            lemma_exists_rank_zero(proc, 0);
            let z = choose|z: int| 0 <= z < proc.len() && (#[trigger] proc[z].rank) == 0;
            let ez = (
                proc[z].rank as i64,
                (i64::MAX - proc[z].crowding_distance) as i64,
                z as usize,
            );
            assert(ent0[z] == ez);
            assert(ent0.contains(ez));
            lemma_sort_spec_contains(ent0, ez);
            let w = choose|w: int| 0 <= w < ent@.len() && ent@[w] == ez;
            if w > 0 {
                assert(key_le(ent@[0], ent@[w]));
            }
            assert(ent@[0].0 <= 0);
            assert(same_ind(self.population@[0], proc[ent@[0].2 as int]));
            assert(self.population@[0].rank == 0);
            // the sorted entry order witnesses the elitist selection
            assert forall|i: int|
                0 <= i < proc.len() implies (#[trigger] proc[i]).rank < proc.len() by {}
            lemma_entries_give_elitism(self.population@, proc, ent@);
            // the processed pool witnesses the postcondition
            assert forall|i: int|
                0 <= i < self.population@.len() implies exists|j: int|
                0 <= j < proc.len() && same_ind(#[trigger] self.population@[i], proc[j]) by {
                assert(0 <= ent@[i].2 < proc.len() && same_ind(
                    self.population@[i],
                    proc[ent@[i].2 as int],
                ));
            }
            // the kept members are validly ranked among themselves: their
            // dominators rank below, and whenever a kept member's front is
            // positive, the whole previous front was kept ahead of it
            assert(valid_ranking(self.population@)) by {
                let kept = self.population@;
                assert forall|j: int, i: int|
                    0 <= j < kept.len() && 0 <= i < kept.len() && #[trigger] crate::ranking::dom_at(
                    kept,
                    j,
                    i,
                ) implies kept[j].rank < kept[i].rank by {
                    let pj = ent@[j].2 as int;
                    let pi = ent@[i].2 as int;
                    assert(same_ind(kept[j], proc[pj]) && same_ind(kept[i], proc[pi]));
                    assert(crate::ranking::dom_at(proc, pj, pi));
                }
                assert forall|i: int|
                    #![trigger kept[i].rank]
                    0 <= i < kept.len() && kept[i].rank != 0 implies exists|j: int|
                    0 <= j < kept.len() && crate::ranking::dom_at(kept, j, i) && kept[j].rank
                        == kept[i].rank - 1 by {
                    let pi = ent@[i].2 as int;
                    assert(same_ind(kept[i], proc[pi]));
                    assert(proc[pi].rank != 0);
                    let jj = choose|jj: int|
                        0 <= jj < proc.len() && crate::ranking::dom_at(proc, jj, pi)
                            && proc[jj].rank == proc[pi].rank - 1;
                    // the dominator's entry sorts before every kept entry of
                    // a larger front index, so it was kept too
                    assert(ent0[jj] == (
                        proc[jj].rank as i64,
                        (i64::MAX - proc[jj].crowding_distance) as i64,
                        jj as usize,
                    ));
                    assert(ent0.contains(ent0[jj]));
                    lemma_sort_spec_contains(ent0, ent0[jj]);
                    let w = choose|w: int| 0 <= w < ent@.len() && ent@[w] == ent0[jj];
                    assert(ent@[w].2 == jj as usize);
                    if w >= kept.len() {
                        assert(key_le(ent@[i], ent@[w]));
                        assert(false);
                    }
                    assert(same_ind(kept[w], proc[jj]));
                    assert(crate::ranking::dom_at(kept, w, i));
                }
            }
            assert(selection_witness(
                self.population@,
                old(self).population@ + offspring@,
                proc,
            ));
        }
    }

    /// Runs the whole optimization: initialize, evaluate, rank and crowd,
    /// then `generations` rounds of offspring creation and elitist
    /// selection; returns the front-zero subset of the terminal population.
    #[verifier::rlimit(100)]
    pub fn optimize<E: Evaluator>(&mut self, eval_fn: &mut E) -> (front: ParetoFront)
        requires
            config_valid(old(self).config),
        ensures
            final(self).config == old(self).config,
            front.generation == old(self).config.generations,
            front.hypervolume is None,
            final(self).population@.len() == old(self).config.pop_size,
            pop_wf(final(self).population@, old(self).config),
            front.solutions@.len() == count_rank(final(self).population@, 0),
            front.solutions@.len() >= 1,
            forall|i: int|
                0 <= i < front.solutions@.len() ==> same_ind(
                    #[trigger] front.solutions@[i],
                    rank_zero_filter(final(self).population@)[i],
                ),
            forall|i: int|
                0 <= i < front.solutions@.len() ==> (#[trigger] front.solutions@[i]).rank == 0
                    && genes_in_bounds(front.solutions@[i].x@, old(self).config.bounds@)
                    && evaluated_wf(front.solutions@[i], old(self).config.num_objectives as int),
            valid_ranking(final(self).population@),
            forall|a: int, b: int|
                0 <= a < front.solutions@.len() && 0 <= b < front.solutions@.len() && a != b
                    ==> !ind_dominates(
                    #[trigger] front.solutions@[a],
                    #[trigger] front.solutions@[b],
                ),
            exists|chain: Seq<Seq<Individual>>, states: Seq<u64>|
                {
                    &&& #[trigger] generation_chain(old(self).config, chain, states)
                    &&& chain[0].len() == old(self).config.pop_size
                    &&& pop_wf(chain[0], old(self).config)
                    &&& valid_ranking(chain[0])
                    &&& chain.last() == final(self).population@
                    &&& states.last() == final(self).rng.state
                },
    {
        self.initialize_population();
        self.evaluate(eval_fn);
        proof {
            assert forall|i: int|
                0 <= i < self.population@.len() implies genes_in_bounds(
                (#[trigger] self.population@[i]).x@,
                self.config.bounds@,
            ) && evaluated_wf(self.population@[i], self.config.num_objectives as int) by {}
        }
        self.non_dominated_sort();
        let ghost ranked0 = self.population@;
        self.crowding_distance();
        proof {
            assert(same_eval_seq(self.population@, ranked0)) by {
                assert forall|i: int|
                    0 <= i < self.population@.len() implies same_eval(
                    #[trigger] self.population@[i],
                    ranked0[i],
                ) by {
                    assert(same_but_crowding(self.population@[i], ranked0[i]));
                }
            }
            crate::ranking::lemma_valid_ranking_preserved(self.population@, ranked0);
        }
        let ghost mut chain: Seq<Seq<Individual>> = seq![self.population@];
        let ghost mut states: Seq<u64> = seq![self.rng.state];
        let g_total = self.config.generations;
        let mut g: usize = 0;
        while g < g_total
            invariant
                config_valid(self.config),
                self.config == old(self).config,
                g <= g_total,
                g_total == self.config.generations,
                self.population@.len() == self.config.pop_size,
                pop_wf(self.population@, self.config),
                valid_ranking(self.population@),
                chain.len() == g + 1,
                states.len() == g + 1,
                chain[0].len() == self.config.pop_size,
                pop_wf(chain[0], self.config),
                valid_ranking(chain[0]),
                chain.last() == self.population@,
                states.last() == self.rng.state,
                forall|gg: int|
                    0 <= gg < g ==> #[trigger] generation_step(
                        self.config,
                        chain[gg],
                        states[gg],
                        chain[gg + 1],
                        states[gg + 1],
                    ),
            decreases g_total - g,
        {
            let ghost pre_pop = self.population@;
            let ghost pre_s = self.rng.state;
            let off = self.create_offspring(eval_fn);
            let ghost goff = off@;
            let ghost s_off = self.rng.state;
            self.environmental_selection(off);
            proof {
                let cfg = self.config;
                let proc_w = choose|proc: Seq<Individual>|
                    #[trigger] selection_witness(self.population@, pre_pop + goff, proc);
                let evs_w = choose|evs: Seq<Evaluation>|
                    #[trigger] evaluations_of(goff, evs, cfg.num_objectives as nat);
                assert(generation_witness(
                    cfg,
                    pre_pop,
                    pre_s,
                    self.population@,
                    s_off,
                    goff,
                    proc_w,
                    evs_w,
                ));
                assert(generation_step(cfg, pre_pop, pre_s, self.population@, s_off));
                assert(self.rng.state == s_off);
                lemma_chain_push(cfg, chain, states, self.population@, s_off, g as int);
                chain = chain.push(self.population@);
                states = states.push(self.rng.state);
            }
            g = g + 1;
        }
        proof {
            lemma_exists_rank_zero(self.population@, 0);
            let z = choose|z: int|
                0 <= z < self.population@.len() && (#[trigger] self.population@[z].rank) == 0;
            lemma_count_rank_pos(self.population@, z, 0);
            assert(generation_chain(self.config, chain, states));
        }
        let np = self.population.len();
        let mut sols: Vec<Individual> = Vec::new();
        let mut i: usize = 0;
        while i < np
            invariant
                np == self.population@.len(),
                config_valid(self.config),
                pop_wf(self.population@, self.config),
                i <= np,
                sols@.len() == rank_zero_filter(self.population@.take(i as int)).len(),
                forall|t: int|
                    0 <= t < sols@.len() ==> same_ind(
                        #[trigger] sols@[t],
                        rank_zero_filter(self.population@.take(i as int))[t],
                    ),
                forall|t: int|
                    0 <= t < sols@.len() ==> (#[trigger] sols@[t]).rank == 0 && genes_in_bounds(
                        sols@[t].x@,
                        self.config.bounds@,
                    ) && evaluated_wf(sols@[t], self.config.num_objectives as int),
            decreases np - i,
        {
            proof {
                assert(self.population@.take(i as int + 1).drop_last() =~= self.population@.take(
                    i as int,
                ));
                assert(self.population@.take(i as int + 1).last() == self.population@[i as int]);
            }
            if self.population[i].rank == 0 {
                let ind = self.population[i].clone();
                sols.push(ind);
            }
            i = i + 1;
        }
        proof {
            assert(self.population@.take(np as int) =~= self.population@);
            lemma_rank_zero_filter_len(self.population@);
            // front members are copies of front-zero pool members, which are
            // pairwise mutually non-dominating
            crate::ranking::lemma_rank_zero_mutually_nondominating(self.population@);
            lemma_rank_zero_filter_members(self.population@);
            lemma_pop_wf_bridge(self.population@, self.config);
            assert forall|a: int, b: int|
                0 <= a < sols@.len() && 0 <= b < sols@.len() && a != b implies !ind_dominates(
                #[trigger] sols@[a],
                #[trigger] sols@[b],
            ) by {
                let f = rank_zero_filter(self.population@);
                assert(same_ind(sols@[a], f[a]) && same_ind(sols@[b], f[b]));
                let ia = choose|idx: int|
                    0 <= idx < self.population@.len() && f[a] == self.population@[idx];
                let ib = choose|idx: int|
                    0 <= idx < self.population@.len() && f[b] == self.population@[idx];
                assert(self.population@[ia].rank == 0 && self.population@[ib].rank == 0);
                assert(!crate::ranking::dom_at(self.population@, ia, ib));
            }
        }
        ParetoFront { solutions: sols, generation: g_total, hypervolume: None }
    }

    /// The working population, in its current order.
    pub fn get_population(&self) -> (p: &Vec<Individual>)
        ensures
            p@ == self.population@,
    {
        &self.population
    }
}

/// The kept members are the best of the processed pool: some ordering of
/// the whole pool lists (copies of) the kept members first, and every kept
/// member's front index is below every dropped member's, or equal with a
/// crowding distance at least as large.
pub open spec fn elitist_selection(kept: Seq<Individual>, proc: Seq<Individual>) -> bool {
    exists|ord: Seq<int>|
        {
            &&& ord.len() == proc.len()
            &&& kept.len() <= proc.len()
            &&& (forall|w: int| 0 <= w < ord.len() ==> 0 <= #[trigger] ord[w] < proc.len())
            &&& (forall|w1: int, w2: int|
                0 <= w1 < w2 < ord.len() ==> (#[trigger] ord[w1]) != (#[trigger] ord[w2]))
            &&& (forall|i: int| 0 <= i < kept.len() ==> same_ind(#[trigger] kept[i], proc[ord[i]]))
            &&& (forall|a: int, b: int|
                0 <= a < kept.len() <= b < proc.len() ==> proc[#[trigger] ord[a]].rank
                    < proc[#[trigger] ord[b]].rank || (proc[ord[a]].rank == proc[ord[b]].rank
                    && proc[ord[a]].crowding_distance >= proc[ord[b]].crowding_distance))
        }
}

/// A sorted entry sequence over a processed pool, whose prefix the kept
/// members copy, orders the kept members ahead of every dropped member.
proof fn lemma_entries_give_elitism(kept: Seq<Individual>, proc: Seq<Individual>, ent: Seq<Entry>)
    requires
        ent.len() == proc.len(),
        kept.len() <= proc.len(),
        sorted(ent),
        forall|w: int|
            0 <= w < ent.len() ==> {
                &&& (#[trigger] ent[w]).2 < proc.len()
                &&& ent[w].0 == proc[ent[w].2 as int].rank as i64
                &&& ent[w].1 == (i64::MAX - proc[ent[w].2 as int].crowding_distance) as i64
            },
        forall|w1: int, w2: int|
            0 <= w1 < w2 < ent.len() ==> (#[trigger] ent[w1]).2 != (#[trigger] ent[w2]).2,
        forall|i: int| 0 <= i < kept.len() ==> same_ind(#[trigger] kept[i], proc[ent[i].2 as int]),
        forall|i: int| 0 <= i < proc.len() ==> (#[trigger] proc[i]).rank < proc.len(),
        crowding_bounded_upto(proc, proc.len() as int),
        proc.len() <= 2 * POP_LIMIT,
    ensures
        elitist_selection(kept, proc),
{
    let ord = Seq::new(ent.len(), |w: int| ent[w].2 as int);
    assert(ord.len() == proc.len());
    assert forall|w: int| 0 <= w < ord.len() implies 0 <= #[trigger] ord[w] < proc.len() by {
        assert(ent[w].2 < proc.len());
    }
    assert forall|w1: int, w2: int|
        0 <= w1 < w2 < ord.len() implies (#[trigger] ord[w1]) != (#[trigger] ord[w2]) by {
        assert(ent[w1].2 != ent[w2].2);
    }
    assert forall|i: int| 0 <= i < kept.len() implies same_ind(#[trigger] kept[i], proc[ord[i]]) by {
        assert(same_ind(kept[i], proc[ent[i].2 as int]));
    }
    assert forall|a: int, b: int|
        0 <= a < kept.len() <= b < proc.len() implies proc[#[trigger] ord[a]].rank
        < proc[#[trigger] ord[b]].rank || (proc[ord[a]].rank == proc[ord[b]].rank
        && proc[ord[a]].crowding_distance >= proc[ord[b]].crowding_distance) by {
        assert(key_le(ent[a], ent[b]));
        let ia = ent[a].2 as int;
        let ib = ent[b].2 as int;
        assert(proc[ia].rank < proc.len() && proc[ib].rank < proc.len());
        assert(proc[ia].crowding_distance == CROWD_INF || 0 <= proc[ia].crowding_distance);
        assert(proc[ib].crowding_distance == CROWD_INF || 0 <= proc[ib].crowding_distance);
    }
}

/// The full account of one elitist selection: `proc` is the merged pool of
/// parents and offspring, re-ranked (validly and hence uniquely) and
/// re-crowded, and the kept members are copies drawn from `proc`, ordered
/// ahead of every dropped member.
pub open spec fn selection_witness(
    kept: Seq<Individual>,
    merged: Seq<Individual>,
    proc: Seq<Individual>,
) -> bool {
    &&& proc.len() == merged.len()
    &&& same_eval_seq(proc, merged)
    &&& valid_ranking(proc)
    &&& crowding_bounded_upto(proc, proc.len() as int)
    &&& small_fronts_infinite_upto(proc, proc.len() as int)
    &&& front_extremes_upto(proc, proc.len() as int)
    &&& infinite_only_extremes_upto(proc, proc.len() as int)
    &&& forall|i: int|
        0 <= i < kept.len() ==> exists|j: int|
            0 <= j < proc.len() && same_ind(#[trigger] kept[i], proc[j])
    &&& elitist_selection(kept, proc)
}

/// One full generation from population `pop0` and generator state `s0` to
/// population `pop1`, with generator state `s1` after the offspring draws:
/// the offspring decision vectors are exactly the tournament, crossover and
/// mutation images of the draw sequence, each offspring carries a sanitized
/// evaluator result, and `pop1` is the elitist selection over the re-ranked
/// merged pool.
pub open spec fn generation_witness(
    cfg: NSGA2Config,
    pop0: Seq<Individual>,
    s0: u64,
    pop1: Seq<Individual>,
    s1: u64,
    off: Seq<Individual>,
    proc: Seq<Individual>,
    evs: Seq<Evaluation>,
) -> bool {
    &&& off.len() == cfg.pop_size
    &&& ({
        let r = offspring_xs(
            pop0,
            cfg.bounds@,
            cfg.crossover_prob,
            cfg.mutation_prob,
            cfg.eta_c as nat,
            cfg.eta_m as nat,
            s0,
            cfg.pop_size as nat,
        );
        &&& r.0.len() == off.len()
        &&& (forall|t: int| 0 <= t < off.len() ==> (#[trigger] off[t]).x@ == r.0[t])
        &&& s1 == r.1
    })
    &&& evaluations_of(off, evs, cfg.num_objectives as nat)
    &&& selection_witness(pop1, pop0 + off, proc)
    &&& pop1.len() == cfg.pop_size
    &&& valid_ranking(pop1)
}

/// Some offspring pool, processed pool and evaluator results witness one
/// generation.
pub open spec fn generation_step(
    cfg: NSGA2Config,
    pop0: Seq<Individual>,
    s0: u64,
    pop1: Seq<Individual>,
    s1: u64,
) -> bool {
    exists|off: Seq<Individual>, proc: Seq<Individual>, evs: Seq<Evaluation>|
        #[trigger] generation_witness(cfg, pop0, s0, pop1, s1, off, proc, evs)
}

/// A run of the generational driver: `generations` chained steps over the
/// recorded populations and generator states.
pub open spec fn generation_chain(
    cfg: NSGA2Config,
    chain: Seq<Seq<Individual>>,
    states: Seq<u64>,
) -> bool {
    &&& chain.len() == cfg.generations + 1
    &&& states.len() == chain.len()
    &&& forall|g: int|
        0 <= g < cfg.generations ==> #[trigger] generation_step(
            cfg,
            chain[g],
            states[g],
            chain[g + 1],
            states[g + 1],
        )
}

/// Extending a recorded run by one proved generation keeps every recorded
/// step a generation step.
proof fn lemma_chain_push(
    cfg: NSGA2Config,
    chain0: Seq<Seq<Individual>>,
    states0: Seq<u64>,
    p_new: Seq<Individual>,
    s_new: u64,
    g: int,
)
    requires
        chain0.len() == g + 1,
        states0.len() == g + 1,
        0 <= g,
        forall|gg: int|
            0 <= gg < g ==> #[trigger] generation_step(
                cfg,
                chain0[gg],
                states0[gg],
                chain0[gg + 1],
                states0[gg + 1],
            ),
        generation_step(cfg, chain0[g], states0[g], p_new, s_new),
    ensures
        forall|gg: int|
            0 <= gg < g + 1 ==> #[trigger] generation_step(
                cfg,
                chain0.push(p_new)[gg],
                states0.push(s_new)[gg],
                chain0.push(p_new)[gg + 1],
                states0.push(s_new)[gg + 1],
            ),
{
    let chain1 = chain0.push(p_new);
    let states1 = states0.push(s_new);
    assert forall|gg: int|
        0 <= gg < g + 1 implies #[trigger] generation_step(
        cfg,
        chain1[gg],
        states1[gg],
        chain1[gg + 1],
        states1[gg + 1],
    ) by {
        if gg < g {
            assert(chain1[gg] == chain0[gg] && chain1[gg + 1] == chain0[gg + 1]);
            assert(states1[gg] == states0[gg] && states1[gg + 1] == states0[gg + 1]);
            assert(generation_step(cfg, chain0[gg], states0[gg], chain0[gg + 1], states0[gg + 1]));
        } else {
            assert(chain1[gg] == chain0[g] && states1[gg] == states0[g]);
            assert(chain1[gg + 1] == p_new && states1[gg + 1] == s_new);
        }
    }
}

/// Every front-zero member of a pool is a pool member.
proof fn lemma_rank_zero_filter_members(pool: Seq<Individual>)
    ensures
        forall|t: int|
            0 <= t < rank_zero_filter(pool).len() ==> exists|idx: int|
                0 <= idx < pool.len() && (#[trigger] rank_zero_filter(pool)[t]) == pool[idx],
    decreases pool.len(),
{
    if pool.len() > 0 {
        lemma_rank_zero_filter_members(pool.drop_last());
        let f = rank_zero_filter(pool);
        let fd = rank_zero_filter(pool.drop_last());
        assert forall|t: int|
            0 <= t < f.len() implies exists|idx: int|
            0 <= idx < pool.len() && (#[trigger] f[t]) == pool[idx] by {
            if t < fd.len() {
                let idx = choose|idx: int|
                    0 <= idx < pool.drop_last().len() && (#[trigger] fd[t]) == pool.drop_last()[idx];
                assert(pool.drop_last()[idx] == pool[idx]);
                assert(f[t] == fd[t]);
                assert(f[t] == pool[idx]);
            } else {
                assert(pool.last().rank == 0 && f[t] == pool.last());
                assert(f[t] == pool[pool.len() - 1]);
            }
        }
    }
}

/// All fields agree, by value.
pub open spec fn same_ind(a: Individual, b: Individual) -> bool {
    &&& a.x@ == b.x@
    &&& a.f@ == b.f@
    &&& a.cv == b.cv
    &&& a.status == b.status
    &&& a.outputs@ == b.outputs@
    &&& a.rank == b.rank
    &&& a.crowding_distance == b.crowding_distance
}


/// The sort keys of the hypervolume sweep: first objective, stable order,
/// member index.
pub open spec fn hv_points(front: Seq<Individual>) -> Seq<Entry> {
    Seq::new(front.len(), |i: int| (front[i].f@[0], 0i64, i as usize))
}

/// The sweep over points sorted by the first objective: each point strictly
/// better than the reference in both coordinates contributes the fixed-point
/// area between its first objective and the reference, and between its
/// second objective and the best second objective seen so far.
pub open spec fn hv_sweep(s: Seq<Entry>, front: Seq<Individual>, rp: (i64, i64), best: int) -> int
    decreases s.len(),
{
    if s.len() == 0 {
        0
    } else {
        let idx = s[0].2 as int;
        let f0 = front[idx].f@[0];
        let f1 = front[idx].f@[1];
        if f0 < rp.0 && f1 < rp.1 {
            let area = if best - f1 > 0 {
                fxmul(rp.0 - f0, best - f1)
            } else {
                0
            };
            area + hv_sweep(s.drop_first(), front, rp, f1 as int)
        } else {
            hv_sweep(s.drop_first(), front, rp, best)
        }
    }
}

/// One swept rectangle's fixed-point area, computed widely so that values
/// up to the cap cannot overflow.
fn hv_area(width: i64, height: i64) -> (a: i128)
    requires
        0 < width <= 2 * VAL_LIMIT,
        0 < height <= 2 * VAL_LIMIT,
    ensures
        a == fxmul(width as int, height as int),
        0 <= a <= 4_000_000_000_000_000_000_000_000,
{
    proof {
        lemma_mul_nonnegative(width as int, height as int);
        lemma_mul_upper_bound(
            width as int,
            2_000_000_000_000_000,
            height as int,
            2_000_000_000_000_000,
        );
        lemma_div_is_ordered(0, width as int * height as int, SCALE as int);
        lemma_div_is_ordered(
            width as int * height as int,
            4_000_000_000_000_000_000_000_000_000_000,
            SCALE as int,
        );
        assert((4_000_000_000_000_000_000_000_000_000_000int) / 1_000_000
            == 4_000_000_000_000_000_000_000_000);
    }
    let product: u128 = (width as u128) * (height as u128);
    let area: u128 = product / (SCALE as u128);
    area as i128
}

/// The two-objective hypervolume of a front against a reference point,
/// fixed point: zero for an empty front, otherwise exactly the sweep over
/// the front sorted ascending by the first objective, saturated at the
/// largest representable value. Every front the optimizer returns satisfies
/// the preconditions: its objectives are sanitized into the value cap.
#[verifier::rlimit(100)]
pub fn hypervolume_2d(front: &Vec<Individual>, ref_point: (i64, i64)) -> (hv: i64)
    requires
        front@.len() <= 1_000_000,
        forall|i: int|
            0 <= i < front@.len() ==> (#[trigger] front@[i]).f@.len() >= 2 && -VAL_LIMIT
                <= front@[i].f@[0] <= VAL_LIMIT && -VAL_LIMIT <= front@[i].f@[1] <= VAL_LIMIT,
        -VAL_LIMIT <= ref_point.0 <= VAL_LIMIT,
        -VAL_LIMIT <= ref_point.1 <= VAL_LIMIT,
    ensures
        ({
            let total = hv_sweep(sort_spec(hv_points(front@)), front@, ref_point, ref_point.1 as int);
            hv == if total > i64::MAX {
                i64::MAX as int
            } else {
                total
            }
        }),
        0 <= hv,
{
    let n = front.len();
    if n == 0 {
        proof {
            assert(hv_points(front@) =~= Seq::<Entry>::empty());
            assert(sort_spec(hv_points(front@)) =~= Seq::<Entry>::empty());
        }
        return 0;
    }
    let mut ent: Vec<Entry> = Vec::new();
    let mut t: usize = 0;
    while t < n
        invariant
            n == front@.len() <= 1_000_000,
            t <= n,
            ent@.len() == t,
            forall|i: int|
                0 <= i < n ==> (#[trigger] front@[i]).f@.len() >= 2 && -VAL_LIMIT <= front@[i].f@[0]
                    <= VAL_LIMIT && -VAL_LIMIT <= front@[i].f@[1] <= VAL_LIMIT,
            forall|w: int| 0 <= w < t ==> (#[trigger] ent@[w]) == (front@[w].f@[0], 0i64, w as usize),
        decreases n - t,
    {
        ent.push((front[t].f[0], 0i64, t));
        t = t + 1;
    }
    let ghost ent0 = ent@;
    proof {
        assert(ent0 =~= hv_points(front@));
    }
    sort_entries(&mut ent);
    proof {
        lemma_sort_spec_sorted(ent0);
        assert(ent@ == sort_spec(hv_points(front@)));
        assert forall|w: int| 0 <= w < n implies {
            &&& (#[trigger] ent@[w]).2 < n
            &&& ent@[w].0 == front@[ent@[w].2 as int].f@[0]
        } by {
            assert(ent@.contains(ent@[w]));
            lemma_sort_spec_contains(ent0, ent@[w]);
            let a = choose|a: int| 0 <= a < ent0.len() && ent0[a] == ent@[w];
        }
    }
    let mut acc: i128 = 0;
    let mut best: i64 = ref_point.1;
    let mut k: usize = 0;
    proof {
        assert(ent@.skip(0) =~= ent@);
    }
    while k < n
        invariant
            n == front@.len() <= 1_000_000,
            n == ent@.len(),
            k <= n,
            -VAL_LIMIT <= ref_point.0 <= VAL_LIMIT,
            -VAL_LIMIT <= ref_point.1 <= VAL_LIMIT,
            -VAL_LIMIT <= best <= VAL_LIMIT,
            forall|i: int|
                0 <= i < n ==> (#[trigger] front@[i]).f@.len() >= 2 && -VAL_LIMIT <= front@[i].f@[0]
                    <= VAL_LIMIT && -VAL_LIMIT <= front@[i].f@[1] <= VAL_LIMIT,
            forall|w: int|
                0 <= w < n ==> {
                    &&& (#[trigger] ent@[w]).2 < n
                    &&& ent@[w].0 == front@[ent@[w].2 as int].f@[0]
                },
            0 <= acc <= k * 4_000_000_000_000_000_000_000_000,
            acc + hv_sweep(ent@.skip(k as int), front@, ref_point, best as int) == hv_sweep(
                ent@,
                front@,
                ref_point,
                ref_point.1 as int,
            ),
        decreases n - k,
    {
        proof {
            assert(ent@.skip(k as int).drop_first() =~= ent@.skip(k as int + 1));
            assert(ent@.skip(k as int)[0] == ent@[k as int]);
        }
        let idx = ent[k].2;
        let f0 = front[idx].f[0];
        let f1 = front[idx].f[1];
        if f0 < ref_point.0 && f1 < ref_point.1 {
            let width = ref_point.0 - f0;
            let height = best - f1;
            if height > 0 {
                let area = hv_area(width, height);
                acc = acc + area;
            }
            best = f1;
        }
        k = k + 1;
    }
    proof {
        assert(ent@.skip(n as int) =~= Seq::<Entry>::empty());
    }
    if acc > (i64::MAX as i128) {
        i64::MAX
    } else {
        acc as i64
    }
}

} // verus!

//! Variation operators: tournament selection, simulated binary crossover,
//! polynomial mutation.
//!
//! Every operator draws from the owned generator in a fixed order, and every
//! produced gene is clamped into its configured bound interval, so the
//! bounds invariant of the population is maintained unconditionally.

use vstd::prelude::*;
use vstd::arithmetic::mul::*;
use vstd::arithmetic::div_mod::*;
use vstd::pervasive::VecAdditionalExecFns;
use crate::fixed::{SCALE, clamp_fx, mul_fx, div_fx, half_nonneg, pow_sat_fx, root_fx, fxmul,
    fxdiv, fxpow_sat, fxroot, spec_clamp, lemma_fxdiv_le_scale, lemma_fxpow_sat_ge_base,
    lemma_fxpow_sat_ge_square, lemma_fxpow_sat_bounds};
use crate::individual::{Individual, BOUND_LIMIT, genes_in_bounds, clone_genes};
use crate::rng::{Lcg, lcg_next, lcg_unit, lcg_below, lcg_iter};

verus! {

/// Fixed-point one half.
pub const HALF: i64 = 500_000;

/// Saturation cap for the crossover spread power: high enough that the
/// reciprocal truncates to zero beyond it.
pub const POW_CAP: i64 = 10_000_000_000_000;

/// Search ceiling for the crossover spread root.
pub const ROOT_HI: i64 = 1_100_000_000;

/// Well-formed variable bounds: ordered pairs of bounded magnitude.
pub open spec fn bounds_wf(bounds: Seq<(i64, i64)>) -> bool {
    forall|j: int|
        0 <= j < bounds.len() ==> -BOUND_LIMIT <= (#[trigger] bounds[j]).0 <= bounds[j].1
            <= BOUND_LIMIT
}

/// The tournament rule: lower rank wins, equal ranks fall to the larger
/// crowding distance, remaining ties go to the second draw.
pub open spec fn tourney_pick(pool: Seq<Individual>, a: int, b: int) -> int {
    if pool[a].rank < pool[b].rank {
        a
    } else if pool[b].rank < pool[a].rank {
        b
    } else if pool[a].crowding_distance > pool[b].crowding_distance {
        a
    } else {
        b
    }
}

/// Draws two members uniformly with replacement and returns the tournament
/// winner. The result and the two generator advances are pinned exactly.
pub fn tournament_select(pool: &Vec<Individual>, rng: &mut Lcg) -> (w: usize)
    requires
        1 <= pool@.len() <= 1_000_000_000_000,
    ensures
        final(rng).state == lcg_next(lcg_next(old(rng).state)),
        w < pool@.len(),
        w as int == tourney_pick(
            pool@,
            lcg_below(old(rng).state, pool@.len() as int),
            lcg_below(lcg_next(old(rng).state), pool@.len() as int),
        ),
{
    let a = rng.next_below(pool.len());
    let b = rng.next_below(pool.len());
    if pool[a].rank < pool[b].rank {
        a
    } else if pool[b].rank < pool[a].rank {
        b
    } else if pool[a].crowding_distance > pool[b].crowding_distance {
        a
    } else {
        b
    }
}

/// The recombined gene pair as a function of the ordered parent genes and
/// the unit draw: the spread distribution of index `eta_c`, its two-branch
/// root, and the clamped half-sum children. This is the exact value the
/// executable crossover computes.
pub open spec fn sbx_gene_spec(y1: int, y2: int, lo: int, hi: int, eta_c: nat, u: int) -> (
    int,
    int,
) {
    let diff = y2 - y1;
    let spread = fxdiv(2 * (y1 - lo), diff);
    let beta = SCALE + spread;
    let pow_beta = fxpow_sat(beta, eta_c + 1, POW_CAP as int);
    let invpow = fxdiv(SCALE as int, pow_beta);
    let alpha = 2 * SCALE - invpow;
    let ua = fxmul(u, alpha);
    let betaq = if ua <= SCALE {
        fxroot(ua, eta_c + 1, SCALE as int)
    } else {
        fxroot(fxdiv(SCALE as int, 2 * SCALE - ua), eta_c + 1, ROOT_HI as int - 1)
    };
    let t = fxmul(betaq, diff);
    let ssum = (y1 - lo) + (y2 - lo);
    let v1 = if t >= ssum {
        lo
    } else {
        spec_clamp(lo + (ssum - t) / 2, lo, hi)
    };
    let v2 = spec_clamp(lo + (ssum + t) / 2, lo, hi);
    (v1, v2)
}

/// One recombined gene pair: exactly `sbx_gene_spec` of the parents and the
/// draw, both children clamped into the bounds.
#[verifier::rlimit(60)]
fn sbx_gene(y1: i64, y2: i64, lo: i64, hi: i64, eta_c: u32, u: i64) -> (c: (i64, i64))
    requires
        -BOUND_LIMIT <= lo <= y1 < y2 <= hi <= BOUND_LIMIT,
        0 <= u < SCALE,
        1 <= eta_c <= 100,
    ensures
        lo <= c.0 <= hi,
        lo <= c.1 <= hi,
        c.0 == sbx_gene_spec(y1 as int, y2 as int, lo as int, hi as int, eta_c as nat, u as int).0,
        c.1 == sbx_gene_spec(y1 as int, y2 as int, lo as int, hi as int, eta_c as nat, u as int).1,
{
    let diff = y2 - y1;
    proof {
        assert(1 <= diff <= 2 * BOUND_LIMIT);
        assert(0 <= y1 - lo <= 2 * BOUND_LIMIT);
        assert(fxdiv(2 * (y1 - lo) as int, diff as int) <= 4 * BOUND_LIMIT * SCALE) by {
            lemma_mul_nonnegative(2 * (y1 - lo) as int, SCALE as int);
            lemma_mul_inequality(2 * (y1 - lo) as int, 4 * BOUND_LIMIT as int, SCALE as int);
            lemma_div_is_ordered(
                2 * (y1 - lo) as int * SCALE as int,
                4 * BOUND_LIMIT as int * SCALE as int,
                diff as int,
            );
            lemma_div_is_ordered_by_denominator(
                4 * BOUND_LIMIT as int * SCALE as int,
                1,
                diff as int,
            );
        }
    }
    let spread = div_fx(2 * (y1 - lo), diff);
    let beta = SCALE + spread;
    let pow_beta = pow_sat_fx(beta, eta_c + 1, POW_CAP);
    proof {
        lemma_fxpow_sat_ge_base(beta as int, (eta_c + 1) as nat, POW_CAP as int);
        assert(pow_beta >= SCALE);
        lemma_fxdiv_le_scale(SCALE as int, pow_beta as int);
    }
    let invpow = div_fx(SCALE, pow_beta);
    let alpha = 2 * SCALE - invpow;
    proof {
        assert(SCALE <= alpha <= 2 * SCALE);
        assert(fxmul(u as int, alpha as int) <= 2 * SCALE - 2) by {
            lemma_mul_nonnegative(u as int, alpha as int);
            lemma_mul_inequality(u as int, SCALE as int - 1, alpha as int);
            lemma_mul_inequality(alpha as int, 2 * SCALE as int, SCALE as int - 1);
            lemma_mul_is_commutative(SCALE as int - 1, alpha as int);
            lemma_mul_is_commutative(2 * SCALE as int, SCALE as int - 1);
            lemma_div_is_ordered(
                u as int * alpha as int,
                (SCALE as int - 1) * (2 * SCALE as int),
                SCALE as int,
            );
            lemma_fundamental_div_mod_converse(
                (SCALE as int - 1) * (2 * SCALE as int),
                SCALE as int,
                2 * SCALE as int - 2,
                0,
            );
        }
    }
    let ua = mul_fx(u, alpha);
    let betaq: i64;
    if ua <= SCALE {
        proof {
            lemma_fxpow_sat_ge_base(SCALE as int + 1, (eta_c + 1) as nat, ua as int + 1);
        }
        betaq = root_fx(ua, eta_c + 1, SCALE + 1);
    } else {
        let denom = 2 * SCALE - ua;
        proof {
            assert(2 <= denom <= SCALE - 1);
            assert(fxdiv(SCALE as int, denom as int) <= SCALE * SCALE) by {
                lemma_div_is_ordered_by_denominator(SCALE as int * SCALE as int, 1, denom as int);
            }
        }
        let inv2 = div_fx(SCALE, denom);
        proof {
            assert(inv2 >= SCALE) by {
                lemma_div_is_ordered_by_denominator(
                    SCALE as int * SCALE as int,
                    denom as int,
                    SCALE as int - 1,
                );
                assert((1_000_000_000_000int) / 999_999 == 1_000_001);
            }
            assert(inv2 <= 500_000_000_000) by {
                lemma_div_is_ordered_by_denominator(SCALE as int * SCALE as int, 2, denom as int);
            }
            lemma_fxpow_sat_ge_square(ROOT_HI as int, (eta_c + 1) as nat, inv2 as int + 1);
            assert(fxmul(ROOT_HI as int, ROOT_HI as int) == 1_210_000_000_000);
        }
        betaq = root_fx(inv2, eta_c + 1, ROOT_HI);
    }
    proof {
        assert(0 <= betaq <= ROOT_HI);
        assert(fxmul(betaq as int, diff as int) <= 3_000_000_000_000_000_000) by {
            lemma_mul_nonnegative(betaq as int, diff as int);
            lemma_mul_upper_bound(
                betaq as int,
                ROOT_HI as int,
                diff as int,
                2 * BOUND_LIMIT as int,
            );
            lemma_div_is_ordered(
                betaq as int * diff as int,
                ROOT_HI as int * (2 * BOUND_LIMIT as int),
                SCALE as int,
            );
            assert((2_200_000_000_000_000_000_000int) / 1_000_000 == 2_200_000_000_000_000);
        }
    }
    let t_half = mul_fx(betaq, diff);
    let a1 = y1 - lo;
    let a2 = y2 - lo;
    let ssum = a1 + a2;
    let v1: i64;
    if t_half >= ssum {
        v1 = lo;
    } else {
        let h = half_nonneg(ssum - t_half);
        v1 = clamp_fx(lo + h, lo, hi);
    }
    let h2 = half_nonneg(ssum + t_half);
    let v2 = clamp_fx(lo + h2, lo, hi);
    (v1, v2)
}

/// The mutated gene as a function of the gene and the unit draw: the
/// two-branch polynomial perturbation of index `eta_m`, clamped into the
/// bounds. This is the exact value the executable mutation computes.
pub open spec fn mutate_gene_spec(y: int, lo: int, hi: int, eta_m: nat, u: int) -> int {
    let span = hi - lo;
    if u < HALF {
        let delta1 = fxdiv(y - lo, span);
        let xy = SCALE - delta1;
        let powxy = fxpow_sat(xy, eta_m + 1, SCALE as int);
        let val = 2 * u + fxmul(SCALE - 2 * u, powxy);
        let root = fxroot(val, eta_m + 1, SCALE as int);
        spec_clamp(y - fxmul(SCALE - root, span), lo, hi)
    } else {
        let delta2 = fxdiv(hi - y, span);
        let xy = SCALE - delta2;
        let powxy = fxpow_sat(xy, eta_m + 1, SCALE as int);
        let val = 2 * (SCALE - u) + fxmul(2 * u - SCALE, powxy);
        let root = fxroot(val, eta_m + 1, SCALE as int);
        spec_clamp(y + fxmul(SCALE - root, span), lo, hi)
    }
}

/// One mutated gene: exactly `mutate_gene_spec` of the gene and the draw,
/// clamped into the bounds.
#[verifier::rlimit(60)]
fn mutate_gene(y: i64, lo: i64, hi: i64, eta_m: u32, u: i64) -> (r: i64)
    requires
        -BOUND_LIMIT <= lo <= y <= hi <= BOUND_LIMIT,
        lo < hi,
        0 <= u < SCALE,
        1 <= eta_m <= 100,
    ensures
        lo <= r <= hi,
        r == mutate_gene_spec(y as int, lo as int, hi as int, eta_m as nat, u as int),
{
    let span = hi - lo;
    proof {
        lemma_fxdiv_le_scale((y - lo) as int, span as int);
        lemma_fxdiv_le_scale((hi - y) as int, span as int);
    }
    if u < HALF {
        let delta1 = div_fx(y - lo, span);
        let xy = SCALE - delta1;
        let powxy = pow_sat_fx(xy, eta_m + 1, SCALE);
        proof {
            lemma_fxpow_sat_bounds(xy as int, (eta_m + 1) as nat, SCALE as int);
            assert(fxmul((SCALE - 2 * u) as int, powxy as int) <= SCALE - 2 * u) by {
                lemma_mul_nonnegative((SCALE - 2 * u) as int, powxy as int);
                lemma_mul_inequality(powxy as int, SCALE as int, (SCALE - 2 * u) as int);
                lemma_mul_is_commutative(powxy as int, (SCALE - 2 * u) as int);
                lemma_mul_is_commutative(SCALE as int, (SCALE - 2 * u) as int);
                lemma_div_is_ordered(
                    (SCALE - 2 * u) as int * powxy as int,
                    (SCALE - 2 * u) as int * SCALE as int,
                    SCALE as int,
                );
                lemma_div_multiples_vanish((SCALE - 2 * u) as int, SCALE as int);
                lemma_mul_is_commutative(SCALE as int, (SCALE - 2 * u) as int);
            }
            lemma_mul_nonnegative((SCALE - 2 * u) as int, powxy as int);
            lemma_div_is_ordered(0, (SCALE - 2 * u) as int * powxy as int, SCALE as int);
        }
        let val = 2 * u + mul_fx(SCALE - 2 * u, powxy);
        proof {
            lemma_fxpow_sat_ge_base(SCALE as int + 1, (eta_m + 1) as nat, val as int + 1);
        }
        let root = root_fx(val, eta_m + 1, SCALE + 1);
        proof {
            assert(fxmul((SCALE - root) as int, span as int) <= 2 * BOUND_LIMIT) by {
                lemma_mul_nonnegative((SCALE - root) as int, span as int);
                lemma_mul_inequality((SCALE - root) as int, SCALE as int, span as int);
                lemma_mul_is_commutative(SCALE as int, span as int);
                lemma_div_is_ordered(
                    (SCALE - root) as int * span as int,
                    span as int * SCALE as int,
                    SCALE as int,
                );
                lemma_mul_is_commutative(span as int, SCALE as int);
                lemma_div_multiples_vanish(span as int, SCALE as int);
            }
        }
        let move_down = mul_fx(SCALE - root, span);
        clamp_fx(y - move_down, lo, hi)
    } else {
        let delta2 = div_fx(hi - y, span);
        let xy = SCALE - delta2;
        let powxy = pow_sat_fx(xy, eta_m + 1, SCALE);
        proof {
            lemma_fxpow_sat_bounds(xy as int, (eta_m + 1) as nat, SCALE as int);
            assert(fxmul((2 * u - SCALE) as int, powxy as int) <= 2 * u - SCALE) by {
                lemma_mul_nonnegative((2 * u - SCALE) as int, powxy as int);
                lemma_mul_inequality(powxy as int, SCALE as int, (2 * u - SCALE) as int);
                lemma_mul_is_commutative(powxy as int, (2 * u - SCALE) as int);
                lemma_mul_is_commutative(SCALE as int, (2 * u - SCALE) as int);
                lemma_div_is_ordered(
                    (2 * u - SCALE) as int * powxy as int,
                    (2 * u - SCALE) as int * SCALE as int,
                    SCALE as int,
                );
                lemma_div_multiples_vanish((2 * u - SCALE) as int, SCALE as int);
                lemma_mul_is_commutative(SCALE as int, (2 * u - SCALE) as int);
            }
            lemma_mul_nonnegative((2 * u - SCALE) as int, powxy as int);
            lemma_div_is_ordered(0, (2 * u - SCALE) as int * powxy as int, SCALE as int);
        }
        let val = 2 * (SCALE - u) + mul_fx(2 * u - SCALE, powxy);
        proof {
            lemma_fxpow_sat_ge_base(SCALE as int + 1, (eta_m + 1) as nat, val as int + 1);
        }
        let root = root_fx(val, eta_m + 1, SCALE + 1);
        proof {
            assert(fxmul((SCALE - root) as int, span as int) <= 2 * BOUND_LIMIT) by {
                lemma_mul_nonnegative((SCALE - root) as int, span as int);
                lemma_mul_inequality((SCALE - root) as int, SCALE as int, span as int);
                lemma_mul_is_commutative(SCALE as int, span as int);
                lemma_div_is_ordered(
                    (SCALE - root) as int * span as int,
                    span as int * SCALE as int,
                    SCALE as int,
                );
                lemma_mul_is_commutative(span as int, SCALE as int);
                lemma_div_multiples_vanish(span as int, SCALE as int);
            }
        }
        let move_up = mul_fx(SCALE - root, span);
        clamp_fx(y + move_up, lo, hi)
    }
}

/// The crossover state after the first `k` genes: per gene one coin draw,
/// and for a recombining pair of distinct genes one more unit draw feeding
/// `sbx_gene_spec`. Children start as copies of the parents; the generator
/// state is threaded through exactly.
pub open spec fn sbx_genes_prefix(
    p1: Seq<i64>,
    p2: Seq<i64>,
    bounds: Seq<(i64, i64)>,
    eta_c: nat,
    s: u64,
    k: nat,
) -> (Seq<i64>, Seq<i64>, u64)
    decreases k,
{
    if k == 0 {
        (p1, p2, s)
    } else {
        let prev = sbx_genes_prefix(p1, p2, bounds, eta_c, s, (k - 1) as nat);
        let j = k - 1;
        let s1 = lcg_next(prev.2);
        let coin = lcg_unit(s1);
        if coin <= HALF {
            let g1 = p1[j as int];
            let g2 = p2[j as int];
            let y1 = if g1 < g2 {
                g1
            } else {
                g2
            };
            let y2 = if g1 < g2 {
                g2
            } else {
                g1
            };
            if y2 - y1 != 0 {
                let s2 = lcg_next(s1);
                let u = lcg_unit(s2);
                let pair = sbx_gene_spec(
                    y1 as int,
                    y2 as int,
                    bounds[j as int].0 as int,
                    bounds[j as int].1 as int,
                    eta_c,
                    u,
                );
                (prev.0.update(j as int, pair.0 as i64), prev.1.update(j as int, pair.1 as i64), s2)
            } else {
                (prev.0, prev.1, s1)
            }
        } else {
            (prev.0, prev.1, s1)
        }
    }
}

/// The mutation state after the first `k` genes: per gene one coin draw,
/// and for a perturbed gene of a nondegenerate interval one more unit draw
/// feeding `mutate_gene_spec`.
pub open spec fn mutate_genes_prefix(
    x0: Seq<i64>,
    bounds: Seq<(i64, i64)>,
    pm: i64,
    eta_m: nat,
    s: u64,
    k: nat,
) -> (Seq<i64>, u64)
    decreases k,
{
    if k == 0 {
        (x0, s)
    } else {
        let prev = mutate_genes_prefix(x0, bounds, pm, eta_m, s, (k - 1) as nat);
        let j = k - 1;
        let s1 = lcg_next(prev.1);
        let coin = lcg_unit(s1);
        if coin <= pm {
            if bounds[j as int].1 - bounds[j as int].0 != 0 {
                let s2 = lcg_next(s1);
                let u = lcg_unit(s2);
                let newv = mutate_gene_spec(
                    prev.0[j as int] as int,
                    bounds[j as int].0 as int,
                    bounds[j as int].1 as int,
                    eta_m,
                    u,
                );
                (prev.0.update(j as int, newv as i64), s2)
            } else {
                (prev.0, s1)
            }
        } else {
            (prev.0, s1)
        }
    }
}

/// Composing generator advances adds the step counts.
pub proof fn lemma_lcg_iter_add(a: nat, b: nat, s: u64)
    ensures
        lcg_iter(b, lcg_iter(a, s)) == lcg_iter(a + b, s),
    decreases b,
{
    if b > 0 {
        lemma_lcg_iter_add(a, (b - 1) as nat, s);
    }
}

/// Simulated binary crossover. With probability `1 - pc` (one draw) the
/// children copy the parents unchanged; otherwise each gene recombines with
/// probability one half using the spread distribution of index `eta_c`, and
/// every recombined gene is clamped into its bounds.
#[verifier::rlimit(100)]
pub fn sbx_crossover(
    p1: &Vec<i64>,
    p2: &Vec<i64>,
    bounds: &Vec<(i64, i64)>,
    pc: i64,
    eta_c: u32,
    rng: &mut Lcg,
) -> (c: (Vec<i64>, Vec<i64>))
    requires
        bounds_wf(bounds@),
        p1@.len() == bounds@.len(),
        p2@.len() == bounds@.len(),
        genes_in_bounds(p1@, bounds@),
        genes_in_bounds(p2@, bounds@),
        0 <= pc <= SCALE,
        1 <= eta_c <= 100,
    ensures
        c.0@.len() == bounds@.len(),
        c.1@.len() == bounds@.len(),
        genes_in_bounds(c.0@, bounds@),
        genes_in_bounds(c.1@, bounds@),
        exists|k: nat| final(rng).state == lcg_iter(k, old(rng).state),
        lcg_unit(lcg_next(old(rng).state)) > pc ==> c.0@ == p1@ && c.1@ == p2@ && final(rng).state
            == lcg_next(old(rng).state),
        lcg_unit(lcg_next(old(rng).state)) <= pc ==> ({
            let r = sbx_genes_prefix(
                p1@,
                p2@,
                bounds@,
                eta_c as nat,
                lcg_next(old(rng).state),
                bounds@.len() as nat,
            );
            c.0@ == r.0 && c.1@ == r.1 && final(rng).state == r.2
        }),
{
    let d = p1.len();
    let mut c1 = clone_genes(p1);
    let mut c2 = clone_genes(p2);
    let u0 = rng.next_unit();
    proof {
        assert(lcg_iter(0, old(rng).state) == old(rng).state);
        assert(rng.state == lcg_iter(1, old(rng).state));
    }
    if u0 > pc {
        return (c1, c2);
    }
    let ghost s1 = rng.state;
    proof {
        assert(s1 == lcg_iter(0, s1));
        assert(lcg_iter(0, old(rng).state) == old(rng).state);
        assert(s1 == lcg_iter(1, old(rng).state));
    }
    let mut j: usize = 0;
    while j < d
        invariant
            d == bounds@.len(),
            j <= d,
            bounds_wf(bounds@),
            p1@.len() == d,
            p2@.len() == d,
            genes_in_bounds(p1@, bounds@),
            genes_in_bounds(p2@, bounds@),
            c1@.len() == d,
            c2@.len() == d,
            0 <= pc <= SCALE,
            1 <= eta_c <= 100,
            genes_in_bounds(c1@, bounds@),
            genes_in_bounds(c2@, bounds@),
            s1 == lcg_next(old(rng).state),
            c1@ == sbx_genes_prefix(p1@, p2@, bounds@, eta_c as nat, s1, j as nat).0,
            c2@ == sbx_genes_prefix(p1@, p2@, bounds@, eta_c as nat, s1, j as nat).1,
            rng.state == sbx_genes_prefix(p1@, p2@, bounds@, eta_c as nat, s1, j as nat).2,
            exists|k: nat| rng.state == lcg_iter(k, s1),
            exists|k: nat| s1 == lcg_iter(k, old(rng).state),
        decreases d - j,
    {
        let ghost s_in = rng.state;
        let coin = rng.next_unit();
        if coin <= HALF {
            let lo = bounds[j].0;
            let hi = bounds[j].1;
            let g1 = p1[j];
            let g2 = p2[j];
            let y1 = if g1 < g2 {
                g1
            } else {
                g2
            };
            let y2 = if g1 < g2 {
                g2
            } else {
                g1
            };
            // genes closer than one fixed-point unit are effectively
            // equal and are left alone
            if y2 - y1 != 0 {
                let u = rng.next_unit();
                let pair = sbx_gene(y1, y2, lo, hi, eta_c, u);
                let ghost c1pre = c1@;
                let ghost c2pre = c2@;
                c1.set(j, pair.0);
                c2.set(j, pair.1);
                proof {
                    assert(genes_in_bounds(c1@, bounds@)) by {
                        assert forall|t: int|
                            0 <= t < d implies bounds@[t].0 <= #[trigger] c1@[t]
                            <= bounds@[t].1 by {
                            if t != j {
                                assert(c1@[t] == c1pre[t]);
                                assert(bounds@[t].0 <= c1pre[t] <= bounds@[t].1);
                            }
                        }
                    }
                    assert(genes_in_bounds(c2@, bounds@)) by {
                        assert forall|t: int|
                            0 <= t < d implies bounds@[t].0 <= #[trigger] c2@[t]
                            <= bounds@[t].1 by {
                            if t != j {
                                assert(c2@[t] == c2pre[t]);
                                assert(bounds@[t].0 <= c2pre[t] <= bounds@[t].1);
                            }
                        }
                    }
                }
            }
        }
        proof {
            let k1 = choose|k: nat| s_in == lcg_iter(k, s1);
            assert(lcg_iter(0, s_in) == s_in);
            assert(lcg_iter(1, s_in) == lcg_next(s_in));
            assert(lcg_iter(2, s_in) == lcg_next(lcg_next(s_in)));
            lemma_lcg_iter_add(k1, 1, s1);
            lemma_lcg_iter_add(k1, 2, s1);
            assert(rng.state == lcg_iter(k1 + 1, s1) || rng.state == lcg_iter(k1 + 2, s1));
        }
        j = j + 1;
    }
    proof {
        let ka = choose|k: nat| s1 == lcg_iter(k, old(rng).state);
        let kb = choose|k: nat| rng.state == lcg_iter(k, s1);
        lemma_lcg_iter_add(ka, kb, old(rng).state);
    }
    (c1, c2)
}

/// Polynomial mutation: each gene is perturbed with probability `pm` by the
/// polynomial distribution of index `eta_m` and clamped into its bounds.
#[verifier::rlimit(100)]
pub fn polynomial_mutation(
    x: &mut Vec<i64>,
    bounds: &Vec<(i64, i64)>,
    pm: i64,
    eta_m: u32,
    rng: &mut Lcg,
)
    requires
        bounds_wf(bounds@),
        old(x)@.len() == bounds@.len(),
        genes_in_bounds(old(x)@, bounds@),
        0 <= pm <= SCALE,
        1 <= eta_m <= 100,
    ensures
        final(x)@.len() == bounds@.len(),
        genes_in_bounds(final(x)@, bounds@),
        exists|k: nat| final(rng).state == lcg_iter(k, old(rng).state),
        ({
            let r = mutate_genes_prefix(
                old(x)@,
                bounds@,
                pm,
                eta_m as nat,
                old(rng).state,
                bounds@.len() as nat,
            );
            final(x)@ == r.0 && final(rng).state == r.1
        }),
{
    let d = x.len();
    proof {
        assert(rng.state == lcg_iter(0, old(rng).state));
    }
    let mut j: usize = 0;
    while j < d
        invariant
            d == bounds@.len(),
            j <= d,
            bounds_wf(bounds@),
            x@.len() == d,
            0 <= pm <= SCALE,
            1 <= eta_m <= 100,
            genes_in_bounds(x@, bounds@),
            x@ == mutate_genes_prefix(old(x)@, bounds@, pm, eta_m as nat, old(rng).state, j as nat).0,
            rng.state == mutate_genes_prefix(
                old(x)@,
                bounds@,
                pm,
                eta_m as nat,
                old(rng).state,
                j as nat,
            ).1,
            exists|k: nat| rng.state == lcg_iter(k, old(rng).state),
        decreases d - j,
    {
        let ghost s_in = rng.state;
        let coin = rng.next_unit();
        if coin <= pm {
            let lo = bounds[j].0;
            let hi = bounds[j].1;
            // a degenerate interval admits no perturbation
            if hi - lo != 0 {
                let y = x[j];
                let u = rng.next_unit();
                let newv = mutate_gene(y, lo, hi, eta_m, u);
                let ghost xpre = x@;
                x.set(j, newv);
                proof {
                    assert(genes_in_bounds(x@, bounds@)) by {
                        assert forall|t: int|
                            0 <= t < d implies bounds@[t].0 <= #[trigger] x@[t]
                            <= bounds@[t].1 by {
                            if t != j {
                                assert(x@[t] == xpre[t]);
                                assert(bounds@[t].0 <= xpre[t] <= bounds@[t].1);
                            }
                        }
                    }
                }
            }
        }
        proof {
            let k1 = choose|k: nat| s_in == lcg_iter(k, old(rng).state);
            assert(lcg_iter(0, s_in) == s_in);
            assert(lcg_iter(1, s_in) == lcg_next(s_in));
            assert(lcg_iter(2, s_in) == lcg_next(lcg_next(s_in)));
            lemma_lcg_iter_add(k1, 1, old(rng).state);
            lemma_lcg_iter_add(k1, 2, old(rng).state);
            assert(rng.state == lcg_iter(k1 + 1, old(rng).state) || rng.state == lcg_iter(
                k1 + 2,
                old(rng).state,
            ));
        }
        j = j + 1;
    }
}

} // verus!

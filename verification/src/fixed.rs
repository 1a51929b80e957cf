//! Fixed-point arithmetic for the optimizer.
//!
//! A real number `v` is carried as the integer `v * SCALE` (truncated), so
//! one unit is one millionth. All operations state their exact integer
//! result, so every quantity the optimizer computes is pinned down.

use vstd::prelude::*;
use vstd::arithmetic::mul::*;
use vstd::arithmetic::div_mod::*;

verus! {

/// Fixed-point scale: the integer `SCALE` stands for the real number one.
pub const SCALE: i64 = 1_000_000;

/// Fixed-point product: `(a * b) / SCALE`, truncated toward minus infinity
/// (equal to truncation toward zero on the nonnegative operands used here).
pub open spec fn fxmul(a: int, b: int) -> int {
    (a * b) / (SCALE as int)
}

/// Fixed-point quotient: `(a * SCALE) / b`.
pub open spec fn fxdiv(a: int, b: int) -> int {
    (a * (SCALE as int)) / b
}

/// Clamp `x` into the closed interval `[lo, hi]`.
pub open spec fn spec_clamp(x: int, lo: int, hi: int) -> int {
    if x < lo {
        lo
    } else if x > hi {
        hi
    } else {
        x
    }
}

pub fn clamp_fx(x: i64, lo: i64, hi: i64) -> (r: i64)
    requires
        lo <= hi,
    ensures
        r == spec_clamp(x as int, lo as int, hi as int),
        lo <= r <= hi,
{
    if x < lo {
        lo
    } else if x > hi {
        hi
    } else {
        x
    }
}

pub fn mul_fx(a: i64, b: i64) -> (r: i64)
    requires
        0 <= a,
        0 <= b,
        fxmul(a as int, b as int) <= i64::MAX,
    ensures
        r == fxmul(a as int, b as int),
        0 <= r,
{
    proof {
        lemma_mul_nonnegative(a as int, b as int);
        lemma_mul_upper_bound(a as int, i64::MAX as int, b as int, i64::MAX as int);
    }
    let p: u128 = (a as u128) * (b as u128);
    let q: u128 = p / (SCALE as u128);
    proof {
        lemma_div_is_ordered(0, a as int * b as int, SCALE as int);
    }
    q as i64
}

pub fn div_fx(a: i64, b: i64) -> (r: i64)
    requires
        0 <= a,
        0 < b,
        fxdiv(a as int, b as int) <= i64::MAX,
    ensures
        r == fxdiv(a as int, b as int),
        0 <= r,
{
    proof {
        lemma_mul_nonnegative(a as int, SCALE as int);
        lemma_mul_upper_bound(a as int, i64::MAX as int, SCALE as int, SCALE as int);
        lemma_div_is_ordered(0, a as int * SCALE as int, b as int);
    }
    let p: u128 = (a as u128) * (SCALE as u128);
    let q: u128 = p / (b as u128);
    q as i64
}

/// A fixed-point quotient of a part over its whole stays at or below one.
pub proof fn lemma_fxdiv_le_scale(a: int, b: int)
    requires
        0 <= a <= b,
        0 < b,
    ensures
        0 <= fxdiv(a, b) <= SCALE,
{
    lemma_mul_nonnegative(a, SCALE as int);
    lemma_div_is_ordered(0, a * (SCALE as int), b);
    lemma_mul_inequality(a, b, SCALE as int);
    lemma_div_is_ordered(a * (SCALE as int), b * (SCALE as int), b);
    lemma_div_multiples_vanish(SCALE as int, b);
}

/// Floor half of a nonnegative value.
pub fn half_nonneg(x: i64) -> (r: i64)
    requires
        0 <= x,
    ensures
        r == x as int / 2,
        0 <= r <= x,
{
    ((x as u64) / 2) as i64
}

/// Fixed-point product saturated at `cap`.
pub open spec fn fxmul_cap(a: int, b: int, cap: int) -> int {
    if fxmul(a, b) >= cap {
        cap
    } else {
        fxmul(a, b)
    }
}

/// Fixed-point power `b^n` (with `b^0 == 1`), each step saturated at `cap`.
/// Saturation keeps intermediate magnitudes representable; callers choose a
/// cap above every value they care to distinguish.
pub open spec fn fxpow_sat(b: int, n: nat, cap: int) -> int
    decreases n,
{
    if n == 0 {
        SCALE as int
    } else {
        fxmul_cap(fxpow_sat(b, (n - 1) as nat, cap), b, cap)
    }
}

pub proof fn lemma_fxpow_sat_bounds(b: int, n: nat, cap: int)
    requires
        0 <= b,
        SCALE <= cap,
    ensures
        0 <= fxpow_sat(b, n, cap) <= cap,
    decreases n,
{
    if n == 0 {
    } else {
        lemma_fxpow_sat_bounds(b, (n - 1) as nat, cap);
        let p = fxpow_sat(b, (n - 1) as nat, cap);
        lemma_mul_nonnegative(p, b);
        lemma_div_is_ordered(0, p * b, SCALE as int);
    }
}

/// Saturated power is monotone in the base.
pub proof fn lemma_fxpow_sat_mono(b1: int, b2: int, n: nat, cap: int)
    requires
        0 <= b1 <= b2,
        0 <= cap,
    ensures
        fxpow_sat(b1, n, cap) <= fxpow_sat(b2, n, cap),
    decreases n,
{
    if n > 0 {
        lemma_fxpow_sat_mono(b1, b2, (n - 1) as nat, cap);
        lemma_fxpow_sat_nonneg(b1, (n - 1) as nat, cap);
        lemma_fxpow_sat_nonneg(b2, (n - 1) as nat, cap);
        let p1 = fxpow_sat(b1, (n - 1) as nat, cap);
        let p2 = fxpow_sat(b2, (n - 1) as nat, cap);
        lemma_mul_inequality(p1, p2, b1);
        lemma_mul_inequality(b1, b2, p2);
        lemma_mul_is_commutative(b1, p2);
        lemma_mul_is_commutative(b2, p2);
        lemma_div_is_ordered(p1 * b1, p2 * b2, SCALE as int);
    }
}

/// The largest base at most `r` whose saturated `n`-th power stays at or
/// below `x` (the saturation cap is one above `x`, so saturation never
/// masks the comparison). This is the exact value the root search returns.
pub open spec fn fxroot(x: int, n: nat, r: int) -> int
    decreases r,
{
    if r <= 0 {
        0
    } else if fxpow_sat(r, n, x + 1) <= x {
        r
    } else {
        fxroot(x, n, r - 1)
    }
}

/// A base sandwiched by the power comparison is the root.
pub proof fn lemma_fxroot_at(x: int, n: nat, q: int, r: int)
    requires
        0 <= x,
        0 <= r <= q,
        fxpow_sat(r, n, x + 1) <= x,
        fxpow_sat(r + 1, n, x + 1) > x,
    ensures
        fxroot(x, n, q) == r,
    decreases q,
{
    if q == r {
    } else {
        lemma_fxpow_sat_mono(r + 1, q, n, x + 1);
        lemma_fxroot_at(x, n, q - 1, r);
    }
}

/// Zero to any positive power is zero.
pub proof fn lemma_fxpow_sat_zero(n: nat, cap: int)
    requires
        1 <= n,
        0 <= cap,
    ensures
        fxpow_sat(0, n, cap) == 0,
{
    let p = fxpow_sat(0, (n - 1) as nat, cap);
    lemma_mul_by_zero_is_zero(p);
}

/// Every saturated power of a nonnegative base is nonnegative.
pub proof fn lemma_fxpow_sat_nonneg(b: int, n: nat, cap: int)
    requires
        0 <= b,
        0 <= cap,
    ensures
        0 <= fxpow_sat(b, n, cap),
    decreases n,
{
    if n > 0 {
        lemma_fxpow_sat_nonneg(b, (n - 1) as nat, cap);
        let p = fxpow_sat(b, (n - 1) as nat, cap);
        lemma_mul_nonnegative(p, b);
        lemma_div_is_ordered(0, p * b, SCALE as int);
    }
}

/// A base of at least one (in fixed point, `SCALE`) keeps every power at
/// least `min(b, cap)`.
pub proof fn lemma_fxpow_sat_ge_base(b: int, n: nat, cap: int)
    requires
        SCALE <= b,
        0 <= cap,
        1 <= n,
    ensures
        fxpow_sat(b, n, cap) >= if b <= cap {
            b
        } else {
            cap
        },
    decreases n,
{
    if n == 1 {
        assert(fxpow_sat(b, 0, cap) == SCALE as int);
        lemma_div_multiples_vanish(b, SCALE as int);
        lemma_mul_is_commutative(SCALE as int, b);
    } else {
        lemma_fxpow_sat_ge_base(b, (n - 1) as nat, cap);
        lemma_fxpow_sat_nonneg(b, (n - 1) as nat, cap);
        let p = fxpow_sat(b, (n - 1) as nat, cap);
        // multiplying a nonnegative p by b >= SCALE cannot shrink it
        lemma_mul_inequality(SCALE as int, b, p);
        lemma_mul_is_commutative(SCALE as int, p);
        lemma_mul_is_commutative(b, p);
        lemma_div_is_ordered(p * (SCALE as int), p * b, SCALE as int);
        lemma_div_multiples_vanish(p, SCALE as int);
        lemma_mul_is_commutative(SCALE as int, p);
    }
}

/// For an exponent of at least two, the power reaches at least
/// `min(b*b/SCALE, cap)` once the base is at least one.
pub proof fn lemma_fxpow_sat_ge_square(b: int, n: nat, cap: int)
    requires
        SCALE <= b,
        SCALE <= cap,
        2 <= n,
    ensures
        fxpow_sat(b, n, cap) >= if fxmul(b, b) <= cap {
            fxmul(b, b)
        } else {
            cap
        },
    decreases n,
{
    lemma_mul_nonnegative(b, b);
    lemma_div_is_ordered(0, b * b, SCALE as int);
    if n == 2 {
        lemma_fxpow_sat_ge_base(b, 1, cap);
        lemma_fxpow_sat_bounds(b, 1, cap);
        let p = fxpow_sat(b, 1, cap);
        if b <= cap {
            // p >= b, so p*b/SCALE >= b*b/SCALE
            lemma_mul_inequality(b, p, b);
            lemma_div_is_ordered(b * b, p * b, SCALE as int);
        } else {
            // p == cap, and multiplying cap by b >= SCALE cannot shrink it
            lemma_mul_inequality(SCALE as int, b, p);
            lemma_mul_is_commutative(SCALE as int, p);
            lemma_mul_is_commutative(b, p);
            lemma_div_is_ordered(p * (SCALE as int), p * b, SCALE as int);
            lemma_div_multiples_vanish(p, SCALE as int);
            lemma_mul_is_commutative(SCALE as int, p);
        }
    } else {
        lemma_fxpow_sat_ge_square(b, (n - 1) as nat, cap);
        lemma_fxpow_sat_bounds(b, (n - 1) as nat, cap);
        let p = fxpow_sat(b, (n - 1) as nat, cap);
        // multiplying p by b >= SCALE cannot shrink it
        lemma_mul_inequality(SCALE as int, b, p);
        lemma_mul_is_commutative(SCALE as int, p);
        lemma_mul_is_commutative(b, p);
        lemma_div_is_ordered(p * (SCALE as int), p * b, SCALE as int);
        lemma_div_multiples_vanish(p, SCALE as int);
        lemma_mul_is_commutative(SCALE as int, p);
    }
}

/// Computes `fxpow_sat(b, n, cap)`.
pub fn pow_sat_fx(b: i64, n: u32, cap: i64) -> (r: i64)
    requires
        0 <= b,
        SCALE <= cap,
    ensures
        r == fxpow_sat(b as int, n as nat, cap as int),
        0 <= r <= cap,
{
    let mut r: i64 = SCALE;
    let mut i: u32 = 0;
    while i < n
        invariant
            0 <= b,
            SCALE <= cap,
            i <= n,
            0 <= r <= cap,
            r == fxpow_sat(b as int, i as nat, cap as int),
        decreases n - i,
    {
        proof {
            lemma_mul_nonnegative(r as int, b as int);
            lemma_mul_upper_bound(r as int, i64::MAX as int, b as int, i64::MAX as int);
            lemma_div_is_ordered(0, r as int * b as int, SCALE as int);
        }
        let p: u128 = (r as u128) * (b as u128);
        let q: u128 = p / (SCALE as u128);
        if q >= (cap as u128) {
            r = cap;
        } else {
            r = q as i64;
        }
        i = i + 1;
    }
    r
}

/// Largest fixed-point root: the greatest `r` with `fxpow_sat(r, n, x+1) <= x`.
/// This inverts the saturated power, which saturates strictly above `x` and so
/// never masks a value the comparison cares about.
pub fn root_fx(x: i64, n: u32, hi_start: i64) -> (r: i64)
    requires
        0 <= x < i64::MAX,
        1 <= n,
        0 < hi_start,
        fxpow_sat(hi_start as int, n as nat, x as int + 1) > x,
    ensures
        0 <= r < hi_start,
        fxpow_sat(r as int, n as nat, x as int + 1) <= x,
        fxpow_sat(r as int + 1, n as nat, x as int + 1) > x,
        r == fxroot(x as int, n as nat, hi_start as int - 1),
{
    let cap: i64 = x + 1;
    proof {
        lemma_fxpow_sat_zero(n as nat, cap as int);
    }
    let mut lo: i64 = 0;
    let mut hi: i64 = hi_start;
    while lo + 1 < hi
        invariant
            0 <= lo < hi <= hi_start,
            1 <= n,
            0 <= x < i64::MAX,
            cap == x as int + 1,
            fxpow_sat(lo as int, n as nat, cap as int) <= x,
            fxpow_sat(hi as int, n as nat, cap as int) > x,
        decreases hi - lo,
    {
        let mid: i64 = (((lo as u64) + (hi as u64)) / 2) as i64;
        let p = pow_sat_fx_any(mid, n, cap);
        if p <= x {
            lo = mid;
        } else {
            hi = mid;
        }
    }
    proof {
        lemma_fxroot_at(x as int, n as nat, hi_start as int - 1, lo as int);
    }
    lo
}

/// As `pow_sat_fx`, but also accepts a cap below one (the root search may
/// probe such caps when inverting a small value).
fn pow_sat_fx_any(b: i64, n: u32, cap: i64) -> (r: i64)
    requires
        0 <= b,
        0 <= cap,
    ensures
        r == fxpow_sat(b as int, n as nat, cap as int),
{
    let mut r: i64 = SCALE;
    let mut i: u32 = 0;
    while i < n
        invariant
            0 <= b,
            0 <= cap,
            i <= n,
            r == fxpow_sat(b as int, i as nat, cap as int),
            i == 0 ==> r == SCALE,
            i > 0 ==> 0 <= r <= cap,
        decreases n - i,
    {
        proof {
            lemma_mul_nonnegative(r as int, b as int);
            lemma_mul_upper_bound(r as int, i64::MAX as int, b as int, i64::MAX as int);
            lemma_div_is_ordered(0, r as int * b as int, SCALE as int);
        }
        let p: u128 = (r as u128) * (b as u128);
        let q: u128 = p / (SCALE as u128);
        if q >= (cap as u128) {
            r = cap;
        } else {
            r = q as i64;
        }
        i = i + 1;
    }
    r
}

} // verus!

//! Deterministic pseudo-random generator.
//!
//! A linear congruential recurrence on a single 64-bit word. Given the same
//! seed and the same sequence of calls, the outputs are bit-identical; the
//! whole optimizer's reproducibility rests on this and on nothing else.

use vstd::prelude::*;
use vstd::arithmetic::mul::*;
use vstd::arithmetic::div_mod::*;
use crate::fixed::SCALE;

verus! {

pub const LCG_MUL: u64 = 6364136223846793005;
pub const LCG_INC: u64 = 1442695040888963407;

/// One advance of the generator state.
#[verifier::opaque]
pub open spec fn lcg_next(s: u64) -> u64 {
    vstd::wrapping::u64_specs::wrapping_add(
        vstd::wrapping::u64_specs::wrapping_mul(s, LCG_MUL),
        LCG_INC,
    )
}

/// The state after `k` advances.
pub open spec fn lcg_iter(k: nat, s: u64) -> u64
    decreases k,
{
    if k == 0 {
        s
    } else {
        lcg_next(lcg_iter((k - 1) as nat, s))
    }
}

/// The fixed-point unit draw read off a state: the high 31 bits of the word,
/// mapped into `[0, SCALE)`, i.e. into the real interval `[0, 1)`.
pub open spec fn lcg_unit(s: u64) -> int {
    ((s as int / 0x2_0000_0000) * (SCALE as int)) / 0x8000_0000
}

/// The integer draw in `[0, n)` produced from state `s`: advance once, then
/// scale the unit draw up to `n` and truncate.
pub open spec fn lcg_below(s: u64, n: int) -> int {
    (lcg_unit(lcg_next(s)) * n) / (SCALE as int)
}

/// Exclusively owned generator state; never seeded from the environment.
pub struct Lcg {
    pub state: u64,
}

impl Lcg {
    pub fn new(seed: u64) -> (r: Lcg)
        ensures
            r.state == seed,
    {
        Lcg { state: seed }
    }

    /// Advances the state once and returns the unit draw of the new state,
    /// a fixed-point value in `[0, 1)`.
    pub fn next_unit(&mut self) -> (u: i64)
        ensures
            final(self).state == lcg_next(old(self).state),
            u == lcg_unit(final(self).state),
            0 <= u < SCALE,
    {
        proof {
            reveal(lcg_next);
        }
        self.state = self.state.wrapping_mul(LCG_MUL).wrapping_add(LCG_INC);
        let hi: u64 = self.state / 0x2_0000_0000;
        let u: u64 = (hi * (SCALE as u64)) / 0x8000_0000;
        u as i64
    }

    /// Advances the state once and returns an index in `[0, n)`.
    pub fn next_below(&mut self, n: usize) -> (k: usize)
        requires
            1 <= n <= 1_000_000_000_000,
        ensures
            final(self).state == lcg_next(old(self).state),
            k == lcg_below(old(self).state, n as int),
            k < n,
    {
        let u = self.next_unit();
        proof {
            let s = SCALE as int;
            let ui = u as int;
            let ni = n as int;
            lemma_mul_nonnegative(ui, ni);
            lemma_mul_inequality(ui, s - 1, ni);
            assert((s - 1) * ni == s * ni - ni) by (nonlinear_arith);
            assert(ui * ni <= s * ni - 1);
            assert(s * ni <= 1_000_000_000_000_000_000) by (nonlinear_arith)
                requires
                    1 <= ni <= 1_000_000_000_000,
                    s == 1_000_000,
            ;
            lemma_div_is_ordered(ui * ni, s * ni - 1, s);
            lemma_fundamental_div_mod_converse(s * ni - 1, s, ni - 1, s - 1);
            lemma_div_is_ordered(0, ui * ni, s);
        }
        let prod: u64 = (u as u64) * (n as u64);
        let k: u64 = prod / (SCALE as u64);
        k as usize
    }
}

} // verus!

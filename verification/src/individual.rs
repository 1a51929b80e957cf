//! The evaluated individual and the dominance partial order.

use vstd::prelude::*;

verus! {

/// Magnitude cap on objective values, constraint violations and auxiliary
/// outputs (one billion in real terms). Evaluator results are clamped into
/// this range so that later arithmetic cannot overflow.
pub const VAL_LIMIT: i64 = 1_000_000_000_000_000;

/// Magnitude cap on decision-variable bounds (one million in real terms).
pub const BOUND_LIMIT: i64 = 1_000_000_000_000;

/// Crowding-distance value standing for plus infinity. Finite crowding
/// distances are bounded by the objective count in fixed point, far below
/// this sentinel, so the order on `i64` is the intended order.
pub const CROWD_INF: i64 = i64::MAX;

/// An individual of the population: a decision vector, its evaluation, and
/// the rank and diversity score assigned by the most recent sorting.
pub struct Individual {
    /// Decision variables, fixed point, each within its configured bounds.
    pub x: Vec<i64>,
    /// Objective values, fixed point, all to be minimized.
    pub f: Vec<i64>,
    /// Aggregate constraint violation; zero means feasible.
    pub cv: i64,
    /// Pareto rank; front index, lower is better.
    pub rank: usize,
    /// Crowding distance within the individual's front.
    pub crowding_distance: i64,
    /// Opaque evaluator status code, carried through uninterpreted.
    pub status: i32,
    /// Auxiliary evaluator outputs, carried through uninterpreted.
    pub outputs: Vec<i64>,
}

/// The dominance relation of the optimizer: a lower constraint violation
/// dominates outright; at equal violation, dominance is the Pareto order on
/// the objective vectors (everywhere at least as good, somewhere strictly
/// better).
pub open spec fn dominates_spec(fa: Seq<i64>, cva: int, fb: Seq<i64>, cvb: int) -> bool {
    if cva < cvb {
        true
    } else if cva > cvb {
        false
    } else {
        (forall|k: int| 0 <= k < fa.len() ==> fa[k] <= fb[k]) && (exists|k: int|
            0 <= k < fa.len() && fa[k] < fb[k])
    }
}

/// Dominance between whole individuals.
pub open spec fn ind_dominates(a: Individual, b: Individual) -> bool {
    dominates_spec(a.f@, a.cv as int, b.f@, b.cv as int)
}

/// All genes lie within their per-dimension closed interval.
pub open spec fn genes_in_bounds(x: Seq<i64>, bounds: Seq<(i64, i64)>) -> bool {
    x.len() == bounds.len() && forall|j: int|
        0 <= j < x.len() ==> bounds[j].0 <= #[trigger] x[j] <= bounds[j].1
}

/// A sanitized evaluation: `m` objectives, all magnitudes within
/// `VAL_LIMIT`, violation nonnegative.
pub open spec fn evaluated_wf(ind: Individual, m: int) -> bool {
    &&& ind.f@.len() == m
    &&& forall|k: int| 0 <= k < m ==> -VAL_LIMIT <= #[trigger] ind.f@[k] <= VAL_LIMIT
    &&& 0 <= ind.cv <= VAL_LIMIT
}

impl Individual {
    /// A fresh, unevaluated individual holding the given decision vector.
    pub fn new(x: Vec<i64>) -> (r: Individual)
        ensures
            r.x@ == x@,
            r.f@ == Seq::<i64>::empty(),
            r.cv == 0,
            r.rank == usize::MAX,
            r.crowding_distance == 0,
            r.status == -1,
            r.outputs@ == Seq::<i64>::empty(),
    {
        Individual {
            x,
            f: Vec::new(),
            cv: 0,
            rank: usize::MAX,
            crowding_distance: 0,
            status: -1,
            outputs: Vec::new(),
        }
    }

    /// Decides dominance over another individual with the same objective
    /// count.
    pub fn dominates(&self, other: &Individual) -> (r: bool)
        requires
            self.f@.len() == other.f@.len(),
        ensures
            r == ind_dominates(*self, *other),
    {
        if self.cv < other.cv {
            return true;
        }
        if self.cv > other.cv {
            return false;
        }
        let mut strictly_better = false;
        let mut k: usize = 0;
        while k < self.f.len()
            invariant
                self.f@.len() == other.f@.len(),
                self.cv == other.cv,
                k <= self.f@.len(),
                forall|j: int| 0 <= j < k ==> self.f@[j] <= other.f@[j],
                strictly_better == exists|j: int| 0 <= j < k && self.f@[j] < other.f@[j],
            decreases self.f@.len() - k,
        {
            if self.f[k] > other.f[k] {
                proof {
                    assert(!(self.f@[k as int] <= other.f@[k as int]));
                }
                return false;
            }
            if self.f[k] < other.f[k] {
                strictly_better = true;
            }
            k = k + 1;
        }
        strictly_better
    }
}

impl Clone for Individual {
    /// A clone carries exactly the same decision vector, evaluation, rank
    /// and crowding distance.
    fn clone(&self) -> (r: Individual)
        ensures
            r.x@ == self.x@,
            r.f@ == self.f@,
            r.cv == self.cv,
            r.rank == self.rank,
            r.crowding_distance == self.crowding_distance,
            r.status == self.status,
            r.outputs@ == self.outputs@,
    {
        Individual {
            x: clone_genes(&self.x),
            f: clone_genes(&self.f),
            cv: self.cv,
            rank: self.rank,
            crowding_distance: self.crowding_distance,
            status: self.status,
            outputs: clone_genes(&self.outputs),
        }
    }
}

/// Clones a vector of fixed-point values; the copy holds the same sequence.
pub fn clone_genes(v: &Vec<i64>) -> (r: Vec<i64>)
    ensures
        r@ == v@,
{
    let r = v.clone();
    proof {
        assert forall|i: int| 0 <= i < v@.len() implies r@[i] == v@[i] by {
            assert(vstd::pervasive::cloned::<i64>(v@[i], r@[i]));
        }
        assert(r@ =~= v@);
    }
    r
}

/// Dominance is irreflexive: no individual dominates itself.
pub proof fn lemma_dominates_irreflexive(f: Seq<i64>, cv: int)
    ensures
        !dominates_spec(f, cv, f, cv),
{
    if dominates_spec(f, cv, f, cv) {
        let k = choose|k: int| 0 <= k < f.len() && f[k] < f[k];
        assert(false);
    }
}

/// At equal constraint violation, dominance is exactly the componentwise
/// Pareto order: everywhere at most the other's objective, and somewhere
/// strictly below it.
pub proof fn lemma_dominates_equal_violation(fa: Seq<i64>, fb: Seq<i64>, cv: int)
    ensures
        dominates_spec(fa, cv, fb, cv) <==> ((forall|k: int|
            0 <= k < fa.len() ==> fa[k] <= fb[k]) && (exists|k: int|
            0 <= k < fa.len() && fa[k] < fb[k])),
{
}

/// Dominance is asymmetric.
pub proof fn lemma_dominates_asymmetric(fa: Seq<i64>, cva: int, fb: Seq<i64>, cvb: int)
    requires
        fa.len() == fb.len(),
        dominates_spec(fa, cva, fb, cvb),
    ensures
        !dominates_spec(fb, cvb, fa, cva),
{
    if dominates_spec(fb, cvb, fa, cva) {
        if cva == cvb {
            let k = choose|k: int| 0 <= k < fa.len() && fa[k] < fb[k];
            assert(fb[k] <= fa[k]);
            assert(false);
        }
    }
}

/// Dominance is transitive.
pub proof fn lemma_dominates_transitive(
    fa: Seq<i64>,
    cva: int,
    fb: Seq<i64>,
    cvb: int,
    fc: Seq<i64>,
    cvc: int,
)
    requires
        fa.len() == fb.len(),
        fb.len() == fc.len(),
        dominates_spec(fa, cva, fb, cvb),
        dominates_spec(fb, cvb, fc, cvc),
    ensures
        dominates_spec(fa, cva, fc, cvc),
{
    if cva == cvb && cvb == cvc {
        assert forall|k: int| 0 <= k < fa.len() implies fa[k] <= fc[k] by {
            assert(fa[k] <= fb[k]);
            assert(fb[k] <= fc[k]);
        }
        let k = choose|k: int| 0 <= k < fa.len() && fa[k] < fb[k];
        assert(fb[k] <= fc[k]);
        assert(fa[k] < fc[k]);
    }
}

} // verus!

//! Crowding distance: the per-front diversity score.
//!
//! Within each front, a member's distance is the sum over objectives of the
//! normalized gap between its sorted neighbours; the members sorted first
//! and last on any objective, and every member of a front of at most two,
//! receive the infinity sentinel and are always preserved by selection.

use vstd::prelude::*;
use vstd::pervasive::VecAdditionalExecFns;
use crate::fixed::{SCALE, div_fx, fxdiv, lemma_fxdiv_le_scale};
use crate::individual::{Individual, VAL_LIMIT, CROWD_INF};
use crate::ranking::uniform_objectives;
use crate::sorting::{Entry, key_le, sorted, sort_spec, sort_entries, lemma_sort_spec_sorted,
    lemma_sort_spec_multiset, lemma_sort_spec_contains};

verus! {

/// Cap on the number of objectives, so that a sum of normalized gaps stays
/// far below the infinity sentinel.
pub const M_LIMIT: i64 = 1000;

/// Two individuals that differ at most in their crowding distance.
pub open spec fn same_but_crowding(a: Individual, b: Individual) -> bool {
    &&& a.x@ == b.x@
    &&& a.f@ == b.f@
    &&& a.cv == b.cv
    &&& a.status == b.status
    &&& a.outputs@ == b.outputs@
    &&& a.rank == b.rank
}

/// Pointwise `same_but_crowding` over whole pools.
pub open spec fn same_but_crowding_seq(a: Seq<Individual>, b: Seq<Individual>) -> bool {
    a.len() == b.len() && forall|i: int|
        0 <= i < a.len() ==> same_but_crowding(#[trigger] a[i], b[i])
}

/// The number of pool members in front `r`.
pub open spec fn count_rank(pool: Seq<Individual>, r: int) -> int
    decreases pool.len(),
{
    if pool.len() == 0 {
        0
    } else {
        count_rank(pool.drop_last(), r) + if pool.last().rank == r {
            1int
        } else {
            0int
        }
    }
}

/// Pools with pointwise equal ranks have equal front sizes.
pub proof fn lemma_count_rank_same(a: Seq<Individual>, b: Seq<Individual>, r: int)
    requires
        a.len() == b.len(),
        forall|i: int| 0 <= i < a.len() ==> (#[trigger] a[i].rank) == b[i].rank,
    ensures
        count_rank(a, r) == count_rank(b, r),
    decreases a.len(),
{
    if a.len() > 0 {
        assert forall|i: int| 0 <= i < a.drop_last().len() implies (#[trigger] a.drop_last()[i].rank)
            == b.drop_last()[i].rank by {
            assert(a[i].rank == b[i].rank);
        }
        lemma_count_rank_same(a.drop_last(), b.drop_last(), r);
        assert(a.last().rank == b.last().rank);
    }
}

/// A front with a member is not empty.
pub proof fn lemma_count_rank_pos(pool: Seq<Individual>, i: int, r: int)
    requires
        0 <= i < pool.len(),
        pool[i].rank == r,
    ensures
        count_rank(pool, r) >= 1,
    decreases pool.len(),
{
    lemma_count_rank_nonneg(pool, r);
    if i == pool.len() - 1 {
        lemma_count_rank_nonneg(pool.drop_last(), r);
    } else {
        lemma_count_rank_pos(pool.drop_last(), i, r);
    }
}

/// Front sizes are never negative.
pub proof fn lemma_count_rank_nonneg(pool: Seq<Individual>, r: int)
    ensures
        count_rank(pool, r) >= 0,
    decreases pool.len(),
{
    if pool.len() > 0 {
        lemma_count_rank_nonneg(pool.drop_last(), r);
    }
}

/// Member `i` attains the front-wide minimum of objective `m`.
pub open spec fn min_of_front(pool: Seq<Individual>, i: int, m: int) -> bool {
    forall|j: int|
        0 <= j < pool.len() && pool[j].rank == pool[i].rank ==> pool[i].f@[m]
            <= #[trigger] pool[j].f@[m]
}

/// Member `i` attains the front-wide maximum of objective `m`.
pub open spec fn max_of_front(pool: Seq<Individual>, i: int, m: int) -> bool {
    forall|j: int|
        0 <= j < pool.len() && pool[j].rank == pool[i].rank ==> pool[i].f@[m]
            >= #[trigger] pool[j].f@[m]
}

/// Objective magnitudes fit the value cap and the objective count fits the
/// objective cap.
pub open spec fn objectives_bounded(pool: Seq<Individual>) -> bool {
    forall|i: int|
        0 <= i < pool.len() ==> (#[trigger] pool[i].f@).len() <= M_LIMIT && forall|m: int|
            0 <= m < pool[i].f@.len() ==> -VAL_LIMIT <= #[trigger] pool[i].f@[m] <= VAL_LIMIT
}

/// Both extremes of front `r` on objective `m` are marked infinite: some
/// member attaining the front-wide minimum and some member attaining the
/// front-wide maximum carry the infinity sentinel.
pub open spec fn front_extremes_marked(pool: Seq<Individual>, r: int, m: int) -> bool {
    &&& exists|b: int|
        0 <= b < pool.len() && (#[trigger] pool[b]).rank == r && pool[b].crowding_distance
            == CROWD_INF && min_of_front(pool, b, m)
    &&& exists|b: int|
        0 <= b < pool.len() && (#[trigger] pool[b]).rank == r && pool[b].crowding_distance
            == CROWD_INF && max_of_front(pool, b, m)
}

/// Member `i` is a front-wide extreme of objective `m`.
pub open spec fn extreme_of_front(pool: Seq<Individual>, i: int, m: int) -> bool {
    min_of_front(pool, i, m) || max_of_front(pool, i, m)
}

/// Below front `r`, the infinity sentinel marks only members of fronts of
/// at most two, or front-wide extremes of some objective: interior members
/// of larger fronts keep finite distances.
pub open spec fn infinite_only_extremes_upto(pool: Seq<Individual>, r: int) -> bool {
    forall|i: int|
        0 <= i < pool.len() && (#[trigger] pool[i]).rank < r && pool[i].crowding_distance
            == CROWD_INF ==> count_rank(pool, pool[i].rank as int) <= 2 || exists|m: int|
            0 <= m < pool[i].f@.len() && #[trigger] extreme_of_front(pool, i, m)
}

/// Every member of a front smaller than `r` whose front holds at most two
/// members carries the infinity sentinel.
pub open spec fn small_fronts_infinite_upto(pool: Seq<Individual>, r: int) -> bool {
    forall|i: int|
        0 <= i < pool.len() && (#[trigger] pool[i]).rank < r && count_rank(
            pool,
            pool[i].rank as int,
        ) <= 2 ==> pool[i].crowding_distance == CROWD_INF
}

/// Every front smaller than `r` with more than two members has both
/// extremes of every objective marked infinite.
pub open spec fn front_extremes_upto(pool: Seq<Individual>, r: int) -> bool {
    forall|i: int, m: int|
        #![trigger pool[i].f@[m]]
        0 <= i < pool.len() && pool[i].rank < r && count_rank(pool, pool[i].rank as int) > 2 && 0
            <= m < pool[i].f@.len() ==> front_extremes_marked(pool, pool[i].rank as int, m)
}

/// Every member's crowding distance in a front smaller than `r` is the
/// sentinel or a finite nonnegative value bounded by the objective count.
pub open spec fn crowding_bounded_upto(pool: Seq<Individual>, r: int) -> bool {
    forall|i: int|
        0 <= i < pool.len() && (#[trigger] pool[i]).rank < r ==> pool[i].crowding_distance
            == CROWD_INF || (0 <= pool[i].crowding_distance <= pool[i].f@.len() * SCALE)
}

/// Being a front-wide extreme depends only on ranks and objectives.
proof fn lemma_extreme_same(a: Seq<Individual>, b: Seq<Individual>, i: int, m: int)
    requires
        a.len() == b.len(),
        0 <= i < a.len(),
        forall|j: int| 0 <= j < a.len() ==> same_but_crowding(#[trigger] a[j], b[j]),
        extreme_of_front(b, i, m),
    ensures
        extreme_of_front(a, i, m),
{
    if min_of_front(b, i, m) {
        assert(min_of_front(a, i, m)) by {
            assert forall|j: int|
                0 <= j < a.len() && a[j].rank == a[i].rank implies a[i].f@[m]
                <= #[trigger] a[j].f@[m] by {
                assert(same_but_crowding(a[j], b[j]));
                assert(same_but_crowding(a[i], b[i]));
                assert(b[i].f@[m] <= b[j].f@[m]);
            }
        }
    } else {
        assert(max_of_front(a, i, m)) by {
            assert forall|j: int|
                0 <= j < a.len() && a[j].rank == a[i].rank implies a[i].f@[m]
                >= #[trigger] a[j].f@[m] by {
                assert(same_but_crowding(a[j], b[j]));
                assert(same_but_crowding(a[i], b[i]));
                assert(b[i].f@[m] >= b[j].f@[m]);
            }
        }
    }
}

/// The indices of front `r`, in increasing order.
pub open spec fn front_list(pool: Seq<Individual>, r: int) -> Seq<usize>
    decreases pool.len(),
{
    if pool.len() == 0 {
        Seq::empty()
    } else {
        let p = front_list(pool.drop_last(), r);
        if pool.last().rank == r {
            p.push((pool.len() - 1) as usize)
        } else {
            p
        }
    }
}

/// Collects the indices of front `r`, in increasing order.
fn gather_front(pool: &Vec<Individual>, r: usize) -> (front: Vec<usize>)
    ensures
        forall|a: int|
            0 <= a < front@.len() ==> (#[trigger] front@[a]) < pool@.len() && pool@[front@[a] as int].rank
                == r,
        forall|a: int, b: int|
            0 <= a < b < front@.len() ==> (#[trigger] front@[a]) < (#[trigger] front@[b]),
        forall|j: int| 0 <= j < pool@.len() && (#[trigger] pool@[j].rank) == r ==> front@.contains(
            j as usize,
        ),
        front@.len() == count_rank(pool@, r as int),
        front@ == front_list(pool@, r as int),
{
    let n = pool.len();
    let mut front: Vec<usize> = Vec::new();
    let mut i: usize = 0;
    while i < n
        invariant
            n == pool@.len(),
            i <= n,
            forall|a: int|
                0 <= a < front@.len() ==> (#[trigger] front@[a]) < i && pool@[front@[a] as int].rank
                    == r,
            forall|a: int, b: int|
                0 <= a < b < front@.len() ==> (#[trigger] front@[a]) < (#[trigger] front@[b]),
            forall|j: int|
                0 <= j < i && (#[trigger] pool@[j].rank) == r ==> front@.contains(j as usize),
            front@.len() == count_rank(pool@.take(i as int), r as int),
            front@ == front_list(pool@.take(i as int), r as int),
        decreases n - i,
    {
        let ghost front0 = front@;
        if pool[i].rank == r {
            front.push(i);
        }
        proof {
            assert(pool@.take(i as int + 1).drop_last() =~= pool@.take(i as int));
            assert(pool@.take(i as int + 1).last() == pool@[i as int]);
            assert forall|j: int|
                0 <= j < i + 1 && (#[trigger] pool@[j].rank) == r implies front@.contains(
                j as usize,
            ) by {
                if j < i {
                    let a = choose|a: int| 0 <= a < front0.len() && front0[a] == j as usize;
                    assert(front@[a] == j as usize);
                } else {
                    assert(front@[front@.len() - 1] == i);
                }
            }
        }
        i = i + 1;
    }
    proof {
        assert(pool@.take(n as int) =~= pool@);
    }
    front
}

/// Assigns crowding distances within front `r`, leaving every other member
/// untouched. A front of at most two members is wholly set to infinity;
/// otherwise, for each objective, the members sorted first and last receive
/// infinity and each interior member accumulates its normalized
/// neighbour gap.
#[verifier::rlimit(100)]
fn crowd_front(pool: &mut Vec<Individual>, front: &Vec<usize>, r: usize)
    requires
        objectives_bounded(old(pool)@),
        uniform_objectives(old(pool)@),
        forall|a: int|
            0 <= a < front@.len() ==> (#[trigger] front@[a]) < old(pool)@.len() && old(pool)@[front@[a] as int].rank == r,
        forall|a: int, b: int|
            0 <= a < b < front@.len() ==> (#[trigger] front@[a]) < (#[trigger] front@[b]),
        forall|j: int|
            0 <= j < old(pool)@.len() && (#[trigger] old(pool)@[j].rank) == r ==> front@.contains(
                j as usize,
            ),
    ensures
        final(pool)@.len() == old(pool)@.len(),
        same_but_crowding_seq(final(pool)@, old(pool)@),
        forall|i: int|
            0 <= i < final(pool)@.len() && (#[trigger] final(pool)@[i]).rank != r ==> final(pool)@[i] == old(pool)@[i],
        forall|i: int|
            0 <= i < final(pool)@.len() && (#[trigger] final(pool)@[i]).rank == r ==> final(pool)@[i].crowding_distance == CROWD_INF || (0 <= final(pool)@[i].crowding_distance
                <= final(pool)@[i].f@.len() * SCALE),
        front@.len() <= 2 ==> forall|i: int|
            0 <= i < final(pool)@.len() && (#[trigger] final(pool)@[i]).rank == r ==> final(pool)@[i].crowding_distance == CROWD_INF,
        front@.len() > 2 ==> forall|m: int|
            0 <= m < old(pool)@[front@[0] as int].f@.len() ==> #[trigger] front_extremes_marked(
                final(pool)@,
                r as int,
                m,
            ),
        forall|i: int|
            0 <= i < final(pool)@.len() && (#[trigger] final(pool)@[i]).rank == r && final(pool)@[i].crowding_distance == CROWD_INF ==> front@.len() <= 2 || exists|m: int|
                0 <= m < final(pool)@[i].f@.len() && #[trigger] extreme_of_front(
                    final(pool)@,
                    i,
                    m,
                ),
{
    let n = pool.len();
    let fl = front.len();
    if fl <= 2 {
        if fl >= 1 {
            let idx = front[0];
            let mut ind = pool[idx].clone();
            ind.crowding_distance = CROWD_INF;
            pool.set(idx, ind);
        }
        if fl == 2 {
            let idx = front[1];
            let mut ind = pool[idx].clone();
            ind.crowding_distance = CROWD_INF;
            pool.set(idx, ind);
        }
        proof {
            assert forall|i: int|
                0 <= i < pool@.len() && (#[trigger] pool@[i]).rank == r implies pool@[i].crowding_distance
                == CROWD_INF by {
                assert(old(pool)@[i].rank == r);
                assert(front@.contains(i as usize));
                let a = choose|a: int| 0 <= a < fl && front@[a] == i as usize;
            }
        }
        return ;
    }
    let nobj = pool[front[0]].f.len();
    proof {
        assert(old(pool)@[front@[0] as int].f@.len() == nobj);
        assert(nobj <= M_LIMIT);
    }
    // reset the front's distances
    let mut t: usize = 0;
    while t < fl
        invariant
            pool@.len() == n == old(pool)@.len(),
            t <= fl,
            fl == front@.len(),
            forall|a: int|
                0 <= a < fl ==> (#[trigger] front@[a]) < n && old(pool)@[front@[a] as int].rank
                    == r,
            forall|a: int, b: int|
                0 <= a < b < fl ==> (#[trigger] front@[a]) < (#[trigger] front@[b]),
            forall|j: int|
                0 <= j < n && (#[trigger] old(pool)@[j].rank) == r ==> front@.contains(j as usize),
            forall|i: int|
                0 <= i < n ==> if old(pool)@[i].rank == r && i < (if t < fl {
                    front@[t as int] as int
                } else {
                    n as int
                }) {
                    same_but_crowding(#[trigger] pool@[i], old(pool)@[i])
                        && pool@[i].crowding_distance == 0
                } else {
                    pool@[i] == old(pool)@[i]
                },
        decreases fl - t,
    {
        let idx = front[t];
        let ghost pre = pool@;
        let mut ind = pool[idx].clone();
        ind.crowding_distance = 0;
        pool.set(idx, ind);
        proof {
            let bnd: int = if t + 1 < fl {
                front@[t as int + 1] as int
            } else {
                n as int
            };
            assert forall|q: int| 0 <= q < n implies if old(pool)@[q].rank == r && q < bnd {
                same_but_crowding(#[trigger] pool@[q], old(pool)@[q]) && pool@[q].crowding_distance
                    == 0
            } else {
                pool@[q] == old(pool)@[q]
            } by {
                if q == idx as int {
                } else {
                    assert(pool@[q] == pre[q]);
                    if old(pool)@[q].rank == r && q < bnd && q > idx as int {
                        assert(front@.contains(q as usize));
                        let a = choose|a: int| 0 <= a < fl && front@[a] == q as usize;
                        if a <= t as int {
                            if a < t as int {
                                assert(front@[a] < front@[t as int]);
                            }
                            assert(false);
                        } else {
                            assert(t as int + 1 <= a);
                            if t as int + 1 < a {
                                assert(front@[t as int + 1] < front@[a]);
                            }
                            assert(t as int + 1 < fl ==> false);
                            assert(false);
                        }
                    }
                }
            }
        }
        t = t + 1;
    }
    // one pass per objective
    let mut m: usize = 0;
    while m < nobj
        invariant
            pool@.len() == n == old(pool)@.len(),
            m <= nobj,
            2 < fl == front@.len(),
            nobj == old(pool)@[front@[0] as int].f@.len() <= M_LIMIT,
            objectives_bounded(old(pool)@),
            uniform_objectives(old(pool)@),
            forall|a: int|
                0 <= a < fl ==> (#[trigger] front@[a]) < n && old(pool)@[front@[a] as int].rank
                    == r,
            forall|a: int, b: int|
                0 <= a < b < fl ==> (#[trigger] front@[a]) < (#[trigger] front@[b]),
            forall|j: int|
                0 <= j < n && (#[trigger] old(pool)@[j].rank) == r ==> front@.contains(j as usize),
            same_but_crowding_seq(pool@, old(pool)@),
            forall|i: int|
                0 <= i < n && (#[trigger] old(pool)@[i].rank) != r ==> pool@[i] == old(pool)@[i],
            forall|i: int|
                0 <= i < n && (#[trigger] old(pool)@[i].rank) == r
                    ==> pool@[i].crowding_distance == CROWD_INF || (0
                    <= pool@[i].crowding_distance <= m * SCALE),
            forall|mm: int|
                0 <= mm < m ==> #[trigger] front_extremes_marked(pool@, r as int, mm),
            forall|i: int|
                0 <= i < n && (#[trigger] old(pool)@[i].rank) == r && pool@[i].crowding_distance
                    == CROWD_INF ==> exists|mm: int|
                    0 <= mm < m && #[trigger] extreme_of_front(pool@, i, mm),
        decreases nobj - m,
    {
        // entries keyed by objective m, carrying the member index
        let mut ent: Vec<Entry> = Vec::new();
        let mut t: usize = 0;
        while t < fl
            invariant
                pool@.len() == n,
                t <= fl,
                fl == front@.len(),
                m < nobj,
                nobj == old(pool)@[front@[0] as int].f@.len(),
                uniform_objectives(old(pool)@),
                same_but_crowding_seq(pool@, old(pool)@),
                forall|a: int|
                    0 <= a < fl ==> (#[trigger] front@[a]) < n && old(pool)@[front@[a] as int].rank
                        == r,
                ent@.len() == t,
                forall|a: int|
                    0 <= a < t ==> (#[trigger] ent@[a]) == (
                        old(pool)@[front@[a] as int].f@[m as int],
                        0i64,
                        front@[a],
                    ),
            decreases fl - t,
        {
            let idx = front[t];
            proof {
                assert(same_but_crowding(pool@[idx as int], old(pool)@[idx as int]));
                assert(old(pool)@[idx as int].f@.len() == nobj);
            }
            let key = pool[idx].f[m];
            ent.push((key, 0i64, idx));
            t = t + 1;
        }
        let ghost ent0 = ent@;
        sort_entries(&mut ent);
        proof {
            lemma_sort_spec_sorted(ent0);
            lemma_sort_spec_multiset(ent0);
            assert(ent@ == sort_spec(ent0));
            assert(ent@.len() == fl);
            // entries are pairwise distinct, so each member sits at exactly
            // one position after sorting
            assert(ent0.no_duplicates()) by {
                assert forall|a: int, b: int| 0 <= a < b < fl implies ent0[a] != ent0[b] by {
                    assert(front@[a] < front@[b]);
                }
            }
            ent0.lemma_multiset_has_no_duplicates();
            ent@.lemma_multiset_has_no_duplicates_conv();
        }
        proof {
            // every sorted entry still describes its member
            assert forall|w: int| 0 <= w < fl implies {
                &&& (#[trigger] ent@[w]).2 < n
                &&& old(pool)@[ent@[w].2 as int].rank == r
                &&& ent@[w].0 == old(pool)@[ent@[w].2 as int].f@[m as int]
                &&& ent@[w].1 == 0
            } by {
                assert(ent@.contains(ent@[w]));
                lemma_sort_spec_contains(ent0, ent@[w]);
                let a = choose|a: int| 0 <= a < ent0.len() && ent0[a] == ent@[w];
            }
            // and every front member is described by some sorted entry
            assert forall|j: int|
                0 <= j < n && (#[trigger] old(pool)@[j].rank) == r implies exists|w: int|
                0 <= w < fl && (#[trigger] ent@[w]).2 == j as usize by {
                assert(front@.contains(j as usize));
                let a = choose|a: int| 0 <= a < fl && front@[a] == j as usize;
                let e = (old(pool)@[j].f@[m as int], 0i64, j as usize);
                assert(ent0[a] == e);
                assert(ent0.contains(e));
                lemma_sort_spec_contains(ent0, e);
                let w = choose|w: int| 0 <= w < ent@.len() && ent@[w] == e;
                assert(ent@[w].2 == j as usize);
            }
        }
        let ghost pool_m = pool@;
        // boundary members of this objective
        let b0 = ent[0].2;
        {
            let mut ind = pool[b0].clone();
            ind.crowding_distance = CROWD_INF;
            pool.set(b0, ind);
        }
        let ghost pool_b0 = pool@;
        let b1 = ent[fl - 1].2;
        {
            let mut ind = pool[b1].clone();
            ind.crowding_distance = CROWD_INF;
            pool.set(b1, ind);
        }
        proof {
            assert forall|q: int| 0 <= q < n implies same_but_crowding(
                #[trigger] pool@[q],
                pool_m[q],
            ) by {
                if q != b0 as int && q != b1 as int {
                    assert(pool@[q] == pool_m[q]);
                }
            }
        }
        proof {
            // the earlier objectives' witnesses survive: only infinities
            // were written
            assert forall|mm: int| 0 <= mm < m implies #[trigger] front_extremes_marked(
                pool@,
                r as int,
                mm,
            ) by {
                assert(front_extremes_marked(pool_m, r as int, mm));
                let wmin = choose|b: int|
                    0 <= b < pool_m.len() && (#[trigger] pool_m[b]).rank == r as int
                        && pool_m[b].crowding_distance == CROWD_INF && min_of_front(pool_m, b, mm);
                let wmax = choose|b: int|
                    0 <= b < pool_m.len() && (#[trigger] pool_m[b]).rank == r as int
                        && pool_m[b].crowding_distance == CROWD_INF && max_of_front(pool_m, b, mm);
                assert(pool@[wmin].crowding_distance == CROWD_INF) by {
                    if wmin != b0 as int && wmin != b1 as int {
                        assert(pool@[wmin] == pool_m[wmin]);
                    }
                }
                assert(pool@[wmax].crowding_distance == CROWD_INF) by {
                    if wmax != b0 as int && wmax != b1 as int {
                        assert(pool@[wmax] == pool_m[wmax]);
                    }
                }
                assert(min_of_front(pool@, wmin, mm)) by {
                    assert forall|j: int|
                        0 <= j < n && pool@[j].rank == pool@[wmin].rank implies pool@[wmin].f@[mm]
                        <= #[trigger] pool@[j].f@[mm] by {
                        assert(same_but_crowding(pool@[j], pool_m[j]));
                        assert(same_but_crowding(pool@[wmin], pool_m[wmin]));
                    }
                }
                assert(max_of_front(pool@, wmax, mm)) by {
                    assert forall|j: int|
                        0 <= j < n && pool@[j].rank == pool@[wmax].rank implies pool@[wmax].f@[mm]
                        >= #[trigger] pool@[j].f@[mm] by {
                        assert(same_but_crowding(pool@[j], pool_m[j]));
                        assert(same_but_crowding(pool@[wmax], pool_m[wmax]));
                    }
                }
                assert(pool@[wmin].rank == r as int && pool@[wmax].rank == r as int) by {
                    assert(same_but_crowding(pool@[wmin], pool_m[wmin]));
                    assert(same_but_crowding(pool@[wmax], pool_m[wmax]));
                }
            }
        }
        proof {
            // the two freshly marked boundary members are this objective's
            // extremes over the front
            assert(min_of_front(pool@, b0 as int, m as int)) by {
                assert forall|j: int|
                    0 <= j < n && pool@[j].rank == pool@[b0 as int].rank implies pool@[b0 as int].f@[m as int]
                    <= #[trigger] pool@[j].f@[m as int] by {
                    assert(same_but_crowding(pool@[j], old(pool)@[j]));
                    assert(same_but_crowding(pool@[b0 as int], old(pool)@[b0 as int]));
                    assert(old(pool)@[j].rank == r);
                    let w = choose|w: int| 0 <= w < fl && (#[trigger] ent@[w]).2 == j as usize;
                    if w > 0 {
                        assert(key_le(ent@[0], ent@[w]));
                    }
                    assert(ent@[0].0 <= ent@[w].0);
                }
            }
            assert(max_of_front(pool@, b1 as int, m as int)) by {
                assert forall|j: int|
                    0 <= j < n && pool@[j].rank == pool@[b1 as int].rank implies pool@[b1 as int].f@[m as int]
                    >= #[trigger] pool@[j].f@[m as int] by {
                    assert(same_but_crowding(pool@[j], old(pool)@[j]));
                    assert(same_but_crowding(pool@[b1 as int], old(pool)@[b1 as int]));
                    assert(old(pool)@[j].rank == r);
                    let w = choose|w: int| 0 <= w < fl && (#[trigger] ent@[w]).2 == j as usize;
                    if w < fl - 1 {
                        assert(key_le(ent@[w], ent@[fl - 1]));
                    }
                    assert(ent@[w].0 <= ent@[fl - 1].0);
                }
            }
            // every infinite member is an extreme of some objective so far
            assert forall|i: int|
                0 <= i < n && (#[trigger] old(pool)@[i].rank) == r && pool@[i].crowding_distance
                    == CROWD_INF implies exists|mm: int|
                0 <= mm < m + 1 && #[trigger] extreme_of_front(pool@, i, mm) by {
                if i == b0 as int {
                    assert(extreme_of_front(pool@, i, m as int));
                } else if i == b1 as int {
                    assert(extreme_of_front(pool@, i, m as int));
                } else {
                    assert(pool@[i] == pool_m[i]);
                    let mm = choose|mm: int|
                        0 <= mm < m && #[trigger] extreme_of_front(pool_m, i, mm);
                    assert(extreme_of_front(pool@, i, mm)) by {
                        lemma_extreme_same(pool@, pool_m, i, mm);
                    }
                }
            }
        }
        // normalization range of this objective over the front; a range of
        // zero (the tiny-threshold guard, exact at this resolution) is
        // replaced by one so no gap divides by zero
        let lo_v = ent[0].0;
        let hi_v = ent[fl - 1].0;
        proof {
            assert(key_le(ent@[0], ent@[fl - 1]));
            assert(-VAL_LIMIT <= lo_v <= VAL_LIMIT);
            assert(-VAL_LIMIT <= hi_v <= VAL_LIMIT);
        }
        let range0 = hi_v - lo_v;
        let range = if range0 == 0 {
            1
        } else {
            range0
        };
        // interior members accumulate their normalized neighbour gap
        let mut t: usize = 1;
        while t < fl - 1
            invariant
                pool@.len() == n == old(pool)@.len(),
                1 <= t <= fl - 1,
                2 < fl == front@.len(),
                m < nobj,
                nobj == old(pool)@[front@[0] as int].f@.len() <= M_LIMIT,
                objectives_bounded(old(pool)@),
                uniform_objectives(old(pool)@),
                forall|j: int|
                    0 <= j < n && (#[trigger] old(pool)@[j].rank) == r ==> front@.contains(
                        j as usize,
                    ),
                ent@.len() == fl,
                sorted(ent@),
                forall|w: int|
                    0 <= w < fl ==> {
                        &&& (#[trigger] ent@[w]).2 < n
                        &&& old(pool)@[ent@[w].2 as int].rank == r
                        &&& ent@[w].0 == old(pool)@[ent@[w].2 as int].f@[m as int]
                        &&& ent@[w].1 == 0
                    },
                forall|j: int|
                    0 <= j < n && (#[trigger] old(pool)@[j].rank) == r ==> exists|w: int|
                        0 <= w < fl && (#[trigger] ent@[w]).2 == j as usize,
                forall|w1: int, w2: int|
                    0 <= w1 < w2 < fl ==> (#[trigger] ent@[w1]) != (#[trigger] ent@[w2]),
                lo_v == ent@[0].0,
                hi_v == ent@[fl - 1].0,
                range0 == hi_v - lo_v,
                range == if range0 == 0 {
                    1int
                } else {
                    range0 as int
                },
                0 <= range0,
                same_but_crowding_seq(pool@, old(pool)@),
                forall|i: int|
                    0 <= i < n && (#[trigger] old(pool)@[i].rank) != r ==> pool@[i] == old(pool)@[i],
                pool@[ent@[0].2 as int].crowding_distance == CROWD_INF,
                pool@[ent@[fl - 1].2 as int].crowding_distance == CROWD_INF,
                forall|w: int|
                    0 < w < fl - 1 ==> {
                        let c = pool@[(#[trigger] ent@[w]).2 as int].crowding_distance;
                        c == CROWD_INF || (0 <= c && if w < t {
                            c <= m * SCALE + SCALE
                        } else {
                            c <= m * SCALE
                        })
                    },
                forall|mm: int|
                    0 <= mm < m ==> #[trigger] front_extremes_marked(pool@, r as int, mm),
                forall|i: int|
                    0 <= i < n && (#[trigger] old(pool)@[i].rank) == r
                        && pool@[i].crowding_distance == CROWD_INF ==> exists|mm: int|
                        0 <= mm < m + 1 && #[trigger] extreme_of_front(pool@, i, mm),
            decreases fl - 1 - t,
        {
            let prev = ent[t - 1].0;
            let next = ent[t + 1].0;
            proof {
                assert(key_le(ent@[t - 1 as int], ent@[t as int + 1]));
                assert(key_le(ent@[0], ent@[t - 1 as int]) || t == 1);
                assert(key_le(ent@[t as int + 1], ent@[fl - 1]) || t as int + 1 == fl - 1);
                assert(lo_v <= prev);
                assert(next <= hi_v);
                assert(0 <= next - prev <= range);
                lemma_fxdiv_le_scale(next - prev as int, range as int);
            }
            let gap = next - prev;
            let term = div_fx(gap, range);
            let cur = ent[t].2;
            let c = pool[cur].crowding_distance;
            let ghost pre = pool@;
            if c != CROWD_INF {
                let mut ind = pool[cur].clone();
                ind.crowding_distance = c + term;
                pool.set(cur, ind);
            }
            proof {
                assert forall|q: int| 0 <= q < n && q != cur as int implies pool@[q] == pre[q] by {}
                assert forall|w: int| 0 < w < fl - 1 implies {
                    let cc = pool@[(#[trigger] ent@[w]).2 as int].crowding_distance;
                    cc == CROWD_INF || (0 <= cc && if w < t + 1 {
                        cc <= m * SCALE + SCALE
                    } else {
                        cc <= m * SCALE
                    })
                } by {
                    if w != t as int {
                        assert(ent@[w] != ent@[t as int]);
                        assert(ent@[w].2 != ent@[t as int].2 || ent@[w] == ent@[t as int]);
                        assert(pool@[ent@[w].2 as int] == pre[ent@[w].2 as int]);
                    }
                }
                assert forall|i: int|
                    0 <= i < n && (#[trigger] old(pool)@[i].rank) == r
                        && pool@[i].crowding_distance == CROWD_INF implies exists|mm: int|
                    0 <= mm < m + 1 && #[trigger] extreme_of_front(pool@, i, mm) by {
                    assert(pool@[i].crowding_distance == pre[i].crowding_distance || i == cur as int);
                    assert(pre[i].crowding_distance == CROWD_INF);
                    let mm = choose|mm: int|
                        0 <= mm < m + 1 && #[trigger] extreme_of_front(pre, i, mm);
                    assert(extreme_of_front(pool@, i, mm)) by {
                        assert forall|q: int|
                            0 <= q < n implies same_but_crowding(#[trigger] pool@[q], pre[q]) by {
                            if q != cur as int {
                                assert(pool@[q] == pre[q]);
                            }
                        }
                        lemma_extreme_same(pool@, pre, i, mm);
                    }
                }
                assert forall|mm: int| 0 <= mm < m implies #[trigger] front_extremes_marked(
                    pool@,
                    r as int,
                    mm,
                ) by {
                    assert(front_extremes_marked(pre, r as int, mm));
                    let bmin = choose|b: int|
                        0 <= b < n && (#[trigger] pre[b]).rank == r && pre[b].crowding_distance
                            == CROWD_INF && min_of_front(pre, b, mm);
                    let bmax = choose|b: int|
                        0 <= b < n && (#[trigger] pre[b]).rank == r && pre[b].crowding_distance
                            == CROWD_INF && max_of_front(pre, b, mm);
                    assert(pool@[bmin].crowding_distance == CROWD_INF);
                    assert(pool@[bmax].crowding_distance == CROWD_INF);
                    assert(min_of_front(pool@, bmin, mm)) by {
                        assert forall|j: int|
                            0 <= j < n && pool@[j].rank == pool@[bmin].rank implies pool@[bmin].f@[mm]
                            <= #[trigger] pool@[j].f@[mm] by {
                            assert(pre[j].f@ == pool@[j].f@ && pre[j].rank == pool@[j].rank);
                            assert(pre[bmin].f@ == pool@[bmin].f@);
                        }
                    }
                    assert(max_of_front(pool@, bmax, mm)) by {
                        assert forall|j: int|
                            0 <= j < n && pool@[j].rank == pool@[bmax].rank implies pool@[bmax].f@[mm]
                            >= #[trigger] pool@[j].f@[mm] by {
                            assert(pre[j].f@ == pool@[j].f@ && pre[j].rank == pool@[j].rank);
                            assert(pre[bmax].f@ == pool@[bmax].f@);
                        }
                    }
                    assert(pool@[bmin].rank == r && pool@[bmax].rank == r);
                }
            }
            t = t + 1;
        }
        proof {
            // the two boundary members of this pass witness the new objective
            let bmin = ent@[0].2 as int;
            let bmax = ent@[fl - 1].2 as int;
            assert(pool@[bmin].rank == r && pool@[bmax].rank == r) by {
                assert(same_but_crowding(pool@[bmin], old(pool)@[bmin]));
                assert(same_but_crowding(pool@[bmax], old(pool)@[bmax]));
            }
            assert(min_of_front(pool@, bmin, m as int)) by {
                assert forall|j: int|
                    0 <= j < n && pool@[j].rank == pool@[bmin].rank implies pool@[bmin].f@[m as int]
                    <= #[trigger] pool@[j].f@[m as int] by {
                    assert(same_but_crowding(pool@[j], old(pool)@[j]));
                    assert(old(pool)@[j].rank == r);
                    let w = choose|w: int| 0 <= w < fl && (#[trigger] ent@[w]).2 == j as usize;
                    if w > 0 {
                        assert(key_le(ent@[0], ent@[w]));
                    }
                    assert(ent@[0].0 <= ent@[w].0);
                    assert(same_but_crowding(pool@[bmin], old(pool)@[bmin]));
                }
            }
            assert(max_of_front(pool@, bmax, m as int)) by {
                assert forall|j: int|
                    0 <= j < n && pool@[j].rank == pool@[bmax].rank implies pool@[bmax].f@[m as int]
                    >= #[trigger] pool@[j].f@[m as int] by {
                    assert(same_but_crowding(pool@[j], old(pool)@[j]));
                    assert(old(pool)@[j].rank == r);
                    let w = choose|w: int| 0 <= w < fl && (#[trigger] ent@[w]).2 == j as usize;
                    if w < fl - 1 {
                        assert(key_le(ent@[w], ent@[fl - 1]));
                    }
                    assert(ent@[w].0 <= ent@[fl - 1].0);
                    assert(same_but_crowding(pool@[bmax], old(pool)@[bmax]));
                }
            }
            assert(front_extremes_marked(pool@, r as int, m as int)) by {
                assert(0 <= bmin < n && pool@[bmin].rank == r as int && pool@[bmin].crowding_distance
                    == CROWD_INF && min_of_front(pool@, bmin, m as int));
                assert(0 <= bmax < n && pool@[bmax].rank == r as int && pool@[bmax].crowding_distance
                    == CROWD_INF && max_of_front(pool@, bmax, m as int));
            }
            assert forall|mm: int| 0 <= mm < m + 1 implies #[trigger] front_extremes_marked(
                pool@,
                r as int,
                mm,
            ) by {}
            // every front member is within the widened bound
            assert forall|i: int|
                0 <= i < n && (#[trigger] old(pool)@[i].rank) == r implies pool@[i].crowding_distance
                == CROWD_INF || (0 <= pool@[i].crowding_distance && pool@[i].crowding_distance <= (
            m + 1) * SCALE) by {
                let w = choose|w: int| 0 <= w < fl && (#[trigger] ent@[w]).2 == i as usize;
                if w == 0 || w == fl - 1 {
                } else {
                    assert(0 < w < fl - 1);
                }
            }
        }
        m = m + 1;
    }
    proof {
        assert forall|i: int|
            0 <= i < n && (#[trigger] pool@[i]).rank == r implies pool@[i].crowding_distance
            == CROWD_INF || (0 <= pool@[i].crowding_distance <= pool@[i].f@.len() * SCALE) by {
            assert(same_but_crowding(pool@[i], old(pool)@[i]));
            assert(old(pool)@[i].rank == r);
            assert(old(pool)@[i].f@.len() == nobj);
        }
        assert forall|i: int|
            0 <= i < n && (#[trigger] pool@[i]).rank != r implies pool@[i] == old(pool)@[i] by {
            assert(same_but_crowding(pool@[i], old(pool)@[i]));
        }
    }
}

/// Recomputes every member's crowding distance from scratch, front by
/// front. Fronts of at most two members become wholly infinite; larger
/// fronts mark both extremes of every objective infinite and give interior
/// members the sum of their normalized neighbour gaps, a finite value
/// bounded by the objective count.
#[verifier::rlimit(100)]
pub fn crowding_assign(pool: &mut Vec<Individual>)
    requires
        objectives_bounded(old(pool)@),
        uniform_objectives(old(pool)@),
        forall|i: int|
            0 <= i < old(pool)@.len() ==> (#[trigger] old(pool)@[i].rank) < old(pool)@.len(),
    ensures
        final(pool)@.len() == old(pool)@.len(),
        same_but_crowding_seq(final(pool)@, old(pool)@),
        crowding_bounded_upto(final(pool)@, final(pool)@.len() as int),
        small_fronts_infinite_upto(final(pool)@, final(pool)@.len() as int),
        front_extremes_upto(final(pool)@, final(pool)@.len() as int),
        infinite_only_extremes_upto(final(pool)@, final(pool)@.len() as int),
{
    let n = pool.len();
    let mut r: usize = 0;
    while r < n
        invariant
            pool@.len() == n == old(pool)@.len(),
            r <= n,
            objectives_bounded(old(pool)@),
            uniform_objectives(old(pool)@),
            forall|i: int| 0 <= i < n ==> (#[trigger] old(pool)@[i].rank) < n,
            same_but_crowding_seq(pool@, old(pool)@),
            forall|i: int|
                0 <= i < n && (#[trigger] old(pool)@[i].rank) >= r ==> pool@[i] == old(pool)@[i],
            crowding_bounded_upto(pool@, r as int),
            small_fronts_infinite_upto(pool@, r as int),
            front_extremes_upto(pool@, r as int),
            infinite_only_extremes_upto(pool@, r as int),
        decreases n - r,
    {
        let ghost pre0 = pool@;
        let front = gather_front(pool, r);
        let ghost pre = pool@;
        crowd_front(pool, &front, r);
        proof {
            assert(pre == pre0);
            assert forall|i: int| 0 <= i < n implies same_but_crowding(
                #[trigger] pool@[i],
                old(pool)@[i],
            ) by {
                assert(same_but_crowding(pool@[i], pre[i]));
                assert(same_but_crowding(pre[i], old(pool)@[i]));
            }
            assert forall|i: int|
                0 <= i < n && (#[trigger] old(pool)@[i].rank) >= r + 1 implies pool@[i] == old(pool)@[i] by {
                assert(same_but_crowding(pre[i], old(pool)@[i]));
                assert(pool@[i].rank != r);
                assert(pool@[i] == pre[i]);
            }
            // front sizes are unchanged by crowding updates
            assert forall|rr: int| true implies #[trigger] count_rank(pool@, rr) == count_rank(
                pre,
                rr,
            ) by {
                assert forall|i: int| 0 <= i < n implies (#[trigger] pool@[i].rank)
                    == pre[i].rank by {
                    assert(same_but_crowding(pool@[i], pre[i]));
                }
                lemma_count_rank_same(pool@, pre, rr);
            }
            // the new front's size is the gathered length
            assert(count_rank(pool@, r as int) == front@.len());
            // facts for fronts settled in earlier rounds carry over
            assert(crowding_bounded_upto(pool@, r as int + 1)) by {
                assert forall|i: int|
                    0 <= i < n && (#[trigger] pool@[i]).rank < r + 1 implies pool@[i].crowding_distance
                    == CROWD_INF || (0 <= pool@[i].crowding_distance <= pool@[i].f@.len()
                    * SCALE) by {
                    if pool@[i].rank < r {
                        assert(pre[i].rank == pool@[i].rank);
                        assert(old(pool)@[i].rank != r);
                        assert(pool@[i] == pre[i]);
                        assert(crowding_bounded_upto(pre, r as int));
                    }
                }
            }
            assert(small_fronts_infinite_upto(pool@, r as int + 1)) by {
                assert forall|i: int|
                    0 <= i < n && (#[trigger] pool@[i]).rank < r + 1 && count_rank(
                        pool@,
                        pool@[i].rank as int,
                    ) <= 2 implies pool@[i].crowding_distance == CROWD_INF by {
                    if pool@[i].rank < r {
                        assert(pre[i].rank == pool@[i].rank);
                        assert(old(pool)@[i].rank != r);
                        assert(pool@[i] == pre[i]);
                        assert(count_rank(pre, pre[i].rank as int) <= 2);
                    }
                }
            }
            assert(front_extremes_upto(pool@, r as int + 1)) by {
            assert forall|i: int, m: int|
                #![trigger pool@[i].f@[m]]
                0 <= i < pool@.len() && pool@[i].rank < r + 1 && count_rank(
                    pool@,
                    pool@[i].rank as int,
                ) > 2 && 0 <= m < pool@[i].f@.len() implies front_extremes_marked(
                pool@,
                pool@[i].rank as int,
                m,
            ) by {
                assert(0 <= i < n);
                assert(front_extremes_upto(pre, r as int));
                if pool@[i].rank < r {
                    assert(pre[i].rank == pool@[i].rank);
                    assert(count_rank(pre, pre[i].rank as int) > 2);
                    assert(pre[i].f@ == pool@[i].f@);
                    assert(pre[i].f@[m] == pool@[i].f@[m]);
                    assert(front_extremes_marked(pre, pre[i].rank as int, m));
                    let rr = pre[i].rank as int;
                    let wmin = choose|b: int|
                        0 <= b < pre.len() && (#[trigger] pre[b]).rank == rr
                            && pre[b].crowding_distance == CROWD_INF && min_of_front(pre, b, m);
                    let wmax = choose|b: int|
                        0 <= b < pre.len() && (#[trigger] pre[b]).rank == rr
                            && pre[b].crowding_distance == CROWD_INF && max_of_front(pre, b, m);
                    assert(old(pool)@[wmin].rank != r);
                    assert(old(pool)@[wmax].rank != r);
                    assert(pool@[wmin] == pre[wmin]);
                    assert(pool@[wmax] == pre[wmax]);
                    assert(min_of_front(pool@, wmin, m)) by {
                        assert forall|j: int|
                            0 <= j < n && pool@[j].rank == pool@[wmin].rank implies pool@[wmin].f@[m]
                            <= #[trigger] pool@[j].f@[m] by {
                            assert(same_but_crowding(pool@[j], pre[j]));
                        }
                    }
                    assert(max_of_front(pool@, wmax, m)) by {
                        assert forall|j: int|
                            0 <= j < n && pool@[j].rank == pool@[wmax].rank implies pool@[wmax].f@[m]
                            >= #[trigger] pool@[j].f@[m] by {
                            assert(same_but_crowding(pool@[j], pre[j]));
                        }
                    }
                } else {
                    // the round just finished: its extremes are marked
                    assert(pool@[i].rank == r);
                    assert(same_but_crowding(pool@[i], pre[i]));
                    assert(same_but_crowding(pre[i], old(pool)@[i]));
                    assert(old(pool)@[i].rank == r);
                    assert(count_rank(pool@, r as int) > 2);
                    assert(front@.len() > 2);
                    assert(front@[0] < n && pre[front@[0] as int].rank == r);
                    assert(same_but_crowding(pre[front@[0] as int], old(pool)@[front@[0] as int]));
                    assert(old(pool)@[front@[0] as int].f@.len() == old(pool)@[i].f@.len());
                    assert(pre[front@[0] as int].f@.len() == pre[i].f@.len());
                    assert(m < pool@[i].f@.len());
                    assert(pool@[i].f@.len() == pre[i].f@.len());
                    assert(m < pre[front@[0] as int].f@.len());
                    assert(front_extremes_marked(pool@, r as int, m));
                }
            }
            }
        }
        proof {
            assert(infinite_only_extremes_upto(pool@, r as int + 1)) by {
                assert forall|i: int|
                    0 <= i < pool@.len() && (#[trigger] pool@[i]).rank < r + 1
                        && pool@[i].crowding_distance == CROWD_INF implies count_rank(
                    pool@,
                    pool@[i].rank as int,
                ) <= 2 || exists|m: int|
                    0 <= m < pool@[i].f@.len() && #[trigger] extreme_of_front(pool@, i, m) by {
                    assert forall|q: int|
                        0 <= q < n implies same_but_crowding(#[trigger] pool@[q], pre[q]) by {}
                    if pool@[i].rank < r {
                        assert(pre[i].rank == pool@[i].rank);
                        assert(old(pool)@[i].rank != r);
                        assert(pool@[i] == pre[i]);
                        assert(infinite_only_extremes_upto(pre, r as int));
                        assert(pre[i].crowding_distance == CROWD_INF);
                        if count_rank(pre, pre[i].rank as int) <= 2 {
                        } else {
                            let m = choose|m: int|
                                0 <= m < pre[i].f@.len() && #[trigger] extreme_of_front(pre, i, m);
                            assert(extreme_of_front(pool@, i, m)) by {
                                lemma_extreme_same(pool@, pre, i, m);
                            }
                        }
                    } else {
                        assert(pool@[i].rank == r);
                        assert(same_but_crowding(pre[i], old(pool)@[i]));
                        assert(old(pool)@[i].rank == r);
                        if front@.len() <= 2 {
                            assert(count_rank(pool@, r as int) <= 2);
                        }
                    }
                }
            }
        }
        r = r + 1;
    }
    proof {
        assert forall|i: int| 0 <= i < n implies (#[trigger] pool@[i]).rank < n by {
            assert(same_but_crowding(pool@[i], old(pool)@[i]));
        }
    }
}

} // verus!

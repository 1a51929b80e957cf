//! Fast non-dominated sorting: partitioning a pool into Pareto fronts.
//!
//! The ranking a pool receives is characterized by two clauses: every
//! dominator of an individual sits in a strictly lower front, and every
//! positive front index is witnessed by a dominator exactly one front lower.
//! These two clauses pin the ranks uniquely, which is proved below and gives
//! the determinism of the whole sorting pass.

use vstd::prelude::*;
use vstd::set_lib::*;
use crate::individual::{
    Individual,
    ind_dominates,
    lemma_dominates_irreflexive,
    lemma_dominates_transitive,
};

verus! {

/// All pool members carry the same number of objectives.
pub open spec fn uniform_objectives(pool: Seq<Individual>) -> bool {
    forall|i: int, j: int|
        0 <= i < pool.len() && 0 <= j < pool.len() ==> #[trigger] pool[i].f@.len()
            == #[trigger] pool[j].f@.len()
}

/// Dominance between pool members, by index.
pub open spec fn dom_at(pool: Seq<Individual>, j: int, i: int) -> bool {
    ind_dominates(pool[j], pool[i])
}

/// The characterization of the fronts produced by non-dominated sorting:
/// each dominator is ranked strictly below, and each positive rank has a
/// dominator ranked exactly one below.
pub open spec fn valid_ranking(pool: Seq<Individual>) -> bool {
    &&& forall|j: int, i: int|
        0 <= j < pool.len() && 0 <= i < pool.len() && #[trigger] dom_at(pool, j, i)
            ==> pool[j].rank < pool[i].rank
    &&& forall|i: int|
        #![trigger pool[i].rank]
        0 <= i < pool.len() && pool[i].rank != 0 ==> exists|j: int|
            0 <= j < pool.len() && dom_at(pool, j, i) && pool[j].rank == pool[i].rank - 1
}

/// Two individuals that differ at most in their rank and crowding distance:
/// the evaluation-carrying fields all agree.
pub open spec fn same_eval(a: Individual, b: Individual) -> bool {
    &&& a.x@ == b.x@
    &&& a.f@ == b.f@
    &&& a.cv == b.cv
    &&& a.status == b.status
    &&& a.outputs@ == b.outputs@
}

/// Pointwise `same_eval` over whole pools.
pub open spec fn same_eval_seq(a: Seq<Individual>, b: Seq<Individual>) -> bool {
    a.len() == b.len() && forall|i: int| 0 <= i < a.len() ==> same_eval(#[trigger] a[i], b[i])
}

/// Dominance depends only on the evaluation-carrying fields.
pub proof fn lemma_same_eval_dom(a: Seq<Individual>, b: Seq<Individual>)
    requires
        same_eval_seq(a, b),
    ensures
        forall|j: int, i: int|
            0 <= j < a.len() && 0 <= i < a.len() ==> #[trigger] dom_at(a, j, i) == #[trigger] dom_at(
                b,
                j,
                i,
            ),
{
    assert forall|j: int, i: int|
        0 <= j < a.len() && 0 <= i < a.len() implies #[trigger] dom_at(a, j, i) == #[trigger] dom_at(
        b,
        j,
        i,
    ) by {
        assert(a[j].f@ == b[j].f@ && a[j].cv == b[j].cv);
        assert(a[i].f@ == b[i].f@ && a[i].cv == b[i].cv);
    }
}

/// An individual still waiting to be assigned a front.
pub open spec fn unassigned(pool: Seq<Individual>, i: int) -> bool {
    pool[i].rank == usize::MAX
}

/// An unassigned individual dominated by no unassigned individual: a member
/// of the next front.
pub open spec fn minimal_unassigned(pool: Seq<Individual>, i: int) -> bool {
    unassigned(pool, i) && forall|j: int|
        0 <= j < pool.len() && unassigned(pool, j) ==> !#[trigger] dom_at(pool, j, i)
}

/// The number of unassigned individuals.
pub open spec fn unassigned_count(pool: Seq<Individual>) -> int
    decreases pool.len(),
{
    if pool.len() == 0 {
        0
    } else {
        unassigned_count(pool.drop_last()) + if pool.last().rank == usize::MAX {
            1int
        } else {
            0int
        }
    }
}

pub proof fn lemma_unassigned_count_bounds(pool: Seq<Individual>)
    ensures
        0 <= unassigned_count(pool) <= pool.len(),
    decreases pool.len(),
{
    if pool.len() > 0 {
        lemma_unassigned_count_bounds(pool.drop_last());
    }
}

/// Assigning a rank to one unassigned individual lowers the count by one.
pub proof fn lemma_unassigned_count_update(pool: Seq<Individual>, i: int, ind: Individual)
    requires
        0 <= i < pool.len(),
        pool[i].rank == usize::MAX,
        ind.rank != usize::MAX,
    ensures
        unassigned_count(pool.update(i, ind)) == unassigned_count(pool) - 1,
    decreases pool.len(),
{
    let upd = pool.update(i, ind);
    if i == pool.len() - 1 {
        assert(upd.drop_last() =~= pool.drop_last());
    } else {
        assert(upd.drop_last() =~= pool.drop_last().update(i, ind));
        lemma_unassigned_count_update(pool.drop_last(), i, ind);
    }
}

/// A zero count means everyone is assigned.
pub proof fn lemma_unassigned_count_zero(pool: Seq<Individual>)
    requires
        unassigned_count(pool) == 0,
    ensures
        forall|i: int| 0 <= i < pool.len() ==> !unassigned(pool, i),
    decreases pool.len(),
{
    if pool.len() > 0 {
        lemma_unassigned_count_bounds(pool.drop_last());
        lemma_unassigned_count_zero(pool.drop_last());
        assert forall|i: int| 0 <= i < pool.len() implies !unassigned(pool, i) by {
            if i < pool.len() - 1 {
                assert(!unassigned(pool.drop_last(), i));
                assert(pool.drop_last()[i] == pool[i]);
            }
        }
    }
}

/// A pool with everyone unassigned has full count.
pub proof fn lemma_unassigned_count_all(pool: Seq<Individual>)
    requires
        forall|i: int| 0 <= i < pool.len() ==> unassigned(pool, i),
    ensures
        unassigned_count(pool) == pool.len(),
    decreases pool.len(),
{
    if pool.len() > 0 {
        assert(unassigned(pool, pool.len() - 1));
        assert forall|i: int| 0 <= i < pool.drop_last().len() implies unassigned(
            pool.drop_last(),
            i,
        ) by {
            assert(unassigned(pool, i));
            assert(pool.drop_last()[i] == pool[i]);
        }
        lemma_unassigned_count_all(pool.drop_last());
    }
}

/// A pool with everyone assigned has zero count.
pub proof fn lemma_unassigned_count_none(pool: Seq<Individual>)
    requires
        forall|i: int| 0 <= i < pool.len() ==> !unassigned(pool, i),
    ensures
        unassigned_count(pool) == 0,
    decreases pool.len(),
{
    if pool.len() > 0 {
        assert(!unassigned(pool, pool.len() - 1));
        assert forall|i: int| 0 <= i < pool.drop_last().len() implies !unassigned(
            pool.drop_last(),
            i,
        ) by {
            assert(!unassigned(pool, i));
            assert(pool.drop_last()[i] == pool[i]);
        }
        lemma_unassigned_count_none(pool.drop_last());
    }
}

/// A finite, nonempty set of pool indices holds a member dominated by
/// nobody in the set. This is what makes every round of the sorting find a
/// nonempty front: the dominance order, being irreflexive and transitive,
/// cannot cycle.
pub proof fn lemma_exists_minimal(pool: Seq<Individual>, u: Set<int>)
    requires
        uniform_objectives(pool),
        u.finite(),
        u.len() > 0,
        forall|i: int| u.contains(i) ==> 0 <= i < pool.len(),
    ensures
        exists|i: int|
            #[trigger] u.contains(i) && forall|j: int|
                u.contains(j) ==> !#[trigger] dom_at(pool, j, i),
    decreases u.len(),
{
    broadcast use lemma_set_subset_finite;

    let x = u.choose();
    assert(u.contains(x)) by {
        if u =~= Set::<int>::empty() {
            assert(u.len() == 0);
        }
    }
    let d = Set::<int>::new(|j: int| u.contains(j) && dom_at(pool, j, x));
    assert(d.subset_of(u));
    if d.len() == 0 {
        d.lemma_len0_is_empty();
        assert forall|j: int| u.contains(j) implies !#[trigger] dom_at(pool, j, x) by {
            if dom_at(pool, j, x) {
                assert(d.contains(j));
            }
        }
    } else {
        lemma_dominates_irreflexive(pool[x].f@, pool[x].cv as int);
        assert(!d.contains(x));
        assert(d.subset_of(u.remove(x)));
        lemma_len_subset(d, u.remove(x));
        lemma_exists_minimal(pool, d);
        let m = choose|m: int|
            #[trigger] d.contains(m) && forall|j: int|
                d.contains(j) ==> !#[trigger] dom_at(pool, j, m);
        assert(u.contains(m) && dom_at(pool, m, x));
        assert forall|j: int| u.contains(j) implies !#[trigger] dom_at(pool, j, m) by {
            if dom_at(pool, j, m) {
                lemma_dominates_transitive(
                    pool[j].f@,
                    pool[j].cv as int,
                    pool[m].f@,
                    pool[m].cv as int,
                    pool[x].f@,
                    pool[x].cv as int,
                );
                assert(dom_at(pool, j, x));
                assert(d.contains(j));
            }
        }
    }
}

/// Assigns every pool member its front index, in place. Only ranks change;
/// the characterization `valid_ranking` then pins them uniquely
/// (`lemma_ranking_unique`), so the pass is deterministic.
#[verifier::rlimit(100)]
pub fn assign_ranks(pool: &mut Vec<Individual>)
    requires
        uniform_objectives(old(pool)@),
        old(pool)@.len() < usize::MAX,
    ensures
        final(pool)@.len() == old(pool)@.len(),
        same_eval_seq(final(pool)@, old(pool)@),
        forall|i: int|
            0 <= i < final(pool)@.len() ==> (#[trigger] final(pool)@[i]).crowding_distance == old(
                pool,
            )@[i].crowding_distance,
        valid_ranking(final(pool)@),
        forall|i: int|
            0 <= i < final(pool)@.len() ==> (#[trigger] final(pool)@[i].rank) < old(pool)@.len(),
{
    let n = pool.len();
    // reset every rank to the unassigned marker
    let mut i: usize = 0;
    while i < n
        invariant
            pool@.len() == n,
            n == old(pool)@.len() < usize::MAX,
            i <= n,
            same_eval_seq(pool@, old(pool)@),
            forall|t: int|
                0 <= t < n ==> (#[trigger] pool@[t]).crowding_distance == old(
                    pool,
                )@[t].crowding_distance,
            forall|t: int| 0 <= t < i ==> unassigned(pool@, t),
        decreases n - i,
    {
        let ghost pre = pool@;
        let mut ind = pool[i].clone();
        ind.rank = usize::MAX;
        pool.set(i, ind);
        proof {
            assert forall|t: int| 0 <= t < i + 1 implies unassigned(pool@, t) by {
                if t < i {
                    assert(pool@[t] == pre[t]);
                    assert(unassigned(pre, t));
                }
            }
            assert forall|t: int| 0 <= t < n implies same_eval(
                #[trigger] pool@[t],
                old(pool)@[t],
            ) && pool@[t].crowding_distance == old(pool)@[t].crowding_distance by {
                if t != i {
                    assert(pool@[t] == pre[t]);
                }
                assert(same_eval(pre[t], old(pool)@[t]));
                assert(pre[t].crowding_distance == old(pool)@[t].crowding_distance);
            }
        }
        i = i + 1;
    }
    proof {
        assert forall|t: int| 0 <= t < n implies (#[trigger] pool@[t].rank) == usize::MAX by {
            assert(unassigned(pool@, t));
        }
        lemma_unassigned_count_all(pool@);
        assert forall|a: int, b: int|
            0 <= a < pool@.len() && 0 <= b < pool@.len() implies #[trigger] pool@[a].f@.len()
            == #[trigger] pool@[b].f@.len() by {
            assert(same_eval(pool@[a], old(pool)@[a]));
            assert(same_eval(pool@[b], old(pool)@[b]));
        }
    }
    let mut u_count: usize = n;
    let mut k: usize = 0;
    while u_count > 0
        invariant
            pool@.len() == n,
            n == old(pool)@.len() < usize::MAX,
            uniform_objectives(pool@),
            same_eval_seq(pool@, old(pool)@),
            forall|t: int|
                0 <= t < n ==> (#[trigger] pool@[t]).crowding_distance == old(
                    pool,
                )@[t].crowding_distance,
            u_count == unassigned_count(pool@),
            k + u_count <= n,
            forall|t: int|
                0 <= t < n ==> (#[trigger] pool@[t].rank) < k || pool@[t].rank == usize::MAX,
            forall|j: int, t: int|
                0 <= j < n && 0 <= t < n && !unassigned(pool@, t) && #[trigger] dom_at(pool@, j, t)
                    ==> !unassigned(pool@, j) && pool@[j].rank < pool@[t].rank,
            forall|t: int|
                #![trigger pool@[t].rank]
                0 <= t < n && !unassigned(pool@, t) && pool@[t].rank != 0 ==> exists|j: int|
                    0 <= j < n && dom_at(pool@, j, t) && pool@[j].rank == pool@[t].rank - 1,
            forall|t: int|
                0 <= t < n && #[trigger] unassigned(pool@, t) ==> k == 0 || exists|j: int|
                    0 <= j < n && dom_at(pool@, j, t) && (unassigned(pool@, j) || pool@[j].rank
                        == k - 1),
        decreases u_count,
    {
        // gather the current front: unassigned members dominated by no
        // unassigned member
        let mut front: Vec<usize> = Vec::new();
        let mut i: usize = 0;
        while i < n
            invariant
                pool@.len() == n,
                i <= n,
                uniform_objectives(pool@),
                forall|a: int| 0 <= a < front@.len() ==> (#[trigger] front@[a]) < i,
                forall|a: int, b: int|
                    0 <= a < b < front@.len() ==> (#[trigger] front@[a]) < (#[trigger] front@[b]),
                forall|a: int|
                    0 <= a < front@.len() ==> minimal_unassigned(pool@, #[trigger] front@[a] as int),
                forall|t: int|
                    0 <= t < i && #[trigger] minimal_unassigned(pool@, t) ==> front@.contains(
                        t as usize,
                    ),
            decreases n - i,
        {
            if pool[i].rank == usize::MAX {
                let mut dominated = false;
                let mut j: usize = 0;
                while j < n
                    invariant
                        pool@.len() == n,
                        i < n,
                        j <= n,
                        uniform_objectives(pool@),
                        dominated == exists|jj: int|
                            0 <= jj < j && unassigned(pool@, jj) && #[trigger] dom_at(
                                pool@,
                                jj,
                                i as int,
                            ),
                    decreases n - j,
                {
                    if pool[j].rank == usize::MAX {
                        if pool[j].dominates(&pool[i]) {
                            proof {
                                assert(unassigned(pool@, j as int) && dom_at(
                                    pool@,
                                    j as int,
                                    i as int,
                                ));
                            }
                            dominated = true;
                        }
                    }
                    j = j + 1;
                }
                let ghost front0 = front@;
                if !dominated {
                    front.push(i);
                }
                proof {
                    assert forall|t: int|
                        0 <= t < i + 1 && #[trigger] minimal_unassigned(
                            pool@,
                            t,
                        ) implies front@.contains(t as usize) by {
                        if t < i {
                            assert(front0.contains(t as usize));
                            let a = choose|a: int| 0 <= a < front0.len() && front0[a] == t as usize;
                            assert(front@[a] == t as usize);
                        } else {
                            if dominated {
                                let jj = choose|jj: int|
                                    0 <= jj < n && unassigned(pool@, jj) && #[trigger] dom_at(
                                        pool@,
                                        jj,
                                        i as int,
                                    );
                                assert(false);
                            } else {
                                assert(front@[front@.len() - 1] == i);
                            }
                        }
                    }
                }
            } else {
                proof {
                    assert forall|t: int|
                        0 <= t < i + 1 && #[trigger] minimal_unassigned(
                            pool@,
                            t,
                        ) implies front@.contains(t as usize) by {
                        if t == i {
                            assert(unassigned(pool@, t));
                            assert(false);
                        }
                    }
                }
            }
            i = i + 1;
        }
        // the front cannot be empty: the unassigned set has a minimal member
        proof {
            let u = Set::<int>::new(|t: int| 0 <= t < n && unassigned(pool@, t));
            lemma_int_range(0, n as int);
            lemma_set_subset_finite(set_int_range(0, n as int), u);
            lemma_unassigned_count_bounds(pool@);
            if u.len() == 0 {
                u.lemma_len0_is_empty();
                assert forall|t: int| 0 <= t < n implies !unassigned(pool@, t) by {
                    if unassigned(pool@, t) {
                        assert(u.contains(t));
                    }
                }
                lemma_unassigned_count_none(pool@);
                assert(false);
            }
            lemma_exists_minimal(pool@, u);
            let m = choose|m: int|
                #[trigger] u.contains(m) && forall|j: int|
                    u.contains(j) ==> !#[trigger] dom_at(pool@, j, m);
            assert(minimal_unassigned(pool@, m)) by {
                assert forall|j: int|
                    0 <= j < pool@.len() && unassigned(pool@, j) implies !#[trigger] dom_at(
                    pool@,
                    j,
                    m,
                ) by {
                    assert(u.contains(j));
                }
            }
            assert(front@.contains(m as usize));
        }
        // assign front index k to every member of the front
        let fl = front.len();
        let ghost pool0 = pool@;
        let mut t: usize = 0;
        while t < fl
            invariant
                pool@.len() == n,
                n < usize::MAX,
                t <= fl,
                fl == front@.len(),
                k < n,
                forall|a: int| 0 <= a < fl ==> (#[trigger] front@[a]) < n,
                forall|a: int, b: int|
                    0 <= a < b < fl ==> (#[trigger] front@[a]) < (#[trigger] front@[b]),
                forall|a: int|
                    0 <= a < fl ==> minimal_unassigned(pool0, #[trigger] front@[a] as int),
                forall|idx: int|
                    0 <= idx < n && #[trigger] minimal_unassigned(pool0, idx) ==> front@.contains(
                        idx as usize,
                    ),
                forall|idx: int|
                    0 <= idx < n ==> if minimal_unassigned(pool0, idx) && idx < (if t < fl {
                        front@[t as int] as int
                    } else {
                        n as int
                    }) {
                        (#[trigger] pool@[idx]).rank == k && same_eval(pool@[idx], pool0[idx])
                            && pool@[idx].crowding_distance == pool0[idx].crowding_distance
                    } else {
                        pool@[idx] == pool0[idx]
                    },
                unassigned_count(pool@) == unassigned_count(pool0) - t,
            decreases fl - t,
        {
            let idx = front[t];
            proof {
                assert(minimal_unassigned(pool0, idx as int));
                assert(pool@[idx as int] == pool0[idx as int]);
            }
            let ghost pre = pool@;
            let mut ind = pool[idx].clone();
            ind.rank = k;
            pool.set(idx, ind);
            proof {
                lemma_unassigned_count_update(pre, idx as int, ind);
                let bnd: int = if t + 1 < fl {
                    front@[t as int + 1] as int
                } else {
                    n as int
                };
                assert forall|q: int| 0 <= q < n implies if minimal_unassigned(pool0, q) && q
                    < bnd {
                    (#[trigger] pool@[q]).rank == k && same_eval(pool@[q], pool0[q]) && pool@[q].crowding_distance
                        == pool0[q].crowding_distance
                } else {
                    pool@[q] == pool0[q]
                } by {
                    if q == idx as int {
                        assert(minimal_unassigned(pool0, q) && q < bnd);
                    } else {
                        assert(pool@[q] == pre[q]);
                        if minimal_unassigned(pool0, q) && q < bnd && q > idx as int {
                            // no front member lies strictly between two
                            // neighbouring front entries
                            assert(front@.contains(q as usize));
                            let a = choose|a: int| 0 <= a < fl && front@[a] == q as usize;
                            if a <= t as int {
                                if a < t as int {
                                    assert(front@[a] < front@[t as int]);
                                }
                                assert(false);
                            } else {
                                assert(t as int + 1 <= a);
                                if t as int + 1 < a {
                                    assert(front@[t as int + 1] < front@[a]);
                                }
                                assert(t as int + 1 < fl ==> false);
                                assert(false);
                            }
                        }
                    }
                }
            }
            t = t + 1;
        }
        proof {
            // relate the new pool to the one the round started from
            let pool1 = pool@;
            assert(same_eval_seq(pool1, pool0)) by {
                assert forall|q: int| 0 <= q < n implies same_eval(#[trigger] pool1[q], pool0[q]) by {
                    if !(minimal_unassigned(pool0, q)) {
                        assert(pool1[q] == pool0[q]);
                    }
                }
            }
            lemma_same_eval_dom(pool1, pool0);
            assert forall|a: int, b: int|
                0 <= a < n && 0 <= b < n implies #[trigger] pool1[a].f@.len()
                == #[trigger] pool1[b].f@.len() by {
                assert(same_eval(pool1[a], pool0[a]));
                assert(same_eval(pool1[b], pool0[b]));
            }
            assert forall|q: int| 0 <= q < n implies same_eval(
                #[trigger] pool1[q],
                old(pool)@[q],
            ) && pool1[q].crowding_distance == old(pool)@[q].crowding_distance by {
                assert(same_eval(pool1[q], pool0[q]));
                assert(same_eval(pool0[q], old(pool)@[q]));
                if !(minimal_unassigned(pool0, q)) {
                    assert(pool1[q] == pool0[q]);
                } else {
                    assert(pool1[q].crowding_distance == pool0[q].crowding_distance);
                }
                assert(pool0[q].crowding_distance == old(pool)@[q].crowding_distance);
            }
            // an individual is unassigned now iff it was unassigned and not
            // minimal at the start of the round
            assert forall|q: int| 0 <= q < n implies (unassigned(pool1, q) <==> (unassigned(
                pool0,
                q,
            ) && !minimal_unassigned(pool0, q))) by {
                if minimal_unassigned(pool0, q) {
                    assert(pool1[q].rank == k);
                } else {
                    assert(pool1[q] == pool0[q]);
                }
            }
            // ranks below the new front index or unassigned
            assert forall|q: int| 0 <= q < n implies (#[trigger] pool1[q].rank) < k + 1
                || pool1[q].rank == usize::MAX by {
                if minimal_unassigned(pool0, q) {
                } else {
                    assert(pool1[q] == pool0[q]);
                }
            }
            // dominators of every assigned member are assigned and ranked
            // strictly below
            assert forall|j: int, q: int|
                0 <= j < n && 0 <= q < n && !unassigned(pool1, q) && #[trigger] dom_at(
                pool1,
                j,
                q,
            ) implies !unassigned(pool1, j) && pool1[j].rank < pool1[q].rank by {
                assert(dom_at(pool0, j, q));
                if minimal_unassigned(pool0, q) {
                    // newly assigned at rank k; dominators were assigned before
                    assert(!unassigned(pool0, j));
                    assert(pool1[j] == pool0[j]);
                    assert(pool0[j].rank < k);
                } else {
                    assert(pool1[q] == pool0[q]);
                    assert(!unassigned(pool0, j));
                    assert(pool1[j] == pool0[j]);
                }
            }
            // every positive rank keeps a witness one front below
            assert forall|q: int|
                0 <= q < n && !unassigned(pool1, q) && (#[trigger] pool1[q].rank)
                    != 0 implies exists|j: int|
                0 <= j < n && dom_at(pool1, j, q) && pool1[j].rank == pool1[q].rank - 1 by {
                if minimal_unassigned(pool0, q) {
                    if k != 0 {
                        assert(unassigned(pool0, q));
                        let j = choose|j: int|
                            0 <= j < n && dom_at(pool0, j, q) && (unassigned(pool0, j)
                                || pool0[j].rank == k - 1);
                        assert(!unassigned(pool0, j));
                        assert(pool1[j] == pool0[j]);
                        assert(dom_at(pool1, j, q) && pool1[j].rank == pool1[q].rank - 1);
                    }
                } else {
                    assert(pool1[q] == pool0[q]);
                    let j = choose|j: int|
                        0 <= j < n && dom_at(pool0, j, q) && pool0[j].rank == pool0[q].rank - 1;
                    assert(!unassigned(pool0, j));
                    assert(pool1[j] == pool0[j]);
                    assert(dom_at(pool1, j, q) && pool1[j].rank == pool1[q].rank - 1);
                }
            }
            // every still-unassigned member has a pending witness for the
            // next round
            assert forall|q: int| 0 <= q < n && #[trigger] unassigned(pool1, q) implies exists|
                j: int,
            |
                0 <= j < n && dom_at(pool1, j, q) && (unassigned(pool1, j) || pool1[j].rank == k
                    + 1 - 1) by {
                assert(unassigned(pool0, q) && !minimal_unassigned(pool0, q));
                let j = choose|j: int|
                    0 <= j < pool0.len() && unassigned(pool0, j) && #[trigger] dom_at(pool0, j, q);
                assert(dom_at(pool1, j, q));
                if minimal_unassigned(pool0, j) {
                    assert(pool1[j].rank == k);
                } else {
                    assert(unassigned(pool1, j));
                }
            }
        }
        proof {
            lemma_unassigned_count_bounds(pool@);
        }
        u_count = u_count - fl;
        k = k + 1;
    }
    proof {
        lemma_unassigned_count_zero(pool@);
        assert forall|i: int| 0 <= i < n implies (#[trigger] pool@[i].rank) < n by {
            assert(!unassigned(pool@, i));
        }
    }
}

/// All rank-zero members of a validly ranked pool are pairwise mutually
/// non-dominating.
pub proof fn lemma_rank_zero_mutually_nondominating(pool: Seq<Individual>)
    requires
        valid_ranking(pool),
    ensures
        forall|i: int, j: int|
            0 <= i < pool.len() && 0 <= j < pool.len() && pool[i].rank == 0 && pool[j].rank == 0
                ==> !#[trigger] dom_at(pool, i, j),
{
}

/// A ranking stays valid in any pool with the same evaluations and ranks
/// (for instance after crowding distances are rewritten).
pub proof fn lemma_valid_ranking_preserved(a: Seq<Individual>, b: Seq<Individual>)
    requires
        same_eval_seq(a, b),
        forall|i: int| 0 <= i < a.len() ==> (#[trigger] a[i].rank) == b[i].rank,
        valid_ranking(b),
    ensures
        valid_ranking(a),
{
    lemma_same_eval_dom(a, b);
    assert forall|j: int, i: int|
        0 <= j < a.len() && 0 <= i < a.len() && #[trigger] dom_at(a, j, i) implies a[j].rank
        < a[i].rank by {
        assert(dom_at(b, j, i));
        assert(a[j].rank == b[j].rank && a[i].rank == b[i].rank);
    }
    assert forall|i: int|
        #![trigger a[i].rank]
        0 <= i < a.len() && a[i].rank != 0 implies exists|j: int|
        0 <= j < a.len() && dom_at(a, j, i) && a[j].rank == a[i].rank - 1 by {
        assert(b[i].rank != 0);
        let j = choose|j: int| 0 <= j < b.len() && dom_at(b, j, i) && b[j].rank == b[i].rank - 1;
        assert(dom_at(a, j, i));
        assert(a[j].rank == b[j].rank);
    }
}

/// A nonempty, validly ranked pool holds a front-zero member.
pub proof fn lemma_exists_rank_zero(pool: Seq<Individual>, i: int)
    requires
        valid_ranking(pool),
        0 <= i < pool.len(),
    ensures
        exists|z: int| 0 <= z < pool.len() && (#[trigger] pool[z].rank) == 0,
    decreases pool[i].rank,
{
    if pool[i].rank == 0 {
    } else {
        let j = choose|j: int|
            0 <= j < pool.len() && dom_at(pool, j, i) && pool[j].rank == pool[i].rank - 1;
        lemma_exists_rank_zero(pool, j);
    }
}

proof fn lemma_ranking_unique_below(a: Seq<Individual>, b: Seq<Individual>, r: nat)
    requires
        same_eval_seq(a, b),
        valid_ranking(a),
        valid_ranking(b),
    ensures
        forall|i: int|
            0 <= i < a.len() && ((#[trigger] a[i].rank) <= r || (#[trigger] b[i].rank) <= r)
                ==> a[i].rank == b[i].rank,
    decreases r,
{
    lemma_same_eval_dom(a, b);
    if r == 0 {
        assert forall|i: int|
            0 <= i < a.len() && ((#[trigger] a[i].rank) <= 0 || (#[trigger] b[i].rank)
                <= 0) implies a[i].rank == b[i].rank by {
            if a[i].rank == 0 && b[i].rank != 0 {
                let j = choose|j: int|
                    0 <= j < b.len() && dom_at(b, j, i) && b[j].rank == b[i].rank - 1;
                assert(dom_at(a, j, i));
                assert(a[j].rank < a[i].rank);
                assert(false);
            }
            if b[i].rank == 0 && a[i].rank != 0 {
                let j = choose|j: int|
                    0 <= j < a.len() && dom_at(a, j, i) && a[j].rank == a[i].rank - 1;
                assert(dom_at(b, j, i));
                assert(b[j].rank < b[i].rank);
                assert(false);
            }
        }
    } else {
        lemma_ranking_unique_below(a, b, (r - 1) as nat);
        assert forall|i: int|
            0 <= i < a.len() && ((#[trigger] a[i].rank) <= r || (#[trigger] b[i].rank)
                <= r) implies a[i].rank == b[i].rank by {
            if a[i].rank < r || b[i].rank < r {
                assert(a[i].rank <= r - 1 || b[i].rank <= r - 1);
            } else if a[i].rank == r {
                // b's rank can be neither below r (the inductive case) nor
                // above it: its witness one front below would contradict the
                // inductive agreement on lower fronts
                if b[i].rank > r {
                    let j = choose|j: int|
                        0 <= j < b.len() && dom_at(b, j, i) && b[j].rank == b[i].rank - 1;
                    assert(dom_at(a, j, i));
                    assert(a[j].rank < r);
                    assert(b[j].rank == a[j].rank);
                    assert(false);
                }
            } else {
                assert(b[i].rank == r);
                if a[i].rank > r {
                    let j = choose|j: int|
                        0 <= j < a.len() && dom_at(a, j, i) && a[j].rank == a[i].rank - 1;
                    assert(dom_at(b, j, i));
                    assert(b[j].rank < r);
                    assert(a[j].rank == b[j].rank);
                    assert(false);
                }
            }
        }
    }
}

/// Non-dominated sorting is deterministic: any two rankings of the same
/// evaluated pool that satisfy the characterization agree everywhere, so
/// re-running the sorting on an unchanged pool reproduces the ranks.
pub proof fn lemma_ranking_unique(a: Seq<Individual>, b: Seq<Individual>)
    requires
        same_eval_seq(a, b),
        valid_ranking(a),
        valid_ranking(b),
    ensures
        forall|i: int| 0 <= i < a.len() ==> (#[trigger] a[i].rank) == b[i].rank,
{
    assert forall|i: int| 0 <= i < a.len() implies (#[trigger] a[i].rank) == b[i].rank by {
        lemma_ranking_unique_below(a, b, a[i].rank as nat);
    }
}

} // verus!

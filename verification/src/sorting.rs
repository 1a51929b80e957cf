//! Stable sorting of keyed index entries.
//!
//! The optimizer sorts three times: fronts by one objective (crowding),
//! points by the first objective (hypervolume), and the merged pool by rank
//! and crowding distance (environmental selection). All three sort a vector
//! of entries `(primary key, secondary key, index)` by the two keys
//! lexicographically, stably, so each result is a single spec function of
//! the input and every downstream value is pinned.

use vstd::prelude::*;
use vstd::seq_lib::*;

verus! {

/// A sortable entry: two lexicographic keys and the index they belong to.
pub type Entry = (i64, i64, usize);

/// Lexicographic order on the two keys; the index takes no part.
pub open spec fn key_le(a: Entry, b: Entry) -> bool {
    a.0 < b.0 || (a.0 == b.0 && a.1 <= b.1)
}

/// Nondecreasing by `key_le`.
pub open spec fn sorted(s: Seq<Entry>) -> bool {
    forall|i: int, j: int| 0 <= i < j < s.len() ==> key_le(s[i], s[j])
}

/// The stable insertion point of `a` in `s`: the length of the longest
/// prefix whose entries compare at or below `a`, so equal keys keep their
/// original order.
pub open spec fn insert_pos(s: Seq<Entry>, a: Entry) -> int
    decreases s.len(),
{
    if s.len() == 0 {
        0
    } else if key_le(s[0], a) {
        1 + insert_pos(s.drop_first(), a)
    } else {
        0
    }
}

/// Stable insertion sort, one element at a time from the left.
pub open spec fn sort_spec(s: Seq<Entry>) -> Seq<Entry>
    decreases s.len(),
{
    if s.len() == 0 {
        Seq::empty()
    } else {
        let prefix = sort_spec(s.drop_last());
        prefix.insert(insert_pos(prefix, s.last()), s.last())
    }
}

pub proof fn lemma_insert_pos_range(s: Seq<Entry>, a: Entry)
    ensures
        0 <= insert_pos(s, a) <= s.len(),
        forall|i: int| 0 <= i < insert_pos(s, a) ==> key_le(s[i], a),
    decreases s.len(),
{
    if s.len() > 0 && key_le(s[0], a) {
        lemma_insert_pos_range(s.drop_first(), a);
        assert forall|i: int| 0 <= i < insert_pos(s, a) implies key_le(s[i], a) by {
            if i > 0 {
                assert(s.drop_first()[i - 1] == s[i]);
            }
        }
    }
}

pub proof fn lemma_insert_pos_suffix(s: Seq<Entry>, a: Entry)
    requires
        sorted(s),
    ensures
        forall|i: int| insert_pos(s, a) <= i < s.len() ==> !key_le(s[i], a),
    decreases s.len(),
{
    if s.len() > 0 {
        if key_le(s[0], a) {
            assert(sorted(s.drop_first())) by {
                assert forall|i: int, j: int|
                    0 <= i < j < s.drop_first().len() implies key_le(
                    s.drop_first()[i],
                    s.drop_first()[j],
                ) by {
                    assert(s.drop_first()[i] == s[i + 1]);
                    assert(s.drop_first()[j] == s[j + 1]);
                }
            }
            lemma_insert_pos_suffix(s.drop_first(), a);
            assert forall|i: int| insert_pos(s, a) <= i < s.len() implies !key_le(s[i], a) by {
                assert(s.drop_first()[i - 1] == s[i]);
            }
        } else {
            assert forall|i: int| 0 <= i < s.len() implies !key_le(s[i], a) by {
                if i > 0 {
                    assert(key_le(s[0], s[i]));
                }
            }
        }
    }
}

/// The exact position where a backward scan over a sorted prefix stops is
/// the stable insertion point.
pub proof fn lemma_insert_pos_unique(s: Seq<Entry>, a: Entry, p: int)
    requires
        sorted(s),
        0 <= p <= s.len(),
        forall|i: int| 0 <= i < p ==> key_le(s[i], a),
        forall|i: int| p <= i < s.len() ==> !key_le(s[i], a),
    ensures
        insert_pos(s, a) == p,
    decreases s.len(),
{
    if s.len() > 0 {
        assert(sorted(s.drop_first())) by {
            assert forall|i: int, j: int|
                0 <= i < j < s.drop_first().len() implies key_le(
                s.drop_first()[i],
                s.drop_first()[j],
            ) by {
                assert(s.drop_first()[i] == s[i + 1]);
                assert(s.drop_first()[j] == s[j + 1]);
            }
        }
        if p > 0 {
            assert(key_le(s[0], a));
            lemma_insert_pos_unique(s.drop_first(), a, p - 1);
        } else {
            assert(!key_le(s[0], a));
        }
    }
}

pub proof fn lemma_insert_sorted(s: Seq<Entry>, a: Entry)
    requires
        sorted(s),
    ensures
        sorted(s.insert(insert_pos(s, a), a)),
{
    let p = insert_pos(s, a);
    lemma_insert_pos_range(s, a);
    lemma_insert_pos_suffix(s, a);
    let t = s.insert(p, a);
    assert forall|i: int, j: int| 0 <= i < j < t.len() implies key_le(t[i], t[j]) by {
        if i < p && j < p {
            assert(t[i] == s[i] && t[j] == s[j]);
        } else if i < p && j == p {
            assert(t[i] == s[i] && t[j] == a);
        } else if i < p && j > p {
            assert(t[i] == s[i] && t[j] == s[j - 1]);
            if p <= j - 1 {
                assert(!key_le(s[j - 1], a));
                assert(key_le(s[i], a));
            }
        } else if i == p && j > p {
            assert(t[i] == a && t[j] == s[j - 1]);
            assert(!key_le(s[j - 1], a));
        } else {
            assert(t[i] == s[i - 1] && t[j] == s[j - 1]);
        }
    }
}

pub proof fn lemma_sort_spec_sorted(s: Seq<Entry>)
    ensures
        sorted(sort_spec(s)),
        sort_spec(s).len() == s.len(),
    decreases s.len(),
{
    if s.len() > 0 {
        lemma_sort_spec_sorted(s.drop_last());
        let prefix = sort_spec(s.drop_last());
        lemma_insert_pos_range(prefix, s.last());
        lemma_insert_sorted(prefix, s.last());
    }
}

/// Sorting permutes: the result carries exactly the entries of the input.
pub proof fn lemma_sort_spec_multiset(s: Seq<Entry>)
    ensures
        sort_spec(s).to_multiset() == s.to_multiset(),
    decreases s.len(),
{
    if s.len() == 0 {
        assert(sort_spec(s) =~= s);
    } else {
        lemma_sort_spec_multiset(s.drop_last());
        lemma_sort_spec_sorted(s.drop_last());
        let prefix = sort_spec(s.drop_last());
        let p = insert_pos(prefix, s.last());
        lemma_insert_pos_range(prefix, s.last());
        to_multiset_insert(prefix, p, s.last());
        assert(sort_spec(s) == prefix.insert(p, s.last()));
        assert(sort_spec(s).to_multiset() == prefix.to_multiset().insert(s.last()));
        assert(prefix.to_multiset() == s.drop_last().to_multiset());
        to_multiset_build(s.drop_last(), s.last());
        assert(s.drop_last().push(s.last()).to_multiset() =~= s.drop_last().to_multiset().insert(
            s.last(),
        ));
        assert(s.drop_last().push(s.last()) =~= s);
        assert(s.drop_last().push(s.last()) == s);
        assert(s.drop_last().push(s.last()).to_multiset() == s.to_multiset());
        assert(s.to_multiset() =~= s.drop_last().to_multiset().insert(s.last()));
        assert(sort_spec(s).to_multiset() =~= s.to_multiset());
    }
}

/// Sorting keeps membership.
pub proof fn lemma_sort_spec_contains(s: Seq<Entry>, e: Entry)
    ensures
        sort_spec(s).contains(e) <==> s.contains(e),
{
    lemma_sort_spec_multiset(s);
    s.to_multiset_ensures();
    sort_spec(s).to_multiset_ensures();
    assert(s.contains(e) <==> s.to_multiset().count(e) > 0);
    assert(sort_spec(s).contains(e) <==> sort_spec(s).to_multiset().count(e) > 0);
}

fn entry_le(a: &Entry, b: &Entry) -> (r: bool)
    ensures
        r == key_le(*a, *b),
{
    a.0 < b.0 || (a.0 == b.0 && a.1 <= b.1)
}

/// Sorts the entries stably by their two keys; the result is exactly
/// `sort_spec` of the input.
pub fn sort_entries(v: &mut Vec<Entry>) -> (r: ())
    ensures
        final(v)@ == sort_spec(old(v)@),
{
    let ghost input = v@;
    let n = v.len();
    let mut i: usize = 0;
    while i < n
        invariant
            n == input.len(),
            v@.len() == n,
            i <= n,
            v@.subrange(0, i as int) == sort_spec(input.subrange(0, i as int)),
            v@.subrange(i as int, n as int) == input.subrange(i as int, n as int),
        decreases n - i,
    {
        proof {
            lemma_sort_spec_sorted(input.subrange(0, i as int));
            assert(v@[i as int] == input.subrange(i as int, n as int)[0]);
        }
        let ghost pre = v@;
        let x = v.remove(i);
        let ghost prefix = v@.subrange(0, i as int);
        proof {
            assert(v@ == pre.remove(i as int));
            assert(prefix =~= pre.subrange(0, i as int));
            assert(prefix == sort_spec(input.subrange(0, i as int)));
            assert(x == input[i as int]);
            lemma_sort_spec_sorted(input.subrange(0, i as int));
            assert(sorted(prefix));
        }
        let mut p: usize = i;
        while p > 0 && !entry_le(&v[p - 1], &x)
            invariant
                v@.len() == n - 1,
                i < n,
                p <= i,
                prefix == v@.subrange(0, i as int),
                sorted(prefix),
                forall|idx: int| p <= idx < i ==> !key_le(prefix[idx], x),
            decreases p,
        {
            proof {
                assert(v@[p - 1 as int] == prefix[p - 1 as int]);
            }
            p = p - 1;
        }
        proof {
            if p > 0 {
                assert(v@[p - 1 as int] == prefix[p - 1 as int]);
                assert(key_le(prefix[p - 1 as int], x));
                assert forall|idx: int| 0 <= idx < p implies key_le(prefix[idx], x) by {
                    if idx < p - 1 {
                        assert(key_le(prefix[idx], prefix[p - 1 as int]));
                    }
                }
            }
            lemma_insert_pos_unique(prefix, x, p as int);
        }
        let ghost mid = v@;
        v.insert(p, x);
        proof {
            let ni = i as int + 1;
            let ii = i as int;
            let pi = p as int;
            assert(v@ == mid.insert(pi, x));
            assert(input.subrange(0, ni).drop_last() =~= input.subrange(0, ii));
            assert(input.subrange(0, ni).last() == input[ii]);
            // the new sorted prefix is the old one with x inserted at p
            assert(v@.subrange(0, ni) =~= prefix.insert(pi, x)) by {
                assert(forall|j: int| 0 <= j < pi ==> v@[j] == mid[j] && mid[j] == prefix[j]);
                assert(v@[pi] == x);
                assert(forall|j: int|
                    pi < j < ni ==> v@[j] == mid[j - 1] && mid[j - 1] == prefix[j - 1]);
            }
            assert(v@.subrange(0, ni) == sort_spec(input.subrange(0, ni)));
            // the unsorted suffix is untouched
            assert(v@.subrange(ni, n as int) =~= input.subrange(ni, n as int)) by {
                assert forall|j: int| ni <= j < n as int implies v@[j] == input[j] by {
                    assert(v@[j] == mid[j - 1]);
                    assert(mid[j - 1] == pre[j]);
                    assert(pre[j] == pre.subrange(ii, n as int)[j - ii]);
                }
            }
        }
        i = i + 1;
    }
    proof {
        assert(input.subrange(0, n as int) =~= input);
        assert(v@.subrange(0, n as int) =~= v@);
    }
}

} // verus!

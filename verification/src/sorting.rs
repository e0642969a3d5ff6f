//! Sorting of pairs of numbers, done by `itertools`.

use itertools::Itertools;
use vstd::prelude::*;

verus! {

/// Whether pair `a` comes before pair `b`: by the first number, then by the
/// second.
pub open spec fn pair_lt(a: (u64, u64), b: (u64, u64)) -> bool {
    a.0 < b.0 || (a.0 == b.0 && a.1 < b.1)
}

/// Whether no pair of `s` comes before one that stands earlier.
pub open spec fn ascending(s: Seq<(u64, u64)>) -> bool {
    forall|i: int, j: int| 0 <= i < j < s.len() ==> !pair_lt(#[trigger] s[j], #[trigger] s[i])
}

/// `Itertools::sorted` on pairs of unsigned integers: the same pairs, as
/// often as before, in ascending order. Tuples of integers are ordered by
/// their first component, then by their second.
#[verifier::external_body]
pub(crate) fn sorted_pairs(v: Vec<(u64, u64)>) -> (r: Vec<(u64, u64)>)
    ensures
        r@.to_multiset() == v@.to_multiset(),
        ascending(r@),
{
    v.into_iter().sorted().collect()
}

/// Sorting keeps the length, the members, and the absence of duplicates.
pub proof fn lemma_same_members(a: Seq<(u64, u64)>, b: Seq<(u64, u64)>)
    requires
        a.to_multiset() == b.to_multiset(),
    ensures
        a.len() == b.len(),
        forall|x: (u64, u64)| a.contains(x) <==> b.contains(x),
        b.no_duplicates() ==> a.no_duplicates(),
{
    a.to_multiset_ensures();
    b.to_multiset_ensures();
    assert forall|x: (u64, u64)| a.contains(x) <==> b.contains(x) by {
        assert(a.contains(x) <==> a.to_multiset().count(x) > 0);
        assert(b.contains(x) <==> b.to_multiset().count(x) > 0);
    }
    if b.no_duplicates() {
        b.lemma_multiset_has_no_duplicates();
        a.lemma_multiset_has_no_duplicates_conv();
    }
}

/// Whether every pair of `s` comes before those that stand later.
pub open spec fn strictly_ascending(s: Seq<(u64, u64)>) -> bool {
    forall|i: int, j: int| 0 <= i < j < s.len() ==> pair_lt(#[trigger] s[i], #[trigger] s[j])
}

/// Sorting pairs that are all different puts each before the next.
pub proof fn lemma_sorted_distinct(sorted: Seq<(u64, u64)>, from: Seq<(u64, u64)>)
    requires
        sorted.to_multiset() == from.to_multiset(),
        ascending(sorted),
        from.no_duplicates(),
    ensures
        strictly_ascending(sorted),
        sorted.len() == from.len(),
        forall|x: (u64, u64)| sorted.contains(x) <==> from.contains(x),
{
    lemma_same_members(sorted, from);
    assert forall|i: int, j: int| 0 <= i < j < sorted.len() implies pair_lt(
        #[trigger] sorted[i],
        #[trigger] sorted[j],
    ) by {
        assert(!pair_lt(sorted[j], sorted[i]));
        assert(sorted[i] != sorted[j]);
    }
}

/// Only one sequence holds given pairs in strictly ascending order.
pub proof fn lemma_sorted_unique(a: Seq<(u64, u64)>, b: Seq<(u64, u64)>)
    requires
        strictly_ascending(a),
        strictly_ascending(b),
        forall|x: (u64, u64)| a.contains(x) <==> b.contains(x),
    ensures
        a == b,
    decreases a.len(),
{
    if a.len() == 0 {
        if b.len() > 0 {
            assert(b.contains(b[0]));
            assert(a.contains(b[0]));
        }
        assert(a =~= b);
    } else {
        let la = a.last();
        assert(a.contains(la)) by {
            assert(a[a.len() - 1] == la);
        }
        assert(b.contains(la));
        let lb = b.last();
        assert(b.contains(lb)) by {
            assert(b[b.len() - 1] == lb);
        }
        assert(a.contains(lb));
        let i = choose|i: int| 0 <= i < a.len() && a[i] == lb;
        let j = choose|j: int| 0 <= j < b.len() && b[j] == la;
        if i < a.len() - 1 {
            assert(pair_lt(a[i], a[a.len() - 1]));
        }
        if j < b.len() - 1 {
            assert(pair_lt(b[j], b[b.len() - 1]));
        }
        assert(la == lb);
        let ra = a.drop_last();
        let rb = b.drop_last();
        assert forall|x: (u64, u64)| ra.contains(x) <==> rb.contains(x) by {
            if ra.contains(x) {
                let k = choose|k: int| 0 <= k < ra.len() && ra[k] == x;
                assert(a[k] == x);
                assert(pair_lt(a[k], a[a.len() - 1]));
                assert(a.contains(x));
                let m = choose|m: int| 0 <= m < b.len() && b[m] == x;
                assert(m < b.len() - 1);
                assert(rb[m] == x);
            }
            if rb.contains(x) {
                let k = choose|k: int| 0 <= k < rb.len() && rb[k] == x;
                assert(b[k] == x);
                assert(pair_lt(b[k], b[b.len() - 1]));
                assert(b.contains(x));
                let m = choose|m: int| 0 <= m < a.len() && a[m] == x;
                assert(m < a.len() - 1);
                assert(ra[m] == x);
            }
        }
        assert(strictly_ascending(ra)) by {
            assert forall|p: int, q: int| 0 <= p < q < ra.len() implies pair_lt(
                #[trigger] ra[p],
                #[trigger] ra[q],
            ) by {
                assert(pair_lt(a[p], a[q]));
            }
        }
        assert(strictly_ascending(rb)) by {
            assert forall|p: int, q: int| 0 <= p < q < rb.len() implies pair_lt(
                #[trigger] rb[p],
                #[trigger] rb[q],
            ) by {
                assert(pair_lt(b[p], b[q]));
            }
        }
        lemma_sorted_unique(ra, rb);
        assert(a =~= ra.push(la));
        assert(b =~= rb.push(lb));
    }
}

} // verus!

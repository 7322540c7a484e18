//! Insertion sort that merges a slice into an already-sorted vector.

use vstd::prelude::*;
use crate::checks::lemma_sorted_pairwise;
use crate::checks::sorted;

verus! {

broadcast use vstd::multiset::group_multiset_axioms, vstd::seq_lib::group_to_multiset_ensures;

/// Permutation equivalence matches sorting: for any sorted rearrangement
/// `sa` of `a` and `sb` of `b` (as any correct sort would produce), `a` and
/// `b` hold the same multiset of values — what `is_permutation` decides —
/// exactly when `sa` and `sb` are equal element for element.
pub proof fn lemma_permutation_iff_sorted_equal(
    a: Seq<i64>,
    b: Seq<i64>,
    sa: Seq<i64>,
    sb: Seq<i64>,
)
    requires
        sorted(sa),
        sorted(sb),
        sa.to_multiset() == a.to_multiset(),
        sb.to_multiset() == b.to_multiset(),
    ensures
        (a.to_multiset() == b.to_multiset()) <==> (sa == sb),
{
    if a.to_multiset() == b.to_multiset() {
        let leq = (|x: i64, y: i64| x <= y);
        assert forall|p: int, q: int| 0 <= p < q < sa.len() implies #[trigger] leq(sa[p], sa[q]) by {
            lemma_sorted_pairwise(sa, p, q);
        }
        assert forall|p: int, q: int| 0 <= p < q < sb.len() implies #[trigger] leq(sb[p], sb[q]) by {
            lemma_sorted_pairwise(sb, p, q);
        }
        vstd::seq_lib::lemma_sorted_unique(sa, sb, leq);
        assert(sa =~= sb);
    }
}

/// Merges the elements of `a` into the sorted vector `v` by insertion:
/// each element is placed before the first strictly greater element of the
/// destination, so the result is sorted and holds exactly the values of `a`
/// together with the prior values of `v`.
pub fn sort(a: &[i64], v: Vec<i64>) -> (r: Vec<i64>)
    requires
        sorted(v@),
    ensures
        sorted(r@),
        r@.to_multiset() == (a@ + v@).to_multiset(),
        r@.len() == a@.len() + v@.len(),
        sorted(a@) && v@.len() == 0 ==> r@ == a@,
{
    let mut out = v;
    let mut i: usize = 0;
    proof {
        assert(a@.take(0) =~= Seq::<i64>::empty());
        assert(a@.take(0).to_multiset().len() == 0);
        assert(out@.to_multiset() =~= a@.take(0).to_multiset().add(v@.to_multiset()));
    }
    while i < a.len()
        invariant
            sorted(out@),
            i <= a@.len(),
            out@.len() == i + v@.len(),
            out@.to_multiset() == a@.take(i as int).to_multiset().add(v@.to_multiset()),
        decreases a@.len() - i,
    {
        let x = a[i];
        let mut j: usize = 0;
        while j < out.len() && out[j] <= x
            invariant
                j <= out@.len(),
                forall|k: int| 0 <= k < j ==> out@[k] <= x,
            decreases out@.len() - j,
        {
            j += 1;
        }
        proof {
            let o = out@;
            o.insert_ensures(j as int, x);
            let n = o.insert(j as int, x);
            assert forall|k: int| 0 < k < n.len() implies n[k - 1] <= #[trigger] n[k] by {
                if k < j {
                    assert(n[k - 1] == o[k - 1] && n[k] == o[k]);
                } else if k == j {
                    assert(n[k - 1] == o[k - 1] && n[k] == x);
                } else if k == j + 1 {
                    assert(n[k - 1] == x && n[k] == o[k - 1]);
                } else {
                    assert(n[k - 1] == o[k - 2] && n[k] == o[k - 1]);
                }
            }
            assert(a@.take(i + 1) =~= a@.take(i as int).push(a@[i as int]));
            assert(o.insert(j as int, x).to_multiset() =~= a@.take(i + 1).to_multiset().add(
                v@.to_multiset(),
            ));
        }
        out.insert(j, x);
        i += 1;
    }
    proof {
        assert(a@.take(a@.len() as int) =~= a@);
        vstd::seq_lib::lemma_multiset_commutative(a@, v@);
        if sorted(a@) && v@.len() == 0 {
            assert(v@ =~= Seq::<i64>::empty());
            assert(v@.to_multiset().len() == 0);
            assert(out@.to_multiset() =~= a@.to_multiset());
            lemma_permutation_iff_sorted_equal(a@, a@, out@, a@);
        }
    }
    out
}

} // verus!

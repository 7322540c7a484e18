//! Sortedness and uniqueness predicates on integer slices.

use vstd::prelude::*;

verus! {

/// A sequence is sorted when every adjacent pair is non-decreasing.
pub open spec fn sorted(s: Seq<i64>) -> bool {
    forall|i: int| 0 < i < s.len() ==> s[i - 1] <= #[trigger] s[i]
}

/// A sequence is distinct when no value appears at two different positions.
pub open spec fn distinct(s: Seq<i64>) -> bool {
    forall|i: int, j: int| 0 <= i < j < s.len() ==> s[i] != s[j]
}

/// Sortedness of adjacent pairs extends to every pair of positions.
pub proof fn lemma_sorted_pairwise(s: Seq<i64>, i: int, j: int)
    requires
        sorted(s),
        0 <= i <= j < s.len(),
    ensures
        s[i] <= s[j],
    decreases j - i,
{
    if i < j {
        lemma_sorted_pairwise(s, i, j - 1);
    }
}

/// Returns true iff the slice is non-decreasing throughout.
pub fn is_sorted(a: &[i64]) -> (r: bool)
    ensures
        r == sorted(a@),
{
    let mut i: usize = 1;
    while i < a.len()
        invariant
            1 <= i,
            forall|k: int| 0 < k < i ==> a@[k - 1] <= #[trigger] a@[k],
        decreases a@.len() - i,
    {
        if a[i - 1] > a[i] {
            return false;
        }
        i += 1;
    }
    true
}

/// Sortedness of an integer slice; the same meaning as `is_sorted`.
pub fn is_sorted_int(a: &[i64]) -> (r: bool)
    ensures
        r == sorted(a@),
{
    is_sorted(a)
}

/// Returns true iff no two distinct positions of the slice hold equal values.
pub fn is_unique(a: &[i64]) -> (r: bool)
    ensures
        r == distinct(a@),
{
    let mut i: usize = 0;
    while i < a.len()
        invariant
            forall|p: int, q: int| 0 <= p < q < a@.len() && p < i ==> a@[p] != a@[q],
        decreases a@.len() - i,
    {
        let mut j: usize = i + 1;
        while j < a.len()
            invariant
                i < j,
                i < a@.len(),
                forall|p: int, q: int| 0 <= p < q < a@.len() && p < i ==> a@[p] != a@[q],
                forall|q: int| i < q < j ==> a@[i as int] != a@[q],
            decreases a@.len() - j,
        {
            if a[i] == a[j] {
                return false;
            }
            j += 1;
        }
        i += 1;
    }
    true
}

} // verus!

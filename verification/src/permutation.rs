//! Multiset equality of two slices, decided by greedy matching.
//!
//! `is_permutation` walks the first slice and greedily claims, for each
//! element, the first still-unclaimed equal element of the second slice.
//! The proof tracks the multiset of claimed values: after each round it
//! equals, value by value, the smaller of the two occurrence counts, so the
//! final tally decides multiset equality exactly.

use vstd::prelude::*;
use vstd::multiset::Multiset;

verus! {

broadcast use vstd::multiset::group_multiset_axioms, vstd::seq_lib::group_to_multiset_ensures;

/// The smaller of two counts.
spec fn min_nat(x: nat, y: nat) -> nat {
    if x <= y {
        x
    } else {
        y
    }
}

/// The multiset of values of `b` claimed by a matching: position `j`
/// contributes `b[j]` when `used[j]` is set.
spec fn claimed(b: Seq<i64>, used: Seq<bool>) -> Multiset<i64>
    decreases b.len(),
{
    if b.len() == 0 {
        Multiset::empty()
    } else {
        let rest = claimed(b.drop_last(), used.drop_last());
        if used.last() {
            rest.insert(b.last())
        } else {
            rest
        }
    }
}

/// Splitting off the last element relates the multisets of a sequence and
/// of its prefix.
proof fn lemma_last_split(b: Seq<i64>)
    requires
        b.len() > 0,
    ensures
        b.to_multiset() == b.drop_last().to_multiset().insert(b.last()),
{
    assert(b =~= b.drop_last().push(b.last()));
    assert(b.drop_last().push(b.last()).to_multiset() =~= b.drop_last().to_multiset().insert(
        b.last(),
    ));
}

/// A matching never claims a value more often than `b` holds it.
proof fn lemma_claimed_le(b: Seq<i64>, used: Seq<bool>)
    requires
        b.len() == used.len(),
    ensures
        forall|v: i64| #[trigger] claimed(b, used).count(v) <= b.to_multiset().count(v),
    decreases b.len(),
{
    if b.len() == 0 {
        assert(b.to_multiset().len() == 0);
    } else {
        lemma_claimed_le(b.drop_last(), used.drop_last());
        lemma_last_split(b);
        assert forall|v: i64| #[trigger] claimed(b, used).count(v) <= b.to_multiset().count(
            v,
        ) by {
            assert(claimed(b.drop_last(), used.drop_last()).count(v) <= b.drop_last().to_multiset().count(v));
        }
    }
}

/// A matching with nothing claimed has an empty claimed multiset.
proof fn lemma_claimed_none(b: Seq<i64>, used: Seq<bool>)
    requires
        b.len() == used.len(),
        forall|q: int| 0 <= q < used.len() ==> !used[q],
    ensures
        claimed(b, used) == Multiset::<i64>::empty(),
    decreases b.len(),
{
    if b.len() > 0 {
        lemma_claimed_none(b.drop_last(), used.drop_last());
    }
}

/// Claiming one more position adds exactly its value to the claimed multiset.
proof fn lemma_claimed_flip(b: Seq<i64>, used: Seq<bool>, j: int)
    requires
        b.len() == used.len(),
        0 <= j < b.len(),
        !used[j],
    ensures
        claimed(b, used.update(j, true)) == claimed(b, used).insert(b[j]),
    decreases b.len(),
{
    let u2 = used.update(j, true);
    let bd = b.drop_last();
    let ud = used.drop_last();
    if j == b.len() - 1 {
        assert(u2.drop_last() =~= ud);
        assert(claimed(b, u2) =~= claimed(b, used).insert(b[j]));
    } else {
        assert(u2.drop_last() =~= ud.update(j, true));
        lemma_claimed_flip(bd, ud, j);
        assert(claimed(b, u2) =~= claimed(b, used).insert(b[j]));
    }
}

/// When every position holding value `v` is claimed, the claimed count of
/// `v` is the full count of `v` in `b`.
proof fn lemma_claimed_all_used(b: Seq<i64>, used: Seq<bool>, v: i64)
    requires
        b.len() == used.len(),
        forall|q: int| 0 <= q < b.len() && b[q] == v ==> used[q],
    ensures
        claimed(b, used).count(v) == b.to_multiset().count(v),
    decreases b.len(),
{
    if b.len() == 0 {
        assert(b.to_multiset().len() == 0);
    } else {
        lemma_claimed_all_used(b.drop_last(), used.drop_last(), v);
        lemma_last_split(b);
    }
}

/// An unclaimed position witnesses that its value is claimed strictly fewer
/// times than `b` holds it.
proof fn lemma_claimed_unused(b: Seq<i64>, used: Seq<bool>, j: int)
    requires
        b.len() == used.len(),
        0 <= j < b.len(),
        !used[j],
    ensures
        claimed(b, used).count(b[j]) < b.to_multiset().count(b[j]),
    decreases b.len(),
{
    let bd = b.drop_last();
    let ud = used.drop_last();
    lemma_last_split(b);
    if j == b.len() - 1 {
        lemma_claimed_le(bd, ud);
        assert(b.last() == b[j]);
        assert(claimed(b, used) == claimed(bd, ud));
        assert(claimed(bd, ud).count(b[j]) <= bd.to_multiset().count(b[j]));
        assert(b.to_multiset().count(b[j]) == bd.to_multiset().count(b[j]) + 1);
    } else {
        assert(bd[j] == b[j]);
        assert(ud[j] == used[j]);
        lemma_claimed_unused(bd, ud, j);
        assert(claimed(bd, ud).count(b[j]) < bd.to_multiset().count(b[j]));
        if used.last() {
            assert(claimed(b, used) == claimed(bd, ud).insert(b.last()));
        } else {
            assert(claimed(b, used) == claimed(bd, ud));
        }
    }
}

/// A pointwise-smaller multiset of the same total size is the same multiset.
proof fn lemma_submultiset_same_len(m1: Multiset<i64>, m2: Multiset<i64>)
    requires
        forall|v: i64| #[trigger] m1.count(v) <= m2.count(v),
        m1.len() == m2.len(),
    ensures
        m1 == m2,
{
    let d = m2.sub(m1);
    assert(m1.add(d) =~= m2);
    assert(d.len() == 0);
    assert forall|v: i64| m1.count(v) == m2.count(v) by {
        assert(d.count(v) <= d.len());
    }
    assert(m1 =~= m2);
}

/// Returns true iff the two slices hold the same multiset of values.
pub fn is_permutation(a: &[i64], b: &[i64]) -> (r: bool)
    ensures
        r == (a@.to_multiset() == b@.to_multiset()),
{
    let mut used: Vec<bool> = Vec::new();
    let mut k: usize = 0;
    while k < b.len()
        invariant
            used@.len() == k,
            k <= b@.len(),
            forall|q: int| 0 <= q < k ==> !used@[q],
        decreases b@.len() - k,
    {
        used.push(false);
        k += 1;
    }
    let mut count: usize = 0;
    let mut i: usize = 0;
    proof {
        lemma_claimed_none(b@, used@);
        assert(a@.take(0) =~= Seq::<i64>::empty());
        assert(a@.take(0).to_multiset().len() == 0);
    }
    while i < a.len()
        invariant
            used@.len() == b@.len(),
            i <= a@.len(),
            count <= i,
            count == claimed(b@, used@).len(),
            forall|v: i64| #[trigger] claimed(b@, used@).count(v) == min_nat(
                a@.take(i as int).to_multiset().count(v),
                b@.to_multiset().count(v),
            ),
        decreases a@.len() - i,
    {
        let x = a[i];
        let mut j: usize = 0;
        while j < b.len() && !(b[j] == x && !used[j])
            invariant
                used@.len() == b@.len(),
                j <= b@.len(),
                x == a@[i as int],
                i < a@.len(),
                forall|q: int| 0 <= q < j && b@[q] == x ==> used@[q],
            decreases b@.len() - j,
        {
            j += 1;
        }
        proof {
            assert(a@.take(i + 1) =~= a@.take(i as int).push(a@[i as int]));
        }
        if j < b.len() {
            proof {
                lemma_claimed_unused(b@, used@, j as int);
                lemma_claimed_flip(b@, used@, j as int);
            }
            used[j] = true;
            count += 1;
        } else {
            proof {
                lemma_claimed_all_used(b@, used@, x);
            }
        }
        i += 1;
    }
    proof {
        assert(a@.take(a@.len() as int) =~= a@);
        let m = claimed(b@, used@);
        let ams = a@.to_multiset();
        let bms = b@.to_multiset();
        if a@.len() == b@.len() && count == a@.len() {
            assert(m.len() == ams.len());
            assert forall|v: i64| #[trigger] m.count(v) <= ams.count(v) by {
                assert(m.count(v) == min_nat(ams.count(v), bms.count(v)));
            }
            lemma_submultiset_same_len(m, ams);
            assert(ams.len() == bms.len());
            assert forall|v: i64| #[trigger] ams.count(v) <= bms.count(v) by {
                assert(m.count(v) == min_nat(ams.count(v), bms.count(v)));
            }
            lemma_submultiset_same_len(ams, bms);
        }
        if ams == bms {
            assert forall|v: i64| #[trigger] m.count(v) == ams.count(v) by {
                assert(m.count(v) == min_nat(ams.count(v), bms.count(v)));
            }
            assert(m =~= ams);
            assert(count == ams.len());
        }
    }
    a.len() == b.len() && count == a.len()
}

} // verus!

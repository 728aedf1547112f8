//! Sequences that hold the same things in another order.

use vstd::prelude::*;

verus! {

/// `at` names indices below `count`, none of them twice.
pub open spec fn injects(at: Seq<int>, count: nat) -> bool {
    &&& forall|i: int| 0 <= i < at.len() ==> 0 <= #[trigger] at[i] < count
    &&& forall|i: int, j: int| 0 <= i < j < at.len() ==> at[i] != at[j]
}

/// Indices that are named once each are no more than there are indices,
/// and where they are as many, every index is named.
pub proof fn lemma_injection_covers(at: Seq<int>, count: nat)
    requires
        injects(at, count),
    ensures
        at.len() <= count,
        at.len() == count ==> forall|k: int| 0 <= k < count ==> at.contains(k),
{
    let named = at.to_set();
    let all = vstd::set_lib::set_int_range(0, count as int);
    assert(at.no_duplicates()) by {
        assert forall|i: int, j: int|
            0 <= i < at.len() && 0 <= j < at.len() && i != j implies at[i] != at[j] by {
            if i < j {
                assert(at[i] != at[j]);
            } else {
                assert(at[j] != at[i]);
            }
        }
    }
    at.unique_seq_to_set();
    vstd::set_lib::lemma_int_range(0, count as int);
    assert(named.subset_of(all)) by {
        assert forall|k: int| named.contains(k) implies all.contains(k) by {
            let i = choose|i: int| 0 <= i < at.len() && at[i] == k;
            assert(0 <= at[i] < count);
        }
    }
    vstd::set_lib::lemma_len_subset(named, all);
    if at.len() == count {
        vstd::set_lib::lemma_subset_equality(named, all);
        assert forall|k: int| 0 <= k < count implies at.contains(k) by {
            assert(all.contains(k));
            assert(named.contains(k));
        }
    }
}

/// A sequence that takes each item of another exactly once, in whatever
/// order, holds the same items as often.
pub proof fn lemma_rearranged<T>(p: Seq<T>, q: Seq<T>, at: Seq<int>)
    requires
        q.len() == p.len(),
        at.len() == p.len(),
        injects(at, p.len()),
        forall|i: int| 0 <= i < q.len() ==> q[i] == p[#[trigger] at[i]],
    ensures
        q.to_multiset() == p.to_multiset(),
    decreases p.len(),
{
    broadcast use vstd::multiset::group_multiset_axioms;

    if p.len() == 0 {
        assert(p =~= q);
    } else {
        let last = p.len() - 1;
        lemma_injection_covers(at, p.len());
        assert(at.contains(last));
        let k = choose|k: int| 0 <= k < at.len() && at[k] == last;
        let p0 = p.drop_last();
        let q0 = q.remove(k);
        let at0 = at.remove(k);
        assert forall|i: int| 0 <= i < at0.len() implies 0 <= #[trigger] at0[i] < p0.len() && q0[i]
            == p0[at0[i]] by {
            if i < k {
                assert(at0[i] == at[i]);
                assert(at[i] != at[k]);
                assert(q0[i] == q[i]);
            } else {
                assert(at0[i] == at[i + 1]);
                assert(at[k] != at[i + 1]);
                assert(q0[i] == q[i + 1]);
            }
        }
        assert forall|i: int, j: int| 0 <= i < j < at0.len() implies at0[i] != at0[j] by {
            let i1 = if i < k {
                i
            } else {
                i + 1
            };
            let j1 = if j < k {
                j
            } else {
                j + 1
            };
            assert(at0[i] == at[i1] && at0[j] == at[j1]);
            assert(at[i1] != at[j1]);
        }
        lemma_rearranged(p0, q0, at0);
        q.to_multiset_ensures();
        assert(q0.to_multiset() =~= q.to_multiset().remove(q[k]));
        assert(q.contains(q[k]));
        assert(q.to_multiset().count(q[k]) > 0);
        assert(p =~= p0.push(p.last()));
        vstd::seq_lib::to_multiset_build(p0, p.last());
        assert(q[k] == p.last());
        assert(q.to_multiset() =~= p.to_multiset());
    }
}

} // verus!

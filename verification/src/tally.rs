//! Counting votes in a sequence, and the proof that the count — and hence any
//! tally built from it — does not depend on the order of the sequence.

use vstd::prelude::*;

verus! {

/// How many elements of `s` equal `x`.
pub open spec fn count_matching<T>(s: Seq<T>, x: T) -> nat
    decreases s.len(),
{
    if s.len() == 0 {
        0
    } else {
        count_matching(s.drop_last(), x) + if s.last() == x {
            1nat
        } else {
            0nat
        }
    }
}

/// `count_matching` agrees with the multiset count, so it only sees how often
/// each element occurs, never where.
pub proof fn lemma_count_matching_is_multiset_count<T>(s: Seq<T>, x: T)
    ensures
        count_matching(s, x) == s.to_multiset().count(x),
    decreases s.len(),
{
    broadcast use vstd::seq_lib::group_to_multiset_ensures;
    broadcast use vstd::multiset::group_multiset_axioms;

    if s.len() == 0 {
        assert(!s.contains(x));
    } else {
        lemma_count_matching_is_multiset_count(s.drop_last(), x);
        assert(s =~= s.drop_last().push(s.last()));
        assert(s.drop_last().push(s.last()).to_multiset() =~= s.drop_last().to_multiset().insert(
            s.last(),
        ));
    }
}

/// Counting is order-independent: two sequences holding the same elements the
/// same number of times (in any order) give the same count for every element.
pub proof fn lemma_count_matching_permutation<T>(s1: Seq<T>, s2: Seq<T>)
    requires
        s1.to_multiset() == s2.to_multiset(),
    ensures
        forall|x: T| count_matching(s1, x) == count_matching(s2, x),
{
    assert forall|x: T| count_matching(s1, x) == count_matching(s2, x) by {
        lemma_count_matching_is_multiset_count(s1, x);
        lemma_count_matching_is_multiset_count(s2, x);
    }
}

} // verus!

use vstd::prelude::*;
use crate::order::{Middle, median_of, sorted_of, lemma_sorted_of_multiset, lemma_sorted_is_sorted_of};
use crate::median::Median;
use crate::engine::{Summary, summary_of};

verus! {

broadcast use vstd::seq_lib::group_to_multiset_ensures;

/// Reordering a stream changes none of its order statistics: two streams that
/// hold the same samples, in any order, have the same count, minimum, maximum
/// and median.
pub proof fn lemma_summary_order_independent(s1: Seq<i64>, s2: Seq<i64>)
    requires
        s1.to_multiset() == s2.to_multiset(),
    ensures
        summary_of(s1) == summary_of(s2),
{
    lemma_sorted_of_multiset(s1, s2);
    assert(s1.to_multiset().len() == s1.len());
    assert(s2.to_multiset().len() == s2.len());
}

/// A stream of one sample has that sample as its minimum, maximum and median.
pub proof fn lemma_single_sample(x: i64)
    ensures
        summary_of(seq![x]) == (Summary { count: 1, min: x, max: x, median: Middle::Single(x) }),
{
    lemma_sorted_is_sorted_of(seq![x], seq![x]);
}

/// The split of samples between the halves depends on the stream alone: two
/// running medians fed the same samples in the same order have halves of the
/// same sizes, and these never differ by more than one.
pub proof fn lemma_split_deterministic(a: &Median, b: &Median)
    requires
        a.wf(),
        b.wf(),
        a@ == b@,
    ensures
        a.lower_size() == b.lower_size(),
        a.upper_size() == b.upper_size(),
        -1 <= a.lower_size() - a.upper_size() <= 1,
{
    a.lemma_wf_split();
    b.lemma_wf_split();
}

} // verus!

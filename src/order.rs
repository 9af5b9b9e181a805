use vstd::prelude::*;
use vstd::relations::{sorted_by, total_ordering};

verus! {

broadcast use vstd::seq_lib::group_to_multiset_ensures;

/// The order on samples, as a relation.
pub open spec fn sample_le() -> spec_fn(i64, i64) -> bool {
    |a: i64, b: i64| a <= b
}

/// The samples of `s` in non-decreasing order.
pub open spec fn sorted_of(s: Seq<i64>) -> Seq<i64> {
    s.sort_by(sample_le())
}

pub open spec fn ascending(s: Seq<i64>) -> bool {
    forall|i: int, j: int| 0 <= i <= j < s.len() ==> s[i] <= s[j]
}

/// The middle of a stream: nothing yet, one middle sample (odd count), or the
/// two middle samples, smaller first (even count).
#[derive(Clone, Copy, Debug, PartialEq, Eq, Structural)]
pub enum Middle {
    Empty,
    Single(i64),
    Pair(i64, i64),
}

/// The middle of `s`, read off its sorted order.
pub open spec fn median_of(s: Seq<i64>) -> Middle {
    let t = sorted_of(s);
    let n = s.len() as int;
    if n == 0 {
        Middle::Empty
    } else if n % 2 == 1 {
        Middle::Single(t[n / 2])
    } else {
        Middle::Pair(t[n / 2 - 1], t[n / 2])
    }
}

/// Twice the median value: an integer even when the median is a half.
pub open spec fn twice(m: Middle) -> int {
    match m {
        Middle::Empty => 0,
        Middle::Single(v) => 2 * v,
        Middle::Pair(a, b) => a + b,
    }
}

pub proof fn lemma_sample_le_total()
    ensures
        total_ordering(sample_le()),
{
}

/// A sorted sequence holding the samples of `s` is the sorted order of `s`.
pub proof fn lemma_sorted_is_sorted_of(t: Seq<i64>, s: Seq<i64>)
    requires
        ascending(t),
        t.to_multiset() == s.to_multiset(),
    ensures
        t == sorted_of(s),
{
    lemma_sample_le_total();
    s.lemma_sort_by_ensures(sample_le());
    assert(sorted_by(t, sample_le()));
    vstd::seq_lib::lemma_sorted_unique(t, sorted_of(s), sample_le());
}

/// Two streams that hold the same samples have the same sorted order.
pub proof fn lemma_sorted_of_multiset(s1: Seq<i64>, s2: Seq<i64>)
    requires
        s1.to_multiset() == s2.to_multiset(),
    ensures
        sorted_of(s1) == sorted_of(s2),
{
    lemma_sample_le_total();
    s1.lemma_sort_by_ensures(sample_le());
    s2.lemma_sort_by_ensures(sample_le());
    vstd::seq_lib::lemma_sorted_unique(sorted_of(s1), sorted_of(s2), sample_le());
}

/// A sample of `s` no larger than any other comes first in sorted order.
pub proof fn lemma_least_is_first(s: Seq<i64>, m: i64)
    requires
        s.contains(m),
        forall|i: int| 0 <= i < s.len() ==> m <= s[i],
    ensures
        sorted_of(s).len() == s.len(),
        sorted_of(s)[0] == m,
{
    let t = sorted_of(s);
    lemma_sample_le_total();
    s.lemma_sort_by_ensures(sample_le());
    assert(t.to_multiset().len() == t.len());
    assert(s.to_multiset().len() == s.len());
    assert(s.to_multiset().count(m) > 0);
    assert(t.contains(m));
    let k = choose|k: int| 0 <= k < t.len() && t[k] == m;
    assert(sample_le()(t[0], t[k]) || k == 0);
    assert(t.to_multiset().count(t[0]) > 0);
    assert(s.contains(t[0]));
}

/// A sample of `s` no smaller than any other comes last in sorted order.
pub proof fn lemma_greatest_is_last(s: Seq<i64>, m: i64)
    requires
        s.contains(m),
        forall|i: int| 0 <= i < s.len() ==> s[i] <= m,
    ensures
        sorted_of(s).len() == s.len(),
        sorted_of(s).last() == m,
{
    let t = sorted_of(s);
    lemma_sample_le_total();
    s.lemma_sort_by_ensures(sample_le());
    assert(t.to_multiset().len() == t.len());
    assert(s.to_multiset().len() == s.len());
    assert(s.to_multiset().count(m) > 0);
    assert(t.contains(m));
    let k = choose|k: int| 0 <= k < t.len() && t[k] == m;
    let n = t.len() - 1;
    assert(sample_le()(t[k], t[n]) || k == n);
    assert(t.to_multiset().count(t[n]) > 0);
    assert(s.contains(t[n]));
}

} // verus!

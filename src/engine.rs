use vstd::prelude::*;
use crate::order::{Middle, median_of, sorted_of, lemma_least_is_first, lemma_greatest_is_last};
use crate::median::Median;

verus! {

/// The order statistics of a finished stream.
#[derive(Clone, Copy, Debug, PartialEq, Eq, Structural)]
pub struct Summary {
    pub count: usize,
    pub min: i64,
    pub max: i64,
    pub median: Middle,
}

impl Summary {
    /// Whether the stream is long enough for a sample standard deviation.
    pub fn has_spread(&self) -> (r: bool)
        ensures
            r == (self.count >= 2),
    {
        self.count >= 2
    }
}

/// Why a stream has no summary.
#[derive(Clone, Copy, Debug, PartialEq, Eq, Structural)]
pub enum StatsError {
    /// No sample was fed.
    InsufficientData,
}

/// The summary that a non-empty stream `s` is owed.
pub open spec fn summary_of(s: Seq<i64>) -> Summary {
    Summary {
        count: s.len() as usize,
        min: sorted_of(s)[0],
        max: sorted_of(s).last(),
        median: median_of(s),
    }
}

/// What finishing the stream `s` gives: its summary, or `InsufficientData`
/// when it is empty.
pub open spec fn outcome_of(s: Seq<i64>) -> Result<Summary, StatsError> {
    if s.len() == 0 {
        Err(StatsError::InsufficientData)
    } else {
        Ok(summary_of(s))
    }
}

/// Per-column statistics engine: counts the samples, keeps the extremes, and
/// forwards each sample to a running median.
pub struct StatisticsEngine {
    count: usize,
    min: i64,
    max: i64,
    median: Median,
}

impl View for StatisticsEngine {
    type V = Seq<i64>;

    /// The samples fed so far, in order.
    closed spec fn view(&self) -> Seq<i64> {
        self.median@
    }
}

impl StatisticsEngine {
    pub closed spec fn wf(&self) -> bool {
        &&& self.median.wf()
        &&& self.count == self.median@.len()
        &&& self.count > 0 ==> {
            &&& self.median@.contains(self.min)
            &&& self.median@.contains(self.max)
            &&& forall|i: int|
                0 <= i < self.median@.len() ==> self.min <= self.median@[i] && self.median@[i]
                    <= self.max
        }
    }

    /// An engine that has seen no sample.
    pub fn new() -> (r: StatisticsEngine)
        ensures
            r.wf(),
            r@ == Seq::<i64>::empty(),
    {
        StatisticsEngine { count: 0, min: i64::MAX, max: i64::MIN, median: Median::new() }
    }

    /// Feeds one sample.
    pub fn feed(&mut self, x: i64)
        requires
            old(self).wf(),
            old(self)@.len() < usize::MAX,
        ensures
            final(self).wf(),
            final(self)@ == old(self)@.push(x),
    {
        let ghost s0 = self.median@;
        self.count = self.count + 1;
        if x < self.min || self.count == 1 {
            self.min = x;
        }
        if x > self.max || self.count == 1 {
            self.max = x;
        }
        self.median.update(x);
        proof {
            let s = self.median@;
            assert(s[s.len() - 1] == x);
            assert forall|i: int| 0 <= i < s.len() implies self.min <= s[i] && s[i] <= self.max by {
                if i < s0.len() {
                    assert(s[i] == s0[i]);
                }
            }
            if s0.len() > 0 {
                let a = choose|k: int| 0 <= k < s0.len() && s0[k] == old(self).min;
                let b = choose|k: int| 0 <= k < s0.len() && s0[k] == old(self).max;
                assert(s[a] == s0[a]);
                assert(s[b] == s0[b]);
            }
        }
    }

    /// Number of samples fed so far.
    pub fn count(&self) -> (r: usize)
        requires
            self.wf(),
        ensures
            r == self@.len(),
    {
        self.count
    }

    /// The running median.
    pub fn median(&self) -> (r: &Median)
        requires
            self.wf(),
        ensures
            r.wf(),
            r@ == self@,
    {
        &self.median
    }

    /// The summary of the samples fed so far, or `InsufficientData` when there
    /// is none.
    pub fn finalize(&self) -> (r: Result<Summary, StatsError>)
        requires
            self.wf(),
        ensures
            r == outcome_of(self@),
    {
        let n = self.count;
        if n == 0 {
            return Err(StatsError::InsufficientData);
        }
        proof {
            lemma_least_is_first(self@, self.min);
            lemma_greatest_is_last(self@, self.max);
        }
        Ok(Summary { count: n, min: self.min, max: self.max, median: self.median.get() })
    }
}

} // verus!

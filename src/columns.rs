use vstd::prelude::*;
use crate::engine::{StatisticsEngine, Summary, StatsError, outcome_of};

verus! {

/// Why a row was not taken.
#[derive(Clone, Copy, Debug, PartialEq, Eq, Structural)]
pub enum RowError {
    /// The row has another number of cells than there are columns.
    WidthMismatch { expected: usize, found: usize },
}

/// A column's stream after one row's cell: the sample when the cell holds
/// one, else the stream unchanged.
pub open spec fn fed_column(s: Seq<i64>, cell: Option<i64>) -> Seq<i64> {
    match cell {
        Some(x) => s.push(x),
        None => s,
    }
}

/// One statistics engine per column, each fed independently.
pub struct Columns {
    engines: Vec<StatisticsEngine>,
}

impl View for Columns {
    type V = Seq<Seq<i64>>;

    /// Each column's samples, in order.
    closed spec fn view(&self) -> Seq<Seq<i64>> {
        Seq::new(self.engines@.len(), |i: int| self.engines@[i]@)
    }
}

impl Columns {
    pub closed spec fn wf(&self) -> bool {
        forall|i: int| 0 <= i < self.engines@.len() ==> (#[trigger] self.engines@[i]).wf()
    }

    /// `width` columns with no sample yet.
    pub fn new(width: usize) -> (r: Columns)
        ensures
            r.wf(),
            r@.len() == width,
            forall|i: int| 0 <= i < width ==> (#[trigger] r@[i]) == Seq::<i64>::empty(),
    {
        let mut engines: Vec<StatisticsEngine> = Vec::new();
        let mut k: usize = 0;
        while k < width
            invariant
                k <= width,
                engines@.len() == k,
                forall|i: int| 0 <= i < k ==> (#[trigger] engines@[i]).wf() && engines@[i]@
                    == Seq::<i64>::empty(),
            decreases width - k,
        {
            engines.push(StatisticsEngine::new());
            k = k + 1;
        }
        Columns { engines }
    }

    /// Number of columns.
    pub fn width(&self) -> (r: usize)
        ensures
            r == self@.len(),
    {
        self.engines.len()
    }

    /// Feeds a row: the cell in each column goes to that column's engine, and
    /// a cell without a sample is skipped. A row of another width is refused
    /// and changes nothing.
    pub fn feed_row(&mut self, row: &Vec<Option<i64>>) -> (r: Result<(), RowError>)
        requires
            old(self).wf(),
            forall|i: int| 0 <= i < old(self)@.len() ==> (#[trigger] old(self)@[i]).len() < usize::MAX,
        ensures
            final(self).wf(),
            final(self)@.len() == old(self)@.len(),
            r is Err <==> row@.len() != old(self)@.len(),
            r is Err ==> r == Err::<(), RowError>(
                RowError::WidthMismatch { expected: old(self)@.len() as usize, found: row@.len() as usize },
            ) && final(self)@ == old(self)@,
            r is Ok ==> forall|i: int|
                0 <= i < old(self)@.len() ==> (#[trigger] final(self)@[i]) == fed_column(
                    old(self)@[i],
                    row@[i],
                ),
    {
        let n = self.engines.len();
        if row.len() != n {
            return Err(RowError::WidthMismatch { expected: n, found: row.len() });
        }
        let ghost e0 = self.engines@;
        proof {
            assert forall|i: int| 0 <= i < n implies (#[trigger] e0[i]@).len() < usize::MAX by {
                assert(old(self)@[i] == e0[i]@);
            }
        }
        let mut k: usize = 0;
        while k < n
            invariant
                k <= n,
                n == self.engines@.len(),
                n == row@.len(),
                e0.len() == n,
                forall|i: int| 0 <= i < n ==> (#[trigger] self.engines@[i]).wf(),
                forall|i: int| 0 <= i < n ==> (#[trigger] e0[i]@).len() < usize::MAX,
                forall|i: int|
                    0 <= i < k ==> (#[trigger] self.engines@[i])@ == fed_column(e0[i]@, row@[i]),
                forall|i: int| k <= i < n ==> (#[trigger] self.engines@[i]) == e0[i],
            decreases n - k,
        {
            match row[k] {
                Some(x) => {
                    self.engines[k].feed(x);
                },
                None => {},
            }
            k = k + 1;
        }
        proof {
            assert forall|i: int| 0 <= i < e0.len() implies (#[trigger] self@[i]) == fed_column(
                old(self)@[i],
                row@[i],
            ) by {
                assert(old(self)@[i] == e0[i]@);
            }
        }
        Ok(())
    }

    /// What finishing each column gives, in column order.
    pub fn finalize(&self) -> (r: Vec<Result<Summary, StatsError>>)
        requires
            self.wf(),
        ensures
            r@.len() == self@.len(),
            forall|i: int| 0 <= i < self@.len() ==> (#[trigger] r@[i]) == outcome_of(self@[i]),
    {
        let mut out: Vec<Result<Summary, StatsError>> = Vec::new();
        let mut k: usize = 0;
        while k < self.engines.len()
            invariant
                self.wf(),
                k <= self.engines@.len(),
                out@.len() == k,
                forall|i: int| 0 <= i < k ==> (#[trigger] out@[i]) == outcome_of(self@[i]),
            decreases self.engines@.len() - k,
        {
            out.push(self.engines[k].finalize());
            k = k + 1;
        }
        out
    }
}

} // verus!

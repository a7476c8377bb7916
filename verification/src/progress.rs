//! Progress accounting.
//!
//! A split or combine reports advisory progress to an external observer as
//! cumulative byte counts. The tally is the verified side of that
//! interface: it accumulates one increment per buffer written and can never
//! run past the announced total, so whatever renders the numbers receives
//! counts that sum to exactly the bytes processed.

use vstd::prelude::*;

verus! {

/// A running byte count against a fixed total.
pub struct ProgressTally {
    done: u64,
    total: u64,
}

impl ProgressTally {
    /// How many bytes have been recorded so far.
    pub closed spec fn bytes_done(&self) -> u64 {
        self.done
    }

    /// The total announced when the tally was started.
    pub closed spec fn bytes_total(&self) -> u64 {
        self.total
    }

    /// The count never exceeds the total.
    pub open spec fn inv(&self) -> bool {
        self.bytes_done() <= self.bytes_total()
    }

    /// Starts a tally for an operation that will process `total` bytes.
    pub fn new(total: u64) -> (t: ProgressTally)
        ensures
            t.inv(),
            t.bytes_done() == 0,
            t.bytes_total() == total,
    {
        ProgressTally { done: 0, total }
    }

    /// Records `n` more bytes processed. The caller hands over at most what
    /// is still outstanding, so no bytes are ever counted twice.
    pub fn record(&mut self, n: u64)
        requires
            old(self).inv(),
            n <= old(self).bytes_total() - old(self).bytes_done(),
        ensures
            final (self).inv(),
            final (self).bytes_total() == old(self).bytes_total(),
            final (self).bytes_done() == old(self).bytes_done() + n,
    {
        self.done = self.done + n;
    }

    /// The cumulative count to hand to an observer.
    pub fn current(&self) -> (r: u64)
        ensures
            r == self.bytes_done(),
    {
        self.done
    }

    /// The total to hand to an observer.
    pub fn total(&self) -> (r: u64)
        ensures
            r == self.bytes_total(),
    {
        self.total
    }

    /// Whether every announced byte has been recorded.
    pub fn is_complete(&self) -> (r: bool)
        ensures
            r == (self.bytes_done() == self.bytes_total()),
    {
        self.done == self.total
    }
}

} // verus!

//! A declarative test-harness execution engine.
//!
//! A suite is described as a recursive [`TestTree`] of single tests, scoped
//! setting assignments and ordered groups.  The tree is flattened into a
//! linear event stream, the [`Executor`] walks that stream while tracking
//! ordering/skip state and scoped settings, and the resulting stream of
//! [`TestedResult`]s can be folded back into a nested [`Report`] or rendered
//! live through [`Progress`].

use vstd::prelude::*;

pub mod ordering;
pub mod outcome;
pub mod result;
pub mod executor;
pub mod report;
pub mod settings;
pub mod test;
pub mod test_tree;

pub use executor::{Executor, TestedResult};
pub use ordering::{Ordering, OrderingCondition};
pub use outcome::{FailureReason, Outcome};
pub use result::TestResult;
pub use report::{Progress, Report, ReportError};
pub use settings::Settings;
pub use test::IsTest;
pub use test_tree::{TestItem, TestTree, TreeIterator};

verus! {

/// The name under which a test or a group is declared and reported.
pub type TestName = String;

/// The next value of a saturating counter.
pub open spec fn bumped(n: u64) -> u64 {
    if n < u64::MAX {
        (n + 1) as u64
    } else {
        n
    }
}

/// Running totals over a result stream: how many single tests were
/// attempted (skipped ones do not count) and how many of those succeeded.
/// The run as a whole fails exactly when an attempted test did not
/// succeed.
pub struct RunTally {
    attempted: u64,
    succeeded: u64,
}

impl RunTally {
    /// The number of single tests attempted so far.
    pub closed spec fn attempted(&self) -> u64 {
        self.attempted
    }

    /// The number of single tests that succeeded so far.
    pub closed spec fn succeeded(&self) -> u64 {
        self.succeeded
    }

    /// Consistency: no more successes than attempts.
    pub closed spec fn wf(&self) -> bool {
        self.succeeded <= self.attempted
    }

    /// A fresh tally: nothing attempted yet.
    pub fn new() -> (t: RunTally)
        ensures
            t.wf(),
            t.attempted() == 0,
            t.succeeded() == 0,
    {
        RunTally { attempted: 0, succeeded: 0 }
    }

    /// Counts one entry of the result stream: an attempt for every
    /// non-skipped single test, a success when its outcome is a success;
    /// group boundaries and skipped tests leave the tally unchanged.
    pub fn record(&mut self, result: &executor::TestedResult)
        requires
            old(self).wf(),
        ensures
            final(self).wf(),
            match result@ {
                executor::TestedV::Single { result: rv, .. } => if rv.outcome is Skipped {
                    *final(self) == *old(self)
                } else {
                    final(self).attempted() == bumped(old(self).attempted()) && (
                    if rv.outcome is Success && old(self).attempted() < u64::MAX {
                        final(self).succeeded() == old(self).succeeded() + 1
                    } else {
                        final(self).succeeded() == old(self).succeeded()
                    })
                },
                _ => *final(self) == *old(self),
            },
    {
        match result {
            executor::TestedResult::Single { result, .. } => {
                if !result.is_skipped() {
                    if self.attempted < u64::MAX {
                        self.attempted = self.attempted + 1;
                        if result.is_success() {
                            self.succeeded = self.succeeded + 1;
                        }
                    }
                }
            }
            _ => {}
        }
    }

    /// The number of single tests attempted so far.
    pub fn attempted_count(&self) -> (n: u64)
        ensures
            n == self.attempted(),
    {
        self.attempted
    }

    /// The number of single tests that succeeded so far.
    pub fn succeeded_count(&self) -> (n: u64)
        ensures
            n == self.succeeded(),
    {
        self.succeeded
    }

    /// The number of attempted tests that did not succeed.
    pub fn failures(&self) -> (n: u64)
        requires
            self.wf(),
        ensures
            n == self.attempted() - self.succeeded(),
    {
        self.attempted - self.succeeded
    }

    /// Whether the run as a whole failed: some attempted test did not
    /// succeed.
    pub fn run_failed(&self) -> (b: bool)
        requires
            self.wf(),
        ensures
            b == (self.attempted() > self.succeeded()),
    {
        self.attempted > self.succeeded
    }
}

} // verus!

use vstd::prelude::*;

use crate::outcome::{FailureReason, Outcome};

verus! {

/// The result of one test: its outcome, a short status label, free-form
/// details and the measured duration in milliseconds.
///
/// A `TestResult` is produced once and never changed afterwards.
#[derive(Debug)]
pub struct TestResult {
    pub outcome: Outcome,
    pub short: String,
    pub details: String,
    pub duration: u64,
}

/// The mathematical value of a [`TestResult`]: the strings as character
/// sequences.
pub struct ResultV {
    pub outcome: Outcome,
    pub short: Seq<char>,
    pub details: Seq<char>,
    pub duration: u64,
}

impl View for TestResult {
    type V = ResultV;

    open spec fn view(&self) -> ResultV {
        ResultV {
            outcome: self.outcome,
            short: self.short@,
            details: self.details@,
            duration: self.duration,
        }
    }
}

/// The value every skipped test reports.
pub open spec fn skipped_value() -> ResultV {
    ResultV {
        outcome: Outcome::Skipped,
        short: "Skipped"@,
        details: Seq::<char>::empty(),
        duration: 0,
    }
}

impl TestResult {
    /// `true` exactly when the outcome is a success.
    pub fn is_success(&self) -> (r: bool)
        ensures
            r == (self.outcome is Success),
    {
        self.outcome.is_success()
    }

    /// `true` exactly when the outcome is a timeout failure.
    pub fn is_timeout(&self) -> (r: bool)
        ensures
            r == (self.outcome == (Outcome::Failure { reason: FailureReason::Timedout })),
    {
        self.outcome.is_timeout()
    }

    /// `true` exactly when the outcome is a skip.
    pub fn is_skipped(&self) -> (r: bool)
        ensures
            r == (self.outcome is Skipped),
    {
        self.outcome.is_skipped()
    }

    /// `true` exactly when the outcome is a failure of any reason.
    pub fn is_failure(&self) -> (r: bool)
        ensures
            r == (self.outcome is Failure),
    {
        self.outcome.is_failure()
    }

    /// A result for a test that passed, with the given details.
    pub fn passed(details: String) -> (r: TestResult)
        ensures
            r@ == (ResultV {
                outcome: Outcome::Success,
                short: "Success"@,
                details: details@,
                duration: 0,
            }),
    {
        TestResult {
            outcome: Outcome::Success,
            short: "Success".to_owned(),
            details,
            duration: 0,
        }
    }

    /// A result for a test whose body signalled failure, with the given details.
    pub fn failed(details: String) -> (r: TestResult)
        ensures
            r@ == (ResultV {
                outcome: Outcome::Failure { reason: FailureReason::Failed },
                short: "Failure"@,
                details: details@,
                duration: 0,
            }),
    {
        TestResult {
            outcome: Outcome::Failure { reason: FailureReason::Failed },
            short: "Failure".to_owned(),
            details,
            duration: 0,
        }
    }

    /// The result every skipped test gets: see [`skipped_value`].
    pub fn skip() -> (r: TestResult)
        ensures
            r@ == skipped_value(),
    {
        TestResult {
            outcome: Outcome::Skipped,
            short: "Skipped".to_owned(),
            details: String::new(),
            duration: 0,
        }
    }

    /// A result for a test the coordinator stopped waiting for, with the
    /// given details.
    pub fn timedout(details: String) -> (r: TestResult)
        ensures
            r@ == (ResultV {
                outcome: Outcome::Failure { reason: FailureReason::Timedout },
                short: "Timeout"@,
                details: details@,
                duration: 0,
            }),
    {
        TestResult {
            outcome: Outcome::Failure { reason: FailureReason::Timedout },
            short: "Timeout".to_owned(),
            details,
            duration: 0,
        }
    }

    /// Converts a boolean body return into a result: `true` passes, `false`
    /// fails, both without details.
    pub fn from_flag(condition: bool) -> (r: TestResult)
        ensures
            condition ==> r@ == (ResultV {
                outcome: Outcome::Success,
                short: "Success"@,
                details: Seq::<char>::empty(),
                duration: 0,
            }),
            !condition ==> r@ == (ResultV {
                outcome: Outcome::Failure { reason: FailureReason::Failed },
                short: "Failure"@,
                details: Seq::<char>::empty(),
                duration: 0,
            }),
    {
        if condition {
            TestResult::passed(String::new())
        } else {
            TestResult::failed(String::new())
        }
    }

    /// Converts a result-style body return: the `Ok` variant passes without
    /// details, the `Err` variant fails and carries the error's text.
    pub fn from_check(result: Result<(), String>) -> (r: TestResult)
        ensures
            result is Ok ==> r@ == (ResultV {
                outcome: Outcome::Success,
                short: "Success"@,
                details: Seq::<char>::empty(),
                duration: 0,
            }),
            result matches Err(e) ==> r@ == (ResultV {
                outcome: Outcome::Failure { reason: FailureReason::Failed },
                short: "Failure"@,
                details: e@,
                duration: 0,
            }),
    {
        match result {
            Ok(()) => TestResult::passed(String::new()),
            Err(error) => TestResult::failed(error),
        }
    }
}

} // verus!

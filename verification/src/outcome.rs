use vstd::prelude::*;

verus! {

/// Why a test is counted as failed.
#[derive(Debug, Clone, Copy, PartialEq, Eq, Structural)]
pub enum FailureReason {
    /// the body signalled failure through its return value
    Failed,
    /// the body terminated abnormally while running
    Panicked,
    /// the coordinator stopped waiting for the body
    Timedout,
}

/// The outcome of one test.
#[derive(Debug, Clone, Copy, PartialEq, Eq, Structural)]
pub enum Outcome {
    Success,
    /// deliberate non-execution under the ordering rules
    Skipped,
    Failure { reason: FailureReason },
}

impl Outcome {
    /// `true` exactly when the outcome is [`Outcome::Success`].
    pub fn is_success(&self) -> (r: bool)
        ensures
            r == (*self is Success),
    {
        matches!(self, Outcome::Success)
    }

    /// `true` exactly when the outcome is [`Outcome::Skipped`].
    pub fn is_skipped(&self) -> (r: bool)
        ensures
            r == (*self is Skipped),
    {
        matches!(self, Outcome::Skipped)
    }

    /// `true` exactly when the outcome is [`Outcome::Failure`], whatever the reason.
    pub fn is_failure(&self) -> (r: bool)
        ensures
            r == (*self is Failure),
    {
        matches!(self, Outcome::Failure { .. })
    }

    /// `true` exactly when the outcome is a failure whose reason is
    /// [`FailureReason::Timedout`].
    pub fn is_timeout(&self) -> (r: bool)
        ensures
            r == (*self == (Outcome::Failure { reason: FailureReason::Timedout })),
    {
        matches!(
            self,
            Outcome::Failure { reason: FailureReason::Timedout }
        )
    }
}

} // verus!

use vstd::prelude::*;

use crate::outcome::{FailureReason, Outcome};
use crate::report::{dec_digits, push_u64};
use crate::result::TestResult;
use crate::settings::Settings;

verus! {

/// The capability a runnable body provides: run under a resolved settings
/// snapshot and report a result.
///
/// Nothing is assumed of the result: the executor's contract holds whatever
/// a body reports.  Providers (closure adapters, property-test drivers)
/// implement this trait outside the core.
pub trait IsTest: Sized {
    fn run(self, settings: Settings) -> TestResult
        requires
            settings.wf(),
    ;
}

/// The simplest runnable: it reports a prepared result and ignores its
/// settings.
pub struct FixedResult {
    pub result: TestResult,
}

impl IsTest for FixedResult {
    fn run(self, _settings: Settings) -> TestResult {
        self.result
    }
}

/// The details text a timed-out test reports: the allocated duration in
/// milliseconds.
pub open spec fn timeout_details(timeout_ms: u64) -> Seq<char> {
    "Test timedout, allocated duration was "@ + dec_digits(timeout_ms as nat)
        + "ms"@
}

/// The coordinator's decision once its bounded wait on the worker has
/// ended.
///
/// `timed_out` says whether the wait elapsed before the worker signalled
/// completion; `body` is the worker's result, `None` where it terminated
/// abnormally; `measured_ms` is the worker's self-measured wall-clock time
/// (zero where none was recorded) and `coordinator_ms` the coordinator's
/// own measurement, used as the fallback.  A timeout wins over everything:
/// the worker is not cancelled, its eventual outcome is discarded.
pub fn conclude(
    timed_out: bool,
    body: Option<TestResult>,
    measured_ms: u64,
    coordinator_ms: u64,
    timeout_ms: u64,
) -> (r: TestResult)
    ensures
        r.duration == (if measured_ms != 0 {
            measured_ms
        } else {
            coordinator_ms
        }),
        timed_out ==> r.outcome == (Outcome::Failure {
            reason: FailureReason::Timedout,
        }) && r@.short == "Timeout"@ && r@.details == timeout_details(timeout_ms),
        !timed_out && body is None ==> r.outcome == (Outcome::Failure {
            reason: FailureReason::Panicked,
        }) && r@.short == "Failure"@ && r@.details == "test panicked"@,
        !timed_out ==> (match body {
            Some(b) => r.outcome == b.outcome && r@.short == b@.short && r@.details == b@.details,
            None => true,
        }),
{
    let duration = if measured_ms != 0 {
        measured_ms
    } else {
        coordinator_ms
    };
    if timed_out {
        let mut details = String::new();
        details.append("Test timedout, allocated duration was ");
        push_u64(&mut details, timeout_ms);
        details.append("ms");
        proof {
            assert(details@ =~= timeout_details(timeout_ms));
        }
        TestResult {
            outcome: Outcome::Failure {
                reason: FailureReason::Timedout,
            },
            short: "Timeout".to_owned(),
            details,
            duration,
        }
    } else {
        match body {
            None => TestResult {
                outcome: Outcome::Failure {
                    reason: FailureReason::Panicked,
                },
                short: "Failure".to_owned(),
                details: "test panicked".to_owned(),
                duration,
            },
            Some(b) => TestResult { outcome: b.outcome, short: b.short, details: b.details, duration },
        }
    }
}

} // verus!

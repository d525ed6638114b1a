use scaffolding::report::u64_string;
use scaffolding::test::conclude;
use scaffolding::{FailureReason, Outcome, RunTally, TestResult, TestedResult};

#[test]
fn outcome_predicates_match_variants() {
    assert!(Outcome::Success.is_success());
    assert!(!Outcome::Success.is_failure());
    assert!(Outcome::Skipped.is_skipped());
    let timeout = Outcome::Failure { reason: FailureReason::Timedout };
    assert!(timeout.is_failure());
    assert!(timeout.is_timeout());
    let failed = Outcome::Failure { reason: FailureReason::Failed };
    assert!(failed.is_failure());
    assert!(!failed.is_timeout());
}

#[test]
fn result_constructors_fill_the_standard_fields() {
    let passed = TestResult::passed("fine".to_string());
    assert!(passed.is_success());
    assert_eq!(passed.short, "Success");
    assert_eq!(passed.details, "fine");
    assert_eq!(passed.duration, 0);

    let failed = TestResult::failed("broken".to_string());
    assert!(failed.is_failure());
    assert_eq!(failed.short, "Failure");
    assert_eq!(failed.details, "broken");

    let skipped = TestResult::skip();
    assert!(skipped.is_skipped());
    assert_eq!(skipped.short, "Skipped");
    assert_eq!(skipped.details, "");

    let late = TestResult::timedout(String::new());
    assert!(late.is_timeout());
    assert_eq!(late.short, "Timeout");
}

#[test]
fn boolean_and_checked_bodies_convert() {
    assert!(TestResult::from_flag(true).is_success());
    assert!(TestResult::from_flag(false).is_failure());
    assert!(TestResult::from_check(Ok(())).is_success());
    let failed = TestResult::from_check(Err("the reason".to_string()));
    assert!(failed.is_failure());
    assert_eq!(failed.details, "the reason");
}

#[test]
fn conclude_turns_an_elapsed_wait_into_a_timeout() {
    let r = conclude(true, Some(TestResult::passed(String::new())), 0, 104, 100);
    assert!(r.is_timeout());
    assert_eq!(r.details, "Test timedout, allocated duration was 100ms");
    assert_eq!(r.duration, 104, "the coordinator's measurement is the fallback");
}

#[test]
fn conclude_turns_an_abnormal_termination_into_a_panic_failure() {
    let r = conclude(false, None, 3, 9, 100);
    assert!(matches!(
        r.outcome,
        Outcome::Failure { reason: FailureReason::Panicked }
    ));
    assert_eq!(r.short, "Failure");
    assert_eq!(r.details, "test panicked");
    assert_eq!(r.duration, 3, "the worker's own measurement wins where present");
}

#[test]
fn conclude_passes_a_finished_body_through() {
    let r = conclude(false, Some(TestResult::failed("no".to_string())), 0, 12, 100);
    assert!(r.is_failure());
    assert_eq!(r.details, "no");
    assert_eq!(r.duration, 12);
}

#[test]
fn decimal_rendering_is_exact() {
    assert_eq!(u64_string(0), "0");
    assert_eq!(u64_string(42), "42");
    assert_eq!(u64_string(2345), "2345");
    assert_eq!(u64_string(18446744073709551615), "18446744073709551615");
}

#[test]
fn tally_counts_attempted_and_succeeded() {
    let mut tally = RunTally::new();
    tally.record(&TestedResult::GroupStart {
        name: "g".to_string(),
        ordering: scaffolding::Ordering::Any,
    });
    tally.record(&TestedResult::Single {
        name: "a".to_string(),
        result: TestResult::passed(String::new()),
    });
    tally.record(&TestedResult::Single {
        name: "b".to_string(),
        result: TestResult::failed(String::new()),
    });
    tally.record(&TestedResult::Single {
        name: "c".to_string(),
        result: TestResult::skip(),
    });
    assert_eq!(tally.failures(), 1);
    assert!(tally.run_failed());

    let mut clean = RunTally::new();
    clean.record(&TestedResult::Single {
        name: "a".to_string(),
        result: TestResult::passed(String::new()),
    });
    assert_eq!(clean.failures(), 0);
    assert!(!clean.run_failed());
}

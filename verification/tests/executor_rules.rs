use scaffolding::settings::{Settings, Timeout};
use scaffolding::test::FixedResult;
use scaffolding::{
    Executor, IsTest, Ordering, OrderingCondition, TestResult, TestTree, TestedResult,
};

fn pass() -> FixedResult {
    FixedResult { result: TestResult::passed(String::new()) }
}

fn fail() -> FixedResult {
    FixedResult { result: TestResult::failed(String::new()) }
}

fn group(
    name: &str,
    ordering: Ordering,
    tests: Vec<TestTree<FixedResult>>,
) -> TestTree<FixedResult> {
    TestTree::Group { name: name.to_string(), ordering, tests }
}

fn single(name: &str, test: FixedResult) -> TestTree<FixedResult> {
    TestTree::Single { name: name.to_string(), test }
}

fn outcomes<B: IsTest>(tree: TestTree<B>) -> Vec<(String, TestResult)> {
    let mut exec = Executor::new(tree);
    let mut seen = Vec::new();
    while let Some(result) = exec.next() {
        if let TestedResult::Single { name, result } = result {
            seen.push((name, result));
        }
    }
    seen
}

#[test]
fn sequence_success_skips_after_failure() {
    let tree = group(
        "g",
        Ordering::Sequence { on_condition: OrderingCondition::Success },
        vec![single("a", pass()), single("b", fail()), single("c", pass())],
    );
    let seen = outcomes(tree);
    assert_eq!(seen.len(), 3);
    assert_eq!(seen[0].0, "a");
    assert!(seen[0].1.is_success());
    assert_eq!(seen[1].0, "b");
    assert!(seen[1].1.is_failure());
    assert_eq!(seen[2].0, "c");
    assert!(seen[2].1.is_skipped());
}

#[test]
fn sequence_finish_never_gates() {
    let tree = group(
        "g",
        Ordering::Sequence { on_condition: OrderingCondition::Finish },
        vec![single("a", pass()), single("b", fail()), single("c", pass())],
    );
    let seen = outcomes(tree);
    assert!(seen[0].1.is_success());
    assert!(seen[1].1.is_failure());
    assert!(seen[2].1.is_success(), "a finish sequence must not skip after a failure");
}

#[test]
fn any_ordering_never_gates() {
    let tree = group(
        "g",
        Ordering::Any,
        vec![single("a", pass()), single("b", fail()), single("c", pass())],
    );
    let seen = outcomes(tree);
    assert!(seen[0].1.is_success());
    assert!(seen[1].1.is_failure());
    assert!(seen[2].1.is_success());
}

#[test]
fn skip_reaches_descendants_of_gated_group() {
    let tree = group(
        "g",
        Ordering::Sequence { on_condition: OrderingCondition::Success },
        vec![
            single("a", fail()),
            group(
                "inner",
                Ordering::Sequence { on_condition: OrderingCondition::Success },
                vec![single("b", pass())],
            ),
            single("c", pass()),
        ],
    );
    let seen = outcomes(tree);
    assert!(seen[0].1.is_failure());
    assert!(seen[1].1.is_skipped(), "a descendant of a gated scope is skipped");
    assert!(seen[2].1.is_skipped());
}

#[test]
fn set_setting_events_are_never_surfaced() {
    let tree = group(
        "g",
        Ordering::Any,
        vec![
            TestTree::SetSetting { kind: scaffolding::settings::TIMEOUT_KIND, value: 1 },
            single("a", pass()),
        ],
    );
    let mut exec = Executor::new(tree);
    let mut events = 0usize;
    while let Some(result) = exec.next() {
        events += 1;
        assert!(matches!(
            result,
            TestedResult::Single { .. }
                | TestedResult::GroupStart { .. }
                | TestedResult::GroupEnd { .. }
        ));
    }
    assert_eq!(events, 3, "start, single, end; the setting is consumed silently");
}

struct TimeoutProbe;

impl IsTest for TimeoutProbe {
    fn run(self, settings: Settings) -> TestResult {
        let timeout = settings.get_or_default::<Timeout>();
        TestResult::passed(format!("{}", timeout.0))
    }
}

#[test]
fn setting_in_one_group_is_invisible_to_siblings() {
    let tree: TestTree<TimeoutProbe> = TestTree::Group {
        name: "root".to_string(),
        ordering: Ordering::Any,
        tests: vec![
            TestTree::Group {
                name: "g1".to_string(),
                ordering: Ordering::Any,
                tests: vec![
                    TestTree::SetSetting {
                        kind: scaffolding::settings::TIMEOUT_KIND,
                        value: 1,
                    },
                    TestTree::Single { name: "probe1".to_string(), test: TimeoutProbe },
                ],
            },
            TestTree::Group {
                name: "g2".to_string(),
                ordering: Ordering::Any,
                tests: vec![TestTree::Single { name: "probe2".to_string(), test: TimeoutProbe }],
            },
        ],
    };
    let seen = outcomes(tree);
    assert_eq!(seen[0].0, "probe1");
    assert_eq!(seen[0].1.details, "1", "inside g1 the overridden timeout is in force");
    assert_eq!(seen[1].0, "probe2");
    assert_eq!(
        seen[1].1.details, "2345",
        "a sibling group still observes the default timeout"
    );
}

#[test]
fn setting_applies_to_later_siblings_in_same_scope() {
    let tree: TestTree<TimeoutProbe> = TestTree::Group {
        name: "root".to_string(),
        ordering: Ordering::Any,
        tests: vec![
            TestTree::Single { name: "before".to_string(), test: TimeoutProbe },
            TestTree::SetSetting { kind: scaffolding::settings::TIMEOUT_KIND, value: 77 },
            TestTree::Single { name: "after".to_string(), test: TimeoutProbe },
        ],
    };
    let seen = outcomes(tree);
    assert_eq!(seen[0].1.details, "2345");
    assert_eq!(seen[1].1.details, "77");
}

#[test]
fn engine_proceeds_past_an_abnormal_termination() {
    let panicked = FixedResult {
        result: scaffolding::test::conclude(false, None, 0, 1, 100),
    };
    let tree = group(
        "g",
        Ordering::Any,
        vec![single("boom", panicked), single("next", pass())],
    );
    let seen = outcomes(tree);
    assert!(matches!(
        seen[0].1.outcome,
        scaffolding::Outcome::Failure { reason: scaffolding::FailureReason::Panicked }
    ));
    assert!(seen[1].1.is_success(), "the engine proceeds to the next sibling");
}

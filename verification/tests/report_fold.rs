use scaffolding::test::FixedResult;
use scaffolding::{
    Ordering, OrderingCondition, Report, ReportError, TestResult, TestTree, TestedResult,
};

fn start(name: &str) -> TestedResult {
    TestedResult::GroupStart { name: name.to_string(), ordering: Ordering::Any }
}

fn end(name: &str) -> TestedResult {
    TestedResult::GroupEnd { name: name.to_string(), ordering: Ordering::Any }
}

fn tested(name: &str, result: TestResult) -> TestedResult {
    TestedResult::Single { name: name.to_string(), result }
}

#[test]
fn fold_rebuilds_the_nesting() {
    let stream = vec![
        start("outer"),
        tested("a", TestResult::passed(String::new())),
        start("inner"),
        tested("b", TestResult::failed(String::new())),
        end("inner"),
        end("outer"),
    ];
    let report = Report::from_results(stream).expect("a well-nested stream folds");
    match report {
        Report::Group { name, reports, .. } => {
            assert_eq!(name, "outer");
            assert_eq!(reports.len(), 2);
            assert!(matches!(&reports[0], Report::Test { name, .. } if name == "a"));
            match &reports[1] {
                Report::Group { name, reports, .. } => {
                    assert_eq!(name, "inner");
                    assert_eq!(reports.len(), 1);
                }
                _ => panic!("expected the inner group"),
            }
        }
        _ => panic!("expected the outer group at the root"),
    }
}

#[test]
fn fold_rejects_a_mismatched_group_end() {
    let stream = vec![start("g"), end("h")];
    match Report::from_results(stream) {
        Err(e) => assert_eq!(e, ReportError::MismatchedGroupEnd),
        Ok(_) => panic!("a mismatched end must be fatal"),
    }
}

#[test]
fn fold_rejects_an_unopened_group_end() {
    let stream = vec![end("g")];
    match Report::from_results(stream) {
        Err(e) => assert_eq!(e, ReportError::MismatchedGroupEnd),
        Ok(_) => panic!("an unopened end must be fatal"),
    }
}

#[test]
fn fold_rejects_a_result_with_nowhere_to_go() {
    let stream = vec![
        tested("a", TestResult::passed(String::new())),
        tested("b", TestResult::passed(String::new())),
    ];
    match Report::from_results(stream) {
        Err(e) => assert_eq!(e, ReportError::MisplacedResult),
        Ok(_) => panic!("a leaf cannot take children"),
    }
}

#[test]
fn empty_stream_folds_to_an_empty_collection() {
    let report = Report::from_results(Vec::new()).expect("nothing to mismatch");
    match report {
        Report::Grouped { reports } => assert_eq!(reports.len(), 0),
        _ => panic!("expected an empty collection"),
    }
}

#[test]
fn is_success_requires_every_leaf_to_pass() {
    let all_pass = Report::from_results(vec![
        start("g"),
        tested("a", TestResult::passed(String::new())),
        end("g"),
    ])
    .unwrap();
    assert!(all_pass.is_success());

    let one_fails = Report::from_results(vec![
        start("g"),
        tested("a", TestResult::passed(String::new())),
        tested("b", TestResult::failed(String::new())),
        end("g"),
    ])
    .unwrap();
    assert!(!one_fails.is_success());

    let one_skipped = Report::from_results(vec![start("g"), tested("a", TestResult::skip()), end("g")])
        .unwrap();
    assert!(!one_skipped.is_success(), "a skipped leaf does not count as a success");
}

fn pass() -> FixedResult {
    FixedResult { result: TestResult::passed(String::new()) }
}

#[test]
fn run_reconstructs_a_report_isomorphic_to_the_tree() {
    let tree = TestTree::Group {
        name: "Tests".to_string(),
        ordering: Ordering::Sequence { on_condition: OrderingCondition::Finish },
        tests: vec![
            TestTree::Single { name: "a".to_string(), test: pass() },
            TestTree::SetSetting { kind: scaffolding::settings::TIMEOUT_KIND, value: 500 },
            TestTree::Group {
                name: "unit".to_string(),
                ordering: Ordering::Any,
                tests: vec![TestTree::Single { name: "b".to_string(), test: pass() }],
            },
        ],
    };
    let report = tree.run().expect("a run never corrupts its own stream");
    match report {
        Report::Group { name, ordering, reports } => {
            assert_eq!(name, "Tests");
            assert!(matches!(
                ordering,
                Ordering::Sequence { on_condition: OrderingCondition::Finish }
            ));
            assert_eq!(reports.len(), 2, "the setting leaves no trace in the report");
            assert!(matches!(&reports[0], Report::Test { name, .. } if name == "a"));
            match &reports[1] {
                Report::Group { name, ordering, reports } => {
                    assert_eq!(name, "unit");
                    assert!(matches!(ordering, Ordering::Any));
                    assert!(matches!(&reports[0], Report::Test { name, .. } if name == "b"));
                }
                _ => panic!("expected the nested group to be kept"),
            }
        }
        _ => panic!("expected the root group"),
    }
}

#[test]
fn report_renders_a_nested_outline() {
    let mut passed = TestResult::passed(String::new());
    passed.duration = 5;
    let report = Report::from_results(vec![start("g"), tested("a", passed), end("g")]).unwrap();
    assert_eq!(report.report(), "# g (1)\n\n1. `a` (5ms): **Success**\n");
}

#[test]
fn report_renders_details_indented() {
    let report = Report::from_results(vec![tested(
        "a",
        TestResult::failed("it broke".to_string()),
    )])
    .unwrap();
    assert_eq!(report.report(), "1. `a` (0ms): **Failure**\n   it broke\n");
}

#[test]
fn a_bare_leaf_runs_to_a_leaf_report() {
    let tree = TestTree::Single { name: "only".to_string(), test: pass() };
    let report = tree.run().unwrap();
    assert!(matches!(&report, Report::Test { name, .. } if name == "only"));
    assert!(report.is_success());
}

#[test]
fn a_bare_setting_runs_to_an_empty_collection() {
    let tree: TestTree<FixedResult> = TestTree::SetSetting {
        kind: scaffolding::settings::TIMEOUT_KIND,
        value: 9,
    };
    match tree.run().unwrap() {
        Report::Grouped { reports } => assert_eq!(reports.len(), 0),
        _ => panic!("a setting leaves no report behind"),
    }
}

#[test]
fn an_empty_group_reports_no_children_and_succeeds() {
    let tree: TestTree<FixedResult> = TestTree::Group {
        name: "empty".to_string(),
        ordering: Ordering::Any,
        tests: vec![],
    };
    let report = tree.run().unwrap();
    match &report {
        Report::Group { name, reports, .. } => {
            assert_eq!(name, "empty");
            assert_eq!(reports.len(), 0);
        }
        _ => panic!("expected the empty group"),
    }
    assert!(report.is_success(), "no leaf failed");
}

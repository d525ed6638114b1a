use scaffolding::report::Progress;
use scaffolding::{Ordering, TestResult, TestedResult};

fn start(name: &str) -> TestedResult {
    TestedResult::GroupStart { name: name.to_string(), ordering: Ordering::Any }
}

fn end(name: &str) -> TestedResult {
    TestedResult::GroupEnd { name: name.to_string(), ordering: Ordering::Any }
}

#[test]
fn progress_renders_headings_and_indents() {
    let mut progress = Progress::new_with(0);
    assert_eq!(progress.handle(&start("Tests")), "Tests\n");
    let mut passed = TestResult::passed(String::new());
    passed.duration = 500;
    let line = progress.handle(&TestedResult::Single { name: "a".to_string(), result: passed });
    assert_eq!(line, "  Success.............500ms a\n");
    assert_eq!(progress.handle(&end("Tests")), "");
}

#[test]
fn progress_pads_the_duration_column_to_a_fixed_width() {
    let mut progress = Progress::new_with(0);
    let mut quick = TestResult::failed(String::new());
    quick.duration = 0;
    let line = progress.handle(&TestedResult::Single { name: "x".to_string(), result: quick });
    assert_eq!(line, "Failure...............0ms x\n");
}

#[test]
fn progress_appends_details_on_their_own_line() {
    let mut progress = Progress::new_with(1);
    let result = TestResult::failed("why it broke".to_string());
    let line = progress.handle(&TestedResult::Single { name: "x".to_string(), result });
    assert_eq!(line, "  Failure...............0ms x\n  why it broke\n");
}

#[test]
fn progress_depth_restores_after_group_end() {
    let mut progress = Progress::new_with(0);
    progress.handle(&start("outer"));
    progress.handle(&start("inner"));
    progress.handle(&end("inner"));
    let line = progress.handle(&start("peer"));
    assert_eq!(line, "  peer\n", "a sibling group is back at the outer depth");
}

use scaffolding::test::FixedResult;
use scaffolding::{Ordering, OrderingCondition, TestItem, TestResult, TestTree};

fn pass() -> FixedResult {
    FixedResult { result: TestResult::passed(String::new()) }
}

fn single(name: &str) -> TestTree<FixedResult> {
    TestTree::Single { name: name.to_string(), test: pass() }
}

fn demo_tree() -> TestTree<FixedResult> {
    TestTree::Group {
        name: "Tests".to_string(),
        ordering: Ordering::Any,
        tests: vec![
            single("a"),
            TestTree::SetSetting { kind: scaffolding::settings::TIMEOUT_KIND, value: 500 },
            TestTree::Group {
                name: "inner".to_string(),
                ordering: Ordering::Sequence { on_condition: OrderingCondition::Success },
                tests: vec![single("b"), single("c")],
            },
        ],
    }
}

fn flatten(tree: TestTree<FixedResult>) -> Vec<TestItem<FixedResult>> {
    let mut it = tree.into_iterator();
    let mut items = Vec::new();
    while let Some(item) = it.next() {
        items.push(item);
    }
    items
}

#[test]
fn flattening_is_preorder_with_markers() {
    let items = flatten(demo_tree());
    let kinds: Vec<&str> = items
        .iter()
        .map(|i| match i {
            TestItem::Single { .. } => "single",
            TestItem::SetSetting { .. } => "set",
            TestItem::GroupStart { .. } => "start",
            TestItem::GroupEnd { .. } => "end",
        })
        .collect();
    assert_eq!(
        kinds,
        vec!["start", "single", "set", "start", "single", "single", "end", "end"]
    );
    match &items[0] {
        TestItem::GroupStart { name, ordering } => {
            assert_eq!(name, "Tests");
            assert!(matches!(ordering, Ordering::Any));
        }
        _ => panic!("expected the root group to open first"),
    }
    match &items[7] {
        TestItem::GroupEnd { name, .. } => assert_eq!(name, "Tests"),
        _ => panic!("expected the root group to close last"),
    }
}

#[test]
fn flattening_balances_every_prefix() {
    let items = flatten(demo_tree());
    let mut starts = 0i64;
    let mut ends = 0i64;
    for item in &items {
        match item {
            TestItem::GroupStart { .. } => starts += 1,
            TestItem::GroupEnd { .. } => ends += 1,
            _ => {}
        }
        assert!(starts >= ends, "a prefix closed a group it had not opened");
    }
    assert_eq!(starts, ends);
}

#[test]
fn deep_nesting_flattens_without_recursion() {
    let mut tree = single("leaf");
    for depth in 0..10000u32 {
        tree = TestTree::Group {
            name: format!("g{}", depth),
            ordering: Ordering::Any,
            tests: vec![tree],
        };
    }
    let items = flatten(tree);
    assert_eq!(items.len(), 2 * 10000 + 1);
}

#[test]
fn empty_group_still_opens_and_closes() {
    let items = flatten(TestTree::Group {
        name: "empty".to_string(),
        ordering: Ordering::Any,
        tests: vec![],
    });
    assert_eq!(items.len(), 2);
    assert!(matches!(&items[0], TestItem::GroupStart { name, .. } if name == "empty"));
    assert!(matches!(&items[1], TestItem::GroupEnd { name, .. } if name == "empty"));
}

#[test]
fn a_bare_leaf_flattens_to_one_event() {
    let items = flatten(single("only"));
    assert_eq!(items.len(), 1);
    assert!(matches!(&items[0], TestItem::Single { name, .. } if name == "only"));
}

use vstd::prelude::*;

use crate::executor::{
    corresponds, event_matches, lead_sets, lemma_corresponds_chunk, lemma_corresponds_concat,
    lemma_corresponds_len, lemma_corresponds_sets, lemma_lead_sets, n_out, Executor, TestedResult,
    TestedV,
};
use crate::report::{
    fold_run, lemma_flatten_fold_reconstructs, report_view, tree_iso, views_of, Report,
    ReportError, ReportV,
};
use crate::ordering::Ordering;
use crate::test::IsTest;
use crate::TestName;

verus! {

/// A declarative suite: a single test, a scoped setting assignment, or a
/// named group of children run under an ordering.
///
/// The payload type `B` is the runnable body a single test carries.
pub enum TestTree<B> {
    Single { name: TestName, test: B },
    SetSetting { kind: u64, value: u64 },
    Group { name: TestName, ordering: Ordering, tests: Vec<TestTree<B>> },
}

/// One event of the flattened stream: group boundaries become explicit
/// markers, leaves pass through.
pub enum TestItem<B> {
    Single { name: TestName, test: B },
    SetSetting { kind: u64, value: u64 },
    GroupStart { name: TestName, ordering: Ordering },
    GroupEnd { name: TestName, ordering: Ordering },
}

/// The mathematical value of a [`TestItem`]: names as character sequences.
pub enum EventV<B> {
    Single { name: Seq<char>, test: B },
    SetSetting { kind: u64, value: u64 },
    GroupStart { name: Seq<char>, ordering: Ordering },
    GroupEnd { name: Seq<char>, ordering: Ordering },
}

impl<B> View for TestItem<B> {
    type V = EventV<B>;

    open spec fn view(&self) -> EventV<B> {
        match self {
            TestItem::Single { name, test } => EventV::Single { name: name@, test: *test },
            TestItem::SetSetting { kind, value } => EventV::SetSetting {
                kind: *kind,
                value: *value,
            },
            TestItem::GroupStart { name, ordering } => EventV::GroupStart {
                name: name@,
                ordering: *ordering,
            },
            TestItem::GroupEnd { name, ordering } => EventV::GroupEnd {
                name: name@,
                ordering: *ordering,
            },
        }
    }
}

/// The event stream a tree flattens to: pre-order, every group wrapped in
/// its own start and end markers.
pub open spec fn flat<B>(t: TestTree<B>) -> Seq<EventV<B>>
    decreases t,
{
    match t {
        TestTree::Single { name, test } => seq![EventV::Single { name: name@, test }],
        TestTree::SetSetting { kind, value } => seq![EventV::SetSetting { kind, value }],
        TestTree::Group { name, ordering, tests } => seq![
            EventV::GroupStart { name: name@, ordering },
        ] + flat_all(tests@) + seq![EventV::GroupEnd { name: name@, ordering }],
    }
}

/// The concatenation of the streams of a sequence of sibling trees, in
/// declared order.
pub open spec fn flat_all<B>(ts: Seq<TestTree<B>>) -> Seq<EventV<B>>
    decreases ts,
{
    if ts.len() == 0 {
        Seq::empty()
    } else {
        flat(ts[0]) + flat_all(ts.drop_first())
    }
}

/// How one event changes the nesting depth.
pub open spec fn depth_delta<B>(e: EventV<B>) -> int {
    match e {
        EventV::GroupStart { .. } => 1,
        EventV::GroupEnd { .. } => -1,
        _ => 0,
    }
}

/// The net nesting-depth change over a whole stream.
pub open spec fn depth_after<B>(es: Seq<EventV<B>>) -> int
    decreases es.len(),
{
    if es.len() == 0 {
        0
    } else {
        depth_after(es.drop_last()) + depth_delta(es.last())
    }
}

/// The number of `GroupStart` events in a stream.
pub open spec fn open_count<B>(es: Seq<EventV<B>>) -> int
    decreases es.len(),
{
    if es.len() == 0 {
        0
    } else {
        open_count(es.drop_last()) + if es.last() is GroupStart {
            1int
        } else {
            0int
        }
    }
}

/// The number of `GroupEnd` events in a stream.
pub open spec fn close_count<B>(es: Seq<EventV<B>>) -> int
    decreases es.len(),
{
    if es.len() == 0 {
        0
    } else {
        close_count(es.drop_last()) + if es.last() is GroupEnd {
            1int
        } else {
            0int
        }
    }
}

/// Starting from depth `d`, no prefix of the stream ever closes more groups
/// than stand open.
pub open spec fn never_negative<B>(es: Seq<EventV<B>>, d: int) -> bool {
    forall|j: int| 0 <= j <= es.len() ==> d + depth_after(#[trigger] es.take(j)) >= 0
}

proof fn lemma_depth_concat<B>(a: Seq<EventV<B>>, b: Seq<EventV<B>>)
    ensures
        depth_after(a + b) == depth_after(a) + depth_after(b),
    decreases b.len(),
{
    if b.len() == 0 {
        assert(a + b =~= a);
    } else {
        lemma_depth_concat(a, b.drop_last());
        assert((a + b).drop_last() =~= a + b.drop_last());
    }
}

/// The depth change of a stream is the difference between the groups it
/// opens and the groups it closes.
proof fn lemma_depth_is_count_difference<B>(es: Seq<EventV<B>>)
    ensures
        depth_after(es) == open_count(es) - close_count(es),
    decreases es.len(),
{
    if es.len() > 0 {
        lemma_depth_is_count_difference(es.drop_last());
    }
}

proof fn lemma_never_negative_concat<B>(a: Seq<EventV<B>>, b: Seq<EventV<B>>, d: int)
    requires
        never_negative(a, d),
        never_negative(b, d + depth_after(a)),
    ensures
        never_negative(a + b, d),
{
    assert forall|j: int| 0 <= j <= (a + b).len() implies d + depth_after(
        #[trigger] (a + b).take(j),
    ) >= 0 by {
        if j <= a.len() {
            assert((a + b).take(j) =~= a.take(j));
        } else {
            assert((a + b).take(j) =~= a + b.take(j - a.len()));
            lemma_depth_concat(a, b.take(j - a.len()));
            assert(d + depth_after(a) + depth_after(b.take(j - a.len())) >= 0);
        }
    }
}

proof fn lemma_never_negative_weaken<B>(es: Seq<EventV<B>>, d: int, d2: int)
    requires
        never_negative(es, d),
        d2 >= d,
    ensures
        never_negative(es, d2),
{
    assert forall|j: int| 0 <= j <= es.len() implies d2 + depth_after(#[trigger] es.take(j))
        >= 0 by {
        assert(d + depth_after(es.take(j)) >= 0);
    }
}

/// After consuming a prefix, the rest of the stream is still safe from the
/// depth the prefix reached.
pub proof fn lemma_never_negative_skip<B>(es: Seq<EventV<B>>, d: int, j: int)
    requires
        never_negative(es, d),
        0 <= j <= es.len(),
    ensures
        never_negative(es.skip(j), d + depth_after(es.take(j))),
{
    assert forall|j2: int| 0 <= j2 <= es.skip(j).len() implies d + depth_after(es.take(j))
        + depth_after(#[trigger] es.skip(j).take(j2)) >= 0 by {
        assert(es.take(j) + es.skip(j).take(j2) =~= es.take(j + j2));
        lemma_depth_concat(es.take(j), es.skip(j).take(j2));
        assert(d + depth_after(es.take(j + j2)) >= 0);
    }
}

proof fn lemma_depth_singleton<B>(e: EventV<B>)
    ensures
        depth_after(seq![e]) == depth_delta(e),
        forall|d: int| d >= 0 && d + depth_delta(e) >= 0 ==> never_negative(seq![e], d),
{
    let s = seq![e];
    assert(s.last() == e);
    assert(s.drop_last() =~= Seq::<EventV<B>>::empty());
    assert(depth_after(Seq::<EventV<B>>::empty()) == 0);
    assert(depth_after(s) == depth_delta(e));
    assert forall|d: int| d >= 0 && d + depth_delta(e) >= 0 implies never_negative(
        seq![e],
        d,
    ) by {
        assert forall|j: int| 0 <= j <= 1 implies d + depth_after(#[trigger] seq![e].take(j))
            >= 0 by {
            if j == 0 {
                assert(seq![e].take(0) =~= Seq::<EventV<B>>::empty());
            } else {
                assert(seq![e].take(1) =~= seq![e]);
                assert(depth_after(seq![e]) == depth_delta(e));
            }
        }
    }
}

proof fn lemma_flat_nested<B>(t: TestTree<B>)
    ensures
        depth_after(flat(t)) == 0,
        never_negative(flat(t), 0),
    decreases t,
{
    match t {
        TestTree::Single { name, test } => {
            lemma_depth_singleton(EventV::Single { name: name@, test });
        }
        TestTree::SetSetting { kind, value } => {
            lemma_depth_singleton::<B>(EventV::SetSetting { kind, value });
        }
        TestTree::Group { name, ordering, tests } => {
            let gs = seq![EventV::GroupStart { name: name@, ordering }];
            let ge = seq![EventV::GroupEnd { name: name@, ordering }];
            let mid = flat_all(tests@);
            lemma_flat_all_nested(tests@);
            lemma_depth_singleton::<B>(EventV::GroupStart { name: name@, ordering });
            lemma_depth_singleton::<B>(EventV::GroupEnd { name: name@, ordering });
            lemma_depth_concat(gs, mid);
            lemma_depth_concat(gs + mid, ge);
            lemma_never_negative_weaken(mid, 0, 1);
            lemma_never_negative_concat(gs, mid, 0);
            lemma_never_negative_concat(gs + mid, ge, 0);
            assert(flat(t) == gs + mid + ge);
        }
    }
}

proof fn lemma_flat_all_nested<B>(ts: Seq<TestTree<B>>)
    ensures
        depth_after(flat_all(ts)) == 0,
        never_negative(flat_all(ts), 0),
    decreases ts,
{
    if ts.len() == 0 {
        assert forall|j: int| 0 <= j <= 0 implies 0 + depth_after(
            #[trigger] flat_all(ts).take(j),
        ) >= 0 by {
            assert(flat_all(ts).take(j) =~= Seq::<EventV<B>>::empty());
        }
    } else {
        lemma_flat_nested(ts[0]);
        lemma_flat_all_nested(ts.drop_first());
        lemma_depth_concat(flat(ts[0]), flat_all(ts.drop_first()));
        lemma_never_negative_concat(flat(ts[0]), flat_all(ts.drop_first()), 0);
    }
}

/// For any tree, the flattened stream opens exactly as many groups as it
/// closes, and no prefix of it closes a group it has not opened.
pub proof fn lemma_flat_well_nested<B>(t: TestTree<B>)
    ensures
        open_count(flat(t)) == close_count(flat(t)),
        never_negative(flat(t), 0),
        depth_after(flat(t)) == 0,
{
    lemma_flat_nested(t);
    lemma_depth_is_count_difference(flat(t));
}

enum WorkEntry<B> {
    Tree(TestTree<B>),
    Item(TestItem<B>),
}

spec fn entry_events<B>(e: WorkEntry<B>) -> Seq<EventV<B>> {
    match e {
        WorkEntry::Tree(t) => flat(t),
        WorkEntry::Item(i) => seq![i@],
    }
}

spec fn work_events<B>(s: Seq<WorkEntry<B>>) -> Seq<EventV<B>>
    decreases s.len(),
{
    if s.len() == 0 {
        Seq::empty()
    } else {
        entry_events(s.last()) + work_events(s.drop_last())
    }
}

/// Produces a tree's event stream one item at a time, keeping an explicit
/// work list instead of recursing, so arbitrarily deep trees cannot
/// overflow the native stack.
pub struct TreeIterator<B> {
    set: Vec<WorkEntry<B>>,
}

impl<B> TreeIterator<B> {
    /// The events still to be produced, in order.
    pub closed spec fn remaining(&self) -> Seq<EventV<B>> {
        work_events(self.set@)
    }

    /// Produces the next event of the stream, or `None` once the stream is
    /// exhausted.
    pub fn next(&mut self) -> (r: Option<TestItem<B>>)
        ensures
            old(self).remaining().len() == 0 ==> r is None && final(self).remaining()
                == old(self).remaining(),
            old(self).remaining().len() > 0 ==> (match r {
                Some(item) => item@ == old(self).remaining()[0] && final(self).remaining()
                    == old(self).remaining().drop_first(),
                None => false,
            }),
    {
        let entry = match self.set.pop() {
            None => {
                return None;
            }
            Some(e) => e,
        };
        let ghost rest = work_events(self.set@);
        match entry {
            WorkEntry::Item(item) => {
                proof {
                    assert(old(self).remaining() == seq![item@] + rest);
                    assert(old(self).remaining().drop_first() =~= rest);
                }
                Some(item)
            }
            WorkEntry::Tree(TestTree::Single { name, test }) => {
                let item = TestItem::Single { name, test };
                proof {
                    assert(old(self).remaining() == seq![item@] + rest);
                    assert(old(self).remaining().drop_first() =~= rest);
                }
                Some(item)
            }
            WorkEntry::Tree(TestTree::SetSetting { kind, value }) => {
                let item = TestItem::SetSetting { kind, value };
                proof {
                    assert(old(self).remaining() == seq![item@] + rest);
                    assert(old(self).remaining().drop_first() =~= rest);
                }
                Some(item)
            }
            WorkEntry::Tree(TestTree::Group { name, ordering, tests }) => {
                let ghost all = tests@;
                let end = TestItem::GroupEnd { name: name.clone(), ordering };
                let ghost tail = seq![end@] + rest;
                self.set.push(WorkEntry::Item(end));
                proof {
                    assert(self.set@.drop_last() =~= old(self).set@.drop_last());
                    assert(work_events(self.set@) == tail);
                }
                let mut ts = tests;
                while ts.len() > 0
                    invariant
                        ts@.len() <= all.len(),
                        ts@ =~= all.take(ts@.len() as int),
                        work_events(self.set@) == flat_all(all.skip(ts@.len() as int)) + tail,
                    decreases ts@.len(),
                {
                    let ghost k = ts@.len() as int;
                    let t = match ts.pop() {
                        Some(t) => t,
                        None => {
                            proof {
                                assert(false);
                            }
                            return None;
                        }
                    };
                    let ghost before = self.set@;
                    self.set.push(WorkEntry::Tree(t));
                    proof {
                        assert(t == all[k - 1]);
                        assert(self.set@.drop_last() =~= before);
                        assert(all.skip(k - 1)[0] == all[k - 1]);
                        assert(all.skip(k - 1).drop_first() =~= all.skip(k));
                        assert(flat_all(all.skip(k - 1)) == flat(all[k - 1]) + flat_all(
                            all.skip(k),
                        ));
                        assert(work_events(self.set@) == flat(all[k - 1]) + (flat_all(all.skip(k))
                            + tail));
                        assert(flat(all[k - 1]) + (flat_all(all.skip(k)) + tail) =~= flat_all(
                            all.skip(k - 1),
                        ) + tail);
                        assert(ts@ =~= all.take(k - 1));
                    }
                }
                let item = TestItem::GroupStart { name, ordering };
                proof {
                    assert(all.skip(0) =~= all);
                    assert(old(self).remaining() == (seq![item@] + flat_all(all) + seq![end@])
                        + rest);
                    assert(self.remaining() =~= old(self).remaining().drop_first());
                    assert(old(self).remaining()[0] == item@);
                }
                Some(item)
            }
        }
    }
}

impl<B> TestTree<B> {
    /// Starts the flattening of this tree: the iterator will produce exactly
    /// the stream [`flat`] describes.
    pub fn into_iterator(self) -> (it: TreeIterator<B>)
        ensures
            it.remaining() == flat(self),
    {
        let mut set: Vec<WorkEntry<B>> = Vec::new();
        set.push(WorkEntry::Tree(self));
        proof {
            assert(set@.drop_last() =~= Seq::<WorkEntry<B>>::empty());
            assert(work_events(Seq::<WorkEntry<B>>::empty()) =~= Seq::<EventV<B>>::empty());
            assert(work_events(set@) =~= flat(self));
        }
        TreeIterator { set }
    }
}

impl<B: IsTest> TestTree<B> {
    /// Flattens the tree, executes every event in order and folds the
    /// ordered results into a report.
    ///
    /// The run can never hit the fold's fatal mismatch, and the report is
    /// isomorphic to the tree: same names, same nesting, same ordering
    /// tags.  A tree that is a bare setting assignment yields the empty
    /// collection.
    #[verifier::loop_isolation(false)]
    pub fn run(self) -> (r: Result<Report, ReportError>)
        ensures
            match r {
                Ok(rep) => if self is SetSetting {
                    report_view(rep) == (ReportV::Grouped {
                        reports: Seq::<ReportV>::empty(),
                    })
                } else {
                    tree_iso(self, report_view(rep))
                },
                Err(_) => false,
            },
    {
        let ghost t = self;
        let mut exec = Executor::new(self);
        let mut results: Vec<TestedResult> = Vec::new();
        let ghost mut c: int = 0;
        proof {
            assert(flat(t).take(0) =~= Seq::<EventV<B>>::empty());
            assert(flat(t).skip(0) =~= flat(t));
            assert(views_of(results@) =~= Seq::<TestedV>::empty());
            assert(corresponds(flat(t).take(c), views_of(
                results@,
            )));
        }
        let mut done = false;
        while !done
            invariant
                exec.wf(),
                0 <= c <= flat(t).len(),
                exec.events() =~= flat(t).skip(c),
                corresponds(flat(t).take(c), views_of(results@)),
                done ==> corresponds(flat(t), views_of(results@)),
            decreases (if done { 0int } else { 1int }), flat(t).len() - c,
        {
            let ghost evs_pre = exec.events();
            let ghost outs_pre = views_of(results@);
            let item = exec.next();
            proof {
                lemma_lead_sets(evs_pre);
            }
            let ghost k = lead_sets(evs_pre);
            match item {
                None => {
                    proof {
                        assert(k == evs_pre.len());
                        lemma_corresponds_sets(evs_pre);
                        lemma_corresponds_concat(
                            flat(t).take(c),
                            outs_pre,
                            evs_pre,
                            Seq::empty(),
                        );
                        assert(flat(t).take(c) + evs_pre =~= flat(t));
                        assert(outs_pre + Seq::<TestedV>::empty() =~= outs_pre);
                        c = flat(t).len() as int;
                        assert(flat(t).skip(c) =~= Seq::<EventV<B>>::empty());
                        assert(corresponds(flat(t).take(c), views_of(
                            results@,
                        )));
                    }
                    done = true;
                }
                Some(tr) => {
                    let ghost tv = tr@;
                    proof {
                        assert(k < evs_pre.len());
                        assert(event_matches(evs_pre[k], tv)) by {
                            match evs_pre[k] {
                                EventV::SetSetting { .. } => {
                                    assert(false);
                                }
                                EventV::Single { .. } => {}
                                EventV::GroupStart { .. } => {}
                                EventV::GroupEnd { .. } => {}
                            }
                        }
                    }
                    results.push(tr);
                    proof {
                        let chunk = evs_pre.take(k + 1);
                        assert(chunk.len() == k + 1);
                        assert forall|i: int| 0 <= i < chunk.len() - 1 implies (
                        #[trigger] chunk[i]) is SetSetting by {
                            assert(chunk[i] == evs_pre[i]);
                        }
                        assert(chunk.last() == evs_pre[k]);
                        lemma_corresponds_chunk(chunk, tv);
                        lemma_corresponds_concat(
                            flat(t).take(c),
                            outs_pre,
                            chunk,
                            seq![tv],
                        );
                        assert forall|i: int| 0 <= i < k + 1 implies evs_pre[i] == flat(t)[c + i] by {
                            assert(evs_pre[i] == flat(t).skip(c)[i]);
                        }
                        assert(flat(t).take(c) + chunk =~= flat(t).take(c + k + 1));
                        assert(views_of(results@) =~= outs_pre.push(tv));
                        assert(outs_pre + seq![tv] =~= outs_pre.push(tv));
                        assert(exec.events() =~= flat(t).skip(c + k + 1)) by {
                            assert(exec.events() =~= evs_pre.skip(k + 1));
                            assert forall|i: int|
                                0 <= i < evs_pre.skip(k + 1).len() implies #[trigger] evs_pre.skip(
                                k + 1,
                            )[i] == flat(t).skip(c + k + 1)[i] by {
                                assert(evs_pre.skip(k + 1)[i] == evs_pre[k + 1 + i]);
                                assert(evs_pre[k + 1 + i] == flat(t).skip(c)[k + 1 + i]);
                            }
                        }
                        c = c + k + 1;
                    }
                }
            }
        }
        proof {
            if t is SetSetting {
                let es = flat(t);
                assert(es.len() == 1 && es[0] is SetSetting);
                assert(es.drop_first() =~= Seq::<EventV<B>>::empty());
                assert(n_out(Seq::<EventV<B>>::empty()) == 0);
                assert(n_out(es) == 0);
                lemma_corresponds_len(es, views_of(results@));
                assert(views_of(results@) =~= Seq::<
                    TestedV,
                >::empty());
                assert(fold_run(
                    Seq::<ReportV>::empty(),
                    Seq::<TestedV>::empty(),
                ) == Ok::<_, ReportError>(Seq::<ReportV>::empty()));
            } else {
                lemma_flatten_fold_reconstructs(t, views_of(
                    results@,
                ));
            }
        }
        match Report::from_results(results) {
            Ok(rep) => Ok(rep),
            Err(e) => {
                proof {
                    assert(false);
                }
                Err(e)
            }
        }
    }
}

} // verus!

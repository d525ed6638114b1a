use vstd::prelude::*;

use crate::executor::{
    corresponds, event_matches, lemma_corresponds_len, lemma_corresponds_split, n_out,
    TestedResult, TestedV,
};
use crate::ordering::Ordering;
use crate::result::{ResultV, TestResult};
use crate::test_tree::{flat, flat_all, EventV, TestTree};
use crate::TestName;

verus! {

/// The nested report a run folds into: a leaf per single test, a node per
/// group, and a top-level collection where the stream held several roots.
#[derive(Debug)]
pub enum Report {
    Grouped { reports: Vec<Report> },
    Test { name: TestName, result: TestResult },
    Group { name: TestName, ordering: Ordering, reports: Vec<Report> },
}

/// The mathematical value of a [`Report`].
pub enum ReportV {
    Grouped { reports: Seq<ReportV> },
    Test { name: Seq<char>, result: ResultV },
    Group { name: Seq<char>, ordering: Ordering, reports: Seq<ReportV> },
}

/// The single fatal condition of report folding: the stream closed a group
/// it had not opened, or attached a result where none can go.  This is an
/// invariant violation of the event stream itself, never a test failure.
#[derive(Debug, Clone, Copy, PartialEq, Eq, Structural)]
pub enum ReportError {
    /// a result arrived while the innermost accumulator was a leaf
    MisplacedResult,
    /// a `GroupEnd` arrived without a matching open `GroupStart` of the
    /// same name
    MismatchedGroupEnd,
}

/// The mathematical value of a [`Report`].
pub open spec fn report_view(r: Report) -> ReportV
    decreases r,
{
    match r {
        Report::Grouped { reports } => ReportV::Grouped { reports: reports_view(reports@) },
        Report::Test { name, result } => ReportV::Test { name: name@, result: result@ },
        Report::Group { name, ordering, reports } => ReportV::Group {
            name: name@,
            ordering,
            reports: reports_view(reports@),
        },
    }
}

/// The values of a sequence of reports, elementwise.
pub open spec fn reports_view(rs: Seq<Report>) -> Seq<ReportV>
    decreases rs,
{
    if rs.len() == 0 {
        Seq::empty()
    } else {
        seq![report_view(rs[0])] + reports_view(rs.drop_first())
    }
}

proof fn lemma_reports_view_index(rs: Seq<Report>)
    ensures
        reports_view(rs).len() == rs.len(),
        forall|i: int| 0 <= i < rs.len() ==> #[trigger] reports_view(rs)[i] == report_view(rs[i]),
    decreases rs.len(),
{
    if rs.len() > 0 {
        lemma_reports_view_index(rs.drop_first());
        assert forall|i: int| 0 <= i < rs.len() implies #[trigger] reports_view(rs)[i]
            == report_view(rs[i]) by {
            if i > 0 {
                assert(reports_view(rs)[i] == reports_view(rs.drop_first())[i - 1]);
                assert(rs.drop_first()[i - 1] == rs[i]);
            }
        }
    }
}

proof fn lemma_reports_view_snoc(rs: Seq<Report>, x: Report)
    ensures
        reports_view(rs.push(x)) =~= reports_view(rs).push(report_view(x)),
{
    lemma_reports_view_index(rs.push(x));
    lemma_reports_view_index(rs);
    assert forall|i: int| 0 <= i < rs.len() + 1 implies #[trigger] reports_view(rs.push(x))[i]
        == reports_view(rs).push(report_view(x))[i] by {
        if i < rs.len() {
            assert(rs.push(x)[i] == rs[i]);
        } else {
            assert(rs.push(x)[i] == x);
        }
    }
}

/// Whether every leaf of the report succeeded; a skipped leaf does not
/// count as a success.
pub open spec fn success_of(r: ReportV) -> bool
    decreases r,
{
    match r {
        ReportV::Test { result, .. } => result.outcome is Success,
        ReportV::Grouped { reports } => all_success(reports),
        ReportV::Group { reports, .. } => all_success(reports),
    }
}

/// Whether every report of the sequence is successful throughout.
pub open spec fn all_success(rs: Seq<ReportV>) -> bool
    decreases rs,
{
    forall|i: int| 0 <= i < rs.len() ==> success_of(#[trigger] rs[i])
}

/// A new report attached to the innermost open accumulator: pushed into the
/// top of the stack where one is open, onto the stack itself where it is
/// empty, and refused where the top is a leaf.
pub open spec fn push_child(stack: Seq<ReportV>, rep: ReportV) -> Result<
    Seq<ReportV>,
    ReportError,
> {
    if stack.len() == 0 {
        Ok(stack.push(rep))
    } else {
        match stack.last() {
            ReportV::Test { .. } => Err(ReportError::MisplacedResult),
            ReportV::Grouped { reports } => Ok(
                stack.update(stack.len() - 1, ReportV::Grouped { reports: reports.push(rep) }),
            ),
            ReportV::Group { name, ordering, reports } => Ok(
                stack.update(
                    stack.len() - 1,
                    ReportV::Group { name, ordering, reports: reports.push(rep) },
                ),
            ),
        }
    }
}

/// One step of the fold: a single test becomes a leaf, a `GroupStart` opens
/// an accumulator, and a `GroupEnd` closes the innermost one, whose name
/// must match.
pub open spec fn fold_step(stack: Seq<ReportV>, tv: TestedV) -> Result<Seq<ReportV>, ReportError> {
    match tv {
        TestedV::Single { name, result } => push_child(stack, ReportV::Test { name, result }),
        TestedV::GroupStart { name, ordering } => Ok(
            stack.push(ReportV::Group { name, ordering, reports: Seq::empty() }),
        ),
        TestedV::GroupEnd { name, .. } => {
            if stack.len() == 0 {
                Err(ReportError::MismatchedGroupEnd)
            } else {
                match stack.last() {
                    ReportV::Group { name: n2, .. } => {
                        if n2 == name {
                            push_child(stack.drop_last(), stack.last())
                        } else {
                            Err(ReportError::MismatchedGroupEnd)
                        }
                    }
                    _ => Err(ReportError::MismatchedGroupEnd),
                }
            }
        }
    }
}

/// The fold of a whole stream from a given accumulator stack.
pub open spec fn fold_run(stack: Seq<ReportV>, tvs: Seq<TestedV>) -> Result<
    Seq<ReportV>,
    ReportError,
>
    decreases tvs.len(),
{
    if tvs.len() == 0 {
        Ok(stack)
    } else {
        match fold_step(stack, tvs[0]) {
            Ok(st) => fold_run(st, tvs.drop_first()),
            Err(e) => Err(e),
        }
    }
}

/// The report a stream folds into: the single finished root where there is
/// exactly one, else the collection of roots.
pub open spec fn fold_finish(tvs: Seq<TestedV>) -> Result<ReportV, ReportError> {
    match fold_run(Seq::empty(), tvs) {
        Ok(st) => Ok(
            if st.len() == 1 {
                st[0]
            } else {
                ReportV::Grouped { reports: st }
            },
        ),
        Err(e) => Err(e),
    }
}

proof fn lemma_fold_run_concat(stack: Seq<ReportV>, a: Seq<TestedV>, b: Seq<TestedV>)
    ensures
        fold_run(stack, a + b) == (match fold_run(stack, a) {
            Ok(st) => fold_run(st, b),
            Err(e) => Err::<Seq<ReportV>, ReportError>(e),
        }),
    decreases a.len(),
{
    if a.len() == 0 {
        assert(a + b =~= b);
    } else {
        assert((a + b)[0] == a[0]);
        match fold_step(stack, a[0]) {
            Ok(st) => {
                assert((a + b).drop_first() =~= a.drop_first() + b);
                lemma_fold_run_concat(st, a.drop_first(), b);
            }
            Err(e) => {}
        }
    }
}

proof fn lemma_fold_run_one(stack: Seq<ReportV>, tv: TestedV)
    ensures
        fold_run(stack, seq![tv]) == (match fold_step(stack, tv) {
            Ok(st) => Ok::<_, ReportError>(st),
            Err(e) => Err::<Seq<ReportV>, ReportError>(e),
        }),
{
    assert(seq![tv].drop_first() =~= Seq::<TestedV>::empty());
    assert(seq![tv][0] == tv);
    match fold_step(stack, tv) {
        Ok(st) => {
            assert(fold_run(st, Seq::<TestedV>::empty()) == Ok::<_, ReportError>(st));
        }
        Err(e) => {},
    }
}

/// The values of an output stream, elementwise.
pub open spec fn views_of(results: Seq<TestedResult>) -> Seq<TestedV> {
    results.map_values(|t: TestedResult| t@)
}

impl Report {
    fn attach(stack: &mut Vec<Report>, rep: Report) -> (r: Result<(), ReportError>)
        ensures
            match r {
                Ok(_) => push_child(reports_view(old(stack)@), report_view(rep)) == Ok::<
                    _,
                    ReportError,
                >(reports_view(final(stack)@)),
                Err(e) => push_child(reports_view(old(stack)@), report_view(rep)) == Err::<
                    Seq<ReportV>,
                    _,
                >(e),
            },
    {
        proof {
            lemma_reports_view_index(stack@);
        }
        let n = stack.len();
        if n == 0 {
            stack.push(rep);
            proof {
                lemma_reports_view_snoc(old(stack)@, rep);
            }
            Ok(())
        } else {
            let top = match stack.pop() {
                Some(t) => t,
                None => {
                    proof {
                        assert(false);
                    }
                    return Err(ReportError::MisplacedResult);
                }
            };
            proof {
                assert(stack@ =~= old(stack)@.drop_last());
                assert(reports_view(old(stack)@)[n - 1] == report_view(top));
                assert(reports_view(old(stack)@).last() == report_view(top));
            }
            match top {
                Report::Test { .. } => Err(ReportError::MisplacedResult),
                Report::Grouped { mut reports } => {
                    let ghost inner0 = reports@;
                    reports.push(rep);
                    let rebuilt = Report::Grouped { reports };
                    let ghost before = stack@;
                    stack.push(rebuilt);
                    proof {
                        lemma_reports_view_snoc(inner0, rep);
                        lemma_reports_view_snoc(before, rebuilt);
                        lemma_reports_view_index(old(stack)@);
                        lemma_reports_view_index(before);
                        lemma_reports_view_index(stack@);
                        assert(stack@ =~= before.push(rebuilt));
                        assert forall|i: int| 0 <= i < n implies #[trigger] reports_view(stack@)[i]
                            == reports_view(old(stack)@).update(n - 1, report_view(rebuilt))[i] by {
                            if i < n - 1 {
                                assert(stack@[i] == before[i]);
                                assert(before[i] == old(stack)@[i]);
                            } else {
                                assert(stack@[i] == rebuilt);
                            }
                        }
                        assert(reports_view(stack@) =~= reports_view(old(stack)@).update(
                            n - 1,
                            report_view(rebuilt),
                        ));
                    }
                    Ok(())
                }
                Report::Group { name, ordering, mut reports } => {
                    let ghost inner0 = reports@;
                    reports.push(rep);
                    let rebuilt = Report::Group { name, ordering, reports };
                    let ghost before = stack@;
                    stack.push(rebuilt);
                    proof {
                        lemma_reports_view_snoc(inner0, rep);
                        lemma_reports_view_snoc(before, rebuilt);
                        lemma_reports_view_index(old(stack)@);
                        lemma_reports_view_index(before);
                        lemma_reports_view_index(stack@);
                        assert(stack@ =~= before.push(rebuilt));
                        assert forall|i: int| 0 <= i < n implies #[trigger] reports_view(stack@)[i]
                            == reports_view(old(stack)@).update(n - 1, report_view(rebuilt))[i] by {
                            if i < n - 1 {
                                assert(stack@[i] == before[i]);
                                assert(before[i] == old(stack)@[i]);
                            } else {
                                assert(stack@[i] == rebuilt);
                            }
                        }
                        assert(reports_view(stack@) =~= reports_view(old(stack)@).update(
                            n - 1,
                            report_view(rebuilt),
                        ));
                    }
                    Ok(())
                }
            }
        }
    }

    /// Folds an executor's ordered output stream into a nested report, one
    /// stack of in-progress accumulators deep.
    ///
    /// The result is exactly what [`fold_finish`] describes: `Err` exactly
    /// where the stream is corrupt (a `GroupEnd` without its matching,
    /// equally named `GroupStart`, or a result with nowhere to go).
    #[verifier::loop_isolation(false)]
    pub fn from_results(results: Vec<TestedResult>) -> (r: Result<Report, ReportError>)
        ensures
            match r {
                Ok(rep) => fold_finish(views_of(results@)) == Ok::<_, ReportError>(
                    report_view(rep),
                ),
                Err(e) => fold_finish(views_of(results@)) == Err::<ReportV, _>(e),
            },
    {
        let ghost all = views_of(results@);
        let mut queue = results;
        let mut stack: Vec<Report> = Vec::new();
        let ghost mut consumed: int = 0;
        proof {
            assert(all.take(0) =~= Seq::<TestedV>::empty());
        }
        while queue.len() > 0
            invariant
                0 <= consumed <= all.len(),
                views_of(queue@) =~= all.skip(consumed),
                queue@.len() == all.len() - consumed,
                fold_run(Seq::empty(), all.take(consumed)) == Ok::<_, ReportError>(
                    reports_view(stack@),
                ),
            decreases queue@.len(),
        {
            let ghost rs_pre = queue@;
            let tr = queue.remove(0);
            let ghost tv = tr@;
            proof {
                assert(views_of(rs_pre)[0] == tv);
                assert(all.skip(consumed)[0] == tv);
                assert(all[consumed] == tv);
                assert(queue@ =~= rs_pre.skip(1));
                assert forall|i: int| 0 <= i < queue@.len() implies #[trigger] views_of(
                    queue@,
                )[i] == all.skip(consumed + 1)[i] by {
                    assert(queue@[i] == rs_pre[i + 1]);
                    assert(views_of(rs_pre)[i + 1] == rs_pre[i + 1]@);
                    assert(all.skip(consumed)[i + 1] == all[consumed + 1 + i]);
                }
                assert(views_of(queue@) =~= all.skip(consumed + 1));
                assert(all.take(consumed + 1).drop_last() =~= all.take(consumed));
                assert(all.take(consumed + 1).last() == tv);
                lemma_fold_run_concat(Seq::empty(), all.take(consumed), seq![tv]);
                assert(all.take(consumed) + seq![tv] =~= all.take(consumed + 1));
                lemma_fold_run_one(reports_view(stack@), tv);
            }
            let ghost st0 = stack@;
            let step: Result<(), ReportError> = match tr {
                TestedResult::Single { name, result } => {
                    let r2 = Report::attach(&mut stack, Report::Test { name, result });
                    proof {
                        match r2 {
                            Ok(_) => {
                                assert(fold_step(reports_view(st0), tv) == Ok::<_, ReportError>(
                                    reports_view(stack@),
                                ));
                            }
                            Err(e) => {
                                assert(fold_step(reports_view(st0), tv) == Err::<
                                    Seq<ReportV>,
                                    _,
                                >(e));
                            }
                        }
                    }
                    r2
                }
                TestedResult::GroupStart { name, ordering } => {
                    stack.push(Report::Group { name, ordering, reports: Vec::new() });
                    proof {
                        lemma_reports_view_snoc(st0, stack@.last());
                        assert(reports_view(Seq::<Report>::empty()) =~= Seq::<ReportV>::empty());
                        assert(fold_step(reports_view(st0), tv) == Ok::<_, ReportError>(
                            reports_view(stack@),
                        ));
                    }
                    Ok(())
                }
                TestedResult::GroupEnd { name, .. } => {
                    let ghost before = stack@;
                    proof {
                        lemma_reports_view_index(before);
                    }
                    if stack.len() == 0 {
                        proof {
                            assert(fold_step(reports_view(st0), tv) == Err::<Seq<ReportV>, _>(
                                ReportError::MismatchedGroupEnd,
                            ));
                        }
                        Err(ReportError::MismatchedGroupEnd)
                    } else {
                        let top = match stack.pop() {
                            Some(t) => t,
                            None => {
                                proof {
                                    assert(false);
                                }
                                return Err(ReportError::MismatchedGroupEnd);
                            }
                        };
                        let ghost top_v = report_view(top);
                        proof {
                            assert(stack@ =~= before.drop_last());
                            lemma_reports_view_index(before.drop_last());
                            assert(reports_view(before.drop_last()) =~= reports_view(
                                before,
                            ).drop_last());
                            assert(top_v == reports_view(before).last());
                        }
                        match top {
                            Report::Group { name: gname, ordering: gordering, reports } => {
                                if gname == name {
                                    let rebuilt = Report::Group {
                                        name: gname,
                                        ordering: gordering,
                                        reports,
                                    };
                                    proof {
                                        assert(report_view(rebuilt) == top_v);
                                    }
                                    let r2 = Report::attach(&mut stack, rebuilt);
                                    proof {
                                        match r2 {
                                            Ok(_) => {
                                                assert(fold_step(reports_view(st0), tv) == Ok::<
                                                    _,
                                                    ReportError,
                                                >(reports_view(stack@)));
                                            }
                                            Err(e) => {
                                                assert(fold_step(reports_view(st0), tv) == Err::<
                                                    Seq<ReportV>,
                                                    _,
                                                >(e));
                                            }
                                        }
                                    }
                                    r2
                                } else {
                                    proof {
                                        assert(fold_step(reports_view(st0), tv) == Err::<
                                            Seq<ReportV>,
                                            _,
                                        >(ReportError::MismatchedGroupEnd));
                                    }
                                    Err(ReportError::MismatchedGroupEnd)
                                }
                            }
                            _ => {
                                proof {
                                    assert(fold_step(reports_view(st0), tv) == Err::<
                                        Seq<ReportV>,
                                        _,
                                    >(ReportError::MismatchedGroupEnd));
                                }
                                Err(ReportError::MismatchedGroupEnd)
                            }
                        }
                    }
                }
            };
            match step {
                Ok(_) => {
                    proof {
                        consumed = consumed + 1;
                    }
                }
                Err(e) => {
                    proof {
                        assert(fold_step(reports_view(st0), tv) == Err::<Seq<ReportV>, _>(e));
                        assert(fold_run(Seq::<ReportV>::empty(), all.take(consumed)) == Ok::<
                            _,
                            ReportError,
                        >(reports_view(st0)));
                        assert(fold_run(Seq::<ReportV>::empty(), all.take(consumed + 1)) == Err::<
                            Seq<ReportV>,
                            _,
                        >(e));
                        lemma_fold_run_concat(Seq::empty(), all.take(consumed + 1), all.skip(
                            consumed + 1,
                        ));
                        assert(all.take(consumed + 1) + all.skip(consumed + 1) =~= all);
                        assert(fold_run(Seq::<ReportV>::empty(), all) == Err::<
                            Seq<ReportV>,
                            _,
                        >(e));
                        assert(fold_finish(all) == Err::<ReportV, _>(e));
                    }
                    return Err(e);
                }
            }
        }
        proof {
            assert(all.take(consumed) =~= all);
        }
        let ghost fstack = stack@;
        proof {
            lemma_reports_view_index(fstack);
        }
        if stack.len() == 1 {
            let rep = match stack.pop() {
                Some(t) => t,
                None => {
                    proof {
                        assert(false);
                    }
                    return Err(ReportError::MismatchedGroupEnd);
                }
            };
            proof {
                assert(report_view(rep) == reports_view(fstack)[0]);
            }
            Ok(rep)
        } else {
            let rep = Report::Grouped { reports: stack };
            Ok(rep)
        }
    }

    /// `true` exactly when every leaf of the report succeeded.
    pub fn is_success(&self) -> (r: bool)
        ensures
            r == success_of(report_view(*self)),
        decreases *self,
    {
        match self {
            Report::Test { result, .. } => result.is_success(),
            Report::Grouped { reports } => Report::all_success_in(reports),
            Report::Group { reports, .. } => Report::all_success_in(reports),
        }
    }

    fn all_success_in(reports: &Vec<Report>) -> (r: bool)
        ensures
            r == all_success(reports_view(reports@)),
        decreases reports@,
    {
        proof {
            lemma_reports_view_index(reports@);
        }
        let n = reports.len();
        let mut i: usize = 0;
        while i < n
            invariant
                n == reports@.len(),
                0 <= i <= n,
                forall|j: int| 0 <= j < i ==> success_of(#[trigger] reports_view(reports@)[j]),
                reports_view(reports@).len() == n,
                forall|j: int|
                    0 <= j < n ==> #[trigger] reports_view(reports@)[j] == report_view(
                        reports@[j],
                    ),
            decreases n - i,
        {
            if !reports[i].is_success() {
                proof {
                    assert(!success_of(reports_view(reports@)[i as int]));
                }
                return false;
            }
            i += 1;
        }
        true
    }
}

/// Isomorphism of a tree and a report: same names, same nesting, same
/// ordering tags; setting nodes leave no trace; the results the leaves
/// carry are unconstrained.
pub open spec fn tree_iso<B>(t: TestTree<B>, r: ReportV) -> bool
    decreases t,
{
    match t {
        TestTree::Single { name, .. } => match r {
            ReportV::Test { name: n2, .. } => n2 == name@,
            _ => false,
        },
        TestTree::SetSetting { .. } => false,
        TestTree::Group { name, ordering, tests } => match r {
            ReportV::Group { name: n2, ordering: o2, reports } => n2 == name@ && o2 == ordering
                && forest_iso(tests@, reports),
            _ => false,
        },
    }
}

/// Isomorphism of a sequence of sibling trees and a sequence of reports,
/// with setting nodes skipped.
pub open spec fn forest_iso<B>(ts: Seq<TestTree<B>>, rs: Seq<ReportV>) -> bool
    decreases ts,
{
    if ts.len() == 0 {
        rs.len() == 0
    } else if ts[0] is SetSetting {
        forest_iso(ts.drop_first(), rs)
    } else {
        rs.len() > 0 && tree_iso(ts[0], rs[0]) && forest_iso(ts.drop_first(), rs.drop_first())
    }
}

spec fn can_accept(stack: Seq<ReportV>) -> bool {
    stack.len() == 0 || !(stack.last() is Test)
}

spec fn appended(stack: Seq<ReportV>, rep: ReportV) -> Seq<ReportV> {
    if stack.len() == 0 {
        stack.push(rep)
    } else {
        match stack.last() {
            ReportV::Test { .. } => stack,
            ReportV::Grouped { reports } => stack.update(
                stack.len() - 1,
                ReportV::Grouped { reports: reports.push(rep) },
            ),
            ReportV::Group { name, ordering, reports } => stack.update(
                stack.len() - 1,
                ReportV::Group { name, ordering, reports: reports.push(rep) },
            ),
        }
    }
}

proof fn lemma_fold_setting<B>(t: TestTree<B>, outs: Seq<TestedV>, stack: Seq<
    ReportV,
>)
    requires
        t is SetSetting,
        corresponds(flat(t), outs),
    ensures
        fold_run(stack, outs) == Ok::<_, ReportError>(stack),
{
    let es = flat(t);
    assert(es.len() == 1 && es[0] is SetSetting);
    assert(es.drop_first() =~= Seq::<EventV<B>>::empty());
    assert(n_out(Seq::<EventV<B>>::empty()) == 0);
    assert(n_out(es) == 0);
    lemma_corresponds_len(es, outs);
    assert(outs =~= Seq::<TestedV>::empty());
    assert(fold_run(stack, Seq::<TestedV>::empty()) == Ok::<_, ReportError>(stack));
}

proof fn lemma_fold_tree<B>(
    t: TestTree<B>,
    outs: Seq<TestedV>,
    stack: Seq<ReportV>,
) -> (rep: ReportV)
    requires
        !(t is SetSetting),
        corresponds(flat(t), outs),
        can_accept(stack),
    ensures
        tree_iso(t, rep),
        fold_run(stack, outs) == Ok::<_, ReportError>(appended(stack, rep)),
    decreases t,
{
    let es = flat(t);
    match t {
        TestTree::Single { name, .. } => {
            assert(es.drop_first() =~= Seq::<EventV<B>>::empty());
            assert(outs.len() > 0 && event_matches(es[0], outs[0]));
            lemma_corresponds_len(es.drop_first(), outs.drop_first());
            assert(outs =~= seq![outs[0]]);
            let result = match outs[0] {
                TestedV::Single { result, .. } => result,
                _ => arbitrary(),
            };
            let rep = ReportV::Test { name: name@, result };
            lemma_fold_run_one(stack, outs[0]);
            assert(fold_step(stack, outs[0]) == push_child(stack, rep));
            assert(push_child(stack, rep) == Ok::<_, ReportError>(appended(stack, rep)));
            rep
        }
        TestTree::SetSetting { .. } => arbitrary(),
        TestTree::Group { name, ordering, tests } => {
            let gs = seq![EventV::<B>::GroupStart { name: name@, ordering }];
            let ge = seq![EventV::<B>::GroupEnd { name: name@, ordering }];
            let mid = flat_all(tests@);
            assert(es == gs + mid + ge);
            assert(gs + mid + ge =~= gs + (mid + ge));
            lemma_corresponds_split(gs, mid + ge, outs);
            assert(n_out(gs) == 1) by {
                assert(gs.drop_first() =~= Seq::<EventV<B>>::empty());
                assert(n_out(Seq::<EventV<B>>::empty()) == 0);
            }
            let souts = outs.skip(1);
            lemma_corresponds_split(mid, ge, souts);
            let k = n_out(mid);
            let mouts = souts.take(k);
            let gouts = souts.skip(k);
            assert(outs.take(1).len() > 0 && event_matches(gs[0], outs.take(1)[0]));
            assert(outs.take(1)[0] == outs[0]);
            assert(outs[0] == (TestedV::GroupStart { name: name@, ordering }));
            let stack2 = stack.push(ReportV::Group { name: name@, ordering, reports: Seq::empty() });
            lemma_fold_run_one(stack, outs[0]);
            let children = lemma_fold_forest(
                tests@,
                mouts,
                stack2,
                name@,
                ordering,
                Seq::empty(),
            );
            let stack3 = stack2.update(
                stack2.len() - 1,
                ReportV::Group { name: name@, ordering, reports: Seq::empty() + children },
            );
            assert(Seq::empty() + children =~= children);
            assert(gouts.len() > 0 && event_matches(ge[0], gouts[0])) by {
                lemma_corresponds_len(ge, gouts);
            }
            assert(gouts[0] == (TestedV::GroupEnd { name: name@, ordering }));
            lemma_corresponds_len(ge.drop_first(), gouts.drop_first());
            assert(ge.drop_first() =~= Seq::<EventV<B>>::empty());
            assert(gouts =~= seq![gouts[0]]);
            let rep = ReportV::Group { name: name@, ordering, reports: children };
            lemma_fold_run_one(stack3, gouts[0]);
            assert(stack3.last() == rep);
            assert(stack3.drop_last() =~= stack);
            assert(fold_step(stack3, gouts[0]) == push_child(stack, rep));
            assert(push_child(stack, rep) == Ok::<_, ReportError>(appended(stack, rep)));
            lemma_fold_run_concat(stack, seq![outs[0]], souts);
            assert(seq![outs[0]] + souts =~= outs);
            lemma_fold_run_concat(stack2, mouts, gouts);
            assert(mouts + gouts =~= souts);
            assert(fold_run(stack, seq![outs[0]]) == Ok::<_, ReportError>(stack2));
            assert(fold_run(stack2, mouts) == Ok::<_, ReportError>(stack3));
            assert(fold_run(stack3, gouts) == Ok::<_, ReportError>(appended(stack, rep)));
            rep
        }
    }
}

proof fn lemma_fold_forest<B>(
    ts: Seq<TestTree<B>>,
    outs: Seq<TestedV>,
    stack: Seq<ReportV>,
    gname: Seq<char>,
    gord: Ordering,
    acc: Seq<ReportV>,
) -> (children: Seq<ReportV>)
    requires
        corresponds(flat_all(ts), outs),
        stack.len() > 0,
        stack.last() == (ReportV::Group { name: gname, ordering: gord, reports: acc }),
    ensures
        forest_iso(ts, children),
        fold_run(stack, outs) == Ok::<_, ReportError>(
            stack.update(
                stack.len() - 1,
                ReportV::Group { name: gname, ordering: gord, reports: acc + children },
            ),
        ),
    decreases ts,
{
    if ts.len() == 0 {
        assert(flat_all(ts) =~= Seq::<EventV<B>>::empty());
        assert(n_out(Seq::<EventV<B>>::empty()) == 0);
        lemma_corresponds_len(flat_all(ts), outs);
        assert(outs =~= Seq::<TestedV>::empty());
        assert(fold_run(stack, Seq::<TestedV>::empty()) == Ok::<_, ReportError>(stack));
        let children = Seq::<ReportV>::empty();
        assert(acc + children =~= acc);
        assert(stack.update(
            stack.len() - 1,
            ReportV::Group { name: gname, ordering: gord, reports: acc + children },
        ) =~= stack);
        children
    } else {
        let head = flat(ts[0]);
        let rest = flat_all(ts.drop_first());
        assert(flat_all(ts) == head + rest);
        lemma_corresponds_split(head, rest, outs);
        let k = n_out(head);
        let outs1 = outs.take(k);
        let outs2 = outs.skip(k);
        lemma_fold_run_concat(stack, outs1, outs2);
        assert(outs1 + outs2 =~= outs);
        if ts[0] is SetSetting {
            lemma_fold_setting(ts[0], outs1, stack);
            let children = lemma_fold_forest(ts.drop_first(), outs2, stack, gname, gord, acc);
            children
        } else {
            let rep = lemma_fold_tree(ts[0], outs1, stack);
            let stack2 = appended(stack, rep);
            assert(stack2 == stack.update(
                stack.len() - 1,
                ReportV::Group { name: gname, ordering: gord, reports: acc.push(rep) },
            ));
            let children2 = lemma_fold_forest(
                ts.drop_first(),
                outs2,
                stack2,
                gname,
                gord,
                acc.push(rep),
            );
            let children = seq![rep] + children2;
            assert(acc.push(rep) + children2 =~= acc + children);
            assert(children[0] == rep);
            assert(children.drop_first() =~= children2);
            let target = ReportV::Group { name: gname, ordering: gord, reports: acc + children };
            assert(stack2.update(stack2.len() - 1, target) =~= stack.update(
                stack.len() - 1,
                target,
            ));
            assert(fold_run(stack, outs) == Ok::<_, ReportError>(stack.update(
                stack.len() - 1,
                target,
            )));
            children
        }
    }
}

/// Folding any output stream the executor can produce over the flattening
/// of a tree reconstructs a report isomorphic to that tree: same names,
/// same nesting, same ordering tags, and never the fatal mismatch.
pub proof fn lemma_flatten_fold_reconstructs<B>(t: TestTree<B>, outs: Seq<
    TestedV,
>)
    requires
        !(t is SetSetting),
        corresponds(flat(t), outs),
    ensures
        fold_finish(outs) matches Ok(rv) && tree_iso(t, rv),
{
    let rep = lemma_fold_tree(t, outs, Seq::empty());
    assert(appended(Seq::<ReportV>::empty(), rep) =~= seq![rep]);
    assert(seq![rep].len() == 1);
    assert(seq![rep][0] == rep);
}

/// The character of one decimal digit.
pub open spec fn digit_char(d: nat) -> char {
    if d == 0 {
        '0'
    } else if d == 1 {
        '1'
    } else if d == 2 {
        '2'
    } else if d == 3 {
        '3'
    } else if d == 4 {
        '4'
    } else if d == 5 {
        '5'
    } else if d == 6 {
        '6'
    } else if d == 7 {
        '7'
    } else if d == 8 {
        '8'
    } else {
        '9'
    }
}

/// The decimal digits of `n`, most significant first.
pub open spec fn dec_digits(n: nat) -> Seq<char>
    decreases n,
{
    if n < 10 {
        seq![digit_char(n)]
    } else {
        dec_digits(n / 10).push(digit_char(n % 10))
    }
}

/// `n` copies of `c` (none where `n` is not positive).
pub open spec fn repeated(c: char, n: int) -> Seq<char>
    decreases n,
{
    if n <= 0 {
        Seq::empty()
    } else {
        repeated(c, n - 1).push(c)
    }
}

/// Appends the character of the digit `d`.
fn push_digit(out: &mut String, d: u64)
    requires
        d < 10,
    ensures
        final(out)@ == old(out)@.push(digit_char(d as nat)),
{
    proof {
        reveal_strlit("0");
        reveal_strlit("1");
        reveal_strlit("2");
        reveal_strlit("3");
        reveal_strlit("4");
        reveal_strlit("5");
        reveal_strlit("6");
        reveal_strlit("7");
        reveal_strlit("8");
        reveal_strlit("9");
    }
    let s: &str = if d == 0 {
        "0"
    } else if d == 1 {
        "1"
    } else if d == 2 {
        "2"
    } else if d == 3 {
        "3"
    } else if d == 4 {
        "4"
    } else if d == 5 {
        "5"
    } else if d == 6 {
        "6"
    } else if d == 7 {
        "7"
    } else if d == 8 {
        "8"
    } else {
        "9"
    };
    proof {
        assert(s@ =~= seq![digit_char(d as nat)]);
    }
    out.append(s);
    proof {
        assert(out@ =~= old(out)@.push(digit_char(d as nat)));
    }
}

/// Appends the decimal digits of `n`.
pub fn push_u64(out: &mut String, n: u64)
    ensures
        final(out)@ == old(out)@ + dec_digits(n as nat),
    decreases n,
{
    if n < 10 {
        push_digit(out, n);
        proof {
            assert(old(out)@ + dec_digits(n as nat) =~= old(out)@.push(digit_char(n as nat)));
        }
    } else {
        push_u64(out, n / 10);
        push_digit(out, n % 10);
        proof {
            assert(old(out)@ + dec_digits(n as nat) =~= (old(out)@ + dec_digits(
                (n / 10) as nat,
            )).push(digit_char((n % 10) as nat)));
        }
    }
}

/// The decimal text of `n`.
pub fn u64_string(n: u64) -> (r: String)
    ensures
        r@ == dec_digits(n as nat),
{
    let mut out = String::new();
    push_u64(&mut out, n);
    proof {
        assert(Seq::<char>::empty() + dec_digits(n as nat) =~= dec_digits(n as nat));
    }
    out
}

/// Appends `n` dots.
fn push_dots(out: &mut String, n: u64)
    ensures
        final(out)@ == old(out)@ + repeated('.', n as int),
{
    proof {
        reveal_strlit(".");
    }
    let mut i: u64 = 0;
    while i < n
        invariant
            i <= n,
            out@ == old(out)@ + repeated('.', i as int),
        decreases n - i,
    {
        out.append(".");
        proof {
            reveal_strlit(".");
            assert((".")@ =~= seq!['.']);
            assert(out@ =~= old(out)@ + repeated('.', i as int + 1));
        }
        i += 1;
    }
}

/// Appends `n` indent units of two spaces each.
fn push_indent(out: &mut String, n: u64)
    ensures
        final(out)@ == old(out)@ + repeated(' ', 2 * (n as int)),
{
    proof {
        reveal_strlit("  ");
    }
    let mut i: u64 = 0;
    while i < n
        invariant
            i <= n,
            out@ == old(out)@ + repeated(' ', 2 * (i as int)),
        decreases n - i,
    {
        out.append("  ");
        proof {
            reveal_strlit("  ");
            assert(("  ")@ =~= seq![' ', ' ']);
            assert(repeated(' ', 2 * (i as int) + 1) == repeated(' ', 2 * (i as int)).push(' '));
            assert(repeated(' ', 2 * (i as int) + 2) == repeated(' ', 2 * (i as int) + 1).push(
                ' ',
            ));
            assert(out@ =~= old(out)@ + repeated(' ', 2 * (i as int) + 2));
        }
        i += 1;
    }
}

/// The rendered duration of a result: its milliseconds and the unit.
pub open spec fn duration_text(ms: u64) -> Seq<char> {
    dec_digits(ms as nat) + "ms"@
}

/// The duration column: the duration text padded on the left with dots to
/// eighteen characters.
pub open spec fn duration_column(ms: u64) -> Seq<char> {
    repeated('.', 18 - duration_text(ms).len()) + duration_text(ms)
}

/// The text a single test's result renders to at a nesting level: the
/// status label, the duration column and the test's name on one line, and,
/// where the details are not empty, one more indented line holding them.
pub open spec fn single_line(level: u64, name: Seq<char>, r: ResultV) -> Seq<char> {
    repeated(' ', 2 * (level as int)) + r.short + duration_column(r.duration) + seq![' '] + name
        + seq!['\n'] + (if r.details.len() > 0 {
        repeated(' ', 2 * (level as int)) + r.details + seq!['\n']
    } else {
        Seq::empty()
    })
}

/// The line a group opening renders to at a nesting level.
pub open spec fn group_line(level: u64, name: Seq<char>) -> Seq<char> {
    repeated(' ', 2 * (level as int)) + name + seq!['\n']
}

/// The nesting level one deeper, saturating.
pub open spec fn deeper(level: u64) -> u64 {
    if level < u64::MAX {
        (level + 1) as u64
    } else {
        level
    }
}

/// The nesting level one shallower, saturating.
pub open spec fn shallower(level: u64) -> u64 {
    if level > 0 {
        (level - 1) as u64
    } else {
        0
    }
}

/// Renders the result stream live, line by line, indenting by the current
/// nesting depth, without buffering anything.
pub struct Progress {
    indent: u64,
}

impl Progress {
    /// The current nesting depth.
    pub closed spec fn level(&self) -> u64 {
        self.indent
    }

    /// A renderer starting at the given nesting depth; a whole run starts
    /// at depth zero.
    pub fn new_with(indent: u64) -> (p: Progress)
        ensures
            p.level() == indent,
    {
        Progress { indent }
    }

    fn handle_result(&mut self, name: &String, result: &TestResult) -> (out: String)
        ensures
            final(self).level() == old(self).level(),
            out@ == single_line(old(self).level(), name@, result@),
    {
        proof {
            reveal_strlit(" ");
            reveal_strlit("ms");
            reveal_strlit("\n");
        }
        let mut out = String::new();
        push_indent(&mut out, self.indent);
        out.append(result.short.as_str());
        let duration = result.duration;
        let mut dots: u64 = 15;
        let mut m: u64 = duration;
        let ghost mut steps: int = 0;
        while m >= 10
            invariant
                dec_digits(duration as nat).len() == dec_digits(m as nat).len() + steps,
                steps >= 0,
                dots == (if steps <= 15 {
                    15 - steps
                } else {
                    0int
                }),
            decreases m,
        {
            m = m / 10;
            if dots > 0 {
                dots = dots - 1;
            }
            proof {
                steps = steps + 1;
            }
        }
        proof {
            assert(dec_digits(m as nat).len() == 1);
            assert(duration_text(duration).len() == dec_digits(duration as nat).len() + 2);
            assert(repeated('.', dots as int) =~= repeated(
                '.',
                18 - duration_text(duration).len(),
            )) by {
                let a = dots as int;
                let b = 18 - duration_text(duration).len();
                if a != b {
                    assert(a <= 0 && b <= 0);
                }
            }
        }
        push_dots(&mut out, dots);
        push_u64(&mut out, duration);
        out.append("ms");
        out.append(" ");
        out.append(name.as_str());
        out.append("\n");
        if !result.details.as_str().is_empty() {
            push_indent(&mut out, self.indent);
            out.append(result.details.as_str());
            out.append("\n");
        }
        proof {
            assert(out@ =~= single_line(old(self).level(), name@, result@));
        }
        out
    }

    fn handle_group_start(&mut self, name: &String) -> (out: String)
        ensures
            final(self).level() == deeper(old(self).level()),
            out@ == group_line(old(self).level(), name@),
    {
        proof {
            reveal_strlit("\n");
        }
        let mut out = String::new();
        push_indent(&mut out, self.indent);
        out.append(name.as_str());
        out.append("\n");
        if self.indent < u64::MAX {
            self.indent = self.indent + 1;
        }
        proof {
            assert(out@ =~= group_line(old(self).level(), name@));
        }
        out
    }

    fn handle_group_end(&mut self)
        ensures
            final(self).level() == shallower(old(self).level()),
    {
        if self.indent > 0 {
            self.indent = self.indent - 1;
        }
    }

    /// Renders one entry of the result stream: a result line for a single
    /// test, a heading for a group opening, and nothing for a group end,
    /// which only restores the nesting depth.
    pub fn handle(&mut self, result: &TestedResult) -> (out: String)
        ensures
            match result@ {
                TestedV::Single { name, result: rv } => final(self).level() == old(self).level()
                    && out@ == single_line(old(self).level(), name, rv),
                TestedV::GroupStart { name, .. } => final(self).level() == deeper(
                    old(self).level(),
                ) && out@ == group_line(old(self).level(), name),
                TestedV::GroupEnd { .. } => final(self).level() == shallower(old(self).level())
                    && out@ == Seq::<char>::empty(),
            },
    {
        match result {
            TestedResult::Single { name, result } => self.handle_result(name, result),
            TestedResult::GroupStart { name, .. } => self.handle_group_start(name),
            TestedResult::GroupEnd { .. } => {
                self.handle_group_end();
                String::new()
            }
        }
    }
}

/// The text a report renders to under a heading prefix: a numbered line
/// per leaf, a heading with the child count per group, children one
/// heading level deeper.
pub open spec fn render_report(r: ReportV, indent: Seq<char>) -> Seq<char>
    decreases r,
{
    match r {
        ReportV::Test { name, result } => "1. `"@ + name + "` ("@ + dec_digits(
            result.duration as nat,
        ) + "ms): **"@ + result.short + "**"@ + seq!['\n'] + (if result.details.len() > 0 {
            "   "@ + result.details + seq!['\n']
        } else {
            Seq::empty()
        }),
        ReportV::Grouped { reports } => render_all(reports, indent.push('#')),
        ReportV::Group { name, reports, .. } => indent + seq![' '] + name + " ("@ + dec_digits(
            reports.len(),
        ) + ")"@ + seq!['\n', '\n'] + render_all(reports, indent.push('#')),
    }
}

/// The concatenated renderings of a sequence of reports.
pub open spec fn render_all(rs: Seq<ReportV>, indent: Seq<char>) -> Seq<char>
    decreases rs,
{
    if rs.len() == 0 {
        Seq::empty()
    } else {
        render_report(rs[0], indent) + render_all(rs.drop_first(), indent)
    }
}

proof fn lemma_render_all_snoc(rs: Seq<ReportV>, x: ReportV, indent: Seq<char>)
    ensures
        render_all(rs.push(x), indent) =~= render_all(rs, indent) + render_report(x, indent),
    decreases rs.len(),
{
    if rs.len() == 0 {
        assert(rs.push(x).drop_first() =~= Seq::<ReportV>::empty());
        assert(rs.push(x)[0] == x);
        assert(render_all(Seq::<ReportV>::empty(), indent) == Seq::<char>::empty());
        assert(render_all(rs, indent) + render_report(x, indent) =~= render_report(x, indent));
        assert(render_all(rs.push(x), indent) =~= render_report(x, indent) + Seq::<
            char,
        >::empty());
    } else {
        assert(rs.push(x).drop_first() =~= rs.drop_first().push(x));
        assert(rs.push(x)[0] == rs[0]);
        lemma_render_all_snoc(rs.drop_first(), x, indent);
    }
}

impl Report {
    /// Renders the whole report as a nested text outline, headed at the
    /// first level.
    pub fn report(&self) -> (out: String)
        ensures
            out@ == render_report(report_view(*self), "#"@),
    {
        proof {
            reveal_strlit("#");
            reveal_strlit("");
        }
        let mut out = String::new();
        let mut indent = String::new();
        indent.append("#");
        proof {
            assert(indent@ =~= ("#")@);
        }
        self.report_into(&indent, &mut out);
        proof {
            assert(out@ =~= render_report(report_view(*self), ("#")@));
        }
        out
    }

    fn report_into(&self, indent: &String, out: &mut String)
        ensures
            final(out)@ == old(out)@ + render_report(report_view(*self), indent@),
        decreases *self,
    {
        proof {
            reveal_strlit("#");
            reveal_strlit("\n");
            reveal_strlit("\n\n");
            reveal_strlit(" ");
        }
        match self {
            Report::Test { name, result } => {
                out.append("1. `");
                out.append(name.as_str());
                out.append("` (");
                push_u64(out, result.duration);
                out.append("ms): **");
                out.append(result.short.as_str());
                out.append("**");
                out.append("\n");
                if !result.details.as_str().is_empty() {
                    out.append("   ");
                    out.append(result.details.as_str());
                    out.append("\n");
                }
                proof {
                    assert(out@ =~= old(out)@ + render_report(report_view(*self), indent@));
                }
            }
            Report::Grouped { reports } => {
                let next = indent.clone().concat("#");
                proof {
                    assert(next@ =~= indent@.push('#'));
                }
                Report::children_into(reports, &next, out);
            }
            Report::Group { name, reports, .. } => {
                out.append(indent.as_str());
                out.append(" ");
                out.append(name.as_str());
                out.append(" (");
                push_u64(out, reports.len() as u64);
                out.append(")");
                out.append("\n\n");
                let next = indent.clone().concat("#");
                proof {
                    assert(next@ =~= indent@.push('#'));
                    lemma_reports_view_index(reports@);
                }
                Report::children_into(reports, &next, out);
                proof {
                    assert(out@ =~= old(out)@ + render_report(report_view(*self), indent@));
                }
            }
        }
    }

    fn children_into(reports: &Vec<Report>, indent: &String, out: &mut String)
        ensures
            final(out)@ == old(out)@ + render_all(reports_view(reports@), indent@),
        decreases reports@,
    {
        proof {
            lemma_reports_view_index(reports@);
        }
        let n = reports.len();
        let mut i: usize = 0;
        proof {
            assert(reports_view(reports@).take(0) =~= Seq::<ReportV>::empty());
        }
        while i < n
            invariant
                n == reports@.len(),
                i <= n,
                reports_view(reports@).len() == n,
                forall|j: int|
                    0 <= j < n ==> #[trigger] reports_view(reports@)[j] == report_view(
                        reports@[j],
                    ),
                out@ == old(out)@ + render_all(
                    reports_view(reports@).take(i as int),
                    indent@,
                ),
            decreases n - i,
        {
            reports[i].report_into(indent, out);
            proof {
                let rv = reports_view(reports@);
                assert(rv.take(i + 1) =~= rv.take(i as int).push(rv[i as int]));
                lemma_render_all_snoc(rv.take(i as int), rv[i as int], indent@);
                assert(out@ =~= old(out)@ + render_all(rv.take(i + 1), indent@));
            }
            i += 1;
        }
        proof {
            assert(reports_view(reports@).take(n as int) =~= reports_view(reports@));
        }
    }
}

} // verus!

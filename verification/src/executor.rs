use vstd::prelude::*;

use crate::ordering::{Ordering, OrderingCondition};
use crate::result::{skipped_value, ResultV, TestResult};
use crate::settings::Settings;
use crate::test::IsTest;
use crate::test_tree::{
    depth_after, flat, lemma_flat_well_nested, lemma_never_negative_skip, never_negative, EventV,
    TestItem, TestTree, TreeIterator,
};
use crate::TestName;

verus! {

/// One entry of the executor's output stream: the events of the flattened
/// tree, with every single test carrying its result and every `SetSetting`
/// consumed silently.
pub enum TestedResult {
    Single { name: TestName, result: TestResult },
    GroupStart { name: TestName, ordering: Ordering },
    GroupEnd { name: TestName, ordering: Ordering },
}

/// The mathematical value of a [`TestedResult`].
pub enum TestedV {
    Single { name: Seq<char>, result: ResultV },
    GroupStart { name: Seq<char>, ordering: Ordering },
    GroupEnd { name: Seq<char>, ordering: Ordering },
}

impl View for TestedResult {
    type V = TestedV;

    open spec fn view(&self) -> TestedV {
        match self {
            TestedResult::Single { name, result } => TestedV::Single {
                name: name@,
                result: result@,
            },
            TestedResult::GroupStart { name, ordering } => TestedV::GroupStart {
                name: name@,
                ordering: *ordering,
            },
            TestedResult::GroupEnd { name, ordering } => TestedV::GroupEnd {
                name: name@,
                ordering: *ordering,
            },
        }
    }
}

/// Whether a scope entered under the stack `conds` starts skipped: only
/// when the enclosing scope gates on success and has already latched a
/// failure.
pub open spec fn start_skipped(conds: Seq<(Ordering, bool)>) -> bool {
    conds.len() > 0 && conds.last().0 == (Ordering::Sequence {
        on_condition: OrderingCondition::Success,
    }) && conds.last().1
}

/// Whether a single test under the stack `conds` is skipped: whenever the
/// innermost scope's flag is latched, whatever its ordering.
pub open spec fn single_skipped(conds: Seq<(Ordering, bool)>) -> bool {
    conds.len() > 0 && conds.last().1
}

/// The condition stack after a single test ran with outcome `oc`: a failure
/// latches the innermost scope's flag when that scope gates on success.
pub open spec fn after_single(conds: Seq<(Ordering, bool)>, oc: crate::outcome::Outcome) -> Seq<
    (Ordering, bool),
> {
    if conds.len() > 0 && conds.last().0 == (Ordering::Sequence {
        on_condition: OrderingCondition::Success,
    }) && oc is Failure {
        conds.update(conds.len() - 1, (conds.last().0, true))
    } else {
        conds
    }
}

/// The number of `SetSetting` events at the head of the stream.
pub open spec fn lead_sets<B>(es: Seq<EventV<B>>) -> int
    decreases es.len(),
{
    if es.len() == 0 {
        0
    } else if es[0] is SetSetting {
        1 + lead_sets(es.drop_first())
    } else {
        0
    }
}

/// The snapshot `m` after the first `k` events of `es` (all `SetSetting`s)
/// have been applied in order.
pub open spec fn apply_sets<B>(m: Map<u64, u64>, es: Seq<EventV<B>>, k: int) -> Map<u64, u64>
    decreases k,
{
    if k <= 0 {
        m
    } else {
        apply_sets(m, es, k - 1).insert(es[k - 1]->SetSetting_kind, es[k - 1]->SetSetting_value)
    }
}

pub proof fn lemma_lead_sets<B>(es: Seq<EventV<B>>)
    ensures
        0 <= lead_sets(es) <= es.len(),
        lead_sets(es) < es.len() ==> !((es[lead_sets(es)]) is SetSetting),
        forall|i: int| 0 <= i < lead_sets(es) ==> (#[trigger] es[i]) is SetSetting,
    decreases es.len(),
{
    if es.len() == 0 {
    } else if es[0] is SetSetting {
        lemma_lead_sets(es.drop_first());
        let k = lead_sets(es);
        assert forall|i: int| 0 <= i < k implies (#[trigger] es[i]) is SetSetting by {
            if i > 0 {
                assert(es.drop_first()[i - 1] is SetSetting);
                assert(es[i] == es.drop_first()[i - 1]);
            }
        }
        if k < es.len() {
            assert(es[k] == es.drop_first()[k - 1]);
        }
    }
}

proof fn lemma_sets_prefix_depth<B>(es: Seq<EventV<B>>, j: int)
    requires
        0 <= j <= es.len(),
        forall|i: int| 0 <= i < j ==> (#[trigger] es[i]) is SetSetting,
    ensures
        depth_after(es.take(j)) == 0,
    decreases j,
{
    if j > 0 {
        lemma_sets_prefix_depth(es, j - 1);
        assert(es.take(j).drop_last() =~= es.take(j - 1));
        assert(es.take(j).last() == es[j - 1]);
    }
}

/// Walks the flattened event stream, maintaining one `(ordering, skip)`
/// entry and one settings snapshot per open scope, and decides for every
/// event whether to run, skip, or pass it through.
pub struct Executor<B> {
    tests: TreeIterator<B>,
    condition: Vec<(Ordering, bool)>,
    settings: Vec<Settings>,
}

impl<B> Executor<B> {
    /// The events still to be consumed.
    pub closed spec fn events(&self) -> Seq<EventV<B>> {
        self.tests.remaining()
    }

    /// The ordering/skip stack, one entry per open scope, innermost last.
    pub closed spec fn conds(&self) -> Seq<(Ordering, bool)> {
        self.condition@
    }

    /// The settings-scope stack, as maps from kind to raw word; the root
    /// snapshot sits first and is never popped.
    pub closed spec fn scopes(&self) -> Seq<Map<u64, u64>> {
        self.settings@.map_values(|s: Settings| s@)
    }

    /// Internal consistency: one settings snapshot more than open scopes,
    /// and the remaining stream never closes a scope that is not open.
    pub closed spec fn wf(&self) -> bool {
        &&& self.settings@.len() == self.condition@.len() + 1
        &&& forall|i: int| 0 <= i < self.settings@.len() ==> (#[trigger] self.settings@[i]).wf()
        &&& never_negative(self.events(), self.conds().len() as int)
    }

    /// A fresh executor over the flattening of `tests`: no scope open yet,
    /// the root settings snapshot pre-seeded with the defaults.
    pub fn new(tests: TestTree<B>) -> (e: Executor<B>)
        ensures
            e.wf(),
            e.events() == flat(tests),
            e.conds() == Seq::<(Ordering, bool)>::empty(),
            e.scopes() =~= seq![
                Map::<u64, u64>::empty().insert(
                    crate::settings::TIMEOUT_KIND,
                    crate::settings::DEFAULT_TIMEOUT_MS,
                ),
            ],
    {
        proof {
            lemma_flat_well_nested(tests);
        }
        let mut settings: Vec<Settings> = Vec::new();
        settings.push(Settings::new());
        let e = Executor { tests: tests.into_iterator(), condition: Vec::new(), settings };
        proof {
            assert(e.conds() =~= Seq::<(Ordering, bool)>::empty());
        }
        e
    }
}

impl<B: IsTest> Executor<B> {
    /// Consumes events up to and including the next surfaced one and yields
    /// its tested form, or `None` once the stream is exhausted.
    ///
    /// Leading `SetSetting` events are folded into the innermost snapshot
    /// and never surfaced.  A `GroupStart` opens a scope (skipped iff the
    /// parent gates on success and has latched a failure) and duplicates the
    /// snapshot; a `GroupEnd` pops both stacks, restoring the parent's exact
    /// state; a single test runs under the innermost snapshot unless the
    /// innermost skip flag is latched, and on failure latches that flag when
    /// the scope gates on success.
    pub fn next(&mut self) -> (r: Option<TestedResult>)
        requires
            old(self).wf(),
        ensures
            final(self).wf(),
            ({
                let evs = old(self).events();
                let k = lead_sets(evs);
                let scopes0 = old(self).scopes();
                let scopes1 = scopes0.update(
                    scopes0.len() - 1,
                    apply_sets(scopes0.last(), evs, k),
                );
                if k == evs.len() {
                    r is None && final(self).events() =~= Seq::<EventV<B>>::empty()
                        && final(self).conds() == old(self).conds()
                        && final(self).scopes() =~= scopes1
                } else {
                    final(self).events() =~= evs.skip(k + 1) && match evs[k] {
                        EventV::GroupStart { name, ordering } => (match r {
                            Some(t) => t@ == (TestedV::GroupStart { name, ordering }),
                            None => false,
                        }) && final(self).conds() =~= old(self).conds().push(
                            (ordering, start_skipped(old(self).conds())),
                        ) && final(self).scopes() =~= scopes1.push(scopes1.last()),
                        EventV::GroupEnd { name, ordering } => (match r {
                            Some(t) => t@ == (TestedV::GroupEnd { name, ordering }),
                            None => false,
                        }) && final(self).conds() =~= old(self).conds().drop_last()
                            && final(self).scopes() =~= scopes1.drop_last(),
                        EventV::SetSetting { .. } => false,
                        EventV::Single { name, test } => final(self).scopes() =~= scopes1 && (
                        if single_skipped(old(self).conds()) {
                            (match r {
                                Some(t) => t@ == (TestedV::Single {
                                    name,
                                    result: skipped_value(),
                                }),
                                None => false,
                            }) && final(self).conds() == old(self).conds()
                        } else {
                            match r {
                                Some(t) => t@ matches TestedV::Single { name: n2, result }
                                    && n2 == name && final(self).conds() =~= after_single(
                                    old(self).conds(),
                                    result.outcome,
                                ),
                                None => false,
                            }
                        }),
                    }
                }
            }),
    {
        let ghost evs = old(self).events();
        let ghost lead = lead_sets(evs);
        let ghost mut j: int = 0;
        proof {
            lemma_lead_sets(evs);
        }
        loop
            invariant
                self.wf(),
                0 <= j <= lead,
                lead == lead_sets(evs),
                self.events() =~= evs.skip(j),
                self.conds() == old(self).conds(),
                old(self).wf(),
                evs == old(self).events(),
                lead_sets(evs) <= evs.len(),
                (forall|i: int| 0 <= i < lead ==> (#[trigger] evs[i]) is SetSetting),
                lead < evs.len() ==> !((evs[lead]) is SetSetting),
                self.scopes() =~= old(self).scopes().update(
                    old(self).scopes().len() - 1,
                    apply_sets(old(self).scopes().last(), evs, j),
                ),
            decreases evs.len() - j,
        {
            let item = self.tests.next();
            proof {
                if j < evs.len() {
                    assert(evs.skip(j).len() > 0);
                    assert(evs.skip(j)[0] == evs[j]);
                    assert(evs.skip(j).drop_first() =~= evs.skip(j + 1));
                }
            }
            match item {
                None => {
                    proof {
                        assert(evs.skip(j).len() == 0);
                        assert(j == evs.len());
                        assert(j == lead);
                    }
                    return None;
                }
                Some(TestItem::SetSetting { kind, value }) => {
                    let ghost scopes_pre = self.scopes();
                    let ghost stack_pre = self.settings@;
                    proof {
                        assert(evs[j] == (EventV::<B>::SetSetting { kind, value }));
                        assert(j < lead) by {
                            if j >= lead {
                                assert(j == lead);
                                assert(lead < evs.len());
                                assert(!((evs[lead]) is SetSetting));
                            }
                        }
                        lemma_sets_prefix_depth(evs, j + 1);
                        lemma_never_negative_skip(evs, old(self).conds().len() as int, j + 1);
                        assert(stack_pre[stack_pre.len() - 1].wf());
                    }
                    let top_opt = self.settings.pop();
                    let mut top = match top_opt {
                        Some(s) => s,
                        None => {
                            proof {
                                assert(false);
                            }
                            return None;
                        }
                    };
                    top.insert_raw(kind, value);
                    self.settings.push(top);
                    proof {
                        let f = |s: Settings| s@;
                        let ghost ln = stack_pre.len() - 1;
                        assert(self.settings@ =~= stack_pre.update(ln, top));
                        assert forall|i: int| 0 <= i < self.settings@.len() implies (
                        #[trigger] self.settings@[i]).wf() by {
                            if i < ln {
                                assert(self.settings@[i] == stack_pre[i]);
                            }
                        }
                        assert forall|i: int| 0 <= i < self.settings@.len() implies #[trigger] self.scopes()[i]
                            == scopes_pre.update(ln, stack_pre[ln]@.insert(kind, value))[i] by {
                            assert(self.scopes()[i] == self.settings@[i]@);
                            assert(scopes_pre[i] == stack_pre[i]@);
                        }
                        assert(self.scopes() =~= scopes_pre.update(
                            ln,
                            stack_pre[ln]@.insert(kind, value),
                        ));
                        assert(stack_pre[ln]@ == scopes_pre[ln]);
                        assert(scopes_pre[ln] == apply_sets(old(self).scopes().last(), evs, j));
                        assert(apply_sets(old(self).scopes().last(), evs, j + 1) == apply_sets(
                            old(self).scopes().last(),
                            evs,
                            j,
                        ).insert(kind, value));
                        assert(self.scopes() =~= old(self).scopes().update(
                            old(self).scopes().len() - 1,
                            apply_sets(old(self).scopes().last(), evs, j + 1),
                        ));
                        assert(self.events() =~= evs.skip(j + 1));
                        j = j + 1;
                    }
                }
                Some(TestItem::Single { name, test }) => {
                    proof {
                        assert(j == lead);
                        lemma_sets_prefix_depth(evs, j);
                        lemma_never_negative_skip(evs, old(self).conds().len() as int, j + 1);
                        assert(evs.take(j + 1).drop_last() =~= evs.take(j));
                        assert(evs.take(j + 1).last() == evs[j]);
                        assert(depth_after(evs.take(j + 1)) == 0);
                    }
                    let n = self.condition.len();
                    let skip = if n > 0 {
                        self.condition[n - 1].1
                    } else {
                        false
                    };
                    if skip {
                        let out = TestedResult::Single { name, result: TestResult::skip() };
                        return Some(out);
                    } else {
                        let m = self.settings.len();
                        let snapshot = self.settings[m - 1].clone();
                        proof {
                            let f = |s: Settings| s@;
                            assert(self.settings@.map_values(f)[m - 1] == self.settings@[m - 1]@);
                        }
                        let result = test.run(snapshot);
                        let failed = result.is_failure();
                        if n > 0 && failed {
                            let (ord, _) = self.condition[n - 1];
                            if matches!(ord, Ordering::Sequence { on_condition: OrderingCondition::Success }) {
                                self.condition.set(n - 1, (ord, true));
                            }
                        }
                        proof {
                            assert(self.conds() =~= after_single(
                                old(self).conds(),
                                result@.outcome,
                            ));
                        }
                        let out = TestedResult::Single { name, result };
                        return Some(out);
                    }
                }
                Some(TestItem::GroupStart { name, ordering }) => {
                    proof {
                        assert(j == lead);
                        lemma_sets_prefix_depth(evs, j);
                        lemma_never_negative_skip(evs, old(self).conds().len() as int, j + 1);
                        assert(evs.take(j + 1).drop_last() =~= evs.take(j));
                        assert(evs.take(j + 1).last() == evs[j]);
                        assert(depth_after(evs.take(j + 1)) == 1);
                    }
                    let n = self.condition.len();
                    let skip = if n > 0 {
                        let (ord, failed) = self.condition[n - 1];
                        match ord {
                            Ordering::Any => false,
                            Ordering::Sequence { on_condition } => match on_condition {
                                OrderingCondition::Finish => false,
                                OrderingCondition::Success => failed,
                            },
                        }
                    } else {
                        false
                    };
                    self.condition.push((ordering, skip));
                    let m = self.settings.len();
                    let snapshot = self.settings[m - 1].clone();
                    let ghost before = self.settings@;
                    self.settings.push(snapshot);
                    proof {
                        let f = |s: Settings| s@;
                        assert(self.settings@.map_values(f) =~= before.map_values(f).push(
                            self.settings@.last()@,
                        ));
                        assert(skip == start_skipped(old(self).conds()));
                    }
                    let out = TestedResult::GroupStart { name, ordering };
                    return Some(out);
                }
                Some(TestItem::GroupEnd { name, ordering }) => {
                    proof {
                        assert(j == lead);
                        lemma_sets_prefix_depth(evs, j);
                        assert(evs.take(j + 1).drop_last() =~= evs.take(j));
                        assert(evs.take(j + 1).last() == evs[j]);
                        assert(depth_after(evs.take(j + 1)) == -1);
                        assert(old(self).conds().len() as int + depth_after(evs.take(j + 1))
                            >= 0);
                        assert(self.condition@.len() >= 1);
                        lemma_never_negative_skip(evs, old(self).conds().len() as int, j + 1);
                    }
                    let ghost before = self.settings@;
                    let _ = self.condition.pop();
                    let _ = self.settings.pop();
                    proof {
                        let f = |s: Settings| s@;
                        assert(self.settings@.map_values(f) =~= before.map_values(
                            f,
                        ).drop_last());
                    }
                    let out = TestedResult::GroupEnd { name, ordering };
                    return Some(out);
                }
            }
        }
    }
}

/// Whether one surfaced output matches one event: same variant, name and
/// ordering; the result a single test carries is unconstrained.
pub open spec fn event_matches<B>(e: EventV<B>, tv: TestedV) -> bool {
    match e {
        EventV::SetSetting { .. } => false,
        EventV::Single { name, .. } => match tv {
            TestedV::Single { name: n2, .. } => n2 == name,
            _ => false,
        },
        EventV::GroupStart { name, ordering } => tv == (TestedV::GroupStart { name, ordering }),
        EventV::GroupEnd { name, ordering } => tv == (TestedV::GroupEnd { name, ordering }),
    }
}

/// Whether `outs` is a possible output stream of the executor over the
/// events `es`: every `SetSetting` consumed silently, every other event
/// surfaced in order with its name and ordering kept.
pub open spec fn corresponds<B>(es: Seq<EventV<B>>, outs: Seq<TestedV>) -> bool
    decreases es.len(),
{
    if es.len() == 0 {
        outs.len() == 0
    } else if es[0] is SetSetting {
        corresponds(es.drop_first(), outs)
    } else {
        outs.len() > 0 && event_matches(es[0], outs[0]) && corresponds(
            es.drop_first(),
            outs.drop_first(),
        )
    }
}

/// The number of events of `es` the executor surfaces: all but the
/// `SetSetting`s.
pub open spec fn n_out<B>(es: Seq<EventV<B>>) -> int
    decreases es.len(),
{
    if es.len() == 0 {
        0
    } else {
        (if es[0] is SetSetting {
            0int
        } else {
            1int
        }) + n_out(es.drop_first())
    }
}

pub proof fn lemma_corresponds_len<B>(es: Seq<EventV<B>>, outs: Seq<TestedV>)
    requires
        corresponds(es, outs),
    ensures
        outs.len() == n_out(es),
        0 <= n_out(es) <= es.len(),
    decreases es.len(),
{
    if es.len() > 0 {
        if es[0] is SetSetting {
            lemma_corresponds_len(es.drop_first(), outs);
        } else {
            lemma_corresponds_len(es.drop_first(), outs.drop_first());
        }
    }
}

proof fn lemma_n_out_concat<B>(a: Seq<EventV<B>>, b: Seq<EventV<B>>)
    ensures
        n_out(a + b) == n_out(a) + n_out(b),
    decreases a.len(),
{
    if a.len() == 0 {
        assert(a + b =~= b);
    } else {
        assert((a + b)[0] == a[0]);
        assert((a + b).drop_first() =~= a.drop_first() + b);
        lemma_n_out_concat(a.drop_first(), b);
    }
}

pub proof fn lemma_corresponds_concat<B>(
    a: Seq<EventV<B>>,
    ra: Seq<TestedV>,
    b: Seq<EventV<B>>,
    rb: Seq<TestedV>,
)
    requires
        corresponds(a, ra),
        corresponds(b, rb),
    ensures
        corresponds(a + b, ra + rb),
    decreases a.len(),
{
    if a.len() == 0 {
        assert(a + b =~= b);
        assert(ra =~= Seq::<TestedV>::empty());
        assert(ra + rb =~= rb);
    } else {
        assert((a + b)[0] == a[0]);
        assert((a + b).drop_first() =~= a.drop_first() + b);
        if a[0] is SetSetting {
            lemma_corresponds_concat(a.drop_first(), ra, b, rb);
        } else {
            assert((ra + rb)[0] == ra[0]);
            assert((ra + rb).drop_first() =~= ra.drop_first() + rb);
            lemma_corresponds_concat(a.drop_first(), ra.drop_first(), b, rb);
        }
    }
}

pub proof fn lemma_corresponds_split<B>(a: Seq<EventV<B>>, b: Seq<EventV<B>>, outs: Seq<TestedV>)
    requires
        corresponds(a + b, outs),
    ensures
        0 <= n_out(a) <= outs.len(),
        corresponds(a, outs.take(n_out(a))),
        corresponds(b, outs.skip(n_out(a))),
    decreases a.len(),
{
    lemma_corresponds_len(a + b, outs);
    lemma_n_out_concat(a, b);
    if a.len() == 0 {
        assert(a + b =~= b);
        assert(outs.take(0) =~= Seq::<TestedV>::empty());
        assert(outs.skip(0) =~= outs);
    } else {
        assert((a + b)[0] == a[0]);
        assert((a + b).drop_first() =~= a.drop_first() + b);
        if a[0] is SetSetting {
            lemma_corresponds_split(a.drop_first(), b, outs);
        } else {
            let k = n_out(a);
            assert(outs.len() > 0 && event_matches(a[0], outs[0]));
            lemma_corresponds_split(a.drop_first(), b, outs.drop_first());
            assert(k == 1 + n_out(a.drop_first()));
            assert(outs.take(k)[0] == outs[0]);
            assert(outs.take(k).drop_first() =~= outs.drop_first().take(k - 1));
            assert(outs.skip(k) =~= outs.drop_first().skip(k - 1));
        }
    }
}

/// A run of `SetSetting` events surfaces nothing.
pub proof fn lemma_corresponds_sets<B>(es: Seq<EventV<B>>)
    requires
        forall|i: int| 0 <= i < es.len() ==> (#[trigger] es[i]) is SetSetting,
    ensures
        corresponds(es, Seq::empty()),
    decreases es.len(),
{
    if es.len() > 0 {
        assert(es[0] is SetSetting);
        assert forall|i: int| 0 <= i < es.drop_first().len() implies (
        #[trigger] es.drop_first()[i]) is SetSetting by {
            assert(es.drop_first()[i] == es[i + 1]);
        }
        lemma_corresponds_sets(es.drop_first());
    }
}

/// A run of `SetSetting` events followed by one surfaced event matches one
/// output.
pub proof fn lemma_corresponds_chunk<B>(chunk: Seq<EventV<B>>, tv: TestedV)
    requires
        chunk.len() >= 1,
        forall|i: int| 0 <= i < chunk.len() - 1 ==> (#[trigger] chunk[i]) is SetSetting,
        event_matches(chunk.last(), tv),
    ensures
        corresponds(chunk, seq![tv]),
    decreases chunk.len(),
{
    if chunk.len() == 1 {
        assert(chunk[0] == chunk.last());
        assert(chunk.drop_first() =~= Seq::<EventV<B>>::empty());
        assert(seq![tv].drop_first() =~= Seq::<TestedV>::empty());
        assert(seq![tv][0] == tv);
        assert(corresponds(Seq::<EventV<B>>::empty(), Seq::<TestedV>::empty()));
    } else {
        assert(chunk[0] is SetSetting);
        assert forall|i: int| 0 <= i < chunk.drop_first().len() - 1 implies (
        #[trigger] chunk.drop_first()[i]) is SetSetting by {
            assert(chunk.drop_first()[i] == chunk[i + 1]);
        }
        assert(chunk.drop_first().last() == chunk.last());
        lemma_corresponds_chunk(chunk.drop_first(), tv);
    }
}

} // verus!

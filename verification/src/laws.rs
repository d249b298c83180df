//! What holds of every run: which contexts a run can reach, that a failed
//! assertion never ends a run, and that a step which cannot be executed
//! ends it at once.

use vstd::prelude::*;
use crate::evaluator::{judged, judged_all, AssertionResultView, ResponseView};
use crate::model::{AssertionKind, AssertionView, RequestView, StepView};
use crate::parser::{lemma_parsed_length, parsed};
use crate::resolver::{
    fits, lemma_plain_step_unchanged, lemma_resolved_step_fits, plain_step, resolved_step,
};
use crate::run::{
    begun, cancelled, captured, failed_verdict, judged_verdict, not_attempted, planned_context,
    recorded, replayed, settled, skipped_verdict, started, unresolved_verdict, verdict_of,
    ContextView, FileOutcome, OutcomeView, RunState, StepStatus, StepVerdictView, TransportFault,
};

verus! {

/// The step was executed: a response came and was judged, or the failure
/// to get one was tolerated.
pub open spec fn executed(v: StepVerdictView) -> bool {
    v.status == StepStatus::Passed || v.status == StepStatus::Failed || v.status
        == StepStatus::Tolerated
}

/// The step could not be executed.
pub open spec fn broke(v: StepVerdictView) -> bool {
    v.status == StepStatus::Unresolved || v.status == StepStatus::Unreachable
}

/// The first `k` verdicts are of executed steps.
pub open spec fn executed_before(verdicts: Seq<StepVerdictView>, k: int) -> bool {
    forall|j: int| 0 <= j < k && j < verdicts.len() ==> executed(#[trigger] verdicts[j])
}

/// The verdicts from index `k` on say "not attempted", each of its step.
pub open spec fn skipped_from(c: ContextView, k: int) -> bool {
    forall|j: int|
        k <= j < c.verdicts.len() && 0 <= j ==> #[trigger] c.verdicts[j] == skipped_verdict(
            c.plan[j],
        )
}

/// What holds of every context that a run reaches from a fresh one:
/// - while a step waits, it is the step of the plan with its texts
///   resolved, each step before it was executed and has its verdict, and no
///   other verdict is there;
/// - a completed run has a verdict for each step, all of them executed;
/// - a run that failed over its document has no verdict; one that failed
///   over a step has a verdict for each step: executed steps, then the step
///   that broke, then steps not attempted;
/// - a cancelled run has a verdict for each step: executed steps, then
///   steps not attempted.
pub open spec fn consistent(c: ContextView) -> bool {
    &&& c.plan.len() <= usize::MAX
    &&& reached(c)
}

/// The part of `consistent` that depends on the state of the run.
pub open spec fn reached(c: ContextView) -> bool {
    match c.state {
        RunState::Pending => c.verdicts.len() == 0 && c.pending is None && c.parse_error is None,
        RunState::Running(i) => {
            &&& i < c.plan.len()
            &&& c.pending is Some
            &&& fits(c.pending->0, c.plan[i as int])
            &&& c.parse_error is None
            &&& c.verdicts.len() == i
            &&& executed_before(c.verdicts, i as int)
        },
        RunState::Completed => {
            &&& c.parse_error is None
            &&& c.verdicts.len() == c.plan.len()
            &&& executed_before(c.verdicts, c.plan.len() as int)
        },
        RunState::Failed => if c.parse_error is Some {
            c.verdicts.len() == 0
        } else {
            &&& c.verdicts.len() == c.plan.len()
            &&& exists|k: int| #[trigger]
                breaks_at(c, k)
        },
        RunState::Cancelled => {
            &&& c.verdicts.len() == c.plan.len()
            &&& exists|k: int| #[trigger]
                stops_at(c, k)
        },
    }
}

/// The run ended over step `k`: the steps before it were executed, it
/// broke, and none after it was attempted.
pub open spec fn breaks_at(c: ContextView, k: int) -> bool {
    &&& 0 <= k < c.verdicts.len()
    &&& executed_before(c.verdicts, k)
    &&& broke(c.verdicts[k])
    &&& skipped_from(c, k + 1)
}

/// The run was stopped before step `k`: the steps before it were executed
/// and none from it on was attempted.
pub open spec fn stops_at(c: ContextView, k: int) -> bool {
    &&& 0 <= k <= c.verdicts.len()
    &&& executed_before(c.verdicts, k)
    &&& skipped_from(c, k)
}

/// There is one verdict of "not attempted" for each step from `from` on.
pub proof fn lemma_not_attempted(plan: Seq<StepView>, from: int)
    requires
        0 <= from <= plan.len(),
    ensures
        not_attempted(plan, from).len() == plan.len() - from,
        forall|j: int|
            0 <= j < plan.len() - from ==> #[trigger] not_attempted(plan, from)[j]
                == skipped_verdict(plan[from + j]),
    decreases plan.len() - from,
{
    if from < plan.len() {
        lemma_not_attempted(plan, from + 1);
        let rest = not_attempted(plan, from + 1);
        let all = not_attempted(plan, from);
        assert forall|j: int| 0 <= j < plan.len() - from implies #[trigger] all[j]
            == skipped_verdict(plan[from + j]) by {
            if j > 0 {
                assert(all[j] == rest[j - 1]);
            }
        }
    }
}

/// A context in which the first `i` steps were executed is consistent when
/// step `i` begins.
pub proof fn lemma_begun_consistent(c: ContextView, i: int)
    requires
        0 <= i <= c.plan.len(),
        c.plan.len() <= usize::MAX,
        c.parse_error is None,
        c.verdicts.len() == i,
        executed_before(c.verdicts, i),
    ensures
        consistent(begun(c, i)),
{
    let n = begun(c, i);
    if i < c.plan.len() {
        lemma_resolved_step_fits(c.plan[i], c.variables);
        match resolved_step(c.plan[i], c.variables) {
            Ok(step) => {},
            Err(f) => {
                lemma_not_attempted(c.plan, i + 1);
                assert forall|j: int| i + 1 <= j < n.verdicts.len() implies #[trigger] n.verdicts[j]
                    == skipped_verdict(n.plan[j]) by {
                    assert(n.verdicts[j] == not_attempted(c.plan, i + 1)[j - (i + 1)]);
                }
                assert forall|j: int| 0 <= j < i implies executed(#[trigger] n.verdicts[j]) by {
                    assert(n.verdicts[j] == c.verdicts[j]);
                }
                assert(breaks_at(n, i));
            },
        }
    }
}

/// Starting keeps a context consistent.
pub proof fn lemma_started_consistent(c: ContextView)
    requires
        consistent(c),
    ensures
        consistent(started(c)),
{
    if c.state == RunState::Pending {
        if c.loaded {
            lemma_begun_consistent(c, 0);
        } else {
            lemma_parsed_length(c.source);
            match parsed(c.source) {
                Ok(p) => {
                    lemma_begun_consistent(
                        ContextView { loaded: true, plan: p.plan, warnings: p.warnings, ..c },
                        0,
                    );
                },
                Err(_) => {},
            }
        }
    }
}

/// Recording an outcome keeps a context consistent.
pub proof fn lemma_recorded_consistent(c: ContextView, outcome: OutcomeView)
    requires
        consistent(c),
    ensures
        consistent(recorded(c, outcome)),
{
    match (c.state, c.pending) {
        (RunState::Running(i), Some(step)) => {
            let n = recorded(c, outcome);
            match settled(outcome, step.request.timeout_ms) {
                OutcomeView::Response(response) => {
                    let v = judged_verdict(step, response);
                    let m = ContextView {
                        variables: captured(c.variables, response.body, step.captures, 0),
                        verdicts: c.verdicts.push(v),
                        pending: None,
                        ..c
                    };
                    assert forall|j: int| 0 <= j < i + 1 implies executed(
                        #[trigger] m.verdicts[j],
                    ) by {
                        if j < i {
                            assert(m.verdicts[j] == c.verdicts[j]);
                        }
                    }
                    lemma_begun_consistent(m, i + 1);
                },
                OutcomeView::Failure(e) => {
                    let v = failed_verdict(step, e);
                    if step.optional {
                        let m = ContextView { verdicts: c.verdicts.push(v), pending: None, ..c };
                        assert forall|j: int| 0 <= j < i + 1 implies executed(
                            #[trigger] m.verdicts[j],
                        ) by {
                            if j < i {
                                assert(m.verdicts[j] == c.verdicts[j]);
                            }
                        }
                        lemma_begun_consistent(m, i + 1);
                    } else {
                        lemma_not_attempted(c.plan, i + 1);
                        assert forall|j: int|
                            i + 1 <= j < n.verdicts.len() implies #[trigger] n.verdicts[j]
                            == skipped_verdict(n.plan[j]) by {
                            assert(n.verdicts[j] == not_attempted(c.plan, i + 1)[j - (i + 1)]);
                        }
                        assert forall|j: int| 0 <= j < i implies executed(
                            #[trigger] n.verdicts[j],
                        ) by {
                            assert(n.verdicts[j] == c.verdicts[j]);
                        }
                        assert(n.verdicts[i as int] == v);
                        assert(breaks_at(n, i as int));
                    }
                },
            }
        },
        _ => {},
    }
}

/// Stopping keeps a context consistent.
pub proof fn lemma_cancelled_consistent(c: ContextView)
    requires
        consistent(c),
    ensures
        consistent(cancelled(c)),
{
    let n = cancelled(c);
    match c.state {
        RunState::Pending => {
            lemma_not_attempted(c.plan, 0);
            assert forall|j: int| 0 <= j < n.verdicts.len() implies #[trigger] n.verdicts[j]
                == skipped_verdict(n.plan[j]) by {
                assert(n.verdicts[j] == not_attempted(c.plan, 0)[j]);
            }
            assert(stops_at(n, 0));
        },
        RunState::Running(i) => {
            lemma_not_attempted(c.plan, i as int);
            assert forall|j: int| i <= j < n.verdicts.len() implies #[trigger] n.verdicts[j]
                == skipped_verdict(n.plan[j]) by {
                assert(n.verdicts[j] == not_attempted(c.plan, i as int)[j - i]);
            }
            assert forall|j: int| 0 <= j < i implies executed(#[trigger] n.verdicts[j]) by {
                assert(n.verdicts[j] == c.verdicts[j]);
            }
            assert(stops_at(n, i as int));
        },
        _ => {},
    }
}

/// What is bound has no part in whether a context is consistent.
pub proof fn lemma_bound_consistent(c: ContextView, variables: Map<Seq<u8>, Seq<u8>>)
    requires
        consistent(c),
    ensures
        consistent(ContextView { variables, ..c }),
{
    let n = ContextView { variables, ..c };
    match c.state {
        RunState::Failed => {
            if c.parse_error is None {
                let k = choose|k: int| breaks_at(c, k);
                assert(breaks_at(n, k));
            }
        },
        RunState::Cancelled => {
            let k = choose|k: int| stops_at(c, k);
            assert(stops_at(n, k));
        },
        _ => {},
    }
}

/// Replaying outcomes keeps a context consistent.
pub proof fn lemma_replayed_consistent(c: ContextView, outcomes: Seq<OutcomeView>, from: int)
    requires
        consistent(c),
    ensures
        consistent(replayed(c, outcomes, from)),
    decreases outcomes.len() - from,
{
    if c.state is Running && 0 <= from < outcomes.len() {
        lemma_recorded_consistent(c, outcomes[from]);
        lemma_replayed_consistent(recorded(c, outcomes[from]), outcomes, from + 1);
    }
}

/// A failed assertion does not end a run. When a response comes in time
/// for step `i`, the step gets its verdict, passed or failed, and the run
/// goes on to the next step as if every assertion had held: it waits for
/// that step's outcome if the step resolves, and is completed if there is
/// no further step.
pub proof fn lemma_failed_assertion_goes_on(c: ContextView, response: ResponseView)
    requires
        consistent(c),
        c.state is Running,
        response.elapsed_ms <= c.plan[c.state->Running_0 as int].request.timeout_ms,
    ensures
        ({
            let i = c.state->Running_0 as int;
            let step = c.pending->0;
            let n = recorded(c, OutcomeView::Response(response));
            let table = captured(c.variables, response.body, step.captures, 0);
            &&& n.verdicts.len() > i
            &&& n.verdicts[i] == judged_verdict(step, response)
            &&& executed(n.verdicts[i])
            &&& n.variables == table
            &&& i + 1 == c.plan.len() ==> n.state == RunState::Completed
            &&& i + 1 < c.plan.len() && resolved_step(c.plan[i + 1], table) is Ok ==> n.state
                == RunState::Running((i + 1) as usize) && n.pending == Some(
                resolved_step(c.plan[i + 1], table)->Ok_0,
            )
        }),
{
    let i = c.state->Running_0 as int;
    let step = c.pending->0;
    let n = recorded(c, OutcomeView::Response(response));
    let m = ContextView {
        variables: captured(c.variables, response.body, step.captures, 0),
        verdicts: c.verdicts.push(judged_verdict(step, response)),
        pending: None,
        ..c
    };
    assert(n == begun(m, i + 1));
    assert(m.verdicts[i] == judged_verdict(step, response));
}

/// A transport failure on a step that is not optional ends the run at
/// once: the step's verdict says that it could not be reached, every later
/// step has the verdict "not attempted", and no outcome that is handed in
/// afterwards changes anything.
pub proof fn lemma_transport_failure_ends_run(
    c: ContextView,
    e: TransportFault,
    later: Seq<OutcomeView>,
    from: int,
)
    requires
        consistent(c),
        c.state is Running,
        !c.plan[c.state->Running_0 as int].optional,
    ensures
        ({
            let k = c.state->Running_0 as int;
            let n = recorded(c, OutcomeView::Failure(e));
            &&& n.state == RunState::Failed
            &&& n.verdicts.len() == c.plan.len()
            &&& n.verdicts[k] == failed_verdict(c.pending->0, e)
            &&& n.verdicts[k].status == StepStatus::Unreachable
            &&& forall|j: int|
                k < j < c.plan.len() ==> (#[trigger] n.verdicts[j]).status
                    == StepStatus::NotAttempted
            &&& replayed(n, later, from) == n
            &&& verdict_of(n).steps == n.verdicts
            &&& verdict_of(n).outcome == FileOutcome::Aborted
        }),
{
    let k = c.state->Running_0 as int;
    let n = recorded(c, OutcomeView::Failure(e));
    lemma_not_attempted(c.plan, k + 1);
    assert forall|j: int| k < j < c.plan.len() implies (#[trigger] n.verdicts[j]).status
        == StepStatus::NotAttempted by {
        assert(n.verdicts[j] == not_attempted(c.plan, k + 1)[j - (k + 1)]);
    }
    assert(n.verdicts[k] == failed_verdict(c.pending->0, e));
}

/// A plan without placeholders whose every request brings a response in
/// time runs to its end, whatever the assertions say: the verdict has one
/// record for each step, that of judging the step's response, and none says
/// "not attempted".
pub proof fn lemma_plain_plan_runs_to_end(
    file: Seq<u8>,
    plan: Seq<StepView>,
    responses: Seq<ResponseView>,
)
    requires
        plan.len() <= usize::MAX,
        responses.len() == plan.len(),
        forall|i: int| 0 <= i < plan.len() ==> plain_step(#[trigger] plan[i]),
        forall|i: int|
            0 <= i < plan.len() ==> (#[trigger] responses[i]).elapsed_ms
                <= plan[i].request.timeout_ms,
    ensures
        ({
            let outcomes = Seq::new(responses.len(), |i: int| OutcomeView::Response(responses[i]));
            let v = verdict_of(replayed(started(planned_context(file, plan)), outcomes, 0));
            &&& v.steps.len() == plan.len()
            &&& forall|i: int|
                0 <= i < plan.len() ==> #[trigger] v.steps[i] == judged_verdict(
                    plan[i],
                    responses[i],
                )
            &&& v.outcome == FileOutcome::Passed || v.outcome == FileOutcome::Failed
        }),
{
    let outcomes = Seq::new(responses.len(), |i: int| OutcomeView::Response(responses[i]));
    let c = planned_context(file, plan);
    lemma_plain_run_from(begun(c, 0), c, responses, outcomes, 0);
}

proof fn lemma_plain_run_from(
    b: ContextView,
    c: ContextView,
    responses: Seq<ResponseView>,
    outcomes: Seq<OutcomeView>,
    i: int,
)
    requires
        0 <= i <= c.plan.len(),
        c.plan.len() <= usize::MAX,
        b == begun(c, i),
        c.verdicts.len() == i,
        forall|j: int|
            0 <= j < i ==> #[trigger] c.verdicts[j] == judged_verdict(c.plan[j], responses[j]),
        responses.len() == c.plan.len(),
        outcomes == Seq::new(responses.len(), |j: int| OutcomeView::Response(responses[j])),
        forall|j: int| 0 <= j < c.plan.len() ==> plain_step(#[trigger] c.plan[j]),
        forall|j: int|
            0 <= j < c.plan.len() ==> (#[trigger] responses[j]).elapsed_ms
                <= c.plan[j].request.timeout_ms,
    ensures
        ({
            let f = replayed(b, outcomes, i);
            &&& f.state == RunState::Completed
            &&& f.verdicts.len() == c.plan.len()
            &&& f.plan == c.plan
            &&& forall|j: int|
                0 <= j < c.plan.len() ==> #[trigger] f.verdicts[j] == judged_verdict(
                    c.plan[j],
                    responses[j],
                )
        }),
    decreases c.plan.len() - i,
{
    if i < c.plan.len() {
        lemma_plain_step_unchanged(c.plan[i], c.variables);
        let step = c.plan[i];
        assert(b.state == RunState::Running(i as usize));
        assert(b.pending == Some(step));
        let response = responses[i];
        assert(outcomes[i] == OutcomeView::Response(response));
        assert(settled(outcomes[i], step.request.timeout_ms) == outcomes[i]);
        let m = ContextView {
            variables: captured(b.variables, response.body, step.captures, 0),
            verdicts: b.verdicts.push(judged_verdict(step, response)),
            pending: None,
            ..b
        };
        assert(recorded(b, outcomes[i]) == begun(m, i + 1));
        assert forall|j: int| 0 <= j < i + 1 implies #[trigger] m.verdicts[j] == judged_verdict(
            m.plan[j],
            responses[j],
        ) by {
            if j < i {
                assert(m.verdicts[j] == c.verdicts[j]);
            }
        }
        lemma_plain_run_from(begun(m, i + 1), m, responses, outcomes, i + 1);
    }
}

/// A fresh context is consistent.
pub proof fn lemma_fresh_consistent(c: ContextView)
    requires
        c.state == RunState::Pending,
        c.verdicts.len() == 0,
        c.pending is None,
        c.parse_error is None,
        c.plan.len() <= usize::MAX,
    ensures
        consistent(c),
{
}

/// What a verdict says when the time that the step took is left out.
pub struct Shape {
    pub name: Seq<u8>,
    pub status: StepStatus,
    pub results: Seq<AssertionResultView>,
    pub diagnostic: Seq<u8>,
    pub request: Option<RequestView>,
}

/// The verdict without its times.
pub open spec fn shape(v: StepVerdictView) -> Shape {
    Shape {
        name: v.name,
        status: v.status,
        results: v.results,
        diagnostic: v.diagnostic,
        request: v.request,
    }
}

/// The verdicts without their times, in order.
pub open spec fn shapes(verdicts: Seq<StepVerdictView>) -> Seq<Shape> {
    Seq::new(verdicts.len(), |i: int| shape(verdicts[i]))
}

/// The two outcomes differ at most in the time that they took.
pub open spec fn same_but_time(a: OutcomeView, b: OutcomeView) -> bool {
    match a {
        OutcomeView::Response(x) => b matches OutcomeView::Response(y) && x.status == y.status
            && x.headers == y.headers && x.body == y.body,
        OutcomeView::Failure(e) => b == a,
    }
}

/// No assertion of the step is about time.
pub open spec fn timeless(step: StepView) -> bool {
    forall|j: int|
        0 <= j < step.asserts.len() ==> (#[trigger] step.asserts[j]).kind != AssertionKind::MaxTime
}

/// Each response of the recording came within the time that its step
/// allows; outcome `i` is that of step `i`.
pub open spec fn in_time(plan: Seq<StepView>, outcomes: Seq<OutcomeView>) -> bool {
    forall|i: int|
        0 <= i < plan.len() && i < outcomes.len() ==> ((#[trigger] outcomes[i]) matches OutcomeView::Response(
            r,
        ) ==> r.elapsed_ms <= plan[i].request.timeout_ms)
}

/// The two contexts differ at most in the times that their verdicts
/// record.
pub open spec fn alike(x: ContextView, y: ContextView) -> bool {
    &&& x.file == y.file
    &&& x.plan == y.plan
    &&& x.parse_error == y.parse_error
    &&& x.variables == y.variables
    &&& x.state == y.state
    &&& x.pending == y.pending
    &&& shapes(x.verdicts) == shapes(y.verdicts)
}

proof fn lemma_shapes_extend(
    xs: Seq<StepVerdictView>,
    ys: Seq<StepVerdictView>,
    v: StepVerdictView,
    w: StepVerdictView,
    t: Seq<StepVerdictView>,
)
    requires
        shapes(xs) == shapes(ys),
        shape(v) == shape(w),
    ensures
        shapes(xs.push(v)) == shapes(ys.push(w)),
        shapes(xs + t) == shapes(ys + t),
        shapes(xs.push(v) + t) == shapes(ys.push(w) + t),
{
    assert(xs.len() == shapes(xs).len() && ys.len() == shapes(ys).len());
    assert forall|j: int| 0 <= j < xs.len() implies shape(xs[j]) == shape(ys[j]) by {
        assert(shapes(xs)[j] == shape(xs[j]));
        assert(shapes(ys)[j] == shape(ys[j]));
    }
    assert(shapes(xs.push(v)) =~= shapes(ys.push(w)));
    assert(shapes(xs + t) =~= shapes(ys + t));
    assert(shapes(xs.push(v) + t) =~= shapes(ys.push(w) + t));
}

proof fn lemma_judged_alike(r1: ResponseView, r2: ResponseView, asserts: Seq<AssertionView>)
    requires
        r1.status == r2.status,
        r1.headers == r2.headers,
        r1.body == r2.body,
        forall|j: int|
            0 <= j < asserts.len() ==> (#[trigger] asserts[j]).kind != AssertionKind::MaxTime,
    ensures
        judged_all(r1, asserts) == judged_all(r2, asserts),
{
    assert forall|j: int| 0 <= j < asserts.len() implies judged(r1, asserts[j]) == judged(
        r2,
        asserts[j],
    ) by {
        assert(asserts[j].kind != AssertionKind::MaxTime);
    }
    assert(judged_all(r1, asserts) =~= judged_all(r2, asserts));
}

proof fn lemma_begun_alike(x: ContextView, y: ContextView, i: int)
    requires
        x.file == y.file,
        x.plan == y.plan,
        x.parse_error == y.parse_error,
        x.variables == y.variables,
        shapes(x.verdicts) == shapes(y.verdicts),
    ensures
        alike(begun(x, i), begun(y, i)),
{
    if 0 <= i < x.plan.len() {
        match resolved_step(x.plan[i], x.variables) {
            Ok(_) => {},
            Err(f) => {
                let v = unresolved_verdict(x.plan[i], f);
                lemma_shapes_extend(x.verdicts, y.verdicts, v, v, not_attempted(x.plan, i + 1));
            },
        }
    }
}

proof fn lemma_recorded_alike(x: ContextView, y: ContextView, a: OutcomeView, b: OutcomeView)
    requires
        consistent(x),
        alike(x, y),
        same_but_time(a, b),
        x.state matches RunState::Running(i) ==> {
            &&& timeless(x.plan[i as int])
            &&& a matches OutcomeView::Response(r) ==> r.elapsed_ms
                <= x.plan[i as int].request.timeout_ms
            &&& b matches OutcomeView::Response(r) ==> r.elapsed_ms
                <= x.plan[i as int].request.timeout_ms
        },
    ensures
        alike(recorded(x, a), recorded(y, b)),
{
    match (x.state, x.pending) {
        (RunState::Running(i), Some(step)) => {
            match a {
                OutcomeView::Response(r1) => {
                    let r2 = b->Response_0;
                    lemma_judged_alike(r1, r2, step.asserts);
                    let v = judged_verdict(step, r1);
                    let w = judged_verdict(step, r2);
                    lemma_shapes_extend(x.verdicts, y.verdicts, v, w, Seq::empty());
                    let m1 = ContextView {
                        variables: captured(x.variables, r1.body, step.captures, 0),
                        verdicts: x.verdicts.push(v),
                        pending: None,
                        ..x
                    };
                    let m2 = ContextView {
                        variables: captured(y.variables, r2.body, step.captures, 0),
                        verdicts: y.verdicts.push(w),
                        pending: None,
                        ..y
                    };
                    lemma_begun_alike(m1, m2, i + 1);
                },
                OutcomeView::Failure(e) => {
                    let v = failed_verdict(step, e);
                    lemma_shapes_extend(
                        x.verdicts,
                        y.verdicts,
                        v,
                        v,
                        not_attempted(x.plan, i + 1),
                    );
                    if step.optional {
                        let m1 = ContextView { verdicts: x.verdicts.push(v), pending: None, ..x };
                        let m2 = ContextView { verdicts: y.verdicts.push(v), pending: None, ..y };
                        lemma_begun_alike(m1, m2, i + 1);
                    }
                },
            }
        },
        _ => {},
    }
}

proof fn lemma_replayed_alike(
    x: ContextView,
    y: ContextView,
    a: Seq<OutcomeView>,
    b: Seq<OutcomeView>,
    from: int,
)
    requires
        consistent(x),
        alike(x, y),
        0 <= from,
        x.state matches RunState::Running(i) ==> i == from,
        a.len() == b.len(),
        forall|i: int| 0 <= i < a.len() ==> same_but_time(#[trigger] a[i], b[i]),
        forall|i: int| 0 <= i < x.plan.len() ==> timeless(#[trigger] x.plan[i]),
        in_time(x.plan, a),
        in_time(x.plan, b),
    ensures
        alike(replayed(x, a, from), replayed(y, b, from)),
    decreases a.len() - from,
{
    if x.state is Running && from < a.len() {
        assert(same_but_time(a[from], b[from]));
        assert(timeless(x.plan[from]));
        lemma_recorded_alike(x, y, a[from], b[from]);
        lemma_recorded_consistent(x, a[from]);
        lemma_replayed_alike(recorded(x, a[from]), recorded(y, b[from]), a, b, from + 1);
    }
}

proof fn lemma_verdict_alike(x: ContextView, y: ContextView)
    requires
        alike(x, y),
    ensures
        shapes(verdict_of(x).steps) == shapes(verdict_of(y).steps),
        verdict_of(x).outcome == verdict_of(y).outcome,
        verdict_of(x).parse_error == verdict_of(y).parse_error,
        verdict_of(x).file == verdict_of(y).file,
{
    let p = cancelled(x);
    let q = cancelled(y);
    match x.state {
        RunState::Pending => {
            let v = skipped_verdict(x.plan[0]);
            lemma_shapes_extend(x.verdicts, y.verdicts, v, v, not_attempted(x.plan, 0));
        },
        RunState::Running(i) => {
            let v = skipped_verdict(x.plan[0]);
            lemma_shapes_extend(x.verdicts, y.verdicts, v, v, not_attempted(x.plan, i as int));
        },
        _ => {},
    }
    assert(shapes(p.verdicts) == shapes(q.verdicts));
    assert(p.verdicts.len() == shapes(p.verdicts).len() && q.verdicts.len() == shapes(
        q.verdicts,
    ).len());
    assert forall|j: int| 0 <= j < p.verdicts.len() implies p.verdicts[j].status
        == q.verdicts[j].status by {
        assert(shapes(p.verdicts)[j] == shape(p.verdicts[j]));
        assert(shapes(q.verdicts)[j] == shape(q.verdicts[j]));
    }
}

/// Running a document twice gives the same verdict but for times. Where no
/// assertion of the plan is about time, two recordings that differ at most
/// in the times that their outcomes took, and in which every response came
/// within the time allowed, lead to verdicts with the same outcome and, step
/// by step, the same name, status, assertion results, diagnostic and
/// request.
pub proof fn lemma_rerun_alike(c: ContextView, a: Seq<OutcomeView>, b: Seq<OutcomeView>)
    requires
        consistent(c),
        c.state == RunState::Pending,
        a.len() == b.len(),
        forall|i: int| 0 <= i < a.len() ==> same_but_time(#[trigger] a[i], b[i]),
        forall|i: int| 0 <= i < started(c).plan.len() ==> timeless(#[trigger] started(c).plan[i]),
        in_time(started(c).plan, a),
        in_time(started(c).plan, b),
    ensures
        ({
            let va = verdict_of(replayed(started(c), a, 0));
            let vb = verdict_of(replayed(started(c), b, 0));
            &&& shapes(va.steps) == shapes(vb.steps)
            &&& va.outcome == vb.outcome
            &&& va.parse_error == vb.parse_error
            &&& va.file == vb.file
        }),
{
    let s = started(c);
    lemma_started_consistent(c);
    lemma_replayed_alike(s, s, a, b, 0);
    lemma_verdict_alike(replayed(s, a, 0), replayed(s, b, 0));
}

} // verus!

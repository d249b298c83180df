//! Running the plan of one document.
//!
//! The engine sends nothing itself. A run starts in `Pending`; `start` reads
//! the document and resolves the first step; the caller dispatches the
//! pending request and hands the outcome to `record`, which judges it, keeps
//! what the step captures and resolves the next step. A failed assertion is
//! recorded and the run goes on. A step that does not resolve, or a
//! transport failure on a step that is not optional, ends the run as
//! `Failed`, and the steps after it are recorded as not attempted.

use vstd::prelude::*;
use crate::body::{body_field, read_field, Leaf, LeafView};
use crate::laws::{
    consistent, lemma_bound_consistent, lemma_cancelled_consistent, lemma_fresh_consistent,
    lemma_recorded_consistent, lemma_started_consistent,
};
use crate::evaluator::{
    all_pass, all_passed, evaluate, judged_all, AssertionResult, AssertionResultView, Response,
    ResponseView,
};
use crate::model::{
    lemma_views_push, views, Capture, CaptureView, Plan, Request, RequestView, Step, StepView,
};
use crate::parser::{parse, parsed, ParseError, ParseFault, Warning, WarningView};
use crate::resolver::{resolve_step, resolved_step, ResolutionError, ResolutionFault};
use crate::text::{append, to_vec, word};
use crate::vars::VariableTable;

verus! {

/// How a request failed to bring a response.
#[derive(Debug, Clone, Copy, PartialEq, Eq, Structural)]
pub enum TransportKind {
    Timeout,
    Connection,
    Dns,
    Tls,
    Protocol,
}

/// A failure below the level of responses: there is nothing to judge.
#[derive(Debug, Clone, PartialEq, Eq)]
pub struct TransportError {
    pub kind: TransportKind,
    pub message: Vec<u8>,
}

/// The mathematical value of a `TransportError`.
pub struct TransportFault {
    pub kind: TransportKind,
    pub message: Seq<u8>,
}

impl View for TransportError {
    type V = TransportFault;

    open spec fn view(&self) -> TransportFault {
        TransportFault { kind: self.kind, message: self.message@ }
    }
}

/// What dispatching a request led to.
#[derive(Debug, Clone, PartialEq, Eq)]
pub enum Outcome {
    Response(Response),
    Failure(TransportError),
}

/// The mathematical value of an `Outcome`.
pub enum OutcomeView {
    Response(ResponseView),
    Failure(TransportFault),
}

impl View for Outcome {
    type V = OutcomeView;

    open spec fn view(&self) -> OutcomeView {
        match self {
            Outcome::Response(r) => OutcomeView::Response(r@),
            Outcome::Failure(e) => OutcomeView::Failure(e@),
        }
    }
}

/// How a step ended.
#[derive(Debug, Clone, Copy, PartialEq, Eq, Structural)]
pub enum StepStatus {
    /// A response came and met every assertion.
    Passed,
    /// A response came and some assertion failed.
    Failed,
    /// A placeholder of the step could not be resolved.
    Unresolved,
    /// No response came.
    Unreachable,
    /// No response came, and the step is optional.
    Tolerated,
    /// The run ended before the step.
    NotAttempted,
}

/// The record of one step.
#[derive(Debug, Clone, PartialEq, Eq)]
pub struct StepVerdict {
    pub name: Vec<u8>,
    pub status: StepStatus,
    pub results: Vec<AssertionResult>,
    pub diagnostic: Vec<u8>,
    pub elapsed_ms: u64,
    pub request: Option<Request>,
    pub response: Option<Response>,
}

/// The mathematical value of a `StepVerdict`.
pub struct StepVerdictView {
    pub name: Seq<u8>,
    pub status: StepStatus,
    pub results: Seq<AssertionResultView>,
    pub diagnostic: Seq<u8>,
    pub elapsed_ms: u64,
    pub request: Option<RequestView>,
    pub response: Option<ResponseView>,
}

impl View for StepVerdict {
    type V = StepVerdictView;

    open spec fn view(&self) -> StepVerdictView {
        StepVerdictView {
            name: self.name@,
            status: self.status,
            results: views(self.results@),
            diagnostic: self.diagnostic@,
            elapsed_ms: self.elapsed_ms,
            request: match self.request {
                Some(r) => Some(r@),
                None => None,
            },
            response: match self.response {
                Some(r) => Some(r@),
                None => None,
            },
        }
    }
}

/// Where a run stands.
#[derive(Debug, Clone, Copy, PartialEq, Eq, Structural)]
pub enum RunState {
    /// Nothing was done yet.
    Pending,
    /// The step with this index is resolved and waits for its outcome.
    Running(usize),
    /// Every step was attempted.
    Completed,
    /// The document could not be read, or a step could not be executed.
    Failed,
    /// The run was stopped between two steps.
    Cancelled,
}

/// What the caller is to do next.
#[derive(Debug, Clone, Copy, PartialEq, Eq, Structural)]
pub enum Action {
    /// Dispatch the pending request and record its outcome.
    Dispatch,
    /// Nothing: the run is over.
    Finished,
}

/// The verdict on a document.
#[derive(Debug, Clone, Copy, PartialEq, Eq, Structural)]
pub enum FileOutcome {
    /// Every step was attempted, and each passed or was tolerated.
    Passed,
    /// Every step was attempted, and some assertion failed.
    Failed,
    /// A step could not be executed, and the run ended there.
    Aborted,
    /// The document could not be read.
    ParseFailed,
    /// The run was stopped before its end.
    Cancelled,
}

/// The verdict on one document with the record of each of its steps.
#[derive(Debug, Clone, PartialEq, Eq)]
pub struct FileVerdict {
    pub file: Vec<u8>,
    pub outcome: FileOutcome,
    pub steps: Vec<StepVerdict>,
    pub parse_error: Option<ParseError>,
}

/// The mathematical value of a `FileVerdict`.
pub struct FileVerdictView {
    pub file: Seq<u8>,
    pub outcome: FileOutcome,
    pub steps: Seq<StepVerdictView>,
    pub parse_error: Option<ParseFault>,
}

impl View for FileVerdict {
    type V = FileVerdictView;

    open spec fn view(&self) -> FileVerdictView {
        FileVerdictView {
            file: self.file@,
            outcome: self.outcome,
            steps: views(self.steps@),
            parse_error: match self.parse_error {
                Some(e) => Some(e@),
                None => None,
            },
        }
    }
}

/// One document and the state of its run.
pub struct TestContext {
    file: Vec<u8>,
    source: Vec<u8>,
    loaded: bool,
    plan: Plan,
    warnings: Vec<Warning>,
    parse_error: Option<ParseError>,
    variables: VariableTable,
    verdicts: Vec<StepVerdict>,
    state: RunState,
    pending: Option<Step>,
}

/// The mathematical value of a `TestContext`.
pub struct ContextView {
    pub file: Seq<u8>,
    pub source: Seq<u8>,
    pub loaded: bool,
    pub plan: Seq<StepView>,
    pub warnings: Seq<WarningView>,
    pub parse_error: Option<ParseFault>,
    pub variables: Map<Seq<u8>, Seq<u8>>,
    pub verdicts: Seq<StepVerdictView>,
    pub state: RunState,
    pub pending: Option<StepView>,
}

impl View for TestContext {
    type V = ContextView;

    closed spec fn view(&self) -> ContextView {
        ContextView {
            file: self.file@,
            source: self.source@,
            loaded: self.loaded,
            plan: self.plan@,
            warnings: views(self.warnings@),
            parse_error: match self.parse_error {
                Some(e) => Some(e@),
                None => None,
            },
            variables: self.variables@,
            verdicts: views(self.verdicts@),
            state: self.state,
            pending: match self.pending {
                Some(s) => Some(s@),
                None => None,
            },
        }
    }
}

/// A context for `source`, found at `file`, with nothing read and nothing
/// bound.
pub open spec fn fresh_context(file: Seq<u8>, source: Seq<u8>) -> ContextView {
    ContextView {
        file,
        source,
        loaded: false,
        plan: Seq::empty(),
        warnings: Seq::empty(),
        parse_error: None,
        variables: Map::empty(),
        verdicts: Seq::empty(),
        state: RunState::Pending,
        pending: None,
    }
}

/// A context for a plan that was made without a document.
pub open spec fn planned_context(file: Seq<u8>, plan: Seq<StepView>) -> ContextView {
    ContextView { loaded: true, plan, ..fresh_context(file, Seq::empty()) }
}

/// What a resolution fault reads like in a verdict.
pub open spec fn fault_text(f: ResolutionFault) -> Seq<u8> {
    match f {
        ResolutionFault::Unbound { name } => word("unbound variable: ") + name,
        ResolutionFault::TooDeep { name } => word("placeholders nested too deep: ") + name,
    }
}

/// The verdict on a step that did not resolve.
pub open spec fn unresolved_verdict(step: StepView, f: ResolutionFault) -> StepVerdictView {
    StepVerdictView {
        name: step.name,
        status: StepStatus::Unresolved,
        results: Seq::empty(),
        diagnostic: fault_text(f),
        elapsed_ms: 0,
        request: None,
        response: None,
    }
}

/// The verdict on a step that the run did not reach.
pub open spec fn skipped_verdict(step: StepView) -> StepVerdictView {
    StepVerdictView {
        name: step.name,
        status: StepStatus::NotAttempted,
        results: Seq::empty(),
        diagnostic: word("not attempted"),
        elapsed_ms: 0,
        request: None,
        response: None,
    }
}

/// The verdict on a step that brought a response.
pub open spec fn judged_verdict(step: StepView, response: ResponseView) -> StepVerdictView {
    let results = judged_all(response, step.asserts);
    StepVerdictView {
        name: step.name,
        status: if all_passed(results) {
            StepStatus::Passed
        } else {
            StepStatus::Failed
        },
        results,
        diagnostic: if all_passed(results) {
            Seq::empty()
        } else {
            word("assertion failed")
        },
        elapsed_ms: response.elapsed_ms,
        request: Some(step.request),
        response: Some(response),
    }
}

/// The verdict on a step that brought no response.
pub open spec fn failed_verdict(step: StepView, e: TransportFault) -> StepVerdictView {
    StepVerdictView {
        name: step.name,
        status: if step.optional {
            StepStatus::Tolerated
        } else {
            StepStatus::Unreachable
        },
        results: Seq::empty(),
        diagnostic: word("transport failure: ") + e.message,
        elapsed_ms: 0,
        request: Some(step.request),
        response: None,
    }
}

/// A verdict of "not attempted" for each step of the plan from index `from`
/// on.
pub open spec fn not_attempted(plan: Seq<StepView>, from: int) -> Seq<StepVerdictView>
    decreases plan.len() - from,
{
    if from < 0 || from >= plan.len() {
        Seq::empty()
    } else {
        seq![skipped_verdict(plan[from])] + not_attempted(plan, from + 1)
    }
}

/// The table after the captures from index `from` on: each binds its name
/// to the body field at its path, where there is one, a later capture
/// replacing an earlier one of the same name.
pub open spec fn captured(
    table: Map<Seq<u8>, Seq<u8>>,
    body: Seq<LeafView>,
    captures: Seq<CaptureView>,
    from: int,
) -> Map<Seq<u8>, Seq<u8>>
    decreases captures.len() - from,
{
    if from < 0 || from >= captures.len() {
        table
    } else {
        let next = match body_field(body, captures[from].path) {
            Some(v) => table.insert(captures[from].name, v),
            None => table,
        };
        captured(next, body, captures, from + 1)
    }
}

/// An outcome as the run takes it: a response that took longer than the
/// request allows counts as a timeout.
pub open spec fn settled(outcome: OutcomeView, timeout_ms: u64) -> OutcomeView {
    match outcome {
        OutcomeView::Response(r) => if r.elapsed_ms > timeout_ms {
            OutcomeView::Failure(
                TransportFault {
                    kind: TransportKind::Timeout,
                    message: word("response exceeded the time allowed"),
                },
            )
        } else {
            outcome
        },
        OutcomeView::Failure(_) => outcome,
    }
}

/// The context as step `i` begins: past the last step the run is
/// `Completed`; a step that resolves waits for its outcome; a step that does
/// not resolve ends the run.
pub open spec fn begun(c: ContextView, i: int) -> ContextView {
    if i < 0 || i >= c.plan.len() {
        ContextView { state: RunState::Completed, pending: None, ..c }
    } else {
        match resolved_step(c.plan[i], c.variables) {
            Ok(step) => ContextView {
                state: RunState::Running(i as usize),
                pending: Some(step),
                ..c
            },
            Err(f) => ContextView {
                state: RunState::Failed,
                pending: None,
                verdicts: c.verdicts.push(unresolved_verdict(c.plan[i], f)) + not_attempted(
                    c.plan,
                    i + 1,
                ),
                ..c
            },
        }
    }
}

/// The context after `start`: a pending run reads its document, unless its
/// plan is there already, and begins the first step. A document that cannot
/// be read ends the run.
pub open spec fn started(c: ContextView) -> ContextView {
    if c.state != RunState::Pending {
        c
    } else if c.loaded {
        begun(c, 0)
    } else {
        match parsed(c.source) {
            Ok(p) => begun(ContextView { loaded: true, plan: p.plan, warnings: p.warnings, ..c }, 0),
            Err(f) => ContextView { state: RunState::Failed, parse_error: Some(f), ..c },
        }
    }
}

/// The context after the outcome of the pending step is recorded.
pub open spec fn recorded(c: ContextView, outcome: OutcomeView) -> ContextView {
    match (c.state, c.pending) {
        (RunState::Running(i), Some(step)) => if i >= c.plan.len() {
            c
        } else {
            match settled(outcome, step.request.timeout_ms) {
                OutcomeView::Response(response) => begun(
                    ContextView {
                        variables: captured(c.variables, response.body, step.captures, 0),
                        verdicts: c.verdicts.push(judged_verdict(step, response)),
                        pending: None,
                        ..c
                    },
                    i + 1,
                ),
                OutcomeView::Failure(e) => if step.optional {
                    begun(
                        ContextView {
                            verdicts: c.verdicts.push(failed_verdict(step, e)),
                            pending: None,
                            ..c
                        },
                        i + 1,
                    )
                } else {
                    ContextView {
                        state: RunState::Failed,
                        pending: None,
                        verdicts: c.verdicts.push(failed_verdict(step, e)) + not_attempted(
                            c.plan,
                            i + 1,
                        ),
                        ..c
                    }
                },
            }
        },
        _ => c,
    }
}

/// The context after the run is stopped: the pending step and those after
/// it are not attempted. A run that is over stays as it is.
pub open spec fn cancelled(c: ContextView) -> ContextView {
    match c.state {
        RunState::Pending => ContextView {
            state: RunState::Cancelled,
            pending: None,
            verdicts: c.verdicts + not_attempted(c.plan, 0),
            ..c
        },
        RunState::Running(i) => ContextView {
            state: RunState::Cancelled,
            pending: None,
            verdicts: c.verdicts + not_attempted(c.plan, i as int),
            ..c
        },
        _ => c,
    }
}

/// What the caller of a run in this state is to do.
pub open spec fn action_of(c: ContextView) -> Action {
    if c.state is Running {
        Action::Dispatch
    } else {
        Action::Finished
    }
}

/// The step counts as passed.
pub open spec fn acceptable(v: StepVerdictView) -> bool {
    v.status == StepStatus::Passed || v.status == StepStatus::Tolerated
}

/// The verdict on a run that is over: passed if and only if every step
/// passed or was tolerated.
pub open spec fn outcome_of(c: ContextView) -> FileOutcome {
    match c.state {
        RunState::Completed => if forall|i: int|
            0 <= i < c.verdicts.len() ==> acceptable(#[trigger] c.verdicts[i]) {
            FileOutcome::Passed
        } else {
            FileOutcome::Failed
        },
        RunState::Failed => if c.parse_error is Some {
            FileOutcome::ParseFailed
        } else {
            FileOutcome::Aborted
        },
        _ => FileOutcome::Cancelled,
    }
}

/// The verdict that a context gives when it is done with: a run that is not
/// over counts as stopped there.
pub open spec fn verdict_of(c: ContextView) -> FileVerdictView {
    let last = cancelled(c);
    FileVerdictView {
        file: last.file,
        outcome: outcome_of(last),
        steps: last.verdicts,
        parse_error: last.parse_error,
    }
}

/// The context after the outcomes from index `from` on are recorded one
/// after the other, for as long as the run waits for one.
pub open spec fn replayed(c: ContextView, outcomes: Seq<OutcomeView>, from: int) -> ContextView
    decreases outcomes.len() - from,
{
    if c.state is Running && 0 <= from < outcomes.len() {
        replayed(recorded(c, outcomes[from]), outcomes, from + 1)
    } else {
        c
    }
}

fn unresolved(step: &Step, e: &ResolutionError) -> (v: StepVerdict)
    ensures
        v@ == unresolved_verdict(step@, e@),
{
    let diagnostic = match e {
        ResolutionError::Unbound { name } => {
            let mut d = to_vec("unbound variable: ".as_bytes());
            append(&mut d, name.as_slice());
            d
        },
        ResolutionError::TooDeep { name } => {
            let mut d = to_vec("placeholders nested too deep: ".as_bytes());
            append(&mut d, name.as_slice());
            d
        },
    };
    let v = StepVerdict {
        name: to_vec(step.name.as_slice()),
        status: StepStatus::Unresolved,
        results: Vec::new(),
        diagnostic,
        elapsed_ms: 0,
        request: None,
        response: None,
    };
    assert(v@.results =~= Seq::<AssertionResultView>::empty());
    v
}

fn skipped(step: &Step) -> (v: StepVerdict)
    ensures
        v@ == skipped_verdict(step@),
{
    let v = StepVerdict {
        name: to_vec(step.name.as_slice()),
        status: StepStatus::NotAttempted,
        results: Vec::new(),
        diagnostic: to_vec("not attempted".as_bytes()),
        elapsed_ms: 0,
        request: None,
        response: None,
    };
    assert(v@.results =~= Seq::<AssertionResultView>::empty());
    v
}

fn fill_not_attempted(verdicts: &mut Vec<StepVerdict>, plan: &Plan, from: usize)
    ensures
        views(final(verdicts)@) == views(old(verdicts)@) + not_attempted(plan@, from as int),
{
    let mut k: usize = from;
    assert(views(verdicts@) + Seq::<StepVerdictView>::empty() =~= views(verdicts@));
    while k < plan.steps.len()
        invariant
            from <= k,
            views(old(verdicts)@) + not_attempted(plan@, from as int) == views(verdicts@)
                + not_attempted(plan@, k as int),
        decreases plan.steps.len() - k,
    {
        let v = skipped(&plan.steps[k]);
        proof {
            lemma_views_push(verdicts@, v);
            assert(plan@[k as int] == plan.steps@[k as int]@);
            assert(views(verdicts@) + (seq![v@] + not_attempted(plan@, k + 1)) =~= views(
                verdicts@,
            ).push(v@) + not_attempted(plan@, k + 1));
        }
        verdicts.push(v);
        k += 1;
    }
    assert(views(verdicts@) + Seq::<StepVerdictView>::empty() =~= views(verdicts@));
}

fn capture_all(table: &mut VariableTable, body: &Vec<Leaf>, captures: &Vec<Capture>)
    ensures
        final(table)@ == captured(old(table)@, views(body@), views(captures@), 0),
{
    let mut k: usize = 0;
    while k < captures.len()
        invariant
            k <= captures.len(),
            captured(old(table)@, views(body@), views(captures@), 0) == captured(
                table@,
                views(body@),
                views(captures@),
                k as int,
            ),
        decreases captures.len() - k,
    {
        assert(views(captures@)[k as int] == captures@[k as int]@);
        match read_field(body, captures[k].path.as_slice()) {
            Some(v) => {
                table.set(to_vec(captures[k].name.as_slice()), to_vec(v.as_slice()));
            },
            None => {},
        }
        k += 1;
    }
}

fn settle(outcome: Outcome, timeout_ms: u64) -> (r: Outcome)
    ensures
        r@ == settled(outcome@, timeout_ms),
{
    match outcome {
        Outcome::Response(response) => if response.elapsed_ms > timeout_ms {
            Outcome::Failure(
                TransportError {
                    kind: TransportKind::Timeout,
                    message: to_vec("response exceeded the time allowed".as_bytes()),
                },
            )
        } else {
            Outcome::Response(response)
        },
        Outcome::Failure(e) => Outcome::Failure(e),
    }
}

fn transport_verdict(name: Vec<u8>, request: Request, optional: bool, e: &TransportError) -> (v:
    StepVerdict)
    ensures
        v@.name == name@,
        v@.status == if optional {
            StepStatus::Tolerated
        } else {
            StepStatus::Unreachable
        },
        v@.results == Seq::<AssertionResultView>::empty(),
        v@.diagnostic == word("transport failure: ") + e@.message,
        v@.elapsed_ms == 0,
        v@.request == Some(request@),
        v@.response is None,
{
    let mut diagnostic = to_vec("transport failure: ".as_bytes());
    append(&mut diagnostic, e.message.as_slice());
    let v = StepVerdict {
        name,
        status: if optional {
            StepStatus::Tolerated
        } else {
            StepStatus::Unreachable
        },
        results: Vec::new(),
        diagnostic,
        elapsed_ms: 0,
        request: Some(request),
        response: None,
    };
    assert(v@.results =~= Seq::<AssertionResultView>::empty());
    v
}

impl TestContext {
    /// A context for the document `source`, found at `file`. Nothing is
    /// read yet, nothing is bound and there is no verdict.
    pub fn new(file: Vec<u8>, source: Vec<u8>) -> (c: TestContext)
        ensures
            c@ == fresh_context(file@, source@),
            consistent(c@),
    {
        let c = TestContext {
            file,
            source,
            loaded: false,
            plan: Plan { steps: Vec::new() },
            warnings: Vec::new(),
            parse_error: None,
            variables: VariableTable::new(),
            verdicts: Vec::new(),
            state: RunState::Pending,
            pending: None,
        };
        assert(c@.plan =~= Seq::<StepView>::empty());
        assert(c@.warnings =~= Seq::<WarningView>::empty());
        assert(c@.verdicts =~= Seq::<StepVerdictView>::empty());
        proof {
            lemma_fresh_consistent(c@);
        }
        c
    }

    /// A context for a plan that was made without a document; `file` only
    /// names it.
    pub fn with_plan(file: Vec<u8>, plan: Plan) -> (c: TestContext)
        ensures
            c@ == planned_context(file@, plan@),
            consistent(c@),
    {
        let steps: usize = plan.steps.len();
        let c = TestContext {
            file,
            source: Vec::new(),
            loaded: true,
            plan,
            warnings: Vec::new(),
            parse_error: None,
            variables: VariableTable::new(),
            verdicts: Vec::new(),
            state: RunState::Pending,
            pending: None,
        };
        assert(c@.source =~= Seq::<u8>::empty());
        assert(c@.warnings =~= Seq::<WarningView>::empty());
        assert(c@.verdicts =~= Seq::<StepVerdictView>::empty());
        proof {
            assert(c@.plan.len() == steps);
            lemma_fresh_consistent(c@);
        }
        c
    }

    /// Where the run stands.
    pub fn state(&self) -> (s: RunState)
        ensures
            s == self@.state,
    {
        self.state
    }

    /// The name under which the document was found.
    pub fn file(&self) -> (f: &Vec<u8>)
        ensures
            f@ == self@.file,
    {
        &self.file
    }

    /// The plan, as far as it is read.
    pub fn plan(&self) -> (p: &Plan)
        ensures
            p@ == self@.plan,
    {
        &self.plan
    }

    /// The warnings that reading the document gave.
    pub fn warnings(&self) -> (w: &Vec<Warning>)
        ensures
            views(w@) == self@.warnings,
    {
        &self.warnings
    }

    /// What is bound at this point of the run.
    pub fn variables(&self) -> (t: &VariableTable)
        ensures
            t@ == self@.variables,
    {
        &self.variables
    }

    /// The verdicts recorded so far.
    pub fn verdicts(&self) -> (v: &Vec<StepVerdict>)
        ensures
            views(v@) == self@.verdicts,
    {
        &self.verdicts
    }

    /// The resolved request that waits to be dispatched, if one does.
    pub fn pending_request(&self) -> (r: Option<&Request>)
        ensures
            match self@.pending {
                Some(step) => r matches Some(x) && x@ == step.request,
                None => r is None,
            },
    {
        match &self.pending {
            Some(step) => Some(&step.request),
            None => None,
        }
    }

    /// Binds `name` to `value` for the steps to come.
    pub fn bind(&mut self, name: Vec<u8>, value: Vec<u8>)
        ensures
            final(self)@ == (ContextView {
                variables: old(self)@.variables.insert(name@, value@),
                ..old(self)@
            }),
            consistent(old(self)@) ==> consistent(final(self)@),
    {
        proof {
            if consistent(old(self)@) {
                lemma_bound_consistent(old(self)@, old(self)@.variables.insert(name@, value@));
            }
        }
        self.variables.set(name, value);
    }

    fn action(&self) -> (a: Action)
        ensures
            a == action_of(self@),
    {
        match self.state {
            RunState::Running(_) => Action::Dispatch,
            _ => Action::Finished,
        }
    }

    fn begin(&mut self, i: usize)
        ensures
            final(self)@ == begun(old(self)@, i as int),
    {
        if i >= self.plan.steps.len() {
            self.state = RunState::Completed;
            self.pending = None;
        } else {
            assert(self.plan@[i as int] == self.plan.steps@[i as int]@);
            match resolve_step(&self.plan.steps[i], &self.variables) {
                Ok(step) => {
                    self.state = RunState::Running(i);
                    self.pending = Some(step);
                },
                Err(e) => {
                    let v = unresolved(&self.plan.steps[i], &e);
                    proof {
                        lemma_views_push(self.verdicts@, v);
                    }
                    self.verdicts.push(v);
                    fill_not_attempted(&mut self.verdicts, &self.plan, i + 1);
                    self.state = RunState::Failed;
                    self.pending = None;
                },
            }
        }
    }

    /// Starts a pending run: reads the document, unless the plan is there
    /// already, and resolves the first step.
    pub fn start(&mut self) -> (a: Action)
        ensures
            final(self)@ == started(old(self)@),
            a == action_of(final(self)@),
            consistent(old(self)@) ==> consistent(final(self)@),
    {
        proof {
            if consistent(old(self)@) {
                lemma_started_consistent(old(self)@);
            }
        }
        match self.state {
            RunState::Pending => {
                if self.loaded {
                    self.begin(0);
                } else {
                    match parse(self.source.as_slice()) {
                        Ok(p) => {
                            self.loaded = true;
                            self.plan = p.plan;
                            self.warnings = p.warnings;
                            self.begin(0);
                        },
                        Err(e) => {
                            self.state = RunState::Failed;
                            self.parse_error = Some(e);
                        },
                    }
                }
            },
            _ => {},
        }
        self.action()
    }

    /// Records the outcome of the pending step: judges a response against
    /// the step's assertions, all of them, keeps what the step captures,
    /// and resolves the next step. Where no step is pending nothing
    /// changes.
    pub fn record(&mut self, outcome: Outcome) -> (a: Action)
        ensures
            final(self)@ == recorded(old(self)@, outcome@),
            a == action_of(final(self)@),
            consistent(old(self)@) ==> consistent(final(self)@),
    {
        proof {
            if consistent(old(self)@) {
                lemma_recorded_consistent(old(self)@, outcome@);
            }
        }
        let i: usize = match self.state {
            RunState::Running(i) => i,
            _ => {
                return self.action();
            },
        };
        if self.pending.is_none() || i >= self.plan.steps.len() {
            return self.action();
        }
        let taken = self.pending.take();
        let Step { name, request, asserts, captures, optional } = taken.unwrap();
        match settle(outcome, request.timeout_ms) {
            Outcome::Response(response) => {
                let results = evaluate(&response, &asserts);
                let passed: bool = all_pass(&results);
                capture_all(&mut self.variables, &response.body, &captures);
                let v = StepVerdict {
                    name,
                    status: if passed {
                        StepStatus::Passed
                    } else {
                        StepStatus::Failed
                    },
                    results,
                    diagnostic: if passed {
                        Vec::new()
                    } else {
                        to_vec("assertion failed".as_bytes())
                    },
                    elapsed_ms: response.elapsed_ms,
                    request: Some(request),
                    response: Some(response),
                };
                proof {
                    lemma_views_push(self.verdicts@, v);
                }
                self.verdicts.push(v);
                self.begin(i + 1);
            },
            Outcome::Failure(e) => {
                let v = transport_verdict(name, request, optional, &e);
                proof {
                    lemma_views_push(self.verdicts@, v);
                }
                self.verdicts.push(v);
                if optional {
                    self.begin(i + 1);
                } else {
                    fill_not_attempted(&mut self.verdicts, &self.plan, i + 1);
                    self.state = RunState::Failed;
                }
            },
        }
        self.action()
    }

    /// Stops a run that is not over. The pending step is not dispatched;
    /// it and the steps after it are recorded as not attempted.
    pub fn cancel(&mut self)
        ensures
            final(self)@ == cancelled(old(self)@),
            consistent(old(self)@) ==> consistent(final(self)@),
    {
        proof {
            if consistent(old(self)@) {
                lemma_cancelled_consistent(old(self)@);
            }
        }
        match self.state {
            RunState::Pending => {
                fill_not_attempted(&mut self.verdicts, &self.plan, 0);
                self.state = RunState::Cancelled;
                self.pending = None;
            },
            RunState::Running(i) => {
                fill_not_attempted(&mut self.verdicts, &self.plan, i);
                self.state = RunState::Cancelled;
                self.pending = None;
            },
            _ => {},
        }
    }

    fn outcome(&self) -> (o: FileOutcome)
        ensures
            o == outcome_of(self@),
    {
        match self.state {
            RunState::Completed => {
                let mut k: usize = 0;
                while k < self.verdicts.len()
                    invariant
                        k <= self.verdicts.len(),
                        self.state == RunState::Completed,
                        forall|i: int| 0 <= i < k ==> acceptable(self.verdicts@[i]@),
                    decreases self.verdicts.len() - k,
                {
                    let status = self.verdicts[k].status;
                    if !(status == StepStatus::Passed || status == StepStatus::Tolerated) {
                        assert(self@.verdicts[k as int] == self.verdicts@[k as int]@);
                        assert(!acceptable(self@.verdicts[k as int]));
                        return FileOutcome::Failed;
                    }
                    k += 1;
                }
                assert forall|i: int| 0 <= i < self@.verdicts.len() implies acceptable(
                    #[trigger] self@.verdicts[i],
                ) by {
                    assert(acceptable(self.verdicts@[i]@));
                }
                FileOutcome::Passed
            },
            RunState::Failed => if self.parse_error.is_some() {
                FileOutcome::ParseFailed
            } else {
                FileOutcome::Aborted
            },
            _ => FileOutcome::Cancelled,
        }
    }

    /// Ends the use of the context and gives its verdict. A run that is not
    /// over is stopped first.
    pub fn finish(self) -> (v: FileVerdict)
        ensures
            v@ == verdict_of(self@),
    {
        let mut c = self;
        c.cancel();
        let outcome = c.outcome();
        let TestContext { file, verdicts, parse_error, .. } = c;
        FileVerdict { file, outcome, steps: verdicts, parse_error }
    }
}

/// Runs the document of `ctx` against recorded outcomes: the first request
/// dispatched meets the first outcome, the next the second, and so on. A
/// recording that ends before the run does leaves it stopped at that
/// point.
pub fn replay(ctx: TestContext, outcomes: Vec<Outcome>) -> (v: FileVerdict)
    ensures
        v@ == verdict_of(replayed(started(ctx@), views(outcomes@), 0)),
{
    let ghost all = views(outcomes@);
    let ghost first = started(ctx@);
    let mut ctx = ctx;
    let mut rest = outcomes;
    let mut action = ctx.start();
    let ghost mut used: int = 0;
    assert(views(rest@) =~= all.subrange(0, all.len() as int));
    while action == Action::Dispatch && rest.len() > 0
        invariant
            action == action_of(ctx@),
            used + rest.len() == all.len(),
            0 <= used,
            views(rest@) == all.subrange(used, all.len() as int),
            replayed(first, all, 0) == replayed(ctx@, all, used),
        decreases rest.len(),
    {
        let ghost before = rest@;
        let outcome = rest.remove(0);
        proof {
            assert(views(before)[0] == before[0]@);
            assert forall|j: int| 0 <= j < rest@.len() implies views(rest@)[j] == all[used + 1
                + j] by {
                assert(rest@[j] == before[j + 1]);
                assert(views(before)[j + 1] == before[j + 1]@);
            }
            assert(views(rest@) =~= all.subrange(used + 1, all.len() as int));
        }
        action = ctx.record(outcome);
        proof {
            used = used + 1;
        }
    }
    ctx.finish()
}

} // verus!

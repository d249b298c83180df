use testkit::body::{Leaf, Segment};
use testkit::evaluator::Response;
use testkit::model::{Assertion, AssertionKind, Capture, Header, Plan, Request, Step, DEFAULT_TIMEOUT_MS};
use testkit::parser::{ParseError, ParseErrorKind};
use testkit::run::{
    replay, Action, FileOutcome, Outcome, RunState, StepStatus, TestContext, TransportError,
    TransportKind,
};

fn status_is(code: u64) -> Assertion {
    Assertion { kind: AssertionKind::Status, subject: b"status".to_vec(), expected: vec![], bound: code }
}

fn step(name: &[u8], target: &[u8], asserts: Vec<Assertion>) -> Step {
    Step {
        name: name.to_vec(),
        request: Request {
            method: b"GET".to_vec(),
            target: target.to_vec(),
            headers: vec![],
            body: vec![],
            timeout_ms: DEFAULT_TIMEOUT_MS,
        },
        asserts,
        captures: vec![],
        optional: false,
    }
}

fn ok(status: u16) -> Outcome {
    Outcome::Response(Response { status, headers: vec![], body: vec![], elapsed_ms: 5 })
}

fn ok_with(status: u16, field: &[u8], value: &[u8], elapsed_ms: u64) -> Outcome {
    Outcome::Response(Response {
        status,
        headers: vec![],
        body: vec![Leaf { path: vec![Segment::Key(field.to_vec())], value: value.to_vec() }],
        elapsed_ms,
    })
}

fn refused() -> Outcome {
    Outcome::Failure(TransportError { kind: TransportKind::Connection, message: b"connection refused".to_vec() })
}

fn statuses(ctx_steps: &[testkit::run::StepVerdict]) -> Vec<StepStatus> {
    ctx_steps.iter().map(|v| v.status).collect()
}

#[test]
fn one_step_that_meets_its_assertion_passes() {
    let plan = Plan { steps: vec![step(b"ping", b"http://h/ping", vec![status_is(200)])] };
    let verdict = replay(TestContext::with_plan(b"mem".to_vec(), plan), vec![ok(200)]);
    assert_eq!(verdict.outcome, FileOutcome::Passed);
    assert_eq!(verdict.file, b"mem".to_vec());
    assert_eq!(verdict.parse_error, None);
    assert_eq!(verdict.steps.len(), 1);
    assert_eq!(verdict.steps[0].status, StepStatus::Passed);
    assert_eq!(verdict.steps[0].name, b"ping".to_vec());
    assert_eq!(verdict.steps[0].results.len(), 1);
    assert!(verdict.steps[0].results[0].passed);
    assert_eq!(verdict.steps[0].results[0].expected, b"200".to_vec());
    assert_eq!(verdict.steps[0].results[0].actual, Some(b"200".to_vec()));
    assert_eq!(verdict.steps[0].diagnostic, b"".to_vec());
    assert_eq!(verdict.steps[0].elapsed_ms, 5);
    assert_eq!(verdict.steps[0].request.as_ref().unwrap().target, b"http://h/ping".to_vec());
    assert_eq!(verdict.steps[0].response.as_ref().unwrap().status, 200);
}

#[test]
fn a_captured_value_reaches_the_next_step() {
    let mut login = step(b"login", b"http://h/login", vec![status_is(200)]);
    login.captures = vec![Capture { name: b"token".to_vec(), path: b"$.token".to_vec() }];
    let mut me = step(b"me", b"http://h/me", vec![]);
    me.request.headers = vec![Header { name: b"Authorization".to_vec(), value: b"${token}".to_vec() }];
    let mut ctx = TestContext::with_plan(b"mem".to_vec(), Plan { steps: vec![login, me] });
    assert_eq!(ctx.state(), RunState::Pending);
    assert_eq!(ctx.start(), Action::Dispatch);
    assert_eq!(ctx.state(), RunState::Running(0));
    assert_eq!(ctx.pending_request().unwrap().target, b"http://h/login".to_vec());
    assert_eq!(ctx.variables().get(b"token"), None);
    assert_eq!(ctx.record(ok_with(200, b"token", b"s3cr3t \xc3\xa9", 1)), Action::Dispatch);
    assert_eq!(ctx.state(), RunState::Running(1));
    assert_eq!(ctx.variables().get(b"token"), Some(&b"s3cr3t \xc3\xa9".to_vec()));
    assert_eq!(ctx.pending_request().unwrap().headers[0].value, b"s3cr3t \xc3\xa9".to_vec());
    assert_eq!(ctx.record(ok(200)), Action::Finished);
    assert_eq!(ctx.state(), RunState::Completed);
    assert!(ctx.pending_request().is_none());
    assert_eq!(ctx.finish().outcome, FileOutcome::Passed);
}

#[test]
fn captures_are_kept_when_assertions_fail() {
    let mut login = step(b"login", b"http://h/login", vec![status_is(200)]);
    login.captures = vec![Capture { name: b"token".to_vec(), path: b"$.token".to_vec() }];
    let me = step(b"me", b"http://h/${token}", vec![]);
    let verdict = replay(
        TestContext::with_plan(b"mem".to_vec(), Plan { steps: vec![login, me] }),
        vec![ok_with(500, b"token", b"t", 1), ok(200)],
    );
    assert_eq!(statuses(&verdict.steps), vec![StepStatus::Failed, StepStatus::Passed]);
    assert_eq!(verdict.steps[1].request.as_ref().unwrap().target, b"http://h/t".to_vec());
    assert_eq!(verdict.outcome, FileOutcome::Failed);
}

#[test]
fn a_missing_variable_fails_the_file() {
    let plan = Plan {
        steps: vec![
            step(b"first", b"http://h/a", vec![]),
            step(b"second", b"http://h/${missing}", vec![]),
            step(b"third", b"http://h/c", vec![]),
        ],
    };
    let mut ctx = TestContext::with_plan(b"mem".to_vec(), plan);
    assert_eq!(ctx.start(), Action::Dispatch);
    assert_eq!(ctx.record(ok(200)), Action::Finished);
    assert_eq!(ctx.state(), RunState::Failed);
    let verdict = ctx.finish();
    assert_eq!(verdict.outcome, FileOutcome::Aborted);
    assert_eq!(
        statuses(&verdict.steps),
        vec![StepStatus::Passed, StepStatus::Unresolved, StepStatus::NotAttempted]
    );
    assert_eq!(verdict.steps[1].diagnostic, b"unbound variable: missing".to_vec());
    assert_eq!(verdict.steps[1].request, None);
    assert_eq!(verdict.steps[2].diagnostic, b"not attempted".to_vec());
    assert_eq!(verdict.steps[2].name, b"third".to_vec());
}

#[test]
fn a_first_step_that_does_not_resolve_dispatches_nothing() {
    let plan = Plan { steps: vec![step(b"only", b"${missing}", vec![status_is(200)])] };
    let mut ctx = TestContext::with_plan(b"mem".to_vec(), plan);
    assert_eq!(ctx.start(), Action::Finished);
    assert!(ctx.pending_request().is_none());
    assert_eq!(ctx.verdicts().len(), 1);
    assert_eq!(ctx.finish().outcome, FileOutcome::Aborted);
}

#[test]
fn endless_nesting_is_reported_in_the_verdict() {
    let plan = Plan { steps: vec![step(b"only", b"${a}", vec![])] };
    let mut ctx = TestContext::with_plan(b"mem".to_vec(), plan);
    ctx.bind(b"a".to_vec(), b"${a}".to_vec());
    assert_eq!(ctx.start(), Action::Finished);
    assert_eq!(ctx.verdicts()[0].diagnostic, b"placeholders nested too deep: a".to_vec());
    assert_eq!(ctx.verdicts()[0].status, StepStatus::Unresolved);
}

#[test]
fn failed_assertions_do_not_stop_the_run() {
    let plan = Plan {
        steps: vec![
            step(b"a", b"http://h/a", vec![status_is(200)]),
            step(b"b", b"http://h/b", vec![status_is(200), status_is(201)]),
            step(b"c", b"http://h/c", vec![status_is(200)]),
            step(b"d", b"http://h/d", vec![]),
        ],
    };
    let verdict = replay(
        TestContext::with_plan(b"mem".to_vec(), plan),
        vec![ok(200), ok(404), ok(200), ok(500)],
    );
    assert_eq!(verdict.steps.len(), 4);
    assert_eq!(
        statuses(&verdict.steps),
        vec![StepStatus::Passed, StepStatus::Failed, StepStatus::Passed, StepStatus::Passed]
    );
    assert_eq!(verdict.steps[1].results.len(), 2);
    assert_eq!(verdict.steps[1].diagnostic, b"assertion failed".to_vec());
    assert_eq!(verdict.steps[1].results[0].actual, Some(b"404".to_vec()));
    assert_eq!(verdict.outcome, FileOutcome::Failed);
}

#[test]
fn a_transport_failure_ends_the_run() {
    let plan = Plan {
        steps: vec![
            step(b"a", b"http://h/a", vec![]),
            step(b"b", b"http://h/b", vec![]),
            step(b"c", b"http://h/c", vec![]),
            step(b"d", b"http://h/d", vec![]),
        ],
    };
    let mut ctx = TestContext::with_plan(b"mem".to_vec(), plan);
    assert_eq!(ctx.start(), Action::Dispatch);
    assert_eq!(ctx.record(ok(200)), Action::Dispatch);
    assert_eq!(ctx.record(refused()), Action::Finished);
    assert_eq!(ctx.state(), RunState::Failed);
    assert_eq!(ctx.record(ok(200)), Action::Finished);
    assert_eq!(ctx.start(), Action::Finished);
    let verdict = ctx.finish();
    assert_eq!(
        statuses(&verdict.steps),
        vec![StepStatus::Passed, StepStatus::Unreachable, StepStatus::NotAttempted, StepStatus::NotAttempted]
    );
    assert_eq!(verdict.steps[1].diagnostic, b"transport failure: connection refused".to_vec());
    assert_eq!(verdict.steps[1].response, None);
    assert_eq!(verdict.steps[1].request.as_ref().unwrap().target, b"http://h/b".to_vec());
    assert_eq!(verdict.outcome, FileOutcome::Aborted);
}

#[test]
fn a_transport_failure_on_an_optional_step_is_tolerated() {
    let mut probe = step(b"probe", b"http://down/", vec![status_is(200)]);
    probe.optional = true;
    let plan = Plan { steps: vec![probe, step(b"next", b"http://h/", vec![status_is(200)])] };
    let verdict = replay(TestContext::with_plan(b"mem".to_vec(), plan), vec![refused(), ok(200)]);
    assert_eq!(statuses(&verdict.steps), vec![StepStatus::Tolerated, StepStatus::Passed]);
    assert_eq!(verdict.steps[0].results.len(), 0);
    assert_eq!(verdict.outcome, FileOutcome::Passed);
}

#[test]
fn a_late_response_counts_as_a_timeout() {
    let mut slow = step(b"slow", b"http://h/", vec![status_is(200)]);
    slow.request.timeout_ms = 100;
    let plan = Plan { steps: vec![slow.clone(), slow.clone()] };
    let verdict = replay(
        TestContext::with_plan(b"mem".to_vec(), plan),
        vec![ok_with(200, b"a", b"b", 100), ok_with(200, b"a", b"b", 101)],
    );
    assert_eq!(statuses(&verdict.steps), vec![StepStatus::Passed, StepStatus::Unreachable]);
    assert_eq!(verdict.steps[1].diagnostic, b"transport failure: response exceeded the time allowed".to_vec());
    assert_eq!(verdict.steps[1].elapsed_ms, 0);
    assert_eq!(verdict.steps[0].elapsed_ms, 100);
}

#[test]
fn the_same_plan_and_outcomes_give_the_same_verdict() {
    let make = || {
        let mut login = step(b"login", b"http://h/login", vec![status_is(200)]);
        login.captures = vec![Capture { name: b"token".to_vec(), path: b"$.token".to_vec() }];
        let me = step(b"me", b"http://h/${token}", vec![status_is(204)]);
        TestContext::with_plan(b"mem".to_vec(), Plan { steps: vec![login, me] })
    };
    let first = replay(make(), vec![ok_with(200, b"token", b"t", 10), ok(200)]);
    let again = replay(make(), vec![ok_with(200, b"token", b"t", 10), ok(200)]);
    assert_eq!(first, again);
    let slower = replay(make(), vec![ok_with(200, b"token", b"t", 900), ok(200)]);
    assert_eq!(slower.outcome, first.outcome);
    assert_eq!(statuses(&slower.steps), statuses(&first.steps));
    for (a, b) in slower.steps.iter().zip(first.steps.iter()) {
        assert_eq!(a.results, b.results);
        assert_eq!(a.request, b.request);
        assert_eq!(a.diagnostic, b.diagnostic);
    }
    assert_ne!(slower.steps[0].elapsed_ms, first.steps[0].elapsed_ms);
}

#[test]
fn an_empty_plan_passes() {
    let mut ctx = TestContext::new(b"empty.tk.yaml".to_vec(), b"# nothing\n".to_vec());
    assert_eq!(ctx.start(), Action::Finished);
    assert_eq!(ctx.state(), RunState::Completed);
    let verdict = ctx.finish();
    assert_eq!(verdict.outcome, FileOutcome::Passed);
    assert!(verdict.steps.is_empty());
}

#[test]
fn a_fresh_context_holds_nothing() {
    let ctx = TestContext::new(b"a.tk.yaml".to_vec(), b"- method: GET\n  url: u\n".to_vec());
    assert_eq!(ctx.state(), RunState::Pending);
    assert_eq!(ctx.file(), &b"a.tk.yaml".to_vec());
    assert!(ctx.plan().steps.is_empty());
    assert!(ctx.verdicts().is_empty());
    assert!(ctx.warnings().is_empty());
    assert_eq!(ctx.variables().len(), 0);
    assert!(ctx.pending_request().is_none());
}

#[test]
fn starting_reads_the_document() {
    let source = b"owner: kay\n- name: ping\n  method: GET\n  url: http://h/ping\n  assert:\n    - status: 200\n".to_vec();
    let mut ctx = TestContext::new(b"ping.tk.yaml".to_vec(), source);
    assert_eq!(ctx.start(), Action::Dispatch);
    assert_eq!(ctx.plan().steps.len(), 1);
    assert_eq!(ctx.warnings().len(), 1);
    assert_eq!(ctx.pending_request().unwrap().method, b"GET".to_vec());
    assert_eq!(ctx.record(ok(200)), Action::Finished);
    let verdict = ctx.finish();
    assert_eq!(verdict.outcome, FileOutcome::Passed);
    assert_eq!(verdict.steps[0].name, b"ping".to_vec());
}

#[test]
fn a_document_that_cannot_be_read_fails_its_file() {
    let mut ctx = TestContext::new(b"bad.tk.yaml".to_vec(), b"- name: x\n  url: u\n".to_vec());
    assert_eq!(ctx.start(), Action::Finished);
    assert_eq!(ctx.state(), RunState::Failed);
    let verdict = ctx.finish();
    assert_eq!(verdict.outcome, FileOutcome::ParseFailed);
    assert!(verdict.steps.is_empty());
    assert_eq!(
        verdict.parse_error,
        Some(ParseError { line: 1, kind: ParseErrorKind::MissingField, key: b"method".to_vec() })
    );
}

#[test]
fn a_cancelled_run_keeps_what_it_has() {
    let plan = Plan {
        steps: vec![
            step(b"a", b"http://h/a", vec![]),
            step(b"b", b"http://h/b", vec![]),
            step(b"c", b"http://h/c", vec![]),
        ],
    };
    let mut ctx = TestContext::with_plan(b"mem".to_vec(), plan);
    ctx.start();
    ctx.record(ok(200));
    ctx.cancel();
    assert_eq!(ctx.state(), RunState::Cancelled);
    assert!(ctx.pending_request().is_none());
    assert_eq!(ctx.record(ok(200)), Action::Finished);
    ctx.cancel();
    let verdict = ctx.finish();
    assert_eq!(verdict.outcome, FileOutcome::Cancelled);
    assert_eq!(
        statuses(&verdict.steps),
        vec![StepStatus::Passed, StepStatus::NotAttempted, StepStatus::NotAttempted]
    );
}

#[test]
fn a_recording_that_ends_early_leaves_the_run_cancelled() {
    let plan = Plan { steps: vec![step(b"a", b"u", vec![]), step(b"b", b"u", vec![])] };
    let verdict = replay(TestContext::with_plan(b"mem".to_vec(), plan), vec![ok(200)]);
    assert_eq!(verdict.outcome, FileOutcome::Cancelled);
    assert_eq!(statuses(&verdict.steps), vec![StepStatus::Passed, StepStatus::NotAttempted]);
    let never = replay(
        TestContext::with_plan(b"mem".to_vec(), Plan { steps: vec![step(b"a", b"u", vec![])] }),
        vec![],
    );
    assert_eq!(never.outcome, FileOutcome::Cancelled);
    assert_eq!(statuses(&never.steps), vec![StepStatus::NotAttempted]);
}

#[test]
fn outcomes_beyond_the_plan_are_ignored() {
    let plan = Plan { steps: vec![step(b"a", b"u", vec![status_is(200)])] };
    let verdict = replay(TestContext::with_plan(b"mem".to_vec(), plan), vec![ok(200), ok(500), refused()]);
    assert_eq!(verdict.outcome, FileOutcome::Passed);
    assert_eq!(verdict.steps.len(), 1);
}

#[test]
fn a_capture_that_finds_nothing_binds_nothing() {
    let mut first = step(b"a", b"u", vec![]);
    first.captures = vec![
        Capture { name: b"x".to_vec(), path: b"$.absent".to_vec() },
        Capture { name: b"y".to_vec(), path: b"not a path".to_vec() },
        Capture { name: b"z".to_vec(), path: b"$.present".to_vec() },
        Capture { name: b"z".to_vec(), path: b"$.absent".to_vec() },
    ];
    let mut ctx = TestContext::with_plan(b"mem".to_vec(), Plan { steps: vec![first] });
    ctx.bind(b"x".to_vec(), b"before".to_vec());
    ctx.start();
    ctx.record(ok_with(200, b"present", b"v", 1));
    assert_eq!(ctx.variables().get(b"x"), Some(&b"before".to_vec()));
    assert_eq!(ctx.variables().get(b"y"), None);
    assert_eq!(ctx.variables().get(b"z"), Some(&b"v".to_vec()));
}

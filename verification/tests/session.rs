use testkit::evaluator::Response;
use testkit::run::{replay, FileOutcome, FileVerdict, Outcome, TestContext};
use testkit::session::{mode_for, Decision, Mode, Session};

fn ok(status: u16) -> Outcome {
    Outcome::Response(Response { status, headers: vec![], body: vec![], elapsed_ms: 1 })
}

fn run(file: &[u8], source: &[u8], outcomes: Vec<Outcome>) -> FileVerdict {
    replay(TestContext::new(file.to_vec(), source.to_vec()), outcomes)
}

const GOOD: &[u8] = b"- method: GET\n  url: http://h/\n  assert:\n    - status: 200\n";

#[test]
fn the_mode_follows_the_target() {
    assert_eq!(mode_for(true), Mode::SingleFile);
    assert_eq!(mode_for(false), Mode::DirectoryScan);
}

#[test]
fn a_scan_goes_on_after_a_document_that_cannot_be_read() {
    let mut session = Session::new(Mode::DirectoryScan);
    assert_eq!(session.mode(), Mode::DirectoryScan);
    assert!(!session.failed());
    assert_eq!(session.collect(run(b"1.tk.yaml", GOOD, vec![ok(200)])), Decision::Continue);
    assert_eq!(session.collect(run(b"2.tk.yaml", b"- method GET\n", vec![ok(200)])), Decision::Continue);
    assert_eq!(session.collect(run(b"3.tk.yaml", GOOD, vec![ok(200)])), Decision::Continue);
    let outcomes: Vec<FileOutcome> = session.verdicts().iter().map(|v| v.outcome).collect();
    assert_eq!(outcomes, vec![FileOutcome::Passed, FileOutcome::ParseFailed, FileOutcome::Passed]);
    assert_eq!(session.verdicts()[1].file, b"2.tk.yaml".to_vec());
    assert_eq!(session.verdicts()[1].parse_error.as_ref().unwrap().line, 1);
    assert_eq!(session.verdicts()[0].steps.len(), 1);
    assert_eq!(session.verdicts()[2].steps.len(), 1);
    assert!(session.failed());
}

#[test]
fn a_scan_goes_on_after_a_missing_variable() {
    let mut session = Session::new(Mode::DirectoryScan);
    let broken = b"- method: GET\n  url: http://h/${missing}\n";
    assert_eq!(session.collect(run(b"1.tk.yaml", broken, vec![ok(200)])), Decision::Continue);
    assert_eq!(session.collect(run(b"2.tk.yaml", GOOD, vec![ok(200)])), Decision::Continue);
    assert_eq!(session.verdicts()[0].outcome, FileOutcome::Aborted);
    assert_eq!(session.verdicts()[0].steps[0].diagnostic, b"unbound variable: missing".to_vec());
    assert_eq!(session.verdicts()[1].outcome, FileOutcome::Passed);
    assert!(session.failed());
}

#[test]
fn a_single_file_that_cannot_be_run_stops_the_invocation() {
    let mut session = Session::new(Mode::SingleFile);
    assert_eq!(session.collect(run(b"x.tk.yaml", b"nonsense\n", vec![])), Decision::Abort);
    assert!(session.failed());
    let mut session = Session::new(Mode::SingleFile);
    let broken = b"- method: GET\n  url: http://h/${missing}\n";
    assert_eq!(session.collect(run(b"x.tk.yaml", broken, vec![])), Decision::Abort);
    assert_eq!(session.verdicts().len(), 1);
}

#[test]
fn failed_assertions_fail_the_invocation_without_stopping_it() {
    let mut session = Session::new(Mode::SingleFile);
    assert_eq!(session.collect(run(b"x.tk.yaml", GOOD, vec![ok(500)])), Decision::Continue);
    assert_eq!(session.verdicts()[0].outcome, FileOutcome::Failed);
    assert!(session.failed());
}

#[test]
fn an_invocation_in_which_every_file_passes_does_not_fail() {
    let mut session = Session::new(Mode::DirectoryScan);
    session.collect(run(b"1.tk.yaml", GOOD, vec![ok(200)]));
    session.collect(run(b"2.tk.yaml", b"", vec![]));
    assert!(!session.failed());
    assert_eq!(session.verdicts().len(), 2);
}

use testkit::body::{Leaf, Segment};
use testkit::evaluator::{all_pass, evaluate, find_header, judge, AssertionResult, Response};
use testkit::model::{Assertion, AssertionKind, Header};

fn response() -> Response {
    Response {
        status: 200,
        headers: vec![
            Header { name: b"Content-Type".to_vec(), value: b"application/json".to_vec() },
            Header { name: b"ETag".to_vec(), value: b"v1".to_vec() },
            Header { name: b"etag".to_vec(), value: b"v2".to_vec() },
        ],
        body: vec![
            Leaf { path: vec![Segment::Key(b"user".to_vec()), Segment::Key(b"name".to_vec())], value: b"kay".to_vec() },
            Leaf { path: vec![Segment::Key(b"count".to_vec())], value: b"3".to_vec() },
        ],
        elapsed_ms: 120,
    }
}

fn assertion(kind: AssertionKind, subject: &[u8], expected: &[u8], bound: u64) -> Assertion {
    Assertion { kind, subject: subject.to_vec(), expected: expected.to_vec(), bound }
}

#[test]
fn headers_are_found_without_regard_to_case() {
    let r = response();
    assert_eq!(find_header(&r.headers, b"content-type"), Some(&b"application/json".to_vec()));
    assert_eq!(find_header(&r.headers, b"ETAG"), Some(&b"v1".to_vec()));
    assert_eq!(find_header(&r.headers, b"Accept"), None);
}

#[test]
fn a_status_assertion_compares_codes() {
    let r = response();
    assert_eq!(
        judge(&r, &assertion(AssertionKind::Status, b"status", b"", 200)),
        AssertionResult {
            kind: AssertionKind::Status,
            subject: b"status".to_vec(),
            expected: b"200".to_vec(),
            actual: Some(b"200".to_vec()),
            passed: true,
        }
    );
    assert_eq!(
        judge(&r, &assertion(AssertionKind::Status, b"status", b"", 404)),
        AssertionResult {
            kind: AssertionKind::Status,
            subject: b"status".to_vec(),
            expected: b"404".to_vec(),
            actual: Some(b"200".to_vec()),
            passed: false,
        }
    );
}

#[test]
fn header_assertions_say_what_was_found() {
    let r = response();
    let present = judge(&r, &assertion(AssertionKind::HeaderPresent, b"etag", b"", 0));
    assert!(present.passed);
    assert_eq!(present.actual, Some(b"v1".to_vec()));
    let absent = judge(&r, &assertion(AssertionKind::HeaderPresent, b"x-none", b"", 0));
    assert!(!absent.passed);
    assert_eq!(absent.actual, None);
    let equal = judge(&r, &assertion(AssertionKind::HeaderEquals, b"content-type", b"application/json", 0));
    assert!(equal.passed);
    let unequal = judge(&r, &assertion(AssertionKind::HeaderEquals, b"content-type", b"text/html", 0));
    assert_eq!(
        unequal,
        AssertionResult {
            kind: AssertionKind::HeaderEquals,
            subject: b"content-type".to_vec(),
            expected: b"text/html".to_vec(),
            actual: Some(b"application/json".to_vec()),
            passed: false,
        }
    );
    let missing = judge(&r, &assertion(AssertionKind::HeaderEquals, b"x-none", b"", 0));
    assert!(!missing.passed);
}

#[test]
fn body_assertions_follow_the_path() {
    let r = response();
    assert!(judge(&r, &assertion(AssertionKind::BodyEquals, b"$.user.name", b"kay", 0)).passed);
    assert!(!judge(&r, &assertion(AssertionKind::BodyEquals, b"$.user.name", b"Kay", 0)).passed);
    assert!(judge(&r, &assertion(AssertionKind::BodyMatches, b"$.user.name", b"k*", 0)).passed);
    assert!(!judge(&r, &assertion(AssertionKind::BodyMatches, b"$.user.name", b"j*", 0)).passed);
    let nowhere = judge(&r, &assertion(AssertionKind::BodyEquals, b"$.user.age", b"", 0));
    assert!(!nowhere.passed);
    assert_eq!(nowhere.actual, None);
    let no_path = judge(&r, &assertion(AssertionKind::BodyMatches, b"user.name", b"*", 0));
    assert!(!no_path.passed);
    assert_eq!(no_path.actual, None);
}

#[test]
fn a_time_assertion_is_an_upper_bound() {
    let r = response();
    let within = judge(&r, &assertion(AssertionKind::MaxTime, b"max_time_ms", b"", 120));
    assert_eq!(
        within,
        AssertionResult {
            kind: AssertionKind::MaxTime,
            subject: b"max_time_ms".to_vec(),
            expected: b"120".to_vec(),
            actual: Some(b"120".to_vec()),
            passed: true,
        }
    );
    assert!(!judge(&r, &assertion(AssertionKind::MaxTime, b"max_time_ms", b"", 119)).passed);
}

#[test]
fn every_assertion_is_judged_after_a_failure() {
    let r = response();
    let asserts = vec![
        assertion(AssertionKind::Status, b"status", b"", 500),
        assertion(AssertionKind::HeaderPresent, b"etag", b"", 0),
        assertion(AssertionKind::BodyEquals, b"$.count", b"4", 0),
        assertion(AssertionKind::BodyEquals, b"$.count", b"3", 0),
    ];
    let results = evaluate(&r, &asserts);
    assert_eq!(results.len(), 4);
    let passed: Vec<bool> = results.iter().map(|x| x.passed).collect();
    assert_eq!(passed, vec![false, true, false, true]);
    assert!(!all_pass(&results));
    assert!(all_pass(&results[1..2].to_vec()));
    assert!(all_pass(&vec![]));
    assert!(evaluate(&r, &vec![]).is_empty());
}

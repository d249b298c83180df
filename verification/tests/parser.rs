use testkit::model::{Assertion, AssertionKind, Capture, Header, Plan, Request, Step, DEFAULT_TIMEOUT_MS};
use testkit::parser::{parse, ParseError, ParseErrorKind, Parsed, Warning};

const DOCUMENT: &[u8] = b"# login flow\n\
- name: login\n\
\x20 method: POST\n\
\x20 url: http://localhost/login\n\
\x20 headers:\n\
\x20   Accept: application/json\n\
\x20   X-Trace: \"a: b\"\n\
\x20 body: '{\"user\": \"kay\"}'\n\
\x20 assert:\n\
\x20   - status: 200\n\
\x20   - header: content-type == application/json\n\
\x20   - header: etag\n\
\x20   - body: $.user.name ~= k*\n\
\x20   - body: $.count == 3\n\
\x20   - max_time_ms: 1500\n\
\x20 capture:\n\
\x20   token: $.token\n\
\n\
- method: GET\r\n\
\x20 url: http://localhost/me\r\n\
\x20 name: profile\r\n\
\x20 optional: true\r\n\
\x20 timeout_ms: 500\r\n\
\x20 headers:\r\n\
\x20   Authorization: Bearer ${token}\r\n";

fn assertion(kind: AssertionKind, subject: &[u8], expected: &[u8], bound: u64) -> Assertion {
    Assertion { kind, subject: subject.to_vec(), expected: expected.to_vec(), bound }
}

fn expected_plan() -> Plan {
    Plan {
        steps: vec![
            Step {
                name: b"login".to_vec(),
                request: Request {
                    method: b"POST".to_vec(),
                    target: b"http://localhost/login".to_vec(),
                    headers: vec![
                        Header { name: b"Accept".to_vec(), value: b"application/json".to_vec() },
                        Header { name: b"X-Trace".to_vec(), value: b"a: b".to_vec() },
                    ],
                    body: b"{\"user\": \"kay\"}".to_vec(),
                    timeout_ms: DEFAULT_TIMEOUT_MS,
                },
                asserts: vec![
                    assertion(AssertionKind::Status, b"status", b"", 200),
                    assertion(AssertionKind::HeaderEquals, b"content-type", b"application/json", 0),
                    assertion(AssertionKind::HeaderPresent, b"etag", b"", 0),
                    assertion(AssertionKind::BodyMatches, b"$.user.name", b"k*", 0),
                    assertion(AssertionKind::BodyEquals, b"$.count", b"3", 0),
                    assertion(AssertionKind::MaxTime, b"max_time_ms", b"", 1500),
                ],
                captures: vec![Capture { name: b"token".to_vec(), path: b"$.token".to_vec() }],
                optional: false,
            },
            Step {
                name: b"profile".to_vec(),
                request: Request {
                    method: b"GET".to_vec(),
                    target: b"http://localhost/me".to_vec(),
                    headers: vec![Header { name: b"Authorization".to_vec(), value: b"Bearer ${token}".to_vec() }],
                    body: vec![],
                    timeout_ms: 500,
                },
                asserts: vec![],
                captures: vec![],
                optional: true,
            },
        ],
    }
}

fn error(line: usize, kind: ParseErrorKind, key: &[u8]) -> Result<Parsed, ParseError> {
    Err(ParseError { line, kind, key: key.to_vec() })
}

#[test]
fn a_document_is_read_into_its_plan() {
    assert_eq!(parse(DOCUMENT), Ok(Parsed { plan: expected_plan(), warnings: vec![] }));
}

#[test]
fn reading_twice_gives_the_same_plan() {
    assert_eq!(parse(DOCUMENT), parse(DOCUMENT));
    let copy = DOCUMENT.to_vec();
    assert_eq!(parse(&copy), parse(DOCUMENT));
    assert_eq!(parse(b"- name: x\n"), parse(b"- name: x\n"));
}

#[test]
fn an_empty_document_is_an_empty_plan() {
    let empty = Ok(Parsed { plan: Plan { steps: vec![] }, warnings: vec![] });
    assert_eq!(parse(b""), empty);
    assert_eq!(parse(b"\n\n"), empty);
    assert_eq!(parse(b"# nothing here\n   \n\t\n"), empty);
}

#[test]
fn unknown_keys_at_the_margin_are_warnings() {
    let text = b"version: 2\nmeta:\n  owner: kay\n    deep: x\n- method: GET\n  url: http://h/\nextra: 1\n";
    let parsed = parse(text).unwrap();
    assert_eq!(parsed.plan.steps.len(), 1);
    assert_eq!(parsed.plan.steps[0].request.target, b"http://h/".to_vec());
    assert_eq!(
        parsed.warnings,
        vec![
            Warning { line: 1, key: b"version".to_vec() },
            Warning { line: 2, key: b"meta".to_vec() },
            Warning { line: 7, key: b"extra".to_vec() },
        ]
    );
}

#[test]
fn a_step_needs_method_and_target() {
    assert_eq!(parse(b"- name: a\n  url: http://h/\n"), error(1, ParseErrorKind::MissingField, b"method"));
    assert_eq!(parse(b"\n- method: GET\n  name: a\n"), error(2, ParseErrorKind::MissingField, b"url"));
    assert_eq!(
        parse(b"- method: GET\n  url: u\n- name: b\n- method: GET\n  url: u\n"),
        error(3, ParseErrorKind::MissingField, b"method")
    );
    assert_eq!(parse(b"- name: a\nother: 1\n"), error(1, ParseErrorKind::MissingField, b"method"));
}

#[test]
fn values_of_the_wrong_kind_are_refused() {
    assert_eq!(parse(b"- method:\n  url: u\n"), error(1, ParseErrorKind::WrongType, b"method"));
    assert_eq!(parse(b"- method: GET\n  url:\n"), error(2, ParseErrorKind::WrongType, b"url"));
    assert_eq!(parse(b"- method: GET\n  optional: yes\n"), error(2, ParseErrorKind::WrongType, b"optional"));
    assert_eq!(parse(b"- method: GET\n  timeout_ms: soon\n"), error(2, ParseErrorKind::WrongType, b"timeout_ms"));
    assert_eq!(parse(b"- method: GET\n  headers: none\n"), error(2, ParseErrorKind::WrongType, b"headers"));
    assert_eq!(parse(b"- method: GET\n  assert:\n    - status: ok\n"), error(3, ParseErrorKind::WrongType, b"status"));
    assert_eq!(parse(b"- method: GET\n  assert:\n    - body: $.a\n"), error(3, ParseErrorKind::WrongType, b"body"));
    assert_eq!(parse(b"- method: GET\n  assert:\n    - header:\n"), error(3, ParseErrorKind::WrongType, b"header"));
    assert_eq!(parse(b"- method: GET\n  capture:\n    token:\n"), error(3, ParseErrorKind::WrongType, b"token"));
}

#[test]
fn unknown_directives_are_refused() {
    assert_eq!(parse(b"- method: GET\n  url: u\n  retries: 3\n"), error(3, ParseErrorKind::UnknownDirective, b"retries"));
    assert_eq!(parse(b"- verb: GET\n"), error(1, ParseErrorKind::UnknownDirective, b"verb"));
    assert_eq!(
        parse(b"- method: GET\n  url: u\n  assert:\n    - cookie: a\n"),
        error(4, ParseErrorKind::UnknownDirective, b"cookie")
    );
}

#[test]
fn lines_that_are_no_entries_are_refused() {
    assert_eq!(parse(b"- method: GET\n  url: u\n  just words\n"), error(3, ParseErrorKind::Malformed, b""));
    assert_eq!(parse(b"- method: GET\n  : value\n"), error(2, ParseErrorKind::Malformed, b""));
    assert_eq!(parse(b"hello\n"), error(1, ParseErrorKind::Malformed, b""));
}

#[test]
fn entries_at_the_wrong_depth_are_refused() {
    assert_eq!(parse(b"  method: GET\n"), error(1, ParseErrorKind::Indentation, b"method"));
    assert_eq!(parse(b"- method: GET\n   url: u\n"), error(2, ParseErrorKind::Indentation, b"url"));
    assert_eq!(parse(b"- method: GET\n  url: u\n    Accept: x\n"), error(3, ParseErrorKind::Indentation, b"Accept"));
    assert_eq!(
        parse(b"- method: GET\n  url: u\n  assert:\n    status: 200\n"),
        error(4, ParseErrorKind::Indentation, b"status")
    );
    assert_eq!(
        parse(b"- method: GET\n  url: u\n  headers:\n    - Accept: x\n"),
        error(4, ParseErrorKind::Indentation, b"Accept")
    );
    assert_eq!(parse(b"- method: GET\n  - url: u\n"), error(2, ParseErrorKind::Indentation, b"url"));
}

#[test]
fn a_later_field_replaces_an_earlier_one() {
    let parsed = parse(b"- method: GET\n  url: first\n  url: second\n  body: \"\"\n").unwrap();
    assert_eq!(parsed.plan.steps[0].request.target, b"second".to_vec());
    assert_eq!(parsed.plan.steps[0].request.body, b"".to_vec());
    assert_eq!(parsed.plan.steps[0].name, b"".to_vec());
}

#[test]
fn a_last_line_without_line_feed_is_read() {
    let parsed = parse(b"- method: GET\n  url: http://h/x").unwrap();
    assert_eq!(parsed.plan.steps[0].request.target, b"http://h/x".to_vec());
}

use testkit::model::{Assertion, AssertionKind, Capture, Header, Request, Step, DEFAULT_TIMEOUT_MS};
use testkit::resolver::{resolve_in, resolve_step, resolve_text, ResolutionError, MAX_DEPTH};
use testkit::vars::VariableTable;

fn table(pairs: &[(&[u8], &[u8])]) -> VariableTable {
    let mut t = VariableTable::new();
    for (name, value) in pairs {
        t.set(name.to_vec(), value.to_vec());
    }
    t
}

fn step_with(headers: Vec<Header>, target: &[u8], body: &[u8], asserts: Vec<Assertion>) -> Step {
    Step {
        name: b"s".to_vec(),
        request: Request {
            method: b"GET".to_vec(),
            target: target.to_vec(),
            headers,
            body: body.to_vec(),
            timeout_ms: DEFAULT_TIMEOUT_MS,
        },
        asserts,
        captures: vec![Capture { name: b"id".to_vec(), path: b"$.id".to_vec() }],
        optional: false,
    }
}

#[test]
fn text_without_placeholders_is_unchanged() {
    let t = table(&[(b"a", b"1")]);
    assert_eq!(resolve_text(b"", &t), Ok(b"".to_vec()));
    assert_eq!(resolve_text(b"http://host/path?q=1", &t), Ok(b"http://host/path?q=1".to_vec()));
    assert_eq!(resolve_text(b"cost: $5 {a}", &t), Ok(b"cost: $5 {a}".to_vec()));
    assert_eq!(resolve_text(b"open ${a", &t), Ok(b"open ${a".to_vec()));
}

#[test]
fn placeholders_give_way_to_their_values() {
    let t = table(&[(b"host", b"example.org"), (b"id", b"42")]);
    assert_eq!(
        resolve_text(b"http://${host}/items/${id}?x=${id}", &t),
        Ok(b"http://example.org/items/42?x=42".to_vec())
    );
    assert_eq!(resolve_text(b"${id}", &t), Ok(b"42".to_vec()));
}

#[test]
fn values_that_hold_placeholders_are_resolved_in_turn() {
    let t = table(&[(b"url", b"http://${host}/${path}"), (b"host", b"h"), (b"path", b"p/${leaf}"), (b"leaf", b"x")]);
    assert_eq!(resolve_text(b"go ${url}", &t), Ok(b"go http://h/p/x".to_vec()));
}

#[test]
fn an_unbound_placeholder_is_named() {
    let t = table(&[(b"a", b"1")]);
    assert_eq!(
        resolve_text(b"${a} and ${missing} and ${other}", &t),
        Err(ResolutionError::Unbound { name: b"missing".to_vec() })
    );
    assert_eq!(resolve_text(b"${}", &t), Err(ResolutionError::Unbound { name: b"".to_vec() }));
}

#[test]
fn an_unbound_placeholder_inside_a_value_is_named() {
    let t = table(&[(b"a", b"<${b}>")]);
    assert_eq!(resolve_text(b"${a}", &t), Err(ResolutionError::Unbound { name: b"b".to_vec() }));
}

#[test]
fn endless_nesting_is_given_up() {
    let t = table(&[(b"a", b"${b}"), (b"b", b"${a}")]);
    assert_eq!(MAX_DEPTH, 8);
    assert_eq!(resolve_text(b"x${a}", &t), Err(ResolutionError::TooDeep { name: b"a".to_vec() }));
}

#[test]
fn nesting_up_to_the_limit_resolves() {
    let t = table(&[
        (b"v1", b"${v2}"),
        (b"v2", b"${v3}"),
        (b"v3", b"${v4}"),
        (b"v4", b"${v5}"),
        (b"v5", b"${v6}"),
        (b"v6", b"${v7}"),
        (b"v7", b"${v8}"),
        (b"v8", b"end"),
        (b"v0", b"${v1}"),
    ]);
    assert_eq!(resolve_text(b"${v1}", &t), Ok(b"end".to_vec()));
    assert_eq!(resolve_text(b"${v0}", &t), Err(ResolutionError::TooDeep { name: b"v8".to_vec() }));
}

#[test]
fn local_bindings_come_first() {
    let outer = table(&[(b"a", b"outer"), (b"b", b"only outer")]);
    let inner = table(&[(b"a", b"inner")]);
    assert_eq!(resolve_in(b"${a}/${b}", &outer, &inner), Ok(b"inner/only outer".to_vec()));
}

#[test]
fn a_step_without_placeholders_resolves_to_itself() {
    let step = step_with(
        vec![Header { name: b"Accept".to_vec(), value: b"*/*".to_vec() }],
        b"http://h/",
        b"{}",
        vec![Assertion { kind: AssertionKind::Status, subject: b"status".to_vec(), expected: vec![], bound: 200 }],
    );
    let t = table(&[(b"a", b"1")]);
    assert_eq!(resolve_step(&step, &t), Ok(step.clone()));
}

#[test]
fn a_step_is_resolved_field_by_field() {
    let step = step_with(
        vec![Header { name: b"Authorization".to_vec(), value: b"Bearer ${token}".to_vec() }],
        b"http://${host}/me",
        b"{\"id\": ${id}}",
        vec![Assertion {
            kind: AssertionKind::BodyEquals,
            subject: b"$.items[${id}]".to_vec(),
            expected: b"${request.method} ${request.url} ${request.body}".to_vec(),
            bound: 0,
        }],
    );
    let t = table(&[(b"token", b"abc"), (b"host", b"h"), (b"id", b"7")]);
    let resolved = resolve_step(&step, &t).unwrap();
    assert_eq!(resolved.request.headers[0].value, b"Bearer abc".to_vec());
    assert_eq!(resolved.request.headers[0].name, b"Authorization".to_vec());
    assert_eq!(resolved.request.target, b"http://h/me".to_vec());
    assert_eq!(resolved.request.body, b"{\"id\": 7}".to_vec());
    assert_eq!(resolved.request.method, b"GET".to_vec());
    assert_eq!(resolved.asserts[0].subject, b"$.items[7]".to_vec());
    assert_eq!(resolved.asserts[0].expected, b"GET http://h/me {\"id\": 7}".to_vec());
    assert_eq!(resolved.asserts[0].kind, AssertionKind::BodyEquals);
    assert_eq!(resolved.captures, step.captures);
    assert_eq!(resolved.name, step.name);
}

#[test]
fn the_request_does_not_see_its_own_fields() {
    let step = step_with(vec![], b"http://h/${request.method}", b"", vec![]);
    let t = VariableTable::new();
    assert_eq!(
        resolve_step(&step, &t),
        Err(ResolutionError::Unbound { name: b"request.method".to_vec() })
    );
}

#[test]
fn the_first_text_that_fails_decides_the_error() {
    let step = step_with(
        vec![Header { name: b"X".to_vec(), value: b"${h}".to_vec() }],
        b"http://${u}/",
        b"${b}",
        vec![],
    );
    assert_eq!(
        resolve_step(&step, &table(&[])),
        Err(ResolutionError::Unbound { name: b"h".to_vec() })
    );
    assert_eq!(
        resolve_step(&step, &table(&[(b"h", b"1")])),
        Err(ResolutionError::Unbound { name: b"u".to_vec() })
    );
    assert_eq!(
        resolve_step(&step, &table(&[(b"h", b"1"), (b"u", b"2")])),
        Err(ResolutionError::Unbound { name: b"b".to_vec() })
    );
}

#[test]
fn a_step_with_one_unbound_placeholder_names_it() {
    let step = step_with(
        vec![Header { name: b"X".to_vec(), value: b"plain".to_vec() }],
        b"http://h/",
        b"",
        vec![Assertion {
            kind: AssertionKind::HeaderEquals,
            subject: b"etag".to_vec(),
            expected: b"${missing}".to_vec(),
            bound: 0,
        }],
    );
    assert_eq!(
        resolve_step(&step, &table(&[(b"other", b"1")])),
        Err(ResolutionError::Unbound { name: b"missing".to_vec() })
    );
}

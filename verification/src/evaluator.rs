//! Judging a response against the assertions of a step. Every assertion is
//! judged, whether or not an earlier one failed, and each gives a result
//! that says what was expected and what was found.

use vstd::prelude::*;
use crate::body::{body_field, pattern_match, pattern_matches, read_field, Leaf, LeafView};
use crate::model::{views, Assertion, AssertionKind, AssertionView, Header, HeaderView};
use crate::text::{decimal_digits, eq_ignore_case, folded, bytes_eq, to_decimal, to_vec};

verus! {

/// What came back for a request.
#[derive(Debug, Clone, PartialEq, Eq)]
pub struct Response {
    pub status: u16,
    pub headers: Vec<Header>,
    pub body: Vec<Leaf>,
    pub elapsed_ms: u64,
}

/// The mathematical value of a `Response`.
pub struct ResponseView {
    pub status: u16,
    pub headers: Seq<HeaderView>,
    pub body: Seq<LeafView>,
    pub elapsed_ms: u64,
}

impl View for Response {
    type V = ResponseView;

    open spec fn view(&self) -> ResponseView {
        ResponseView {
            status: self.status,
            headers: views(self.headers@),
            body: views(self.body@),
            elapsed_ms: self.elapsed_ms,
        }
    }
}

/// The mathematical value of an optional text.
pub open spec fn text_view(t: Option<Vec<u8>>) -> Option<Seq<u8>> {
    match t {
        Some(v) => Some(v@),
        None => None,
    }
}

/// How one assertion fared: what it was about, what it expected, what was
/// found, if anything was, and whether it holds.
#[derive(Debug, Clone, PartialEq, Eq)]
pub struct AssertionResult {
    pub kind: AssertionKind,
    pub subject: Vec<u8>,
    pub expected: Vec<u8>,
    pub actual: Option<Vec<u8>>,
    pub passed: bool,
}

/// The mathematical value of an `AssertionResult`.
pub struct AssertionResultView {
    pub kind: AssertionKind,
    pub subject: Seq<u8>,
    pub expected: Seq<u8>,
    pub actual: Option<Seq<u8>>,
    pub passed: bool,
}

impl View for AssertionResult {
    type V = AssertionResultView;

    open spec fn view(&self) -> AssertionResultView {
        AssertionResultView {
            kind: self.kind,
            subject: self.subject@,
            expected: self.expected@,
            actual: text_view(self.actual),
            passed: self.passed,
        }
    }
}

/// The value of the first header from index `from` on whose name is `name`,
/// letter case ignored.
pub open spec fn header_value(headers: Seq<HeaderView>, name: Seq<u8>, from: int) -> Option<
    Seq<u8>,
>
    decreases headers.len() - from,
{
    if from < 0 || from >= headers.len() {
        None
    } else if folded(headers[from].name) == folded(name) {
        Some(headers[from].value)
    } else {
        header_value(headers, name, from + 1)
    }
}

/// What the response holds where the assertion looks.
pub open spec fn observed(response: ResponseView, a: AssertionView) -> Option<Seq<u8>> {
    match a.kind {
        AssertionKind::Status => Some(decimal_digits(response.status as nat)),
        AssertionKind::HeaderPresent => header_value(response.headers, a.subject, 0),
        AssertionKind::HeaderEquals => header_value(response.headers, a.subject, 0),
        AssertionKind::BodyEquals => body_field(response.body, a.subject),
        AssertionKind::BodyMatches => body_field(response.body, a.subject),
        AssertionKind::MaxTime => Some(decimal_digits(response.elapsed_ms as nat)),
    }
}

/// What the assertion expects, as text.
pub open spec fn expectation(a: AssertionView) -> Seq<u8> {
    match a.kind {
        AssertionKind::Status => decimal_digits(a.bound as nat),
        AssertionKind::MaxTime => decimal_digits(a.bound as nat),
        _ => a.expected,
    }
}

/// The response meets the assertion.
pub open spec fn holds(response: ResponseView, a: AssertionView) -> bool {
    match a.kind {
        AssertionKind::Status => response.status as int == a.bound as int,
        AssertionKind::HeaderPresent => header_value(response.headers, a.subject, 0) is Some,
        AssertionKind::HeaderEquals => header_value(response.headers, a.subject, 0) == Some(
            a.expected,
        ),
        AssertionKind::BodyEquals => body_field(response.body, a.subject) == Some(a.expected),
        AssertionKind::BodyMatches => match body_field(response.body, a.subject) {
            Some(v) => pattern_matches(a.expected, v),
            None => false,
        },
        AssertionKind::MaxTime => response.elapsed_ms <= a.bound,
    }
}

/// The result of judging `response` against `a`.
pub open spec fn judged(response: ResponseView, a: AssertionView) -> AssertionResultView {
    AssertionResultView {
        kind: a.kind,
        subject: a.subject,
        expected: expectation(a),
        actual: observed(response, a),
        passed: holds(response, a),
    }
}

/// The results of judging `response` against each assertion, in order.
pub open spec fn judged_all(response: ResponseView, asserts: Seq<AssertionView>) -> Seq<
    AssertionResultView,
> {
    Seq::new(asserts.len(), |i: int| judged(response, asserts[i]))
}

/// Every result is a pass.
pub open spec fn all_passed(results: Seq<AssertionResultView>) -> bool {
    forall|i: int| 0 <= i < results.len() ==> (#[trigger] results[i]).passed
}

/// Looks up a header by name, letter case ignored.
pub fn find_header<'a>(headers: &'a Vec<Header>, name: &[u8]) -> (r: Option<&'a Vec<u8>>)
    ensures
        match header_value(views(headers@), name@, 0) {
            Some(v) => r matches Some(x) && x@ == v,
            None => r is None,
        },
{
    let mut k: usize = 0;
    while k < headers.len()
        invariant
            k <= headers.len(),
            header_value(views(headers@), name@, 0) == header_value(
                views(headers@),
                name@,
                k as int,
            ),
        decreases headers.len() - k,
    {
        assert(views(headers@)[k as int] == headers@[k as int]@);
        if eq_ignore_case(headers[k].name.as_slice(), name) {
            return Some(&headers[k].value);
        }
        k += 1;
    }
    None
}

fn copied(found: Option<&Vec<u8>>) -> (r: Option<Vec<u8>>)
    ensures
        match found {
            Some(v) => r matches Some(x) && x@ == v@,
            None => r is None,
        },
{
    match found {
        Some(v) => Some(to_vec(v.as_slice())),
        None => None,
    }
}

/// Judges `response` against one assertion.
pub fn judge(response: &Response, a: &Assertion) -> (r: AssertionResult)
    ensures
        r@ == judged(response@, a@),
{
    let subject = to_vec(a.subject.as_slice());
    match a.kind {
        AssertionKind::Status => AssertionResult {
            kind: a.kind,
            subject,
            expected: to_decimal(a.bound),
            actual: Some(to_decimal(response.status as u64)),
            passed: response.status as u64 == a.bound,
        },
        AssertionKind::MaxTime => AssertionResult {
            kind: a.kind,
            subject,
            expected: to_decimal(a.bound),
            actual: Some(to_decimal(response.elapsed_ms)),
            passed: response.elapsed_ms <= a.bound,
        },
        AssertionKind::HeaderPresent => {
            let found = find_header(&response.headers, a.subject.as_slice());
            AssertionResult {
                kind: a.kind,
                subject,
                expected: to_vec(a.expected.as_slice()),
                actual: copied(found),
                passed: found.is_some(),
            }
        },
        AssertionKind::HeaderEquals => {
            let found = find_header(&response.headers, a.subject.as_slice());
            let passed = match found {
                Some(v) => bytes_eq(v.as_slice(), a.expected.as_slice()),
                None => false,
            };
            AssertionResult {
                kind: a.kind,
                subject,
                expected: to_vec(a.expected.as_slice()),
                actual: copied(found),
                passed,
            }
        },
        AssertionKind::BodyEquals => {
            let found = read_field(&response.body, a.subject.as_slice());
            let passed = match found {
                Some(v) => bytes_eq(v.as_slice(), a.expected.as_slice()),
                None => false,
            };
            AssertionResult {
                kind: a.kind,
                subject,
                expected: to_vec(a.expected.as_slice()),
                actual: copied(found),
                passed,
            }
        },
        AssertionKind::BodyMatches => {
            let found = read_field(&response.body, a.subject.as_slice());
            let passed = match found {
                Some(v) => pattern_match(a.expected.as_slice(), v.as_slice()),
                None => false,
            };
            AssertionResult {
                kind: a.kind,
                subject,
                expected: to_vec(a.expected.as_slice()),
                actual: copied(found),
                passed,
            }
        },
    }
}

/// Judges `response` against every assertion of a step. No failure stops
/// the evaluation: there is one result for each assertion, in order.
pub fn evaluate(response: &Response, asserts: &Vec<Assertion>) -> (r: Vec<AssertionResult>)
    ensures
        views(r@) == judged_all(response@, views(asserts@)),
{
    let mut out: Vec<AssertionResult> = Vec::new();
    let mut k: usize = 0;
    while k < asserts.len()
        invariant
            k <= asserts.len(),
            out.len() == k,
            forall|i: int| 0 <= i < k ==> out@[i]@ == judged(response@, asserts@[i]@),
        decreases asserts.len() - k,
    {
        out.push(judge(response, &asserts[k]));
        k += 1;
    }
    assert(views(out@) =~= judged_all(response@, views(asserts@)));
    out
}

/// Whether every result is a pass.
pub fn all_pass(results: &Vec<AssertionResult>) -> (r: bool)
    ensures
        r == all_passed(views(results@)),
{
    let mut k: usize = 0;
    while k < results.len()
        invariant
            k <= results.len(),
            forall|i: int| 0 <= i < k ==> results@[i].passed,
        decreases results.len() - k,
    {
        if !results[k].passed {
            assert(!views(results@)[k as int].passed);
            return false;
        }
        k += 1;
    }
    assert forall|i: int| 0 <= i < views(results@).len() implies (#[trigger] views(
        results@,
    )[i]).passed by {
        assert(results@[i].passed);
    }
    true
}

} // verus!

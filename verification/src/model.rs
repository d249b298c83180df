//! The data of a test document: steps, requests, assertions and captures,
//! each with the mathematical value that contracts speak of.

use vstd::prelude::*;

verus! {

/// The mathematical values of the items of a sequence, in order.
pub open spec fn views<T: View>(items: Seq<T>) -> Seq<T::V> {
    Seq::new(items.len(), |i: int| items[i]@)
}

/// Appending an item appends its value.
pub proof fn lemma_views_push<T: View>(items: Seq<T>, item: T)
    ensures
        views(items.push(item)) == views(items).push(item@),
{
    assert(views(items.push(item)) =~= views(items).push(item@));
}

/// A header of a request or of a response.
#[derive(Debug, Clone, PartialEq, Eq)]
pub struct Header {
    pub name: Vec<u8>,
    pub value: Vec<u8>,
}

/// The mathematical value of a `Header`.
pub struct HeaderView {
    pub name: Seq<u8>,
    pub value: Seq<u8>,
}

impl View for Header {
    type V = HeaderView;

    open spec fn view(&self) -> HeaderView {
        HeaderView { name: self.name@, value: self.value@ }
    }
}

/// The time allowed to a request whose step names none, in milliseconds.
pub const DEFAULT_TIMEOUT_MS: u64 = 30000;

/// What is sent: method, target, headers and an opaque body, and the time
/// within which the response is due.
#[derive(Debug, Clone, PartialEq, Eq)]
pub struct Request {
    pub method: Vec<u8>,
    pub target: Vec<u8>,
    pub headers: Vec<Header>,
    pub body: Vec<u8>,
    pub timeout_ms: u64,
}

/// The mathematical value of a `Request`.
pub struct RequestView {
    pub method: Seq<u8>,
    pub target: Seq<u8>,
    pub headers: Seq<HeaderView>,
    pub body: Seq<u8>,
    pub timeout_ms: u64,
}

impl View for Request {
    type V = RequestView;

    open spec fn view(&self) -> RequestView {
        RequestView {
            method: self.method@,
            target: self.target@,
            headers: views(self.headers@),
            body: self.body@,
            timeout_ms: self.timeout_ms,
        }
    }
}

/// What an assertion looks at.
#[derive(Debug, Clone, Copy, PartialEq, Eq, Structural)]
pub enum AssertionKind {
    /// The status code equals `bound`.
    Status,
    /// A header named `subject` is present.
    HeaderPresent,
    /// The header named `subject` has the value `expected`.
    HeaderEquals,
    /// The body field at path `subject` has the value `expected`.
    BodyEquals,
    /// The body field at path `subject` matches the pattern `expected`.
    BodyMatches,
    /// The response took at most `bound` milliseconds.
    MaxTime,
}

/// One expectation about a response.
#[derive(Debug, Clone, PartialEq, Eq)]
pub struct Assertion {
    pub kind: AssertionKind,
    pub subject: Vec<u8>,
    pub expected: Vec<u8>,
    pub bound: u64,
}

/// The mathematical value of an `Assertion`.
pub struct AssertionView {
    pub kind: AssertionKind,
    pub subject: Seq<u8>,
    pub expected: Seq<u8>,
    pub bound: u64,
}

impl View for Assertion {
    type V = AssertionView;

    open spec fn view(&self) -> AssertionView {
        AssertionView {
            kind: self.kind,
            subject: self.subject@,
            expected: self.expected@,
            bound: self.bound,
        }
    }
}

/// A named extraction: the body field at `path` becomes the variable `name`.
#[derive(Debug, Clone, PartialEq, Eq)]
pub struct Capture {
    pub name: Vec<u8>,
    pub path: Vec<u8>,
}

/// The mathematical value of a `Capture`.
pub struct CaptureView {
    pub name: Seq<u8>,
    pub path: Seq<u8>,
}

impl View for Capture {
    type V = CaptureView;

    open spec fn view(&self) -> CaptureView {
        CaptureView { name: self.name@, path: self.path@ }
    }
}

/// One request with its assertions and captures. A transport failure on an
/// `optional` step does not stop the run.
#[derive(Debug, Clone, PartialEq, Eq)]
pub struct Step {
    pub name: Vec<u8>,
    pub request: Request,
    pub asserts: Vec<Assertion>,
    pub captures: Vec<Capture>,
    pub optional: bool,
}

/// The mathematical value of a `Step`.
pub struct StepView {
    pub name: Seq<u8>,
    pub request: RequestView,
    pub asserts: Seq<AssertionView>,
    pub captures: Seq<CaptureView>,
    pub optional: bool,
}

impl View for Step {
    type V = StepView;

    open spec fn view(&self) -> StepView {
        StepView {
            name: self.name@,
            request: self.request@,
            asserts: views(self.asserts@),
            captures: views(self.captures@),
            optional: self.optional,
        }
    }
}

/// The steps of a document in the order in which they run.
#[derive(Debug, Clone, PartialEq, Eq)]
pub struct Plan {
    pub steps: Vec<Step>,
}

impl View for Plan {
    type V = Seq<StepView>;

    open spec fn view(&self) -> Seq<StepView> {
        views(self.steps@)
    }
}

} // verus!

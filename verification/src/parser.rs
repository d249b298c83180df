//! Reading a test document into a plan.
//!
//! A document is read line by line. Blank lines and lines that start with
//! `#` are passed over. Every other line is an entry `key: value`, which may
//! stand behind `- `, indented by spaces:
//!
//! ```text
//! - name: login
//!   method: POST
//!   url: http://localhost/login
//!   headers:
//!     Accept: application/json
//!   body: '{"user": "kay"}'
//!   assert:
//!     - status: 200
//!     - header: content-type == application/json
//!     - body: $.user.name ~= k*
//!   capture:
//!     token: $.token
//! ```
//!
//! `- ` at the margin opens a step. A key at the margin that opens no step
//! is passed over with its block, and reported as a warning. Reading has no
//! effect but its result, and the same text gives the same result.

use vstd::prelude::*;
use vstd::slice::slice_subrange;
use crate::model::{
    lemma_views_push, views, Assertion, AssertionKind, AssertionView, Capture, CaptureView,
    Header, HeaderView, Plan, Request, RequestView, Step, StepView, DEFAULT_TIMEOUT_MS,
};
use crate::text::{
    find, first_occurrence, is_word, lemma_first_occurrence, lemma_stop_at, parse_decimal,
    parse_decimal_spec, scan_to, stop_at, to_vec, trim, trimmed, word, APOSTROPHE, COLON, DASH, HASH, NEWLINE, QUOTE,
    RETURN, SPACE,
};

verus! {

/// What is wrong with a document.
#[derive(Debug, Clone, Copy, PartialEq, Eq, Structural)]
pub enum ParseErrorKind {
    /// The line is not of the form `key: value`.
    Malformed,
    /// The line stands at a depth where nothing can stand.
    Indentation,
    /// A step lacks the field `key`.
    MissingField,
    /// The value of `key` is not of the kind that `key` takes.
    WrongType,
    /// `key` is not a directive.
    UnknownDirective,
}

/// Why a document could not be read: the line, counted from 1, the key
/// concerned and what is wrong with it.
#[derive(Debug, Clone, PartialEq, Eq)]
pub struct ParseError {
    pub line: usize,
    pub kind: ParseErrorKind,
    pub key: Vec<u8>,
}

/// The mathematical value of a `ParseError`.
pub struct ParseFault {
    pub line: usize,
    pub kind: ParseErrorKind,
    pub key: Seq<u8>,
}

impl View for ParseError {
    type V = ParseFault;

    open spec fn view(&self) -> ParseFault {
        ParseFault { line: self.line, kind: self.kind, key: self.key@ }
    }
}

/// A key at the margin that the reader does not know and passed over.
#[derive(Debug, Clone, PartialEq, Eq)]
pub struct Warning {
    pub line: usize,
    pub key: Vec<u8>,
}

/// The mathematical value of a `Warning`.
pub struct WarningView {
    pub line: usize,
    pub key: Seq<u8>,
}

impl View for Warning {
    type V = WarningView;

    open spec fn view(&self) -> WarningView {
        WarningView { line: self.line, key: self.key@ }
    }
}

/// A document that was read: its plan and the warnings that reading gave.
#[derive(Debug, Clone, PartialEq, Eq)]
pub struct Parsed {
    pub plan: Plan,
    pub warnings: Vec<Warning>,
}

/// The mathematical value of a `Parsed`.
pub struct ParsedView {
    pub plan: Seq<StepView>,
    pub warnings: Seq<WarningView>,
}

impl View for Parsed {
    type V = ParsedView;

    open spec fn view(&self) -> ParsedView {
        ParsedView { plan: self.plan@, warnings: views(self.warnings@) }
    }
}

/// How many spaces stand at index `from` and after it without a gap.
pub open spec fn spaces_at(line: Seq<u8>, from: int) -> nat
    decreases line.len() - from,
{
    if from < 0 || from >= line.len() || line[from] != SPACE {
        0
    } else {
        1 + spaces_at(line, from + 1)
    }
}

/// `line` without the carriage return that may end it.
pub open spec fn without_return(line: Seq<u8>) -> Seq<u8> {
    if line.len() > 0 && line.last() == RETURN {
        line.drop_last()
    } else {
        line
    }
}

/// `value` without the pair of quotes that may enclose it.
pub open spec fn unquoted(value: Seq<u8>) -> Seq<u8> {
    if value.len() >= 2 && value[0] == value.last() && (value[0] == QUOTE || value[0]
        == APOSTROPHE) {
        value.subrange(1, value.len() - 1)
    } else {
        value
    }
}

/// What a line says.
pub enum LineView {
    /// Nothing: the line is blank or a comment.
    Skip,
    /// `key: value` behind `indent` spaces, and behind `- ` where `dash`.
    Entry { indent: nat, dash: bool, key: Seq<u8>, value: Seq<u8> },
    /// Something that is no entry.
    Malformed,
}

/// The reading of one line.
pub open spec fn classified(raw: Seq<u8>) -> LineView {
    let line = without_return(raw);
    let indent = spaces_at(line, 0);
    let rest = line.subrange(indent as int, line.len() as int);
    if trimmed(rest).len() == 0 || rest[0] == HASH {
        LineView::Skip
    } else {
        let dash = rest.len() >= 2 && rest[0] == DASH && rest[1] == SPACE;
        let content = if dash {
            rest.subrange(2, rest.len() as int)
        } else {
            rest
        };
        let colon = stop_at(content, 0, COLON, COLON);
        if colon >= content.len() {
            LineView::Malformed
        } else {
            let key = trimmed(content.subrange(0, colon));
            let value = unquoted(trimmed(content.subrange(colon + 1, content.len() as int)));
            if key.len() == 0 {
                LineView::Malformed
            } else {
                LineView::Entry { indent, dash, key, value }
            }
        }
    }
}

/// Where in a document the reader is.
#[derive(Debug, Clone, Copy, PartialEq, Eq, Structural)]
pub enum Section {
    /// Before the first step.
    Top,
    /// In the block of a key at the margin that is passed over.
    Skipped,
    /// Among the fields of a step.
    Fields,
    /// In the `headers` of a step.
    Headers,
    /// In the `assert` section of a step.
    Asserts,
    /// In the `capture` section of a step.
    Captures,
}

/// A document as far as it is read.
pub struct DraftView {
    pub steps: Seq<StepView>,
    pub current: StepView,
    pub open: bool,
    pub has_method: bool,
    pub has_target: bool,
    pub started: usize,
    pub section: Section,
    pub warnings: Seq<WarningView>,
}

/// A step of which nothing is known yet.
pub open spec fn blank_step() -> StepView {
    StepView {
        name: Seq::empty(),
        request: RequestView {
            method: Seq::empty(),
            target: Seq::empty(),
            headers: Seq::empty(),
            body: Seq::empty(),
            timeout_ms: DEFAULT_TIMEOUT_MS,
        },
        asserts: Seq::empty(),
        captures: Seq::empty(),
        optional: false,
    }
}

/// The reader's state before the first line.
pub open spec fn fresh_draft() -> DraftView {
    DraftView {
        steps: Seq::empty(),
        current: blank_step(),
        open: false,
        has_method: false,
        has_target: false,
        started: 0,
        section: Section::Top,
        warnings: Seq::empty(),
    }
}

/// The fault of the kind `kind` at line `line`, about `key`.
pub open spec fn fault(line: usize, kind: ParseErrorKind, key: Seq<u8>) -> ParseFault {
    ParseFault { line, kind, key }
}

/// The step that is open, if one is, joins the steps read and leaves a
/// blank one behind. It must have a method and a target.
pub open spec fn closed(d: DraftView) -> Result<DraftView, ParseFault> {
    if !d.open {
        Ok(d)
    } else if !d.has_method {
        Err(fault(d.started, ParseErrorKind::MissingField, word("method")))
    } else if !d.has_target {
        Err(fault(d.started, ParseErrorKind::MissingField, word("url")))
    } else {
        Ok(DraftView { steps: d.steps.push(d.current), current: blank_step(), open: false, ..d })
    }
}

/// A new step is open at line `number`.
pub open spec fn opened(d: DraftView, number: usize) -> DraftView {
    DraftView {
        current: blank_step(),
        open: true,
        has_method: false,
        has_target: false,
        started: number,
        section: Section::Fields,
        ..d
    }
}

/// The open step takes the field `key` with `value`.
pub open spec fn with_field(d: DraftView, key: Seq<u8>, value: Seq<u8>, number: usize) -> Result<
    DraftView,
    ParseFault,
> {
    let step = d.current;
    let request = step.request;
    if key == word("name") {
        Ok(DraftView { current: StepView { name: value, ..step }, section: Section::Fields, ..d })
    } else if key == word("method") {
        if value.len() == 0 {
            Err(fault(number, ParseErrorKind::WrongType, key))
        } else {
            Ok(
                DraftView {
                    current: StepView { request: RequestView { method: value, ..request }, ..step },
                    has_method: true,
                    section: Section::Fields,
                    ..d
                },
            )
        }
    } else if key == word("url") {
        if value.len() == 0 {
            Err(fault(number, ParseErrorKind::WrongType, key))
        } else {
            Ok(
                DraftView {
                    current: StepView { request: RequestView { target: value, ..request }, ..step },
                    has_target: true,
                    section: Section::Fields,
                    ..d
                },
            )
        }
    } else if key == word("body") {
        Ok(
            DraftView {
                current: StepView { request: RequestView { body: value, ..request }, ..step },
                section: Section::Fields,
                ..d
            },
        )
    } else if key == word("optional") {
        if value == word("true") || value == word("false") {
            Ok(
                DraftView {
                    current: StepView { optional: value == word("true"), ..step },
                    section: Section::Fields,
                    ..d
                },
            )
        } else {
            Err(fault(number, ParseErrorKind::WrongType, key))
        }
    } else if key == word("timeout_ms") {
        match parse_decimal_spec(value) {
            Some(n) => Ok(
                DraftView {
                    current: StepView { request: RequestView { timeout_ms: n, ..request }, ..step },
                    section: Section::Fields,
                    ..d
                },
            ),
            None => Err(fault(number, ParseErrorKind::WrongType, key)),
        }
    } else if key == word("headers") || key == word("assert") || key == word("capture") {
        if value.len() != 0 {
            Err(fault(number, ParseErrorKind::WrongType, key))
        } else {
            Ok(
                DraftView {
                    section: if key == word("headers") {
                        Section::Headers
                    } else if key == word("assert") {
                        Section::Asserts
                    } else {
                        Section::Captures
                    },
                    ..d
                },
            )
        }
    } else {
        Err(fault(number, ParseErrorKind::UnknownDirective, key))
    }
}

/// The two sides of the first `op` in `value`, each trimmed.
pub open spec fn split_at_op(value: Seq<u8>, op: Seq<u8>) -> Option<(Seq<u8>, Seq<u8>)> {
    match first_occurrence(value, op, 0) {
        Some(at) => Some(
            (
                trimmed(value.subrange(0, at)),
                trimmed(value.subrange(at + op.len(), value.len() as int)),
            ),
        ),
        None => None,
    }
}

/// The assertion that the entry `key: value` writes.
pub open spec fn assertion_of(key: Seq<u8>, value: Seq<u8>) -> Result<
    AssertionView,
    ParseErrorKind,
> {
    if key == word("status") || key == word("max_time_ms") {
        match parse_decimal_spec(value) {
            Some(n) => Ok(
                AssertionView {
                    kind: if key == word("status") {
                        AssertionKind::Status
                    } else {
                        AssertionKind::MaxTime
                    },
                    subject: key,
                    expected: Seq::empty(),
                    bound: n,
                },
            ),
            None => Err(ParseErrorKind::WrongType),
        }
    } else if key == word("header") {
        match split_at_op(value, word(" == ")) {
            Some((name, expected)) => if name.len() == 0 {
                Err(ParseErrorKind::WrongType)
            } else {
                Ok(
                    AssertionView {
                        kind: AssertionKind::HeaderEquals,
                        subject: name,
                        expected,
                        bound: 0,
                    },
                )
            },
            None => if value.len() == 0 {
                Err(ParseErrorKind::WrongType)
            } else {
                Ok(
                    AssertionView {
                        kind: AssertionKind::HeaderPresent,
                        subject: value,
                        expected: Seq::empty(),
                        bound: 0,
                    },
                )
            },
        }
    } else if key == word("body") {
        match split_at_op(value, word(" == ")) {
            Some((path, expected)) => Ok(
                AssertionView { kind: AssertionKind::BodyEquals, subject: path, expected, bound: 0 },
            ),
            None => match split_at_op(value, word(" ~= ")) {
                Some((path, pattern)) => Ok(
                    AssertionView {
                        kind: AssertionKind::BodyMatches,
                        subject: path,
                        expected: pattern,
                        bound: 0,
                    },
                ),
                None => Err(ParseErrorKind::WrongType),
            },
        }
    } else {
        Err(ParseErrorKind::UnknownDirective)
    }
}

/// The reader's state after the line `raw`, which is line `number`.
pub open spec fn fed(d: DraftView, raw: Seq<u8>, number: usize) -> Result<DraftView, ParseFault> {
    match classified(raw) {
        LineView::Skip => Ok(d),
        LineView::Malformed => Err(fault(number, ParseErrorKind::Malformed, Seq::empty())),
        LineView::Entry { indent, dash, key, value } => {
            if indent == 0 {
                match closed(d) {
                    Ok(c) => if dash {
                        with_field(opened(c, number), key, value, number)
                    } else {
                        Ok(
                            DraftView {
                                section: Section::Skipped,
                                warnings: c.warnings.push(WarningView { line: number, key }),
                                ..c
                            },
                        )
                    },
                    Err(f) => Err(f),
                }
            } else if d.section == Section::Skipped {
                Ok(d)
            } else if !d.open {
                Err(fault(number, ParseErrorKind::Indentation, key))
            } else if indent == 2 && !dash {
                with_field(d, key, value, number)
            } else if indent == 4 && !dash && d.section == Section::Headers {
                let step = d.current;
                let request = step.request;
                Ok(
                    DraftView {
                        current: StepView {
                            request: RequestView {
                                headers: request.headers.push(HeaderView { name: key, value }),
                                ..request
                            },
                            ..step
                        },
                        ..d
                    },
                )
            } else if indent == 4 && !dash && d.section == Section::Captures {
                if value.len() == 0 {
                    Err(fault(number, ParseErrorKind::WrongType, key))
                } else {
                    let step = d.current;
                    Ok(
                        DraftView {
                            current: StepView {
                                captures: step.captures.push(CaptureView { name: key, path: value }),
                                ..step
                            },
                            ..d
                        },
                    )
                }
            } else if indent == 4 && dash && d.section == Section::Asserts {
                match assertion_of(key, value) {
                    Ok(a) => {
                        let step = d.current;
                        Ok(
                            DraftView {
                                current: StepView { asserts: step.asserts.push(a), ..step },
                                ..d
                            },
                        )
                    },
                    Err(kind) => Err(fault(number, kind, key)),
                }
            } else {
                Err(fault(number, ParseErrorKind::Indentation, key))
            }
        },
    }
}

/// The reader's state after the lines of `text` from index `from` on, the
/// first of which is line `count + 1`. A line ends before a line feed or at
/// the end of the text.
pub open spec fn fed_all(d: DraftView, text: Seq<u8>, from: int, count: int) -> Result<
    DraftView,
    ParseFault,
>
    decreases text.len() - from,
{
    if from < 0 || from >= text.len() || count < 0 || count >= usize::MAX {
        Ok(d)
    } else {
        let end = stop_at(text, from, NEWLINE, NEWLINE);
        match fed(d, text.subrange(from, end), (count + 1) as usize) {
            Ok(next) => if end < text.len() {
                fed_all(next, text, end + 1, count + 1)
            } else {
                Ok(next)
            },
            Err(f) => Err(f),
        }
    }
}

/// The document that `text` writes: its steps in the order of the text, and
/// a warning for each unknown key at the margin. An empty text writes the
/// empty plan.
#[verifier::opaque]
pub open spec fn parsed(text: Seq<u8>) -> Result<ParsedView, ParseFault> {
    match fed_all(fresh_draft(), text, 0, 0) {
        Ok(d) => match closed(d) {
            Ok(c) => Ok(ParsedView { plan: c.steps, warnings: c.warnings }),
            Err(f) => Err(f),
        },
        Err(f) => Err(f),
    }
}

/// The executable result `r` is the mathematical result `s`.
pub open spec fn reads<T: View>(r: Result<T, ParseError>, s: Result<T::V, ParseFault>) -> bool {
    match s {
        Ok(v) => r matches Ok(x) && x@ == v,
        Err(f) => r matches Err(e) && e@ == f,
    }
}

struct Line<'a> {
    skip: bool,
    entry: bool,
    indent: usize,
    dash: bool,
    key: &'a [u8],
    value: &'a [u8],
}

impl<'a> View for Line<'a> {
    type V = LineView;

    closed spec fn view(&self) -> LineView {
        if self.skip {
            LineView::Skip
        } else if self.entry {
            LineView::Entry {
                indent: self.indent as nat,
                dash: self.dash,
                key: self.key@,
                value: self.value@,
            }
        } else {
            LineView::Malformed
        }
    }
}

fn unquote(value: &[u8]) -> (r: &[u8])
    ensures
        r@ == unquoted(value@),
{
    let n: usize = value.len();
    if n >= 2 && value[0] == value[n - 1] && (value[0] == QUOTE || value[0] == APOSTROPHE) {
        slice_subrange(value, 1, n - 1)
    } else {
        value
    }
}

fn classify<'a>(raw: &'a [u8]) -> (r: Line<'a>)
    ensures
        r@ == classified(raw@),
{
    let line: &[u8] = if raw.len() > 0 && raw[raw.len() - 1] == RETURN {
        slice_subrange(raw, 0, raw.len() - 1)
    } else {
        raw
    };
    let mut indent: usize = 0;
    while indent < line.len() && line[indent] == SPACE
        invariant
            indent <= line.len(),
            spaces_at(line@, 0) == indent + spaces_at(line@, indent as int),
        decreases line.len() - indent,
    {
        indent += 1;
    }
    let rest = slice_subrange(line, indent, line.len());
    let blank = Line { skip: true, entry: false, indent: 0, dash: false, key: rest, value: rest };
    if trim(rest).len() == 0 {
        return blank;
    }
    proof {
        if rest@.len() == 0 {
            assert(trimmed(rest@) =~= rest@);
        }
    }
    if rest[0] == HASH {
        return blank;
    }
    let dash: bool = rest.len() >= 2 && rest[0] == DASH && rest[1] == SPACE;
    let content: &[u8] = if dash {
        slice_subrange(rest, 2, rest.len())
    } else {
        rest
    };
    let colon: usize = scan_to(content, 0, COLON, COLON);
    let bad = Line { skip: false, entry: false, indent: 0, dash: false, key: rest, value: rest };
    if colon >= content.len() {
        return bad;
    }
    let key = trim(slice_subrange(content, 0, colon));
    let value = unquote(trim(slice_subrange(content, colon + 1, content.len())));
    if key.len() == 0 {
        return bad;
    }
    Line { skip: false, entry: true, indent, dash, key, value }
}

fn split_op<'a>(value: &'a [u8], op: &str) -> (r: Option<(&'a [u8], &'a [u8])>)
    ensures
        match split_at_op(value@, word(op)) {
            Some((left, right)) => r matches Some(x) && x.0@ == left && x.1@ == right,
            None => r is None,
        },
{
    let pat = op.as_bytes();
    match find(value, pat, 0) {
        Some(at) => {
            proof {
                lemma_first_occurrence(value@, pat@, 0);
            }
            let n: usize = value.len();
            Some((trim(slice_subrange(value, 0, at)), trim(slice_subrange(value, at + pat.len(), n))))
        },
        None => None,
    }
}

fn read_assertion(key: &[u8], value: &[u8]) -> (r: Result<Assertion, ParseErrorKind>)
    ensures
        match assertion_of(key@, value@) {
            Ok(a) => r matches Ok(x) && x@ == a,
            Err(kind) => r == Err::<Assertion, ParseErrorKind>(kind),
        },
{
    let status: bool = is_word(key, "status");
    if status || is_word(key, "max_time_ms") {
        match parse_decimal(value) {
            Some(n) => Ok(
                Assertion {
                    kind: if status {
                        AssertionKind::Status
                    } else {
                        AssertionKind::MaxTime
                    },
                    subject: to_vec(key),
                    expected: Vec::new(),
                    bound: n,
                },
            ),
            None => Err(ParseErrorKind::WrongType),
        }
    } else if is_word(key, "header") {
        match split_op(value, " == ") {
            Some((name, expected)) => if name.len() == 0 {
                Err(ParseErrorKind::WrongType)
            } else {
                Ok(
                    Assertion {
                        kind: AssertionKind::HeaderEquals,
                        subject: to_vec(name),
                        expected: to_vec(expected),
                        bound: 0,
                    },
                )
            },
            None => if value.len() == 0 {
                Err(ParseErrorKind::WrongType)
            } else {
                Ok(
                    Assertion {
                        kind: AssertionKind::HeaderPresent,
                        subject: to_vec(value),
                        expected: Vec::new(),
                        bound: 0,
                    },
                )
            },
        }
    } else if is_word(key, "body") {
        match split_op(value, " == ") {
            Some((path, expected)) => Ok(
                Assertion {
                    kind: AssertionKind::BodyEquals,
                    subject: to_vec(path),
                    expected: to_vec(expected),
                    bound: 0,
                },
            ),
            None => match split_op(value, " ~= ") {
                Some((path, pattern)) => Ok(
                    Assertion {
                        kind: AssertionKind::BodyMatches,
                        subject: to_vec(path),
                        expected: to_vec(pattern),
                        bound: 0,
                    },
                ),
                None => Err(ParseErrorKind::WrongType),
            },
        }
    } else {
        Err(ParseErrorKind::UnknownDirective)
    }
}

fn empty_step() -> (s: Step)
    ensures
        s@ == blank_step(),
{
    let s = Step {
        name: Vec::new(),
        request: Request {
            method: Vec::new(),
            target: Vec::new(),
            headers: Vec::new(),
            body: Vec::new(),
            timeout_ms: DEFAULT_TIMEOUT_MS,
        },
        asserts: Vec::new(),
        captures: Vec::new(),
        optional: false,
    };
    assert(s@.request.headers =~= Seq::<HeaderView>::empty());
    assert(s@.asserts =~= Seq::<AssertionView>::empty());
    assert(s@.captures =~= Seq::<CaptureView>::empty());
    s
}

struct Draft {
    steps: Vec<Step>,
    current: Step,
    open: bool,
    has_method: bool,
    has_target: bool,
    started: usize,
    section: Section,
    warnings: Vec<Warning>,
}

impl View for Draft {
    type V = DraftView;

    closed spec fn view(&self) -> DraftView {
        DraftView {
            steps: views(self.steps@),
            current: self.current@,
            open: self.open,
            has_method: self.has_method,
            has_target: self.has_target,
            started: self.started,
            section: self.section,
            warnings: views(self.warnings@),
        }
    }
}

/// The step `r` leaves `after` as `s` says.
spec fn settles(r: Result<(), ParseError>, after: DraftView, s: Result<DraftView, ParseFault>) -> bool {
    match s {
        Ok(d) => r is Ok && after == d,
        Err(f) => r matches Err(e) && e@ == f,
    }
}

fn failure(line: usize, kind: ParseErrorKind, key: &[u8]) -> (r: Result<(), ParseError>)
    ensures
        r matches Err(e) && e@ == fault(line, kind, key@),
{
    Err(ParseError { line, kind, key: to_vec(key) })
}

impl Draft {
    fn new() -> (d: Draft)
        ensures
            d@ == fresh_draft(),
    {
        let d = Draft {
            steps: Vec::new(),
            current: empty_step(),
            open: false,
            has_method: false,
            has_target: false,
            started: 0,
            section: Section::Top,
            warnings: Vec::new(),
        };
        assert(d@.steps =~= Seq::<StepView>::empty());
        assert(d@.warnings =~= Seq::<WarningView>::empty());
        d
    }

    fn close(&mut self) -> (r: Result<(), ParseError>)
        ensures
            settles(r, final(self)@, closed(old(self)@)),
    {
        if !self.open {
            Ok(())
        } else if !self.has_method {
            failure(self.started, ParseErrorKind::MissingField, "method".as_bytes())
        } else if !self.has_target {
            failure(self.started, ParseErrorKind::MissingField, "url".as_bytes())
        } else {
            let mut step = empty_step();
            core::mem::swap(&mut self.current, &mut step);
            proof {
                lemma_views_push(self.steps@, step);
            }
            self.steps.push(step);
            self.open = false;
            Ok(())
        }
    }

    fn field(&mut self, key: &[u8], value: &[u8], number: usize) -> (r: Result<(), ParseError>)
        ensures
            settles(r, final(self)@, with_field(old(self)@, key@, value@, number)),
    {
        if is_word(key, "name") {
            self.current.name = to_vec(value);
            self.section = Section::Fields;
            Ok(())
        } else if is_word(key, "method") {
            if value.len() == 0 {
                failure(number, ParseErrorKind::WrongType, key)
            } else {
                self.current.request.method = to_vec(value);
                self.has_method = true;
                self.section = Section::Fields;
                Ok(())
            }
        } else if is_word(key, "url") {
            if value.len() == 0 {
                failure(number, ParseErrorKind::WrongType, key)
            } else {
                self.current.request.target = to_vec(value);
                self.has_target = true;
                self.section = Section::Fields;
                Ok(())
            }
        } else if is_word(key, "body") {
            self.current.request.body = to_vec(value);
            self.section = Section::Fields;
            Ok(())
        } else if is_word(key, "optional") {
            let yes: bool = is_word(value, "true");
            if yes || is_word(value, "false") {
                self.current.optional = yes;
                self.section = Section::Fields;
                Ok(())
            } else {
                failure(number, ParseErrorKind::WrongType, key)
            }
        } else if is_word(key, "timeout_ms") {
            match parse_decimal(value) {
                Some(n) => {
                    self.current.request.timeout_ms = n;
                    self.section = Section::Fields;
                    Ok(())
                },
                None => failure(number, ParseErrorKind::WrongType, key),
            }
        } else {
            let headers: bool = is_word(key, "headers");
            let asserts: bool = is_word(key, "assert");
            if headers || asserts || is_word(key, "capture") {
                if value.len() != 0 {
                    failure(number, ParseErrorKind::WrongType, key)
                } else {
                    self.section = if headers {
                        Section::Headers
                    } else if asserts {
                        Section::Asserts
                    } else {
                        Section::Captures
                    };
                    Ok(())
                }
            } else {
                failure(number, ParseErrorKind::UnknownDirective, key)
            }
        }
    }

    fn feed(&mut self, raw: &[u8], number: usize) -> (r: Result<(), ParseError>)
        ensures
            settles(r, final(self)@, fed(old(self)@, raw@, number)),
    {
        let line = classify(raw);
        if line.skip {
            return Ok(());
        }
        if !line.entry {
            let none = slice_subrange(raw, 0, 0);
            assert(none@ =~= Seq::<u8>::empty());
            return failure(number, ParseErrorKind::Malformed, none);
        }
        if line.indent == 0 {
            match self.close() {
                Ok(()) => {},
                Err(e) => {
                    return Err(e);
                },
            }
            if line.dash {
                self.current = empty_step();
                self.open = true;
                self.has_method = false;
                self.has_target = false;
                self.started = number;
                self.section = Section::Fields;
                self.field(line.key, line.value, number)
            } else {
                let w = Warning { line: number, key: to_vec(line.key) };
                proof {
                    lemma_views_push(self.warnings@, w);
                }
                self.section = Section::Skipped;
                self.warnings.push(w);
                Ok(())
            }
        } else if self.section == Section::Skipped {
            Ok(())
        } else if !self.open {
            failure(number, ParseErrorKind::Indentation, line.key)
        } else if line.indent == 2 && !line.dash {
            self.field(line.key, line.value, number)
        } else if line.indent == 4 && !line.dash && self.section == Section::Headers {
            let h = Header { name: to_vec(line.key), value: to_vec(line.value) };
            proof {
                lemma_views_push(self.current.request.headers@, h);
            }
            self.current.request.headers.push(h);
            Ok(())
        } else if line.indent == 4 && !line.dash && self.section == Section::Captures {
            if line.value.len() == 0 {
                failure(number, ParseErrorKind::WrongType, line.key)
            } else {
                let c = Capture { name: to_vec(line.key), path: to_vec(line.value) };
                proof {
                    lemma_views_push(self.current.captures@, c);
                }
                self.current.captures.push(c);
                Ok(())
            }
        } else if line.indent == 4 && line.dash && self.section == Section::Asserts {
            match read_assertion(line.key, line.value) {
                Ok(a) => {
                    proof {
                        lemma_views_push(self.current.asserts@, a);
                    }
                    self.current.asserts.push(a);
                    Ok(())
                },
                Err(kind) => failure(number, kind, line.key),
            }
        } else {
            failure(number, ParseErrorKind::Indentation, line.key)
        }
    }
}

/// Reads a document.
pub fn parse(text: &[u8]) -> (r: Result<Parsed, ParseError>)
    ensures
        reads(r, parsed(text@)),
{
    let mut draft = Draft::new();
    let mut from: usize = 0;
    let mut count: usize = 0;
    let mut done: bool = false;
    proof {
        reveal(parsed);
    }
    while !done
        invariant
            from <= text.len(),
            count <= from,
            done ==> fed_all(fresh_draft(), text@, 0, 0) == Ok::<DraftView, ParseFault>(draft@),
            !done ==> fed_all(fresh_draft(), text@, 0, 0) == fed_all(
                draft@,
                text@,
                from as int,
                count as int,
            ),
        decreases
                text.len() - from + if done {
                    0int
                } else {
                    1int
                },
    {
        proof {
            reveal(parsed);
        }
        if from >= text.len() {
            done = true;
        } else {
            let end: usize = scan_to(text, from, NEWLINE, NEWLINE);
            match draft.feed(slice_subrange(text, from, end), count + 1) {
                Ok(()) => {},
                Err(e) => {
                    return Err(e);
                },
            }
            if end < text.len() {
                from = end + 1;
                count += 1;
            } else {
                done = true;
            }
        }
    }
    match draft.close() {
        Ok(()) => {},
        Err(e) => {
            return Err(e);
        },
    }
    let Draft { steps, warnings, .. } = draft;
    Ok(Parsed { plan: Plan { steps }, warnings })
}

/// How many steps a draft holds, the open one counted.
pub open spec fn weight(d: DraftView) -> int {
    d.steps.len() + if d.open {
        1int
    } else {
        0int
    }
}

/// A line adds at most one step.
pub proof fn lemma_fed_weight(d: DraftView, raw: Seq<u8>, number: usize)
    ensures
        fed(d, raw, number) matches Ok(n) ==> weight(n) <= weight(d) + 1,
{
}

/// Lines add no more steps than there are lines.
pub proof fn lemma_fed_all_weight(d: DraftView, text: Seq<u8>, from: int, count: int)
    requires
        0 <= count <= usize::MAX,
        weight(d) <= count,
    ensures
        fed_all(d, text, from, count) matches Ok(n) ==> weight(n) <= usize::MAX,
    decreases text.len() - from,
{
    if from < 0 || from >= text.len() || count >= usize::MAX {
    } else {
        let end = stop_at(text, from, NEWLINE, NEWLINE);
        lemma_fed_weight(d, text.subrange(from, end), (count + 1) as usize);
        match fed(d, text.subrange(from, end), (count + 1) as usize) {
            Ok(next) => {
                if end < text.len() {
                    lemma_stop_at(text, from, NEWLINE, NEWLINE);
                    lemma_fed_all_weight(next, text, end + 1, count + 1);
                }
            },
            Err(_) => {},
        }
    }
}

/// A plan that was read has no more steps than can be counted.
pub proof fn lemma_parsed_length(text: Seq<u8>)
    ensures
        parsed(text) matches Ok(p) ==> p.plan.len() <= usize::MAX,
{
    reveal(parsed);
    lemma_fed_all_weight(fresh_draft(), text, 0, 0);
}

/// The step names a method and a target.
pub open spec fn addressed(step: StepView) -> bool {
    step.request.method.len() > 0 && step.request.target.len() > 0
}

/// Every step that the draft has taken in names a method and a target, and
/// so does the open step as far as the draft says that it has them.
pub open spec fn sound(d: DraftView) -> bool {
    &&& forall|i: int| 0 <= i < d.steps.len() ==> addressed(#[trigger] d.steps[i])
    &&& d.open && d.has_method ==> d.current.request.method.len() > 0
    &&& d.open && d.has_target ==> d.current.request.target.len() > 0
}

/// A line keeps a draft sound.
pub proof fn lemma_fed_sound(d: DraftView, raw: Seq<u8>, number: usize)
    requires
        sound(d),
    ensures
        fed(d, raw, number) matches Ok(n) ==> sound(n),
{
    lemma_closed_sound(d);
}

/// Closing the open step keeps a draft sound.
pub proof fn lemma_closed_sound(d: DraftView)
    requires
        sound(d),
    ensures
        closed(d) matches Ok(n) ==> sound(n) && !n.open,
{
    match closed(d) {
        Ok(n) => {
            assert forall|i: int| 0 <= i < n.steps.len() implies addressed(
                #[trigger] n.steps[i],
            ) by {
                if i < d.steps.len() {
                    assert(n.steps[i] == d.steps[i]);
                }
            }
        },
        Err(_) => {},
    }
}

/// Lines keep a draft sound.
pub proof fn lemma_fed_all_sound(d: DraftView, text: Seq<u8>, from: int, count: int)
    requires
        sound(d),
    ensures
        fed_all(d, text, from, count) matches Ok(n) ==> sound(n),
    decreases text.len() - from,
{
    if from < 0 || from >= text.len() || count < 0 || count >= usize::MAX {
    } else {
        let end = stop_at(text, from, NEWLINE, NEWLINE);
        lemma_fed_sound(d, text.subrange(from, end), (count + 1) as usize);
        match fed(d, text.subrange(from, end), (count + 1) as usize) {
            Ok(next) => {
                if end < text.len() {
                    lemma_stop_at(text, from, NEWLINE, NEWLINE);
                    lemma_fed_all_sound(next, text, end + 1, count + 1);
                }
            },
            Err(_) => {},
        }
    }
}

/// Every step of a plan that was read names a method and a target: a
/// document with a step that lacks one is refused.
pub proof fn lemma_parsed_steps_addressed(text: Seq<u8>)
    ensures
        parsed(text) matches Ok(p) ==> forall|i: int|
            0 <= i < p.plan.len() ==> addressed(#[trigger] p.plan[i]),
{
    reveal(parsed);
    lemma_fed_all_sound(fresh_draft(), text, 0, 0);
    match fed_all(fresh_draft(), text, 0, 0) {
        Ok(d) => {
            lemma_closed_sound(d);
        },
        Err(_) => {},
    }
}

/// Reading is a function of the text alone: equal texts write equal
/// documents, and fail alike.
pub proof fn lemma_parse_deterministic(a: Seq<u8>, b: Seq<u8>)
    requires
        a == b,
    ensures
        parsed(a) == parsed(b),
{
}

/// The empty text writes the empty plan, without a warning.
pub proof fn lemma_empty_document()
    ensures
        parsed(Seq::<u8>::empty()) == Ok::<ParsedView, ParseFault>(
            ParsedView { plan: Seq::empty(), warnings: Seq::empty() },
        ),
{
    reveal(parsed);
}

} // verus!

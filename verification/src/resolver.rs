//! Placeholder resolution. A placeholder is written `${name}`; its name runs
//! up to the first `}`. Resolution replaces every placeholder of a text by
//! the value bound to its name and repeats this on the result, so that a
//! value may itself hold placeholders, for at most `MAX_DEPTH` rounds.

use vstd::prelude::*;
use vstd::slice::slice_subrange;
use crate::model::{
    lemma_views_push, views, Assertion, AssertionView, Capture, CaptureView, Header, HeaderView,
    Request, RequestView, Step, StepView,
};
use crate::text::{append, to_vec, word, CLOSE_BRACE, DOLLAR, OPEN_BRACE};
use crate::vars::VariableTable;

verus! {

/// The number of substitution rounds after which resolution gives up.
pub const MAX_DEPTH: usize = 8;

/// Why a text could not be resolved.
#[derive(Debug, Clone, PartialEq, Eq)]
pub enum ResolutionError {
    /// The placeholder `name` is bound to nothing.
    Unbound { name: Vec<u8> },
    /// After `MAX_DEPTH` rounds the placeholder `name` was still there.
    TooDeep { name: Vec<u8> },
}

/// The mathematical value of a `ResolutionError`.
pub enum ResolutionFault {
    Unbound { name: Seq<u8> },
    TooDeep { name: Seq<u8> },
}

impl View for ResolutionError {
    type V = ResolutionFault;

    open spec fn view(&self) -> ResolutionFault {
        match self {
            ResolutionError::Unbound { name } => ResolutionFault::Unbound { name: name@ },
            ResolutionError::TooDeep { name } => ResolutionFault::TooDeep { name: name@ },
        }
    }
}

/// The executable result `r` is the mathematical result `s`.
pub open spec fn agrees<T: View>(
    r: Result<T, ResolutionError>,
    s: Result<T::V, ResolutionFault>,
) -> bool {
    match s {
        Ok(v) => r matches Ok(x) && x@ == v,
        Err(f) => r matches Err(e) && e@ == f,
    }
}

/// The bindings seen by a text: those of `local` before those of `table`.
pub open spec fn scope_of(table: Map<Seq<u8>, Seq<u8>>, local: Map<Seq<u8>, Seq<u8>>) -> Map<
    Seq<u8>,
    Seq<u8>,
> {
    table.union_prefer_right(local)
}

/// `${` stands at index `i`.
pub open spec fn opens_at(text: Seq<u8>, i: int) -> bool {
    0 <= i && i + 1 < text.len() && text[i] == DOLLAR && text[i + 1] == OPEN_BRACE
}

/// How many bytes from index `from` on come before the next `}`.
pub open spec fn run_to_brace(text: Seq<u8>, from: int) -> nat
    decreases text.len() - from,
{
    if from < 0 || from >= text.len() || text[from] == CLOSE_BRACE {
        0
    } else {
        1 + run_to_brace(text, from + 1)
    }
}

/// The index of the first `}` at or after `from`; the length of the text if
/// there is none.
pub open spec fn closing(text: Seq<u8>, from: int) -> int {
    from + run_to_brace(text, from)
}

/// A placeholder starts at index `i`: `${`, then a name, then `}`.
pub open spec fn placeholder_at(text: Seq<u8>, i: int) -> bool {
    opens_at(text, i) && closing(text, i + 2) < text.len()
}

/// The name of the placeholder that starts at index `i`.
pub open spec fn name_at(text: Seq<u8>, i: int) -> Seq<u8> {
    text.subrange(i + 2, closing(text, i + 2))
}

/// No placeholder starts anywhere in `text`.
pub open spec fn is_plain(text: Seq<u8>) -> bool {
    forall|i: int| !placeholder_at(text, i)
}

/// The start of the first placeholder at or after `from`.
pub open spec fn next_placeholder(text: Seq<u8>, from: int) -> Option<int>
    decreases text.len() - from,
{
    if from < 0 || from >= text.len() {
        None
    } else if placeholder_at(text, from) {
        Some(from)
    } else {
        next_placeholder(text, from + 1)
    }
}

/// `prefix` in front of a successful result.
pub open spec fn prepend(prefix: Seq<u8>, r: Result<Seq<u8>, ResolutionFault>) -> Result<
    Seq<u8>,
    ResolutionFault,
> {
    match r {
        Ok(rest) => Ok(prefix + rest),
        Err(f) => Err(f),
    }
}

/// One round of substitution on the part of `text` from index `from` on:
/// each placeholder, read from left to right, gives way to the value that
/// `scope` binds to its name. The first placeholder whose name is unbound
/// makes the round fail.
pub open spec fn substituted(text: Seq<u8>, scope: Map<Seq<u8>, Seq<u8>>, from: int) -> Result<
    Seq<u8>,
    ResolutionFault,
>
    decreases text.len() - from,
{
    if from < 0 || from >= text.len() {
        Ok(Seq::empty())
    } else if placeholder_at(text, from) {
        let name = name_at(text, from);
        if scope.contains_key(name) {
            prepend(scope[name], substituted(text, scope, closing(text, from + 2) + 1))
        } else {
            Err(ResolutionFault::Unbound { name })
        }
    } else {
        prepend(seq![text[from]], substituted(text, scope, from + 1))
    }
}

/// Resolution of `text` with `depth` rounds left: a text without
/// placeholders is the result; otherwise one round of substitution is made
/// and its result resolved with one round less.
pub open spec fn resolved(text: Seq<u8>, scope: Map<Seq<u8>, Seq<u8>>, depth: nat) -> Result<
    Seq<u8>,
    ResolutionFault,
>
    decreases depth,
{
    match next_placeholder(text, 0) {
        None => Ok(text),
        Some(at) => if depth == 0 {
            Err(ResolutionFault::TooDeep { name: name_at(text, at) })
        } else {
            match substituted(text, scope, 0) {
                Ok(next) => resolved(next, scope, (depth - 1) as nat),
                Err(f) => Err(f),
            }
        },
    }
}

/// The names of the unbound placeholders that one round of substitution
/// meets from index `from` on, from left to right.
pub open spec fn unbound_names(text: Seq<u8>, scope: Map<Seq<u8>, Seq<u8>>, from: int) -> Seq<
    Seq<u8>,
>
    decreases text.len() - from,
{
    if from < 0 || from >= text.len() {
        Seq::empty()
    } else if placeholder_at(text, from) {
        let rest = unbound_names(text, scope, closing(text, from + 2) + 1);
        if scope.contains_key(name_at(text, from)) {
            rest
        } else {
            seq![name_at(text, from)] + rest
        }
    } else {
        unbound_names(text, scope, from + 1)
    }
}

/// `next_placeholder` finds the leftmost placeholder, and finds one whenever
/// a placeholder starts at or after `from`.
pub proof fn lemma_next_placeholder(text: Seq<u8>, from: int)
    requires
        0 <= from,
    ensures
        match next_placeholder(text, from) {
            Some(at) => from <= at < text.len() && placeholder_at(text, at) && forall|k: int|
                from <= k < at ==> !placeholder_at(text, k),
            None => forall|k: int| from <= k ==> !placeholder_at(text, k),
        },
    decreases text.len() - from,
{
    if from < text.len() && !placeholder_at(text, from) {
        lemma_next_placeholder(text, from + 1);
    }
}

/// A text without placeholders resolves to itself, whatever is bound.
pub proof fn lemma_plain_text_unchanged(text: Seq<u8>, scope: Map<Seq<u8>, Seq<u8>>, depth: nat)
    requires
        is_plain(text),
    ensures
        resolved(text, scope, depth) == Ok::<Seq<u8>, ResolutionFault>(text),
{
    lemma_next_placeholder(text, 0);
}

/// A round of substitution fails exactly when it meets an unbound
/// placeholder, and then names the first one.
pub proof fn lemma_substituted_unbound(text: Seq<u8>, scope: Map<Seq<u8>, Seq<u8>>, from: int)
    ensures
        unbound_names(text, scope, from).len() == 0 ==> substituted(text, scope, from) is Ok,
        unbound_names(text, scope, from).len() > 0 ==> substituted(text, scope, from) == Err::<
            Seq<u8>,
            ResolutionFault,
        >(ResolutionFault::Unbound { name: unbound_names(text, scope, from)[0] }),
    decreases text.len() - from,
{
    if from < 0 || from >= text.len() {
    } else if placeholder_at(text, from) {
        if scope.contains_key(name_at(text, from)) {
            lemma_substituted_unbound(text, scope, closing(text, from + 2) + 1);
        }
    } else {
        lemma_substituted_unbound(text, scope, from + 1);
    }
}

/// A text in which a round of substitution meets an unbound placeholder does
/// not resolve: the error names the first such placeholder. In particular a
/// text with exactly one unbound placeholder fails with that placeholder's
/// name.
pub proof fn lemma_unbound_placeholder_named(
    text: Seq<u8>,
    scope: Map<Seq<u8>, Seq<u8>>,
    depth: nat,
)
    requires
        depth > 0,
        unbound_names(text, scope, 0).len() > 0,
    ensures
        resolved(text, scope, depth) == Err::<Seq<u8>, ResolutionFault>(
            ResolutionFault::Unbound { name: unbound_names(text, scope, 0)[0] },
        ),
{
    lemma_substituted_unbound(text, scope, 0);
    lemma_unbound_implies_placeholder(text, scope, 0);
}

proof fn lemma_unbound_implies_placeholder(text: Seq<u8>, scope: Map<Seq<u8>, Seq<u8>>, from: int)
    requires
        unbound_names(text, scope, from).len() > 0,
    ensures
        next_placeholder(text, from) is Some,
    decreases text.len() - from,
{
    if from < 0 || from >= text.len() {
    } else if placeholder_at(text, from) {
    } else {
        lemma_unbound_implies_placeholder(text, scope, from + 1);
    }
}

proof fn lemma_prepend_twice(a: Seq<u8>, b: Seq<u8>, r: Result<Seq<u8>, ResolutionFault>)
    ensures
        prepend(a, prepend(b, r)) == prepend(a + b, r),
{
    match r {
        Ok(rest) => {
            assert(a + (b + rest) =~= (a + b) + rest);
        },
        Err(_) => {},
    }
}

fn find_closing(text: &[u8], from: usize) -> (r: usize)
    requires
        from <= text.len(),
    ensures
        r == closing(text@, from as int),
        from <= r <= text.len(),
{
    let mut j: usize = from;
    while j < text.len() && text[j] != CLOSE_BRACE
        invariant
            from <= j <= text.len(),
            closing(text@, from as int) == closing(text@, j as int),
        decreases text.len() - j,
    {
        j += 1;
    }
    j
}

fn is_placeholder(text: &[u8], at: usize) -> (r: bool)
    ensures
        r == placeholder_at(text@, at as int),
{
    if at < text.len() && text.len() - at >= 2 && text[at] == DOLLAR && text[at + 1] == OPEN_BRACE {
        find_closing(text, at + 2) < text.len()
    } else {
        false
    }
}

fn find_placeholder(text: &[u8], from: usize) -> (r: Option<usize>)
    ensures
        match r {
            Some(at) => next_placeholder(text@, from as int) == Some(at as int) && placeholder_at(
                text@,
                at as int,
            ),
            None => next_placeholder(text@, from as int) is None,
        },
{
    let mut i: usize = from;
    while i < text.len()
        invariant
            from <= i,
            next_placeholder(text@, from as int) == next_placeholder(text@, i as int),
        decreases text.len() - i,
    {
        if is_placeholder(text, i) {
            return Some(i);
        }
        i += 1;
    }
    None
}

fn lookup<'a>(name: &[u8], table: &'a VariableTable, local: &'a VariableTable) -> (r: Option<
    &'a Vec<u8>,
>)
    ensures
        match r {
            Some(v) => scope_of(table@, local@).contains_key(name@) && scope_of(
                table@,
                local@,
            )[name@] == v@,
            None => !scope_of(table@, local@).contains_key(name@),
        },
{
    match local.get(name) {
        Some(v) => Some(v),
        None => table.get(name),
    }
}

fn substitute(text: &[u8], table: &VariableTable, local: &VariableTable) -> (r: Result<
    Vec<u8>,
    ResolutionError,
>)
    ensures
        agrees(r, substituted(text@, scope_of(table@, local@), 0)),
{
    let ghost scope = scope_of(table@, local@);
    let mut out: Vec<u8> = Vec::new();
    let mut i: usize = 0;
    assert(prepend(out@, substituted(text@, scope, 0)) == substituted(text@, scope, 0)) by {
        match substituted(text@, scope, 0) {
            Ok(rest) => {
                assert(out@ + rest =~= rest);
            },
            Err(_) => {},
        }
    }
    while i < text.len()
        invariant
            i <= text.len(),
            scope == scope_of(table@, local@),
            substituted(text@, scope, 0) == prepend(out@, substituted(text@, scope, i as int)),
        decreases text.len() - i,
    {
        if is_placeholder(text, i) {
            let j: usize = find_closing(text, i + 2);
            let name = slice_subrange(text, i + 2, j);
            match lookup(name, table, local) {
                Some(v) => {
                    proof {
                        lemma_prepend_twice(out@, v@, substituted(text@, scope, j + 1));
                    }
                    append(&mut out, v.as_slice());
                    i = j + 1;
                },
                None => {
                    return Err(ResolutionError::Unbound { name: to_vec(name) });
                },
            }
        } else {
            proof {
                lemma_prepend_twice(out@, seq![text@[i as int]], substituted(text@, scope, i + 1));
                assert(out@.push(text@[i as int]) =~= out@ + seq![text@[i as int]]);
            }
            out.push(text[i]);
            i += 1;
        }
    }
    assert(out@ + Seq::<u8>::empty() =~= out@);
    Ok(out)
}

/// Resolves `text` against `table`, with the bindings of `local` taking
/// precedence.
pub fn resolve_in(text: &[u8], table: &VariableTable, local: &VariableTable) -> (r: Result<
    Vec<u8>,
    ResolutionError,
>)
    ensures
        agrees(r, resolved(text@, scope_of(table@, local@), MAX_DEPTH as nat)),
{
    let ghost scope = scope_of(table@, local@);
    let mut current: Vec<u8> = to_vec(text);
    let mut left: usize = MAX_DEPTH;
    loop
        invariant
            left <= MAX_DEPTH,
            scope == scope_of(table@, local@),
            resolved(text@, scope, MAX_DEPTH as nat) == resolved(current@, scope, left as nat),
        decreases left,
    {
        match find_placeholder(current.as_slice(), 0) {
            None => {
                return Ok(current);
            },
            Some(at) => {
                if left == 0 {
                    let end: usize = find_closing(current.as_slice(), at + 2);
                    let name = to_vec(slice_subrange(current.as_slice(), at + 2, end));
                    return Err(ResolutionError::TooDeep { name });
                }
                match substitute(current.as_slice(), table, local) {
                    Ok(next) => {
                        current = next;
                        left -= 1;
                    },
                    Err(e) => {
                        return Err(e);
                    },
                }
            },
        }
    }
}

/// Resolves `text` against `table`.
pub fn resolve_text(text: &[u8], table: &VariableTable) -> (r: Result<Vec<u8>, ResolutionError>)
    ensures
        agrees(r, resolved(text@, table@, MAX_DEPTH as nat)),
{
    let local = VariableTable::new();
    assert(scope_of(table@, local@) =~= table@);
    resolve_in(text, table, &local)
}

/// The executable list `r` is the mathematical list `s`.
pub open spec fn agrees_each<T: View>(
    r: Result<Vec<T>, ResolutionError>,
    s: Result<Seq<T::V>, ResolutionFault>,
) -> bool {
    match s {
        Ok(v) => r matches Ok(x) && views(x@) == v,
        Err(f) => r matches Err(e) && e@ == f,
    }
}

/// The first-round unbound placeholder that makes `text` fail, if there is
/// one.
pub open spec fn first_unbound(text: Seq<u8>, scope: Map<Seq<u8>, Seq<u8>>) -> Option<Seq<u8>> {
    if unbound_names(text, scope, 0).len() > 0 {
        Some(unbound_names(text, scope, 0)[0])
    } else {
        None
    }
}

/// A part of a step whose texts hold placeholders.
pub trait Resolve: View + Sized {
    /// The value with each of its texts resolved in `scope`, or the fault of
    /// the first text that does not resolve.
    spec fn resolved_in(v: Self::V, scope: Map<Seq<u8>, Seq<u8>>) -> Result<
        Self::V,
        ResolutionFault,
    >;

    /// None of the value's texts holds a placeholder.
    spec fn plain(v: Self::V) -> bool;

    /// The name of an unbound placeholder in the first of the value's texts
    /// that holds any placeholder.
    spec fn faulty(v: Self::V, scope: Map<Seq<u8>, Seq<u8>>) -> Option<Seq<u8>>;

    /// A value without placeholders resolves to itself.
    proof fn lemma_plain(v: Self::V, scope: Map<Seq<u8>, Seq<u8>>)
        requires
            Self::plain(v),
        ensures
            Self::resolved_in(v, scope) == Ok::<Self::V, ResolutionFault>(v),
    ;

    /// A value does not resolve when the first of its texts with a
    /// placeholder holds an unbound one: the fault names it.
    proof fn lemma_faulty(v: Self::V, scope: Map<Seq<u8>, Seq<u8>>)
        requires
            Self::faulty(v, scope) is Some,
        ensures
            Self::resolved_in(v, scope) == Err::<Self::V, ResolutionFault>(
                ResolutionFault::Unbound { name: Self::faulty(v, scope)->0 },
            ),
    ;

    /// Resolves the texts of `self` against `table`, with the bindings of
    /// `local` taking precedence.
    fn resolve(&self, table: &VariableTable, local: &VariableTable) -> (r: Result<
        Self,
        ResolutionError,
    >)
        ensures
            agrees(r, Self::resolved_in(self@, scope_of(table@, local@))),
    ;
}

impl Resolve for Header {
    open spec fn resolved_in(v: HeaderView, scope: Map<Seq<u8>, Seq<u8>>) -> Result<
        HeaderView,
        ResolutionFault,
    > {
        match resolved(v.value, scope, MAX_DEPTH as nat) {
            Ok(value) => Ok(HeaderView { name: v.name, value }),
            Err(f) => Err(f),
        }
    }

    open spec fn plain(v: HeaderView) -> bool {
        is_plain(v.value)
    }

    open spec fn faulty(v: HeaderView, scope: Map<Seq<u8>, Seq<u8>>) -> Option<Seq<u8>> {
        first_unbound(v.value, scope)
    }

    proof fn lemma_plain(v: HeaderView, scope: Map<Seq<u8>, Seq<u8>>) {
        lemma_plain_text_unchanged(v.value, scope, MAX_DEPTH as nat);
    }

    proof fn lemma_faulty(v: HeaderView, scope: Map<Seq<u8>, Seq<u8>>) {
        lemma_unbound_placeholder_named(v.value, scope, MAX_DEPTH as nat);
    }

    fn resolve(&self, table: &VariableTable, local: &VariableTable) -> (r: Result<
        Header,
        ResolutionError,
    >) {
        match resolve_in(self.value.as_slice(), table, local) {
            Ok(value) => Ok(Header { name: to_vec(self.name.as_slice()), value }),
            Err(e) => Err(e),
        }
    }
}

impl Resolve for Capture {
    open spec fn resolved_in(v: CaptureView, scope: Map<Seq<u8>, Seq<u8>>) -> Result<
        CaptureView,
        ResolutionFault,
    > {
        match resolved(v.path, scope, MAX_DEPTH as nat) {
            Ok(path) => Ok(CaptureView { name: v.name, path }),
            Err(f) => Err(f),
        }
    }

    open spec fn plain(v: CaptureView) -> bool {
        is_plain(v.path)
    }

    open spec fn faulty(v: CaptureView, scope: Map<Seq<u8>, Seq<u8>>) -> Option<Seq<u8>> {
        first_unbound(v.path, scope)
    }

    proof fn lemma_plain(v: CaptureView, scope: Map<Seq<u8>, Seq<u8>>) {
        lemma_plain_text_unchanged(v.path, scope, MAX_DEPTH as nat);
    }

    proof fn lemma_faulty(v: CaptureView, scope: Map<Seq<u8>, Seq<u8>>) {
        lemma_unbound_placeholder_named(v.path, scope, MAX_DEPTH as nat);
    }

    fn resolve(&self, table: &VariableTable, local: &VariableTable) -> (r: Result<
        Capture,
        ResolutionError,
    >) {
        match resolve_in(self.path.as_slice(), table, local) {
            Ok(path) => Ok(Capture { name: to_vec(self.name.as_slice()), path }),
            Err(e) => Err(e),
        }
    }
}

impl Resolve for Assertion {
    open spec fn resolved_in(v: AssertionView, scope: Map<Seq<u8>, Seq<u8>>) -> Result<
        AssertionView,
        ResolutionFault,
    > {
        match resolved(v.subject, scope, MAX_DEPTH as nat) {
            Ok(subject) => match resolved(v.expected, scope, MAX_DEPTH as nat) {
                Ok(expected) => Ok(
                    AssertionView { kind: v.kind, subject, expected, bound: v.bound },
                ),
                Err(f) => Err(f),
            },
            Err(f) => Err(f),
        }
    }

    open spec fn plain(v: AssertionView) -> bool {
        is_plain(v.subject) && is_plain(v.expected)
    }

    open spec fn faulty(v: AssertionView, scope: Map<Seq<u8>, Seq<u8>>) -> Option<Seq<u8>> {
        if is_plain(v.subject) {
            first_unbound(v.expected, scope)
        } else {
            first_unbound(v.subject, scope)
        }
    }

    proof fn lemma_plain(v: AssertionView, scope: Map<Seq<u8>, Seq<u8>>) {
        lemma_plain_text_unchanged(v.subject, scope, MAX_DEPTH as nat);
        lemma_plain_text_unchanged(v.expected, scope, MAX_DEPTH as nat);
    }

    proof fn lemma_faulty(v: AssertionView, scope: Map<Seq<u8>, Seq<u8>>) {
        if is_plain(v.subject) {
            lemma_plain_text_unchanged(v.subject, scope, MAX_DEPTH as nat);
            lemma_unbound_placeholder_named(v.expected, scope, MAX_DEPTH as nat);
        } else {
            lemma_unbound_placeholder_named(v.subject, scope, MAX_DEPTH as nat);
        }
    }

    fn resolve(&self, table: &VariableTable, local: &VariableTable) -> (r: Result<
        Assertion,
        ResolutionError,
    >) {
        match resolve_in(self.subject.as_slice(), table, local) {
            Ok(subject) => match resolve_in(self.expected.as_slice(), table, local) {
                Ok(expected) => Ok(
                    Assertion { kind: self.kind, subject, expected, bound: self.bound },
                ),
                Err(e) => Err(e),
            },
            Err(e) => Err(e),
        }
    }
}

/// `head` in front of a successful list.
pub open spec fn prepend_each<V>(head: Seq<V>, r: Result<Seq<V>, ResolutionFault>) -> Result<
    Seq<V>,
    ResolutionFault,
> {
    match r {
        Ok(rest) => Ok(head + rest),
        Err(f) => Err(f),
    }
}

/// The items from index `from` on, each resolved in `scope`, or the fault of
/// the first item that does not resolve.
pub open spec fn resolved_each<T: Resolve>(
    items: Seq<T::V>,
    scope: Map<Seq<u8>, Seq<u8>>,
    from: int,
) -> Result<Seq<T::V>, ResolutionFault>
    decreases items.len() - from,
{
    if from < 0 || from >= items.len() {
        Ok(Seq::empty())
    } else {
        match T::resolved_in(items[from], scope) {
            Ok(v) => prepend_each(seq![v], resolved_each::<T>(items, scope, from + 1)),
            Err(f) => Err(f),
        }
    }
}

/// Every item from index `from` on is without placeholders.
pub open spec fn plain_each<T: Resolve>(items: Seq<T::V>, from: int) -> bool {
    forall|i: int| from <= i < items.len() ==> T::plain(#[trigger] items[i])
}

/// Items without placeholders resolve to themselves.
pub proof fn lemma_plain_each<T: Resolve>(
    items: Seq<T::V>,
    scope: Map<Seq<u8>, Seq<u8>>,
    from: int,
)
    requires
        0 <= from <= items.len(),
        plain_each::<T>(items, from),
    ensures
        resolved_each::<T>(items, scope, from) == Ok::<Seq<T::V>, ResolutionFault>(
            items.subrange(from, items.len() as int),
        ),
    decreases items.len() - from,
{
    if from < items.len() {
        T::lemma_plain(items[from], scope);
        lemma_plain_each::<T>(items, scope, from + 1);
        assert(seq![items[from]] + items.subrange(from + 1, items.len() as int)
            =~= items.subrange(from, items.len() as int));
    } else {
        assert(items.subrange(from, items.len() as int) =~= Seq::empty());
    }
}

/// A list whose items before index `at` are without placeholders, and whose
/// item `at` holds an unbound placeholder in its first text with any, does
/// not resolve: the fault names that placeholder.
pub proof fn lemma_faulty_each<T: Resolve>(
    items: Seq<T::V>,
    scope: Map<Seq<u8>, Seq<u8>>,
    from: int,
    at: int,
)
    requires
        0 <= from <= at < items.len(),
        forall|i: int| from <= i < at ==> T::plain(#[trigger] items[i]),
        T::faulty(items[at], scope) is Some,
    ensures
        resolved_each::<T>(items, scope, from) == Err::<Seq<T::V>, ResolutionFault>(
            ResolutionFault::Unbound { name: T::faulty(items[at], scope)->0 },
        ),
    decreases at - from,
{
    if from == at {
        T::lemma_faulty(items[at], scope);
    } else {
        T::lemma_plain(items[from], scope);
        lemma_faulty_each::<T>(items, scope, from + 1, at);
    }
}

/// Resolves each item of a list, in order, and stops at the first that does
/// not resolve.
pub fn resolve_each<T: Resolve>(items: &Vec<T>, table: &VariableTable, local: &VariableTable) -> (r:
    Result<Vec<T>, ResolutionError>)
    ensures
        agrees_each(r, resolved_each::<T>(views(items@), scope_of(table@, local@), 0)),
{
    let ghost scope = scope_of(table@, local@);
    let ghost all = views(items@);
    let mut out: Vec<T> = Vec::new();
    let mut k: usize = 0;
    assert(prepend_each(views(out@), resolved_each::<T>(all, scope, 0)) == resolved_each::<T>(
        all,
        scope,
        0,
    )) by {
        match resolved_each::<T>(all, scope, 0) {
            Ok(rest) => {
                assert(views(out@) + rest =~= rest);
            },
            Err(_) => {},
        }
    }
    while k < items.len()
        invariant
            k <= items.len(),
            scope == scope_of(table@, local@),
            all == views(items@),
            resolved_each::<T>(all, scope, 0) == prepend_each(
                views(out@),
                resolved_each::<T>(all, scope, k as int),
            ),
        decreases items.len() - k,
    {
        match items[k].resolve(table, local) {
            Ok(item) => {
                proof {
                    lemma_views_push(out@, item);
                    match resolved_each::<T>(all, scope, k + 1) {
                        Ok(rest) => {
                            assert(views(out@) + (seq![item@] + rest) =~= views(out@).push(item@)
                                + rest);
                        },
                        Err(_) => {},
                    }
                }
                out.push(item);
            },
            Err(e) => {
                return Err(e);
            },
        }
        k += 1;
    }
    assert(views(out@) + Seq::<T::V>::empty() =~= views(out@));
    Ok(out)
}

/// The name under which assertions and captures see the request's method.
pub open spec fn method_key() -> Seq<u8> {
    word("request.method")
}

/// The name under which assertions and captures see the resolved target.
pub open spec fn target_key() -> Seq<u8> {
    word("request.url")
}

/// The name under which assertions and captures see the resolved body.
pub open spec fn body_key() -> Seq<u8> {
    word("request.body")
}

/// The bindings that a resolved request adds for its own assertions and
/// captures.
pub open spec fn request_scope(request: RequestView) -> Map<Seq<u8>, Seq<u8>> {
    Map::<Seq<u8>, Seq<u8>>::empty().insert(method_key(), request.method).insert(
        target_key(),
        request.target,
    ).insert(body_key(), request.body)
}

/// The request with its headers, then its target, then its body resolved
/// against `table`.
pub open spec fn resolved_request(request: RequestView, table: Map<Seq<u8>, Seq<u8>>) -> Result<
    RequestView,
    ResolutionFault,
> {
    match resolved_each::<Header>(request.headers, table, 0) {
        Ok(headers) => match resolved(request.target, table, MAX_DEPTH as nat) {
            Ok(target) => match resolved(request.body, table, MAX_DEPTH as nat) {
                Ok(body) => Ok(
                    RequestView {
                        method: request.method,
                        target,
                        headers,
                        body,
                        timeout_ms: request.timeout_ms,
                    },
                ),
                Err(f) => Err(f),
            },
            Err(f) => Err(f),
        },
        Err(f) => Err(f),
    }
}

/// The step with its request resolved against `table`, and then its
/// assertions and captures resolved against `table` and the resolved
/// request's own fields.
pub open spec fn resolved_step(step: StepView, table: Map<Seq<u8>, Seq<u8>>) -> Result<
    StepView,
    ResolutionFault,
> {
    match resolved_request(step.request, table) {
        Ok(request) => {
            let scope = scope_of(table, request_scope(request));
            match resolved_each::<Assertion>(step.asserts, scope, 0) {
                Ok(asserts) => match resolved_each::<Capture>(step.captures, scope, 0) {
                    Ok(captures) => Ok(
                        StepView {
                            name: step.name,
                            request,
                            asserts,
                            captures,
                            optional: step.optional,
                        },
                    ),
                    Err(f) => Err(f),
                },
                Err(f) => Err(f),
            }
        },
        Err(f) => Err(f),
    }
}

/// Resolves the request of a step: headers, then target, then body.
pub fn resolve_request(request: &Request, table: &VariableTable) -> (r: Result<
    Request,
    ResolutionError,
>)
    ensures
        agrees(r, resolved_request(request@, table@)),
{
    let local = VariableTable::new();
    assert(scope_of(table@, local@) =~= table@);
    let headers = match resolve_each(&request.headers, table, &local) {
        Ok(headers) => headers,
        Err(e) => {
            return Err(e);
        },
    };
    let target = match resolve_in(request.target.as_slice(), table, &local) {
        Ok(target) => target,
        Err(e) => {
            return Err(e);
        },
    };
    let body = match resolve_in(request.body.as_slice(), table, &local) {
        Ok(body) => body,
        Err(e) => {
            return Err(e);
        },
    };
    Ok(
        Request {
            method: to_vec(request.method.as_slice()),
            target,
            headers,
            body,
            timeout_ms: request.timeout_ms,
        },
    )
}

/// Resolves a step against `table`: the request first, then the assertions
/// and the captures, which also see the resolved request under the names
/// `request.method`, `request.url` and `request.body`.
pub fn resolve_step(step: &Step, table: &VariableTable) -> (r: Result<Step, ResolutionError>)
    ensures
        agrees(r, resolved_step(step@, table@)),
{
    let request = match resolve_request(&step.request, table) {
        Ok(request) => request,
        Err(e) => {
            return Err(e);
        },
    };
    let mut local = VariableTable::new();
    local.set(to_vec("request.method".as_bytes()), to_vec(request.method.as_slice()));
    local.set(to_vec("request.url".as_bytes()), to_vec(request.target.as_slice()));
    local.set(to_vec("request.body".as_bytes()), to_vec(request.body.as_slice()));
    assert(local@ == request_scope(request@));
    let asserts = match resolve_each(&step.asserts, table, &local) {
        Ok(asserts) => asserts,
        Err(e) => {
            return Err(e);
        },
    };
    let captures = match resolve_each(&step.captures, table, &local) {
        Ok(captures) => captures,
        Err(e) => {
            return Err(e);
        },
    };
    Ok(Step { name: to_vec(step.name.as_slice()), request, asserts, captures, optional: step.optional })
}

/// No text of the step holds a placeholder.
pub open spec fn plain_step(step: StepView) -> bool {
    &&& plain_each::<Header>(step.request.headers, 0)
    &&& is_plain(step.request.target)
    &&& is_plain(step.request.body)
    &&& plain_each::<Assertion>(step.asserts, 0)
    &&& plain_each::<Capture>(step.captures, 0)
}

/// Resolving a step without placeholders changes nothing, whatever is bound.
pub proof fn lemma_plain_step_unchanged(step: StepView, table: Map<Seq<u8>, Seq<u8>>)
    requires
        plain_step(step),
    ensures
        resolved_step(step, table) == Ok::<StepView, ResolutionFault>(step),
{
    lemma_plain_each::<Header>(step.request.headers, table, 0);
    assert(step.request.headers.subrange(0, step.request.headers.len() as int)
        =~= step.request.headers);
    lemma_plain_text_unchanged(step.request.target, table, MAX_DEPTH as nat);
    lemma_plain_text_unchanged(step.request.body, table, MAX_DEPTH as nat);
    let scope = scope_of(table, request_scope(step.request));
    lemma_plain_each::<Assertion>(step.asserts, scope, 0);
    assert(step.asserts.subrange(0, step.asserts.len() as int) =~= step.asserts);
    lemma_plain_each::<Capture>(step.captures, scope, 0);
    assert(step.captures.subrange(0, step.captures.len() as int) =~= step.captures);
}

/// Where a text stands in a step, in the order in which the texts of a step
/// are resolved: the headers, the target, the body, the assertions, the
/// captures.
pub enum Place {
    Header(int),
    Target,
    Body,
    Assertion(int),
    Capture(int),
}

/// No text of the request holds a placeholder.
pub open spec fn plain_request(request: RequestView) -> bool {
    &&& plain_each::<Header>(request.headers, 0)
    &&& is_plain(request.target)
    &&& is_plain(request.body)
}

/// `place` is a place of the step, and none of the step's texts that are
/// resolved before it holds a placeholder.
pub open spec fn plain_before(step: StepView, place: Place) -> bool {
    match place {
        Place::Header(k) => {
            &&& 0 <= k < step.request.headers.len()
            &&& forall|i: int| 0 <= i < k ==> Header::plain(#[trigger] step.request.headers[i])
        },
        Place::Target => plain_each::<Header>(step.request.headers, 0),
        Place::Body => plain_each::<Header>(step.request.headers, 0) && is_plain(
            step.request.target,
        ),
        Place::Assertion(k) => {
            &&& plain_request(step.request)
            &&& 0 <= k < step.asserts.len()
            &&& forall|i: int| 0 <= i < k ==> Assertion::plain(#[trigger] step.asserts[i])
        },
        Place::Capture(k) => {
            &&& plain_request(step.request)
            &&& plain_each::<Assertion>(step.asserts, 0)
            &&& 0 <= k < step.captures.len()
            &&& forall|i: int| 0 <= i < k ==> Capture::plain(#[trigger] step.captures[i])
        },
    }
}

/// The unbound placeholder, if there is one, that a first round of
/// substitution meets in the text at `place`.
pub open spec fn unbound_at(step: StepView, table: Map<Seq<u8>, Seq<u8>>, place: Place) -> Option<
    Seq<u8>,
> {
    let scope = scope_of(table, request_scope(step.request));
    match place {
        Place::Header(k) => Header::faulty(step.request.headers[k], table),
        Place::Target => first_unbound(step.request.target, table),
        Place::Body => first_unbound(step.request.body, table),
        Place::Assertion(k) => Assertion::faulty(step.asserts[k], scope),
        Place::Capture(k) => Capture::faulty(step.captures[k], scope),
    }
}

/// A step does not resolve when the first of its texts that holds any
/// placeholder holds an unbound one: the error names that placeholder. So
/// a step whose only placeholder is unbound fails with that placeholder's
/// name.
pub proof fn lemma_step_unbound_named(step: StepView, table: Map<Seq<u8>, Seq<u8>>, place: Place)
    requires
        plain_before(step, place),
        unbound_at(step, table, place) is Some,
    ensures
        resolved_step(step, table) == Err::<StepView, ResolutionFault>(
            ResolutionFault::Unbound { name: unbound_at(step, table, place)->0 },
        ),
{
    let request = step.request;
    let scope = scope_of(table, request_scope(request));
    match place {
        Place::Header(k) => {
            lemma_faulty_each::<Header>(request.headers, table, 0, k);
        },
        Place::Target => {
            lemma_plain_each::<Header>(request.headers, table, 0);
            lemma_unbound_placeholder_named(request.target, table, MAX_DEPTH as nat);
        },
        Place::Body => {
            lemma_plain_each::<Header>(request.headers, table, 0);
            lemma_plain_text_unchanged(request.target, table, MAX_DEPTH as nat);
            lemma_unbound_placeholder_named(request.body, table, MAX_DEPTH as nat);
        },
        Place::Assertion(k) => {
            lemma_plain_request(request, table);
            lemma_faulty_each::<Assertion>(step.asserts, scope, 0, k);
        },
        Place::Capture(k) => {
            lemma_plain_request(request, table);
            lemma_plain_each::<Assertion>(step.asserts, scope, 0);
            lemma_faulty_each::<Capture>(step.captures, scope, 0, k);
        },
    }
}

/// A request without placeholders resolves to itself.
pub proof fn lemma_plain_request(request: RequestView, table: Map<Seq<u8>, Seq<u8>>)
    requires
        plain_request(request),
    ensures
        resolved_request(request, table) == Ok::<RequestView, ResolutionFault>(request),
{
    lemma_plain_each::<Header>(request.headers, table, 0);
    assert(request.headers.subrange(0, request.headers.len() as int) =~= request.headers);
    lemma_plain_text_unchanged(request.target, table, MAX_DEPTH as nat);
    lemma_plain_text_unchanged(request.body, table, MAX_DEPTH as nat);
}

/// Resolution changes texts only: a resolved list of assertions has the
/// kinds and bounds of the list it came from.
pub proof fn lemma_resolved_asserts(
    items: Seq<AssertionView>,
    scope: Map<Seq<u8>, Seq<u8>>,
    from: int,
)
    requires
        0 <= from <= items.len(),
    ensures
        resolved_each::<Assertion>(items, scope, from) matches Ok(r) ==> {
            &&& r.len() == items.len() - from
            &&& forall|j: int|
                0 <= j < r.len() ==> (#[trigger] r[j]).kind == items[from + j].kind && r[j].bound
                    == items[from + j].bound
        },
    decreases items.len() - from,
{
    if from < items.len() {
        lemma_resolved_asserts(items, scope, from + 1);
        match resolved_each::<Assertion>(items, scope, from) {
            Ok(r) => {
                let rest = resolved_each::<Assertion>(items, scope, from + 1)->Ok_0;
                assert forall|j: int| 0 <= j < r.len() implies (#[trigger] r[j]).kind == items[from
                    + j].kind && r[j].bound == items[from + j].bound by {
                    if j > 0 {
                        assert(r[j] == rest[j - 1]);
                    }
                }
            },
            Err(_) => {},
        }
    }
}

/// The resolved step `r` is the step `s` but for its texts.
pub open spec fn fits(r: StepView, s: StepView) -> bool {
    &&& r.name == s.name
    &&& r.optional == s.optional
    &&& r.request.method == s.request.method
    &&& r.request.timeout_ms == s.request.timeout_ms
    &&& r.asserts.len() == s.asserts.len()
    &&& forall|j: int|
        0 <= j < r.asserts.len() ==> (#[trigger] r.asserts[j]).kind == s.asserts[j].kind
            && r.asserts[j].bound == s.asserts[j].bound
}

/// Resolution changes texts only.
pub proof fn lemma_resolved_step_fits(step: StepView, table: Map<Seq<u8>, Seq<u8>>)
    ensures
        resolved_step(step, table) matches Ok(r) ==> fits(r, step),
{
    match resolved_request(step.request, table) {
        Ok(request) => {
            lemma_resolved_asserts(step.asserts, scope_of(table, request_scope(request)), 0);
        },
        Err(_) => {},
    }
}

} // verus!

//! The body of a response as the engine reads it: the scalar fields of a
//! structured document, each under the path that leads to it, and the path
//! expressions and patterns that assertions and captures are written in.
//!
//! A path expression is `$` followed by any number of `.key` and `[index]`
//! segments: `$.data.items[0].id`. In a pattern `*` stands for any run of
//! bytes; every other byte stands for itself.

use vstd::prelude::*;
use vstd::slice::slice_subrange;
use crate::model::{lemma_views_push, views};
use crate::text::{
    bytes_eq, lemma_stop_at, parse_decimal, parse_decimal_spec, scan_to, stop_at, to_vec,
    CLOSE_BRACKET, DOLLAR, DOT, OPEN_BRACKET, STAR,
};

verus! {

/// One step of a path: the member of an object or the element of a list.
#[derive(Debug, Clone, PartialEq, Eq)]
pub enum Segment {
    Key(Vec<u8>),
    Index(u64),
}

/// The mathematical value of a `Segment`.
pub enum SegmentView {
    Key(Seq<u8>),
    Index(u64),
}

impl View for Segment {
    type V = SegmentView;

    open spec fn view(&self) -> SegmentView {
        match self {
            Segment::Key(k) => SegmentView::Key(k@),
            Segment::Index(i) => SegmentView::Index(*i),
        }
    }
}

/// A scalar field of a body: where it stands and its value as text.
#[derive(Debug, Clone, PartialEq, Eq)]
pub struct Leaf {
    pub path: Vec<Segment>,
    pub value: Vec<u8>,
}

/// The mathematical value of a `Leaf`.
pub struct LeafView {
    pub path: Seq<SegmentView>,
    pub value: Seq<u8>,
}

impl View for Leaf {
    type V = LeafView;

    open spec fn view(&self) -> LeafView {
        LeafView { path: views(self.path@), value: self.value@ }
    }
}

/// `head` in front of a list that was read successfully.
pub open spec fn prepend_some<V>(head: Seq<V>, r: Option<Seq<V>>) -> Option<Seq<V>> {
    match r {
        Some(rest) => Some(head + rest),
        None => None,
    }
}

/// The segments written in `text` from index `from` on. A key is a
/// non-empty run of bytes up to the next `.` or `[`; an index is a decimal
/// number between `[` and `]`.
pub open spec fn segments_from(text: Seq<u8>, from: int) -> Option<Seq<SegmentView>>
    decreases text.len() - from,
{
    if from < 0 || from >= text.len() {
        Some(Seq::empty())
    } else if text[from] == DOT {
        let end = stop_at(text, from + 1, DOT, OPEN_BRACKET);
        if end == from + 1 {
            None
        } else {
            proof {
                lemma_stop_at(text, from + 1, DOT, OPEN_BRACKET);
            }
            prepend_some(
                seq![SegmentView::Key(text.subrange(from + 1, end))],
                segments_from(text, end),
            )
        }
    } else if text[from] == OPEN_BRACKET {
        let end = stop_at(text, from + 1, CLOSE_BRACKET, CLOSE_BRACKET);
        if end >= text.len() {
            None
        } else {
            match parse_decimal_spec(text.subrange(from + 1, end)) {
                Some(n) => prepend_some(
                    seq![SegmentView::Index(n)],
                    segments_from(text, end + 1),
                ),
                None => None,
            }
        }
    } else {
        None
    }
}

/// The path that `text` writes, if `text` is a path expression.
pub open spec fn parsed_path(text: Seq<u8>) -> Option<Seq<SegmentView>> {
    if text.len() == 0 || text[0] != DOLLAR {
        None
    } else {
        segments_from(text, 1)
    }
}

/// Reads a path expression.
pub fn parse_path(text: &[u8]) -> (r: Option<Vec<Segment>>)
    ensures
        match parsed_path(text@) {
            Some(p) => r matches Some(v) && views(v@) == p,
            None => r is None,
        },
{
    if text.len() == 0 || text[0] != DOLLAR {
        return None;
    }
    let mut out: Vec<Segment> = Vec::new();
    let mut i: usize = 1;
    assert(prepend_some(views(out@), segments_from(text@, 1)) == segments_from(text@, 1)) by {
        match segments_from(text@, 1) {
            Some(rest) => {
                assert(views(out@) + rest =~= rest);
            },
            None => {},
        }
    }
    while i < text.len()
        invariant
            1 <= i <= text.len(),
            segments_from(text@, 1) == prepend_some(views(out@), segments_from(text@, i as int)),
        decreases text.len() - i,
    {
        let ghost before = views(out@);
        let segment: Segment;
        let next: usize;
        if text[i] == DOT {
            let end: usize = scan_to(text, i + 1, DOT, OPEN_BRACKET);
            if end == i + 1 {
                return None;
            }
            segment = Segment::Key(to_vec(slice_subrange(text, i + 1, end)));
            next = end;
        } else if text[i] == OPEN_BRACKET {
            let end: usize = scan_to(text, i + 1, CLOSE_BRACKET, CLOSE_BRACKET);
            if end >= text.len() {
                return None;
            }
            match parse_decimal(slice_subrange(text, i + 1, end)) {
                Some(n) => {
                    segment = Segment::Index(n);
                    next = end + 1;
                },
                None => {
                    return None;
                },
            }
        } else {
            return None;
        }
        proof {
            lemma_views_push(out@, segment);
            match segments_from(text@, next as int) {
                Some(rest) => {
                    assert(before + (seq![segment@] + rest) =~= before.push(segment@) + rest);
                },
                None => {},
            }
        }
        out.push(segment);
        i = next;
    }
    assert(views(out@) + Seq::<SegmentView>::empty() =~= views(out@));
    Some(out)
}

fn segment_eq(a: &Segment, b: &Segment) -> (r: bool)
    ensures
        r == (a@ == b@),
{
    match a {
        Segment::Key(x) => match b {
            Segment::Key(y) => bytes_eq(x.as_slice(), y.as_slice()),
            Segment::Index(_) => false,
        },
        Segment::Index(x) => match b {
            Segment::Key(_) => false,
            Segment::Index(y) => *x == *y,
        },
    }
}

/// Whether two paths have the same segments.
pub fn path_eq(a: &Vec<Segment>, b: &Vec<Segment>) -> (r: bool)
    ensures
        r == (views(a@) == views(b@)),
{
    if a.len() != b.len() {
        assert(views(a@).len() != views(b@).len());
        return false;
    }
    let mut k: usize = 0;
    while k < a.len()
        invariant
            k <= a.len(),
            a.len() == b.len(),
            forall|j: int| 0 <= j < k ==> a@[j]@ == b@[j]@,
        decreases a.len() - k,
    {
        if !segment_eq(&a[k], &b[k]) {
            assert(views(a@)[k as int] != views(b@)[k as int]);
            return false;
        }
        k += 1;
    }
    assert(views(a@) =~= views(b@));
    true
}

/// The value of the first field from index `from` on that stands at `path`.
pub open spec fn field_at(leaves: Seq<LeafView>, path: Seq<SegmentView>, from: int) -> Option<
    Seq<u8>,
>
    decreases leaves.len() - from,
{
    if from < 0 || from >= leaves.len() {
        None
    } else if leaves[from].path == path {
        Some(leaves[from].value)
    } else {
        field_at(leaves, path, from + 1)
    }
}

/// The value of the field that the path expression `text` leads to: nothing
/// where `text` is no path expression or no field stands at that path.
pub open spec fn body_field(leaves: Seq<LeafView>, text: Seq<u8>) -> Option<Seq<u8>> {
    match parsed_path(text) {
        Some(path) => field_at(leaves, path, 0),
        None => None,
    }
}

/// Looks up the field at `path`.
pub fn find_field<'a>(leaves: &'a Vec<Leaf>, path: &Vec<Segment>) -> (r: Option<&'a Vec<u8>>)
    ensures
        match field_at(views(leaves@), views(path@), 0) {
            Some(v) => r matches Some(x) && x@ == v,
            None => r is None,
        },
{
    let mut k: usize = 0;
    while k < leaves.len()
        invariant
            k <= leaves.len(),
            field_at(views(leaves@), views(path@), 0) == field_at(
                views(leaves@),
                views(path@),
                k as int,
            ),
        decreases leaves.len() - k,
    {
        assert(views(leaves@)[k as int] == leaves@[k as int]@);
        if path_eq(&leaves[k].path, path) {
            return Some(&leaves[k].value);
        }
        k += 1;
    }
    None
}

/// Looks up the field that the path expression `text` leads to.
pub fn read_field<'a>(leaves: &'a Vec<Leaf>, text: &[u8]) -> (r: Option<&'a Vec<u8>>)
    ensures
        match body_field(views(leaves@), text@) {
            Some(v) => r matches Some(x) && x@ == v,
            None => r is None,
        },
{
    match parse_path(text) {
        Some(path) => find_field(leaves, &path),
        None => None,
    }
}

/// The part of `pattern` from index `i` on matches the part of `text` from
/// index `j` on.
pub open spec fn matches_from(pattern: Seq<u8>, text: Seq<u8>, i: int, j: int) -> bool
    decreases pattern.len() - i, text.len() - j,
{
    if i < 0 || j < 0 {
        false
    } else if i >= pattern.len() {
        j >= text.len()
    } else if pattern[i] == STAR {
        matches_from(pattern, text, i + 1, j) || (j < text.len() && matches_from(
            pattern,
            text,
            i,
            j + 1,
        ))
    } else {
        j < text.len() && pattern[i] == text[j] && matches_from(pattern, text, i + 1, j + 1)
    }
}

/// `pattern` matches the whole of `text`.
pub open spec fn pattern_matches(pattern: Seq<u8>, text: Seq<u8>) -> bool {
    matches_from(pattern, text, 0, 0)
}

proof fn lemma_literal_from(pattern: Seq<u8>, text: Seq<u8>, i: int, j: int)
    requires
        0 <= i <= pattern.len(),
        0 <= j <= text.len(),
        forall|k: int| 0 <= k < pattern.len() ==> pattern[k] != STAR,
    ensures
        matches_from(pattern, text, i, j) == (pattern.subrange(i, pattern.len() as int)
            == text.subrange(j, text.len() as int)),
    decreases pattern.len() - i,
{
    let p = pattern.subrange(i, pattern.len() as int);
    let t = text.subrange(j, text.len() as int);
    if i == pattern.len() {
        if j == text.len() {
            assert(p =~= t);
        } else {
            assert(p.len() != t.len());
        }
    } else if j == text.len() {
        assert(p.len() != t.len());
    } else {
        lemma_literal_from(pattern, text, i + 1, j + 1);
        let p1 = pattern.subrange(i + 1, pattern.len() as int);
        let t1 = text.subrange(j + 1, text.len() as int);
        assert(p[0] == pattern[i]);
        assert(t[0] == text[j]);
        assert(p1 =~= p.subrange(1, p.len() as int));
        assert(t1 =~= t.subrange(1, t.len() as int));
        if pattern[i] == text[j] && p1 == t1 {
            assert(p.len() == p1.len() + 1 && t.len() == t1.len() + 1);
            assert forall|k: int| 0 <= k < p.len() implies p[k] == t[k] by {
                if k > 0 {
                    assert(p[k] == p1[k - 1]);
                    assert(t[k] == t1[k - 1]);
                }
            }
            assert(p =~= t);
        }
    }
}

/// A pattern without `*` matches itself and nothing else.
pub proof fn lemma_literal_pattern(pattern: Seq<u8>, text: Seq<u8>)
    requires
        forall|k: int| 0 <= k < pattern.len() ==> pattern[k] != STAR,
    ensures
        pattern_matches(pattern, text) == (pattern == text),
{
    lemma_literal_from(pattern, text, 0, 0);
    assert(pattern.subrange(0, pattern.len() as int) =~= pattern);
    assert(text.subrange(0, text.len() as int) =~= text);
}

/// Whether `pattern` matches the whole of `text`.
pub fn pattern_match(pattern: &[u8], text: &[u8]) -> (r: bool)
    ensures
        r == pattern_matches(pattern@, text@),
{
    let n: usize = text.len();
    let m: usize = pattern.len();
    // row[j] tells whether the pattern from i on matches the text from j on.
    let mut row: Vec<bool> = Vec::new();
    let mut j: usize = 0;
    while j < n
        invariant
            j <= n,
            n == text.len(),
            m == pattern.len(),
            row.len() == j,
            forall|k: int| 0 <= k < j ==> row@[k] == matches_from(pattern@, text@, m as int, k),
        decreases n - j,
    {
        row.push(false);
        j += 1;
    }
    row.push(true);
    let mut i: usize = m;
    while i > 0
        invariant
            i <= m,
            n == text.len(),
            m == pattern.len(),
            row.len() == n + 1,
            forall|k: int| 0 <= k <= n ==> row@[k] == matches_from(pattern@, text@, i as int, k),
        decreases i,
    {
        i -= 1;
        if pattern[i] == STAR {
            // The entry for the end of the text stays; each earlier entry
            // takes in the one after it.
            let mut k: usize = n;
            while k > 0
                invariant
                    k <= n,
                    i < m,
                    n == text.len(),
                    m == pattern.len(),
                    row.len() == n + 1,
                    pattern@[i as int] == STAR,
                    forall|q: int|
                        0 <= q < k ==> row@[q] == matches_from(pattern@, text@, i + 1, q),
                    forall|q: int|
                        k <= q <= n ==> row@[q] == matches_from(pattern@, text@, i as int, q),
                decreases k,
            {
                k -= 1;
                let v: bool = row[k] || row[k + 1];
                row.set(k, v);
            }
        } else {
            let mut k: usize = 0;
            while k < n
                invariant
                    k <= n,
                    i < m,
                    n == text.len(),
                    m == pattern.len(),
                    row.len() == n + 1,
                    pattern@[i as int] != STAR,
                    forall|q: int|
                        0 <= q < k ==> row@[q] == matches_from(pattern@, text@, i as int, q),
                    forall|q: int|
                        k <= q <= n ==> row@[q] == matches_from(pattern@, text@, i + 1, q),
                decreases n - k,
            {
                let v: bool = pattern[i] == text[k] && row[k + 1];
                row.set(k, v);
                k += 1;
            }
            row.set(n, false);
        }
    }
    row[0]
}

} // verus!

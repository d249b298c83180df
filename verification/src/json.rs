//! Reading a JSON text into the fields of a body. Each scalar of the text
//! becomes one field, under the path of keys and indices that leads to it:
//! a string gives its text with the escapes taken out, a number, `true`,
//! `false` and `null` give their own spelling. Objects and lists give the
//! fields of their members; an empty one gives none.

use vstd::prelude::*;
use vstd::slice::slice_subrange;
use crate::body::{Leaf, LeafView, Segment, SegmentView};
use crate::model::{lemma_views_push, views};
use crate::text::{
    is_digit, matches_at, occurs_at, to_vec, word, BACKSLASH, CLOSE_BRACE, CLOSE_BRACKET, COLON,
    COMMA, DASH, DOT, NEWLINE, OPEN_BRACE, OPEN_BRACKET, PLUS, QUOTE, RETURN, SLASH, SPACE, TAB,
};

verus! {

/// How deep objects and lists may be nested in a text that is read.
pub const MAX_NESTING: usize = 64;

/// White space between the tokens of a JSON text.
pub open spec fn is_space(b: u8) -> bool {
    b == SPACE || b == TAB || b == NEWLINE || b == RETURN
}

/// How many bytes of white space stand at index `from` and after it without
/// a gap.
pub open spec fn spaces(s: Seq<u8>, from: int) -> nat
    decreases s.len() - from,
{
    if from < 0 || from >= s.len() || !is_space(s[from]) {
        0
    } else {
        1 + spaces(s, from + 1)
    }
}

/// The first index at or after `from` that holds no white space.
pub open spec fn past_space(s: Seq<u8>, from: int) -> int {
    from + spaces(s, from)
}

/// How many digits stand at index `from` and after it without a gap.
pub open spec fn digits(s: Seq<u8>, from: int) -> nat
    decreases s.len() - from,
{
    if from < 0 || from >= s.len() || !is_digit(s[from]) {
        0
    } else {
        1 + digits(s, from + 1)
    }
}

/// `s` holds the byte `b` at index `i`.
pub open spec fn byte_at(s: Seq<u8>, i: int, b: u8) -> bool {
    0 <= i < s.len() && s[i] == b
}

/// The index after the number that starts at index `from`: an optional
/// minus, digits, an optional fraction of a point and digits, and an
/// optional exponent of `e` or `E`, an optional sign and digits.
pub open spec fn number_end(s: Seq<u8>, from: int) -> Option<int> {
    let a = if byte_at(s, from, DASH) {
        from + 1
    } else {
        from
    };
    let b = a + digits(s, a);
    if b == a {
        None
    } else {
        let c = if byte_at(s, b, DOT) {
            b + 1 + digits(s, b + 1)
        } else {
            b
        };
        if c == b + 1 {
            None
        } else {
            if byte_at(s, c, 101) || byte_at(s, c, 69) {
                let d = if byte_at(s, c + 1, PLUS) || byte_at(s, c + 1, DASH) {
                    c + 2
                } else {
                    c + 1
                };
                if digits(s, d) == 0 {
                    None
                } else {
                    Some(d + digits(s, d))
                }
            } else {
                Some(c)
            }
        }
    }
}

/// The index after the scalar other than a string that starts at index
/// `from`: `true`, `false`, `null` or a number.
pub open spec fn literal_end(s: Seq<u8>, from: int) -> Option<int> {
    if occurs_at(s, word("true"), from) {
        Some(from + word("true").len())
    } else if occurs_at(s, word("false"), from) {
        Some(from + word("false").len())
    } else if occurs_at(s, word("null"), from) {
        Some(from + word("null").len())
    } else {
        number_end(s, from)
    }
}

/// The number that a hexadecimal digit writes.
pub open spec fn hex_value(b: u8) -> Option<int> {
    if 48 <= b <= 57 {
        Some(b - 48)
    } else if 97 <= b <= 102 {
        Some(b - 87)
    } else if 65 <= b <= 70 {
        Some(b - 55)
    } else {
        None
    }
}

/// The number that the four hexadecimal digits from index `from` on write.
pub open spec fn hex4(s: Seq<u8>, from: int) -> Option<int> {
    if from < 0 || from + 4 > s.len() {
        None
    } else if hex_value(s[from]) is None || hex_value(s[from + 1]) is None || hex_value(
        s[from + 2],
    ) is None || hex_value(s[from + 3]) is None {
        None
    } else {
        Some(
            ((hex_value(s[from])->0 * 16 + hex_value(s[from + 1])->0) * 16 + hex_value(
                s[from + 2],
            )->0) * 16 + hex_value(s[from + 3])->0,
        )
    }
}

/// The UTF-8 bytes of the code point `cp`.
pub open spec fn utf8_of(cp: int) -> Seq<u8> {
    if cp < 0x80 {
        seq![cp as u8]
    } else if cp < 0x800 {
        seq![(0xC0 + cp / 64) as u8, (0x80 + cp % 64) as u8]
    } else if cp < 0x10000 {
        seq![(0xE0 + cp / 4096) as u8, (0x80 + (cp / 64) % 64) as u8, (0x80 + cp % 64) as u8]
    } else {
        seq![
            (0xF0 + cp / 262144) as u8,
            (0x80 + (cp / 4096) % 64) as u8,
            (0x80 + (cp / 64) % 64) as u8,
            (0x80 + cp % 64) as u8,
        ]
    }
}

/// The bytes that the escape after a backslash stands for, the byte after
/// the backslash being at index `from`, and the index after the escape. A
/// `u` escape of the first half of a surrogate pair takes the second half
/// with it.
pub open spec fn escape_at(s: Seq<u8>, from: int) -> Option<(Seq<u8>, int)> {
    if from < 0 || from >= s.len() {
        None
    } else if s[from] == QUOTE || s[from] == BACKSLASH || s[from] == SLASH {
        Some((seq![s[from]], from + 1))
    } else if s[from] == 98 {
        Some((seq![8u8], from + 1))
    } else if s[from] == 102 {
        Some((seq![12u8], from + 1))
    } else if s[from] == 110 {
        Some((seq![10u8], from + 1))
    } else if s[from] == 114 {
        Some((seq![13u8], from + 1))
    } else if s[from] == 116 {
        Some((seq![9u8], from + 1))
    } else if s[from] == 117 {
        match hex4(s, from + 1) {
            Some(cp) => if 0xD800 <= cp < 0xDC00 {
                if byte_at(s, from + 5, BACKSLASH) && byte_at(s, from + 6, 117) {
                    match hex4(s, from + 7) {
                        Some(low) => if 0xDC00 <= low < 0xE000 {
                            Some(
                                (
                                    utf8_of(0x10000 + (cp - 0xD800) * 1024 + (low - 0xDC00)),
                                    from + 11,
                                ),
                            )
                        } else {
                            None
                        },
                        None => None,
                    }
                } else {
                    None
                }
            } else if 0xDC00 <= cp < 0xE000 {
                None
            } else {
                Some((utf8_of(cp), from + 5))
            },
            None => None,
        }
    } else {
        None
    }
}

/// `head` in front of what was read.
pub open spec fn ahead<V>(head: Seq<V>, r: Option<(Seq<V>, int)>) -> Option<(Seq<V>, int)> {
    match r {
        Some((rest, end)) => Some((head + rest, end)),
        None => None,
    }
}

/// The text of the string whose content starts at index `from`, behind the
/// opening quote, and the index after its closing quote.
pub open spec fn string_at(s: Seq<u8>, from: int) -> Option<(Seq<u8>, int)>
    decreases s.len() - from,
{
    if from < 0 || from >= s.len() {
        None
    } else if s[from] == QUOTE {
        Some((Seq::empty(), from + 1))
    } else if s[from] == BACKSLASH {
        match escape_at(s, from + 1) {
            Some((bytes, next)) => if next <= from {
                None
            } else {
                ahead(bytes, string_at(s, next))
            },
            None => None,
        }
    } else if s[from] < 32 {
        None
    } else {
        ahead(seq![s[from]], string_at(s, from + 1))
    }
}

/// The fields of the value that starts at or after index `from`, behind
/// white space, each under `prefix` and its own path within the value, and
/// the index after the value. Objects and lists may be nested `depth` deep.
pub open spec fn value_at(s: Seq<u8>, from: int, prefix: Seq<SegmentView>, depth: nat) -> Option<
    (Seq<LeafView>, int),
>
    decreases depth, s.len() - from, 0int,
{
    let i = past_space(s, from);
    if from < 0 || i >= s.len() {
        None
    } else if s[i] == OPEN_BRACE {
        if depth == 0 {
            None
        } else {
            members_at(s, i + 1, prefix, true, (depth - 1) as nat)
        }
    } else if s[i] == OPEN_BRACKET {
        if depth == 0 {
            None
        } else {
            elements_at(s, i + 1, prefix, 0, (depth - 1) as nat)
        }
    } else if s[i] == QUOTE {
        match string_at(s, i + 1) {
            Some((text, end)) => Some((seq![LeafView { path: prefix, value: text }], end)),
            None => None,
        }
    } else {
        match literal_end(s, i) {
            Some(end) => Some((seq![LeafView { path: prefix, value: s.subrange(i, end) }], end)),
            None => None,
        }
    }
}

/// The fields of the members of an object from index `from` on, where,
/// behind white space, a key starts, or the closing brace stands if
/// `first`; and the index after the closing brace.
pub open spec fn members_at(
    s: Seq<u8>,
    from: int,
    prefix: Seq<SegmentView>,
    first: bool,
    depth: nat,
) -> Option<(Seq<LeafView>, int)>
    decreases depth, s.len() - from, 1int,
{
    let i = past_space(s, from);
    if from < 0 || i >= s.len() {
        None
    } else if first && s[i] == CLOSE_BRACE {
        Some((Seq::empty(), i + 1))
    } else if s[i] != QUOTE {
        None
    } else {
        match string_at(s, i + 1) {
            Some((key, after_key)) => {
                let colon = past_space(s, after_key);
                if after_key <= i || !byte_at(s, colon, COLON) {
                    None
                } else {
                    match value_at(s, colon + 1, prefix.push(SegmentView::Key(key)), depth) {
                        Some((leaves, after_value)) => {
                            let next = past_space(s, after_value);
                            if after_value <= colon {
                                None
                            } else if byte_at(s, next, CLOSE_BRACE) {
                                Some((leaves, next + 1))
                            } else if byte_at(s, next, COMMA) {
                                ahead(leaves, members_at(s, next + 1, prefix, false, depth))
                            } else {
                                None
                            }
                        },
                        None => None,
                    }
                }
            },
            None => None,
        }
    }
}

/// The fields of the elements of a list from index `from` on, where,
/// behind white space, element `index` starts, or the closing bracket
/// stands if `index` is 0; and the index after the closing bracket.
pub open spec fn elements_at(
    s: Seq<u8>,
    from: int,
    prefix: Seq<SegmentView>,
    index: u64,
    depth: nat,
) -> Option<(Seq<LeafView>, int)>
    decreases depth, s.len() - from, 1int,
{
    let i = past_space(s, from);
    if from < 0 || i >= s.len() {
        None
    } else if index == 0 && s[i] == CLOSE_BRACKET {
        Some((Seq::empty(), i + 1))
    } else {
        match value_at(s, i, prefix.push(SegmentView::Index(index)), depth) {
            Some((leaves, after_value)) => {
                let next = past_space(s, after_value);
                if after_value <= i {
                    None
                } else if byte_at(s, next, CLOSE_BRACKET) {
                    Some((leaves, next + 1))
                } else if byte_at(s, next, COMMA) && index < u64::MAX {
                    ahead(leaves, elements_at(s, next + 1, prefix, (index + 1) as u64, depth))
                } else {
                    None
                }
            },
            None => None,
        }
    }
}

/// The fields of the JSON text `s`: those of its one value, around which
/// nothing but white space stands.
pub open spec fn decoded(s: Seq<u8>) -> Option<Seq<LeafView>> {
    match value_at(s, 0, Seq::empty(), MAX_NESTING as nat) {
        Some((leaves, end)) => if past_space(s, end) >= s.len() {
            Some(leaves)
        } else {
            None
        },
        None => None,
    }
}

/// Putting `b` and then `a` in front is putting `a + b` in front.
pub proof fn lemma_ahead_twice<V>(a: Seq<V>, b: Seq<V>, r: Option<(Seq<V>, int)>)
    ensures
        ahead(a, ahead(b, r)) == ahead(a + b, r),
{
    match r {
        Some((rest, end)) => {
            assert(a + (b + rest) =~= (a + b) + rest);
        },
        None => {},
    }
}

fn skip_space(s: &[u8], from: usize) -> (r: usize)
    requires
        from <= s.len(),
    ensures
        r == past_space(s@, from as int),
        from <= r <= s.len(),
{
    let mut i: usize = from;
    while i < s.len() && (s[i] == SPACE || s[i] == TAB || s[i] == NEWLINE || s[i] == RETURN)
        invariant
            from <= i <= s.len(),
            past_space(s@, from as int) == past_space(s@, i as int),
        decreases s.len() - i,
    {
        i += 1;
    }
    i
}

fn skip_digits(s: &[u8], from: usize) -> (r: usize)
    requires
        from <= s.len(),
    ensures
        r == from + digits(s@, from as int),
        from <= r <= s.len(),
{
    let mut i: usize = from;
    while i < s.len() && 48 <= s[i] && s[i] <= 57
        invariant
            from <= i <= s.len(),
            from + digits(s@, from as int) == i + digits(s@, i as int),
        decreases s.len() - i,
    {
        i += 1;
    }
    i
}

fn is_at(s: &[u8], i: usize, b: u8) -> (r: bool)
    ensures
        r == byte_at(s@, i as int, b),
{
    i < s.len() && s[i] == b
}

fn number_stop(s: &[u8], from: usize) -> (r: Option<usize>)
    requires
        from <= s.len(),
    ensures
        match number_end(s@, from as int) {
            Some(end) => r == Some(end as usize) && from <= end <= s.len(),
            None => r is None,
        },
{
    let a: usize = if is_at(s, from, DASH) {
        from + 1
    } else {
        from
    };
    let b: usize = skip_digits(s, a);
    if b == a {
        return None;
    }
    let c: usize = if is_at(s, b, DOT) {
        let c: usize = skip_digits(s, b + 1);
        if c == b + 1 {
            return None;
        }
        c
    } else {
        b
    };
    if is_at(s, c, 101) || is_at(s, c, 69) {
        let d: usize = if is_at(s, c + 1, PLUS) || is_at(s, c + 1, DASH) {
            c + 2
        } else {
            c + 1
        };
        let e: usize = skip_digits(s, d);
        if e == d {
            None
        } else {
            Some(e)
        }
    } else {
        Some(c)
    }
}

fn keyword_stop(s: &[u8], from: usize, w: &str) -> (r: Option<usize>)
    ensures
        match r {
            Some(end) => occurs_at(s@, word(w), from as int) && end == from + word(w).len() && end
                <= s.len(),
            None => !occurs_at(s@, word(w), from as int),
        },
{
    let pat = w.as_bytes();
    let n: usize = s.len();
    if matches_at(s, pat, from) {
        Some(from + pat.len())
    } else {
        None
    }
}

fn literal_stop(s: &[u8], from: usize) -> (r: Option<usize>)
    requires
        from <= s.len(),
    ensures
        match literal_end(s@, from as int) {
            Some(end) => r == Some(end as usize) && from <= end <= s.len(),
            None => r is None,
        },
{
    match keyword_stop(s, from, "true") {
        Some(end) => Some(end),
        None => match keyword_stop(s, from, "false") {
            Some(end) => Some(end),
            None => match keyword_stop(s, from, "null") {
                Some(end) => Some(end),
                None => number_stop(s, from),
            },
        },
    }
}

fn hex_digit(b: u8) -> (r: Option<u32>)
    ensures
        match hex_value(b) {
            Some(v) => r == Some(v as u32) && 0 <= v < 16,
            None => r is None,
        },
{
    if 48 <= b && b <= 57 {
        Some((b - 48) as u32)
    } else if 97 <= b && b <= 102 {
        Some((b - 87) as u32)
    } else if 65 <= b && b <= 70 {
        Some((b - 55) as u32)
    } else {
        None
    }
}

fn read_hex4(s: &[u8], from: usize) -> (r: Option<u32>)
    requires
        from <= s.len(),
    ensures
        match hex4(s@, from as int) {
            Some(v) => r == Some(v as u32) && 0 <= v < 0x10000 && from + 4 <= s.len(),
            None => r is None,
        },
{
    if s.len() - from < 4 {
        return None;
    }
    let a = hex_digit(s[from]);
    let b = hex_digit(s[from + 1]);
    let c = hex_digit(s[from + 2]);
    let d = hex_digit(s[from + 3]);
    match (a, b, c, d) {
        (Some(a), Some(b), Some(c), Some(d)) => Some(((a * 16 + b) * 16 + c) * 16 + d),
        _ => None,
    }
}

fn push_utf8(out: &mut Vec<u8>, cp: u32)
    requires
        cp < 0x110000,
    ensures
        final(out)@ == old(out)@ + utf8_of(cp as int),
{
    if cp < 0x80 {
        out.push(cp as u8);
    } else if cp < 0x800 {
        out.push((0xC0 + cp / 64) as u8);
        out.push((0x80 + cp % 64) as u8);
    } else if cp < 0x10000 {
        out.push((0xE0 + cp / 4096) as u8);
        out.push((0x80 + (cp / 64) % 64) as u8);
        out.push((0x80 + cp % 64) as u8);
    } else {
        out.push((0xF0 + cp / 262144) as u8);
        out.push((0x80 + (cp / 4096) % 64) as u8);
        out.push((0x80 + (cp / 64) % 64) as u8);
        out.push((0x80 + cp % 64) as u8);
    }
    assert(out@ =~= old(out)@ + utf8_of(cp as int));
}

fn read_escape(s: &[u8], from: usize, out: &mut Vec<u8>) -> (r: Option<usize>)
    requires
        from <= s.len(),
    ensures
        match escape_at(s@, from as int) {
            Some((bytes, next)) => r == Some(next as usize) && next <= s.len() && final(out)@
                == old(out)@ + bytes,
            None => r is None,
        },
{
    if from >= s.len() {
        return None;
    }
    let b: u8 = s[from];
    let plain: Option<u8> = if b == QUOTE || b == BACKSLASH || b == SLASH {
        Some(b)
    } else if b == 98 {
        Some(8)
    } else if b == 102 {
        Some(12)
    } else if b == 110 {
        Some(10)
    } else if b == 114 {
        Some(13)
    } else if b == 116 {
        Some(9)
    } else {
        None
    };
    match plain {
        Some(byte) => {
            out.push(byte);
            assert(out@ =~= old(out)@ + seq![byte]);
            return Some(from + 1);
        },
        None => {},
    }
    if b != 117 {
        return None;
    }
    match read_hex4(s, from + 1) {
        Some(cp) => {
            if 0xD800 <= cp && cp < 0xDC00 {
                if is_at(s, from + 5, BACKSLASH) && is_at(s, from + 6, 117) {
                    match read_hex4(s, from + 7) {
                        Some(low) => {
                            if 0xDC00 <= low && low < 0xE000 {
                                push_utf8(out, 0x10000 + (cp - 0xD800) * 1024 + (low - 0xDC00));
                                Some(from + 11)
                            } else {
                                None
                            }
                        },
                        None => None,
                    }
                } else {
                    None
                }
            } else if 0xDC00 <= cp && cp < 0xE000 {
                None
            } else {
                push_utf8(out, cp);
                Some(from + 5)
            }
        },
        None => None,
    }
}

fn read_string(s: &[u8], from: usize) -> (r: Option<(Vec<u8>, usize)>)
    requires
        from <= s.len(),
    ensures
        match string_at(s@, from as int) {
            Some((text, end)) => r matches Some(x) && x.0@ == text && x.1 == end && end <= s.len(),
            None => r is None,
        },
{
    let mut out: Vec<u8> = Vec::new();
    let mut i: usize = from;
    proof {
        lemma_ahead_twice(out@, Seq::<u8>::empty(), string_at(s@, from as int));
        match string_at(s@, from as int) {
            Some((rest, end)) => {
                assert(out@ + rest =~= rest);
            },
            None => {},
        }
    }
    loop
        invariant
            from <= i <= s.len(),
            string_at(s@, from as int) == ahead(out@, string_at(s@, i as int)),
        decreases s.len() - i,
    {
        if i >= s.len() {
            return None;
        }
        let b: u8 = s[i];
        if b == QUOTE {
            assert(out@ + Seq::<u8>::empty() =~= out@);
            return Some((out, i + 1));
        } else if b == BACKSLASH {
            let ghost before = out@;
            match read_escape(s, i + 1, &mut out) {
                Some(next) => {
                    if next <= i {
                        return None;
                    }
                    proof {
                        lemma_ahead_twice(
                            before,
                            (escape_at(s@, i + 1)->0).0,
                            string_at(s@, next as int),
                        );
                    }
                    i = next;
                },
                None => {
                    return None;
                },
            }
        } else if b < 32 {
            return None;
        } else {
            proof {
                lemma_ahead_twice(out@, seq![b], string_at(s@, i + 1));
                assert(out@.push(b) =~= out@ + seq![b]);
            }
            out.push(b);
            i += 1;
        }
    }
}

fn copy_path(path: &Vec<Segment>) -> (r: Vec<Segment>)
    ensures
        views(r@) == views(path@),
{
    let mut out: Vec<Segment> = Vec::new();
    let mut k: usize = 0;
    while k < path.len()
        invariant
            k <= path.len(),
            out.len() == k,
            forall|j: int| 0 <= j < k ==> out@[j]@ == path@[j]@,
        decreases path.len() - k,
    {
        let segment = match &path[k] {
            Segment::Key(key) => Segment::Key(to_vec(key.as_slice())),
            Segment::Index(i) => Segment::Index(*i),
        };
        out.push(segment);
        k += 1;
    }
    assert(views(out@) =~= views(path@));
    out
}

fn extend_path(path: &Vec<Segment>, segment: Segment) -> (r: Vec<Segment>)
    ensures
        views(r@) == views(path@).push(segment@),
{
    let mut out = copy_path(path);
    proof {
        lemma_views_push(out@, segment);
    }
    out.push(segment);
    out
}

fn push_leaf(out: &mut Vec<Leaf>, prefix: &Vec<Segment>, value: Vec<u8>)
    ensures
        views(final(out)@) == views(old(out)@) + seq![
            LeafView { path: views(prefix@), value: value@ },
        ],
{
    let leaf = Leaf { path: copy_path(prefix), value };
    proof {
        lemma_views_push(out@, leaf);
        assert(views(out@).push(leaf@) =~= views(out@) + seq![leaf@]);
    }
    out.push(leaf);
}

/// What `read` says of the fields that a reader appended to `before`.
spec fn appended(
    read: Option<(Seq<LeafView>, int)>,
    r: Option<usize>,
    before: Seq<LeafView>,
    after: Seq<LeafView>,
    limit: int,
) -> bool {
    match read {
        Some((leaves, end)) => r == Some(end as usize) && 0 <= end <= limit && after == before
            + leaves,
        None => r is None,
    }
}

proof fn lemma_appended_twice(
    before: Seq<LeafView>,
    leaves: Seq<LeafView>,
    rest: Option<(Seq<LeafView>, int)>,
    r: Option<usize>,
    after: Seq<LeafView>,
    limit: int,
)
    requires
        appended(rest, r, before + leaves, after, limit),
    ensures
        appended(ahead(leaves, rest), r, before, after, limit),
{
    match rest {
        Some((more, end)) => {
            assert((before + leaves) + more =~= before + (leaves + more));
        },
        None => {},
    }
}

fn read_value(s: &[u8], from: usize, prefix: &Vec<Segment>, depth: usize, out: &mut Vec<Leaf>) -> (r:
    Option<usize>)
    requires
        from <= s.len(),
    ensures
        appended(
            value_at(s@, from as int, views(prefix@), depth as nat),
            r,
            views(old(out)@),
            views(final(out)@),
            s.len() as int,
        ),
    decreases depth, s.len() - from, 0int,
{
    let i: usize = skip_space(s, from);
    if i >= s.len() {
        return None;
    }
    if s[i] == OPEN_BRACE {
        if depth == 0 {
            None
        } else {
            read_members(s, i + 1, prefix, true, depth - 1, out)
        }
    } else if s[i] == OPEN_BRACKET {
        if depth == 0 {
            None
        } else {
            read_elements(s, i + 1, prefix, 0, depth - 1, out)
        }
    } else if s[i] == QUOTE {
        match read_string(s, i + 1) {
            Some((text, end)) => {
                push_leaf(out, prefix, text);
                Some(end)
            },
            None => None,
        }
    } else {
        match literal_stop(s, i) {
            Some(end) => {
                push_leaf(out, prefix, to_vec(slice_subrange(s, i, end)));
                Some(end)
            },
            None => None,
        }
    }
}

fn read_members(
    s: &[u8],
    from: usize,
    prefix: &Vec<Segment>,
    first: bool,
    depth: usize,
    out: &mut Vec<Leaf>,
) -> (r: Option<usize>)
    requires
        from <= s.len(),
    ensures
        appended(
            members_at(s@, from as int, views(prefix@), first, depth as nat),
            r,
            views(old(out)@),
            views(final(out)@),
            s.len() as int,
        ),
    decreases depth, s.len() - from, 1int,
{
    let i: usize = skip_space(s, from);
    if i >= s.len() {
        return None;
    }
    if first && s[i] == CLOSE_BRACE {
        assert(views(out@) + Seq::<LeafView>::empty() =~= views(out@));
        return Some(i + 1);
    }
    if s[i] != QUOTE {
        return None;
    }
    let (key, after_key) = match read_string(s, i + 1) {
        Some(x) => x,
        None => {
            return None;
        },
    };
    let colon: usize = skip_space(s, after_key);
    if after_key <= i || !is_at(s, colon, COLON) {
        return None;
    }
    let child = extend_path(prefix, Segment::Key(key));
    let after_value: usize = match read_value(s, colon + 1, &child, depth, out) {
        Some(x) => x,
        None => {
            return None;
        },
    };
    let ghost leaves = (value_at(s@, colon + 1, views(child@), depth as nat)->0).0;
    let next: usize = skip_space(s, after_value);
    if after_value <= colon {
        None
    } else if is_at(s, next, CLOSE_BRACE) {
        Some(next + 1)
    } else if is_at(s, next, COMMA) {
        let ghost middle = views(out@);
        let r = read_members(s, next + 1, prefix, false, depth, out);
        proof {
            lemma_appended_twice(
                views(old(out)@),
                leaves,
                members_at(s@, next + 1, views(prefix@), false, depth as nat),
                r,
                views(out@),
                s.len() as int,
            );
        }
        r
    } else {
        None
    }
}

fn read_elements(
    s: &[u8],
    from: usize,
    prefix: &Vec<Segment>,
    index: u64,
    depth: usize,
    out: &mut Vec<Leaf>,
) -> (r: Option<usize>)
    requires
        from <= s.len(),
    ensures
        appended(
            elements_at(s@, from as int, views(prefix@), index, depth as nat),
            r,
            views(old(out)@),
            views(final(out)@),
            s.len() as int,
        ),
    decreases depth, s.len() - from, 1int,
{
    let i: usize = skip_space(s, from);
    if i >= s.len() {
        return None;
    }
    if index == 0 && s[i] == CLOSE_BRACKET {
        assert(views(out@) + Seq::<LeafView>::empty() =~= views(out@));
        return Some(i + 1);
    }
    let child = extend_path(prefix, Segment::Index(index));
    let after_value: usize = match read_value(s, i, &child, depth, out) {
        Some(x) => x,
        None => {
            return None;
        },
    };
    let ghost leaves = (value_at(s@, i as int, views(child@), depth as nat)->0).0;
    let next: usize = skip_space(s, after_value);
    if after_value <= i {
        None
    } else if is_at(s, next, CLOSE_BRACKET) {
        Some(next + 1)
    } else if is_at(s, next, COMMA) && index < u64::MAX {
        let r = read_elements(s, next + 1, prefix, index + 1, depth, out);
        proof {
            lemma_appended_twice(
                views(old(out)@),
                leaves,
                elements_at(s@, next + 1, views(prefix@), (index + 1) as u64, depth as nat),
                r,
                views(out@),
                s.len() as int,
            );
        }
        r
    } else {
        None
    }
}

/// Reads a JSON text into the fields of a body.
pub fn decode(s: &[u8]) -> (r: Option<Vec<Leaf>>)
    ensures
        match decoded(s@) {
            Some(leaves) => r matches Some(x) && views(x@) == leaves,
            None => r is None,
        },
{
    let mut out: Vec<Leaf> = Vec::new();
    let prefix: Vec<Segment> = Vec::new();
    assert(views(prefix@) =~= Seq::<SegmentView>::empty());
    assert(views(out@) =~= Seq::<LeafView>::empty());
    match read_value(s, 0, &prefix, MAX_NESTING, &mut out) {
        Some(end) => {
            let ghost leaves = (value_at(s@, 0, views(prefix@), MAX_NESTING as nat)->0).0;
            assert(Seq::<LeafView>::empty() + leaves =~= leaves);
            if skip_space(s, end) >= s.len() {
                Some(out)
            } else {
                None
            }
        },
        None => None,
    }
}

} // verus!

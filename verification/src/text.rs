//! Byte-string primitives shared by the rest of the engine: searching,
//! trimming, case folding and decimal numbers.

use vstd::prelude::*;
use vstd::slice::slice_subrange;
use vstd::string::StringSliceAdditionalSpecFns;

verus! {

pub const TAB: u8 = 9;

pub const NEWLINE: u8 = 10;

pub const RETURN: u8 = 13;

pub const SPACE: u8 = 32;

pub const QUOTE: u8 = 34;

pub const HASH: u8 = 35;

pub const DOLLAR: u8 = 36;

pub const APOSTROPHE: u8 = 39;

pub const STAR: u8 = 42;

pub const PLUS: u8 = 43;

pub const COMMA: u8 = 44;

pub const DASH: u8 = 45;

pub const DOT: u8 = 46;

pub const SLASH: u8 = 47;

pub const COLON: u8 = 58;

pub const QUESTION: u8 = 63;

pub const OPEN_BRACKET: u8 = 91;

pub const BACKSLASH: u8 = 92;

pub const CLOSE_BRACKET: u8 = 93;

pub const OPEN_BRACE: u8 = 123;

pub const CLOSE_BRACE: u8 = 125;

/// `pat` occurs in `text` starting at index `at`.
pub open spec fn occurs_at(text: Seq<u8>, pat: Seq<u8>, at: int) -> bool {
    &&& 0 <= at
    &&& at + pat.len() <= text.len()
    &&& text.subrange(at, at + pat.len()) == pat
}

/// `pat` occurs somewhere in `text`.
pub open spec fn contains(text: Seq<u8>, pat: Seq<u8>) -> bool {
    exists|at: int| occurs_at(text, pat, at)
}

/// The least index at or after `from` where `pat` occurs in `text`.
pub open spec fn first_occurrence(text: Seq<u8>, pat: Seq<u8>, from: int) -> Option<int>
    decreases text.len() + 1 - from,
{
    if from < 0 || from + pat.len() > text.len() {
        None
    } else if occurs_at(text, pat, from) {
        Some(from)
    } else {
        first_occurrence(text, pat, from + 1)
    }
}

/// `first_occurrence` finds the leftmost occurrence, and finds one whenever
/// there is any at or after `from`.
pub proof fn lemma_first_occurrence(text: Seq<u8>, pat: Seq<u8>, from: int)
    requires
        0 <= from,
    ensures
        match first_occurrence(text, pat, from) {
            Some(at) => from <= at && occurs_at(text, pat, at) && forall|k: int|
                from <= k < at ==> !occurs_at(text, pat, k),
            None => forall|k: int| from <= k ==> !occurs_at(text, pat, k),
        },
    decreases text.len() + 1 - from,
{
    if from + pat.len() > text.len() {
    } else if occurs_at(text, pat, from) {
    } else {
        lemma_first_occurrence(text, pat, from + 1);
    }
}

/// Searching from the start decides containment.
pub proof fn lemma_first_occurrence_contains(text: Seq<u8>, pat: Seq<u8>)
    ensures
        first_occurrence(text, pat, 0) is Some <==> contains(text, pat),
{
    lemma_first_occurrence(text, pat, 0);
}

/// Whether `pat` occurs in `text` at `at`.
pub fn matches_at(text: &[u8], pat: &[u8], at: usize) -> (r: bool)
    ensures
        r == occurs_at(text@, pat@, at as int),
{
    if pat.len() > text.len() || at > text.len() - pat.len() {
        return false;
    }
    let mut k: usize = 0;
    while k < pat.len()
        invariant
            k <= pat.len(),
            at + pat.len() <= text.len(),
            forall|j: int| 0 <= j < k ==> text@[at + j] == pat@[j],
        decreases pat.len() - k,
    {
        if text[at + k] != pat[k] {
            assert(text@.subrange(at as int, at + pat@.len())[k as int] == text@[at + k]);
            return false;
        }
        k += 1;
    }
    assert(text@.subrange(at as int, at + pat@.len()) =~= pat@);
    true
}

/// The first index at or after `from` where `pat` occurs in `text`.
pub fn find(text: &[u8], pat: &[u8], from: usize) -> (r: Option<usize>)
    ensures
        match r {
            Some(at) => first_occurrence(text@, pat@, from as int) == Some(at as int),
            None => first_occurrence(text@, pat@, from as int) is None,
        },
{
    if pat.len() > text.len() {
        return None;
    }
    let last: usize = text.len() - pat.len();
    let mut i: usize = from;
    while i <= last
        invariant
            from <= i,
            last + pat.len() == text.len(),
            first_occurrence(text@, pat@, from as int) == first_occurrence(text@, pat@, i as int),
        decreases last - i,
    {
        if matches_at(text, pat, i) {
            return Some(i);
        }
        if i == last {
            assert(first_occurrence(text@, pat@, i + 1) is None);
            return None;
        }
        i += 1;
    }
    None
}

/// The bytes of a word written in the source.
pub open spec fn word(w: &str) -> Seq<u8> {
    w.spec_bytes()
}

/// Whether `text` is the word `w`.
pub fn is_word(text: &[u8], w: &str) -> (r: bool)
    ensures
        r == (text@ == word(w)),
{
    bytes_eq(text, w.as_bytes())
}

/// Whether two byte strings hold the same bytes.
pub fn bytes_eq(a: &[u8], b: &[u8]) -> (r: bool)
    ensures
        r == (a@ == b@),
{
    if a.len() != b.len() {
        return false;
    }
    let mut k: usize = 0;
    while k < a.len()
        invariant
            k <= a.len(),
            a.len() == b.len(),
            forall|j: int| 0 <= j < k ==> a@[j] == b@[j],
        decreases a.len() - k,
    {
        if a[k] != b[k] {
            return false;
        }
        k += 1;
    }
    assert(a@ =~= b@);
    true
}

/// A fresh copy of `s`.
pub fn to_vec(s: &[u8]) -> (v: Vec<u8>)
    ensures
        v@ == s@,
{
    let mut v: Vec<u8> = Vec::new();
    let mut k: usize = 0;
    while k < s.len()
        invariant
            k <= s.len(),
            v@ == s@.subrange(0, k as int),
        decreases s.len() - k,
    {
        v.push(s[k]);
        assert(v@ =~= s@.subrange(0, k + 1));
        k += 1;
    }
    assert(v@ =~= s@);
    v
}

/// Appends the bytes of `src` to `dst`.
pub fn append(dst: &mut Vec<u8>, src: &[u8])
    ensures
        final(dst)@ == old(dst)@ + src@,
{
    let mut k: usize = 0;
    while k < src.len()
        invariant
            k <= src.len(),
            dst@ == old(dst)@ + src@.subrange(0, k as int),
        decreases src.len() - k,
    {
        dst.push(src[k]);
        assert(dst@ =~= old(dst)@ + src@.subrange(0, k + 1));
        k += 1;
    }
    assert(src@.subrange(0, src@.len() as int) =~= src@);
}

/// How many bytes from index `from` on come before the next byte that
/// equals `a` or `b`.
pub open spec fn run_to(text: Seq<u8>, from: int, a: u8, b: u8) -> nat
    decreases text.len() - from,
{
    if from < 0 || from >= text.len() || text[from] == a || text[from] == b {
        0
    } else {
        1 + run_to(text, from + 1, a, b)
    }
}

/// The index of the first byte at or after `from` that equals `a` or `b`;
/// the length of the text if there is none.
pub open spec fn stop_at(text: Seq<u8>, from: int, a: u8, b: u8) -> int {
    from + run_to(text, from, a, b)
}

/// `stop_at` stays within the text, passes over no `a` or `b`, and stops on
/// one unless the text ends first.
pub proof fn lemma_stop_at(text: Seq<u8>, from: int, a: u8, b: u8)
    requires
        0 <= from <= text.len(),
    ensures
        from <= stop_at(text, from, a, b) <= text.len(),
        forall|k: int| from <= k < stop_at(text, from, a, b) ==> text[k] != a && text[k] != b,
        stop_at(text, from, a, b) < text.len() ==> text[stop_at(text, from, a, b)] == a
            || text[stop_at(text, from, a, b)] == b,
    decreases text.len() - from,
{
    if from < text.len() && text[from] != a && text[from] != b {
        lemma_stop_at(text, from + 1, a, b);
    }
}

/// Finds the first byte at or after `from` that equals `a` or `b`.
pub fn scan_to(text: &[u8], from: usize, a: u8, b: u8) -> (r: usize)
    ensures
        r == stop_at(text@, from as int, a, b),
        from <= r,
        from <= text.len() ==> r <= text.len(),
{
    let mut j: usize = from;
    while j < text.len() && text[j] != a && text[j] != b
        invariant
            from <= j,
            from <= text.len() ==> j <= text.len(),
            stop_at(text@, from as int, a, b) == stop_at(text@, j as int, a, b),
        decreases text.len() - j,
    {
        j += 1;
    }
    j
}

/// A space or a horizontal tab.
pub open spec fn is_blank(b: u8) -> bool {
    b == SPACE || b == TAB
}

/// `s` without its leading blanks.
pub open spec fn strip_start(s: Seq<u8>) -> Seq<u8>
    decreases s.len(),
{
    if s.len() > 0 && is_blank(s[0]) {
        strip_start(s.drop_first())
    } else {
        s
    }
}

/// `s` without its trailing blanks.
pub open spec fn strip_end(s: Seq<u8>) -> Seq<u8>
    decreases s.len(),
{
    if s.len() > 0 && is_blank(s.last()) {
        strip_end(s.drop_last())
    } else {
        s
    }
}

/// `s` without leading and trailing blanks.
pub open spec fn trimmed(s: Seq<u8>) -> Seq<u8> {
    strip_end(strip_start(s))
}

/// The part of `s` that is left when leading and trailing blanks are removed.
pub fn trim(s: &[u8]) -> (r: &[u8])
    ensures
        r@ == trimmed(s@),
{
    let mut a: usize = 0;
    assert(s@.subrange(0, s@.len() as int) =~= s@);
    while a < s.len() && (s[a] == SPACE || s[a] == TAB)
        invariant
            a <= s.len(),
            strip_start(s@) == strip_start(s@.subrange(a as int, s@.len() as int)),
        decreases s.len() - a,
    {
        assert(s@.subrange(a as int, s@.len() as int).drop_first() =~= s@.subrange(
            a + 1,
            s@.len() as int,
        ));
        a += 1;
    }
    let mut b: usize = s.len();
    while b > a && (s[b - 1] == SPACE || s[b - 1] == TAB)
        invariant
            a <= b <= s.len(),
            strip_start(s@) == s@.subrange(a as int, s@.len() as int),
            trimmed(s@) == strip_end(s@.subrange(a as int, b as int)),
        decreases b,
    {
        assert(s@.subrange(a as int, b as int).drop_last() =~= s@.subrange(a as int, b - 1));
        b -= 1;
    }
    slice_subrange(s, a, b)
}

/// The lower-case form of an ASCII letter; any other byte unchanged.
pub open spec fn lower(b: u8) -> u8 {
    if 65 <= b <= 90 {
        (b + 32) as u8
    } else {
        b
    }
}

/// `s` with its ASCII letters in lower case.
pub open spec fn folded(s: Seq<u8>) -> Seq<u8> {
    Seq::new(s.len(), |i: int| lower(s[i]))
}

fn lower_byte(b: u8) -> (r: u8)
    ensures
        r == lower(b),
{
    if 65 <= b && b <= 90 {
        b + 32
    } else {
        b
    }
}

/// Whether two byte strings are equal when ASCII case is ignored.
pub fn eq_ignore_case(a: &[u8], b: &[u8]) -> (r: bool)
    ensures
        r == (folded(a@) == folded(b@)),
{
    if a.len() != b.len() {
        assert(folded(a@).len() != folded(b@).len());
        return false;
    }
    let mut k: usize = 0;
    while k < a.len()
        invariant
            k <= a.len(),
            a.len() == b.len(),
            forall|j: int| 0 <= j < k ==> lower(a@[j]) == lower(b@[j]),
        decreases a.len() - k,
    {
        if lower_byte(a[k]) != lower_byte(b[k]) {
            assert(folded(a@)[k as int] != folded(b@)[k as int]);
            return false;
        }
        k += 1;
    }
    assert(folded(a@) =~= folded(b@));
    true
}

/// An ASCII decimal digit.
pub open spec fn is_digit(b: u8) -> bool {
    48 <= b <= 57
}

/// Every byte of `s` is a decimal digit.
pub open spec fn all_digits(s: Seq<u8>) -> bool {
    forall|i: int| 0 <= i < s.len() ==> is_digit(#[trigger] s[i])
}

/// The number that the digits of `s` write in base ten.
pub open spec fn decimal_value(s: Seq<u8>) -> nat
    decreases s.len(),
{
    if s.len() == 0 {
        0
    } else {
        decimal_value(s.drop_last()) * 10 + (s.last() - 48) as nat
    }
}

/// The number written by `s`, where `s` is a non-empty run of digits whose
/// value fits in 64 bits.
pub open spec fn parse_decimal_spec(s: Seq<u8>) -> Option<u64> {
    if s.len() > 0 && all_digits(s) && decimal_value(s) <= u64::MAX {
        Some(decimal_value(s) as u64)
    } else {
        None
    }
}

proof fn lemma_decimal_prefix(s: Seq<u8>, k: int)
    requires
        0 <= k <= s.len(),
        all_digits(s),
    ensures
        decimal_value(s.subrange(0, k)) <= decimal_value(s),
    decreases s.len() - k,
{
    if k == s.len() {
        assert(s.subrange(0, k) =~= s);
    } else {
        lemma_decimal_prefix(s, k + 1);
        assert(s.subrange(0, k + 1).drop_last() =~= s.subrange(0, k));
    }
}

/// Reads a decimal number.
pub fn parse_decimal(s: &[u8]) -> (r: Option<u64>)
    ensures
        r == parse_decimal_spec(s@),
{
    if s.len() == 0 {
        return None;
    }
    let mut acc: u64 = 0;
    let mut k: usize = 0;
    while k < s.len()
        invariant
            k <= s.len(),
            all_digits(s@.subrange(0, k as int)),
            acc == decimal_value(s@.subrange(0, k as int)),
        decreases s.len() - k,
    {
        let b: u8 = s[k];
        if b < 48 || b > 57 {
            assert(!is_digit(s@[k as int]));
            return None;
        }
        let d: u64 = (b - 48) as u64;
        proof {
            assert(s@.subrange(0, k + 1).drop_last() =~= s@.subrange(0, k as int));
            assert(s@.subrange(0, k + 1).last() == b);
            assert forall|i: int| 0 <= i < k + 1 implies is_digit(
                #[trigger] s@.subrange(0, k + 1)[i],
            ) by {
                if i < k {
                    assert(s@.subrange(0, k as int)[i] == s@[i]);
                }
            }
        }
        if acc > (u64::MAX - d) / 10 {
            proof {
                assert(decimal_value(s@.subrange(0, k + 1)) > u64::MAX);
                if all_digits(s@) {
                    lemma_decimal_prefix(s@, k + 1);
                }
            }
            return None;
        }
        acc = acc * 10 + d;
        k += 1;
    }
    assert(s@.subrange(0, k as int) =~= s@);
    Some(acc)
}

/// The digits that write `n` in base ten, without leading zeros.
pub open spec fn decimal_digits(n: nat) -> Seq<u8>
    decreases n,
{
    if n < 10 {
        seq![(48 + n) as u8]
    } else {
        decimal_digits(n / 10).push((48 + n % 10) as u8)
    }
}

/// Appends the decimal digits of `n` to `out`.
pub fn push_decimal(out: &mut Vec<u8>, n: u64)
    ensures
        final(out)@ == old(out)@ + decimal_digits(n as nat),
    decreases n,
{
    if n < 10 {
        out.push(48 + (n as u8));
        assert(out@ =~= old(out)@ + decimal_digits(n as nat));
    } else {
        push_decimal(out, n / 10);
        out.push(48 + ((n % 10) as u8));
        assert(out@ =~= old(out)@ + decimal_digits(n as nat));
    }
}

/// The decimal digits of `n`.
pub fn to_decimal(n: u64) -> (v: Vec<u8>)
    ensures
        v@ == decimal_digits(n as nat),
{
    let mut v: Vec<u8> = Vec::new();
    push_decimal(&mut v, n);
    assert(v@ =~= decimal_digits(n as nat));
    v
}

/// Writing a number and reading it back gives the number.
pub proof fn lemma_decimal_round_trip(n: u64)
    ensures
        parse_decimal_spec(decimal_digits(n as nat)) == Some(n),
{
    lemma_decimal_digits(n as nat);
}

proof fn lemma_decimal_digits(n: nat)
    ensures
        decimal_digits(n).len() > 0,
        all_digits(decimal_digits(n)),
        decimal_value(decimal_digits(n)) == n,
    decreases n,
{
    if n < 10 {
        let s = decimal_digits(n);
        assert(s.drop_last() =~= Seq::<u8>::empty());
        assert(decimal_value(s.drop_last()) == 0);
    } else {
        lemma_decimal_digits(n / 10);
        let p = decimal_digits(n / 10);
        let s = decimal_digits(n);
        assert(s.drop_last() =~= p);
        assert forall|i: int| 0 <= i < s.len() implies is_digit(#[trigger] s[i]) by {
            if i < p.len() {
                assert(s[i] == p[i]);
            }
        }
    }
}

} // verus!

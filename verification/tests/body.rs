use testkit::body::{find_field, parse_path, path_eq, pattern_match, read_field, Leaf, Segment};

fn key(k: &[u8]) -> Segment {
    Segment::Key(k.to_vec())
}

fn leaves() -> Vec<Leaf> {
    vec![
        Leaf { path: vec![key(b"token")], value: b"abc".to_vec() },
        Leaf { path: vec![key(b"items"), Segment::Index(0), key(b"id")], value: b"7".to_vec() },
        Leaf { path: vec![key(b"items"), Segment::Index(1), key(b"id")], value: b"8".to_vec() },
        Leaf { path: vec![], value: b"root".to_vec() },
        Leaf { path: vec![key(b"token")], value: b"second".to_vec() },
    ]
}

#[test]
fn path_expressions_are_read() {
    assert_eq!(parse_path(b"$"), Some(vec![]));
    assert_eq!(parse_path(b"$.token"), Some(vec![key(b"token")]));
    assert_eq!(
        parse_path(b"$.data.items[10].id"),
        Some(vec![key(b"data"), key(b"items"), Segment::Index(10), key(b"id")])
    );
    assert_eq!(parse_path(b"$[0][1]"), Some(vec![Segment::Index(0), Segment::Index(1)]));
}

#[test]
fn what_is_no_path_expression_is_refused() {
    assert_eq!(parse_path(b""), None);
    assert_eq!(parse_path(b"token"), None);
    assert_eq!(parse_path(b"$token"), None);
    assert_eq!(parse_path(b"$."), None);
    assert_eq!(parse_path(b"$.a..b"), None);
    assert_eq!(parse_path(b"$.a[1"), None);
    assert_eq!(parse_path(b"$.a[]"), None);
    assert_eq!(parse_path(b"$.a[x]"), None);
    assert_eq!(parse_path(b"$.a[1]b"), None);
}

#[test]
fn paths_are_compared_segment_by_segment() {
    assert!(path_eq(&vec![key(b"a"), Segment::Index(1)], &vec![key(b"a"), Segment::Index(1)]));
    assert!(!path_eq(&vec![key(b"a"), Segment::Index(1)], &vec![key(b"a"), Segment::Index(2)]));
    assert!(!path_eq(&vec![key(b"a")], &vec![key(b"a"), Segment::Index(1)]));
    assert!(!path_eq(&vec![key(b"1")], &vec![Segment::Index(1)]));
}

#[test]
fn the_first_field_at_a_path_is_found() {
    let body = leaves();
    assert_eq!(find_field(&body, &vec![key(b"token")]), Some(&b"abc".to_vec()));
    assert_eq!(read_field(&body, b"$.items[1].id"), Some(&b"8".to_vec()));
    assert_eq!(read_field(&body, b"$"), Some(&b"root".to_vec()));
    assert_eq!(read_field(&body, b"$.items[2].id"), None);
    assert_eq!(read_field(&body, b"$.items"), None);
    assert_eq!(read_field(&body, b"items[1].id"), None);
}

#[test]
fn patterns_match_whole_texts() {
    assert!(pattern_match(b"", b""));
    assert!(!pattern_match(b"", b"a"));
    assert!(pattern_match(b"abc", b"abc"));
    assert!(!pattern_match(b"abc", b"abcd"));
    assert!(!pattern_match(b"abc", b"ab"));
    assert!(pattern_match(b"*", b""));
    assert!(pattern_match(b"*", b"anything"));
    assert!(pattern_match(b"k*", b"kay"));
    assert!(!pattern_match(b"k*", b"okay"));
    assert!(pattern_match(b"*ay", b"okay"));
    assert!(pattern_match(b"a*b*c", b"a--b--c"));
    assert!(pattern_match(b"a*b*c", b"abc"));
    assert!(!pattern_match(b"a*b*c", b"a--c--b"));
    assert!(pattern_match(b"**a**", b"a"));
    assert!(!pattern_match(b"*a*", b"bbb"));
}

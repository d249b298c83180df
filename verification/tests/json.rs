use testkit::body::{read_field, Leaf, Segment};
use testkit::json::decode;

fn key(k: &[u8]) -> Segment {
    Segment::Key(k.to_vec())
}

fn leaf(path: Vec<Segment>, value: &[u8]) -> Leaf {
    Leaf { path, value: value.to_vec() }
}

#[test]
fn scalars_are_single_fields_at_the_root() {
    assert_eq!(decode(b"\"hi\""), Some(vec![leaf(vec![], b"hi")]));
    assert_eq!(decode(b" 42 "), Some(vec![leaf(vec![], b"42")]));
    assert_eq!(decode(b"-1.5e+10"), Some(vec![leaf(vec![], b"-1.5e+10")]));
    assert_eq!(decode(b"true"), Some(vec![leaf(vec![], b"true")]));
    assert_eq!(decode(b"false"), Some(vec![leaf(vec![], b"false")]));
    assert_eq!(decode(b"\n null\r\n"), Some(vec![leaf(vec![], b"null")]));
}

#[test]
fn objects_and_lists_give_the_fields_of_their_members() {
    let text = b"{\"token\": \"abc\", \"user\": {\"name\": \"kay\", \"tags\": [\"a\", [true, 2]]}, \"n\": 0}";
    assert_eq!(
        decode(text),
        Some(vec![
            leaf(vec![key(b"token")], b"abc"),
            leaf(vec![key(b"user"), key(b"name")], b"kay"),
            leaf(vec![key(b"user"), key(b"tags"), Segment::Index(0)], b"a"),
            leaf(vec![key(b"user"), key(b"tags"), Segment::Index(1), Segment::Index(0)], b"true"),
            leaf(vec![key(b"user"), key(b"tags"), Segment::Index(1), Segment::Index(1)], b"2"),
            leaf(vec![key(b"n")], b"0"),
        ])
    );
    assert_eq!(decode(b"{}"), Some(vec![]));
    assert_eq!(decode(b"[ ]"), Some(vec![]));
    assert_eq!(decode(b"[[], {}]"), Some(vec![]));
    assert_eq!(decode(b"[1 , 2]"), Some(vec![leaf(vec![Segment::Index(0)], b"1"), leaf(vec![Segment::Index(1)], b"2")]));
}

#[test]
fn decoded_fields_are_found_by_path() {
    let body = decode(b"{\"data\": {\"items\": [{\"id\": 7}, {\"id\": 8}]}}").unwrap();
    assert_eq!(read_field(&body, b"$.data.items[1].id"), Some(&b"8".to_vec()));
    assert_eq!(read_field(&body, b"$.data.items[2].id"), None);
}

#[test]
fn escapes_are_taken_out_of_strings() {
    assert_eq!(decode(b"\"a\\\"b\\\\c\\/d\""), Some(vec![leaf(vec![], b"a\"b\\c/d")]));
    assert_eq!(decode(b"\"\\b\\f\\n\\r\\t\""), Some(vec![leaf(vec![], &[8, 12, 10, 13, 9])]));
    assert_eq!(decode(b"\"\\u0041\\u00e9\\u20AC\""), Some(vec![leaf(vec![], "A\u{e9}\u{20ac}".as_bytes())]));
    assert_eq!(decode(b"\"\\ud83d\\ude00\""), Some(vec![leaf(vec![], "\u{1f600}".as_bytes())]));
    assert_eq!(decode("\"caf\u{e9}\"".as_bytes()), Some(vec![leaf(vec![], "caf\u{e9}".as_bytes())]));
    assert_eq!(decode(b"{\"a\\tb\": 1}"), Some(vec![leaf(vec![key(b"a\tb")], b"1")]));
}

#[test]
fn what_is_no_json_text_is_refused() {
    assert_eq!(decode(b""), None);
    assert_eq!(decode(b"   "), None);
    assert_eq!(decode(b"{"), None);
    assert_eq!(decode(b"{\"a\": 1,}"), None);
    assert_eq!(decode(b"{\"a\" 1}"), None);
    assert_eq!(decode(b"{a: 1}"), None);
    assert_eq!(decode(b"[1, 2"), None);
    assert_eq!(decode(b"[1 2]"), None);
    assert_eq!(decode(b"[1,]"), None);
    assert_eq!(decode(b"[,1]"), None);
    assert_eq!(decode(b"1 2"), None);
    assert_eq!(decode(b"\"open"), None);
    assert_eq!(decode(b"\"bad \\x escape\""), None);
    assert_eq!(decode(b"\"\\u12\""), None);
    assert_eq!(decode(b"\"\\ud83d\""), None);
    assert_eq!(decode(b"\"\\ude00\""), None);
    assert_eq!(decode(b"\"line\nbreak\""), None);
    assert_eq!(decode(b"tru"), None);
    assert_eq!(decode(b"-"), None);
    assert_eq!(decode(b"1."), None);
    assert_eq!(decode(b"1e"), None);
    assert_eq!(decode(b".5"), None);
    assert_eq!(decode(b"nulls"), None);
}

#[test]
fn nesting_is_limited() {
    let deep = |n: usize| {
        let mut text = vec![b'['; n];
        text.push(b'1');
        text.extend(vec![b']'; n]);
        text
    };
    assert_eq!(decode(&deep(64)).map(|leaves| leaves.len()), Some(1));
    assert_eq!(decode(&deep(65)), None);
    assert_eq!(decode(&vec![b'['; 100000]), None);
}

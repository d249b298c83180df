use testkit::body::{Leaf, Segment};
use testkit::evaluator::Response;
use testkit::model::{Header, Request};
use testkit::wire::{locate, read_response, render, Endpoint, TargetError};

fn endpoint(host: &[u8], port: u16, path: &[u8]) -> Endpoint {
    Endpoint { host: host.to_vec(), port, path: path.to_vec() }
}

#[test]
fn a_target_names_host_port_and_path() {
    assert_eq!(locate(b"http://example.org"), Ok(endpoint(b"example.org", 80, b"/")));
    assert_eq!(locate(b"http://example.org/"), Ok(endpoint(b"example.org", 80, b"/")));
    assert_eq!(locate(b"http://localhost:8080/a/b?x=1"), Ok(endpoint(b"localhost", 8080, b"/a/b?x=1")));
    assert_eq!(locate(b"http://h:65535?x=/y"), Ok(endpoint(b"h", 65535, b"/?x=/y")));
    assert_eq!(locate(b"http://h/a:b"), Ok(endpoint(b"h", 80, b"/a:b")));
}

#[test]
fn a_target_that_names_no_endpoint_is_refused() {
    assert_eq!(locate(b""), Err(TargetError::Scheme));
    assert_eq!(locate(b"https://example.org/"), Err(TargetError::Scheme));
    assert_eq!(locate(b"example.org/path"), Err(TargetError::Scheme));
    assert_eq!(locate(b"http://"), Err(TargetError::Host));
    assert_eq!(locate(b"http:///path"), Err(TargetError::Host));
    assert_eq!(locate(b"http://:80/"), Err(TargetError::Host));
    assert_eq!(locate(b"http://h:/"), Err(TargetError::Port));
    assert_eq!(locate(b"http://h:0/"), Err(TargetError::Port));
    assert_eq!(locate(b"http://h:65536/"), Err(TargetError::Port));
    assert_eq!(locate(b"http://h:8o/"), Err(TargetError::Port));
}

#[test]
fn a_request_is_written_as_one_message() {
    let request = Request {
        method: b"POST".to_vec(),
        target: b"http://localhost:8080/login".to_vec(),
        headers: vec![
            Header { name: b"Accept".to_vec(), value: b"application/json".to_vec() },
            Header { name: b"X-Empty".to_vec(), value: b"".to_vec() },
        ],
        body: b"{\"user\": \"kay\"}".to_vec(),
        timeout_ms: 1000,
    };
    let to = locate(&request.target).unwrap();
    assert_eq!(
        render(&request, &to),
        Some(
            b"POST /login HTTP/1.0\r\nHost: localhost:8080\r\nAccept: application/json\r\nX-Empty: \r\nContent-Length: 15\r\nConnection: close\r\n\r\n{\"user\": \"kay\"}"
                .to_vec()
        )
    );
    let get = Request { method: b"GET".to_vec(), target: vec![], headers: vec![], body: vec![], timeout_ms: 1 };
    assert_eq!(
        render(&get, &endpoint(b"h", 80, b"/")),
        Some(b"GET / HTTP/1.0\r\nHost: h\r\nContent-Length: 0\r\nConnection: close\r\n\r\n".to_vec())
    );
}

#[test]
fn a_head_that_would_break_a_line_is_not_written() {
    let mut request = Request { method: b"GET".to_vec(), target: vec![], headers: vec![], body: b"a\r\nb".to_vec(), timeout_ms: 1 };
    assert!(render(&request, &endpoint(b"h", 80, b"/")).is_some());
    assert_eq!(render(&request, &endpoint(b"h", 80, b"/a\r\nX: y")), None);
    assert_eq!(render(&request, &endpoint(b"h\n", 80, b"/")), None);
    request.headers = vec![Header { name: b"A".to_vec(), value: b"b\nInjected: 1".to_vec() }];
    assert_eq!(render(&request, &endpoint(b"h", 80, b"/")), None);
    request.headers = vec![Header { name: b"A\r".to_vec(), value: b"b".to_vec() }];
    assert_eq!(render(&request, &endpoint(b"h", 80, b"/")), None);
    request.headers = vec![];
    request.method = b"GET\r\n".to_vec();
    assert_eq!(render(&request, &endpoint(b"h", 80, b"/")), None);
}

#[test]
fn a_response_is_read_from_its_bytes() {
    let bytes = b"HTTP/1.1 201 Created\r\nContent-Type: application/json\r\nX-Two:  a: b \r\n\r\n{\"id\": 7, \"tags\": [\"x\"]}";
    assert_eq!(
        read_response(bytes, 42),
        Some(Response {
            status: 201,
            headers: vec![
                Header { name: b"Content-Type".to_vec(), value: b"application/json".to_vec() },
                Header { name: b"X-Two".to_vec(), value: b"a: b".to_vec() },
            ],
            body: vec![
                Leaf { path: vec![Segment::Key(b"id".to_vec())], value: b"7".to_vec() },
                Leaf { path: vec![Segment::Key(b"tags".to_vec()), Segment::Index(0)], value: b"x".to_vec() },
            ],
            elapsed_ms: 42,
        })
    );
}

#[test]
fn a_body_that_is_no_json_text_is_one_field() {
    let response = read_response(b"HTTP/1.0 200 OK\nServer: x\n\nhello\nworld", 1).unwrap();
    assert_eq!(response.status, 200);
    assert_eq!(response.headers.len(), 1);
    assert_eq!(response.body, vec![Leaf { path: vec![], value: b"hello\nworld".to_vec() }]);
    let empty = read_response(b"HTTP/1.0 204 No Content\r\n\r\n", 1).unwrap();
    assert_eq!(empty.body, vec![Leaf { path: vec![], value: vec![] }]);
    assert!(empty.headers.is_empty());
    let bare = read_response(b"HTTP/1.0 204\r\n", 1).unwrap();
    assert_eq!(bare.status, 204);
    assert_eq!(bare.body, vec![Leaf { path: vec![], value: vec![] }]);
}

#[test]
fn bytes_that_tell_no_response_are_refused() {
    assert_eq!(read_response(b"", 1), None);
    assert_eq!(read_response(b"HTTP/1.1 200 OK", 1), None);
    assert_eq!(read_response(b"ICY 200 OK\r\n\r\n", 1), None);
    assert_eq!(read_response(b"HTTP/1.1\r\n\r\n", 1), None);
    assert_eq!(read_response(b"HTTP/1.1 20 OK\r\n\r\n", 1), None);
    assert_eq!(read_response(b"HTTP/1.1 2000 OK\r\n\r\n", 1), None);
    assert_eq!(read_response(b"HTTP/1.1 abc OK\r\n\r\n", 1), None);
    assert_eq!(read_response(b"HTTP/1.1 200 OK\r\nno colon here\r\n\r\n", 1), None);
    assert_eq!(read_response(b"HTTP/1.1 200 OK\r\n: value\r\n\r\n", 1), None);
    assert_eq!(read_response(b"HTTP/1.1 200 OK\r\nA: b", 1), None);
}

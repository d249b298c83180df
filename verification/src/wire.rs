//! The bytes that go over the wire. A request is written as an HTTP/1.0
//! message, whose response ends with the connection; a response is read
//! from the bytes that came: status line, headers, and a body whose fields
//! are those of its JSON text, or the whole body as the one field `$` where
//! it is no JSON text. Nothing here opens a connection.

use vstd::prelude::*;
use vstd::slice::slice_subrange;
use crate::body::{Leaf, LeafView};
use crate::evaluator::{Response, ResponseView};
use crate::json::{ahead, decode, decoded, lemma_ahead_twice};
use crate::model::{lemma_views_push, views, Header, HeaderView, Request, RequestView};
use crate::parser::without_return;
use crate::text::{
    append, decimal_digits, lemma_stop_at, matches_at, occurs_at, parse_decimal,
    parse_decimal_spec, push_decimal, scan_to, stop_at, to_vec, trim, trimmed, word, COLON,
    NEWLINE, QUESTION, RETURN, SLASH, SPACE,
};

verus! {

/// Where a request goes: host, port and the path with its query.
#[derive(Debug, Clone, PartialEq, Eq)]
pub struct Endpoint {
    pub host: Vec<u8>,
    pub port: u16,
    pub path: Vec<u8>,
}

/// The mathematical value of an `Endpoint`.
pub struct EndpointView {
    pub host: Seq<u8>,
    pub port: u16,
    pub path: Seq<u8>,
}

impl View for Endpoint {
    type V = EndpointView;

    open spec fn view(&self) -> EndpointView {
        EndpointView { host: self.host@, port: self.port, path: self.path@ }
    }
}

/// Why a target names no endpoint.
#[derive(Debug, Clone, Copy, PartialEq, Eq, Structural)]
pub enum TargetError {
    /// The target does not start with `http://`.
    Scheme,
    /// The target names no host.
    Host,
    /// The port is no number from 1 to 65535.
    Port,
}

/// The endpoint that `target` names. The host ends at the first `/` or
/// `?`, or with the target; a port may follow it behind `:`, and is 80
/// where none does; the path is what follows, and `/` where nothing does.
pub open spec fn located(target: Seq<u8>) -> Result<EndpointView, TargetError> {
    let start = word("http://").len() as int;
    if !occurs_at(target, word("http://"), 0) {
        Err(TargetError::Scheme)
    } else {
        let end = stop_at(target, start, SLASH, QUESTION);
        let authority = target.subrange(start, end);
        let colon = stop_at(authority, 0, COLON, COLON);
        let host = authority.subrange(0, colon);
        let rest = target.subrange(end, target.len() as int);
        let path = if rest.len() > 0 && rest[0] == SLASH {
            rest
        } else {
            seq![SLASH] + rest
        };
        if host.len() == 0 {
            Err(TargetError::Host)
        } else if colon == authority.len() {
            Ok(EndpointView { host, port: 80, path })
        } else {
            match parse_decimal_spec(authority.subrange(colon + 1, authority.len() as int)) {
                Some(n) => if 1 <= n <= 65535 {
                    Ok(EndpointView { host, port: n as u16, path })
                } else {
                    Err(TargetError::Port)
                },
                None => Err(TargetError::Port),
            }
        }
    }
}

/// Finds the endpoint that a target names.
pub fn locate(target: &[u8]) -> (r: Result<Endpoint, TargetError>)
    ensures
        match located(target@) {
            Ok(e) => r matches Ok(x) && x@ == e,
            Err(e) => r == Err::<Endpoint, TargetError>(e),
        },
{
    let scheme = "http://".as_bytes();
    if !matches_at(target, scheme, 0) {
        return Err(TargetError::Scheme);
    }
    let start: usize = scheme.len();
    let end: usize = scan_to(target, start, SLASH, QUESTION);
    let authority = slice_subrange(target, start, end);
    let colon: usize = scan_to(authority, 0, COLON, COLON);
    let host = slice_subrange(authority, 0, colon);
    let rest = slice_subrange(target, end, target.len());
    let mut path: Vec<u8> = Vec::new();
    if !(rest.len() > 0 && rest[0] == SLASH) {
        path.push(SLASH);
    }
    append(&mut path, rest);
    proof {
        if rest@.len() > 0 && rest@[0] == SLASH {
            assert(path@ =~= rest@);
        } else {
            assert(path@ =~= seq![SLASH] + rest@);
        }
    }
    if host.len() == 0 {
        return Err(TargetError::Host);
    }
    if colon == authority.len() {
        return Ok(Endpoint { host: to_vec(host), port: 80, path });
    }
    match parse_decimal(slice_subrange(authority, colon + 1, authority.len())) {
        Some(n) => if 1 <= n && n <= 65535 {
            Ok(Endpoint { host: to_vec(host), port: n as u16, path })
        } else {
            Err(TargetError::Port)
        },
        None => Err(TargetError::Port),
    }
}

/// `text` holds neither a carriage return nor a line feed.
pub open spec fn one_line(text: Seq<u8>) -> bool {
    forall|i: int| 0 <= i < text.len() ==> text[i] != RETURN && text[i] != NEWLINE
}

/// Every header name and value from index `from` on is one line.
pub open spec fn headers_one_line(headers: Seq<HeaderView>, from: int) -> bool
    decreases headers.len() - from,
{
    if from < 0 || from >= headers.len() {
        true
    } else {
        one_line(headers[from].name) && one_line(headers[from].value) && headers_one_line(
            headers,
            from + 1,
        )
    }
}

/// The request can be written: no text that goes into its head breaks a
/// line.
pub open spec fn writable(request: RequestView, endpoint: EndpointView) -> bool {
    &&& one_line(request.method)
    &&& one_line(endpoint.host)
    &&& one_line(endpoint.path)
    &&& headers_one_line(request.headers, 0)
}

/// The header lines from index `from` on.
pub open spec fn header_lines(headers: Seq<HeaderView>, from: int) -> Seq<u8>
    decreases headers.len() - from,
{
    if from < 0 || from >= headers.len() {
        Seq::empty()
    } else {
        headers[from].name + word(": ") + headers[from].value + word("\r\n") + header_lines(
            headers,
            from + 1,
        )
    }
}

/// The host as the `Host` header names it: with its port unless that is
/// 80.
pub open spec fn host_text(endpoint: EndpointView) -> Seq<u8> {
    if endpoint.port == 80 {
        endpoint.host
    } else {
        endpoint.host + seq![COLON] + decimal_digits(endpoint.port as nat)
    }
}

/// The message that sends `request` to `endpoint`: the request line, the
/// `Host` header, the headers of the request, the length of the body, the
/// wish to close the connection, an empty line and the body.
pub open spec fn rendered(request: RequestView, endpoint: EndpointView) -> Seq<u8> {
    request.method + seq![SPACE] + endpoint.path + word(" HTTP/1.0\r\nHost: ") + host_text(
        endpoint,
    ) + word("\r\n") + header_lines(request.headers, 0) + word("Content-Length: ")
        + decimal_digits(request.body.len()) + word("\r\nConnection: close\r\n\r\n")
        + request.body
}

fn is_one_line(text: &[u8]) -> (r: bool)
    ensures
        r == one_line(text@),
{
    proof {
        lemma_stop_at(text@, 0, RETURN, NEWLINE);
    }
    scan_to(text, 0, RETURN, NEWLINE) == text.len()
}

fn are_one_line(headers: &Vec<Header>) -> (r: bool)
    ensures
        r == headers_one_line(views(headers@), 0),
{
    let mut k: usize = 0;
    while k < headers.len()
        invariant
            k <= headers.len(),
            headers_one_line(views(headers@), 0) == headers_one_line(views(headers@), k as int),
        decreases headers.len() - k,
    {
        assert(views(headers@)[k as int] == headers@[k as int]@);
        if !is_one_line(headers[k].name.as_slice()) || !is_one_line(headers[k].value.as_slice()) {
            return false;
        }
        k += 1;
    }
    true
}

/// Writes the message that sends `request` to `endpoint`; nothing where a
/// text of the head would break a line.
pub fn render(request: &Request, endpoint: &Endpoint) -> (r: Option<Vec<u8>>)
    ensures
        match r {
            Some(bytes) => writable(request@, endpoint@) && bytes@ == rendered(
                request@,
                endpoint@,
            ),
            None => !writable(request@, endpoint@),
        },
{
    if !is_one_line(request.method.as_slice()) || !is_one_line(endpoint.host.as_slice())
        || !is_one_line(endpoint.path.as_slice()) || !are_one_line(&request.headers) {
        return None;
    }
    let mut out: Vec<u8> = Vec::new();
    append(&mut out, request.method.as_slice());
    out.push(SPACE);
    append(&mut out, endpoint.path.as_slice());
    append(&mut out, " HTTP/1.0\r\nHost: ".as_bytes());
    append(&mut out, endpoint.host.as_slice());
    if endpoint.port != 80 {
        out.push(COLON);
        push_decimal(&mut out, endpoint.port as u64);
    }
    append(&mut out, "\r\n".as_bytes());
    let ghost head = out@;
    assert(head =~= request@.method + seq![SPACE] + endpoint@.path + word(" HTTP/1.0\r\nHost: ")
        + host_text(endpoint@) + word("\r\n"));
    let mut k: usize = 0;
    assert(out@ + header_lines(request@.headers, 0) =~= head + header_lines(request@.headers, 0));
    while k < request.headers.len()
        invariant
            k <= request.headers.len(),
            out@ + header_lines(request@.headers, k as int) == head + header_lines(
                request@.headers,
                0,
            ),
        decreases request.headers.len() - k,
    {
        let ghost before = out@;
        let ghost h = request@.headers[k as int];
        assert(h == request.headers@[k as int]@);
        append(&mut out, request.headers[k].name.as_slice());
        append(&mut out, ": ".as_bytes());
        append(&mut out, request.headers[k].value.as_slice());
        append(&mut out, "\r\n".as_bytes());
        assert(out@ + header_lines(request@.headers, k + 1) =~= before + (h.name + word(": ")
            + h.value + word("\r\n") + header_lines(request@.headers, k + 1)));
        k += 1;
    }
    assert(out@ =~= head + header_lines(request@.headers, 0)) by {
        assert(out@ + Seq::<u8>::empty() =~= out@);
    }
    append(&mut out, "Content-Length: ".as_bytes());
    push_decimal(&mut out, request.body.len() as u64);
    append(&mut out, "\r\nConnection: close\r\n\r\n".as_bytes());
    append(&mut out, request.body.as_slice());
    assert(out@ =~= rendered(request@, endpoint@));
    Some(out)
}

/// The status that a status line tells: the number behind the first space
/// of a line that starts with `HTTP/`, from 100 to 999.
pub open spec fn status_of(line: Seq<u8>) -> Option<u16> {
    let space = stop_at(line, 0, SPACE, SPACE);
    let end = stop_at(line, space + 1, SPACE, SPACE);
    if !occurs_at(line, word("HTTP/"), 0) || space >= line.len() {
        None
    } else {
        match parse_decimal_spec(line.subrange(space + 1, end)) {
            Some(n) => if 100 <= n <= 999 {
                Some(n as u16)
            } else {
                None
            },
            None => None,
        }
    }
}

/// The headers that the lines from index `from` on tell, up to the first
/// empty line or the end of the bytes, and the index at which the body
/// starts. Each line is `name: value`; a line ends before a line feed, and
/// a carriage return before that is no part of it.
pub open spec fn head_at(bytes: Seq<u8>, from: int) -> Option<(Seq<HeaderView>, int)>
    decreases bytes.len() - from,
{
    if from < 0 || from >= bytes.len() {
        Some((Seq::empty(), bytes.len() as int))
    } else {
        let end = stop_at(bytes, from, NEWLINE, NEWLINE);
        let line = without_return(bytes.subrange(from, end));
        let colon = stop_at(line, 0, COLON, COLON);
        let next = if end < bytes.len() {
            end + 1
        } else {
            end
        };
        if line.len() == 0 {
            Some((Seq::empty(), next))
        } else if colon >= line.len() || trimmed(line.subrange(0, colon)).len() == 0 || end
            >= bytes.len() {
            None
        } else {
            ahead(
                seq![
                    HeaderView {
                        name: trimmed(line.subrange(0, colon)),
                        value: trimmed(line.subrange(colon + 1, line.len() as int)),
                    },
                ],
                head_at(bytes, end + 1),
            )
        }
    }
}

/// The fields of a body: those of its JSON text, or the body itself as the
/// one field at the root where it is no JSON text.
pub open spec fn body_fields(body: Seq<u8>) -> Seq<LeafView> {
    match decoded(body) {
        Some(leaves) => leaves,
        None => seq![LeafView { path: Seq::empty(), value: body }],
    }
}

/// The response that `bytes` tell, which took `elapsed_ms` to come.
pub open spec fn response_of(bytes: Seq<u8>, elapsed_ms: u64) -> Option<ResponseView> {
    let end = stop_at(bytes, 0, NEWLINE, NEWLINE);
    if end >= bytes.len() {
        None
    } else {
        match status_of(without_return(bytes.subrange(0, end))) {
            Some(status) => match head_at(bytes, end + 1) {
                Some((headers, start)) => Some(
                    ResponseView {
                        status,
                        headers,
                        body: body_fields(bytes.subrange(start, bytes.len() as int)),
                        elapsed_ms,
                    },
                ),
                None => None,
            },
            None => None,
        }
    }
}

fn chop_return(line: &[u8]) -> (r: &[u8])
    ensures
        r@ == without_return(line@),
{
    if line.len() > 0 && line[line.len() - 1] == RETURN {
        slice_subrange(line, 0, line.len() - 1)
    } else {
        line
    }
}

fn read_status(line: &[u8]) -> (r: Option<u16>)
    ensures
        r == status_of(line@),
{
    let space: usize = scan_to(line, 0, SPACE, SPACE);
    if !matches_at(line, "HTTP/".as_bytes(), 0) || space >= line.len() {
        return None;
    }
    let end: usize = scan_to(line, space + 1, SPACE, SPACE);
    match parse_decimal(slice_subrange(line, space + 1, end)) {
        Some(n) => if 100 <= n && n <= 999 {
            Some(n as u16)
        } else {
            None
        },
        None => None,
    }
}

fn read_head(bytes: &[u8], from: usize) -> (r: Option<(Vec<Header>, usize)>)
    requires
        from <= bytes.len(),
    ensures
        match head_at(bytes@, from as int) {
            Some((headers, start)) => r matches Some(x) && views(x.0@) == headers && x.1 == start
                && start <= bytes.len(),
            None => r is None,
        },
{
    let mut out: Vec<Header> = Vec::new();
    let mut i: usize = from;
    proof {
        match head_at(bytes@, from as int) {
            Some((rest, end)) => {
                assert(views(out@) + rest =~= rest);
            },
            None => {},
        }
    }
    loop
        invariant
            from <= i <= bytes.len(),
            head_at(bytes@, from as int) == ahead(views(out@), head_at(bytes@, i as int)),
        decreases bytes.len() - i,
    {
        if i >= bytes.len() {
            assert(views(out@) + Seq::<HeaderView>::empty() =~= views(out@));
            return Some((out, bytes.len()));
        }
        let end: usize = scan_to(bytes, i, NEWLINE, NEWLINE);
        let line = chop_return(slice_subrange(bytes, i, end));
        let colon: usize = scan_to(line, 0, COLON, COLON);
        if line.len() == 0 {
            assert(views(out@) + Seq::<HeaderView>::empty() =~= views(out@));
            let next: usize = if end < bytes.len() {
                end + 1
            } else {
                end
            };
            return Some((out, next));
        }
        if colon >= line.len() {
            return None;
        }
        let name = trim(slice_subrange(line, 0, colon));
        if name.len() == 0 || end >= bytes.len() {
            return None;
        }
        let value = trim(slice_subrange(line, colon + 1, line.len()));
        let h = Header { name: to_vec(name), value: to_vec(value) };
        proof {
            lemma_views_push(out@, h);
            lemma_ahead_twice(views(out@), seq![h@], head_at(bytes@, end + 1));
            assert(views(out@).push(h@) =~= views(out@) + seq![h@]);
        }
        out.push(h);
        i = end + 1;
    }
}

fn read_body(body: &[u8]) -> (r: Vec<Leaf>)
    ensures
        views(r@) == body_fields(body@),
{
    match decode(body) {
        Some(leaves) => leaves,
        None => {
            let leaf = Leaf { path: Vec::new(), value: to_vec(body) };
            let mut out: Vec<Leaf> = Vec::new();
            out.push(leaf);
            assert(views(out@) =~= seq![LeafView { path: Seq::empty(), value: body@ }]) by {
                assert(out@[0]@.path =~= Seq::empty());
            }
            out
        },
    }
}

/// Reads the response that `bytes` tell; nothing where they tell none.
pub fn read_response(bytes: &[u8], elapsed_ms: u64) -> (r: Option<Response>)
    ensures
        match response_of(bytes@, elapsed_ms) {
            Some(response) => r matches Some(x) && x@ == response,
            None => r is None,
        },
{
    let end: usize = scan_to(bytes, 0, NEWLINE, NEWLINE);
    if end >= bytes.len() {
        return None;
    }
    let status: u16 = match read_status(chop_return(slice_subrange(bytes, 0, end))) {
        Some(status) => status,
        None => {
            return None;
        },
    };
    match read_head(bytes, end + 1) {
        Some((headers, start)) => Some(
            Response {
                status,
                headers,
                body: read_body(slice_subrange(bytes, start, bytes.len())),
                elapsed_ms,
            },
        ),
        None => None,
    }
}

} // verus!

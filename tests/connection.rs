use trie_http::reader::{ConnError, Reader, Request, Step, Wake};
use trie_http::router::Router;

const DEFAULT: u32 = 0;
const PLAIN: u32 = 1;
const STREAM: u32 = 2;

#[derive(Debug, PartialEq)]
enum Event {
    Handler(u32, String, String, Vec<(Vec<u8>, Vec<u8>)>),
    Body(Vec<u8>, bool),
}

fn router() -> Router<u32> {
    let mut r = Router::new();
    r.add("GET", "*", DEFAULT);
    r.add("GET", "/hello", PLAIN);
    r.add("POST", "/echo", STREAM);
    r.add("POST", "/upload/:name", STREAM);
    r
}

/// Feeds the fragments one by one and performs each step's action, the way
/// the connection task does; handlers complete at once.
fn drive(fragments: &[&[u8]]) -> (Vec<Event>, Result<(), ConnError>) {
    let r = router();
    let mut reader = Reader::new();
    let mut req = Request::new();
    let mut events = Vec::new();
    for f in fragments {
        reader.received(f);
        loop {
            match reader.step(&mut req) {
                Err(e) => return (events, Err(e)),
                Ok(Step::Read) => break,
                Ok(Step::Again) => {}
                Ok(Step::Dispatch) => {
                    let (h, ps) = r.find(&req.method, &req.path).unwrap();
                    req.params = ps;
                    events.push(Event::Handler(*h, req.method.clone(), req.path.clone(), req.params.clone()));
                    if *h == STREAM {
                        req.has_function = true;
                    }
                    reader.handler_done(&mut req);
                }
                Ok(Step::Deliver) => {
                    events.push(Event::Body(req.data.clone(), req.is_last));
                    reader.handler_done(&mut req);
                }
            }
        }
    }
    (events, Ok(()))
}

fn hello() -> Event {
    Event::Handler(PLAIN, "GET".to_string(), "/hello".to_string(), vec![])
}

fn echo() -> Event {
    Event::Handler(STREAM, "POST".to_string(), "/echo".to_string(), vec![])
}

#[test]
fn echo_body_arrives_once_and_last() {
    let (ev, end) = drive(&[b"POST /echo HTTP/1.1\r\nContent-Length: 3\r\n\r\nabc"]);
    assert_eq!(end, Ok(()));
    assert_eq!(ev, vec![echo(), Event::Body(b"abc".to_vec(), true)]);
}

#[test]
fn chunked_body_equals_content_length_body() {
    let (chunked, e1) = drive(&[b"POST /echo HTTP/1.1\r\nTransfer-Encoding: chunked\r\n\r\n4\r\nwxyz\r\n0\r\n\r\n"]);
    let (plain, e2) = drive(&[b"POST /echo HTTP/1.1\r\nContent-Length: 4\r\n\r\nwxyz"]);
    assert_eq!((e1, e2), (Ok(()), Ok(())));
    assert_eq!(chunked, vec![echo(), Event::Body(b"wxyz".to_vec(), false), Event::Body(b"wxyz".to_vec(), true)]);
    assert_eq!(plain, vec![echo(), Event::Body(b"wxyz".to_vec(), true)]);
    assert_eq!(chunked.last(), plain.last());
}

#[test]
fn keep_alive_serves_requests_back_to_back() {
    let (ev, end) = drive(&[b"GET /hello HTTP/1.1\r\n\r\nGET /hello HTTP/1.1\r\nHost: a\r\n\r\n"]);
    assert_eq!(end, Ok(()));
    assert_eq!(ev, vec![hello(), hello()]);
}

#[test]
fn fragmentation_does_not_change_requests() {
    let stream: &[u8] = b"POST /upload/f1 HTTP/1.1\r\nTransfer-Encoding: gzip, chunked\r\n\r\n3\r\nabc\r\n2;x=1\r\nde\r\n0\r\nT: 1\r\n\r\nGET /hello HTTP/1.1\r\nContent-Length: 2\r\n\r\nhi";
    let (whole, e1) = drive(&[stream]);
    let bytes: Vec<&[u8]> = stream.chunks(1).collect();
    let (split, e2) = drive(&bytes);
    let threes: Vec<&[u8]> = stream.chunks(3).collect();
    let (split3, e3) = drive(&threes);
    assert_eq!((e1, e2, e3), (Ok(()), Ok(()), Ok(())));
    assert_eq!(whole, split);
    assert_eq!(whole, split3);
    let up = Event::Handler(
        STREAM,
        "POST".to_string(),
        "/upload/f1".to_string(),
        vec![(b"name".to_vec(), b"f1".to_vec())],
    );
    assert_eq!(
        whole,
        vec![up, Event::Body(b"abc".to_vec(), false), Event::Body(b"abcde".to_vec(), false), Event::Body(b"abcde".to_vec(), true), hello()]
    );
}

#[test]
fn headers_are_lower_cased_and_kept_in_order() {
    let mut reader = Reader::new();
    let mut req = Request::new();
    reader.received(b"GET /a?q=1 HTTP/1.1\r\nX-One: A\r\nHOST: h\r\n\r\n");
    assert_eq!(reader.step(&mut req), Ok(Step::Dispatch));
    assert_eq!(req.path, "/a");
    assert_eq!(req.version, 1);
    assert_eq!(req.headers, vec![(b"x-one".to_vec(), b"A".to_vec()), (b"host".to_vec(), b"h".to_vec())]);
    assert_eq!(reader.step(&mut req), Ok(Step::Again));
    assert_eq!(reader.step(&mut req), Ok(Step::Read));
}

#[test]
fn body_without_continuation_is_skipped() {
    let (ev, end) = drive(&[b"GET /hello HTTP/1.1\r\nContent-Length: 5\r\n\r\nhel", b"loGET /hello HTTP/1.1\r\n\r\n"]);
    assert_eq!(end, Ok(()));
    assert_eq!(ev, vec![hello(), hello()]);
}

#[test]
fn partial_head_waits_for_more() {
    let mut reader = Reader::new();
    let mut req = Request::new();
    reader.received(b"GET /hel");
    assert_eq!(reader.step(&mut req), Ok(Step::Read));
    assert_eq!(reader.buffer, b"GET /hel".to_vec());
}

#[test]
fn malformed_input_is_fatal() {
    assert_eq!(drive(&[b"GET /hello HTTP/1.1\r\nContent-Length: 1x\r\n\r\n"]).1, Err(ConnError::BadLength));
    assert_eq!(drive(&[b"\x01\x02 nonsense\r\n\r\n"]).1, Err(ConnError::Syntax));
    assert_eq!(drive(&[b"GET /a b HTTP/1.1\r\n\r\n"]).1, Err(ConnError::Syntax));
    let (_, e) = drive(&[b"POST /echo HTTP/1.1\r\nTransfer-Encoding: chunked\r\n\r\nq\r\n"]);
    assert!(matches!(e, Err(ConnError::BadChunk(_))));
}

#[test]
fn plus_sign_and_later_headers() {
    let (ev, end) = drive(&[b"POST /echo HTTP/1.1\r\nContent-Length: +2\r\n\r\nok"]);
    assert_eq!(end, Err(ConnError::BadLength));
    assert!(ev.is_empty());
    let (ev2, end2) = drive(&[b"POST /echo HTTP/1.1\r\nTransfer-Encoding: chunked\r\nContent-Length: zz\r\n\r\n0\r\n\r\n"]);
    assert_eq!(end2, Ok(()));
    assert_eq!(ev2, vec![echo(), Event::Body(vec![], true)]);
}

#[test]
fn idle_timeout_ends_a_request_in_flight() {
    let mut reader = Reader::new();
    let mut req = Request::new();
    assert_eq!(reader.after_read(Some(&b"GET /hel"[..]), false), Wake::ResetTimer);
    assert_eq!(reader.step(&mut req), Ok(Step::Read));
    assert_eq!(reader.after_read(None, false), Wake::Suspend);
    assert_eq!(reader.after_read(None, true), Wake::Shutdown);
    assert!(req.method.is_empty());
    assert_eq!(reader.buffer, b"GET /hel".to_vec());
}

#[test]
fn peer_close_finishes() {
    let mut reader = Reader::new();
    reader.received(b"GET");
    assert_eq!(reader.after_read(Some(&[][..]), false), Wake::Finish);
    assert_eq!(reader.buffer, b"GET".to_vec());
}

//! The per-connection state machine: what to do with the bytes received so
//! far. The caller owns the socket, the timer and the handler futures; it
//! feeds bytes in, calls `step`, and performs the action that comes back.
use vstd::prelude::*;

use crate::bytes::{copy_range, drop_front, same_bytes, take_front};
use crate::chunk::{decode, frame_of_four, last_frame, lemma_decode_extend, lemma_four_then_last, lemma_frame_in_buffer, parse, ChunkError, Decoded, ParseStatus};
use crate::router::pairs_view;

verus! {

/// How many header lines a request head may carry.
pub const MAX_HEADERS: usize = 50;

/// The initial capacity of a connection buffer, and the amount it grows by.
pub const BUFFER_STEP: usize = 1024;

/// A request head as the tokenizer hands it over.
pub struct Head {
    /// Bytes of the buffer that the head takes.
    pub consumed: usize,
    pub method: Option<String>,
    pub path: Option<String>,
    pub version: Option<u8>,
    /// Names and values, in order, as they stand in the head.
    pub headers: Vec<(Vec<u8>, Vec<u8>)>,
}

/// What the tokenizer found at the front of the buffer.
pub enum HeadStatus {
    Partial,
    Complete(Head),
    Invalid,
}

/// The same, as mathematical values.
pub enum HeadSpec {
    Partial,
    /// Consumed, method, path, version, headers.
    Complete(int, Option<Seq<char>>, Option<Seq<char>>, Option<u8>, Seq<(Seq<u8>, Seq<u8>)>),
    Invalid,
}

pub open spec fn opt_str(o: Option<String>) -> Option<Seq<char>> {
    match o {
        Some(s) => Some(s@),
        None => None,
    }
}

impl HeadStatus {
    pub open spec fn spec_view(&self) -> HeadSpec {
        match self {
            HeadStatus::Partial => HeadSpec::Partial,
            HeadStatus::Invalid => HeadSpec::Invalid,
            HeadStatus::Complete(h) => HeadSpec::Complete(
                h.consumed as int,
                opt_str(h.method),
                opt_str(h.path),
                h.version,
                pairs_view(h.headers@),
            ),
        }
    }
}

/// What the HTTP/1.x head tokenizer makes of a buffer, with room for at most
/// `max_headers` header lines.
pub uninterp spec fn tokenized(buf: Seq<u8>, max_headers: nat) -> HeadSpec;

/// Relies on `httparse::Request::parse`: the head at the front of `buf`, or
/// that it is incomplete, or malformed; a function of the bytes and of the
/// header capacity.
#[verifier::external_body]
fn tokenize(buf: &[u8], max_headers: usize) -> (r: HeadStatus)
    ensures
        r.spec_view() == tokenized(buf@, max_headers as nat),
{
    let mut hs = vec![httparse::EMPTY_HEADER; max_headers];
    let mut req = httparse::Request::new(&mut hs);
    match req.parse(buf) {
        Ok(httparse::Status::Partial) => HeadStatus::Partial,
        Ok(httparse::Status::Complete(n)) => HeadStatus::Complete(Head {
            consumed: n,
            method: req.method.map(|m| m.to_string()),
            path: req.path.map(|p| p.to_string()),
            version: req.version,
            headers: req.headers.iter().map(|h| (h.name.as_bytes().to_vec(), h.value.to_vec())).collect(),
        }),
        Err(_) => HeadStatus::Invalid,
    }
}

/// The path component of a request target, where the target parses as a URI.
pub uninterp spec fn uri_path(target: Seq<char>) -> Option<Seq<char>>;

/// Relies on `http::Uri::from_str` and `http::Uri::path`: the path of the
/// parsed target, or `None` where it does not parse.
#[verifier::external_body]
fn parse_uri_path(target: &str) -> (r: Option<String>)
    ensures
        opt_str(r) == uri_path(target@),
{
    target.parse::<http::Uri>().ok().map(|u| u.path().to_string())
}

/// ASCII lower case of one byte.
pub open spec fn lower(b: u8) -> u8 {
    if 65 <= b <= 90 {
        (b + 32) as u8
    } else {
        b
    }
}

pub open spec fn lower_seq(s: Seq<u8>) -> Seq<u8> {
    s.map_values(|b: u8| lower(b))
}

pub open spec fn transfer_encoding() -> Seq<u8> {
    seq![116u8, 114, 97, 110, 115, 102, 101, 114, 45, 101, 110, 99, 111, 100, 105, 110, 103]
}

pub open spec fn content_length() -> Seq<u8> {
    seq![99u8, 111, 110, 116, 101, 110, 116, 45, 108, 101, 110, 103, 116, 104]
}

pub open spec fn chunked() -> Seq<u8> {
    seq![99u8, 104, 117, 110, 107, 101, 100]
}

/// A value that ends in `chunked`.
pub open spec fn ends_chunked(v: Seq<u8>) -> bool {
    v.len() >= 7 && v.subrange(v.len() - 7, v.len() as int) == chunked()
}

pub open spec fn is_digit(b: u8) -> bool {
    48 <= b <= 57
}

/// The number that a string of decimal digits writes.
pub open spec fn dec_num(s: Seq<u8>) -> nat
    decreases s.len(),
{
    if s.len() == 0 {
        0
    } else {
        dec_num(s.drop_last()) * 10 + (s.last() - 48) as nat
    }
}

/// A Content-Length value: one or more decimal digits, whose number fits a
/// `usize`.
pub open spec fn length_value(v: Seq<u8>) -> Option<nat> {
    if v.len() > 0 && all_digits(v) && dec_num(v) <= usize::MAX {
        Some(dec_num(v))
    } else {
        None
    }
}

pub open spec fn all_digits(s: Seq<u8>) -> bool {
    forall|i: int| 0 <= i < s.len() ==> is_digit(#[trigger] s[i])
}

/// How the body after a head is framed, from its headers in order (names
/// already lower case): chunked, and the Content-Length (0 when absent);
/// `None` for a malformed Content-Length met before any chunked coding.
pub open spec fn framing(hs: Seq<(Seq<u8>, Seq<u8>)>) -> Option<(bool, nat)>
    decreases hs.len(),
{
    if hs.len() == 0 {
        Some((false, 0))
    } else {
        match framing(hs.drop_last()) {
            None => None,
            Some((is_chunked, n)) => {
                let (name, value) = hs.last();
                if is_chunked {
                    Some((true, n))
                } else if name == transfer_encoding() {
                    Some((ends_chunked(value), n))
                } else if name == content_length() {
                    match length_value(value) {
                        Some(v) => Some((false, v)),
                        None => None,
                    }
                } else {
                    Some((false, n))
                }
            },
        }
    }
}

/// Headers with their names in lower case.
pub open spec fn lowered(hs: Seq<(Seq<u8>, Seq<u8>)>) -> Seq<(Seq<u8>, Seq<u8>)> {
    hs.map_values(|h: (Seq<u8>, Seq<u8>)| (lower_seq(h.0), h.1))
}

/// What the connection is reading.
#[derive(PartialEq, Eq, Structural, Debug, Clone, Copy)]
pub enum ReadState {
    /// A body of `body_size` bytes.
    Body,
    /// A chunked body.
    Chunk,
    /// The next request head.
    Request,
}

/// A fatal condition of one connection.
#[derive(PartialEq, Eq, Structural, Debug, Clone, Copy)]
pub enum ConnError {
    /// The head cannot be parsed.
    Syntax,
    /// A Content-Length value is not a number.
    BadLength,
    /// The request target is not a URI.
    BadPath,
    /// A chunk frame is malformed.
    BadChunk(ChunkError),
}

/// What the caller does next.
#[derive(PartialEq, Eq, Structural, Debug, Clone, Copy)]
pub enum Step {
    /// Read more bytes from the socket.
    Read,
    /// Step again at once: the state moved without needing bytes.
    Again,
    /// A new head was parsed into the request: route it and run the handler.
    Dispatch,
    /// Body bytes are in the request: run the streaming continuation.
    Deliver,
}

/// What the caller does after a read from the socket.
#[derive(PartialEq, Eq, Structural, Debug, Clone, Copy)]
pub enum Wake {
    /// The peer closed: the connection ends with the current request.
    Finish,
    /// Bytes arrived: restart the keep-alive timer and step again.
    ResetTimer,
    /// Idle past the keep-alive deadline: shut the write side and end.
    Shutdown,
    /// Nothing to read yet: wait for bytes or for the timer.
    Suspend,
}

/// One request, reused across the requests of a connection.
pub struct Request {
    pub method: String,
    /// The path of the request target.
    pub path: String,
    pub version: u8,
    /// Names in lower case, values as sent.
    pub headers: Vec<(Vec<u8>, Vec<u8>)>,
    /// Route parameters, in path order.
    pub params: Vec<(Vec<u8>, Vec<u8>)>,
    /// Body bytes for the streaming continuation.
    pub data: Vec<u8>,
    /// Whether `data` ends the body.
    pub is_last: bool,
    /// Set by a handler that installed a streaming continuation.
    pub has_function: bool,
}

impl Request {
    /// An empty request.
    pub fn new() -> (r: Request)
        ensures
            r.method@.len() == 0,
            r.path@.len() == 0,
            r.headers@.len() == 0,
            r.params@.len() == 0,
            r.data@.len() == 0,
            !r.is_last,
            !r.has_function,
    {
        Request {
            method: String::new(),
            path: String::new(),
            version: 0,
            headers: Vec::new(),
            params: Vec::new(),
            data: Vec::new(),
            is_last: false,
            has_function: false,
        }
    }
}

/// The parsing state of one connection.
pub struct Reader {
    /// Bytes received and not yet consumed.
    pub buffer: Vec<u8>,
    /// The length of the pending body in the `Body` state.
    pub body_size: usize,
    pub read_state: ReadState,
    /// Whether a streaming continuation is registered for this request.
    pub streaming: bool,
}

impl Reader {
    /// A connection that waits for its first head.
    pub fn new() -> (r: Reader)
        ensures
            r.buffer@.len() == 0,
            r.body_size == 0,
            r.read_state == ReadState::Request,
            !r.streaming,
    {
        Reader {
            buffer: Vec::with_capacity(BUFFER_STEP),
            body_size: 0,
            read_state: ReadState::Request,
            streaming: false,
        }
    }

    /// Appends bytes read from the socket.
    pub fn received(&mut self, data: &[u8])
        ensures
            final(self).buffer@ == old(self).buffer@ + data@,
            final(self).body_size == old(self).body_size,
            final(self).read_state == old(self).read_state,
            final(self).streaming == old(self).streaming,
    {
        self.buffer.extend_from_slice(data);
    }

    /// Takes the result of one non-blocking read: `None` when the read would
    /// block, else the bytes read (none when the peer closed); and whether the
    /// keep-alive deadline has passed.
    pub fn after_read(&mut self, read: Option<&[u8]>, timer_elapsed: bool) -> (r: Wake)
        ensures
            final(self).body_size == old(self).body_size,
            final(self).read_state == old(self).read_state,
            final(self).streaming == old(self).streaming,
            match read {
                Some(d) => if d@.len() == 0 {
                    r == Wake::Finish && final(self).buffer@ == old(self).buffer@
                } else {
                    r == Wake::ResetTimer && final(self).buffer@ == old(self).buffer@ + d@
                },
                None => final(self).buffer@ == old(self).buffer@ && r == (if timer_elapsed {
                    Wake::Shutdown
                } else {
                    Wake::Suspend
                }),
            },
    {
        match read {
            Some(d) => {
                if d.len() == 0 {
                    Wake::Finish
                } else {
                    self.received(d);
                    Wake::ResetTimer
                }
            },
            None => if timer_elapsed {
                Wake::Shutdown
            } else {
                Wake::Suspend
            },
        }
    }

    /// A handler finished with `req`: a continuation that it installed is
    /// taken over for the rest of the body.
    pub fn handler_done(&mut self, req: &mut Request)
        ensures
            final(self).streaming == (old(self).streaming || old(req).has_function),
            !final(req).has_function,
            final(self).buffer == old(self).buffer,
            final(self).body_size == old(self).body_size,
            final(self).read_state == old(self).read_state,
            final(req).data == old(req).data,
            final(req).is_last == old(req).is_last,
            final(req).headers == old(req).headers,
            final(req).method == old(req).method,
            final(req).path == old(req).path,
    {
        if req.has_function {
            req.has_function = false;
            self.streaming = true;
        }
    }
}

/// The parts of a request that a body step leaves alone.
pub open spec fn same_head(a: Request, b: Request) -> bool {
    &&& b.method == a.method
    &&& b.path == a.path
    &&& b.version == a.version
    &&& b.headers == a.headers
    &&& b.params == a.params
    &&& b.has_function == a.has_function
}

/// The reader is as it was.
pub open spec fn same_reader(a: Reader, b: Reader) -> bool {
    &&& b.buffer@ == a.buffer@
    &&& b.body_size == a.body_size
    &&& b.read_state == a.read_state
    &&& b.streaming == a.streaming
}

/// One step of the connection from reader `a` and request `q` to reader `b`
/// and request `q2`, with outcome `r`.
pub open spec fn stepped(a: Reader, q: Request, b: Reader, q2: Request, r: Result<Step, ConnError>) -> bool {
    let buf = a.buffer@;
    match a.read_state {
        ReadState::Body => if buf.len() >= a.body_size {
            &&& b.read_state == ReadState::Request
            &&& b.body_size == a.body_size
            &&& b.streaming == a.streaming
            &&& b.buffer@ == buf.subrange(a.body_size as int, buf.len() as int)
            &&& if a.streaming {
                &&& r == Ok::<Step, ConnError>(Step::Deliver)
                &&& q2.data@ == buf.subrange(0, a.body_size as int)
                &&& q2.is_last
                &&& same_head(q, q2)
            } else {
                r == Ok::<Step, ConnError>(Step::Again) && q2 == q
            }
        } else {
            r == Ok::<Step, ConnError>(Step::Read) && same_reader(a, b) && q2 == q
        },
        ReadState::Chunk => if buf.len() == 0 {
            r == Ok::<Step, ConnError>(Step::Read) && same_reader(a, b) && q2 == q
        } else {
            match decode(buf) {
                Decoded::NeedMore => r == Ok::<Step, ConnError>(Step::Read) && same_reader(a, b) && q2 == q,
                Decoded::Invalid(e) => r == Err::<Step, ConnError>(ConnError::BadChunk(e)),
                Decoded::Frame(payload, n, last) => {
                    &&& b.buffer@ == buf.subrange(n, buf.len() as int)
                    &&& b.read_state == (if last { ReadState::Request } else { ReadState::Chunk })
                    &&& b.body_size == a.body_size
                    &&& b.streaming == a.streaming
                    &&& if a.streaming {
                        &&& r == Ok::<Step, ConnError>(Step::Deliver)
                        &&& q2.data@ == q.data@ + payload
                        &&& q2.is_last == (q.is_last || last)
                        &&& same_head(q, q2)
                    } else {
                        &&& r == Ok::<Step, ConnError>(Step::Again)
                        &&& q2.data == q.data
                        &&& q2.is_last == (q.is_last || last)
                        &&& same_head(q, q2)
                    }
                },
            }
        },
        ReadState::Request => match tokenized(buf, MAX_HEADERS as nat) {
            HeadSpec::Partial => r == Ok::<Step, ConnError>(Step::Read) && same_reader(a, b) && q2 == q,
            HeadSpec::Invalid => r == Err::<Step, ConnError>(ConnError::Syntax),
            HeadSpec::Complete(n, m, p, v, hs) => if n > buf.len() {
                r == Err::<Step, ConnError>(ConnError::Syntax)
            } else {
                match framing(lowered(hs)) {
                    None => r == Err::<Step, ConnError>(ConnError::BadLength),
                    Some((is_chunked, size)) => if m is None || p is None || v is None {
                        r == Err::<Step, ConnError>(ConnError::Syntax)
                    } else {
                        match uri_path(p->Some_0) {
                            None => r == Err::<Step, ConnError>(ConnError::BadPath),
                            Some(path) => {
                                &&& r == Ok::<Step, ConnError>(Step::Dispatch)
                                &&& b.buffer@ == buf.subrange(n, buf.len() as int)
                                &&& b.read_state == (if is_chunked { ReadState::Chunk } else { ReadState::Body })
                                &&& b.body_size as nat == size
                                &&& !b.streaming
                                &&& q2.method@ == m->Some_0
                                &&& q2.path@ == path
                                &&& q2.version == v->Some_0
                                &&& pairs_view(q2.headers@) == lowered(hs)
                                &&& q2.params@.len() == 0
                                &&& q2.data@.len() == 0
                                &&& !q2.is_last
                                &&& !q2.has_function
                            },
                        }
                    },
                }
            },
        },
    }
}

/// ASCII lower case of a byte string.
pub fn lower_bytes(s: &[u8]) -> (r: Vec<u8>)
    ensures
        r@ == lower_seq(s@),
{
    let mut r: Vec<u8> = Vec::new();
    let mut i: usize = 0;
    while i < s.len()
        invariant
            0 <= i <= s@.len(),
            r@ == lower_seq(s@.subrange(0, i as int)),
        decreases s@.len() - i,
    {
        let b = s[i];
        let l = if 65 <= b && b <= 90 {
            b + 32
        } else {
            b
        };
        r.push(l);
        i += 1;
        proof {
            assert(r@ =~= lower_seq(s@.subrange(0, i as int)));
        }
    }
    proof {
        assert(s@.subrange(0, s@.len() as int) =~= s@);
    }
    r
}

/// The number a Content-Length value gives.
pub fn parse_length(v: &[u8]) -> (r: Option<usize>)
    ensures
        match r {
            Some(n) => length_value(v@) == Some(n as nat),
            None => length_value(v@) is None,
        },
{
    if v.len() == 0 {
        return None;
    }
    let mut i: usize = 0;
    let mut val: usize = 0;
    let mut over = false;
    while i < v.len()
        invariant
            0 <= i <= v@.len(),
            forall|j: int| 0 <= j < i ==> is_digit(#[trigger] v@[j]),
            !over ==> val as nat == dec_num(v@.subrange(0, i as int)),
            over ==> dec_num(v@.subrange(0, i as int)) > usize::MAX,
        decreases v@.len() - i,
    {
        let b = v[i];
        if !(48 <= b && b <= 57) {
            proof {
                assert(!all_digits(v@));
            }
            return None;
        }
        let d = (b - 48) as usize;
        proof {
            assert(v@.subrange(0, i + 1).drop_last() =~= v@.subrange(0, i as int));
            assert(v@.subrange(0, i + 1).last() == b);
        }
        if !over {
            if val > (usize::MAX - d) / 10 {
                over = true;
            } else {
                val = val * 10 + d;
            }
        }
        i += 1;
    }
    proof {
        assert(v@.subrange(0, i as int) =~= v@);
    }
    if over {
        None
    } else {
        Some(val)
    }
}

/// Whether a header value ends in `chunked`.
pub fn ends_with_chunked(v: &[u8]) -> (r: bool)
    ensures
        r == ends_chunked(v@),
{
    if v.len() < 7 {
        return false;
    }
    let word: [u8; 7] = [99u8, 104, 117, 110, 107, 101, 100];
    proof {
        assert(word@ =~= chunked());
    }
    same_bytes(&v[v.len() - 7..v.len()], &word)
}

/// A malformed prefix of the headers leaves the whole malformed.
pub proof fn lemma_framing_none(hs: Seq<(Seq<u8>, Seq<u8>)>, i: int)
    requires
        0 <= i <= hs.len(),
        framing(hs.subrange(0, i)) is None,
    ensures
        framing(hs) is None,
    decreases hs.len(),
{
    if hs.len() > i {
        assert(hs.drop_last().subrange(0, i) =~= hs.subrange(0, i));
        lemma_framing_none(hs.drop_last(), i);
    } else {
        assert(hs.subrange(0, i) =~= hs);
    }
}

impl Reader {
    /// One step of the connection: decodes what the buffer holds in the
    /// current read state and says what the caller does next.
    pub fn step(&mut self, req: &mut Request) -> (r: Result<Step, ConnError>)
        ensures
            stepped(*old(self), *old(req), *final(self), *final(req), r),
    {
        match self.read_state {
            ReadState::Body => {
                if self.buffer.len() >= self.body_size {
                    self.read_state = ReadState::Request;
                    if self.streaming {
                        req.data = take_front(&mut self.buffer, self.body_size);
                        req.is_last = true;
                        Ok(Step::Deliver)
                    } else {
                        drop_front(&mut self.buffer, self.body_size);
                        Ok(Step::Again)
                    }
                } else {
                    Ok(Step::Read)
                }
            },
            ReadState::Chunk => {
                if self.buffer.len() == 0 {
                    return Ok(Step::Read);
                }
                match parse(&mut self.buffer) {
                    Err(e) => Err(ConnError::BadChunk(e)),
                    Ok(ParseStatus::NotEnoughData) => Ok(Step::Read),
                    Ok(ParseStatus::Chunk(last, payload)) => {
                        if last {
                            req.is_last = true;
                            self.read_state = ReadState::Request;
                        }
                        if self.streaming {
                            let mut payload = payload;
                            req.data.append(&mut payload);
                            Ok(Step::Deliver)
                        } else {
                            Ok(Step::Again)
                        }
                    },
                }
            },
            ReadState::Request => self.start_request(req),
        }
    }

    /// Parses the head at the front of the buffer into `req`.
    fn start_request(&mut self, req: &mut Request) -> (r: Result<Step, ConnError>)
        requires
            old(self).read_state == ReadState::Request,
        ensures
            stepped(*old(self), *old(req), *final(self), *final(req), r),
    {
        let ghost start = *self;
        let head = match tokenize(self.buffer.as_slice(), MAX_HEADERS) {
            HeadStatus::Partial => return Ok(Step::Read),
            HeadStatus::Invalid => return Err(ConnError::Syntax),
            HeadStatus::Complete(h) => h,
        };
        if head.consumed > self.buffer.len() {
            return Err(ConnError::Syntax);
        }
        let te: [u8; 17] = [116u8, 114, 97, 110, 115, 102, 101, 114, 45, 101, 110, 99, 111, 100, 105, 110, 103];
        let cl: [u8; 14] = [99u8, 111, 110, 116, 101, 110, 116, 45, 108, 101, 110, 103, 116, 104];
        proof {
            assert(te@ =~= transfer_encoding());
            assert(cl@ =~= content_length());
        }
        let ghost hs = pairs_view(head.headers@);
        let ghost low = lowered(hs);
        let mut is_chunked = false;
        let mut size: usize = 0;
        let mut headers: Vec<(Vec<u8>, Vec<u8>)> = Vec::new();
        let mut i: usize = 0;
        proof {
            assert(low.take(0) =~= Seq::<(Seq<u8>, Seq<u8>)>::empty());
            assert(pairs_view(headers@) =~= low.take(0));
        }
        while i < head.headers.len()
            invariant
                *self == start,
                start == *old(self),
                start.read_state == ReadState::Request,
                *req == *old(req),
                tokenized(start.buffer@, MAX_HEADERS as nat) == HeadStatus::Complete(head).spec_view(),
                head.consumed <= start.buffer@.len(),
                hs == pairs_view(head.headers@),
                low == lowered(hs),
                te@ == transfer_encoding(),
                cl@ == content_length(),
                0 <= i <= hs.len(),
                framing(low.take(i as int)) == Some((is_chunked, size as nat)),
                pairs_view(headers@) == low.take(i as int),
            decreases hs.len() - i,
        {
            let name = lower_bytes(head.headers[i].0.as_slice());
            let value = copy_range(head.headers[i].1.as_slice(), 0, head.headers[i].1.len());
            proof {
                assert(hs[i as int] == (head.headers@[i as int].0@, head.headers@[i as int].1@));
                assert(low[i as int] == (name@, value@));
                assert(low.take(i + 1).drop_last() =~= low.take(i as int));
                assert(low.take(i + 1).last() == (name@, value@));
            }
            if !is_chunked {
                if same_bytes(name.as_slice(), &te) {
                    if ends_with_chunked(value.as_slice()) {
                        is_chunked = true;
                    }
                } else if same_bytes(name.as_slice(), &cl) {
                    match parse_length(value.as_slice()) {
                        Some(n) => size = n,
                        None => {
                            proof {
                                lemma_framing_none(low, i + 1);
                            }
                            return Err(ConnError::BadLength);
                        },
                    }
                }
            }
            let ghost before = headers@;
            headers.push((name, value));
            proof {
                assert(pairs_view(headers@) =~= pairs_view(before).push((name@, value@)));
                assert(low.take(i + 1) =~= low.take(i as int).push((name@, value@)));
            }
            i += 1;
        }
        proof {
            assert(low.take(hs.len() as int) =~= low);
        }
        let method = match head.method {
            Some(m) => m,
            None => return Err(ConnError::Syntax),
        };
        let target = match head.path {
            Some(p) => p,
            None => return Err(ConnError::Syntax),
        };
        let version = match head.version {
            Some(v) => v,
            None => return Err(ConnError::Syntax),
        };
        let path = match parse_uri_path(target.as_str()) {
            Some(p) => p,
            None => return Err(ConnError::BadPath),
        };
        self.body_size = size;
        self.read_state = if is_chunked {
            ReadState::Chunk
        } else {
            ReadState::Body
        };
        self.streaming = false;
        drop_front(&mut self.buffer, head.consumed);
        req.method = method;
        req.path = path;
        req.version = version;
        req.headers = headers;
        req.params = Vec::new();
        req.data = Vec::new();
        req.is_last = false;
        req.has_function = false;
        Ok(Step::Dispatch)
    }
}

/// While a body is being read, bytes that arrive after a step could already
/// act do not change that step: the same outcome, the same body bytes and
/// end mark, and the extra bytes wait in the buffer. So a body (plain or
/// chunked) is delivered the same however the stream is cut into reads.
pub proof fn law_body_step_ignores_later_bytes(
    a: Reader,
    q: Request,
    b: Reader,
    q2: Request,
    r: Result<Step, ConnError>,
    a2: Reader,
    b2: Reader,
    q3: Request,
    r2: Result<Step, ConnError>,
    t: Seq<u8>,
)
    requires
        a.read_state != ReadState::Request,
        stepped(a, q, b, q2, r),
        r != Ok::<Step, ConnError>(Step::Read),
        a2.read_state == a.read_state,
        a2.body_size == a.body_size,
        a2.streaming == a.streaming,
        a2.buffer@ == a.buffer@ + t,
        stepped(a2, q, b2, q3, r2),
    ensures
        r2 == r,
        r is Ok ==> b2.buffer@ == b.buffer@ + t && b2.read_state == b.read_state && q3.data@ == q2.data@
            && q3.is_last == q2.is_last,
{
    let buf = a.buffer@;
    let buf2 = a2.buffer@;
    match a.read_state {
        ReadState::Body => {
            let n = a.body_size as int;
            assert(buf2.subrange(0, n) =~= buf.subrange(0, n));
            assert(buf2.subrange(n, buf2.len() as int) =~= buf.subrange(n, buf.len() as int) + t);
        },
        ReadState::Chunk => {
            lemma_decode_extend(buf, t);
            lemma_frame_in_buffer(buf);
            match decode(buf) {
                Decoded::Frame(payload, n, last) => {
                    assert(buf2.subrange(n, buf2.len() as int) =~= buf.subrange(n, buf.len() as int) + t);
                },
                _ => {},
            }
        },
        ReadState::Request => {},
    }
}

/// Four body bytes sent as one chunk and then the terminal chunk reach the
/// continuation as the same bytes, marked last, as the same four bytes sent
/// with a Content-Length of four; both leave what follows in the buffer.
pub proof fn law_chunked_as_content_length(
    p: Seq<u8>,
    t: Seq<u8>,
    q: Request,
    a: Reader,
    b: Reader,
    q2: Request,
    r: Result<Step, ConnError>,
    c: Reader,
    q3: Request,
    r2: Result<Step, ConnError>,
    x: Reader,
    y: Reader,
    q4: Request,
    r3: Result<Step, ConnError>,
)
    requires
        p.len() == 4,
        q.data@.len() == 0,
        !q.is_last,
        a.read_state == ReadState::Chunk,
        a.streaming,
        a.buffer@ == frame_of_four(p) + last_frame() + t,
        stepped(a, q, b, q2, r),
        stepped(b, q2, c, q3, r2),
        x.read_state == ReadState::Body,
        x.streaming,
        x.body_size == 4,
        x.buffer@ == p + t,
        stepped(x, q, y, q4, r3),
    ensures
        r == Ok::<Step, ConnError>(Step::Deliver),
        r2 == Ok::<Step, ConnError>(Step::Deliver),
        r3 == Ok::<Step, ConnError>(Step::Deliver),
        q3.data@ == p,
        q3.is_last,
        q4.data@ == q3.data@,
        q4.is_last,
        c.buffer@ == t,
        y.buffer@ == t,
        c.read_state == ReadState::Request,
        y.read_state == ReadState::Request,
{
    let rest = last_frame() + t;
    assert(a.buffer@ =~= frame_of_four(p) + rest);
    lemma_four_then_last(p, rest);
    lemma_four_then_last(p, t);
    assert(a.buffer@.subrange(9, a.buffer@.len() as int) =~= rest);
    assert(b.buffer@ =~= last_frame() + t);
    assert(b.buffer@.len() > 0);
    assert(b.buffer@.subrange(5, b.buffer@.len() as int) =~= t);
    assert(q.data@ + p + Seq::<u8>::empty() =~= p);
    assert(x.buffer@.subrange(0, 4) =~= p);
    assert(x.buffer@.subrange(4, x.buffer@.len() as int) =~= t);
}

} // verus!

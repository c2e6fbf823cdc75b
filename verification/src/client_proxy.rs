//! The proxy tunnel: framed JSON documents over a duplex byte channel.
//!
//! A network-isolated environment reaches the broker by writing
//! request documents into the tunnel and reading response documents back.
//! Frames are length-prefixed: a 4-byte big-endian payload length, then
//! the payload bytes.  Both ends of a channel use this same framing; it is
//! self-delimiting over a byte stream that has no message boundaries of
//! its own.  A clean peer close between frames is reported as `Eof`, a
//! close inside a frame as a transport fault.

use vstd::prelude::*;

use crate::codec::{bytes_of, escape_json, json_escaped, utf8_to_string};
use crate::json::{
    bytes_eq, find_member, parse_object, spec_as_string, spec_find, spec_object, spec_parse_u64,
    parse_u64, JVal, SpecVal,
};
use vstd::string::StringSliceAdditionalSpecFns;
use vstd::utf8::valid_utf8;

verus! {

/// Errors of the tunnel subsystem.
#[derive(Debug, Clone, Copy, PartialEq, Eq, Structural)]
pub enum CPError {
    /// The peer closed the channel cleanly between frames.  This is the
    /// normal terminal signal, not a fault.
    Eof,
    /// Malformed or truncated data on the channel, or an I/O fault; fatal
    /// to the tunnel.
    Transport,
}

/// HTTP method of a bridged request.
#[derive(Debug, Clone, Copy, PartialEq, Eq, Structural)]
pub enum HttpMethod {
    GET,
    POST,
}

impl HttpMethod {
    /// Wire name of the method.
    pub open spec fn spec_name(&self) -> Seq<u8> {
        match self {
            HttpMethod::GET => bytes_of("GET"@),
            HttpMethod::POST => bytes_of("POST"@),
        }
    }
}

/// Status value reserved for "the remote call could not be delivered".
/// Real HTTP statuses are three digits below 600, so the sentinel never
/// collides with one.
pub const SENTINEL_STATUS: u16 = 999;

/// A bridged call: endpoint path, method, and the JSON body verbatim.
#[derive(Debug, Clone)]
pub struct Request {
    pub endpoint: String,
    pub method: HttpMethod,
    /// Serialized JSON text, inserted into the request document verbatim.
    pub body: String,
}

/// A bridged result: numeric status and body text.
#[derive(Debug, Clone)]
pub struct Response {
    pub status: u16,
    pub body: String,
}

/// The request document.
pub open spec fn spec_request_doc(endpoint: Seq<u8>, method: Seq<u8>, body: Seq<u8>) -> Seq<u8> {
    bytes_of("{\"endpoint\":\""@) + json_escaped(endpoint) + bytes_of("\",\"method\":\""@) + method
        + bytes_of("\",\"body\":"@) + body + bytes_of("}"@)
}

/// The response document.
pub open spec fn spec_response_doc(status: nat, body: Seq<u8>) -> Seq<u8> {
    bytes_of("{\"status\":"@) + dec_of(status) + bytes_of(",\"body\":\""@) + json_escaped(body)
        + bytes_of("\"}"@)
}

/// Decimal digits of an unsigned number, most significant first.
pub open spec fn dec_of(n: nat) -> Seq<u8>
    decreases n,
{
    if n < 10 {
        seq![(48 + n) as u8]
    } else {
        dec_of(n / 10).push((48 + n % 10) as u8)
    }
}

fn dec_bytes(n: u16) -> (r: Vec<u8>)
    ensures
        r@ == dec_of(n as nat),
    decreases n,
{
    if n < 10 {
        let mut out: Vec<u8> = Vec::new();
        out.push(48 + n as u8);
        proof {
            assert(out@ =~= dec_of(n as nat));
        }
        out
    } else {
        let mut out = dec_bytes(n / 10);
        out.push(48 + (n % 10) as u8);
        out
    }
}

impl Request {
    /// Serialize the request document.
    pub fn to_json(&self) -> (r: Result<String, CPError>)
        ensures
            match r {
                Ok(doc) => bytes_of(doc@) == spec_request_doc(
                    bytes_of(self.endpoint@),
                    self.method.spec_name(),
                    bytes_of(self.body@),
                ),
                Err(e) => e == CPError::Transport && !valid_utf8(
                    spec_request_doc(
                        bytes_of(self.endpoint@),
                        self.method.spec_name(),
                        bytes_of(self.body@),
                    ),
                ),
            },
    {
        let mut doc: Vec<u8> = Vec::new();
        doc.extend_from_slice("{\"endpoint\":\"".as_bytes());
        let ee = escape_json(self.endpoint.as_str().as_bytes());
        doc.extend_from_slice(ee.as_slice());
        doc.extend_from_slice("\",\"method\":\"".as_bytes());
        match self.method {
            HttpMethod::GET => doc.extend_from_slice("GET".as_bytes()),
            HttpMethod::POST => doc.extend_from_slice("POST".as_bytes()),
        }
        doc.extend_from_slice("\",\"body\":".as_bytes());
        doc.extend_from_slice(self.body.as_str().as_bytes());
        doc.extend_from_slice("}".as_bytes());
        proof {
            assert(doc@ =~= spec_request_doc(
                bytes_of(self.endpoint@),
                self.method.spec_name(),
                bytes_of(self.body@),
            ));
        }
        match utf8_to_string(doc) {
            Some(s) => Ok(s),
            None => Err(CPError::Transport),
        }
    }
}

/// The raw JSON text a parsed member value stands for: a string value is
/// put back in canonical quoted form, any other value is its own text.
pub open spec fn spec_raw_text(v: SpecVal) -> Seq<u8> {
    match v {
        SpecVal::S(b) => bytes_of("\""@) + json_escaped(b) + bytes_of("\""@),
        SpecVal::Raw(b) => b,
    }
}

/// What `Request::from_json` accepts: an object with a string `endpoint`,
/// a `method` of `GET` or `POST`, and any `body` value.
pub open spec fn spec_request_parse(s: Seq<u8>) -> Option<(Seq<u8>, HttpMethod, Seq<u8>)> {
    match spec_object(s) {
        None => None,
        Some(ms) => {
            let ep = spec_as_string(spec_find(ms, bytes_of("endpoint"@)));
            let m = spec_as_string(spec_find(ms, bytes_of("method"@)));
            let b = spec_find(ms, bytes_of("body"@));
            if ep is Some && b is Some && m == Some(bytes_of("GET"@)) {
                Some((ep.unwrap(), HttpMethod::GET, spec_raw_text(b.unwrap())))
            } else if ep is Some && b is Some && m == Some(bytes_of("POST"@)) {
                Some((ep.unwrap(), HttpMethod::POST, spec_raw_text(b.unwrap())))
            } else {
                None
            }
        },
    }
}

impl Request {
    /// Parse a request document.
    pub fn from_json(doc: &str) -> (r: Result<Request, CPError>)
        ensures
            match r {
                Ok(req) => spec_request_parse(doc.spec_bytes()) matches Some((ep, m, b))
                    && ep == bytes_of(req.endpoint@) && m == req.method && b == bytes_of(
                    req.body@,
                ),
                Err(e) => e == CPError::Transport && (spec_request_parse(doc.spec_bytes()) is None
                    || !valid_utf8(spec_request_parse(doc.spec_bytes()).unwrap().0) || !valid_utf8(
                    spec_request_parse(doc.spec_bytes()).unwrap().2,
                )),
            },
    {
        let bytes = doc.as_bytes();
        let ms = match parse_object(bytes) {
            None => {
                return Err(CPError::Transport);
            },
            Some(ms) => ms,
        };
        let ep_b: Vec<u8> = match find_member(&ms, "endpoint".as_bytes()) {
            Some(JVal::S(v)) => vstd::slice::slice_to_vec(v.as_slice()),
            _ => {
                return Err(CPError::Transport);
            },
        };
        let method: HttpMethod = match find_member(&ms, "method".as_bytes()) {
            Some(JVal::S(v)) => {
                if bytes_eq(v.as_slice(), "GET".as_bytes()) {
                    HttpMethod::GET
                } else if bytes_eq(v.as_slice(), "POST".as_bytes()) {
                    HttpMethod::POST
                } else {
                    return Err(CPError::Transport);
                }
            },
            _ => {
                return Err(CPError::Transport);
            },
        };
        let body_b: Vec<u8> = match find_member(&ms, "body".as_bytes()) {
            Some(JVal::S(v)) => {
                let mut out: Vec<u8> = Vec::new();
                out.extend_from_slice("\"".as_bytes());
                let eb = escape_json(v.as_slice());
                out.extend_from_slice(eb.as_slice());
                out.extend_from_slice("\"".as_bytes());
                proof {
                    assert(out@ =~= bytes_of("\""@) + json_escaped(v@) + bytes_of("\""@));
                }
                out
            },
            Some(JVal::Raw(v)) => vstd::slice::slice_to_vec(v.as_slice()),
            None => {
                return Err(CPError::Transport);
            },
        };
        let endpoint = match utf8_to_string(ep_b) {
            Some(s) => s,
            None => {
                return Err(CPError::Transport);
            },
        };
        let body = match utf8_to_string(body_b) {
            Some(s) => s,
            None => {
                return Err(CPError::Transport);
            },
        };
        Ok(Request { endpoint, method, body })
    }
}

/// What `Response::from_json` accepts: an object with a numeric `status`
/// fitting a u16 and a string `body`.
pub open spec fn spec_response_parse(s: Seq<u8>) -> Option<(u16, Seq<u8>)> {
    match spec_object(s) {
        None => None,
        Some(ms) => {
            let b = spec_as_string(spec_find(ms, bytes_of("body"@)));
            match spec_find(ms, bytes_of("status"@)) {
                Some(SpecVal::Raw(d)) => match spec_parse_u64(d) {
                    Some(v) => if v <= u16::MAX && b is Some {
                        Some((v as u16, b.unwrap()))
                    } else {
                        None
                    },
                    None => None,
                },
                _ => None,
            }
        },
    }
}

impl Response {
    /// The call was answered with a 2xx status.
    pub fn is_success(&self) -> (r: bool)
        ensures
            r == (200 <= self.status < 300),
    {
        200 <= self.status && self.status < 300
    }

    /// Serialize the response document.
    pub fn to_json(&self) -> (r: Result<String, CPError>)
        ensures
            match r {
                Ok(doc) => bytes_of(doc@) == spec_response_doc(
                    self.status as nat,
                    bytes_of(self.body@),
                ),
                Err(e) => e == CPError::Transport && !valid_utf8(
                    spec_response_doc(self.status as nat, bytes_of(self.body@)),
                ),
            },
    {
        let mut doc: Vec<u8> = Vec::new();
        doc.extend_from_slice("{\"status\":".as_bytes());
        let ds = dec_bytes(self.status);
        doc.extend_from_slice(ds.as_slice());
        doc.extend_from_slice(",\"body\":\"".as_bytes());
        let eb = escape_json(self.body.as_str().as_bytes());
        doc.extend_from_slice(eb.as_slice());
        doc.extend_from_slice("\"}".as_bytes());
        proof {
            assert(doc@ =~= spec_response_doc(self.status as nat, bytes_of(self.body@)));
        }
        match utf8_to_string(doc) {
            Some(s) => Ok(s),
            None => Err(CPError::Transport),
        }
    }

    /// Parse a response document.
    pub fn from_json(doc: &str) -> (r: Result<Response, CPError>)
        ensures
            match r {
                Ok(resp) => spec_response_parse(doc.spec_bytes()) matches Some((st, b)) && st
                    == resp.status && b == bytes_of(resp.body@),
                Err(e) => e == CPError::Transport && (spec_response_parse(doc.spec_bytes()) is None
                    || !valid_utf8(spec_response_parse(doc.spec_bytes()).unwrap().1)),
            },
    {
        let bytes = doc.as_bytes();
        let ms = match parse_object(bytes) {
            None => {
                return Err(CPError::Transport);
            },
            Some(ms) => ms,
        };
        let status: u16 = match find_member(&ms, "status".as_bytes()) {
            Some(JVal::Raw(v)) => {
                match parse_u64(v.as_slice()) {
                    Some(n) => {
                        if n <= 65535 {
                            n as u16
                        } else {
                            return Err(CPError::Transport);
                        }
                    },
                    None => {
                        return Err(CPError::Transport);
                    },
                }
            },
            _ => {
                return Err(CPError::Transport);
            },
        };
        let body_b: Vec<u8> = match find_member(&ms, "body".as_bytes()) {
            Some(JVal::S(v)) => vstd::slice::slice_to_vec(v.as_slice()),
            _ => {
                return Err(CPError::Transport);
            },
        };
        let body = match utf8_to_string(body_b) {
            Some(s) => s,
            None => {
                return Err(CPError::Transport);
            },
        };
        Ok(Response { status, body })
    }
}

/// The bridging side's reply for one bridged call: the remote outcome
/// where the call completed, else an in-band sentinel response carrying
/// the error text, so that one failed call never kills the tunnel.
pub fn bridge_reply(outcome: Option<Response>, error_text: String) -> (r: Response)
    ensures
        match outcome {
            Some(resp) => r.status == resp.status && r.body@ == resp.body@,
            None => r.status == SENTINEL_STATUS && r.body@ == error_text@,
        },
        r.status == SENTINEL_STATUS && outcome is Some ==> outcome.unwrap().status
            == SENTINEL_STATUS,
{
    match outcome {
        Some(resp) => resp,
        None => Response { status: SENTINEL_STATUS, body: error_text },
    }
}

// ---------------------------------------------------------------------------
// Framing
// ---------------------------------------------------------------------------

/// Big-endian 4-byte encoding of a length below 2^32.
pub open spec fn be32(n: nat) -> Seq<u8>
    recommends
        n < 0x100000000,
{
    seq![
        ((n / 0x1000000) % 256) as u8,
        ((n / 0x10000) % 256) as u8,
        ((n / 0x100) % 256) as u8,
        (n % 256) as u8,
    ]
}

/// The length a 4-byte big-endian prefix denotes.
pub open spec fn be32_val(b: Seq<u8>) -> nat
    recommends
        b.len() == 4,
{
    (b[0] * 0x1000000 + b[1] * 0x10000 + b[2] * 256 + b[3]) as nat
}

/// One frame: the payload length, then the payload.
pub open spec fn spec_frame(p: Seq<u8>) -> Seq<u8>
    recommends
        p.len() < 0x100000000,
{
    be32(p.len()) + p
}

/// The first complete frame of a byte stream, and what follows it.
pub open spec fn spec_read_frame(s: Seq<u8>) -> Option<(Seq<u8>, Seq<u8>)> {
    if s.len() >= 4 {
        let n = be32_val(s.take(4));
        if s.len() >= 4 + n {
            Some((s.subrange(4, 4 + n as int), s.skip(4 + n as int)))
        } else {
            None
        }
    } else {
        None
    }
}

proof fn lemma_be32_round(n: nat)
    requires
        n < 0x100000000,
    ensures
        be32(n).len() == 4,
        be32_val(be32(n)) == n,
{
}

/// Framing round trip: a frame followed by anything else is read back as
/// exactly its payload, leaving the rest.  Both ends of a channel use the
/// same framing, so what one side writes the other reads.
pub proof fn lemma_frame_round_trip(p: Seq<u8>, rest: Seq<u8>)
    requires
        p.len() < 0x100000000,
    ensures
        spec_read_frame(spec_frame(p) + rest) == Some((p, rest)),
{
    lemma_be32_round(p.len());
    let s = spec_frame(p) + rest;
    assert(s.take(4) =~= be32(p.len()));
    assert(s.subrange(4, 4 + p.len() as int) =~= p);
    assert(s.skip(4 + p.len() as int) =~= rest);
}

/// Encode one frame around a payload.  Payloads of 2^32 bytes or more do
/// not fit the length prefix and are refused.
pub fn encode_frame(p: &[u8]) -> (r: Result<Vec<u8>, CPError>)
    ensures
        match r {
            Ok(f) => p@.len() < 0x100000000 && f@ == spec_frame(p@),
            Err(e) => e == CPError::Transport && p@.len() >= 0x100000000,
        },
{
    if p.len() as u64 >= 0x100000000u64 {
        return Err(CPError::Transport);
    }
    let n = p.len() as u32;
    let mut out: Vec<u8> = Vec::new();
    out.push((n / 0x1000000) as u8);
    out.push(((n / 0x10000) % 256) as u8);
    out.push(((n / 0x100) % 256) as u8);
    out.push((n % 256) as u8);
    out.extend_from_slice(p);
    proof {
        assert((n as nat / 0x1000000) % 256 == n as nat / 0x1000000);
        assert(out@ =~= spec_frame(p@));
    }
    Ok(out)
}

/// The error when the peer closes the channel: clean between frames,
/// a fault inside one.
pub open spec fn spec_eof_error(pending: nat) -> CPError {
    if pending == 0 {
        CPError::Eof
    } else {
        CPError::Transport
    }
}

/// Decide how a channel close is reported, from the number of buffered
/// bytes of an unfinished frame.
pub fn eof_error(pending: usize) -> (r: CPError)
    ensures
        r == spec_eof_error(pending as nat),
{
    if pending == 0 {
        CPError::Eof
    } else {
        CPError::Transport
    }
}

/// A duplex byte channel.  Implementations live outside this library; a
/// Unix domain socket is one binding, any byte-oriented duplex channel is
/// acceptable.
pub trait Connection {
    /// Read up to `max` bytes, blocking for at least one; an empty result
    /// signals that the peer closed the channel.  A fault is `Transport`:
    /// end of stream is never an error here, only an empty read.
    fn recv(&mut self, max: usize) -> (r: Result<Vec<u8>, CPError>)
        requires
            max >= 1,
        ensures
            r matches Ok(v) ==> v@.len() <= max,
            r matches Err(e) ==> e == CPError::Transport,
    ;

    /// Write all of `data`.
    fn send(&mut self, data: &[u8]) -> (r: Result<(), CPError>);
}

/// Remaining read budget before the buffered bytes must hold a complete
/// frame: a frame is at most 4 + (2^32 - 1) bytes, and one read appends
/// at most 4096.
pub open spec fn spec_read_fuel(buffered: nat) -> int {
    if buffered <= 0x100001003 {
        0x100001003 - buffered
    } else {
        0
    }
}

/// One end of a tunnel: a connection plus the bytes received beyond the
/// frames already handed out.
pub struct Proxy<C: Connection> {
    conn: C,
    buf: Vec<u8>,
    consumed: Ghost<Seq<u8>>,
}

impl<C: Connection> Proxy<C> {
    /// Every byte the connection has handed over, in order: the bytes
    /// already consumed as frames, then the buffered remainder.
    pub closed spec fn spec_stream(&self) -> Seq<u8> {
        self.consumed@ + self.buf@
    }

    /// How much of the stream has been consumed as frames.
    pub closed spec fn spec_used(&self) -> int {
        self.consumed@.len() as int
    }

    /// Bytes received but not yet part of a delivered frame.
    pub closed spec fn spec_pending(&self) -> Seq<u8> {
        self.buf@
    }

    /// Wrap a connection; nothing is buffered yet.
    pub fn new(conn: C) -> (r: Proxy<C>)
        ensures
            r.spec_stream() == Seq::<u8>::empty(),
            r.spec_used() == 0,
    {
        let p = Proxy { conn, buf: Vec::new(), consumed: Ghost(Seq::empty()) };
        proof {
            assert(p.spec_stream() =~= Seq::<u8>::empty());
        }
        p
    }

    /// Write one JSON document as one frame.  Documents of 2^32 bytes or
    /// more are refused as a transport error.
    pub fn write_json(&mut self, payload: &str) -> (r: Result<(), CPError>)
        ensures
            bytes_of(payload@).len() >= 0x100000000 ==> r == Err::<(), CPError>(CPError::Transport),
            final(self).spec_stream() == old(self).spec_stream(),
            final(self).spec_used() == old(self).spec_used(),
    {
        let frame = match encode_frame(payload.as_bytes()) {
            Ok(f) => f,
            Err(e) => {
                return Err(e);
            },
        };
        self.conn.send(frame.as_slice())
    }

    /// Read one complete frame and hand its payload back as text: exactly
    /// the next frame of the received stream, as [`spec_read_frame`] takes
    /// it apart.  A frame already pending with a UTF-8 payload is returned
    /// without consulting the connection.  A clean peer close with no
    /// partial frame buffered is `Eof`; a close inside a frame, a payload
    /// that is not UTF-8, or a connection fault is `Transport`, and an
    /// error consumes nothing from the stream.
    pub fn read_json(&mut self) -> (r: Result<String, CPError>)
        ensures
            old(self).spec_stream().is_prefix_of(final(self).spec_stream()),
            spec_read_frame(old(self).spec_pending()) matches Some((p, _rest)) ==> (
            vstd::utf8::valid_utf8(p) ==> r is Ok),
            match r {
                Ok(s) => spec_read_frame(
                    final(self).spec_stream().skip(old(self).spec_used()),
                ) matches Some((p, rest)) && bytes_of(s@) == p && final(self).spec_used() == old(
                    self,
                ).spec_used() + 4 + p.len() && rest == final(self).spec_pending(),
                Err(e) => final(self).spec_used() == old(self).spec_used() && (e == CPError::Eof
                    ==> final(self).spec_pending() == Seq::<u8>::empty()),
            },
    {
        loop
            invariant
                self.consumed@ == old(self).consumed@,
                old(self).buf@.is_prefix_of(self.buf@),
                self.buf@.len() > old(self).buf@.len() ==> spec_read_frame(
                    old(self).buf@,
                ) is None,
            decreases spec_read_fuel(self.buf@.len()),
        {
            if self.buf.len() >= 4 {
                let n: usize = {
                    let b0 = self.buf[0] as usize;
                    let b1 = self.buf[1] as usize;
                    let b2 = self.buf[2] as usize;
                    let b3 = self.buf[3] as usize;
                    b0 * 0x1000000 + b1 * 0x10000 + b2 * 256 + b3
                };
                proof {
                    assert(be32_val(self.buf@.take(4)) == n);
                }
                if self.buf.len() - 4 >= n {
                    let ghost whole = self.buf@;
                    // check the payload before consuming anything, so that a
                    // non-UTF-8 frame leaves the stream untouched
                    let mut payload: Vec<u8> = Vec::new();
                    let mut j: usize = 0;
                    while j < n
                        invariant
                            j <= n,
                            n <= usize::MAX - 4,
                            4 + n <= self.buf@.len(),
                            self.buf@ == whole,
                            payload@.len() == j,
                            forall|t: int| 0 <= t < j ==> payload@[t] == self.buf@[4 + t],
                        decreases n - j,
                    {
                        payload.push(self.buf[4 + j]);
                        j += 1;
                    }
                    let ghost pview = payload@;
                    proof {
                        assert(pview =~= whole.subrange(4, 4 + n as int));
                        assert(spec_read_frame(whole) == Some(
                            (whole.subrange(4, 4 + n as int), whole.skip(4 + n as int)),
                        ));
                    }
                    match utf8_to_string(payload) {
                        Some(s) => {
                            let rest = self.buf.split_off(4 + n);
                            let ghost frame = self.buf@;
                            self.buf = rest;
                            proof {
                                assert(frame =~= whole.take(4 + n as int));
                                assert(self.buf@ =~= whole.skip(4 + n as int));
                                self.consumed = Ghost(self.consumed@ + frame);
                                assert(self.spec_stream() =~= old(self).consumed@ + whole);
                                assert((old(self).consumed@ + whole).skip(old(self).spec_used())
                                    =~= whole);
                                assert(old(self).spec_stream().is_prefix_of(
                                    self.spec_stream(),
                                )) by {
                                    assert(old(self).spec_stream() =~= (old(self).consumed@
                                        + whole).take(old(self).spec_stream().len() as int));
                                }
                                let stream = self.spec_stream();
                                assert(stream.skip(old(self).spec_used()) == whole);
                                assert(spec_read_frame(stream.skip(old(self).spec_used()))
                                    == Some((pview, self.buf@)));
                                assert(self.spec_used() == old(self).spec_used() + 4
                                    + pview.len());
                            }
                            return Ok(s);
                        },
                        None => {
                            // this frame is the one pending at entry, unless
                            // the buffer grew, in which case none was pending
                            proof {
                                lemma_stream_prefix(
                                    old(self).consumed@,
                                    old(self).buf@,
                                    self.buf@,
                                );
                                if self.buf@.len() == old(self).buf@.len() {
                                    assert(self.buf@ =~= old(self).buf@);
                                }
                            }
                            return Err(CPError::Transport);
                        },
                    }
                }
                proof {
                    assert(spec_read_frame(self.buf@) is None);
                }
            } else {
                proof {
                    assert(spec_read_frame(self.buf@) is None);
                }
            }
            proof {
                if self.buf@.len() == old(self).buf@.len() {
                    assert(self.buf@ =~= old(self).buf@);
                }
                assert(spec_read_frame(old(self).buf@) is None);
            }
            let chunk = match self.conn.recv(4096) {
                Ok(c) => c,
                Err(e) => {
                    proof {
                        lemma_stream_prefix(old(self).consumed@, old(self).buf@, self.buf@);
                    }
                    return Err(e);
                },
            };
            if chunk.len() == 0 {
                proof {
                    lemma_stream_prefix(old(self).consumed@, old(self).buf@, self.buf@);
                    if self.buf@.len() == 0 {
                        assert(self.buf@ =~= Seq::<u8>::empty());
                    }
                }
                return Err(eof_error(self.buf.len()));
            }
            let mut chunk = chunk;
            self.buf.append(&mut chunk);
            proof {
                assert(old(self).buf@.is_prefix_of(self.buf@));
            }
        }
    }
}

/// Growing the buffer extends the stream.
proof fn lemma_stream_prefix(consumed: Seq<u8>, old_buf: Seq<u8>, new_buf: Seq<u8>)
    requires
        old_buf.is_prefix_of(new_buf),
    ensures
        (consumed + old_buf).is_prefix_of(consumed + new_buf),
{
    assert((consumed + old_buf) =~= (consumed + new_buf).take((consumed + old_buf).len() as int));
}

} // verus!

//! Proxy tunnel tests: framing, end-of-stream behaviour, and the in-band
//! sentinel for failed remote calls.

use std::cell::RefCell;
use std::collections::VecDeque;
use std::rc::Rc;

use reference_kbc::client_proxy::{
    bridge_reply, CPError, Connection, HttpMethod, Proxy, Request, Response, SENTINEL_STATUS,
};

/// One end of an in-memory duplex channel: reads drain what the peer
/// wrote; a drained buffer reads as end of stream.
struct PipeEnd {
    incoming: Rc<RefCell<VecDeque<u8>>>,
    outgoing: Rc<RefCell<VecDeque<u8>>>,
}

fn pipe() -> (PipeEnd, PipeEnd) {
    let a = Rc::new(RefCell::new(VecDeque::new()));
    let b = Rc::new(RefCell::new(VecDeque::new()));
    (
        PipeEnd {
            incoming: a.clone(),
            outgoing: b.clone(),
        },
        PipeEnd {
            incoming: b,
            outgoing: a,
        },
    )
}

impl Connection for PipeEnd {
    fn recv(&mut self, max: usize) -> Result<Vec<u8>, CPError> {
        let mut incoming = self.incoming.borrow_mut();
        let n = incoming.len().min(max);
        Ok(incoming.drain(..n).collect())
    }

    fn send(&mut self, data: &[u8]) -> Result<(), CPError> {
        self.outgoing.borrow_mut().extend(data.iter().copied());
        Ok(())
    }
}

#[test]
fn clean_shutdown_yields_eof() {
    // Peer gone, no partial frame buffered: read_json reports Eof, not a
    // fault.
    let (client, _server) = pipe();
    let mut proxy = Proxy::new(client);
    assert_eq!(proxy.read_json().unwrap_err(), CPError::Eof);
}

#[test]
fn truncated_frame_is_a_fault() {
    let (client, mut server) = pipe();
    // half a length prefix, then nothing more
    server.send(&[0, 0]).unwrap();
    let mut proxy = Proxy::new(client);
    assert_eq!(proxy.read_json().unwrap_err(), CPError::Transport);
}

#[test]
fn frame_round_trip_over_channel() {
    let (client, server) = pipe();
    let mut writer = Proxy::new(server);
    let mut reader = Proxy::new(client);
    writer.write_json("{\"hello\":1}").unwrap();
    writer.write_json("{\"world\":2}").unwrap();
    assert_eq!(reader.read_json().unwrap(), "{\"hello\":1}");
    assert_eq!(reader.read_json().unwrap(), "{\"world\":2}");
    assert_eq!(reader.read_json().unwrap_err(), CPError::Eof);
}

#[test]
fn unreachable_remote_yields_sentinel_and_tunnel_survives() {
    // The isolated side sends a request; the bridging side cannot reach
    // the remote broker and answers in-band with status 999; the tunnel
    // stays usable for the next request.
    let (client, server) = pipe();
    let mut svsm = Proxy::new(client);
    let mut bridge = Proxy::new(server);

    let req = Request {
        endpoint: "/x".to_string(),
        method: HttpMethod::GET,
        body: "null".to_string(),
    };
    svsm.write_json(&req.to_json().unwrap()).unwrap();

    // bridging side: read the request, fail to deliver it
    let doc = bridge.read_json().unwrap();
    let parsed = Request::from_json(&doc).unwrap();
    assert_eq!(parsed.endpoint, "/x");
    assert_eq!(parsed.method, HttpMethod::GET);
    assert_eq!(parsed.body, "null");

    let reply = bridge_reply(None, "connection refused".to_string());
    assert_eq!(reply.status, 999);
    bridge.write_json(&reply.to_json().unwrap()).unwrap();

    // isolated side: the failure arrives in-band
    let resp = Response::from_json(&svsm.read_json().unwrap()).unwrap();
    assert_eq!(resp.status, SENTINEL_STATUS);
    assert_eq!(resp.body, "connection refused");
    assert!(!resp.is_success());

    // the tunnel still carries the next request
    let req2 = Request {
        endpoint: "/y".to_string(),
        method: HttpMethod::POST,
        body: "{\"k\":\"v\"}".to_string(),
    };
    svsm.write_json(&req2.to_json().unwrap()).unwrap();
    let doc2 = bridge.read_json().unwrap();
    let parsed2 = Request::from_json(&doc2).unwrap();
    assert_eq!(parsed2.endpoint, "/y");
    assert_eq!(parsed2.method, HttpMethod::POST);
    assert_eq!(parsed2.body, "{\"k\":\"v\"}");

    let ok = bridge_reply(
        Some(Response {
            status: 200,
            body: "done".to_string(),
        }),
        String::new(),
    );
    bridge.write_json(&ok.to_json().unwrap()).unwrap();
    let resp2 = Response::from_json(&svsm.read_json().unwrap()).unwrap();
    assert_eq!(resp2.status, 200);
    assert_eq!(resp2.body, "done");
    assert!(resp2.is_success());
}

#[test]
fn request_document_shape() {
    let req = Request {
        endpoint: "/kbs/v0/auth".to_string(),
        method: HttpMethod::POST,
        body: "{\"version\":\"0.1.0\"}".to_string(),
    };
    let doc = req.to_json().unwrap();
    let v: serde_json::Value = serde_json::from_str(&doc).unwrap();
    assert_eq!(v["endpoint"].as_str().unwrap(), "/kbs/v0/auth");
    assert_eq!(v["method"].as_str().unwrap(), "POST");
    assert_eq!(v["body"]["version"].as_str().unwrap(), "0.1.0");
}

#[test]
fn response_document_round_trip() {
    let resp = Response {
        status: 404,
        body: "not \"here\"".to_string(),
    };
    let doc = resp.to_json().unwrap();
    let v: serde_json::Value = serde_json::from_str(&doc).unwrap();
    assert_eq!(v["status"].as_u64().unwrap(), 404);
    assert_eq!(v["body"].as_str().unwrap(), "not \"here\"");

    let back = Response::from_json(&doc).unwrap();
    assert_eq!(back.status, 404);
    assert_eq!(back.body, "not \"here\"");
}

#[test]
fn response_rejects_oversized_status() {
    assert_eq!(
        Response::from_json("{\"status\":70000,\"body\":\"x\"}").unwrap_err(),
        CPError::Transport
    );
    assert_eq!(
        Response::from_json("{\"status\":\"200\",\"body\":\"x\"}").unwrap_err(),
        CPError::Transport
    );
}

/// Delivers its script one byte per read, to exercise frame reassembly.
struct Trickle {
    script: VecDeque<u8>,
}

impl Connection for Trickle {
    fn recv(&mut self, _max: usize) -> Result<Vec<u8>, CPError> {
        Ok(self.script.pop_front().into_iter().collect())
    }

    fn send(&mut self, _data: &[u8]) -> Result<(), CPError> {
        Ok(())
    }
}

#[test]
fn frame_reassembled_from_single_bytes() {
    let payload = b"{\"status\":200,\"body\":\"ok\"}";
    let mut script: VecDeque<u8> = VecDeque::new();
    script.extend([0u8, 0, 0, payload.len() as u8]);
    script.extend(payload.iter().copied());
    let mut proxy = Proxy::new(Trickle { script });
    assert_eq!(proxy.read_json().unwrap().as_bytes(), payload);
    assert_eq!(proxy.read_json().unwrap_err(), CPError::Eof);
}

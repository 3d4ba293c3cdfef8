use ra_multiplex::connection::{conn_step, Conn, ConnAction, ConnEvent};
use ra_multiplex::framing::{encode_frame, scan, Decoder, FramingError, Scan};
use ra_multiplex::handshake::{handshake_message, parse_handshake, HandshakeError};
use ra_multiplex::message::{classify, with_id, Kind};
use ra_multiplex::registry::{same_key, BackendKey, Registry, Resolution};
use ra_multiplex::route::{from_backend, from_client};
use ra_multiplex::session::{MsgId, RouteError, Router};

fn key(path: &str, args: &[&str]) -> BackendKey {
    BackendKey { path: path.to_string(), args: args.iter().map(|a| a.to_string()).collect() }
}

fn json(b: &[u8]) -> serde_json::Value {
    serde_json::from_slice(b).unwrap()
}

#[test]
fn encode_frame_writes_length_header() {
    assert_eq!(encode_frame(b"{}"), b"Content-Length: 2\r\n\r\n{}".to_vec());
    assert_eq!(encode_frame(b""), b"Content-Length: 0\r\n\r\n".to_vec());
    let big = vec![b'x'; 1234];
    let framed = encode_frame(&big);
    assert!(framed.starts_with(b"Content-Length: 1234\r\n\r\n"));
    assert_eq!(framed.len(), 24 + 1234);
}

#[test]
fn frame_round_trip() {
    for payload in [&b""[..], b"{}", br#"{"jsonrpc":"2.0","id":7,"method":"x"}"#, b"\r\n\r\n\0\xff"] {
        let mut d = Decoder::new();
        d.feed(&encode_frame(payload));
        assert_eq!(d.next_payload(), Ok(Some(payload.to_vec())));
        assert_eq!(d.next_payload(), Ok(None));
        assert_eq!(d.finish(), Ok(()));
    }
}

#[test]
fn round_trip_keeps_classification() {
    let payload = br#"{"id":3,"method":"initialize"}"#;
    let mut d = Decoder::new();
    d.feed(&encode_frame(payload));
    let back = d.next_payload().unwrap().unwrap();
    assert!(matches!(classify(&back), Some(Kind::Request(MsgId::Num(3)))));
    assert!(matches!(classify(payload), Some(Kind::Request(MsgId::Num(3)))));
}

#[test]
fn decoder_handles_arbitrary_chunks() {
    let mut stream = encode_frame(b"{\"method\":\"a\"}");
    stream.extend(encode_frame(b"{\"id\":1}"));
    let mut d = Decoder::new();
    let mut got = Vec::new();
    for chunk in stream.chunks(3) {
        d.feed(chunk);
        while let Some(p) = d.next_payload().unwrap() {
            got.push(p);
        }
    }
    assert_eq!(got, vec![b"{\"method\":\"a\"}".to_vec(), b"{\"id\":1}".to_vec()]);
    assert_eq!(d.finish(), Ok(()));
}

#[test]
fn scan_reports_incomplete_and_complete() {
    assert!(matches!(scan(&b"Content-Le".to_vec()), Scan::Incomplete));
    assert!(matches!(scan(&b"Content-Length: 12".to_vec()), Scan::Incomplete));
    assert!(matches!(scan(&b"Content-Length: 5\r\n".to_vec()), Scan::Incomplete));
    assert!(matches!(scan(&b"Content-Length: 5\r\n\r\nabc".to_vec()), Scan::Incomplete));
    assert!(matches!(scan(&b"Content-Length: 3\r\n\r\nabcdef".to_vec()), Scan::Complete { start: 21, end: 24 }));
}

#[test]
fn malformed_headers_are_rejected() {
    for bad in [&b"Content-Type: x\r\n\r\n"[..], b"Content-Length: \r\n\r\n", b"Content-Length: 3\n\nabc",
        b"Content-Length: 3x\r\n\r\nabc", b"Content-Length: 99999999999999999999999\r\n\r\n"] {
        let mut d = Decoder::new();
        d.feed(bad);
        assert_eq!(d.next_payload(), Err(FramingError::Malformed));
    }
}

#[test]
fn end_of_stream_mid_frame_is_truncation() {
    let mut d = Decoder::new();
    d.feed(b"Content-Length: 10\r\n\r\nabc");
    assert_eq!(d.next_payload(), Ok(None));
    assert_eq!(d.finish(), Err(FramingError::Truncated));
}

#[test]
fn classify_by_fields() {
    assert!(matches!(classify(br#"{"id":1,"method":"m"}"#), Some(Kind::Request(MsgId::Num(1)))));
    assert!(matches!(classify(br#"{"id":"a","result":null}"#), Some(Kind::Response(MsgId::Str(ref s))) if s == "a"));
    assert!(matches!(classify(br#"{"method":"n"}"#), Some(Kind::Notification)));
    assert!(classify(br#"{"result":1}"#).is_none());
    assert!(classify(b"[1,2]").is_none());
    assert!(classify(b"not json").is_none());
}

#[test]
fn with_id_rewrites_the_identifier() {
    let out = with_id(br#"{"id":1,"method":"m","params":[1]}"#, &MsgId::Num(42)).unwrap();
    let v = json(&out);
    assert_eq!(v["id"], 42);
    assert_eq!(v["method"], "m");
    assert_eq!(v["params"][0], 1);
    let out = with_id(br#"{"id":1}"#, &MsgId::Str("abc".to_string())).unwrap();
    assert_eq!(json(&out)["id"], "abc");
    assert!(with_id(b"[]", &MsgId::Num(1)).is_none());
}

#[test]
fn reply_reaches_only_the_sender() {
    let mut r = Router::new();
    let a = r.attach().unwrap();
    let b = r.attach().unwrap();
    assert_ne!(a, b);
    let sent = from_client(&mut r, a, br#"{"jsonrpc":"2.0","id":1,"method":"textDocument/hover"}"#).unwrap();
    let synthetic = json(&sent)["id"].as_i64().unwrap();
    let reply = format!(r#"{{"jsonrpc":"2.0","id":{},"result":"hi"}}"#, synthetic);
    let out = from_backend(&mut r, reply.as_bytes());
    assert_eq!(out.len(), 1);
    assert_eq!(out[0].client, a);
    let v = json(&out[0].payload);
    assert_eq!(v["id"], 1);
    assert_eq!(v["result"], "hi");
    assert!(out.iter().all(|d| d.client != b));
    assert!(from_backend(&mut r, reply.as_bytes()).is_empty());
}

#[test]
fn same_original_ids_from_two_clients_stay_apart() {
    let mut r = Router::new();
    let clients: Vec<u64> = (0..3).map(|_| r.attach().unwrap()).collect();
    let mut synthetic = Vec::new();
    for (n, c) in clients.iter().enumerate() {
        let req = format!(r#"{{"id":1,"method":"m{}"}}"#, n);
        let sent = from_client(&mut r, *c, req.as_bytes()).unwrap();
        synthetic.push(json(&sent)["id"].as_i64().unwrap());
    }
    assert_eq!(synthetic, vec![0, 1, 2]);
    for (n, s) in synthetic.iter().enumerate().rev() {
        let reply = format!(r#"{{"id":{},"result":{}}}"#, s, n);
        let out = from_backend(&mut r, reply.as_bytes());
        assert_eq!(out.len(), 1);
        assert_eq!(out[0].client, clients[n]);
        assert_eq!(json(&out[0].payload)["id"], 1);
        assert_eq!(json(&out[0].payload)["result"], n);
    }
}

#[test]
fn detach_mid_flight_keeps_the_other_client_routable() {
    let mut r = Router::new();
    let a = r.attach().unwrap();
    let b = r.attach().unwrap();
    let sa = json(&from_client(&mut r, a, br#"{"id":"x","method":"m"}"#).unwrap())["id"].as_i64().unwrap();
    let sb = json(&from_client(&mut r, b, br#"{"id":"y","method":"m"}"#).unwrap())["id"].as_i64().unwrap();
    r.detach(a);
    assert_eq!(r.clients(), vec![b]);
    assert!(from_backend(&mut r, format!(r#"{{"id":{},"result":0}}"#, sa).as_bytes()).is_empty());
    let out = from_backend(&mut r, format!(r#"{{"id":{},"result":0}}"#, sb).as_bytes());
    assert_eq!(out.len(), 1);
    assert_eq!(out[0].client, b);
    assert_eq!(json(&out[0].payload)["id"], "y");
    assert_eq!(from_client(&mut r, a, br#"{"method":"n"}"#), Err(RouteError::UnknownClient));

    let mut reg = Registry::new();
    let backend = match reg.resolve(key("ra", &[])) {
        Resolution::Spawn(b) => b,
        other => panic!("{:?}", other),
    };
    assert!(reg.mark_started(backend, 0));
    assert!(reg.client_attached(backend));
    assert!(reg.client_attached(backend));
    assert!(reg.client_detached(backend, 10));
    assert!(reg.reap(1000, 5).is_empty());
    assert_eq!(reg.resolve(key("ra", &[])), Resolution::Existing(backend));
    assert!(reg.client_detached(backend, 20));
    assert!(reg.reap(24, 5).is_empty());
    assert_eq!(reg.reap(26, 5), vec![backend]);
}

#[test]
fn notifications_are_broadcast_unchanged() {
    let mut r = Router::new();
    let a = r.attach().unwrap();
    let b = r.attach().unwrap();
    let note = br#"{"method":"window/logMessage","params":{}}"#;
    let out = from_backend(&mut r, note);
    assert_eq!(out.len(), 2);
    assert_eq!((out[0].client, out[1].client), (a, b));
    assert!(out.iter().all(|d| d.payload == note.to_vec()));
    let sent = from_client(&mut r, a, note).unwrap();
    assert_eq!(sent, note.to_vec());
}

#[test]
fn unknown_and_malformed_messages() {
    let mut r = Router::new();
    let a = r.attach().unwrap();
    assert!(from_backend(&mut r, br#"{"id":55,"result":0}"#).is_empty());
    assert!(from_backend(&mut r, br#"{"id":"s","result":0}"#).is_empty());
    assert!(from_backend(&mut r, b"garbage").is_empty());
    assert_eq!(from_client(&mut r, a, b"garbage"), Err(RouteError::Malformed));
    assert_eq!(from_client(&mut r, 99, br#"{"id":1,"method":"m"}"#), Err(RouteError::UnknownClient));
}

#[test]
fn crash_signals_every_client_and_drops_pending() {
    let mut r = Router::new();
    let a = r.attach().unwrap();
    let b = r.attach().unwrap();
    let s = json(&from_client(&mut r, a, br#"{"id":1,"method":"m"}"#).unwrap())["id"].as_i64().unwrap();
    assert_eq!(r.crash(), vec![a, b]);
    assert!(!r.is_live());
    assert!(r.clients().is_empty());
    assert!(from_backend(&mut r, format!(r#"{{"id":{},"result":0}}"#, s).as_bytes()).is_empty());
    assert_eq!(r.attach(), Err(RouteError::Terminated));
    assert_eq!(r.take_response(s), None);
}

#[test]
fn resolve_same_key_never_spawns_twice() {
    let mut reg = Registry::new();
    let b = match reg.resolve(key("/bin/ls", &["-l"])) {
        Resolution::Spawn(b) => b,
        other => panic!("{:?}", other),
    };
    assert_eq!(reg.resolve(key("/bin/ls", &["-l"])), Resolution::Starting(b));
    assert!(reg.mark_started(b, 5));
    assert!(!reg.mark_started(b, 6));
    assert_eq!(reg.resolve(key("/bin/ls", &["-l"])), Resolution::Existing(b));
    assert_eq!(reg.resolve(key("/bin/ls", &["-l"])), Resolution::Existing(b));
}

#[test]
fn resolve_different_keys_gives_different_backends() {
    let mut reg = Registry::new();
    let r1 = reg.resolve(key("ra", &["a"]));
    let r2 = reg.resolve(key("ra", &["b"]));
    let r3 = reg.resolve(key("rb", &["a"]));
    assert_eq!((r1, r2, r3), (Resolution::Spawn(0), Resolution::Spawn(1), Resolution::Spawn(2)));
    assert!(same_key(&key("x", &["1", "2"]), &key("x", &["1", "2"])));
    assert!(!same_key(&key("x", &["1", "2"]), &key("x", &["12"])));
    assert!(!same_key(&key("x", &[]), &key("y", &[])));
}

#[test]
fn idle_backend_is_reaped_and_respawned() {
    let mut reg = Registry::new();
    let b = match reg.resolve(key("ra", &[])) {
        Resolution::Spawn(b) => b,
        other => panic!("{:?}", other),
    };
    reg.mark_started(b, 100);
    assert!(reg.reap(150, 50).is_empty());
    assert_eq!(reg.reap(151, 50), vec![b]);
    match reg.resolve(key("ra", &[])) {
        Resolution::Spawn(fresh) => assert_ne!(fresh, b),
        other => panic!("{:?}", other),
    }
}

#[test]
fn spawn_failure_does_not_poison_other_keys() {
    let mut reg = Registry::new();
    let b1 = match reg.resolve(key("bad", &[])) { Resolution::Spawn(b) => b, o => panic!("{:?}", o) };
    let b2 = match reg.resolve(key("good", &[])) { Resolution::Spawn(b) => b, o => panic!("{:?}", o) };
    reg.remove(b1);
    assert!(reg.mark_started(b2, 0));
    assert_eq!(reg.resolve(key("good", &[])), Resolution::Existing(b2));
    assert!(matches!(reg.resolve(key("bad", &[])), Resolution::Spawn(b) if b != b1));
}

#[test]
fn handshake_round_trip() {
    let msg = handshake_message(Some("/usr/bin/ra".to_string()), vec!["--x".to_string()]).unwrap();
    assert_eq!(*msg.last().unwrap(), 0u8);
    let mut bytes = msg.clone();
    bytes.extend_from_slice(b"Content-Length: 2\r\n\r\n{}");
    let (k, n) = parse_handshake(&bytes).unwrap().unwrap();
    assert_eq!(n, msg.len());
    assert_eq!(k.path, "/usr/bin/ra");
    assert_eq!(k.args, vec!["--x".to_string()]);
}

#[test]
fn handshake_defaults_to_rust_analyzer() {
    let msg = handshake_message(None, vec![]).unwrap();
    let v = json(&msg[..msg.len() - 1]);
    assert_eq!(v["backend_path"], "rust-analyzer");
    assert_eq!(v["backend_args"], serde_json::Value::Array(vec![]));
}

#[test]
fn handshake_errors() {
    assert!(parse_handshake(br#"{"backend_path":"a""#).unwrap().is_none());
    assert_eq!(parse_handshake(b"{}\0").unwrap_err(), HandshakeError::Malformed);
    assert_eq!(parse_handshake(b"\0").unwrap_err(), HandshakeError::Malformed);
    assert_eq!(parse_handshake(br#"{"backend_path":1,"backend_args":[]}"#.iter().chain(b"\0").copied().collect::<Vec<u8>>().as_slice()).unwrap_err(), HandshakeError::Malformed);
}

#[test]
fn connection_detaches_once() {
    let (c, a) = conn_step(Conn::Handshaking, ConnEvent::Joined { backend: 1, client: 2 });
    assert_eq!((c, a), (Conn::Attached { backend: 1, client: 2 }, ConnAction::Nothing));
    let (c, a) = conn_step(c, ConnEvent::SocketClosed);
    assert_eq!((c, a), (Conn::Closed, ConnAction::DetachAndClose { backend: 1, client: 2 }));
    let (c, a) = conn_step(c, ConnEvent::ConnectionLost);
    assert_eq!((c, a), (Conn::Closed, ConnAction::Nothing));
    assert_eq!(conn_step(Conn::Handshaking, ConnEvent::Refused), (Conn::Closed, ConnAction::Close));
}

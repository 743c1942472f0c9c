use glide::api::Api;
use glide::broadcast::{Broadcast, Publish, QUEUE_CAPACITY};
use glide::codec::{
    decimal_bytes, decode_request, encode_request_head, encode_response_bytes, failure_response,
    DecodeError, Header, Request, Response,
};
use glide::formats::Json;
use glide::service::{
    reply, reply_to_decode_error, Action, Event, FromBody, FromRequest, IntoResponse, Termination,
};
use glide::standard::Standard;

fn contains(hay: &[u8], needle: &[u8]) -> bool {
    hay.windows(needle.len()).any(|w| w == needle)
}

fn header(name: &str, value: &str) -> Header {
    Header { name: name.as_bytes().to_vec(), value: value.as_bytes().to_vec() }
}

#[test]
fn get_foo_with_ok_handler_gives_exact_response() {
    let input = b"GET /foo HTTP/1.1\r\nHost: x\r\n\r\n";
    let req = decode_request(input).ok().unwrap();
    assert_eq!(req.method, b"GET".to_vec());
    assert_eq!(req.path, b"/foo".to_vec());
    assert_eq!(req.headers.len(), 1);
    assert_eq!(req.headers[0].name, b"Host".to_vec());
    assert_eq!(req.headers[0].value, b"x".to_vec());
    assert!(req.body.is_empty());
    let response = Response { status: 200, headers: Vec::new(), body: b"OK".to_vec() };
    let r = reply::<Response<Vec<u8>>>(Ok(response));
    assert!(r.publish);
    assert_eq!(r.bytes, b"HTTP/1.1 200 OK\r\ncontent-length: 2\r\n\r\nOK\r\n".to_vec());
}

#[test]
fn handler_error_gives_internal_error_with_text() {
    let r = reply::<Vec<u8>>(Err(b"boom".to_vec()));
    assert!(!r.publish);
    assert!(r.bytes.starts_with(b"HTTP/1.1 500 Internal Server Error\r\n"));
    assert!(contains(&r.bytes, b"boom"));
    assert!(r.bytes.ends_with(b"ERROR: boom\r\n"));
}

#[test]
fn missing_terminator_gives_failure_with_decode_text() {
    let e = decode_request(b"GET /foo HTTP/1.1\r\nHost: x\r\n").err().unwrap();
    assert!(matches!(e, DecodeError::Incomplete));
    let r = reply_to_decode_error(&e);
    assert!(!r.publish);
    assert!(r.bytes.starts_with(b"HTTP/1.1 500 "));
    assert!(contains(&r.bytes, &e.message()));
    assert!(contains(&r.bytes, b"incomplete request head"));
}

#[test]
fn malformed_request_line_is_rejected() {
    for input in [
        &b"GET /foo HTTP/1.0\r\n\r\n"[..],
        b"G(T /foo HTTP/1.1\r\n\r\n",
        b"GET HTTP/1.1\r\n\r\n",
        b"GET /foo HTTP/1.1\r\nHost x\r\n\r\n",
        b"GET /foo HTTP/1.1\r\nHost:x\r\n\r\n",
    ] {
        let e = decode_request(input).err().unwrap();
        assert!(matches!(e, DecodeError::Malformed));
        let r = reply_to_decode_error(&e);
        assert!(contains(&r.bytes, b"malformed request head"));
    }
}

#[test]
fn decode_then_encode_gives_back_the_head() {
    let input = b"POST /a/b?c=d HTTP/1.1\r\nHost: example\r\nX-Two: one two\r\nEmpty: \r\n\r\nbody bytes";
    let req = decode_request(input).ok().unwrap();
    let head = encode_request_head(&req);
    assert_eq!(&input[..head.len()], &head[..]);
    assert_eq!(&input[head.len()..], &req.body[..]);
    assert_eq!(req.body, b"body bytes".to_vec());
    assert_eq!(req.headers.len(), 3);
    assert_eq!(req.headers[2].value, Vec::<u8>::new());
}

#[test]
fn typed_request_keeps_fields() {
    let req = Request::<Vec<u8>>::from_request(b"PUT /x HTTP/1.1\r\n\r\nabc").ok().unwrap();
    assert_eq!(req.method, b"PUT".to_vec());
    assert_eq!(req.body, b"abc".to_vec());
    let unit = Request::<()>::from_request(b"PUT /x HTTP/1.1\r\n\r\nabc").ok().unwrap();
    assert_eq!(unit.path, b"/x".to_vec());
    assert!(matches!(
        Request::<()>::from_request(b"PUT /x HTTP/1.1\r\n").err().unwrap(),
        DecodeError::Incomplete
    ));
}

#[test]
fn given_content_length_is_not_repeated() {
    let hs = vec![header("Content-Length", "9")];
    let out = encode_response_bytes(404, &hs, b"nope");
    assert_eq!(out, b"HTTP/1.1 404 Not Found\r\nContent-Length: 9\r\n\r\nnope\r\n".to_vec());
}

#[test]
fn unknown_status_has_unknown_reason() {
    let out = encode_response_bytes(799, &Vec::new(), b"");
    assert_eq!(out, b"HTTP/1.1 799 UNKNOWN\r\ncontent-length: 0\r\n\r\n\r\n".to_vec());
}

#[test]
fn decimal_digits() {
    assert_eq!(decimal_bytes(0), b"0".to_vec());
    assert_eq!(decimal_bytes(7), b"7".to_vec());
    assert_eq!(decimal_bytes(1024), b"1024".to_vec());
}

#[test]
fn failure_response_fields() {
    let f = failure_response(b"x");
    assert_eq!(f.status, 500);
    assert!(f.headers.is_empty());
    assert_eq!(f.body, b"ERROR: x".to_vec());
    assert_eq!(
        f.into_response(),
        b"HTTP/1.1 500 Internal Server Error\r\ncontent-length: 8\r\n\r\nERROR: x\r\n".to_vec()
    );
}

#[test]
fn frame_goes_to_every_subscriber_in_order() {
    let mut api = Api::new();
    for k in 0..3usize {
        match api.step(Event::SubscriberAccepted) {
            Action::Register(i) => assert_eq!(i, k),
            _ => panic!("subscriber not registered"),
        }
    }
    assert!(matches!(api.step(Event::FrameReady(b"F".to_vec())), Action::Ignore));
    assert_eq!(api.pending(), 1);
    match api.step(Event::DeliveryDue) {
        Action::Deliver(d) => {
            assert_eq!(d.frame, b"F".to_vec());
            assert_eq!(d.targets, vec![0, 1, 2]);
        }
        _ => panic!("frame not delivered"),
    }
    assert_eq!(api.pending(), 0);
    assert!(matches!(api.step(Event::DeliveryDue), Action::Ignore));
    let mut none = Api::new();
    none.step(Event::FrameReady(b"G".to_vec()));
    match none.step(Event::DeliveryDue) {
        Action::Deliver(d) => assert!(d.targets.is_empty()),
        _ => panic!("frame not drained"),
    }
}

#[test]
fn loop_holds_a_frame_while_the_queue_is_full() {
    let mut st = Standard::new();
    for i in 0..QUEUE_CAPACITY {
        assert!(matches!(st.step(Event::FrameReady(vec![i as u8])), Action::Ignore));
    }
    match st.step(Event::FrameReady(vec![200])) {
        Action::Hold(f) => assert_eq!(f, vec![200]),
        _ => panic!("33rd frame not held"),
    }
    assert_eq!(st.pending(), 32);
    match st.step(Event::DeliveryDue) {
        Action::Deliver(d) => assert_eq!(d.frame, vec![0]),
        _ => panic!("no delivery"),
    }
    assert!(matches!(st.step(Event::FrameReady(vec![200])), Action::Ignore));
}

#[test]
fn late_subscriber_gets_only_later_frames() {
    let mut b = Broadcast::new();
    assert_eq!(b.register(), 0);
    assert!(matches!(b.publish(b"F1".to_vec()), Publish::Queued));
    let d1 = b.drain().unwrap();
    assert_eq!(d1.frame, b"F1".to_vec());
    assert_eq!(d1.targets, vec![0]);
    let s = b.register();
    assert!(matches!(b.publish(b"F2".to_vec()), Publish::Queued));
    let d2 = b.drain().unwrap();
    assert_eq!(d2.frame, b"F2".to_vec());
    assert!(!d1.targets.contains(&s));
    assert!(d2.targets.contains(&s));
    assert!(b.drain().is_none());
}

#[test]
fn full_queue_hands_the_frame_back() {
    let mut b = Broadcast::new();
    for i in 0..QUEUE_CAPACITY {
        assert!(matches!(b.publish(vec![i as u8]), Publish::Queued));
    }
    assert_eq!(b.len(), 32);
    match b.publish(vec![99]) {
        Publish::Full(f) => assert_eq!(f, vec![99]),
        Publish::Queued => panic!("33rd frame queued"),
    }
    assert_eq!(b.len(), 32);
    assert_eq!(b.drain().unwrap().frame, vec![0]);
    assert!(matches!(b.publish(vec![99]), Publish::Queued));
    for i in 1..QUEUE_CAPACITY {
        assert_eq!(b.drain().unwrap().frame, vec![i as u8]);
    }
    assert_eq!(b.drain().unwrap().frame, vec![99]);
}

#[test]
fn shutdown_stops_both_loops() {
    let mut api = Api::new();
    api.step(Event::SubscriberAccepted);
    match api.step(Event::Shutdown) {
        Action::Stop(t) => {
            assert!(t == Termination::Signal);
            assert_eq!(t.message(), b"Received SIGTERM".to_vec());
        }
        _ => panic!("api loop kept running"),
    }
    let mut std_loop = Standard::new();
    assert!(matches!(std_loop.step(Event::Shutdown), Action::Stop(Termination::Signal)));
    assert!(matches!(std_loop.step(Event::UpstreamRead(5)), Action::Handle));
    match std_loop.step(Event::UpstreamRead(0)) {
        Action::Stop(t) => {
            assert!(t == Termination::UpstreamClosed);
            assert_eq!(t.message(), b"Input connection dropped".to_vec());
        }
        _ => panic!("closed upstream not fatal"),
    }
    assert!(matches!(std_loop.step(Event::RequestAccepted), Action::Ignore));
    let mut failed = Standard::new();
    match failed.step(Event::UpstreamFailed) {
        Action::Stop(t) => {
            assert!(t == Termination::UpstreamFailed);
            assert_eq!(t.message(), b"Input connection failed".to_vec());
        }
        _ => panic!("failed upstream read not fatal"),
    }
    assert!(matches!(api.step(Event::UpstreamFailed), Action::Ignore));
    assert!(matches!(api.step(Event::RequestAccepted), Action::Handle));
}

#[test]
fn json_wrapper_gives_its_value() {
    let j = Json(5u32);
    assert_eq!(*j.deref(), 5);
    assert_eq!(j.into_inner(), 5);
}

#[test]
fn body_decode_error_is_reported_with_its_text() {
    let ok = Request::<String>::from_request(b"GET / HTTP/1.1\r\n\r\nh\xc3\xa9").ok().unwrap();
    assert_eq!(ok.body, "h\u{e9}".to_string());
    let e = glide::service::decode_typed::<String>(b"GET / HTTP/1.1\r\n\r\n\xff").err().unwrap();
    match &e {
        DecodeError::Body(m) => assert_eq!(m, &b"invalid UTF-8".to_vec()),
        _ => panic!("wrong error"),
    }
    let r = reply_to_decode_error(&e);
    assert!(r.bytes.starts_with(b"HTTP/1.1 500 "));
    assert!(contains(&r.bytes, b"ERROR: invalid UTF-8"));
}

#[test]
fn from_body_error_text() {
    let e = glide::service::FromBodyError(b"bad".to_vec());
    assert_eq!(e.to_text(), b"ERROR: bad".to_vec());
}

#[test]
fn no_line_end_at_all_is_incomplete() {
    assert!(matches!(decode_request(b"GET /foo").err().unwrap(), DecodeError::Incomplete));
    assert!(matches!(decode_request(b"").err().unwrap(), DecodeError::Incomplete));
}

#[test]
fn encode_then_decode_gives_back_the_fields() {
    let req = Request {
        method: b"DELETE".to_vec(),
        path: b"/items/7".to_vec(),
        headers: vec![header("Accept", "*/*"), header("X-Id", "a:b c")],
        body: b"{}".to_vec(),
    };
    let mut bytes = encode_request_head(&req);
    assert_eq!(bytes, b"DELETE /items/7 HTTP/1.1\r\nAccept: */*\r\nX-Id: a:b c\r\n\r\n".to_vec());
    bytes.extend_from_slice(&req.body);
    let back = decode_request(&bytes).ok().unwrap();
    assert_eq!(back.method, req.method);
    assert_eq!(back.path, req.path);
    assert_eq!(back.headers.len(), 2);
    for (a, b) in back.headers.iter().zip(req.headers.iter()) {
        assert_eq!(a.name, b.name);
        assert_eq!(a.value, b.value);
    }
    assert_eq!(back.body, req.body);
}

#[test]
fn unit_and_raw_bodies_always_read() {
    assert!(<() as FromBody>::from_body(b"anything").is_ok());
    assert_eq!(<Vec<u8> as FromBody>::from_body(b"raw").ok().unwrap(), b"raw".to_vec());
    assert_eq!(Vec::<u8>::from_request(b"GET").ok().unwrap(), b"GET".to_vec());
    assert_eq!(String::from_request(b"abc").ok().unwrap(), "abc".to_string());
    assert!(matches!(String::from_request(b"\xfe").err().unwrap(), DecodeError::Body(_)));
}

use stratum_pool::codec::{encode, decode, decode_lenient, StratumCodec, FrameResult, BoxedType, MAX_FRAME};
use stratum_pool::message::{StratumMessage, ResponseParams, ErrorObject};

fn roundtrip(m: StratumMessage) -> (Vec<u8>, StratumMessage) {
    let wire = encode(&m);
    let back = decode(&wire).expect("a canonical frame must decode");
    let wire2 = encode(&back);
    assert_eq!(wire, wire2);
    (wire, back)
}

#[test]
fn subscribe_roundtrip() {
    let m = StratumMessage::Subscribe(
        7,
        b"prover/1.2".to_vec(),
        b"3.0.0".to_vec(),
        Some(b"sess-9".to_vec()),
    );
    let (wire, back) = roundtrip(m);
    assert_eq!(
        wire,
        b"{\"method\":\"mining.subscribe\",\"id\":7,\"params\":[\"prover/1.2\",\"3.0.0\",\"sess-9\"]}"
            .to_vec()
    );
    match back {
        StratumMessage::Subscribe(id, ua, pv, sid) => {
            assert_eq!(id, 7);
            assert_eq!(ua, b"prover/1.2".to_vec());
            assert_eq!(pv, b"3.0.0".to_vec());
            assert_eq!(sid, Some(b"sess-9".to_vec()));
        }
        _ => panic!("wrong variant"),
    }
}

#[test]
fn subscribe_null_session_roundtrip() {
    let m = StratumMessage::Subscribe(0, b"ua".to_vec(), b"3.0.0".to_vec(), None);
    let (wire, _) = roundtrip(m);
    assert_eq!(
        wire,
        b"{\"method\":\"mining.subscribe\",\"id\":0,\"params\":[\"ua\",\"3.0.0\",null]}".to_vec()
    );
}

#[test]
fn authorize_roundtrip() {
    let m = StratumMessage::Authorize(1, b"aleo1xyz.worker".to_vec(), b"pw".to_vec());
    let (wire, _) = roundtrip(m);
    assert_eq!(
        wire,
        b"{\"method\":\"mining.authorize\",\"id\":1,\"params\":[\"aleo1xyz.worker\",\"pw\"]}"
            .to_vec()
    );
}

#[test]
fn submit_roundtrip() {
    let m = StratumMessage::Submit(
        42,
        b"aleo1xyz".to_vec(),
        b"0000002a".to_vec(),
        b"deadbeef".to_vec(),
    );
    let (wire, _) = roundtrip(m);
    assert_eq!(
        wire,
        b"{\"method\":\"mining.submit\",\"id\":42,\"params\":[\"aleo1xyz\",\"0000002a\",\"deadbeef\"]}"
            .to_vec()
    );
}

#[test]
fn set_target_roundtrip() {
    let m = StratumMessage::SetTarget(512);
    let (wire, back) = roundtrip(m);
    assert_eq!(
        wire,
        b"{\"method\":\"mining.set_target\",\"params\":[512]}".to_vec()
    );
    match back {
        StratumMessage::SetTarget(t) => assert_eq!(t, 512),
        _ => panic!("wrong variant"),
    }
}

#[test]
fn notify_roundtrip() {
    let m = StratumMessage::Notify(
        b"0000002a".to_vec(),
        b"aaaa".to_vec(),
        Some(b"aleo1pool".to_vec()),
        true,
    );
    let (wire, _) = roundtrip(m);
    assert_eq!(
        wire,
        b"{\"method\":\"mining.notify\",\"params\":[\"0000002a\",\"aaaa\",\"aleo1pool\",true]}"
            .to_vec()
    );
    let m2 = StratumMessage::Notify(b"ff".to_vec(), b"bb".to_vec(), None, false);
    roundtrip(m2);
}

#[test]
fn response_roundtrips() {
    let (wire, _) = roundtrip(StratumMessage::Response(
        9,
        Some(ResponseParams::Bool(true)),
        None,
    ));
    assert_eq!(wire, b"{\"id\":9,\"result\":true}".to_vec());

    roundtrip(StratumMessage::Response(
        10,
        Some(ResponseParams::Bool(false)),
        None,
    ));

    let (wire3, _) = roundtrip(StratumMessage::Response(
        11,
        Some(ResponseParams::Subscribe(b"sess".to_vec(), None)),
        None,
    ));
    assert_eq!(wire3, b"{\"id\":11,\"result\":[\"sess\",null]}".to_vec());

    let (wire4, _) = roundtrip(StratumMessage::Response(
        12,
        None,
        Some(ErrorObject { code: -32003, message: b"Duplicate share".to_vec() }),
    ));
    assert_eq!(
        wire4,
        b"{\"id\":12,\"error\":{\"code\":-32003,\"message\":\"Duplicate share\"}}".to_vec()
    );
}

#[test]
fn decode_rejects_malformed() {
    assert!(decode(&b"".to_vec()).is_none());
    assert!(decode(&b"{\"method\":\"mining.set_target\",\"params\":[]}".to_vec()).is_none());
    assert!(decode(&b"{\"method\":\"mining.set_target\",\"params\":[01]}".to_vec()).is_none());
    assert!(decode(&b"{\"method\":\"mining.unknown\",\"id\":1}".to_vec()).is_none());
    assert!(decode(&b"{\"id\":3,\"result\":true} ".to_vec()).is_none());
}

#[test]
fn framer_splits_lines() {
    let mut c = StratumCodec::new();
    c.push_bytes(&b"{\"id\":9,\"result\":true}\n{\"method\":\"mining.set_t".to_vec());
    match c.next_frame() {
        FrameResult::Frame(line) => assert_eq!(line, b"{\"id\":9,\"result\":true}".to_vec()),
        _ => panic!("expected a frame"),
    }
    match c.next_frame() {
        FrameResult::Pending => {}
        _ => panic!("expected pending"),
    }
    c.push_bytes(&b"arget\",\"params\":[1]}\n".to_vec());
    match c.next_frame() {
        FrameResult::Frame(line) => {
            assert!(decode(&line).is_some());
        }
        _ => panic!("expected a frame"),
    }
}

#[test]
fn framer_rejects_oversized_frames() {
    let mut c = StratumCodec::new();
    let big = vec![b'x'; MAX_FRAME + 1];
    c.push_bytes(&big);
    c.push_bytes(&b"\n".to_vec());
    match c.next_frame() {
        FrameResult::TooLong => {}
        _ => panic!("expected too-long"),
    }
}

#[test]
fn encode_frame_appends_newline() {
    let c = StratumCodec::new();
    let wire = c.encode_frame(&StratumMessage::SetTarget(1));
    assert_eq!(wire, b"{\"method\":\"mining.set_target\",\"params\":[1]}\n".to_vec());
}

#[test]
fn boxed_types_serialize() {
    assert_eq!(b"abc".to_vec().to_json(), b"\"abc\"".to_vec());
    assert_eq!(Some(512u64).to_json(), b"512".to_vec());
    assert_eq!(None::<u64>.to_json(), b"null".to_vec());
    assert_eq!(Some(b"np".to_vec()).to_json(), b"\"np\"".to_vec());
    assert_eq!(None::<Vec<u8>>.to_json(), b"null".to_vec());
}

#[test]
fn lenient_decode_ignores_whitespace_outside_strings() {
    let wire = b"{ \"method\": \"mining.set_target\", \"params\": [512] }".to_vec();
    match decode_lenient(&wire) {
        Some(StratumMessage::SetTarget(t)) => assert_eq!(t, 512),
        _ => panic!("whitespace-padded frame must decode"),
    }
    // blanks inside a string stay significant
    let wire2 = b"{\"method\":\"mining.subscribe\",\"id\":1,\"params\":[\"my agent\",\"3.0.0\",null]}"
        .to_vec();
    match decode_lenient(&wire2) {
        Some(StratumMessage::Subscribe(_, ua, _, _)) => assert_eq!(ua, b"my agent".to_vec()),
        _ => panic!("a space inside a string must survive"),
    }
}

#[test]
fn oversized_frame_leaves_the_buffer_alone() {
    let mut c = StratumCodec::new();
    c.push_bytes(&vec![b'x'; MAX_FRAME + 1]);
    assert!(matches!(c.next_frame(), FrameResult::TooLong));
    // the refusal does not consume anything: the state is unchanged
    assert!(matches!(c.next_frame(), FrameResult::TooLong));
}

use btm::{server_parse, server_reply, BtmErr, ClientCall, Req, Resp, RETRY_CNT};

#[test]
fn request_encodes_as_compact_json() {
    let req = Req::new(7);
    assert_eq!(req.idx(), 7);
    assert_eq!(req.to_bytes(), b"{\"idx\":7}".to_vec());
    assert_eq!(Req::new(0).to_bytes(), b"{\"idx\":0}".to_vec());
    assert_eq!(
        Req::new(u64::MAX).to_bytes(),
        b"{\"idx\":18446744073709551615}".to_vec()
    );
}

#[test]
fn reply_encodes_as_compact_json() {
    let resp = Resp::new(7, true);
    assert_eq!(resp.idx(), 7);
    assert!(resp.success());
    assert_eq!(resp.to_bytes(), b"{\"idx\":7,\"success\":true}".to_vec());
    assert_eq!(
        Resp::new(9, false).to_bytes(),
        b"{\"idx\":9,\"success\":false}".to_vec()
    );
}

#[test]
fn messages_fit_one_datagram() {
    assert!(Req::new(u64::MAX).to_bytes().len() <= 128);
    assert!(Resp::new(u64::MAX, false).to_bytes().len() <= 128);
}

#[test]
fn encoded_messages_are_real_json() {
    let rb = Req::new(7).to_bytes();
    let v: serde_json::Value = serde_json::from_slice(&rb).unwrap();
    assert_eq!(v["idx"].as_u64(), Some(7));

    let pb = Resp::new(42, true).to_bytes();
    let w: serde_json::Value = serde_json::from_slice(&pb).unwrap();
    assert_eq!(w["idx"].as_u64(), Some(42));
    assert_eq!(w["success"].as_bool(), Some(true));
}

#[test]
fn request_round_trips() {
    for idx in [0u64, 1, 7, 10, 4096, u64::MAX] {
        let bytes = Req::new(idx).to_bytes();
        let back = Req::from_bytes(&bytes).unwrap();
        assert_eq!(back.idx(), idx);
    }
}

#[test]
fn reply_round_trips() {
    for idx in [0u64, 7, u64::MAX] {
        for success in [true, false] {
            let bytes = Resp::new(idx, success).to_bytes();
            let back = Resp::from_bytes(&bytes).unwrap();
            assert_eq!(back.idx(), idx);
            assert_eq!(back.success(), success);
        }
    }
}

#[test]
fn malformed_messages_are_rejected() {
    assert!(Req::from_bytes(b"").is_none());
    assert!(Req::from_bytes(b"{\"idx\":}").is_none());
    assert!(Req::from_bytes(b"{\"idx\":07}").is_none());
    assert!(Req::from_bytes(b"{\"idx\":7} ").is_none());
    assert!(Req::from_bytes(b"{\"idx\":99999999999999999999}").is_none());
    assert!(Resp::from_bytes(b"{\"idx\":7}").is_none());
    assert!(Resp::from_bytes(b"{\"idx\":7,\"success\":maybe}").is_none());
    assert!(Resp::from_bytes(b"nonsense").is_none());
}

#[test]
fn matching_reply_completes_the_call() {
    let call = ClientCall::new(7);
    let reply = Resp::new(7, true).to_bytes();
    assert_eq!(call.on_msg(&reply), Some(true));
    let failed = Resp::new(7, false).to_bytes();
    assert_eq!(call.on_msg(&failed), Some(false));
}

#[test]
fn stale_reply_is_discarded() {
    let call = ClientCall::new(7);
    let stale = Resp::new(8, true).to_bytes();
    assert_eq!(call.on_msg(&stale), None);
    assert_eq!(call.on_msg(b"garbage"), None);
}

#[test]
fn retry_budget_exhausts_after_twenty_timeouts() {
    let mut call = ClientCall::new(7);
    let mut rounds: u64 = 0;
    loop {
        rounds += 1;
        match call.on_timeout() {
            None => assert!(rounds < RETRY_CNT),
            Some(e) => {
                assert_eq!(e, BtmErr::ProtocolTimeout);
                break;
            }
        }
    }
    assert_eq!(rounds, RETRY_CNT);
}

#[test]
fn server_answers_what_it_parses() {
    let wire = Req::new(7).to_bytes();
    assert_eq!(server_parse(&wire), Some(7));
    assert_eq!(server_parse(b"{\"idx\":oops}"), None);
    assert_eq!(server_reply(7, true), b"{\"idx\":7,\"success\":true}".to_vec());
    assert_eq!(
        server_reply(7, false),
        b"{\"idx\":7,\"success\":false}".to_vec()
    );
}

#[test]
fn serde_produced_messages_decode() {
    // a peer that serializes its messages with serde_json produces exactly
    // the canonical bytes this codec accepts
    let mut req = serde_json::Map::new();
    req.insert(String::from("idx"), serde_json::Value::from(7u64));
    let wire = serde_json::to_vec(&serde_json::Value::Object(req)).unwrap();
    assert_eq!(server_parse(&wire), Some(7));

    let mut resp = serde_json::Map::new();
    resp.insert(String::from("idx"), serde_json::Value::from(7u64));
    resp.insert(String::from("success"), serde_json::Value::from(true));
    let wire = serde_json::to_vec(&serde_json::Value::Object(resp)).unwrap();
    let p = Resp::from_bytes(&wire).unwrap();
    assert_eq!(p.idx(), 7);
    assert!(p.success());
}

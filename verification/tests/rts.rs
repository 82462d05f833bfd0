use tsgu_rpc::pdu::{CommonHeader, PType};
use tsgu_rpc::rts::{
    cmd_u32, conn_a1, conn_b1, flow_control_ack, is_ping, parse_conn_a3, parse_conn_c2, ping,
    rts_header, rts_pdu, Action, Cookie, Event, Handshake, Phase, Side, CMD_CONNECTION_TIMEOUT,
    CMD_DESTINATION, CMD_FLOW_CONTROL_ACK, CMD_RECEIVE_WINDOW_SIZE, CMD_VERSION, FD_OUT_PROXY,
    FLOW_CONTROL_ACK_THRESHOLD, IN_CHANNEL_CONTENT_LENGTH, RECEIVE_WINDOW_SIZE, RTS_FLAG_NONE,
    RTS_FLAG_OTHER_CMD, RTS_FLAG_PING,
};

fn zero_cookie() -> Cookie {
    Cookie([0u8; 16])
}

#[test]
fn conn_a1_is_76_bytes_with_4_commands() {
    let pdu = conn_a1(&zero_cookie(), &zero_cookie());
    assert_eq!(pdu.len(), 76);
    let (flags, num, _) = rts_header(&pdu).unwrap();
    assert_eq!(flags, RTS_FLAG_NONE);
    assert_eq!(num, 4);
    // frag_length in the header matches the actual length.
    let h = CommonHeader::decode(&pdu).unwrap();
    assert_eq!(h.frag_length as usize, pdu.len());
    assert_eq!(h.ptype, PType::Rts);
}

#[test]
fn conn_b1_is_104_bytes_with_6_commands() {
    let pdu = conn_b1(&zero_cookie(), &zero_cookie(), &zero_cookie());
    assert_eq!(pdu.len(), 104);
    let (_, num, _) = rts_header(&pdu).unwrap();
    assert_eq!(num, 6);
}

#[test]
fn parses_a_synthetic_conn_a3() {
    // Build a CONN/A3 the way a server would and round-trip it.
    let pdu = rts_pdu(RTS_FLAG_NONE, &[cmd_u32(CMD_CONNECTION_TIMEOUT, 240_000)]);
    let a3 = parse_conn_a3(&pdu).unwrap();
    assert_eq!(a3.connection_timeout, 240_000);
}

#[test]
fn parses_a_synthetic_conn_c2() {
    let pdu = rts_pdu(
        RTS_FLAG_NONE,
        &[
            cmd_u32(CMD_VERSION, 1),
            cmd_u32(CMD_RECEIVE_WINDOW_SIZE, 0x0004_0000),
            cmd_u32(CMD_CONNECTION_TIMEOUT, 120_000),
        ],
    );
    let c2 = parse_conn_c2(&pdu).unwrap();
    assert_eq!(c2.version, 1);
    assert_eq!(c2.receive_window_size, 0x0004_0000);
    assert_eq!(c2.connection_timeout, 120_000);
}

#[test]
fn flow_control_ack_is_56_bytes_well_formed() {
    let pdu = flow_control_ack(&zero_cookie(), 0x1234);
    assert_eq!(pdu.len(), 56);
    let h = CommonHeader::decode(&pdu).unwrap();
    assert_eq!(h.ptype, PType::Rts);
    assert_eq!(h.frag_length as usize, pdu.len());
    let (flags, num, mut cur) = rts_header(&pdu).unwrap();
    assert_eq!(flags, RTS_FLAG_OTHER_CMD);
    assert_eq!(num, 2);
    // Command 1: Destination = FDOutProxy.
    assert_eq!(cur.u32_le().unwrap(), CMD_DESTINATION);
    assert_eq!(cur.u32_le().unwrap(), FD_OUT_PROXY);
    // Command 2: FlowControlAck { BytesReceived, AvailableWindow, cookie }.
    assert_eq!(cur.u32_le().unwrap(), CMD_FLOW_CONTROL_ACK);
    assert_eq!(cur.u32_le().unwrap(), 0x1234);
    assert_eq!(cur.u32_le().unwrap(), RECEIVE_WINDOW_SIZE);
}

#[test]
fn ping_is_20_bytes_and_detected() {
    let pdu = ping();
    assert_eq!(pdu.len(), 20);
    let (flags, num, _) = rts_header(&pdu).unwrap();
    assert_eq!(flags, RTS_FLAG_PING);
    assert_eq!(num, 0);
    assert!(is_ping(&pdu));
    // A CONN PDU (flags NONE) is not a ping.
    assert!(!is_ping(&conn_a1(&zero_cookie(), &zero_cookie())));
}

#[test]
fn rejects_wrong_shape() {
    // A3 parser must reject a 3-command PDU.
    let pdu = rts_pdu(
        RTS_FLAG_NONE,
        &[
            cmd_u32(CMD_VERSION, 1),
            cmd_u32(CMD_VERSION, 1),
            cmd_u32(CMD_VERSION, 1),
        ],
    );
    assert!(parse_conn_a3(&pdu).is_err());
}

#[test]
fn an_ack_is_no_ping_and_neither_is_a_stump() {
    assert!(!is_ping(&flow_control_ack(&zero_cookie(), 1)));
    assert!(!is_ping(&ping()[..17]));
    assert!(is_ping(&ping()[..18]));
}

#[test]
fn half_the_window_is_the_ack_threshold() {
    assert_eq!(FLOW_CONTROL_ACK_THRESHOLD, 0x8000);
}

#[test]
fn cookies_go_where_they_belong() {
    let pdu = conn_a1(&Cookie([1; 16]), &Cookie([2; 16]));
    assert_eq!(&pdu[28..48], &[&[3, 0, 0, 0][..], &[1; 16][..]].concat()[..]);
    assert_eq!(&pdu[48..68], &[&[3, 0, 0, 0][..], &[2; 16][..]].concat()[..]);
    let pdu = conn_b1(&Cookie([1; 16]), &Cookie([2; 16]), &Cookie([3; 16]));
    assert_eq!(&pdu[28..48], &[&[3, 0, 0, 0][..], &[1; 16][..]].concat()[..]);
    assert_eq!(&pdu[48..68], &[&[3, 0, 0, 0][..], &[2; 16][..]].concat()[..]);
    assert_eq!(&pdu[84..104], &[&[12, 0, 0, 0][..], &[3; 16][..]].concat()[..]);
}

#[test]
fn random_cookies_differ() {
    let a = Cookie::random().unwrap();
    let b = Cookie::random().unwrap();
    assert_ne!(a.0, [0u8; 16]);
    assert_ne!(a.0, b.0);
}

#[test]
fn a_failed_draw_is_reported() {
    assert_eq!(Cookie::from_random(Ok([7; 16])).unwrap().0, [7; 16]);
    let e = Cookie::from_random(Err("no entropy".to_owned())).err().unwrap();
    assert_eq!(e.message(), "gateway: cookie rng: no entropy");
}

#[test]
fn parse_errors_name_the_fault() {
    let c2 = |commands: &[Vec<u8>]| {
        parse_conn_c2(&rts_pdu(RTS_FLAG_NONE, commands)).unwrap_err().message()
    };
    assert_eq!(
        c2(&[cmd_u32(CMD_VERSION, 1)]),
        "gateway: CONN/C2 shape mismatch: flags=0x0000 commands=1"
    );
    assert_eq!(
        parse_conn_a3(&ping()).unwrap_err().message(),
        "gateway: CONN/A3 shape mismatch: flags=0x0001 commands=0"
    );
    assert_eq!(
        c2(&[
            cmd_u32(CMD_VERSION, 1),
            cmd_u32(CMD_CONNECTION_TIMEOUT, 1),
            cmd_u32(CMD_CONNECTION_TIMEOUT, 1),
        ]),
        "gateway: CONN/C2 ReceiveWindowSize: expected command 0x0, got 0x2"
    );
    assert_eq!(
        c2(&[cmd_u32(CMD_VERSION, 1), cmd_u32(CMD_RECEIVE_WINDOW_SIZE, 1), vec![2, 0, 0, 0]]),
        "gateway: PDU underrun: need 4, have 0"
    );
    let mut bind = Vec::new();
    CommonHeader::new(PType::Bind, 3, 16, 0, 0).encode(&mut bind);
    assert_eq!(
        parse_conn_a3(&bind).unwrap_err().message(),
        "gateway: expected RTS PDU, got Bind"
    );
}

fn handshake() -> Handshake {
    Handshake::new(Cookie([1; 16]), Cookie([2; 16]), Cookie([3; 16]), Cookie([4; 16]))
}

#[test]
fn the_handshake_opens_with_what_c2_says() {
    let mut h = handshake();
    assert!(matches!(
        h.action(),
        Action::Authenticate { side: Side::Out, content_length: 76 }
    ));
    assert!(h.on_event(Event::Done).is_ok());
    match h.action() {
        Action::Write { side: Side::Out, pdu } => {
            assert_eq!(pdu, conn_a1(&Cookie([1; 16]), &Cookie([2; 16])))
        }
        other => panic!("{other:?}"),
    }
    assert!(h.on_event(Event::Done).is_ok());
    match h.action() {
        Action::Authenticate { side: Side::In, content_length } => {
            assert_eq!(content_length, IN_CHANNEL_CONTENT_LENGTH)
        }
        other => panic!("{other:?}"),
    }
    assert!(h.on_event(Event::Done).is_ok());
    match h.action() {
        Action::Write { side: Side::In, pdu } => {
            assert_eq!(pdu, conn_b1(&Cookie([1; 16]), &Cookie([3; 16]), &Cookie([4; 16])))
        }
        other => panic!("{other:?}"),
    }
    assert!(h.on_event(Event::Done).is_ok());
    assert!(matches!(h.action(), Action::ReceiveHead));
    assert!(h.on_event(Event::Head { status: 200, reason: "OK".to_owned() }).is_ok());
    assert!(matches!(h.action(), Action::ReadPdu));
    let a3 = rts_pdu(RTS_FLAG_NONE, &[cmd_u32(CMD_CONNECTION_TIMEOUT, 1)]);
    assert!(h.on_event(Event::Pdu(a3)).is_ok());
    assert!(matches!(h.action(), Action::ReadPdu));
    assert!(h.open((), ()).is_none());
    let c2 = rts_pdu(
        RTS_FLAG_NONE,
        &[
            cmd_u32(CMD_VERSION, 1),
            cmd_u32(CMD_RECEIVE_WINDOW_SIZE, 0x0001_0000),
            cmd_u32(CMD_CONNECTION_TIMEOUT, 120_000),
        ],
    );
    assert!(h.on_event(Event::Pdu(c2)).is_ok());
    assert!(matches!(h.action(), Action::Finished));
    let vc = h.open("in", "out").unwrap();
    assert_eq!(vc.in_channel, "in");
    assert_eq!(vc.out_channel, "out");
    assert_eq!(vc.connection_timeout, 120_000);
    assert_eq!(vc.receive_window, 0x0001_0000);
    assert_eq!(vc.out_cookie.0, [2; 16]);
}

#[test]
fn a_refused_out_channel_ends_the_handshake() {
    let mut h = handshake();
    h.phase = Phase::AwaitHead;
    let e = h
        .on_event(Event::Head { status: 503, reason: "RPC Error: 6ba".to_owned() })
        .unwrap_err();
    assert_eq!(e.message(), "gateway: OUT channel not accepted: 503 RPC Error: 6ba");
    assert!(matches!(h.action(), Action::ReceiveHead));
}

#[test]
fn the_channels_have_their_methods() {
    assert_eq!(Side::Out.method(), "RPC_OUT_DATA");
    assert_eq!(Side::In.method(), "RPC_IN_DATA");
}

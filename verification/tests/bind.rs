use tsgu_rpc::auth::NtlmAuth;
use tsgu_rpc::bind::{
    auth3_from, build_auth3, build_bind, parse_bind_ack, push_sec_trailer, SecureBind, MAX_FRAG,
};
use tsgu_rpc::pdu::{CommonHeader, PType};
use tsgu_rpc::rts::{Cookie, VirtualConnection};

#[test]
fn bind_pdu_is_116_plus_token() {
    let token = vec![0xAAu8; 40];
    let pdu = build_bind(&token);
    // 116-byte body+header, 8-byte trailer, 40-byte token.
    assert_eq!(pdu.len(), 116 + 8 + 40);
    let h = CommonHeader::decode(&pdu).unwrap();
    assert_eq!(h.ptype, PType::Bind);
    assert_eq!(h.pfc_flags, 0x17);
    assert_eq!(h.auth_length as usize, token.len());
    assert_eq!(h.frag_length as usize, pdu.len());
    assert_eq!(h.call_id, 2);
    // n_context_elem at offset 24.
    assert_eq!(pdu[24], 2);
}

#[test]
fn auth3_pdu_is_20_plus_token() {
    let token = vec![0x55u8; 120];
    let pdu = build_auth3(&token);
    assert_eq!(pdu.len(), 20 + 8 + 120);
    let h = CommonHeader::decode(&pdu).unwrap();
    assert_eq!(h.ptype, PType::Auth3);
    assert_eq!(h.pfc_flags, 0x13);
    assert_eq!(h.auth_length as usize, token.len());
}

#[test]
fn parses_a_synthetic_bind_ack() {
    // Craft a bind_ack: header + minimal body + trailer + token.
    let token = vec![0x11u8; 32];
    let mut body = Vec::new();
    body.extend_from_slice(&0x0FF8u16.to_le_bytes()); // max_xmit @16
    body.extend_from_slice(&0x0FF8u16.to_le_bytes()); // max_recv @18
    body.extend_from_slice(&7u32.to_le_bytes()); // assoc_group_id
    body.extend_from_slice(&[0u8; 4]); // stand-in for sec_addr/results
    let frag = (CommonHeader::LEN + body.len() + 8 + token.len()) as u16;
    let mut pdu = Vec::new();
    CommonHeader::new(PType::BindAck, 0x03, frag, token.len() as u16, 2).encode(&mut pdu);
    pdu.extend_from_slice(&body);
    push_sec_trailer(&mut pdu, 0, &token);

    let ack = parse_bind_ack(&pdu).unwrap();
    assert_eq!(ack.type2, token);
    assert_eq!(ack.max_xmit_frag, 0x0FF8);
    assert_eq!(ack.max_recv_frag, 0x0FF8);
}

#[test]
fn rejects_bind_nak() {
    let mut pdu = Vec::new();
    CommonHeader::new(PType::BindNak, 0x03, 16, 0, 2).encode(&mut pdu);
    assert!(parse_bind_ack(&pdu).is_err());
}

fn ack_error(pdu: &[u8]) -> String {
    parse_bind_ack(pdu).err().unwrap().message()
}

#[test]
fn bind_ack_errors_name_the_fault() {
    let mut nak = Vec::new();
    CommonHeader::new(PType::BindNak, 0x03, 16, 0, 2).encode(&mut nak);
    assert_eq!(ack_error(&nak), "gateway: expected bind_ack, got BindNak (bind rejected?)");

    let mut bare = Vec::new();
    CommonHeader::new(PType::BindAck, 0x03, 16, 0, 2).encode(&mut bare);
    assert_eq!(ack_error(&bare), "gateway: bind_ack carried no NTLM challenge");

    let mut short = Vec::new();
    CommonHeader::new(PType::BindAck, 0x03, 40, 20, 2).encode(&mut short);
    short.extend_from_slice(&[0u8; 24]);
    assert_eq!(
        ack_error(&short),
        "gateway: bind_ack lengths inconsistent: frag=40 auth=20 len=40"
    );
    short.push(0);
    assert_eq!(
        ack_error(&short),
        "gateway: bind_ack lengths inconsistent: frag=40 auth=20 len=41"
    );
}

#[test]
fn the_bind_names_both_contexts() {
    let pdu = build_bind(&[]);
    // Context 0: TSGU 1.3 over NDR 2.0.
    assert_eq!(&pdu[28..32], &[0, 0, 1, 0]);
    assert_eq!(&pdu[32..36], &[0xDD, 0x65, 0xE2, 0x44]);
    assert_eq!(&pdu[48..52], &[1, 0, 3, 0]);
    assert_eq!(&pdu[52..56], &[0x04, 0x5D, 0x88, 0x8A]);
    assert_eq!(&pdu[68..72], &[2, 0, 0, 0]);
    // Context 1: TSGU with feature negotiation.
    assert_eq!(&pdu[72..76], &[1, 0, 1, 0]);
    assert_eq!(&pdu[96..100], &[0x2C, 0x1C, 0xB7, 0x6C]);
    assert_eq!(&pdu[112..116], &[1, 0, 0, 0]);
    // Trailer: NTLM, signed.
    assert_eq!(&pdu[116..124], &[0x0A, 5, 0, 0, 0, 0, 0, 0]);
}

#[test]
fn an_oversized_token_keeps_the_low_bits_of_its_length() {
    let token = vec![0u8; 0x1_0003];
    let h = CommonHeader::decode(&build_bind(&token)).unwrap();
    assert_eq!(h.auth_length, 3);
    assert_eq!(h.frag_length, 127);
    let h = CommonHeader::decode(&build_auth3(&token)).unwrap();
    assert_eq!(h.auth_length, 3);
    assert_eq!(h.frag_length, 31);
}

#[test]
fn an_incomplete_handshake_sends_no_auth3() {
    let e = auth3_from(Ok(vec![1, 2, 3]), false).unwrap_err();
    assert_eq!(
        e.message(),
        "gateway: NTLM did not complete after the bind_ack challenge"
    );
    assert_eq!(auth3_from(Ok(vec![1, 2, 3]), true).unwrap(), build_auth3(&[1, 2, 3]));
}

fn challenge() -> Vec<u8> {
    let mut c = b"NTLMSSP\0".to_vec();
    c.extend_from_slice(&2u32.to_le_bytes());
    c.extend_from_slice(&[0, 0, 0, 0, 48, 0, 0, 0]); // no target name
    c.extend_from_slice(&1u32.to_le_bytes()); // flags
    c.extend_from_slice(&[1, 2, 3, 4, 5, 6, 7, 8]); // server challenge
    c.extend_from_slice(&[0; 8]);
    c.extend_from_slice(&[4, 0, 4, 0, 48, 0, 0, 0]); // target info
    c.extend_from_slice(&[0; 4]); // end of list
    c
}

fn bind_ack(type2: &[u8], max_xmit_frag: u16, max_recv_frag: u16) -> Vec<u8> {
    let frag = (28 + 6 + type2.len()) as u16;
    let mut pdu = Vec::new();
    CommonHeader::new(PType::BindAck, 0x03, frag, type2.len() as u16, 2).encode(&mut pdu);
    pdu.extend_from_slice(&max_xmit_frag.to_le_bytes());
    pdu.extend_from_slice(&max_recv_frag.to_le_bytes());
    pdu.extend_from_slice(&[0xEE; 6]);
    push_sec_trailer(&mut pdu, 0, type2);
    pdu
}

#[test]
fn the_secure_bind_runs_its_three_legs() {
    let ntlm = NtlmAuth::new_dce("user", Some("DOMAIN"), "password").unwrap();
    let (leg, bind) = SecureBind::start(ntlm).unwrap();
    assert_eq!(CommonHeader::decode(&bind).unwrap().ptype, PType::Bind);
    assert_eq!(&bind[124..136], b"NTLMSSP\0\x01\0\0\0");
    assert!(!leg.ntlm.is_complete());

    let (leg, auth3) = leg.on_bind_ack(&bind_ack(&challenge(), 0x0FF9, 0x0800)).unwrap();
    assert_eq!(CommonHeader::decode(&auth3).unwrap().ptype, PType::Auth3);
    assert_eq!(&auth3[28..40], b"NTLMSSP\0\x03\0\0\0");
    assert!(leg.ntlm.is_complete());
    assert_eq!(leg.ack.type2, challenge());

    let vc = VirtualConnection {
        in_channel: (),
        out_channel: (),
        connection_timeout: 120_000,
        receive_window: 0x0001_0000,
        out_cookie: Cookie([9; 16]),
    };
    let rpc = leg.finish(vc);
    assert_eq!(rpc.call_id, 3);
    assert_eq!(rpc.max_xmit_frag, 0x0800);
    assert_eq!(rpc.max_recv_frag, MAX_FRAG);
    assert_eq!(rpc.vc.connection_timeout, 120_000);
    assert!(rpc.ntlm.is_complete());
    // From now on every request can be signed.
    let mut rpc = rpc;
    for id in 3..9 {
        assert_eq!(rpc.send_request(9, &[id as u8]).unwrap().0, id);
    }
}

#[test]
fn a_challenge_that_is_none_is_refused() {
    let ntlm = NtlmAuth::new_dce("user", None, "password").unwrap();
    let (leg, _) = SecureBind::start(ntlm).unwrap();
    let e = leg.on_bind_ack(&bind_ack(&[1, 2, 3], 1, 0xFFFF)).err().unwrap();
    assert!(e.message().starts_with("gateway: NTLM resolve: "));
    let ntlm = NtlmAuth::new_dce("user", None, "password").unwrap();
    let (leg, _) = SecureBind::start(ntlm).unwrap();
    let mut nak = Vec::new();
    CommonHeader::new(PType::BindNak, 0x03, 16, 0, 2).encode(&mut nak);
    assert_eq!(
        leg.on_bind_ack(&nak).err().unwrap().message(),
        "gateway: expected bind_ack, got BindNak (bind rejected?)"
    );
}

#[test]
fn a_context_that_has_begun_cannot_bind() {
    let mut ntlm = NtlmAuth::new_dce("user", None, "password").unwrap();
    ntlm.step(None).unwrap();
    let e = SecureBind::start(ntlm).err().unwrap();
    assert!(e.message().starts_with("gateway: NTLM resolve: "));
}

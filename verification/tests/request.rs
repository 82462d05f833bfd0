use tsgu_rpc::auth::NtlmAuth;
use tsgu_rpc::bind::{sec_trailer_header, BoundRpc};
use tsgu_rpc::error::GatewayError;
use tsgu_rpc::pdu::{pfc, CommonHeader, PType};
use tsgu_rpc::request::{
    build_and_sign_request, build_request, check_response, complete_request, response_stub,
    ResponseReader,
};
use tsgu_rpc::rts::{Cookie, VirtualConnection};

fn ready() -> NtlmAuth {
    let mut c = b"NTLMSSP\0".to_vec();
    c.extend_from_slice(&2u32.to_le_bytes());
    c.extend_from_slice(&[0, 0, 0, 0, 48, 0, 0, 0]);
    c.extend_from_slice(&1u32.to_le_bytes());
    c.extend_from_slice(&[1, 2, 3, 4, 5, 6, 7, 8]);
    c.extend_from_slice(&[0; 8]);
    c.extend_from_slice(&[4, 0, 4, 0, 48, 0, 0, 0]);
    c.extend_from_slice(&[0; 4]);
    let mut ntlm = NtlmAuth::new_dce("user", None, "password").unwrap();
    ntlm.step(None).unwrap();
    ntlm.step(Some(&c)).unwrap();
    ntlm
}

fn bound(ntlm: NtlmAuth) -> BoundRpc<()> {
    let vc = VirtualConnection {
        in_channel: (),
        out_channel: (),
        connection_timeout: 120_000,
        receive_window: 0x0001_0000,
        out_cookie: Cookie([9; 16]),
    };
    BoundRpc { vc, ntlm, call_id: 3, max_xmit_frag: 0x0FF8, max_recv_frag: 0x0FF8 }
}

fn response(flags: u8, call_id: u32, stub: &[u8], pad: u8, signature: &[u8]) -> Vec<u8> {
    let mut tail = Vec::new();
    if !signature.is_empty() {
        tail.extend(vec![0u8; pad as usize]);
        tail.extend_from_slice(&sec_trailer_header(pad));
        tail.extend_from_slice(signature);
    }
    let frag = (24 + stub.len() + tail.len()) as u16;
    let mut pdu = Vec::new();
    CommonHeader::new(PType::Response, flags, frag, signature.len() as u16, call_id).encode(&mut pdu);
    pdu.extend_from_slice(&[0xEE; 8]);
    pdu.extend_from_slice(stub);
    pdu.extend_from_slice(&tail);
    pdu
}

#[test]
fn a_request_is_padded_and_trailed() {
    let pdu = build_request(3, 9, &[0xAA; 5]);
    assert_eq!(pdu.len(), 24 + 5 + 3 + 8);
    let h = CommonHeader::decode(&pdu).unwrap();
    assert_eq!(h.ptype, PType::Request);
    assert_eq!(h.pfc_flags, pfc::FIRST_FRAG | pfc::LAST_FRAG);
    assert_eq!(h.auth_length, 16);
    assert_eq!(h.frag_length as usize, pdu.len() + 16);
    assert_eq!(h.call_id, 3);
    assert_eq!(&pdu[16..24], &[5, 0, 0, 0, 0, 0, 9, 0]);
    assert_eq!(&pdu[24..29], &[0xAA; 5]);
    assert_eq!(&pdu[29..32], &[0; 3]);
    assert_eq!(&pdu[32..40], &[0x0A, 5, 3, 0, 0, 0, 0, 0]);
    // A stub that ends on a boundary needs no padding.
    assert_eq!(build_request(3, 9, &[0xAA; 8]).len(), 24 + 8 + 8);
}

#[test]
fn a_signed_request_ends_with_its_signature() {
    let mut ntlm = ready();
    let pdu = build_and_sign_request(&mut ntlm, 7, 1, &[1, 2, 3]).unwrap();
    let unsigned = build_request(7, 1, &[1, 2, 3]);
    assert_eq!(pdu.len(), unsigned.len() + 16);
    assert_eq!(&pdu[..unsigned.len()], &unsigned[..]);
    assert_eq!(&pdu[unsigned.len()..unsigned.len() + 4], &[1, 0, 0, 0]);
    assert_eq!(
        CommonHeader::decode(&pdu).unwrap().frag_length as usize,
        pdu.len()
    );
}

#[test]
fn a_signature_completes_a_request() {
    assert_eq!(complete_request(vec![1, 2], Ok(vec![3])).unwrap(), vec![1, 2, 3]);
    let e = complete_request(vec![1], Err(GatewayError::Protocol("x".to_owned()))).unwrap_err();
    assert_eq!(e.message(), "gateway: x");
}

#[test]
fn calls_are_numbered_from_three_on() {
    let mut rpc = bound(ready());
    let (first, pdu) = rpc.send_request(1, &[]).unwrap();
    assert_eq!(first, 3);
    assert_eq!(CommonHeader::decode(&pdu).unwrap().call_id, 3);
    let (second, _) = rpc.send_request(2, &[]).unwrap();
    assert_eq!(second, 4);
    rpc.call_id = u32::MAX;
    assert_eq!(rpc.send_request(2, &[]).unwrap().0, u32::MAX);
    assert_eq!(rpc.call_id, 0);
}

#[test]
fn a_call_reads_its_own_response() {
    let mut rpc = bound(ready());
    let (mut reader, pdu) = rpc.call(4, b"in").unwrap();
    assert_eq!(CommonHeader::decode(&pdu).unwrap().call_id, 3);
    assert_eq!(&pdu[22..26], &[4, 0, b'i', b'n']);
    assert!(reader.on_pdu(&response(3, 3, b"out", 1, &[7; 16])).unwrap());
    assert_eq!(reader.stub, b"out");
    assert_eq!(rpc.call_id, 4);
}

#[test]
fn a_failed_signature_uses_up_its_call() {
    let mut rpc = bound(NtlmAuth::new_dce("user", None, "password").unwrap());
    let e = rpc.send_request(1, &[]).unwrap_err();
    assert!(e.message().starts_with("gateway: RPC request sign: "));
    assert_eq!(rpc.call_id, 4);
}

#[test]
fn only_a_response_passes() {
    let h = |p: PType| CommonHeader::new(p, 3, 24, 0, 11);
    assert!(check_response(&h(PType::Response), &[0; 24]).is_ok());
    assert_eq!(
        check_response(&h(PType::Rts), &[0; 24]).unwrap_err().message(),
        "gateway: expected RPC response, got Rts"
    );
}

fn fault(call_id: u32, status: u32) -> Vec<u8> {
    let mut pdu = Vec::new();
    CommonHeader::new(PType::Fault, 3, 32, 0, call_id).encode(&mut pdu);
    pdu.extend_from_slice(&[1; 8]);
    pdu.extend_from_slice(&status.to_le_bytes());
    pdu.extend_from_slice(&[2; 4]);
    pdu
}

#[test]
fn a_fault_is_reported_with_its_status() {
    let pdu = fault(7, 5);
    let h = CommonHeader::decode(&pdu).unwrap();
    assert_eq!(
        check_response(&h, &pdu).unwrap_err().message(),
        "gateway: RPC fault on call_id 7: status 0x00000005"
    );
    // The status ends at the 28th byte.
    assert_eq!(
        check_response(&h, &pdu[..28]).unwrap_err().message(),
        "gateway: RPC fault on call_id 7: status 0x00000005"
    );
    assert_eq!(
        check_response(&h, &pdu[..27]).unwrap_err().message(),
        "gateway: RPC fault on call_id 7: status cut off"
    );
    let mut reader = ResponseReader::new(3);
    assert_eq!(
        reader.on_pdu(&fault(9, 0x1C01_0003)).unwrap_err().message(),
        "gateway: RPC fault on call_id 9: status 0x1c010003"
    );
}

#[test]
fn stubs_are_cut_out_of_responses() {
    let pdu = response(3, 5, b"hello", 3, &[7; 16]);
    let h = CommonHeader::decode(&pdu).unwrap();
    assert_eq!(response_stub(&pdu, &h).unwrap(), b"hello");
    let plain = response(3, 5, b"hello", 0, &[]);
    let h = CommonHeader::decode(&plain).unwrap();
    assert_eq!(response_stub(&plain, &h).unwrap(), b"hello");
}

#[test]
fn broken_responses_are_named() {
    let error = |frag: u16, auth: u16, pdu: &[u8]| {
        let h = CommonHeader::new(PType::Response, 3, frag, auth, 5);
        response_stub(pdu, &h).unwrap_err().message()
    };
    assert_eq!(error(20, 13, &[0; 32]), "gateway: response auth_length overflows frag");
    assert_eq!(error(40, 16, &[0; 18]), "gateway: response sec_trailer truncated");
    let mut padded = vec![0u8; 40];
    padded[18] = 17;
    assert_eq!(error(40, 16, &padded), "gateway: response auth_pad overflows stub");
    assert_eq!(
        error(40, 16, &[0; 40]),
        "gateway: response stub bounds invalid: end=16 len=40"
    );
    assert_eq!(
        error(41, 0, &[0; 40]),
        "gateway: response stub bounds invalid: end=41 len=40"
    );
}

#[test]
fn fragments_make_one_response() {
    let mut reader = ResponseReader::new(5);
    assert!(!reader.on_pdu(&response(pfc::FIRST_FRAG, 5, b"one ", 0, &[7; 16])).unwrap());
    assert!(!reader.on_pdu(&response(0, 5, b"two ", 0, &[7; 16])).unwrap());
    assert!(reader.on_pdu(&response(pfc::LAST_FRAG, 5, b"three", 3, &[7; 16])).unwrap());
    assert_eq!(reader.stub, b"one two three");
}

#[test]
fn a_response_to_another_call_is_an_error() {
    let mut reader = ResponseReader::new(5);
    let e = reader.on_pdu(&response(3, 6, b"x", 0, &[])).unwrap_err();
    assert_eq!(e.message(), "gateway: response call_id 6 != request 5");
    assert!(reader.stub.is_empty());
    assert!(reader.on_pdu(&[5, 0, 2]).is_err());
}

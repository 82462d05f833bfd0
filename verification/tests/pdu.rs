use tsgu_rpc::error::GatewayError;
use tsgu_rpc::http::fragment_length;
use tsgu_rpc::pdu::{pfc, CommonHeader, Cursor, PType, PACKED_DREP};

fn text(e: GatewayError) -> String {
    e.message()
}

#[test]
fn common_header_round_trips() {
    let h = CommonHeader::new(PType::Rts, pfc::FIRST_FRAG | pfc::LAST_FRAG, 76, 0, 0);
    let mut out = Vec::new();
    h.encode(&mut out);
    assert_eq!(out.len(), CommonHeader::LEN);
    assert_eq!(&out[4..8], &PACKED_DREP);
    let d = CommonHeader::decode(&out).unwrap();
    assert_eq!(d.ptype, PType::Rts);
    assert_eq!(d.frag_length, 76);
    assert_eq!(d.pfc_flags, 0x03);
}

#[test]
fn rejects_short_header() {
    assert!(CommonHeader::decode(&[5, 0, 20]).is_err());
}

#[test]
fn header_bytes_are_little_endian() {
    let mut out = vec![0xEE];
    CommonHeader::new(PType::Request, pfc::WHOLE, 0x1234, 0x0010, 0x0A0B_0C0D).encode(&mut out);
    assert_eq!(
        out,
        vec![
            0xEE, 5, 0, 0, 3, 0x10, 0, 0, 0, 0x34, 0x12, 0x10, 0x00, 0x0D, 0x0C, 0x0B, 0x0A
        ]
    );
}

#[test]
fn header_errors_name_the_fault() {
    assert_eq!(
        text(CommonHeader::decode(&[5, 0, 20]).unwrap_err()),
        "gateway: DCE/RPC header truncated: 3 bytes"
    );
    let mut bytes = Vec::new();
    CommonHeader::new(PType::Rts, 3, 16, 0, 0).encode(&mut bytes);
    bytes[0] = 4;
    bytes[1] = 1;
    assert_eq!(
        text(CommonHeader::decode(&bytes).unwrap_err()),
        "gateway: unexpected RPC version 4.1"
    );
    bytes[0] = 5;
    bytes[2] = 7;
    assert_eq!(
        text(CommonHeader::decode(&bytes).unwrap_err()),
        "gateway: unknown PDU type 7"
    );
}

#[test]
fn every_type_round_trips_through_its_number() {
    let mut known = 0;
    let mut v = 0u8;
    loop {
        if let Some(p) = PType::from_u8(v) {
            assert_eq!(p.code(), v);
            assert_eq!(p.name(), format!("{p:?}"));
            known += 1;
        }
        if v == u8::MAX {
            break;
        }
        v += 1;
    }
    assert_eq!(known, 14);
}

#[test]
fn cursor_reads_in_order_and_stops_at_the_end() {
    let data = [1u8, 2, 3, 4, 5, 6, 7, 8, 9];
    let mut cur = Cursor::new(&data);
    assert_eq!(cur.remaining(), 9);
    assert_eq!(cur.u16_le().unwrap(), 0x0201);
    cur.skip(1).unwrap();
    assert_eq!(cur.u32_le().unwrap(), 0x0706_0504);
    assert_eq!(text(cur.u32_le().unwrap_err()), "gateway: PDU underrun: need 4, have 2");
    assert_eq!(text(cur.skip(3).unwrap_err()), "gateway: PDU underrun: need 3, have 2");
    assert_eq!(cur.bytes(2).unwrap(), &[8, 9]);
    assert_eq!(cur.remaining(), 0);
    assert_eq!(text(cur.u16_le().unwrap_err()), "gateway: PDU underrun: need 2, have 0");
}

#[test]
fn pdus_are_framed_by_their_headers() {
    let mut stream = Vec::new();
    CommonHeader::new(PType::Response, 3, 20, 0, 1).encode(&mut stream);
    stream.extend_from_slice(&[0xAA; 4]);
    CommonHeader::new(PType::Rts, 3, 16, 0, 0).encode(&mut stream);
    let first = fragment_length(&stream[..CommonHeader::LEN]).unwrap();
    assert_eq!(first, 20);
    let second = fragment_length(&stream[first..first + CommonHeader::LEN]).unwrap();
    assert_eq!(first + second, stream.len());

    let mut short = Vec::new();
    CommonHeader::new(PType::Response, 3, 15, 0, 1).encode(&mut short);
    assert_eq!(
        text(fragment_length(&short).unwrap_err()),
        "gateway: PDU frag_length 15 < header 16"
    );
    assert!(fragment_length(&short[..10]).is_err());
}

use tsgu_rpc::auth::NtlmAuth;
use tsgu_rpc::bind::BoundRpc;
use tsgu_rpc::pdu::{CommonHeader, PType};
use tsgu_rpc::rts::{Cookie, VirtualConnection};
use tsgu_rpc::tsgu::{
    authorize_tunnel, authorize_tunnel_stub, client_machine_name, create_channel,
    create_channel_stub, create_tunnel, create_tunnel_stub,
    parse_authorize_tunnel, parse_create_channel, parse_create_tunnel, push_ndr_string,
    read_u32_le, send_to_server_stub, tail_return, utf16z, ContextHandle, GatewayTunnel, PipeRead,
    TargetChannel, Tunnel, TSG_PACKET_VERSIONCAPS,
};

#[test]
fn create_tunnel_stub_is_108_bytes() {
    let s = create_tunnel_stub();
    assert_eq!(s.len(), 108);
    // PacketId / SwitchValue = VERSIONCAPS.
    assert_eq!(&s[0..4], &TSG_PACKET_VERSIONCAPS.to_le_bytes());
    assert_eq!(&s[4..8], &TSG_PACKET_VERSIONCAPS.to_le_bytes());
    // First/second NDR pointer referents.
    assert_eq!(&s[8..12], &0x0002_0000u32.to_le_bytes());
    assert_eq!(&s[16..20], &0x0002_0004u32.to_le_bytes());
    // Undocumented block starts at offset 48.
    assert_eq!(&s[48..56], &[0x8A, 0xE3, 0x13, 0x71, 0x02, 0xF4, 0x36, 0x71]);
}

#[test]
fn ndr_string_headers_and_4byte_alignment() {
    // "AB" -> 3 code units (A,B,NUL) = odd -> 6 bytes + 2 pad = 8; total = 12 hdr + 8.
    let mut out = Vec::new();
    push_ndr_string(&mut out, "AB");
    assert_eq!(&out[0..4], &3u32.to_le_bytes()); // MaxCount
    assert_eq!(&out[4..8], &0u32.to_le_bytes()); // Offset
    assert_eq!(&out[8..12], &3u32.to_le_bytes()); // ActualCount
    assert_eq!(&out[12..14], &[0x41, 0x00]); // 'A' as UTF-16LE
    assert_eq!(out.len() % 4, 0); // 4-aligned
    assert_eq!(out.len(), 12 + 6 + 2);

    // "ABC" -> 4 units (even) -> 8 bytes, no pad.
    let mut out = Vec::new();
    push_ndr_string(&mut out, "ABC");
    assert_eq!(out.len(), 12 + 8);
    assert_eq!(out.len() % 4, 0);
}

#[test]
fn send_to_server_stub_is_big_endian() {
    let ctx = ContextHandle([0u8; 20]);
    let data = [0xAA, 0xBB, 0xCC];
    let s = send_to_server_stub(&ctx, &data);
    // 20 ctx + 4 total + 4 numBuffers + 4 len + 3 data.
    assert_eq!(s.len(), 20 + 12 + 3);
    // totalDataBytes = len + 4 = 7, big-endian.
    assert_eq!(&s[20..24], &7u32.to_be_bytes());
    assert_eq!(&s[24..28], &1u32.to_be_bytes()); // numBuffers
    assert_eq!(&s[28..32], &3u32.to_be_bytes()); // buffer1Length
    assert_eq!(&s[32..35], &data);
}

#[test]
fn the_rest_of_the_tunnel_stub() {
    let s = create_tunnel_stub();
    assert_eq!(&s[12..16], &[0x52, 0x54, 0x43, 0x56]);
    assert_eq!(&s[20..36], &[1, 0, 0, 0, 1, 0, 1, 0, 0, 0, 0, 0, 1, 0, 0, 0]);
    assert_eq!(&s[36..48], &[1, 0, 0, 0, 1, 0, 0, 0, 0x1E, 0, 0, 0]);
    assert_eq!(&s[56..68], &[1, 0, 4, 0, 1, 0, 0, 0, 2, 0x40, 0x28, 0]);
    assert_eq!(&s[68..72], &[0xDD, 0x65, 0xE2, 0x44]);
    assert_eq!(&s[84..92], &[1, 0, 3, 0, 4, 0x5D, 0x88, 0x8A]);
    assert_eq!(&s[104..108], &[2, 0, 0, 0]);
}

#[test]
fn utf16_covers_every_plane() {
    for s in ["", "A", "h\u{e9}", "\u{ffff}", "\u{1F600}x", "\u{10FFFF}\u{10000}"] {
        let mut expected: Vec<u8> = s.encode_utf16().flat_map(|u| u.to_le_bytes()).collect();
        expected.extend_from_slice(&[0, 0]);
        let (bytes, count) = utf16z(s);
        assert_eq!(bytes, expected);
        assert_eq!(count as usize, expected.len() / 2);
        let mut out = vec![];
        push_ndr_string(&mut out, s);
        assert_eq!(out.len() % 4, 0);
    }
}

#[test]
fn numbers_need_exactly_four_bytes() {
    assert_eq!(read_u32_le(&[1, 2, 3, 4]).unwrap(), 0x0403_0201);
    assert_eq!(
        read_u32_le(&[1, 2, 3]).unwrap_err().message(),
        "gateway: truncated NDR response"
    );
    assert!(read_u32_le(&[1, 2, 3, 4, 5]).is_err());
}

#[test]
fn the_machine_name_comes_from_the_environment() {
    let some = |s: &str| Some(s.to_owned());
    assert_eq!(client_machine_name(some("PC"), some("host")), "PC");
    assert_eq!(client_machine_name(None, some("host")), "host");
    assert_eq!(client_machine_name(None, None), "IronRDP");
    // An empty name is no reason to try the next.
    assert_eq!(client_machine_name(some(""), some("host")), "IronRDP");
    assert_eq!(client_machine_name(None, some("")), "IronRDP");
}

fn tail(n: u8, id: u32, code: u32) -> Vec<u8> {
    let mut t = vec![n; 20];
    t.extend_from_slice(&id.to_le_bytes());
    t.extend_from_slice(&code.to_le_bytes());
    t
}

#[test]
fn a_tunnel_is_read_from_the_end() {
    let mut resp = vec![0xEE; 37];
    resp.extend(tail(7, 42, 0));
    let tunnel = parse_create_tunnel(&resp).unwrap();
    assert_eq!(tunnel.tunnel_id, 42);
    assert_eq!(tunnel.context.0, [7; 20]);
    assert_eq!(
        parse_create_tunnel(&resp[..27]).err().unwrap().message(),
        "gateway: CreateTunnel response too short: 27 bytes"
    );
    assert_eq!(
        parse_create_tunnel(&tail(7, 42, 0x8007_59DB)).err().unwrap().message(),
        "gateway: TsProxyCreateTunnel returned 0x800759db"
    );
}

#[test]
fn an_authorization_is_its_return_code() {
    assert!(parse_authorize_tunnel(&[9, 9, 0, 0, 0, 0]).is_ok());
    assert_eq!(
        parse_authorize_tunnel(&[5, 0, 0, 0]).unwrap_err().message(),
        "gateway: TsProxyAuthorizeTunnel returned 0x00000005"
    );
    assert_eq!(
        parse_authorize_tunnel(&[5, 0]).unwrap_err().message(),
        "gateway: TsProxyAuthorizeTunnel response too short: 2 bytes"
    );
    assert_eq!(tail_return(&[1, 2, 3, 4, 5], "X").unwrap(), 0x0504_0302);
}

#[test]
fn a_channel_is_read_from_the_front() {
    let mut resp = tail(8, 3, 0);
    resp.extend_from_slice(&[0xEE; 5]);
    let channel = parse_create_channel(&resp, "host", 3389).unwrap();
    assert_eq!(channel.channel_id, 3);
    assert_eq!(channel.context.0, [8; 20]);
    assert_eq!(
        parse_create_channel(&resp[..20], "host", 3389).err().unwrap().message(),
        "gateway: CreateChannel response too short: 20 bytes"
    );
    assert_eq!(
        parse_create_channel(&tail(8, 3, 0x59D8), "host", 3389).err().unwrap().message(),
        "gateway: TsProxyCreateChannel returned 0x000059d8 (target host:3389 unreachable?)"
    );
}

#[test]
fn the_stubs_carry_tunnel_and_names() {
    let tunnel = Tunnel { context: ContextHandle([6; 20]), tunnel_id: 1 };
    let s = authorize_tunnel_stub(&tunnel, "PC");
    assert_eq!(&s[..20], &[6; 20]);
    assert_eq!(&s[20..28], &[0x52, 0x51, 0, 0, 0x52, 0x51, 0, 0]);
    assert_eq!(&s[28..40], &[0, 0, 2, 0, 0, 0, 0, 0, 4, 0, 2, 0]);
    assert_eq!(&s[40..52], &[3, 0, 0, 0, 8, 0, 2, 0, 0, 0, 0, 0]);
    assert_eq!(&s[52..64], &[3, 0, 0, 0, 0, 0, 0, 0, 3, 0, 0, 0]);
    assert_eq!(&s[64..72], &[b'P', 0, b'C', 0, 0, 0, 0, 0]);
    assert_eq!(&s[72..], &[0, 0, 0, 0]);

    let s = create_channel_stub(&tunnel, "abc", 3389);
    assert_eq!(&s[..20], &[6; 20]);
    assert_eq!(&s[20..32], &[0, 0, 2, 0, 1, 0, 0, 0, 0, 0, 0, 0]);
    assert_eq!(&s[32..40], &[0, 0, 0, 0, 3, 0, 0x3D, 0x0D]);
    assert_eq!(&s[40..48], &[1, 0, 0, 0, 4, 0, 2, 0]);
    assert_eq!(&s[48..60], &[4, 0, 0, 0, 0, 0, 0, 0, 4, 0, 0, 0]);
    assert_eq!(&s[60..], &[b'a', 0, b'b', 0, b'c', 0, 0, 0]);
}

fn bound() -> BoundRpc<&'static str> {
    let mut c = b"NTLMSSP\0".to_vec();
    c.extend_from_slice(&2u32.to_le_bytes());
    c.extend_from_slice(&[0, 0, 0, 0, 48, 0, 0, 0]);
    c.extend_from_slice(&1u32.to_le_bytes());
    c.extend_from_slice(&[1, 2, 3, 4, 5, 6, 7, 8]);
    c.extend_from_slice(&[0; 8]);
    c.extend_from_slice(&[4, 0, 4, 0, 48, 0, 0, 0]);
    c.extend_from_slice(&[0; 4]);
    let mut ntlm = NtlmAuth::new_dce("user", None, "password").unwrap();
    ntlm.step(None).unwrap();
    ntlm.step(Some(&c)).unwrap();
    let vc = VirtualConnection {
        in_channel: "in",
        out_channel: "out",
        connection_timeout: 120_000,
        receive_window: 0x0001_0000,
        out_cookie: Cookie([9; 16]),
    };
    BoundRpc { vc, ntlm, call_id: 3, max_xmit_frag: 0x0FF8, max_recv_frag: 0x0FF8 }
}

fn tunnel() -> (GatewayTunnel<&'static str>, Vec<u8>) {
    let channel = TargetChannel { context: ContextHandle([5; 20]), channel_id: 77 };
    GatewayTunnel::open(bound(), channel).unwrap()
}

#[test]
fn the_calls_carry_their_operations() {
    let mut rpc = bound();
    let t = Tunnel { context: ContextHandle([6; 20]), tunnel_id: 1 };
    let sent = |pdu: &[u8], opnum: u8, stub: &[u8]| {
        assert_eq!(&pdu[22..24], &[opnum, 0]);
        assert_eq!(&pdu[24..24 + stub.len()], stub);
    };
    let (reader, pdu) = create_tunnel(&mut rpc).unwrap();
    assert_eq!(reader.call_id, 3);
    sent(&pdu, 1, &create_tunnel_stub());
    let (reader, pdu) = authorize_tunnel(&mut rpc, &t, "PC").unwrap();
    assert_eq!(reader.call_id, 4);
    sent(&pdu, 2, &authorize_tunnel_stub(&t, "PC"));
    let (reader, pdu) = create_channel(&mut rpc, &t, "host", 3389).unwrap();
    assert_eq!(reader.call_id, 5);
    sent(&pdu, 4, &create_channel_stub(&t, "host", 3389));
}

#[test]
fn a_read_waits_for_what_means_something() {
    let (mut tunnel, _) = tunnel();
    let (read, used) = tunnel.read(&[]);
    assert!(read.is_none() && used == 0);
    let (read, used) = tunnel.read(&[piped(3, 4, b"ack!"), piped(0, 3, b"")]);
    assert!(read.is_none() && used == 2 && tunnel.wants_pdu());
    let (read, used) = tunnel.read(&[piped(3, 4, b"ack!"), vec![1, 2], piped(0, 3, b"data")]);
    assert!(read.unwrap().is_err());
    assert!(used == 2 && tunnel.wants_pdu());
    let (read, used) = tunnel.read(&[piped(0, 3, b"data")]);
    assert_eq!((read.unwrap().unwrap(), used), (b"data".to_vec(), 1));
}

#[test]
fn the_end_of_the_pipe_is_final() {
    let (mut tunnel, _) = tunnel();
    let mut left = vec![
        piped(3, 4, b"ack!"),
        piped(0, 3, b""),
        piped(0, 3, b"four"),
        piped(3, 4, b"ack!"),
        piped(3, 3, &[0; 4]),
        piped(0, 3, b"never read"),
    ];
    // Four reads of all that is there.
    let mut reads = Vec::new();
    for _ in 0..4 {
        let (read, used) = tunnel.read(&left);
        left.drain(..used);
        reads.push((read.unwrap().unwrap(), used));
    }
    assert_eq!(
        reads,
        vec![(b"four".to_vec(), 3), (vec![], 2), (vec![], 0), (vec![], 0)]
    );
    assert_eq!(left.len(), 1);
    // Nothing opens the tunnel again.
    tunnel.on_pdu(&left[0]).unwrap();
    assert!(!tunnel.wants_pdu());
    let mut faulty = Vec::new();
    CommonHeader::new(PType::Fault, 3, 28, 0, 3).encode(&mut faulty);
    faulty.extend_from_slice(&[0; 12]);
    assert_eq!(
        tunnel.on_pdu(&faulty).err().unwrap().message(),
        "gateway: RPC fault on call_id 3: status 0x00000000"
    );
    assert!(!tunnel.wants_pdu());
}

fn piped(flags: u8, call_id: u32, stub: &[u8]) -> Vec<u8> {
    let mut pdu = Vec::new();
    CommonHeader::new(PType::Response, flags, (24 + stub.len()) as u16, 0, call_id).encode(&mut pdu);
    pdu.extend_from_slice(&[0; 8]);
    pdu.extend_from_slice(stub);
    pdu
}

#[test]
fn a_tunnel_opens_its_pipe_and_sends() {
    let (mut tunnel, setup) = tunnel();
    assert_eq!(tunnel.channel_id(), 77);
    assert_eq!(tunnel.pipe_call_id, 3);
    assert_eq!(&setup[16..24], &[20, 0, 0, 0, 0, 0, 8, 0]);
    assert_eq!(&setup[24..44], &[5; 20]);
    let pdu = tunnel.write(b"rdp").unwrap();
    assert_eq!(CommonHeader::decode(&pdu).unwrap().call_id, 4);
    assert_eq!(&pdu[22..24], &[9, 0]);
    assert_eq!(&pdu[24..59], &send_to_server_stub(&ContextHandle([5; 20]), b"rdp")[..]);
    let parts = tunnel.into_parts();
    assert_eq!(parts.in_channel, "in");
    assert_eq!(parts.out_channel, "out");
    assert_eq!(parts.call_id, 5);
    assert_eq!(parts.pipe_call_id, 3);
    assert_eq!(parts.connection_timeout, 120_000);
    assert_eq!(parts.out_cookie.0, [9; 16]);
    assert_eq!(parts.channel.0, [5; 20]);
    assert!(parts.ntlm.is_complete());
}

#[test]
fn the_pipe_gives_data_until_it_ends() {
    let (mut tunnel, _) = tunnel();
    // The acknowledgement of another call, and an empty chunk.
    assert!(matches!(tunnel.on_pdu(&piped(3, 4, b"ack!")).unwrap(), PipeRead::Skip));
    assert!(matches!(tunnel.on_pdu(&piped(0, 3, b"")).unwrap(), PipeRead::Skip));
    match tunnel.on_pdu(&piped(0, 3, b"four")).unwrap() {
        PipeRead::Data(data) => assert_eq!(data, b"four"),
        _ => panic!("no data"),
    }
    match tunnel.on_pdu(&piped(2, 3, b"last five")).unwrap() {
        PipeRead::Data(data) => assert_eq!(data, b"last five"),
        _ => panic!("no data"),
    }
    assert!(!tunnel.closed);
    assert!(tunnel.wants_pdu());
    assert!(matches!(tunnel.on_pdu(&piped(2, 3, &[0; 4])).unwrap(), PipeRead::End));
    assert!(tunnel.closed);
    assert!(!tunnel.wants_pdu());
    let mut rts = Vec::new();
    CommonHeader::new(PType::Rts, 3, 16, 0, 0).encode(&mut rts);
    assert!(tunnel.on_pdu(&rts).is_err());
}

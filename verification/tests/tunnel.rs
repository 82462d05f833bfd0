use tsgu_rpc::auth::NtlmAuth;
use tsgu_rpc::error::GatewayError;
use tsgu_rpc::pdu::{CommonHeader, PType};
use tsgu_rpc::rts::{flow_control_ack, ping, rts_pdu, Cookie, RTS_FLAG_OTHER_CMD};
use tsgu_rpc::tsgu::{send_to_server_stub, ContextHandle, PipeRead};
use tsgu_rpc::tunnel::{
    keepalive_period, other, FlowState, InChannelMsg, PipeReader, StreamError, StreamState, Writer,
    WriterAction, WriterEvent,
};

fn piped(flags: u8, call_id: u32, stub: &[u8]) -> Vec<u8> {
    let mut pdu = Vec::new();
    CommonHeader::new(PType::Response, flags, (24 + stub.len()) as u16, 0, call_id).encode(&mut pdu);
    pdu.extend_from_slice(&[0; 8]);
    pdu.extend_from_slice(stub);
    pdu
}

#[test]
fn an_ack_is_due_at_half_the_window() {
    let mut flow = FlowState::new();
    assert_eq!(flow.on_received(0x7FFF), None);
    assert_eq!(flow.since_ack, 0x7FFF);
    assert_eq!(flow.on_received(1), Some(InChannelMsg::FlowControlAck(0x8000)));
    assert_eq!(flow.since_ack, 0);
    assert_eq!(flow.on_received(0x9000), Some(InChannelMsg::FlowControlAck(0x1_1000)));
    assert_eq!(flow.on_received(0), None);
    // The total wraps, and a count that does not fit is cut.
    assert_eq!(
        flow.on_received(u32::MAX as usize),
        Some(InChannelMsg::FlowControlAck(0x1_0FFF))
    );
    let mut flow = FlowState::new();
    assert_eq!(
        flow.on_received(usize::MAX),
        Some(InChannelMsg::FlowControlAck(u32::MAX))
    );
}

#[test]
fn the_reader_echoes_pings_and_counts_only_responses() {
    let mut reader = PipeReader::new(3);
    let (control, read) = reader.on_pdu(&ping());
    assert_eq!(control, Some(InChannelMsg::Ping));
    assert!(matches!(read.unwrap(), PipeRead::Skip));
    let (control, read) = reader.on_pdu(&rts_pdu(RTS_FLAG_OTHER_CMD, &[]));
    assert_eq!(control, None);
    assert!(matches!(read.unwrap(), PipeRead::Skip));
    assert_eq!(reader.flow.total_received, 0);

    // The acknowledgement of another call counts, but carries nothing.
    let ack = piped(3, 9, &[0; 4]);
    let (control, read) = reader.on_pdu(&ack);
    assert_eq!(control, None);
    assert!(matches!(read.unwrap(), PipeRead::Skip));
    assert_eq!(reader.flow.total_received as usize, ack.len());

    let chunk = piped(0, 3, b"bytes");
    match reader.on_pdu(&chunk).1.unwrap() {
        PipeRead::Data(data) => assert_eq!(data, b"bytes"),
        _ => panic!("no data"),
    }
    assert_eq!(reader.flow.total_received as usize, ack.len() + chunk.len());
    assert!(matches!(reader.on_pdu(&piped(2, 3, &[0; 4])).1.unwrap(), PipeRead::End));
}

#[test]
fn the_window_is_replenished_while_data_flows() {
    let mut reader = PipeReader::new(3);
    let chunk = piped(0, 3, &[0xAA; 4000]);
    let mut acks = Vec::new();
    let mut total = 0u32;
    for _ in 0..40 {
        total += chunk.len() as u32;
        if let (Some(InChannelMsg::FlowControlAck(bytes)), _) = reader.on_pdu(&chunk) {
            assert_eq!(bytes, total);
            acks.push(bytes);
        }
        assert!(reader.flow.since_ack < 0x8000);
    }
    assert_eq!(acks.len(), 4);
}

#[test]
fn an_ack_is_asked_for_even_where_the_stub_is_broken() {
    let mut reader = PipeReader::new(3);
    reader.flow.since_ack = 0x7FF0;
    let mut pdu = Vec::new();
    CommonHeader::new(PType::Response, 0, 20, 0, 3).encode(&mut pdu);
    pdu.extend_from_slice(&[0; 4]);
    let (control, read) = reader.on_pdu(&pdu);
    assert_eq!(control, Some(InChannelMsg::FlowControlAck(20)));
    assert_eq!(
        read.err().unwrap().message(),
        "gateway: response stub bounds invalid: end=20 len=20"
    );
}

#[test]
fn a_fault_ends_the_reader_uncounted() {
    let mut reader = PipeReader::new(3);
    let mut pdu = Vec::new();
    CommonHeader::new(PType::Fault, 3, 28, 0, 3).encode(&mut pdu);
    pdu.extend_from_slice(&[0; 8]);
    pdu.extend_from_slice(&5u32.to_le_bytes());
    let (control, read) = reader.on_pdu(&pdu);
    assert_eq!(control, None);
    assert_eq!(
        read.err().unwrap().message(),
        "gateway: RPC fault on call_id 3: status 0x00000005"
    );
    assert_eq!(reader.flow.total_received, 0);
    assert!(reader.on_pdu(&[1, 2]).1.is_err());
}

fn writer(ready: bool) -> Writer {
    let mut c = b"NTLMSSP\0".to_vec();
    c.extend_from_slice(&2u32.to_le_bytes());
    c.extend_from_slice(&[0, 0, 0, 0, 48, 0, 0, 0]);
    c.extend_from_slice(&1u32.to_le_bytes());
    c.extend_from_slice(&[1, 2, 3, 4, 5, 6, 7, 8]);
    c.extend_from_slice(&[0; 8]);
    c.extend_from_slice(&[4, 0, 4, 0, 48, 0, 0, 0]);
    c.extend_from_slice(&[0; 4]);
    let mut ntlm = NtlmAuth::new_dce("user", None, "password").unwrap();
    if ready {
        ntlm.step(None).unwrap();
        ntlm.step(Some(&c)).unwrap();
    }
    Writer { ntlm, call_id: 4, channel: ContextHandle([5; 20]), out_cookie: Cookie([9; 16]) }
}

#[test]
fn the_writer_turns_events_into_pdus() {
    let mut w = writer(true);
    match w.on_event(WriterEvent::Control(Some(InChannelMsg::FlowControlAck(0x8000)))) {
        WriterAction::SendControl(pdu) => {
            assert_eq!(pdu, flow_control_ack(&Cookie([9; 16]), 0x8000))
        }
        _ => panic!("no control PDU"),
    }
    match w.on_event(WriterEvent::Control(Some(InChannelMsg::Ping))) {
        WriterAction::SendControl(pdu) => assert_eq!(pdu, ping()),
        _ => panic!("no control PDU"),
    }
    match w.on_event(WriterEvent::Tick) {
        WriterAction::SendControl(pdu) => assert_eq!(pdu, ping()),
        _ => panic!("no control PDU"),
    }
    assert_eq!(w.call_id, 4);
    match w.on_event(WriterEvent::Data(Some(b"rdp".to_vec()))) {
        WriterAction::SendData(pdu) => {
            assert_eq!(CommonHeader::decode(&pdu).unwrap().call_id, 4);
            let stub = send_to_server_stub(&ContextHandle([5; 20]), b"rdp");
            assert_eq!(&pdu[24..24 + stub.len()], &stub[..]);
        }
        _ => panic!("no request"),
    }
    assert_eq!(w.call_id, 5);
    assert!(matches!(w.on_event(WriterEvent::Control(None)), WriterAction::Stop));
    assert!(matches!(w.on_event(WriterEvent::Data(None)), WriterAction::Stop));
}

#[test]
fn a_buffer_that_cannot_be_signed_is_reported() {
    let mut w = writer(false);
    match w.on_event(WriterEvent::Data(Some(vec![1]))) {
        WriterAction::Report(e) => {
            assert!(e.message().starts_with("gateway: RPC request sign: "))
        }
        _ => panic!("no report"),
    }
    assert_eq!(w.call_id, 5);
}

#[test]
fn pings_come_twice_per_timeout() {
    assert_eq!(keepalive_period(120_000), 60_000);
    assert_eq!(keepalive_period(30_001), 15_000);
    assert_eq!(keepalive_period(0), 15_000);
    assert_eq!(keepalive_period(20_000), 15_000);
    assert_eq!(keepalive_period(600_000), 300_000);
    assert_eq!(keepalive_period(u32::MAX), 300_000);
}

#[test]
fn reads_take_chunks_apart_in_order() {
    let mut s = StreamState::new();
    assert!(s.needs_chunk());
    s.on_chunk(b"abcdef".to_vec());
    assert!(!s.needs_chunk());
    assert_eq!(s.read(4), b"abcd");
    assert_eq!(s.read(0), b"");
    assert_eq!(s.read(9), b"ef");
    assert!(s.needs_chunk());
    assert_eq!(s.read(9), b"");
}

#[test]
fn a_flush_is_one_buffer() {
    let mut s = StreamState::new();
    assert_eq!(s.take_buffer(), None);
    assert_eq!(s.write(b"one "), 4);
    assert_eq!(s.write(b"two"), 3);
    assert_eq!(s.take_buffer(), Some(b"one two".to_vec()));
    s.submitted();
    assert!(!s.is_flushed());
    assert_eq!(s.take_buffer(), None);
    s.acknowledged();
    assert!(s.is_flushed());
}

#[test]
fn network_errors_keep_their_kind() {
    let io = std::io::Error::from(std::io::ErrorKind::UnexpectedEof);
    match other(GatewayError::from(io)) {
        StreamError::Io(io) => assert_eq!(io.kind(), std::io::ErrorKind::UnexpectedEof),
        StreamError::Other(_) => panic!("text"),
    }
    match other(GatewayError::Protocol("x".to_owned())) {
        StreamError::Other(text) => assert_eq!(text, "gateway: x"),
        StreamError::Io(_) => panic!("io"),
    }
}

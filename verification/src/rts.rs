//! RTS (RPC Transport Service): the handshake that turns two HTTP channels into
//! one virtual connection, and the PDUs that keep it alive.
//!
//! An IN channel (`RPC_IN_DATA`, whose request body the client streams into) and
//! an OUT channel (`RPC_OUT_DATA`, whose response body the server streams back)
//! are tied together by four PDUs:
//!
//!   1. client: CONN/A1 on the OUT channel (virtual connection and OUT cookies),
//!   2. client: CONN/B1 on the IN channel (IN cookie, keepalive, group),
//!   3. server: CONN/A3 on the OUT channel (connection timeout),
//!   4. server: CONN/C2 on the OUT channel (version, window, timeout).
use vstd::prelude::*;
use vstd::slice::slice_subrange;
use vstd::string::*;

use crate::error;
use crate::error::{ErrorView, GatewayError};
use crate::pdu;
use crate::pdu::{pfc, CommonHeader, Cursor, PType};
use crate::text;
use crate::wire;

verus! {

pub const CMD_RECEIVE_WINDOW_SIZE: u32 = 0x0;

pub const CMD_FLOW_CONTROL_ACK: u32 = 0x1;

pub const CMD_CONNECTION_TIMEOUT: u32 = 0x2;

pub const CMD_COOKIE: u32 = 0x3;

pub const CMD_CHANNEL_LIFETIME: u32 = 0x4;

pub const CMD_CLIENT_KEEPALIVE: u32 = 0x5;

pub const CMD_VERSION: u32 = 0x6;

pub const CMD_ASSOCIATION_GROUP_ID: u32 = 0xC;

pub const CMD_DESTINATION: u32 = 0xD;

/// `Flags` of every CONN PDU.
pub const RTS_FLAG_NONE: u16 = 0x0;

/// `Flags` bit of a Ping.
pub const RTS_FLAG_PING: u16 = 0x1;

/// `Flags` of an RTS PDU with commands outside the CONN handshake.
pub const RTS_FLAG_OTHER_CMD: u16 = 0x2;

/// The destination that takes a FlowControlAck to the flow controller of the OUT
/// channel.
pub const FD_OUT_PROXY: u32 = 3;

/// RTS protocol version (the only defined value).
pub const RTS_VERSION: u32 = 1;

/// Client receive window advertised in CONN/A1.
pub const RECEIVE_WINDOW_SIZE: u32 = 0x0001_0000;

/// Bytes received on the OUT channel after which a FlowControlAck is due: half the
/// advertised window. A gateway that is not told stops after one full window.
pub const FLOW_CONTROL_ACK_THRESHOLD: u32 = RECEIVE_WINDOW_SIZE / 2;

/// Channel lifetime advertised in CONN/B1.
pub const CHANNEL_LIFETIME: u32 = 0x4000_0000;

/// Client keepalive interval advertised in CONN/B1, in milliseconds.
pub const CLIENT_KEEPALIVE: u32 = 300_000;

/// `Content-Length` that the IN channel declares: the ceiling on the bytes that
/// can be streamed into it.
pub const IN_CHANNEL_CONTENT_LENGTH: u64 = 0x4000_0000;

/// A 16-byte cookie: the id of the virtual connection, of a channel, or of the
/// association group.
#[derive(Clone, Copy)]
pub struct Cookie(pub [u8; 16]);

/// An error of the random number generator.
#[verifier::external_type_specification]
#[verifier::external_body]
pub struct ExRandomError(getrandom::Error);

/// `getrandom::fill` on sixteen bytes: they come from the random number generator
/// of the operating system, so nothing is claimed of them, nor of when the
/// generator fails.
#[verifier::external_body]
fn random_bytes() -> (r: Result<[u8; 16], getrandom::Error>) {
    let mut b = [0u8; 16];
    match getrandom::fill(&mut b) {
        Ok(()) => Ok(b),
        Err(e) => Err(e),
    }
}

impl Cookie {
    /// 16 random bytes from the generator of the operating system. Which bytes
    /// come out, and whether the generator fails, is left open;
    /// [`Cookie::from_random`] says what is made of them.
    pub fn random() -> (r: Result<Self, GatewayError>)
        ensures
            exists|drawn: Result<[u8; 16], Seq<char>>|
                error::outcome(r) == #[trigger] cookie_of(drawn),
    {
        match random_bytes() {
            Ok(b) => {
                assert(cookie_of(Ok(b)) == Ok::<Cookie, ErrorView>(Cookie(b)));
                Cookie::from_random(Ok(b))
            },
            Err(e) => {
                let reason = e.to_string();
                let ghost drawn: Result<[u8; 16], Seq<char>> = Err(reason@);
                let r = Cookie::from_random(Err(reason));
                assert(error::outcome(r) == cookie_of(drawn));
                r
            },
        }
    }

    /// The cookie of sixteen drawn bytes, or the error of a draw that failed.
    pub fn from_random(drawn: Result<[u8; 16], String>) -> (r: Result<Self, GatewayError>)
        ensures
            error::outcome(r) == cookie_of(
                match drawn {
                    Ok(b) => Ok(b),
                    Err(reason) => Err(reason@),
                },
            ),
    {
        match drawn {
            Ok(b) => Ok(Cookie(b)),
            Err(reason) => Err(
                GatewayError::Protocol("cookie rng: ".to_owned().concat(reason.as_str())),
            ),
        }
    }
}

/// The cookie of a draw of sixteen bytes.
pub open spec fn cookie_of(drawn: Result<[u8; 16], Seq<char>>) -> Result<Cookie, ErrorView> {
    match drawn {
        Ok(b) => Ok(Cookie(b)),
        Err(reason) => Err(ErrorView::Protocol("cookie rng: "@ + reason)),
    }
}

/// A command that carries one number.
pub open spec fn number_command(command: u32, value: u32) -> Seq<u8> {
    wire::le32(command) + wire::le32(value)
}

/// A command that carries a cookie.
pub open spec fn cookie_command(command: u32, cookie: Cookie) -> Seq<u8> {
    wire::le32(command) + cookie.0@
}

/// The FlowControlAck command.
pub open spec fn ack_command(bytes_received: u32, available_window: u32, cookie: Cookie) -> Seq<
    u8,
> {
    wire::le32(CMD_FLOW_CONTROL_ACK) + wire::le32(bytes_received) + wire::le32(available_window)
        + cookie.0@
}

/// The parts, one after the other.
pub open spec fn joined(parts: Seq<Seq<u8>>) -> Seq<u8>
    decreases parts.len(),
{
    if parts.len() == 0 {
        Seq::empty()
    } else {
        joined(parts.drop_last()) + parts.last()
    }
}

/// What the vectors of `parts` hold.
pub open spec fn contents(parts: Seq<Vec<u8>>) -> Seq<Seq<u8>> {
    Seq::new(parts.len(), |i: int| parts[i]@)
}

/// An RTS PDU: common header, flags, number of commands, commands. Lengths keep
/// their low 16 bits.
pub open spec fn rts_bytes(flags: u16, commands: Seq<Seq<u8>>) -> Seq<u8> {
    pdu::header_bytes(
        CommonHeader {
            ptype: PType::Rts,
            pfc_flags: pfc::WHOLE,
            frag_length: wire::low16(20 + joined(commands).len()),
            auth_length: 0,
            call_id: 0,
        },
    ) + wire::le16(flags) + wire::le16(wire::low16(commands.len())) + joined(commands)
}

pub open spec fn conn_a1_commands(vc: Cookie, out: Cookie) -> Seq<Seq<u8>> {
    seq![
        number_command(CMD_VERSION, RTS_VERSION),
        cookie_command(CMD_COOKIE, vc),
        cookie_command(CMD_COOKIE, out),
        number_command(CMD_RECEIVE_WINDOW_SIZE, RECEIVE_WINDOW_SIZE),
    ]
}

pub open spec fn conn_b1_commands(vc: Cookie, in_ch: Cookie, group: Cookie) -> Seq<Seq<u8>> {
    seq![
        number_command(CMD_VERSION, RTS_VERSION),
        cookie_command(CMD_COOKIE, vc),
        cookie_command(CMD_COOKIE, in_ch),
        number_command(CMD_CHANNEL_LIFETIME, CHANNEL_LIFETIME),
        number_command(CMD_CLIENT_KEEPALIVE, CLIENT_KEEPALIVE),
        cookie_command(CMD_ASSOCIATION_GROUP_ID, group),
    ]
}

pub open spec fn flow_control_ack_commands(out_cookie: Cookie, bytes_received: u32) -> Seq<
    Seq<u8>,
> {
    seq![
        number_command(CMD_DESTINATION, FD_OUT_PROXY),
        ack_command(bytes_received, RECEIVE_WINDOW_SIZE, out_cookie),
    ]
}

pub open spec fn conn_a1_bytes(vc: Cookie, out: Cookie) -> Seq<u8> {
    rts_bytes(RTS_FLAG_NONE, conn_a1_commands(vc, out))
}

pub open spec fn conn_b1_bytes(vc: Cookie, in_ch: Cookie, group: Cookie) -> Seq<u8> {
    rts_bytes(RTS_FLAG_NONE, conn_b1_commands(vc, in_ch, group))
}

pub open spec fn flow_control_ack_bytes(out_cookie: Cookie, bytes_received: u32) -> Seq<u8> {
    rts_bytes(RTS_FLAG_OTHER_CMD, flow_control_ack_commands(out_cookie, bytes_received))
}

pub open spec fn ping_bytes() -> Seq<u8> {
    rts_bytes(RTS_FLAG_PING, Seq::empty())
}

pub fn cmd_u32(command: u32, value: u32) -> (v: Vec<u8>)
    ensures
        v@ == number_command(command, value),
{
    let mut v: Vec<u8> = Vec::with_capacity(8);
    wire::push_u32_le(&mut v, command);
    wire::push_u32_le(&mut v, value);
    assert(v@ =~= number_command(command, value));
    v
}

pub fn cmd_cookie(command: u32, cookie: &Cookie) -> (v: Vec<u8>)
    ensures
        v@ == cookie_command(command, *cookie),
{
    let mut v: Vec<u8> = Vec::with_capacity(20);
    wire::push_u32_le(&mut v, command);
    wire::push_bytes(&mut v, cookie.0.as_slice());
    assert(v@ =~= cookie_command(command, *cookie));
    v
}

pub fn cmd_flow_control_ack(bytes_received: u32, available_window: u32, cookie: &Cookie) -> (v: Vec<
    u8,
>)
    ensures
        v@ == ack_command(bytes_received, available_window, *cookie),
{
    let mut v: Vec<u8> = Vec::with_capacity(28);
    wire::push_u32_le(&mut v, CMD_FLOW_CONTROL_ACK);
    wire::push_u32_le(&mut v, bytes_received);
    wire::push_u32_le(&mut v, available_window);
    wire::push_bytes(&mut v, cookie.0.as_slice());
    assert(v@ =~= ack_command(bytes_received, available_window, *cookie));
    v
}

/// The bytes of the commands, one after the other.
fn join(commands: &[Vec<u8>]) -> (body: Vec<u8>)
    ensures
        body@ == joined(contents(commands@)),
{
    let mut body: Vec<u8> = Vec::new();
    let ghost parts = contents(commands@);
    for i in 0..commands.len()
        invariant
            parts == contents(commands@),
            body@ == joined(parts.take(i as int)),
    {
        wire::push_bytes(&mut body, commands[i].as_slice());
        assert(parts.take(i + 1).drop_last() =~= parts.take(i as int));
    }
    assert(parts.take(commands@.len() as int) =~= parts);
    body
}

/// Assemble an RTS PDU from its flags and commands.
pub fn rts_pdu(flags: u16, commands: &[Vec<u8>]) -> (out: Vec<u8>)
    ensures
        out@ == rts_bytes(flags, contents(commands@)),
{
    let body = join(commands);
    let frag_length: u16 = wire::truncate16_plus(body.len(), 20);
    let mut out: Vec<u8> = Vec::with_capacity(frag_length as usize);
    CommonHeader::new(PType::Rts, pfc::WHOLE, frag_length, 0, 0).encode(&mut out);
    wire::push_u16_le(&mut out, flags);
    wire::push_u16_le(&mut out, wire::truncate16(commands.len()));
    wire::push_bytes(&mut out, body.as_slice());
    assert(out@ =~= rts_bytes(flags, contents(commands@)));
    out
}

/// CONN/A1 (client, OUT channel): version, virtual connection cookie, OUT channel
/// cookie, receive window.
pub fn conn_a1(vc: &Cookie, out: &Cookie) -> (pdu: Vec<u8>)
    ensures
        pdu@ == conn_a1_bytes(*vc, *out),
{
    let commands = vec![
        cmd_u32(CMD_VERSION, RTS_VERSION),
        cmd_cookie(CMD_COOKIE, vc),
        cmd_cookie(CMD_COOKIE, out),
        cmd_u32(CMD_RECEIVE_WINDOW_SIZE, RECEIVE_WINDOW_SIZE),
    ];
    assert(contents(commands@) =~= conn_a1_commands(*vc, *out));
    rts_pdu(RTS_FLAG_NONE, commands.as_slice())
}

/// CONN/B1 (client, IN channel): version, virtual connection cookie, IN channel
/// cookie, channel lifetime, client keepalive, association group.
pub fn conn_b1(vc: &Cookie, in_ch: &Cookie, group: &Cookie) -> (pdu: Vec<u8>)
    ensures
        pdu@ == conn_b1_bytes(*vc, *in_ch, *group),
{
    let commands = vec![
        cmd_u32(CMD_VERSION, RTS_VERSION),
        cmd_cookie(CMD_COOKIE, vc),
        cmd_cookie(CMD_COOKIE, in_ch),
        cmd_u32(CMD_CHANNEL_LIFETIME, CHANNEL_LIFETIME),
        cmd_u32(CMD_CLIENT_KEEPALIVE, CLIENT_KEEPALIVE),
        cmd_cookie(CMD_ASSOCIATION_GROUP_ID, group),
    ];
    assert(contents(commands@) =~= conn_b1_commands(*vc, *in_ch, *group));
    rts_pdu(RTS_FLAG_NONE, commands.as_slice())
}

/// A FlowControlAck, sent on the IN channel to replenish the window the gateway
/// sends into. `bytes_received` counts the OUT channel bytes consumed so far; the
/// full receive window is advertised from that point on.
pub fn flow_control_ack(out_cookie: &Cookie, bytes_received: u32) -> (pdu: Vec<u8>)
    ensures
        pdu@ == flow_control_ack_bytes(*out_cookie, bytes_received),
{
    let commands = vec![
        cmd_u32(CMD_DESTINATION, FD_OUT_PROXY),
        cmd_flow_control_ack(bytes_received, RECEIVE_WINDOW_SIZE, out_cookie),
    ];
    assert(contents(commands@) =~= flow_control_ack_commands(*out_cookie, bytes_received));
    rts_pdu(RTS_FLAG_OTHER_CMD, commands.as_slice())
}

/// A Ping, echoed on the IN channel when the gateway sends one.
pub fn ping() -> (pdu: Vec<u8>)
    ensures
        pdu@ == ping_bytes(),
{
    let commands: Vec<Vec<u8>> = Vec::new();
    assert(contents(commands@) =~= Seq::<Seq<u8>>::empty());
    rts_pdu(RTS_FLAG_PING, commands.as_slice())
}

proof fn lemma_conn_a1_len(vc: Cookie, out: Cookie)
    ensures
        joined(conn_a1_commands(vc, out)).len() == 56,
{
    reveal_with_fuel(joined, 5);
}

proof fn lemma_conn_b1_len(vc: Cookie, in_ch: Cookie, group: Cookie)
    ensures
        joined(conn_b1_commands(vc, in_ch, group)).len() == 84,
{
    reveal_with_fuel(joined, 7);
}

proof fn lemma_flow_control_ack_len(out_cookie: Cookie, bytes_received: u32)
    ensures
        joined(flow_control_ack_commands(out_cookie, bytes_received)).len() == 36,
{
    reveal_with_fuel(joined, 3);
}

/// Whether an RTS PDU has the Ping bit set in its flags.
pub open spec fn pings(pdu: Seq<u8>) -> bool {
    pdu.len() >= CommonHeader::LEN + 2 && wire::u16_at(pdu, CommonHeader::LEN as int) % 2 == 1
}

/// Whether `pdu` (already known to be an RTS PDU) is a Ping.
pub fn is_ping(pdu: &[u8]) -> (b: bool)
    ensures
        b == pings(pdu@),
{
    pdu.len() >= CommonHeader::LEN + 2 && wire::read_u16_at(pdu, CommonHeader::LEN) % 2 == 1
}

/// Flags and number of commands of an RTS PDU; its commands follow behind them.
pub open spec fn rts_head(pdu: Seq<u8>) -> Result<(u16, u16), ErrorView> {
    match pdu::decoded_header(pdu) {
        Err(e) => Err(e),
        Ok(h) => if h.ptype != PType::Rts {
            Err(ErrorView::Protocol("expected RTS PDU, got "@ + h.ptype.title()))
        } else {
            let body = pdu.skip(CommonHeader::LEN as int);
            match pdu::read_u16(body) {
                Err(e) => Err(e),
                Ok(flags) => match pdu::read_u16(body.skip(2)) {
                    Err(e) => Err(e),
                    Ok(num) => Ok((flags, num)),
                },
            }
        },
    }
}

/// The commands of an RTS PDU.
pub open spec fn rts_body(pdu: Seq<u8>) -> Seq<u8> {
    pdu.skip(CommonHeader::LEN as int).skip(4)
}

/// Check the header of an RTS PDU and return its flags, the number of its
/// commands, and a cursor at the first command.
pub fn rts_header<'a>(pdu: &'a [u8]) -> (r: Result<(u16, u16, Cursor<'a>), GatewayError>)
    ensures
        match r {
            Ok((flags, num, cur)) => rts_head(pdu@) == Ok::<_, ErrorView>((flags, num)) && cur@
                == rts_body(pdu@),
            Err(e) => rts_head(pdu@) == Err::<(u16, u16), _>(e@),
        },
{
    let h = CommonHeader::decode(pdu)?;
    if h.ptype != PType::Rts {
        return Err(
            GatewayError::Protocol(
                "expected RTS PDU, got ".to_owned().concat(h.ptype.name().as_str()),
            ),
        );
    }
    let mut cur = Cursor::new(slice_subrange(pdu, CommonHeader::LEN, pdu.len()));
    assert(cur@ =~= pdu@.skip(CommonHeader::LEN as int));
    let flags: u16 = cur.u16_le()?;
    let num: u16 = cur.u16_le()?;
    assert(cur@ =~= rts_body(pdu@));
    Ok((flags, num, cur))
}

/// The number that the command `want` in front of `s` carries.
pub open spec fn command_value(s: Seq<u8>, want: u32, what: Seq<char>) -> Result<u32, ErrorView> {
    match pdu::read_u32(s) {
        Err(e) => Err(e),
        Ok(got) => if got != want {
            Err(
                ErrorView::Protocol(
                    what + ": expected command "@ + text::hex(want as nat) + ", got "@ + text::hex(
                        got as nat,
                    ),
                ),
            )
        } else {
            pdu::read_u32(s.skip(4))
        },
    }
}

fn expect_command<'a>(cur: &mut Cursor<'a>, want: u32, what: &str) -> (r: Result<
    u32,
    GatewayError,
>)
    ensures
        error::outcome(r) == command_value(old(cur)@, want, what@),
        r is Ok ==> final(cur)@ == old(cur)@.skip(8),
{
    let got: u32 = cur.u32_le()?;
    if got != want {
        return Err(
            GatewayError::Protocol(
                what.to_owned().concat(": expected command ").concat(
                    text::hex_string(want as u64).as_str(),
                ).concat(", got ").concat(text::hex_string(got as u64).as_str()),
            ),
        );
    }
    let value: u32 = cur.u32_le()?;
    assert(cur@ =~= old(cur)@.skip(8));
    Ok(value)
}

/// The server's timeout from CONN/A3, in milliseconds.
#[derive(Debug)]
pub struct ConnA3 {
    pub connection_timeout: u32,
}

pub open spec fn shape_mismatch(pdu: Seq<char>, flags: u16, num: u16) -> ErrorView {
    ErrorView::Protocol(
        pdu + " shape mismatch: flags="@ + text::padded_hex(flags as nat, 4) + " commands="@
            + text::dec(num as nat),
    )
}

fn shape_error(pdu: &str, flags: u16, num: u16) -> (e: GatewayError)
    ensures
        e@ == shape_mismatch(pdu@, flags, num),
{
    GatewayError::Protocol(
        pdu.to_owned().concat(" shape mismatch: flags=").concat(
            text::padded_hex_string(flags as u64, 4).as_str(),
        ).concat(" commands=").concat(text::dec_string(num as u64).as_str()),
    )
}

/// What a CONN/A3 says: one ConnectionTimeout command, no flags.
pub open spec fn parsed_conn_a3(pdu: Seq<u8>) -> Result<ConnA3, ErrorView> {
    match rts_head(pdu) {
        Err(e) => Err(e),
        Ok((flags, num)) => if flags != RTS_FLAG_NONE || num != 1 {
            Err(shape_mismatch("CONN/A3"@, flags, num))
        } else {
            match command_value(
                rts_body(pdu),
                CMD_CONNECTION_TIMEOUT,
                "CONN/A3 ConnectionTimeout"@,
            ) {
                Err(e) => Err(e),
                Ok(connection_timeout) => Ok(ConnA3 { connection_timeout }),
            }
        },
    }
}

/// Parse CONN/A3.
pub fn parse_conn_a3(pdu: &[u8]) -> (r: Result<ConnA3, GatewayError>)
    ensures
        error::outcome(r) == parsed_conn_a3(pdu@),
{
    let (flags, num, mut cur) = rts_header(pdu)?;
    if flags != RTS_FLAG_NONE || num != 1 {
        return Err(shape_error("CONN/A3", flags, num));
    }
    let connection_timeout: u32 = expect_command(
        &mut cur,
        CMD_CONNECTION_TIMEOUT,
        "CONN/A3 ConnectionTimeout",
    )?;
    Ok(ConnA3 { connection_timeout })
}

/// What CONN/C2 settles: the version, the server's receive window, its timeout in
/// milliseconds.
#[derive(Debug)]
pub struct ConnC2 {
    pub version: u32,
    pub receive_window_size: u32,
    pub connection_timeout: u32,
}

/// What a CONN/C2 says: Version, ReceiveWindowSize and ConnectionTimeout, no
/// flags.
pub open spec fn parsed_conn_c2(pdu: Seq<u8>) -> Result<ConnC2, ErrorView> {
    match rts_head(pdu) {
        Err(e) => Err(e),
        Ok((flags, num)) => if flags != RTS_FLAG_NONE || num != 3 {
            Err(shape_mismatch("CONN/C2"@, flags, num))
        } else {
            let body = rts_body(pdu);
            match command_value(body, CMD_VERSION, "CONN/C2 Version"@) {
                Err(e) => Err(e),
                Ok(version) => match command_value(
                    body.skip(8),
                    CMD_RECEIVE_WINDOW_SIZE,
                    "CONN/C2 ReceiveWindowSize"@,
                ) {
                    Err(e) => Err(e),
                    Ok(receive_window_size) => match command_value(
                        body.skip(16),
                        CMD_CONNECTION_TIMEOUT,
                        "CONN/C2 ConnectionTimeout"@,
                    ) {
                        Err(e) => Err(e),
                        Ok(connection_timeout) => Ok(
                            ConnC2 { version, receive_window_size, connection_timeout },
                        ),
                    },
                },
            }
        },
    }
}

/// Parse CONN/C2.
pub fn parse_conn_c2(pdu: &[u8]) -> (r: Result<ConnC2, GatewayError>)
    ensures
        error::outcome(r) == parsed_conn_c2(pdu@),
{
    let (flags, num, mut cur) = rts_header(pdu)?;
    if flags != RTS_FLAG_NONE || num != 3 {
        return Err(shape_error("CONN/C2", flags, num));
    }
    let version: u32 = expect_command(&mut cur, CMD_VERSION, "CONN/C2 Version")?;
    let receive_window_size: u32 = expect_command(
        &mut cur,
        CMD_RECEIVE_WINDOW_SIZE,
        "CONN/C2 ReceiveWindowSize",
    )?;
    assert(cur@ =~= rts_body(pdu@).skip(16));
    let connection_timeout: u32 = expect_command(
        &mut cur,
        CMD_CONNECTION_TIMEOUT,
        "CONN/C2 ConnectionTimeout",
    )?;
    Ok(ConnC2 { version, receive_window_size, connection_timeout })
}

/// An RTS PDU reads back as the flags, the number of commands and the commands it
/// was made of, and its header gives its length.
pub proof fn rts_pdu_reads_back(flags: u16, commands: Seq<Seq<u8>>)
    ensures
        rts_head(rts_bytes(flags, commands)) == Ok::<(u16, u16), ErrorView>(
            (flags, wire::low16(commands.len())),
        ),
        rts_body(rts_bytes(flags, commands)) == joined(commands),
        pdu::decoded_header(rts_bytes(flags, commands)) is Ok,
        pdu::decoded_header(rts_bytes(flags, commands))->Ok_0.frag_length == wire::low16(
            rts_bytes(flags, commands).len()),
{
    let h = CommonHeader {
        ptype: PType::Rts,
        pfc_flags: pfc::WHOLE,
        frag_length: wire::low16(20 + joined(commands).len()),
        auth_length: 0,
        call_id: 0,
    };
    let num = wire::low16(commands.len());
    let rest = wire::le16(flags) + wire::le16(num) + joined(commands);
    let bytes = rts_bytes(flags, commands);
    assert(bytes =~= pdu::header_bytes(h) + rest);
    pdu::header_round_trips(h, rest);
    let body = bytes.skip(CommonHeader::LEN as int);
    assert(body =~= rest);
    assert(body.subrange(0, 2) =~= wire::le16(flags));
    wire::le16_round_trips(flags, body, 0);
    assert(body.skip(2).subrange(0, 2) =~= wire::le16(num));
    wire::le16_round_trips(num, body.skip(2), 0);
    assert(body.skip(4) =~= joined(commands));
}

/// A command in front of anything reads back as its number.
pub proof fn command_reads_back(command: u32, value: u32, rest: Seq<u8>, what: Seq<char>)
    ensures
        command_value(number_command(command, value) + rest, command, what) == Ok::<
            u32,
            ErrorView,
        >(value),
        (number_command(command, value) + rest).skip(8) == rest,
{
    let s = number_command(command, value) + rest;
    assert(s.subrange(0, 4) =~= wire::le32(command));
    wire::le32_round_trips(command, s, 0);
    assert(s.skip(4).subrange(0, 4) =~= wire::le32(value));
    wire::le32_round_trips(value, s.skip(4), 0);
    assert(s.skip(8) =~= rest);
}

/// A CONN/A3 that carries a timeout is read as that timeout.
pub proof fn conn_a3_reads_back(timeout: u32)
    ensures
        parsed_conn_a3(
            rts_bytes(RTS_FLAG_NONE, seq![number_command(CMD_CONNECTION_TIMEOUT, timeout)]),
        ) == Ok::<ConnA3, ErrorView>(ConnA3 { connection_timeout: timeout }),
{
    let commands = seq![number_command(CMD_CONNECTION_TIMEOUT, timeout)];
    rts_pdu_reads_back(RTS_FLAG_NONE, commands);
    reveal_with_fuel(joined, 2);
    command_reads_back(
        CMD_CONNECTION_TIMEOUT,
        timeout,
        Seq::empty(),
        "CONN/A3 ConnectionTimeout"@,
    );
    assert(joined(commands) =~= number_command(CMD_CONNECTION_TIMEOUT, timeout)
        + Seq::<u8>::empty());
}

/// The commands of a CONN/C2.
pub open spec fn conn_c2_commands(c2: ConnC2) -> Seq<Seq<u8>> {
    seq![
        number_command(CMD_VERSION, c2.version),
        number_command(CMD_RECEIVE_WINDOW_SIZE, c2.receive_window_size),
        number_command(CMD_CONNECTION_TIMEOUT, c2.connection_timeout),
    ]
}

/// A CONN/C2 is read as the version, window and timeout it carries.
pub proof fn conn_c2_reads_back(c2: ConnC2)
    ensures
        parsed_conn_c2(rts_bytes(RTS_FLAG_NONE, conn_c2_commands(c2))) == Ok::<ConnC2, ErrorView>(
            c2,
        ),
{
    let commands = conn_c2_commands(c2);
    rts_pdu_reads_back(RTS_FLAG_NONE, commands);
    reveal_with_fuel(joined, 4);
    let timeout = number_command(CMD_CONNECTION_TIMEOUT, c2.connection_timeout);
    let window = number_command(CMD_RECEIVE_WINDOW_SIZE, c2.receive_window_size);
    let version = number_command(CMD_VERSION, c2.version);
    let body = joined(commands);
    assert(body =~= version + (window + (timeout + Seq::<u8>::empty())));
    command_reads_back(
        CMD_VERSION,
        c2.version,
        window + (timeout + Seq::<u8>::empty()),
        "CONN/C2 Version"@,
    );
    command_reads_back(
        CMD_RECEIVE_WINDOW_SIZE,
        c2.receive_window_size,
        timeout + Seq::<u8>::empty(),
        "CONN/C2 ReceiveWindowSize"@,
    );
    command_reads_back(
        CMD_CONNECTION_TIMEOUT,
        c2.connection_timeout,
        Seq::empty(),
        "CONN/C2 ConnectionTimeout"@,
    );
    assert(body.skip(16) =~= timeout + Seq::<u8>::empty());
}

/// The PDUs a client sends have fixed lengths, which their headers give.
pub proof fn client_pdu_lengths(vc: Cookie, channel: Cookie, group: Cookie, bytes_received: u32)
    ensures
        conn_a1_bytes(vc, channel).len() == 76,
        pdu::decoded_header(conn_a1_bytes(vc, channel))->Ok_0.frag_length == 76,
        conn_b1_bytes(vc, channel, group).len() == 104,
        pdu::decoded_header(conn_b1_bytes(vc, channel, group))->Ok_0.frag_length == 104,
        flow_control_ack_bytes(channel, bytes_received).len() == 56,
        pdu::decoded_header(flow_control_ack_bytes(channel, bytes_received))->Ok_0.frag_length
            == 56,
        ping_bytes().len() == 20,
        pdu::decoded_header(ping_bytes())->Ok_0.frag_length == 20,
{
    lemma_conn_a1_len(vc, channel);
    rts_pdu_reads_back(RTS_FLAG_NONE, conn_a1_commands(vc, channel));
    lemma_conn_b1_len(vc, channel, group);
    rts_pdu_reads_back(RTS_FLAG_NONE, conn_b1_commands(vc, channel, group));
    lemma_flow_control_ack_len(channel, bytes_received);
    rts_pdu_reads_back(
        RTS_FLAG_OTHER_CMD,
        flow_control_ack_commands(channel, bytes_received),
    );
    rts_pdu_reads_back(RTS_FLAG_PING, Seq::empty());
}

/// An RTS PDU is a Ping exactly where the lowest bit of its flags is set; so a
/// Ping is one, and neither a CONN PDU nor a FlowControlAck is.
pub proof fn only_pings_ping(flags: u16, commands: Seq<Seq<u8>>)
    ensures
        pings(rts_bytes(flags, commands)) <==> flags % 2 == 1,
        pings(ping_bytes()),
        !pings(rts_bytes(RTS_FLAG_NONE, commands)),
        !pings(rts_bytes(RTS_FLAG_OTHER_CMD, commands)),
{
    lemma_flags(flags, commands);
    lemma_flags(RTS_FLAG_PING, Seq::empty());
    lemma_flags(RTS_FLAG_NONE, commands);
    lemma_flags(RTS_FLAG_OTHER_CMD, commands);
}

proof fn lemma_flags(flags: u16, commands: Seq<Seq<u8>>)
    ensures
        rts_bytes(flags, commands).len() >= CommonHeader::LEN + 4,
        wire::u16_at(rts_bytes(flags, commands), CommonHeader::LEN as int) == flags,
{
    let bytes = rts_bytes(flags, commands);
    assert(bytes.subrange(16, 18) =~= wire::le16(flags));
    wire::le16_round_trips(flags, bytes, 16);
}

/// An established virtual connection: the two open channels and what was
/// negotiated for them.
pub struct VirtualConnection<C> {
    pub in_channel: C,
    pub out_channel: C,
    /// The server's timeout from CONN/C2, in milliseconds.
    pub connection_timeout: u32,
    /// The server's receive window from CONN/C2.
    pub receive_window: u32,
    /// The OUT channel cookie of CONN/A1, which every FlowControlAck carries.
    pub out_cookie: Cookie,
}

/// Which of the two channels.
#[derive(Debug, Clone, Copy, PartialEq, Eq, Structural)]
pub enum Side {
    Out,
    In,
}

impl Side {
    pub open spec fn verb(self) -> Seq<char> {
        match self {
            Side::Out => "RPC_OUT_DATA"@,
            Side::In => "RPC_IN_DATA"@,
        }
    }

    /// The HTTP method that opens the channel.
    pub fn method(self) -> (s: String)
        ensures
            s@ == self.verb(),
    {
        match self {
            Side::Out => "RPC_OUT_DATA".to_owned(),
            Side::In => "RPC_IN_DATA".to_owned(),
        }
    }
}

/// How far the handshake has come.
#[derive(Debug)]
pub enum Phase {
    AuthenticateOut,
    SendA1,
    AuthenticateIn,
    SendB1,
    AwaitHead,
    AwaitA3,
    AwaitC2,
    Opened(ConnC2),
}

/// What the handshake wants done next.
#[derive(Debug)]
pub enum Action {
    /// Authenticate a channel whose request declares this content length.
    Authenticate { side: Side, content_length: u64 },
    /// Send a PDU on a channel.
    Write { side: Side, pdu: Vec<u8> },
    /// Receive the head of the response on the OUT channel.
    ReceiveHead,
    /// Read a PDU off the OUT channel.
    ReadPdu,
    /// The virtual connection is open.
    Finished,
}

/// What came of an action.
#[derive(Debug)]
pub enum Event {
    /// The channel is authenticated, or the PDU is sent.
    Done,
    /// The head of a response.
    Head { status: u16, reason: String },
    /// A PDU.
    Pdu(Vec<u8>),
}

/// The RTS handshake of one virtual connection.
pub struct Handshake {
    pub vc: Cookie,
    pub out_cookie: Cookie,
    pub in_cookie: Cookie,
    pub group: Cookie,
    pub phase: Phase,
}

/// Whether `event` can come of the action that `phase` asks for.
pub open spec fn answers(event: Event, phase: Phase) -> bool {
    match phase {
        Phase::AuthenticateOut | Phase::SendA1 | Phase::AuthenticateIn | Phase::SendB1 => {
            event is Done
        },
        Phase::AwaitHead => event is Head,
        Phase::AwaitA3 | Phase::AwaitC2 => event is Pdu,
        Phase::Opened(_) => false,
    }
}

/// The phase after `event` in `phase`.
pub open spec fn phase_after(phase: Phase, event: Event) -> Result<Phase, ErrorView> {
    match phase {
        Phase::AuthenticateOut => Ok(Phase::SendA1),
        Phase::SendA1 => Ok(Phase::AuthenticateIn),
        Phase::AuthenticateIn => Ok(Phase::SendB1),
        Phase::SendB1 => Ok(Phase::AwaitHead),
        Phase::AwaitHead => if event->status == 200 {
            Ok(Phase::AwaitA3)
        } else {
            Err(
                ErrorView::Protocol(
                    "OUT channel not accepted: "@ + text::dec(event->status as nat) + " "@
                        + event->reason@,
                ),
            )
        },
        Phase::AwaitA3 => match parsed_conn_a3(event->Pdu_0@) {
            Err(e) => Err(e),
            Ok(_) => Ok(Phase::AwaitC2),
        },
        Phase::AwaitC2 => match parsed_conn_c2(event->Pdu_0@) {
            Err(e) => Err(e),
            Ok(c2) => Ok(Phase::Opened(c2)),
        },
        Phase::Opened(_) => Ok(phase),
    }
}

/// The phase after `events` from `phase` on, unless one of them ended the
/// handshake.
pub open spec fn run(phase: Phase, events: Seq<Event>) -> Result<Phase, ErrorView>
    decreases events.len(),
{
    if events.len() == 0 {
        Ok(phase)
    } else {
        match run(phase, events.drop_last()) {
            Err(e) => Err(e),
            Ok(p) => phase_after(p, events.last()),
        }
    }
}

/// The virtual connection that a handshake has opened over two channels.
pub open spec fn opened<C>(h: Handshake, in_channel: C, out_channel: C) -> Option<
    VirtualConnection<C>,
> {
    match h.phase {
        Phase::Opened(c2) => Some(
            VirtualConnection {
                in_channel,
                out_channel,
                connection_timeout: c2.connection_timeout,
                receive_window: c2.receive_window_size,
                out_cookie: h.out_cookie,
            },
        ),
        _ => None,
    }
}

/// A handshake that has not begun.
pub open spec fn fresh_handshake(
    vc: Cookie,
    out_cookie: Cookie,
    in_cookie: Cookie,
    group: Cookie,
) -> Handshake {
    Handshake { vc, out_cookie, in_cookie, group, phase: Phase::AuthenticateOut }
}

impl Handshake {
    /// A handshake that has not begun, over four fresh cookies.
    pub fn new(vc: Cookie, out_cookie: Cookie, in_cookie: Cookie, group: Cookie) -> (h: Self)
        ensures
            h == fresh_handshake(vc, out_cookie, in_cookie, group),
    {
        Handshake { vc, out_cookie, in_cookie, group, phase: Phase::AuthenticateOut }
    }

    /// Whether `action` is what is to be done in the current phase: CONN/A1 is the
    /// whole body of the OUT request, CONN/B1 the first bytes of the IN request.
    pub open spec fn wants(self, action: Action) -> bool {
        match self.phase {
            Phase::AuthenticateOut => action == (Action::Authenticate {
                side: Side::Out,
                content_length: conn_a1_bytes(self.vc, self.out_cookie).len() as u64,
            }),
            Phase::SendA1 => action matches Action::Write { side, pdu } && side == Side::Out && pdu@
                == conn_a1_bytes(self.vc, self.out_cookie),
            Phase::AuthenticateIn => action == (Action::Authenticate {
                side: Side::In,
                content_length: IN_CHANNEL_CONTENT_LENGTH,
            }),
            Phase::SendB1 => action matches Action::Write { side, pdu } && side == Side::In && pdu@
                == conn_b1_bytes(self.vc, self.in_cookie, self.group),
            Phase::AwaitHead => action is ReceiveHead,
            Phase::AwaitA3 | Phase::AwaitC2 => action is ReadPdu,
            Phase::Opened(_) => action is Finished,
        }
    }

    /// What is to be done in the current phase.
    pub fn action(&self) -> (action: Action)
        ensures
            self.wants(action),
    {
        match &self.phase {
            Phase::AuthenticateOut => Action::Authenticate {
                side: Side::Out,
                content_length: conn_a1(&self.vc, &self.out_cookie).len() as u64,
            },
            Phase::SendA1 => Action::Write {
                side: Side::Out,
                pdu: conn_a1(&self.vc, &self.out_cookie),
            },
            Phase::AuthenticateIn => Action::Authenticate {
                side: Side::In,
                content_length: IN_CHANNEL_CONTENT_LENGTH,
            },
            Phase::SendB1 => Action::Write {
                side: Side::In,
                pdu: conn_b1(&self.vc, &self.in_cookie, &self.group),
            },
            Phase::AwaitHead => Action::ReceiveHead,
            Phase::AwaitA3 => Action::ReadPdu,
            Phase::AwaitC2 => Action::ReadPdu,
            Phase::Opened(_) => Action::Finished,
        }
    }

    /// Take note of what came of the action. An error ends the handshake.
    pub fn on_event(&mut self, event: Event) -> (r: Result<(), GatewayError>)
        requires
            answers(event, old(self).phase),
        ensures
            match phase_after(old(self).phase, event) {
                Ok(phase) => r is Ok && final(self).phase == phase,
                Err(e) => r is Err && r->Err_0@ == e && final(self).phase == old(self).phase,
            },
            final(self).vc == old(self).vc,
            final(self).out_cookie == old(self).out_cookie,
            final(self).in_cookie == old(self).in_cookie,
            final(self).group == old(self).group,
    {
        match (&self.phase, event) {
            (Phase::AuthenticateOut, _) => {
                self.phase = Phase::SendA1;
            },
            (Phase::SendA1, _) => {
                self.phase = Phase::AuthenticateIn;
            },
            (Phase::AuthenticateIn, _) => {
                self.phase = Phase::SendB1;
            },
            (Phase::SendB1, _) => {
                self.phase = Phase::AwaitHead;
            },
            (Phase::AwaitHead, Event::Head { status, reason }) => {
                if status != 200 {
                    return Err(
                        GatewayError::Protocol(
                            "OUT channel not accepted: ".to_owned().concat(
                                text::dec_string(status as u64).as_str(),
                            ).concat(" ").concat(reason.as_str()),
                        ),
                    );
                }
                self.phase = Phase::AwaitA3;
            },
            (Phase::AwaitA3, Event::Pdu(pdu)) => {
                let _ = parse_conn_a3(pdu.as_slice())?;
                self.phase = Phase::AwaitC2;
            },
            (Phase::AwaitC2, Event::Pdu(pdu)) => {
                let c2 = parse_conn_c2(pdu.as_slice())?;
                self.phase = Phase::Opened(c2);
            },
            _ => {},
        }
        Ok(())
    }

    /// The virtual connection over the two channels, once it is open.
    pub fn open<C>(&self, in_channel: C, out_channel: C) -> (r: Option<VirtualConnection<C>>)
        ensures
            r == opened(*self, in_channel, out_channel),
    {
        match &self.phase {
            Phase::Opened(c2) => Some(
                VirtualConnection {
                    in_channel,
                    out_channel,
                    connection_timeout: c2.connection_timeout,
                    receive_window: c2.receive_window_size,
                    out_cookie: self.out_cookie,
                },
            ),
            _ => None,
        }
    }
}

/// Two channels that authenticate and take their CONN PDUs, an OUT response of
/// 200, and a CONN/A3 and a CONN/C2 that can be read: the virtual connection is
/// open, with what the CONN/C2 said.
pub proof fn handshake_opens(reason: String, a3: Vec<u8>, c2: Vec<u8>)
    requires
        parsed_conn_a3(a3@) is Ok,
        parsed_conn_c2(c2@) is Ok,
    ensures
        run(
            Phase::AuthenticateOut,
            seq![
                Event::Done,
                Event::Done,
                Event::Done,
                Event::Done,
                Event::Head { status: 200, reason },
                Event::Pdu(a3),
                Event::Pdu(c2),
            ],
        ) == Ok::<Phase, ErrorView>(Phase::Opened(parsed_conn_c2(c2@)->Ok_0)),
{
    reveal_with_fuel(run, 8);
}

/// The number of events a phase is behind the start.
pub open spec fn rank(phase: Phase) -> nat {
    match phase {
        Phase::AuthenticateOut => 0,
        Phase::SendA1 => 1,
        Phase::AuthenticateIn => 2,
        Phase::SendB1 => 3,
        Phase::AwaitHead => 4,
        Phase::AwaitA3 => 5,
        Phase::AwaitC2 => 6,
        Phase::Opened(_) => 7,
    }
}

/// No phase is skipped or repeated: an event that does not end the handshake takes
/// it to the next phase. In particular nothing opens the virtual connection but a
/// CONN/C2, read after both channels authenticated and a CONN/A3 came.
pub proof fn handshake_keeps_order(phase: Phase, event: Event)
    requires
        answers(event, phase),
        phase_after(phase, event) is Ok,
    ensures
        rank(phase_after(phase, event)->Ok_0) == rank(phase) + 1,
        phase_after(phase, event)->Ok_0 matches Phase::Opened(c2) ==> parsed_conn_c2(
            event->Pdu_0@,
        ) == Ok::<ConnC2, ErrorView>(c2),
{
}

/// The commands, flags and values of the protocol have their numbers.
pub proof fn commands_have_their_numbers()
    ensures
        CMD_RECEIVE_WINDOW_SIZE == 0,
        CMD_FLOW_CONTROL_ACK == 1,
        CMD_CONNECTION_TIMEOUT == 2,
        CMD_COOKIE == 3,
        CMD_CHANNEL_LIFETIME == 4,
        CMD_CLIENT_KEEPALIVE == 5,
        CMD_VERSION == 6,
        CMD_ASSOCIATION_GROUP_ID == 12,
        CMD_DESTINATION == 13,
        RTS_FLAG_NONE == 0,
        RTS_FLAG_PING == 1,
        RTS_FLAG_OTHER_CMD == 2,
        FD_OUT_PROXY == 3,
        RTS_VERSION == 1,
        RECEIVE_WINDOW_SIZE == 65536,
        2 * FLOW_CONTROL_ACK_THRESHOLD == 65536,
        CHANNEL_LIFETIME == 1073741824,
        IN_CHANNEL_CONTENT_LENGTH == 1073741824,
        CLIENT_KEEPALIVE == 300000,
{
}

/// Whether `b` is an RTS PDU with those flags and that number of commands, all in one
/// fragment, unsigned, and under no call.
pub open spec fn is_rts(b: Seq<u8>, flags: u16, commands: u16) -> bool {
    &&& pdu::decoded_header(b) == Ok::<CommonHeader, ErrorView>(
        CommonHeader {
            ptype: PType::Rts,
            pfc_flags: 3,
            frag_length: wire::low16(b.len()),
            auth_length: 0,
            call_id: 0,
        },
    )
    &&& wire::u16_at(b, 16) == flags
    &&& wire::u16_at(b, 18) == commands
}

proof fn lemma_is_rts(flags: u16, commands: Seq<Seq<u8>>)
    requires
        commands.len() <= 100,
    ensures
        is_rts(rts_bytes(flags, commands), flags, commands.len() as u16),
        rts_bytes(flags, commands).len() == 20 + joined(commands).len(),
        rts_bytes(flags, commands).skip(20) == joined(commands),
{
    let b = rts_bytes(flags, commands);
    let h = CommonHeader {
        ptype: PType::Rts,
        pfc_flags: pfc::WHOLE,
        frag_length: wire::low16(20 + joined(commands).len()),
        auth_length: 0,
        call_id: 0,
    };
    let rest = wire::le16(flags) + wire::le16(wire::low16(commands.len())) + joined(commands);
    assert(b =~= pdu::header_bytes(h) + rest);
    pdu::header_round_trips(h, rest);
    assert(b.subrange(16, 18) =~= wire::le16(flags));
    wire::le16_round_trips(flags, b, 16);
    assert(b.subrange(18, 20) =~= wire::le16(wire::low16(commands.len())));
    wire::le16_round_trips(wire::low16(commands.len()), b, 18);
    assert(b.skip(20) =~= joined(commands));
}

/// The cookie that the command `want` in front of `s` carries.
pub open spec fn command_cookie(s: Seq<u8>, want: u32) -> Option<Seq<u8>> {
    if s.len() >= 20 && wire::u32_at(s, 0) == want {
        Some(s.subrange(4, 20))
    } else {
        None
    }
}

proof fn lemma_cookie_reads_back(command: u32, cookie: Cookie, rest: Seq<u8>)
    ensures
        command_cookie(cookie_command(command, cookie) + rest, command) == Some(cookie.0@),
        (cookie_command(command, cookie) + rest).skip(20) == rest,
{
    let s = cookie_command(command, cookie) + rest;
    assert(s.subrange(0, 4) =~= wire::le32(command));
    wire::le32_round_trips(command, s, 0);
    assert(s.subrange(4, 20) =~= cookie.0@);
    assert(s.skip(20) =~= rest);
}

/// A CONN/A1 reads back as what it is made of: version 1, the cookie of the virtual
/// connection, the cookie of the OUT channel, and a receive window of 64 KiB, in this
/// order and nothing else.
pub proof fn conn_a1_reads_back(vc: Cookie, out: Cookie, what: Seq<char>)
    ensures
        ({
            let b = conn_a1_bytes(vc, out);
            let body = rts_body(b);
            &&& is_rts(b, 0, 4)
            &&& b.len() == 76
            &&& command_value(body, 6, what) == Ok::<u32, ErrorView>(1)
            &&& command_cookie(body.skip(8), 3) == Some(vc.0@)
            &&& command_cookie(body.skip(28), 3) == Some(out.0@)
            &&& command_value(body.skip(48), 0, what) == Ok::<u32, ErrorView>(65536)
            &&& b.subrange(32, 48) == vc.0@
            &&& b.subrange(52, 68) == out.0@
        }),
{
    lemma_conn_a1_pdu(vc, out);
    lemma_conn_a1_body(vc, out, what);
    lemma_conn_a1_cookies(vc, out);
}

proof fn lemma_conn_a1_pdu(vc: Cookie, out: Cookie)
    ensures
        is_rts(conn_a1_bytes(vc, out), 0, 4),
        conn_a1_bytes(vc, out).len() == 76,
        rts_body(conn_a1_bytes(vc, out)) == number_command(CMD_VERSION, RTS_VERSION) + (
        cookie_command(CMD_COOKIE, vc) + (cookie_command(CMD_COOKIE, out) + (number_command(
            CMD_RECEIVE_WINDOW_SIZE,
            RECEIVE_WINDOW_SIZE,
        ) + Seq::<u8>::empty()))),
        conn_a1_bytes(vc, out).skip(20) == rts_body(conn_a1_bytes(vc, out)),
{
    let commands = conn_a1_commands(vc, out);
    lemma_is_rts(RTS_FLAG_NONE, commands);
    rts_pdu_reads_back(RTS_FLAG_NONE, commands);
    lemma_conn_a1_len(vc, out);
    lemma_conn_a1_is_joined(vc, out);
}

proof fn lemma_conn_a1_body(vc: Cookie, out: Cookie, what: Seq<char>)
    ensures
        ({
            let s4 = number_command(CMD_RECEIVE_WINDOW_SIZE, RECEIVE_WINDOW_SIZE) + Seq::<
                u8,
            >::empty();
            let s3 = cookie_command(CMD_COOKIE, out) + s4;
            let s2 = cookie_command(CMD_COOKIE, vc) + s3;
            let s1 = number_command(CMD_VERSION, RTS_VERSION) + s2;
            &&& command_value(s1, CMD_VERSION, what) == Ok::<u32, ErrorView>(RTS_VERSION)
            &&& command_cookie(s1.skip(8), CMD_COOKIE) == Some(vc.0@)
            &&& command_cookie(s1.skip(28), CMD_COOKIE) == Some(out.0@)
            &&& command_value(s1.skip(48), CMD_RECEIVE_WINDOW_SIZE, what) == Ok::<u32, ErrorView>(
                RECEIVE_WINDOW_SIZE,
            )
        }),
{
    let s4 = number_command(CMD_RECEIVE_WINDOW_SIZE, RECEIVE_WINDOW_SIZE) + Seq::<u8>::empty();
    let s3 = cookie_command(CMD_COOKIE, out) + s4;
    let s2 = cookie_command(CMD_COOKIE, vc) + s3;
    let s1 = number_command(CMD_VERSION, RTS_VERSION) + s2;
    command_reads_back(CMD_VERSION, RTS_VERSION, s2, what);
    lemma_cookie_reads_back(CMD_COOKIE, vc, s3);
    lemma_cookie_reads_back(CMD_COOKIE, out, s4);
    command_reads_back(CMD_RECEIVE_WINDOW_SIZE, RECEIVE_WINDOW_SIZE, Seq::empty(), what);
    assert(s1.len() == 56);
    lemma_skip_twice(s1, 8, 20);
    lemma_skip_twice(s1, 28, 20);
}

proof fn lemma_conn_a1_cookies(vc: Cookie, out: Cookie)
    ensures
        conn_a1_bytes(vc, out).subrange(32, 48) == vc.0@,
        conn_a1_bytes(vc, out).subrange(52, 68) == out.0@,
{
    let b = conn_a1_bytes(vc, out);
    lemma_conn_a1_pdu(vc, out);
    lemma_conn_a1_body(vc, out, Seq::empty());
    lemma_skip_twice(b, 20, 8);
    lemma_skip_twice(b, 20, 28);
    lemma_part_behind(b, 28, 4, 20);
    lemma_part_behind(b, 48, 4, 20);
}

proof fn lemma_conn_a1_is_joined(vc: Cookie, out: Cookie)
    ensures
        joined(conn_a1_commands(vc, out)) == number_command(CMD_VERSION, RTS_VERSION) + (
        cookie_command(CMD_COOKIE, vc) + (cookie_command(CMD_COOKIE, out) + (number_command(
            CMD_RECEIVE_WINDOW_SIZE,
            RECEIVE_WINDOW_SIZE,
        ) + Seq::<u8>::empty()))),
{
    let commands = conn_a1_commands(vc, out);
    lemma_joined_from_front(commands);
    lemma_joined_from_front(commands.skip(1));
    lemma_joined_from_front(commands.skip(1).skip(1));
    lemma_joined_from_front(commands.skip(1).skip(1).skip(1));
    assert(commands.skip(1).skip(1).skip(1).skip(1) =~= Seq::<Seq<u8>>::empty());
}

/// The first of some parts stands in front of the others.
proof fn lemma_joined_from_front(parts: Seq<Seq<u8>>)
    requires
        parts.len() > 0,
    ensures
        joined(parts) == parts[0] + joined(parts.skip(1)),
    decreases parts.len(),
{
    let rest = parts.skip(1);
    if rest.len() > 0 {
        let front = parts.drop_last();
        lemma_joined_from_front(front);
        assert(front.skip(1) =~= rest.drop_last());
        assert(front[0] == parts[0]);
        assert(rest.last() == parts.last());
        lemma_regroup(parts[0], joined(rest.drop_last()), parts.last());
    } else {
        assert(parts.drop_last() =~= Seq::<Seq<u8>>::empty());
        assert(joined(parts.drop_last()) + parts.last() =~= parts[0] + Seq::<u8>::empty());
    }
}

proof fn lemma_regroup(a: Seq<u8>, b: Seq<u8>, c: Seq<u8>)
    ensures
        a + b + c == a + (b + c),
{
    assert(a + b + c =~= a + (b + c));
}

proof fn lemma_part_behind(s: Seq<u8>, n: int, from: int, to: int)
    requires
        0 <= n,
        0 <= from <= to,
        n + to <= s.len(),
    ensures
        s.skip(n).subrange(from, to) == s.subrange(n + from, n + to),
{
    assert(s.skip(n).subrange(from, to) =~= s.subrange(n + from, n + to));
}

proof fn lemma_conn_b1_is_joined(vc: Cookie, in_ch: Cookie, group: Cookie)
    ensures
        joined(conn_b1_commands(vc, in_ch, group)) == number_command(CMD_VERSION, RTS_VERSION) + (
        cookie_command(CMD_COOKIE, vc) + (cookie_command(CMD_COOKIE, in_ch) + (number_command(
            CMD_CHANNEL_LIFETIME,
            CHANNEL_LIFETIME,
        ) + (number_command(CMD_CLIENT_KEEPALIVE, CLIENT_KEEPALIVE) + (cookie_command(
            CMD_ASSOCIATION_GROUP_ID,
            group,
        ) + Seq::<u8>::empty()))))),
{
    let commands = conn_b1_commands(vc, in_ch, group);
    let c1 = commands.skip(1);
    let c2 = c1.skip(1);
    let c3 = c2.skip(1);
    let c4 = c3.skip(1);
    let c5 = c4.skip(1);
    lemma_joined_from_front(commands);
    lemma_joined_from_front(c1);
    lemma_joined_from_front(c2);
    lemma_joined_from_front(c3);
    lemma_joined_from_front(c4);
    lemma_joined_from_front(c5);
    assert(c5.skip(1) =~= Seq::<Seq<u8>>::empty());
}

proof fn lemma_skip_twice(s: Seq<u8>, a: int, b: int)
    requires
        0 <= a,
        0 <= b,
        a + b <= s.len(),
    ensures
        s.skip(a).skip(b) == s.skip(a + b),
{
    assert(s.skip(a).skip(b) =~= s.skip(a + b));
}

/// A CONN/B1 reads back as what it is made of: version 1, the cookie of the virtual
/// connection, the cookie of the IN channel, a lifetime of 1 GiB, a keepalive of five
/// minutes, and the association group, in this order and nothing else.
pub proof fn conn_b1_reads_back(vc: Cookie, in_ch: Cookie, group: Cookie, what: Seq<char>)
    ensures
        ({
            let b = conn_b1_bytes(vc, in_ch, group);
            let body = rts_body(b);
            &&& is_rts(b, 0, 6)
            &&& b.len() == 104
            &&& command_value(body, 6, what) == Ok::<u32, ErrorView>(1)
            &&& command_cookie(body.skip(8), 3) == Some(vc.0@)
            &&& command_cookie(body.skip(28), 3) == Some(in_ch.0@)
            &&& command_value(body.skip(48), 4, what) == Ok::<u32, ErrorView>(1073741824)
            &&& command_value(body.skip(56), 5, what) == Ok::<u32, ErrorView>(300000)
            &&& command_cookie(body.skip(64), 12) == Some(group.0@)
        }),
{
    lemma_conn_b1_pdu(vc, in_ch, group);
    lemma_conn_b1_body(vc, in_ch, group, what);
}

proof fn lemma_conn_b1_pdu(vc: Cookie, in_ch: Cookie, group: Cookie)
    ensures
        is_rts(conn_b1_bytes(vc, in_ch, group), 0, 6),
        conn_b1_bytes(vc, in_ch, group).len() == 104,
        rts_body(conn_b1_bytes(vc, in_ch, group)) == number_command(CMD_VERSION, RTS_VERSION) + (
        cookie_command(CMD_COOKIE, vc) + (cookie_command(CMD_COOKIE, in_ch) + (number_command(
            CMD_CHANNEL_LIFETIME,
            CHANNEL_LIFETIME,
        ) + (number_command(CMD_CLIENT_KEEPALIVE, CLIENT_KEEPALIVE) + (cookie_command(
            CMD_ASSOCIATION_GROUP_ID,
            group,
        ) + Seq::<u8>::empty()))))),
{
    let commands = conn_b1_commands(vc, in_ch, group);
    lemma_is_rts(RTS_FLAG_NONE, commands);
    rts_pdu_reads_back(RTS_FLAG_NONE, commands);
    lemma_conn_b1_len(vc, in_ch, group);
    lemma_conn_b1_is_joined(vc, in_ch, group);
}

proof fn lemma_conn_b1_body(vc: Cookie, in_ch: Cookie, group: Cookie, what: Seq<char>)
    ensures
        ({
            let s6 = cookie_command(CMD_ASSOCIATION_GROUP_ID, group) + Seq::<u8>::empty();
            let s5 = number_command(CMD_CLIENT_KEEPALIVE, CLIENT_KEEPALIVE) + s6;
            let s4 = number_command(CMD_CHANNEL_LIFETIME, CHANNEL_LIFETIME) + s5;
            let s3 = cookie_command(CMD_COOKIE, in_ch) + s4;
            let s2 = cookie_command(CMD_COOKIE, vc) + s3;
            let s1 = number_command(CMD_VERSION, RTS_VERSION) + s2;
            &&& command_value(s1, CMD_VERSION, what) == Ok::<u32, ErrorView>(RTS_VERSION)
            &&& command_cookie(s1.skip(8), CMD_COOKIE) == Some(vc.0@)
            &&& command_cookie(s1.skip(28), CMD_COOKIE) == Some(in_ch.0@)
            &&& command_value(s1.skip(48), CMD_CHANNEL_LIFETIME, what) == Ok::<u32, ErrorView>(
                CHANNEL_LIFETIME,
            )
            &&& command_value(s1.skip(56), CMD_CLIENT_KEEPALIVE, what) == Ok::<u32, ErrorView>(
                CLIENT_KEEPALIVE,
            )
            &&& command_cookie(s1.skip(64), CMD_ASSOCIATION_GROUP_ID) == Some(group.0@)
        }),
{
    let s6 = cookie_command(CMD_ASSOCIATION_GROUP_ID, group) + Seq::<u8>::empty();
    let s5 = number_command(CMD_CLIENT_KEEPALIVE, CLIENT_KEEPALIVE) + s6;
    let s4 = number_command(CMD_CHANNEL_LIFETIME, CHANNEL_LIFETIME) + s5;
    let s3 = cookie_command(CMD_COOKIE, in_ch) + s4;
    let s2 = cookie_command(CMD_COOKIE, vc) + s3;
    let s1 = number_command(CMD_VERSION, RTS_VERSION) + s2;
    command_reads_back(CMD_VERSION, RTS_VERSION, s2, what);
    lemma_cookie_reads_back(CMD_COOKIE, vc, s3);
    lemma_cookie_reads_back(CMD_COOKIE, in_ch, s4);
    command_reads_back(CMD_CHANNEL_LIFETIME, CHANNEL_LIFETIME, s5, what);
    command_reads_back(CMD_CLIENT_KEEPALIVE, CLIENT_KEEPALIVE, s6, what);
    lemma_cookie_reads_back(CMD_ASSOCIATION_GROUP_ID, group, Seq::empty());
    assert(s1.len() == 84);
    lemma_skip_twice(s1, 8, 20);
    lemma_skip_twice(s1, 28, 20);
    lemma_skip_twice(s1, 48, 8);
    lemma_skip_twice(s1, 56, 8);
}

/// The cookies of a CONN/A1 and a CONN/B1 tie the channels together: the virtual
/// connection stands at the same place in both.
pub proof fn channels_share_a_connection(vc: Cookie, out: Cookie, in_ch: Cookie, group: Cookie)
    ensures
        command_cookie(rts_body(conn_a1_bytes(vc, out)).skip(8), 3) == command_cookie(
            rts_body(conn_b1_bytes(vc, in_ch, group)).skip(8),
            3,
        ),
{
    conn_a1_reads_back(vc, out, Seq::empty());
    conn_b1_reads_back(vc, in_ch, group, Seq::empty());
}

/// A FlowControlAck reads back as what it reports: it goes to the OUT proxy, and carries
/// the count, a window of 64 KiB, and the OUT channel cookie, the same that the CONN/A1 of
/// that channel carries.
pub proof fn flow_control_ack_reads_back(
    vc: Cookie,
    out_cookie: Cookie,
    bytes_received: u32,
    what: Seq<char>,
)
    ensures
        ({
            let b = flow_control_ack_bytes(out_cookie, bytes_received);
            let body = rts_body(b);
            &&& is_rts(b, 2, 2)
            &&& b.len() == 56
            &&& command_value(body, 13, what) == Ok::<u32, ErrorView>(3)
            &&& command_value(body.skip(8), 1, what) == Ok::<u32, ErrorView>(bytes_received)
            &&& wire::u32_at(b, 36) == 65536
            &&& b.subrange(40, 56) == out_cookie.0@
            &&& b.subrange(40, 56) == conn_a1_bytes(vc, out_cookie).subrange(52, 68)
        }),
{
    lemma_flow_control_ack_pdu(out_cookie, bytes_received);
    lemma_flow_control_ack_body(out_cookie, bytes_received, what);
    lemma_flow_control_ack_window(out_cookie, bytes_received);
    lemma_conn_a1_cookies(vc, out_cookie);
}

proof fn lemma_flow_control_ack_pdu(out_cookie: Cookie, bytes_received: u32)
    ensures
        ({
            let b = flow_control_ack_bytes(out_cookie, bytes_received);
            &&& is_rts(b, 2, 2)
            &&& b.len() == 56
            &&& rts_body(b) == number_command(CMD_DESTINATION, FD_OUT_PROXY) + (number_command(
                CMD_FLOW_CONTROL_ACK,
                bytes_received,
            ) + (wire::le32(RECEIVE_WINDOW_SIZE) + out_cookie.0@))
            &&& b.skip(20) == rts_body(b)
        }),
{
    let commands = flow_control_ack_commands(out_cookie, bytes_received);
    lemma_is_rts(RTS_FLAG_OTHER_CMD, commands);
    rts_pdu_reads_back(RTS_FLAG_OTHER_CMD, commands);
    lemma_flow_control_ack_len(out_cookie, bytes_received);
    lemma_flow_control_ack_is_joined(out_cookie, bytes_received);
}

proof fn lemma_flow_control_ack_body(out_cookie: Cookie, bytes_received: u32, what: Seq<char>)
    ensures
        ({
            let window = wire::le32(RECEIVE_WINDOW_SIZE) + out_cookie.0@;
            let s2 = number_command(CMD_FLOW_CONTROL_ACK, bytes_received) + window;
            let s1 = number_command(CMD_DESTINATION, FD_OUT_PROXY) + s2;
            &&& command_value(s1, CMD_DESTINATION, what) == Ok::<u32, ErrorView>(FD_OUT_PROXY)
            &&& command_value(s1.skip(8), CMD_FLOW_CONTROL_ACK, what) == Ok::<u32, ErrorView>(
                bytes_received,
            )
            &&& s1.skip(16) == window
        }),
{
    let window = wire::le32(RECEIVE_WINDOW_SIZE) + out_cookie.0@;
    let s2 = number_command(CMD_FLOW_CONTROL_ACK, bytes_received) + window;
    let s1 = number_command(CMD_DESTINATION, FD_OUT_PROXY) + s2;
    command_reads_back(CMD_DESTINATION, FD_OUT_PROXY, s2, what);
    command_reads_back(CMD_FLOW_CONTROL_ACK, bytes_received, window, what);
    assert(s1.len() == 36);
    lemma_skip_twice(s1, 8, 8);
}

proof fn lemma_flow_control_ack_window(out_cookie: Cookie, bytes_received: u32)
    ensures
        wire::u32_at(flow_control_ack_bytes(out_cookie, bytes_received), 36) == 65536,
        flow_control_ack_bytes(out_cookie, bytes_received).subrange(40, 56) == out_cookie.0@,
{
    let b = flow_control_ack_bytes(out_cookie, bytes_received);
    lemma_flow_control_ack_pdu(out_cookie, bytes_received);
    lemma_flow_control_ack_body(out_cookie, bytes_received, Seq::empty());
    lemma_skip_twice(b, 20, 16);
    lemma_window(RECEIVE_WINDOW_SIZE, out_cookie);
    lemma_part_behind(b, 36, 0, 4);
    lemma_part_behind(b, 36, 4, 20);
    wire::le32_round_trips(RECEIVE_WINDOW_SIZE, b, 36);
}

proof fn lemma_window(size: u32, cookie: Cookie)
    ensures
        (wire::le32(size) + cookie.0@).len() == 20,
        (wire::le32(size) + cookie.0@).subrange(0, 4) == wire::le32(size),
        (wire::le32(size) + cookie.0@).subrange(4, 20) == cookie.0@,
{
    assert((wire::le32(size) + cookie.0@).subrange(0, 4) =~= wire::le32(size));
    assert((wire::le32(size) + cookie.0@).subrange(4, 20) =~= cookie.0@);
}

proof fn lemma_flow_control_ack_is_joined(out_cookie: Cookie, bytes_received: u32)
    ensures
        joined(flow_control_ack_commands(out_cookie, bytes_received)) == number_command(
            CMD_DESTINATION,
            FD_OUT_PROXY,
        ) + (number_command(CMD_FLOW_CONTROL_ACK, bytes_received) + (wire::le32(
            RECEIVE_WINDOW_SIZE,
        ) + out_cookie.0@)),
{
    let commands = flow_control_ack_commands(out_cookie, bytes_received);
    let ack = ack_command(bytes_received, RECEIVE_WINDOW_SIZE, out_cookie);
    lemma_joined_from_front(commands);
    lemma_joined_from_front(commands.skip(1));
    assert(commands.skip(1).skip(1) =~= Seq::<Seq<u8>>::empty());
    assert(ack + Seq::<u8>::empty() =~= number_command(CMD_FLOW_CONTROL_ACK, bytes_received) + (
    wire::le32(RECEIVE_WINDOW_SIZE) + out_cookie.0@));
}

/// A Ping is an RTS PDU with the Ping flag and no commands.
pub proof fn ping_reads_back()
    ensures
        is_rts(ping_bytes(), 1, 0),
        ping_bytes().len() == 20,
{
    lemma_is_rts(RTS_FLAG_PING, Seq::empty());
}

/// Nothing but its one command, with no flags, is a CONN/A3, and nothing but its three,
/// in their order, a CONN/C2.
pub proof fn conn_shapes_are_checked(b: Seq<u8>)
    ensures
        parsed_conn_a3(b) matches Ok(a3) ==> rts_head(b) == Ok::<(u16, u16), ErrorView>((0, 1))
            && wire::u32_at(rts_body(b), 0) == 2 && wire::u32_at(rts_body(b), 4)
            == a3.connection_timeout,
        parsed_conn_c2(b) matches Ok(c2) ==> rts_head(b) == Ok::<(u16, u16), ErrorView>((0, 3))
            && wire::u32_at(rts_body(b), 0) == 6 && wire::u32_at(rts_body(b), 4) == c2.version
            && wire::u32_at(rts_body(b), 8) == 0 && wire::u32_at(rts_body(b), 12)
            == c2.receive_window_size && wire::u32_at(rts_body(b), 16) == 2 && wire::u32_at(
            rts_body(b),
            20,
        ) == c2.connection_timeout,
{
}

/// What is done in each phase: the OUT channel authenticates for a body of 76 bytes, which
/// are the CONN/A1, then the IN channel for one of 1 GiB, which begins with the CONN/B1;
/// the rest is read off the OUT channel.
pub proof fn phases_have_their_actions(h: Handshake, action: Action)
    requires
        h.wants(action),
    ensures
        match h.phase {
            Phase::AuthenticateOut => action == (Action::Authenticate {
                side: Side::Out,
                content_length: 76,
            }),
            Phase::SendA1 => action matches Action::Write { side, pdu } && side == Side::Out
                && is_rts(pdu@, 0, 4) && pdu@.subrange(32, 48) == h.vc.0@ && pdu@.subrange(52, 68)
                == h.out_cookie.0@,
            Phase::AuthenticateIn => action == (Action::Authenticate {
                side: Side::In,
                content_length: 1073741824,
            }),
            Phase::SendB1 => action matches Action::Write { side, pdu } && side == Side::In
                && is_rts(pdu@, 0, 6) && command_cookie(rts_body(pdu@).skip(8), 3) == Some(h.vc.0@)
                && command_cookie(rts_body(pdu@).skip(28), 3) == Some(h.in_cookie.0@)
                && command_cookie(rts_body(pdu@).skip(64), 12) == Some(h.group.0@),
            Phase::AwaitHead => action == Action::ReceiveHead,
            Phase::AwaitA3 => action == Action::ReadPdu,
            Phase::AwaitC2 => action == Action::ReadPdu,
            Phase::Opened(_) => action == Action::Finished,
        },
        Side::Out.verb() == "RPC_OUT_DATA"@,
        Side::In.verb() == "RPC_IN_DATA"@,
{
    conn_a1_reads_back(h.vc, h.out_cookie, Seq::empty());
    conn_b1_reads_back(h.vc, h.in_cookie, h.group, Seq::empty());
}

/// An OUT response other than 200, and a PDU that is not the one awaited, end the
/// handshake.
pub proof fn refusals_end_the_handshake(phase: Phase, event: Event)
    requires
        answers(event, phase),
    ensures
        phase is AwaitHead ==> (phase_after(phase, event) is Ok <==> event->status == 200),
        phase is AwaitA3 ==> (phase_after(phase, event) is Ok <==> parsed_conn_a3(
            event->Pdu_0@,
        ) is Ok),
        phase is AwaitC2 ==> (phase_after(phase, event) is Ok <==> parsed_conn_c2(
            event->Pdu_0@,
        ) is Ok),
{
}

/// An open virtual connection has the timeout and the window of its CONN/C2, the cookie of
/// its CONN/A1, and each channel on its side.
pub proof fn connection_is_as_negotiated<C>(
    h: Handshake,
    version: u32,
    window: u32,
    timeout: u32,
    in_channel: C,
    out_channel: C,
)
    requires
        h.phase == Phase::Opened(
            ConnC2 { version, receive_window_size: window, connection_timeout: timeout },
        ),
    ensures
        opened(h, in_channel, out_channel) matches Some(vc) && vc.connection_timeout == timeout
            && vc.receive_window == window && vc.out_cookie == h.out_cookie && vc.in_channel
            == in_channel && vc.out_channel == out_channel,
{
}

/// Bytes are an RTS PDU exactly where their header says so (type 20) and flags and number
/// of commands follow it, which are read at 16 and 18; the commands are what stands from 20
/// on.
pub proof fn rts_head_is_read_at_its_places(b: Seq<u8>)
    ensures
        rts_head(b) is Ok <==> b.len() >= 20 && b[0] == 5 && b[2] == 20,
        rts_head(b) matches Ok((flags, num)) ==> flags == b[16] + 256 * b[17] && num == b[18] + 256
            * b[19] && rts_body(b) == b.skip(20),
{
    pdu::header_is_read_at_its_places(b);
    if b.len() >= 20 {
        assert(rts_body(b) =~= b.skip(20));
    }
}

/// A PDU that is none of RTS is reported by its type, a command by the one that was wanted
/// and the one that came, and a response by its status and reason.
pub proof fn rts_errors_name_their_cause(
    b: Seq<u8>,
    h: CommonHeader,
    s: Seq<u8>,
    want: u32,
    what: Seq<char>,
    status: u16,
    reason: String,
)
    requires
        pdu::decoded_header(b) == Ok::<CommonHeader, ErrorView>(h),
    ensures
        b[2] != 20 ==> rts_head(b) == Err::<(u16, u16), ErrorView>(
            ErrorView::Protocol("expected RTS PDU, got "@ + h.ptype.title()),
        ),
        s.len() >= 4 && wire::u32_at(s, 0) != want ==> command_value(s, want, what) == Err::<
            u32,
            ErrorView,
        >(
            ErrorView::Protocol(
                what + ": expected command "@ + text::hex(want as nat) + ", got "@ + text::hex(
                    wire::u32_at(s, 0) as nat,
                ),
            ),
        ),
        status != 200 ==> phase_after(Phase::AwaitHead, Event::Head { status, reason }) == Err::<
            Phase,
            ErrorView,
        >(
            ErrorView::Protocol(
                "OUT channel not accepted: "@ + text::dec(status as nat) + " "@ + reason@,
            ),
        ),
{
    pdu::header_is_read_at_its_places(b);
}

/// An RTS PDU of another shape than the awaited one is reported by its flags and the number
/// of its commands.
pub proof fn shape_errors_name_the_shape(b: Seq<u8>)
    requires
        rts_head(b) is Ok,
    ensures
        ({
            let flags = wire::u16_at(b, 16);
            let num = wire::u16_at(b, 18);
            let shape = " shape mismatch: flags="@ + text::padded_hex(flags as nat, 4)
                + " commands="@ + text::dec(num as nat);
            &&& flags != 0 || num != 1 ==> (parsed_conn_a3(b) matches Err(ErrorView::Protocol(m))
                && m == "CONN/A3"@ + shape)
            &&& flags != 0 || num != 3 ==> (parsed_conn_c2(b) matches Err(ErrorView::Protocol(m))
                && m == "CONN/C2"@ + shape)
        }),
{
    rts_head_is_read_at_its_places(b);
    let flags = wire::u16_at(b, 16);
    let num = wire::u16_at(b, 18);
    assert(rts_head(b) == Ok::<(u16, u16), ErrorView>((flags, num)));
    lemma_shape_text("CONN/A3"@, flags, num);
    lemma_shape_text("CONN/C2"@, flags, num);
}

proof fn lemma_shape_text(pdu: Seq<char>, flags: u16, num: u16)
    ensures
        shape_mismatch(pdu, flags, num) == ErrorView::Protocol(
            pdu + (" shape mismatch: flags="@ + text::padded_hex(flags as nat, 4) + " commands="@
                + text::dec(num as nat)),
        ),
{
    assert(pdu + " shape mismatch: flags="@ + text::padded_hex(flags as nat, 4) + " commands="@
        + text::dec(num as nat) =~= pdu + (" shape mismatch: flags="@ + text::padded_hex(
        flags as nat,
        4,
    ) + " commands="@ + text::dec(num as nat)));
}

/// A fresh handshake starts with the OUT channel. Its CONN/A1 carries the cookies of the
/// connection and of the OUT channel, its CONN/B1 those of the connection, of the IN channel
/// and of the group, and the connection that it opens keeps that of the OUT channel.
pub proof fn cookies_keep_their_roles<C>(
    vc: Cookie,
    out_cookie: Cookie,
    in_cookie: Cookie,
    group: Cookie,
    a1: Handshake,
    b1: Handshake,
    done: Handshake,
    sent_a1: Action,
    sent_b1: Action,
    in_channel: C,
    out_channel: C,
)
    requires
        a1 == (Handshake {
            phase: Phase::SendA1,
            ..fresh_handshake(vc, out_cookie, in_cookie, group)
        }),
        b1 == (Handshake {
            phase: Phase::SendB1,
            ..fresh_handshake(vc, out_cookie, in_cookie, group)
        }),
        done == (Handshake {
            phase: done.phase,
            ..fresh_handshake(vc, out_cookie, in_cookie, group)
        }),
        a1.wants(sent_a1),
        b1.wants(sent_b1),
        done.phase is Opened,
    ensures
        fresh_handshake(vc, out_cookie, in_cookie, group).phase is AuthenticateOut,
        sent_a1->pdu@.subrange(32, 48) == vc.0@,
        sent_a1->pdu@.subrange(52, 68) == out_cookie.0@,
        command_cookie(rts_body(sent_b1->pdu@).skip(8), 3) == Some(vc.0@),
        command_cookie(rts_body(sent_b1->pdu@).skip(28), 3) == Some(in_cookie.0@),
        command_cookie(rts_body(sent_b1->pdu@).skip(64), 12) == Some(group.0@),
        opened(done, in_channel, out_channel) matches Some(open) && open.out_cookie == out_cookie,
{
    phases_have_their_actions(a1, sent_a1);
    phases_have_their_actions(b1, sent_b1);
}

} // verus!

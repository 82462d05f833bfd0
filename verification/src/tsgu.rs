//! The `TsProxy*` calls over the bound association.
//!
//! `TsProxyCreateTunnel`, `TsProxyAuthorizeTunnel` and `TsProxyCreateChannel` (which
//! names the target) lead to `TsProxySetupReceivePipe`, after which the bytes of the
//! target stream back; `TsProxySendToServer` carries bytes to it.
use vstd::prelude::*;
use vstd::slice::{slice_subrange, slice_to_vec};
use vstd::string::*;

use crate::auth;
use crate::auth::{NtlmAuth, RPC_SIGNATURE_SIZE};
use crate::bind;
use crate::bind::BoundRpc;
use crate::error;
use crate::error::{ErrorView, GatewayError};
use crate::pdu;
use crate::pdu::{pfc, CommonHeader};
use crate::request;
use crate::request::ResponseReader;
use crate::rts;
use crate::rts::Cookie;
use crate::text;
use crate::wire;

verus! {

/// `TsProxyCreateTunnel`.
pub const OP_CREATE_TUNNEL: u16 = 1;

/// `TsProxyAuthorizeTunnel`.
pub const OP_AUTHORIZE_TUNNEL: u16 = 2;

/// `TsProxyCreateChannel`.
pub const OP_CREATE_CHANNEL: u16 = 4;

/// `TsProxySetupReceivePipe`.
pub const OP_SETUP_RECEIVE_PIPE: u16 = 8;

/// `TsProxySendToServer`.
pub const OP_SEND_TO_SERVER: u16 = 9;

/// Packet tag `"QR"`: a quarantine request.
pub const TSG_PACKET_QUARREQUEST: u32 = 0x0000_5152;

/// Channel protocol of RDP.
pub const PROTOCOL_RDP: u16 = 3;

/// Packet tag `"VC"`: versions and capabilities.
pub const TSG_PACKET_VERSIONCAPS: u32 = 0x0000_5643;

/// The same tag in a packet header.
pub const VERSIONCAPS_ID: u16 = 0x5643;

/// Component tag `"TR"`: the gateway transport.
pub const TS_GATEWAY_TRANSPORT: u16 = 0x5452;

/// Capability type: network access protection.
pub const TSG_CAPABILITY_TYPE_NAP: u32 = 0x0000_0001;

/// Capabilities: idle timeout, consent signing, service messages, reauthentication.
pub const TSG_NAP_CAPABILITIES: u32 = 0x0000_001E;

/// The first NDR referent of a stub; the others follow in steps of four.
pub const REFERENT_0: u32 = 0x0002_0000;

pub const REFERENT_1: u32 = 0x0002_0004;

pub const REFERENT_2: u32 = 0x0002_0008;

/// A 20-byte RPC context handle, which the later calls echo.
#[derive(Clone, Copy)]
pub struct ContextHandle(pub [u8; 20]);

/// What `TsProxyCreateTunnel` gives.
pub struct Tunnel {
    /// The handle of the tunnel, which the next calls echo.
    pub context: ContextHandle,
    pub tunnel_id: u32,
}

/// What `TsProxyCreateChannel` gives: the connection of the gateway to the target.
pub struct TargetChannel {
    /// The handle of the channel, which the next calls echo.
    pub context: ContextHandle,
    pub channel_id: u32,
}

/// A context handle and an id, as two of the calls return them.
pub struct HandleView {
    pub context: Seq<u8>,
    pub id: u32,
}

impl View for Tunnel {
    type V = HandleView;

    open spec fn view(&self) -> HandleView {
        HandleView { context: self.context.0@, id: self.tunnel_id }
    }
}

impl View for TargetChannel {
    type V = HandleView;

    open spec fn view(&self) -> HandleView {
        HandleView { context: self.context.0@, id: self.channel_id }
    }
}

/// The packet with the versions and capabilities of the client.
pub open spec fn versioncaps_bytes() -> Seq<u8> {
    wire::le32(TSG_PACKET_VERSIONCAPS) + wire::le32(TSG_PACKET_VERSIONCAPS) + wire::le32(REFERENT_0)
        + wire::le16(TS_GATEWAY_TRANSPORT) + wire::le16(VERSIONCAPS_ID) + wire::le32(REFERENT_1)
        + wire::le32(1) + wire::le16(1) + wire::le16(1) + wire::le16(0) + wire::le16(0)
        + wire::le32(1) + wire::le32(TSG_CAPABILITY_TYPE_NAP) + wire::le32(TSG_CAPABILITY_TYPE_NAP)
        + wire::le32(TSG_NAP_CAPABILITIES)
}

/// The block that a gateway expects behind the packet: a constant, then the
/// identifiers of the interface and of the transfer syntax.
pub open spec fn undocumented_bytes() -> Seq<u8> {
    seq![0x8Au8, 0xE3, 0x13, 0x71, 0x02, 0xF4, 0x36, 0x71] + wire::le32(0x0004_0001)
        + wire::le32(0x0000_0001) + seq![0x02u8, 0x40] + wire::le16(0x0028) + bind::syntax_bytes(
        bind::TSGU_UUID,
        bind::TSGU_IF_VERSION,
    ) + bind::syntax_bytes(bind::NDR_UUID, bind::NDR_VERSION)
}

/// Marshal the stub of `TsProxyCreateTunnel`.
pub fn create_tunnel_stub() -> (s: Vec<u8>)
    ensures
        s@ == versioncaps_bytes() + undocumented_bytes(),
        s@.len() == 108,
{
    let mut s: Vec<u8> = Vec::with_capacity(108);
    wire::push_u32_le(&mut s, TSG_PACKET_VERSIONCAPS);
    wire::push_u32_le(&mut s, TSG_PACKET_VERSIONCAPS);
    wire::push_u32_le(&mut s, REFERENT_0);
    wire::push_u16_le(&mut s, TS_GATEWAY_TRANSPORT);
    wire::push_u16_le(&mut s, VERSIONCAPS_ID);
    wire::push_u32_le(&mut s, REFERENT_1);
    wire::push_u32_le(&mut s, 1);
    wire::push_u16_le(&mut s, 1);
    wire::push_u16_le(&mut s, 1);
    wire::push_u16_le(&mut s, 0);
    wire::push_u16_le(&mut s, 0);
    wire::push_u32_le(&mut s, 1);
    wire::push_u32_le(&mut s, TSG_CAPABILITY_TYPE_NAP);
    wire::push_u32_le(&mut s, TSG_CAPABILITY_TYPE_NAP);
    wire::push_u32_le(&mut s, TSG_NAP_CAPABILITIES);
    assert(s@ =~= versioncaps_bytes());
    push_undocumented(&mut s);
    s
}

fn push_undocumented(out: &mut Vec<u8>)
    ensures
        final(out)@ == old(out)@ + undocumented_bytes(),
{
    let tsgu: [u8; 16] = bind::TSGU_UUID;
    let ndr: [u8; 16] = bind::NDR_UUID;
    let block: [u8; 8] = [0x8A, 0xE3, 0x13, 0x71, 0x02, 0xF4, 0x36, 0x71];
    wire::push_bytes(out, block.as_slice());
    wire::push_u32_le(out, 0x0004_0001);
    wire::push_u32_le(out, 0x0000_0001);
    out.push(0x02);
    out.push(0x40);
    wire::push_u16_le(out, 0x0028);
    wire::push_bytes(out, tsgu.as_slice());
    wire::push_u32_le(out, bind::TSGU_IF_VERSION);
    wire::push_bytes(out, ndr.as_slice());
    wire::push_u32_le(out, bind::NDR_VERSION);
    assert(out@ =~= old(out)@ + undocumented_bytes());
}

/// Whether `TsProxyCreateTunnel` took `before` to `after` and gave `r`.
pub open spec fn creates_tunnel<C>(
    before: BoundRpc<C>,
    after: BoundRpc<C>,
    r: Result<(ResponseReader, Vec<u8>), GatewayError>,
) -> bool {
    request::calls(
        before,
        OP_CREATE_TUNNEL,
        versioncaps_bytes() + undocumented_bytes(),
        after,
        r,
    )
}

/// Begin `TsProxyCreateTunnel`, the first signed request.
pub fn create_tunnel<C>(rpc: &mut BoundRpc<C>) -> (r: Result<
    (ResponseReader, Vec<u8>),
    GatewayError,
>)
    requires
        old(rpc).ntlm@.stage() != auth::NtlmStage::Server,
    ensures
        creates_tunnel(*old(rpc), *final(rpc), r),
{
    let stub = create_tunnel_stub();
    rpc.call(OP_CREATE_TUNNEL, stub.as_slice())
}

/// Read a little-endian number from exactly four bytes.
pub fn read_u32_le(b: &[u8]) -> (r: Result<u32, GatewayError>)
    ensures
        error::outcome(r) == if b@.len() == 4 {
            Ok::<u32, ErrorView>(wire::u32_at(b@, 0))
        } else {
            Err(ErrorView::Protocol("truncated NDR response"@))
        },
{
    if b.len() == 4 {
        Ok(wire::read_u32_at(b, 0))
    } else {
        Err(error::protocol_error("truncated NDR response"))
    }
}

/// The error of a response that cannot hold what it should.
pub open spec fn too_short(what: Seq<char>, n: nat) -> ErrorView {
    ErrorView::Protocol(what + " response too short: "@ + text::dec(n) + " bytes"@)
}

fn too_short_error(what: &str, n: usize) -> (e: GatewayError)
    ensures
        e@ == too_short(what@, n as nat),
{
    GatewayError::Protocol(
        what.to_owned().concat(" response too short: ").concat(
            text::dec_string(n as u64).as_str(),
        ).concat(" bytes"),
    )
}

/// The text of a call that returned an error code.
pub open spec fn returned(what: Seq<char>, code: u32) -> Seq<char> {
    what + " returned "@ + text::padded_hex(code as nat, 8)
}

fn returned_text(what: &str, code: u32) -> (s: String)
    ensures
        s@ == returned(what@, code),
{
    what.to_owned().concat(" returned ").concat(text::padded_hex_string(code as u64, 8).as_str())
}

/// The twenty bytes of `s` from `at` on.
fn handle_at(s: &[u8], at: usize) -> (h: ContextHandle)
    requires
        at + 20 <= s@.len(),
    ensures
        h.0@ == s@.subrange(at as int, at + 20),
{
    let total: usize = s.len();
    let mut context: [u8; 20] = [0u8; 20];
    let mut i: usize = 0;
    while i < 20
        invariant
            i <= 20,
            at + 20 <= total == s@.len(),
            forall|j: int| 0 <= j < i ==> context@[j] == s@[at + j],
        decreases 20 - i,
    {
        context[i] = s[at + i];
        i = i + 1;
    }
    assert(context@ =~= s@.subrange(at as int, at + 20));
    ContextHandle(context)
}

/// What the response to `TsProxyCreateTunnel` says: handle, id and return code are its
/// last 28 bytes, whatever stands in front of them.
pub open spec fn parsed_tunnel(resp: Seq<u8>) -> Result<HandleView, ErrorView> {
    let n = resp.len() as int;
    if n < 28 {
        Err(too_short("CreateTunnel"@, resp.len()))
    } else if wire::u32_at(resp, n - 4) != 0 {
        Err(
            ErrorView::Protocol(
                returned("TsProxyCreateTunnel"@, wire::u32_at(resp, n - 4)),
            ),
        )
    } else {
        Ok(
            HandleView {
                context: resp.subrange(n - 28, n - 8),
                id: wire::u32_at(resp, n - 8),
            },
        )
    }
}

/// Parse the response to `TsProxyCreateTunnel`.
pub fn parse_create_tunnel(resp: &[u8]) -> (r: Result<Tunnel, GatewayError>)
    ensures
        error::outcome_view(r) == parsed_tunnel(resp@),
{
    let n: usize = resp.len();
    if n < 28 {
        return Err(too_short_error("CreateTunnel", n));
    }
    let code: u32 = wire::read_u32_at(resp, n - 4);
    if code != 0 {
        return Err(GatewayError::Protocol(returned_text("TsProxyCreateTunnel", code)));
    }
    Ok(Tunnel { context: handle_at(resp, n - 28), tunnel_id: wire::read_u32_at(resp, n - 8) })
}

/// The UTF-16 units of a character.
pub open spec fn utf16_units(c: char) -> Seq<u16> {
    let n = c as u32 as int;
    if n < 0x1_0000 {
        seq![n as u16]
    } else {
        seq![(0xD800 + (n - 0x1_0000) / 1024) as u16, (0xDC00 + (n - 0x1_0000) % 1024) as u16]
    }
}

/// A text in little-endian UTF-16.
pub open spec fn utf16_bytes(s: Seq<char>) -> Seq<u8>
    decreases s.len(),
{
    if s.len() == 0 {
        Seq::empty()
    } else {
        let units = utf16_units(s.last());
        utf16_bytes(s.drop_last()) + wire::le16(units[0]) + if units.len() == 2 {
            wire::le16(units[1])
        } else {
            Seq::empty()
        }
    }
}

/// A text in little-endian UTF-16 with a zero unit behind it.
pub open spec fn utf16z_bytes(s: Seq<char>) -> Seq<u8> {
    utf16_bytes(s) + wire::le16(0)
}

/// The number of units of a text, the zero included.
pub open spec fn utf16z_count(s: Seq<char>) -> u32 {
    wire::low32(utf16z_bytes(s).len() / 2)
}

fn push_utf16(out: &mut Vec<u8>, c: char)
    ensures
        final(out)@ == old(out)@ + wire::le16(utf16_units(c)[0]) + if utf16_units(c).len() == 2 {
            wire::le16(utf16_units(c)[1])
        } else {
            Seq::empty()
        },
{
    let n: u32 = c as u32;
    if n < 0x1_0000 {
        wire::push_u16_le(out, n as u16);
    } else {
        wire::push_u16_le(out, (0xD800 + (n - 0x1_0000) / 1024) as u16);
        wire::push_u16_le(out, (0xDC00 + (n - 0x1_0000) % 1024) as u16);
    }
    assert(out@ =~= old(out)@ + wire::le16(utf16_units(c)[0]) + if utf16_units(c).len() == 2 {
        wire::le16(utf16_units(c)[1])
    } else {
        Seq::empty()
    });
}

/// `s` as NUL-terminated UTF-16LE, and the number of its units with the NUL: the
/// count that NDR strings advertise.
pub fn utf16z(s: &str) -> (r: (Vec<u8>, u32))
    ensures
        r.0@ == utf16z_bytes(s@),
        r.1 == utf16z_count(s@),
{
    let chars = text::chars_of(s);
    let mut bytes: Vec<u8> = Vec::new();
    let mut i: usize = 0;
    assert(s@.take(0) =~= Seq::empty());
    while i < chars.len()
        invariant
            i <= chars@.len(),
            chars@ == s@,
            bytes@ == utf16_bytes(s@.take(i as int)),
        decreases chars@.len() - i,
    {
        assert(s@.take(i + 1).drop_last() =~= s@.take(i as int));
        push_utf16(&mut bytes, chars[i]);
        i = i + 1;
    }
    assert(s@.take(i as int) =~= s@);
    wire::push_u16_le(&mut bytes, 0);
    let count: u32 = wire::truncate32(bytes.len() / 2);
    (bytes, count)
}

/// An NDR conformant and varying string: maximum count, offset, actual count, units,
/// and two bytes more where the count is odd.
pub open spec fn ndr_string(s: Seq<char>) -> Seq<u8> {
    let count = utf16z_count(s);
    wire::le32(count) + wire::le32(0) + wire::le32(count) + utf16z_bytes(s) + if count % 2 == 1 {
        seq![0u8, 0u8]
    } else {
        Seq::empty()
    }
}

/// Append an NDR string.
pub fn push_ndr_string(out: &mut Vec<u8>, s: &str)
    ensures
        final(out)@ == old(out)@ + ndr_string(s@),
{
    let (bytes, count) = utf16z(s);
    wire::push_u32_le(out, count);
    wire::push_u32_le(out, 0);
    wire::push_u32_le(out, count);
    wire::push_bytes(out, bytes.as_slice());
    if count % 2 == 1 {
        out.push(0);
        out.push(0);
    }
    assert(out@ =~= old(out)@ + ndr_string(s@));
}

/// The name that a client gives itself where it has none.
pub open spec fn fallback_name() -> Seq<char> {
    "IronRDP"@
}

/// The client machine name: that of the environment, where it is set and not empty.
pub open spec fn machine_name(
    computer_name: Option<Seq<char>>,
    host_name: Option<Seq<char>>,
) -> Seq<char> {
    let found = if computer_name is Some {
        computer_name
    } else {
        host_name
    };
    match found {
        Some(name) => if name.len() > 0 {
            name
        } else {
            fallback_name()
        },
        None => fallback_name(),
    }
}

/// What a text holds, where there is one.
pub open spec fn held(s: Option<String>) -> Option<Seq<char>> {
    match s {
        Some(s) => Some(s@),
        None => None,
    }
}

/// The client machine name for `TsProxyAuthorizeTunnel`, from the environment
/// variables `COMPUTERNAME` and `HOSTNAME`.
pub fn client_machine_name(computer_name: Option<String>, host_name: Option<String>) -> (s: String)
    ensures
        s@ == machine_name(held(computer_name), held(host_name)),
{
    let found = match computer_name {
        Some(name) => Some(name),
        None => host_name,
    };
    match found {
        Some(name) => {
            if name.as_str().is_empty() {
                "IronRDP".to_owned()
            } else {
                name
            }
        },
        None => "IronRDP".to_owned(),
    }
}

/// The stub of `TsProxyAuthorizeTunnel`: the tunnel, and a quarantine request with the
/// machine name and no payload.
pub open spec fn authorize_bytes(tunnel: Seq<u8>, machine: Seq<char>) -> Seq<u8> {
    tunnel + wire::le32(TSG_PACKET_QUARREQUEST) + wire::le32(TSG_PACKET_QUARREQUEST) + wire::le32(
        REFERENT_0,
    ) + wire::le32(0) + wire::le32(REFERENT_1) + wire::le32(utf16z_count(machine)) + wire::le32(
        REFERENT_2,
    ) + wire::le32(0) + ndr_string(machine) + wire::le32(0)
}

/// Marshal the stub of `TsProxyAuthorizeTunnel`.
pub fn authorize_tunnel_stub(tunnel: &Tunnel, machine: &str) -> (stub: Vec<u8>)
    ensures
        stub@ == authorize_bytes(tunnel@.context, machine@),
{
    let (_, name_count) = utf16z(machine);
    let mut stub: Vec<u8> = Vec::new();
    wire::push_bytes(&mut stub, tunnel.context.0.as_slice());
    wire::push_u32_le(&mut stub, TSG_PACKET_QUARREQUEST);
    wire::push_u32_le(&mut stub, TSG_PACKET_QUARREQUEST);
    wire::push_u32_le(&mut stub, REFERENT_0);
    wire::push_u32_le(&mut stub, 0);
    wire::push_u32_le(&mut stub, REFERENT_1);
    wire::push_u32_le(&mut stub, name_count);
    wire::push_u32_le(&mut stub, REFERENT_2);
    wire::push_u32_le(&mut stub, 0);
    push_ndr_string(&mut stub, machine);
    wire::push_u32_le(&mut stub, 0);
    assert(stub@ =~= authorize_bytes(tunnel@.context, machine@));
    stub
}

/// Whether `TsProxyAuthorizeTunnel` took `before` to `after` and gave `r`.
pub open spec fn authorizes_tunnel<C>(
    before: BoundRpc<C>,
    tunnel: HandleView,
    machine: Seq<char>,
    after: BoundRpc<C>,
    r: Result<(ResponseReader, Vec<u8>), GatewayError>,
) -> bool {
    request::calls(
        before,
        OP_AUTHORIZE_TUNNEL,
        authorize_bytes(tunnel.context, machine),
        after,
        r,
    )
}

/// Begin `TsProxyAuthorizeTunnel` for a client of that name.
pub fn authorize_tunnel<C>(rpc: &mut BoundRpc<C>, tunnel: &Tunnel, machine: &str) -> (r: Result<
    (ResponseReader, Vec<u8>),
    GatewayError,
>)
    requires
        old(rpc).ntlm@.stage() != auth::NtlmStage::Server,
    ensures
        authorizes_tunnel(*old(rpc), tunnel@, machine@, *final(rpc), r),
{
    let stub = authorize_tunnel_stub(tunnel, machine);
    rpc.call(OP_AUTHORIZE_TUNNEL, stub.as_slice())
}

/// The return code at the end of a response.
pub open spec fn tail_code(resp: Seq<u8>, what: Seq<char>) -> Result<u32, ErrorView> {
    if resp.len() < 4 {
        Err(too_short(what, resp.len()))
    } else {
        Ok(wire::u32_at(resp, resp.len() - 4))
    }
}

/// The return code at the end of a response (NDR puts it last).
pub fn tail_return(resp: &[u8], what: &str) -> (r: Result<u32, GatewayError>)
    ensures
        error::outcome(r) == tail_code(resp@, what@),
{
    let n: usize = resp.len();
    if n < 4 {
        return Err(too_short_error(what, n));
    }
    let tail = slice_subrange(resp, n - 4, n);
    read_u32_le(tail)
}

/// Whether the response to `TsProxyAuthorizeTunnel` grants it.
pub open spec fn parsed_authorization(resp: Seq<u8>) -> Result<(), ErrorView> {
    match tail_code(resp, "TsProxyAuthorizeTunnel"@) {
        Err(e) => Err(e),
        Ok(code) => if code != 0 {
            Err(ErrorView::Protocol(returned("TsProxyAuthorizeTunnel"@, code)))
        } else {
            Ok(())
        },
    }
}

/// Parse the response to `TsProxyAuthorizeTunnel`.
pub fn parse_authorize_tunnel(resp: &[u8]) -> (r: Result<(), GatewayError>)
    ensures
        error::outcome(r) == parsed_authorization(resp@),
{
    let code: u32 = tail_return(resp, "TsProxyAuthorizeTunnel")?;
    if code != 0 {
        return Err(GatewayError::Protocol(returned_text("TsProxyAuthorizeTunnel", code)));
    }
    Ok(())
}

/// The stub of `TsProxyCreateChannel`: the tunnel, and the one resource name of the
/// target with its port.
pub open spec fn channel_bytes(tunnel: Seq<u8>, host: Seq<char>, port: u16) -> Seq<u8> {
    tunnel + wire::le32(REFERENT_0) + wire::le32(1) + wire::le32(0) + wire::le16(0) + wire::le16(0)
        + wire::le16(PROTOCOL_RDP) + wire::le16(port) + wire::le32(1) + wire::le32(REFERENT_1)
        + ndr_string(host)
}

/// Marshal the stub of `TsProxyCreateChannel`.
pub fn create_channel_stub(tunnel: &Tunnel, host: &str, port: u16) -> (stub: Vec<u8>)
    ensures
        stub@ == channel_bytes(tunnel@.context, host@, port),
{
    let mut stub: Vec<u8> = Vec::new();
    wire::push_bytes(&mut stub, tunnel.context.0.as_slice());
    wire::push_u32_le(&mut stub, REFERENT_0);
    wire::push_u32_le(&mut stub, 1);
    wire::push_u32_le(&mut stub, 0);
    wire::push_u16_le(&mut stub, 0);
    wire::push_u16_le(&mut stub, 0);
    wire::push_u16_le(&mut stub, PROTOCOL_RDP);
    wire::push_u16_le(&mut stub, port);
    wire::push_u32_le(&mut stub, 1);
    wire::push_u32_le(&mut stub, REFERENT_1);
    push_ndr_string(&mut stub, host);
    assert(stub@ =~= channel_bytes(tunnel@.context, host@, port));
    stub
}

/// Whether `TsProxyCreateChannel` took `before` to `after` and gave `r`.
pub open spec fn creates_channel<C>(
    before: BoundRpc<C>,
    tunnel: HandleView,
    host: Seq<char>,
    port: u16,
    after: BoundRpc<C>,
    r: Result<(ResponseReader, Vec<u8>), GatewayError>,
) -> bool {
    request::calls(
        before,
        OP_CREATE_CHANNEL,
        channel_bytes(tunnel.context, host, port),
        after,
        r,
    )
}

/// Begin `TsProxyCreateChannel` to the target: the gateway connects to it.
pub fn create_channel<C>(rpc: &mut BoundRpc<C>, tunnel: &Tunnel, host: &str, port: u16) -> (r:
    Result<(ResponseReader, Vec<u8>), GatewayError>)
    requires
        old(rpc).ntlm@.stage() != auth::NtlmStage::Server,
    ensures
        creates_channel(*old(rpc), tunnel@, host@, port, *final(rpc), r),
{
    let stub = create_channel_stub(tunnel, host, port);
    rpc.call(OP_CREATE_CHANNEL, stub.as_slice())
}

/// What the response to `TsProxyCreateChannel` says: handle, id and return code are its
/// first 28 bytes.
pub open spec fn parsed_channel(resp: Seq<u8>, host: Seq<char>, port: u16) -> Result<
    HandleView,
    ErrorView,
> {
    if resp.len() < 28 {
        Err(too_short("CreateChannel"@, resp.len()))
    } else if wire::u32_at(resp, 24) != 0 {
        Err(
            ErrorView::Protocol(
                returned("TsProxyCreateChannel"@, wire::u32_at(resp, 24)) + " (target "@ + host
                    + ":"@ + text::dec(port as nat) + " unreachable?)"@,
            ),
        )
    } else {
        Ok(HandleView { context: resp.subrange(0, 20), id: wire::u32_at(resp, 20) })
    }
}

/// Parse the response to `TsProxyCreateChannel` for that target.
pub fn parse_create_channel(resp: &[u8], host: &str, port: u16) -> (r: Result<
    TargetChannel,
    GatewayError,
>)
    ensures
        error::outcome_view(r) == parsed_channel(resp@, host@, port),
{
    if resp.len() < 28 {
        return Err(too_short_error("CreateChannel", resp.len()));
    }
    let code: u32 = wire::read_u32_at(resp, 24);
    if code != 0 {
        return Err(
            GatewayError::Protocol(
                returned_text("TsProxyCreateChannel", code).concat(" (target ").concat(
                    host,
                ).concat(":").concat(text::dec_string(port as u64).as_str()).concat(
                    " unreachable?)",
                ),
            ),
        );
    }
    Ok(TargetChannel { context: handle_at(resp, 0), channel_id: wire::read_u32_at(resp, 20) })
}

/// The stub of `TsProxySendToServer`: the channel, then one buffer. The numbers of
/// this call are big-endian.
pub open spec fn send_bytes(channel: Seq<u8>, data: Seq<u8>) -> Seq<u8> {
    channel + wire::be32(wire::low32(data.len() + 4)) + wire::be32(1) + wire::be32(
        wire::low32(data.len()),
    ) + data
}

/// Marshal the stub of `TsProxySendToServer`.
pub fn send_to_server_stub(channel: &ContextHandle, data: &[u8]) -> (s: Vec<u8>)
    ensures
        s@ == send_bytes(channel.0@, data@),
{
    let mut s: Vec<u8> = Vec::new();
    wire::push_bytes(&mut s, channel.0.as_slice());
    wire::push_u32_be(&mut s, wire::truncate32_plus(data.len(), 4));
    wire::push_u32_be(&mut s, 1);
    wire::push_u32_be(&mut s, wire::truncate32(data.len()));
    wire::push_bytes(&mut s, data);
    assert(s@ =~= send_bytes(channel.0@, data@));
    s
}

/// What a response means to the receive pipe.
pub enum PipeRead {
    /// Nothing: the acknowledgement of another call, or an empty chunk.
    Skip,
    /// The pipe has ended.
    End,
    /// Bytes of the target.
    Data(Vec<u8>),
}

/// A [`PipeRead`] with its bytes as a sequence.
pub enum PipeView {
    Skip,
    End,
    Data(Seq<u8>),
}

impl View for PipeRead {
    type V = PipeView;

    open spec fn view(&self) -> PipeView {
        match *self {
            PipeRead::Skip => PipeView::Skip,
            PipeRead::End => PipeView::End,
            PipeRead::Data(data) => PipeView::Data(data@),
        }
    }
}

/// What a response means to the pipe of that call: a last fragment of four bytes is
/// the return code that ends it.
pub open spec fn piped(pipe_call_id: u32, pdu: Seq<u8>, h: CommonHeader) -> Result<
    PipeView,
    ErrorView,
> {
    if h.call_id != pipe_call_id {
        Ok(PipeView::Skip)
    } else {
        match request::stub_of(pdu, h) {
            Err(e) => Err(e),
            Ok(stub) => if stub.len() == 4 && request::is_last(h.pfc_flags) {
                Ok(PipeView::End)
            } else if stub.len() > 0 {
                Ok(PipeView::Data(stub))
            } else {
                Ok(PipeView::Skip)
            },
        }
    }
}

/// What a response, already checked to be one, means to the pipe.
pub fn read_pipe(pipe_call_id: u32, pdu: &[u8], h: &CommonHeader) -> (r: Result<
    PipeRead,
    GatewayError,
>)
    ensures
        error::outcome_view(r) == piped(pipe_call_id, pdu@, *h),
{
    if h.call_id != pipe_call_id {
        return Ok(PipeRead::Skip);
    }
    let stub = request::response_stub(pdu, h)?;
    if stub.len() == 4 && h.pfc_flags / pfc::LAST_FRAG % 2 == 1 {
        return Ok(PipeRead::End);
    }
    if stub.len() > 0 {
        Ok(PipeRead::Data(slice_to_vec(stub)))
    } else {
        Ok(PipeRead::Skip)
    }
}

/// What a PDU off the OUT channel means to the pipe of that call.
pub open spec fn pipe_step(pipe_call_id: u32, pdu: Seq<u8>) -> Result<PipeView, ErrorView> {
    match pdu::decoded_header(pdu) {
        Err(e) => Err(e),
        Ok(h) => match request::checked_response(h, pdu) {
            Err(e) => Err(e),
            Ok(_) => piped(pipe_call_id, pdu, h),
        },
    }
}

/// Whether the tunnel is closed behind a PDU: the end of the pipe closes it for good.
pub open spec fn closed_after(closed: bool, pipe_call_id: u32, pdu: Seq<u8>) -> bool {
    closed || pipe_step(pipe_call_id, pdu) == Ok::<PipeView, ErrorView>(PipeView::End)
}

/// What a read of the tunnel comes to.
pub struct ReadView {
    /// The bytes it gives, none of them at the end of the pipe; `None` where it still
    /// waits for a PDU.
    pub result: Option<Result<Seq<u8>, ErrorView>>,
    /// The number of PDUs it takes off the OUT channel.
    pub taken: nat,
    /// Whether the tunnel is closed behind it.
    pub closed: bool,
}

/// A read of the tunnel with those PDUs on the OUT channel: it takes PDUs while the tunnel
/// is not closed, until one gives bytes or an error.
pub open spec fn read_tunnel(closed: bool, pipe_call_id: u32, pdus: Seq<Seq<u8>>) -> ReadView
    decreases pdus.len(),
{
    if closed {
        ReadView { result: Some(Ok(Seq::empty())), taken: 0, closed }
    } else if pdus.len() == 0 {
        ReadView { result: None, taken: 0, closed }
    } else {
        let after = closed_after(closed, pipe_call_id, pdus[0]);
        match pipe_step(pipe_call_id, pdus[0]) {
            Err(e) => ReadView { result: Some(Err(e)), taken: 1, closed: after },
            Ok(PipeView::Data(data)) => ReadView {
                result: Some(Ok(data)),
                taken: 1,
                closed: after,
            },
            Ok(_) => {
                let later = read_tunnel(after, pipe_call_id, pdus.skip(1));
                ReadView { taken: later.taken + 1, ..later }
            },
        }
    }
}

/// Whether a read gave no bytes: the end of the pipe.
pub open spec fn is_end(read: ReadView) -> bool {
    read.result matches Some(Ok(data)) && data.len() == 0
}

/// A live tunnel to the target through the gateway: outbound bytes go by
/// `TsProxySendToServer`, inbound bytes arrive on the receive pipe.
pub struct GatewayTunnel<C> {
    pub rpc: BoundRpc<C>,
    pub channel: ContextHandle,
    pub channel_id: u32,
    /// The call id of the pipe, under which the bytes of the target come; other ids are
    /// acknowledgements.
    pub pipe_call_id: u32,
    /// Whether the pipe has ended.
    pub closed: bool,
}

/// What is left of a tunnel for the tasks that run it: the writer has the IN channel
/// and the signing context, the reader the OUT channel and the pipe.
pub struct TunnelParts<C> {
    pub in_channel: C,
    pub out_channel: C,
    pub ntlm: NtlmAuth,
    pub call_id: u32,
    pub channel: ContextHandle,
    pub pipe_call_id: u32,
    pub out_cookie: Cookie,
    /// The idle timeout of the server, in milliseconds.
    pub connection_timeout: u32,
}

/// The request that sets up the receive pipe of a channel, up to its signature.
pub open spec fn pipe_request(call_id: u32, channel: HandleView) -> Seq<u8> {
    request::unsigned_request(call_id, OP_SETUP_RECEIVE_PIPE, channel.context)
}

/// Whether a tunnel runs over that channel, with its pipe under the next call of `rpc`.
pub open spec fn runs_over<C>(
    tunnel: GatewayTunnel<C>,
    rpc: BoundRpc<C>,
    channel: TargetChannel,
) -> bool {
    &&& tunnel.channel == channel.context
    &&& tunnel.channel_id == channel.channel_id
    &&& tunnel.pipe_call_id == rpc.call_id
    &&& !tunnel.closed
    &&& tunnel.rpc.vc == rpc.vc
    &&& tunnel.rpc.call_id == request::next_call(rpc.call_id)
}

/// The request that takes data to the target, up to its signature.
pub open spec fn data_request(call_id: u32, channel: Seq<u8>, data: Seq<u8>) -> Seq<u8> {
    request::unsigned_request(call_id, OP_SEND_TO_SERVER, send_bytes(channel, data))
}

/// The parts of a tunnel.
pub open spec fn parts_of<C>(tunnel: GatewayTunnel<C>) -> TunnelParts<C> {
    TunnelParts {
        in_channel: tunnel.rpc.vc.in_channel,
        out_channel: tunnel.rpc.vc.out_channel,
        ntlm: tunnel.rpc.ntlm,
        call_id: tunnel.rpc.call_id,
        channel: tunnel.channel,
        pipe_call_id: tunnel.pipe_call_id,
        out_cookie: tunnel.rpc.vc.out_cookie,
        connection_timeout: tunnel.rpc.vc.connection_timeout,
    }
}

impl<C> GatewayTunnel<C> {
    /// Open the tunnel. The request that comes with it sets up the receive pipe, and is
    /// to be sent on the IN channel.
    pub fn open(rpc: BoundRpc<C>, channel: TargetChannel) -> (r: Result<
        (Self, Vec<u8>),
        GatewayError,
    >)
        requires
            rpc.ntlm@.stage() != auth::NtlmStage::Server,
        ensures
            ({
                let unsigned = pipe_request(rpc.call_id, channel@);
                let (signed, after) = auth::signature_of(
                    rpc.ntlm@.ntlm,
                    unsigned,
                    RPC_SIGNATURE_SIZE as nat,
                );
                match request::request_outcome(unsigned, signed) {
                    Err(e) => r matches Err(err) && err@ == e,
                    Ok(bytes) => {
                        &&& r matches Ok((tunnel, pdu))
                        &&& pdu@ == bytes
                        &&& runs_over(tunnel, rpc, channel)
                        &&& tunnel.channel == channel.context
                        &&& tunnel.channel_id == channel.channel_id
                        &&& tunnel.pipe_call_id == rpc.call_id
                        &&& !tunnel.closed
                        &&& tunnel.rpc.vc == rpc.vc
                        &&& tunnel.rpc.call_id == request::next_call(rpc.call_id)
                        &&& tunnel.rpc.ntlm@ == (auth::NtlmView { ntlm: after, ..rpc.ntlm@ })
                        &&& tunnel.rpc.max_xmit_frag == rpc.max_xmit_frag
                        &&& tunnel.rpc.max_recv_frag == rpc.max_recv_frag
                    },
                }
            }),
            auth::signs(
                rpc.ntlm@.stage(),
                r is Ok,
                if r is Ok {
                    r->Ok_0.0.rpc.ntlm@.stage()
                } else {
                    rpc.ntlm@.stage()
                },
            ),
    {
        let mut rpc = rpc;
        let (pipe_call_id, pdu) = rpc.send_request(
            OP_SETUP_RECEIVE_PIPE,
            channel.context.0.as_slice(),
        )?;
        Ok(
            (
                GatewayTunnel {
                    rpc,
                    channel: channel.context,
                    channel_id: channel.channel_id,
                    pipe_call_id,
                    closed: false,
                },
                pdu,
            ),
        )
    }

    /// The id of the channel.
    pub fn channel_id(&self) -> (id: u32)
        ensures
            id == self.channel_id,
    {
        self.channel_id
    }

    /// The request that takes `data` to the target, to be sent on the IN channel. Its
    /// acknowledgement comes under a call id of its own, and reading skips it.
    pub fn write(&mut self, data: &[u8]) -> (r: Result<Vec<u8>, GatewayError>)
        requires
            old(self).rpc.ntlm@.stage() != auth::NtlmStage::Server,
        ensures
            ({
                let unsigned = data_request(old(self).rpc.call_id, old(self).channel.0@, data@);
                let (signed, after) = auth::signature_of(
                    old(self).rpc.ntlm@.ntlm,
                    unsigned,
                    RPC_SIGNATURE_SIZE as nat,
                );
                &&& error::outcome_view(r) == request::request_outcome(unsigned, signed)
                &&& final(self).rpc.ntlm@ == (auth::NtlmView { ntlm: after, ..old(self).rpc.ntlm@ })
            }),
            auth::signs(old(self).rpc.ntlm@.stage(), r is Ok, final(self).rpc.ntlm@.stage()),
            final(self).rpc.call_id == request::next_call(old(self).rpc.call_id),
            final(self).rpc.vc == old(self).rpc.vc,
            final(self).rpc.max_xmit_frag == old(self).rpc.max_xmit_frag,
            final(self).rpc.max_recv_frag == old(self).rpc.max_recv_frag,
            final(self).channel == old(self).channel,
            final(self).channel_id == old(self).channel_id,
            final(self).pipe_call_id == old(self).pipe_call_id,
            final(self).closed == old(self).closed,
    {
        let stub = send_to_server_stub(&self.channel, data);
        let (_, pdu) = self.rpc.send_request(OP_SEND_TO_SERVER, stub.as_slice())?;
        Ok(pdu)
    }

    /// Whether a read needs another PDU: behind the end of the pipe there is nothing to
    /// read, and every read gives no bytes.
    pub fn wants_pdu(&self) -> (b: bool)
        ensures
            b == !self.closed,
    {
        !self.closed
    }

    /// Take in a PDU off the OUT channel. The end of the pipe closes the tunnel.
    pub fn on_pdu(&mut self, pdu: &[u8]) -> (r: Result<PipeRead, GatewayError>)
        ensures
            error::outcome_view(r) == pipe_step(old(self).pipe_call_id, pdu@),
            final(self).closed == closed_after(old(self).closed, old(self).pipe_call_id, pdu@),
            final(self).rpc == old(self).rpc,
            final(self).channel == old(self).channel,
            final(self).channel_id == old(self).channel_id,
            final(self).pipe_call_id == old(self).pipe_call_id,
    {
        let h = CommonHeader::decode(pdu)?;
        request::check_response(&h, pdu)?;
        let read = read_pipe(self.pipe_call_id, pdu, &h)?;
        match &read {
            PipeRead::End => {
                self.closed = true;
            },
            _ => {},
        }
        Ok(read)
    }

    /// Read the next bytes of the target from the PDUs at hand, and tell how many of these
    /// were used. `None` asks for more PDUs; no bytes are the end of the pipe, which is
    /// final: from then on a read gives no bytes and uses no PDU.
    pub fn read(&mut self, pdus: &[Vec<u8>]) -> (r: (Option<Result<Vec<u8>, GatewayError>>, usize))
        ensures
            ({
                let read = read_tunnel(
                    old(self).closed,
                    old(self).pipe_call_id,
                    rts::contents(pdus@),
                );
                &&& match r.0 {
                    Some(result) => read.result == Some(error::outcome_view(result)),
                    None => read.result is None,
                }
                &&& r.1 == read.taken
                &&& final(self).closed == read.closed
            }),
            old(self).closed ==> r.1 == 0 && final(self).closed && (r.0 matches Some(Ok(data))
                && data@.len() == 0),
            r.0 matches Some(Ok(data)) ==> (data@.len() == 0 <==> final(self).closed),
            final(self).rpc == old(self).rpc,
            final(self).channel == old(self).channel,
            final(self).channel_id == old(self).channel_id,
            final(self).pipe_call_id == old(self).pipe_call_id,
    {
        let ghost all = rts::contents(pdus@);
        let ghost id = self.pipe_call_id;
        let total: usize = pdus.len();
        let mut used: usize = 0;
        proof {
            assert(all.skip(0) =~= all);
            reads_end_with_the_pipe(id, all);
        }
        while used < total && !self.closed
            invariant
                used <= total == pdus@.len(),
                all == rts::contents(pdus@),
                id == old(self).pipe_call_id,
                old(self).closed ==> used == 0,
                continues(
                    read_tunnel(old(self).closed, id, all),
                    used as nat,
                    read_tunnel(self.closed, id, all.skip(used as int)),
                ),
                self.rpc == old(self).rpc,
                self.channel == old(self).channel,
                self.channel_id == old(self).channel_id,
                self.pipe_call_id == id,
            decreases total - used,
        {
            let ghost rest = all.skip(used as int);
            assert(rest[0] == pdus@[used as int]@);
            assert(rest.skip(1) =~= all.skip(used + 1));
            let read = self.on_pdu(pdus[used].as_slice());
            used = used + 1;
            match read {
                Err(e) => {
                    return (Some(Err(e)), used);
                },
                Ok(PipeRead::Data(data)) => {
                    return (Some(Ok(data)), used);
                },
                Ok(_) => {},
            }
        }
        if self.closed {
            let none: Vec<u8> = Vec::new();
            assert(none@ =~= Seq::empty());
            (Some(Ok(none)), used)
        } else {
            (None, used)
        }
    }

    /// Take the tunnel apart.
    pub fn into_parts(self) -> (parts: TunnelParts<C>)
        ensures
            parts == parts_of(self),
    {
        let rpc = self.rpc;
        let vc = rpc.vc;
        TunnelParts {
            in_channel: vc.in_channel,
            out_channel: vc.out_channel,
            ntlm: rpc.ntlm,
            call_id: rpc.call_id,
            channel: self.channel,
            pipe_call_id: self.pipe_call_id,
            out_cookie: vc.out_cookie,
            connection_timeout: vc.connection_timeout,
        }
    }
}

/// Whether a read that has used `used` PDUs goes on as `rest`.
spec fn continues(read: ReadView, used: nat, rest: ReadView) -> bool {
    read == (ReadView { taken: used + rest.taken, ..rest })
}

proof fn lemma_utf16_is_even(s: Seq<char>)
    ensures
        utf16_bytes(s).len() % 2 == 0,
    decreases s.len(),
{
    if s.len() > 0 {
        lemma_utf16_is_even(s.drop_last());
    }
}

/// An NDR string keeps what follows it at a multiple of four bytes.
pub proof fn ndr_string_is_aligned(s: Seq<char>)
    ensures
        ndr_string(s).len() % 4 == 0,
{
    lemma_utf16_is_even(s);
    let units = utf16z_bytes(s).len() / 2;
    assert(utf16z_bytes(s).len() == 2 * units);
    assert(utf16z_count(s) % 2 == units % 2);
}

/// The return code, handle and id of a tunnel read back from the end of a response,
/// whatever the gateway puts in front of them.
pub proof fn tunnel_reads_back(front: Seq<u8>, context: Seq<u8>, id: u32)
    requires
        context.len() == 20,
    ensures
        parsed_tunnel(front + context + wire::le32(id) + wire::le32(0)) == Ok::<
            HandleView,
            ErrorView,
        >(HandleView { context, id }),
{
    let resp = front + context + wire::le32(id) + wire::le32(0);
    let n = resp.len() as int;
    assert(resp.subrange(n - 4, n) =~= wire::le32(0));
    wire::le32_round_trips(0, resp, n - 4);
    assert(resp.subrange(n - 8, n - 4) =~= wire::le32(id));
    wire::le32_round_trips(id, resp, n - 8);
    assert(resp.subrange(n - 28, n - 8) =~= context);
}

/// The handle and id of a channel read back from the front of a response.
pub proof fn channel_reads_back(
    context: Seq<u8>,
    id: u32,
    rest: Seq<u8>,
    host: Seq<char>,
    port: u16,
)
    requires
        context.len() == 20,
    ensures
        parsed_channel(context + wire::le32(id) + wire::le32(0) + rest, host, port) == Ok::<
            HandleView,
            ErrorView,
        >(HandleView { context, id }),
{
    let resp = context + wire::le32(id) + wire::le32(0) + rest;
    assert(resp.subrange(24, 28) =~= wire::le32(0));
    wire::le32_round_trips(0, resp, 24);
    assert(resp.subrange(20, 24) =~= wire::le32(id));
    wire::le32_round_trips(id, resp, 20);
    assert(resp.subrange(0, 20) =~= context);
}

/// Bytes that the gateway sends down the pipe come out of it as they are, unless they
/// are the four bytes of a last fragment, which end it; what comes under another call
/// is skipped.
pub proof fn pipe_carries_stubs(
    pipe_call_id: u32,
    call_id: u32,
    pfc_flags: u8,
    hint: Seq<u8>,
    stub: Seq<u8>,
    signature: Seq<u8>,
)
    requires
        hint.len() == 8,
        stub.len() + signature.len() + 35 <= u16::MAX,
    ensures
        pipe_step(
            pipe_call_id,
            request::response_bytes(pfc_flags, call_id, hint, stub, signature),
        ) == Ok::<PipeView, ErrorView>(
            if call_id != pipe_call_id || stub.len() == 0 {
                PipeView::Skip
            } else if stub.len() == 4 && request::is_last(pfc_flags) {
                PipeView::End
            } else {
                PipeView::Data(stub)
            },
        ),
{
    request::response_reads_back(pfc_flags, call_id, hint, stub, signature);
    let bytes = request::response_bytes(pfc_flags, call_id, hint, stub, signature);
    assert(request::fragment(call_id, bytes) == Ok::<(Seq<u8>, bool), ErrorView>(
        (stub, request::is_last(pfc_flags)),
    ));
    request::response_header_reads_back(pfc_flags, call_id, hint, stub, signature);
}

/// Whether the tunnel is closed behind `n` reads, and the PDUs that these leave.
pub open spec fn after_reads(pipe_call_id: u32, pdus: Seq<Seq<u8>>, n: nat) -> (
    bool,
    Seq<Seq<u8>>,
)
    decreases n,
{
    if n == 0 {
        (false, pdus)
    } else {
        let (closed, left) = after_reads(pipe_call_id, pdus, (n - 1) as nat);
        let read = read_tunnel(closed, pipe_call_id, left);
        (read.closed, left.skip(read.taken as int))
    }
}

/// The read behind `n` others.
pub open spec fn nth_read(pipe_call_id: u32, pdus: Seq<Seq<u8>>, n: nat) -> ReadView {
    let (closed, left) = after_reads(pipe_call_id, pdus, n);
    read_tunnel(closed, pipe_call_id, left)
}

/// Nothing but the return code of the pipe ends it: four bytes under its call, in a last
/// fragment. And the pipe never gives a chunk without bytes.
pub proof fn only_the_return_code_ends(pipe_call_id: u32, pdu: Seq<u8>)
    ensures
        pipe_step(pipe_call_id, pdu) == Ok::<PipeView, ErrorView>(PipeView::End) ==> {
            &&& pdu::decoded_header(pdu) matches Ok(h)
            &&& h.call_id == pipe_call_id
            &&& request::is_last(h.pfc_flags)
            &&& request::stub_of(pdu, h) matches Ok(stub)
            &&& stub.len() == 4
        },
        pipe_step(pipe_call_id, pdu) matches Ok(PipeView::Data(data)) ==> data.len() > 0,
{
}

/// The number of PDUs that a read skips: all that it takes, but for the one that gives its
/// result.
pub open spec fn skipped(read: ReadView) -> int {
    if read.result is Some {
        read.taken - 1
    } else {
        read.taken as int
    }
}

/// A read of an open tunnel skips what means nothing to the pipe, and ends with the first
/// PDU that means something. It gives no bytes exactly where that PDU ends the pipe, and
/// the tunnel is closed behind it exactly then.
pub proof fn reads_end_with_the_pipe(pipe_call_id: u32, pdus: Seq<Seq<u8>>)
    ensures
        ({
            let read = read_tunnel(false, pipe_call_id, pdus);
            &&& read.taken <= pdus.len()
            &&& read.closed <==> is_end(read)
            &&& read.result is None ==> read.taken == pdus.len()
            &&& read.result is Some ==> read.taken > 0 && pipe_step(
                pipe_call_id,
                pdus[read.taken - 1],
            ) == match read.result->Some_0 {
                Err(e) => Err(e),
                Ok(data) => if data.len() == 0 {
                    Ok(PipeView::End)
                } else {
                    Ok(PipeView::Data(data))
                },
            }
            &&& forall|i: int|
                0 <= i < skipped(read) ==> pipe_step(pipe_call_id, #[trigger] pdus[i]) == Ok::<
                    PipeView,
                    ErrorView,
                >(PipeView::Skip)
        }),
    decreases pdus.len(),
{
    let read = read_tunnel(false, pipe_call_id, pdus);
    if pdus.len() > 0 {
        only_the_return_code_ends(pipe_call_id, pdus[0]);
        let step = pipe_step(pipe_call_id, pdus[0]);
        let rest = pdus.skip(1);
        let later = read_tunnel(
            closed_after(false, pipe_call_id, pdus[0]),
            pipe_call_id,
            rest,
        );
        if step == Ok::<PipeView, ErrorView>(PipeView::Skip) {
            reads_end_with_the_pipe(pipe_call_id, rest);
            assert forall|i: int| 0 <= i < skipped(read) implies pipe_step(
                pipe_call_id,
                #[trigger] pdus[i],
            ) == Ok::<PipeView, ErrorView>(PipeView::Skip) by {
                if i > 0 {
                    assert(rest[i - 1] == pdus[i]);
                }
            }
            if later.result is Some {
                assert(rest[later.taken - 1] == pdus[read.taken - 1]);
            }
        }
    }
}

/// The end of the pipe is final: behind a read that gave no bytes every read gives none,
/// and takes no further PDU.
pub proof fn end_of_pipe_is_final(pipe_call_id: u32, pdus: Seq<Seq<u8>>, m: nat, n: nat)
    requires
        m < n,
        is_end(nth_read(pipe_call_id, pdus, m)),
    ensures
        is_end(nth_read(pipe_call_id, pdus, n)),
        nth_read(pipe_call_id, pdus, n).taken == 0,
        after_reads(pipe_call_id, pdus, n).0,
        after_reads(pipe_call_id, pdus, n).1 == after_reads(pipe_call_id, pdus, m + 1).1,
    decreases n,
{
    let (closed, left) = after_reads(pipe_call_id, pdus, m);
    if !closed {
        reads_end_with_the_pipe(pipe_call_id, left);
    }
    if n > m + 1 {
        end_of_pipe_is_final(pipe_call_id, pdus, m, (n - 1) as nat);
        let (_, rest) = after_reads(pipe_call_id, pdus, (n - 1) as nat);
        assert(rest.skip(0) =~= rest);
    }
}

/// Whether a tunnel is closed behind some PDUs, taken in one after the other.
pub open spec fn closed_run(pipe_call_id: u32, pdus: Seq<Seq<u8>>) -> bool
    decreases pdus.len(),
{
    pdus.len() > 0 && closed_after(
        closed_run(pipe_call_id, pdus.drop_last()),
        pipe_call_id,
        pdus.last(),
    )
}

/// A tunnel is closed exactly from the PDU on that ends the pipe.
pub proof fn closed_from_the_end_on(pipe_call_id: u32, pdus: Seq<Seq<u8>>)
    ensures
        closed_run(pipe_call_id, pdus) <==> exists|i: int|
            0 <= i < pdus.len() && pipe_step(pipe_call_id, #[trigger] pdus[i]) == Ok::<
                PipeView,
                ErrorView,
            >(PipeView::End),
    decreases pdus.len(),
{
    if pdus.len() > 0 {
        let front = pdus.drop_last();
        closed_from_the_end_on(pipe_call_id, front);
        if closed_run(pipe_call_id, front) {
            let i = choose|i: int|
                0 <= i < front.len() && pipe_step(pipe_call_id, #[trigger] front[i]) == Ok::<
                    PipeView,
                    ErrorView,
                >(PipeView::End);
            assert(pdus[i] == front[i]);
        }
        assert(pdus.last() == pdus[pdus.len() - 1]);
        if exists|i: int|
            0 <= i < pdus.len() && pipe_step(pipe_call_id, #[trigger] pdus[i]) == Ok::<
                PipeView,
                ErrorView,
            >(PipeView::End) {
            let i = choose|i: int|
                0 <= i < pdus.len() && pipe_step(pipe_call_id, #[trigger] pdus[i]) == Ok::<
                    PipeView,
                    ErrorView,
                >(PipeView::End);
            if i < front.len() {
                assert(front[i] == pdus[i]);
            }
        }
    }
}

/// The operations have their numbers.
pub proof fn operations_have_their_numbers()
    ensures
        OP_CREATE_TUNNEL == 1,
        OP_AUTHORIZE_TUNNEL == 2,
        OP_CREATE_CHANNEL == 4,
        OP_SETUP_RECEIVE_PIPE == 8,
        OP_SEND_TO_SERVER == 9,
{
}

/// The text that little-endian UTF-16 spells: a unit of 0xDC00 to 0xDFFF is the second half
/// of a pair, and carries ten bits behind the ten of the first half.
pub open spec fn utf16_text(b: Seq<u8>) -> Seq<char>
    decreases b.len(),
{
    let n = b.len() as int;
    if n < 2 {
        Seq::empty()
    } else {
        let unit = wire::u16_at(b, n - 2);
        if 0xDC00 <= unit <= 0xDFFF && n >= 4 {
            let first = wire::u16_at(b, n - 4);
            utf16_text(b.take(n - 4)).push(
                (65536 + (first - 0xD800) * 1024 + (unit - 0xDC00)) as char,
            )
        } else {
            utf16_text(b.take(n - 2)).push(unit as char)
        }
    }
}

proof fn lemma_units_carry(c: char)
    ensures
        ({
            let units = utf16_units(c);
            &&& units.len() == 1 ==> units[0] as char == c && !(0xDC00 <= units[0] <= 0xDFFF)
            &&& units.len() == 2 ==> 0xDC00 <= units[1] <= 0xDFFF && (65536 + (units[0] - 0xD800)
                * 1024 + (units[1] - 0xDC00)) as char == c
            &&& units.len() == 1 || units.len() == 2
        }),
{
    let n = c as u32 as int;
    let units = utf16_units(c);
    if n >= 0x1_0000 {
        let over = n - 0x1_0000;
        assert(units[0] == 0xD800 + over / 1024);
        assert(units[1] == 0xDC00 + over % 1024);
    }
}

/// A text reads back from its UTF-16.
pub proof fn utf16_reads_back(s: Seq<char>)
    ensures
        utf16_text(utf16_bytes(s)) == s,
    decreases s.len(),
{
    if s.len() > 0 {
        let c = s.last();
        let front = utf16_bytes(s.drop_last());
        let units = utf16_units(c);
        let one = front + wire::le16(units[0]);
        let b = utf16_bytes(s);
        utf16_reads_back(s.drop_last());
        lemma_units_carry(c);
        wire::numbers_stand_behind(front, units[0], 0);
        if units.len() == 2 {
            assert(b == one + wire::le16(units[1]));
            wire::numbers_stand_behind(one, units[1], 0);
            wire::appending_keeps_numbers(one, wire::le16(units[1]));
            assert(b.take(b.len() - 4) =~= front);
            assert(wire::u16_at(b, b.len() - 4) == units[0]);
            assert(wire::u16_at(b, b.len() - 2) == units[1]);
        } else {
            assert(b =~= one);
            assert(b.take(b.len() - 2) =~= front);
            assert(wire::u16_at(b, b.len() - 2) == units[0]);
        }
        assert(utf16_text(b) =~= s.drop_last().push(c));
        assert(s =~= s.drop_last().push(c));
    } else {
        assert(utf16_bytes(s) =~= Seq::empty());
        assert(utf16_text(utf16_bytes(s)) =~= s);
    }
}

/// The text of an NDR string in front of `b`, and what follows the string: the two counts
/// agree, the offset is zero, and the last unit is a zero.
pub open spec fn ndr_text(b: Seq<u8>) -> Option<(Seq<char>, Seq<u8>)> {
    let units = wire::u32_at(b, 8);
    let end = 12 + 2 * units;
    let next = if units % 2 == 1 {
        end + 2
    } else {
        end
    };
    if b.len() < 12 || units == 0 || next > b.len() || wire::u32_at(b, 0) != units || wire::u32_at(
        b,
        4,
    ) != 0 || wire::u16_at(b, end - 2) != 0 {
        None
    } else {
        Some((utf16_text(b.subrange(12, end - 2)), b.skip(next)))
    }
}

/// The units of a text fit the count of an NDR string.
pub open spec fn countable(s: Seq<char>) -> bool {
    utf16_bytes(s).len() + 2 <= 2 * u32::MAX
}

/// A text reads back from an NDR string, and what follows begins at a multiple of four
/// bytes.
#[verifier::rlimit(40)]
pub proof fn ndr_string_reads_back(s: Seq<char>, rest: Seq<u8>)
    requires
        countable(s),
    ensures
        ndr_text(ndr_string(s) + rest) == Some((s, rest)),
        utf16z_count(s) == utf16_bytes(s).len() / 2 + 1,
{
    let text = utf16_bytes(s);
    let count = utf16z_count(s);
    lemma_utf16_is_even(s);
    assert(utf16z_bytes(s).len() == text.len() + 2);
    assert(count == text.len() / 2 + 1);
    lemma_ndr_parts(count, text);
    let body = wire::le32(count) + wire::le32(0) + wire::le32(count) + (text + wire::le16(0));
    let pad: Seq<u8> = if count % 2 == 1 {
        seq![0u8, 0u8]
    } else {
        Seq::empty()
    };
    assert(body + pad == ndr_string(s));
    lemma_ndr_text(body, pad, rest, text.len() as int);
    utf16_reads_back(s);
}

proof fn lemma_ndr_text(body: Seq<u8>, pad: Seq<u8>, rest: Seq<u8>, n: int)
    requires
        n >= 0,
        n % 2 == 0,
        body.len() == 14 + n,
        wire::u32_at(body, 0) == n / 2 + 1,
        wire::u32_at(body, 4) == 0,
        wire::u32_at(body, 8) == n / 2 + 1,
        wire::u16_at(body, 12 + n) == 0,
        pad.len() == if (n / 2 + 1) % 2 == 1 {
            2
        } else {
            0nat
        },
    ensures
        ndr_text(body + pad + rest) == Some((utf16_text(body.subrange(12, 12 + n)), rest)),
{
    let whole = body + pad;
    let b = whole + rest;
    wire::appending_keeps_numbers(body, pad);
    wire::appending_keeps_numbers(whole, rest);
    wire::appending_keeps_front(body, pad, 12, 12 + n);
    wire::appending_keeps_front(whole, rest, 12, 12 + n);
    assert(b.skip(whole.len() as int) =~= rest);
}

proof fn lemma_ndr_parts(count: u32, text: Seq<u8>)
    ensures
        ({
            let body = wire::le32(count) + wire::le32(0) + wire::le32(count) + (text + wire::le16(0));
            &&& body.len() == 14 + text.len()
            &&& wire::u32_at(body, 0) == count
            &&& wire::u32_at(body, 4) == 0
            &&& wire::u32_at(body, 8) == count
            &&& wire::u16_at(body, 12 + text.len() as int) == 0
            &&& body.subrange(12, 12 + text.len() as int) == text
        }),
{
    let b1 = wire::le32(count) + wire::le32(0);
    let b2 = b1 + wire::le32(count);
    let body = b2 + (text + wire::le16(0));
    assert(body.subrange(0, 4) =~= wire::le32(count));
    wire::le32_round_trips(count, body, 0);
    assert(body.subrange(4, 8) =~= wire::le32(0));
    wire::le32_round_trips(0, body, 4);
    assert(body.subrange(8, 12) =~= wire::le32(count));
    wire::le32_round_trips(count, body, 8);
    let end = 12 + text.len() as int;
    assert(body.subrange(end, end + 2) =~= wire::le16(0));
    wire::le16_round_trips(0, body, end);
    assert(body.subrange(12, end) =~= text);
}

/// The stub of `TsProxyCreateChannel` reads back as the tunnel, one resource name, which is
/// the host, protocol 3, and the port.
#[verifier::rlimit(40)]
pub proof fn channel_stub_reads_back(tunnel: Seq<u8>, host: Seq<char>, port: u16)
    requires
        tunnel.len() == 20,
        countable(host),
    ensures
        ({
            let b = channel_bytes(tunnel, host, port);
            &&& b.take(20) == tunnel
            &&& wire::u32_at(b, 20) == 0x20000
            &&& wire::u32_at(b, 24) == 1
            &&& wire::u32_at(b, 28) == 0
            &&& wire::u16_at(b, 32) == 0
            &&& wire::u16_at(b, 34) == 0
            &&& wire::u16_at(b, 36) == 3
            &&& wire::u16_at(b, 38) == port
            &&& wire::u32_at(b, 40) == 1
            &&& wire::u32_at(b, 44) == 0x20004
            &&& ndr_text(b.skip(48)) == Some((host, Seq::<u8>::empty()))
        }),
{
    lemma_channel_words(tunnel, port);
    let front = channel_front(tunnel, port);
    let name = ndr_string(host);
    assert(front + name == channel_bytes(tunnel, host, port));
    wire::appending_keeps_numbers(front, name);
    wire::appending_keeps_front(front, name, 0, 20);
    lemma_behind(front, name);
    ndr_string_reads_back(host, Seq::empty());
}

spec fn channel_front(tunnel: Seq<u8>, port: u16) -> Seq<u8> {
    tunnel + wire::le32(REFERENT_0) + wire::le32(1) + wire::le32(0) + wire::le16(0) + wire::le16(0)
        + wire::le16(PROTOCOL_RDP) + wire::le16(port) + wire::le32(1) + wire::le32(REFERENT_1)
}

proof fn lemma_behind(front: Seq<u8>, rest: Seq<u8>)
    ensures
        (front + rest).skip(front.len() as int) == rest + Seq::<u8>::empty(),
        (front + rest).take(20) == (front + rest).subrange(0, 20),
{
    assert((front + rest).skip(front.len() as int) =~= rest + Seq::<u8>::empty());
    assert((front + rest).take(20) =~= (front + rest).subrange(0, 20));
}

proof fn lemma_channel_words(tunnel: Seq<u8>, port: u16)
    requires
        tunnel.len() == 20,
    ensures
        ({
            let b = channel_front(tunnel, port);
            &&& b.len() == 48
            &&& b.subrange(0, 20) == tunnel
            &&& wire::u32_at(b, 20) == 0x20000
            &&& wire::u32_at(b, 24) == 1
            &&& wire::u32_at(b, 28) == 0
            &&& wire::u16_at(b, 32) == 0
            &&& wire::u16_at(b, 34) == 0
            &&& wire::u16_at(b, 36) == 3
            &&& wire::u16_at(b, 38) == port
            &&& wire::u32_at(b, 40) == 1
            &&& wire::u32_at(b, 44) == 0x20004
        }),
{
    let b1 = tunnel + wire::le32(REFERENT_0);
    let b2 = b1 + wire::le32(1);
    let b3 = b2 + wire::le32(0);
    let b4 = b3 + wire::le16(0);
    let b5 = b4 + wire::le16(0);
    let b6 = b5 + wire::le16(PROTOCOL_RDP);
    let b7 = b6 + wire::le16(port);
    let b8 = b7 + wire::le32(1);
    let b = b8 + wire::le32(REFERENT_1);
    assert(b == channel_front(tunnel, port));
    wire::numbers_stand_behind(tunnel, 0, REFERENT_0);
    wire::numbers_stand_behind(b1, 0, 1);
    wire::numbers_stand_behind(b2, 0, 0);
    wire::numbers_stand_behind(b3, 0, 0);
    wire::numbers_stand_behind(b4, 0, 0);
    wire::numbers_stand_behind(b5, PROTOCOL_RDP, 0);
    wire::numbers_stand_behind(b6, port, 0);
    wire::numbers_stand_behind(b7, 0, 1);
    wire::numbers_stand_behind(b8, 0, REFERENT_1);
    wire::appending_keeps_numbers(b1, wire::le32(1));
    wire::appending_keeps_numbers(b2, wire::le32(0));
    wire::appending_keeps_numbers(b3, wire::le16(0));
    wire::appending_keeps_numbers(b4, wire::le16(0));
    wire::appending_keeps_numbers(b5, wire::le16(PROTOCOL_RDP));
    wire::appending_keeps_numbers(b6, wire::le16(port));
    wire::appending_keeps_numbers(b7, wire::le32(1));
    wire::appending_keeps_numbers(b8, wire::le32(REFERENT_1));
    assert(b.subrange(0, 20) =~= tunnel);
}

/// Two channels are asked for by the same stub only where tunnel, host and port are the
/// same.
pub proof fn channel_stubs_differ(
    tunnel: Seq<u8>,
    host: Seq<char>,
    port: u16,
    other_tunnel: Seq<u8>,
    other_host: Seq<char>,
    other_port: u16,
)
    requires
        tunnel.len() == 20,
        other_tunnel.len() == 20,
        countable(host),
        countable(other_host),
        channel_bytes(tunnel, host, port) == channel_bytes(other_tunnel, other_host, other_port),
    ensures
        tunnel == other_tunnel,
        host == other_host,
        port == other_port,
{
    channel_stub_reads_back(tunnel, host, port);
    channel_stub_reads_back(other_tunnel, other_host, other_port);
}

/// The stub of `TsProxyAuthorizeTunnel` reads back as the tunnel, a quarantine request
/// ("QR"), the machine name with its count, and no payload.
#[verifier::rlimit(40)]
pub proof fn authorize_stub_reads_back(tunnel: Seq<u8>, machine: Seq<char>)
    requires
        tunnel.len() == 20,
        countable(machine),
    ensures
        ({
            let b = authorize_bytes(tunnel, machine);
            &&& b.take(20) == tunnel
            &&& wire::u32_at(b, 20) == 0x5152
            &&& wire::u32_at(b, 24) == 0x5152
            &&& wire::u32_at(b, 28) == 0x20000
            &&& wire::u32_at(b, 32) == 0
            &&& wire::u32_at(b, 36) == 0x20004
            &&& wire::u32_at(b, 40) == utf16_bytes(machine).len() / 2 + 1
            &&& wire::u32_at(b, 44) == 0x20008
            &&& wire::u32_at(b, 48) == 0
            &&& ndr_text(b.skip(52)) == Some((machine, seq![0u8, 0, 0, 0]))
        }),
{
    let count = utf16z_count(machine);
    let front = authorize_front(tunnel, count);
    let name = ndr_string(machine);
    let end = wire::le32(0);
    lemma_authorize_words(tunnel, count);
    assert(front + name + end == authorize_bytes(tunnel, machine));
    wire::appending_keeps_numbers(front, name);
    wire::appending_keeps_numbers(front + name, end);
    lemma_between(front, name, end);
    assert(end =~= seq![0u8, 0, 0, 0]);
    ndr_string_reads_back(machine, seq![0u8, 0, 0, 0]);
}

spec fn authorize_front(tunnel: Seq<u8>, count: u32) -> Seq<u8> {
    tunnel + wire::le32(TSG_PACKET_QUARREQUEST) + wire::le32(TSG_PACKET_QUARREQUEST) + wire::le32(
        REFERENT_0,
    ) + wire::le32(0) + wire::le32(REFERENT_1) + wire::le32(count) + wire::le32(REFERENT_2)
        + wire::le32(0)
}

proof fn lemma_between(front: Seq<u8>, name: Seq<u8>, end: Seq<u8>)
    requires
        front.len() >= 20,
    ensures
        (front + name + end).skip(front.len() as int) == name + end,
        (front + name + end).take(20) == front.subrange(0, 20),
{
    assert((front + name + end).skip(front.len() as int) =~= name + end);
    assert((front + name + end).take(20) =~= front.subrange(0, 20));
}

proof fn lemma_authorize_words(tunnel: Seq<u8>, count: u32)
    requires
        tunnel.len() == 20,
    ensures
        ({
            let b = authorize_front(tunnel, count);
            &&& b.len() == 52
            &&& b.subrange(0, 20) == tunnel
            &&& wire::u32_at(b, 20) == 0x5152
            &&& wire::u32_at(b, 24) == 0x5152
            &&& wire::u32_at(b, 28) == 0x20000
            &&& wire::u32_at(b, 32) == 0
            &&& wire::u32_at(b, 36) == 0x20004
            &&& wire::u32_at(b, 40) == count
            &&& wire::u32_at(b, 44) == 0x20008
            &&& wire::u32_at(b, 48) == 0
        }),
{
    let b1 = tunnel + wire::le32(TSG_PACKET_QUARREQUEST);
    let b2 = b1 + wire::le32(TSG_PACKET_QUARREQUEST);
    let b3 = b2 + wire::le32(REFERENT_0);
    let b4 = b3 + wire::le32(0);
    let b5 = b4 + wire::le32(REFERENT_1);
    let b6 = b5 + wire::le32(count);
    let b7 = b6 + wire::le32(REFERENT_2);
    let b = b7 + wire::le32(0);
    assert(b == authorize_front(tunnel, count));
    wire::numbers_stand_behind(tunnel, 0, TSG_PACKET_QUARREQUEST);
    wire::numbers_stand_behind(b1, 0, TSG_PACKET_QUARREQUEST);
    wire::numbers_stand_behind(b2, 0, REFERENT_0);
    wire::numbers_stand_behind(b3, 0, 0);
    wire::numbers_stand_behind(b4, 0, REFERENT_1);
    wire::numbers_stand_behind(b5, 0, count);
    wire::numbers_stand_behind(b6, 0, REFERENT_2);
    wire::numbers_stand_behind(b7, 0, 0);
    wire::appending_keeps_numbers(b1, wire::le32(TSG_PACKET_QUARREQUEST));
    wire::appending_keeps_numbers(b2, wire::le32(REFERENT_0));
    wire::appending_keeps_numbers(b3, wire::le32(0));
    wire::appending_keeps_numbers(b4, wire::le32(REFERENT_1));
    wire::appending_keeps_numbers(b5, wire::le32(count));
    wire::appending_keeps_numbers(b6, wire::le32(REFERENT_2));
    wire::appending_keeps_numbers(b7, wire::le32(0));
    assert(b.subrange(0, 20) =~= tunnel);
}

/// Two stubs of `TsProxyAuthorizeTunnel` are the same only where tunnel and machine name
/// are.
pub proof fn authorize_stubs_differ(
    tunnel: Seq<u8>,
    machine: Seq<char>,
    other_tunnel: Seq<u8>,
    other_machine: Seq<char>,
)
    requires
        tunnel.len() == 20,
        other_tunnel.len() == 20,
        countable(machine),
        countable(other_machine),
        authorize_bytes(tunnel, machine) == authorize_bytes(other_tunnel, other_machine),
    ensures
        tunnel == other_tunnel,
        machine == other_machine,
{
    authorize_stub_reads_back(tunnel, machine);
    authorize_stub_reads_back(other_tunnel, other_machine);
}

/// The number that four bytes from `at` on spell, high byte first.
pub open spec fn big_endian_at(b: Seq<u8>, at: int) -> int {
    16777216 * b[at] + 65536 * b[at + 1] + 256 * b[at + 2] + b[at + 3]
}

/// The stub of `TsProxySendToServer` reads back as the channel, the length of the data with
/// its own count, one buffer, the length of the data, all high byte first, and the data.
/// The lengths go round at 2^32.
#[verifier::rlimit(40)]
pub proof fn send_stub_reads_back(channel: Seq<u8>, data: Seq<u8>)
    requires
        channel.len() == 20,
    ensures
        ({
            let b = send_bytes(channel, data);
            &&& b.len() == 32 + data.len()
            &&& b.take(20) == channel
            &&& big_endian_at(b, 20) == (data.len() + 4) % 4294967296
            &&& big_endian_at(b, 24) == 1
            &&& big_endian_at(b, 28) == data.len() % 4294967296
            &&& b.skip(32) == data
        }),
{
    let total = wire::low32(data.len() + 4);
    let len = wire::low32(data.len());
    let b = send_bytes(channel, data);
    lemma_send_parts(channel, wire::be32(total), wire::be32(1), wire::be32(len), data);
    wire::be32_is_spelled(total, b, 20);
    wire::be32_is_spelled(1, b, 24);
    wire::be32_is_spelled(len, b, 28);
}

proof fn lemma_send_parts(
    channel: Seq<u8>,
    total: Seq<u8>,
    one: Seq<u8>,
    len: Seq<u8>,
    data: Seq<u8>,
)
    requires
        channel.len() == 20,
        total.len() == 4,
        one.len() == 4,
        len.len() == 4,
    ensures
        ({
            let b = channel + total + one + len + data;
            &&& b.len() == 32 + data.len()
            &&& b.take(20) == channel
            &&& b.subrange(20, 24) == total
            &&& b.subrange(24, 28) == one
            &&& b.subrange(28, 32) == len
            &&& b.skip(32) == data
        }),
{
    let b = channel + total + one + len + data;
    assert(b.take(20) =~= channel);
    assert(b.subrange(20, 24) =~= total);
    assert(b.subrange(24, 28) =~= one);
    assert(b.subrange(28, 32) =~= len);
    assert(b.skip(32) =~= data);
}

/// Two stubs of `TsProxySendToServer` are the same only where channel and data are.
pub proof fn send_stubs_differ(
    channel: Seq<u8>,
    data: Seq<u8>,
    other_channel: Seq<u8>,
    other_data: Seq<u8>,
)
    requires
        channel.len() == 20,
        other_channel.len() == 20,
        send_bytes(channel, data) == send_bytes(other_channel, other_data),
    ensures
        channel == other_channel,
        data == other_data,
{
    send_stub_reads_back(channel, data);
    send_stub_reads_back(other_channel, other_data);
}

/// The computer name comes first, then the host name; an empty name, or none, is "IronRDP".
pub proof fn machine_names_are_preferred(name: Seq<char>, other: Option<Seq<char>>)
    ensures
        name.len() > 0 ==> machine_name(Some(name), other) == name,
        name.len() > 0 ==> machine_name(None, Some(name)) == name,
        machine_name(Some(Seq::empty()), other) == "IronRDP"@,
        machine_name(None, Some(Seq::empty())) == "IronRDP"@,
        machine_name(None, None) == "IronRDP"@,
{
}

/// A response that cannot hold what it should, or carries a code other than zero, gives no
/// handle; any other gives the bytes and the number at their places.
pub proof fn handles_need_a_zero_code(resp: Seq<u8>, host: Seq<char>, port: u16)
    ensures
        ({
            let n = resp.len() as int;
            &&& parsed_tunnel(resp) is Ok <==> n >= 28 && wire::u32_at(resp, n - 4) == 0
            &&& parsed_channel(resp, host, port) is Ok <==> n >= 28 && wire::u32_at(resp, 24) == 0
            &&& parsed_authorization(resp) is Ok <==> n >= 4 && wire::u32_at(resp, n - 4) == 0
        }),
{
}

/// `TsProxyCreateTunnel` goes out as operation 1.
pub proof fn tunnel_is_created_by_operation_1<C>(
    before: BoundRpc<C>,
    after: BoundRpc<C>,
    r: Result<(ResponseReader, Vec<u8>), GatewayError>,
)
    requires
        creates_tunnel(before, after, r),
        r is Ok,
    ensures
        request::carries(
            r->Ok_0.1@,
            before.call_id,
            1,
            versioncaps_bytes() + undocumented_bytes(),
        ),
        r->Ok_0.0.call_id == before.call_id,
{
    let stub = versioncaps_bytes() + undocumented_bytes();
    request::call_goes_out(before, OP_CREATE_TUNNEL, stub, after, r);
}

proof fn lemma_handle_in_front(tunnel: Seq<u8>, machine: Seq<char>, host: Seq<char>, port: u16)
    requires
        tunnel.len() == 20,
    ensures
        authorize_bytes(tunnel, machine).len() >= 20,
        authorize_bytes(tunnel, machine).take(20) == tunnel,
        channel_bytes(tunnel, host, port).len() >= 40,
        channel_bytes(tunnel, host, port).subrange(0, 20) == tunnel,
        wire::u16_at(channel_bytes(tunnel, host, port), 38) == port,
{
    let count = utf16z_count(machine);
    lemma_authorize_words(tunnel, count);
    let front = authorize_front(tunnel, count);
    assert(front + ndr_string(machine) + wire::le32(0) == authorize_bytes(tunnel, machine));
    lemma_between(front, ndr_string(machine), wire::le32(0));
    lemma_channel_words(tunnel, port);
    let front = channel_front(tunnel, port);
    assert(front + ndr_string(host) == channel_bytes(tunnel, host, port));
    wire::appending_keeps_front(front, ndr_string(host), 0, 20);
    wire::appending_keeps_numbers(front, ndr_string(host));
}

/// `TsProxyAuthorizeTunnel` goes out as operation 2, with the handle of the tunnel in front
/// of its stub.
pub proof fn tunnel_is_authorized_by_operation_2<C>(
    before: BoundRpc<C>,
    tunnel: HandleView,
    machine: Seq<char>,
    after: BoundRpc<C>,
    r: Result<(ResponseReader, Vec<u8>), GatewayError>,
)
    requires
        tunnel.context.len() == 20,
        authorizes_tunnel(before, tunnel, machine, after, r),
        r is Ok,
    ensures
        request::carries(
            r->Ok_0.1@,
            before.call_id,
            2,
            authorize_bytes(tunnel.context, machine),
        ),
        r->Ok_0.1@.subrange(24, 44) == tunnel.context,
        r->Ok_0.0.call_id == before.call_id,
{
    let stub = authorize_bytes(tunnel.context, machine);
    request::call_goes_out(before, OP_AUTHORIZE_TUNNEL, stub, after, r);
    lemma_handle_in_front(tunnel.context, machine, machine, 0);
    request::stub_parts_stand(r->Ok_0.1@, before.call_id, OP_AUTHORIZE_TUNNEL, stub, 0, 20);
    assert(stub.take(20) =~= stub.subrange(0, 20));
}

/// `TsProxyCreateChannel` goes out as operation 4, with the handle of the tunnel in front of
/// its stub and the port at byte 62.
pub proof fn channel_is_created_by_operation_4<C>(
    before: BoundRpc<C>,
    tunnel: HandleView,
    host: Seq<char>,
    port: u16,
    after: BoundRpc<C>,
    r: Result<(ResponseReader, Vec<u8>), GatewayError>,
)
    requires
        tunnel.context.len() == 20,
        creates_channel(before, tunnel, host, port, after, r),
        r is Ok,
    ensures
        request::carries(
            r->Ok_0.1@,
            before.call_id,
            4,
            channel_bytes(tunnel.context, host, port),
        ),
        r->Ok_0.1@.subrange(24, 44) == tunnel.context,
        wire::u16_at(r->Ok_0.1@, 62) == port,
        r->Ok_0.0.call_id == before.call_id,
{
    let b = r->Ok_0.1@;
    let stub = channel_bytes(tunnel.context, host, port);
    request::call_goes_out(before, OP_CREATE_CHANNEL, stub, after, r);
    lemma_handle_in_front(tunnel.context, host, host, port);
    request::stub_parts_stand(b, before.call_id, OP_CREATE_CHANNEL, stub, 0, 20);
    request::stub_numbers_stand(b, before.call_id, OP_CREATE_CHANNEL, stub, 38);
}

/// The pipe of a channel is set up by operation 8, with the handle of the channel alone.
pub proof fn pipe_is_set_up_by_operation_8(call_id: u32, channel: HandleView, signature: Seq<u8>)
    requires
        channel.context.len() == 20,
        signature.len() == 16,
    ensures
        request::carries(pipe_request(call_id, channel) + signature, call_id, 8, channel.context),
        (pipe_request(call_id, channel) + signature).len() == 68,
{
    request::request_reads_back(call_id, OP_SETUP_RECEIVE_PIPE, channel.context, signature);
}

/// Data goes to the target by operation 9, behind the handle of the channel.
#[verifier::rlimit(40)]
pub proof fn data_is_sent_by_operation_9(
    call_id: u32,
    channel: Seq<u8>,
    data: Seq<u8>,
    signature: Seq<u8>,
)
    requires
        channel.len() == 20,
        signature.len() == 16,
    ensures
        ({
            let b = data_request(call_id, channel, data) + signature;
            &&& request::carries(b, call_id, 9, send_bytes(channel, data))
            &&& b.subrange(24, 44) == channel
            &&& b.subrange(56, 56 + data.len() as int) == data
        }),
{
    let stub = send_bytes(channel, data);
    let b = data_request(call_id, channel, data) + signature;
    let n = stub.len() as int;
    request::request_reads_back(call_id, OP_SEND_TO_SERVER, stub, signature);
    send_stub_reads_back(channel, data);
    request::stub_parts_stand(b, call_id, OP_SEND_TO_SERVER, stub, 0, 20);
    request::stub_parts_stand(b, call_id, OP_SEND_TO_SERVER, stub, 32, n);
    assert(stub.take(20) =~= stub.subrange(0, 20));
    assert(stub.skip(32) =~= stub.subrange(32, n));
}

/// The parts of a tunnel are its own: each channel on its side, the handle, the pipe, the
/// cookie and the timeout of its connection, and the context with its next call.
pub proof fn parts_keep_their_places<C>(tunnel: GatewayTunnel<C>)
    ensures
        ({
            let parts = parts_of(tunnel);
            &&& parts.in_channel == tunnel.rpc.vc.in_channel
            &&& parts.out_channel == tunnel.rpc.vc.out_channel
            &&& parts.ntlm == tunnel.rpc.ntlm
            &&& parts.call_id == tunnel.rpc.call_id
            &&& parts.channel == tunnel.channel
            &&& parts.pipe_call_id == tunnel.pipe_call_id
            &&& parts.out_cookie == tunnel.rpc.vc.out_cookie
            &&& parts.connection_timeout == tunnel.rpc.vc.connection_timeout
        }),
{
}

/// A call that returned a code other than zero is reported by its name and the code, and
/// that of a channel by the host and the port of the target too; a response that is too
/// short by its length.
pub proof fn failed_calls_are_named(resp: Seq<u8>, host: Seq<char>, port: u16)
    ensures
        ({
            let n = resp.len() as int;
            let last = text::padded_hex(wire::u32_at(resp, n - 4) as nat, 8);
            let code = text::padded_hex(wire::u32_at(resp, 24) as nat, 8);
            let short = " response too short: "@ + text::dec(resp.len()) + " bytes"@;
            &&& n >= 28 && parsed_tunnel(resp) is Err ==> (parsed_tunnel(resp) matches Err(
                ErrorView::Protocol(m),
            ) && m == "TsProxyCreateTunnel"@ + " returned "@ + last)
            &&& n >= 4 && parsed_authorization(resp) is Err ==> (parsed_authorization(
                resp,
            ) matches Err(ErrorView::Protocol(m)) && m == "TsProxyAuthorizeTunnel"@ + " returned "@
                + last)
            &&& n >= 28 && parsed_channel(resp, host, port) is Err ==> (parsed_channel(
                resp,
                host,
                port,
            ) matches Err(ErrorView::Protocol(m)) && m == "TsProxyCreateChannel"@ + " returned "@
                + code + " (target "@ + host + ":"@ + text::dec(port as nat) + " unreachable?)"@)
            &&& n < 28 ==> (parsed_tunnel(resp) matches Err(ErrorView::Protocol(m)) && m
                == "CreateTunnel"@ + short)
            &&& n < 28 ==> (parsed_channel(resp, host, port) matches Err(ErrorView::Protocol(m))
                && m == "CreateChannel"@ + short)
            &&& n < 4 ==> (parsed_authorization(resp) matches Err(ErrorView::Protocol(m)) && m
                == "TsProxyAuthorizeTunnel"@ + short)
        }),
{
    lemma_short_text("CreateTunnel"@, resp.len());
    lemma_short_text("CreateChannel"@, resp.len());
    lemma_short_text("TsProxyAuthorizeTunnel"@, resp.len());
}

proof fn lemma_short_text(what: Seq<char>, n: nat)
    ensures
        too_short(what, n) == ErrorView::Protocol(
            what + (" response too short: "@ + text::dec(n) + " bytes"@),
        ),
{
    assert(what + " response too short: "@ + text::dec(n) + " bytes"@ =~= what + (
    " response too short: "@ + text::dec(n) + " bytes"@));
}

/// A tunnel reads its pipe under the call that set it up, which named the channel that its
/// data goes to; and its data goes out under other calls.
pub proof fn tunnel_keeps_to_its_pipe<C>(
    tunnel: GatewayTunnel<C>,
    rpc: BoundRpc<C>,
    channel: TargetChannel,
    data: Seq<u8>,
    signature: Seq<u8>,
)
    requires
        runs_over(tunnel, rpc, channel),
        signature.len() == 16,
    ensures
        ({
            let set_up = pipe_request(rpc.call_id, channel@) + signature;
            let sent = data_request(tunnel.rpc.call_id, tunnel.channel.0@, data) + signature;
            &&& wire::u32_at(set_up, 12) == tunnel.pipe_call_id
            &&& set_up.subrange(24, 44) == tunnel.channel.0@
            &&& set_up.subrange(24, 44) == sent.subrange(24, 44)
            &&& wire::u32_at(sent, 12) != tunnel.pipe_call_id
        }),
        tunnel.channel_id == channel.channel_id,
        !tunnel.closed,
{
    pipe_is_set_up_by_operation_8(rpc.call_id, channel@, signature);
    data_is_sent_by_operation_9(tunnel.rpc.call_id, tunnel.channel.0@, data, signature);
}

} // verus!

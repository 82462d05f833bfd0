//! The DCE/RPC secure bind to the TSGU interface.
//!
//! Over the open virtual connection an RPC association is bound to the interface
//! of the gateway, authenticated with an NTLM context of its own:
//!
//!   1. client: bind (Type-1) on the IN channel,
//!   2. server: bind_ack (Type-2) on the OUT channel,
//!   3. client: rpc_auth_3 (Type-3) on the IN channel.
//!
//! Requests are then signed and never sealed, and responses come back in the clear.
use vstd::prelude::*;
use vstd::slice::{slice_subrange, slice_to_vec};
use vstd::string::*;

use crate::auth;
use crate::auth::NtlmAuth;
use crate::error;
use crate::error::{ErrorView, GatewayError};
use crate::pdu;
use crate::pdu::{CommonHeader, PType};
use crate::rts::VirtualConnection;
use crate::text;
use crate::wire;

verus! {

/// The largest fragment, sent or received.
pub const MAX_FRAG: u16 = 0x0FF8;

/// `auth_type` of NTLM.
pub const AUTH_TYPE_NTLM: u8 = 0x0A;

/// `auth_level` of signed, unsealed messages.
pub const AUTH_LEVEL_PKT_INTEGRITY: u8 = 0x05;

/// `pfc_flags` of a bind: the whole call in one PDU, with header signing and
/// concurrent multiplexing.
pub const BIND_FLAGS: u8 = 0x17;

/// `pfc_flags` of an rpc_auth_3: the whole call in one PDU, with concurrent
/// multiplexing.
pub const AUTH3_FLAGS: u8 = 0x13;

/// The call id of the bind.
pub const BIND_CALL_ID: u32 = 2;

/// The TSGU interface, `44E265DD-7DAF-42CD-8560-3CDB6E7A2729`.
pub const TSGU_UUID: [u8; 16] = [
    0xDD, 0x65, 0xE2, 0x44, 0xAF, 0x7D, 0xCD, 0x42, 0x85, 0x60, 0x3C, 0xDB, 0x6E, 0x7A, 0x27, 0x29,
];

/// Version 1.3 of the interface (major in the low half, minor in the high half).
pub const TSGU_IF_VERSION: u32 = 0x0003_0001;

/// The NDR transfer syntax, `8A885D04-1CEB-11C9-9FE8-08002B104860`.
pub const NDR_UUID: [u8; 16] = [
    0x04, 0x5D, 0x88, 0x8A, 0xEB, 0x1C, 0xC9, 0x11, 0x9F, 0xE8, 0x08, 0x00, 0x2B, 0x10, 0x48, 0x60,
];

pub const NDR_VERSION: u32 = 2;

/// Bind-time feature negotiation, `6CB71C2C-9812-4540-0300-000000000000`.
pub const BTFN_UUID: [u8; 16] = [
    0x2C, 0x1C, 0xB7, 0x6C, 0x12, 0x98, 0x40, 0x45, 0x03, 0x00, 0x00, 0x00, 0x00, 0x00, 0x00, 0x00,
];

pub const BTFN_VERSION: u32 = 1;

/// The identifier of an interface or a transfer syntax.
pub open spec fn syntax_bytes(uuid: [u8; 16], version: u32) -> Seq<u8> {
    uuid@ + wire::le32(version)
}

/// A presentation context: the TSGU interface over one transfer syntax.
pub open spec fn context_bytes(id: u16, uuid: [u8; 16], version: u32) -> Seq<u8> {
    wire::le16(id) + seq![1u8, 0u8] + syntax_bytes(TSGU_UUID, TSGU_IF_VERSION) + syntax_bytes(
        uuid,
        version,
    )
}

/// What a bind says between its header and its trailer: the fragment sizes, no
/// association group, and two presentation contexts.
pub open spec fn bind_body() -> Seq<u8> {
    wire::le16(MAX_FRAG) + wire::le16(MAX_FRAG) + wire::le32(0) + seq![2u8, 0u8] + wire::le16(0)
        + context_bytes(0, NDR_UUID, NDR_VERSION) + context_bytes(1, BTFN_UUID, BTFN_VERSION)
}

/// The eight bytes in front of an authentication token.
pub open spec fn trailer_bytes(auth_pad: u8) -> Seq<u8> {
    seq![AUTH_TYPE_NTLM, AUTH_LEVEL_PKT_INTEGRITY, auth_pad, 0, 0, 0, 0, 0]
}

/// A bind that carries a Type-1 token.
pub open spec fn bind_bytes(type1: Seq<u8>) -> Seq<u8> {
    pdu::header_bytes(
        CommonHeader {
            ptype: PType::Bind,
            pfc_flags: BIND_FLAGS,
            frag_length: wire::low16(type1.len() + 124),
            auth_length: wire::low16(type1.len()),
            call_id: BIND_CALL_ID,
        },
    ) + bind_body() + trailer_bytes(0) + type1
}

/// An rpc_auth_3 that carries a Type-3 token.
pub open spec fn auth3_bytes(type3: Seq<u8>) -> Seq<u8> {
    pdu::header_bytes(
        CommonHeader {
            ptype: PType::Auth3,
            pfc_flags: AUTH3_FLAGS,
            frag_length: wire::low16(type3.len() + 28),
            auth_length: wire::low16(type3.len()),
            call_id: BIND_CALL_ID,
        },
    ) + wire::le16(MAX_FRAG) + wire::le16(MAX_FRAG) + trailer_bytes(0) + type3
}

fn p_syntax(uuid: &[u8; 16], version: u32) -> (v: Vec<u8>)
    ensures
        v@ == syntax_bytes(*uuid, version),
{
    let mut v: Vec<u8> = Vec::with_capacity(20);
    wire::push_bytes(&mut v, uuid.as_slice());
    wire::push_u32_le(&mut v, version);
    assert(v@ =~= syntax_bytes(*uuid, version));
    v
}

fn push_context(out: &mut Vec<u8>, id: u16, uuid: &[u8; 16], version: u32)
    ensures
        final(out)@ == old(out)@ + context_bytes(id, *uuid, version),
{
    let tsgu: [u8; 16] = TSGU_UUID;
    wire::push_u16_le(out, id);
    out.push(1);
    out.push(0);
    wire::push_bytes(out, p_syntax(&tsgu, TSGU_IF_VERSION).as_slice());
    wire::push_bytes(out, p_syntax(uuid, version).as_slice());
    assert(out@ =~= old(out)@ + context_bytes(id, *uuid, version));
}

/// The `sec_trailer` header (NTLM, signed, `auth_pad`, context 0).
pub fn sec_trailer_header(auth_pad: u8) -> (h: [u8; 8])
    ensures
        h@ == trailer_bytes(auth_pad),
{
    let h: [u8; 8] = [AUTH_TYPE_NTLM, AUTH_LEVEL_PKT_INTEGRITY, auth_pad, 0, 0, 0, 0, 0];
    assert(h@ =~= trailer_bytes(auth_pad));
    h
}

/// Append the `sec_trailer` header and the token.
pub fn push_sec_trailer(pdu: &mut Vec<u8>, auth_pad: u8, token: &[u8])
    ensures
        final(pdu)@ == old(pdu)@ + trailer_bytes(auth_pad) + token@,
{
    wire::push_bytes(pdu, sec_trailer_header(auth_pad).as_slice());
    wire::push_bytes(pdu, token);
}

/// Build the bind that carries the Type-1 token. Two presentation contexts: TSGU
/// over NDR, and TSGU with feature negotiation.
pub fn build_bind(type1: &[u8]) -> (pdu: Vec<u8>)
    ensures
        pdu@ == bind_bytes(type1@),
{
    let ndr: [u8; 16] = NDR_UUID;
    let btfn: [u8; 16] = BTFN_UUID;
    let mut body: Vec<u8> = Vec::with_capacity(100);
    wire::push_u16_le(&mut body, MAX_FRAG);
    wire::push_u16_le(&mut body, MAX_FRAG);
    wire::push_u32_le(&mut body, 0);
    body.push(2);
    body.push(0);
    wire::push_u16_le(&mut body, 0);
    push_context(&mut body, 0, &ndr, NDR_VERSION);
    push_context(&mut body, 1, &btfn, BTFN_VERSION);
    assert(body@ =~= bind_body());

    let frag_length: u16 = wire::truncate16_plus(type1.len(), 124);
    let mut pdu: Vec<u8> = Vec::with_capacity(frag_length as usize);
    CommonHeader::new(
        PType::Bind,
        BIND_FLAGS,
        frag_length,
        wire::truncate16(type1.len()),
        BIND_CALL_ID,
    ).encode(&mut pdu);
    wire::push_bytes(&mut pdu, body.as_slice());
    push_sec_trailer(&mut pdu, 0, type1);
    assert(pdu@ =~= bind_bytes(type1@));
    pdu
}

/// Build the rpc_auth_3 that carries the Type-3 token.
pub fn build_auth3(type3: &[u8]) -> (pdu: Vec<u8>)
    ensures
        pdu@ == auth3_bytes(type3@),
{
    let frag_length: u16 = wire::truncate16_plus(type3.len(), 28);
    let mut pdu: Vec<u8> = Vec::with_capacity(frag_length as usize);
    CommonHeader::new(
        PType::Auth3,
        AUTH3_FLAGS,
        frag_length,
        wire::truncate16(type3.len()),
        BIND_CALL_ID,
    ).encode(&mut pdu);
    wire::push_u16_le(&mut pdu, MAX_FRAG);
    wire::push_u16_le(&mut pdu, MAX_FRAG);
    push_sec_trailer(&mut pdu, 0, type3);
    assert(pdu@ =~= auth3_bytes(type3@));
    pdu
}

/// What a bind_ack says: the Type-2 token, and the fragment sizes of the server.
pub struct BindAck {
    pub type2: Vec<u8>,
    pub max_xmit_frag: u16,
    pub max_recv_frag: u16,
}

/// A [`BindAck`] with its token as a sequence.
pub struct BindAckView {
    pub type2: Seq<u8>,
    pub max_xmit_frag: u16,
    pub max_recv_frag: u16,
}

impl View for BindAck {
    type V = BindAckView;

    open spec fn view(&self) -> BindAckView {
        BindAckView {
            type2: self.type2@,
            max_xmit_frag: self.max_xmit_frag,
            max_recv_frag: self.max_recv_frag,
        }
    }
}

/// What a bind_ack says. The token is the last `auth_length` bytes; what stands
/// between the fragment sizes and the trailer does not matter.
pub open spec fn parsed_bind_ack(pdu: Seq<u8>) -> Result<BindAckView, ErrorView> {
    match pdu::decoded_header(pdu) {
        Err(e) => Err(e),
        Ok(h) => if h.ptype != PType::BindAck {
            Err(
                ErrorView::Protocol(
                    "expected bind_ack, got "@ + h.ptype.title() + " (bind rejected?)"@,
                ),
            )
        } else if h.auth_length == 0 {
            Err(ErrorView::Protocol("bind_ack carried no NTLM challenge"@))
        } else if h.frag_length != pdu.len() || h.auth_length + CommonHeader::LEN + 8
            > h.frag_length {
            Err(
                ErrorView::Protocol(
                    "bind_ack lengths inconsistent: frag="@ + text::dec(h.frag_length as nat)
                        + " auth="@ + text::dec(h.auth_length as nat) + " len="@ + text::dec(
                        pdu.len(),
                    ),
                ),
            )
        } else {
            Ok(
                BindAckView {
                    type2: pdu.skip(h.frag_length - h.auth_length),
                    max_xmit_frag: wire::u16_at(pdu, 16),
                    max_recv_frag: wire::u16_at(pdu, 18),
                },
            )
        },
    }
}

/// Parse a bind_ack.
pub fn parse_bind_ack(pdu: &[u8]) -> (r: Result<BindAck, GatewayError>)
    ensures
        error::outcome_view(r) == parsed_bind_ack(pdu@),
{
    let h = CommonHeader::decode(pdu)?;
    if h.ptype != PType::BindAck {
        return Err(
            GatewayError::Protocol(
                "expected bind_ack, got ".to_owned().concat(h.ptype.name().as_str()).concat(
                    " (bind rejected?)",
                ),
            ),
        );
    }
    let frag: usize = h.frag_length as usize;
    let auth: usize = h.auth_length as usize;
    if auth == 0 {
        return Err(error::protocol_error("bind_ack carried no NTLM challenge"));
    }
    if frag != pdu.len() || auth + CommonHeader::LEN + 8 > frag {
        return Err(
            GatewayError::Protocol(
                "bind_ack lengths inconsistent: frag=".to_owned().concat(
                    text::dec_string(frag as u64).as_str(),
                ).concat(" auth=").concat(text::dec_string(auth as u64).as_str()).concat(
                    " len=",
                ).concat(text::dec_string(pdu.len() as u64).as_str()),
            ),
        );
    }
    let type2 = slice_to_vec(slice_subrange(pdu, frag - auth, frag));
    assert(type2@ =~= pdu@.skip(frag - auth));
    Ok(
        BindAck {
            type2,
            max_xmit_frag: wire::read_u16_at(pdu, 16),
            max_recv_frag: wire::read_u16_at(pdu, 18),
        },
    )
}

/// An RPC association bound to the TSGU interface: the virtual connection, the
/// context that signs requests, and the counters that number them.
pub struct BoundRpc<C> {
    pub vc: VirtualConnection<C>,
    /// The RPC NTLM context, which signs the requests.
    pub ntlm: NtlmAuth,
    /// The id of the next call.
    pub call_id: u32,
    /// The largest fragment to send: no more than the server receives.
    pub max_xmit_frag: u16,
    /// The largest fragment to receive: no more than the server sends.
    pub max_recv_frag: u16,
}

/// A secure bind whose bind is on its way: the bind_ack comes next.
pub struct SecureBind {
    pub ntlm: NtlmAuth,
}

/// A secure bind whose bind_ack was answered.
pub struct AnsweredBind {
    pub ntlm: NtlmAuth,
    pub ack: BindAck,
}

/// Whether `r` is the first leg of a secure bind whose step gave `stepped` and left the
/// context as `after`.
pub open spec fn is_first_leg(
    stepped: Result<Seq<u8>, ErrorView>,
    after: auth::NtlmView,
    r: Result<(SecureBind, Vec<u8>), GatewayError>,
) -> bool {
    match stepped {
        Ok(type1) => r matches Ok((leg, pdu)) && leg.ntlm@ == after && pdu@ == bind_bytes(type1),
        Err(e) => r matches Err(err) && err@ == e,
    }
}

/// Whether `r` is what a context can make of a bind_ack.
pub open spec fn answers_ack(
    before: auth::NtlmView,
    ack: BindAckView,
    r: Result<(AnsweredBind, Vec<u8>), GatewayError>,
) -> bool {
    exists|stepped: Result<Seq<u8>, ErrorView>, after: auth::NtlmView|
        #[trigger] auth::steps(before, Some(ack.type2), after, stepped) && is_third_leg(
            ack,
            stepped,
            after,
            r,
        )
}

/// Whether `r` is the third leg of a secure bind whose step gave `stepped` and left the
/// context as `after`.
pub open spec fn is_third_leg(
    ack: BindAckView,
    stepped: Result<Seq<u8>, ErrorView>,
    after: auth::NtlmView,
    r: Result<(AnsweredBind, Vec<u8>), GatewayError>,
) -> bool {
    match auth3_outcome(stepped, after.complete) {
        Ok(auth3) => r matches Ok((leg, pdu)) && leg.ntlm@ == after && leg.ack@ == ack && pdu@
            == auth3,
        Err(e) => r matches Err(err) && err@ == e,
    }
}

/// The rpc_auth_3 of a step that answered the challenge.
pub open spec fn auth3_outcome(stepped: Result<Seq<u8>, ErrorView>, complete: bool) -> Result<
    Seq<u8>,
    ErrorView,
> {
    match stepped {
        Err(e) => Err(e),
        Ok(type3) => if complete {
            Ok(auth3_bytes(type3))
        } else {
            Err(ErrorView::Protocol("NTLM did not complete after the bind_ack challenge"@))
        },
    }
}

/// The rpc_auth_3 of the answer to the challenge, given whether that answer
/// completed the handshake.
pub fn auth3_from(stepped: Result<Vec<u8>, GatewayError>, complete: bool) -> (r: Result<
    Vec<u8>,
    GatewayError,
>)
    ensures
        error::outcome_view(r) == auth3_outcome(error::outcome_view(stepped), complete),
{
    let type3 = stepped?;
    if !complete {
        return Err(error::protocol_error("NTLM did not complete after the bind_ack challenge"));
    }
    Ok(build_auth3(type3.as_slice()))
}

impl SecureBind {
    /// The first leg: the bind with the Type-1 token, to be sent on the IN channel. The
    /// token is what the security package gives.
    pub fn start(ntlm: NtlmAuth) -> (r: Result<(Self, Vec<u8>), GatewayError>)
        ensures
            exists|stepped: Result<Seq<u8>, ErrorView>, after: auth::NtlmView|
                #[trigger] auth::steps(ntlm@, None, after, stepped) && is_first_leg(
                    stepped,
                    after,
                    r,
                ),
    {
        let mut ntlm = ntlm;
        let ghost before = ntlm@;
        let stepped = ntlm.step(None);
        let ghost outcome = error::outcome_view(stepped);
        assert(auth::steps(before, None, ntlm@, outcome));
        let type1 = stepped?;
        Ok((SecureBind { ntlm }, build_bind(type1.as_slice())))
    }

    /// The second and the third leg: the bind_ack off the OUT channel, and the
    /// rpc_auth_3 that answers its challenge, to be sent on the IN channel. The answer is
    /// what the security package gives; [`auth3_from`] says what is made of it.
    pub fn on_bind_ack(self, pdu: &[u8]) -> (r: Result<(AnsweredBind, Vec<u8>), GatewayError>)
        ensures
            match parsed_bind_ack(pdu@) {
                Err(e) => r matches Err(err) && err@ == e,
                Ok(ack) => answers_ack(self.ntlm@, ack, r),
            },
    {
        let ack = parse_bind_ack(pdu)?;
        let mut ntlm = self.ntlm;
        let ghost before = ntlm@;
        let stepped = ntlm.step(Some(ack.type2.as_slice()));
        let ghost outcome = error::outcome_view(stepped);
        let ghost after = ntlm@;
        let ghost seen = ack@;
        assert(auth::steps(before, Some(seen.type2), after, outcome));
        let r = match auth3_from(stepped, ntlm.is_complete()) {
            Ok(auth3) => Ok((AnsweredBind { ntlm, ack }, auth3)),
            Err(e) => Err(e),
        };
        assert(is_third_leg(seen, outcome, after, r));
        assert(answers_ack(before, seen, r));
        r
    }
}

/// The association that an answered bind makes of a virtual connection.
pub open spec fn bound_over<C>(answered: AnsweredBind, vc: VirtualConnection<C>) -> BoundRpc<C> {
    BoundRpc {
        vc,
        ntlm: answered.ntlm,
        call_id: (BIND_CALL_ID + 1) as u32,
        max_xmit_frag: capped(answered.ack.max_recv_frag),
        max_recv_frag: capped(answered.ack.max_xmit_frag),
    }
}

impl AnsweredBind {
    /// The bound association, once the rpc_auth_3 is sent. What the server receives
    /// limits what is sent, and what it sends limits what is received. The first request
    /// has the call id behind that of the bind.
    pub fn finish<C>(self, vc: VirtualConnection<C>) -> (rpc: BoundRpc<C>)
        ensures
            rpc == bound_over(self, vc),
    {
        BoundRpc {
            vc,
            ntlm: self.ntlm,
            call_id: BIND_CALL_ID + 1,
            max_xmit_frag: cap(self.ack.max_recv_frag),
            max_recv_frag: cap(self.ack.max_xmit_frag),
        }
    }
}

/// The smaller of what a server says and [`MAX_FRAG`].
pub open spec fn capped(frag: u16) -> u16 {
    if frag < MAX_FRAG {
        frag
    } else {
        MAX_FRAG
    }
}

fn cap(frag: u16) -> (r: u16)
    ensures
        r == capped(frag),
{
    if frag < MAX_FRAG {
        frag
    } else {
        MAX_FRAG
    }
}

/// The headers of a bind and of an rpc_auth_3 give the lengths of the PDU and of its
/// token, as long as these fit.
pub proof fn bind_pdus_are_framed(token: Seq<u8>)
    requires
        token.len() + 124 <= u16::MAX,
    ensures
        bind_bytes(token).len() == 124 + token.len(),
        pdu::decoded_header(bind_bytes(token)) is Ok,
        pdu::decoded_header(bind_bytes(token))->Ok_0.frag_length == bind_bytes(token).len(),
        pdu::decoded_header(bind_bytes(token))->Ok_0.auth_length == token.len(),
        auth3_bytes(token).len() == 28 + token.len(),
        pdu::decoded_header(auth3_bytes(token)) is Ok,
        pdu::decoded_header(auth3_bytes(token))->Ok_0.frag_length == auth3_bytes(token).len(),
        pdu::decoded_header(auth3_bytes(token))->Ok_0.auth_length == token.len(),
{
    let h = CommonHeader {
        ptype: PType::Bind,
        pfc_flags: BIND_FLAGS,
        frag_length: wire::low16(token.len() + 124),
        auth_length: wire::low16(token.len()),
        call_id: BIND_CALL_ID,
    };
    let rest = bind_body() + trailer_bytes(0) + token;
    assert(bind_bytes(token) =~= pdu::header_bytes(h) + rest);
    pdu::header_round_trips(h, rest);
    let h = CommonHeader {
        ptype: PType::Auth3,
        pfc_flags: AUTH3_FLAGS,
        frag_length: wire::low16(token.len() + 28),
        auth_length: wire::low16(token.len()),
        call_id: BIND_CALL_ID,
    };
    let rest = wire::le16(MAX_FRAG) + wire::le16(MAX_FRAG) + trailer_bytes(0) + token;
    assert(auth3_bytes(token) =~= pdu::header_bytes(h) + rest);
    pdu::header_round_trips(h, rest);
}

/// A bind_ack on the wire: fragment sizes, whatever else the server says, and the
/// Type-2 token behind its trailer.
pub open spec fn bind_ack_bytes(
    flags: u8,
    ack: BindAckView,
    between: Seq<u8>,
    auth_pad: u8,
) -> Seq<u8> {
    pdu::header_bytes(
        CommonHeader {
            ptype: PType::BindAck,
            pfc_flags: flags,
            frag_length: wire::low16(28 + between.len() + ack.type2.len()),
            auth_length: wire::low16(ack.type2.len()),
            call_id: BIND_CALL_ID,
        },
    ) + wire::le16(ack.max_xmit_frag) + wire::le16(ack.max_recv_frag) + between + trailer_bytes(
        auth_pad,
    ) + ack.type2
}

/// A bind_ack reads back as the token and the fragment sizes that it carries, if it
/// carries a token and fits into a fragment.
pub proof fn bind_ack_reads_back(flags: u8, ack: BindAckView, between: Seq<u8>, auth_pad: u8)
    requires
        ack.type2.len() > 0,
        28 + between.len() + ack.type2.len() <= u16::MAX,
    ensures
        parsed_bind_ack(bind_ack_bytes(flags, ack, between, auth_pad)) == Ok::<
            BindAckView,
            ErrorView,
        >(ack),
{
    let h = CommonHeader {
        ptype: PType::BindAck,
        pfc_flags: flags,
        frag_length: wire::low16(28 + between.len() + ack.type2.len()),
        auth_length: wire::low16(ack.type2.len()),
        call_id: BIND_CALL_ID,
    };
    let bytes = bind_ack_bytes(flags, ack, between, auth_pad);
    let head = pdu::header_bytes(h);
    let a = head + wire::le16(ack.max_xmit_frag);
    let b = a + wire::le16(ack.max_recv_frag);
    let c = b + between;
    let d = c + trailer_bytes(auth_pad);
    assert(bytes == d + ack.type2);
    assert(head.len() == 16 && b.len() == 20 && d.len() == 28 + between.len());
    lemma_front(b, between, trailer_bytes(auth_pad), ack.type2, 0, 16);
    lemma_front(b, between, trailer_bytes(auth_pad), ack.type2, 16, 18);
    lemma_front(b, between, trailer_bytes(auth_pad), ack.type2, 18, 20);
    assert(b.subrange(0, 16) =~= head);
    assert(b.subrange(16, 18) =~= wire::le16(ack.max_xmit_frag));
    assert(b.subrange(18, 20) =~= wire::le16(ack.max_recv_frag));
    pdu::header_in_front(h, bytes);
    wire::le16_round_trips(ack.max_xmit_frag, bytes, 16);
    wire::le16_round_trips(ack.max_recv_frag, bytes, 18);
    assert(bytes.skip(d.len() as int) =~= ack.type2);
}

proof fn lemma_front(a: Seq<u8>, b: Seq<u8>, c: Seq<u8>, d: Seq<u8>, from: int, to: int)
    requires
        0 <= from <= to <= a.len(),
    ensures
        (a + b + c + d).subrange(from, to) == a.subrange(from, to),
{
    wire::appending_keeps_front(a, b, from, to);
    wire::appending_keeps_front(a + b, c, from, to);
    wire::appending_keeps_front(a + b + c, d, from, to);
}

/// The sizes of a bound association exceed neither what the server said nor
/// [`MAX_FRAG`].
pub proof fn fragment_sizes_are_bounded(ack: BindAckView)
    ensures
        capped(ack.max_recv_frag) <= ack.max_recv_frag,
        capped(ack.max_xmit_frag) <= ack.max_xmit_frag,
        capped(ack.max_recv_frag) <= MAX_FRAG,
        capped(ack.max_xmit_frag) <= MAX_FRAG,
{
}

/// A fresh context gives the bind, and it is the Type-1 message that the bind carries.
pub proof fn fresh_context_binds(
    before: auth::NtlmView,
    after: auth::NtlmView,
    stepped: Result<Seq<u8>, ErrorView>,
    r: Result<(SecureBind, Vec<u8>), GatewayError>,
)
    requires
        before.stage() == auth::NtlmStage::Initial,
        auth::steps(before, None, after, stepped),
        is_first_leg(stepped, after, r),
    ensures
        r matches Ok((leg, _)) && leg.ntlm@.stage() == auth::NtlmStage::Challenge,
        stepped matches Ok(type1) && auth::is_ntlm_message(type1, 1),
{
    auth::first_step_gives_type1(before, None, after, stepped);
}

/// An rpc_auth_3 is sent only where the context completed its handshake with the answer
/// to the challenge: it carries a Type-3 message, and from then on every request can be
/// signed.
pub proof fn bound_association_signs(
    before: auth::NtlmView,
    ack: BindAckView,
    after: auth::NtlmView,
    stepped: Result<Seq<u8>, ErrorView>,
    r: Result<(AnsweredBind, Vec<u8>), GatewayError>,
)
    requires
        before.stage() == auth::NtlmStage::Challenge,
        auth::steps(before, Some(ack.type2), after, stepped),
        is_third_leg(ack, stepped, after, r),
        r is Ok,
    ensures
        stepped matches Ok(type3) && auth::is_ntlm_message(type3, 3),
        r->Ok_0.0.ntlm@.stage() == auth::NtlmStage::Final,
        r->Ok_0.0.ntlm@.complete,
{
    auth::handshake_completes_with_type3(before, Some(ack.type2), after, stepped);
}

/// The identifiers are those of the TSGU interface, of NDR and of bind-time feature
/// negotiation; on the wire the first three groups of a UUID have their low byte first.
pub proof fn syntaxes_have_their_identifiers()
    ensures
        wire::u32_at(TSGU_UUID@, 0) == 0x44E265DD,
        wire::u16_at(TSGU_UUID@, 4) == 0x7DAF,
        wire::u16_at(TSGU_UUID@, 6) == 0x42CD,
        TSGU_UUID@.skip(8) == seq![0x85u8, 0x60, 0x3C, 0xDB, 0x6E, 0x7A, 0x27, 0x29],
        wire::u32_at(NDR_UUID@, 0) == 0x8A885D04,
        wire::u16_at(NDR_UUID@, 4) == 0x1CEB,
        wire::u16_at(NDR_UUID@, 6) == 0x11C9,
        NDR_UUID@.skip(8) == seq![0x9Fu8, 0xE8, 0x08, 0x00, 0x2B, 0x10, 0x48, 0x60],
        wire::u32_at(BTFN_UUID@, 0) == 0x6CB71C2C,
        wire::u16_at(BTFN_UUID@, 4) == 0x9812,
        wire::u16_at(BTFN_UUID@, 6) == 0x4540,
        BTFN_UUID@.skip(8) == seq![0x03u8, 0, 0, 0, 0, 0, 0, 0],
{
    assert(TSGU_UUID@.skip(8) =~= seq![0x85u8, 0x60, 0x3C, 0xDB, 0x6E, 0x7A, 0x27, 0x29]);
    assert(NDR_UUID@.skip(8) =~= seq![0x9Fu8, 0xE8, 0x08, 0x00, 0x2B, 0x10, 0x48, 0x60]);
    assert(BTFN_UUID@.skip(8) =~= seq![0x03u8, 0, 0, 0, 0, 0, 0, 0]);
}

/// Whether `c` is a presentation context with that id: version 1.3 of the TSGU interface
/// over the one transfer syntax.
pub open spec fn is_context(c: Seq<u8>, id: u16, syntax: Seq<u8>, version: u32) -> bool {
    &&& c.len() == 44
    &&& wire::u16_at(c, 0) == id
    &&& c[2] == 1
    &&& c[3] == 0
    &&& c.subrange(4, 20) == TSGU_UUID@
    &&& wire::u32_at(c, 20) == 0x0003_0001
    &&& c.subrange(24, 40) == syntax
    &&& wire::u32_at(c, 40) == version
}

proof fn lemma_context(id: u16, uuid: [u8; 16], version: u32)
    ensures
        is_context(context_bytes(id, uuid, version), id, uuid@, version),
{
    let c = context_bytes(id, uuid, version);
    assert(c.subrange(0, 2) =~= wire::le16(id));
    wire::le16_round_trips(id, c, 0);
    assert(c.subrange(4, 20) =~= TSGU_UUID@);
    assert(c.subrange(20, 24) =~= wire::le32(TSGU_IF_VERSION));
    wire::le32_round_trips(TSGU_IF_VERSION, c, 20);
    assert(c.subrange(24, 40) =~= uuid@);
    assert(c.subrange(40, 44) =~= wire::le32(version));
    wire::le32_round_trips(version, c, 40);
}

proof fn lemma_bind_body()
    ensures
        ({
            let b = bind_body();
            &&& b.len() == 100
            &&& wire::u16_at(b, 0) == 0x0FF8
            &&& wire::u16_at(b, 2) == 0x0FF8
            &&& wire::u32_at(b, 4) == 0
            &&& b[8] == 2 && b[9] == 0
            &&& wire::u16_at(b, 10) == 0
            &&& b.subrange(12, 56) == context_bytes(0, NDR_UUID, NDR_VERSION)
            &&& b.subrange(56, 100) == context_bytes(1, BTFN_UUID, BTFN_VERSION)
        }),
{
    let front = wire::le16(MAX_FRAG) + wire::le16(MAX_FRAG) + wire::le32(0) + seq![2u8, 0u8]
        + wire::le16(0);
    let first = context_bytes(0, NDR_UUID, NDR_VERSION);
    let second = context_bytes(1, BTFN_UUID, BTFN_VERSION);
    lemma_context(0, NDR_UUID, NDR_VERSION);
    lemma_context(1, BTFN_UUID, BTFN_VERSION);
    lemma_bind_front();
    lemma_body_parts(front, first, second);
    assert(front + first + second == bind_body());
}

proof fn lemma_bind_front()
    ensures
        ({
            let front = wire::le16(MAX_FRAG) + wire::le16(MAX_FRAG) + wire::le32(0) + seq![
                2u8,
                0u8,
            ] + wire::le16(0);
            &&& front.len() == 12
            &&& wire::u16_at(front, 0) == 0x0FF8
            &&& wire::u16_at(front, 2) == 0x0FF8
            &&& wire::u32_at(front, 4) == 0
            &&& front[8] == 2 && front[9] == 0
            &&& wire::u16_at(front, 10) == 0
        }),
{
    let front = wire::le16(MAX_FRAG) + wire::le16(MAX_FRAG) + wire::le32(0) + seq![2u8, 0u8]
        + wire::le16(0);
    assert(front.subrange(0, 2) =~= wire::le16(MAX_FRAG));
    assert(front.subrange(2, 4) =~= wire::le16(MAX_FRAG));
    assert(front.subrange(4, 8) =~= wire::le32(0));
    assert(front.subrange(10, 12) =~= wire::le16(0));
    wire::le16_round_trips(MAX_FRAG, front, 0);
    wire::le16_round_trips(MAX_FRAG, front, 2);
    wire::le32_round_trips(0, front, 4);
    wire::le16_round_trips(0, front, 10);
}

proof fn lemma_body_parts(front: Seq<u8>, first: Seq<u8>, second: Seq<u8>)
    requires
        front.len() == 12,
        first.len() == 44,
        second.len() == 44,
    ensures
        ({
            let b = front + first + second;
            &&& b.len() == 100
            &&& wire::u16_at(b, 0) == wire::u16_at(front, 0)
            &&& wire::u16_at(b, 2) == wire::u16_at(front, 2)
            &&& wire::u32_at(b, 4) == wire::u32_at(front, 4)
            &&& b[8] == front[8] && b[9] == front[9]
            &&& wire::u16_at(b, 10) == wire::u16_at(front, 10)
            &&& b.subrange(12, 56) == first
            &&& b.subrange(56, 100) == second
        }),
{
    let b = front + first + second;
    wire::appending_keeps_numbers(front, first);
    wire::appending_keeps_numbers(front + first, second);
    assert(b.subrange(12, 56) =~= first);
    assert(b.subrange(56, 100) =~= second);
}

/// A bind reads back as what it offers: fragments of 0x0FF8 bytes, no association group,
/// and two contexts, TSGU over NDR 2 and TSGU with feature negotiation 1; then a trailer
/// (NTLM, signed, no padding) and the Type-1 token.
#[verifier::rlimit(40)]
pub proof fn bind_reads_back(type1: Seq<u8>)
    ensures
        ({
            let b = bind_bytes(type1);
            &&& b.len() == 124 + type1.len()
            &&& pdu::decoded_header(b) == Ok::<CommonHeader, ErrorView>(
                CommonHeader {
                    ptype: PType::Bind,
                    pfc_flags: 0x17,
                    frag_length: wire::low16(124 + type1.len()),
                    auth_length: wire::low16(type1.len()),
                    call_id: 2,
                },
            )
            &&& wire::u16_at(b, 16) == 0x0FF8
            &&& wire::u16_at(b, 18) == 0x0FF8
            &&& wire::u32_at(b, 20) == 0
            &&& b[24] == 2 && b[25] == 0
            &&& wire::u16_at(b, 26) == 0
            &&& is_context(b.subrange(28, 72), 0, NDR_UUID@, 2)
            &&& is_context(b.subrange(72, 116), 1, BTFN_UUID@, 1)
            &&& b.subrange(116, 124) == seq![10u8, 5, 0, 0, 0, 0, 0, 0]
            &&& b.skip(124) == type1
        }),
{
    let h = CommonHeader {
        ptype: PType::Bind,
        pfc_flags: BIND_FLAGS,
        frag_length: wire::low16(type1.len() + 124),
        auth_length: wire::low16(type1.len()),
        call_id: BIND_CALL_ID,
    };
    let head = pdu::header_bytes(h);
    let body = bind_body();
    let tail = trailer_bytes(0);
    let b = head + body + tail + type1;
    assert(b == bind_bytes(type1));
    assert(head.len() == 16);
    lemma_bind_body();
    lemma_context(0, NDR_UUID, NDR_VERSION);
    lemma_context(1, BTFN_UUID, BTFN_VERSION);
    lemma_bind_parts(head, body, tail, type1);
    pdu::header_in_front(h, b);
    assert(wire::u16_at(body, 0) == wire::u16_at(b, 16));
    assert(wire::u16_at(body, 2) == wire::u16_at(b, 18));
    assert(wire::u32_at(body, 4) == wire::u32_at(b, 20));
    assert(wire::u16_at(body, 10) == wire::u16_at(b, 26));
    assert(tail =~= seq![10u8, 5, 0, 0, 0, 0, 0, 0]);
}

proof fn lemma_bind_parts(head: Seq<u8>, body: Seq<u8>, tail: Seq<u8>, token: Seq<u8>)
    requires
        head.len() == 16,
        body.len() == 100,
        tail.len() == 8,
    ensures
        ({
            let b = head + body + tail + token;
            &&& b.len() == 124 + token.len()
            &&& b.subrange(0, 16) == head
            &&& b[24] == body[8] && b[25] == body[9]
            &&& b.subrange(28, 72) == body.subrange(12, 56)
            &&& b.subrange(72, 116) == body.subrange(56, 100)
            &&& b.subrange(116, 124) == tail
            &&& b.skip(124) == token
            &&& forall|at: int|
                0 <= at && at + 2 <= 100 ==> #[trigger] wire::u16_at(body, at) == wire::u16_at(
                    b,
                    16 + at,
                )
            &&& forall|at: int|
                0 <= at && at + 4 <= 100 ==> #[trigger] wire::u32_at(body, at) == wire::u32_at(
                    b,
                    16 + at,
                )
        }),
{
    let b = head + body + tail + token;
    assert(b.subrange(16, 116) =~= body);
    wire::parts_keep_numbers(b, 16, 116);
    assert(b.subrange(0, 16) =~= head);
    assert(b.subrange(28, 72) =~= body.subrange(12, 56));
    assert(b.subrange(72, 116) =~= body.subrange(56, 100));
    assert(b.subrange(116, 124) =~= tail);
    assert(b.skip(124) =~= token);
}

/// An rpc_auth_3 reads back as fragments of 0x0FF8 bytes, a trailer (NTLM, signed, no
/// padding), and the Type-3 token, under the call of the bind.
#[verifier::rlimit(40)]
pub proof fn auth3_reads_back(type3: Seq<u8>)
    ensures
        ({
            let b = auth3_bytes(type3);
            &&& b.len() == 28 + type3.len()
            &&& pdu::decoded_header(b) == Ok::<CommonHeader, ErrorView>(
                CommonHeader {
                    ptype: PType::Auth3,
                    pfc_flags: 0x13,
                    frag_length: wire::low16(28 + type3.len()),
                    auth_length: wire::low16(type3.len()),
                    call_id: 2,
                },
            )
            &&& wire::u16_at(b, 16) == 0x0FF8
            &&& wire::u16_at(b, 18) == 0x0FF8
            &&& b.subrange(20, 28) == seq![10u8, 5, 0, 0, 0, 0, 0, 0]
            &&& b.skip(28) == type3
        }),
{
    let h = CommonHeader {
        ptype: PType::Auth3,
        pfc_flags: AUTH3_FLAGS,
        frag_length: wire::low16(type3.len() + 28),
        auth_length: wire::low16(type3.len()),
        call_id: BIND_CALL_ID,
    };
    let head = pdu::header_bytes(h);
    let sizes = wire::le16(MAX_FRAG) + wire::le16(MAX_FRAG);
    let tail = trailer_bytes(0);
    let b = auth3_bytes(type3);
    assert(b =~= head + (sizes + tail + type3));
    pdu::header_round_trips(h, sizes + tail + type3);
    assert(b.subrange(16, 18) =~= wire::le16(MAX_FRAG));
    wire::le16_round_trips(MAX_FRAG, b, 16);
    assert(b.subrange(18, 20) =~= wire::le16(MAX_FRAG));
    wire::le16_round_trips(MAX_FRAG, b, 18);
    assert(b.subrange(20, 28) =~= tail);
    assert(tail =~= seq![10u8, 5, 0, 0, 0, 0, 0, 0]);
    assert(b.skip(28) =~= type3);
}

/// A bind_ack is taken exactly where it is one (type 12), carries a token, and has the
/// lengths it says; its token is at its end, its sizes at 16 and 18.
pub proof fn bind_ack_is_read_at_its_places(b: Seq<u8>)
    ensures
        parsed_bind_ack(b) is Ok <==> b.len() >= 16 && b[0] == 5 && b[2] == 12 && b[10] + 256
            * b[11] > 0 && b[8] + 256 * b[9] == b.len() && b[10] + 256 * b[11] + 24 <= b.len(),
        parsed_bind_ack(b) matches Ok(ack) ==> ack.type2 == b.skip(b.len() - (b[10] + 256 * b[11]))
            && ack.max_xmit_frag == b[16] + 256 * b[17] && ack.max_recv_frag == b[18] + 256 * b[19],
{
    pdu::header_is_read_at_its_places(b);
}

/// The first leg sends the token that the context gave, and so does the third, once the
/// handshake is complete; where it is not, nothing is sent.
pub proof fn legs_carry_their_tokens(
    token: Seq<u8>,
    ack: BindAckView,
    after: auth::NtlmView,
    first: Result<(SecureBind, Vec<u8>), GatewayError>,
    third: Result<(AnsweredBind, Vec<u8>), GatewayError>,
)
    requires
        is_first_leg(Ok(token), after, first),
        is_third_leg(ack, Ok(token), after, third),
    ensures
        first matches Ok((leg, pdu)) && leg.ntlm@ == after && pdu@[2] == 11 && pdu@.skip(124)
            == token,
        third is Ok <==> after.complete,
        third matches Ok((leg, pdu)) ==> leg.ntlm@ == after && leg.ack@ == ack && pdu@[2] == 16
            && pdu@.skip(28) == token,
{
    bind_reads_back(token);
    auth3_reads_back(token);
    pdu::header_is_read_at_its_places(bind_bytes(token));
    pdu::header_is_read_at_its_places(auth3_bytes(token));
}

/// What is sent is limited by what the server receives, what is received by what it sends,
/// and both by 0x0FF8; the first call has number 3.
pub proof fn association_is_as_negotiated<C>(answered: AnsweredBind, vc: VirtualConnection<C>)
    ensures
        ({
            let rpc = bound_over(answered, vc);
            &&& rpc.vc == vc
            &&& rpc.ntlm == answered.ntlm
            &&& rpc.call_id == 3
            &&& rpc.max_xmit_frag <= 0x0FF8 && rpc.max_xmit_frag <= answered.ack.max_recv_frag
            &&& rpc.max_recv_frag <= 0x0FF8 && rpc.max_recv_frag <= answered.ack.max_xmit_frag
            &&& rpc.max_xmit_frag == 0x0FF8 || rpc.max_xmit_frag == answered.ack.max_recv_frag
            &&& rpc.max_recv_frag == 0x0FF8 || rpc.max_recv_frag == answered.ack.max_xmit_frag
        }),
{
}

/// What is no bind_ack is reported by its type, and one whose lengths do not agree by all
/// of them.
pub proof fn bind_ack_errors_name_their_cause(b: Seq<u8>, h: CommonHeader)
    requires
        pdu::decoded_header(b) == Ok::<CommonHeader, ErrorView>(h),
    ensures
        b[2] != 12 ==> parsed_bind_ack(b) == Err::<BindAckView, ErrorView>(
            ErrorView::Protocol(
                "expected bind_ack, got "@ + h.ptype.title() + " (bind rejected?)"@,
            ),
        ),
        b[2] == 12 && h.auth_length == 0 ==> parsed_bind_ack(b) == Err::<BindAckView, ErrorView>(
            ErrorView::Protocol("bind_ack carried no NTLM challenge"@),
        ),
        b[2] == 12 && h.auth_length > 0 && parsed_bind_ack(b) is Err ==> parsed_bind_ack(b)
            == Err::<BindAckView, ErrorView>(
            ErrorView::Protocol(
                "bind_ack lengths inconsistent: frag="@ + text::dec(wire::u16_at(b, 8) as nat)
                    + " auth="@ + text::dec(wire::u16_at(b, 10) as nat) + " len="@ + text::dec(
                    b.len(),
                ),
            ),
        ),
{
    pdu::header_is_read_at_its_places(b);
}

} // verus!

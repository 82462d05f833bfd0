//! Signed DCE/RPC requests over the bound association, and their responses.
//!
//! A request carries its stub in the clear with an NTLM signature behind it. Its
//! response comes back the same way, in one fragment or several; the stub is read
//! directly, and the signature of a response is not checked.
use vstd::prelude::*;
use vstd::slice::slice_subrange;
use vstd::string::*;

use crate::auth;
use crate::auth::{NtlmAuth, RPC_SIGNATURE_SIZE};
use crate::bind;
use crate::bind::BoundRpc;
use crate::error;
use crate::error::{ErrorView, GatewayError};
use crate::pdu;
use crate::pdu::{pfc, CommonHeader, PType};
use crate::rts;
use crate::text;
use crate::wire;

verus! {

/// Where the stub begins in a request and in a response.
pub const STUB_OFFSET: usize = 24;

/// The bytes that bring a stub of `n` bytes to a multiple of four.
pub open spec fn padding(n: nat) -> nat {
    ((4 - n % 4) % 4) as nat
}

/// `n` zero bytes.
pub open spec fn zero_bytes(n: nat) -> Seq<u8> {
    Seq::new(n, |i: int| 0u8)
}

/// The common header of a request with a stub of `n` bytes.
pub open spec fn request_header(call_id: u32, n: nat) -> CommonHeader {
    CommonHeader {
        ptype: PType::Request,
        pfc_flags: pfc::WHOLE,
        frag_length: wire::low16(n + 48 + padding(n)),
        auth_length: RPC_SIGNATURE_SIZE as u16,
        call_id,
    }
}

/// A request up to its signature: common header, allocation hint, context 0,
/// operation, stub, padding, and the header of the trailer. All of it is signed.
pub open spec fn unsigned_request(call_id: u32, opnum: u16, stub: Seq<u8>) -> Seq<u8> {
    pdu::header_bytes(request_header(call_id, stub.len())) + wire::le32(wire::low32(stub.len()))
        + wire::le16(0) + wire::le16(opnum) + stub + zero_bytes(padding(stub.len()))
        + bind::trailer_bytes(padding(stub.len()) as u8)
}

/// A request with its signature, or the error of one that could not be signed.
pub open spec fn signed_with(unsigned: Seq<u8>, signed: Result<Seq<u8>, ErrorView>) -> Result<
    Seq<u8>,
    ErrorView,
> {
    match signed {
        Ok(signature) => Ok(unsigned + signature),
        Err(e) => Err(e),
    }
}

/// A request, given the outcome of signing it.
pub open spec fn request_outcome(unsigned: Seq<u8>, signed: Result<Seq<u8>, Seq<char>>) -> Result<
    Seq<u8>,
    ErrorView,
> {
    signed_with(unsigned, auth::sign_outcome(signed))
}

/// The request that a signature completes.
pub fn complete_request(unsigned: Vec<u8>, signed: Result<Vec<u8>, GatewayError>) -> (r: Result<
    Vec<u8>,
    GatewayError,
>)
    ensures
        error::outcome_view(r) == signed_with(unsigned@, error::outcome_view(signed)),
{
    let signature = signed?;
    let mut pdu = unsigned;
    wire::push_bytes(&mut pdu, signature.as_slice());
    Ok(pdu)
}

/// Everything of a request that is signed.
pub fn build_request(call_id: u32, opnum: u16, stub: &[u8]) -> (pdu: Vec<u8>)
    ensures
        pdu@ == unsigned_request(call_id, opnum, stub@),
{
    let auth_pad: u16 = ((4 - stub.len() % 4) % 4) as u16;
    let frag_length: u16 = wire::truncate16_plus(stub.len(), 48 + auth_pad);
    let mut pdu: Vec<u8> = Vec::with_capacity(frag_length as usize);
    CommonHeader::new(
        PType::Request,
        pfc::WHOLE,
        frag_length,
        RPC_SIGNATURE_SIZE as u16,
        call_id,
    ).encode(&mut pdu);
    wire::push_u32_le(&mut pdu, wire::truncate32(stub.len()));
    wire::push_u16_le(&mut pdu, 0);
    wire::push_u16_le(&mut pdu, opnum);
    wire::push_bytes(&mut pdu, stub);
    let ghost front = pdu@;
    let mut i: u16 = 0;
    while i < auth_pad
        invariant
            i <= auth_pad,
            pdu@ == front + zero_bytes(i as nat),
        decreases auth_pad - i,
    {
        pdu.push(0);
        i = i + 1;
        assert(pdu@ =~= front + zero_bytes(i as nat));
    }
    wire::push_bytes(&mut pdu, bind::sec_trailer_header(auth_pad as u8).as_slice());
    assert(pdu@ =~= unsigned_request(call_id, opnum, stub@));
    pdu
}

/// Build a signed request. The signature covers everything in front of it.
pub fn build_and_sign_request(
    ntlm: &mut NtlmAuth,
    call_id: u32,
    opnum: u16,
    stub: &[u8],
) -> (r: Result<Vec<u8>, GatewayError>)
    requires
        old(ntlm)@.stage() != auth::NtlmStage::Server,
    ensures
        ({
            let unsigned = unsigned_request(call_id, opnum, stub@);
            let (signed, after) = auth::signature_of(
                old(ntlm)@.ntlm,
                unsigned,
                RPC_SIGNATURE_SIZE as nat,
            );
            &&& error::outcome_view(r) == request_outcome(unsigned, signed)
            &&& final(ntlm)@ == (auth::NtlmView { ntlm: after, ..old(ntlm)@ })
            &&& r matches Ok(pdu) ==> pdu@.len() == unsigned.len() + RPC_SIGNATURE_SIZE
        }),
        auth::signs(old(ntlm)@.stage(), r is Ok, final(ntlm)@.stage()),
{
    let unsigned = build_request(call_id, opnum, stub);
    let signed = ntlm.sign(unsigned.as_slice());
    complete_request(unsigned, signed)
}

impl<C> BoundRpc<C> {
    /// The signed request for an operation, to be sent on the IN channel, and its call
    /// id. A call id is used up even where signing fails.
    pub fn send_request(&mut self, opnum: u16, stub: &[u8]) -> (r: Result<
        (u32, Vec<u8>),
        GatewayError,
    >)
        requires
            old(self).ntlm@.stage() != auth::NtlmStage::Server,
        ensures
            ({
                let unsigned = unsigned_request(old(self).call_id, opnum, stub@);
                let (signed, after) = auth::signature_of(
                    old(self).ntlm@.ntlm,
                    unsigned,
                    RPC_SIGNATURE_SIZE as nat,
                );
                &&& match request_outcome(unsigned, signed) {
                    Ok(bytes) => r matches Ok((id, pdu)) && id == old(self).call_id && pdu@
                        == bytes,
                    Err(e) => r matches Err(err) && err@ == e,
                }
                &&& final(self).ntlm@ == (auth::NtlmView { ntlm: after, ..old(self).ntlm@ })
            }),
            auth::signs(old(self).ntlm@.stage(), r is Ok, final(self).ntlm@.stage()),
            final(self).call_id == next_call(old(self).call_id),
            final(self).vc == old(self).vc,
            final(self).max_xmit_frag == old(self).max_xmit_frag,
            final(self).max_recv_frag == old(self).max_recv_frag,
    {
        let call_id: u32 = self.call_id;
        self.call_id = self.call_id.wrapping_add(1);
        let pdu = build_and_sign_request(&mut self.ntlm, call_id, opnum, stub)?;
        Ok((call_id, pdu))
    }
}

/// Whether a call of `opnum` with that stub took `before` to `after` and gave `r`: the
/// request to send, and the reader of its response.
pub open spec fn calls<C>(
    before: BoundRpc<C>,
    opnum: u16,
    stub: Seq<u8>,
    after: BoundRpc<C>,
    r: Result<(ResponseReader, Vec<u8>), GatewayError>,
) -> bool {
    let unsigned = unsigned_request(before.call_id, opnum, stub);
    let (signed, ntlm) = auth::signature_of(before.ntlm@.ntlm, unsigned, RPC_SIGNATURE_SIZE as nat);
    &&& match request_outcome(unsigned, signed) {
        Ok(bytes) => r matches Ok((reader, pdu)) && reader.call_id == before.call_id
            && reader.stub@.len() == 0 && pdu@ == bytes,
        Err(e) => r matches Err(err) && err@ == e,
    }
    &&& after.ntlm@ == (auth::NtlmView { ntlm, ..before.ntlm@ })
    &&& auth::signs(before.ntlm@.stage(), r is Ok, after.ntlm@.stage())
    &&& after.call_id == next_call(before.call_id)
    &&& after.vc == before.vc
    &&& after.max_xmit_frag == before.max_xmit_frag
    &&& after.max_recv_frag == before.max_recv_frag
}

impl<C> BoundRpc<C> {
    /// Begin a call: the signed request, to be sent on the IN channel, and the reader that
    /// puts its response together from the PDUs off the OUT channel.
    pub fn call(&mut self, opnum: u16, stub: &[u8]) -> (r: Result<
        (ResponseReader, Vec<u8>),
        GatewayError,
    >)
        requires
            old(self).ntlm@.stage() != auth::NtlmStage::Server,
        ensures
            calls(*old(self), opnum, stub@, *final(self), r),
    {
        let (call_id, pdu) = self.send_request(opnum, stub)?;
        Ok((ResponseReader::new(call_id), pdu))
    }
}

/// The call id behind `id`.
pub open spec fn next_call(id: u32) -> u32 {
    if id == u32::MAX {
        0
    } else {
        (id + 1) as u32
    }
}

/// The call id `n` calls behind `id`.
pub open spec fn nth_call(id: u32, n: nat) -> u32
    decreases n,
{
    if n == 0 {
        id
    } else {
        next_call(nth_call(id, (n - 1) as nat))
    }
}

/// No call id comes again before all of them were used: two of fewer than 2^32 calls
/// never share one.
pub proof fn call_ids_do_not_repeat(id: u32, m: nat, n: nat)
    requires
        m < n < 0x1_0000_0000,
    ensures
        nth_call(id, m) != nth_call(id, n),
{
    lemma_nth_call(id, m);
    lemma_nth_call(id, n);
}

proof fn lemma_nth_call(id: u32, n: nat)
    ensures
        nth_call(id, n) == wire::low32((id + n) as nat),
    decreases n,
{
    if n > 0 {
        lemma_nth_call(id, (n - 1) as nat);
    }
}

/// Where a fault holds its status.
pub const FAULT_STATUS_OFFSET: usize = 24;

/// What a fault says of its call: the status, unless the PDU ends before it.
pub open spec fn fault_text(call_id: u32, pdu: Seq<u8>) -> Seq<char> {
    "RPC fault on call_id "@ + text::dec(call_id as nat) + if pdu.len() >= FAULT_STATUS_OFFSET
        + 4 {
        ": status "@ + text::padded_hex(
            wire::u32_at(pdu, FAULT_STATUS_OFFSET as int) as nat,
            8,
        )
    } else {
        ": status cut off"@
    }
}

/// Whether a PDU with that header can be part of a response: a fault is reported with its
/// call and its status, and nothing else will do.
pub open spec fn checked_response(h: CommonHeader, pdu: Seq<u8>) -> Result<(), ErrorView> {
    match h.ptype {
        PType::Response => Ok(()),
        PType::Fault => Err(ErrorView::Protocol(fault_text(h.call_id, pdu))),
        other => Err(ErrorView::Protocol("expected RPC response, got "@ + other.title())),
    }
}

/// Reject a fault (with its status) and any PDU that is not a response. `h` is the
/// header of `pdu`.
pub fn check_response(h: &CommonHeader, pdu: &[u8]) -> (r: Result<(), GatewayError>)
    ensures
        error::outcome(r) == checked_response(*h, pdu@),
{
    match h.ptype {
        PType::Response => Ok(()),
        PType::Fault => {
            let call = "RPC fault on call_id ".to_owned().concat(
                text::dec_string(h.call_id as u64).as_str(),
            );
            let status = if pdu.len() >= FAULT_STATUS_OFFSET + 4 {
                ": status ".to_owned().concat(
                    text::padded_hex_string(
                        wire::read_u32_at(pdu, FAULT_STATUS_OFFSET) as u64,
                        8,
                    ).as_str(),
                )
            } else {
                ": status cut off".to_owned()
            };
            Err(GatewayError::Protocol(call.concat(status.as_str())))
        },
        other => Err(
            GatewayError::Protocol(
                "expected RPC response, got ".to_owned().concat(other.name().as_str()),
            ),
        ),
    }
}

/// Where the stub of a response ends: at its trailer, less the padding, or at the end
/// of the fragment if there is no trailer.
pub open spec fn stub_end(pdu: Seq<u8>, h: CommonHeader) -> Result<int, ErrorView> {
    let trailer = h.frag_length - h.auth_length - 8;
    if h.auth_length == 0 {
        Ok(h.frag_length as int)
    } else if trailer < 0 {
        Err(ErrorView::Protocol("response auth_length overflows frag"@))
    } else if trailer + 2 >= pdu.len() {
        Err(ErrorView::Protocol("response sec_trailer truncated"@))
    } else if trailer < pdu[trailer + 2] {
        Err(ErrorView::Protocol("response auth_pad overflows stub"@))
    } else {
        Ok(trailer - pdu[trailer + 2])
    }
}

/// The stub of a response.
pub open spec fn stub_of(pdu: Seq<u8>, h: CommonHeader) -> Result<Seq<u8>, ErrorView> {
    match stub_end(pdu, h) {
        Err(e) => Err(e),
        Ok(end) => if end < STUB_OFFSET || end > pdu.len() {
            Err(
                ErrorView::Protocol(
                    "response stub bounds invalid: end="@ + text::dec(end as nat) + " len="@
                        + text::dec(pdu.len()),
                ),
            )
        } else {
            Ok(pdu.subrange(STUB_OFFSET as int, end))
        },
    }
}

/// The stub of a response.
pub fn response_stub<'a>(pdu: &'a [u8], h: &CommonHeader) -> (r: Result<&'a [u8], GatewayError>)
    ensures
        error::outcome_view(r) == stub_of(pdu@, *h),
{
    let frag: usize = h.frag_length as usize;
    let auth: usize = h.auth_length as usize;
    let end: usize = if auth > 0 {
        if frag < auth + 8 {
            return Err(error::protocol_error("response auth_length overflows frag"));
        }
        let trailer: usize = frag - (auth + 8);
        if trailer + 2 >= pdu.len() {
            return Err(error::protocol_error("response sec_trailer truncated"));
        }
        let auth_pad: usize = pdu[trailer + 2] as usize;
        if trailer < auth_pad {
            return Err(error::protocol_error("response auth_pad overflows stub"));
        }
        trailer - auth_pad
    } else {
        frag
    };
    if end < STUB_OFFSET || end > pdu.len() {
        return Err(
            GatewayError::Protocol(
                "response stub bounds invalid: end=".to_owned().concat(
                    text::dec_string(end as u64).as_str(),
                ).concat(" len=").concat(text::dec_string(pdu.len() as u64).as_str()),
            ),
        );
    }
    Ok(slice_subrange(pdu, STUB_OFFSET, end))
}

/// Whether the flags of a PDU mark the last fragment.
pub open spec fn is_last(pfc_flags: u8) -> bool {
    pfc_flags / pfc::LAST_FRAG % 2 == 1
}

/// The part of the response to `call_id` that a PDU holds, and whether it is the last
/// part.
pub open spec fn fragment(call_id: u32, pdu: Seq<u8>) -> Result<(Seq<u8>, bool), ErrorView> {
    match pdu::decoded_header(pdu) {
        Err(e) => Err(e),
        Ok(h) => match checked_response(h, pdu) {
            Err(e) => Err(e),
            Ok(_) => if h.call_id != call_id {
                Err(
                    ErrorView::Protocol(
                        "response call_id "@ + text::dec(h.call_id as nat) + " != request "@
                            + text::dec(call_id as nat),
                    ),
                )
            } else {
                match stub_of(pdu, h) {
                    Err(e) => Err(e),
                    Ok(part) => Ok((part, is_last(h.pfc_flags))),
                }
            },
        },
    }
}

/// The common header of a fault.
pub open spec fn fault_header(pfc_flags: u8, call_id: u32, frag_length: u16) -> CommonHeader {
    CommonHeader { ptype: PType::Fault, pfc_flags, frag_length, auth_length: 0, call_id }
}

/// A fault is reported with the call and the status that it carries, whatever call it is
/// read for and whatever else stands in it.
pub proof fn fault_status_is_reported(
    pfc_flags: u8,
    frag_length: u16,
    call_id: u32,
    hint: Seq<u8>,
    status: u32,
    rest: Seq<u8>,
    reader: u32,
)
    requires
        hint.len() == 8,
    ensures
        fragment(
            reader,
            pdu::header_bytes(fault_header(pfc_flags, call_id, frag_length)) + hint + wire::le32(
                status,
            ) + rest,
        ) == Err::<(Seq<u8>, bool), ErrorView>(
            ErrorView::Protocol(
                "RPC fault on call_id "@ + text::dec(call_id as nat) + (": status "@
                    + text::padded_hex(status as nat, 8)),
            ),
        ),
{
    let h = fault_header(pfc_flags, call_id, frag_length);
    let head = pdu::header_bytes(h);
    let bytes = head + hint + wire::le32(status) + rest;
    assert(head.len() == 16);
    assert(bytes =~= head + (hint + wire::le32(status) + rest));
    pdu::header_round_trips(h, hint + wire::le32(status) + rest);
    assert(bytes.subrange(24, 28) =~= wire::le32(status));
    wire::le32_round_trips(status, bytes, 24);
}

/// A stub with the part that the next fragment holds.
pub open spec fn extended(stub: Seq<u8>, part: Seq<u8>) -> Seq<u8> {
    stub + part
}

/// A response that is being put together from its fragments.
pub struct ResponseReader {
    pub call_id: u32,
    pub stub: Vec<u8>,
}

impl ResponseReader {
    /// The response to `call_id`, of which nothing has come yet.
    pub fn new(call_id: u32) -> (reader: Self)
        ensures
            reader.call_id == call_id,
            reader.stub@.len() == 0,
    {
        ResponseReader { call_id, stub: Vec::new() }
    }

    /// Take in the next PDU off the OUT channel; `true` with the last one.
    pub fn on_pdu(&mut self, pdu: &[u8]) -> (r: Result<bool, GatewayError>)
        ensures
            final(self).call_id == old(self).call_id,
            match fragment(old(self).call_id, pdu@) {
                Ok((part, last)) => r == Ok::<bool, GatewayError>(last) && final(self).stub@
                    == extended(old(self).stub@, part),
                Err(e) => r matches Err(err) && err@ == e && final(self).stub == old(self).stub,
            },
    {
        let h = CommonHeader::decode(pdu)?;
        check_response(&h, pdu)?;
        if h.call_id != self.call_id {
            return Err(
                GatewayError::Protocol(
                    "response call_id ".to_owned().concat(
                        text::dec_string(h.call_id as u64).as_str(),
                    ).concat(" != request ").concat(
                        text::dec_string(self.call_id as u64).as_str(),
                    ),
                ),
            );
        }
        let part = response_stub(pdu, &h)?;
        wire::push_bytes(&mut self.stub, part);
        Ok(h.pfc_flags / pfc::LAST_FRAG % 2 == 1)
    }
}

/// The stub that PDUs make together, taken in one after the other, and whether the
/// last of them was the last fragment. Nothing is read behind a last fragment.
pub open spec fn received(call_id: u32, pdus: Seq<Seq<u8>>) -> Result<(Seq<u8>, bool), ErrorView>
    decreases pdus.len(),
{
    if pdus.len() == 0 {
        Ok((Seq::empty(), false))
    } else {
        match received(call_id, pdus.drop_last()) {
            Err(e) => Err(e),
            Ok((stub, done)) => if done {
                Ok((stub, done))
            } else {
                match fragment(call_id, pdus.last()) {
                    Err(e) => Err(e),
                    Ok((part, last)) => Ok((extended(stub, part), last)),
                }
            },
        }
    }
}

/// A response that comes in fragments is the stubs of its fragments, one after the
/// other.
pub proof fn fragments_are_joined(call_id: u32, pdus: Seq<Seq<u8>>, parts: Seq<Seq<u8>>)
    requires
        pdus.len() > 0,
        parts.len() == pdus.len(),
        forall|i: int|
            0 <= i < pdus.len() ==> #[trigger] fragment(call_id, pdus[i]) == Ok::<
                (Seq<u8>, bool),
                ErrorView,
            >((parts[i], i == pdus.len() - 1)),
    ensures
        received(call_id, pdus) == Ok::<(Seq<u8>, bool), ErrorView>((rts::joined(parts), true)),
{
    lemma_joined_fragments(call_id, pdus, parts, pdus.len() as int);
    assert(pdus.take(pdus.len() as int) =~= pdus);
    assert(parts.take(pdus.len() as int) =~= parts);
}

proof fn lemma_joined_fragments(
    call_id: u32,
    pdus: Seq<Seq<u8>>,
    parts: Seq<Seq<u8>>,
    n: int,
)
    requires
        0 <= n <= pdus.len(),
        parts.len() == pdus.len(),
        forall|i: int|
            0 <= i < pdus.len() ==> #[trigger] fragment(call_id, pdus[i]) == Ok::<
                (Seq<u8>, bool),
                ErrorView,
            >((parts[i], i == pdus.len() - 1)),
    ensures
        received(call_id, pdus.take(n)) == Ok::<(Seq<u8>, bool), ErrorView>(
            (rts::joined(parts.take(n)), n > 0 && n == pdus.len()),
        ),
    decreases n,
{
    if n > 0 {
        lemma_joined_fragments(call_id, pdus, parts, n - 1);
        assert(pdus.take(n).drop_last() =~= pdus.take(n - 1));
        assert(parts.take(n).drop_last() =~= parts.take(n - 1));
        assert(pdus.take(n).last() == pdus[n - 1]);
        assert(fragment(call_id, pdus[n - 1]) is Ok);
        assert(parts.take(n).last() == parts[n - 1]);
    }
}

/// What follows the stub of a response: padding, trailer and signature, or nothing
/// where there is no signature.
pub open spec fn response_tail(n: nat, signature: Seq<u8>) -> Seq<u8> {
    if signature.len() == 0 {
        Seq::empty()
    } else {
        zero_bytes(padding(n)) + bind::trailer_bytes(padding(n) as u8) + signature
    }
}

/// The common header of a response with a stub of `n` bytes.
pub open spec fn response_header(
    pfc_flags: u8,
    call_id: u32,
    n: nat,
    signature: Seq<u8>,
) -> CommonHeader {
    CommonHeader {
        ptype: PType::Response,
        pfc_flags,
        frag_length: wire::low16(24 + n + response_tail(n, signature).len()),
        auth_length: wire::low16(signature.len()),
        call_id,
    }
}

/// A response on the wire: common header, eight bytes that do not matter, stub, and
/// what follows it.
pub open spec fn response_bytes(
    pfc_flags: u8,
    call_id: u32,
    hint: Seq<u8>,
    stub: Seq<u8>,
    signature: Seq<u8>,
) -> Seq<u8> {
    pdu::header_bytes(response_header(pfc_flags, call_id, stub.len(), signature)) + hint + stub
        + response_tail(stub.len(), signature)
}

/// A response is read with the header it was written with.
pub proof fn response_header_reads_back(
    pfc_flags: u8,
    call_id: u32,
    hint: Seq<u8>,
    stub: Seq<u8>,
    signature: Seq<u8>,
)
    ensures
        pdu::decoded_header(response_bytes(pfc_flags, call_id, hint, stub, signature)) == Ok::<
            CommonHeader,
            ErrorView,
        >(response_header(pfc_flags, call_id, stub.len(), signature)),
{
    let h = response_header(pfc_flags, call_id, stub.len(), signature);
    let rest = hint + stub + response_tail(stub.len(), signature);
    assert(response_bytes(pfc_flags, call_id, hint, stub, signature) =~= pdu::header_bytes(h)
        + rest);
    pdu::header_round_trips(h, rest);
}

proof fn lemma_stub(front: Seq<u8>, stub: Seq<u8>, signature: Seq<u8>, h: CommonHeader)
    requires
        front.len() == STUB_OFFSET,
        h.frag_length == 24 + stub.len() + response_tail(stub.len(), signature).len(),
        h.auth_length == signature.len(),
    ensures
        stub_of(front + stub + response_tail(stub.len(), signature), h) == Ok::<
            Seq<u8>,
            ErrorView,
        >(stub),
{
    let pad = padding(stub.len());
    let tail = response_tail(stub.len(), signature);
    let bytes = front + stub + tail;
    if signature.len() > 0 {
        let trailer = h.frag_length - h.auth_length - 8;
        assert(tail.len() == pad + 8 + signature.len());
        assert(trailer == 24 + stub.len() + pad);
        assert(tail[pad as int + 2] == bind::trailer_bytes(pad as u8)[2]);
        assert(bytes[trailer + 2] == tail[pad as int + 2]);
    }
    assert(stub_end(bytes, h) == Ok::<int, ErrorView>(24 + stub.len() as int));
    assert(bytes.subrange(24, 24 + stub.len() as int) =~= stub);
}

/// A response reads back as its stub, signed or not, if it fits into a fragment.
pub proof fn response_reads_back(
    pfc_flags: u8,
    call_id: u32,
    hint: Seq<u8>,
    stub: Seq<u8>,
    signature: Seq<u8>,
)
    requires
        hint.len() == 8,
        stub.len() + signature.len() + 35 <= u16::MAX,
    ensures
        fragment(call_id, response_bytes(pfc_flags, call_id, hint, stub, signature)) == Ok::<
            (Seq<u8>, bool),
            ErrorView,
        >((stub, is_last(pfc_flags))),
{
    let h = response_header(pfc_flags, call_id, stub.len(), signature);
    let head = pdu::header_bytes(h);
    assert(head.len() == 16);
    response_header_reads_back(pfc_flags, call_id, hint, stub, signature);
    lemma_stub(head + hint, stub, signature, h);
}

proof fn lemma_request_length(call_id: u32, opnum: u16, stub: Seq<u8>)
    ensures
        unsigned_request(call_id, opnum, stub).len() == 32 + stub.len() + padding(stub.len()),
        pdu::header_bytes(request_header(call_id, stub.len())).is_prefix_of(
            unsigned_request(call_id, opnum, stub),
        ),
{
    let head = pdu::header_bytes(request_header(call_id, stub.len()));
    let words = wire::le32(wire::low32(stub.len())) + wire::le16(0) + wire::le16(opnum);
    let front = head + wire::le32(wire::low32(stub.len())) + wire::le16(0) + wire::le16(opnum);
    let zeros = zero_bytes(padding(stub.len()));
    let tail = bind::trailer_bytes(padding(stub.len()) as u8);
    let unsigned = unsigned_request(call_id, opnum, stub);
    assert(head.len() == 16);
    assert(front =~= head + words);
    assert(unsigned == front + stub + zeros + tail);
    lemma_front_of_four(front, stub, zeros, tail, 16);
    wire::appending_keeps_front(head, words, 0, 16);
    assert(head.subrange(0, 16) =~= head);
}

proof fn lemma_front_of_four(a: Seq<u8>, b: Seq<u8>, c: Seq<u8>, d: Seq<u8>, to: int)
    requires
        0 <= to <= a.len(),
    ensures
        (a + b + c + d).len() == a.len() + b.len() + c.len() + d.len(),
        (a + b + c + d).subrange(0, to) == a.subrange(0, to),
{
    assert((a + b + c + d).subrange(0, to) =~= a.subrange(0, to));
}

/// A signed request is a multiple of four bytes up to its signature, and its header
/// gives its call, and its length as long as that fits.
pub proof fn request_is_framed(call_id: u32, opnum: u16, stub: Seq<u8>, signature: Seq<u8>)
    requires
        signature.len() == RPC_SIGNATURE_SIZE,
    ensures
        unsigned_request(call_id, opnum, stub).len() % 4 == 0,
        pdu::decoded_header(unsigned_request(call_id, opnum, stub) + signature) == Ok::<
            CommonHeader,
            ErrorView,
        >(request_header(call_id, stub.len())),
        stub.len() + 51 <= u16::MAX ==> request_header(call_id, stub.len()).frag_length == (
        unsigned_request(call_id, opnum, stub) + signature).len(),
{
    let h = request_header(call_id, stub.len());
    let unsigned = unsigned_request(call_id, opnum, stub);
    lemma_request_length(call_id, opnum, stub);
    lemma_padded(stub.len());
    lemma_signed_header(h, unsigned, signature);
}

proof fn lemma_padded(n: nat)
    ensures
        (n + padding(n)) % 4 == 0,
        padding(n) <= 3,
{
}

proof fn lemma_signed_header(h: CommonHeader, unsigned: Seq<u8>, signature: Seq<u8>)
    requires
        pdu::header_bytes(h).is_prefix_of(unsigned),
    ensures
        pdu::decoded_header(unsigned + signature) == Ok::<CommonHeader, ErrorView>(h),
{
    assert(pdu::header_bytes(h).len() == 16);
    wire::appending_keeps_front(unsigned, signature, 0, 16);
    pdu::header_in_front(h, unsigned + signature);
}

/// Whether a PDU is a request of that operation: type 0, whole, the call at 12, context 0
/// at 20, the operation at 22, and the stub from 24 on.
pub open spec fn carries(pdu: Seq<u8>, call_id: u32, opnum: u16, stub: Seq<u8>) -> bool {
    &&& pdu.len() >= 32 + stub.len()
    &&& pdu[2] == 0
    &&& pdu[3] == 3
    &&& wire::u16_at(pdu, 10) == 16
    &&& wire::u32_at(pdu, 12) == call_id
    &&& wire::u32_at(pdu, 16) == stub.len() % 4294967296
    &&& wire::u16_at(pdu, 20) == 0
    &&& wire::u16_at(pdu, 22) == opnum
    &&& pdu.subrange(24, 24 + stub.len() as int) == stub
}

proof fn lemma_request_front(call_id: u32, opnum: u16, stub: Seq<u8>)
    ensures
        ({
            let front = pdu::header_bytes(request_header(call_id, stub.len())) + wire::le32(
                wire::low32(stub.len()),
            ) + wire::le16(0) + wire::le16(opnum);
            &&& front.len() == 24
            &&& front[2] == 0
            &&& front[3] == 3
            &&& wire::u16_at(front, 8) == request_header(call_id, stub.len()).frag_length
            &&& wire::u16_at(front, 10) == 16
            &&& wire::u32_at(front, 12) == call_id
            &&& wire::u32_at(front, 16) == stub.len() % 4294967296
            &&& wire::u16_at(front, 20) == 0
            &&& wire::u16_at(front, 22) == opnum
        }),
{
    let h = request_header(call_id, stub.len());
    let head = pdu::header_bytes(h);
    let hint = wire::le32(wire::low32(stub.len()));
    let b1 = head + hint;
    let b2 = b1 + wire::le16(0);
    let front = b2 + wire::le16(opnum);
    pdu::header_fields_have_their_places(h, Seq::empty());
    assert(head + Seq::<u8>::empty() =~= head);
    wire::numbers_stand_behind(head, 0, wire::low32(stub.len()));
    wire::numbers_stand_behind(b1, 0, 0);
    wire::numbers_stand_behind(b2, opnum, 0);
    wire::appending_keeps_numbers(head, hint);
    wire::appending_keeps_numbers(b1, wire::le16(0));
    wire::appending_keeps_numbers(b2, wire::le16(opnum));
    assert(front[2] == head[2] && front[3] == head[3]);
}

/// A signed request reads back as what it is for: its call, its operation and its stub;
/// behind the stub come zeros to a multiple of four bytes, a trailer that counts them, and
/// the signature, and the header gives the length of it all.
#[verifier::rlimit(40)]
pub proof fn request_reads_back(call_id: u32, opnum: u16, stub: Seq<u8>, signature: Seq<u8>)
    requires
        signature.len() == 16,
    ensures
        ({
            let b = unsigned_request(call_id, opnum, stub) + signature;
            let pad = b.len() - 48 - stub.len();
            let end = 24 + stub.len() + pad;
            &&& carries(b, call_id, opnum, stub)
            &&& 0 <= pad <= 3
            &&& (stub.len() + pad) % 4 == 0
            &&& wire::u16_at(b, 8) == b.len() % 65536
            &&& forall|i: int| 24 + stub.len() <= i < end ==> #[trigger] b[i] == 0
            &&& b.subrange(end, end + 8) == seq![10u8, 5, pad as u8, 0, 0, 0, 0, 0]
            &&& b.skip(end + 8) == signature
        }),
{
    let n = stub.len() as int;
    let pad = padding(stub.len());
    let front = pdu::header_bytes(request_header(call_id, stub.len())) + wire::le32(
        wire::low32(stub.len()),
    ) + wire::le16(0) + wire::le16(opnum);
    let zeros = zero_bytes(pad);
    let tail = bind::trailer_bytes(pad as u8);
    let b = front + stub + zeros + tail + signature;
    assert(b == unsigned_request(call_id, opnum, stub) + signature);
    lemma_request_front(call_id, opnum, stub);
    lemma_request_parts(front, stub, zeros, tail, signature);
    lemma_carries(call_id, opnum, stub, signature);
    lemma_padded(stub.len());
    let end = 24 + n + pad as int;
    assert forall|i: int| 24 + n <= i < end implies #[trigger] b[i] == 0 by {
        assert(b.subrange(24 + n, end)[i - 24 - n] == b[i]);
    }
    assert(tail =~= seq![10u8, 5, pad as u8, 0, 0, 0, 0, 0]);
}

proof fn lemma_carries(call_id: u32, opnum: u16, stub: Seq<u8>, signature: Seq<u8>)
    ensures
        carries(unsigned_request(call_id, opnum, stub) + signature, call_id, opnum, stub),
        wire::u16_at(unsigned_request(call_id, opnum, stub) + signature, 8) == request_header(
            call_id,
            stub.len(),
        ).frag_length,
{
    let pad = padding(stub.len());
    let front = pdu::header_bytes(request_header(call_id, stub.len())) + wire::le32(
        wire::low32(stub.len()),
    ) + wire::le16(0) + wire::le16(opnum);
    let tail = bind::trailer_bytes(pad as u8);
    lemma_request_front(call_id, opnum, stub);
    lemma_request_parts(front, stub, zero_bytes(pad), tail, signature);
    assert(front + stub + zero_bytes(pad) + tail + signature == unsigned_request(
        call_id,
        opnum,
        stub,
    ) + signature);
}

proof fn lemma_request_parts(
    front: Seq<u8>,
    stub: Seq<u8>,
    zeros: Seq<u8>,
    tail: Seq<u8>,
    signature: Seq<u8>,
)
    requires
        front.len() == 24,
        tail.len() == 8,
    ensures
        ({
            let b = front + stub + zeros + tail + signature;
            let n = 24 + stub.len() as int;
            let end = n + zeros.len() as int;
            &&& b.len() == end + 8 + signature.len()
            &&& b[2] == front[2] && b[3] == front[3]
            &&& b.subrange(24, n) == stub
            &&& b.subrange(n, end) == zeros
            &&& b.subrange(end, end + 8) == tail
            &&& b.skip(end + 8) == signature
            &&& forall|at: int|
                0 <= at && at + 2 <= 24 ==> #[trigger] wire::u16_at(b, at) == wire::u16_at(
                    front,
                    at,
                )
            &&& forall|at: int|
                0 <= at && at + 4 <= 24 ==> #[trigger] wire::u32_at(b, at) == wire::u32_at(
                    front,
                    at,
                )
        }),
{
    let b = front + stub + zeros + tail + signature;
    let n = 24 + stub.len() as int;
    let end = n + zeros.len() as int;
    assert(b.subrange(24, n) =~= stub);
    assert(b.subrange(n, end) =~= zeros);
    assert(b.subrange(end, end + 8) =~= tail);
    assert(b.skip(end + 8) =~= signature);
}

/// A call takes the next number, and goes out as a request of its operation under the
/// number that its response is read for.
pub proof fn call_goes_out<C>(
    before: BoundRpc<C>,
    opnum: u16,
    stub: Seq<u8>,
    after: BoundRpc<C>,
    r: Result<(ResponseReader, Vec<u8>), GatewayError>,
)
    requires
        calls(before, opnum, stub, after, r),
    ensures
        after.call_id == (before.call_id + 1) % 4294967296,
        r matches Ok((reader, pdu)) ==> reader.call_id == before.call_id && reader.stub@.len() == 0
            && carries(pdu@, before.call_id, opnum, stub),
{
    if let Ok((reader, pdu)) = r {
        let unsigned = unsigned_request(before.call_id, opnum, stub);
        let (signed, _) = auth::signature_of(
            before.ntlm@.ntlm,
            unsigned,
            RPC_SIGNATURE_SIZE as nat,
        );
        let signature = auth::sign_outcome(signed)->Ok_0;
        lemma_carries(before.call_id, opnum, stub, signature);
    }
}

/// The stub of a response is what stands from byte 24 on, up to the end of the fragment, or
/// up to the padding in front of the trailer where there is a token.
pub proof fn stub_is_cut_out(b: Seq<u8>, h: CommonHeader)
    ensures
        stub_of(b, h) matches Ok(stub) ==> 24 + stub.len() <= b.len() && stub == b.subrange(
            24,
            24 + stub.len() as int,
        ) && 24 + stub.len() == if h.auth_length == 0 {
            h.frag_length as int
        } else {
            h.frag_length - h.auth_length - 8 - b[h.frag_length - h.auth_length - 6]
        },
        h.auth_length == 0 ==> (stub_of(b, h) is Ok <==> 24 <= h.frag_length <= b.len()),
        h.auth_length > 0 ==> (stub_of(b, h) is Ok <==> {
            let trailer = h.frag_length - h.auth_length - 8;
            &&& 0 <= trailer
            &&& trailer + 2 < b.len()
            &&& 24 <= trailer - b[trailer + 2]
        }),
{
}

/// A fragment counts exactly where it is a response (type 2) to that call with a stub in
/// it, and it is the last one exactly where the second flag is set.
pub proof fn fragments_answer_their_call(call_id: u32, b: Seq<u8>)
    ensures
        fragment(call_id, b) matches Ok((part, last)) ==> b.len() >= 16 && b[0] == 5 && b[2] == 2
            && b[12] + 256 * b[13] + 65536 * b[14] + 16777216 * b[15] == call_id && (last <==> (
        b[3] as int / 2) % 2 == 1) && part == b.subrange(24, 24 + part.len() as int),
{
    pdu::header_is_read_at_its_places(b);
    if let Ok(h) = pdu::decoded_header(b) {
        stub_is_cut_out(b, h);
    }
}

/// Nothing but a response passes, whatever else stands in the PDU.
pub proof fn only_responses_pass(h: CommonHeader, b: Seq<u8>)
    ensures
        checked_response(h, b) is Ok <==> h.ptype.number() == 2,
{
}

/// Nothing is taken in behind a last fragment, nor behind an error.
pub proof fn reading_stops(call_id: u32, pdus: Seq<Seq<u8>>, more: Seq<u8>)
    requires
        received(call_id, pdus) is Err || received(call_id, pdus)->Ok_0.1,
    ensures
        received(call_id, pdus.push(more)) == received(call_id, pdus),
{
    assert(pdus.push(more).drop_last() =~= pdus);
}

/// A part of the stub that a request carries stands 24 bytes further on in the request.
pub proof fn stub_parts_stand(b: Seq<u8>, call_id: u32, opnum: u16, stub: Seq<u8>, i: int, j: int)
    requires
        carries(b, call_id, opnum, stub),
        0 <= i <= j <= stub.len(),
    ensures
        b.subrange(24 + i, 24 + j) == stub.subrange(i, j),
{
    let part = b.subrange(24, 24 + stub.len() as int);
    assert(part.subrange(i, j) =~= b.subrange(24 + i, 24 + j));
}

/// A number in the stub that a request carries stands 24 bytes further on in the request.
pub proof fn stub_numbers_stand(b: Seq<u8>, call_id: u32, opnum: u16, stub: Seq<u8>, at: int)
    requires
        carries(b, call_id, opnum, stub),
        0 <= at,
        at + 2 <= stub.len(),
    ensures
        wire::u16_at(b, 24 + at) == wire::u16_at(stub, at),
        at + 4 <= stub.len() ==> wire::u32_at(b, 24 + at) == wire::u32_at(stub, at),
{
    wire::parts_keep_numbers(b, 24, 24 + stub.len() as int);
}

/// A PDU that is no response to the call is reported by its type, or by the call that it
/// answers and the one that was awaited; a stub that does not fit, by where it should end
/// and the length of the PDU.
pub proof fn response_errors_name_their_cause(call_id: u32, b: Seq<u8>, h: CommonHeader)
    requires
        pdu::decoded_header(b) == Ok::<CommonHeader, ErrorView>(h),
    ensures
        b[2] != 2 && b[2] != 3 ==> fragment(call_id, b) == Err::<(Seq<u8>, bool), ErrorView>(
            ErrorView::Protocol("expected RPC response, got "@ + h.ptype.title()),
        ),
        b[2] == 2 && h.call_id != call_id ==> fragment(call_id, b) == Err::<
            (Seq<u8>, bool),
            ErrorView,
        >(
            ErrorView::Protocol(
                "response call_id "@ + text::dec(wire::u32_at(b, 12) as nat) + " != request "@
                    + text::dec(call_id as nat),
            ),
        ),
        h.auth_length == 0 && !(24 <= h.frag_length <= b.len()) ==> stub_of(b, h) == Err::<
            Seq<u8>,
            ErrorView,
        >(
            ErrorView::Protocol(
                "response stub bounds invalid: end="@ + text::dec(h.frag_length as nat) + " len="@
                    + text::dec(b.len()),
            ),
        ),
{
    pdu::header_is_read_at_its_places(b);
}

} // verus!

//! DCE/RPC PDU framing: the 16-byte common header that prefixes every
//! connection-oriented PDU, and the cursor the upper layers read bodies with.
use vstd::prelude::*;
use vstd::slice::slice_subrange;
use vstd::string::*;

use crate::error;
use crate::error::{ErrorView, GatewayError};
use crate::text;
use crate::wire;

pub mod pfc;

verus! {

/// RPC protocol version (connection-oriented DCE/RPC is always 5.0).
pub const RPC_VERS: u8 = 5;

pub const RPC_VERS_MINOR: u8 = 0;

/// Data representation: little-endian integers, ASCII characters, IEEE floats.
pub const PACKED_DREP: [u8; 4] = [0x10, 0x00, 0x00, 0x00];

/// PDU types (`PTYPE`, byte 2 of the common header).
#[derive(Debug, Clone, Copy, PartialEq, Eq, Structural)]
pub enum PType {
    Request,
    Ping,
    Response,
    Fault,
    Bind,
    BindAck,
    BindNak,
    AlterContext,
    AlterContextResp,
    Auth3,
    Shutdown,
    CoCancel,
    Orphaned,
    Rts,
}

impl PType {
    /// The number of the type on the wire.
    pub open spec fn number(self) -> u8 {
        match self {
            PType::Request => 0,
            PType::Ping => 1,
            PType::Response => 2,
            PType::Fault => 3,
            PType::Bind => 11,
            PType::BindAck => 12,
            PType::BindNak => 13,
            PType::AlterContext => 14,
            PType::AlterContextResp => 15,
            PType::Auth3 => 16,
            PType::Shutdown => 17,
            PType::CoCancel => 18,
            PType::Orphaned => 19,
            PType::Rts => 20,
        }
    }

    /// The name of the type in messages.
    pub open spec fn title(self) -> Seq<char> {
        match self {
            PType::Request => "Request"@,
            PType::Ping => "Ping"@,
            PType::Response => "Response"@,
            PType::Fault => "Fault"@,
            PType::Bind => "Bind"@,
            PType::BindAck => "BindAck"@,
            PType::BindNak => "BindNak"@,
            PType::AlterContext => "AlterContext"@,
            PType::AlterContextResp => "AlterContextResp"@,
            PType::Auth3 => "Auth3"@,
            PType::Shutdown => "Shutdown"@,
            PType::CoCancel => "CoCancel"@,
            PType::Orphaned => "Orphaned"@,
            PType::Rts => "Rts"@,
        }
    }

    pub fn code(self) -> (c: u8)
        ensures
            c == self.number(),
    {
        match self {
            PType::Request => 0,
            PType::Ping => 1,
            PType::Response => 2,
            PType::Fault => 3,
            PType::Bind => 11,
            PType::BindAck => 12,
            PType::BindNak => 13,
            PType::AlterContext => 14,
            PType::AlterContextResp => 15,
            PType::Auth3 => 16,
            PType::Shutdown => 17,
            PType::CoCancel => 18,
            PType::Orphaned => 19,
            PType::Rts => 20,
        }
    }

    pub fn name(self) -> (s: String)
        ensures
            s@ == self.title(),
    {
        let s: &str = match self {
            PType::Request => "Request",
            PType::Ping => "Ping",
            PType::Response => "Response",
            PType::Fault => "Fault",
            PType::Bind => "Bind",
            PType::BindAck => "BindAck",
            PType::BindNak => "BindNak",
            PType::AlterContext => "AlterContext",
            PType::AlterContextResp => "AlterContextResp",
            PType::Auth3 => "Auth3",
            PType::Shutdown => "Shutdown",
            PType::CoCancel => "CoCancel",
            PType::Orphaned => "Orphaned",
            PType::Rts => "Rts",
        };
        s.to_owned()
    }

    /// The type with the number `v`; the numbers between `Fault` and `Bind`, and
    /// those past `Rts`, name no type.
    pub fn from_u8(v: u8) -> (r: Option<Self>)
        ensures
            r matches Some(p) ==> p.number() == v,
            r is None <==> (3 < v < 11 || 20 < v),
    {
        Some(
            match v {
                0 => PType::Request,
                1 => PType::Ping,
                2 => PType::Response,
                3 => PType::Fault,
                11 => PType::Bind,
                12 => PType::BindAck,
                13 => PType::BindNak,
                14 => PType::AlterContext,
                15 => PType::AlterContextResp,
                16 => PType::Auth3,
                17 => PType::Shutdown,
                18 => PType::CoCancel,
                19 => PType::Orphaned,
                20 => PType::Rts,
                _ => return None,
            },
        )
    }
}

/// The 16-byte connection-oriented common header.
#[derive(Debug, Clone, Copy)]
pub struct CommonHeader {
    pub ptype: PType,
    pub pfc_flags: u8,
    /// Total PDU length including this header (little-endian on the wire).
    pub frag_length: u16,
    /// Length of the trailing `auth_verifier`, or 0 (little-endian).
    pub auth_length: u16,
    pub call_id: u32,
}

/// The sixteen bytes of a header on the wire.
pub open spec fn header_bytes(h: CommonHeader) -> Seq<u8> {
    seq![RPC_VERS, RPC_VERS_MINOR, h.ptype.number(), h.pfc_flags] + PACKED_DREP@ + wire::le16(
        h.frag_length,
    ) + wire::le16(h.auth_length) + wire::le32(h.call_id)
}

/// What the front of `buf` says as a header.
#[verifier::opaque]
pub open spec fn decoded_header(buf: Seq<u8>) -> Result<CommonHeader, ErrorView> {
    if buf.len() < CommonHeader::LEN {
        Err(
            ErrorView::Protocol(
                "DCE/RPC header truncated: "@ + text::dec(buf.len()) + " bytes"@,
            ),
        )
    } else if buf[0] != RPC_VERS {
        Err(
            ErrorView::Protocol(
                "unexpected RPC version "@ + text::dec(buf[0] as nat) + "."@ + text::dec(
                    buf[1] as nat,
                ),
            ),
        )
    } else if 3 < buf[2] < 11 || 20 < buf[2] {
        Err(ErrorView::Protocol("unknown PDU type "@ + text::dec(buf[2] as nat)))
    } else {
        Ok(
            CommonHeader {
                ptype: choose|p: PType| p.number() == buf[2],
                pfc_flags: buf[3],
                frag_length: wire::u16_at(buf, 8),
                auth_length: wire::u16_at(buf, 10),
                call_id: wire::u32_at(buf, 12),
            },
        )
    }
}

/// A header is read from sixteen bytes, and from no fewer.
pub proof fn header_needs_sixteen_bytes(buf: Seq<u8>)
    ensures
        decoded_header(buf) is Ok ==> buf.len() >= CommonHeader::LEN,
        buf.len() >= CommonHeader::LEN ==> decoded_header(buf) == decoded_header(
            buf.take(CommonHeader::LEN as int),
        ),
{
    reveal(decoded_header);
}

/// Two types never share a number.
pub proof fn numbers_are_distinct(p: PType, q: PType)
    requires
        p.number() == q.number(),
    ensures
        p == q,
{
}

/// A header written in front of anything is read back as it was.
pub proof fn header_round_trips(h: CommonHeader, rest: Seq<u8>)
    ensures
        decoded_header(header_bytes(h) + rest) == Ok::<CommonHeader, ErrorView>(h),
{
    reveal(decoded_header);
    let buf = header_bytes(h) + rest;
    assert(buf[2] == h.ptype.number());
    let p = choose|p: PType| p.number() == buf[2];
    assert(p.number() == h.ptype.number());
    numbers_are_distinct(p, h.ptype);
    assert(buf.subrange(8, 10) =~= wire::le16(h.frag_length));
    wire::le16_round_trips(h.frag_length, buf, 8);
    assert(buf.subrange(10, 12) =~= wire::le16(h.auth_length));
    wire::le16_round_trips(h.auth_length, buf, 10);
    assert(buf.subrange(12, 16) =~= wire::le32(h.call_id));
    wire::le32_round_trips(h.call_id, buf, 12);
}

/// Bytes that begin with a header are read as that header.
pub proof fn header_in_front(h: CommonHeader, bytes: Seq<u8>)
    requires
        header_bytes(h).is_prefix_of(bytes),
    ensures
        decoded_header(bytes) == Ok::<CommonHeader, ErrorView>(h),
{
    let rest = bytes.skip(CommonHeader::LEN as int);
    assert(bytes =~= header_bytes(h) + rest);
    header_round_trips(h, rest);
}

impl CommonHeader {
    pub const LEN: usize = 16;

    pub fn new(
        ptype: PType,
        pfc_flags: u8,
        frag_length: u16,
        auth_length: u16,
        call_id: u32,
    ) -> (h: Self)
        ensures
            h == (CommonHeader { ptype, pfc_flags, frag_length, auth_length, call_id }),
    {
        CommonHeader { ptype, pfc_flags, frag_length, auth_length, call_id }
    }

    /// Append the 16 header bytes to `out`.
    pub fn encode(&self, out: &mut Vec<u8>)
        ensures
            final(out)@ == old(out)@ + header_bytes(*self),
    {
        out.push(RPC_VERS);
        out.push(RPC_VERS_MINOR);
        out.push(self.ptype.code());
        out.push(self.pfc_flags);
        let drep: [u8; 4] = PACKED_DREP;
        wire::push_bytes(out, drep.as_slice());
        wire::push_u16_le(out, self.frag_length);
        wire::push_u16_le(out, self.auth_length);
        wire::push_u32_le(out, self.call_id);
        assert(out@ =~= old(out)@ + header_bytes(*self));
    }

    /// Parse the 16-byte header from the front of `buf`.
    pub fn decode(buf: &[u8]) -> (r: Result<Self, GatewayError>)
        ensures
            error::outcome(r) == decoded_header(buf@),
            r is Ok ==> buf@.len() >= Self::LEN,
    {
        proof {
            reveal(decoded_header);
        }
        if buf.len() < Self::LEN {
            return Err(
                GatewayError::Protocol(
                    "DCE/RPC header truncated: ".to_owned().concat(
                        text::dec_string(buf.len() as u64).as_str(),
                    ).concat(" bytes"),
                ),
            );
        }
        if buf[0] != RPC_VERS {
            return Err(
                GatewayError::Protocol(
                    "unexpected RPC version ".to_owned().concat(
                        text::dec_string(buf[0] as u64).as_str(),
                    ).concat(".").concat(text::dec_string(buf[1] as u64).as_str()),
                ),
            );
        }
        let ptype = match PType::from_u8(buf[2]) {
            Some(ptype) => ptype,
            None => {
                return Err(
                    GatewayError::Protocol(
                        "unknown PDU type ".to_owned().concat(
                            text::dec_string(buf[2] as u64).as_str(),
                        ),
                    ),
                );
            },
        };
        proof {
            let p = choose|p: PType| p.number() == buf[2];
            numbers_are_distinct(p, ptype);
        }
        Ok(
            CommonHeader {
                ptype,
                pfc_flags: buf[3],
                frag_length: wire::read_u16_at(buf, 8),
                auth_length: wire::read_u16_at(buf, 10),
                call_id: wire::read_u32_at(buf, 12),
            },
        )
    }
}

/// A forward-only reader over a PDU body, little-endian, whose view is what is
/// left to read. Reading past the end is an error and moves nothing.
pub struct Cursor<'a> {
    buf: &'a [u8],
    pos: usize,
}

impl<'a> View for Cursor<'a> {
    type V = Seq<u8>;

    closed spec fn view(&self) -> Seq<u8> {
        self.buf@.skip(self.pos as int)
    }
}

/// The error of reading `need` bytes where only `have` are left.
pub open spec fn underrun(need: nat, have: nat) -> ErrorView {
    ErrorView::Protocol("PDU underrun: need "@ + text::dec(need) + ", have "@ + text::dec(have))
}

/// The first `n` bytes of `s`.
pub open spec fn read_bytes(s: Seq<u8>, n: nat) -> Result<Seq<u8>, ErrorView> {
    if s.len() < n {
        Err(underrun(n, s.len()))
    } else {
        Ok(s.take(n as int))
    }
}

/// The two bytes in front of `s` as a number.
pub open spec fn read_u16(s: Seq<u8>) -> Result<u16, ErrorView> {
    if s.len() < 2 {
        Err(underrun(2, s.len()))
    } else {
        Ok(wire::u16_at(s, 0))
    }
}

/// The four bytes in front of `s` as a number.
pub open spec fn read_u32(s: Seq<u8>) -> Result<u32, ErrorView> {
    if s.len() < 4 {
        Err(underrun(4, s.len()))
    } else {
        Ok(wire::u32_at(s, 0))
    }
}

/// What is left of `s` after reading `n` bytes.
pub open spec fn after_read(s: Seq<u8>, n: nat) -> Seq<u8> {
    if s.len() < n {
        s
    } else {
        s.skip(n as int)
    }
}

impl<'a> Cursor<'a> {
    #[verifier::type_invariant]
    spec fn inv(self) -> bool {
        self.pos <= self.buf@.len()
    }

    pub fn new(buf: &'a [u8]) -> (c: Self)
        ensures
            c@ == buf@,
    {
        let c = Cursor { buf, pos: 0 };
        assert(c@ =~= buf@);
        c
    }

    pub fn remaining(&self) -> (n: usize)
        ensures
            n == self@.len(),
    {
        proof {
            use_type_invariant(self);
        }
        self.buf.len() - self.pos
    }

    fn take(&mut self, n: usize) -> (r: Result<&'a [u8], GatewayError>)
        ensures
            error::outcome_view(r) == read_bytes(old(self)@, n as nat),
            final(self)@ == after_read(old(self)@, n as nat),
    {
        proof {
            use_type_invariant(&*self);
        }
        let total: usize = self.buf.len();
        let have: usize = total - self.pos;
        if have < n {
            return Err(
                GatewayError::Protocol(
                    "PDU underrun: need ".to_owned().concat(
                        text::dec_string(n as u64).as_str(),
                    ).concat(", have ").concat(text::dec_string(have as u64).as_str()),
                ),
            );
        }
        let s = slice_subrange(self.buf, self.pos, self.pos + n);
        let ghost before = self@;
        self.pos = self.pos + n;
        assert(s@ =~= before.take(n as int));
        assert(self@ =~= before.skip(n as int));
        Ok(s)
    }

    pub fn u16_le(&mut self) -> (r: Result<u16, GatewayError>)
        ensures
            error::outcome(r) == read_u16(old(self)@),
            final(self)@ == after_read(old(self)@, 2),
    {
        let b = self.take(2)?;
        Ok(wire::read_u16_at(b, 0))
    }

    pub fn u32_le(&mut self) -> (r: Result<u32, GatewayError>)
        ensures
            error::outcome(r) == read_u32(old(self)@),
            final(self)@ == after_read(old(self)@, 4),
    {
        let b = self.take(4)?;
        Ok(wire::read_u32_at(b, 0))
    }

    pub fn bytes(&mut self, n: usize) -> (r: Result<&'a [u8], GatewayError>)
        ensures
            error::outcome_view(r) == read_bytes(old(self)@, n as nat),
            final(self)@ == after_read(old(self)@, n as nat),
    {
        self.take(n)
    }

    pub fn skip(&mut self, n: usize) -> (r: Result<(), GatewayError>)
        ensures
            r is Ok <==> n <= old(self)@.len(),
            r matches Err(e) ==> e@ == underrun(n as nat, old(self)@.len()),
            final(self)@ == after_read(old(self)@, n as nat),
    {
        match self.take(n) {
            Ok(_) => Ok(()),
            Err(e) => Err(e),
        }
    }
}

/// The types have the numbers and the names of connection-oriented DCE/RPC.
pub proof fn types_have_their_numbers()
    ensures
        PType::Request.number() == 0 && PType::Request.title() == "Request"@,
        PType::Ping.number() == 1 && PType::Ping.title() == "Ping"@,
        PType::Response.number() == 2 && PType::Response.title() == "Response"@,
        PType::Fault.number() == 3 && PType::Fault.title() == "Fault"@,
        PType::Bind.number() == 11 && PType::Bind.title() == "Bind"@,
        PType::BindAck.number() == 12 && PType::BindAck.title() == "BindAck"@,
        PType::BindNak.number() == 13 && PType::BindNak.title() == "BindNak"@,
        PType::AlterContext.number() == 14 && PType::AlterContext.title() == "AlterContext"@,
        PType::AlterContextResp.number() == 15 && PType::AlterContextResp.title()
            == "AlterContextResp"@,
        PType::Auth3.number() == 16 && PType::Auth3.title() == "Auth3"@,
        PType::Shutdown.number() == 17 && PType::Shutdown.title() == "Shutdown"@,
        PType::CoCancel.number() == 18 && PType::CoCancel.title() == "CoCancel"@,
        PType::Orphaned.number() == 19 && PType::Orphaned.title() == "Orphaned"@,
        PType::Rts.number() == 20 && PType::Rts.title() == "Rts"@,
        pfc::FIRST_FRAG == 1 && pfc::LAST_FRAG == 2 && pfc::PENDING_CANCEL == 4 && pfc::RESERVED_1
            == 8 && pfc::CONC_MPX == 16 && pfc::DID_NOT_EXECUTE == 32 && pfc::MAYBE == 64
            && pfc::OBJECT_UUID == 128,
        pfc::WHOLE == pfc::FIRST_FRAG + pfc::LAST_FRAG,
{
}

/// Each field of a header has its place: version 5.0, type, flags, a data representation
/// with the low byte first, the length of the PDU, that of its token, and the call.
pub proof fn header_fields_have_their_places(h: CommonHeader, rest: Seq<u8>)
    ensures
        ({
            let b = header_bytes(h) + rest;
            &&& b.len() == 16 + rest.len()
            &&& b[0] == 5
            &&& b[1] == 0
            &&& b[2] == h.ptype.number()
            &&& b[3] == h.pfc_flags
            &&& b[4] == 16 && b[5] == 0 && b[6] == 0 && b[7] == 0
            &&& b[8] + 256 * b[9] == h.frag_length
            &&& b[10] + 256 * b[11] == h.auth_length
            &&& b[12] + 256 * b[13] + 65536 * b[14] + 16777216 * b[15] == h.call_id
            &&& b.skip(16) == rest
        }),
{
    let b = header_bytes(h) + rest;
    assert(b.subrange(8, 10) =~= wire::le16(h.frag_length));
    assert(b.subrange(10, 12) =~= wire::le16(h.auth_length));
    assert(b.subrange(12, 16) =~= wire::le32(h.call_id));
    wire::le16_round_trips(h.frag_length, b, 8);
    wire::le16_round_trips(h.auth_length, b, 10);
    wire::le32_round_trips(h.call_id, b, 12);
    assert(b.skip(16) =~= rest);
}

/// Bytes are a header exactly where there are sixteen of them, the version is 5 and the
/// type is known; each field is then read at its place.
pub proof fn header_is_read_at_its_places(b: Seq<u8>)
    ensures
        decoded_header(b) is Ok <==> b.len() >= 16 && b[0] == 5 && (b[2] <= 3 || 11 <= b[2] <= 20),
        decoded_header(b) matches Ok(h) ==> h.ptype.number() == b[2] && h.pfc_flags == b[3]
            && h.frag_length == b[8] + 256 * b[9] && h.auth_length == b[10] + 256 * b[11]
            && h.call_id == b[12] + 256 * b[13] + 65536 * b[14] + 16777216 * b[15],
{
    reveal(decoded_header);
    if b.len() >= 16 && b[0] == 5 && (b[2] <= 3 || 11 <= b[2] <= 20) {
        let n = b[2];
        let known = if n == 0 {
            PType::Request
        } else if n == 1 {
            PType::Ping
        } else if n == 2 {
            PType::Response
        } else if n == 3 {
            PType::Fault
        } else if n == 11 {
            PType::Bind
        } else if n == 12 {
            PType::BindAck
        } else if n == 13 {
            PType::BindNak
        } else if n == 14 {
            PType::AlterContext
        } else if n == 15 {
            PType::AlterContextResp
        } else if n == 16 {
            PType::Auth3
        } else if n == 17 {
            PType::Shutdown
        } else if n == 18 {
            PType::CoCancel
        } else if n == 19 {
            PType::Orphaned
        } else {
            PType::Rts
        };
        assert(known.number() == n);
    }
}

/// A cursor reads the numbers and bytes in front of it one after the other, low byte
/// first, and gives each byte out once; where too few are left it gives none, and stays.
pub proof fn cursor_reads_in_order(s: Seq<u8>, n: nat)
    ensures
        read_u16(s) matches Ok(v) ==> v == s[0] + 256 * s[1],
        read_u32(s) matches Ok(v) ==> v == s[0] + 256 * s[1] + 65536 * s[2] + 16777216 * s[3],
        read_bytes(s, n) matches Ok(part) ==> part.len() == n && part + after_read(s, n) == s,
        read_u16(s) is Err <==> s.len() < 2,
        read_u32(s) is Err <==> s.len() < 4,
        read_bytes(s, n) is Err <==> s.len() < n,
        s.len() < n ==> after_read(s, n) == s,
{
    if s.len() >= n {
        assert(s.take(n as int) + s.skip(n as int) =~= s);
    }
}

/// What cannot be a header is reported by what is wrong with it: the number of its bytes,
/// its version, or its type; and a read that fails by what it needed and what there was.
pub proof fn header_errors_name_their_cause(b: Seq<u8>, s: Seq<u8>, n: nat)
    ensures
        b.len() < 16 ==> decoded_header(b) == Err::<CommonHeader, ErrorView>(
            ErrorView::Protocol("DCE/RPC header truncated: "@ + text::dec(b.len()) + " bytes"@),
        ),
        b.len() >= 16 && b[0] != 5 ==> decoded_header(b) == Err::<CommonHeader, ErrorView>(
            ErrorView::Protocol(
                "unexpected RPC version "@ + text::dec(b[0] as nat) + "."@ + text::dec(
                    b[1] as nat,
                ),
            ),
        ),
        b.len() >= 16 && b[0] == 5 && decoded_header(b) is Err ==> decoded_header(b) == Err::<
            CommonHeader,
            ErrorView,
        >(ErrorView::Protocol("unknown PDU type "@ + text::dec(b[2] as nat))),
        s.len() < n ==> read_bytes(s, n) == Err::<Seq<u8>, ErrorView>(
            ErrorView::Protocol(
                "PDU underrun: need "@ + text::dec(n) + ", have "@ + text::dec(s.len()),
            ),
        ),
        s.len() < 2 ==> read_u16(s) == Err::<u16, ErrorView>(
            ErrorView::Protocol(
                "PDU underrun: need "@ + text::dec(2) + ", have "@ + text::dec(s.len()),
            ),
        ),
        s.len() < 4 ==> read_u32(s) == Err::<u32, ErrorView>(
            ErrorView::Protocol(
                "PDU underrun: need "@ + text::dec(4) + ", have "@ + text::dec(s.len()),
            ),
        ),
{
    reveal(decoded_header);
}

} // verus!

//! Integers on the wire.
use vstd::prelude::*;

verus! {

/// The two bytes of `v`, low byte first.
pub open spec fn le16(v: u16) -> Seq<u8> {
    seq![(v % 256) as u8, (v / 256) as u8]
}

/// The four bytes of `v`, low byte first.
pub open spec fn le32(v: u32) -> Seq<u8> {
    seq![
        (v % 256) as u8,
        (v / 256 % 256) as u8,
        (v / 0x1_0000 % 256) as u8,
        (v / 0x100_0000) as u8,
    ]
}

/// The four bytes of `v`, high byte first.
pub open spec fn be32(v: u32) -> Seq<u8> {
    seq![
        (v / 0x100_0000) as u8,
        (v / 0x1_0000 % 256) as u8,
        (v / 256 % 256) as u8,
        (v % 256) as u8,
    ]
}

/// The number that the two bytes of `s` from `at` on spell, low byte first.
pub open spec fn u16_at(s: Seq<u8>, at: int) -> u16 {
    (s[at] + 256 * s[at + 1]) as u16
}

/// The number that the four bytes of `s` from `at` on spell, low byte first.
pub open spec fn u32_at(s: Seq<u8>, at: int) -> u32 {
    (s[at] + 256 * s[at + 1] + 0x1_0000 * s[at + 2] + 0x100_0000 * s[at + 3]) as u32
}

/// The low 16 bits of a length.
pub open spec fn low16(n: nat) -> u16 {
    (n % 0x1_0000) as u16
}

/// The low 32 bits of a length.
pub open spec fn low32(n: nat) -> u32 {
    (n % 0x1_0000_0000) as u32
}

/// Reading back two bytes gives the number that was written.
pub proof fn le16_round_trips(v: u16, s: Seq<u8>, at: int)
    requires
        0 <= at,
        at + 2 <= s.len(),
        s.subrange(at, at + 2) == le16(v),
    ensures
        u16_at(s, at) == v,
{
    let b = s.subrange(at, at + 2);
    assert(s[at] == b[0] && s[at + 1] == b[1]);
}

/// Reading back four bytes gives the number that was written.
pub proof fn le32_round_trips(v: u32, s: Seq<u8>, at: int)
    requires
        0 <= at,
        at + 4 <= s.len(),
        s.subrange(at, at + 4) == le32(v),
    ensures
        u32_at(s, at) == v,
{
    let b = s.subrange(at, at + 4);
    assert(s[at] == b[0] && s[at + 1] == b[1] && s[at + 2] == b[2] && s[at + 3] == b[3]);
}

/// What is appended to bytes leaves the ones in front alone.
pub proof fn appending_keeps_front(a: Seq<u8>, b: Seq<u8>, from: int, to: int)
    requires
        0 <= from <= to <= a.len(),
    ensures
        (a + b).subrange(from, to) == a.subrange(from, to),
{
    assert((a + b).subrange(from, to) =~= a.subrange(from, to));
}

/// A number is written with its low byte first, or, in the other form, with its high
/// byte first: the bytes weigh 1, 256, 65536 and 16777216 in that order.
pub proof fn bytes_carry_their_weight(v: u16, w: u32)
    ensures
        le16(v).len() == 2,
        le16(v)[0] + 256 * le16(v)[1] == v,
        le32(w).len() == 4,
        le32(w)[0] + 256 * le32(w)[1] + 65536 * le32(w)[2] + 16777216 * le32(w)[3] == w,
        be32(w).len() == 4,
        be32(w)[3] + 256 * be32(w)[2] + 65536 * be32(w)[1] + 16777216 * be32(w)[0] == w,
{
}

/// A number is read with its low byte first.
pub proof fn bytes_are_weighed(s: Seq<u8>, at: int)
    requires
        0 <= at,
        at + 4 <= s.len(),
    ensures
        u16_at(s, at) == s[at] + 256 * s[at + 1],
        u32_at(s, at) == s[at] + 256 * s[at + 1] + 65536 * s[at + 2] + 16777216 * s[at + 3],
{
}

/// The low bits of a length are the length where it fits, and go round where it does not.
pub proof fn low_bits_go_round(n: nat, turns: nat)
    ensures
        n <= 65535 ==> low16(n + 65536 * turns) == n,
        n <= 4294967295 ==> low32(n + 4294967296 * turns) == n,
{
}

/// Four bytes with the high byte first, somewhere in a text, spell their number.
pub proof fn be32_is_spelled(v: u32, s: Seq<u8>, at: int)
    requires
        0 <= at,
        at + 4 <= s.len(),
        s.subrange(at, at + 4) == be32(v),
    ensures
        16777216 * s[at] + 65536 * s[at + 1] + 256 * s[at + 2] + s[at + 3] == v,
{
    let b = s.subrange(at, at + 4);
    assert(s[at] == b[0] && s[at + 1] == b[1] && s[at + 2] == b[2] && s[at + 3] == b[3]);
}

/// A number behind some bytes is read where these end, and what follows it does not matter.
pub proof fn numbers_stand_behind(front: Seq<u8>, v: u16, w: u32)
    ensures
        u16_at(front + le16(v), front.len() as int) == v,
        u32_at(front + le32(w), front.len() as int) == w,
{
    let at = front.len() as int;
    assert((front + le16(v)).subrange(at, at + 2) =~= le16(v));
    le16_round_trips(v, front + le16(v), at);
    assert((front + le32(w)).subrange(at, at + 4) =~= le32(w));
    le32_round_trips(w, front + le32(w), at);
}

/// What is appended to bytes leaves the numbers in front of it alone.
pub proof fn appending_keeps_numbers(a: Seq<u8>, b: Seq<u8>)
    ensures
        forall|at: int| 0 <= at && at + 2 <= a.len() ==> #[trigger] u16_at(a + b, at) == u16_at(a, at),
        forall|at: int| 0 <= at && at + 4 <= a.len() ==> #[trigger] u32_at(a + b, at) == u32_at(a, at),
{
}

/// A number in a part of some bytes is the number at its place in the whole.
pub proof fn parts_keep_numbers(s: Seq<u8>, from: int, to: int)
    requires
        0 <= from <= to <= s.len(),
    ensures
        forall|at: int|
            0 <= at && at + 2 <= to - from ==> #[trigger] u16_at(s.subrange(from, to), at)
                == u16_at(s, from + at),
        forall|at: int|
            0 <= at && at + 4 <= to - from ==> #[trigger] u32_at(s.subrange(from, to), at)
                == u32_at(s, from + at),
{
}

pub fn truncate16(n: usize) -> (v: u16)
    ensures
        v == low16(n as nat),
{
    (n % 0x1_0000) as u16
}

/// The low 16 bits of a length and a few bytes more.
pub fn truncate16_plus(n: usize, more: u16) -> (v: u16)
    ensures
        v == low16((n + more) as nat),
{
    truncate16(n).wrapping_add(more)
}

pub fn truncate32(n: usize) -> (v: u32)
    ensures
        v == low32(n as nat),
{
    let wide: u64 = n as u64;
    (wide % 0x1_0000_0000u64) as u32
}

/// The low 32 bits of a length and a few bytes more.
pub fn truncate32_plus(n: usize, more: u32) -> (v: u32)
    ensures
        v == low32((n + more) as nat),
{
    truncate32(n).wrapping_add(more)
}

pub fn push_u16_le(out: &mut Vec<u8>, v: u16)
    ensures
        final(out)@ == old(out)@ + le16(v),
{
    out.push((v % 256) as u8);
    out.push((v / 256) as u8);
    assert(out@ =~= old(out)@ + le16(v));
}

pub fn push_u32_le(out: &mut Vec<u8>, v: u32)
    ensures
        final(out)@ == old(out)@ + le32(v),
{
    out.push((v % 256) as u8);
    out.push((v / 256 % 256) as u8);
    out.push((v / 0x1_0000 % 256) as u8);
    out.push((v / 0x100_0000) as u8);
    assert(out@ =~= old(out)@ + le32(v));
}

pub fn push_u32_be(out: &mut Vec<u8>, v: u32)
    ensures
        final(out)@ == old(out)@ + be32(v),
{
    out.push((v / 0x100_0000) as u8);
    out.push((v / 0x1_0000 % 256) as u8);
    out.push((v / 256 % 256) as u8);
    out.push((v % 256) as u8);
    assert(out@ =~= old(out)@ + be32(v));
}

pub fn push_bytes(out: &mut Vec<u8>, bytes: &[u8])
    ensures
        final(out)@ == old(out)@ + bytes@,
{
    out.extend_from_slice(bytes);
    assert(out@ =~= old(out)@ + bytes@);
}

pub fn read_u16_at(s: &[u8], at: usize) -> (v: u16)
    requires
        at + 2 <= s@.len(),
    ensures
        v == u16_at(s@, at as int),
{
    s[at] as u16 + 256 * (s[at + 1] as u16)
}

pub fn read_u32_at(s: &[u8], at: usize) -> (v: u32)
    requires
        at + 4 <= s@.len(),
    ensures
        v == u32_at(s@, at as int),
{
    s[at] as u32 + 256 * (s[at + 1] as u32) + 0x1_0000 * (s[at + 2] as u32) + 0x100_0000 * (
    s[at + 3] as u32)
}

} // verus!

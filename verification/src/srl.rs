//! SRL (Simplified Run-Length) entropy codec for progressive upgrade passes.
//!
//! The codec carries the magnitudes of coefficients that were zero so far. An
//! adaptive parameter `kp` sets the length of a zero run, `1 << (kp / 8)`; a
//! magnitude follows an escape bit and its sign bit.
use vstd::prelude::*;
use crate::bits;
use crate::bits::{BitReader, BitWriter};

verus! {

/// The number of zeros that one run bit stands for.
pub open spec fn run_length(kp: nat) -> nat {
    vstd::arithmetic::power2::pow2(kp / 8)
}

/// The run parameter after a full run of zeros.
pub open spec fn raised(kp: nat) -> nat {
    if kp + 4 <= 80 {
        kp + 4
    } else {
        80
    }
}

/// The run parameter after a magnitude.
pub open spec fn lowered(kp: nat) -> nat {
    if kp >= 6 {
        (kp - 6) as nat
    } else {
        0
    }
}

/// The largest magnitude a coefficient holds.
pub const MAX_MAGNITUDE: u32 = 0x7FFF;

/// The most zero bits a quotient is counted over.
pub const MAX_QUOTIENT: u32 = 0x8000;

pub open spec fn signed(negative: bool, magnitude: nat) -> i16 {
    let m = if magnitude <= MAX_MAGNITUDE {
        magnitude as int
    } else {
        MAX_MAGNITUDE as int
    };
    (if negative {
        -m
    } else {
        m
    }) as i16
}

/// What a decoder holds between two values: the unread bits, the run parameter
/// and the zeros still owed from a run.
pub struct DecoderState {
    pub rest: Seq<bool>,
    pub kp: nat,
    pub nz: nat,
}

/// A unary quotient: the zero bits before the next one bit, counted on from `q`.
pub open spec fn quotient(s: Seq<bool>, q: nat) -> (nat, Seq<bool>)
    decreases MAX_QUOTIENT - q,
{
    if bits::next_bit(s) || q >= MAX_QUOTIENT {
        (q, bits::drop_bits(s, 1))
    } else {
        quotient(bits::drop_bits(s, 1), q + 1)
    }
}

/// A magnitude of `num_bits` bits: a unary quotient followed by the low
/// `num_bits - 1` bits. With at most one bit it is always 1, and takes no bits.
pub open spec fn magnitude(s: Seq<bool>, num_bits: nat) -> (nat, Seq<bool>) {
    if num_bits <= 1 {
        (1, s)
    } else {
        let (q, rest) = quotient(s, 0);
        let extra = (num_bits - 1) as nat;
        if extra < 16 {
            (
                q * vstd::arithmetic::power2::pow2(extra) + bits::bits_value(
                    bits::first_bits(rest, extra),
                ),
                bits::drop_bits(rest, extra as int),
            )
        } else {
            (q, rest)
        }
    }
}

/// The next value of a stream, and the state after it.
pub open spec fn decode_next(st: DecoderState, num_bits: nat) -> (i16, DecoderState) {
    let k = st.kp / 8;
    let after_flag = bits::drop_bits(st.rest, 1);
    let zeros = bits::bits_value(bits::first_bits(after_flag, k));
    let after_count = bits::drop_bits(after_flag, k as int);
    if st.nz > 0 {
        (0, DecoderState { nz: (st.nz - 1) as nat, ..st })
    } else if !bits::next_bit(st.rest) {
        (0, DecoderState { rest: after_flag, kp: raised(st.kp), nz: (run_length(st.kp) - 1) as nat })
    } else if zeros > 0 {
        (0, DecoderState { rest: after_count, kp: st.kp, nz: (zeros - 1) as nat })
    } else {
        let (m, rest) = magnitude(bits::drop_bits(after_count, 1), num_bits);
        (
            signed(bits::next_bit(after_count), m),
            DecoderState { rest, kp: lowered(st.kp), nz: 0 },
        )
    }
}

/// The next `n` values of a stream.
pub open spec fn decode_values(st: DecoderState, n: nat, num_bits: nat) -> Seq<i16>
    decreases n,
{
    if n == 0 {
        Seq::empty()
    } else {
        let (v, next) = decode_next(st, num_bits);
        seq![v] + decode_values(next, (n - 1) as nat, num_bits)
    }
}

/// The state at the start of a stream.
pub open spec fn decoder_start(s: Seq<bool>) -> DecoderState {
    DecoderState { rest: s, kp: 0, nz: 0 }
}

/// The `n` values that `data` holds.
pub open spec fn decoded(data: Seq<u8>, n: nat, num_bits: nat) -> Seq<i16> {
    decode_values(decoder_start(bits::bits_of(data)), n, num_bits)
}

proof fn lemma_run_length_bound(kp: nat)
    requires
        kp <= 80,
    ensures
        1 <= run_length(kp) <= 1024,
{
    vstd::arithmetic::power2::lemma_pow2_pos(kp / 8);
    vstd::arithmetic::power2::lemma2_to64();
    if kp / 8 < 10 {
        vstd::arithmetic::power2::lemma_pow2_strictly_increases(kp / 8, 10);
    }
}

proof fn lemma_bits_value_bound(s: Seq<bool>)
    ensures
        bits::bits_value(s) < vstd::arithmetic::power2::pow2(s.len()),
    decreases s.len(),
{
    vstd::arithmetic::power2::lemma2_to64();
    if s.len() > 0 {
        lemma_bits_value_bound(s.drop_last());
        vstd::arithmetic::power2::lemma_pow2_unfold(s.len());
    }
}

/// A `k`-bit field of at most 31 bits fits in 31 bits.
proof fn lemma_field_bound(s: Seq<bool>, k: nat)
    requires
        k <= 31,
    ensures
        bits::bits_value(bits::first_bits(s, k)) < 0x8000_0000,
        bits::bits_value(bits::first_bits(s, k)) < vstd::arithmetic::power2::pow2(k),
{
    lemma_bits_value_bound(bits::first_bits(s, k));
    vstd::arithmetic::power2::lemma2_to64();
    if k < 31 {
        vstd::arithmetic::power2::lemma_pow2_strictly_increases(k, 31);
    }
}

/// `1 << k` for a shift that fits.
fn power_of_two(k: u32) -> (r: u32)
    requires
        k < 32,
    ensures
        r == vstd::arithmetic::power2::pow2(k as nat),
        r >= 1,
{
    proof {
        vstd::arithmetic::power2::lemma2_to64();
        vstd::arithmetic::power2::lemma_pow2_pos(k as nat);
        if k < 31 {
            vstd::arithmetic::power2::lemma_pow2_strictly_increases(k as nat, 31);
        }
        vstd::bits::lemma_u32_shl_is_mul(1, k);
    }
    1u32 << k
}

proof fn lemma_quotient_bound(s: Seq<bool>, q: nat)
    requires
        q <= MAX_QUOTIENT,
    ensures
        q <= quotient(s, q).0 <= MAX_QUOTIENT,
    decreases MAX_QUOTIENT - q,
{
    if !(bits::next_bit(s) || q >= MAX_QUOTIENT) {
        lemma_quotient_bound(bits::drop_bits(s, 1), q + 1);
    }
}

fn read_quotient(reader: &mut BitReader<'_>) -> (q: u32)
    ensures
        (q as nat, final(reader)@) == quotient(old(reader)@, 0),
        q <= MAX_QUOTIENT,
{
    let mut q: u32 = 0;
    loop
        invariant
            q <= MAX_QUOTIENT,
            quotient(reader@, q as nat) == quotient(old(reader)@, 0),
        decreases MAX_QUOTIENT - q,
    {
        let bit = reader.read_bit();
        if bit || q >= MAX_QUOTIENT {
            return q;
        }
        q = q + 1;
    }
}

fn read_magnitude(reader: &mut BitReader<'_>, num_bits: u8) -> (m: u32)
    ensures
        (m as nat, final(reader)@) == magnitude(old(reader)@, num_bits as nat),
{
    if num_bits <= 1 {
        return 1;
    }
    let q: u32 = read_quotient(reader);
    let extra: u32 = num_bits as u32 - 1;
    if extra < 16 {
        let scale: u32 = power_of_two(extra);
        let ghost rest = reader@;
        proof {
            lemma_field_bound(rest, extra as nat);
            vstd::arithmetic::power2::lemma2_to64();
            vstd::arithmetic::power2::lemma_pow2_strictly_increases(extra as nat, 16);
            assert(q * scale <= 0x8000 * 0x1_0000) by (nonlinear_arith)
                requires
                    q <= 0x8000,
                    scale <= 0x1_0000,
            ;
        }
        let remainder: u32 = reader.read_bits(extra);
        q * scale + remainder
    } else {
        q
    }
}

fn to_signed(negative: bool, m: u32) -> (v: i16)
    ensures
        v == signed(negative, m as nat),
{
    let m: u32 = if m > MAX_MAGNITUDE { MAX_MAGNITUDE } else { m };
    if negative {
        -(m as i16)
    } else {
        m as i16
    }
}

/// A stream with no bits left holds only zeros.
pub proof fn decode_past_end(st: DecoderState, n: nat, num_bits: nat)
    requires
        st.rest.len() == 0,
    ensures
        decode_values(st, n, num_bits) == Seq::new(n, |i: int| 0i16),
    decreases n,
{
    if n > 0 {
        let (v, next) = decode_next(st, num_bits);
        assert(bits::drop_bits(st.rest, 1).len() == 0);
        decode_past_end(next, (n - 1) as nat, num_bits);
    }
    assert(decode_values(st, n, num_bits) =~= Seq::new(n, |i: int| 0i16));
}

/// Decodes `num_values` coefficients from the SRL stream `data`, whose
/// magnitudes are `num_bits` wide. A zero entry means that the coefficient
/// stays zero in this pass; past its end the stream reads as zero bits.
pub fn decode_srl(data: &[u8], num_values: usize, num_bits: u8) -> (output: Vec<i16>)
    ensures
        output@ == decoded(data@, num_values as nat, num_bits as nat),
{
    let mut output: Vec<i16> = Vec::new();
    let mut reader = BitReader::new(data);
    let mut kp: u32 = 0;
    let mut nz: u32 = 0;
    let ghost all = decoded(data@, num_values as nat, num_bits as nat);
    proof {
        assert(output@ + all =~= all);
    }
    while output.len() < num_values
        invariant
            output@.len() <= num_values,
            kp <= 80,
            all == output@ + decode_values(
                (DecoderState { rest: reader@, kp: kp as nat, nz: nz as nat }),
                (num_values - output@.len()) as nat,
                num_bits as nat,
            ),
        decreases num_values - output@.len(),
    {
        let ghost st = DecoderState { rest: reader@, kp: kp as nat, nz: nz as nat };
        let ghost before = output@;
        let k: u32 = kp >> 3;
        assert(k == kp / 8) by (bit_vector)
            requires
                k == kp >> 3,
        ;
        let value: i16;
        if nz > 0 {
            // Still emitting zeros of a run.
            nz = nz - 1;
            value = 0;
        } else if !reader.read_bit() {
            proof {
                lemma_run_length_bound(kp as nat);
            }
            nz = power_of_two(k) - 1;
            kp = if kp + 4 <= 80 { kp + 4 } else { 80 };
            value = 0;
        } else {
            proof {
                lemma_field_bound(reader@, k as nat);
            }
            let zeros: u32 = reader.read_bits(k);
            if zeros > 0 {
                nz = zeros - 1;
                value = 0;
            } else {
                kp = if kp >= 6 { kp - 6 } else { 0 };
                let negative = reader.read_bit();
                let m: u32 = read_magnitude(&mut reader, num_bits);
                value = to_signed(negative, m);
            }
        }
        proof {
            let (v, next) = decode_next(st, num_bits as nat);
            assert(v == value);
            assert(next == (DecoderState { rest: reader@, kp: kp as nat, nz: nz as nat }));
        }
        output.push(value);
        proof {
            let n = (num_values - before.len()) as nat;
            let (v, next) = decode_next(st, num_bits as nat);
            let tail = decode_values(next, (n - 1) as nat, num_bits as nat);
            assert(before + (seq![v] + tail) =~= before.push(value) + tail);
        }
    }
    assert(output@ =~= all);
    output
}

/// What a [`SrlReader`] holds between two values. `mode` says that an escape was
/// read and the next value, once the zeros owed are out, is a magnitude.
pub struct ReaderState {
    pub rest: Seq<bool>,
    pub kp: nat,
    pub nz: nat,
    pub mode: bool,
}

/// The largest magnitude that `num_bits` bits hold, `num_bits` counted up to 16.
pub open spec fn magnitude_limit(num_bits: nat) -> nat {
    let b = if num_bits <= 16 {
        num_bits
    } else {
        16
    };
    (vstd::arithmetic::power2::pow2(b) - 1) as nat
}

/// A truncated unary magnitude: counted up from `m` over zero bits, ended by a
/// one bit or on reaching `limit`.
pub open spec fn unary_magnitude(s: Seq<bool>, m: nat, limit: nat) -> (nat, Seq<bool>)
    decreases limit - m,
{
    if m >= limit {
        (m, s)
    } else if bits::next_bit(s) {
        (m, bits::drop_bits(s, 1))
    } else {
        unary_magnitude(bits::drop_bits(s, 1), m + 1, limit)
    }
}

/// The signed magnitude at the head of `s`, and what follows it.
pub open spec fn reader_magnitude(s: Seq<bool>, num_bits: nat) -> (i16, Seq<bool>) {
    let after_sign = bits::drop_bits(s, 1);
    if num_bits <= 1 {
        (signed(bits::next_bit(s), 1), after_sign)
    } else {
        let (m, rest) = unary_magnitude(after_sign, 1, magnitude_limit(num_bits));
        (signed(bits::next_bit(s), m), rest)
    }
}

/// The next value of a threaded stream, and the state after it.
pub open spec fn read_next(st: ReaderState, num_bits: nat) -> (i16, ReaderState) {
    let k = st.kp / 8;
    let after_flag = bits::drop_bits(st.rest, 1);
    let zeros = bits::bits_value(bits::first_bits(after_flag, k));
    let after_count = bits::drop_bits(after_flag, k as int);
    if st.nz > 0 {
        (0, ReaderState { nz: (st.nz - 1) as nat, ..st })
    } else if !st.mode && !bits::next_bit(st.rest) {
        (
            0,
            ReaderState {
                rest: after_flag,
                kp: raised(st.kp),
                nz: (run_length(st.kp) - 1) as nat,
                mode: false,
            },
        )
    } else if !st.mode && zeros > 0 {
        (0, ReaderState { rest: after_count, kp: st.kp, nz: (zeros - 1) as nat, mode: true })
    } else {
        let (v, rest) = reader_magnitude(
            if st.mode {
                st.rest
            } else {
                after_count
            },
            num_bits,
        );
        (v, ReaderState { rest, kp: lowered(st.kp), nz: 0, mode: false })
    }
}

/// The state of a reader at the start of a stream.
pub open spec fn reader_start(s: Seq<bool>) -> ReaderState {
    ReaderState { rest: s, kp: 8, nz: 0, mode: false }
}

/// The values read with the widths `widths` one after the other.
pub open spec fn read_values(st: ReaderState, widths: Seq<u8>) -> Seq<i16>
    decreases widths.len(),
{
    if widths.len() == 0 {
        Seq::empty()
    } else {
        let (v, next) = read_next(st, widths[0] as nat);
        seq![v] + read_values(next, widths.skip(1))
    }
}

/// The state after the values read with the widths `widths`.
pub open spec fn state_after(st: ReaderState, widths: Seq<u8>) -> ReaderState
    decreases widths.len(),
{
    if widths.len() == 0 {
        st
    } else {
        state_after(read_next(st, widths[0] as nat).1, widths.skip(1))
    }
}

/// Reading one band and then the next gives what reading both in one go gives: bit
/// position, run parameter and a run of zeros carry over a band boundary.
pub proof fn bands_share_one_stream(st: ReaderState, first: Seq<u8>, second: Seq<u8>)
    ensures
        read_values(st, first + second) == read_values(st, first) + read_values(
            state_after(st, first),
            second,
        ),
        state_after(st, first + second) == state_after(state_after(st, first), second),
    decreases first.len(),
{
    if first.len() == 0 {
        assert(first + second =~= second);
        assert(read_values(st, first) + read_values(st, second) =~= read_values(st, second));
    } else {
        let (v, next) = read_next(st, first[0] as nat);
        assert((first + second).skip(1) =~= first.skip(1) + second);
        bands_share_one_stream(next, first.skip(1), second);
        assert(read_values(st, first + second) =~= read_values(st, first) + read_values(
            state_after(st, first),
            second,
        ));
    }
}

proof fn lemma_unary_magnitude_bound(s: Seq<bool>, m: nat, limit: nat)
    requires
        1 <= m,
        m <= limit,
    ensures
        m <= unary_magnitude(s, m, limit).0 <= limit,
    decreases limit - m,
{
    if m < limit && !bits::next_bit(s) {
        lemma_unary_magnitude_bound(bits::drop_bits(s, 1), m + 1, limit);
    }
}

proof fn lemma_magnitude_limit(num_bits: nat)
    requires
        2 <= num_bits,
    ensures
        3 <= magnitude_limit(num_bits) <= 0xFFFF,
{
    let b = if num_bits <= 16 {
        num_bits
    } else {
        16
    };
    vstd::arithmetic::power2::lemma2_to64();
    if b > 2 {
        vstd::arithmetic::power2::lemma_pow2_strictly_increases(2, b);
    }
    if b < 16 {
        vstd::arithmetic::power2::lemma_pow2_strictly_increases(b, 16);
    }
}

/// The width of a band decides how far a magnitude counts, and nothing else of the
/// same step: whether a zero comes out, its sign, the run parameter, the zeros owed
/// and the mode do not depend on it.
pub proof fn width_leaves_runs_alone(st: ReaderState, a: nat, b: nat)
    ensures
        ({
            let (va, na) = read_next(st, a);
            let (vb, nb) = read_next(st, b);
            &&& (va == 0) == (vb == 0)
            &&& (va < 0) == (vb < 0)
            &&& na.kp == nb.kp
            &&& na.nz == nb.nz
            &&& na.mode == nb.mode
        }),
{
    let after_flag = bits::drop_bits(st.rest, 1);
    let after_count = bits::drop_bits(after_flag, (st.kp / 8) as int);
    let s = if st.mode {
        st.rest
    } else {
        after_count
    };
    lemma_reader_magnitude_sign(s, a);
    lemma_reader_magnitude_sign(s, b);
}

proof fn lemma_reader_magnitude_sign(s: Seq<bool>, num_bits: nat)
    ensures
        reader_magnitude(s, num_bits).0 != 0,
        (reader_magnitude(s, num_bits).0 < 0) == bits::next_bit(s),
{
    if num_bits > 1 {
        lemma_magnitude_limit(num_bits);
        lemma_unary_magnitude_bound(
            bits::drop_bits(s, 1),
            1,
            magnitude_limit(num_bits),
        );
    }
}

/// A decoder that carries its bit position and its run state from value to value.
///
/// A component of a progressive upgrade holds one SRL stream for all its bands, and
/// a run of zeros may cross from one band into the next; so one reader serves the
/// whole component, and the magnitude width, which differs between bands, comes
/// with each call.
pub struct SrlReader<'a> {
    reader: BitReader<'a>,
    kp: u32,
    nz: u32,
    mode: bool,
}

impl<'a> View for SrlReader<'a> {
    type V = ReaderState;

    closed spec fn view(&self) -> ReaderState {
        ReaderState { rest: self.reader@, kp: self.kp as nat, nz: self.nz as nat, mode: self.mode }
    }
}

fn read_unary_magnitude(reader: &mut BitReader<'_>, limit: u32) -> (m: u32)
    requires
        1 <= limit,
    ensures
        (m as nat, final(reader)@) == unary_magnitude(old(reader)@, 1, limit as nat),
{
    let mut m: u32 = 1;
    while m < limit
        invariant
            m <= limit,
            unary_magnitude(reader@, m as nat, limit as nat) == unary_magnitude(
                old(reader)@,
                1,
                limit as nat,
            ),
        decreases limit - m,
    {
        if reader.read_bit() {
            return m;
        }
        m = m + 1;
    }
    m
}

impl<'a> SrlReader<'a> {
    #[verifier::type_invariant]
    spec fn well_formed(self) -> bool {
        self.kp <= 80
    }

    /// A reader at the start of `data`. The run parameter starts at 8, so that the
    /// first run is two zeros long.
    pub fn new(data: &'a [u8]) -> (r: Self)
        ensures
            r@ == reader_start(bits::bits_of(data@)),
    {
        SrlReader { reader: BitReader::new(data), kp: 8, nz: 0, mode: false }
    }

    /// Decodes one signed coefficient of a band whose magnitudes are `num_bits`
    /// wide. A zero means that the coefficient stays zero in this pass.
    pub fn next_value(&mut self, num_bits: u8) -> (value: i16)
        ensures
            (value, final(self)@) == read_next(old(self)@, num_bits as nat),
    {
        proof {
            use_type_invariant(&*self);
            lemma_run_length_bound(self.kp as nat);
        }
        if self.nz > 0 {
            self.nz = self.nz - 1;
            return 0;
        }
        let kp: u32 = self.kp;
        let k: u32 = kp >> 3;
        assert(k == kp / 8) by (bit_vector)
            requires
                k == kp >> 3,
        ;
        let mut reader = self.reader;
        if !self.mode {
            if !reader.read_bit() {
                // A full run: emit its first zero, owe the rest.
                self.reader = reader;
                self.nz = power_of_two(k) - 1;
                self.kp = if kp + 4 <= 80 { kp + 4 } else { 80 };
                return 0;
            }
            // Escape: a short run of zeros, then a magnitude.
            proof {
                lemma_field_bound(reader@, k as nat);
            }
            let zeros: u32 = reader.read_bits(k);
            if zeros > 0 {
                self.reader = reader;
                self.mode = true;
                self.nz = zeros - 1;
                return 0;
            }
        }
        self.mode = false;
        self.kp = if kp >= 6 { kp - 6 } else { 0 };
        let negative = reader.read_bit();
        let m: u32 = if num_bits <= 1 {
            1
        } else {
            proof {
                lemma_magnitude_limit(num_bits as nat);
            }
            let width: u32 = if num_bits <= 16 { num_bits as u32 } else { 16 };
            let limit: u32 = power_of_two(width) - 1;
            read_unary_magnitude(&mut reader, limit)
        };
        self.reader = reader;
        to_signed(negative, m)
    }
}

/// The zeros at the head of `values`.
pub open spec fn leading_zeros(values: Seq<i16>) -> nat
    decreases values.len(),
{
    if values.len() == 0 || values[0] != 0 {
        0
    } else {
        1 + leading_zeros(values.skip(1))
    }
}

/// The code of `z` zeros, and the run parameter after it: a zero bit for each full
/// run, then for what is left an escape bit and its count.
pub open spec fn zero_run(z: nat, kp: nat) -> (Seq<bool>, nat)
    decreases z,
{
    if z == 0 {
        (Seq::empty(), kp)
    } else if z >= run_length(kp) {
        proof {
            vstd::arithmetic::power2::lemma_pow2_pos(kp / 8);
        }
        let (code, end) = zero_run((z - run_length(kp)) as nat, raised(kp));
        (seq![false] + code, end)
    } else {
        (seq![true] + bits::number_bits(z, kp / 8), kp)
    }
}

/// The escape that ends a run of zeros: no zeros are left.
pub open spec fn escape(kp: nat) -> Seq<bool> {
    seq![true] + bits::number_bits(0, kp / 8)
}

pub open spec fn magnitude_of(v: i16) -> nat {
    if v < 0 {
        (-v) as nat
    } else {
        v as nat
    }
}

/// The code of a value other than zero: its sign, then from two bits of width on a
/// unary quotient with its end bit and the low bits. A width over 16 codes the
/// sign alone.
pub open spec fn value_code(v: i16, num_bits: nat) -> Seq<bool> {
    let extra = (num_bits - 1) as nat;
    if 2 <= num_bits <= 16 {
        seq![v < 0] + bits::zero_bits(magnitude_of(v) / vstd::arithmetic::power2::pow2(extra))
            + seq![true] + bits::number_bits(magnitude_of(v), extra)
    } else {
        seq![v < 0]
    }
}

/// The code of `values` from the run parameter `kp` on.
pub open spec fn encode_values(values: Seq<i16>, kp: nat, num_bits: nat) -> Seq<bool>
    decreases values.len(),
{
    let z = leading_zeros(values);
    let (run, end) = zero_run(z, kp);
    if values.len() == 0 {
        Seq::empty()
    } else if z >= values.len() {
        run + escape(end)
    } else {
        run + escape(end) + value_code(values[z as int], num_bits) + encode_values(
            values.skip(z as int + 1),
            lowered(end),
            num_bits,
        )
    }
}

/// `data` is the SRL stream of `values`: their code, filled up with zero bits to a
/// whole byte, and a zero byte at the end.
pub open spec fn is_encoding(data: Seq<u8>, values: Seq<i16>, num_bits: nat) -> bool {
    let code = encode_values(values, 0, num_bits);
    &&& data.len() > 0
    &&& data.last() == 0
    &&& bits::bits_of(data.drop_last()) == code + bits::zero_bits(
        ((8 - code.len() % 8) % 8) as nat,
    )
}

proof fn lemma_leading_zeros(values: Seq<i16>)
    ensures
        leading_zeros(values) <= values.len(),
        forall|i: int| 0 <= i < leading_zeros(values) ==> values[i] == 0,
        leading_zeros(values) < values.len() ==> values[leading_zeros(values) as int] != 0,
    decreases values.len(),
{
    if values.len() > 0 && values[0] == 0 {
        let rest = values.skip(1);
        lemma_leading_zeros(rest);
        assert forall|i: int| 0 <= i < leading_zeros(values) implies values[i] == 0 by {
            if i > 0 {
                assert(rest[i - 1] == 0);
            }
        }
    }
}

proof fn lemma_leading_zeros_unique(values: Seq<i16>, z: nat)
    requires
        z <= values.len(),
        forall|i: int| 0 <= i < z ==> values[i] == 0,
        z < values.len() ==> values[z as int] != 0,
    ensures
        z == leading_zeros(values),
{
    lemma_leading_zeros(values);
    let l = leading_zeros(values);
    if l < z {
        assert(values[l as int] == 0);
    } else if z < l {
        assert(values[z as int] == 0);
    }
}

fn write_zero_run(writer: &mut BitWriter, z: usize, kp: u32) -> (end: u32)
    requires
        kp <= 80,
    ensures
        final(writer)@ == old(writer)@ + zero_run(z as nat, kp as nat).0,
        end == zero_run(z as nat, kp as nat).1,
        end <= 80,
{
    let mut left: usize = z;
    let mut p: u32 = kp;
    let ghost (code, end) = zero_run(z as nat, kp as nat);
    while left > 0
        invariant
            p <= 80,
            (code, end) == zero_run(z as nat, kp as nat),
            writer@ + zero_run(left as nat, p as nat).0 == old(writer)@ + code,
            zero_run(left as nat, p as nat).1 == end,
        decreases left,
    {
        let ghost before = writer@;
        let ghost here = zero_run(left as nat, p as nat);
        let k: u32 = p >> 3;
        assert(k == p / 8) by (bit_vector)
            requires
                k == p >> 3,
        ;
        proof {
            lemma_run_length_bound(p as nat);
        }
        let chunk: usize = power_of_two(k) as usize;
        if left >= chunk {
            writer.write_bit(false);
            left = left - chunk;
            p = if p + 4 <= 80 { p + 4 } else { 80 };
            assert(before.push(false) + zero_run(left as nat, p as nat).0 =~= before + here.0);
        } else {
            writer.write_bit(true);
            writer.write_bits(left as u32, k);
            left = 0;
            assert(writer@ + zero_run(0, p as nat).0 =~= before + here.0);
        }
    }
    assert(writer@ + zero_run(0, p as nat).0 =~= writer@);
    p
}

fn write_value(writer: &mut BitWriter, value: i16, num_bits: u8)
    ensures
        final(writer)@ == old(writer)@ + value_code(value, num_bits as nat),
{
    let m: u32 = if value < 0 { (-(value as i32)) as u32 } else { value as u32 };
    assert(m == magnitude_of(value));
    writer.write_bit(value < 0);
    if 2 <= num_bits && num_bits <= 16 {
        let extra: u32 = num_bits as u32 - 1;
        let q: u32 = m / power_of_two(extra);
        let mut i: u32 = 0;
        let ghost start = writer@;
        assert(start + bits::zero_bits(0) =~= start);
        while i < q
            invariant
                i <= q,
                writer@ == start + bits::zero_bits(i as nat),
            decreases q - i,
        {
            writer.write_bit(false);
            i = i + 1;
            assert(writer@ =~= start + bits::zero_bits(i as nat));
        }
        writer.write_bit(true);
        writer.write_bits(m, extra);
    }
    assert(writer@ =~= old(writer)@ + value_code(value, num_bits as nat));
}

/// Encodes coefficients as an SRL stream: values other than zero with magnitudes
/// `num_bits` wide, zeros as runs. The stream ends with a zero byte.
pub fn encode_srl(values: &[i16], num_bits: u8) -> (data: Vec<u8>)
    ensures
        is_encoding(data@, values@, num_bits as nat),
{
    let mut writer = BitWriter::new();
    let mut kp: u32 = 0;
    let mut idx: usize = 0;
    let n: usize = values.len();
    let ghost code = encode_values(values@, 0, num_bits as nat);
    proof {
        assert(values@.skip(0) =~= values@);
        assert(writer@ + code =~= code);
    }
    while idx < n
        invariant
            idx <= n == values@.len(),
            kp <= 80,
            code == writer@ + encode_values(values@.skip(idx as int), kp as nat, num_bits as nat),
        decreases n - idx,
    {
        let ghost before = writer@;
        let ghost here = values@.skip(idx as int);
        let ghost run = zero_run(leading_zeros(here), kp as nat);
        let mut z: usize = 0;
        while idx + z < n && values[idx + z] == 0
            invariant
                idx + z <= n == values@.len(),
                here == values@.skip(idx as int),
                forall|i: int| 0 <= i < z ==> here[i] == 0,
            decreases n - idx - z,
        {
            z = z + 1;
        }
        proof {
            lemma_leading_zeros_unique(here, z as nat);
        }
        kp = write_zero_run(&mut writer, z, kp);
        // No zeros are left.
        let k: u32 = kp >> 3;
        assert(k == kp / 8) by (bit_vector)
            requires
                k == kp >> 3,
        ;
        writer.write_bit(true);
        writer.write_bits(0, k);
        assert(writer@ =~= before + run.0 + escape(kp as nat));
        idx = idx + z;
        if idx < n {
            kp = if kp >= 6 { kp - 6 } else { 0 };
            write_value(&mut writer, values[idx], num_bits);
            idx = idx + 1;
            proof {
                assert(here.skip(z + 1) =~= values@.skip(idx as int));
                assert(code =~= writer@ + encode_values(
                    values@.skip(idx as int),
                    kp as nat,
                    num_bits as nat,
                ));
            }
        } else {
            proof {
                assert(values@.skip(idx as int).len() == 0);
                assert(code =~= writer@ + encode_values(
                    values@.skip(idx as int),
                    kp as nat,
                    num_bits as nat,
                ));
            }
        }
    }
    assert(writer@ =~= code) by {
        assert(values@.skip(idx as int).len() == 0);
    }
    let mut data: Vec<u8> = writer.finish();
    let ghost body = data@;
    data.push(0);
    assert(data@.drop_last() =~= body);
    data
}

/// `v` can be told from its code with magnitudes `num_bits` wide.
pub open spec fn representable(v: i16, num_bits: nat) -> bool {
    ||| v == 0
    ||| num_bits <= 1 && (v == 1 || v == -1)
    ||| 2 <= num_bits <= 16 && v != i16::MIN
}

pub open spec fn zeros(n: nat) -> Seq<i16> {
    Seq::new(n, |i: int| 0i16)
}

proof fn lemma_owed_zeros(st: DecoderState, n: nat, num_bits: nat)
    requires
        st.nz <= n,
    ensures
        decode_values(st, n, num_bits) == zeros(st.nz) + decode_values(
            DecoderState { nz: 0, ..st },
            (n - st.nz) as nat,
            num_bits,
        ),
    decreases st.nz,
{
    if st.nz > 0 {
        lemma_owed_zeros(
            DecoderState { nz: (st.nz - 1) as nat, ..st },
            (n - 1) as nat,
            num_bits,
        );
    }
    assert(decode_values(st, n, num_bits) =~= zeros(st.nz) + decode_values(
        DecoderState { nz: 0, ..st },
        (n - st.nz) as nat,
        num_bits,
    ));
}

proof fn lemma_zero_run_decodes(z: nat, kp: nat, tail: Seq<bool>, m: nat, num_bits: nat)
    requires
        kp <= 80,
    ensures
        zero_run(z, kp).1 <= 80,
        decode_values(
            DecoderState { rest: zero_run(z, kp).0 + tail, kp, nz: 0 },
            z + m,
            num_bits,
        ) == zeros(z) + decode_values(
            DecoderState { rest: tail, kp: zero_run(z, kp).1, nz: 0 },
            m,
            num_bits,
        ),
    decreases z,
{
    let (code, end) = zero_run(z, kp);
    let st = DecoderState { rest: code + tail, kp, nz: 0 };
    let last = decode_values(DecoderState { rest: tail, kp: end, nz: 0 }, m, num_bits);
    if z == 0 {
        assert(code + tail =~= tail);
        assert(zeros(0) + last =~= last);
    } else if z >= run_length(kp) {
        lemma_run_length_bound(kp);
        let r = run_length(kp);
        let (rest_code, _) = zero_run((z - r) as nat, raised(kp));
        lemma_zero_run_decodes((z - r) as nat, raised(kp), tail, m, num_bits);
        let next = DecoderState { rest: rest_code + tail, kp: raised(kp), nz: (r - 1) as nat };
        assert(bits::drop_bits(code + tail, 1) =~= rest_code + tail);
        assert(decode_next(st, num_bits) == (0i16, next));
        lemma_owed_zeros(next, (z + m - 1) as nat, num_bits);
        assert(decode_values(st, z + m, num_bits) =~= zeros(z) + last);
    } else {
        let k = kp / 8;
        bits::number_bits_value(z, k);
        vstd::arithmetic::div_mod::lemma_small_mod(z, run_length(kp));
        let field = bits::number_bits(z, k);
        assert(bits::drop_bits(code + tail, 1) =~= field + tail);
        bits::first_bits_of_prefix(field, tail);
        let next = DecoderState { rest: tail, kp, nz: (z - 1) as nat };
        assert(decode_next(st, num_bits) == (0i16, next));
        lemma_owed_zeros(next, (z + m - 1) as nat, num_bits);
        assert(decode_values(st, z + m, num_bits) =~= zeros(z) + last);
    }
}

proof fn lemma_quotient_decodes(j: nat, q: nat, tail: Seq<bool>)
    requires
        q + j <= MAX_QUOTIENT,
    ensures
        quotient(bits::zero_bits(j) + seq![true] + tail, q) == (q + j, tail),
    decreases j,
{
    let s = bits::zero_bits(j) + seq![true] + tail;
    if j == 0 {
        assert(bits::drop_bits(s, 1) =~= tail);
    } else {
        assert(bits::drop_bits(s, 1) =~= bits::zero_bits((j - 1) as nat) + seq![true] + tail);
        lemma_quotient_decodes((j - 1) as nat, q + 1, tail);
    }
}

proof fn lemma_magnitude_decodes(v: i16, num_bits: nat, tail: Seq<bool>)
    requires
        v != 0,
        representable(v, num_bits),
    ensures
        magnitude(bits::drop_bits(value_code(v, num_bits) + tail, 1), num_bits) == (
            magnitude_of(v),
            tail,
        ),
        bits::next_bit(value_code(v, num_bits) + tail) == (v < 0),
{
    let s = value_code(v, num_bits) + tail;
    let after_sign = bits::drop_bits(s, 1);
    if num_bits <= 1 {
        assert(after_sign =~= tail);
    } else {
        let extra = (num_bits - 1) as nat;
        let p = vstd::arithmetic::power2::pow2(extra);
        let m = magnitude_of(v);
        let q = m / p;
        let low = bits::number_bits(m, extra);
        vstd::arithmetic::power2::lemma_pow2_pos(extra);
        assert(q <= m) by (nonlinear_arith)
            requires
                q == m / p,
                p >= 1,
        ;
        assert(after_sign =~= bits::zero_bits(q) + seq![true] + (low + tail));
        lemma_quotient_decodes(q, 0, low + tail);
        bits::first_bits_of_prefix(low, tail);
        bits::number_bits_value(m, extra);
        vstd::arithmetic::div_mod::lemma_fundamental_div_mod(m as int, p as int);
        assert(q * p + m % p == m) by (nonlinear_arith)
            requires
                m == p * (m / p) + m % p,
                q == m / p,
        ;
    }
}

proof fn lemma_value_decodes(v: i16, kp: nat, tail: Seq<bool>, m: nat, num_bits: nat)
    requires
        v != 0,
        representable(v, num_bits),
    ensures
        decode_values(
            DecoderState { rest: escape(kp) + value_code(v, num_bits) + tail, kp, nz: 0 },
            m + 1,
            num_bits,
        ) == seq![v] + decode_values(
            DecoderState { rest: tail, kp: lowered(kp), nz: 0 },
            m,
            num_bits,
        ),
{
    let k = kp / 8;
    let field = bits::number_bits(0, k);
    let code = value_code(v, num_bits);
    let rest = escape(kp) + code + tail;
    bits::number_bits_value(0, k);
    vstd::arithmetic::power2::lemma_pow2_pos(k);
    vstd::arithmetic::div_mod::lemma_small_mod(0, run_length(kp));
    assert(bits::drop_bits(rest, 1) =~= field + (code + tail));
    bits::first_bits_of_prefix(field, code + tail);
    lemma_magnitude_decodes(v, num_bits, tail);
    assert(decode_next(DecoderState { rest, kp, nz: 0 }, num_bits) == (
        v,
        DecoderState { rest: tail, kp: lowered(kp), nz: 0 },
    ));
}

proof fn lemma_split_at_run(values: Seq<i16>)
    requires
        leading_zeros(values) < values.len(),
    ensures
        ({
            let z = leading_zeros(values);
            values == zeros(z) + (seq![values[z as int]] + values.skip(z as int + 1))
        }),
{
    let z = leading_zeros(values);
    lemma_leading_zeros(values);
    assert(values =~= zeros(z) + (seq![values[z as int]] + values.skip(z as int + 1)));
}

#[verifier::spinoff_prover]
#[verifier::rlimit(60)]
proof fn lemma_values_decode(values: Seq<i16>, kp: nat, tail: Seq<bool>, num_bits: nat)
    requires
        kp <= 80,
        forall|i: int| 0 <= i < values.len() ==> representable(values[i], num_bits),
    ensures
        decode_values(
            DecoderState { rest: encode_values(values, kp, num_bits) + tail, kp, nz: 0 },
            values.len(),
            num_bits,
        ) == values,
    decreases values.len(),
{
    let z = leading_zeros(values);
    let (run, end) = zero_run(z, kp);
    let st = DecoderState { rest: encode_values(values, kp, num_bits) + tail, kp, nz: 0 };
    lemma_leading_zeros(values);
    if values.len() == 0 {
        assert(decode_values(st, 0, num_bits) =~= values);
    } else if z >= values.len() {
        lemma_zero_run_decodes(z, kp, escape(end) + tail, 0, num_bits);
        assert(st.rest =~= run + (escape(end) + tail));
        assert(decode_values(st, values.len(), num_bits) =~= values);
    } else {
        let v = values[z as int];
        let later = values.skip(z as int + 1);
        let later_code = encode_values(later, lowered(end), num_bits);
        let after_run = escape(end) + value_code(v, num_bits) + (later_code + tail);
        assert(representable(v, num_bits));
        assert forall|i: int| 0 <= i < later.len() implies representable(later[i], num_bits) by {
            assert(later[i] == values[z + 1 + i]);
        }
        lemma_zero_run_decodes(z, kp, after_run, later.len() + 1, num_bits);
        lemma_value_decodes(v, end, later_code + tail, later.len(), num_bits);
        lemma_values_decode(later, lowered(end), tail, num_bits);
        assert(st.rest =~= run + after_run);
        assert(st == (DecoderState { rest: run + after_run, kp, nz: 0 }));
        assert(values.len() == z + (later.len() + 1));
        assert(decode_values(st, values.len(), num_bits) == zeros(z) + (seq![v] + later));
        lemma_split_at_run(values);
    }
}

/// Decoding an encoded stream with its own width and count gives the values back.
pub proof fn encoding_round_trips(data: Seq<u8>, values: Seq<i16>, num_bits: nat)
    requires
        is_encoding(data, values, num_bits),
        forall|i: int| 0 <= i < values.len() ==> representable(values[i], num_bits),
    ensures
        decoded(data, values.len(), num_bits) == values,
{
    let code = encode_values(values, 0, num_bits);
    let body = data.drop_last();
    let all = bits::bits_of(data);
    let tail = all.skip(code.len() as int);
    assert forall|i: int| 0 <= i < code.len() implies all[i] == code[i] by {
        assert(i < bits::bits_of(body).len());
        assert(bits::bits_of(body)[i] == code[i]);
        assert(i / 8 < body.len());
        assert(data[i / 8] == body[i / 8]);
    }
    assert(bits::bits_of(body).len() <= all.len());
    assert(all =~= code + tail);
    lemma_values_decode(values, 0, tail, num_bits);
}

proof fn lemma_reader_owes(st: ReaderState, widths: Seq<u8>)
    requires
        st.nz == widths.len(),
    ensures
        read_values(st, widths) == zeros(widths.len()),
        state_after(st, widths) == (ReaderState { nz: 0, ..st }),
    decreases widths.len(),
{
    if widths.len() > 0 {
        lemma_reader_owes(ReaderState { nz: (st.nz - 1) as nat, ..st }, widths.skip(1));
    }
    assert(read_values(st, widths) =~= zeros(widths.len()));
}

/// A zero bit between two values stands for `2^(kp / 8)` zeros, whatever the widths of the
/// bands they fall into. Behind them the reader is between two values again, and `kp` is
/// four more, up to 80.
pub proof fn run_bit_reads_as_zeros(kp: nat, tail: Seq<bool>, widths: Seq<u8>)
    requires
        widths.len() == vstd::arithmetic::power2::pow2(kp / 8),
    ensures
        ({
            let st = ReaderState { rest: seq![false] + tail, kp, nz: 0, mode: false };
            &&& read_values(st, widths) == zeros(widths.len())
            &&& state_after(st, widths) == (ReaderState {
                rest: tail,
                kp: if kp <= 76 {
                    kp + 4
                } else {
                    80
                },
                nz: 0,
                mode: false,
            })
        }),
{
    vstd::arithmetic::power2::lemma_pow2_pos(kp / 8);
    let st = ReaderState { rest: seq![false] + tail, kp, nz: 0, mode: false };
    let (v, next) = read_next(st, widths[0] as nat);
    assert(bits::drop_bits(st.rest, 1) =~= tail);
    lemma_reader_owes(next, widths.skip(1));
    assert(read_values(st, widths) =~= zeros(widths.len()));
}

/// A magnitude in truncated unary: a zero bit for each step up from one, then a one bit,
/// which the largest magnitude of the width does without. A width of at most one bit
/// leaves nothing to say.
pub open spec fn unary_code(m: nat, width: nat) -> Seq<bool> {
    if width <= 1 {
        Seq::empty()
    } else if m < largest(width) {
        bits::zero_bits((m - 1) as nat) + seq![true]
    } else {
        bits::zero_bits((m - 1) as nat)
    }
}

/// The largest magnitude of a width, counted up to 16 bits.
pub open spec fn largest(width: nat) -> nat {
    if width <= 1 {
        1
    } else if width >= 16 {
        65535
    } else {
        (vstd::arithmetic::power2::pow2(width) - 1) as nat
    }
}

proof fn lemma_largest(width: nat)
    requires
        width >= 2,
    ensures
        largest(width) == magnitude_limit(width),
{
    vstd::arithmetic::power2::lemma2_to64();
}

proof fn lemma_unary_reads(m: nat, from: nat, limit: nat, tail: Seq<bool>)
    requires
        1 <= from <= m <= limit,
    ensures
        unary_magnitude(
            bits::zero_bits((m - from) as nat) + (if m < limit {
                seq![true]
            } else {
                Seq::empty()
            }) + tail,
            from,
            limit,
        ) == (m, tail),
    decreases m - from,
{
    let end = if m < limit {
        seq![true]
    } else {
        Seq::empty()
    };
    let s = bits::zero_bits((m - from) as nat) + end + tail;
    if from == m {
        if m < limit {
            assert(bits::drop_bits(s, 1) =~= tail);
        } else {
            assert(s =~= tail);
        }
    } else {
        let rest = bits::zero_bits((m - from - 1) as nat) + end + tail;
        assert(bits::drop_bits(s, 1) =~= rest);
        lemma_unary_reads(m, from + 1, limit, tail);
    }
}

proof fn lemma_sign_and_unary_read(negative: bool, m: nat, width: nat, tail: Seq<bool>)
    requires
        1 <= m <= largest(width),
    ensures
        reader_magnitude(seq![negative] + unary_code(m, width) + tail, width) == (
            signed(negative, m),
            tail,
        ),
{
    let s = seq![negative] + unary_code(m, width) + tail;
    let after_sign = bits::drop_bits(s, 1);
    if width <= 1 {
        assert(after_sign =~= tail);
    } else {
        lemma_largest(width);
        let end = if m < largest(width) {
            seq![true]
        } else {
            Seq::<bool>::empty()
        };
        assert(after_sign =~= bits::zero_bits((m - 1) as nat) + end + tail);
        lemma_unary_reads(m, 1, largest(width), tail);
    }
}

proof fn lemma_one_read(st: ReaderState, widths: Seq<u8>)
    requires
        widths.len() == 1,
    ensures
        read_values(st, widths) == seq![read_next(st, widths[0] as nat).0],
        state_after(st, widths) == read_next(st, widths[0] as nat).1,
{
    let (v, next) = read_next(st, widths[0] as nat);
    assert(read_values(next, widths.skip(1)) =~= Seq::empty());
    assert(state_after(next, widths.skip(1)) == next);
    assert(read_values(st, widths) =~= seq![v]);
}

/// A one bit between two values is an escape: a count of zeros in `kp / 8` bits, these
/// zeros, and then always a magnitude: its sign and its truncated unary code. Behind it the
/// reader stands right where the code ends and is between two values again, and `kp` is six
/// less, down to zero.
#[verifier::rlimit(40)]
pub proof fn escape_reads_as_zeros_and_a_magnitude(
    kp: nat,
    z: nat,
    negative: bool,
    m: nat,
    tail: Seq<bool>,
    widths: Seq<u8>,
)
    requires
        z < vstd::arithmetic::power2::pow2(kp / 8),
        widths.len() == z + 1,
        1 <= m <= largest(widths[z as int] as nat),
    ensures
        ({
            let st = ReaderState {
                rest: seq![true] + bits::number_bits(z, kp / 8) + seq![negative] + unary_code(
                    m,
                    widths[z as int] as nat,
                ) + tail,
                kp,
                nz: 0,
                mode: false,
            };
            let cut = if m <= 32767 {
                m as int
            } else {
                32767
            };
            &&& read_values(st, widths) == zeros(z).push(
                (if negative {
                    -cut
                } else {
                    cut
                }) as i16,
            )
            &&& state_after(st, widths) == (ReaderState {
                rest: tail,
                kp: if kp >= 6 {
                    (kp - 6) as nat
                } else {
                    0
                },
                nz: 0,
                mode: false,
            })
        }),
{
    let k = kp / 8;
    let w = widths[z as int] as nat;
    let field = bits::number_bits(z, k);
    let code = seq![negative] + unary_code(m, w) + tail;
    let st = ReaderState {
        rest: seq![true] + field + seq![negative] + unary_code(m, w) + tail,
        kp,
        nz: 0,
        mode: false,
    };
    bits::number_bits_value(z, k);
    vstd::arithmetic::div_mod::lemma_small_mod(z, vstd::arithmetic::power2::pow2(k));
    assert(bits::drop_bits(st.rest, 1) =~= field + code);
    bits::first_bits_of_prefix(field, code);
    lemma_sign_and_unary_read(negative, m, w, tail);
    let end = ReaderState { rest: tail, kp: lowered(kp), nz: 0, mode: false };
    let v = signed(negative, m);
    if z == 0 {
        assert(read_next(st, w) == (v, end));
        lemma_one_read(st, widths);
        assert(read_values(st, widths) =~= zeros(0).push(v));
    } else {
        let owing = ReaderState { rest: code, kp, nz: (z - 1) as nat, mode: true };
        assert(read_next(st, widths[0] as nat) == (0i16, owing));
        let later = widths.skip(1);
        let owed = later.take(z - 1);
        let last = later.skip(z - 1);
        assert(later =~= owed + last);
        lemma_reader_owes(owing, owed);
        let due = ReaderState { rest: code, kp, nz: 0, mode: true };
        assert(read_next(due, w) == (v, end));
        assert(last[0] == w);
        lemma_one_read(due, last);
        bands_share_one_stream(owing, owed, last);
        assert(read_values(st, widths) =~= zeros(z).push(v));
    }
}

/// Whether a coefficient can be written with magnitudes of that width.
pub open spec fn fits_width(v: i16, width: u8) -> bool {
    -largest(width as nat) <= v <= largest(width as nat) && v != i16::MIN
}

/// The stream that an encoder writes for coefficients in bands of those widths, from the
/// run parameter `kp` on: a zero bit for every full run of zeros, and an escape with the
/// count of the zeros that are left, behind which the next magnitude stands.
pub open spec fn threaded_code(values: Seq<i16>, widths: Seq<u8>, kp: nat) -> Seq<bool>
    decreases values.len(),
{
    let z = leading_zeros(values);
    let run = vstd::arithmetic::power2::pow2(kp / 8);
    if values.len() == 0 {
        Seq::empty()
    } else if z >= run && values.len() >= run {
        proof {
            vstd::arithmetic::power2::lemma_pow2_pos(kp / 8);
        }
        seq![false] + threaded_code(
            values.skip(run as int),
            widths.skip(run as int),
            if kp <= 76 {
                kp + 4
            } else {
                80
            },
        )
    } else if z >= values.len() {
        seq![true] + bits::number_bits(z, kp / 8)
    } else {
        let v = values[z as int];
        seq![true] + bits::number_bits(z, kp / 8) + seq![v < 0] + unary_code(
            magnitude_of(v),
            widths[z as int] as nat,
        ) + threaded_code(
            values.skip(z as int + 1),
            widths.skip(z as int + 1),
            if kp >= 6 {
                (kp - 6) as nat
            } else {
                0
            },
        )
    }
}

proof fn lemma_last_zeros_read(kp: nat, tail: Seq<bool>, widths: Seq<u8>)
    requires
        0 < widths.len() < vstd::arithmetic::power2::pow2(kp / 8),
    ensures
        read_values(
            ReaderState {
                rest: seq![true] + bits::number_bits(widths.len(), kp / 8) + tail,
                kp,
                nz: 0,
                mode: false,
            },
            widths,
        ) == zeros(widths.len()),
{
    let z = widths.len();
    let field = bits::number_bits(z, kp / 8);
    let st = ReaderState { rest: seq![true] + field + tail, kp, nz: 0, mode: false };
    bits::number_bits_value(z, kp / 8);
    vstd::arithmetic::div_mod::lemma_small_mod(z, vstd::arithmetic::power2::pow2(kp / 8));
    assert(bits::drop_bits(st.rest, 1) =~= field + tail);
    bits::first_bits_of_prefix(field, tail);
    let owing = ReaderState { rest: tail, kp, nz: (z - 1) as nat, mode: true };
    assert(read_next(st, widths[0] as nat) == (0i16, owing));
    lemma_reader_owes(owing, widths.skip(1));
    assert(read_values(st, widths) =~= zeros(z));
}

/// The state of a reader between two values.
spec fn between(rest: Seq<bool>, kp: nat) -> ReaderState {
    ReaderState { rest, kp, nz: 0, mode: false }
}

proof fn lemma_read_in_two(
    st: ReaderState,
    first: Seq<u8>,
    second: Seq<u8>,
    mid: ReaderState,
    front: Seq<i16>,
    later: Seq<i16>,
)
    requires
        read_values(st, first) == front,
        state_after(st, first) == mid,
        read_values(mid, second) == later,
    ensures
        read_values(st, first + second) == front + later,
{
    bands_share_one_stream(st, first, second);
}

proof fn lemma_threaded_run(values: Seq<i16>, widths: Seq<u8>, kp: nat, tail: Seq<bool>)
    requires
        widths.len() == values.len(),
        leading_zeros(values) >= vstd::arithmetic::power2::pow2(kp / 8),
        ({
            let run = vstd::arithmetic::power2::pow2(kp / 8) as int;
            let next: nat = if kp <= 76 {
                kp + 4
            } else {
                80
            };
            read_values(
                between(threaded_code(values.skip(run), widths.skip(run), next) + tail, next),
                widths.skip(run),
            ) == values.skip(run)
        }),
    ensures
        read_values(between(threaded_code(values, widths, kp) + tail, kp), widths) == values,
{
    let run = vstd::arithmetic::power2::pow2(kp / 8);
    let later = values.skip(run as int);
    let first = widths.take(run as int);
    let second = widths.skip(run as int);
    let next: nat = if kp <= 76 {
        kp + 4
    } else {
        80
    };
    lemma_leading_zeros(values);
    vstd::arithmetic::power2::lemma_pow2_pos(kp / 8);
    let later_code = threaded_code(later, second, next);
    let rest = later_code + tail;
    assert(threaded_code(values, widths, kp) == seq![false] + later_code);
    assert(seq![false] + later_code + tail =~= seq![false] + rest);
    run_bit_reads_as_zeros(kp, rest, first);
    lemma_read_in_two(
        between(seq![false] + rest, kp),
        first,
        second,
        between(rest, next),
        zeros(run),
        later,
    );
    assert(widths =~= first + second);
    assert(values =~= zeros(run) + later);
}

proof fn lemma_threaded_escape(values: Seq<i16>, widths: Seq<u8>, kp: nat, tail: Seq<bool>)
    requires
        widths.len() == values.len(),
        leading_zeros(values) < values.len(),
        leading_zeros(values) < vstd::arithmetic::power2::pow2(kp / 8),
        fits_width(
            values[leading_zeros(values) as int],
            widths[leading_zeros(values) as int],
        ),
        ({
            let at = leading_zeros(values) as int + 1;
            let next = if kp >= 6 {
                (kp - 6) as nat
            } else {
                0
            };
            read_values(
                between(threaded_code(values.skip(at), widths.skip(at), next) + tail, next),
                widths.skip(at),
            ) == values.skip(at)
        }),
    ensures
        read_values(between(threaded_code(values, widths, kp) + tail, kp), widths) == values,
{
    let z = leading_zeros(values);
    let v = values[z as int];
    let m = magnitude_of(v);
    let width = widths[z as int] as nat;
    let later = values.skip(z as int + 1);
    let first = widths.take(z as int + 1);
    let second = widths.skip(z as int + 1);
    let next = if kp >= 6 {
        (kp - 6) as nat
    } else {
        0
    };
    lemma_leading_zeros(values);
    let later_code = threaded_code(later, second, next);
    let rest = later_code + tail;
    let head = seq![true] + bits::number_bits(z, kp / 8) + seq![v < 0] + unary_code(m, width);
    assert(threaded_code(values, widths, kp) == head + later_code);
    assert(head + later_code + tail =~= head + rest);
    assert(first[z as int] == widths[z as int]);
    escape_reads_as_zeros_and_a_magnitude(kp, z, v < 0, m, rest, first);
    lemma_read_in_two(
        between(head + rest, kp),
        first,
        second,
        between(rest, next),
        zeros(z).push(v),
        later,
    );
    assert(widths =~= first + second);
    assert(values =~= zeros(z).push(v) + later);
}

proof fn lemma_threaded_reads(values: Seq<i16>, widths: Seq<u8>, kp: nat, tail: Seq<bool>)
    requires
        widths.len() == values.len(),
        forall|i: int| 0 <= i < values.len() ==> fits_width(values[i], widths[i]),
    ensures
        read_values(between(threaded_code(values, widths, kp) + tail, kp), widths) == values,
    decreases values.len(),
{
    let z = leading_zeros(values);
    let run = vstd::arithmetic::power2::pow2(kp / 8);
    lemma_leading_zeros(values);
    vstd::arithmetic::power2::lemma_pow2_pos(kp / 8);
    if values.len() == 0 {
        assert(read_values(between(threaded_code(values, widths, kp) + tail, kp), widths)
            =~= values);
    } else if z >= run {
        let later = values.skip(run as int);
        let second = widths.skip(run as int);
        assert forall|i: int| 0 <= i < later.len() implies fits_width(later[i], second[i]) by {
            assert(later[i] == values[run + i] && second[i] == widths[run + i]);
        }
        let next: nat = if kp <= 76 {
            kp + 4
        } else {
            80
        };
        lemma_threaded_reads(later, second, next, tail);
        lemma_threaded_run(values, widths, kp, tail);
    } else if z >= values.len() {
        lemma_last_zeros_read(kp, tail, widths);
        assert(values =~= zeros(z));
    } else {
        let at = z as int + 1;
        let later = values.skip(at);
        let second = widths.skip(at);
        assert forall|i: int| 0 <= i < later.len() implies fits_width(later[i], second[i]) by {
            assert(later[i] == values[at + i] && second[i] == widths[at + i]);
        }
        let next = if kp >= 6 {
            (kp - 6) as nat
        } else {
            0
        };
        lemma_threaded_reads(later, second, next, tail);
        assert(fits_width(values[z as int], widths[z as int]));
        lemma_threaded_escape(values, widths, kp, tail);
    }
}

/// A fresh reader gives back the coefficients that were written for the bands of a
/// component, whatever their widths and whatever follows the code in the stream. The first
/// run of zeros is two long.
pub proof fn threaded_stream_reads_back(values: Seq<i16>, widths: Seq<u8>, tail: Seq<bool>)
    requires
        widths.len() == values.len(),
        forall|i: int| 0 <= i < values.len() ==> fits_width(values[i], widths[i]),
    ensures
        read_values(reader_start(threaded_code(values, widths, 8) + tail), widths) == values,
{
    lemma_threaded_reads(values, widths, 8, tail);
}

/// A zero bit at the head of what is left of a stream decodes to `2^(kp / 8)` zeros, and
/// `kp` is four more behind them, up to 80.
pub proof fn run_bit_decodes_to_zeros(kp: nat, tail: Seq<bool>, n: nat, num_bits: nat)
    ensures
        decode_values(
            DecoderState { rest: seq![false] + tail, kp, nz: 0 },
            vstd::arithmetic::power2::pow2(kp / 8) + n,
            num_bits,
        ) == zeros(vstd::arithmetic::power2::pow2(kp / 8)) + decode_values(
            DecoderState {
                rest: tail,
                kp: if kp <= 76 {
                    kp + 4
                } else {
                    80
                },
                nz: 0,
            },
            n,
            num_bits,
        ),
{
    let r = vstd::arithmetic::power2::pow2(kp / 8);
    vstd::arithmetic::power2::lemma_pow2_pos(kp / 8);
    let st = DecoderState { rest: seq![false] + tail, kp, nz: 0 };
    let (v, next) = decode_next(st, num_bits);
    assert(bits::drop_bits(st.rest, 1) =~= tail);
    lemma_owed_zeros(next, (r + n - 1) as nat, num_bits);
    assert(decode_values(st, r + n, num_bits) =~= zeros(r) + decode_values(
        DecoderState { nz: 0, ..next },
        n,
        num_bits,
    ));
}

/// A one bit and a count in `kp / 8` bits decode to that many zeros; `kp` stays, and a
/// bit of the same kind comes next.
pub proof fn counted_zeros_decode(kp: nat, z: nat, tail: Seq<bool>, n: nat, num_bits: nat)
    requires
        0 < z < vstd::arithmetic::power2::pow2(kp / 8),
    ensures
        decode_values(
            DecoderState {
                rest: seq![true] + bits::number_bits(z, kp / 8) + tail,
                kp,
                nz: 0,
            },
            z + n,
            num_bits,
        ) == zeros(z) + decode_values(DecoderState { rest: tail, kp, nz: 0 }, n, num_bits),
{
    let k = kp / 8;
    let field = bits::number_bits(z, k);
    let st = DecoderState { rest: seq![true] + field + tail, kp, nz: 0 };
    bits::number_bits_value(z, k);
    vstd::arithmetic::div_mod::lemma_small_mod(z, vstd::arithmetic::power2::pow2(k));
    assert(bits::drop_bits(st.rest, 1) =~= field + tail);
    bits::first_bits_of_prefix(field, tail);
    let next = DecoderState { rest: tail, kp, nz: (z - 1) as nat };
    assert(decode_next(st, num_bits) == (0i16, next));
    lemma_owed_zeros(next, (z + n - 1) as nat, num_bits);
    assert(decode_values(st, z + n, num_bits) =~= zeros(z) + decode_values(
        DecoderState { rest: tail, kp, nz: 0 },
        n,
        num_bits,
    ));
}

/// The bits of a magnitude with quotient `q` and remainder `r`: the quotient in unary, and
/// the remainder in one bit less than the width, if that is less than 16 bits.
pub open spec fn divided_code(q: nat, r: nat, width: nat) -> Seq<bool> {
    if width <= 1 {
        Seq::empty()
    } else if width <= 16 {
        bits::zero_bits(q) + seq![true] + bits::number_bits(r, (width - 1) as nat)
    } else {
        bits::zero_bits(q) + seq![true]
    }
}

/// The magnitude with quotient `q` and remainder `r`.
pub open spec fn divided_magnitude(q: nat, r: nat, width: nat) -> nat {
    if width <= 1 {
        1
    } else if width <= 16 {
        q * vstd::arithmetic::power2::pow2((width - 1) as nat) + r
    } else {
        q
    }
}

/// A one bit and a count of no zeros are followed by a sign and a magnitude, which is cut
/// to 32767. `kp` is six less behind it, down to zero.
pub proof fn escape_decodes_to_a_magnitude(
    kp: nat,
    negative: bool,
    q: nat,
    r: nat,
    tail: Seq<bool>,
    n: nat,
    width: nat,
)
    requires
        q <= 32768,
        2 <= width <= 16 ==> r < vstd::arithmetic::power2::pow2((width - 1) as nat),
    ensures
        ({
            let m = divided_magnitude(q, r, width);
            let cut = if m <= 32767 {
                m as int
            } else {
                32767
            };
            decode_values(
                DecoderState {
                    rest: seq![true] + bits::zero_bits(kp / 8) + seq![negative] + divided_code(
                        q,
                        r,
                        width,
                    ) + tail,
                    kp,
                    nz: 0,
                },
                n + 1,
                width,
            ) == seq![
                (if negative {
                    -cut
                } else {
                    cut
                }) as i16,
            ] + decode_values(
                DecoderState {
                    rest: tail,
                    kp: if kp >= 6 {
                        (kp - 6) as nat
                    } else {
                        0
                    },
                    nz: 0,
                },
                n,
                width,
            )
        }),
{
    let k = kp / 8;
    let code = divided_code(q, r, width);
    let field = bits::zero_bits(k);
    let st = DecoderState {
        rest: seq![true] + field + seq![negative] + code + tail,
        kp,
        nz: 0,
    };
    let after = seq![negative] + code + tail;
    assert(bits::drop_bits(st.rest, 1) =~= field + after);
    bits::first_bits_of_prefix(field, after);
    lemma_zeros_weigh_nothing(k);
    assert(bits::drop_bits(after, 1) =~= code + tail);
    lemma_divided_decodes(q, r, tail, width);
    assert(bits::next_bit(after) == negative);
    let m = divided_magnitude(q, r, width);
    let next = DecoderState { rest: tail, kp: lowered(kp), nz: 0 };
    assert(decode_next(st, width) == (signed(negative, m), next));
}

proof fn lemma_divided_decodes(q: nat, r: nat, tail: Seq<bool>, width: nat)
    requires
        q <= 32768,
        2 <= width <= 16 ==> r < vstd::arithmetic::power2::pow2((width - 1) as nat),
    ensures
        magnitude(divided_code(q, r, width) + tail, width) == (
            divided_magnitude(q, r, width),
            tail,
        ),
{
    let s = divided_code(q, r, width) + tail;
    if width <= 1 {
        assert(s =~= tail);
    } else {
        let low = if width <= 16 {
            bits::number_bits(r, (width - 1) as nat)
        } else {
            Seq::<bool>::empty()
        };
        assert(s =~= bits::zero_bits(q) + seq![true] + (low + tail));
        lemma_quotient_decodes(q, 0, low + tail);
        if width <= 16 {
            bits::first_bits_of_prefix(low, tail);
            bits::number_bits_value(r, (width - 1) as nat);
            vstd::arithmetic::div_mod::lemma_small_mod(
                r,
                vstd::arithmetic::power2::pow2((width - 1) as nat),
            );
        } else {
            assert(low + tail =~= tail);
        }
    }
}

proof fn lemma_zeros_weigh_nothing(n: nat)
    ensures
        bits::bits_value(bits::zero_bits(n)) == 0,
    decreases n,
{
    if n > 0 {
        assert(bits::zero_bits(n).drop_last() =~= bits::zero_bits((n - 1) as nat));
        lemma_zeros_weigh_nothing((n - 1) as nat);
    }
}

/// A fresh decoder takes one zero for the first two run bits each, then two for the next
/// two, then four: the run parameter starts at zero.
pub proof fn decoder_starts_with_single_zeros(tail: Seq<bool>, n: nat, num_bits: nat)
    ensures
        ({
            let s = seq![false, false, false, false, false] + tail;
            decode_values(decoder_start(s), 10 + n, num_bits) == zeros(10) + decode_values(
                DecoderState { rest: tail, kp: 20, nz: 0 },
                n,
                num_bits,
            )
        }),
{
    vstd::arithmetic::power2::lemma2_to64();
    let t4 = seq![false] + tail;
    let t3 = seq![false] + t4;
    let t2 = seq![false] + t3;
    let t1 = seq![false] + t2;
    let s = seq![false, false, false, false, false] + tail;
    assert(s =~= seq![false] + t1);
    run_bit_decodes_to_zeros(0, t1, 9 + n, num_bits);
    run_bit_decodes_to_zeros(4, t2, 8 + n, num_bits);
    run_bit_decodes_to_zeros(8, t3, 6 + n, num_bits);
    run_bit_decodes_to_zeros(12, t4, 4 + n, num_bits);
    run_bit_decodes_to_zeros(16, tail, n, num_bits);
    let last = decode_values(DecoderState { rest: tail, kp: 20, nz: 0 }, n, num_bits);
    assert(zeros(10) + last =~= zeros(1) + (zeros(1) + (zeros(2) + (zeros(2) + (zeros(4)
        + last)))));
}

/// The code of coefficients that begin with a value other than zero: an escape without
/// zeros, the sign, the magnitude divided by a power of two, and the code of the rest.
pub proof fn value_is_coded_in_front(v: i16, rest: Seq<i16>, kp: nat, width: nat)
    requires
        v != 0,
    ensures
        ({
            let m: nat = if v < 0 {
                (-v) as nat
            } else {
                v as nat
            };
            let p = vstd::arithmetic::power2::pow2((width - 1) as nat);
            encode_values(seq![v] + rest, kp, width) == seq![true] + bits::zero_bits(kp / 8)
                + seq![v < 0] + (if width <= 16 {
                divided_code(m / p, m % p, width)
            } else {
                Seq::empty()
            }) + encode_values(
                rest,
                if kp >= 6 {
                    (kp - 6) as nat
                } else {
                    0
                },
                width,
            )
        }),
{
    let values = seq![v] + rest;
    lemma_leading_zeros_unique(values, 0);
    assert(values.skip(1) =~= rest);
    lemma_zero_number(kp / 8);
    if 2 <= width <= 16 {
        lemma_low_bits_of_remainder(magnitude_of(v), (width - 1) as nat);
    }
    assert(zero_run(0, kp).0 =~= Seq::empty());
    assert(encode_values(values, kp, width) =~= seq![true] + bits::zero_bits(kp / 8) + seq![
        v < 0,
    ] + (if width <= 16 {
        divided_code(
            magnitude_of(v) / vstd::arithmetic::power2::pow2((width - 1) as nat),
            magnitude_of(v) % vstd::arithmetic::power2::pow2((width - 1) as nat),
            width,
        )
    } else {
        Seq::empty()
    }) + encode_values(rest, lowered(kp), width));
}

proof fn lemma_zero_number(k: nat)
    ensures
        bits::number_bits(0, k) == bits::zero_bits(k),
{
    assert forall|j: int| 0 <= j < k implies bits::number_bits(0, k)[j] == bits::zero_bits(
        k,
    )[j] by {
        vstd::arithmetic::power2::lemma_pow2_pos((k - 1 - j) as nat);
        vstd::arithmetic::div_mod::lemma_div_basics(
            vstd::arithmetic::power2::pow2((k - 1 - j) as nat) as int,
        );
    }
    assert(bits::number_bits(0, k) =~= bits::zero_bits(k));
}

proof fn lemma_low_bits_of_remainder(m: nat, e: nat)
    ensures
        bits::number_bits(m % vstd::arithmetic::power2::pow2(e), e) == bits::number_bits(m, e),
{
    let a = bits::number_bits(m % vstd::arithmetic::power2::pow2(e), e);
    let b = bits::number_bits(m, e);
    bits::number_bits_value(m, e);
    bits::number_bits_value(m % vstd::arithmetic::power2::pow2(e), e);
    vstd::arithmetic::power2::lemma_pow2_pos(e);
    vstd::arithmetic::div_mod::lemma_mod_twice(m as int, vstd::arithmetic::power2::pow2(e) as int);
    lemma_value_tells_bits(a, b);
}

proof fn lemma_value_tells_bits(a: Seq<bool>, b: Seq<bool>)
    requires
        a.len() == b.len(),
        bits::bits_value(a) == bits::bits_value(b),
    ensures
        a == b,
    decreases a.len(),
{
    if a.len() > 0 {
        lemma_value_tells_bits(a.drop_last(), b.drop_last());
        assert(a =~= a.drop_last().push(a.last()));
        assert(b =~= b.drop_last().push(b.last()));
    } else {
        assert(a =~= b);
    }
}

/// The code of a full run of zeros in front of more coefficients is one zero bit, and `kp`
/// is four more for the rest, up to 80.
pub proof fn run_is_coded_in_one_bit(rest: Seq<i16>, kp: nat, width: nat)
    requires
        rest.len() > 0,
    ensures
        encode_values(
            zeros(vstd::arithmetic::power2::pow2(kp / 8)) + rest,
            kp,
            width,
        ) == seq![false] + encode_values(
            rest,
            if kp <= 76 {
                kp + 4
            } else {
                80
            },
            width,
        ),
{
    let r = vstd::arithmetic::power2::pow2(kp / 8);
    vstd::arithmetic::power2::lemma_pow2_pos(kp / 8);
    let values = zeros(r) + rest;
    lemma_leading_zeros(rest);
    let z = leading_zeros(rest);
    assert forall|i: int| 0 <= i < r + z implies values[i] == 0 by {
        if i >= r {
            assert(rest[i - r] == 0);
        }
    }
    lemma_leading_zeros_unique(values, r + z);
    assert((r + z - r) as nat == z);
    if z < rest.len() {
        assert(values.skip((r + z) as int + 1) =~= rest.skip(z as int + 1));
        assert(values[(r + z) as int] == rest[z as int]);
    }
    assert(encode_values(values, kp, width) =~= seq![false] + encode_values(
        rest,
        raised(kp),
        width,
    ));
}

/// Fewer zeros than a run in front of a value are an escape with their count, and the code
/// goes on with the value.
pub proof fn fewer_zeros_are_counted(z: nat, rest: Seq<i16>, kp: nat, width: nat)
    requires
        0 < z < vstd::arithmetic::power2::pow2(kp / 8),
        rest.len() > 0,
        rest[0] != 0,
    ensures
        encode_values(zeros(z) + rest, kp, width) == seq![true] + bits::number_bits(z, kp / 8)
            + encode_values(rest, kp, width),
{
    let values = zeros(z) + rest;
    lemma_leading_zeros_unique(values, z);
    lemma_leading_zeros_unique(rest, 0);
    assert(values.skip(z as int + 1) =~= rest.skip(1));
    assert(values[z as int] == rest[0]);
    assert(zero_run(0, kp).0 =~= Seq::empty());
    assert(encode_values(values, kp, width) =~= seq![true] + bits::number_bits(z, kp / 8)
        + encode_values(rest, kp, width));
}

/// A stream is its code from a run parameter of zero on, then zero bits up to a whole
/// byte, fewer than eight, and one byte more, which is zero.
pub proof fn stream_ends_with_a_zero_byte(data: Seq<u8>, values: Seq<i16>, width: nat)
    requires
        is_encoding(data, values, width),
    ensures
        ({
            let code = encode_values(values, 0, width);
            &&& data.len() >= 1
            &&& data[data.len() - 1] == 0
            &&& code.len() <= 8 * (data.len() - 1) < code.len() + 8
            &&& forall|i: int|
                0 <= i < 8 * (data.len() - 1) ==> #[trigger] bits::bits_of(data.drop_last())[i]
                    == (i < code.len() && code[i])
        }),
{
    let code = encode_values(values, 0, width);
    assert(bits::bits_of(data.drop_last()).len() == 8 * (data.len() - 1));
}

/// Zeros at the end of the values are coded like any others, and an escape that leaves no
/// zeros ends them.
pub proof fn last_zeros_are_coded(z: nat, kp: nat, width: nat)
    requires
        0 < z <= vstd::arithmetic::power2::pow2(kp / 8),
    ensures
        z < vstd::arithmetic::power2::pow2(kp / 8) ==> encode_values(zeros(z), kp, width) == seq![
            true,
        ] + bits::number_bits(z, kp / 8) + (seq![true] + bits::zero_bits(kp / 8)),
        z == vstd::arithmetic::power2::pow2(kp / 8) ==> encode_values(zeros(z), kp, width) == seq![
            false,
        ] + (seq![true] + bits::zero_bits(
            if kp <= 76 {
                (kp + 4) / 8
            } else {
                10
            },
        )),
{
    let values = zeros(z);
    lemma_leading_zeros_unique(values, z);
    let next: nat = if kp <= 76 {
        kp + 4
    } else {
        80
    };
    lemma_zero_number(kp / 8);
    lemma_zero_number(next / 8);
    assert(zero_run(0, next).0 =~= Seq::<bool>::empty());
    assert(zero_run(0, next).1 == next);
    if z < run_length(kp) {
        assert(zero_run(z, kp) == (seq![true] + bits::number_bits(z, kp / 8), kp));
    } else {
        assert(zero_run(z, kp).0 =~= seq![false]);
        assert(zero_run(z, kp).1 == next);
    }
}

/// A reader between two values with no bits left gives only zeros.
pub proof fn ended_reader_gives_zeros(st: ReaderState, widths: Seq<u8>)
    requires
        st.rest.len() == 0,
        !st.mode,
    ensures
        read_values(st, widths) == zeros(widths.len()),
    decreases widths.len(),
{
    if widths.len() > 0 {
        let (v, next) = read_next(st, widths[0] as nat);
        assert(bits::drop_bits(st.rest, 1).len() == 0);
        ended_reader_gives_zeros(next, widths.skip(1));
    }
    assert(read_values(st, widths) =~= zeros(widths.len()));
}

/// A magnitude that the end of the stream cuts off is positive, and the largest of its
/// width, as far as a coefficient holds it.
pub proof fn ended_reader_gives_the_largest(st: ReaderState, width: nat)
    requires
        st.rest.len() == 0,
        st.nz == 0,
        st.mode,
    ensures
        read_next(st, width).0 == if largest(width) <= 32767 {
            largest(width) as int
        } else {
            32767
        },
{
    if width >= 2 {
        lemma_largest(width);
        lemma_magnitude_limit(width);
        lemma_unary_past_end(bits::drop_bits(st.rest, 1), 1, magnitude_limit(width));
    }
}

proof fn lemma_unary_past_end(s: Seq<bool>, m: nat, limit: nat)
    requires
        s.len() == 0,
        m <= limit,
    ensures
        unary_magnitude(s, m, limit).0 == limit,
    decreases limit - m,
{
    if m < limit {
        lemma_unary_past_end(bits::drop_bits(s, 1), m + 1, limit);
    }
}

/// A quotient is counted over 32768 zero bits at most: the bit behind them ends it, whatever
/// it is.
pub proof fn quotient_stops(bit: bool, tail: Seq<bool>, q: nat)
    requires
        q <= 32768,
    ensures
        quotient(bits::zero_bits((32768 - q) as nat) + seq![bit] + tail, q) == (32768nat, tail),
    decreases 32768 - q,
{
    let s = bits::zero_bits((32768 - q) as nat) + seq![bit] + tail;
    if q < 32768 {
        assert(bits::drop_bits(s, 1) =~= bits::zero_bits((32768 - (q + 1)) as nat) + seq![bit]
            + tail);
        quotient_stops(bit, tail, q + 1);
    } else {
        assert(s =~= seq![bit] + tail);
        assert(bits::drop_bits(s, 1) =~= tail);
    }
}

} // verus!

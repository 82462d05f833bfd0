//! Bit streams over bytes, most significant bit first.
use vstd::prelude::*;

verus! {

/// Bit `i` of `b`, counted from the most significant bit.
pub open spec fn bit_of(b: u8, i: int) -> bool {
    (b >> ((7 - i) as u8)) & 1u8 == 1u8
}

/// The bits of `bytes` in stream order.
pub open spec fn bits_of(bytes: Seq<u8>) -> Seq<bool> {
    Seq::new(8 * bytes.len(), |i: int| bit_of(bytes[i / 8], i % 8))
}

/// What is left of a stream after `n` bits; a stream that is used up stays empty.
pub open spec fn drop_bits(s: Seq<bool>, n: int) -> Seq<bool> {
    if n <= s.len() {
        s.skip(n)
    } else {
        Seq::empty()
    }
}

/// The first `n` bits of a stream, read as zeros past its end.
pub open spec fn first_bits(s: Seq<bool>, n: nat) -> Seq<bool> {
    Seq::new(n, |i: int| i < s.len() && s[i])
}

/// The next bit of a stream, zero past its end.
pub open spec fn next_bit(s: Seq<bool>) -> bool {
    s.len() > 0 && s[0]
}

/// The number that `s` spells in binary, most significant bit first.
pub open spec fn bits_value(s: Seq<bool>) -> nat
    decreases s.len(),
{
    if s.len() == 0 {
        0
    } else {
        2 * bits_value(s.drop_last()) + if s.last() {
            1nat
        } else {
            0nat
        }
    }
}

/// The low `count` bits of `v`, most significant bit first.
pub open spec fn number_bits(v: nat, count: nat) -> Seq<bool> {
    Seq::new(
        count,
        |j: int| (v / vstd::arithmetic::power2::pow2((count - 1 - j) as nat)) % 2 == 1,
    )
}

/// `n` zero bits.
pub open spec fn zero_bits(n: nat) -> Seq<bool> {
    Seq::new(n, |i: int| false)
}

/// Spelling a number out and reading it back gives the number, cut to the bits spelled.
pub proof fn number_bits_value(v: nat, count: nat)
    ensures
        bits_value(number_bits(v, count)) == v % vstd::arithmetic::power2::pow2(count),
    decreases count,
{
    let s = number_bits(v, count);
    vstd::arithmetic::power2::lemma_pow2_pos(count);
    if count == 0 {
        vstd::arithmetic::power2::lemma2_to64();
        assert(v % 1 == 0);
    } else {
        let half = number_bits(v / 2, (count - 1) as nat);
        assert(s.drop_last() =~= half) by {
            assert forall|j: int| 0 <= j < count - 1 implies s.drop_last()[j] == half[j] by {
                let e = (count - 2 - j) as nat;
                vstd::arithmetic::power2::lemma_pow2_unfold(e + 1);
                vstd::arithmetic::power2::lemma_pow2_pos(e);
                vstd::arithmetic::div_mod::lemma_div_denominator(
                    v as int,
                    2,
                    vstd::arithmetic::power2::pow2(e) as int,
                );
            }
        }
        number_bits_value(v / 2, (count - 1) as nat);
        vstd::arithmetic::power2::lemma2_to64();
        assert(s.last() == ((v / vstd::arithmetic::power2::pow2(0)) % 2 == 1));
        assert(v / 1 == v);
        let p = vstd::arithmetic::power2::pow2((count - 1) as nat);
        vstd::arithmetic::power2::lemma_pow2_pos((count - 1) as nat);
        vstd::arithmetic::power2::lemma_pow2_unfold(count);
        vstd::arithmetic::div_mod::lemma_mod_breakdown(v as int, 2, p as int);
        assert(v % (2 * p) == 2 * ((v / 2) % p) + v % 2);
    }
}

/// What is read of a stream that begins with `head` does not look past `head`.
pub proof fn first_bits_of_prefix(head: Seq<bool>, tail: Seq<bool>)
    ensures
        first_bits(head + tail, head.len()) == head,
        drop_bits(head + tail, head.len() as int) == tail,
{
    assert(first_bits(head + tail, head.len()) =~= head);
    assert(drop_bits(head + tail, head.len() as int) =~= tail);
}

/// Each further bit doubles a number and adds itself.
pub proof fn bits_weigh_powers_of_two(s: Seq<bool>, bit: bool)
    ensures
        bits_value(Seq::empty()) == 0,
        bits_value(s.push(bit)) == 2 * bits_value(s) + if bit {
            1nat
        } else {
            0nat
        },
{
    assert(s.push(bit).drop_last() =~= s);
}

/// The eight bits of a byte spell its value, most significant bit first, and the bytes of
/// a stream follow each other.
pub proof fn stream_spells_its_bytes(a: Seq<u8>, b: u8)
    ensures
        bits_of(a.push(b)) == bits_of(a) + bits_of(seq![b]),
        bits_of(seq![b]).len() == 8,
        bits_value(bits_of(seq![b])) == b,
{
    let s = bits_of(seq![b]);
    assert forall|i: int| 0 <= i < bits_of(a.push(b)).len() implies bits_of(a.push(b))[i] == (
    bits_of(a) + s)[i] by {
        if i < 8 * a.len() {
            assert(i / 8 < a.len());
        } else {
            let j = i - 8 * a.len();
            assert(i / 8 == a.len() && i % 8 == j);
            assert(j / 8 == 0 && j % 8 == j);
        }
    }
    assert(bits_of(a.push(b)) =~= bits_of(a) + s);
    assert(s[0] == bit_of(b, 0) && s[1] == bit_of(b, 1) && s[2] == bit_of(b, 2) && s[3] == bit_of(
        b,
        3,
    ) && s[4] == bit_of(b, 4) && s[5] == bit_of(b, 5) && s[6] == bit_of(b, 6) && s[7] == bit_of(
        b,
        7,
    ));
    assert(b == 128 * ((b >> 7u8) & 1u8) + 64 * ((b >> 6u8) & 1u8) + 32 * ((b >> 5u8) & 1u8) + 16
        * ((b >> 4u8) & 1u8) + 8 * ((b >> 3u8) & 1u8) + 4 * ((b >> 2u8) & 1u8) + 2 * ((b >> 1u8)
        & 1u8) + ((b >> 0u8) & 1u8)) by (bit_vector);
    assert(forall|k: u8| #![trigger b >> k] k < 8 ==> ((b >> k) & 1u8) == 0 || ((b >> k) & 1u8)
        == 1) by (bit_vector);
    let e = Seq::<bool>::empty();
    let s1 = e.push(s[0]);
    let s2 = s1.push(s[1]);
    let s3 = s2.push(s[2]);
    let s4 = s3.push(s[3]);
    let s5 = s4.push(s[4]);
    let s6 = s5.push(s[5]);
    let s7 = s6.push(s[6]);
    bits_weigh_powers_of_two(e, s[0]);
    bits_weigh_powers_of_two(s1, s[1]);
    bits_weigh_powers_of_two(s2, s[2]);
    bits_weigh_powers_of_two(s3, s[3]);
    bits_weigh_powers_of_two(s4, s[4]);
    bits_weigh_powers_of_two(s5, s[5]);
    bits_weigh_powers_of_two(s6, s[6]);
    bits_weigh_powers_of_two(s7, s[7]);
    assert(s =~= s7.push(s[7]));
}

/// A stream that has ended goes on as if zero bits followed it, for any number of them.
pub proof fn ended_stream_reads_zeros(s: Seq<bool>, more: nat, n: nat)
    ensures
        first_bits(s + zero_bits(more), n) == first_bits(s, n),
        n <= s.len() ==> first_bits(s, n) == s.take(n as int),
        next_bit(s) == first_bits(s, 1)[0],
        drop_bits(s, s.len() as int + n).len() == 0,
        s.len() > 0 ==> s == seq![next_bit(s)] + drop_bits(s, 1),
{
    assert(first_bits(s + zero_bits(more), n) =~= first_bits(s, n));
    if n <= s.len() {
        assert(first_bits(s, n) =~= s.take(n as int));
    }
    if s.len() > 0 {
        assert(s =~= seq![next_bit(s)] + drop_bits(s, 1));
    }
}

/// A forward-only reader of bits. Its view is what is left to read.
#[derive(Clone, Copy)]
pub struct BitReader<'a> {
    data: &'a [u8],
    byte_idx: usize,
    bit_idx: u8,
}

impl<'a> View for BitReader<'a> {
    type V = Seq<bool>;

    closed spec fn view(&self) -> Seq<bool> {
        bits_of(self.data@).skip(8 * self.byte_idx + self.bit_idx)
    }
}

impl<'a> BitReader<'a> {
    #[verifier::type_invariant]
    spec fn well_formed(self) -> bool {
        &&& self.byte_idx <= self.data@.len()
        &&& self.bit_idx < 8
        &&& self.byte_idx == self.data@.len() ==> self.bit_idx == 0
    }

    pub fn new(data: &'a [u8]) -> (r: Self)
        ensures
            r@ == bits_of(data@),
    {
        let r = BitReader { data, byte_idx: 0, bit_idx: 0 };
        assert(r@ =~= bits_of(data@));
        r
    }

    /// Reads one bit; past the end every bit reads as zero.
    pub fn read_bit(&mut self) -> (bit: bool)
        ensures
            bit == next_bit(old(self)@),
            final(self)@ == drop_bits(old(self)@, 1),
    {
        proof {
            use_type_invariant(&*self);
        }
        let ghost all = bits_of(self.data@);
        let ghost pos = 8 * self.byte_idx + self.bit_idx;
        if self.byte_idx >= self.data.len() {
            assert(self@.len() == 0);
            assert(drop_bits(self@, 1) =~= self@);
            return false;
        }
        let b: u8 = self.data[self.byte_idx];
        let s: u8 = 7 - self.bit_idx;
        let bit = (b >> s) & 1 != 0;
        assert((b >> s) & 1 == 0 || (b >> s) & 1 == 1) by (bit_vector);
        assert(self@[0] == all[pos]);
        assert(all[pos] == bit_of(b, self.bit_idx as int)) by {
            assert(pos / 8 == self.byte_idx && pos % 8 == self.bit_idx);
        }
        if self.bit_idx == 7 {
            self.bit_idx = 0;
            self.byte_idx = self.byte_idx + 1;
        } else {
            self.bit_idx = self.bit_idx + 1;
        }
        assert(self@ =~= drop_bits(old(self)@, 1));
        bit
    }

    /// Reads a `count`-bit number, keeping its low 32 bits.
    pub fn read_bits(&mut self, count: u32) -> (value: u32)
        ensures
            value == bits_value(first_bits(old(self)@, count as nat)) % 0x1_0000_0000,
            final(self)@ == drop_bits(old(self)@, count as int),
    {
        let mut value: u32 = 0;
        let mut i: u32 = 0;
        let ghost start = self@;
        assert(drop_bits(start, 0) =~= start);
        while i < count
            invariant
                i <= count,
                start == old(self)@,
                value == bits_value(first_bits(start, i as nat)) % 0x1_0000_0000,
                self@ == drop_bits(start, i as int),
            decreases count - i,
        {
            let ghost before = value;
            let bit = self.read_bit();
            let b: u32 = if bit { 1 } else { 0 };
            value = (value << 1) | b;
            proof {
                assert(((before << 1) | b) as int == (2 * before + b) % 0x1_0000_0000)
                    by (bit_vector)
                    requires
                        b <= 1,
                ;
                let s = first_bits(start, (i + 1) as nat);
                assert(s.drop_last() =~= first_bits(start, i as nat));
                assert(s.last() == bit);
                assert(drop_bits(drop_bits(start, i as int), 1) =~= drop_bits(start, i + 1));
            }
            i = i + 1;
        }
        value
    }
}

/// A writer of bits. Its view is what has been written.
pub struct BitWriter {
    bytes: Vec<u8>,
    current: u8,
    bit_count: u8,
}

/// The low `n` bits of `b`, most significant bit first.
spec fn low_bits(b: u8, n: u8) -> Seq<bool> {
    Seq::new(n as nat, |j: int| (b >> ((n - 1 - j) as u8)) & 1u8 == 1u8)
}

impl View for BitWriter {
    type V = Seq<bool>;

    closed spec fn view(&self) -> Seq<bool> {
        bits_of(self.bytes@) + low_bits(self.current, self.bit_count)
    }
}

proof fn lemma_bits_of_push(bytes: Seq<u8>, b: u8)
    ensures
        bits_of(bytes.push(b)) == bits_of(bytes) + low_bits(b, 8),
{
    let all = bits_of(bytes.push(b));
    assert forall|i: int| 0 <= i < all.len() implies all[i] == (bits_of(bytes) + low_bits(
        b,
        8,
    ))[i] by {
        if i < 8 * bytes.len() {
            assert(i / 8 < bytes.len());
        } else {
            assert(i / 8 == bytes.len() && i % 8 == i - 8 * bytes.len());
        }
    }
    assert(all =~= bits_of(bytes) + low_bits(b, 8));
}

proof fn lemma_low_bits_shift(b: u8, n: u8, bit: bool)
    requires
        n < 8,
    ensures
        low_bits((b << 1) | (if bit { 1u8 } else { 0u8 }), (n + 1) as u8) == low_bits(b, n).push(bit),
{
    let x = if bit {
        1u8
    } else {
        0u8
    };
    let c = (b << 1) | x;
    let s = low_bits(c, (n + 1) as u8);
    assert forall|j: int| 0 <= j < n + 1 implies s[j] == low_bits(b, n).push(bit)[j] by {
        if j < n {
            let k = (n - 1 - j) as u8;
            let k1 = (n - j) as u8;
            assert(((((b << 1) | x) >> k1) & 1u8) == ((b >> k) & 1u8)) by (bit_vector)
                requires
                    k < 7,
                    k1 == k + 1,
                    x <= 1,
            ;
        } else {
            assert((((b << 1) | x) >> 0u8) & 1u8 == x) by (bit_vector)
                requires
                    x <= 1,
            ;
        }
    }
    assert(s =~= low_bits(b, n).push(bit));
}

impl BitWriter {
    #[verifier::type_invariant]
    spec fn well_formed(self) -> bool {
        self.bit_count < 8
    }

    pub fn new() -> (w: Self)
        ensures
            w@ == Seq::<bool>::empty(),
    {
        let w = BitWriter { bytes: Vec::new(), current: 0, bit_count: 0 };
        assert(w@ =~= Seq::<bool>::empty());
        w
    }

    pub fn write_bit(&mut self, bit: bool)
        ensures
            final(self)@ == old(self)@.push(bit),
    {
        proof {
            use_type_invariant(&*self);
            lemma_low_bits_shift(self.current, self.bit_count, bit);
        }
        let x: u8 = if bit { 1 } else { 0 };
        let current: u8 = (self.current << 1) | x;
        let bit_count: u8 = self.bit_count + 1;
        if bit_count == 8 {
            proof {
                lemma_bits_of_push(self.bytes@, current);
            }
            let mut bytes: Vec<u8> = Vec::new();
            core::mem::swap(&mut bytes, &mut self.bytes);
            bytes.push(current);
            self.bytes = bytes;
            self.current = 0;
            self.bit_count = 0;
        } else {
            self.current = current;
            self.bit_count = bit_count;
        }
        assert(self@ =~= old(self)@.push(bit));
    }

    /// Writes the low `count` bits of `value`.
    pub fn write_bits(&mut self, value: u32, count: u32)
        requires
            count <= 32,
        ensures
            final(self)@ == old(self)@ + number_bits(value as nat, count as nat),
    {
        let mut i: u32 = count;
        let ghost start = self@;
        let ghost spelled = number_bits(value as nat, count as nat);
        assert(start + spelled.take(0) =~= start);
        while i > 0
            invariant
                i <= count <= 32,
                spelled == number_bits(value as nat, count as nat),
                start == old(self)@,
                self@ == start + spelled.take(count - i),
            decreases i,
        {
            i = i - 1;
            let shifted: u32 = value >> i;
            proof {
                vstd::bits::lemma_u32_shr_is_div(value, i);
                assert(shifted & 1 == shifted % 2) by (bit_vector);
                assert(spelled.take(count - i) =~= spelled.take(count - i - 1).push(
                    spelled[count - i - 1],
                ));
            }
            self.write_bit(shifted & 1 != 0);
            assert(self@ =~= start + spelled.take(count - i));
        }
        assert(spelled.take(count as int) =~= spelled);
    }

    /// Ends the stream, padding the last byte with zero bits.
    pub fn finish(self) -> (bytes: Vec<u8>)
        ensures
            bits_of(bytes@) == self@ + zero_bits(((8 - self@.len() % 8) % 8) as nat),
    {
        proof {
            use_type_invariant(&self);
        }
        let mut bytes = self.bytes;
        if self.bit_count > 0 {
            let pad: u8 = 8 - self.bit_count;
            let last: u8 = self.current << pad;
            proof {
                lemma_bits_of_push(bytes@, last);
                let (c, n) = (self.current, self.bit_count);
                assert forall|j: int| 0 <= j < 8 implies low_bits(last, 8)[j] == (low_bits(c, n)
                    + zero_bits(pad as nat))[j] by {
                    let k = (7 - j) as u8;
                    if j < n {
                        let m = (n - 1 - j) as u8;
                        assert(((c << pad) >> k) & 1u8 == (c >> m) & 1u8) by (bit_vector)
                            requires
                                0 < n < 8,
                                pad == 8 - n,
                                k < 8,
                                k == m + pad,
                        ;
                    } else {
                        assert(((c << pad) >> k) & 1u8 == 0) by (bit_vector)
                            requires
                                pad < 8,
                                k < pad,
                        ;
                    }
                }
                assert(low_bits(last, 8) =~= low_bits(c, n) + zero_bits(pad as nat));
                assert(self@.len() % 8 == n);
            }
            bytes.push(last);
            assert(bits_of(bytes@) =~= self@ + zero_bits(pad as nat));
        } else {
            assert(bits_of(bytes@) =~= self@ + zero_bits(0));
        }
        bytes
    }
}

} // verus!

//! Bit-level stream reader and writer for DST frame packing/unpacking.

use vstd::arithmetic::div_mod::*;
use vstd::arithmetic::power2::*;
use vstd::bits::*;
use vstd::prelude::*;

use crate::codec::bits;

verus! {

/// The code of a number in unary: that many zeros, then a one.
pub open spec fn unary(n: nat) -> Seq<bool> {
    bits::run(false, n).push(true)
}

/// The number in unary code at position `pos`, if a one follows there at all.
pub open spec fn unary_at(s: Seq<bool>, pos: int) -> Option<nat>
    decreases s.len() - pos,
{
    if pos < 0 || pos >= s.len() {
        None
    } else if s[pos] {
        Some(0)
    } else {
        match unary_at(s, pos + 1) {
            Some(n) => Some(n + 1),
            None => None,
        }
    }
}

/// The two's complement reading of an `n`-bit number.
pub open spec fn signed(v: nat, n: nat) -> int {
    if v >= pow2((n - 1) as nat) {
        v - pow2(n)
    } else {
        v as int
    }
}

/// The low `n` digits of a number in two's complement.
pub open spec fn signed_binary(v: int, n: nat) -> Seq<bool> {
    bits::binary((v % pow2(n) as int) as nat, n)
}

pub proof fn lemma_unary_at(s: Seq<bool>, pos: nat, n: nat)
    requires
        bits::holds(s, pos, unary(n)),
    ensures
        unary_at(s, pos as int) == Some(n),
    decreases n,
{
    let t = s.subrange(pos as int, (pos + unary(n).len()) as int);
    assert(t[0] == unary(n)[0]);
    if n > 0 {
        assert(unary(n) =~= seq![false] + unary((n - 1) as nat));
        bits::lemma_holds_concat(s, pos, seq![false], unary((n - 1) as nat));
        lemma_unary_at(s, pos + 1, (n - 1) as nat);
    }
}

/// Two's complement reading undoes two's complement writing.
pub proof fn lemma_signed_round_trip(v: int, n: nat)
    requires
        n >= 1,
        -pow2((n - 1) as nat) <= v < pow2((n - 1) as nat),
    ensures
        signed(bits::value(signed_binary(v, n)), n) == v,
{
    lemma_pow2_unfold(n);
    lemma_pow2_pos(n);
    let q = pow2(n) as int;
    lemma_mod_bound(v, q);
    bits::lemma_value_binary((v % q) as nat, n);
    lemma_small_mod((v % q) as nat, pow2(n));
    if v >= 0 {
        lemma_small_mod(v as nat, pow2(n));
    } else {
        lemma_mod_add_multiples_vanish(v, q);
        lemma_small_mod((v + q) as nat, pow2(n));
    }
}

/// Write individual bits MSB-first into a byte buffer.
pub struct BitstreamWriter {
    buffer: Vec<u8>,
    current_byte: u8,
    bits_in_current: u8,
    total_bits: usize,
}

impl View for BitstreamWriter {
    type V = Seq<bool>;

    /// The bits written so far.
    closed spec fn view(&self) -> Seq<bool> {
        bits::unpack(self.buffer@) + bits::binary(
            self.current_byte as nat,
            self.bits_in_current as nat,
        )
    }
}

impl BitstreamWriter {
    /// The writer is in a state that its operations leave behind.
    pub closed spec fn wf(self) -> bool {
        &&& self.bits_in_current < 8
        &&& self.current_byte < pow2(self.bits_in_current as nat)
        &&& self.total_bits == 8 * self.buffer@.len() + self.bits_in_current
    }

    pub fn new() -> (w: Self)
        ensures
            w.wf(),
            w@ == Seq::<bool>::empty(),
    {
        let w = Self { buffer: Vec::new(), current_byte: 0, bits_in_current: 0, total_bits: 0 };
        proof {
            lemma2_to64();
            assert(w@ =~= Seq::<bool>::empty());
        }
        w
    }

    /// Current write position in bits.
    pub fn bit_position(&self) -> (n: usize)
        requires
            self.wf(),
        ensures
            n == self@.len(),
    {
        proof {
            bits::lemma_binary_len(self.current_byte as nat, self.bits_in_current as nat);
        }
        self.total_bits
    }

    /// Write a single bit: the lowest one of `bit`.
    pub fn write_bit(&mut self, bit: u8)
        requires
            old(self).wf(),
            old(self)@.len() < usize::MAX,
        ensures
            final(self).wf(),
            final(self)@ == old(self)@.push(bit % 2 == 1),
    {
        let ghost before = self@;
        let ghost cur = self.current_byte;
        let ghost n = self.bits_in_current as nat;
        let ghost digits = bits::binary(cur as nat, n);
        proof {
            lemma2_to64();
            bits::lemma_binary_len(cur as nat, n);
            lemma_pow2_unfold(n + 1);
            if n < 7 {
                lemma_pow2_strictly_increases(n, 7);
            }
            assert((cur << 1u8) | (bit & 1) == 2 * cur + bit % 2) by (bit_vector)
                requires
                    cur < 128,
            ;
        }
        self.current_byte = (self.current_byte << 1) | (bit & 1);
        self.bits_in_current = self.bits_in_current + 1;
        self.total_bits = self.total_bits + 1;
        proof {
            assert(bits::binary(self.current_byte as nat, n + 1) == digits.push(bit % 2 == 1));
        }
        if self.bits_in_current == 8 {
            proof {
                bits::lemma_unpack_push(self.buffer@, self.current_byte);
            }
            self.buffer.push(self.current_byte);
            self.current_byte = 0;
            self.bits_in_current = 0;
        }
        proof {
            assert(self@ =~= before.push(bit % 2 == 1));
        }
    }

    /// Write n_bits from value, MSB first.
    pub fn write_bits(&mut self, value: u32, n_bits: usize)
        requires
            old(self).wf(),
            n_bits <= 32,
            old(self)@.len() + n_bits <= usize::MAX,
        ensures
            final(self).wf(),
            final(self)@ == old(self)@ + bits::binary(value as nat, n_bits as nat),
    {
        let ghost digits = bits::binary(value as nat, n_bits as nat);
        proof {
            bits::lemma_binary_len(value as nat, n_bits as nat);
            assert(digits.take(0) =~= Seq::<bool>::empty());
            assert(self@ =~= old(self)@ + digits.take(0));
        }
        let mut i: usize = n_bits;
        while i > 0
            invariant
                i <= n_bits <= 32,
                self.wf(),
                old(self)@.len() + n_bits <= usize::MAX,
                digits == bits::binary(value as nat, n_bits as nat),
                digits.len() == n_bits,
                self@ == old(self)@ + digits.take(n_bits - i),
            decreases i,
        {
            i = i - 1;
            let bit: u8 = ((value >> (i as u32)) & 1) as u8;
            proof {
                bits::lemma_word_bit(value, n_bits as nat, i as u32);
            }
            self.write_bit(bit);
            proof {
                assert(digits.take(n_bits - i) =~= digits.take(n_bits - i - 1).push(
                    digits[n_bits - i - 1],
                ));
                assert(self@ =~= old(self)@ + digits.take(n_bits - i));
            }
        }
        proof {
            assert(digits.take(n_bits as int) =~= digits);
        }
    }

    /// Bulk-write a slice of single-bit values (each 0 or 1).
    pub fn write_bit_slice(&mut self, bits: &[u8])
        requires
            old(self).wf(),
            old(self)@.len() + bits@.len() <= usize::MAX,
        ensures
            final(self).wf(),
            final(self)@ == old(self)@ + bits@.map_values(|b: u8| b % 2 == 1),
    {
        let ghost all = bits@.map_values(|b: u8| b % 2 == 1);
        let mut i: usize = 0;
        proof {
            assert(self@ =~= old(self)@ + all.take(0));
        }
        while i < bits.len()
            invariant
                i <= bits@.len(),
                self.wf(),
                old(self)@.len() + bits@.len() <= usize::MAX,
                all == bits@.map_values(|b: u8| b % 2 == 1),
                self@ == old(self)@ + all.take(i as int),
            decreases bits@.len() - i,
        {
            self.write_bit(bits[i]);
            i = i + 1;
            proof {
                assert(all.take(i as int) =~= all.take(i - 1).push(all[i - 1]));
                assert(self@ =~= old(self)@ + all.take(i as int));
            }
        }
        proof {
            assert(all.take(i as int) =~= all);
        }
    }

    /// Write n_bits as two's complement signed integer, MSB first.
    pub fn write_bits_signed(&mut self, value: i32, n_bits: usize)
        requires
            old(self).wf(),
            n_bits <= 32,
            value < 0 ==> n_bits <= 30,
            old(self)@.len() + n_bits <= usize::MAX,
        ensures
            final(self).wf(),
            final(self)@ == old(self)@ + signed_binary(value as int, n_bits as nat),
    {
        let ghost q = pow2(n_bits as nat) as int;
        proof {
            lemma2_to64();
            lemma_pow2_pos(n_bits as nat);
        }
        let unsigned: u32 = if value < 0 {
            proof {
                lemma_u32_shl_is_mul_signed(n_bits as u32);
                if n_bits < 30 {
                    lemma_pow2_strictly_increases(n_bits as nat, 30);
                }
            }
            let sum: i32 = value + (1i32 << (n_bits as u32));
            proof {
                lemma_low_digits_wrap(sum, n_bits as nat);
                lemma_mod_add_multiples_vanish(value as int, q);
            }
            sum as u32
        } else {
            value as u32
        };
        proof {
            bits::lemma_binary_low(unsigned as nat, n_bits as nat);
        }
        self.write_bits(unsigned, n_bits);
    }

    /// Write unary code: `value` zeros followed by a 1.
    pub fn write_unary(&mut self, value: u32)
        requires
            old(self).wf(),
            old(self)@.len() + value + 1 <= usize::MAX,
        ensures
            final(self).wf(),
            final(self)@ == old(self)@ + unary(value as nat),
    {
        let mut i: u32 = 0;
        proof {
            assert(self@ =~= old(self)@ + bits::run(false, 0));
        }
        while i < value
            invariant
                i <= value,
                self.wf(),
                old(self)@.len() + value + 1 <= usize::MAX,
                self@ == old(self)@ + bits::run(false, i as nat),
            decreases value - i,
        {
            self.write_bit(0);
            i = i + 1;
            proof {
                assert(self@ =~= old(self)@ + bits::run(false, i as nat));
            }
        }
        self.write_bit(1);
        proof {
            assert(self@ =~= old(self)@ + unary(value as nat));
        }
    }

    /// Flush to byte-aligned output and return bytes.
    pub fn get_bytes(&self) -> (r: Vec<u8>)
        requires
            self.wf(),
        ensures
            r@ == bits::pack(self@),
    {
        let mut result: Vec<u8> = self.buffer.clone();
        proof {
            assert(result@ =~= self.buffer@);
        }
        if self.bits_in_current > 0 {
            let pad: u8 = 8 - self.bits_in_current;
            let cur: u8 = self.current_byte;
            proof {
                let n = self.bits_in_current as nat;
                lemma2_to64();
                lemma_pow2_adds(n, pad as nat);
                lemma_pow2_pos(pad as nat);
                assert(cur * pow2(pad as nat) <= 255) by (nonlinear_arith)
                    requires
                        cur < pow2(n),
                        pow2(n) * pow2(pad as nat) == 256,
                        pow2(pad as nat) > 0,
                ;
                lemma_u8_shl_is_mul(cur, pad);
                bits::lemma_binary_shifted(cur as nat, n, pad as nat);
                bits::lemma_unpack_push(self.buffer@, cur << pad);
                assert(bits::unpack(self.buffer@.push(cur << pad)) =~= self@ + bits::run(
                    false,
                    pad as nat,
                ));
                bits::lemma_pack_unique(self.buffer@.push(cur << pad), self@, pad as nat);
            }
            result.push(self.current_byte << pad);
        } else {
            proof {
                assert(bits::unpack(self.buffer@) =~= self@ + bits::run(false, 0));
                bits::lemma_pack_unique(self.buffer@, self@, 0);
            }
        }
        result
    }
}

impl Default for BitstreamWriter {
    fn default() -> (w: Self)
        ensures
            w.wf(),
            w@ == Seq::<bool>::empty(),
    {
        Self::new()
    }
}

proof fn lemma_u32_shl_is_mul_signed(n: u32)
    requires
        n <= 30,
    ensures
        (1i32 << n) == pow2(n as nat),
{
    lemma2_to64();
    if n < 30 {
        lemma_pow2_strictly_increases(n as nat, 30);
    }
    lemma_u32_shl_is_mul(1, n);
    assert((1i32 << n) == (1u32 << n)) by (bit_vector)
        requires
            n <= 30,
    ;
}

/// The low digits of a number survive its conversion to an unsigned one.
proof fn lemma_low_digits_wrap(v: i32, n: nat)
    requires
        n <= 32,
    ensures
        (v as u32) as int % pow2(n) as int == v as int % pow2(n) as int,
{
    lemma2_to64();
    lemma_pow2_pos(n);
    let q = pow2(n) as int;
    let u = v as u32;
    assert(v >= 0 ==> u == v) by (bit_vector)
        requires
            u == v as u32,
    ;
    assert(v < 0 ==> u == v + 0x1_0000_0000) by (bit_vector)
        requires
            u == v as u32,
    ;
    if v < 0 {
        lemma_pow2_adds(n, (32 - n) as nat);
        let k = pow2((32 - n) as nat) as int;
        assert(u == v + k * q) by (nonlinear_arith)
            requires
                u == v + 0x1_0000_0000,
                q * k == 0x1_0000_0000,
        ;
        lemma_mod_multiples_vanish(k, v as int, q);
        assert(q * k + v == v + k * q) by (nonlinear_arith);
    }
}

/// Read individual bits MSB-first from a byte buffer.
pub struct BitstreamReader<'a> {
    data: &'a [u8],
    byte_pos: usize,
    bit_pos: u8,  // 0-7, 0 = MSB
    total_bits_read: usize,
}

impl<'a> View for BitstreamReader<'a> {
    type V = nat;

    /// The position of the next bit.
    closed spec fn view(&self) -> nat {
        self.total_bits_read as nat
    }
}

impl<'a> BitstreamReader<'a> {
    /// The bits that the reader reads from.
    pub closed spec fn source(self) -> Seq<bool> {
        bits::unpack(self.data@)
    }

    /// The reader is in a state that its operations leave behind.
    pub closed spec fn wf(self) -> bool {
        &&& self.bit_pos < 8
        &&& self.byte_pos <= self.data@.len()
        &&& self.byte_pos == self.data@.len() ==> self.bit_pos == 0
        &&& self.total_bits_read == 8 * self.byte_pos + self.bit_pos
        &&& 8 * self.data@.len() <= usize::MAX
    }

    /// The number of bits in `data` has to fit a `usize`.
    pub fn new(data: &'a [u8]) -> (r: Self)
        requires
            8 * data@.len() <= usize::MAX,
        ensures
            r.wf(),
            r.source() == bits::unpack(data@),
            r@ == 0,
    {
        Self { data, byte_pos: 0, bit_pos: 0, total_bits_read: 0 }
    }

    /// Current read position in bits.
    pub fn bit_position(&self) -> (n: usize)
        ensures
            n == self@,
    {
        self.total_bits_read
    }

    /// Number of bits remaining in the buffer.
    pub fn bits_remaining(&self) -> (n: usize)
        requires
            self.wf(),
        ensures
            n == self.source().len() - self@,
    {
        self.data.len() * 8 - self.total_bits_read
    }

    /// Read a single bit (0 or 1); past the end of the data, 0.
    pub fn read_bit(&mut self) -> (bit: u8)
        requires
            old(self).wf(),
        ensures
            final(self).wf(),
            final(self).source() == old(self).source(),
            final(self)@ == bits::advance(old(self).source().len(), old(self)@, 1),
            bit <= 1,
            bit == 1 <==> bits::window(old(self).source(), old(self)@ as int, 1)[0],
    {
        if self.byte_pos >= self.data.len() {
            return 0;
        }
        let bit: u8 = (self.data[self.byte_pos] >> (7 - self.bit_pos)) & 1;
        proof {
            bits::lemma_byte_bit(self.data@[self.byte_pos as int], self.bit_pos);
            assert(self@ as int / 8 == self.byte_pos && self@ as int % 8 == self.bit_pos);
        }
        self.bit_pos = self.bit_pos + 1;
        self.total_bits_read = self.total_bits_read + 1;
        if self.bit_pos == 8 {
            self.byte_pos = self.byte_pos + 1;
            self.bit_pos = 0;
        }
        bit
    }

    /// Read n_bits, MSB first, return the low 32 of them as unsigned integer.
    pub fn read_bits(&mut self, n_bits: usize) -> (v: u32)
        requires
            old(self).wf(),
        ensures
            final(self).wf(),
            final(self).source() == old(self).source(),
            final(self)@ == bits::advance(old(self).source().len(), old(self)@, n_bits as nat),
            v == bits::value(
                bits::window(old(self).source(), old(self)@ as int, n_bits as nat),
            ) % 0x1_0000_0000,
            n_bits <= 32 ==> v == bits::value(
                bits::window(old(self).source(), old(self)@ as int, n_bits as nat),
            ),
            n_bits <= 32 ==> v < pow2(n_bits as nat),
    {
        let ghost s = self.source();
        let ghost at = self@;
        let mut value: u32 = 0;
        let mut i: usize = 0;
        proof {
            assert(bits::window(s, at as int, 0) =~= Seq::<bool>::empty());
        }
        while i < n_bits
            invariant
                i <= n_bits,
                self.wf(),
                s == old(self).source(),
                at == old(self)@,
                self.source() == s,
                self@ == bits::advance(s.len(), at, i as nat),
                value == bits::value(bits::window(s, at as int, i as nat)) % 0x1_0000_0000,
            decreases n_bits - i,
        {
            let ghost w = bits::window(s, at as int, i as nat);
            let bit: u8 = self.read_bit();
            proof {
                bits::lemma_window_push(s, at as int, i as nat);
                bits::lemma_value_push(w, bit == 1);
                let wide = bit as u32;
                assert((value << 1u32) | wide == (2 * value + wide) % 0x1_0000_0000)
                    by (bit_vector)
                    requires
                        wide <= 1,
                ;
            }
            value = (value << 1) | bit as u32;
            i = i + 1;
        }
        proof {
            bits::lemma_value_bound(bits::window(s, at as int, n_bits as nat));
            lemma2_to64();
            if n_bits < 32 {
                lemma_pow2_strictly_increases(n_bits as nat, 32);
            }
        }
        value
    }

    /// Read n_bits as two's complement signed integer.
    ///
    /// Up to 30 bits hold any number, 31 and 32 bits one that is not negative.
    pub fn read_bits_signed(&mut self, n_bits: usize) -> (v: i32)
        requires
            old(self).wf(),
            1 <= n_bits <= 32,
            n_bits <= 30 || !bits::window(old(self).source(), old(self)@ as int, 1)[0],
        ensures
            final(self).wf(),
            final(self).source() == old(self).source(),
            final(self)@ == bits::advance(old(self).source().len(), old(self)@, n_bits as nat),
            v == signed(
                bits::value(bits::window(old(self).source(), old(self)@ as int, n_bits as nat)),
                n_bits as nat,
            ),
    {
        let ghost w = bits::window(self.source(), self@ as int, n_bits as nat);
        let ghost top = bits::window(self.source(), self@ as int, 1);
        let value: u32 = self.read_bits(n_bits);
        proof {
            lemma2_to64();
            lemma_pow2_unfold(n_bits as nat);
            let sh = (n_bits - 1) as u32;
            if sh < 31 {
                lemma_pow2_strictly_increases(sh as nat, 31);
            }
            lemma_u32_shl_is_mul(1, sh);
            if n_bits <= 30 {
                lemma_u32_shl_is_mul_signed(n_bits as u32);
                if n_bits < 30 {
                    lemma_pow2_strictly_increases(n_bits as nat, 30);
                }
            } else {
                // The first digit decides whether the number reaches the upper half.
                let tail = w.subrange(1, n_bits as int);
                assert(w =~= seq![w[0]] + tail);
                assert(w[0] == top[0]);
                bits::lemma_value_concat(seq![w[0]], tail);
                bits::lemma_value_bound(tail);
                assert(seq![w[0]] =~= Seq::<bool>::empty().push(w[0]));
                bits::lemma_value_push(Seq::<bool>::empty(), w[0]);
                assert(0 * pow2(tail.len()) == 0);
            }
        }
        if value >= (1u32 << ((n_bits - 1) as u32)) {
            value as i32 - (1i32 << (n_bits as u32))
        } else {
            value as i32
        }
    }

    /// Read unary code: count zeros until a 1 is found.
    ///
    /// There has to be a 1 ahead, after no more zeros than a `u32` can count.
    pub fn read_unary(&mut self) -> (count: u32)
        requires
            old(self).wf(),
            unary_at(old(self).source(), old(self)@ as int) is Some,
            unary_at(old(self).source(), old(self)@ as int)->0 <= u32::MAX,
        ensures
            final(self).wf(),
            final(self).source() == old(self).source(),
            Some(count as nat) == unary_at(old(self).source(), old(self)@ as int),
            final(self)@ == old(self)@ + count + 1,
    {
        match self.try_read_unary() {
            Some(count) => count,
            None => 0,
        }
    }

    /// Read unary code, or nothing where no 1 is ahead that a `u32` can count up to.
    pub fn try_read_unary(&mut self) -> (count: Option<u32>)
        requires
            old(self).wf(),
        ensures
            final(self).wf(),
            final(self).source() == old(self).source(),
            match unary_at(old(self).source(), old(self)@ as int) {
                Some(n) if n <= u32::MAX => {
                    &&& count == Some(n as u32)
                    &&& final(self)@ == old(self)@ + n + 1
                },
                _ => count is None,
            },
    {
        let ghost s = self.source();
        let ghost at = self@;
        let mut count: u32 = 0;
        loop
            invariant
                self.wf(),
                s == old(self).source(),
                at == old(self)@,
                self.source() == s,
                self@ == at + count,
                unary_at(s, at as int) == (match unary_at(s, self@ as int) {
                    Some(n) => Some(n + count as nat),
                    None => None::<nat>,
                }),
            decreases s.len() - self@,
        {
            if self.byte_pos >= self.data.len() {
                return None;
            }
            let bit: u8 = self.read_bit();
            if bit != 0 {
                return Some(count);
            }
            if count == u32::MAX {
                return None;
            }
            count = count + 1;
        }
    }
}

/// What the writer packs, the reader finds: the bits stand in their packed bytes from
/// the first bit on, and only zeros follow.
pub proof fn law_packed_bits_read_back(s: Seq<bool>)
    ensures
        bits::holds(bits::unpack(bits::pack(s)), 0, s),
        bits::unpack(bits::pack(s)).len() < s.len() + 8,
        forall|i: int|
            s.len() <= i < bits::unpack(bits::pack(s)).len() ==> !#[trigger] bits::unpack(
                bits::pack(s),
            )[i],
{
    bits::lemma_unpack_pack(s);
    assert(bits::unpack(bits::pack(s)).subrange(0, s.len() as int) =~= s);
}

/// A number written behind other bits stands in the packed bytes digit by digit, the highest
/// one first; the bits before it stay, and the position moves on by the digits.
pub proof fn law_written_number(before: Seq<bool>, value: u32, n_bits: nat, j: nat)
    requires
        n_bits <= 32,
        j < n_bits,
    ensures
        ({
            let written = before + bits::binary(value as nat, n_bits);
            let packed = bits::unpack(bits::pack(written));
            &&& written.len() == before.len() + n_bits
            &&& written.len() <= packed.len()
            &&& forall|k: int| 0 <= k < before.len() ==> #[trigger] packed[k] == before[k]
            &&& (value >> ((n_bits - 1 - j) as u32)) & 1 == (if packed[(before.len() + j) as int] {
                1u32
            } else {
                0u32
            })
        }),
{
    let digits = bits::binary(value as nat, n_bits);
    let written = before + digits;
    let packed = bits::unpack(bits::pack(written));
    bits::lemma_binary_len(value as nat, n_bits);
    law_packed_bits_read_back(written);
    let t = packed.subrange(0, written.len() as int);
    assert forall|k: int| 0 <= k < written.len() implies packed[k] == written[k] by {
        assert(packed[k] == t[k]);
    }
    bits::lemma_word_bit(value, n_bits, (n_bits - 1 - j) as u32);
    assert(written[(before.len() + j) as int] == digits[j as int]);
}

} // verus!

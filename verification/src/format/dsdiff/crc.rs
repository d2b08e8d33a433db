//! CRC-32 of DST frames.

use vstd::prelude::*;

use crate::codec::bits;

verus! {

/// CRC-32 polynomial for DST frame checksums.
///
/// G(x) = x^32 + x^31 + x^4 + 1
pub const DST_CRC_POLY: u32 = 0x8000_0011;

/// The remainder after one more bit: shifted up, and reduced by the polynomial if the
/// bit that falls off differs from the new one.
pub open spec fn crc_step(c: u32, bit: bool) -> u32 {
    if (c >= 0x8000_0000) != bit {
        (c << 1) ^ DST_CRC_POLY
    } else {
        c << 1
    }
}

/// The CRC of a bit string.
pub open spec fn crc(s: Seq<bool>) -> u32
    decreases s.len(),
{
    if s.len() == 0 {
        0
    } else {
        crc_step(crc(s.drop_last()), s.last())
    }
}

/// Compute the DST frame CRC over interleaved DSD channel bytes.
///
/// Input is the original (uncompressed) DSD data as interleaved channel bytes
/// (CH0_b0, CH1_b0, CH0_b1, CH1_b1, ...), processed MSB-first per byte.
/// Returns a 4-byte big-endian CRC (c31..c0).
pub fn dst_frame_crc(interleaved: &[u8]) -> (r: u32)
    ensures
        r == crc(bits::unpack(interleaved@)),
{
    let ghost s = bits::unpack(interleaved@);
    let mut crc: u32 = 0;
    let mut i: usize = 0;
    proof {
        assert(s.take(0) =~= Seq::<bool>::empty());
    }
    while i < interleaved.len()
        invariant
            i <= interleaved@.len(),
            s == bits::unpack(interleaved@),
            crc == self::crc(s.take(8 * i)),
        decreases interleaved@.len() - i,
    {
        let byte: u8 = interleaved[i];
        let mut bit: u8 = 0;
        while bit < 8
            invariant
                bit <= 8,
                i < interleaved@.len(),
                byte == interleaved@[i as int],
                s == bits::unpack(interleaved@),
                crc == self::crc(s.take(8 * i + bit)),
            decreases 8 - bit,
        {
            let input_bit: u32 = ((byte >> (7 - bit)) & 1) as u32;
            proof {
                let k = 8 * i + bit;
                assert(k / 8 == i && k % 8 == bit);
                bits::lemma_byte_bit(byte, bit);
                assert(s.take(k + 1).drop_last() =~= s.take(k));
                lemma_crc_step(crc, input_bit);
            }
            let feedback: u32 = (crc >> 31) ^ input_bit;
            crc = (crc << 1) ^ (feedback * DST_CRC_POLY);
            bit = bit + 1;
        }
        i = i + 1;
    }
    proof {
        assert(s.take(8 * i) =~= s);
    }
    crc
}

proof fn lemma_crc_step(c: u32, input: u32)
    requires
        input <= 1,
    ensures
        (c >> 31) ^ input <= 1,
        (c << 1) ^ ((((c >> 31) ^ input) * DST_CRC_POLY) as u32) == crc_step(c, input == 1),
{
    let f = (c >> 31) ^ input;
    assert(f == (if (c >= 0x8000_0000) != (input == 1) { 1u32 } else { 0u32 })) by (bit_vector)
        requires
            input <= 1,
            f == (c >> 31) ^ input,
    ;
    let d = c << 1;
    assert(d ^ 0 == d) by (bit_vector);
}

/// A remainder with its own digits fed in shifts out to zero.
proof fn lemma_crc_tail(s: Seq<bool>, k: nat)
    requires
        k <= 32,
    ensures
        crc(s + bits::binary(crc(s) as nat, 32).take(k as int)) == (if k == 32 {
            0u32
        } else {
            crc(s) << (k as u32)
        }),
    decreases k,
{
    let c = crc(s);
    let digits = bits::binary(c as nat, 32);
    bits::lemma_binary_len(c as nat, 32);
    if k == 0 {
        assert(s + digits.take(0) =~= s);
        assert(c << 0u32 == c) by (bit_vector);
    } else {
        lemma_crc_tail(s, (k - 1) as nat);
        let t = s + digits.take(k as int);
        let j = (k - 1) as u32;
        let i = (32 - k) as u32;
        assert(t.drop_last() =~= s + digits.take(k - 1));
        bits::lemma_word_bit(c, 32, i);
        let before = c << j;
        assert((before >= 0x8000_0000) == ((c >> i) & 1 == 1) && before << 1 == (if j == 31 {
            0u32
        } else {
            c << ((j + 1) as u32)
        })) by (bit_vector)
            requires
                j < 32,
                i == 31 - j,
                before == c << j,
        ;
    }
}

/// The CRC is a remainder: a bit string followed by its own CRC has the CRC zero.
pub proof fn law_crc_appended(s: Seq<bool>)
    ensures
        crc(s + bits::binary(crc(s) as nat, 32)) == 0,
{
    let digits = bits::binary(crc(s) as nat, 32);
    bits::lemma_binary_len(crc(s) as nat, 32);
    lemma_crc_tail(s, 32);
    assert(digits.take(32) =~= digits);
}

/// Steps with the same bit keep different remainders apart, steps from the same
/// remainder keep different bits apart.
proof fn lemma_crc_step_injective(a: u32, b: u32, bit: bool)
    ensures
        crc_step(a, bit) == crc_step(b, bit) ==> a == b,
        crc_step(a, bit) != crc_step(a, !bit),
{
    let (x, y) = (a << 1, b << 1);
    assert(((x ^ 0x8000_0011u32) == (y ^ 0x8000_0011u32) ==> x == y) && (x == y && (a >= 0x8000_0000)
        == (b >= 0x8000_0000) ==> a == b) && x ^ 0x8000_0011u32 != y && y ^ 0x8000_0011u32 != x && x
        ^ 0x8000_0011u32 != x) by (bit_vector)
        requires
            x == a << 1,
            y == b << 1,
    ;
}

proof fn lemma_crc_keeps_apart(a: Seq<bool>, b: Seq<bool>, tail: Seq<bool>)
    requires
        crc(a) != crc(b),
    ensures
        crc(a + tail) != crc(b + tail),
    decreases tail.len(),
{
    if tail.len() == 0 {
        assert(a + tail =~= a && b + tail =~= b);
    } else {
        let t = tail.drop_last();
        lemma_crc_keeps_apart(a, b, t);
        assert((a + tail).drop_last() =~= a + t);
        assert((b + tail).drop_last() =~= b + t);
        lemma_crc_step_injective(crc(a + t), crc(b + t), tail.last());
    }
}

/// A single wrong bit never goes unnoticed.
pub proof fn law_crc_detects_a_wrong_bit(s: Seq<bool>, i: int)
    requires
        0 <= i < s.len(),
    ensures
        crc(s.update(i, !s[i])) != crc(s),
{
    let head = s.take(i);
    let (a, b) = (head.push(s[i]), head.push(!s[i]));
    let tail = s.skip(i + 1);
    assert(a.drop_last() =~= head && b.drop_last() =~= head);
    lemma_crc_step_injective(crc(head), crc(head), s[i]);
    lemma_crc_keeps_apart(a, b, tail);
    assert(a + tail =~= s);
    assert(b + tail =~= s.update(i, !s[i]));
}

} // verus!

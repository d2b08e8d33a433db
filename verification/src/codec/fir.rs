//! FIR prediction and Ptable construction for DST.
//!
//! DSD data is stored as packed bytes (MSB-first, 8 bits per byte).
//! For FIR purposes, individual bits are mapped to {-1, +1}:
//!   bit 0 => sample -1, bit 1 => sample +1.

use vstd::arithmetic::div_mod::*;
use vstd::arithmetic::power2::*;
use vstd::bits::*;
use vstd::prelude::*;

use crate::codec::bits;
use crate::codec::constants::{AC_HISMAX, AC_PROBS, RESOL};

verus! {

// ---------------------------------------------------------------------------
// Packed bits
// ---------------------------------------------------------------------------

/// Extract the `i`-th bit from packed MSB-first bytes (0 or 1).
pub fn get_bit(packed: &[u8], i: usize) -> (bit: u8)
    requires
        i < 8 * packed@.len(),
    ensures
        bit == (if bits::unpack(packed@)[i as int] {
            1u8
        } else {
            0u8
        }),
{
    proof {
        bits::lemma_byte_bit(packed@[i as int / 8], (i % 8) as u8);
    }
    (packed[i / 8] >> ((7 - i % 8) as u8)) & 1
}

/// A byte with one of its digits changed.
proof fn lemma_change_digit(b: u8, i: u8, up: bool)
    requires
        i < 8,
    ensures
        ({
            let mask = 1u8 << ((7 - i) as u8);
            let c = if up { b | mask } else { b & !mask };
            bits::binary(c as nat, 8) == bits::binary(b as nat, 8).update(i as int, up)
        }),
{
    let sh = (7 - i) as u8;
    let mask = 1u8 << sh;
    let c = if up { b | mask } else { b & !mask };
    bits::lemma_binary_len(b as nat, 8);
    bits::lemma_binary_len(c as nat, 8);
    assert forall|k: int| 0 <= k < 8 implies bits::binary(c as nat, 8)[k] == bits::binary(
        b as nat,
        8,
    ).update(i as int, up)[k] by {
        let j = (7 - k) as u8;
        assert(((b | (1u8 << sh)) >> j) & 1 == (if j == sh { 1u8 } else { (b >> j) & 1 }) && ((b & !(
        1u8 << sh)) >> j) & 1 == (if j == sh { 0u8 } else { (b >> j) & 1 })) by (bit_vector)
            requires
                sh < 8,
                j < 8,
        ;
        bits::lemma_byte_bit(c, k as u8);
        bits::lemma_byte_bit(b, k as u8);
    }
    assert(bits::binary(c as nat, 8) =~= bits::binary(b as nat, 8).update(i as int, up));
}

/// Set the `i`-th bit in packed MSB-first bytes.
pub fn set_bit(packed: &mut [u8], i: usize, val: u8)
    requires
        i < 8 * old(packed)@.len(),
    ensures
        final(packed)@.len() == old(packed)@.len(),
        bits::unpack(final(packed)@) == bits::unpack(old(packed)@).update(i as int, val != 0),
{
    let byte_idx: usize = i / 8;
    let bit_idx: u8 = (7 - i % 8) as u8;
    let b: u8 = packed[byte_idx];
    if val != 0 {
        packed[byte_idx] = b | (1u8 << bit_idx);
    } else {
        packed[byte_idx] = b & !(1u8 << bit_idx);
    }
    proof {
        lemma_change_digit(b, (i % 8) as u8, val != 0);
        bits::lemma_binary_len(b as nat, 8);
        let after = bits::unpack(packed@);
        let want = bits::unpack(old(packed)@).update(i as int, val != 0);
        assert forall|k: int| 0 <= k < after.len() implies after[k] == want[k] by {
            if k / 8 != byte_idx {
                assert(packed@[k / 8] == old(packed)@[k / 8]);
            }
        }
        assert(after =~= want);
    }
}

// ---------------------------------------------------------------------------
// Autocorrelation
// ---------------------------------------------------------------------------

/// The sample that a bit stands for.
pub open spec fn sample(b: bool) -> int {
    if b {
        1
    } else {
        -1
    }
}

/// The sum of the products of the first `count` samples with those `k` further on.
pub open spec fn correlation(s: Seq<bool>, k: nat, count: nat) -> int
    decreases count,
{
    if count == 0 {
        0
    } else {
        correlation(s, k, (count - 1) as nat) + sample(s[count - 1]) * sample(s[count - 1 + k])
    }
}

/// How many of the first `count` bits differ from those `k` further on.
spec fn mismatches(s: Seq<bool>, k: nat, count: nat) -> nat
    decreases count,
{
    if count == 0 {
        0
    } else {
        mismatches(s, k, (count - 1) as nat) + digit(s[count - 1] != s[count - 1 + k])
    }
}

spec fn digit(b: bool) -> nat {
    if b {
        1
    } else {
        0
    }
}

proof fn lemma_mismatches(s: Seq<bool>, k: nat, count: nat)
    ensures
        correlation(s, k, count) == count - 2 * mismatches(s, k, count),
        mismatches(s, k, count) <= count,
        k == 0 ==> mismatches(s, k, count) == 0,
    decreases count,
{
    if count > 0 {
        lemma_mismatches(s, k, (count - 1) as nat);
    }
}

/// How many digits of a byte are ones.
fn count_ones(x: u8) -> (n: u64)
    ensures
        n == digit(bits::binary(x as nat, 8)[0]) + digit(bits::binary(x as nat, 8)[1]) + digit(
            bits::binary(x as nat, 8)[2],
        ) + digit(bits::binary(x as nat, 8)[3]) + digit(bits::binary(x as nat, 8)[4]) + digit(
            bits::binary(x as nat, 8)[5],
        ) + digit(bits::binary(x as nat, 8)[6]) + digit(bits::binary(x as nat, 8)[7]),
{
    proof {
        assert forall|i: u8| 0 <= i < 8 implies #[trigger] bits::binary(x as nat, 8)[i as int] == (
        (x >> ((7 - i) as u8)) & 1 == 1) by {
            bits::lemma_byte_bit(x, i);
        }
        assert(bits::binary(x as nat, 8)[0] == bits::binary(x as nat, 8)[0u8 as int]);
        assert(bits::binary(x as nat, 8)[1] == bits::binary(x as nat, 8)[1u8 as int]);
        assert(bits::binary(x as nat, 8)[2] == bits::binary(x as nat, 8)[2u8 as int]);
        assert(bits::binary(x as nat, 8)[3] == bits::binary(x as nat, 8)[3u8 as int]);
        assert(bits::binary(x as nat, 8)[4] == bits::binary(x as nat, 8)[4u8 as int]);
        assert(bits::binary(x as nat, 8)[5] == bits::binary(x as nat, 8)[5u8 as int]);
        assert(bits::binary(x as nat, 8)[6] == bits::binary(x as nat, 8)[6u8 as int]);
        assert(bits::binary(x as nat, 8)[7] == bits::binary(x as nat, 8)[7u8 as int]);
    }
    // Sums of neighbouring digits, then of neighbouring sums.
    let pairs: u8 = (x & 0x55).wrapping_add((x >> 1) & 0x55);
    let quads: u8 = (pairs & 0x33).wrapping_add((pairs >> 2) & 0x33);
    let n: u8 = (quads & 0x0f).wrapping_add((quads >> 4) & 0x0f);
    proof {
        lemma_ones(x, pairs, quads, n);
    }
    n as u64
}

proof fn lemma_ones(x: u8, pairs: u8, quads: u8, n: u8)
    requires
        pairs == (x & 0x55).wrapping_add((x >> 1) & 0x55),
        quads == (pairs & 0x33).wrapping_add((pairs >> 2) & 0x33),
        n == (quads & 0x0f).wrapping_add((quads >> 4) & 0x0f),
    ensures
        n == ((x >> 7) & 1) + ((x >> 6) & 1) + ((x >> 5) & 1) + ((x >> 4) & 1) + ((x >> 3) & 1) + ((x
            >> 2) & 1) + ((x >> 1) & 1) + ((x >> 0) & 1),
        forall|i: u8| i < 8 ==> ((#[trigger] (x >> i)) & 1) <= 1,
{
    assert((x & 0x55) + ((x >> 1) & 0x55) < 256 && (pairs & 0x33) + ((pairs >> 2) & 0x33) < 256 && (
    quads & 0x0f) + ((quads >> 4) & 0x0f) < 256) by (bit_vector);
    assert(n == ((x >> 7) & 1) + ((x >> 6) & 1) + ((x >> 5) & 1) + ((x >> 4) & 1) + ((x >> 3) & 1)
        + ((x >> 2) & 1) + ((x >> 1) & 1) + ((x >> 0) & 1)) by (bit_vector)
        requires
            pairs == (x & 0x55) + ((x >> 1) & 0x55),
            quads == (pairs & 0x33) + ((pairs >> 2) & 0x33),
            n == (quads & 0x0f) + ((quads >> 4) & 0x0f),
    ;
    assert forall|i: u8| i < 8 implies ((#[trigger] (x >> i)) & 1) <= 1 by {
        let y = x >> i;
        assert(y & 1 <= 1) by (bit_vector);
    }
}

/// The digits of two neighbouring bytes, moved up.
proof fn lemma_moved_up(a: u8, b: u8, sh: u8, i: u8)
    requires
        0 < sh < 8,
        i < 8,
    ensures
        bits::binary((a << sh) as nat, 8)[i as int] == (i + sh < 8 && bits::binary(a as nat, 8)[i
            + sh]),
        bits::binary(((a << sh) | (b >> ((8 - sh) as u8))) as nat, 8)[i as int] == (if i + sh < 8 {
            bits::binary(a as nat, 8)[i + sh]
        } else {
            bits::binary(b as nat, 8)[i + sh - 8]
        }),
{
    let inv = (8 - sh) as u8;
    let k = (7 - i) as u8;
    let c = a << sh;
    let d = (a << sh) | (b >> inv);
    bits::lemma_byte_bit(c, i);
    bits::lemma_byte_bit(d, i);
    if i + sh < 8 {
        bits::lemma_byte_bit(a, (i + sh) as u8);
        let m = (k - sh) as u8;
        assert((((a << sh) | (b >> inv)) >> k) & 1 == (a >> m) & 1 && ((a << sh) >> k) & 1 == (a
            >> m) & 1) by (bit_vector)
            requires
                0 < sh < 8,
                inv == 8 - sh,
                k < 8,
                sh <= k,
                m == k - sh,
        ;
    } else {
        bits::lemma_byte_bit(b, (i + sh - 8) as u8);
        let m = (k + inv) as u8;
        assert((((a << sh) | (b >> inv)) >> k) & 1 == (b >> m) & 1 && ((a << sh) >> k) & 1 == 0)
            by (bit_vector)
            requires
                0 < sh < 8,
                inv == 8 - sh,
                k < sh,
                m == k + inv,
        ;
    }
}

/// Reconstruct the byte that starts `shift` bits into byte `at`.
fn byte_across(packed: &[u8], at: usize, shift: usize) -> (r: u8)
    requires
        at < packed@.len(),
        shift < 8,
    ensures
        bits::binary(r as nat, 8) == bits::window(bits::unpack(packed@), 8 * at + shift, 8),
{
    let ghost w = bits::window(bits::unpack(packed@), 8 * at + shift, 8);
    let sh: u8 = shift as u8;
    let r: u8 = if shift == 0 {
        packed[at]
    } else if at < packed.len() - 1 {
        (packed[at] << sh) | (packed[at + 1] >> (8 - sh))
    } else {
        packed[at] << sh
    };
    proof {
        bits::lemma_binary_len(r as nat, 8);
        assert forall|i: int| 0 <= i < 8 implies bits::binary(r as nat, 8)[i] == w[i] by {
            let b = if at + 1 < packed@.len() { packed@[at + 1] } else { 0u8 };
            if shift > 0 {
                lemma_moved_up(packed@[at as int], b, sh, i as u8);
            }
            if i + shift < 8 {
                assert((8 * at + shift + i) / 8 == at && (8 * at + shift + i) % 8 == shift + i);
            } else {
                assert((8 * at + shift + i) / 8 == at + 1 && (8 * at + shift + i) % 8 == shift + i
                    - 8);
            }
        }
        assert(bits::binary(r as nat, 8) =~= w);
    }
    r
}

/// Eight more places, compared in one byte.
proof fn lemma_mismatches_of_byte(s: Seq<bool>, k: nat, j: nat, a: u8, b: u8)
    requires
        8 * j + 8 + k <= s.len(),
        bits::binary(a as nat, 8) == bits::window(s, 8 * j as int, 8),
        bits::binary(b as nat, 8) == bits::window(s, (8 * j + k) as int, 8),
    ensures
        ({
            let x = bits::binary((a ^ b) as nat, 8);
            mismatches(s, k, 8 * j + 8) == mismatches(s, k, 8 * j) + digit(x[0]) + digit(x[1])
                + digit(x[2]) + digit(x[3]) + digit(x[4]) + digit(x[5]) + digit(x[6]) + digit(x[7])
        }),
{
    let x = bits::binary((a ^ b) as nat, 8);
    let at = 8 * j as int;
    assert forall|i: int| 0 <= i < 8 implies #[trigger] x[i] == (s[at + i] != s[at + i + k])
        by {
        bits::lemma_byte_bit(a, i as u8);
        bits::lemma_byte_bit(b, i as u8);
        bits::lemma_byte_bit(a ^ b, i as u8);
        let sh = (7 - i) as u8;
        assert(((a ^ b) >> sh) & 1 == (if (a >> sh) & 1 == (b >> sh) & 1 { 0u8 } else { 1u8 }))
            by (bit_vector)
            requires
                sh < 8,
        ;
        assert(bits::binary(a as nat, 8)[i] == bits::window(s, 8 * j as int, 8)[i]);
        assert(bits::binary(b as nat, 8)[i] == bits::window(s, (8 * j + k) as int, 8)[i]);
    }
    reveal_with_fuel(mismatches, 9);
    assert(x[0] == (s[at + 0] != s[at + 0 + k]));
    assert(x[1] == (s[at + 1] != s[at + 1 + k]));
    assert(x[2] == (s[at + 2] != s[at + 2 + k]));
    assert(x[3] == (s[at + 3] != s[at + 3 + k]));
    assert(x[4] == (s[at + 4] != s[at + 4 + k]));
    assert(x[5] == (s[at + 5] != s[at + 5 + k]));
    assert(x[6] == (s[at + 6] != s[at + 6 + k]));
    assert(x[7] == (s[at + 7] != s[at + 7 + k]));
}

/// How many of the first `count` bits differ from those `k` further on.
fn count_mismatches(packed: &[u8], k: usize, count: usize) -> (n: u64)
    requires
        k + count <= 8 * packed@.len(),
        k + count <= i64::MAX,
        k + count <= usize::MAX,
    ensures
        n == mismatches(bits::unpack(packed@), k as nat, count as nat),
        n <= count,
{
    let ghost s = bits::unpack(packed@);
    let byte_shift: usize = k / 8;
    let bit_shift: usize = k % 8;
    let mut xor_ones: u64 = 0;
    let n_full_bytes: usize = count / 8;
    let mut j: usize = 0;
    while j < n_full_bytes
        invariant
            j <= n_full_bytes,
            n_full_bytes == count / 8,
            byte_shift == k / 8,
            bit_shift == k % 8,
            k + count <= 8 * packed@.len(),
            k + count <= i64::MAX,
            s == bits::unpack(packed@),
            xor_ones == mismatches(s, k as nat, (8 * j) as nat),
        decreases n_full_bytes - j,
    {
        let here: u8 = byte_across(packed, j, 0);
        let there: u8 = byte_across(packed, j + byte_shift, bit_shift);
        proof {
            lemma_mismatches(s, k as nat, (8 * j) as nat);
            lemma_mismatches_of_byte(s, k as nat, j as nat, here, there);
        }
        xor_ones = xor_ones + count_ones(here ^ there);
        j = j + 1;
    }
    // Remaining bits
    let mut i: usize = n_full_bytes * 8;
    while i < count
        invariant
            i <= count,
            k + count <= 8 * packed@.len(),
            k + count <= i64::MAX,
            k + count <= usize::MAX,
            s == bits::unpack(packed@),
            xor_ones == mismatches(s, k as nat, i as nat),
        decreases count - i,
    {
        let a: u8 = get_bit(packed, i);
        let b: u8 = get_bit(packed, i + k);
        proof {
            lemma_mismatches(s, k as nat, i as nat);
            bits::lemma_xor_bits();
        }
        xor_ones = xor_ones + (a ^ b) as u64;
        i = i + 1;
    }
    proof {
        lemma_mismatches(s, k as nat, count as nat);
    }
    xor_ones
}

/// Compute autocorrelation of a DSD bit sequence (packed MSB-first bytes).
///
/// `n_bits` is the total number of valid bits in `packed`.
/// Uses XOR + popcount for whole bytes and per-bit extraction for the bits that are
/// left. r[k] = matches - mismatches = n - k - 2*xor_popcount.
pub fn autocorrelation(packed: &[u8], n_bits: usize, order: usize) -> (r: Vec<i64>)
    requires
        n_bits <= 8 * packed@.len(),
        n_bits <= i64::MAX,
        order < usize::MAX,
    ensures
        r@.len() == order + 1,
        forall|k: int|
            0 <= k <= order ==> #[trigger] r@[k] == (if k < n_bits {
                correlation(bits::unpack(packed@), k as nat, (n_bits - k) as nat)
            } else {
                0
            }),
{
    let ghost s = bits::unpack(packed@);
    let mut r: Vec<i64> = Vec::new();
    r.push(n_bits as i64);
    proof {
        lemma_mismatches(s, 0, n_bits as nat);
    }
    let mut k: usize = 1;
    while k <= order
        invariant
            1 <= k <= order + 1,
            n_bits <= 8 * packed@.len(),
            n_bits <= i64::MAX,
            order < usize::MAX,
            s == bits::unpack(packed@),
            r@.len() == k,
            forall|h: int|
                0 <= h < k ==> #[trigger] r@[h] == (if h < n_bits {
                    correlation(s, h as nat, (n_bits - h) as nat)
                } else {
                    0
                }),
        decreases order + 1 - k,
    {
        if k >= n_bits {
            r.push(0);
        } else {
            let count: usize = n_bits - k;
            let xor_ones: u64 = count_mismatches(packed, k, count);
            proof {
                lemma_mismatches(s, k as nat, count as nat);
            }
            // matches = count - xor_ones, mismatches = xor_ones
            // r[k] = matches - mismatches
            r.push((count as i64 - xor_ones as i64) - xor_ones as i64);
        }
        k = k + 1;
    }
    r
}

// ---------------------------------------------------------------------------
// Filter
// ---------------------------------------------------------------------------

/// Smallest coefficient: 9-bit signed => [-256, 255].
pub const COEF_MIN: i16 = -256;

/// Largest coefficient.
pub const COEF_MAX: i16 = 255;

/// A coefficient brought into the 9-bit signed range.
pub fn clamp_coefficient(scaled: i16) -> (c: i16)
    ensures
        c == (if scaled < COEF_MIN {
            COEF_MIN
        } else if scaled > COEF_MAX {
            COEF_MAX
        } else {
            scaled
        }),
        -256 <= c <= 255,
        -256 <= scaled <= 255 ==> c == scaled,
        scaled < -256 ==> c == -256,
        scaled > 255 ==> c == 255,
{
    if scaled < COEF_MIN {
        COEF_MIN
    } else if scaled > COEF_MAX {
        COEF_MAX
    } else {
        scaled
    }
}

/// Maximum number of LUT tables (pred_order up to 128, 128/8 = 16).
pub const MAX_LUT_TABLES: usize = 16;

/// Fixed-size filter LUT: `lut[table_nr][byte_value]`.
///
/// Each entry is the dot product of 8 coefficients with the 8 bits of `byte_value`.
pub type FilterLut = [[i16; 256]; 16];

/// The number that a 16-bit signed integer keeps of another one.
pub open spec fn wrap16(x: int) -> int {
    (x + 0x8000) % 0x1_0000 - 0x8000
}

/// The coefficient at an index, zero behind the last one.
pub open spec fn coef_at(coefs: Seq<i16>, i: int) -> int {
    if 0 <= i < coefs.len() {
        coefs[i] as int
    } else {
        0
    }
}

/// The coefficients from `start` on times the samples of a bit pattern, added up.
pub open spec fn dot(coefs: Seq<i16>, start: int, pattern: Seq<bool>) -> int
    decreases pattern.len(),
{
    if pattern.len() == 0 {
        0
    } else {
        let c = coef_at(coefs, start + pattern.len() - 1);
        dot(coefs, start, pattern.drop_last()) + (if pattern.last() { c } else { -c })
    }
}

/// The bits of a byte, the lowest first.
pub open spec fn low_first(b: u8) -> Seq<bool> {
    bits::binary(b as nat, 8).reverse()
}

/// The byte whose bits, the lowest first, these are.
pub open spec fn byte_of(pattern: Seq<bool>) -> u8 {
    bits::value(pattern.reverse()) as u8
}

/// The lookup table holds the partial sums of these coefficients.
pub open spec fn lut_holds(lut: FilterLut, coefs: Seq<i16>) -> bool {
    forall|t: int, b: u8|
        0 <= t < MAX_LUT_TABLES ==> #[trigger] lut[t][b as int] == wrap16(
            dot(coefs, 8 * t, low_first(b)),
        )
}

/// The partial predictions of the first `n` tables, added up.
pub open spec fn lut_sum(lut: FilterLut, status: Seq<bool>, n: nat) -> int
    decreases n,
{
    if n == 0 {
        0
    } else {
        lut_sum(lut, status, (n - 1) as nat) + lut[n - 1][byte_of(
            status.subrange(8 * (n - 1), 8 * (n - 1) + 8),
        ) as int]
    }
}

/// The bit `j` steps back; before the first one stands a fixed pattern.
pub open spec fn recent(history: Seq<bool>, j: int) -> bool {
    if j < history.len() {
        history[history.len() - 1 - j]
    } else {
        (j - history.len()) % 2 == 1
    }
}

/// The eight bits that the coefficients of group `t` apply to.
pub open spec fn recent_group(history: Seq<bool>, t: int) -> Seq<bool> {
    Seq::new(8, |i: int| recent(history, 8 * t + i))
}

/// The partial predictions of the first `n` groups of eight coefficients, added up.
pub open spec fn partial_predict(coefs: Seq<i16>, history: Seq<bool>, n: nat) -> int
    decreases n,
{
    if n == 0 {
        0
    } else {
        partial_predict(coefs, history, (n - 1) as nat) + wrap16(
            dot(coefs, 8 * (n - 1), recent_group(history, n - 1)),
        )
    }
}

/// The prediction for the sample that follows a history.
pub open spec fn predict(coefs: Seq<i16>, history: Seq<bool>) -> int {
    partial_predict(coefs, history, MAX_LUT_TABLES as nat)
}

/// The bit that a prediction stands for: bit 15, the sign of a 16-bit number.
pub open spec fn predicted_bit(prediction: int) -> bool {
    (prediction / 0x8000) % 2 == 1
}

/// How many tables the coefficients fill.
pub open spec fn table_count(order: int) -> int {
    (order + 7) / 8
}

/// The status register, as far as coefficients apply to it, holds a history.
pub open spec fn status_holds(status: Seq<bool>, history: Seq<bool>, n_tables: int) -> bool {
    &&& status.len() == 128
    &&& forall|j: int|
        0 <= j < 128 && j < 8 * n_tables ==> #[trigger] status[j] == recent(history, j)
}

/// How many bytes `n` bits fill, and how many lookup tables `n` coefficients.
pub fn div_ceil_resol(n: usize) -> (r: usize)
    ensures
        r == table_count(n as int),
{
    n / RESOL + if n % RESOL != 0 { 1 } else { 0 }
}

/// The number that a 16-bit signed integer keeps of another one.
pub fn truncate16(x: i32) -> (r: i16)
    ensures
        r == wrap16(x as int),
{
    proof {
        let up = (x + 0x8000 + 0x8000_0000) as u64;
        assert(x as i16 == (up % 0x1_0000) - 0x8000) by (bit_vector)
            requires
                up == x + 0x8000 + 0x8000_0000,
        ;
        lemma_mod_multiples_vanish(0x8000, x + 0x8000, 0x1_0000);
    }
    x as i16
}

/// Build coefficient lookup table for 8-bit-at-a-time FIR evaluation.
///
/// Returns a fixed-size `FilterLut` where `lut[table_nr][byte_value]` gives
/// the partial prediction for that group of 8 coefficients.
pub fn build_lut(coefs: &[i16]) -> (lut: FilterLut)
    ensures
        lut_holds(lut, coefs@),
{
    let order: usize = coefs.len();
    let mut lut: FilterLut = [[0i16; 256]; 16];
    let mut t: usize = 0;
    while t < MAX_LUT_TABLES
        invariant
            t <= MAX_LUT_TABLES,
            order == coefs@.len(),
            forall|u: int, b: u8|
                0 <= u < t ==> #[trigger] lut[u][b as int] == wrap16(
                    dot(coefs@, 8 * u, low_first(b)),
                ),
        decreases MAX_LUT_TABLES - t,
    {
        let group_start: usize = t * RESOL;
        let mut byte_val: usize = 0;
        while byte_val < 256
            invariant
                t < MAX_LUT_TABLES,
                byte_val <= 256,
                group_start == 8 * t,
                order == coefs@.len(),
                forall|u: int, b: u8|
                    0 <= u < t ==> #[trigger] lut[u][b as int] == wrap16(
                        dot(coefs@, 8 * u, low_first(b)),
                    ),
                forall|b: u8|
                    0 <= b < byte_val ==> #[trigger] lut[t as int][b as int] == wrap16(
                        dot(coefs@, 8 * t, low_first(b)),
                    ),
            decreases 256 - byte_val,
        {
            let total: i32 = group_dot(coefs, group_start, byte_val as u8);
            lut[t][byte_val] = truncate16(total);
            byte_val = byte_val + 1;
        }
        t = t + 1;
    }
    lut
}

/// Eight coefficients times the samples of a byte's bits, added up.
fn group_dot(coefs: &[i16], group_start: usize, byte_val: u8) -> (total: i32)
    requires
        group_start <= usize::MAX - 8,
    ensures
        total == dot(coefs@, group_start as int, low_first(byte_val)),
        -262144 <= total <= 262144,
{
    let order: usize = coefs.len();
    let ghost pattern = low_first(byte_val);
    let mut total: i32 = 0;
    let mut bit_idx: usize = 0;
    proof {
        bits::lemma_binary_len(byte_val as nat, 8);
    }
    while bit_idx < RESOL
        invariant
            bit_idx <= 8,
            order == coefs@.len(),
            group_start <= usize::MAX - 8,
            pattern == low_first(byte_val),
            pattern.len() == 8,
            total == dot(coefs@, group_start as int, pattern.take(bit_idx as int)),
            -32768 * bit_idx <= total <= 32768 * bit_idx,
        decreases 8 - bit_idx,
    {
        let coef_idx: usize = group_start + bit_idx;
        let c: i32 = if coef_idx < order { coefs[coef_idx] as i32 } else { 0 };
        let bit: u8 = (byte_val >> (bit_idx as u8)) & 1;
        proof {
            bits::lemma_byte_bit(byte_val, (7 - bit_idx) as u8);
            assert(pattern[bit_idx as int] == (bit != 0));
            let next = pattern.take(bit_idx + 1);
            assert(next.drop_last() =~= pattern.take(bit_idx as int));
        }
        if bit != 0 {
            total = total + c;
        } else {
            total = total - c;
        }
        bit_idx = bit_idx + 1;
    }
    proof {
        assert(pattern.take(8) =~= pattern);
    }
    total
}

/// Status register stored as two u64 words for fast 128-bit shift.
///
/// `lo` holds status bytes [0..7], `hi` holds [8..15] (little-endian byte order).
/// The LUT is indexed by individual bytes extracted from these words.
pub struct Status {
    pub lo: u64,
    pub hi: u64,
}

impl View for Status {
    type V = Seq<bool>;

    /// The 128 bits, the newest first.
    open spec fn view(&self) -> Seq<bool> {
        Seq::new(
            128,
            |j: int|
                if j < 64 {
                    (self.lo >> (j as u64)) & 1 == 1
                } else {
                    (self.hi >> ((j - 64) as u64)) & 1 == 1
                },
        )
    }
}

impl Status {
    /// Create a new status register initialized to 0xAA pattern.
    pub fn new(n_bytes: usize) -> (s: Self)
        ensures
            s@ == Seq::new(128, |j: int| j < 8 * n_bytes && j % 2 == 1),
    {
        // Fill used bytes with 0xAA, unused bytes with 0
        let low_bytes: usize = if n_bytes < 8 { n_bytes } else { 8 };
        let high_bytes: usize = if n_bytes < 8 {
            0
        } else if n_bytes < 16 {
            n_bytes - 8
        } else {
            8
        };
        let lo: u64 = fill_pattern(low_bytes);
        let hi: u64 = fill_pattern(high_bytes);
        let s = Self { lo, hi };
        proof {
            let want = Seq::new(128, |j: int| j < 8 * n_bytes && j % 2 == 1);
            assert forall|j: int| 0 <= j < 128 implies s@[j] == want[j] by {
                if j < 64 {
                    assert((lo >> (j as u64)) & 1 == 1 <==> j < 8 * low_bytes && j % 2 == 1);
                } else {
                    let h = (j - 64) as u64;
                    assert((hi >> h) & 1 == 1 <==> h < 8 * high_bytes && h % 2 == 1);
                }
            }
            assert(s@ =~= want);
        }
        s
    }

    /// Shift a new bit into the status register (128-bit left shift by 1).
    pub fn update(&mut self, new_bit: u8)
        ensures
            final(self)@ == seq![new_bit % 2 == 1] + old(self)@.drop_last(),
    {
        let ghost (lo, hi) = (self.lo, self.hi);
        self.hi = (self.hi << 1) | (self.lo >> 63);
        self.lo = (self.lo << 1) | (new_bit as u64 & 1);
        proof {
            let want = seq![new_bit % 2 == 1] + old(self)@.drop_last();
            let b = new_bit as u64;
            assert(b & 1 == b % 2) by (bit_vector);
            let low = b & 1;
            assert forall|j: int| 0 <= j < 128 implies self@[j] == want[j] by {
                if j == 0 {
                    assert((((lo << 1) | low) >> 0u64) & 1 == low) by (bit_vector)
                        requires
                            low <= 1,
                    ;
                } else if j == 64 {
                    assert((((hi << 1) | (lo >> 63)) >> 0u64) & 1 == (lo >> 63) & 1)
                        by (bit_vector);
                } else {
                    let k = (j % 64) as u64;
                    let m = (k - 1) as u64;
                    assert((((lo << 1) | low) >> k) & 1 == (lo >> m) & 1 && (((hi << 1) | (lo
                        >> 63)) >> k) & 1 == (hi >> m) & 1) by (bit_vector)
                        requires
                            1 <= k < 64,
                            m == k - 1,
                            low <= 1,
                    ;
                }
            }
            assert(self@ =~= want);
        }
    }

    /// Get the byte at index `i` (0 = lowest byte of `lo`).
    pub fn byte_at(&self, i: usize) -> (b: u8)
        requires
            i < 16,
        ensures
            low_first(b) == self@.subrange(8 * i as int, 8 * i + 8),
            b == byte_of(self@.subrange(8 * i as int, 8 * i + 8)),
    {
        let word: u64 = if i < 8 { self.lo } else { self.hi };
        let at: u64 = 8 * (i % 8) as u64;
        let b: u8 = ((word >> at) & 0xff) as u8;
        proof {
            let want = self@.subrange(8 * i as int, 8 * i + 8);
            bits::lemma_binary_len(b as nat, 8);
            assert forall|k: int| 0 <= k < 8 implies low_first(b)[k] == want[k] by {
                bits::lemma_byte_bit(b, (7 - k) as u8);
                let m = k as u8;
                let n = (at + k) as u64;
                assert((((((word >> at) & 0xff) as u8) >> m) & 1) as u64 == (word >> n) & 1)
                    by (bit_vector)
                    requires
                        at <= 56,
                        m < 8,
                        n == at + m,
                ;
            }
            assert(low_first(b) =~= want);
            assert(want.reverse() =~= bits::binary(b as nat, 8));
            bits::lemma_value_binary(b as nat, 8);
            lemma2_to64();
        }
        b
    }
}

/// A word whose lowest bytes hold the pattern 0xAA.
fn fill_pattern(n_bytes: usize) -> (w: u64)
    requires
        n_bytes <= 8,
    ensures
        forall|j: u64|
            j < 64 ==> (#[trigger] (w >> j) & 1 == 1 <==> j < 8 * n_bytes && j % 2 == 1),
{
    let mut w: u64 = 0;
    let mut i: usize = 0;
    assert forall|j: u64| j < 64 implies (#[trigger] (w >> j) & 1 == 1 <==> j < 0 && j % 2 == 1) by {
        assert((0u64 >> j) & 1 == 0) by (bit_vector);
    }
    while i < n_bytes
        invariant
            i <= n_bytes <= 8,
            forall|j: u64|
                j < 64 ==> (#[trigger] (w >> j) & 1 == 1 <==> j < 8 * i && j % 2 == 1),
        decreases n_bytes - i,
    {
        let ghost before = w;
        let at: u64 = 8 * i as u64;
        w = w | (0xAAu64 << at);
        proof {
            assert forall|j: u64| j < 64 implies (#[trigger] (w >> j) & 1 == 1 <==> j < 8 * (i + 1)
                && j % 2 == 1) by {
                assert((before >> j) & 1 == 1 <==> j < 8 * i && j % 2 == 1);
                assert(((before | (0xAAu64 << at)) >> j) & 1 == 1 <==> ((before >> j) & 1 == 1 || (at
                    <= j < at + 8 && (j - at) % 2 == 1))) by (bit_vector)
                    requires
                        j < 64,
                        at <= 56,
                ;
            }
        }
        i = i + 1;
    }
    w
}

/// Compute FIR prediction value using the lookup table and Status register.
pub fn fir_predict(lut: &FilterLut, status: &Status) -> (r: i32)
    ensures
        r == lut_sum(*lut, status@, MAX_LUT_TABLES as nat),
{
    let mut sum: i32 = 0;
    let mut t: usize = 0;
    while t < MAX_LUT_TABLES
        invariant
            t <= MAX_LUT_TABLES,
            sum == lut_sum(*lut, status@, t as nat),
            -32768 * t <= sum <= 32768 * t,
        decreases MAX_LUT_TABLES - t,
    {
        sum = sum + lut[t][status.byte_at(t) as usize] as i32;
        t = t + 1;
    }
    sum
}

// ---------------------------------------------------------------------------
// Table and register against the filter
// ---------------------------------------------------------------------------

/// A new register holds an empty history.
pub proof fn lemma_status_start(n_tables: int)
    requires
        0 <= n_tables,
    ensures
        status_holds(
            Seq::new(128, |j: int| j < 8 * n_tables && j % 2 == 1),
            Seq::empty(),
            n_tables,
        ),
{
}

/// A register that a bit is shifted into holds the history with that bit at its end.
pub proof fn lemma_status_update(status: Seq<bool>, history: Seq<bool>, bit: bool, n_tables: int)
    requires
        status_holds(status, history, n_tables),
    ensures
        status_holds(seq![bit] + status.drop_last(), history.push(bit), n_tables),
{
    let next = seq![bit] + status.drop_last();
    assert forall|j: int| 0 <= j < 128 && j < 8 * n_tables implies #[trigger] next[j] == recent(
        history.push(bit),
        j,
    ) by {
        if j > 0 {
            assert(status[j - 1] == recent(history, j - 1));
        }
    }
}

pub proof fn lemma_dot_zero(coefs: Seq<i16>, start: int, pattern: Seq<bool>)
    requires
        start >= coefs.len(),
    ensures
        dot(coefs, start, pattern) == 0,
    decreases pattern.len(),
{
    if pattern.len() > 0 {
        lemma_dot_zero(coefs, start, pattern.drop_last());
    }
}

proof fn lemma_dot_bound(coefs: Seq<i16>, start: int, pattern: Seq<bool>, bound: nat)
    requires
        forall|i: int| 0 <= i < coefs.len() ==> -bound <= #[trigger] coefs[i] <= bound,
    ensures
        -(pattern.len() * bound) <= dot(coefs, start, pattern) <= pattern.len() * bound,
    decreases pattern.len(),
{
    if pattern.len() > 0 {
        lemma_dot_bound(coefs, start, pattern.drop_last(), bound);
        let i = start + pattern.len() - 1;
        if 0 <= i < coefs.len() {
            assert(-bound <= coefs[i] <= bound);
        }
        let n = pattern.len();
        assert(n * bound == (n - 1) * bound + bound) by (nonlinear_arith);
    } else {
        assert(0 * bound == 0);
    }
}

proof fn lemma_dot_concat(coefs: Seq<i16>, start: int, a: Seq<bool>, b: Seq<bool>)
    ensures
        dot(coefs, start, a + b) == dot(coefs, start, a) + dot(coefs, start + a.len(), b),
    decreases b.len(),
{
    if b.len() == 0 {
        assert(a + b =~= a);
    } else {
        assert((a + b).drop_last() =~= a + b.drop_last());
        lemma_dot_concat(coefs, start, a, b.drop_last());
    }
}

/// Eight bits are those of the byte made of them.
proof fn lemma_byte_of(pattern: Seq<bool>)
    requires
        pattern.len() == 8,
    ensures
        low_first(byte_of(pattern)) == pattern,
{
    let r = pattern.reverse();
    bits::lemma_value_bound(r);
    lemma2_to64();
    bits::lemma_binary_value(r);
    assert(r.reverse() =~= pattern);
}

proof fn lemma_lut_predicts_part(
    lut: FilterLut,
    coefs: Seq<i16>,
    status: Seq<bool>,
    history: Seq<bool>,
    n: nat,
)
    requires
        lut_holds(lut, coefs),
        status_holds(status, history, table_count(coefs.len() as int)),
        n <= MAX_LUT_TABLES,
    ensures
        lut_sum(lut, status, n) == partial_predict(coefs, history, n),
    decreases n,
{
    if n > 0 {
        lemma_lut_predicts_part(lut, coefs, status, history, (n - 1) as nat);
        let t = n - 1;
        let pattern = status.subrange(8 * t, 8 * t + 8);
        let group = recent_group(history, t);
        lemma_byte_of(pattern);
        assert(lut[t][byte_of(pattern) as int] == wrap16(dot(coefs, 8 * t, pattern)));
        if t < table_count(coefs.len() as int) {
            assert forall|i: int| 0 <= i < 8 implies pattern[i] == group[i] by {
                assert(status[8 * t + i] == recent(history, 8 * t + i));
            }
            assert(pattern =~= group);
        } else {
            lemma_dot_zero(coefs, 8 * t, pattern);
            lemma_dot_zero(coefs, 8 * t, group);
        }
    }
}

/// The lookups in a table of coefficients, by a register that holds a history, add up
/// to the prediction.
pub proof fn lemma_lut_predicts(
    lut: FilterLut,
    coefs: Seq<i16>,
    status: Seq<bool>,
    history: Seq<bool>,
)
    requires
        lut_holds(lut, coefs),
        status_holds(status, history, table_count(coefs.len() as int)),
    ensures
        lut_sum(lut, status, MAX_LUT_TABLES as nat) == predict(coefs, history),
{
    lemma_lut_predicts_part(lut, coefs, status, history, MAX_LUT_TABLES as nat);
}

/// All coefficients are 9-bit signed numbers.
pub open spec fn nine_bit(coefs: Seq<i16>) -> bool {
    forall|i: int| 0 <= i < coefs.len() ==> COEF_MIN <= #[trigger] coefs[i] <= COEF_MAX
}

/// The bits that 128 coefficients apply to, the newest first.
pub open spec fn recent_bits(history: Seq<bool>) -> Seq<bool> {
    Seq::new(128, |j: int| recent(history, j))
}

proof fn lemma_groups(coefs: Seq<i16>, history: Seq<bool>, n: nat)
    requires
        nine_bit(coefs),
        n <= MAX_LUT_TABLES,
    ensures
        partial_predict(coefs, history, n) == dot(
            coefs,
            0,
            recent_bits(history).take((8 * n) as int),
        ),
    decreases n,
{
    if n > 0 {
        lemma_groups(coefs, history, (n - 1) as nat);
        let t = n - 1;
        let group = recent_group(history, t);
        let before = recent_bits(history).take(8 * t);
        assert(recent_bits(history).take((8 * n) as int) =~= before + group);
        lemma_dot_concat(coefs, 0, before, group);
        lemma_dot_bound(coefs, 8 * t, group, 256);
        lemma_small_mod((dot(coefs, 8 * t, group) + 0x8000) as nat, 0x1_0000);
    }
}

/// For 9-bit coefficients the prediction is the plain filter: each coefficient times
/// the sample that many steps back, added up. It lies in [-32768, 32768], and below
/// 32768 the predicted bit is 1 exactly where the sum is negative.
pub proof fn law_prediction_is_filter(coefs: Seq<i16>, history: Seq<bool>)
    requires
        nine_bit(coefs),
    ensures
        predict(coefs, history) == dot(coefs, 0, recent_bits(history)),
        -0x8000 <= predict(coefs, history) <= 0x8000,
        predict(coefs, history) < 0x8000 ==> (predicted_bit(predict(coefs, history)) <==> predict(
            coefs,
            history,
        ) < 0),
{
    lemma_groups(coefs, history, MAX_LUT_TABLES as nat);
    assert(recent_bits(history).take(128) =~= recent_bits(history));
    lemma_dot_bound(coefs, 0, recent_bits(history), 256);
}

/// The bit that a prediction stands for.
pub fn predicted_bit_of(prediction: i32) -> (bit: u8)
    ensures
        bit == (if predicted_bit(prediction as int) {
            1u8
        } else {
            0u8
        }),
{
    proof {
        let up = (prediction + 0x8000_0000) as u32;
        assert((prediction >> 15) & 1 == (up / 0x8000) % 2) by (bit_vector)
            requires
                up == prediction + 0x8000_0000,
        ;
        lemma_hoist_over_denominator(prediction as int, 0x1_0000, 0x8000);
    }
    ((prediction >> 15) & 1) as u8
}

/// Run FIR prediction over packed DSD bytes, computing residuals.
///
/// `packed` is MSB-first packed DSD data, `n_bits` is the number of valid bits.
/// Returns (predictions, residuals).
pub fn predict_and_residual(packed: &[u8], n_bits: usize, coefs: &[i16]) -> (r: (
    Vec<i32>,
    Vec<u8>,
))
    requires
        n_bits <= 8 * packed@.len(),
    ensures
        r.0@.len() == n_bits,
        r.1@.len() == n_bits,
        forall|i: int|
            0 <= i < n_bits ==> #[trigger] r.0@[i] == predict(
                coefs@,
                bits::unpack(packed@).take(i),
            ),
        forall|i: int|
            0 <= i < n_bits ==> #[trigger] r.1@[i] == (if predicted_bit(r.0@[i] as int)
                != bits::unpack(packed@)[i] {
                1u8
            } else {
                0u8
            }),
{
    let n_tables: usize = div_ceil_resol(coefs.len());
    let lut: FilterLut = build_lut(coefs);
    let mut status: Status = Status::new(n_tables);
    let ghost s = bits::unpack(packed@);
    proof {
        lemma_status_start(n_tables as int);
        assert(s.take(0) =~= Seq::<bool>::empty());
    }
    let mut predictions: Vec<i32> = Vec::new();
    let mut residuals: Vec<u8> = Vec::new();
    let mut i: usize = 0;
    while i < n_bits
        invariant
            i <= n_bits <= 8 * packed@.len(),
            s == bits::unpack(packed@),
            n_tables == table_count(coefs@.len() as int),
            lut_holds(lut, coefs@),
            status_holds(status@, s.take(i as int), n_tables as int),
            predictions@.len() == i,
            residuals@.len() == i,
            forall|k: int|
                0 <= k < i ==> #[trigger] predictions@[k] == predict(coefs@, s.take(k)),
            forall|k: int|
                0 <= k < i ==> #[trigger] residuals@[k] == (if predicted_bit(predictions@[k] as int)
                    != s[k] {
                    1u8
                } else {
                    0u8
                }),
        decreases n_bits - i,
    {
        let prediction: i32 = fir_predict(&lut, &status);
        proof {
            lemma_lut_predicts(lut, coefs@, status@, s.take(i as int));
        }
        predictions.push(prediction);

        let actual_bit: u8 = get_bit(packed, i);
        let predicted: u8 = predicted_bit_of(prediction);
        proof {
            bits::lemma_xor_bits();
        }
        residuals.push(predicted ^ actual_bit);

        proof {
            lemma_status_update(status@, s.take(i as int), s[i as int], n_tables as int);
            assert(s.take(i as int).push(s[i as int]) =~= s.take(i + 1));
        }
        status.update(actual_bit);
        i = i + 1;
    }
    (predictions, residuals)
}

// ---------------------------------------------------------------------------
// Probability tables
// ---------------------------------------------------------------------------

/// The bin of a prediction in a table of `len` bins.
pub open spec fn bin(prediction: int, len: int) -> int {
    let idx = (if prediction < 0 { -prediction } else { prediction }) / 8;
    if idx < len {
        idx
    } else {
        len - 1
    }
}

/// How many of the first `n` predictions fall into a bin.
pub open spec fn bin_total(predictions: Seq<i32>, len: int, idx: int, n: nat) -> nat
    decreases n,
{
    if n == 0 {
        0
    } else {
        bin_total(predictions, len, idx, (n - 1) as nat) + (if bin(predictions[n - 1] as int, len)
            == idx {
            1nat
        } else {
            0nat
        })
    }
}

/// How many of the first `n` predictions fall into a bin and came true.
pub open spec fn bin_hits(
    predictions: Seq<i32>,
    residuals: Seq<u8>,
    len: int,
    idx: int,
    n: nat,
) -> nat
    decreases n,
{
    if n == 0 {
        0
    } else {
        bin_hits(predictions, residuals, len, idx, (n - 1) as nat) + (if bin(
            predictions[n - 1] as int,
            len,
        ) == idx && residuals[n - 1] == 0 {
            1nat
        } else {
            0nat
        })
    }
}

/// How many pairs of a prediction and a residual there are.
pub open spec fn pairs(predictions: Seq<i32>, residuals: Seq<u8>) -> nat {
    if predictions.len() < residuals.len() {
        predictions.len()
    } else {
        residuals.len()
    }
}

/// The number of bins up to the last one that is not empty, at least one.
pub open spec fn used_bins(predictions: Seq<i32>, len: int, n: nat, upto: nat) -> nat
    decreases upto,
{
    if upto > 1 && bin_total(predictions, len, upto - 1, n) == 0 {
        used_bins(predictions, len, n, (upto - 1) as nat)
    } else {
        upto
    }
}

/// The probability of a bin with so many hits: in steps of 1/256, from 1 to 255, and
/// one half where nothing is known.
pub open spec fn bin_probability(hits: nat, total: nat) -> u8 {
    if total == 0 {
        128
    } else {
        let p = hits * 256 / total;
        if p < 1 {
            1
        } else if p > 255 {
            255
        } else {
            p as u8
        }
    }
}

/// The probability table of predictions and their residuals.
pub open spec fn ptable(predictions: Seq<i32>, residuals: Seq<u8>, max_len: nat) -> Seq<u8> {
    let n = pairs(predictions, residuals);
    Seq::new(
        used_bins(predictions, max_len as int, n, max_len),
        |idx: int|
            bin_probability(
                bin_hits(predictions, residuals, max_len as int, idx, n),
                bin_total(predictions, max_len as int, idx, n),
            ),
    )
}

/// The entry of a table for a prediction.
pub open spec fn lookup(table: Seq<u8>, prediction: int) -> u8 {
    table[bin(prediction, table.len() as int)]
}

pub proof fn lemma_used_bins(predictions: Seq<i32>, len: int, n: nat, upto: nat)
    ensures
        used_bins(predictions, len, n, upto) <= upto,
        upto >= 1 ==> used_bins(predictions, len, n, upto) >= 1,
    decreases upto,
{
    if upto > 1 && bin_total(predictions, len, upto - 1, n) == 0 {
        lemma_used_bins(predictions, len, n, (upto - 1) as nat);
    }
}

/// The bin of a prediction.
fn bin_of(prediction: i32, len: usize) -> (idx: usize)
    requires
        len > 0,
    ensures
        idx == bin(prediction as int, len as int),
{
    let size: i64 = prediction as i64;
    let idx: u32 = if size < 0 { (-size) as u32 / 8 } else { size as u32 / 8 };
    if (idx as usize) < len {
        idx as usize
    } else {
        len - 1
    }
}

/// Build a probability table from prediction values and residual bits.
///
/// Maps |prediction| >> AC_QSTEP to the probability used by the AC.
pub fn build_ptable(predictions: &[i32], residuals: &[u8], max_len: usize) -> (table: Vec<u8>)
    requires
        pairs(predictions@, residuals@) > 0 ==> max_len > 0,
        256 * pairs(predictions@, residuals@) <= i64::MAX,
    ensures
        table@ == ptable(predictions@, residuals@, max_len as nat),
{
    let n: usize = if predictions.len() < residuals.len() {
        predictions.len()
    } else {
        residuals.len()
    };
    let mut count_zeros: Vec<i64> = vec![0i64; max_len];
    let mut count_total: Vec<i64> = vec![0i64; max_len];
    let mut i: usize = 0;
    while i < n
        invariant
            i <= n,
            n == pairs(predictions@, residuals@),
            n > 0 ==> max_len > 0,
            256 * n <= i64::MAX,
            count_zeros@.len() == max_len,
            count_total@.len() == max_len,
            forall|k: int|
                0 <= k < max_len ==> #[trigger] count_total@[k] == bin_total(
                    predictions@,
                    max_len as int,
                    k,
                    i as nat,
                ) && count_total@[k] <= i,
            forall|k: int|
                0 <= k < max_len ==> #[trigger] count_zeros@[k] == bin_hits(
                    predictions@,
                    residuals@,
                    max_len as int,
                    k,
                    i as nat,
                ) && count_zeros@[k] <= count_total@[k],
        decreases n - i,
    {
        let idx: usize = bin_of(predictions[i], max_len);
        let total: i64 = count_total[idx];
        let zeros: i64 = count_zeros[idx];
        count_total[idx] = total + 1;
        if residuals[i] == 0 {
            count_zeros[idx] = zeros + 1;
        }
        i = i + 1;
    }

    // Find actual table length (trim trailing empty bins)
    let mut ptable_len: usize = max_len;
    while ptable_len > 1 && count_total[ptable_len - 1] == 0
        invariant
            ptable_len <= max_len,
            count_total@.len() == max_len,
            forall|k: int|
                0 <= k < max_len ==> #[trigger] count_total@[k] == bin_total(
                    predictions@,
                    max_len as int,
                    k,
                    n as nat,
                ),
            used_bins(predictions@, max_len as int, n as nat, ptable_len as nat) == used_bins(
                predictions@,
                max_len as int,
                n as nat,
                max_len as nat,
            ),
        decreases ptable_len,
    {
        ptable_len = ptable_len - 1;
    }

    let mut table: Vec<u8> = Vec::new();
    let mut idx: usize = 0;
    while idx < ptable_len
        invariant
            idx <= ptable_len <= max_len,
            256 * n <= i64::MAX,
            count_zeros@.len() == max_len,
            count_total@.len() == max_len,
            forall|k: int|
                0 <= k < max_len ==> #[trigger] count_total@[k] == bin_total(
                    predictions@,
                    max_len as int,
                    k,
                    n as nat,
                ) && count_total@[k] <= n,
            forall|k: int|
                0 <= k < max_len ==> #[trigger] count_zeros@[k] == bin_hits(
                    predictions@,
                    residuals@,
                    max_len as int,
                    k,
                    n as nat,
                ) && count_zeros@[k] <= count_total@[k],
            table@.len() == idx,
            forall|k: int|
                0 <= k < idx ==> #[trigger] table@[k] == bin_probability(
                    bin_hits(predictions@, residuals@, max_len as int, k, n as nat),
                    bin_total(predictions@, max_len as int, k, n as nat),
                ),
        decreases ptable_len - idx,
    {
        let zeros: i64 = count_zeros[idx];
        let total: i64 = count_total[idx];
        if total > 0 {
            proof {
                lemma_div_is_ordered(zeros * 256, total * 256, total as int);
                lemma_div_multiples_vanish(256, total as int);
            }
            let p_val: i64 = zeros * AC_PROBS as i64 / total;
            if p_val < 1 {
                table.push(1);
            } else if p_val > 255 {
                table.push(255);
            } else {
                table.push(p_val as u8);
            }
        } else {
            table.push(128);
        }
        idx = idx + 1;
    }
    proof {
        assert(table@ =~= ptable(predictions@, residuals@, max_len as nat));
    }
    table
}

/// Build a probability table using default max_len (AC_HISMAX = 64).
pub fn build_ptable_default(predictions: &[i32], residuals: &[u8]) -> (table: Vec<u8>)
    requires
        256 * pairs(predictions@, residuals@) <= i64::MAX,
    ensures
        table@ == ptable(predictions@, residuals@, AC_HISMAX as nat),
{
    build_ptable(predictions, residuals, AC_HISMAX)
}

/// Look up probability from Ptable given a prediction value.
pub fn ptable_lookup(ptable: &[u8], predict_value: i32) -> (p: u8)
    requires
        ptable@.len() > 0,
    ensures
        p == lookup(ptable@, predict_value as int),
{
    ptable[bin_of(predict_value, ptable.len())]
}

} // verus!

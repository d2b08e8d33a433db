//! Arithmetic encoder/decoder for DST.
//!
//! The decoder uses `u32` wrapping arithmetic. The encoder is a streaming range
//! coder with carry propagation, and the decoder is its exact inverse.

use vstd::arithmetic::div_mod::*;
use vstd::arithmetic::mul::*;
use vstd::arithmetic::power2::*;
use vstd::bits::*;
use vstd::prelude::*;
use vstd::std_specs::bits::*;

use crate::codec::bits;
use crate::codec::constants::{ABITS, HALF, ONE, PBITS};

verus! {

// ---------------------------------------------------------------------------
// Model
// ---------------------------------------------------------------------------

/// The state of the coder: the code points from `low` up to `low + range`, counted
/// in units of `2^-(shifts + 12)`.
pub struct Interval {
    pub low: nat,
    pub range: nat,
    pub shifts: nat,
}

/// The approximation of `a * p / 256` that splits a range.
pub open spec fn approx(a: u32, p: u32) -> u32 {
    ((a >> PBITS) | ((a >> 7) & 1)).wrapping_mul(p)
}

/// The interval before any symbol.
pub open spec fn whole() -> Interval {
    Interval { low: 0, range: (ONE - 1) as nat, shifts: 0 }
}

/// Probability `p` splits the interval so that the part for `bit` is not empty.
pub open spec fn splits(s: Interval, bit: bool, p: u32) -> bool {
    let ap = approx(s.range as u32, p);
    if bit {
        ap < s.range
    } else {
        0 < ap <= s.range
    }
}

/// The part of the interval that stands for `bit`: the lower one for a one bit.
pub open spec fn narrow(s: Interval, bit: bool, p: u32) -> Interval {
    let ap = approx(s.range as u32, p) as nat;
    let h = (s.range - ap) as nat;
    if bit {
        Interval { range: h, ..s }
    } else {
        Interval { low: s.low + h, range: ap, ..s }
    }
}

/// How often a range doubles until it is at least `HALF`.
pub open spec fn doublings(range: nat) -> nat
    decreases 2 * HALF - range,
{
    if 0 < range < HALF {
        1 + doublings(2 * range)
    } else {
        0
    }
}

/// The same interval in units small enough for its range to be at least `HALF`.
pub open spec fn refine(s: Interval) -> Interval {
    let n = doublings(s.range);
    Interval { low: s.low * pow2(n), range: s.range * pow2(n), shifts: s.shifts + n }
}

/// The interval after one more symbol.
pub open spec fn encode_step(s: Interval, bit: bool, p: u32) -> Interval {
    refine(narrow(s, bit, p))
}

/// The interval of a sequence of symbols, each a bit and the probability of a zero.
pub open spec fn encode_all(symbols: Seq<(bool, u32)>) -> Interval
    decreases symbols.len(),
{
    if symbols.len() == 0 {
        whole()
    } else {
        let (bit, p) = symbols.last();
        encode_step(encode_all(symbols.drop_last()), bit, p)
    }
}

/// Every symbol's probability leaves room for its bit.
pub open spec fn encodable(symbols: Seq<(bool, u32)>) -> bool
    decreases symbols.len(),
{
    symbols.len() > 0 ==> {
        let (bit, p) = symbols.last();
        encodable(symbols.drop_last()) && splits(encode_all(symbols.drop_last()), bit, p)
    }
}

/// The coded bits of an interval: its lower end.
pub open spec fn codeword(s: Interval) -> Seq<bool> {
    bits::binary(s.low, s.shifts + ABITS as nat)
}

/// What every interval that the coder reaches satisfies.
pub open spec fn reachable(s: Interval) -> bool {
    &&& HALF <= s.range < ONE
    &&& s.low + s.range <= (ONE - 1) * pow2(s.shifts)
}

/// The state of the decoder: the position of the next coded bit, the range, and the
/// distance of the code from the lower end of the interval.
pub struct Decoding {
    pub pos: nat,
    pub range: u32,
    pub code: u32,
}

/// The decoder's state before any symbol.
pub open spec fn decode_start(coded: Seq<bool>, pos: nat) -> Decoding {
    Decoding {
        pos: bits::advance(coded.len(), pos, ABITS as nat),
        range: (ONE - 1) as u32,
        code: bits::value(bits::window(coded, pos as int, ABITS as nat)) as u32,
    }
}

/// The next bit, given the probability `p` that it is zero.
pub open spec fn decoded_bit(s: Decoding, p: u32) -> bool {
    s.code < s.range.wrapping_sub(approx(s.range, p))
}

/// The range that is left for the next bit.
pub open spec fn decoded_range(s: Decoding, p: u32) -> u32 {
    let ap = approx(s.range, p);
    if decoded_bit(s, p) {
        s.range.wrapping_sub(ap)
    } else {
        ap
    }
}

/// The decoder's state after the next bit.
pub open spec fn decode_step(coded: Seq<bool>, s: Decoding, p: u32) -> Decoding {
    let h = s.range.wrapping_sub(approx(s.range, p));
    let range = decoded_range(s, p);
    let code = if decoded_bit(s, p) { s.code } else { s.code.wrapping_sub(h) };
    let n = doublings(range as nat);
    Decoding {
        pos: bits::advance(coded.len(), s.pos, n),
        range: (range * pow2(n)) as u32,
        code: ((code * pow2(n)) % 0x1_0000_0000 + bits::value(
            bits::window(coded, s.pos as int, n),
        )) as u32,
    }
}

/// The decoder's state after one bit for each probability.
pub open spec fn decode_state(coded: Seq<bool>, start: Decoding, ps: Seq<u32>) -> Decoding
    decreases ps.len(),
{
    if ps.len() == 0 {
        start
    } else {
        decode_step(coded, decode_state(coded, start, ps.drop_last()), ps.last())
    }
}

/// The bits that the decoder finds, one for each probability.
pub open spec fn decode_all(coded: Seq<bool>, start: Decoding, ps: Seq<u32>) -> Seq<bool> {
    Seq::new(
        ps.len(),
        |i: int| decoded_bit(decode_state(coded, start, ps.take(i)), ps[i]),
    )
}

// ---------------------------------------------------------------------------
// Lemmas
// ---------------------------------------------------------------------------

/// A carry turns the last zero into a one and the ones behind it into zeros.
proof fn lemma_carry(s: Seq<bool>, n: nat)
    ensures
        bits::value(s + seq![false] + bits::run(true, n)) + 1 == bits::value(
            s + seq![true] + bits::run(false, n),
        ),
{
    bits::lemma_value_concat(s + seq![false], bits::run(true, n));
    bits::lemma_value_concat(s + seq![true], bits::run(false, n));
    assert(s + seq![false] =~= s.push(false));
    assert(s + seq![true] =~= s.push(true));
    bits::lemma_value_push(s, false);
    bits::lemma_value_push(s, true);
    bits::lemma_run_value(n);
    let v = bits::value(s) as int;
    let q = pow2(n) as int;
    assert((2 * v + 1) * q == (2 * v) * q + q) by (nonlinear_arith);
}

pub proof fn lemma_doublings(range: nat)
    requires
        0 < range < ONE,
    ensures
        HALF <= range * pow2(doublings(range)) < ONE,
        doublings(range) <= 11,
        range >= HALF ==> doublings(range) == 0,
    decreases 2 * HALF - range,
{
    lemma2_to64();
    if range < HALF {
        lemma_doublings(2 * range);
        let n = doublings(2 * range);
        lemma_pow2_unfold(n + 1);
        assert((2 * range) * pow2(n) == range * (2 * pow2(n))) by (nonlinear_arith);
        if n + 1 > 11 {
            lemma_pow2_strictly_increases(11, n + 1);
            assert(range * pow2(n + 1) >= pow2(n + 1)) by (nonlinear_arith)
                requires
                    range >= 1,
            ;
        }
    } else {
        assert(range * 1 == range);
    }
}

/// Doubling a range that is too small is the first step of refining it.
proof fn lemma_refine_step(s: Interval)
    requires
        0 < s.range < HALF,
    ensures
        refine(s) == refine(
            Interval { low: 2 * s.low, range: 2 * s.range, shifts: s.shifts + 1 },
        ),
{
    let n = doublings(2 * s.range);
    lemma_pow2_unfold(n + 1);
    assert((2 * s.range) * pow2(n) == s.range * (2 * pow2(n))) by (nonlinear_arith);
    assert((2 * s.low) * pow2(n) == s.low * (2 * pow2(n))) by (nonlinear_arith);
}

proof fn lemma_refine_done(s: Interval)
    requires
        s.range >= HALF,
    ensures
        refine(s) == s,
{
    lemma2_to64();
    assert(s.low * 1 == s.low && s.range * 1 == s.range);
}

/// A range splits into two proper parts for every probability from 1 to 241.
pub proof fn lemma_probabilities_split(s: Interval, bit: bool, p: u32)
    requires
        HALF <= s.range < ONE,
        1 <= p <= 241,
    ensures
        splits(s, bit, p),
        0 < approx(s.range as u32, p) < s.range,
{
    let a = s.range as u32;
    let f = (a >> PBITS) | ((a >> 7) & 1);
    assert(8 <= ((a >> 8u32) | ((a >> 7u32) & 1)) <= 15 && ((a >> 8u32) | ((a >> 7u32) & 1)) * 241
        < a) by (bit_vector)
        requires
            2048 <= a < 4096,
    ;
    assert(f * p <= f * 241 && 0 < f * p) by (nonlinear_arith)
        requires
            8 <= f,
            1 <= p <= 241,
    ;
}

/// What one symbol does to the two ends of the interval.
pub proof fn lemma_step_nests(s: Interval, bit: bool, p: u32)
    requires
        reachable(s),
        splits(s, bit, p),
    ensures
        ({
            let t = encode_step(s, bit, p);
            let n = (t.shifts - s.shifts) as nat;
            &&& reachable(t)
            &&& s.shifts <= t.shifts <= s.shifts + 11
            &&& narrow(s, bit, p).low * pow2(n) == t.low
            &&& narrow(s, bit, p).range * pow2(n) == t.range
            &&& n == doublings(narrow(s, bit, p).range)
        }),
{
    let m = narrow(s, bit, p);
    let n = doublings(m.range);
    lemma_doublings(m.range);
    let q = pow2(n) as int;
    assert((m.low + m.range) * q <= ((ONE - 1) * pow2(s.shifts)) * q) by (nonlinear_arith)
        requires
            m.low + m.range <= (ONE - 1) * pow2(s.shifts),
            q >= 0,
    ;
    assert((m.low + m.range) * q == m.low * q + m.range * q) by (nonlinear_arith);
    lemma_pow2_adds(s.shifts, n);
    assert(((ONE - 1) * pow2(s.shifts)) * q == (ONE - 1) * (pow2(s.shifts) * q)) by (nonlinear_arith);
}

/// Every interval that the coder reaches lies inside the unit interval.
pub proof fn lemma_reachable(symbols: Seq<(bool, u32)>)
    requires
        encodable(symbols),
    ensures
        reachable(encode_all(symbols)),
        encode_all(symbols).shifts <= 11 * symbols.len(),
    decreases symbols.len(),
{
    lemma2_to64();
    if symbols.len() > 0 {
        lemma_reachable(symbols.drop_last());
        let (bit, p) = symbols.last();
        lemma_step_nests(encode_all(symbols.drop_last()), bit, p);
    }
}

// ---------------------------------------------------------------------------
// Encoder
// ---------------------------------------------------------------------------

/// Compute ap = approximate (A * p / 256).
///
/// The rounding term is bit 7 of `a`.
fn compute_ap(a: u32, p: u32) -> (ap: u32)
    ensures
        ap == approx(a, p),
{
    let a_factor: u32 = (a >> PBITS) | ((a >> 7) & 1);
    a_factor.wrapping_mul(p)
}

/// Arithmetic encoder: a streaming range coder with carry propagation.
///
/// Produces a bitstream that is decodable by `ACDecoder`.
/// Encodes symbols one by one with `encode_bit()`, and ends with `flush()`.
///
/// A carry can only turn a 0-bit into a 1-bit, and the 1-bits behind it into 0-bits.
/// One leading bit is held back together with the number of 1-bits behind it, which
/// would flip on a carry. When a 0-bit arrives, the bits held back are safe from
/// later carries and are put out.
pub struct ACEncoder {
    a: u32,
    c: u32,
    bits: Vec<u8>,
    /// The leading bit that might be flipped by a future carry.
    pending_bit: u8,
    /// How many consecutive 1-bits follow `pending_bit` (carry-vulnerable).
    pending_ones: usize,
    /// Whether we have a pending bit at all.
    has_pending: bool,
}

impl View for ACEncoder {
    type V = Interval;

    closed spec fn view(&self) -> Interval {
        Interval { low: self.low(), range: self.a as nat, shifts: self.emitted().len() }
    }
}

/// All elements are single bits.
pub open spec fn all_bits(s: Seq<u8>) -> bool {
    forall|i: int| 0 <= i < s.len() ==> #[trigger] s[i] <= 1
}

impl ACEncoder {
    /// The bits shifted out so far, those held back included.
    spec fn emitted(self) -> Seq<bool> {
        if self.has_pending {
            bits::flags(self.bits@) + seq![self.pending_bit == 1] + bits::run(
                true,
                self.pending_ones as nat,
            )
        } else {
            bits::flags(self.bits@)
        }
    }

    spec fn low(self) -> nat {
        bits::value(self.emitted()) * ONE as nat + self.c as nat
    }

    spec fn held(self) -> bool {
        &&& self.c < 2 * ONE
        &&& self.pending_bit <= 1
        &&& all_bits(self.bits@)
        &&& self.low() < ONE * pow2(self.emitted().len())
    }

    /// The encoder is in a state that its operations leave behind.
    pub closed spec fn wf(self) -> bool {
        &&& self.held()
        &&& self.c + self.a <= 2 * (ONE - 1)
        &&& reachable(self@)
        &&& self.carry_run() <= self@.shifts
    }

    /// How many 1-bits are held back behind the leading one.
    pub closed spec fn carry_run(self) -> nat {
        if self.has_pending {
            self.pending_ones as nat
        } else {
            0
        }
    }

    pub fn new() -> (e: Self)
        ensures
            e.wf(),
            e@ == whole(),
            e.carry_run() == 0,
    {
        let e = Self {
            a: ONE - 1,
            c: 0,
            bits: Vec::new(),
            pending_bit: 0,
            pending_ones: 0,
            has_pending: false,
        };
        proof {
            lemma2_to64();
            assert(e.emitted() =~= Seq::<bool>::empty());
        }
        e
    }

    /// Put out the bits held back.
    fn flush_pending(&mut self)
        requires
            old(self).held(),
        ensures
            final(self).held(),
            final(self).emitted() == old(self).emitted(),
            final(self).a == old(self).a,
            final(self).c == old(self).c,
            !final(self).has_pending,
    {
        if !self.has_pending {
            return;
        }
        let ghost before = self.emitted();
        self.bits.push(self.pending_bit);
        push_run(&mut self.bits, 1, self.pending_ones);
        self.has_pending = false;
        self.pending_ones = 0;
        proof {
            assert(bits::flags(self.bits@) =~= before);
        }
    }

    /// Emit one bit, keeping track of the bits that a carry would flip.
    fn emit_bit(&mut self, bit: u8)
        requires
            bit <= 1,
            old(self).c < 2 * ONE,
            old(self).pending_bit <= 1,
            all_bits(old(self).bits@),
            old(self).has_pending ==> old(self).pending_ones < usize::MAX,
            old(self).low() < ONE * pow2(old(self).emitted().len()),
        ensures
            final(self).emitted() == old(self).emitted().push(bit == 1),
            final(self).a == old(self).a,
            final(self).c == old(self).c,
            final(self).pending_bit <= 1,
            all_bits(final(self).bits@),
            final(self).carry_run() <= old(self).carry_run() + 1,
    {
        let ghost before = self.emitted();
        if !self.has_pending {
            self.pending_bit = bit;
            self.pending_ones = 0;
            self.has_pending = true;
        } else if bit == 1 {
            // A 1-bit extends the chain that a carry would flip.
            self.pending_ones = self.pending_ones + 1;
        } else {
            // The bits held back are now safe from later carries.
            self.flush_pending();
            self.pending_bit = 0;
            self.pending_ones = 0;
            self.has_pending = true;
        }
        proof {
            assert(self.emitted() =~= before.push(bit == 1));
        }
    }

    /// Apply a carry to the bits shifted out so far.
    ///
    /// - The leading `pending_bit` gets +1 (0→1, or 1→0 with a further carry into `bits`).
    /// - All `pending_ones` trailing 1-bits become 0-bits.
    fn apply_carry(&mut self)
        requires
            old(self).pending_bit <= 1,
            all_bits(old(self).bits@),
            bits::value(old(self).emitted()) + 1 < pow2(old(self).emitted().len()),
        ensures
            final(self).a == old(self).a,
            final(self).c == old(self).c,
            final(self).pending_bit <= 1,
            all_bits(final(self).bits@),
            final(self).emitted().len() == old(self).emitted().len(),
            bits::value(final(self).emitted()) == bits::value(old(self).emitted()) + 1,
            !final(self).has_pending,
    {
        let ghost before = self.emitted();
        let ghost done = bits::flags(self.bits@);
        let n: usize = self.pending_ones;
        if !self.has_pending {
            // Nothing held back: the carry goes straight into the committed bits.
            increment(&mut self.bits);
            return;
        }
        if self.pending_bit == 0 {
            // 0 + carry → 1, trailing 1s → 0s.
            self.bits.push(1);
            push_run(&mut self.bits, 0, n);
            proof {
                lemma_carry(done, n as nat);
                assert(bits::flags(self.bits@) =~= done + seq![true] + bits::run(false, n as nat));
            }
        } else {
            // 1 + carry → 0, with the carry going further back.
            proof {
                assert(before =~= done + bits::run(true, (n + 1) as nat));
                bits::lemma_value_concat(done, bits::run(true, (n + 1) as nat));
                bits::lemma_run_value((n + 1) as nat);
                lemma_pow2_adds(done.len(), (n + 1) as nat);
                lemma_pow2_pos((n + 1) as nat);
                let v = bits::value(done) as int;
                let q = pow2((n + 1) as nat) as int;
                let r = pow2(done.len()) as int;
                assert(v + 1 < r) by (nonlinear_arith)
                    requires
                        v * q + q < r * q,
                        q > 0,
                ;
            }
            increment(&mut self.bits);
            let ghost carried = bits::flags(self.bits@);
            self.bits.push(0);
            push_run(&mut self.bits, 0, n);
            proof {
                assert(bits::flags(self.bits@) =~= carried + bits::run(false, (n + 1) as nat));
                bits::lemma_value_concat(carried, bits::run(false, (n + 1) as nat));
                let v = bits::value(done) as int;
                let q = pow2((n + 1) as nat) as int;
                assert((v + 1) * q == v * q + q) by (nonlinear_arith);
            }
        }
        self.has_pending = false;
        self.pending_ones = 0;
    }

    /// Shift out the top bit of C, with its carry.
    fn shift_out(&mut self)
        requires
            old(self).held(),
            old(self).carry_run() < usize::MAX,
        ensures
            final(self).held(),
            final(self).c < ONE,
            final(self).low() == 2 * old(self).low(),
            final(self).emitted().len() == old(self).emitted().len() + 1,
            final(self).a == old(self).a,
            final(self).carry_run() <= old(self).carry_run() + 1,
    {
        let ghost v0 = bits::value(self.emitted()) as int;
        let ghost len0 = self.emitted().len();
        if self.c >= ONE {
            self.c = self.c - ONE;
            self.apply_carry();
        }
        let ghost c1 = self.c;
        let ghost v1 = bits::value(self.emitted());
        let c: u32 = self.c;
        let out_bit: u8 = ((c >> (ABITS - 1)) & 1) as u8;
        assert((c >> 11u32) & 1 == c / 2048 && (c << 1u32) & 4095 == (2 * c) % 4096) by (bit_vector)
            requires
                c < 4096,
        ;
        let ghost e1 = self.emitted();
        self.emit_bit(out_bit);
        self.c = (self.c << 1) & (ONE - 1);
        proof {
            bits::lemma_value_push(e1, out_bit == 1);
            lemma_pow2_unfold(len0 + 1);
        }
    }

    /// Encode a single bit with probability p (of bit=0).
    ///
    /// The probability has to leave room for the bit in the current range, as every
    /// probability from 1 to 241 does.
    pub fn encode_bit(&mut self, bit: u8, p: u32)
        requires
            old(self).wf(),
            splits(old(self)@, bit == 1, p),
            old(self).carry_run() + 11 <= usize::MAX,
        ensures
            final(self).wf(),
            final(self)@ == encode_step(old(self)@, bit == 1, p),
            final(self)@.shifts <= old(self)@.shifts + 11,
            final(self).carry_run() <= old(self).carry_run() + 11,
    {
        let ap: u32 = compute_ap(self.a, p);
        let h: u32 = self.a.wrapping_sub(ap);
        let ghost start = narrow(self@, bit == 1, p);
        proof {
            lemma_step_nests(self@, bit == 1, p);
            lemma_doublings(start.range);
        }
        if bit == 1 {
            self.a = h;
        } else {
            self.c = self.c + h;
            self.a = ap;
        }
        let ghost target = refine(start);
        let ghost len0 = self.emitted().len();
        let ghost run0 = self.carry_run();
        proof {
            assert(self@ == start);
        }
        while self.a < HALF
            invariant
                self.held(),
                0 < self.a < ONE,
                self.c + self.a <= 2 * (ONE - 1),
                refine(self@) == target,
                target.shifts <= len0 + 11,
                len0 <= self@.shifts,
                self.low() + self.a <= (ONE - 1) * pow2(self.emitted().len()),
                self.carry_run() <= run0 + (self@.shifts - len0),
                self.carry_run() <= self@.shifts,
                run0 + 11 <= usize::MAX,
            decreases ONE - self.a,
        {
            let ghost s = self@;
            let a: u32 = self.a;
            proof {
                lemma_refine_step(s);
                lemma_doublings(s.range);
                lemma_doublings(2 * s.range);
            }
            self.shift_out();
            assert(a << 1u32 == 2 * a) by (bit_vector)
                requires
                    a < 2048,
            ;
            self.a = self.a << 1;
            proof {
                lemma_pow2_unfold(s.shifts + 1);
                assert(self.emitted().len() == s.shifts + 1);
                let q = pow2(s.shifts) as int;
                assert((ONE - 1) * (2 * q) == 2 * ((ONE - 1) * q)) by (nonlinear_arith);
            }
        }
        proof {
            lemma_refine_done(self@);
        }
    }

    /// Finalize encoding and return the coded bitstream, one bit per byte.
    ///
    /// The encoder is left with nothing coded and with its range as it was.
    pub fn flush(&mut self) -> (r: Vec<u8>)
        requires
            old(self).wf(),
            old(self).carry_run() + ABITS <= usize::MAX,
        ensures
            all_bits(r@),
            bits::flags(r@) == codeword(old(self)@),
            r.len() == old(self)@.shifts + ABITS,
            final(self).wf(),
            final(self)@ == (Interval { low: 0, range: old(self)@.range, shifts: 0 }),
            final(self).carry_run() == 0,
    {
        let ghost low0 = self.low();
        let ghost len0 = self.emitted().len();
        let ghost run0 = self.carry_run();
        let mut k: u32 = 0;
        proof {
            lemma2_to64();
        }
        while k < ABITS
            invariant
                k <= ABITS,
                self.held(),
                self.low() == low0 * pow2(k as nat),
                self.emitted().len() == len0 + k,
                self.a == old(self).a,
                self.carry_run() <= run0 + k,
                run0 + ABITS <= usize::MAX,
                k > 0 ==> self.c < ONE,
            decreases ABITS - k,
        {
            self.shift_out();
            k = k + 1;
            proof {
                lemma_pow2_unfold(k as nat);
                let q = pow2((k - 1) as nat) as int;
                assert(2 * (low0 * q) == low0 * (2 * q)) by (nonlinear_arith);
            }
        }
        proof {
            lemma2_to64();
            let v = bits::value(self.emitted());
            assert(low0 * pow2(12) == low0 * 4096);
            assert(self.c == 0 && v == low0);
        }
        self.flush_pending();
        let mut out: Vec<u8> = Vec::new();
        std::mem::swap(&mut out, &mut self.bits);
        proof {
            bits::lemma_binary_value(bits::flags(out@));
            assert(self.emitted() =~= Seq::<bool>::empty());
        }
        out
    }
}

impl Default for ACEncoder {
    fn default() -> (e: Self)
        ensures
            e.wf(),
            e@ == whole(),
            e.carry_run() == 0,
    {
        Self::new()
    }
}

/// Append `n` equal bits.
fn push_run(v: &mut Vec<u8>, bit: u8, n: usize)
    ensures
        final(v)@ == old(v)@ + Seq::new(n as nat, |i: int| bit),
{
    let mut i: usize = 0;
    while i < n
        invariant
            i <= n,
            v@ == old(v)@ + Seq::new(i as nat, |j: int| bit),
        decreases n - i,
    {
        v.push(bit);
        i = i + 1;
        assert(v@ =~= old(v)@ + Seq::new(i as nat, |j: int| bit));
    }
    assert(v@ =~= old(v)@ + Seq::new(n as nat, |j: int| bit));
}

/// Add one to the number that the bits denote.
fn increment(v: &mut Vec<u8>)
    requires
        all_bits(old(v)@),
        bits::value(bits::flags(old(v)@)) + 1 < pow2(old(v)@.len()),
    ensures
        all_bits(final(v)@),
        final(v)@.len() == old(v)@.len(),
        bits::value(bits::flags(final(v)@)) == bits::value(bits::flags(old(v)@)) + 1,
{
    let ghost s = bits::flags(v@);
    let n: usize = v.len();
    let mut i: usize = n;
    while i > 0
        invariant
            i <= n,
            v@.len() == n,
            s.len() == n,
            all_bits(v@),
            s == bits::flags(old(v)@),
            bits::value(s) + 1 < pow2(n as nat),
            bits::flags(v@) == s.take(i as int) + bits::run(false, (n - i) as nat),
            s == s.take(i as int) + bits::run(true, (n - i) as nat),
        decreases i,
    {
        i = i - 1;
        let ghost v0 = v@;
        let ghost m = (n - i - 1) as nat;
        assert(v0[i as int] == 1 <==> bits::flags(v0)[i as int]);
        assert(bits::flags(v0)[i as int] == s[i as int]);
        if v[i] == 0 {
            v[i] = 1;
            proof {
                let head = s.take(i as int);
                assert(s =~= head + seq![false] + bits::run(true, m)) by {
                    assert forall|j: int| i < j < n implies s[j] by {
                        assert((s.take(i + 1) + bits::run(true, m))[j]);
                    }
                }
                assert(bits::flags(v@) =~= head + seq![true] + bits::run(false, m)) by {
                    assert forall|j: int| 0 <= j < n implies bits::flags(v@)[j] == (head + seq![
                        true,
                    ] + bits::run(false, m))[j] by {
                        if j != i {
                            assert(bits::flags(v@)[j] == bits::flags(v0)[j]);
                        }
                    }
                }
                lemma_carry(head, m);
            }
            return;
        }
        v[i] = 0;
        proof {
            assert forall|j: int| 0 <= j < n implies bits::flags(v@)[j] == (s.take(i as int) + bits::run(
                false,
                (n - i) as nat,
            ))[j] by {
                if j != i {
                    assert(bits::flags(v@)[j] == bits::flags(v0)[j]);
                }
            }
            assert(bits::flags(v@) =~= s.take(i as int) + bits::run(false, (n - i) as nat));
            assert forall|j: int| i <= j < n implies s[j] by {
                if j > i {
                    assert((s.take(i + 1) + bits::run(true, m))[j]);
                }
            }
            assert(s =~= s.take(i as int) + bits::run(true, (n - i) as nat));
        }
    }
    proof {
        assert(s =~= bits::run(true, n as nat));
        bits::lemma_run_value(n as nat);
    }
}

// ---------------------------------------------------------------------------
// Decoder
// ---------------------------------------------------------------------------

/// Floor of log2 for a positive u32 (equivalent to `31 - leading_zeros`).
fn log2_u32(v: u32) -> (r: u32)
    requires
        v > 0,
    ensures
        r < 32,
        pow2(r as nat) <= v < pow2((r + 1) as nat),
{
    let z: u32 = v.leading_zeros();
    let r: u32 = 31 - z;
    proof {
        axiom_u32_leading_zeros(v);
        lemma2_to64();
        lemma_u32_shr_is_div(v, r);
        lemma_pow2_pos(r as nat);
        assert(v >> r != 0) by (bit_vector)
            requires
                (v >> r) & 1 != 0,
        ;
        lemma_fundamental_div_mod(v as int, pow2(r as nat) as int);
        lemma_mod_bound(v as int, pow2(r as nat) as int);
        let q = v as int / pow2(r as nat) as int;
        assert(pow2(r as nat) * q >= pow2(r as nat)) by (nonlinear_arith)
            requires
                q >= 1,
        ;
        if r < 31 {
            let t = (r + 1) as u32;
            assert(t == 32 - z);
            lemma_u32_shr_is_div(v, t);
            lemma_pow2_pos(t as nat);
            lemma_fundamental_div_mod(v as int, pow2(t as nat) as int);
            lemma_mod_bound(v as int, pow2(t as nat) as int);
            assert(pow2(t as nat) * 0 == 0);
        }
    }
    r
}

/// A range with `r + 1` binary digits doubles `11 - r` times.
proof fn lemma_doublings_log2(range: nat, r: nat)
    requires
        r <= 10,
        pow2(r) <= range < pow2(r + 1),
    ensures
        doublings(range) == 11 - r,
    decreases 11 - r,
{
    lemma2_to64();
    lemma_pow2_unfold(r + 1);
    lemma_pow2_unfold(r + 2);
    if r < 10 {
        lemma_doublings_log2(2 * range, r + 1);
    }
    if r > 0 {
        lemma_pow2_strictly_increases(0, r);
    }
    if r < 10 {
        lemma_pow2_strictly_increases(r + 1, 11);
    }
    reveal_with_fuel(doublings, 2);
}

/// The bits of three bytes, cut out by a division and a remainder.
proof fn lemma_fast_window(data: Seq<u8>, at: int, bit_pos: u8, n: u32)
    requires
        0 <= at,
        at + 3 <= data.len(),
        bit_pos < 8,
        n <= 12,
    ensures
        bits::value(bits::window(bits::unpack(data), 8 * at + bit_pos, n as nat)) == ((data[at]
            * 0x10000 + data[at + 1] * 0x100 + data[at + 2]) as nat / pow2(
            (24 - bit_pos - n) as nat,
        )) % pow2(n as nat),
{
    let three = seq![data[at], data[at + 1], data[at + 2]];
    let s = bits::unpack(three);
    let b0 = bits::binary(data[at] as nat, 8);
    let b1 = bits::binary(data[at + 1] as nat, 8);
    let b2 = bits::binary(data[at + 2] as nat, 8);
    bits::lemma_binary_len(data[at] as nat, 8);
    bits::lemma_binary_len(data[at + 1] as nat, 8);
    bits::lemma_binary_len(data[at + 2] as nat, 8);
    assert forall|i: int| 0 <= i < 24 implies s[i] == ((b0 + b1) + b2)[i] by {
        if i < 8 {
            assert(i / 8 == 0 && i % 8 == i);
        } else if i < 16 {
            assert(i / 8 == 1 && i % 8 == i - 8);
        } else {
            assert(i / 8 == 2 && i % 8 == i - 16);
        }
    }
    assert(s =~= (b0 + b1) + b2);
    bits::lemma_value_concat(b0 + b1, b2);
    bits::lemma_value_concat(b0, b1);
    bits::lemma_value_binary(data[at] as nat, 8);
    bits::lemma_value_binary(data[at + 1] as nat, 8);
    bits::lemma_value_binary(data[at + 2] as nat, 8);
    lemma2_to64();
    bits::lemma_value_subrange(s, bit_pos as int, n as nat);
    let w = bits::window(bits::unpack(data), 8 * at + bit_pos, n as nat);
    assert forall|i: int| 0 <= i < n implies w[i] == s[bit_pos + i] by {
        let j = bit_pos + i;
        assert((8 * at + j) / 8 == at + j / 8 && (8 * at + j) % 8 == j % 8);
        assert(three[j / 8] == data[at + j / 8]);
    }
    assert(w =~= s.subrange(bit_pos as int, bit_pos + n));
}

/// Arithmetic decoder consuming coded bits to recover original bits.
pub struct ACDecoder<'a> {
    data: &'a [u8],
    byte_pos: usize,
    bit_pos: u8,  // 0-7, 0 = MSB
    a: u32,
    c: u32,
}

impl<'a> View for ACDecoder<'a> {
    type V = Decoding;

    closed spec fn view(&self) -> Decoding {
        Decoding { pos: self.pos(), range: self.a, code: self.c }
    }
}

impl<'a> ACDecoder<'a> {
    spec fn pos(self) -> nat {
        self.byte_pos as nat * 8 + self.bit_pos as nat
    }

    /// The coded bits that the decoder reads.
    pub closed spec fn coded(self) -> Seq<bool> {
        bits::unpack(self.data@)
    }

    /// The decoder is in a state that its operations leave behind.
    pub closed spec fn wf(self) -> bool {
        self.bit_pos < 8
    }

    /// Initialize decoder from packed byte data starting at the given bit offset.
    pub fn new(data: &'a [u8], bit_offset: usize) -> (d: Self)
        ensures
            d.wf(),
            d.coded() == bits::unpack(data@),
            d@ == decode_start(d.coded(), bit_offset as nat),
    {
        let mut decoder = Self {
            data,
            byte_pos: bit_offset / 8,
            bit_pos: (bit_offset % 8) as u8,
            a: ONE - 1,
            c: 0,
        };
        // Init C = first ABITS bits
        decoder.c = decoder.read_bits_slowly(ABITS);
        decoder
    }

    /// Read next coded bit, returns 0 past end of stream.
    fn next_bit(&mut self) -> (bit: u8)
        requires
            old(self).wf(),
        ensures
            final(self).wf(),
            final(self).data == old(self).data,
            final(self).a == old(self).a,
            final(self).c == old(self).c,
            final(self).pos() == bits::advance(old(self).coded().len(), old(self).pos(), 1),
            bit <= 1,
            seq![bit == 1] == bits::window(old(self).coded(), old(self).pos() as int, 1),
    {
        if self.byte_pos >= self.data.len() {
            assert(seq![false] =~= bits::window(self.coded(), self.pos() as int, 1));
            return 0;
        }
        let bit: u8 = (self.data[self.byte_pos] >> (7 - self.bit_pos)) & 1;
        proof {
            bits::lemma_byte_bit(self.data@[self.byte_pos as int], self.bit_pos);
            assert(self.pos() as int / 8 == self.byte_pos && self.pos() as int % 8 == self.bit_pos);
            assert(seq![bit == 1] =~= bits::window(self.coded(), self.pos() as int, 1));
        }
        self.bit_pos = self.bit_pos + 1;
        if self.bit_pos == 8 {
            self.byte_pos = self.byte_pos + 1;
            self.bit_pos = 0;
        }
        bit
    }

    /// Read `n` coded bits one by one, MSB first.
    fn read_bits_slowly(&mut self, n: u32) -> (v: u32)
        requires
            old(self).wf(),
            n <= 12,
        ensures
            final(self).wf(),
            final(self).data == old(self).data,
            final(self).a == old(self).a,
            final(self).c == old(self).c,
            final(self).pos() == bits::advance(old(self).coded().len(), old(self).pos(), n as nat),
            v == bits::value(bits::window(old(self).coded(), old(self).pos() as int, n as nat)),
    {
        let ghost coded = self.coded();
        let ghost pos0 = self.pos();
        let mut v: u32 = 0;
        let mut i: u32 = 0;
        proof {
            assert(bits::window(coded, pos0 as int, 0) =~= Seq::<bool>::empty());
        }
        while i < n
            invariant
                i <= n <= 12,
                self.wf(),
                self.data == old(self).data,
                self.a == old(self).a,
                self.c == old(self).c,
                coded == self.coded(),
                pos0 == old(self).pos(),
                self.pos() == bits::advance(coded.len(), pos0, i as nat),
                v == bits::value(bits::window(coded, pos0 as int, i as nat)),
            decreases n - i,
        {
            let ghost w = bits::window(coded, pos0 as int, i as nat);
            proof {
                bits::lemma_value_bound(w);
                lemma2_to64();
                if i < 11 {
                    lemma_pow2_strictly_increases(i as nat, 11);
                }
            }
            let ghost here = self.pos();
            let bit: u8 = self.next_bit();
            proof {
                let wide = bit as u32;
                assert((v << 1u32) | wide == 2 * v + wide) by (bit_vector)
                    requires
                        v < 0x800,
                        wide <= 1,
                ;
                let x = bits::window(coded, here as int, 1);
                assert(x[0] == (bit == 1)) by {
                    assert(seq![bit == 1][0] == (bit == 1));
                }
                assert(bits::window(coded, pos0 as int, (i + 1) as nat) =~= w.push(bit == 1));
                bits::lemma_value_push(w, bit == 1);
            }
            v = (v << 1) | bit as u32;
            i = i + 1;
        }
        v
    }

    /// Read `n` coded bits at once (n <= 12), MSB first, returning them as a u32.
    fn read_bits(&mut self, n: u32) -> (v: u32)
        requires
            old(self).wf(),
            n <= 12,
        ensures
            final(self).wf(),
            final(self).data == old(self).data,
            final(self).a == old(self).a,
            final(self).c == old(self).c,
            final(self).pos() == bits::advance(old(self).coded().len(), old(self).pos(), n as nat),
            v == bits::value(bits::window(old(self).coded(), old(self).pos() as int, n as nat)),
    {
        if self.byte_pos < self.data.len() && self.data.len() - self.byte_pos > 2 {
            // Fast path: build 24-bit window from 3 bytes (enough for bit_pos + n <= 20)
            let b0: u32 = self.data[self.byte_pos] as u32;
            let b1: u32 = self.data[self.byte_pos + 1] as u32;
            let b2: u32 = self.data[self.byte_pos + 2] as u32;
            let window: u32 = b0 << 16 | b1 << 8 | b2;
            let shift: u32 = 24 - self.bit_pos as u32 - n;
            proof {
                bits::lemma_shl_wraps(1, n);
                lemma_pow2_pos(n as nat);
            }
            let mask: u32 = (1u32 << n) - 1;
            let result: u32 = (window >> shift) & mask;
            proof {
                lemma_fast_window(self.data@, self.byte_pos as int, self.bit_pos, n);
                assert(window == b0 * 0x10000 + b1 * 0x100 + b2) by (bit_vector)
                    requires
                        b0 < 256,
                        b1 < 256,
                        b2 < 256,
                        window == b0 << 16u32 | b1 << 8u32 | b2,
                ;
                lemma_u32_shr_is_div(window, shift);
                lemma_u32_low_bits_mask_is_mod(window >> shift, n as nat);
                lemma2_to64();
                lemma_u32_shl_is_mul(1, n);
            }
            let new_bit_pos: u32 = self.bit_pos as u32 + n;
            self.byte_pos = self.byte_pos + (new_bit_pos / 8) as usize;
            self.bit_pos = (new_bit_pos % 8) as u8;
            result
        } else {
            // Near end of data, fall back to per-bit
            self.read_bits_slowly(n)
        }
    }

    /// Decode a single bit given probability p of bit=0.
    ///
    /// The probability has to leave a range for the bit that is found.
    pub fn decode_bit(&mut self, p: u32) -> (bit: u8)
        requires
            old(self).wf(),
            decoded_range(old(self)@, p) != 0,
        ensures
            final(self).wf(),
            final(self).coded() == old(self).coded(),
            final(self)@ == decode_step(old(self).coded(), old(self)@, p),
            bit == (if decoded_bit(old(self)@, p) { 1u8 } else { 0u8 }),
    {
        let ap: u32 = compute_ap(self.a, p);
        let h: u32 = self.a.wrapping_sub(ap);

        let bit: u8;
        if self.c >= h {
            bit = 0;
            self.c = self.c.wrapping_sub(h);
            self.a = ap;
        } else {
            bit = 1;
            self.a = h;
        }

        // Renormalize: shift all at once when A < HALF.
        if self.a < HALF {
            let lg: u32 = log2_u32(self.a);
            proof {
                lemma2_to64();
                if lg > 10 {
                    if lg > 11 {
                        lemma_pow2_strictly_increases(11, lg as nat);
                    }
                }
                lemma_doublings_log2(self.a as nat, lg as nat);
                lemma_doublings(self.a as nat);
            }
            let n: u32 = (ABITS - 1) - lg;
            let ghost s = self@;
            proof {
                lemma_u32_shl_is_mul(self.a, n);
                bits::lemma_value_bound(bits::window(self.coded(), self.pos() as int, n as nat));
                lemma_pow2_strictly_increases(n as nat, 12);
            }
            self.a = self.a << n;
            let more: u32 = self.read_bits(n);
            let c: u32 = self.c;
            proof {
                bits::lemma_shl_wraps(c, n);
                assert(((c << n) | more) == (c << n) + more) by (bit_vector)
                    requires
                        n < 32,
                        more < 1u32 << n,
                ;
            }
            self.c = (self.c << n) | more;
        } else {
            proof {
                lemma2_to64();
                assert(bits::window(self.coded(), self.pos() as int, 0) =~= Seq::<bool>::empty());
                let (a, c, q) = (self.a, self.c, pow2(0));
                assert(a * q == a && c * q == c) by (nonlinear_arith)
                    requires
                        q == 1,
                ;
                lemma_small_mod(c as nat, 0x1_0000_0000);
            }
        }
        bit
    }

    /// Decode a single bit, or nothing where the probability leaves no range for it.
    pub fn try_decode_bit(&mut self, p: u32) -> (bit: Option<u8>)
        requires
            old(self).wf(),
        ensures
            final(self).wf(),
            final(self).coded() == old(self).coded(),
            bit is None <==> decoded_range(old(self)@, p) == 0,
            bit is None ==> final(self)@ == old(self)@,
            bit matches Some(b) ==> {
                &&& final(self)@ == decode_step(old(self).coded(), old(self)@, p)
                &&& b == (if decoded_bit(old(self)@, p) { 1u8 } else { 0u8 })
            },
    {
        let ap: u32 = compute_ap(self.a, p);
        if ap == 0 && self.c >= self.a {
            return None;
        }
        Some(self.decode_bit(p))
    }
}

// ---------------------------------------------------------------------------
// Decoding inverts encoding
// ---------------------------------------------------------------------------

/// The bits of a sequence of symbols.
pub open spec fn symbol_bits(symbols: Seq<(bool, u32)>) -> Seq<bool> {
    symbols.map_values(|s: (bool, u32)| s.0)
}

/// The probabilities of a sequence of symbols.
pub open spec fn symbol_probs(symbols: Seq<(bool, u32)>) -> Seq<u32> {
    symbols.map_values(|s: (bool, u32)| s.1)
}

proof fn lemma_encodable_prefix(symbols: Seq<(bool, u32)>, k: int)
    requires
        encodable(symbols),
        0 <= k <= symbols.len(),
    ensures
        encodable(symbols.take(k)),
    decreases symbols.len(),
{
    if k == symbols.len() {
        assert(symbols.take(k) =~= symbols);
    } else {
        lemma_encodable_prefix(symbols.drop_last(), k);
        assert(symbols.drop_last().take(k) =~= symbols.take(k));
    }
}

/// The final interval lies inside that of every prefix.
proof fn lemma_nested(symbols: Seq<(bool, u32)>, k: int)
    requires
        encodable(symbols),
        0 <= k <= symbols.len(),
    ensures
        ({
            let s = encode_all(symbols.take(k));
            let f = encode_all(symbols);
            let d = (f.shifts - s.shifts) as nat;
            &&& s.shifts <= f.shifts
            &&& s.low * pow2(d) <= f.low
            &&& f.low + f.range <= (s.low + s.range) * pow2(d)
        }),
    decreases symbols.len(),
{
    let s = encode_all(symbols.take(k));
    let f = encode_all(symbols);
    lemma2_to64();
    if k == symbols.len() {
        assert(symbols.take(k) =~= symbols);
        assert(s.low * 1 == s.low && (s.low + s.range) * 1 == s.low + s.range);
    } else {
        let head = symbols.drop_last();
        lemma_nested(head, k);
        assert(head.take(k) =~= symbols.take(k));
        let g = encode_all(head);
        lemma_reachable(head);
        let (bit, p) = symbols.last();
        lemma_step_nests(g, bit, p);
        let m = narrow(g, bit, p);
        let n = (f.shifts - g.shifts) as nat;
        let d = (g.shifts - s.shifts) as nat;
        lemma_pow2_adds(d, n);
        let q = pow2(n) as int;
        let r = pow2(d) as int;
        let (sl, sr, gl, gr, ml, mr) = (
            s.low as int,
            s.range as int,
            g.low as int,
            g.range as int,
            m.low as int,
            m.range as int,
        );
        assert(sl * (r * q) <= ml * q) by (nonlinear_arith)
            requires
                sl * r <= ml,
                q >= 0,
        ;
        assert(ml * q + mr * q <= (sl + sr) * (r * q)) by (nonlinear_arith)
            requires
                ml + mr <= (sl + sr) * r,
                q >= 0,
        ;
    }
}

/// The coded number, cut off after the bits that a prefix has used, lies in the part
/// of the interval that stands for the next bit.
proof fn lemma_next_bit(symbols: Seq<(bool, u32)>, k: int)
    requires
        encodable(symbols),
        0 <= k < symbols.len(),
    ensures
        ({
            let s = encode_all(symbols.take(k));
            let f = encode_all(symbols);
            let d = (f.shifts - s.shifts) as nat;
            let m = narrow(s, symbols[k].0, symbols[k].1);
            let n = doublings(m.range);
            &&& s.shifts + n <= f.shifts
            &&& m.low <= f.low / pow2(d) < m.low + m.range
        }),
{
    let s = encode_all(symbols.take(k));
    let f = encode_all(symbols);
    let next = symbols.take(k + 1);
    assert(next.drop_last() =~= symbols.take(k));
    assert(next.last() == symbols[k]);
    lemma_encodable_prefix(symbols, k + 1);
    lemma_reachable(symbols.take(k));
    lemma_reachable(symbols);
    lemma_nested(symbols, k + 1);
    let (bit, p) = symbols[k];
    lemma_step_nests(s, bit, p);
    let t = encode_all(next);
    let m = narrow(s, bit, p);
    let n = (t.shifts - s.shifts) as nat;
    let d = (f.shifts - s.shifts) as nat;
    let e = (f.shifts - t.shifts) as nat;
    lemma_pow2_adds(n, e);
    lemma_pow2_pos(d);
    let q = pow2(n) as int;
    let r = pow2(e) as int;
    let w = pow2(d) as int;
    let (ml, mr, fl) = (m.low as int, m.range as int, f.low as int);
    assert((ml * q) * r == ml * w) by (nonlinear_arith)
        requires
            w == q * r,
    ;
    assert((ml * q + mr * q) * r == (ml + mr) * w) by (nonlinear_arith)
        requires
            w == q * r,
    ;
    let c = fl / w;
    lemma_fundamental_div_mod(fl, w);
    lemma_mod_bound(fl, w);
    assert(ml <= c) by (nonlinear_arith)
        requires
            ml * w <= w * c + fl % w,
            fl % w < w,
            w > 0,
    ;
    assert(c < ml + mr) by (nonlinear_arith)
        requires
            w * c <= fl < (ml + mr) * w,
            w > 0,
    ;
}

/// The bit string `coded` holds the coded symbols at position `pos`.
pub open spec fn holds_code(symbols: Seq<(bool, u32)>, coded: Seq<bool>, pos: nat) -> bool {
    bits::holds(coded, pos, codeword(encode_all(symbols)))
}

/// After `k` symbols the decoder is where the encoder was.
spec fn follows(symbols: Seq<(bool, u32)>, coded: Seq<bool>, pos: nat, k: int) -> bool {
    let s = encode_all(symbols.take(k));
    let f = encode_all(symbols);
    let d = decode_state(coded, decode_start(coded, pos), symbol_probs(symbols).take(k));
    &&& s.shifts <= f.shifts
    &&& d.pos == pos + s.shifts + ABITS
    &&& d.range == s.range
    &&& d.code == f.low / pow2((f.shifts - s.shifts) as nat) - s.low
}

/// Any `n` digits of the code, read from where it is held.
proof fn lemma_code_digits(
    symbols: Seq<(bool, u32)>,
    coded: Seq<bool>,
    pos: nat,
    at: nat,
    n: nat,
)
    requires
        encodable(symbols),
        holds_code(symbols, coded, pos),
        at + n <= encode_all(symbols).shifts + ABITS,
    ensures
        codeword(encode_all(symbols)).len() == encode_all(symbols).shifts + ABITS,
        bits::value(bits::window(coded, (pos + at) as int, n)) == (encode_all(symbols).low / pow2(
            (encode_all(symbols).shifts + ABITS - at - n) as nat,
        )) % pow2(n),
        encode_all(symbols).low < pow2(encode_all(symbols).shifts + ABITS as nat),
{
    let f = encode_all(symbols);
    let word = codeword(f);
    let total = f.shifts + ABITS as nat;
    bits::lemma_binary_len(f.low, total);
    bits::lemma_value_binary(f.low, total);
    lemma_reachable(symbols);
    lemma2_to64();
    lemma_pow2_adds(f.shifts, 12);
    assert((ONE - 1) * pow2(f.shifts) < pow2(total)) by (nonlinear_arith)
        requires
            pow2(total) == pow2(f.shifts) * 4096,
            pow2(total) > 0,
    ;
    lemma_small_mod(f.low, pow2(total));
    let w = bits::window(coded, (pos + at) as int, n);
    assert forall|i: int| 0 <= i < n implies w[i] == word[at + i] by {
        assert(coded.subrange(pos as int, (pos + total) as int)[at + i] == word[at + i]);
    }
    assert(w =~= word.subrange(at as int, (at + n) as int));
    bits::lemma_value_subrange(word, at as int, n);
}

proof fn lemma_follows_start(symbols: Seq<(bool, u32)>, coded: Seq<bool>, pos: nat)
    requires
        encodable(symbols),
        holds_code(symbols, coded, pos),
    ensures
        follows(symbols, coded, pos, 0),
{
    let f = encode_all(symbols);
    lemma_code_digits(symbols, coded, pos, 0, 12);
    assert(symbols.take(0) =~= Seq::<(bool, u32)>::empty());
    assert(symbol_probs(symbols).take(0) =~= Seq::<u32>::empty());
    // The quotient has no more than twelve digits, so the remainder is the quotient.
    lemma2_to64();
    lemma_pow2_adds(f.shifts, 12);
    lemma_pow2_pos(f.shifts);
    let w = pow2(f.shifts) as int;
    let q = f.low as int / w;
    lemma_fundamental_div_mod(f.low as int, w);
    lemma_mod_bound(f.low as int, w);
    assert(q < 4096) by (nonlinear_arith)
        requires
            w * q <= f.low as int,
            (f.low as int) < w * 4096,
            w > 0,
    ;
    lemma_div_pos_is_pos(f.low as int, w);
    lemma_small_mod(q as nat, 4096);
}

/// The arithmetic of one step: the distance of the code from the new lower end.
proof fn lemma_code_distance(low: nat, e0: nat, e1: nat, n: nat, code: u32, ml: nat, mr: nat)
    requires
        e0 == e1 + n,
        n <= 11,
        code == low / pow2(e0) - ml,
        code < mr < 4096,
    ensures
        ((code * pow2(n)) % 0x1_0000_0000 + (low / pow2(e1)) % pow2(n)) as u32 == low / pow2(e1)
            - ml * pow2(n),
        ml * pow2(n) <= low / pow2(e1),
{
    lemma2_to64();
    let q = pow2(n) as int;
    let c0 = low as int / pow2(e0) as int;
    let c1 = low as int / pow2(e1) as int;
    lemma_pow2_adds(e1, n);
    lemma_pow2_pos(e1);
    lemma_pow2_pos(n);
    lemma_pow2_strictly_increases(n, 12);
    lemma_div_denominator(low as int, pow2(e1) as int, q);
    lemma_fundamental_div_mod(c1, q);
    lemma_mod_bound(c1, q);
    assert((c0 - ml) * q == q * c0 - ml * q) by (nonlinear_arith);
    assert(0 <= (c0 - ml) * q < 0x100_0000) by (nonlinear_arith)
        requires
            0 <= c0 - ml < 4096,
            0 < q < 4096,
    ;
    lemma_small_mod((code * pow2(n)) as nat, 0x1_0000_0000);
}

proof fn lemma_follows_step(symbols: Seq<(bool, u32)>, coded: Seq<bool>, pos: nat, j: int)
    requires
        encodable(symbols),
        holds_code(symbols, coded, pos),
        0 <= j < symbols.len(),
        follows(symbols, coded, pos, j),
    ensures
        follows(symbols, coded, pos, j + 1),
        decoded_bit(
            decode_state(coded, decode_start(coded, pos), symbol_probs(symbols).take(j)),
            symbols[j].1,
        ) == symbols[j].0,
        decoded_range(
            decode_state(coded, decode_start(coded, pos), symbol_probs(symbols).take(j)),
            symbols[j].1,
        ) != 0,
{
    let k = j + 1;
    let ps = symbol_probs(symbols);
    let start = decode_start(coded, pos);
    let f = encode_all(symbols);
    let s = encode_all(symbols.take(j));
    let (bit, p) = symbols[j];
    assert(symbols.take(k).drop_last() =~= symbols.take(j));
    assert(symbols.take(k).last() == symbols[j]);
    assert(ps.take(k).drop_last() =~= ps.take(j));
    assert(ps.take(k).last() == p);
    lemma_next_bit(symbols, j);
    lemma_encodable_prefix(symbols, j);
    lemma_encodable_prefix(symbols, k);
    lemma_reachable(symbols.take(j));
    lemma_step_nests(s, bit, p);
    let t = encode_all(symbols.take(k));
    let m = narrow(s, bit, p);
    let d0 = decode_state(coded, start, ps.take(j));
    let d1 = decode_state(coded, start, ps.take(k));
    let n = doublings(m.range);
    let e0 = (f.shifts - s.shifts) as nat;
    let e1 = (f.shifts - t.shifts) as nat;
    let h = d0.range.wrapping_sub(approx(d0.range, p));
    assert(decoded_bit(d0, p) == bit);
    assert(decoded_range(d0, p) == m.range);
    let code = if bit { d0.code } else { d0.code.wrapping_sub(h) };
    assert(code == f.low / pow2(e0) - m.low);
    lemma_doublings(m.range);
    lemma_code_digits(symbols, coded, pos, s.shifts + ABITS as nat, n);
    assert((f.shifts + ABITS - (s.shifts + ABITS as nat) - n) as nat == e1);
    assert((pos + (s.shifts + ABITS as nat)) as int == d0.pos);
    lemma_code_distance(f.low, e0, e1, n, code, m.low, m.range);
    assert(d1 == decode_step(coded, d0, p));
}

/// The decoder follows the encoder from symbol to symbol.
proof fn lemma_decoder_follows(symbols: Seq<(bool, u32)>, coded: Seq<bool>, pos: nat, k: int)
    requires
        encodable(symbols),
        holds_code(symbols, coded, pos),
        0 <= k <= symbols.len(),
    ensures
        follows(symbols, coded, pos, k),
    decreases k,
{
    if k == 0 {
        lemma_follows_start(symbols, coded, pos);
    } else {
        lemma_decoder_follows(symbols, coded, pos, k - 1);
        lemma_follows_step(symbols, coded, pos, k - 1);
    }
}

/// The decoder gives back the encoded bits.
///
/// Whatever is encoded, the coded bits, found at any position of any bit string,
/// decode with the same probabilities to the same bits.
pub proof fn law_decode_inverts_encode(symbols: Seq<(bool, u32)>, coded: Seq<bool>, pos: nat)
    requires
        encodable(symbols),
        holds_code(symbols, coded, pos),
    ensures
        decode_all(coded, decode_start(coded, pos), symbol_probs(symbols)) == symbol_bits(symbols),
        forall|k: int|
            0 <= k < symbols.len() ==> #[trigger] decoded_range(
                decode_state(coded, decode_start(coded, pos), symbol_probs(symbols).take(k)),
                symbols[k].1,
            ) != 0,
{
    let start = decode_start(coded, pos);
    let ps = symbol_probs(symbols);
    assert forall|k: int| 0 <= k < symbols.len() implies decoded_bit(
        decode_state(coded, start, ps.take(k)),
        ps[k],
    ) == symbols[k].0 && #[trigger] decoded_range(
        decode_state(coded, start, ps.take(k)),
        symbols[k].1,
    ) != 0 by {
        lemma_decoder_follows(symbols, coded, pos, k);
        lemma_follows_step(symbols, coded, pos, k);
    }
    assert forall|k: int| 0 <= k < symbols.len() implies decode_all(coded, start, ps)[k]
        == symbol_bits(symbols)[k] by {
        assert(decoded_range(decode_state(coded, start, ps.take(k)), symbols[k].1) != 0);
    }
    assert(decode_all(coded, start, ps) =~= symbol_bits(symbols));
}

} // verus!

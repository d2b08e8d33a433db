//! Bit strings: the mathematical model of packed bytes and coded numbers.
//!
//! Bit strings are sequences of `bool`, most significant bit first.

use vstd::arithmetic::div_mod::*;
use vstd::arithmetic::mul::*;
use vstd::arithmetic::power2::*;
use vstd::bits::*;
use vstd::prelude::*;

verus! {

/// The number that a bit string denotes.
pub open spec fn value(s: Seq<bool>) -> nat
    decreases s.len(),
{
    if s.len() == 0 {
        0
    } else {
        2 * value(s.drop_last()) + (if s.last() { 1nat } else { 0nat })
    }
}

/// The low `n` binary digits of `v`.
pub open spec fn binary(v: nat, n: nat) -> Seq<bool>
    decreases n,
{
    if n == 0 {
        Seq::empty()
    } else {
        binary(v / 2, (n - 1) as nat).push(v % 2 == 1)
    }
}

/// The `n` bits of `s` from position `pos` on; positions outside `s` read as zero.
pub open spec fn window(s: Seq<bool>, pos: int, n: nat) -> Seq<bool> {
    Seq::new(n, |i: int| 0 <= pos + i < s.len() && s[pos + i])
}

/// The bit string `w` stands in `s` at position `pos`.
pub open spec fn holds(s: Seq<bool>, pos: nat, w: Seq<bool>) -> bool {
    &&& pos + w.len() <= s.len()
    &&& s.subrange(pos as int, (pos + w.len()) as int) == w
}

/// The position after `n` bits of `total` are read from `pos`.
pub open spec fn advance(total: nat, pos: nat, n: nat) -> nat {
    if pos >= total {
        pos
    } else if pos + n <= total {
        pos + n
    } else {
        total
    }
}

/// `n` equal bits.
pub open spec fn run(b: bool, n: nat) -> Seq<bool> {
    Seq::new(n, |i: int| b)
}

/// The bits of packed bytes.
pub open spec fn unpack(data: Seq<u8>) -> Seq<bool> {
    Seq::new(8 * data.len(), |i: int| binary(data[i / 8] as nat, 8)[i % 8])
}

/// The bytes that hold a bit string, the last one filled up with zero bits.
pub open spec fn pack(s: Seq<bool>) -> Seq<u8> {
    Seq::new((s.len() + 7) as nat / 8, |k: int| value(window(s, 8 * k, 8)) as u8)
}

/// The bits of a sequence of bytes that hold one bit each.
pub open spec fn flags(s: Seq<u8>) -> Seq<bool> {
    s.map_values(|b: u8| b == 1)
}

/// A byte whose first bit is set is at least 128.
pub proof fn lemma_first_bit(s: Seq<bool>)
    requires
        s.len() == 8,
    ensures
        s[0] <==> value(s) >= 128,
        value(s) < 256,
{
    reveal_with_fuel(value, 9);
}

pub proof fn lemma_value_bound(s: Seq<bool>)
    ensures
        value(s) < pow2(s.len()),
    decreases s.len(),
{
    lemma2_to64();
    if s.len() > 0 {
        lemma_value_bound(s.drop_last());
        lemma_pow2_unfold(s.len());
    }
}

pub proof fn lemma_value_push(s: Seq<bool>, b: bool)
    ensures
        value(s.push(b)) == 2 * value(s) + (if b { 1nat } else { 0nat }),
{
    assert(s.push(b).drop_last() =~= s);
}

pub proof fn lemma_value_concat(a: Seq<bool>, b: Seq<bool>)
    ensures
        value(a + b) == value(a) * pow2(b.len()) + value(b),
    decreases b.len(),
{
    lemma2_to64();
    if b.len() == 0 {
        assert(a + b =~= a);
    } else {
        let b0 = b.drop_last();
        assert((a + b).drop_last() =~= a + b0);
        lemma_value_concat(a, b0);
        lemma_pow2_unfold(b.len());
        assert(2 * (value(a) * pow2(b0.len())) == value(a) * (2 * pow2(b0.len())))
            by (nonlinear_arith);
    }
}

pub proof fn lemma_binary_len(v: nat, n: nat)
    ensures
        binary(v, n).len() == n,
    decreases n,
{
    if n > 0 {
        lemma_binary_len(v / 2, (n - 1) as nat);
    }
}

/// Digit `k` of `n` digits is the one with weight `2^(n-1-k)`.
pub proof fn lemma_binary_index(v: nat, n: nat, k: int)
    requires
        0 <= k < n,
    ensures
        binary(v, n)[k] == ((v / pow2((n - 1 - k) as nat)) % 2 == 1),
    decreases n,
{
    lemma_binary_len(v / 2, (n - 1) as nat);
    lemma2_to64();
    if k < n - 1 {
        lemma_binary_index(v / 2, (n - 1) as nat, k);
        lemma_pow2_unfold((n - 1 - k) as nat);
        lemma_pow2_pos((n - 2 - k) as nat);
        lemma_div_denominator(v as int, 2, pow2((n - 2 - k) as nat) as int);
    } else {
        assert(v / pow2(0) == v);
    }
}

pub proof fn lemma_value_binary(v: nat, n: nat)
    ensures
        value(binary(v, n)) == v % pow2(n),
    decreases n,
{
    lemma2_to64();
    lemma_binary_len(v, n);
    lemma_pow2_pos(n);
    if n > 0 {
        let m = (n - 1) as nat;
        lemma_binary_len(v / 2, m);
        lemma_value_binary(v / 2, m);
        lemma_value_push(binary(v / 2, m), v % 2 == 1);
        lemma_pow2_unfold(n);
        lemma_pow2_pos(m);
        lemma_mod_breakdown(v as int, 2, pow2(m) as int);
    }
}

pub proof fn lemma_binary_value(s: Seq<bool>)
    ensures
        binary(value(s), s.len()) == s,
    decreases s.len(),
{
    if s.len() == 0 {
        assert(binary(value(s), s.len()) =~= s);
    } else {
        lemma_binary_value(s.drop_last());
        assert(s.drop_last().push(s.last()) =~= s);
    }
}

pub proof fn lemma_value_injective(s: Seq<bool>, t: Seq<bool>)
    requires
        s.len() == t.len(),
        value(s) == value(t),
    ensures
        s == t,
{
    lemma_binary_value(s);
    lemma_binary_value(t);
}

/// A bit string is cut out of another one by a division and a remainder.
pub proof fn lemma_value_subrange(s: Seq<bool>, i: int, n: nat)
    requires
        0 <= i,
        i + n <= s.len(),
    ensures
        value(s.subrange(i, i + n)) == (value(s) / pow2((s.len() - i - n) as nat)) % pow2(n),
{
    let head = s.subrange(0, i);
    let mid = s.subrange(i, i + n);
    let tail = s.subrange(i + n, s.len() as int);
    assert(s =~= (head + mid) + tail);
    lemma_value_concat(head + mid, tail);
    lemma_value_concat(head, mid);
    lemma_value_bound(mid);
    lemma_value_bound(tail);
    lemma_pow2_pos(n);
    lemma_pow2_pos(tail.len());
    let q = pow2(tail.len()) as int;
    let hm = value(head + mid) as int;
    let p = pow2(n) as int;
    let hd = value(head) as int;
    let md = value(mid) as int;
    lemma_fundamental_div_mod_converse(value(s) as int, q, hm, value(tail) as int);
    assert(hm * q + value(tail) == q * hm + value(tail)) by (nonlinear_arith);
    lemma_fundamental_div_mod_converse(hm, p, hd, md);
}

pub proof fn lemma_window_full(s: Seq<bool>, pos: int, n: nat)
    requires
        0 <= pos,
        pos + n <= s.len(),
    ensures
        window(s, pos, n) == s.subrange(pos, pos + n),
{
    assert(window(s, pos, n) =~= s.subrange(pos, pos + n));
}

pub proof fn lemma_unpack_pack(s: Seq<bool>)
    ensures
        unpack(pack(s)) == s + Seq::new((8 * ((s.len() + 7) as nat / 8) - s.len()) as nat, |i: int| false),
{
    let r = s + Seq::new((8 * ((s.len() + 7) as nat / 8) - s.len()) as nat, |i: int| false);
    assert forall|i: int| 0 <= i < r.len() implies unpack(pack(s))[i] == r[i] by {
        let k = i / 8;
        let w = window(s, 8 * k, 8);
        lemma_value_bound(w);
        lemma2_to64();
        lemma_binary_value(w);
        assert(w[i % 8] == (0 <= 8 * k + i % 8 < s.len() && s[8 * k + i % 8]));
    }
    assert(unpack(pack(s)) =~= r);
}

pub proof fn lemma_pack_unpack(data: Seq<u8>)
    ensures
        pack(unpack(data)) == data,
{
    assert forall|k: int| 0 <= k < data.len() implies pack(unpack(data))[k] == data[k] by {
        let w = window(unpack(data), 8 * k, 8);
        lemma_binary_len(data[k] as nat, 8);
        assert forall|j: int| 0 <= j < 8 implies w[j] == binary(data[k] as nat, 8)[j] by {
            assert((8 * k + j) / 8 == k && (8 * k + j) % 8 == j);
        }
        assert(w =~= binary(data[k] as nat, 8));
        lemma_value_binary(data[k] as nat, 8);
        lemma2_to64();
    }
    assert(pack(unpack(data)) =~= data);
}

/// The digit that a shift and a mask take out of a byte.
pub proof fn lemma_byte_bit(b: u8, i: u8)
    requires
        i < 8,
    ensures
        (b >> ((7 - i) as u8)) & 1 == (if binary(b as nat, 8)[i as int] { 1u8 } else { 0u8 }),
{
    let sh = (7 - i) as u8;
    lemma_binary_index(b as nat, 8, i as int);
    lemma_u8_shr_is_div(b, sh);
    let x = b >> sh;
    assert(x & 1 == x % 2) by (bit_vector);
}

/// The digit that a shift and a mask take out of a 32-bit number.
pub proof fn lemma_word_bit(v: u32, n: nat, i: u32)
    requires
        i < n <= 32,
    ensures
        (v >> i) & 1 == (if binary(v as nat, n)[n - 1 - i] { 1u32 } else { 0u32 }),
{
    lemma_binary_index(v as nat, n, n - 1 - i);
    lemma_u32_shr_is_div(v, i);
    let x = v >> i;
    assert(x & 1 == x % 2) by (bit_vector);
}

/// The parts of a bit string that stands in another one stand there too.
pub proof fn lemma_holds_concat(s: Seq<bool>, pos: nat, a: Seq<bool>, b: Seq<bool>)
    requires
        holds(s, pos, a + b),
    ensures
        holds(s, pos, a),
        holds(s, pos + a.len(), b),
{
    let t = s.subrange(pos as int, (pos + (a + b).len()) as int);
    assert forall|i: int| 0 <= i < a.len() implies s[pos + i] == a[i] by {
        assert(t[i] == (a + b)[i]);
    }
    assert forall|i: int| 0 <= i < b.len() implies s[pos + a.len() + i] == b[i] by {
        assert(t[a.len() + i] == (a + b)[a.len() + i]);
    }
    assert(s.subrange(pos as int, (pos + a.len()) as int) =~= a);
    assert(s.subrange((pos + a.len()) as int, (pos + a.len() + b.len()) as int) =~= b);
}

/// Reading a bit string where it stands gives the number that it denotes.
pub proof fn lemma_holds_window(s: Seq<bool>, pos: nat, w: Seq<bool>)
    requires
        holds(s, pos, w),
    ensures
        window(s, pos as int, w.len()) == w,
        advance(s.len(), pos, w.len()) == pos + w.len(),
{
    lemma_window_full(s, pos as int, w.len());
}

pub proof fn lemma_window_push(s: Seq<bool>, pos: int, n: nat)
    ensures
        window(s, pos, n + 1) == window(s, pos, n).push(0 <= pos + n < s.len() && s[pos + n]),
{
    assert(window(s, pos, n + 1) =~= window(s, pos, n).push(0 <= pos + n < s.len() && s[pos + n]));
}

pub proof fn lemma_run_value(n: nat)
    ensures
        value(run(false, n)) == 0,
        value(run(true, n)) + 1 == pow2(n),
    decreases n,
{
    lemma2_to64();
    if n > 0 {
        let m = (n - 1) as nat;
        lemma_run_value(m);
        assert(run(false, n).drop_last() =~= run(false, m));
        assert(run(true, n).drop_last() =~= run(true, m));
        lemma_pow2_unfold(n);
    }
}

pub proof fn lemma_unpack_push(data: Seq<u8>, b: u8)
    ensures
        unpack(data.push(b)) == unpack(data) + binary(b as nat, 8),
{
    lemma_binary_len(b as nat, 8);
    let l = unpack(data.push(b));
    let r = unpack(data) + binary(b as nat, 8);
    assert forall|i: int| 0 <= i < l.len() implies l[i] == r[i] by {
        if i < 8 * data.len() {
            assert(i / 8 < data.len());
        } else {
            assert(i / 8 == data.len() && i % 8 == i - 8 * data.len());
        }
    }
    assert(l =~= r);
}

/// Bytes whose bits are a bit string and less than eight zeros are its packed form.
pub proof fn lemma_pack_unique(data: Seq<u8>, s: Seq<bool>, pad: nat)
    requires
        unpack(data) == s + run(false, pad),
        pad < 8,
    ensures
        data == pack(s),
{
    lemma_unpack_pack(s);
    lemma_pack_unpack(data);
    lemma_pack_unpack(pack(s));
    assert(unpack(data) =~= unpack(pack(s)));
}

/// Digits of a multiple of a power of two end in zeros.
pub proof fn lemma_binary_shifted(v: nat, n: nat, k: nat)
    ensures
        binary(v * pow2(k), n + k) == binary(v, n) + run(false, k),
    decreases k,
{
    lemma2_to64();
    lemma_binary_len(v, n);
    if k == 0 {
        assert(v * 1 == v);
        assert(binary(v, n) + run(false, 0) =~= binary(v, n));
    } else {
        let j = (k - 1) as nat;
        lemma_pow2_unfold(k);
        let w = v * pow2(j);
        assert(v * (2 * pow2(j)) == 2 * w) by (nonlinear_arith)
            requires
                w == v * pow2(j),
        ;
        lemma_binary_shifted(v, n, j);
        assert(binary(2 * w, n + k) == binary(w, n + j).push(false));
        assert((binary(v, n) + run(false, j)).push(false) =~= binary(v, n) + run(false, k));
    }
}

/// The digits of a number are those of its remainder.
pub proof fn lemma_binary_low(v: nat, n: nat)
    ensures
        binary(v, n) == binary(v % pow2(n), n),
{
    lemma_pow2_pos(n);
    lemma_binary_len(v, n);
    lemma_binary_len(v % pow2(n), n);
    lemma_value_binary(v, n);
    lemma_value_binary(v % pow2(n), n);
    lemma_mod_twice(v as int, pow2(n) as int);
    lemma_value_injective(binary(v, n), binary(v % pow2(n), n));
}

/// A shift to the left multiplies, up to the digits that fall off.
pub proof fn lemma_shl_wraps(c: u32, n: u32)
    requires
        n < 32,
    ensures
        (c << n) == (c * pow2(n as nat)) % 0x1_0000_0000,
        (1u32 << n) == pow2(n as nat),
{
    lemma2_to64();
    let wide = c as u64;
    let sh = n as u64;
    assert(c << n == ((wide << sh) % 0x1_0000_0000u64)) by (bit_vector)
        requires
            n < 32,
            wide == c as u64,
            sh == n as u64,
    ;
    lemma_pow2_strictly_increases(n as nat, 32);
    assert(c * pow2(n as nat) <= u64::MAX) by (nonlinear_arith)
        requires
            0 <= c <= 0xffff_ffff,
            0 <= pow2(n as nat) <= 0x1_0000_0000,
    ;
    lemma_u64_shl_is_mul(wide, sh);
    lemma_u32_shl_is_mul(1, n);
}

/// What begins a string held at a position is held there too.
pub proof fn lemma_holds_prefix(s: Seq<bool>, pos: nat, w: Seq<bool>, prefix: Seq<bool>)
    requires
        holds(s, pos, w),
        prefix.is_prefix_of(w),
    ensures
        holds(s, pos, prefix),
{
    assert(s.subrange(pos as int, (pos + prefix.len()) as int) =~= prefix) by {
        assert forall|i: int| 0 <= i < prefix.len() implies s[pos + i] == prefix[i] by {
            assert(s.subrange(pos as int, (pos + w.len()) as int)[i] == w[i]);
            assert(w.subrange(0, prefix.len() as int)[i] == prefix[i]);
        }
    }
}

/// Reading on after reading is reading more.
pub proof fn lemma_advance(s: Seq<bool>, pos: nat, n: nat, m: nat)
    ensures
        advance(s.len(), advance(s.len(), pos, n), m) == advance(s.len(), pos, n + m),
        window(s, advance(s.len(), pos, n) as int, m) == window(s, (pos + n) as int, m),
{
    assert(window(s, advance(s.len(), pos, n) as int, m) =~= window(s, (pos + n) as int, m));
}

/// Exclusive or of single bits.
pub proof fn lemma_xor_bits()
    ensures
        0u8 ^ 0u8 == 0,
        1u8 ^ 1u8 == 0,
        0u8 ^ 1u8 == 1,
        1u8 ^ 0u8 == 1,
{
    assert(0u8 ^ 0u8 == 0 && 1u8 ^ 1u8 == 0 && 0u8 ^ 1u8 == 1 && 1u8 ^ 0u8 == 1) by (bit_vector);
}

} // verus!

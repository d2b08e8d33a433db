//! Numbers as bytes, big-endian and little-endian.

use vstd::arithmetic::div_mod::*;
use vstd::prelude::*;

verus! {

/// The number whose base-256 digits, the highest first, these are.
pub open spec fn be_value(s: Seq<u8>) -> nat
    decreases s.len(),
{
    if s.len() == 0 {
        0
    } else {
        256 * be_value(s.drop_last()) + s.last() as nat
    }
}

/// The low `n` base-256 digits of a number, the highest first.
pub open spec fn be(v: nat, n: nat) -> Seq<u8>
    decreases n,
{
    if n == 0 {
        Seq::empty()
    } else {
        be(v / 256, (n - 1) as nat).push((v % 256) as u8)
    }
}

/// The number whose base-256 digits, the lowest first, these are.
pub open spec fn le_value(s: Seq<u8>) -> nat {
    be_value(s.reverse())
}

/// The low `n` base-256 digits of a number, the lowest first.
pub open spec fn le(v: nat, n: nat) -> Seq<u8> {
    be(v, n).reverse()
}

/// The largest numbers of so many bytes, and one more.
pub open spec fn pow256(n: nat) -> nat
    decreases n,
{
    if n == 0 {
        1
    } else {
        256 * pow256((n - 1) as nat)
    }
}

pub proof fn lemma_pow256()
    ensures
        pow256(2) == 0x1_0000,
        pow256(4) == 0x1_0000_0000,
        pow256(8) == 0x1_0000_0000_0000_0000,
{
    reveal_with_fuel(pow256, 9);
}

pub proof fn lemma_be_len(v: nat, n: nat)
    ensures
        be(v, n).len() == n,
        le(v, n).len() == n,
    decreases n,
{
    if n > 0 {
        lemma_be_len(v / 256, (n - 1) as nat);
    }
}

pub proof fn lemma_be_bound(s: Seq<u8>)
    ensures
        be_value(s) < pow256(s.len()),
    decreases s.len(),
{
    if s.len() > 0 {
        lemma_be_bound(s.drop_last());
    }
}

/// A number that fits is the value of its digits.
pub proof fn lemma_be_round_trip(v: nat, n: nat)
    requires
        v < pow256(n),
    ensures
        be_value(be(v, n)) == v,
        le_value(le(v, n)) == v,
    decreases n,
{
    if n > 0 {
        lemma_be_round_trip(v / 256, (n - 1) as nat);
        assert(be(v, n).drop_last() =~= be(v / 256, (n - 1) as nat));
    }
    assert(le(v, n).reverse() =~= be(v, n));
}

/// The low `n` bytes of a number, big-endian.
pub fn be_bytes(v: u64, n: usize) -> (r: Vec<u8>)
    requires
        n <= 8,
    ensures
        r@ == be(v as nat, n as nat),
        r@.len() == n,
{
    let mut r: Vec<u8> = vec![0u8; n];
    let mut i: usize = n;
    let mut x: u64 = v;
    let ghost all = be(v as nat, n as nat);
    proof {
        lemma_be_len(v as nat, n as nat);
        assert(all.take(n as int) =~= all);
    }
    while i > 0
        invariant
            i <= n,
            r@.len() == n,
            all == be(v as nat, n as nat),
            all.len() == n,
            all.take(i as int) == be(x as nat, i as nat),
            forall|k: int| i <= k < n ==> #[trigger] r@[k] == all[k],
        decreases i,
    {
        let ghost before = all.take(i as int);
        i = i - 1;
        r[i] = (x % 256) as u8;
        x = x / 256;
        proof {
            assert(before.last() == all[i as int]);
            assert(before.drop_last() =~= all.take(i as int));
            assert(be(x as nat, i as nat) =~= before.drop_last());
        }
    }
    proof {
        assert(r@ =~= all);
    }
    r
}

/// The low `n` bytes of a number, little-endian.
pub fn le_bytes(v: u64, n: usize) -> (r: Vec<u8>)
    requires
        n <= 8,
    ensures
        r@ == le(v as nat, n as nat),
        r@.len() == n,
{
    let be: Vec<u8> = be_bytes(v, n);
    let mut r: Vec<u8> = Vec::new();
    let mut i: usize = 0;
    while i < n
        invariant
            i <= n,
            be@.len() == n,
            r@ == be@.reverse().take(i as int),
        decreases n - i,
    {
        r.push(be[n - 1 - i]);
        i = i + 1;
        proof {
            assert(r@ =~= be@.reverse().take(i as int));
        }
    }
    proof {
        assert(be@.reverse().take(n as int) =~= be@.reverse());
    }
    r
}

/// The number that up to eight bytes hold, big-endian.
pub fn read_be(bytes: &[u8]) -> (v: u64)
    requires
        bytes@.len() <= 8,
    ensures
        v == be_value(bytes@),
{
    let mut v: u64 = 0;
    let mut i: usize = 0;
    proof {
        lemma_pow256();
    }
    while i < bytes.len()
        invariant
            i <= bytes@.len() <= 8,
            v == be_value(bytes@.take(i as int)),
        decreases bytes@.len() - i,
    {
        proof {
            let t = bytes@.take(i + 1);
            assert(t.drop_last() =~= bytes@.take(i as int));
            lemma_be_bound(t);
            lemma_pow256_grows(t.len(), 8);
            lemma_pow256();
        }
        v = v * 256 + bytes[i] as u64;
        i = i + 1;
    }
    proof {
        assert(bytes@.take(i as int) =~= bytes@);
    }
    v
}

pub proof fn lemma_pow256_grows(m: nat, n: nat)
    requires
        m <= n,
    ensures
        0 < pow256(m) <= pow256(n),
    decreases n,
{
    if m < n {
        lemma_pow256_grows(m, (n - 1) as nat);
    } else if n > 0 {
        lemma_pow256_grows((m - 1) as nat, (n - 1) as nat);
    }
}

/// The number that up to eight bytes hold, little-endian.
pub fn read_le(bytes: &[u8]) -> (v: u64)
    requires
        bytes@.len() <= 8,
    ensures
        v == le_value(bytes@),
{
    let mut turned: Vec<u8> = Vec::new();
    let n: usize = bytes.len();
    let mut i: usize = 0;
    while i < n
        invariant
            i <= n,
            n == bytes@.len(),
            turned@ == bytes@.reverse().take(i as int),
        decreases n - i,
    {
        turned.push(bytes[n - 1 - i]);
        i = i + 1;
        proof {
            assert(turned@ =~= bytes@.reverse().take(i as int));
        }
    }
    proof {
        assert(bytes@.reverse().take(n as int) =~= bytes@.reverse());
    }
    read_be(turned.as_slice())
}

/// What a `usize` keeps of a 64-bit number.
pub open spec fn size_value(v: nat) -> nat {
    v % (usize::MAX as nat + 1)
}

/// What a `usize` keeps of a 64-bit number.
pub fn to_size(v: u64) -> (r: usize)
    ensures
        r == size_value(v as nat),
        v <= usize::MAX ==> r == v,
{
    if v <= usize::MAX as u64 {
        proof {
            lemma_small_mod(v as nat, usize::MAX as nat + 1);
        }
        v as usize
    } else {
        assert(usize::MAX == 0xffff_ffff);
        let w: u32 = v as u32;
        assert(w == v % 0x1_0000_0000) by (bit_vector)
            requires
                w == v as u32,
        ;
        w as usize
    }
}

/// So many bytes hold the low digits of a number.
pub proof fn lemma_be_low(v: nat, n: nat)
    ensures
        be(v % pow256(n), n) == be(v, n),
    decreases n,
{
    if n > 0 {
        let q = pow256((n - 1) as nat);
        lemma_pow256_grows((n - 1) as nat, (n - 1) as nat);
        lemma_mod_breakdown(v as int, 256, q as int);
        let w = v % pow256(n);
        lemma_be_low(v / 256, (n - 1) as nat);
        assert(w / 256 == (v / 256) % q && w % 256 == v % 256);
    }
}

} // verus!

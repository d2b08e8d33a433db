//! Tables of filter coefficients and Ptable entries as they stand in a DST frame:
//! listed one by one, or Rice coded where that takes fewer bits.

use vstd::arithmetic::div_mod::*;
use vstd::arithmetic::power2::*;
use vstd::prelude::*;

use crate::codec::bits;
use crate::codec::bitstream;
use crate::codec::bitstream::{BitstreamReader, BitstreamWriter};
use crate::codec::constants::{
    TableType, AC_BITS, CPRED_ORDER, SIZE_PREDCOEF, SIZE_RICEM, SIZE_RICEMETHOD,
};
use crate::codec::rice;
use crate::codec::rice::{
    entry_bits, rice_encode_table, select_best_rice_method, try_rice_decode_table,
};

verus! {

// ---------------------------------------------------------------------------
// Model
// ---------------------------------------------------------------------------

/// The numbers that an entry can be.
pub open spec fn entry_valid(v: int, table_type: TableType) -> bool {
    match table_type {
        TableType::Filter => -256 <= v <= 255,
        TableType::Ptable => 1 <= v <= 128,
    }
}

/// An entry that is not Rice coded: a signed coefficient, or a probability less one.
pub open spec fn entry_code(v: int, table_type: TableType) -> Seq<bool> {
    match table_type {
        TableType::Filter => bitstream::signed_binary(v, 9),
        TableType::Ptable => bits::binary((v - 1) as nat, 7),
    }
}

/// The entry that stands at a position.
pub open spec fn entry_at(s: Seq<bool>, pos: int, table_type: TableType) -> int {
    match table_type {
        TableType::Filter => bitstream::signed(bits::value(bits::window(s, pos, 9)), 9),
        TableType::Ptable => bits::value(bits::window(s, pos, 7)) as int + 1,
    }
}

/// The first `n` entries, listed one by one.
pub open spec fn listing(data: Seq<i32>, table_type: TableType, n: nat) -> Seq<bool>
    decreases n,
{
    if n == 0 {
        Seq::empty()
    } else {
        listing(data, table_type, (n - 1) as nat) + entry_code(data[n - 1] as int, table_type)
    }
}

/// The `n` entries that stand one by one from a position on.
pub open spec fn listing_at(s: Seq<bool>, pos: nat, table_type: TableType, n: nat) -> Seq<i32> {
    Seq::new(n, |k: int| entry_at(s, pos + k * rice::entry_width(table_type), table_type) as i32)
}

/// The Rice method and parameter that take the fewest bits.
pub open spec fn best(data: Seq<i32>, table_type: TableType) -> (int, int) {
    choose|b: (int, int)| rice::best_choice(data, table_type, b.0, b.1)
}

/// The Rice coded form of a table.
pub open spec fn rice_form(data: Seq<i32>, table_type: TableType, method: int, m: int) -> Seq<
    bool,
> {
    seq![true] + bits::binary(method as nat, SIZE_RICEMETHOD as nat) + listing(
        data,
        table_type,
        rice::order(method),
    ) + bits::binary(m as nat, SIZE_RICEM as nat) + rice::table_code(
        data,
        method,
        m as nat,
        table_type,
        data.len(),
    )
}

/// The form of a table with its entries listed.
pub open spec fn listed_form(data: Seq<i32>, table_type: TableType) -> Seq<bool> {
    seq![false] + listing(data, table_type, data.len())
}

/// A table as it stands in a frame: Rice coded where that can be done and takes fewer
/// bits, otherwise listed.
pub open spec fn coded_table(data: Seq<i32>, table_type: TableType) -> Seq<bool> {
    let (method, m) = best(data, table_type);
    let rice = rice_form(data, table_type, method, m);
    let listed = listed_form(data, table_type);
    if rice::order(method) < data.len() && rice.len() < listed.len() {
        rice
    } else {
        listed
    }
}

/// The table of `count` entries that stands at a position, and the position behind it;
/// nothing where it cannot be read.
pub open spec fn coded_table_at(
    s: Seq<bool>,
    pos: nat,
    table_type: TableType,
    count: nat,
) -> Option<(Seq<i32>, nat)> {
    let w = rice::entry_width(table_type);
    let p1 = bits::advance(s.len(), pos, 1);
    if !bits::window(s, pos as int, 1)[0] {
        Some((listing_at(s, p1, table_type, count), bits::advance(s.len(), p1, count * w)))
    } else {
        let method = bits::value(bits::window(s, p1 as int, 2));
        let p2 = bits::advance(s.len(), p1, 2);
        if method >= 3 {
            None
        } else {
            let order = rice::order(method as int);
            let first = listing_at(s, p2, table_type, order);
            let p3 = bits::advance(s.len(), p2, order * w);
            let m = bits::value(bits::window(s, p3 as int, 3));
            let p4 = bits::advance(s.len(), p3, 3);
            rice::table_at(s, p4, first, method as int, m, table_type, order, count)
        }
    }
}

// ---------------------------------------------------------------------------
// Lemmas
// ---------------------------------------------------------------------------

/// Only one choice is the best.
proof fn lemma_best(data: Seq<i32>, table_type: TableType, method: int, m: int)
    requires
        rice::best_choice(data, table_type, method, m),
    ensures
        best(data, table_type) == (method, m),
{
    let b = best(data, table_type);
    assert(rice::best_choice(data, table_type, (method, m).0, (method, m).1));
    assert(rice::best_choice(data, table_type, b.0, b.1));
    if rice::order(0) < data.len() {
        assert(rice::candidate(data, table_type, method, m));
        assert(rice::candidate(data, table_type, b.0, b.1));
    }
}

pub proof fn lemma_entry_len(v: int, table_type: TableType)
    ensures
        entry_code(v, table_type).len() == rice::entry_width(table_type),
{
    match table_type {
        TableType::Filter => {
            bits::lemma_binary_len((v % pow2(9) as int) as nat, 9);
        },
        TableType::Ptable => {
            bits::lemma_binary_len((v - 1) as nat, 7);
        },
    }
}

pub proof fn lemma_listing_len(data: Seq<i32>, table_type: TableType, n: nat)
    ensures
        listing(data, table_type, n).len() == n * rice::entry_width(table_type),
    decreases n,
{
    if n > 0 {
        lemma_listing_len(data, table_type, (n - 1) as nat);
        lemma_entry_len(data[n - 1] as int, table_type);
        let w = rice::entry_width(table_type);
        assert(n * w == (n - 1) * w + w) by (nonlinear_arith);
    } else {
        assert(0 * rice::entry_width(table_type) == 0);
    }
}

pub proof fn lemma_rice_form_len(data: Seq<i32>, table_type: TableType, method: int, m: int)
    ensures
        rice_form(data, table_type, method, m).len() == 1 + SIZE_RICEMETHOD + rice::order(method)
            * rice::entry_width(table_type) + SIZE_RICEM + rice::table_code(
            data,
            method,
            m as nat,
            table_type,
            data.len(),
        ).len(),
{
    bits::lemma_binary_len(method as nat, SIZE_RICEMETHOD as nat);
    bits::lemma_binary_len(m as nat, SIZE_RICEM as nat);
    lemma_listing_len(data, table_type, rice::order(method));
}

/// A table takes at most the bits of its entries and one more.
pub proof fn lemma_coded_table_len(data: Seq<i32>, table_type: TableType)
    ensures
        coded_table(data, table_type).len() <= 1 + data.len() * rice::entry_width(table_type),
{
    lemma_listing_len(data, table_type, data.len());
}

// ---------------------------------------------------------------------------
// Writing
// ---------------------------------------------------------------------------

/// Entries that fit 16 bits, and for a Ptable are probabilities.
pub open spec fn writable(data: Seq<i32>, table_type: TableType) -> bool {
    forall|i: int|
        0 <= i < data.len() ==> -0x8000 <= #[trigger] data[i] <= 0x7fff && (table_type is Ptable
            ==> entry_valid(data[i] as int, table_type))
}

/// Every way to code a table of up to 128 entries can be computed.
proof fn lemma_sizes(data: Seq<i32>, method: int, m: nat, table_type: TableType)
    requires
        0 <= method < 3,
        m < 32,
        data.len() <= 128,
        writable(data, table_type),
    ensures
        rice::table_fits(data, method, table_type),
        rice::table_cost(data, method, m, table_type, data.len()) <= 0x300_0000,
        rice::table_code(data, method, m, table_type, data.len()).len() <= 0x300_0000,
{
    let n = data.len();
    assert forall|i: int| 0 <= i < data.len() implies -0x8000 <= #[trigger] data[i] <= 0x8000 by {
    }
    rice::lemma_small_entries(data, method, table_type, 0x8000);
    rice::lemma_small_cost(data, method, m, table_type, 0x8000, n);
    assert(n * (8 * 0x8000 + 35) <= 128 * (8 * 0x8000 + 35)) by (nonlinear_arith)
        requires
            n <= 128,
    ;
}

/// Write the first `n` entries one by one.
fn write_listing(writer: &mut BitstreamWriter, data: &[i32], n: usize, table_type: TableType)
    requires
        old(writer).wf(),
        n <= data@.len(),
        writable(data@, table_type),
        old(writer)@.len() + n * rice::entry_width(table_type) <= usize::MAX,
    ensures
        final(writer).wf(),
        final(writer)@ == old(writer)@ + listing(data@, table_type, n as nat),
{
    let mut i: usize = 0;
    proof {
        assert(writer@ =~= old(writer)@ + listing(data@, table_type, 0));
    }
    while i < n
        invariant
            writer.wf(),
            i <= n <= data@.len(),
            writable(data@, table_type),
            old(writer)@.len() + n * rice::entry_width(table_type) <= usize::MAX,
            writer@ == old(writer)@ + listing(data@, table_type, i as nat),
        decreases n - i,
    {
        proof {
            let w = rice::entry_width(table_type);
            lemma_listing_len(data@, table_type, i as nat);
            assert(i * w + w <= n * w) by (nonlinear_arith)
                requires
                    i < n,
            ;
            assert(-0x8000 <= data@[i as int] <= 0x7fff);
        }
        match table_type {
            TableType::Filter => {
                writer.write_bits_signed(data[i], SIZE_PREDCOEF);
            },
            TableType::Ptable => {
                writer.write_bits((data[i] - 1) as u32, AC_BITS - 1);
            },
        }
        i = i + 1;
        proof {
            assert(writer@ =~= old(writer)@ + listing(data@, table_type, i as nat));
        }
    }
}

/// Write a table, Rice coded if beneficial.
#[verifier::rlimit(20)]
pub fn write_coded_table(writer: &mut BitstreamWriter, data: &[i32], table_type: TableType)
    requires
        old(writer).wf(),
        data@.len() <= 128,
        writable(data@, table_type),
        old(writer)@.len() + 1 + data@.len() * rice::entry_width(table_type) <= usize::MAX,
    ensures
        final(writer).wf(),
        final(writer)@ == old(writer)@ + coded_table(data@, table_type),
{
    let n: usize = data.len();
    proof {
        assert forall|k: int, m: int| #[trigger]
            rice::candidate(data@, table_type, k, m) implies rice::table_fits(data@, k, table_type)
            && rice::table_cost(data@, k, m as nat, table_type, data@.len()) < usize::MAX by {
            lemma_sizes(data@, k, m as nat, table_type);
        }
    }
    // Uncoded cost: coded(1) + the width of an entry each
    let width: usize = entry_bits(table_type);
    proof {
        let w = width as int;
        assert(n * w <= 128 * 9) by (nonlinear_arith)
            requires
                0 <= n <= 128,
                0 <= w <= 9,
        ;
    }
    let uncoded_bits: usize = 1 + n * width;

    // Try Rice coding
    let (best_method, best_m) = select_best_rice_method(data, table_type);
    let cpred_order: usize = CPRED_ORDER[best_method];
    proof {
        lemma_best(data@, table_type, best_method as int, best_m as int);
        lemma_listing_len(data@, table_type, n as nat);
        lemma_rice_form_len(data@, table_type, best_method as int, best_m as int);
    }

    if cpred_order < n {
        proof {
            lemma_sizes(data@, best_method as int, best_m as nat, table_type);
            assert(rice::candidate(data@, table_type, best_method as int, best_m as int));
            let w = width as int;
            assert(cpred_order * w <= 27) by (nonlinear_arith)
                requires
                    0 <= cpred_order <= 3,
                    0 <= w <= 9,
            ;
        }
        // Estimate Rice coded bits
        let coded_overhead: usize = 1 + SIZE_RICEMETHOD + cpred_order * width + SIZE_RICEM;
        let mut trial: BitstreamWriter = BitstreamWriter::new();
        rice_encode_table(&mut trial, data, best_method, best_m, table_type);
        proof {
            assert(trial@ =~= rice::table_code(
                data@,
                best_method as int,
                best_m as nat,
                table_type,
                data@.len(),
            ));
        }
        let coded_bits: usize = coded_overhead + trial.bit_position();

        if coded_bits < uncoded_bits {
            // Rice coded
            writer.write_bit(1);  // Coded = 1
            proof {
                bits::lemma_binary_len(best_method as nat, SIZE_RICEMETHOD as nat);
                bits::lemma_binary_len(best_m as nat, SIZE_RICEM as nat);
                lemma_listing_len(data@, table_type, cpred_order as nat);
            }
            writer.write_bits(best_method as u32, SIZE_RICEMETHOD);
            write_listing(writer, data, cpred_order, table_type);
            writer.write_bits(best_m as u32, SIZE_RICEM);
            rice_encode_table(writer, data, best_method, best_m, table_type);
            proof {
                assert(writer@ =~= old(writer)@ + rice_form(
                    data@,
                    table_type,
                    best_method as int,
                    best_m as int,
                ));
            }
            return ;
        }
    }
    // Uncoded
    writer.write_bit(0);  // Coded = 0
    write_listing(writer, data, n, table_type);
    proof {
        assert(writer@ =~= old(writer)@ + listed_form(data@, table_type));
    }
}

// ---------------------------------------------------------------------------
// Reading
// ---------------------------------------------------------------------------

/// Read `n` entries one by one.
fn read_listing(reader: &mut BitstreamReader, n: usize, table_type: TableType) -> (data: Vec<i32>)
    requires
        old(reader).wf(),
    ensures
        final(reader).wf(),
        final(reader).source() == old(reader).source(),
        data@ == listing_at(old(reader).source(), old(reader)@, table_type, n as nat),
        final(reader)@ == bits::advance(
            old(reader).source().len(),
            old(reader)@,
            n as nat * rice::entry_width(table_type),
        ),
{
    let ghost s = reader.source();
    let ghost pos = reader@;
    let ghost w = rice::entry_width(table_type);
    let mut data: Vec<i32> = Vec::new();
    let mut i: usize = 0;
    assert(0 * w == 0);
    while i < n
        invariant
            reader.wf(),
            reader.source() == s,
            i <= n,
            w == rice::entry_width(table_type),
            reader@ == bits::advance(s.len(), pos, i as nat * w),
            data@.len() == i,
            forall|k: int|
                0 <= k < i ==> #[trigger] data@[k] == entry_at(s, pos + k * w, table_type) as i32,
        decreases n - i,
    {
        proof {
            bits::lemma_advance(s, pos, i as nat * w, w);
            assert((i + 1) * w == i * w + w) by (nonlinear_arith);
        }
        match table_type {
            TableType::Filter => {
                data.push(reader.read_bits_signed(SIZE_PREDCOEF));
            },
            TableType::Ptable => {
                proof {
                    lemma2_to64();
                }
                data.push((reader.read_bits(AC_BITS - 1) + 1) as i32);
            },
        }
        i = i + 1;
    }
    proof {
        assert(data@ =~= listing_at(s, pos, table_type, n as nat));
    }
    data
}

/// Read a table of `count` entries, or nothing where there is none.
pub fn read_coded_table(reader: &mut BitstreamReader, count: usize, table_type: TableType) -> (r:
    Option<Vec<i32>>)
    requires
        old(reader).wf(),
    ensures
        final(reader).wf(),
        final(reader).source() == old(reader).source(),
        match coded_table_at(old(reader).source(), old(reader)@, table_type, count as nat) {
            Some((data, next)) => r is Some && r->0@ == data && final(reader)@ == next,
            None => r is None,
        },
{
    let coded: u8 = reader.read_bit();
    if coded == 0 {
        return Some(read_listing(reader, count, table_type));
    }
    let method: usize = reader.read_bits(SIZE_RICEMETHOD) as usize;
    if method >= 3 {
        return None;
    }
    let cpred_order: usize = CPRED_ORDER[method];
    let mut data: Vec<i32> = read_listing(reader, cpred_order, table_type);
    let m: usize = reader.read_bits(SIZE_RICEM) as usize;
    proof {
        lemma2_to64();
    }
    if try_rice_decode_table(reader, &mut data, method, m, table_type, count) {
        Some(data)
    } else {
        None
    }
}

// ---------------------------------------------------------------------------
// Reading undoes writing
// ---------------------------------------------------------------------------

proof fn lemma_entry_round_trip(s: Seq<bool>, pos: nat, v: int, table_type: TableType)
    requires
        entry_valid(v, table_type),
        bits::holds(s, pos, entry_code(v, table_type)),
    ensures
        entry_at(s, pos as int, table_type) == v,
{
    lemma2_to64();
    lemma_entry_len(v, table_type);
    bits::lemma_holds_window(s, pos, entry_code(v, table_type));
    match table_type {
        TableType::Filter => {
            bitstream::lemma_signed_round_trip(v, 9);
        },
        TableType::Ptable => {
            bits::lemma_value_binary((v - 1) as nat, 7);
            lemma_small_mod((v - 1) as nat, pow2(7));
        },
    }
}

pub proof fn lemma_listing_round_trip(
    s: Seq<bool>,
    pos: nat,
    data: Seq<i32>,
    table_type: TableType,
    n: nat,
)
    requires
        n <= data.len(),
        forall|i: int| 0 <= i < data.len() ==> entry_valid(#[trigger] data[i] as int, table_type),
        bits::holds(s, pos, listing(data, table_type, n)),
    ensures
        listing_at(s, pos, table_type, n) == data.take(n as int),
    decreases n,
{
    let w = rice::entry_width(table_type);
    if n > 0 {
        let head = listing(data, table_type, (n - 1) as nat);
        let last = entry_code(data[n - 1] as int, table_type);
        bits::lemma_holds_concat(s, pos, head, last);
        lemma_listing_round_trip(s, pos, data, table_type, (n - 1) as nat);
        lemma_listing_len(data, table_type, (n - 1) as nat);
        lemma_entry_round_trip(s, pos + head.len(), data[n - 1] as int, table_type);
        let before = listing_at(s, pos, table_type, (n - 1) as nat);
        assert forall|k: int| 0 <= k < n implies listing_at(s, pos, table_type, n)[k] == data[k] by {
            if k < n - 1 {
                assert(before[k] == data.take(n - 1)[k]);
            }
        }
    }
    assert(listing_at(s, pos, table_type, n) =~= data.take(n as int));
}

/// A Rice method with its parameter, and the table behind them, read back.
pub proof fn lemma_rice_form_round_trip(
    s: Seq<bool>,
    pos: nat,
    data: Seq<i32>,
    table_type: TableType,
    method: int,
    m: int,
)
    requires
        0 <= method < 3,
        0 <= m < 8,
        rice::order(method) < data.len() <= 128,
        forall|i: int| 0 <= i < data.len() ==> entry_valid(#[trigger] data[i] as int, table_type),
        bits::holds(s, pos, rice_form(data, table_type, method, m)),
    ensures
        coded_table_at(s, pos, table_type, data.len()) == Some(
            (data, pos + rice_form(data, table_type, method, m).len()),
        ),
{
    let w = rice::entry_width(table_type);
    let order = rice::order(method);
    let f0 = seq![true];
    let f1 = bits::binary(method as nat, SIZE_RICEMETHOD as nat);
    let f2 = listing(data, table_type, order);
    let f3 = bits::binary(m as nat, SIZE_RICEM as nat);
    let f4 = rice::table_code(data, method, m as nat, table_type, data.len());
    lemma2_to64();
    bits::lemma_binary_len(method as nat, SIZE_RICEMETHOD as nat);
    bits::lemma_binary_len(m as nat, SIZE_RICEM as nat);
    lemma_listing_len(data, table_type, order);
    lemma_rice_form_len(data, table_type, method, m);
    bits::lemma_holds_concat(s, pos, f0 + f1 + f2 + f3, f4);
    bits::lemma_holds_concat(s, pos, f0 + f1 + f2, f3);
    bits::lemma_holds_concat(s, pos, f0 + f1, f2);
    bits::lemma_holds_concat(s, pos, f0, f1);
    let (p1, p2) = (pos + 1, pos + 3);
    let p3 = p2 + f2.len();
    let p4 = p3 + 3;
    bits::lemma_holds_window(s, pos, f0);
    assert(bits::window(s, pos as int, 1)[0] == f0[0]);
    bits::lemma_holds_window(s, p1, f1);
    bits::lemma_value_binary(method as nat, 2);
    lemma_small_mod(method as nat, 4);
    bits::lemma_holds_window(s, p3, f3);
    bits::lemma_value_binary(m as nat, 3);
    lemma_small_mod(m as nat, 8);
    lemma_listing_round_trip(s, p2, data, table_type, order);
    assert forall|k: int| 0 <= k < data.len() implies -256 <= #[trigger] data[k] <= 256 by {
        assert(entry_valid(data[k] as int, table_type));
    }
    rice::lemma_small_entries(data, method, table_type, 256);
    assert forall|k: int| order <= k < data.len() implies #[trigger] rice::residual(
        data,
        k,
        method,
        table_type,
    ) != i32::MIN by {
        assert(rice::magnitude(rice::residual(data, k, method, table_type)) <= 8 * 256 + 1);
    }
    rice::law_table_round_trip(s, p4, data, method, m as nat, table_type);
}

/// A table of entries that fit, read where it was written, is the same table.
pub proof fn law_coded_table_round_trip(
    s: Seq<bool>,
    pos: nat,
    data: Seq<i32>,
    table_type: TableType,
)
    requires
        data.len() <= 128,
        forall|i: int| 0 <= i < data.len() ==> entry_valid(#[trigger] data[i] as int, table_type),
        bits::holds(s, pos, coded_table(data, table_type)),
    ensures
        coded_table_at(s, pos, table_type, data.len()) == Some(
            (data, pos + coded_table(data, table_type).len()),
        ),
{
    let (method, m) = best(data, table_type);
    let rice = rice_form(data, table_type, method, m);
    let listed = listed_form(data, table_type);
    if rice::order(method) < data.len() && rice.len() < listed.len() {
        rice::lemma_best_exists(data, table_type);
        assert(rice::best_choice(data, table_type, method, m));
        lemma_rice_form_round_trip(s, pos, data, table_type, method, m);
    } else {
        let f0 = seq![false];
        let f1 = listing(data, table_type, data.len());
        bits::lemma_holds_concat(s, pos, f0, f1);
        bits::lemma_holds_window(s, pos, f0);
        assert(bits::window(s, pos as int, 1)[0] == f0[0]);
        lemma_listing_len(data, table_type, data.len());
        lemma_listing_round_trip(s, pos + 1, data, table_type, data.len());
        assert(data.take(data.len() as int) =~= data);
    }
}

/// A table that is read has an entry.
pub proof fn lemma_coded_table_at_len(s: Seq<bool>, pos: nat, table_type: TableType, count: nat)
    requires
        count >= 1,
    ensures
        coded_table_at(s, pos, table_type, count) matches Some((data, next)) ==> data.len() >= 1,
{
    let w = rice::entry_width(table_type);
    let p1 = bits::advance(s.len(), pos, 1);
    let method = bits::value(bits::window(s, p1 as int, 2));
    let p2 = bits::advance(s.len(), p1, 2);
    if method < 3 {
        let order = rice::order(method as int);
        let first = listing_at(s, p2, table_type, order);
        let p3 = bits::advance(s.len(), p2, order * w);
        let m = bits::value(bits::window(s, p3 as int, 3));
        let p4 = bits::advance(s.len(), p3, 3);
        rice::lemma_table_at_grows(s, p4, first, method as int, m, table_type, order, count);
    }
}

} // verus!

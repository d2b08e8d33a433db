//! Rice encoding and decoding for DST filter coefficients and Ptable entries.

use vstd::arithmetic::div_mod::*;
use vstd::arithmetic::power2::*;
use vstd::bits::*;
use vstd::prelude::*;

use crate::codec::bits;
use crate::codec::bitstream;
use crate::codec::bitstream::{BitstreamReader, BitstreamWriter};
use crate::codec::constants::{
    TableType, AC_BITS, CPRED_COEF, CPRED_ORDER, MAX_RICE_M_F, MAX_RICE_M_P, NROFFRICEMETHODS,
    SIZE_PREDCOEF, SIZE_RICEM, SIZE_RICEMETHOD,
};

verus! {

// ---------------------------------------------------------------------------
// Model
// ---------------------------------------------------------------------------

pub open spec fn fits_i32(x: int) -> bool {
    i32::MIN <= x <= i32::MAX
}

pub open spec fn magnitude(v: int) -> nat {
    if v < 0 {
        (-v) as nat
    } else {
        v as nat
    }
}

/// The Rice code of a number: the quotient by `2^m` in unary, the remainder in `m`
/// bits, and a sign bit unless the number is zero.
pub open spec fn rice_code(v: int, m: nat) -> Seq<bool> {
    bitstream::unary(magnitude(v) / pow2(m)) + bits::binary(magnitude(v), m) + (if v != 0 {
        seq![v < 0]
    } else {
        Seq::empty()
    })
}

/// The number whose Rice code stands at `pos`, and the position behind it; nothing
/// where the unary part has no end or the number does not fit.
pub open spec fn rice_at(s: Seq<bool>, pos: nat, m: nat) -> Option<(int, nat)> {
    match bitstream::unary_at(s, pos as int) {
        Some(q) if q <= u32::MAX => {
            let p1 = pos + q + 1;
            let p2 = bits::advance(s.len(), p1, m);
            let nr = (q * pow2(m)) % 0x1_0000_0000 + bits::value(bits::window(s, p1 as int, m));
            let v = if nr < 0x8000_0000 {
                nr as int
            } else {
                nr - 0x1_0000_0000
            };
            if nr == 0 {
                Some((0int, p2))
            } else if !bits::window(s, p2 as int, 1)[0] {
                Some((v, bits::advance(s.len(), p2, 1)))
            } else if v == i32::MIN {
                None
            } else {
                Some((-v, bits::advance(s.len(), p2, 1)))
            }
        },
        _ => None,
    }
}

/// How many values a method needs before it predicts.
pub open spec fn order(method: int) -> nat {
    CPRED_ORDER[method] as nat
}

pub open spec fn tap_coef(table_type: TableType, method: int, tap: int) -> int {
    match table_type {
        TableType::Filter => CPRED_COEF[0][method][tap] as int,
        TableType::Ptable => CPRED_COEF[1][method][tap] as int,
    }
}

/// The part of the prediction for `index` that the first `taps` taps make up.
pub open spec fn partial_prediction(
    data: Seq<i32>,
    index: int,
    method: int,
    table_type: TableType,
    taps: nat,
) -> int
    decreases taps,
{
    if taps == 0 {
        0
    } else {
        partial_prediction(data, index, method, table_type, (taps - 1) as nat) + (if index >= taps {
            tap_coef(table_type, method, taps - 1) * data[index - taps]
        } else {
            0
        })
    }
}

/// Eight times the predicted value of entry `index`, up to sign: see [`residual`].
pub open spec fn prediction(data: Seq<i32>, index: int, method: int, table_type: TableType) -> int {
    partial_prediction(data, index, method, table_type, order(method))
}

/// Division by eight, rounded to the nearest integer.
pub open spec fn quantized(x: int) -> int {
    if x >= 0 {
        (x + 4) / 8
    } else {
        -((-x + 3) / 8)
    }
}

/// The product of the last of the first `taps` taps and the sum up to it fit 32 bits.
pub open spec fn taps_fit(
    data: Seq<i32>,
    index: int,
    method: int,
    table_type: TableType,
    taps: nat,
) -> bool {
    &&& index >= taps ==> fits_i32(tap_coef(table_type, method, taps - 1) * data[index - taps])
    &&& fits_i32(partial_prediction(data, index, method, table_type, taps))
}

/// All numbers met on the way to the quantized prediction fit 32 bits.
pub open spec fn prediction_fits(
    data: Seq<i32>,
    index: int,
    method: int,
    table_type: TableType,
) -> bool {
    &&& forall|taps: nat|
        1 <= taps <= order(method) ==> #[trigger] taps_fit(data, index, method, table_type, taps)
    &&& fits_i32(prediction(data, index, method, table_type) + 4)
    &&& fits_i32(-prediction(data, index, method, table_type) + 3)
}

/// What is stored for entry `index`: the value and the quantized prediction added up.
pub open spec fn residual(data: Seq<i32>, index: int, method: int, table_type: TableType) -> int {
    data[index] + quantized(prediction(data, index, method, table_type))
}

/// The numbers that a table is coded through all fit 32 bits.
pub open spec fn table_fits(data: Seq<i32>, method: int, table_type: TableType) -> bool {
    forall|i: int|
        order(method) <= i < data.len() ==> #[trigger] prediction_fits(data, i, method, table_type)
            && fits_i32(residual(data, i, method, table_type))
}

/// The Rice codes of the residuals of the entries before `end`.
pub open spec fn table_code(
    data: Seq<i32>,
    method: int,
    m: nat,
    table_type: TableType,
    end: nat,
) -> Seq<bool>
    decreases end,
{
    if end <= order(method) {
        Seq::empty()
    } else {
        table_code(data, method, m, table_type, (end - 1) as nat) + rice_code(
            residual(data, end - 1, method, table_type),
            m,
        )
    }
}

/// The table after the entries from `from` up to `count` are read at `pos`, and the
/// position behind them; nothing where an entry cannot be read.
pub open spec fn table_at(
    s: Seq<bool>,
    pos: nat,
    data: Seq<i32>,
    method: int,
    m: nat,
    table_type: TableType,
    from: nat,
    count: nat,
) -> Option<(Seq<i32>, nat)>
    decreases count - from,
{
    if from >= count {
        Some((data, pos))
    } else if !prediction_fits(data, from as int, method, table_type) {
        None
    } else {
        match rice_at(s, pos, m) {
            Some((r, next)) => {
                let v = r - quantized(prediction(data, from as int, method, table_type));
                if fits_i32(v) {
                    table_at(s, next, data.push(v as i32), method, m, table_type, from + 1, count)
                } else {
                    None
                }
            },
            None => None,
        }
    }
}

/// Bits of an entry that is not Rice coded.
pub open spec fn entry_width(table_type: TableType) -> nat {
    match table_type {
        TableType::Filter => 9,
        TableType::Ptable => 7,
    }
}

/// How many bits the entries before `end` take when Rice coded, with the header and the
/// first entries, which are not Rice coded.
pub open spec fn table_cost(
    data: Seq<i32>,
    method: int,
    m: nat,
    table_type: TableType,
    end: nat,
) -> nat
    decreases end,
{
    if end <= order(method) {
        SIZE_RICEMETHOD as nat + order(method) * entry_width(table_type) + SIZE_RICEM as nat
    } else {
        table_cost(data, method, m, table_type, (end - 1) as nat) + rice_code(
            residual(data, end - 1, method, table_type),
            m,
        ).len()
    }
}

/// The largest parameter that is tried.
pub open spec fn rice_limit(table_type: TableType) -> nat {
    match table_type {
        TableType::Filter => MAX_RICE_M_F as nat,
        TableType::Ptable => MAX_RICE_M_P as nat,
    }
}

/// Method and parameter that can code a table.
pub open spec fn candidate(data: Seq<i32>, table_type: TableType, method: int, m: int) -> bool {
    0 <= method < 3 && 0 <= m <= rice_limit(table_type) && order(method) < data.len()
}

/// Method and parameter come before others in the search.
pub open spec fn searched_before(method: int, m: int, other_method: int, other_m: int) -> bool {
    method < other_method || (method == other_method && m < other_m)
}

/// The choice takes the fewest bits, and is the first in the search that does; where
/// no method can code the table, it is method 0 with parameter 0.
pub open spec fn best_choice(
    data: Seq<i32>,
    table_type: TableType,
    method: int,
    m: int,
) -> bool {
    if order(0) >= data.len() {
        method == 0 && m == 0
    } else {
        &&& candidate(data, table_type, method, m)
        &&& forall|k: int, n: int|
            #[trigger] candidate(data, table_type, k, n) ==> {
                let cost = table_cost(data, method, m as nat, table_type, data.len());
                let other = table_cost(data, k, n as nat, table_type, data.len());
                if searched_before(k, n, method, m) {
                    cost < other
                } else {
                    cost <= other
                }
            }
    }
}

// ---------------------------------------------------------------------------
// Single numbers
// ---------------------------------------------------------------------------

pub proof fn lemma_rice_code_len(v: int, m: nat)
    ensures
        rice_code(v, m).len() == magnitude(v) / pow2(m) + 1 + m + (if v != 0 { 1nat } else { 0nat }),
{
    bits::lemma_binary_len(magnitude(v), m);
    lemma_pow2_pos(m);
    lemma_div_pos_is_pos(magnitude(v) as int, pow2(m) as int);
}

fn magnitude_of(value: i32) -> (r: u32)
    ensures
        r == magnitude(value as int),
{
    if value < 0 {
        // The negated value of the smallest number does not fit an i32.
        (-(value as i64)) as u32
    } else {
        value as u32
    }
}

/// Rice-encode a single signed integer.
pub fn rice_encode(writer: &mut BitstreamWriter, value: i32, m: usize)
    requires
        old(writer).wf(),
        m < 32,
        old(writer)@.len() + rice_code(value as int, m as nat).len() <= usize::MAX,
    ensures
        final(writer).wf(),
        final(writer)@ == old(writer)@ + rice_code(value as int, m as nat),
{
    let nr: u32 = magnitude_of(value);
    proof {
        lemma_rice_code_len(value as int, m as nat);
        lemma_u32_shr_is_div(nr, m as u32);
        lemma2_to64();
        lemma_u32_low_bits_mask_is_mod(nr, m as nat);
        bits::lemma_binary_len(nr as nat, m as nat);
        lemma_mask(nr, m as u32);
    }
    let run_length: u32 = nr >> (m as u32);
    let lsbs: u32 = nr & ((1u32 << (m as u32)) - 1) as u32;

    proof {
        bits::lemma_binary_low(nr as nat, m as nat);
    }
    writer.write_unary(run_length);
    writer.write_bits(lsbs, m);

    if nr != 0 {
        writer.write_bit(if value < 0 { 1 } else { 0 });
    }
    proof {
        assert(writer@ =~= old(writer)@ + rice_code(value as int, m as nat));
    }
}

proof fn lemma_mask(nr: u32, m: u32)
    requires
        m < 32,
    ensures
        1u32 << m >= 1,
        nr & ((1u32 << m) - 1) as u32 == nr as nat % pow2(m as nat),
{
    lemma2_to64();
    lemma_pow2_strictly_increases(m as nat, 32);
    lemma_pow2_pos(m as nat);
    lemma_u32_shl_is_mul(1, m);
    lemma_u32_low_bits_mask_is_mod(nr, m as nat);
    assert(low_bits_mask(m as nat) == pow2(m as nat) - 1);
}

/// Rice-decode a single signed integer.
///
/// There has to be a complete code ahead, of a number that fits.
pub fn rice_decode(reader: &mut BitstreamReader, m: usize) -> (v: i32)
    requires
        old(reader).wf(),
        m < 32,
        rice_at(old(reader).source(), old(reader)@, m as nat) is Some,
    ensures
        final(reader).wf(),
        final(reader).source() == old(reader).source(),
        rice_at(old(reader).source(), old(reader)@, m as nat) == Some((v as int, final(reader)@)),
{
    match try_rice_decode(reader, m) {
        Some(v) => v,
        None => 0,
    }
}

/// Rice-decode a single signed integer, or nothing where no complete code of a number
/// that fits is ahead.
pub fn try_rice_decode(reader: &mut BitstreamReader, m: usize) -> (v: Option<i32>)
    requires
        old(reader).wf(),
        m < 32,
    ensures
        final(reader).wf(),
        final(reader).source() == old(reader).source(),
        match rice_at(old(reader).source(), old(reader)@, m as nat) {
            Some((n, next)) => v == Some(n as i32) && fits_i32(n) && final(reader)@ == next,
            None => v is None,
        },
{
    let ghost s = reader.source();
    let ghost pos = reader@;
    let run_length: u32 = match reader.try_read_unary() {
        Some(n) => n,
        None => {
            return None;
        },
    };
    let lsbs: u32 = reader.read_bits(m);
    proof {
        bits::lemma_shl_wraps(run_length, m as u32);
        bits::lemma_value_bound(bits::window(s, (pos + run_length + 1) as int, m as nat));
        lemma2_to64();
        let (x, sh) = (run_length, m as u32);
        assert((x << sh) + lsbs <= 0xffff_ffff) by (bit_vector)
            requires
                sh < 32,
                lsbs < 1u32 << sh,
        ;
    }
    let nr: u32 = (run_length << (m as u32)) + lsbs;
    let value: i32 = nr as i32;
    assert(value == (if nr < 0x8000_0000 { nr as int } else { nr - 0x1_0000_0000 }))
        by (bit_vector)
        requires
            value == nr as i32,
    ;
    if nr != 0 {
        let sign: u8 = reader.read_bit();
        if sign == 1 {
            if value == i32::MIN {
                return None;
            }
            return Some(-value);
        }
    }
    Some(value)
}

/// A Rice code read where it stands gives back its number.
pub proof fn law_rice_round_trip(s: Seq<bool>, pos: nat, v: int, m: nat)
    requires
        m < 32,
        i32::MIN < v <= i32::MAX,
        bits::holds(s, pos, rice_code(v, m)),
    ensures
        rice_at(s, pos, m) == Some((v, pos + rice_code(v, m).len())),
{
    let nr = magnitude(v);
    let q = nr / pow2(m);
    let head = bitstream::unary(q) + bits::binary(nr, m);
    let sign = if v != 0 {
        seq![v < 0]
    } else {
        Seq::empty()
    };
    lemma_rice_code_len(v, m);
    bits::lemma_binary_len(nr, m);
    bits::lemma_holds_concat(s, pos, head, sign);
    bits::lemma_holds_concat(s, pos, bitstream::unary(q), bits::binary(nr, m));
    bitstream::lemma_unary_at(s, pos, q);
    bits::lemma_holds_window(s, pos + q + 1, bits::binary(nr, m));
    bits::lemma_value_binary(nr, m);
    lemma_pow2_pos(m);
    lemma_fundamental_div_mod(nr as int, pow2(m) as int);
    lemma_mod_bound(nr as int, pow2(m) as int);
    assert(q * pow2(m) == pow2(m) * q) by (nonlinear_arith);
    assert(q <= nr) by (nonlinear_arith)
        requires
            pow2(m) * q <= nr,
            pow2(m) >= 1,
            q >= 0,
    ;
    lemma_small_mod(q * pow2(m), 0x1_0000_0000);
    if v != 0 {
        bits::lemma_holds_window(s, pos + q + 1 + m, sign);
        assert(bits::window(s, (pos + q + 1 + m) as int, 1)[0] == sign[0]);
    }
}

// ---------------------------------------------------------------------------
// Tables
// ---------------------------------------------------------------------------

/// Compute Rice prediction for coefficient/entry at index.
fn predict_value(data: &[i32], index: usize, method: usize, table_type: TableType) -> (x: i32)
    requires
        method < 3,
        index <= data@.len(),
        prediction_fits(data@, index as int, method as int, table_type),
    ensures
        x == prediction(data@, index as int, method as int, table_type),
{
    let order: usize = CPRED_ORDER[method];
    let mut x: i32 = 0;
    let mut tap: usize = 0;
    while tap < order
        invariant
            tap <= order,
            method < 3,
            order == CPRED_ORDER[method as int],
            index <= data@.len(),
            prediction_fits(data@, index as int, method as int, table_type),
            x == partial_prediction(data@, index as int, method as int, table_type, tap as nat),
        decreases order - tap,
    {
        let ghost next = taps_fit(
            data@,
            index as int,
            method as int,
            table_type,
            (tap + 1) as nat,
        );
        if index > tap {
            let coef: i32 = match table_type {
                TableType::Filter => CPRED_COEF[0][method][tap],
                TableType::Ptable => CPRED_COEF[1][method][tap],
            };
            x = x + coef * data[index - tap - 1];
        }
        tap = tap + 1;
    }
    x
}

/// Whether all numbers met on the way to a prediction fit.
fn check_prediction(data: &[i32], index: usize, method: usize, table_type: TableType) -> (r: bool)
    requires
        method < 3,
        index <= data@.len(),
    ensures
        r == prediction_fits(data@, index as int, method as int, table_type),
{
    let order: usize = CPRED_ORDER[method];
    let mut x: i64 = 0;
    let mut tap: usize = 0;
    while tap < order
        invariant
            tap <= order,
            method < 3,
            order == CPRED_ORDER[method as int],
            order <= 3,
            index <= data@.len(),
            fits_i32(x as int),
            x == partial_prediction(data@, index as int, method as int, table_type, tap as nat),
            forall|taps: nat|
                1 <= taps <= tap ==> #[trigger] taps_fit(
                    data@,
                    index as int,
                    method as int,
                    table_type,
                    taps,
                ),
        decreases order - tap,
    {
        let ghost next = taps_fit(
            data@,
            index as int,
            method as int,
            table_type,
            (tap + 1) as nat,
        );
        if index > tap {
            let coef: i32 = match table_type {
                TableType::Filter => CPRED_COEF[0][method][tap],
                TableType::Ptable => CPRED_COEF[1][method][tap],
            };
            let d: i32 = data[index - tap - 1];
            proof {
                assert(-24 * 0x8000_0000 <= coef * d <= 24 * 0x8000_0000) by (nonlinear_arith)
                    requires
                        -24 <= coef <= 24,
                        -0x8000_0000 <= d <= 0x7fff_ffff,
                ;
            }
            let product: i64 = coef as i64 * d as i64;
            if product < i32::MIN as i64 || product > i32::MAX as i64 {
                return false;
            }
            x = x + product;
            if x < i32::MIN as i64 || x > i32::MAX as i64 {
                return false;
            }
        }
        assert(next);
        tap = tap + 1;
    }
    x + 4 <= i32::MAX as i64 && -x + 3 <= i32::MAX as i64
}

/// Quantize a prediction to an integer.
fn quantize_prediction(x: i32) -> (r: i32)
    requires
        fits_i32(x + 4),
        fits_i32(-x + 3),
    ensures
        r == quantized(x as int),
{
    if x >= 0 {
        (x + 4) / 8
    } else {
        -((-x + 3) / 8)
    }
}

/// Rice-encode a sequence of coefficients/entries with linear prediction.
///
/// First `CPRED_ORDER[method]` values are written directly (handled by caller).
/// This encodes the remaining values as Rice-coded residuals.
pub fn rice_encode_table(
    writer: &mut BitstreamWriter,
    data: &[i32],
    method: usize,
    m: usize,
    table_type: TableType,
)
    requires
        old(writer).wf(),
        method < 3,
        m < 32,
        table_fits(data@, method as int, table_type),
        old(writer)@.len() + table_code(
            data@,
            method as int,
            m as nat,
            table_type,
            data@.len(),
        ).len() <= usize::MAX,
    ensures
        final(writer).wf(),
        final(writer)@ == old(writer)@ + table_code(
            data@,
            method as int,
            m as nat,
            table_type,
            data@.len(),
        ),
{
    let start: usize = CPRED_ORDER[method];
    let mut i: usize = start;
    proof {
        assert(writer@ =~= old(writer)@ + Seq::<bool>::empty());
    }
    while i < data.len()
        invariant
            writer.wf(),
            method < 3,
            m < 32,
            start == CPRED_ORDER[method as int],
            start <= i,
            i <= data@.len() || i == start,
            table_fits(data@, method as int, table_type),
            old(writer)@.len() + table_code(
                data@,
                method as int,
                m as nat,
                table_type,
                data@.len(),
            ).len() <= usize::MAX,
            writer@ == old(writer)@ + table_code(
                data@,
                method as int,
                m as nat,
                table_type,
                i as nat,
            ),
        decreases data@.len() - i,
    {
        assert(prediction_fits(data@, i as int, method as int, table_type));
        let x: i32 = predict_value(data, i, method, table_type);
        let predicted: i32 = quantize_prediction(x);
        // DST convention: stored = value + predicted
        let residual: i32 = data[i] + predicted;
        proof {
            lemma_table_code_grows(
                data@,
                method as int,
                m as nat,
                table_type,
                (i + 1) as nat,
                data@.len(),
            );
        }
        rice_encode(writer, residual, m);
        i = i + 1;
        proof {
            assert(writer@ =~= old(writer)@ + table_code(
                data@,
                method as int,
                m as nat,
                table_type,
                i as nat,
            ));
        }
    }
    proof {
        lemma_table_code_start(data@, method as int, m as nat, table_type, i as nat, data@.len());
    }
}

proof fn lemma_table_code_start(
    data: Seq<i32>,
    method: int,
    m: nat,
    table_type: TableType,
    i: nat,
    end: nat,
)
    requires
        i == end || (end <= i && i == order(method)),
    ensures
        table_code(data, method, m, table_type, i) == table_code(data, method, m, table_type, end),
{
}

proof fn lemma_table_code_grows(
    data: Seq<i32>,
    method: int,
    m: nat,
    table_type: TableType,
    i: nat,
    end: nat,
)
    requires
        i <= end,
    ensures
        table_code(data, method, m, table_type, i).len() <= table_code(
            data,
            method,
            m,
            table_type,
            end,
        ).len(),
    decreases end,
{
    if i < end && end > order(method) {
        lemma_table_code_grows(data, method, m, table_type, i, (end - 1) as nat);
    }
}

/// Rice-decode a sequence with linear prediction (appends to data).
pub fn rice_decode_table(
    reader: &mut BitstreamReader,
    data: &mut Vec<i32>,
    method: usize,
    m: usize,
    table_type: TableType,
    count: usize,
)
    requires
        old(reader).wf(),
        method < 3,
        m < 32,
        order(method as int) < count ==> order(method as int) <= old(data)@.len(),
        table_at(
            old(reader).source(),
            old(reader)@,
            old(data)@,
            method as int,
            m as nat,
            table_type,
            order(method as int),
            count as nat,
        ) is Some,
    ensures
        final(reader).wf(),
        final(reader).source() == old(reader).source(),
        table_at(
            old(reader).source(),
            old(reader)@,
            old(data)@,
            method as int,
            m as nat,
            table_type,
            order(method as int),
            count as nat,
        ) == Some((final(data)@, final(reader)@)),
{
    let done: bool = try_rice_decode_table(reader, data, method, m, table_type, count);
}

/// Rice-decode a sequence with linear prediction, and say whether all of it could be
/// read.
pub fn try_rice_decode_table(
    reader: &mut BitstreamReader,
    data: &mut Vec<i32>,
    method: usize,
    m: usize,
    table_type: TableType,
    count: usize,
) -> (done: bool)
    requires
        old(reader).wf(),
        method < 3,
        m < 32,
        order(method as int) < count ==> order(method as int) <= old(data)@.len(),
    ensures
        final(reader).wf(),
        final(reader).source() == old(reader).source(),
        match table_at(
            old(reader).source(),
            old(reader)@,
            old(data)@,
            method as int,
            m as nat,
            table_type,
            order(method as int),
            count as nat,
        ) {
            Some((table, next)) => done && final(data)@ == table && final(reader)@ == next,
            None => !done,
        },
{
    let ghost s = reader.source();
    let ghost whole = table_at(
        s,
        reader@,
        data@,
        method as int,
        m as nat,
        table_type,
        order(method as int),
        count as nat,
    );
    let start: usize = CPRED_ORDER[method];
    let mut i: usize = start;
    while i < count
        invariant
            reader.wf(),
            reader.source() == s,
            s == old(reader).source(),
            method < 3,
            m < 32,
            start == CPRED_ORDER[method as int],
            start <= i,
            i < count ==> i <= data@.len(),
            whole == table_at(
                s,
                old(reader)@,
                old(data)@,
                method as int,
                m as nat,
                table_type,
                order(method as int),
                count as nat,
            ),
            whole == table_at(
                s,
                reader@,
                data@,
                method as int,
                m as nat,
                table_type,
                i as nat,
                count as nat,
            ),
        decreases count - i,
    {
        if !check_prediction(data.as_slice(), i, method, table_type) {
            return false;
        }
        let x: i32 = predict_value(data.as_slice(), i, method, table_type);
        let predicted: i32 = quantize_prediction(x);
        match try_rice_decode(reader, m) {
            Some(residual) => {
                // DST convention: value = stored - predicted
                let value: i64 = residual as i64 - predicted as i64;
                if value < i32::MIN as i64 || value > i32::MAX as i64 {
                    return false;
                }
                data.push(value as i32);
            },
            None => {
                return false;
            },
        }
        i = i + 1;
    }
    true
}

/// Count bits needed to Rice-encode a single value.
fn count_rice_bits(value: i32, m: usize) -> (n: usize)
    requires
        m < 32,
    ensures
        n == rice_code(value as int, m as nat).len(),
{
    let nr: u32 = magnitude_of(value);
    proof {
        lemma_rice_code_len(value as int, m as nat);
        lemma_u32_shr_is_div(nr, m as u32);
        lemma_pow2_pos(m as nat);
        lemma_div_is_ordered_by_denominator(nr as int, 1, pow2(m as nat) as int);
    }
    let run_length: usize = (nr >> (m as u32)) as usize;
    // unary(run_length) = run_length + 1 bits
    // LSBs = m bits
    // sign = 1 bit if nr != 0, else 0
    run_length + 1 + m + if nr != 0 { 1 } else { 0 }
}

proof fn lemma_table_cost_grows(
    data: Seq<i32>,
    method: int,
    m: nat,
    table_type: TableType,
    i: nat,
    end: nat,
)
    requires
        i <= end,
    ensures
        table_cost(data, method, m, table_type, i) <= table_cost(
            data,
            method,
            m,
            table_type,
            end,
        ),
    decreases end,
{
    if i < end && end > order(method) {
        lemma_table_cost_grows(data, method, m, table_type, i, (end - 1) as nat);
    }
}

/// Bits of an entry that is not Rice coded.
pub fn entry_bits(table_type: TableType) -> (n: usize)
    ensures
        n == entry_width(table_type),
{
    match table_type {
        TableType::Filter => SIZE_PREDCOEF,
        TableType::Ptable => AC_BITS - 1,
    }
}

/// Bits that a table takes with one method and parameter.
fn count_table_bits(data: &[i32], method: usize, m: usize, table_type: TableType) -> (n: usize)
    requires
        method < 3,
        m < 32,
        order(method as int) < data@.len(),
        table_fits(data@, method as int, table_type),
        table_cost(data@, method as int, m as nat, table_type, data@.len()) <= usize::MAX,
    ensures
        n == table_cost(data@, method as int, m as nat, table_type, data@.len()),
{
    let start: usize = CPRED_ORDER[method];
    let width: usize = entry_bits(table_type);
    proof {
        let (a, w) = (start as int, width as int);
        assert(a * w <= 27) by (nonlinear_arith)
            requires
                0 <= a <= 3,
                0 <= w <= 9,
        ;
    }
    let mut total_bits: usize = SIZE_RICEMETHOD + start * width + SIZE_RICEM;
    let mut i: usize = start;
    while i < data.len()
        invariant
            method < 3,
            m < 32,
            start == order(method as int),
            start <= i <= data@.len(),
            table_fits(data@, method as int, table_type),
            table_cost(data@, method as int, m as nat, table_type, data@.len()) <= usize::MAX,
            total_bits == table_cost(data@, method as int, m as nat, table_type, i as nat),
        decreases data@.len() - i,
    {
        assert(prediction_fits(data@, i as int, method as int, table_type));
        let x: i32 = predict_value(data, i, method, table_type);
        let predicted: i32 = quantize_prediction(x);
        let residual: i32 = data[i] + predicted;
        proof {
            lemma_table_cost_grows(
                data@,
                method as int,
                m as nat,
                table_type,
                (i + 1) as nat,
                data@.len(),
            );
        }
        total_bits = total_bits + count_rice_bits(residual, m);
        i = i + 1;
    }
    total_bits
}

/// The best choice among those that come before a given one in the search.
spec fn best_before(
    data: Seq<i32>,
    table_type: TableType,
    method: int,
    m: int,
    best_method: int,
    best_m: int,
    best_bits: nat,
) -> bool {
    &&& forall|k: int, n: int|
        #[trigger] candidate(data, table_type, k, n) && searched_before(k, n, method, m) ==> {
            let cost = table_cost(data, k, n as nat, table_type, data.len());
            &&& best_bits <= cost
            &&& searched_before(k, n, best_method, best_m) ==> best_bits < cost
        }
    &&& if candidate(data, table_type, best_method, best_m) && searched_before(
        best_method,
        best_m,
        method,
        m,
    ) {
        best_bits == table_cost(data, best_method, best_m as nat, table_type, data.len())
    } else {
        &&& best_method == 0 && best_m == 0 && best_bits == usize::MAX
        &&& forall|k: int, n: int|
            #[trigger] candidate(data, table_type, k, n) ==> !searched_before(k, n, method, m)
    }
}

/// Select the best Rice method and m parameter for a data sequence.
///
/// Tries all method/m combinations and picks the one producing fewest bits.
/// Returns (best_method, best_m).
pub fn select_best_rice_method(data: &[i32], table_type: TableType) -> (best: (usize, usize))
    requires
        forall|k: int, n: int|
            #[trigger] candidate(data@, table_type, k, n) ==> table_fits(data@, k, table_type)
                && table_cost(data@, k, n as nat, table_type, data@.len()) < usize::MAX,
    ensures
        best_choice(data@, table_type, best.0 as int, best.1 as int),
{
    let max_m: usize = match table_type {
        TableType::Filter => MAX_RICE_M_F,
        TableType::Ptable => MAX_RICE_M_P,
    };
    let mut best_method: usize = 0;
    let mut best_m: usize = 0;
    let mut best_bits: usize = usize::MAX;

    let mut method: usize = 0;
    while method < NROFFRICEMETHODS
        invariant
            method <= 3,
            max_m == rice_limit(table_type),
            forall|k: int, n: int|
                #[trigger] candidate(data@, table_type, k, n) ==> table_fits(data@, k, table_type)
                    && table_cost(data@, k, n as nat, table_type, data@.len()) < usize::MAX,
            best_before(
                data@,
                table_type,
                method as int,
                0,
                best_method as int,
                best_m as int,
                best_bits as nat,
            ),
        decreases 3 - method,
    {
        let start: usize = CPRED_ORDER[method];
        if start < data.len() {
            let mut m: usize = 0;
            while m <= max_m
                invariant
                    method < 3,
                    m <= max_m + 1,
                    max_m == rice_limit(table_type),
                    order(method as int) < data@.len(),
                    forall|k: int, n: int|
                        #[trigger] candidate(data@, table_type, k, n) ==> table_fits(
                            data@,
                            k,
                            table_type,
                        ) && table_cost(data@, k, n as nat, table_type, data@.len())
                            < usize::MAX,
                    best_before(
                        data@,
                        table_type,
                        method as int,
                        m as int,
                        best_method as int,
                        best_m as int,
                        best_bits as nat,
                    ),
                decreases max_m + 1 - m,
            {
                assert(candidate(data@, table_type, method as int, m as int));
                let total_bits: usize = count_table_bits(data, method, m, table_type);
                if total_bits < best_bits {
                    best_bits = total_bits;
                    best_method = method;
                    best_m = m;
                }
                m = m + 1;
            }
        }
        method = method + 1;
    }

    (best_method, best_m)
}

/// The prediction for an entry rests on the entries before it alone.
proof fn lemma_prediction_prefix(
    data: Seq<i32>,
    i: int,
    method: int,
    table_type: TableType,
    taps: nat,
)
    requires
        0 <= i <= data.len(),
    ensures
        partial_prediction(data.take(i), i, method, table_type, taps) == partial_prediction(
            data,
            i,
            method,
            table_type,
            taps,
        ),
        taps >= 1 ==> taps_fit(data.take(i), i, method, table_type, taps) == taps_fit(
            data,
            i,
            method,
            table_type,
            taps,
        ),
    decreases taps,
{
    if taps > 0 {
        lemma_prediction_prefix(data, i, method, table_type, (taps - 1) as nat);
    }
}

proof fn lemma_table_at_prefix(
    s: Seq<bool>,
    pos: nat,
    data: Seq<i32>,
    method: int,
    m: nat,
    table_type: TableType,
    i: nat,
)
    requires
        0 <= method < 3,
        m < 32,
        order(method) <= i <= data.len(),
        table_fits(data, method, table_type),
        forall|k: int|
            order(method) <= k < data.len() ==> #[trigger] residual(data, k, method, table_type)
                != i32::MIN,
        bits::holds(s, pos, table_code(data, method, m, table_type, data.len())),
    ensures
        table_at(
            s,
            pos + table_code(data, method, m, table_type, i).len(),
            data.take(i as int),
            method,
            m,
            table_type,
            i,
            data.len(),
        ) == Some((data, pos + table_code(data, method, m, table_type, data.len()).len())),
    decreases data.len() - i,
{
    if i == data.len() {
        assert(data.take(i as int) =~= data);
    } else {
        let head = table_code(data, method, m, table_type, i);
        let r = residual(data, i as int, method, table_type);
        let code = rice_code(r, m);
        assert(prediction_fits(data, i as int, method, table_type));
        lemma_table_code_prefix(data, method, m, table_type, i + 1, data.len());
        bits::lemma_holds_prefix(
            s,
            pos,
            table_code(data, method, m, table_type, data.len()),
            head + code,
        );
        bits::lemma_holds_concat(s, pos, head, code);
        law_rice_round_trip(s, pos + head.len(), r, m);
        assert forall|taps: nat| 1 <= taps <= order(method) implies #[trigger] taps_fit(
            data.take(i as int),
            i as int,
            method,
            table_type,
            taps,
        ) by {
            lemma_prediction_prefix(data, i as int, method, table_type, taps);
            assert(taps_fit(data, i as int, method, table_type, taps));
        }
        lemma_prediction_prefix(data, i as int, method, table_type, order(method));
        assert(data.take(i as int).push(data[i as int]) =~= data.take((i + 1) as int));
        lemma_table_at_prefix(s, pos, data, method, m, table_type, i + 1);
    }
}

/// The code of the first entries begins the code of all.
proof fn lemma_table_code_prefix(
    data: Seq<i32>,
    method: int,
    m: nat,
    table_type: TableType,
    i: nat,
    end: nat,
)
    requires
        i <= end,
    ensures
        table_code(data, method, m, table_type, i).is_prefix_of(
            table_code(data, method, m, table_type, end),
        ),
    decreases end,
{
    if i < end && end > order(method) {
        lemma_table_code_prefix(data, method, m, table_type, i, (end - 1) as nat);
    }
}

/// A table coded with prediction and read back with the same method and parameter,
/// after the entries that are not predicted, is the same table.
pub proof fn law_table_round_trip(
    s: Seq<bool>,
    pos: nat,
    data: Seq<i32>,
    method: int,
    m: nat,
    table_type: TableType,
)
    requires
        0 <= method < 3,
        m < 32,
        order(method) <= data.len(),
        table_fits(data, method, table_type),
        forall|k: int|
            order(method) <= k < data.len() ==> #[trigger] residual(data, k, method, table_type)
                != i32::MIN,
        bits::holds(s, pos, table_code(data, method, m, table_type, data.len())),
    ensures
        table_at(
            s,
            pos,
            data.take(order(method) as int),
            method,
            m,
            table_type,
            order(method),
            data.len(),
        ) == Some((data, pos + table_code(data, method, m, table_type, data.len()).len())),
{
    lemma_table_at_prefix(s, pos, data, method, m, table_type, order(method));
}

/// What a tap contributes at most.
proof fn lemma_small_tap(
    data: Seq<i32>,
    i: int,
    method: int,
    table_type: TableType,
    tap: int,
    size: nat,
    bound: nat,
)
    requires
        0 <= tap < i <= data.len(),
        -size <= tap_coef(table_type, method, tap) <= size,
        -bound <= data[i - 1 - tap] <= bound,
    ensures
        -(size * bound) <= tap_coef(table_type, method, tap) * data[i - 1 - tap] <= size * bound,
{
    let c = tap_coef(table_type, method, tap);
    let d = data[i - 1 - tap] as int;
    assert(-(size * bound) <= c * d <= size * bound) by (nonlinear_arith)
        requires
            -size <= c <= size,
            -bound <= d <= bound,
    ;
}

proof fn lemma_small_prediction(
    data: Seq<i32>,
    i: int,
    method: int,
    table_type: TableType,
    bound: nat,
)
    requires
        0 <= method < 3,
        bound <= 0x8000,
        order(method) <= i < data.len(),
        forall|k: int| 0 <= k < data.len() ==> -bound <= #[trigger] data[k] <= bound,
    ensures
        prediction_fits(data, i, method, table_type),
        magnitude(residual(data, i, method, table_type)) <= 8 * bound + 1,
{
    reveal_with_fuel(partial_prediction, 4);
    let p1 = partial_prediction(data, i, method, table_type, 1);
    let p2 = partial_prediction(data, i, method, table_type, 2);
    let p3 = partial_prediction(data, i, method, table_type, 3);
    assert(-bound <= data[i] <= bound && -bound <= data[i - 1] <= bound);
    lemma_small_tap(data, i, method, table_type, 0, 24, bound);
    assert(-24 * bound <= p1 <= 24 * bound);
    if method >= 1 {
        assert(-bound <= data[i - 2] <= bound);
        lemma_small_tap(data, i, method, table_type, 1, 24, bound);
        assert(-48 * bound <= p2 <= 48 * bound);
    }
    if method == 2 {
        assert(-bound <= data[i - 3] <= bound);
        lemma_small_tap(data, i, method, table_type, 2, 8, bound);
        assert(-56 * bound <= p3 <= 56 * bound);
    }
    let x = prediction(data, i, method, table_type);
    assert(-56 * bound <= x <= 56 * bound);
    assert forall|taps: nat| 1 <= taps <= order(method) implies #[trigger] taps_fit(
        data,
        i,
        method,
        table_type,
        taps,
    ) by {
        assert(taps == 1 || taps == 2 || taps == 3);
    }
}

/// Entries of at most sixteen bits never take the prediction out of range.
pub proof fn lemma_small_entries(data: Seq<i32>, method: int, table_type: TableType, bound: nat)
    requires
        0 <= method < 3,
        bound <= 0x8000,
        forall|k: int| 0 <= k < data.len() ==> -bound <= #[trigger] data[k] <= bound,
    ensures
        table_fits(data, method, table_type),
        forall|k: int|
            order(method) <= k < data.len() ==> magnitude(
                #[trigger] residual(data, k, method, table_type),
            ) <= 8 * bound + 1,
{
    assert forall|i: int| order(method) <= i < data.len() implies #[trigger] prediction_fits(
        data,
        i,
        method,
        table_type,
    ) && magnitude(residual(data, i, method, table_type)) <= 8 * bound + 1 by {
        lemma_small_prediction(data, i, method, table_type, bound);
    }
    assert forall|k: int| order(method) <= k < data.len() implies magnitude(
        #[trigger] residual(data, k, method, table_type),
    ) <= 8 * bound + 1 by {
        assert(prediction_fits(data, k, method, table_type));
    }
}

/// Bits that a table of small entries takes at most.
pub proof fn lemma_small_cost(
    data: Seq<i32>,
    method: int,
    m: nat,
    table_type: TableType,
    bound: nat,
    end: nat,
)
    requires
        0 <= method < 3,
        m < 32,
        bound <= 0x8000,
        end <= data.len(),
        forall|k: int| 0 <= k < data.len() ==> -bound <= #[trigger] data[k] <= bound,
    ensures
        table_cost(data, method, m, table_type, end) <= 32 + end * (8 * bound + 35),
        table_code(data, method, m, table_type, end).len() <= end * (8 * bound + 35),
        end >= order(method) ==> table_cost(data, method, m, table_type, end)
            == SIZE_RICEMETHOD + order(method) * entry_width(table_type) + SIZE_RICEM + table_code(
            data,
            method,
            m,
            table_type,
            end,
        ).len(),
    decreases end,
{
    assert(order(method) * entry_width(table_type) <= 27) by (nonlinear_arith)
        requires
            order(method) <= 3,
            entry_width(table_type) <= 9,
    ;
    if end > order(method) {
        lemma_small_cost(data, method, m, table_type, bound, (end - 1) as nat);
        lemma_small_entries(data, method, table_type, bound);
        let r = residual(data, end - 1, method, table_type);
        lemma_rice_code_len(r, m);
        lemma_pow2_pos(m);
        lemma_div_is_ordered_by_denominator(magnitude(r) as int, 1, pow2(m) as int);
        assert(end * (8 * bound + 35) == (end - 1) * (8 * bound + 35) + (8 * bound + 35))
            by (nonlinear_arith);
    } else {
        assert(end * (8 * bound + 35) >= 0) by (nonlinear_arith)
            requires
                end >= 0,
                bound >= 0,
        ;
    }
}

/// The best of the candidates that come before the `k`-th place of the search, eight
/// places for each method.
proof fn lemma_best_upto(data: Seq<i32>, table_type: TableType, k: nat) -> (best: (int, int))
    requires
        order(0) < data.len(),
        k >= 1,
    ensures
        candidate(data, table_type, best.0, best.1),
        8 * best.0 + best.1 < k,
        forall|i: int, n: int|
            #[trigger] candidate(data, table_type, i, n) && 8 * i + n < k ==> {
                let cost = table_cost(data, best.0, best.1 as nat, table_type, data.len());
                let other = table_cost(data, i, n as nat, table_type, data.len());
                if searched_before(i, n, best.0, best.1) {
                    cost < other
                } else {
                    cost <= other
                }
            },
    decreases k,
{
    if k == 1 {
        assert(candidate(data, table_type, 0, 0));
        (0, 0)
    } else {
        let b = lemma_best_upto(data, table_type, (k - 1) as nat);
        let (method, m) = ((k - 1) / 8, (k - 1) % 8);
        let old_cost = table_cost(data, b.0, b.1 as nat, table_type, data.len());
        let new_cost = table_cost(data, method, m as nat, table_type, data.len());
        if candidate(data, table_type, method, m) && new_cost < old_cost {
            (method, m)
        } else {
            b
        }
    }
}

/// There is a best choice for every table.
pub proof fn lemma_best_exists(data: Seq<i32>, table_type: TableType)
    ensures
        exists|b: (int, int)| best_choice(data, table_type, #[trigger] b.0, b.1),
{
    if order(0) >= data.len() {
        let b = (0int, 0int);
        assert(best_choice(data, table_type, b.0, b.1));
    } else {
        let b = lemma_best_upto(data, table_type, 24);
        assert(best_choice(data, table_type, b.0, b.1));
    }
}

/// Reading a table only adds to it.
pub proof fn lemma_table_at_grows(
    s: Seq<bool>,
    pos: nat,
    data: Seq<i32>,
    method: int,
    m: nat,
    table_type: TableType,
    from: nat,
    count: nat,
)
    ensures
        table_at(s, pos, data, method, m, table_type, from, count) matches Some((table, next))
            ==> table.len() >= data.len(),
    decreases count - from,
{
    if from < count && prediction_fits(data, from as int, method, table_type) {
        if let Some((r, next)) = rice_at(s, pos, m) {
            let v = r - quantized(prediction(data, from as int, method, table_type));
            lemma_table_at_grows(
                s,
                next,
                data.push(v as i32),
                method,
                m,
                table_type,
                from + 1,
                count,
            );
        }
    }
}

/// The bits of a Rice coded table: method and parameter, the first entries, and the codes of
/// the others.
pub open spec fn rice_size(data: Seq<i32>, method: int, m: nat, table_type: TableType) -> nat {
    SIZE_RICEMETHOD as nat + order(method) * entry_width(table_type) + SIZE_RICEM as nat
        + table_code(data, method, m, table_type, data.len()).len()
}

proof fn lemma_cost_is_size(
    data: Seq<i32>,
    method: int,
    m: nat,
    table_type: TableType,
    end: nat,
)
    ensures
        table_cost(data, method, m, table_type, end) == SIZE_RICEMETHOD + order(method)
            * entry_width(table_type) + SIZE_RICEM + table_code(
            data,
            method,
            m,
            table_type,
            end,
        ).len(),
    decreases end,
{
    if end > order(method) {
        lemma_cost_is_size(data, method, m, table_type, (end - 1) as nat);
    }
}

/// The best choice takes the fewest bits: no method and parameter that can code the table
/// take fewer, and those that come before it take more. Without a choice it is method 0 with
/// parameter 0.
pub proof fn law_fewest_bits(
    data: Seq<i32>,
    table_type: TableType,
    best_method: int,
    best_m: int,
    method: int,
    m: int,
)
    requires
        best_choice(data, table_type, best_method, best_m),
    ensures
        data.len() <= 1 ==> best_method == 0 && best_m == 0,
        data.len() >= 2 ==> candidate(data, table_type, best_method, best_m),
        candidate(data, table_type, method, m) ==> rice_size(
            data,
            best_method,
            best_m as nat,
            table_type,
        ) <= rice_size(data, method, m as nat, table_type),
        candidate(data, table_type, method, m) && searched_before(method, m, best_method, best_m)
            ==> rice_size(data, best_method, best_m as nat, table_type) < rice_size(
            data,
            method,
            m as nat,
            table_type,
        ),
{
    lemma_cost_is_size(data, best_method, best_m as nat, table_type, data.len());
    lemma_cost_is_size(data, method, m as nat, table_type, data.len());
}

/// A table of entries up to 1024 in size can be searched for its best choice, unless it is
/// so long that its bits cannot be counted.
pub proof fn law_small_tables_are_searched(
    data: Seq<i32>,
    table_type: TableType,
    method: int,
    m: int,
)
    requires
        forall|k: int| 0 <= k < data.len() ==> -1024 <= #[trigger] data[k] <= 1024,
        32 + 8227 * data.len() < usize::MAX,
        candidate(data, table_type, method, m),
    ensures
        table_fits(data, method, table_type),
        table_cost(data, method, m as nat, table_type, data.len()) < usize::MAX,
{
    lemma_small_entries(data, method, table_type, 1024);
    lemma_small_cost(data, method, m as nat, table_type, 1024, data.len());
    let n = data.len();
    assert(n * (8 * 1024nat + 35) == 8227 * n) by (nonlinear_arith);
}

} // verus!

//! DST frame encoder/decoder — packs FIR, Ptable, and AC data into a DST frame.
//!
//! Simplified: 1 segment per channel, per-channel filters/Ptables,
//! PSameSegAsF=1, PSameMapAsF=1.

use vstd::arithmetic::div_mod::*;
use vstd::arithmetic::power2::*;
use vstd::bits::*;
use vstd::prelude::*;

use crate::codec::arithmetic;
use crate::codec::arithmetic::{ACDecoder, ACEncoder};
use crate::codec::bits;
use crate::codec::bitstream::{BitstreamReader, BitstreamWriter};
use crate::codec::coded_table;
use crate::codec::coded_table::{read_coded_table, write_coded_table};
use crate::codec::constants::{
    TableType, ABITS, AC_HISBITS, AC_HISMAX, RESOL, SIZE_CODEDPREDORDER,
};
use crate::codec::fir;
use crate::codec::fir::{
    build_lut, build_ptable_default, fir_predict, div_ceil_resol, predict_and_residual,
    predicted_bit_of, ptable_lookup, truncate16, FilterLut, Status,
};
use crate::error::{CladstError, Result};

verus! {

// ---------------------------------------------------------------------------
// Header
// ---------------------------------------------------------------------------

/// The number of binary digits of a number, none for zero.
pub open spec fn bit_len(x: nat) -> nat
    decreases x,
{
    if x == 0 {
        0
    } else {
        1 + bit_len(x / 2)
    }
}

/// The number of digits is where the powers of two pass the number.
proof fn lemma_bit_len(x: nat, y: nat)
    requires
        x < pow2(y),
        y > 0 ==> x >= pow2((y - 1) as nat),
    ensures
        bit_len(x) == y,
    decreases y,
{
    lemma2_to64();
    if y == 0 {
    } else if y == 1 {
        assert(x == 1);
        assert(bit_len(1) == 1 + bit_len(0));
    } else {
        lemma_pow2_unfold(y);
        lemma_pow2_unfold((y - 1) as nat);
        lemma_bit_len(x / 2, (y - 1) as nat);
        lemma_pow2_pos((y - 1) as nat);
    }
}

/// Compute ceil(log2(x+1)).
fn log2_round_up(x: usize) -> (y: usize)
    requires
        x <= 0x7fff_ffff,
    ensures
        y == bit_len(x as nat),
        y <= 31,
        x < pow2(y as nat),
{
    let mut y: u32 = 0;
    proof {
        lemma2_to64();
        lemma_u32_shl_is_mul(1, 0);
    }
    while x as u32 >= (1u32 << y)
        invariant
            y <= 31,
            x <= 0x7fff_ffff,
            1u32 << y == pow2(y as nat),
            y > 0 ==> x >= pow2((y - 1) as nat),
        decreases 31 - y,
    {
        proof {
            lemma2_to64();
            if y == 31 {
                assert(x >= pow2(31));
            }
            lemma_pow2_strictly_increases((y + 1) as nat, 32);
            lemma_u32_shl_is_mul(1, (y + 1) as u32);
        }
        y = y + 1;
    }
    proof {
        lemma_bit_len(x as nat, y as nat);
    }
    y as usize
}

/// Seven digits of a number, the lowest first.
pub open spec fn reversed7(c: nat) -> Seq<bool> {
    bits::binary(c, 7).reverse()
}

/// The probability for the dst_x_bit symbol: the low seven digits of the first
/// coefficient in reverse, and one more.
pub open spec fn x_probability(coef: i16) -> u32 {
    (bits::value(reversed7((coef as int % 128) as nat)) + 1) as u32
}

pub proof fn lemma_x_probability(coef: i16)
    ensures
        1 <= x_probability(coef) <= 128,
{
    let c = (coef as int % 128) as nat;
    bits::lemma_binary_len(c, 7);
    bits::lemma_value_bound(reversed7(c));
    lemma2_to64();
}

/// Compute probability for the dst_x_bit symbol.
fn prob_dst_x_bit(coef: i16) -> (p: u32)
    ensures
        p == x_probability(coef),
{
    let c: u32 = (coef as i32 & 127) as u32;
    proof {
        lemma_x_probability(coef);
        let v = coef as i32;
        let up = (v + 0x1_0000) as u32;
        assert((v & 127) as u32 == up % 128 && (v & 127) >= 0) by (bit_vector)
            requires
                up == v + 0x1_0000,
                -32768 <= v <= 32767,
        ;
        lemma_mod_multiples_vanish(512, coef as int, 128);
    }
    let ghost want = reversed7(c as nat);
    proof {
        bits::lemma_binary_len(c as nat, 7);
        assert(want.take(0) =~= Seq::<bool>::empty());
        lemma2_to64();
    }
    // Reverse the low seven bits
    let mut r: u32 = 0;
    let mut i: u32 = 0;
    while i < 7
        invariant
            i <= 7,
            c < 128,
            want == reversed7(c as nat),
            want.len() == 7,
            r == bits::value(want.take(i as int)),
            r < 128,
        decreases 7 - i,
    {
        let low: u32 = (c >> i) & 1;
        proof {
            bits::lemma_word_bit(c, 7, i);
            assert(want.take(i + 1) =~= want.take(i as int).push(want[i as int]));
            bits::lemma_value_push(want.take(i as int), want[i as int]);
            bits::lemma_value_bound(want.take(i + 1));
            lemma2_to64();
            if i + 1 < 7 {
                lemma_pow2_strictly_increases((i + 1) as nat, 7);
            }
            assert((r << 1) | low == 2 * r + low) by (bit_vector)
                requires
                    r < 128,
                    low <= 1,
            ;
        }
        r = (r << 1) | low;
        i = i + 1;
    }
    proof {
        assert(want.take(7) =~= want);
    }
    r + 1
}

/// Segment data: one segment, the same for filters and Ptables and for all channels.
pub open spec fn segment_code() -> Seq<bool> {
    seq![true, true, true]
}

/// Write simplified segment data (1 segment per channel, all same).
fn write_segment_data(writer: &mut BitstreamWriter)
    requires
        old(writer).wf(),
        old(writer)@.len() + 3 <= usize::MAX,
    ensures
        final(writer).wf(),
        final(writer)@ == old(writer)@ + segment_code(),
{
    // PSameSegAsF = 1
    writer.write_bit(1);
    // Filter segments: SameSegAllCh = 1
    writer.write_bit(1);
    // EndOfChannel = 1 immediately (only 1 segment covering entire frame)
    writer.write_bit(1);
    proof {
        assert(writer@ =~= old(writer)@ + segment_code());
    }
}

/// The tables of the channels from the second one on: each takes the next new table.
pub open spec fn assignments(n_channels: nat) -> Seq<bool>
    decreases n_channels,
{
    if n_channels <= 1 {
        Seq::empty()
    } else {
        let last = (n_channels - 1) as nat;
        assignments(last) + bits::binary(last, bit_len(last))
    }
}

/// Mapping data: which filter and Ptable each channel uses, and whether its first
/// samples are coded with even odds.
pub open spec fn mapping_code(n_channels: nat, share_filters: bool, half_prob: bool) -> Seq<bool> {
    seq![true] + (if share_filters {
        seq![true]
    } else {
        seq![false] + assignments(n_channels)
    }) + bits::run(half_prob, n_channels)
}

proof fn lemma_assignments_len(n_channels: nat)
    requires
        n_channels <= 0x7fff_ffff,
    ensures
        assignments(n_channels).len() <= 31 * n_channels,
    decreases n_channels,
{
    if n_channels > 1 {
        let last = (n_channels - 1) as nat;
        lemma_assignments_len(last);
        lemma_bit_len_small(last);
        bits::lemma_binary_len(last, bit_len(last));
    }
}

proof fn lemma_bit_len_small(x: nat)
    requires
        x <= 0x7fff_ffff,
    ensures
        bit_len(x) <= 31,
        x < pow2(bit_len(x)),
{
    lemma2_to64();
    lemma_bit_len_bound(x, 31);
    lemma_bit_len_covers(x);
}

proof fn lemma_bit_len_bound(x: nat, y: nat)
    requires
        x < pow2(y),
    ensures
        bit_len(x) <= y,
    decreases y,
{
    lemma2_to64();
    if x > 0 {
        if y > 0 {
            lemma_pow2_unfold(y);
            lemma_bit_len_bound(x / 2, (y - 1) as nat);
        }
    }
}

pub proof fn lemma_bit_len_covers(x: nat)
    ensures
        x < pow2(bit_len(x)),
    decreases x,
{
    lemma2_to64();
    if x > 0 {
        lemma_bit_len_covers(x / 2);
        lemma_pow2_unfold(bit_len(x));
    }
}

/// Write mapping data for filters and Ptables.
///
/// When `share_filters` is true, all channels share filter 0 (SameMapAllCh=1).
/// When false, each channel gets its own filter (SameMapAllCh=0).
pub fn write_mapping_data(
    writer: &mut BitstreamWriter,
    n_channels: usize,
    share_filters: bool,
    half_prob: bool,
)
    requires
        old(writer).wf(),
        n_channels <= 0x7fff_ffff,
        old(writer)@.len() + 2 + 32 * n_channels <= usize::MAX,
    ensures
        final(writer).wf(),
        final(writer)@ == old(writer)@ + mapping_code(n_channels as nat, share_filters, half_prob),
{
    let ghost start = writer@;
    // PSameMapAsF = 1
    writer.write_bit(1);
    let ghost mapped = if share_filters {
        seq![true]
    } else {
        seq![false] + assignments(n_channels as nat)
    };
    if share_filters {
        // SameMapAllCh = 1: all channels share filter 0
        writer.write_bit(1);
        proof {
            assert(writer@ =~= start + (seq![true] + mapped));
        }
    } else {
        // SameMapAllCh = 0: each channel uses own filter
        writer.write_bit(0);

        // Table assignments: channel 0 always gets table 0 (implicit).
        let mut count_tables: usize = 1;
        proof {
            assert(writer@ =~= start + seq![true, false] + assignments(1));
        }
        while count_tables < n_channels
            invariant
                writer.wf(),
                1 <= count_tables,
                count_tables <= n_channels || count_tables == 1,
                n_channels <= 0x7fff_ffff,
                start.len() + 2 + 32 * n_channels <= usize::MAX,
                writer@ == start + seq![true, false] + assignments(count_tables as nat),
            decreases n_channels - count_tables,
        {
            let n_bits: usize = log2_round_up(count_tables);
            proof {
                lemma_assignments_len(count_tables as nat);
            }
            writer.write_bits(count_tables as u32, n_bits);  // new table
            count_tables = count_tables + 1;
            proof {
                assert(writer@ =~= start + seq![true, false] + assignments(count_tables as nat));
            }
        }
        proof {
            if n_channels == 0 {
                assert(assignments(0) == assignments(1));
            }
            assert(writer@ =~= start + (seq![true] + mapped));
            lemma_assignments_len(n_channels as nat);
        }
    }

    // HalfProb: per channel
    let ghost before = writer@;
    let mut ch: usize = 0;
    proof {
        assert(writer@ =~= before + bits::run(half_prob, 0));
    }
    while ch < n_channels
        invariant
            writer.wf(),
            ch <= n_channels,
            before.len() + n_channels <= usize::MAX,
            writer@ == before + bits::run(half_prob, ch as nat),
        decreases n_channels - ch,
    {
        writer.write_bit(if half_prob { 1 } else { 0 });
        ch = ch + 1;
        proof {
            assert(writer@ =~= before + bits::run(half_prob, ch as nat));
        }
    }
    proof {
        assert(writer@ =~= start + mapping_code(n_channels as nat, share_filters, half_prob));
    }
}

/// Numbers as 32-bit numbers.
pub open spec fn widen16(coefs: Seq<i16>) -> Seq<i32> {
    coefs.map_values(|c: i16| c as i32)
}

/// Numbers as 32-bit numbers.
pub open spec fn widen8(table: Seq<u8>) -> Seq<i32> {
    table.map_values(|e: u8| e as i32)
}

/// A set of filter coefficients: the order less one, and the table.
pub open spec fn filter_code(coefs: Seq<i16>) -> Seq<bool> {
    bits::binary((coefs.len() - 1) as nat, SIZE_CODEDPREDORDER as nat) + coded_table::coded_table(
        widen16(coefs),
        TableType::Filter,
    )
}

/// A probability table: the length less one, and the table; a table of one entry ends
/// with its length.
pub open spec fn ptable_code(table: Seq<u8>) -> Seq<bool> {
    bits::binary((table.len() - 1) as nat, AC_HISBITS as nat) + (if table.len() == 1 {
        Seq::empty()
    } else {
        coded_table::coded_table(widen8(table), TableType::Ptable)
    })
}

/// The entries of a table that the frame can hold.
pub open spec fn probabilities(table: Seq<u8>) -> bool {
    &&& 1 <= table.len() <= AC_HISMAX
    &&& forall|i: int| 0 <= i < table.len() ==> 1 <= #[trigger] table[i] <= 128
}

proof fn lemma_filter_code_len(coefs: Seq<i16>)
    requires
        1 <= coefs.len() <= 128,
    ensures
        filter_code(coefs).len() <= 1160,
{
    bits::lemma_binary_len((coefs.len() - 1) as nat, SIZE_CODEDPREDORDER as nat);
    coded_table::lemma_coded_table_len(widen16(coefs), TableType::Filter);
}

proof fn lemma_ptable_code_len(table: Seq<u8>)
    requires
        probabilities(table),
    ensures
        ptable_code(table).len() <= 455,
{
    bits::lemma_binary_len((table.len() - 1) as nat, AC_HISBITS as nat);
    coded_table::lemma_coded_table_len(widen8(table), TableType::Ptable);
}

/// Write one set of filter coefficients (Rice coded if beneficial).
pub fn write_filter_coef_set(writer: &mut BitstreamWriter, coefs: &[i16])
    requires
        old(writer).wf(),
        1 <= coefs@.len() <= 128,
        old(writer)@.len() + 1160 <= usize::MAX,
    ensures
        final(writer).wf(),
        final(writer)@ == old(writer)@ + filter_code(coefs@),
{
    let pred_order: usize = coefs.len();
    proof {
        bits::lemma_binary_len((pred_order - 1) as nat, SIZE_CODEDPREDORDER as nat);
    }
    // PredOrder - 1 (7 bits)
    writer.write_bits((pred_order - 1) as u32, SIZE_CODEDPREDORDER);

    let mut coef_list: Vec<i32> = Vec::new();
    let mut i: usize = 0;
    while i < pred_order
        invariant
            i <= pred_order,
            pred_order == coefs@.len(),
            coef_list@ == widen16(coefs@.take(i as int)),
        decreases pred_order - i,
    {
        coef_list.push(coefs[i] as i32);
        i = i + 1;
        proof {
            assert(coef_list@ =~= widen16(coefs@.take(i as int)));
        }
    }
    proof {
        assert(coefs@.take(pred_order as int) =~= coefs@);
    }
    write_coded_table(writer, coef_list.as_slice(), TableType::Filter);
    proof {
        assert(writer@ =~= old(writer)@ + filter_code(coefs@));
    }
}

/// Write one probability table (Rice coded if beneficial).
///
/// Ptable entries are in [1, 128]. Stored as (value - 1) in 7 bits
/// for uncoded entries, or directly for Rice-coded entries.
pub fn write_probability_table(writer: &mut BitstreamWriter, ptable: &[u8])
    requires
        old(writer).wf(),
        probabilities(ptable@),
        old(writer)@.len() + 455 <= usize::MAX,
    ensures
        final(writer).wf(),
        final(writer)@ == old(writer)@ + ptable_code(ptable@),
{
    let ptable_len: usize = ptable.len();
    proof {
        bits::lemma_binary_len((ptable_len - 1) as nat, AC_HISBITS as nat);
    }
    // PtableLen - 1 (6 bits)
    writer.write_bits((ptable_len - 1) as u32, AC_HISBITS);

    if ptable_len == 1 {
        // Single entry defaults to 128 (0.5 probability) in decoder
        proof {
            assert(writer@ =~= old(writer)@ + ptable_code(ptable@));
        }
        return ;
    }
    let mut entry_list: Vec<i32> = Vec::new();
    let mut i: usize = 0;
    while i < ptable_len
        invariant
            i <= ptable_len,
            ptable_len == ptable@.len(),
            entry_list@ == widen8(ptable@.take(i as int)),
        decreases ptable_len - i,
    {
        entry_list.push(ptable[i] as i32);
        i = i + 1;
        proof {
            assert(entry_list@ =~= widen8(ptable@.take(i as int)));
        }
    }
    proof {
        assert(ptable@.take(ptable_len as int) =~= ptable@);
    }
    write_coded_table(writer, entry_list.as_slice(), TableType::Ptable);
    proof {
        assert(writer@ =~= old(writer)@ + ptable_code(ptable@));
    }
}

// ---------------------------------------------------------------------------
// What a frame holds
// ---------------------------------------------------------------------------

/// All that a frame is made of: the bits of each channel, the filter coefficients and
/// the probability tables, one each for all channels or one for each of them.
pub struct FramePlan {
    pub channels: Seq<Seq<bool>>,
    pub coefs: Seq<Seq<i16>>,
    pub tables: Seq<Seq<u8>>,
    pub share_filters: bool,
    pub half_prob: bool,
}

/// The predictions for the bits of a channel, each made from the bits before it.
pub open spec fn predictions(coefs: Seq<i16>, channel: Seq<bool>) -> Seq<i32> {
    Seq::new(channel.len(), |i: int| fir::predict(coefs, channel.take(i)) as i32)
}

/// Where the predictions for the bits of a channel fail.
pub open spec fn residuals(coefs: Seq<i16>, channel: Seq<bool>) -> Seq<u8> {
    Seq::new(
        channel.len(),
        |i: int|
            if fir::predicted_bit(fir::predict(coefs, channel.take(i))) != channel[i] {
                1u8
            } else {
                0u8
            },
    )
}

/// The predictions for the first `n` channels, one channel after the other.
pub open spec fn joint_predictions(coefs: Seq<i16>, channels: Seq<Seq<bool>>, n: nat) -> Seq<i32>
    decreases n,
{
    if n == 0 {
        Seq::empty()
    } else {
        joint_predictions(coefs, channels, (n - 1) as nat) + predictions(coefs, channels[n - 1])
    }
}

/// The residuals of the first `n` channels, one channel after the other.
pub open spec fn joint_residuals(coefs: Seq<i16>, channels: Seq<Seq<bool>>, n: nat) -> Seq<u8>
    decreases n,
{
    if n == 0 {
        Seq::empty()
    } else {
        joint_residuals(coefs, channels, (n - 1) as nat) + residuals(coefs, channels[n - 1])
    }
}

/// A table with no entry above one half.
pub open spec fn capped(table: Seq<u8>) -> Seq<u8> {
    table.map_values(
        |p: u8|
            if p > 128 {
                128u8
            } else {
                p
            },
    )
}

/// A table as it is stored: the entry of a table of one entry is left out, and stands for
/// even odds.
pub open spec fn stored(table: Seq<u8>) -> Seq<u8> {
    if table.len() == 1 {
        seq![128u8]
    } else {
        table
    }
}

/// The probability tables of a frame: one over all channels, or one for each.
pub open spec fn frame_tables(
    channels: Seq<Seq<bool>>,
    coefs: Seq<Seq<i16>>,
    share_filters: bool,
) -> Seq<Seq<u8>> {
    if share_filters {
        seq![
            stored(
                capped(
                    fir::ptable(
                        joint_predictions(coefs[0], channels, channels.len()),
                        joint_residuals(coefs[0], channels, channels.len()),
                        AC_HISMAX as nat,
                    ),
                ),
            ),
        ]
    } else {
        Seq::new(
            channels.len(),
            |ch: int|
                stored(
                    capped(
                        fir::ptable(
                            predictions(coefs[ch], channels[ch]),
                            residuals(coefs[ch], channels[ch]),
                            AC_HISMAX as nat,
                        ),
                    ),
                ),
        )
    }
}

/// The first `n` sets of coefficients.
pub open spec fn filters_code(coefs: Seq<Seq<i16>>, n: nat) -> Seq<bool>
    decreases n,
{
    if n == 0 {
        Seq::empty()
    } else {
        filters_code(coefs, (n - 1) as nat) + filter_code(coefs[n - 1])
    }
}

/// The first `n` probability tables.
pub open spec fn ptables_code(tables: Seq<Seq<u8>>, n: nat) -> Seq<bool>
    decreases n,
{
    if n == 0 {
        Seq::empty()
    } else {
        ptables_code(tables, (n - 1) as nat) + ptable_code(tables[n - 1])
    }
}

/// The probability of a residual: even odds for the first samples with HalfProb,
/// otherwise that of the prediction.
pub open spec fn residual_probability(
    coefs: Seq<i16>,
    table: Seq<u8>,
    half_prob: bool,
    i: int,
    prediction: int,
) -> u32 {
    if half_prob && i < coefs.len() {
        128
    } else {
        fir::lookup(table, prediction) as u32
    }
}

impl FramePlan {
    /// The filter and table of a channel.
    pub open spec fn filter_of(self, ch: int) -> int {
        if self.share_filters {
            0
        } else {
            ch
        }
    }

    /// The header of the frame, up to the coded residuals.
    pub open spec fn header(self) -> Seq<bool> {
        seq![true] + segment_code() + mapping_code(
            self.channels.len(),
            self.share_filters,
            self.half_prob,
        ) + filters_code(self.coefs, self.coefs.len()) + ptables_code(
            self.tables,
            self.tables.len(),
        ) + seq![false]
    }

    /// The residual of a channel's bit and its probability.
    pub open spec fn symbol(self, ch: int, i: int) -> (bool, u32) {
        let f = self.filter_of(ch);
        let prediction = fir::predict(self.coefs[f], self.channels[ch].take(i));
        (
            fir::predicted_bit(prediction) != self.channels[ch][i],
            residual_probability(self.coefs[f], self.tables[f], self.half_prob, i, prediction),
        )
    }

    /// What is coded: an extra symbol, then the residuals bit by bit, in turn for the
    /// channels.
    pub open spec fn symbols(self, frame_len_bits: nat) -> Seq<(bool, u32)> {
        let n = self.channels.len() as int;
        Seq::new(
            1 + self.channels.len() * frame_len_bits,
            |k: int|
                if k == 0 {
                    (false, x_probability(self.coefs[0][0]))
                } else {
                    self.symbol((k - 1) % n, (k - 1) / n)
                },
        )
    }

    /// The bits of the frame.
    pub open spec fn frame(self, frame_len_bits: nat) -> Seq<bool> {
        self.header() + arithmetic::codeword(arithmetic::encode_all(self.symbols(frame_len_bits)))
    }

    /// The sizes agree, and a frame can hold the tables.
    pub open spec fn wf(self, frame_len_bits: nat) -> bool {
        &&& self.channels.len() >= 1
        &&& self.coefs.len() == (if self.share_filters {
            1
        } else {
            self.channels.len()
        })
        &&& self.tables.len() == self.coefs.len()
        &&& forall|ch: int|
            0 <= ch < self.channels.len() ==> (#[trigger] self.channels[ch]).len()
                == frame_len_bits
        &&& forall|f: int|
            0 <= f < self.coefs.len() ==> 1 <= (#[trigger] self.coefs[f]).len() <= 128
        &&& forall|f: int| 0 <= f < self.tables.len() ==> probabilities(#[trigger] self.tables[f])
        &&& forall|f: int|
            0 <= f < self.tables.len() ==> stored(#[trigger] self.tables[f]) == self.tables[f]
    }
}

/// The channels of a frame can be told apart, and its bits can be counted.
pub open spec fn frame_fits(n_channels: nat, frame_len_bits: nat) -> bool {
    &&& n_channels <= MAX_FRAME_CHANNELS
    &&& 2000 * n_channels + 11 * (n_channels * frame_len_bits) + 64 <= usize::MAX
    &&& 256 * (n_channels * frame_len_bits) <= i64::MAX
}

/// The bits of packed channels.
pub open spec fn channel_bits(channels: Seq<&[u8]>, frame_len_bits: nat) -> Seq<Seq<bool>> {
    channels.map_values(|c: &[u8]| bits::unpack(c@).take(frame_len_bits as int))
}

/// The numbers in vectors.
pub open spec fn views16(v: Seq<Vec<i16>>) -> Seq<Seq<i16>> {
    v.map_values(|c: Vec<i16>| c@)
}

/// The numbers in vectors.
pub open spec fn views8(v: Seq<Vec<u8>>) -> Seq<Seq<u8>> {
    v.map_values(|c: Vec<u8>| c@)
}

/// The plan of a frame for given coefficients.
pub open spec fn frame_plan(
    channels: Seq<Seq<bool>>,
    coefs: Seq<Seq<i16>>,
    share_filters: bool,
    half_prob: bool,
) -> FramePlan {
    FramePlan {
        channels,
        coefs,
        tables: frame_tables(channels, coefs, share_filters),
        share_filters,
        half_prob,
    }
}

proof fn lemma_ptable_probabilities(predictions: Seq<i32>, residuals: Seq<u8>)
    ensures
        probabilities(stored(capped(fir::ptable(predictions, residuals, AC_HISMAX as nat)))),
{
    fir::lemma_used_bins(
        predictions,
        AC_HISMAX as int,
        fir::pairs(predictions, residuals),
        AC_HISMAX as nat,
    );
}

pub proof fn lemma_plan_wf(
    channels: Seq<Seq<bool>>,
    coefs: Seq<Seq<i16>>,
    share_filters: bool,
    half_prob: bool,
    frame_len_bits: nat,
)
    requires
        channels.len() >= 1,
        coefs.len() == (if share_filters {
            1
        } else {
            channels.len()
        }),
        forall|ch: int|
            0 <= ch < channels.len() ==> (#[trigger] channels[ch]).len() == frame_len_bits,
        forall|f: int| 0 <= f < coefs.len() ==> 1 <= (#[trigger] coefs[f]).len() <= 128,
    ensures
        frame_plan(channels, coefs, share_filters, half_prob).wf(frame_len_bits),
{
    let tables = frame_tables(channels, coefs, share_filters);
    assert forall|f: int| 0 <= f < tables.len() implies probabilities(#[trigger] tables[f]) by {
        if share_filters {
            lemma_ptable_probabilities(
                joint_predictions(coefs[0], channels, channels.len()),
                joint_residuals(coefs[0], channels, channels.len()),
            );
        } else {
            lemma_ptable_probabilities(
                predictions(coefs[f], channels[f]),
                residuals(coefs[f], channels[f]),
            );
        }
    }
}

/// Every probability of a frame splits every range.
proof fn lemma_symbol_probability(plan: FramePlan, frame_len_bits: nat, k: int)
    requires
        plan.wf(frame_len_bits),
        0 <= k < plan.symbols(frame_len_bits).len(),
    ensures
        1 <= plan.symbols(frame_len_bits)[k].1 <= 128,
{
    if k == 0 {
        lemma_x_probability(plan.coefs[0][0]);
    } else {
        let n = plan.channels.len() as int;
        let (ch, i) = ((k - 1) % n, (k - 1) / n);
        lemma_mod_bound(k - 1, n);
        let f = plan.filter_of(ch);
        let prediction = fir::predict(plan.coefs[f], plan.channels[ch].take(i));
        assert(probabilities(plan.tables[f]));
        let b = fir::bin(prediction, plan.tables[f].len() as int);
        lemma_bin(prediction, plan.tables[f].len() as int);
        assert(1 <= plan.tables[f][b] <= 128);
    }
}

proof fn lemma_bin(prediction: int, len: int)
    requires
        len >= 1,
    ensures
        0 <= fir::bin(prediction, len) < len,
{
}

/// What a frame codes can be coded.
pub proof fn lemma_symbols_encodable(plan: FramePlan, frame_len_bits: nat, k: nat)
    requires
        plan.wf(frame_len_bits),
        k <= plan.symbols(frame_len_bits).len(),
    ensures
        arithmetic::encodable(plan.symbols(frame_len_bits).take(k as int)),
    decreases k,
{
    let all = plan.symbols(frame_len_bits);
    let t = all.take(k as int);
    if k > 0 {
        lemma_symbols_encodable(plan, frame_len_bits, (k - 1) as nat);
        assert(t.drop_last() =~= all.take(k - 1));
        arithmetic::lemma_reachable(t.drop_last());
        lemma_symbol_probability(plan, frame_len_bits, k - 1);
        arithmetic::lemma_probabilities_split(
            arithmetic::encode_all(t.drop_last()),
            t.last().0,
            t.last().1,
        );
    }
}

// ---------------------------------------------------------------------------
// Frame encoder
// ---------------------------------------------------------------------------

/// A probability table capped at one half, as it is stored.
fn build_capped_ptable(predictions: &[i32], residuals: &[u8]) -> (table: Vec<u8>)
    requires
        256 * fir::pairs(predictions@, residuals@) <= i64::MAX,
    ensures
        table@ == stored(capped(fir::ptable(predictions@, residuals@, AC_HISMAX as nat))),
{
    let mut table: Vec<u8> = build_ptable_default(predictions, residuals);
    let ghost full = table@;
    let mut i: usize = 0;
    while i < table.len()
        invariant
            i <= table@.len(),
            table@.len() == full.len(),
            forall|k: int| 0 <= k < i ==> #[trigger] table@[k] == capped(full)[k],
            forall|k: int| i <= k < full.len() ==> #[trigger] table@[k] == full[k],
        decreases table@.len() - i,
    {
        if table[i] > 128 {
            table[i] = 128;
        }
        i = i + 1;
    }
    proof {
        assert(table@ =~= capped(full));
    }
    if table.len() == 1 {
        // A single entry is not written, and the decoder takes 128 for it
        table[0] = 128;
    }
    proof {
        assert(table@ =~= stored(capped(full)));
    }
    table
}

/// Run prediction on a channel.
fn analyse_channel(packed: &[u8], n_bits: usize, coefs: &[i16]) -> (r: (Vec<i32>, Vec<u8>))
    requires
        n_bits <= 8 * packed@.len(),
    ensures
        analysed_channel(r.0@, r.1@, coefs@, bits::unpack(packed@).take(n_bits as int)),
{
    let (p, r) = predict_and_residual(packed, n_bits, coefs);
    proof {
        let all = bits::unpack(packed@);
        let s = all.take(n_bits as int);
        assert forall|i: int| 0 <= i < n_bits implies #[trigger] p@[i] == fir::predict(
            coefs@,
            s.take(i),
        ) && r@[i] == residuals(coefs@, s)[i] by {
            assert(s.take(i) =~= all.take(i));
            assert(r@[i] == (if fir::predicted_bit(p@[i] as int) != all[i] {
                1u8
            } else {
                0u8
            }));
        }
        assert(p@ =~= predictions(coefs@, s));
        assert(r@ =~= residuals(coefs@, s));
    }
    (p, r)
}

/// What analysis finds in the channels: predictions and residuals, and the tables.
struct Analysis {
    predictions: Vec<Vec<i32>>,
    residuals: Vec<Vec<u8>>,
    ptables: Vec<Vec<u8>>,
}

/// The predictions and residuals are those of a channel.
spec fn analysed_channel(p: Seq<i32>, r: Seq<u8>, coefs: Seq<i16>, channel: Seq<bool>) -> bool {
    &&& p == predictions(coefs, channel)
    &&& r == residuals(coefs, channel)
    &&& forall|i: int|
        0 <= i < channel.len() ==> #[trigger] p[i] == fir::predict(coefs, channel.take(i))
}

/// The predictions and residuals are those of the plan's channels.
spec fn analysed(predictions: Seq<Vec<i32>>, residuals: Seq<Vec<u8>>, plan: FramePlan) -> bool {
    &&& predictions.len() <= plan.channels.len()
    &&& residuals.len() == predictions.len()
    &&& forall|ch: int|
        0 <= ch < predictions.len() ==> analysed_channel(
            (#[trigger] predictions[ch])@,
            residuals[ch]@,
            plan.coefs[plan.filter_of(ch)],
            plan.channels[ch],
        )
}

proof fn lemma_joint_lens(
    coefs: Seq<i16>,
    channels: Seq<Seq<bool>>,
    n: nat,
    frame_len_bits: nat,
)
    requires
        n <= channels.len(),
        forall|ch: int|
            0 <= ch < channels.len() ==> (#[trigger] channels[ch]).len() == frame_len_bits,
    ensures
        joint_predictions(coefs, channels, n).len() == n * frame_len_bits,
        joint_residuals(coefs, channels, n).len() == n * frame_len_bits,
    decreases n,
{
    if n > 0 {
        lemma_joint_lens(coefs, channels, (n - 1) as nat, frame_len_bits);
        assert(channels[n - 1].len() == frame_len_bits);
        assert(n * frame_len_bits == (n - 1) * frame_len_bits + frame_len_bits) by (nonlinear_arith);
    } else {
        assert(0 * frame_len_bits == 0);
    }
}

/// Run prediction on all channels and build the probability tables.
fn analyse(
    dsd_channels: &[&[u8]],
    frame_len_bits: usize,
    share_filters: bool,
    filter_coefs: &[Vec<i16>],
    Ghost(plan): Ghost<FramePlan>,
) -> (a: Analysis)
    requires
        plan.channels == channel_bits(dsd_channels@, frame_len_bits as nat),
        plan.coefs == views16(filter_coefs@),
        plan.share_filters == share_filters,
        plan.tables == frame_tables(plan.channels, plan.coefs, share_filters),
        plan.wf(frame_len_bits as nat),
        forall|ch: int|
            0 <= ch < dsd_channels@.len() ==> frame_len_bits <= 8 * (#[trigger] dsd_channels@[ch])@.len(),
        frame_fits(dsd_channels@.len(), frame_len_bits as nat),
    ensures
        analysed(a.predictions@, a.residuals@, plan),
        a.predictions@.len() == plan.channels.len(),
        views8(a.ptables@) == plan.tables,
{
    let n_channels: usize = dsd_channels.len();
    let mut predictions: Vec<Vec<i32>> = Vec::new();
    let mut residuals: Vec<Vec<u8>> = Vec::new();
    // Run prediction per channel, using shared or per-channel coefficients
    let mut ch: usize = 0;
    while ch < n_channels
        invariant
            ch <= n_channels,
            n_channels == dsd_channels@.len(),
            plan.channels == channel_bits(dsd_channels@, frame_len_bits as nat),
            plan.coefs == views16(filter_coefs@),
            plan.share_filters == share_filters,
            plan.wf(frame_len_bits as nat),
            forall|c: int|
                0 <= c < dsd_channels@.len() ==> frame_len_bits <= 8 * (
                #[trigger] dsd_channels@[c])@.len(),
            predictions@.len() == ch,
            analysed(predictions@, residuals@, plan),
        decreases n_channels - ch,
    {
        let coef_idx: usize = if share_filters { 0 } else { ch };
        proof {
            assert(plan.coefs[coef_idx as int] == filter_coefs@[coef_idx as int]@);
            assert(frame_len_bits <= 8 * dsd_channels@[ch as int]@.len());
        }
        let (p, r) = analyse_channel(
            dsd_channels[ch],
            frame_len_bits,
            filter_coefs[coef_idx].as_slice(),
        );
        proof {
            let channel = plan.channels[ch as int];
            assert(channel == bits::unpack(dsd_channels@[ch as int]@).take(frame_len_bits as int));
            assert(channel.len() == frame_len_bits);
        }
        predictions.push(p);
        residuals.push(r);
        ch = ch + 1;
    }
    proof {
        let (a, b) = (n_channels as int, frame_len_bits as int);
        assert(a * b >= b) by (nonlinear_arith)
            requires
                a >= 1,
                b >= 0,
        ;
    }

    // Build probability tables: one shared or per-channel
    let mut ptables: Vec<Vec<u8>> = Vec::new();
    if share_filters {
        // Aggregate statistics from all channels for a single shared ptable
        let mut all_preds: Vec<i32> = Vec::new();
        let mut all_res: Vec<u8> = Vec::new();
        let ghost coefs = plan.coefs[0];
        let mut ch: usize = 0;
        while ch < n_channels
            invariant
                ch <= n_channels,
                n_channels == plan.channels.len(),
                predictions@.len() == n_channels,
                analysed(predictions@, residuals@, plan),
                plan.share_filters,
                coefs == plan.coefs[0],
                all_preds@ == joint_predictions(coefs, plan.channels, ch as nat),
                all_res@ == joint_residuals(coefs, plan.channels, ch as nat),
            decreases n_channels - ch,
        {
            proof {
                assert(predictions@[ch as int]@ == self::predictions(
                    coefs,
                    plan.channels[ch as int],
                ));
            }
            all_preds.extend_from_slice(predictions[ch].as_slice());
            all_res.extend_from_slice(residuals[ch].as_slice());
            ch = ch + 1;
            proof {
                assert(all_preds@ =~= joint_predictions(coefs, plan.channels, ch as nat));
                assert(all_res@ =~= joint_residuals(coefs, plan.channels, ch as nat));
            }
        }
        proof {
            lemma_joint_lens(coefs, plan.channels, n_channels as nat, frame_len_bits as nat);
        }
        ptables.push(build_capped_ptable(all_preds.as_slice(), all_res.as_slice()));
    } else {
        let mut ch: usize = 0;
        while ch < n_channels
            invariant
                ch <= n_channels,
                n_channels == plan.channels.len(),
                predictions@.len() == n_channels,
                analysed(predictions@, residuals@, plan),
                !plan.share_filters,
                plan.tables == frame_tables(plan.channels, plan.coefs, false),
                plan.wf(frame_len_bits as nat),
                256 * frame_len_bits <= i64::MAX,
                ptables@.len() == ch,
                forall|c: int| 0 <= c < ch ==> (#[trigger] ptables@[c])@ == plan.tables[c],
            decreases n_channels - ch,
        {
            proof {
                assert(predictions@[ch as int]@ == self::predictions(
                    plan.coefs[ch as int],
                    plan.channels[ch as int],
                ));
                assert(plan.channels[ch as int].len() == frame_len_bits);
            }
            ptables.push(
                build_capped_ptable(predictions[ch].as_slice(), residuals[ch].as_slice()),
            );
            ch = ch + 1;
        }
    }
    proof {
        assert(views8(ptables@) =~= plan.tables);
    }
    Analysis { predictions, residuals, ptables }
}

proof fn lemma_filters_code_len(coefs: Seq<Seq<i16>>, n: nat)
    requires
        n <= coefs.len(),
        forall|f: int| 0 <= f < coefs.len() ==> 1 <= (#[trigger] coefs[f]).len() <= 128,
    ensures
        filters_code(coefs, n).len() <= 1160 * n,
    decreases n,
{
    if n > 0 {
        lemma_filters_code_len(coefs, (n - 1) as nat);
        assert(1 <= coefs[n - 1].len() <= 128);
        lemma_filter_code_len(coefs[n - 1]);
    }
}

proof fn lemma_ptables_code_len(tables: Seq<Seq<u8>>, n: nat)
    requires
        n <= tables.len(),
        forall|f: int| 0 <= f < tables.len() ==> probabilities(#[trigger] tables[f]),
    ensures
        ptables_code(tables, n).len() <= 455 * n,
    decreases n,
{
    if n > 0 {
        lemma_ptables_code_len(tables, (n - 1) as nat);
        assert(probabilities(tables[n - 1]));
        lemma_ptable_code_len(tables[n - 1]);
    }
}

/// Pack frame header
fn write_header(
    n_channels: usize,
    share_filters: bool,
    half_prob: bool,
    filter_coefs: &[Vec<i16>],
    ptables: &[Vec<u8>],
    Ghost(plan): Ghost<FramePlan>,
) -> (header: BitstreamWriter)
    requires
        plan.channels.len() == n_channels,
        plan.coefs == views16(filter_coefs@),
        plan.tables == views8(ptables@),
        plan.share_filters == share_filters,
        plan.half_prob == half_prob,
        exists|frame_len_bits: nat| plan.wf(frame_len_bits),
        n_channels <= MAX_FRAME_CHANNELS,
        2000 * n_channels + 64 <= usize::MAX,
    ensures
        header.wf(),
        header@ == plan.header(),
        header@.len() <= 2000 * n_channels + 16,
{
    let mut header: BitstreamWriter = BitstreamWriter::new();

    // DSTCoded = 1
    header.write_bit(1);

    // Segment data
    write_segment_data(&mut header);

    // Mapping data
    write_mapping_data(&mut header, n_channels, share_filters, half_prob);

    let ghost lead = seq![true] + segment_code() + mapping_code(
        n_channels as nat,
        share_filters,
        half_prob,
    );
    proof {
        assert(header@ =~= lead);
        lemma_assignments_len(n_channels as nat);
        assert(header@ =~= lead + filters_code(plan.coefs, 0));
    }

    // Filter coefficient sets
    let mut f: usize = 0;
    while f < filter_coefs.len()
        invariant
            header.wf(),
            f <= filter_coefs@.len(),
            filter_coefs@.len() <= n_channels,
            plan.coefs == views16(filter_coefs@),
            forall|k: int|
                0 <= k < plan.coefs.len() ==> 1 <= (#[trigger] plan.coefs[k]).len() <= 128,
            2000 * n_channels + 64 <= usize::MAX,
            lead.len() <= 6 + 32 * n_channels,
            header@ == lead + filters_code(plan.coefs, f as nat),
        decreases filter_coefs@.len() - f,
    {
        proof {
            lemma_filters_code_len(plan.coefs, f as nat);
            assert(plan.coefs[f as int] == filter_coefs@[f as int]@);
        }
        write_filter_coef_set(&mut header, filter_coefs[f].as_slice());
        f = f + 1;
        proof {
            assert(header@ =~= lead + filters_code(plan.coefs, f as nat));
        }
    }
    let ghost lead2 = header@;
    proof {
        lemma_filters_code_len(plan.coefs, plan.coefs.len());
        assert(header@ =~= lead2 + ptables_code(plan.tables, 0));
    }

    // Probability tables
    let mut t: usize = 0;
    while t < ptables.len()
        invariant
            header.wf(),
            t <= ptables@.len(),
            ptables@.len() <= n_channels,
            plan.tables == views8(ptables@),
            forall|k: int| 0 <= k < plan.tables.len() ==> probabilities(#[trigger] plan.tables[k]),
            2000 * n_channels + 64 <= usize::MAX,
            lead2.len() <= 6 + 1192 * n_channels,
            header@ == lead2 + ptables_code(plan.tables, t as nat),
        decreases ptables@.len() - t,
    {
        proof {
            lemma_ptables_code_len(plan.tables, t as nat);
            assert(plan.tables[t as int] == ptables@[t as int]@);
        }
        write_probability_table(&mut header, ptables[t].as_slice());
        t = t + 1;
        proof {
            assert(header@ =~= lead2 + ptables_code(plan.tables, t as nat));
        }
    }
    proof {
        lemma_ptables_code_len(plan.tables, plan.tables.len());
    }

    // Validation bit: must be 0
    header.write_bit(0);
    proof {
        assert(header@ =~= plan.header());
    }
    header
}

/// AC encode residuals in interleaved order
fn encode_residuals(
    frame_len_bits: usize,
    pred_order: usize,
    share_filters: bool,
    half_prob: bool,
    first_coef: i16,
    analysis: &Analysis,
    Ghost(plan): Ghost<FramePlan>,
) -> (ac_bits: Vec<u8>)
    requires
        plan.wf(frame_len_bits as nat),
        plan.share_filters == share_filters,
        plan.half_prob == half_prob,
        plan.coefs[0][0] == first_coef,
        forall|f: int| 0 <= f < plan.coefs.len() ==> (#[trigger] plan.coefs[f]).len() == pred_order,
        analysed(analysis.predictions@, analysis.residuals@, plan),
        analysis.predictions@.len() == plan.channels.len(),
        views8(analysis.ptables@) == plan.tables,
        frame_fits(plan.channels.len(), frame_len_bits as nat),
    ensures
        arithmetic::all_bits(ac_bits@),
        bits::flags(ac_bits@) == arithmetic::codeword(
            arithmetic::encode_all(plan.symbols(frame_len_bits as nat)),
        ),
        ac_bits@.len() <= 11 * (1 + plan.channels.len() * frame_len_bits) + ABITS,
{
    let n_channels: usize = analysis.predictions.len();
    let ghost symbols = plan.symbols(frame_len_bits as nat);
    let ghost n = n_channels as int;
    let ghost total = n * frame_len_bits;
    let mut ac: ACEncoder = ACEncoder::new();

    // dst_x_bit: extra dummy symbol
    let x_prob: u32 = prob_dst_x_bit(first_coef);
    proof {
        assert(0 <= total) by (nonlinear_arith)
            requires
                n >= 0,
                total == n * frame_len_bits,
        ;
        lemma_x_probability(first_coef);
        arithmetic::lemma_probabilities_split(ac@, false, x_prob);
    }
    ac.encode_bit(0, x_prob);
    proof {
        let t = symbols.take(1);
        assert(t.drop_last() =~= Seq::<(bool, u32)>::empty());
        assert(t.last() == (false, x_prob));
        assert(arithmetic::encode_all(t.drop_last()) == arithmetic::whole());
        assert(ac@ == arithmetic::encode_all(t));
    }

    let mut bit_idx: usize = 0;
    let ghost mut k: int = 0;
    while bit_idx < frame_len_bits
        invariant
            bit_idx <= frame_len_bits,
            n == n_channels,
            n_channels == plan.channels.len(),
            k == bit_idx * n,
            total == n * frame_len_bits,
            11 * total + 64 <= usize::MAX,
            symbols == plan.symbols(frame_len_bits as nat),
            plan.wf(frame_len_bits as nat),
            plan.share_filters == share_filters,
            plan.half_prob == half_prob,
            forall|f: int|
                0 <= f < plan.coefs.len() ==> (#[trigger] plan.coefs[f]).len() == pred_order,
            analysed(analysis.predictions@, analysis.residuals@, plan),
            analysis.predictions@.len() == plan.channels.len(),
            views8(analysis.ptables@) == plan.tables,
            ac.wf(),
            ac@ == arithmetic::encode_all(symbols.take(1 + k)),
            ac.carry_run() <= 11 * (1 + k),
        decreases frame_len_bits - bit_idx,
    {
        let mut ch_idx: usize = 0;
        while ch_idx < n_channels
            invariant
                bit_idx < frame_len_bits,
                ch_idx <= n_channels,
                n == n_channels,
                n_channels == plan.channels.len(),
                k == bit_idx * n + ch_idx,
                total == n * frame_len_bits,
                11 * total + 64 <= usize::MAX,
                symbols == plan.symbols(frame_len_bits as nat),
                plan.wf(frame_len_bits as nat),
                plan.share_filters == share_filters,
                plan.half_prob == half_prob,
                forall|f: int|
                    0 <= f < plan.coefs.len() ==> (#[trigger] plan.coefs[f]).len() == pred_order,
                analysed(analysis.predictions@, analysis.residuals@, plan),
                analysis.predictions@.len() == plan.channels.len(),
                views8(analysis.ptables@) == plan.tables,
                ac.wf(),
                ac@ == arithmetic::encode_all(symbols.take(1 + k)),
                ac.carry_run() <= 11 * (1 + k),
            decreases n_channels - ch_idx,
        {
            let ptable_idx: usize = if share_filters { 0 } else { ch_idx };
            proof {
                let ch = ch_idx as int;
                assert(plan.channels[ch].len() == frame_len_bits);
                assert(plan.coefs[ptable_idx as int].len() == pred_order);
                assert(probabilities(plan.tables[ptable_idx as int]));
                assert(plan.tables[ptable_idx as int] == analysis.ptables@[ptable_idx as int]@);
                assert(analysed_channel(
                    analysis.predictions@[ch]@,
                    analysis.residuals@[ch]@,
                    plan.coefs[plan.filter_of(ch)],
                    plan.channels[ch],
                ));
                assert(analysis.predictions@[ch]@[bit_idx as int] == fir::predict(
                    plan.coefs[ptable_idx as int],
                    plan.channels[ch].take(bit_idx as int),
                ));
                assert(analysis.residuals@[ch]@.len() == frame_len_bits);
                assert(bit_idx * n + ch_idx < n * frame_len_bits) by (nonlinear_arith)
                    requires
                        0 <= bit_idx < frame_len_bits,
                        0 <= ch_idx < n,
                ;
                lemma_fundamental_div_mod_converse(k, n, bit_idx as int, ch);
                assert(symbols[1 + k] == plan.symbol(ch, bit_idx as int));
                lemma_symbol_probability(plan, frame_len_bits as nat, 1 + k);
                lemma_symbols_encodable(plan, frame_len_bits as nat, (1 + k) as nat);
                arithmetic::lemma_reachable(symbols.take(1 + k));
                arithmetic::lemma_probabilities_split(ac@, symbols[1 + k].0, symbols[1 + k].1);
                let t = symbols.take(2 + k);
                assert(t.drop_last() =~= symbols.take(1 + k));
                assert(t.last() == symbols[1 + k]);
            }
            let p: u32 = if half_prob && bit_idx < pred_order {
                128
            } else {
                ptable_lookup(
                    analysis.ptables[ptable_idx].as_slice(),
                    analysis.predictions[ch_idx][bit_idx],
                ) as u32
            };
            ac.encode_bit(analysis.residuals[ch_idx][bit_idx], p);
            ch_idx = ch_idx + 1;
            proof {
                k = k + 1;
            }
        }
        bit_idx = bit_idx + 1;
        proof {
            assert(bit_idx * n == (bit_idx - 1) * n + n) by (nonlinear_arith);
        }
    }
    proof {
        assert(k == total) by (nonlinear_arith)
            requires
                k == bit_idx * n,
                total == n * frame_len_bits,
                bit_idx == frame_len_bits,
        ;
        assert(symbols.take(1 + k) =~= symbols);
        lemma_symbols_encodable(plan, frame_len_bits as nat, symbols.len());
        arithmetic::lemma_reachable(symbols);
    }
    ac.flush()
}

/// A frame whose bits can be counted fills no more bytes than can be read back.
pub proof fn lemma_frame_bytes(plan: FramePlan, frame_len_bits: nat)
    requires
        plan.wf(frame_len_bits),
        frame_fits(plan.channels.len(), frame_len_bits),
    ensures
        1 <= bits::pack(plan.frame(frame_len_bits)).len(),
        8 * bits::pack(plan.frame(frame_len_bits)).len() <= usize::MAX,
        bits::pack(plan.frame(frame_len_bits))[0] >= 128,
{
    lemma_frame_len(plan, frame_len_bits);
    lemma_packed_size(plan.frame(frame_len_bits));
}

/// Packed bits fill the bytes they need, and the first bit is that of the first byte.
proof fn lemma_packed_size(s: Seq<bool>)
    requires
        s.len() > 0,
        s[0],
    ensures
        1 <= bits::pack(s).len(),
        8 * bits::pack(s).len() <= s.len() + 7,
        bits::pack(s)[0] >= 128,
{
    let first = bits::window(s, 0, 8);
    bits::lemma_first_bit(first);
}

/// How many bits a frame has at most, and that the first is set.
proof fn lemma_frame_len(plan: FramePlan, frame_len_bits: nat)
    requires
        plan.wf(frame_len_bits),
        plan.channels.len() <= MAX_FRAME_CHANNELS,
    ensures
        ({
            let n = plan.channels.len();
            plan.frame(frame_len_bits).len() <= 2000 * n + 11 * (n * frame_len_bits) + 50
        }),
        plan.frame(frame_len_bits).len() > 0,
        plan.frame(frame_len_bits)[0],
{
    let symbols = plan.symbols(frame_len_bits);
    lemma_assignments_len(plan.channels.len());
    lemma_filters_code_len(plan.coefs, plan.coefs.len());
    lemma_ptables_code_len(plan.tables, plan.tables.len());
    lemma_symbols_encodable(plan, frame_len_bits, symbols.len());
    assert(symbols.take(symbols.len() as int) =~= symbols);
    arithmetic::lemma_reachable(symbols);
    let end = arithmetic::encode_all(symbols);
    bits::lemma_binary_len(end.low, end.shifts + ABITS as nat);
}

/// Encode a single DST frame from multi-channel packed DSD bytes.
///
/// Each element of `dsd_channels` is packed MSB-first DSD data.
/// `frame_len_bits` is the number of valid bits per channel.
/// `share_filters`: when true, one filter is shared across all channels.
/// `half_prob`: when true, use p=128 for the first `pred_order` samples per channel.
/// `filter_coefs`: the quantized coefficients, one set when they are shared, otherwise
/// one per channel.
/// Returns frame data as bytes, always DST coded (DSTCoded=1).
pub fn encode_dst_frame(
    dsd_channels: &[&[u8]],
    frame_len_bits: usize,
    pred_order: usize,
    share_filters: bool,
    half_prob: bool,
    filter_coefs: &[Vec<i16>],
) -> (r: Result<Vec<u8>>)
    requires
        dsd_channels@.len() >= 1,
        forall|ch: int|
            0 <= ch < dsd_channels@.len() ==> frame_len_bits <= 8 * (
            #[trigger] dsd_channels@[ch])@.len(),
        1 <= pred_order <= 128,
        filter_coefs@.len() == (if share_filters {
            1
        } else {
            dsd_channels@.len()
        }),
        forall|f: int|
            0 <= f < filter_coefs@.len() ==> (#[trigger] filter_coefs@[f])@.len() == pred_order,
        frame_fits(dsd_channels@.len(), frame_len_bits as nat),
    ensures
        r is Ok,
        r->Ok_0@ == bits::pack(
            frame_plan(
                channel_bits(dsd_channels@, frame_len_bits as nat),
                views16(filter_coefs@),
                share_filters,
                half_prob,
            ).frame(frame_len_bits as nat),
        ),
{
    let n_channels: usize = dsd_channels.len();
    let ghost channels = channel_bits(dsd_channels@, frame_len_bits as nat);
    let ghost plan = frame_plan(channels, views16(filter_coefs@), share_filters, half_prob);
    proof {
        assert forall|ch: int| 0 <= ch < channels.len() implies (#[trigger] channels[ch]).len()
            == frame_len_bits by {
            assert(frame_len_bits <= 8 * dsd_channels@[ch]@.len());
        }
        assert forall|f: int| 0 <= f < plan.coefs.len() implies (#[trigger] plan.coefs[f]).len()
            == pred_order by {
            assert(filter_coefs@[f]@.len() == pred_order);
        }
        lemma_plan_wf(
            channels,
            views16(filter_coefs@),
            share_filters,
            half_prob,
            frame_len_bits as nat,
        );
    }
    let analysis: Analysis = analyse(
        dsd_channels,
        frame_len_bits,
        share_filters,
        filter_coefs,
        Ghost(plan),
    );
    let mut header: BitstreamWriter = write_header(
        n_channels,
        share_filters,
        half_prob,
        filter_coefs,
        analysis.ptables.as_slice(),
        Ghost(plan),
    );
    let ac_bits: Vec<u8> = encode_residuals(
        frame_len_bits,
        pred_order,
        share_filters,
        half_prob,
        filter_coefs[0][0],
        &analysis,
        Ghost(plan),
    );

    // Combine header + AC data
    header.write_bit_slice(ac_bits.as_slice());
    proof {
        assert(ac_bits@.map_values(|b: u8| b % 2 == 1) =~= bits::flags(ac_bits@));
        assert(header@ =~= plan.frame(frame_len_bits as nat));
    }
    Ok(header.get_bytes())
}

/// The bytes of channels, byte by byte in turn.
pub open spec fn interleaved(channels: Seq<Seq<u8>>, n_bytes: nat) -> Seq<u8> {
    Seq::new(
        channels.len() * n_bytes,
        |k: int| channels[k % channels.len() as int][k / channels.len() as int],
    )
}

/// The bytes in slices.
pub open spec fn slices(v: Seq<&[u8]>) -> Seq<Seq<u8>> {
    v.map_values(|c: &[u8]| c@)
}

/// Encode a raw (uncompressed) DSD frame (DSTCoded=0).
///
/// `dsd_channels` contains packed MSB-first DSD bytes per channel.
/// Data is written as interleaved channel bytes, as DSDIFF has them.
///
/// NOTE: Not used by the encoder, which always emits DST-coded frames.
pub fn encode_raw_frame(dsd_channels: &[&[u8]], frame_len_bits: usize) -> (r: Vec<u8>)
    requires
        forall|ch: int|
            0 <= ch < dsd_channels@.len() ==> frame_len_bits as int / 8 <= (
            #[trigger] dsd_channels@[ch])@.len(),
        8 + 8 * (dsd_channels@.len() * (frame_len_bits as int / 8)) <= usize::MAX,
    ensures
        r@ == seq![0u8] + interleaved(
            slices(dsd_channels@),
            (frame_len_bits as int / 8) as nat,
        ),
{
    let mut writer: BitstreamWriter = BitstreamWriter::new();
    // DSTCoded = 0
    writer.write_bit(0);
    // DstXbits = 0
    writer.write_bit(0);
    proof {
        bits::lemma_binary_len(0, 6);
    }
    // Stuffing = 0 (6 bits)
    writer.write_bits(0, 6);

    // Raw DSD data: for each byte position, write all channels
    let frame_len_bytes: usize = frame_len_bits / RESOL;
    let n_channels: usize = dsd_channels.len();
    let ghost n = n_channels as int;
    let ghost total = n * frame_len_bytes;
    let ghost all = seq![0u8] + interleaved(slices(dsd_channels@), frame_len_bytes as nat);
    proof {
        lemma_zero_byte();
        assert(all.take(1) =~= seq![0u8]);
        assert(writer@ =~= bits::unpack(all.take(1)));
        assert(total >= 0) by (nonlinear_arith)
            requires
                n >= 0,
                total == n * frame_len_bytes,
        ;
    }
    let mut byte_idx: usize = 0;
    let ghost mut k: int = 0;
    assert(0 * n == 0);
    while byte_idx < frame_len_bytes
        invariant
            byte_idx <= frame_len_bytes,
            frame_len_bytes == frame_len_bits as int / 8,
            n == n_channels,
            n_channels == dsd_channels@.len(),
            forall|ch: int|
                0 <= ch < dsd_channels@.len() ==> frame_len_bytes <= (
                #[trigger] dsd_channels@[ch])@.len(),
            total == n * frame_len_bytes,
            8 + 8 * total <= usize::MAX,
            k == byte_idx * n,
            all == seq![0u8] + interleaved(slices(dsd_channels@), frame_len_bytes as nat),
            writer.wf(),
            writer@ == bits::unpack(all.take(1 + k)),
            writer@.len() == 8 + 8 * k,
        decreases frame_len_bytes - byte_idx,
    {
        let mut ch_idx: usize = 0;
        while ch_idx < n_channels
            invariant
                byte_idx < frame_len_bytes,
                ch_idx <= n_channels,
                n == n_channels,
                n_channels == dsd_channels@.len(),
                forall|ch: int|
                    0 <= ch < dsd_channels@.len() ==> frame_len_bytes <= (
                    #[trigger] dsd_channels@[ch])@.len(),
                total == n * frame_len_bytes,
                8 + 8 * total <= usize::MAX,
                k == byte_idx * n + ch_idx,
                all == seq![0u8] + interleaved(slices(dsd_channels@), frame_len_bytes as nat),
                writer.wf(),
                writer@ == bits::unpack(all.take(1 + k)),
                writer@.len() == 8 + 8 * k,
            decreases n_channels - ch_idx,
        {
            proof {
                assert(byte_idx * n + ch_idx < n * frame_len_bytes) by (nonlinear_arith)
                    requires
                        0 <= byte_idx < frame_len_bytes,
                        0 <= ch_idx < n,
                ;
                lemma_fundamental_div_mod_converse(k, n, byte_idx as int, ch_idx as int);
                assert(frame_len_bytes <= dsd_channels@[ch_idx as int]@.len());
            }
            let byte: u8 = dsd_channels[ch_idx][byte_idx];
            writer.write_bits(byte as u32, RESOL);
            proof {
                assert(all[1 + k] == byte);
                assert(all.take(2 + k) =~= all.take(1 + k).push(byte));
                bits::lemma_unpack_push(all.take(1 + k), byte);
                bits::lemma_binary_len(byte as nat, 8);
                k = k + 1;
            }
            ch_idx = ch_idx + 1;
        }
        byte_idx = byte_idx + 1;
        proof {
            assert(byte_idx * n == (byte_idx - 1) * n + n) by (nonlinear_arith);
        }
    }
    proof {
        assert(k == total) by (nonlinear_arith)
            requires
                k == byte_idx * n,
                total == n * frame_len_bytes,
                byte_idx == frame_len_bytes,
        ;
        assert(all.take(1 + k) =~= all);
        bits::lemma_pack_unpack(all);
    }
    writer.get_bytes()
}

proof fn lemma_zero_byte()
    ensures
        bits::unpack(seq![0u8]) == seq![false, false] + bits::binary(0, 6),
{
    bits::lemma_binary_len(0, 6);
    bits::lemma_binary_len(0, 8);
    let got = bits::unpack(seq![0u8]);
    let want = seq![false, false] + bits::binary(0, 6);
    assert forall|i: int| 0 <= i < 8 implies got[i] == want[i] by {
        bits::lemma_binary_index(0, 8, i);
        lemma_pow2_pos((7 - i) as nat);
        lemma_div_of0(pow2((7 - i) as nat) as int);
        if i >= 2 {
            bits::lemma_binary_index(0, 6, i - 2);
        }
    }
    assert(got =~= want);
}

// ---------------------------------------------------------------------------
// Reading a frame
// ---------------------------------------------------------------------------

/// What comes of decoding a frame: the bytes of each channel, a message why the frame
/// is refused, or nothing, where the frame holds no table or symbol to go on with.
pub enum Decoded {
    Channels(Seq<Seq<u8>>),
    Refused(Seq<char>),
    Stuck,
}

/// The bit at a position, zero behind the last one.
pub open spec fn bit_at(s: Seq<bool>, pos: nat) -> bool {
    bits::window(s, pos as int, 1)[0]
}

/// The number in the next `n` bits.
pub open spec fn number_at(s: Seq<bool>, pos: nat, n: nat) -> nat {
    bits::value(bits::window(s, pos as int, n))
}

/// The position `n` bits further on.
pub open spec fn skip(s: Seq<bool>, pos: nat, n: nat) -> nat {
    bits::advance(s.len(), pos, n)
}

/// The tables of all channels, given those of the first ones and the number of
/// different tables so far, and the position behind them.
pub open spec fn assignments_at(
    s: Seq<bool>,
    pos: nat,
    n_channels: nat,
    map: Seq<nat>,
    count: nat,
) -> (Seq<nat>, nat)
    decreases n_channels - map.len(),
{
    if map.len() >= n_channels {
        (map, pos)
    } else {
        let table = number_at(s, pos, bit_len(count));
        assignments_at(
            s,
            skip(s, pos, bit_len(count)),
            n_channels,
            map.push(table),
            if table == count {
                count + 1
            } else {
                count
            },
        )
    }
}

/// The tables of the channels at a position, and the position behind them.
pub open spec fn map_at(s: Seq<bool>, pos: nat, n_channels: nat) -> (Seq<nat>, nat) {
    if bit_at(s, pos) {
        (Seq::new(n_channels, |ch: int| 0nat), skip(s, pos, 1))
    } else {
        assignments_at(s, skip(s, pos, 1), n_channels, seq![0nat], 1)
    }
}

/// One more than the largest table number.
pub open spec fn table_total(map: Seq<nat>) -> nat
    decreases map.len(),
{
    if map.len() == 0 {
        1
    } else {
        let before = table_total(map.drop_last());
        if map.last() + 1 > before {
            map.last() + 1
        } else {
            before
        }
    }
}

/// What 16-bit numbers keep of 32-bit ones.
pub open spec fn narrow16(data: Seq<i32>) -> Seq<i16> {
    data.map_values(|c: i32| fir::wrap16(c as int) as i16)
}

/// What bytes keep of 32-bit numbers.
pub open spec fn narrow8(data: Seq<i32>) -> Seq<u8> {
    data.map_values(|e: i32| (e as int % 256) as u8)
}

/// The set of filter coefficients at a position, and the position behind it.
pub open spec fn filter_at(s: Seq<bool>, pos: nat) -> Option<(Seq<i16>, nat)> {
    match coded_table::coded_table_at(
        s,
        skip(s, pos, 7),
        TableType::Filter,
        number_at(s, pos, 7) + 1,
    ) {
        Some((data, next)) => Some((narrow16(data), next)),
        None => None,
    }
}

/// The probability table at a position, and the position behind it. A table of one
/// entry holds even odds.
pub open spec fn ptable_at(s: Seq<bool>, pos: nat) -> Option<(Seq<u8>, nat)> {
    if number_at(s, pos, 6) == 0 {
        Some((seq![128u8], skip(s, pos, 6)))
    } else {
        match coded_table::coded_table_at(
            s,
            skip(s, pos, 6),
            TableType::Ptable,
            number_at(s, pos, 6) + 1,
        ) {
            Some((data, next)) => Some((narrow8(data), next)),
            None => None,
        }
    }
}

/// The next `n` sets of coefficients.
pub open spec fn filters_at(s: Seq<bool>, pos: nat, n: nat) -> Option<(Seq<Seq<i16>>, nat)>
    decreases n,
{
    if n == 0 {
        Some((Seq::empty(), pos))
    } else {
        match filters_at(s, pos, (n - 1) as nat) {
            Some((filters, at)) => match filter_at(s, at) {
                Some((filter, next)) => Some((filters.push(filter), next)),
                None => None,
            },
            None => None,
        }
    }
}

/// The next `n` probability tables.
pub open spec fn ptables_at(s: Seq<bool>, pos: nat, n: nat) -> Option<(Seq<Seq<u8>>, nat)>
    decreases n,
{
    if n == 0 {
        Some((Seq::empty(), pos))
    } else {
        match ptables_at(s, pos, (n - 1) as nat) {
            Some((tables, at)) => match ptable_at(s, at) {
                Some((table, next)) => Some((tables.push(table), next)),
                None => None,
            },
            None => None,
        }
    }
}

/// All that the residuals of a frame are decoded with.
pub struct Setup {
    pub filters: Seq<Seq<i16>>,
    pub tables: Seq<Seq<u8>>,
    /// The filter and table of each channel.
    pub map: Seq<nat>,
    /// Whether the first samples of a channel are coded with even odds.
    pub half: Seq<bool>,
}

/// The decoder between two symbols: its state and the bits of each channel so far.
pub struct Unfolding {
    pub ac: arithmetic::Decoding,
    pub channels: Seq<Seq<bool>>,
}

impl Setup {
    /// The probability of the next residual of a channel.
    pub open spec fn probability(self, ch: int, history: Seq<bool>) -> u32 {
        let coefs = self.filters[self.map[ch] as int];
        residual_probability(
            coefs,
            self.tables[self.map[ch] as int],
            self.half[ch],
            history.len() as int,
            fir::predict(coefs, history),
        )
    }

    /// The decoder after the next bit of a channel, if its probability leaves room.
    pub open spec fn step(self, coded: Seq<bool>, u: Unfolding, ch: int) -> Option<Unfolding> {
        let history = u.channels[ch];
        let p = self.probability(ch, history);
        if arithmetic::decoded_range(u.ac, p) == 0 {
            None
        } else {
            let prediction = fir::predict(self.filters[self.map[ch] as int], history);
            let bit = arithmetic::decoded_bit(u.ac, p) != fir::predicted_bit(prediction);
            Some(
                Unfolding {
                    ac: arithmetic::decode_step(coded, u.ac, p),
                    channels: u.channels.update(ch, history.push(bit)),
                },
            )
        }
    }

    /// The decoder after the extra symbol and `k` residuals, taken in turn for the
    /// channels.
    pub open spec fn unfold(self, coded: Seq<bool>, pos: nat, k: nat) -> Option<Unfolding>
        decreases k,
    {
        if k == 0 {
            let start = arithmetic::decode_start(coded, pos);
            let p = x_probability(self.filters[0][0]);
            if arithmetic::decoded_range(start, p) == 0 {
                None
            } else {
                Some(
                    Unfolding {
                        ac: arithmetic::decode_step(coded, start, p),
                        channels: Seq::new(self.map.len(), |ch: int| Seq::empty()),
                    },
                )
            }
        } else {
            match self.unfold(coded, pos, (k - 1) as nat) {
                Some(u) => self.step(coded, u, (k - 1) % self.map.len() as int),
                None => None,
            }
        }
    }
}

/// The bytes of the channels of a frame that is not DST coded.
pub open spec fn raw_channels(s: Seq<bool>, n_channels: nat, n_bytes: nat) -> Seq<Seq<u8>> {
    Seq::new(
        n_channels,
        |ch: int|
            Seq::new(
                n_bytes,
                |b: int| bits::value(bits::window(s, 8 + 8 * (b * n_channels + ch), 8)) as u8,
            ),
    )
}

/// The channels that a setup and the coded residuals at a position give.
pub open spec fn unfolded(s: Seq<bool>, pos: nat, setup: Setup, frame_len_bits: nat) -> Decoded {
    if setup.half.len() < setup.map.len() {
        Decoded::Stuck
    } else {
        match setup.unfold(s, pos, setup.map.len() * frame_len_bits) {
            Some(u) => Decoded::Channels(u.channels.map_values(|c: Seq<bool>| bits::pack(c))),
            None => Decoded::Stuck,
        }
    }
}

/// What comes of the tables at a position and the coded residuals behind them.
pub open spec fn tables_decoded(
    s: Seq<bool>,
    pos: nat,
    map: Seq<nat>,
    half: Seq<bool>,
    frame_len_bits: nat,
) -> Decoded {
    match filters_at(s, pos, table_total(map)) {
        Some((filters, at)) => match ptables_at(s, at, table_total(map)) {
            Some((tables, end)) => if bit_at(s, end) {
                Decoded::Refused("validation bit must be 0"@)
            } else {
                unfolded(s, skip(s, end, 1), Setup { filters, tables, map, half }, frame_len_bits)
            },
            None => Decoded::Stuck,
        },
        None => Decoded::Stuck,
    }
}

/// The largest number of channels whose filters and tables can be told apart.
pub const MAX_FRAME_CHANNELS: usize = 0x7fff_ffff;

/// What comes of decoding the bits of a frame.
pub open spec fn decoded(s: Seq<bool>, n_channels: nat, frame_len_bits: nat) -> Decoded {
    let p1 = skip(s, 0, 1);
    let p2 = skip(s, p1, 1);
    let p3 = skip(s, p2, 1);
    let p4 = skip(s, p3, 1);
    let p5 = skip(s, p4, 1);
    if !bit_at(s, 0) {
        Decoded::Channels(raw_channels(s, n_channels, (frame_len_bits + 7) as nat / 8))
    } else if !bit_at(s, p1) {
        Decoded::Refused("only PSameSegAsF=1 supported"@)
    } else if !bit_at(s, p2) {
        Decoded::Refused("only SameSegAllCh=1 supported"@)
    } else if !bit_at(s, p3) {
        Decoded::Refused("only 1 segment supported"@)
    } else if !bit_at(s, p4) {
        Decoded::Refused("only PSameMapAsF=1 supported"@)
    } else if n_channels > MAX_FRAME_CHANNELS {
        Decoded::Stuck
    } else {
        let (map, at) = map_at(s, p5, n_channels);
        let half = bits::window(s, at as int, n_channels);
        tables_decoded(s, skip(s, at, n_channels), map, half, frame_len_bits)
    }
}

/// What comes of decoding the bytes of a frame: nothing where the bits are too many to count.
pub open spec fn frame_decoded(data: Seq<u8>, n_channels: nat, frame_len_bits: nat) -> Decoded {
    if 8 * data.len() > usize::MAX {
        Decoded::Stuck
    } else {
        decoded(bits::unpack(data), n_channels, frame_len_bits)
    }
}

/// A result is what comes of decoding.
pub open spec fn delivers(r: Option<Result<Vec<Vec<u8>>>>, d: Decoded) -> bool {
    match d {
        Decoded::Channels(channels) => r matches Some(Ok(v)) && views8(v@) == channels,
        Decoded::Refused(message) => r matches Some(Err(CladstError::Codec(m))) && m@ == message,
        Decoded::Stuck => r is None,
    }
}

/// Read simplified segment data.
fn read_segment_data(reader: &mut BitstreamReader) -> (r: Result<usize>)
    requires
        old(reader).wf(),
    ensures
        final(reader).wf(),
        final(reader).source() == old(reader).source(),
        ({
            let s = old(reader).source();
            let p1 = old(reader)@;
            let p2 = skip(s, p1, 1);
            let p3 = skip(s, p2, 1);
            if !bit_at(s, p1) {
                r matches Err(CladstError::Codec(m)) && m@ == "only PSameSegAsF=1 supported"@
            } else if !bit_at(s, p2) {
                r matches Err(CladstError::Codec(m)) && m@ == "only SameSegAllCh=1 supported"@
            } else if !bit_at(s, p3) {
                r matches Err(CladstError::Codec(m)) && m@ == "only 1 segment supported"@
            } else {
                r matches Ok(n) && n == 1 && final(reader)@ == skip(s, p3, 1)
            }
        }),
{
    let p_same_seg_as_f: u8 = reader.read_bit();
    if p_same_seg_as_f != 1 {
        return Err(CladstError::Codec("only PSameSegAsF=1 supported".to_owned()));
    }
    let same_seg_all_ch: u8 = reader.read_bit();
    if same_seg_all_ch != 1 {
        return Err(CladstError::Codec("only SameSegAllCh=1 supported".to_owned()));
    }
    let end_of_channel: u8 = reader.read_bit();
    if end_of_channel != 1 {
        return Err(CladstError::Codec("only 1 segment supported".to_owned()));
    }
    Ok(1)  // NrOfSegments = 1
}

/// The numbers in a vector.
pub open spec fn naturals(v: Seq<usize>) -> Seq<nat> {
    v.map_values(|x: usize| x as nat)
}

/// Read mapping data for per-channel filters.
///
/// Returns (half_prob, table_map).
pub fn read_mapping_data(reader: &mut BitstreamReader, n_channels: usize) -> (r: Result<
    (Vec<u8>, Vec<usize>),
>)
    requires
        old(reader).wf(),
        n_channels <= MAX_FRAME_CHANNELS,
    ensures
        final(reader).wf(),
        final(reader).source() == old(reader).source(),
        ({
            let s = old(reader).source();
            let (map, at) = map_at(s, skip(s, old(reader)@, 1), n_channels as nat);
            if !bit_at(s, old(reader)@) {
                r matches Err(CladstError::Codec(m)) && m@ == "only PSameMapAsF=1 supported"@
            } else {
                &&& r is Ok
                &&& bits::flags(r->Ok_0.0@) == bits::window(s, at as int, n_channels as nat)
                &&& arithmetic::all_bits(r->Ok_0.0@)
                &&& naturals(r->Ok_0.1@) == map
                &&& forall|i: int| 0 <= i < map.len() ==> #[trigger] map[i] <= 0x7fff_ffff
                &&& final(reader)@ == skip(s, at, n_channels as nat)
            }
        }),
{
    let ghost s = reader.source();
    let p_same_map_as_f: u8 = reader.read_bit();
    if p_same_map_as_f != 1 {
        return Err(CladstError::Codec("only PSameMapAsF=1 supported".to_owned()));
    }
    let ghost start = reader@;
    let ghost want = map_at(s, start, n_channels as nat);
    let same_map_all_ch: u8 = reader.read_bit();

    let mut table_map: Vec<usize> = vec![0];  // channel 0 always maps to table 0
    let mut count_tables: usize = 1;

    if same_map_all_ch == 1 {
        table_map = vec![0; n_channels];
        proof {
            assert(naturals(table_map@) =~= want.0);
        }
    } else {
        proof {
            assert(naturals(table_map@) =~= seq![0nat]);
        }
        while table_map.len() < n_channels
            invariant
                reader.wf(),
                reader.source() == s,
                n_channels <= 0x7fff_ffff,
                1 <= count_tables <= table_map@.len(),
                table_map@.len() <= n_channels || table_map@.len() == 1,
                want == assignments_at(
                    s,
                    reader@,
                    n_channels as nat,
                    naturals(table_map@),
                    count_tables as nat,
                ),
                forall|i: int| 0 <= i < table_map@.len() ==> #[trigger] table_map@[i] <= 0x7fff_ffff,
            decreases n_channels - table_map@.len(),
        {
            let n_bits: usize = log2_round_up(count_tables);
            let ghost before = naturals(table_map@);
            let table_nr: usize = reader.read_bits(n_bits) as usize;
            proof {
                lemma2_to64();
                if n_bits < 31 {
                    lemma_pow2_strictly_increases(n_bits as nat, 31);
                }
            }
            if table_nr == count_tables {
                count_tables = count_tables + 1;
            }
            table_map.push(table_nr);
            proof {
                assert(naturals(table_map@) =~= before.push(table_nr as nat));
            }
        }
    }
    proof {
        assert(want == (naturals(table_map@), reader@));
        assert forall|i: int| 0 <= i < want.0.len() implies #[trigger] want.0[i] <= 0x7fff_ffff by {
            assert(want.0[i] == table_map@[i]);
        }
    }

    // HalfProb: per channel
    let ghost at = reader@;
    let mut half_prob: Vec<u8> = Vec::new();
    let mut ch: usize = 0;
    proof {
        assert(bits::flags(half_prob@) =~= bits::window(s, at as int, 0));
    }
    while ch < n_channels
        invariant
            reader.wf(),
            reader.source() == s,
            ch <= n_channels,
            half_prob@.len() == ch,
            arithmetic::all_bits(half_prob@),
            reader@ == skip(s, at, ch as nat),
            bits::flags(half_prob@) == bits::window(s, at as int, ch as nat),
        decreases n_channels - ch,
    {
        proof {
            bits::lemma_advance(s, at, ch as nat, 1);
            bits::lemma_window_push(s, at as int, ch as nat);
        }
        let ghost before = half_prob@;
        let bit: u8 = reader.read_bit();
        half_prob.push(bit);
        ch = ch + 1;
        proof {
            assert(bits::flags(half_prob@) =~= bits::flags(before).push(bit == 1));
            assert(bits::window(s, (at + ch - 1) as int, 1)[0] == (bit == 1));
            assert(bits::flags(half_prob@) =~= bits::window(s, at as int, ch as nat));
        }
    }
    Ok((half_prob, table_map))
}

/// Read one set of filter coefficients, or nothing where there is none.
pub fn read_filter_coef_set(reader: &mut BitstreamReader) -> (r: Option<Vec<i16>>)
    requires
        old(reader).wf(),
    ensures
        final(reader).wf(),
        final(reader).source() == old(reader).source(),
        match filter_at(old(reader).source(), old(reader)@) {
            Some((filter, next)) => r is Some && r->0@ == filter && final(reader)@ == next,
            None => r is None,
        },
{
    let pred_order: usize = reader.read_bits(SIZE_CODEDPREDORDER) as usize;
    proof {
        lemma2_to64();
    }
    let data: Vec<i32> = match read_coded_table(reader, pred_order + 1, TableType::Filter) {
        Some(data) => data,
        None => {
            return None;
        },
    };
    let mut coefs: Vec<i16> = Vec::new();
    let mut i: usize = 0;
    while i < data.len()
        invariant
            i <= data@.len(),
            coefs@ == narrow16(data@.take(i as int)),
        decreases data@.len() - i,
    {
        coefs.push(truncate16(data[i]));
        i = i + 1;
        proof {
            assert(coefs@ =~= narrow16(data@.take(i as int)));
        }
    }
    proof {
        assert(data@.take(i as int) =~= data@);
    }
    Some(coefs)
}

/// What a byte keeps of a number.
fn truncate8(x: i32) -> (r: u8)
    ensures
        r == x as int % 256,
{
    proof {
        let up = (x + 0x8000_0000) as u32;
        assert(x as u8 == up % 256) by (bit_vector)
            requires
                up == x + 0x8000_0000,
        ;
        lemma_mod_multiples_vanish(0x80_0000, x as int, 256);
    }
    x as u8
}

/// Read one probability table, or nothing where there is none.
pub fn read_probability_table(reader: &mut BitstreamReader) -> (r: Option<Vec<u8>>)
    requires
        old(reader).wf(),
    ensures
        final(reader).wf(),
        final(reader).source() == old(reader).source(),
        match ptable_at(old(reader).source(), old(reader)@) {
            Some((table, next)) => r is Some && r->0@ == table && final(reader)@ == next,
            None => r is None,
        },
{
    let more: usize = reader.read_bits(AC_HISBITS) as usize;
    proof {
        lemma2_to64();
    }
    if more == 0 {
        let table: Vec<u8> = vec![128];
        proof {
            assert(table@ =~= seq![128u8]);
        }
        return Some(table);
    }
    let data: Vec<i32> = match read_coded_table(reader, more + 1, TableType::Ptable) {
        Some(data) => data,
        None => {
            return None;
        },
    };
    let mut table: Vec<u8> = Vec::new();
    let mut i: usize = 0;
    while i < data.len()
        invariant
            i <= data@.len(),
            table@ == narrow8(data@.take(i as int)),
        decreases data@.len() - i,
    {
        table.push(truncate8(data[i]));
        i = i + 1;
        proof {
            assert(table@ =~= narrow8(data@.take(i as int)));
        }
    }
    proof {
        assert(data@.take(i as int) =~= data@);
    }
    Some(table)
}

proof fn lemma_filters_stuck(s: Seq<bool>, pos: nat, n: nat, total: nat)
    requires
        n <= total,
        filters_at(s, pos, n) is None,
    ensures
        filters_at(s, pos, total) is None,
    decreases total,
{
    if n < total {
        lemma_filters_stuck(s, pos, n, (total - 1) as nat);
    }
}

proof fn lemma_ptables_stuck(s: Seq<bool>, pos: nat, n: nat, total: nat)
    requires
        n <= total,
        ptables_at(s, pos, n) is None,
    ensures
        ptables_at(s, pos, total) is None,
    decreases total,
{
    if n < total {
        lemma_ptables_stuck(s, pos, n, (total - 1) as nat);
    }
}

/// Read all sets of filter coefficients.
fn read_filters(reader: &mut BitstreamReader, n_filters: usize) -> (r: Option<Vec<Vec<i16>>>)
    requires
        old(reader).wf(),
    ensures
        final(reader).wf(),
        final(reader).source() == old(reader).source(),
        match filters_at(old(reader).source(), old(reader)@, n_filters as nat) {
            Some((filters, next)) => r is Some && views16(r->0@) == filters && final(reader)@
                == next,
            None => r is None,
        },
{
    let ghost s = reader.source();
    let ghost start = reader@;
    let mut filters: Vec<Vec<i16>> = Vec::new();
    let mut i: usize = 0;
    proof {
        assert(views16(filters@) =~= Seq::<Seq<i16>>::empty());
    }
    while i < n_filters
        invariant
            reader.wf(),
            reader.source() == s,
            i <= n_filters,
            s == old(reader).source(),
            start == old(reader)@,
            filters_at(s, start, i as nat) == Some((views16(filters@), reader@)),
        decreases n_filters - i,
    {
        let ghost before = views16(filters@);
        match read_filter_coef_set(reader) {
            Some(filter) => {
                let ghost f = filter@;
                filters.push(filter);
                proof {
                    assert(views16(filters@) =~= before.push(f));
                }
            },
            None => {
                proof {
                    assert(filters_at(s, start, (i + 1) as nat) is None);
                    lemma_filters_stuck(s, start, (i + 1) as nat, n_filters as nat);
                }
                return None;
            },
        }
        i = i + 1;
    }
    Some(filters)
}

/// Read all probability tables.
fn read_ptables(reader: &mut BitstreamReader, n_tables: usize) -> (r: Option<Vec<Vec<u8>>>)
    requires
        old(reader).wf(),
    ensures
        final(reader).wf(),
        final(reader).source() == old(reader).source(),
        match ptables_at(old(reader).source(), old(reader)@, n_tables as nat) {
            Some((tables, next)) => r is Some && views8(r->0@) == tables && final(reader)@ == next,
            None => r is None,
        },
{
    let ghost s = reader.source();
    let ghost start = reader@;
    let mut tables: Vec<Vec<u8>> = Vec::new();
    let mut i: usize = 0;
    proof {
        assert(views8(tables@) =~= Seq::<Seq<u8>>::empty());
    }
    while i < n_tables
        invariant
            reader.wf(),
            reader.source() == s,
            i <= n_tables,
            s == old(reader).source(),
            start == old(reader)@,
            ptables_at(s, start, i as nat) == Some((views8(tables@), reader@)),
        decreases n_tables - i,
    {
        let ghost before = views8(tables@);
        match read_probability_table(reader) {
            Some(table) => {
                let ghost t = table@;
                tables.push(table);
                proof {
                    assert(views8(tables@) =~= before.push(t));
                }
            },
            None => {
                proof {
                    assert(ptables_at(s, start, (i + 1) as nat) is None);
                    lemma_ptables_stuck(s, start, (i + 1) as nat, n_tables as nat);
                }
                return None;
            },
        }
        i = i + 1;
    }
    Some(tables)
}

/// One more than the largest table number.
fn count_filters(table_map: &[usize]) -> (n: usize)
    requires
        forall|i: int| 0 <= i < table_map@.len() ==> #[trigger] table_map@[i] <= 0x7fff_ffff,
    ensures
        n == table_total(naturals(table_map@)),
        n >= 1,
        forall|i: int| 0 <= i < table_map@.len() ==> #[trigger] table_map@[i] < n,
{
    let mut n: usize = 1;
    let mut i: usize = 0;
    let ghost all = naturals(table_map@);
    proof {
        assert(all.take(0) =~= Seq::<nat>::empty());
    }
    while i < table_map.len()
        invariant
            i <= table_map@.len(),
            all == naturals(table_map@),
            forall|k: int| 0 <= k < table_map@.len() ==> #[trigger] table_map@[k] <= 0x7fff_ffff,
            n == table_total(all.take(i as int)),
            1 <= n <= 0x8000_0000,
            forall|k: int| 0 <= k < i ==> #[trigger] table_map@[k] < n,
        decreases table_map@.len() - i,
    {
        proof {
            assert(all.take(i + 1).drop_last() =~= all.take(i as int));
            assert(table_map@[i as int] <= 0x7fff_ffff);
        }
        if table_map[i] + 1 > n {
            n = table_map[i] + 1;
        }
        i = i + 1;
    }
    proof {
        assert(all.take(i as int) =~= all);
    }
    n
}

// ---------------------------------------------------------------------------
// Frame decoder (for self-testing)
// ---------------------------------------------------------------------------

/// Per-channel decode state.
struct ChannelState {
    lut: FilterLut,
    status: Status,
    ptable_idx: usize,
    half_prob: bool,
    pred_order: usize,
    output: BitstreamWriter,
}

impl ChannelState {
    /// The state follows a filter over a history.
    spec fn follows(self, coefs: Seq<i16>, history: Seq<bool>) -> bool {
        &&& fir::lut_holds(self.lut, coefs)
        &&& fir::status_holds(self.status@, history, fir::table_count(coefs.len() as int))
        &&& self.pred_order == coefs.len()
        &&& self.output.wf()
        &&& self.output@ == history
    }

    fn new(coefs: &[i16], ptable_idx: usize, half_prob: bool) -> (ch: Self)
        ensures
            ch.follows(coefs@, Seq::empty()),
            ch.ptable_idx == ptable_idx,
            ch.half_prob == half_prob,
    {
        let n_tables: usize = div_ceil_resol(coefs.len());
        proof {
            fir::lemma_status_start(n_tables as int);
        }
        ChannelState {
            lut: build_lut(coefs),
            status: Status::new(n_tables),
            ptable_idx,
            half_prob,
            pred_order: coefs.len(),
            output: BitstreamWriter::new(),
        }
    }
}

/// Decode the next bit of a channel, and say whether there was one.
fn decode_sample(
    ch: &mut ChannelState,
    ac_decoder: &mut ACDecoder,
    ptable: &[u8],
    bit_idx: usize,
    Ghost(coefs): Ghost<Seq<i16>>,
    Ghost(history): Ghost<Seq<bool>>,
) -> (found: bool)
    requires
        old(ch).follows(coefs, history),
        bit_idx == history.len(),
        bit_idx < usize::MAX,
        ptable@.len() > 0,
        old(ac_decoder).wf(),
    ensures
        final(ch).ptable_idx == old(ch).ptable_idx,
        final(ch).half_prob == old(ch).half_prob,
        final(ac_decoder).wf(),
        final(ac_decoder).coded() == old(ac_decoder).coded(),
        ({
            let prediction = fir::predict(coefs, history);
            let p = residual_probability(
                coefs,
                ptable@,
                old(ch).half_prob,
                bit_idx as int,
                prediction,
            );
            let bit = arithmetic::decoded_bit(old(ac_decoder)@, p) != fir::predicted_bit(
                prediction,
            );
            &&& found <==> arithmetic::decoded_range(old(ac_decoder)@, p) != 0
            &&& found ==> final(ch).follows(coefs, history.push(bit))
            &&& found ==> final(ac_decoder)@ == arithmetic::decode_step(
                old(ac_decoder).coded(),
                old(ac_decoder)@,
                p,
            )
        }),
{
    let prediction: i32 = fir_predict(&ch.lut, &ch.status);
    proof {
        fir::lemma_lut_predicts(ch.lut, coefs, ch.status@, history);
    }
    let p: u8 = if ch.half_prob && bit_idx < ch.pred_order {
        128
    } else {
        ptable_lookup(ptable, prediction)
    };
    match ac_decoder.try_decode_bit(p as u32) {
        Some(residual) => {
            let predicted: u8 = predicted_bit_of(prediction);
            proof {
                bits::lemma_xor_bits();
            }
            let actual_bit: u8 = residual ^ predicted;
            ch.output.write_bit(actual_bit);
            proof {
                fir::lemma_status_update(
                    ch.status@,
                    history,
                    actual_bit == 1,
                    fir::table_count(coefs.len() as int),
                );
            }
            ch.status.update(actual_bit);
            true
        },
        None => false,
    }
}

proof fn lemma_filters_nonempty(s: Seq<bool>, pos: nat, n: nat)
    ensures
        filters_at(s, pos, n) matches Some((filters, next)) ==> {
            &&& filters.len() == n
            &&& forall|f: int| 0 <= f < n ==> (#[trigger] filters[f]).len() >= 1
        },
    decreases n,
{
    if n > 0 {
        lemma_filters_nonempty(s, pos, (n - 1) as nat);
        if let Some((filters, at)) = filters_at(s, pos, (n - 1) as nat) {
            coded_table::lemma_coded_table_at_len(
                s,
                skip(s, at, 7),
                TableType::Filter,
                number_at(s, at, 7) + 1,
            );
        }
    }
}

proof fn lemma_ptables_nonempty(s: Seq<bool>, pos: nat, n: nat)
    ensures
        ptables_at(s, pos, n) matches Some((tables, next)) ==> {
            &&& tables.len() == n
            &&& forall|t: int| 0 <= t < n ==> (#[trigger] tables[t]).len() >= 1
        },
    decreases n,
{
    if n > 0 {
        lemma_ptables_nonempty(s, pos, (n - 1) as nat);
        if let Some((tables, at)) = ptables_at(s, pos, (n - 1) as nat) {
            coded_table::lemma_coded_table_at_len(
                s,
                skip(s, at, 6),
                TableType::Ptable,
                number_at(s, at, 6) + 1,
            );
        }
    }
}

proof fn lemma_unfold_stuck(setup: Setup, coded: Seq<bool>, pos: nat, k: nat, total: nat)
    requires
        k <= total,
        setup.unfold(coded, pos, k) is None,
    ensures
        setup.unfold(coded, pos, total) is None,
    decreases total,
{
    if k < total {
        lemma_unfold_stuck(setup, coded, pos, k, (total - 1) as nat);
    }
}

/// The states of the channels follow what is decoded so far.
spec fn all_follow(states: Seq<ChannelState>, setup: Setup, u: Unfolding) -> bool {
    &&& states.len() == setup.map.len()
    &&& u.channels.len() == setup.map.len()
    &&& forall|ch: int|
        0 <= ch < states.len() ==> {
            &&& (#[trigger] states[ch]).follows(
                setup.filters[setup.map[ch] as int],
                u.channels[ch],
            )
            &&& states[ch].ptable_idx == setup.map[ch]
            &&& states[ch].half_prob == setup.half[ch]
        }
}

/// Every channel has a filter, a table and a HalfProb flag, none of the tables empty.
spec fn setup_complete(setup: Setup) -> bool {
    &&& setup.half.len() >= setup.map.len()
    &&& setup.filters.len() >= 1
    &&& setup.filters.len() == setup.tables.len()
    &&& forall|f: int|
        0 <= f < setup.filters.len() ==> (#[trigger] setup.filters[f]).len() >= 1
    &&& forall|f: int| 0 <= f < setup.tables.len() ==> (#[trigger] setup.tables[f]).len() >= 1
    &&& forall|ch: int|
        0 <= ch < setup.map.len() ==> #[trigger] setup.map[ch] < setup.filters.len()
}

/// AC decode the residuals, from the current bit offset of the packed frame data.
fn decode_residuals(
    frame_data: &[u8],
    bit_position: usize,
    filter_coefs: &[Vec<i16>],
    ptables: &[Vec<u8>],
    table_map: &[usize],
    half_prob: &[u8],
    frame_len_bits: usize,
    Ghost(setup): Ghost<Setup>,
) -> (r: Option<Vec<Vec<u8>>>)
    requires
        setup_complete(setup),
        setup.filters == views16(filter_coefs@),
        setup.tables == views8(ptables@),
        setup.map == naturals(table_map@),
        setup.half == bits::flags(half_prob@),
        arithmetic::all_bits(half_prob@),
    ensures
        match setup.unfold(
            bits::unpack(frame_data@),
            bit_position as nat,
            setup.map.len() * frame_len_bits as nat,
        ) {
            Some(u) => r is Some && views8(r->0@) == u.channels.map_values(
                |c: Seq<bool>| bits::pack(c),
            ),
            None => r is None,
        },
{
    let ghost s = bits::unpack(frame_data@);
    let ghost pos = bit_position as nat;
    let n_ch: usize = table_map.len();
    let ghost n = n_ch as int;
    let ghost total = (n * frame_len_bits) as nat;
    proof {
        assert(n * frame_len_bits >= 0) by (nonlinear_arith)
            requires
                n >= 0,
        ;
        assert(setup.filters[0] == filter_coefs@[0]@);
    }
    let mut ac_decoder: ACDecoder = ACDecoder::new(frame_data, bit_position);

    // Decode dst_x_bit dummy symbol
    let x_prob: u32 = prob_dst_x_bit(filter_coefs[0][0]);
    if ac_decoder.try_decode_bit(x_prob).is_none() {
        proof {
            lemma_unfold_stuck(setup, s, pos, 0, total);
        }
        return None;
    }
    let mut ch_states: Vec<ChannelState> = Vec::new();
    let mut ch_idx: usize = 0;
    while ch_idx < n_ch
        invariant
            ch_idx <= n_ch,
            n_ch == table_map@.len(),
            setup_complete(setup),
            setup.filters == views16(filter_coefs@),
            setup.map == naturals(table_map@),
            setup.half == bits::flags(half_prob@),
            arithmetic::all_bits(half_prob@),
            ch_states@.len() == ch_idx,
            forall|ch: int|
                0 <= ch < ch_idx ==> {
                    &&& (#[trigger] ch_states@[ch]).follows(
                        setup.filters[setup.map[ch] as int],
                        Seq::empty(),
                    )
                    &&& ch_states@[ch].ptable_idx == setup.map[ch]
                    &&& ch_states@[ch].half_prob == setup.half[ch]
                },
        decreases n_ch - ch_idx,
    {
        let f_idx: usize = table_map[ch_idx];
        proof {
            assert(setup.map[ch_idx as int] == f_idx);
            assert(setup.half[ch_idx as int] == (half_prob@[ch_idx as int] == 1));
            assert(half_prob@[ch_idx as int] <= 1);
            assert(setup.filters[f_idx as int] == filter_coefs@[f_idx as int]@);
        }
        ch_states.push(
            ChannelState::new(filter_coefs[f_idx].as_slice(), f_idx, half_prob[ch_idx] != 0),
        );
        ch_idx = ch_idx + 1;
    }
    let ghost mut u = Unfolding {
        ac: ac_decoder@,
        channels: Seq::new(setup.map.len(), |ch: int| Seq::empty()),
    };
    let ghost mut k: int = 0;
    assert(0 * n == 0);
    let mut bit_idx: usize = 0;
    while bit_idx < frame_len_bits
        invariant
            bit_idx <= frame_len_bits,
            n == n_ch,
            n_ch == table_map@.len(),
            total == n * frame_len_bits,
            k == bit_idx * n,
            setup_complete(setup),
            setup.tables == views8(ptables@),
            setup.map == naturals(table_map@),
            s == bits::unpack(frame_data@),
            pos == bit_position,
            ac_decoder.wf(),
            ac_decoder.coded() == s,
            u.ac == ac_decoder@,
            setup.unfold(s, pos, k as nat) == Some(u),
            all_follow(ch_states@, setup, u),
            forall|ch: int| 0 <= ch < n ==> (#[trigger] u.channels[ch]).len() == bit_idx,
        decreases frame_len_bits - bit_idx,
    {
        let mut ch_i: usize = 0;
        while ch_i < n_ch
            invariant
                bit_idx < frame_len_bits,
                ch_i <= n_ch,
                n == n_ch,
                n_ch == table_map@.len(),
                total == n * frame_len_bits,
                k == bit_idx * n + ch_i,
                setup_complete(setup),
                setup.tables == views8(ptables@),
                setup.map == naturals(table_map@),
                s == bits::unpack(frame_data@),
                pos == bit_position,
                ac_decoder.wf(),
                ac_decoder.coded() == s,
                u.ac == ac_decoder@,
                setup.unfold(s, pos, k as nat) == Some(u),
                all_follow(ch_states@, setup, u),
                forall|ch: int|
                    0 <= ch < n ==> (#[trigger] u.channels[ch]).len() == (if ch < ch_i {
                        bit_idx + 1
                    } else {
                        bit_idx as int
                    }),
            decreases n_ch - ch_i,
        {
            let ghost ch = ch_i as int;
            proof {
                assert(bit_idx * n + ch_i < n * frame_len_bits) by (nonlinear_arith)
                    requires
                        0 <= bit_idx < frame_len_bits,
                        0 <= ch_i < n,
                ;
                assert(bit_idx * n >= 0) by (nonlinear_arith)
                    requires
                        bit_idx >= 0,
                        n >= 0,
                ;
                lemma_fundamental_div_mod_converse(k, n, bit_idx as int, ch);
                assert(ch_states@[ch].follows(
                    setup.filters[setup.map[ch] as int],
                    u.channels[ch],
                ));
                assert(setup.tables[setup.map[ch] as int] == ptables@[setup.map[ch] as int]@);
                assert(setup.tables[setup.map[ch] as int].len() >= 1);
                assert(u.channels[ch].len() == bit_idx);
            }
            let ghost before = ch_states@;
            let table: usize = ch_states[ch_i].ptable_idx;
            let found: bool = decode_sample(
                &mut ch_states[ch_i],
                &mut ac_decoder,
                ptables[table].as_slice(),
                bit_idx,
                Ghost(setup.filters[setup.map[ch] as int]),
                Ghost(u.channels[ch]),
            );
            let ghost next = setup.step(s, u, ch);
            proof {
                assert(setup.unfold(s, pos, (k + 1) as nat) == next);
            }
            if !found {
                proof {
                    lemma_unfold_stuck(setup, s, pos, (k + 1) as nat, total);
                }
                return None;
            }
            proof {
                u = next->0;
                k = k + 1;
                assert forall|c: int| 0 <= c < n implies {
                    &&& (#[trigger] ch_states@[c]).follows(
                        setup.filters[setup.map[c] as int],
                        u.channels[c],
                    )
                    &&& ch_states@[c].ptable_idx == setup.map[c]
                    &&& ch_states@[c].half_prob == setup.half[c]
                } by {
                    if c != ch {
                        assert(ch_states@[c] == before[c]);
                    }
                }
            }
            ch_i = ch_i + 1;
        }
        bit_idx = bit_idx + 1;
        proof {
            assert(bit_idx * n == (bit_idx - 1) * n + n) by (nonlinear_arith);
        }
    }
    proof {
        assert(k == total) by (nonlinear_arith)
            requires
                k == bit_idx * n,
                total == n * frame_len_bits,
                bit_idx == frame_len_bits,
        ;
    }
    let mut channels: Vec<Vec<u8>> = Vec::new();
    let mut ch_i: usize = 0;
    let ghost want = u.channels.map_values(|c: Seq<bool>| bits::pack(c));
    while ch_i < n_ch
        invariant
            ch_i <= n_ch,
            n_ch == setup.map.len(),
            all_follow(ch_states@, setup, u),
            want == u.channels.map_values(|c: Seq<bool>| bits::pack(c)),
            channels@.len() == ch_i,
            forall|ch: int| 0 <= ch < ch_i ==> (#[trigger] channels@[ch])@ == want[ch],
        decreases n_ch - ch_i,
    {
        proof {
            assert(ch_states@[ch_i as int].follows(
                setup.filters[setup.map[ch_i as int] as int],
                u.channels[ch_i as int],
            ));
        }
        channels.push(ch_states[ch_i].output.get_bytes());
        ch_i = ch_i + 1;
    }
    proof {
        assert(views8(channels@) =~= want);
    }
    Some(channels)
}

/// Read the bytes of a frame that is not DST coded, in turn for the channels.
fn read_raw_channels(reader: &mut BitstreamReader, n_channels: usize, n_bytes: usize) -> (r: Vec<
    Vec<u8>,
>)
    requires
        old(reader).wf(),
        old(reader)@ == skip(old(reader).source(), 0, 8),
    ensures
        views8(r@) == raw_channels(old(reader).source(), n_channels as nat, n_bytes as nat),
{
    let ghost s = reader.source();
    let ghost n = n_channels as int;
    let mut channels: Vec<Vec<u8>> = Vec::new();
    let mut c: usize = 0;
    while c < n_channels
        invariant
            c <= n_channels,
            channels@.len() == c,
            forall|ch: int| 0 <= ch < c ==> (#[trigger] channels@[ch])@.len() == 0,
        decreases n_channels - c,
    {
        channels.push(Vec::new());
        c = c + 1;
    }
    let ghost want = raw_channels(s, n_channels as nat, n_bytes as nat);
    let ghost mut k: nat = 0;
    assert(0 * n == 0);
    let mut byte_idx: usize = 0;
    while byte_idx < n_bytes
        invariant
            byte_idx <= n_bytes,
            n == n_channels,
            reader.wf(),
            reader.source() == s,
            k == byte_idx * n,
            reader@ == skip(s, 0, 8 + 8 * k),
            want == raw_channels(s, n_channels as nat, n_bytes as nat),
            channels@.len() == n_channels,
            forall|ch: int|
                0 <= ch < n ==> (#[trigger] channels@[ch])@ == want[ch].take(byte_idx as int),
        decreases n_bytes - byte_idx,
    {
        let mut ch_idx: usize = 0;
        while ch_idx < n_channels
            invariant
                byte_idx < n_bytes,
                ch_idx <= n_channels,
                n == n_channels,
                reader.wf(),
                reader.source() == s,
                k == byte_idx * n + ch_idx,
                reader@ == skip(s, 0, 8 + 8 * k),
                want == raw_channels(s, n_channels as nat, n_bytes as nat),
                channels@.len() == n_channels,
                forall|ch: int|
                    0 <= ch < n ==> (#[trigger] channels@[ch])@ == want[ch].take(
                        if ch < ch_idx {
                            byte_idx + 1
                        } else {
                            byte_idx as int
                        },
                    ),
            decreases n_channels - ch_idx,
        {
            proof {
                bits::lemma_advance(s, 0, 8 + 8 * k, 8);
                bits::lemma_value_bound(bits::window(s, (8 + 8 * k) as int, 8));
                lemma2_to64();
            }
            let ghost before = channels@;
            let byte: u8 = reader.read_bits(RESOL) as u8;
            channels[ch_idx].push(byte);
            proof {
                let ch = ch_idx as int;
                assert(want[ch][byte_idx as int] == byte);
                assert(channels@[ch]@ =~= want[ch].take(byte_idx + 1)) by {
                    assert(before[ch]@ == want[ch].take(byte_idx as int));
                }
                assert forall|c: int| 0 <= c < n && c != ch implies (#[trigger] channels@[c])@
                    == before[c]@ by {
                }
                k = k + 1;
            }
            ch_idx = ch_idx + 1;
        }
        byte_idx = byte_idx + 1;
        proof {
            assert(byte_idx * n == (byte_idx - 1) * n + n) by (nonlinear_arith);
        }
    }
    proof {
        assert forall|ch: int| 0 <= ch < n implies (#[trigger] channels@[ch])@ == want[ch] by {
            assert(want[ch].take(n_bytes as int) =~= want[ch]);
        }
        assert(views8(channels@) =~= want);
    }
    channels
}

/// Decode a DST frame back to multi-channel packed DSD bytes, or give nothing where the
/// frame holds no table or symbol to go on with.
///
/// Returns one `Vec<u8>` per channel containing packed MSB-first DSD data.
pub fn try_decode_dst_frame(frame_data: &[u8], n_channels: usize, frame_len_bits: usize) -> (r:
    Option<Result<Vec<Vec<u8>>>>)
    ensures
        delivers(r, frame_decoded(frame_data@, n_channels as nat, frame_len_bits as nat)),
{
    if frame_data.len() > usize::MAX / 8 {
        return None;
    }
    let mut reader: BitstreamReader = BitstreamReader::new(frame_data);
    let ghost s = bits::unpack(frame_data@);
    let frame_len_bytes: usize = div_ceil_resol(frame_len_bits);

    let dst_coded: u8 = reader.read_bit();
    if dst_coded == 0 {
        // Raw DSD frame — already packed bytes in the stream
        let _dst_xbits: u8 = reader.read_bit();
        let _stuffing: u32 = reader.read_bits(6);
        proof {
            bits::lemma_advance(s, 0, 1, 1);
            bits::lemma_advance(s, 0, 2, 6);
        }
        return Some(Ok(read_raw_channels(&mut reader, n_channels, frame_len_bytes)));
    }

    // DST compressed frame
    match read_segment_data(&mut reader) {
        Ok(_) => {},
        Err(e) => {
            return Some(Err(e));
        },
    }
    if n_channels > MAX_FRAME_CHANNELS {
        if reader.read_bit() != 1 {
            return Some(Err(CladstError::Codec("only PSameMapAsF=1 supported".to_owned())));
        }
        return None;
    }
    let (half_prob, table_map) = match read_mapping_data(&mut reader, n_channels) {
        Ok(m) => m,
        Err(e) => {
            return Some(Err(e));
        },
    };
    let ghost map = naturals(table_map@);
    let ghost half = bits::flags(half_prob@);
    let ghost tables_pos = reader@;
    proof {
        assert forall|i: int| 0 <= i < table_map@.len() implies #[trigger] table_map@[i]
            <= 0x7fff_ffff by {
            assert(map[i] <= 0x7fff_ffff);
        }
        assert(decoded(s, n_channels as nat, frame_len_bits as nat) == tables_decoded(
            s,
            tables_pos,
            map,
            half,
            frame_len_bits as nat,
        ));
    }
    let n_filters: usize = count_filters(table_map.as_slice());

    // Read filter coefficient sets
    let filter_coefs: Vec<Vec<i16>> = match read_filters(&mut reader, n_filters) {
        Some(f) => f,
        None => {
            return None;
        },
    };
    let ghost ptables_pos = reader@;

    // Read probability tables
    let ptables: Vec<Vec<u8>> = match read_ptables(&mut reader, n_filters) {
        Some(t) => t,
        None => {
            return None;
        },
    };

    // Validation bit
    let validation_bit: u8 = reader.read_bit();
    if validation_bit != 0 {
        return Some(Err(CladstError::Codec("validation bit must be 0".to_owned())));
    }
    if half_prob.len() < table_map.len() {
        return None;
    }
    let ghost setup = Setup {
        filters: views16(filter_coefs@),
        tables: views8(ptables@),
        map,
        half,
    };
    proof {
        lemma_filters_nonempty(s, tables_pos, n_filters as nat);
        lemma_ptables_nonempty(s, ptables_pos, n_filters as nat);
        assert forall|ch: int| 0 <= ch < map.len() implies #[trigger] map[ch]
            < setup.filters.len() by {
            assert(table_map@[ch] < n_filters);
        }
    }
    match decode_residuals(
        frame_data,
        reader.bit_position(),
        filter_coefs.as_slice(),
        ptables.as_slice(),
        table_map.as_slice(),
        half_prob.as_slice(),
        frame_len_bits,
        Ghost(setup),
    ) {
        Some(channels) => Some(Ok(channels)),
        None => None,
    }
}

/// Decode a DST frame back to multi-channel packed DSD bytes.
///
/// Returns one `Vec<u8>` per channel containing packed MSB-first DSD data. The frame
/// has to hold all tables and symbols; see [`try_decode_dst_frame`].
pub fn decode_dst_frame(frame_data: &[u8], n_channels: usize, frame_len_bits: usize) -> (r: Result<
    Vec<Vec<u8>>,
>)
    requires
        frame_decoded(frame_data@, n_channels as nat, frame_len_bits as nat) !is Stuck,
    ensures
        delivers(
            Some(r),
            frame_decoded(frame_data@, n_channels as nat, frame_len_bits as nat),
        ),
{
    match try_decode_dst_frame(frame_data, n_channels, frame_len_bits) {
        Some(r) => r,
        None => Ok(Vec::new()),
    }
}

} // verus!

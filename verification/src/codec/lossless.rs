//! Decoding gives back what was encoded: the proof for whole frames.

use vstd::arithmetic::div_mod::*;
use vstd::arithmetic::power2::*;
use vstd::prelude::*;

use crate::codec::arithmetic;
use crate::codec::bits;
use crate::codec::bitstream;
use crate::codec::coded_table;
use crate::codec::constants::TableType;
use crate::codec::fir;
use crate::codec::frame;
use crate::codec::frame::{Decoded, FramePlan, Setup, Unfolding};

verus! {

// ---------------------------------------------------------------------------
// Header
// ---------------------------------------------------------------------------

/// The numbers below `n`.
pub open spec fn counted(n: nat) -> Seq<nat> {
    Seq::new(n, |i: int| i as nat)
}

pub proof fn lemma_flag(s: Seq<bool>, pos: nat, b: bool)
    requires
        bits::holds(s, pos, seq![b]),
    ensures
        frame::bit_at(s, pos) == b,
        frame::skip(s, pos, 1) == pos + 1,
{
    bits::lemma_holds_window(s, pos, seq![b]);
    assert(bits::window(s, pos as int, 1)[0] == seq![b][0]);
}

pub proof fn lemma_number(s: Seq<bool>, pos: nat, v: nat, n: nat)
    requires
        v < pow2(n),
        bits::holds(s, pos, bits::binary(v, n)),
    ensures
        frame::number_at(s, pos, n) == v,
        frame::skip(s, pos, n) == pos + n,
{
    bits::lemma_binary_len(v, n);
    bits::lemma_holds_window(s, pos, bits::binary(v, n));
    bits::lemma_value_binary(v, n);
    lemma_small_mod(v, pow2(n));
}

proof fn lemma_assignments_prefix(k: nat, n: nat)
    requires
        k <= n,
    ensures
        frame::assignments(k).is_prefix_of(frame::assignments(n)),
    decreases n,
{
    if k < n {
        lemma_assignments_prefix(k, (n - 1) as nat);
        if n > 1 {
            let last = (n - 1) as nat;
            assert(frame::assignments(last).is_prefix_of(frame::assignments(n)));
        }
    }
}

proof fn lemma_assignments_round_trip(s: Seq<bool>, pos: nat, n: nat, k: nat)
    requires
        1 <= k <= n,
        bits::holds(s, pos, frame::assignments(n)),
    ensures
        frame::assignments_at(s, pos + frame::assignments(k).len(), n, counted(k), k) == (
            counted(n),
            pos + frame::assignments(n).len(),
        ),
    decreases n - k,
{
    if k < n {
        let head = frame::assignments(k);
        let code = bits::binary(k, frame::bit_len(k));
        lemma_assignments_prefix(k + 1, n);
        assert(frame::assignments(k + 1) == head + code);
        bits::lemma_holds_prefix(s, pos, frame::assignments(n), head + code);
        bits::lemma_holds_concat(s, pos, head, code);
        frame::lemma_bit_len_covers(k);
        lemma_number(s, pos + head.len(), k, frame::bit_len(k));
        bits::lemma_binary_len(k, frame::bit_len(k));
        assert(counted(k).push(k) =~= counted(k + 1));
        lemma_assignments_round_trip(s, pos, n, k + 1);
    }
}

/// The filter and table of each channel, as a list.
pub open spec fn channel_map(n_channels: nat, share_filters: bool) -> Seq<nat> {
    if share_filters {
        Seq::new(n_channels, |ch: int| 0nat)
    } else {
        counted(n_channels)
    }
}

proof fn lemma_total_zeros(n: nat)
    ensures
        frame::table_total(Seq::new(n, |ch: int| 0nat)) == 1,
    decreases n,
{
    let z = Seq::new(n, |ch: int| 0nat);
    if n > 0 {
        lemma_total_zeros((n - 1) as nat);
        assert(z.drop_last() =~= Seq::new((n - 1) as nat, |ch: int| 0nat));
    }
}

proof fn lemma_total_counted(n: nat)
    requires
        n >= 1,
    ensures
        frame::table_total(counted(n)) == n,
    decreases n,
{
    if n > 1 {
        lemma_total_counted((n - 1) as nat);
        assert(counted(n).drop_last() =~= counted((n - 1) as nat));
    } else {
        assert(counted(1).drop_last() =~= Seq::<nat>::empty());
        assert(frame::table_total(counted(1).drop_last()) == 1);
    }
}

/// The mapping data reads back: that filters and tables are assigned alike, which of them
/// each channel has, and its half-probability flag; the reader is behind the data then.
pub proof fn law_mapping_round_trip(
    s: Seq<bool>,
    pos: nat,
    n_channels: nat,
    share_filters: bool,
    half_prob: bool,
)
    requires
        n_channels >= 1,
        bits::holds(s, pos, frame::mapping_code(n_channels, share_filters, half_prob)),
    ensures
        frame::bit_at(s, pos),
        frame::skip(s, pos, 1) == pos + 1,
        ({
            let (map, at) = frame::map_at(s, pos + 1, n_channels);
            let code = frame::mapping_code(n_channels, share_filters, half_prob);
            &&& map == channel_map(n_channels, share_filters)
            &&& bits::window(s, at as int, n_channels) == bits::run(half_prob, n_channels)
            &&& frame::skip(s, at, n_channels) == pos + code.len()
        }),
{
    let n = n_channels;
    let f0 = seq![true];
    let f1 = if share_filters {
        seq![true]
    } else {
        seq![false] + frame::assignments(n)
    };
    let f2 = bits::run(half_prob, n);
    bits::lemma_holds_concat(s, pos, f0 + f1, f2);
    bits::lemma_holds_concat(s, pos, f0, f1);
    lemma_flag(s, pos, true);
    if share_filters {
        lemma_flag(s, pos + 1, true);
    } else {
        bits::lemma_holds_concat(s, pos + 1, seq![false], frame::assignments(n));
        lemma_flag(s, pos + 1, false);
        assert(counted(1) =~= seq![0nat]);
        assert(frame::assignments(1).len() == 0);
        lemma_assignments_round_trip(s, pos + 2, n, 1);
    }
    bits::lemma_holds_window(s, pos + 1 + f1.len(), f2);
}

/// A set of coefficients reads back, and the reader is behind it then. It takes no more bits
/// than its length, a flag and nine bits for each coefficient.
pub proof fn law_filter_round_trip(s: Seq<bool>, pos: nat, coefs: Seq<i16>)
    requires
        1 <= coefs.len() <= 128,
        fir::nine_bit(coefs),
        bits::holds(s, pos, frame::filter_code(coefs)),
    ensures
        frame::filter_at(s, pos) == Some((coefs, pos + frame::filter_code(coefs).len())),
        frame::filter_code(coefs).len() <= 8 + 9 * coefs.len(),
{
    let f0 = bits::binary((coefs.len() - 1) as nat, 7);
    let wide = frame::widen16(coefs);
    let f1 = coded_table::coded_table(wide, TableType::Filter);
    bits::lemma_holds_concat(s, pos, f0, f1);
    bits::lemma_binary_len((coefs.len() - 1) as nat, 7);
    lemma2_to64();
    lemma_number(s, pos, (coefs.len() - 1) as nat, 7);
    assert forall|i: int| 0 <= i < wide.len() implies coded_table::entry_valid(
        #[trigger] wide[i] as int,
        TableType::Filter,
    ) by {
        assert(wide[i] == coefs[i]);
    }
    coded_table::lemma_coded_table_len(wide, TableType::Filter);
    coded_table::law_coded_table_round_trip(s, pos + 7, wide, TableType::Filter);
    assert(frame::narrow16(wide) =~= coefs);
}

/// A probability table reads back, and the reader is behind it then. A table of one entry
/// holds only that it has one, and comes back with the entry 128.
pub proof fn law_ptable_round_trip(s: Seq<bool>, pos: nat, table: Seq<u8>)
    requires
        frame::probabilities(table),
        bits::holds(s, pos, frame::ptable_code(table)),
    ensures
        frame::ptable_at(s, pos) == Some((frame::stored(table), pos + frame::ptable_code(table).len())),
{
    let f0 = bits::binary((table.len() - 1) as nat, 6);
    let wide = frame::widen8(table);
    let f1 = if table.len() == 1 {
        Seq::empty()
    } else {
        coded_table::coded_table(wide, TableType::Ptable)
    };
    bits::lemma_holds_concat(s, pos, f0, f1);
    bits::lemma_binary_len((table.len() - 1) as nat, 6);
    lemma2_to64();
    lemma_number(s, pos, (table.len() - 1) as nat, 6);
    if table.len() > 1 {
        assert forall|i: int| 0 <= i < wide.len() implies coded_table::entry_valid(
            #[trigger] wide[i] as int,
            TableType::Ptable,
        ) by {
            assert(wide[i] == table[i]);
            assert(1 <= table[i] <= 128);
        }
        coded_table::law_coded_table_round_trip(s, pos + 6, wide, TableType::Ptable);
        assert(frame::narrow8(wide) =~= table);
    }
}

pub proof fn lemma_filters_round_trip(s: Seq<bool>, pos: nat, coefs: Seq<Seq<i16>>, n: nat)
    requires
        n <= coefs.len(),
        forall|f: int|
            0 <= f < coefs.len() ==> 1 <= (#[trigger] coefs[f]).len() <= 128 && fir::nine_bit(
                coefs[f],
            ),
        bits::holds(s, pos, frame::filters_code(coefs, n)),
    ensures
        frame::filters_at(s, pos, n) == Some(
            (coefs.take(n as int), pos + frame::filters_code(coefs, n).len()),
        ),
    decreases n,
{
    if n > 0 {
        let head = frame::filters_code(coefs, (n - 1) as nat);
        let code = frame::filter_code(coefs[n - 1]);
        bits::lemma_holds_concat(s, pos, head, code);
        lemma_filters_round_trip(s, pos, coefs, (n - 1) as nat);
        law_filter_round_trip(s, pos + head.len(), coefs[n - 1]);
        assert(coefs.take(n - 1).push(coefs[n - 1]) =~= coefs.take(n as int));
    } else {
        assert(coefs.take(0) =~= Seq::<Seq<i16>>::empty());
    }
}

/// Tables as a decoder finds them.
pub open spec fn all_stored(tables: Seq<Seq<u8>>) -> Seq<Seq<u8>> {
    tables.map_values(|t: Seq<u8>| frame::stored(t))
}

pub proof fn lemma_ptables_round_trip(s: Seq<bool>, pos: nat, tables: Seq<Seq<u8>>, n: nat)
    requires
        n <= tables.len(),
        forall|f: int| 0 <= f < tables.len() ==> frame::probabilities(#[trigger] tables[f]),
        bits::holds(s, pos, frame::ptables_code(tables, n)),
    ensures
        frame::ptables_at(s, pos, n) == Some(
            (all_stored(tables).take(n as int), pos + frame::ptables_code(tables, n).len()),
        ),
    decreases n,
{
    if n > 0 {
        let head = frame::ptables_code(tables, (n - 1) as nat);
        let code = frame::ptable_code(tables[n - 1]);
        bits::lemma_holds_concat(s, pos, head, code);
        lemma_ptables_round_trip(s, pos, tables, (n - 1) as nat);
        law_ptable_round_trip(s, pos + head.len(), tables[n - 1]);
        assert(all_stored(tables).take(n - 1).push(frame::stored(tables[n - 1])) =~= all_stored(
            tables,
        ).take(n as int));
    } else {
        assert(all_stored(tables).take(0) =~= Seq::<Seq<u8>>::empty());
    }
}

// ---------------------------------------------------------------------------
// Residuals
// ---------------------------------------------------------------------------

/// What the residuals of a planned frame are decoded with.
spec fn setup_of(plan: FramePlan) -> Setup {
    Setup {
        filters: plan.coefs,
        tables: all_stored(plan.tables),
        map: channel_map(plan.channels.len(), plan.share_filters),
        half: bits::run(plan.half_prob, plan.channels.len()),
    }
}

/// The bits of the channels after `k` residuals.
pub open spec fn progress(channels: Seq<Seq<bool>>, k: int) -> Seq<Seq<bool>> {
    let n = channels.len() as int;
    Seq::new(
        channels.len(),
        |ch: int|
            channels[ch].take(
                k / n + (if ch < k % n {
                    1int
                } else {
                    0int
                }),
            ),
    )
}

/// The decoder knows the probability of the next residual.
proof fn lemma_same_probability(plan: FramePlan, frame_len_bits: nat, ch: int, i: int)
    requires
        plan.wf(frame_len_bits),
        0 <= ch < plan.channels.len(),
        0 <= i < frame_len_bits,
    ensures
        setup_of(plan).probability(ch, plan.channels[ch].take(i)) == plan.symbol(ch, i).1,
{
    let f = plan.filter_of(ch);
    let setup = setup_of(plan);
    let history = plan.channels[ch].take(i);
    assert(plan.channels[ch].len() == frame_len_bits);
    assert(history.len() == i);
    assert(setup.map[ch] == f);
    assert(setup.half[ch] == plan.half_prob);
    let coefs = plan.coefs[f];
    let prediction = fir::predict(coefs, history);
    let table = plan.tables[f];
    assert(frame::probabilities(table));
    if plan.half_prob && i < coefs.len() {
    } else {
        assert(frame::stored(table) == table);
    }
}

pub proof fn lemma_turns(k: int, n: int)
    requires
        n >= 1,
        k >= 0,
    ensures
        0 <= k % n < n,
        k / n >= 0,
        k % n + 1 < n ==> (k + 1) / n == k / n && (k + 1) % n == k % n + 1,
        k % n + 1 == n ==> (k + 1) / n == k / n + 1 && (k + 1) % n == 0,
{
    let (q, r) = (k / n, k % n);
    lemma_fundamental_div_mod(k, n);
    lemma_mod_bound(k, n);
    lemma_div_pos_is_pos(k, n);
    assert(n * q == q * n) by (nonlinear_arith);
    if r + 1 < n {
        lemma_fundamental_div_mod_converse(k + 1, n, q, r + 1);
    } else {
        assert((q + 1) * n == q * n + n) by (nonlinear_arith);
        lemma_fundamental_div_mod_converse(k + 1, n, q + 1, 0);
    }
}

/// The decoder finds the next symbol.
pub proof fn lemma_next_symbol(symbols: Seq<(bool, u32)>, s: Seq<bool>, pos: nat, k: nat)
    requires
        arithmetic::encodable(symbols),
        arithmetic::holds_code(symbols, s, pos),
        k < symbols.len(),
    ensures
        ({
            let start = arithmetic::decode_start(s, pos);
            let ps = arithmetic::symbol_probs(symbols);
            let (bit, p) = symbols[k as int];
            let state = arithmetic::decode_state(s, start, ps.take(k as int));
            &&& arithmetic::decoded_range(state, p) != 0
            &&& arithmetic::decoded_bit(state, p) == bit
            &&& arithmetic::decode_state(s, start, ps.take(1 + k as int))
                == arithmetic::decode_step(s, state, p)
        }),
{
    let ps = arithmetic::symbol_probs(symbols);
    let start = arithmetic::decode_start(s, pos);
    arithmetic::law_decode_inverts_encode(symbols, s, pos);
    let state = arithmetic::decode_state(s, start, ps.take(k as int));
    assert(arithmetic::decoded_range(state, symbols[k as int].1) != 0);
    assert(arithmetic::decode_all(s, start, ps)[k as int] == arithmetic::symbol_bits(
        symbols,
    )[k as int]);
    assert(ps.take(1 + k as int).drop_last() =~= ps.take(k as int));
    assert(ps.take(1 + k as int).last() == symbols[k as int].1);
}

/// The channels after one more bit.
pub proof fn lemma_progress_step(channels: Seq<Seq<bool>>, len: nat, j: nat)
    requires
        channels.len() >= 1,
        forall|ch: int| 0 <= ch < channels.len() ==> (#[trigger] channels[ch]).len() == len,
        j < channels.len() * len,
    ensures
        ({
            let n = channels.len() as int;
            let (ch, i) = (j as int % n, j as int / n);
            let before = progress(channels, j as int);
            &&& 0 <= ch < n
            &&& 0 <= i < len
            &&& before[ch] == channels[ch].take(i)
            &&& before.update(ch, channels[ch].take(i).push(channels[ch][i])) == progress(
                channels,
                j as int + 1,
            )
        }),
{
    let n = channels.len() as int;
    let (ch, i) = (j as int % n, j as int / n);
    lemma_turns(j as int, n);
    lemma_fundamental_div_mod(j as int, n);
    assert(i < len) by (nonlinear_arith)
        requires
            n * i <= j,
            j < n * len,
            n >= 1,
    ;
    let before = progress(channels, j as int);
    let after = progress(channels, j as int + 1);
    assert(channels[ch].len() == len);
    assert(channels[ch].take(i).push(channels[ch][i]) =~= channels[ch].take(i + 1));
    let made = before.update(ch, channels[ch].take(i).push(channels[ch][i]));
    assert forall|c: int| 0 <= c < n implies made[c] == after[c] by {
        if c != ch && ch + 1 == n {
            assert(c < ch);
        }
    }
    assert(made =~= after);
}

/// The decoder finds the next bit of a channel.
proof fn lemma_step_follows(
    plan: FramePlan,
    frame_len_bits: nat,
    s: Seq<bool>,
    ac: arithmetic::Decoding,
    j: nat,
)
    requires
        plan.wf(frame_len_bits),
        j < plan.channels.len() * frame_len_bits,
        ({
            let n = plan.channels.len() as int;
            let (bit, p) = plan.symbol(j as int % n, j as int / n);
            &&& arithmetic::decoded_range(ac, p) != 0
            &&& arithmetic::decoded_bit(ac, p) == bit
        }),
    ensures
        ({
            let n = plan.channels.len() as int;
            let p = plan.symbol(j as int % n, j as int / n).1;
            let u = Unfolding { ac, channels: progress(plan.channels, j as int) };
            setup_of(plan).step(s, u, j as int % n) == Some(
                Unfolding {
                    ac: arithmetic::decode_step(s, ac, p),
                    channels: progress(plan.channels, j as int + 1),
                },
            )
        }),
{
    let n = plan.channels.len() as int;
    let (ch, i) = (j as int % n, j as int / n);
    lemma_progress_step(plan.channels, frame_len_bits, j);
    lemma_same_probability(plan, frame_len_bits, ch, i);
    assert(setup_of(plan).map[ch] == plan.filter_of(ch));
}

/// The decoder finds the bits of the channels one after the other.
proof fn lemma_unfold_follows(
    plan: FramePlan,
    frame_len_bits: nat,
    s: Seq<bool>,
    pos: nat,
    k: nat,
)
    requires
        plan.wf(frame_len_bits),
        arithmetic::encodable(plan.symbols(frame_len_bits)),
        arithmetic::holds_code(plan.symbols(frame_len_bits), s, pos),
        k <= plan.channels.len() * frame_len_bits,
    ensures
        setup_of(plan).unfold(s, pos, k) == Some(
            Unfolding {
                ac: arithmetic::decode_state(
                    s,
                    arithmetic::decode_start(s, pos),
                    arithmetic::symbol_probs(plan.symbols(frame_len_bits)).take(1 + k as int),
                ),
                channels: progress(plan.channels, k as int),
            },
        ),
    decreases k,
{
    let symbols = plan.symbols(frame_len_bits);
    let ps = arithmetic::symbol_probs(symbols);
    let start = arithmetic::decode_start(s, pos);
    let n = plan.channels.len() as int;
    lemma_next_symbol(symbols, s, pos, k);
    let state = arithmetic::decode_state(s, start, ps.take(k as int));
    if k == 0 {
        assert(ps.take(0) =~= Seq::<u32>::empty());
        assert(state == start);
        let empty = Seq::new(setup_of(plan).map.len(), |ch: int| Seq::<bool>::empty());
        assert forall|ch: int| 0 <= ch < n implies empty[ch] =~= progress(plan.channels, 0)[ch] by {
            lemma_fundamental_div_mod_converse(0, n, 0, 0);
        }
        assert(empty =~= progress(plan.channels, 0));
    } else {
        let j = (k - 1) as nat;
        lemma_unfold_follows(plan, frame_len_bits, s, pos, j);
        lemma_step_follows(plan, frame_len_bits, s, state, j);
        assert(setup_of(plan).map.len() == n);
    }
}

/// All bits of the channels are there after as many residuals.
pub proof fn lemma_progress_end(channels: Seq<Seq<bool>>, len: nat)
    requires
        channels.len() >= 1,
        forall|ch: int| 0 <= ch < channels.len() ==> (#[trigger] channels[ch]).len() == len,
    ensures
        progress(channels, (channels.len() * len) as int) == channels,
{
    let n = channels.len() as int;
    let total = n * len;
    let end = progress(channels, total);
    assert(len * n == total) by (nonlinear_arith)
        requires
            total == n * len,
    ;
    lemma_fundamental_div_mod_converse(total, n, len as int, 0);
    assert forall|ch: int| 0 <= ch < n implies end[ch] == channels[ch] by {
        assert(channels[ch].take(len as int) =~= channels[ch]);
    }
    assert(end =~= channels);
}

/// Where the parts of a frame stand.
proof fn lemma_frame_parts(plan: FramePlan, frame_len_bits: nat, s: Seq<bool>)
    requires
        bits::holds(s, 0, plan.frame(frame_len_bits)),
    ensures
        frame::bit_at(s, 0) && frame::bit_at(s, 1) && frame::bit_at(s, 2) && frame::bit_at(s, 3),
        frame::skip(s, 0, 1) == 1 && frame::skip(s, 1, 1) == 2 && frame::skip(s, 2, 1) == 3
            && frame::skip(s, 3, 1) == 4,
        ({
            let n = plan.channels.len();
            let a2 = frame::mapping_code(n, plan.share_filters, plan.half_prob);
            let a3 = frame::filters_code(plan.coefs, plan.coefs.len());
            let a4 = frame::ptables_code(plan.tables, plan.tables.len());
            let p4 = 4 + a2.len();
            let p5 = p4 + a3.len();
            let p6 = p5 + a4.len();
            &&& bits::holds(s, 4, a2)
            &&& bits::holds(s, p4, a3)
            &&& bits::holds(s, p5, a4)
            &&& !frame::bit_at(s, p6)
            &&& frame::skip(s, p6, 1) == p6 + 1
            &&& arithmetic::holds_code(plan.symbols(frame_len_bits), s, p6 + 1)
        }),
{
    let n = plan.channels.len();
    let a0 = seq![true];
    let a1 = frame::segment_code();
    let a2 = frame::mapping_code(n, plan.share_filters, plan.half_prob);
    let a3 = frame::filters_code(plan.coefs, plan.coefs.len());
    let a4 = frame::ptables_code(plan.tables, plan.tables.len());
    let a5 = seq![false];
    let code = arithmetic::codeword(arithmetic::encode_all(plan.symbols(frame_len_bits)));
    bits::lemma_holds_concat(s, 0, plan.header(), code);
    bits::lemma_holds_concat(s, 0, a0 + a1 + a2 + a3 + a4, a5);
    bits::lemma_holds_concat(s, 0, a0 + a1 + a2 + a3, a4);
    bits::lemma_holds_concat(s, 0, a0 + a1 + a2, a3);
    bits::lemma_holds_concat(s, 0, a0 + a1, a2);
    bits::lemma_holds_concat(s, 0, a0, a1);
    lemma_flag(s, 0, true);
    assert(a1 =~= seq![true] + (seq![true] + seq![true]));
    bits::lemma_holds_concat(s, 1, seq![true], seq![true] + seq![true]);
    bits::lemma_holds_concat(s, 2, seq![true], seq![true]);
    lemma_flag(s, 1, true);
    lemma_flag(s, 2, true);
    lemma_flag(s, 3, true);
    lemma_flag(s, 4 + a2.len() + a3.len() + a4.len(), false);
}

/// The residuals of a planned frame unfold to its channels.
proof fn lemma_residuals_decode(plan: FramePlan, frame_len_bits: nat, s: Seq<bool>, pos: nat)
    requires
        plan.wf(frame_len_bits),
        arithmetic::holds_code(plan.symbols(frame_len_bits), s, pos),
    ensures
        frame::unfolded(s, pos, setup_of(plan), frame_len_bits) == Decoded::Channels(
            plan.channels.map_values(|c: Seq<bool>| bits::pack(c)),
        ),
{
    let n = plan.channels.len();
    let symbols = plan.symbols(frame_len_bits);
    frame::lemma_symbols_encodable(plan, frame_len_bits, symbols.len());
    assert(symbols.take(symbols.len() as int) =~= symbols);
    let total = n * frame_len_bits;
    lemma_unfold_follows(plan, frame_len_bits, s, pos, total);
    lemma_progress_end(plan.channels, frame_len_bits);
    assert(setup_of(plan).map.len() == n);
}

/// A frame read back from packed bytes.
proof fn lemma_frame_decodes(plan: FramePlan, frame_len_bits: nat, s: Seq<bool>)
    requires
        plan.wf(frame_len_bits),
        plan.channels.len() <= frame::MAX_FRAME_CHANNELS,
        forall|f: int| 0 <= f < plan.coefs.len() ==> fir::nine_bit(#[trigger] plan.coefs[f]),
        bits::holds(s, 0, plan.frame(frame_len_bits)),
    ensures
        frame::decoded(s, plan.channels.len(), frame_len_bits) == Decoded::Channels(
            plan.channels.map_values(|c: Seq<bool>| bits::pack(c)),
        ),
{
    let n = plan.channels.len();
    let a2 = frame::mapping_code(n, plan.share_filters, plan.half_prob);
    let a3 = frame::filters_code(plan.coefs, plan.coefs.len());
    let a4 = frame::ptables_code(plan.tables, plan.tables.len());
    let p4 = 4 + a2.len();
    let p5 = p4 + a3.len();
    let p6 = p5 + a4.len();
    lemma_frame_parts(plan, frame_len_bits, s);
    law_mapping_round_trip(s, 4, plan.channels.len(), plan.share_filters, plan.half_prob);
    let map = channel_map(plan.channels.len(), plan.share_filters);
    if plan.share_filters {
        lemma_total_zeros(n);
    } else {
        lemma_total_counted(n);
    }
    assert(frame::table_total(map) == plan.coefs.len());
    lemma_filters_round_trip(s, p4, plan.coefs, plan.coefs.len());
    lemma_ptables_round_trip(s, p5, plan.tables, plan.tables.len());
    assert(plan.coefs.take(plan.coefs.len() as int) =~= plan.coefs);
    assert(all_stored(plan.tables).take(plan.tables.len() as int) =~= all_stored(plan.tables));
    lemma_residuals_decode(plan, frame_len_bits, s, p6 + 1);
    assert(frame::tables_decoded(
        s,
        p4,
        map,
        bits::run(plan.half_prob, n),
        frame_len_bits,
    ) == frame::unfolded(s, p6 + 1, setup_of(plan), frame_len_bits));
}

/// DST coding is lossless: a frame coded with 9-bit filter coefficients decodes to the
/// channels it was made of.
pub proof fn law_frame_round_trip(
    channels: Seq<Seq<bool>>,
    coefs: Seq<Seq<i16>>,
    share_filters: bool,
    half_prob: bool,
    frame_len_bits: nat,
)
    requires
        1 <= channels.len() <= frame::MAX_FRAME_CHANNELS,
        forall|ch: int|
            0 <= ch < channels.len() ==> (#[trigger] channels[ch]).len() == frame_len_bits,
        coefs.len() == (if share_filters {
            1
        } else {
            channels.len()
        }),
        forall|f: int|
            0 <= f < coefs.len() ==> 1 <= (#[trigger] coefs[f]).len() <= 128 && fir::nine_bit(
                coefs[f],
            ),
    ensures
        frame::decoded(
            bits::unpack(
                bits::pack(
                    frame::frame_plan(channels, coefs, share_filters, half_prob).frame(
                        frame_len_bits,
                    ),
                ),
            ),
            channels.len(),
            frame_len_bits,
        ) == Decoded::Channels(channels.map_values(|c: Seq<bool>| bits::pack(c))),
{
    let plan = frame::frame_plan(channels, coefs, share_filters, half_prob);
    frame::lemma_plan_wf(channels, coefs, share_filters, half_prob, frame_len_bits);
    bitstream::law_packed_bits_read_back(plan.frame(frame_len_bits));
    lemma_frame_decodes(
        plan,
        frame_len_bits,
        bits::unpack(bits::pack(plan.frame(frame_len_bits))),
    );
}

// ---------------------------------------------------------------------------
// Raw frames
// ---------------------------------------------------------------------------

/// A raw frame of whole bytes decodes to the channels it was made of.
pub proof fn law_raw_frame_round_trip(channels: Seq<Seq<u8>>, n_bytes: nat)
    requires
        forall|ch: int| 0 <= ch < channels.len() ==> n_bytes <= (#[trigger] channels[ch]).len(),
        8 + 8 * (channels.len() * n_bytes) <= usize::MAX,
    ensures
        frame::frame_decoded(
            seq![0u8] + frame::interleaved(channels, n_bytes),
            channels.len(),
            8 * n_bytes,
        ) == Decoded::Channels(channels.map_values(|c: Seq<u8>| c.take(n_bytes as int))),
{
    let data = seq![0u8] + frame::interleaved(channels, n_bytes);
    lemma_raw_decoded(data, channels.len(), n_bytes);
    lemma_raw_channels(channels, n_bytes);
}

/// A frame that starts with a zero byte is a raw one.
#[verifier::rlimit(20)]
proof fn lemma_raw_decoded(data: Seq<u8>, n_channels: nat, n_bytes: nat)
    requires
        data.len() > 0,
        data[0] == 0,
        8 * data.len() <= usize::MAX,
    ensures
        frame::frame_decoded(data, n_channels, 8 * n_bytes) == Decoded::Channels(
            frame::raw_channels(bits::unpack(data), n_channels, n_bytes),
        ),
{
    let s = bits::unpack(data);
    lemma_window_of_byte(data, 0);
    bits::lemma_first_bit(bits::window(s, 0, 8));
    assert(bits::window(s, 0, 1)[0] == bits::window(s, 0, 8)[0]);
    assert(!frame::bit_at(s, 0));
}

/// The channels of a raw frame, read from its bits.
proof fn lemma_raw_channels(channels: Seq<Seq<u8>>, n_bytes: nat)
    requires
        forall|ch: int| 0 <= ch < channels.len() ==> n_bytes <= (#[trigger] channels[ch]).len(),
    ensures
        frame::raw_channels(
            bits::unpack(seq![0u8] + frame::interleaved(channels, n_bytes)),
            channels.len(),
            n_bytes,
        ) == channels.map_values(|c: Seq<u8>| c.take(n_bytes as int)),
{
    let s = bits::unpack(seq![0u8] + frame::interleaved(channels, n_bytes));
    let got = frame::raw_channels(s, channels.len(), n_bytes);
    let want = channels.map_values(|c: Seq<u8>| c.take(n_bytes as int));
    assert forall|ch: int| 0 <= ch < channels.len() implies got[ch] =~= want[ch] by {
        assert(n_bytes <= channels[ch].len());
        assert forall|b: int| 0 <= b < n_bytes implies got[ch][b] == want[ch][b] by {
            lemma_raw_byte(channels, n_bytes, ch, b);
        }
    }
    assert(got =~= want);
}

/// A byte of a raw frame, read from its bits.
proof fn lemma_raw_byte(channels: Seq<Seq<u8>>, n_bytes: nat, ch: int, b: int)
    requires
        0 <= ch < channels.len(),
        0 <= b < n_bytes,
    ensures
        bits::value(
            bits::window(
                bits::unpack(seq![0u8] + frame::interleaved(channels, n_bytes)),
                8 + 8 * (b * channels.len() + ch),
                8,
            ),
        ) == channels[ch][b],
{
    let n = channels.len() as int;
    let k = b * n + ch;
    assert(0 <= k < n * n_bytes) by (nonlinear_arith)
        requires
            k == b * n + ch,
            0 <= b < n_bytes,
            0 <= ch < n,
    ;
    lemma_fundamental_div_mod_converse(k, n, b, ch);
    lemma_window_of_byte(seq![0u8] + frame::interleaved(channels, n_bytes), 1 + k);
}

/// A byte, read from the bits.
pub proof fn lemma_window_of_byte(data: Seq<u8>, k: int)
    requires
        0 <= k < data.len(),
    ensures
        bits::value(bits::window(bits::unpack(data), 8 * k, 8)) == data[k],
{
    let w = bits::window(bits::unpack(data), 8 * k, 8);
    bits::lemma_pack_unpack(data);
    bits::lemma_first_bit(w);
    assert(bits::pack(bits::unpack(data))[k] == bits::value(w) as u8);
}

// ---------------------------------------------------------------------------
// The shape of what is decoded
// ---------------------------------------------------------------------------

proof fn lemma_unfold_shape(setup: Setup, coded: Seq<bool>, pos: nat, k: nat)
    requires
        setup.map.len() >= 1,
    ensures
        setup.unfold(coded, pos, k) matches Some(u) ==> {
            let n = setup.map.len() as int;
            &&& u.channels.len() == n
            &&& forall|ch: int|
                0 <= ch < n ==> (#[trigger] u.channels[ch]).len() == k as int / n + (if ch < k
                    as int % n {
                    1int
                } else {
                    0int
                })
        },
    decreases k,
{
    let n = setup.map.len() as int;
    if k == 0 {
        lemma_fundamental_div_mod_converse(0, n, 0, 0);
    } else {
        let j = k - 1;
        lemma_unfold_shape(setup, coded, pos, j as nat);
        lemma_turns(j, n);
        if let Some(v) = setup.unfold(coded, pos, j as nat) {
            let ch = j % n;
            if let Some(u) = setup.step(coded, v, ch) {
                assert forall|c: int| 0 <= c < n implies (#[trigger] u.channels[c]).len() == k as int
                    / n + (if c < k as int % n {
                    1int
                } else {
                    0int
                }) by {
                    assert(v.channels[c].len() == j / n + (if c < j % n {
                        1int
                    } else {
                        0int
                    }));
                }
            }
        }
    }
}

proof fn lemma_assignments_shape(
    s: Seq<bool>,
    pos: nat,
    n_channels: nat,
    map: Seq<nat>,
    count: nat,
)
    requires
        map.len() <= n_channels,
    ensures
        frame::assignments_at(s, pos, n_channels, map, count).0.len() == n_channels,
    decreases n_channels - map.len(),
{
    if map.len() < n_channels {
        let table = frame::number_at(s, pos, frame::bit_len(count));
        lemma_assignments_shape(
            s,
            frame::skip(s, pos, frame::bit_len(count)),
            n_channels,
            map.push(table),
            if table == count {
                count + 1
            } else {
                count
            },
        );
    }
}

/// A frame that decodes has the channels that were asked for, each filling the bytes of
/// the frame.
pub proof fn law_decoded_shape(data: Seq<u8>, n_channels: nat, frame_len_bits: nat)
    requires
        n_channels >= 1,
    ensures
        frame::frame_decoded(data, n_channels, frame_len_bits) matches Decoded::Channels(channels)
            ==> {
            &&& channels.len() == n_channels
            &&& forall|ch: int|
                0 <= ch < n_channels ==> (#[trigger] channels[ch]).len() == (frame_len_bits
                    + 7) as nat / 8
        },
{
    let s = bits::unpack(data);
    let p1 = frame::skip(s, 0, 1);
    let p5 = frame::skip(s, frame::skip(s, frame::skip(s, frame::skip(s, p1, 1), 1), 1), 1);
    let (map, at) = frame::map_at(s, p5, n_channels);
    if frame::frame_decoded(data, n_channels, frame_len_bits) is Channels && frame::bit_at(s, 0) {
        if !frame::bit_at(s, p5) {
            lemma_assignments_shape(s, frame::skip(s, p5, 1), n_channels, seq![0nat], 1);
        }
        assert(map.len() == n_channels);
        let half = bits::window(s, at as int, n_channels);
        let pos = frame::skip(s, at, n_channels);
        lemma_tables_shape(s, pos, map, half, frame_len_bits);
    }
}

proof fn lemma_tables_shape(
    s: Seq<bool>,
    pos: nat,
    map: Seq<nat>,
    half: Seq<bool>,
    frame_len_bits: nat,
)
    requires
        map.len() >= 1,
    ensures
        frame::tables_decoded(s, pos, map, half, frame_len_bits) matches Decoded::Channels(channels)
            ==> {
            &&& channels.len() == map.len()
            &&& forall|ch: int|
                0 <= ch < map.len() ==> (#[trigger] channels[ch]).len() == (frame_len_bits
                    + 7) as nat / 8
        },
{
    if let Some((filters, a)) = frame::filters_at(s, pos, frame::table_total(map)) {
        if let Some((tables, end)) = frame::ptables_at(s, a, frame::table_total(map)) {
            let setup = Setup { filters, tables, map, half };
            let n = map.len() as int;
            let total = map.len() * frame_len_bits;
            lemma_unfold_shape(setup, s, frame::skip(s, end, 1), total);
            assert(frame_len_bits * n == total) by (nonlinear_arith)
                requires
                    total == n * frame_len_bits,
            ;
            lemma_fundamental_div_mod_converse(total as int, n, frame_len_bits as int, 0);
            if let Some(u) = setup.unfold(s, frame::skip(s, end, 1), total) {
                let channels = u.channels.map_values(|c: Seq<bool>| bits::pack(c));
                assert forall|ch: int| 0 <= ch < n implies (#[trigger] channels[ch]).len() == (
                frame_len_bits + 7) as nat / 8 by {
                    assert(u.channels[ch].len() == frame_len_bits);
                }
            }
        }
    }
}

/// A frame for no channels has none.
pub proof fn lemma_no_channels(data: Seq<u8>, frame_len_bits: nat)
    ensures
        frame::frame_decoded(data, 0, frame_len_bits) matches Decoded::Channels(channels)
            ==> channels.len() == 0,
{
    let s = bits::unpack(data);
    let p1 = frame::skip(s, 0, 1);
    let p5 = frame::skip(s, frame::skip(s, frame::skip(s, frame::skip(s, p1, 1), 1), 1), 1);
    let (map, at) = frame::map_at(s, p5, 0);
    let pos = frame::skip(s, at, 0);
    if let Some((filters, a)) = frame::filters_at(s, pos, frame::table_total(map)) {
        if let Some((tables, end)) = frame::ptables_at(s, a, frame::table_total(map)) {
            if map.len() == 0 {
                let setup = Setup {
                    filters,
                    tables,
                    map,
                    half: bits::window(s, at as int, 0),
                };
                assert(0 * frame_len_bits == 0);
                assert(setup.unfold(s, frame::skip(s, end, 1), 0) matches Some(u)
                    ==> u.channels.len() == 0);
            }
        }
    }
}

} // verus!

//! What the parts of a coded frame are, in plain numbers: predictions, probability tables,
//! and the symbols that are coded.

use vstd::arithmetic::div_mod::*;
use vstd::prelude::*;

use crate::codec::arithmetic;
use crate::codec::bits;
use crate::codec::fir;
use crate::codec::frame;
use crate::codec::frame::{Decoded, FramePlan, Setup, Unfolding};
use crate::codec::lossless;

verus! {

// ---------------------------------------------------------------------------
// Counting
// ---------------------------------------------------------------------------

/// The indices below `n` for which something holds.
pub open spec fn indices(n: int, holds: spec_fn(int) -> bool) -> Set<int> {
    Set::new(|i: int| 0 <= i < n && holds(i))
}

/// One more index.
pub proof fn lemma_indices_step(n: int, holds: spec_fn(int) -> bool)
    requires
        n >= 0,
    ensures
        indices(0, holds).finite(),
        indices(0, holds).len() == 0,
        indices(n, holds).finite() ==> indices(n + 1, holds).finite() && indices(n + 1, holds).len()
            == indices(n, holds).len() + (if holds(n) {
            1int
        } else {
            0int
        }),
{
    assert(indices(0, holds) =~= Set::empty());
    if holds(n) {
        assert(indices(n + 1, holds) =~= indices(n, holds).insert(n));
    } else {
        assert(indices(n + 1, holds) =~= indices(n, holds));
    }
}

// ---------------------------------------------------------------------------
// Prediction
// ---------------------------------------------------------------------------

/// The bit `j` steps back from the end of a history; before its start ones and zeros take
/// turns, beginning with a zero.
pub open spec fn past(history: Seq<bool>, j: int) -> bool {
    if j < history.len() {
        history[history.len() - 1 - j]
    } else {
        (j - history.len()) % 2 == 1
    }
}

proof fn lemma_dot_last(coefs: Seq<i16>, pattern: Seq<bool>)
    requires
        coefs.len() >= 1,
    ensures
        ({
            let j = coefs.len() - 1;
            fir::dot(coefs, 0, pattern) == fir::dot(coefs.drop_last(), 0, pattern) + (
            if j < pattern.len() {
                if pattern[j] {
                    coefs[j] as int
                } else {
                    -(coefs[j] as int)
                }
            } else {
                0int
            })
        }),
    decreases pattern.len(),
{
    if pattern.len() > 0 {
        lemma_dot_last(coefs, pattern.drop_last());
    }
}

/// A coefficient adds itself to the prediction where the bit that many steps back is one, and
/// takes itself away where it is zero; without coefficients the prediction is zero.
pub proof fn law_prediction_adds_up(coefs: Seq<i16>, history: Seq<bool>)
    requires
        1 <= coefs.len() <= 128,
        forall|i: int| 0 <= i < coefs.len() ==> -256 <= #[trigger] coefs[i] <= 255,
    ensures
        fir::predict(coefs, history) == fir::predict(coefs.drop_last(), history) + (if past(
            history,
            coefs.len() - 1,
        ) {
            coefs.last() as int
        } else {
            -(coefs.last() as int)
        }),
        fir::predict(Seq::empty(), history) == 0,
{
    let fewer = coefs.drop_last();
    assert(fir::nine_bit(coefs));
    assert forall|i: int| 0 <= i < fewer.len() implies -256 <= #[trigger] fewer[i] <= 255 by {
        assert(fewer[i] == coefs[i]);
    }
    fir::law_prediction_is_filter(coefs, history);
    fir::law_prediction_is_filter(fewer, history);
    fir::law_prediction_is_filter(Seq::empty(), history);
    lemma_dot_last(coefs, fir::recent_bits(history));
    fir::lemma_dot_zero(Seq::empty(), 0, fir::recent_bits(history));
}

/// The coefficients from one index up to another, each added where the bit that many steps
/// back is one and taken away where it is zero.
pub open spec fn taps(coefs: Seq<i16>, history: Seq<bool>, start: int, end: int) -> int
    decreases end - start,
{
    if end <= start {
        0
    } else {
        taps(coefs, history, start, end - 1) + (if past(history, end - 1) {
            coefs[end - 1] as int
        } else {
            -(coefs[end - 1] as int)
        })
    }
}

/// With coefficients of any size, eight of them at a time add to the prediction what a signed
/// 16-bit number keeps of their sum.
pub proof fn law_eight_coefficients_wrap(coefs: Seq<i16>, history: Seq<bool>, t: int)
    requires
        0 <= t < 16,
        8 * t < coefs.len() <= 8 * t + 8,
    ensures
        ({
            let fewer = coefs.take(8 * t);
            let d = fir::predict(coefs, history) - fir::predict(fewer, history);
            &&& -0x8000 <= d < 0x8000
            &&& (d - taps(coefs, history, 8 * t, coefs.len() as int)) % 0x1_0000 == 0
        }),
{
    let fewer = coefs.take(8 * t);
    lemma_first_groups(coefs, fewer, history, t, t as nat);
    lemma_last_groups(coefs, history, (t + 1) as nat, 16);
    lemma_last_groups(fewer, history, t as nat, 16);
    lemma_group_taps(coefs, history, t, 8);
    let group = fir::recent_group(history, t);
    assert(group.take(8) =~= group);
}

/// Groups without coefficients add nothing.
proof fn lemma_last_groups(coefs: Seq<i16>, history: Seq<bool>, t: nat, n: nat)
    requires
        t <= n,
        coefs.len() <= 8 * t,
    ensures
        fir::partial_predict(coefs, history, n) == fir::partial_predict(coefs, history, t),
    decreases n,
{
    if t < n {
        lemma_last_groups(coefs, history, t, (n - 1) as nat);
        fir::lemma_dot_zero(coefs, 8 * (n - 1), fir::recent_group(history, n - 1));
    }
}

/// The groups before the last one have the same coefficients.
proof fn lemma_first_groups(
    coefs: Seq<i16>,
    fewer: Seq<i16>,
    history: Seq<bool>,
    t: int,
    n: nat,
)
    requires
        n <= t,
        8 * t <= coefs.len(),
        fewer == coefs.take(8 * t),
    ensures
        fir::partial_predict(coefs, history, n) == fir::partial_predict(fewer, history, n),
    decreases n,
{
    if n > 0 {
        lemma_first_groups(coefs, fewer, history, t, (n - 1) as nat);
        lemma_same_coefficients(coefs, fewer, 8 * (n - 1), fir::recent_group(history, n - 1));
    }
}

proof fn lemma_same_coefficients(
    coefs: Seq<i16>,
    fewer: Seq<i16>,
    start: int,
    pattern: Seq<bool>,
)
    requires
        0 <= start,
        start + pattern.len() <= fewer.len() <= coefs.len(),
        fewer == coefs.take(fewer.len() as int),
    ensures
        fir::dot(coefs, start, pattern) == fir::dot(fewer, start, pattern),
    decreases pattern.len(),
{
    if pattern.len() > 0 {
        lemma_same_coefficients(coefs, fewer, start, pattern.drop_last());
        let i = start + pattern.len() - 1;
        assert(fewer[i] == coefs[i]);
    }
}

proof fn lemma_group_taps(coefs: Seq<i16>, history: Seq<bool>, t: int, k: int)
    requires
        0 <= t,
        8 * t < coefs.len() <= 8 * t + 8,
        0 <= k <= 8,
    ensures
        fir::dot(coefs, 8 * t, fir::recent_group(history, t).take(k)) == taps(
            coefs,
            history,
            8 * t,
            if 8 * t + k < coefs.len() {
                8 * t + k
            } else {
                coefs.len() as int
            },
        ),
    decreases k,
{
    let group = fir::recent_group(history, t);
    if k > 0 {
        lemma_group_taps(coefs, history, t, k - 1);
        assert(group.take(k).drop_last() =~= group.take(k - 1));
        assert(group.take(k).last() == past(history, 8 * t + k - 1));
    }
}

/// The predicted bit is bit 15 of the prediction: one for a negative prediction.
pub proof fn law_predicted_bit(prediction: int)
    ensures
        fir::predicted_bit(prediction) <==> prediction % 0x1_0000 >= 0x8000,
        -0x8000 <= prediction < 0 ==> fir::predicted_bit(prediction),
        0 <= prediction < 0x8000 ==> !fir::predicted_bit(prediction),
{
}

/// A correlation is the number of samples that agree with those `k` further on, less the
/// number of those that differ.
pub proof fn law_correlation_counts(s: Seq<bool>, k: nat, count: nat)
    requires
        count + k <= s.len(),
    ensures
        ({
            let equal = Set::new(|i: int| 0 <= i < count && s[i] == s[i + k]);
            let other = Set::new(|i: int| 0 <= i < count && s[i] != s[i + k]);
            &&& equal.finite() && other.finite()
            &&& equal.len() + other.len() == count
            &&& fir::correlation(s, k, count) == equal.len() - other.len()
        }),
    decreases count,
{
    let f = |i: int| s[i] == s[i + k];
    let g = |i: int| s[i] != s[i + k];
    let equal = Set::new(|i: int| 0 <= i < count && s[i] == s[i + k]);
    let other = Set::new(|i: int| 0 <= i < count && s[i] != s[i + k]);
    assert(equal =~= indices(count as int, f));
    assert(other =~= indices(count as int, g));
    if count > 0 {
        let n = count - 1;
        law_correlation_counts(s, k, n as nat);
        assert(Set::new(|i: int| 0 <= i < n && s[i] == s[i + k]) =~= indices(n, f));
        assert(Set::new(|i: int| 0 <= i < n && s[i] != s[i + k]) =~= indices(n, g));
        lemma_indices_step(n, f);
        lemma_indices_step(n, g);
    } else {
        lemma_indices_step(0, f);
        lemma_indices_step(0, g);
    }
}

// ---------------------------------------------------------------------------
// Probability tables
// ---------------------------------------------------------------------------

/// A prediction belongs to bin `idx` of `len`: each bin takes eight sizes, and the last one
/// all larger ones too.
pub open spec fn in_bin(prediction: int, len: int, idx: int) -> bool {
    let size = if prediction < 0 {
        -prediction
    } else {
        prediction
    };
    8 * idx <= size && (idx < len - 1 ==> size < 8 * idx + 8)
}

/// The samples whose predictions belong to a bin.
pub open spec fn samples_in(predictions: Seq<i32>, residuals: Seq<u8>, len: int, idx: int) -> Set<
    int,
> {
    Set::new(
        |i: int|
            0 <= i < predictions.len() && i < residuals.len() && in_bin(
                predictions[i] as int,
                len,
                idx,
            ),
    )
}

/// The samples whose predictions belong to a bin and came true.
pub open spec fn zeros_in(predictions: Seq<i32>, residuals: Seq<u8>, len: int, idx: int) -> Set<
    int,
> {
    Set::new(
        |i: int|
            0 <= i < predictions.len() && i < residuals.len() && in_bin(
                predictions[i] as int,
                len,
                idx,
            ) && residuals[i] == 0,
    )
}

proof fn lemma_bin(prediction: int, len: int, idx: int)
    requires
        0 <= idx < len,
    ensures
        fir::bin(prediction, len) == idx <==> in_bin(prediction, len, idx),
{
}

proof fn lemma_bin_counts(predictions: Seq<i32>, residuals: Seq<u8>, len: int, idx: int, n: nat)
    requires
        0 <= idx < len,
        n <= predictions.len(),
        n <= residuals.len(),
    ensures
        ({
            let all = indices(n as int, |i: int| in_bin(predictions[i] as int, len, idx));
            let zeros = indices(
                n as int,
                |i: int| in_bin(predictions[i] as int, len, idx) && residuals[i] == 0,
            );
            &&& all.finite() && zeros.finite()
            &&& all.len() == fir::bin_total(predictions, len, idx, n)
            &&& zeros.len() == fir::bin_hits(predictions, residuals, len, idx, n)
            &&& zeros.len() <= all.len()
        }),
    decreases n,
{
    let f = |i: int| in_bin(predictions[i] as int, len, idx);
    let g = |i: int| in_bin(predictions[i] as int, len, idx) && residuals[i] == 0;
    if n > 0 {
        lemma_bin_counts(predictions, residuals, len, idx, (n - 1) as nat);
        lemma_indices_step(n - 1, f);
        lemma_indices_step(n - 1, g);
        lemma_bin(predictions[n - 1] as int, len, idx);
    } else {
        lemma_indices_step(0, f);
        lemma_indices_step(0, g);
    }
}

proof fn lemma_table_ends(predictions: Seq<i32>, len: int, n: nat, upto: nat)
    requires
        upto >= 1,
    ensures
        ({
            let used = fir::used_bins(predictions, len, n, upto) as int;
            &&& 1 <= used <= upto
            &&& used > 1 ==> fir::bin_total(predictions, len, used - 1, n) > 0
            &&& forall|idx: int|
                used <= idx < upto ==> #[trigger] fir::bin_total(predictions, len, idx, n) == 0
        }),
    decreases upto,
{
    if upto > 1 && fir::bin_total(predictions, len, upto - 1, n) == 0 {
        lemma_table_ends(predictions, len, n, (upto - 1) as nat);
    }
}

/// An entry of a probability table is the share of zero residuals among the samples of its
/// bin, in steps of 1/256 and rounded down, for any number of samples: at least 1, at most
/// 255, and 128 for a bin without samples. The table ends with the last bin that has samples.
pub proof fn law_table_tells_shares(
    predictions: Seq<i32>,
    residuals: Seq<u8>,
    max_len: nat,
    idx: int,
)
    requires
        0 <= idx < max_len,
    ensures
        ({
            let table = fir::ptable(predictions, residuals, max_len);
            let total = samples_in(predictions, residuals, max_len as int, idx).len();
            let zeros = zeros_in(predictions, residuals, max_len as int, idx).len();
            &&& samples_in(predictions, residuals, max_len as int, idx).finite()
            &&& zeros_in(predictions, residuals, max_len as int, idx).finite()
            &&& 1 <= table.len() <= max_len
            &&& idx >= table.len() ==> total == 0
            &&& idx == table.len() - 1 && idx > 0 ==> total > 0
            &&& idx < table.len() ==> {
                let entry = table[idx] as int;
                &&& total == 0 ==> entry == 128
                &&& total > 0 && 256 * zeros < total ==> entry == 1
                &&& total > 0 && zeros == total ==> entry == 255
                &&& total > 0 && total <= 256 * zeros && zeros < total ==> entry * total <= 256
                    * zeros < (entry + 1) * total
                &&& zeros <= total
            }
        }),
{
    let n = fir::pairs(predictions, residuals);
    let len = max_len as int;
    lemma_bin_counts(predictions, residuals, len, idx, n);
    lemma_table_ends(predictions, len, n, max_len);
    let all = samples_in(predictions, residuals, len, idx);
    let zeros = zeros_in(predictions, residuals, len, idx);
    assert(all =~= indices(n as int, |i: int| in_bin(predictions[i] as int, len, idx)));
    assert(zeros =~= indices(
        n as int,
        |i: int| in_bin(predictions[i] as int, len, idx) && residuals[i] == 0,
    ));
    let (h, t) = (zeros.len() as int, all.len() as int);
    if t > 0 {
        let q = (h * 256) / t;
        lemma_fundamental_div_mod(h * 256, t);
        lemma_mod_bound(h * 256, t);
        assert(q * t <= 256 * h < (q + 1) * t && 0 <= q && (256 * h < t ==> q == 0) && (h == t
            ==> q == 256) && (t <= 256 * h && h < t ==> 1 <= q <= 255)) by (nonlinear_arith)
            requires
                h * 256 == t * q + (h * 256) % t,
                0 <= (h * 256) % t < t,
                0 <= h <= t,
                t > 0,
        ;
    }
}

/// The table that a frame stores for samples: no entry above one half, and even odds where
/// there is one entry only.
pub proof fn law_stored_table(table: Seq<u8>, k: int)
    requires
        0 <= k < table.len(),
    ensures
        ({
            let kept = frame::stored(frame::capped(table));
            &&& kept.len() == table.len()
            &&& table.len() == 1 ==> kept[k] == 128
            &&& table.len() > 1 && table[k] <= 128 ==> kept[k] == table[k]
            &&& table.len() > 1 && table[k] > 128 ==> kept[k] == 128
        }),
{
}

/// The tables of a frame with a filter for each channel come from the predictions for the
/// channel and from where they fail.
pub proof fn law_tables_of_channels(
    channels: Seq<Seq<bool>>,
    coefs: Seq<Seq<i16>>,
    ch: int,
    i: int,
)
    requires
        0 <= ch < channels.len(),
        0 <= i < channels[ch].len(),
        -0x8000_0000 <= fir::predict(coefs[ch], channels[ch].take(i)) <= 0x7fff_ffff,
    ensures
        ({
            let p = frame::predictions(coefs[ch], channels[ch]);
            let r = frame::residuals(coefs[ch], channels[ch]);
            let prediction = fir::predict(coefs[ch], channels[ch].take(i));
            &&& frame::frame_tables(channels, coefs, false).len() == channels.len()
            &&& frame::frame_tables(channels, coefs, false)[ch] == frame::stored(
                frame::capped(fir::ptable(p, r, 64)),
            )
            &&& p.len() == channels[ch].len() && r.len() == channels[ch].len()
            &&& p[i] == prediction
            &&& r[i] == 0 <==> fir::predicted_bit(prediction) == channels[ch][i]
        }),
{
}

/// The one table of a frame with a shared filter comes from the predictions for all channels,
/// one channel after the other.
pub proof fn law_table_of_all_channels(
    channels: Seq<Seq<bool>>,
    coefs: Seq<Seq<i16>>,
    len: nat,
    n: nat,
    ch: int,
    i: int,
)
    requires
        forall|c: int| 0 <= c < channels.len() ==> (#[trigger] channels[c]).len() == len,
        n <= channels.len(),
        0 <= ch < n,
        0 <= i < len,
    ensures
        ({
            let p = frame::joint_predictions(coefs[0], channels, n);
            let r = frame::joint_residuals(coefs[0], channels, n);
            &&& p.len() == n * len && r.len() == n * len
            &&& 0 <= ch * len + i < n * len
            &&& p[ch * len + i] == frame::predictions(coefs[0], channels[ch])[i]
            &&& r[ch * len + i] == frame::residuals(coefs[0], channels[ch])[i]
        }),
        frame::frame_tables(channels, coefs, true) == seq![
            frame::stored(
                frame::capped(
                    fir::ptable(
                        frame::joint_predictions(coefs[0], channels, channels.len()),
                        frame::joint_residuals(coefs[0], channels, channels.len()),
                        64,
                    ),
                ),
            ),
        ],
    decreases n,
{
    lemma_joint_len(channels, coefs, len, n);
    lemma_joint_len(channels, coefs, len, (n - 1) as nat);
    assert(channels[n - 1].len() == len);
    assert(n * len == (n - 1) * len + len) by (nonlinear_arith);
    assert(0 <= ch * len && ch * len + i < n * len && (ch < n - 1 ==> ch * len + i < (n - 1)
        * len)) by (nonlinear_arith)
        requires
            0 <= ch < n,
            0 <= i < len,
    ;
    if ch < n - 1 {
        law_table_of_all_channels(channels, coefs, len, (n - 1) as nat, ch, i);
    }
}

proof fn lemma_joint_len(channels: Seq<Seq<bool>>, coefs: Seq<Seq<i16>>, len: nat, n: nat)
    requires
        forall|c: int| 0 <= c < channels.len() ==> (#[trigger] channels[c]).len() == len,
        n <= channels.len(),
    ensures
        frame::joint_predictions(coefs[0], channels, n).len() == n * len,
        frame::joint_residuals(coefs[0], channels, n).len() == n * len,
    decreases n,
{
    if n > 0 {
        lemma_joint_len(channels, coefs, len, (n - 1) as nat);
        assert(channels[n - 1].len() == len);
        assert(n * len == (n - 1) * len + len) by (nonlinear_arith);
    } else {
        assert(0 * len == 0);
    }
}

// ---------------------------------------------------------------------------
// Residuals and their odds
// ---------------------------------------------------------------------------

/// The odds of a residual in a coded frame. The bits of the channels are coded in turn, behind
/// one extra symbol. With HalfProb the first residuals of a channel, as many as its filter
/// has coefficients, are coded with even odds, whatever the length of the filter; any other
/// one with the entry of the table for the size of its prediction.
pub proof fn law_residual_odds(plan: FramePlan, frame_len_bits: nat, ch: int, i: int, idx: int)
    requires
        plan.wf(frame_len_bits),
        0 <= ch < plan.channels.len(),
        0 <= i < frame_len_bits,
    ensures
        ({
            let n = plan.channels.len();
            let f = if plan.share_filters {
                0
            } else {
                ch
            };
            let (coefs, table) = (plan.coefs[f], plan.tables[f]);
            let prediction = fir::predict(coefs, plan.channels[ch].take(i));
            let all = plan.symbols(frame_len_bits);
            let (bit, p) = all[1 + i * n + ch];
            &&& all.len() == 1 + n * frame_len_bits
            &&& 1 + i * n + ch < all.len()
            &&& bit == (fir::predicted_bit(prediction) != plan.channels[ch][i])
            &&& plan.half_prob && i < coefs.len() ==> p == 128
            &&& !(plan.half_prob && i < coefs.len()) && 0 <= idx < table.len() && in_bin(
                prediction,
                table.len() as int,
                idx,
            ) ==> p == table[idx]
        }),
{
    let n = plan.channels.len() as int;
    let f = plan.filter_of(ch);
    let prediction = fir::predict(plan.coefs[f], plan.channels[ch].take(i));
    assert(plan.channels[ch].len() == frame_len_bits);
    assert(i * n + ch < n * frame_len_bits && 0 <= i * n) by (nonlinear_arith)
        requires
            0 <= i < frame_len_bits,
            0 <= ch < n,
    ;
    lemma_fundamental_div_mod_converse(i * n + ch, n, i, ch);
    if 0 <= idx < plan.tables[f].len() {
        lemma_bin(prediction, plan.tables[f].len() as int, idx);
    }
}

/// The decoder takes the same odds, from the coefficients, the table and the flag that the
/// frame holds for the channel.
pub proof fn law_decoder_odds(setup: Setup, ch: int, history: Seq<bool>, idx: int)
    ensures
        ({
            let coefs = setup.filters[setup.map[ch] as int];
            let table = setup.tables[setup.map[ch] as int];
            let p = setup.probability(ch, history);
            &&& setup.half[ch] && history.len() < coefs.len() ==> p == 128
            &&& !(setup.half[ch] && history.len() < coefs.len()) && 0 <= idx < table.len()
                && in_bin(fir::predict(coefs, history), table.len() as int, idx) ==> p
                == table[idx]
        }),
{
    let table = setup.tables[setup.map[ch] as int];
    if 0 <= idx < table.len() {
        lemma_bin(
            fir::predict(setup.filters[setup.map[ch] as int], history),
            table.len() as int,
            idx,
        );
    }
}

/// A setup for `n` channels: filters of one to 128 coefficients, tables of probabilities from
/// 1 to 128, and a filter, a table and a flag for each channel.
pub open spec fn sound_setup(setup: Setup, n: nat) -> bool {
    &&& n >= 1
    &&& setup.map.len() == n
    &&& setup.half.len() == n
    &&& setup.filters.len() >= 1
    &&& setup.tables.len() == setup.filters.len()
    &&& forall|f: int|
        0 <= f < setup.filters.len() ==> 1 <= (#[trigger] setup.filters[f]).len() <= 128
    &&& forall|f: int|
        0 <= f < setup.tables.len() ==> 1 <= (#[trigger] setup.tables[f]).len() <= 64
    &&& forall|f: int, k: int|
        0 <= f < setup.tables.len() && 0 <= k < setup.tables[f].len() ==> 1
            <= #[trigger] setup.tables[f][k] <= 128
    &&& forall|ch: int|
        0 <= ch < setup.map.len() ==> #[trigger] setup.map[ch] < setup.filters.len()
}

/// The symbols that code channels with a setup.
pub open spec fn coded_symbols(setup: Setup, channels: Seq<Seq<bool>>, frame_len_bits: nat) -> Seq<
    (bool, u32),
> {
    let n = channels.len() as int;
    Seq::new(
        1 + channels.len() * frame_len_bits,
        |k: int|
            if k == 0 {
                (false, frame::x_probability(setup.filters[0][0]))
            } else {
                let (ch, i) = ((k - 1) % n, (k - 1) / n);
                let history = channels[ch].take(i);
                let prediction = fir::predict(setup.filters[setup.map[ch] as int], history);
                (
                    fir::predicted_bit(prediction) != channels[ch][i],
                    setup.probability(ch, history),
                )
            },
    )
}

proof fn lemma_odds_bound(setup: Setup, n: nat, ch: int, history: Seq<bool>)
    requires
        sound_setup(setup, n),
        0 <= ch < n,
    ensures
        1 <= setup.probability(ch, history) <= 128,
{
    let f = setup.map[ch] as int;
    let table = setup.tables[f];
    assert(setup.map[ch] < setup.filters.len());
    assert(1 <= table.len() <= 64);
    let k = fir::bin(fir::predict(setup.filters[f], history), table.len() as int);
    assert(1 <= setup.tables[f][k] <= 128);
}

proof fn lemma_coded_symbols_encodable(
    setup: Setup,
    channels: Seq<Seq<bool>>,
    frame_len_bits: nat,
    k: nat,
)
    requires
        sound_setup(setup, channels.len()),
        k <= 1 + channels.len() * frame_len_bits,
    ensures
        arithmetic::encodable(coded_symbols(setup, channels, frame_len_bits).take(k as int)),
    decreases k,
{
    let all = coded_symbols(setup, channels, frame_len_bits);
    let t = all.take(k as int);
    if k > 0 {
        lemma_coded_symbols_encodable(setup, channels, frame_len_bits, (k - 1) as nat);
        assert(t.drop_last() =~= all.take(k - 1));
        arithmetic::lemma_reachable(t.drop_last());
        if k == 1 {
            frame::lemma_x_probability(setup.filters[0][0]);
        } else {
            let n = channels.len() as int;
            lemma_mod_bound(k - 2, n);
            lemma_odds_bound(
                setup,
                channels.len(),
                (k - 2) % n,
                channels[(k - 2) % n].take((k - 2) / n),
            );
        }
        arithmetic::lemma_probabilities_split(
            arithmetic::encode_all(t.drop_last()),
            t.last().0,
            t.last().1,
        );
    }
}

proof fn lemma_setup_unfolds(
    setup: Setup,
    channels: Seq<Seq<bool>>,
    frame_len_bits: nat,
    s: Seq<bool>,
    pos: nat,
    k: nat,
)
    requires
        sound_setup(setup, channels.len()),
        forall|ch: int|
            0 <= ch < channels.len() ==> (#[trigger] channels[ch]).len() == frame_len_bits,
        arithmetic::encodable(coded_symbols(setup, channels, frame_len_bits)),
        arithmetic::holds_code(coded_symbols(setup, channels, frame_len_bits), s, pos),
        k <= channels.len() * frame_len_bits,
    ensures
        setup.unfold(s, pos, k) == Some(
            Unfolding {
                ac: arithmetic::decode_state(
                    s,
                    arithmetic::decode_start(s, pos),
                    arithmetic::symbol_probs(
                        coded_symbols(setup, channels, frame_len_bits),
                    ).take(1 + k as int),
                ),
                channels: lossless::progress(channels, k as int),
            },
        ),
    decreases k,
{
    let symbols = coded_symbols(setup, channels, frame_len_bits);
    let ps = arithmetic::symbol_probs(symbols);
    let start = arithmetic::decode_start(s, pos);
    let n = channels.len() as int;
    lossless::lemma_next_symbol(symbols, s, pos, k);
    let state = arithmetic::decode_state(s, start, ps.take(k as int));
    if k == 0 {
        assert(ps.take(0) =~= Seq::<u32>::empty());
        assert(state == start);
        let empty = Seq::new(setup.map.len(), |ch: int| Seq::<bool>::empty());
        let first = lossless::progress(channels, 0);
        assert forall|ch: int| 0 <= ch < n implies empty[ch] =~= first[ch] by {
            lemma_fundamental_div_mod_converse(0, n, 0, 0);
        }
        assert(empty =~= first);
    } else {
        let j = (k - 1) as nat;
        lemma_setup_unfolds(setup, channels, frame_len_bits, s, pos, j);
        lossless::lemma_progress_step(channels, frame_len_bits, j);
        let (ch, i) = (j as int % n, j as int / n);
        assert(channels[ch].take(i).len() == i);
    }
}

/// The decoder undoes the coding with any setup: where the code of channels stands, it finds
/// the channels, whichever filter, table and flag each of them has.
pub proof fn law_residuals_decode(
    setup: Setup,
    channels: Seq<Seq<bool>>,
    frame_len_bits: nat,
    s: Seq<bool>,
    pos: nat,
)
    requires
        sound_setup(setup, channels.len()),
        forall|ch: int|
            0 <= ch < channels.len() ==> (#[trigger] channels[ch]).len() == frame_len_bits,
        arithmetic::holds_code(coded_symbols(setup, channels, frame_len_bits), s, pos),
    ensures
        frame::unfolded(s, pos, setup, frame_len_bits) == Decoded::Channels(
            channels.map_values(|c: Seq<bool>| bits::pack(c)),
        ),
{
    let symbols = coded_symbols(setup, channels, frame_len_bits);
    lemma_coded_symbols_encodable(setup, channels, frame_len_bits, symbols.len());
    assert(symbols.take(symbols.len() as int) =~= symbols);
    lemma_setup_unfolds(
        setup,
        channels,
        frame_len_bits,
        s,
        pos,
        channels.len() * frame_len_bits,
    );
    lossless::lemma_progress_end(channels, frame_len_bits);
}

// ---------------------------------------------------------------------------
// Any frame
// ---------------------------------------------------------------------------

/// The number of tables is one more than the largest table number.
pub proof fn law_number_of_tables(map: Seq<nat>, i: int)
    requires
        0 <= i < map.len(),
    ensures
        map[i] < frame::table_total(map),
        exists|k: int| 0 <= k < map.len() && #[trigger] map[k] + 1 == frame::table_total(map),
    decreases map.len(),
{
    let before = map.drop_last();
    if i < before.len() {
        law_number_of_tables(before, i);
        let k = choose|k: int|
            0 <= k < before.len() && #[trigger] before[k] + 1 == frame::table_total(before);
        assert(map[k] == before[k]);
    } else {
        if before.len() > 0 {
            law_number_of_tables(before, 0);
            let k = choose|k: int|
                0 <= k < before.len() && #[trigger] before[k] + 1 == frame::table_total(before);
            assert(map[k] == before[k]);
        }
        assert(map[i] == map.last());
    }
}

/// Tables are assigned in order: the first channel has table 0, and any other one a table
/// that a channel before it has, or the next new one.
pub open spec fn in_order(map: Seq<nat>) -> bool {
    &&& map.len() >= 1
    &&& map[0] == 0
    &&& forall|i: int|
        1 <= i < map.len() ==> #[trigger] map[i] <= frame::table_total(map.take(i))
}

/// The numbers of the tables of the first `k` channels, each in as many digits as the number
/// of tables before it has.
pub open spec fn assigned(map: Seq<nat>, k: nat) -> Seq<bool>
    decreases k,
{
    if k <= 1 {
        Seq::empty()
    } else {
        assigned(map, (k - 1) as nat) + bits::binary(
            map[k - 1],
            frame::bit_len(frame::table_total(map.take(k - 1))),
        )
    }
}

proof fn lemma_assigned_prefix(map: Seq<nat>, k: nat, n: nat)
    requires
        k <= n,
    ensures
        assigned(map, k).is_prefix_of(assigned(map, n)),
    decreases n,
{
    if k < n {
        lemma_assigned_prefix(map, k, (n - 1) as nat);
        if n > 1 {
            let last = (n - 1) as nat;
            assert(assigned(map, last).is_prefix_of(assigned(map, n)));
        }
    }
}

proof fn lemma_assigned_reads_back(s: Seq<bool>, pos: nat, map: Seq<nat>, k: nat)
    requires
        in_order(map),
        1 <= k <= map.len(),
        bits::holds(s, pos, assigned(map, map.len())),
    ensures
        frame::assignments_at(
            s,
            pos + assigned(map, k).len(),
            map.len(),
            map.take(k as int),
            frame::table_total(map.take(k as int)),
        ) == (map, pos + assigned(map, map.len()).len()),
    decreases map.len() - k,
{
    let known = map.take(k as int);
    if k < map.len() {
        let count = frame::table_total(known);
        let next = map[k as int];
        let digits = frame::bit_len(count);
        let head = assigned(map, k);
        let code = bits::binary(next, digits);
        lemma_assigned_prefix(map, k + 1, map.len());
        assert(assigned(map, k + 1) == head + code);
        bits::lemma_holds_prefix(s, pos, assigned(map, map.len()), head + code);
        bits::lemma_holds_concat(s, pos, head, code);
        frame::lemma_bit_len_covers(count);
        assert(next <= frame::table_total(map.take(k as int)));
        lossless::lemma_number(s, pos + head.len(), next, digits);
        bits::lemma_binary_len(next, digits);
        let more = map.take(k as int + 1);
        assert(more.drop_last() =~= known);
        assert(more =~= known.push(next));
        lemma_assigned_reads_back(s, pos, map, k + 1);
    } else {
        assert(known =~= map);
    }
}

/// The header of a frame with any mapping: four ones, a one, whether all channels share, the
/// tables of the channels if not, and the flags of the channels.
pub open spec fn frame_head(setup: Setup, same: bool) -> Seq<bool> {
    seq![true, true, true, true] + seq![true] + seq![same] + (if same {
        Seq::empty()
    } else {
        assigned(setup.map, setup.map.len())
    }) + setup.half
}

/// The parts of any frame.
pub open spec fn any_frame(
    setup: Setup,
    same: bool,
    channels: Seq<Seq<bool>>,
    frame_len_bits: nat,
) -> Seq<bool> {
    frame_head(setup, same) + frame::filters_code(setup.filters, setup.filters.len())
        + frame::ptables_code(setup.tables, setup.tables.len()) + seq![false]
        + arithmetic::codeword(
        arithmetic::encode_all(coded_symbols(setup, channels, frame_len_bits)),
    )
}

proof fn lemma_any_head(setup: Setup, same: bool, s: Seq<bool>)
    requires
        bits::holds(s, 0, frame_head(setup, same)),
        in_order(setup.map),
        setup.half.len() == setup.map.len(),
        same ==> forall|ch: int| 0 <= ch < setup.map.len() ==> #[trigger] setup.map[ch] == 0,
    ensures
        frame::bit_at(s, 0),
        frame::bit_at(s, 1),
        frame::bit_at(s, 2),
        frame::bit_at(s, 3),
        frame::bit_at(s, 4),
        frame::skip(s, 0, 1) == 1,
        frame::skip(s, 1, 1) == 2,
        frame::skip(s, 2, 1) == 3,
        frame::skip(s, 3, 1) == 4,
        frame::skip(s, 4, 1) == 5,
        ({
            let (map, at) = frame::map_at(s, 5, setup.map.len());
            &&& map == setup.map
            &&& bits::window(s, at as int, setup.map.len()) == setup.half
            &&& frame::skip(s, at, setup.map.len()) == frame_head(setup, same).len()
        }),
{
    let head = frame_head(setup, same);
    let a0 = seq![true, true, true, true];
    let a3 = if same {
        Seq::empty()
    } else {
        assigned(setup.map, setup.map.len())
    };
    bits::lemma_holds_concat(s, 0, a0 + seq![true] + seq![same] + a3, setup.half);
    bits::lemma_holds_concat(s, 0, a0 + seq![true] + seq![same], a3);
    bits::lemma_holds_concat(s, 0, a0 + seq![true], seq![same]);
    bits::lemma_holds_concat(s, 0, a0, seq![true]);
    let t = s.subrange(0, 5);
    assert forall|k: int| 0 <= k < 5 implies #[trigger] frame::bit_at(s, k as nat) && frame::skip(
        s,
        k as nat,
        1,
    ) == k + 1 by {
        assert(s.subrange(0, 4) == a0);
        assert(s.subrange(0, 4)[if k < 4 {
            k
        } else {
            0
        }]);
        assert(s.subrange(4, 5)[0]);
        assert(s[k]);
    }
    assert(frame::bit_at(s, 0 as nat) && frame::bit_at(s, 1 as nat) && frame::bit_at(s, 2 as nat)
        && frame::bit_at(s, 3 as nat) && frame::bit_at(s, 4 as nat));
    lossless::lemma_flag(s, 5, same);
    let n = setup.map.len();
    if same {
        assert(setup.map =~= Seq::new(n, |ch: int| 0nat));
    } else {
        assert(setup.map.take(1) =~= seq![0nat]);
        assert(seq![0nat].drop_last() =~= Seq::<nat>::empty());
        assert(frame::table_total(seq![0nat].drop_last()) == 1);
        assert(frame::table_total(setup.map.take(1)) == 1);
        lemma_assigned_reads_back(s, 6, setup.map, 1);
    }
    bits::lemma_holds_window(s, 6 + a3.len(), setup.half);
}

/// The filters and tables of a setup can be written down.
pub open spec fn writable_setup(setup: Setup) -> bool {
    &&& forall|f: int, k: int|
        0 <= f < setup.filters.len() && 0 <= k < setup.filters[f].len() ==> -256
            <= #[trigger] setup.filters[f][k] <= 255
    &&& forall|f: int|
        0 <= f < setup.tables.len() && (#[trigger] setup.tables[f]).len() == 1
            ==> setup.tables[f][0] == 128
    &&& setup.filters.len() == frame::table_total(setup.map)
}

/// The filters and tables of a frame are read back.
proof fn lemma_any_tables(setup: Setup, s: Seq<bool>, p4: nat, frame_len_bits: nat, flag: bool)
    requires
        sound_setup(setup, setup.map.len()),
        writable_setup(setup),
        bits::holds(s, p4, frame::filters_code(setup.filters, setup.filters.len())),
        ({
            let p5 = p4 + frame::filters_code(setup.filters, setup.filters.len()).len();
            let p6 = p5 + frame::ptables_code(setup.tables, setup.tables.len()).len();
            &&& bits::holds(s, p5, frame::ptables_code(setup.tables, setup.tables.len()))
            &&& bits::holds(s, p6, seq![flag])
        }),
    ensures
        ({
            let p5 = p4 + frame::filters_code(setup.filters, setup.filters.len()).len();
            let p6 = p5 + frame::ptables_code(setup.tables, setup.tables.len()).len();
            frame::tables_decoded(s, p4, setup.map, setup.half, frame_len_bits) == (if flag {
                Decoded::Refused("validation bit must be 0"@)
            } else {
                frame::unfolded(s, p6 + 1, setup, frame_len_bits)
            })
        }),
{
    let nf = setup.filters.len();
    let p5 = p4 + frame::filters_code(setup.filters, nf).len();
    let p6 = p5 + frame::ptables_code(setup.tables, nf).len();
    lossless::lemma_flag(s, p6, flag);
    assert forall|f: int| 0 <= f < nf implies 1 <= (#[trigger] setup.filters[f]).len() <= 128
        && fir::nine_bit(setup.filters[f]) by {
        assert forall|k: int| 0 <= k < setup.filters[f].len() implies -256
            <= #[trigger] setup.filters[f][k] <= 255 by {
        }
    }
    lossless::lemma_filters_round_trip(s, p4, setup.filters, nf);
    assert(setup.filters.take(nf as int) =~= setup.filters);
    lemma_tables_are_stored(setup);
    lossless::lemma_ptables_round_trip(s, p5, setup.tables, nf);
    assert(lossless::all_stored(setup.tables).take(nf as int) =~= setup.tables);
}

/// Tables that can be written down are stored as they are.
proof fn lemma_tables_are_stored(setup: Setup)
    requires
        sound_setup(setup, setup.map.len()),
        writable_setup(setup),
    ensures
        forall|f: int|
            0 <= f < setup.tables.len() ==> frame::probabilities(#[trigger] setup.tables[f]),
        lossless::all_stored(setup.tables) == setup.tables,
{
    assert forall|f: int| 0 <= f < setup.tables.len() implies frame::probabilities(
        #[trigger] setup.tables[f],
    ) && frame::stored(setup.tables[f]) == setup.tables[f] by {
        assert(1 <= setup.tables[f].len() <= 64);
        assert forall|k: int| 0 <= k < setup.tables[f].len() implies 1
            <= #[trigger] setup.tables[f][k] <= 128 by {
        }
        if setup.tables[f].len() == 1 {
            assert(setup.tables[f] =~= seq![128u8]);
        }
    }
    assert(lossless::all_stored(setup.tables) =~= setup.tables);
}

/// Any frame decodes to the channels that its symbols code: with filters and tables for all
/// channels together, for each channel, or for some of them together, with a flag of its own
/// for each channel, and for any number of channels, filters and bits.
pub proof fn law_any_frame_decodes(
    setup: Setup,
    same: bool,
    channels: Seq<Seq<bool>>,
    frame_len_bits: nat,
    s: Seq<bool>,
)
    requires
        sound_setup(setup, channels.len()),
        channels.len() <= 0x7fff_ffff,
        forall|ch: int|
            0 <= ch < channels.len() ==> (#[trigger] channels[ch]).len() == frame_len_bits,
        writable_setup(setup),
        in_order(setup.map),
        same ==> forall|ch: int| 0 <= ch < setup.map.len() ==> #[trigger] setup.map[ch] == 0,
        bits::holds(s, 0, any_frame(setup, same, channels, frame_len_bits)),
    ensures
        frame::decoded(s, channels.len(), frame_len_bits) == Decoded::Channels(
            channels.map_values(|c: Seq<bool>| bits::pack(c)),
        ),
{
    let head = frame_head(setup, same);
    let nf = setup.filters.len();
    let a3 = frame::filters_code(setup.filters, nf);
    let a4 = frame::ptables_code(setup.tables, nf);
    let symbols = coded_symbols(setup, channels, frame_len_bits);
    let code = arithmetic::codeword(arithmetic::encode_all(symbols));
    bits::lemma_holds_concat(s, 0, head + a3 + a4 + seq![false], code);
    bits::lemma_holds_concat(s, 0, head + a3 + a4, seq![false]);
    bits::lemma_holds_concat(s, 0, head + a3, a4);
    bits::lemma_holds_concat(s, 0, head, a3);
    lemma_any_head(setup, same, s);
    lemma_any_tables(setup, s, head.len(), frame_len_bits, false);
    law_residuals_decode(
        setup,
        channels,
        frame_len_bits,
        s,
        head.len() + a3.len() + a4.len() + 1,
    );
}

/// A frame whose bit behind the tables is one is refused, whatever follows.
pub proof fn law_validation_bit(setup: Setup, same: bool, frame_len_bits: nat, s: Seq<bool>)
    requires
        sound_setup(setup, setup.map.len()),
        setup.map.len() <= 0x7fff_ffff,
        writable_setup(setup),
        in_order(setup.map),
        same ==> forall|ch: int| 0 <= ch < setup.map.len() ==> #[trigger] setup.map[ch] == 0,
        bits::holds(
            s,
            0,
            frame_head(setup, same) + frame::filters_code(setup.filters, setup.filters.len())
                + frame::ptables_code(setup.tables, setup.tables.len()) + seq![true],
        ),
    ensures
        frame::decoded(s, setup.map.len(), frame_len_bits) == Decoded::Refused(
            "validation bit must be 0"@,
        ),
{
    let head = frame_head(setup, same);
    let nf = setup.filters.len();
    let a3 = frame::filters_code(setup.filters, nf);
    let a4 = frame::ptables_code(setup.tables, nf);
    bits::lemma_holds_concat(s, 0, head + a3 + a4, seq![true]);
    bits::lemma_holds_concat(s, 0, head + a3, a4);
    bits::lemma_holds_concat(s, 0, head, a3);
    lemma_any_head(setup, same, s);
    lemma_any_tables(setup, s, head.len(), frame_len_bits, true);
}

/// A frame of a form that is not decoded is refused, at the first flag that says so.
pub proof fn law_other_frames_are_refused(s: Seq<bool>, n_channels: nat, frame_len_bits: nat)
    requires
        s.len() >= 5,
        s[0],
    ensures
        ({
            let d = frame::decoded(s, n_channels, frame_len_bits);
            &&& !s[1] ==> d == Decoded::Refused("only PSameSegAsF=1 supported"@)
            &&& s[1] && !s[2] ==> d == Decoded::Refused("only SameSegAllCh=1 supported"@)
            &&& s[1] && s[2] && !s[3] ==> d == Decoded::Refused("only 1 segment supported"@)
            &&& s[1] && s[2] && s[3] && !s[4] ==> d == Decoded::Refused(
                "only PSameMapAsF=1 supported"@,
            )
        }),
{
    assert(frame::bit_at(s, 0) == s[0]);
    assert(frame::bit_at(s, 1) == s[1]);
    assert(frame::bit_at(s, 2) == s[2]);
    assert(frame::bit_at(s, 3) == s[3]);
    assert(frame::bit_at(s, 4) == s[4]);
}

} // verus!

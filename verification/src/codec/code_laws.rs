//! The bits of a coded frame, digit by digit.

use vstd::arithmetic::div_mod::*;
use vstd::arithmetic::power2::*;
use vstd::prelude::*;

use crate::codec::arithmetic;
use crate::codec::bits;
use crate::codec::coded_table;
use crate::codec::constants::TableType;
use crate::codec::frame;
use crate::codec::lossless;
use crate::codec::rice;

verus! {

// ---------------------------------------------------------------------------
// Numbers and packed bits
// ---------------------------------------------------------------------------

/// A number is written with its highest digit first, and reads back as what so many digits
/// keep of it. Any digits stand for one number only.
pub proof fn law_numbers_are_digits(v: nat, n: nat, k: int, s: Seq<bool>)
    requires
        0 <= k < n,
    ensures
        bits::binary(v, n).len() == n,
        bits::binary(v, n)[k] == ((v / pow2((n - 1 - k) as nat)) % 2 == 1),
        bits::value(bits::binary(v, n)) == v % pow2(n),
        bits::value(s) < pow2(s.len()),
        bits::binary(bits::value(s), s.len()) == s,
{
    bits::lemma_binary_len(v, n);
    bits::lemma_binary_index(v, n, k);
    bits::lemma_value_binary(v, n);
    bits::lemma_value_bound(s);
    bits::lemma_binary_value(s);
}

/// Bytes hold their bits with the highest one first, and packed bits come back in their
/// places, with zeros behind them up to the next whole byte.
pub proof fn law_bytes_hold_bits(data: Seq<u8>, s: Seq<bool>, i: int)
    ensures
        bits::unpack(data).len() == 8 * data.len(),
        0 <= i < 8 * data.len() ==> bits::unpack(data)[i] == ((data[i / 8] as nat / pow2(
            (7 - i % 8) as nat,
        )) % 2 == 1),
        s.len() <= 8 * bits::pack(s).len() < s.len() + 8,
        0 <= i < 8 * bits::pack(s).len() ==> bits::unpack(bits::pack(s))[i] == (i < s.len()
            && s[i]),
        bits::pack(bits::unpack(data)) == data,
{
    if 0 <= i < 8 * data.len() {
        bits::lemma_binary_index(data[i / 8] as nat, 8, i % 8);
    }
    bits::lemma_unpack_pack(s);
    bits::lemma_pack_unpack(data);
}

/// Reading goes on by the bits that were read and stops at the end; behind the end stand
/// zeros.
pub proof fn law_reading_goes_on(s: Seq<bool>, pos: nat, n: nat, i: int)
    requires
        pos <= s.len(),
        0 <= i < n,
    ensures
        pos + n <= s.len() ==> bits::advance(s.len(), pos, n) == pos + n,
        pos + n > s.len() ==> bits::advance(s.len(), pos, n) == s.len(),
        bits::window(s, pos as int, n).len() == n,
        pos + i < s.len() ==> bits::window(s, pos as int, n)[i] == s[pos + i],
        pos + i >= s.len() ==> !bits::window(s, pos as int, n)[i],
{
}

// ---------------------------------------------------------------------------
// Tables
// ---------------------------------------------------------------------------

/// A Rice code is the size of the number divided by a power of two as that many zeros and a
/// one, then the digits of the remainder, then a sign unless the number is zero.
pub proof fn law_rice_code_bits(v: int, m: nat, i: int)
    ensures
        ({
            let size = if v < 0 {
                (-v) as nat
            } else {
                v as nat
            };
            let q = (size / pow2(m)) as int;
            let code = rice::rice_code(v, m);
            &&& code.len() == q + 1 + m + (if v == 0 {
                0int
            } else {
                1int
            })
            &&& 0 <= i < q ==> !code[i]
            &&& code[q]
            &&& 0 <= i < m ==> code[q + 1 + i] == ((size / pow2((m - 1 - i) as nat)) % 2 == 1)
            &&& v != 0 ==> code.last() == (v < 0)
        }),
{
    let size = rice::magnitude(v);
    bits::lemma_binary_len(size, m);
    lemma_pow2_pos(m);
    lemma_div_pos_is_pos(size as int, pow2(m) as int);
    if 0 <= i < m {
        bits::lemma_binary_index(size, m, i);
    }
}

/// What is Rice coded for an entry of a table is its distance from a prediction. The methods
/// 0 and 1 predict the entry before and the line through the two before. Method 2 predicts
/// the parabola through the three before in a probability table, and in a filter
/// (9a + 5b - 6c) / 8 of the three before, rounded to the nearest number.
pub proof fn law_table_residuals(data: Seq<i32>, i: int, table_type: TableType)
    requires
        0 <= i < data.len(),
    ensures
        rice::order(0) == 1 && rice::order(1) == 2 && rice::order(2) == 3,
        i >= 1 ==> rice::residual(data, i, 0, table_type) == data[i] - data[i - 1],
        i >= 2 ==> rice::residual(data, i, 1, table_type) == data[i] - 2 * data[i - 1] + data[i
            - 2],
        i >= 3 && table_type is Ptable ==> rice::residual(data, i, 2, table_type) == data[i] - 3
            * data[i - 1] + 3 * data[i - 2] - data[i - 3],
        i >= 3 && table_type is Filter ==> {
            let x = -9 * data[i - 1] - 5 * data[i - 2] + 6 * data[i - 3];
            let r = rice::residual(data, i, 2, table_type) - data[i];
            -3 <= 8 * r - x <= 4
        },
{
    reveal_with_fuel(rice::partial_prediction, 4);
    if i >= 1 {
        lemma_tap(data, i, 0, table_type, 0, -8);
        lemma_tap(data, i, 1, table_type, 0, -16);
    }
    if i >= 2 {
        lemma_tap(data, i, 1, table_type, 1, 8);
    }
    if i >= 3 {
        match table_type {
            TableType::Filter => {
                lemma_tap(data, i, 2, table_type, 0, -9);
                lemma_tap(data, i, 2, table_type, 1, -5);
                lemma_tap(data, i, 2, table_type, 2, 6);
            },
            TableType::Ptable => {
                lemma_tap(data, i, 2, table_type, 0, -24);
                lemma_tap(data, i, 2, table_type, 1, 24);
                lemma_tap(data, i, 2, table_type, 2, -8);
            },
        }
    }
}

proof fn lemma_tap(data: Seq<i32>, i: int, method: int, table_type: TableType, tap: int, c: int)
    requires
        rice::tap_coef(table_type, method, tap) == c,
        0 <= tap < i <= data.len(),
    ensures
        rice::tap_coef(table_type, method, tap) * data[i - 1 - tap] == c * data[i - 1 - tap],
{
}

/// The codes of a table follow one another: each entry behind the first ones adds its code.
pub proof fn law_table_code_grows(
    data: Seq<i32>,
    method: int,
    m: nat,
    table_type: TableType,
    end: nat,
)
    requires
        0 <= method < 3,
        end < data.len(),
    ensures
        end <= method ==> rice::table_code(data, method, m, table_type, end).len() == 0,
        end == method + 1 ==> rice::table_code(data, method, m, table_type, end).len() == 0,
        end > method ==> rice::table_code(data, method, m, table_type, end + 1)
            == rice::table_code(data, method, m, table_type, end) + rice::rice_code(
            rice::residual(data, end as int, method, table_type),
            m,
        ),
{
}

/// Entries that stand for themselves: nine digits of a coefficient in two's complement, or
/// seven digits of a probability less one.
pub proof fn law_listed_entries(data: Seq<i32>, table_type: TableType, n: nat, k: int)
    requires
        0 <= k < n <= data.len(),
        table_type is Ptable ==> forall|i: int|
            0 <= i < data.len() ==> 1 <= #[trigger] data[i] <= 128,
    ensures
        ({
            let w = if table_type is Filter {
                9int
            } else {
                7int
            };
            let bitstring = coded_table::listing(data, table_type, n);
            let entry = bits::value(bitstring.subrange(k * w, k * w + w));
            &&& bitstring.len() == n * w
            &&& 0 <= k * w && k * w + w <= n * w
            &&& table_type is Filter ==> entry == data[k] as int % 512
            &&& table_type is Ptable ==> entry == data[k] - 1
        }),
    decreases n,
{
    let w = rice::entry_width(table_type) as int;
    let head = coded_table::listing(data, table_type, (n - 1) as nat);
    let last = coded_table::entry_code(data[n - 1] as int, table_type);
    let all = coded_table::listing(data, table_type, n);
    coded_table::lemma_listing_len(data, table_type, (n - 1) as nat);
    coded_table::lemma_entry_len(data[n - 1] as int, table_type);
    assert(n * w == (n - 1) * w + w) by (nonlinear_arith);
    assert(0 <= k * w && k * w + w <= n * w && (k < n - 1 ==> k * w + w <= (n - 1) * w))
        by (nonlinear_arith)
        requires
            0 <= k < n,
            w >= 0,
    ;
    lemma2_to64();
    if k < n - 1 {
        law_listed_entries(data, table_type, (n - 1) as nat, k);
        assert(all.subrange(k * w, k * w + w) =~= head.subrange(k * w, k * w + w));
    } else {
        assert(all.subrange(k * w, k * w + w) =~= last);
        match table_type {
            TableType::Filter => {
                let v = (data[k] as int % 512) as nat;
                bits::lemma_value_binary(v, 9);
                lemma_small_mod(v, 512);
            },
            TableType::Ptable => {
                bits::lemma_value_binary((data[k] - 1) as nat, 7);
                lemma_small_mod((data[k] - 1) as nat, 128);
            },
        }
    }
}

/// The Rice coded form of a table: a one, two digits of the method, the first entries, as
/// many as the method needs, three digits of the parameter, and the codes of the others. The
/// listed form: a zero and all entries.
pub proof fn law_forms_of_a_table(data: Seq<i32>, table_type: TableType, method: int, m: int)
    requires
        0 <= method < 3,
        0 <= m < 8,
        method + 1 < data.len(),
    ensures
        ({
            let w = if table_type is Filter {
                9int
            } else {
                7int
            };
            let first = (method + 1) * w;
            let form = coded_table::rice_form(data, table_type, method, m);
            let codes = rice::table_code(data, method, m as nat, table_type, data.len());
            &&& form[0]
            &&& bits::value(form.subrange(1, 3)) == method
            &&& form.subrange(3, 3 + first) == coded_table::listing(
                data,
                table_type,
                (method + 1) as nat,
            )
            &&& bits::value(form.subrange(3 + first, 6 + first)) == m
            &&& form.skip(6 + first) == codes
            &&& form.len() == 6 + first + codes.len()
        }),
        !coded_table::listed_form(data, table_type)[0],
        coded_table::listed_form(data, table_type).skip(1) == coded_table::listing(
            data,
            table_type,
            data.len(),
        ),
{
    let o = rice::order(method);
    assert(o == method + 1);
    let f1 = bits::binary(method as nat, 2);
    let f2 = coded_table::listing(data, table_type, o);
    let f3 = bits::binary(m as nat, 3);
    let codes = rice::table_code(data, method, m as nat, table_type, data.len());
    let form = coded_table::rice_form(data, table_type, method, m);
    bits::lemma_binary_len(method as nat, 2);
    bits::lemma_binary_len(m as nat, 3);
    coded_table::lemma_listing_len(data, table_type, o);
    bits::lemma_value_binary(method as nat, 2);
    bits::lemma_value_binary(m as nat, 3);
    lemma2_to64();
    lemma_small_mod(method as nat, 4);
    lemma_small_mod(m as nat, 8);
    let first = f2.len() as int;
    assert(form.subrange(1, 3) =~= f1);
    assert(form.subrange(3, 3 + first) =~= f2);
    assert(form.subrange(3 + first, 6 + first) =~= f3);
    assert(form.skip(6 + first) =~= codes);
    let listed = coded_table::listed_form(data, table_type);
    assert(listed.skip(1) =~= coded_table::listing(data, table_type, data.len()));
}

/// A table stands in a frame in its shortest form: no longer than listed, and no longer than
/// Rice coded with any method and any parameter up to 6 for a filter, up to 4 for a
/// probability table.
#[verifier::rlimit(40)]
pub proof fn law_tables_take_their_shortest_form(
    data: Seq<i32>,
    table_type: TableType,
    method: int,
    m: int,
)
    requires
        0 <= method < 3,
        0 <= m,
        table_type is Filter ==> m <= 6,
        table_type is Ptable ==> m <= 4,
        method + 1 < data.len(),
    ensures
        ({
            let code = coded_table::coded_table(data, table_type);
            &&& code.len() <= coded_table::listed_form(data, table_type).len()
            &&& code.len() <= coded_table::rice_form(data, table_type, method, m).len()
            &&& code == coded_table::listed_form(data, table_type) || exists|k: int, n: int|
                0 <= k < 3 && 0 <= n <= 6 && k + 1 < data.len() && code
                    == #[trigger] coded_table::rice_form(data, table_type, k, n)
        }),
{
    let (k, n) = coded_table::best(data, table_type);
    rice::lemma_best_exists(data, table_type);
    assert(rice::best_choice(data, table_type, k, n));
    assert(rice::candidate(data, table_type, method, m));
    rice::law_fewest_bits(data, table_type, k, n, method, m);
    law_forms_of_a_table(data, table_type, k, n);
    law_forms_of_a_table(data, table_type, method, m);
}

/// Rice methods and parameters that are tried for a table.
pub open spec fn tried(data: Seq<i32>, table_type: TableType, method: int, m: int) -> bool {
    &&& 0 <= method < 3
    &&& method + 1 < data.len()
    &&& 0 <= m
    &&& table_type is Filter ==> m <= 6
    &&& table_type is Ptable ==> m <= 4
}

/// Among forms of the same length a table is listed rather than Rice coded, and Rice coded
/// with the lower method, or with the lower parameter of one method.
pub proof fn law_first_of_the_shortest_forms(
    data: Seq<i32>,
    table_type: TableType,
    method: int,
    m: int,
)
    ensures
        ({
            let listed = coded_table::listed_form(data, table_type);
            (forall|k: int, n: int|
                tried(data, table_type, k, n) ==> (#[trigger] coded_table::rice_form(
                    data,
                    table_type,
                    k,
                    n,
                )).len() >= listed.len()) ==> coded_table::coded_table(data, table_type) == listed
        }),
        ({
            let form = coded_table::rice_form(data, table_type, method, m);
            &&& tried(data, table_type, method, m)
            &&& form.len() < coded_table::listed_form(data, table_type).len()
            &&& forall|k: int, n: int|
                tried(data, table_type, k, n) ==> {
                    let other = #[trigger] coded_table::rice_form(data, table_type, k, n);
                    &&& other.len() >= form.len()
                    &&& k < method || (k == method && n < m) ==> other.len() > form.len()
                }
        }) ==> coded_table::coded_table(data, table_type) == coded_table::rice_form(
            data,
            table_type,
            method,
            m,
        ),
{
    lemma_chosen_form(data, table_type, method, m);
}

/// The form that is chosen for a table, and how its length compares.
proof fn lemma_chosen_form(data: Seq<i32>, table_type: TableType, method: int, m: int)
    ensures
        ({
            let (k, n) = coded_table::best(data, table_type);
            let listed = coded_table::listed_form(data, table_type);
            let best = coded_table::rice_form(data, table_type, k, n);
            let form = coded_table::rice_form(data, table_type, method, m);
            &&& data.len() <= 1 ==> coded_table::coded_table(data, table_type) == listed
            &&& data.len() >= 2 ==> tried(data, table_type, k, n)
            &&& data.len() >= 2 && best.len() < listed.len() ==> coded_table::coded_table(
                data,
                table_type,
            ) == best
            &&& data.len() >= 2 && best.len() >= listed.len() ==> coded_table::coded_table(
                data,
                table_type,
            ) == listed
            &&& data.len() >= 2 && tried(data, table_type, method, m) ==> best.len() <= form.len()
            &&& data.len() >= 2 && tried(data, table_type, method, m) && (method < k || (method
                == k && m < n)) ==> best.len() < form.len()
        }),
{
    let (k, n) = coded_table::best(data, table_type);
    rice::lemma_best_exists(data, table_type);
    assert(rice::best_choice(data, table_type, k, n));
    rice::law_fewest_bits(data, table_type, k, n, method, m);
    coded_table::lemma_rice_form_len(data, table_type, k, n);
    coded_table::lemma_rice_form_len(data, table_type, method, m);
    if tried(data, table_type, method, m) {
        assert(rice::candidate(data, table_type, method, m));
    }
}

/// A table of fewer than two entries is listed.
pub proof fn law_short_tables_are_listed(data: Seq<i32>, table_type: TableType)
    requires
        data.len() <= 1,
    ensures
        coded_table::coded_table(data, table_type) == coded_table::listed_form(data, table_type),
{
    rice::lemma_best_exists(data, table_type);
    let (k, n) = coded_table::best(data, table_type);
    assert(rice::best_choice(data, table_type, k, n));
}

/// A table is read back from any of its forms, whichever is the shortest: listed, or Rice
/// coded with any method and any parameter of three bits.
pub proof fn law_any_form_reads_back(
    s: Seq<bool>,
    pos: nat,
    data: Seq<i32>,
    table_type: TableType,
    method: int,
    m: int,
)
    requires
        1 <= data.len() <= 128,
        forall|i: int|
            0 <= i < data.len() ==> match table_type {
                TableType::Filter => -256 <= #[trigger] data[i] <= 255,
                TableType::Ptable => 1 <= data[i] <= 128,
            },
    ensures
        bits::holds(s, pos, coded_table::listed_form(data, table_type))
            ==> coded_table::coded_table_at(s, pos, table_type, data.len()) == Some(
            (data, pos + coded_table::listed_form(data, table_type).len()),
        ),
        0 <= method < 3 && 0 <= m < 8 && method + 1 < data.len() && bits::holds(
            s,
            pos,
            coded_table::rice_form(data, table_type, method, m),
        ) ==> coded_table::coded_table_at(s, pos, table_type, data.len()) == Some(
            (data, pos + coded_table::rice_form(data, table_type, method, m).len()),
        ),
{
    assert forall|i: int| 0 <= i < data.len() implies coded_table::entry_valid(
        #[trigger] data[i] as int,
        table_type,
    ) by {
    }
    if 0 <= method < 3 && 0 <= m < 8 && method + 1 < data.len() && bits::holds(
        s,
        pos,
        coded_table::rice_form(data, table_type, method, m),
    ) {
        coded_table::lemma_rice_form_round_trip(s, pos, data, table_type, method, m);
    }
    let listing = coded_table::listing(data, table_type, data.len());
    if bits::holds(s, pos, coded_table::listed_form(data, table_type)) {
        bits::lemma_holds_concat(s, pos, seq![false], listing);
        bits::lemma_holds_window(s, pos, seq![false]);
        assert(!bits::window(s, pos as int, 1)[0]);
        coded_table::lemma_listing_len(data, table_type, data.len());
        coded_table::lemma_listing_round_trip(s, pos + 1, data, table_type, data.len());
        assert(data.take(data.len() as int) =~= data);
    }
}

/// There is no fourth Rice method: a table that asks for it cannot be read.
pub proof fn law_no_fourth_method(s: Seq<bool>, pos: nat, table_type: TableType, count: nat)
    requires
        bits::holds(s, pos, seq![true, true, true]),
    ensures
        coded_table::coded_table_at(s, pos, table_type, count) is None,
{
    assert(seq![true, true, true] =~= seq![true] + seq![true, true]);
    bits::lemma_holds_concat(s, pos, seq![true], seq![true, true]);
    bits::lemma_holds_window(s, pos, seq![true]);
    bits::lemma_holds_window(s, pos + 1, seq![true, true]);
    assert(bits::window(s, pos as int, 1)[0]);
    let w = seq![true, true];
    reveal_with_fuel(bits::value, 3);
    assert(w.drop_last() =~= seq![true]);
    assert(seq![true].drop_last() =~= Seq::<bool>::empty());
}

// ---------------------------------------------------------------------------
// The arithmetic coder
// ---------------------------------------------------------------------------

/// The part of a range that a probability takes: the probability times the range in units of
/// 256, where a half unit counts as one if the units are even.
pub open spec fn part_of_range(range: int, p: int) -> int {
    let units = range / 256;
    p * (if units % 2 == 0 {
        units + (range / 128) % 2
    } else {
        units
    })
}

proof fn lemma_part_of_range(range: u32, p: u32)
    requires
        2048 <= range < 4096,
        1 <= p <= 241,
    ensures
        arithmetic::approx(range, p) == part_of_range(range as int, p as int),
        0 < part_of_range(range as int, p as int) < range,
{
    let f = (range >> 8u32) | ((range >> 7u32) & 1);
    assert(f == (if (range / 256) % 2 == 0 {
        range / 256 + (range / 128) % 2
    } else {
        (range / 256) as int
    }) && 8 <= f <= 15) by (bit_vector)
        requires
            f == (range >> 8u32) | ((range >> 7u32) & 1),
            2048 <= range < 4096,
    ;
    assert(f * p == p * f && f * p <= 15 * 241) by (nonlinear_arith)
        requires
            8 <= f <= 15,
            1 <= p <= 241,
    ;
    arithmetic::lemma_probabilities_split(
        arithmetic::Interval { low: 0, range: range as nat, shifts: 0 },
        true,
        p,
    );
}

proof fn lemma_doubled(range: nat, n: nat)
    requires
        0 < range < 4096,
        2048 <= range * pow2(n) < 4096,
    ensures
        arithmetic::doublings(range) == n,
{
    arithmetic::lemma_doublings(range);
    let d = arithmetic::doublings(range);
    lemma_pow2_pos(d);
    lemma_pow2_pos(n);
    if d < n {
        lemma_pow2_strictly_increases(d, n);
        lemma_pow2_adds(d, (n - d) as nat);
        lemma_pow2_unfold((n - d) as nat);
        lemma_pow2_pos((n - d - 1) as nat);
        lemma_half_apart(range as int, pow2(d) as int, pow2(n) as int, pow2((n - d) as nat) as int);
    } else if n < d {
        lemma_pow2_adds(n, (d - n) as nat);
        lemma_pow2_unfold((d - n) as nat);
        lemma_pow2_pos((d - n - 1) as nat);
        lemma_half_apart(range as int, pow2(n) as int, pow2(d) as int, pow2((d - n) as nat) as int);
    }
}

proof fn lemma_half_apart(r: int, a: int, b: int, q: int)
    requires
        a * q == b,
        q >= 2,
        r > 0,
        a > 0,
    ensures
        2 * (r * a) <= r * b,
{
    assert(2 * (r * a) <= r * b) by (nonlinear_arith)
        requires
            a * q == b,
            q >= 2,
            r > 0,
            a > 0,
    ;
}

/// A symbol narrows the interval: a zero takes the upper part, as large as its probability
/// says, a one takes what is left below. The interval is then doubled until its range is at
/// least 2048 again.
pub proof fn law_symbol_narrows(s: arithmetic::Interval, bit: bool, p: u32, n: nat)
    requires
        arithmetic::reachable(s),
        1 <= p <= 241,
        ({
            let part = part_of_range(s.range as int, p as int);
            2048 <= (if bit {
                s.range - part
            } else {
                part
            }) * pow2(n) < 4096
        }),
    ensures
        ({
            let part = part_of_range(s.range as int, p as int);
            let t = arithmetic::encode_step(s, bit, p);
            &&& 0 < part < s.range
            &&& t.shifts == s.shifts + n
            &&& t.range == (if bit {
                s.range - part
            } else {
                part
            }) * pow2(n)
            &&& t.low == (if bit {
                s.low as int
            } else {
                s.low + s.range - part
            }) * pow2(n)
        }),
{
    lemma_part_of_range(s.range as u32, p);
    arithmetic::lemma_probabilities_split(s, bit, p);
    arithmetic::lemma_step_nests(s, bit, p);
    lemma_doubled(arithmetic::narrow(s, bit, p).range, n);
}

/// The interval starts at zero with range 4095, every symbol narrows it once, and the code is
/// its lower end in twelve digits more than it was doubled.
pub proof fn law_code_of_symbols(symbols: Seq<(bool, u32)>, bit: bool, p: u32)
    requires
        arithmetic::encodable(symbols),
    ensures
        arithmetic::encode_all(Seq::empty()) == (arithmetic::Interval {
            low: 0,
            range: 4095,
            shifts: 0,
        }),
        arithmetic::encode_all(symbols.push((bit, p))) == arithmetic::encode_step(
            arithmetic::encode_all(symbols),
            bit,
            p,
        ),
        ({
            let s = arithmetic::encode_all(symbols);
            let code = arithmetic::codeword(s);
            &&& 2048 <= s.range < 4096
            &&& code.len() == s.shifts + 12
            &&& bits::value(code) == s.low
        }),
{
    assert(symbols.push((bit, p)).drop_last() =~= symbols);
    let s = arithmetic::encode_all(symbols);
    arithmetic::lemma_reachable(symbols);
    bits::lemma_binary_len(s.low, s.shifts + 12);
    bits::lemma_value_binary(s.low, s.shifts + 12);
    lemma2_to64();
    lemma_pow2_adds(s.shifts, 12);
    lemma_pow2_pos(s.shifts);
    assert(s.low < pow2(s.shifts + 12)) by (nonlinear_arith)
        requires
            s.low + s.range <= 4095 * pow2(s.shifts),
            pow2(s.shifts) * 4096 == pow2(s.shifts + 12),
            pow2(s.shifts) > 0,
    ;
    lemma_small_mod(s.low, pow2(s.shifts + 12));
}

/// The decoder starts with twelve bits of the code and finds a one where the code lies in the
/// lower part of the range. It goes on with what is left of the code and of the range, doubled
/// until the range is at least 2048, with the next bits behind the code.
pub proof fn law_decoder_finds_a_symbol(
    coded: Seq<bool>,
    s: arithmetic::Decoding,
    p: u32,
    n: nat,
    pos: nat,
)
    requires
        2048 <= s.range < 4096,
        s.code < s.range,
        1 <= p <= 241,
        ({
            let part = part_of_range(s.range as int, p as int);
            2048 <= (if s.code < s.range - part {
                s.range - part
            } else {
                part
            }) * pow2(n) < 4096
        }),
    ensures
        ({
            let part = part_of_range(s.range as int, p as int);
            let one = s.code < s.range - part;
            let next = arithmetic::decode_step(coded, s, p);
            &&& arithmetic::decoded_bit(s, p) == one
            &&& arithmetic::decoded_range(s, p) != 0
            &&& next.range == (if one {
                s.range - part
            } else {
                part
            }) * pow2(n)
            &&& next.code == (if one {
                s.code as int
            } else {
                s.code - (s.range - part)
            }) * pow2(n) + bits::value(bits::window(coded, s.pos as int, n))
            &&& next.code < next.range
            &&& next.pos == bits::advance(coded.len(), s.pos, n)
        }),
        arithmetic::decode_start(coded, pos) == (arithmetic::Decoding {
            pos: bits::advance(coded.len(), pos, 12),
            range: 4095,
            code: bits::value(bits::window(coded, pos as int, 12)) as u32,
        }),
{
    lemma_part_of_range(s.range, p);
    let part = part_of_range(s.range as int, p as int);
    let one = s.code < s.range - part;
    let r = if one {
        s.range - part
    } else {
        part
    };
    let c = if one {
        s.code as int
    } else {
        s.code - (s.range - part)
    };
    lemma_doubled(r as nat, n);
    let w = bits::window(coded, s.pos as int, n);
    bits::lemma_value_bound(w);
    let q = pow2(n) as int;
    assert(0 <= c * q && c * q + q <= r * q) by (nonlinear_arith)
        requires
            0 <= c < r,
            q > 0,
    ;
    lemma_small_mod((c * q) as nat, 0x1_0000_0000);
}

// ---------------------------------------------------------------------------
// The header of a frame
// ---------------------------------------------------------------------------

/// A number has as many digits as it takes to write it, none for zero.
pub proof fn law_bit_len(x: nat)
    ensures
        x == 0 ==> frame::bit_len(x) == 0,
        x > 0 ==> frame::bit_len(x) >= 1 && pow2((frame::bit_len(x) - 1) as nat) <= x < pow2(
            frame::bit_len(x),
        ),
    decreases x,
{
    lemma2_to64();
    if x > 0 {
        law_bit_len(x / 2);
        lemma_pow2_unfold(frame::bit_len(x));
        if x / 2 > 0 {
            lemma_pow2_unfold((frame::bit_len(x) - 1) as nat);
        }
    }
}

/// The probability of the extra symbol, less one, has the low seven digits of the first
/// coefficient in reverse.
pub proof fn law_extra_symbol(coef: i16, i: int)
    requires
        0 <= i < 7,
    ensures
        ({
            let p = (frame::x_probability(coef) - 1) as nat;
            let low = (coef as int % 128) as nat;
            &&& 1 <= frame::x_probability(coef) <= 128
            &&& (p / pow2(i as nat)) % 2 == (low / pow2((6 - i) as nat)) % 2
        }),
{
    let low = (coef as int % 128) as nat;
    let digits = frame::reversed7(low);
    let p = bits::value(digits);
    frame::lemma_x_probability(coef);
    bits::lemma_binary_len(low, 7);
    bits::lemma_value_bound(digits);
    lemma2_to64();
    bits::lemma_binary_value(digits);
    bits::lemma_binary_index(p, 7, 6 - i);
    bits::lemma_binary_index(low, 7, i);
    assert(digits[6 - i] == bits::binary(low, 7)[i]);
    lemma_pow2_pos(i as nat);
    lemma_pow2_pos((6 - i) as nat);
    lemma_div_pos_is_pos(p as int, pow2(i as nat) as int);
    lemma_div_pos_is_pos(low as int, pow2((6 - i) as nat) as int);
}

/// The mapping data: a one, whether all channels share, for a filter of their own the number
/// of each channel from the second one on in as many digits as it has, and a flag for each
/// channel.
pub proof fn law_mapping_bits(n: nat, half_prob: bool, i: int)
    requires
        n >= 1,
    ensures
        ({
            let shared = frame::mapping_code(n, true, half_prob);
            &&& shared.len() == 2 + n
            &&& shared[0] && shared[1]
            &&& 0 <= i < n ==> shared[2 + i] == half_prob
        }),
        frame::mapping_code(1, false, half_prob) == seq![true, false, half_prob],
        ({
            let own = frame::mapping_code(n, false, half_prob);
            let next = frame::mapping_code(n + 1, false, half_prob);
            let numbers = own.len() - n;
            let digits = frame::bit_len(n);
            &&& numbers >= 2
            &&& next.len() == numbers + digits + n + 1
            &&& next.take(numbers) == own.take(numbers)
            &&& bits::value(next.subrange(numbers, numbers + digits)) == n
            &&& 0 <= i <= n ==> next[numbers + digits + i] == half_prob
        }),
{
    let own = frame::mapping_code(n, false, half_prob);
    let next = frame::mapping_code(n + 1, false, half_prob);
    let numbers = own.len() - n;
    let digits = frame::bit_len(n);
    frame::lemma_bit_len_covers(n);
    bits::lemma_binary_len(n, digits);
    bits::lemma_value_binary(n, digits);
    lemma_small_mod(n, pow2(digits));
    assert(frame::assignments(n + 1) == frame::assignments(n) + bits::binary(n, digits));
    assert(frame::mapping_code(1, false, half_prob) =~= seq![true, false, half_prob]);
    assert(next.take(numbers) =~= own.take(numbers));
    assert(next.subrange(numbers, numbers + digits) =~= bits::binary(n, digits));
}

/// The head of a set of coefficients is its length less one in seven digits, that of a
/// probability table its length less one in six. A probability table of one entry has
/// nothing else.
pub proof fn law_heads_of_tables(coefs: Seq<i16>, table: Seq<u8>)
    requires
        1 <= coefs.len() <= 128,
        1 <= table.len() <= 64,
    ensures
        ({
            let code = frame::filter_code(coefs);
            &&& code.len() >= 7
            &&& bits::value(code.take(7)) == coefs.len() - 1
            &&& code.skip(7) == coded_table::coded_table(
                coefs.map_values(|c: i16| c as i32),
                TableType::Filter,
            )
        }),
        ({
            let code = frame::ptable_code(table);
            &&& code.len() >= 6
            &&& bits::value(code.take(6)) == table.len() - 1
            &&& table.len() == 1 ==> code.len() == 6
            &&& table.len() > 1 ==> code.skip(6) == coded_table::coded_table(
                table.map_values(|e: u8| e as i32),
                TableType::Ptable,
            )
        }),
{
    lemma2_to64();
    let a = (coefs.len() - 1) as nat;
    let b = (table.len() - 1) as nat;
    bits::lemma_binary_len(a, 7);
    bits::lemma_value_binary(a, 7);
    lemma_small_mod(a, 128);
    bits::lemma_binary_len(b, 6);
    bits::lemma_value_binary(b, 6);
    lemma_small_mod(b, 64);
    assert(frame::filter_code(coefs).take(7) =~= bits::binary(a, 7));
    assert(frame::ptable_code(table).take(6) =~= bits::binary(b, 6));
    assert(frame::filter_code(coefs).skip(7) =~= coded_table::coded_table(
        frame::widen16(coefs),
        TableType::Filter,
    ));
    assert(frame::widen16(coefs) =~= coefs.map_values(|c: i16| c as i32));
    if table.len() > 1 {
        assert(frame::ptable_code(table).skip(6) =~= coded_table::coded_table(
            frame::widen8(table),
            TableType::Ptable,
        ));
        assert(frame::widen8(table) =~= table.map_values(|e: u8| e as i32));
    }
}

/// The sets of coefficients follow one another, and so do the probability tables.
pub proof fn law_tables_follow(coefs: Seq<Seq<i16>>, tables: Seq<Seq<u8>>, n: nat)
    ensures
        frame::filters_code(coefs, 0).len() == 0,
        frame::ptables_code(tables, 0).len() == 0,
        n < coefs.len() ==> frame::filters_code(coefs, n + 1) == frame::filters_code(coefs, n)
            + frame::filter_code(coefs[n as int]),
        n < tables.len() ==> frame::ptables_code(tables, n + 1) == frame::ptables_code(tables, n)
            + frame::ptable_code(tables[n as int]),
{
}

/// A frame is four ones, the mapping data, the filters, the probability tables, a zero, and
/// the code of its symbols, the first of which is the extra one.
pub proof fn law_parts_of_a_frame(plan: frame::FramePlan, frame_len_bits: nat)
    requires
        plan.wf(frame_len_bits),
    ensures
        ({
            let symbols = plan.symbols(frame_len_bits);
            &&& plan.frame(frame_len_bits) == seq![true, true, true, true] + frame::mapping_code(
                plan.channels.len(),
                plan.share_filters,
                plan.half_prob,
            ) + frame::filters_code(plan.coefs, plan.coefs.len()) + frame::ptables_code(
                plan.tables,
                plan.tables.len(),
            ) + seq![false] + arithmetic::codeword(arithmetic::encode_all(symbols))
            &&& symbols[0] == (false, frame::x_probability(plan.coefs[0][0]))
        }),
{
    let symbols = plan.symbols(frame_len_bits);
    let whole = seq![true, true, true, true] + frame::mapping_code(
        plan.channels.len(),
        plan.share_filters,
        plan.half_prob,
    ) + frame::filters_code(plan.coefs, plan.coefs.len()) + frame::ptables_code(
        plan.tables,
        plan.tables.len(),
    ) + seq![false] + arithmetic::codeword(arithmetic::encode_all(symbols));
    assert(plan.frame(frame_len_bits) =~= whole);
}

/// The bytes of a frame that is not coded, behind the first byte, are those of the channels
/// in turn; what is missing behind the end of the frame is zero.
pub proof fn law_raw_frame_bytes(
    data: Seq<u8>,
    n_channels: nat,
    frame_len_bits: nat,
    ch: int,
    b: int,
)
    requires
        0 < data.len(),
        8 * data.len() <= usize::MAX,
        data[0] < 128,
        0 <= ch < n_channels,
        0 <= b,
        8 * b < frame_len_bits,
    ensures
        frame::frame_decoded(data, n_channels, frame_len_bits) is Channels,
        ({
            let channels = frame::frame_decoded(data, n_channels, frame_len_bits)->Channels_0;
            let at = 1 + b * n_channels + ch;
            &&& channels.len() == n_channels
            &&& channels[ch].len() == (frame_len_bits + 7) / 8
            &&& channels[ch][b] == (if at < data.len() {
                data[at]
            } else {
                0
            })
        }),
{
    let s = bits::unpack(data);
    let at = 1 + b * n_channels + ch;
    assert(b * n_channels >= 0) by (nonlinear_arith)
        requires
            b >= 0,
            n_channels >= 0,
    ;
    lossless::lemma_window_of_byte(data, 0);
    bits::lemma_first_bit(bits::window(s, 0, 8));
    assert(bits::window(s, 0, 1)[0] == bits::window(s, 0, 8)[0]);
    lemma2_to64();
    assert(!frame::bit_at(s, 0));
    if at < data.len() {
        lossless::lemma_window_of_byte(data, at);
    } else {
        let w = bits::window(s, 8 * at, 8);
        assert(w =~= bits::run(false, 8));
        bits::lemma_value_binary(0, 8);
        bits::lemma_binary_len(0, 8);
        assert forall|k: int| 0 <= k < 8 implies !bits::binary(0, 8)[k] by {
            bits::lemma_binary_index(0, 8, k);
            lemma_pow2_pos((7 - k) as nat);
            lemma_basic_div(0, pow2((7 - k) as nat) as int);
        }
        assert(w =~= bits::binary(0, 8));
        lemma_small_mod(0, 256);
    }
}

/// A frame without bytes decodes to zeros.
pub proof fn law_empty_frame(n_channels: nat, frame_len_bits: nat, ch: int, b: int)
    requires
        0 <= ch < n_channels,
        0 <= b,
        8 * b < frame_len_bits,
    ensures
        frame::frame_decoded(
            Seq::empty(),
            n_channels,
            frame_len_bits,
        ) matches frame::Decoded::Channels(channels) && channels.len() == n_channels
            && channels[ch].len() == (frame_len_bits + 7) / 8 && channels[ch][b] == 0,
{
    let s = bits::unpack(Seq::<u8>::empty());
    let at = 8 + 8 * (b * n_channels + ch);
    assert(b * n_channels >= 0) by (nonlinear_arith)
        requires
            b >= 0,
    ;
    let w = bits::window(s, at, 8);
    assert forall|k: int| 0 <= k < 8 implies w[k] == bits::binary(0, 8)[k] by {
        bits::lemma_binary_index(0, 8, k);
        lemma_pow2_pos((7 - k) as nat);
        lemma_basic_div(0, pow2((7 - k) as nat) as int);
    }
    bits::lemma_binary_len(0, 8);
    assert(w =~= bits::binary(0, 8));
    lemma2_to64();
    bits::lemma_value_binary(0, 8);
    lemma_small_mod(0, 256);
}

/// Interleaved bytes: the bytes of the channels at a position stand side by side.
pub proof fn law_interleaved_bytes(channels: Seq<Seq<u8>>, n_bytes: nat, ch: int, i: int)
    requires
        0 <= ch < channels.len(),
        0 <= i < n_bytes,
    ensures
        frame::interleaved(channels, n_bytes).len() == channels.len() * n_bytes,
        0 <= i * channels.len() + ch < channels.len() * n_bytes,
        frame::interleaved(channels, n_bytes)[i * channels.len() + ch] == channels[ch][i],
{
    let n = channels.len() as int;
    assert(0 <= i * n + ch < n * n_bytes) by (nonlinear_arith)
        requires
            0 <= i < n_bytes,
            0 <= ch < n,
    ;
    lemma_fundamental_div_mod_converse(i * n + ch, n, i, ch);
}

} // verus!

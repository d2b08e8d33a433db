//! What stands in every DSDIFF file that is written, said of its bytes.

use vstd::arithmetic::power::*;
use vstd::prelude::*;

use crate::codec::code_laws;
use crate::codec::frame;
use crate::format::dsdiff::chunk;
use crate::format::dsdiff::chunk::{CHNL, CMPR, DSD, DST, DSTC, DSTF, FRM8, FRTE, FS, FVER, PROP};
use crate::format::dsdiff::dsd;
use crate::format::dsdiff::dst;
use crate::format::dsdiff::laws::chunks;
use crate::format::dsdiff::prop;
use crate::format::endian;
use crate::format::text;

verus! {

// ---------------------------------------------------------------------------
// The properties
// ---------------------------------------------------------------------------

/// The PROP chunk of a written file: the form type, the sample rate, the channels with their
/// IDs, and the compression with its name and the length of that.
pub proof fn law_prop_of_a_file(
    sample_rate: u32,
    n_channels: nat,
    coding_id: Seq<u8>,
    coding_name: Seq<u8>,
)
    requires
        coding_name.len() < 256,
    ensures
        prop::prop_data(sample_rate, n_channels, coding_id, coding_name) == seq![83u8, 78, 68, 32]
            + chunks(
            seq![
                (FS@, endian::be(sample_rate as nat, 4)),
                (CHNL@, endian::be(n_channels, 2) + prop::channel_ids(n_channels, n_channels)),
                (CMPR@, coding_id + seq![coding_name.len() as u8] + coding_name),
            ],
            3,
        ),
{
    reveal(prop::prop_data);
    reveal_with_fuel(chunks, 4);
    assert(chunk::SND@ =~= seq![83u8, 78, 68, 32]);
    vstd::arithmetic::div_mod::lemma_small_mod(coding_name.len(), 256);
    let subs = seq![
        (FS@, endian::be(sample_rate as nat, 4)),
        (CHNL@, endian::be(n_channels, 2) + prop::channel_ids(n_channels, n_channels)),
        (CMPR@, coding_id + seq![coding_name.len() as u8] + coding_name),
    ];
    let c = chunks(subs, 3);
    assert(c =~= chunk::chunk(subs[0].0, subs[0].1) + chunk::chunk(subs[1].0, subs[1].1)
        + chunk::chunk(subs[2].0, subs[2].1));
    assert(prop::prop_data(sample_rate, n_channels, coding_id, coding_name) =~= seq![
        83u8,
        78,
        68,
        32,
    ] + c);
}

/// The ID of channel `i`, in four letters: left and right of a pair, the places of up to six
/// channels, and `C` with a number of three digits among more.
pub proof fn law_channel_ids(n_channels: nat, i: int)
    requires
        0 <= i < n_channels,
    ensures
        ({
            let ids = prop::channel_ids(n_channels, n_channels);
            let id = ids.subrange(4 * i, 4 * i + 4);
            &&& ids.len() == 4 * n_channels
            &&& n_channels == 2 && i == 0 ==> id == seq![83u8, 76, 70, 84]
            &&& n_channels == 2 && i == 1 ==> id == seq![83u8, 82, 71, 84]
            &&& n_channels != 2 && n_channels <= 6 && i == 0 ==> id == seq![77u8, 76, 70, 84]
            &&& n_channels != 2 && n_channels <= 6 && i == 1 ==> id == seq![77u8, 82, 71, 84]
            &&& n_channels <= 6 && i == 2 ==> id == seq![67u8, 32, 32, 32]
            &&& n_channels <= 6 && i == 3 ==> id == seq![76u8, 70, 69, 32]
            &&& n_channels <= 6 && i == 4 ==> id == seq![76u8, 83, 32, 32]
            &&& n_channels <= 6 && i == 5 ==> id == seq![82u8, 83, 32, 32]
            &&& n_channels > 6 && i < 1000 ==> id[0] == 67 && 48 <= id[1] <= 57 && 48 <= id[2] <= 57
                && 48 <= id[3] <= 57 && 100 * (id[1] - 48) + 10 * (id[2] - 48) + (id[3] - 48) == i
        }),
{
    prop::lemma_channel_ids_len(n_channels, n_channels);
    lemma_channel_id_at(n_channels, i as nat, n_channels);
    let ids = prop::channel_ids(n_channels, n_channels);
    let id = ids.subrange(4 * i, 4 * i + 4);
    assert(id == prop::channel_id(n_channels, i as nat));
    if n_channels <= 6 {
        let (a, b) = (prop::STEREO_CHANNEL_IDS, prop::MULTI_CHANNEL_IDS);
        assert(a[0]@ =~= seq![83u8, 76, 70, 84]);
        assert(a[1]@ =~= seq![83u8, 82, 71, 84]);
        assert(b[0]@ =~= seq![77u8, 76, 70, 84]);
        assert(b[1]@ =~= seq![77u8, 82, 71, 84]);
        assert(b[2]@ =~= seq![67u8, 32, 32, 32]);
        assert(b[3]@ =~= seq![76u8, 70, 69, 32]);
        assert(b[4]@ =~= seq![76u8, 83, 32, 32]);
        assert(b[5]@ =~= seq![82u8, 83, 32, 32]);
    }
}

proof fn lemma_channel_id_at(n_channels: nat, i: nat, n: nat)
    requires
        i < n,
    ensures
        prop::channel_ids(n_channels, n).len() == 4 * n,
        prop::channel_ids(n_channels, n).subrange(4 * i as int, 4 * i as int + 4)
            == prop::channel_id(n_channels, i),
    decreases n,
{
    prop::lemma_channel_ids_len(n_channels, (n - 1) as nat);
    prop::lemma_channel_ids_len(n_channels, n);
    let all = prop::channel_ids(n_channels, n);
    let head = prop::channel_ids(n_channels, (n - 1) as nat);
    let part = all.subrange(4 * i as int, 4 * i as int + 4);
    if i < n - 1 {
        lemma_channel_id_at(n_channels, i, (n - 1) as nat);
        assert(part =~= head.subrange(4 * i as int, 4 * i as int + 4));
    } else {
        assert(part =~= prop::channel_id(n_channels, i));
    }
}

/// A written file: the form with the size of what follows, the version, the properties, and
/// the data with their size.
pub proof fn law_parts_of_a_dsd_file(
    form_size: nat,
    sample_rate: u32,
    n_channels: nat,
    data_size: nat,
    data: Seq<u8>,
)
    ensures
        dsd::dsd_file(form_size, sample_rate, n_channels, data_size, data) == FRM8@ + endian::be(
            form_size,
            8,
        ) + DSD@ + chunks(
            seq![
                (FVER@, seq![1u8, 5, 0, 0]),
                (PROP@, prop::prop_data(sample_rate, n_channels, DSD@, dsd::DSD_NAME@)),
            ],
            2,
        ) + DSD@ + endian::be(data_size, 8) + data,
{
    lemma_form(form_size, sample_rate, n_channels, DSD@, dsd::DSD_NAME@);
}

proof fn lemma_form(
    form_size: nat,
    sample_rate: u32,
    n_channels: nat,
    coding_id: Seq<u8>,
    coding_name: Seq<u8>,
)
    ensures
        dsd::form_start(form_size, sample_rate, n_channels, coding_id, coding_name) == FRM8@
            + endian::be(form_size, 8) + DSD@ + chunks(
            seq![
                (FVER@, seq![1u8, 5, 0, 0]),
                (PROP@, prop::prop_data(sample_rate, n_channels, coding_id, coding_name)),
            ],
            2,
        ),
{
    reveal(dsd::form_rest);
    reveal_with_fuel(chunks, 3);
    reveal_with_fuel(endian::be, 5);
    let data = prop::prop_data(sample_rate, n_channels, coding_id, coding_name);
    let subs = seq![(FVER@, seq![1u8, 5, 0, 0]), (PROP@, data)];
    assert(endian::be(0x0105_0000, 4) =~= seq![1u8, 5, 0, 0]);
    assert(chunks(subs, 2) =~= chunk::chunk(subs[0].0, subs[0].1) + chunk::chunk(
        subs[1].0,
        subs[1].1,
    ));
    assert(dsd::form_start(form_size, sample_rate, n_channels, coding_id, coding_name) =~= FRM8@
        + endian::be(form_size, 8) + DSD@ + chunks(subs, 2));
}

/// A written DST-compressed file: the form, the version, the properties, the DST chunk with
/// its size, and the index, which follows it.
pub proof fn law_parts_of_a_dst_file(
    form_size: nat,
    sample_rate: u32,
    n_channels: nat,
    n_frames: nat,
    frames: Seq<(Seq<u8>, u32)>,
)
    ensures
        ({
            let body = dst::dst_body(n_frames, frames, frames.len());
            dst::dst_file(form_size, sample_rate, n_channels, n_frames, frames) == FRM8@
                + endian::be(form_size, 8) + DSD@ + chunks(
                seq![
                    (FVER@, seq![1u8, 5, 0, 0]),
                    (PROP@, prop::prop_data(sample_rate, n_channels, DST@, dst::DST_NAME@)),
                ],
                2,
            ) + DST@ + endian::be(body.len(), 8) + body + seq![68u8, 83, 84, 73] + endian::be(
                12 * frames.len(),
                8,
            ) + dst::index_entries(n_frames, frames, frames.len())
        }),
{
    lemma_form(form_size, sample_rate, n_channels, DST@, dst::DST_NAME@);
    assert(chunk::DSTI@ =~= seq![68u8, 83, 84, 73]);
    let body = dst::dst_body(n_frames, frames, frames.len());
    assert(dst::dst_file(form_size, sample_rate, n_channels, n_frames, frames) =~= FRM8@
        + endian::be(form_size, 8) + DSD@ + chunks(
        seq![
            (FVER@, seq![1u8, 5, 0, 0]),
            (PROP@, prop::prop_data(sample_rate, n_channels, DST@, dst::DST_NAME@)),
        ],
        2,
    ) + DST@ + endian::be(body.len(), 8) + body + seq![68u8, 83, 84, 73] + endian::be(
        12 * frames.len(),
        8,
    ) + dst::index_entries(n_frames, frames, frames.len()));
}

/// The DST chunk holds the number of frames and their rate, and then each frame with its CRC;
/// entry `i` of the index tells where in it the DSTF chunk of frame `i` stands, and how long
/// that is.
#[verifier::rlimit(40)]
pub proof fn law_index_points_at_frames(
    n_frames: nat,
    frames: Seq<(Seq<u8>, u32)>,
    i: int,
)
    requires
        0 <= i < frames.len(),
        dst::dst_body(n_frames, frames, frames.len()).len() <= u64::MAX,
        12 + frames[i].0.len() + 1 <= u32::MAX,
    ensures
        ({
            let body = dst::dst_body(n_frames, frames, frames.len());
            let index = dst::index_entries(n_frames, frames, frames.len());
            let at = endian::be_value(index.subrange(12 * i, 12 * i + 8));
            let len = endian::be_value(index.subrange(12 * i + 8, 12 * i + 12));
            let (data, crc) = frames[i];
            &&& index.len() == 12 * frames.len()
            &&& chunk::stands(body, 0, chunk::chunk(FRTE@, endian::be(n_frames, 4) + seq![0u8, 75]))
            &&& chunk::stands(body, at, chunk::chunk(DSTF@, data))
            &&& len == chunk::chunk(DSTF@, data).len()
            &&& chunk::stands(body, at + len, chunk::chunk(DSTC@, endian::be(crc as nat, 4)))
        }),
{
    let n = frames.len();
    let body = dst::dst_body(n_frames, frames, n);
    dst::lemma_sizes(n_frames, frames, n);
    lemma_index_entry(n_frames, frames, i as nat, n);
    dst::lemma_body_prefix(n_frames, frames, (i + 1) as nat, n);
    dst::lemma_body_prefix(n_frames, frames, i as nat, n);
    dst::lemma_body_prefix(n_frames, frames, 0, n);
    let a = dst::dst_body(n_frames, frames, i as nat);
    let b = dst::dst_body(n_frames, frames, (i + 1) as nat);
    let (data, crc) = frames[i];
    let (c, d) = (chunk::chunk(DSTF@, data), chunk::chunk(DSTC@, endian::be(crc as nat, 4)));
    chunk::lemma_chunk_len(DSTF@, data);
    assert(b == a + (c + d));
    assert(chunk::stands(body, 0, b));
    chunk::lemma_stands_concat(body, 0, a, c + d);
    chunk::lemma_stands_concat(body, a.len(), c, d);
    endian::lemma_pow256();
    endian::lemma_be_round_trip(a.len(), 8);
    endian::lemma_be_round_trip(chunk::chunk_len(data.len()), 4);
    reveal_with_fuel(endian::be, 3);
    assert(endian::be(75, 2) =~= seq![0u8, 75]);
    assert(chunk::stands(body, 0, dst::dst_body(n_frames, frames, 0)));
}

proof fn lemma_index_entry(n_frames: nat, frames: Seq<(Seq<u8>, u32)>, i: nat, n: nat)
    requires
        i < n,
    ensures
        ({
            let index = dst::index_entries(n_frames, frames, n);
            let at = 12 * i as int;
            &&& index.subrange(at, at + 8) == endian::be(
                dst::dst_body(n_frames, frames, i).len(),
                8,
            )
            &&& index.subrange(at + 8, at + 12) == endian::be(
                chunk::chunk_len(frames[i as int].0.len()),
                4,
            )
        }),
    decreases n,
{
    let index = dst::index_entries(n_frames, frames, n);
    let head = dst::index_entries(n_frames, frames, (n - 1) as nat);
    let at = 12 * i as int;
    dst::lemma_sizes(n_frames, frames, n);
    dst::lemma_sizes(n_frames, frames, (n - 1) as nat);
    endian::lemma_be_len(dst::dst_body(n_frames, frames, (n - 1) as nat).len(), 8);
    endian::lemma_be_len(chunk::chunk_len(frames[n - 1].0.len()), 4);
    if i < n - 1 {
        lemma_index_entry(n_frames, frames, i, (n - 1) as nat);
        assert(index.subrange(at, at + 8) =~= head.subrange(at, at + 8));
        assert(index.subrange(at + 8, at + 12) =~= head.subrange(at + 8, at + 12));
    } else {
        assert(index.subrange(at, at + 8) =~= endian::be(
            dst::dst_body(n_frames, frames, i).len(),
            8,
        ));
        assert(index.subrange(at + 8, at + 12) =~= endian::be(
            chunk::chunk_len(frames[i as int].0.len()),
            4,
        ));
    }
}

/// The data of an uncompressed file: the frames one behind the other, and in each the bytes
/// of the channels side by side.
pub proof fn law_bytes_of_frames(
    frames: Seq<Seq<Seq<u8>>>,
    n_channels: nat,
    frame_bytes: nat,
    n: nat,
    f: int,
    ch: int,
    i: int,
)
    requires
        n <= frames.len(),
        forall|k: int| 0 <= k < frames.len() ==> (#[trigger] frames[k]).len() == n_channels,
        0 <= f < n,
        0 <= ch < n_channels,
        0 <= i < frame_bytes,
    ensures
        ({
            let data = dsd::joined(frames, frame_bytes, n);
            let size = n_channels * frame_bytes;
            let at = f * size + i * n_channels + ch;
            &&& data.len() == n * size
            &&& 0 <= at < data.len()
            &&& data[at] == frames[f][ch][i]
        }),
    decreases n,
{
    let size = n_channels * frame_bytes;
    let at = f * size + i * n_channels + ch;
    lemma_joined_len(frames, n_channels, frame_bytes, n);
    lemma_joined_len(frames, n_channels, frame_bytes, (n - 1) as nat);
    let head = dsd::joined(frames, frame_bytes, (n - 1) as nat);
    assert(0 <= i * n_channels && i * n_channels + ch < size) by (nonlinear_arith)
        requires
            0 <= i < frame_bytes,
            0 <= ch < n_channels,
            size == n_channels * frame_bytes,
    ;
    assert(0 <= f * size && f * size + size <= n * size && (n - 1) * size + size == n * size)
        by (nonlinear_arith)
        requires
            0 <= f < n,
            size >= 0,
    ;
    if f < n - 1 {
        assert(f * size + size <= (n - 1) * size) by (nonlinear_arith)
            requires
                f + 1 <= n - 1,
                size >= 0,
        ;
        law_bytes_of_frames(frames, n_channels, frame_bytes, (n - 1) as nat, f, ch, i);
    } else {
        assert(frames[f].len() == n_channels);
        code_laws::law_interleaved_bytes(frames[f], frame_bytes, ch, i);
    }
}

pub proof fn lemma_joined_len(
    frames: Seq<Seq<Seq<u8>>>,
    n_channels: nat,
    frame_bytes: nat,
    n: nat,
)
    requires
        n <= frames.len(),
        forall|k: int| 0 <= k < frames.len() ==> (#[trigger] frames[k]).len() == n_channels,
    ensures
        dsd::joined(frames, frame_bytes, n).len() == n * (n_channels * frame_bytes),
    decreases n,
{
    let size = n_channels * frame_bytes;
    if n > 0 {
        lemma_joined_len(frames, n_channels, frame_bytes, (n - 1) as nat);
        assert(frames[n - 1].len() == n_channels);
        assert(frame::interleaved(frames[n - 1], frame_bytes).len() == size);
        assert((n - 1) * size + size == n * size) by (nonlinear_arith);
    } else {
        assert(0 * size == 0);
    }
}

// ---------------------------------------------------------------------------
// Messages
// ---------------------------------------------------------------------------

/// A number in a message has its decimal digits, as many as it needs.
pub proof fn law_decimal_digits(n: nat, i: int)
    ensures
        ({
            let s = text::decimal(n);
            &&& s.len() >= 1
            &&& (n as int) < pow(10, s.len())
            &&& s.len() > 1 ==> n >= pow(10, (s.len() - 1) as nat)
            &&& 0 <= i < s.len() ==> s[s.len() - 1 - i] as int == 48 + n as int / pow(10, i as nat)
                % 10
        }),
    decreases n,
{
    reveal(pow);
    let s = text::decimal(n);
    if n >= 10 {
        let head = text::decimal(n / 10);
        law_decimal_digits(n / 10, i - 1);
        assert(pow(10, s.len()) == 10 * pow(10, head.len()));
        if head.len() == 1 {
            assert(pow(10, 1) == 10 * pow(10, 0));
        } else {
            assert(pow(10, head.len()) == 10 * pow(10, (head.len() - 1) as nat));
        }
        assert((s.len() - 1) as nat == head.len());
        if i == 0 {
            assert(pow(10, 0) == 1);
            assert(n as int / 1 == n);
            assert(s.last() == text::decimal_digit(n % 10));
        }
        if 0 < i < s.len() {
            let k = (i - 1) as nat;
            lemma_pow_positive(10, k);
            vstd::arithmetic::div_mod::lemma_div_denominator(n as int, 10, pow(10, k));
            assert(pow(10, i as nat) == 10 * pow(10, k));
            assert(s[s.len() - 1 - i] == head[head.len() - 1 - k]);
        }
    } else {
        assert(pow(10, 1) == 10 * pow(10, 0));
        assert(pow(10, 0) == 1);
        assert(n as int / 1 == n);
    }
}

/// Four bytes in a message stand in square brackets, with commas between them.
pub proof fn law_byte_list(b: Seq<u8>)
    requires
        b.len() == 4,
    ensures
        text::byte_list(b) == "["@ + text::decimal(b[0] as nat) + ", "@ + text::decimal(
            b[1] as nat,
        ) + ", "@ + text::decimal(b[2] as nat) + ", "@ + text::decimal(b[3] as nat) + "]"@,
{
    reveal_with_fuel(text::byte_items, 5);
    assert(text::byte_list(b) =~= "["@ + text::decimal(b[0] as nat) + ", "@ + text::decimal(
        b[1] as nat,
    ) + ", "@ + text::decimal(b[2] as nat) + ", "@ + text::decimal(b[3] as nat) + "]"@);
}

} // verus!

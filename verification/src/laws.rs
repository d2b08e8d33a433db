//! What holds of every run, said of its frames: which frames can be coded, what comes back of
//! them, and what a run counts.

use vstd::arithmetic::power2::pow2;
use vstd::prelude::*;

use crate::codec::code_laws;
use crate::codec::frame;
use crate::codec::laws::{indices, lemma_indices_step};
use crate::decode;
use crate::decode::{FrameCheck, OutputFormat, TestStats};
use crate::encode;
use crate::encode::{EncodeOptions, EncodeProgress, Encoder, SingleFrame};
use crate::error::{CladstError, Result};
use crate::format::dsdiff::dsd;
use crate::format::dsdiff::dst;
use crate::format::dsdiff::dst::DstFrame;
use crate::format::dsdiff::written_laws;
use crate::format::dsf;
use crate::format::dsf::{DsfHeader, DsfParse};
use crate::format::endian;
use crate::format::laws as format_laws;
use crate::format::metadata::DsdMetadata;
use crate::format::reader;
use crate::format::reader::{Answer, DsdFrame};
use crate::format::step::HeaderStep;

verus! {

// ---------------------------------------------------------------------------
// Coding a frame
// ---------------------------------------------------------------------------

/// A frame with enough bytes in every channel and filters of the prediction order, one for
/// all channels or one for each.
pub open spec fn offered(
    channels: Seq<Seq<u8>>,
    coefs: Seq<Seq<i16>>,
    frame_bits: nat,
    options: EncodeOptions,
) -> bool {
    &&& channels.len() >= 1
    &&& forall|ch: int|
        0 <= ch < channels.len() ==> 8 * (#[trigger] channels[ch]).len() >= frame_bits
    &&& options.pred_order >= 1
    &&& options.pred_order <= 128
    &&& options.share_filters ==> coefs.len() == 1
    &&& !options.share_filters ==> coefs.len() == channels.len()
    &&& forall|f: int| 0 <= f < coefs.len() ==> (#[trigger] coefs[f]).len() == options.pred_order
}

/// Every frame of up to 65536 channels and 2^28 samples in all can be coded, with every
/// prediction order from 1 to 128, and no frame without channels, with too few bytes or with
/// filters of another order.
pub proof fn law_frames_can_be_coded(
    channels: Seq<Seq<u8>>,
    coefs: Seq<Seq<i16>>,
    frame_bits: nat,
    options: EncodeOptions,
)
    ensures
        offered(channels, coefs, frame_bits, options) && channels.len() <= 0x1_0000
            && channels.len() * frame_bits <= 0x1000_0000 ==> encode::encodable(
            channels,
            coefs,
            frame_bits,
            options,
        ),
        encode::encodable(channels, coefs, frame_bits, options) ==> offered(
            channels,
            coefs,
            frame_bits,
            options,
        ),
{
}

/// A frame that can be coded is coded, and without verification that is all that comes of it.
pub proof fn law_coding_succeeds(
    channels: Seq<Seq<u8>>,
    coefs: Seq<Seq<i16>>,
    frame_bits: nat,
    frame_bytes: nat,
    n_channels: nat,
    options: EncodeOptions,
)
    requires
        offered(channels, coefs, frame_bits, options),
        channels.len() <= 0x1_0000,
        channels.len() * frame_bits <= 0x1000_0000,
        !options.verify,
    ensures
        encode::single_frame(channels, coefs, frame_bits, frame_bytes, n_channels, options)
            == SingleFrame::Coded(encode::frame_code(channels, coefs, frame_bits, options)),
{
    reveal(encode::single_frame);
}

/// A frame that cannot be coded gives nothing, with verification or without.
pub proof fn law_other_frames_give_nothing(
    channels: Seq<Seq<u8>>,
    coefs: Seq<Seq<i16>>,
    frame_bits: nat,
    frame_bytes: nat,
    n_channels: nat,
    options: EncodeOptions,
)
    requires
        !offered(channels, coefs, frame_bits, options),
    ensures
        encode::single_frame(channels, coefs, frame_bits, frame_bytes, n_channels, options)
            is Stuck,
{
    reveal(encode::single_frame);
}

/// What is coded comes back: the code of a frame of whole bytes, with any options, starts
/// with a one bit and decodes to the bytes of the channels; verification lets it pass.
pub proof fn law_coded_frame_comes_back(
    channels: Seq<Seq<u8>>,
    coefs: Seq<Seq<i16>>,
    frame_bytes: nat,
    options: EncodeOptions,
)
    requires
        offered(channels, coefs, 8 * frame_bytes, options),
        channels.len() <= 0x1_0000,
        channels.len() * (8 * frame_bytes) <= 0x1000_0000,
        forall|f: int, i: int|
            0 <= f < coefs.len() && 0 <= i < coefs[f].len() ==> -256 <= #[trigger] coefs[f][i]
                <= 255,
    ensures
        encode::single_frame(
            channels,
            coefs,
            8 * frame_bytes,
            frame_bytes,
            channels.len(),
            options,
        ) matches SingleFrame::Coded(code) && {
            &&& code.len() >= 1
            &&& code[0] >= 128
            &&& frame::frame_decoded(
                code,
                channels.len(),
                8 * frame_bytes,
            ) matches frame::Decoded::Channels(decoded) && {
                &&& decoded.len() == channels.len()
                &&& forall|ch: int|
                    0 <= ch < channels.len() ==> #[trigger] decoded[ch] == channels[ch].take(
                        frame_bytes as int,
                    )
            }
        },
{
    encode::law_verification_passes(channels, coefs, frame_bytes, options);
    encode::law_frames_are_dst_coded(channels, coefs, 8 * frame_bytes, options);
    encode::law_whole_bytes_decode(channels, coefs, frame_bytes, options);
}

/// The samples that are coded are the bits of the bytes of each channel, the highest bit of
/// a byte first.
pub proof fn law_samples_of_a_frame(channels: Seq<Seq<u8>>, frame_bits: nat, ch: int, i: int)
    requires
        0 <= ch < channels.len(),
        frame_bits <= 8 * channels[ch].len(),
        0 <= i < frame_bits,
    ensures
        ({
            let samples = encode::leading_bits(channels, frame_bits);
            &&& samples.len() == channels.len()
            &&& samples[ch].len() == frame_bits
            &&& samples[ch][i] == (channels[ch][i / 8] as nat / pow2((7 - i % 8) as nat) % 2 == 1)
        }),
{
    code_laws::law_bytes_hold_bits(channels[ch], Seq::empty(), i);
}

/// A frame is coded with the samples, filters, sharing and first-sample odds that were asked
/// for.
pub proof fn law_plan_keeps_the_options(
    samples: Seq<Seq<bool>>,
    coefs: Seq<Seq<i16>>,
    share_filters: bool,
    half_prob: bool,
)
    ensures
        ({
            let plan = frame::frame_plan(samples, coefs, share_filters, half_prob);
            &&& plan.channels == samples
            &&& plan.coefs == coefs
            &&& plan.share_filters == share_filters
            &&& plan.half_prob == half_prob
        }),
{
}

// ---------------------------------------------------------------------------
// Verifying a frame
// ---------------------------------------------------------------------------

/// The differences are the places at which two byte strings differ, as far as both go.
pub proof fn law_differences_count(a: Seq<u8>, b: Seq<u8>, n: nat)
    ensures
        indices(n as int, |i: int| a[i] != b[i]).finite(),
        encode::differences(a, b, n) == indices(n as int, |i: int| a[i] != b[i]).len(),
        encode::shorter(a, b) <= a.len(),
        encode::shorter(a, b) <= b.len(),
        encode::shorter(a, b) == a.len() || encode::shorter(a, b) == b.len(),
    decreases n,
{
    let holds = |i: int| a[i] != b[i];
    if n > 0 {
        law_differences_count(a, b, (n - 1) as nat);
        lemma_indices_step(n - 1, holds);
    } else {
        lemma_indices_step(0, holds);
    }
}

/// Verification tells the first channel that comes back with other bytes, and at how many
/// places they differ; where every channel comes back as it was, it hands on the code.
pub proof fn law_first_difference_is_told(
    decoded: Seq<Seq<u8>>,
    channels: Seq<Seq<u8>>,
    frame_bytes: nat,
    n_channels: nat,
    code: Seq<u8>,
    c: nat,
)
    requires
        c <= n_channels,
        n_channels <= decoded.len(),
        n_channels <= channels.len(),
        forall|ch: int|
            0 <= ch < n_channels ==> (#[trigger] channels[ch]).len() >= frame_bytes,
        forall|ch: int|
            0 <= ch < c ==> #[trigger] decoded[ch] == channels[ch].take(frame_bytes as int),
    ensures
        c == n_channels ==> encode::compared(
            decoded,
            channels,
            frame_bytes,
            n_channels,
            0,
            code,
        ) == SingleFrame::Coded(code),
        c < n_channels && decoded[c as int] != channels[c as int].take(frame_bytes as int) ==> {
            let (d, e) = (decoded[c as int], channels[c as int].take(frame_bytes as int));
            let n = if d.len() < e.len() {
                d.len()
            } else {
                e.len()
            };
            encode::compared(
                decoded,
                channels,
                frame_bytes,
                n_channels,
                0,
                code,
            ) matches SingleFrame::Differs(at, diffs) && at == c && diffs == indices(
                n as int,
                |i: int| d[i] != e[i],
            ).len()
        },
{
    if c < n_channels {
        let (d, e) = (decoded[c as int], channels[c as int].take(frame_bytes as int));
        law_differences_count(d, e, encode::shorter(d, e));
    }
    lemma_compared_from(decoded, channels, frame_bytes, n_channels, code, c, 0);
}

/// Channels that come back as they were are passed.
proof fn lemma_compared_from(
    decoded: Seq<Seq<u8>>,
    channels: Seq<Seq<u8>>,
    frame_bytes: nat,
    n_channels: nat,
    code: Seq<u8>,
    c: nat,
    ch: nat,
)
    requires
        ch <= c <= n_channels,
        n_channels <= decoded.len(),
        n_channels <= channels.len(),
        forall|j: int| 0 <= j < n_channels ==> (#[trigger] channels[j]).len() >= frame_bytes,
        forall|j: int|
            0 <= j < c ==> #[trigger] decoded[j] == channels[j].take(frame_bytes as int),
    ensures
        encode::compared(decoded, channels, frame_bytes, n_channels, ch, code) == encode::compared(
            decoded,
            channels,
            frame_bytes,
            n_channels,
            c,
            code,
        ),
    decreases c - ch,
{
    if ch < c {
        assert(decoded[ch as int] == channels[ch as int].take(frame_bytes as int));
        assert(channels[ch as int].len() >= frame_bytes);
        lemma_compared_from(decoded, channels, frame_bytes, n_channels, code, c, ch + 1);
    }
}

/// With verification, what comes of a frame is what the decoder makes of its code: a frame
/// that the decoder refuses is refused with the same words, and the channels of one that
/// decodes are compared with those that were coded.
pub proof fn law_verification_decodes(
    channels: Seq<Seq<u8>>,
    coefs: Seq<Seq<i16>>,
    frame_bits: nat,
    frame_bytes: nat,
    n_channels: nat,
    options: EncodeOptions,
)
    requires
        offered(channels, coefs, frame_bits, options),
        channels.len() <= 0x1_0000,
        channels.len() * frame_bits <= 0x1000_0000,
        options.verify,
    ensures
        ({
            let code = encode::frame_code(channels, coefs, frame_bits, options);
            let made = encode::single_frame(
                channels,
                coefs,
                frame_bits,
                frame_bytes,
                n_channels,
                options,
            );
            match frame::frame_decoded(code, n_channels, frame_bits) {
                frame::Decoded::Refused(m) => made == SingleFrame::Refused(m),
                frame::Decoded::Stuck => made is Stuck,
                frame::Decoded::Channels(decoded) => made == encode::compared(
                    decoded,
                    channels,
                    frame_bytes,
                    n_channels,
                    0,
                    code,
                ),
            }
        }),
{
    reveal(encode::single_frame);
}

// ---------------------------------------------------------------------------
// Checking a frame
// ---------------------------------------------------------------------------

/// A frame is good if it decodes and its CRC, if it has one, is that of the bytes that it
/// decodes to, interleaved; a wrong CRC is told together with the right one.
pub proof fn law_check_of_a_frame(data: Seq<u8>, crc: Option<u32>, meta: DsdMetadata)
    ensures
        ({
            let n = meta.n_channels as nat;
            let fb = meta.frame_bytes_per_ch as nat;
            let c = decode::check((data, crc), meta);
            match frame::frame_decoded(data, n, meta.frame_bits as nat) {
                frame::Decoded::Stuck => c is Stuck,
                frame::Decoded::Refused(m) => c == FrameCheck::Refused(m),
                frame::Decoded::Channels(channels) => {
                    let long = forall|ch: int|
                        0 <= ch < channels.len() ==> (#[trigger] channels[ch]).len() >= fb;
                    let right = dst::channels_crc(
                        Seq::new(channels.len(), |ch: int| channels[ch].take(fb as int)),
                    );
                    &&& crc is None ==> c == FrameCheck::Good(channels)
                    &&& crc is Some && !long ==> c is Stuck
                    &&& crc is Some && long && channels.len() >= 1 ==> if crc == Some(right) {
                        c == FrameCheck::Good(channels)
                    } else {
                        c == FrameCheck::Mismatch(crc->0, right)
                    }
                },
            }
        }),
{
    reveal(decode::check);
    let n = meta.n_channels as nat;
    let fb = meta.frame_bytes_per_ch as nat;
    if let frame::Decoded::Channels(channels) = frame::frame_decoded(
        data,
        n,
        meta.frame_bits as nat,
    ) {
        let cut = Seq::new(channels.len(), |ch: int| channels[ch].take(fb as int));
        if channels.len() >= 1 && decode::all_long(channels, fb) {
            assert(channels[0].len() >= fb);
            assert(decode::written_part(channels, fb) =~= cut);
            decode::lemma_interleaved_part(channels, fb);
        }
    }
}

// ---------------------------------------------------------------------------
// Counting
// ---------------------------------------------------------------------------

/// A run counts as DST coded the frames whose first bit is one.
pub proof fn law_dst_coded_counts(frames: Seq<(Seq<u8>, u32)>, k: nat)
    ensures
        indices(k as int, |i: int| frames[i].0[0] >= 128).finite(),
        encode::dst_coded(frames, k) == indices(k as int, |i: int| frames[i].0[0] >= 128).len(),
    decreases k,
{
    let holds = |i: int| frames[i].0[0] >= 128;
    if k > 0 {
        law_dst_coded_counts(frames, (k - 1) as nat);
        lemma_indices_step(k - 1, holds);
    } else {
        lemma_indices_step(0, holds);
    }
}

/// A run counts the bytes of its frames: none without frames, and with one more frame as many
/// more as that has.
pub proof fn law_coded_size_adds_up(frames: Seq<(Seq<u8>, u32)>, more: (Seq<u8>, u32))
    ensures
        encode::coded_size(Seq::empty(), 0) == 0,
        encode::coded_size(frames.push(more), frames.len() + 1) == encode::coded_size(
            frames,
            frames.len(),
        ) + more.0.len(),
{
    lemma_coded_size_stays(frames, more, frames.len());
}

proof fn lemma_coded_size_stays(
    frames: Seq<(Seq<u8>, u32)>,
    more: (Seq<u8>, u32),
    k: nat,
)
    requires
        k <= frames.len(),
    ensures
        encode::coded_size(frames.push(more), k) == encode::coded_size(frames, k),
    decreases k,
{
    if k > 0 {
        lemma_coded_size_stays(frames, more, (k - 1) as nat);
    }
}

/// A test and a decode run count as checked the frames that have a CRC.
pub proof fn law_checked_counts(frames: Seq<(Seq<u8>, Option<u32>)>, k: nat)
    ensures
        indices(k as int, |i: int| frames[i].1 is Some).finite(),
        decode::with_crc(frames, k) == indices(k as int, |i: int| frames[i].1 is Some).len(),
    decreases k,
{
    let holds = |i: int| frames[i].1 is Some;
    if k > 0 {
        law_checked_counts(frames, (k - 1) as nat);
        lemma_indices_step(k - 1, holds);
    } else {
        lemma_indices_step(0, holds);
    }
}

// ---------------------------------------------------------------------------
// Decoding on the fly
// ---------------------------------------------------------------------------

/// A frame that is decoded on the fly gives the first bytes of each channel, as many as the
/// metadata says; where a channel has fewer it gives nothing, and a refusal is handed on.
pub proof fn law_frames_decode_on_the_fly(data: Seq<u8>, meta: DsdMetadata)
    ensures
        ({
            let fb = meta.frame_bytes_per_ch as int;
            let made = reader::frame_of(data, meta);
            match frame::frame_decoded(data, meta.n_channels as nat, meta.frame_bits as nat) {
                frame::Decoded::Stuck => made is Stuck,
                frame::Decoded::Refused(m) => made == frame::Decoded::Refused(m),
                frame::Decoded::Channels(channels) => {
                    let long = forall|ch: int|
                        0 <= ch < channels.len() ==> (#[trigger] channels[ch]).len() >= fb;
                    &&& !long ==> made is Stuck
                    &&& long ==> made == frame::Decoded::Channels(
                        Seq::new(channels.len(), |ch: int| channels[ch].take(fb)),
                    )
                },
            }
        }),
{
    if let frame::Decoded::Channels(channels) = frame::frame_decoded(
        data,
        meta.n_channels as nat,
        meta.frame_bits as nat,
    ) {
        let fb = meta.frame_bytes_per_ch as int;
        assert(decode::written_part(channels, fb as nat) =~= Seq::new(
            channels.len(),
            |ch: int| channels[ch].take(fb),
        ));
    }
}

/// What an adapter hands out is the frame decoded, the end, or the error of the reader.
pub proof fn law_adapter_hands_on(
    r: Option<Result<Option<DsdFrame>>>,
    given: Answer,
    meta: DsdMetadata,
)
    requires
        reader::adapted(r, given, meta),
    ensures
        given is End <==> r matches Some(Ok(None)),
        given matches Answer::Failed(e) ==> r matches Some(Err(got)) && got == e,
        given matches Answer::Frame(data, _) ==> {
            &&& (r matches Some(Ok(Some(f))) ==> reader::frame_of(data, meta)
                == frame::Decoded::Channels(f@))
            &&& reader::frame_of(data, meta) is Channels ==> (r matches Some(Ok(Some(_))))
            &&& reader::frame_of(data, meta) is Stuck ==> r is None
        },
{
}

// ---------------------------------------------------------------------------
// Sizes in the files
// ---------------------------------------------------------------------------

/// An encoded file tells its own size: the form holds all bytes behind its header.
pub proof fn law_encoded_file_tells_its_size(meta: DsdMetadata, frames: Seq<(Seq<u8>, u32)>)
    ensures
        ({
            let file = encode::encoded_file(meta, frames);
            &&& file.len() >= 12
            &&& file.subrange(0, 4) == seq![70u8, 82, 77, 56]
            &&& file.subrange(4, 12) == endian::be((file.len() - 12) as nat, 8)
        }),
{
    let file = encode::encoded_file(meta, frames);
    let n = meta.n_channels as nat;
    let announced = meta.n_frames as nat % 0x1_0000_0000;
    let start = dst::dst_file(0, meta.sample_rate, n, announced, frames);
    endian::lemma_be_len(0, 8);
    let size = (start.len() - 12) as nat;
    endian::lemma_be_len(size, 8);
    assert(file.len() == start.len());
    assert(file.subrange(0, 4) =~= seq![70u8, 82, 77, 56]);
    assert(file.subrange(4, 12) =~= endian::be(size, 8));
}

/// A decoded DSDIFF file tells its own size and that of its data, which are those of all
/// frames.
pub proof fn law_dsdiff_output_tells_its_sizes(meta: DsdMetadata, frames: Seq<Seq<Seq<u8>>>)
    requires
        forall|k: int| 0 <= k < frames.len() ==> (#[trigger] frames[k]).len() == meta.n_channels,
    ensures
        ({
            let file = decode::output_file(meta, OutputFormat::DsdiffUncompressed, frames);
            let data = dsd::joined(frames, meta.frame_bytes_per_ch as nat, frames.len());
            let at = file.len() - data.len();
            &&& at >= 24
            &&& file.subrange(0, 4) == seq![70u8, 82, 77, 56]
            &&& file.subrange(4, 12) == endian::be((file.len() - 12) as nat, 8)
            &&& file.subrange(at - 12, at - 8) == seq![68u8, 83, 68, 32]
            &&& file.subrange(at - 8, at) == endian::be(data.len(), 8)
            &&& file.skip(at) == data
        }),
{
    let (n, fb) = (meta.n_channels as nat, meta.frame_bytes_per_ch as nat);
    let file = decode::output_file(meta, OutputFormat::DsdiffUncompressed, frames);
    let data = dsd::joined(frames, fb, frames.len());
    let start = dsd::dsd_file(0, meta.sample_rate, n, 0, data);
    endian::lemma_be_len(0, 8);
    let size = (start.len() - 12) as nat;
    endian::lemma_be_len(size, 8);
    written_laws::lemma_joined_len(frames, n, fb, frames.len());
    assert(n * fb == fb * n) by (nonlinear_arith);
    endian::lemma_be_len(data.len(), 8);
    let at = file.len() - data.len();
    assert(file.subrange(0, 4) =~= seq![70u8, 82, 77, 56]);
    assert(file.subrange(4, 12) =~= endian::be(size, 8));
    assert(file.subrange(at - 12, at - 8) =~= seq![68u8, 83, 68, 32]);
    assert(file.subrange(at - 8, at) =~= endian::be(data.len(), 8));
    assert(file.skip(at) =~= data);
}

/// A decoded DSF file tells its own size, its samples, and the size of its data, which are
/// whole blocks, as many as the bytes of a channel need.
pub proof fn law_dsf_output_tells_its_sizes(
    meta: DsdMetadata,
    frames: Seq<Seq<Seq<u8>>>,
    groups: nat,
)
    requires
        frames.len() * meta.frame_bits > 0,
        4096 * groups >= frames.len() * meta.frame_bytes_per_ch,
        4096 * groups < frames.len() * meta.frame_bytes_per_ch + 4096,
    ensures
        ({
            let file = decode::output_file(meta, OutputFormat::Dsf, frames);
            let channels = decode::all_channel_data(frames, meta.n_channels as nat);
            &&& file.len() == 92 + groups * (meta.n_channels * 4096)
            &&& file.subrange(12, 20) == endian::le(file.len(), 8)
            &&& file.subrange(64, 72) == endian::le((frames.len() * meta.frame_bits) as nat, 8)
            &&& file.subrange(84, 92) == endian::le((file.len() - 80) as nat, 8)
            &&& file.skip(92) == dsf::block_groups(channels, groups)
        }),
{
    let n = meta.n_channels as nat;
    let l = frames.len() * meta.frame_bytes_per_ch;
    assert((l + 4095) as nat / 4096 == groups);
    let file = decode::output_file(meta, OutputFormat::Dsf, frames);
    let channels = decode::all_channel_data(frames, n);
    let data = dsf::block_groups(channels, groups);
    let samples = (frames.len() * meta.frame_bits) as nat;
    dsf::lemma_block_groups_len(channels, groups);
    format_laws::law_header_fields(
        meta.sample_rate,
        channels.len(),
        92 + data.len(),
        samples,
        12 + data.len(),
    );
    let h = dsf::dsf_header(
        meta.sample_rate,
        channels.len(),
        92 + data.len(),
        samples,
        12 + data.len(),
    );
    assert(file == h + data);
    assert(file.subrange(12, 20) =~= h.subrange(12, 20));
    assert(file.subrange(64, 72) =~= h.subrange(64, 72));
    assert(file.subrange(84, 92) =~= h.subrange(84, 92));
    assert(file.skip(92) =~= data);
}

/// The bytes of a channel in an output file are those of its frames, one behind the other.
pub proof fn law_channel_of_frames(
    frames: Seq<Seq<Seq<u8>>>,
    n_channels: nat,
    frame_bytes: nat,
    k: nat,
    ch: int,
    f: int,
    i: int,
)
    requires
        k <= frames.len(),
        forall|j: int, c: int|
            0 <= j < frames.len() && 0 <= c < n_channels ==> (#[trigger] frames[j][c]).len()
                == frame_bytes,
        0 <= ch < n_channels,
        0 <= f < k,
        0 <= i < frame_bytes,
    ensures
        decode::all_channel_data(frames, n_channels).len() == n_channels,
        decode::all_channel_data(frames, n_channels)[ch] == decode::channel_data(
            frames,
            ch,
            frames.len(),
        ),
        decode::channel_data(frames, ch, k).len() == k * frame_bytes,
        0 <= f * frame_bytes + i < k * frame_bytes,
        decode::channel_data(frames, ch, k)[f * frame_bytes + i] == frames[f][ch][i],
    decreases k,
{
    let before = decode::channel_data(frames, ch, (k - 1) as nat);
    lemma_channel_len(frames, n_channels, frame_bytes, (k - 1) as nat, ch);
    lemma_channel_len(frames, n_channels, frame_bytes, k, ch);
    assert(0 <= f * frame_bytes && f * frame_bytes + frame_bytes <= k * frame_bytes && (k - 1)
        * frame_bytes + frame_bytes == k * frame_bytes) by (nonlinear_arith)
        requires
            0 <= f < k,
            frame_bytes >= 0,
    ;
    assert(frames[k - 1][ch].len() == frame_bytes);
    if f < k - 1 {
        assert(f * frame_bytes + frame_bytes <= (k - 1) * frame_bytes) by (nonlinear_arith)
            requires
                f + 1 <= k - 1,
                frame_bytes >= 0,
        ;
        law_channel_of_frames(frames, n_channels, frame_bytes, (k - 1) as nat, ch, f, i);
    }
}

proof fn lemma_channel_len(
    frames: Seq<Seq<Seq<u8>>>,
    n_channels: nat,
    frame_bytes: nat,
    k: nat,
    ch: int,
)
    requires
        k <= frames.len(),
        forall|j: int, c: int|
            0 <= j < frames.len() && 0 <= c < n_channels ==> (#[trigger] frames[j][c]).len()
                == frame_bytes,
        0 <= ch < n_channels,
    ensures
        decode::channel_data(frames, ch, k).len() == k * frame_bytes,
    decreases k,
{
    if k > 0 {
        lemma_channel_len(frames, n_channels, frame_bytes, (k - 1) as nat, ch);
        assert(frames[k - 1][ch].len() == frame_bytes);
        assert((k - 1) * frame_bytes + frame_bytes == k * frame_bytes) by (nonlinear_arith);
    } else {
        assert(0 * frame_bytes == 0);
    }
}

// ---------------------------------------------------------------------------
// What a run tells
// ---------------------------------------------------------------------------

/// A frame that comes back with other bytes is told by its number, its first channel that
/// differs, and the number of bytes that differ; a coded frame is handed out as it is.
pub proof fn law_outcome_of_a_frame(r: Option<Result<Vec<u8>>>, f: SingleFrame, i: nat)
    requires
        encode::gives(r, f, i),
    ensures
        f matches SingleFrame::Coded(code) ==> r matches Some(Ok(v)) && v@ == code,
        f matches SingleFrame::Refused(m) ==> r matches Some(Err(CladstError::Codec(text)))
            && text@ == m,
        f matches SingleFrame::Differs(c, n) ==> r matches Some(
            Err(CladstError::VerifyFailed { frame, channel, diffs }),
        ) && frame == i && channel == c && diffs == n,
        f is Stuck ==> r is None,
{
}

/// A test hands on an error of the reader, whichever frames came before it, and tells a frame
/// that does not decode.
pub proof fn law_test_hands_on_errors(
    r: Option<Result<TestStats>>,
    answers: Seq<Answer>,
    meta: DsdMetadata,
)
    requires
        decode::tested(r, answers, meta),
        answers.len() <= usize::MAX,
    ensures
        answers.last() matches Answer::Failed(e) ==> r matches Some(Err(got)) && got == e,
        answers.last() matches Answer::Frame(data, crc) ==> match frame::frame_decoded(
            data,
            meta.n_channels as nat,
            meta.frame_bits as nat,
        ) {
            frame::Decoded::Refused(m) => r matches Some(Err(CladstError::Codec(text))) && text@
                == m,
            frame::Decoded::Stuck => r is None,
            frame::Decoded::Channels(_) => crc is Some,
        },
        answers.last() is End ==> (r matches Some(Ok(stats)) && stats.total_frames + 1
            == answers.len()),
{
    reveal(decode::check);
}

/// The progress of an encoding run: the number of the last frame, how many frames there are
/// in all, how many were DST coded and how many not, and how many bytes a frame has before
/// and all frames have after coding.
pub proof fn law_progress_of_a_run(e: Encoder, p: EncodeProgress)
    requires
        e.progressed(p),
    ensures
        p.frame + 1 == e.frames().len(),
        p.total_frames == e.meta().n_frames,
        p.dst_frames == indices(
            e.frames().len() as int,
            |i: int| e.frames()[i].0[0] >= 128,
        ).len(),
        p.dst_frames + p.raw_frames == e.frames().len(),
        p.compressed_bytes == encode::coded_size(e.frames(), e.frames().len()),
        p.raw_bytes_per_frame == e.meta().n_channels * e.meta().frame_bytes_per_ch,
{
    law_dst_coded_counts(e.frames(), e.frames().len());
    let (a, b) = (e.meta().n_channels as int, e.meta().frame_bytes_per_ch as int);
    assert(a * b == b * a) by (nonlinear_arith);
}

/// A decoder hands out the bytes of each channel, or the words of a refusal, or nothing.
pub proof fn law_outcome_of_decoding(r: Option<Result<Vec<Vec<u8>>>>, d: frame::Decoded)
    requires
        frame::delivers(r, d),
    ensures
        d matches frame::Decoded::Channels(channels) ==> r matches Some(Ok(v)) && v@.len()
            == channels.len() && forall|ch: int|
            0 <= ch < channels.len() ==> (#[trigger] v@[ch])@ == channels[ch],
        d matches frame::Decoded::Refused(m) ==> r matches Some(Err(CladstError::Codec(text)))
            && text@ == m,
        d is Stuck ==> r is None,
{
    if let frame::Decoded::Channels(channels) = d {
        let v = r->0->Ok_0;
        assert forall|ch: int| 0 <= ch < channels.len() implies (#[trigger] v@[ch])@
            == channels[ch] by {
            assert(frame::views8(v@)[ch] == v@[ch]@);
        }
    }
}

/// A frame that is refused, or whose CRC is wrong, gives an error with the words of the
/// refusal, or with its number and both CRCs.
pub proof fn law_error_of_a_frame(e: CladstError, c: FrameCheck, i: nat)
    requires
        decode::frame_error(e, c, i),
    ensures
        c matches FrameCheck::Refused(m) ==> e matches CladstError::Codec(text) && text@ == m,
        c matches FrameCheck::Mismatch(a, b) ==> e matches CladstError::CrcMismatch {
            frame,
            expected,
            computed,
        } && frame == i && expected == a && computed == b,
        c is Refused || c is Mismatch,
{
}

/// Parsing the header of a DSF file gives the header, the number of bytes it needs, or an
/// error about the format.
pub proof fn law_outcome_of_a_header(r: HeaderStep<DsfHeader>, p: DsfParse)
    requires
        dsf::parses_to(r, p),
    ensures
        p matches DsfParse::Header(h) ==> r matches HeaderStep::Done(d) && d == h,
        p matches DsfParse::Need(n) ==> r matches HeaderStep::NeedMore(k) && k == n,
        p matches DsfParse::Refused(m) ==> r matches HeaderStep::Failed(CladstError::Format(text))
            && text@ == m,
        p is Stuck ==> r is Stuck,
{
}

// ---------------------------------------------------------------------------
// What is handed over
// ---------------------------------------------------------------------------

/// Channels and coefficients are taken as they are handed over, one by one.
pub proof fn law_values_are_handed_over(
    slices: Seq<&[u8]>,
    bytes: Seq<Vec<u8>>,
    numbers: Seq<Vec<i16>>,
    f: DsdFrame,
    i: int,
)
    ensures
        frame::slices(slices).len() == slices.len(),
        0 <= i < slices.len() ==> frame::slices(slices)[i] == slices[i]@,
        frame::views8(bytes).len() == bytes.len(),
        0 <= i < bytes.len() ==> frame::views8(bytes)[i] == bytes[i]@,
        frame::views16(numbers).len() == numbers.len(),
        0 <= i < numbers.len() ==> frame::views16(numbers)[i] == numbers[i]@,
        f@.len() == f.channels@.len(),
        0 <= i < f@.len() ==> f@[i] == f.channels@[i]@,
{
}

/// What a reader returns is its answer: the data of a frame and its CRC, the end, or an error.
pub proof fn law_answer_of_a_reader(r: Result<Option<DstFrame>>)
    ensures
        r matches Ok(Some(f)) ==> reader::answer(r) == Answer::Frame(f.data@, f.crc),
        r matches Ok(None) ==> reader::answer(r) is End,
        r matches Err(e) ==> reader::answer(r) == Answer::Failed(e),
{
}

} // verus!

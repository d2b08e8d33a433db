//! DST decoding and integrity testing pipelines.

use vstd::prelude::*;

use crate::codec::bits;
use crate::codec::frame;
use crate::codec::frame::try_decode_dst_frame;
use crate::codec::lossless;
use crate::error::{CladstError, Result};
use crate::format::dsdiff::chunk;
use crate::format::dsdiff::crc;
use crate::format::dsdiff::crc::dst_frame_crc;
use crate::format::dsdiff::dsd;
use crate::format::dsdiff::dsd::{interleave, DsdDsdiffWriter};
use crate::format::dsdiff::dst::DstFrame;
use crate::format::dsf;
use crate::format::dsf::DsfWriter;
use crate::format::metadata::DsdMetadata;
use crate::format::open;
use crate::format::patch::FileEnd;
use crate::format::reader;
use crate::format::reader::{Answer, DstFrameReader};

verus! {

/// Output format for decoding.
#[derive(Debug, Clone, Copy, PartialEq, Eq, Structural)]
pub enum OutputFormat {
    /// DSF (Sony standard, little-endian, LSB-first).
    Dsf,
    /// Uncompressed DSDIFF (big-endian, MSB-first).
    DsdiffUncompressed,
}

/// Final statistics from a decode run.
#[derive(Debug)]
pub struct DecodeStats {
    /// Total number of frames decoded.
    pub total_frames: usize,
    /// Number of frames that had CRC and passed verification.
    pub crc_checked: usize,
}

/// Final statistics from a test run.
#[derive(Debug)]
pub struct TestStats {
    /// Total number of frames decoded.
    pub total_frames: usize,
    /// Number of frames that had CRC and passed verification.
    pub crc_checked: usize,
}

// ---------------------------------------------------------------------------
// Single frames
// ---------------------------------------------------------------------------

/// What comes of decoding a frame and checking its CRC.
pub enum FrameCheck {
    /// The channels; the CRC is right if there is one.
    Good(Seq<Seq<u8>>),
    /// The frame is refused.
    Refused(Seq<char>),
    /// The CRC that was expected, and that of the channels.
    Mismatch(u32, u32),
    /// The frame holds no table or symbol to go on with, or too few bytes for a CRC.
    Stuck,
}

/// All channels have so many bytes.
pub open spec fn all_long(channels: Seq<Seq<u8>>, n: nat) -> bool {
    forall|ch: int| 0 <= ch < channels.len() ==> n <= (#[trigger] channels[ch]).len()
}

/// The CRC of so many bytes of each channel, interleaved.
pub open spec fn frame_crc(channels: Seq<Seq<u8>>, n: nat) -> u32 {
    crc::crc(bits::unpack(frame::interleaved(channels, n)))
}

/// What comes of a frame: its data and its CRC, if it has one.
#[verifier::opaque]
pub open spec fn check(f: (Seq<u8>, Option<u32>), meta: DsdMetadata) -> FrameCheck {
    let n = meta.frame_bytes_per_ch as nat;
    match frame::frame_decoded(f.0, meta.n_channels as nat, meta.frame_bits as nat) {
        frame::Decoded::Stuck => FrameCheck::Stuck,
        frame::Decoded::Refused(m) => FrameCheck::Refused(m),
        frame::Decoded::Channels(channels) => match f.1 {
            None => FrameCheck::Good(channels),
            Some(expected) => if !all_long(channels, n) {
                FrameCheck::Stuck
            } else if frame_crc(channels, n) != expected {
                FrameCheck::Mismatch(expected, frame_crc(channels, n))
            } else {
                FrameCheck::Good(channels)
            },
        },
    }
}

/// An error is what comes of frame number `i`.
pub open spec fn frame_error(e: CladstError, c: FrameCheck, i: nat) -> bool {
    match c {
        FrameCheck::Refused(m) => e matches CladstError::Codec(text) && text@ == m,
        FrameCheck::Mismatch(a, b) => e matches CladstError::CrcMismatch {
            frame,
            expected,
            computed,
        } && frame == i && expected == a && computed == b,
        _ => false,
    }
}

/// Verify CRC of a decoded frame against expected value.
pub fn verify_frame_crc(
    decoded_channels: &[Vec<u8>],
    frame_bytes_per_ch: usize,
    expected_crc: u32,
    frame_idx: usize,
) -> (r: Result<()>)
    requires
        all_long(frame::views8(decoded_channels@), frame_bytes_per_ch as nat),
    ensures
        ({
            let computed = frame_crc(
                frame::views8(decoded_channels@),
                frame_bytes_per_ch as nat,
            );
            if computed == expected_crc {
                r is Ok
            } else {
                r matches Err(e) && frame_error(
                    e,
                    FrameCheck::Mismatch(expected_crc, computed),
                    frame_idx as nat,
                )
            }
        }),
{
    proof {
        assert forall|ch: int| 0 <= ch < decoded_channels@.len() implies frame_bytes_per_ch <= (
        #[trigger] decoded_channels@[ch])@.len() by {
            assert(frame::views8(decoded_channels@)[ch].len() >= frame_bytes_per_ch);
        }
    }
    let interleaved: Vec<u8> = interleave(decoded_channels, frame_bytes_per_ch);
    let computed: u32 = dst_frame_crc(interleaved.as_slice());
    if computed != expected_crc {
        return Err(
            CladstError::CrcMismatch { frame: frame_idx, expected: expected_crc, computed },
        );
    }
    Ok(())
}

/// Whether all channels have so many bytes.
fn are_long(channels: &[Vec<u8>], n: usize) -> (r: bool)
    ensures
        r == all_long(frame::views8(channels@), n as nat),
{
    let mut ch: usize = 0;
    while ch < channels.len()
        invariant
            ch <= channels@.len(),
            forall|c: int| 0 <= c < ch ==> n <= (#[trigger] channels@[c])@.len(),
        decreases channels@.len() - ch,
    {
        if channels[ch].len() < n {
            proof {
                assert(frame::views8(channels@)[ch as int].len() < n);
            }
            return false;
        }
        ch = ch + 1;
    }
    proof {
        assert forall|c: int| 0 <= c < channels@.len() implies n <= (#[trigger] frame::views8(
            channels@,
        )[c]).len() by {
            assert(n <= channels@[c]@.len());
        }
    }
    true
}

/// Decode a frame and check its CRC, if it has one; nothing where the frame holds no table
/// or symbol to go on with, or too few bytes for a CRC.
pub fn check_frame(f: &DstFrame, meta: &DsdMetadata, frame_idx: usize) -> (r: Option<
    Result<Vec<Vec<u8>>>,
>)
    ensures
        match check(f@, *meta) {
            FrameCheck::Good(channels) => r matches Some(Ok(v)) && frame::views8(v@) == channels,
            FrameCheck::Stuck => r is None,
            other => r matches Some(Err(e)) && frame_error(e, other, frame_idx as nat),
        },
{
    reveal(check);
    let decoded: Vec<Vec<u8>> = match try_decode_dst_frame(
        f.data.as_slice(),
        meta.n_channels,
        meta.frame_bits,
    ) {
        None => {
            return None;
        },
        Some(Err(e)) => {
            return Some(Err(e));
        },
        Some(Ok(channels)) => channels,
    };
    if let Some(expected_crc) = f.crc {
        if !are_long(decoded.as_slice(), meta.frame_bytes_per_ch) {
            return None;
        }
        match verify_frame_crc(
            decoded.as_slice(),
            meta.frame_bytes_per_ch,
            expected_crc,
            frame_idx,
        ) {
            Ok(()) => {},
            Err(e) => {
                return Some(Err(e));
            },
        }
    }
    Some(Ok(decoded))
}

// ---------------------------------------------------------------------------
// Testing
// ---------------------------------------------------------------------------

/// The first `k` frames decode, with the right CRCs.
pub open spec fn good(frames: Seq<(Seq<u8>, Option<u32>)>, meta: DsdMetadata, k: int) -> bool {
    forall|i: int| 0 <= i < k ==> check(#[trigger] frames[i], meta) is Good
}

/// How many of the first `k` frames have a CRC.
pub open spec fn with_crc(frames: Seq<(Seq<u8>, Option<u32>)>, k: nat) -> nat
    decreases k,
{
    if k == 0 {
        0
    } else {
        with_crc(frames, (k - 1) as nat) + (if frames[k - 1].1 is Some {
            1nat
        } else {
            0nat
        })
    }
}

proof fn lemma_with_crc(frames: Seq<(Seq<u8>, Option<u32>)>, k: nat)
    ensures
        with_crc(frames, k) <= k,
    decreases k,
{
    if k > 0 {
        lemma_with_crc(frames, (k - 1) as nat);
    }
}

/// Test the next frame: decode it, verify its CRC, and count it; nothing where the frame
/// holds no table or symbol to go on with, or too few bytes for a CRC.
pub fn test_frame(stats: &mut TestStats, f: &DstFrame, meta: &DsdMetadata) -> (r: Option<
    Result<()>,
>)
    requires
        old(stats).crc_checked <= old(stats).total_frames < usize::MAX,
    ensures
        match check(f@, *meta) {
            FrameCheck::Good(_) => {
                &&& r matches Some(Ok(_))
                &&& final(stats).total_frames == old(stats).total_frames + 1
                &&& final(stats).crc_checked == old(stats).crc_checked + (if f.crc is Some {
                    1int
                } else {
                    0int
                })
            },
            FrameCheck::Stuck => r is None && *final(stats) == *old(stats),
            other => {
                &&& r matches Some(Err(e))
                &&& frame_error(e, other, old(stats).total_frames as nat)
                &&& *final(stats) == *old(stats)
            },
        },
{
    match check_frame(f, meta, stats.total_frames) {
        None => None,
        Some(Err(e)) => Some(Err(e)),
        Some(Ok(_)) => {
            if f.crc.is_some() {
                stats.crc_checked = stats.crc_checked + 1;
            }
            stats.total_frames = stats.total_frames + 1;
            Some(Ok(()))
        },
    }
}

/// The frames among answers.
pub open spec fn frames_in(answers: Seq<Answer>) -> Seq<(Seq<u8>, Option<u32>)> {
    answers.map_values(
        |a: Answer|
            match a {
                Answer::Frame(data, crc) => (data, crc),
                _ => (Seq::empty(), None),
            },
    )
}

/// What a test finds, given the answers of the reader during the test: frames that are good,
/// and one answer that ends the test. At the end of the frames they are counted, an error of
/// the reader is handed on, and a frame that is not good gives its error, or nothing where it
/// holds no table or symbol to go on with (or cannot be counted).
pub open spec fn tested(
    r: Option<Result<TestStats>>,
    answers: Seq<Answer>,
    meta: DsdMetadata,
) -> bool {
    let k = answers.len() - 1;
    let frames = frames_in(answers);
    &&& k >= 0
    &&& forall|i: int| 0 <= i < k ==> #[trigger] answers[i] is Frame
    &&& good(frames, meta, k)
    &&& match answers.last() {
        Answer::End => {
            &&& r matches Some(Ok(stats))
            &&& stats.total_frames == k
            &&& stats.crc_checked == with_crc(frames, k as nat)
        },
        Answer::Failed(e) => r matches Some(Err(got)) && got == e,
        Answer::Frame(data, crc) => match check((data, crc), meta) {
            FrameCheck::Good(_) => r is None && k == usize::MAX,
            FrameCheck::Stuck => r is None,
            other => if k == usize::MAX {
                r is None
            } else {
                r matches Some(Err(e)) && frame_error(e, other, k as nat)
            },
        },
    }
}

/// Test DST integrity: decode all frames, verify CRC, no output.
///
/// Calls `progress_fn` after each frame (if provided). Gives nothing where a frame holds no
/// table or symbol to go on with.
pub fn test<R: DstFrameReader, F: Fn(usize, usize)>(
    reader: &mut R,
    progress_fn: Option<F>,
) -> (r: Option<Result<TestStats>>)
    requires
        progress_fn matches Some(f) ==> forall|i: usize, n: usize| call_requires(f, (i, n)),
    ensures
        final(reader).meta() == old(reader).meta(),
        old(reader).answers().is_prefix_of(final(reader).answers()),
        tested(
            r,
            final(reader).answers().skip(old(reader).answers().len() as int),
            old(reader).meta(),
        ),
{
    let meta: DsdMetadata = *reader.metadata();
    let n_frames: usize = meta.n_frames;
    let ghost before = reader.answers();
    let ghost mut answers = Seq::<Answer>::empty();
    let mut stats = TestStats { total_frames: 0, crc_checked: 0 };
    proof {
        assert(before + answers =~= before);
    }
    loop
        invariant
            before == old(reader).answers(),
            meta == old(reader).meta(),
            reader.meta() == meta,
            reader.answers() == before + answers,
            stats.total_frames == answers.len(),
            stats.crc_checked == with_crc(frames_in(answers), answers.len()),
            forall|i: int| 0 <= i < answers.len() ==> #[trigger] answers[i] is Frame,
            good(frames_in(answers), meta, answers.len() as int),
            progress_fn matches Some(f) ==> forall|i: usize, n: usize| call_requires(f, (i, n)),
        decreases usize::MAX - stats.total_frames,
    {
        let frames_decoded: usize = stats.total_frames;
        let read: Result<Option<DstFrame>> = reader.next_frame();
        let ghost now = answers.push(reader::answer(read));
        proof {
            lemma_with_crc(frames_in(answers), answers.len());
            lemma_next_answer(answers, reader::answer(read), meta);
            assert((before + answers).push(reader::answer(read)) =~= before + now);
            assert((before + now).skip(before.len() as int) =~= now);
            assert((before + now).subrange(0, before.len() as int) =~= before);
        }
        match read {
            Err(e) => {
                return Some(Err(e));
            },
            Ok(None) => {
                return Some(Ok(stats));
            },
            Ok(Some(f)) => {
                if frames_decoded == usize::MAX {
                    return None;
                }
                match test_frame(&mut stats, &f, &meta) {
                    None => {
                        return None;
                    },
                    Some(Err(e)) => {
                        return Some(Err(e));
                    },
                    Some(Ok(_)) => {},
                }
                proof {
                    answers = now;
                }
                if let Some(cb) = &progress_fn {
                    cb(frames_decoded, n_frames);
                }
            },
        }
    }
}

/// One more answer behind frames that are good.
proof fn lemma_next_answer(answers: Seq<Answer>, next: Answer, meta: DsdMetadata)
    requires
        forall|i: int| 0 <= i < answers.len() ==> #[trigger] answers[i] is Frame,
        good(frames_in(answers), meta, answers.len() as int),
    ensures
        ({
            let now = answers.push(next);
            let n = answers.len();
            &&& forall|i: int| 0 <= i < n ==> #[trigger] now[i] is Frame
            &&& good(frames_in(now), meta, n as int)
            &&& with_crc(frames_in(now), n) == with_crc(frames_in(answers), n)
            &&& next matches Answer::Frame(data, crc) ==> {
                &&& with_crc(frames_in(now), n + 1) == with_crc(frames_in(answers), n) + (
                if crc is Some {
                    1nat
                } else {
                    0nat
                })
                &&& check((data, crc), meta) is Good ==> good(frames_in(now), meta, (n + 1) as int)
            }
        }),
{
    let a = frames_in(answers);
    let b = frames_in(answers.push(next));
    let more = b.last();
    assert(b =~= a.push(more));
    lemma_with_crc_stays(a, more, a.len());
    assert forall|i: int| 0 <= i < a.len() implies check(#[trigger] b[i], meta) is Good by {
        assert(check(a[i], meta) is Good);
    }
}

/// A frame decodes, to enough bytes for a CRC.
pub open spec fn decodes(f: (Seq<u8>, Option<u32>), meta: DsdMetadata) -> bool {
    frame::frame_decoded(
        f.0,
        meta.n_channels as nat,
        meta.frame_bits as nat,
    ) matches frame::Decoded::Channels(channels) && all_long(
        channels,
        meta.frame_bytes_per_ch as nat,
    )
}

/// The CRC of the channels that a frame decodes to.
pub open spec fn decoded_crc(f: (Seq<u8>, Option<u32>), meta: DsdMetadata) -> u32 {
    match frame::frame_decoded(f.0, meta.n_channels as nat, meta.frame_bits as nat) {
        frame::Decoded::Channels(channels) => frame_crc(
            channels,
            meta.frame_bytes_per_ch as nat,
        ),
        _ => 0,
    }
}

/// The CRC of a frame, if it has one, is that of the channels that it decodes to.
pub open spec fn crc_right(f: (Seq<u8>, Option<u32>), meta: DsdMetadata) -> bool {
    f.1 matches Some(expected) ==> expected == decoded_crc(f, meta)
}

/// A test over a reader that has these frames and then ends succeeds exactly if every CRC is
/// right, and then counts all frames. Otherwise it ends at the first frame with a wrong CRC
/// and tells it.
pub proof fn law_test_finds_wrong_crcs(
    r: Option<Result<TestStats>>,
    answers: Seq<Answer>,
    frames: Seq<(Seq<u8>, Option<u32>)>,
    meta: DsdMetadata,
)
    requires
        tested(r, answers, meta),
        answers.len() <= frames.len() + 1,
        forall|i: int|
            0 <= i < answers.len() ==> #[trigger] answers[i] == (if i < frames.len() {
                Answer::Frame(frames[i].0, frames[i].1)
            } else {
                Answer::End
            }),
        forall|i: int| 0 <= i < frames.len() ==> decodes(#[trigger] frames[i], meta),
        frames.len() <= usize::MAX,
    ensures
        r matches Some(Ok(_)) <==> forall|i: int|
            0 <= i < frames.len() ==> crc_right(#[trigger] frames[i], meta),
        r matches Some(Ok(stats)) ==> stats.total_frames == frames.len() && stats.crc_checked
            == with_crc(frames, frames.len()),
        !(r matches Some(Ok(_))) ==> {
            &&& r matches Some(Err(CladstError::CrcMismatch { frame, expected, computed }))
            &&& frame < frames.len()
            &&& forall|i: int| 0 <= i < frame ==> crc_right(#[trigger] frames[i], meta)
            &&& !crc_right(frames[frame as int], meta)
            &&& frames[frame as int].1 == Some(expected)
            &&& computed == decoded_crc(frames[frame as int], meta)
            &&& answers.len() == frame + 1
        },
{
    reveal(check);
    let k = answers.len() - 1;
    let seen = frames_in(answers);
    assert forall|i: int| 0 <= i < k implies crc_right(#[trigger] frames[i], meta) by {
        assert(answers[i] is Frame);
        assert(decodes(frames[i], meta));
        assert(seen[i] == frames[i]);
        assert(check(seen[i], meta) is Good);
    }
    assert(answers.last() == answers[k]);
    if k < frames.len() {
        assert(decodes(frames[k], meta));
    } else {
        assert(seen.take(k) =~= frames);
        lemma_with_crc_prefix(seen, frames, frames.len());
    }
}

/// The frames behind the first `k` do not count.
proof fn lemma_with_crc_prefix(
    a: Seq<(Seq<u8>, Option<u32>)>,
    b: Seq<(Seq<u8>, Option<u32>)>,
    k: nat,
)
    requires
        k <= b.len() <= a.len(),
        a.take(b.len() as int) == b,
    ensures
        with_crc(a, k) == with_crc(b, k),
    decreases k,
{
    if k > 0 {
        lemma_with_crc_prefix(a, b, (k - 1) as nat);
        assert(a.take(b.len() as int)[k - 1] == a[k - 1]);
    }
}

// ---------------------------------------------------------------------------
// Decoding
// ---------------------------------------------------------------------------

/// The sizes in the output file can be counted, with so many frames.
pub open spec fn fits(meta: DsdMetadata, format: OutputFormat, frames: nat) -> bool {
    let len = frames * meta.frame_bytes_per_ch;
    &&& format == OutputFormat::Dsf ==> meta.n_channels > 0
    &&& (len + 4096) * (meta.n_channels + 8) + 4 * meta.n_channels + 400 <= u64::MAX
    &&& len + 4096 <= usize::MAX
    &&& meta.frame_bytes_per_ch * meta.n_channels <= usize::MAX
    &&& frames * meta.frame_bits <= u64::MAX
    &&& frames <= usize::MAX
}

/// So many frames can be written, to either format, as long as their sizes can be counted: 2
/// GiB of every channel always can.
pub proof fn law_any_number_of_frames_fits(meta: DsdMetadata, format: OutputFormat, frames: nat)
    requires
        1 <= meta.n_channels <= 0x4000_0000,
        1 <= meta.frame_bytes_per_ch,
        meta.frame_bytes_per_ch * meta.n_channels <= 0x8000_0000,
        meta.frame_bits <= 8 * meta.frame_bytes_per_ch + 7,
        frames * meta.frame_bytes_per_ch <= 0x8000_0000,
    ensures
        fits(meta, format, frames),
{
    let (n, fb, k) = (meta.n_channels as int, meta.frame_bytes_per_ch as int, frames as int);
    let len = k * fb;
    assert(k <= len) by (nonlinear_arith)
        requires
            len == k * fb,
            fb >= 1,
            k >= 0,
    ;
    assert((len + 4096) * (n + 8) <= 0x8000_1000 * 0x4000_0008) by (nonlinear_arith)
        requires
            0 <= len <= 0x8000_0000,
            0 <= n <= 0x4000_0000,
    ;
    let bits = meta.frame_bits as int;
    assert(k * bits <= 8 * len + 7 * k) by (nonlinear_arith)
        requires
            len == k * fb,
            bits <= 8 * fb + 7,
            k >= 0,
    ;
}

/// Whether the sizes in the output file can be counted, with so many frames.
fn check_fits(meta: &DsdMetadata, format: OutputFormat, frames: usize) -> (r: bool)
    ensures
        r == fits(*meta, format, frames as nat),
{
    let n: u64 = meta.n_channels as u64;
    let fb: usize = meta.frame_bytes_per_ch;
    proof {
        let (x, y) = (fb as int, n as int);
        let l = frames * x;
        assert((l + 4096) * (y + 8) >= l + 4096 && (l + 4096) * (y + 8) >= y + 8 && l >= 0)
            by (nonlinear_arith)
            requires
                l == frames * x,
                frames >= 0,
                x >= 0,
                y >= 0,
        ;
    }
    if format == OutputFormat::Dsf && meta.n_channels == 0 {
        return false;
    }
    if fb.checked_mul(meta.n_channels).is_none() {
        return false;
    }
    if (frames as u64).checked_mul(meta.frame_bits as u64).is_none() {
        return false;
    }
    let len: usize = match frames.checked_mul(fb) {
        Some(len) => len,
        None => {
            return false;
        },
    };
    let padded: usize = match len.checked_add(4096) {
        Some(p) => p,
        None => {
            return false;
        },
    };
    let wide: u64 = match n.checked_add(8) {
        Some(w) => w,
        None => {
            return false;
        },
    };
    let area: u64 = match (padded as u64).checked_mul(wide) {
        Some(a) => a,
        None => {
            return false;
        },
    };
    let ids: u64 = match n.checked_mul(4) {
        Some(i) => i,
        None => {
            return false;
        },
    };
    match area.checked_add(ids) {
        Some(sum) => sum <= u64::MAX - 400,
        None => false,
    }
}

/// The bytes of a channel in the first `k` frames.
pub open spec fn channel_data(frames: Seq<Seq<Seq<u8>>>, ch: int, k: nat) -> Seq<u8>
    decreases k,
{
    if k == 0 {
        Seq::empty()
    } else {
        channel_data(frames, ch, (k - 1) as nat) + frames[k - 1][ch]
    }
}

/// The bytes of all channels in frames.
pub open spec fn all_channel_data(frames: Seq<Seq<Seq<u8>>>, n_channels: nat) -> Seq<Seq<u8>> {
    Seq::new(n_channels, |ch: int| channel_data(frames, ch, frames.len()))
}

/// The output file of a decode run.
pub open spec fn output_file(
    meta: DsdMetadata,
    format: OutputFormat,
    frames: Seq<Seq<Seq<u8>>>,
) -> Seq<u8> {
    let n = meta.n_channels as nat;
    let fb = meta.frame_bytes_per_ch as nat;
    let samples = frames.len() * meta.frame_bits;
    match format {
        OutputFormat::Dsf => {
            let groups = (frames.len() * fb + 4095) as nat / 4096;
            dsf::dsf_file(
                meta.sample_rate,
                all_channel_data(frames, n),
                if samples > 0 {
                    samples as nat
                } else {
                    8 * (4096 * groups)
                },
                groups,
            )
        },
        OutputFormat::DsdiffUncompressed => {
            let data = dsd::joined(frames, fb, frames.len());
            let size = dsd::dsd_file(0, meta.sample_rate, n, 0, data).len();
            dsd::dsd_file(
                (size - 12) as nat,
                meta.sample_rate,
                n,
                (frames.len() * (fb * n)) as nat,
                data,
            )
        },
    }
}

/// Enum-dispatch DSD writer: static dispatch without trait object vtable.
enum DsdWriter {
    Dsf(Box<DsfWriter>),
    Dsdiff(DsdDsdiffWriter),
}

/// A decode run between two frames.
pub struct Decoder {
    metadata: DsdMetadata,
    writer: DsdWriter,
    frames_decoded: usize,
    crc_checked: usize,
    taken: Ghost<Seq<Seq<Seq<u8>>>>,
    seen: Ghost<Seq<(Seq<u8>, Option<u32>)>>,
}

/// What comes of a frame in a decode run.
pub enum DecodeStep {
    /// Bytes to append to the output file.
    Write(Vec<u8>),
    /// The run ends with an error.
    Failed(CladstError),
    /// The frame holds no table or symbol to go on with, or too few bytes, or the output
    /// file grows too large to be counted.
    Stuck,
}

/// The bytes of the channels that are written.
pub open spec fn written_part(channels: Seq<Seq<u8>>, n: nat) -> Seq<Seq<u8>> {
    channels.map_values(|c: Seq<u8>| c.take(n as int))
}

impl Decoder {
    /// The audio metadata.
    pub closed spec fn meta(self) -> DsdMetadata {
        self.metadata
    }

    /// The output format.
    pub closed spec fn format(self) -> OutputFormat {
        match self.writer {
            DsdWriter::Dsf(_) => OutputFormat::Dsf,
            DsdWriter::Dsdiff(_) => OutputFormat::DsdiffUncompressed,
        }
    }

    /// The channels of the frames decoded so far.
    pub closed spec fn decoded(self) -> Seq<Seq<Seq<u8>>> {
        self.taken@
    }

    /// The frames so far.
    pub closed spec fn frames(self) -> Seq<(Seq<u8>, Option<u32>)> {
        self.seen@
    }

    /// The bytes of the output file so far.
    pub closed spec fn written(self) -> Seq<u8> {
        match self.writer {
            DsdWriter::Dsf(w) => w.written(),
            DsdWriter::Dsdiff(w) => w.written(),
        }
    }

    /// The run is in a state that its operations leave behind.
    pub closed spec fn wf(self) -> bool {
        let meta = self.metadata;
        let n = meta.n_channels as nat;
        let fb = meta.frame_bytes_per_ch as nat;
        let k = self.taken@.len();
        &&& fits(meta, self.format(), k)
        &&& self.frames_decoded == k
        &&& self.seen@.len() == k
        &&& self.crc_checked == with_crc(self.seen@, k)
        &&& match self.writer {
            DsdWriter::Dsf(w) => {
                &&& w.wf()
                &&& w.sample_rate() == meta.sample_rate
                &&& w.channels() == all_channel_data(self.taken@, n)
                &&& w.len() == k * fb
            },
            DsdWriter::Dsdiff(w) => {
                &&& w.wf()
                &&& w.sample_rate() == meta.sample_rate
                &&& w.channel_count() == n
                &&& w.data() == dsd::joined(self.taken@, fb, k)
                &&& w.data_size() == k * (fb * n)
                &&& w.written().len() <= 4 * n + 200 + k * (fb * n)
            },
        }
    }

    /// Start a decode run; nothing where the output file is too large to be counted.
    ///
    /// Hands out the first bytes of the output file.
    pub fn start(meta: &DsdMetadata, format: OutputFormat) -> (r: Option<(Self, Vec<u8>)>)
        ensures
            r is Some <==> fits(*meta, format, 0),
            meta.n_channels >= 1 && meta.n_channels <= 0x4_0000_0000_0000 && meta.frame_bytes_per_ch
                * meta.n_channels <= usize::MAX ==> r is Some,
            r matches Some((d, out)) ==> {
                &&& d.wf()
                &&& d.meta() == *meta
                &&& d.format() == format
                &&& d.decoded() == Seq::<Seq<Seq<u8>>>::empty()
                &&& d.frames() == Seq::<(Seq<u8>, Option<u32>)>::empty()
                &&& out@ == d.written()
            },
    {
        proof {
            let (n, fb) = (meta.n_channels as int, meta.frame_bytes_per_ch as int);
            assert(0 * (fb * n) == 0 && 0 * fb == 0 && 0 * meta.frame_bits == 0);
            assert((0 * fb + 4096) * (n + 8) == 4096 * (n + 8));
        }
        if !check_fits(meta, format, 0) {
            return None;
        }
        proof {
            dsd::lemma_form_rest_len(
                meta.sample_rate,
                meta.n_channels as nat,
                chunk::DSD@,
                dsd::DSD_NAME@,
            );
            dsd::lemma_dsd_file_len(
                0,
                meta.sample_rate,
                meta.n_channels as nat,
                0,
                Seq::<u8>::empty(),
            );
        }
        let ghost empty = Seq::<Seq<Seq<u8>>>::empty();
        let (writer, out) = match format {
            OutputFormat::Dsf => {
                let (w, out) = DsfWriter::new(meta.sample_rate, meta.n_channels);
                proof {
                    assert(w.channels() =~= all_channel_data(empty, meta.n_channels as nat));
                }
                (DsdWriter::Dsf(Box::new(w)), out)
            },
            OutputFormat::DsdiffUncompressed => {
                let (w, out) = DsdDsdiffWriter::new(meta.sample_rate, meta.n_channels);
                (DsdWriter::Dsdiff(w), out)
            },
        };
        let d = Decoder {
            metadata: *meta,
            writer,
            frames_decoded: 0,
            crc_checked: 0,
            taken: Ghost(empty),
            seen: Ghost(Seq::empty()),
        };
        Some((d, out))
    }
}

proof fn lemma_channel_data_stays(
    a: Seq<Seq<Seq<u8>>>,
    more: Seq<Seq<u8>>,
    ch: int,
    k: nat,
)
    requires
        k <= a.len(),
    ensures
        channel_data(a.push(more), ch, k) == channel_data(a, ch, k),
    decreases k,
{
    if k > 0 {
        lemma_channel_data_stays(a, more, ch, (k - 1) as nat);
    }
}

proof fn lemma_joined_stays(a: Seq<Seq<Seq<u8>>>, more: Seq<Seq<u8>>, fb: nat, k: nat)
    requires
        k <= a.len(),
    ensures
        dsd::joined(a.push(more), fb, k) == dsd::joined(a, fb, k),
    decreases k,
{
    if k > 0 {
        lemma_joined_stays(a, more, fb, (k - 1) as nat);
    }
}

/// Interleaving does not look behind the bytes that are written.
pub proof fn lemma_interleaved_part(channels: Seq<Seq<u8>>, n: nat)
    requires
        all_long(channels, n),
    ensures
        frame::interleaved(written_part(channels, n), n) == frame::interleaved(channels, n),
{
    let a = frame::interleaved(written_part(channels, n), n);
    let b = frame::interleaved(channels, n);
    let m = channels.len() as int;
    assert forall|k: int| 0 <= k < b.len() implies a[k] == b[k] by {
        vstd::arithmetic::div_mod::lemma_fundamental_div_mod(k, m);
        vstd::arithmetic::div_mod::lemma_mod_bound(k, m);
        assert(0 <= k / m < n) by (nonlinear_arith)
            requires
                k == m * (k / m) + k % m,
                0 <= k % m < m,
                0 <= k < m * n,
        ;
        assert(n <= channels[k % m].len());
    }
    assert(a =~= b);
}

/// What the sizes come to with one more frame.
proof fn lemma_room(meta: DsdMetadata, format: OutputFormat, k: nat)
    requires
        fits(meta, format, k + 1),
    ensures
        ({
            let n = meta.n_channels as int;
            let fb = meta.frame_bytes_per_ch as int;
            &&& (k + 1) * fb == k * fb + fb
            &&& 92 + n * (k * fb + fb + 4096) <= u64::MAX
            &&& 8 * (k * fb + fb + 4096) <= u64::MAX
            &&& k * fb + fb + 4096 <= usize::MAX
            &&& (k + 1) * (fb * n) == k * (fb * n) + fb * n
            &&& 4 * n + 200 + (k + 1) * (fb * n) <= u64::MAX
            &&& k * (fb * n) >= 0
        }),
{
    let n = meta.n_channels as int;
    let fb = meta.frame_bytes_per_ch as int;
    let l = (k + 1) * fb;
    assert(l == k * fb + fb) by (nonlinear_arith)
        requires
            l == (k + 1) * fb,
    ;
    let area = (l + 4096) * (n + 8);
    assert(area == n * (l + 4096) + 8 * (l + 4096)) by (nonlinear_arith)
        requires
            area == (l + 4096) * (n + 8),
    ;
    assert(n * (l + 4096) == l * n + 4096 * n) by (nonlinear_arith);
    assert(l * n == (k + 1) * (fb * n)) by (nonlinear_arith)
        requires
            l == (k + 1) * fb,
    ;
    assert((k + 1) * (fb * n) == k * (fb * n) + fb * n) by (nonlinear_arith);
    assert(0 <= l && 0 <= l * n && 0 <= k * (fb * n)) by (nonlinear_arith)
        requires
            l == (k + 1) * fb,
            k >= 0,
            fb >= 0,
            n >= 0,
    ;
}

/// Decode the next frame of a run.
///
/// The frame number in an error is that of the frame within the run.
pub fn decode(decoder: &mut Decoder, f: &DstFrame) -> (r: DecodeStep)
    requires
        old(decoder).wf(),
    ensures
        ({
            let meta = old(decoder).meta();
            let fb = meta.frame_bytes_per_ch as nat;
            let k = old(decoder).decoded().len();
            let c = check(f@, meta);
            match r {
                DecodeStep::Write(out) => {
                    &&& c matches FrameCheck::Good(channels)
                    &&& all_long(channels, fb)
                    &&& fits(meta, old(decoder).format(), k + 1)
                    &&& final(decoder).wf()
                    &&& final(decoder).meta() == meta
                    &&& final(decoder).format() == old(decoder).format()
                    &&& final(decoder).decoded() == old(decoder).decoded().push(
                        written_part(channels, fb),
                    )
                    &&& final(decoder).frames() == old(decoder).frames().push(f@)
                    &&& final(decoder).written() == old(decoder).written() + out@
                },
                DecodeStep::Failed(e) => frame_error(e, c, k) && *final(decoder) == *old(decoder),
                DecodeStep::Stuck => *final(decoder) == *old(decoder) && match c {
                    FrameCheck::Stuck => true,
                    FrameCheck::Good(channels) => !all_long(channels, fb) || !fits(
                        meta,
                        old(decoder).format(),
                        k + 1,
                    ),
                    _ => false,
                },
            }
        }),
        // However many frames there are, a good one is written if the sizes can be counted.
        ({
            let meta = old(decoder).meta();
            let n = meta.n_channels as int;
            let frames = old(decoder).decoded().len() + 1;
            let len = frames * meta.frame_bytes_per_ch;
            &&& check(f@, meta) matches FrameCheck::Good(channels)
            &&& forall|ch: int|
                0 <= ch < n ==> (#[trigger] channels[ch]).len() >= meta.frame_bytes_per_ch
            &&& n >= 1
            &&& frames <= usize::MAX
            &&& len + 4096 <= usize::MAX
            &&& meta.frame_bytes_per_ch * n <= usize::MAX
            &&& frames * meta.frame_bits <= u64::MAX
            &&& (len + 4096) * (n + 8) + 4 * n + 400 <= u64::MAX
        }) ==> r is Write,
{
    proof {
        lemma_good_channels(f@, decoder.metadata);
    }
    let meta: DsdMetadata = decoder.metadata;
    let fb: usize = meta.frame_bytes_per_ch;
    let ghost n = meta.n_channels as nat;
    let ghost k = decoder.taken@.len();
    let format: OutputFormat = match &decoder.writer {
        DsdWriter::Dsf(_) => OutputFormat::Dsf,
        DsdWriter::Dsdiff(_) => OutputFormat::DsdiffUncompressed,
    };
    let decoded: Vec<Vec<u8>> = match check_frame(f, &meta, decoder.frames_decoded) {
        None => {
            return DecodeStep::Stuck;
        },
        Some(Err(e)) => {
            return DecodeStep::Failed(e);
        },
        Some(Ok(channels)) => channels,
    };
    let ghost channels = frame::views8(decoded@);
    if !are_long(decoded.as_slice(), fb) {
        return DecodeStep::Stuck;
    }
    if decoder.frames_decoded == usize::MAX || !check_fits(
        &meta,
        format,
        decoder.frames_decoded + 1,
    ) {
        return DecodeStep::Stuck;
    }
    let ghost part = written_part(channels, fb as nat);
    let ghost before = decoder.taken@;
    let ghost after = before.push(part);
    proof {
        lemma_room(meta, format, k);
        lemma_good_channels(f@, meta);
        assert forall|ch: int| 0 <= ch < decoded@.len() implies fb <= (
        #[trigger] decoded@[ch])@.len() by {
            assert(fb <= channels[ch].len());
        }
        lemma_with_crc(decoder.seen@, k);
        lemma_with_crc_stays(decoder.seen@, f@, k);
    }
    let out: Vec<u8> = match &mut decoder.writer {
        DsdWriter::Dsf(w) => {
            let out: Vec<u8> = w.write_frame(decoded.as_slice(), fb);
            proof {
                assert(w.channels() =~= all_channel_data(after, n)) by {
                    assert forall|ch: int| 0 <= ch < n implies w.channels()[ch] == all_channel_data(
                        after,
                        n,
                    )[ch] by {
                        lemma_channel_data_stays(before, part, ch, k);
                        assert(part[ch] =~= dsf::frame_bytes(decoded@, fb as int)[ch]);
                    }
                }
            }
            out
        },
        DsdWriter::Dsdiff(w) => {
            let out: Vec<u8> = w.write_frame(decoded.as_slice(), fb);
            proof {
                lemma_joined_stays(before, part, fb as nat, k);
                lemma_interleaved_part(channels, fb as nat);
            }
            out
        },
    };
    if f.crc.is_some() {
        decoder.crc_checked = decoder.crc_checked + 1;
    }
    decoder.frames_decoded = decoder.frames_decoded + 1;
    proof {
        decoder.taken@ = after;
        decoder.seen@ = decoder.seen@.push(f@);
    }
    DecodeStep::Write(out)
}

proof fn lemma_with_crc_stays(
    a: Seq<(Seq<u8>, Option<u32>)>,
    more: (Seq<u8>, Option<u32>),
    k: nat,
)
    requires
        k <= a.len(),
    ensures
        with_crc(a.push(more), k) == with_crc(a, k),
    decreases k,
{
    if k > 0 {
        lemma_with_crc_stays(a, more, (k - 1) as nat);
    }
}

/// The channels of a good frame are those that were asked for.
proof fn lemma_good_channels(f: (Seq<u8>, Option<u32>), meta: DsdMetadata)
    ensures
        check(f, meta) matches FrameCheck::Good(channels) ==> channels.len() == meta.n_channels,
{
    reveal(check);
    if meta.n_channels >= 1 {
        lossless::law_decoded_shape(f.0, meta.n_channels as nat, meta.frame_bits as nat);
    } else {
        lossless::lemma_no_channels(f.0, meta.frame_bits as nat);
    }
}

impl Decoder {
    /// End a decode run: complete the output file.
    pub fn finish(self) -> (r: (FileEnd, DecodeStats))
        requires
            self.wf(),
        ensures
            r.0.complete(self.written()) == output_file(
                self.meta(),
                self.format(),
                self.decoded(),
            ),
            r.1.total_frames == self.decoded().len(),
            r.1.crc_checked == with_crc(self.frames(), self.frames().len()),
    {
        proof {
            let n = self.metadata.n_channels as int;
            let fb = self.metadata.frame_bytes_per_ch as int;
            let k = self.taken@.len() as int;
            let l = k * fb;
            let area = (l + 4096) * (n + 8);
            assert(area == n * (l + 4096) + 8 * (l + 4096) && n * (l + 4096) >= 0) by (nonlinear_arith)
                requires
                    area == (l + 4096) * (n + 8),
                    n >= 0,
                    l == k * fb,
                    k >= 0,
                    fb >= 0,
            ;
        }
        let total_samples: u64 = self.frames_decoded as u64 * self.metadata.frame_bits as u64;
        let stats = DecodeStats { total_frames: self.frames_decoded, crc_checked: self.crc_checked };
        let end: FileEnd = match self.writer {
            DsdWriter::Dsf(w) => {
                let w: DsfWriter = *w;
                w.finish(total_samples)
            },
            DsdWriter::Dsdiff(w) => w.finish(),
        };
        (end, stats)
    }
}

// ---------------------------------------------------------------------------
// What is decoded comes back
// ---------------------------------------------------------------------------

/// Frames are as the metadata says: whole bytes of so many channels.
pub open spec fn shaped(meta: DsdMetadata, frames: Seq<Seq<Seq<u8>>>) -> bool {
    &&& meta.frame_bits == 8 * meta.frame_bytes_per_ch
    &&& meta.frame_bytes_per_ch > 0
    &&& forall|k: int| 0 <= k < frames.len() ==> frame_shaped(meta, #[trigger] frames[k])
}

/// A frame has the channels and the bytes that the metadata says.
pub open spec fn frame_shaped(meta: DsdMetadata, channels: Seq<Seq<u8>>) -> bool {
    &&& channels.len() == meta.n_channels
    &&& forall|ch: int|
        0 <= ch < channels.len() ==> (#[trigger] channels[ch]).len() == meta.frame_bytes_per_ch
}

/// Where the bytes of a frame stand in those of a channel.
proof fn lemma_channel_data(meta: DsdMetadata, frames: Seq<Seq<Seq<u8>>>, ch: int, k: nat)
    requires
        shaped(meta, frames),
        0 <= ch < meta.n_channels,
        k <= frames.len(),
    ensures
        channel_data(frames, ch, k).len() == k * meta.frame_bytes_per_ch,
        forall|i: int, j: int|
            0 <= i < k && 0 <= j < meta.frame_bytes_per_ch ==> channel_data(frames, ch, k)[i
                * meta.frame_bytes_per_ch + j] == #[trigger] frames[i][ch][j],
    decreases k,
{
    let fb = meta.frame_bytes_per_ch as int;
    if k > 0 {
        let before = channel_data(frames, ch, (k - 1) as nat);
        let last = frames[k - 1];
        lemma_channel_data(meta, frames, ch, (k - 1) as nat);
        assert(frame_shaped(meta, last));
        assert(last[ch].len() == fb);
        assert(k * fb == (k - 1) * fb + fb) by (nonlinear_arith);
        assert forall|i: int, j: int| 0 <= i < k && 0 <= j < fb implies channel_data(
            frames,
            ch,
            k,
        )[i * fb + j] == #[trigger] frames[i][ch][j] by {
            if i < k - 1 {
                assert(0 <= i * fb && i * fb + j < (k - 1) * fb) by (nonlinear_arith)
                    requires
                        0 <= i < k - 1,
                        0 <= j < fb,
                ;
                assert(before[i * fb + j] == frames[i][ch][j]);
            }
        }
    } else {
        assert(0 * fb == 0);
    }
}

/// The sizes of a DSF file.
proof fn lemma_dsf_sizes(meta: DsdMetadata, k: nat)
    requires
        fits(meta, OutputFormat::Dsf, k),
    ensures
        ({
            let n = meta.n_channels as int;
            let len = k * meta.frame_bytes_per_ch;
            let groups = (len + 4095) / 4096;
            &&& 0 <= len <= 4096 * groups
            &&& 8 * len <= u64::MAX
            &&& len <= usize::MAX
            &&& 12 + groups * (n * 4096) + 80 <= u64::MAX
        }),
{
    let n = meta.n_channels as int;
    let len = k * meta.frame_bytes_per_ch;
    let groups = (len + 4095) / 4096;
    let area = (len + 4096) * (n + 8);
    assert(len >= 0) by (nonlinear_arith)
        requires
            len == k * meta.frame_bytes_per_ch,
    ;
    assert(area == (len + 4096) * n + 8 * (len + 4096)) by (nonlinear_arith)
        requires
            area == (len + 4096) * (n + 8),
    ;
    assert(groups * (n * 4096) <= (len + 4096) * n && (len + 4096) * n >= 0) by (nonlinear_arith)
        requires
            groups * 4096 <= len + 4096,
            n >= 0,
            len >= 0,
    ;
}

/// A DSF file that frames were decoded to opens, and its frames are those that were decoded.
pub proof fn law_dsf_output_comes_back(meta: DsdMetadata, frames: Seq<Seq<Seq<u8>>>, i: nat)
    requires
        shaped(meta, frames),
        fits(meta, OutputFormat::Dsf, frames.len()),
        meta.sample_rate / 75 / 8 > 0,
        meta.n_channels <= u32::MAX,
        i < frames.len(),
    ensures
        ({
            let file = output_file(meta, OutputFormat::Dsf, frames);
            let n = meta.n_channels as nat;
            let fb = meta.frame_bytes_per_ch as nat;
            let len = frames.len() * fb;
            let received = dsf::receive_groups(
                file.skip(92),
                n,
                4096,
                len,
                (len + 4095) as nat / 4096,
            );
            &&& open::open_outcome(file) == open::OpenOutcome::Dsf(
                dsf::DsfHeader {
                    sample_rate: meta.sample_rate,
                    channel_count: meta.n_channels,
                    sample_count: (8 * len) as u64,
                    block_size: 4096,
                    valid_bytes_per_ch: len as usize,
                    data_start: 92,
                },
            )
            &&& received.map_values(|c: Seq<u8>| dsf::frame_of(c, i as int, fb))
                == frames[i as int]
        }),
{
    lemma_dsf_output_opens(meta, frames);
    lemma_dsf_output_received(meta, frames);
    lemma_frames_of_channels(meta, frames, i);
}

/// The DSF file of frames opens.
proof fn lemma_dsf_output_opens(meta: DsdMetadata, frames: Seq<Seq<Seq<u8>>>)
    requires
        shaped(meta, frames),
        fits(meta, OutputFormat::Dsf, frames.len()),
        meta.sample_rate / 75 / 8 > 0,
        meta.n_channels <= u32::MAX,
        frames.len() > 0,
    ensures
        ({
            let len = frames.len() * meta.frame_bytes_per_ch as nat;
            open::open_outcome(output_file(meta, OutputFormat::Dsf, frames))
                == open::OpenOutcome::Dsf(
                dsf::DsfHeader {
                    sample_rate: meta.sample_rate,
                    channel_count: meta.n_channels,
                    sample_count: (8 * len) as u64,
                    block_size: 4096,
                    valid_bytes_per_ch: len as usize,
                    data_start: 92,
                },
            )
        }),
{
    let len = frames.len() * meta.frame_bytes_per_ch as nat;
    let groups = (len + 4095) as nat / 4096;
    let channels = all_channel_data(frames, meta.n_channels as nat);
    lemma_dsf_sizes(meta, frames.len());
    lemma_dsf_output(meta, frames);
    open::law_dsf_file_opens(meta.sample_rate, channels, len, 8 * len, groups);
}

/// The channels in the DSF file of frames are those of the frames.
proof fn lemma_dsf_output_received(meta: DsdMetadata, frames: Seq<Seq<Seq<u8>>>)
    requires
        shaped(meta, frames),
        fits(meta, OutputFormat::Dsf, frames.len()),
        meta.n_channels <= u32::MAX,
        frames.len() > 0,
    ensures
        ({
            let n = meta.n_channels as nat;
            let len = frames.len() * meta.frame_bytes_per_ch as nat;
            dsf::receive_groups(
                output_file(meta, OutputFormat::Dsf, frames).skip(92),
                n,
                4096,
                len,
                (len + 4095) as nat / 4096,
            ) == all_channel_data(frames, n).map_values(|c: Seq<u8>| c.take(len as int))
        }),
{
    let len = frames.len() * meta.frame_bytes_per_ch as nat;
    let groups = (len + 4095) as nat / 4096;
    let channels = all_channel_data(frames, meta.n_channels as nat);
    lemma_dsf_sizes(meta, frames.len());
    lemma_dsf_output(meta, frames);
    dsf::law_dsf_round_trip(meta.sample_rate, channels, len, 8 * len, groups);
}

/// The DSF file of frames holds the bytes of their channels, and counts their bits.
proof fn lemma_dsf_output(meta: DsdMetadata, frames: Seq<Seq<Seq<u8>>>)
    requires
        shaped(meta, frames),
        frames.len() > 0,
    ensures
        ({
            let channels = all_channel_data(frames, meta.n_channels as nat);
            let len = frames.len() * meta.frame_bytes_per_ch as nat;
            &&& len > 0
            &&& output_file(meta, OutputFormat::Dsf, frames) == dsf::dsf_file(
                meta.sample_rate,
                channels,
                8 * len,
                (len + 4095) as nat / 4096,
            )
            &&& forall|ch: int|
                0 <= ch < meta.n_channels ==> (#[trigger] channels[ch]).len() == len
        }),
{
    let fb = meta.frame_bytes_per_ch as nat;
    let k = frames.len();
    let len = k * fb;
    let channels = all_channel_data(frames, meta.n_channels as nat);
    assert(k * meta.frame_bits == 8 * len && len > 0) by (nonlinear_arith)
        requires
            meta.frame_bits == 8 * fb,
            len == k * fb,
            k > 0,
            fb > 0,
    ;
    assert forall|ch: int| 0 <= ch < meta.n_channels implies (#[trigger] channels[ch]).len()
        == len by {
        lemma_channel_data(meta, frames, ch, k);
    }
}

/// The frames, taken from the bytes of the channels.
proof fn lemma_frames_of_channels(meta: DsdMetadata, frames: Seq<Seq<Seq<u8>>>, i: nat)
    requires
        shaped(meta, frames),
        i < frames.len(),
    ensures
        ({
            let fb = meta.frame_bytes_per_ch as nat;
            let len = frames.len() * fb;
            let received = all_channel_data(frames, meta.n_channels as nat).map_values(
                |c: Seq<u8>| c.take(len as int),
            );
            received.map_values(|c: Seq<u8>| dsf::frame_of(c, i as int, fb)) == frames[i as int]
        }),
{
    let n = meta.n_channels as nat;
    let fb = meta.frame_bytes_per_ch as nat;
    let k = frames.len();
    let len = k * fb;
    let channels = all_channel_data(frames, n);
    let received = channels.map_values(|c: Seq<u8>| c.take(len as int));
    let back = received.map_values(|c: Seq<u8>| dsf::frame_of(c, i as int, fb));
    let want = frames[i as int];
    assert(frame_shaped(meta, want));
    assert forall|ch: int| 0 <= ch < n implies back[ch] == want[ch] by {
        lemma_channel_data(meta, frames, ch, k);
        assert(received[ch] =~= channels[ch]);
        assert(want[ch].len() == fb);
        assert forall|j: int| 0 <= j < fb implies back[ch][j] == want[ch][j] by {
            assert(i * fb + j < len) by (nonlinear_arith)
                requires
                    len == k * fb,
                    i < k,
                    j < fb,
            ;
            assert(channels[ch][i * fb + j] == frames[i as int][ch][j]);
        }
        assert(back[ch] =~= want[ch]);
    }
    assert(back =~= want);
}

/// The length of the data of frames.
proof fn lemma_joined_len(meta: DsdMetadata, frames: Seq<Seq<Seq<u8>>>, k: nat)
    requires
        shaped(meta, frames),
        k <= frames.len(),
    ensures
        dsd::joined(frames, meta.frame_bytes_per_ch as nat, k).len() == k
            * (meta.frame_bytes_per_ch * meta.n_channels),
    decreases k,
{
    let fb = meta.frame_bytes_per_ch as int;
    let n = meta.n_channels as int;
    if k > 0 {
        lemma_joined_len(meta, frames, (k - 1) as nat);
        assert(frame_shaped(meta, frames[k - 1]));
        assert(k * (fb * n) == (k - 1) * (fb * n) + n * fb) by (nonlinear_arith);
    } else {
        assert(0 * (fb * n) == 0);
    }
}

/// An uncompressed DSDIFF file that frames were decoded to opens, and its frames are those
/// that were decoded.
pub proof fn law_dsdiff_output_comes_back(meta: DsdMetadata, frames: Seq<Seq<Seq<u8>>>, i: nat)
    requires
        shaped(meta, frames),
        meta.sample_rate / 75 / 8 > 0,
        1 <= meta.n_channels <= 0xffff,
        8 * (frames.len() * meta.frame_bytes_per_ch) <= u64::MAX,
        output_file(meta, OutputFormat::DsdiffUncompressed, frames).len() <= i64::MAX,
        i < frames.len(),
    ensures
        ({
            let file = output_file(meta, OutputFormat::DsdiffUncompressed, frames);
            let n = meta.n_channels as nat;
            let fb = meta.frame_bytes_per_ch as nat;
            let size = frames.len() * (fb * n);
            let offset = (file.len() - size) as nat;
            &&& open::open_outcome(file) == open::OpenOutcome::Dsd(
                dsd::file_props(meta.sample_rate, n, chunk::DSD@),
                offset,
                size,
            )
            &&& dsd::deinterleaved(
                dsd::frame_data(file.skip(offset as int), i, n * fb),
                n,
                fb,
            ) == frames[i as int]
        }),
{
    let n = meta.n_channels as nat;
    let fb = meta.frame_bytes_per_ch as nat;
    let data = dsd::joined(frames, fb, frames.len());
    let form_size = (dsd::dsd_file(0, meta.sample_rate, n, 0, data).len() - 12) as nat;
    let file = output_file(meta, OutputFormat::DsdiffUncompressed, frames);
    let k = frames.len() as int;
    lemma_joined_len(meta, frames, frames.len());
    dsd::lemma_dsd_file_len(form_size, meta.sample_rate, n, data.len(), data);
    assert(data.len() > 0) by (nonlinear_arith)
        requires
            data.len() == k * (fb * n),
            k > 0,
            fb > 0,
            n > 0,
    ;
    assert(data.len() / n == k * fb) by {
        assert(k * (fb * n) == n * (k * fb)) by (nonlinear_arith);
        vstd::arithmetic::div_mod::lemma_div_multiples_vanish(k * fb, n as int);
    }
    open::law_dsd_file_opens(form_size, meta.sample_rate, n, data);
    dsd::law_dsd_file_scans(form_size, meta.sample_rate, n, data);
    assert forall|j: int| 0 <= j < frames.len() implies (#[trigger] frames[j]).len() == n by {
        assert(frame_shaped(meta, frames[j]));
    }
    assert(frame_shaped(meta, frames[i as int]));
    dsd::law_dsd_frames_round_trip(frames, n, fb, i);
}

} // verus!

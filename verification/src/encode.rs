//! DST encoding pipeline: DSD data to DST-compressed DSDIFF.

use vstd::prelude::*;

use crate::codec::bits;
use crate::codec::frame;
use crate::codec::frame::{encode_dst_frame, try_decode_dst_frame, MAX_FRAME_CHANNELS};
use crate::codec::fir;
use crate::codec::lossless;
use crate::decode;
use crate::error::{CladstError, Result};
use crate::format::dsdiff::chunk;
use crate::format::dsdiff::dsd;
use crate::format::dsdiff::dst;
use crate::format::dsdiff::dst::DstDsdiffWriter;
use crate::format::metadata::DsdMetadata;
use crate::format::open;
use crate::format::patch::FileEnd;
use crate::format::reader::DsdFrame;

verus! {

/// Encoding options.
pub struct EncodeOptions {
    /// FIR prediction order (1-128).
    pub pred_order: usize,
    /// Share filter coefficients across channels.
    pub share_filters: bool,
    /// Use HalfProb (p=128 for first pred_order samples).
    pub half_prob: bool,
    /// Verify encoding by decoding each frame inline.
    pub verify: bool,
    /// Number of threads for parallel encoding.
    /// 0 = use all available cores, 1 = single-threaded (no thread pool).
    pub threads: usize,
}

impl Default for EncodeOptions {
    fn default() -> (r: Self)
        ensures
            r == (EncodeOptions {
                pred_order: 128,
                share_filters: true,
                half_prob: true,
                verify: false,
                threads: 0,
            }),
    {
        EncodeOptions {
            pred_order: 128,
            share_filters: true,
            half_prob: true,
            verify: false,
            threads: 0,
        }
    }
}

// ---------------------------------------------------------------------------
// Single frames
// ---------------------------------------------------------------------------

/// The first bits of packed channels.
pub open spec fn leading_bits(channels: Seq<Seq<u8>>, n_bits: nat) -> Seq<Seq<bool>> {
    channels.map_values(|c: Seq<u8>| bits::unpack(c).take(n_bits as int))
}

/// A frame can be coded: there are channels with enough bytes, filters of the prediction
/// order, and the bits can be counted.
pub open spec fn encodable(
    channels: Seq<Seq<u8>>,
    coefs: Seq<Seq<i16>>,
    frame_bits: nat,
    options: EncodeOptions,
) -> bool {
    &&& channels.len() >= 1
    &&& forall|ch: int|
        0 <= ch < channels.len() ==> frame_bits <= 8 * (#[trigger] channels[ch]).len()
    &&& 1 <= options.pred_order <= 128
    &&& coefs.len() == (if options.share_filters {
        1
    } else {
        channels.len()
    })
    &&& forall|f: int| 0 <= f < coefs.len() ==> (#[trigger] coefs[f]).len() == options.pred_order
    &&& frame::frame_fits(channels.len(), frame_bits)
}

/// The bytes of a coded frame.
pub open spec fn frame_code(
    channels: Seq<Seq<u8>>,
    coefs: Seq<Seq<i16>>,
    frame_bits: nat,
    options: EncodeOptions,
) -> Seq<u8> {
    bits::pack(
        frame::frame_plan(
            leading_bits(channels, frame_bits),
            coefs,
            options.share_filters,
            options.half_prob,
        ).frame(frame_bits),
    )
}

/// How many of the first `n` bytes differ.
pub open spec fn differences(a: Seq<u8>, b: Seq<u8>, n: nat) -> nat
    decreases n,
{
    if n == 0 {
        0
    } else {
        differences(a, b, (n - 1) as nat) + (if a[n - 1] != b[n - 1] {
            1nat
        } else {
            0nat
        })
    }
}

/// The length of the shorter one.
pub open spec fn shorter(a: Seq<u8>, b: Seq<u8>) -> nat {
    if a.len() < b.len() {
        a.len()
    } else {
        b.len()
    }
}

/// The channels that the filters of a frame are computed from: the first one if it is shared
/// by all, otherwise each.
pub fn filter_sources(n_channels: usize, share_filters: bool) -> (r: Vec<usize>)
    ensures
        r@ == (if share_filters {
            seq![0usize]
        } else {
            Seq::new(n_channels as nat, |i: int| i as usize)
        }),
{
    let mut sources: Vec<usize> = Vec::new();
    if share_filters {
        sources.push(0);
        assert(sources@ =~= seq![0usize]);
        return sources;
    }
    let mut ch: usize = 0;
    while ch < n_channels
        invariant
            ch <= n_channels,
            sources@ == Seq::new(ch as nat, |i: int| i as usize),
        decreases n_channels - ch,
    {
        sources.push(ch);
        ch = ch + 1;
        assert(sources@ =~= Seq::new(ch as nat, |i: int| i as usize));
    }
    sources
}

/// What comes of coding a frame, and decoding it again if that was asked for.
pub enum SingleFrame {
    /// The coded bytes.
    Coded(Seq<u8>),
    /// The decoder refuses the frame.
    Refused(Seq<char>),
    /// The first channel that differs, and in how many bytes.
    Differs(nat, nat),
    /// The frame cannot be coded, or the decoder finds no table or symbol to go on with, or
    /// there are too few channels or bytes to compare with.
    Stuck,
}

/// What comes of comparing decoded channels with the first bytes of those that were coded,
/// from channel `ch` on.
pub open spec fn compared(
    decoded: Seq<Seq<u8>>,
    channels: Seq<Seq<u8>>,
    frame_bytes: nat,
    n_channels: nat,
    ch: nat,
    code: Seq<u8>,
) -> SingleFrame
    decreases n_channels - ch,
{
    if ch >= n_channels {
        SingleFrame::Coded(code)
    } else if ch >= decoded.len() || ch >= channels.len() || frame_bytes > channels[ch
        as int].len() {
        SingleFrame::Stuck
    } else {
        let d = decoded[ch as int];
        let expected = channels[ch as int].take(frame_bytes as int);
        if d != expected {
            SingleFrame::Differs(ch, differences(d, expected, shorter(d, expected)))
        } else {
            compared(decoded, channels, frame_bytes, n_channels, ch + 1, code)
        }
    }
}

/// What comes of a frame.
#[verifier::opaque]
pub open spec fn single_frame(
    channels: Seq<Seq<u8>>,
    coefs: Seq<Seq<i16>>,
    frame_bits: nat,
    frame_bytes: nat,
    n_channels: nat,
    options: EncodeOptions,
) -> SingleFrame {
    let code = frame_code(channels, coefs, frame_bits, options);
    if !encodable(channels, coefs, frame_bits, options) {
        SingleFrame::Stuck
    } else if !options.verify {
        SingleFrame::Coded(code)
    } else {
        match frame::frame_decoded(code, n_channels, frame_bits) {
            frame::Decoded::Stuck => SingleFrame::Stuck,
            frame::Decoded::Refused(m) => SingleFrame::Refused(m),
            frame::Decoded::Channels(decoded) => compared(
                decoded,
                channels,
                frame_bytes,
                n_channels,
                0,
                code,
            ),
        }
    }
}

/// A result is what comes of frame number `i`.
pub open spec fn gives(r: Option<Result<Vec<u8>>>, f: SingleFrame, i: nat) -> bool {
    match f {
        SingleFrame::Coded(code) => r matches Some(Ok(v)) && v@ == code,
        SingleFrame::Refused(m) => r matches Some(Err(CladstError::Codec(text))) && text@ == m,
        SingleFrame::Differs(c, n) => r matches Some(
            Err(CladstError::VerifyFailed { frame, channel, diffs }),
        ) && frame == i && channel == c && diffs == n,
        SingleFrame::Stuck => r is None,
    }
}

/// Whether a frame can be coded.
fn check_encodable(
    ch_refs: &[&[u8]],
    frame_bits: usize,
    options: &EncodeOptions,
    filter_coefs: &[Vec<i16>],
) -> (r: bool)
    ensures
        r == encodable(
            frame::slices(ch_refs@),
            frame::views16(filter_coefs@),
            frame_bits as nat,
            *options,
        ),
{
    let ghost channels = frame::slices(ch_refs@);
    let ghost coefs = frame::views16(filter_coefs@);
    let n: usize = ch_refs.len();
    if n < 1 || options.pred_order < 1 || options.pred_order > 128 {
        return false;
    }
    let count: usize = if options.share_filters {
        1
    } else {
        n
    };
    if filter_coefs.len() != count {
        return false;
    }
    // The bits can be counted
    proof {
        assert(n * frame_bits >= frame_bits) by (nonlinear_arith)
            requires
                n >= 1,
                frame_bits >= 0,
        ;
    }
    if n > MAX_FRAME_CHANNELS {
        return false;
    }
    let total: usize = match n.checked_mul(frame_bits) {
        Some(total) => total,
        None => {
            return false;
        },
    };
    if total > usize::MAX / 11 || total as u64 > i64::MAX as u64 / 256 {
        return false;
    }
    let left: usize = usize::MAX - 11 * total;
    if left < 64 || (left - 64) / 2000 < n {
        return false;
    }
    let mut f: usize = 0;
    while f < filter_coefs.len()
        invariant
            f <= filter_coefs@.len(),
            coefs == frame::views16(filter_coefs@),
            forall|k: int| 0 <= k < f ==> (#[trigger] coefs[k]).len() == options.pred_order,
        decreases filter_coefs@.len() - f,
    {
        if filter_coefs[f].len() != options.pred_order {
            assert(coefs[f as int].len() != options.pred_order);
            return false;
        }
        f = f + 1;
    }
    let mut ch: usize = 0;
    while ch < n
        invariant
            n == ch_refs@.len(),
            ch <= n,
            channels == frame::slices(ch_refs@),
            forall|c: int| 0 <= c < ch ==> frame_bits <= 8 * (#[trigger] channels[c]).len(),
        decreases n - ch,
    {
        if ch_refs[ch].len() < frame_bits / 8 + (if frame_bits % 8 == 0 {
            0usize
        } else {
            1usize
        }) {
            assert(frame_bits > 8 * channels[ch as int].len());
            return false;
        }
        assert(channels[ch as int] == ch_refs@[ch as int]@);
        ch = ch + 1;
    }
    true
}

/// Compare a decoded channel with what was coded: nothing where they are the same, else
/// the number of bytes that differ.
fn count_differences(decoded: &[u8], expected: &[u8]) -> (r: Option<usize>)
    ensures
        r is None <==> decoded@ == expected@,
        r matches Some(n) ==> n == differences(
            decoded@,
            expected@,
            shorter(decoded@, expected@),
        ),
{
    let len: usize = if decoded.len() < expected.len() {
        decoded.len()
    } else {
        expected.len()
    };
    let mut diffs: usize = 0;
    let mut i: usize = 0;
    proof {
        assert(decoded@.take(0) =~= expected@.take(0));
    }
    while i < len
        invariant
            i <= len,
            len <= decoded@.len(),
            len <= expected@.len(),
            diffs <= i,
            diffs == differences(decoded@, expected@, i as nat),
            diffs == 0 <==> decoded@.take(i as int) == expected@.take(i as int),
        decreases len - i,
    {
        proof {
            let (a, b) = (decoded@, expected@);
            let k = i as int;
            if a.take(k) == b.take(k) && a[k] == b[k] {
                assert forall|j: int| 0 <= j < k + 1 implies a[j] == b[j] by {
                    if j < k {
                        assert(a.take(k)[j] == b.take(k)[j]);
                    }
                }
                assert(a.take(k + 1) =~= b.take(k + 1));
            } else if a.take(k + 1) == b.take(k + 1) {
                assert(a.take(k) =~= a.take(k + 1).take(k));
                assert(b.take(k) =~= b.take(k + 1).take(k));
                assert(a[k] == a.take(k + 1)[k]);
                assert(b[k] == b.take(k + 1)[k]);
            }
        }
        if decoded[i] != expected[i] {
            diffs = diffs + 1;
        }
        i = i + 1;
    }
    proof {
        assert(decoded@.len() == len ==> decoded@.take(len as int) =~= decoded@);
        assert(expected@.len() == len ==> expected@.take(len as int) =~= expected@);
    }
    if decoded.len() == expected.len() && diffs == 0 {
        None
    } else {
        Some(diffs)
    }
}

/// Compare decoded channels with those that were coded.
fn compare_channels(
    decoded: &[Vec<u8>],
    ch_refs: &[&[u8]],
    frame_bytes_per_ch: usize,
    n_channels: usize,
    frame_idx: usize,
    frame_data: Vec<u8>,
) -> (r: Option<Result<Vec<u8>>>)
    ensures
        gives(
            r,
            compared(
                frame::views8(decoded@),
                frame::slices(ch_refs@),
                frame_bytes_per_ch as nat,
                n_channels as nat,
                0,
                frame_data@,
            ),
            frame_idx as nat,
        ),
{
    let ghost whole = compared(
        frame::views8(decoded@),
        frame::slices(ch_refs@),
        frame_bytes_per_ch as nat,
        n_channels as nat,
        0,
        frame_data@,
    );
    let mut ch: usize = 0;
    while ch < n_channels
        invariant
            ch <= n_channels,
            whole == compared(
                frame::views8(decoded@),
                frame::slices(ch_refs@),
                frame_bytes_per_ch as nat,
                n_channels as nat,
                0,
                frame_data@,
            ),
            whole == compared(
                frame::views8(decoded@),
                frame::slices(ch_refs@),
                frame_bytes_per_ch as nat,
                n_channels as nat,
                ch as nat,
                frame_data@,
            ),
        decreases n_channels - ch,
    {
        if ch >= decoded.len() || ch >= ch_refs.len() || frame_bytes_per_ch > ch_refs[ch].len() {
            return None;
        }
        let expected: &[u8] = vstd::slice::slice_subrange(ch_refs[ch], 0, frame_bytes_per_ch);
        proof {
            assert(expected@ =~= ch_refs@[ch as int]@.take(frame_bytes_per_ch as int));
        }
        if let Some(diffs) = count_differences(decoded[ch].as_slice(), expected) {
            return Some(
                Err(CladstError::VerifyFailed { frame: frame_idx, channel: ch, diffs }),
            );
        }
        ch = ch + 1;
    }
    Some(Ok(frame_data))
}

/// Encode and optionally verify a single frame. Returns encoded bytes.
pub fn encode_single_frame(
    ch_refs: &[&[u8]],
    frame_bits: usize,
    frame_bytes_per_ch: usize,
    n_channels: usize,
    frame_idx: usize,
    options: &EncodeOptions,
    filter_coefs: &[Vec<i16>],
) -> (r: Option<Result<Vec<u8>>>)
    ensures
        gives(
            r,
            single_frame(
                frame::slices(ch_refs@),
                frame::views16(filter_coefs@),
                frame_bits as nat,
                frame_bytes_per_ch as nat,
                n_channels as nat,
                *options,
            ),
            frame_idx as nat,
        ),
{
    proof {
        reveal(single_frame);
    }
    if !check_encodable(ch_refs, frame_bits, options, filter_coefs) {
        return None;
    }
    proof {
        let channels = frame::slices(ch_refs@);
        let coefs = frame::views16(filter_coefs@);
        assert forall|ch: int| 0 <= ch < ch_refs@.len() implies frame_bits <= 8 * (
        #[trigger] ch_refs@[ch])@.len() by {
            assert(frame_bits <= 8 * channels[ch].len());
        }
        assert forall|f: int| 0 <= f < filter_coefs@.len() implies (
        #[trigger] filter_coefs@[f])@.len() == options.pred_order by {
            assert(coefs[f].len() == options.pred_order);
        }
        assert(frame::channel_bits(ch_refs@, frame_bits as nat) =~= leading_bits(
            channels,
            frame_bits as nat,
        ));
    }
    let frame_data: Vec<u8> = match encode_dst_frame(
        ch_refs,
        frame_bits,
        options.pred_order,
        options.share_filters,
        options.half_prob,
        filter_coefs,
    ) {
        Ok(data) => data,
        Err(e) => {
            return Some(Err(e));
        },
    };
    if options.verify {
        match try_decode_dst_frame(frame_data.as_slice(), n_channels, frame_bits) {
            None => None,
            Some(Err(e)) => Some(Err(e)),
            Some(Ok(decoded)) => compare_channels(
                decoded.as_slice(),
                ch_refs,
                frame_bytes_per_ch,
                n_channels,
                frame_idx,
                frame_data,
            ),
        }
    } else {
        Some(Ok(frame_data))
    }
}

// ---------------------------------------------------------------------------
// Encoding runs
// ---------------------------------------------------------------------------

/// Per-frame progress information.
pub struct EncodeProgress {
    /// Current frame index (0-based).
    pub frame: usize,
    /// Total number of frames.
    pub total_frames: usize,
    /// Frames encoded with DST compression so far.
    pub dst_frames: usize,
    /// Frames stored as raw DSD so far.
    pub raw_frames: usize,
    /// Total compressed bytes so far.
    pub compressed_bytes: usize,
    /// Raw (uncompressed) bytes per frame per channel * n_channels.
    pub raw_bytes_per_frame: usize,
}

/// Final statistics from an encoding run.
pub struct EncodeStats {
    /// Total number of frames processed.
    pub total_frames: usize,
    /// Frames encoded with DST compression.
    pub dst_frames: usize,
    /// Frames stored as raw DSD.
    pub raw_frames: usize,
    /// Total compressed bytes.
    pub compressed_bytes: usize,
    /// Raw (uncompressed) bytes per frame, all channels.
    pub raw_bytes_per_frame: usize,
}

/// How many of the first `k` frames are DST coded.
pub open spec fn dst_coded(frames: Seq<(Seq<u8>, u32)>, k: nat) -> nat
    decreases k,
{
    if k == 0 {
        0
    } else {
        dst_coded(frames, (k - 1) as nat) + (if frames[k - 1].0[0] >= 128 {
            1nat
        } else {
            0nat
        })
    }
}

/// The number of bytes of the first `k` frames.
pub open spec fn coded_size(frames: Seq<(Seq<u8>, u32)>, k: nat) -> nat
    decreases k,
{
    if k == 0 {
        0
    } else {
        coded_size(frames, (k - 1) as nat) + frames[k - 1].0.len()
    }
}

/// Accumulates encoding statistics across frames.
struct EncodeAccum {
    n_frames: usize,
    dst_count: usize,
    raw_count: usize,
    total_compressed: usize,
    total_raw: usize,
}

impl EncodeAccum {
    /// The statistics are those of frames.
    spec fn counts(self, frames: Seq<(Seq<u8>, u32)>) -> bool {
        let k = frames.len();
        &&& self.dst_count == dst_coded(frames, k)
        &&& self.raw_count == k - dst_coded(frames, k)
        &&& self.total_compressed == coded_size(frames, k)
    }

    fn new(n_frames: usize, total_raw: usize) -> (r: Self)
        ensures
            r.n_frames == n_frames,
            r.total_raw == total_raw,
            r.counts(Seq::empty()),
    {
        EncodeAccum { n_frames, dst_count: 0, raw_count: 0, total_compressed: 0, total_raw }
    }

    fn record(
        &mut self,
        frame_data: &[u8],
        Ghost(frames): Ghost<Seq<(Seq<u8>, u32)>>,
        Ghost(crc): Ghost<u32>,
    )
        requires
            old(self).counts(frames),
            frame_data@.len() > 0,
            frames.len() < usize::MAX,
            old(self).total_compressed + frame_data@.len() <= usize::MAX,
        ensures
            final(self).n_frames == old(self).n_frames,
            final(self).total_raw == old(self).total_raw,
            final(self).counts(frames.push((frame_data@, crc))),
    {
        let first: u8 = frame_data[0];
        proof {
            let after = frames.push((frame_data@, crc));
            assert(first & 0x80 != 0 <==> first >= 128) by (bit_vector);
            assert(after.take(frames.len() as int) =~= frames);
            lemma_counts_stay(frames, after, frames.len());
            lemma_dst_coded_bound(frames, frames.len());
        }
        if first & 0x80 != 0 {
            self.dst_count = self.dst_count + 1;
        } else {
            self.raw_count = self.raw_count + 1;
        }
        self.total_compressed = self.total_compressed + frame_data.len();
    }

    fn progress(&self, frame: usize) -> (r: EncodeProgress)
        ensures
            r == (EncodeProgress {
                frame,
                total_frames: self.n_frames,
                dst_frames: self.dst_count,
                raw_frames: self.raw_count,
                compressed_bytes: self.total_compressed,
                raw_bytes_per_frame: self.total_raw,
            }),
    {
        EncodeProgress {
            frame,
            total_frames: self.n_frames,
            dst_frames: self.dst_count,
            raw_frames: self.raw_count,
            compressed_bytes: self.total_compressed,
            raw_bytes_per_frame: self.total_raw,
        }
    }

    fn finish(self) -> (r: EncodeStats)
        requires
            self.dst_count + self.raw_count <= usize::MAX,
        ensures
            r == (EncodeStats {
                total_frames: (self.dst_count + self.raw_count) as usize,
                dst_frames: self.dst_count,
                raw_frames: self.raw_count,
                compressed_bytes: self.total_compressed,
                raw_bytes_per_frame: self.total_raw,
            }),
    {
        EncodeStats {
            total_frames: self.dst_count + self.raw_count,
            dst_frames: self.dst_count,
            raw_frames: self.raw_count,
            compressed_bytes: self.total_compressed,
            raw_bytes_per_frame: self.total_raw,
        }
    }
}

proof fn lemma_counts_stay(a: Seq<(Seq<u8>, u32)>, b: Seq<(Seq<u8>, u32)>, k: nat)
    requires
        k <= a.len() <= b.len(),
        b.take(a.len() as int) == a,
    ensures
        dst_coded(b, k) == dst_coded(a, k),
        coded_size(b, k) == coded_size(a, k),
    decreases k,
{
    if k > 0 {
        lemma_counts_stay(a, b, (k - 1) as nat);
        assert(b.take(a.len() as int)[k - 1] == b[k - 1]);
    }
}

proof fn lemma_dst_coded_bound(frames: Seq<(Seq<u8>, u32)>, k: nat)
    ensures
        dst_coded(frames, k) <= k,
    decreases k,
{
    if k > 0 {
        lemma_dst_coded_bound(frames, (k - 1) as nat);
    }
}

/// The frames of a file are no longer than the file.
proof fn lemma_coded_size(w: DstDsdiffWriter, k: nat)
    ensures
        coded_size(w.frames(), k) <= dst::dst_body(w.announced(), w.frames(), k).len(),
    decreases k,
{
    if k > 0 {
        lemma_coded_size(w, (k - 1) as nat);
        dst::lemma_frame_chunks_len(w.frames()[k - 1].0, w.frames()[k - 1].1);
    }
}

/// One more frame can be written, and the file can still be counted: `written` bytes with
/// `k` frames of `size` bytes in all, and one of `len` bytes.
pub open spec fn has_room(written: nat, k: nat, size: nat, len: nat) -> bool {
    &&& written + len + 12 * k + 56 <= u64::MAX
    &&& 12 * (k + 1) <= usize::MAX
    &&& size + len <= usize::MAX
}

/// The channels are there, and none is shorter than the first.
pub open spec fn full_channels(channels: Seq<Seq<u8>>) -> bool {
    &&& channels.len() > 0
    &&& decode::all_long(channels, channels[0].len())
}

/// The file of an encoding run.
pub open spec fn encoded_file(meta: DsdMetadata, frames: Seq<(Seq<u8>, u32)>) -> Seq<u8> {
    let n = meta.n_channels as nat;
    let announced = meta.n_frames as nat % 0x1_0000_0000;
    let size = dst::dst_file(0, meta.sample_rate, n, announced, frames).len() - 12;
    dst::dst_file(size as nat, meta.sample_rate, n, announced, frames)
}

/// An encoding run between two frames.
pub struct Encoder {
    metadata: DsdMetadata,
    writer: DstDsdiffWriter,
    accum: EncodeAccum,
    frame_idx: usize,
    position: u64,
}

impl Encoder {
    /// The audio metadata.
    pub closed spec fn meta(self) -> DsdMetadata {
        self.metadata
    }

    /// The frames written so far, each with its CRC.
    pub closed spec fn frames(self) -> Seq<(Seq<u8>, u32)> {
        self.writer.frames()
    }

    /// The bytes of the file so far.
    pub closed spec fn written(self) -> Seq<u8> {
        self.writer.written()
    }

    /// The run is in a state that its operations leave behind.
    pub closed spec fn wf(self) -> bool {
        let k = self.writer.frames().len();
        &&& self.writer.wf()
        &&& self.writer.sample_rate() == self.metadata.sample_rate
        &&& self.writer.channel_count() == self.metadata.n_channels
        &&& self.writer.announced() == self.metadata.n_frames as nat % 0x1_0000_0000
        &&& self.accum.n_frames == self.metadata.n_frames
        &&& self.accum.total_raw == self.metadata.frame_bytes_per_ch * self.metadata.n_channels
        &&& self.accum.counts(self.writer.frames())
        &&& self.frame_idx == k
        &&& self.position == self.writer.written().len()
        &&& self.position + 12 * k + 12 <= u64::MAX
        &&& 12 * k <= usize::MAX
    }

    /// The progress behind the last frame.
    pub open spec fn progressed(self, p: EncodeProgress) -> bool {
        let k = self.frames().len();
        &&& p.frame == k - 1
        &&& p.total_frames == self.meta().n_frames
        &&& p.dst_frames == dst_coded(self.frames(), k)
        &&& p.raw_frames == k - dst_coded(self.frames(), k)
        &&& p.compressed_bytes == coded_size(self.frames(), k)
        &&& p.raw_bytes_per_frame == self.meta().frame_bytes_per_ch * self.meta().n_channels
    }

    /// Start an encoding run; nothing where the bytes of a frame or of the header cannot be
    /// counted.
    ///
    /// Hands out the first bytes of the file.
    pub fn start(meta: &DsdMetadata) -> (r: Option<(Self, Vec<u8>)>)
        ensures
            r is None <==> meta.frame_bytes_per_ch * meta.n_channels > usize::MAX || 4
                * meta.n_channels + 300 > u64::MAX,
            r matches Some((e, out)) ==> {
                &&& e.wf()
                &&& e.meta() == *meta
                &&& e.frames() == Seq::<(Seq<u8>, u32)>::empty()
                &&& out@ == e.written()
            },
    {
        let total_raw: usize = match meta.frame_bytes_per_ch.checked_mul(meta.n_channels) {
            Some(n) => n,
            None => {
                return None;
            },
        };
        let n: u64 = meta.n_channels as u64;
        if n > (u64::MAX - 300) / 4 {
            return None;
        }
        let frames64: u64 = meta.n_frames as u64;
        let announced: u32 = frames64 as u32;
        proof {
            assert(announced == frames64 % 0x1_0000_0000) by (bit_vector)
                requires
                    announced == frames64 as u32,
            ;
        }
        let (writer, out) = DstDsdiffWriter::new(meta.sample_rate, meta.n_channels, announced);
        proof {
            dst::lemma_first_bytes_len(meta.sample_rate, meta.n_channels as nat, announced as nat);
        }
        let e = Encoder {
            metadata: *meta,
            writer,
            accum: EncodeAccum::new(meta.n_frames, total_raw),
            frame_idx: 0,
            position: out.len() as u64,
        };
        Some((e, out))
    }

    /// Write an encoded frame; nothing where there are no bytes, or too few in a channel, or
    /// the file grows too large to be counted.
    ///
    /// Hands out the bytes to append to the file, and the progress.
    pub fn write_frame(&mut self, frame_data: &[u8], dsd_channels: &[&[u8]]) -> (r: Option<
        (Vec<u8>, EncodeProgress),
    >)
        requires
            old(self).wf(),
        ensures
            ({
                let channels = frame::slices(dsd_channels@);
                let before = old(self).frames();
                match r {
                    None => {
                        &&& *final(self) == *old(self)
                        &&& frame_data@.len() == 0 || !full_channels(channels) || !has_room(
                            old(self).written().len(),
                            before.len(),
                            coded_size(before, before.len()),
                            frame_data@.len(),
                        )
                    },
                    Some((out, progress)) => {
                        &&& frame_data@.len() > 0
                        &&& full_channels(channels)
                        &&& final(self).wf()
                        &&& final(self).meta() == old(self).meta()
                        &&& final(self).frames() == before.push(
                            (frame_data@, dst::channels_crc(channels)),
                        )
                        &&& final(self).written() == old(self).written() + out@
                        &&& final(self).progressed(progress)
                    },
                }
            }),
            // However many frames there are, one more is written if the file can be counted.
            ({
                let k = old(self).frames().len();
                &&& frame_data@.len() >= 1
                &&& dsd_channels@.len() >= 1
                &&& forall|ch: int|
                    0 <= ch < dsd_channels@.len() ==> (#[trigger] dsd_channels@[ch])@.len()
                        >= dsd_channels@[0]@.len()
                &&& old(self).written().len() + frame_data@.len() + 12 * k + 56 <= usize::MAX
            }) ==> r is Some,
    {
        proof {
            lemma_coded_size(self.writer, self.writer.frames().len());
            dst::lemma_file_len(self.writer);
            dst::lemma_sizes(
                self.writer.announced(),
                self.writer.frames(),
                self.writer.frames().len(),
            );
        }
        let ghost channels = frame::slices(dsd_channels@);
        let ghost before = self.writer.frames();
        let ghost crc = dst::channels_crc(channels);
        if frame_data.len() == 0 || !are_full(dsd_channels) {
            return None;
        }
        let k: usize = self.frame_idx;
        let len: u64 = frame_data.len() as u64;
        if k > usize::MAX / 12 - 1 || frame_data.len() > usize::MAX - self.accum.total_compressed {
            return None;
        }
        let index: u64 = 12 * (k as u64);
        let room: u64 = u64::MAX - self.position;
        if room < 56 || room - 56 < index || room - 56 - index < len {
            return None;
        }
        proof {
            assert forall|ch: int| 0 <= ch < dsd_channels@.len() implies dsd_channels@[0]@.len()
                <= (#[trigger] dsd_channels@[ch])@.len() by {
                assert(channels[0].len() <= channels[ch].len());
            }
            dst::lemma_frame_chunks_len(frame_data@, crc);
        }
        self.accum.record(frame_data, Ghost(before), Ghost(crc));
        let out: Vec<u8> = self.writer.write_frame(frame_data, dsd_channels);
        let progress: EncodeProgress = self.accum.progress(k);
        self.frame_idx = k + 1;
        self.position = self.position + out.len() as u64;
        Some((out, progress))
    }

    /// End an encoding run: complete the file.
    pub fn finish(self) -> (r: (FileEnd, EncodeStats))
        requires
            self.wf(),
        ensures
            r.0.complete(self.written()) == encoded_file(self.meta(), self.frames()),
            ({
                let k = self.frames().len();
                r.1 == (EncodeStats {
                    total_frames: k as usize,
                    dst_frames: dst_coded(self.frames(), k) as usize,
                    raw_frames: (k - dst_coded(self.frames(), k)) as usize,
                    compressed_bytes: coded_size(self.frames(), k) as usize,
                    raw_bytes_per_frame: (self.meta().frame_bytes_per_ch
                        * self.meta().n_channels) as usize,
                })
            }),
    {
        proof {
            dst::lemma_file_len(self.writer);
        }
        let end: FileEnd = self.writer.finish();
        (end, self.accum.finish())
    }
}

/// Whether the channels are there, and none is shorter than the first.
fn are_full(channels: &[&[u8]]) -> (r: bool)
    ensures
        r == full_channels(frame::slices(channels@)),
{
    let ghost all = frame::slices(channels@);
    if channels.len() == 0 {
        return false;
    }
    let n: usize = channels[0].len();
    let mut ch: usize = 0;
    while ch < channels.len()
        invariant
            ch <= channels@.len(),
            all == frame::slices(channels@),
            all.len() > 0,
            n == all[0].len(),
            forall|c: int| 0 <= c < ch ==> n <= (#[trigger] all[c]).len(),
        decreases channels@.len() - ch,
    {
        if channels[ch].len() < n {
            assert(all[ch as int].len() < n);
            return false;
        }
        assert(all[ch as int] == channels@[ch as int]@);
        ch = ch + 1;
    }
    true
}

/// The channels of a frame as slices.
fn channel_slices(channels: &[Vec<u8>]) -> (r: Vec<&[u8]>)
    ensures
        frame::slices(r@) == frame::views8(channels@),
{
    let mut refs: Vec<&[u8]> = Vec::new();
    let mut ch: usize = 0;
    while ch < channels.len()
        invariant
            ch == refs@.len(),
            ch <= channels@.len(),
            forall|c: int| 0 <= c < ch ==> (#[trigger] refs@[c])@ == channels@[c]@,
        decreases channels@.len() - ch,
    {
        refs.push(channels[ch].as_slice());
        ch = ch + 1;
    }
    proof {
        assert(frame::slices(refs@) =~= frame::views8(channels@));
    }
    refs
}

/// What comes of a frame in an encoding run.
pub enum EncodeStep {
    /// Bytes to append to the file, and the progress.
    Write(Vec<u8>, EncodeProgress),
    /// The run ends with an error.
    Failed(CladstError),
    /// The frame cannot be coded or checked, or has too few bytes, or the file grows too
    /// large to be counted.
    Stuck,
}

/// Encode the next frame of a run, and optionally verify it.
///
/// The frame number in an error is that of the frame within the run.
pub fn encode(
    encoder: &mut Encoder,
    f: &DsdFrame,
    options: &EncodeOptions,
    filter_coefs: &[Vec<i16>],
) -> (r: EncodeStep)
    requires
        old(encoder).wf(),
    ensures
        ({
            let meta = old(encoder).meta();
            let before = old(encoder).frames();
            let result = single_frame(
                f@,
                frame::views16(filter_coefs@),
                meta.frame_bits as nat,
                meta.frame_bytes_per_ch as nat,
                meta.n_channels as nat,
                *options,
            );
            match r {
                EncodeStep::Write(out, progress) => {
                    &&& result matches SingleFrame::Coded(code)
                    &&& full_channels(f@)
                    &&& final(encoder).wf()
                    &&& final(encoder).meta() == meta
                    &&& final(encoder).frames() == before.push((code, dst::channels_crc(f@)))
                    &&& final(encoder).written() == old(encoder).written() + out@
                    &&& final(encoder).progressed(progress)
                },
                EncodeStep::Failed(e) => {
                    &&& *final(encoder) == *old(encoder)
                    &&& !(result is Coded) && !(result is Stuck)
                    &&& gives(Some(Err(e)), result, before.len())
                },
                EncodeStep::Stuck => {
                    &&& *final(encoder) == *old(encoder)
                    &&& match result {
                        SingleFrame::Stuck => true,
                        SingleFrame::Coded(code) => !full_channels(f@) || !has_room(
                            old(encoder).written().len(),
                            before.len(),
                            coded_size(before, before.len()),
                            code.len(),
                        ),
                        _ => false,
                    }
                },
            }
        }),
        // However many frames there are, a coded one is written if the file can be counted.
        ({
            let meta = old(encoder).meta();
            let result = single_frame(
                f@,
                frame::views16(filter_coefs@),
                meta.frame_bits as nat,
                meta.frame_bytes_per_ch as nat,
                meta.n_channels as nat,
                *options,
            );
            &&& result matches SingleFrame::Coded(code)
            &&& f@.len() >= 1
            &&& forall|ch: int| 0 <= ch < f@.len() ==> (#[trigger] f@[ch]).len() >= f@[0].len()
            &&& old(encoder).written().len() + code.len() + 12 * old(encoder).frames().len() + 56
                <= usize::MAX
        }) ==> r is Write,
{
    let meta: DsdMetadata = encoder.metadata;
    let refs: Vec<&[u8]> = channel_slices(f.channels.as_slice());
    let coded: Option<Result<Vec<u8>>> = encode_single_frame(
        refs.as_slice(),
        meta.frame_bits,
        meta.frame_bytes_per_ch,
        meta.n_channels,
        encoder.frame_idx,
        options,
        filter_coefs,
    );
    proof {
        lemma_single_frame_bytes(
            f@,
            frame::views16(filter_coefs@),
            meta.frame_bits as nat,
            meta.frame_bytes_per_ch as nat,
            meta.n_channels as nat,
            *options,
        );
        assert forall|ch: int| 0 <= ch < refs@.len() implies (#[trigger] refs@[ch])@ == f@[ch] by {
            assert(frame::slices(refs@)[ch] == refs@[ch]@);
        }
    }
    match coded {
        None => EncodeStep::Stuck,
        Some(Err(e)) => EncodeStep::Failed(e),
        Some(Ok(frame_data)) => match encoder.write_frame(frame_data.as_slice(), refs.as_slice()) {
            None => EncodeStep::Stuck,
            Some((out, progress)) => EncodeStep::Write(out, progress),
        },
    }
}

// ---------------------------------------------------------------------------
// What is encoded comes back
// ---------------------------------------------------------------------------

/// The plan of a frame that can be coded.
proof fn lemma_frame_plan(
    channels: Seq<Seq<u8>>,
    coefs: Seq<Seq<i16>>,
    frame_bits: nat,
    options: EncodeOptions,
)
    requires
        encodable(channels, coefs, frame_bits, options),
    ensures
        ({
            let plan = frame::frame_plan(
                leading_bits(channels, frame_bits),
                coefs,
                options.share_filters,
                options.half_prob,
            );
            &&& plan.wf(frame_bits)
            &&& plan.channels == leading_bits(channels, frame_bits)
        }),
        leading_bits(channels, frame_bits).len() == channels.len(),
        forall|ch: int|
            0 <= ch < channels.len() ==> (#[trigger] leading_bits(channels, frame_bits)[ch]).len()
                == frame_bits,
{
    let leading = leading_bits(channels, frame_bits);
    assert forall|ch: int| 0 <= ch < channels.len() implies (#[trigger] leading[ch]).len()
        == frame_bits by {
        assert(frame_bits <= 8 * channels[ch].len());
    }
    frame::lemma_plan_wf(leading, coefs, options.share_filters, options.half_prob, frame_bits);
}

/// Every frame is DST coded: its code starts with the mark of DST coding, however well or
/// badly it compresses.
pub proof fn law_frames_are_dst_coded(
    channels: Seq<Seq<u8>>,
    coefs: Seq<Seq<i16>>,
    frame_bits: nat,
    options: EncodeOptions,
)
    ensures
        encodable(channels, coefs, frame_bits, options) ==> {
            let code = frame_code(channels, coefs, frame_bits, options);
            &&& 1 <= code.len()
            &&& 8 * code.len() <= usize::MAX
            &&& code[0] >= 128
        },
{
    if encodable(channels, coefs, frame_bits, options) {
        lemma_frame_plan(channels, coefs, frame_bits, options);
        frame::lemma_frame_bytes(
            frame::frame_plan(
                leading_bits(channels, frame_bits),
                coefs,
                options.share_filters,
                options.half_prob,
            ),
            frame_bits,
        );
    }
}

/// Comparing hands on the code.
proof fn lemma_compared_code(
    decoded: Seq<Seq<u8>>,
    channels: Seq<Seq<u8>>,
    frame_bytes: nat,
    n_channels: nat,
    ch: nat,
    code: Seq<u8>,
)
    ensures
        compared(decoded, channels, frame_bytes, n_channels, ch, code) matches SingleFrame::Coded(
            c,
        ) ==> c == code,
    decreases n_channels - ch,
{
    if ch < n_channels {
        lemma_compared_code(decoded, channels, frame_bytes, n_channels, ch + 1, code);
    }
}

/// A frame that comes out coded has bytes.
proof fn lemma_single_frame_bytes(
    channels: Seq<Seq<u8>>,
    coefs: Seq<Seq<i16>>,
    frame_bits: nat,
    frame_bytes: nat,
    n_channels: nat,
    options: EncodeOptions,
)
    ensures
        single_frame(
            channels,
            coefs,
            frame_bits,
            frame_bytes,
            n_channels,
            options,
        ) matches SingleFrame::Coded(code) ==> 1 <= code.len(),
{
    reveal(single_frame);
    law_frames_are_dst_coded(channels, coefs, frame_bits, options);
    let code = frame_code(channels, coefs, frame_bits, options);
    if let frame::Decoded::Channels(decoded) = frame::frame_decoded(code, n_channels, frame_bits) {
        lemma_compared_code(decoded, channels, frame_bytes, n_channels, 0, code);
    }
}

/// All filter coefficients have nine bits.
pub open spec fn nine_bit_filters(coefs: Seq<Seq<i16>>) -> bool {
    forall|f: int| 0 <= f < coefs.len() ==> fir::nine_bit(#[trigger] coefs[f])
}

/// The first bits of packed channels, packed again.
pub open spec fn leading_bytes(channels: Seq<Seq<u8>>, n_bits: nat) -> Seq<Seq<u8>> {
    channels.map_values(|c: Seq<u8>| bits::pack(bits::unpack(c).take(n_bits as int)))
}

/// Decoding gives back what was encoded: the code of a frame decodes to the bits of its
/// channels, packed into the bytes they need, with zeros behind them.
pub proof fn law_frame_code_decodes(
    channels: Seq<Seq<u8>>,
    coefs: Seq<Seq<i16>>,
    frame_bits: nat,
    options: EncodeOptions,
)
    requires
        encodable(channels, coefs, frame_bits, options),
        nine_bit_filters(coefs),
    ensures
        ({
            let d = leading_bytes(channels, frame_bits);
            &&& frame::frame_decoded(
                frame_code(channels, coefs, frame_bits, options),
                channels.len(),
                frame_bits,
            ) == frame::Decoded::Channels(d)
            &&& d.len() == channels.len()
            &&& forall|ch: int|
                0 <= ch < d.len() ==> (#[trigger] d[ch]).len() == (frame_bits + 7) as nat / 8
            &&& forall|ch: int, i: int|
                0 <= ch < d.len() && 0 <= i < 8 * d[ch].len() ==> #[trigger] bits::unpack(d[ch])[i]
                    == (i < frame_bits && bits::unpack(channels[ch])[i])
        }),
{
    let leading = leading_bits(channels, frame_bits);
    let d = leading_bytes(channels, frame_bits);
    lemma_frame_plan(channels, coefs, frame_bits, options);
    law_frames_are_dst_coded(channels, coefs, frame_bits, options);
    lossless::law_frame_round_trip(
        leading,
        coefs,
        options.share_filters,
        options.half_prob,
        frame_bits,
    );
    assert(leading.map_values(|c: Seq<bool>| bits::pack(c)) =~= d);
    lemma_leading_bytes(channels, frame_bits);
}

/// The bits of packed leading bits, and the zeros behind them.
proof fn lemma_leading_bytes(channels: Seq<Seq<u8>>, n_bits: nat)
    requires
        forall|ch: int|
            0 <= ch < channels.len() ==> n_bits <= 8 * (#[trigger] channels[ch]).len(),
    ensures
        ({
            let d = leading_bytes(channels, n_bits);
            &&& forall|ch: int|
                0 <= ch < d.len() ==> (#[trigger] d[ch]).len() == (n_bits + 7) as nat / 8
            &&& forall|ch: int, i: int|
                0 <= ch < d.len() && 0 <= i < 8 * d[ch].len() ==> #[trigger] bits::unpack(d[ch])[i]
                    == (i < n_bits && bits::unpack(channels[ch])[i])
        }),
{
    let d = leading_bytes(channels, n_bits);
    assert forall|ch: int, i: int|
        0 <= ch < d.len() && 0 <= i < 8 * d[ch].len() implies #[trigger] bits::unpack(d[ch])[i] == (
    i < n_bits && bits::unpack(channels[ch])[i]) by {
        assert(n_bits <= 8 * channels[ch].len());
        bits::lemma_unpack_pack(bits::unpack(channels[ch]).take(n_bits as int));
    }
    assert forall|ch: int| 0 <= ch < d.len() implies (#[trigger] d[ch]).len() == (n_bits
        + 7) as nat / 8 by {
        assert(n_bits <= 8 * channels[ch].len());
    }
}

/// The code of a frame of whole bytes decodes to those bytes.
pub proof fn law_whole_bytes_decode(
    channels: Seq<Seq<u8>>,
    coefs: Seq<Seq<i16>>,
    frame_bytes: nat,
    options: EncodeOptions,
)
    requires
        encodable(channels, coefs, 8 * frame_bytes, options),
        nine_bit_filters(coefs),
    ensures
        frame::frame_decoded(
            frame_code(channels, coefs, 8 * frame_bytes, options),
            channels.len(),
            8 * frame_bytes,
        ) == frame::Decoded::Channels(decode::written_part(channels, frame_bytes)),
{
    law_frame_code_decodes(channels, coefs, 8 * frame_bytes, options);
    let packed = leading_bytes(channels, 8 * frame_bytes);
    assert forall|ch: int| 0 <= ch < channels.len() implies packed[ch] == decode::written_part(
        channels,
        frame_bytes,
    )[ch] by {
        let part = channels[ch].take(frame_bytes as int);
        assert(8 * frame_bytes <= 8 * channels[ch].len());
        assert(bits::unpack(channels[ch]).take((8 * frame_bytes) as int) =~= bits::unpack(part));
        bits::lemma_pack_unpack(part);
    }
    assert(packed =~= decode::written_part(channels, frame_bytes));
}

/// Channels that are the same compare so.
proof fn lemma_same_channels(channels: Seq<Seq<u8>>, frame_bytes: nat, ch: nat, code: Seq<u8>)
    requires
        decode::all_long(channels, frame_bytes),
        ch <= channels.len(),
    ensures
        compared(
            decode::written_part(channels, frame_bytes),
            channels,
            frame_bytes,
            channels.len(),
            ch,
            code,
        ) == SingleFrame::Coded(code),
    decreases channels.len() - ch,
{
    if ch < channels.len() {
        assert(frame_bytes <= channels[ch as int].len());
        lemma_same_channels(channels, frame_bytes, ch + 1, code);
    }
}

/// Verification finds no difference: a frame of whole bytes comes out coded whether or not
/// it is verified.
pub proof fn law_verification_passes(
    channels: Seq<Seq<u8>>,
    coefs: Seq<Seq<i16>>,
    frame_bytes: nat,
    options: EncodeOptions,
)
    requires
        encodable(channels, coefs, 8 * frame_bytes, options),
        nine_bit_filters(coefs),
    ensures
        single_frame(
            channels,
            coefs,
            8 * frame_bytes,
            frame_bytes,
            channels.len(),
            options,
        ) == SingleFrame::Coded(frame_code(channels, coefs, 8 * frame_bytes, options)),
{
    assert forall|ch: int| 0 <= ch < channels.len() implies frame_bytes <= (
    #[trigger] channels[ch]).len() by {
        assert(8 * frame_bytes <= 8 * channels[ch].len());
    }
    reveal(single_frame);
    law_whole_bytes_decode(channels, coefs, frame_bytes, options);
    lemma_same_channels(
        channels,
        frame_bytes,
        0,
        frame_code(channels, coefs, 8 * frame_bytes, options),
    );
}

/// Channels that compare as the same are so.
proof fn lemma_compared_same(
    decoded: Seq<Seq<u8>>,
    channels: Seq<Seq<u8>>,
    frame_bytes: nat,
    n_channels: nat,
    ch: nat,
    code: Seq<u8>,
    k: int,
)
    requires
        compared(decoded, channels, frame_bytes, n_channels, ch, code) is Coded,
        ch <= k < n_channels,
    ensures
        k < decoded.len(),
        k < channels.len(),
        frame_bytes <= channels[k].len(),
        decoded[k] == channels[k].take(frame_bytes as int),
    decreases n_channels - ch,
{
    if ch < k {
        lemma_compared_same(decoded, channels, frame_bytes, n_channels, ch + 1, code, k);
    }
}

/// What verification lets pass decodes to the bytes it was made of, whatever the frame.
pub proof fn law_verified_frame_decodes(
    channels: Seq<Seq<u8>>,
    coefs: Seq<Seq<i16>>,
    frame_bits: nat,
    frame_bytes: nat,
    n_channels: nat,
    options: EncodeOptions,
    code: Seq<u8>,
)
    requires
        options.verify,
        single_frame(channels, coefs, frame_bits, frame_bytes, n_channels, options)
            == SingleFrame::Coded(code),
    ensures
        frame::frame_decoded(code, n_channels, frame_bits) matches frame::Decoded::Channels(decoded)
            && forall|ch: int|
            0 <= ch < n_channels ==> #[trigger] decoded[ch] == channels[ch].take(
                frame_bytes as int,
            ),
{
    reveal(single_frame);
    let made = frame_code(channels, coefs, frame_bits, options);
    if let frame::Decoded::Channels(decoded) = frame::frame_decoded(made, n_channels, frame_bits) {
        lemma_compared_code(decoded, channels, frame_bytes, n_channels, 0, made);
        assert forall|ch: int| 0 <= ch < n_channels implies #[trigger] decoded[ch]
            == channels[ch].take(frame_bytes as int) by {
            lemma_compared_same(decoded, channels, frame_bytes, n_channels, 0, made, ch);
        }
    }
}

/// A frame of a run, encoded: its code and its CRC.
pub open spec fn encoded_frame(
    meta: DsdMetadata,
    channels: Seq<Seq<u8>>,
    coefs: Seq<Seq<i16>>,
    options: EncodeOptions,
) -> (Seq<u8>, u32) {
    (frame_code(channels, coefs, meta.frame_bits as nat, options), dst::channels_crc(channels))
}

/// A frame of a run is as a reader delivers it, and comes back from its code.
pub open spec fn sound_frame(
    meta: DsdMetadata,
    channels: Seq<Seq<u8>>,
    coefs: Seq<Seq<i16>>,
    options: EncodeOptions,
) -> bool {
    &&& channels.len() == meta.n_channels
    &&& forall|ch: int|
        0 <= ch < channels.len() ==> (#[trigger] channels[ch]).len() == meta.frame_bytes_per_ch
    &&& encodable(channels, coefs, meta.frame_bits as nat, options)
    &&& nine_bit_filters(coefs)
}

/// An encoded frame passes the CRC check of the decoder and gives back its channels.
pub proof fn law_encoded_frame_decodes(
    meta: DsdMetadata,
    channels: Seq<Seq<u8>>,
    coefs: Seq<Seq<i16>>,
    options: EncodeOptions,
)
    requires
        meta.frame_bytes_per_ch == meta.frame_bits / 8,
        sound_frame(meta, channels, coefs, options),
    ensures
        ({
            let (code, crc) = encoded_frame(meta, channels, coefs, options);
            decode::check((code, Some(crc)), meta) == decode::FrameCheck::Good(channels)
        }),
{
    let n = meta.frame_bytes_per_ch as nat;
    assert(channels[0].len() == n);
    assert(meta.frame_bits == 8 * n);
    law_whole_bytes_decode(channels, coefs, n, options);
    assert(decode::written_part(channels, n) =~= channels) by {
        assert forall|ch: int| 0 <= ch < channels.len() implies decode::written_part(
            channels,
            n,
        )[ch] == channels[ch] by {
            assert(channels[ch].take(n as int) =~= channels[ch]);
        }
    }
    reveal(decode::check);
}

/// An encoded file comes back: it opens as a DST-compressed file with its sample rate and
/// channels, and its frames are read and decode one by one to the channels that were
/// encoded, and then there are no more.
pub proof fn law_encoded_file_decodes(
    meta: DsdMetadata,
    frames: Seq<Seq<Seq<u8>>>,
    coefs: Seq<Seq<Seq<i16>>>,
    options: EncodeOptions,
    i: nat,
)
    requires
        meta.frame_bytes_per_ch == meta.frame_bits / 8,
        meta.sample_rate / 75 / 8 > 0,
        1 <= meta.n_channels <= 0xffff,
        coefs.len() == frames.len(),
        forall|k: int|
            0 <= k < frames.len() ==> sound_frame(meta, #[trigger] frames[k], coefs[k], options),
        encoded_file(
            meta,
            Seq::new(
                frames.len(),
                |k: int| encoded_frame(meta, frames[k], coefs[k], options),
            ),
        ).len() <= i64::MAX,
        i <= frames.len(),
    ensures
        ({
            let coded = Seq::new(
                frames.len(),
                |k: int| encoded_frame(meta, frames[k], coefs[k], options),
            );
            let file = encoded_file(meta, coded);
            let n = meta.n_channels as nat;
            let announced = meta.n_frames as nat % 0x1_0000_0000;
            let offset = dst::dst_file_head(0, meta.sample_rate, n, 0, Seq::empty()).len();
            let end = offset + dst::dst_body(announced, coded, coded.len()).len();
            let at = offset + dst::dst_body(announced, coded, i).len();
            &&& open::open_outcome(file) == open::OpenOutcome::Dst(
                dsd::file_props(meta.sample_rate, n, chunk::DST@),
                offset,
                (end - offset) as nat,
                announced,
                offset + 18,
            )
            &&& dst::dst_body(announced, coded, 0).len() == 18
            &&& if i < frames.len() {
                let (code, crc) = coded[i as int];
                &&& dst::next_frame_at(file, at, end) == dst::NextFrame::Frame(
                    code,
                    Some(crc),
                    offset + dst::dst_body(announced, coded, i + 1).len(),
                )
                &&& decode::check((code, Some(crc)), meta) == decode::FrameCheck::Good(
                    frames[i as int],
                )
            } else {
                dst::next_frame_at(file, at, end) == dst::NextFrame::End
            }
        }),
{
    let coded = Seq::new(
        frames.len(),
        |k: int| encoded_frame(meta, frames[k], coefs[k], options),
    );
    let n = meta.n_channels as nat;
    let announced = meta.n_frames as nat % 0x1_0000_0000;
    let file = encoded_file(meta, coded);
    let size = (dst::dst_file(0, meta.sample_rate, n, announced, coded).len() - 12) as nat;
    let offset = dst::dst_file_head(0, meta.sample_rate, n, 0, Seq::empty()).len();
    dst::lemma_first_body_len(announced, coded);
    open::law_dst_file_opens(size, meta.sample_rate, n, announced, coded);
    dst::law_dst_file_scans(size, meta.sample_rate, n, announced, coded);
    assert forall|k: int| 0 <= k < coded.len() implies (#[trigger] coded[k]).0.len()
        <= usize::MAX by {
        assert(sound_frame(meta, frames[k], coefs[k], options));
        law_frames_are_dst_coded(frames[k], coefs[k], meta.frame_bits as nat, options);
    }
    dst::law_dst_frames_round_trip(file, offset, announced, coded, i);
    if i < frames.len() {
        assert(sound_frame(meta, frames[i as int], coefs[i as int], options));
        law_encoded_frame_decodes(meta, frames[i as int], coefs[i as int], options);
    }
}

/// The frames that a run writes for the first `k` frames of its input, if all of them can be
/// coded and pass the verification.
pub open spec fn run_frames(
    meta: DsdMetadata,
    frames: Seq<Seq<Seq<u8>>>,
    coefs: Seq<Seq<Seq<i16>>>,
    options: EncodeOptions,
    k: nat,
) -> Option<Seq<(Seq<u8>, u32)>>
    decreases k,
{
    if k == 0 {
        Some(Seq::empty())
    } else {
        let channels = frames[k - 1];
        let result = single_frame(
            channels,
            coefs[k - 1],
            meta.frame_bits as nat,
            meta.frame_bytes_per_ch as nat,
            meta.n_channels as nat,
            options,
        );
        match (run_frames(meta, frames, coefs, options, (k - 1) as nat), result) {
            (Some(before), SingleFrame::Coded(code)) => Some(
                before.push((code, dst::channels_crc(channels))),
            ),
            _ => None,
        }
    }
}

/// The number of threads changes nothing: with options that differ only in it, the same
/// comes of every frame, and two runs write the same frames. So they write the same file
/// and end with the same counts.
pub proof fn law_threads_change_nothing(
    meta: DsdMetadata,
    frames: Seq<Seq<Seq<u8>>>,
    coefs: Seq<Seq<Seq<i16>>>,
    options: EncodeOptions,
    threads: usize,
    k: nat,
)
    requires
        k <= frames.len(),
        coefs.len() == frames.len(),
    ensures
        ({
            let other = EncodeOptions { threads, ..options };
            let one = run_frames(meta, frames, coefs, options, k);
            let two = run_frames(meta, frames, coefs, other, k);
            &&& forall|i: int|
                0 <= i < frames.len() ==> single_frame(
                    #[trigger] frames[i],
                    coefs[i],
                    meta.frame_bits as nat,
                    meta.frame_bytes_per_ch as nat,
                    meta.n_channels as nat,
                    other,
                ) == single_frame(
                    frames[i],
                    coefs[i],
                    meta.frame_bits as nat,
                    meta.frame_bytes_per_ch as nat,
                    meta.n_channels as nat,
                    options,
                )
            &&& one == two
            &&& one matches Some(a) ==> two matches Some(b) && encoded_file(meta, a)
                == encoded_file(meta, b) && dst_coded(a, a.len()) == dst_coded(b, b.len())
                && coded_size(a, a.len()) == coded_size(b, b.len())
        }),
    decreases k,
{
    let other = EncodeOptions { threads, ..options };
    if k > 0 {
        law_threads_change_nothing(meta, frames, coefs, options, threads, (k - 1) as nat);
    }
    assert forall|i: int| 0 <= i < frames.len() implies single_frame(
        #[trigger] frames[i],
        coefs[i],
        meta.frame_bits as nat,
        meta.frame_bytes_per_ch as nat,
        meta.n_channels as nat,
        other,
    ) == single_frame(
        frames[i],
        coefs[i],
        meta.frame_bits as nat,
        meta.frame_bytes_per_ch as nat,
        meta.n_channels as nat,
        options,
    ) by {
        reveal(single_frame);
    }
}

/// The progress of a run: it comes once for each frame, in order, every frame is either DST
/// coded or raw, and the compressed bytes never become fewer.
pub proof fn law_progress_is_in_order(
    before: Encoder,
    first: EncodeProgress,
    after: Encoder,
    second: EncodeProgress,
    written: (Seq<u8>, u32),
)
    requires
        before.progressed(first),
        after.progressed(second),
        after.frames() == before.frames().push(written),
    ensures
        first.dst_frames + first.raw_frames == first.frame + 1,
        second.dst_frames + second.raw_frames == second.frame + 1,
        second.frame == first.frame + 1,
        second.compressed_bytes == first.compressed_bytes + written.0.len(),
{
    let a = before.frames();
    assert(a.push(written).take(a.len() as int) =~= a);
    lemma_counts_stay(a, a.push(written), a.len());
}

} // verus!

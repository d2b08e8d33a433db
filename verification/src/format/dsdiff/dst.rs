//! DST-compressed DSDIFF streaming reader and writer.

use vstd::prelude::*;
use vstd::string::*;

use crate::codec::bits;
use crate::codec::constants::DST_FRAME_RATE;
use crate::codec::frame;
use crate::error::CladstError;
use crate::format::dsdiff::chunk;
use crate::format::dsdiff::chunk::{
    append_be, write_chunk, write_chunk_header, DST, DSTC, DSTF, DSTI, FRM8, FRTE, FVER, PROP,
};
use crate::format::dsdiff::crc;
use crate::format::dsdiff::crc::dst_frame_crc;
use crate::format::dsdiff::dsd;
use crate::format::dsdiff::dsd::{interleave_slices, write_form_start};
use crate::format::dsdiff::scan;
use crate::format::dsdiff::scan::DsdiffProp;
use crate::format::endian;
use crate::format::endian::{be_bytes, read_be};
use crate::format::metadata::DsdMetadata;
use crate::format::patch;
use crate::format::patch::{FileEnd, Patch};
use crate::format::step;
use crate::format::step::{has_id, HeaderStep};
use crate::format::text;
use crate::format::text::{push_decimal, show_id};

verus! {

/// `DST Encoded`.
pub const DST_NAME: [u8; 11] = [68, 83, 84, 32, 69, 110, 99, 111, 100, 101, 100];

// ---------------------------------------------------------------------------
// DST-compressed DSDIFF Types
// ---------------------------------------------------------------------------

/// A single DST frame read from a DSDIFF file.
#[derive(Debug)]
pub struct DstFrame {
    /// Raw encoded DST frame data (DSTF chunk payload).
    pub data: Vec<u8>,
    /// Optional CRC-32 from DSTC chunk (None if no DSTC follows this DSTF).
    pub crc: Option<u32>,
}

impl View for DstFrame {
    type V = (Seq<u8>, Option<u32>);

    open spec fn view(&self) -> (Seq<u8>, Option<u32>) {
        (self.data@, self.crc)
    }
}

// ---------------------------------------------------------------------------
// File layout
// ---------------------------------------------------------------------------

/// The FRTE chunk: number of frames and frame rate.
pub open spec fn frte(n_frames: nat) -> Seq<u8> {
    chunk::chunk(FRTE@, endian::be(n_frames, 4) + endian::be(75, 2))
}

/// The chunks of a frame: DSTF and DSTC.
pub open spec fn frame_chunks(data: Seq<u8>, crc: u32) -> Seq<u8> {
    chunk::chunk(DSTF@, data) + chunk::chunk(DSTC@, endian::be(crc as nat, 4))
}

/// The content of the DST chunk with the first `n` frames.
pub open spec fn dst_body(n_frames: nat, frames: Seq<(Seq<u8>, u32)>, n: nat) -> Seq<u8>
    decreases n,
{
    if n == 0 {
        frte(n_frames)
    } else {
        dst_body(n_frames, frames, (n - 1) as nat) + frame_chunks(frames[n - 1].0, frames[n - 1].1)
    }
}

/// The index entries of the first `n` frames: the offset of DSTF within the DST chunk,
/// and its total size.
pub open spec fn index_entries(n_frames: nat, frames: Seq<(Seq<u8>, u32)>, n: nat) -> Seq<u8>
    decreases n,
{
    if n == 0 {
        Seq::empty()
    } else {
        index_entries(n_frames, frames, (n - 1) as nat) + endian::be(
            dst_body(n_frames, frames, (n - 1) as nat).len(),
            8,
        ) + endian::be(chunk::chunk_len(frames[n - 1].0.len()), 4)
    }
}

/// The DSTI chunk: the frame index.
pub open spec fn dsti(n_frames: nat, frames: Seq<(Seq<u8>, u32)>) -> Seq<u8> {
    chunk::chunk_header(DSTI@, 12 * frames.len()) + index_entries(n_frames, frames, frames.len())
}

/// A DST-compressed DSDIFF file up to the index.
pub open spec fn dst_file_head(
    form_size: nat,
    sample_rate: u32,
    n_channels: nat,
    dst_size: nat,
    body: Seq<u8>,
) -> Seq<u8> {
    dsd::form_start(form_size, sample_rate, n_channels, DST@, DST_NAME@) + DST@ + endian::be(
        dst_size,
        8,
    ) + body
}

/// A DST-compressed DSDIFF file.
pub open spec fn dst_file(
    form_size: nat,
    sample_rate: u32,
    n_channels: nat,
    n_frames: nat,
    frames: Seq<(Seq<u8>, u32)>,
) -> Seq<u8> {
    let body = dst_body(n_frames, frames, frames.len());
    dst_file_head(form_size, sample_rate, n_channels, body.len(), body) + dsti(n_frames, frames)
}

proof fn lemma_frte_len(n_frames: nat)
    ensures
        frte(n_frames).len() == 18,
        (endian::be(n_frames, 4) + endian::be(75, 2)).len() == 6,
{
    endian::lemma_be_len(n_frames, 4);
    endian::lemma_be_len(75, 2);
    chunk::lemma_chunk_len(FRTE@, endian::be(n_frames, 4) + endian::be(75, 2));
}

pub proof fn lemma_frame_chunks_len(data: Seq<u8>, crc: u32)
    ensures
        frame_chunks(data, crc).len() == chunk::chunk_len(data.len()) + 16,
{
    endian::lemma_be_len(crc as nat, 4);
    chunk::lemma_chunk_len(DSTF@, data);
    chunk::lemma_chunk_len(DSTC@, endian::be(crc as nat, 4));
}

/// The length of a file before its first frame.
pub proof fn lemma_first_bytes_len(sample_rate: u32, n_channels: nat, n_frames: nat)
    ensures
        dst_file_head(0, sample_rate, n_channels, 0, frte(n_frames)).len() <= 4 * n_channels + 200,
{
    lemma_frte_len(n_frames);
    dsd::lemma_form_rest_len(sample_rate, n_channels, DST@, DST_NAME@);
    lemma_head_len(sample_rate, n_channels, frte(n_frames));
}

/// Before the first frame stands the FRTE chunk.
pub proof fn lemma_first_body_len(n_frames: nat, frames: Seq<(Seq<u8>, u32)>)
    ensures
        dst_body(n_frames, frames, 0).len() == 18,
{
    lemma_frte_len(n_frames);
}

/// The length of a file that a writer completes.
pub proof fn lemma_file_len(w: DstDsdiffWriter)
    ensures
        dst_file(0, w.sample_rate(), w.channel_count(), w.announced(), w.frames()).len()
            == w.written().len() + 12 * w.frames().len() + 12,
{
    let (n, k) = (w.announced(), w.frames().len());
    let body = dst_body(n, w.frames(), k);
    endian::lemma_be_len(0, 8);
    endian::lemma_be_len(body.len(), 8);
    endian::lemma_be_len(12 * k, 8);
    lemma_sizes(n, w.frames(), k);
}

/// The content of the DST chunk has an even size.
proof fn lemma_body_even(n_frames: nat, frames: Seq<(Seq<u8>, u32)>, n: nat)
    ensures
        dst_body(n_frames, frames, n).len() % 2 == 0,
    decreases n,
{
    if n > 0 {
        let (data, crc) = frames[n - 1];
        let size = data.len();
        lemma_body_even(n_frames, frames, (n - 1) as nat);
        lemma_frame_chunks_len(data, crc);
        assert((size + size % 2) % 2 == 0);
    } else {
        lemma_frte_len(n_frames);
    }
}

/// Each index entry has twelve bytes.
proof fn lemma_index_len(n_frames: nat, frames: Seq<(Seq<u8>, u32)>, n: nat)
    ensures
        index_entries(n_frames, frames, n).len() == 12 * n,
    decreases n,
{
    if n > 0 {
        lemma_index_len(n_frames, frames, (n - 1) as nat);
        endian::lemma_be_len(dst_body(n_frames, frames, (n - 1) as nat).len(), 8);
        endian::lemma_be_len(chunk::chunk_len(frames[n - 1].0.len()), 4);
    }
}

/// The content of the DST chunk has an even size, and each index entry twelve bytes.
pub proof fn lemma_sizes(n_frames: nat, frames: Seq<(Seq<u8>, u32)>, n: nat)
    ensures
        dst_body(n_frames, frames, n).len() % 2 == 0,
        index_entries(n_frames, frames, n).len() == 12 * n,
{
    lemma_body_even(n_frames, frames, n);
    lemma_index_len(n_frames, frames, n);
}

// ---------------------------------------------------------------------------
// DSDIFF DST Writer
// ---------------------------------------------------------------------------

/// Streaming DSDIFF writer that writes DST-compressed frames.
///
/// The writer hands out the bytes to append to the file, and at the end those to fill
/// in: FRM8 and DST chunk sizes. This eliminates the need to buffer all frame data in
/// memory.
pub struct DstDsdiffWriter {
    /// File offset of DST chunk size field.
    dst_size_offset: u64,
    /// Running total of bytes written inside the DST chunk (after the DST size field).
    dst_data_bytes: u64,
    /// DSTI index entries: (offset_in_dst, dstf_size) per frame.
    frame_index: Vec<(u64, u32)>,
    end_pos: u64,
    rate: Ghost<u32>,
    channels: Ghost<nat>,
    announced: Ghost<nat>,
    frames: Ghost<Seq<(Seq<u8>, u32)>>,
}

/// The CRC of the channels of a frame: that of their interleaved bytes.
pub open spec fn channels_crc(channels: Seq<Seq<u8>>) -> u32 {
    crc::crc(bits::unpack(frame::interleaved(channels, channels[0].len())))
}

impl DstDsdiffWriter {
    /// The sample rate of the file.
    pub closed spec fn sample_rate(self) -> u32 {
        self.rate@
    }

    /// The number of channels of the file.
    pub closed spec fn channel_count(self) -> nat {
        self.channels@
    }

    /// The number of frames that the file announces.
    pub closed spec fn announced(self) -> nat {
        self.announced@
    }

    /// The frames of the file so far, each with its CRC.
    pub closed spec fn frames(self) -> Seq<(Seq<u8>, u32)> {
        self.frames@
    }

    /// The bytes of the file so far.
    pub closed spec fn written(self) -> Seq<u8> {
        dst_file_head(
            0,
            self.rate@,
            self.channels@,
            0,
            dst_body(self.announced@, self.frames@, self.frames@.len()),
        )
    }

    /// The writer is in a state that its operations leave behind.
    pub closed spec fn wf(self) -> bool {
        &&& self.end_pos == self.written().len()
        &&& self.dst_size_offset == 16 + dsd::form_rest(
            self.rate@,
            self.channels@,
            DST@,
            DST_NAME@,
        ).len()
        &&& self.dst_data_bytes == dst_body(
            self.announced@,
            self.frames@,
            self.frames@.len(),
        ).len()
        &&& self.frame_index@.len() == self.frames@.len()
        &&& forall|i: int|
            0 <= i < self.frames@.len() ==> (#[trigger] self.frame_index@[i]).0 == dst_body(
                self.announced@,
                self.frames@,
                i as nat,
            ).len() && self.frame_index@[i].1 == chunk::chunk_len(self.frames@[i].0.len())
                % 0x1_0000_0000
    }

    /// Create a new streaming DSDIFF writer.
    ///
    /// Hands out FRM8 header (placeholder size), FVER, PROP, DST header (placeholder size),
    /// and FRTE chunk. After this, call `write_frame()` for each encoded frame.
    pub fn new(sample_rate: u32, n_channels: usize, n_frames: u32) -> (r: (Self, Vec<u8>))
        requires
            4 * n_channels + 200 <= u64::MAX,
        ensures
            r.0.wf(),
            r.0.sample_rate() == sample_rate,
            r.0.channel_count() == n_channels,
            r.0.announced() == n_frames,
            r.0.frames() == Seq::<(Seq<u8>, u32)>::empty(),
            r.1@ == r.0.written(),
            r.1@ == dst_file_head(0, sample_rate, n_channels as nat, 0, frte(n_frames as nat)),
    {
        let mut out: Vec<u8> = write_form_start(sample_rate, n_channels, &DST, &DST_NAME);

        // --- DST chunk header with placeholder size ---
        out.extend_from_slice(&DST);
        // Current position is where the DST size field starts
        let dst_size_offset: u64 = out.len() as u64;
        proof {
            endian::lemma_be_len(0, 8);
            dsd::lemma_form_rest_len(sample_rate, n_channels as nat, DST@, DST_NAME@);
            lemma_frte_len(n_frames as nat);
        }
        append_be(&mut out, 0, 8);  // placeholder

        // --- FRTE sub-chunk (fixed, n_frames known upfront) ---
        let mut frte_data: Vec<u8> = be_bytes(n_frames as u64, 4);
        append_be(&mut frte_data, DST_FRAME_RATE as u64, 2);
        write_chunk(&mut out, &FRTE, frte_data.as_slice());

        // Track how many bytes we've written inside DST after its size field
        // FRTE chunk = 12 (header) + 6 (data) = 18 bytes
        let frte_total: u64 = 12 + frte_data.len() as u64;

        let end_pos: u64 = out.len() as u64;
        let w = DstDsdiffWriter {
            dst_size_offset,
            dst_data_bytes: frte_total,
            frame_index: Vec::new(),
            end_pos,
            rate: Ghost(sample_rate),
            channels: Ghost(n_channels as nat),
            announced: Ghost(n_frames as nat),
            frames: Ghost(Seq::empty()),
        };
        (w, out)
    }

    /// Write a single DSTF chunk followed by a DSTC (CRC) chunk.
    ///
    /// `frame_data` is the encoded DST frame. `dsd_channels` contains the
    /// original DSD bytes per channel for this frame, used to compute the CRC
    /// over the interleaved representation.
    pub fn write_frame(&mut self, frame_data: &[u8], dsd_channels: &[&[u8]]) -> (out: Vec<u8>)
        requires
            old(self).wf(),
            dsd_channels@.len() > 0,
            forall|ch: int|
                0 <= ch < dsd_channels@.len() ==> dsd_channels@[0]@.len() <= (
                #[trigger] dsd_channels@[ch])@.len(),
            old(self).written().len() + frame_data@.len() + 32 <= u64::MAX,
        ensures
            final(self).wf(),
            final(self).sample_rate() == old(self).sample_rate(),
            final(self).channel_count() == old(self).channel_count(),
            final(self).announced() == old(self).announced(),
            final(self).frames() == old(self).frames().push(
                (frame_data@, channels_crc(frame::slices(dsd_channels@))),
            ),
            out@ == frame_chunks(frame_data@, channels_crc(frame::slices(dsd_channels@))),
            final(self).written() == old(self).written() + out@,
    {
        let ghost before = self.frames@;
        let ghost n = before.len();
        proof {
            lemma_head_len(
                self.rate@,
                self.channels@,
                dst_body(self.announced@, before, n),
            );
        }
        // Record frame index: offset of DSTF within DST chunk, and DSTF total size
        let dstf_offset_in_dst: u64 = self.dst_data_bytes;
        let dstf_total: u64 = 12 + frame_data.len() as u64 + (frame_data.len() % 2) as u64;
        let short_total: u32 = dstf_total as u32;
        proof {
            assert(short_total == dstf_total % 0x1_0000_0000) by (bit_vector)
                requires
                    short_total == dstf_total as u32,
            ;
        }
        self.frame_index.push((dstf_offset_in_dst, short_total));

        // DSTF chunk
        let mut out: Vec<u8> = Vec::new();
        write_chunk(&mut out, &DSTF, frame_data);

        // Compute CRC over interleaved DSD data (CH0_b0, CH1_b0, CH0_b1, ...)
        let frame_bytes: usize = dsd_channels[0].len();
        let interleaved: Vec<u8> = interleave_slices(dsd_channels, frame_bytes);
        let crc: u32 = dst_frame_crc(interleaved.as_slice());

        // DSTC chunk (4 bytes big-endian CRC)
        let crc_data: Vec<u8> = be_bytes(crc as u64, 4);
        write_chunk(&mut out, &DSTC, crc_data.as_slice());
        let dstc_total: u64 = 16;  // header + 4 bytes data (always even, no pad)

        self.dst_data_bytes = self.dst_data_bytes + (dstf_total + dstc_total);
        self.end_pos = self.end_pos + (dstf_total + dstc_total);
        proof {
            let frames = before.push((frame_data@, crc));
            assert(out@ =~= frame_chunks(frame_data@, crc));
            lemma_frame_chunks_len(frame_data@, crc);
            lemma_body_stays(self.announced@, before, frames, n);
            self.frames@ = frames;
            assert forall|i: int| 0 <= i < frames.len() implies (#[trigger] self.frame_index@[i]).0
                == dst_body(self.announced@, frames, i as nat).len() && self.frame_index@[i].1
                == chunk::chunk_len(frames[i].0.len()) % 0x1_0000_0000 by {
                lemma_body_stays(self.announced@, before, frames, i as nat);
                if i < n {
                    assert(self.frame_index@[i] == old(self).frame_index@[i]);
                }
            }
            assert(self.written() =~= old(self).written() + out@);
        }
        out
    }

    /// DSTI chunk (DST Frame Index).
    fn build_index(&self) -> (tail: Vec<u8>)
        requires
            self.wf(),
            12 * self.frames().len() <= usize::MAX,
        ensures
            tail@ == dsti(self.announced(), self.frames()),
            tail@.len() == 12 + 12 * self.frames().len(),
    {
        let ghost frames = self.frames@;
        let ghost announced = self.announced@;
        // Each entry: 8-byte offset (within DST chunk) + 4-byte size = 12 bytes
        let n: usize = self.frame_index.len();
        let mut tail: Vec<u8> = Vec::new();
        write_chunk_header(&mut tail, &DSTI, (n * 12) as u64);
        let ghost header = chunk::chunk_header(DSTI@, 12 * frames.len());
        proof {
            endian::lemma_be_len(12 * frames.len(), 8);
            assert(tail@ =~= header + index_entries(announced, frames, 0));
        }
        let mut i: usize = 0;
        while i < n
            invariant
                i <= n,
                n == self.frame_index@.len(),
                self.wf(),
                frames == self.frames@,
                announced == self.announced@,
                header.len() == 12,
                tail@ == header + index_entries(announced, frames, i as nat),
                tail@.len() == 12 + 12 * i,
            decreases n - i,
        {
            let (offset, size) = self.frame_index[i];
            append_be(&mut tail, offset, 8);
            append_be(&mut tail, size as u64, 4);
            i = i + 1;
            proof {
                endian::lemma_be_len(offset as nat, 8);
                endian::lemma_be_len(size as nat, 4);
                assert(self.frame_index@[i - 1].0 == offset);
                endian::lemma_be_low(chunk::chunk_len(frames[i - 1].0.len()), 4);
                endian::lemma_pow256();
                assert(tail@ =~= header + index_entries(announced, frames, i as nat));
            }
        }
        tail
    }

    /// Finalize the file: hand out the DSTI chunk, then fill in FRM8 and DST sizes.
    pub fn finish(self) -> (end: FileEnd)
        requires
            self.wf(),
            12 * self.frames().len() <= usize::MAX,
            self.written().len() + 12 * self.frames().len() + 12 <= u64::MAX,
        ensures
            end.complete(self.written()) == dst_file(
                (self.written().len() + 12 * self.frames().len()) as nat,
                self.sample_rate(),
                self.channel_count(),
                self.announced(),
                self.frames(),
            ),
    {
        let tail: Vec<u8> = self.build_index();
        proof {
            lemma_head_len(
                self.rate@,
                self.channels@,
                dst_body(self.announced@, self.frames@, self.frames@.len()),
            );
        }
        let end_pos: u64 = self.end_pos + tail.len() as u64;

        // FRM8 size = everything after FRM8 header (after id + size = 12 bytes)
        let frm8_size: u64 = end_pos - 12;
        let mut patches: Vec<Patch> = Vec::new();
        patches.push(Patch { offset: 4, bytes: be_bytes(frm8_size, 8) });

        // DST chunk size = all data inside DST (FRTE + all DSTF/DSTC chunks)
        patches.push(
            Patch { offset: self.dst_size_offset, bytes: be_bytes(self.dst_data_bytes, 8) },
        );
        proof {
            lemma_dst_patched(
                self.rate@,
                self.channels@,
                self.announced@,
                self.frames@,
                frm8_size as nat,
                patches@,
            );
        }
        FileEnd { tail, patches }
    }
}

/// A file with its two sizes filled in.
proof fn lemma_dst_patched(
    sample_rate: u32,
    n_channels: nat,
    n_frames: nat,
    frames: Seq<(Seq<u8>, u32)>,
    form_size: nat,
    patches: Seq<Patch>,
)
    requires
        patches.len() == 2,
        patches[0].offset == 4,
        patches[0].bytes@ == endian::be(form_size, 8),
        patches[1].offset == 16 + dsd::form_rest(sample_rate, n_channels, DST@, DST_NAME@).len(),
        patches[1].bytes@ == endian::be(dst_body(n_frames, frames, frames.len()).len(), 8),
    ensures
        ({
            let body = dst_body(n_frames, frames, frames.len());
            let written = dst_file_head(0, sample_rate, n_channels, 0, body);
            patch::patched(written + dsti(n_frames, frames), patches, 2) == dst_file(
                form_size,
                sample_rate,
                n_channels,
                n_frames,
                frames,
            )
        }),
{
    let body = dst_body(n_frames, frames, frames.len());
    let rest = dsd::form_rest(sample_rate, n_channels, DST@, DST_NAME@) + DST@;
    let z = endian::be(0, 8);
    let data = body + dsti(n_frames, frames);
    let written = dst_file_head(0, sample_rate, n_channels, 0, body);
    assert(written + dsti(n_frames, frames) =~= FRM8@ + z + rest + z + data);
    dsd::lemma_size_patches(rest, data, form_size, body.len());
    reveal_with_fuel(patch::patched, 3);
    assert(FRM8@ + endian::be(form_size, 8) + rest + endian::be(body.len(), 8) + data =~= dst_file(
        form_size,
        sample_rate,
        n_channels,
        n_frames,
        frames,
    ));
}

proof fn lemma_head_len(sample_rate: u32, n_channels: nat, body: Seq<u8>)
    ensures
        dst_file_head(0, sample_rate, n_channels, 0, body).len() == 24 + dsd::form_rest(
            sample_rate,
            n_channels,
            DST@,
            DST_NAME@,
        ).len() + body.len(),
{
    endian::lemma_be_len(0, 8);
}

/// What is written of the first frames stays when more come.
proof fn lemma_body_stays(
    n_frames: nat,
    a: Seq<(Seq<u8>, u32)>,
    b: Seq<(Seq<u8>, u32)>,
    n: nat,
)
    requires
        n <= a.len(),
        a.is_prefix_of(b),
    ensures
        dst_body(n_frames, a, n) == dst_body(n_frames, b, n),
    decreases n,
{
    if n > 0 {
        lemma_body_stays(n_frames, a, b, (n - 1) as nat);
        assert(b.subrange(0, a.len() as int)[n - 1] == a[n - 1]);
    }
}

// ---------------------------------------------------------------------------
// DST-compressed DSDIFF Streaming Reader
// ---------------------------------------------------------------------------

/// What comes of opening a DST-compressed DSDIFF file.
pub enum Opened {
    /// So many bytes of the data chunk are needed.
    Need(nat),
    /// The number of frames, and where the chunks behind FRTE start.
    Frames(nat, nat),
    Refused(Seq<char>),
    Stuck,
}

/// What comes of opening a DST-compressed DSDIFF file, given the first bytes of its data
/// chunk.
#[verifier::opaque]
pub open spec fn open_dst(p: scan::Props, offset: nat, size: nat, b: Seq<u8>) -> Opened {
    if p.compression != DST@ {
        Opened::Refused(
            "not a DST-compressed DSDIFF: CMPR="@ + text::id_text(p.compression)
                + " (expected 'DST ')"@,
        )
    } else if p.sample_rate == 0 || p.n_channels == 0 || size == 0 {
        Opened::Refused("incomplete DST DSDIFF: missing FS, CHNL, or DST data chunk"@)
    } else if offset + size > u64::MAX {
        Opened::Stuck
    } else if b.len() < 12 {
        Opened::Need(12)
    } else if step::id_at(b, 0) != FRTE@ {
        Opened::Refused(
            "expected FRTE chunk at start of DST data, got "@ + text::id_text(step::id_at(b, 0)),
        )
    } else if b.len() < 18 {
        Opened::Need(18)
    } else if endian::be_value(b.subrange(16, 18)) != 75 {
        Opened::Refused(
            "unexpected DST frame rate: "@ + text::decimal(endian::be_value(b.subrange(16, 18)))
                + " (expected "@ + text::decimal(75) + ")"@,
        )
    } else {
        let n_frames = endian::be_value(b.subrange(12, 16));
        match scan::next_chunk(offset + 12, endian::be_value(b.subrange(4, 12))) {
            Some(next) => if p.sample_rate / 75 / 8 == 0 {
                Opened::Stuck
            } else {
                Opened::Frames(n_frames, next)
            },
            None => Opened::Stuck,
        }
    }
}

/// Streaming reader for DST-compressed DSDIFF input.
///
/// Made from what the search for the chunks found and from the FRTE chunk, yields one
/// DST frame at a time from DSTF/DSTC chunk pairs.
#[derive(Debug)]
pub struct DstDsdiffStreamReader {
    metadata: DsdMetadata,
    /// End offset of the DST chunk data in the file.
    dst_end: u64,
    /// Where the next chunk starts.
    pos: u64,
    frames_yielded: usize,
}

impl DstDsdiffStreamReader {
    /// The audio metadata.
    pub closed spec fn meta(self) -> DsdMetadata {
        self.metadata
    }

    /// Where the DST chunk ends.
    pub closed spec fn end(self) -> nat {
        self.dst_end as nat
    }

    /// Where the next chunk starts.
    pub closed spec fn at(self) -> nat {
        self.pos as nat
    }

    /// Number of frames already yielded.
    pub closed spec fn yielded(self) -> nat {
        self.frames_yielded as nat
    }

    /// Open a DST-compressed DSDIFF file for streaming reading, given what the search for
    /// the chunks found, and the first bytes of the data chunk.
    ///
    /// Validates CMPR="DST " and reads FRTE.
    pub fn new(prop: &DsdiffProp, data_offset: u64, data_size: u64, bytes: &[u8]) -> (r: HeaderStep<
        Self,
    >)
        ensures
            match open_dst(prop@, data_offset as nat, data_size as nat, bytes@) {
                Opened::Need(n) => r matches HeaderStep::NeedMore(k) && k == n,
                Opened::Frames(n, next) => r matches HeaderStep::Done(d) && d.meta().of(
                    prop.sample_rate,
                    prop.n_channels,
                    (n * (prop.sample_rate / 75)) as u64,
                ) && n * (prop.sample_rate / 75) <= u64::MAX && d.end() == data_offset + data_size
                    && d.at() == next && d.yielded() == 0,
                Opened::Refused(m) => r matches HeaderStep::Failed(e) && step::format_error(e, m),
                Opened::Stuck => r is Stuck,
            },
    {
        reveal(open_dst);
        proof {
            assert(step::id_at(prop.compression@, 0) =~= prop.compression@);
        }
        if !has_id(&prop.compression, 0, &DST) {
            let mut m: String = "not a DST-compressed DSDIFF: CMPR=".to_owned();
            m.append(show_id(&prop.compression).as_str());
            m.append(" (expected 'DST ')");
            return HeaderStep::Failed(CladstError::Format(m));
        }
        if prop.sample_rate == 0 || prop.n_channels == 0 || data_size == 0 {
            return HeaderStep::Failed(
                CladstError::Format(
                    "incomplete DST DSDIFF: missing FS, CHNL, or DST data chunk".to_owned(),
                ),
            );
        }
        let dst_end: u64 = match data_offset.checked_add(data_size) {
            Some(end) => end,
            None => {
                return HeaderStep::Stuck;
            },
        };
        if bytes.len() < 12 {
            return HeaderStep::NeedMore(12);
        }
        if !has_id(bytes, 0, &FRTE) {
            let mut m: String = "expected FRTE chunk at start of DST data, got ".to_owned();
            m.append(show_id(&bytes[0..4]).as_str());
            return HeaderStep::Failed(CladstError::Format(m));
        }
        if bytes.len() < 18 {
            return HeaderStep::NeedMore(18);
        }
        proof {
            endian::lemma_be_bound(bytes@.subrange(12, 16));
            endian::lemma_pow256();
        }
        let frte_size: u64 = read_be(&bytes[4..12]);
        let n_frames: u64 = read_be(&bytes[12..16]);
        let frame_rate: u64 = read_be(&bytes[16..18]);
        if frame_rate != DST_FRAME_RATE as u64 {
            let mut m: String = "unexpected DST frame rate: ".to_owned();
            push_decimal(&mut m, frame_rate);
            m.append(" (expected ");
            push_decimal(&mut m, DST_FRAME_RATE as u64);
            m.append(")");
            return HeaderStep::Failed(CladstError::Format(m));
        }
        // Skip any remaining FRTE data + padding
        let frte_next: u64 = match data_offset.checked_add(12) {
            Some(start) => match scan::behind(start, frte_size) {
                Some(next) => next,
                None => {
                    return HeaderStep::Stuck;
                },
            },
            None => {
                return HeaderStep::Stuck;
            },
        };
        if prop.sample_rate / DST_FRAME_RATE / 8 == 0 {
            return HeaderStep::Stuck;
        }
        // Compute metadata from n_frames
        let frame_bits: u64 = (prop.sample_rate / DST_FRAME_RATE) as u64;
        proof {
            assert(n_frames * frame_bits <= 0xffff_ffff * 0xffff_ffff) by (nonlinear_arith)
                requires
                    0 <= n_frames <= 0xffff_ffff,
                    0 <= frame_bits <= 0xffff_ffff,
            ;
        }
        let total_samples: u64 = n_frames * frame_bits;
        let metadata: DsdMetadata = DsdMetadata::from_params(
            prop.sample_rate,
            prop.n_channels,
            total_samples,
        );
        HeaderStep::Done(Self { metadata, dst_end, pos: frte_next, frames_yielded: 0 })
    }

    /// Audio metadata.
    pub fn metadata(&self) -> (m: &DsdMetadata)
        ensures
            *m == self.meta(),
    {
        &self.metadata
    }

    /// Where the next chunk starts.
    pub fn position(&self) -> (pos: u64)
        ensures
            pos == self.at(),
    {
        self.pos
    }
}

/// What comes of a search for the next frame.
pub enum NextFrame {
    /// There is none.
    End,
    /// The data, the CRC, and where the next chunk starts.
    Frame(Seq<u8>, Option<u32>, nat),
    /// A part of the file is missing.
    Unreadable,
    /// The DSTC chunk holds no CRC.
    TooSmall,
    /// A size cannot be counted.
    Overflow,
    /// The position behind the DSTC chunk lies before the file.
    BadSeek,
}

/// A position moved by a distance that is taken as a 64-bit signed number.
pub open spec fn moved(pos: nat, skip: nat) -> int {
    if skip <= i64::MAX {
        pos as int + skip
    } else {
        pos + skip - 0x1_0000_0000_0000_0000
    }
}

/// What comes of a CRC, and of the size of its chunk.
pub open spec fn crc_read(at: nat, size: nat, data: Seq<u8>, c: Seq<u8>) -> NextFrame {
    let skip = if size > 4 {
        (size - 4 + size % 2) as nat
    } else {
        0
    };
    let next = moved(at + 16, skip);
    if next < 0 {
        NextFrame::BadSeek
    } else if next > u64::MAX {
        NextFrame::Overflow
    } else {
        NextFrame::Frame(data, Some(endian::be_value(c) as u32), next as nat)
    }
}

/// What comes of the rest of a DSTC chunk of a size.
pub open spec fn crc_value(file: Seq<u8>, at: nat, size: nat, data: Seq<u8>) -> NextFrame {
    if size < 4 {
        NextFrame::TooSmall
    } else {
        match scan::part(file, at + 12, 4) {
            None => NextFrame::Unreadable,
            Some(c) => crc_read(at, size, data, c),
        }
    }
}

/// The frame whose data ends before `at`, with the CRC from the DSTC chunk there, if it
/// is one.
pub open spec fn with_crc(file: Seq<u8>, at: nat, end: nat, data: Seq<u8>) -> NextFrame {
    if at >= end || scan::part(file, at, 4) != Some(DSTC@) {
        NextFrame::Frame(data, None, at)
    } else {
        match scan::part(file, at + 4, 8) {
            None => NextFrame::Unreadable,
            Some(n) => crc_value(file, at, endian::be_value(n), data),
        }
    }
}

/// The frame whose data starts at a position.
pub open spec fn frame_data_at(file: Seq<u8>, start: nat, size: nat, end: nat) -> NextFrame {
    if size > usize::MAX {
        NextFrame::Overflow
    } else {
        match scan::part(file, start, size) {
            None => NextFrame::Unreadable,
            Some(data) => match scan::next_chunk(start, size) {
                None => NextFrame::Overflow,
                Some(at) => with_crc(file, at, end, data),
            },
        }
    }
}

/// The next frame from a chunk on; chunks that are no DSTF are skipped.
pub open spec fn next_frame_at(file: Seq<u8>, pos: nat, end: nat) -> NextFrame
    decreases scan::remaining(file, pos),
{
    if pos >= end {
        NextFrame::End
    } else {
        match scan::part(file, pos, 12) {
            None => NextFrame::End,
            Some(header) => {
                let size = scan::header_size(header);
                if header.take(4) == DSTF@ {
                    frame_data_at(file, pos + 12, size, end)
                } else {
                    match scan::next_chunk(pos + 12, size) {
                        None => NextFrame::Overflow,
                        Some(next) => next_frame_at(file, next, end),
                    }
                }
            },
        }
    }
}

/// Where a search for the next frame is.
pub enum Place {
    /// At the header of a chunk.
    Chunk { pos: nat },
    /// At the data of a DSTF chunk.
    Data { start: nat, len: nat },
    /// Behind a DSTF chunk.
    CrcId { at: nat, data: Seq<u8> },
    /// At the size of a DSTC chunk.
    CrcSize { at: nat, data: Seq<u8> },
    /// At the CRC.
    CrcValue { at: nat, size: nat, data: Seq<u8> },
    /// At its end.
    Over(NextFrame),
}

/// A search for the next frame: where the DST chunk ends, and where the search is.
pub struct Search {
    pub end: nat,
    pub place: Place,
}

/// A search from a chunk on.
pub open spec fn search_from(pos: nat, end: nat) -> Search {
    let place = if pos >= end {
        Place::Over(NextFrame::End)
    } else {
        Place::Chunk { pos }
    };
    Search { end, place }
}

impl Search {
    /// The part of the file that is to be read next, if the search goes on.
    pub open spec fn wanted(self) -> Option<(nat, nat)> {
        match self.place {
            Place::Chunk { pos } => Some((pos, 12nat)),
            Place::Data { start, len } => Some((start, len)),
            Place::CrcId { at, .. } => Some((at, 4nat)),
            Place::CrcSize { at, .. } => Some((at + 4, 8nat)),
            Place::CrcValue { at, .. } => Some((at + 12, 4nat)),
            Place::Over(_) => None,
        }
    }

    /// What comes of the search on a file.
    pub open spec fn resume(self, file: Seq<u8>) -> NextFrame {
        match self.place {
            Place::Chunk { pos } => next_frame_at(file, pos, self.end),
            Place::Data { start, len } => frame_data_at(file, start, len, self.end),
            Place::CrcId { at, data } => with_crc(file, at, self.end, data),
            Place::CrcSize { at, data } => match scan::part(file, at + 4, 8) {
                None => NextFrame::Unreadable,
                Some(n) => crc_value(file, at, endian::be_value(n), data),
            },
            Place::CrcValue { at, size, data } => crc_value(file, at, size, data),
            Place::Over(outcome) => outcome,
        }
    }

    /// The place after the header of a chunk: at the data of a DSTF chunk, else at the next
    /// chunk.
    pub open spec fn after_chunk(self, pos: nat, header: Seq<u8>) -> Place {
        let size = scan::header_size(header);
        if pos + 12 > u64::MAX {
            Place::Over(NextFrame::Overflow)
        } else if header.take(4) == DSTF@ {
            if size > usize::MAX {
                Place::Over(NextFrame::Overflow)
            } else {
                Place::Data { start: pos + 12, len: size }
            }
        } else {
            match scan::next_chunk(pos + 12, size) {
                None => Place::Over(NextFrame::Overflow),
                Some(next) => search_from(next, self.end).place,
            }
        }
    }

    /// The place after the data of a frame: at the chunk behind them, unless the DST chunk
    /// ends there.
    pub open spec fn after_data(self, start: nat, len: nat, data: Seq<u8>) -> Place {
        match scan::next_chunk(start, len) {
            None => Place::Over(NextFrame::Overflow),
            Some(at) => if at >= self.end {
                Place::Over(NextFrame::Frame(data, None, at))
            } else {
                Place::CrcId { at, data }
            },
        }
    }

    /// The place after the ID of the chunk behind a frame: at its size if it is DSTC, else
    /// there is no CRC.
    pub open spec fn after_crc_id(self, at: nat, data: Seq<u8>, id: Seq<u8>) -> Place {
        if id != DSTC@ {
            Place::Over(NextFrame::Frame(data, None, at))
        } else if at + 16 > u64::MAX {
            Place::Over(NextFrame::Overflow)
        } else {
            Place::CrcSize { at, data }
        }
    }

    /// The search after a reply: the part of the file that was asked for, or nothing where
    /// it could not be read. Without a chunk header there is no frame, and without the ID
    /// behind a frame there is no CRC; any other part has to be there.
    pub open spec fn after(self, reply: Option<Seq<u8>>) -> Search {
        let place = match (reply, self.place) {
            (Some(header), Place::Chunk { pos }) => self.after_chunk(pos, header),
            (Some(data), Place::Data { start, len }) => self.after_data(start, len, data),
            (Some(id), Place::CrcId { at, data }) => self.after_crc_id(at, data, id),
            (Some(n), Place::CrcSize { at, data }) => if endian::be_value(n) < 4 {
                Place::Over(NextFrame::TooSmall)
            } else {
                Place::CrcValue { at, size: endian::be_value(n), data }
            },
            (Some(c), Place::CrcValue { at, size, data }) => Place::Over(
                crc_read(at, size, data, c),
            ),
            (None, Place::Chunk { .. }) => Place::Over(NextFrame::End),
            (None, Place::CrcId { at, data }) => Place::Over(NextFrame::Frame(data, None, at)),
            (None, _) => Place::Over(NextFrame::Unreadable),
            _ => self.place,
        };
        Search { end: self.end, place }
    }

    /// A bound on the replies that are still to come: chunks come at growing positions, and
    /// a frame takes at most four more replies.
    pub open spec fn bound(self) -> nat {
        match self.place {
            Place::Chunk { pos } => 5 + scan::room(pos),
            Place::Data { .. } => 4,
            Place::CrcId { .. } => 3,
            Place::CrcSize { .. } => 2,
            Place::CrcValue { .. } => 1,
            Place::Over(_) => 0,
        }
    }
}

/// A search for the next frame ends: each reply, whatever it holds, brings it nearer to its
/// end.
pub proof fn law_frame_search_ends(s: Search, reply: Option<Seq<u8>>)
    requires
        s.wanted() is Some,
    ensures
        s.after(reply).bound() < s.bound(),
{
}

/// Where a search for the next frame is.
#[derive(Debug)]
enum Stage {
    /// At the header of a chunk.
    Chunk { pos: u64 },
    /// At the data of a DSTF chunk.
    Data { start: u64, len: usize },
    /// Behind a DSTF chunk.
    CrcId { at: u64, data: Vec<u8> },
    /// At the size of a DSTC chunk.
    CrcSize { at: u64, data: Vec<u8> },
    /// At the CRC.
    CrcValue { at: u64, size: u64, data: Vec<u8> },
    /// At an end.
    End,
    Frame { data: Vec<u8>, crc: Option<u32>, next: u64 },
    Unreadable,
    TooSmall,
    Overflow,
    BadSeek,
}

/// A search for the next frame.
#[derive(Debug)]
pub struct DstFrameSearch {
    end: u64,
    stage: Stage,
}

/// What came of a search for the next frame.
#[derive(Debug)]
pub enum FrameReply {
    /// All frames have been read.
    End,
    /// The next frame.
    Frame(DstFrame),
    /// The file is refused.
    Failed(CladstError),
    /// The part of the file that was asked for last is missing.
    Unreadable,
    /// A size cannot be counted.
    Overflow,
    /// A position lies before the file.
    BadSeek,
}

impl View for DstFrameSearch {
    type V = Search;

    /// Where the DST chunk ends, and where the search is.
    closed spec fn view(&self) -> Search {
        let place = match self.stage {
            Stage::Chunk { pos } => Place::Chunk { pos: pos as nat },
            Stage::Data { start, len } => Place::Data { start: start as nat, len: len as nat },
            Stage::CrcId { at, data } => Place::CrcId { at: at as nat, data: data@ },
            Stage::CrcSize { at, data } => Place::CrcSize { at: at as nat, data: data@ },
            Stage::CrcValue { at, size, data } => Place::CrcValue {
                at: at as nat,
                size: size as nat,
                data: data@,
            },
            Stage::End => Place::Over(NextFrame::End),
            Stage::Frame { data, crc, next } => Place::Over(
                NextFrame::Frame(data@, crc, next as nat),
            ),
            Stage::Unreadable => Place::Over(NextFrame::Unreadable),
            Stage::TooSmall => Place::Over(NextFrame::TooSmall),
            Stage::Overflow => Place::Over(NextFrame::Overflow),
            Stage::BadSeek => Place::Over(NextFrame::BadSeek),
        };
        Search { end: self.end as nat, place }
    }
}

impl DstFrameSearch {
    /// What comes of the search on a file.
    pub open spec fn resume(self, file: Seq<u8>) -> NextFrame {
        self@.resume(file)
    }

    /// The part of the file that is to be read next, if the search goes on.
    pub open spec fn wanted(self) -> Option<(nat, nat)> {
        self@.wanted()
    }

    /// The search is in a state that its operations leave behind.
    pub closed spec fn wf(self) -> bool {
        match self.stage {
            Stage::Chunk { pos } => pos < self.end,
            Stage::CrcId { at, .. } => at < self.end,
            Stage::CrcSize { at, .. } => at <= u64::MAX - 16,
            Stage::CrcValue { at, size, .. } => at <= u64::MAX - 16 && size >= 4,
            _ => true,
        }
    }

    /// The part of the file that is to be read next, if the search goes on.
    pub fn request(&self) -> (r: Option<(u64, usize)>)
        requires
            self.wf(),
        ensures
            match self.wanted() {
                Some((at, n)) => r matches Some((offset, len)) && offset == at && len == n,
                None => r is None,
            },
    {
        match &self.stage {
            Stage::Chunk { pos } => Some((*pos, 12)),
            Stage::Data { start, len } => Some((*start, *len)),
            Stage::CrcId { at, .. } => Some((*at, 4)),
            Stage::CrcSize { at, .. } => Some((*at + 4, 8)),
            Stage::CrcValue { at, .. } => Some((*at + 12, 4)),
            _ => None,
        }
    }
}

/// A position moved by a distance that is taken as a 64-bit signed number.
fn move_by(pos: u64, skip: u64) -> (r: Stage)
    ensures
        ({
            let next = moved(pos as nat, skip as nat);
            if next < 0 {
                r is BadSeek
            } else if next > u64::MAX {
                r is Overflow
            } else {
                r matches Stage::Chunk { pos: p } && p == next
            }
        }),
{
    if skip <= i64::MAX as u64 {
        match pos.checked_add(skip) {
            Some(next) => Stage::Chunk { pos: next },
            None => Stage::Overflow,
        }
    } else {
        let back: u64 = u64::MAX - skip + 1;
        if back <= pos {
            Stage::Chunk { pos: pos - back }
        } else {
            Stage::BadSeek
        }
    }
}

impl DstFrameSearch {
    /// Go on with the part of the file that was asked for, or without it where it could
    /// not be read.
    pub fn supply(self, reply: Option<Vec<u8>>) -> (next: Self)
        requires
            self.wf(),
            self.wanted() is Some,
            reply matches Some(bytes) ==> bytes@.len() == (self.wanted()->0).1,
        ensures
            next.wf(),
            next@ == self@.after(reply_view(reply)),
            forall|file: Seq<u8>|
                file.len() <= i64::MAX && scan::answers(
                    file,
                    (self.wanted()->0).0,
                    (self.wanted()->0).1,
                    reply_view(reply),
                ) ==> #[trigger] next.resume(file) == self.resume(file),
    {
        let end: u64 = self.end;
        let stage: Stage = match reply {
            Some(bytes) => match self.stage {
                Stage::Chunk { pos } => take_chunk(pos, end, bytes.as_slice()),
                Stage::Data { start, len } => match scan::behind(start, len as u64) {
                    // Skip padding byte if odd size
                    Some(at) => if at >= end {
                        Stage::Frame { data: bytes, crc: None, next: at }
                    } else {
                        // Check if the next chunk is DSTC (CRC)
                        Stage::CrcId { at, data: bytes }
                    },
                    None => Stage::Overflow,
                },
                Stage::CrcId { at, data } => {
                    proof {
                        assert(step::id_at(bytes@, 0) =~= bytes@);
                    }
                    if !has_id(bytes.as_slice(), 0, &DSTC) {
                        // Not a CRC chunk
                        Stage::Frame { data, crc: None, next: at }
                    } else if at > u64::MAX - 16 {
                        Stage::Overflow
                    } else {
                        Stage::CrcSize { at, data }
                    }
                },
                Stage::CrcSize { at, data } => {
                    let size: u64 = read_be(bytes.as_slice());
                    if size < 4 {
                        Stage::TooSmall
                    } else {
                        Stage::CrcValue { at, size, data }
                    }
                },
                Stage::CrcValue { at, size, data } => {
                    proof {
                        endian::lemma_be_bound(bytes@);
                        endian::lemma_pow256();
                    }
                    let crc: u32 = read_be(bytes.as_slice()) as u32;
                    // Skip remaining data + padding
                    let skip: u64 = if size > 4 { (size - 4) + (size % 2) } else { 0 };
                    match move_by(at + 16, skip) {
                        Stage::Chunk { pos } => Stage::Frame { data, crc: Some(crc), next: pos },
                        other => other,
                    }
                },
                other => other,
            },
            None => match self.stage {
                // The chunks end here
                Stage::Chunk { .. } => Stage::End,
                Stage::CrcId { at, data } => Stage::Frame { data, crc: None, next: at },
                _ => Stage::Unreadable,
            },
        };
        DstFrameSearch { end, stage }
    }
}

/// The bytes of a reply.
pub open spec fn reply_view(reply: Option<Vec<u8>>) -> Option<Seq<u8>> {
    match reply {
        Some(bytes) => Some(bytes@),
        None => None,
    }
}

/// Go on with the header of a chunk.
fn take_chunk(pos: u64, end: u64, header: &[u8]) -> (stage: Stage)
    requires
        pos < end,
        header@.len() == 12,
    ensures
        (DstFrameSearch { end, stage }).wf(),
        (DstFrameSearch { end, stage })@.place == (Search {
            end: end as nat,
            place: Place::Chunk { pos: pos as nat },
        }).after_chunk(pos as nat, header@),
        forall|file: Seq<u8>|
            scan::part(file, pos as nat, 12) == Some(header@) && file.len() <= i64::MAX
                ==> #[trigger] (DstFrameSearch { end, stage }).resume(file) == next_frame_at(
                file,
                pos as nat,
                end as nat,
            ),
{
    let chunk_size: u64 = scan::size_in(header);
    proof {
        assert(step::id_at(header@, 0) =~= header@.take(4));
    }
    let start: u64 = match pos.checked_add(12) {
        Some(start) => start,
        None => {
            return Stage::Overflow;
        },
    };
    let stage: Stage = if has_id(header, 0, &DSTF) {
        if chunk_size > usize::MAX as u64 {
            Stage::Overflow
        } else {
            Stage::Data { start, len: chunk_size as usize }
        }
    } else {
        // Skip non-DSTF chunks (DSTI, etc.)
        match scan::behind(start, chunk_size) {
            None => Stage::Overflow,
            Some(next) => if next >= end {
                Stage::End
            } else {
                Stage::Chunk { pos: next }
            },
        }
    };
    proof {
        let search = DstFrameSearch { end, stage };
        assert forall|file: Seq<u8>|
            scan::part(file, pos as nat, 12) == Some(header@) && file.len()
                <= i64::MAX implies #[trigger] search.resume(file) == next_frame_at(
            file,
            pos as nat,
            end as nat,
        ) by {
            reveal_with_fuel(next_frame_at, 2);
        }
    }
    stage
}

impl DstDsdiffStreamReader {
    /// Start a search for the next frame, unless all frames have been read.
    pub fn start_frame(&self) -> (r: Option<DstFrameSearch>)
        ensures
            r is None <==> self.yielded() >= self.meta().n_frames,
            r matches Some(s) ==> {
                &&& s.wf()
                &&& s@ == search_from(self.at(), self.end())
                &&& forall|file: Seq<u8>| #[trigger]
                    s.resume(file) == next_frame_at(file, self.at(), self.end())
            },
    {
        if self.frames_yielded >= self.metadata.n_frames {
            return None;
        }
        let stage: Stage = if self.pos >= self.dst_end {
            Stage::End
        } else {
            Stage::Chunk { pos: self.pos }
        };
        Some(DstFrameSearch { end: self.dst_end, stage })
    }

    /// What comes of reading the next frame of a file.
    pub open spec fn next_in(self, file: Seq<u8>) -> NextFrame {
        if self.yielded() >= self.meta().n_frames {
            NextFrame::End
        } else {
            next_frame_at(file, self.at(), self.end())
        }
    }

    /// Read the next frame of a file that is in memory.
    pub fn next_frame(&mut self, file: &[u8]) -> (r: FrameReply)
        requires
            file@.len() <= i64::MAX,
        ensures
            final(self).meta() == old(self).meta(),
            final(self).end() == old(self).end(),
            r !is Frame ==> *final(self) == *old(self),
            match old(self).next_in(file@) {
                NextFrame::End => r is End,
                NextFrame::Frame(data, crc, next) => {
                    &&& r matches FrameReply::Frame(f)
                    &&& f.data@ == data
                    &&& f.crc == crc
                    &&& final(self).at() == next
                    &&& final(self).yielded() == old(self).yielded() + 1
                },
                NextFrame::TooSmall => r matches FrameReply::Failed(e) && step::format_error(
                    e,
                    "DSTC chunk too small for CRC"@,
                ),
                NextFrame::Unreadable => r is Unreadable,
                NextFrame::Overflow => r is Overflow,
                NextFrame::BadSeek => r is BadSeek,
            },
    {
        let mut search: DstFrameSearch = match self.start_frame() {
            Some(search) => search,
            None => {
                return FrameReply::End;
            },
        };
        let ghost next = self.next_in(file@);
        loop
            invariant
                *self == *old(self),
                next == old(self).next_in(file@),
                old(self).yielded() < old(self).meta().n_frames,
                file@.len() <= i64::MAX,
                search.wf(),
                search.resume(file@) == next,
            decreases search@.bound(),
        {
            match search.request() {
                None => {
                    return self.finish_frame(search);
                },
                Some((offset, len)) => {
                    let reply: Option<Vec<u8>> = scan::part_of(file, offset, len);
                    proof {
                        law_frame_search_ends(search@, reply_view(reply));
                    }
                    search = search.supply(reply);
                },
            }
        }
    }

    /// Take what came of a search that is over.
    pub fn finish_frame(&mut self, search: DstFrameSearch) -> (r: FrameReply)
        requires
            old(self).yielded() < old(self).meta().n_frames,
            search.wanted() is None,
        ensures
            final(self).meta() == old(self).meta(),
            final(self).end() == old(self).end(),
            r !is Frame ==> *final(self) == *old(self),
            match r {
                FrameReply::End => forall|file: Seq<u8>| #[trigger]
                    search.resume(file) == NextFrame::End,
                FrameReply::Frame(f) => final(self).yielded() == old(self).yielded() + 1 && forall|
                    file: Seq<u8>,
                | #[trigger]
                    search.resume(file) == NextFrame::Frame(f.data@, f.crc, final(self).at()),
                FrameReply::Failed(e) => step::format_error(e, "DSTC chunk too small for CRC"@)
                    && forall|file: Seq<u8>| #[trigger] search.resume(file) == NextFrame::TooSmall,
                FrameReply::Unreadable => forall|file: Seq<u8>| #[trigger]
                    search.resume(file) == NextFrame::Unreadable,
                FrameReply::Overflow => forall|file: Seq<u8>| #[trigger]
                    search.resume(file) == NextFrame::Overflow,
                FrameReply::BadSeek => forall|file: Seq<u8>| #[trigger]
                    search.resume(file) == NextFrame::BadSeek,
            },
    {
        match search.stage {
            Stage::Frame { data, crc, next } => {
                self.pos = next;
                self.frames_yielded = self.frames_yielded + 1;
                FrameReply::Frame(DstFrame { data, crc })
            },
            Stage::TooSmall => FrameReply::Failed(
                CladstError::Format("DSTC chunk too small for CRC".to_owned()),
            ),
            Stage::Unreadable => FrameReply::Unreadable,
            Stage::Overflow => FrameReply::Overflow,
            Stage::BadSeek => FrameReply::BadSeek,
            _ => FrameReply::End,
        }
    }
}

// ---------------------------------------------------------------------------
// Reading gives back what was written
// ---------------------------------------------------------------------------

pub proof fn lemma_body_prefix(n_frames: nat, frames: Seq<(Seq<u8>, u32)>, i: nat, n: nat)
    requires
        i <= n,
    ensures
        dst_body(n_frames, frames, i).is_prefix_of(dst_body(n_frames, frames, n)),
    decreases n,
{
    if i < n {
        lemma_body_prefix(n_frames, frames, i, (n - 1) as nat);
        let a = dst_body(n_frames, frames, i);
        let b = dst_body(n_frames, frames, (n - 1) as nat);
        let c = dst_body(n_frames, frames, n);
        assert(b.subrange(0, a.len() as int) == a);
        assert(c.subrange(0, a.len() as int) =~= b.subrange(0, a.len() as int));
    }
}

/// The parts of a chunk header that stands in a file, read one by one.
pub proof fn lemma_header_pieces(file: Seq<u8>, at: nat, id: Seq<u8>, size: nat)
    requires
        id.len() == 4,
        size <= u64::MAX,
        scan::part(file, at, 12) == Some(chunk::chunk_header(id, size)),
    ensures
        scan::part(file, at, 4) == Some(id),
        scan::part(file, at + 4, 8) == Some(endian::be(size, 8)),
        endian::be_value(endian::be(size, 8)) == size,
{
    let h = chunk::chunk_header(id, size);
    chunk::lemma_header_parts(id, size);
    endian::lemma_be_len(size, 8);
    endian::lemma_pow256();
    endian::lemma_be_round_trip(size, 8);
    assert(file.subrange(at as int, (at + 4) as int) =~= h.take(4));
    assert(file.subrange((at + 4) as int, (at + 12) as int) =~= h.skip(4));
    assert(h.skip(4) =~= endian::be(size, 8));
}

/// The chunks of a frame read back.
proof fn lemma_frame_reads(file: Seq<u8>, pos: nat, end: nat, data: Seq<u8>, crc: u32)
    requires
        chunk::stands(file, pos, frame_chunks(data, crc)),
        data.len() <= usize::MAX,
        pos + frame_chunks(data, crc).len() <= end,
        end <= i64::MAX,
    ensures
        next_frame_at(file, pos, end) == NextFrame::Frame(
            data,
            Some(crc),
            pos + frame_chunks(data, crc).len(),
        ),
{
    let crc_data = endian::be(crc as nat, 4);
    let c1 = chunk::chunk(DSTF@, data);
    let c2 = chunk::chunk(DSTC@, crc_data);
    lemma_frame_chunks_len(data, crc);
    endian::lemma_be_len(crc as nat, 4);
    endian::lemma_pow256();
    endian::lemma_be_round_trip(crc as nat, 4);
    chunk::lemma_chunk_len(DSTF@, data);
    chunk::lemma_chunk_len(DSTC@, crc_data);
    chunk::lemma_stands_concat(file, pos, c1, c2);
    chunk::lemma_chunk_stands(file, pos, DSTF@, data);
    let at = pos + c1.len();
    chunk::lemma_chunk_stands(file, at, DSTC@, crc_data);
    lemma_header_pieces(file, at, DSTC@, 4);
    if data.len() == 0 {
        assert(data =~= Seq::empty());
    }
    assert(scan::part(file, pos + 12, data.len()) == Some(data));
    assert(scan::next_chunk(pos + 12, data.len()) == Some(at));
    assert(scan::part(file, at + 12, 4) == Some(crc_data));
    assert(with_crc(file, at, end, data) == NextFrame::Frame(data, Some(crc), at + 16));
}

/// A written file has its properties and its DST chunk where the search finds them.
pub proof fn law_dst_file_scans(
    form_size: nat,
    sample_rate: u32,
    n_channels: nat,
    n_frames: nat,
    frames: Seq<(Seq<u8>, u32)>,
)
    requires
        1 <= n_channels <= 0xffff,
        sample_rate / 75 / 8 > 0,
        n_frames <= u32::MAX,
        dst_file(form_size, sample_rate, n_channels, n_frames, frames).len() <= i64::MAX,
    ensures
        ({
            let file = dst_file(form_size, sample_rate, n_channels, n_frames, frames);
            let body = dst_body(n_frames, frames, frames.len());
            let props = dsd::file_props(sample_rate, n_channels, DST@);
            let offset = dst_file_head(0, sample_rate, n_channels, 0, Seq::empty()).len();
            &&& scan::scan_file(file, DST@) == scan::Scanned::Found(props, offset, body.len())
            &&& open_dst(props, offset, body.len(), file.skip(offset as int)) == Opened::Frames(
                n_frames,
                offset + 18,
            )
            &&& chunk::stands(file, offset, body)
        }),
{
    let body = dst_body(n_frames, frames, frames.len());
    let file = dst_file(form_size, sample_rate, n_channels, n_frames, frames);
    let offset = dst_file_head(0, sample_rate, n_channels, 0, Seq::empty()).len();
    lemma_dst_layout(form_size, sample_rate, n_channels, n_frames, frames);
    lemma_dst_chunk_found(file, form_size, sample_rate, n_channels, body.len());
    lemma_frte_opens(file, offset, n_frames);
    lemma_frte_gives_frames(
        dsd::file_props(sample_rate, n_channels, DST@),
        offset,
        body.len(),
        file.skip(offset as int),
        n_frames,
    );
}

/// What comes of opening a file with a FRTE chunk.
proof fn lemma_frte_gives_frames(
    p: scan::Props,
    offset: nat,
    size: nat,
    b: Seq<u8>,
    n_frames: nat,
)
    requires
        p.compression == DST@,
        p.sample_rate / 75 / 8 > 0,
        p.n_channels > 0,
        size >= 18,
        offset + size <= i64::MAX,
        b.len() >= 18,
        step::id_at(b, 0) == FRTE@,
        endian::be_value(b.subrange(4, 12)) == 6,
        endian::be_value(b.subrange(12, 16)) == n_frames,
        endian::be_value(b.subrange(16, 18)) == 75,
    ensures
        open_dst(p, offset, size, b) == Opened::Frames(n_frames, offset + 18),
{
    reveal(open_dst);
}

/// Where the parts of a written file stand.
proof fn lemma_dst_layout(
    form_size: nat,
    sample_rate: u32,
    n_channels: nat,
    n_frames: nat,
    frames: Seq<(Seq<u8>, u32)>,
)
    ensures
        ({
            let file = dst_file(form_size, sample_rate, n_channels, n_frames, frames);
            let body = dst_body(n_frames, frames, frames.len());
            let start = dsd::form_start(form_size, sample_rate, n_channels, DST@, DST_NAME@);
            let offset = dst_file_head(0, sample_rate, n_channels, 0, Seq::empty()).len();
            &&& offset == start.len() + 12
            &&& chunk::stands(file, 0, start)
            &&& chunk::stands(file, start.len(), chunk::chunk_header(DST@, body.len()))
            &&& chunk::stands(file, offset, body)
            &&& chunk::stands(file, offset, frte(n_frames))
            &&& 18 <= body.len()
            &&& offset + body.len() <= file.len()
        }),
{
    let start = dsd::form_start(form_size, sample_rate, n_channels, DST@, DST_NAME@);
    let body = dst_body(n_frames, frames, frames.len());
    let header = chunk::chunk_header(DST@, body.len());
    let index = dsti(n_frames, frames);
    let file = dst_file(form_size, sample_rate, n_channels, n_frames, frames);
    let pos = start.len();
    endian::lemma_be_len(form_size, 8);
    endian::lemma_be_len(body.len(), 8);
    lemma_head_len(sample_rate, n_channels, Seq::empty());
    assert(file =~= start + (header + (body + index)));
    assert(file.subrange(0, file.len() as int) =~= file);
    chunk::lemma_stands_concat(file, 0, start, header + (body + index));
    chunk::lemma_stands_concat(file, pos, header, body + index);
    chunk::lemma_stands_concat(file, pos + 12, body, index);
    // FRTE comes first
    lemma_body_prefix(n_frames, frames, 0, frames.len());
    lemma_frte_len(n_frames);
    chunk::lemma_stands_prefix(file, pos + 12, body, 18);
    assert(body.take(18) == frte(n_frames));
}

/// The search finds the DST chunk behind the start of a file.
proof fn lemma_dst_chunk_found(
    file: Seq<u8>,
    form_size: nat,
    sample_rate: u32,
    n_channels: nat,
    size: nat,
)
    requires
        1 <= n_channels <= 0xffff,
        file.len() <= i64::MAX,
        0 < size <= file.len(),
        ({
            let start = dsd::form_start(form_size, sample_rate, n_channels, DST@, DST_NAME@);
            &&& chunk::stands(file, 0, start)
            &&& chunk::stands(file, start.len(), chunk::chunk_header(DST@, size))
        }),
    ensures
        scan::scan_file(file, DST@) == scan::Scanned::Found(
            dsd::file_props(sample_rate, n_channels, DST@),
            dsd::form_start(form_size, sample_rate, n_channels, DST@, DST_NAME@).len() + 12,
            size,
        ),
{
    let pos = dsd::form_start(form_size, sample_rate, n_channels, DST@, DST_NAME@).len();
    let props = dsd::file_props(sample_rate, n_channels, DST@);
    chunk::lemma_header_parts(DST@, size);
    endian::lemma_be_len(size, 8);
    assert(DST@[0] != FVER@[0]);
    assert(DST@[0] != PROP@[0]);
    dsd::lemma_form_scans(file, DST@, form_size, sample_rate, n_channels, DST@, DST_NAME@);
    assert(scan::scan(file, DST@, pos, Some(props), 0, 0) == scan::scan_on(
        file,
        DST@,
        pos + 12,
        size,
        Some(props),
        pos + 12,
        size,
    ));
}

/// The FRTE chunk read back.
proof fn lemma_frte_opens(file: Seq<u8>, offset: nat, n_frames: nat)
    requires
        n_frames <= u32::MAX,
        chunk::stands(file, offset, frte(n_frames)),
    ensures
        ({
            let b = file.skip(offset as int);
            &&& b.len() >= 18
            &&& step::id_at(b, 0) == FRTE@
            &&& endian::be_value(b.subrange(4, 12)) == 6
            &&& endian::be_value(b.subrange(12, 16)) == n_frames
            &&& endian::be_value(b.subrange(16, 18)) == 75
        }),
{
    let b = file.skip(offset as int);
    let data = endian::be(n_frames, 4) + endian::be(75, 2);
    lemma_frte_len(n_frames);
    endian::lemma_be_len(n_frames, 4);
    endian::lemma_be_len(75, 2);
    chunk::lemma_chunk_stands(file, offset, FRTE@, data);
    lemma_header_pieces(file, offset, FRTE@, 6);
    assert(b.subrange(0, 4) =~= file.subrange(offset as int, (offset + 4) as int));
    assert(b.subrange(4, 12) =~= file.subrange((offset + 4) as int, (offset + 12) as int));
    chunk::lemma_stands_concat(file, offset + 12, endian::be(n_frames, 4), endian::be(75, 2));
    assert(b.subrange(12, 16) =~= file.subrange((offset + 12) as int, (offset + 16) as int));
    assert(b.subrange(16, 18) =~= file.subrange((offset + 16) as int, (offset + 18) as int));
    endian::lemma_pow256();
    endian::lemma_be_round_trip(n_frames, 4);
    endian::lemma_be_round_trip(75, 2);
}

/// The frames that were written come back one by one, each with its CRC, and then no
/// more.
pub proof fn law_dst_frames_round_trip(
    file: Seq<u8>,
    offset: nat,
    n_frames: nat,
    frames: Seq<(Seq<u8>, u32)>,
    i: nat,
)
    requires
        i <= frames.len(),
        chunk::stands(file, offset, dst_body(n_frames, frames, frames.len())),
        file.len() <= i64::MAX,
        forall|k: int| 0 <= k < frames.len() ==> (#[trigger] frames[k]).0.len() <= usize::MAX,
    ensures
        ({
            let end = offset + dst_body(n_frames, frames, frames.len()).len();
            let at = offset + dst_body(n_frames, frames, i).len();
            if i < frames.len() {
                next_frame_at(file, at, end) == NextFrame::Frame(
                    frames[i as int].0,
                    Some(frames[i as int].1),
                    offset + dst_body(n_frames, frames, i + 1).len(),
                )
            } else {
                next_frame_at(file, at, end) == NextFrame::End
            }
        }),
{
    let body = dst_body(n_frames, frames, frames.len());
    let end = offset + body.len();
    if i < frames.len() {
        let head = dst_body(n_frames, frames, i);
        let (data, crc) = frames[i as int];
        lemma_body_prefix(n_frames, frames, i + 1, frames.len());
        let upto = dst_body(n_frames, frames, i + 1);
        assert(body.subrange(0, upto.len() as int) == upto);
        assert(body.take(upto.len() as int) =~= upto);
        chunk::lemma_stands_prefix(file, offset, body, upto.len() as int);
        assert(upto == head + frame_chunks(data, crc));
        chunk::lemma_stands_concat(file, offset, head, frame_chunks(data, crc));
        lemma_frame_reads(file, offset + head.len(), end, data, crc);
    }
}

/// A reader of a written file that has read `i` frames finds the frame with that number and
/// its CRC, and behind the last frame the end.
pub proof fn law_dst_reader_reads_back(
    reader: DstDsdiffStreamReader,
    file: Seq<u8>,
    offset: nat,
    frames: Seq<(Seq<u8>, u32)>,
    i: nat,
)
    requires
        i <= frames.len(),
        chunk::stands(file, offset, dst_body(frames.len(), frames, frames.len())),
        file.len() <= i64::MAX,
        forall|k: int| 0 <= k < frames.len() ==> (#[trigger] frames[k]).0.len() <= usize::MAX,
        reader.meta().n_frames == frames.len(),
        reader.yielded() == i,
        reader.at() == offset + dst_body(frames.len(), frames, i).len(),
        reader.end() == offset + dst_body(frames.len(), frames, frames.len()).len(),
    ensures
        reader.next_in(file) == (if i < frames.len() {
            NextFrame::Frame(
                frames[i as int].0,
                Some(frames[i as int].1),
                offset + dst_body(frames.len(), frames, i + 1).len(),
            )
        } else {
            NextFrame::End
        }),
{
    law_dst_frames_round_trip(file, offset, frames.len(), frames, i);
}

} // verus!

//! DSF files: streaming reader and writer.
//!
//! All multi-byte values in DSF are little-endian.
//! DSD samples are stored LSB-first per byte (opposite of DSDIFF's MSB-first).

use vstd::arithmetic::div_mod::*;
use vstd::arithmetic::power2::*;
use vstd::prelude::*;
use vstd::string::*;

use crate::codec::bits;
use crate::error::CladstError;
use crate::format::endian;
use crate::format::endian::{le_bytes, read_le, to_size};
use crate::format::metadata;
use crate::format::metadata::DsdMetadata;
use crate::format::patch;
use crate::format::patch::{FileEnd, Patch};
use crate::format::reader::DsdFrame;
use crate::format::step;
use crate::format::step::{has_id, HeaderStep};
use crate::format::text;
use crate::format::text::show_bytes;

verus! {

/// The byte with the bits of another one in reverse.
pub open spec fn reversed(b: u8) -> u8 {
    bits::value(bits::binary(b as nat, 8).reverse()) as u8
}

/// Reverse bits within a byte (LSB-first <-> MSB-first).
pub fn bit_reverse(b: u8) -> (r: u8)
    ensures
        r == reversed(b),
{
    let ghost want = bits::binary(b as nat, 8).reverse();
    proof {
        bits::lemma_binary_len(b as nat, 8);
        assert(want.take(0) =~= Seq::<bool>::empty());
        lemma2_to64();
    }
    let mut r: u8 = 0;
    let mut i: u8 = 0;
    while i < 8
        invariant
            i <= 8,
            want == bits::binary(b as nat, 8).reverse(),
            want.len() == 8,
            r == bits::value(want.take(i as int)),
            r < pow2(i as nat),
        decreases 8 - i,
    {
        let low: u8 = (b >> i) & 1;
        proof {
            bits::lemma_byte_bit(b, (7 - i) as u8);
            assert(want.take(i + 1) =~= want.take(i as int).push(want[i as int]));
            bits::lemma_value_push(want.take(i as int), want[i as int]);
            bits::lemma_value_bound(want.take(i + 1));
            lemma2_to64();
            if i < 7 {
                lemma_pow2_strictly_increases(i as nat, 7);
            }
            assert((r << 1) | low == 2 * r + low) by (bit_vector)
                requires
                    r < 128,
                    low <= 1,
            ;
        }
        r = (r << 1) | low;
        i = i + 1;
    }
    proof {
        assert(want.take(8) =~= want);
    }
    r
}

/// Reversing the bits of a byte twice gives the byte back.
pub proof fn law_bit_reverse_involutive(b: u8)
    ensures
        reversed(reversed(b)) == b,
{
    let s = bits::binary(b as nat, 8);
    bits::lemma_binary_len(b as nat, 8);
    bits::lemma_value_bound(s.reverse());
    bits::lemma_binary_value(s.reverse());
    lemma2_to64();
    assert(s.reverse().reverse() =~= s);
    bits::lemma_value_binary(b as nat, 8);
    lemma_small_mod(b as nat, 256);
}

/// Build the full 256-entry bit-reverse lookup table.
pub fn build_bit_reverse_table() -> (table: [u8; 256])
    ensures
        forall|b: u8| #[trigger] table[b as int] == reversed(b),
{
    let mut table: [u8; 256] = [0u8; 256];
    let mut i: usize = 0;
    while i < 256
        invariant
            i <= 256,
            forall|b: u8| b < i ==> #[trigger] table[b as int] == reversed(b),
        decreases 256 - i,
    {
        table[i] = bit_reverse(i as u8);
        i = i + 1;
    }
    table
}

// ---------------------------------------------------------------------------
// File layout
// ---------------------------------------------------------------------------

/// Standard DSF block size per channel (bytes).
pub const DSF_BLOCK_SIZE: usize = 4096;

/// `DSD `.
pub const DSD_MAGIC: [u8; 4] = [68, 83, 68, 32];

/// `fmt `.
pub const FMT_MAGIC: [u8; 4] = [102, 109, 116, 32];

/// `data`.
pub const DATA_MAGIC: [u8; 4] = [100, 97, 116, 97];

/// Channel type: the number of channels up to 5.1, undefined above.
pub open spec fn channel_type(n_channels: nat) -> nat {
    if 1 <= n_channels <= 6 {
        n_channels
    } else {
        0
    }
}

/// The header up to the file size.
pub open spec fn header_start() -> Seq<u8> {
    DSD_MAGIC@ + endian::le(28, 8)
}

/// The header from behind the file size up to the sample count.
pub open spec fn header_middle(sample_rate: u32, n_channels: nat) -> Seq<u8> {
    endian::le(0, 8) + FMT_MAGIC@ + endian::le(52, 8) + endian::le(1, 4) + endian::le(0, 4)
        + endian::le(channel_type(n_channels), 4) + endian::le(n_channels, 4) + endian::le(
        sample_rate as nat,
        4,
    ) + endian::le(1, 4)
}

/// The header from behind the sample count up to the size of the data chunk.
pub open spec fn header_end() -> Seq<u8> {
    endian::le(DSF_BLOCK_SIZE as nat, 4) + endian::le(0, 4) + DATA_MAGIC@
}

/// The header of a DSF file.
#[verifier::opaque]
pub open spec fn dsf_header(
    sample_rate: u32,
    n_channels: nat,
    file_size: nat,
    sample_count: nat,
    data_size: nat,
) -> Seq<u8> {
    header_start() + endian::le(file_size, 8) + header_middle(sample_rate, n_channels)
        + endian::le(sample_count, 8) + header_end() + endian::le(data_size, 8)
}

/// A byte of a block: one of the channel with its bits reversed, zero behind the last.
pub open spec fn block_byte(channel: Seq<u8>, at: int) -> u8 {
    if at < channel.len() {
        reversed(channel[at])
    } else {
        0
    }
}

/// Block `g` of each channel, one channel after the other.
pub open spec fn block_group(channels: Seq<Seq<u8>>, g: int) -> Seq<u8> {
    Seq::new(
        channels.len() * DSF_BLOCK_SIZE as nat,
        |k: int| block_byte(channels[k / 4096], 4096 * g + k % 4096),
    )
}

/// The first `n` block groups.
pub open spec fn block_groups(channels: Seq<Seq<u8>>, n: nat) -> Seq<u8>
    decreases n,
{
    if n == 0 {
        Seq::empty()
    } else {
        block_groups(channels, (n - 1) as nat) + block_group(channels, n - 1)
    }
}

pub proof fn lemma_block_groups_len(channels: Seq<Seq<u8>>, n: nat)
    ensures
        block_groups(channels, n).len() == n * (channels.len() * 4096),
    decreases n,
{
    let w = channels.len() * 4096;
    if n > 0 {
        lemma_block_groups_len(channels, (n - 1) as nat);
        assert(n * w == (n - 1) * w + w) by (nonlinear_arith);
    } else {
        assert(0 * w == 0);
    }
}

/// A DSF file with the given bytes of each channel, all of the same length.
pub open spec fn dsf_file(
    sample_rate: u32,
    channels: Seq<Seq<u8>>,
    sample_count: nat,
    n_groups: nat,
) -> Seq<u8> {
    let data = block_groups(channels, n_groups);
    dsf_header(
        sample_rate,
        channels.len(),
        92 + data.len(),
        sample_count,
        12 + data.len(),
    ) + data
}

pub proof fn lemma_header_lens(sample_rate: u32, n_channels: nat)
    ensures
        header_start().len() == 12,
        header_middle(sample_rate, n_channels).len() == 44,
        header_end().len() == 12,
        forall|a: nat, b: nat, c: nat|
            (#[trigger] dsf_header(sample_rate, n_channels, a, b, c)).len() == 92,
{
    reveal(dsf_header);
    endian::lemma_be_len(28, 8);
    endian::lemma_be_len(0, 8);
    endian::lemma_be_len(52, 8);
    endian::lemma_be_len(1, 4);
    endian::lemma_be_len(0, 4);
    endian::lemma_be_len(channel_type(n_channels), 4);
    endian::lemma_be_len(n_channels, 4);
    endian::lemma_be_len(sample_rate as nat, 4);
    endian::lemma_be_len(DSF_BLOCK_SIZE as nat, 4);
    assert forall|a: nat, b: nat, c: nat|
        (#[trigger] dsf_header(sample_rate, n_channels, a, b, c)).len() == 92 by {
        endian::lemma_be_len(a, 8);
        endian::lemma_be_len(b, 8);
        endian::lemma_be_len(c, 8);
    }
}

/// Filling in the sizes of a header.
proof fn lemma_header_patches(
    sample_rate: u32,
    n_channels: nat,
    data: Seq<u8>,
    file_size: nat,
    sample_count: nat,
    data_size: nat,
)
    ensures
        ({
            let f0 = dsf_header(sample_rate, n_channels, 0, 0, 0) + data;
            let f1 = patch::overwritten(f0, 12, endian::le(file_size, 8));
            let f2 = patch::overwritten(f1, 64, endian::le(sample_count, 8));
            let f3 = patch::overwritten(f2, 84, endian::le(data_size, 8));
            f3 == dsf_header(sample_rate, n_channels, file_size, sample_count, data_size) + data
        }),
{
    reveal(dsf_header);
    lemma_header_lens(sample_rate, n_channels);
    endian::lemma_be_len(0, 8);
    endian::lemma_be_len(file_size, 8);
    endian::lemma_be_len(sample_count, 8);
    endian::lemma_be_len(data_size, 8);
    let z = endian::le(0, 8);
    let (a, b, c) = (header_start(), header_middle(sample_rate, n_channels), header_end());
    let (x, y, w) = (
        endian::le(file_size, 8),
        endian::le(sample_count, 8),
        endian::le(data_size, 8),
    );
    assert(dsf_header(sample_rate, n_channels, 0, 0, 0) + data =~= a + z + (b + z + c + z + data));
    patch::lemma_overwritten(a, z, b + z + c + z + data, x);
    assert(a + x + (b + z + c + z + data) =~= (a + x + b) + z + (c + z + data));
    patch::lemma_overwritten(a + x + b, z, c + z + data, y);
    assert((a + x + b) + y + (c + z + data) =~= (a + x + b + y + c) + z + data);
    patch::lemma_overwritten(a + x + b + y + c, z, data, w);
    assert((a + x + b + y + c) + w + data =~= dsf_header(
        sample_rate,
        n_channels,
        file_size,
        sample_count,
        data_size,
    ) + data);
}

// ---------------------------------------------------------------------------
// DSF Streaming Reader
// ---------------------------------------------------------------------------

/// What the header of a DSF file says.
pub struct DsfHeader {
    pub sample_rate: u32,
    pub channel_count: usize,
    pub sample_count: u64,
    pub block_size: usize,
    /// Valid bytes per channel (derived from sample_count).
    pub valid_bytes_per_ch: usize,
    /// Where the audio data starts.
    pub data_start: usize,
}

/// What comes of the first bytes of a DSF file.
pub enum DsfParse {
    Need(nat),
    Header(DsfHeader),
    Refused(Seq<char>),
    Stuck,
}

/// The little-endian number of `n` bytes at a position.
pub open spec fn le_at(b: Seq<u8>, at: int, n: int) -> nat {
    endian::le_value(b.subrange(at, at + n))
}

/// The data of the fmt chunk, `len` bytes from 40 on, and what follows.
pub open spec fn parse_from_fmt(b: Seq<u8>, len: nat) -> DsfParse {
    let end = 40 + len;
    if b.len() < end {
        DsfParse::Need(end)
    } else if len < 36 {
        DsfParse::Stuck
    } else if b.len() < end + 4 {
        DsfParse::Need(end + 4)
    } else if step::id_at(b, end as int) != DATA_MAGIC@ {
        DsfParse::Refused("expected data chunk: "@ + text::byte_list(step::id_at(b, end as int)))
    } else if b.len() < end + 12 {
        DsfParse::Need(end + 12)
    } else {
        DsfParse::Header(
            DsfHeader {
                sample_rate: le_at(b, 56, 4) as u32,
                channel_count: le_at(b, 52, 4) as usize,
                sample_count: le_at(b, 64, 8) as u64,
                block_size: le_at(b, 72, 4) as usize,
                valid_bytes_per_ch: endian::size_value(le_at(b, 64, 8) / 8) as usize,
                data_start: (end + 12) as usize,
            },
        )
    }
}

/// What comes of the first bytes of a DSF file.
#[verifier::opaque]
pub open spec fn parse(b: Seq<u8>) -> DsfParse {
    if b.len() < 4 {
        DsfParse::Need(4)
    } else if step::id_at(b, 0) != DSD_MAGIC@ {
        DsfParse::Refused("not a DSF file: "@ + text::byte_list(step::id_at(b, 0)))
    } else if b.len() < 32 {
        DsfParse::Need(32)
    } else if step::id_at(b, 28) != FMT_MAGIC@ {
        DsfParse::Refused("expected fmt chunk: "@ + text::byte_list(step::id_at(b, 28)))
    } else if b.len() < 40 {
        DsfParse::Need(40)
    } else {
        let size = le_at(b, 32, 8);
        if size < 12 {
            DsfParse::Stuck
        } else {
            let len = endian::size_value((size - 12) as nat);
            if len + 52 > usize::MAX {
                DsfParse::Stuck
            } else {
                parse_from_fmt(b, len)
            }
        }
    }
}

/// A step is what comes of the bytes.
pub open spec fn parses_to(r: HeaderStep<DsfHeader>, p: DsfParse) -> bool {
    match p {
        DsfParse::Need(n) => r matches HeaderStep::NeedMore(k) && k == n,
        DsfParse::Header(h) => r matches HeaderStep::Done(d) && d == h,
        DsfParse::Refused(m) => r matches HeaderStep::Failed(e) && step::format_error(e, m),
        DsfParse::Stuck => r is Stuck,
    }
}

/// A message about four bytes that are not what they should be.
fn refuse(message: &str, bytes: &[u8], at: usize) -> (e: CladstError)
    requires
        at + 4 <= bytes@.len(),
    ensures
        step::format_error(e, message@ + text::byte_list(step::id_at(bytes@, at as int))),
{
    let end: usize = bytes.len();
    let shown: String = show_bytes(&bytes[at..at + 4]);
    let mut m: String = message.to_owned();
    m.append(shown.as_str());
    CladstError::Format(m)
}

/// The little-endian number of `n` bytes at a position.
fn number_at(bytes: &[u8], at: usize, n: usize) -> (v: u64)
    requires
        n <= 8,
        at + n <= bytes@.len(),
    ensures
        v == le_at(bytes@, at as int, n as int),
{
    let end: usize = bytes.len();
    read_le(&bytes[at..at + n])
}

proof fn lemma_le_bound(s: Seq<u8>)
    ensures
        endian::le_value(s) < endian::pow256(s.len()),
{
    endian::lemma_be_bound(s.reverse());
}

/// Parse the DSF header, given the first bytes of a file.
///
/// Reads DSD chunk (28 bytes), fmt chunk, and data chunk header.
pub fn parse_dsf_header(bytes: &[u8]) -> (r: HeaderStep<DsfHeader>)
    ensures
        parses_to(r, parse(bytes@)),
{
    reveal(parse);
    // --- DSD chunk (28 bytes) ---
    if bytes.len() < 4 {
        return HeaderStep::NeedMore(4);
    }
    if !has_id(bytes, 0, &DSD_MAGIC) {
        return HeaderStep::Failed(refuse("not a DSF file: ", bytes, 0));
    }
    // --- fmt chunk ---
    if bytes.len() < 32 {
        return HeaderStep::NeedMore(32);
    }
    if !has_id(bytes, 28, &FMT_MAGIC) {
        return HeaderStep::Failed(refuse("expected fmt chunk: ", bytes, 28));
    }
    if bytes.len() < 40 {
        return HeaderStep::NeedMore(40);
    }
    let fmt_chunk_size: u64 = number_at(bytes, 32, 8);
    if fmt_chunk_size < 12 {
        return HeaderStep::Stuck;
    }
    let fmt_data_len: usize = to_size(fmt_chunk_size - 12);
    if fmt_data_len > usize::MAX - 52 {
        return HeaderStep::Stuck;
    }
    let end: usize = 40 + fmt_data_len;
    if bytes.len() < end {
        return HeaderStep::NeedMore(end);
    }
    if fmt_data_len < 36 {
        return HeaderStep::Stuck;
    }
    // --- data chunk ---
    if bytes.len() < end + 4 {
        return HeaderStep::NeedMore(end + 4);
    }
    if !has_id(bytes, end, &DATA_MAGIC) {
        return HeaderStep::Failed(refuse("expected data chunk: ", bytes, end));
    }
    if bytes.len() < end + 12 {
        return HeaderStep::NeedMore(end + 12);
    }
    proof {
        lemma_le_bound(bytes@.subrange(52, 56));
        lemma_le_bound(bytes@.subrange(56, 60));
        lemma_le_bound(bytes@.subrange(72, 76));
        endian::lemma_pow256();
    }
    let channel_count: usize = number_at(bytes, 52, 4) as usize;
    let sample_rate: u32 = number_at(bytes, 56, 4) as u32;
    let sample_count: u64 = number_at(bytes, 64, 8);
    let block_size: usize = number_at(bytes, 72, 4) as usize;
    let valid_bytes_per_ch: usize = to_size(sample_count / 8);
    HeaderStep::Done(
        DsfHeader {
            sample_rate,
            channel_count,
            sample_count,
            block_size,
            valid_bytes_per_ch,
            data_start: end + 12,
        },
    )
}

/// A parsed header counts the valid bytes by the samples.
pub proof fn lemma_header_valid(b: Seq<u8>)
    ensures
        parse(b) matches DsfParse::Header(h) ==> h.valid_bytes_per_ch == endian::size_value(
            (h.sample_count / 8) as nat,
        ),
{
    reveal(parse);
    if b.len() >= 72 {
        lemma_le_bound(b.subrange(64, 72));
        endian::lemma_pow256();
        lemma_mod_bound((le_at(b, 64, 8) / 8) as int, usize::MAX as int + 1);
    }
}

/// What a header needs is more than there is, and can be counted.
pub proof fn lemma_header_needs(b: Seq<u8>)
    ensures
        parse(b) matches DsfParse::Need(n) ==> b.len() < n <= usize::MAX,
{
    reveal(parse);
}

/// What is parsed stays so when more of the file is there.
pub proof fn law_dsf_header_prefix(b: Seq<u8>, file: Seq<u8>)
    requires
        b.is_prefix_of(file),
    ensures
        parse(b) !is Need ==> parse(file) == parse(b),
        parse(b) matches DsfParse::Need(n) ==> b.len() < n && (file.len() < n ==> parse(file)
            == parse(b)),
{
    reveal(parse);
    if b.len() >= 4 {
        step::lemma_same_part(b, file, 0, 4);
    }
    if b.len() >= 32 {
        step::lemma_same_part(b, file, 28, 4);
    }
    if b.len() >= 40 {
        step::lemma_same_part(b, file, 32, 8);
        let size = le_at(b, 32, 8);
        let len = endian::size_value((size - 12) as nat);
        let end = (40 + len) as int;
        if b.len() >= end + 4 && len >= 36 {
            step::lemma_same_part(b, file, end, 4);
            step::lemma_same_part(b, file, 56, 4);
            step::lemma_same_part(b, file, 52, 4);
            step::lemma_same_part(b, file, 64, 8);
            step::lemma_same_part(b, file, 72, 4);
        }
    }
}

/// How many bytes of a block are still valid.
pub open spec fn usable(have: nat, block_size: nat, valid: nat) -> nat {
    let left: nat = if have < valid {
        (valid - have) as nat
    } else {
        0
    };
    if left < block_size {
        left
    } else {
        block_size
    }
}

/// The valid bytes of a channel's block, with their bits reversed.
pub open spec fn block_part(group: Seq<u8>, ch: int, have: nat, block_size: nat, valid: nat) -> Seq<
    u8,
> {
    let at = ch * block_size;
    group.subrange(at, at + usable(have, block_size, valid)).map_values(|b: u8| reversed(b))
}

/// The bytes of the channels after one more block group.
pub open spec fn receive(
    received: Seq<Seq<u8>>,
    group: Seq<u8>,
    block_size: nat,
    valid: nat,
) -> Seq<Seq<u8>> {
    Seq::new(
        received.len(),
        |ch: int|
            received[ch] + block_part(group, ch, received[ch].len(), block_size, valid),
    )
}

/// The bytes of frame `i` of a channel, zeros behind the last one.
pub open spec fn frame_of(channel: Seq<u8>, i: int, frame_bytes: nat) -> Seq<u8> {
    Seq::new(
        frame_bytes,
        |k: int|
            if i * frame_bytes + k < channel.len() {
                channel[i * frame_bytes + k]
            } else {
                0
            },
    )
}

/// Streaming reader for DSF format input.
///
/// Made from the DSF header, yields one DSD frame at a time from the block groups it is
/// handed. Handles the block/frame boundary mismatch via per-channel residual buffers.
pub struct DsfStreamReader {
    metadata: DsdMetadata,
    bit_reverse_table: [u8; 256],
    /// Per-channel residual buffer for leftover bytes from the previous block.
    channel_residuals: Vec<Vec<u8>>,
    block_size: usize,
    n_channels: usize,
    /// Valid bytes per channel (derived from sample_count).
    valid_bytes_per_ch: usize,
    /// Total bytes read per channel so far (before residual drain).
    bytes_read_per_ch: u64,
    /// Number of frames already yielded.
    frames_yielded: usize,
    received: Ghost<Seq<Seq<u8>>>,
}

impl DsfStreamReader {
    /// The valid bytes of each channel that the reader was handed, bits reversed, and the
    /// zeros that a frame was filled up with.
    pub closed spec fn received(self) -> Seq<Seq<u8>> {
        self.received@
    }

    /// The audio metadata.
    pub closed spec fn meta(self) -> DsdMetadata {
        self.metadata
    }

    /// Bytes of a channel in a block.
    pub closed spec fn block_size(self) -> nat {
        self.block_size as nat
    }

    /// Valid bytes of a channel.
    pub closed spec fn valid(self) -> nat {
        self.valid_bytes_per_ch as nat
    }

    /// Number of frames already yielded.
    pub closed spec fn yielded(self) -> nat {
        self.frames_yielded as nat
    }

    /// How many bytes of each channel there were so far.
    pub open spec fn len(self) -> nat {
        self.received()[0].len()
    }

    /// The reader is in a state that its operations leave behind.
    pub closed spec fn wf(self) -> bool {
        let n = self.n_channels as int;
        let fb = self.metadata.frame_bytes_per_ch as int;
        &&& self.metadata.n_channels == n
        &&& fb > 0
        &&& self.metadata.n_frames == metadata::ceil_div(self.valid_bytes_per_ch as int, fb)
        &&& self.channel_residuals@.len() == n
        &&& self.received@.len() == n
        &&& self.valid_bytes_per_ch <= u64::MAX / 8
        &&& fb <= u32::MAX
        &&& n > 0 ==> received_level(self.received@, self.frames_yielded * fb, self.valid())
        &&& self.frames_yielded <= self.metadata.n_frames
        &&& self.bytes_read_per_ch == self.frames_yielded * fb
        &&& forall|ch: int|
            0 <= ch < n ==> (#[trigger] self.channel_residuals@[ch])@ == self.received@[ch].skip(
                self.frames_yielded * fb,
            )
        &&& forall|b: u8| #[trigger] self.bit_reverse_table[b as int] == reversed(b)
    }

    /// Open a DSF file for streaming reading, given its header.
    ///
    /// A frame has to be at least one byte long.
    pub fn new(header: DsfHeader) -> (r: Self)
        requires
            header.sample_rate / 75 / 8 > 0,
            header.valid_bytes_per_ch == endian::size_value((header.sample_count / 8) as nat),
        ensures
            r.wf(),
            r.meta().of(header.sample_rate, header.channel_count, header.sample_count),
            r.block_size() == header.block_size,
            r.valid() == header.valid_bytes_per_ch,
            r.yielded() == 0,
            r.received() == Seq::new(header.channel_count as nat, |ch: int| Seq::<u8>::empty()),
    {
        let metadata: DsdMetadata = DsdMetadata::from_params(
            header.sample_rate,
            header.channel_count,
            header.sample_count,
        );
        let n: usize = header.channel_count;
        let mut channel_residuals: Vec<Vec<u8>> = Vec::new();
        let mut ch: usize = 0;
        while ch < n
            invariant
                ch <= n,
                channel_residuals@.len() == ch,
                forall|c: int| 0 <= c < ch ==> (#[trigger] channel_residuals@[c])@.len() == 0,
            decreases n - ch,
        {
            channel_residuals.push(Vec::new());
            ch = ch + 1;
        }
        let ghost received = Seq::new(n as nat, |ch: int| Seq::<u8>::empty());
        proof {
            let fb = metadata.frame_bytes_per_ch as int;
            assert(0 * fb == 0);
            metadata::lemma_ceil_div(header.valid_bytes_per_ch as int, fb);
            lemma_small_size((header.sample_count / 8) as nat);
            assert forall|c: int| 0 <= c < n implies (#[trigger] channel_residuals@[c])@
                == received[c].skip(0) by {
                assert(channel_residuals@[c]@ =~= received[c].skip(0));
            }
        }
        Self {
            metadata,
            bit_reverse_table: build_bit_reverse_table(),
            channel_residuals,
            block_size: header.block_size,
            n_channels: n,
            valid_bytes_per_ch: header.valid_bytes_per_ch,
            bytes_read_per_ch: 0,
            frames_yielded: 0,
            received: Ghost(received),
        }
    }

    /// Audio metadata.
    pub fn metadata(&self) -> (m: &DsdMetadata)
        ensures
            *m == self.meta(),
    {
        &self.metadata
    }

    /// Size of a block group in bytes (`n_channels * block_size`), or nothing where that
    /// cannot be counted.
    pub fn group_size(&self) -> (n: Option<usize>)
        requires
            self.wf(),
        ensures
            n is Some <==> self.received().len() * self.block_size() <= usize::MAX,
            n matches Some(k) ==> k == self.received().len() * self.block_size(),
    {
        self.n_channels.checked_mul(self.block_size)
    }

    /// Whether another block group is needed for the next frame.
    pub fn wants_block_group(&self) -> (r: bool)
        requires
            self.wf(),
            self.received().len() > 0,
        ensures
            r <==> self.yielded() < self.meta().n_frames && self.len() < (self.yielded() + 1)
                * self.meta().frame_bytes_per_ch,
    {
        proof {
            let fb = self.metadata.frame_bytes_per_ch as int;
            let y = self.frames_yielded as int;
            assert((y + 1) * fb == y * fb + fb) by (nonlinear_arith);
            assert(self.channel_residuals@[0]@ == self.received@[0].skip(y * fb));
        }
        self.frames_yielded < self.metadata.n_frames && self.channel_residuals[0].len()
            < self.metadata.frame_bytes_per_ch
    }
}

/// All channels have as many bytes, at least those taken and at most the valid ones.
spec fn received_level(received: Seq<Seq<u8>>, taken: int, valid: nat) -> bool {
    let len = received[0].len();
    &&& level(received, len)
    &&& 0 <= taken <= len
    &&& len <= valid || len == taken
}

proof fn lemma_small_size(v: nat)
    requires
        v <= u64::MAX / 8,
    ensures
        endian::size_value(v) <= u64::MAX / 8,
{
    lemma_mod_decreases(v, usize::MAX as nat + 1);
}

impl DsfStreamReader {
    /// Take the next block group (`n_channels * block_size` bytes) of the file:
    /// deinterleave, bit-reverse, and append to per-channel residuals.
    pub fn accept_block_group(&mut self, buf: &[u8])
        requires
            old(self).wf(),
            buf@.len() == old(self).received().len() * old(self).block_size(),
        ensures
            final(self).wf(),
            final(self).meta() == old(self).meta(),
            final(self).block_size() == old(self).block_size(),
            final(self).valid() == old(self).valid(),
            final(self).yielded() == old(self).yielded(),
            final(self).received() == receive(
                old(self).received(),
                buf@,
                old(self).block_size(),
                old(self).valid(),
            ),
    {
        let n: usize = self.n_channels;
        let ghost fb = self.metadata.frame_bytes_per_ch as int;
        let ghost y = self.frames_yielded as int;
        let ghost bs = self.block_size as nat;
        let ghost valid = self.valid_bytes_per_ch as nat;
        let ghost before = self.received@;
        let ghost after = receive(before, buf@, bs, valid);
        let ghost residuals = self.channel_residuals@;
        proof {
            metadata::lemma_ceil_div(valid as int, fb);
            assert(y * fb <= self.metadata.n_frames * fb) by (nonlinear_arith)
                requires
                    0 <= y <= self.metadata.n_frames,
                    fb > 0,
            ;
        }
        let mut ch: usize = 0;
        while ch < n
            invariant
                ch <= n,
                n == self.n_channels,
                bs == self.block_size,
                valid == self.valid_bytes_per_ch,
                valid <= u64::MAX / 8,
                buf@.len() == n * bs,
                self.channel_residuals@.len() == n,
                residuals.len() == n,
                before.len() == n,
                after == receive(before, buf@, bs, valid),
                n > 0 ==> received_level(before, y * fb, valid),
                y * fb < valid + fb,
                fb <= u32::MAX,
                self.bytes_read_per_ch == y * fb,
                self.metadata == old(self).metadata,
                self.block_size == old(self).block_size,
                self.n_channels == old(self).n_channels,
                self.valid_bytes_per_ch == old(self).valid_bytes_per_ch,
                self.bytes_read_per_ch == old(self).bytes_read_per_ch,
                self.frames_yielded == old(self).frames_yielded,
                self.bit_reverse_table == old(self).bit_reverse_table,
                forall|b: u8| #[trigger] self.bit_reverse_table[b as int] == reversed(b),
                forall|c: int|
                    0 <= c < n ==> (#[trigger] residuals[c])@ == before[c].skip(y * fb),
                forall|c: int|
                    ch <= c < n ==> (#[trigger] self.channel_residuals@[c])@ == residuals[c]@,
                forall|c: int|
                    0 <= c < ch ==> (#[trigger] self.channel_residuals@[c])@ == after[c].skip(
                        y * fb,
                    ),
            decreases n - ch,
        {
            let ghost c = ch as int;
            proof {
                assert(self.channel_residuals@[c]@ == residuals[c]@);
                assert(residuals[c]@ == before[c].skip(y * fb));
                assert(before[c].len() == before[0].len());
                assert(ch * bs + bs <= n * bs) by (nonlinear_arith)
                    requires
                        0 <= ch < n,
                        bs >= 0,
                ;
                assert(ch * bs >= 0) by (nonlinear_arith)
                    requires
                        ch >= 0,
                        bs >= 0,
                ;
            }
            let end: usize = buf.len();
            let offset: usize = ch * self.block_size;
            // Determine how many bytes from this block are still valid
            let already: u64 = self.bytes_read_per_ch + self.channel_residuals[ch].len() as u64;
            let remaining_valid: u64 = (self.valid_bytes_per_ch as u64).saturating_sub(already);
            let usable: usize = if remaining_valid < self.block_size as u64 {
                remaining_valid as usize
            } else {
                self.block_size
            };
            let ghost have = before[c].len();
            let ghost part = block_part(buf@, c, have, bs, valid);
            proof {
                assert(already == have);
                assert(usable == self::usable(have, bs, valid));
                assert(residuals[c]@ + part.take(0) =~= residuals[c]@);
            }
            // Bit-reverse and append usable bytes
            let mut i: usize = 0;
            while i < usable
                invariant
                    i <= usable,
                    ch < n,
                    c == ch,
                    n == self.n_channels,
                    self.channel_residuals@.len() == n,
                    offset == ch * bs,
                    offset + usable <= buf@.len(),
                    offset + usable <= usize::MAX,
                    usable == self::usable(have, bs, valid),
                    part == block_part(buf@, c, have, bs, valid),
                    self.metadata == old(self).metadata,
                    self.block_size == old(self).block_size,
                    self.n_channels == old(self).n_channels,
                    self.valid_bytes_per_ch == old(self).valid_bytes_per_ch,
                    self.bytes_read_per_ch == old(self).bytes_read_per_ch,
                    self.frames_yielded == old(self).frames_yielded,
                    self.bit_reverse_table == old(self).bit_reverse_table,
                    forall|b: u8| #[trigger] self.bit_reverse_table[b as int] == reversed(b),
                    residuals.len() == n,
                    after.len() == n,
                    self.channel_residuals@[c]@ == residuals[c]@ + part.take(i as int),
                    forall|d: int|
                        c < d < n ==> (#[trigger] self.channel_residuals@[d])@ == residuals[d]@,
                    forall|d: int|
                        0 <= d < c ==> (#[trigger] self.channel_residuals@[d])@ == after[d].skip(
                            y * fb,
                        ),
                decreases usable - i,
            {
                let b: u8 = buf[offset + i];
                let turned: u8 = self.bit_reverse_table[b as usize];
                self.channel_residuals[ch].push(turned);
                proof {
                    assert(part[i as int] == turned);
                    assert(self.channel_residuals@[c]@ =~= residuals[c]@ + part.take(i + 1));
                }
                i = i + 1;
            }
            proof {
                assert(part.take(i as int) =~= part);
                assert((before[c] + part).skip(y * fb) =~= before[c].skip(y * fb) + part);
            }
            ch = ch + 1;
        }
        proof {
            self.received@ = after;
            if n > 0 {
                assert forall|c: int| 0 <= c < n implies (#[trigger] after[c]).len()
                    == before[0].len() + self::usable(before[0].len(), bs, valid) by {
                    assert(before[c].len() == before[0].len());
                    lemma_part_len(buf@, c, before[c].len(), bs, valid, n as int);
                }
                assert(after[0].len() == before[0].len() + self::usable(
                    before[0].len(),
                    bs,
                    valid,
                ));
            }
        }
    }

    /// The next frame, filled up with zeros if there are too few bytes; nothing when all
    /// frames have been read or no bytes are left.
    pub fn take_frame(&mut self) -> (r: Option<DsdFrame>)
        requires
            old(self).wf(),
            old(self).received().len() > 0,
        ensures
            final(self).wf(),
            final(self).meta() == old(self).meta(),
            final(self).block_size() == old(self).block_size(),
            final(self).valid() == old(self).valid(),
            r is None <==> old(self).yielded() >= old(self).meta().n_frames || old(self).len()
                <= old(self).yielded() * old(self).meta().frame_bytes_per_ch,
            r is None ==> *final(self) == *old(self),
            r matches Some(f) ==> {
                let fb = old(self).meta().frame_bytes_per_ch as nat;
                let i = old(self).yielded();
                &&& final(self).yielded() == i + 1
                &&& f@ == old(self).received().map_values(|c: Seq<u8>| frame_of(c, i as int, fb))
                &&& final(self).received() == old(self).received().map_values(
                    |c: Seq<u8>| filled(c, (i + 1) * fb),
                )
            },
    {
        let frame_bytes: usize = self.metadata.frame_bytes_per_ch;
        let n: usize = self.n_channels;
        let ghost fb = frame_bytes as int;
        let ghost y = self.frames_yielded as int;
        let ghost before = self.received@;
        let ghost residuals = self.channel_residuals@;
        proof {
            assert(residuals[0]@ == before[0].skip(y * fb));
        }
        if self.frames_yielded >= self.metadata.n_frames {
            return None;
        }
        // Check if we have any data at all
        if self.channel_residuals[0].len() == 0 {
            return None;
        }
        let ghost after = before.map_values(|c: Seq<u8>| filled(c, ((y + 1) * fb) as nat));
        let ghost want = before.map_values(|c: Seq<u8>| frame_of(c, y, frame_bytes as nat));
        proof {
            let valid = self.valid_bytes_per_ch as int;
            metadata::lemma_ceil_div(valid, fb);
            let frames = self.metadata.n_frames as int;
            assert((y + 1) * fb == y * fb + fb) by (nonlinear_arith);
            assert((y + 1) * fb <= frames * fb) by (nonlinear_arith)
                requires
                    y + 1 <= frames,
                    fb > 0,
            ;
        }
        // Drain frame_bytes from each channel (zero-pad last frame if needed)
        let mut channels: Vec<Vec<u8>> = Vec::new();
        let mut ch: usize = 0;
        while ch < n
            invariant
                ch <= n,
                n == self.n_channels,
                fb == frame_bytes,
                self.channel_residuals@.len() == n,
                residuals.len() == n,
                before.len() == n,
                received_level(before, y * fb, self.valid()),
                (y + 1) * fb == y * fb + fb,
                after == before.map_values(|c: Seq<u8>| filled(c, ((y + 1) * fb) as nat)),
                want == before.map_values(|c: Seq<u8>| frame_of(c, y, frame_bytes as nat)),
                self.metadata == old(self).metadata,
                self.block_size == old(self).block_size,
                self.n_channels == old(self).n_channels,
                self.valid_bytes_per_ch == old(self).valid_bytes_per_ch,
                self.bytes_read_per_ch == old(self).bytes_read_per_ch,
                self.frames_yielded == old(self).frames_yielded,
                self.bit_reverse_table == old(self).bit_reverse_table,
                forall|c: int|
                    0 <= c < n ==> (#[trigger] residuals[c])@ == before[c].skip(y * fb),
                forall|c: int|
                    ch <= c < n ==> (#[trigger] self.channel_residuals@[c])@ == residuals[c]@,
                forall|c: int|
                    0 <= c < ch ==> (#[trigger] self.channel_residuals@[c])@ == after[c].skip(
                        (y + 1) * fb,
                    ),
                channels@.len() == ch,
                forall|c: int| 0 <= c < ch ==> (#[trigger] channels@[c])@ == want[c],
            decreases n - ch,
        {
            let ghost c = ch as int;
            proof {
                assert(self.channel_residuals@[c]@ == residuals[c]@);
                assert(residuals[c]@ == before[c].skip(y * fb));
                assert(before[c].len() == before[0].len());
            }
            let have: usize = self.channel_residuals[ch].len();
            let available: usize = if have < frame_bytes { have } else { frame_bytes };
            let mut frame_data: Vec<u8> = self.channel_residuals[ch].split_off(available);
            std::mem::swap(&mut frame_data, &mut self.channel_residuals[ch]);
            proof {
                assert(frame_data@ =~= residuals[c]@.take(available as int));
                assert(self.channel_residuals@[c]@ =~= residuals[c]@.skip(available as int));
            }
            let ghost part = frame_data@;
            frame_data.resize(frame_bytes, 0);
            proof {
                assert forall|k: int| 0 <= k < fb implies #[trigger] frame_data@[k] == want[c][k] by {
                    if k < available {
                        assert(frame_data@.subrange(0, part.len() as int)[k] == part[k]);
                        assert(residuals[c]@[k] == before[c][y * fb + k]);
                    } else {
                        assert(frame_data@[k] == 0);
                    }
                }
                assert(frame_data@ =~= want[c]);
                assert(self.channel_residuals@[c]@ =~= after[c].skip((y + 1) * fb));
            }
            channels.push(frame_data);
            ch = ch + 1;
        }
        self.bytes_read_per_ch = self.bytes_read_per_ch + frame_bytes as u64;
        self.frames_yielded = self.frames_yielded + 1;
        proof {
            self.received@ = after;
            assert forall|c: int| 0 <= c < n implies (#[trigger] after[c]).len() == after[0].len() by {
                assert(before[c].len() == before[0].len());
            }
            let f = DsdFrame { channels };
            assert(f@ =~= want);
        }
        Some(DsdFrame { channels })
    }
}

/// A channel filled up with zeros to a length, if it is shorter.
pub open spec fn filled(channel: Seq<u8>, len: nat) -> Seq<u8> {
    if channel.len() < len {
        channel + Seq::new((len - channel.len()) as nat, |i: int| 0u8)
    } else {
        channel
    }
}

pub proof fn lemma_part_len(group: Seq<u8>, ch: int, have: nat, block_size: nat, valid: nat, n: int)
    requires
        0 <= ch < n,
        group.len() == n * block_size,
    ensures
        block_part(group, ch, have, block_size, valid).len() == usable(have, block_size, valid),
{
    let bs = block_size as int;
    assert(ch * bs + bs <= n * bs && ch * bs >= 0) by (nonlinear_arith)
        requires
            0 <= ch < n,
            bs >= 0,
    ;
}

// ---------------------------------------------------------------------------
// DSF Writer
// ---------------------------------------------------------------------------

/// Streaming writer for DSF format output.
///
/// DSF uses little-endian, LSB-first bit order (opposite of DSDIFF's MSB-first). The
/// writer hands out the bytes to append to the file, and at the end those to fill in.
pub struct DsfWriter {
    n_channels: usize,
    /// Accumulated per-channel DSD bytes (MSB-first), flushed in blocks.
    channel_bufs: Vec<Vec<u8>>,
    /// Total DSD bytes written to the data chunk so far.
    data_bytes_written: u64,
    bit_reverse_table: [u8; 256],
    rate: Ghost<u32>,
    taken: Ghost<Seq<Seq<u8>>>,
    groups: Ghost<nat>,
}

/// The bytes in vectors, up to a length.
pub open spec fn frame_bytes(channels: Seq<Vec<u8>>, n: int) -> Seq<Seq<u8>> {
    channels.map_values(|c: Vec<u8>| c@.take(n))
}

/// Channels with more bytes at their ends.
pub open spec fn extended(channels: Seq<Seq<u8>>, more: Seq<Seq<u8>>) -> Seq<Seq<u8>> {
    Seq::new(channels.len(), |ch: int| channels[ch] + more[ch])
}

/// All channels have the same length.
pub open spec fn level(channels: Seq<Seq<u8>>, len: nat) -> bool {
    forall|ch: int| 0 <= ch < channels.len() ==> (#[trigger] channels[ch]).len() == len
}

/// What is flushed does not change when bytes are added.
proof fn lemma_groups_stay(channels: Seq<Seq<u8>>, more: Seq<Seq<u8>>, n: nat, len: nat)
    requires
        level(channels, len),
        4096 * n <= len,
    ensures
        block_groups(extended(channels, more), n) == block_groups(channels, n),
    decreases n,
{
    if n > 0 {
        lemma_groups_stay(channels, more, (n - 1) as nat, len);
        let a = block_group(extended(channels, more), n - 1);
        let b = block_group(channels, n - 1);
        assert forall|k: int| 0 <= k < b.len() implies a[k] == b[k] by {
            assert(channels[k / 4096].len() == len);
        }
        assert(a =~= b);
    }
}

impl DsfWriter {
    /// The sample rate of the file.
    pub closed spec fn sample_rate(self) -> u32 {
        self.rate@
    }

    /// The bytes of each channel that the writer was given.
    pub closed spec fn channels(self) -> Seq<Seq<u8>> {
        self.taken@
    }

    /// How many bytes of each channel the writer was given.
    pub closed spec fn len(self) -> nat {
        4096 * self.groups@ + self.channel_bufs@[0]@.len()
    }

    /// The bytes of the file so far.
    pub closed spec fn written(self) -> Seq<u8> {
        dsf_header(self.rate@, self.n_channels as nat, 0, 0, 0) + block_groups(
            self.taken@,
            self.groups@,
        )
    }

    /// The writer is in a state that its operations leave behind.
    pub closed spec fn wf(self) -> bool {
        &&& self.buffers_hold()
        &&& self.channel_bufs@.len() > 0 ==> self.channel_bufs@[0]@.len() < 4096
    }

    spec fn buffers_hold(self) -> bool {
        let n = self.n_channels as int;
        let done = 4096 * self.groups@;
        &&& self.channel_bufs@.len() == n
        &&& self.taken@.len() == n
        &&& n > 0 ==> level(self.taken@, self.len())
        &&& forall|ch: int|
            0 <= ch < n ==> (#[trigger] self.channel_bufs@[ch])@ == self.taken@[ch].skip(
                done as int,
            ) && self.channel_bufs@[ch]@.len() == self.channel_bufs@[0]@.len()
        &&& self.data_bytes_written == self.groups@ * (n * 4096)
        &&& forall|b: u8| #[trigger] self.bit_reverse_table[b as int] == reversed(b)
        &&& n == 0 ==> self.groups@ == 0
    }

    /// The sizes in the file can be counted, with `extra` more bytes of each channel.
    pub open spec fn countable(self, extra: nat) -> bool {
        &&& 92 + self.channels().len() * (self.len() + extra + 4096) <= u64::MAX
        &&& 8 * (self.len() + extra + 4096) <= u64::MAX
        &&& self.len() + extra + 4096 <= usize::MAX
    }

    /// Create a new DSF writer.
    ///
    /// Hands out DSD chunk, fmt chunk, and data chunk header with placeholder sizes.
    /// After this, call `write_frame()` for each decoded frame, then `finish()`.
    pub fn new(sample_rate: u32, n_channels: usize) -> (r: (Self, Vec<u8>))
        ensures
            r.0.wf(),
            r.0.sample_rate() == sample_rate,
            r.0.channels() == Seq::new(n_channels as nat, |ch: int| Seq::<u8>::empty()),
            n_channels > 0 ==> r.0.len() == 0,
            r.1@ == r.0.written(),
            r.1@ == dsf_header(sample_rate, n_channels as nat, 0, 0, 0),
    {
        let out: Vec<u8> = build_header(sample_rate, n_channels);
        let mut channel_bufs: Vec<Vec<u8>> = Vec::new();
        let mut ch: usize = 0;
        while ch < n_channels
            invariant
                ch <= n_channels,
                channel_bufs@.len() == ch,
                forall|c: int| 0 <= c < ch ==> (#[trigger] channel_bufs@[c])@.len() == 0,
            decreases n_channels - ch,
        {
            channel_bufs.push(Vec::new());
            ch = ch + 1;
        }
        let ghost taken = Seq::new(n_channels as nat, |ch: int| Seq::<u8>::empty());
        let w = DsfWriter {
            n_channels,
            channel_bufs,
            data_bytes_written: 0,
            bit_reverse_table: build_bit_reverse_table(),
            rate: Ghost(sample_rate),
            taken: Ghost(taken),
            groups: Ghost(0),
        };
        proof {
            assert(out@ =~= w.written());
            assert forall|c: int| 0 <= c < n_channels implies (#[trigger] w.channel_bufs@[c])@
                == w.taken@[c].skip(0) by {
                assert(w.channel_bufs@[c]@ =~= w.taken@[c].skip(0));
            }
            assert(0 * (n_channels * 4096) == 0);
        }
        (w, out)
    }
}

/// Header with placeholder sizes: DSD chunk, fmt chunk, and data chunk header.
fn build_header(sample_rate: u32, n_channels: usize) -> (out: Vec<u8>)
    ensures
        out@ == dsf_header(sample_rate, n_channels as nat, 0, 0, 0),
{
    reveal(dsf_header);
    // --- DSD chunk (28 bytes) ---
    let mut out: Vec<u8> = Vec::new();
    out.extend_from_slice(&DSD_MAGIC);
    proof {
        assert(out@ =~= DSD_MAGIC@);
    }
    append_le(&mut out, 28, 8);  // chunk size = 28
    append_le(&mut out, 0, 8);  // total file size placeholder

    let middle: Vec<u8> = build_header_middle(sample_rate, n_channels);
    out.extend_from_slice(middle.as_slice());
    append_le(&mut out, 0, 8);  // sample count placeholder

    let mut end: Vec<u8> = le_bytes(DSF_BLOCK_SIZE as u64, 4);  // block size per channel
    append_le(&mut end, 0, 4);  // reserved
    // --- data chunk header ---
    end.extend_from_slice(&DATA_MAGIC);
    out.extend_from_slice(end.as_slice());
    append_le(&mut out, 0, 8);  // data chunk size placeholder
    out
}

/// The header from behind the file size up to the sample count.
fn build_header_middle(sample_rate: u32, n_channels: usize) -> (out: Vec<u8>)
    ensures
        out@ == header_middle(sample_rate, n_channels as nat),
{
    let mut out: Vec<u8> = le_bytes(0, 8);  // metadata offset = 0

    // --- fmt chunk (52 bytes) ---
    out.extend_from_slice(&FMT_MAGIC);
    append_le(&mut out, 52, 8);  // chunk size = 52
    append_le(&mut out, 1, 4);  // format version
    append_le(&mut out, 0, 4);  // format ID: DSD raw
    // Channel type: 2=stereo, 6=5.1, etc.
    let kind: u64 = if n_channels <= 6 { n_channels as u64 } else { 0 };
    append_le(&mut out, kind, 4);
    append_le(&mut out, n_channels as u64, 4);
    append_le(&mut out, sample_rate as u64, 4);
    append_le(&mut out, 1, 4);  // bits per sample
    out
}

/// Append the low `n` bytes of a number, little-endian.
fn append_le(out: &mut Vec<u8>, v: u64, n: usize)
    requires
        n <= 8,
    ensures
        final(out)@ == old(out)@ + endian::le(v as nat, n as nat),
{
    let bytes: Vec<u8> = le_bytes(v, n);
    out.extend_from_slice(bytes.as_slice());
}

impl DsfWriter {
    /// Write decoded DSD data for one frame (MSB-first packed bytes per channel).
    ///
    /// Data is buffered and handed out in DSF block-interleaved format when enough
    /// bytes accumulate.
    pub fn write_frame(&mut self, decoded_channels: &[Vec<u8>], frame_bytes_per_ch: usize) -> (out:
        Vec<u8>)
        requires
            old(self).wf(),
            old(self).channels().len() > 0,
            decoded_channels@.len() == old(self).channels().len(),
            forall|ch: int|
                0 <= ch < decoded_channels@.len() ==> frame_bytes_per_ch <= (
                #[trigger] decoded_channels@[ch])@.len(),
            old(self).countable(frame_bytes_per_ch as nat),
        ensures
            final(self).wf(),
            final(self).sample_rate() == old(self).sample_rate(),
            final(self).channels() == extended(
                old(self).channels(),
                frame_bytes(decoded_channels@, frame_bytes_per_ch as int),
            ),
            final(self).len() == old(self).len() + frame_bytes_per_ch,
            final(self).written() == old(self).written() + out@,
    {
        let ghost more = frame_bytes(decoded_channels@, frame_bytes_per_ch as int);
        let ghost before = self.taken@;
        let ghost bufs = self.channel_bufs@;
        let ghost held = self.channel_bufs@[0]@.len();
        let n: usize = decoded_channels.len();
        let mut ch: usize = 0;
        while ch < n
            invariant
                ch <= n,
                n == decoded_channels@.len(),
                forall|c: int|
                    0 <= c < decoded_channels@.len() ==> frame_bytes_per_ch <= (
                    #[trigger] decoded_channels@[c])@.len(),
                self.n_channels == n,
                self.channel_bufs@.len() == n,
                bufs.len() == n,
                more == frame_bytes(decoded_channels@, frame_bytes_per_ch as int),
                self.rate == old(self).rate,
                self.taken == old(self).taken,
                self.groups == old(self).groups,
                self.data_bytes_written == old(self).data_bytes_written,
                self.bit_reverse_table == old(self).bit_reverse_table,
                forall|c: int| 0 <= c < ch ==> (#[trigger] self.channel_bufs@[c])@ == bufs[c]@ + more[c],
                forall|c: int| ch <= c < n ==> (#[trigger] self.channel_bufs@[c])@ == bufs[c]@,
            decreases n - ch,
        {
            proof {
                assert(frame_bytes_per_ch <= decoded_channels@[ch as int]@.len());
            }
            let part: &[u8] = &decoded_channels[ch].as_slice()[0..frame_bytes_per_ch];
            self.channel_bufs[ch].extend_from_slice(part);
            proof {
                assert(part@ =~= more[ch as int]);
            }
            ch = ch + 1;
        }
        proof {
            self.taken@ = extended(before, more);
            let done = (4096 * self.groups@) as int;
            assert forall|c: int| 0 <= c < n implies (#[trigger] self.channel_bufs@[c])@
                == self.taken@[c].skip(done) && self.channel_bufs@[c]@.len() == held
                + frame_bytes_per_ch && self.taken@[c].len() == done + held
                + frame_bytes_per_ch by {
                assert(bufs[c]@ == before[c].skip(done));
                assert(before[c].len() == done + held);
                assert(self.channel_bufs@[c]@ =~= self.taken@[c].skip(done));
            }
            assert(self.channel_bufs@[0]@.len() == held + frame_bytes_per_ch);
            lemma_groups_stay(before, more, self.groups@, (done + held) as nat);
        }
        let ghost start = self.written();
        let mut out: Vec<u8> = Vec::new();
        proof {
            assert(start =~= old(self).written());
            assert(start + out@ =~= start);
        }
        // Flush complete blocks
        while self.channel_bufs[0].len() >= DSF_BLOCK_SIZE
            invariant
                self.buffers_hold(),
                self.n_channels == n,
                n > 0,
                self.rate == old(self).rate,
                self.taken@ == extended(before, more),
                self.len() == old(self).len() + frame_bytes_per_ch,
                self.written() == start + out@,
                92 + n * (self.len() + 4096) <= u64::MAX,
            decreases self.channel_bufs@[0]@.len(),
        {
            self.flush_block(&mut out);
        }
        out
    }

    /// Hand out one DSF_BLOCK_SIZE block from each channel buffer.
    fn flush_block(&mut self, out: &mut Vec<u8>)
        requires
            old(self).buffers_hold(),
            old(self).n_channels > 0,
            old(self).channel_bufs@[0]@.len() >= 4096,
            92 + old(self).n_channels * (old(self).len() + 4096) <= u64::MAX,
        ensures
            final(self).buffers_hold(),
            final(self).n_channels == old(self).n_channels,
            final(self).rate == old(self).rate,
            final(self).taken == old(self).taken,
            final(self).len() == old(self).len(),
            final(self).channel_bufs@[0]@.len() == old(self).channel_bufs@[0]@.len() - 4096,
            final(out)@ == old(out)@ + block_group(old(self).taken@, old(self).groups@ as int),
            final(self).written() == old(self).written() + block_group(
                old(self).taken@,
                old(self).groups@ as int,
            ),
    {
        let ghost g = self.groups@ as int;
        let ghost taken = self.taken@;
        let ghost bufs = self.channel_bufs@;
        let ghost piece = block_group(taken, g);
        let ghost held = self.channel_bufs@[0]@.len();
        let n: usize = self.n_channels;
        let ghost written = self.data_bytes_written as int;
        proof {
            let total = self.len();
            assert(written + n * 4096 <= n * (total + 4096)) by (nonlinear_arith)
                requires
                    written == g * (n * 4096),
                    total >= 4096 * g,
                    n >= 0,
            ;
            assert(out@ =~= old(out)@ + piece.take(0));
        }
        let mut ch: usize = 0;
        while ch < n
            invariant
                ch <= n,
                n == self.n_channels,
                self.channel_bufs@.len() == n,
                bufs.len() == n,
                taken.len() == n,
                piece == block_group(taken, g),
                g >= 0,
                held >= 4096,
                self.rate == old(self).rate,
                self.taken == old(self).taken,
                self.groups == old(self).groups,
                self.bit_reverse_table == old(self).bit_reverse_table,
                forall|b: u8| #[trigger] self.bit_reverse_table[b as int] == reversed(b),
                self.data_bytes_written == written + 4096 * ch,
                written + n * 4096 <= u64::MAX,
                forall|c: int|
                    0 <= c < n ==> (#[trigger] bufs[c])@ == taken[c].skip(4096 * g)
                        && bufs[c]@.len() == held && taken[c].len() == 4096 * g + held,
                forall|c: int|
                    0 <= c < ch ==> (#[trigger] self.channel_bufs@[c])@ == bufs[c]@.skip(4096),
                forall|c: int| ch <= c < n ==> (#[trigger] self.channel_bufs@[c])@ == bufs[c]@,
                out@ == old(out)@ + piece.take(4096 * ch),
            decreases n - ch,
        {
            proof {
                assert(self.channel_bufs@[ch as int]@ == bufs[ch as int]@);
                assert(bufs[ch as int]@.len() == held);
            }
            let ghost was = self.channel_bufs@;
            let rest: Vec<u8> = self.channel_bufs[ch].split_off(DSF_BLOCK_SIZE);
            let ghost block = self.channel_bufs@[ch as int]@;
            proof {
                assert(block =~= bufs[ch as int]@.take(4096));
            }
            let mut i: usize = 0;
            while i < DSF_BLOCK_SIZE
                invariant
                    i <= 4096,
                    ch < n,
                    self.channel_bufs@.len() == n,
                    taken.len() == n,
                    block.len() == 4096,
                    block == taken[ch as int].skip(4096 * g).take(4096),
                    taken[ch as int].len() >= 4096 * g + 4096,
                    g >= 0,
                    self.channel_bufs@[ch as int]@ == block,
                    piece == block_group(taken, g),
                    forall|b: u8| #[trigger] self.bit_reverse_table[b as int] == reversed(b),
                    out@ == old(out)@ + piece.take(4096 * ch + i),
                decreases 4096 - i,
            {
                let b: u8 = self.channel_bufs[ch][i];
                out.push(self.bit_reverse_table[b as usize]);
                proof {
                    let k = 4096 * ch + i;
                    assert(k / 4096 == ch && k % 4096 == i);
                    assert(piece[k] == reversed(b));
                    assert(out@ =~= old(out)@ + piece.take(k + 1));
                }
                i = i + 1;
            }
            self.channel_bufs[ch] = rest;
            self.data_bytes_written = self.data_bytes_written + DSF_BLOCK_SIZE as u64;
            proof {
                assert(self.channel_bufs@[ch as int]@ =~= bufs[ch as int]@.skip(4096));
            }
            ch = ch + 1;
        }
        proof {
            self.groups@ = (g + 1) as nat;
            assert(piece.take(4096 * n) =~= piece);
            assert((g + 1) * (n * 4096) == g * (n * 4096) + n * 4096) by (nonlinear_arith);
            assert forall|c: int| 0 <= c < n implies (#[trigger] self.channel_bufs@[c])@
                == taken[c].skip(4096 * (g + 1)) && self.channel_bufs@[c]@.len() == held
                - 4096 by {
                assert(bufs[c]@ == taken[c].skip(4096 * g));
                assert(bufs[c]@.skip(4096) =~= taken[c].skip(4096 * (g + 1)));
            }
            assert(old(self).written() + piece =~= self.written());
        }
    }

    /// Finalize: hand out remaining data, pad last block, fill in sizes.
    ///
    /// `total_samples` is the exact number of DSD samples per channel (for the
    /// sample count field). If 0, it is computed from total data written.
    pub fn finish(self, total_samples: u64) -> (end: FileEnd)
        requires
            self.wf(),
            self.channels().len() > 0,
            self.countable(0),
        ensures
            ({
                let groups = (self.len() + 4095) / 4096;
                end.complete(self.written()) == dsf_file(
                    self.sample_rate(),
                    self.channels(),
                    if total_samples > 0 {
                        total_samples as nat
                    } else {
                        8 * (4096 * groups)
                    },
                    groups,
                )
            }),
    {
        let ghost taken = self.taken@;
        let ghost g = self.groups@ as int;
        let n: usize = self.n_channels;
        let mut tail: Vec<u8> = Vec::new();
        let mut data_bytes_written: u64 = self.data_bytes_written;
        let ghost written = self.data_bytes_written as int;
        // Flush remaining partial block (pad with zeros to DSF_BLOCK_SIZE)
        let remaining: usize = self.channel_bufs[0].len();
        let ghost groups = if remaining > 0 { g + 1 } else { g };
        proof {
            let total = self.len();
            assert(written + n * 4096 <= n * (total + 4096)) by (nonlinear_arith)
                requires
                    written == g * (n * 4096),
                    total >= 4096 * g,
                    n >= 0,
            ;
        }
        let ghost piece = block_group(taken, g);
        if remaining > 0 {
            let mut ch: usize = 0;
            proof {
                assert(tail@ =~= piece.take(0));
            }
            while ch < n
                invariant
                    ch <= n,
                    self.buffers_hold(),
                    n == self.n_channels,
                    taken == self.taken@,
                    g == self.groups@,
                    remaining == self.channel_bufs@[0]@.len(),
                    remaining < 4096,
                    piece == block_group(taken, g),
                    data_bytes_written == written + 4096 * ch,
                    written + n * 4096 <= u64::MAX,
                    tail@ == piece.take(4096 * ch),
                decreases n - ch,
            {
                proof {
                    assert(self.channel_bufs@[ch as int]@ == taken[ch as int].skip(4096 * g));
                    assert(taken[ch as int].len() == 4096 * g + remaining);
                }
                let mut i: usize = 0;
                while i < DSF_BLOCK_SIZE
                    invariant
                        i <= 4096,
                        ch < n,
                        n == self.n_channels,
                        self.channel_bufs@.len() == n,
                        taken.len() == n,
                        g >= 0,
                        self.channel_bufs@[ch as int]@ == taken[ch as int].skip(4096 * g),
                        self.channel_bufs@[ch as int]@.len() == remaining,
                        taken[ch as int].len() == 4096 * g + remaining,
                        forall|b: u8| #[trigger] self.bit_reverse_table[b as int] == reversed(b),
                        piece == block_group(taken, g),
                        tail@ == piece.take(4096 * ch + i),
                    decreases 4096 - i,
                {
                    let b: u8 = if i < remaining {
                        let x: u8 = self.channel_bufs[ch][i];
                        self.bit_reverse_table[x as usize]
                    } else {
                        0
                    };
                    tail.push(b);
                    proof {
                        let k = 4096 * ch + i;
                        assert(k / 4096 == ch && k % 4096 == i);
                        assert(piece[k] == b);
                        assert(tail@ =~= piece.take(k + 1));
                    }
                    i = i + 1;
                }
                data_bytes_written = data_bytes_written + DSF_BLOCK_SIZE as u64;
                ch = ch + 1;
            }
            proof {
                assert(piece.take(4096 * n) =~= piece);
                assert((g + 1) * (n * 4096) == g * (n * 4096) + n * 4096) by (nonlinear_arith);
            }
        }
        let ghost data = block_groups(taken, groups as nat);
        proof {
            lemma_block_groups_len(taken, groups as nat);
            assert(data_bytes_written == data.len());
            assert(self.written() + tail@ =~= dsf_header(self.rate@, n as nat, 0, 0, 0) + data);
            assert(groups == (self.len() + 4095) / 4096);
            let total = self.len();
            assert(data.len() <= n * (total + 4096)) by (nonlinear_arith)
                requires
                    data.len() == groups * (n * 4096),
                    total + 4096 >= 4096 * groups,
                    n >= 0,
            ;
            assert(data.len() as int / n as int == 4096 * groups) by {
                assert(groups * (n * 4096) == (4096 * groups) * n) by (nonlinear_arith);
                lemma_div_by_multiple(4096 * groups, n as int);
            }
        }
        let end_pos: u64 = 92 + data_bytes_written;
        let sample_count: u64 = if total_samples > 0 {
            total_samples
        } else {
            (data_bytes_written / n as u64) * 8
        };

        // Data chunk size (counts its own 12-byte header)
        let data_chunk_size: u64 = 12 + data_bytes_written;

        let mut patches: Vec<Patch> = Vec::new();
        // Total file size
        patches.push(Patch { offset: 12, bytes: le_bytes(end_pos, 8) });
        // Sample count
        patches.push(Patch { offset: 64, bytes: le_bytes(sample_count, 8) });
        patches.push(Patch { offset: 84, bytes: le_bytes(data_chunk_size, 8) });
        proof {
            lemma_header_patches(
                self.rate@,
                n as nat,
                data,
                end_pos as nat,
                sample_count as nat,
                data_chunk_size as nat,
            );
            reveal_with_fuel(patch::patched, 4);
        }
        FileEnd { tail, patches }
    }
}

// ---------------------------------------------------------------------------
// Reading gives back what was written
// ---------------------------------------------------------------------------

/// The bytes of the channels after the first `g` block groups of the audio data.
pub open spec fn receive_groups(
    data: Seq<u8>,
    n_channels: nat,
    block_size: nat,
    valid: nat,
    g: nat,
) -> Seq<Seq<u8>>
    decreases g,
{
    if g == 0 {
        Seq::new(n_channels, |ch: int| Seq::<u8>::empty())
    } else {
        let w = n_channels * block_size;
        receive(
            receive_groups(data, n_channels, block_size, valid, (g - 1) as nat),
            data.subrange((g - 1) * w, (g - 1) * w + w),
            block_size,
            valid,
        )
    }
}

/// Where a block group stands.
pub proof fn lemma_block_group_at(channels: Seq<Seq<u8>>, g: nat, n: nat)
    requires
        g < n,
    ensures
        ({
            let w = (channels.len() * 4096) as int;
            block_groups(channels, n).subrange(g * w, g * w + w) == block_group(
                channels,
                g as int,
            )
        }),
    decreases n,
{
    let w = (channels.len() * 4096) as int;
    lemma_block_groups_len(channels, (n - 1) as nat);
    let head = block_groups(channels, (n - 1) as nat);
    let last = block_group(channels, n - 1);
    if g < n - 1 {
        lemma_block_group_at(channels, g, (n - 1) as nat);
        assert(g * w + w <= (n - 1) * w) by (nonlinear_arith)
            requires
                g + 1 <= n - 1,
                w >= 0,
        ;
        assert(g * w >= 0) by (nonlinear_arith)
            requires
                g >= 0,
                w >= 0,
        ;
        assert((head + last).subrange(g * w, g * w + w) =~= head.subrange(
            g * w,
            g * w + w,
        ));
    } else {
        assert((head + last).subrange(g * w, g * w + w) =~= last);
    }
}

proof fn lemma_receive_groups(channels: Seq<Seq<u8>>, len: nat, valid: nat, g: nat, n: nat)
    requires
        level(channels, len),
        valid <= len,
        g <= n,
    ensures
        receive_groups(block_groups(channels, n), channels.len(), 4096, valid, g)
            == channels.map_values(
            |c: Seq<u8>|
                c.take(
                    if 4096 * g < valid {
                        (4096 * g) as int
                    } else {
                        valid as int
                    },
                ),
        ),
    decreases g,
{
    let data = block_groups(channels, n);
    let got = receive_groups(data, channels.len(), 4096, valid, g);
    let upto = if 4096 * g < valid {
        (4096 * g) as int
    } else {
        valid as int
    };
    let want = channels.map_values(|c: Seq<u8>| c.take(upto));
    if g > 0 {
        let h = (g - 1) as nat;
        lemma_receive_groups(channels, len, valid, h, n);
        lemma_block_group_at(channels, h, n);
        let before = receive_groups(data, channels.len(), 4096, valid, h);
        let group = block_group(channels, h as int);
        let had = if 4096 * h < valid {
            (4096 * h) as int
        } else {
            valid as int
        };
        assert forall|ch: int| 0 <= ch < channels.len() implies got[ch] =~= want[ch] by {
            assert(channels[ch].len() == len);
            assert(before[ch] == channels[ch].take(had));
            let part = block_part(group, ch, had as nat, 4096, valid);
            lemma_part_len(group, ch, had as nat, 4096, valid, channels.len() as int);
            assert forall|i: int| 0 <= i < part.len() implies part[i] == channels[ch][had + i] by {
                let k = ch * 4096 + i;
                assert(k / 4096 == ch && k % 4096 == i);
                law_bit_reverse_involutive(channels[ch][had + i]);
            }
        }
        assert(got =~= want);
    } else {
        assert forall|ch: int| 0 <= ch < channels.len() implies got[ch] =~= want[ch] by {
        }
        assert(got =~= want);
    }
}

proof fn lemma_le_at(b: Seq<u8>, at: int, v: nat, n: nat)
    requires
        v < endian::pow256(n),
        b.subrange(at, at + n) == endian::le(v, n),
    ensures
        le_at(b, at, n as int) == v,
{
    endian::lemma_be_round_trip(v, n);
}

/// What a writer writes, a reader finds: the header of a DSF file tells the sample rate,
/// the channels and the samples, and its block groups hold the bytes of the channels, as
/// far as there are samples.
pub proof fn law_dsf_round_trip(
    sample_rate: u32,
    channels: Seq<Seq<u8>>,
    len: nat,
    sample_count: nat,
    n_groups: nat,
)
    requires
        channels.len() <= u32::MAX,
        level(channels, len),
        len <= 4096 * n_groups,
        sample_count / 8 <= len,
        sample_count <= u64::MAX,
        sample_count / 8 <= usize::MAX,
        12 + n_groups * (channels.len() * 4096) + 80 <= u64::MAX,
    ensures
        ({
            let file = dsf_file(sample_rate, channels, sample_count, n_groups);
            let valid = sample_count / 8;
            &&& parse(file) == DsfParse::Header(
                DsfHeader {
                    sample_rate,
                    channel_count: channels.len() as usize,
                    sample_count: sample_count as u64,
                    block_size: 4096,
                    valid_bytes_per_ch: valid as usize,
                    data_start: 92,
                },
            )
            &&& receive_groups(file.skip(92), channels.len(), 4096, valid, n_groups)
                == channels.map_values(|c: Seq<u8>| c.take(valid as int))
        }),
{
    let n = channels.len();
    let data = block_groups(channels, n_groups);
    let file = dsf_file(sample_rate, channels, sample_count, n_groups);
    lemma_block_groups_len(channels, n_groups);
    lemma_header_lens(sample_rate, n);
    assert(file.skip(92) =~= data);
    lemma_receive_groups(channels, len, sample_count / 8, n_groups, n_groups);
    lemma_header_fields(sample_rate, n, 92 + data.len(), sample_count, 12 + data.len(), data);
    lemma_parse_fields(file, sample_rate, n, sample_count);
}

/// A header with these fields parses.
proof fn lemma_parse_fields(file: Seq<u8>, sample_rate: u32, n: nat, sample_count: nat)
    requires
        file.len() >= 92,
        n <= u32::MAX,
        sample_count <= u64::MAX,
        sample_count / 8 <= usize::MAX,
        file.subrange(0, 4) == DSD_MAGIC@,
        file.subrange(28, 32) == FMT_MAGIC@,
        file.subrange(32, 40) == endian::le(52, 8),
        file.subrange(52, 56) == endian::le(n, 4),
        file.subrange(56, 60) == endian::le(sample_rate as nat, 4),
        file.subrange(64, 72) == endian::le(sample_count, 8),
        file.subrange(72, 76) == endian::le(4096, 4),
        file.subrange(80, 84) == DATA_MAGIC@,
    ensures
        parse(file) == DsfParse::Header(
            DsfHeader {
                sample_rate,
                channel_count: n as usize,
                sample_count: sample_count as u64,
                block_size: 4096,
                valid_bytes_per_ch: (sample_count / 8) as usize,
                data_start: 92,
            },
        ),
{
    reveal(parse);
    endian::lemma_pow256();
    lemma_le_at(file, 32, 52, 8);
    lemma_le_at(file, 52, n, 4);
    lemma_le_at(file, 56, sample_rate as nat, 4);
    lemma_le_at(file, 64, sample_count, 8);
    lemma_le_at(file, 72, 4096, 4);
    lemma_small_mod(sample_count / 8, usize::MAX as nat + 1);
    lemma_small_mod(40, usize::MAX as nat + 1);
    assert(parse(file) == parse_from_fmt(file, 40));
}

/// Where the fields of a header stand.
proof fn lemma_header_fields(
    sample_rate: u32,
    n: nat,
    file_size: nat,
    sample_count: nat,
    data_size: nat,
    data: Seq<u8>,
)
    ensures
        ({
            let file = dsf_header(sample_rate, n, file_size, sample_count, data_size) + data;
            &&& file.subrange(0, 4) == DSD_MAGIC@
            &&& file.subrange(28, 32) == FMT_MAGIC@
            &&& file.subrange(32, 40) == endian::le(52, 8)
            &&& file.subrange(52, 56) == endian::le(n, 4)
            &&& file.subrange(56, 60) == endian::le(sample_rate as nat, 4)
            &&& file.subrange(64, 72) == endian::le(sample_count, 8)
            &&& file.subrange(72, 76) == endian::le(4096, 4)
            &&& file.subrange(80, 84) == DATA_MAGIC@
        }),
{
    reveal(dsf_header);
    lemma_header_lens(sample_rate, n);
    endian::lemma_be_len(28, 8);
    endian::lemma_be_len(0, 8);
    endian::lemma_be_len(52, 8);
    endian::lemma_be_len(1, 4);
    endian::lemma_be_len(0, 4);
    endian::lemma_be_len(channel_type(n), 4);
    endian::lemma_be_len(n, 4);
    endian::lemma_be_len(sample_rate as nat, 4);
    endian::lemma_be_len(4096, 4);
    endian::lemma_be_len(file_size, 8);
    endian::lemma_be_len(sample_count, 8);
    endian::lemma_be_len(data_size, 8);
    let file = dsf_header(sample_rate, n, file_size, sample_count, data_size) + data;
    let middle = header_middle(sample_rate, n);
    assert(file.subrange(20, 64) =~= middle);
    assert(middle.subrange(8, 12) =~= FMT_MAGIC@);
    assert(middle.subrange(12, 20) =~= endian::le(52, 8));
    assert(middle.subrange(32, 36) =~= endian::le(n, 4));
    assert(middle.subrange(36, 40) =~= endian::le(sample_rate as nat, 4));
    assert(file.subrange(0, 4) =~= DSD_MAGIC@);
    assert(file.subrange(28, 32) =~= file.subrange(20, 64).subrange(8, 12));
    assert(file.subrange(32, 40) =~= file.subrange(20, 64).subrange(12, 20));
    assert(file.subrange(52, 56) =~= file.subrange(20, 64).subrange(32, 36));
    assert(file.subrange(56, 60) =~= file.subrange(20, 64).subrange(36, 40));
    assert(file.subrange(64, 72) =~= endian::le(sample_count, 8));
    let end = header_end();
    assert(file.subrange(72, 84) =~= end);
    assert(end.subrange(0, 4) =~= endian::le(4096, 4));
    assert(end.subrange(8, 12) =~= DATA_MAGIC@);
    assert(file.subrange(72, 76) =~= file.subrange(72, 84).subrange(0, 4));
    assert(file.subrange(80, 84) =~= file.subrange(72, 84).subrange(8, 12));
}

} // verus!

//! What holds of every number, header and block of a file, said of its bytes.

use vstd::arithmetic::div_mod::*;
use vstd::arithmetic::power::*;
use vstd::arithmetic::power2::pow2;
use vstd::prelude::*;

use crate::codec::bits;
use crate::format::dsdiff::crc;
use crate::format::dsf;
use crate::format::dsf::DsfParse;
use crate::format::endian;
use crate::format::metadata;
use crate::format::metadata::DsdMetadata;
use crate::format::patch;
use crate::format::step;
use crate::format::text;

verus! {

// ---------------------------------------------------------------------------
// Numbers
// ---------------------------------------------------------------------------

/// The bytes of a number are its digits to the base 256, and a number that fits comes back
/// from them, whichever end comes first.
pub proof fn law_bytes_are_digits(v: nat, n: nat, i: int)
    requires
        0 <= i < n,
    ensures
        endian::be(v, n).len() == n,
        endian::le(v, n).len() == n,
        endian::be(v, n)[i] == v as int / pow(256, (n - 1 - i) as nat) % 256,
        endian::le(v, n)[i] == v as int / pow(256, i as nat) % 256,
        (v as int) < pow(256, n) ==> endian::be_value(endian::be(v, n)) == v
            && endian::le_value(endian::le(v, n)) == v,
{
    endian::lemma_be_len(v, n);
    lemma_digit(v, n, i);
    lemma_digit(v, n, n - 1 - i);
    lemma_powers(n);
    if (v as int) < pow(256, n) {
        endian::lemma_be_round_trip(v, n);
    }
}

proof fn lemma_powers(n: nat)
    ensures
        endian::pow256(n) == pow(256, n),
    decreases n,
{
    reveal(pow);
    if n > 0 {
        lemma_powers((n - 1) as nat);
    }
}

proof fn lemma_digit(v: nat, n: nat, i: int)
    requires
        0 <= i < n,
    ensures
        endian::be(v, n)[i] == v as int / pow(256, (n - 1 - i) as nat) % 256,
    decreases n,
{
    reveal(pow);
    endian::lemma_be_len(v / 256, (n - 1) as nat);
    if i < n - 1 {
        lemma_digit(v / 256, (n - 1) as nat, i);
        let k = (n - 2 - i) as nat;
        lemma_pow_positive(256, k);
        lemma_div_denominator(v as int, 256, pow(256, k));
        assert(pow(256, k + 1) == 256 * pow(256, k));
    } else {
        assert(v as int / 1 == v);
    }
}

/// A number that a `usize` holds is kept.
pub proof fn law_sizes_are_kept(v: nat)
    requires
        v <= usize::MAX,
    ensures
        endian::size_value(v) == v,
{
    lemma_small_mod(v, usize::MAX as nat + 1);
}

// ---------------------------------------------------------------------------
// The CRC
// ---------------------------------------------------------------------------

/// The CRC of no bits is zero, and each further bit doubles it, takes what falls off, and
/// reduces by x^32 + x^31 + x^4 + 1 if that differs from the bit.
pub proof fn law_crc_of_one_more_bit(s: Seq<bool>, bit: bool)
    ensures
        crc::crc(Seq::empty()) == 0,
        ({
            let c = crc::crc(s);
            let doubled = (2 * c % 0x1_0000_0000) as u32;
            crc::crc(s.push(bit)) == (if (c / 0x8000_0000 == 1) == bit {
                doubled
            } else {
                doubled ^ 0x8000_0011
            })
        }),
{
    let c = crc::crc(s);
    assert(s.push(bit).drop_last() =~= s);
    assert(c << 1 == (2 * c % 0x1_0000_0000) as u32 && (c / 0x8000_0000 == 1) == (c >= 0x8000_0000))
        by (bit_vector);
}

// ---------------------------------------------------------------------------
// Metadata
// ---------------------------------------------------------------------------

/// A frame has a 75th of a second of samples, in whole bytes, and there are as many frames
/// as all bytes need and no more.
pub proof fn law_metadata_of_audio(
    m: DsdMetadata,
    sample_rate: u32,
    n_channels: usize,
    total_samples: u64,
)
    requires
        m.of(sample_rate, n_channels, total_samples),
        sample_rate >= 600,
        total_samples / 8 <= usize::MAX,
    ensures
        m.sample_rate == sample_rate,
        m.n_channels == n_channels,
        m.total_samples == total_samples,
        75 * m.frame_bits <= sample_rate < 75 * m.frame_bits + 75,
        8 * m.frame_bytes_per_ch <= m.frame_bits < 8 * m.frame_bytes_per_ch + 8,
        m.n_frames * m.frame_bytes_per_ch >= total_samples / 8,
        m.n_frames > 0 ==> (m.n_frames - 1) * m.frame_bytes_per_ch < total_samples / 8,
{
    let (a, b) = ((total_samples / 8) as int, m.frame_bytes_per_ch as int);
    law_sizes_are_kept(a as nat);
    metadata::lemma_ceil_div(a, b);
    let q = m.n_frames as int;
    assert((q - 1) * b == q * b - b) by (nonlinear_arith);
}

// ---------------------------------------------------------------------------
// Filling in
// ---------------------------------------------------------------------------

/// Filling in changes the bytes at its place and no others.
pub proof fn law_filling_in(file: Seq<u8>, offset: int, bytes: Seq<u8>, i: int)
    requires
        0 <= offset,
        offset + bytes.len() <= file.len(),
        0 <= i < file.len(),
    ensures
        patch::overwritten(file, offset, bytes).len() == file.len(),
        patch::overwritten(file, offset, bytes)[i] == (if offset <= i < offset + bytes.len() {
            bytes[i - offset]
        } else {
            file[i]
        }),
{
}

// ---------------------------------------------------------------------------
// DSF
// ---------------------------------------------------------------------------

/// The bits of a reversed byte are those of the byte in reverse.
pub proof fn law_reversed_bits(b: u8, i: int)
    requires
        0 <= i < 8,
    ensures
        dsf::reversed(b) as nat / pow2(i as nat) % 2 == b as nat / pow2((7 - i) as nat) % 2,
{
    let s = bits::binary(b as nat, 8);
    bits::lemma_binary_len(b as nat, 8);
    bits::lemma_value_bound(s.reverse());
    bits::lemma_binary_value(s.reverse());
    vstd::arithmetic::power2::lemma2_to64();
    bits::lemma_binary_index(b as nat, 8, i);
    let r = dsf::reversed(b);
    assert(bits::binary(r as nat, 8) == s.reverse());
    bits::lemma_binary_index(r as nat, 8, 7 - i);
    assert(s.reverse()[7 - i] == s[i]);
}

/// Blocks of 4096 bytes, of one channel after the other: a byte of a channel stands, with its
/// bits reversed, in the block of its channel in its group, and zeros fill the last block.
pub proof fn law_block_bytes(channels: Seq<Seq<u8>>, n_groups: nat, g: int, ch: int, j: int)
    requires
        0 <= g < n_groups,
        0 <= ch < channels.len(),
        0 <= j < 4096,
    ensures
        ({
            let data = dsf::block_groups(channels, n_groups);
            let at = g * (channels.len() * 4096) + ch * 4096 + j;
            let i = 4096 * g + j;
            &&& data.len() == n_groups * (channels.len() * 4096)
            &&& 0 <= at < data.len()
            &&& i < channels[ch].len() ==> data[at] == dsf::reversed(channels[ch][i])
            &&& i >= channels[ch].len() ==> data[at] == 0
        }),
{
    let data = dsf::block_groups(channels, n_groups);
    let w = (channels.len() * 4096) as int;
    dsf::lemma_block_groups_len(channels, n_groups);
    dsf::lemma_block_group_at(channels, g as nat, n_groups);
    assert(0 <= g * w && g * w + w <= n_groups * w) by (nonlinear_arith)
        requires
            0 <= g < n_groups,
            w >= 0,
    ;
    let k = ch * 4096 + j;
    assert(k / 4096 == ch && k % 4096 == j);
    assert(data.subrange(g * w, g * w + w)[k] == data[g * w + k]);
}

/// The fields of the header of a DSF file, each at its place.
pub proof fn law_header_fields(
    sample_rate: u32,
    n_channels: nat,
    file_size: nat,
    sample_count: nat,
    data_size: nat,
)
    ensures
        ({
            let h = dsf::dsf_header(sample_rate, n_channels, file_size, sample_count, data_size);
            &&& h.len() == 92
            &&& h.subrange(0, 4) == seq![68u8, 83, 68, 32]
            &&& h.subrange(4, 12) == endian::le(28, 8)
            &&& h.subrange(12, 20) == endian::le(file_size, 8)
            &&& h.subrange(20, 28) == endian::le(0, 8)
            &&& h.subrange(28, 32) == seq![102u8, 109, 116, 32]
            &&& h.subrange(32, 40) == endian::le(52, 8)
            &&& h.subrange(40, 44) == endian::le(1, 4)
            &&& h.subrange(44, 48) == endian::le(0, 4)
            &&& h.subrange(48, 52) == endian::le(
                if n_channels <= 6 {
                    n_channels
                } else {
                    0
                },
                4,
            )
            &&& h.subrange(52, 56) == endian::le(n_channels, 4)
            &&& h.subrange(56, 60) == endian::le(sample_rate as nat, 4)
            &&& h.subrange(60, 64) == endian::le(1, 4)
            &&& h.subrange(64, 72) == endian::le(sample_count, 8)
            &&& h.subrange(72, 76) == endian::le(4096, 4)
            &&& h.subrange(76, 80) == endian::le(0, 4)
            &&& h.subrange(80, 84) == seq![100u8, 97, 116, 97]
            &&& h.subrange(84, 92) == endian::le(data_size, 8)
        }),
{
    reveal(dsf::dsf_header);
    dsf::lemma_header_lens(sample_rate, n_channels);
    endian::lemma_be_len(28, 8);
    endian::lemma_be_len(0, 8);
    endian::lemma_be_len(52, 8);
    endian::lemma_be_len(1, 4);
    endian::lemma_be_len(0, 4);
    endian::lemma_be_len(dsf::channel_type(n_channels), 4);
    endian::lemma_be_len(n_channels, 4);
    endian::lemma_be_len(sample_rate as nat, 4);
    endian::lemma_be_len(4096, 4);
    endian::lemma_be_len(file_size, 8);
    endian::lemma_be_len(sample_count, 8);
    endian::lemma_be_len(data_size, 8);
    let h = dsf::dsf_header(sample_rate, n_channels, file_size, sample_count, data_size);
    assert(h.subrange(0, 4) =~= seq![68u8, 83, 68, 32]);
    assert(h.subrange(28, 32) =~= seq![102u8, 109, 116, 32]);
    assert(h.subrange(80, 84) =~= seq![100u8, 97, 116, 97]);
}

/// The number in four bytes, the lowest first.
pub open spec fn low_first(b: Seq<u8>, at: int) -> int {
    b[at] + 0x100 * b[at + 1] + 0x1_0000 * b[at + 2] + 0x100_0000 * b[at + 3]
}

proof fn lemma_low_first(b: Seq<u8>, at: int)
    requires
        0 <= at,
        at + 4 <= b.len(),
    ensures
        dsf::le_at(b, at, 4) == low_first(b, at),
        at + 8 <= b.len() ==> dsf::le_at(b, at, 8) == low_first(b, at) + 0x1_0000_0000 * low_first(
            b,
            at + 4,
        ),
{
    reveal_with_fuel(endian::be_value, 9);
    let s = b.subrange(at, at + 4).reverse();
    assert(s.drop_last() =~= s.take(3));
    assert(s.take(3).drop_last() =~= s.take(2));
    assert(s.take(2).drop_last() =~= s.take(1));
    assert(s.take(1).drop_last() =~= s.take(0));
    if at + 8 <= b.len() {
        let t = b.subrange(at, at + 8).reverse();
        assert(t.drop_last() =~= t.take(7));
        assert(t.take(7).drop_last() =~= t.take(6));
        assert(t.take(6).drop_last() =~= t.take(5));
        assert(t.take(5).drop_last() =~= t.take(4));
        assert(t.take(4).drop_last() =~= t.take(3));
        assert(t.take(3).drop_last() =~= t.take(2));
        assert(t.take(2).drop_last() =~= t.take(1));
        assert(t.take(1).drop_last() =~= t.take(0));
    }
}

/// A DSF file with any fmt chunk that is long enough, and any block size: the header tells
/// what stands at the places of its fields, and the audio data start behind the header of
/// the data chunk, which follows the fmt chunk.
pub proof fn law_any_dsf_header_parses(b: Seq<u8>, len: nat)
    requires
        len >= 36,
        52 + len <= usize::MAX,
        b.len() >= 52 + len,
        b.subrange(0, 4) == seq![68u8, 83, 68, 32],
        b.subrange(28, 32) == seq![102u8, 109, 116, 32],
        low_first(b, 32) + 0x1_0000_0000 * low_first(b, 36) == 12 + len,
        b.subrange(40 + len as int, 44 + len as int) == seq![100u8, 97, 116, 97],
        ({
            let samples = low_first(b, 64) + 0x1_0000_0000 * low_first(b, 68);
            samples / 8 <= usize::MAX
        }),
    ensures
        dsf::parse(b) matches DsfParse::Header(h) && {
            &&& h.sample_rate == low_first(b, 56)
            &&& h.channel_count == low_first(b, 52)
            &&& h.sample_count == low_first(b, 64) + 0x1_0000_0000 * low_first(b, 68)
            &&& h.block_size == low_first(b, 72)
            &&& h.valid_bytes_per_ch == h.sample_count / 8
            &&& h.data_start == 52 + len
        },
{
    reveal(dsf::parse);
    lemma_low_first(b, 32);
    lemma_low_first(b, 52);
    lemma_low_first(b, 56);
    lemma_low_first(b, 64);
    lemma_low_first(b, 72);
    assert(dsf::DSD_MAGIC@ =~= seq![68u8, 83, 68, 32]);
    assert(dsf::FMT_MAGIC@ =~= seq![102u8, 109, 116, 32]);
    assert(dsf::DATA_MAGIC@ =~= seq![100u8, 97, 116, 97]);
    assert(step::id_at(b, 40 + len as int) == b.subrange(40 + len as int, 44 + len as int));
    law_sizes_are_kept(len);
    law_sizes_are_kept(dsf::le_at(b, 64, 8) / 8);
}

/// A header that is cut off needs more bytes than there are, and no more than it has.
pub proof fn law_cut_dsf_header_needs_more(b: Seq<u8>, len: nat)
    requires
        len >= 36,
        52 + len <= usize::MAX,
        40 <= b.len() < 52 + len,
        b.subrange(0, 4) == seq![68u8, 83, 68, 32],
        b.subrange(28, 32) == seq![102u8, 109, 116, 32],
        low_first(b, 32) + 0x1_0000_0000 * low_first(b, 36) == 12 + len,
        b.len() >= 44 + len ==> b.subrange(40 + len as int, 44 + len as int) == seq![
            100u8,
            97,
            116,
            97,
        ],
    ensures
        dsf::parse(b) matches DsfParse::Need(n) && b.len() < n <= 52 + len,
{
    reveal(dsf::parse);
    lemma_low_first(b, 32);
    assert(dsf::DSD_MAGIC@ =~= seq![68u8, 83, 68, 32]);
    assert(dsf::FMT_MAGIC@ =~= seq![102u8, 109, 116, 32]);
    assert(dsf::DATA_MAGIC@ =~= seq![100u8, 97, 116, 97]);
    assert(step::id_at(b, 40 + len as int) == b.subrange(40 + len as int, 44 + len as int));
    law_sizes_are_kept(len);
}

/// A file that starts otherwise is no DSF file, and one whose chunks are others is refused.
pub proof fn law_other_headers_are_refused(b: Seq<u8>)
    requires
        b.len() >= 32,
    ensures
        b.take(4) != seq![68u8, 83, 68, 32] ==> dsf::parse(b) == DsfParse::Refused(
            "not a DSF file: "@ + text::byte_list(b.take(4)),
        ),
        b.take(4) == seq![68u8, 83, 68, 32] && b.subrange(28, 32) != seq![102u8, 109, 116, 32]
            ==> dsf::parse(b) == DsfParse::Refused(
            "expected fmt chunk: "@ + text::byte_list(b.subrange(28, 32)),
        ),
{
    reveal(dsf::parse);
    assert(b.subrange(0, 4) =~= b.take(4));
    assert(dsf::DSD_MAGIC@ =~= seq![68u8, 83, 68, 32]);
    assert(dsf::FMT_MAGIC@ =~= seq![102u8, 109, 116, 32]);
}

/// Block groups of any block size give back the valid bytes of each channel: byte `i` of a
/// channel is that of its block in its group, with its bits reversed.
pub proof fn law_blocks_are_received(
    data: Seq<u8>,
    n: nat,
    block_size: nat,
    valid: nat,
    g: nat,
    ch: int,
    i: int,
)
    requires
        block_size >= 1,
        g * (n * block_size) <= data.len(),
        0 <= ch < n,
        0 <= i < valid,
        i < g * block_size,
    ensures
        ({
            let got = dsf::receive_groups(data, n, block_size, valid, g);
            let bs = block_size as int;
            &&& got.len() == n
            &&& got[ch].len() == (if g * bs < valid {
                g * bs
            } else {
                valid as int
            })
            &&& got[ch][i] == dsf::reversed(data[(i / bs) * (n * bs) + ch * bs + i % bs])
        }),
{
    lemma_received(data, n, block_size, valid, g, ch);
    assert(got_byte(data, n as int, block_size as int, ch, i) == dsf::reversed(
        data[(i / block_size as int) * (n * block_size as int) + ch * block_size as int + i
            % block_size as int],
    ));
}

/// The byte of a channel in its block.
spec fn got_byte(data: Seq<u8>, n: int, bs: int, ch: int, i: int) -> u8 {
    dsf::reversed(data[(i / bs) * (n * bs) + ch * bs + i % bs])
}

proof fn lemma_received(
    data: Seq<u8>,
    n: nat,
    block_size: nat,
    valid: nat,
    g: nat,
    ch: int,
)
    requires
        block_size >= 1,
        g * (n * block_size) <= data.len(),
        0 <= ch < n,
    ensures
        ({
            let got = dsf::receive_groups(data, n, block_size, valid, g);
            let bs = block_size as int;
            let upto = if g * bs < valid {
                g * bs
            } else {
                valid as int
            };
            &&& got.len() == n
            &&& got[ch].len() == upto
            &&& forall|i: int|
                0 <= i < upto ==> #[trigger] got[ch][i] == got_byte(data, n as int, bs, ch, i)
        }),
    decreases g,
{
    let bs = block_size as int;
    let got = dsf::receive_groups(data, n, block_size, valid, g);
    if g == 0 {
        assert(0 * bs == 0);
    } else {
        let h = (g - 1) as nat;
        let w = (n * block_size) as int;
        assert(h * w + w == g * w && h * w >= 0 && h * bs + bs == g * bs && h * bs >= 0)
            by (nonlinear_arith)
            requires
                h == g - 1,
                h >= 0,
                w >= 0,
                bs >= 0,
        ;
        lemma_received(data, n, block_size, valid, h, ch);
        let before = dsf::receive_groups(data, n, block_size, valid, h);
        let group = data.subrange(h * w, h * w + w);
        let had = before[ch].len();
        dsf::lemma_part_len(group, ch, had, block_size, valid, n as int);
        let part = dsf::block_part(group, ch, had, block_size, valid);
        assert(got[ch] == before[ch] + part);
        assert(ch * bs + bs <= w && ch * bs >= 0) by (nonlinear_arith)
            requires
                0 <= ch < n,
                bs >= 0,
                w == n * bs,
        ;
        assert forall|i: int| 0 <= i < got[ch].len() implies #[trigger] got[ch][i] == got_byte(
            data,
            n as int,
            bs,
            ch,
            i,
        ) by {
            if i < had {
                assert(got[ch][i] == before[ch][i]);
            } else {
                let j = i - had;
                assert(had == h * bs);
                assert(part[j] == dsf::reversed(group[ch * bs + j]));
                lemma_fundamental_div_mod_converse(i, bs, h as int, j);
                assert(group[ch * bs + j] == data[h * w + ch * bs + j]);
            }
        }
    }
}

/// Frame `i` of a channel has the bytes from its place on, and zeros behind the last.
pub proof fn law_frame_of_a_channel(channel: Seq<u8>, i: int, frame_bytes: nat, k: int)
    requires
        0 <= i,
        0 <= k < frame_bytes,
    ensures
        dsf::frame_of(channel, i, frame_bytes).len() == frame_bytes,
        ({
            let at = frame_bytes * i + k;
            &&& at < channel.len() ==> dsf::frame_of(channel, i, frame_bytes)[k] == channel[at]
            &&& at >= channel.len() ==> dsf::frame_of(channel, i, frame_bytes)[k] == 0
        }),
{
    assert(frame_bytes * i == i * frame_bytes) by (nonlinear_arith);
}

/// A channel that is too short for a frame is filled up with zeros and otherwise kept.
pub proof fn law_channel_is_filled_up(channel: Seq<u8>, len: nat, i: int)
    requires
        0 <= i,
    ensures
        ({
            let f = dsf::filled(channel, len);
            &&& f.len() >= channel.len()
            &&& f.len() >= len
            &&& f.len() == channel.len() || f.len() == len
            &&& i < channel.len() ==> f[i] == channel[i]
            &&& channel.len() <= i < f.len() ==> f[i] == 0
        }),
{
}

/// A frame that is written follows the bytes of each channel that were written before.
pub proof fn law_channels_are_extended(
    channels: Seq<Seq<u8>>,
    frame: Seq<Vec<u8>>,
    n: nat,
    ch: int,
    i: int,
)
    requires
        0 <= ch < channels.len(),
        channels.len() == frame.len(),
        n <= frame[ch]@.len(),
        0 <= i < channels[ch].len() + n,
    ensures
        ({
            let longer = dsf::extended(channels, dsf::frame_bytes(frame, n as int));
            &&& longer.len() == channels.len()
            &&& longer[ch].len() == channels[ch].len() + n
            &&& longer[ch][i] == (if i < channels[ch].len() {
                channels[ch][i]
            } else {
                frame[ch]@[i - channels[ch].len()]
            })
        }),
{
}

} // verus!

//! Uncompressed DSDIFF streaming reader and writer.

use vstd::arithmetic::div_mod::*;
use vstd::prelude::*;
use vstd::string::*;

use crate::codec::frame;
use crate::error::{CladstError, Result};
use crate::format::dsdiff::chunk;
use crate::format::dsdiff::chunk::{append_be, write_chunk, DSD, FORMAT_VERSION, FRM8, FVER, PROP};
use crate::format::dsdiff::prop;
use crate::format::dsdiff::prop::build_prop_data;
use crate::format::dsdiff::scan;
use crate::format::dsdiff::scan::DsdiffProp;
use crate::format::endian;
use crate::format::endian::be_bytes;
use crate::format::metadata;
use crate::format::metadata::DsdMetadata;
use crate::format::patch;
use crate::format::patch::{FileEnd, Patch};
use crate::format::reader::DsdFrame;
use crate::format::step;
use crate::format::step::has_id;
use crate::format::text;
use crate::format::text::show_id;

verus! {

/// `not compressed\0`.
pub const DSD_NAME: [u8; 15] = [
    110,
    111,
    116,
    32,
    99,
    111,
    109,
    112,
    114,
    101,
    115,
    115,
    101,
    100,
    0,
];

// ---------------------------------------------------------------------------
// Interleaved bytes
// ---------------------------------------------------------------------------

/// The bytes of channels in turn, one by one.
pub fn interleave_slices(channels: &[&[u8]], n_bytes: usize) -> (out: Vec<u8>)
    requires
        forall|ch: int|
            0 <= ch < channels@.len() ==> n_bytes <= (#[trigger] channels@[ch])@.len(),
    ensures
        out@ == frame::interleaved(frame::slices(channels@), n_bytes as nat),
{
    let n: usize = channels.len();
    let ghost all = frame::interleaved(frame::slices(channels@), n_bytes as nat);
    let mut out: Vec<u8> = Vec::new();
    let mut i: usize = 0;
    let ghost mut k: int = 0;
    assert(0 * n == 0);
    while i < n_bytes
        invariant
            i <= n_bytes,
            n == channels@.len(),
            forall|ch: int|
                0 <= ch < channels@.len() ==> n_bytes <= (#[trigger] channels@[ch])@.len(),
            all == frame::interleaved(frame::slices(channels@), n_bytes as nat),
            k == i * n,
            out@ == all.take(k),
        decreases n_bytes - i,
    {
        let mut ch: usize = 0;
        while ch < n
            invariant
                i < n_bytes,
                ch <= n,
                n == channels@.len(),
                forall|c: int|
                    0 <= c < channels@.len() ==> n_bytes <= (#[trigger] channels@[c])@.len(),
                all == frame::interleaved(frame::slices(channels@), n_bytes as nat),
                k == i * n + ch,
                out@ == all.take(k),
            decreases n - ch,
        {
            proof {
                assert(n_bytes <= channels@[ch as int]@.len());
                assert(i * n + ch < n * n_bytes && i * n >= 0) by (nonlinear_arith)
                    requires
                        0 <= i < n_bytes,
                        0 <= ch < n,
                ;
                lemma_fundamental_div_mod_converse(k, n as int, i as int, ch as int);
                assert(frame::slices(channels@)[ch as int] == channels@[ch as int]@);
            }
            out.push(channels[ch][i]);
            proof {
                assert(out@ =~= all.take(k + 1));
                k = k + 1;
            }
            ch = ch + 1;
        }
        i = i + 1;
        proof {
            assert(i * n == (i - 1) * n + n) by (nonlinear_arith);
        }
    }
    proof {
        assert(k == all.len()) by (nonlinear_arith)
            requires
                k == i * n,
                i == n_bytes,
                all.len() == n * n_bytes,
        ;
        assert(all.take(k) =~= all);
    }
    out
}

/// The bytes of channels in turn, one by one.
pub fn interleave(channels: &[Vec<u8>], n_bytes: usize) -> (out: Vec<u8>)
    requires
        forall|ch: int|
            0 <= ch < channels@.len() ==> n_bytes <= (#[trigger] channels@[ch])@.len(),
    ensures
        out@ == frame::interleaved(frame::views8(channels@), n_bytes as nat),
{
    let mut refs: Vec<&[u8]> = Vec::new();
    let mut ch: usize = 0;
    while ch < channels.len()
        invariant
            ch <= channels@.len(),
            refs@.len() == ch,
            forall|c: int| 0 <= c < ch ==> (#[trigger] refs@[c])@ == channels@[c]@,
        decreases channels@.len() - ch,
    {
        refs.push(channels[ch].as_slice());
        ch = ch + 1;
    }
    proof {
        assert(frame::slices(refs@) =~= frame::views8(channels@));
    }
    interleave_slices(refs.as_slice(), n_bytes)
}

// ---------------------------------------------------------------------------
// Uncompressed DSDIFF Writer
// ---------------------------------------------------------------------------

/// The start of a DSDIFF file: FRM8 with the size of what follows, FVER, PROP.
pub open spec fn form_start(
    form_size: nat,
    sample_rate: u32,
    n_channels: nat,
    coding_id: Seq<u8>,
    coding_name: Seq<u8>,
) -> Seq<u8> {
    FRM8@ + endian::be(form_size, 8) + form_rest(sample_rate, n_channels, coding_id, coding_name)
}

/// The start of a DSDIFF file behind the size.
#[verifier::opaque]
pub open spec fn form_rest(
    sample_rate: u32,
    n_channels: nat,
    coding_id: Seq<u8>,
    coding_name: Seq<u8>,
) -> Seq<u8> {
    DSD@ + chunk::chunk(FVER@, endian::be(FORMAT_VERSION as nat, 4)) + chunk::chunk(
        PROP@,
        prop::prop_data(sample_rate, n_channels, coding_id, coding_name),
    )
}

/// The start of a DSDIFF file with a placeholder for the size.
pub fn write_form_start(
    sample_rate: u32,
    n_channels: usize,
    coding_id: &[u8; 4],
    coding_name: &[u8],
) -> (out: Vec<u8>)
    ensures
        out@ == form_start(0, sample_rate, n_channels as nat, coding_id@, coding_name@),
{
    reveal(form_rest);
    // FRM8 header with placeholder size
    let mut out: Vec<u8> = Vec::new();
    out.extend_from_slice(&FRM8);
    proof {
        assert(out@ =~= FRM8@);
    }
    append_be(&mut out, 0, 8);

    let mut rest: Vec<u8> = Vec::new();
    rest.extend_from_slice(&DSD);
    proof {
        assert(rest@ =~= DSD@);
    }
    // FVER chunk
    let version: Vec<u8> = be_bytes(FORMAT_VERSION as u64, 4);
    write_chunk(&mut rest, &FVER, version.as_slice());

    // PROP chunk
    let prop_data: Vec<u8> = build_prop_data(sample_rate, n_channels, coding_id, coding_name);
    write_chunk(&mut rest, &PROP, prop_data.as_slice());

    out.extend_from_slice(rest.as_slice());
    out
}

/// An uncompressed DSDIFF file with these interleaved bytes.
pub open spec fn dsd_file(
    form_size: nat,
    sample_rate: u32,
    n_channels: nat,
    data_size: nat,
    data: Seq<u8>,
) -> Seq<u8> {
    form_start(form_size, sample_rate, n_channels, DSD@, DSD_NAME@) + DSD@ + endian::be(
        data_size,
        8,
    ) + data
}

/// Filling in the two sizes of a DSDIFF file.
pub proof fn lemma_size_patches(
    rest: Seq<u8>,
    data: Seq<u8>,
    form_size: nat,
    data_size: nat,
)
    ensures
        ({
            let z = endian::be(0, 8);
            let f0 = FRM8@ + z + rest + z + data;
            let f1 = patch::overwritten(f0, 4, endian::be(form_size, 8));
            let f2 = patch::overwritten(f1, 12 + rest.len() as int, endian::be(data_size, 8));
            f2 == FRM8@ + endian::be(form_size, 8) + rest + endian::be(data_size, 8) + data
        }),
{
    endian::lemma_be_len(0, 8);
    endian::lemma_be_len(form_size, 8);
    endian::lemma_be_len(data_size, 8);
    let z = endian::be(0, 8);
    let (x, y) = (endian::be(form_size, 8), endian::be(data_size, 8));
    assert(FRM8@ + z + rest + z + data =~= FRM8@ + z + (rest + z + data));
    patch::lemma_overwritten(FRM8@, z, rest + z + data, x);
    assert(FRM8@ + x + (rest + z + data) =~= (FRM8@ + x + rest) + z + data);
    patch::lemma_overwritten(FRM8@ + x + rest, z, data, y);
}

/// Streaming writer for uncompressed DSDIFF output.
///
/// Produces FRM8/DSD form with FVER, PROP (CMPR="DSD "), and DSD sound data chunk. The
/// writer hands out the bytes to append to the file, and at the end those to fill in.
pub struct DsdDsdiffWriter {
    dsd_data_size_offset: u64,
    dsd_data_bytes: u64,
    n_channels: usize,
    end_pos: u64,
    rate: Ghost<u32>,
    data: Ghost<Seq<u8>>,
}

impl DsdDsdiffWriter {
    /// The sample rate of the file.
    pub closed spec fn sample_rate(self) -> u32 {
        self.rate@
    }

    /// The number of channels of the file.
    pub closed spec fn channel_count(self) -> nat {
        self.n_channels as nat
    }

    /// The interleaved bytes of the file so far.
    pub closed spec fn data(self) -> Seq<u8> {
        self.data@
    }

    /// The size that the data chunk is given.
    pub closed spec fn data_size(self) -> nat {
        self.dsd_data_bytes as nat
    }

    /// The bytes of the file so far.
    pub closed spec fn written(self) -> Seq<u8> {
        dsd_file(0, self.rate@, self.n_channels as nat, 0, self.data@)
    }

    /// The writer is in a state that its operations leave behind.
    pub closed spec fn wf(self) -> bool {
        &&& self.end_pos == self.written().len()
        &&& self.dsd_data_size_offset == 16 + form_rest(
            self.rate@,
            self.n_channels as nat,
            DSD@,
            DSD_NAME@,
        ).len()
    }

    /// Create a new uncompressed DSDIFF writer.
    ///
    /// Hands out FRM8 header (placeholder size), FVER, PROP, and DSD data chunk header
    /// (placeholder size). After this, call `write_frame()` for each decoded frame.
    pub fn new(sample_rate: u32, n_channels: usize) -> (r: (Self, Vec<u8>))
        requires
            4 * n_channels + 200 <= u64::MAX,
        ensures
            r.0.wf(),
            r.0.sample_rate() == sample_rate,
            r.0.channel_count() == n_channels,
            r.0.data() == Seq::<u8>::empty(),
            r.0.data_size() == 0,
            r.1@ == r.0.written(),
            r.1@ == dsd_file(0, sample_rate, n_channels as nat, 0, Seq::empty()),
    {
        let mut out: Vec<u8> = write_form_start(sample_rate, n_channels, &DSD, &DSD_NAME);
        // DSD sound data chunk header with placeholder size
        out.extend_from_slice(&DSD);
        let dsd_data_size_offset: u64 = out.len() as u64;
        proof {
            endian::lemma_be_len(0, 8);
            lemma_form_rest_len(sample_rate, n_channels as nat, DSD@, DSD_NAME@);
        }
        append_be(&mut out, 0, 8);
        let end_pos: u64 = out.len() as u64;
        let w = DsdDsdiffWriter {
            dsd_data_size_offset,
            dsd_data_bytes: 0,
            n_channels,
            end_pos,
            rate: Ghost(sample_rate),
            data: Ghost(Seq::empty()),
        };
        proof {
            assert(out@ =~= w.written());
        }
        (w, out)
    }

    /// Write decoded DSD data for one frame as interleaved channel bytes.
    pub fn write_frame(&mut self, decoded_channels: &[Vec<u8>], frame_bytes_per_ch: usize) -> (out:
        Vec<u8>)
        requires
            old(self).wf(),
            forall|ch: int|
                0 <= ch < decoded_channels@.len() ==> frame_bytes_per_ch <= (
                #[trigger] decoded_channels@[ch])@.len(),
            frame_bytes_per_ch * old(self).channel_count() <= usize::MAX,
            old(self).data_size() + frame_bytes_per_ch * old(self).channel_count() <= u64::MAX,
            old(self).written().len() + decoded_channels@.len() * frame_bytes_per_ch <= u64::MAX,
        ensures
            final(self).wf(),
            final(self).sample_rate() == old(self).sample_rate(),
            final(self).channel_count() == old(self).channel_count(),
            out@ == frame::interleaved(
                frame::views8(decoded_channels@),
                frame_bytes_per_ch as nat,
            ),
            final(self).data() == old(self).data() + out@,
            final(self).data_size() == old(self).data_size() + frame_bytes_per_ch * old(
                self,
            ).channel_count(),
            final(self).written() == old(self).written() + out@,
    {
        let out: Vec<u8> = interleave(decoded_channels, frame_bytes_per_ch);
        self.dsd_data_bytes = self.dsd_data_bytes + (frame_bytes_per_ch * self.n_channels) as u64;
        self.end_pos = self.end_pos + out.len() as u64;
        proof {
            self.data@ = self.data@ + out@;
            assert(self.written() =~= old(self).written() + out@);
        }
        out
    }

    /// Finalize: fill in FRM8 and DSD data chunk sizes.
    pub fn finish(self) -> (end: FileEnd)
        requires
            self.wf(),
        ensures
            end.tail@.len() == 0,
            self.written() == dsd_file(
                0,
                self.sample_rate(),
                self.channel_count(),
                0,
                self.data(),
            ),
            end.complete(self.written()) == dsd_file(
                (self.written().len() - 12) as nat,
                self.sample_rate(),
                self.channel_count(),
                self.data_size(),
                self.data(),
            ),
    {
        proof {
            lemma_dsd_file_len(0, self.rate@, self.n_channels as nat, 0, self.data@);
        }
        // FRM8 size = everything after FRM8 id(4) + size(8) = 12 bytes
        let frm8_size: u64 = self.end_pos - 12;
        let mut patches: Vec<Patch> = Vec::new();
        patches.push(Patch { offset: 4, bytes: be_bytes(frm8_size, 8) });
        // DSD data chunk size
        patches.push(
            Patch { offset: self.dsd_data_size_offset, bytes: be_bytes(self.dsd_data_bytes, 8) },
        );
        let end = FileEnd { tail: Vec::new(), patches };
        proof {
            let rest = form_rest(self.rate@, self.n_channels as nat, DSD@, DSD_NAME@) + DSD@;
            let z = endian::be(0, 8);
            assert(self.written() + end.tail@ =~= FRM8@ + z + rest + z + self.data@);
            lemma_size_patches(
                rest,
                self.data@,
                frm8_size as nat,
                self.dsd_data_bytes as nat,
            );
            reveal_with_fuel(patch::patched, 3);
            assert(FRM8@ + endian::be(frm8_size as nat, 8) + rest + endian::be(
                self.dsd_data_bytes as nat,
                8,
            ) + self.data@ =~= dsd_file(
                frm8_size as nat,
                self.rate@,
                self.n_channels as nat,
                self.dsd_data_bytes as nat,
                self.data@,
            ));
        }
        end
    }
}

/// The length of the start of a DSDIFF file behind the size.
pub proof fn lemma_form_rest_len(
    sample_rate: u32,
    n_channels: nat,
    coding_id: Seq<u8>,
    coding_name: Seq<u8>,
)
    requires
        coding_id.len() == 4,
    ensures
        form_rest(sample_rate, n_channels, coding_id, coding_name).len() <= 4 * n_channels
            + coding_name.len() + 100,
        prop::prop_data(sample_rate, n_channels, coding_id, coding_name).len() == 4 + 16
            + chunk::chunk_len(2 + 4 * n_channels) + chunk::chunk_len(5 + coding_name.len()),
{
    reveal(form_rest);
    reveal(prop::prop_data);
    endian::lemma_be_len(sample_rate as nat, 4);
    endian::lemma_be_len(FORMAT_VERSION as nat, 4);
    endian::lemma_be_len(n_channels, 2);
    prop::lemma_channel_ids_len(n_channels, n_channels);
    chunk::lemma_chunk_len(chunk::FS@, endian::be(sample_rate as nat, 4));
    chunk::lemma_chunk_len(chunk::CHNL@, prop::chnl_data(n_channels));
    chunk::lemma_chunk_len(chunk::CMPR@, prop::coding_data(coding_id, coding_name));
    chunk::lemma_chunk_len(FVER@, endian::be(FORMAT_VERSION as nat, 4));
    chunk::lemma_chunk_len(
        PROP@,
        prop::prop_data(sample_rate, n_channels, coding_id, coding_name),
    );
}

pub proof fn lemma_dsd_file_len(
    form_size: nat,
    sample_rate: u32,
    n_channels: nat,
    data_size: nat,
    data: Seq<u8>,
)
    ensures
        dsd_file(form_size, sample_rate, n_channels, data_size, data).len() == 24 + form_rest(
            sample_rate,
            n_channels,
            DSD@,
            DSD_NAME@,
        ).len() + data.len(),
{
    endian::lemma_be_len(form_size, 8);
    endian::lemma_be_len(data_size, 8);
}

// ---------------------------------------------------------------------------
// The start of a file, searched
// ---------------------------------------------------------------------------

/// What the PROP chunk of a file says.
pub open spec fn file_props(sample_rate: u32, n_channels: nat, coding_id: Seq<u8>) -> scan::Props {
    scan::Props { sample_rate: sample_rate as nat, n_channels, compression: coding_id }
}

/// The data of a PROP chunk reads back, wherever it stands and whatever the compression is
/// called: the sample rate, the channels and the compression.
pub proof fn law_prop_chunk_reads_back(
    file: Seq<u8>,
    start: nat,
    sample_rate: u32,
    n_channels: nat,
    coding_id: Seq<u8>,
    coding_name: Seq<u8>,
)
    requires
        n_channels <= 0xffff,
        coding_id.len() == 4,
        start + prop::prop_data(sample_rate, n_channels, coding_id, coding_name).len()
            <= u64::MAX,
        chunk::stands(
            file,
            start,
            prop::prop_data(sample_rate, n_channels, coding_id, coding_name),
        ),
    ensures
        scan::prop_chunk(
            file,
            start,
            prop::prop_data(sample_rate, n_channels, coding_id, coding_name).len(),
        ) == scan::PropParse::Parsed(file_props(sample_rate, n_channels, coding_id)),
{
    let d1 = endian::be(sample_rate as nat, 4);
    let d2 = prop::chnl_data(n_channels);
    let d3 = prop::coding_data(coding_id, coding_name);
    let p1 = start + 4;
    let p2 = p1 + chunk::chunk_len(d1.len());
    let p3 = p2 + chunk::chunk_len(d2.len());
    let end = p3 + chunk::chunk_len(d3.len());
    lemma_prop_layout(file, start, sample_rate, n_channels, coding_id, coding_name);
    chunk::lemma_chunk_stands(file, p1, chunk::FS@, d1);
    chunk::lemma_chunk_stands(file, p2, chunk::CHNL@, d2);
    chunk::lemma_chunk_stands(file, p3, chunk::CMPR@, d3);
    endian::lemma_pow256();
    endian::lemma_be_round_trip(sample_rate as nat, 4);
    endian::lemma_be_round_trip(n_channels, 2);
    endian::lemma_be_len(n_channels, 2);
    scan::lemma_ids_differ();
    // The fields
    chunk::lemma_stands_prefix(file, p2 + 12, d2, 2);
    assert(d2.take(2) =~= endian::be(n_channels, 2));
    chunk::lemma_stands_prefix(file, p3 + 12, d3, 4);
    assert(d3.take(4) =~= coding_id);
    // The three steps
    let q0 = scan::no_props();
    let q1 = scan::Props { sample_rate: sample_rate as nat, ..q0 };
    let q2 = scan::Props { n_channels, ..q1 };
    let q3 = scan::Props { compression: coding_id, ..q2 };
    assert(scan::sub_chunks(file, end, end, q3) == scan::PropParse::Parsed(q3));
    assert(scan::sub_chunks(file, p3, end, q2) == scan::sub_chunks(file, end, end, q3));
    assert(scan::sub_chunks(file, p2, end, q1) == scan::sub_chunks(file, p3, end, q2));
    assert(scan::sub_chunks(file, p1, end, q0) == scan::sub_chunks(file, p2, end, q1));
}

/// Where the sub-chunks of a PROP chunk stand.
proof fn lemma_prop_layout(
    file: Seq<u8>,
    start: nat,
    sample_rate: u32,
    n_channels: nat,
    coding_id: Seq<u8>,
    coding_name: Seq<u8>,
)
    requires
        coding_id.len() == 4,
        chunk::stands(
            file,
            start,
            prop::prop_data(sample_rate, n_channels, coding_id, coding_name),
        ),
    ensures
        ({
            let d1 = endian::be(sample_rate as nat, 4);
            let d2 = prop::chnl_data(n_channels);
            let d3 = prop::coding_data(coding_id, coding_name);
            let p2 = start + 4 + chunk::chunk_len(d1.len());
            let p3 = p2 + chunk::chunk_len(d2.len());
            let all = prop::prop_data(sample_rate, n_channels, coding_id, coding_name);
            &&& d1.len() == 4
            &&& d2.len() == 2 + 4 * n_channels
            &&& d3.len() == 5 + coding_name.len()
            &&& start + all.len() == p3 + chunk::chunk_len(d3.len())
            &&& scan::part(file, start, 4) is Some
            &&& chunk::stands(file, start + 4, chunk::chunk(chunk::FS@, d1))
            &&& chunk::stands(file, p2, chunk::chunk(chunk::CHNL@, d2))
            &&& chunk::stands(file, p3, chunk::chunk(chunk::CMPR@, d3))
        }),
{
    reveal(prop::prop_data);
    let d1 = endian::be(sample_rate as nat, 4);
    let d2 = prop::chnl_data(n_channels);
    let d3 = prop::coding_data(coding_id, coding_name);
    let c1 = chunk::chunk(chunk::FS@, d1);
    let c2 = chunk::chunk(chunk::CHNL@, d2);
    let c3 = chunk::chunk(chunk::CMPR@, d3);
    endian::lemma_be_len(sample_rate as nat, 4);
    endian::lemma_be_len(n_channels, 2);
    prop::lemma_channel_ids_len(n_channels, n_channels);
    chunk::lemma_chunk_len(chunk::FS@, d1);
    chunk::lemma_chunk_len(chunk::CHNL@, d2);
    chunk::lemma_chunk_len(chunk::CMPR@, d3);
    chunk::lemma_stands_concat(file, start, chunk::SND@ + c1 + c2, c3);
    chunk::lemma_stands_concat(file, start, chunk::SND@ + c1, c2);
    chunk::lemma_stands_concat(file, start, chunk::SND@, c1);
}

/// A search at the data of a PROP chunk takes in what the chunk says, and goes on behind it.
pub proof fn law_prop_chunk_is_searched(
    search: scan::Search,
    file: Seq<u8>,
    start: nat,
    sample_rate: u32,
    n_channels: nat,
    coding_id: Seq<u8>,
    coding_name: Seq<u8>,
)
    requires
        n_channels <= 0xffff,
        coding_id.len() == 4,
        start + prop::prop_data(sample_rate, n_channels, coding_id, coding_name).len()
            <= u64::MAX,
        chunk::stands(
            file,
            start,
            prop::prop_data(sample_rate, n_channels, coding_id, coding_name),
        ),
        search.place == (scan::Place::PropForm {
            start,
            size: prop::prop_data(sample_rate, n_channels, coding_id, coding_name).len(),
        }),
    ensures
        ({
            let size = prop::prop_data(sample_rate, n_channels, coding_id, coding_name).len();
            &&& search.resume(file) == scan::scan_on(
                file,
                search.target,
                start,
                size,
                Some(file_props(sample_rate, n_channels, coding_id)),
                search.offset,
                search.size,
            )
            &&& scan::next_chunk(start, size) == Some(start + size)
        }),
{
    lemma_form_rest_len(sample_rate, n_channels, coding_id, coding_name);
    law_prop_chunk_reads_back(file, start, sample_rate, n_channels, coding_id, coding_name);
}

/// Where the chunks at the start of a file stand.
proof fn lemma_form_layout(
    file: Seq<u8>,
    form_size: nat,
    sample_rate: u32,
    n_channels: nat,
    coding_id: Seq<u8>,
    coding_name: Seq<u8>,
)
    requires
        coding_id.len() == 4,
        chunk::stands(
            file,
            0,
            form_start(form_size, sample_rate, n_channels, coding_id, coding_name),
        ),
    ensures
        ({
            let props = prop::prop_data(sample_rate, n_channels, coding_id, coding_name);
            let start = form_start(form_size, sample_rate, n_channels, coding_id, coding_name);
            &&& chunk::stands(file, 16, chunk::chunk(FVER@, endian::be(FORMAT_VERSION as nat, 4)))
            &&& chunk::stands(file, 32, chunk::chunk(PROP@, props))
            &&& props.len() % 2 == 0
            &&& start.len() == 44 + props.len()
        }),
{
    reveal(form_rest);
    let version = endian::be(FORMAT_VERSION as nat, 4);
    let props = prop::prop_data(sample_rate, n_channels, coding_id, coding_name);
    endian::lemma_be_len(form_size, 8);
    endian::lemma_be_len(FORMAT_VERSION as nat, 4);
    lemma_form_rest_len(sample_rate, n_channels, coding_id, coding_name);
    chunk::lemma_chunk_len(FVER@, version);
    chunk::lemma_chunk_len(PROP@, props);
    lemma_chunks_stand(
        file,
        endian::be(form_size, 8),
        chunk::chunk(FVER@, version),
        chunk::chunk(PROP@, props),
    );
}

/// Two chunks behind the head of a form.
proof fn lemma_chunks_stand(file: Seq<u8>, size: Seq<u8>, c1: Seq<u8>, c2: Seq<u8>)
    requires
        size.len() == 8,
        c1.len() == 16,
        chunk::stands(file, 0, FRM8@ + size + (DSD@ + c1 + c2)),
    ensures
        chunk::stands(file, 16, c1),
        chunk::stands(file, 32, c2),
{
    chunk::lemma_stands_concat(file, 0, FRM8@ + size, DSD@ + c1 + c2);
    chunk::lemma_stands_concat(file, 12, DSD@ + c1, c2);
    chunk::lemma_stands_concat(file, 12, DSD@, c1);
}

/// The search comes past the start of a file with the properties found.
pub proof fn lemma_form_scans(
    file: Seq<u8>,
    target: Seq<u8>,
    form_size: nat,
    sample_rate: u32,
    n_channels: nat,
    coding_id: Seq<u8>,
    coding_name: Seq<u8>,
)
    requires
        n_channels <= 0xffff,
        coding_id.len() == 4,
        coding_name.len() <= 255,
        target != FVER@,
        chunk::stands(
            file,
            0,
            form_start(form_size, sample_rate, n_channels, coding_id, coding_name),
        ),
    ensures
        scan::scan_file(file, target) == scan::scan(
            file,
            target,
            form_start(form_size, sample_rate, n_channels, coding_id, coding_name).len(),
            Some(file_props(sample_rate, n_channels, coding_id)),
            0,
            0,
        ),
{
    let version = endian::be(FORMAT_VERSION as nat, 4);
    let props = prop::prop_data(sample_rate, n_channels, coding_id, coding_name);
    endian::lemma_be_len(FORMAT_VERSION as nat, 4);
    lemma_form_rest_len(sample_rate, n_channels, coding_id, coding_name);
    lemma_form_layout(file, form_size, sample_rate, n_channels, coding_id, coding_name);
    chunk::lemma_chunk_stands(file, 16, FVER@, version);
    chunk::lemma_chunk_stands(file, 32, PROP@, props);
    law_prop_chunk_reads_back(file, 44, sample_rate, n_channels, coding_id, coding_name);
    lemma_two_chunks_scan(
        file,
        target,
        props.len(),
        file_props(sample_rate, n_channels, coding_id),
    );
}

/// The search past a FVER chunk and a PROP chunk.
proof fn lemma_two_chunks_scan(file: Seq<u8>, target: Seq<u8>, size: nat, p: scan::Props)
    requires
        target != FVER@,
        size % 2 == 0,
        44 + size <= u64::MAX,
        scan::part(file, 16, 12) == Some(chunk::chunk_header(FVER@, 4)),
        scan::part(file, 32, 12) == Some(chunk::chunk_header(PROP@, size)),
        scan::prop_chunk(file, 44, size) == scan::PropParse::Parsed(p),
    ensures
        scan::scan_file(file, target) == scan::scan(file, target, 44 + size, Some(p), 0, 0),
{
    reveal(scan::scan_file);
    chunk::lemma_header_parts(FVER@, 4);
    chunk::lemma_header_parts(PROP@, size);
    assert(FVER@[0] != PROP@[0]);
    assert(scan::scan_on(file, target, 44, size, Some(p), 0, 0) == scan::scan(
        file,
        target,
        44 + size,
        Some(p),
        0,
        0,
    ));
    assert(scan::scan(file, target, 32, None, 0, 0) == scan::scan_on(
        file,
        target,
        44,
        size,
        Some(p),
        0,
        0,
    ));
    assert(scan::scan_on(file, target, 28, 4, None, 0, 0) == scan::scan(
        file,
        target,
        32,
        None,
        0,
        0,
    ));
    assert(scan::scan(file, target, 16, None, 0, 0) == scan::scan_on(
        file,
        target,
        28,
        4,
        None,
        0,
        0,
    ));
}

// ---------------------------------------------------------------------------
// Uncompressed DSDIFF Streaming Reader
// ---------------------------------------------------------------------------

/// The channels of interleaved bytes, each filled up with zeros to a length.
pub open spec fn deinterleaved(data: Seq<u8>, n_channels: nat, frame_bytes: nat) -> Seq<Seq<u8>> {
    Seq::new(
        n_channels,
        |ch: int|
            Seq::new(
                frame_bytes,
                |i: int|
                    if i * n_channels + ch < data.len() {
                        data[i * n_channels + ch]
                    } else {
                        0
                    },
            ),
    )
}

/// The bytes of frame `i` of interleaved data.
pub open spec fn frame_data(data: Seq<u8>, i: nat, size: nat) -> Seq<u8> {
    let end = (i + 1) * size;
    data.subrange(
        (i * size) as int,
        if end < data.len() {
            end as int
        } else {
            data.len() as int
        },
    )
}

/// Taking interleaved bytes apart gives the channels back.
pub proof fn law_deinterleave_inverts(channels: Seq<Seq<u8>>, n_bytes: nat)
    requires
        forall|ch: int|
            0 <= ch < channels.len() ==> n_bytes <= (#[trigger] channels[ch]).len(),
    ensures
        deinterleaved(frame::interleaved(channels, n_bytes), channels.len(), n_bytes)
            == channels.map_values(|c: Seq<u8>| c.take(n_bytes as int)),
{
    let n = channels.len() as int;
    let data = frame::interleaved(channels, n_bytes);
    let got = deinterleaved(data, channels.len(), n_bytes);
    let want = channels.map_values(|c: Seq<u8>| c.take(n_bytes as int));
    assert forall|ch: int| 0 <= ch < n implies got[ch] =~= want[ch] by {
        assert(n_bytes <= channels[ch].len());
        assert forall|i: int| 0 <= i < n_bytes implies got[ch][i] == want[ch][i] by {
            assert(0 <= i * n && i * n + ch < n * n_bytes) by (nonlinear_arith)
                requires
                    0 <= i < n_bytes,
                    0 <= ch < n,
            ;
            lemma_fundamental_div_mod_converse(i * n + ch, n, i, ch);
        }
    }
    assert(got =~= want);
}

/// A byte of a channel in a frame of any data: the bytes of the channels stand side by side,
/// and what is missing behind the end of the data is zero.
pub proof fn law_frame_of_data(
    data: Seq<u8>,
    n_channels: nat,
    frame_bytes: nat,
    j: nat,
    ch: int,
    i: int,
)
    requires
        0 <= ch < n_channels,
        0 <= i < frame_bytes,
        j * (n_channels * frame_bytes) <= data.len(),
    ensures
        ({
            let f = deinterleaved(
                frame_data(data, j, n_channels * frame_bytes),
                n_channels,
                frame_bytes,
            );
            let at = (j * frame_bytes + i) * n_channels + ch;
            &&& f.len() == n_channels
            &&& f[ch].len() == frame_bytes
            &&& f[ch][i] == (if at < data.len() {
                data[at]
            } else {
                0
            })
        }),
{
    let size = n_channels * frame_bytes;
    let at = (j * frame_bytes + i) * n_channels + ch;
    assert((j + 1) * size == j * size + size) by (nonlinear_arith);
    assert(at == j * size + (i * n_channels + ch)) by (nonlinear_arith)
        requires
            at == (j * frame_bytes + i) * n_channels + ch,
            size == n_channels * frame_bytes,
    ;
    assert(0 <= j * size && 0 <= i * n_channels && i * n_channels + ch < size)
        by (nonlinear_arith)
        requires
            0 <= i < frame_bytes,
            0 <= ch < n_channels,
            size == n_channels * frame_bytes,
            j >= 0,
    ;
}

/// Streaming reader for uncompressed DSDIFF input.
///
/// Made from what the search for the chunks found, yields one DSD frame at a time.
/// DSDIFF stores byte-interleaved data (CH0_b0, CH1_b0, CH0_b1, CH1_b1, ...),
/// so each frame is read as `frame_bytes_per_ch * n_channels` contiguous bytes
/// and deinterleaved.
#[derive(Debug)]
pub struct DsdDsdiffStreamReader {
    metadata: DsdMetadata,
    n_channels: usize,
    /// Total bytes of DSD data available in the file.
    data_size: u64,
    /// Bytes already consumed from the data section.
    bytes_consumed: u64,
    frames_yielded: usize,
}

/// What is to be read for the next frame.
#[derive(Debug)]
pub enum FrameRead {
    /// All frames have been read.
    End,
    /// So many bytes, behind those read before.
    Read(usize),
    /// The size of a frame cannot be counted.
    Overflow,
}

/// What comes of opening an uncompressed DSDIFF file.
pub enum Opened {
    /// The total number of samples per channel.
    Samples(nat),
    Refused(Seq<char>),
    Stuck,
}

/// What comes of opening an uncompressed DSDIFF file with these properties.
pub open spec fn open_dsd(p: scan::Props, data_size: nat) -> Opened {
    if p.compression != DSD@ {
        Opened::Refused(
            "unsupported DSDIFF compression: "@ + text::id_text(p.compression)
                + " (only uncompressed DSD is supported)"@,
        )
    } else if p.sample_rate == 0 || p.n_channels == 0 || data_size == 0 {
        Opened::Refused("incomplete DSDIFF: missing FS, CHNL, or DSD data chunk"@)
    } else if 8 * (data_size / p.n_channels) > u64::MAX || p.sample_rate / 75 / 8 == 0 {
        Opened::Stuck
    } else {
        Opened::Samples(8 * (data_size / p.n_channels))
    }
}

impl DsdDsdiffStreamReader {
    /// The audio metadata.
    pub closed spec fn meta(self) -> DsdMetadata {
        self.metadata
    }

    /// Total bytes of DSD data.
    pub closed spec fn total(self) -> nat {
        self.data_size as nat
    }

    /// Bytes already read.
    pub closed spec fn consumed(self) -> nat {
        self.bytes_consumed as nat
    }

    /// Number of frames already yielded.
    pub closed spec fn yielded(self) -> nat {
        self.frames_yielded as nat
    }

    /// The reader is in a state that its operations leave behind.
    pub closed spec fn wf(self) -> bool {
        let before = self.frames_yielded * self.frame_size();
        &&& self.bytes_consumed == (if before < self.data_size {
            before
        } else {
            self.data_size as int
        })
        &&& self.metadata.n_channels == self.n_channels
        &&& self.n_channels > 0
        &&& self.metadata.frame_bytes_per_ch > 0
        &&& self.metadata.n_frames == metadata::ceil_div(
            endian::size_value((self.data_size / self.n_channels as u64) as nat) as int,
            self.metadata.frame_bytes_per_ch as int,
        )
        &&& self.frames_yielded <= self.metadata.n_frames
    }

    /// How many bytes a whole frame takes.
    pub open spec fn frame_size(self) -> nat {
        (self.meta().n_channels * self.meta().frame_bytes_per_ch) as nat
    }

    /// How many bytes the next frame takes, none at the end.
    pub open spec fn next_size(self) -> nat {
        let size = self.frame_size();
        let left = self.total() - self.consumed();
        if self.yielded() >= self.meta().n_frames {
            0
        } else if size < left {
            size as nat
        } else {
            left as nat
        }
    }

    /// Open a DSDIFF file for streaming reading, given what the search for the chunks
    /// found; nothing where no metadata can be made of it.
    ///
    /// Validates CMPR="DSD ".
    pub fn new(prop: &DsdiffProp, data_size: u64) -> (r: Option<Result<Self>>)
        ensures
            match open_dsd(prop@, data_size as nat) {
                Opened::Samples(n) => r matches Some(Ok(d)) && d.wf() && d.meta().of(
                    prop.sample_rate,
                    prop.n_channels,
                    n as u64,
                ) && d.total() == data_size && d.consumed() == 0 && d.yielded() == 0,
                Opened::Refused(m) => r matches Some(Err(e)) && step::format_error(e, m),
                Opened::Stuck => r is None,
            },
    {
        if !has_id(&prop.compression, 0, &DSD) {
            proof {
                assert(step::id_at(prop.compression@, 0) =~= prop.compression@);
            }
            let mut m: String = "unsupported DSDIFF compression: ".to_owned();
            m.append(show_id(&prop.compression).as_str());
            m.append(" (only uncompressed DSD is supported)");
            return Some(Err(CladstError::Format(m)));
        }
        proof {
            assert(step::id_at(prop.compression@, 0) =~= prop.compression@);
        }
        if prop.sample_rate == 0 || prop.n_channels == 0 || data_size == 0 {
            return Some(
                Err(
                    CladstError::Format(
                        "incomplete DSDIFF: missing FS, CHNL, or DSD data chunk".to_owned(),
                    ),
                ),
            );
        }
        let bytes_per_ch: u64 = data_size / prop.n_channels as u64;
        let total_samples: u64 = match bytes_per_ch.checked_mul(8) {
            Some(n) => n,
            None => {
                return None;
            },
        };
        if prop.sample_rate / 75 / 8 == 0 {
            return None;
        }
        let metadata: DsdMetadata = DsdMetadata::from_params(
            prop.sample_rate,
            prop.n_channels,
            total_samples,
        );
        proof {
            let size = prop.n_channels * metadata.frame_bytes_per_ch;
            assert(0 * size == 0);
        }
        Some(
            Ok(
                Self {
                    metadata,
                    n_channels: prop.n_channels,
                    data_size,
                    bytes_consumed: 0,
                    frames_yielded: 0,
                },
            ),
        )
    }

    /// Audio metadata.
    pub fn metadata(&self) -> (m: &DsdMetadata)
        ensures
            *m == self.meta(),
    {
        &self.metadata
    }

    /// What is to be read for the next frame.
    pub fn next_read(&self) -> (r: FrameRead)
        requires
            self.wf(),
        ensures
            match r {
                FrameRead::End => self.yielded() >= self.meta().n_frames || (self.consumed()
                    == self.total() && self.meta().frame_bytes_per_ch * self.meta().n_channels
                    <= usize::MAX),
                FrameRead::Read(n) => self.yielded() < self.meta().n_frames && self.consumed()
                    < self.total() && n == self.next_size()
                    && self.meta().frame_bytes_per_ch * self.meta().n_channels <= usize::MAX,
                FrameRead::Overflow => self.yielded() < self.meta().n_frames
                    && self.meta().frame_bytes_per_ch * self.meta().n_channels > usize::MAX,
            },
    {
        if self.frames_yielded >= self.metadata.n_frames {
            return FrameRead::End;
        }
        proof {
            let (fb, n) = (self.metadata.frame_bytes_per_ch as int, self.n_channels as int);
            assert(fb * n == n * fb) by (nonlinear_arith);
        }
        let remaining: u64 = self.data_size - self.bytes_consumed;
        match self.metadata.frame_bytes_per_ch.checked_mul(self.n_channels) {
            None => FrameRead::Overflow,
            Some(interleaved_size) => {
                if remaining == 0 {
                    FrameRead::End
                } else if (interleaved_size as u64) < remaining {
                    FrameRead::Read(interleaved_size)
                } else {
                    // May be less for the last frame
                    FrameRead::Read(remaining as usize)
                }
            },
        }
    }

    /// The next frame, from the bytes that were asked for.
    pub fn accept_frame(&mut self, buf: &[u8]) -> (f: DsdFrame)
        requires
            old(self).wf(),
            old(self).yielded() < old(self).meta().n_frames,
            buf@.len() == old(self).next_size(),
        ensures
            final(self).wf(),
            final(self).meta() == old(self).meta(),
            final(self).total() == old(self).total(),
            final(self).consumed() == old(self).consumed() + buf@.len(),
            final(self).yielded() == old(self).yielded() + 1,
            f@ == deinterleaved(
                buf@,
                old(self).meta().n_channels as nat,
                old(self).meta().frame_bytes_per_ch as nat,
            ),
    {
        let frame_bytes: usize = self.metadata.frame_bytes_per_ch;
        let n: usize = self.n_channels;
        let len: usize = buf.len();
        let ghost want = deinterleaved(buf@, n as nat, frame_bytes as nat);
        proof {
            let (y, size) = (self.frames_yielded as int, self.frame_size() as int);
            assert((y + 1) * size == y * size + size) by (nonlinear_arith);
            assert(frame_bytes * n == size) by (nonlinear_arith)
                requires
                    size == n * frame_bytes,
            ;
        }
        self.bytes_consumed = self.bytes_consumed + len as u64;

        // Deinterleave into per-channel vectors
        let mut channels: Vec<Vec<u8>> = Vec::new();
        let mut ch: usize = 0;
        while ch < n
            invariant
                ch <= n,
                n > 0,
                len == buf@.len(),
                len <= frame_bytes * n,
                want == deinterleaved(buf@, n as nat, frame_bytes as nat),
                channels@.len() == ch,
                forall|c: int| 0 <= c < ch ==> (#[trigger] channels@[c])@ == want[c],
            decreases n - ch,
        {
            let mut channel: Vec<u8> = Vec::new();
            let mut i: usize = 0;
            // Where the next byte of the channel stands; bytes that are missing are zero
            let mut at: usize = ch;
            proof {
                assert(0 * n == 0);
            }
            while i < frame_bytes
                invariant
                    i <= frame_bytes,
                    ch < n,
                    len == buf@.len(),
                    want == deinterleaved(buf@, n as nat, frame_bytes as nat),
                    at == i * n + ch || (at >= len && i * n + ch >= len),
                    channel@.len() == i,
                    forall|k: int| 0 <= k < i ==> #[trigger] channel@[k] == want[ch as int][k],
                decreases frame_bytes - i,
            {
                proof {
                    assert((i + 1) * n == i * n + n) by (nonlinear_arith);
                }
                if at < len {
                    channel.push(buf[at]);
                    if len - at > n {
                        at = at + n;
                    } else {
                        at = len;
                    }
                } else {
                    channel.push(0);
                }
                i = i + 1;
            }
            proof {
                assert(channel@ =~= want[ch as int]);
            }
            channels.push(channel);
            ch = ch + 1;
        }
        self.frames_yielded = self.frames_yielded + 1;
        proof {
            let f = DsdFrame { channels };
            assert(f@ =~= want);
        }
        DsdFrame { channels }
    }
}

impl DsdDsdiffStreamReader {
    /// Read the next frame of data that is in memory.
    ///
    /// The bytes of a frame have to be countable.
    pub fn next_frame(&mut self, data: &[u8]) -> (r: Option<DsdFrame>)
        requires
            old(self).wf(),
            data@.len() == old(self).total(),
            old(self).frame_size() <= usize::MAX,
        ensures
            final(self).wf(),
            final(self).meta() == old(self).meta(),
            final(self).total() == old(self).total(),
            r is Some <==> old(self).yielded() < old(self).meta().n_frames,
            r is None ==> *final(self) == *old(self),
            r matches Some(f) ==> final(self).yielded() == old(self).yielded() + 1 && f@
                == deinterleaved(
                frame_data(data@, old(self).yielded(), old(self).frame_size()),
                old(self).meta().n_channels as nat,
                old(self).meta().frame_bytes_per_ch as nat,
            ),
    {
        proof {
            let (fb, n) = (self.metadata.frame_bytes_per_ch as int, self.n_channels as int);
            assert(fb * n == n * fb) by (nonlinear_arith);
            if self.yielded() < self.meta().n_frames {
                lemma_bytes_are_left(*self);
                law_reader_takes_frames(*self, data@);
            }
        }
        match self.next_read() {
            FrameRead::Read(n) => {
                let len: usize = data.len();
                assert(self.bytes_consumed + n <= len);
                let at: usize = self.bytes_consumed as usize;
                Some(self.accept_frame(vstd::slice::slice_subrange(data, at, at + n)))
            },
            _ => None,
        }
    }
}

/// As long as there are frames to come there are bytes to come.
proof fn lemma_bytes_are_left(reader: DsdDsdiffStreamReader)
    requires
        reader.wf(),
        reader.yielded() < reader.meta().n_frames,
    ensures
        reader.consumed() < reader.total(),
{
    let (n, fb) = (reader.n_channels as int, reader.metadata.frame_bytes_per_ch as int);
    let (total, y) = (reader.data_size as int, reader.frames_yielded as int);
    let frames = reader.metadata.n_frames as int;
    let per_ch = total / n;
    let a = endian::size_value(per_ch as nat) as int;
    lemma_mod_decreases(per_ch as nat, usize::MAX as nat + 1);
    metadata::lemma_ceil_div(a, fb);
    lemma_fundamental_div_mod(total, n);
    lemma_mod_bound(total, n);
    assert(y * fb < per_ch) by (nonlinear_arith)
        requires
            y + 1 <= frames,
            frames * fb < a + fb,
            a <= per_ch,
            fb > 0,
    ;
    assert(y * (n * fb) < total) by (nonlinear_arith)
        requires
            y * fb < per_ch,
            n * per_ch <= total,
            n > 0,
    ;
}

/// The bytes that a reader takes next are those of the frame with the number of the frames
/// read before, the last of which may be short.
pub proof fn law_reader_takes_frames(reader: DsdDsdiffStreamReader, data: Seq<u8>)
    requires
        reader.wf(),
        data.len() == reader.total(),
        reader.yielded() < reader.meta().n_frames,
        reader.consumed() < reader.total(),
    ensures
        data.subrange(
            reader.consumed() as int,
            (reader.consumed() + reader.next_size()) as int,
        ) == frame_data(data, reader.yielded(), reader.frame_size()),
        reader.consumed() == reader.yielded() * reader.frame_size(),
{
    let (y, size) = (reader.yielded() as int, reader.frame_size() as int);
    assert((y + 1) * size == y * size + size) by (nonlinear_arith);
}

// ---------------------------------------------------------------------------
// Reading gives back what was written
// ---------------------------------------------------------------------------

/// What a writer writes, the search finds: the sample rate, the channels, and the data.
pub proof fn law_dsd_file_scans(
    form_size: nat,
    sample_rate: u32,
    n_channels: nat,
    data: Seq<u8>,
)
    requires
        n_channels <= 0xffff,
        data.len() <= i64::MAX,
    ensures
        ({
            let file = dsd_file(form_size, sample_rate, n_channels, data.len(), data);
            let offset = (file.len() - data.len()) as nat;
            &&& scan::scan_file(file, DSD@) == scan::Scanned::Found(
                file_props(sample_rate, n_channels, DSD@),
                offset,
                data.len(),
            )
            &&& file.skip(offset as int) == data
        }),
{
    let start = form_start(form_size, sample_rate, n_channels, DSD@, DSD_NAME@);
    let header = chunk::chunk_header(DSD@, data.len());
    let file = dsd_file(form_size, sample_rate, n_channels, data.len(), data);
    let p = Some(file_props(sample_rate, n_channels, DSD@));
    let pos = start.len();
    let at = pos + 12;
    chunk::lemma_header_parts(DSD@, data.len());
    endian::lemma_be_len(data.len(), 8);
    endian::lemma_be_len(form_size, 8);
    lemma_form_rest_len(sample_rate, n_channels, DSD@, DSD_NAME@);
    assert(file =~= start + header + data);
    assert(file.subrange(0, file.len() as int) =~= file);
    chunk::lemma_stands_concat(file, 0, start + header, data);
    chunk::lemma_stands_concat(file, 0, start, header);
    assert(DSD@[0] != FVER@[0]);
    assert(DSD@[0] != PROP@[0]);
    lemma_form_scans(file, DSD@, form_size, sample_rate, n_channels, DSD@, DSD_NAME@);
    assert(file.skip(at as int) =~= data);
    assert(scan::scan(file, DSD@, pos, p, 0, 0) == scan::scan_on(
        file,
        DSD@,
        at,
        data.len(),
        p,
        at,
        data.len(),
    ));
    if data.len() == 0 {
        assert(scan::scan(file, DSD@, at, p, at, 0) == scan::scan_end(p, at, 0));
    }
}

/// The interleaved bytes of the first `n` frames.
pub open spec fn joined(frames: Seq<Seq<Seq<u8>>>, frame_bytes: nat, n: nat) -> Seq<u8>
    decreases n,
{
    if n == 0 {
        Seq::empty()
    } else {
        joined(frames, frame_bytes, (n - 1) as nat) + frame::interleaved(
            frames[n - 1],
            frame_bytes,
        )
    }
}

proof fn lemma_joined(
    frames: Seq<Seq<Seq<u8>>>,
    n_channels: nat,
    frame_bytes: nat,
    i: nat,
    n: nat,
)
    requires
        n <= frames.len(),
        forall|k: int| 0 <= k < frames.len() ==> (#[trigger] frames[k]).len() == n_channels,
    ensures
        joined(frames, frame_bytes, n).len() == n * (n_channels * frame_bytes),
        i < n ==> frame_data(joined(frames, frame_bytes, n), i, n_channels * frame_bytes)
            == frame::interleaved(frames[i as int], frame_bytes),
    decreases n,
{
    let w = n_channels * frame_bytes;
    if n > 0 {
        lemma_joined(frames, n_channels, frame_bytes, i, (n - 1) as nat);
        assert(frames[n - 1].len() == n_channels);
        let head = joined(frames, frame_bytes, (n - 1) as nat);
        let last = frame::interleaved(frames[n - 1], frame_bytes);
        assert(n * w == (n - 1) * w + w) by (nonlinear_arith);
        if i < n {
            assert((i + 1) * w == i * w + w) by (nonlinear_arith);
            assert(0 <= i * w && (i < n - 1 ==> i * w + w <= (n - 1) * w)) by (nonlinear_arith)
                requires
                    i >= 0,
                    w >= 0,
            ;
            let got = frame_data(head + last, i, w);
            if i < n - 1 {
                assert(got =~= frame_data(head, i, w));
            } else {
                assert(got =~= last);
            }
        }
    } else {
        assert(0 * w == 0);
    }
}

/// The frames that were written come back, one by one.
pub proof fn law_dsd_frames_round_trip(
    frames: Seq<Seq<Seq<u8>>>,
    n_channels: nat,
    frame_bytes: nat,
    i: nat,
)
    requires
        i < frames.len(),
        forall|k: int| 0 <= k < frames.len() ==> (#[trigger] frames[k]).len() == n_channels,
        forall|ch: int|
            0 <= ch < n_channels ==> (#[trigger] frames[i as int][ch]).len() == frame_bytes,
    ensures
        deinterleaved(
            frame_data(
                joined(frames, frame_bytes, frames.len()),
                i,
                n_channels * frame_bytes,
            ),
            n_channels,
            frame_bytes,
        ) == frames[i as int],
{
    let f = frames[i as int];
    lemma_joined(frames, n_channels, frame_bytes, i, frames.len());
    assert(f.len() == n_channels);
    law_deinterleave_inverts(f, frame_bytes);
    let back = f.map_values(|c: Seq<u8>| c.take(frame_bytes as int));
    assert forall|ch: int| 0 <= ch < n_channels implies back[ch] =~= f[ch] by {
        assert(f[ch].len() == frame_bytes);
    }
    assert(back =~= f);
}

} // verus!

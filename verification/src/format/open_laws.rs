//! What comes of opening any file, said of its chunks.

use vstd::prelude::*;

use crate::format::dsdiff::chunk;
use crate::format::dsdiff::chunk::{CHNL, CMPR, DSD, DST, FRM8, FRTE, FS, PROP};
use crate::format::dsdiff::dsd;
use crate::format::dsdiff::dsd::DsdDsdiffStreamReader;
use crate::format::dsdiff::dst;
use crate::format::dsdiff::dst::DstDsdiffStreamReader;
use crate::format::dsdiff::laws::{
    chunks,
    four,
    last_with,
    law_prop_tells_the_last,
    law_search_ends_with_the_file,
    law_search_finds,
    law_search_passes_other_chunks,
    law_search_takes_the_properties,
    lemma_numbers,
    lemma_passed,
    passed,
    sound_subs,
    two,
};
use crate::format::dsdiff::scan;
use crate::format::dsdiff::scan::{PropParse, Props, Scanned};
use crate::format::dsf;
use crate::format::dsf::{DsfHeader, DsfParse, DsfStreamReader};
use crate::format::endian;
use crate::format::laws::law_sizes_are_kept;
use crate::format::metadata;
use crate::format::open;
use crate::format::open::OpenOutcome;
use crate::format::step;
use crate::format::text;

verus! {

/// The chunks of a DSDIFF file: some that are passed, the properties, some that are passed,
/// the data, and some that are passed, up to the end of the file.
pub struct Form {
    pub before: Seq<(Seq<u8>, Seq<u8>)>,
    pub form: Seq<u8>,
    pub subs: Seq<(Seq<u8>, Seq<u8>)>,
    pub between: Seq<(Seq<u8>, Seq<u8>)>,
    pub target: Seq<u8>,
    pub data: Seq<u8>,
    pub behind: Seq<(Seq<u8>, Seq<u8>)>,
}

impl Form {
    /// The chunks before the data.
    pub open spec fn head(self) -> Seq<u8> {
        chunks(self.before, self.before.len()) + chunk::chunk(
            PROP@,
            self.form + chunks(self.subs, self.subs.len()),
        ) + chunks(self.between, self.between.len())
    }

    /// All chunks.
    pub open spec fn bytes(self) -> Seq<u8> {
        self.head() + chunk::chunk(self.target, self.data) + chunks(self.behind, self.behind.len())
    }

    /// The chunks make up a file behind its first sixteen bytes.
    pub open spec fn makes(self, file: Seq<u8>) -> bool {
        &&& self.form.len() == 4
        &&& self.target == DSD@ || self.target == DST@
        &&& self.data.len() >= 1
        &&& sound_subs(self.subs)
        &&& passed(self.before, self.target)
        &&& passed(self.between, self.target)
        &&& passed(self.behind, self.target)
        &&& file.len() <= i64::MAX
        &&& chunk::stands(file, 0, FRM8@)
        &&& chunk::stands(file, 16, self.bytes())
        &&& file.len() < 16 + self.bytes().len() + 12
    }

    /// Where the data stand.
    pub open spec fn offset(self) -> nat {
        16 + self.head().len() + 12
    }
}

proof fn lemma_passed_by_all(subs: Seq<(Seq<u8>, Seq<u8>)>, target: Seq<u8>)
    requires
        passed(subs, target),
    ensures
        passed(subs, PROP@),
{
}

/// Each part of a file stands in its place.
proof fn lemma_parts_stand(file: Seq<u8>, f: Form)
    requires
        f.makes(file),
    ensures
        ({
            let a = chunks(f.before, f.before.len());
            let b = chunk::chunk(PROP@, f.form + chunks(f.subs, f.subs.len()));
            let c = chunks(f.between, f.between.len());
            let d = chunk::chunk(f.target, f.data);
            let e = chunks(f.behind, f.behind.len());
            &&& chunk::stands(file, 16, a)
            &&& chunk::stands(file, 16 + a.len(), b)
            &&& chunk::stands(file, 16 + a.len() + b.len(), c)
            &&& chunk::stands(file, 16 + a.len() + b.len() + c.len(), d)
            &&& chunk::stands(file, 16 + a.len() + b.len() + c.len() + d.len(), e)
            &&& file.len() < 16 + a.len() + b.len() + c.len() + d.len() + e.len() + 12
        }),
{
    let a = chunks(f.before, f.before.len());
    let b = chunk::chunk(PROP@, f.form + chunks(f.subs, f.subs.len()));
    let c = chunks(f.between, f.between.len());
    let d = chunk::chunk(f.target, f.data);
    let e = chunks(f.behind, f.behind.len());
    chunk::lemma_stands_concat(file, 16, a + b + c + d, e);
    chunk::lemma_stands_concat(file, 16, a + b + c, d);
    chunk::lemma_stands_concat(file, 16, a + b, c);
    chunk::lemma_stands_concat(file, 16, a, b);
}

/// A search passes a chunk that stands in a file.
proof fn lemma_passes_chunk(
    file: Seq<u8>,
    target: Seq<u8>,
    pos: nat,
    id: Seq<u8>,
    data: Seq<u8>,
    prop: Option<Props>,
)
    requires
        id.len() == 4,
        id != PROP@,
        id != target,
        file.len() <= i64::MAX,
        chunk::stands(file, pos, chunk::chunk(id, data)),
    ensures
        scan::scan(file, target, pos, prop, 0, 0) == scan::scan(
            file,
            target,
            pos + chunk::chunk(id, data).len(),
            prop,
            0,
            0,
        ),
{
    chunk::lemma_chunk_len(id, data);
    lemma_header_stands(file, pos, id, data);
    law_search_passes_other_chunks(file, target, pos, id, data.len(), prop, 0, 0);
}

/// The header of a chunk that stands in a file.
proof fn lemma_header_stands(file: Seq<u8>, pos: nat, id: Seq<u8>, data: Seq<u8>)
    requires
        id.len() == 4,
        chunk::stands(file, pos, chunk::chunk(id, data)),
    ensures
        chunk::stands(file, pos, id + endian::be(data.len(), 8)),
{
    let h = id + endian::be(data.len(), 8);
    let rest = data + chunk::padding(data.len());
    assert(chunk::chunk(id, data) =~= h + rest);
    chunk::lemma_stands_concat(file, pos, h, rest);
}

/// The search for the compression goes to the end of the file and finds the properties.
proof fn lemma_detects(file: Seq<u8>, f: Form, p: Props)
    requires
        f.makes(file),
        ({
            let at = 16 + chunks(f.before, f.before.len()).len();
            let n = (f.form + chunks(f.subs, f.subs.len())).len();
            scan::prop_chunk(file, at + 12, n) == PropParse::Parsed(p)
        }),
    ensures
        scan::scan_file(file, PROP@) == Scanned::Found(p, 0, 0),
{
    reveal(scan::scan_file);
    lemma_parts_stand(file, f);
    lemma_passed_by_all(f.before, f.target);
    let prop = f.form + chunks(f.subs, f.subs.len());
    let at = 16 + chunks(f.before, f.before.len()).len();
    lemma_passed(file, PROP@, 16, f.before, 0, None);
    chunk::lemma_chunk_len(PROP@, prop);
    lemma_header_stands(file, at, PROP@, prop);
    law_search_takes_the_properties(file, PROP@, at, prop.len(), None, 0, 0);
    lemma_detects_to_the_end(file, f, at + chunk::chunk(PROP@, prop).len(), p);
}

/// Behind the properties the search for the compression goes on to the end of the file.
proof fn lemma_detects_to_the_end(file: Seq<u8>, f: Form, pos: nat, p: Props)
    requires
        f.makes(file),
        pos == 16 + chunks(f.before, f.before.len()).len() + chunk::chunk(
            PROP@,
            f.form + chunks(f.subs, f.subs.len()),
        ).len(),
    ensures
        scan::scan(file, PROP@, pos, Some(p), 0, 0) == Scanned::Found(p, 0, 0),
{
    lemma_parts_stand(file, f);
    lemma_passed_by_all(f.between, f.target);
    lemma_passed_by_all(f.behind, f.target);
    let c = chunks(f.between, f.between.len());
    let d = chunk::chunk(f.target, f.data);
    let e = chunks(f.behind, f.behind.len());
    lemma_passed(file, PROP@, pos, f.between, 0, Some(p));
    assert(DSD@[0] != PROP@[0] && DST@[0] != PROP@[0]);
    lemma_passes_chunk(file, PROP@, pos + c.len(), f.target, f.data, Some(p));
    lemma_passed(file, PROP@, pos + c.len() + d.len(), f.behind, 0, Some(p));
    law_search_ends_with_the_file(
        file,
        PROP@,
        pos + c.len() + d.len() + e.len(),
        Some(p),
        0,
        0,
    );
}

/// The search for the data finds them, and the properties.
proof fn lemma_finds(file: Seq<u8>, f: Form) -> (p: Props)
    requires
        f.makes(file),
    ensures
        scan::scan_file(file, f.target) == Scanned::Found(p, f.offset(), f.data.len()),
        scan::scan_file(file, PROP@) == Scanned::Found(p, 0, 0),
        chunk::stands(file, f.offset(), f.data),
        forall|i: int| #[trigger]
            last_with(f.subs, FS@, i) ==> p.sample_rate == four(f.subs[i].1),
        forall|i: int| #[trigger]
            last_with(f.subs, CHNL@, i) ==> p.n_channels == two(f.subs[i].1),
        forall|i: int| #[trigger]
            last_with(f.subs, CMPR@, i) ==> p.compression == f.subs[i].1.take(4),
{
    let prop = f.form + chunks(f.subs, f.subs.len());
    let a = chunks(f.before, f.before.len());
    let b = chunk::chunk(PROP@, prop);
    let c = chunks(f.between, f.between.len());
    let d = chunk::chunk(f.target, f.data);
    let h = f.target + endian::be(f.data.len(), 8);
    let e = chunks(f.behind, f.behind.len());
    chunk::lemma_stands_concat(file, 16, f.head() + d, e);
    chunk::lemma_stands_concat(file, 16, f.head(), d);
    chunk::lemma_chunk_len(f.target, f.data);
    chunk::lemma_chunk_stands(file, 16 + f.head().len(), f.target, f.data);
    let rest = f.data + chunk::padding(f.data.len());
    assert(f.head() + d =~= (f.head() + h) + rest);
    chunk::lemma_stands_concat(file, 16, f.head() + h, rest);
    assert(f.head() + h == a + b + c + h);
    assert(DSD@[0] != PROP@[0] && DST@[0] != PROP@[0]);
    law_search_finds(file, f.target, f.before, f.form, f.subs, f.between, f.data.len());
    assert(f.head() =~= a + (b + c));
    chunk::lemma_stands_concat(file, 16, a, b + c);
    chunk::lemma_stands_concat(file, 16 + a.len(), b, c);
    chunk::lemma_chunk_len(PROP@, prop);
    chunk::lemma_chunk_stands(file, 16 + a.len(), PROP@, prop);
    law_prop_tells_the_last(file, 16 + a.len() + 12, f.form, f.subs);
    let p = match scan::prop_chunk(file, 16 + a.len() + 12, prop.len()) {
        PropParse::Parsed(p) => p,
        _ => scan::no_props(),
    };
    lemma_detects(file, f, p);
    p
}

/// A DSDIFF file with uncompressed data opens, whichever other chunks it has, with the last
/// sample rate and number of channels in its PROP chunk and the place and size of its data.
pub proof fn law_uncompressed_file_opens(file: Seq<u8>, f: Form, fs: int, chnl: int, coding: int)
    requires
        f.makes(file),
        f.target == DSD@,
        f.data.len() <= 0x1fff_ffff_ffff_ffff,
        last_with(f.subs, FS@, fs),
        last_with(f.subs, CHNL@, chnl),
        last_with(f.subs, CMPR@, coding),
        four(f.subs[fs].1) >= 600,
        two(f.subs[chnl].1) >= 1,
        f.subs[coding].1.take(4) == DSD@,
    ensures
        open::open_outcome(file) == OpenOutcome::Dsd(
            Props {
                sample_rate: four(f.subs[fs].1) as nat,
                n_channels: two(f.subs[chnl].1) as nat,
                compression: DSD@,
            },
            f.offset(),
            f.data.len(),
        ),
{
    reveal(open::open_outcome);
    let p = lemma_finds(file, f);
    assert(scan::part(file, 0, 4) == Some(FRM8@));
    assert(FRM8@[0] != DSD@[0]);
    lemma_samples(f.data.len(), p.n_channels);
    assert(dsd::open_dsd(p, f.data.len()) is Samples);
}

/// An uncompressed file has as many samples of each channel as whole rounds of its channels
/// fit into its data.
proof fn lemma_samples(size: nat, n: nat)
    requires
        n >= 1,
        size <= 0x1fff_ffff_ffff_ffff,
    ensures
        8 * (size / n) <= u64::MAX,
{
    vstd::arithmetic::div_mod::lemma_div_is_ordered_by_denominator(size as int, 1, n as int);
    assert(size / 1 == size);
}

/// A DSDIFF file with compressed data opens, whichever other chunks it has, with the last
/// sample rate and number of channels in its PROP chunk, the place and size of its data, the
/// number of frames in the FRTE chunk at the start of the data, and the place behind that.
pub proof fn law_compressed_file_opens(
    file: Seq<u8>,
    f: Form,
    fs: int,
    chnl: int,
    coding: int,
    rate: Seq<u8>,
    frames: Seq<u8>,
)
    requires
        f.makes(file),
        f.target == DST@,
        last_with(f.subs, FS@, fs),
        last_with(f.subs, CHNL@, chnl),
        last_with(f.subs, CMPR@, coding),
        four(f.subs[fs].1) >= 600,
        two(f.subs[chnl].1) >= 1,
        f.subs[coding].1.take(4) == DST@,
        f.data == chunk::chunk(FRTE@, rate) + frames,
        rate.len() >= 6,
        two(rate.skip(4)) == 75,
    ensures
        open::open_outcome(file) == OpenOutcome::Dst(
            Props {
                sample_rate: four(f.subs[fs].1) as nat,
                n_channels: two(f.subs[chnl].1) as nat,
                compression: DST@,
            },
            f.offset(),
            f.data.len(),
            four(rate) as nat,
            f.offset() + 12 + rate.len() + rate.len() % 2,
        ),
{
    reveal(open::open_outcome);
    reveal(dst::open_dst);
    let p = lemma_finds(file, f);
    assert(scan::part(file, 0, 4) == Some(FRM8@));
    assert(FRM8@[0] != DSD@[0]);
    assert(DST@[2] != DSD@[2]);
    let offset = f.offset();
    let b = open::rest_of(file, offset);
    chunk::lemma_stands_concat(file, offset, chunk::chunk(FRTE@, rate), frames);
    chunk::lemma_chunk_len(FRTE@, rate);
    chunk::lemma_chunk_stands(file, offset, FRTE@, rate);
    dst::lemma_header_pieces(file, offset, FRTE@, rate.len());
    lemma_numbers(rate);
    lemma_numbers(rate.skip(4));
    assert(step::id_at(b, 0) =~= file.subrange(offset as int, (offset + 4) as int));
    assert(b.subrange(4, 12) =~= file.subrange((offset + 4) as int, (offset + 12) as int));
    assert(file.subrange((offset + 12) as int, (offset + 12 + rate.len()) as int) == rate);
    assert(b.subrange(12, 16) =~= rate.take(4)) by {
        assert forall|i: int| 0 <= i < 4 implies b.subrange(12, 16)[i] == rate.take(4)[i] by {
            assert(rate[i] == file[offset + 12 + i]);
        }
    }
    assert(b.subrange(16, 18) =~= rate.skip(4).take(2)) by {
        assert forall|i: int| 0 <= i < 2 implies b.subrange(16, 18)[i] == rate.skip(4).take(
            2,
        )[i] by {
            assert(rate[4 + i] == file[offset + 12 + 4 + i]);
        }
    }
}

/// A DSF file opens with what its header says, at any sample rate that gives a frame of a
/// byte or more.
pub proof fn law_dsf_opens(file: Seq<u8>, h: DsfHeader)
    requires
        dsf::parse(file) == DsfParse::Header(h),
        h.sample_rate >= 600,
    ensures
        open::open_outcome(file) == OpenOutcome::Dsf(h),
{
    reveal(open::open_outcome);
    reveal(dsf::parse);
    assert(dsf::DSD_MAGIC@ =~= DSD@);
    assert(scan::part(file, 0, 4) == Some(step::id_at(file, 0)));
}

/// A file that is too short or starts otherwise is refused, as is a DSDIFF file with another
/// compression.
pub proof fn law_other_files_are_refused(file: Seq<u8>)
    ensures
        file.len() < 4 ==> open::open_outcome(file) == OpenOutcome::Refused(
            "file too small to be a valid DSD file"@,
        ),
        file.len() >= 4 && file.take(4) != DSD@ && file.take(4) != FRM8@ ==> open::open_outcome(
            file,
        ) == OpenOutcome::Refused(
            "unrecognized file format (magic: "@ + text::id_text(file.take(4))
                + "), expected DSF or DSDIFF"@,
        ),
        file.len() >= 4 && file.take(4) == FRM8@ ==> (scan::scan_file(
            file,
            PROP@,
        ) matches Scanned::Found(p, _, _) ==> p.compression != DSD@ && p.compression != DST@
            ==> open::open_outcome(file) == OpenOutcome::Refused(
            "unsupported DSDIFF compression: "@ + text::id_text(p.compression),
        )),
        file.len() >= 4 && file.take(4) == FRM8@ && scan::scan_file(file, PROP@) is NoProp
            ==> open::open_outcome(file) == OpenOutcome::Refused(
            "missing PROP chunk in DSDIFF file"@,
        ),
{
    reveal(open::open_outcome);
    if file.len() >= 4 {
        assert(file.subrange(0, 4) =~= file.take(4));
        assert(FRM8@[0] != DSD@[0]);
    }
}

/// A file without a sample rate, channels or data is refused.
pub proof fn law_incomplete_files_are_refused(p: Props, offset: nat, size: nat, b: Seq<u8>)
    requires
        p.sample_rate == 0 || p.n_channels == 0 || size == 0,
    ensures
        p.compression == DSD@ ==> dsd::open_dsd(p, size) == dsd::Opened::Refused(
            "incomplete DSDIFF: missing FS, CHNL, or DSD data chunk"@,
        ),
        p.compression == DST@ ==> dst::open_dst(p, offset, size, b) == dst::Opened::Refused(
            "incomplete DST DSDIFF: missing FS, CHNL, or DST data chunk"@,
        ),
{
    reveal(dst::open_dst);
}

/// An uncompressed file with a sample rate, channels and data opens, and has eight samples of
/// each channel for each whole round of the channels in its data.
pub proof fn law_samples_of_a_file(p: Props, size: nat, rounds: nat)
    requires
        p.compression == DSD@,
        p.sample_rate >= 600,
        p.n_channels >= 1,
        size >= 1,
        rounds * p.n_channels <= size < rounds * p.n_channels + p.n_channels,
        rounds <= 0x1fff_ffff_ffff_ffff,
    ensures
        dsd::open_dsd(p, size) == dsd::Opened::Samples(8 * rounds),
{
    vstd::arithmetic::div_mod::lemma_fundamental_div_mod_converse(
        size as int,
        p.n_channels as int,
        rounds as int,
        size - rounds * p.n_channels,
    );
}

// ---------------------------------------------------------------------------
// The readers that come of opening
// ---------------------------------------------------------------------------

/// A number of whole frames is as many frames.
proof fn lemma_whole_frames(n: nat, fb: nat)
    requires
        fb >= 1,
        n * fb <= usize::MAX,
    ensures
        metadata::ceil_div(endian::size_value(n * fb) as int, fb as int) == n,
{
    law_sizes_are_kept(n * fb);
    assert(n * fb + fb - 1 == n * fb + (fb - 1));
    vstd::arithmetic::div_mod::lemma_fundamental_div_mod_converse(
        n * fb + fb - 1,
        fb as int,
        n as int,
        fb - 1,
    );
}

/// The reader of a DST-compressed file tells the sample rate and the channels, starts behind
/// the FRTE chunk, and ends with the DST chunk; where frames have whole bytes it has as many
/// frames as the FRTE chunk says.
pub proof fn law_compressed_reader(
    o: open::Opening,
    reader: DstDsdiffStreamReader,
    at: u64,
    file: Seq<u8>,
    p: Props,
    offset: nat,
    size: nat,
    n: nat,
    next: nat,
)
    requires
        o.gives_dst(reader, at),
        o.resume(file) == OpenOutcome::Dst(p, offset, size, n, next),
        p.sample_rate >= 600,
        n * (p.sample_rate / 75) <= u64::MAX,
    ensures
        at == next,
        reader.at() == next,
        reader.end() == offset + size,
        reader.yielded() == 0,
        reader.meta().sample_rate == p.sample_rate,
        reader.meta().n_channels == p.n_channels,
        reader.meta().frame_bits == p.sample_rate / 75,
        reader.meta().total_samples == n * (p.sample_rate / 75),
        p.sample_rate % 600 == 0 && n * (p.sample_rate / 600) <= usize::MAX
            ==> reader.meta().n_frames == n,
{
    let bits = p.sample_rate / 75;
    let fb = p.sample_rate / 600;
    if p.sample_rate % 600 == 0 && n * fb <= usize::MAX {
        assert(bits == 8 * fb);
        assert(n * bits == 8 * (n * fb)) by (nonlinear_arith)
            requires
                bits == 8 * fb,
        ;
        assert(n * bits / 8 == n * fb);
        lemma_whole_frames(n, fb);
    }
}

/// The reader of an uncompressed DSDIFF file tells the sample rate and the channels, and
/// starts with the first frame of all the data.
pub proof fn law_uncompressed_reader(
    o: open::Opening,
    reader: DsdDsdiffStreamReader,
    at: u64,
    file: Seq<u8>,
    p: Props,
    offset: nat,
    size: nat,
)
    requires
        o.gives_dsd(reader, at),
        o.resume(file) == OpenOutcome::Dsd(p, offset, size),
        p.n_channels >= 1,
    ensures
        at == offset,
        reader.wf(),
        reader.total() == size,
        reader.consumed() == 0,
        reader.yielded() == 0,
        reader.meta().sample_rate == p.sample_rate,
        reader.meta().n_channels == p.n_channels,
        reader.meta().frame_bits == p.sample_rate / 75,
        reader.meta().frame_bytes_per_ch == p.sample_rate / 75 / 8,
        reader.meta().total_samples == 8 * (size / p.n_channels),
{
}

/// The reader of a DSF file tells what its header says, and starts with the first block.
pub proof fn law_dsf_reader(
    o: open::Opening,
    reader: DsfStreamReader,
    at: u64,
    file: Seq<u8>,
    h: DsfHeader,
)
    requires
        o.gives_dsf(reader, at),
        o.resume(file) == OpenOutcome::Dsf(h),
    ensures
        at == h.data_start,
        reader.wf(),
        reader.block_size() == h.block_size,
        reader.valid() == h.valid_bytes_per_ch,
        reader.yielded() == 0,
        reader.received().len() == h.channel_count,
        forall|ch: int|
            0 <= ch < h.channel_count ==> (#[trigger] reader.received()[ch]).len() == 0,
        reader.meta().sample_rate == h.sample_rate,
        reader.meta().n_channels == h.channel_count,
        reader.meta().total_samples == h.sample_count,
        reader.meta().frame_bits == h.sample_rate / 75,
        reader.meta().frame_bytes_per_ch == h.sample_rate / 75 / 8,
{
}

/// A file that is cut off in its header cannot be read: a DSF file before its audio data, a
/// DSDIFF file whose search meets a part that is missing, and a DST-compressed one in its
/// FRTE chunk.
pub proof fn law_cut_files_cannot_be_read(file: Seq<u8>, p: Props, offset: nat, size: nat)
    ensures
        file.len() >= 4 && file.take(4) == DSD@ && file.len() < 40 ==> {
            ||| open::open_outcome(file) is Unreadable
            ||| open::open_outcome(file) is Refused && file.len() >= 32
        },
        file.len() >= 4 && file.take(4) == FRM8@ && scan::scan_file(file, PROP@) is Unreadable
            ==> open::open_outcome(file) is Unreadable,
        p.compression == DST@ && p.sample_rate > 0 && p.n_channels > 0 && size > 0 && offset + size
            <= u64::MAX && file.len() < offset + 12 ==> open::open_scanned_dst(
            file,
            Scanned::Found(p, offset, size),
        ) is Unreadable,
{
    reveal(open::open_outcome);
    reveal(dsf::parse);
    reveal(dst::open_dst);
    if file.len() >= 4 {
        assert(file.subrange(0, 4) =~= file.take(4));
        assert(FRM8@[0] != DSD@[0]);
        assert(dsf::DSD_MAGIC@ =~= DSD@);
    }
}

/// A DST-compressed file whose data do not start with a FRTE chunk, or that has another frame
/// rate, is refused.
pub proof fn law_other_frame_rates_are_refused(p: Props, offset: nat, size: nat, b: Seq<u8>)
    requires
        b.len() >= 18,
        offset + size <= u64::MAX,
        p.compression == DST@,
        p.sample_rate >= 1,
        p.n_channels >= 1,
        size >= 1,
    ensures
        b.take(4) != FRTE@ ==> dst::open_dst(p, offset, size, b) == dst::Opened::Refused(
            "expected FRTE chunk at start of DST data, got "@ + text::id_text(b.take(4)),
        ),
        b.take(4) == FRTE@ && two(b.skip(16)) != 75 ==> dst::open_dst(p, offset, size, b)
            == dst::Opened::Refused(
            "unexpected DST frame rate: "@ + text::decimal(two(b.skip(16)) as nat)
                + " (expected "@ + text::decimal(75) + ")"@,
        ),
{
    reveal(dst::open_dst);
    lemma_numbers(b.skip(16));
    assert(b.skip(16).take(2) =~= b.subrange(16, 18));
    assert(step::id_at(b, 0) =~= b.take(4));
}

} // verus!

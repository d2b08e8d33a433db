//! Opening of a DSD file: the format is found out from the file header, and the reader
//! for it is made. No sample data is read.

use vstd::prelude::*;
use vstd::string::*;

use crate::error::CladstError;
use crate::format::dsdiff::chunk;
use crate::format::dsdiff::chunk::{DSD, DST, FRM8, PROP};
use crate::format::dsdiff::dsd;
use crate::format::dsdiff::dsd::DsdDsdiffStreamReader;
use crate::format::dsdiff::dst;
use crate::format::dsdiff::dst::DstDsdiffStreamReader;
use crate::format::dsdiff::scan;
use crate::format::dsdiff::scan::{DsdiffProp, DsdiffScan, ScanStep};
use crate::format::dsf;
use crate::format::dsf::{parse_dsf_header, DsfHeader, DsfStreamReader};
use crate::format::endian;
use crate::format::metadata::DsdMetadata;
use crate::format::step;
use crate::format::step::{has_id, HeaderStep};
use crate::format::text;
use crate::format::text::show_id;

verus! {

// ---------------------------------------------------------------------------
// Streaming reader enum dispatch
// ---------------------------------------------------------------------------

/// Streaming DSD reader — dispatches to DSF or uncompressed DSDIFF reader.
pub enum DsdStreamReader {
    Dsf(Box<DsfStreamReader>),
    Dsdiff(DsdDsdiffStreamReader),
}

impl DsdStreamReader {
    /// The audio metadata.
    pub open spec fn meta(self) -> DsdMetadata {
        match self {
            DsdStreamReader::Dsf(r) => r.meta(),
            DsdStreamReader::Dsdiff(r) => r.meta(),
        }
    }

    /// Audio metadata.
    pub fn metadata(&self) -> (m: &DsdMetadata)
        ensures
            *m == self.meta(),
    {
        match self {
            DsdStreamReader::Dsf(r) => r.metadata(),
            DsdStreamReader::Dsdiff(r) => r.metadata(),
        }
    }
}

/// Streaming input — either uncompressed DSD or DST-compressed.
pub enum StreamInput {
    /// Uncompressed DSD (DSF or uncompressed DSDIFF).
    Dsd(DsdStreamReader),
    /// DST-compressed DSDIFF.
    Dst(DstDsdiffStreamReader),
}

// ---------------------------------------------------------------------------
// Model
// ---------------------------------------------------------------------------

/// What comes of opening a file.
pub enum OpenOutcome {
    /// A DSF file with this header.
    Dsf(DsfHeader),
    /// An uncompressed DSDIFF file: its properties, and where the data starts and how long
    /// it is.
    Dsd(scan::Props, nat, nat),
    /// A DST-compressed DSDIFF file, in the same way, with the number of frames, and where
    /// the chunks of the frames start.
    Dst(scan::Props, nat, nat, nat, nat),
    /// The file is refused.
    Refused(Seq<char>),
    /// A part of the file is missing.
    Unreadable,
    /// The file holds numbers that nothing can be made of.
    Stuck,
}

/// What comes of a DSF file.
pub open spec fn open_dsf(file: Seq<u8>) -> OpenOutcome {
    match dsf::parse(file) {
        dsf::DsfParse::Need(_) => OpenOutcome::Unreadable,
        dsf::DsfParse::Header(h) => if h.sample_rate / 75 / 8 == 0 {
            OpenOutcome::Stuck
        } else {
            OpenOutcome::Dsf(h)
        },
        dsf::DsfParse::Refused(m) => OpenOutcome::Refused(m),
        dsf::DsfParse::Stuck => OpenOutcome::Stuck,
    }
}

/// What comes of a search that found nothing to go on with.
pub open spec fn scan_failed(s: scan::Scanned) -> OpenOutcome {
    match s {
        scan::Scanned::NoProp => OpenOutcome::Refused("missing PROP chunk in DSDIFF file"@),
        scan::Scanned::Unreadable => OpenOutcome::Unreadable,
        _ => OpenOutcome::Stuck,
    }
}

/// What comes of an uncompressed DSDIFF file after the search.
pub open spec fn open_scanned_dsd(s: scan::Scanned) -> OpenOutcome {
    match s {
        scan::Scanned::Found(p, offset, size) => match dsd::open_dsd(p, size) {
            dsd::Opened::Samples(_) => OpenOutcome::Dsd(p, offset, size),
            dsd::Opened::Refused(m) => OpenOutcome::Refused(m),
            dsd::Opened::Stuck => OpenOutcome::Stuck,
        },
        other => scan_failed(other),
    }
}

/// What comes of a DST-compressed DSDIFF file, given the first bytes of its data chunk.
pub open spec fn open_dst_data(p: scan::Props, offset: nat, size: nat, b: Seq<u8>) -> OpenOutcome {
    match dst::open_dst(p, offset, size, b) {
        dst::Opened::Need(_) => OpenOutcome::Unreadable,
        dst::Opened::Frames(n, next) => OpenOutcome::Dst(p, offset, size, n, next),
        dst::Opened::Refused(m) => OpenOutcome::Refused(m),
        dst::Opened::Stuck => OpenOutcome::Stuck,
    }
}

/// What lies behind the first bytes of a file.
pub open spec fn rest_of(file: Seq<u8>, n: nat) -> Seq<u8> {
    if n <= file.len() {
        file.skip(n as int)
    } else {
        Seq::empty()
    }
}

/// What comes of a DST-compressed DSDIFF file after the search.
pub open spec fn open_scanned_dst(file: Seq<u8>, s: scan::Scanned) -> OpenOutcome {
    match s {
        scan::Scanned::Found(p, offset, size) => open_dst_data(
            p,
            offset,
            size,
            rest_of(file, offset),
        ),
        other => scan_failed(other),
    }
}

/// What comes of a DSDIFF file after the search for its compression.
pub open spec fn open_detected(file: Seq<u8>, s: scan::Scanned) -> OpenOutcome {
    match s {
        scan::Scanned::Found(p, _, _) => if p.compression == DSD@ {
            open_scanned_dsd(scan::scan_file(file, DSD@))
        } else if p.compression == DST@ {
            open_scanned_dst(file, scan::scan_file(file, DST@))
        } else {
            OpenOutcome::Refused(
                "unsupported DSDIFF compression: "@ + text::id_text(p.compression),
            )
        },
        other => scan_failed(other),
    }
}

/// What comes of opening a file.
#[verifier::opaque]
pub open spec fn open_outcome(file: Seq<u8>) -> OpenOutcome {
    match scan::part(file, 0, 4) {
        None => OpenOutcome::Refused("file too small to be a valid DSD file"@),
        Some(magic) => if magic == DSD@ {
            open_dsf(file)
        } else if magic == FRM8@ {
            open_detected(file, scan::scan_file(file, PROP@))
        } else {
            OpenOutcome::Refused(
                "unrecognized file format (magic: "@ + text::id_text(magic)
                    + "), expected DSF or DSDIFF"@,
            )
        },
    }
}

// ---------------------------------------------------------------------------
// Opening step by step
// ---------------------------------------------------------------------------

/// Where the opening of a file is.
pub enum Place {
    /// At the magic bytes.
    Magic,
    /// At the header of a DSF file, with its first bytes.
    Dsf(Seq<u8>),
    /// In a search through a DSDIFF file: for its compression, or for its data.
    Detect(scan::Search),
    Dsd(scan::Search),
    Dst(scan::Search),
    /// At the data chunk of a DST-compressed DSDIFF file with these properties, where it
    /// starts and how long it is, with its first bytes.
    Data(scan::Props, nat, nat, Seq<u8>),
    /// At its end.
    Over(OpenOutcome),
}

/// The place after the first bytes of a DSF file: at its end if they tell what comes of the
/// file.
pub open spec fn after_dsf(bytes: Seq<u8>) -> Place {
    if dsf::parse(bytes) is Need {
        Place::Dsf(bytes)
    } else {
        Place::Over(open_dsf(bytes))
    }
}

/// The place after the first bytes of a data chunk, in the same way. Nothing can be read so
/// near to the last position that can be counted.
pub open spec fn after_data(p: scan::Props, offset: nat, size: nat, bytes: Seq<u8>) -> Place {
    if dst::open_dst(p, offset, size, bytes) is Need && offset + 18 <= u64::MAX {
        Place::Data(p, offset, size, bytes)
    } else {
        Place::Over(open_dst_data(p, offset, size, bytes))
    }
}

/// The place in a search for the data of an uncompressed file, or after it.
pub open spec fn after_dsd(search: scan::Search) -> Place {
    if search.wanted() is Some {
        Place::Dsd(search)
    } else {
        Place::Over(open_scanned_dsd(search.outcome()))
    }
}

/// The place in a search for the data of a DST-compressed file, or after it.
pub open spec fn after_dst(search: scan::Search) -> Place {
    if search.wanted() is Some {
        Place::Dst(search)
    } else {
        match search.outcome() {
            scan::Scanned::Found(p, offset, size) => after_data(p, offset, size, Seq::empty()),
            other => Place::Over(scan_failed(other)),
        }
    }
}

/// The place in a search for the compression of a file, or after it: at the start of a
/// search for its data.
pub open spec fn after_detection(search: scan::Search) -> Place {
    if search.wanted() is Some {
        Place::Detect(search)
    } else {
        match search.outcome() {
            scan::Scanned::Found(p, _, _) => if p.compression == DSD@ {
                after_dsd(scan::search_for(DSD@))
            } else if p.compression == DST@ {
                after_dst(scan::search_for(DST@))
            } else {
                Place::Over(
                    OpenOutcome::Refused(
                        "unsupported DSDIFF compression: "@ + text::id_text(p.compression),
                    ),
                )
            },
            other => Place::Over(scan_failed(other)),
        }
    }
}

/// The place after the magic bytes.
pub open spec fn after_magic(magic: Seq<u8>) -> Place {
    if magic == DSD@ {
        after_dsf(magic)
    } else if magic == FRM8@ {
        after_detection(scan::search_for(PROP@))
    } else {
        Place::Over(
            OpenOutcome::Refused(
                "unrecognized file format (magic: "@ + text::id_text(magic)
                    + "), expected DSF or DSDIFF"@,
            ),
        )
    }
}

impl Place {
    /// The part of the file that is to be read next, if the opening goes on.
    pub open spec fn wanted(self) -> Option<(nat, nat)> {
        match self {
            Place::Magic => Some((0nat, 4nat)),
            Place::Dsf(bytes) => match dsf::parse(bytes) {
                dsf::DsfParse::Need(n) => Some((bytes.len(), (n - bytes.len()) as nat)),
                _ => None,
            },
            Place::Detect(search) | Place::Dsd(search) | Place::Dst(search) => search.wanted(),
            Place::Data(p, offset, size, bytes) => match dst::open_dst(p, offset, size, bytes) {
                dst::Opened::Need(n) => Some((offset + bytes.len(), (n - bytes.len()) as nat)),
                _ => None,
            },
            Place::Over(_) => None,
        }
    }

    /// What comes of the opening on a file.
    pub open spec fn resume(self, file: Seq<u8>) -> OpenOutcome {
        match self {
            Place::Magic => open_outcome(file),
            Place::Dsf(bytes) => open_dsf(bytes + rest_of(file, bytes.len())),
            Place::Detect(search) => open_detected(file, search.resume(file)),
            Place::Dsd(search) => open_scanned_dsd(search.resume(file)),
            Place::Dst(search) => open_scanned_dst(file, search.resume(file)),
            Place::Data(p, offset, size, bytes) => open_dst_data(
                p,
                offset,
                size,
                bytes + rest_of(file, offset + bytes.len()),
            ),
            Place::Over(outcome) => outcome,
        }
    }

    /// The place after a reply: the part of the file that was asked for, or nothing where it
    /// could not be read. A file without magic bytes is refused; what a header needs has to
    /// be there.
    pub open spec fn after(self, reply: Option<Seq<u8>>) -> Place {
        match (reply, self) {
            (Some(magic), Place::Magic) => after_magic(magic),
            (None, Place::Magic) => Place::Over(
                OpenOutcome::Refused("file too small to be a valid DSD file"@),
            ),
            (Some(more), Place::Dsf(bytes)) => after_dsf(bytes + more),
            (_, Place::Detect(search)) => after_detection(search.after(reply)),
            (_, Place::Dsd(search)) => after_dsd(search.after(reply)),
            (_, Place::Dst(search)) => after_dst(search.after(reply)),
            (Some(more), Place::Data(p, offset, size, bytes)) => after_data(
                p,
                offset,
                size,
                bytes + more,
            ),
            (None, Place::Dsf(_)) | (None, Place::Data(..)) => Place::Over(
                OpenOutcome::Unreadable,
            ),
            (_, Place::Over(_)) => self,
        }
    }
}

impl Place {
    /// A bound on the replies that are still to come: a header grows by what it needs, and a
    /// search through the file ends.
    pub open spec fn bound(self) -> nat {
        let whole_search = scan::search_for(PROP@).bound();
        match self {
            Place::Magic => 100 + 2 * whole_search + scan::room(0),
            Place::Dsf(bytes) => 1 + scan::room(bytes.len()),
            Place::Detect(search) => 40 + whole_search + search.bound(),
            Place::Dsd(search) | Place::Dst(search) => 30 + search.bound(),
            Place::Data(_, _, _, bytes) => if bytes.len() < 18 {
                (19 - bytes.len()) as nat
            } else {
                1
            },
            Place::Over(_) => 0,
        }
    }
}

/// What is to come in a search, or after it.
proof fn lemma_search_bounds(search: scan::Search)
    ensures
        after_dsd(search).bound() <= 30 + search.bound(),
        after_dst(search).bound() <= 30 + search.bound(),
        after_detection(search).bound() <= 40 + scan::search_for(PROP@).bound() + search.bound(),
{
    assert(Seq::<u8>::empty().len() == 0);
}

/// The opening of a file ends: each reply, whatever it holds, brings it nearer to its end.
pub proof fn law_opening_ends(place: Place, reply: Option<Seq<u8>>)
    requires
        place.wanted() is Some,
        reply matches Some(bytes) ==> bytes.len() == (place.wanted()->0).1,
    ensures
        place.after(reply).bound() < place.bound(),
{
    match place {
        Place::Magic => {
            assert(forall|bytes: Seq<u8>| scan::room(bytes.len()) <= scan::room(0));
            lemma_search_bounds(scan::search_for(PROP@));
        },
        Place::Detect(search) | Place::Dsd(search) | Place::Dst(search) => {
            scan::law_search_ends(search, reply);
            lemma_search_bounds(search.after(reply));
        },
        Place::Dsf(bytes) => {
            dsf::lemma_header_needs(bytes);
        },
        Place::Data(p, offset, size, bytes) => {
            assert(bytes.is_prefix_of(bytes));
            lemma_dst_prefix(p, offset, size, bytes, bytes);
        },
        _ => {},
    }
}

/// Where the opening is.
enum Stage {
    /// At the magic bytes.
    Magic,
    /// At the header of a DSF file, with its first bytes.
    Dsf { bytes: Vec<u8>, need: usize },
    /// In a search through a DSDIFF file: for its compression, or for its data.
    Detect { search: DsdiffScan },
    Dsd { search: DsdiffScan },
    Dst { search: DsdiffScan },
    /// At the data chunk of a DST-compressed DSDIFF file, with its first bytes.
    Data { prop: DsdiffProp, offset: u64, size: u64, bytes: Vec<u8>, need: usize },
    /// At an end.
    DsfReady { header: DsfHeader },
    DsdReady { prop: DsdiffProp, offset: u64, size: u64 },
    DstReady { prop: DsdiffProp, offset: u64, size: u64, bytes: Vec<u8> },
    Failed { error: CladstError },
    Unreadable,
    Stuck,
}

/// The opening of a DSD file.
pub struct Opening {
    stage: Stage,
}

/// What came of the opening of a file.
pub enum OpenReply {
    /// The reader, and where its data starts.
    Opened(StreamInput, u64),
    /// The file is refused.
    Failed(CladstError),
    /// The part of the file that was asked for last is missing.
    Unreadable,
    /// The file holds numbers that nothing can be made of.
    Stuck,
}

/// A reader at the start of a DSF file with a header.
pub open spec fn dsf_reader(reader: DsfStreamReader, h: DsfHeader) -> bool {
    &&& reader.wf()
    &&& reader.meta().of(h.sample_rate, h.channel_count, h.sample_count)
    &&& reader.block_size() == h.block_size
    &&& reader.valid() == h.valid_bytes_per_ch
    &&& reader.yielded() == 0
    &&& reader.received() == Seq::new(h.channel_count as nat, |ch: int| Seq::<u8>::empty())
}

/// A reader at the start of an uncompressed DSDIFF file with these properties.
pub open spec fn dsd_reader(reader: DsdDsdiffStreamReader, p: DsdiffProp, size: u64) -> bool {
    &&& dsd::open_dsd(p@, size as nat) matches dsd::Opened::Samples(n)
    &&& reader.wf()
    &&& reader.meta().of(p.sample_rate, p.n_channels, n as u64)
    &&& reader.total() == size
    &&& reader.consumed() == 0
    &&& reader.yielded() == 0
}

/// A reader at the start of a DST-compressed DSDIFF file with these properties.
pub open spec fn dst_reader(
    reader: DstDsdiffStreamReader,
    p: DsdiffProp,
    offset: u64,
    size: u64,
    n: nat,
) -> bool {
    &&& reader.meta().of(p.sample_rate, p.n_channels, (n * (p.sample_rate / 75)) as u64)
    &&& reader.end() == offset + size
    &&& reader.yielded() == 0
}

/// The message of an error about the format.
spec fn refusal(e: CladstError) -> OpenOutcome {
    match e {
        CladstError::Format(m) => OpenOutcome::Refused(m@),
        _ => OpenOutcome::Stuck,
    }
}

impl View for Opening {
    type V = Place;

    /// Where the opening is.
    closed spec fn view(&self) -> Place {
        match self.stage {
            Stage::Magic => Place::Magic,
            Stage::Dsf { bytes, .. } => Place::Dsf(bytes@),
            Stage::Detect { search } => Place::Detect(search@),
            Stage::Dsd { search } => Place::Dsd(search@),
            Stage::Dst { search } => Place::Dst(search@),
            Stage::Data { prop, offset, size, bytes, .. } => Place::Data(
                prop@,
                offset as nat,
                size as nat,
                bytes@,
            ),
            Stage::DsfReady { header } => Place::Over(OpenOutcome::Dsf(header)),
            Stage::DsdReady { prop, offset, size } => Place::Over(
                OpenOutcome::Dsd(prop@, offset as nat, size as nat),
            ),
            Stage::DstReady { prop, offset, size, bytes } => Place::Over(
                open_dst_data(prop@, offset as nat, size as nat, bytes@),
            ),
            Stage::Failed { error } => Place::Over(refusal(error)),
            Stage::Unreadable => Place::Over(OpenOutcome::Unreadable),
            Stage::Stuck => Place::Over(OpenOutcome::Stuck),
        }
    }
}

impl Opening {
    /// What comes of the opening of a file.
    pub open spec fn resume(self, file: Seq<u8>) -> OpenOutcome {
        self@.resume(file)
    }

    /// The part of the file that is to be read next, if the opening goes on.
    pub open spec fn wanted(self) -> Option<(nat, nat)> {
        self@.wanted()
    }

    /// The opening is in a state that its operations leave behind.
    pub closed spec fn wf(self) -> bool {
        match self.stage {
            Stage::Dsf { bytes, need } => dsf::parse(bytes@) == dsf::DsfParse::Need(need as nat)
                && bytes@.len() < need,
            Stage::Detect { search } | Stage::Dsd { search } | Stage::Dst { search } => search.wf()
                && search.wanted() is Some,
            Stage::Data { prop, offset, size, bytes, need } => dst::open_dst(
                prop@,
                offset as nat,
                size as nat,
                bytes@,
            ) == dst::Opened::Need(need as nat) && bytes@.len() < need <= 18 && offset + 18
                <= u64::MAX,
            Stage::DsfReady { header } => header.sample_rate / 75 / 8 > 0
                && header.valid_bytes_per_ch == endian::size_value(
                (header.sample_count / 8) as nat,
            ),
            Stage::DsdReady { prop, size, .. } => dsd::open_dsd(prop@, size as nat) is Samples,
            Stage::DstReady { prop, offset, size, bytes } => dst::open_dst(
                prop@,
                offset as nat,
                size as nat,
                bytes@,
            ) is Frames,
            Stage::Failed { error } => error is Format,
            _ => true,
        }
    }

    /// The opening ends with a reader of a DSF file.
    pub open spec fn gives_dsf(self, reader: DsfStreamReader, at: u64) -> bool {
        exists|h: DsfHeader| #[trigger]
            dsf_reader(reader, h) && at == h.data_start && forall|file: Seq<u8>| #[trigger]
                self.resume(file) == OpenOutcome::Dsf(h)
    }

    /// The opening ends with a reader of an uncompressed DSDIFF file.
    pub open spec fn gives_dsd(self, reader: DsdDsdiffStreamReader, at: u64) -> bool {
        exists|p: DsdiffProp, size: u64| #[trigger]
            dsd_reader(reader, p, size) && forall|file: Seq<u8>| #[trigger]
                self.resume(file) == OpenOutcome::Dsd(p@, at as nat, size as nat)
    }

    /// The opening ends with a reader of a DST-compressed DSDIFF file.
    pub open spec fn gives_dst(self, reader: DstDsdiffStreamReader, at: u64) -> bool {
        exists|p: DsdiffProp, offset: u64, size: u64, n: nat| #[trigger]
            dst_reader(reader, p, offset, size, n) && reader.at() == at && forall|file: Seq<u8>|
             #[trigger]
                self.resume(file) == OpenOutcome::Dst(
                    p@,
                    offset as nat,
                    size as nat,
                    n,
                    at as nat,
                )
    }

    /// Start to open a file.
    pub fn new() -> (o: Self)
        ensures
            o.wf(),
            o@ == Place::Magic,
            forall|file: Seq<u8>| #[trigger] o.resume(file) == open_outcome(file),
    {
        Opening { stage: Stage::Magic }
    }

    /// The part of the file that is to be read next, if the opening goes on.
    pub fn request(&self) -> (r: Option<(u64, usize)>)
        requires
            self.wf(),
        ensures
            match self.wanted() {
                Some((at, n)) => r matches Some((offset, len)) && offset == at && len == n,
                None => r is None,
            },
    {
        match &self.stage {
            Stage::Magic => Some((0, 4)),
            Stage::Dsf { bytes, need } => Some((bytes.len() as u64, *need - bytes.len())),
            Stage::Detect { search } | Stage::Dsd { search } | Stage::Dst { search } =>
                match search.step() {
                    ScanStep::Read { offset, len } => Some((offset, len)),
                    _ => None,
                },
            Stage::Data { offset, bytes, need, .. } => Some(
                (*offset + bytes.len() as u64, *need - bytes.len()),
            ),
            _ => None,
        }
    }
}

/// What is opened stays so when more of the data chunk is there.
proof fn lemma_dst_prefix(p: scan::Props, offset: nat, size: nat, b: Seq<u8>, known: Seq<u8>)
    requires
        b.is_prefix_of(known),
    ensures
        dst::open_dst(p, offset, size, b) !is Need ==> dst::open_dst(p, offset, size, known)
            == dst::open_dst(p, offset, size, b),
        dst::open_dst(p, offset, size, b) matches dst::Opened::Need(n) ==> b.len() < n <= 18 && (
        known.len() < n ==> dst::open_dst(p, offset, size, known) == dst::open_dst(
            p,
            offset,
            size,
            b,
        )),
{
    reveal(dst::open_dst);
    if b.len() >= 12 {
        step::lemma_same_part(b, known, 0, 4);
        step::lemma_same_part(b, known, 4, 8);
    }
    if b.len() >= 18 {
        step::lemma_same_part(b, known, 12, 4);
        step::lemma_same_part(b, known, 16, 2);
    }
}

/// Known bytes with a reply behind them, and what then lies behind them in the file.
proof fn lemma_known(bytes: Seq<u8>, reply: Seq<u8>, file: Seq<u8>, at: nat)
    requires
        scan::part(file, at, reply.len()) == Some(reply),
        reply.len() > 0,
    ensures
        (bytes + reply) + rest_of(file, at + reply.len()) == bytes + rest_of(file, at),
{
    assert((bytes + reply) + rest_of(file, at + reply.len()) =~= bytes + rest_of(file, at)) by {
        assert(reply =~= rest_of(file, at).take(reply.len() as int));
    }
}

/// Go on with the first bytes of a DSF file.
fn at_dsf(bytes: Vec<u8>) -> (stage: Stage)
    ensures
        (Opening { stage }).wf(),
        (Opening { stage })@ == after_dsf(bytes@),
        forall|file: Seq<u8>| #[trigger]
            (Opening { stage }).resume(file) == open_dsf(bytes@ + rest_of(file, bytes@.len())),
{
    proof {
        dsf::law_dsf_header_prefix(bytes@, bytes@);
        dsf::lemma_header_valid(bytes@);
        assert forall|file: Seq<u8>| dsf::parse(bytes@) !is Need implies #[trigger] open_dsf(
            bytes@ + rest_of(file, bytes@.len()),
        ) == open_dsf(bytes@) by {
            let known = bytes@ + rest_of(file, bytes@.len());
            assert(known.subrange(0, bytes@.len() as int) =~= bytes@);
            dsf::law_dsf_header_prefix(bytes@, known);
        }
    }
    match parse_dsf_header(bytes.as_slice()) {
        HeaderStep::NeedMore(need) => Stage::Dsf { bytes, need },
        HeaderStep::Done(header) => {
            if header.sample_rate / 75 / 8 == 0 {
                Stage::Stuck
            } else {
                Stage::DsfReady { header }
            }
        },
        HeaderStep::Failed(error) => Stage::Failed { error },
        HeaderStep::Stuck => Stage::Stuck,
    }
}

/// Go on with the first bytes of the data chunk of a DST-compressed DSDIFF file.
fn at_data(prop: DsdiffProp, offset: u64, size: u64, bytes: Vec<u8>) -> (stage: Stage)
    requires
        bytes@.len() == 0 || offset + 18 <= u64::MAX,
    ensures
        (Opening { stage }).wf(),
        (Opening { stage })@ == after_data(prop@, offset as nat, size as nat, bytes@),
        forall|file: Seq<u8>|
            file.len() <= i64::MAX ==> #[trigger] (Opening { stage }).resume(file)
                == open_dst_data(
                prop@,
                offset as nat,
                size as nat,
                bytes@ + rest_of(file, offset as nat + bytes@.len()),
            ),
{
    let ghost (p, o, n) = (prop@, offset as nat, size as nat);
    proof {
        lemma_dst_prefix(p, o, n, bytes@, bytes@);
        assert forall|file: Seq<u8>|
            dst::open_dst(p, o, n, bytes@) !is Need || (file.len() <= o && bytes@.len()
                == 0) implies #[trigger] open_dst_data(
            p,
            o,
            n,
            bytes@ + rest_of(file, o + bytes@.len()),
        ) == open_dst_data(p, o, n, bytes@) by {
            let known = bytes@ + rest_of(file, o + bytes@.len());
            assert(known.subrange(0, bytes@.len() as int) =~= bytes@);
            lemma_dst_prefix(p, o, n, bytes@, known);
        }
    }
    match DstDsdiffStreamReader::new(&prop, offset, size, bytes.as_slice()) {
        HeaderStep::NeedMore(need) => {
            if offset > u64::MAX - 18 {
                Stage::Unreadable
            } else {
                Stage::Data { prop, offset, size, bytes, need }
            }
        },
        HeaderStep::Done(_) => Stage::DstReady { prop, offset, size, bytes },
        HeaderStep::Failed(error) => Stage::Failed { error },
        HeaderStep::Stuck => Stage::Stuck,
    }
}

/// Go on with a search for the data of an uncompressed DSDIFF file.
fn at_dsd(search: DsdiffScan) -> (stage: Stage)
    requires
        search.wf(),
    ensures
        (Opening { stage }).wf(),
        (Opening { stage })@ == after_dsd(search@),
        forall|file: Seq<u8>| #[trigger]
            (Opening { stage }).resume(file) == open_scanned_dsd(search.resume(file)),
{
    match search.step() {
        ScanStep::Read { .. } => Stage::Dsd { search },
        ScanStep::Found(prop, offset, size) => match DsdDsdiffStreamReader::new(&prop, size) {
            Some(Ok(_)) => Stage::DsdReady { prop, offset, size },
            Some(Err(error)) => Stage::Failed { error },
            None => Stage::Stuck,
        },
        ScanStep::Failed(error) => Stage::Failed { error },
        ScanStep::Unreadable => Stage::Unreadable,
        ScanStep::Overflow => Stage::Stuck,
    }
}

/// Go on with a search for the data of a DST-compressed DSDIFF file.
fn at_dst(search: DsdiffScan) -> (stage: Stage)
    requires
        search.wf(),
    ensures
        (Opening { stage }).wf(),
        (Opening { stage })@ == after_dst(search@),
        forall|file: Seq<u8>|
            file.len() <= i64::MAX ==> #[trigger] (Opening { stage }).resume(file)
                == open_scanned_dst(file, search.resume(file)),
{
    match search.step() {
        ScanStep::Read { .. } => Stage::Dst { search },
        ScanStep::Found(prop, offset, size) => {
            let stage: Stage = at_data(prop, offset, size, Vec::new());
            proof {
                let empty = Seq::<u8>::empty();
                assert forall|file: Seq<u8>| file.len() <= i64::MAX implies #[trigger] (Opening {
                    stage,
                }).resume(file) == open_scanned_dst(file, search.resume(file)) by {
                    assert(empty + rest_of(file, offset as nat) =~= rest_of(file, offset as nat));
                }
            }
            stage
        },
        ScanStep::Failed(error) => Stage::Failed { error },
        ScanStep::Unreadable => Stage::Unreadable,
        ScanStep::Overflow => Stage::Stuck,
    }
}

/// Go on with a search for the compression of a DSDIFF file.
fn at_detection(search: DsdiffScan) -> (stage: Stage)
    requires
        search.wf(),
    ensures
        (Opening { stage }).wf(),
        (Opening { stage })@ == after_detection(search@),
        forall|file: Seq<u8>|
            file.len() <= i64::MAX ==> #[trigger] (Opening { stage }).resume(file)
                == open_detected(file, search.resume(file)),
{
    match search.step() {
        ScanStep::Read { .. } => Stage::Detect { search },
        ScanStep::Found(prop, _, _) => {
            proof {
                assert(step::id_at(prop.compression@, 0) =~= prop.compression@);
            }
            if has_id(&prop.compression, 0, &DSD) {
                at_dsd(DsdiffScan::new(&DSD))
            } else if has_id(&prop.compression, 0, &DST) {
                at_dst(DsdiffScan::new(&DST))
            } else {
                let mut m: String = "unsupported DSDIFF compression: ".to_owned();
                m.append(show_id(&prop.compression).as_str());
                Stage::Failed { error: CladstError::Format(m) }
            }
        },
        ScanStep::Failed(error) => Stage::Failed { error },
        ScanStep::Unreadable => Stage::Unreadable,
        ScanStep::Overflow => Stage::Stuck,
    }
}

/// Go on with the magic bytes of a file.
fn at_magic(magic: Vec<u8>) -> (stage: Stage)
    requires
        magic@.len() == 4,
    ensures
        (Opening { stage }).wf(),
        (Opening { stage })@ == after_magic(magic@),
        forall|file: Seq<u8>|
            file.len() <= i64::MAX && scan::part(file, 0, 4) == Some(magic@) ==> #[trigger] (
            Opening { stage }).resume(file) == open_outcome(file),
{
    reveal(open_outcome);
    proof {
        assert(step::id_at(magic@, 0) =~= magic@);
    }
    if has_id(magic.as_slice(), 0, &DSD) {
        let stage: Stage = at_dsf(magic);
        proof {
            assert forall|file: Seq<u8>|
                file.len() <= i64::MAX && scan::part(file, 0, 4) == Some(
                    magic@,
                ) implies #[trigger] (Opening { stage }).resume(file) == open_outcome(file) by {
                assert(magic@ + rest_of(file, 4) =~= file);
            }
        }
        stage
    } else if has_id(magic.as_slice(), 0, &FRM8) {
        // Need to detect compression type by scanning PROP/CMPR.
        at_detection(DsdiffScan::new(&PROP))
    } else {
        let mut m: String = "unrecognized file format (magic: ".to_owned();
        m.append(show_id(magic.as_slice()).as_str());
        m.append("), expected DSF or DSDIFF");
        Stage::Failed { error: CladstError::Format(m) }
    }
}

/// A reply behind known bytes.
fn joined(bytes: Vec<u8>, reply: Vec<u8>) -> (r: Vec<u8>)
    ensures
        r@ == bytes@ + reply@,
{
    let mut r: Vec<u8> = bytes;
    r.extend_from_slice(reply.as_slice());
    r
}

/// An opening is where a place comes to with a reply, and nothing else comes of the files
/// that the reply is from.
spec fn goes_on(place: Place, reply: Option<Seq<u8>>, next: Opening) -> bool {
    &&& next.wf()
    &&& next@ == place.after(reply)
    &&& forall|file: Seq<u8>|
        file.len() <= i64::MAX && scan::answers(
            file,
            (place.wanted()->0).0,
            (place.wanted()->0).1,
            reply,
        ) ==> #[trigger] next.resume(file) == place.resume(file)
}

/// Go on at the magic bytes of a file.
fn supply_magic(reply: Option<Vec<u8>>) -> (stage: Stage)
    requires
        reply matches Some(bytes) ==> bytes@.len() == 4,
    ensures
        goes_on(Place::Magic, dst::reply_view(reply), Opening { stage }),
{
    match reply {
        Some(magic) => at_magic(magic),
        None => {
            reveal(open_outcome);
            Stage::Failed {
                error: CladstError::Format("file too small to be a valid DSD file".to_owned()),
            }
        },
    }
}

/// Go on at the header of a DSF file.
fn supply_dsf(bytes: Vec<u8>, need: usize, reply: Option<Vec<u8>>) -> (stage: Stage)
    requires
        dsf::parse(bytes@) == dsf::DsfParse::Need(need as nat),
        bytes@.len() < need,
        reply matches Some(more) ==> more@.len() == need - bytes@.len(),
    ensures
        goes_on(Place::Dsf(bytes@), dst::reply_view(reply), Opening { stage }),
{
    proof {
        lemma_dsf_supplied(bytes@, need as nat, dst::reply_view(reply));
    }
    match reply {
        Some(more) => at_dsf(joined(bytes, more)),
        None => Stage::Unreadable,
    }
}

/// Go on in a search for the compression of a DSDIFF file.
fn supply_detection(search: DsdiffScan, reply: Option<Vec<u8>>) -> (stage: Stage)
    requires
        search.wf(),
        search.wanted() is Some,
        reply matches Some(bytes) ==> bytes@.len() == (search.wanted()->0).1,
    ensures
        goes_on(Place::Detect(search@), dst::reply_view(reply), Opening { stage }),
{
    at_detection(
        search.supply(
            match &reply {
                Some(r) => Some(r.as_slice()),
                None => None,
            },
        ),
    )
}

/// Go on in a search for the data of an uncompressed DSDIFF file.
fn supply_dsd(search: DsdiffScan, reply: Option<Vec<u8>>) -> (stage: Stage)
    requires
        search.wf(),
        search.wanted() is Some,
        reply matches Some(bytes) ==> bytes@.len() == (search.wanted()->0).1,
    ensures
        goes_on(Place::Dsd(search@), dst::reply_view(reply), Opening { stage }),
{
    at_dsd(
        search.supply(
            match &reply {
                Some(r) => Some(r.as_slice()),
                None => None,
            },
        ),
    )
}

/// Go on in a search for the data of a DST-compressed DSDIFF file.
fn supply_dst(search: DsdiffScan, reply: Option<Vec<u8>>) -> (stage: Stage)
    requires
        search.wf(),
        search.wanted() is Some,
        reply matches Some(bytes) ==> bytes@.len() == (search.wanted()->0).1,
    ensures
        goes_on(Place::Dst(search@), dst::reply_view(reply), Opening { stage }),
{
    at_dst(
        search.supply(
            match &reply {
                Some(r) => Some(r.as_slice()),
                None => None,
            },
        ),
    )
}

/// Go on at the data chunk of a DST-compressed DSDIFF file.
fn supply_data(
    prop: DsdiffProp,
    offset: u64,
    size: u64,
    bytes: Vec<u8>,
    need: usize,
    reply: Option<Vec<u8>>,
) -> (stage: Stage)
    requires
        dst::open_dst(prop@, offset as nat, size as nat, bytes@) == dst::Opened::Need(need as nat),
        bytes@.len() < need <= 18,
        offset + 18 <= u64::MAX,
        reply matches Some(more) ==> more@.len() == need - bytes@.len(),
    ensures
        goes_on(
            Place::Data(prop@, offset as nat, size as nat, bytes@),
            dst::reply_view(reply),
            Opening { stage },
        ),
{
    proof {
        lemma_data_supplied(
            prop@,
            offset as nat,
            size as nat,
            bytes@,
            need as nat,
            dst::reply_view(reply),
        );
    }
    match reply {
        Some(more) => at_data(prop, offset, size, joined(bytes, more)),
        None => Stage::Unreadable,
    }
}

impl Opening {
    /// Go on with the part of the file that was asked for, or without it where it could
    /// not be read.
    pub fn supply(self, reply: Option<Vec<u8>>) -> (next: Self)
        requires
            self.wf(),
            self.wanted() is Some,
            reply matches Some(bytes) ==> bytes@.len() == (self.wanted()->0).1,
        ensures
            next.wf(),
            next@ == self@.after(dst::reply_view(reply)),
            forall|file: Seq<u8>|
                file.len() <= i64::MAX && scan::answers(
                    file,
                    (self.wanted()->0).0,
                    (self.wanted()->0).1,
                    dst::reply_view(reply),
                ) ==> #[trigger] next.resume(file) == self.resume(file),
    {
        let stage: Stage = match self.stage {
            Stage::Magic => supply_magic(reply),
            Stage::Dsf { bytes, need } => supply_dsf(bytes, need, reply),
            Stage::Detect { search } => supply_detection(search, reply),
            Stage::Dsd { search } => supply_dsd(search, reply),
            Stage::Dst { search } => supply_dst(search, reply),
            Stage::Data { prop, offset, size, bytes, need } => supply_data(
                prop,
                offset,
                size,
                bytes,
                need,
                reply,
            ),
            other => other,
        };
        Opening { stage }
    }

    /// Take what came of the opening when it is over.
    pub fn finish(self) -> (r: OpenReply)
        requires
            self.wf(),
            self.wanted() is None,
        ensures
            match r {
                OpenReply::Opened(StreamInput::Dsd(DsdStreamReader::Dsf(reader)), at) =>
                    self.gives_dsf(*reader, at),
                OpenReply::Opened(StreamInput::Dsd(DsdStreamReader::Dsdiff(reader)), at) =>
                    self.gives_dsd(reader, at),
                OpenReply::Opened(StreamInput::Dst(reader), at) => self.gives_dst(reader, at),
                OpenReply::Failed(e) => exists|m: Seq<char>| #[trigger]
                    step::format_error(e, m) && forall|file: Seq<u8>| #[trigger]
                        self.resume(file) == OpenOutcome::Refused(m),
                OpenReply::Unreadable => forall|file: Seq<u8>| #[trigger]
                    self.resume(file) == OpenOutcome::Unreadable,
                OpenReply::Stuck => forall|file: Seq<u8>| #[trigger]
                    self.resume(file) == OpenOutcome::Stuck,
            },
    {
        match self.stage {
            Stage::DsfReady { header } => {
                let at: u64 = header.data_start as u64;
                let ghost h = header;
                let reader: DsfStreamReader = DsfStreamReader::new(header);
                proof {
                    assert(dsf_reader(reader, h));
                    assert(self.gives_dsf(reader, at));
                }
                OpenReply::Opened(StreamInput::Dsd(DsdStreamReader::Dsf(Box::new(reader))), at)
            },
            Stage::DsdReady { prop, offset, size } => match DsdDsdiffStreamReader::new(
                &prop,
                size,
            ) {
                Some(Ok(reader)) => {
                    proof {
                        assert(dsd_reader(reader, prop, size));
                        assert(self.gives_dsd(reader, offset));
                    }
                    OpenReply::Opened(StreamInput::Dsd(DsdStreamReader::Dsdiff(reader)), offset)
                },
                _ => OpenReply::Stuck,
            },
            Stage::DstReady { prop, offset, size, bytes } => match DstDsdiffStreamReader::new(
                &prop,
                offset,
                size,
                bytes.as_slice(),
            ) {
                HeaderStep::Done(reader) => {
                    let at: u64 = reader.position();
                    proof {
                        if let dst::Opened::Frames(n, next) = dst::open_dst(
                            prop@,
                            offset as nat,
                            size as nat,
                            bytes@,
                        ) {
                            assert(dst_reader(reader, prop, offset, size, n));
                        }
                        assert(self.gives_dst(reader, at));
                    }
                    OpenReply::Opened(StreamInput::Dst(reader), at)
                },
                _ => OpenReply::Stuck,
            },
            Stage::Failed { error } => {
                proof {
                    assert(step::format_error(error, error->Format_0@));
                }
                OpenReply::Failed(error)
            },
            Stage::Unreadable => OpenReply::Unreadable,
            _ => OpenReply::Stuck,
        }
    }
}

proof fn lemma_dsf_supplied(bytes: Seq<u8>, need: nat, reply: Option<Seq<u8>>)
    requires
        dsf::parse(bytes) == dsf::DsfParse::Need(need),
        bytes.len() < need,
        reply matches Some(r) ==> r.len() == need - bytes.len(),
    ensures
        forall|file: Seq<u8>| #[trigger]
            scan::answers(file, bytes.len(), (need - bytes.len()) as nat, reply) ==> {
                let before = open_dsf(bytes + rest_of(file, bytes.len()));
                match reply {
                    Some(r) => before == open_dsf(
                        (bytes + r) + rest_of(file, (bytes + r).len()),
                    ),
                    None => before == OpenOutcome::Unreadable,
                }
            },
{
    assert forall|file: Seq<u8>| #[trigger]
        scan::answers(file, bytes.len(), (need - bytes.len()) as nat, reply) implies {
        let before = open_dsf(bytes + rest_of(file, bytes.len()));
        match reply {
            Some(r) => before == open_dsf((bytes + r) + rest_of(file, (bytes + r).len())),
            None => before == OpenOutcome::Unreadable,
        }
    } by {
        match reply {
            Some(r) => {
                lemma_known(bytes, r, file, bytes.len());
            },
            None => {
                let known = bytes + rest_of(file, bytes.len());
                assert(known.subrange(0, bytes.len() as int) =~= bytes);
                dsf::law_dsf_header_prefix(bytes, known);
            },
        }
    }
}

proof fn lemma_data_supplied(
    p: scan::Props,
    offset: nat,
    size: nat,
    bytes: Seq<u8>,
    need: nat,
    reply: Option<Seq<u8>>,
)
    requires
        dst::open_dst(p, offset, size, bytes) == dst::Opened::Need(need),
        bytes.len() < need,
        reply matches Some(r) ==> r.len() == need - bytes.len(),
    ensures
        forall|file: Seq<u8>| #[trigger]
            scan::answers(file, offset + bytes.len(), (need - bytes.len()) as nat, reply) ==> {
                let before = open_dst_data(
                    p,
                    offset,
                    size,
                    bytes + rest_of(file, offset + bytes.len()),
                );
                match reply {
                    Some(r) => before == open_dst_data(
                        p,
                        offset,
                        size,
                        (bytes + r) + rest_of(file, offset + (bytes + r).len()),
                    ),
                    None => before == OpenOutcome::Unreadable,
                }
            },
{
    assert forall|file: Seq<u8>| #[trigger]
        scan::answers(file, offset + bytes.len(), (need - bytes.len()) as nat, reply) implies {
        let before = open_dst_data(p, offset, size, bytes + rest_of(file, offset + bytes.len()));
        match reply {
            Some(r) => before == open_dst_data(
                p,
                offset,
                size,
                (bytes + r) + rest_of(file, offset + (bytes + r).len()),
            ),
            None => before == OpenOutcome::Unreadable,
        }
    } by {
        match reply {
            Some(r) => {
                lemma_known(bytes, r, file, offset + bytes.len());
            },
            None => {
                let known = bytes + rest_of(file, offset + bytes.len());
                assert(known.subrange(0, bytes.len() as int) =~= bytes);
                lemma_dst_prefix(p, offset, size, bytes, known);
            },
        }
    }
}

// ---------------------------------------------------------------------------
// Written files open
// ---------------------------------------------------------------------------

/// A written DSF file opens as one, with its sample rate, channels and samples.
pub proof fn law_dsf_file_opens(
    sample_rate: u32,
    channels: Seq<Seq<u8>>,
    len: nat,
    sample_count: nat,
    n_groups: nat,
)
    requires
        sample_rate / 75 / 8 > 0,
        channels.len() <= u32::MAX,
        dsf::level(channels, len),
        len <= 4096 * n_groups,
        sample_count / 8 <= len,
        sample_count <= u64::MAX,
        sample_count / 8 <= usize::MAX,
        92 + n_groups * (channels.len() * 4096) <= u64::MAX,
    ensures
        open_outcome(dsf::dsf_file(sample_rate, channels, sample_count, n_groups))
            == OpenOutcome::Dsf(
            DsfHeader {
                sample_rate,
                channel_count: channels.len() as usize,
                sample_count: sample_count as u64,
                block_size: 4096,
                valid_bytes_per_ch: (sample_count / 8) as usize,
                data_start: 92,
            },
        ),
{
    reveal(open_outcome);
    let file = dsf::dsf_file(sample_rate, channels, sample_count, n_groups);
    dsf::law_dsf_round_trip(sample_rate, channels, len, sample_count, n_groups);
    assert(file.len() >= 4 && step::id_at(file, 0) == dsf::DSD_MAGIC@) by {
        reveal(dsf::parse);
    }
    assert(dsf::DSD_MAGIC@ =~= DSD@);
}

/// The search for the compression, past the chunk behind the start of a file.
proof fn lemma_detected(
    file: Seq<u8>,
    form_size: nat,
    sample_rate: u32,
    n_channels: nat,
    id: Seq<u8>,
    name: Seq<u8>,
    size: nat,
)
    requires
        n_channels <= 0xffff,
        id == DSD@ || id == DST@,
        name.len() <= 255,
        file.len() <= i64::MAX,
        chunk::stands(
            file,
            0,
            dsd::form_start(form_size, sample_rate, n_channels, id, name) + chunk::chunk_header(
                id,
                size,
            ),
        ),
        size <= file.len(),
    ensures
        scan::part(file, 0, 4) == Some(FRM8@),
        ({
            let p = dsd::file_props(sample_rate, n_channels, id);
            let next = dsd::form_start(form_size, sample_rate, n_channels, id, name).len() + 12
                + size + size % 2;
            scan::scan_file(file, PROP@) == scan::scan(file, PROP@, next, Some(p), 0, 0)
        }),
{
    let start = dsd::form_start(form_size, sample_rate, n_channels, id, name);
    let header = chunk::chunk_header(id, size);
    let p = dsd::file_props(sample_rate, n_channels, id);
    endian::lemma_be_len(form_size, 8);
    chunk::lemma_stands_concat(file, 0, start, header);
    chunk::lemma_stands_prefix(file, 0, start, 4);
    assert(start.take(4) =~= FRM8@);
    chunk::lemma_header_parts(id, size);
    assert(PROP@[0] != chunk::FVER@[0]);
    assert(PROP@[0] != id[0]);
    dsd::lemma_form_scans(file, PROP@, form_size, sample_rate, n_channels, id, name);
    let at = start.len() + 12;
    assert(scan::scan(file, PROP@, start.len(), Some(p), 0, 0) == scan::scan_on(
        file,
        PROP@,
        at,
        size,
        Some(p),
        0,
        0,
    ));
}

/// A written uncompressed DSDIFF file opens as one, with its sample rate, its channels and
/// its data.
pub proof fn law_dsd_file_opens(
    form_size: nat,
    sample_rate: u32,
    n_channels: nat,
    data: Seq<u8>,
)
    requires
        sample_rate / 75 / 8 > 0,
        1 <= n_channels <= 0xffff,
        0 < data.len(),
        8 * (data.len() / n_channels) <= u64::MAX,
        dsd::dsd_file(form_size, sample_rate, n_channels, data.len(), data).len() <= i64::MAX,
    ensures
        ({
            let file = dsd::dsd_file(form_size, sample_rate, n_channels, data.len(), data);
            open_outcome(file) == OpenOutcome::Dsd(
                dsd::file_props(sample_rate, n_channels, DSD@),
                (file.len() - data.len()) as nat,
                data.len(),
            )
        }),
{
    reveal(open_outcome);
    lemma_dsd_detected(form_size, sample_rate, n_channels, data);
    dsd::law_dsd_file_scans(form_size, sample_rate, n_channels, data);
    assert(FRM8@[0] != DSD@[0]);
}

/// The search for the compression of a written uncompressed file.
proof fn lemma_dsd_detected(form_size: nat, sample_rate: u32, n_channels: nat, data: Seq<u8>)
    requires
        n_channels <= 0xffff,
        dsd::dsd_file(form_size, sample_rate, n_channels, data.len(), data).len() <= i64::MAX,
    ensures
        ({
            let file = dsd::dsd_file(form_size, sample_rate, n_channels, data.len(), data);
            let p = dsd::file_props(sample_rate, n_channels, DSD@);
            &&& scan::part(file, 0, 4) == Some(FRM8@)
            &&& scan::scan_file(file, PROP@) == scan::Scanned::Found(p, 0, 0)
        }),
{
    let file = dsd::dsd_file(form_size, sample_rate, n_channels, data.len(), data);
    let start = dsd::form_start(form_size, sample_rate, n_channels, DSD@, dsd::DSD_NAME@);
    let header = chunk::chunk_header(DSD@, data.len());
    let p = dsd::file_props(sample_rate, n_channels, DSD@);
    endian::lemma_be_len(data.len(), 8);
    assert(file =~= (start + header) + data);
    assert(file.subrange(0, file.len() as int) =~= file);
    chunk::lemma_stands_concat(file, 0, start + header, data);
    lemma_detected(file, form_size, sample_rate, n_channels, DSD@, dsd::DSD_NAME@, data.len());
    let next = start.len() + 12 + data.len() + data.len() % 2;
    assert(scan::part(file, next, 12) is None);
    assert(scan::scan(file, PROP@, next, Some(p), 0, 0) == scan::scan_end(Some(p), 0, 0));
}

/// A written DST-compressed DSDIFF file opens as one, with its sample rate, its channels
/// and its frames.
pub proof fn law_dst_file_opens(
    form_size: nat,
    sample_rate: u32,
    n_channels: nat,
    n_frames: nat,
    frames: Seq<(Seq<u8>, u32)>,
)
    requires
        sample_rate / 75 / 8 > 0,
        1 <= n_channels <= 0xffff,
        n_frames <= u32::MAX,
        dst::dst_file(form_size, sample_rate, n_channels, n_frames, frames).len() <= i64::MAX,
    ensures
        ({
            let file = dst::dst_file(form_size, sample_rate, n_channels, n_frames, frames);
            let body = dst::dst_body(n_frames, frames, frames.len());
            let offset = dst::dst_file_head(0, sample_rate, n_channels, 0, Seq::empty()).len();
            open_outcome(file) == OpenOutcome::Dst(
                dsd::file_props(sample_rate, n_channels, DST@),
                offset,
                body.len(),
                n_frames,
                offset + 18,
            )
        }),
{
    let file = dst::dst_file(form_size, sample_rate, n_channels, n_frames, frames);
    let body = dst::dst_body(n_frames, frames, frames.len());
    let offset = dst::dst_file_head(0, sample_rate, n_channels, 0, Seq::empty()).len();
    let p = dsd::file_props(sample_rate, n_channels, DST@);
    reveal(open_outcome);
    lemma_dst_detected(form_size, sample_rate, n_channels, n_frames, frames);
    dst::law_dst_file_scans(form_size, sample_rate, n_channels, n_frames, frames);
    assert(FRM8@[0] != DSD@[0]);
    assert(DST@[2] != DSD@[2]);
    assert(rest_of(file, offset) == file.skip(offset as int));
    assert(open_dst_data(p, offset, body.len(), rest_of(file, offset)) == OpenOutcome::Dst(
        p,
        offset,
        body.len(),
        n_frames,
        offset + 18,
    ));
}

/// The search for the compression of a written DST-compressed file.
proof fn lemma_dst_detected(
    form_size: nat,
    sample_rate: u32,
    n_channels: nat,
    n_frames: nat,
    frames: Seq<(Seq<u8>, u32)>,
)
    requires
        1 <= n_channels <= 0xffff,
        dst::dst_file(form_size, sample_rate, n_channels, n_frames, frames).len() <= i64::MAX,
    ensures
        ({
            let file = dst::dst_file(form_size, sample_rate, n_channels, n_frames, frames);
            let p = dsd::file_props(sample_rate, n_channels, DST@);
            &&& scan::part(file, 0, 4) == Some(FRM8@)
            &&& scan::scan_file(file, PROP@) == scan::Scanned::Found(p, 0, 0)
        }),
{
    let file = dst::dst_file(form_size, sample_rate, n_channels, n_frames, frames);
    let start = dsd::form_start(form_size, sample_rate, n_channels, DST@, dst::DST_NAME@);
    let body = dst::dst_body(n_frames, frames, frames.len());
    let header = chunk::chunk_header(DST@, body.len());
    let index = dst::dsti(n_frames, frames);
    let p = dsd::file_props(sample_rate, n_channels, DST@);
    endian::lemma_be_len(body.len(), 8);
    assert(file =~= (start + header) + (body + index));
    assert(file.subrange(0, file.len() as int) =~= file);
    chunk::lemma_stands_concat(file, 0, start + header, body + index);
    lemma_detected(file, form_size, sample_rate, n_channels, DST@, dst::DST_NAME@, body.len());
    // The index is the last chunk
    dst::lemma_sizes(n_frames, frames, frames.len());
    let at = start.len() + 12 + body.len();
    chunk::lemma_stands_concat(file, start.len() + 12, body, index);
    lemma_index_scans(file, at, p, n_frames, frames);
}

/// The search past the index at the end of a file.
proof fn lemma_index_scans(
    file: Seq<u8>,
    at: nat,
    p: scan::Props,
    n_frames: nat,
    frames: Seq<(Seq<u8>, u32)>,
)
    requires
        file.len() <= i64::MAX,
        file.len() == at + dst::dsti(n_frames, frames).len(),
        chunk::stands(file, at, dst::dsti(n_frames, frames)),
    ensures
        scan::scan(file, PROP@, at, Some(p), 0, 0) == scan::Scanned::Found(p, 0, 0),
{
    let size = 12 * frames.len();
    let header = chunk::chunk_header(chunk::DSTI@, size);
    dst::lemma_sizes(n_frames, frames, frames.len());
    endian::lemma_be_len(size, 8);
    chunk::lemma_stands_concat(
        file,
        at,
        header,
        dst::index_entries(n_frames, frames, frames.len()),
    );
    chunk::lemma_header_parts(chunk::DSTI@, size);
    assert(chunk::DSTI@[0] != PROP@[0]);
    let next = at + 12 + size;
    assert(scan::part(file, next, 12) is None);
    assert(scan::scan(file, PROP@, next, Some(p), 0, 0) == scan::scan_end(Some(p), 0, 0));
    assert(scan::scan_on(file, PROP@, at + 12, size, Some(p), 0, 0) == scan::scan(
        file,
        PROP@,
        next,
        Some(p),
        0,
        0,
    ));
}

} // verus!

//! Search for the PROP chunk and a data chunk among the chunks of a DSDIFF file.
//!
//! The search asks for parts of the file one after the other, and never for the data
//! between chunk headers.

use vstd::prelude::*;

use crate::error::CladstError;
use crate::format::dsdiff::chunk::{CHNL, CMPR, FS, PROP};
use crate::format::endian;
use crate::format::endian::read_be;
use crate::format::step;
use crate::format::step::has_id;

verus! {

// ---------------------------------------------------------------------------
// Model
// ---------------------------------------------------------------------------

/// A part of a file, if the file is long enough.
pub open spec fn part(file: Seq<u8>, at: nat, n: nat) -> Option<Seq<u8>> {
    if n == 0 {
        Some(Seq::empty())
    } else if at + n <= file.len() {
        Some(file.subrange(at as int, (at + n) as int))
    } else {
        None
    }
}

/// What a PROP chunk says.
pub struct Props {
    pub sample_rate: nat,
    pub n_channels: nat,
    pub compression: Seq<u8>,
}

/// What nothing is said of.
pub open spec fn no_props() -> Props {
    Props { sample_rate: 0, n_channels: 0, compression: seq![0u8, 0, 0, 0] }
}

/// The size in a chunk header.
pub open spec fn header_size(header: Seq<u8>) -> nat {
    endian::be_value(header.skip(4))
}

/// Where the chunk behind one ends, if it can be counted.
pub open spec fn next_chunk(start: nat, size: nat) -> Option<nat> {
    if start + size + size % 2 <= u64::MAX {
        Some(start + size + size % 2)
    } else {
        None
    }
}

/// How many bytes of a sub-chunk of PROP are read.
pub open spec fn needed(id: Seq<u8>) -> nat {
    if id == FS@ || id == CMPR@ {
        4
    } else if id == CHNL@ {
        2
    } else {
        0
    }
}

/// What is known after the data of a sub-chunk.
pub open spec fn learn(p: Props, id: Seq<u8>, data: Seq<u8>) -> Props {
    if id == FS@ {
        Props { sample_rate: endian::be_value(data), ..p }
    } else if id == CHNL@ {
        Props { n_channels: endian::be_value(data), ..p }
    } else if id == CMPR@ {
        Props { compression: data, ..p }
    } else {
        p
    }
}

/// What comes of a PROP chunk.
pub enum PropParse {
    Parsed(Props),
    Unreadable,
    Overflow,
}

/// How much of a file lies behind a position.
pub open spec fn remaining(file: Seq<u8>, pos: nat) -> nat {
    if pos <= file.len() {
        (file.len() - pos) as nat
    } else {
        0
    }
}

/// The sub-chunks from a position on, up to the end of the PROP chunk.
pub open spec fn sub_chunks(file: Seq<u8>, pos: nat, end: nat, p: Props) -> PropParse
    decreases remaining(file, pos),
{
    if pos >= end {
        PropParse::Parsed(p)
    } else {
        match part(file, pos, 12) {
            None => PropParse::Unreadable,
            Some(header) => {
                let id = header.take(4);
                let size = header_size(header);
                match part(file, pos + 12, needed(id)) {
                    None => PropParse::Unreadable,
                    Some(data) => match next_chunk(pos + 12, size) {
                        None => PropParse::Overflow,
                        Some(next) => sub_chunks(file, next, end, learn(p, id, data)),
                    },
                }
            },
        }
    }
}

/// The PROP chunk whose data starts at a position.
pub open spec fn prop_chunk(file: Seq<u8>, start: nat, size: nat) -> PropParse {
    match part(file, start, 4) {
        None => PropParse::Unreadable,
        Some(form) => if start + size > u64::MAX {
            PropParse::Overflow
        } else {
            sub_chunks(file, start + 4, start + size, no_props())
        },
    }
}

/// What comes of the search.
pub enum Scanned {
    /// The properties, and where the data starts and how long it is.
    Found(Props, nat, nat),
    /// There is no PROP chunk.
    NoProp,
    /// A part of the file is missing.
    Unreadable,
    /// A size cannot be counted.
    Overflow,
}

/// The end of the search.
pub open spec fn scan_end(prop: Option<Props>, offset: nat, size: nat) -> Scanned {
    match prop {
        Some(p) => Scanned::Found(p, offset, size),
        None => Scanned::NoProp,
    }
}

/// The search from a chunk on, given what was found before it.
pub open spec fn scan(
    file: Seq<u8>,
    target: Seq<u8>,
    pos: nat,
    prop: Option<Props>,
    offset: nat,
    size: nat,
) -> Scanned
    decreases remaining(file, pos), 1nat,
{
    match part(file, pos, 12) {
        None => scan_end(prop, offset, size),
        Some(header) => {
            let id = header.take(4);
            let n = header_size(header);
            let start = pos + 12;
            if id == PROP@ {
                match prop_chunk(file, start, n) {
                    PropParse::Parsed(p) => scan_on(
                        file,
                        target,
                        start,
                        n,
                        Some(p),
                        offset,
                        size,
                    ),
                    PropParse::Unreadable => Scanned::Unreadable,
                    PropParse::Overflow => Scanned::Overflow,
                }
            } else if id == target {
                scan_on(file, target, start, n, prop, start, n)
            } else {
                scan_on(file, target, start, n, prop, offset, size)
            }
        },
    }
}

/// The search behind a chunk that starts before `start`.
pub open spec fn scan_on(
    file: Seq<u8>,
    target: Seq<u8>,
    start: nat,
    n: nat,
    prop: Option<Props>,
    offset: nat,
    size: nat,
) -> Scanned
    decreases remaining(file, start), 2nat,
{
    if prop is Some && size > 0 {
        scan_end(prop, offset, size)
    } else {
        match next_chunk(start, n) {
            None => Scanned::Overflow,
            Some(next) => scan(file, target, next, prop, offset, size),
        }
    }
}

/// The search through a DSDIFF file, from behind the form type on.
#[verifier::opaque]
pub open spec fn scan_file(file: Seq<u8>, target: Seq<u8>) -> Scanned {
    scan(file, target, 16, None, 0, 0)
}

// ---------------------------------------------------------------------------
// The search step by step
// ---------------------------------------------------------------------------

/// Where a search is.
pub enum Place {
    /// At the header of a chunk.
    Chunk { pos: nat },
    /// At the form type of a PROP chunk.
    PropForm { start: nat, size: nat },
    /// At the header of a sub-chunk of the PROP chunk at `start`.
    Sub { pos: nat, end: nat, props: Props, start: nat, size: nat },
    /// At the data of a sub-chunk.
    SubData {
        pos: nat,
        sub_size: nat,
        id: Seq<u8>,
        end: nat,
        props: Props,
        start: nat,
        size: nat,
    },
    /// Behind the last chunk that is looked at.
    Finished,
    Unreadable,
    Overflow,
}

/// A search: what it looks for, what it has found, and where it is.
pub struct Search {
    pub target: Seq<u8>,
    pub prop: Option<Props>,
    pub offset: nat,
    pub size: nat,
    pub place: Place,
}

/// A search at its start, behind the form type.
pub open spec fn search_for(target: Seq<u8>) -> Search {
    Search { target, prop: None, offset: 0, size: 0, place: Place::Chunk { pos: 16 } }
}

impl Search {
    /// The part of the file that is to be read next, if the search goes on.
    pub open spec fn wanted(self) -> Option<(nat, nat)> {
        match self.place {
            Place::Chunk { pos } => Some((pos, 12nat)),
            Place::PropForm { start, .. } => Some((start, 4nat)),
            Place::Sub { pos, .. } => Some((pos, 12nat)),
            Place::SubData { pos, id, .. } => Some((pos, needed(id))),
            _ => None,
        }
    }

    /// What came of a search that is over.
    pub open spec fn outcome(self) -> Scanned {
        match self.place {
            Place::Unreadable => Scanned::Unreadable,
            Place::Overflow => Scanned::Overflow,
            _ => scan_end(self.prop, self.offset, self.size),
        }
    }

    /// What comes of the PROP chunk that the search is in, on a file.
    pub open spec fn rest_of_prop(self, file: Seq<u8>) -> PropParse {
        match self.place {
            Place::PropForm { start, size } => prop_chunk(file, start, size),
            Place::Sub { pos, end, props, .. } => sub_chunks(file, pos, end, props),
            Place::SubData { pos, sub_size, id, end, props, .. } => match part(
                file,
                pos,
                needed(id),
            ) {
                None => PropParse::Unreadable,
                Some(data) => match next_chunk(pos, sub_size) {
                    None => PropParse::Overflow,
                    Some(next) => sub_chunks(file, next, end, learn(props, id, data)),
                },
            },
            _ => PropParse::Unreadable,
        }
    }

    /// What comes of the search on a file.
    pub open spec fn resume(self, file: Seq<u8>) -> Scanned {
        match self.place {
            Place::Chunk { pos } => scan(
                file,
                self.target,
                pos,
                self.prop,
                self.offset,
                self.size,
            ),
            Place::PropForm { start, size: n }
            | Place::Sub { start, size: n, .. }
            | Place::SubData { start, size: n, .. } => match self.rest_of_prop(file) {
                PropParse::Parsed(p) => scan_on(
                    file,
                    self.target,
                    start,
                    n,
                    Some(p),
                    self.offset,
                    self.size,
                ),
                PropParse::Unreadable => Scanned::Unreadable,
                PropParse::Overflow => Scanned::Overflow,
            },
            _ => self.outcome(),
        }
    }

    /// The same search at another place.
    pub open spec fn moved_to(self, place: Place) -> Search {
        Search { place, ..self }
    }

    /// The search behind a chunk, with what is then known: over if both the properties and
    /// the data are found, else at the next chunk.
    pub open spec fn behind_chunk(
        self,
        start: nat,
        n: nat,
        prop: Option<Props>,
        offset: nat,
        size: nat,
    ) -> Search {
        let place = if prop is Some && size > 0 {
            Place::Finished
        } else {
            match next_chunk(start, n) {
                Some(pos) => Place::Chunk { pos },
                None => Place::Overflow,
            }
        };
        Search { target: self.target, prop, offset, size, place }
    }

    /// The search at a sub-chunk, or behind the PROP chunk if that has ended.
    pub open spec fn at_sub_chunk(
        self,
        pos: nat,
        end: nat,
        props: Props,
        start: nat,
        size: nat,
    ) -> Search {
        if pos >= end {
            self.behind_chunk(start, size, Some(props), self.offset, self.size)
        } else {
            self.moved_to(Place::Sub { pos, end, props, start, size })
        }
    }

    /// The search after the header of a chunk: into a PROP chunk, else past the chunk, which
    /// is the data that is looked for if it has that ID.
    pub open spec fn after_chunk(self, pos: nat, header: Seq<u8>) -> Search {
        let id = header.take(4);
        let n = header_size(header);
        if pos + 12 > u64::MAX {
            self.moved_to(Place::Overflow)
        } else if id == PROP@ {
            self.moved_to(Place::PropForm { start: pos + 12, size: n })
        } else if id == self.target {
            self.behind_chunk(pos + 12, n, self.prop, pos + 12, n)
        } else {
            self.behind_chunk(pos + 12, n, self.prop, self.offset, self.size)
        }
    }

    /// The search after the form type of a PROP chunk: at its first sub-chunk.
    pub open spec fn after_form(self, start: nat, size: nat) -> Search {
        if start + size > u64::MAX || start + 4 > u64::MAX {
            self.moved_to(Place::Overflow)
        } else {
            self.at_sub_chunk(start + 4, start + size, no_props(), start, size)
        }
    }

    /// The search after the header of a sub-chunk: at its data if they are read, else past
    /// it.
    pub open spec fn after_sub_chunk(
        self,
        pos: nat,
        end: nat,
        props: Props,
        start: nat,
        size: nat,
        header: Seq<u8>,
    ) -> Search {
        let id = header.take(4);
        let sub_size = header_size(header);
        if pos + 12 > u64::MAX {
            self.moved_to(Place::Overflow)
        } else if needed(id) > 0 {
            self.moved_to(
                Place::SubData { pos: pos + 12, sub_size, id, end, props, start, size },
            )
        } else {
            match next_chunk(pos + 12, sub_size) {
                Some(next) => self.at_sub_chunk(next, end, props, start, size),
                None => self.moved_to(Place::Overflow),
            }
        }
    }

    /// The search after the data of a sub-chunk: past it, with what they say.
    pub open spec fn after_field(
        self,
        pos: nat,
        sub_size: nat,
        id: Seq<u8>,
        end: nat,
        props: Props,
        start: nat,
        size: nat,
        data: Seq<u8>,
    ) -> Search {
        match next_chunk(pos, sub_size) {
            Some(next) => self.at_sub_chunk(next, end, learn(props, id, data), start, size),
            None => self.moved_to(Place::Overflow),
        }
    }

    /// The search after a reply: the part of the file that was asked for, or nothing where
    /// it could not be read. Without a chunk header the search is over; any other part has
    /// to be there.
    pub open spec fn after(self, reply: Option<Seq<u8>>) -> Search {
        match (reply, self.place) {
            (Some(header), Place::Chunk { pos }) => self.after_chunk(pos, header),
            (Some(_), Place::PropForm { start, size }) => self.after_form(start, size),
            (Some(header), Place::Sub { pos, end, props, start, size }) => self.after_sub_chunk(
                pos,
                end,
                props,
                start,
                size,
                header,
            ),
            (
                Some(data),
                Place::SubData { pos, sub_size, id, end, props, start, size },
            ) => self.after_field(pos, sub_size, id, end, props, start, size, data),
            (None, Place::Chunk { .. }) => self.moved_to(Place::Finished),
            (None, _) => self.moved_to(Place::Unreadable),
            _ => self,
        }
    }
}

/// How far a position is from the last one that can be counted.
pub open spec fn room(pos: nat) -> nat {
    if pos <= u64::MAX {
        (u64::MAX - pos) as nat
    } else {
        0
    }
}

impl Search {
    /// A bound on the replies that are still to come: chunks and sub-chunks come at growing
    /// positions, and a PROP chunk is left for a chunk behind it.
    pub open spec fn bound(self) -> nat {
        match self.place {
            Place::Chunk { pos } => 1 + room(pos) * 0x1_0000_0000_0000_0000,
            Place::PropForm { start, .. } => 1 + room(start) * 0x1_0000_0000_0000_0000
                + 0x2_0000_0000_0000_0006,
            Place::Sub { pos, start, .. } => 1 + room(start) * 0x1_0000_0000_0000_0000 + 2 * room(
                pos,
            ) + 1,
            Place::SubData { pos, start, .. } => 1 + room(start) * 0x1_0000_0000_0000_0000 + 2
                * room(pos) + 2,
            _ => 0,
        }
    }
}

/// A search ends: each reply, whatever it holds, brings it nearer to its end.
pub proof fn law_search_ends(s: Search, reply: Option<Seq<u8>>)
    requires
        s.wanted() is Some,
    ensures
        s.after(reply).bound() < s.bound(),
{
}

/// Parsed PROP chunk metadata from a DSDIFF file.
#[derive(Debug, Clone, Copy)]
pub struct DsdiffProp {
    pub sample_rate: u32,
    pub n_channels: usize,
    pub compression: [u8; 4],
}

impl View for DsdiffProp {
    type V = Props;

    open spec fn view(&self) -> Props {
        Props {
            sample_rate: self.sample_rate as nat,
            n_channels: self.n_channels as nat,
            compression: self.compression@,
        }
    }
}

/// Where the search is.
#[derive(Debug, Clone, Copy)]
enum Stage {
    /// At the header of a chunk.
    Chunk { pos: u64 },
    /// At the form type of a PROP chunk.
    PropForm { start: u64, size: u64 },
    /// At the header of a sub-chunk.
    Sub { pos: u64, end: u64, props: DsdiffProp, start: u64, size: u64 },
    /// At the data of a sub-chunk.
    SubData {
        pos: u64,
        sub_size: u64,
        kind: Field,
        end: u64,
        props: DsdiffProp,
        start: u64,
        size: u64,
    },
    /// At an end.
    Finished,
    Unreadable,
    Overflow,
}

/// The sub-chunks that are read.
#[derive(Debug, Clone, Copy)]
enum Field {
    SampleRate,
    Channels,
    Compression,
}

impl Field {
    spec fn id(self) -> Seq<u8> {
        match self {
            Field::SampleRate => FS@,
            Field::Channels => CHNL@,
            Field::Compression => CMPR@,
        }
    }
}

/// A search for the PROP chunk and a data chunk.
#[derive(Debug, Clone, Copy)]
pub struct DsdiffScan {
    target: [u8; 4],
    prop: Option<DsdiffProp>,
    data_offset: u64,
    data_size: u64,
    stage: Stage,
}

/// What the search asks for, or what came of it.
#[derive(Debug)]
pub enum ScanStep {
    /// A part of the file is to be read.
    Read { offset: u64, len: usize },
    /// The properties, and where the data starts and how long it is.
    Found(DsdiffProp, u64, u64),
    /// The file is refused.
    Failed(CladstError),
    /// The part of the file that was asked for last is missing.
    Unreadable,
    /// A size cannot be counted.
    Overflow,
}

/// What is known of a PROP chunk, if anything.
spec fn prop_view(prop: Option<DsdiffProp>) -> Option<Props> {
    match prop {
        Some(p) => Some(p@),
        None => None,
    }
}

/// A reply is the part of a file that was asked for.
pub open spec fn answers(file: Seq<u8>, offset: nat, len: nat, reply: Option<Seq<u8>>) -> bool {
    reply == part(file, offset, len)
}

/// The part of a file in memory that is asked for, if the file is long enough.
pub fn part_of(file: &[u8], offset: u64, len: usize) -> (r: Option<Vec<u8>>)
    ensures
        match part(file@, offset as nat, len as nat) {
            Some(bytes) => r matches Some(v) && v@ == bytes,
            None => r is None,
        },
{
    let mut bytes: Vec<u8> = Vec::new();
    if len == 0 {
        assert(bytes@ =~= Seq::<u8>::empty());
        return Some(bytes);
    }
    if offset > file.len() as u64 || len > file.len() - offset as usize {
        return None;
    }
    let at: usize = offset as usize;
    bytes.extend_from_slice(vstd::slice::slice_subrange(file, at, at + len));
    proof {
        assert(bytes@ =~= file@.subrange(at as int, at + len));
    }
    Some(bytes)
}

/// The bytes of a reply.
pub open spec fn reply_view(reply: Option<&[u8]>) -> Option<Seq<u8>> {
    match reply {
        Some(bytes) => Some(bytes@),
        None => None,
    }
}

impl View for DsdiffScan {
    type V = Search;

    /// What the search looks for, what it has found, and where it is.
    closed spec fn view(&self) -> Search {
        let place = match self.stage {
            Stage::Chunk { pos } => Place::Chunk { pos: pos as nat },
            Stage::PropForm { start, size } => Place::PropForm {
                start: start as nat,
                size: size as nat,
            },
            Stage::Sub { pos, end, props, start, size } => Place::Sub {
                pos: pos as nat,
                end: end as nat,
                props: props@,
                start: start as nat,
                size: size as nat,
            },
            Stage::SubData { pos, sub_size, kind, end, props, start, size } => Place::SubData {
                pos: pos as nat,
                sub_size: sub_size as nat,
                id: kind.id(),
                end: end as nat,
                props: props@,
                start: start as nat,
                size: size as nat,
            },
            Stage::Finished => Place::Finished,
            Stage::Unreadable => Place::Unreadable,
            Stage::Overflow => Place::Overflow,
        };
        Search {
            target: self.target@,
            prop: prop_view(self.prop),
            offset: self.data_offset as nat,
            size: self.data_size as nat,
            place,
        }
    }
}

impl DsdiffScan {
    /// What comes of the search on a file.
    pub open spec fn resume(self, file: Seq<u8>) -> Scanned {
        self@.resume(file)
    }

    /// The search is in a state that its operations leave behind.
    pub closed spec fn wf(self) -> bool {
        match self.stage {
            Stage::Sub { pos, end, .. } => pos < end,
            _ => true,
        }
    }

    /// The part of the file that is to be read next, if the search goes on.
    pub open spec fn wanted(self) -> Option<(nat, nat)> {
        self@.wanted()
    }

    /// Start a search.
    pub fn new(target_data_chunk: &[u8; 4]) -> (s: Self)
        ensures
            s.wf(),
            s@ == search_for(target_data_chunk@),
            forall|file: Seq<u8>| #[trigger] s.resume(file) == scan_file(file, target_data_chunk@),
    {
        reveal(scan_file);
        DsdiffScan {
            target: *target_data_chunk,
            prop: None,
            data_offset: 0,
            data_size: 0,
            // Behind FRM8(4) + size(8) + form_type(4)
            stage: Stage::Chunk { pos: 16 },
        }
    }

    /// What is to be done: read a part of the file, or take what came of the search.
    pub fn step(&self) -> (r: ScanStep)
        ensures
            match r {
                ScanStep::Read { offset, len } => self.wanted() == Some(
                    (offset as nat, len as nat),
                ),
                ScanStep::Found(p, offset, size) => self.wanted() is None && self@.outcome()
                    == Scanned::Found(p@, offset as nat, size as nat),
                ScanStep::Failed(e) => self.wanted() is None && step::format_error(
                    e,
                    "missing PROP chunk in DSDIFF file"@,
                ) && self@.outcome() == Scanned::NoProp,
                ScanStep::Unreadable => self.wanted() is None && self@.outcome()
                    == Scanned::Unreadable,
                ScanStep::Overflow => self.wanted() is None && self@.outcome()
                    == Scanned::Overflow,
            },
    {
        match self.stage {
            Stage::Chunk { pos } => ScanStep::Read { offset: pos, len: 12 },
            Stage::PropForm { start, .. } => ScanStep::Read { offset: start, len: 4 },
            Stage::Sub { pos, .. } => ScanStep::Read { offset: pos, len: 12 },
            Stage::SubData { pos, kind, .. } => {
                proof {
                    lemma_ids_differ();
                }
                let len: usize = match kind {
                    Field::SampleRate => 4,
                    Field::Channels => 2,
                    Field::Compression => 4,
                };
                ScanStep::Read { offset: pos, len }
            },
            Stage::Finished => match self.prop {
                Some(p) => ScanStep::Found(p, self.data_offset, self.data_size),
                None => ScanStep::Failed(
                    CladstError::Format("missing PROP chunk in DSDIFF file".to_owned()),
                ),
            },
            Stage::Unreadable => ScanStep::Unreadable,
            Stage::Overflow => ScanStep::Overflow,
        }
    }
}

pub proof fn lemma_ids_differ()
    ensures
        FS@ != CHNL@,
        FS@ != CMPR@,
        CHNL@ != CMPR@,
        FS@ != PROP@,
{
    assert(FS@[0] != CHNL@[0]);
    assert(FS@[0] != CMPR@[0]);
    assert(CHNL@[1] != CMPR@[1]);
    assert(FS@[0] != PROP@[0]);
}

/// Where the chunk behind one ends, if it can be counted.
pub fn behind(start: u64, size: u64) -> (next: Option<u64>)
    ensures
        match next_chunk(start as nat, size as nat) {
            Some(n) => next == Some(n as u64) && n <= u64::MAX,
            None => next is None,
        },
{
    match start.checked_add(size) {
        Some(end) => end.checked_add(size % 2),
        None => None,
    }
}

impl DsdiffScan {
    /// Go on behind a chunk.
    fn behind_chunk(
        self,
        start: u64,
        n: u64,
        prop: Option<DsdiffProp>,
        data_offset: u64,
        data_size: u64,
    ) -> (next: Self)
        ensures
            next.wf(),
            next@ == self@.behind_chunk(
                start as nat,
                n as nat,
                prop_view(prop),
                data_offset as nat,
                data_size as nat,
            ),
            forall|file: Seq<u8>| #[trigger]
                next.resume(file) == scan_on(
                    file,
                    self.target@,
                    start as nat,
                    n as nat,
                    prop_view(prop),
                    data_offset as nat,
                    data_size as nat,
                ),
    {
        // If we found both, stop scanning
        let stage: Stage = if prop.is_some() && data_size > 0 {
            Stage::Finished
        } else {
            match behind(start, n) {
                Some(pos) => Stage::Chunk { pos },
                None => Stage::Overflow,
            }
        };
        DsdiffScan { target: self.target, prop, data_offset, data_size, stage }
    }

    /// Go on at a sub-chunk, or behind the PROP chunk if there is none.
    fn at_sub_chunk(self, pos: u64, end: u64, props: DsdiffProp, start: u64, size: u64) -> (next:
        Self)
        ensures
            next.wf(),
            next@ == self@.at_sub_chunk(
                pos as nat,
                end as nat,
                props@,
                start as nat,
                size as nat,
            ),
            forall|file: Seq<u8>| #[trigger]
                next.resume(file) == (match sub_chunks(file, pos as nat, end as nat, props@) {
                    PropParse::Parsed(p) => scan_on(
                        file,
                        self.target@,
                        start as nat,
                        size as nat,
                        Some(p),
                        self.data_offset as nat,
                        self.data_size as nat,
                    ),
                    PropParse::Unreadable => Scanned::Unreadable,
                    PropParse::Overflow => Scanned::Overflow,
                }),
    {
        if pos >= end {
            self.behind_chunk(start, size, Some(props), self.data_offset, self.data_size)
        } else {
            self.at(Stage::Sub { pos, end, props, start, size })
        }
    }

    /// The same search at another stage.
    fn at(self, stage: Stage) -> (next: Self)
        ensures
            next == (DsdiffScan { stage, ..self }),
    {
        DsdiffScan {
            target: self.target,
            prop: self.prop,
            data_offset: self.data_offset,
            data_size: self.data_size,
            stage,
        }
    }

    /// Go on with the header of a chunk.
    fn take_chunk(self, pos: u64, header: &[u8]) -> (next: Self)
        requires
            self.stage == (Stage::Chunk { pos }),
            header@.len() == 12,
        ensures
            next.wf(),
            next@ == self@.after_chunk(pos as nat, header@),
            forall|file: Seq<u8>|
                part(file, pos as nat, 12) == Some(header@) && file.len() <= i64::MAX
                    ==> #[trigger] next.resume(file) == self.resume(file),
    {
        let chunk_size: u64 = size_in(header);
        match pos.checked_add(12) {
            None => self.at(Stage::Overflow),
            Some(start) => {
                if has_id(header, 0, &PROP) {
                    proof {
                        assert(step::id_at(header@, 0) =~= header@.take(4));
                    }
                    self.at(Stage::PropForm { start, size: chunk_size })
                } else if has_id(header, 0, &self.target) {
                    proof {
                        assert(step::id_at(header@, 0) =~= header@.take(4));
                    }
                    self.behind_chunk(start, chunk_size, self.prop, start, chunk_size)
                } else {
                    proof {
                        assert(step::id_at(header@, 0) =~= header@.take(4));
                    }
                    self.behind_chunk(start, chunk_size, self.prop, self.data_offset, self.data_size)
                }
            },
        }
    }

    /// Go on with the header of a sub-chunk.
    fn take_sub_chunk(
        self,
        pos: u64,
        end: u64,
        props: DsdiffProp,
        start: u64,
        size: u64,
        header: &[u8],
    ) -> (next: Self)
        requires
            self.stage == (Stage::Sub { pos, end, props, start, size }),
            pos < end,
            header@.len() == 12,
        ensures
            next.wf(),
            next@ == self@.after_sub_chunk(
                pos as nat,
                end as nat,
                props@,
                start as nat,
                size as nat,
                header@,
            ),
            forall|file: Seq<u8>|
                part(file, pos as nat, 12) == Some(header@) && file.len() <= i64::MAX
                    ==> #[trigger] next.resume(file) == self.resume(file),
    {
        let sub_size: u64 = size_in(header);
        proof {
            lemma_ids_differ();
            assert(step::id_at(header@, 0) =~= header@.take(4));
        }
        let sub_start: u64 = match pos.checked_add(12) {
            None => {
                return self.at(Stage::Overflow);
            },
            Some(p) => p,
        };
        let kind: Field = if has_id(header, 0, &FS) {
            Field::SampleRate
        } else if has_id(header, 0, &CHNL) {
            Field::Channels
        } else if has_id(header, 0, &CMPR) {
            Field::Compression
        } else {
            return match behind(sub_start, sub_size) {
                Some(next) => self.at_sub_chunk(next, end, props, start, size),
                None => self.at(Stage::Overflow),
            };
        };
        self.at(Stage::SubData { pos: sub_start, sub_size, kind, end, props, start, size })
    }

    /// Go on with the data of a sub-chunk.
    fn take_field(
        self,
        pos: u64,
        sub_size: u64,
        kind: Field,
        end: u64,
        props: DsdiffProp,
        start: u64,
        size: u64,
        data: &[u8],
    ) -> (next: Self)
        requires
            self.stage == (Stage::SubData { pos, sub_size, kind, end, props, start, size }),
            data@.len() == needed(kind.id()),
        ensures
            next.wf(),
            next@ == self@.after_field(
                pos as nat,
                sub_size as nat,
                kind.id(),
                end as nat,
                props@,
                start as nat,
                size as nat,
                data@,
            ),
            forall|file: Seq<u8>|
                part(file, pos as nat, needed(kind.id())) == Some(data@) ==> #[trigger] next.resume(
                    file,
                ) == self.resume(file),
    {
        proof {
            lemma_ids_differ();
            endian::lemma_be_bound(data@);
            endian::lemma_pow256();
        }
        let mut learned: DsdiffProp = props;
        match kind {
            Field::SampleRate => {
                learned.sample_rate = read_be(data) as u32;
            },
            Field::Channels => {
                learned.n_channels = read_be(data) as usize;
            },
            Field::Compression => {
                learned.compression = [data[0], data[1], data[2], data[3]];
                proof {
                    assert(learned.compression@ =~= data@);
                }
            },
        }
        proof {
            assert(learned@ == learn(props@, kind.id(), data@));
        }
        match behind(pos, sub_size) {
            Some(next) => self.at_sub_chunk(next, end, learned, start, size),
            None => self.at(Stage::Overflow),
        }
    }

    /// Go on with the part of the file that was asked for, or without it where it could
    /// not be read.
    pub fn supply(self, reply: Option<&[u8]>) -> (next: Self)
        requires
            self.wf(),
            self.wanted() is Some,
            reply matches Some(bytes) ==> bytes@.len() == (self.wanted()->0).1,
        ensures
            next.wf(),
            next@ == self@.after(reply_view(reply)),
            forall|file: Seq<u8>|
                file.len() <= i64::MAX && answers(
                    file,
                    (self.wanted()->0).0,
                    (self.wanted()->0).1,
                    reply_view(reply),
                ) ==> #[trigger] next.resume(file) == self.resume(file),
    {
        match reply {
            Some(bytes) => match self.stage {
                Stage::Chunk { pos } => self.take_chunk(pos, bytes),
                Stage::PropForm { start, size } => match start.checked_add(size) {
                    None => self.at(Stage::Overflow),
                    Some(end) => match start.checked_add(4) {
                        None => self.at(Stage::Overflow),
                        Some(pos) => {
                            let props = DsdiffProp {
                                sample_rate: 0,
                                n_channels: 0,
                                compression: [0, 0, 0, 0],
                            };
                            proof {
                                assert(props.compression@ =~= seq![0u8, 0, 0, 0]);
                            }
                            self.at_sub_chunk(pos, end, props, start, size)
                        },
                    },
                },
                Stage::Sub { pos, end, props, start, size } => self.take_sub_chunk(
                    pos,
                    end,
                    props,
                    start,
                    size,
                    bytes,
                ),
                Stage::SubData { pos, sub_size, kind, end, props, start, size } => self.take_field(
                    pos,
                    sub_size,
                    kind,
                    end,
                    props,
                    start,
                    size,
                    bytes,
                ),
                _ => self,
            },
            None => match self.stage {
                // The chunks end here
                Stage::Chunk { .. } => self.at(Stage::Finished),
                _ => self.at(Stage::Unreadable),
            },
        }
    }
}

/// The size in a chunk header.
pub fn size_in(header: &[u8]) -> (n: u64)
    requires
        header@.len() == 12,
    ensures
        n == header_size(header@),
{
    let data: &[u8] = &header[4..12];
    proof {
        assert(data@ =~= header@.skip(4));
    }
    read_be(data)
}

} // verus!

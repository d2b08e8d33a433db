//! Streaming reader traits and adapters for DSD/DST frame-by-frame reading.

use vstd::prelude::*;

use crate::codec::frame;
use crate::codec::frame::try_decode_dst_frame;
use crate::decode;
use crate::error::{CladstError, Result};
use crate::format::dsdiff::dst::DstFrame;
use crate::format::metadata::DsdMetadata;

verus! {

/// A single frame of uncompressed DSD data.
#[derive(Debug)]
pub struct DsdFrame {
    /// Per-channel DSD bytes. Each `Vec` is exactly `frame_bytes_per_ch` long.
    pub channels: Vec<Vec<u8>>,
}

impl View for DsdFrame {
    type V = Seq<Seq<u8>>;

    /// The bytes of each channel.
    open spec fn view(&self) -> Seq<Seq<u8>> {
        self.channels@.map_values(|c: Vec<u8>| c@)
    }
}

/// Streaming reader that yields one frame of uncompressed DSD data at a time.
pub trait DsdFrameReader {
    /// Audio metadata (available immediately after construction).
    fn metadata(&self) -> &DsdMetadata;

    /// Read the next frame. Returns `None` when all frames have been read.
    fn next_frame(&mut self) -> Result<Option<DsdFrame>>;
}

/// What a reader of DST frames answers when it is asked for the next one.
pub enum Answer {
    /// A frame: its data and its CRC, if it has one.
    Frame(Seq<u8>, Option<u32>),
    /// All frames have been read.
    End,
    /// Reading fails.
    Failed(CladstError),
}

/// The answer that a result is.
pub open spec fn answer(r: Result<Option<DstFrame>>) -> Answer {
    match r {
        Ok(Some(f)) => Answer::Frame(f@.0, f@.1),
        Ok(None) => Answer::End,
        Err(e) => Answer::Failed(e),
    }
}

/// Streaming reader that yields one compressed DST frame at a time.
///
/// What the metadata and the frames are is up to the implementation. `meta` and `answers`
/// name them: an implementation that is to be verified has to define both, and to keep the
/// answers that it has given.
pub trait DstFrameReader {
    /// The audio metadata.
    closed spec fn meta(&self) -> DsdMetadata {
        arbitrary()
    }

    /// The answers that were given so far.
    closed spec fn answers(&self) -> Seq<Answer> {
        arbitrary()
    }

    /// Audio metadata (available immediately after construction).
    fn metadata(&self) -> (m: &DsdMetadata)
        ensures
            *m == self.meta(),
    ;

    /// Read the next DST frame. Returns `None` when all frames have been read.
    fn next_frame(&mut self) -> (r: Result<Option<DstFrame>>)
        ensures
            final(self).meta() == old(self).meta(),
            final(self).answers() == old(self).answers().push(answer(r)),
    ;
}

/// Adapter that wraps a [`DstFrameReader`] and decodes DST frames on-the-fly
/// to produce uncompressed [`DsdFrame`]s.
///
/// Eliminates the need for a temp file when re-encoding DST→DST.
pub struct DstToDsdAdapter<R> {
    inner: R,
    metadata: DsdMetadata,
}

/// What comes of decoding the data of a frame: as many bytes of each channel as the metadata
/// says, or nothing where the frame holds no table or symbol to go on with, or too few bytes.
pub open spec fn frame_of(data: Seq<u8>, meta: DsdMetadata) -> frame::Decoded {
    let n = meta.frame_bytes_per_ch as nat;
    match frame::frame_decoded(data, meta.n_channels as nat, meta.frame_bits as nat) {
        frame::Decoded::Channels(channels) => if decode::all_long(channels, n) {
            frame::Decoded::Channels(decode::written_part(channels, n))
        } else {
            frame::Decoded::Stuck
        },
        other => other,
    }
}

/// The first bytes of channels; nothing where one is shorter.
fn first_bytes(channels: Vec<Vec<u8>>, n: usize) -> (r: Option<Vec<Vec<u8>>>)
    ensures
        r is Some <==> decode::all_long(frame::views8(channels@), n as nat),
        r matches Some(v) ==> frame::views8(v@) == decode::written_part(
            frame::views8(channels@),
            n as nat,
        ),
{
    let ghost all = frame::views8(channels@);
    let mut parts: Vec<Vec<u8>> = Vec::new();
    let mut ch: usize = 0;
    while ch < channels.len()
        invariant
            ch <= channels@.len(),
            all == frame::views8(channels@),
            parts@.len() == ch,
            forall|c: int| 0 <= c < ch ==> n <= (#[trigger] all[c]).len(),
            forall|c: int| 0 <= c < ch ==> (#[trigger] parts@[c])@ == all[c].take(n as int),
        decreases channels@.len() - ch,
    {
        if channels[ch].len() < n {
            assert(all[ch as int].len() < n);
            return None;
        }
        let mut part: Vec<u8> = Vec::new();
        part.extend_from_slice(vstd::slice::slice_subrange(channels[ch].as_slice(), 0, n));
        proof {
            assert(part@ =~= all[ch as int].take(n as int));
        }
        parts.push(part);
        ch = ch + 1;
    }
    proof {
        assert(frame::views8(parts@) =~= decode::written_part(all, n as nat));
    }
    Some(parts)
}

/// Decode a DST frame; nothing where it holds no table or symbol to go on with, or too few
/// bytes.
pub fn decode_frame(dst_frame: &DstFrame, meta: &DsdMetadata) -> (r: Option<Result<DsdFrame>>)
    ensures
        match frame_of(dst_frame.data@, *meta) {
            frame::Decoded::Channels(channels) => r matches Some(Ok(f)) && f@ == channels,
            frame::Decoded::Refused(m) => r matches Some(Err(CladstError::Codec(text))) && text@
                == m,
            frame::Decoded::Stuck => r is None,
        },
{
    match try_decode_dst_frame(dst_frame.data.as_slice(), meta.n_channels, meta.frame_bits) {
        Some(Ok(decoded)) => match first_bytes(decoded, meta.frame_bytes_per_ch) {
            Some(channels) => {
                let f = DsdFrame { channels };
                proof {
                    assert(f@ =~= frame::views8(channels@));
                }
                Some(Ok(f))
            },
            None => None,
        },
        Some(Err(e)) => Some(Err(e)),
        None => None,
    }
}

/// What comes of reading and decoding a frame, given the answer of the reader: the frame
/// decoded, the end, or the error of the reader.
pub open spec fn adapted(
    r: Option<Result<Option<DsdFrame>>>,
    answer: Answer,
    meta: DsdMetadata,
) -> bool {
    match answer {
        Answer::Frame(data, _) => match frame_of(data, meta) {
            frame::Decoded::Channels(channels) => r matches Some(Ok(Some(f))) && f@ == channels,
            frame::Decoded::Refused(m) => r matches Some(Err(CladstError::Codec(text))) && text@
                == m,
            frame::Decoded::Stuck => r is None,
        },
        Answer::End => r matches Some(Ok(None)),
        Answer::Failed(e) => r matches Some(Err(got)) && got == e,
    }
}

impl<R: DstFrameReader> DstToDsdAdapter<R> {
    /// The reader that is wrapped.
    pub closed spec fn inner(self) -> R {
        self.inner
    }

    /// The audio metadata.
    pub closed spec fn meta(self) -> DsdMetadata {
        self.metadata
    }

    pub fn new(inner: R) -> (a: Self)
        ensures
            a.inner() == inner,
            a.meta() == inner.meta(),
    {
        let metadata: DsdMetadata = *inner.metadata();
        Self { inner, metadata }
    }

    /// Audio metadata.
    pub fn metadata(&self) -> (m: &DsdMetadata)
        ensures
            *m == self.meta(),
    {
        &self.metadata
    }

    /// Read the next frame and decode it; nothing where the frame holds no table or symbol
    /// to go on with, or too few bytes.
    pub fn try_next_frame(&mut self) -> (r: Option<Result<Option<DsdFrame>>>)
        ensures
            final(self).meta() == old(self).meta(),
            final(self).inner().meta() == old(self).inner().meta(),
            final(self).inner().answers().len() == old(self).inner().answers().len() + 1,
            final(self).inner().answers().drop_last() == old(self).inner().answers(),
            adapted(r, final(self).inner().answers().last(), old(self).inner().meta()),
    {
        let meta: DsdMetadata = *self.inner.metadata();
        let ghost before = self.inner.answers();
        let read: Result<Option<DstFrame>> = self.inner.next_frame();
        proof {
            assert(before.push(answer(read)).drop_last() =~= before);
        }
        match read {
            Err(e) => Some(Err(e)),
            Ok(None) => Some(Ok(None)),
            Ok(Some(dst_frame)) => {
                match decode_frame(&dst_frame, &meta) {
                    Some(Ok(f)) => Some(Ok(Some(f))),
                    Some(Err(e)) => Some(Err(e)),
                    None => None,
                }
            },
        }
    }
}

} // verus!

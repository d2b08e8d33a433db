//! Encoding, decoding and testing runs over whole files.

use std::cell::RefCell;

use cladst::decode::{
    decode, verify_frame_crc, DecodeStep, Decoder, OutputFormat,
};
use cladst::encode::{
    encode, encode_single_frame, filter_sources, EncodeOptions, EncodeStep, Encoder,
};
use cladst::error::{CladstError, Result};
use cladst::format::dsdiff::dsd::FrameRead;
use cladst::format::dsdiff::dst::FrameReply;
use cladst::format::dsdiff::{dst_frame_crc, DstFrame};
use cladst::format::metadata::DsdMetadata;
use cladst::format::open::{OpenReply, Opening};
use cladst::format::patch::FileEnd;
use cladst::format::reader::{decode_frame, DsdFrame, DstFrameReader, DstToDsdAdapter};
use cladst::format::{DsdStreamReader, StreamInput};

/// A reader of frames in memory.
struct Frames {
    metadata: DsdMetadata,
    frames: Vec<DstFrame>,
}

impl DstFrameReader for Frames {
    fn metadata(&self) -> &DsdMetadata {
        &self.metadata
    }

    fn next_frame(&mut self) -> Result<Option<DstFrame>> {
        if self.frames.is_empty() {
            Ok(None)
        } else {
            Ok(Some(self.frames.remove(0)))
        }
    }
}

/// A reader that fails at once.
struct Broken {
    metadata: DsdMetadata,
}

impl DstFrameReader for Broken {
    fn metadata(&self) -> &DsdMetadata {
        &self.metadata
    }

    fn next_frame(&mut self) -> Result<Option<DstFrame>> {
        Err(CladstError::Io(std::io::Error::from(std::io::ErrorKind::UnexpectedEof)))
    }
}

/// A reader that fails after some frames.
struct BreaksOff {
    inner: Frames,
    left: usize,
}

impl DstFrameReader for BreaksOff {
    fn metadata(&self) -> &DsdMetadata {
        &self.inner.metadata
    }

    fn next_frame(&mut self) -> Result<Option<DstFrame>> {
        if self.left == 0 {
            return Err(CladstError::Io(std::io::Error::from(std::io::ErrorKind::UnexpectedEof)));
        }
        self.left -= 1;
        self.inner.next_frame()
    }
}

fn complete(mut written: Vec<u8>, end: &FileEnd) -> Vec<u8> {
    written.extend_from_slice(&end.tail);
    for p in &end.patches {
        let at = p.offset as usize;
        written[at..at + p.bytes.len()].copy_from_slice(&p.bytes);
    }
    written
}

fn part(file: &[u8], (at, n): (u64, usize)) -> Option<Vec<u8>> {
    let at = at as usize;
    if at <= file.len() && n <= file.len() - at {
        Some(file[at..at + n].to_vec())
    } else {
        None
    }
}

fn open(file: &[u8]) -> (StreamInput, usize) {
    let mut opening = Opening::new();
    while let Some(wanted) = opening.request() {
        opening = opening.supply(part(file, wanted));
    }
    match opening.finish() {
        OpenReply::Opened(input, at) => (input, at as usize),
        _ => panic!("the file does not open"),
    }
}

/// The metadata and the frames of a DST file.
fn dst_frames(file: &[u8]) -> Frames {
    let mut reader = match open(file) {
        (StreamInput::Dst(r), _) => r,
        _ => panic!("no DST file"),
    };
    let mut frames = Vec::new();
    while let Some(mut search) = reader.start_frame() {
        while let Some(wanted) = search.request() {
            search = search.supply(part(file, wanted));
        }
        match reader.finish_frame(search) {
            FrameReply::Frame(f) => frames.push(f),
            FrameReply::End => break,
            other => panic!("{other:?}"),
        }
    }
    Frames { metadata: *reader.metadata(), frames }
}

/// The frames of an uncompressed file.
fn dsd_frames(file: &[u8]) -> Vec<Vec<Vec<u8>>> {
    let mut frames = Vec::new();
    match open(file) {
        (StreamInput::Dsd(DsdStreamReader::Dsf(mut r)), mut at) => {
            let group = r.group_size().unwrap();
            loop {
                while r.wants_block_group() && at + group <= file.len() {
                    r.accept_block_group(&file[at..at + group]);
                    at += group;
                }
                match r.take_frame() {
                    Some(f) => frames.push(f.channels),
                    None => return frames,
                }
            }
        }
        (StreamInput::Dsd(DsdStreamReader::Dsdiff(mut r)), mut at) => {
            while let FrameRead::Read(n) = r.next_read() {
                frames.push(r.accept_frame(&file[at..at + n]).channels);
                at += n;
            }
            frames
        }
        _ => panic!("no uncompressed file"),
    }
}

/// Some bytes that look like noise.
fn noise(n: usize, seed: u32) -> Vec<u8> {
    let mut x = seed;
    (0..n)
        .map(|_| {
            x = x.wrapping_mul(1_664_525).wrapping_add(1_013_904_223);
            (x >> 24) as u8
        })
        .collect()
}

fn options() -> EncodeOptions {
    EncodeOptions { pred_order: 16, verify: true, ..EncodeOptions::default() }
}

fn coefs() -> Vec<Vec<i16>> {
    vec![(0..16).map(|i| ((i * 37) % 511 - 256) as i16).collect()]
}

fn channels(n_frames: usize, fb: usize) -> Vec<Vec<Vec<u8>>> {
    (0..n_frames as u32).map(|k| vec![noise(fb, 2 * k), noise(fb, 2 * k + 1)]).collect()
}

/// Metadata for frames of 32 bits.
fn small_meta(n_frames: u64) -> DsdMetadata {
    DsdMetadata::from_params(2400, 2, 32 * n_frames)
}

/// Encode frames to a file.
fn encode_all(meta: &DsdMetadata, frames: &[Vec<Vec<u8>>]) -> Vec<u8> {
    let (mut encoder, mut out) = Encoder::start(meta).unwrap();
    for (i, f) in frames.iter().enumerate() {
        let frame = DsdFrame { channels: f.clone() };
        match encode(&mut encoder, &frame, &options(), &coefs()) {
            EncodeStep::Write(bytes, progress) => {
                out.extend(bytes);
                assert_eq!(progress.frame, i);
                assert_eq!(progress.total_frames, meta.n_frames);
                assert_eq!(progress.dst_frames, i + 1);
                assert_eq!(progress.raw_frames, 0);
                assert_eq!(progress.raw_bytes_per_frame, 8);
            }
            _ => panic!("frame {i} is not encoded"),
        }
    }
    let (end, stats) = encoder.finish();
    assert_eq!(stats.total_frames, frames.len());
    assert_eq!(stats.dst_frames, frames.len());
    assert_eq!(stats.raw_frames, 0);
    complete(out, &end)
}

/// Decode a file.
fn decode_all(file: &[u8], format: OutputFormat) -> Vec<u8> {
    let input = dst_frames(file);
    let (mut decoder, mut out) = Decoder::start(&input.metadata, format).unwrap();
    let n = input.frames.len();
    for f in &input.frames {
        match decode(&mut decoder, f) {
            DecodeStep::Write(bytes) => out.extend(bytes),
            _ => panic!("a frame does not decode"),
        }
    }
    let (end, stats) = decoder.finish();
    assert_eq!(stats.total_frames, n);
    assert_eq!(stats.crc_checked, n);
    complete(out, &end)
}

#[test]
fn default_options() {
    let o = EncodeOptions::default();
    assert_eq!(o.pred_order, 128);
    assert!(o.share_filters);
    assert!(o.half_prob);
    assert!(!o.verify);
    assert_eq!(o.threads, 0);
}

#[test]
fn an_encoded_file_decodes_to_what_it_was_made_of() {
    let frames = channels(3, 4);
    let meta = small_meta(3);
    let file = encode_all(&meta, &frames);
    let dsf = decode_all(&file, OutputFormat::Dsf);
    assert_eq!(dsd_frames(&dsf), frames);
    assert_eq!(dsf[64..72], 96u64.to_le_bytes());
    let dsdiff = decode_all(&file, OutputFormat::DsdiffUncompressed);
    assert_eq!(dsd_frames(&dsdiff), frames);
}

#[test]
fn an_encoded_file_keeps_its_parameters() {
    let file = encode_all(&small_meta(2), &channels(2, 4));
    let input = dst_frames(&file);
    assert_eq!(input.metadata.sample_rate, 2400);
    assert_eq!(input.metadata.n_channels, 2);
    assert_eq!(input.metadata.n_frames, 2);
    assert_eq!(input.metadata.frame_bits, 32);
    assert_eq!(input.metadata.total_samples, 64);
}

#[test]
fn a_good_file_passes_the_test() {
    let file = encode_all(&small_meta(3), &channels(3, 4));
    let mut input = dst_frames(&file);
    input.frames[1].crc = None;
    let seen: RefCell<Vec<(usize, usize)>> = RefCell::new(Vec::new());
    let progress = |i: usize, n: usize| seen.borrow_mut().push((i, n));
    let stats = cladst::decode::test(&mut input, Some(progress)).unwrap().unwrap();
    assert_eq!(stats.total_frames, 3);
    assert_eq!(stats.crc_checked, 2);
    assert_eq!(seen.into_inner(), vec![(0, 3), (1, 3), (2, 3)]);
}

#[test]
fn a_wrong_crc_fails_the_test_and_the_decoder() {
    let file = encode_all(&small_meta(2), &channels(2, 4));
    let mut input = dst_frames(&file);
    let right = input.frames[1].crc.unwrap();
    input.frames[1].crc = Some(right ^ 1);
    let (mut decoder, _) = Decoder::start(&input.metadata, OutputFormat::Dsf).unwrap();
    assert!(matches!(decode(&mut decoder, &input.frames[0]), DecodeStep::Write(_)));
    match decode(&mut decoder, &input.frames[1]) {
        DecodeStep::Failed(CladstError::CrcMismatch { frame, expected, computed }) => {
            assert_eq!((frame, expected, computed), (1, right ^ 1, right));
        }
        _ => panic!("the CRC is not checked"),
    }
    let seen: RefCell<Vec<(usize, usize)>> = RefCell::new(Vec::new());
    let progress = |i: usize, n: usize| seen.borrow_mut().push((i, n));
    match cladst::decode::test(&mut input, Some(progress)) {
        Some(Err(CladstError::CrcMismatch { frame, expected, computed })) => {
            assert_eq!((frame, expected, computed), (1, right ^ 1, right));
        }
        _ => panic!("the CRC is not checked"),
    }
    assert_eq!(seen.into_inner(), vec![(0, 2)]);
}

#[test]
fn a_refused_frame_fails_the_test_and_the_decoder() {
    let frames = || vec![DstFrame { data: vec![0x80], crc: None }];
    let meta = small_meta(1);
    match cladst::decode::test(&mut Frames { metadata: meta, frames: frames() }, None::<fn(usize, usize)>) {
        Some(Err(CladstError::Codec(m))) => assert_eq!(m, "only PSameSegAsF=1 supported"),
        _ => panic!("the frame is not refused"),
    }
    let (mut decoder, _) = Decoder::start(&meta, OutputFormat::DsdiffUncompressed).unwrap();
    match decode(&mut decoder, &frames()[0]) {
        DecodeStep::Failed(CladstError::Codec(m)) => assert_eq!(m, "only PSameSegAsF=1 supported"),
        _ => panic!("the frame is not refused"),
    }
}

#[test]
fn a_reader_that_fails_ends_the_test() {
    let mut reader = Broken { metadata: small_meta(1) };
    match cladst::decode::test(&mut reader, None::<fn(usize, usize)>) {
        Some(Err(CladstError::Io(e))) => {
            assert_eq!(e.kind(), std::io::ErrorKind::UnexpectedEof);
        }
        _ => panic!("the error is lost"),
    }
}

#[test]
fn a_reader_that_breaks_off_ends_the_test_and_the_adapter() {
    let file = encode_all(&small_meta(2), &channels(2, 4));
    let input = dst_frames(&file);
    let mut reader = BreaksOff { inner: input, left: 1 };
    match cladst::decode::test(&mut reader, None::<fn(usize, usize)>) {
        Some(Err(CladstError::Io(e))) => {
            assert_eq!(e.kind(), std::io::ErrorKind::UnexpectedEof);
        }
        _ => panic!("the error is lost"),
    }
    let mut adapter = DstToDsdAdapter::new(BreaksOff { inner: dst_frames(&file), left: 1 });
    assert!(adapter.try_next_frame().unwrap().unwrap().is_some());
    assert!(matches!(adapter.try_next_frame(), Some(Err(CladstError::Io(_)))));
}

#[test]
fn an_empty_reader_passes_the_test() {
    let mut reader = Frames { metadata: small_meta(0), frames: vec![] };
    let stats = cladst::decode::test(&mut reader, None::<fn(usize, usize)>).unwrap().unwrap();
    assert_eq!((stats.total_frames, stats.crc_checked), (0, 0));
}

#[test]
fn the_number_of_threads_changes_nothing() {
    let channel = noise(16, 3);
    let coded: Vec<Vec<u8>> = [0, 1, 7]
        .iter()
        .map(|&threads| {
            let o = EncodeOptions { threads, ..options() };
            encode_single_frame(&[&channel], 128, 16, 1, 0, &o, &coefs()).unwrap().unwrap()
        })
        .collect();
    assert_eq!(coded[0], coded[1]);
    assert_eq!(coded[0], coded[2]);
}

#[test]
fn a_frame_crc_is_checked_over_the_interleaved_bytes() {
    let decoded = vec![vec![1u8, 2, 99], vec![3, 4, 99]];
    let crc = dst_frame_crc(&[1, 3, 2, 4]);
    assert!(verify_frame_crc(&decoded, 2, crc, 7).is_ok());
    match verify_frame_crc(&decoded, 2, 5, 7) {
        Err(CladstError::CrcMismatch { frame, expected, computed }) => {
            assert_eq!((frame, expected, computed), (7, 5, crc));
        }
        _ => panic!("the CRC is not checked"),
    }
}

#[test]
fn the_adapter_decodes_on_the_fly() {
    let frames = channels(2, 4);
    let file = encode_all(&small_meta(2), &frames);
    let mut adapter = DstToDsdAdapter::new(dst_frames(&file));
    assert_eq!(adapter.metadata().n_frames, 2);
    for f in &frames {
        let read = adapter.try_next_frame().unwrap().unwrap().unwrap();
        assert_eq!(&read.channels, f);
    }
    assert!(adapter.try_next_frame().unwrap().unwrap().is_none());
}

#[test]
fn verification_finds_coefficients_that_are_cut_off() {
    // Nine bits hold -212 of 300, so the decoder predicts otherwise
    let mut o = EncodeOptions { pred_order: 2, half_prob: false, ..EncodeOptions::default() };
    let wide = vec![vec![300i16, 0]];
    let channel = noise(16, 3);
    assert!(encode_single_frame(&[&channel], 128, 16, 1, 5, &o, &wide).unwrap().is_ok());
    o.verify = true;
    match encode_single_frame(&[&channel], 128, 16, 1, 5, &o, &wide) {
        Some(Err(CladstError::VerifyFailed { frame, channel, diffs })) => {
            assert_eq!((frame, channel), (5, 0));
            assert!(diffs > 0);
        }
        _ => panic!("the difference is not found"),
    }
}

#[test]
fn verification_passes_what_even_odds_code() {
    let o = EncodeOptions {
        pred_order: 2,
        half_prob: false,
        verify: true,
        ..EncodeOptions::default()
    };
    let data = encode_single_frame(&[&[0x1fu8]], 8, 1, 1, 5, &o, &[vec![0i16, 0]]);
    assert_eq!(
        data.unwrap().unwrap(),
        vec![0xfc, 0x06, 0x00, 0x04, 0x07, 0xfe, 0x90, 0x00, 0x00]
    );
}

#[test]
fn filters_come_from_the_first_channel_or_from_each() {
    assert_eq!(filter_sources(3, true), vec![0]);
    assert_eq!(filter_sources(3, false), vec![0, 1, 2]);
}

#[test]
fn fewer_frames_than_announced() {
    let frames = channels(2, 4);
    let file = encode_all(&small_meta(3), &frames);
    let dsf = decode_all(&file, OutputFormat::Dsf);
    // The samples are those of the frames that were there
    assert_eq!(dsf[64..72], 64u64.to_le_bytes());
    assert_eq!(dsd_frames(&dsf), frames);
}

#[test]
fn a_frame_is_cut_to_whole_bytes() {
    // Twelve bits decode to two bytes, of which the metadata counts one
    let meta = DsdMetadata::from_params(900, 1, 12);
    assert_eq!((meta.frame_bits, meta.frame_bytes_per_ch), (12, 1));
    let o = EncodeOptions { pred_order: 16, ..EncodeOptions::default() };
    let data = encode_single_frame(&[&[0x69u8, 0x90]], 12, 1, 1, 0, &o, &coefs());
    let dst = || DstFrame { data: data.as_ref().unwrap().as_ref().unwrap().clone(), crc: None };
    assert_eq!(decode_frame(&dst(), &meta).unwrap().unwrap().channels, vec![vec![0x69]]);
    let mut adapter = DstToDsdAdapter::new(Frames { metadata: meta, frames: vec![dst()] });
    let read = adapter.try_next_frame().unwrap().unwrap().unwrap();
    assert_eq!(read.channels, vec![vec![0x69]]);
    // Channels that are too short give nothing
    let long = DsdMetadata { frame_bytes_per_ch: 3, ..meta };
    assert!(decode_frame(&dst(), &long).is_none());
}

#[test]
fn verification_compares_lengths_too() {
    // Twelve bits decode to two bytes, of which one is compared
    let o = EncodeOptions { pred_order: 16, verify: true, ..EncodeOptions::default() };
    let channel = [0x69u8, 0x90];
    match encode_single_frame(&[&channel], 12, 1, 1, 0, &o, &coefs()) {
        Some(Err(CladstError::VerifyFailed { frame, channel, diffs })) => {
            assert_eq!((frame, channel, diffs), (0, 0, 0));
        }
        _ => panic!("the difference is not found"),
    }
}

#[test]
fn frames_that_cannot_be_coded() {
    let o = options();
    let c = coefs();
    let channel = [0x69u8; 4];
    // No channels, too few bytes, too many coefficients, no filter
    assert!(encode_single_frame(&[], 32, 4, 0, 0, &o, &c).is_none());
    assert!(encode_single_frame(&[&channel], 33, 4, 1, 0, &o, &c).is_none());
    assert!(encode_single_frame(&[&channel], 32, 4, 1, 0, &o, &[vec![1; 17]]).is_none());
    assert!(encode_single_frame(&[&channel], 32, 4, 1, 0, &o, &[]).is_none());
    // More channels to compare than there are
    assert!(encode_single_frame(&[&channel], 32, 4, 2, 0, &o, &c).is_none()
        || encode_single_frame(&[&channel], 32, 4, 2, 0, &o, &c).unwrap().is_err());
    assert!(encode_single_frame(&[&channel], 32, 4, 1, 0, &o, &c).unwrap().is_ok());
}

#[test]
fn raw_frames_are_counted() {
    let meta = small_meta(2);
    let (mut encoder, mut out) = Encoder::start(&meta).unwrap();
    let (a, b) = ([1u8, 2, 3, 4], [5u8, 6, 7, 8]);
    let raw = [0u8, 1, 5, 2, 6, 3, 7, 4, 8];
    let (bytes, progress) = encoder.write_frame(&raw, &[&a, &b]).unwrap();
    assert_eq!((progress.dst_frames, progress.raw_frames, progress.compressed_bytes), (0, 1, 9));
    out.extend(bytes);
    // Nothing is written of a frame without bytes
    assert!(encoder.write_frame(&[], &[&a, &b]).is_none());
    assert!(encoder.write_frame(&raw, &[&a, &b[..3]]).is_none());
    let (end, stats) = encoder.finish();
    assert_eq!((stats.total_frames, stats.dst_frames, stats.raw_frames), (1, 0, 1));
    assert_eq!((stats.compressed_bytes, stats.raw_bytes_per_frame), (9, 8));
    let file = complete(out, &end);
    let decoded = decode_all(&file, OutputFormat::DsdiffUncompressed);
    assert_eq!(dsd_frames(&decoded), vec![vec![a.to_vec(), b.to_vec()]]);
}

#[test]
fn a_run_without_channels_gives_no_dsf_file() {
    let meta = DsdMetadata::from_params(2400, 0, 32);
    assert!(Decoder::start(&meta, OutputFormat::Dsf).is_none());
    assert!(Decoder::start(&meta, OutputFormat::DsdiffUncompressed).is_some());
}

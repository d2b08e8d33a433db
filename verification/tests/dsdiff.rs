//! DSDIFF files, the CRC, and opening files of any kind.

use cladst::error::CladstError;
use cladst::format::dsdiff::chunk::{write_chunk, write_chunk_header};
use cladst::format::dsdiff::prop::build_prop_data;
use cladst::format::dsdiff::dsd::FrameRead;
use cladst::format::dsdiff::dst::FrameReply;
use cladst::format::dsdiff::{
    dst_frame_crc, DsdDsdiffStreamReader, DsdDsdiffWriter, DstDsdiffStreamReader, DstDsdiffWriter,
    DstFrame,
};
use cladst::format::dsf::DsfWriter;
use cladst::format::open::{OpenReply, Opening};
use cladst::format::patch::FileEnd;
use cladst::format::{DsdStreamReader, StreamInput};

/// The complete file.
fn complete(mut written: Vec<u8>, end: &FileEnd) -> Vec<u8> {
    written.extend_from_slice(&end.tail);
    for p in &end.patches {
        let at = p.offset as usize;
        written[at..at + p.bytes.len()].copy_from_slice(&p.bytes);
    }
    written
}

/// A part of a file, if it is there.
fn part(file: &[u8], (at, n): (u64, usize)) -> Option<Vec<u8>> {
    let at = at as usize;
    if at <= file.len() && n <= file.len() - at {
        Some(file[at..at + n].to_vec())
    } else {
        None
    }
}

fn open(file: &[u8]) -> OpenReply {
    let mut opening = Opening::new();
    while let Some(wanted) = opening.request() {
        opening = opening.supply(part(file, wanted));
    }
    opening.finish()
}

fn refusal(file: &[u8]) -> String {
    match open(file) {
        OpenReply::Failed(CladstError::Format(m)) => m,
        _ => panic!("not refused"),
    }
}

fn open_dst(file: &[u8]) -> (DstDsdiffStreamReader, u64) {
    match open(file) {
        OpenReply::Opened(StreamInput::Dst(r), at) => (r, at),
        _ => panic!("no DST file"),
    }
}

fn open_dsd(file: &[u8]) -> (DsdDsdiffStreamReader, u64) {
    match open(file) {
        OpenReply::Opened(StreamInput::Dsd(DsdStreamReader::Dsdiff(r)), at) => (r, at),
        _ => panic!("no uncompressed file"),
    }
}

fn dsd_file(rate: u32, frames: &[Vec<Vec<u8>>], n: usize) -> Vec<u8> {
    let (mut w, mut out) = DsdDsdiffWriter::new(rate, frames[0].len());
    for f in frames {
        out.extend(w.write_frame(f, n));
    }
    complete(out, &w.finish())
}

fn dst_file(rate: u32, n_channels: usize, n_frames: u32, frames: &[(Vec<u8>, Vec<Vec<u8>>)]) -> Vec<u8> {
    let (mut w, mut out) = DstDsdiffWriter::new(rate, n_channels, n_frames);
    for (data, channels) in frames {
        let refs: Vec<&[u8]> = channels.iter().map(|c| c.as_slice()).collect();
        out.extend(w.write_frame(data, &refs));
    }
    complete(out, &w.finish())
}

/// What comes of the next frame of a file.
fn next_frame(reader: &mut DstDsdiffStreamReader, file: &[u8]) -> FrameReply {
    match reader.start_frame() {
        None => FrameReply::End,
        Some(mut search) => {
            while let Some(wanted) = search.request() {
                search = search.supply(part(file, wanted));
            }
            reader.finish_frame(search)
        }
    }
}

fn frame(reply: FrameReply) -> DstFrame {
    match reply {
        FrameReply::Frame(f) => f,
        other => panic!("no frame: {other:?}"),
    }
}

#[test]
fn crc_values() {
    assert_eq!(dst_frame_crc(&[]), 0);
    assert_eq!(dst_frame_crc(&[1]), 0x8000_0011);
    assert_eq!(dst_frame_crc(&[0x80]), 0x8000_0f0f);
    assert_eq!(dst_frame_crc(&[0x69; 8]), 0x2aaa_af75);
    assert_eq!(dst_frame_crc(b"123456789"), 0xb27c_e117);
}

#[test]
fn a_crc_behind_its_data_leaves_nothing() {
    let mut data = b"123456789".to_vec();
    let crc = dst_frame_crc(&data);
    data.extend_from_slice(&crc.to_be_bytes());
    assert_eq!(dst_frame_crc(&data), 0);
}

#[test]
fn a_crc_tells_a_wrong_bit() {
    let data = b"123456789".to_vec();
    for i in 0..8 * data.len() {
        let mut wrong = data.clone();
        wrong[i / 8] ^= 1 << (i % 8);
        assert_ne!(dst_frame_crc(&wrong), dst_frame_crc(&data));
    }
}

#[test]
fn chunks_have_even_sizes() {
    let mut out = Vec::new();
    write_chunk(&mut out, b"ABCD", &[1, 2, 3]);
    write_chunk_header(&mut out, b"EFGH", 258);
    let expected: Vec<u8> = vec![
        65, 66, 67, 68, 0, 0, 0, 0, 0, 0, 0, 3, 1, 2, 3, 0, 69, 70, 71, 72, 0, 0, 0, 0, 0, 0, 1, 2,
    ];
    assert_eq!(out, expected);
}

#[test]
fn properties_of_a_stereo_file() {
    let data = build_prop_data(2_822_400, 2, b"DST ", b"DST Encoded");
    let mut expected: Vec<u8> = b"SND FS  ".to_vec();
    expected.extend_from_slice(&4u64.to_be_bytes());
    expected.extend_from_slice(&2_822_400u32.to_be_bytes());
    expected.extend_from_slice(b"CHNL");
    expected.extend_from_slice(&10u64.to_be_bytes());
    expected.extend_from_slice(&2u16.to_be_bytes());
    expected.extend_from_slice(b"SLFTSRGTCMPR");
    expected.extend_from_slice(&16u64.to_be_bytes());
    expected.extend_from_slice(b"DST \x0bDST Encoded");
    assert_eq!(data, expected);
}

#[test]
fn properties_come_back_whatever_the_compression_is_called() {
    let names: [&[u8]; 4] = [b"", b"a", b"not compressed", b"a longer name of odd length"];
    for name in names {
        let mut file = b"FRM8\0\0\0\0\0\0\0\0DSD ".to_vec();
        write_chunk(&mut file, b"FVER", &[1, 5, 0, 0]);
        write_chunk(&mut file, b"PROP", &build_prop_data(1200, 3, b"DSD ", name));
        write_chunk(&mut file, b"DSD ", &[1, 2, 3, 4, 5, 6]);
        let (reader, at) = open_dsd(&file);
        assert_eq!(reader.metadata().sample_rate, 1200);
        assert_eq!(reader.metadata().n_channels, 3);
        assert_eq!(at as usize, file.len() - 6);
    }
}

#[test]
fn channels_have_names() {
    let names = |n: usize| -> Vec<u8> {
        let data = build_prop_data(600, n, b"DSD ", b"not compressed");
        data[34..34 + 4 * n].to_vec()
    };
    assert_eq!(names(6), b"MLFTMRGTC   LFE LS  RS  ".to_vec());
    assert_eq!(names(3), b"MLFTMRGTC   ".to_vec());
    assert_eq!(&names(8)[24..], b"C006C007");
    assert_eq!(names(1), b"MLFT".to_vec());
}

#[test]
fn an_uncompressed_file_comes_back() {
    let frames = vec![
        vec![vec![1, 2, 3, 4], vec![5, 6, 7, 8]],
        vec![vec![9, 10, 11, 12], vec![13, 14, 15, 16]],
    ];
    let file = dsd_file(2400, &frames, 4);
    assert_eq!(&file[0..4], b"FRM8");
    assert_eq!(file[4..12], (file.len() as u64 - 12).to_be_bytes());
    assert_eq!(&file[12..20], b"DSD FVER");
    let (mut reader, at) = open_dsd(&file);
    assert_eq!(file[at as usize - 8..at as usize], 16u64.to_be_bytes());
    assert_eq!(file[at as usize..], [1, 5, 2, 6, 3, 7, 4, 8, 9, 13, 10, 14, 11, 15, 12, 16]);
    assert_eq!(reader.metadata().n_frames, 2);
    assert_eq!(reader.metadata().sample_rate, 2400);
    let mut at = at as usize;
    for f in &frames {
        match reader.next_read() {
            FrameRead::Read(n) => {
                assert_eq!(&reader.accept_frame(&file[at..at + n]).channels, f);
                at += n;
            }
            other => panic!("{other:?}"),
        }
    }
    assert!(matches!(reader.next_read(), FrameRead::End));
}

#[test]
fn the_last_uncompressed_frame_may_be_short() {
    // Three bytes per channel, and one more byte
    let mut file = dsd_file(2400, &[vec![vec![1, 2, 3, 4], vec![5, 6, 7, 8]]], 4);
    let (_, at) = open_dsd(&file);
    let at = at as usize;
    file[at - 8..at].copy_from_slice(&7u64.to_be_bytes());
    let (mut reader, _) = open_dsd(&file);
    assert_eq!(reader.metadata().n_frames, 1);
    match reader.next_read() {
        FrameRead::Read(n) => {
            assert_eq!(n, 7);
            let f = reader.accept_frame(&file[at..at + 7]);
            assert_eq!(f.channels, vec![vec![1, 2, 3, 4], vec![5, 6, 7, 0]]);
        }
        other => panic!("{other:?}"),
    }
}

#[test]
fn dst_frames_come_back_with_their_crc() {
    let frames = vec![
        (vec![0xfc, 1, 2], vec![vec![1, 2, 3, 4], vec![5, 6, 7, 8]]),
        (vec![0xfc, 3], vec![vec![0; 4], vec![255; 4]]),
    ];
    let file = dst_file(2400, 2, 2, &frames);
    let (mut reader, at) = open_dst(&file);
    assert_eq!(reader.position(), at);
    assert_eq!(reader.metadata().n_frames, 2);
    let first = frame(next_frame(&mut reader, &file));
    assert_eq!(first.data, vec![0xfc, 1, 2]);
    assert_eq!(first.crc, Some(dst_frame_crc(&[1, 5, 2, 6, 3, 7, 4, 8])));
    let second = frame(next_frame(&mut reader, &file));
    assert_eq!(second.data, vec![0xfc, 3]);
    assert_eq!(second.crc, Some(dst_frame_crc(&[0, 255, 0, 255, 0, 255, 0, 255])));
    assert!(matches!(next_frame(&mut reader, &file), FrameReply::End));
}

#[test]
fn a_dst_file_ends_with_its_index() {
    let file = dst_file(2400, 1, 1, &[(vec![0xfc, 1, 2], vec![vec![1, 2, 3, 4]])]);
    assert_eq!(file[4..12], (file.len() as u64 - 12).to_be_bytes());
    let index = &file[file.len() - 24..];
    assert_eq!(&index[..4], b"DSTI");
    assert_eq!(index[4..12], 12u64.to_be_bytes());
    // DSTF stands behind the 18 bytes of FRTE and takes 12 + 3 + 1
    assert_eq!(index[12..20], 18u64.to_be_bytes());
    assert_eq!(index[20..24], 16u32.to_be_bytes());
}

#[test]
fn a_frame_without_dstc_has_no_crc() {
    let mut file = dst_file(2400, 1, 1, &[(vec![0xfc, 1], vec![vec![1, 2, 3, 4]])]);
    let at = file.windows(4).position(|w| w == b"DSTC").unwrap();
    file[at..at + 4].copy_from_slice(b"JUNK");
    let (mut reader, _) = open_dst(&file);
    let f = frame(next_frame(&mut reader, &file));
    assert_eq!(f.data, vec![0xfc, 1]);
    assert_eq!(f.crc, None);
}

#[test]
fn a_small_dstc_is_refused() {
    let mut file = dst_file(2400, 1, 1, &[(vec![0xfc, 1], vec![vec![1, 2, 3, 4]])]);
    let at = file.windows(4).position(|w| w == b"DSTC").unwrap();
    file[at + 11] = 3;
    let (mut reader, _) = open_dst(&file);
    match next_frame(&mut reader, &file) {
        FrameReply::Failed(CladstError::Format(m)) => assert_eq!(m, "DSTC chunk too small for CRC"),
        other => panic!("{other:?}"),
    }
}

#[test]
fn a_frame_that_is_cut_off_is_missing() {
    let file = dst_file(2400, 1, 1, &[(vec![0xfc; 40], vec![vec![1, 2, 3, 4]])]);
    let at = file.windows(4).position(|w| w == b"DSTF").unwrap();
    let cut = &file[..at + 20];
    let (mut reader, _) = open_dst(cut);
    assert!(matches!(next_frame(&mut reader, cut), FrameReply::Unreadable));
    // Without a whole header there is no frame
    let cut = &file[..at + 8];
    let (mut reader, _) = open_dst(cut);
    assert!(matches!(next_frame(&mut reader, cut), FrameReply::End));
}

#[test]
fn a_dsf_file_opens() {
    let (mut w, mut out) = DsfWriter::new(2400, 1);
    out.extend(w.write_frame(&[vec![1, 2, 3, 4]], 4));
    let file = complete(out, &w.finish(32));
    match open(&file) {
        OpenReply::Opened(StreamInput::Dsd(reader), at) => {
            assert_eq!(at, 92);
            assert_eq!(reader.metadata().n_frames, 1);
            assert_eq!(reader.metadata().total_samples, 32);
            assert!(matches!(reader, DsdStreamReader::Dsf(_)));
        }
        _ => panic!("no DSF file"),
    }
    assert!(matches!(open(&file[..60]), OpenReply::Unreadable));
}

#[test]
fn other_files_are_refused() {
    assert_eq!(refusal(b"abc"), "file too small to be a valid DSD file");
    assert_eq!(
        refusal(b"RIFF...."),
        "unrecognized file format (magic: \"RIFF\"), expected DSF or DSDIFF"
    );
    // A quotation mark is escaped, and what is no text is not shown
    assert_eq!(
        refusal(b"a\"b\n"),
        "unrecognized file format (magic: \"a\\\"b\\n\"), expected DSF or DSDIFF"
    );
    assert_eq!(
        refusal(&[0xff, 0xfe, 1, 2]),
        "unrecognized file format (magic: \"????\"), expected DSF or DSDIFF"
    );
}

#[test]
fn files_with_broken_properties_are_refused() {
    let file = dsd_file(2400, &[vec![vec![1, 2, 3, 4]]], 4);
    let at = file.windows(4).position(|w| w == b"CMPR").unwrap();
    let mut other = file.clone();
    other[at + 12..at + 16].copy_from_slice(b"MP3 ");
    assert_eq!(refusal(&other), "unsupported DSDIFF compression: \"MP3 \"");
    let prop = file.windows(4).position(|w| w == b"PROP").unwrap();
    let mut other = file.clone();
    other[prop..prop + 4].copy_from_slice(b"JUNK");
    assert_eq!(refusal(&other), "missing PROP chunk in DSDIFF file");
    let mut other = file.clone();
    let fs = file.windows(4).position(|w| w == b"FS  ").unwrap();
    other[fs + 12..fs + 16].copy_from_slice(&[0; 4]);
    assert_eq!(refusal(&other), "incomplete DSDIFF: missing FS, CHNL, or DSD data chunk");
}

#[test]
fn dst_files_with_a_broken_start_are_refused() {
    let file = dst_file(2400, 1, 1, &[(vec![0xfc, 1], vec![vec![1, 2, 3, 4]])]);
    let at = file.windows(4).position(|w| w == b"FRTE").unwrap();
    let mut other = file.clone();
    other[at..at + 4].copy_from_slice(b"FRTX");
    assert_eq!(refusal(&other), "expected FRTE chunk at start of DST data, got \"FRTX\"");
    let mut other = file.clone();
    other[at + 16..at + 18].copy_from_slice(&[0, 60]);
    assert_eq!(refusal(&other), "unexpected DST frame rate: 60 (expected 75)");
}

/// The parts of a file that its opening asks for.
fn parts_read(file: &[u8]) -> Vec<(u64, usize)> {
    let mut opening = Opening::new();
    let mut parts = Vec::new();
    while let Some(wanted) = opening.request() {
        parts.push(wanted);
        opening = opening.supply(part(file, wanted));
    }
    parts
}

#[test]
fn a_dsf_header_is_read_part_by_part() {
    let (mut w, mut out) = DsfWriter::new(2400, 1);
    out.extend(w.write_frame(&[vec![1, 2, 3, 4]], 4));
    let file = complete(out, &w.finish(32));
    assert_eq!(parts_read(&file), vec![(0, 4), (4, 28), (32, 8), (40, 40), (80, 4), (84, 8)]);
    assert_eq!(parts_read(b"abc"), vec![(0, 4)]);
}

#[test]
fn a_search_reads_headers_and_properties_only() {
    let file = dsd_file(2400, &[vec![vec![1, 2, 3, 4]]], 4);
    let at = |id: &[u8]| file.windows(4).position(|w| w == id).unwrap() as u64;
    let (prop, fs, chnl, cmpr) = (at(b"PROP"), at(b"FS  "), at(b"CHNL"), at(b"CMPR"));
    let data = file.len() as u64 - 16;
    let props = vec![
        (16, 12),
        (prop, 12),
        (prop + 12, 4),
        (fs, 12),
        (fs + 12, 4),
        (chnl, 12),
        (chnl + 12, 2),
        (cmpr, 12),
        (cmpr + 12, 4),
        (data, 12),
    ];
    // Once for the compression, to the end of the file, and once more for the data
    let mut expected = vec![(0, 4)];
    expected.extend_from_slice(&props);
    expected.push((file.len() as u64, 12));
    expected.extend_from_slice(&props);
    assert_eq!(parts_read(&file), expected);
}

#[test]
fn a_search_ends_where_a_prop_chunk_is_empty() {
    let mut file = b"FRM8".to_vec();
    file.extend_from_slice(&[0; 8]);
    file.extend_from_slice(b"DSD PROP");
    file.extend_from_slice(&0u64.to_be_bytes());
    file.extend_from_slice(b"JUNK");
    file.extend_from_slice(&0u64.to_be_bytes());
    assert_eq!(parts_read(&file), vec![(0, 4), (16, 12), (28, 4), (28, 12), (40, 12)]);
    assert_eq!(refusal(&file), "unsupported DSDIFF compression: \"\\0\\0\\0\\0\"");
}

#[test]
fn a_frame_is_read_part_by_part() {
    let file = dst_file(2400, 1, 1, &[(vec![0xfc, 1, 2], vec![vec![1, 2, 3, 4]])]);
    let (reader, at) = open_dst(&file);
    let mut search = reader.start_frame().unwrap();
    let mut parts = Vec::new();
    while let Some(wanted) = search.request() {
        parts.push(wanted);
        search = search.supply(part(&file, wanted));
    }
    let expected = vec![(at, 12), (at + 12, 3), (at + 16, 4), (at + 20, 8), (at + 28, 4)];
    assert_eq!(parts, expected);
}

#[test]
fn frames_of_a_file_in_memory() {
    let chs = |k: u8| vec![vec![k, k + 1, k + 2, k + 3], vec![k + 4, k + 5, k + 6, k + 7]];
    // Frames of odd and of even length
    let frames = vec![(vec![0x80u8, 1, 2], chs(1)), (vec![0x81, 3], chs(50))];
    let file = dst_file(2400, 2, 2, &frames);
    let (mut reader, _) = open_dst(&file);
    for (data, channels) in &frames {
        let f = frame(reader.next_frame(&file));
        assert_eq!(&f.data, data);
        let woven: Vec<u8> = (0..4).flat_map(|i| [channels[0][i], channels[1][i]]).collect();
        assert_eq!(f.crc, Some(dst_frame_crc(&woven)));
    }
    assert!(matches!(reader.next_frame(&file), FrameReply::End));
    assert!(matches!(reader.next_frame(&file), FrameReply::End));
    // Without its last bytes the file has no second frame
    let (mut reader, at) = open_dst(&file);
    frame(reader.next_frame(&file));
    let short = &file[..at as usize + 32 + 12 + 1];
    assert!(!matches!(reader.next_frame(short), FrameReply::Frame(_)));
}

#[test]
fn frames_of_data_in_memory() {
    let mut file = dsd_file(2400, &[vec![vec![1, 2, 3, 4], vec![5, 6, 7, 8]]], 4);
    let (_, at) = open_dsd(&file);
    let at = at as usize;
    file.extend_from_slice(&[9, 10]);
    file[at - 8..at].copy_from_slice(&10u64.to_be_bytes());
    let (mut reader, at) = open_dsd(&file);
    let data = &file[at as usize..];
    assert_eq!(
        reader.next_frame(data).unwrap().channels,
        vec![vec![1, 2, 3, 4], vec![5, 6, 7, 8]]
    );
    // The last frame is filled up with zeros
    assert_eq!(
        reader.next_frame(data).unwrap().channels,
        vec![vec![9, 0, 0, 0], vec![10, 0, 0, 0]]
    );
    assert!(reader.next_frame(data).is_none());
}

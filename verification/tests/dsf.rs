//! DSF files: header, blocks, writing and reading.

use cladst::error::CladstError;
use cladst::format::dsf::{
    bit_reverse, build_bit_reverse_table, parse_dsf_header, DsfHeader, DsfStreamReader, DsfWriter,
};
use cladst::format::metadata::DsdMetadata;
use cladst::format::patch::FileEnd;
use cladst::format::step::HeaderStep;

/// The complete file.
fn complete(mut written: Vec<u8>, end: &FileEnd) -> Vec<u8> {
    written.extend_from_slice(&end.tail);
    for p in &end.patches {
        let at = p.offset as usize;
        written[at..at + p.bytes.len()].copy_from_slice(&p.bytes);
    }
    written
}

/// A DSF file with frames of `n` bytes.
fn dsf_file(rate: u32, frames: &[Vec<Vec<u8>>], n: usize, total_samples: u64) -> Vec<u8> {
    let (mut w, mut out) = DsfWriter::new(rate, frames[0].len());
    for f in frames {
        out.extend(w.write_frame(f, n));
    }
    complete(out, &w.finish(total_samples))
}

fn header(file: &[u8]) -> DsfHeader {
    match parse_dsf_header(file) {
        HeaderStep::Done(h) => h,
        _ => panic!("no header"),
    }
}

fn refusal(bytes: &[u8]) -> String {
    match parse_dsf_header(bytes) {
        HeaderStep::Failed(CladstError::Format(m)) => m,
        _ => panic!("not refused"),
    }
}

/// All frames of a file.
fn read_frames(file: &[u8]) -> Vec<Vec<Vec<u8>>> {
    let h = header(file);
    let mut at = h.data_start;
    let mut reader = DsfStreamReader::new(h);
    let group = reader.group_size().unwrap();
    let mut frames = Vec::new();
    loop {
        while reader.wants_block_group() && at + group <= file.len() {
            reader.accept_block_group(&file[at..at + group]);
            at += group;
        }
        match reader.take_frame() {
            Some(f) => frames.push(f.channels),
            None => return frames,
        }
    }
}

#[test]
fn bits_of_a_byte_are_reversed() {
    assert_eq!(bit_reverse(0b0000_0001), 0b1000_0000);
    assert_eq!(bit_reverse(0b1101_0010), 0b0100_1011);
    let table = build_bit_reverse_table();
    for b in 0..=255u8 {
        assert_eq!(table[b as usize], bit_reverse(b));
        assert_eq!(bit_reverse(bit_reverse(b)), b);
    }
}

#[test]
fn metadata_counts_frames() {
    let m = DsdMetadata::from_params(2_822_400, 2, 2_822_400);
    assert_eq!(m.frame_bits, 37632);
    assert_eq!(m.frame_bytes_per_ch, 4704);
    assert_eq!(m.n_frames, 75);
    assert_eq!(DsdMetadata::from_params(2_822_400, 2, 2_822_408).n_frames, 76);
    assert_eq!(DsdMetadata::from_params(600, 1, 0).n_frames, 0);
}

#[test]
fn a_small_file_has_these_bytes() {
    let file = dsf_file(600, &[vec![vec![0x80], vec![0x01]]], 1, 8);
    assert_eq!(file.len(), 92 + 2 * 4096);
    assert_eq!(&file[0..4], b"DSD ");
    assert_eq!(file[4..12], 28u64.to_le_bytes());
    assert_eq!(file[12..20], (92u64 + 8192).to_le_bytes());
    assert_eq!(file[20..28], 0u64.to_le_bytes());
    assert_eq!(&file[28..32], b"fmt ");
    assert_eq!(file[32..40], 52u64.to_le_bytes());
    assert_eq!(file[40..44], 1u32.to_le_bytes());
    assert_eq!(file[44..48], 0u32.to_le_bytes());
    assert_eq!(file[48..52], 2u32.to_le_bytes());
    assert_eq!(file[52..56], 2u32.to_le_bytes());
    assert_eq!(file[56..60], 600u32.to_le_bytes());
    assert_eq!(file[60..64], 1u32.to_le_bytes());
    assert_eq!(file[64..72], 8u64.to_le_bytes());
    assert_eq!(file[72..76], 4096u32.to_le_bytes());
    assert_eq!(file[76..80], 0u32.to_le_bytes());
    assert_eq!(&file[80..84], b"data");
    assert_eq!(file[84..92], (12u64 + 8192).to_le_bytes());
    // The first channel, LSB first, and the second behind its block
    assert_eq!(file[92], 0x01);
    assert_eq!(file[93], 0);
    assert_eq!(file[92 + 4096], 0x80);
}

#[test]
fn frames_come_back_across_blocks() {
    // Frames of 3000 bytes: the second one spans two blocks
    let frames: Vec<Vec<Vec<u8>>> = (0..3usize)
        .map(|k| {
            (0..2usize)
                .map(|ch| (0..3000usize).map(|i| (i * 7 + k * 31 + ch * 101) as u8).collect())
                .collect()
        })
        .collect();
    let file = dsf_file(1_800_000, &frames, 3000, 72_000);
    assert_eq!(file.len(), 92 + 3 * 8192);
    assert_eq!(read_frames(&file), frames);
}

#[test]
fn the_last_frame_is_filled_up_with_zeros() {
    // Six valid bytes in frames of four
    let frames = vec![vec![vec![1, 2, 3, 4]], vec![vec![5, 6, 7, 8]]];
    let file = dsf_file(2400, &frames, 4, 48);
    assert_eq!(read_frames(&file), vec![vec![vec![1, 2, 3, 4]], vec![vec![5, 6, 0, 0]]]);
}

#[test]
fn without_a_sample_count_all_blocks_count() {
    let file = dsf_file(2400, &[vec![vec![9, 9, 9, 9]]], 4, 0);
    assert_eq!(file[64..72], (4096u64 * 8).to_le_bytes());
    assert_eq!(header(&file).valid_bytes_per_ch, 4096);
}

#[test]
fn a_header_is_asked_for_in_parts() {
    let file = dsf_file(2400, &[vec![vec![9, 9, 9, 9]]], 4, 0);
    for (have, need) in [(0usize, 4usize), (3, 4), (4, 32), (32, 40), (40, 80), (80, 84), (84, 92)] {
        match parse_dsf_header(&file[..have]) {
            HeaderStep::NeedMore(n) => assert_eq!(n, need),
            _ => panic!("{have} bytes are not enough"),
        }
    }
    let h = header(&file[..92]);
    assert_eq!(h.sample_rate, 2400);
    assert_eq!(h.channel_count, 1);
    assert_eq!(h.block_size, 4096);
    assert_eq!(h.data_start, 92);
}

#[test]
fn broken_headers_are_refused() {
    let file = dsf_file(2400, &[vec![vec![9, 9, 9, 9]]], 4, 0);
    assert_eq!(refusal(b"RIFF"), "not a DSF file: [82, 73, 70, 70]");
    let mut broken = file[..92].to_vec();
    broken[28..32].copy_from_slice(b"fnt ");
    assert_eq!(refusal(&broken), "expected fmt chunk: [102, 110, 116, 32]");
    let mut broken = file[..92].to_vec();
    broken[80..84].copy_from_slice(&[0, 10, 100, 255]);
    assert_eq!(refusal(&broken), "expected data chunk: [0, 10, 100, 255]");
    // A fmt chunk that is smaller than its header
    let mut broken = file[..92].to_vec();
    broken[32] = 11;
    assert!(matches!(parse_dsf_header(&broken), HeaderStep::Stuck));
}

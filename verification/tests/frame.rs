//! DST frames: exact bytes, round trips, and what is refused.

use cladst::codec::bitstream::{BitstreamReader, BitstreamWriter};
use cladst::codec::frame::{
    decode_dst_frame, encode_dst_frame, encode_raw_frame, read_filter_coef_set,
    read_mapping_data, read_probability_table, try_decode_dst_frame, write_filter_coef_set,
    write_mapping_data, write_probability_table,
};
use cladst::error::CladstError;

/// The message with which a frame is refused.
fn refusal(data: &[u8]) -> String {
    match try_decode_dst_frame(data, 2, 16) {
        Some(Err(CladstError::Codec(m))) => m,
        other => panic!("not refused: {other:?}"),
    }
}

/// Some bytes that look like noise.
fn noise(n: usize, seed: u32) -> Vec<u8> {
    let mut x = seed;
    (0..n)
        .map(|_| {
            x = x.wrapping_mul(1_664_525).wrapping_add(1_013_904_223);
            (x >> 24) as u8
        })
        .collect()
}

/// Encode and decode channels.
fn roundtrip(channels: &[Vec<u8>], order: usize, share: bool, half: bool, coefs: &[Vec<i16>]) {
    let refs: Vec<&[u8]> = channels.iter().map(|c| c.as_slice()).collect();
    let n_bits = 8 * channels[0].len();
    let data = encode_dst_frame(&refs, n_bits, order, share, half, coefs).unwrap();
    assert_eq!(data[0] & 0x80, 0x80);
    let back = decode_dst_frame(&data, channels.len(), n_bits).unwrap();
    assert_eq!(back, channels);
}

#[test]
fn a_frame_with_a_shared_filter_has_these_bytes() {
    let (a, b) = ([0x69u8, 0x96], [0xaau8, 0x0f]);
    let data = encode_dst_frame(
        &[&a, &b],
        16,
        4,
        true,
        true,
        &[vec![100, -50, 25, -12]],
    )
    .unwrap();
    let expected: Vec<u8> = vec![
        0xff, 0x06, 0x32, 0x73, 0x83, 0x3f, 0x45, 0xe7, 0xf9, 0x08, 0x42, 0x10, 0x84, 0x21,
        0x00, 0x1f, 0x80, 0xfa, 0x10, 0x6a, 0xd2, 0x00, 0x3f, 0x01, 0xf4, 0x21, 0x08, 0x41,
        0xec, 0xbf, 0x09, 0x51, 0x37, 0x00,
    ];
    assert_eq!(data, expected);
    assert_eq!(
        decode_dst_frame(&data, 2, 16).unwrap(),
        vec![vec![0x69, 0x96], vec![0xaa, 0x0f]]
    );
}

#[test]
fn a_frame_with_filters_of_its_channels_has_these_bytes() {
    let (a, b) = ([0x69u8, 0x96], [0xaau8, 0x0f]);
    let data = encode_dst_frame(
        &[&a, &b],
        13,
        3,
        false,
        false,
        &[vec![120, -60, 30], vec![-256, 255, 7]],
    )
    .unwrap();
    let expected: Vec<u8> = vec![
        0xfa, 0x02, 0x1e, 0x38, 0x81, 0xe0, 0x48, 0x03, 0xfc, 0x0e, 0xd4, 0xfe, 0x6a, 0xaa,
        0xaa, 0xaa, 0xa0, 0x00, 0x50, 0x00, 0x4a, 0xaa, 0x00, 0x00, 0x07, 0xfe, 0x54, 0x20,
        0x00, 0x00, 0xd5, 0x55, 0x55, 0x55, 0x55, 0x55, 0x55, 0x55, 0x55, 0x55, 0x55, 0x55,
        0x55, 0x55, 0x55, 0x50, 0x00, 0x00, 0x00, 0x00, 0x00, 0x01, 0x5e, 0xe9, 0x78, 0x47,
        0xf4,
    ];
    assert_eq!(data, expected);
    // Behind the thirteenth bit stand zeros
    assert_eq!(
        decode_dst_frame(&data, 2, 13).unwrap(),
        vec![vec![0x69, 0x90], vec![0xaa, 0x08]]
    );
}

#[test]
fn coding_is_lossless() {
    let coefs: Vec<i16> = (0..128).map(|i| ((i * 37) % 511 - 256) as i16).collect();
    let other: Vec<i16> = (0..128).map(|i| 100 - i as i16).collect();
    let channels = vec![noise(64, 1), noise(64, 2), noise(64, 3)];
    roundtrip(&channels, 128, true, true, &[coefs.clone()]);
    roundtrip(&channels, 128, true, false, &[coefs.clone()]);
    roundtrip(&channels, 128, false, true, &[coefs.clone(), other.clone(), coefs.clone()]);
    roundtrip(&channels, 128, false, false, &[coefs.clone(), other, coefs]);
    roundtrip(&[vec![0x69; 40]], 1, true, true, &[vec![-128]]);
    roundtrip(&vec![noise(8, 9); 6], 9, true, true, &[vec![3; 9]]);
}

#[test]
fn a_table_of_one_entry_stands_for_even_odds() {
    // All predictions are zero, so the table has one entry, which the frame does not hold
    let data = encode_dst_frame(&[&[0x1fu8]], 8, 2, true, false, &[vec![0, 0]]).unwrap();
    assert_eq!(data, vec![0xfc, 0x06, 0x00, 0x04, 0x07, 0xfe, 0x90, 0x00, 0x00]);
    assert_eq!(decode_dst_frame(&data, 1, 8).unwrap(), vec![vec![0x1f]]);
    let data = encode_dst_frame(&[&[0xc0u8]], 3, 1, true, false, &[vec![0]]).unwrap();
    assert_eq!(data, vec![0xfc, 0x00, 0x00, 0x01, 0xfe, 0x3c, 0x00]);
    assert_eq!(decode_dst_frame(&data, 1, 3).unwrap(), vec![vec![0xc0]]);
}

#[test]
fn a_raw_frame_holds_the_bytes_in_turn() {
    let (a, b) = ([1u8, 2, 3], [4u8, 5, 6]);
    let data = encode_raw_frame(&[&a, &b], 24);
    assert_eq!(data, vec![0, 1, 4, 2, 5, 3, 6]);
    assert_eq!(
        decode_dst_frame(&data, 2, 24).unwrap(),
        vec![vec![1, 2, 3], vec![4, 5, 6]]
    );
}

#[test]
fn a_short_raw_frame_ends_in_zeros() {
    assert_eq!(
        decode_dst_frame(&[0, 7, 8, 9], 2, 24).unwrap(),
        vec![vec![7, 9, 0], vec![8, 0, 0]]
    );
}

#[test]
fn frames_beyond_the_simple_form_are_refused() {
    assert_eq!(refusal(&[0b1000_0000]), "only PSameSegAsF=1 supported");
    assert_eq!(refusal(&[0b1100_0000]), "only SameSegAllCh=1 supported");
    assert_eq!(refusal(&[0b1110_0000]), "only 1 segment supported");
    assert_eq!(refusal(&[0b1111_0000]), "only PSameMapAsF=1 supported");
}

#[test]
fn the_validation_bit_is_checked() {
    // One map, no HalfProb; a filter of one zero, a table of one entry, and the bit
    let data = [0b1111_1100, 0b0000_0000, 0b0000_0000, 0b0000_0001];
    assert_eq!(refusal(&data), "validation bit must be 0");
}

#[test]
fn a_frame_without_its_tables_leads_nowhere() {
    // The filter announces a Rice method that does not exist
    let data = [0b1111_1100, 0b0000_0001, 0b1110_0000];
    assert!(try_decode_dst_frame(&data, 2, 16).is_none());
}

#[test]
fn a_set_of_coefficients_is_read_back() {
    let smooth: Vec<i16> = (0..128).map(|i| 200 - 3 * i as i16).collect();
    let rough: Vec<i16> = (0..128).map(|i| ((i * 197) % 512 - 256) as i16).collect();
    for coefs in [vec![-256], vec![255, -256, 0], smooth, rough] {
        let mut w = BitstreamWriter::new();
        write_filter_coef_set(&mut w, &coefs);
        assert!(w.bit_position() <= 8 + 9 * coefs.len());
        let bytes = w.get_bytes();
        let mut reader = BitstreamReader::new(&bytes);
        assert_eq!(read_filter_coef_set(&mut reader), Some(coefs));
        assert_eq!(reader.bit_position(), w.bit_position());
    }
}

#[test]
fn a_probability_table_is_read_back() {
    let rough: Vec<u8> = (0..64).map(|i| (i * 53 % 128 + 1) as u8).collect();
    for (table, back) in [
        (vec![1, 128, 64], vec![1, 128, 64]),
        (vec![120; 64], vec![120; 64]),
        (rough.clone(), rough),
        // A single entry is not held
        (vec![7], vec![128]),
    ] {
        let mut w = BitstreamWriter::new();
        write_probability_table(&mut w, &table);
        let bytes = w.get_bytes();
        let mut reader = BitstreamReader::new(&bytes);
        assert_eq!(read_probability_table(&mut reader), Some(back));
        assert_eq!(reader.bit_position(), w.bit_position());
    }
}

#[test]
fn mapping_data_is_read_back() {
    for n in [1usize, 2, 5, 9] {
        for (share, half) in [(true, true), (true, false), (false, true), (false, false)] {
            let mut w = BitstreamWriter::new();
            write_mapping_data(&mut w, n, share, half);
            let bytes = w.get_bytes();
            let mut reader = BitstreamReader::new(&bytes);
            let (flags, map) = read_mapping_data(&mut reader, n).unwrap();
            assert_eq!(flags, vec![half as u8; n]);
            assert_eq!(map, if share { vec![0; n] } else { (0..n).collect() });
            assert_eq!(reader.bit_position(), w.bit_position());
        }
    }
}

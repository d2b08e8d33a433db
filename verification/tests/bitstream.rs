//! Bit-level writing and reading, Rice codes, and coded tables.

use cladst::codec::bitstream::{BitstreamReader, BitstreamWriter};
use cladst::codec::coded_table::{read_coded_table, write_coded_table};
use cladst::codec::constants::{frame_length_for_rate, TableType};
use cladst::codec::fir::get_bit;
use cladst::codec::rice::{
    rice_decode, rice_decode_table, rice_encode, rice_encode_table, select_best_rice_method,
    try_rice_decode,
};

#[test]
fn bits_are_packed_most_significant_first() {
    let mut w = BitstreamWriter::new();
    w.write_bit(1);
    w.write_bits(0b0110, 4);
    w.write_bits_signed(-2, 3);
    w.write_unary(3);
    assert_eq!(w.bit_position(), 12);
    // 1 0110 110 | 0001 0000
    assert_eq!(w.get_bytes(), vec![0b1011_0110, 0b0001_0000]);
}

#[test]
fn bit_slices_and_bits_write_the_same() {
    let mut a = BitstreamWriter::default();
    a.write_bit_slice(&[1, 0, 1, 1, 0, 0, 1, 1, 1]);
    let mut b = BitstreamWriter::new();
    b.write_bits(0b1_0110_0111, 9);
    assert_eq!(a.get_bytes(), b.get_bytes());
    assert_eq!(a.get_bytes(), vec![0xb3, 0x80]);
}

#[test]
fn what_was_written_is_read_back() {
    let mut w = BitstreamWriter::new();
    w.write_bits(0x2a, 7);
    w.write_bits_signed(-256, 9);
    w.write_bits_signed(255, 9);
    w.write_unary(0);
    w.write_unary(11);
    let bytes = w.get_bytes();
    let mut r = BitstreamReader::new(&bytes);
    assert_eq!(r.read_bits(7), 0x2a);
    assert_eq!(r.read_bits_signed(9), -256);
    assert_eq!(r.read_bits_signed(9), 255);
    assert_eq!(r.read_unary(), 0);
    assert_eq!(r.read_unary(), 11);
    assert_eq!(r.bit_position(), 38);
    assert_eq!(r.bits_remaining(), 2);
}

#[test]
fn behind_the_end_stand_zeros() {
    let mut r = BitstreamReader::new(&[0xff]);
    assert_eq!(r.read_bits(12), 0xff0);
    assert_eq!(r.read_bit(), 0);
    assert_eq!(r.bit_position(), 8);
    assert_eq!(r.bits_remaining(), 0);
    assert_eq!(r.try_read_unary(), None);
}

#[test]
fn rice_codes_have_these_bits() {
    let mut w = BitstreamWriter::new();
    rice_encode(&mut w, 5, 1);
    rice_encode(&mut w, -3, 0);
    rice_encode(&mut w, 0, 2);
    assert_eq!(w.bit_position(), 13);
    assert_eq!(w.get_bytes(), vec![0b0011_0000, 0b1110_0000]);
}

#[test]
fn rice_codes_are_read_back() {
    for m in 0..7usize {
        let mut w = BitstreamWriter::new();
        for v in -70..=70 {
            rice_encode(&mut w, v, m);
        }
        let bytes = w.get_bytes();
        let mut r = BitstreamReader::new(&bytes);
        for v in -70..=70 {
            assert_eq!(rice_decode(&mut r, m), v);
        }
    }
}

#[test]
fn a_rice_code_without_its_mark_is_none() {
    let mut r = BitstreamReader::new(&[0, 0]);
    assert_eq!(try_rice_decode(&mut r, 3), None);
    let mut r = BitstreamReader::new(&[0b0110_0000]);
    // one zero, the mark, two low bits, the sign
    assert_eq!(try_rice_decode(&mut r, 2), Some(6));
}

#[test]
fn tables_are_coded_by_what_the_prediction_misses() {
    let mut w = BitstreamWriter::new();
    rice_encode_table(&mut w, &[10, 12, 15, 11], 0, 1, TableType::Filter);
    assert_eq!(w.bit_position(), 13);
    assert_eq!(w.get_bytes(), vec![70, 40]);
}

#[test]
fn tables_are_read_back() {
    let data: Vec<i32> = vec![-256, 255, 0, 3, -3, 100, 17, 18, 19];
    for method in 0..3usize {
        for m in 0..5usize {
            let mut w = BitstreamWriter::new();
            rice_encode_table(&mut w, &data, method, m, TableType::Filter);
            let bytes = w.get_bytes();
            let mut r = BitstreamReader::new(&bytes);
            let mut back: Vec<i32> = data[..method + 1].to_vec();
            rice_decode_table(&mut r, &mut back, method, m, TableType::Filter, data.len());
            assert_eq!(back, data);
        }
    }
}

#[test]
fn a_number_stands_digit_by_digit_behind_what_was_written() {
    let value: u32 = 0b1_0110_0111_0101;
    let mut writer = BitstreamWriter::new();
    writer.write_bit_slice(&[1, 0, 1, 1, 0]);
    writer.write_bits(value, 13);
    assert_eq!(writer.bit_position(), 18);
    let bytes = writer.get_bytes();
    let before: Vec<u8> = (0..5).map(|i| get_bit(&bytes, i)).collect();
    assert_eq!(before, vec![1, 0, 1, 1, 0]);
    for j in 0..13 {
        assert_eq!(get_bit(&bytes, 5 + j) as u32, (value >> (12 - j)) & 1);
    }
}

#[test]
fn the_method_with_the_fewest_bits_is_chosen() {
    assert_eq!(select_best_rice_method(&[10, 9, 8, 7, 6, 5], TableType::Filter), (1, 0));
    assert_eq!(select_best_rice_method(&[1, 1, 1, 1], TableType::Ptable), (0, 0));
    assert_eq!(select_best_rice_method(&[100, -100], TableType::Filter), (0, 6));
    assert_eq!(select_best_rice_method(&[5], TableType::Filter), (0, 0));
    // An entry of a probability table that stands for itself takes seven bits
    assert_eq!(select_best_rice_method(&[1, 2, 3, 4, 5], TableType::Ptable), (1, 0));
    assert_eq!(select_best_rice_method(&[1, 2, 3, 4, 5], TableType::Filter), (0, 0));
}

#[test]
fn coded_tables_come_back_listed_or_rice_coded() {
    let smooth: Vec<i32> = (0..40).map(|i| i * 3 - 60).collect();
    let rough: Vec<i32> = vec![-256, 255, -256, 255, 0];
    for data in [smooth, rough, vec![7]] {
        let mut w = BitstreamWriter::new();
        write_coded_table(&mut w, &data, TableType::Filter);
        let bytes = w.get_bytes();
        let mut r = BitstreamReader::new(&bytes);
        assert_eq!(read_coded_table(&mut r, data.len(), TableType::Filter), Some(data));
    }
    let probabilities: Vec<i32> = vec![128, 127, 120, 90, 40, 1, 1];
    let mut w = BitstreamWriter::new();
    write_coded_table(&mut w, &probabilities, TableType::Ptable);
    let bytes = w.get_bytes();
    let mut r = BitstreamReader::new(&bytes);
    assert_eq!(
        read_coded_table(&mut r, probabilities.len(), TableType::Ptable),
        Some(probabilities)
    );
}

#[test]
fn frames_have_these_lengths() {
    assert_eq!(frame_length_for_rate(64), Some(4704));
    assert_eq!(frame_length_for_rate(128), Some(9408));
    assert_eq!(frame_length_for_rate(256), Some(18816));
    assert_eq!(frame_length_for_rate(512), None);
}

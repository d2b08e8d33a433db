//! Prediction and probability tables.

use cladst::codec::fir::{
    autocorrelation, build_lut, build_ptable, build_ptable_default, clamp_coefficient, fir_predict,
    get_bit, predict_and_residual, ptable_lookup, set_bit, Status,
};

#[test]
fn bits_are_counted_from_the_most_significant() {
    let mut packed = [0x80u8, 0x01];
    assert_eq!(get_bit(&packed, 0), 1);
    assert_eq!(get_bit(&packed, 1), 0);
    assert_eq!(get_bit(&packed, 15), 1);
    set_bit(&mut packed, 0, 0);
    set_bit(&mut packed, 9, 1);
    assert_eq!(packed, [0x00, 0x41]);
}

#[test]
fn autocorrelation_counts_agreements_and_disagreements() {
    // -1 +1 -1 +1 -1 +1 -1 +1
    assert_eq!(autocorrelation(&[0x55], 8, 3), vec![8, -7, 6, -5]);
    // Every sample the same
    assert_eq!(autocorrelation(&[0xff, 0xff], 13, 2), vec![13, 12, 11]);
    // Across bytes, and a lag that is no whole byte
    let packed = [0x69u8, 0x96, 0x3c];
    let sample = |i: usize| -> i64 {
        if (packed[i / 8] >> (7 - i % 8)) & 1 == 1 {
            1
        } else {
            -1
        }
    };
    let r = autocorrelation(&packed, 24, 11);
    for k in 0..=11usize {
        let sum: i64 = (0..24 - k).map(|i| sample(i) * sample(i + k)).sum();
        assert_eq!(r[k], sum);
    }
}

#[test]
fn coefficients_keep_to_nine_bits() {
    assert_eq!(clamp_coefficient(-257), -256);
    assert_eq!(clamp_coefficient(-256), -256);
    assert_eq!(clamp_coefficient(256), 255);
    assert_eq!(clamp_coefficient(17), 17);
}

#[test]
fn the_register_starts_with_alternating_bits() {
    let s = Status::new(2);
    assert_eq!(s.byte_at(0), 0xaa);
    assert_eq!(s.byte_at(1), 0xaa);
    assert_eq!(s.byte_at(2), 0);
    let mut s = Status::new(16);
    assert_eq!(s.byte_at(15), 0xaa);
    s.update(1);
    assert_eq!(s.byte_at(0), 0x55);
    assert_eq!(s.byte_at(8), 0x55);
}

#[test]
fn a_prediction_is_the_dot_product_with_the_last_samples() {
    let lut = build_lut(&[100, -50]);
    let mut s = Status::new(1);
    // The newest bit is 0, the one before is 1
    assert_eq!(fir_predict(&lut, &s), -150);
    s.update(1);
    assert_eq!(fir_predict(&lut, &s), 150);
    s.update(1);
    assert_eq!(fir_predict(&lut, &s), 50);
}

#[test]
fn predictions_and_residuals_of_a_byte() {
    let (predictions, residuals) = predict_and_residual(&[0x69], 8, &[100, -50]);
    assert_eq!(predictions, vec![-150, -50, 150, 50, -150, 150, -150, -50]);
    assert_eq!(residuals, vec![1, 0, 1, 0, 0, 0, 1, 0]);
}

#[test]
fn probability_tables_count_the_hits() {
    // Two in the first bin, one of them hit; three in the third, all hit
    let table = build_ptable(&[3, -7, 16, 17, -23], &[0, 1, 0, 0, 0], 64);
    assert_eq!(table, vec![128, 128, 255]);
    // No hit at all
    assert_eq!(build_ptable(&[0, 0], &[1, 1], 64), vec![1]);
    // What lies beyond the table falls into the last bin
    assert_eq!(build_ptable(&[1000, -1000], &[0, 1], 2), vec![128, 128]);
    assert_eq!(build_ptable_default(&[511, 512], &[1, 0]).len(), 64);
}

#[test]
fn tables_are_looked_into_by_the_size_of_the_prediction() {
    let table = [10u8, 20, 30];
    assert_eq!(ptable_lookup(&table, 0), 10);
    assert_eq!(ptable_lookup(&table, -8), 20);
    assert_eq!(ptable_lookup(&table, 15), 20);
    assert_eq!(ptable_lookup(&table, i32::MIN), 30);
}

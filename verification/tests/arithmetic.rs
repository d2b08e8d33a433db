//! Round trips and exact codewords of the arithmetic coder.

use cladst::codec::arithmetic::{ACDecoder, ACEncoder};
use cladst::codec::constants::ABITS;

/// Pack individual bit values into MSB-first bytes (for test only).
fn pack_bits(bits: &[u8]) -> Vec<u8> {
    let n_bytes = bits.len().div_ceil(8);
    let mut packed = vec![0u8; n_bytes];
    for (i, &bit) in bits.iter().enumerate() {
        if bit != 0 {
            packed[i / 8] |= 1 << (7 - (i % 8));
        }
    }
    packed
}

/// Encode symbols, then decode, verify round-trip.
fn roundtrip(symbols: &[(u8, u32)]) {
    let mut enc = ACEncoder::new();
    for &(bit, p) in symbols {
        enc.encode_bit(bit, p);
    }
    let coded = enc.flush();
    let packed = pack_bits(&coded);

    let mut dec = ACDecoder::new(&packed, 0);
    for (i, &(expected_bit, p)) in symbols.iter().enumerate() {
        let decoded_bit = dec.decode_bit(p);
        assert_eq!(
            decoded_bit, expected_bit,
            "mismatch at symbol {i}: expected {expected_bit}, got {decoded_bit}"
        );
    }
}

#[test]
fn test_all_zeros_uniform() {
    // 10 zeros with p=128 (50/50)
    let symbols: Vec<(u8, u32)> = vec![(0, 128); 10];
    roundtrip(&symbols);
}

#[test]
fn test_all_ones_uniform() {
    // 10 ones with p=128
    let symbols: Vec<(u8, u32)> = vec![(1, 128); 10];
    roundtrip(&symbols);
}

#[test]
fn test_alternating() {
    let symbols: Vec<(u8, u32)> = (0..20).map(|i| ((i % 2) as u8, 128)).collect();
    roundtrip(&symbols);
}

#[test]
fn test_skewed_probability() {
    // bit=0 with very low p (p=1 means bit=1 is very unlikely)
    let symbols: Vec<(u8, u32)> = vec![(0, 1); 50];
    roundtrip(&symbols);
}

#[test]
fn test_skewed_high() {
    // bit=1 with high p (p=120 means bit=1 is likely)
    let symbols: Vec<(u8, u32)> = vec![(1, 120); 50];
    roundtrip(&symbols);
}

#[test]
fn test_mixed_probabilities() {
    let symbols = vec![
        (0, 64),
        (1, 64),
        (0, 200),
        (1, 10),
        (0, 128),
        (1, 128),
        (0, 1),
        (1, 255),
        (0, 100),
        (1, 50),
    ];
    roundtrip(&symbols);
}

#[test]
fn test_long_sequence() {
    // Simulate a realistic frame: 1000 symbols with varying probabilities
    let symbols: Vec<(u8, u32)> = (0..1000)
        .map(|i| {
            let p = (i % 127) as u32 + 1; // p in [1, 127]
            let bit = ((i * 7 + 3) % 2) as u8;
            (bit, p)
        })
        .collect();
    roundtrip(&symbols);
}

#[test]
fn test_single_symbol() {
    roundtrip(&[(0, 128)]);
    roundtrip(&[(1, 128)]);
    roundtrip(&[(0, 1)]);
    roundtrip(&[(1, 1)]);
}

#[test]
fn test_empty() {
    let mut enc = ACEncoder::new();
    let coded = enc.flush();
    // Should produce ABITS zero bits
    assert_eq!(coded.len(), ABITS as usize);
}

#[test]
fn four_symbols_have_this_codeword() {
    let mut enc = ACEncoder::default();
    for &(bit, p) in &[(0u8, 64u32), (1, 64), (0, 200), (1, 10)] {
        enc.encode_bit(bit, p);
    }
    assert_eq!(enc.flush(), vec![1, 1, 0, 0, 1, 1, 1, 0, 1, 0, 0, 1, 0, 0]);
}

#[test]
fn the_decoder_starts_at_a_bit_offset() {
    // The codeword of the four symbols behind five bits
    let packed = pack_bits(&[1, 0, 1, 0, 1, 1, 1, 0, 0, 1, 1, 1, 0, 1, 0, 0, 1, 0, 0]);
    let mut dec = ACDecoder::new(&packed, 5);
    assert_eq!(dec.decode_bit(64), 0);
    assert_eq!(dec.decode_bit(64), 1);
    assert_eq!(dec.try_decode_bit(200), Some(0));
    assert_eq!(dec.try_decode_bit(10), Some(1));
}

#[test]
fn an_encoder_can_be_used_again_after_a_flush() {
    let mut enc = ACEncoder::new();
    enc.encode_bit(1, 128);
    enc.flush();
    assert_eq!(enc.flush(), vec![0; 12]);
}

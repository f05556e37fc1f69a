//! CRC-24.

use rs1090::crc::tables::{SYNDROME_LONG, SYNDROME_SHORT};
use rs1090::crc::{check, crc24, crc24_bitwise, single_bit_correction};
use rs1090::crc::{CrcOutcome, LONG_FRAME_BYTES, SHORT_FRAME_BYTES};

/// A frame of `data` and its CRC, most significant byte first.
fn build_frame(data: &[u8]) -> Vec<u8> {
    let crc = crc24(data);
    let mut frame = data.to_vec();
    frame.push(((crc >> 16) & 0xFF) as u8);
    frame.push(((crc >> 8) & 0xFF) as u8);
    frame.push((crc & 0xFF) as u8);
    frame
}

#[test]
fn table_matches_bitwise() {
    for b in 0u8..=255 {
        assert_eq!(crc24(&[b]), crc24_bitwise(&[b]));
    }
}

#[test]
fn empty_input_is_zero() {
    assert_eq!(crc24(&[]), 0);
    assert_eq!(crc24_bitwise(&[]), 0);
}

#[test]
fn known_vector_all_zero_short_frame() {
    let buf = [0u8; 7];
    assert_eq!(crc24(&buf), 0);
    assert_eq!(crc24_bitwise(&buf), 0);
}

#[test]
fn appending_crc_zeroes_syndrome_short() {
    let data = [0xA1, 0xB2, 0xC3, 0xD4];
    let frame = build_frame(&data);
    assert_eq!(frame.len(), SHORT_FRAME_BYTES);
    assert_eq!(crc24(&frame), 0, "round-trip syndrome should be zero");
}

#[test]
fn appending_crc_zeroes_syndrome_long() {
    let data: Vec<u8> = (0u8..11).collect();
    let frame = build_frame(&data);
    assert_eq!(frame.len(), LONG_FRAME_BYTES);
    assert_eq!(crc24(&frame), 0);
}

#[test]
fn check_clean_short_frame() {
    let data = [0x8D, 0x40, 0x62, 0x10];
    let mut frame = build_frame(&data);
    assert_eq!(check(&mut frame), CrcOutcome::Clean);
}

#[test]
fn check_clean_long_frame() {
    let data: Vec<u8> = (0u8..11).rev().collect();
    let mut frame = build_frame(&data);
    assert_eq!(check(&mut frame), CrcOutcome::Clean);
}

#[test]
fn check_corrects_every_single_bit_error_short() {
    let data = [0x12, 0x34, 0x56, 0x78];
    let clean = build_frame(&data);
    for flip in 0..(SHORT_FRAME_BYTES * 8) as u16 {
        let mut frame = clean.clone();
        let byte = (flip / 8) as usize;
        let mask = 1u8 << (7 - (flip % 8));
        frame[byte] ^= mask;
        match check(&mut frame) {
            CrcOutcome::Corrected { bit } => {
                assert_eq!(bit, flip, "wrong corrected bit for flip {flip}");
                assert_eq!(frame, clean, "corrected frame differs from clean");
            }
            other => panic!("expected Corrected, got {other:?} for flip {flip}"),
        }
    }
}

#[test]
fn check_corrects_every_single_bit_error_long() {
    let data: Vec<u8> = (0u8..11).collect();
    let clean = build_frame(&data);
    for flip in 0..(LONG_FRAME_BYTES * 8) as u16 {
        let mut frame = clean.clone();
        let byte = (flip / 8) as usize;
        let mask = 1u8 << (7 - (flip % 8));
        frame[byte] ^= mask;
        match check(&mut frame) {
            CrcOutcome::Corrected { bit } => {
                assert_eq!(bit, flip);
                assert_eq!(frame, clean);
            }
            other => panic!("expected Corrected, got {other:?} for flip {flip}"),
        }
    }
}

#[test]
fn check_fails_on_multi_bit_errors() {
    let data = [0x12, 0x34, 0x56, 0x78];
    let clean = build_frame(&data);
    let mut frame = clean.clone();
    frame[0] ^= 0x80;
    frame[3] ^= 0x01;
    assert_eq!(check(&mut frame), CrcOutcome::Failed);
}

#[test]
fn syndrome_tables_are_collision_free() {
    let mut sorted: Vec<u32> = SYNDROME_SHORT.to_vec();
    sorted.sort_unstable();
    for w in sorted.windows(2) {
        assert_ne!(w[0], w[1], "duplicate syndrome in SHORT table");
    }
    let mut sorted: Vec<u32> = SYNDROME_LONG.to_vec();
    sorted.sort_unstable();
    for w in sorted.windows(2) {
        assert_ne!(w[0], w[1], "duplicate syndrome in LONG table");
    }
}

#[test]
fn syndrome_tables_match_runtime_computation() {
    for (i, &s) in SYNDROME_SHORT.iter().enumerate() {
        let mut buf = [0u8; SHORT_FRAME_BYTES];
        buf[i / 8] = 1u8 << (7 - (i % 8));
        assert_eq!(crc24(&buf), s, "SHORT syndrome mismatch at bit {i}");
    }
    for (i, &s) in SYNDROME_LONG.iter().enumerate() {
        let mut buf = [0u8; LONG_FRAME_BYTES];
        buf[i / 8] = 1u8 << (7 - (i % 8));
        assert_eq!(crc24(&buf), s, "LONG syndrome mismatch at bit {i}");
    }
}

#[test]
fn table_and_bitwise_agree_on_longer_messages() {
    let mut x: u32 = 1;
    for n in 0..32usize {
        let mut m = Vec::new();
        for _ in 0..n {
            x = x.wrapping_mul(1_103_515_245).wrapping_add(12_345);
            m.push((x >> 16) as u8);
        }
        assert_eq!(crc24(&m), crc24_bitwise(&m));
    }
}

#[test]
fn crc_is_linear() {
    let a = [0x8D, 0xA0, 0xBA, 0x4E, 0x59, 0x09, 0xC3];
    let b = [0x12, 0x34, 0x56, 0x78, 0x9A, 0xBC, 0xDE];
    let c: Vec<u8> = a.iter().zip(b.iter()).map(|(x, y)| x ^ y).collect();
    assert_eq!(crc24(&c), crc24(&a) ^ crc24(&b));
}

#[test]
fn address_overlay_leaves_crc_of_address() {
    let data = [0x20, 0x00, 0x05, 0x50];
    let address: u32 = 0x00A2_4AA8;
    let v = crc24(&data) ^ address;
    let mut f = data.to_vec();
    f.push((v >> 16) as u8);
    f.push((v >> 8) as u8);
    f.push(v as u8);
    assert_eq!(crc24(&f), crc24(&[0xA2, 0x4A, 0xA8]));
    assert_ne!(crc24(&f), 0);
}

#[test]
fn crc_of_one_bit_is_the_polynomial() {
    assert_eq!(crc24(&[0, 0, 0, 1]), 0x00FF_F409);
    assert_eq!(crc24(&[0x8D]), crc24_bitwise(&[0x8D]));
}

#[test]
fn correction_is_offered_for_single_bits_only() {
    assert_eq!(single_bit_correction(SYNDROME_SHORT[0], 7), Some(0));
    assert_eq!(single_bit_correction(SYNDROME_LONG[111], 14), Some(111));
    assert_eq!(single_bit_correction(0, 14), None);
    assert_eq!(single_bit_correction(SYNDROME_LONG[0] ^ SYNDROME_LONG[57], 14), None);
    assert_eq!(single_bit_correction(SYNDROME_LONG[0], 8), None);
}

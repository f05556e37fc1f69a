//! Beast and AVR framing.

use rs1090::avr::{self, encode_line};
use rs1090::beast::{self, encode_beast_frame, mlat_timestamp, push_escaped};
use rs1090::frame::Frame;
use std::time::Instant;

#[test]
fn avr_line_matches_dump1090_shape() {
    let bytes = [0x8D, 0xA0, 0xBA, 0x4E, 0x59, 0x09, 0xC3, 0x27, 0x9F, 0x7E, 0x82, 0xF7, 0x90, 0x6D];
    let f = Frame::from_bytes(&bytes);
    let line = encode_line(&f);
    assert_eq!(line, "*8DA0BA4E5909C3279F7E82F7906D;\r\n");
}

#[test]
fn avr_line_handles_short_frame() {
    let bytes = [0x5D, 0xA1, 0xB2, 0xC3, 0xD4, 0xE5, 0xF6];
    let f = Frame::from_bytes(&bytes);
    let line = encode_line(&f);
    assert_eq!(line, "*5DA1B2C3D4E5F6;\r\n");
}

#[test]
fn feeds_carry_validated_frames_only() {
    let bad = Frame::from_bytes(&[0x5D, 0xA1, 0xB2, 0xC3, 0xD4, 0xE5, 0xF6]);
    assert_eq!(avr::feed(&bad), None);
    assert_eq!(beast::feed(&bad, 0), None);
    let good = Frame::from_bytes(&[0u8; 7]);
    assert_eq!(avr::feed(&good).unwrap(), "*00000000000000;\r\n");
    assert_eq!(
        beast::feed(&good, 1_000_000_000).unwrap(),
        // Twelve million ticks.
        vec![0x1A, 0x32, 0, 0, 0, 0xB7, 0x1B, 0x00, 255, 0, 0, 0, 0, 0, 0, 0]
    );
    assert_eq!(avr::DEFAULT_PORT, 30_002);
    assert_eq!(beast::DEFAULT_PORT, 30_005);
}

fn synthetic_long_frame() -> Frame {
    let bytes = [0x8D, 0xA0, 0xBA, 0x4E, 0x59, 0x09, 0xC3, 0x27, 0x9F, 0x7E, 0x82, 0xF7, 0x90, 0x6D];
    Frame::from_bytes(&bytes)
}

#[test]
fn encodes_long_frame_with_mode_0x33() {
    let frame = synthetic_long_frame();
    let mut out = Vec::new();
    encode_beast_frame(&frame, 0, &mut out);
    assert_eq!(out[0], 0x1A);
    assert_eq!(out[1], 0x33);
    assert_eq!(out.len(), 23);
    assert_eq!(&out[9..], frame.bytes());
}

#[test]
fn escapes_inner_0x1a_with_doubling() {
    let bytes = [0x8D, 0xA0, 0x1A, 0x4E, 0x59, 0x09, 0xC3, 0x27, 0x9F, 0x7E, 0x82, 0xF7, 0x90, 0x6D];
    let frame = Frame::from_bytes(&bytes);
    let mut out = Vec::new();
    encode_beast_frame(&frame, 0, &mut out);
    let mut found = false;
    let mut i = 1;
    while i < out.len() - 1 {
        if out[i] == 0x1A {
            assert_eq!(out[i + 1], 0x1A, "lone 0x1A at byte {i}");
            found = true;
            i += 2;
        } else {
            i += 1;
        }
    }
    assert!(found, "expected the inner 0x1A to be doubled");
}

#[test]
fn short_frame_uses_mode_0x32() {
    let bytes = [0x5D, 0xA1, 0xB2, 0xC3, 0xD4, 0xE5, 0xF6];
    let frame = Frame::from_bytes(&bytes);
    let mut out = Vec::new();
    encode_beast_frame(&frame, 0, &mut out);
    assert_eq!(out[1], 0x32);
    assert_eq!(out.len(), 16);
}

#[test]
fn timestamp_fits_in_48_bits() {
    let t0 = Instant::now();
    let ts = mlat_timestamp(t0.elapsed().as_nanos());
    assert_eq!(ts & 0xFFFF_0000_0000_0000, 0);
    assert_eq!(mlat_timestamp(1_000), 12);
    assert_eq!(mlat_timestamp(999), 11);
    // The clock starts over at 2^48 ticks.
    assert_eq!(mlat_timestamp(((1u128 << 48) * 1000).div_ceil(12)), 0);
}

#[test]
fn markers_are_doubled() {
    let mut out = vec![7u8];
    push_escaped(&mut out, &[0x1A, 0x00, 0x1A, 0x1A]);
    assert_eq!(out, vec![7, 0x1A, 0x1A, 0, 0x1A, 0x1A, 0x1A, 0x1A]);
}

#[test]
fn timestamps_do_not_go_back() {
    let mut last = 0;
    for k in 0..5000u128 {
        let ts = mlat_timestamp(k * 37);
        assert!(ts >= last);
        last = ts;
    }
    assert_eq!(last, 4999 * 37 * 12 / 1000);
}

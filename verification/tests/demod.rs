//! Demodulation.

use rs1090::demod::{
    aggregate_confidence, pack_bits_msb, preamble_clears_threshold, preamble_score, preamble_score_cfg, slice_bit,
    slice_bits, slice_bits_cfg, synth_bits_as_magnitude, synth_preamble, DemodConfig, NoiseFloor,
    PREAMBLE_HIGH_IDX, PREAMBLE_LOW_IDX, PREAMBLE_SAMPLES,
};

#[test]
fn noise_floor_converges_to_constant_input() {
    let mut nf = NoiseFloor::new(0, NoiseFloor::DEFAULT_SHIFT);
    for _ in 0..1280 {
        nf.update(100);
    }
    let floor = nf.current();
    assert!((99..=101).contains(&floor), "expected floor near 100, got {floor}");
}

#[test]
fn noise_floor_responds_to_step() {
    let mut nf = NoiseFloor::new(50, NoiseFloor::DEFAULT_SHIFT);
    assert_eq!(nf.current(), 50);
    for _ in 0..128 {
        nf.update(200);
    }
    let f = nf.current();
    assert!(f > 120 && f < 180, "after one time constant expected about 145, got {f}");
}

#[test]
fn noise_floor_seeded_starts_at_seed() {
    let nf = NoiseFloor::new(42, 7);
    assert_eq!(nf.current(), 42);
}

#[test]
fn noise_floor_survives_the_extremes() {
    let mut nf = NoiseFloor::new(65_535, 16);
    assert_eq!(nf.update(65_535), 65_535);
    assert_eq!(nf.update(0), 65_534);
    let mut fresh = NoiseFloor::fresh();
    assert_eq!(fresh.current(), 0);
    assert_eq!(fresh.update(128), 1);
}

#[test]
fn flat_window_scores_negative() {
    let w = [100u16; PREAMBLE_SAMPLES];
    assert_eq!(preamble_score(&w), -800);
}

#[test]
fn ideal_preamble_scores_strongly_positive() {
    let mut w = [10u16; PREAMBLE_SAMPLES];
    synth_preamble(&mut w, 250, 10);
    let s = preamble_score(&w);
    assert_eq!(s, 880);
}

#[test]
fn preamble_threshold_distinguishes_signal_from_noise() {
    let floor = 30u16;
    let noise = [floor; PREAMBLE_SAMPLES];
    assert!(!preamble_clears_threshold(preamble_score(&noise), floor));

    let mut sig = [floor; PREAMBLE_SAMPLES];
    synth_preamble(&mut sig, floor * 10, floor);
    assert!(preamble_clears_threshold(preamble_score(&sig), floor));
}

#[test]
fn preamble_threshold_blocks_marginal_signal() {
    let floor = 100u16;
    let mut sig = [floor; PREAMBLE_SAMPLES];
    synth_preamble(&mut sig, 150, floor);
    assert!(!preamble_clears_threshold(preamble_score(&sig), floor));
}

#[test]
fn preamble_threshold_lies_at_seven_floors() {
    let mut sig = [100u16; PREAMBLE_SAMPLES];
    synth_preamble(&mut sig, 700, 100);
    assert!(!preamble_clears_threshold(preamble_score(&sig), 100));
    synth_preamble(&mut sig, 701, 100);
    assert!(preamble_clears_threshold(preamble_score(&sig), 100));
}

#[test]
fn preamble_indices_cover_the_window() {
    let mut all: Vec<usize> = PREAMBLE_HIGH_IDX.to_vec();
    all.extend_from_slice(&PREAMBLE_LOW_IDX);
    all.sort_unstable();
    assert_eq!(all, (0..PREAMBLE_SAMPLES).collect::<Vec<usize>>());
}

#[test]
fn slice_bit_pure_one() {
    let (b, c) = slice_bit(255, 0);
    assert!(b);
    assert_eq!(c, 255);
}

#[test]
fn slice_bit_pure_zero() {
    let (b, c) = slice_bit(0, 255);
    assert!(!b);
    assert_eq!(c, 255);
}

#[test]
fn slice_bit_tied_is_zero_confidence() {
    let (_, c) = slice_bit(128, 128);
    assert_eq!(c, 0);
}

#[test]
fn slice_bit_silent_both_halves_is_zero_confidence() {
    let (b, c) = slice_bit(0, 0);
    assert!(!b);
    assert_eq!(c, 0);
}

#[test]
fn slice_bit_confidence_is_monotonic_in_imbalance() {
    let mut prev: u8 = 0;
    for split in 0..=128u32 {
        let s0 = (128 + split) as u16;
        let s1 = (128 - split) as u16;
        let (_, c) = slice_bit(s0, s1);
        assert!(c >= prev, "confidence dropped at split {split}: {prev} -> {c}");
        prev = c;
    }
    assert_eq!(prev, 255);
}

#[test]
fn slice_bits_matches_per_bit() {
    let samples = [255u16, 0, 0, 255, 200, 100, 100, 200, 128, 128];
    let mut bits = [false; 5];
    let mut conf = [0u8; 5];
    slice_bits(&samples, &mut bits, &mut conf);
    assert_eq!(bits, [true, false, true, false, false]);
    for i in 0..5 {
        let (eb, ec) = slice_bit(samples[i * 2], samples[i * 2 + 1]);
        assert_eq!(bits[i], eb);
        assert_eq!(conf[i], ec);
    }
}

#[test]
fn aggregate_confidence_is_minimum() {
    assert_eq!(aggregate_confidence(&[200, 180, 50, 250]), 50);
    assert_eq!(aggregate_confidence(&[]), 0);
    assert_eq!(aggregate_confidence(&[255]), 255);
}

#[test]
fn pack_bits_msb_basic() {
    let bits = [true, false, false, false, false, false, false, true];
    let mut bytes = [0u8; 1];
    pack_bits_msb(&bits, &mut bytes);
    assert_eq!(bytes[0], 0b1000_0001);
}

#[test]
fn pack_bits_msb_two_bytes() {
    let bits = [
        true, false, true, false, false, true, false, true, // 0xA5
        false, false, true, true, true, true, false, false, // 0x3C
    ];
    let mut bytes = [0u8; 2];
    pack_bits_msb(&bits, &mut bytes);
    assert_eq!(bytes, [0xA5, 0x3C]);
}

#[test]
fn pack_bits_round_trips_every_byte() {
    for b in 0u8..=255 {
        let bits: Vec<bool> = (0..8).map(|k| (b >> (7 - k)) & 1 != 0).collect();
        let mut out = [0u8; 1];
        pack_bits_msb(&bits, &mut out);
        assert_eq!(out[0], b);
    }
}

#[test]
fn synth_then_slice_recovers_bits_at_high_snr() {
    let bits_in: [bool; 16] = [
        true, false, true, true, false, false, true, false, false, true, false, true, true, true, false, true,
    ];
    let mut samples = [0u16; 32];
    synth_bits_as_magnitude(&bits_in, 240, 10, &mut samples);
    let mut bits_out = [false; 16];
    let mut conf = [0u8; 16];
    slice_bits(&samples, &mut bits_out, &mut conf);
    assert_eq!(bits_in, bits_out);
    let agg = aggregate_confidence(&conf);
    assert!((230..=235).contains(&agg), "expected aggregate confidence near 234, got {agg}");
    assert_eq!(agg, 234);
}

#[test]
fn synth_then_slice_low_confidence_at_low_snr() {
    let bits_in: [bool; 16] = [true; 16];
    let mut samples = [0u16; 32];
    synth_bits_as_magnitude(&bits_in, 60, 40, &mut samples);
    let mut bits_out = [false; 16];
    let mut conf = [0u8; 16];
    slice_bits(&samples, &mut bits_out, &mut conf);
    assert_eq!(bits_in, bits_out);
    let agg = aggregate_confidence(&conf);
    assert!((40..=60).contains(&agg), "expected marginal aggregate confidence near 51, got {agg}");
}

#[test]
fn config_spans_at_both_supported_rates() {
    let two = DemodConfig::for_sample_rate(2_000_000);
    assert_eq!(two.sample_rate(), 2_000_000);
    assert_eq!(two.preamble_samples(), 16);
    assert_eq!(two.samples_for_bits(112), 224);
    assert_eq!(two.samples_for_bits(56), 112);
    assert_eq!(two.samples_for_bits(5), 10);
    let more = DemodConfig::for_sample_rate(2_400_000);
    assert_eq!(more.preamble_samples(), 19);
    assert_eq!(more.samples_for_bits(112), 269);
    let double = DemodConfig::for_sample_rate(4_000_000);
    assert_eq!(double.preamble_samples(), 32);
    assert_eq!(double.samples_for_bits(112), 448);
}

#[test]
fn generic_slicer_agrees_with_the_native_one() {
    let cfg = DemodConfig::for_sample_rate(2_000_000);
    let samples: Vec<u16> = (0..224u16).map(|k| (k * 37) % 101).collect();
    let mut a = [false; 112];
    let mut ca = [0u8; 112];
    let mut b = [false; 112];
    let mut cb = [0u8; 112];
    slice_bits(&samples, &mut a, &mut ca);
    slice_bits_cfg(&cfg, &samples, &mut b, &mut cb);
    assert_eq!(a, b);
    assert_eq!(ca, cb);
    let mut w = [3u16; PREAMBLE_SAMPLES];
    synth_preamble(&mut w, 90, 3);
    assert_eq!(preamble_score_cfg(&cfg, &w), preamble_score(&w));
}

#[test]
fn generic_slicer_reads_half_bits_at_double_rate() {
    let cfg = DemodConfig::for_sample_rate(4_000_000);
    // One, zero, one: four samples per bit.
    let samples = [9u16, 9, 1, 1, 1, 1, 9, 9, 9, 9, 1, 1];
    let mut bits = [false; 3];
    let mut conf = [0u8; 3];
    slice_bits_cfg(&cfg, &samples, &mut bits, &mut conf);
    assert_eq!(bits, [true, false, true]);
    assert_eq!(conf, [204, 204, 204]);
}

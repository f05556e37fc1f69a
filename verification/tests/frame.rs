//! Frames and their detection at 2 MS/s.

use rs1090::crc::{self, CrcOutcome, LONG_FRAME_BYTES, SHORT_FRAME_BYTES};
use rs1090::demod::{synth_bits_as_magnitude, PREAMBLE_HIGH_IDX, PREAMBLE_SAMPLES, SAMPLES_PER_BIT};
use rs1090::frame::{DownlinkFormat, Frame, FrameDetector};
use rs1090::message::decode;
use rs1090::report::frame_line;
use rs1090::Iq;

#[test]
fn downlink_format_from_byte_picks_known_codes() {
    for (raw, expected) in [
        (0u8, DownlinkFormat::ShortAcas),
        (4, DownlinkFormat::AltitudeReply),
        (5, DownlinkFormat::IdentityReply),
        (11, DownlinkFormat::AllCallReply),
        (16, DownlinkFormat::LongAcas),
        (17, DownlinkFormat::ExtendedSquitter),
        (18, DownlinkFormat::TisB),
        (20, DownlinkFormat::CommBAltitude),
        (21, DownlinkFormat::CommBIdentity),
    ] {
        let byte = raw << 3;
        assert_eq!(DownlinkFormat::from_first_byte(byte), expected);
        assert_eq!(expected.raw_value(), raw);
    }
}

#[test]
fn downlink_format_reserved_round_trips() {
    let byte = 6u8 << 3;
    let df = DownlinkFormat::from_first_byte(byte);
    assert_eq!(df, DownlinkFormat::Reserved(6));
    assert_eq!(df.raw_value(), 6);
    assert!(!df.has_clean_crc());
}

#[test]
fn frame_length_follows_df_high_bit() {
    assert_eq!(DownlinkFormat::ShortAcas.frame_bytes(), SHORT_FRAME_BYTES);
    assert_eq!(DownlinkFormat::AllCallReply.frame_bytes(), SHORT_FRAME_BYTES);
    assert_eq!(DownlinkFormat::ExtendedSquitter.frame_bytes(), LONG_FRAME_BYTES);
    assert_eq!(DownlinkFormat::LongAcas.frame_bytes(), LONG_FRAME_BYTES);
    assert_eq!(DownlinkFormat::Reserved(6).frame_bytes(), SHORT_FRAME_BYTES);
    assert_eq!(DownlinkFormat::Reserved(24).frame_bytes(), LONG_FRAME_BYTES);
}

#[test]
fn clean_crc_set_matches_spec() {
    assert!(DownlinkFormat::AllCallReply.has_clean_crc());
    assert!(DownlinkFormat::ExtendedSquitter.has_clean_crc());
    assert!(DownlinkFormat::TisB.has_clean_crc());
    assert!(!DownlinkFormat::AltitudeReply.has_clean_crc());
    assert!(!DownlinkFormat::CommBAltitude.has_clean_crc());
}

/// A DF 17 frame with a valid CRC.
fn synth_df17_payload() -> [u8; LONG_FRAME_BYTES] {
    let mut data = [0u8; LONG_FRAME_BYTES - 3];
    data[0] = 17 << 3;
    data[1] = 0xAB;
    data[2] = 0xCD;
    data[3] = 0xEF;
    data[4] = 0x12;
    data[5] = 0x58;
    data[6] = 0x10;
    data[7] = 0x20;
    data[8] = 0x30;
    data[9] = 0x40;
    data[10] = 0x50;
    let crc_val = crc::crc24(&data);
    let mut frame = [0u8; LONG_FRAME_BYTES];
    frame[..LONG_FRAME_BYTES - 3].copy_from_slice(&data);
    frame[LONG_FRAME_BYTES - 3] = ((crc_val >> 16) & 0xFF) as u8;
    frame[LONG_FRAME_BYTES - 2] = ((crc_val >> 8) & 0xFF) as u8;
    frame[LONG_FRAME_BYTES - 1] = (crc_val & 0xFF) as u8;
    assert_eq!(crc::crc24(&frame), 0, "synth frame should have zero syndrome");
    frame
}

/// Noise floor, preamble and bits of a frame as magnitudes.
fn synth_frame_as_magnitudes(frame_bytes: &[u8], pulse: u16, floor: u16, lead: usize, trail: usize) -> Vec<u16> {
    let payload_bits = frame_bytes.len() * 8;
    let payload_samples = payload_bits * SAMPLES_PER_BIT;
    let total = lead + PREAMBLE_SAMPLES + payload_samples + trail;
    let mut out = vec![floor; total];
    for &k in &PREAMBLE_HIGH_IDX {
        out[lead + k] = pulse;
    }
    let mut bits = vec![false; payload_bits];
    for (byte_idx, b) in frame_bytes.iter().enumerate() {
        for k in 0..8 {
            bits[byte_idx * 8 + k] = (b >> (7 - k)) & 1 != 0;
        }
    }
    let start = lead + PREAMBLE_SAMPLES;
    synth_bits_as_magnitude(&bits, pulse, floor, &mut out[start..start + payload_samples]);
    out
}

/// Samples with the given magnitudes.
fn magnitudes_to_iq(mags: &[u16]) -> Vec<Iq> {
    mags.iter().map(|&m| Iq::new(m.min(127) as i8, 0)).collect()
}

#[test]
fn detector_recovers_synthetic_df17_frame() {
    let frame = synth_df17_payload();
    let mags = synth_frame_as_magnitudes(&frame, 120, 5, 64, 64);
    let samples = magnitudes_to_iq(&mags);

    let mut det = FrameDetector::new();
    det.reset_noise_floor(5);

    let mut got: Vec<Frame> = Vec::new();
    det.process(&samples, &mut got);

    assert_eq!(got.len(), 1, "expected exactly one frame");
    let f = &got[0];
    assert_eq!(f.downlink_format(), DownlinkFormat::ExtendedSquitter);
    assert_eq!(f.len(), LONG_FRAME_BYTES);
    assert_eq!(f.crc_outcome(), CrcOutcome::Clean);
    assert_eq!(f.bytes(), &frame[..]);
    assert!(f.confidence() > 200, "high SNR should give high confidence");
    assert_eq!(f.confidence(), (115 * 255 / 125) as u8);
}

#[test]
fn detector_corrects_single_bit_error() {
    let frame = synth_df17_payload();
    let mut mags = synth_frame_as_magnitudes(&frame, 120, 5, 64, 64);

    let preamble_offset = 64 + PREAMBLE_SAMPLES;
    let target_bit = 50usize;
    let sample_idx = preamble_offset + target_bit * SAMPLES_PER_BIT;
    mags.swap(sample_idx, sample_idx + 1);
    let samples = magnitudes_to_iq(&mags);

    let mut det = FrameDetector::new();
    det.reset_noise_floor(5);
    let mut got: Vec<Frame> = Vec::new();
    det.process(&samples, &mut got);

    assert_eq!(got.len(), 1);
    let f = &got[0];
    assert!(matches!(f.crc_outcome(), CrcOutcome::Corrected { .. }));
    assert_eq!(f.crc_outcome(), CrcOutcome::Corrected { bit: 50 });
    assert_eq!(f.bytes(), &frame[..]);
    assert_eq!(crc::crc24(&frame), 0);
}

#[test]
fn detector_emits_nothing_on_pure_noise() {
    let samples: Vec<Iq> = (0..4096)
        .map(|n| {
            let i = ((n * 7919) % 13) as i8 - 6;
            let q = ((n * 31337) % 11) as i8 - 5;
            Iq::new(i, q)
        })
        .collect();
    let mut det = FrameDetector::new();
    det.reset_noise_floor(5);
    let mut got: Vec<Frame> = Vec::new();
    det.process(&samples, &mut got);
    assert_eq!(got.len(), 0, "noise should not produce frames");
}

#[test]
fn detector_handles_chunked_input() {
    let frame = synth_df17_payload();
    let mags = synth_frame_as_magnitudes(&frame, 120, 5, 64, 64);
    let samples = magnitudes_to_iq(&mags);

    let mut det = FrameDetector::new();
    det.reset_noise_floor(5);
    let mut got: Vec<Frame> = Vec::new();
    for chunk in samples.chunks(73) {
        det.process(chunk, &mut got);
    }

    assert_eq!(got.len(), 1, "frame should be recovered across chunks");
    assert_eq!(got[0].bytes(), &frame[..]);
}

#[test]
fn detector_min_confidence_filters_marginal_frames() {
    let frame = synth_df17_payload();
    let mags = synth_frame_as_magnitudes(&frame, 60, 40, 64, 64);
    let samples = magnitudes_to_iq(&mags);

    let mut det = FrameDetector::new();
    det.reset_noise_floor(40);
    det.set_min_confidence(200);
    let mut got: Vec<Frame> = Vec::new();
    det.process(&samples, &mut got);
    assert_eq!(got.len(), 0, "below-threshold frame should be filtered");
}

#[test]
fn confidence_threshold_alone_holds_a_frame_back() {
    let frame = synth_df17_payload();
    let mags = synth_frame_as_magnitudes(&frame, 120, 5, 64, 64);
    let samples = magnitudes_to_iq(&mags);
    for (min, expected) in [(234u8, 1usize), (235, 0)] {
        let mut det = FrameDetector::new();
        det.reset_noise_floor(5);
        det.set_min_confidence(min);
        let mut got: Vec<Frame> = Vec::new();
        det.process(&samples, &mut got);
        assert_eq!(got.len(), expected);
    }
}

#[test]
fn process_is_zero_allocation_in_steady_state() {
    let chunk = 1024;
    let mut det = FrameDetector::with_chunk_capacity(chunk);
    let carry_cap = det.carry_room();
    let initial_cap = det.buffer_capacity();
    assert!(
        initial_cap >= chunk + carry_cap,
        "constructor should pre-allocate (got {initial_cap}, want >= {})",
        chunk + carry_cap,
    );
    let samples = vec![Iq::new(0, 0); chunk];
    let mut got: Vec<Frame> = Vec::new();
    for _ in 0..32 {
        det.process(&samples, &mut got);
    }
    assert_eq!(
        det.buffer_capacity(),
        initial_cap,
        "process must not grow the magnitude buffer at or below the configured chunk size",
    );
}

#[test]
fn larger_chunk_grows_the_buffer_once() {
    let mut det = FrameDetector::with_chunk_capacity(64);
    let mut got: Vec<Frame> = Vec::new();
    let samples = vec![Iq::new(0, 0); 100_000];
    det.process(&samples, &mut got);
    let grown = det.buffer_capacity();
    assert!(grown >= 100_000);
    for n in [64, 1000, 99_000] {
        det.process(&samples[..n], &mut got);
        assert_eq!(det.buffer_capacity(), grown);
    }
}

#[test]
fn short_frame_is_found_near_the_end() {
    // DF 4: the CRC is combined with an address, so the frame is passed on unchecked.
    let frame = [0x20, 0x00, 0x05, 0x50, 0x11, 0x22, 0x33];
    let mags = synth_frame_as_magnitudes(&frame, 120, 5, 64, 0);
    let mut det = FrameDetector::new();
    det.reset_noise_floor(5);
    let mut got: Vec<Frame> = Vec::new();
    det.process(&magnitudes_to_iq(&mags), &mut got);
    assert_eq!(got.len(), 1);
    assert_eq!(got[0].downlink_format(), DownlinkFormat::AltitudeReply);
    assert_eq!(got[0].crc_outcome(), CrcOutcome::Failed);
    assert_eq!(got[0].len(), SHORT_FRAME_BYTES);
    assert!(!got[0].is_empty());
    assert_eq!(got[0].bytes(), &frame[..]);
}

#[test]
fn reserved_format_is_skipped() {
    let mut frame = [0u8; 7];
    frame[0] = 6 << 3;
    let mags = synth_frame_as_magnitudes(&frame, 120, 5, 64, 64);
    let mut det = FrameDetector::new();
    det.reset_noise_floor(5);
    let mut got: Vec<Frame> = Vec::new();
    det.process(&magnitudes_to_iq(&mags), &mut got);
    assert!(got.iter().all(|f| !matches!(f.downlink_format(), DownlinkFormat::Reserved(_))));
}

#[test]
fn squitter_that_fails_the_crc_is_dropped() {
    // Two bit errors are noticed and cannot be repaired.
    let mut frame = synth_df17_payload();
    frame[4] ^= 3;
    let mags = synth_frame_as_magnitudes(&frame, 120, 5, 64, 64);
    let mut det = FrameDetector::new();
    det.reset_noise_floor(5);
    let mut got: Vec<Frame> = Vec::new();
    det.process(&magnitudes_to_iq(&mags), &mut got);
    assert!(got.is_empty());
    // One is repaired.
    frame[4] ^= 1;
    let mags = synth_frame_as_magnitudes(&frame, 120, 5, 64, 64);
    det.process(&magnitudes_to_iq(&mags), &mut got);
    assert_eq!(got.len(), 1);
    assert_eq!(got[0].crc_outcome(), CrcOutcome::Corrected { bit: 38 });
    assert_eq!(got[0].bytes(), &synth_df17_payload());
}

#[test]
fn chunks_join_into_the_same_frames() {
    let mut mags = Vec::new();
    for k in 0..5u8 {
        let mut f = synth_df17_payload();
        f[4] ^= k;
        let crc_val = crc::crc24(&f[..11]);
        f[11..].copy_from_slice(&crc_val.to_be_bytes()[1..]);
        mags.extend(synth_frame_as_magnitudes(&f, 120, 5, 300, 40));
    }
    let samples = magnitudes_to_iq(&mags);
    let mut whole = FrameDetector::new();
    whole.reset_noise_floor(5);
    let mut expected: Vec<Frame> = Vec::new();
    whole.process(&samples, &mut expected);
    assert_eq!(expected.len(), 5);
    for size in [128usize, 500, 580, 1000, 1160] {
        let mut det = FrameDetector::new();
        det.reset_noise_floor(5);
        let mut got: Vec<Frame> = Vec::new();
        for chunk in samples.chunks(size) {
            det.process(chunk, &mut got);
        }
        assert_eq!(got, expected, "chunks of {size}");
    }
}

#[test]
fn double_rate_stream_is_decoded() {
    let frame = synth_df17_payload();
    let mags = synth_frame_as_magnitudes(&frame, 120, 5, 64, 64);
    let doubled: Vec<u16> = mags.iter().flat_map(|&m| [m, m]).collect();
    let mut det = FrameDetector::with_sample_rate(4_000_000);
    assert_eq!(det.sample_rate(), 4_000_000);
    det.reset_noise_floor(5);
    let mut got: Vec<Frame> = Vec::new();
    det.process(&magnitudes_to_iq(&doubled), &mut got);
    assert_eq!(got.len(), 1);
    assert_eq!(got[0].bytes(), &frame[..]);
    assert_eq!(got[0].crc_outcome(), CrcOutcome::Clean);
}

#[test]
fn frame_from_bytes_reports_the_crc() {
    let frame = synth_df17_payload();
    let f = Frame::from_bytes(&frame);
    assert_eq!(f.crc_outcome(), CrcOutcome::Clean);
    assert_eq!(f.confidence(), 255);
    assert!(f.is_validated());
    let mut bad = frame;
    bad[5] ^= 1;
    let g = Frame::from_bytes(&bad);
    assert_eq!(g.crc_outcome(), CrcOutcome::Failed);
    assert_eq!(g.bytes(), &bad[..]);
    assert!(!g.is_validated());
}

#[test]
fn replay_decodes_synthetic_df17_frame() {
    let mut data = [0u8; 11];
    data[0] = 17 << 3;
    data[1] = 0x4B;
    data[2] = 0x9C;
    data[3] = 0xA2;
    data[4] = 0x07;
    data[5] = 0x58;
    data[6] = 0x10;
    data[7] = 0x20;
    data[8] = 0x30;
    data[9] = 0x40;
    data[10] = 0x50;
    let crc_val = crc::crc24(&data);
    let mut frame = [0u8; LONG_FRAME_BYTES];
    frame[..11].copy_from_slice(&data);
    frame[11] = ((crc_val >> 16) & 0xFF) as u8;
    frame[12] = ((crc_val >> 8) & 0xFF) as u8;
    frame[13] = (crc_val & 0xFF) as u8;
    let mags = synth_frame_as_magnitudes(&frame, 120, 5, 64, 64);
    let mut det = FrameDetector::new();
    det.reset_noise_floor(5);
    let mut got: Vec<Frame> = Vec::new();
    det.process(&magnitudes_to_iq(&mags), &mut got);
    assert_eq!(got.len(), 1, "expected exactly one frame");
    let line = frame_line(&got[0], &decode(&got[0]), "");
    let hex: String = frame.iter().map(|b| format!("{b:02X}")).collect();
    assert!(line.contains("DF17"), "expected DF17 line, got:\n{line}");
    assert!(line.contains(&hex), "expected hex payload {hex}, got:\n{line}");
    assert!(line.contains("clean"), "expected clean CRC outcome, got:\n{line}");
    assert_eq!(line, format!("DF17 {hex} clean       conf=234 ICAO=4B9CA2 tc=Other(0)"));
}

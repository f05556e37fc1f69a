//! Demodulation at 2.4 MS/s.

use rs1090::crc::{crc24, CrcOutcome};
use rs1090::demod::NoiseFloor;
use rs1090::demod_2400::{detect_preamble, process_2400, slice_message, DemodResult, IcaoFilter};
use rs1090::frame::{DownlinkFormat, Frame, FrameDetector};
use rs1090::Iq;

fn with_crc(data: &[u8], overlay: u32) -> Vec<u8> {
    let c = crc24(data) ^ overlay;
    let mut f = data.to_vec();
    f.push((c >> 16) as u8);
    f.push((c >> 8) as u8);
    f.push(c as u8);
    f
}

/// The signal of a frame sampled at 2.4 MS/s. Each sample is the share of its time in
/// which the transmitter was on, in steps of a fifth of a sample, starting `offset`
/// steps late.
fn transmission(bytes: &[u8], pulse: u16, floor: u16, offset: usize) -> Vec<u16> {
    // Half a microsecond is 1.2 samples: 6 steps of a fifth of a sample.
    let mut on: Vec<bool> = vec![false; 5 + offset];
    let mut half = |v: bool| {
        for _ in 0..6 {
            on.push(v);
        }
    };
    for k in 0..16 {
        half(k == 0 || k == 2 || k == 7 || k == 9);
    }
    for b in bytes {
        for k in 0..8 {
            let bit = (b >> (7 - k)) & 1 != 0;
            half(bit);
            half(!bit);
        }
    }
    for _ in 0..10 {
        on.push(false);
    }
    on.chunks(5)
        .map(|c| {
            let n = c.iter().filter(|v| **v).count() as u16;
            floor + (pulse - floor) * n / 5
        })
        .collect()
}

fn stream(frames: &[Vec<u8>], offset: usize) -> Vec<u16> {
    let mut m = vec![4u16; 400];
    for f in frames {
        m.extend(transmission(f, 120, 4, offset));
        m.extend(vec![4u16; 400]);
    }
    m
}

fn to_iq(mags: &[u16]) -> Vec<Iq> {
    mags.iter().map(|&m| Iq::new(m.min(127) as i8, 0)).collect()
}

fn squitter() -> Vec<u8> {
    with_crc(&[17 << 3, 0xA1, 0xB2, 0xC3, 0x58, 0x10, 0x20, 0x30, 0x40, 0x50, 0x60], 0)
}

#[test]
fn squitter_is_found_at_every_offset() {
    for offset in 0..5 {
        let mags = stream(&[squitter()], offset);
        let mut det = FrameDetector::with_sample_rate(2_400_000);
        let mut got: Vec<Frame> = Vec::new();
        det.process(&to_iq(&mags), &mut got);
        assert_eq!(got.len(), 1, "offset {offset}");
        assert_eq!(got[0].bytes(), &squitter()[..], "offset {offset}");
        assert_eq!(got[0].downlink_format(), DownlinkFormat::ExtendedSquitter);
        assert_eq!(got[0].crc_outcome(), CrcOutcome::Clean);
    }
}

#[test]
fn reply_needs_a_known_sender() {
    // DF 4 from A1B2C3, with and without a squitter that announces the address.
    let reply = with_crc(&[4 << 3, 0x00, 0x05, 0x50], 0x00A1_B2C3);
    let mut alone = FrameDetector::with_sample_rate(2_400_000);
    let mut got: Vec<Frame> = Vec::new();
    alone.process(&to_iq(&stream(&[reply.clone()], 1)), &mut got);
    assert_eq!(got.len(), 0);

    let mut both = FrameDetector::with_sample_rate(2_400_000);
    both.process(&to_iq(&stream(&[squitter(), reply.clone()], 1)), &mut got);
    assert_eq!(got.len(), 2);
    assert_eq!(got[1].downlink_format(), DownlinkFormat::AltitudeReply);
    assert_eq!(got[1].crc_outcome(), CrcOutcome::Failed);
    assert_eq!(got[1].bytes(), &reply[..]);
}

#[test]
fn frame_at_the_end_of_a_chunk_is_reported_once() {
    let mags = stream(&[squitter()], 0);
    let samples = to_iq(&mags);
    for cut in [450usize, 600, 688, 700, 750, 900] {
        let mut det = FrameDetector::with_sample_rate(2_400_000);
        let mut got: Vec<Frame> = Vec::new();
        det.process(&samples[..cut], &mut got);
        det.process(&samples[cut..], &mut got);
        assert_eq!(got.len(), 1, "cut at {cut}");
    }
}

#[test]
fn results_carry_their_extent() {
    let mags = stream(&[squitter()], 0);
    let mut floor = NoiseFloor::fresh();
    let mut filter = IcaoFilter::default();
    let mut out: Vec<DemodResult> = Vec::new();
    let end = process_2400(&mut floor, &mut filter, &mags, 0, &mut out);
    assert_eq!(out.len(), 1);
    assert_eq!(out[0].advance, 19 + 268);
    assert_eq!(end, 400 + 287);
    assert!(filter.contains(crc24(&[0xA1, 0xB2, 0xC3])));
    assert!(!filter.contains(crc24(&[0xA1, 0xB2, 0xC4])));
    // The level of the preamble stands for the confidence.
    assert_eq!(out[0].confidence, 16);

    let mut strict: Vec<DemodResult> = Vec::new();
    let end = process_2400(&mut floor, &mut filter, &mags, 200, &mut strict);
    assert_eq!(strict.len(), 0);
    assert_eq!(end, 0);
}

#[test]
fn single_bit_error_is_repaired() {
    let mut f = squitter();
    f[6] ^= 0x08;
    let mut det = FrameDetector::with_sample_rate(2_400_000);
    let mut got: Vec<Frame> = Vec::new();
    det.process(&to_iq(&stream(&[f], 2)), &mut got);
    assert_eq!(got.len(), 1);
    assert_eq!(got[0].crc_outcome(), CrcOutcome::Corrected { bit: 52 });
    assert_eq!(got[0].bytes(), &squitter()[..]);
}

#[test]
fn filter_masks_addresses() {
    let mut f = IcaoFilter::default();
    assert!(!f.contains(0x12_3456));
    f.add(0xFF12_3456);
    assert!(f.contains(0x12_3456));
    assert!(f.contains(0xAB12_3456));
}

#[test]
fn preamble_patterns() {
    // Peaks at 1, 3, 9 and 12: the second pattern.
    let mut p = [10u16; 19];
    for k in [1, 3, 9, 12] {
        p[k] = 100;
    }
    let hit = detect_preamble(&p).expect("preamble");
    assert_eq!(hit.try_phase, 4);
    assert_eq!(hit.high, 100);
    assert_eq!(hit.base_signal, 400);
    assert_eq!(hit.base_noise, 40);
    // Peaks at 1, 4, 10 and 12: the fourth.
    let mut p = [10u16; 19];
    for k in [1, 4, 10, 12] {
        p[k] = 100;
    }
    assert_eq!(detect_preamble(&p).expect("preamble").try_phase, 6);
    assert!(detect_preamble(&[10u16; 19]).is_none());
}

#[test]
fn slicer_ignores_a_constant_offset() {
    let mags = transmission(&squitter(), 120, 4, 0);
    let raised: Vec<u16> = mags.iter().map(|m| m + 1000).collect();
    let a = slice_message(&mags, 20, 4, 14);
    let b = slice_message(&raised, 20, 4, 14);
    assert_eq!(a, b);
}

#[test]
fn short_result_is_filled_up_with_zeros() {
    let mut mag = [0u16; 160];
    for k in [1, 3, 9, 12] {
        mag[k] = 800;
    }
    let mut floor = NoiseFloor::fresh();
    let mut filter = IcaoFilter::default();
    filter.add(0);
    let mut out: Vec<DemodResult> = Vec::new();
    process_2400(&mut floor, &mut filter, &mag, 100, &mut out);
    assert_eq!(out.len(), 1);
    assert_eq!(out[0].bytes, [0; 14]);
    assert_eq!(out[0].df, DownlinkFormat::ShortAcas);
    assert_eq!(out[0].crc, CrcOutcome::Failed);
    assert_eq!(out[0].confidence, 100);
    assert_eq!(out[0].advance, 153);
}

#[test]
fn slicing_reads_no_more_than_it_needs() {
    // The last bit of a byte that begins four fifths late is read from samples 17 to 19.
    let mag = [7u16; 20];
    assert_eq!(slice_message(&mag, 0, 4, 1)[0], 0);
    let mut mag = [0u16; 20];
    mag[17] = 9;
    assert_eq!(slice_message(&mag, 0, 4, 1)[0] & 1, 1);
}

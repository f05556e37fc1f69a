//! The state tracker.

use rs1090::cpr::{LatLon, Ratio};
use rs1090::crc::{self, CrcOutcome};
use rs1090::demod::{synth_bits_as_magnitude, PREAMBLE_HIGH_IDX, PREAMBLE_SAMPLES, SAMPLES_PER_BIT};
use rs1090::frame::{Frame, FrameDetector};
use rs1090::message::{DecodeError, Icao, Message};
use rs1090::state::{PositionSource, StateEvent, StateTracker, ACTIVE_ICAO_WINDOW, STALE_AFTER};
use rs1090::Iq;

const SECOND: u64 = 1_000_000_000;
const MILLI: u64 = 1_000_000;
const T0: u64 = 5 * SECOND;

fn value(r: Ratio) -> f64 {
    r.num() as f64 / r.den() as f64
}

/// A DF 17 frame with a valid CRC.
fn build_df17(icao: [u8; 3], me: [u8; 7]) -> [u8; 14] {
    let mut data = [0u8; 11];
    data[0] = (17u8 << 3) | 5;
    data[1] = icao[0];
    data[2] = icao[1];
    data[3] = icao[2];
    data[4..11].copy_from_slice(&me);
    let c = crc::crc24(&data);
    let mut f = [0u8; 14];
    f[..11].copy_from_slice(&data);
    f[11] = ((c >> 16) & 0xFF) as u8;
    f[12] = ((c >> 8) & 0xFF) as u8;
    f[13] = (c & 0xFF) as u8;
    f
}

/// Runs the bytes of a frame through the detector.
fn frame_from_bytes(frame_bytes: &[u8]) -> Frame {
    let payload_bits = frame_bytes.len() * 8;
    let payload_samples = payload_bits * SAMPLES_PER_BIT;
    let total = 64 + PREAMBLE_SAMPLES + payload_samples + 64;
    let mut mags = vec![5u16; total];
    let pre = 64;
    for &k in &PREAMBLE_HIGH_IDX {
        mags[pre + k] = 120;
    }
    let mut bits = vec![false; payload_bits];
    for (i, b) in frame_bytes.iter().enumerate() {
        for k in 0..8 {
            bits[i * 8 + k] = (b >> (7 - k)) & 1 != 0;
        }
    }
    let start = pre + PREAMBLE_SAMPLES;
    synth_bits_as_magnitude(&bits, 120, 5, &mut mags[start..start + payload_samples]);
    let samples: Vec<Iq> = mags.iter().map(|&m| Iq::new(m.min(127) as i8, 0)).collect();
    let mut det = FrameDetector::new();
    det.reset_noise_floor(5);
    let mut out = Vec::new();
    det.process(&samples, &mut out);
    assert_eq!(out.len(), 1, "synth frame must produce exactly one frame");
    out[0]
}

/// Eight six-bit codes as an identification.
fn identification_me(codes: [u8; 8]) -> [u8; 7] {
    let mut me = [0u8; 7];
    me[0] = 4u8 << 3;
    let mut bits: u64 = 0;
    for c in codes {
        bits = (bits << 6) | u64::from(c & 0x3F);
    }
    for i in 0..6 {
        me[1 + i] = ((bits >> (8 * (5 - i))) & 0xFF) as u8;
    }
    me
}

/// An airborne position without altitude.
fn airborne_position_me(odd: bool, lat_cpr: u32, lon_cpr: u32) -> [u8; 7] {
    let tc: u64 = 11;
    let me_bits: u64 = (tc << 51) | (u64::from(odd) << 34) | (u64::from(lat_cpr) << 17) | u64::from(lon_cpr);
    let mut me = [0u8; 7];
    for (i, byte) in me.iter_mut().enumerate() {
        *byte = ((me_bits >> (8 * (6 - i))) & 0xFF) as u8;
    }
    me
}

const TEST1234: [u8; 8] = [20, 5, 19, 20, 49, 50, 51, 52];

#[test]
fn acquires_new_aircraft_on_first_frame() {
    let me = identification_me(TEST1234);
    let bytes = build_df17([0xAB, 0xCD, 0xEF], me);
    let frame = frame_from_bytes(&bytes);

    let mut tracker = StateTracker::new();
    let mut events = Vec::new();
    tracker.ingest(&frame, T0, &mut events);

    let icao = Icao::from_bytes([0xAB, 0xCD, 0xEF]);
    assert!(events.iter().any(|e| matches!(e, StateEvent::Acquired(i) if *i == icao)));
    assert!(events.iter().any(|e| matches!(e, StateEvent::Identification { icao: i, callsign }
                          if *i == icao && callsign.as_str() == "TEST1234")));
    let ac = tracker.get(icao).expect("aircraft tracked");
    assert_eq!(ac.callsign.unwrap().as_str(), "TEST1234");
    assert_eq!(ac.counters.messages_total, 1);
    assert_eq!(ac.counters.crc_clean, 1);
}

#[test]
fn second_frame_from_same_aircraft_does_not_re_acquire() {
    let me = identification_me(TEST1234);
    let bytes = build_df17([0xAB, 0xCD, 0xEF], me);
    let frame = frame_from_bytes(&bytes);

    let mut tracker = StateTracker::new();
    let mut events = Vec::new();
    tracker.ingest(&frame, T0, &mut events);
    events.clear();
    tracker.ingest(&frame, T0 + 100 * MILLI, &mut events);
    assert!(!events.iter().any(|e| matches!(e, StateEvent::Acquired(_))));
    assert!(!events.iter().any(|e| matches!(e, StateEvent::Identification { .. })));
    let ac = tracker.get(Icao::from_bytes([0xAB, 0xCD, 0xEF])).unwrap();
    assert_eq!(ac.counters.messages_total, 2);
}

#[test]
fn changed_callsign_is_reported() {
    let a = frame_from_bytes(&build_df17([1, 2, 3], identification_me(TEST1234)));
    let b = frame_from_bytes(&build_df17([1, 2, 3], identification_me([20, 5, 19, 20, 49, 50, 51, 53])));
    let mut tracker = StateTracker::new();
    let mut events = Vec::new();
    tracker.ingest(&a, T0, &mut events);
    events.clear();
    tracker.ingest(&b, T0 + SECOND, &mut events);
    assert!(events.iter().any(|e| matches!(e, StateEvent::Identification { callsign, .. }
                          if callsign.as_str() == "TEST1235")));
}

#[test]
fn even_then_odd_within_window_produces_global_fix() {
    let icao_bytes = [0x4B, 0x9C, 0xA2];
    let icao = Icao::from_bytes(icao_bytes);
    let even = airborne_position_me(false, 0b1_0110_1011_0100_1000, 0b0_1100_1000_1010_1100);
    let odd = airborne_position_me(true, 0b1_0010_0001_1010_1110, 0b0_1100_0100_0001_0010);
    let f_even = frame_from_bytes(&build_df17(icao_bytes, even));
    let f_odd = frame_from_bytes(&build_df17(icao_bytes, odd));

    let mut tracker = StateTracker::new();
    let mut events = Vec::new();
    tracker.ingest(&f_odd, T0, &mut events);
    events.clear();
    tracker.ingest(&f_even, T0 + 500 * MILLI, &mut events);

    let pos_evt = events
        .iter()
        .find_map(|e| match e {
            StateEvent::Position { icao: i, pos, source, .. } if *i == icao => Some((*pos, *source)),
            _ => None,
        })
        .expect("position event emitted");
    assert_eq!(pos_evt.1, PositionSource::Global);
    assert_eq!(pos_evt.1.wire_tag(), "global");
    let lat = value(pos_evt.0.lat_deg);
    let lon = value(pos_evt.0.lon_deg);
    assert!((lat - 52.2572).abs() < 1e-3, "lat {lat} not near 52.2572");
    assert!((lon - 3.919_37).abs() < 1e-3, "lon {lon} not near 3.91937");
}

#[test]
fn stale_cpr_pair_does_not_resolve() {
    let icao_bytes = [0x4B, 0x9C, 0xA2];
    let even = airborne_position_me(false, 0b1_0110_1011_0100_1000, 0b0_1100_1000_1010_1100);
    let odd = airborne_position_me(true, 0b1_0010_0001_1010_1110, 0b0_1100_0100_0001_0010);
    let f_even = frame_from_bytes(&build_df17(icao_bytes, even));
    let f_odd = frame_from_bytes(&build_df17(icao_bytes, odd));

    let mut tracker = StateTracker::new();
    let mut events = Vec::new();
    tracker.ingest(&f_even, T0, &mut events);
    events.clear();
    tracker.ingest(&f_odd, T0 + 11 * SECOND, &mut events);
    assert!(!events.iter().any(|e| matches!(e, StateEvent::Position { .. })));
    // The older half is gone: an even report right after pairs with the odd one.
    tracker.ingest(&f_even, T0 + 12 * SECOND, &mut events);
    assert!(events.iter().any(|e| matches!(e, StateEvent::Position { source: PositionSource::Global, .. })));
}

#[test]
fn pair_exactly_at_the_window_resolves() {
    let even = airborne_position_me(false, 0b1_0110_1011_0100_1000, 0b0_1100_1000_1010_1100);
    let odd = airborne_position_me(true, 0b1_0010_0001_1010_1110, 0b0_1100_0100_0001_0010);
    let f_even = frame_from_bytes(&build_df17([1, 2, 3], even));
    let f_odd = frame_from_bytes(&build_df17([1, 2, 3], odd));
    let mut tracker = StateTracker::new();
    let mut events = Vec::new();
    tracker.ingest(&f_even, T0, &mut events);
    tracker.ingest(&f_odd, T0 + 10 * SECOND, &mut events);
    assert!(events.iter().any(|e| matches!(e, StateEvent::Position { source: PositionSource::Global, .. })));
}

#[test]
fn local_decode_used_when_global_unavailable() {
    let icao_bytes = [0xAB, 0xCD, 0xEF];
    let icao = Icao::from_bytes(icao_bytes);
    let bytes = build_df17(
        icao_bytes,
        airborne_position_me(false, 0b1_0110_1011_0100_1000, 0b0_1100_1000_1010_1100),
    );
    let frame = frame_from_bytes(&bytes);

    let mut tracker = StateTracker::new();
    tracker.set_reference(LatLon {
        lat_deg: Ratio::new(52, 1).unwrap(),
        lon_deg: Ratio::new(4, 1).unwrap(),
    });
    let mut events = Vec::new();
    tracker.ingest(&frame, T0, &mut events);

    let (pos, source) = events
        .iter()
        .find_map(|e| match e {
            StateEvent::Position { icao: i, pos, source, .. } if *i == icao => Some((*pos, *source)),
            _ => None,
        })
        .expect("local position event emitted");
    assert_eq!(source, PositionSource::Local);
    assert_eq!(source.wire_tag(), "local");
    assert!((value(pos.lat_deg) - 52.26).abs() < 0.2, "lat {}", value(pos.lat_deg));
    assert!((value(pos.lon_deg) - 3.92).abs() < 0.2, "lon {}", value(pos.lon_deg));
}

#[test]
fn lru_evicts_oldest_when_full() {
    let mut tracker = StateTracker::with_capacity(2);
    let mut events = Vec::new();
    let me = identification_me(TEST1234);
    let f1 = frame_from_bytes(&build_df17([0x00, 0x00, 0x01], me));
    let f2 = frame_from_bytes(&build_df17([0x00, 0x00, 0x02], me));
    let f3 = frame_from_bytes(&build_df17([0x00, 0x00, 0x03], me));
    tracker.ingest(&f1, T0, &mut events);
    tracker.ingest(&f2, T0 + 100 * MILLI, &mut events);
    events.clear();
    tracker.ingest(&f3, T0 + 200 * MILLI, &mut events);

    assert!(events.iter().any(|e| matches!(e, StateEvent::Lost(i) if *i == Icao::from_bytes([0, 0, 1]))));
    assert!(tracker.get(Icao::from_bytes([0, 0, 1])).is_none());
    assert!(tracker.get(Icao::from_bytes([0, 0, 2])).is_some());
    assert!(tracker.get(Icao::from_bytes([0, 0, 3])).is_some());
}

#[test]
fn lru_touch_protects_recently_seen_aircraft() {
    let mut tracker = StateTracker::with_capacity(2);
    let mut events = Vec::new();
    let me = identification_me(TEST1234);
    let f1 = frame_from_bytes(&build_df17([0x00, 0x00, 0x01], me));
    let f2 = frame_from_bytes(&build_df17([0x00, 0x00, 0x02], me));
    let f3 = frame_from_bytes(&build_df17([0x00, 0x00, 0x03], me));
    tracker.ingest(&f1, T0, &mut events);
    tracker.ingest(&f2, T0 + 100 * MILLI, &mut events);
    tracker.ingest(&f1, T0 + 200 * MILLI, &mut events);
    events.clear();
    tracker.ingest(&f3, T0 + 300 * MILLI, &mut events);

    let icao1 = Icao::from_bytes([0, 0, 1]);
    let icao2 = Icao::from_bytes([0, 0, 2]);
    assert!(
        events.iter().any(|e| matches!(e, StateEvent::Lost(i) if *i == icao2)),
        "f2 should be evicted (it became oldest after f1 was touched)",
    );
    assert!(tracker.get(icao1).is_some(), "f1 should survive, it was touched");
    assert!(tracker.get(icao2).is_none(), "f2 should be gone");
    let order: Vec<u32> = tracker.aircraft().iter().map(|a| a.icao.0).collect();
    assert_eq!(order, vec![1, 3]);
}

#[test]
fn full_table_also_drops_what_is_stale() {
    let mut tracker = StateTracker::with_capacity(3);
    let mut events = Vec::new();
    let me = identification_me(TEST1234);
    for (k, t) in [(1u8, 0u64), (2, 1), (3, 400)] {
        tracker.ingest(&frame_from_bytes(&build_df17([0, 0, k], me)), T0 + t * SECOND, &mut events);
    }
    events.clear();
    tracker.ingest(&frame_from_bytes(&build_df17([0, 0, 4], me)), T0 + 401 * SECOND, &mut events);
    let lost: Vec<u32> = events
        .iter()
        .filter_map(|e| match e {
            StateEvent::Lost(i) => Some(i.0),
            _ => None,
        })
        .collect();
    assert_eq!(lost, vec![1, 2]);
    assert_eq!(tracker.len(), 2);
}

#[test]
fn evict_stale_drops_old_entries() {
    let mut tracker = StateTracker::new();
    let mut events = Vec::new();
    let me = identification_me(TEST1234);
    let f = frame_from_bytes(&build_df17([0xAB, 0xCD, 0xEF], me));
    tracker.ingest(&f, T0, &mut events);
    events.clear();

    tracker.evict_stale(T0 + STALE_AFTER, &mut events);
    assert_eq!(tracker.len(), 1, "not stale yet");
    tracker.evict_stale(T0 + STALE_AFTER + SECOND, &mut events);
    assert!(events.iter().any(|e| matches!(e, StateEvent::Lost(_))));
    assert!(tracker.is_empty());
}

/// A DF 4 reply whose CRC is combined with an address.
fn build_df4_address_xor(icao: [u8; 3], payload: [u8; 4]) -> [u8; 7] {
    let mut data = [0u8; 4];
    data[0] = 4u8 << 3 | (payload[0] & 0x07);
    data[1..4].copy_from_slice(&payload[1..4]);
    let crc_val = crc::crc24(&data);
    let icao_val = (u32::from(icao[0]) << 16) | (u32::from(icao[1]) << 8) | u32::from(icao[2]);
    let xored = crc_val ^ icao_val;
    let mut f = [0u8; 7];
    f[..4].copy_from_slice(&data);
    f[4] = ((xored >> 16) & 0xFF) as u8;
    f[5] = ((xored >> 8) & 0xFF) as u8;
    f[6] = (xored & 0xFF) as u8;
    assert_eq!(crc::crc24(&f), crc::crc24(&icao));
    f
}

#[test]
fn address_xor_crc_recovers_known_icao() {
    let mut tracker = StateTracker::new();
    let mut events = Vec::new();

    let me = identification_me(TEST1234);
    let clean = frame_from_bytes(&build_df17([0xA2, 0x4A, 0xA8], me));
    tracker.ingest(&clean, T0, &mut events);
    events.clear();

    let df4 = build_df4_address_xor([0xA2, 0x4A, 0xA8], [0, 0, 0, 0]);
    let frame = frame_from_bytes(&df4);
    assert_eq!(frame.crc_outcome(), CrcOutcome::Failed);

    tracker.ingest(&frame, T0 + SECOND, &mut events);
    let icao = Icao::from_bytes([0xA2, 0x4A, 0xA8]);
    assert!(
        events.iter().any(|e| matches!(e, StateEvent::AddressRecovered { icao: i, .. } if *i == icao)),
        "expected AddressRecovered event, got {events:?}"
    );
    let ac = tracker.get(icao).expect("still tracked");
    assert_eq!(ac.counters.crc_address_recovered, 1);
    assert_eq!(ac.counters.messages_total, 2);
    assert_eq!(ac.counters.crc_failed, 0);
}

#[test]
fn address_xor_crc_rejects_unknown_icao() {
    let df4 = build_df4_address_xor([0xDE, 0xAD, 0xBE], [0, 0, 0, 0]);
    let frame = frame_from_bytes(&df4);
    let mut tracker = StateTracker::new();
    let mut events = Vec::new();
    tracker.ingest(&frame, T0, &mut events);
    assert!(tracker.is_empty(), "no aircraft should be invented");
    assert!(events.iter().any(|e| matches!(e, StateEvent::Orphan { .. })));
}

#[test]
fn address_xor_crc_rejects_stale_icao() {
    let mut tracker = StateTracker::new();
    let mut events = Vec::new();
    let me = identification_me(TEST1234);
    let clean = frame_from_bytes(&build_df17([0xA2, 0x4A, 0xA8], me));
    tracker.ingest(&clean, T0, &mut events);
    events.clear();

    let df4 = build_df4_address_xor([0xA2, 0x4A, 0xA8], [0, 0, 0, 0]);
    let frame = frame_from_bytes(&df4);
    let too_late = T0 + ACTIVE_ICAO_WINDOW + SECOND;
    tracker.ingest(&frame, too_late, &mut events);
    assert!(events.iter().any(|e| matches!(e, StateEvent::Orphan { .. })));
}

#[test]
fn sender_is_found_among_many() {
    let mut tracker = StateTracker::new();
    let mut events = Vec::new();
    let me = identification_me(TEST1234);
    for k in 0..20u8 {
        tracker.ingest(&Frame::from_bytes(&build_df17([1, 2, k], me)), T0 + u64::from(k) * SECOND, &mut events);
    }
    for k in [0u8, 7, 19] {
        events.clear();
        let reply = Frame::from_bytes(&build_df4_address_xor([1, 2, k], [0, 1, 2, 3]));
        tracker.ingest(&reply, T0 + 21 * SECOND, &mut events);
        assert!(matches!(events[0], StateEvent::AddressRecovered { icao, .. } if icao == Icao::from_bytes([1, 2, k])));
        assert_eq!(tracker.aircraft().last().unwrap().icao, Icao::from_bytes([1, 2, k]));
    }
    assert_eq!(tracker.len(), 20);
}

#[test]
fn decoded_outcome_decides() {
    let me = identification_me(TEST1234);
    let frame = Frame::from_bytes(&build_df17([9, 9, 9], me));
    let mut tracker = StateTracker::new();
    let mut events = Vec::new();
    // A frame that could not be decoded belongs to nobody.
    tracker.ingest_decoded(&frame, &Err(DecodeError::TruncatedFrame), T0, &mut events);
    assert!(matches!(events[0], StateEvent::Orphan { .. }));
    assert!(tracker.is_empty());
    // One that names an aircraft belongs to it.
    events.clear();
    tracker.ingest_decoded(&frame, &Ok(Message::AllCallReply { icao: Icao(77) }), T0, &mut events);
    assert!(matches!(events[0], StateEvent::Acquired(Icao(77))));
    assert_eq!(events.len(), 1);
    assert_eq!(tracker.get(Icao(77)).unwrap().last_seen, T0);
}

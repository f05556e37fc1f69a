//! From samples to lines of text.

use rs1090::cpr::{LatLon, Ratio};
use rs1090::crc::crc24;
use rs1090::demod::{synth_bits_as_magnitude, PREAMBLE_HIGH_IDX, PREAMBLE_SAMPLES, SAMPLES_PER_BIT};
use rs1090::frame::{DownlinkFormat, Frame, FrameDetector};
use rs1090::message::{decode, Altitude, Icao, Velocity, VelocityKind, VerticalRateSource};
use rs1090::pipeline::{capture_time, pace, read_verdict, Pipeline, ReadVerdict};
use rs1090::report::{aircraft_line, event_line, fmt_altitude, frame_line, push_velocity, roster};
use rs1090::state::{PositionSource, StateEvent, StateTracker};
use rs1090::Iq;

fn with_crc(data: [u8; 11]) -> [u8; 14] {
    let mut f = [0u8; 14];
    f[..11].copy_from_slice(&data);
    f[11..].copy_from_slice(&crc24(&data).to_be_bytes()[1..]);
    f
}

/// `KLM1023_` from 4840D6.
fn identification() -> [u8; 14] {
    with_crc([0x8D, 0x48, 0x40, 0xD6, 0x20, 0x2C, 0xC3, 0x71, 0xC3, 0x2C, 0xE0])
}

fn samples_of(frame: &[u8]) -> Vec<Iq> {
    let n = frame.len() * 8 * SAMPLES_PER_BIT;
    let mut mags = vec![5u16; 64 + PREAMBLE_SAMPLES + n + 64];
    for &k in &PREAMBLE_HIGH_IDX {
        mags[64 + k] = 120;
    }
    let bits: Vec<bool> = frame.iter().flat_map(|b| (0..8).map(move |k| (b >> (7 - k)) & 1 != 0)).collect();
    let start = 64 + PREAMBLE_SAMPLES;
    synth_bits_as_magnitude(&bits, 120, 5, &mut mags[start..start + n]);
    mags.iter().map(|&m| Iq::new(m as i8, 0)).collect()
}

#[test]
fn clock_follows_the_samples() {
    assert_eq!(capture_time(2_000_000, 2_000_000), 1_000_000_000);
    assert_eq!(capture_time(1, 2_400_000), 416);
    assert_eq!(capture_time(u64::MAX, 1), u64::MAX);
    assert_eq!(pace(2_000_000, 2_000_000, 400_000_000), Some(600_000_000));
    assert_eq!(pace(2_000_000, 2_000_000, 1_000_000_000), Some(0));
    assert_eq!(pace(2_000_000, 2_000_000, 1_000_000_001), None);
    assert_eq!(read_verdict(1, true), ReadVerdict::Samples);
    assert_eq!(read_verdict(0, true), ReadVerdict::ReceiverLost);
    assert_eq!(read_verdict(0, false), ReadVerdict::Finished);
}

#[test]
fn samples_become_aircraft() {
    let mut detector = FrameDetector::new();
    detector.reset_noise_floor(5);
    let mut p = Pipeline::new(detector, StateTracker::new(), 2_000_000);
    let samples = samples_of(&identification());
    let mut frames: Vec<Frame> = Vec::new();
    let now = p.feed(&samples, &mut frames);
    assert_eq!(now, samples.len() as u64 * 500);
    assert_eq!(p.samples_consumed(), samples.len() as u64);
    assert_eq!(frames.len(), 1);
    let mut events: Vec<StateEvent> = Vec::new();
    p.track(&frames[0], now, &mut events);
    let lines: Vec<String> = events.iter().map(|e| event_line(e, "")).collect();
    assert_eq!(lines, vec!["acquire 4840D6", "ident   4840D6 callsign=KLM1023"]);
    let a = p.tracker().get(Icao(0x4840D6)).unwrap();
    assert_eq!(aircraft_line(a, ""), "4840D6 KLM1023  [msgs=1 clean=1 corrected=0 addr-rec=0]");
    events.clear();
    p.finish(&mut events);
    assert!(events.is_empty());
    // Five minutes of silence.
    let silence = vec![Iq::new(0, 0); 1_000_000];
    for _ in 0..602 {
        p.feed(&silence, &mut frames);
    }
    p.finish(&mut events);
    assert_eq!(event_line(&events[0], ""), "lost    4840D6");
    assert!(p.tracker().is_empty());
}

#[test]
fn frame_lines() {
    let f = Frame::from_bytes(&identification());
    let line = frame_line(&f, &decode(&f), "");
    assert_eq!(
        line,
        format!(
            "DF17 8D4840D6202CC371C32CE0576098 clean       conf={:<3} ICAO=4840D6 ident callsign=KLM1023 cat=4/0",
            f.confidence()
        )
    );
    let f = Frame::from_bytes(&[0x20, 0, 0, 0, 0, 0, 1]);
    let line = frame_line(&f, &decode(&f), "");
    assert!(line.starts_with("DF4  20000000000001 failed      conf="), "{line}");
    assert!(line.ends_with(" surv DF4 bytes=20000000000001"), "{line}");
}

#[test]
fn velocity_lines() {
    let mut s = String::from(">");
    let v = Velocity {
        kind: VelocityKind::Ground { speed_kt: 159, east_kt: -8, north_kt: -159 },
        vertical_rate_fpm: Some(-832),
        vertical_rate_source: VerticalRateSource::Baro,
    };
    push_velocity(&mut s, &v, "182.9");
    assert_eq!(s, ">vel gs=159kt hdg=182.9\u{b0} vr=-832fpm");
    s.clear();
    let v = Velocity {
        kind: VelocityKind::Airspeed { speed_kt: 375, heading_1024: Some(695), magnetic: false },
        vertical_rate_fpm: Some(64),
        vertical_rate_source: VerticalRateSource::Baro,
    };
    push_velocity(&mut s, &v, "");
    assert_eq!(s, "vel ias=375kt hdg=244.3\u{b0}(true) vr=+64fpm");
    s.clear();
    let v = Velocity {
        kind: VelocityKind::Airspeed { speed_kt: 0, heading_1024: None, magnetic: true },
        vertical_rate_fpm: None,
        vertical_rate_source: VerticalRateSource::Baro,
    };
    push_velocity(&mut s, &v, "");
    assert_eq!(s, "vel ias=0kt");
    let ev = StateEvent::Velocity { icao: Icao(1), velocity: v };
    assert_eq!(event_line(&ev, ""), "vel     000001 vel ias=0kt");
}

#[test]
fn headings_are_rounded_like_numbers_in_print() {
    for h in 0..1024u16 {
        let mut s = String::new();
        let v = Velocity {
            kind: VelocityKind::Airspeed { speed_kt: 1, heading_1024: Some(h), magnetic: true },
            vertical_rate_fpm: None,
            vertical_rate_source: VerticalRateSource::Baro,
        };
        push_velocity(&mut s, &v, "");
        assert_eq!(s, format!("vel ias=1kt hdg={:.1}\u{b0}(mag)", f64::from(h) * 360.0 / 1024.0));
    }
}

#[test]
fn altitude_texts() {
    assert_eq!(fmt_altitude(Altitude::BaroFeet(38_000)), "alt=38000ft");
    assert_eq!(fmt_altitude(Altitude::BaroGillhamFeet(-300)), "alt=-300ft(gillham)");
    assert_eq!(fmt_altitude(Altitude::GnssFeet(0)), "alt=0ft(gnss)");
    assert_eq!(fmt_altitude(Altitude::Unavailable), "alt=n/a");
}

#[test]
fn event_lines() {
    let pos = LatLon { lat_deg: Ratio::new(-1, 3).unwrap(), lon_deg: Ratio::new(391_937, 100_000).unwrap() };
    let ev = StateEvent::Position {
        icao: Icao(0xABC),
        pos,
        altitude: Altitude::Unavailable,
        source: PositionSource::Global,
    };
    assert_eq!(event_line(&ev, ""), "pos     000ABC -0.3333,3.9194 (global)");
    let ev = StateEvent::Position {
        icao: Icao(0xABC),
        pos,
        altitude: Altitude::Unavailable,
        source: PositionSource::Local,
    };
    assert_eq!(event_line(&ev, ""), "pos     000ABC -0.3333,3.9194 (local )");
    let ev = StateEvent::AddressRecovered { icao: Icao(1), df: DownlinkFormat::AltitudeReply };
    assert_eq!(event_line(&ev, ""), "addr-recover 000001 from DF4");
    let ev = StateEvent::Orphan { df: DownlinkFormat::AltitudeReply };
    assert_eq!(event_line(&ev, ""), "orphan  DF4");
}

#[test]
fn roster_goes_by_address() {
    let mut tracker = StateTracker::new();
    let mut events: Vec<StateEvent> = Vec::new();
    for k in [9u8, 1, 200, 4] {
        let f = Frame::from_bytes(&with_crc([0x8D, 0, 0, k, 0x20, 0x2C, 0xC3, 0x71, 0xC3, 0x2C, 0xE0]));
        tracker.ingest(&f, u64::from(k), &mut events);
    }
    let order: Vec<u32> = roster(&tracker).iter().map(|a| a.icao.0).collect();
    assert_eq!(order, vec![1, 4, 9, 200]);
}

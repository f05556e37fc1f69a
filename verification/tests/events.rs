//! Events, the ring of sent events, and the snapshot.

use rs1090::broadcaster::{
    announce, kind_label, outcome_label, publish, push_replay, replay_after, subject_of, update_snapshot, velocity_known,
    REPLAY_CAPACITY,
};
use rs1090::cpr::{LatLon, Ratio};
use rs1090::crc::{crc24, CrcOutcome};
use rs1090::events::{
    from_state_event, ground_vector, snapshot_from, velocity_to_wire, AircraftAcquired, AircraftPosition, Event,
    EventEnvelope, SnapshotVelocity,
};
use rs1090::frame::{DownlinkFormat, Frame};
use rs1090::message::{Altitude, Icao, Velocity, VelocityKind, VerticalRateSource};
use rs1090::state::{PositionSource, StateEvent, StateTracker};
use std::collections::{HashMap, VecDeque};

const SECOND: u64 = 1_000_000_000;

fn deg(x: f64) -> Ratio {
    Ratio::new((x * 1e9).round() as i64, 1_000_000_000).expect("in range")
}

fn ground(speed_kt: u16, vertical_rate_fpm: Option<i32>) -> Velocity {
    Velocity {
        kind: VelocityKind::Ground { speed_kt, east_kt: 0, north_kt: 0 },
        vertical_rate_fpm,
        vertical_rate_source: VerticalRateSource::Baro,
    }
}

#[test]
fn orphan_events_are_not_broadcast() {
    let ev = StateEvent::Orphan { df: DownlinkFormat::AltitudeReply };
    assert!(from_state_event(&ev, "t", None).is_none());
}

#[test]
fn velocity_ground_omits_airspeed_fields() {
    let v = ground(360, Some(1728));
    let wire = velocity_to_wire(Icao::from_bytes([0, 0, 1]), v, "t", Some(deg(168.3)));
    let j = wire.velocity;
    assert!(j.gs_um_s.is_some());
    assert!(j.track_deg.is_some());
    assert!(j.ias_um_s.is_none());
    assert!(j.heading_deg.is_none());
    assert!(j.vr_um_s.is_some());
    let vr = j.vr_um_s.unwrap() as f64 / 1e6;
    assert!((vr - 8.78).abs() < 0.05, "vr={vr}");
    assert_eq!(wire.v, 1);
    assert_eq!(wire.t, "t");
}

#[test]
fn velocity_airspeed_omits_ground_fields() {
    let v = Velocity {
        kind: VelocityKind::Airspeed { speed_kt: 250, heading_1024: Some(128), magnetic: true },
        vertical_rate_fpm: None,
        vertical_rate_source: VerticalRateSource::Baro,
    };
    let j = velocity_to_wire(Icao::from_bytes([0, 0, 1]), v, "t", None).velocity;
    assert!(j.ias_um_s.is_some());
    assert_eq!(j.heading_deg, Some(deg(45.0)));
    assert_eq!(j.heading_magnetic, Some(true));
    assert!(j.gs_um_s.is_none());
    assert!(j.track_deg.is_none());
    assert!(j.vr_um_s.is_none());
}

#[test]
fn knot_to_mps_conversion_pinned() {
    let wire = velocity_to_wire(Icao::zero(), ground(360, None), "t", Some(deg(0.0)));
    let gs_mps = wire.velocity.gs_um_s.unwrap() as f64 / 1e6;
    assert!((gs_mps - 185.2).abs() < 0.1, "gs_mps = {gs_mps}");
    assert_eq!(wire.velocity.gs_um_s, Some(185_199_840));
}

#[test]
fn snapshot_of_a_velocity_is_exact() {
    let v = Velocity {
        kind: VelocityKind::Ground { speed_kt: 5, east_kt: -3, north_kt: 4 },
        vertical_rate_fpm: Some(-64),
        vertical_rate_source: VerticalRateSource::Gnss,
    };
    assert_eq!(ground_vector(&v), Some((-3, 4)));
    let s = SnapshotVelocity::from_velocity(v, Some(deg(323.0)));
    assert_eq!(s.gs_um_s, Some(2_572_220));
    assert_eq!(s.track_deg, Some(deg(323.0)));
    assert_eq!(s.vr_um_s, Some(-325_120));
    assert_eq!(s.vr_source, Some(VerticalRateSource::Gnss));
    assert_eq!(s.heading_magnetic, None);
}

#[test]
fn events_carry_what_happened() {
    let icao = Icao::from_bytes([0xA1, 0xB2, 0xC3]);
    let now = "2026-05-15T18:42:01.123Z";
    let ev = StateEvent::Position {
        icao,
        pos: LatLon { lat_deg: deg(40.6413), lon_deg: deg(-73.7781) },
        altitude: Altitude::BaroFeet(25_000),
        source: PositionSource::Global,
    };
    let wire = from_state_event(&ev, now, None).expect("broadcast");
    assert_eq!(wire.tag(), "position");
    assert_eq!(wire.icao(), Some(icao));
    match wire {
        Event::Position(AircraftPosition { v, t, icao: i, lat, lon, alt_ft, alt_source, source }) => {
            assert_eq!(v, 1);
            assert_eq!(t, now);
            assert_eq!(i.to_hex().as_str(), "A1B2C3");
            assert_eq!(lat, deg(40.6413));
            assert_eq!(lon, deg(-73.7781));
            assert_eq!(alt_ft, Some(25_000));
            assert_eq!(alt_source.unwrap().tag(), "baro");
            assert_eq!(source.wire_tag(), "global");
        }
        other => panic!("{other:?}"),
    }
    let lost = from_state_event(&StateEvent::Lost(icao), now, None).unwrap();
    assert_eq!(lost.tag(), "lost");
    let recovered = StateEvent::AddressRecovered { icao, df: DownlinkFormat::AltitudeReply };
    match from_state_event(&recovered, now, None).unwrap() {
        Event::AddressRecovered(a) => assert_eq!(a.df, 4),
        other => panic!("{other:?}"),
    }
    assert_eq!(kind_label(&recovered), "address_recovered");
    assert_eq!(subject_of(&recovered), Some(icao));
    assert_eq!(subject_of(&StateEvent::Orphan { df: DownlinkFormat::AltitudeReply }), None);
    assert_eq!(outcome_label(CrcOutcome::Corrected { bit: 3 }), "corrected");
    assert_eq!(outcome_label(CrcOutcome::Clean), "clean");
    assert_eq!(outcome_label(CrcOutcome::Failed), "failed");
}

fn acquired(k: u32) -> Event {
    Event::Acquired(AircraftAcquired { v: 1, t: String::new(), icao: Icao(k) })
}

#[test]
fn ring_keeps_the_newest() {
    let mut ring: VecDeque<EventEnvelope> = VecDeque::new();
    let n = REPLAY_CAPACITY as u64 + 10;
    for id in 1..=n {
        push_replay(&mut ring, EventEnvelope { id, event: acquired(id as u32) });
        assert!(ring.len() <= REPLAY_CAPACITY);
    }
    assert_eq!(ring.len(), REPLAY_CAPACITY);
    assert_eq!(ring[0].id, 11);
    assert_eq!(ring[REPLAY_CAPACITY - 1].id, n);
}

#[test]
fn replay_starts_behind_the_last_seen() {
    let mut ring: VecDeque<EventEnvelope> = VecDeque::new();
    let mut next: u64 = 1;
    for k in 0..5 {
        let sent = publish(&mut ring, &mut next, acquired(k));
        assert_eq!(sent.id, u64::from(k) + 1);
    }
    let ids: Vec<u64> = replay_after(&ring, 2).iter().map(|e| e.id).collect();
    assert_eq!(ids, vec![3, 4, 5]);
    assert_eq!(replay_after(&ring, 0).len(), 5);
    assert_eq!(replay_after(&ring, 5).len(), 0);
    assert_eq!(replay_after(&ring, 2)[0].event.icao(), Some(Icao(2)));
}

/// A velocity squitter: 10 kt to the east, 0 to the north, climbing at 64 ft/min.
fn velocity_squitter(icao: [u8; 3]) -> Frame {
    let me: u64 = (19 << 51) | (1 << 48) | (11 << 32) | (1 << 21) | (2 << 10);
    let mut f = [0u8; 14];
    f[0] = (17 << 3) | 5;
    f[1..4].copy_from_slice(&icao);
    f[4..11].copy_from_slice(&me.to_be_bytes()[1..]);
    let c = crc24(&f[..11]);
    f[11..].copy_from_slice(&c.to_be_bytes()[1..]);
    Frame::from_bytes(&f)
}

#[test]
fn snapshot_follows_the_tracker() {
    let mut tracker = StateTracker::new();
    let mut snapshot = HashMap::new();
    let mut events = Vec::new();
    let icao = Icao::from_bytes([1, 2, 3]);
    assert_eq!(velocity_known(&tracker, icao), None);
    tracker.ingest(&velocity_squitter([1, 2, 3]), SECOND, &mut events);
    assert!(velocity_known(&tracker, icao).is_some());
    for ev in &events {
        update_snapshot(&mut snapshot, &tracker, ev, Some(deg(90.0)));
    }
    let s = &snapshot[&icao.0];
    assert_eq!(s.icao, icao);
    assert_eq!(s.counters.messages_total, 1);
    assert_eq!(s.counters.crc_clean, 1);
    let v = s.velocity.unwrap();
    assert_eq!(v.gs_um_s, Some(5_144_440));
    assert_eq!(v.track_deg, Some(deg(90.0)));
    assert!(s.position.is_none());
    let same = snapshot_from(tracker.get(icao).unwrap(), Some(deg(90.0)));
    assert_eq!(same.counters, s.counters);
    // Another aircraft leaves it alone, its loss removes it.
    update_snapshot(&mut snapshot, &tracker, &StateEvent::Lost(Icao(9)), None);
    assert_eq!(snapshot.len(), 1);
    update_snapshot(&mut snapshot, &tracker, &StateEvent::Acquired(Icao(9)), None);
    assert_eq!(snapshot.len(), 1);
    update_snapshot(&mut snapshot, &tracker, &StateEvent::Lost(icao), None);
    assert!(snapshot.is_empty());
}

#[test]
fn changes_are_announced() {
    let mut tracker = StateTracker::new();
    let mut snapshot = HashMap::new();
    let mut ring = VecDeque::new();
    let mut next: u64 = 1;
    let mut events = Vec::new();
    let icao = Icao::from_bytes([1, 2, 3]);
    tracker.ingest(&velocity_squitter([1, 2, 3]), SECOND, &mut events);
    assert_eq!(events.len(), 2);
    let east = Some(deg(90.0));
    let first = announce(&mut snapshot, &mut ring, &mut next, &tracker, &events[0], "t0", east, None).unwrap();
    assert_eq!((first.id, first.event.tag()), (1, "acquired"));
    let second = announce(&mut snapshot, &mut ring, &mut next, &tracker, &events[1], "t1", east, east).unwrap();
    assert_eq!((second.id, second.event.tag()), (2, "velocity"));
    assert_eq!((next, ring.len()), (3, 2));
    assert!(snapshot.contains_key(&icao.0));
    let orphan = StateEvent::Orphan { df: DownlinkFormat::AltitudeReply };
    assert!(announce(&mut snapshot, &mut ring, &mut next, &tracker, &orphan, "t2", None, None).is_none());
    assert_eq!((next, ring.len(), snapshot.len()), (3, 2, 1));
    let lost = StateEvent::Lost(icao);
    assert_eq!(announce(&mut snapshot, &mut ring, &mut next, &tracker, &lost, "t3", None, None).unwrap().id, 3);
    assert!(snapshot.is_empty());
}

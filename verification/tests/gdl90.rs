//! GDL 90 messages.

use rs1090::cpr::Ratio;
use rs1090::events::{AircraftSnapshot, SnapshotCounters, SnapshotPosition, SnapshotVelocity};
use rs1090::gdl90::{
    crc16_ccitt, encode_altitude, encode_foreflight_id, encode_heartbeat, encode_semicircle, encode_traffic, frame,
    seconds_since_utc_midnight, tick_packets,
};
use rs1090::message::{Icao, VerticalRateSource};
use rs1090::state::PositionSource;

fn deg(x: f64) -> Ratio {
    Ratio::new((x * 1e9).round() as i64, 1_000_000_000).expect("in range")
}

fn no_counters() -> SnapshotCounters {
    SnapshotCounters { messages_total: 0, crc_clean: 0, crc_corrected: 0, crc_address_recovered: 0 }
}

/// Strips the flags and undoes the escapes.
fn unframe(framed: &[u8]) -> Vec<u8> {
    assert_eq!(framed.first(), Some(&0x7E));
    assert_eq!(framed.last(), Some(&0x7E));
    let inner = &framed[1..framed.len() - 1];
    let mut out = Vec::with_capacity(inner.len());
    let mut i = 0;
    while i < inner.len() {
        if inner[i] == 0x7D {
            out.push(inner[i + 1] ^ 0x20);
            i += 2;
        } else {
            out.push(inner[i]);
            i += 1;
        }
    }
    out
}

#[test]
fn crc_known_vector_empty() {
    assert_eq!(crc16_ccitt(&[]), 0);
}

#[test]
fn crc_known_vector_123456789() {
    assert_eq!(crc16_ccitt(b"123456789"), 0x31C3);
}

#[test]
fn frame_escapes_0x7e_and_0x7d() {
    let body = vec![0x01, 0x7E, 0x02, 0x7D, 0x03];
    let framed = frame(&body);
    assert_eq!(framed.first(), Some(&0x7E));
    assert_eq!(framed.last(), Some(&0x7E));
    let inner = &framed[1..framed.len() - 1];
    assert!(!inner.windows(1).any(|w| w == [0x7E]));
    let mut i = 0;
    while i < inner.len() {
        if inner[i] == 0x7D {
            assert!(matches!(inner[i + 1], 0x5E | 0x5D));
            i += 2;
        } else {
            i += 1;
        }
    }
}

#[test]
fn receiver_recovers_every_payload() {
    for b in 0..=255u8 {
        let payload = [b, 0x7E, b ^ 0xFF, 0x7D, b];
        let got = unframe(&frame(&payload));
        assert_eq!(&got[..5], &payload);
        let crc = crc16_ccitt(&payload);
        assert_eq!(&got[5..], &[(crc & 0xFF) as u8, (crc >> 8) as u8]);
    }
}

#[test]
fn encode_semicircle_north_positive() {
    let v = encode_semicircle(deg(40.7021));
    let signed = v as i32;
    assert!((1_896_000..=1_897_000).contains(&signed), "got {signed}");
}

#[test]
fn encode_semicircle_west_two_complement() {
    let v = encode_semicircle(deg(-73.9826));
    assert!(v & 0x0080_0000 != 0, "expected sign bit, got 0x{v:06X}");
}

#[test]
fn semicircles_are_exact() {
    assert_eq!(encode_semicircle(deg(0.0)), 0);
    assert_eq!(encode_semicircle(deg(90.0)), 0x40_0000);
    assert_eq!(encode_semicircle(deg(-90.0)), 0xC0_0000);
    assert_eq!(encode_semicircle(deg(-180.0)), 0x80_0000);
    assert_eq!(encode_semicircle(deg(180.0)), 0x80_0000);
}

#[test]
fn encode_altitude_known_values() {
    assert_eq!(encode_altitude(None), 0xFFF);
    assert_eq!(encode_altitude(Some(-1000)), 0);
    assert_eq!(encode_altitude(Some(0)), 40);
    assert_eq!(encode_altitude(Some(30_000)), 1240);
    assert_eq!(encode_altitude(Some(200_000)), 0xFFE);
}

#[test]
fn heartbeat_is_well_formed() {
    let h = encode_heartbeat(86_399);
    assert_eq!(h.first(), Some(&0x7E));
    assert_eq!(h.last(), Some(&0x7E));
    let de = unframe(&h);
    assert_eq!(de[0], 0x00);
    let crc = crc16_ccitt(&de[..7]);
    assert_eq!(de[7], (crc & 0xFF) as u8);
    assert_eq!(de[8], ((crc >> 8) & 0xFF) as u8);
    // The low sixteen bits of the time, low byte first.
    assert_eq!(&de[3..5], &[0x7F, 0x51]);
    // The seventeenth stands in the second status byte.
    assert_eq!(de[2], 0x81);
    assert_eq!(unframe(&encode_heartbeat(65_535))[2], 0x01);
    assert_ne!(encode_heartbeat(0), encode_heartbeat(65_536));
}

#[test]
fn time_of_day() {
    assert_eq!(seconds_since_utc_midnight(0), 0);
    assert_eq!(seconds_since_utc_midnight(86_399), 86_399);
    assert_eq!(seconds_since_utc_midnight(86_400), 0);
    assert_eq!(seconds_since_utc_midnight(1_000_000_000), 6_400);
}

#[test]
fn identification_message() {
    let id = unframe(&encode_foreflight_id());
    assert_eq!(id.len(), 41);
    assert_eq!(&id[..2], &[0x65, 0x00]);
    assert_eq!(&id[2..10], &0x7273_3130_3930_0001_u64.to_le_bytes());
    assert_eq!(&id[10..18], b"rs1090  ");
    assert_eq!(&id[18..34], b"rs1090 ADS-B    ");
    assert_eq!(&id[34..39], &[0; 5]);
}

#[test]
fn traffic_report_skips_aircraft_without_position() {
    let no_pos = AircraftSnapshot {
        icao: Icao::from_bytes([0xAB, 0xCD, 0xEF]),
        callsign: None,
        category: None,
        position: None,
        velocity: None,
        counters: no_counters(),
    };
    assert!(encode_traffic(&no_pos).is_none());
}

fn airliner() -> AircraftSnapshot {
    AircraftSnapshot {
        icao: Icao::from_bytes([0xA0, 0xBA, 0x4E]),
        callsign: Some(String::from("UAL123")),
        category: None,
        position: Some(SnapshotPosition {
            lat: deg(40.7021),
            lon: deg(-73.9826),
            alt_ft: Some(3625),
            alt_source: Some(VerticalRateSource::Baro),
            source: PositionSource::Global,
        }),
        velocity: Some(SnapshotVelocity {
            gs_um_s: Some(150_000_000),
            track_deg: Some(deg(207.0)),
            ias_um_s: None,
            heading_deg: None,
            heading_magnetic: None,
            vr_um_s: Some(-5_000_000),
            vr_source: None,
        }),
        counters: no_counters(),
    }
}

#[test]
fn traffic_report_layout() {
    let framed = encode_traffic(&airliner()).expect("encoded");
    let payload = unframe(&framed);
    assert_eq!(payload.len(), 30);
    assert_eq!(payload[0], 0x14);
    assert_eq!(&payload[2..5], &[0xA0, 0xBA, 0x4E]);
    assert_eq!(&payload[19..27], b"UAL123  ");
}

#[test]
fn traffic_report_is_exact() {
    let payload = unframe(&encode_traffic(&airliner()).expect("encoded"));
    let lat = encode_semicircle(deg(40.7021));
    assert_eq!(&payload[5..8], &[(lat >> 16) as u8, (lat >> 8) as u8, lat as u8]);
    let lon = encode_semicircle(deg(-73.9826));
    assert_eq!(&payload[8..11], &[(lon >> 16) as u8, (lon >> 8) as u8, lon as u8]);
    // (3625 + 1000) / 25 = 185.
    assert_eq!(payload[11], 0x0B);
    assert_eq!(payload[12] >> 4, 0x9);
    // 150 m/s are 291.58 kt, and -5 m/s are -984.25 ft/min, -15.4 steps of 64.
    assert_eq!((u32::from(payload[14]) << 4) | u32::from(payload[15] >> 4), 292);
    assert_eq!((u32::from(payload[15] & 0x0F) << 8) | u32::from(payload[16]), 0xFF1);
    // 207 degrees in 256ths of a turn: 147.2.
    assert_eq!(payload[17], 147);
}

#[test]
fn callsign_is_made_printable() {
    let mut a = airliner();
    a.callsign = Some(String::from("ab-1\u{e9}"));
    let payload = unframe(&encode_traffic(&a).expect("encoded"));
    assert_eq!(&payload[19..23], b"AB 1");
    a.callsign = None;
    let payload = unframe(&encode_traffic(&a).expect("encoded"));
    assert_eq!(&payload[19..27], b"A0BA4E  ");
}

#[test]
fn one_round_of_packets() {
    let mut hidden = airliner();
    hidden.position = None;
    let fleet = vec![airliner(), hidden, airliner()];
    let packets = tick_packets(7, &fleet);
    assert_eq!(packets.len(), 4);
    assert_eq!(packets[0], encode_heartbeat(7));
    assert_eq!(packets[1], encode_foreflight_id());
    assert_eq!(packets[2], encode_traffic(&airliner()).unwrap());
    assert_eq!(packets[3], packets[2]);
}

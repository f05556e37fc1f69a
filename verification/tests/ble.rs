//! Summaries for a Bluetooth peripheral.

use rs1090::ble::{derive_latest, format_summary, pack_nearest, refresh_is_due};
use rs1090::cpr::Ratio;
use rs1090::events::{AircraftSnapshot, SnapshotCounters, SnapshotPosition, SnapshotVelocity};
use rs1090::message::{Icao, VerticalRateSource};
use rs1090::state::PositionSource;

fn deg(x: f64) -> Ratio {
    Ratio::new((x * 1e9).round() as i64, 1_000_000_000).expect("in range")
}

fn sample(icao: [u8; 3], alt_ft: Option<i32>, track: Option<f64>) -> AircraftSnapshot {
    AircraftSnapshot {
        icao: Icao::from_bytes(icao),
        callsign: None,
        category: None,
        position: alt_ft.map(|alt| SnapshotPosition {
            lat: deg(40.7),
            lon: deg(-74.0),
            alt_ft: Some(alt),
            alt_source: Some(VerticalRateSource::Baro),
            source: PositionSource::Global,
        }),
        velocity: track.map(|t| SnapshotVelocity {
            gs_um_s: Some(150_000_000),
            track_deg: Some(deg(t)),
            ias_um_s: None,
            heading_deg: None,
            heading_magnetic: None,
            vr_um_s: None,
            vr_source: None,
        }),
        counters: SnapshotCounters { messages_total: 0, crc_clean: 0, crc_corrected: 0, crc_address_recovered: 0 },
    }
}

#[test]
fn pack_nearest_layout_is_fifteen_bytes_msb_icao_le_rest() {
    let a = sample([0xAB, 0xCD, 0xEF], Some(1000), Some(207.5));
    let bytes = pack_nearest(&a);
    assert_eq!(bytes.len(), 15);
    assert_eq!(&bytes[0..3], &[0xAB, 0xCD, 0xEF]);
    assert_eq!(&bytes[3..5], &[40, 0]);
    assert_eq!(&bytes[5..9], &40_700_000i32.to_le_bytes());
    assert_eq!(&bytes[9..13], &(-74_000_000i32).to_le_bytes());
    assert_eq!(&bytes[13..15], &2075u16.to_le_bytes());
}

#[test]
fn pack_nearest_signals_unknown_with_sentinels() {
    let a = sample([0x00, 0x00, 0x01], None, None);
    let bytes = pack_nearest(&a);
    assert_eq!(bytes.len(), 15);
    assert_eq!(&bytes[3..5], &[0xFF, 0xFF]);
    assert_eq!(&bytes[5..9], &0i32.to_le_bytes());
    assert_eq!(&bytes[13..15], &[0xFF, 0xFF]);
}

#[test]
fn derive_latest_picks_lowest_altitude_with_position() {
    let fleet = vec![
        sample([0, 0, 1], Some(35_000), Some(90.0)),
        sample([0, 0, 2], Some(800), Some(207.0)),
        sample([0, 0, 3], Some(5_000), Some(15.0)),
        sample([0, 0, 4], None, None),
    ];
    let latest = derive_latest(&fleet);
    assert_eq!(latest.count, 4);
    assert_eq!(&latest.nearest[0..3], &[0, 0, 2]);
    assert!(latest.summary.contains("ft"), "summary={:?}", latest.summary);
}

#[test]
fn first_of_two_equally_low_is_taken() {
    let fleet = vec![sample([0, 0, 1], Some(900), None), sample([0, 0, 2], Some(900), None)];
    assert_eq!(&derive_latest(&fleet).nearest[0..3], &[0, 0, 1]);
}

#[test]
fn fleet_without_altitudes_has_no_nearest() {
    let fleet = vec![sample([0, 0, 1], None, None)];
    let latest = derive_latest(&fleet);
    assert_eq!(latest.count, 1);
    assert_eq!(latest.nearest, vec![0u8; 15]);
    assert_eq!(latest.summary, "1 ac");
}

#[test]
fn derive_latest_handles_empty_fleet() {
    let latest = derive_latest(&[]);
    assert_eq!(latest.count, 0);
    assert_eq!(latest.nearest, vec![0u8; 15]);
    assert_eq!(latest.summary, "0 ac");
}

#[test]
fn summaries_read_well() {
    let mut a = sample([0xAB, 0xCD, 0xEF], Some(800), Some(207.0));
    assert_eq!(format_summary(&a, 4), "ABCDEF 800ftG #4");
    a.callsign = Some(String::from("UAL123"));
    assert_eq!(format_summary(&a, 4), "UAL123 800ftG #4");
    a.callsign = Some(String::new());
    a.position = None;
    assert_eq!(format_summary(&a, 12), "ABCDEF ?ft? #12");
}

#[test]
fn refresh_waits_a_quarter_second() {
    assert!(!refresh_is_due(0));
    assert!(!refresh_is_due(249));
    assert!(refresh_is_due(250));
}

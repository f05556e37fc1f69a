//! Compact position reports.

use rs1090::cpr::{
    global_decode, local_decode, local_decode_surface, nl, CprError, CprPosition, LatLon, Ratio, NL_TRANSITIONS,
};
use std::f64::consts::PI;

fn ratio(x: f64) -> Ratio {
    Ratio::new((x * 1e12).round() as i64, 1_000_000_000_000).expect("in range")
}

fn value(r: Ratio) -> f64 {
    r.num() as f64 / r.den() as f64
}

fn place(lat: f64, lon: f64) -> LatLon {
    LatLon { lat_deg: ratio(lat), lon_deg: ratio(lon) }
}

/// Number of longitude zones by the formula.
fn nl_formula(lat_deg: f64) -> u32 {
    let abs = lat_deg.abs();
    if abs >= 87.0 {
        return 1;
    }
    if abs <= 1e-9 {
        return 59;
    }
    let nz = 15.0;
    let num = 1.0 - (PI / (2.0 * nz)).cos();
    let den = (abs * PI / 180.0).cos().powi(2);
    let arg = 1.0 - num / den;
    let n = (2.0 * PI / arg.acos()).floor();
    (n as i64).clamp(1, 59) as u32
}

#[test]
fn nl_table_matches_formula_at_pinned_points() {
    for &(lat, expected) in &[
        (0.0, 59u32),
        (12.0, 58),
        (20.0, 56),
        (45.0, 42),
        (60.0, 29),
        (74.0, 16),
        (87.5, 1),
        (-45.0, 42),
    ] {
        assert_eq!(nl(ratio(lat)), expected, "nl({lat}) mismatch");
    }
}

#[test]
fn nl_formula_and_table_agree_across_the_globe() {
    let mut lat = -89.9_f64;
    while lat <= 89.9 {
        let from_table = nl(ratio(lat));
        let from_formula = nl_formula(lat);
        assert_eq!(from_table, from_formula, "table {from_table} vs formula {from_formula} at lat {lat}");
        lat += 0.1;
    }
}

#[test]
fn nl_is_symmetric_about_the_equator() {
    let mut lat = 0.0_f64;
    while lat < 87.0 {
        assert_eq!(nl(ratio(lat)), nl(ratio(-lat)), "asymmetry at lat {lat}");
        lat += 0.5;
    }
}

#[test]
fn nl_changes_exactly_at_its_transitions() {
    for (i, &t) in NL_TRANSITIONS.iter().enumerate() {
        let at = Ratio::new(t, 100_000_000).unwrap();
        let below = Ratio::new(t - 1, 100_000_000).unwrap();
        assert_eq!(nl(below), 59 - i as u32);
        assert_eq!(nl(at), 58 - i as u32);
    }
}

fn d_lat(odd: bool) -> f64 {
    if odd {
        360.0 / 59.0
    } else {
        360.0 / 60.0
    }
}

fn d_lon(n: u32, odd: bool) -> f64 {
    let zones = if odd { n.saturating_sub(1).max(1) } else { n.max(1) };
    360.0 / f64::from(zones)
}

/// What a transmitter reports of a position.
fn encode(lat_deg: f64, lon_deg: f64, odd: bool) -> CprPosition {
    let dlat = d_lat(odd);
    let yz = ((lat_deg / dlat) - (lat_deg / dlat).floor()) * f64::from(1u32 << 17);
    let lat_cpr = (yz.round() as i64).rem_euclid(1 << 17) as u32;
    let lat_round = dlat * ((lat_deg / dlat).floor() + f64::from(lat_cpr) / f64::from(1u32 << 17));
    let dlon = d_lon(nl(ratio(lat_round)), odd);
    let xz = ((lon_deg / dlon) - (lon_deg / dlon).floor()) * f64::from(1u32 << 17);
    let lon_cpr = (xz.round() as i64).rem_euclid(1 << 17) as u32;
    CprPosition { lat_cpr, lon_cpr, odd }
}

fn close(a: f64, b: f64, eps: f64) -> bool {
    (a - b).abs() < eps
}

#[test]
fn global_decode_round_trips_dump1090_example() {
    let even = CprPosition {
        lat_cpr: 0b1_0110_1011_0100_1000,
        lon_cpr: 0b0_1100_1000_1010_1100,
        odd: false,
    };
    let odd = CprPosition {
        lat_cpr: 0b1_0010_0001_1010_1110,
        lon_cpr: 0b0_1100_0100_0001_0010,
        odd: true,
    };
    let p = global_decode(even, odd, false).expect("decode");
    assert!(close(value(p.lat_deg), 52.2572, 1e-3), "lat {} not near 52.2572", value(p.lat_deg));
    assert!(close(value(p.lon_deg), 3.919_37, 1e-3), "lon {} not near 3.91937", value(p.lon_deg));
}

#[test]
fn global_decode_is_exact() {
    let even = CprPosition { lat_cpr: 93_000, lon_cpr: 51_372, odd: false };
    let odd = CprPosition { lat_cpr: 74_158, lon_cpr: 50_194, odd: true };
    let p = global_decode(even, odd, false).expect("decode");
    // Zone 8 of 60, and zone 0 of 36.
    assert_eq!(p.lat_deg, Ratio::new(360 * (8 * 131_072 + 93_000), 60 * 131_072).unwrap());
    assert_eq!(p.lon_deg, Ratio::new(360 * 51_372, 36 * 131_072).unwrap());
}

#[test]
fn global_decode_rejects_parity_mismatch() {
    let a = CprPosition { lat_cpr: 0, lon_cpr: 0, odd: false };
    let b = CprPosition { lat_cpr: 0, lon_cpr: 0, odd: false };
    assert_eq!(global_decode(a, b, false), Err(CprError::ParityMismatch));
}

#[test]
fn global_decode_reports_its_other_failures() {
    // Latitudes beyond a pole: even and odd fractions that point at zone 20 of 60.
    let even = CprPosition { lat_cpr: 0, lon_cpr: 0, odd: false };
    let odd = CprPosition { lat_cpr: (131_072.0 * (20.0 * 59.0 / 60.0 - 19.0)) as u32, lon_cpr: 0, odd: true };
    assert_eq!(global_decode(even, odd, false), Err(CprError::LatitudeOutOfRange));
    // The two reports straddle a transition.
    let t = 59.954_592_77;
    let even = encode(t - 0.000_2, 10.0, false);
    let odd = encode(t + 0.000_2, 10.0, true);
    assert_eq!(global_decode(even, odd, true), Err(CprError::LatitudeZoneMismatch));
}

#[test]
fn round_trip_encode_decode_within_quantization_bounds() {
    for &(lat, lon) in &[
        (40.6413, -73.7781),
        (-33.9461, 151.1772),
        (51.4700, -0.4543),
        (1.3644, 103.9915),
        (78.2486, 15.4658),
    ] {
        let e = encode(lat, lon, false);
        let o = encode(lat, lon, true);
        let decoded = global_decode(e, o, true).expect("decode failed");
        assert!((value(decoded.lat_deg) - lat).abs() < 1e-3, "lat {lat} -> {}", value(decoded.lat_deg));
        assert!((value(decoded.lon_deg) - lon).abs() < 1e-3, "lon {lon} -> {}", value(decoded.lon_deg));
        let decoded = global_decode(e, o, false).expect("decode failed");
        assert!((value(decoded.lat_deg) - lat).abs() < 1e-4);
        assert!((value(decoded.lon_deg) - lon).abs() < 1e-3);
    }
}

#[test]
fn local_decode_recovers_nearby_position() {
    let (lat, lon) = (40.6413, -73.7781);
    let reference = place(40.6500, -73.7500);
    let msg = encode(lat, lon, true);
    let got = local_decode(msg, reference);
    assert!((value(got.lat_deg) - lat).abs() < 1e-3, "lat off: {}", value(got.lat_deg));
    assert!((value(got.lon_deg) - lon).abs() < 1e-3, "lon off: {}", value(got.lon_deg));
}

#[test]
fn local_decode_returns_wrong_tile_when_reference_too_far() {
    let (lat, lon) = (40.6413, -73.7781);
    let reference = place(0.0, 0.0);
    let msg = encode(lat, lon, false);
    let got = local_decode(msg, reference);
    assert!(
        (value(got.lat_deg) - lat).abs() > 10.0 || (value(got.lon_deg) - lon).abs() > 10.0,
        "expected wrong-tile answer; got close-to-truth {got:?}",
    );
}

#[test]
fn local_decode_stays_within_half_a_zone() {
    let mut x: u32 = 7;
    let mut rand = |n: u32| {
        x = x.wrapping_mul(1_103_515_245).wrapping_add(12_345);
        (x >> 8) % n
    };
    for _ in 0..2000 {
        let msg = CprPosition { lat_cpr: rand(131_072), lon_cpr: rand(131_072), odd: rand(2) == 1 };
        let lat = f64::from(rand(160)) - 80.0;
        let lon = f64::from(rand(340)) - 170.0;
        let got = local_decode(msg, place(lat, lon));
        assert!((value(got.lat_deg) - lat).abs() <= d_lat(msg.odd) / 2.0 + 1e-9);
        let half = d_lon(nl(got.lat_deg), msg.odd) / 2.0;
        let off = (value(got.lon_deg) - lon).abs();
        assert!(off <= half + 1e-9 || (off - 360.0).abs() <= half + 1e-9);
    }
}

#[test]
fn surface_grid_is_four_times_finer() {
    let msg = CprPosition { lat_cpr: 65_536, lon_cpr: 0, odd: false };
    let reference = place(40.0, -74.0);
    let air = local_decode(msg, reference);
    let ground = local_decode_surface(msg, reference);
    // Half a zone of 6 degrees, and of 1.5 degrees.
    assert_eq!(air.lat_deg, Ratio::new(39, 1).unwrap());
    assert_eq!(ground.lat_deg, Ratio::new(159, 4).unwrap());
}

#[test]
fn fractions_of_a_report() {
    let msg = CprPosition { lat_cpr: 32_768, lon_cpr: 98_304, odd: false };
    assert_eq!(msg.lat_frac(), Ratio::new(1, 4).unwrap());
    assert_eq!(msg.lon_frac(), Ratio::new(3, 4).unwrap());
}

#[test]
fn ratios_are_compared_by_value() {
    assert_eq!(Ratio::new(1, 2).unwrap(), Ratio::new(2, 4).unwrap());
    assert_ne!(Ratio::new(1, 2).unwrap(), Ratio::new(1, 3).unwrap());
    assert!(Ratio::new(-1, 2).unwrap().at_most(&Ratio::new(1, 3).unwrap()));
    assert!(Ratio::new(721, 1).is_none());
    assert!(Ratio::new(1, 0).is_none());
    assert!(Ratio::new(1, -2).is_none());
    assert!(Ratio::new(180, 2).unwrap().within(-90, 90));
    assert!(!Ratio::new(181, 2).unwrap().within(-90, 90));
}

#[test]
fn local_decode_crosses_the_antimeridian_eastwards() {
    let msg = encode(-17.5, -179.95, false);
    let got = local_decode(msg, place(-17.4, 179.9));
    assert!((value(got.lat_deg) - -17.5).abs() < 1e-4);
    assert!((value(got.lon_deg) - -179.95).abs() < 1e-4, "lon {}", value(got.lon_deg));
}

#[test]
fn pair_gives_back_the_nearest_grid_step() {
    // 30 degrees are five even zones, and 59 * 30 / 360 odd ones; there are 51 longitude zones.
    let even = encode(30.0, 60.0, false);
    let odd = encode(30.0, 60.0, true);
    let p = global_decode(even, odd, false).expect("decode");
    assert_eq!(p.lat_deg, Ratio::new(30, 1).unwrap());
    assert_eq!(p.lon_deg, Ratio::new(60, 1).unwrap());
    assert_eq!(nl(p.lat_deg), 51);
}

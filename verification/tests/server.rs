//! Queries of network clients, and settings.

use rs1090::broadcaster::{publish, replay_after};
use rs1090::config::{is_loopback_bind, merged, parse_latlon_string, BoolOutput, LatLonError};
use rs1090::cpr::Ratio;
use rs1090::events::{
    AircraftAcquired, AircraftSnapshot, Event, EventEnvelope, SnapshotCounters, SnapshotPosition,
};
use rs1090::message::{Icao, VerticalRateSource};
use rs1090::numeral::{parse_numeral, Parsed};
use rs1090::server::{find_aircraft, list_aircraft, parse_event_id, parse_icaos, parse_types, AircraftReply, Bbox, StreamFilter};
use rs1090::state::PositionSource;
use std::collections::{HashMap, VecDeque};

fn deg(x: f64) -> Ratio {
    Ratio::new((x * 1e9).round() as i64, 1_000_000_000).expect("in range")
}

fn value(r: Ratio) -> f64 {
    r.num() as f64 / r.den() as f64
}

#[test]
fn bbox_parses_canonical_form() {
    let b = Bbox::parse("40.0,-74.0,41.0,-73.0").expect("valid");
    assert!((value(b.min_lat) - 40.0).abs() < 1e-9);
    assert!((value(b.min_lon) - -74.0).abs() < 1e-9);
    assert!((value(b.max_lat) - 41.0).abs() < 1e-9);
    assert!((value(b.max_lon) - -73.0).abs() < 1e-9);
}

#[test]
fn bbox_rejects_malformed_input() {
    assert!(Bbox::parse("").is_none());
    assert!(Bbox::parse("40,-74,41").is_none());
    assert!(Bbox::parse("40,-74,41,-73,99").is_none());
    assert!(Bbox::parse("nope,-74,41,-73").is_none());
}

#[test]
fn bbox_rejects_out_of_range_coords() {
    assert!(Bbox::parse("91.0,-74.0,92.0,-73.0").is_none());
    assert!(Bbox::parse("40.0,-181.0,41.0,-180.5").is_none());
    assert!(Bbox::parse("40.0,-74.0,40.0,-73.0").is_none());
    assert!(Bbox::parse("40.0,-74.0,41.0,-74.0").is_none());
    assert!(Bbox::parse("41.0,-74.0,40.0,-73.0").is_none());
}

#[test]
fn bbox_contains_handles_boundary() {
    let b = Bbox::parse("40.0,-74.0,41.0,-73.0").unwrap();
    assert!(b.contains(deg(40.5), deg(-73.5)));
    assert!(b.contains(deg(40.0), deg(-74.0)));
    assert!(b.contains(deg(41.0), deg(-73.0)));
    assert!(!b.contains(deg(39.9), deg(-73.5)));
    assert!(!b.contains(deg(40.5), deg(-74.1)));
    assert!(!b.contains(deg(41.1), deg(-73.5)));
    assert!(!b.contains(deg(40.5), deg(-72.9)));
}

#[test]
fn bbox_takes_white_space_and_exponents() {
    let b = Bbox::parse(" 4e1 ,-74 , 41. ,-.73e2").expect("valid");
    assert_eq!(b.min_lat, deg(40.0));
    assert_eq!(b.max_lat, deg(41.0));
    assert_eq!(b.max_lon, deg(-73.0));
    assert!(Bbox::parse("nan,-74,41,-73").is_none());
    assert!(Bbox::parse("40,-74,inf,-73").is_none());
}

#[test]
fn parse_latlon_accepts_canonical_form() {
    let p = parse_latlon_string("40.5, -74.0").expect("valid");
    assert!((value(p.lat_deg) - 40.5).abs() < 1e-9);
    assert!((value(p.lon_deg) - -74.0).abs() < 1e-9);
}

#[test]
fn parse_latlon_rejects_out_of_range() {
    assert!(parse_latlon_string("91.0,-74.0").is_err());
    assert!(parse_latlon_string("40.0,-181.0").is_err());
}

#[test]
fn parse_latlon_tells_what_is_wrong() {
    let error = |s: &str| parse_latlon_string(s).err();
    assert_eq!(error("40.5"), Some(LatLonError::MissingComma));
    assert_eq!(error("north,-74"), Some(LatLonError::BadLatitude));
    assert_eq!(error("40.5,"), Some(LatLonError::BadLongitude));
    assert_eq!(error("40.5,1,2"), Some(LatLonError::BadLongitude));
    assert_eq!(error("90.1,0"), Some(LatLonError::OutOfRange));
    assert_eq!(error("inf,0"), Some(LatLonError::OutOfRange));
    assert_eq!(error("90,-180"), None);
}

/// The integer and the power of two that a number in double precision is made of.
fn parts_of(x: f64) -> (u64, u32) {
    let bits = x.abs().to_bits();
    let exponent = (bits >> 52) as u32;
    let fraction = bits & ((1 << 52) - 1);
    if exponent == 0 {
        (fraction, 1074)
    } else {
        (fraction | (1 << 52), 1075 - exponent)
    }
}

fn check_numeral(text: &str) {
    let chars: Vec<char> = text.chars().collect();
    match (parse_numeral(&chars), text.parse::<f64>()) {
        (Parsed::Invalid, Err(_)) => {}
        (Parsed::OutOfRange, Ok(x)) => assert!(!(x.abs() < 1000.0), "{text}"),
        (Parsed::Value(d), Ok(x)) => {
            let (negative, mut m, mut s) = d.parts();
            if m == 1 << 53 {
                m = 1 << 52;
                s -= 1;
            }
            assert_eq!((m, s), parts_of(x), "{text}");
            assert_eq!(negative, x.is_sign_negative(), "{text}");
        }
        (got, want) => panic!("{text}: {got:?}, {want:?}"),
    }
}

#[test]
fn numerals_are_rounded_to_double_precision() {
    for text in [
        "1.5", "-0.000000001", "+12e-1", ".5E1", "5.", "0", "-0", "0.1", "0.2", "0.3", "-0.4543", "40.7", "90",
        "89.99999999999999", "89.999999999999999", "90.000000000000007", "90.0000000000000071054273576010018587112426",
        "90.00000000000000710542735760100185871124267578125", "90.000000000000007105427357601001858711242675781251",
        "179.99999999999998578914528479799628257751464843750000001", "4.9e-324", "2.4703282292062327e-324",
        "2.4703282292062328e-324", "2.2250738585072011e-308", "2.2250738585072014e-308", "1e-400", "123e-330",
        "999.99999999999994", "0.000000000000000000000000000000000000000000000000000000000001",
        "000000000000000000000000000001.25", "1e-9999999999999999999999999999999999999", "0e99999999999999999999999",
        "9007199254740993e-15", "9007199254740993e-14", "0.50000000000000005551115123125782702118158340454101562",
        "0.500000000000000055511151231257827021181583404541015625", "0.500000000000000166533453693773481063544750213623046875",
    ] {
        check_numeral(text);
        check_numeral(&format!("-{text}"));
    }
    for bad in ["", "-", ".", "1e", "1e+", "--1", "1 2", "0x1", "1_0", "infin", "e5", "1..2"] {
        check_numeral(bad);
    }
    for huge in ["1000", "-1e3", "inf", "-Infinity", "NaN", "1e99999999999999999999", "1001e0", "9e400"] {
        check_numeral(huge);
    }
    // Pseudo-random digits and exponents.
    let mut x: u64 = 99;
    let mut rand = |n: u64| {
        x = x.wrapping_mul(6_364_136_223_846_793_005).wrapping_add(1_442_695_040_888_963_407);
        (x >> 33) % n
    };
    for _ in 0..3000 {
        let mut text = String::new();
        for _ in 0..rand(25) {
            text.push((b'0' + rand(10) as u8) as char);
        }
        text.push('.');
        for _ in 0..rand(30) {
            text.push((b'0' + rand(10) as u8) as char);
        }
        let e = rand(60) as i64 - 45;
        check_numeral(&text);
        check_numeral(&format!("{text}e{e}"));
    }
}

#[test]
fn loopback_addresses() {
    assert!(is_loopback_bind("127.0.0.1:8080"));
    assert!(is_loopback_bind("[::1]:8080"));
    assert!(is_loopback_bind("localhost:8080"));
    assert!(!is_loopback_bind("0.0.0.0:8080"));
    assert!(!is_loopback_bind("192.168.1.2:8080"));
}

#[test]
fn command_line_wins_over_the_file() {
    assert_eq!(merged(true, 1, Some(2)), 1);
    assert_eq!(merged(false, 1, Some(2)), 2);
    assert_eq!(merged(false, 1, None), 1);
    assert!(!BoolOutput::default().enabled);
}

#[test]
fn lists_are_read_leniently() {
    assert_eq!(parse_types(" Position, LOST "), vec!["position", "lost"]);
    assert_eq!(parse_icaos("A1B2C3, a1b2c4,xyz,12345,1234567"), vec![Icao(0xA1B2C3), Icao(0xA1B2C4)]);
}

fn envelope(id: u64, icao: u32) -> EventEnvelope {
    EventEnvelope { id, event: Event::Acquired(AircraftAcquired { v: 1, t: String::new(), icao: Icao(icao) }) }
}

fn aircraft(icao: u32, place: Option<(f64, f64, Option<i32>)>) -> AircraftSnapshot {
    AircraftSnapshot {
        icao: Icao(icao),
        callsign: None,
        category: None,
        position: place.map(|(lat, lon, alt_ft)| SnapshotPosition {
            lat: deg(lat),
            lon: deg(lon),
            alt_ft,
            alt_source: Some(VerticalRateSource::Baro),
            source: PositionSource::Local,
        }),
        velocity: None,
        counters: SnapshotCounters { messages_total: 0, crc_clean: 0, crc_corrected: 0, crc_address_recovered: 0 },
    }
}

#[test]
fn open_filter_sends_each_event_once() {
    let mut f = StreamFilter::new(None, None, None, None, None, Some(3));
    assert!(!f.needs_aircraft_lookup());
    assert!(!f.consider(&envelope(3, 1), None));
    assert!(f.consider(&envelope(4, 1), None));
    assert!(!f.consider(&envelope(4, 1), None));
    assert!(f.consider(&envelope(6, 1), None));
    assert!(!f.consider(&envelope(5, 1), None));
}

#[test]
fn filters_select_by_type_and_address() {
    let mut f = StreamFilter::new(Some("lost,acquired"), None, None, None, None, None);
    assert!(f.consider(&envelope(1, 1), None));
    let mut f = StreamFilter::new(Some("lost"), None, None, None, None, None);
    assert!(!f.consider(&envelope(1, 1), None));
    let mut f = StreamFilter::new(None, Some("000001"), None, None, None, None);
    assert!(f.consider(&envelope(1, 1), None));
    assert!(!f.consider(&envelope(2, 2), None));
    // A list without one valid address admits nothing.
    let mut f = StreamFilter::new(None, Some("what"), None, None, None, None);
    assert!(!f.consider(&envelope(1, 1), None));
}

#[test]
fn filters_select_by_place_and_altitude() {
    let inside = aircraft(1, Some((40.5, -73.5, Some(1000))));
    let outside = aircraft(2, Some((42.5, -73.5, Some(1000))));
    let nowhere = aircraft(3, None);
    let flat = aircraft(4, Some((40.5, -73.5, None)));
    let filter = || StreamFilter::new(None, None, Some("40,-74,41,-73"), None, None, None);
    assert!(filter().needs_aircraft_lookup());
    assert!(filter().consider(&envelope(1, 1), Some(&inside)));
    assert!(!filter().consider(&envelope(1, 2), Some(&outside)));
    assert!(!filter().consider(&envelope(1, 3), Some(&nowhere)));
    assert!(!filter().consider(&envelope(1, 3), None));
    assert!(filter().consider(&envelope(1, 4), Some(&flat)));
    let filter = || StreamFilter::new(None, None, None, Some(1000), Some(2000), None);
    assert!(filter().consider(&envelope(1, 1), Some(&inside)));
    assert!(!filter().consider(&envelope(1, 4), Some(&flat)));
    let filter = || StreamFilter::new(None, None, None, Some(1001), None, None);
    assert!(!filter().consider(&envelope(1, 1), Some(&inside)));
    let filter = || StreamFilter::new(None, None, None, None, Some(999), None);
    assert!(!filter().consider(&envelope(1, 1), Some(&inside)));
    // A malformed area is no condition.
    let mut f = StreamFilter::new(None, None, Some("here"), None, None, None);
    assert!(!f.needs_aircraft_lookup());
    assert!(f.consider(&envelope(1, 3), None));
}

#[test]
fn single_aircraft_requests() {
    let mut snapshot = HashMap::new();
    snapshot.insert(0xA1B2C3, aircraft(0xA1B2C3, None));
    assert!(matches!(find_aircraft(&snapshot, "a1B2c3"), AircraftReply::Found(a) if a.icao == Icao(0xA1B2C3)));
    assert!(matches!(find_aircraft(&snapshot, "A1B2C4"), AircraftReply::NotFound));
    assert!(matches!(find_aircraft(&snapshot, "A1B2C"), AircraftReply::BadRequest));
    assert!(matches!(find_aircraft(&snapshot, "A1B2CG"), AircraftReply::BadRequest));
}

#[test]
fn aircraft_are_listed_by_address() {
    let mut snapshot = HashMap::new();
    for k in [9u32, 0xFFFFFF, 3, 0, 77] {
        snapshot.insert(k, aircraft(k, None));
    }
    let order: Vec<u32> = list_aircraft(&snapshot).iter().map(|a| a.icao.0).collect();
    assert_eq!(order, vec![0, 3, 9, 77, 0xFFFFFF]);
    assert!(list_aircraft(&HashMap::new()).is_empty());
}

#[test]
fn client_that_comes_back_misses_nothing() {
    let mut ring = VecDeque::new();
    let mut next: u64 = 1;
    let mut log = Vec::new();
    for k in 0..10u32 {
        let event = Event::Acquired(AircraftAcquired { v: 1, t: String::new(), icao: Icao(k) });
        log.push(publish(&mut ring, &mut next, event));
    }
    for last in 0..10u64 {
        for subscribed in 0..10usize {
            // The ring is looked at when event 8 was the latest.
            let early: VecDeque<EventEnvelope> = ring.iter().take(8).cloned().collect();
            if subscribed > 8 || last > 8 {
                continue;
            }
            let mut filter = StreamFilter::new(None, None, None, None, None, Some(last));
            let got: Vec<u64> = replay_after(&early, last)
                .iter()
                .chain(log[subscribed..].iter())
                .filter(|e| filter.consider(e, None))
                .map(|e| e.id)
                .collect();
            let expected: Vec<u64> = (last + 1..=10).collect();
            assert_eq!(got, expected, "last {last}, subscribed at {subscribed}");
        }
    }
}

#[test]
fn range_and_order_go_by_double_precision() {
    let error = |s: &str| parse_latlon_string(s).err();
    assert_eq!(error("90.0000000001,0"), Some(LatLonError::OutOfRange));
    assert_eq!(error("90.00000000000001,0"), Some(LatLonError::OutOfRange));
    assert_eq!(error("0,-180.0000000000001"), Some(LatLonError::OutOfRange));
    assert_eq!(error("9001e-2,0"), Some(LatLonError::OutOfRange));
    // What rounds to the bound is within it.
    let p = parse_latlon_string("90.000000000000007,-180.00000000000000001").expect("valid");
    assert_eq!(p.lat_deg, deg(90.0));
    assert_eq!(p.lon_deg, deg(-180.0));
    let p = parse_latlon_string("51.47,-0.4543").expect("valid");
    let (m, s) = parts_of(51.47);
    assert_eq!((p.lat_deg.num(), p.lat_deg.den()), (m as i64, 1i64 << s));
    let (m, s) = parts_of(0.4543);
    assert_eq!((p.lon_deg.num(), p.lon_deg.den()), (-(m as i64), 1i64 << s));
    let p = parse_latlon_string("1e-5,1e-300").expect("valid");
    let (m, s) = parts_of(1e-5);
    assert_eq!((p.lat_deg.num(), p.lat_deg.den()), ((m >> (s - 62)) as i64, 1i64 << 62));
    assert_eq!(p.lon_deg, deg(0.0));
    for (low, high) in [
        ("40.0000000001", "40.0000000002"),
        ("40", "40.000000000000001"),
        ("40", "40.000000000000004"),
        ("-40.0000000002", "-40.0000000001"),
        ("-40.0000000001", "-40.0000000002"),
        ("-1e-12", "1e-12"),
        ("-0", "0"),
        ("0", "1e-300"),
        ("0", "1e-400"),
        ("-1e-400", "0"),
        ("1e-9999999999999999999999999999999999999", "1"),
        ("31.999999999999999", "32"),
        ("31.99999999999999", "32"),
        ("4.9e-324", "1e-323"),
    ] {
        let expected = low.parse::<f64>().unwrap() < high.parse::<f64>().unwrap();
        assert_eq!(Bbox::parse(&format!("{low},-74,{high},-73")).is_some(), expected, "{low} {high}");
        assert_eq!(Bbox::parse(&format!("-5,{low},5,{high}")).is_some(), expected, "{low} {high}");
    }
}

#[test]
fn names_are_lowered_beyond_ascii() {
    assert_eq!(parse_types("\u{c9}T\u{c9},LOST,\u{39f}\u{3a3}"), vec!["\u{e9}t\u{e9}", "lost", "\u{3bf}\u{3c2}"]);
}

#[test]
fn event_numbers_are_read_strictly() {
    assert_eq!(parse_event_id("0"), Some(0));
    assert_eq!(parse_event_id("+0042"), Some(42));
    assert_eq!(parse_event_id("18446744073709551615"), Some(u64::MAX));
    for bad in ["", "+", "-1", " 1", "1 ", "1.0", "++1", "18446744073709551616", "99999999999999999999999"] {
        assert_eq!(parse_event_id(bad), None, "{bad}");
        assert!(bad.parse::<u64>().is_err());
    }
}

#[test]
fn filtered_client_that_comes_back_gets_what_it_asked_for() {
    let mut ring = VecDeque::new();
    let mut next: u64 = 1;
    let mut log = Vec::new();
    for k in 0..12u32 {
        let event = Event::Acquired(AircraftAcquired { v: 1, t: String::new(), icao: Icao(k % 3) });
        log.push(publish(&mut ring, &mut next, event));
    }
    let early: VecDeque<EventEnvelope> = ring.iter().take(8).cloned().collect();
    for subscribed in 0..=8usize {
        let mut filter = StreamFilter::new(None, Some("000001"), None, None, None, Some(3));
        let got: Vec<u64> = replay_after(&early, 3)
            .iter()
            .chain(log[subscribed..].iter())
            .filter(|e| filter.consider(e, None))
            .map(|e| e.id)
            .collect();
        assert_eq!(got, vec![5, 8, 11], "subscribed at {subscribed}");
    }
}

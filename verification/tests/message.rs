//! Message decoding.

use rs1090::crc;
use rs1090::demod::{synth_bits_as_magnitude, PREAMBLE_HIGH_IDX, PREAMBLE_SAMPLES, SAMPLES_PER_BIT};
use rs1090::frame::{DownlinkFormat, Frame, FrameDetector};
use rs1090::message::{
    callsign_char, decode, decode_airborne_position, decode_altitude_ac12, decode_identification, decode_velocity,
    Altitude, DecodeError, Icao, Message, SquitterPayload, TypeCode, VelocityKind, VerticalRateSource,
};
use rs1090::Iq;

fn icao(bytes: [u8; 3]) -> u32 {
    Icao::from_bytes(bytes).0
}

#[test]
fn icao_bytes_roundtrip() {
    let i = Icao::from_bytes([0xA1, 0xB2, 0xC3]);
    assert_eq!(i.0, 0x00A1_B2C3);
    assert_eq!(i.to_bytes(), [0xA1, 0xB2, 0xC3]);
    assert_eq!(icao([0x00, 0x00, 0x01]), 1);
}

#[test]
fn icao_display_and_hex_are_uppercase_hex() {
    let i = Icao::from_bytes([0xa1, 0xb2, 0xc3]);
    assert_eq!(format!("{}", i.to_hex()), "A1B2C3");
    assert_eq!(i.to_hex().as_str(), "A1B2C3");
}

#[test]
fn icao_from_hex() {
    assert_eq!(Icao::from_hex("A1B2C3"), Some(Icao(0x00A1_B2C3)));
    assert_eq!(Icao::from_hex("a1b2c3"), Some(Icao(0x00A1_B2C3)));
    assert_eq!(Icao::from_hex("00000F"), Some(Icao(15)));
    assert_eq!(Icao::from_hex("ZZZZZZ"), None);
    assert_eq!(Icao::from_hex("A1B2C"), None);
    assert_eq!(Icao::from_hex("A1B2C3D"), None);
    assert_eq!(Icao::from_hex(""), None);
    assert_eq!(Icao::from_u24(0x00FF_FFFF), Some(Icao(0x00FF_FFFF)));
    assert_eq!(Icao::from_u24(0x0100_0000), None);
    assert_eq!(Icao::zero().as_u24(), 0);
}

#[test]
fn typecode_dispatch_matches_spec_ranges() {
    for tc in 1..=4 {
        assert_eq!(TypeCode::from_raw(tc), TypeCode::Identification);
    }
    for tc in 5..=8 {
        assert_eq!(TypeCode::from_raw(tc), TypeCode::SurfacePosition);
    }
    for tc in (9..=18).chain(20..=22) {
        assert_eq!(TypeCode::from_raw(tc), TypeCode::AirbornePosition);
    }
    assert_eq!(TypeCode::from_raw(19), TypeCode::Velocity);
    assert_eq!(TypeCode::from_raw(28), TypeCode::AircraftStatus);
    assert_eq!(TypeCode::from_raw(31), TypeCode::OperationalStatus);
    assert_eq!(TypeCode::from_raw(0), TypeCode::Other(0));
    assert_eq!(TypeCode::from_raw(23), TypeCode::Other(23));
}

#[test]
fn typecode_representatives() {
    for tc in 0..32 {
        let t = TypeCode::from_raw(tc);
        assert_eq!(TypeCode::from_raw(t.raw_value()), t);
    }
    assert_eq!(TypeCode::AirbornePosition.raw_value(), 11);
}

#[test]
fn callsign_char_covers_alphabet_digits_space() {
    for k in 0..26u8 {
        assert_eq!(callsign_char(1 + k), (b'A' + k) as char);
    }
    for k in 0..10u8 {
        assert_eq!(callsign_char(48 + k), (b'0' + k) as char);
    }
    assert_eq!(callsign_char(32), ' ');
    assert_eq!(callsign_char(0), '_');
    assert_eq!(callsign_char(27), '_');
    assert_eq!(callsign_char(63), '_');
}

/// Packs eight six-bit codes into a message field.
fn pack_identification_me(tc: u8, cat: u8, codes: [u8; 8]) -> [u8; 7] {
    let mut me = [0u8; 7];
    me[0] = (tc << 3) | (cat & 0x07);
    let mut bits: u64 = 0;
    for c in codes {
        bits = (bits << 6) | u64::from(c & 0x3F);
    }
    for i in 0..6 {
        me[1 + i] = ((bits >> (8 * (5 - i))) & 0xFF) as u8;
    }
    me
}

#[test]
fn identification_decodes_classic_callsign() {
    let codes = [11, 12, 13, 49, 48, 50, 51, 32];
    let me = pack_identification_me(4, 0, codes);
    let id = decode_identification(me);
    assert_eq!(id.callsign.as_str(), "KLM1023");
    assert_eq!(id.category_set, 4);
    assert_eq!(id.category, 0);
}

#[test]
fn identification_strips_trailing_padding() {
    let me = pack_identification_me(4, 0, [32; 8]);
    let id = decode_identification(me);
    assert_eq!(id.callsign.as_str(), "");
}

#[test]
fn identification_keeps_inner_padding() {
    let me = pack_identification_me(2, 5, [1, 32, 0, 2, 32, 0, 32, 0]);
    let id = decode_identification(me);
    assert_eq!(id.callsign.as_str(), "A _B");
    assert_eq!(id.category_set, 2);
    assert_eq!(id.category, 5);
}

#[test]
fn altitude_zero_is_unavailable() {
    let alt = decode_altitude_ac12(0, 11);
    assert_eq!(alt, Altitude::Unavailable);
}

#[test]
fn altitude_q1_decodes_baro_25ft_steps() {
    let n: u16 = 1560;
    let upper = (n >> 4) & 0x7F;
    let lower = n & 0x0F;
    let ac12 = (upper << 5) | (1 << 4) | lower;
    let alt = decode_altitude_ac12(ac12, 11);
    assert_eq!(alt, Altitude::BaroFeet(38_000));
}

#[test]
fn altitude_q0_is_gillham_placeholder() {
    let ac12: u16 = 100;
    let alt = decode_altitude_ac12(ac12, 11);
    assert_eq!(alt, Altitude::BaroGillhamFeet(9000));
}

#[test]
fn altitude_gnss_is_converted_from_metres() {
    assert_eq!(decode_altitude_ac12(1000, 20), Altitude::GnssFeet(3280));
    assert_eq!(decode_altitude_ac12(4095, 22), Altitude::GnssFeet(13_435));
    for m in 1..4096u16 {
        let expected = (f64::from(m) * 3.280_84) as i32;
        assert_eq!(decode_altitude_ac12(m, 21), Altitude::GnssFeet(expected));
    }
    assert_eq!(Altitude::GnssFeet(3280).feet(), Some(3280));
    assert_eq!(Altitude::GnssFeet(3280).source_tag(), Some("gnss"));
    assert_eq!(Altitude::BaroFeet(-25).source_tag(), Some("baro"));
    assert_eq!(Altitude::Unavailable.feet(), None);
    assert_eq!(Altitude::Unavailable.source_tag(), None);
}

#[test]
fn airborne_position_unpacks_cpr_bits() {
    let tc: u64 = 11;
    let ss: u64 = 0;
    let nicb: u64 = 0;
    let ac12: u64 = 0;
    let t: u64 = 0;
    let f: u64 = 1;
    let lat: u64 = 0x1F1F0;
    let lon: u64 = 0x0DEAD;
    let me_bits: u64 =
        (tc << 51) | (ss << 49) | (nicb << 48) | (ac12 << 36) | (t << 35) | (f << 34) | (lat << 17) | lon;
    let mut me = [0u8; 7];
    for (i, byte) in me.iter_mut().enumerate() {
        *byte = ((me_bits >> (8 * (6 - i))) & 0xFF) as u8;
    }
    let pos = decode_airborne_position(me);
    assert!(pos.cpr.odd);
    assert_eq!(pos.cpr.lat_cpr, 0x1_F1F0);
    assert_eq!(pos.cpr.lon_cpr, 0x0_DEAD);
    assert_eq!(pos.altitude, Altitude::Unavailable);
}

fn velocity_me(subtype: u8, b14: u64, f24: u64, b25: u64, f35: u64, b36: u64, b37: u64, f46: u64) -> [u8; 7] {
    let v: u64 = (19 << 51)
        | (u64::from(subtype) << 48)
        | (b14 << 42)
        | (f24 << 32)
        | (b25 << 31)
        | (f35 << 21)
        | (b36 << 20)
        | (b37 << 19)
        | (f46 << 10);
    let mut me = [0u8; 7];
    for (i, byte) in me.iter_mut().enumerate() {
        *byte = ((v >> (8 * (6 - i))) & 0xFF) as u8;
    }
    me
}

#[test]
fn ground_velocity_components_and_rate() {
    // 3 kt west, 4 kt north, descending 128 ft/min by satellite.
    let v = decode_velocity(velocity_me(1, 1, 4, 0, 5, 1, 1, 3)).expect("velocity");
    assert_eq!(v.kind, VelocityKind::Ground { speed_kt: 5, east_kt: -3, north_kt: 4 });
    assert_eq!(v.vertical_rate_fpm, Some(-128));
    assert_eq!(v.vertical_rate_source, VerticalRateSource::Gnss);
    // Supersonic: four times as fast. No rate.
    let v = decode_velocity(velocity_me(2, 0, 4, 1, 5, 0, 0, 0)).expect("velocity");
    assert_eq!(v.kind, VelocityKind::Ground { speed_kt: 20, east_kt: 12, north_kt: -16 });
    assert_eq!(v.vertical_rate_fpm, None);
    assert_eq!(v.vertical_rate_source, VerticalRateSource::Baro);
    // Zero fields count as no velocity.
    let v = decode_velocity(velocity_me(1, 0, 0, 0, 0, 0, 0, 1)).expect("velocity");
    assert_eq!(v.kind, VelocityKind::Ground { speed_kt: 0, east_kt: 0, north_kt: 0 });
    assert_eq!(v.vertical_rate_fpm, Some(0));
}

#[test]
fn ground_velocity_truncates_speed_fraction() {
    // The root of 200 is 14.14, that of 500 is 22.36, that of 560 is 23.66.
    for (e, n, kt) in [(10u64, 10u64, 14u16), (22, 4, 22), (4, 22, 22), (20, 4, 20), (23, 5, 23), (19, 14, 23)] {
        let v = decode_velocity(velocity_me(1, 0, e + 1, 0, n + 1, 0, 0, 0)).expect("velocity");
        match v.kind {
            VelocityKind::Ground { speed_kt, .. } => assert_eq!(speed_kt, kt, "{e},{n}"),
            VelocityKind::Airspeed { .. } => panic!("expected ground velocity"),
        }
    }
}

#[test]
fn airspeed_and_heading() {
    let v = decode_velocity(velocity_me(3, 1, 256, 0, 251, 0, 0, 17)).expect("velocity");
    assert_eq!(v.kind, VelocityKind::Airspeed { speed_kt: 250, heading_1024: Some(256), magnetic: true });
    assert_eq!(v.vertical_rate_fpm, Some(1024));
    let v = decode_velocity(velocity_me(4, 0, 256, 1, 251, 0, 0, 0)).expect("velocity");
    assert_eq!(v.kind, VelocityKind::Airspeed { speed_kt: 1000, heading_1024: None, magnetic: false });
}

#[test]
fn unsupported_velocity_subtypes() {
    for s in [0u8, 5, 6, 7] {
        assert_eq!(
            decode_velocity(velocity_me(s, 0, 0, 0, 0, 0, 0, 0)),
            Err(DecodeError::UnsupportedVelocitySubtype(s))
        );
    }
}

/// A DF 17 frame with a valid CRC.
fn synth_df17_frame(icao: [u8; 3], capability: u8, me: [u8; 7]) -> [u8; 14] {
    let mut data = [0u8; 11];
    data[0] = (17u8 << 3) | (capability & 0x07);
    data[1] = icao[0];
    data[2] = icao[1];
    data[3] = icao[2];
    data[4..11].copy_from_slice(&me);
    let crc_val = crc::crc24(&data);
    let mut f = [0u8; 14];
    f[..11].copy_from_slice(&data);
    f[11] = ((crc_val >> 16) & 0xFF) as u8;
    f[12] = ((crc_val >> 8) & 0xFF) as u8;
    f[13] = (crc_val & 0xFF) as u8;
    f
}

/// Runs the bytes of a frame through the detector.
fn frame_from_bytes(frame_bytes: [u8; 14]) -> Frame {
    let payload_bits = frame_bytes.len() * 8;
    let payload_samples = payload_bits * SAMPLES_PER_BIT;
    let total = 64 + PREAMBLE_SAMPLES + payload_samples + 64;
    let mut mags = vec![5u16; total];
    let pre = 64;
    for &k in &PREAMBLE_HIGH_IDX {
        mags[pre + k] = 120;
    }
    let mut bits = vec![false; payload_bits];
    for (i, b) in frame_bytes.iter().enumerate() {
        for k in 0..8 {
            bits[i * 8 + k] = (b >> (7 - k)) & 1 != 0;
        }
    }
    let start = pre + PREAMBLE_SAMPLES;
    synth_bits_as_magnitude(&bits, 120, 5, &mut mags[start..start + payload_samples]);
    let samples: Vec<Iq> = mags.iter().map(|&m| Iq::new(m.min(127) as i8, 0)).collect();
    let mut det = FrameDetector::new();
    det.reset_noise_floor(5);
    let mut out = Vec::new();
    det.process(&samples, &mut out);
    assert_eq!(out.len(), 1);
    out[0]
}

#[test]
fn decode_identifies_extended_squitter_callsign() {
    let codes = [11, 12, 13, 49, 48, 50, 51, 32];
    let me = pack_identification_me(4, 0, codes);
    let frame_bytes = synth_df17_frame([0xA1, 0xB2, 0xC3], 5, me);
    let frame = frame_from_bytes(frame_bytes);
    assert_eq!(frame.downlink_format(), DownlinkFormat::ExtendedSquitter);
    let msg = decode(&frame).expect("decode");
    let es = match msg {
        Message::ExtendedSquitter(es) => es,
        other => panic!("expected ExtendedSquitter, got {other:?}"),
    };
    assert_eq!(es.icao, Icao::from_bytes([0xA1, 0xB2, 0xC3]));
    assert_eq!(es.type_code, TypeCode::Identification);
    assert_eq!(es.capability, 5);
    let id = match es.payload {
        SquitterPayload::Identification(id) => id,
        other => panic!("expected Identification, got {other:?}"),
    };
    assert_eq!(id.callsign.as_str(), "KLM1023");
}

#[test]
fn decode_dispatches_on_format() {
    // All-call reply.
    let all_call = Frame::from_bytes(&[0x5D, 0xA0, 0xBA, 0x4E, 0x12, 0x34, 0x56]);
    assert_eq!(decode(&all_call), Ok(Message::AllCallReply { icao: Icao(0x00A0_BA4E) }));
    // Surveillance reply.
    let reply = Frame::from_bytes(&[0x20, 0x00, 0x05, 0x50, 0x0A, 0xBC, 0xDE]);
    match decode(&reply) {
        Ok(Message::SurveillanceReply { df, bytes }) => {
            assert_eq!(df, DownlinkFormat::AltitudeReply);
            assert_eq!(bytes.as_str(), "200005500ABCDE");
        }
        other => panic!("expected SurveillanceReply, got {other:?}"),
    }
    // Long reply: the text fills its buffer.
    let long = Frame::from_bytes(&[0xA0, 1, 2, 3, 4, 5, 6, 7, 8, 9, 10, 11, 12, 13]);
    match decode(&long) {
        Ok(Message::SurveillanceReply { bytes, .. }) => assert_eq!(bytes.as_str(), "A00102030405060708090A0B0C0D"),
        other => panic!("expected SurveillanceReply, got {other:?}"),
    }
    // Reserved.
    let other = Frame::from_bytes(&[6 << 3, 0, 0, 0, 0, 0, 0]);
    assert_eq!(decode(&other), Ok(Message::Other { df: DownlinkFormat::Reserved(6) }));
    // A squitter in seven bytes.
    let cut = Frame::from_bytes(&[17 << 3, 0, 0, 0, 0, 0, 0]);
    assert_eq!(decode(&cut), Err(DecodeError::TruncatedFrame));
}

#[test]
fn decode_keeps_what_it_does_not_know() {
    let me = [28 << 3, 1, 2, 3, 4, 5, 6];
    let frame = Frame::from_bytes(&synth_df17_frame([1, 2, 3], 0, me));
    match decode(&frame) {
        Ok(Message::ExtendedSquitter(es)) => {
            assert_eq!(es.type_code, TypeCode::AircraftStatus);
            assert_eq!(es.payload, SquitterPayload::Raw(me));
        }
        other => panic!("expected ExtendedSquitter, got {other:?}"),
    }
    let me = velocity_me(0, 0, 0, 0, 0, 0, 0, 0);
    let frame = Frame::from_bytes(&synth_df17_frame([1, 2, 3], 0, me));
    match decode(&frame) {
        Ok(Message::ExtendedSquitter(es)) => {
            assert_eq!(es.type_code, TypeCode::Velocity);
            assert_eq!(es.payload, SquitterPayload::Raw(me));
        }
        other => panic!("expected ExtendedSquitter, got {other:?}"),
    }
}

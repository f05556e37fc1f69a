//! Lines of text about frames, changes and aircraft.
//!
//! The track of a ground velocity is given in the form in which it is to appear.

use crate::cpr::{Fraction, LatLon, Ratio};
use crate::crc::CrcOutcome;
use crate::frame::{Frame, FrameModel};
use crate::message::{address_hex, Altitude, DecodeError, Icao, Message, SquitterPayload, TypeCode, Velocity};
use crate::message::VelocityKind;
use crate::numeral::{all_digits, is_digit, law_decimal_reads_back, lemma_value_append, value_of};
use crate::order::{add_key, ascending, lemma_set_after_push};
use crate::state::{Aircraft, Counters, PositionSource, StateEvent, StateTracker, TimedPosition};
use crate::table::{has_key, index_of};
use crate::text::{
    decimal, hex_of, push_char, push_decimal, push_hex, push_signed, push_text, signed_decimal, str_of_28,
    str_of_8, text_of_28, text_of_8,
};
use arrayvec::ArrayString;
use vstd::prelude::*;

verus! {

// --- Numbers -----------------------------------------------------------------

/// A text, followed by spaces up to a width.
pub open spec fn padded(t: Seq<char>, width: nat) -> Seq<char> {
    if t.len() >= width {
        t
    } else {
        t + Seq::new((width - t.len()) as nat, |i: int| ' ')
    }
}

/// A number with its sign, also if it is not negative.
pub open spec fn with_sign(n: int) -> Seq<char> {
    if n < 0 {
        signed_decimal(n)
    } else {
        seq!['+'] + decimal(n as nat)
    }
}

/// The integer nearest to `x / d`, the even one if two are.
pub open spec fn half_even(x: int, d: int) -> int {
    let q = x / d;
    let r = x % d;
    if 2 * r < d {
        q
    } else if 2 * r > d {
        q + 1
    } else if q % 2 == 0 {
        q
    } else {
        q + 1
    }
}

/// A number of `10^-places` in decimal notation.
pub open spec fn fixed(n: nat, places: nat) -> Seq<char> {
    if places == 1 {
        decimal(n / 10) + seq!['.'] + decimal(n % 10)
    } else {
        let f = n % 10_000;
        decimal(n / 10_000) + seq!['.'] + (if f < 1000 {
            seq!['0']
        } else {
            Seq::empty()
        }) + (if f < 100 {
            seq!['0']
        } else {
            Seq::empty()
        }) + (if f < 10 {
            seq!['0']
        } else {
            Seq::empty()
        }) + decimal(f)
    }
}

/// An angle in degrees with four decimal places.
pub open spec fn angle_text(a: Fraction) -> Seq<char> {
    if a.num < 0 {
        seq!['-'] + fixed(half_even(-a.num * 10_000, a.den) as nat, 4)
    } else {
        fixed(half_even(a.num * 10_000, a.den) as nat, 4)
    }
}

/// A heading, given in 1024ths of a turn, in degrees with one decimal place.
pub open spec fn heading_text(h: u16) -> Seq<char> {
    fixed(half_even(h * 3600, 1024) as nat, 1)
}

/// Rounding takes a nearest integer, and of two the even one.
pub proof fn law_half_even_is_nearest(x: int, d: int)
    requires
        0 < d,
    ensures
        -d <= 2 * (x - d * half_even(x, d)) <= d,
        2 * (x - d * half_even(x, d)) == d || 2 * (x - d * half_even(x, d)) == -d ==> half_even(x, d) % 2 == 0,
{
    vstd::arithmetic::div_mod::lemma_fundamental_div_mod(x, d);
    vstd::arithmetic::div_mod::lemma_mod_bound(x, d);
    let q = x / d;
    assert(d * (q + 1) == d * q + d) by (nonlinear_arith);
}

fn push_padded(s: &mut String, t: &str, width: usize)
    ensures
        final(s)@ == old(s)@ + padded(t@, width as nat),
{
    let ghost before = s@;
    let chars = crate::numeral::chars_of(t);
    push_text(s, t);
    let n: usize = chars.len();
    let mut i: usize = n;
    assert(s@ =~= before + t@);
    while i < width
        invariant
            n == t@.len(),
            n <= i,
            i <= width || i == n,
            s@ == before + t@ + Seq::new((i - n) as nat, |k: int| ' '),
        decreases width - i,
    {
        push_char(s, ' ');
        i += 1;
        assert(s@ =~= before + t@ + Seq::new((i - n) as nat, |k: int| ' '));
    }
    assert(s@ =~= before + padded(t@, width as nat));
}

fn decimal_string(n: u64) -> (s: String)
    ensures
        s@ == decimal(n as nat),
{
    let mut s = String::new();
    push_decimal(&mut s, n);
    assert(s@ =~= decimal(n as nat));
    s
}

fn half_even_of(x: i128, d: i128) -> (r: i128)
    requires
        0 <= x <= 0x1_0000_0000_0000_0000_0000,
        0 < d <= 0x1_0000_0000_0000_0000,
    ensures
        r == half_even(x as int, d as int),
        0 <= r,
{
    let q: i128 = x / d;
    let r: i128 = x % d;
    proof {
        let xi = x as int;
        let di = d as int;
        assert(0 <= xi / di <= xi) by (nonlinear_arith)
            requires
                0 <= xi,
                di >= 1,
        ;
        vstd::arithmetic::div_mod::lemma_mod_bound(xi, di);
    }
    if 2 * r < d {
        q
    } else if 2 * r > d {
        q + 1
    } else if q % 2 == 0 {
        q
    } else {
        q + 1
    }
}

fn push_fixed4(s: &mut String, n: u64)
    ensures
        final(s)@ == old(s)@ + fixed(n as nat, 4),
{
    let ghost before = s@;
    push_decimal(s, n / 10_000);
    push_char(s, '.');
    let f: u64 = n % 10_000;
    if f < 1000 {
        push_char(s, '0');
    }
    if f < 100 {
        push_char(s, '0');
    }
    if f < 10 {
        push_char(s, '0');
    }
    push_decimal(s, f);
    assert(s@ =~= before + fixed(n as nat, 4));
}

fn push_angle(s: &mut String, a: Ratio)
    ensures
        final(s)@ == old(s)@ + angle_text(a@),
{
    let ghost before = s@;
    let num: i64 = a.num();
    let den: i64 = a.den();
    let negative: bool = num < 0;
    let x: i128 = if negative {
        -(num as i128) * 10_000
    } else {
        num as i128 * 10_000
    };
    let n: i128 = half_even_of(x, den as i128);
    proof {
        let q = x as int / den as int;
        assert(q <= 7_200_000) by (nonlinear_arith)
            requires
                q == x as int / den as int,
                0 <= x <= 7_200_000 * den,
                den > 0,
        ;
        assert(-num * 10_000 == (-num) * 10_000);
    }
    if negative {
        push_char(s, '-');
    }
    push_fixed4(s, n as u64);
    assert(s@ =~= before + angle_text(a@));
}

fn push_heading(s: &mut String, h: u16)
    ensures
        final(s)@ == old(s)@ + heading_text(h),
{
    let ghost before = s@;
    let n: i128 = half_even_of(h as i128 * 3600, 1024);
    assert(n <= 300_000);
    let t: u64 = n as u64;
    push_decimal(s, t / 10);
    push_char(s, '.');
    push_decimal(s, t % 10);
    assert(s@ =~= before + heading_text(h));
}

// --- Payloads ----------------------------------------------------------------

/// An altitude.
pub open spec fn altitude_text(a: Altitude) -> Seq<char> {
    match a {
        Altitude::BaroFeet(ft) => "alt="@ + signed_decimal(ft as int) + "ft"@,
        Altitude::BaroGillhamFeet(ft) => "alt="@ + signed_decimal(ft as int) + "ft(gillham)"@,
        Altitude::GnssFeet(ft) => "alt="@ + signed_decimal(ft as int) + "ft(gnss)"@,
        Altitude::Unavailable => "alt=n/a"@,
    }
}

/// Appends an altitude.
pub fn push_altitude(s: &mut String, a: Altitude)
    ensures
        final(s)@ == old(s)@ + altitude_text(a),
{
    let ghost before = s@;
    match a {
        Altitude::BaroFeet(ft) => {
            push_text(s, "alt=");
            push_signed(s, ft as i64);
            push_text(s, "ft");
        },
        Altitude::BaroGillhamFeet(ft) => {
            push_text(s, "alt=");
            push_signed(s, ft as i64);
            push_text(s, "ft(gillham)");
        },
        Altitude::GnssFeet(ft) => {
            push_text(s, "alt=");
            push_signed(s, ft as i64);
            push_text(s, "ft(gnss)");
        },
        Altitude::Unavailable => {
            push_text(s, "alt=n/a");
        },
    }
    assert(s@ =~= before + altitude_text(a));
}

/// An altitude as text.
#[must_use]
pub fn fmt_altitude(a: Altitude) -> (s: String)
    ensures
        s@ == altitude_text(a),
{
    let mut s = String::new();
    push_altitude(&mut s, a);
    assert(s@ =~= altitude_text(a));
    s
}

/// The degree sign.
pub const DEGREE: char = '\u{B0}';

/// A speed and a direction; `track` is the track of a ground velocity, in degrees.
pub open spec fn speed_text(kind: VelocityKind, track: Seq<char>) -> Seq<char> {
    match kind {
        VelocityKind::Ground { speed_kt, .. } => "vel gs="@ + decimal(speed_kt as nat) + "kt hdg="@ + track
            + seq![DEGREE],
        VelocityKind::Airspeed { speed_kt, heading_1024, magnetic } => "vel ias="@ + decimal(speed_kt as nat)
            + "kt"@ + (match heading_1024 {
            Some(h) => " hdg="@ + heading_text(h) + seq![DEGREE] + (if magnetic {
                "(mag)"@
            } else {
                "(true)"@
            }),
            None => Seq::empty(),
        }),
    }
}

/// A vertical rate.
pub open spec fn rate_text(fpm: Option<i32>) -> Seq<char> {
    match fpm {
        Some(vr) => " vr="@ + with_sign(vr as int) + "fpm"@,
        None => Seq::empty(),
    }
}

/// A velocity; `track` is the track of a ground velocity, in degrees.
pub open spec fn velocity_text(v: Velocity, track: Seq<char>) -> Seq<char> {
    speed_text(v.kind, track) + rate_text(v.vertical_rate_fpm)
}

fn push_speed(s: &mut String, kind: &VelocityKind, track: &str)
    ensures
        final(s)@ == old(s)@ + speed_text(*kind, track@),
{
    let ghost before = s@;
    match *kind {
        VelocityKind::Ground { speed_kt, east_kt: _, north_kt: _ } => {
            push_text(s, "vel gs=");
            push_decimal(s, speed_kt as u64);
            push_text(s, "kt hdg=");
            push_text(s, track);
            push_char(s, DEGREE);
        },
        VelocityKind::Airspeed { speed_kt, heading_1024, magnetic } => {
            push_text(s, "vel ias=");
            push_decimal(s, speed_kt as u64);
            push_text(s, "kt");
            if let Some(h) = heading_1024 {
                push_text(s, " hdg=");
                push_heading(s, h);
                push_char(s, DEGREE);
                if magnetic {
                    push_text(s, "(mag)");
                } else {
                    push_text(s, "(true)");
                }
            }
        },
    }
    assert(s@ =~= before + speed_text(*kind, track@));
}

fn push_rate(s: &mut String, fpm: Option<i32>)
    ensures
        final(s)@ == old(s)@ + rate_text(fpm),
{
    let ghost before = s@;
    if let Some(vr) = fpm {
        push_text(s, " vr=");
        if vr >= 0 {
            push_char(s, '+');
        }
        push_signed(s, vr as i64);
        push_text(s, "fpm");
    }
    assert(s@ =~= before + rate_text(fpm));
}

/// Appends a velocity.
pub fn push_velocity(s: &mut String, v: &Velocity, track: &str)
    ensures
        final(s)@ == old(s)@ + velocity_text(*v, track@),
{
    let ghost before = s@;
    push_speed(s, &v.kind, track);
    push_rate(s, v.vertical_rate_fpm);
    assert(s@ =~= before + velocity_text(*v, track@));
}

/// The name of a type code.
pub open spec fn type_code_text(t: TypeCode) -> Seq<char> {
    match t {
        TypeCode::Identification => "Identification"@,
        TypeCode::SurfacePosition => "SurfacePosition"@,
        TypeCode::AirbornePosition => "AirbornePosition"@,
        TypeCode::Velocity => "Velocity"@,
        TypeCode::AircraftStatus => "AircraftStatus"@,
        TypeCode::OperationalStatus => "OperationalStatus"@,
        TypeCode::Other(v) => "Other("@ + decimal(v as nat) + ")"@,
    }
}

fn push_type_code(s: &mut String, t: TypeCode)
    ensures
        final(s)@ == old(s)@ + type_code_text(t),
{
    let ghost before = s@;
    match t {
        TypeCode::Identification => push_text(s, "Identification"),
        TypeCode::SurfacePosition => push_text(s, "SurfacePosition"),
        TypeCode::AirbornePosition => push_text(s, "AirbornePosition"),
        TypeCode::Velocity => push_text(s, "Velocity"),
        TypeCode::AircraftStatus => push_text(s, "AircraftStatus"),
        TypeCode::OperationalStatus => push_text(s, "OperationalStatus"),
        TypeCode::Other(v) => {
            push_text(s, "Other(");
            push_decimal(s, v as u64);
            push_text(s, ")");
        },
    }
    assert(s@ =~= before + type_code_text(t));
}

/// A payload of an extended squitter.
pub open spec fn payload_text(t: TypeCode, p: SquitterPayload, track: Seq<char>) -> Seq<char> {
    match p {
        SquitterPayload::Identification(id) => "ident callsign="@ + text_of_8(id.callsign) + " cat="@ + decimal(
            id.category_set as nat,
        ) + "/"@ + decimal(id.category as nat),
        SquitterPayload::AirbornePosition(p) => "airpos "@ + altitude_text(p.altitude) + " cpr-"@ + (if p.cpr.odd {
            "odd"@
        } else {
            "even"@
        }) + "("@ + decimal(p.cpr.lat_cpr as nat) + ","@ + decimal(p.cpr.lon_cpr as nat) + ")"@,
        SquitterPayload::Velocity(v) => velocity_text(v, track),
        SquitterPayload::Raw(_) => "tc="@ + type_code_text(t),
    }
}

/// A message; `track` is the track of a ground velocity, in degrees.
pub open spec fn message_text(m: Message, track: Seq<char>) -> Seq<char> {
    match m {
        Message::ExtendedSquitter(es) => "ICAO="@ + address_hex(es.icao.0) + " "@ + payload_text(
            es.type_code,
            es.payload,
            track,
        ),
        Message::AllCallReply { icao } => "all-call ICAO="@ + address_hex(icao.0),
        Message::SurveillanceReply { df, bytes } => "surv DF"@ + decimal(df.code() as nat) + " bytes="@ + text_of_28(
            bytes,
        ),
        Message::Other { df } => "other DF"@ + decimal(df.code() as nat),
    }
}

fn push_payload(s: &mut String, t: TypeCode, p: &SquitterPayload, track: &str)
    ensures
        final(s)@ == old(s)@ + payload_text(t, *p, track@),
{
    let ghost before = s@;
    match p {
        SquitterPayload::Identification(id) => {
            push_text(s, "ident callsign=");
            push_text(s, str_of_8(&id.callsign));
            push_text(s, " cat=");
            push_decimal(s, id.category_set as u64);
            push_text(s, "/");
            push_decimal(s, id.category as u64);
        },
        SquitterPayload::AirbornePosition(p) => {
            push_text(s, "airpos ");
            push_altitude(s, p.altitude);
            push_text(s, " cpr-");
            if p.cpr.odd {
                push_text(s, "odd");
            } else {
                push_text(s, "even");
            }
            push_text(s, "(");
            push_decimal(s, p.cpr.lat_cpr as u64);
            push_text(s, ",");
            push_decimal(s, p.cpr.lon_cpr as u64);
            push_text(s, ")");
        },
        SquitterPayload::Velocity(v) => push_velocity(s, v, track),
        SquitterPayload::Raw(_) => {
            push_text(s, "tc=");
            push_type_code(s, t);
        },
    }
    assert(s@ =~= before + payload_text(t, *p, track@));
}

/// Appends a message.
pub fn push_message(s: &mut String, m: &Message, track: &str)
    ensures
        final(s)@ == old(s)@ + message_text(*m, track@),
{
    let ghost before = s@;
    match m {
        Message::ExtendedSquitter(es) => {
            push_text(s, "ICAO=");
            push_hex(s, es.icao.to_bytes().as_slice());
            push_text(s, " ");
            push_payload(s, es.type_code, &es.payload, track);
        },
        Message::AllCallReply { icao } => {
            push_text(s, "all-call ICAO=");
            push_hex(s, icao.to_bytes().as_slice());
        },
        Message::SurveillanceReply { df, bytes } => {
            push_text(s, "surv DF");
            push_decimal(s, df.raw_value() as u64);
            push_text(s, " bytes=");
            push_text(s, str_of_28(bytes));
        },
        Message::Other { df } => {
            push_text(s, "other DF");
            push_decimal(s, df.raw_value() as u64);
        },
    }
    assert(s@ =~= before + message_text(*m, track@));
}

// --- Frames ------------------------------------------------------------------

/// A CRC outcome in twelve or more columns.
pub open spec fn crc_text(crc: CrcOutcome) -> Seq<char> {
    match crc {
        CrcOutcome::Clean => "clean       "@,
        CrcOutcome::Corrected { bit } => "corrected:"@ + padded(decimal(bit as nat), 3) + " "@,
        CrcOutcome::Failed => "failed      "@,
    }
}

/// A reason why a frame cannot be decoded.
pub open spec fn error_text(e: DecodeError) -> Seq<char> {
    match e {
        DecodeError::TruncatedFrame => "TruncatedFrame"@,
        DecodeError::UnsupportedVelocitySubtype(n) => "UnsupportedVelocitySubtype("@ + decimal(n as nat) + ")"@,
    }
}

/// A frame and what it decodes to: format, bytes, CRC outcome, confidence, message.
pub open spec fn frame_text(f: FrameModel, decoded: Result<Message, DecodeError>, track: Seq<char>) -> Seq<char> {
    "DF"@ + padded(decimal(f.df.code() as nat), 2) + " "@ + hex_of(f.bytes) + " "@ + crc_text(f.crc) + "conf="@
        + padded(decimal(f.confidence as nat), 3) + " "@ + (match decoded {
        Ok(m) => message_text(m, track),
        Err(e) => "decode-err:"@ + error_text(e),
    })
}

/// The line about a frame and what it decodes to; `track` is the track of a ground
/// velocity, in degrees.
#[must_use]
pub fn frame_line(f: &Frame, decoded: &Result<Message, DecodeError>, track: &str) -> (s: String)
    ensures
        s@ == frame_text(f@, *decoded, track@),
{
    let mut s = String::new();
    push_text(&mut s, "DF");
    push_padded(&mut s, decimal_string(f.downlink_format().raw_value() as u64).as_str(), 2);
    push_text(&mut s, " ");
    push_hex(&mut s, f.bytes());
    push_text(&mut s, " ");
    match f.crc_outcome() {
        CrcOutcome::Clean => push_text(&mut s, "clean       "),
        CrcOutcome::Corrected { bit } => {
            push_text(&mut s, "corrected:");
            push_padded(&mut s, decimal_string(bit as u64).as_str(), 3);
            push_text(&mut s, " ");
        },
        CrcOutcome::Failed => push_text(&mut s, "failed      "),
    }
    push_text(&mut s, "conf=");
    push_padded(&mut s, decimal_string(f.confidence() as u64).as_str(), 3);
    push_text(&mut s, " ");
    match decoded {
        Ok(m) => push_message(&mut s, m, track),
        Err(e) => {
            push_text(&mut s, "decode-err:");
            match e {
                DecodeError::TruncatedFrame => push_text(&mut s, "TruncatedFrame"),
                DecodeError::UnsupportedVelocitySubtype(n) => {
                    push_text(&mut s, "UnsupportedVelocitySubtype(");
                    push_decimal(&mut s, *n as u64);
                    push_text(&mut s, ")");
                },
            }
        },
    }
    assert(s@ =~= frame_text(f@, *decoded, track@));
    s
}

// --- Changes -----------------------------------------------------------------

/// A position.
pub open spec fn position_text(p: LatLon) -> Seq<char> {
    angle_text(p.lat_deg@) + ","@ + angle_text(p.lon_deg@)
}

/// A change of the table; `track` is the track of a ground velocity, in degrees.
pub open spec fn event_text(ev: StateEvent, track: Seq<char>) -> Seq<char> {
    match ev {
        StateEvent::Acquired(icao) => "acquire "@ + address_hex(icao.0),
        StateEvent::Identification { icao, callsign } => "ident   "@ + address_hex(icao.0) + " callsign="@
            + text_of_8(callsign),
        StateEvent::Position { icao, pos, altitude, source } => "pos     "@ + address_hex(icao.0) + " "@
            + position_text(pos) + (match source {
            PositionSource::Global => " (global)"@,
            PositionSource::Local => " (local )"@,
        }),
        StateEvent::Velocity { icao, velocity } => "vel     "@ + address_hex(icao.0) + " "@ + velocity_text(
            velocity,
            track,
        ),
        StateEvent::Lost(icao) => "lost    "@ + address_hex(icao.0),
        StateEvent::AddressRecovered { icao, df } => "addr-recover "@ + address_hex(icao.0) + " from DF"@ + decimal(
            df.code() as nat,
        ),
        StateEvent::Orphan { df } => "orphan  DF"@ + decimal(df.code() as nat),
    }
}

fn push_icao(s: &mut String, icao: Icao)
    ensures
        final(s)@ == old(s)@ + address_hex(icao.0),
{
    push_hex(s, icao.to_bytes().as_slice());
}

fn push_position(s: &mut String, p: &LatLon)
    ensures
        final(s)@ == old(s)@ + position_text(*p),
{
    let ghost before = s@;
    push_angle(s, p.lat_deg);
    push_text(s, ",");
    push_angle(s, p.lon_deg);
    assert(s@ =~= before + position_text(*p));
}

/// The line about a change of the table; `track` is the track of a ground velocity, in
/// degrees.
#[must_use]
pub fn event_line(ev: &StateEvent, track: &str) -> (s: String)
    ensures
        s@ == event_text(*ev, track@),
{
    let mut s = String::new();
    match ev {
        StateEvent::Acquired(icao) => {
            push_text(&mut s, "acquire ");
            push_icao(&mut s, *icao);
        },
        StateEvent::Identification { icao, callsign } => {
            push_text(&mut s, "ident   ");
            push_icao(&mut s, *icao);
            push_text(&mut s, " callsign=");
            push_text(&mut s, str_of_8(callsign));
        },
        StateEvent::Position { icao, pos, altitude: _, source } => {
            push_text(&mut s, "pos     ");
            push_icao(&mut s, *icao);
            push_text(&mut s, " ");
            push_position(&mut s, pos);
            match source {
                PositionSource::Global => push_text(&mut s, " (global)"),
                PositionSource::Local => push_text(&mut s, " (local )"),
            }
        },
        StateEvent::Velocity { icao, velocity } => {
            push_text(&mut s, "vel     ");
            push_icao(&mut s, *icao);
            push_text(&mut s, " ");
            push_velocity(&mut s, velocity, track);
        },
        StateEvent::Lost(icao) => {
            push_text(&mut s, "lost    ");
            push_icao(&mut s, *icao);
        },
        StateEvent::AddressRecovered { icao, df } => {
            push_text(&mut s, "addr-recover ");
            push_icao(&mut s, *icao);
            push_text(&mut s, " from DF");
            push_decimal(&mut s, df.raw_value() as u64);
        },
        StateEvent::Orphan { df } => {
            push_text(&mut s, "orphan  DF");
            push_decimal(&mut s, df.raw_value() as u64);
        },
    }
    assert(s@ =~= event_text(*ev, track@));
    s
}

// --- Aircraft ----------------------------------------------------------------

/// The counters of an aircraft.
pub open spec fn counters_text(c: Counters) -> Seq<char> {
    "  [msgs="@ + decimal(c.messages_total as nat) + " clean="@ + decimal(c.crc_clean as nat) + " corrected="@
        + decimal(c.crc_corrected as nat) + " addr-rec="@ + decimal(c.crc_address_recovered as nat) + "]"@
}

/// The callsign of an aircraft, behind a space.
pub open spec fn callsign_text(c: Option<ArrayString<8>>) -> Seq<char> {
    match c {
        Some(c) => " "@ + text_of_8(c),
        None => Seq::empty(),
    }
}

/// The position of an aircraft and its source.
pub open spec fn place_text(p: Option<TimedPosition>) -> Seq<char> {
    match p {
        Some(p) => " @ "@ + position_text(p.pos) + (match p.source {
            PositionSource::Global => " (Global)"@,
            PositionSource::Local => " (Local)"@,
        }),
        None => Seq::empty(),
    }
}

/// The velocity of an aircraft, behind a space.
pub open spec fn motion_text(v: Option<Velocity>, track: Seq<char>) -> Seq<char> {
    match v {
        Some(v) => " "@ + velocity_text(v, track),
        None => Seq::empty(),
    }
}

/// What is known of an aircraft; `track` is the track of its ground velocity, in
/// degrees.
pub open spec fn aircraft_text(a: Aircraft, track: Seq<char>) -> Seq<char> {
    address_hex(a.icao.0) + callsign_text(a.callsign) + place_text(a.position) + motion_text(a.velocity, track)
        + counters_text(a.counters)
}

fn push_place(s: &mut String, p: &Option<TimedPosition>)
    ensures
        final(s)@ == old(s)@ + place_text(*p),
{
    let ghost before = s@;
    if let Some(p) = p {
        push_text(s, " @ ");
        push_position(s, &p.pos);
        match p.source {
            PositionSource::Global => push_text(s, " (Global)"),
            PositionSource::Local => push_text(s, " (Local)"),
        }
    }
    assert(s@ =~= before + place_text(*p));
}

fn push_counters(s: &mut String, c: &Counters)
    ensures
        final(s)@ == old(s)@ + counters_text(*c),
{
    let ghost before = s@;
    push_text(s, "  [msgs=");
    push_decimal(s, c.messages_total);
    push_text(s, " clean=");
    push_decimal(s, c.crc_clean);
    push_text(s, " corrected=");
    push_decimal(s, c.crc_corrected);
    push_text(s, " addr-rec=");
    push_decimal(s, c.crc_address_recovered);
    push_text(s, "]");
    assert(s@ =~= before + counters_text(*c));
}

/// The line about an aircraft; `track` is the track of its ground velocity, in degrees.
#[must_use]
pub fn aircraft_line(a: &Aircraft, track: &str) -> (s: String)
    ensures
        s@ == aircraft_text(*a, track@),
{
    let mut s = String::new();
    push_icao(&mut s, a.icao);
    if let Some(c) = &a.callsign {
        push_text(&mut s, " ");
        push_text(&mut s, str_of_8(c));
    }
    assert(s@ =~= address_hex(a.icao.0) + callsign_text(a.callsign));
    push_place(&mut s, &a.position);
    let ghost mid = s@;
    if let Some(v) = &a.velocity {
        push_text(&mut s, " ");
        push_velocity(&mut s, v, track);
    }
    assert(s@ =~= mid + motion_text(a.velocity, track@));
    push_counters(&mut s, &a.counters);
    s
}

// --- Roster ------------------------------------------------------------------

/// `list` holds the aircraft of a table, the lowest address first.
pub open spec fn is_roster(table: Seq<(u32, Aircraft)>, list: Seq<&Aircraft>) -> bool {
    &&& list.len() == table.len()
    &&& forall|i: int, j: int| 0 <= i < j < list.len() ==> (#[trigger] list[i]).icao.0 < (#[trigger] list[j]).icao.0
    &&& forall|i: int|
        0 <= i < list.len() ==> {
            &&& has_key(table, (#[trigger] list[i]).icao.0)
            &&& *list[i] == table[index_of(table, list[i].icao.0)].1
        }
}

/// Distinct numbers are as many as the set of them.
proof fn lemma_same_count(a: Seq<u32>, b: Seq<u32>)
    requires
        a.no_duplicates(),
        b.no_duplicates(),
        a.to_set() == b.to_set(),
    ensures
        a.len() == b.len(),
{
    a.unique_seq_to_set();
    b.unique_seq_to_set();
}

/// The tracked aircraft, the lowest address first.
pub fn roster(tracker: &StateTracker) -> (list: Vec<&Aircraft>)
    requires
        tracker@.valid(),
    ensures
        is_roster(tracker@.table, list@),
{
    let all: Vec<&Aircraft> = tracker.aircraft();
    let ghost table = tracker@.table;
    let ghost addresses = Seq::new(table.len(), |i: int| table[i].0);
    let mut keys: Vec<u32> = Vec::new();
    assert(keys@.to_set() =~= addresses.take(0).to_set());
    let mut n: usize = 0;
    while n < all.len()
        invariant
            n <= all@.len(),
            tracker@.valid(),
            table == tracker@.table,
            all@.len() == table.len(),
            forall|i: int| 0 <= i < all@.len() ==> *#[trigger] all@[i] == table[i].1,
            addresses == Seq::new(table.len(), |i: int| table[i].0),
            ascending(keys@),
            keys@.to_set() == addresses.take(n as int).to_set(),
        decreases all@.len() - n,
    {
        let k: u32 = all[n].icao.0;
        add_key(&mut keys, k);
        proof {
            assert(table[n as int].0 == k);
            assert(addresses.take(n + 1) =~= addresses.take(n as int).push(k));
            lemma_set_after_push(addresses.take(n as int), k);
        }
        n += 1;
    }
    assert(addresses.take(n as int) =~= addresses);
    proof {
        lemma_same_count(keys@, addresses);
    }
    let mut list: Vec<&Aircraft> = Vec::new();
    let mut i: usize = 0;
    while i < keys.len()
        invariant
            i <= keys@.len(),
            list@.len() == i,
            tracker@.valid(),
            table == tracker@.table,
            addresses == Seq::new(table.len(), |i: int| table[i].0),
            keys@.to_set() == addresses.to_set(),
            forall|j: int|
                0 <= j < i ==> {
                    &&& has_key(table, keys@[j])
                    &&& *(#[trigger] list@[j]) == table[index_of(table, keys@[j])].1
                    &&& list@[j].icao.0 == keys@[j]
                },
        decreases keys@.len() - i,
    {
        let k: u32 = keys[i];
        proof {
            assert(keys@.to_set().contains(k));
            assert(addresses.contains(k));
            assert(table[addresses.index_of(k)].0 == k);
        }
        if let Some(a) = tracker.get(Icao(k)) {
            list.push(a);
        }
        i += 1;
    }
    list
}

// --- Laws --------------------------------------------------------------------

proof fn lemma_four_digits(f: nat) -> (t: Seq<char>)
    requires
        f < 10_000,
    ensures
        t.len() == 4,
        all_digits(t),
        value_of(t) == f,
        fixed(f, 4) == decimal(0) + seq!['.'] + t,
{
    let d = decimal(f);
    law_decimal_reads_back(f);
    reveal_with_fuel(decimal, 5);
    let zeros = (if f < 1000 {
        seq!['0']
    } else {
        Seq::empty()
    }) + (if f < 100 {
        seq!['0']
    } else {
        Seq::empty()
    }) + (if f < 10 {
        seq!['0']
    } else {
        Seq::empty()
    });
    let t = zeros + d;
    assert(d.len() == if f < 10 {
        1nat
    } else if f < 100 {
        2nat
    } else if f < 1000 {
        3nat
    } else {
        4nat
    });
    assert forall|i: int| 0 <= i < t.len() implies is_digit(#[trigger] t[i]) by {
        if i >= zeros.len() {
            assert(t[i] == d[i - zeros.len()]);
        }
    }
    lemma_value_append(zeros, d);
    assert(value_of(zeros) == 0) by {
        reveal_with_fuel(value_of, 4);
        if zeros.len() > 0 {
            assert(zeros.drop_last() =~= zeros.take(zeros.len() - 1));
        }
        if zeros.len() > 1 {
            assert(zeros.drop_last().drop_last() =~= zeros.take(zeros.len() - 2));
        }
    }
    assert(fixed(f, 4) =~= decimal(0) + seq!['.'] + t);
    t
}

/// A number of ten-thousandths is written with a point and four digits behind it, which
/// write what is left of the whole.
pub proof fn law_four_places_read_back(n: nat)
    ensures
        exists|t: Seq<char>|
            {
                &&& t.len() == 4
                &&& #[trigger] all_digits(t)
                &&& fixed(n, 4) == decimal(n / 10_000) + seq!['.'] + t
                &&& 10_000 * (n / 10_000) + value_of(t) == n
            },
{
    let f = n % 10_000;
    let t = lemma_four_digits(f);
    let dot = seq!['.'];
    assert(fixed(f, 4).skip(decimal(0).len() as int + 1) =~= t);
    assert(fixed(n, 4) =~= decimal(n / 10_000) + dot + t) by {
        let whole = decimal(n / 10_000);
        let zero = decimal(0);
        assert(fixed(n, 4).len() == whole.len() + fixed(f, 4).len() - zero.len());
        assert forall|i: int| 0 <= i < fixed(n, 4).len() implies fixed(n, 4)[i] == (whole + dot + t)[i] by {
            if i > whole.len() {
                assert(fixed(n, 4)[i] == fixed(f, 4)[i - whole.len() + zero.len()]);
            }
        }
    }
}

/// A number of tenths is written with a point and one digit behind it.
pub proof fn law_one_place_reads_back(n: nat)
    ensures
        fixed(n, 1).last() as u32 == 48 + n % 10,
        fixed(n, 1).drop_last() == decimal(n / 10) + seq!['.'],
        value_of(decimal(n / 10)) == n / 10,
{
    law_decimal_reads_back(n / 10);
    assert(fixed(n, 1).drop_last() =~= decimal(n / 10) + seq!['.']);
    crate::text::lemma_hex_digits(n as int % 10);
    assert(decimal(n % 10) =~= seq![crate::text::hex_digit(n as int % 10)]);
}

/// An angle is written to the nearest ten-thousandth of a degree, behind a minus sign if it
/// lies south or west.
pub proof fn law_angle_text_tells_angle(a: Fraction)
    requires
        a.den > 0,
    ensures
        exists|n: nat|
            {
                &&& #[trigger] fixed(n, 4) == if a.num < 0 {
                    angle_text(a).skip(1)
                } else {
                    angle_text(a)
                }
                &&& a.num < 0 ==> angle_text(a)[0] == '-' && -a.den <= 2 * (-10_000 * a.num - a.den * n) <= a.den
                &&& a.num >= 0 ==> -a.den <= 2 * (10_000 * a.num - a.den * n) <= a.den
            },
{
    let x = if a.num < 0 {
        -a.num * 10_000
    } else {
        a.num * 10_000
    };
    law_half_even_is_nearest(x, a.den);
    let h = half_even(x, a.den);
    assert(h >= 0) by (nonlinear_arith)
        requires
            2 * (x - a.den * h) <= a.den,
            x >= 0,
            a.den > 0,
    {
        if h <= -1 {
            assert(a.den * h <= -a.den);
        }
    }
    let n = h as nat;
    if a.num < 0 {
        assert(angle_text(a).skip(1) =~= fixed(n, 4));
    }
    assert(fixed(n, 4) == fixed(n, 4));
}

/// A heading of `h` 1024ths of a turn is written to the nearest tenth of a degree.
pub proof fn law_heading_text_tells_heading(h: u16)
    ensures
        exists|n: nat| #[trigger] fixed(n, 1) == heading_text(h) && -1024 <= 2 * (3600 * h - 1024 * n) <= 1024,
{
    law_half_even_is_nearest(h * 3600, 1024);
    let n = half_even(h * 3600, 1024) as nat;
    assert(fixed(n, 1) == heading_text(h));
}

/// A vertical rate is written with its sign, a climb with a plus.
pub proof fn law_rate_text_has_sign(vr: i32)
    ensures
        ({
            let t = with_sign(vr as int);
            &&& t[0] == if vr < 0 {
                '-'
            } else {
                '+'
            }
            &&& value_of(t.skip(1)) == if vr < 0 {
                -vr
            } else {
                vr as int
            }
        }),
{
    let m = (if vr < 0 {
        -vr
    } else {
        vr as int
    }) as nat;
    law_decimal_reads_back(m);
    assert(with_sign(vr as int).skip(1) =~= decimal(m));
}

/// A line about a change names its aircraft.
pub proof fn law_event_line_names_aircraft(ev: StateEvent, track: Seq<char>, icao: Icao)
    requires
        match ev {
            StateEvent::Acquired(i) => i == icao,
            StateEvent::Identification { icao: i, .. } => i == icao,
            StateEvent::Position { icao: i, .. } => i == icao,
            StateEvent::Velocity { icao: i, .. } => i == icao,
            StateEvent::Lost(i) => i == icao,
            _ => false,
        },
    ensures
        event_text(ev, track).len() >= 14,
        event_text(ev, track).subrange(8, 14) == address_hex(icao.0),
{
    reveal_strlit("acquire ");
    reveal_strlit("ident   ");
    reveal_strlit("pos     ");
    reveal_strlit("vel     ");
    reveal_strlit("lost    ");
    assert("acquire "@.len() == 8 && "ident   "@.len() == 8 && "pos     "@.len() == 8 && "vel     "@.len() == 8
        && "lost    "@.len() == 8);
    let h = address_hex(icao.0);
    assert(h.len() == 6);
    assert(event_text(ev, track).subrange(8, 14) =~= h);
}

} // verus!

//! Values for a Bluetooth Low Energy peripheral: how many aircraft are tracked, the
//! lowest one, and a line of text about it.

use crate::cpr::{Fraction, Ratio};
use crate::events::{AircraftSnapshot, SnapshotVelocity};
use crate::gdl90::{direction_of, lemma_rounded_near, rounded};
use crate::message::{address_bytes, address_hex};
use crate::state::PositionSource;
use crate::text::{decimal, push_char, push_decimal, push_hex, push_signed, push_text, signed_decimal};
use vstd::prelude::*;

verus! {

/// The values published.
#[derive(Debug)]
pub struct Latest {
    /// Aircraft tracked, at most 65535.
    pub count: u16,
    /// The lowest aircraft; see [`packed_aircraft`].
    pub nearest: Vec<u8>,
    pub summary: String,
}

impl Default for Latest {
    fn default() -> (l: Latest)
        ensures
            l.count == 0,
            l.nearest@ == Seq::<u8>::empty(),
            l.summary@ == Seq::<char>::empty(),
    {
        Latest { count: 0, nearest: Vec::new(), summary: String::new() }
    }
}

// --- The lowest aircraft -----------------------------------------------------

/// The altitude at which an aircraft is known to be.
pub open spec fn known_altitude(a: AircraftSnapshot) -> Option<i32> {
    match a.position {
        Some(p) => p.alt_ft,
        None => None,
    }
}

/// The lowest of the first `n` aircraft that are at a known altitude; the first of
/// equals.
pub open spec fn lowest(fleet: Seq<AircraftSnapshot>, n: int) -> Option<int>
    decreases n,
{
    if n <= 0 {
        None
    } else {
        let before = lowest(fleet, n - 1);
        match (known_altitude(fleet[n - 1]), before) {
            (Some(alt), Some(i)) => if alt < known_altitude(fleet[i])->0 {
                Some(n - 1)
            } else {
                before
            },
            (Some(_), None) => Some(n - 1),
            (None, _) => before,
        }
    }
}

/// The lowest aircraft is at a known altitude, no other is lower, and those before it
/// are higher. There is none only if no altitude is known.
pub proof fn law_lowest(fleet: Seq<AircraftSnapshot>, n: int)
    requires
        0 <= n <= fleet.len(),
    ensures
        match lowest(fleet, n) {
            Some(i) => {
                &&& 0 <= i < n
                &&& known_altitude(fleet[i]) is Some
                &&& forall|j: int|
                    0 <= j < n && known_altitude(#[trigger] fleet[j]) is Some ==> known_altitude(fleet[i])->0
                        <= known_altitude(fleet[j])->0
                &&& forall|j: int|
                    0 <= j < i && known_altitude(#[trigger] fleet[j]) is Some ==> known_altitude(fleet[i])->0
                        < known_altitude(fleet[j])->0
            },
            None => forall|j: int| 0 <= j < n ==> known_altitude(#[trigger] fleet[j]) is None,
        },
    decreases n,
{
    if n > 0 {
        law_lowest(fleet, n - 1);
    }
}

fn altitude_of(a: &AircraftSnapshot) -> (alt: Option<i32>)
    ensures
        alt == known_altitude(*a),
{
    match &a.position {
        Some(p) => p.alt_ft,
        None => None,
    }
}

fn lowest_of(fleet: &[AircraftSnapshot]) -> (r: Option<usize>)
    ensures
        match r {
            Some(i) => lowest(fleet@, fleet@.len() as int) == Some(i as int) && i < fleet@.len(),
            None => lowest(fleet@, fleet@.len() as int) is None,
        },
{
    let mut best: Option<usize> = None;
    let mut i: usize = 0;
    while i < fleet.len()
        invariant
            i <= fleet@.len(),
            match best {
                Some(b) => lowest(fleet@, i as int) == Some(b as int) && b < i,
                None => lowest(fleet@, i as int) is None,
            },
        decreases fleet@.len() - i,
    {
        proof {
            law_lowest(fleet@, i as int);
        }
        if let Some(alt) = altitude_of(&fleet[i]) {
            let lower: bool = match best {
                Some(b) => match altitude_of(&fleet[b]) {
                    Some(other) => alt < other,
                    None => true,
                },
                None => true,
            };
            if lower {
                best = Some(i);
            }
        }
        i += 1;
    }
    best
}

// --- Packing -----------------------------------------------------------------

/// Two bytes, least significant first.
pub open spec fn le16(v: int) -> Seq<u8> {
    seq![(v % 256) as u8, (v / 256 % 256) as u8]
}

/// Four bytes of a number in two's complement, least significant first.
pub open spec fn le32(v: int) -> Seq<u8> {
    let u = v % 0x1_0000_0000;
    seq![(u % 256) as u8, (u / 256 % 256) as u8, (u / 65_536 % 256) as u8, (u / 16_777_216 % 256) as u8]
}

/// The quotient, rounded towards zero.
pub open spec fn toward_zero(x: int, d: int) -> int {
    if x >= 0 {
        x / d
    } else {
        -((-x) / d)
    }
}

/// A number as 16 bits, `0xFFFF` if it does not fit.
pub open spec fn or_unknown(v: int) -> int {
    if 0 <= v <= 65_535 {
        v
    } else {
        0xFFFF
    }
}

/// An altitude in steps of 25 ft, `0xFFFF` if it is unknown or below zero.
pub open spec fn packed_altitude(alt_ft: Option<i32>) -> int {
    match alt_ft {
        Some(ft) => or_unknown(toward_zero(ft as int, 25)),
        None => 0xFFFF,
    }
}

/// An angle in millionths of a degree, its fraction dropped.
pub open spec fn micro_degrees(deg: Fraction) -> int {
    toward_zero(deg.num * 1_000_000, deg.den)
}

/// A direction in tenths of a degree, `0xFFFF` if it is unknown.
pub open spec fn packed_direction(deg: Option<Ratio>) -> int {
    match deg {
        Some(d) => or_unknown(rounded(10 * d@.num, d@.den)),
        None => 0xFFFF,
    }
}

/// An aircraft in 15 bytes: address, altitude, latitude, longitude, direction.
pub open spec fn packed_aircraft(a: AircraftSnapshot) -> Seq<u8> {
    let lat = match a.position {
        Some(p) => micro_degrees(p.lat@),
        None => 0,
    };
    let lon = match a.position {
        Some(p) => micro_degrees(p.lon@),
        None => 0,
    };
    address_bytes(a.icao.0) + le16(packed_altitude(known_altitude(a))) + le32(lat) + le32(lon) + le16(
        packed_direction(direction_of(a.velocity)),
    )
}

fn micro_degrees_of(deg: Ratio) -> (v: i64)
    ensures
        v == micro_degrees(deg@),
        -720_000_000 <= v <= 720_000_000,
{
    let num: i64 = deg.num();
    let den: i64 = deg.den();
    let ghost x = num * 1_000_000;
    let negative: bool = num < 0;
    let a: i128 = if negative {
        -(num as i128) * 1_000_000
    } else {
        num as i128 * 1_000_000
    };
    let q: i128 = a / den as i128;
    proof {
        let qi = a as int / den as int;
        assert(0 <= qi <= 720_000_000) by (nonlinear_arith)
            requires
                qi == a as int / den as int,
                0 <= a <= 720_000_000 * den,
                den > 0,
        ;
    }
    if negative {
        -(q as i64)
    } else {
        q as i64
    }
}

fn direction_tenths(v: &Option<SnapshotVelocity>) -> (t: u16)
    ensures
        t == packed_direction(direction_of(*v)),
{
    let deg: Option<Ratio> = match v {
        Some(v) => match v.track_deg {
            Some(t) => Some(t),
            None => v.heading_deg,
        },
        None => None,
    };
    match deg {
        Some(d) => {
            let num: i64 = d.num();
            let den: i64 = d.den();
            if num < 0 {
                // Only what rounds to zero is not below it.
                let n: i128 = (20 * (-(num as i128)) + den as i128) / (2 * den as i128);
                return if n == 0 {
                    0
                } else {
                    0xFFFF
                };
            }
            let r: i128 = (20 * num as i128 + den as i128) / (2 * den as i128);
            proof {
                let ri = (20 * num + den) / (2 * den);
                assert(0 <= ri <= 7200) by (nonlinear_arith)
                    requires
                        ri == (20 * num + den) / (2 * den),
                        0 <= num <= 720 * den,
                        den > 0,
                ;
            }
            r as u16
        },
        None => 0xFFFF,
    }
}

fn packed_altitude_of(alt_ft: Option<i32>) -> (v: u16)
    ensures
        v == packed_altitude(alt_ft),
{
    match alt_ft {
        Some(ft) => {
            if ft <= -25 {
                return 0xFFFF;
            }
            if ft < 0 {
                return 0;
            }
            let q: i32 = ft / 25;
            if q <= 65_535 {
                q as u16
            } else {
                0xFFFF
            }
        },
        None => 0xFFFF,
    }
}

fn push_le32(out: &mut Vec<u8>, v: i64)
    requires
        -720_000_000 <= v <= 720_000_000,
    ensures
        final(out)@ == old(out)@ + le32(v as int),
{
    let ghost before = out@;
    let u: i64 = if v < 0 {
        v + 0x1_0000_0000
    } else {
        v
    };
    assert(u == v as int % 0x1_0000_0000);
    out.push((u % 256) as u8);
    out.push((u / 256 % 256) as u8);
    out.push((u / 65_536 % 256) as u8);
    out.push((u / 16_777_216 % 256) as u8);
    assert(out@ =~= before + le32(v as int));
}

/// An aircraft in 15 bytes.
#[must_use]
pub fn pack_nearest(a: &AircraftSnapshot) -> (out: Vec<u8>)
    ensures
        out@ == packed_aircraft(*a),
        out@.len() == 15,
{
    let mut out: Vec<u8> = Vec::new();
    let icao: [u8; 3] = a.icao.to_bytes();
    out.push(icao[0]);
    out.push(icao[1]);
    out.push(icao[2]);
    let alt: u16 = packed_altitude_of(altitude_of(a));
    out.push((alt % 256) as u8);
    out.push((alt / 256) as u8);
    let (lat, lon): (i64, i64) = match &a.position {
        Some(p) => (micro_degrees_of(p.lat), micro_degrees_of(p.lon)),
        None => (0, 0),
    };
    push_le32(&mut out, lat);
    push_le32(&mut out, lon);
    let track: u16 = direction_tenths(&a.velocity);
    out.push((track % 256) as u8);
    out.push((track / 256) as u8);
    assert(out@ =~= packed_aircraft(*a));
    out
}

// --- Summary -----------------------------------------------------------------

/// The altitude of an aircraft in digits, `?` if it is unknown.
pub open spec fn altitude_text(alt_ft: Option<i32>) -> Seq<char> {
    match alt_ft {
        Some(ft) => signed_decimal(ft as int),
        None => seq!['?'],
    }
}

/// A letter for the source of a position.
pub open spec fn source_letter(a: AircraftSnapshot) -> char {
    match a.position {
        Some(p) => match p.source {
            PositionSource::Global => 'G',
            PositionSource::Local => 'L',
        },
        None => '?',
    }
}

/// The callsign of an aircraft, or its address if it has none.
pub open spec fn name_text(a: AircraftSnapshot) -> Seq<char> {
    match a.callsign {
        Some(s) => if s@.len() == 0 {
            address_hex(a.icao.0)
        } else {
            s@
        },
        None => address_hex(a.icao.0),
    }
}

/// A line about an aircraft: name, altitude, source, and how many are tracked.
pub open spec fn summary_text(a: AircraftSnapshot, count: u16) -> Seq<char> {
    name_text(a) + seq![' '] + altitude_text(known_altitude(a)) + "ft"@ + seq![source_letter(a)] + " #"@ + decimal(
        count as nat,
    )
}

/// A line about an aircraft.
#[must_use]
pub fn format_summary(a: &AircraftSnapshot, count: u16) -> (s: String)
    ensures
        s@ == summary_text(*a, count),
{
    let mut s = String::new();
    let named: bool = match &a.callsign {
        Some(c) => !c.as_str().is_empty(),
        None => false,
    };
    if named {
        if let Some(c) = &a.callsign {
            push_text(&mut s, c.as_str());
        }
    } else {
        push_hex(&mut s, a.icao.to_bytes().as_slice());
    }
    assert(s@ =~= name_text(*a));
    push_char(&mut s, ' ');
    match altitude_of(a) {
        Some(ft) => push_signed(&mut s, ft as i64),
        None => push_char(&mut s, '?'),
    }
    push_text(&mut s, "ft");
    let letter: char = match &a.position {
        Some(p) => match p.source {
            PositionSource::Global => 'G',
            PositionSource::Local => 'L',
        },
        None => '?',
    };
    push_char(&mut s, letter);
    push_text(&mut s, " #");
    push_decimal(&mut s, count as u64);
    assert(s@ =~= summary_text(*a, count));
    s
}

/// The number of aircraft, at most 65535.
pub open spec fn published_count(n: nat) -> u16 {
    if n <= 65_535 {
        n as u16
    } else {
        65_535
    }
}

/// The values to publish for the aircraft tracked.
#[must_use]
pub fn derive_latest(fleet: &[AircraftSnapshot]) -> (l: Latest)
    ensures
        l.count == published_count(fleet@.len()),
        match lowest(fleet@, fleet@.len() as int) {
            Some(i) => {
                &&& l.nearest@ == packed_aircraft(fleet@[i])
                &&& l.summary@ == summary_text(fleet@[i], l.count)
            },
            None => {
                &&& l.nearest@ == Seq::new(15, |k: int| 0u8)
                &&& l.summary@ == decimal(l.count as nat) + " ac"@
            },
        },
{
    let count: u16 = if fleet.len() <= 65_535 {
        fleet.len() as u16
    } else {
        65_535
    };
    match lowest_of(fleet) {
        Some(i) => {
            let nearest = pack_nearest(&fleet[i]);
            let summary = format_summary(&fleet[i], count);
            Latest { count, nearest, summary }
        },
        None => {
            let nearest: Vec<u8> = vec![0u8; 15];
            assert(nearest@ =~= Seq::new(15, |k: int| 0u8));
            let mut summary = String::new();
            push_decimal(&mut summary, count as u64);
            push_text(&mut summary, " ac");
            assert(summary@ =~= decimal(count as nat) + " ac"@);
            Latest { count, nearest, summary }
        },
    }
}

/// Shortest time between two refreshes, in milliseconds: a link cannot take more.
pub const REFRESH_MILLIS: u64 = 250;

/// Whether the values are to be refreshed so long after the last time.
#[must_use]
pub fn refresh_is_due(since_last_millis: u64) -> (yes: bool)
    ensures
        yes == (since_last_millis >= REFRESH_MILLIS),
{
    since_last_millis >= REFRESH_MILLIS
}

// --- Reading back ------------------------------------------------------------

/// The number that two bytes hold, least significant first.
pub open spec fn read_16(b: Seq<u8>, at: int) -> int {
    b[at] + 256 * b[at + 1]
}

/// The number that four bytes hold in two's complement, least significant first.
pub open spec fn read_32(b: Seq<u8>, at: int) -> int {
    let u = b[at] + 256 * b[at + 1] + 65_536 * b[at + 2] + 16_777_216 * b[at + 3];
    if u >= 0x8000_0000 {
        u - 0x1_0000_0000
    } else {
        u
    }
}

proof fn lemma_le32_reads_back(b: Seq<u8>, at: int, v: int)
    requires
        -0x8000_0000 <= v < 0x8000_0000,
        0 <= at <= b.len() - 4,
        b.subrange(at, at + 4) == le32(v),
    ensures
        read_32(b, at) == v,
{
    let s = b.subrange(at, at + 4);
    assert(s[0] == b[at] && s[1] == b[at + 1] && s[2] == b[at + 2] && s[3] == b[at + 3]);
}

proof fn lemma_le16_reads_back(b: Seq<u8>, at: int, v: int)
    requires
        0 <= v < 65_536,
        0 <= at <= b.len() - 2,
        b.subrange(at, at + 2) == le16(v),
    ensures
        read_16(b, at) == v,
{
    let s = b.subrange(at, at + 2);
    assert(s[0] == b[at] && s[1] == b[at + 1]);
}

/// An angle loses less than a millionth of a degree, towards zero.
proof fn lemma_micro_degrees(deg: Fraction)
    requires
        0 < deg.den,
        deg.within(-720, 720),
    ensures
        -720_000_000 <= micro_degrees(deg) <= 720_000_000,
        deg.num >= 0 ==> deg.den * micro_degrees(deg) <= 1_000_000 * deg.num < deg.den * micro_degrees(deg)
            + deg.den,
        deg.num < 0 ==> deg.den * micro_degrees(deg) - deg.den < 1_000_000 * deg.num <= deg.den * micro_degrees(
            deg,
        ),
{
    let d = deg.den;
    let x = if deg.num < 0 {
        -deg.num * 1_000_000
    } else {
        deg.num * 1_000_000
    };
    let q = x / d;
    vstd::arithmetic::div_mod::lemma_fundamental_div_mod(x, d);
    vstd::arithmetic::div_mod::lemma_mod_bound(x, d);
    assert(0 <= q <= 720_000_000) by (nonlinear_arith)
        requires
            q == x / d,
            0 <= x <= 720_000_000 * d,
            d > 0,
    ;
    assert(d * (-q) == -(d * q)) by (nonlinear_arith);
    assert(-(deg.num * 1_000_000) == -deg.num * 1_000_000);
}

/// A client reads from the 15 bytes what was put into them: the address, the altitude in
/// whole steps of 25 ft, the position in millionths of a degree, west and south being
/// negative, and the direction in tenths of a degree. What is not known is `0xFFFF`.
#[verifier::rlimit(40)]
pub proof fn law_packed_aircraft_reads_back(a: AircraftSnapshot)
    ensures
        ({
            let b = packed_aircraft(a);
            &&& b.len() == 15
            &&& 65_536 * b[0] + 256 * b[1] + b[2] == a.icao.0 % 16_777_216
            &&& match known_altitude(a) {
                Some(ft) => {
                    &&& 0 <= ft < 25 * 65_536 ==> 25 * read_16(b, 3) <= ft < 25 * read_16(b, 3) + 25
                    &&& -25 < ft < 0 ==> read_16(b, 3) == 0
                    &&& ft <= -25 || ft >= 25 * 65_536 ==> read_16(b, 3) == 65_535
                },
                None => read_16(b, 3) == 65_535,
            }
            &&& match a.position {
                Some(p) => {
                    &&& p.lat@.valid() ==> read_32(b, 5) == micro_degrees(p.lat@)
                    &&& p.lon@.valid() ==> read_32(b, 9) == micro_degrees(p.lon@)
                },
                None => read_32(b, 5) == 0 && read_32(b, 9) == 0,
            }
            &&& match direction_of(a.velocity) {
                Some(d) => d@.valid() && d@.num >= 0 ==> -d@.den <= 2 * (10 * d@.num - d@.den * read_16(b, 13))
                    <= d@.den,
                None => read_16(b, 13) == 65_535,
            }
        }),
{
    let b = packed_aircraft(a);
    let lat = match a.position {
        Some(p) => micro_degrees(p.lat@),
        None => 0,
    };
    let lon = match a.position {
        Some(p) => micro_degrees(p.lon@),
        None => 0,
    };
    let alt = packed_altitude(known_altitude(a));
    let dir = packed_direction(direction_of(a.velocity));
    lemma_lengths(a.icao.0, alt);
    lemma_lengths(a.icao.0, lat);
    lemma_lengths(a.icao.0, lon);
    lemma_lengths(a.icao.0, dir);
    lemma_joined(b, address_bytes(a.icao.0), le16(alt), le32(lat), le32(lon), le16(dir));
    lemma_address_reads_back(b, a.icao.0);
    lemma_le16_reads_back(b, 3, alt);
    lemma_le16_reads_back(b, 13, dir);
    if let Some(p) = a.position {
        if p.lat@.valid() {
            lemma_micro_degrees(p.lat@);
            lemma_le32_reads_back(b, 5, lat);
        }
        if p.lon@.valid() {
            lemma_micro_degrees(p.lon@);
            lemma_le32_reads_back(b, 9, lon);
        }
    } else {
        lemma_le32_reads_back(b, 5, 0);
        lemma_le32_reads_back(b, 9, 0);
    }
    if let Some(d) = direction_of(a.velocity) {
        if d@.valid() && d@.num >= 0 {
            let r = rounded(10 * d@.num, d@.den);
            lemma_rounded_near(10 * d@.num, d@.den);
            let num = d@.num;
            let den = d@.den;
            assert(0 <= r <= 7200) by (nonlinear_arith)
                requires
                    r == (2 * (10 * num) + den) / (2 * den),
                    0 <= num <= 720 * den,
                    den > 0,
            ;
        }
    }
}

proof fn lemma_joined(b: Seq<u8>, p: Seq<u8>, q: Seq<u8>, r: Seq<u8>, t: Seq<u8>, u: Seq<u8>)
    requires
        b == p + q + r + t + u,
        p.len() == 3,
        q.len() == 2,
        r.len() == 4,
        t.len() == 4,
        u.len() == 2,
    ensures
        b.len() == 15,
        b.subrange(0, 3) == p,
        b.subrange(3, 5) == q,
        b.subrange(5, 9) == r,
        b.subrange(9, 13) == t,
        b.subrange(13, 15) == u,
{
    assert(b.subrange(0, 3) =~= p);
    assert(b.subrange(3, 5) =~= q);
    assert(b.subrange(5, 9) =~= r);
    assert(b.subrange(9, 13) =~= t);
    assert(b.subrange(13, 15) =~= u);
}

proof fn lemma_address_reads_back(b: Seq<u8>, icao: u32)
    requires
        b.len() >= 3,
        b.subrange(0, 3) == address_bytes(icao),
    ensures
        65_536 * b[0] + 256 * b[1] + b[2] == icao % 16_777_216,
{
    let s = b.subrange(0, 3);
    assert(s[0] == b[0] && s[1] == b[1] && s[2] == b[2]);
}

proof fn lemma_lengths(icao: u32, v: int)
    ensures
        address_bytes(icao).len() == 3,
        le16(v).len() == 2,
        le32(v).len() == 4,
{
}

/// The published position lies less than a millionth of a degree from the aircraft's, on
/// the side of zero.
pub proof fn law_published_position_is_near(a: AircraftSnapshot)
    requires
        a.position is Some,
        a.position->0.lat@.valid(),
        a.position->0.lon@.valid(),
    ensures
        ({
            let b = packed_aircraft(a);
            let lat = a.position->0.lat@;
            let lon = a.position->0.lon@;
            let la = read_32(b, 5);
            let lo = read_32(b, 9);
            &&& lat.num >= 0 ==> lat.den * la <= 1_000_000 * lat.num < lat.den * la + lat.den
            &&& lat.num < 0 ==> lat.den * la - lat.den < 1_000_000 * lat.num <= lat.den * la
            &&& lon.num >= 0 ==> lon.den * lo <= 1_000_000 * lon.num < lon.den * lo + lon.den
            &&& lon.num < 0 ==> lon.den * lo - lon.den < 1_000_000 * lon.num <= lon.den * lo
        }),
{
    law_packed_aircraft_reads_back(a);
    lemma_micro_degrees(a.position->0.lat@);
    lemma_micro_degrees(a.position->0.lon@);
}

/// The line about an aircraft begins with its callsign, or with its address if it has none
/// or an empty one, and ends with the number of aircraft, behind a letter that says how the
/// position was derived.
pub proof fn law_summary_tells_aircraft(a: AircraftSnapshot, count: u16)
    ensures
        ({
            let s = summary_text(a, count);
            let n = decimal(count as nat);
            let mark = s.len() - n.len() - 3;
            &&& a.callsign is Some && a.callsign->0@.len() > 0 ==> s.len() > a.callsign->0@.len() && s.take(
                a.callsign->0@.len() as int,
            ) == a.callsign->0@ && s[a.callsign->0@.len() as int] == ' '
            &&& a.callsign is None || a.callsign->0@.len() == 0 ==> s.len() > 6 && s.take(6) == address_hex(a.icao.0)
                && s[6] == ' '
            &&& s.skip(s.len() - n.len()) == n
            &&& mark > 0
            &&& s[mark] == match a.position {
                Some(p) => match p.source {
                    PositionSource::Global => 'G',
                    PositionSource::Local => 'L',
                },
                None => '?',
            }
            &&& s[mark + 1] == ' '
            &&& s[mark + 2] == '#'
        }),
{
    reveal_strlit("ft");
    reveal_strlit(" #");
    assert(" #"@.len() == 2 && " #"@[0] == ' ' && " #"@[1] == '#');
    let s = summary_text(a, count);
    let n = decimal(count as nat);
    let name = name_text(a);
    assert(address_hex(a.icao.0).len() == 6);
    assert(s.take(name.len() as int) =~= name);
    assert(s.skip(s.len() - n.len()) =~= n);
}

/// The number published is that of the aircraft, or 65535 if there are more.
pub proof fn law_count_is_published(n: nat)
    ensures
        n <= 65_535 ==> published_count(n) == n,
        n > 65_535 ==> published_count(n) == 65_535,
{
}

} // verus!

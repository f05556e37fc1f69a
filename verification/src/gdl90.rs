//! GDL90 messages: heartbeat, source identification and traffic reports.
//!
//! A message is closed by its CRC-16, least significant byte first, stuffed so that
//! it holds no flag byte, and put between two flags:
//! `0x7E` becomes `0x7D 0x5E` and `0x7D` becomes `0x7D 0x5D`.

pub mod table;

use crate::cpr::{Fraction, Ratio};
use crate::events::{AircraftSnapshot, SnapshotVelocity};
use crate::message::{address_bytes, address_hex};
use crate::text::hex_char;
use table::{lemma_crc_table, CRC_TABLE};
use vstd::prelude::*;
use vstd::utf8::encode_utf8;

verus! {

// --- CRC ---------------------------------------------------------------------

/// One shift of the 16-bit register, with polynomial `0x1021`.
pub open spec fn crc16_step(c: u16) -> u16 {
    if c & 0x8000 != 0 {
        (c << 1) ^ 0x1021
    } else {
        c << 1
    }
}

/// `n` shifts of the register.
pub open spec fn crc16_steps(c: u16, n: nat) -> u16
    decreases n,
{
    if n == 0 {
        c
    } else {
        crc16_step(crc16_steps(c, (n - 1) as nat))
    }
}

/// The CRC-16 of a message: most significant bit first, register initially zero.
pub open spec fn crc16_of(bytes: Seq<u8>) -> u16
    decreases bytes.len(),
{
    if bytes.len() == 0 {
        0
    } else {
        crc16_steps(crc16_of(bytes.drop_last()) ^ ((bytes.last() as u16) << 8), 8)
    }
}

proof fn lemma_step_linear(x: u16, y: u16)
    ensures
        crc16_step(x ^ y) == crc16_step(x) ^ crc16_step(y),
{
    let sx = crc16_step(x);
    let sy = crc16_step(y);
    let z = x ^ y;
    let sz = crc16_step(z);
    assert(sz == sx ^ sy) by (bit_vector)
        requires
            z == x ^ y,
            sx == if x & 0x8000 != 0 { (x << 1) ^ 0x1021 } else { x << 1 },
            sy == if y & 0x8000 != 0 { (y << 1) ^ 0x1021 } else { y << 1 },
            sz == if z & 0x8000 != 0 { (z << 1) ^ 0x1021 } else { z << 1 },
    ;
}

proof fn lemma_steps_linear(x: u16, y: u16, n: nat)
    ensures
        crc16_steps(x ^ y, n) == crc16_steps(x, n) ^ crc16_steps(y, n),
    decreases n,
{
    if n > 0 {
        lemma_steps_linear(x, y, (n - 1) as nat);
        lemma_step_linear(crc16_steps(x, (n - 1) as nat), crc16_steps(y, (n - 1) as nat));
    }
}

/// Eight steps of a register whose high byte is zero only shift it.
proof fn lemma_steps_low(x: u16)
    requires
        x < 256,
    ensures
        crc16_steps(x, 8) == x << 8,
{
    reveal_with_fuel(crc16_steps, 9);
    let x1 = crc16_step(x);
    let x2 = crc16_step(x1);
    let x3 = crc16_step(x2);
    let x4 = crc16_step(x3);
    let x5 = crc16_step(x4);
    let x6 = crc16_step(x5);
    let x7 = crc16_step(x6);
    let x8 = crc16_step(x7);
    assert(x8 == x << 8) by (bit_vector)
        requires
            x < 256,
            x1 == if x & 0x8000 != 0 { (x << 1) ^ 0x1021 } else { x << 1 },
            x2 == if x1 & 0x8000 != 0 { (x1 << 1) ^ 0x1021 } else { x1 << 1 },
            x3 == if x2 & 0x8000 != 0 { (x2 << 1) ^ 0x1021 } else { x2 << 1 },
            x4 == if x3 & 0x8000 != 0 { (x3 << 1) ^ 0x1021 } else { x3 << 1 },
            x5 == if x4 & 0x8000 != 0 { (x4 << 1) ^ 0x1021 } else { x4 << 1 },
            x6 == if x5 & 0x8000 != 0 { (x5 << 1) ^ 0x1021 } else { x5 << 1 },
            x7 == if x6 & 0x8000 != 0 { (x6 << 1) ^ 0x1021 } else { x6 << 1 },
            x8 == if x7 & 0x8000 != 0 { (x7 << 1) ^ 0x1021 } else { x7 << 1 },
    ;
}

/// Computes the CRC-16 of a message from the byte table.
#[must_use]
pub fn crc16_ccitt(bytes: &[u8]) -> (c: u16)
    ensures
        c == crc16_of(bytes@),
{
    let mut c: u16 = 0;
    let mut i: usize = 0;
    while i < bytes.len()
        invariant
            i <= bytes@.len(),
            c == crc16_of(bytes@.take(i as int)),
        decreases bytes@.len() - i,
    {
        let b: u8 = bytes[i];
        let idx: u8 = ((c >> 8) as u8) ^ b;
        proof {
            let low: u16 = c & 0xFF;
            assert(c ^ ((b as u16) << 8) == low ^ ((idx as u16) << 8) && low < 256 && c << 8 == low << 8) by (bit_vector)
                requires
                    low == c & 0xFF,
                    idx == ((c >> 8) as u8) ^ b,
            ;
            lemma_crc_table(idx as u16);
            lemma_steps_linear(low, (idx as u16) << 8, 8);
            lemma_steps_low(low);
            assert(bytes@.take(i + 1).drop_last() =~= bytes@.take(i as int));
        }
        c = (c << 8) ^ CRC_TABLE[idx as usize];
        i += 1;
    }
    assert(bytes@.take(bytes@.len() as int) =~= bytes@);
    c
}

// --- Framing -----------------------------------------------------------------

/// The flag that opens and closes a message.
pub const FLAG: u8 = 0x7E;

/// The byte that announces a stuffed one.
pub const ESCAPE: u8 = 0x7D;

/// A byte, stuffed if it is the flag or the escape.
pub open spec fn stuffed_byte(b: u8) -> Seq<u8> {
    if b == FLAG {
        seq![ESCAPE, 0x5E]
    } else if b == ESCAPE {
        seq![ESCAPE, 0x5D]
    } else {
        seq![b]
    }
}

/// The bytes, stuffed.
pub open spec fn stuffed(bytes: Seq<u8>) -> Seq<u8>
    decreases bytes.len(),
{
    if bytes.len() == 0 {
        Seq::empty()
    } else {
        stuffed(bytes.drop_last()) + stuffed_byte(bytes.last())
    }
}

/// The bytes that a stuffed message stands for.
pub open spec fn unstuffed(s: Seq<u8>) -> Seq<u8>
    decreases s.len(),
{
    if s.len() == 0 {
        Seq::empty()
    } else if s[0] == ESCAPE && s.len() >= 2 {
        seq![if s[1] == 0x5E { FLAG } else { ESCAPE }] + unstuffed(s.skip(2))
    } else {
        seq![s[0]] + unstuffed(s.skip(1))
    }
}

/// A message with its CRC, least significant byte first.
pub open spec fn closed_message(payload: Seq<u8>) -> Seq<u8> {
    payload + seq![(crc16_of(payload) % 256) as u8, (crc16_of(payload) / 256) as u8]
}

/// A message as it is sent.
pub open spec fn framed(payload: Seq<u8>) -> Seq<u8> {
    seq![FLAG] + stuffed(closed_message(payload)) + seq![FLAG]
}

proof fn lemma_stuffed_front(bytes: Seq<u8>)
    requires
        bytes.len() > 0,
    ensures
        stuffed(bytes) == stuffed_byte(bytes[0]) + stuffed(bytes.skip(1)),
    decreases bytes.len(),
{
    if bytes.len() == 1 {
        assert(bytes.drop_last() =~= Seq::<u8>::empty());
        assert(bytes.skip(1) =~= Seq::<u8>::empty());
        assert(stuffed(bytes) =~= stuffed_byte(bytes[0]) + stuffed(bytes.skip(1)));
    } else {
        let front = bytes.drop_last();
        lemma_stuffed_front(front);
        assert(front.skip(1) =~= bytes.skip(1).drop_last());
        assert(bytes.skip(1).last() == bytes.last());
        assert(stuffed(bytes) =~= stuffed_byte(bytes[0]) + stuffed(bytes.skip(1)));
    }
}

/// Stuffing loses nothing.
pub proof fn law_unstuff_after_stuff(bytes: Seq<u8>)
    ensures
        unstuffed(stuffed(bytes)) == bytes,
    decreases bytes.len(),
{
    if bytes.len() > 0 {
        let rest = bytes.skip(1);
        lemma_stuffed_front(bytes);
        law_unstuff_after_stuff(rest);
        let s = stuffed(bytes);
        let n = stuffed_byte(bytes[0]).len() as int;
        assert(s.skip(n) =~= stuffed(rest));
        assert(unstuffed(s) =~= seq![bytes[0]] + rest);
        assert(seq![bytes[0]] + rest =~= bytes);
    } else {
        assert(unstuffed(stuffed(bytes)) =~= bytes);
    }
}

/// No flag occurs inside a message, and every escape announces a stuffed byte.
pub proof fn law_no_flag_inside(bytes: Seq<u8>, i: int)
    requires
        0 <= i < stuffed(bytes).len(),
    ensures
        stuffed(bytes)[i] != FLAG,
        stuffed(bytes)[i] == ESCAPE ==> i + 1 < stuffed(bytes).len() && (stuffed(bytes)[i + 1] == 0x5E || stuffed(
            bytes,
        )[i + 1] == 0x5D),
    decreases bytes.len(),
{
    if bytes.len() > 0 {
        let front = stuffed(bytes.drop_last());
        if i < front.len() {
            law_no_flag_inside(bytes.drop_last(), i);
            assert(stuffed(bytes)[i] == front[i]);
            if front[i] == ESCAPE {
                assert(stuffed(bytes)[i + 1] == front[i + 1]);
            }
        }
    }
}

/// A receiver that unstuffs a framed message finds the payload and a CRC that agrees
/// with it.
pub proof fn law_receiver_recovers_payload(payload: Seq<u8>)
    ensures
        ({
            let sent = framed(payload);
            let got = unstuffed(sent.subrange(1, sent.len() - 1));
            &&& got.len() == payload.len() + 2
            &&& got.take(payload.len() as int) == payload
            &&& got[payload.len() as int] as int + 256 * got[payload.len() as int + 1] == crc16_of(payload)
        }),
{
    let sent = framed(payload);
    assert(sent.subrange(1, sent.len() - 1) =~= stuffed(closed_message(payload)));
    law_unstuff_after_stuff(closed_message(payload));
    assert(closed_message(payload).take(payload.len() as int) =~= payload);
}

/// A message lies between two bytes 0x7E. Of its bytes only 0x7E and 0x7D are stuffed: they
/// become 0x7D and the byte less 0x20.
pub proof fn law_stuffing_spares_other_bytes(payload: Seq<u8>, b: u8)
    ensures
        framed(payload).len() >= 4,
        framed(payload)[0] == 0x7E,
        framed(payload).last() == 0x7E,
        b == 0x7E || b == 0x7D ==> stuffed_byte(b).len() == 2 && stuffed_byte(b)[0] == 0x7D && stuffed_byte(b)[1] == b
            - 0x20,
        b != 0x7E && b != 0x7D ==> stuffed_byte(b).len() == 1 && stuffed_byte(b)[0] == b,
        framed(payload).len() >= payload.len() + 4,
{
    lemma_stuffed_grows(closed_message(payload));
}

proof fn lemma_stuffed_grows(bytes: Seq<u8>)
    ensures
        stuffed(bytes).len() >= bytes.len(),
    decreases bytes.len(),
{
    if bytes.len() > 0 {
        lemma_stuffed_grows(bytes.drop_last());
    }
}

/// A message as it is sent: closed by its CRC, stuffed, between flags.
#[must_use]
pub fn frame(payload: &[u8]) -> (out: Vec<u8>)
    ensures
        out@ == framed(payload@),
{
    let crc: u16 = crc16_ccitt(payload);
    let mut body: Vec<u8> = Vec::new();
    body.extend_from_slice(payload);
    body.push((crc % 256) as u8);
    body.push((crc / 256) as u8);
    assert(body@ =~= closed_message(payload@));
    let mut out: Vec<u8> = Vec::new();
    out.push(FLAG);
    let mut i: usize = 0;
    assert(out@ =~= seq![FLAG] + stuffed(body@.take(0)));
    while i < body.len()
        invariant
            i <= body@.len(),
            out@ == seq![FLAG] + stuffed(body@.take(i as int)),
        decreases body@.len() - i,
    {
        let b: u8 = body[i];
        if b == FLAG {
            out.push(ESCAPE);
            out.push(0x5E);
        } else if b == ESCAPE {
            out.push(ESCAPE);
            out.push(0x5D);
        } else {
            out.push(b);
        }
        i += 1;
        assert(body@.take(i as int).drop_last() =~= body@.take(i - 1));
        assert(out@ =~= seq![FLAG] + stuffed(body@.take(i as int)));
    }
    assert(body@.take(body@.len() as int) =~= body@);
    out.push(FLAG);
    assert(out@ =~= framed(payload@));
    out
}

// --- Heartbeat ---------------------------------------------------------------

/// The seconds since midnight, UTC, of a time in seconds since the epoch.
#[must_use]
pub fn seconds_since_utc_midnight(unix_seconds: u64) -> (s: u32)
    ensures
        s == unix_seconds % 86_400,
{
    (unix_seconds % 86_400) as u32
}

/// The heartbeat: two status bytes, then the low 16 of the 17 bits of the seconds since
/// midnight, least significant byte first, and no message counts. The high bit of the
/// second status byte is that of the seconds.
pub open spec fn heartbeat_payload(seconds: u32) -> Seq<u8> {
    seq![
        0x00,
        0x81,
        (0x01 + 128 * (seconds / 65_536 % 2)) as u8,
        (seconds % 256) as u8,
        (seconds / 256 % 256) as u8,
        0x00,
        0x00,
    ]
}

/// The heartbeat message at a time of day.
#[must_use]
pub fn encode_heartbeat(seconds: u32) -> (out: Vec<u8>)
    ensures
        out@ == framed(heartbeat_payload(seconds)),
{
    let buf: [u8; 7] = [
        0x00,
        0x81,
        (1 + 128 * (seconds / 65_536 % 2)) as u8,
        (seconds % 256) as u8,
        (seconds / 256 % 256) as u8,
        0x00,
        0x00,
    ];
    assert(buf@ =~= heartbeat_payload(seconds));
    frame(buf.as_slice())
}

// --- Source identification ---------------------------------------------------

/// The identification: message and sub-message number, a serial number, a short and a
/// long name padded with spaces, and no capabilities.
pub open spec fn identification_payload() -> Seq<u8> {
    seq![0x65u8, 0x00] + seq![0x01u8, 0x00, 0x30, 0x39, 0x30, 0x31, 0x73, 0x72] + seq![
        0x72u8, 0x73, 0x31, 0x30, 0x39, 0x30, 0x20, 0x20,
    ] + seq![
        0x72u8, 0x73, 0x31, 0x30, 0x39, 0x30, 0x20, 0x41, 0x44, 0x53, 0x2D, 0x42, 0x20, 0x20, 0x20, 0x20,
    ] + seq![0x00u8, 0x00, 0x00, 0x00, 0x00]
}

/// The message that identifies the source to ForeFlight.
#[must_use]
pub fn encode_foreflight_id() -> (out: Vec<u8>)
    ensures
        out@ == framed(identification_payload()),
{
    let buf: [u8; 39] = [
        0x65, 0x00, 0x01, 0x00, 0x30, 0x39, 0x30, 0x31, 0x73, 0x72, 0x72, 0x73, 0x31, 0x30, 0x39, 0x30, 0x20,
        0x20, 0x72, 0x73, 0x31, 0x30, 0x39, 0x30, 0x20, 0x41, 0x44, 0x53, 0x2D, 0x42, 0x20, 0x20, 0x20, 0x20,
        0x00, 0x00, 0x00, 0x00, 0x00,
    ];
    assert(buf@ =~= identification_payload());
    frame(buf.as_slice())
}

// --- Traffic report ----------------------------------------------------------

/// The integer nearest to `x / d`, the one further from zero if two are.
pub open spec fn rounded(x: int, d: int) -> int {
    if x >= 0 {
        (2 * x + d) / (2 * d)
    } else {
        -((2 * (-x) + d) / (2 * d))
    }
}

/// An angle in steps of `180 / 2^23` degrees, as 24 bits in two's complement.
pub open spec fn semicircle_of(deg: Fraction) -> int {
    rounded(deg.num * 8_388_608, 180 * deg.den) % 16_777_216
}

/// An altitude in steps of 25 ft from -1000 ft on, at most `0xFFE`; `0xFFF` if there
/// is none.
pub open spec fn altitude_field(alt_ft: Option<i32>) -> int {
    match alt_ft {
        Some(ft) => if ft < -1000 {
            0
        } else if (ft + 1000) / 25 > 0xFFE {
            0xFFE
        } else {
            (ft + 1000) / 25
        },
        None => 0xFFF,
    }
}

/// A ground speed in knots, between zero and `0xFFE`; `0xFFF` if there is none.
pub open spec fn speed_field(gs_um_s: Option<i64>) -> int {
    match gs_um_s {
        Some(um) => {
            let kt = rounded(um * 194_384, 100_000_000_000);
            if kt < 0 {
                0
            } else if kt > 0xFFE {
                0xFFE
            } else {
                kt
            }
        },
        None => 0xFFF,
    }
}

/// A vertical rate in steps of 64 ft per minute, at most 510 either way, as 12 bits in
/// two's complement; `0x800` if there is none.
pub open spec fn rate_field(vr_um_s: Option<i64>) -> int {
    match vr_um_s {
        Some(um) => {
            let fpm = rounded(um * 19_685, 100_000_000);
            let steps = if fpm >= 0 {
                fpm / 64
            } else {
                -((-fpm) / 64)
            };
            let clamped = if steps > 510 {
                510
            } else if steps < -510 {
                -510
            } else {
                steps
            };
            clamped % 4096
        },
        None => 0x800,
    }
}

/// A direction in 256ths of a turn; zero if there is none.
pub open spec fn direction_field(deg: Option<Ratio>) -> int {
    match deg {
        Some(d) => rounded(256 * d@.num, 360 * d@.den) % 256,
        None => 0,
    }
}

/// The direction of an aircraft: its track, or else its heading.
pub open spec fn direction_of(v: Option<SnapshotVelocity>) -> Option<Ratio> {
    match v {
        Some(v) => match v.track_deg {
            Some(t) => Some(t),
            None => v.heading_deg,
        },
        None => None,
    }
}

/// A character of a callsign: an upper-case letter or a digit; anything else is a
/// space.
pub open spec fn callsign_byte(b: u8) -> u8 {
    if 48 <= b <= 57 || 65 <= b <= 90 {
        b
    } else if 97 <= b <= 122 {
        (b - 32) as u8
    } else {
        0x20
    }
}

/// Eight characters of callsign, padded with spaces.
pub open spec fn callsign_field(text: Seq<u8>) -> Seq<u8> {
    Seq::new(
        8,
        |i: int|
            if i < text.len() {
                callsign_byte(text[i])
            } else {
                0x20
            },
    )
}

/// The text that names an aircraft: its callsign, or else its address.
pub open spec fn name_bytes(a: AircraftSnapshot) -> Seq<u8> {
    match a.callsign {
        Some(s) => encode_utf8(s@),
        None => Seq::new(6, |i: int| (address_hex(a.icao.0)[i] as u32) as u8),
    }
}

/// Three bytes of a 24-bit field, most significant first.
pub open spec fn bytes_of_24(v: int) -> Seq<u8> {
    seq![(v / 65_536 % 256) as u8, (v / 256 % 256) as u8, (v % 256) as u8]
}

/// The traffic report of an aircraft at a position.
pub open spec fn traffic_payload(a: AircraftSnapshot) -> Seq<u8> {
    let p = a.position->0;
    let alt = altitude_field(p.alt_ft);
    let h = speed_field(
        match a.velocity {
            Some(v) => v.gs_um_s,
            None => None,
        },
    );
    let v = rate_field(
        match a.velocity {
            Some(v) => v.vr_um_s,
            None => None,
        },
    );
    seq![0x14u8, 0x00] + address_bytes(a.icao.0) + bytes_of_24(semicircle_of(p.lat@)) + bytes_of_24(
        semicircle_of(p.lon@),
    ) + seq![
        (alt / 16) as u8,
        // The low nibble says: airborne, true track.
        (alt % 16 * 16 + 9) as u8,
        0x88u8,
        (h / 16) as u8,
        (h % 16 * 16 + v / 256) as u8,
        (v % 256) as u8,
        direction_field(direction_of(a.velocity)) as u8,
        0x00u8,
    ] + callsign_field(name_bytes(a)) + seq![0x00u8]
}

proof fn lemma_rounded_bound(x: int, d: int, m: int)
    requires
        d > 0,
        m >= 0,
        -m * d <= x <= m * d,
    ensures
        -m <= rounded(x, d) <= m,
{
    let y = if x >= 0 { x } else { -x };
    let q = (2 * y + d) / (2 * d);
    assert(-m * d == -(m * d)) by (nonlinear_arith);
    assert(0 <= q <= m) by (nonlinear_arith)
        requires
            q == (2 * y + d) / (2 * d),
            0 <= y <= m * d,
            d > 0,
    {
        assert(2 * y + d < 2 * d * (m + 1));
        assert(q < m + 1);
    }
}

fn round_of(x: i128, d: i128) -> (r: i128)
    requires
        0 < d <= 0x1_0000_0000_0000_0000_0000,
        -0x1_0000_0000_0000_0000_0000_0000 <= x <= 0x1_0000_0000_0000_0000_0000_0000,
    ensures
        r == rounded(x as int, d as int),
        -0x2_0000_0000_0000_0000_0000_0000 <= r <= 0x2_0000_0000_0000_0000_0000_0000,
{
    proof {
        let y = if x >= 0 { x as int } else { -(x as int) };
        let m = 0x1_0000_0000_0000_0000_0000_0000int;
        assert(y <= m * d) by (nonlinear_arith)
            requires
                y <= m,
                d >= 1,
                m > 0,
        ;
        assert(-m * d == -(m * d)) by (nonlinear_arith);
        lemma_rounded_bound(x as int, d as int, m);
    }
    if x >= 0 {
        (2 * x + d) / (2 * d)
    } else {
        -((2 * (-x) + d) / (2 * d))
    }
}

/// An angle in steps of `180 / 2^23` degrees, as 24 bits in two's complement.
#[must_use]
pub fn encode_semicircle(deg: Ratio) -> (v: u32)
    ensures
        v == semicircle_of(deg@),
        v < 16_777_216,
{
    let num: i64 = deg.num();
    let den: i64 = deg.den();
    let r: i128 = round_of(num as i128 * 8_388_608, 180 * den as i128);
    proof {
        let x = num * 8_388_608;
        let d = 180 * den;
        assert(-33_554_432 * d <= x <= 33_554_432 * d) by (nonlinear_arith)
            requires
                -720 * den <= num <= 720 * den,
                x == num * 8_388_608,
                d == 180 * den,
        ;
        lemma_rounded_bound(x, d, 33_554_432);
    }
    ((r + 33_554_432) % 16_777_216) as u32
}

/// An altitude in steps of 25 ft from -1000 ft on.
#[must_use]
pub fn encode_altitude(alt_ft: Option<i32>) -> (v: u32)
    ensures
        v == altitude_field(alt_ft),
        v <= 0xFFF,
{
    match alt_ft {
        Some(ft) => {
            if ft < -1000 {
                return 0;
            }
            let raw: i64 = (ft as i64 + 1000) / 25;
            if raw > 0xFFE {
                0xFFE
            } else {
                raw as u32
            }
        },
        None => 0xFFF,
    }
}

fn encode_speed(gs_um_s: Option<i64>) -> (v: u32)
    ensures
        v == speed_field(gs_um_s),
        v <= 0xFFF,
{
    match gs_um_s {
        Some(um) => {
            let kt: i128 = round_of(um as i128 * 194_384, 100_000_000_000);
            if kt < 0 {
                0
            } else if kt > 0xFFE {
                0xFFE
            } else {
                kt as u32
            }
        },
        None => 0xFFF,
    }
}

fn encode_rate(vr_um_s: Option<i64>) -> (v: u32)
    ensures
        v == rate_field(vr_um_s),
        v < 4096,
{
    match vr_um_s {
        Some(um) => {
            let fpm: i128 = round_of(um as i128 * 19_685, 100_000_000);
            let steps: i128 = if fpm >= 0 {
                fpm / 64
            } else {
                -((-fpm) / 64)
            };
            let clamped: i128 = if steps > 510 {
                510
            } else if steps < -510 {
                -510
            } else {
                steps
            };
            ((clamped + 4096) % 4096) as u32
        },
        None => 0x800,
    }
}

fn encode_direction(v: &Option<SnapshotVelocity>) -> (b: u8)
    ensures
        b == direction_field(direction_of(*v)),
{
    let deg: Option<Ratio> = match v {
        Some(v) => match v.track_deg {
            Some(t) => Some(t),
            None => v.heading_deg,
        },
        None => None,
    };
    match deg {
        Some(d) => {
            let num: i64 = d.num();
            let den: i64 = d.den();
            let r: i128 = round_of(256 * num as i128, 360 * den as i128);
            proof {
                let x = 256 * num;
                let e = 360 * den;
                assert(-512 * e <= x <= 512 * e) by (nonlinear_arith)
                    requires
                        -720 * den <= num <= 720 * den,
                        x == 256 * num,
                        e == 360 * den,
                ;
                lemma_rounded_bound(x, e, 512);
            }
            ((r + 512) % 256) as u8
        },
        None => 0,
    }
}

fn callsign_byte_of(b: u8) -> (c: u8)
    ensures
        c == callsign_byte(b),
{
    if (48 <= b && b <= 57) || (65 <= b && b <= 90) {
        b
    } else if 97 <= b && b <= 122 {
        b - 32
    } else {
        0x20
    }
}

fn callsign_bytes(text: &[u8]) -> (c: [u8; 8])
    ensures
        c@ == callsign_field(text@),
{
    let mut c: [u8; 8] = [0x20; 8];
    let mut i: usize = 0;
    while i < 8
        invariant
            i <= 8,
            forall|k: int| 0 <= k < i ==> c@[k] == callsign_field(text@)[k],
            forall|k: int| i <= k < 8 ==> c@[k] == 0x20,
        decreases 8 - i,
    {
        if i < text.len() {
            c[i] = callsign_byte_of(text[i]);
        }
        i += 1;
    }
    assert(c@ =~= callsign_field(text@));
    c
}

fn name_field(a: &AircraftSnapshot) -> (c: [u8; 8])
    ensures
        c@ == callsign_field(name_bytes(*a)),
{
    match &a.callsign {
        Some(s) => callsign_bytes(s.as_str().as_bytes()),
        None => {
            let b: [u8; 3] = a.icao.to_bytes();
            let text: [u8; 6] = [
                hex_char(b[0] / 16) as u8,
                hex_char(b[0] % 16) as u8,
                hex_char(b[1] / 16) as u8,
                hex_char(b[1] % 16) as u8,
                hex_char(b[2] / 16) as u8,
                hex_char(b[2] % 16) as u8,
            ];
            assert(text@ =~= name_bytes(*a));
            callsign_bytes(text.as_slice())
        },
    }
}

/// The traffic report of an aircraft; nothing if its position is not known.
#[must_use]
pub fn encode_traffic(a: &AircraftSnapshot) -> (out: Option<Vec<u8>>)
    ensures
        match out {
            Some(v) => a.position is Some && v@ == framed(traffic_payload(*a)),
            None => a.position is None,
        },
{
    let position = match &a.position {
        Some(p) => p,
        None => {
            return None;
        },
    };
    let icao: [u8; 3] = a.icao.to_bytes();
    let lat: u32 = encode_semicircle(position.lat);
    let lon: u32 = encode_semicircle(position.lon);
    let alt: u32 = encode_altitude(position.alt_ft);
    let gs: Option<i64> = match &a.velocity {
        Some(v) => v.gs_um_s,
        None => None,
    };
    let vr: Option<i64> = match &a.velocity {
        Some(v) => v.vr_um_s,
        None => None,
    };
    let h: u32 = encode_speed(gs);
    let v: u32 = encode_rate(vr);
    let track: u8 = encode_direction(&a.velocity);
    let cs: [u8; 8] = name_field(a);
    let buf: [u8; 28] = [
        0x14,
        0x00,
        icao[0],
        icao[1],
        icao[2],
        (lat / 65_536 % 256) as u8,
        (lat / 256 % 256) as u8,
        (lat % 256) as u8,
        (lon / 65_536 % 256) as u8,
        (lon / 256 % 256) as u8,
        (lon % 256) as u8,
        (alt / 16) as u8,
        (alt % 16 * 16 + 9) as u8,
        0x88,
        (h / 16) as u8,
        (h % 16 * 16 + v / 256) as u8,
        (v % 256) as u8,
        track,
        0x00,
        cs[0],
        cs[1],
        cs[2],
        cs[3],
        cs[4],
        cs[5],
        cs[6],
        cs[7],
        0x00,
    ];
    assert(buf@ =~= traffic_payload(*a));
    Some(frame(buf.as_slice()))
}

/// The traffic reports of the aircraft whose position is known, in order.
pub open spec fn reports_of(fleet: Seq<AircraftSnapshot>) -> Seq<Seq<u8>>
    decreases fleet.len(),
{
    if fleet.len() == 0 {
        Seq::empty()
    } else {
        let rest = reports_of(fleet.drop_last());
        if fleet.last().position is Some {
            rest.push(framed(traffic_payload(fleet.last())))
        } else {
            rest
        }
    }
}

/// The packets to send once a second: the heartbeat, the identification, and a traffic
/// report for every aircraft whose position is known.
pub open spec fn tick_of(seconds: u32, fleet: Seq<AircraftSnapshot>) -> Seq<Seq<u8>> {
    seq![framed(heartbeat_payload(seconds)), framed(identification_payload())] + reports_of(fleet)
}

/// The packets to send once a second, at a time of day.
#[must_use]
pub fn tick_packets(seconds: u32, fleet: &[AircraftSnapshot]) -> (out: Vec<Vec<u8>>)
    ensures
        out@.len() == tick_of(seconds, fleet@).len(),
        forall|i: int| 0 <= i < out@.len() ==> (#[trigger] out@[i])@ == tick_of(seconds, fleet@)[i],
{
    let mut out: Vec<Vec<u8>> = Vec::new();
    out.push(encode_heartbeat(seconds));
    out.push(encode_foreflight_id());
    let ghost head = seq![framed(heartbeat_payload(seconds)), framed(identification_payload())];
    let mut i: usize = 0;
    while i < fleet.len()
        invariant
            i <= fleet@.len(),
            head.len() == 2,
            out@.len() == 2 + reports_of(fleet@.take(i as int)).len(),
            forall|k: int| 0 <= k < out@.len() ==> (#[trigger] out@[k])@ == (head + reports_of(fleet@.take(i as int)))[k],
        decreases fleet@.len() - i,
    {
        assert(fleet@.take(i + 1).drop_last() =~= fleet@.take(i as int));
        let ghost sofar = reports_of(fleet@.take(i as int));
        let ghost before = out@;
        if let Some(packet) = encode_traffic(&fleet[i]) {
            out.push(packet);
            assert forall|k: int| 0 <= k < out@.len() implies (#[trigger] out@[k])@ == (head + sofar.push(packet@))[k] by {
                if k < before.len() {
                    assert(out@[k] == before[k]);
                    assert((head + sofar.push(packet@))[k] == (head + sofar)[k]);
                }
            }
        }
        i += 1;
    }
    assert(fleet@.take(fleet@.len() as int) =~= fleet@);
    out
}

// --- Reading back ------------------------------------------------------------

/// The number that bits write in two's complement, half of `range` and above being
/// negative.
pub open spec fn signed_field(v: int, range: int) -> int {
    if 2 * v >= range {
        v - range
    } else {
        v
    }
}

pub open spec fn magnitude_of(x: int) -> int {
    if x < 0 {
        -x
    } else {
        x
    }
}

/// Read in two's complement, the vertical velocity has the sign of the vertical rate, and
/// counts the whole steps of 64 feet per minute in it: a receiver that multiplies it by 64
/// gets back the rate of a climb as well as of a descent to less than a step, rounding to
/// whole feet per minute aside. No more than 510 steps are told, and a rate is never taken
/// for none. A metre per second is 196.85 feet per minute.
pub proof fn law_rate_reads_back(um: i64)
    ensures
        ({
            let f = rate_field(Some(um));
            let s = signed_field(f, 4096);
            // Twice the rate, in hundred-millionths of a foot per minute.
            let x = 39_370 * um;
            &&& 0 <= f < 4096
            &&& f != 0x800
            &&& rate_field(None) == 0x800
            &&& -510 <= s <= 510
            &&& um > 0 ==> s >= 0
            &&& um < 0 ==> s <= 0
            &&& 12_800_000_000 * magnitude_of(s) <= magnitude_of(x) + 100_000_000
            &&& magnitude_of(s) < 510 ==> magnitude_of(x) <= 12_800_000_000 * magnitude_of(s)
                + 12_700_000_000
        }),
{
    let f = rate_field(Some(um));
    let x = um * 19_685;
    let fpm = rounded(x, 100_000_000);
    let y = magnitude_of(x);
    let q = (2 * y + 100_000_000) / 200_000_000;
    assert(magnitude_of(fpm) == q);
    assert(200_000_000 * q <= 2 * y + 100_000_000 < 200_000_000 * q + 200_000_000);
    let steps = q / 64;
    assert(64 * steps <= q <= 64 * steps + 63);
    let s = signed_field(f, 4096);
    assert(magnitude_of(s) == if steps > 510 {
        510
    } else {
        steps
    });
    let twice = 39_370 * um;
    assert(magnitude_of(twice) == 2 * y);
    assert(64 * magnitude_of(s) <= q);
    assert(12_800_000_000 * magnitude_of(s) <= 200_000_000 * q);
    assert(12_800_000_000 * magnitude_of(s) <= magnitude_of(twice) + 100_000_000);
}

/// A ground speed is told to the nearest knot, from zero to 4094. A metre per second is
/// 1.94384 knots.
pub proof fn law_speed_reads_back(um: i64)
    ensures
        ({
            let f = speed_field(Some(um));
            // Twice the speed, in units of a hundred-thousand-millionth of a knot.
            let x = 388_768 * um;
            &&& 0 <= f <= 0xFFE
            &&& speed_field(None) == 0xFFF
            &&& 0 < f < 0xFFE ==> 100_000_000_000 * (2 * f - 1) <= x <= 100_000_000_000 * (2 * f
                + 1)
            &&& f == 0 ==> x <= 100_000_000_000
            &&& f == 0xFFE ==> x >= 100_000_000_000 * 8187
        }),
{
    let x = um * 194_384;
    let y = magnitude_of(x);
    let q = (2 * y + 100_000_000_000) / 200_000_000_000;
    assert(magnitude_of(rounded(x, 100_000_000_000)) == q);
    assert(200_000_000_000 * q <= 2 * y + 100_000_000_000 < 200_000_000_000 * q + 200_000_000_000);
    let f = speed_field(Some(um));
    let twice = 388_768 * um;
    assert(twice == 2 * x);
    assert(0 < f < 0xFFE ==> f == q && x == y);
}

/// A direction is told to the nearest 256th of a turn, up to full turns.
pub proof fn law_direction_reads_back(deg: Ratio)
    requires
        deg@.valid(),
    ensures
        ({
            let f = direction_field(Some(deg));
            &&& 0 <= f < 256
            &&& direction_field(None) == 0
            &&& exists|turns: int|
                -360 * deg@.den <= 2 * (256 * deg@.num - 360 * deg@.den * #[trigger] (f + 256 * turns)) <= 360 * deg@.den
        }),
{
    let x = 256 * deg@.num;
    let e = 360 * deg@.den;
    let r = rounded(x, e);
    lemma_rounded_near(x, e);
    let turns = r / 256;
    assert(r == r % 256 + 256 * turns);
    assert(e * r == r * e) by (nonlinear_arith);
}

/// The nearest integer is at most half away.
pub proof fn lemma_rounded_near(x: int, d: int)
    requires
        d > 0,
    ensures
        -d <= 2 * (x - d * rounded(x, d)) <= d,
{
    let y = magnitude_of(x);
    let q = (2 * y + d) / (2 * d);
    vstd::arithmetic::div_mod::lemma_fundamental_div_mod(2 * y + d, 2 * d);
    vstd::arithmetic::div_mod::lemma_mod_bound(2 * y + d, 2 * d);
    assert((2 * d) * q == 2 * (d * q)) by (nonlinear_arith);
    assert(d * (-q) == -(d * q)) by (nonlinear_arith);
}

/// Read in two's complement, a latitude or longitude is told to the nearest step of
/// `180 / 2^23` degrees. Half a turn to the east is told as half a turn to the west.
pub proof fn law_semicircle_reads_back(deg: Fraction)
    requires
        0 < deg.den,
        deg.within(-180, 180),
    ensures
        ({
            let v = signed_field(semicircle_of(deg), 16_777_216);
            let w = if v == -8_388_608 && deg.num > 0 {
                8_388_608int
            } else {
                v
            };
            &&& -8_388_608 <= v < 8_388_608
            &&& -180 * deg.den <= 2 * (8_388_608 * deg.num - 180 * deg.den * w) <= 180 * deg.den
        }),
{
    let x = deg.num * 8_388_608;
    let d = 180 * deg.den;
    assert(-8_388_608 * d <= x <= 8_388_608 * d);
    lemma_rounded_bound(x, d, 8_388_608);
    lemma_rounded_near(x, d);
    let r = rounded(x, d);
    let v = signed_field(semicircle_of(deg), 16_777_216);
    if r < 8_388_608 {
        assert(v == r);
        // A place to the east is not rounded to half a turn west.
        assert(r == -8_388_608 ==> d * r == -8_388_608 * d) by (nonlinear_arith);
    } else {
        assert(d * r == 8_388_608 * d) by (nonlinear_arith)
            requires
                r == 8_388_608,
        ;
        assert(v == -8_388_608);
    }
}

/// An altitude from -1000 ft on is told as the whole steps of 25 ft above that, no more
/// than 4094. What lies below counts as -1000 ft.
pub proof fn law_altitude_reads_back(ft: i32)
    ensures
        ({
            let f = altitude_field(Some(ft));
            &&& 0 <= f <= 0xFFE
            &&& altitude_field(None) == 0xFFF
            &&& ft >= -1000 && f < 0xFFE ==> 25 * f - 1000 <= ft < 25 * f - 975
            &&& ft < -1000 ==> f == 0
            &&& f == 0xFFE ==> ft >= 25 * 0xFFE - 1000
        }),
{
}

/// A receiver reads from a traffic report what was put into it: the kind of message, no
/// alert and an ordinary address, the address, the position, the altitude, that the
/// aircraft is airborne and its track true, the accuracy, the speed, the vertical rate and
/// the direction, no category, eight characters, and no emergency.
pub proof fn law_traffic_report_reads_back(a: AircraftSnapshot)
    requires
        a.position is Some,
    ensures
        ({
            let b = traffic_payload(a);
            let p = a.position->0;
            let gs = if a.velocity is Some {
                a.velocity->0.gs_um_s
            } else {
                None
            };
            let vr = if a.velocity is Some {
                a.velocity->0.vr_um_s
            } else {
                None
            };
            &&& b.len() == 28
            &&& b[0] == 20
            &&& b[1] == 0
            &&& 65_536 * b[2] + 256 * b[3] + b[4] == a.icao.0 % 16_777_216
            &&& 65_536 * b[5] + 256 * b[6] + b[7] == semicircle_of(p.lat@)
            &&& 65_536 * b[8] + 256 * b[9] + b[10] == semicircle_of(p.lon@)
            &&& 16 * b[11] + b[12] / 16 == altitude_field(p.alt_ft)
            &&& b[12] % 16 == 9
            &&& b[13] == 0x88
            &&& 16 * b[14] + b[15] / 16 == speed_field(gs)
            &&& 256 * (b[15] % 16) + b[16] == rate_field(vr)
            &&& b[17] == direction_field(direction_of(a.velocity))
            &&& b[18] == 0
            &&& b.subrange(19, 27) == callsign_field(name_bytes(a))
            &&& b[27] == 0
        }),
{
    let p = a.position->0;
    let b = traffic_payload(a);
    let gs = if a.velocity is Some {
        a.velocity->0.gs_um_s
    } else {
        None
    };
    let vr = if a.velocity is Some {
        a.velocity->0.vr_um_s
    } else {
        None
    };
    lemma_fields_fit(a);
    lemma_report_fields(
        b,
        a.icao.0,
        semicircle_of(p.lat@),
        semicircle_of(p.lon@),
        altitude_field(p.alt_ft),
        speed_field(gs),
        rate_field(vr),
        direction_field(direction_of(a.velocity)),
        callsign_field(name_bytes(a)),
    );
}

proof fn lemma_report_fields(
    b: Seq<u8>,
    icao: u32,
    lat: int,
    lon: int,
    alt: int,
    h: int,
    v: int,
    dir: int,
    name: Seq<u8>,
)
    requires
        0 <= lat < 16_777_216,
        0 <= lon < 16_777_216,
        0 <= alt < 4096,
        0 <= h < 4096,
        0 <= v < 4096,
        0 <= dir < 256,
        name.len() == 8,
        b == seq![0x14u8, 0x00] + address_bytes(icao) + bytes_of_24(lat) + bytes_of_24(lon) + seq![
            (alt / 16) as u8,
            (alt % 16 * 16 + 9) as u8,
            0x88u8,
            (h / 16) as u8,
            (h % 16 * 16 + v / 256) as u8,
            (v % 256) as u8,
            dir as u8,
            0x00u8,
        ] + name + seq![0x00u8],
    ensures
        b.len() == 28,
        b[0] == 20,
        b[1] == 0,
        65_536 * b[2] + 256 * b[3] + b[4] == icao % 16_777_216,
        65_536 * b[5] + 256 * b[6] + b[7] == lat,
        65_536 * b[8] + 256 * b[9] + b[10] == lon,
        16 * b[11] + b[12] / 16 == alt,
        b[12] % 16 == 9,
        b[13] == 0x88,
        16 * b[14] + b[15] / 16 == h,
        256 * (b[15] % 16) + b[16] == v,
        b[17] == dir,
        b[18] == 0,
        b.subrange(19, 27) == name,
        b[27] == 0,
{
    let mid = seq![
        (alt / 16) as u8,
        (alt % 16 * 16 + 9) as u8,
        0x88u8,
        (h / 16) as u8,
        (h % 16 * 16 + v / 256) as u8,
        (v % 256) as u8,
        dir as u8,
        0x00u8,
    ];
    lemma_report_parts(
        b,
        seq![0x14u8, 0x00],
        address_bytes(icao),
        bytes_of_24(lat),
        bytes_of_24(lon),
        mid,
        name,
        seq![0x00u8],
    );
    lemma_24_bits_read_back(b, 5, lat);
    lemma_24_bits_read_back(b, 8, lon);
    lemma_address_reads_back(b, icao);
    lemma_middle_reads_back(b, mid, alt, h, v, dir);
}

/// Where the parts of a report lie.
proof fn lemma_report_parts(
    b: Seq<u8>,
    head: Seq<u8>,
    icao: Seq<u8>,
    lat: Seq<u8>,
    lon: Seq<u8>,
    mid: Seq<u8>,
    name: Seq<u8>,
    tail: Seq<u8>,
)
    requires
        head.len() == 2,
        icao.len() == 3,
        lat.len() == 3,
        lon.len() == 3,
        mid.len() == 8,
        name.len() == 8,
        tail.len() == 1,
        b == head + icao + lat + lon + mid + name + tail,
    ensures
        b.len() == 28,
        b[0] == head[0],
        b[1] == head[1],
        b.subrange(2, 5) == icao,
        b.subrange(5, 8) == lat,
        b.subrange(8, 11) == lon,
        forall|k: int| 0 <= k < 8 ==> b[11 + k] == #[trigger] mid[k],
        b.subrange(19, 27) == name,
        b[27] == tail[0],
{
    assert(b.subrange(2, 5) =~= icao);
    assert(b.subrange(5, 8) =~= lat);
    assert(b.subrange(8, 11) =~= lon);
    assert(b.subrange(19, 27) =~= name);
}

proof fn lemma_24_bits_read_back(b: Seq<u8>, at: int, v: int)
    requires
        0 <= v < 16_777_216,
        0 <= at <= b.len() - 3,
        b.subrange(at, at + 3) == bytes_of_24(v),
    ensures
        65_536 * b[at] + 256 * b[at + 1] + b[at + 2] == v,
{
    let s = b.subrange(at, at + 3);
    assert(s[0] == b[at] && s[1] == b[at + 1] && s[2] == b[at + 2]);
}

proof fn lemma_address_reads_back(b: Seq<u8>, icao: u32)
    requires
        b.len() >= 5,
        b.subrange(2, 5) == address_bytes(icao),
    ensures
        65_536 * b[2] + 256 * b[3] + b[4] == icao % 16_777_216,
{
    let s = b.subrange(2, 5);
    assert(s[0] == b[2] && s[1] == b[3] && s[2] == b[4]);
}

proof fn lemma_middle_reads_back(b: Seq<u8>, mid: Seq<u8>, alt: int, h: int, v: int, dir: int)
    requires
        0 <= alt < 4096,
        0 <= h < 4096,
        0 <= v < 4096,
        0 <= dir < 256,
        forall|k: int| 0 <= k < 8 ==> b[11 + k] == #[trigger] mid[k],
        mid == seq![
            (alt / 16) as u8,
            (alt % 16 * 16 + 9) as u8,
            0x88u8,
            (h / 16) as u8,
            (h % 16 * 16 + v / 256) as u8,
            (v % 256) as u8,
            dir as u8,
            0x00u8,
        ],
    ensures
        16 * b[11] + b[12] / 16 == alt,
        b[12] % 16 == 9,
        b[13] == 0x88,
        16 * b[14] + b[15] / 16 == h,
        256 * (b[15] % 16) + b[16] == v,
        b[17] == dir,
        b[18] == 0,
{
    assert(b[11] == mid[0] && b[12] == mid[1] && b[13] == mid[2] && b[14] == mid[3]);
    assert(b[15] == mid[4] && b[16] == mid[5] && b[17] == mid[6] && b[18] == mid[7]);
}

proof fn lemma_fields_fit(a: AircraftSnapshot)
    requires
        a.position is Some,
    ensures
        ({
            let p = a.position->0;
            let gs = if a.velocity is Some {
                a.velocity->0.gs_um_s
            } else {
                None
            };
            let vr = if a.velocity is Some {
                a.velocity->0.vr_um_s
            } else {
                None
            };
            &&& 0 <= semicircle_of(p.lat@) < 16_777_216
            &&& 0 <= semicircle_of(p.lon@) < 16_777_216
            &&& 0 <= altitude_field(p.alt_ft) < 4096
            &&& 0 <= speed_field(gs) < 4096
            &&& 0 <= rate_field(vr) < 4096
            &&& 0 <= direction_field(direction_of(a.velocity)) < 256
        }),
{
    let p = a.position->0;
    if p.alt_ft is Some {
        law_altitude_reads_back(p.alt_ft->0);
    }
    if a.velocity is Some {
        let v = a.velocity->0;
        if v.gs_um_s is Some {
            law_speed_reads_back(v.gs_um_s->0);
        }
        if v.vr_um_s is Some {
            law_rate_reads_back(v.vr_um_s->0);
        }
    }
}

/// A name of letters and digits is told in capitals, its first eight characters, with
/// spaces behind it. Any other character is a space.
pub proof fn law_callsign_reads_back(text: Seq<u8>, i: int)
    requires
        0 <= i < 8,
    ensures
        callsign_field(text).len() == 8,
        ({
            let c = callsign_field(text)[i];
            if i >= text.len() {
                c == 32
            } else if 97 <= text[i] <= 122 {
                c == text[i] - 32
            } else if 65 <= text[i] <= 90 || 48 <= text[i] <= 57 {
                c == text[i]
            } else {
                c == 32
            }
        }),
{
}

/// The direction told is the track, or else the heading.
pub proof fn law_track_goes_before_heading(v: SnapshotVelocity)
    ensures
        direction_of(None) is None,
        v.track_deg is Some ==> direction_of(Some(v)) == v.track_deg,
        v.track_deg is None ==> direction_of(Some(v)) == v.heading_deg,
{
}

/// The time of day is read back from the 17 bits of a heartbeat, whose other bytes do not
/// change.
pub proof fn law_heartbeat_reads_back(seconds: u32)
    requires
        seconds < 86_400,
    ensures
        ({
            let b = heartbeat_payload(seconds);
            &&& b.len() == 7
            &&& b[0] == 0
            &&& b[1] == 0x81
            &&& b[2] % 128 == 1
            &&& 65_536 * (b[2] / 128) + 256 * b[4] + b[3] == seconds
            &&& b[5] == 0
            &&& b[6] == 0
        }),
{
}

/// The identification is a message of type 0x65, of the first version, with the short name
/// `rs1090` and the long name `rs1090 ADS-B`, both padded with spaces.
pub proof fn law_identification_names_the_source(k: int)
    ensures
        ({
            let b = identification_payload();
            let short = seq!['r', 's', '1', '0', '9', '0'];
            let long = seq!['r', 's', '1', '0', '9', '0', ' ', 'A', 'D', 'S', '-', 'B'];
            &&& b.len() == 39
            &&& b[0] == 0x65
            &&& b[1] == 0
            &&& b[2] == 1
            &&& 0 <= k < 6 ==> b[10 + k] == short[k] as u32
            &&& 6 <= k < 8 ==> b[10 + k] == 32
            &&& 0 <= k < 12 ==> b[18 + k] == long[k] as u32
            &&& 12 <= k < 16 ==> b[18 + k] == 32
            &&& 0 <= k < 5 ==> b[34 + k] == 0
        }),
{
}

/// The name told is the callsign, or the address where there is none.
pub proof fn law_report_names_aircraft(a: AircraftSnapshot)
    ensures
        a.callsign is None ==> name_bytes(a).len() == 6,
        a.callsign is None ==> forall|i: int|
            0 <= i < 6 ==> #[trigger] name_bytes(a)[i] == address_hex(a.icao.0)[i] as u32,
        a.callsign is Some ==> name_bytes(a) == encode_utf8(a.callsign->0@),
{
    if a.callsign is None {
        assert forall|i: int| 0 <= i < 6 implies (#[trigger] address_hex(a.icao.0)[i] as u32) < 128 by {
            let b = crate::message::address_bytes(a.icao.0);
            crate::text::lemma_hex_digits(b[i / 2] as int / 16);
            crate::text::lemma_hex_digits(b[i / 2] as int % 16);
        }
    }
}

/// Every round starts with the heartbeat and the identification, and goes on with a report
/// of each aircraft whose position is known, in order.
pub proof fn law_round_tells_all(seconds: u32, fleet: Seq<AircraftSnapshot>, i: int)
    requires
        0 <= i < fleet.len(),
        fleet[i].position is Some,
    ensures
        tick_of(seconds, fleet).len() >= 3,
        tick_of(seconds, fleet)[0] == framed(heartbeat_payload(seconds)),
        tick_of(seconds, fleet)[1] == framed(identification_payload()),
        reports_of(fleet).contains(framed(traffic_payload(fleet[i]))),
        tick_of(seconds, fleet).skip(2) == reports_of(fleet),
{
    lemma_reported(fleet, i);
    assert(tick_of(seconds, fleet).skip(2) =~= reports_of(fleet));
}

proof fn lemma_reported(fleet: Seq<AircraftSnapshot>, i: int)
    requires
        0 <= i < fleet.len(),
        fleet[i].position is Some,
    ensures
        reports_of(fleet).contains(framed(traffic_payload(fleet[i]))),
        reports_of(fleet).len() >= 1,
    decreases fleet.len(),
{
    let front = fleet.drop_last();
    let n = fleet.len() - 1;
    if i < n {
        assert(front[i] == fleet[i]);
        lemma_reported(front, i);
        let x = framed(traffic_payload(fleet[i]));
        let k = reports_of(front).index_of(x);
        assert(reports_of(fleet)[k] == x);
    } else {
        let last = reports_of(fleet).len() - 1;
        assert(reports_of(fleet)[last] == framed(traffic_payload(fleet[i])));
    }
}

} // verus!

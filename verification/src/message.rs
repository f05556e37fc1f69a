//! Message decoding.
//!
//! The downlink format picks the message family; for extended squitters the type
//! code, the high five bits of the 56-bit message field, picks the payload.
//!
//! Fields of the message field are named by their last bit, counted from 1 at the
//! most significant bit, and their width.

use crate::cpr::CprPosition;
use crate::frame::{DownlinkFormat, Frame, FrameModel};
use crate::magnitude::{isqrt_floor, is_sqrt_floor, lemma_sqrt_floor, sqrt_floor};
use crate::numeral::chars_of;
use crate::text::{
    all_ascii, empty_28, empty_6, empty_8, hex_char, hex_of, hex_value, hex_value_of,
    lemma_hex_digits, pop_8, push_28, push_6, push_8, str_of_8, text_of_28, text_of_6, text_of_8,
};
use arrayvec::ArrayString;
use vstd::arithmetic::power2::{lemma2_to64, lemma_pow2_pos, pow2};
use vstd::bits::{lemma_u64_shl_is_mul, lemma_u64_shr_is_div};
use vstd::prelude::*;
use vstd::string::StrSliceExecFns;

verus! {

// --- Address -----------------------------------------------------------------

/// The 24-bit aircraft address, in the low bits.
#[derive(Debug, Clone, Copy, PartialEq, Eq, Hash, PartialOrd, Ord, Structural)]
pub struct Icao(pub u32);

/// The number that three bytes write, most significant first.
pub open spec fn address_of(b: Seq<u8>) -> u32 {
    (65_536 * b[0] + 256 * b[1] + b[2]) as u32
}

/// The low 24 bits of an address, most significant byte first.
pub open spec fn address_bytes(v: u32) -> Seq<u8> {
    seq![(v / 65_536 % 256) as u8, (v / 256 % 256) as u8, (v % 256) as u8]
}

/// The six digits of an address.
pub open spec fn address_hex(v: u32) -> Seq<char> {
    hex_of(address_bytes(v))
}

/// The address that six hexadecimal digits of either case write.
pub open spec fn address_of_hex(s: Seq<char>) -> Option<u32> {
    if s.len() == 6 && forall|i: int| 0 <= i < 6 ==> hex_value(#[trigger] s[i]) is Some {
        Some(
            (1_048_576 * hex_value(s[0])->0 + 65_536 * hex_value(s[1])->0 + 4096 * hex_value(s[2])->0 + 256
                * hex_value(s[3])->0 + 16 * hex_value(s[4])->0 + hex_value(s[5])->0) as u32,
        )
    } else {
        None
    }
}

/// The bytes of an address give it back.
pub proof fn law_address_round_trips(b: Seq<u8>)
    requires
        b.len() == 3,
    ensures
        address_bytes(address_of(b)) == b,
        address_of(b) < 0x0100_0000,
{
    let v = address_of(b);
    assert(v / 65_536 == b[0]);
    assert(v / 256 == 256 * b[0] + b[1]);
    assert(address_bytes(v) =~= b);
}

/// An address is determined by its bytes.
pub proof fn law_address_bytes_round_trip(v: u32)
    requires
        v < 0x0100_0000,
    ensures
        address_of(address_bytes(v)) == v,
{
}

/// The digits of an address give it back.
pub proof fn law_address_hex_round_trips(v: u32)
    requires
        v < 0x0100_0000,
    ensures
        address_of_hex(address_hex(v)) == Some(v),
{
    let h = address_hex(v);
    let b = address_bytes(v);
    assert forall|i: int| 0 <= i < 6 implies hex_value(#[trigger] h[i]) == Some(
        if i % 2 == 0 {
            b[i / 2] as int / 16
        } else {
            b[i / 2] as int % 16
        },
    ) by {
        lemma_hex_digits(b[i / 2] as int / 16);
        lemma_hex_digits(b[i / 2] as int % 16);
    }
    assert(hex_value(h[0]) == Some(b[0] as int / 16));
    assert(hex_value(h[1]) == Some(b[0] as int % 16));
    assert(hex_value(h[2]) == Some(b[1] as int / 16));
    assert(hex_value(h[3]) == Some(b[1] as int % 16));
    assert(hex_value(h[4]) == Some(b[2] as int / 16));
    assert(hex_value(h[5]) == Some(b[2] as int % 16));
    law_address_bytes_round_trip(v);
}

impl Icao {
    /// The address that three bytes write.
    #[must_use]
    pub fn from_bytes(b: [u8; 3]) -> (icao: Icao)
        ensures
            icao.0 == address_of(b@),
            icao.0 < 0x0100_0000,
    {
        Icao(65_536 * b[0] as u32 + 256 * b[1] as u32 + b[2] as u32)
    }

    /// The address with a given value, if it fits 24 bits.
    #[must_use]
    pub fn from_u24(v: u32) -> (icao: Option<Icao>)
        ensures
            v < 0x0100_0000 ==> icao == Some(Icao(v)),
            v >= 0x0100_0000 ==> icao is None,
    {
        if v < 0x0100_0000 {
            Some(Icao(v))
        } else {
            None
        }
    }

    /// The 24-bit value.
    #[must_use]
    pub fn as_u24(self) -> (v: u32)
        ensures
            v == self.0 % 0x0100_0000,
    {
        self.0 % 0x0100_0000
    }

    /// The zero address.
    #[must_use]
    pub fn zero() -> (icao: Icao)
        ensures
            icao.0 == 0,
    {
        Icao(0)
    }

    /// The three bytes on the wire, most significant first.
    #[must_use]
    pub fn to_bytes(self) -> (b: [u8; 3])
        ensures
            b@ == address_bytes(self.0),
    {
        let b: [u8; 3] = [(self.0 / 65_536 % 256) as u8, (self.0 / 256 % 256) as u8, (self.0 % 256) as u8];
        assert(b@ =~= address_bytes(self.0));
        b
    }

    /// Six upper-case hexadecimal digits.
    #[must_use]
    pub fn to_hex(self) -> (s: ArrayString<6>)
        ensures
            text_of_6(s) == address_hex(self.0),
    {
        let b: [u8; 3] = self.to_bytes();
        let mut s = empty_6();
        let mut i: usize = 0;
        while i < 3
            invariant
                i <= 3,
                b@ == address_bytes(self.0),
                text_of_6(s) == hex_of(b@).take(2 * i),
                all_ascii(text_of_6(s)),
            decreases 3 - i,
        {
            push_6(&mut s, hex_char(b[i] / 16));
            push_6(&mut s, hex_char(b[i] % 16));
            i += 1;
            assert(text_of_6(s) =~= hex_of(b@).take(2 * i));
        }
        assert(hex_of(b@).take(6) =~= hex_of(b@));
        s
    }

    /// The address that six hexadecimal digits of either case write.
    #[must_use]
    pub fn from_hex(s: &str) -> (icao: Option<Icao>)
        ensures
            match icao {
                Some(i) => address_of_hex(s@) == Some(i.0) && i.0 < 0x0100_0000,
                None => address_of_hex(s@) is None,
            },
    {
        Icao::from_hex_digits(chars_of(s).as_slice())
    }

    pub(crate) fn from_hex_digits(s: &[char]) -> (icao: Option<Icao>)
        ensures
            match icao {
                Some(i) => address_of_hex(s@) == Some(i.0) && i.0 < 0x0100_0000,
                None => address_of_hex(s@) is None,
            },
    {
        if s.len() != 6 {
            return None;
        }
        let mut d: [u32; 6] = [0; 6];
        let mut i: usize = 0;
        while i < 6
            invariant
                i <= 6,
                s@.len() == 6,
                forall|k: int| 0 <= k < i ==> hex_value(#[trigger] s@[k]) == Some(d@[k] as int) && d@[k] < 16,
            decreases 6 - i,
        {
            match hex_value_of(s[i]) {
                Some(v) => {
                    d[i] = v as u32;
                },
                None => {
                    assert(hex_value(s@[i as int]) is None);
                    return None;
                },
            }
            i += 1;
        }
        assert(hex_value(s@[0]) is Some && hex_value(s@[1]) is Some && hex_value(s@[2]) is Some && hex_value(s@[3]) is Some
            && hex_value(s@[4]) is Some && hex_value(s@[5]) is Some);
        Some(Icao(1_048_576 * d[0] + 65_536 * d[1] + 4096 * d[2] + 256 * d[3] + 16 * d[4] + d[5]))
    }
}

// --- Type code ---------------------------------------------------------------

/// Type code of an extended squitter.
#[derive(Debug, Clone, Copy, PartialEq, Eq, Structural)]
pub enum TypeCode {
    /// TC 1 to 4: identification and category.
    Identification,
    /// TC 5 to 8: surface position.
    SurfacePosition,
    /// TC 9 to 18 and 20 to 22: airborne position.
    AirbornePosition,
    /// TC 19: airborne velocity.
    Velocity,
    /// TC 28: aircraft status.
    AircraftStatus,
    /// TC 31: operational status.
    OperationalStatus,
    /// Any other code.
    Other(u8),
}

impl TypeCode {
    /// The kind of message with a given code.
    pub open spec fn of(tc: u8) -> TypeCode {
        if 1 <= tc <= 4 {
            TypeCode::Identification
        } else if 5 <= tc <= 8 {
            TypeCode::SurfacePosition
        } else if 9 <= tc <= 18 || 20 <= tc <= 22 {
            TypeCode::AirbornePosition
        } else if tc == 19 {
            TypeCode::Velocity
        } else if tc == 28 {
            TypeCode::AircraftStatus
        } else if tc == 31 {
            TypeCode::OperationalStatus
        } else {
            TypeCode::Other(tc)
        }
    }

    /// A code that stands for the kind of message.
    pub open spec fn representative(self) -> u8 {
        match self {
            TypeCode::Identification => 4,
            TypeCode::SurfacePosition => 8,
            TypeCode::AirbornePosition => 11,
            TypeCode::Velocity => 19,
            TypeCode::AircraftStatus => 28,
            TypeCode::OperationalStatus => 31,
            TypeCode::Other(v) => v,
        }
    }

    /// The kind of message with a given code.
    #[must_use]
    pub fn from_raw(tc: u8) -> (t: TypeCode)
        ensures
            t == TypeCode::of(tc),
    {
        if 1 <= tc && tc <= 4 {
            TypeCode::Identification
        } else if 5 <= tc && tc <= 8 {
            TypeCode::SurfacePosition
        } else if (9 <= tc && tc <= 18) || (20 <= tc && tc <= 22) {
            TypeCode::AirbornePosition
        } else if tc == 19 {
            TypeCode::Velocity
        } else if tc == 28 {
            TypeCode::AircraftStatus
        } else if tc == 31 {
            TypeCode::OperationalStatus
        } else {
            TypeCode::Other(tc)
        }
    }

    /// A code that stands for the kind of message.
    #[must_use]
    pub fn raw_value(self) -> (v: u8)
        ensures
            v == self.representative(),
    {
        match self {
            TypeCode::Identification => 4,
            TypeCode::SurfacePosition => 8,
            TypeCode::AirbornePosition => 11,
            TypeCode::Velocity => 19,
            TypeCode::AircraftStatus => 28,
            TypeCode::OperationalStatus => 31,
            TypeCode::Other(v) => v,
        }
    }
}

/// The representative code of a parsed kind parses to the same kind.
pub proof fn law_type_code_round_trips(tc: u8)
    ensures
        TypeCode::of(TypeCode::of(tc).representative()) == TypeCode::of(tc),
{
}

// --- Payloads ----------------------------------------------------------------

/// Identification and emitter category.
#[derive(Debug, Clone, Copy, PartialEq, Eq)]
pub struct Identification {
    pub callsign: ArrayString<8>,
    /// The type code, which selects a set of categories.
    pub category_set: u8,
    pub category: u8,
}

/// Altitude in feet, by source.
#[derive(Debug, Clone, Copy, PartialEq, Eq, Structural)]
pub enum Altitude {
    /// Barometric altitude in steps of 25 ft.
    BaroFeet(i32),
    /// Barometric altitude in the older encoding, in steps of 100 ft.
    BaroGillhamFeet(i32),
    /// Satellite altitude.
    GnssFeet(i32),
    /// Not reported.
    Unavailable,
}

impl Altitude {
    /// The altitude in feet, whatever its source.
    pub open spec fn in_feet(self) -> Option<i32> {
        match self {
            Altitude::BaroFeet(ft) => Some(ft),
            Altitude::BaroGillhamFeet(ft) => Some(ft),
            Altitude::GnssFeet(ft) => Some(ft),
            Altitude::Unavailable => None,
        }
    }

    /// The altitude in feet, whatever its source.
    #[must_use]
    pub fn feet(self) -> (ft: Option<i32>)
        ensures
            ft == self.in_feet(),
    {
        match self {
            Altitude::BaroFeet(ft) => Some(ft),
            Altitude::BaroGillhamFeet(ft) => Some(ft),
            Altitude::GnssFeet(ft) => Some(ft),
            Altitude::Unavailable => None,
        }
    }

    /// The source that is reported with an altitude.
    pub open spec fn source(self) -> Option<VerticalRateSource> {
        match self {
            Altitude::BaroFeet(_) => Some(VerticalRateSource::Baro),
            Altitude::BaroGillhamFeet(_) => Some(VerticalRateSource::Baro),
            Altitude::GnssFeet(_) => Some(VerticalRateSource::Gnss),
            Altitude::Unavailable => None,
        }
    }

    /// `"baro"` or `"gnss"`; nothing where there is no altitude.
    #[must_use]
    pub fn source_tag(self) -> (t: Option<&'static str>)
        ensures
            match self.source() {
                Some(s) => t is Some && t->0@ == s.tag_text(),
                None => t is None,
            },
    {
        match self {
            Altitude::BaroFeet(_) => Some("baro"),
            Altitude::BaroGillhamFeet(_) => Some("baro"),
            Altitude::GnssFeet(_) => Some("gnss"),
            Altitude::Unavailable => None,
        }
    }
}

/// Airborne position.
#[derive(Debug, Clone, Copy, PartialEq, Eq, Structural)]
pub struct AirbornePosition {
    pub altitude: Altitude,
    pub cpr: CprPosition,
}

/// Airborne velocity. The vertical rate is in feet per minute, positive when
/// climbing.
#[derive(Debug, Clone, Copy, PartialEq, Eq)]
pub struct Velocity {
    pub kind: VelocityKind,
    pub vertical_rate_fpm: Option<i32>,
    pub vertical_rate_source: VerticalRateSource,
}

/// Speed and direction.
#[derive(Debug, Clone, Copy, PartialEq, Eq)]
pub enum VelocityKind {
    /// Ground speed, with its components to the east and to the north. The track
    /// is the direction of the vector they form.
    Ground { speed_kt: u16, east_kt: i16, north_kt: i16 },
    /// Airspeed, with the heading in 1024ths of a turn clockwise from north.
    Airspeed { speed_kt: u16, heading_1024: Option<u16>, magnetic: bool },
}

/// Source of a vertical rate or an altitude.
#[derive(Debug, Clone, Copy, PartialEq, Eq, Structural)]
pub enum VerticalRateSource {
    Baro,
    Gnss,
}

impl VerticalRateSource {
    /// The name of the source.
    pub open spec fn tag_text(self) -> Seq<char> {
        match self {
            VerticalRateSource::Baro => "baro"@,
            VerticalRateSource::Gnss => "gnss"@,
        }
    }

    /// The name of the source.
    #[must_use]
    pub fn tag(self) -> (t: &'static str)
        ensures
            t@ == self.tag_text(),
    {
        match self {
            VerticalRateSource::Baro => "baro",
            VerticalRateSource::Gnss => "gnss",
        }
    }
}

/// A decoded message.
#[derive(Debug, Clone, Copy, PartialEq)]
pub enum Message {
    /// DF 17 and 18.
    ExtendedSquitter(ExtendedSquitter),
    /// DF 11, with the announced address.
    AllCallReply { icao: Icao },
    /// DF 0, 4, 5, 16, 20 and 21. The CRC is combined with the address, which is
    /// not known here; the bytes are kept in hexadecimal.
    SurveillanceReply { df: DownlinkFormat, bytes: ArrayString<28> },
    /// Any other format.
    Other { df: DownlinkFormat },
}

/// An extended squitter.
#[derive(Debug, Clone, Copy, PartialEq)]
pub struct ExtendedSquitter {
    pub icao: Icao,
    pub type_code: TypeCode,
    pub payload: SquitterPayload,
    /// Low three bits of the first byte.
    pub capability: u8,
}

/// Payload of an extended squitter.
#[derive(Debug, Clone, Copy, PartialEq)]
pub enum SquitterPayload {
    Identification(Identification),
    AirbornePosition(AirbornePosition),
    Velocity(Velocity),
    /// Not decoded; the message field as it came.
    Raw([u8; 7]),
}

/// Reasons why a frame cannot be decoded.
#[derive(Debug, Clone, Copy, PartialEq, Eq, Structural)]
pub enum DecodeError {
    /// The frame is too short for its format.
    TruncatedFrame,
    /// The velocity subtype is none of 1 to 4.
    UnsupportedVelocitySubtype(u8),
}

// --- Message field -----------------------------------------------------------

/// The number that the seven bytes of a message field write.
pub open spec fn me_number(me: Seq<u8>) -> int {
    256 * (256 * (256 * (256 * (256 * (256 * me[0] + me[1]) + me[2]) + me[3]) + me[4]) + me[5]) + me[6]
}

/// The field of `width` bits whose last bit is bit `last`.
pub open spec fn me_field(me: Seq<u8>, last: int, width: nat) -> int {
    me_number(me) / (pow2((56 - last) as nat) as int) % (pow2(width) as int)
}

fn me_value(me: &[u8; 7]) -> (v: u64)
    ensures
        v == me_number(me@),
        v < 0x0100_0000_0000_0000,
{
    let a: u64 = 256 * (256 * (256 * me[0] as u64 + me[1] as u64) + me[2] as u64) + me[3] as u64;
    256 * (256 * (256 * a + me[4] as u64) + me[5] as u64) + me[6] as u64
}

fn field_of(v: u64, last: u64, width: u64) -> (f: u64)
    requires
        1 <= width <= 17,
        width <= last <= 56,
    ensures
        f == v as int / (pow2((56 - last) as nat) as int) % (pow2(width as nat) as int),
        f < pow2(width as nat),
        width == 1 ==> f < 2,
        width == 6 ==> f < 64,
        width == 9 ==> f < 512,
        width == 10 ==> f < 1024,
        width == 12 ==> f < 4096,
        width == 17 ==> f < 131_072,
{
    proof {
        lemma2_to64();
        lemma_u64_shr_is_div(v, (56 - last) as u64);
        lemma_pow2_pos((56 - last) as nat);
        lemma_pow2_pos(width as nat);
        vstd::arithmetic::power2::lemma_pow2_strictly_increases(width as nat, 18);
        lemma_u64_shl_is_mul(1, width);
    }
    (v >> (56 - last)) % (1u64 << width)
}

// --- Identification ----------------------------------------------------------

/// The six-bit character set; reserved codes stand as underscores.
pub const CALLSIGN_CHARS: [char; 64] = [
    '_', 'A', 'B', 'C', 'D', 'E', 'F', 'G', 'H', 'I', 'J', 'K', 'L', 'M', 'N', 'O',
    'P', 'Q', 'R', 'S', 'T', 'U', 'V', 'W', 'X', 'Y', 'Z', '_', '_', '_', '_', '_',
    ' ', '_', '_', '_', '_', '_', '_', '_', '_', '_', '_', '_', '_', '_', '_', '_',
    '0', '1', '2', '3', '4', '5', '6', '7', '8', '9', '_', '_', '_', '_', '_', '_',
];

/// The character with a given code.
pub open spec fn callsign_char_of(code: int) -> char {
    if 0 <= code < 64 {
        CALLSIGN_CHARS@[code]
    } else {
        '_'
    }
}

/// Every character of the set is a letter, a digit, a space or an underscore.
pub proof fn lemma_callsign_chars(code: int)
    ensures
        ({
            let u = callsign_char_of(code) as u32;
            65 <= u <= 90 || 48 <= u <= 57 || u == 32 || u == 95
        }),
{
}

/// Codes 1 to 26 are the letters, 32 the space, and 48 to 57 the digits.
pub proof fn law_callsign_set(code: int)
    ensures
        1 <= code <= 26 ==> callsign_char_of(code) as u32 == 64 + code,
        48 <= code <= 57 ==> callsign_char_of(code) as u32 == code,
        code == 32 ==> callsign_char_of(code) == ' ',
        !(1 <= code <= 26) && !(48 <= code <= 57) && code != 32 ==> callsign_char_of(code) == '_',
{
}

/// The character with a given six-bit code.
#[must_use]
pub fn callsign_char(code: u8) -> (c: char)
    ensures
        c == callsign_char_of(code as int),
        (c as u32) < 128,
{
    proof {
        lemma_callsign_chars(code as int);
    }
    if code < 64 {
        CALLSIGN_CHARS[code as usize]
    } else {
        '_'
    }
}

/// Whether a character pads a callsign.
pub open spec fn is_padding(c: char) -> bool {
    c == ' ' || c == '_'
}

/// The text without the padding at its end.
pub open spec fn stripped(s: Seq<char>) -> Seq<char>
    decreases s.len(),
{
    if s.len() > 0 && is_padding(s.last()) {
        stripped(s.drop_last())
    } else {
        s
    }
}

/// The eight characters of an identification, as sent.
pub open spec fn callsign_sent(me: Seq<u8>) -> Seq<char> {
    Seq::new(8, |k: int| callsign_char_of(me_field(me, 14 + 6 * k, 6)))
}

/// The callsign of an identification.
pub open spec fn callsign_of(me: Seq<u8>) -> Seq<char> {
    stripped(callsign_sent(me))
}

/// A stripped text is the longest part of the text, from its start, that does not
/// end in padding.
pub proof fn law_stripped(s: Seq<char>)
    ensures
        stripped(s).len() <= s.len(),
        stripped(s) == s.take(stripped(s).len() as int),
        stripped(s).len() > 0 ==> !is_padding(stripped(s).last()),
        forall|i: int| stripped(s).len() <= i < s.len() ==> is_padding(#[trigger] s[i]),
    decreases s.len(),
{
    if s.len() > 0 && is_padding(s.last()) {
        law_stripped(s.drop_last());
        let t = stripped(s);
        assert(s.drop_last().take(t.len() as int) =~= s.take(t.len() as int));
        assert forall|i: int| t.len() <= i < s.len() implies is_padding(#[trigger] s[i]) by {
            if i < s.len() - 1 {
                assert(s[i] == s.drop_last()[i]);
            }
        }
    } else {
        assert(s.take(s.len() as int) =~= s);
    }
}

/// Decodes an identification.
#[must_use]
pub fn decode_identification(me: [u8; 7]) -> (id: Identification)
    ensures
        text_of_8(id.callsign) == callsign_of(me@),
        id.category_set == me@[0] / 8,
        id.category == me@[0] % 8,
        all_ascii(text_of_8(id.callsign)),
        text_of_8(id.callsign).len() <= 8,
{
    let bits: u64 = me_value(&me);
    let ghost sent = callsign_sent(me@);
    let mut callsign = empty_8();
    let mut k: usize = 0;
    while k < 8
        invariant
            k <= 8,
            bits == me_number(me@),
            sent == callsign_sent(me@),
            text_of_8(callsign) == sent.take(k as int),
            all_ascii(text_of_8(callsign)),
        decreases 8 - k,
    {
        let code: u64 = field_of(bits, 14 + 6 * k as u64, 6);
        push_8(&mut callsign, callsign_char(code as u8));
        k += 1;
        assert(text_of_8(callsign) =~= sent.take(k as int));
    }
    assert(sent.take(8) =~= sent);
    let mut done: bool = false;
    while !done
        invariant
            stripped(text_of_8(callsign)) == callsign_of(me@),
            text_of_8(callsign).len() <= 8,
            all_ascii(text_of_8(callsign)),
            done ==> text_of_8(callsign) == callsign_of(me@),
        decreases text_of_8(callsign).len(), (if done { 0int } else { 1int }),
    {
        let text = str_of_8(&callsign);
        let n: usize = text.unicode_len();
        if n == 0 {
            done = true;
        } else {
            let last: char = text.get_char(n - 1);
            if last == ' ' || last == '_' {
                pop_8(&mut callsign);
            } else {
                done = true;
            }
        }
    }
    Identification { callsign, category_set: me[0] / 8, category: me[0] % 8 }
}

/// An identification field packed from a type code, a category and eight characters of
/// six bits each, most significant first, is unpacked to the same: letters are sent as 1
/// to 26, the space as 32 and digits as 48 to 57. Any other code is an underscore.
pub proof fn law_identification_unpacks(me: Seq<u8>, tc: int, category: int, codes: Seq<int>, k: int)
    requires
        0 <= tc < 32,
        0 <= category < 8,
        codes.len() == 8,
        forall|i: int| 0 <= i < 8 ==> 0 <= #[trigger] codes[i] < 64,
        0 <= k < 8,
        me_number(me) == ((((((((tc * 8 + category) * 64 + codes[0]) * 64 + codes[1]) * 64 + codes[2]) * 64 + codes[3])
            * 64 + codes[4]) * 64 + codes[5]) * 64 + codes[6]) * 64 + codes[7],
    ensures
        me[0] / 8 == tc,
        me[0] % 8 == category,
        callsign_sent(me).len() == 8,
        ({
            let c = callsign_sent(me)[k] as u32;
            if 1 <= codes[k] <= 26 {
                c == 'A' as u32 + codes[k] - 1
            } else if 48 <= codes[k] <= 57 {
                c == '0' as u32 + codes[k] - 48
            } else if codes[k] == 32 {
                c == ' ' as u32
            } else {
                c == '_' as u32
            }
        }),
{
    lemma2_to64();
    vstd::arithmetic::power2::lemma2_to64_rest();
    let v = me_number(me);
    let p0 = tc * 8 + category;
    let p1 = p0 * 64 + codes[0];
    let p2 = p1 * 64 + codes[1];
    let p3 = p2 * 64 + codes[2];
    let p4 = p3 * 64 + codes[3];
    let p5 = p4 * 64 + codes[4];
    let p6 = p5 * 64 + codes[5];
    let p7 = p6 * 64 + codes[6];
    let l7 = codes[7];
    let l6 = codes[6] * 64 + l7;
    let l5 = codes[5] * 4096 + l6;
    let l4 = codes[4] * 262_144 + l5;
    let l3 = codes[3] * 16_777_216 + l4;
    let l2 = codes[2] * 1_073_741_824 + l3;
    let l1 = codes[1] * 68_719_476_736 + l2;
    let l0 = codes[0] * 4_398_046_511_104 + l1;
    lemma_first_byte(me, p0, l0);
    lemma_field_unpacks(v, 1, 64, p7, codes[7], 0);
    lemma_field_unpacks(v, 64, 64, p6, codes[6], l7);
    lemma_field_unpacks(v, 4096, 64, p5, codes[5], l6);
    lemma_field_unpacks(v, 262_144, 64, p4, codes[4], l5);
    lemma_field_unpacks(v, 16_777_216, 64, p3, codes[3], l4);
    lemma_field_unpacks(v, 1_073_741_824, 64, p2, codes[2], l3);
    lemma_field_unpacks(v, 68_719_476_736, 64, p1, codes[1], l2);
    lemma_field_unpacks(v, 4_398_046_511_104, 64, p0, codes[0], l1);
    assert(callsign_sent(me)[k] == callsign_char_of(me_field(me, 14 + 6 * k, 6)));
    assert(me_field(me, 14 + 6 * k, 6) == codes[k]);
    law_callsign_set(codes[k]);
    assert('A' as u32 == 65 && '0' as u32 == 48 && ' ' as u32 == 32 && '_' as u32 == 95);
}

// --- Airborne position -------------------------------------------------------

/// Altitude of a 12-bit field: metres for type codes 20 to 22, otherwise 25 ft
/// steps if the sixteens bit is set, otherwise 100 ft steps.
pub open spec fn altitude_of(ac12: int, tc: int) -> Altitude {
    if ac12 == 0 {
        Altitude::Unavailable
    } else if 20 <= tc <= 22 {
        Altitude::GnssFeet((ac12 * 328_084 / 100_000) as i32)
    } else if ac12 / 16 % 2 == 1 {
        Altitude::BaroFeet((25 * (16 * (ac12 / 32) + ac12 % 16) - 1000) as i32)
    } else {
        Altitude::BaroGillhamFeet((100 * ac12 - 1000) as i32)
    }
}

/// Decodes a 12-bit altitude field.
#[must_use]
pub fn decode_altitude_ac12(ac12: u16, tc: u8) -> (a: Altitude)
    ensures
        a == altitude_of(ac12 as int, tc as int),
{
    if ac12 == 0 {
        return Altitude::Unavailable;
    }
    if 20 <= tc && tc <= 22 {
        return Altitude::GnssFeet((ac12 as u64 * 328_084 / 100_000) as i32);
    }
    if ac12 / 16 % 2 == 1 {
        Altitude::BaroFeet(25 * (16 * (ac12 as i32 / 32) + ac12 as i32 % 16) - 1000)
    } else {
        Altitude::BaroGillhamFeet(100 * ac12 as i32 - 1000)
    }
}

/// Every altitude from -1000 ft to 50175 ft in steps of 25 ft has a field that
/// decodes to it.
pub proof fn law_altitude_steps(n: int)
    requires
        0 <= n < 2048,
    ensures
        altitude_of(32 * (n / 16) + 16 + n % 16, 11) == Altitude::BaroFeet((25 * n - 1000) as i32),
{
    let ac = 32 * (n / 16) + 16 + n % 16;
    assert(ac / 16 == 2 * (n / 16) + 1);
    assert(ac / 32 == n / 16);
    assert(ac % 16 == n % 16);
}

/// What an altitude field means depends on the type code in one way only: codes 20 to 22
/// count metres above the ellipsoid, which are converted to feet, and all others feet of
/// pressure altitude, in steps of 25 from -1000 on if the bit of weight sixteen is set and
/// of 100 if not. A field of zero is no altitude.
pub proof fn law_altitude_by_type_code(ac12: int, tc: int)
    requires
        0 <= ac12 < 4096,
    ensures
        match altitude_of(ac12, tc) {
            Altitude::Unavailable => ac12 == 0,
            Altitude::GnssFeet(ft) => {
                &&& ac12 > 0
                &&& tc == 20 || tc == 21 || tc == 22
                // A metre is 3.28084 feet.
                &&& 100_000 * ft <= 328_084 * ac12 < 100_000 * (ft + 1)
            },
            Altitude::BaroFeet(ft) => {
                &&& !(tc == 20 || tc == 21 || tc == 22)
                &&& exists|n: int|
                    {
                        &&& 0 <= n < 2048
                        &&& #[trigger] stepped(n) == ac12
                        &&& ft == 25 * n - 1000
                    }
            },
            Altitude::BaroGillhamFeet(ft) => {
                &&& ac12 > 0
                &&& !(tc == 20 || tc == 21 || tc == 22)
                &&& forall|n: int| 0 <= n < 2048 ==> #[trigger] stepped(n) != ac12
                &&& ft == 100 * ac12 - 1000
            },
        },
{
    if ac12 > 0 && !(20 <= tc <= 22) {
        let n = 16 * (ac12 / 32) + ac12 % 16;
        if ac12 / 16 % 2 == 1 {
            assert(stepped(n) == ac12);
        } else {
            assert forall|k: int| 0 <= k < 2048 implies #[trigger] stepped(k) != ac12 by {
                assert(stepped(k) / 16 % 2 == 1);
            }
        }
    }
}

/// The altitude field that counts `n` steps of 25 ft: the number with a one set in
/// between its low four bits and the rest.
pub open spec fn stepped(n: int) -> int {
    n / 16 * 32 + 16 + n % 16
}

/// Every step of 25 ft decodes to its altitude under every type code of a pressure
/// altitude.
pub proof fn law_altitude_steps_of_all_codes(n: int, tc: int)
    requires
        0 <= n < 2048,
        9 <= tc <= 18,
    ensures
        altitude_of(stepped(n), tc) == Altitude::BaroFeet((25 * n - 1000) as i32),
{
    let ac = stepped(n);
    assert(ac / 16 == 2 * (n / 16) + 1);
    assert(ac / 32 == n / 16);
    assert(ac % 16 == n % 16);
}

/// The position that a message field reports.
pub open spec fn airborne_position_of(me: Seq<u8>) -> AirbornePosition {
    AirbornePosition {
        altitude: altitude_of(me_field(me, 20, 12), me[0] as int / 8),
        cpr: CprPosition {
            lat_cpr: me_field(me, 39, 17) as u32,
            lon_cpr: me_field(me, 56, 17) as u32,
            odd: me_field(me, 22, 1) == 1,
        },
    }
}

/// The fields of a reported position hold 17 bits.
pub proof fn lemma_report_is_valid(me: Seq<u8>)
    ensures
        airborne_position_of(me).cpr.valid(),
{
    lemma_powers();
}

/// Decodes an airborne position.
#[must_use]
pub fn decode_airborne_position(me: [u8; 7]) -> (p: AirbornePosition)
    ensures
        p == airborne_position_of(me@),
        p.cpr.valid(),
{
    let v: u64 = me_value(&me);
    let ac12: u64 = field_of(v, 20, 12);
    let odd: u64 = field_of(v, 22, 1);
    let lat_cpr: u64 = field_of(v, 39, 17);
    let lon_cpr: u64 = field_of(v, 56, 17);
    AirbornePosition {
        altitude: decode_altitude_ac12(ac12 as u16, me[0] / 8),
        cpr: CprPosition { lat_cpr: lat_cpr as u32, lon_cpr: lon_cpr as u32, odd: odd == 1 },
    }
}

/// A position field packed from its parts, most significant first (type code,
/// surveillance status, supplement, altitude, time flag, parity, latitude,
/// longitude), is unpacked to the same parts.
pub proof fn law_position_field_unpacks(
    me: Seq<u8>,
    tc: int,
    status: int,
    supplement: int,
    ac12: int,
    time: int,
    odd: bool,
    lat: int,
    lon: int,
)
    requires
        0 <= tc < 32,
        0 <= status < 4,
        0 <= supplement < 2,
        0 <= ac12 < 4096,
        0 <= time < 2,
        0 <= lat < 131_072,
        0 <= lon < 131_072,
        me_number(me) == 131_072 * (131_072 * (2 * (2 * (4096 * (2 * (4 * tc + status) + supplement) + ac12)
            + time) + (if odd { 1int } else { 0int })) + lat) + lon,
    ensures
        airborne_position_of(me) == (AirbornePosition {
            altitude: altitude_of(ac12, tc),
            cpr: CprPosition { lat_cpr: lat as u32, lon_cpr: lon as u32, odd },
        }),
{
    lemma_powers();
    let v = me_number(me);
    let f = if odd { 1int } else { 0int };
    let a = 2 * (4 * tc + status) + supplement;
    let b = 4096 * a + ac12;
    let c = 2 * b + time;
    let d = 2 * c + f;
    let e = 131_072 * d + lat;
    lemma_quotient(v, 131_072, e, lon);
    lemma_quotient(e, 131_072, d, lat);
    lemma_quotient(v, 17_179_869_184, d, 131_072 * lat + lon);
    lemma_quotient(d, 2, c, f);
    let low_b = 34_359_738_368 * time + 17_179_869_184 * f + 131_072 * lat + lon;
    lemma_quotient(v, 68_719_476_736, b, low_b);
    lemma_quotient(b, 4096, a, ac12);
    assert(me_field(me, 56, 17) == lon) by {
        assert(v / 1 == v);
    }
    assert(me_field(me, 39, 17) == lat);
    assert(me_field(me, 22, 1) == f);
    assert(me_field(me, 20, 12) == ac12);
    let low_me = 256 * (256 * (256 * (256 * (256 * me[1] + me[2]) + me[3]) + me[4]) + me[5]) + me[6];
    let first = me[0] as int;
    assert(v == 281_474_976_710_656 * first + low_me);
    lemma_quotient(
        v,
        2_251_799_813_685_248,
        first / 8,
        281_474_976_710_656 * (first % 8) + low_me,
    );
    lemma_quotient(
        v,
        2_251_799_813_685_248,
        tc,
        562_949_953_421_312 * status + 281_474_976_710_656 * supplement + 68_719_476_736 * ac12 + low_b,
    );
}

proof fn lemma_quotient(v: int, d: int, q: int, r: int)
    requires
        d > 0,
        0 <= r < d,
        v == d * q + r,
    ensures
        v / d == q,
        v % d == r,
{
    assert(d * q == q * d) by (nonlinear_arith);
    vstd::arithmetic::div_mod::lemma_fundamental_div_mod_converse(v, d, q, r);
}

proof fn lemma_powers()
    ensures
        pow2(0) == 1,
        pow2(1) == 2,
        pow2(12) == 4096,
        pow2(17) == 131_072,
        pow2(34) == 17_179_869_184,
        pow2(36) == 68_719_476_736,
{
    lemma2_to64();
    vstd::arithmetic::power2::lemma2_to64_rest();
}

// --- Velocity ----------------------------------------------------------------

/// A velocity component: the magnitude is sent plus one, and zero means none.
pub open spec fn component(negative: bool, raw: int) -> int {
    if raw == 0 {
        0
    } else if negative {
        -(raw - 1)
    } else {
        raw - 1
    }
}

/// The vertical rate in feet per minute, sent in steps of 64 plus one.
pub open spec fn vertical_rate_of(me: Seq<u8>) -> Option<i32> {
    let raw = me_field(me, 46, 9);
    if raw == 0 {
        None
    } else if me_field(me, 37, 1) == 1 {
        Some((-(64 * (raw - 1))) as i32)
    } else {
        Some((64 * (raw - 1)) as i32)
    }
}

/// The velocity that a message field of subtype 1 to 4 reports. Subtypes 2 and 4
/// count speed in steps of four knots. A ground speed is the length of its vector,
/// its fraction dropped.
pub open spec fn velocity_of(me: Seq<u8>) -> Result<Velocity, DecodeError> {
    let subtype = me[0] % 8;
    let vertical_rate_source = if me_field(me, 36, 1) == 0 {
        VerticalRateSource::Baro
    } else {
        VerticalRateSource::Gnss
    };
    let scale = if subtype == 2 || subtype == 4 {
        4int
    } else {
        1int
    };
    let east = scale * component(me_field(me, 14, 1) == 1, me_field(me, 24, 10));
    let north = scale * component(me_field(me, 25, 1) == 1, me_field(me, 35, 10));
    let vertical_rate_fpm = vertical_rate_of(me);
    if subtype == 1 || subtype == 2 {
        Ok(
            Velocity {
                kind: VelocityKind::Ground {
                    speed_kt: sqrt_floor(east * east + north * north) as u16,
                    east_kt: east as i16,
                    north_kt: north as i16,
                },
                vertical_rate_fpm,
                vertical_rate_source,
            },
        )
    } else if subtype == 3 || subtype == 4 {
        Ok(
            Velocity {
                kind: VelocityKind::Airspeed {
                    speed_kt: (scale * component(false, me_field(me, 35, 10))) as u16,
                    heading_1024: if me_field(me, 14, 1) == 1 {
                        Some(me_field(me, 24, 10) as u16)
                    } else {
                        None
                    },
                    magnetic: me_field(me, 25, 1) == 0,
                },
                vertical_rate_fpm,
                vertical_rate_source,
            },
        )
    } else {
        Err(DecodeError::UnsupportedVelocitySubtype(subtype))
    }
}

proof fn lemma_field_unpacks(v: int, p: int, w: int, hi: int, f: int, lo: int)
    requires
        p > 0,
        w > 0,
        0 <= f < w,
        0 <= lo < p,
        v == (hi * w + f) * p + lo,
    ensures
        v / p % w == f,
        v / p == hi * w + f,
{
    let q = hi * w + f;
    assert(q * p == p * q && hi * w == w * hi) by (nonlinear_arith);
    lemma_quotient(v, p, q, lo);
    lemma_quotient(q, w, hi, f);
}

proof fn lemma_more_powers()
    ensures
        pow2(1) == 2,
        pow2(3) == 8,
        pow2(6) == 64,
        pow2(9) == 512,
        pow2(10) == 1024,
        pow2(19) == 524_288,
        pow2(20) == 1_048_576,
        pow2(21) == 2_097_152,
        pow2(31) == 2_147_483_648,
        pow2(32) == 4_294_967_296,
        pow2(42) == 4_398_046_511_104,
{
    lemma2_to64();
    vstd::arithmetic::power2::lemma2_to64_rest();
}

/// The number that a velocity message field writes, from its parts, most significant
/// first: type code, subtype, flags, a direction bit and ten bits of the first component,
/// the same of the second, source, sign and nine bits of the vertical rate, and the rest.
pub open spec fn velocity_field(
    tc: int,
    subtype: int,
    flags: int,
    bit1: bool,
    raw1: int,
    bit2: bool,
    raw2: int,
    gnss: bool,
    down: bool,
    rate: int,
    rest: int,
) -> int {
    let a = (tc * 8 + subtype) * 32 + flags;
    let b = (a * 2 + bit_of(bit1)) * 1024 + raw1;
    let c = (b * 2 + bit_of(bit2)) * 1024 + raw2;
    (((c * 2 + bit_of(gnss)) * 2 + bit_of(down)) * 512 + rate) * 1024 + rest
}

pub open spec fn bit_of(b: bool) -> int {
    if b {
        1
    } else {
        0
    }
}

/// A velocity field packed from its parts, each anywhere in its range, decodes to them.
/// A magnitude is sent plus one, and zero is none. Subtypes 1 and 2 send the knots to the
/// east and to the north, with a bit each for west and south; the speed is the length of
/// the vector, its fraction dropped. Subtypes 3 and 4 send a heading, if its bit is set,
/// and the airspeed; the other bit says that the heading is true. Subtypes 2 and 4 count
/// four knots at a time. No other subtype is decoded.
pub proof fn law_velocity_field_unpacks(
    me: Seq<u8>,
    tc: int,
    subtype: int,
    flags: int,
    bit1: bool,
    raw1: int,
    bit2: bool,
    raw2: int,
    gnss: bool,
    down: bool,
    rate: int,
    rest: int,
)
    requires
        0 <= tc < 32,
        0 <= subtype < 8,
        0 <= flags < 32,
        0 <= raw1 < 1024,
        0 <= raw2 < 1024,
        0 <= rate < 512,
        0 <= rest < 1024,
        me_number(me) == velocity_field(tc, subtype, flags, bit1, raw1, bit2, raw2, gnss, down, rate, rest),
    ensures
        match velocity_of(me) {
            Ok(v) => {
                let step = if subtype == 2 || subtype == 4 {
                    4int
                } else {
                    1int
                };
                let x = if raw1 == 0 {
                    0
                } else {
                    step * (raw1 - 1)
                };
                let y = if raw2 == 0 {
                    0
                } else {
                    step * (raw2 - 1)
                };
                &&& 1 <= subtype <= 4
                &&& v.vertical_rate_source == if gnss {
                    VerticalRateSource::Gnss
                } else {
                    VerticalRateSource::Baro
                }
                &&& rate == 0 <==> v.vertical_rate_fpm is None
                &&& rate > 0 && !down ==> v.vertical_rate_fpm->0 == 64 * (rate - 1)
                &&& rate > 0 && down ==> v.vertical_rate_fpm->0 == -64 * (rate - 1)
                &&& match v.kind {
                    VelocityKind::Ground { speed_kt, east_kt, north_kt } => {
                        &&& subtype <= 2
                        &&& east_kt == if bit1 {
                            -x
                        } else {
                            x
                        }
                        &&& north_kt == if bit2 {
                            -y
                        } else {
                            y
                        }
                        &&& speed_kt * speed_kt <= x * x + y * y < (speed_kt + 1) * (speed_kt + 1)
                    },
                    VelocityKind::Airspeed { speed_kt, heading_1024, magnetic } => {
                        &&& subtype >= 3
                        &&& speed_kt == y
                        &&& bit1 <==> heading_1024 is Some
                        &&& bit1 ==> heading_1024->0 == raw1
                        &&& magnetic == !bit2
                    },
                }
            },
            Err(e) => {
                &&& e == DecodeError::UnsupportedVelocitySubtype(subtype as u8)
                &&& !(1 <= subtype <= 4)
            },
        },
{
    lemma_more_powers();
    let v = me_number(me);
    let first = tc * 8 + subtype;
    let a = first * 32 + flags;
    let a1 = a * 2 + bit_of(bit1);
    let b = a1 * 1024 + raw1;
    let b1 = b * 2 + bit_of(bit2);
    let c = b1 * 1024 + raw2;
    let c1 = c * 2 + bit_of(gnss);
    let c2 = c1 * 2 + bit_of(down);
    let d = c2 * 512 + rate;
    // What follows each field.
    let l10 = rest;
    let l19 = rate * 1024 + l10;
    let l20 = bit_of(down) * 524_288 + l19;
    let l21 = bit_of(gnss) * 1_048_576 + l20;
    let l31 = raw2 * 2_097_152 + l21;
    let l32 = bit_of(bit2) * 2_147_483_648 + l31;
    let l42 = raw1 * 4_294_967_296 + l32;
    lemma_field_unpacks(v, 1024, 512, c2, rate, l10);
    lemma_field_unpacks(v, 524_288, 2, c1, bit_of(down), l19);
    lemma_field_unpacks(v, 1_048_576, 2, c, bit_of(gnss), l20);
    lemma_field_unpacks(v, 2_097_152, 1024, b1, raw2, l21);
    lemma_field_unpacks(v, 2_147_483_648, 2, b, bit_of(bit2), l31);
    lemma_field_unpacks(v, 4_294_967_296, 1024, a1, raw1, l32);
    lemma_field_unpacks(v, 4_398_046_511_104, 2, a, bit_of(bit1), l42);
    assert(me_field(me, 46, 9) == rate);
    assert(me_field(me, 37, 1) == bit_of(down));
    assert(me_field(me, 36, 1) == bit_of(gnss));
    assert(me_field(me, 35, 10) == raw2);
    assert(me_field(me, 25, 1) == bit_of(bit2));
    assert(me_field(me, 24, 10) == raw1);
    assert(me_field(me, 14, 1) == bit_of(bit1));
    lemma_first_byte(me, first, (flags * 2 + bit_of(bit1)) * 4_398_046_511_104 + l42);
    let east = me_east(me);
    let north = me_north(me);
    assert(0 <= east * east + north * north <= 33_554_432) by (nonlinear_arith)
        requires
            -4096 <= east <= 4096,
            -4096 <= north <= 4096,
    ;
    crate::magnitude::lemma_sqrt_exists((east * east + north * north) as nat);
    let r = sqrt_floor(east * east + north * north);
    assert(r <= 65_535) by (nonlinear_arith)
        requires
            0 <= r,
            r * r <= 33_554_432,
    ;
    assert((-east) * (-east) == east * east && (-north) * (-north) == north * north) by (nonlinear_arith);
}

/// The components of a ground velocity, in knots.
spec fn me_east(me: Seq<u8>) -> int {
    (if me[0] % 8 == 2 || me[0] % 8 == 4 {
        4int
    } else {
        1int
    }) * component(me_field(me, 14, 1) == 1, me_field(me, 24, 10))
}

spec fn me_north(me: Seq<u8>) -> int {
    (if me[0] % 8 == 2 || me[0] % 8 == 4 {
        4int
    } else {
        1int
    }) * component(me_field(me, 25, 1) == 1, me_field(me, 35, 10))
}

/// The first byte of a message field is its leading part.
proof fn lemma_first_byte(me: Seq<u8>, first: int, rest: int)
    requires
        me_number(me) == 281_474_976_710_656 * first + rest,
        0 <= rest < 281_474_976_710_656,
        0 <= first,
    ensures
        me[0] == first,
{
    let low = 256 * (256 * (256 * (256 * (256 * me[1] + me[2]) + me[3]) + me[4]) + me[5]) + me[6];
    assert(me_number(me) == 281_474_976_710_656 * me[0] + low);
    lemma_quotient(me_number(me), 281_474_976_710_656, me[0] as int, low);
    lemma_quotient(me_number(me), 281_474_976_710_656, first, rest);
}

/// The ground speed of a vector, its fraction dropped.
fn ground_speed(east: i32, north: i32) -> (kt: u16)
    requires
        -4096 <= east <= 4096,
        -4096 <= north <= 4096,
    ensures
        kt == sqrt_floor(east * east + north * north),
        is_sqrt_floor(east * east + north * north, kt as int),
{
    let ghost e = east as int;
    let ghost n = north as int;
    assert(0 <= e * e <= 16_777_216 && 0 <= n * n <= 16_777_216) by (nonlinear_arith)
        requires
            -4096 <= e <= 4096,
            -4096 <= n <= 4096,
    ;
    let sum: i32 = east * east + north * north;
    let r: u32 = isqrt_floor(sum as u32);
    proof {
        lemma_sqrt_floor(sum as int, r as int);
    }
    r as u16
}

fn component_of(negative: bool, raw: u64, scale: i32) -> (v: i32)
    requires
        raw < 1024,
        scale == 1 || scale == 4,
    ensures
        v == scale * component(negative, raw as int),
        -4096 <= v <= 4096,
        !negative ==> v >= 0,
{
    if raw == 0 {
        return 0;
    }
    let magnitude: i32 = if scale == 4 {
        4 * (raw as i32 - 1)
    } else {
        raw as i32 - 1
    };
    if negative {
        -magnitude
    } else {
        magnitude
    }
}

/// Decodes an airborne velocity.
pub fn decode_velocity(me: [u8; 7]) -> (r: Result<Velocity, DecodeError>)
    ensures
        r == velocity_of(me@),
{
    let subtype: u8 = me[0] % 8;
    let v: u64 = me_value(&me);
    let vertical_rate_source = if field_of(v, 36, 1) == 0 {
        VerticalRateSource::Baro
    } else {
        VerticalRateSource::Gnss
    };
    let raw_rate: u64 = field_of(v, 46, 9);
    let down: bool = field_of(v, 37, 1) == 1;
    let vertical_rate_fpm: Option<i32> = if raw_rate == 0 {
        None
    } else if down {
        Some(-(64 * (raw_rate as i32 - 1)))
    } else {
        Some(64 * (raw_rate as i32 - 1))
    };
    let first_bit: u64 = field_of(v, 14, 1);
    let first: u64 = field_of(v, 24, 10);
    let second_bit: u64 = field_of(v, 25, 1);
    let second: u64 = field_of(v, 35, 10);
    let scale: i32 = if subtype == 2 || subtype == 4 {
        4
    } else {
        1
    };
    let kind = if subtype == 1 || subtype == 2 {
        let east: i32 = component_of(first_bit == 1, first, scale);
        let north: i32 = component_of(second_bit == 1, second, scale);
        let speed_kt: u16 = ground_speed(east, north);
        VelocityKind::Ground { speed_kt, east_kt: east as i16, north_kt: north as i16 }
    } else if subtype == 3 || subtype == 4 {
        let speed: i32 = component_of(false, second, scale);
        let heading_1024: Option<u16> = if first_bit == 1 {
            Some(first as u16)
        } else {
            None
        };
        VelocityKind::Airspeed { speed_kt: speed as u16, heading_1024, magnetic: second_bit == 0 }
    } else {
        return Err(DecodeError::UnsupportedVelocitySubtype(subtype));
    };
    Ok(Velocity { kind, vertical_rate_fpm, vertical_rate_source })
}

// --- Dispatch ----------------------------------------------------------------

/// `payload` is what the message field decodes to.
pub open spec fn is_payload(me: Seq<u8>, payload: SquitterPayload) -> bool {
    match TypeCode::of(me[0] / 8) {
        TypeCode::Identification => match payload {
            SquitterPayload::Identification(id) => {
                &&& text_of_8(id.callsign) == callsign_of(me)
                &&& id.category_set == me[0] / 8
                &&& id.category == me[0] % 8
            },
            _ => false,
        },
        TypeCode::AirbornePosition => payload == SquitterPayload::AirbornePosition(airborne_position_of(me)),
        TypeCode::Velocity => match velocity_of(me) {
            Ok(v) => payload == SquitterPayload::Velocity(v),
            Err(_) => is_raw(me, payload),
        },
        _ => is_raw(me, payload),
    }
}

/// `payload` is the message field as it came.
pub open spec fn is_raw(me: Seq<u8>, payload: SquitterPayload) -> bool {
    match payload {
        SquitterPayload::Raw(raw) => raw@ == me,
        _ => false,
    }
}

/// `es` is what a long frame decodes to.
pub open spec fn is_squitter(bytes: Seq<u8>, es: ExtendedSquitter) -> bool {
    &&& es.icao == Icao(address_of(bytes.subrange(1, 4)))
    &&& es.type_code == TypeCode::of(bytes[4] / 8)
    &&& es.capability == bytes[0] % 8
    &&& is_payload(bytes.subrange(4, 11), es.payload)
}

/// `r` is what a frame decodes to.
pub open spec fn is_decoded(frame: FrameModel, r: Result<Message, DecodeError>) -> bool {
    match frame.df {
        DownlinkFormat::ExtendedSquitter | DownlinkFormat::TisB => if frame.bytes.len() < 14 {
            r == Err::<Message, DecodeError>(DecodeError::TruncatedFrame)
        } else {
            match r {
                Ok(Message::ExtendedSquitter(es)) => is_squitter(frame.bytes, es),
                _ => false,
            }
        },
        DownlinkFormat::AllCallReply => if frame.bytes.len() < 7 {
            r == Err::<Message, DecodeError>(DecodeError::TruncatedFrame)
        } else {
            r == Ok::<Message, DecodeError>(
                Message::AllCallReply { icao: Icao(address_of(frame.bytes.subrange(1, 4))) },
            )
        },
        DownlinkFormat::Reserved(_) => r == Ok::<Message, DecodeError>(Message::Other { df: frame.df }),
        _ => match r {
            Ok(Message::SurveillanceReply { df, bytes }) => df == frame.df && text_of_28(bytes) == hex_of(
                frame.bytes,
            ),
            _ => false,
        },
    }
}

fn decode_extended_squitter(bytes: &[u8]) -> (es: ExtendedSquitter)
    requires
        bytes@.len() == 14,
    ensures
        is_squitter(bytes@, es),
{
    let icao = Icao::from_bytes([bytes[1], bytes[2], bytes[3]]);
    let me: [u8; 7] = [bytes[4], bytes[5], bytes[6], bytes[7], bytes[8], bytes[9], bytes[10]];
    assert(me@ =~= bytes@.subrange(4, 11));
    let type_code = TypeCode::from_raw(me[0] / 8);
    let payload = match type_code {
        TypeCode::Identification => SquitterPayload::Identification(decode_identification(me)),
        TypeCode::AirbornePosition => SquitterPayload::AirbornePosition(decode_airborne_position(me)),
        TypeCode::Velocity => match decode_velocity(me) {
            Ok(v) => SquitterPayload::Velocity(v),
            Err(_) => SquitterPayload::Raw(me),
        },
        _ => SquitterPayload::Raw(me),
    };
    ExtendedSquitter { icao, type_code, payload, capability: bytes[0] % 8 }
}

fn hex_text(bytes: &[u8]) -> (s: ArrayString<28>)
    requires
        bytes@.len() <= 14,
    ensures
        text_of_28(s) == hex_of(bytes@),
{
    let mut s = empty_28();
    let mut i: usize = 0;
    while i < bytes.len()
        invariant
            i <= bytes@.len() <= 14,
            text_of_28(s) == hex_of(bytes@).take(2 * i),
            all_ascii(text_of_28(s)),
        decreases bytes@.len() - i,
    {
        push_28(&mut s, hex_char(bytes[i] / 16));
        push_28(&mut s, hex_char(bytes[i] % 16));
        i += 1;
        assert(text_of_28(s) =~= hex_of(bytes@).take(2 * i));
    }
    assert(hex_of(bytes@).take(2 * bytes@.len() as int) =~= hex_of(bytes@));
    s
}

/// Decodes a frame. The CRC is not consulted: the bytes are taken at face value.
pub fn decode(frame: &Frame) -> (r: Result<Message, DecodeError>)
    ensures
        is_decoded(frame@, r),
{
    let bytes = frame.bytes();
    let df = frame.downlink_format();
    match df {
        DownlinkFormat::ExtendedSquitter | DownlinkFormat::TisB => {
            if bytes.len() < 14 {
                return Err(DecodeError::TruncatedFrame);
            }
            Ok(Message::ExtendedSquitter(decode_extended_squitter(bytes)))
        },
        DownlinkFormat::AllCallReply => {
            let icao = Icao::from_bytes([bytes[1], bytes[2], bytes[3]]);
            Ok(Message::AllCallReply { icao })
        },
        DownlinkFormat::Reserved(_) => Ok(Message::Other { df }),
        _ => Ok(Message::SurveillanceReply { df, bytes: hex_text(bytes) }),
    }
}

/// What a frame decodes to follows from the code of its format and, for an extended
/// squitter, from the type code: the address stands in the second to fourth byte, and the
/// message field in the seven bytes behind it.
pub proof fn law_decoding_follows_codes(frame: FrameModel, r: Result<Message, DecodeError>)
    requires
        is_decoded(frame, r),
        frame.bytes.len() >= 7,
        frame.bytes.len() >= 14 || !(frame.df.code() == 17 || frame.df.code() == 18),
        frame.df == DownlinkFormat::of_code(frame.bytes[0] / 8),
    ensures
        ({
            let b = frame.bytes;
            let code = b[0] / 8;
            let address = 65_536 * b[1] + 256 * b[2] + b[3];
            let tc = b[4] / 8;
            match r {
                Ok(Message::ExtendedSquitter(es)) => {
                    &&& code == 17 || code == 18
                    &&& es.icao.0 == address
                    &&& es.capability == b[0] % 8
                    &&& match es.payload {
                        SquitterPayload::Identification(id) => {
                            &&& 1 <= tc <= 4
                            &&& text_of_8(id.callsign) == callsign_of(b.subrange(4, 11))
                            &&& id.category_set == tc
                            &&& id.category == b[4] % 8
                        },
                        SquitterPayload::AirbornePosition(p) => {
                            &&& 9 <= tc <= 22 && tc != 19
                            &&& p == airborne_position_of(b.subrange(4, 11))
                        },
                        SquitterPayload::Velocity(v) => {
                            &&& tc == 19 && 1 <= b[4] % 8 <= 4
                            &&& velocity_of(b.subrange(4, 11)) == Ok::<Velocity, DecodeError>(v)
                        },
                        SquitterPayload::Raw(me) => {
                            &&& !(1 <= tc <= 4)
                            &&& !(9 <= tc <= 22) || (tc == 19 && !(1 <= b[4] % 8 <= 4))
                            &&& me@ == b.subrange(4, 11)
                        },
                    }
                },
                Ok(Message::AllCallReply { icao }) => code == 11 && icao.0 == address,
                Ok(Message::SurveillanceReply { df, bytes }) => {
                    &&& code == 0 || code == 4 || code == 5 || code == 16 || code == 20 || code == 21
                    &&& df == frame.df
                    &&& text_of_28(bytes) == hex_of(b)
                },
                Ok(Message::Other { df }) => {
                    &&& code != 0 && code != 4 && code != 5 && code != 11 && code != 16 && code != 17 && code != 18
                        && code != 20 && code != 21
                    &&& df == frame.df
                },
                Err(_) => false,
            }
        }),
{
    let b = frame.bytes;
    if b.len() >= 14 {
        assert(b.subrange(4, 11)[0] == b[4]);
    }
}

/// A frame that announces an extended squitter and is too short for one is refused.
pub proof fn law_short_squitter_is_refused(frame: FrameModel, r: Result<Message, DecodeError>)
    requires
        is_decoded(frame, r),
        frame.df.code() == 17 && frame.df is ExtendedSquitter || frame.df.code() == 18 && frame.df is TisB,
        frame.bytes.len() < 14,
    ensures
        r == Err::<Message, DecodeError>(DecodeError::TruncatedFrame),
{
}

/// Every type code has its kind: 1 to 4 tell who, 5 to 8 where on the ground, 9 to 22 but
/// for 19 where in the air, 19 how fast, 28 and 31 the status. Any other is kept as it is.
pub proof fn law_type_codes_tell_kinds(tc: u8)
    ensures
        match TypeCode::of(tc) {
            TypeCode::Identification => tc == 1 || tc == 2 || tc == 3 || tc == 4,
            TypeCode::SurfacePosition => tc == 5 || tc == 6 || tc == 7 || tc == 8,
            TypeCode::AirbornePosition => 9 <= tc < 23 && tc != 19,
            TypeCode::Velocity => tc == 19,
            TypeCode::AircraftStatus => tc == 28,
            TypeCode::OperationalStatus => tc == 31,
            TypeCode::Other(v) => v == tc && (tc == 0 || 23 <= tc < 28 || tc == 29 || tc == 30 || tc > 31),
        },
        TypeCode::of(tc) is Other ==> TypeCode::of(tc).representative() == tc,
{
}

/// A callsign is the eight characters sent, but for spaces and underscores at the end.
pub proof fn law_callsign_loses_only_padding(me: Seq<u8>, i: int)
    requires
        0 <= i < 8,
    ensures
        callsign_of(me).len() <= 8,
        i < callsign_of(me).len() ==> callsign_of(me)[i] == callsign_sent(me)[i],
        i >= callsign_of(me).len() ==> callsign_sent(me)[i] == ' ' || callsign_sent(me)[i] == '_',
        callsign_of(me).len() > 0 ==> callsign_of(me).last() != ' ' && callsign_of(me).last() != '_',
{
    law_stripped(callsign_sent(me));
}

/// An address is read from exactly six hexadecimal digits, of either case, most significant
/// first.
pub proof fn law_address_needs_six_digits(s: Seq<char>)
    ensures
        address_of_hex(s) is Some ==> s.len() == 6 && address_of_hex(s)->0 < 0x0100_0000,
        address_of_hex(s) is Some ==> forall|i: int|
            0 <= i < 6 ==> {
                let u = #[trigger] s[i] as u32;
                48 <= u <= 57 || 65 <= u <= 70 || 97 <= u <= 102
            },
        s.len() == 6 && (forall|i: int|
            0 <= i < 6 ==> {
                let u = #[trigger] s[i] as u32;
                48 <= u <= 57 || 65 <= u <= 70 || 97 <= u <= 102
            }) ==> address_of_hex(s) is Some,
{
    if s.len() == 6 && forall|i: int|
        0 <= i < 6 ==> {
            let u = #[trigger] s[i] as u32;
            48 <= u <= 57 || 65 <= u <= 70 || 97 <= u <= 102
        } {
        assert forall|i: int| 0 <= i < 6 implies hex_value(#[trigger] s[i]) is Some by {
        }
    }
    if address_of_hex(s) is Some {
        assert forall|i: int| 0 <= i < 6 implies {
            let u = #[trigger] s[i] as u32;
            48 <= u <= 57 || 65 <= u <= 70 || 97 <= u <= 102
        } by {
            assert(hex_value(s[i]) is Some);
        }
        assert(hex_value(s[0]) is Some && hex_value(s[1]) is Some && hex_value(s[2]) is Some && hex_value(s[3]) is Some
            && hex_value(s[4]) is Some && hex_value(s[5]) is Some);
    }
}

/// An address may be written in either case.
pub proof fn law_address_ignores_case(s: Seq<char>, t: Seq<char>)
    requires
        s.len() == t.len(),
        forall|i: int|
            0 <= i < s.len() ==> {
                let u = #[trigger] s[i] as u32;
                let v = t[i] as u32;
                u == v || (65 <= u <= 70 && v == u + 32)
            },
    ensures
        address_of_hex(s) is Some ==> address_of_hex(t) == address_of_hex(s),
{
    if address_of_hex(s) is Some {
        assert forall|i: int| 0 <= i < 6 implies hex_value(#[trigger] t[i]) == hex_value(s[i]) by {
            assert(hex_value(s[i]) is Some);
        }
        assert(hex_value(t[0]) == hex_value(s[0]) && hex_value(t[1]) == hex_value(s[1]) && hex_value(t[2]) == hex_value(
            s[2],
        ) && hex_value(t[3]) == hex_value(s[3]) && hex_value(t[4]) == hex_value(s[4]) && hex_value(t[5]) == hex_value(
            s[5],
        ));
    }
}

} // verus!

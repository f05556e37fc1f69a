//! Events and snapshots for network clients.
//!
//! Speeds are in micrometres per second and angles exact, so that nothing is rounded
//! before the edge. Every event has the version of the schema, the time at which it
//! was made, and the address of its aircraft.

use crate::cpr::{Fraction, Ratio};
use crate::message::{Altitude, Icao, Velocity, VelocityKind, VerticalRateSource};
use crate::state::{Aircraft, Counters, PositionSource, StateEvent, TimedPosition};
use crate::text::{str_of_8, text_of_8};
use vstd::prelude::*;
use vstd::string::StringExecFns;

verus! {

/// Version of the event schema.
pub const SCHEMA_VERSION: u8 = 1;

/// Micrometres per second in a knot.
pub const KNOT_UM_S: i64 = 514_444;

/// Micrometres per second in a foot per minute.
pub const FPM_UM_S: i64 = 5_080;

/// An event for network clients.
#[derive(Debug)]
pub enum Event {
    Acquired(AircraftAcquired),
    Identification(AircraftIdentification),
    Position(AircraftPosition),
    Velocity(AircraftVelocity),
    Lost(AircraftLost),
    AddressRecovered(AddressRecovered),
}

/// An event with the number under which it was sent.
#[derive(Debug)]
pub struct EventEnvelope {
    pub id: u64,
    pub event: Event,
}

/// An aircraft was heard for the first time.
#[derive(Debug)]
pub struct AircraftAcquired {
    pub v: u8,
    pub t: String,
    pub icao: Icao,
}

/// A callsign was learned or changed.
#[derive(Debug)]
pub struct AircraftIdentification {
    pub v: u8,
    pub t: String,
    pub icao: Icao,
    pub callsign: String,
}

/// A position was derived.
#[derive(Debug)]
pub struct AircraftPosition {
    pub v: u8,
    pub t: String,
    pub icao: Icao,
    pub lat: Ratio,
    pub lon: Ratio,
    pub alt_ft: Option<i32>,
    pub alt_source: Option<VerticalRateSource>,
    pub source: PositionSource,
}

/// A velocity was reported.
#[derive(Debug)]
pub struct AircraftVelocity {
    pub v: u8,
    pub t: String,
    pub icao: Icao,
    pub velocity: SnapshotVelocity,
}

/// An aircraft was dropped from the table.
#[derive(Debug)]
pub struct AircraftLost {
    pub v: u8,
    pub t: String,
    pub icao: Icao,
}

/// A frame was attributed to an aircraft by its syndrome.
#[derive(Debug)]
pub struct AddressRecovered {
    pub v: u8,
    pub t: String,
    pub icao: Icao,
    /// Downlink format of the frame.
    pub df: u8,
}

/// What is known of an aircraft, for network clients.
#[derive(Debug)]
pub struct AircraftSnapshot {
    pub icao: Icao,
    pub callsign: Option<String>,
    pub category: Option<[u8; 2]>,
    pub position: Option<SnapshotPosition>,
    pub velocity: Option<SnapshotVelocity>,
    pub counters: SnapshotCounters,
}

/// The position of an aircraft.
#[derive(Debug, Clone, Copy)]
pub struct SnapshotPosition {
    pub lat: Ratio,
    pub lon: Ratio,
    pub alt_ft: Option<i32>,
    pub alt_source: Option<VerticalRateSource>,
    pub source: PositionSource,
}

/// The velocity of an aircraft.
#[derive(Debug, Clone, Copy)]
pub struct SnapshotVelocity {
    /// Ground speed.
    pub gs_um_s: Option<i64>,
    /// Track over ground, clockwise from north.
    pub track_deg: Option<Ratio>,
    /// Airspeed.
    pub ias_um_s: Option<i64>,
    /// Heading, clockwise from north.
    pub heading_deg: Option<Ratio>,
    /// Whether the heading refers to magnetic north.
    pub heading_magnetic: Option<bool>,
    /// Vertical rate, positive when climbing.
    pub vr_um_s: Option<i64>,
    pub vr_source: Option<VerticalRateSource>,
}

/// Counters of an aircraft.
#[derive(Debug, Clone, Copy, PartialEq, Eq, Structural)]
pub struct SnapshotCounters {
    pub messages_total: u64,
    pub crc_clean: u64,
    pub crc_corrected: u64,
    pub crc_address_recovered: u64,
}

// --- Copies ------------------------------------------------------------------

impl Clone for Event {
    fn clone(&self) -> (r: Event)
        ensures
            r == *self,
    {
        match self {
            Event::Acquired(e) => Event::Acquired(AircraftAcquired { v: e.v, t: e.t.clone(), icao: e.icao }),
            Event::Identification(e) => Event::Identification(
                AircraftIdentification { v: e.v, t: e.t.clone(), icao: e.icao, callsign: e.callsign.clone() },
            ),
            Event::Position(e) => Event::Position(
                AircraftPosition {
                    v: e.v,
                    t: e.t.clone(),
                    icao: e.icao,
                    lat: e.lat,
                    lon: e.lon,
                    alt_ft: e.alt_ft,
                    alt_source: e.alt_source,
                    source: e.source,
                },
            ),
            Event::Velocity(e) => Event::Velocity(
                AircraftVelocity { v: e.v, t: e.t.clone(), icao: e.icao, velocity: e.velocity },
            ),
            Event::Lost(e) => Event::Lost(AircraftLost { v: e.v, t: e.t.clone(), icao: e.icao }),
            Event::AddressRecovered(e) => Event::AddressRecovered(
                AddressRecovered { v: e.v, t: e.t.clone(), icao: e.icao, df: e.df },
            ),
        }
    }
}

impl Clone for EventEnvelope {
    fn clone(&self) -> (r: EventEnvelope)
        ensures
            r == *self,
    {
        EventEnvelope { id: self.id, event: self.event.clone() }
    }
}

impl Clone for AircraftSnapshot {
    fn clone(&self) -> (r: AircraftSnapshot)
        ensures
            r == *self,
    {
        AircraftSnapshot {
            icao: self.icao,
            callsign: match &self.callsign {
                Some(s) => Some(s.clone()),
                None => None,
            },
            category: self.category,
            position: self.position,
            velocity: self.velocity,
            counters: self.counters,
        }
    }
}

// --- Access ------------------------------------------------------------------

impl Event {
    /// The name of the kind of event.
    pub open spec fn tag_text(self) -> Seq<char> {
        match self {
            Event::Acquired(_) => "acquired"@,
            Event::Identification(_) => "identification"@,
            Event::Position(_) => "position"@,
            Event::Velocity(_) => "velocity"@,
            Event::Lost(_) => "lost"@,
            Event::AddressRecovered(_) => "address_recovered"@,
        }
    }

    /// The address of the aircraft that the event is about.
    pub open spec fn address(self) -> Icao {
        match self {
            Event::Acquired(e) => e.icao,
            Event::Identification(e) => e.icao,
            Event::Position(e) => e.icao,
            Event::Velocity(e) => e.icao,
            Event::Lost(e) => e.icao,
            Event::AddressRecovered(e) => e.icao,
        }
    }

    /// The name of the kind of event.
    pub fn tag(&self) -> (t: &'static str)
        ensures
            t@ == self.tag_text(),
    {
        match self {
            Event::Acquired(_) => "acquired",
            Event::Identification(_) => "identification",
            Event::Position(_) => "position",
            Event::Velocity(_) => "velocity",
            Event::Lost(_) => "lost",
            Event::AddressRecovered(_) => "address_recovered",
        }
    }

    /// The address of the aircraft that the event is about. Every event so far is
    /// about one.
    pub fn icao(&self) -> (i: Option<Icao>)
        ensures
            i == Some(self.address()),
    {
        match self {
            Event::Acquired(e) => Some(e.icao),
            Event::Identification(e) => Some(e.icao),
            Event::Position(e) => Some(e.icao),
            Event::Velocity(e) => Some(e.icao),
            Event::Lost(e) => Some(e.icao),
            Event::AddressRecovered(e) => Some(e.icao),
        }
    }
}

// --- Conversion --------------------------------------------------------------

/// The angle of a number of 1024ths of a turn, in degrees.
pub open spec fn heading_of(h: u16) -> Ratio {
    Ratio::of(Fraction { num: 360 * (h % 1024), den: 1024 })
}

/// A velocity in exact units. The track of a ground velocity, the direction of its
/// vector, is given.
pub open spec fn velocity_snapshot(v: Velocity, track: Option<Ratio>) -> SnapshotVelocity {
    let vr_um_s = match v.vertical_rate_fpm {
        Some(fpm) => Some((fpm * FPM_UM_S) as i64),
        None => None,
    };
    let vr_source = match v.vertical_rate_fpm {
        Some(_) => Some(v.vertical_rate_source),
        None => None,
    };
    match v.kind {
        VelocityKind::Ground { speed_kt, .. } => SnapshotVelocity {
            gs_um_s: Some((speed_kt * KNOT_UM_S) as i64),
            track_deg: track,
            ias_um_s: None,
            heading_deg: None,
            heading_magnetic: None,
            vr_um_s,
            vr_source,
        },
        VelocityKind::Airspeed { speed_kt, heading_1024, magnetic } => SnapshotVelocity {
            gs_um_s: None,
            track_deg: None,
            ias_um_s: Some((speed_kt * KNOT_UM_S) as i64),
            heading_deg: match heading_1024 {
                Some(h) => Some(heading_of(h)),
                None => None,
            },
            heading_magnetic: Some(magnetic),
            vr_um_s,
            vr_source,
        },
    }
}

/// The vector of a ground velocity, to the east and to the north in knots, whose
/// direction is the track. Without one there is no track.
#[must_use]
pub fn ground_vector(v: &Velocity) -> (d: Option<(i16, i16)>)
    ensures
        match v.kind {
            VelocityKind::Ground { speed_kt, east_kt, north_kt } => d == Some((east_kt, north_kt)),
            _ => d is None,
        },
{
    match v.kind {
        VelocityKind::Ground { speed_kt: _, east_kt, north_kt } => Some((east_kt, north_kt)),
        _ => None,
    }
}

fn heading_ratio(h: u16) -> (r: Ratio)
    ensures
        r == heading_of(h),
{
    let num: i64 = 360 * (h % 1024) as i64;
    let r = Ratio::new(num, 1024).unwrap();
    proof {
        r.lemma_of();
    }
    r
}

impl SnapshotVelocity {
    /// A velocity in exact units.
    pub fn from_velocity(v: Velocity, track: Option<Ratio>) -> (s: SnapshotVelocity)
        ensures
            s == velocity_snapshot(v, track),
    {
        let vr_um_s: Option<i64> = match v.vertical_rate_fpm {
            Some(fpm) => Some(fpm as i64 * 5_080),
            None => None,
        };
        let vr_source: Option<VerticalRateSource> = match v.vertical_rate_fpm {
            Some(_) => Some(v.vertical_rate_source),
            None => None,
        };
        match v.kind {
            VelocityKind::Ground { speed_kt, east_kt: _, north_kt: _ } => SnapshotVelocity {
                gs_um_s: Some(speed_kt as i64 * 514_444),
                track_deg: track,
                ias_um_s: None,
                heading_deg: None,
                heading_magnetic: None,
                vr_um_s,
                vr_source,
            },
            VelocityKind::Airspeed { speed_kt, heading_1024, magnetic } => SnapshotVelocity {
                gs_um_s: None,
                track_deg: None,
                ias_um_s: Some(speed_kt as i64 * 514_444),
                heading_deg: match heading_1024 {
                    Some(h) => Some(heading_ratio(h)),
                    None => None,
                },
                heading_magnetic: Some(magnetic),
                vr_um_s,
                vr_source,
            },
        }
    }
}

/// The event for a velocity.
#[must_use]
pub fn velocity_to_wire(icao: Icao, v: Velocity, t: &str, track: Option<Ratio>) -> (e: AircraftVelocity)
    ensures
        e.v == SCHEMA_VERSION,
        e.t@ == t@,
        e.icao == icao,
        e.velocity == velocity_snapshot(v, track),
{
    AircraftVelocity {
        v: SCHEMA_VERSION,
        t: String::from_str(t),
        icao,
        velocity: SnapshotVelocity::from_velocity(v, track),
    }
}

/// `e` is the event for network clients that `ev` gives at time `t`, a ground velocity
/// having the given track.
pub open spec fn is_wire_event(ev: StateEvent, t: Seq<char>, track: Option<Ratio>, e: Event) -> bool {
    match (ev, e) {
        (StateEvent::Acquired(icao), Event::Acquired(w)) => {
            &&& w.v == SCHEMA_VERSION
            &&& w.t@ == t
            &&& w.icao == icao
        },
        (StateEvent::Identification { icao, callsign }, Event::Identification(w)) => {
            &&& w.v == SCHEMA_VERSION
            &&& w.t@ == t
            &&& w.icao == icao
            &&& w.callsign@ == text_of_8(callsign)
        },
        (StateEvent::Position { icao, pos, altitude, source }, Event::Position(w)) => {
            &&& w.v == SCHEMA_VERSION
            &&& w.t@ == t
            &&& w.icao == icao
            &&& w.lat == pos.lat_deg
            &&& w.lon == pos.lon_deg
            &&& w.alt_ft == altitude.in_feet()
            &&& w.alt_source == altitude.source()
            &&& w.source == source
        },
        (StateEvent::Velocity { icao, velocity }, Event::Velocity(w)) => {
            &&& w.v == SCHEMA_VERSION
            &&& w.t@ == t
            &&& w.icao == icao
            &&& w.velocity == velocity_snapshot(velocity, track)
        },
        (StateEvent::Lost(icao), Event::Lost(w)) => {
            &&& w.v == SCHEMA_VERSION
            &&& w.t@ == t
            &&& w.icao == icao
        },
        (StateEvent::AddressRecovered { icao, df }, Event::AddressRecovered(w)) => {
            &&& w.v == SCHEMA_VERSION
            &&& w.t@ == t
            &&& w.icao == icao
            &&& w.df == df.code()
        },
        _ => false,
    }
}

/// The event for network clients that a change of the table gives at the time `now`.
/// Orphan frames give none. `track` is the track of a ground velocity.
#[must_use]
pub fn from_state_event(ev: &StateEvent, now: &str, track: Option<Ratio>) -> (e: Option<Event>)
    ensures
        match e {
            Some(e) => is_wire_event(*ev, now@, track, e),
            None => *ev is Orphan,
        },
        *ev is Orphan ==> e is None,
{
    let t = String::from_str(now);
    match ev {
        StateEvent::Acquired(icao) => Some(
            Event::Acquired(AircraftAcquired { v: SCHEMA_VERSION, t, icao: *icao }),
        ),
        StateEvent::Identification { icao, callsign } => Some(
            Event::Identification(
                AircraftIdentification {
                    v: SCHEMA_VERSION,
                    t,
                    icao: *icao,
                    callsign: String::from_str(str_of_8(callsign)),
                },
            ),
        ),
        StateEvent::Position { icao, pos, altitude, source } => Some(
            Event::Position(
                AircraftPosition {
                    v: SCHEMA_VERSION,
                    t,
                    icao: *icao,
                    lat: pos.lat_deg,
                    lon: pos.lon_deg,
                    alt_ft: altitude.feet(),
                    alt_source: source_of(*altitude),
                    source: *source,
                },
            ),
        ),
        StateEvent::Velocity { icao, velocity } => Some(
            Event::Velocity(velocity_to_wire(*icao, *velocity, now, track)),
        ),
        StateEvent::Lost(icao) => Some(Event::Lost(AircraftLost { v: SCHEMA_VERSION, t, icao: *icao })),
        StateEvent::AddressRecovered { icao, df } => Some(
            Event::AddressRecovered(
                AddressRecovered { v: SCHEMA_VERSION, t, icao: *icao, df: df.raw_value() },
            ),
        ),
        StateEvent::Orphan { .. } => None,
    }
}

fn source_of(a: Altitude) -> (s: Option<VerticalRateSource>)
    ensures
        s == a.source(),
{
    match a {
        Altitude::BaroFeet(_) => Some(VerticalRateSource::Baro),
        Altitude::BaroGillhamFeet(_) => Some(VerticalRateSource::Baro),
        Altitude::GnssFeet(_) => Some(VerticalRateSource::Gnss),
        Altitude::Unavailable => None,
    }
}

/// Whether `s` is the snapshot of an aircraft, a ground velocity having the given
/// track.
pub open spec fn is_snapshot(a: Aircraft, track: Option<Ratio>, s: AircraftSnapshot) -> bool {
    &&& s.icao == a.icao
    &&& match a.callsign {
        Some(c) => s.callsign is Some && s.callsign->0@ == text_of_8(c),
        None => s.callsign is None,
    }
    &&& match a.category {
        Some((set, category)) => s.category is Some && s.category->0@ == seq![set, category],
        None => s.category is None,
    }
    &&& s.position == position_snapshot(a.position)
    &&& s.velocity == match a.velocity {
        Some(v) => Some(velocity_snapshot(v, track)),
        None => None,
    }
    &&& s.counters == counters_snapshot(a.counters)
}

/// The position of an aircraft, for network clients.
pub open spec fn position_snapshot(p: Option<TimedPosition>) -> Option<SnapshotPosition> {
    match p {
        Some(p) => Some(
            SnapshotPosition {
                lat: p.pos.lat_deg,
                lon: p.pos.lon_deg,
                alt_ft: p.altitude.in_feet(),
                alt_source: p.altitude.source(),
                source: p.source,
            },
        ),
        None => None,
    }
}

/// The counters of an aircraft, for network clients.
pub open spec fn counters_snapshot(c: Counters) -> SnapshotCounters {
    SnapshotCounters {
        messages_total: c.messages_total,
        crc_clean: c.crc_clean,
        crc_corrected: c.crc_corrected,
        crc_address_recovered: c.crc_address_recovered,
    }
}

/// The snapshot of an aircraft. `track` is the track of its ground velocity.
#[must_use]
pub fn snapshot_from(a: &Aircraft, track: Option<Ratio>) -> (s: AircraftSnapshot)
    ensures
        is_snapshot(*a, track, s),
{
    let callsign: Option<String> = match &a.callsign {
        Some(c) => Some(String::from_str(str_of_8(c))),
        None => None,
    };
    let category: Option<[u8; 2]> = match a.category {
        Some((set, category)) => {
            let pair: [u8; 2] = [set, category];
            assert(pair@ =~= seq![set, category]);
            Some(pair)
        },
        None => None,
    };
    let position: Option<SnapshotPosition> = match &a.position {
        Some(p) => Some(
            SnapshotPosition {
                lat: p.pos.lat_deg,
                lon: p.pos.lon_deg,
                alt_ft: p.altitude.feet(),
                alt_source: source_of(p.altitude),
                source: p.source,
            },
        ),
        None => None,
    };
    let velocity: Option<SnapshotVelocity> = match a.velocity {
        Some(v) => Some(SnapshotVelocity::from_velocity(v, track)),
        None => None,
    };
    AircraftSnapshot {
        icao: a.icao,
        callsign,
        category,
        position,
        velocity,
        counters: SnapshotCounters {
            messages_total: a.counters.messages_total,
            crc_clean: a.counters.crc_clean,
            crc_corrected: a.counters.crc_corrected,
            crc_address_recovered: a.counters.crc_address_recovered,
        },
    }
}

/// An event never speaks of another aircraft than the change it came from.
pub proof fn law_event_keeps_address(ev: StateEvent, t: Seq<char>, track: Option<Ratio>, e: Event)
    requires
        is_wire_event(ev, t, track, e),
    ensures
        match ev {
            StateEvent::Acquired(icao) => e.address() == icao,
            StateEvent::Identification { icao, .. } => e.address() == icao,
            StateEvent::Position { icao, .. } => e.address() == icao,
            StateEvent::Velocity { icao, .. } => e.address() == icao,
            StateEvent::Lost(icao) => e.address() == icao,
            StateEvent::AddressRecovered { icao, .. } => e.address() == icao,
            StateEvent::Orphan { .. } => false,
        },
{
}

/// A velocity keeps what was reported: knots become 514.444 millimetres per second each,
/// feet per minute 5.08, upwards and downwards alike, and a heading of `h` 1024ths of a turn
/// is that part of 360 degrees. Ground and air speed are not mixed up, and a vertical rate
/// has its source.
pub proof fn law_velocity_keeps_report(v: Velocity, track: Option<Ratio>)
    ensures
        ({
            let s = velocity_snapshot(v, track);
            &&& match v.vertical_rate_fpm {
                Some(fpm) => {
                    &&& s.vr_um_s is Some
                    &&& s.vr_um_s->0 == 5_080 * fpm
                    &&& s.vr_source == Some(v.vertical_rate_source)
                },
                None => s.vr_um_s is None && s.vr_source is None,
            }
            &&& match v.kind {
                VelocityKind::Ground { speed_kt, .. } => {
                    &&& s.gs_um_s is Some
                    &&& s.gs_um_s->0 == 514_444 * speed_kt
                    &&& s.track_deg == track
                    &&& s.ias_um_s is None
                    &&& s.heading_deg is None
                    &&& s.heading_magnetic is None
                },
                VelocityKind::Airspeed { speed_kt, heading_1024, magnetic } => {
                    &&& s.gs_um_s is None
                    &&& s.track_deg is None
                    &&& s.ias_um_s is Some
                    &&& s.ias_um_s->0 == 514_444 * speed_kt
                    &&& s.heading_magnetic == Some(magnetic)
                    &&& s.heading_deg is Some == heading_1024 is Some
                    &&& heading_1024 is Some && heading_1024->0 < 1024 ==> {
                        let deg = s.heading_deg->0@;
                        1024 * deg.num == 360 * heading_1024->0 * deg.den && deg.valid()
                    }
                },
            }
        }),
{
    if let VelocityKind::Airspeed { heading_1024: Some(h), .. } = v.kind {
        let f = Fraction { num: 360 * (h % 1024), den: 1024 };
        Ratio::law_fraction_is_kept(f);
        if h < 1024 {
            assert(f.num == 360 * h);
        }
    }
}

/// An event is of the kind of the change that it tells, and tells all of it: who, when, and
/// the callsign, the position with its altitude in feet, the velocity, or the format of the
/// frame.
pub proof fn law_event_tells_change(ev: StateEvent, t: Seq<char>, track: Option<Ratio>, e: Event)
    requires
        is_wire_event(ev, t, track, e),
    ensures
        match ev {
            StateEvent::Acquired(icao) => e is Acquired && e->Acquired_0.v == 1 && e->Acquired_0.t@ == t
                && e->Acquired_0.icao == icao,
            StateEvent::Identification { icao, callsign } => {
                let w = e->Identification_0;
                e is Identification && w.v == 1 && w.t@ == t && w.icao == icao && w.callsign@ == text_of_8(
                    callsign,
                )
            },
            StateEvent::Position { icao, pos, altitude, source } => {
                let w = e->Position_0;
                &&& e is Position && w.v == 1 && w.t@ == t && w.icao == icao
                &&& w.lat == pos.lat_deg && w.lon == pos.lon_deg && w.source == source
                &&& match altitude {
                    Altitude::BaroFeet(ft) => w.alt_ft == Some(ft) && w.alt_source == Some(
                        VerticalRateSource::Baro,
                    ),
                    Altitude::BaroGillhamFeet(ft) => w.alt_ft == Some(ft) && w.alt_source == Some(
                        VerticalRateSource::Baro,
                    ),
                    Altitude::GnssFeet(ft) => w.alt_ft == Some(ft) && w.alt_source == Some(
                        VerticalRateSource::Gnss,
                    ),
                    Altitude::Unavailable => w.alt_ft is None && w.alt_source is None,
                }
            },
            StateEvent::Velocity { icao, velocity } => {
                let w = e->Velocity_0;
                e is Velocity && w.v == 1 && w.t@ == t && w.icao == icao && w.velocity == velocity_snapshot(
                    velocity,
                    track,
                )
            },
            StateEvent::Lost(icao) => e is Lost && e->Lost_0.v == 1 && e->Lost_0.t@ == t && e->Lost_0.icao
                == icao,
            StateEvent::AddressRecovered { icao, df } => {
                let w = e->AddressRecovered_0;
                e is AddressRecovered && w.v == 1 && w.t@ == t && w.icao == icao && w.df == df.code()
            },
            StateEvent::Orphan { .. } => false,
        },
{
}

/// A snapshot tells all that is known of an aircraft, and nothing that is not.
pub proof fn law_snapshot_tells_aircraft(a: Aircraft, track: Option<Ratio>, s: AircraftSnapshot)
    requires
        is_snapshot(a, track, s),
    ensures
        s.icao == a.icao,
        s.callsign is Some == a.callsign is Some,
        a.callsign is Some ==> s.callsign->0@ == text_of_8(a.callsign->0),
        match a.category {
            Some((set, category)) => s.category is Some && s.category->0@.len() == 2 && s.category->0@[0]
                == set && s.category->0@[1] == category,
            None => s.category is None,
        },
        match a.position {
            Some(p) => {
                let w = s.position->0;
                &&& s.position is Some
                &&& w.lat == p.pos.lat_deg
                &&& w.lon == p.pos.lon_deg
                &&& w.source == p.source
                &&& match p.altitude {
                    Altitude::BaroFeet(ft) => w.alt_ft == Some(ft) && w.alt_source == Some(
                        VerticalRateSource::Baro,
                    ),
                    Altitude::BaroGillhamFeet(ft) => w.alt_ft == Some(ft) && w.alt_source == Some(
                        VerticalRateSource::Baro,
                    ),
                    Altitude::GnssFeet(ft) => w.alt_ft == Some(ft) && w.alt_source == Some(
                        VerticalRateSource::Gnss,
                    ),
                    Altitude::Unavailable => w.alt_ft is None && w.alt_source is None,
                }
            },
            None => s.position is None,
        },
        match a.velocity {
            Some(v) => s.velocity == Some(velocity_snapshot(v, track)),
            None => s.velocity is None,
        },
        s.counters.messages_total == a.counters.messages_total,
        s.counters.crc_clean == a.counters.crc_clean,
        s.counters.crc_corrected == a.counters.crc_corrected,
        s.counters.crc_address_recovered == a.counters.crc_address_recovered,
{
}

/// The kinds of event have names of their own.
pub proof fn law_tags_tell_kinds(a: Event, b: Event)
    requires
        a.tag_text() == b.tag_text(),
    ensures
        a is Acquired == b is Acquired,
        a is Identification == b is Identification,
        a is Position == b is Position,
        a is Velocity == b is Velocity,
        a is Lost == b is Lost,
        a is AddressRecovered == b is AddressRecovered,
{
    reveal_strlit("acquired");
    reveal_strlit("identification");
    reveal_strlit("position");
    reveal_strlit("velocity");
    reveal_strlit("lost");
    reveal_strlit("address_recovered");
    assert("acquired"@.len() == 8 && "acquired"@[0] == 'a');
    assert("identification"@.len() == 14);
    assert("position"@.len() == 8 && "position"@[0] == 'p');
    assert("velocity"@.len() == 8 && "velocity"@[0] == 'v');
    assert("lost"@.len() == 4);
    assert("address_recovered"@.len() == 17);
}

} // verus!

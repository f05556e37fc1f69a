//! Per-aircraft state.
//!
//! A [`StateTracker`] takes in frames and keeps, per address, what is known of the
//! aircraft. The table is ordered by when an aircraft was last heard, and bounded:
//! when it is full, the aircraft heard longest ago makes room.
//!
//! Surveillance replies carry their CRC combined with the address of the sender.
//! Such a frame is attributed to the aircraft heard within the last minute whose
//! address explains its syndrome; if there is none, the frame is an orphan.
//!
//! Instants and durations are in nanoseconds of a clock that the caller chooses.

use crate::cpr::{self, usable_reference, CprError, CprPosition, LatLon, Ratio};
use crate::cpr::{global_of, global_position, local_position};
use crate::crc::{self, crc24_of, CrcOutcome};
use crate::frame::{DownlinkFormat, Frame, FrameModel};
use crate::message::{self, Altitude, DecodeError, ExtendedSquitter, Icao, Message, SquitterPayload, Velocity};
use crate::message::{address_bytes, is_decoded};
use crate::table::{
    distinct_keys, entries, has_key, index_of, iter_next, iter_next_back, moved_to_back, new_table, remaining,
    table_contains, table_front, table_get, table_get_mut, table_insert, table_iter, table_len,
    table_pop_front, table_to_back, AircraftMap,
};
use crate::text::{same_8, text_of_8};
use arrayvec::ArrayString;
use vstd::prelude::*;

verus! {

/// Default number of aircraft kept.
pub const DEFAULT_CAPACITY: usize = 4096;

/// Longest time between the two reports of a pair.
pub const CPR_PAIR_WINDOW: u64 = 10_000_000_000;

/// An aircraft is active for this long after it was heard.
pub const ACTIVE_ICAO_WINDOW: u64 = 60_000_000_000;

/// An aircraft is dropped when it has not been heard for longer than this.
pub const STALE_AFTER: u64 = 300_000_000_000;

/// What is known of an aircraft.
#[derive(Debug, Clone, Copy)]
pub struct Aircraft {
    pub icao: Icao,
    pub callsign: Option<ArrayString<8>>,
    pub category: Option<(u8, u8)>,
    pub position: Option<TimedPosition>,
    pub velocity: Option<Velocity>,
    pub counters: Counters,
    pub last_seen: u64,
    /// The latest even position report, unless it has been discarded.
    pub cpr_even: Option<TimedCpr>,
    /// The latest odd position report, unless it has been discarded.
    pub cpr_odd: Option<TimedCpr>,
}

/// A position with the time it was derived.
#[derive(Debug, Clone, Copy)]
pub struct TimedPosition {
    pub at: u64,
    pub pos: LatLon,
    /// Altitude of the report that gave the position.
    pub altitude: Altitude,
    pub source: PositionSource,
}

/// How a position was derived.
#[derive(Debug, Clone, Copy, PartialEq, Eq, Structural)]
pub enum PositionSource {
    /// From an even and an odd report.
    Global,
    /// From one report near the reference.
    Local,
}

impl PositionSource {
    /// The name of the source.
    pub open spec fn tag_text(self) -> Seq<char> {
        match self {
            PositionSource::Global => "global"@,
            PositionSource::Local => "local"@,
        }
    }

    /// The name of the source, in lower case.
    #[must_use]
    pub fn wire_tag(self) -> (t: &'static str)
        ensures
            t@ == self.tag_text(),
    {
        match self {
            PositionSource::Global => "global",
            PositionSource::Local => "local",
        }
    }
}

/// A position report with the time it arrived.
#[derive(Debug, Clone, Copy)]
pub struct TimedCpr {
    at: u64,
    cpr: CprPosition,
}

impl TimedCpr {
    #[verifier::type_invariant]
    closed spec fn inv(self) -> bool {
        self.cpr.valid()
    }

    /// The report that arrived at a time.
    pub closed spec fn of(at: u64, cpr: CprPosition) -> TimedCpr {
        TimedCpr { at, cpr }
    }

    /// When it arrived.
    pub closed spec fn time(self) -> u64 {
        self.at
    }

    /// What it reports.
    pub closed spec fn report(self) -> CprPosition {
        self.cpr
    }

    /// A report is determined by its time and contents.
    pub broadcast proof fn lemma_of(at: u64, cpr: CprPosition)
        ensures
            (#[trigger] TimedCpr::of(at, cpr)).time() == at,
            TimedCpr::of(at, cpr).report() == cpr,
    {
    }

    fn new(at: u64, cpr: CprPosition) -> (t: TimedCpr)
        requires
            cpr.valid(),
        ensures
            t == TimedCpr::of(at, cpr),
    {
        TimedCpr { at, cpr }
    }

    /// When it arrived.
    #[must_use]
    pub fn at(&self) -> (t: u64)
        ensures
            t == self.time(),
    {
        self.at
    }

    /// What it reports.
    #[must_use]
    pub fn cpr(&self) -> (c: CprPosition)
        ensures
            c == self.report(),
            c.valid(),
    {
        proof {
            use_type_invariant(self);
        }
        self.cpr
    }
}

/// Counters of one aircraft; each starts over after 2^64 events.
#[derive(Debug, Clone, Copy, PartialEq, Eq, Structural)]
pub struct Counters {
    pub messages_total: u64,
    pub crc_clean: u64,
    pub crc_corrected: u64,
    pub crc_failed: u64,
    /// Frames attributed by their syndrome.
    pub crc_address_recovered: u64,
}

impl Counters {
    /// All zero.
    pub open spec fn none() -> Counters {
        Counters {
            messages_total: 0,
            crc_clean: 0,
            crc_corrected: 0,
            crc_failed: 0,
            crc_address_recovered: 0,
        }
    }
}

impl Default for Counters {
    fn default() -> (c: Counters)
        ensures
            c == Counters::none(),
    {
        Counters { messages_total: 0, crc_clean: 0, crc_corrected: 0, crc_failed: 0, crc_address_recovered: 0 }
    }
}

/// What happened to the table.
#[derive(Debug, Clone, Copy)]
pub enum StateEvent {
    /// An aircraft that was not in the table was heard.
    Acquired(Icao),
    /// A callsign was learned or changed.
    Identification { icao: Icao, callsign: ArrayString<8> },
    /// A position was derived.
    Position { icao: Icao, pos: LatLon, altitude: Altitude, source: PositionSource },
    /// A velocity was reported.
    Velocity { icao: Icao, velocity: Velocity },
    /// An aircraft was dropped from the table.
    Lost(Icao),
    /// A frame was attributed to an aircraft by its syndrome.
    AddressRecovered { icao: Icao, df: DownlinkFormat },
    /// A frame could not be attributed to an aircraft.
    Orphan { df: DownlinkFormat },
}

// --- Model -------------------------------------------------------------------

/// The time from `then` to `now`, none if `then` is later.
pub open spec fn elapsed(now: u64, then: u64) -> int {
    if now >= then {
        now - then
    } else {
        0
    }
}

/// What a tracker remembers.
pub struct TrackerModel {
    /// Address and aircraft, the one heard longest ago first.
    pub table: Seq<(u32, Aircraft)>,
    pub capacity: usize,
    pub reference: Option<LatLon>,
}

/// An aircraft about which nothing is known yet.
pub open spec fn new_aircraft(icao: u32, at: u64) -> Aircraft {
    Aircraft {
        icao: Icao(icao),
        callsign: None,
        category: None,
        position: None,
        velocity: None,
        counters: Counters::none(),
        last_seen: at,
        cpr_even: None,
        cpr_odd: None,
    }
}

/// One more than `c`.
pub open spec fn bump(c: u64) -> u64 {
    if c == u64::MAX {
        0
    } else {
        (c + 1) as u64
    }
}

/// The aircraft after a frame with a CRC outcome has been counted.
pub open spec fn counted(a: Aircraft, at: u64, crc: CrcOutcome) -> Aircraft {
    let c = a.counters;
    let c = Counters { messages_total: bump(c.messages_total), ..c };
    let c = match crc {
        CrcOutcome::Clean => Counters { crc_clean: bump(c.crc_clean), ..c },
        CrcOutcome::Corrected { .. } => Counters { crc_corrected: bump(c.crc_corrected), ..c },
        CrcOutcome::Failed => Counters { crc_address_recovered: bump(c.crc_address_recovered), ..c },
    };
    Aircraft { last_seen: at, counters: c, ..a }
}

/// The aircraft with a new position, and the event that says so.
pub open spec fn placed(a: Aircraft, at: u64, pos: LatLon, altitude: Altitude, source: PositionSource) -> (
    Aircraft,
    Seq<StateEvent>,
) {
    (
        Aircraft { position: Some(TimedPosition { at, pos, altitude, source }), ..a },
        seq![StateEvent::Position { icao: a.icao, pos, altitude, source }],
    )
}

/// The odd report is at least as recent as the even one.
pub open spec fn odd_is_newer(even: TimedCpr, odd: TimedCpr) -> bool {
    odd.time() >= even.time()
}

/// The aircraft without the older of its two reports.
pub open spec fn without_older(a: Aircraft, even: TimedCpr, odd: TimedCpr) -> Aircraft {
    if odd_is_newer(even, odd) {
        Aircraft { cpr_even: None, ..a }
    } else {
        Aircraft { cpr_odd: None, ..a }
    }
}

/// The time between two reports.
pub open spec fn gap(even: TimedCpr, odd: TimedCpr) -> int {
    if odd_is_newer(even, odd) {
        odd.time() - even.time()
    } else {
        even.time() - odd.time()
    }
}

/// The most recent report of an aircraft; the even one of two that came together.
pub open spec fn freshest(a: Aircraft) -> Option<TimedCpr> {
    match (a.cpr_even, a.cpr_odd) {
        (Some(e), Some(o)) => if e.time() >= o.time() {
            Some(e)
        } else {
            Some(o)
        },
        (Some(e), None) => Some(e),
        (None, Some(o)) => Some(o),
        (None, None) => None,
    }
}

/// The outcome of placing an aircraft by its most recent report near the reference,
/// if there is one.
pub open spec fn placed_locally(a: Aircraft, at: u64, altitude: Altitude, reference: Option<LatLon>) -> (
    Aircraft,
    Seq<StateEvent>,
) {
    match (reference, freshest(a)) {
        (Some(r), Some(f)) => placed(
            a,
            at,
            local_position(f.report(), r, 1),
            altitude,
            PositionSource::Local,
        ),
        _ => (a, Seq::empty()),
    }
}

/// The outcome of placing an aircraft by what it has reported. Two reports close in
/// time place it globally. If they cannot, the older is discarded (both, if they
/// make no sense together), and the reference decides.
pub open spec fn position_resolved(a: Aircraft, at: u64, altitude: Altitude, reference: Option<LatLon>) -> (
    Aircraft,
    Seq<StateEvent>,
) {
    match (a.cpr_even, a.cpr_odd) {
        (Some(e), Some(o)) => if gap(e, o) <= CPR_PAIR_WINDOW {
            match global_position(e.report(), o.report(), odd_is_newer(e, o)) {
                Ok(pos) => placed(a, at, pos, altitude, PositionSource::Global),
                Err(CprError::LatitudeZoneMismatch) => placed_locally(
                    without_older(a, e, o),
                    at,
                    altitude,
                    reference,
                ),
                Err(_) => placed_locally(
                    Aircraft { cpr_even: None, cpr_odd: None, ..a },
                    at,
                    altitude,
                    reference,
                ),
            }
        } else {
            placed_locally(without_older(a, e, o), at, altitude, reference)
        },
        _ => placed_locally(a, at, altitude, reference),
    }
}

/// Whether a callsign differs from the one known.
pub open spec fn callsign_changed(known: Option<ArrayString<8>>, heard: ArrayString<8>) -> bool {
    match known {
        Some(k) => text_of_8(k) != text_of_8(heard),
        None => true,
    }
}

/// The outcome of an extended squitter for its aircraft.
pub open spec fn squitter_applied(a: Aircraft, es: ExtendedSquitter, at: u64, reference: Option<LatLon>) -> (
    Aircraft,
    Seq<StateEvent>,
) {
    match es.payload {
        SquitterPayload::Identification(id) => (
            Aircraft { callsign: Some(id.callsign), category: Some((id.category_set, id.category)), ..a },
            if callsign_changed(a.callsign, id.callsign) {
                seq![StateEvent::Identification { icao: es.icao, callsign: id.callsign }]
            } else {
                Seq::empty()
            },
        ),
        SquitterPayload::AirbornePosition(p) => position_resolved(
            if p.cpr.odd {
                Aircraft { cpr_odd: Some(TimedCpr::of(at, p.cpr)), ..a }
            } else {
                Aircraft { cpr_even: Some(TimedCpr::of(at, p.cpr)), ..a }
            },
            at,
            p.altitude,
            reference,
        ),
        SquitterPayload::Velocity(v) => (
            Aircraft { velocity: Some(v), ..a },
            seq![StateEvent::Velocity { icao: es.icao, velocity: v }],
        ),
        SquitterPayload::Raw(_) => (a, Seq::empty()),
    }
}

/// The outcome of a message, if any, for its aircraft.
pub open spec fn message_applied(a: Aircraft, msg: Option<Message>, at: u64, reference: Option<LatLon>) -> (
    Aircraft,
    Seq<StateEvent>,
) {
    match msg {
        Some(Message::ExtendedSquitter(es)) => squitter_applied(a, es, at, reference),
        _ => (a, Seq::empty()),
    }
}

/// The address that a message carries.
pub open spec fn sender_of(msg: Message) -> Option<u32> {
    match msg {
        Message::ExtendedSquitter(es) => Some(es.icao.0),
        Message::AllCallReply { icao } => Some(icao.0),
        _ => None,
    }
}

/// The most recently heard active aircraft whose address has the given CRC.
pub open spec fn recovered(table: Seq<(u32, Aircraft)>, at: u64, syndrome: u32) -> Option<u32>
    decreases table.len(),
{
    if table.len() == 0 {
        None
    } else if elapsed(at, table.last().1.last_seen) >= ACTIVE_ICAO_WINDOW {
        None
    } else if crc24_of(address_bytes(table.last().0)) == syndrome {
        Some(table.last().0)
    } else {
        recovered(table.drop_last(), at, syndrome)
    }
}

/// The aircraft that a frame is attributed to, and its message where the CRC vouches
/// for it. A frame whose CRC failed is attributed by its syndrome.
pub open spec fn attributed(
    table: Seq<(u32, Aircraft)>,
    frame: FrameModel,
    at: u64,
    decoded: Result<Message, DecodeError>,
) -> Option<(u32, Option<Message>)> {
    if frame.crc == CrcOutcome::Failed {
        if crc24_of(frame.bytes) == 0 {
            None
        } else {
            match recovered(table, at, crc24_of(frame.bytes)) {
                Some(icao) => Some((icao, None)),
                None => None,
            }
        }
    } else {
        match decoded {
            Ok(msg) => match sender_of(msg) {
                Some(icao) => Some((icao, Some(msg))),
                None => None,
            },
            Err(_) => None,
        }
    }
}

/// How many entries from the front on are stale.
pub open spec fn stale_count(table: Seq<(u32, Aircraft)>, now: u64) -> nat
    decreases table.len(),
{
    if table.len() > 0 && elapsed(now, table[0].1.last_seen) > STALE_AFTER {
        1 + stale_count(table.skip(1), now)
    } else {
        0
    }
}

/// The events that say that the first `n` entries were dropped.
pub open spec fn lost(table: Seq<(u32, Aircraft)>, n: nat) -> Seq<StateEvent> {
    Seq::new(n, |i: int| StateEvent::Lost(Icao(table[i].0)))
}

/// How many entries make room for a new one: none while there is room, otherwise
/// the first and those behind it that are stale.
pub open spec fn evicted_count(table: Seq<(u32, Aircraft)>, capacity: usize, now: u64) -> nat {
    if table.len() < capacity || table.len() == 0 {
        0
    } else {
        1 + stale_count(table.skip(1), now)
    }
}

impl TrackerModel {
    /// No address occurs twice, every aircraft is filed under its own address, and
    /// the table does not exceed its capacity (there is always room for one).
    pub open spec fn valid(self) -> bool {
        &&& distinct_keys(self.table)
        &&& forall|i: int| 0 <= i < self.table.len() ==> (#[trigger] self.table[i]).1.icao.0 == self.table[i].0
        &&& self.table.len() <= self.capacity || self.table.len() <= 1
    }

    /// A tracker that has heard nothing.
    pub open spec fn empty(capacity: usize) -> TrackerModel {
        TrackerModel { table: Seq::empty(), capacity, reference: None }
    }

    /// The table with the aircraft that was heard at its back, and what happened.
    pub open spec fn touched(self, icao: u32, at: u64) -> (Seq<(u32, Aircraft)>, Seq<StateEvent>) {
        if has_key(self.table, icao) {
            (moved_to_back(self.table, icao), Seq::empty())
        } else {
            let n = evicted_count(self.table, self.capacity, at);
            (
                self.table.skip(n as int).push((icao, new_aircraft(icao, at))),
                lost(self.table, n).push(StateEvent::Acquired(Icao(icao))),
            )
        }
    }

    /// The tracker after a frame, and what happened. `decoded` is what the frame
    /// decodes to.
    pub open spec fn ingested(self, frame: FrameModel, at: u64, decoded: Result<Message, DecodeError>) -> (
        TrackerModel,
        Seq<StateEvent>,
    ) {
        match attributed(self.table, frame, at, decoded) {
            None => (self, seq![StateEvent::Orphan { df: frame.df }]),
            Some((icao, msg)) => {
                let (table, first) = self.touched(icao, at);
                let second = if frame.crc == CrcOutcome::Failed {
                    seq![StateEvent::AddressRecovered { icao: Icao(icao), df: frame.df }]
                } else {
                    Seq::empty()
                };
                let (a, third) = message_applied(
                    counted(table.last().1, at, frame.crc),
                    msg,
                    at,
                    self.reference,
                );
                (
                    TrackerModel { table: table.drop_last().push((icao, a)), ..self },
                    first + second + third,
                )
            },
        }
    }

    /// The tracker without the stale aircraft at its front, and what happened.
    pub open spec fn pruned(self, now: u64) -> (TrackerModel, Seq<StateEvent>) {
        let n = stale_count(self.table, now);
        (TrackerModel { table: self.table.skip(n as int), ..self }, lost(self.table, n))
    }
}

// --- Implementation ----------------------------------------------------------

/// A usable reference position.
#[derive(Debug, Clone, Copy)]
struct Reference {
    pos: LatLon,
}

impl Reference {
    #[verifier::type_invariant]
    spec fn inv(self) -> bool {
        usable_reference(self.pos)
    }
}

/// Keeps what is known of the aircraft within range of a receiver.
#[derive(Debug)]
pub struct StateTracker {
    by_icao: AircraftMap,
    capacity: usize,
    reference: Option<Reference>,
}

impl View for StateTracker {
    type V = TrackerModel;

    closed spec fn view(&self) -> TrackerModel {
        TrackerModel {
            table: entries(self.by_icao),
            capacity: self.capacity,
            reference: match self.reference {
                Some(r) => Some(r.pos),
                None => None,
            },
        }
    }
}

fn since(now: u64, then: u64) -> (d: u64)
    ensures
        d == elapsed(now, then),
{
    if now >= then {
        now - then
    } else {
        0
    }
}

impl StateTracker {
    /// A tracker with the default capacity.
    #[must_use]
    pub fn new() -> (t: StateTracker)
        ensures
            t@ == TrackerModel::empty(DEFAULT_CAPACITY),
            t@.valid(),
    {
        StateTracker::with_capacity(DEFAULT_CAPACITY)
    }

    /// A tracker for at most `capacity` aircraft.
    #[must_use]
    pub fn with_capacity(capacity: usize) -> (t: StateTracker)
        requires
            32 * capacity + 64 <= isize::MAX,
        ensures
            t@ == TrackerModel::empty(capacity),
            t@.valid(),
    {
        StateTracker { by_icao: new_table(capacity), capacity, reference: None }
    }

    /// Sets the position of the receiver, which places aircraft that have sent a
    /// single report.
    pub fn set_reference(&mut self, pos: LatLon)
        requires
            usable_reference(pos),
        ensures
            final(self)@ == (TrackerModel { reference: Some(pos), ..old(self)@ }),
    {
        self.reference = Some(Reference { pos });
    }

    /// Number of aircraft tracked.
    #[must_use]
    pub fn len(&self) -> (n: usize)
        ensures
            n == self@.table.len(),
    {
        table_len(&self.by_icao)
    }

    /// Whether no aircraft is tracked.
    #[must_use]
    pub fn is_empty(&self) -> (yes: bool)
        ensures
            yes == (self@.table.len() == 0),
    {
        table_len(&self.by_icao) == 0
    }

    /// All aircraft, the one heard longest ago first.
    pub fn aircraft(&self) -> (all: Vec<&Aircraft>)
        ensures
            all@.len() == self@.table.len(),
            forall|i: int| 0 <= i < all@.len() ==> *#[trigger] all@[i] == self@.table[i].1,
    {
        let mut all: Vec<&Aircraft> = Vec::new();
        let mut it = table_iter(&self.by_icao);
        let ghost table = self@.table;
        let mut done: bool = false;
        while !done
            invariant
                all@.len() <= table.len(),
                remaining(it) == table.skip(all@.len() as int),
                forall|i: int| 0 <= i < all@.len() ==> *#[trigger] all@[i] == table[i].1,
                done ==> all@.len() == table.len(),
            decreases table.len() - all@.len(), (if done { 0int } else { 1int }),
        {
            match iter_next(&mut it) {
                Some((_, a)) => {
                    assert(table.skip(all@.len() as int).skip(1) =~= table.skip(all@.len() as int + 1));
                    all.push(a);
                },
                None => {
                    done = true;
                },
            }
        }
        all
    }

    /// The aircraft with an address.
    #[must_use]
    pub fn get(&self, icao: Icao) -> (a: Option<&Aircraft>)
        ensures
            match a {
                Some(a) => has_key(self@.table, icao.0) && *a == self@.table[index_of(self@.table, icao.0)].1,
                None => !has_key(self@.table, icao.0),
            },
    {
        table_get(&self.by_icao, icao.0)
    }

    /// Takes in a frame received at `at`, and appends what happened to `out`.
    pub fn ingest(&mut self, frame: &Frame, at: u64, out: &mut Vec<StateEvent>)
        requires
            old(self)@.valid(),
        ensures
            final(self)@.valid(),
            exists|decoded: Result<Message, DecodeError>|
                #![trigger is_decoded(frame@, decoded)]
                {
                    &&& is_decoded(frame@, decoded)
                    &&& final(self)@ == old(self)@.ingested(frame@, at, decoded).0
                    &&& final(out)@ == old(out)@ + old(self)@.ingested(frame@, at, decoded).1
                },
    {
        let decoded = message::decode(frame);
        proof {
            lemma_decoded_reports_are_valid(frame@, decoded);
        }
        self.ingest_decoded(frame, &decoded, at, out);
        assert(is_decoded(frame@, decoded));
    }
}

/// Position reports in the message have 17-bit fields.
pub open spec fn reports_are_valid(decoded: Result<Message, DecodeError>) -> bool {
    match decoded {
        Ok(Message::ExtendedSquitter(es)) => match es.payload {
            SquitterPayload::AirbornePosition(p) => p.cpr.valid(),
            _ => true,
        },
        _ => true,
    }
}

proof fn lemma_decoded_reports_are_valid(frame: FrameModel, decoded: Result<Message, DecodeError>)
    requires
        is_decoded(frame, decoded),
    ensures
        reports_are_valid(decoded),
{
    if let Ok(Message::ExtendedSquitter(es)) = decoded {
        if let SquitterPayload::AirbornePosition(p) = es.payload {
            let me = frame.bytes.subrange(4, 11);
            message::lemma_report_is_valid(me);
        }
    }
}

impl StateTracker {
    /// As [`StateTracker::ingest`], for a frame that has been decoded: `decoded` is
    /// what it decodes to.
    pub fn ingest_decoded(
        &mut self,
        frame: &Frame,
        decoded: &Result<Message, DecodeError>,
        at: u64,
        out: &mut Vec<StateEvent>,
    )
        requires
            old(self)@.valid(),
            reports_are_valid(*decoded),
        ensures
            final(self)@ == old(self)@.ingested(frame@, at, *decoded).0,
            final(out)@ == old(out)@ + old(self)@.ingested(frame@, at, *decoded).1,
            final(self)@.valid(),
    {
        let ghost before = self@;
        let ghost sofar = out@;
        proof {
            law_ingest_keeps_table_valid(before, frame@, at, *decoded);
        }
        let resolved = self.resolve_icao(frame, at, decoded);
        let (icao, msg) = match resolved {
            Some(r) => r,
            None => {
                out.push(StateEvent::Orphan { df: frame.downlink_format() });
                assert(out@ =~= sofar + seq![StateEvent::Orphan { df: frame@.df }]);
                return;
            },
        };
        let ghost table = before.touched(icao, at).0;
        let ghost first = before.touched(icao, at).1;
        let known: bool = table_contains(&self.by_icao, icao);
        if !known {
            self.evict_if_needed(at, out);
            let ghost n = evicted_count(before.table, before.capacity, at);
            proof {
                lemma_evicted_fits(before.table, before.capacity, at);
                lemma_skip_keeps(before.table, n as int, icao);
            }
            table_insert(&mut self.by_icao, icao, Aircraft {
                icao: Icao(icao),
                callsign: None,
                category: None,
                position: None,
                velocity: None,
                counters: Counters::default(),
                last_seen: at,
                cpr_even: None,
                cpr_odd: None,
            });
            out.push(StateEvent::Acquired(Icao(icao)));
            assert(out@ =~= sofar + first);
        } else {
            table_to_back(&mut self.by_icao, icao);
            assert(out@ =~= sofar + first);
        }
        assert(entries(self.by_icao) == table);
        proof {
            lemma_touched_last(before, icao, at);
        }
        let reference: Option<Reference> = self.reference;
        let crc = frame.crc_outcome();
        let ghost second = if frame@.crc == CrcOutcome::Failed {
            seq![StateEvent::AddressRecovered { icao: Icao(icao), df: frame@.df }]
        } else {
            Seq::empty()
        };
        match table_get_mut(&mut self.by_icao, icao) {
            Some(aircraft) => {
                count_frame(aircraft, at, crc);
                if let CrcOutcome::Failed = crc {
                    out.push(StateEvent::AddressRecovered { icao: Icao(icao), df: frame.downlink_format() });
                }
                assert(out@ =~= sofar + first + second);
                if let Some(m) = msg {
                    apply_message(aircraft, m, at, reference, out);
                }
            },
            None => {
                assert(false);
            },
        }
        let ghost third = message_applied(
            counted(table.last().1, at, frame@.crc),
            match msg {
                Some(m) => Some(*m),
                None => None,
            },
            at,
            before.reference,
        ).1;
        assert(out@ =~= sofar + (first + second + third));
        assert(entries(self.by_icao) =~= before.ingested(frame@, at, *decoded).0.table);
    }

    /// Drops the aircraft that have not been heard for longer than [`STALE_AFTER`],
    /// from the front of the table on, and appends what happened to `out`.
    pub fn evict_stale(&mut self, now: u64, out: &mut Vec<StateEvent>)
        ensures
            final(self)@ == old(self)@.pruned(now).0,
            final(out)@ == old(out)@ + old(self)@.pruned(now).1,
            old(self)@.valid() ==> final(self)@.valid(),
    {
        let ghost before = self@;
        let ghost sofar = out@;
        let ghost n = stale_count(before.table, now);
        let ghost mut k: nat = 0;
        proof {
            lemma_stale_bound(before.table, now);
            assert(before.table.skip(0) =~= before.table);
            assert(sofar + lost(before.table, 0) =~= sofar);
            if before.valid() {
                lemma_skip_valid(before, n as int);
            }
        }
        let mut done: bool = false;
        while !done
            invariant
                n == stale_count(before.table, now),
                n <= before.table.len(),
                k <= n,
                k + stale_count(before.table.skip(k as int), now) == n,
                self@ == (TrackerModel { table: before.table.skip(k as int), ..before }),
                out@ == sofar + lost(before.table, k),
                done ==> k == n,
            decreases n - k, (if done { 0int } else { 1int }),
        {
            let ghost rest = before.table.skip(k as int);
            let stale: bool = match table_front(&self.by_icao) {
                Some((_, aircraft)) => since(now, aircraft.last_seen) > STALE_AFTER,
                None => false,
            };
            if !stale {
                done = true;
            } else {
                match table_pop_front(&mut self.by_icao) {
                    Some((icao, _)) => {
                        out.push(StateEvent::Lost(Icao(icao)));
                        proof {
                            assert(rest.skip(1) =~= before.table.skip(k as int + 1));
                            assert(rest[0] == before.table[k as int]);
                            k = k + 1;
                            assert(sofar + lost(before.table, k) =~= (sofar + lost(before.table, (k - 1) as nat)).push(
                                StateEvent::Lost(Icao(icao)),
                            ));
                        }
                    },
                    None => {
                        assert(false);
                    },
                }
            }
        }
    }

    /// Makes room for an aircraft when the table is full.
    fn evict_if_needed(&mut self, now: u64, out: &mut Vec<StateEvent>)
        ensures
            ({
                let n = evicted_count(old(self)@.table, old(self)@.capacity, now);
                &&& final(self)@ == (TrackerModel { table: old(self)@.table.skip(n as int), ..old(self)@ })
                &&& final(out)@ == old(out)@ + lost(old(self)@.table, n)
            }),
    {
        let ghost before = self@;
        let ghost sofar = out@;
        if table_len(&self.by_icao) < self.capacity {
            assert(before.table.skip(0) =~= before.table);
            assert(sofar + lost(before.table, 0) =~= sofar);
            return;
        }
        let ghost n = evicted_count(before.table, before.capacity, now);
        if let Some((icao, _)) = table_pop_front(&mut self.by_icao) {
            out.push(StateEvent::Lost(Icao(icao)));
        }
        let ghost mid = self@;
        let ghost reported = out@;
        self.evict_stale(now, out);
        proof {
            if before.table.len() == 0 {
                assert(mid.table =~= before.table);
                assert(stale_count(mid.table, now) == 0);
                assert(before.table.skip(0) =~= before.table);
                assert(out@ =~= sofar + lost(before.table, 0));
            } else {
                lemma_stale_bound(mid.table, now);
                let k = stale_count(mid.table, now);
                assert(before.table.skip(1).skip(k as int) =~= before.table.skip(n as int));
                assert(reported + lost(mid.table, k) =~= sofar + lost(before.table, n));
            }
        }
    }

    /// The aircraft that a frame is attributed to, with its message if the CRC vouches
    /// for it.
    fn resolve_icao<'a>(&self, frame: &Frame, at: u64, decoded: &'a Result<Message, DecodeError>) -> (r: Option<
        (u32, Option<&'a Message>),
    >)
        requires
            reports_are_valid(*decoded),
        ensures
            match r {
                Some((icao, msg)) => attributed(self@.table, frame@, at, *decoded) == Some(
                    (
                        icao,
                        match msg {
                            Some(m) => Some(*m),
                            None => None::<Message>,
                        },
                    ),
                ),
                None => attributed(self@.table, frame@, at, *decoded) is None,
            },
            match r {
                Some((_, Some(m))) => reports_are_valid(Ok(*m)),
                _ => true,
            },
    {
        match frame.crc_outcome() {
            CrcOutcome::Failed => {
                let syndrome: u32 = crc::crc24(frame.bytes());
                if syndrome == 0 {
                    return None;
                }
                let mut it = table_iter(&self.by_icao);
                let ghost table = self@.table;
                loop
                    invariant
                        frame@.crc == CrcOutcome::Failed,
                        syndrome == crc24_of(frame@.bytes),
                        syndrome != 0,
                        table == self@.table,
                        recovered(table, at, syndrome) == recovered(remaining(it), at, syndrome),
                    decreases remaining(it).len(),
                {
                    match iter_next_back(&mut it) {
                        None => {
                            return None;
                        },
                        Some((icao, aircraft)) => {
                            if since(at, aircraft.last_seen) >= ACTIVE_ICAO_WINDOW {
                                return None;
                            }
                            let bytes = Icao(*icao).to_bytes();
                            if crc::crc24(bytes.as_slice()) == syndrome {
                                return Some((*icao, None));
                            }
                        },
                    }
                }
            },
            _ => match decoded {
                Ok(msg) => match icao_of(msg) {
                    Some(icao) => Some((icao.0, Some(msg))),
                    None => None,
                },
                Err(_) => None,
            },
        }
    }
}

impl Default for StateTracker {
    fn default() -> (t: StateTracker)
        ensures
            t@ == TrackerModel::empty(DEFAULT_CAPACITY),
            t@.valid(),
    {
        StateTracker::new()
    }
}

fn icao_of(msg: &Message) -> (r: Option<Icao>)
    ensures
        match r {
            Some(i) => sender_of(*msg) == Some(i.0),
            None => sender_of(*msg) is None,
        },
{
    match msg {
        Message::ExtendedSquitter(es) => Some(es.icao),
        Message::AllCallReply { icao } => Some(*icao),
        _ => None,
    }
}

fn count_frame(aircraft: &mut Aircraft, at: u64, crc: CrcOutcome)
    ensures
        *final(aircraft) == counted(*old(aircraft), at, crc),
{
    aircraft.last_seen = at;
    aircraft.counters.messages_total = aircraft.counters.messages_total.wrapping_add(1);
    match crc {
        CrcOutcome::Clean => {
            aircraft.counters.crc_clean = aircraft.counters.crc_clean.wrapping_add(1);
        },
        CrcOutcome::Corrected { .. } => {
            aircraft.counters.crc_corrected = aircraft.counters.crc_corrected.wrapping_add(1);
        },
        CrcOutcome::Failed => {
            aircraft.counters.crc_address_recovered = aircraft.counters.crc_address_recovered.wrapping_add(1);
        },
    }
}

spec fn position_of(reference: Option<Reference>) -> Option<LatLon> {
    match reference {
        Some(r) => Some(r.pos),
        None => None,
    }
}

fn apply_message(
    aircraft: &mut Aircraft,
    msg: &Message,
    at: u64,
    reference: Option<Reference>,
    out: &mut Vec<StateEvent>,
)
    requires
        reports_are_valid(Ok(*msg)),
    ensures
        ({
            let r = message_applied(*old(aircraft), Some(*msg), at, position_of(reference));
            *final(aircraft) == r.0 && final(out)@ == old(out)@ + r.1
        }),
{
    match msg {
        Message::ExtendedSquitter(es) => apply_extended_squitter(aircraft, es, at, reference, out),
        _ => {
            assert(out@ + Seq::<StateEvent>::empty() =~= out@);
        },
    }
}

fn apply_extended_squitter(
    aircraft: &mut Aircraft,
    es: &ExtendedSquitter,
    at: u64,
    reference: Option<Reference>,
    out: &mut Vec<StateEvent>,
)
    requires
        reports_are_valid(Ok(Message::ExtendedSquitter(*es))),
    ensures
        ({
            let r = squitter_applied(*old(aircraft), *es, at, position_of(reference));
            *final(aircraft) == r.0 && final(out)@ == old(out)@ + r.1
        }),
{
    let ghost sofar = out@;
    match &es.payload {
        SquitterPayload::Identification(id) => {
            let changed: bool = match &aircraft.callsign {
                Some(known) => !same_8(known, &id.callsign),
                None => true,
            };
            aircraft.callsign = Some(id.callsign);
            aircraft.category = Some((id.category_set, id.category));
            if changed {
                out.push(StateEvent::Identification { icao: es.icao, callsign: id.callsign });
                assert(out@ =~= sofar + seq![
                    StateEvent::Identification { icao: es.icao, callsign: id.callsign },
                ]);
            } else {
                assert(out@ =~= sofar + Seq::<StateEvent>::empty());
            }
        },
        SquitterPayload::AirbornePosition(p) => {
            let fragment = TimedCpr::new(at, p.cpr);
            if p.cpr.odd {
                aircraft.cpr_odd = Some(fragment);
            } else {
                aircraft.cpr_even = Some(fragment);
            }
            try_resolve_position(aircraft, at, p.altitude, reference, out);
        },
        SquitterPayload::Velocity(v) => {
            aircraft.velocity = Some(*v);
            out.push(StateEvent::Velocity { icao: es.icao, velocity: *v });
            assert(out@ =~= sofar + seq![StateEvent::Velocity { icao: es.icao, velocity: *v }]);
        },
        SquitterPayload::Raw(_) => {
            assert(out@ =~= sofar + Seq::<StateEvent>::empty());
        },
    }
}

fn place(
    aircraft: &mut Aircraft,
    at: u64,
    pos: LatLon,
    altitude: Altitude,
    source: PositionSource,
    out: &mut Vec<StateEvent>,
)
    ensures
        ({
            let r = placed(*old(aircraft), at, pos, altitude, source);
            *final(aircraft) == r.0 && final(out)@ == old(out)@ + r.1
        }),
{
    let ghost sofar = out@;
    aircraft.position = Some(TimedPosition { at, pos, altitude, source });
    out.push(StateEvent::Position { icao: aircraft.icao, pos, altitude, source });
    assert(out@ =~= sofar + seq![StateEvent::Position { icao: aircraft.icao, pos, altitude, source }]);
}

fn place_locally(
    aircraft: &mut Aircraft,
    at: u64,
    altitude: Altitude,
    reference: Option<Reference>,
    out: &mut Vec<StateEvent>,
)
    ensures
        ({
            let r = placed_locally(*old(aircraft), at, altitude, position_of(reference));
            *final(aircraft) == r.0 && final(out)@ == old(out)@ + r.1
        }),
{
    assert(out@ + Seq::<StateEvent>::empty() =~= out@);
    let ref_pos = match reference {
        Some(r) => r,
        None => {
            return;
        },
    };
    proof {
        use_type_invariant(&ref_pos);
    }
    let fragment = match (aircraft.cpr_even, aircraft.cpr_odd) {
        (Some(e), Some(o)) => if e.at() >= o.at() {
            e
        } else {
            o
        },
        (Some(e), None) => e,
        (None, Some(o)) => o,
        (None, None) => {
            return;
        },
    };
    let pos = cpr::local_decode(fragment.cpr(), ref_pos.pos);
    place(aircraft, at, pos, altitude, PositionSource::Local, out);
}

fn try_resolve_position(
    aircraft: &mut Aircraft,
    at: u64,
    altitude: Altitude,
    reference: Option<Reference>,
    out: &mut Vec<StateEvent>,
)
    ensures
        ({
            let r = position_resolved(*old(aircraft), at, altitude, position_of(reference));
            *final(aircraft) == r.0 && final(out)@ == old(out)@ + r.1
        }),
{
    if let (Some(e), Some(o)) = (aircraft.cpr_even, aircraft.cpr_odd) {
        let odd_newer: bool = o.at() >= e.at();
        let between: u64 = if odd_newer {
            o.at() - e.at()
        } else {
            e.at() - o.at()
        };
        let mut drop_even: bool = odd_newer;
        let mut drop_odd: bool = !odd_newer;
        if between <= CPR_PAIR_WINDOW {
            match cpr::global_decode(e.cpr(), o.cpr(), odd_newer) {
                Ok(pos) => {
                    place(aircraft, at, pos, altitude, PositionSource::Global, out);
                    return;
                },
                Err(CprError::LatitudeZoneMismatch) => {},
                Err(_) => {
                    drop_even = true;
                    drop_odd = true;
                },
            }
        }
        if drop_even {
            aircraft.cpr_even = None;
        }
        if drop_odd {
            aircraft.cpr_odd = None;
        }
    }
    place_locally(aircraft, at, altitude, reference, out);
}

// --- Laws --------------------------------------------------------------------

/// The table is in the order in which the aircraft were last heard.
pub open spec fn heard_in_order(table: Seq<(u32, Aircraft)>) -> bool {
    forall|i: int, j: int|
        0 <= i <= j < table.len() ==> (#[trigger] table[i]).1.last_seen <= (#[trigger] table[j]).1.last_seen
}

/// Nothing in the table was heard after `at`.
pub open spec fn heard_by(table: Seq<(u32, Aircraft)>, at: u64) -> bool {
    forall|i: int| 0 <= i < table.len() ==> (#[trigger] table[i]).1.last_seen <= at
}

/// While frames arrive in order of time, the table stays in that order: its front is
/// always the aircraft heard longest ago.
pub proof fn law_table_stays_in_order(
    t: TrackerModel,
    frame: FrameModel,
    at: u64,
    decoded: Result<Message, DecodeError>,
)
    requires
        t.valid(),
        heard_in_order(t.table),
        heard_by(t.table, at),
    ensures
        heard_in_order(t.ingested(frame, at, decoded).0.table),
        heard_by(t.ingested(frame, at, decoded).0.table, at),
{
    match attributed(t.table, frame, at, decoded) {
        None => {},
        Some((icao, msg)) => {
            lemma_touched_last(t, icao, at);
            let table = t.touched(icao, at).0;
            let after = t.ingested(frame, at, decoded).0.table;
            lemma_message_keeps_address(counted(table.last().1, at, frame.crc), msg, at, t.reference);
            let n = (after.len() - 1) as int;
            assert forall|i: int, j: int| 0 <= i <= j < after.len() implies (#[trigger] after[i]).1.last_seen <= (
            #[trigger] after[j]).1.last_seen by {
                if has_key(t.table, icao) {
                    let p = index_of(t.table, icao);
                    let a = if i < p { i } else { i + 1 };
                    let b = if j < p { j } else { j + 1 };
                    if i < n {
                        assert(after[i] == t.table[a]);
                    }
                    if j < n {
                        assert(after[j] == t.table[b]);
                    }
                } else {
                    let e = evicted_count(t.table, t.capacity, at) as int;
                    lemma_evicted_fits(t.table, t.capacity, at);
                    if i < n {
                        assert(after[i] == t.table[i + e]);
                    }
                    if j < n {
                        assert(after[j] == t.table[j + e]);
                    }
                }
            }
            assert(after[n].1.last_seen == at);
            assert forall|i: int| 0 <= i < after.len() implies (#[trigger] after[i]).1.last_seen <= at by {
                assert(after[i].1.last_seen <= after[n].1.last_seen);
            }
        },
    }
}

/// A frame whose CRC failed never brings in an aircraft.
pub proof fn law_failed_frames_invent_nothing(
    t: TrackerModel,
    frame: FrameModel,
    at: u64,
    decoded: Result<Message, DecodeError>,
    icao: u32,
)
    requires
        t.valid(),
        frame.crc == CrcOutcome::Failed,
        has_key(t.ingested(frame, at, decoded).0.table, icao),
    ensures
        has_key(t.table, icao),
        t.ingested(frame, at, decoded).0.table.len() == t.table.len(),
{
    match attributed(t.table, frame, at, decoded) {
        None => {},
        Some((sender, msg)) => {
            lemma_recovered_is_known(t.table, at, crc24_of(frame.bytes));
            lemma_touched_last(t, sender, at);
            let table = t.touched(sender, at).0;
            let after = t.ingested(frame, at, decoded).0.table;
            let p = index_of(t.table, sender);
            let i = index_of(after, icao);
            assert(after[i].0 == icao);
            if i < after.len() - 1 {
                assert(after[i] == t.table[if i < p { i } else { i + 1 }]);
            } else {
                assert(t.table[p].0 == icao);
            }
        },
    }
}

proof fn lemma_recovered_is_known(table: Seq<(u32, Aircraft)>, at: u64, syndrome: u32)
    ensures
        match recovered(table, at, syndrome) {
            Some(icao) => has_key(table, icao) && crc24_of(address_bytes(icao)) == syndrome,
            None => true,
        },
    decreases table.len(),
{
    if table.len() > 0 {
        let rest = table.drop_last();
        lemma_recovered_is_known(rest, at, syndrome);
        match recovered(table, at, syndrome) {
            Some(icao) => {
                if has_key(rest, icao) {
                    let i = index_of(rest, icao);
                    assert(table[i] == rest[i]);
                } else {
                    assert(table[table.len() - 1].0 == icao);
                }
            },
            None => {},
        }
    }
}

/// The search for a sender misses no active aircraft: with the table in order, it
/// finds one whenever an active aircraft explains the syndrome.
pub proof fn law_recovery_is_complete(table: Seq<(u32, Aircraft)>, at: u64, syndrome: u32, i: int)
    requires
        heard_in_order(table),
        0 <= i < table.len(),
        elapsed(at, table[i].1.last_seen) < ACTIVE_ICAO_WINDOW,
        crc24_of(address_bytes(table[i].0)) == syndrome,
    ensures
        recovered(table, at, syndrome) is Some,
    decreases table.len(),
{
    let n = (table.len() - 1) as int;
    assert(table[i].1.last_seen <= table[n].1.last_seen);
    if crc24_of(address_bytes(table.last().0)) != syndrome {
        let rest = table.drop_last();
        assert forall|a: int, b: int| 0 <= a <= b < rest.len() implies (#[trigger] rest[a]).1.last_seen <= (
        #[trigger] rest[b]).1.last_seen by {
            assert(rest[a] == table[a] && rest[b] == table[b]);
        }
        law_recovery_is_complete(rest, at, syndrome, i);
    }
}

/// Every address in the table has 24 bits.
pub open spec fn addresses_fit(table: Seq<(u32, Aircraft)>) -> bool {
    forall|k: int| 0 <= k < table.len() ==> (#[trigger] table[k]).0 < 0x0100_0000
}

/// No frame brings an address of more than 24 bits into the table.
pub proof fn law_addresses_stay_in_range(
    t: TrackerModel,
    frame: FrameModel,
    at: u64,
    decoded: Result<Message, DecodeError>,
)
    requires
        t.valid(),
        addresses_fit(t.table),
        is_decoded(frame, decoded),
    ensures
        addresses_fit(t.ingested(frame, at, decoded).0.table),
{
    match attributed(t.table, frame, at, decoded) {
        None => {},
        Some((icao, msg)) => {
            if frame.crc == CrcOutcome::Failed {
                lemma_recovered_is_known(t.table, at, crc24_of(frame.bytes));
                assert(t.table[index_of(t.table, icao)].0 == icao);
            }
            assert(icao < 0x0100_0000);
            lemma_touched_last(t, icao, at);
            lemma_evicted_fits(t.table, t.capacity, at);
            let after = t.ingested(frame, at, decoded).0.table;
            let table = t.touched(icao, at).0;
            assert forall|k: int| 0 <= k < after.len() implies (#[trigger] after[k]).0 < 0x0100_0000 by {
                assert(after[k].0 == table[k].0);
                if k < after.len() - 1 {
                    if has_key(t.table, icao) {
                        let j = index_of(t.table, icao);
                        assert(table[k] == t.table[if k < j { k } else { k + 1 }]);
                    } else {
                        let n = evicted_count(t.table, t.capacity, at) as int;
                        assert(table[k] == t.table[k + n]);
                    }
                }
            }
        },
    }
}

/// A surveillance reply is attributed to the aircraft that sent it, if that aircraft
/// is active: the reply carries its CRC combined with the sender's address.
pub proof fn law_reply_finds_its_sender(
    t: TrackerModel,
    frame: FrameModel,
    data: Seq<u8>,
    sender: u32,
    at: u64,
    decoded: Result<Message, DecodeError>,
    i: int,
)
    requires
        heard_in_order(t.table),
        addresses_fit(t.table),
        frame.crc == CrcOutcome::Failed,
        frame.bytes == data + crc::be24(crc24_of(data) ^ sender),
        0 < sender < 0x0100_0000,
        0 <= i < t.table.len(),
        t.table[i].0 == sender,
        elapsed(at, t.table[i].1.last_seen) < ACTIVE_ICAO_WINDOW,
    ensures
        attributed(t.table, frame, at, decoded) == Some((sender, None::<Message>)),
{
    let syndrome = crc24_of(frame.bytes);
    crc::law_address_overlay(data, sender);
    crc::law_address_syndrome_is_not_zero(sender);
    crc::lemma_be24_bytes(sender);
    law_recovery_is_complete(t.table, at, syndrome, i);
    lemma_recovered_is_known(t.table, at, syndrome);
    let found = recovered(t.table, at, syndrome)->0;
    let k = index_of(t.table, found);
    assert(t.table[k].0 == found);
    crc::lemma_be24_bytes(found);
    crc::law_address_syndromes_are_distinct(found, sender);
}

/// A reply is never attributed to an aircraft that is not active.
pub proof fn law_stale_senders_are_not_found(table: Seq<(u32, Aircraft)>, at: u64, syndrome: u32)
    requires
        forall|i: int| 0 <= i < table.len() ==> elapsed(at, (#[trigger] table[i]).1.last_seen) >= ACTIVE_ICAO_WINDOW,
    ensures
        recovered(table, at, syndrome) is None,
{
    if table.len() > 0 {
        assert(table.last() == table[table.len() - 1]);
    }
}

/// Pruning a table in order drops exactly the stale aircraft.
pub proof fn law_pruning_is_exact(t: TrackerModel, now: u64, i: int)
    requires
        heard_in_order(t.table),
        0 <= i < t.table.len(),
    ensures
        i < stale_count(t.table, now) <==> elapsed(now, t.table[i].1.last_seen) > STALE_AFTER,
    decreases t.table.len(),
{
    let rest = TrackerModel { table: t.table.skip(1), ..t };
    assert(t.table[0].1.last_seen <= t.table[i].1.last_seen);
    if elapsed(now, t.table[0].1.last_seen) > STALE_AFTER {
        if i > 0 {
            assert forall|a: int, b: int| 0 <= a <= b < rest.table.len() implies (
            #[trigger] rest.table[a]).1.last_seen <= (#[trigger] rest.table[b]).1.last_seen by {
                assert(rest.table[a] == t.table[a + 1] && rest.table[b] == t.table[b + 1]);
            }
            law_pruning_is_exact(rest, now, i - 1);
            assert(rest.table[i - 1] == t.table[i]);
        }
    }
}

/// An aircraft that is heard while it is in the table is not acquired again.
pub proof fn law_known_aircraft_is_not_acquired(
    t: TrackerModel,
    frame: FrameModel,
    at: u64,
    decoded: Result<Message, DecodeError>,
    icao: u32,
    msg: Option<Message>,
    k: int,
)
    requires
        attributed(t.table, frame, at, decoded) == Some((icao, msg)),
        has_key(t.table, icao),
        0 <= k < t.ingested(frame, at, decoded).1.len(),
    ensures
        !(t.ingested(frame, at, decoded).1[k] is Acquired),
        !(t.ingested(frame, at, decoded).1[k] is Lost),
{
    let table = t.touched(icao, at).0;
    let second = if frame.crc == CrcOutcome::Failed {
        seq![StateEvent::AddressRecovered { icao: Icao(icao), df: frame.df }]
    } else {
        Seq::empty()
    };
    let third = message_applied(counted(table.last().1, at, frame.crc), msg, at, t.reference).1;
    let all = Seq::<StateEvent>::empty() + second + third;
    assert(all == t.ingested(frame, at, decoded).1);
    if k >= second.len() {
        assert(all[k] == third[k - second.len()]);
    } else {
        assert(all[k] == second[k]);
    }
}

/// The aircraft that a frame is attributed to is in the table afterwards, and was
/// heard just now.
pub proof fn law_heard_aircraft_is_tracked(
    t: TrackerModel,
    frame: FrameModel,
    at: u64,
    decoded: Result<Message, DecodeError>,
    icao: u32,
    msg: Option<Message>,
)
    requires
        t.valid(),
        attributed(t.table, frame, at, decoded) == Some((icao, msg)),
    ensures
        ({
            let after = t.ingested(frame, at, decoded).0.table;
            &&& after.len() > 0
            &&& after.last().0 == icao
            &&& after.last().1.last_seen == at
            &&& has_key(after, icao)
        }),
{
    lemma_touched_last(t, icao, at);
    let table = t.touched(icao, at).0;
    lemma_message_keeps_address(counted(table.last().1, at, frame.crc), msg, at, t.reference);
    let after = t.ingested(frame, at, decoded).0.table;
    assert(after[after.len() - 1].0 == icao);
}

/// When a new aircraft finds the table full, the one heard longest ago leaves it, and
/// its loss is reported first.
pub proof fn law_full_table_drops_its_front(t: TrackerModel, icao: u32, at: u64)
    requires
        t.valid(),
        t.table.len() >= t.capacity,
        t.table.len() > 0,
        !has_key(t.table, icao),
    ensures
        t.touched(icao, at).1[0] == StateEvent::Lost(Icao(t.table[0].0)),
        !has_key(t.touched(icao, at).0, t.table[0].0),
{
    let n = evicted_count(t.table, t.capacity, at);
    lemma_evicted_fits(t.table, t.capacity, at);
    let after = t.touched(icao, at).0;
    let front = t.table[0].0;
    if has_key(after, front) {
        let i = index_of(after, front);
        assert(after[i].0 == front);
        if i < after.len() - 1 {
            assert(after[i] == t.table[i + n]);
        } else {
            assert(t.table[0].0 == icao);
        }
    }
}

/// A global fix comes only from two reports within the pairing window.
pub proof fn law_global_fix_needs_fresh_pair(a: Aircraft, at: u64, altitude: Altitude, reference: Option<LatLon>)
    requires
        match position_resolved(a, at, altitude, reference).1 {
            events => events.len() > 0 && events[0] is Position && events[0]->Position_source == PositionSource::Global,
        },
    ensures
        a.cpr_even is Some,
        a.cpr_odd is Some,
        gap(a.cpr_even->0, a.cpr_odd->0) <= CPR_PAIR_WINDOW,
{
}

/// What the table holds of an aircraft.
pub open spec fn entry(table: Seq<(u32, Aircraft)>, icao: u32) -> Aircraft {
    table[index_of(table, icao)].1
}

/// What was known of an aircraft: nothing, if it was not in the table.
pub open spec fn known_of(table: Seq<(u32, Aircraft)>, icao: u32, a: Aircraft) -> bool {
    if has_key(table, icao) {
        a == entry(table, icao)
    } else {
        &&& a.callsign is None
        &&& a.category is None
        &&& a.position is None
        &&& a.velocity is None
        &&& a.cpr_even is None
        &&& a.cpr_odd is None
        &&& a.counters.messages_total == 0
        &&& a.counters.crc_clean == 0
        &&& a.counters.crc_corrected == 0
        &&& a.counters.crc_failed == 0
        &&& a.counters.crc_address_recovered == 0
    }
}

/// The aircraft that a frame was attributed to, before the message is taken in.
proof fn lemma_entry(
    t: TrackerModel,
    frame: FrameModel,
    at: u64,
    decoded: Result<Message, DecodeError>,
    icao: u32,
    msg: Option<Message>,
) -> (r: (Aircraft, Seq<StateEvent>))
    requires
        t.valid(),
        attributed(t.table, frame, at, decoded) == Some((icao, msg)),
    ensures
        ({
            let (after, events) = t.ingested(frame, at, decoded);
            let (b, first) = r;
            let (a, third) = message_applied(counted(b, at, frame.crc), msg, at, t.reference);
            &&& has_key(after.table, icao)
            &&& entry(after.table, icao) == a
            &&& b.icao.0 == icao
            &&& b == t.touched(icao, at).0.last().1
            &&& known_of(t.table, icao, b)
            &&& events == first + third
            &&& forall|k: int|
                0 <= k < first.len() ==> match #[trigger] first[k] {
                    StateEvent::Acquired(i) => i.0 == icao && !has_key(t.table, icao),
                    StateEvent::Lost(i) => has_key(t.table, i.0) && !has_key(after.table, i.0),
                    StateEvent::AddressRecovered { icao: i, df } => {
                        &&& i.0 == icao
                        &&& df == frame.df
                        &&& frame.crc == CrcOutcome::Failed
                    },
                    _ => false,
                }
            &&& frame.crc == CrcOutcome::Failed ==> first.len() > 0 && first.last() is AddressRecovered
            &&& !has_key(t.table, icao) ==> first.contains(StateEvent::Acquired(Icao(icao)))
        }),
{
    lemma_touched_last(t, icao, at);
    let (table, told) = t.touched(icao, at);
    let b = table.last().1;
    let second = if frame.crc == CrcOutcome::Failed {
        seq![StateEvent::AddressRecovered { icao: Icao(icao), df: frame.df }]
    } else {
        Seq::empty()
    };
    let (a, third) = message_applied(counted(b, at, frame.crc), msg, at, t.reference);
    let (after, events) = t.ingested(frame, at, decoded);
    let first = told + second;
    assert(after.table == table.drop_last().push((icao, a)));
    assert(after.table[after.table.len() - 1].0 == icao);
    law_ingest_keeps_table_valid(t, frame, at, decoded);
    let i = index_of(after.table, icao);
    assert(after.table[i].0 == icao);
    assert(i == after.table.len() - 1);
    if has_key(t.table, icao) {
        assert(b == entry(t.table, icao));
    } else {
        assert(b == new_aircraft(icao, at));
    }
    lemma_told(t, icao, at, after.table, a);
    assert forall|k: int| 0 <= k < first.len() implies match #[trigger] first[k] {
        StateEvent::Acquired(i) => i.0 == icao && !has_key(t.table, icao),
        StateEvent::Lost(i) => has_key(t.table, i.0) && !has_key(after.table, i.0),
        StateEvent::AddressRecovered { icao: i, df } => {
            &&& i.0 == icao
            &&& df == frame.df
            &&& frame.crc == CrcOutcome::Failed
        },
        _ => false,
    } by {
        if k < told.len() {
            assert(first[k] == told[k]);
        } else {
            assert(first[k] == second[k - told.len()]);
        }
    }
    if !has_key(t.table, icao) {
        assert(first[told.len() - 1] == StateEvent::Acquired(Icao(icao)));
    }
    (b, first)
}

/// What is told when an aircraft is touched.
proof fn lemma_told(t: TrackerModel, icao: u32, at: u64, after: Seq<(u32, Aircraft)>, a: Aircraft)
    requires
        t.valid(),
        after == t.touched(icao, at).0.drop_last().push((icao, a)),
    ensures
        forall|k: int|
            0 <= k < t.touched(icao, at).1.len() ==> match #[trigger] t.touched(icao, at).1[k] {
                StateEvent::Acquired(i) => i.0 == icao && !has_key(t.table, icao),
                StateEvent::Lost(i) => has_key(t.table, i.0) && !has_key(after, i.0),
                _ => false,
            },
{
    if !has_key(t.table, icao) {
        let n = evicted_count(t.table, t.capacity, at);
        lemma_evicted_fits(t.table, t.capacity, at);
        let told = t.touched(icao, at).1;
        assert(t.touched(icao, at).0.drop_last() =~= t.table.skip(n as int));
        assert forall|k: int| 0 <= k < told.len() implies match #[trigger] told[k] {
            StateEvent::Acquired(i) => i.0 == icao && !has_key(t.table, icao),
            StateEvent::Lost(i) => has_key(t.table, i.0) && !has_key(after, i.0),
            _ => false,
        } by {
            if k < n {
                let gone = t.table[k].0;
                assert(told[k] == StateEvent::Lost(Icao(gone)));
                assert(has_key(t.table, gone));
                if has_key(after, gone) {
                    let q = index_of(after, gone);
                    if q < after.len() - 1 {
                        assert(after[q] == t.table[q + n]);
                    } else {
                        assert(gone == icao);
                    }
                }
            }
        }
    }
}

/// The table says of an aircraft what the events say: it holds exactly the position,
/// altitude and source of a position event and the time of the frame, the velocity of a
/// velocity event, and the callsign of an identification, whatever it held before. What no
/// event speaks of stays as it was. Every event is about the aircraft that was heard,
/// except for those that left the table.
pub proof fn law_table_follows_events(
    t: TrackerModel,
    frame: FrameModel,
    at: u64,
    decoded: Result<Message, DecodeError>,
    icao: u32,
    msg: Option<Message>,
)
    requires
        t.valid(),
        attributed(t.table, frame, at, decoded) == Some((icao, msg)),
        msg is Some ==> sender_of(msg->0) == Some(icao),
    ensures
        ({
            let (after, events) = t.ingested(frame, at, decoded);
            let a = entry(after.table, icao);
            &&& has_key(after.table, icao)
            &&& a.icao.0 == icao
            &&& a.last_seen == at
            &&& forall|k: int|
                0 <= k < events.len() ==> match #[trigger] events[k] {
                    StateEvent::Position { icao: i, pos, altitude, source } => {
                        &&& i.0 == icao
                        &&& a.position == Some(TimedPosition { at, pos, altitude, source })
                    },
                    StateEvent::Velocity { icao: i, velocity } => i.0 == icao && a.velocity == Some(velocity),
                    StateEvent::Identification { icao: i, callsign } => i.0 == icao && a.callsign == Some(callsign),
                    StateEvent::Acquired(i) => i.0 == icao && !has_key(t.table, icao),
                    StateEvent::Lost(i) => has_key(t.table, i.0) && !has_key(after.table, i.0),
                    StateEvent::AddressRecovered { icao: i, df } => {
                        &&& i.0 == icao
                        &&& df == frame.df
                        &&& frame.crc == CrcOutcome::Failed
                    },
                    StateEvent::Orphan { .. } => false,
                }
            &&& exists|b: Aircraft|
                {
                    &&& #[trigger] known_of(t.table, icao, b)
                    &&& (forall|k: int| 0 <= k < events.len() ==> !(#[trigger] events[k] is Position)) ==> a.position
                        == b.position
                    &&& (forall|k: int| 0 <= k < events.len() ==> !(#[trigger] events[k] is Velocity)) ==> a.velocity
                        == b.velocity
                    &&& (forall|k: int| 0 <= k < events.len() ==> !(#[trigger] events[k] is Identification)) ==> (
                    a.callsign is None <==> b.callsign is None) && (a.callsign is Some ==> text_of_8(a.callsign->0)
                        == text_of_8(b.callsign->0))
                }
        }),
{
    let (b, first) = lemma_entry(t, frame, at, decoded, icao, msg);
    let (a, third) = message_applied(counted(b, at, frame.crc), msg, at, t.reference);
    let (after, events) = t.ingested(frame, at, decoded);
    assert forall|k: int| 0 <= k < events.len() implies match #[trigger] events[k] {
        StateEvent::Position { icao: i, pos, altitude, source } => {
            &&& i.0 == icao
            &&& a.position == Some(TimedPosition { at, pos, altitude, source })
        },
        StateEvent::Velocity { icao: i, velocity } => i.0 == icao && a.velocity == Some(velocity),
        StateEvent::Identification { icao: i, callsign } => i.0 == icao && a.callsign == Some(callsign),
        StateEvent::Acquired(i) => i.0 == icao && !has_key(t.table, icao),
        StateEvent::Lost(i) => has_key(t.table, i.0) && !has_key(after.table, i.0),
        StateEvent::AddressRecovered { icao: i, df } => {
            &&& i.0 == icao
            &&& df == frame.df
            &&& frame.crc == CrcOutcome::Failed
        },
        StateEvent::Orphan { .. } => false,
    } by {
        if k < first.len() {
            assert(events[k] == first[k]);
        } else {
            assert(events[k] == third[k - first.len()]);
            assert(third.len() == 1);
        }
    }
    if third.len() > 0 {
        assert(events[first.len() as int] == third[0]);
    }
    assert(known_of(t.table, icao, b));
}

/// Each frame counts once for its aircraft: in all, and as intact, repaired or attributed
/// by its syndrome.
pub proof fn law_frames_are_counted(
    t: TrackerModel,
    frame: FrameModel,
    at: u64,
    decoded: Result<Message, DecodeError>,
    icao: u32,
    msg: Option<Message>,
    b: Aircraft,
)
    requires
        t.valid(),
        attributed(t.table, frame, at, decoded) == Some((icao, msg)),
        known_of(t.table, icao, b),
        b.counters.messages_total < u64::MAX,
        b.counters.crc_clean < u64::MAX,
        b.counters.crc_corrected < u64::MAX,
        b.counters.crc_address_recovered < u64::MAX,
    ensures
        ({
            let c = entry(t.ingested(frame, at, decoded).0.table, icao).counters;
            let d = b.counters;
            &&& c.messages_total == d.messages_total + 1
            &&& c.crc_clean == d.crc_clean + if frame.crc is Clean {
                1int
            } else {
                0int
            }
            &&& c.crc_corrected == d.crc_corrected + if frame.crc is Corrected {
                1int
            } else {
                0int
            }
            &&& c.crc_address_recovered == d.crc_address_recovered + if frame.crc is Failed {
                1int
            } else {
                0int
            }
            &&& c.crc_failed == d.crc_failed
        }),
{
    let (x, first) = lemma_entry(t, frame, at, decoded, icao, msg);
    assert(x.counters == b.counters);
    lemma_message_keeps_counters(counted(x, at, frame.crc), msg, at, t.reference);
}

proof fn lemma_message_keeps_counters(a: Aircraft, msg: Option<Message>, at: u64, reference: Option<LatLon>)
    ensures
        message_applied(a, msg, at, reference).0.counters == a.counters,
{
}

/// What an extended squitter says is what the table holds afterwards. A velocity is taken
/// over and told. A callsign and category are taken over, and told if the callsign was not
/// known before. A squitter of another kind changes nothing, nor does a frame whose CRC
/// failed.
pub proof fn law_squitter_is_taken_in(
    t: TrackerModel,
    frame: FrameModel,
    at: u64,
    decoded: Result<Message, DecodeError>,
    icao: u32,
    msg: Option<Message>,
    b: Aircraft,
)
    requires
        t.valid(),
        attributed(t.table, frame, at, decoded) == Some((icao, msg)),
        known_of(t.table, icao, b),
    ensures
        ({
            let (after, events) = t.ingested(frame, at, decoded);
            let a = entry(after.table, icao);
            match msg {
                Some(Message::ExtendedSquitter(es)) => match es.payload {
                    SquitterPayload::Velocity(v) => {
                        &&& a.velocity == Some(v)
                        &&& tells(t.table, icao, events, seq![StateEvent::Velocity { icao: Icao(icao), velocity: v }])
                        &&& (a.callsign, a.category, a.position, a.cpr_even, a.cpr_odd) == (
                            b.callsign,
                            b.category,
                            b.position,
                            b.cpr_even,
                            b.cpr_odd,
                        )
                    },
                    SquitterPayload::Identification(id) => {
                        &&& a.callsign == Some(id.callsign)
                        &&& a.category == Some((id.category_set, id.category))
                        &&& tells(
                            t.table,
                            icao,
                            events,
                            if b.callsign is Some && text_of_8(b.callsign->0) == text_of_8(id.callsign) {
                                Seq::<StateEvent>::empty()
                            } else {
                                seq![StateEvent::Identification { icao: Icao(icao), callsign: id.callsign }]
                            },
                        )
                        &&& (a.velocity, a.position, a.cpr_even, a.cpr_odd) == (
                            b.velocity,
                            b.position,
                            b.cpr_even,
                            b.cpr_odd,
                        )
                    },
                    SquitterPayload::AirbornePosition(_) => (a.velocity, a.callsign, a.category) == (
                        b.velocity,
                        b.callsign,
                        b.category,
                    ),
                    SquitterPayload::Raw(_) => {
                        &&& tells(t.table, icao, events, Seq::<StateEvent>::empty())
                        &&& (a.velocity, a.callsign, a.category, a.position, a.cpr_even, a.cpr_odd) == (
                            b.velocity,
                            b.callsign,
                            b.category,
                            b.position,
                            b.cpr_even,
                            b.cpr_odd,
                        )
                    },
                },
                _ => (a.velocity, a.callsign, a.category, a.position, a.cpr_even, a.cpr_odd) == (
                    b.velocity,
                    b.callsign,
                    b.category,
                    b.position,
                    b.cpr_even,
                    b.cpr_odd,
                ),
            }
        }),
{
    let (x, first) = lemma_entry(t, frame, at, decoded, icao, msg);
    let (after, events) = t.ingested(frame, at, decoded);
    let (a, third) = message_applied(counted(x, at, frame.crc), msg, at, t.reference);
    if msg is Some {
        assert(frame.crc != CrcOutcome::Failed);
        lemma_tells(t, frame, at, decoded, icao, msg, first, third);
    }
}

/// What is told of a squitter: this, behind what is told of aircraft that left and of the
/// new one, if the aircraft was not known.
pub open spec fn tells(table: Seq<(u32, Aircraft)>, icao: u32, events: Seq<StateEvent>, told: Seq<StateEvent>) -> bool {
    &&& told.len() <= events.len()
    &&& events.skip(events.len() - told.len()) == told
    &&& has_key(table, icao) ==> events == told
    &&& forall|k: int|
        0 <= k < events.len() - told.len() ==> (#[trigger] events[k] is Lost || events[k] is Acquired)
}

proof fn lemma_tells(
    t: TrackerModel,
    frame: FrameModel,
    at: u64,
    decoded: Result<Message, DecodeError>,
    icao: u32,
    msg: Option<Message>,
    first: Seq<StateEvent>,
    third: Seq<StateEvent>,
)
    requires
        t.valid(),
        attributed(t.table, frame, at, decoded) == Some((icao, msg)),
        frame.crc != CrcOutcome::Failed,
        t.ingested(frame, at, decoded).1 == first + third,
        third == message_applied(
            counted(t.touched(icao, at).0.last().1, at, frame.crc),
            msg,
            at,
            t.reference,
        ).1,
        forall|k: int|
            0 <= k < first.len() ==> (#[trigger] first[k] is Lost || first[k] is Acquired || (first[k]
                is AddressRecovered && frame.crc == CrcOutcome::Failed)),
    ensures
        tells(t.table, icao, t.ingested(frame, at, decoded).1, third),
{
    let events = t.ingested(frame, at, decoded).1;
    assert(events.skip(events.len() - third.len()) =~= third);
    if has_key(t.table, icao) {
        lemma_known_aircraft_tells_nothing_else(t, frame, at, decoded, icao, msg);
    }
    assert forall|k: int| 0 <= k < events.len() - third.len() implies (#[trigger] events[k] is Lost || events[k]
        is Acquired) by {
        assert(events[k] == first[k]);
    }
}

proof fn lemma_known_aircraft_tells_nothing_else(
    t: TrackerModel,
    frame: FrameModel,
    at: u64,
    decoded: Result<Message, DecodeError>,
    icao: u32,
    msg: Option<Message>,
)
    requires
        attributed(t.table, frame, at, decoded) == Some((icao, msg)),
        has_key(t.table, icao),
        frame.crc != CrcOutcome::Failed,
    ensures
        t.ingested(frame, at, decoded).1 == message_applied(
            counted(t.touched(icao, at).0.last().1, at, frame.crc),
            msg,
            at,
            t.reference,
        ).1,
{
    let third = message_applied(counted(t.touched(icao, at).0.last().1, at, frame.crc), msg, at, t.reference).1;
    assert(Seq::<StateEvent>::empty() + Seq::<StateEvent>::empty() + third =~= third);
}

/// What becomes of a position report. It takes the place of the last one of its kind. With
/// one of the other kind from at most ten seconds before or after, the two give a position
/// that needs no reference, if they can be reconciled. If they cannot, or are too far
/// apart, the older is discarded, or both if they contradict each other, and what is left
/// gives the position nearest to the reference, if there is one. A position is told once,
/// with the altitude of this report.
pub proof fn law_position_report_is_resolved(
    t: TrackerModel,
    frame: FrameModel,
    at: u64,
    decoded: Result<Message, DecodeError>,
    icao: u32,
    es: ExtendedSquitter,
    b: Aircraft,
)
    requires
        t.valid(),
        attributed(t.table, frame, at, decoded) == Some((icao, Some(Message::ExtendedSquitter(es)))),
        known_of(t.table, icao, b),
        es.payload is AirbornePosition,
    ensures
        ({
            let p = es.payload->AirbornePosition_0;
            let (after, events) = t.ingested(frame, at, decoded);
            let a = entry(after.table, icao);
            let heard = TimedCpr::of(at, p.cpr);
            let even = if p.cpr.odd {
                b.cpr_even
            } else {
                Some(heard)
            };
            let odd = if p.cpr.odd {
                Some(heard)
            } else {
                b.cpr_odd
            };
            let told = |pos: LatLon, source: PositionSource|
                {
                    &&& tells(
                        t.table,
                        icao,
                        events,
                        seq![StateEvent::Position { icao: Icao(icao), pos, altitude: p.altitude, source }],
                    )
                    &&& a.position == Some(TimedPosition { at, pos, altitude: p.altitude, source })
                };
            let told_locally = |left: Option<TimedCpr>|
                match (left, t.reference) {
                    (Some(l), Some(r)) => told(local_position(l.report(), r, 1), PositionSource::Local),
                    _ => tells(t.table, icao, events, Seq::<StateEvent>::empty()) && a.position == b.position,
                };
            match (even, odd) {
                (Some(e), Some(o)) => {
                    let later_is_odd = o.time() >= e.time();
                    let apart = if later_is_odd {
                        o.time() - e.time()
                    } else {
                        e.time() - o.time()
                    };
                    let newest = if later_is_odd {
                        o
                    } else {
                        e
                    };
                    let newest_alone = if later_is_odd {
                        a.cpr_even is None && a.cpr_odd == Some(o)
                    } else {
                        a.cpr_even == Some(e) && a.cpr_odd is None
                    };
                    if apart > 10_000_000_000 {
                        newest_alone && told_locally(Some(newest))
                    } else {
                        match global_of(e.report(), o.report(), later_is_odd) {
                            Ok((lat, lon)) => {
                                &&& told(
                                    LatLon { lat_deg: Ratio::of(lat), lon_deg: Ratio::of(lon) },
                                    PositionSource::Global,
                                )
                                &&& a.cpr_even == even
                                &&& a.cpr_odd == odd
                            },
                            Err(CprError::LatitudeZoneMismatch) => newest_alone && told_locally(Some(newest)),
                            Err(_) => a.cpr_even is None && a.cpr_odd is None && told_locally(None),
                        }
                    }
                },
                (Some(e), None) => a.cpr_even == even && a.cpr_odd is None && told_locally(even),
                (None, Some(o)) => a.cpr_odd == odd && a.cpr_even is None && told_locally(odd),
                (None, None) => false,
            }
        }),
{
    broadcast use TimedCpr::lemma_of;

    let msg = Some(Message::ExtendedSquitter(es));
    let (x, first) = lemma_entry(t, frame, at, decoded, icao, msg);
    assert(frame.crc != CrcOutcome::Failed);
    let (after, events) = t.ingested(frame, at, decoded);
    let (a, third) = message_applied(counted(x, at, frame.crc), msg, at, t.reference);
    assert(x.icao == Icao(icao));
    lemma_tells(t, frame, at, decoded, icao, msg, first, third);
}

/// Other aircraft are left alone: what the table holds of an aircraft that was not heard
/// stays as it was, or the aircraft leaves the table and that is told.
pub proof fn law_others_are_left_alone(
    t: TrackerModel,
    frame: FrameModel,
    at: u64,
    decoded: Result<Message, DecodeError>,
    icao: u32,
    msg: Option<Message>,
    other: u32,
)
    requires
        t.valid(),
        attributed(t.table, frame, at, decoded) == Some((icao, msg)),
        other != icao,
    ensures
        ({
            let (after, events) = t.ingested(frame, at, decoded);
            &&& has_key(after.table, other) ==> has_key(t.table, other) && entry(after.table, other) == entry(
                t.table,
                other,
            )
            &&& has_key(t.table, other) && !has_key(after.table, other) ==> {
                &&& events.contains(StateEvent::Lost(Icao(other)))
                &&& !has_key(t.table, icao)
                &&& t.table.len() >= t.capacity
            }
        }),
{
    lemma_touched_last(t, icao, at);
    lemma_evicted_fits(t.table, t.capacity, at);
    law_ingest_keeps_table_valid(t, frame, at, decoded);
    let (table, told) = t.touched(icao, at);
    let (after, events) = t.ingested(frame, at, decoded);
    let old_table = t.table;
    if has_key(after.table, other) {
        let q = index_of(after.table, other);
        assert(q < after.table.len() - 1);
        assert(after.table[q] == table[q]);
        let r = if has_key(old_table, icao) {
            let j = index_of(old_table, icao);
            if q < j {
                q
            } else {
                q + 1
            }
        } else {
            q + evicted_count(old_table, t.capacity, at)
        };
        assert(table[q] == old_table[r]);
        assert(old_table[r].0 == other);
        assert(index_of(old_table, other) == r);
    } else if has_key(old_table, other) {
        let r = index_of(old_table, other);
        if has_key(old_table, icao) {
            let j = index_of(old_table, icao);
            let q = if r < j {
                r
            } else {
                r - 1
            };
            assert(table[q] == old_table[r]);
            assert(after.table[q].0 == other);
        } else {
            let n = evicted_count(old_table, t.capacity, at) as int;
            if r >= n {
                assert(table[r - n] == old_table[r]);
                assert(after.table[r - n].0 == other);
            } else {
                assert(told[r] == StateEvent::Lost(Icao(other)));
                assert(events[r] == told[r]);
            }
        }
    }
}

/// A frame whose CRC holds, as it came or repaired, belongs to the aircraft whose address
/// it announces, and to none if it announces no address. One whose CRC failed is never
/// taken at its word.
pub proof fn law_frames_belong_to_their_senders(
    table: Seq<(u32, Aircraft)>,
    frame: FrameModel,
    at: u64,
    decoded: Result<Message, DecodeError>,
)
    ensures
        frame.crc != CrcOutcome::Failed ==> match decoded {
            Ok(Message::ExtendedSquitter(es)) => attributed(table, frame, at, decoded) == Some(
                (es.icao.0, Some(decoded->Ok_0)),
            ),
            Ok(Message::AllCallReply { icao }) => attributed(table, frame, at, decoded) == Some(
                (icao.0, Some(decoded->Ok_0)),
            ),
            _ => attributed(table, frame, at, decoded) is None,
        },
        frame.crc == CrcOutcome::Failed ==> match attributed(table, frame, at, decoded) {
            Some((_, taken)) => taken is None,
            None => true,
        },
{
}

/// A frame that belongs to no aircraft changes nothing, and is told as such.
pub proof fn law_orphans_change_nothing(
    t: TrackerModel,
    frame: FrameModel,
    at: u64,
    decoded: Result<Message, DecodeError>,
)
    requires
        attributed(t.table, frame, at, decoded) is None,
    ensures
        t.ingested(frame, at, decoded).0 == t,
        t.ingested(frame, at, decoded).1.len() == 1,
        t.ingested(frame, at, decoded).1[0] == (StateEvent::Orphan { df: frame.df }),
{
}

/// A tracker of the default size has room for 4096 aircraft: until then none leaves to make
/// room for another.
pub proof fn law_default_tracker_has_room(
    t: TrackerModel,
    frame: FrameModel,
    at: u64,
    decoded: Result<Message, DecodeError>,
    k: u32,
)
    requires
        t.valid(),
        t.capacity == DEFAULT_CAPACITY,
        t.table.len() < 4096,
        has_key(t.table, k),
    ensures
        has_key(t.ingested(frame, at, decoded).0.table, k),
        t.ingested(frame, at, decoded).0.table.len() <= t.table.len() + 1,
{
    if let Some((icao, msg)) = attributed(t.table, frame, at, decoded) {
        if k == icao {
            let (b, first) = lemma_entry(t, frame, at, decoded, icao, msg);
        } else {
            law_others_are_left_alone(t, frame, at, decoded, icao, msg, k);
        }
    }
}

/// The tracker keeps its size and its reference whatever it hears.
pub proof fn law_settings_stay(t: TrackerModel, frame: FrameModel, at: u64, decoded: Result<Message, DecodeError>)
    ensures
        t.ingested(frame, at, decoded).0.capacity == t.capacity,
        t.ingested(frame, at, decoded).0.reference == t.reference,
        t.pruned(at).0.capacity == t.capacity,
        t.pruned(at).0.reference == t.reference,
{
}

/// A reply can be attributed to an aircraft for a minute after it was heard, and no
/// longer.
pub proof fn law_senders_are_found_for_a_minute(table: Seq<(u32, Aircraft)>, at: u64, syndrome: u32, i: int)
    requires
        heard_in_order(table),
        0 <= i < table.len(),
        table[i].1.last_seen <= at,
        crc24_of(address_bytes(table[i].0)) == syndrome,
        forall|k: int|
            0 <= k < table.len() && k != i ==> crc24_of(address_bytes((#[trigger] table[k]).0)) != syndrome,
    ensures
        at - table[i].1.last_seen < 60_000_000_000 ==> recovered(table, at, syndrome) == Some(table[i].0),
        at - table[i].1.last_seen >= 60_000_000_000 ==> recovered(table, at, syndrome) is None,
    decreases table.len(),
{
    let n = table.len() - 1;
    let rest = table.drop_last();
    assert(table[i].1.last_seen <= table[n].1.last_seen);
    if i < n {
        assert forall|a: int, b: int| 0 <= a <= b < rest.len() implies (#[trigger] rest[a]).1.last_seen <= (
        #[trigger] rest[b]).1.last_seen by {
            assert(rest[a] == table[a] && rest[b] == table[b]);
        }
        assert forall|k: int| 0 <= k < rest.len() && k != i implies crc24_of(address_bytes((#[trigger] rest[k]).0))
            != syndrome by {
            assert(rest[k] == table[k]);
        }
        assert(rest[i] == table[i]);
        law_senders_are_found_for_a_minute(rest, at, syndrome, i);
        assert(crc24_of(address_bytes(table[n].0)) != syndrome);
    }
}

/// An aircraft is stale when it has not been heard for more than five minutes.
pub proof fn law_stale_after_five_minutes(t: TrackerModel, now: u64, i: int)
    requires
        heard_in_order(t.table),
        0 <= i < t.table.len(),
        t.table[i].1.last_seen <= now,
    ensures
        i < stale_count(t.table, now) <==> now - t.table[i].1.last_seen > 300_000_000_000,
{
    law_pruning_is_exact(t, now, i);
}

/// Pruning takes out exactly the aircraft that have not been heard for more than five
/// minutes, and tells of each that it was lost, in the order in which they were last heard.
/// What is known of the others stays.
pub proof fn law_pruning_tells_losses(t: TrackerModel, now: u64, i: int)
    requires
        t.valid(),
        heard_in_order(t.table),
        0 <= i < t.table.len(),
        t.table[i].1.last_seen <= now,
    ensures
        ({
            let (after, events) = t.pruned(now);
            let icao = t.table[i].0;
            let silent = now - t.table[i].1.last_seen > 300_000_000_000;
            &&& silent ==> !has_key(after.table, icao) && i < events.len() && events[i] == StateEvent::Lost(Icao(icao))
            &&& !silent ==> {
                &&& has_key(after.table, icao)
                &&& entry(after.table, icao) == t.table[i].1
                &&& !events.contains(StateEvent::Lost(Icao(icao)))
            }
            &&& events.len() + after.table.len() == t.table.len()
        }),
{
    law_stale_after_five_minutes(t, now, i);
    lemma_stale_bound(t.table, now);
    let n = stale_count(t.table, now) as int;
    let (after, events) = t.pruned(now);
    let icao = t.table[i].0;
    if i < n {
        if has_key(after.table, icao) {
            let q = index_of(after.table, icao);
            assert(after.table[q] == t.table[q + n]);
        }
    } else {
        assert(after.table[i - n] == t.table[i]);
        let q = index_of(after.table, icao);
        assert(after.table[q] == t.table[q + n]);
        assert(q + n == i);
        if events.contains(StateEvent::Lost(Icao(icao))) {
            let k = events.index_of(StateEvent::Lost(Icao(icao)));
            assert(t.table[k].0 == icao);
        }
    }
}

/// When a new aircraft finds the table full, the one heard longest ago makes room for it,
/// and so does every other that has not been heard for more than five minutes. Nobody else
/// leaves, and nobody does while there is room.
pub proof fn law_room_is_made(
    t: TrackerModel,
    frame: FrameModel,
    at: u64,
    decoded: Result<Message, DecodeError>,
    icao: u32,
    msg: Option<Message>,
    i: int,
)
    requires
        t.valid(),
        heard_in_order(t.table),
        attributed(t.table, frame, at, decoded) == Some((icao, msg)),
        !has_key(t.table, icao),
        0 <= i < t.table.len(),
        t.table[i].1.last_seen <= at,
    ensures
        ({
            let (after, events) = t.ingested(frame, at, decoded);
            let gone = !has_key(after.table, t.table[i].0);
            &&& gone <==> t.table.len() >= t.capacity && (i == 0 || at - t.table[i].1.last_seen > 300_000_000_000)
            &&& gone ==> events.contains(StateEvent::Lost(Icao(t.table[i].0)))
        }),
{
    let key = t.table[i].0;
    assert(key != icao);
    law_others_are_left_alone(t, frame, at, decoded, icao, msg, key);
    lemma_touched_last(t, icao, at);
    lemma_evicted_fits(t.table, t.capacity, at);
    let n = evicted_count(t.table, t.capacity, at) as int;
    let (table, told) = t.touched(icao, at);
    let after = t.ingested(frame, at, decoded).0.table;
    let rest = TrackerModel { table: t.table.skip(1), ..t };
    if i > 0 {
        assert forall|a: int, b: int| 0 <= a <= b < rest.table.len() implies (#[trigger] rest.table[a]).1.last_seen <= (
        #[trigger] rest.table[b]).1.last_seen by {
            assert(rest.table[a] == t.table[a + 1] && rest.table[b] == t.table[b + 1]);
        }
        law_pruning_is_exact(rest, at, i - 1);
        assert(rest.table[i - 1] == t.table[i]);
    }
    if i < n {
        if has_key(after, key) {
            let q = index_of(after, key);
            if q < after.len() - 1 {
                assert(after[q] == table[q]);
                assert(table[q] == t.table[q + n]);
            }
        }
    } else {
        assert(table[i - n] == t.table[i]);
        assert(after[i - n].0 == key);
    }
}

/// A counter goes up by one, and starts over after 2^64.
pub proof fn law_counters_start_over(c: u64)
    ensures
        bump(c) as int == (c + 1) % 0x1_0000_0000_0000_0000,
{
}

/// A frame whose CRC failed although its syndrome is zero belongs to nobody.
pub proof fn law_no_syndrome_no_sender(
    table: Seq<(u32, Aircraft)>,
    frame: FrameModel,
    at: u64,
    decoded: Result<Message, DecodeError>,
)
    requires
        frame.crc == CrcOutcome::Failed,
        crc24_of(frame.bytes) == 0,
    ensures
        attributed(table, frame, at, decoded) is None,
{
}

// --- Lemmas ------------------------------------------------------------------

proof fn lemma_stale_bound(table: Seq<(u32, Aircraft)>, now: u64)
    ensures
        stale_count(table, now) <= table.len(),
    decreases table.len(),
{
    if table.len() > 0 {
        lemma_stale_bound(table.skip(1), now);
    }
}

pub(crate) proof fn lemma_evicted_fits(table: Seq<(u32, Aircraft)>, capacity: usize, now: u64)
    ensures
        evicted_count(table, capacity, now) <= table.len(),
{
    if table.len() > 0 {
        lemma_stale_bound(table.skip(1), now);
    }
}

/// Dropping entries from the front brings in no key, and keeps keys distinct.
proof fn lemma_skip_keeps(table: Seq<(u32, Aircraft)>, n: int, k: u32)
    requires
        0 <= n <= table.len(),
    ensures
        !has_key(table, k) ==> !has_key(table.skip(n), k),
        distinct_keys(table) ==> distinct_keys(table.skip(n)),
{
    let rest = table.skip(n);
    if has_key(rest, k) {
        let i = index_of(rest, k);
        assert(rest[i] == table[i + n]);
    }
    if distinct_keys(table) {
        assert forall|i: int, j: int|
            0 <= i < rest.len() && 0 <= j < rest.len() && (#[trigger] rest[i]).0 == (#[trigger] rest[j]).0 implies i
            == j by {
            assert(rest[i] == table[i + n] && rest[j] == table[j + n]);
        }
    }
}

proof fn lemma_skip_valid(t: TrackerModel, n: int)
    requires
        t.valid(),
        0 <= n <= t.table.len(),
    ensures
        (TrackerModel { table: t.table.skip(n), ..t }).valid(),
{
    lemma_skip_keeps(t.table, n, 0);
    let rest = t.table.skip(n);
    assert forall|i: int| 0 <= i < rest.len() implies (#[trigger] rest[i]).1.icao.0 == rest[i].0 by {
        assert(rest[i] == t.table[i + n]);
    }
}

/// A touched aircraft is the last entry of its table, under its address, which
/// occurs nowhere else.
pub(crate) proof fn lemma_touched_last(t: TrackerModel, icao: u32, at: u64)
    requires
        t.valid(),
    ensures
        ({
            let table = t.touched(icao, at).0;
            &&& table.len() > 0
            &&& table.last().0 == icao
            &&& table.last().1.icao.0 == icao
            &&& distinct_keys(table)
            &&& has_key(table, icao)
            &&& index_of(table, icao) == table.len() - 1
            &&& forall|i: int| 0 <= i < table.len() ==> (#[trigger] table[i]).1.icao.0 == table[i].0
            &&& table.len() <= t.capacity || table.len() <= 1
        }),
{
    let table = t.touched(icao, at).0;
    let old_table = t.table;
    if has_key(old_table, icao) {
        let p = index_of(old_table, icao);
        let cut = old_table.remove(p);
        assert(table == cut.push(old_table[p]));
        assert forall|i: int| 0 <= i < cut.len() implies #[trigger] cut[i] == old_table[if i < p {
            i
        } else {
            i + 1
        }] by {}
        assert forall|i: int, j: int|
            0 <= i < table.len() && 0 <= j < table.len() && (#[trigger] table[i]).0 == (
            #[trigger] table[j]).0 implies i == j by {
            let a = if i == table.len() - 1 { p } else if i < p { i } else { i + 1 };
            let b = if j == table.len() - 1 { p } else if j < p { j } else { j + 1 };
            assert(table[i] == old_table[a]);
            assert(table[j] == old_table[b]);
        }
        assert forall|i: int| 0 <= i < table.len() implies (#[trigger] table[i]).1.icao.0 == table[i].0 by {
            let a = if i == table.len() - 1 { p } else if i < p { i } else { i + 1 };
            assert(table[i] == old_table[a]);
        }
    } else {
        let n = evicted_count(old_table, t.capacity, at);
        lemma_evicted_fits(old_table, t.capacity, at);
        lemma_skip_keeps(old_table, n as int, icao);
        let rest = old_table.skip(n as int);
        lemma_skip_valid(t, n as int);
        assert forall|i: int, j: int|
            0 <= i < table.len() && 0 <= j < table.len() && (#[trigger] table[i]).0 == (
            #[trigger] table[j]).0 implies i == j by {
            if i < rest.len() {
                assert(table[i] == rest[i]);
            }
            if j < rest.len() {
                assert(table[j] == rest[j]);
            }
        }
        assert forall|i: int| 0 <= i < table.len() implies (#[trigger] table[i]).1.icao.0 == table[i].0 by {
            if i < rest.len() {
                assert(table[i] == rest[i]);
            }
        }
    }
    assert(table[table.len() - 1].0 == icao);
}

/// Whatever frame comes, the table stays in order: no address twice, every aircraft
/// under its own address, no more aircraft than there is room for.
pub proof fn law_ingest_keeps_table_valid(
    t: TrackerModel,
    frame: FrameModel,
    at: u64,
    decoded: Result<Message, DecodeError>,
)
    requires
        t.valid(),
    ensures
        t.ingested(frame, at, decoded).0.valid(),
{
    match attributed(t.table, frame, at, decoded) {
        None => {},
        Some((icao, msg)) => {
            lemma_touched_last(t, icao, at);
            let table = t.touched(icao, at).0;
            let after = t.ingested(frame, at, decoded).0.table;
            let a = after.last().1;
            lemma_message_keeps_address(counted(table.last().1, at, frame.crc), msg, at, t.reference);
            assert forall|i: int, j: int|
                0 <= i < after.len() && 0 <= j < after.len() && (#[trigger] after[i]).0 == (
                #[trigger] after[j]).0 implies i == j by {
                assert(after[i].0 == table[i].0);
                assert(after[j].0 == table[j].0);
            }
            assert forall|i: int| 0 <= i < after.len() implies (#[trigger] after[i]).1.icao.0 == after[i].0 by {
                if i < after.len() - 1 {
                    assert(after[i] == table[i]);
                }
            }
        },
    }
}

/// A message changes neither the address of an aircraft nor when it was heard.
proof fn lemma_message_keeps_address(a: Aircraft, msg: Option<Message>, at: u64, reference: Option<LatLon>)
    ensures
        message_applied(a, msg, at, reference).0.icao == a.icao,
        message_applied(a, msg, at, reference).0.last_seen == a.last_seen,
{
}

} // verus!

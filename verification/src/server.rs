//! What a client of the event stream gets to see.
//!
//! A client may ask for some kinds of event, some aircraft, an area and a range of
//! altitudes; all that it asks for must hold. Area and altitude are those of the
//! aircraft that the event is about, as last known, whatever the kind of event. Events
//! are numbered, and a client never sees a number twice.

use crate::broadcaster::{law_replay_has_no_gap, newer_than, numbered_up_to};
use crate::config::{degrees_within, find_comma, first_comma, lemma_comma, lemma_no_comma, within_bound};
use crate::cpr::{Fraction, Ratio};
use crate::events::{AircraftSnapshot, EventEnvelope};
use crate::message::{address_of_hex, Icao};
use crate::numeral::{
    all_digits, chars_of, is_digit, law_decimal_reads_back, numeral, parse_numeral, trim, trimmed, value_in_64_bits,
    value_of, Parsed,
};
use crate::order::{add_key, ascending, lemma_set_after_push};
use crate::text::{all_ascii, decimal, lower_char, lower_text, lowercase, string_of};
use std::collections::HashMap;
use vstd::prelude::*;

verus! {

// --- Areas -------------------------------------------------------------------

/// An area between two parallels and two meridians.
#[derive(Debug, Clone, Copy)]
pub struct Bbox {
    pub min_lat: Ratio,
    pub min_lon: Ratio,
    pub max_lat: Ratio,
    pub max_lon: Ratio,
}

/// The parts of a text between commas.
pub open spec fn parts(s: Seq<char>) -> Seq<Seq<char>>
    decreases s.len(),
{
    let i = first_comma(s) as int;
    if i >= s.len() {
        seq![s]
    } else {
        seq![s.take(i)] + parts(s.skip(i + 1))
    }
}

/// The area that a text stands for, in degrees: lowest latitude, lowest longitude,
/// highest latitude, highest longitude. The text has exactly four parts,
/// latitudes and longitudes are in range, and the area is not empty, in double precision.
pub open spec fn bbox_of(s: Seq<char>) -> Option<(Fraction, Fraction, Fraction, Fraction)> {
    let p = parts(s);
    if p.len() != 4 {
        None
    } else {
        let min_lat = numeral(trimmed(p[0]));
        let min_lon = numeral(trimmed(p[1]));
        let max_lat = numeral(trimmed(p[2]));
        let max_lon = numeral(trimmed(p[3]));
        match (
            degrees_within(min_lat, 90),
            degrees_within(min_lon, 180),
            degrees_within(max_lat, 90),
            degrees_within(max_lon, 180),
        ) {
            (Some(a), Some(b), Some(c), Some(d)) => if (min_lat->0).is_less(max_lat->0) && (min_lon->0).is_less(
                max_lon->0,
            ) {
                Some((a, b, c, d))
            } else {
                None
            },
            _ => None,
        }
    }
}

/// The parts of a text between commas.
fn split_commas(s: &[char]) -> (r: Vec<Vec<char>>)
    ensures
        r@.len() == parts(s@).len(),
        forall|i: int| 0 <= i < r@.len() ==> (#[trigger] r@[i])@ == parts(s@)[i],
{
    let mut out: Vec<Vec<char>> = Vec::new();
    let mut at: usize = 0;
    let mut done: bool = false;
    assert(s@.skip(0) =~= s@);
    while !done
        invariant
            at <= s@.len(),
            !done ==> parts(s@).len() == out@.len() + parts(s@.skip(at as int)).len(),
            !done ==> forall|i: int|
                0 <= i < parts(s@.skip(at as int)).len() ==> parts(s@)[out@.len() + i] == #[trigger] parts(
                    s@.skip(at as int),
                )[i],
            done ==> parts(s@).len() == out@.len(),
            forall|i: int| 0 <= i < out@.len() ==> (#[trigger] out@[i])@ == parts(s@)[i],
        decreases s@.len() - at, (if done { 0int } else { 1int }),
    {
        let rest = vstd::slice::slice_subrange(s, at, s.len());
        assert(rest@ =~= s@.skip(at as int));
        let i: usize = find_comma(rest);
        let part = vstd::slice::slice_subrange(rest, 0, i);
        let mut copy: Vec<char> = Vec::new();
        copy.extend_from_slice(part);
        let ghost here = parts(rest@);
        let ghost before = out@;
        assert(copy@ =~= rest@.take(i as int));
        if i >= rest.len() {
            assert(copy@ =~= rest@);
            assert(here =~= seq![rest@]);
            assert(parts(s@)[before.len() as int] == here[0]);
            out.push(copy);
            done = true;
        } else {
            let ghost next = parts(rest@.skip(i + 1));
            assert(here =~= seq![rest@.take(i as int)] + next);
            assert(here[0] == rest@.take(i as int));
            assert(parts(s@)[before.len() as int] == here[0]);
            out.push(copy);
            at = at + i + 1;
            assert(rest@.skip(i + 1) =~= s@.skip(at as int));
            assert forall|k: int| 0 <= k < next.len() implies parts(s@)[out@.len() + k] == #[trigger] next[k] by {
                assert(here[k + 1] == next[k]);
            }
        }
    }
    out
}

/// Reads two edges of an area, which must be in range and in order.
fn edges_of(low: &Vec<char>, high: &Vec<char>, bound: u8) -> (r: Option<(Ratio, Ratio)>)
    requires
        bound == 90 || bound == 180,
    ensures
        ({
            let m = numeral(trimmed(low@));
            let n = numeral(trimmed(high@));
            let a = degrees_within(m, bound as nat);
            let b = degrees_within(n, bound as nat);
            match r {
                Some((x, y)) => {
                    &&& a == Some(x@)
                    &&& b == Some(y@)
                    &&& (m->0).is_less(n->0)
                },
                None => a is None || b is None || !(m->0).is_less(n->0),
            }
        }),
{
    let ghost m = numeral(trimmed(low@));
    let ghost n = numeral(trimmed(high@));
    let p = parse_numeral(trim(low.as_slice()));
    let q = parse_numeral(trim(high.as_slice()));
    match (within_bound(&p, bound, Ghost(m)), within_bound(&q, bound, Ghost(n))) {
        (Some(x), Some(y)) => match (p, q) {
            (Parsed::Value(a), Parsed::Value(b)) => if a.is_less(&b) {
                Some((x, y))
            } else {
                None
            },
            _ => None,
        },
        _ => None,
    }
}

impl Bbox {
    /// Reads an area given as `min_lat,min_lon,max_lat,max_lon` in degrees. Areas across
    /// the 180th meridian are not supported.
    pub fn parse(s: &str) -> (r: Option<Bbox>)
        ensures
            match r {
                Some(b) => bbox_of(s@) == Some((b.min_lat@, b.min_lon@, b.max_lat@, b.max_lon@)),
                None => bbox_of(s@) is None,
            },
    {
        let text = chars_of(s);
        let p = split_commas(text.as_slice());
        if p.len() != 4 {
            return None;
        }
        match (edges_of(&p[0], &p[2], 90), edges_of(&p[1], &p[3], 180)) {
            (Some((min_lat, max_lat)), Some((min_lon, max_lon))) => Some(Bbox { min_lat, min_lon, max_lat, max_lon }),
            _ => None,
        }
    }

    /// Whether a position lies in the area or on its edge.
    pub open spec fn covers(self, lat: Fraction, lon: Fraction) -> bool {
        &&& self.min_lat@.at_most(lat)
        &&& lat.at_most(self.max_lat@)
        &&& self.min_lon@.at_most(lon)
        &&& lon.at_most(self.max_lon@)
    }

    /// Whether a position lies in the area or on its edge.
    pub fn contains(&self, lat: Ratio, lon: Ratio) -> (yes: bool)
        ensures
            yes == self.covers(lat@, lon@),
    {
        self.min_lat.at_most(&lat) && lat.at_most(&self.max_lat) && self.min_lon.at_most(&lon) && lon.at_most(
            &self.max_lon,
        )
    }
}

// --- Filters -----------------------------------------------------------------

/// What a client asked for, and the number of the last event it was considered for.
#[derive(Debug)]
pub struct StreamFilter {
    /// Kinds of event, in lower case.
    pub types: Option<Vec<String>>,
    pub icaos: Option<Vec<Icao>>,
    pub bbox: Option<Bbox>,
    /// Lowest altitude in feet.
    pub alt_min: Option<i32>,
    /// Highest altitude in feet.
    pub alt_max: Option<i32>,
    pub max_emitted: u64,
}

/// The kinds of event that a text asks for.
pub open spec fn types_of(s: Seq<char>) -> Seq<Seq<char>> {
    Seq::new(parts(s).len(), |i: int| lowercase(trimmed(parts(s)[i])))
}

/// The kinds of event that a text asks for: the parts between commas, without the
/// white space around them, in lower case.
pub fn parse_types(s: &str) -> (r: Vec<String>)
    ensures
        r@.len() == types_of(s@).len(),
        forall|i: int| 0 <= i < r@.len() ==> (#[trigger] r@[i])@ == types_of(s@)[i],
        forall|i: int|
            0 <= i < r@.len() && all_ascii(trimmed(parts(s@)[i])) ==> (#[trigger] r@[i])@ == trimmed(
                parts(s@)[i],
            ).map_values(|c: char| lower_char(c)),
{
    let text = chars_of(s);
    let p = split_commas(text.as_slice());
    let mut out: Vec<String> = Vec::new();
    let mut i: usize = 0;
    while i < p.len()
        invariant
            i <= p@.len(),
            p@.len() == parts(s@).len(),
            forall|k: int| 0 <= k < p@.len() ==> (#[trigger] p@[k])@ == parts(s@)[k],
            out@.len() == i,
            forall|k: int| 0 <= k < i ==> (#[trigger] out@[k])@ == types_of(s@)[k],
            forall|k: int|
                0 <= k < i && all_ascii(trimmed(parts(s@)[k])) ==> (#[trigger] out@[k])@ == trimmed(
                    parts(s@)[k],
                ).map_values(|c: char| lower_char(c)),
        decreases p@.len() - i,
    {
        let t = trim(p[i].as_slice());
        let name = lower_text(string_of(t).as_str());
        assert(p@[i as int]@ == parts(s@)[i as int]);
        out.push(name);
        i += 1;
    }
    out
}

/// A text asks for an aircraft if one of its parts is the address in hexadecimal.
pub open spec fn asks_for(s: Seq<char>, icao: Icao) -> bool {
    exists|i: int| 0 <= i < parts(s).len() && address_of_hex(trimmed(#[trigger] parts(s)[i])) == Some(icao.0)
}

/// The aircraft in a list.
pub open spec fn lists(icaos: Seq<Icao>, icao: Icao) -> bool {
    exists|i: int| 0 <= i < icaos.len() && #[trigger] icaos[i] == icao
}

/// The aircraft that a text asks for. Parts that are not addresses are passed over.
pub fn parse_icaos(s: &str) -> (r: Vec<Icao>)
    ensures
        forall|icao: Icao| #[trigger] lists(r@, icao) <==> asks_for(s@, icao),
{
    let text = chars_of(s);
    let p = split_commas(text.as_slice());
    let ghost all = parts(s@);
    let mut out: Vec<Icao> = Vec::new();
    let mut i: usize = 0;
    while i < p.len()
        invariant
            i <= p@.len(),
            all == parts(s@),
            p@.len() == all.len(),
            forall|k: int| 0 <= k < p@.len() ==> (#[trigger] p@[k])@ == all[k],
            forall|k: int| 0 <= k < out@.len() ==> exists|j: int|
                0 <= j < i && address_of_hex(trimmed(#[trigger] all[j])) == Some((#[trigger] out@[k]).0),
            forall|j: int|
                0 <= j < i && address_of_hex(trimmed(#[trigger] all[j])) is Some ==> lists(
                    out@,
                    Icao(address_of_hex(trimmed(all[j]))->0),
                ),
        decreases p@.len() - i,
    {
        let t = trim(p[i].as_slice());
        assert(p@[i as int]@ == all[i as int]);
        let ghost before = out@;
        if let Some(icao) = Icao::from_hex_digits(t) {
            out.push(icao);
            assert(out@[out@.len() - 1] == icao);
            assert forall|j: int| 0 <= j < i + 1 && address_of_hex(trimmed(#[trigger] all[j])) is Some implies lists(
                out@,
                Icao(address_of_hex(trimmed(all[j]))->0),
            ) by {
                let want = Icao(address_of_hex(trimmed(all[j]))->0);
                if j < i {
                    let k = choose|k: int| 0 <= k < before.len() && #[trigger] before[k] == want;
                    assert(out@[k] == want);
                }
            }
            assert forall|k: int| 0 <= k < out@.len() implies exists|j: int|
                0 <= j < i + 1 && address_of_hex(trimmed(#[trigger] all[j])) == Some((#[trigger] out@[k]).0) by {
                if k < before.len() {
                    assert(out@[k] == before[k]);
                    let j = choose|j: int| 0 <= j < i && address_of_hex(trimmed(#[trigger] all[j])) == Some(before[k].0);
                    assert(address_of_hex(trimmed(all[j])) == Some(out@[k].0));
                } else {
                    assert(address_of_hex(trimmed(all[i as int])) == Some(out@[k].0));
                }
            }
        }
        i += 1;
    }
    assert forall|icao: Icao| #[trigger] lists(out@, icao) <==> asks_for(s@, icao) by {
        if lists(out@, icao) {
            let k = choose|k: int| 0 <= k < out@.len() && #[trigger] out@[k] == icao;
            let j = choose|j: int| 0 <= j < i && address_of_hex(trimmed(#[trigger] all[j])) == Some(out@[k].0);
            assert(address_of_hex(trimmed(parts(s@)[j])) == Some(icao.0));
        }
        if asks_for(s@, icao) {
            let j = choose|j: int| 0 <= j < all.len() && address_of_hex(trimmed(#[trigger] all[j])) == Some(icao.0);
            assert(lists(out@, Icao(address_of_hex(trimmed(all[j]))->0)));
        }
    }
    out
}

impl StreamFilter {
    /// Whether the client asked for this kind of event.
    pub open spec fn wants_type(self, tag: Seq<char>) -> bool {
        match self.types {
            Some(t) => exists|i: int| 0 <= i < t@.len() && (#[trigger] t@[i])@ == tag,
            None => true,
        }
    }

    /// Whether the client asked for this aircraft.
    pub open spec fn wants_icao(self, icao: Icao) -> bool {
        match self.icaos {
            Some(l) => lists(l@, icao),
            None => true,
        }
    }

    /// Whether the client asked for a place or an altitude.
    pub open spec fn wants_place(self) -> bool {
        self.bbox is Some || self.alt_min is Some || self.alt_max is Some
    }

    /// Whether an aircraft is where the client asked for. It must be at a known position
    /// if the client asked for anything, and at a known altitude if it asked for one.
    pub open spec fn wants_aircraft(self, aircraft: Option<AircraftSnapshot>) -> bool {
        self.wants_place() ==> {
            &&& aircraft is Some
            &&& aircraft->0.position is Some
            &&& {
                let p = aircraft->0.position->0;
                &&& self.bbox is Some ==> self.bbox->0.covers(p.lat@, p.lon@)
                &&& self.alt_min is Some || self.alt_max is Some ==> p.alt_ft is Some
                &&& self.alt_min is Some ==> p.alt_ft->0 >= self.alt_min->0
                &&& self.alt_max is Some ==> p.alt_ft->0 <= self.alt_max->0
            }
        }
    }

    /// Whether an event is one that the client asked for. `aircraft` is what is known of
    /// the aircraft that it is about.
    pub open spec fn wants(self, env: EventEnvelope, aircraft: Option<AircraftSnapshot>) -> bool {
        &&& self.wants_type(env.event.tag_text())
        &&& self.wants_icao(env.event.address())
        &&& self.wants_aircraft(aircraft)
    }

    /// Whether the client gets an event: it asked for it, and has seen none as new.
    pub open spec fn admits(self, env: EventEnvelope, aircraft: Option<AircraftSnapshot>) -> bool {
        env.id > self.max_emitted && self.wants(env, aircraft)
    }

    /// The filter after an event has been considered.
    pub open spec fn after(self, env: EventEnvelope) -> StreamFilter {
        if env.id > self.max_emitted {
            StreamFilter { max_emitted: env.id, ..self }
        } else {
            self
        }
    }

    /// A filter from what the client sent. A malformed area is passed over. Events up to
    /// the one that the client saw last are held back.
    pub fn new(
        types: Option<&str>,
        icaos: Option<&str>,
        bbox: Option<&str>,
        alt_min: Option<i32>,
        alt_max: Option<i32>,
        last_event_id: Option<u64>,
    ) -> (f: StreamFilter)
        ensures
            match types {
                Some(s) => {
                    &&& f.types is Some
                    &&& f.types->0@.len() == types_of(s@).len()
                    &&& forall|i: int| 0 <= i < f.types->0@.len() ==> (#[trigger] f.types->0@[i])@ == types_of(s@)[i]
                    &&& forall|i: int|
                        0 <= i < f.types->0@.len() && all_ascii(trimmed(parts(s@)[i])) ==> (
                        #[trigger] f.types->0@[i])@ == trimmed(parts(s@)[i]).map_values(|c: char| lower_char(c))
                },
                None => f.types is None,
            },
            match icaos {
                Some(s) => forall|icao: Icao| #[trigger] f.wants_icao(icao) <==> asks_for(s@, icao),
                None => f.icaos is None,
            },
            match bbox {
                Some(s) => match f.bbox {
                    Some(b) => bbox_of(s@) == Some((b.min_lat@, b.min_lon@, b.max_lat@, b.max_lon@)),
                    None => bbox_of(s@) is None,
                },
                None => f.bbox is None,
            },
            f.alt_min == alt_min,
            f.alt_max == alt_max,
            f.max_emitted == (match last_event_id {
                Some(n) => n,
                None => 0,
            }),
    {
        let icaos = match icaos {
            Some(s) => Some(parse_icaos(s)),
            None => None,
        };
        let types = match types {
            Some(s) => Some(parse_types(s)),
            None => None,
        };
        let bbox = match bbox {
            Some(s) => Bbox::parse(s),
            None => None,
        };
        let max_emitted: u64 = match last_event_id {
            Some(n) => n,
            None => 0,
        };
        StreamFilter { types, icaos, bbox, alt_min, alt_max, max_emitted }
    }

    fn type_wanted(&self, tag: &str) -> (yes: bool)
        ensures
            yes == self.wants_type(tag@),
    {
        match &self.types {
            None => true,
            Some(t) => {
                let want = chars_of(tag);
                let mut i: usize = 0;
                while i < t.len()
                    invariant
                        i <= t@.len(),
                        self.types is Some && self.types->0 == *t,
                        want@ == tag@,
                        forall|k: int| 0 <= k < i ==> (#[trigger] t@[k])@ != tag@,
                    decreases t@.len() - i,
                {
                    let have = chars_of(t[i].as_str());
                    if same_chars(have.as_slice(), want.as_slice()) {
                        assert(t@[i as int]@ == tag@);
                        return true;
                    }
                    i += 1;
                }
                false
            },
        }
    }

    fn icao_wanted(&self, icao: Icao) -> (yes: bool)
        ensures
            yes == self.wants_icao(icao),
    {
        match &self.icaos {
            None => true,
            Some(l) => {
                let mut i: usize = 0;
                while i < l.len()
                    invariant
                        i <= l@.len(),
                        self.icaos is Some && self.icaos->0 == *l,
                        forall|k: int| 0 <= k < i ==> #[trigger] l@[k] != icao,
                    decreases l@.len() - i,
                {
                    if l[i] == icao {
                        assert(l@[i as int] == icao);
                        return true;
                    }
                    i += 1;
                }
                false
            },
        }
    }

    /// Whether the aircraft of an event has to be looked up to decide about it.
    #[must_use]
    pub fn needs_aircraft_lookup(&self) -> (yes: bool)
        ensures
            yes == self.wants_place(),
    {
        self.bbox.is_some() || self.alt_min.is_some() || self.alt_max.is_some()
    }

    fn aircraft_wanted(&self, aircraft: Option<&AircraftSnapshot>) -> (yes: bool)
        ensures
            yes == self.wants_aircraft(
                match aircraft {
                    Some(a) => Some(*a),
                    None => None,
                },
            ),
    {
        if !self.needs_aircraft_lookup() {
            return true;
        }
        let a = match aircraft {
            Some(a) => a,
            None => {
                return false;
            },
        };
        let p = match &a.position {
            Some(p) => p,
            None => {
                return false;
            },
        };
        if let Some(b) = &self.bbox {
            if !b.contains(p.lat, p.lon) {
                return false;
            }
        }
        if self.alt_min.is_none() && self.alt_max.is_none() {
            return true;
        }
        let alt: i32 = match p.alt_ft {
            Some(alt) => alt,
            None => {
                return false;
            },
        };
        if let Some(low) = self.alt_min {
            if alt < low {
                return false;
            }
        }
        if let Some(high) = self.alt_max {
            if alt > high {
                return false;
            }
        }
        true
    }

    /// Decides whether the client gets an event, and remembers its number. `aircraft` is
    /// what is known of the aircraft that it is about.
    pub fn consider(&mut self, env: &EventEnvelope, aircraft: Option<&AircraftSnapshot>) -> (yes: bool)
        ensures
            yes == old(self).admits(
                *env,
                match aircraft {
                    Some(a) => Some(*a),
                    None => None,
                },
            ),
            *final(self) == old(self).after(*env),
    {
        if env.id <= self.max_emitted {
            return false;
        }
        self.max_emitted = env.id;
        let icao: Icao = env.event.icao().unwrap();
        self.type_wanted(env.event.tag()) && self.icao_wanted(icao) && self.aircraft_wanted(aircraft)
    }
}

fn same_chars(a: &[char], b: &[char]) -> (yes: bool)
    ensures
        yes == (a@ == b@),
{
    if a.len() != b.len() {
        return false;
    }
    let mut i: usize = 0;
    while i < a.len()
        invariant
            i <= a@.len(),
            a@.len() == b@.len(),
            forall|k: int| 0 <= k < i ==> a@[k] == b@[k],
        decreases a@.len() - i,
    {
        if a[i] != b[i] {
            assert(a@[i as int] != b@[i as int]);
            return false;
        }
        i += 1;
    }
    assert(a@ =~= b@);
    true
}

/// No client sees an event twice, nor an older event after a newer one: once a number
/// has been considered, it and all lower ones are held back for good.
pub proof fn law_no_event_twice(
    f: StreamFilter,
    first: EventEnvelope,
    later: EventEnvelope,
    aircraft: Option<AircraftSnapshot>,
)
    requires
        later.id <= first.id,
    ensures
        !f.after(first).admits(later, aircraft),
        f.after(first).max_emitted >= f.max_emitted,
{
}

/// A client that asks for nothing gets every event newer than the last one.
pub proof fn law_open_filter_admits_all(f: StreamFilter, env: EventEnvelope, aircraft: Option<AircraftSnapshot>)
    requires
        f.types is None,
        f.icaos is None,
        !f.wants_place(),
    ensures
        f.admits(env, aircraft) <==> env.id > f.max_emitted,
{
}

/// The filter after events have been considered.
pub open spec fn considered(f: StreamFilter, events: Seq<EventEnvelope>) -> StreamFilter
    decreases events.len(),
{
    if events.len() == 0 {
        f
    } else {
        considered(f, events.drop_last()).after(events.last())
    }
}

/// The events that a client gets out of those considered, one after the other. `known`
/// says for each what is known of its aircraft at the time.
pub open spec fn sent(
    f: StreamFilter,
    events: Seq<EventEnvelope>,
    known: Seq<Option<AircraftSnapshot>>,
) -> Seq<EventEnvelope>
    decreases events.len(),
{
    if events.len() == 0 {
        Seq::empty()
    } else {
        let before = sent(f, events.drop_last(), known);
        if considered(f, events.drop_last()).admits(events.last(), known[events.len() - 1]) {
            before.push(events.last())
        } else {
            before
        }
    }
}

/// The events are numbered consecutively from `first` on.
pub open spec fn consecutive(events: Seq<EventEnvelope>, first: int) -> bool {
    forall|i: int| 0 <= i < events.len() ==> (#[trigger] events[i]).id == first + i
}

/// A client that asks for nothing.
spec fn is_open(f: StreamFilter) -> bool {
    f.types is None && f.icaos is None && !f.wants_place()
}

proof fn lemma_consecutive_sent(
    f: StreamFilter,
    earlier: Seq<EventEnvelope>,
    live: Seq<EventEnvelope>,
    known: Seq<Option<AircraftSnapshot>>,
    last: int,
    from: int,
)
    requires
        is_open(f),
        is_open(considered(f, earlier)),
        consecutive(sent(f, earlier, known), last + 1),
        considered(f, earlier).max_emitted == last + sent(f, earlier, known).len(),
        consecutive(live, from),
        from <= last + sent(f, earlier, known).len() + 1,
    ensures
        ({
            let all = sent(f, earlier + live, known);
            let mark = considered(f, earlier + live).max_emitted;
            &&& consecutive(all, last + 1)
            &&& mark == last + all.len()
            &&& is_open(considered(f, earlier + live))
            &&& mark == (if from + live.len() - 1 > considered(f, earlier).max_emitted {
                from + live.len() - 1
            } else {
                considered(f, earlier).max_emitted as int
            })
        }),
    decreases live.len(),
{
    let all = earlier + live;
    if live.len() == 0 {
        assert(all =~= earlier);
    } else {
        let front = live.drop_last();
        assert(all.drop_last() =~= earlier + front);
        assert(all.last() == live.last());
        assert forall|i: int| 0 <= i < front.len() implies (#[trigger] front[i]).id == from + i by {
            assert(front[i] == live[i]);
        }
        lemma_consecutive_sent(f, earlier, front, known, last, from);
        assert(live[live.len() - 1].id == from + live.len() - 1);
        let before = sent(f, earlier + front, known);
        let after = sent(f, all, known);
        assert forall|i: int| 0 <= i < after.len() implies (#[trigger] after[i]).id == last + 1 + i by {
            if i < before.len() {
                assert(after[i] == before[i]);
            }
        }
    }
}

/// A client that comes back finds no gap and nothing twice. It first gets what the ring
/// holds behind the last event it saw, and goes on with the events sent since it
/// subscribed, which was before the look at the ring. If the ring still reaches back to
/// what it missed, it gets every event, in order.
pub proof fn law_reconnect_is_seamless(
    f: StreamFilter,
    ring: Seq<EventEnvelope>,
    next: u64,
    live: Seq<EventEnvelope>,
    from: int,
    known: Seq<Option<AircraftSnapshot>>,
)
    requires
        f.types is None,
        f.icaos is None,
        !f.wants_place(),
        numbered_up_to(ring, next),
        ring.len() <= next,
        next - ring.len() <= f.max_emitted + 1,
        f.max_emitted < next,
        consecutive(live, from),
        from <= next,
    ensures
        ({
            let all = sent(f, newer_than(ring, f.max_emitted) + live, known);
            let end = if from + live.len() > next {
                from + live.len()
            } else {
                next as int
            };
            &&& all.len() == end - f.max_emitted - 1
            &&& consecutive(all, f.max_emitted + 1)
        }),
{
    let last = f.max_emitted;
    let missed = newer_than(ring, last);
    law_replay_has_no_gap(ring, next, last);
    assert(consecutive(missed, last + 1));
    let none = Seq::<EventEnvelope>::empty();
    assert(consecutive(sent(f, none, known), last + 1));
    lemma_consecutive_sent(f, none, missed, known, last as int, last + 1);
    assert(none + missed =~= missed);
    lemma_consecutive_sent(f, missed, live, known, last as int, from);
}

/// Considering events changes nothing of what a client asks for, and its mark does not go
/// back behind any of them.
proof fn lemma_considered(f: StreamFilter, events: Seq<EventEnvelope>)
    ensures
        considered(f, events) == (StreamFilter { max_emitted: considered(f, events).max_emitted, ..f }),
        considered(f, events).max_emitted >= f.max_emitted,
        forall|i: int| 0 <= i < events.len() ==> (#[trigger] events[i]).id <= considered(f, events).max_emitted,
        forall|bound: int|
            f.max_emitted <= bound && (forall|i: int| 0 <= i < events.len() ==> (#[trigger] events[i]).id <= bound)
                ==> #[trigger] is_mark_within(f, events, bound),
    decreases events.len(),
{
    if events.len() > 0 {
        let front = events.drop_last();
        lemma_considered(f, front);
        assert forall|i: int| 0 <= i < events.len() implies (#[trigger] events[i]).id <= considered(
            f,
            events,
        ).max_emitted by {
            if i < front.len() {
                assert(front[i] == events[i]);
            }
        }
        assert forall|bound: int|
            f.max_emitted <= bound && (forall|i: int| 0 <= i < events.len() ==> (#[trigger] events[i]).id <= bound)
            implies #[trigger] is_mark_within(f, events, bound) by {
            assert forall|i: int| 0 <= i < front.len() implies (#[trigger] front[i]).id <= bound by {
                assert(front[i] == events[i]);
            }
            assert(is_mark_within(f, front, bound));
            assert(events[events.len() - 1].id <= bound);
        }
    }
}

spec fn is_mark_within(f: StreamFilter, events: Seq<EventEnvelope>, bound: int) -> bool {
    considered(f, events).max_emitted <= bound
}

/// The numbers of the events are above `last`, and each is above the one before.
pub open spec fn rising(events: Seq<EventEnvelope>, last: int) -> bool {
    &&& forall|i: int| 0 <= i < events.len() ==> (#[trigger] events[i]).id > last
    &&& forall|i: int, j: int|
        0 <= i < j < events.len() ==> (#[trigger] events[i]).id < (#[trigger] events[j]).id
}

/// Whatever a client asks for and in whatever order events come its way, it sees rising
/// numbers, all above the last one it had seen.
pub proof fn law_numbers_sent_rise(
    f: StreamFilter,
    events: Seq<EventEnvelope>,
    known: Seq<Option<AircraftSnapshot>>,
)
    ensures
        rising(sent(f, events, known), f.max_emitted as int),
        forall|i: int|
            0 <= i < sent(f, events, known).len() ==> (#[trigger] sent(f, events, known)[i]).id <= considered(
                f,
                events,
            ).max_emitted,
    decreases events.len(),
{
    if events.len() > 0 {
        let front = events.drop_last();
        law_numbers_sent_rise(f, front, known);
        lemma_considered(f, front);
        let before = sent(f, front, known);
        let after = sent(f, events, known);
        assert forall|i: int| 0 <= i < after.len() implies (#[trigger] after[i]).id > f.max_emitted && after[i].id
            <= considered(f, events).max_emitted by {
            if i < before.len() {
                assert(after[i] == before[i]);
            }
        }
        assert forall|i: int, j: int| 0 <= i < j < after.len() implies (#[trigger] after[i]).id < (
        #[trigger] after[j]).id by {
            assert(after[i] == before[i]);
            if j < before.len() {
                assert(after[j] == before[j]);
            }
        }
    }
}

/// What is sent of events that come first is sent first.
proof fn lemma_sent_concat(
    f: StreamFilter,
    a: Seq<EventEnvelope>,
    b: Seq<EventEnvelope>,
    known: Seq<Option<AircraftSnapshot>>,
)
    requires
        known.len() == a.len() + b.len(),
    ensures
        sent(f, a + b, known) == sent(f, a, known) + sent(considered(f, a), b, known.skip(a.len() as int)),
        considered(f, a + b) == considered(considered(f, a), b),
    decreases b.len(),
{
    let later = known.skip(a.len() as int);
    if b.len() == 0 {
        assert(a + b =~= a);
        assert(sent(f, a, known) + Seq::<EventEnvelope>::empty() =~= sent(f, a, known));
    } else {
        let front = b.drop_last();
        let all = a + b;
        assert(all.drop_last() =~= a + front);
        assert(all.last() == b.last());
        assert(later[b.len() - 1] == known[all.len() - 1]);
        lemma_sent_prefix(f, a + front, known, known.drop_last());
        lemma_sent_prefix(f, a, known, known.drop_last());
        assert(later.drop_last() =~= known.drop_last().skip(a.len() as int));
        lemma_sent_prefix(considered(f, a), front, later, later.drop_last());
        lemma_sent_concat(f, a, front, known.drop_last());
        let x = sent(f, a, known);
        let y = sent(considered(f, a), front, later);
        assert(x + y.push(b.last()) =~= (x + y).push(b.last()));
    }
}

/// What is known of later aircraft does not matter.
proof fn lemma_sent_prefix(
    f: StreamFilter,
    events: Seq<EventEnvelope>,
    known: Seq<Option<AircraftSnapshot>>,
    other: Seq<Option<AircraftSnapshot>>,
)
    requires
        events.len() <= known.len(),
        events.len() <= other.len(),
        forall|i: int| 0 <= i < events.len() ==> known[i] == other[i],
    ensures
        sent(f, events, known) == sent(f, events, other),
    decreases events.len(),
{
    if events.len() > 0 {
        lemma_sent_prefix(f, events.drop_last(), known, other);
    }
}

/// Of events with rising numbers, the client gets those that it has not seen and that it
/// asked for.
proof fn lemma_rising_sent(
    f: StreamFilter,
    events: Seq<EventEnvelope>,
    known: Seq<Option<AircraftSnapshot>>,
    i: int,
)
    requires
        forall|k: int, m: int| 0 <= k < m < events.len() ==> (#[trigger] events[k]).id < (#[trigger] events[m]).id,
        0 <= i < events.len(),
        events[i].id > f.max_emitted,
    ensures
        sent(f, events, known).contains(events[i]) <==> f.wants(events[i], known[i]),
    decreases events.len(),
{
    let front = events.drop_last();
    let n = front.len() as int;
    assert(i < n ==> events[i].id < events[n].id);
    assert forall|k: int, m: int| 0 <= k < m < front.len() implies (#[trigger] front[k]).id < (
    #[trigger] front[m]).id by {
        assert(front[k] == events[k] && front[m] == events[m]);
    }
    lemma_considered(f, front);
    let bound = events[n].id - 1;
    assert forall|k: int| 0 <= k < front.len() implies (#[trigger] front[k]).id <= bound by {
        assert(front[k] == events[k]);
        assert(events[k].id < events[n].id);
    }
    assert(is_mark_within(f, front, bound));
    let before = sent(f, front, known);
    let after = sent(f, events, known);
    law_numbers_sent_rise(f, front, known);
    assert(events.last() == events[n]);
    if f.wants(events[n], known[n]) {
        assert(after == before.push(events[n]));
    } else {
        assert(after == before);
    }
    if i < n {
        lemma_rising_sent(f, front, known, i);
        assert(front[i] == events[i]);
        assert(events[i].id < events[n].id);
        if before.contains(events[i]) {
            let k = before.index_of(events[i]);
            assert(after[k] == events[i]);
        }
        if after.contains(events[i]) {
            let k = after.index_of(events[i]);
            assert(k < before.len());
            assert(before[k] == events[i]);
        }
    } else {
        if f.wants(events[n], known[n]) {
            assert(after[before.len() as int] == events[n]);
        } else if after.contains(events[n]) {
            let k = after.index_of(events[n]);
            assert(before[k].id <= bound);
        }
    }
}

/// What the ring holds behind an event has rising numbers, up to the latest.
proof fn lemma_newer_rise(ring: Seq<EventEnvelope>, next: u64, last: u64)
    requires
        numbered_up_to(ring, next),
        ring.len() <= next,
    ensures
        rising(newer_than(ring, last), last as int),
        forall|i: int| 0 <= i < newer_than(ring, last).len() ==> (#[trigger] newer_than(ring, last)[i]).id < next,
        newer_than(ring, last).len() > 0 ==> newer_than(ring, last).last().id == next - 1,
    decreases ring.len(),
{
    if ring.len() > 0 {
        let front = ring.drop_last();
        assert(ring[ring.len() - 1].id == next - 1);
        assert forall|i: int| 0 <= i < front.len() implies (#[trigger] front[i]).id == (next - 1) as u64 - front.len()
            + i by {
            assert(front[i] == ring[i]);
        }
        lemma_newer_rise(front, (next - 1) as u64, last);
        let before = newer_than(front, last);
        let after = newer_than(ring, last);
        if next - 1 > last {
            assert forall|i: int| 0 <= i < after.len() implies (#[trigger] after[i]).id > last && after[i].id < next by {
                if i < before.len() {
                    assert(after[i] == before[i]);
                }
            }
            assert forall|i: int, j: int| 0 <= i < j < after.len() implies (#[trigger] after[i]).id < (
            #[trigger] after[j]).id by {
                assert(after[i] == before[i]);
                if j < before.len() {
                    assert(after[j] == before[j]);
                }
            }
        } else if before.len() > 0 {
            // A number above `last` and below `next - 1` cannot be.
            assert(before[0].id > last);
        }
    }
}

/// A client that comes back, whatever it asks for, sees rising numbers. It first gets all
/// that it asked for of what the ring holds behind the last event it saw. Only behind
/// that come the events sent since it subscribed that are newer; of those too it gets all
/// that it asked for.
pub proof fn law_filtered_reconnect(
    f: StreamFilter,
    ring: Seq<EventEnvelope>,
    next: u64,
    live: Seq<EventEnvelope>,
    from: int,
    known: Seq<Option<AircraftSnapshot>>,
)
    requires
        numbered_up_to(ring, next),
        ring.len() <= next,
        consecutive(live, from),
        known.len() == newer_than(ring, f.max_emitted).len() + live.len(),
    ensures
        ({
            let missed = newer_than(ring, f.max_emitted);
            let first = sent(f, missed, known);
            let mark = considered(f, missed).max_emitted;
            let rest = sent(considered(f, missed), live, known.skip(missed.len() as int));
            &&& sent(f, missed + live, known) == first + rest
            &&& rising(first + rest, f.max_emitted as int)
            &&& mark == (if missed.len() > 0 {
                (next - 1) as u64
            } else {
                f.max_emitted
            })
            &&& forall|i: int|
                0 <= i < missed.len() ==> (first.contains(#[trigger] missed[i]) <==> f.wants(missed[i], known[i]))
            &&& forall|i: int| 0 <= i < rest.len() ==> (#[trigger] rest[i]).id > mark
            &&& forall|k: int|
                0 <= k < live.len() && (#[trigger] live[k]).id > mark ==> (rest.contains(live[k]) <==> f.wants(
                    live[k],
                    known[missed.len() + k],
                ))
        }),
{
    let missed = newer_than(ring, f.max_emitted);
    let g = considered(f, missed);
    let later = known.skip(missed.len() as int);
    lemma_newer_rise(ring, next, f.max_emitted);
    lemma_sent_concat(f, missed, live, known);
    law_numbers_sent_rise(f, missed + live, known);
    law_numbers_sent_rise(g, live, later);
    lemma_considered(f, missed);
    if missed.len() > 0 {
        assert(missed[missed.len() - 1].id == next - 1);
        assert(is_mark_within(f, missed, next - 1));
    }
    assert forall|i: int| 0 <= i < missed.len() implies (sent(f, missed, known).contains(#[trigger] missed[i])
        <==> f.wants(missed[i], known[i])) by {
        lemma_rising_sent(f, missed, known, i);
    }
    assert forall|k: int| 0 <= k < live.len() && (#[trigger] live[k]).id > g.max_emitted implies (sent(
        g,
        live,
        later,
    ).contains(live[k]) <==> f.wants(live[k], known[missed.len() + k])) by {
        lemma_rising_sent(g, live, later, k);
        assert(later[k] == known[missed.len() + k]);
        assert(g.wants(live[k], later[k]) == f.wants(live[k], later[k]));
    }
}

// --- Resuming ----------------------------------------------------------------

/// The event number that a text stands for: digits, with a plus sign before them or not,
/// that write a number of at most 64 bits.
pub open spec fn event_id_of(s: Seq<char>) -> Option<nat> {
    let digits = if s.len() > 0 && s[0] == '+' {
        s.skip(1)
    } else {
        s
    };
    if digits.len() > 0 && all_digits(digits) && value_of(digits) <= u64::MAX {
        Some(value_of(digits))
    } else {
        None
    }
}

/// Reads the number of the last event that a client has seen.
#[must_use]
pub fn parse_event_id(s: &str) -> (r: Option<u64>)
    ensures
        match r {
            Some(n) => event_id_of(s@) == Some(n as nat),
            None => event_id_of(s@) is None,
        },
{
    let text = chars_of(s);
    let from: usize = if text.len() > 0 && text[0] == '+' {
        1
    } else {
        0
    };
    let digits = vstd::slice::slice_subrange(text.as_slice(), from, text.len());
    assert(from == 1 ==> digits@ =~= s@.skip(1));
    assert(from == 0 ==> digits@ =~= s@);
    if digits.len() == 0 {
        return None;
    }
    value_in_64_bits(digits)
}

// --- All aircraft ------------------------------------------------------------

/// `list` holds the aircraft of a snapshot, the lowest address first.
pub open spec fn is_listing(snapshot: Map<u32, AircraftSnapshot>, list: Seq<&AircraftSnapshot>) -> bool {
    exists|keys: Seq<u32>|
        {
            &&& #[trigger] ascending(keys)
            &&& keys.to_set() == snapshot.dom()
            &&& list.len() == keys.len()
            &&& forall|i: int| 0 <= i < list.len() ==> *(#[trigger] list[i]) == snapshot[keys[i]]
        }
}

/// The aircraft of a snapshot, the lowest address first.
pub fn list_aircraft(snapshot: &HashMap<u32, AircraftSnapshot>) -> (list: Vec<&AircraftSnapshot>)
    ensures
        is_listing(snapshot@, list@),
{
    broadcast use vstd::std_specs::hash::group_hash_axioms;

    let mut keys: Vec<u32> = Vec::new();
    assert(keys@.to_set() =~= Set::empty());
    for k in it: snapshot.keys()
        invariant
            ascending(keys@),
            keys@.to_set() == it.seq().unref().take(it.index()).to_set(),
            it.seq().unref().to_set() == snapshot@.dom(),
            it.index() == it.seq().len() ==> it.seq().unref().take(it.index()) == it.seq().unref(),
    {
        let ghost all = it.seq().unref();
        let ghost n = it.index();
        add_key(&mut keys, *k);
        proof {
            assert(all.take(n + 1) =~= all.take(n).push(*k));
            lemma_set_after_push(all.take(n), *k);
            assert(n + 1 == all.len() ==> all.take(n + 1) =~= all);
        }
    }
    let mut list: Vec<&AircraftSnapshot> = Vec::new();
    let mut i: usize = 0;
    while i < keys.len()
        invariant
            i <= keys@.len(),
            list@.len() == i,
            keys@.to_set() == snapshot@.dom(),
            forall|j: int| 0 <= j < i ==> *(#[trigger] list@[j]) == snapshot@[keys@[j]],
        decreases keys@.len() - i,
    {
        broadcast use vstd::std_specs::hash::group_hash_axioms;

        assert(keys@.to_set().contains(keys@[i as int]));
        if let Some(a) = snapshot.get(&keys[i]) {
            list.push(a);
        }
        i += 1;
    }
    list
}

// --- Single aircraft ---------------------------------------------------------

/// The answer to a request for one aircraft.
#[derive(Debug)]
pub enum AircraftReply<'a> {
    /// The address is not six hexadecimal digits.
    BadRequest,
    /// The aircraft is not tracked.
    NotFound,
    Found(&'a AircraftSnapshot),
}

/// Answers a request for the aircraft whose address is given in hexadecimal.
pub fn find_aircraft<'a>(snapshot: &'a HashMap<u32, AircraftSnapshot>, hex: &str) -> (r: AircraftReply<'a>)
    ensures
        match (address_of_hex(hex@), r) {
            (None, AircraftReply::BadRequest) => true,
            (Some(icao), AircraftReply::NotFound) => !snapshot@.contains_key(icao),
            (Some(icao), AircraftReply::Found(a)) => snapshot@.contains_key(icao) && *a == snapshot@[icao],
            _ => false,
        },
{
    broadcast use vstd::std_specs::hash::group_hash_axioms;

    match Icao::from_hex(hex) {
        None => AircraftReply::BadRequest,
        Some(icao) => match snapshot.get(&icao.0) {
            Some(a) => AircraftReply::Found(a),
            None => AircraftReply::NotFound,
        },
    }
}

// --- What a client asks for --------------------------------------------------

/// The parts put together again with commas between them.
pub open spec fn joined(p: Seq<Seq<char>>) -> Seq<char>
    decreases p.len(),
{
    if p.len() == 0 {
        Seq::empty()
    } else if p.len() == 1 {
        p[0]
    } else {
        p[0] + seq![','] + joined(p.skip(1))
    }
}

/// Splitting a text at its commas loses nothing but the commas, and leaves none.
pub proof fn law_parts_join(s: Seq<char>)
    ensures
        parts(s).len() > 0,
        joined(parts(s)) == s,
        forall|i: int| 0 <= i < parts(s).len() ==> !(#[trigger] parts(s)[i]).contains(','),
    decreases s.len(),
{
    let i = first_comma(s) as int;
    lemma_first_comma(s);
    let p = parts(s);
    if i >= s.len() {
        assert(p[0] == s);
    } else {
        let rest = s.skip(i + 1);
        law_parts_join(rest);
        assert(p.skip(1) =~= parts(rest));
        assert(joined(p) =~= s);
        assert forall|k: int| 0 <= k < p.len() implies !(#[trigger] p[k]).contains(',') by {
            if k > 0 {
                assert(p[k] == parts(rest)[k - 1]);
            }
        }
    }
}

proof fn lemma_first_comma(s: Seq<char>)
    ensures
        first_comma(s) <= s.len(),
        first_comma(s) < s.len() ==> s[first_comma(s) as int] == ',',
        forall|k: int| 0 <= k < first_comma(s) ==> #[trigger] s[k] != ',',
    decreases s.len(),
{
    if s.len() > 0 && s[0] != ',' {
        let rest = s.skip(1);
        lemma_first_comma(rest);
        assert forall|k: int| 0 <= k < first_comma(s) implies #[trigger] s[k] != ',' by {
            if k > 0 {
                assert(rest[k - 1] == s[k]);
            }
        }
        if first_comma(rest) < rest.len() {
            assert(rest[first_comma(rest) as int] == s[first_comma(s) as int]);
        }
    }
}

/// Texts without commas, put together with commas between them, are split into the same.
pub proof fn law_joined_parts_split(p: Seq<Seq<char>>)
    requires
        p.len() > 0,
        forall|i: int| 0 <= i < p.len() ==> !(#[trigger] p[i]).contains(','),
    ensures
        parts(joined(p)) == p,
    decreases p.len(),
{
    if p.len() == 1 {
        lemma_no_comma(p[0]);
        assert(parts(joined(p)) =~= p);
    } else {
        let rest = p.skip(1);
        assert forall|i: int| 0 <= i < rest.len() implies !(#[trigger] rest[i]).contains(',') by {
            assert(rest[i] == p[i + 1]);
        }
        law_joined_parts_split(rest);
        let s = joined(p);
        lemma_comma(p[0], joined(rest));
        assert(s.take(p[0].len() as int) =~= p[0]);
        assert(s.skip(p[0].len() as int + 1) =~= joined(rest));
        assert(parts(s) =~= p);
    }
}

/// An area is read from four numbers, lowest latitude first, then lowest longitude, highest
/// latitude and highest longitude. Each must be in range, and the lowest below the highest.
pub proof fn law_area_is_four_numbers(p: Seq<Seq<char>>)
    requires
        p.len() > 0,
        forall|i: int| 0 <= i < p.len() ==> !(#[trigger] p[i]).contains(','),
    ensures
        p.len() != 4 ==> bbox_of(joined(p)) is None,
        p.len() == 4 ==> {
            let south = numeral(trimmed(p[0]));
            let west = numeral(trimmed(p[1]));
            let north = numeral(trimmed(p[2]));
            let east = numeral(trimmed(p[3]));
            match bbox_of(joined(p)) {
                Some((a, b, c, d)) => {
                    &&& degrees_within(south, 90) == Some(a)
                    &&& degrees_within(west, 180) == Some(b)
                    &&& degrees_within(north, 90) == Some(c)
                    &&& degrees_within(east, 180) == Some(d)
                    &&& (south->0).is_less(north->0)
                    &&& (west->0).is_less(east->0)
                },
                None => {
                    ||| degrees_within(south, 90) is None
                    ||| degrees_within(west, 180) is None
                    ||| degrees_within(north, 90) is None
                    ||| degrees_within(east, 180) is None
                    ||| !(south->0).is_less(north->0)
                    ||| !(west->0).is_less(east->0)
                },
            }
        },
{
    law_joined_parts_split(p);
}

/// The number of an event is read from its digits, with a plus sign before them or not.
pub proof fn law_event_id_reads_back(n: nat)
    ensures
        n <= u64::MAX ==> event_id_of(decimal(n)) == Some(n),
        n <= u64::MAX ==> event_id_of(seq!['+'] + decimal(n)) == Some(n),
        n > u64::MAX ==> event_id_of(decimal(n)) is None,
        event_id_of(Seq::empty()) is None,
{
    law_decimal_reads_back(n);
    let s = decimal(n);
    assert(is_digit(s[0]));
    let t = seq!['+'] + s;
    assert(t[0] == '+');
    assert(t.skip(1) =~= s);
}

/// An aircraft passes a place and an altitude asked for exactly if it is at a known
/// position, between the edges of the area or on them, and, where an altitude was asked
/// for, at a known one that is neither too low nor too high.
pub proof fn law_place_is_respected(f: StreamFilter, aircraft: Option<AircraftSnapshot>)
    ensures
        f.bbox is None && f.alt_min is None && f.alt_max is None ==> f.wants_aircraft(aircraft),
        (f.bbox is Some || f.alt_min is Some || f.alt_max is Some) && (aircraft is None || aircraft->0.position is None)
            ==> !f.wants_aircraft(aircraft),
        aircraft is Some && aircraft->0.position is Some ==> {
            let p = aircraft->0.position->0;
            &&& f.bbox is None && p.alt_ft is Some ==> (f.wants_aircraft(aircraft) <==> (f.alt_min is Some ==> f.alt_min->0
                <= p.alt_ft->0) && (f.alt_max is Some ==> p.alt_ft->0 <= f.alt_max->0))
            &&& p.alt_ft is None && (f.alt_min is Some || f.alt_max is Some) ==> !f.wants_aircraft(aircraft)
            &&& f.bbox is Some && f.alt_min is None && f.alt_max is None ==> {
                let b = f.bbox->0;
                f.wants_aircraft(aircraft) <==> {
                    &&& b.min_lat@.num * p.lat@.den <= p.lat@.num * b.min_lat@.den
                    &&& p.lat@.num * b.max_lat@.den <= b.max_lat@.num * p.lat@.den
                    &&& b.min_lon@.num * p.lon@.den <= p.lon@.num * b.min_lon@.den
                    &&& p.lon@.num * b.max_lon@.den <= b.max_lon@.num * p.lon@.den
                }
            }
        },
{
}

/// What a client asks for adds up: dropping one of its demands never costs it an event, and
/// an event that meets each demand alone meets them all.
pub proof fn law_demands_add_up(f: StreamFilter, env: EventEnvelope, aircraft: Option<AircraftSnapshot>)
    ensures
        ({
            let types = StreamFilter { icaos: None, bbox: None, alt_min: None, alt_max: None, ..f };
            let icaos = StreamFilter { types: None, bbox: None, alt_min: None, alt_max: None, ..f };
            let area = StreamFilter { types: None, icaos: None, alt_min: None, alt_max: None, ..f };
            let low = StreamFilter { types: None, icaos: None, bbox: None, alt_max: None, ..f };
            let high = StreamFilter { types: None, icaos: None, bbox: None, alt_min: None, ..f };
            f.admits(env, aircraft) <==> types.admits(env, aircraft) && icaos.admits(env, aircraft) && area.admits(
                env,
                aircraft,
            ) && low.admits(env, aircraft) && high.admits(env, aircraft)
        }),
{
}

/// A client that asks for kinds of event gets those whose name is on its list, and one that
/// asks for aircraft gets those on its list.
pub proof fn law_lists_are_respected(f: StreamFilter, env: EventEnvelope, i: int)
    requires
        f.bbox is None,
        f.alt_min is None,
        f.alt_max is None,
        env.id > f.max_emitted,
    ensures
        f.types is None && f.icaos is Some && 0 <= i < f.icaos->0@.len() && f.icaos->0@[i] == env.event.address()
            ==> f.admits(env, None),
        f.icaos is None && f.types is Some && 0 <= i < f.types->0@.len() && f.types->0@[i]@ == env.event.tag_text()
            ==> f.admits(env, None),
        f.icaos is Some && f.icaos->0@.len() == 0 ==> !f.admits(env, None),
        f.types is Some && f.types->0@.len() == 0 ==> !f.admits(env, None),
        f.admits(env, None) && f.icaos is Some && f.icaos->0@.len() == 1 ==> f.icaos->0@[0] == env.event.address(),
{
}

} // verus!

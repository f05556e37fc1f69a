//! Numbering and replaying events, and keeping the snapshot that clients read.

use crate::cpr::Ratio;
use crate::crc::CrcOutcome;
use crate::events::{
    from_state_event, is_snapshot, is_wire_event, snapshot_from, AircraftSnapshot, Event, EventEnvelope,
};
use crate::frame::FrameModel;
use crate::message::{DecodeError, Icao, Message, Velocity};
use crate::state::{
    attributed, counted, evicted_count, lemma_evicted_fits, lemma_touched_last, lost, message_applied, Aircraft,
    StateEvent, StateTracker, TrackerModel,
};
use crate::table::{has_key, index_of, moved_to_back};
use std::collections::{HashMap, VecDeque};
use vstd::prelude::*;

verus! {

/// Events that a slow client may lag behind.
pub const DEFAULT_BROADCAST_CAPACITY: usize = 4096;

/// Events kept for clients that come back.
pub const REPLAY_CAPACITY: usize = 4096;

// --- Replay ------------------------------------------------------------------

/// The ring after an event: the oldest makes room when it is full.
pub open spec fn ring_after(ring: Seq<EventEnvelope>, env: EventEnvelope) -> Seq<EventEnvelope> {
    if ring.len() >= REPLAY_CAPACITY {
        ring.skip(1).push(env)
    } else {
        ring.push(env)
    }
}

/// The events with a number above `last`, in order.
pub open spec fn newer_than(ring: Seq<EventEnvelope>, last: u64) -> Seq<EventEnvelope>
    decreases ring.len(),
{
    if ring.len() == 0 {
        Seq::empty()
    } else {
        let rest = newer_than(ring.drop_last(), last);
        if ring.last().id > last {
            rest.push(ring.last())
        } else {
            rest
        }
    }
}

/// The numbers in the ring are consecutive and end before `next`.
pub open spec fn numbered_up_to(ring: Seq<EventEnvelope>, next: u64) -> bool {
    forall|i: int| 0 <= i < ring.len() ==> (#[trigger] ring[i]).id == next - ring.len() + i
}

/// Appends an event to the ring of recent events.
pub fn push_replay(ring: &mut VecDeque<EventEnvelope>, env: EventEnvelope)
    ensures
        final(ring)@ == ring_after(old(ring)@, env),
{
    let ghost before = ring@;
    if ring.len() >= REPLAY_CAPACITY {
        ring.pop_front();
        assert(ring@ =~= before.skip(1));
    }
    ring.push_back(env);
}

/// The recent events with a number above `last_event_id`.
#[must_use]
pub fn replay_after(ring: &VecDeque<EventEnvelope>, last_event_id: u64) -> (r: Vec<EventEnvelope>)
    ensures
        r@ == newer_than(ring@, last_event_id),
{
    let mut out: Vec<EventEnvelope> = Vec::new();
    let n: usize = ring.len();
    let mut i: usize = 0;
    while i < n
        invariant
            i <= n,
            n == ring@.len(),
            out@ == newer_than(ring@.take(i as int), last_event_id),
        decreases n - i,
    {
        assert(ring@.take(i + 1).drop_last() =~= ring@.take(i as int));
        if ring[i].id > last_event_id {
            let copy = ring[i].clone();
            out.push(copy);
        }
        i += 1;
    }
    assert(ring@.take(n as int) =~= ring@);
    out
}

/// Numbers an event and appends it to the ring, before it is sent to anyone.
pub fn publish(ring: &mut VecDeque<EventEnvelope>, next_id: &mut u64, event: Event) -> (env: EventEnvelope)
    requires
        *old(next_id) < u64::MAX,
    ensures
        env == (EventEnvelope { id: *old(next_id), event }),
        *final(next_id) == *old(next_id) + 1,
        final(ring)@ == ring_after(old(ring)@, env),
{
    let env = EventEnvelope { id: *next_id, event };
    *next_id = *next_id + 1;
    push_replay(ring, env.clone());
    env
}

/// The ring never outgrows its capacity, and its numbers stay consecutive.
pub proof fn law_ring_stays_bounded(ring: Seq<EventEnvelope>, next: u64, env: EventEnvelope)
    requires
        ring.len() <= REPLAY_CAPACITY,
        numbered_up_to(ring, next),
        env.id == next,
        next < u64::MAX,
    ensures
        ring_after(ring, env).len() <= REPLAY_CAPACITY,
        numbered_up_to(ring_after(ring, env), (next + 1) as u64),
{
    let after = ring_after(ring, env);
    assert forall|i: int| 0 <= i < after.len() implies (#[trigger] after[i]).id == next + 1 - after.len() + i by {
        if i < after.len() - 1 {
            if ring.len() >= REPLAY_CAPACITY {
                assert(after[i] == ring[i + 1]);
            } else {
                assert(after[i] == ring[i]);
            }
        }
    }
}

/// A client that has seen everything up to an event still in reach of the ring gets
/// every event since, in order and without a gap.
pub proof fn law_replay_has_no_gap(ring: Seq<EventEnvelope>, next: u64, last: u64)
    requires
        numbered_up_to(ring, next),
        ring.len() <= next,
        next - ring.len() <= last + 1,
        last < next,
    ensures
        newer_than(ring, last) == ring.skip(last + 1 - (next - ring.len())),
        newer_than(ring, last).len() == next - last - 1,
        forall|i: int| 0 <= i < newer_than(ring, last).len() ==> (#[trigger] newer_than(ring, last)[i]).id == last + 1 + i,
    decreases ring.len(),
{
    let k = last + 1 - (next - ring.len());
    if ring.len() > 0 {
        let front = ring.drop_last();
        assert(ring[ring.len() - 1].id == next - 1);
        assert forall|i: int| 0 <= i < front.len() implies (#[trigger] front[i]).id == (next - 1) as u64 - front.len()
            + i by {
            assert(front[i] == ring[i]);
        }
        if last < next - 1 {
            law_replay_has_no_gap(front, (next - 1) as u64, last);
            assert(newer_than(ring, last) =~= ring.skip(k));
        } else {
            lemma_none_newer(front, last);
            assert(newer_than(ring, last) =~= ring.skip(k));
        }
        assert forall|i: int| 0 <= i < newer_than(ring, last).len() implies (#[trigger] newer_than(ring, last)[i]).id
            == last + 1 + i by {
            assert(ring.skip(k)[i] == ring[k + i]);
        }
    } else {
        assert(newer_than(ring, last) =~= ring.skip(k));
    }
}

proof fn lemma_none_newer(ring: Seq<EventEnvelope>, last: u64)
    requires
        forall|i: int| 0 <= i < ring.len() ==> (#[trigger] ring[i]).id <= last,
    ensures
        newer_than(ring, last) == Seq::<EventEnvelope>::empty(),
    decreases ring.len(),
{
    if ring.len() > 0 {
        let front = ring.drop_last();
        assert(ring[ring.len() - 1].id <= last);
        assert forall|i: int| 0 <= i < front.len() implies (#[trigger] front[i]).id <= last by {
            assert(front[i] == ring[i]);
        }
        lemma_none_newer(front, last);
    }
}

// --- Snapshot ----------------------------------------------------------------

/// The aircraft that a change of the table is about.
pub open spec fn subject(ev: StateEvent) -> Option<Icao> {
    match ev {
        StateEvent::Acquired(icao) => Some(icao),
        StateEvent::Identification { icao, .. } => Some(icao),
        StateEvent::Position { icao, .. } => Some(icao),
        StateEvent::Velocity { icao, .. } => Some(icao),
        StateEvent::Lost(icao) => Some(icao),
        StateEvent::AddressRecovered { icao, .. } => Some(icao),
        StateEvent::Orphan { .. } => None,
    }
}

/// The aircraft that a change of the table is about.
#[must_use]
pub fn subject_of(ev: &StateEvent) -> (icao: Option<Icao>)
    ensures
        icao == subject(*ev),
{
    match ev {
        StateEvent::Acquired(icao) => Some(*icao),
        StateEvent::Identification { icao, .. } => Some(*icao),
        StateEvent::Position { icao, .. } => Some(*icao),
        StateEvent::Velocity { icao, .. } => Some(*icao),
        StateEvent::Lost(icao) => Some(*icao),
        StateEvent::AddressRecovered { icao, .. } => Some(*icao),
        StateEvent::Orphan { .. } => None,
    }
}

/// `after` is the snapshot `before` brought up to date after a change of the table: a
/// lost aircraft is taken out, any other is replaced by what the tracker knows of it.
pub open spec fn is_updated(
    before: Map<u32, AircraftSnapshot>,
    tracker: TrackerModel,
    ev: StateEvent,
    track: Option<Ratio>,
    after: Map<u32, AircraftSnapshot>,
) -> bool {
    match subject(ev) {
        None => after == before,
        Some(icao) => if ev is Lost {
            after == before.remove(icao.0)
        } else if has_key(tracker.table, icao.0) {
            &&& after == before.insert(icao.0, after[icao.0])
            &&& is_snapshot(tracker.table[index_of(tracker.table, icao.0)].1, track, after[icao.0])
        } else {
            after == before
        },
    }
}

/// Brings the snapshot up to date after a change of the table. `track` is the track of
/// the aircraft's ground velocity.
pub fn update_snapshot(
    snapshot: &mut HashMap<u32, AircraftSnapshot>,
    tracker: &StateTracker,
    ev: &StateEvent,
    track: Option<Ratio>,
)
    ensures
        is_updated(old(snapshot)@, tracker@, *ev, track, final(snapshot)@),
{
    broadcast use vstd::std_specs::hash::group_hash_axioms;

    let icao: Icao = match subject_of(ev) {
        Some(icao) => icao,
        None => {
            return;
        },
    };
    if let StateEvent::Lost(_) = ev {
        snapshot.remove(&icao.0);
        return;
    }
    if let Some(a) = tracker.get(icao) {
        let s = snapshot_from(a, track);
        snapshot.insert(icao.0, s);
    }
}

/// The addresses shown after changes of the table have been taken in, one after the
/// other, when the table has come to be `table`.
pub open spec fn shown_after(shown: Set<u32>, table: Seq<(u32, Aircraft)>, events: Seq<StateEvent>) -> Set<u32>
    decreases events.len(),
{
    if events.len() == 0 {
        shown
    } else {
        let before = shown_after(shown, table, events.drop_last());
        match subject(events.last()) {
            None => before,
            Some(icao) => if events.last() is Lost {
                before.remove(icao.0)
            } else if has_key(table, icao.0) {
                before.insert(icao.0)
            } else {
                before
            },
        }
    }
}

/// The addresses of a snapshot change as [`shown_after`] says.
pub proof fn law_snapshot_follows_events(
    before: Map<u32, AircraftSnapshot>,
    tracker: TrackerModel,
    ev: StateEvent,
    track: Option<Ratio>,
    after: Map<u32, AircraftSnapshot>,
)
    requires
        is_updated(before, tracker, ev, track, after),
    ensures
        after.dom() == shown_after(before.dom(), tracker.table, seq![ev]),
{
    let one = seq![ev];
    assert(one.drop_last() =~= Seq::<StateEvent>::empty());
    assert(one.last() == ev);
    assert(shown_after(before.dom(), tracker.table, one.drop_last()) == before.dom());
    assert(after.dom() =~= shown_after(before.dom(), tracker.table, one));
}

/// A snapshot that shows the tracked aircraft shows them again once the changes that a
/// frame made have been taken in.
pub proof fn law_snapshot_shows_the_table(
    t: TrackerModel,
    frame: FrameModel,
    at: u64,
    decoded: Result<Message, DecodeError>,
    shown: Set<u32>,
)
    requires
        t.valid(),
        forall|k: u32| shown.contains(k) <==> has_key(t.table, k),
    ensures
        ({
            let (after, events) = t.ingested(frame, at, decoded);
            forall|k: u32| shown_after(shown, after.table, events).contains(k) <==> has_key(after.table, k)
        }),
{
    let (after, events) = t.ingested(frame, at, decoded);
    match attributed(t.table, frame, at, decoded) {
        None => {
            let one = seq![StateEvent::Orphan { df: frame.df }];
            assert(one.drop_last() =~= Seq::<StateEvent>::empty());
            assert(shown_after(shown, after.table, one.drop_last()) == shown);
        },
        Some((icao, msg)) => {
            lemma_touched_last(t, icao, at);
            let (table, first) = t.touched(icao, at);
            let second = if frame.crc == CrcOutcome::Failed {
                seq![StateEvent::AddressRecovered { icao: Icao(icao), df: frame.df }]
            } else {
                Seq::empty()
            };
            let (a, third) = message_applied(counted(table.last().1, at, frame.crc), msg, at, t.reference);
            assert(after.table =~= table.update(table.len() - 1, (icao, a)));
            assert forall|k: u32| has_key(after.table, k) == has_key(table, k) by {
                lemma_same_keys(table, after.table, k);
                lemma_same_keys(after.table, table, k);
            }
            assert(has_key(after.table, icao));
            let tail = second + third;
            assert forall|i: int| 0 <= i < tail.len() implies is_about(#[trigger] tail[i], icao) by {
                if i >= second.len() {
                    assert(tail[i] == third[i - second.len()]);
                }
            }
            if has_key(t.table, icao) {
                lemma_shown_news(shown, after.table, tail, icao);
                assert(first + second + third =~= tail);
                assert(events =~= tail);
                assert forall|k: u32| has_key(t.table, k) == has_key(table, k) by {
                    lemma_moved_keys(t.table, icao, k);
                }
                assert(shown.insert(icao) =~= shown);
                assert(shown_after(shown, after.table, events) == shown);
                assert forall|k: u32| shown_after(shown, after.table, events).contains(k) == has_key(after.table, k) by {
                    assert(has_key(after.table, k) == has_key(table, k));
                    assert(has_key(t.table, k) == has_key(table, k));
                }
            } else {
                let n = evicted_count(t.table, t.capacity, at);
                lemma_evicted_fits(t.table, t.capacity, at);
                let gone = lost(t.table, n);
                let news = seq![StateEvent::Acquired(Icao(icao))] + tail;
                assert forall|i: int| 0 <= i < news.len() implies is_about(#[trigger] news[i], icao) by {
                    if i > 0 {
                        assert(news[i] == tail[i - 1]);
                    }
                }
                assert(events =~= gone + news);
                lemma_shown_concat(shown, after.table, gone, news);
                let middle = shown_after(shown, after.table, gone);
                lemma_shown_lost(shown, after.table, t.table, n);
                lemma_shown_news(middle, after.table, news, icao);
                assert forall|k: u32| middle.insert(icao).contains(k) == has_key(table, k) by {
                    lemma_kept_keys(t.table, n as int, icao, k);
                    if leads(t.table, n, k) {
                        let i = choose|i: int| 0 <= i < n && (#[trigger] t.table[i]).0 == k;
                        assert(has_key(t.table, k));
                    }
                    if has_key(t.table, k) {
                        let i = index_of(t.table, k);
                        assert(i < n ==> leads(t.table, n, k));
                    }
                }
                assert(shown_after(shown, after.table, events) == middle.insert(icao));
                assert forall|k: u32| shown_after(shown, after.table, events).contains(k) == has_key(after.table, k) by {
                    assert(has_key(after.table, k) == has_key(table, k));
                    assert(middle.insert(icao).contains(k) == has_key(table, k));
                }
            }
        },
    }
}

/// A change other than a loss, about the aircraft with an address.
spec fn is_about(ev: StateEvent, icao: u32) -> bool {
    subject(ev) == Some(Icao(icao)) && !(ev is Lost)
}

proof fn lemma_same_keys(a: Seq<(u32, Aircraft)>, b: Seq<(u32, Aircraft)>, k: u32)
    requires
        a.len() == b.len(),
        forall|i: int| 0 <= i < a.len() ==> (#[trigger] a[i]).0 == b[i].0,
    ensures
        has_key(a, k) ==> has_key(b, k),
{
    if has_key(a, k) {
        let i = index_of(a, k);
        assert(b[i].0 == k);
    }
}

proof fn lemma_moved_keys(e: Seq<(u32, Aircraft)>, icao: u32, k: u32)
    requires
        has_key(e, icao),
    ensures
        has_key(moved_to_back(e, icao), k) == has_key(e, k),
{
    let m = moved_to_back(e, icao);
    let j = index_of(e, icao);
    if has_key(e, k) {
        let i = index_of(e, k);
        assert(m[if i < j { i } else if i == j { m.len() - 1 } else { i - 1 }].0 == k);
    }
    if has_key(m, k) {
        let i = index_of(m, k);
        assert(e[if i == m.len() - 1 { j } else if i < j { i } else { i + 1 }].0 == k);
    }
}

proof fn lemma_kept_keys(e: Seq<(u32, Aircraft)>, n: int, icao: u32, k: u32)
    requires
        0 <= n <= e.len(),
    ensures
        forall|a: Aircraft|
            #![trigger e.skip(n).push((icao, a))]
            has_key(e.skip(n).push((icao, a)), k) <==> k == icao || exists|i: int|
                n <= i < e.len() && (#[trigger] e[i]).0 == k,
{
    assert forall|a: Aircraft|
        #![trigger e.skip(n).push((icao, a))]
        has_key(e.skip(n).push((icao, a)), k) <==> k == icao || exists|i: int|
            n <= i < e.len() && (#[trigger] e[i]).0 == k by {
        let m = e.skip(n).push((icao, a));
        if k == icao {
            assert(m[m.len() - 1].0 == k);
        }
        if exists|i: int| n <= i < e.len() && (#[trigger] e[i]).0 == k {
            let i = choose|i: int| n <= i < e.len() && (#[trigger] e[i]).0 == k;
            assert(m[i - n].0 == k);
        }
        if has_key(m, k) && k != icao {
            let i = index_of(m, k);
            assert(e[i + n].0 == k);
        }
    }
}

proof fn lemma_shown_concat(shown: Set<u32>, table: Seq<(u32, Aircraft)>, a: Seq<StateEvent>, b: Seq<StateEvent>)
    ensures
        shown_after(shown, table, a + b) == shown_after(shown_after(shown, table, a), table, b),
    decreases b.len(),
{
    if b.len() == 0 {
        assert(a + b =~= a);
    } else {
        assert((a + b).drop_last() =~= a + b.drop_last());
        assert((a + b).last() == b.last());
        lemma_shown_concat(shown, table, a, b.drop_last());
    }
}

proof fn lemma_shown_news(shown: Set<u32>, table: Seq<(u32, Aircraft)>, events: Seq<StateEvent>, icao: u32)
    requires
        forall|i: int| 0 <= i < events.len() ==> is_about(#[trigger] events[i], icao),
        has_key(table, icao),
    ensures
        shown_after(shown, table, events) == (if events.len() == 0 {
            shown
        } else {
            shown.insert(icao)
        }),
    decreases events.len(),
{
    if events.len() > 0 {
        let front = events.drop_last();
        assert(is_about(events[events.len() - 1], icao));
        assert forall|i: int| 0 <= i < front.len() implies is_about(#[trigger] front[i], icao) by {
            assert(front[i] == events[i]);
        }
        lemma_shown_news(shown, table, front, icao);
        assert(shown.insert(icao).insert(icao) =~= shown.insert(icao));
    }
}

/// The key is among those of the first `n` entries.
spec fn leads(e: Seq<(u32, Aircraft)>, n: nat, k: u32) -> bool {
    exists|i: int| 0 <= i < n && (#[trigger] e[i]).0 == k
}

proof fn lemma_shown_lost(shown: Set<u32>, table: Seq<(u32, Aircraft)>, earlier: Seq<(u32, Aircraft)>, n: nat)
    requires
        n <= earlier.len(),
    ensures
        forall|k: u32|
            #[trigger] shown_after(shown, table, lost(earlier, n)).contains(k) <==> shown.contains(k) && !leads(
                earlier,
                n,
                k,
            ),
    decreases n,
{
    if n > 0 {
        let m = (n - 1) as nat;
        assert(lost(earlier, n).drop_last() =~= lost(earlier, m));
        lemma_shown_lost(shown, table, earlier, m);
        assert(lost(earlier, n).last() == StateEvent::Lost(Icao(earlier[m as int].0)));
        let before = shown_after(shown, table, lost(earlier, m));
        assert(shown_after(shown, table, lost(earlier, n)) == before.remove(earlier[m as int].0));
        assert forall|k: u32| leads(earlier, n, k) == (leads(earlier, m, k) || earlier[m as int].0 == k) by {
            if leads(earlier, n, k) {
                let i = choose|i: int| 0 <= i < n && (#[trigger] earlier[i]).0 == k;
                assert(i == m || leads(earlier, m, k));
            }
            if leads(earlier, m, k) {
                let i = choose|i: int| 0 <= i < m && (#[trigger] earlier[i]).0 == k;
                assert(0 <= i < n);
            }
        }
    }
}

/// Takes in a change of the table: brings the snapshot up to date, and numbers the event
/// that the change gives for network clients and puts it in the ring. Returns the event,
/// to be sent. `known` is the track of the aircraft's ground velocity, `track` that of
/// the velocity in the change.
pub fn announce(
    snapshot: &mut HashMap<u32, AircraftSnapshot>,
    ring: &mut VecDeque<EventEnvelope>,
    next_id: &mut u64,
    tracker: &StateTracker,
    ev: &StateEvent,
    now: &str,
    known: Option<Ratio>,
    track: Option<Ratio>,
) -> (env: Option<EventEnvelope>)
    requires
        *old(next_id) < u64::MAX,
    ensures
        is_updated(old(snapshot)@, tracker@, *ev, known, final(snapshot)@),
        match env {
            Some(env) => {
                &&& env.id == *old(next_id)
                &&& is_wire_event(*ev, now@, track, env.event)
                &&& *final(next_id) == *old(next_id) + 1
                &&& final(ring)@ == ring_after(old(ring)@, env)
            },
            None => {
                &&& *ev is Orphan
                &&& *final(next_id) == *old(next_id)
                &&& final(ring)@ == old(ring)@
            },
        },
        *ev is Orphan ==> env is None,
{
    update_snapshot(snapshot, tracker, ev, known);
    match from_state_event(ev, now, track) {
        Some(event) => Some(publish(ring, next_id, event)),
        None => None,
    }
}

/// The velocity of a tracked aircraft, whose track the snapshot needs.
#[must_use]
pub fn velocity_known(tracker: &StateTracker, icao: Icao) -> (v: Option<Velocity>)
    ensures
        v == (if has_key(tracker@.table, icao.0) {
            tracker@.table[index_of(tracker@.table, icao.0)].1.velocity
        } else {
            None
        }),
{
    match tracker.get(icao) {
        Some(a) => a.velocity,
        None => None,
    }
}

// --- Labels ------------------------------------------------------------------

/// The name of a CRC outcome.
pub open spec fn outcome_text(crc: CrcOutcome) -> Seq<char> {
    match crc {
        CrcOutcome::Clean => "clean"@,
        CrcOutcome::Corrected { .. } => "corrected"@,
        CrcOutcome::Failed => "failed"@,
    }
}

/// The label under which frames with a CRC outcome are counted.
#[must_use]
pub fn outcome_label(crc: CrcOutcome) -> (t: &'static str)
    ensures
        t@ == outcome_text(crc),
{
    match crc {
        CrcOutcome::Clean => "clean",
        CrcOutcome::Corrected { .. } => "corrected",
        CrcOutcome::Failed => "failed",
    }
}

/// The name of a kind of change.
pub open spec fn kind_text(ev: StateEvent) -> Seq<char> {
    match ev {
        StateEvent::Acquired(_) => "acquired"@,
        StateEvent::Identification { .. } => "identification"@,
        StateEvent::Position { .. } => "position"@,
        StateEvent::Velocity { .. } => "velocity"@,
        StateEvent::Lost(_) => "lost"@,
        StateEvent::AddressRecovered { .. } => "address_recovered"@,
        StateEvent::Orphan { .. } => "orphan"@,
    }
}

/// The label under which changes of a kind are counted.
#[must_use]
pub fn kind_label(ev: &StateEvent) -> (t: &'static str)
    ensures
        t@ == kind_text(*ev),
{
    match ev {
        StateEvent::Acquired(_) => "acquired",
        StateEvent::Identification { .. } => "identification",
        StateEvent::Position { .. } => "position",
        StateEvent::Velocity { .. } => "velocity",
        StateEvent::Lost(_) => "lost",
        StateEvent::AddressRecovered { .. } => "address_recovered",
        StateEvent::Orphan { .. } => "orphan",
    }
}

/// The ring keeps the last 4096 events: a new one comes last, and the others stay, in
/// order, but for the oldest of a full ring.
pub proof fn law_ring_keeps_recent_events(ring: Seq<EventEnvelope>, env: EventEnvelope)
    requires
        ring.len() <= 4096,
    ensures
        ring_after(ring, env).last() == env,
        ring.len() < 4096 ==> ring_after(ring, env).drop_last() == ring,
        ring.len() == 4096 ==> ring_after(ring, env).drop_last() == ring.skip(1),
        ring_after(ring, env).len() <= 4096,
{
    assert(ring.len() < 4096 ==> ring_after(ring, env).drop_last() =~= ring);
    assert(ring.len() == 4096 ==> ring_after(ring, env).drop_last() =~= ring.skip(1));
}

/// After a change the snapshot shows of the aircraft what the tracker knows of it now, or
/// no longer shows it if it was lost. All others are shown as before.
pub proof fn law_snapshot_shows_what_is_known(
    before: Map<u32, AircraftSnapshot>,
    tracker: TrackerModel,
    ev: StateEvent,
    track: Option<Ratio>,
    after: Map<u32, AircraftSnapshot>,
    icao: Icao,
    other: u32,
)
    requires
        is_updated(before, tracker, ev, track, after),
        match ev {
            StateEvent::Acquired(i) => i == icao,
            StateEvent::Identification { icao: i, .. } => i == icao,
            StateEvent::Position { icao: i, .. } => i == icao,
            StateEvent::Velocity { icao: i, .. } => i == icao,
            StateEvent::Lost(i) => i == icao,
            StateEvent::AddressRecovered { icao: i, .. } => i == icao,
            StateEvent::Orphan { .. } => true,
        },
        other != icao.0,
    ensures
        ev is Lost ==> !after.contains_key(icao.0),
        !(ev is Lost) && !(ev is Orphan) && has_key(tracker.table, icao.0) ==> after.contains_key(icao.0)
            && is_snapshot(tracker.table[index_of(tracker.table, icao.0)].1, track, after[icao.0]),
        ev is Orphan ==> after == before,
        after.contains_key(other) == before.contains_key(other),
        before.contains_key(other) ==> after[other] == before[other],
{
}

} // verus!

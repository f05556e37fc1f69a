//! From samples to aircraft: a detector and a tracker with a clock between them.
//!
//! The clock of a recording is the samples themselves: a frame is taken to have arrived
//! when the last sample of its chunk did.

use crate::frame::{contents, DetectorModel, Frame, FrameDetector};
use crate::message::{DecodeError, Message};
use crate::message::is_decoded;
use crate::state::{StateEvent, StateTracker, TrackerModel};
use crate::Iq;
use vstd::prelude::*;

verus! {

/// The time that samples take at a sample rate, in nanoseconds, at most `u64::MAX`.
pub open spec fn capture_nanos(samples: int, rate: int) -> int {
    let t = samples * 1_000_000_000 / rate;
    if t <= u64::MAX {
        t
    } else {
        u64::MAX as int
    }
}

/// The time that samples take at a sample rate, in nanoseconds.
#[must_use]
pub fn capture_time(samples: u64, rate: u32) -> (t: u64)
    requires
        rate > 0,
    ensures
        t == capture_nanos(samples as int, rate as int),
{
    let t: u128 = samples as u128 * 1_000_000_000 / rate as u128;
    if t <= u64::MAX as u128 {
        t as u64
    } else {
        u64::MAX
    }
}

/// Later samples never arrive at an earlier time.
pub proof fn law_capture_time_is_monotonic(a: int, b: int, rate: int)
    requires
        0 <= a <= b,
        rate > 0,
    ensures
        0 <= capture_nanos(a, rate) <= capture_nanos(b, rate),
{
    assert(0 <= a * 1_000_000_000 / rate <= b * 1_000_000_000 / rate) by (nonlinear_arith)
        requires
            0 <= a <= b,
            rate > 0,
    ;
}

/// How long to wait before going on with a recording that is replayed at the speed it
/// was made, `elapsed` nanoseconds after the replay began. Nothing, if it is late.
#[must_use]
pub fn pace(samples: u64, rate: u32, elapsed: u64) -> (wait: Option<u64>)
    requires
        rate > 0,
    ensures
        match wait {
            Some(w) => w == capture_nanos(samples as int, rate as int) - elapsed,
            None => capture_nanos(samples as int, rate as int) < elapsed,
        },
{
    let due: u64 = capture_time(samples, rate);
    if due >= elapsed {
        Some(due - elapsed)
    } else {
        None
    }
}

/// What a read from a source means.
#[derive(Debug, Clone, Copy, PartialEq, Eq, Structural)]
pub enum ReadVerdict {
    /// There are samples.
    Samples,
    /// The recording has come to its end.
    Finished,
    /// The receiver is gone. It has no end of its own.
    ReceiverLost,
}

/// What a read of `n` samples means.
#[must_use]
pub fn read_verdict(n: usize, live: bool) -> (v: ReadVerdict)
    ensures
        n > 0 ==> v == ReadVerdict::Samples,
        n == 0 && live ==> v == ReadVerdict::ReceiverLost,
        n == 0 && !live ==> v == ReadVerdict::Finished,
{
    if n > 0 {
        ReadVerdict::Samples
    } else if live {
        ReadVerdict::ReceiverLost
    } else {
        ReadVerdict::Finished
    }
}

/// A detector and a tracker, and how far they have come.
#[derive(Debug)]
pub struct Pipeline {
    detector: FrameDetector,
    tracker: StateTracker,
    sample_rate: u32,
    samples_consumed: u64,
}

impl Pipeline {
    /// The detector.
    pub closed spec fn detects(&self) -> DetectorModel {
        self.detector@
    }

    /// The tracker.
    pub closed spec fn tracks(&self) -> TrackerModel {
        self.tracker@
    }

    /// The rate of the clock.
    pub closed spec fn rate(&self) -> u32 {
        self.sample_rate
    }

    /// The samples taken in.
    pub closed spec fn consumed(&self) -> u64 {
        self.samples_consumed
    }

    /// A pipeline whose clock runs at `sample_rate`.
    pub fn new(detector: FrameDetector, tracker: StateTracker, sample_rate: u32) -> (p: Pipeline)
        ensures
            p.detects() == detector@,
            p.tracks() == tracker@,
            p.rate() == sample_rate,
            p.consumed() == 0,
    {
        Pipeline { detector, tracker, sample_rate, samples_consumed: 0 }
    }

    /// The samples taken in.
    #[must_use]
    pub fn samples_consumed(&self) -> (n: u64)
        ensures
            n == self.consumed(),
    {
        self.samples_consumed
    }

    /// The tracker.
    #[must_use]
    pub fn tracker(&self) -> (t: &StateTracker)
        ensures
            t@ == self.tracks(),
    {
        &self.tracker
    }

    /// Takes in a chunk of samples, appends the frames found to `frames`, and returns the
    /// time at which they are taken to have arrived.
    pub fn feed(&mut self, samples: &[Iq], frames: &mut Vec<Frame>) -> (now: u64)
        requires
            old(self).rate() > 0,
        ensures
            final(self).detects() == old(self).detects().fed(samples@).0,
            contents(final(frames)@) == contents(old(frames)@) + old(self).detects().fed(samples@).1,
            final(self).tracks() == old(self).tracks(),
            final(self).rate() == old(self).rate(),
            final(self).consumed() == (if old(self).consumed() + samples@.len() <= u64::MAX {
                (old(self).consumed() + samples@.len()) as u64
            } else {
                u64::MAX
            }),
            now == capture_nanos(final(self).consumed() as int, final(self).rate() as int),
    {
        self.samples_consumed = self.samples_consumed.saturating_add(samples.len() as u64);
        self.detector.process(samples, frames);
        capture_time(self.samples_consumed, self.sample_rate)
    }

    /// Hands a frame to the tracker; see [`StateTracker::ingest`].
    pub fn track(&mut self, frame: &Frame, at: u64, events: &mut Vec<StateEvent>)
        requires
            old(self).tracks().valid(),
        ensures
            final(self).tracks().valid(),
            final(self).detects() == old(self).detects(),
            final(self).rate() == old(self).rate(),
            final(self).consumed() == old(self).consumed(),
            exists|decoded: Result<Message, DecodeError>|
                #![trigger is_decoded(frame@, decoded)]
                {
                    &&& is_decoded(frame@, decoded)
                    &&& final(self).tracks() == old(self).tracks().ingested(frame@, at, decoded).0
                    &&& final(events)@ == old(events)@ + old(self).tracks().ingested(frame@, at, decoded).1
                },
    {
        self.tracker.ingest(frame, at, events);
    }

    /// Drops stale aircraft at the end of the samples taken in, and appends what happened
    /// to `events`.
    pub fn finish(&mut self, events: &mut Vec<StateEvent>)
        requires
            old(self).rate() > 0,
        ensures
            ({
                let now = capture_nanos(old(self).consumed() as int, old(self).rate() as int) as u64;
                &&& final(self).tracks() == old(self).tracks().pruned(now).0
                &&& final(events)@ == old(events)@ + old(self).tracks().pruned(now).1
            }),
            final(self).detects() == old(self).detects(),
            final(self).rate() == old(self).rate(),
            final(self).consumed() == old(self).consumed(),
            old(self).tracks().valid() ==> final(self).tracks().valid(),
    {
        let now: u64 = capture_time(self.samples_consumed, self.sample_rate);
        self.tracker.evict_stale(now, events);
    }
}

/// The time of samples is what they take at the sample rate, in whole nanoseconds, for as
/// long as 64 bits hold it.
pub proof fn law_capture_time_measures_samples(samples: int, rate: int)
    requires
        0 <= samples,
        rate > 0,
        samples * 1_000_000_000 < rate * 0x1_0000_0000_0000_0000,
    ensures
        rate * capture_nanos(samples, rate) <= samples * 1_000_000_000 < rate * capture_nanos(samples, rate)
            + rate,
{
    let x = samples * 1_000_000_000;
    vstd::arithmetic::div_mod::lemma_fundamental_div_mod(x, rate);
    vstd::arithmetic::div_mod::lemma_mod_bound(x, rate);
    let t = x / rate;
    assert(t < 0x1_0000_0000_0000_0000) by (nonlinear_arith)
        requires
            rate * t <= x,
            x < rate * 0x1_0000_0000_0000_0000,
            rate > 0,
    ;
}

/// A second's worth of samples takes a second.
pub proof fn law_rate_is_samples_per_second(seconds: int, rate: int)
    requires
        0 <= seconds <= 10_000_000_000,
        rate > 0,
    ensures
        capture_nanos(seconds * rate, rate) == seconds * 1_000_000_000,
{
    let x = seconds * 1_000_000_000;
    assert(seconds * rate * 1_000_000_000 == x * rate) by (nonlinear_arith)
        requires
            x == seconds * 1_000_000_000,
    ;
    vstd::arithmetic::div_mod::lemma_div_by_multiple(x, rate);
}

} // verus!

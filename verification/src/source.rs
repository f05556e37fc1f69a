//! Sample sources: where the samples come from.
//!
//! [`SampleSource`] is what a receiver back end implements. [`IqFileSource`] replays
//! raw interleaved signed 8-bit I/Q: `i0 q0 i1 q1 ...`. A reader may deliver any
//! number of bytes at a time, so the source collects bytes until it has what was
//! asked for or the stream ends, and then hands out whole samples.

use crate::Iq;
use vstd::prelude::*;

verus! {

/// A stream of I/Q samples.
pub trait SampleSource {
    /// Why a read failed.
    type Error;

    /// Sample rate in samples per second.
    fn sample_rate(&self) -> u32;

    /// Centre frequency in hertz.
    fn center_freq(&self) -> u32;

    /// Reads up to `out.len()` samples into `out` and returns how many. None means
    /// the end of the stream.
    fn read(&mut self, out: &mut [Iq]) -> (r: Result<usize, Self::Error>)
        ensures
            match r {
                Ok(n) => n <= old(out)@.len(),
                Err(_) => true,
            },
            final(out)@.len() == old(out)@.len(),
    ;
}

/// Bytes that are collected at most before samples are handed out.
pub const SCRATCH_BYTES: usize = 4096;

/// The signed value of a byte.
pub open spec fn signed(b: u8) -> i8 {
    if b < 128 {
        b as i8
    } else {
        (b - 256) as i8
    }
}

/// The samples that whole pairs of bytes stand for; an odd byte at the end is left
/// out.
pub open spec fn samples_of(bytes: Seq<u8>) -> Seq<Iq> {
    Seq::new(bytes.len() / 2, |i: int| Iq { i: signed(bytes[2 * i]), q: signed(bytes[2 * i + 1]) })
}

/// The bytes to collect for a buffer of `room` samples.
pub open spec fn bytes_wanted(room: nat) -> nat {
    if room <= SCRATCH_BYTES / 2 {
        2 * room
    } else {
        SCRATCH_BYTES as nat
    }
}

/// Samples split over any two reads are the same as samples read at once, if the
/// first read ends with a whole sample.
pub proof fn law_samples_concatenate(a: Seq<u8>, b: Seq<u8>)
    requires
        a.len() % 2 == 0,
    ensures
        samples_of(a + b) == samples_of(a) + samples_of(b),
{
    assert forall|i: int| 0 <= i < (a + b).len() / 2 implies samples_of(a + b)[i] == (samples_of(a) + samples_of(
        b,
    ))[i] by {
        let n = a.len() / 2;
        if i >= n {
            assert((a + b)[2 * i] == b[2 * (i - n)]);
            assert((a + b)[2 * i + 1] == b[2 * (i - n) + 1]);
        }
    }
    assert(samples_of(a + b) =~= samples_of(a) + samples_of(b));
}

/// What became of a request for bytes.
#[derive(Debug, Clone, Copy, PartialEq, Eq, Structural)]
pub enum ReadOutcome {
    /// So many bytes arrived; none is the end of the stream.
    Got(usize),
    /// Nothing arrived; the request may be repeated.
    Interrupted,
    /// The reader failed for good.
    Failed,
}

/// What to do next.
#[derive(Debug, Clone, Copy, PartialEq, Eq, Structural)]
pub enum ReadAction {
    /// Ask the reader for at most so many bytes.
    Request(usize),
    /// Hand out the samples collected.
    Deliver,
    /// Report the failure.
    Abort,
}

/// The action that follows an outcome, when `collected` of `wanted` bytes are there.
pub open spec fn action_after(outcome: ReadOutcome, collected: int, wanted: int) -> ReadAction {
    match outcome {
        ReadOutcome::Failed => ReadAction::Abort,
        ReadOutcome::Got(0) => ReadAction::Deliver,
        _ => if collected < wanted {
            ReadAction::Request((wanted - collected) as usize)
        } else {
            ReadAction::Deliver
        },
    }
}

/// Replays interleaved signed 8-bit I/Q.
#[derive(Debug)]
pub struct IqFileSource<R> {
    reader: R,
    sample_rate: u32,
    center_freq: u32,
    byte_buf: Vec<u8>,
}

impl<R> IqFileSource<R> {
    /// The reader.
    pub closed spec fn from(&self) -> R {
        self.reader
    }

    /// Samples per second.
    pub closed spec fn rate(&self) -> u32 {
        self.sample_rate
    }

    /// Centre frequency in hertz.
    pub closed spec fn freq(&self) -> u32 {
        self.center_freq
    }

    /// The bytes collected since the last samples were handed out.
    pub closed spec fn collected(&self) -> Seq<u8> {
        self.byte_buf@
    }

    /// Wraps a reader. Rate and frequency are not part of the format.
    pub fn new(reader: R, sample_rate: u32, center_freq: u32) -> (s: IqFileSource<R>)
        ensures
            s.from() == reader,
            s.rate() == sample_rate,
            s.freq() == center_freq,
            s.collected() == Seq::<u8>::empty(),
    {
        IqFileSource { reader, sample_rate, center_freq, byte_buf: Vec::with_capacity(SCRATCH_BYTES) }
    }

    /// Samples per second.
    pub fn sample_rate(&self) -> (r: u32)
        ensures
            r == self.rate(),
    {
        self.sample_rate
    }

    /// Centre frequency in hertz.
    pub fn center_freq(&self) -> (f: u32)
        ensures
            f == self.freq(),
    {
        self.center_freq
    }

    /// The reader, to be asked for bytes.
    pub fn reader_mut(&mut self) -> (r: &mut R)
        ensures
            *r == old(self).from(),
            final(self).from() == *final(r),
            final(self).rate() == old(self).rate(),
            final(self).freq() == old(self).freq(),
            final(self).collected() == old(self).collected(),
    {
        &mut self.reader
    }

    /// Starts collecting bytes for a buffer of `room` samples. What an earlier read
    /// that failed had collected is forgotten.
    pub fn begin(&mut self, room: usize) -> (a: ReadAction)
        ensures
            final(self).collected() == Seq::<u8>::empty(),
            final(self).from() == old(self).from(),
            final(self).rate() == old(self).rate(),
            final(self).freq() == old(self).freq(),
            a == action_after(ReadOutcome::Interrupted, 0, bytes_wanted(room as nat) as int),
    {
        self.byte_buf.clear();
        if room == 0 {
            ReadAction::Deliver
        } else if room <= SCRATCH_BYTES / 2 {
            ReadAction::Request(2 * room)
        } else {
            ReadAction::Request(SCRATCH_BYTES)
        }
    }

    /// Takes in what became of a request: the bytes that arrived, if any, and the
    /// outcome. Says what to do next.
    pub fn advance(&mut self, room: usize, outcome: ReadOutcome, bytes: &[u8]) -> (a: ReadAction)
        requires
            old(self).collected().len() + bytes@.len() <= bytes_wanted(room as nat),
            match outcome {
                ReadOutcome::Got(n) => bytes@.len() == n,
                _ => bytes@.len() == 0,
            },
        ensures
            final(self).collected() == old(self).collected() + bytes@,
            final(self).from() == old(self).from(),
            final(self).rate() == old(self).rate(),
            final(self).freq() == old(self).freq(),
            a == action_after(
                outcome,
                final(self).collected().len() as int,
                bytes_wanted(room as nat) as int,
            ),
    {
        self.byte_buf.extend_from_slice(bytes);
        assert(self.byte_buf@ =~= old(self).collected() + bytes@);
        let wanted: usize = if room <= SCRATCH_BYTES / 2 {
            2 * room
        } else {
            SCRATCH_BYTES
        };
        match outcome {
            ReadOutcome::Failed => ReadAction::Abort,
            ReadOutcome::Got(0) => ReadAction::Deliver,
            _ => if self.byte_buf.len() < wanted {
                ReadAction::Request(wanted - self.byte_buf.len())
            } else {
                ReadAction::Deliver
            },
        }
    }

    /// Hands out the samples collected, and returns how many. An odd byte at the end
    /// is dropped.
    pub fn deliver(&mut self, out: &mut [Iq]) -> (n: usize)
        requires
            old(self).collected().len() <= bytes_wanted(old(out)@.len()),
        ensures
            n == old(self).collected().len() / 2,
            n <= old(out)@.len(),
            final(out)@ == samples_of(old(self).collected()) + old(out)@.skip(n as int),
            final(self).collected() == Seq::<u8>::empty(),
            final(self).from() == old(self).from(),
            final(self).rate() == old(self).rate(),
            final(self).freq() == old(self).freq(),
    {
        let ghost before = out@;
        let ghost bytes = self.byte_buf@;
        let n: usize = self.byte_buf.len() / 2;
        let mut k: usize = 0;
        while k < n
            invariant
                k <= n,
                n == bytes.len() / 2,
                n <= 2048,
                n <= before.len(),
                out@.len() == before.len(),
                self.byte_buf@ == bytes,
                forall|i: int| 0 <= i < k ==> out@[i] == samples_of(bytes)[i],
                forall|i: int| k <= i < before.len() ==> out@[i] == before[i],
            decreases n - k,
        {
            out[k] = Iq::new(signed_byte(self.byte_buf[2 * k]), signed_byte(self.byte_buf[2 * k + 1]));
            k += 1;
        }
        self.byte_buf.clear();
        assert(out@ =~= samples_of(bytes) + before.skip(n as int));
        n
    }
}

fn signed_byte(b: u8) -> (v: i8)
    ensures
        v == signed(b),
{
    if b < 128 {
        b as i8
    } else {
        (b as i16 - 256) as i8
    }
}

/// Bytes in memory are a reader that never fails.
#[derive(Debug, Clone, Copy, PartialEq, Eq, Structural)]
pub struct NeverFails;

impl<'a> SampleSource for IqFileSource<&'a [u8]> {
    type Error = NeverFails;

    fn sample_rate(&self) -> (r: u32)
        ensures
            r == self.rate(),
    {
        self.sample_rate
    }

    fn center_freq(&self) -> (f: u32)
        ensures
            f == self.freq(),
    {
        self.center_freq
    }

    fn read(&mut self, out: &mut [Iq]) -> (r: Result<usize, NeverFails>)
        ensures
            ({
                let left = old(self).from()@;
                let wanted = bytes_wanted(old(out)@.len()) as int;
                let taken = if wanted <= left.len() {
                    wanted
                } else {
                    left.len() as int
                };
                &&& r == Ok::<usize, NeverFails>((taken / 2) as usize)
                &&& final(out)@ == samples_of(left.take(taken)) + old(out)@.skip(taken / 2)
                &&& final(self).from()@ == left.skip(taken)
            }),
            final(self).rate() == old(self).rate(),
            final(self).freq() == old(self).freq(),
    {
        let ghost left = self.from()@;
        let room: usize = out.len();
        let action = self.begin(room);
        if let ReadAction::Request(want) = action {
            let have: &'a [u8] = self.reader;
            let n: usize = if want <= have.len() {
                want
            } else {
                have.len()
            };
            let (bytes, rest) = have.split_at(n);
            self.reader = rest;
            self.advance(room, ReadOutcome::Got(n), bytes);
        }
        // What could be had is there; asking again would bring nothing.
        assert(self.collected() =~= left.take(self.collected().len() as int));
        Ok(self.deliver(out))
    }
}

// --- Conversion --------------------------------------------------------------

/// A signed sample byte as the unsigned byte that a receiver delivers, which is centred
/// at 128.
pub open spec fn biased(b: u8) -> u8 {
    ((b + 128) % 256) as u8
}

/// Turns signed sample bytes into the unsigned ones that a receiver delivers.
pub fn restore_bias(bytes: &mut [u8])
    ensures
        final(bytes)@ == old(bytes)@.map_values(|b: u8| biased(b)),
{
    let ghost before = bytes@;
    let n: usize = bytes.len();
    let mut i: usize = 0;
    while i < n
        invariant
            i <= n,
            n == bytes@.len(),
            n == before.len(),
            forall|k: int| 0 <= k < i ==> bytes@[k] == biased(before[k]),
            forall|k: int| i <= k < n ==> bytes@[k] == before[k],
        decreases n - i,
    {
        let b: u8 = bytes[i];
        bytes[i] = if b < 128 {
            b + 128
        } else {
            b - 128
        };
        i += 1;
    }
    assert(bytes@ =~= before.map_values(|b: u8| biased(b)));
}

/// Restoring the bias twice changes nothing.
pub proof fn law_bias_is_its_own_inverse(b: u8)
    ensures
        biased(biased(b)) == b,
{
}

/// A sample byte is read as the signed number that it is equal to modulo 256, which is 128
/// less than the byte that a receiver delivers for it.
pub proof fn law_bytes_are_signed(b: u8)
    ensures
        (signed(b) - b) % 256 == 0,
        signed(b) == biased(b) - 128,
{
}

/// Every sample comes from its own two bytes, the first in phase, the second in quadrature,
/// and every whole pair of bytes gives one.
pub proof fn law_pairs_make_samples(bytes: Seq<u8>, k: int)
    requires
        0 <= k,
        2 * k + 1 < bytes.len(),
    ensures
        2 * samples_of(bytes).len() <= bytes.len() <= 2 * samples_of(bytes).len() + 1,
        (samples_of(bytes)[k].i - bytes[2 * k]) % 256 == 0,
        (samples_of(bytes)[k].q - bytes[2 * k + 1]) % 256 == 0,
{
}

/// A read asks for whole samples, for no more than fit into the buffer nor than 4096 bytes,
/// and for as many as both allow.
pub proof fn law_reads_fill_the_buffer(room: nat)
    ensures
        bytes_wanted(room) % 2 == 0,
        bytes_wanted(room) <= 2 * room,
        bytes_wanted(room) <= 4096,
        bytes_wanted(room) == 2 * room || bytes_wanted(room) == 4096,
{
}

/// A read goes on until it has what it wants or the stream ends. An interruption loses
/// nothing, a failure is reported, and what is asked for is always what is missing.
pub proof fn law_reading_goes_on(outcome: ReadOutcome, collected: int, wanted: int)
    requires
        0 <= collected <= wanted <= 4096,
    ensures
        match action_after(outcome, collected, wanted) {
            ReadAction::Request(n) => n > 0 && collected + n == wanted && outcome != ReadOutcome::Failed && outcome
                != ReadOutcome::Got(0),
            ReadAction::Deliver => outcome != ReadOutcome::Failed && (collected == wanted || outcome
                == ReadOutcome::Got(0)),
            ReadAction::Abort => outcome == ReadOutcome::Failed,
        },
{
}

} // verus!

//! Demodulator for 2.4 MS/s.
//!
//! At this rate a Mode S bit is 2.4 samples wide, so bits begin at any fifth of a
//! sample. Bit `k` of a message that begins `t` fifths after a base sample begins
//! `t + 12 * k` fifths after it; the whole samples of that position say where the
//! bit is read, and the remaining fifths which of five correlators reads it.
//!
//! Preambles are matched against five patterns, one per fifth. A preamble that
//! stands out is sliced from five starting fifths, and the candidate whose CRC
//! speaks best for it is kept.

use crate::crc::{self, CrcOutcome, LONG_FRAME_BYTES, SHORT_FRAME_BYTES};
use crate::crc::{check_of, crc24_of};
use crate::demod::{packed, Floor, NoiseFloor};
use crate::frame::{DownlinkFormat, FrameModel, MAX_FRAME_BYTES};
use std::collections::BTreeSet;
use vstd::prelude::*;

verus! {

/// Samples in the preamble at 2.4 MS/s.
pub const PREAMBLE_SAMPLES_2400: usize = 19;

/// Samples that must follow a position for it to be tried: a preamble, one sample
/// of reach, and a short frame.
pub const LOOKAHEAD_SHORT: usize = 155;

/// As [`LOOKAHEAD_SHORT`], for a long frame.
pub const LOOKAHEAD_LONG: usize = 289;

// --- Correlators -------------------------------------------------------------

/// The correlation of the samples at `i` with a bit that begins `phase` fifths
/// after sample `i`. The weights of each correlator add up to zero.
pub open spec fn correlation(phase: int, m: Seq<u16>, i: int) -> int {
    if phase == 0 {
        5 * m[i] - 3 * m[i + 1] - 2 * m[i + 2]
    } else if phase == 1 {
        4 * m[i] - m[i + 1] - 3 * m[i + 2]
    } else if phase == 2 {
        3 * m[i] + m[i + 1] - 4 * m[i + 2]
    } else if phase == 3 {
        2 * m[i] + 3 * m[i + 1] - 5 * m[i + 2]
    } else {
        m[i] + 5 * m[i + 1] - 5 * m[i + 2] - m[i + 3]
    }
}

/// A constant offset of the magnitudes leaves every correlation unchanged.
pub proof fn law_correlation_ignores_offset(phase: int, m: Seq<u16>, n: Seq<u16>, i: int, offset: int)
    requires
        0 <= i,
        i + 3 < m.len(),
        m.len() == n.len(),
        forall|k: int| 0 <= k < m.len() ==> n[k] == m[k] + offset,
    ensures
        correlation(phase, n, i) == correlation(phase, m, i),
{
}

/// The message bits read from five correlators, beginning `t` fifths after `base`.
pub open spec fn message_bits(m: Seq<u16>, base: int, t: int, bits: nat) -> Seq<bool> {
    Seq::new(bits, |k: int| correlation((t + 12 * k) % 5, m, base + (t + 12 * k) / 5) > 0)
}

/// The message bytes that begin `t` fifths after `base`.
pub open spec fn message_bytes(m: Seq<u16>, base: int, t: int, bytes: nat) -> Seq<u8> {
    packed(message_bits(m, base, t, 8 * bytes))
}

fn slice_phase0(m: &[u16], i: usize) -> (r: i32)
    requires
        i + 2 < m@.len(),
    ensures
        r == correlation(0, m@, i as int),
{
    5 * m[i] as i32 - 3 * m[i + 1] as i32 - 2 * m[i + 2] as i32
}

fn slice_phase1(m: &[u16], i: usize) -> (r: i32)
    requires
        i + 2 < m@.len(),
    ensures
        r == correlation(1, m@, i as int),
{
    4 * m[i] as i32 - m[i + 1] as i32 - 3 * m[i + 2] as i32
}

fn slice_phase2(m: &[u16], i: usize) -> (r: i32)
    requires
        i + 2 < m@.len(),
    ensures
        r == correlation(2, m@, i as int),
{
    3 * m[i] as i32 + m[i + 1] as i32 - 4 * m[i + 2] as i32
}

fn slice_phase3(m: &[u16], i: usize) -> (r: i32)
    requires
        i + 2 < m@.len(),
    ensures
        r == correlation(3, m@, i as int),
{
    2 * m[i] as i32 + 3 * m[i + 1] as i32 - 5 * m[i + 2] as i32
}

fn slice_phase4(m: &[u16], i: usize) -> (r: i32)
    requires
        i + 3 < m@.len(),
    ensures
        r == correlation(4, m@, i as int),
{
    m[i] as i32 + 5 * m[i + 1] as i32 - 5 * m[i + 2] as i32 - m[i + 3] as i32
}

/// The last sample that is read of a bit that begins `t` fifths after sample `base`:
/// the correlator for the last fifth reads one more than the others.
pub open spec fn last_read(base: int, t: int) -> int {
    base + t / 5 + if t % 5 == 4 {
        3int
    } else {
        2int
    }
}

/// The bit that begins `t` fifths after sample `base`.
fn slice_at(m: &[u16], base: usize, t: usize) -> (bit: bool)
    requires
        t <= 1400,
        last_read(base as int, t as int) < m.len(),
    ensures
        bit == (correlation(t as int % 5, m@, base + t as int / 5) > 0),
{
    let i: usize = base + t / 5;
    let phase: usize = t % 5;
    let c: i32 = if phase == 0 {
        slice_phase0(m, i)
    } else if phase == 1 {
        slice_phase1(m, i)
    } else if phase == 2 {
        slice_phase2(m, i)
    } else if phase == 3 {
        slice_phase3(m, i)
    } else {
        slice_phase4(m, i)
    };
    c > 0
}

/// Slices `n_bytes` message bytes whose first bit begins `try_phase` fifths after
/// sample `base`. The rest of the buffer is zero.
pub fn slice_message(mag: &[u16], base: usize, try_phase: u32, n_bytes: usize) -> (msg: [u8; MAX_FRAME_BYTES])
    requires
        4 <= try_phase <= 8,
        1 <= n_bytes <= 14,
        last_read(base as int, try_phase + 12 * (8 * n_bytes - 1)) < mag.len(),
    ensures
        msg@.subrange(0, n_bytes as int) == message_bytes(mag@, base as int, try_phase as int, n_bytes as nat),
        forall|i: int| n_bytes <= i < 14 ==> msg@[i] == 0,
{
    let mut msg: [u8; MAX_FRAME_BYTES] = [0; MAX_FRAME_BYTES];
    let ghost bits = message_bits(mag@, base as int, try_phase as int, (8 * n_bytes) as nat);
    let mut i: usize = 0;
    while i < n_bytes
        invariant
            i <= n_bytes <= 14,
            4 <= try_phase <= 8,
            last_read(base as int, try_phase + 12 * (8 * n_bytes - 1)) < mag.len(),
            bits == message_bits(mag@, base as int, try_phase as int, (8 * n_bytes) as nat),
            forall|k: int| 0 <= k < i ==> msg@[k] == packed(bits)[k],
            forall|k: int| i <= k < 14 ==> msg@[k] == 0,
        decreases n_bytes - i,
    {
        let mut octet: [bool; 8] = [false; 8];
        let mut k: usize = 0;
        while k < 8
            invariant
                k <= 8,
                i < n_bytes <= 14,
                4 <= try_phase <= 8,
                last_read(base as int, try_phase + 12 * (8 * n_bytes - 1)) < mag.len(),
                bits == message_bits(mag@, base as int, try_phase as int, (8 * n_bytes) as nat),
                forall|q: int| 0 <= q < k ==> octet@[q] == bits[8 * i + q],
            decreases 8 - k,
        {
            let t: usize = try_phase as usize + 12 * (8 * i + k);
            octet[k] = slice_at(mag, base, t);
            k += 1;
        }
        let mut byte: [u8; 1] = [0; 1];
        crate::demod::pack_bits_msb(&octet, &mut byte);
        assert(packed(octet@)[0] == packed(bits)[i as int]);
        msg[i] = byte[0];
        i += 1;
    }
    assert(msg@.subrange(0, n_bytes as int) =~= packed(bits));
    msg
}

// --- Preamble patterns -------------------------------------------------------

/// A matched preamble: which pattern, and how far it stands out.
#[derive(Debug, Clone, Copy, PartialEq, Eq, Structural)]
pub struct PreambleHit {
    /// The pattern, `3..=7`.
    pub try_phase: u32,
    /// Level that the quiet samples must stay below.
    pub high: u32,
    /// Sum of pulse samples.
    pub base_signal: u32,
    /// Sum of as many quiet samples.
    pub base_noise: u32,
}

/// Sample `i` rises to sample `i + 1`.
pub open spec fn rises(p: Seq<u16>, i: int) -> bool {
    p[i] < p[i + 1]
}

/// Sample `i` falls to sample `i + 1`.
pub open spec fn falls(p: Seq<u16>, i: int) -> bool {
    p[i] > p[i + 1]
}

/// Whether 19 samples have the shape of a preamble whose pulses begin in the
/// fifth of a sample that the pattern number stands for.
pub open spec fn matches_pattern(p: Seq<u16>, pattern: int) -> bool {
    &&& rises(p, 0) && falls(p, 12)
    &&& if pattern == 3 {
        // Peaks at 1, 3, 9 and 11 to 12.
        falls(p, 1) && rises(p, 2) && falls(p, 3) && rises(p, 8) && falls(p, 9) && rises(p, 10)
    } else if pattern == 4 {
        // Peaks at 1, 3, 9 and 12.
        falls(p, 1) && rises(p, 2) && falls(p, 3) && rises(p, 8) && falls(p, 9) && rises(p, 11)
    } else if pattern == 5 {
        // Peaks at 1, 3 to 4, 9 to 10 and 12.
        falls(p, 1) && rises(p, 2) && falls(p, 4) && rises(p, 8) && falls(p, 10) && rises(p, 11)
    } else if pattern == 6 {
        // Peaks at 1, 4, 10 and 12.
        falls(p, 1) && rises(p, 3) && falls(p, 4) && rises(p, 9) && falls(p, 10) && rises(p, 11)
    } else {
        // Peaks at 1 to 2, 4, 10 and 12.
        falls(p, 2) && rises(p, 3) && falls(p, 4) && rises(p, 9) && falls(p, 10) && rises(p, 11)
    }
}

/// The levels of a preamble matched by a pattern.
pub open spec fn pattern_hit(p: Seq<u16>, pattern: int) -> PreambleHit {
    if pattern == 3 {
        PreambleHit {
            try_phase: 3,
            high: ((p[1] + p[3] + p[9] + p[11] + p[12]) / 4) as u32,
            base_signal: (p[1] + p[3] + p[9]) as u32,
            base_noise: (p[5] + p[6] + p[7]) as u32,
        }
    } else if pattern == 4 {
        PreambleHit {
            try_phase: 4,
            high: ((p[1] + p[3] + p[9] + p[12]) / 4) as u32,
            base_signal: (p[1] + p[3] + p[9] + p[12]) as u32,
            base_noise: (p[5] + p[6] + p[7] + p[8]) as u32,
        }
    } else if pattern == 5 {
        PreambleHit {
            try_phase: 5,
            high: ((p[1] + p[3] + p[4] + p[9] + p[10] + p[12]) / 4) as u32,
            base_signal: (p[1] + p[12]) as u32,
            base_noise: (p[6] + p[7]) as u32,
        }
    } else if pattern == 6 {
        PreambleHit {
            try_phase: 6,
            high: ((p[1] + p[4] + p[10] + p[12]) / 4) as u32,
            base_signal: (p[1] + p[4] + p[10] + p[12]) as u32,
            base_noise: (p[5] + p[6] + p[7] + p[8]) as u32,
        }
    } else {
        PreambleHit {
            try_phase: 7,
            high: ((p[1] + p[2] + p[4] + p[10] + p[12]) / 4) as u32,
            base_signal: (p[4] + p[10] + p[12]) as u32,
            base_noise: (p[6] + p[7] + p[8]) as u32,
        }
    }
}

/// The first pattern that 19 samples match, if any does.
pub open spec fn preamble_hit(p: Seq<u16>) -> Option<PreambleHit> {
    if matches_pattern(p, 3) {
        Some(pattern_hit(p, 3))
    } else if matches_pattern(p, 4) {
        Some(pattern_hit(p, 4))
    } else if matches_pattern(p, 5) {
        Some(pattern_hit(p, 5))
    } else if matches_pattern(p, 6) {
        Some(pattern_hit(p, 6))
    } else if matches_pattern(p, 7) {
        Some(pattern_hit(p, 7))
    } else {
        None
    }
}

/// Matches the five preamble patterns against the samples from `preamble[0]` on.
pub fn detect_preamble(p: &[u16]) -> (hit: Option<PreambleHit>)
    requires
        p@.len() >= PREAMBLE_SAMPLES_2400,
    ensures
        hit == preamble_hit(p@),
        hit is Some ==> hit->0.high <= 98302 && hit->0.base_signal <= 262140 && hit->0.base_noise <= 262140,
{
    if !(p[0] < p[1] && p[12] > p[13]) {
        return None;
    }
    if p[1] > p[2] && p[2] < p[3] && p[3] > p[4] && p[8] < p[9] && p[9] > p[10] && p[10] < p[11] {
        let high: u32 = (p[1] as u32 + p[3] as u32 + p[9] as u32 + p[11] as u32 + p[12] as u32) / 4;
        let base_signal: u32 = p[1] as u32 + p[3] as u32 + p[9] as u32;
        let base_noise: u32 = p[5] as u32 + p[6] as u32 + p[7] as u32;
        return Some(PreambleHit { try_phase: 3, high, base_signal, base_noise });
    }
    if p[1] > p[2] && p[2] < p[3] && p[3] > p[4] && p[8] < p[9] && p[9] > p[10] && p[11] < p[12] {
        let base_signal: u32 = p[1] as u32 + p[3] as u32 + p[9] as u32 + p[12] as u32;
        let base_noise: u32 = p[5] as u32 + p[6] as u32 + p[7] as u32 + p[8] as u32;
        return Some(PreambleHit { try_phase: 4, high: base_signal / 4, base_signal, base_noise });
    }
    if p[1] > p[2] && p[2] < p[3] && p[4] > p[5] && p[8] < p[9] && p[10] > p[11] && p[11] < p[12] {
        let high: u32 = (p[1] as u32 + p[3] as u32 + p[4] as u32 + p[9] as u32 + p[10] as u32
            + p[12] as u32) / 4;
        let base_signal: u32 = p[1] as u32 + p[12] as u32;
        let base_noise: u32 = p[6] as u32 + p[7] as u32;
        return Some(PreambleHit { try_phase: 5, high, base_signal, base_noise });
    }
    if p[1] > p[2] && p[3] < p[4] && p[4] > p[5] && p[9] < p[10] && p[10] > p[11] && p[11] < p[12] {
        let base_signal: u32 = p[1] as u32 + p[4] as u32 + p[10] as u32 + p[12] as u32;
        let base_noise: u32 = p[5] as u32 + p[6] as u32 + p[7] as u32 + p[8] as u32;
        return Some(PreambleHit { try_phase: 6, high: base_signal / 4, base_signal, base_noise });
    }
    if p[2] > p[3] && p[3] < p[4] && p[4] > p[5] && p[9] < p[10] && p[10] > p[11] && p[11] < p[12] {
        let high: u32 = (p[1] as u32 + p[2] as u32 + p[4] as u32 + p[10] as u32 + p[12] as u32) / 4;
        let base_signal: u32 = p[4] as u32 + p[10] as u32 + p[12] as u32;
        let base_noise: u32 = p[6] as u32 + p[7] as u32 + p[8] as u32;
        return Some(PreambleHit { try_phase: 7, high, base_signal, base_noise });
    }
    None
}

/// A matched preamble stands out: its signal is at least 1.5 times its noise, and
/// every quiet sample stays below its level.
pub open spec fn stands_out(p: Seq<u16>, hit: PreambleHit) -> bool {
    &&& 2 * hit.base_signal >= 3 * hit.base_noise
    &&& forall|i: int| 5 <= i <= 8 || 14 <= i <= 18 ==> #[trigger] p[i] < hit.high
}

fn preamble_stands_out(p: &[u16], hit: &PreambleHit) -> (yes: bool)
    requires
        p@.len() >= PREAMBLE_SAMPLES_2400,
        hit.base_signal <= 262140,
        hit.base_noise <= 262140,
    ensures
        yes == stands_out(p@, *hit),
{
    if hit.base_signal * 2 < 3 * hit.base_noise {
        return false;
    }
    let high: u32 = hit.high;
    let quiet_violated: bool = p[5] as u32 >= high || p[6] as u32 >= high || p[7] as u32 >= high
        || p[8] as u32 >= high || p[14] as u32 >= high || p[15] as u32 >= high || p[16] as u32 >= high
        || p[17] as u32 >= high || p[18] as u32 >= high;
    !quiet_violated
}

// --- Known addresses ---------------------------------------------------------

/// The CRCs of the addresses heard in this session.
#[derive(Debug)]
pub struct IcaoFilter {
    seen: BTreeSet<u32>,
}

impl View for IcaoFilter {
    type V = Set<u32>;

    closed spec fn view(&self) -> Set<u32> {
        self.seen@
    }
}

impl Default for IcaoFilter {
    fn default() -> (f: IcaoFilter)
        ensures
            f@ == Set::<u32>::empty(),
    {
        IcaoFilter { seen: BTreeSet::new() }
    }
}

impl IcaoFilter {
    /// Marks `addr` as seen; its low 24 bits count.
    pub fn add(&mut self, addr: u32)
        ensures
            final(self)@ == old(self)@.insert(addr % 0x0100_0000),
    {
        broadcast use vstd::std_specs::btree::group_btree_axioms;
        self.seen.insert(addr % 0x0100_0000);
    }

    /// Whether `addr` has been seen.
    #[must_use]
    pub fn contains(&self, addr: u32) -> (yes: bool)
        ensures
            yes == self@.contains(addr % 0x0100_0000),
    {
        broadcast use vstd::std_specs::btree::group_btree_axioms;
        self.seen.contains(&(addr % 0x0100_0000))
    }
}

// --- Candidates --------------------------------------------------------------

/// Samples that a frame and its preamble take.
pub open spec fn advance_of(df: DownlinkFormat) -> int {
    PREAMBLE_SAMPLES_2400 + df.length() * 96 / 5
}

/// A frame read from one starting fifth, with what speaks for it.
pub struct Candidate {
    pub frame: FrameModel,
    pub score: int,
}

/// How much the CRC speaks for a frame: an intact frame counts most, then a
/// repaired one, then one whose syndrome belongs to a known address. Any other
/// counts nothing. The preamble level decides between equals.
pub open spec fn score_of(known: Set<u32>, high: int, df: DownlinkFormat, crc: CrcOutcome, bytes: Seq<u8>) -> int {
    match crc {
        CrcOutcome::Clean => 1_000_000 + high,
        CrcOutcome::Corrected { .. } => 500_000 + high,
        CrcOutcome::Failed => if !df.clean_crc() && known.contains(crc24_of(bytes)) {
            250_000 + high
        } else {
            0
        },
    }
}

/// The outcome of a frame's CRC, where its format has a clean one, and the frame
/// as repaired.
pub open spec fn validated(df: DownlinkFormat, raw: Seq<u8>) -> (CrcOutcome, Seq<u8>) {
    if df.clean_crc() {
        check_of(raw)
    } else {
        (CrcOutcome::Failed, raw)
    }
}

/// The candidate that begins `t` fifths after the preamble at `j`. There is none
/// if the samples end too soon, the format is reserved, or nothing speaks for it.
pub open spec fn candidate(known: Set<u32>, m: Seq<u16>, j: int, high: int, t: int) -> Option<Candidate> {
    let base = j + PREAMBLE_SAMPLES_2400;
    let df = DownlinkFormat::of_code(message_bytes(m, base, t, 1)[0] / 8);
    let raw = message_bytes(m, base, t, df.length());
    let (crc, bytes) = validated(df, raw);
    let score = score_of(known, high, df, crc, bytes);
    if base + t / 5 + SHORT_FRAME_BYTES * 19 + 4 > m.len() {
        None
    } else if df is Reserved {
        None
    } else if df.is_long() && base + t / 5 + LONG_FRAME_BYTES * 20 + 4 > m.len() {
        None
    } else if score == 0 {
        None
    } else {
        Some(
            Candidate {
                frame: FrameModel { bytes, df, crc, confidence: confidence_of_level(high) },
                score,
            },
        )
    }
}

/// The confidence that a preamble level stands for: an eighth of it, at most 255.
pub open spec fn confidence_of_level(high: int) -> u8 {
    if high >= 2040 {
        255
    } else {
        (high / 8) as u8
    }
}

/// The best candidate among the starting fifths `4..=t`; the earliest of equals.
pub open spec fn best_candidate(known: Set<u32>, m: Seq<u16>, j: int, high: int, t: int) -> Option<Candidate>
    decreases t,
{
    if t < 4 {
        None
    } else {
        let earlier = best_candidate(known, m, j, high, t - 1);
        let here = candidate(known, m, j, high, t);
        if here is Some && (earlier is None || here->0.score > earlier->0.score) {
            here
        } else {
            earlier
        }
    }
}

/// The frame at `j`, if a preamble stands out there and some candidate has enough
/// confidence.
#[verifier::opaque]
pub open spec fn frame_at(known: Set<u32>, min_confidence: u8, m: Seq<u16>, j: int) -> Option<FrameModel> {
    let p = m.subrange(j, j + PREAMBLE_SAMPLES_2400);
    match preamble_hit(p) {
        Some(hit) => if stands_out(p, hit) {
            match best_candidate(known, m, j, hit.high as int, 8) {
                Some(best) => if best.frame.confidence >= min_confidence {
                    Some(best.frame)
                } else {
                    None
                },
                None => None,
            }
        } else {
            None
        },
        None => None,
    }
}

/// The known addresses after a frame: one whose CRC holds announces its sender.
pub open spec fn known_after(known: Set<u32>, frame: FrameModel) -> Set<u32> {
    if frame.crc != CrcOutcome::Failed && frame.df.clean_crc() {
        known.insert(crc24_of(frame.bytes.subrange(1, 4)))
    } else {
        known
    }
}

/// What a scan leaves behind.
pub struct Scan2400 {
    pub frames: Seq<FrameModel>,
    pub floor: Floor,
    pub known: Set<u32>,
    /// Where the last frame ended.
    pub consumed: int,
}

/// The scan of the magnitudes from `j` on, the last frame before having ended at
/// `consumed`.
pub open spec fn scan_2400(
    known: Set<u32>,
    min_confidence: u8,
    floor: Floor,
    m: Seq<u16>,
    j: int,
    consumed: int,
) -> Scan2400
    decreases (if j < m.len() { m.len() - j } else { 0 }),
{
    if j < 0 || j + LOOKAHEAD_SHORT > m.len() {
        Scan2400 { frames: Seq::empty(), floor, known, consumed }
    } else {
        let next = floor.next(m[j] as int);
        match frame_at(known, min_confidence, m, j) {
            Some(frame) => {
                let end = j + advance_of(frame.df);
                let rest = scan_2400(known_after(known, frame), min_confidence, next, m, end, end);
                Scan2400 { frames: seq![frame] + rest.frames, ..rest }
            },
            None => scan_2400(known, min_confidence, next, m, j + 1, consumed),
        }
    }
}

proof fn lemma_best_candidate(known: Set<u32>, m: Seq<u16>, j: int, high: int, t: int)
    requires
        t <= 8,
        best_candidate(known, m, j, high, t) is Some,
    ensures
        ({
            let f = best_candidate(known, m, j, high, t)->0.frame;
            &&& f.crc != CrcOutcome::Failed ==> f.df.clean_crc() && crc24_of(f.bytes) == 0
            &&& f.crc == CrcOutcome::Failed ==> !f.df.clean_crc() && known.contains(crc24_of(f.bytes))
            &&& !(f.df is Reserved)
            &&& f.bytes.len() == f.df.length()
        }),
    decreases t,
{
    let earlier = best_candidate(known, m, j, high, t - 1);
    let here = candidate(known, m, j, high, t);
    if t >= 4 && here is Some && (earlier is None || here->0.score > earlier->0.score) {
        let base = j + PREAMBLE_SAMPLES_2400;
        let df = DownlinkFormat::of_code(message_bytes(m, base, t, 1)[0] / 8);
        let raw = message_bytes(m, base, t, df.length());
        assert(raw.len() == df.length());
    } else {
        lemma_best_candidate(known, m, j, high, t - 1);
    }
}

proof fn lemma_candidate_fits(known: Set<u32>, m: Seq<u16>, j: int, high: int, t: int)
    requires
        t <= 8,
        best_candidate(known, m, j, high, t) is Some,
    ensures
        j + advance_of(best_candidate(known, m, j, high, t)->0.frame.df) <= m.len(),
    decreases t,
{
    let earlier = best_candidate(known, m, j, high, t - 1);
    let here = candidate(known, m, j, high, t);
    if !(t >= 4 && here is Some && (earlier is None || here->0.score > earlier->0.score)) {
        lemma_candidate_fits(known, m, j, high, t - 1);
    }
}

/// A scan ends its last frame within the magnitudes.
pub proof fn lemma_scan_2400_stop(
    known: Set<u32>,
    min_confidence: u8,
    floor: Floor,
    m: Seq<u16>,
    j: int,
    consumed: int,
)
    requires
        0 <= consumed <= j,
        consumed <= m.len(),
    ensures
        consumed <= scan_2400(known, min_confidence, floor, m, j, consumed).consumed <= m.len(),
    decreases (if j < m.len() { m.len() - j } else { 0 }),
{
    if j + LOOKAHEAD_SHORT <= m.len() {
        let next = floor.next(m[j] as int);
        match frame_at(known, min_confidence, m, j) {
            Some(frame) => {
                let end = j + advance_of(frame.df);
                assert(end <= m.len()) by {
                    reveal(frame_at);
                    let p = m.subrange(j, j + PREAMBLE_SAMPLES_2400);
                    lemma_candidate_fits(known, m, j, preamble_hit(p)->0.high as int, 8);
                }
                lemma_scan_2400_stop(known_after(known, frame), min_confidence, next, m, end, end);
            },
            None => lemma_scan_2400_stop(known, min_confidence, next, m, j + 1, consumed),
        }
    }
}

/// Nothing is passed on that the CRC does not speak for: every frame has enough
/// confidence and is intact or repaired, or else its syndrome is that of an
/// address announced by a valid frame.
pub proof fn law_scan_2400_is_validated(
    known: Set<u32>,
    min_confidence: u8,
    floor: Floor,
    m: Seq<u16>,
    j: int,
    consumed: int,
    i: int,
)
    requires
        0 <= i < scan_2400(known, min_confidence, floor, m, j, consumed).frames.len(),
    ensures
        ({
            let s = scan_2400(known, min_confidence, floor, m, j, consumed);
            let f = s.frames[i];
            &&& f.confidence >= min_confidence
            &&& f.bytes.len() == f.df.length()
            &&& f.crc != CrcOutcome::Failed ==> f.df.clean_crc() && crc24_of(f.bytes) == 0
            &&& f.crc == CrcOutcome::Failed ==> !f.df.clean_crc() && s.known.contains(crc24_of(f.bytes))
            &&& !(f.df is Reserved)
        }),
    decreases (if j < m.len() { m.len() - j } else { 0 }),
{
    let next = floor.next(m[j] as int);
    match frame_at(known, min_confidence, m, j) {
        Some(frame) => {
            let end = j + advance_of(frame.df);
            let rest = scan_2400(known_after(known, frame), min_confidence, next, m, end, end);
            lemma_known_grows(known_after(known, frame), min_confidence, next, m, end, end);
            if i > 0 {
                law_scan_2400_is_validated(known_after(known, frame), min_confidence, next, m, end, end, i - 1);
                assert((seq![frame] + rest.frames)[i] == rest.frames[i - 1]);
            } else {
                reveal(frame_at);
                let p = m.subrange(j, j + PREAMBLE_SAMPLES_2400);
                lemma_best_candidate(known, m, j, preamble_hit(p)->0.high as int, 8);
            }
        },
        None => {
            law_scan_2400_is_validated(known, min_confidence, next, m, j + 1, consumed, i);
        },
    }
}

/// A known address stays known.
pub proof fn lemma_known_grows(
    known: Set<u32>,
    min_confidence: u8,
    floor: Floor,
    m: Seq<u16>,
    j: int,
    consumed: int,
)
    ensures
        known.subset_of(scan_2400(known, min_confidence, floor, m, j, consumed).known),
    decreases (if j < m.len() { m.len() - j } else { 0 }),
{
    if 0 <= j && j + LOOKAHEAD_SHORT <= m.len() {
        let next = floor.next(m[j] as int);
        match frame_at(known, min_confidence, m, j) {
            Some(frame) => {
                let end = j + advance_of(frame.df);
                lemma_known_grows(known_after(known, frame), min_confidence, next, m, end, end);
            },
            None => {
                lemma_known_grows(known, min_confidence, next, m, j + 1, consumed);
            },
        }
    }
}

// --- Laws of the preamble and of ranking -------------------------------------

/// The samples from `a` to `b` are a peak: it rises into the first and falls behind the
/// last of them.
pub open spec fn peak(p: Seq<u16>, a: int, b: int) -> bool {
    p[a - 1] < p[a] && p[b + 1] < p[b]
}

/// A preamble is four peaks in the places where the pulses fall that begin in one of five
/// fifths of a sample. Its level is a quarter of the sum of the peaks. It stands out if the
/// peaks that fall into one sample are together at least one and a half times as high as so
/// many of the quiet samples between the second pair of pulses, and all quiet samples stay
/// below the level.
pub proof fn law_preamble_has_four_peaks(p: Seq<u16>)
    requires
        p.len() == 19,
    ensures
        match preamble_hit(p) {
            Some(hit) => {
                &&& peak_sum(p, hit.try_phase as int) - 4 < 4 * hit.high <= peak_sum(p, hit.try_phase as int)
                &&& if hit.try_phase == 3 {
                    &&& peak(p, 1, 1) && peak(p, 3, 3) && peak(p, 9, 9) && peak(p, 11, 12)
                    &&& hit.base_signal == p[1] + p[3] + p[9]
                    &&& hit.base_noise == p[5] + p[6] + p[7]
                } else if hit.try_phase == 4 {
                    &&& peak(p, 1, 1) && peak(p, 3, 3) && peak(p, 9, 9) && peak(p, 12, 12)
                    &&& hit.base_signal == p[1] + p[3] + p[9] + p[12]
                    &&& hit.base_noise == p[5] + p[6] + p[7] + p[8]
                } else if hit.try_phase == 5 {
                    &&& peak(p, 1, 1) && peak(p, 3, 4) && peak(p, 9, 10) && peak(p, 12, 12)
                    &&& hit.base_signal == p[1] + p[12]
                    &&& hit.base_noise == p[6] + p[7]
                } else if hit.try_phase == 6 {
                    &&& peak(p, 1, 1) && peak(p, 4, 4) && peak(p, 10, 10) && peak(p, 12, 12)
                    &&& hit.base_signal == p[1] + p[4] + p[10] + p[12]
                    &&& hit.base_noise == p[5] + p[6] + p[7] + p[8]
                } else {
                    &&& hit.try_phase == 7
                    &&& peak(p, 1, 2) && peak(p, 4, 4) && peak(p, 10, 10) && peak(p, 12, 12)
                    &&& hit.base_signal == p[4] + p[10] + p[12]
                    &&& hit.base_noise == p[6] + p[7] + p[8]
                }
                &&& stands_out(p, hit) <==> {
                    &&& 2 * hit.base_signal >= 3 * hit.base_noise
                    &&& p[5] < hit.high && p[6] < hit.high && p[7] < hit.high && p[8] < hit.high
                    &&& p[14] < hit.high && p[15] < hit.high && p[16] < hit.high && p[17] < hit.high && p[18]
                        < hit.high
                }
            },
            None => {
                &&& !(peak(p, 1, 1) && peak(p, 3, 3) && peak(p, 9, 9) && peak(p, 11, 12))
                &&& !(peak(p, 1, 1) && peak(p, 3, 3) && peak(p, 9, 9) && peak(p, 12, 12))
                &&& !(peak(p, 1, 1) && peak(p, 3, 4) && peak(p, 9, 10) && peak(p, 12, 12))
                &&& !(peak(p, 1, 1) && peak(p, 4, 4) && peak(p, 10, 10) && peak(p, 12, 12))
                &&& !(peak(p, 1, 2) && peak(p, 4, 4) && peak(p, 10, 10) && peak(p, 12, 12))
            },
        },
{
}

/// The sum of the samples in the four peaks of a pattern.
pub open spec fn peak_sum(p: Seq<u16>, pattern: int) -> int {
    if pattern == 3 {
        p[1] + p[3] + p[9] + p[11] + p[12]
    } else if pattern == 4 {
        p[1] + p[3] + p[9] + p[12]
    } else if pattern == 5 {
        p[1] + p[3] + p[4] + p[9] + p[10] + p[12]
    } else if pattern == 6 {
        p[1] + p[4] + p[10] + p[12]
    } else {
        p[1] + p[2] + p[4] + p[10] + p[12]
    }
}

/// An intact frame outranks a repaired one, that one a frame of a known address, and that
/// one anything else, which counts nothing.
pub proof fn law_ranks_of_frames(
    known: Set<u32>,
    high: int,
    df: DownlinkFormat,
    other: DownlinkFormat,
    bit: u16,
    a: Seq<u8>,
    b: Seq<u8>,
    c: Seq<u8>,
)
    requires
        0 <= high <= 131_072,
        !df.clean_crc(),
        known.contains(crc24_of(c)),
    ensures
        score_of(known, high, other, CrcOutcome::Clean, a) > score_of(
            known,
            high,
            other,
            CrcOutcome::Corrected { bit },
            b,
        ),
        score_of(known, high, other, CrcOutcome::Corrected { bit }, b) > score_of(
            known,
            high,
            df,
            CrcOutcome::Failed,
            c,
        ),
        score_of(known, high, df, CrcOutcome::Failed, c) > 0,
        !known.contains(crc24_of(b)) ==> score_of(known, high, df, CrcOutcome::Failed, b) == 0,
        other.clean_crc() ==> score_of(known, high, other, CrcOutcome::Failed, c) == 0,
{
}

/// The best candidate is one of those that the starting fifths give, none ranks above it,
/// and those that begin earlier rank below. There is none only if no fifth gives one.
pub proof fn law_best_candidate_ranks_highest(known: Set<u32>, m: Seq<u16>, j: int, high: int, t: int)
    requires
        t <= 8,
    ensures
        match best_candidate(known, m, j, high, t) {
            Some(best) => exists|u: int|
                {
                    &&& 4 <= u <= t
                    &&& #[trigger] candidate(known, m, j, high, u) == Some(best)
                    &&& forall|w: int|
                        4 <= w <= t && #[trigger] candidate(known, m, j, high, w) is Some ==> {
                            &&& candidate(known, m, j, high, w)->0.score <= best.score
                            &&& w < u ==> candidate(known, m, j, high, w)->0.score < best.score
                        }
                },
            None => forall|w: int| 4 <= w <= t ==> #[trigger] candidate(known, m, j, high, w) is None,
        },
{
    let c = |u: int| candidate(known, m, j, high, u);
    let best = |u: int| best_candidate(known, m, j, high, u);
    assert forall|u: int| best(u) == better(u, best(u - 1), #[trigger] c(u)) by {
    }
    lemma_highest(c, best, t);
    match best_candidate(known, m, j, high, t) {
        Some(b) => {
            assert(best(t) == Some(b));
            let u = choose|u: int| is_highest(c, t, b, u);
            assert(is_highest(c, t, b, u));
            assert(candidate(known, m, j, high, u) == c(u));
            assert forall|w: int| 4 <= w <= t && #[trigger] candidate(known, m, j, high, w) is Some implies {
                &&& candidate(known, m, j, high, w)->0.score <= b.score
                &&& w < u ==> candidate(known, m, j, high, w)->0.score < b.score
            } by {
                assert(c(w) == candidate(known, m, j, high, w));
            }
        },
        None => {
            assert(best(t) is None);
            assert forall|w: int| 4 <= w <= t implies #[trigger] candidate(known, m, j, high, w) is None by {
                assert(c(w) is None);
            }
        },
    }
}

/// The better of two candidates, the earlier of equals.
spec fn better(u: int, earlier: Option<Candidate>, here: Option<Candidate>) -> Option<Candidate> {
    if u < 4 {
        None
    } else if here is Some && (earlier is None || here->0.score > earlier->0.score) {
        here
    } else {
        earlier
    }
}

spec fn is_highest(c: spec_fn(int) -> Option<Candidate>, t: int, b: Candidate, u: int) -> bool {
    &&& 4 <= u <= t
    &&& c(u) == Some(b)
    &&& forall|w: int|
        4 <= w <= t && #[trigger] c(w) is Some ==> {
            &&& c(w)->0.score <= b.score
            &&& w < u ==> c(w)->0.score < b.score
        }
}

proof fn lemma_highest(c: spec_fn(int) -> Option<Candidate>, best: spec_fn(int) -> Option<Candidate>, t: int)
    requires
        forall|u: int| best(u) == better(u, best(u - 1), #[trigger] c(u)),
    ensures
        match best(t) {
            Some(b) => exists|u: int| is_highest(c, t, b, u),
            None => forall|w: int| 4 <= w <= t ==> #[trigger] c(w) is None,
        },
    decreases t,
{
    assert(best(t) == better(t, best(t - 1), c(t)));
    if t >= 4 {
        lemma_highest(c, best, t - 1);
        match best(t - 1) {
            Some(b) => {
                let before = t - 1;
                let u = choose|u: int| is_highest(c, before, b, u);
                assert(is_highest(c, before, b, u));
                if c(t) is Some && c(t)->0.score > b.score {
                    assert(is_highest(c, t, c(t)->0, t));
                } else {
                    assert(is_highest(c, t, b, u));
                }
            },
            None => {
                if c(t) is Some {
                    assert(is_highest(c, t, c(t)->0, t));
                }
            },
        }
    }
}

/// Where there is no frame the scan moves on by one sample, and the noise floor takes that
/// sample in.
pub proof fn law_scan_2400_moves_on(
    known: Set<u32>,
    min_confidence: u8,
    floor: Floor,
    m: Seq<u16>,
    j: int,
    consumed: int,
)
    requires
        0 <= j,
        j + 155 <= m.len(),
        frame_at(known, min_confidence, m, j) is None,
    ensures
        scan_2400(known, min_confidence, floor, m, j, consumed) == scan_2400(
            known,
            min_confidence,
            floor.next(m[j] as int),
            m,
            j + 1,
            consumed,
        ),
{
}

/// The sender of every frame that is passed on with a valid CRC is known afterwards.
pub proof fn law_senders_become_known(
    known: Set<u32>,
    min_confidence: u8,
    floor: Floor,
    m: Seq<u16>,
    j: int,
    consumed: int,
    i: int,
)
    requires
        0 <= i < scan_2400(known, min_confidence, floor, m, j, consumed).frames.len(),
    ensures
        ({
            let s = scan_2400(known, min_confidence, floor, m, j, consumed);
            let b = s.frames[i].bytes;
            s.frames[i].crc != CrcOutcome::Failed ==> s.known.contains(crc24_of(seq![b[1], b[2], b[3]]))
        }),
    decreases (if j < m.len() { m.len() - j } else { 0 }),
{
    law_scan_2400_is_validated(known, min_confidence, floor, m, j, consumed, i);
    let next = floor.next(m[j] as int);
    match frame_at(known, min_confidence, m, j) {
        Some(frame) => {
            let end = j + advance_of(frame.df);
            let rest = scan_2400(known_after(known, frame), min_confidence, next, m, end, end);
            if i > 0 {
                law_senders_become_known(known_after(known, frame), min_confidence, next, m, end, end, i - 1);
                assert((seq![frame] + rest.frames)[i] == rest.frames[i - 1]);
            } else {
                lemma_known_grows(known_after(known, frame), min_confidence, next, m, end, end);
                let b = frame.bytes;
                assert(b.subrange(1, 4) =~= seq![b[1], b[2], b[3]]);
            }
        },
        None => law_senders_become_known(known, min_confidence, next, m, j + 1, consumed, i),
    }
}

// --- Nothing is missed -------------------------------------------------------

/// The code of the downlink format that is read when slicing starts `t` fifths after
/// `base`.
pub open spec fn code_read(m: Seq<u16>, base: int, t: int) -> u8 {
    message_bytes(m, base, t, 1)[0] / 8
}

/// The message that is read when slicing starts `t` fifths after `base`: 14 bytes if the
/// code is 16 or above, 7 if not.
pub open spec fn message_read(m: Seq<u16>, base: int, t: int) -> Seq<u8> {
    message_bytes(
        m,
        base,
        t,
        if code_read(m, base, t) >= 16 {
            14
        } else {
            7
        },
    )
}

/// The code is one of those whose CRC is clean.
pub open spec fn is_clean_code(code: u8) -> bool {
    code == 11 || code == 17 || code == 18
}

/// The code is one of those whose CRC is combined with an address.
pub open spec fn is_overlaid_code(code: u8) -> bool {
    code == 0 || code == 4 || code == 5 || code == 16 || code == 20 || code == 21
}

/// An intact message is read when slicing starts `t` fifths after `base`.
pub open spec fn reads_intact(m: Seq<u16>, base: int, t: int) -> bool {
    is_clean_code(code_read(m, base, t)) && crc24_of(message_read(m, base, t)) == 0
}

/// Something speaks for the message that is read when slicing starts `t` fifths after
/// `base`: it is intact, or one bit away from that, or it belongs to a known address.
pub open spec fn reads_credible(known: Set<u32>, m: Seq<u16>, base: int, t: int) -> bool {
    let msg = message_read(m, base, t);
    let code = code_read(m, base, t);
    ||| reads_intact(m, base, t)
    ||| is_clean_code(code) && exists|bit: int|
        0 <= bit < 8 * msg.len() && #[trigger] crc24_of(crc::flip_bit(msg, bit)) == 0
    ||| is_overlaid_code(code) && known.contains(crc24_of(msg))
}

/// A preamble stands out at `j`.
#[verifier::opaque]
pub open spec fn preamble_at(m: Seq<u16>, j: int) -> bool {
    let p = m.subrange(j, j + 19);
    &&& 0 <= j
    &&& preamble_hit(p) is Some
    &&& stands_out(p, preamble_hit(p)->0)
}

/// The level of the preamble at `j`.
#[verifier::opaque]
pub open spec fn level_at(m: Seq<u16>, j: int) -> nat {
    preamble_hit(m.subrange(j, j + 19))->0.high as nat
}

/// The confidence of a frame behind a preamble of a level: an eighth of it, or 255.
pub open spec fn confidence_for(level: nat) -> u8 {
    if level / 8 >= 255 {
        255
    } else {
        (level / 8) as u8
    }
}

/// The scan at `j` passes on a frame first, and goes on behind it: 153 samples later if
/// it is short, 287 if it is long.
#[verifier::opaque]
pub open spec fn passes_on(
    known: Set<u32>,
    min_confidence: u8,
    floor: Floor,
    m: Seq<u16>,
    j: int,
    consumed: int,
    frame: FrameModel,
    known_later: Set<u32>,
) -> bool {
    let end = j + if frame.bytes.len() == 14 {
        287int
    } else {
        153int
    };
    let s = scan_2400(known, min_confidence, floor, m, j, consumed);
    let rest = scan_2400(known_later, min_confidence, floor.next(m[j] as int), m, end, end);
    &&& s.frames == seq![frame] + rest.frames
    &&& s.floor == rest.floor
    &&& s.known == rest.known
    &&& s.consumed == rest.consumed
}

proof fn lemma_code_read(m: Seq<u16>, base: int, t: int, n: nat)
    requires
        n >= 1,
    ensures
        message_bytes(m, base, t, n).len() == n,
        message_bytes(m, base, t, n)[0] == message_bytes(m, base, t, 1)[0],
{
    let a = message_bits(m, base, t, 8 * n);
    let b = message_bits(m, base, t, 8);
    assert(forall|k: int| 0 <= k < 8 ==> a[k] == b[k]);
    assert(crate::demod::byte_at(a, 0) == crate::demod::byte_at(b, 0));
}

/// The frame of the best candidate.
#[verifier::opaque]
spec fn is_best(known: Set<u32>, m: Seq<u16>, j: int, high: int, f: FrameModel) -> bool {
    let best = best_candidate(known, m, j, high, 8);
    best is Some && best->0.frame == f
}

/// A candidate that outranks every other is the best.
proof fn lemma_outranks(known: Set<u32>, m: Seq<u16>, j: int, high: int, t: int, n: int)
    requires
        4 <= t <= n <= 8,
        candidate(known, m, j, high, t) is Some,
        forall|u: int|
            4 <= u <= 8 && u != t && #[trigger] candidate(known, m, j, high, u) is Some ==> candidate(
                known,
                m,
                j,
                high,
                u,
            )->0.score < candidate(known, m, j, high, t)->0.score,
    ensures
        best_candidate(known, m, j, high, n) == candidate(known, m, j, high, t),
    decreases n,
{
    if n > t {
        lemma_outranks(known, m, j, high, t, n - 1);
    } else {
        lemma_best_below(known, m, j, high, t - 1, candidate(known, m, j, high, t)->0.score, t);
    }
}

proof fn lemma_best_below(known: Set<u32>, m: Seq<u16>, j: int, high: int, n: int, score: int, t: int)
    requires
        n < t <= 8,
        forall|u: int|
            4 <= u <= 8 && u != t && #[trigger] candidate(known, m, j, high, u) is Some ==> candidate(
                known,
                m,
                j,
                high,
                u,
            )->0.score < score,
    ensures
        best_candidate(known, m, j, high, n) is Some ==> best_candidate(known, m, j, high, n)->0.score < score,
    decreases n,
{
    if n >= 4 {
        lemma_best_below(known, m, j, high, n - 1, score, t);
        assert(candidate(known, m, j, high, n) is Some ==> candidate(known, m, j, high, n)->0.score < score);
    }
}

/// What speaks for the message read at a fifth.
#[verifier::rlimit(80)]
#[verifier::spinoff_prover]
proof fn lemma_candidate_score(known: Set<u32>, m: Seq<u16>, j: int, high: int, u: int)
    requires
        high >= 0,
        4 <= u <= 8,
    ensures
        ({
            let base = j + 19;
            let msg = message_read(m, base, u);
            let c = candidate(known, m, j, high, u);
            &&& c is Some ==> reads_credible(known, m, base, u)
            &&& c is Some && !reads_intact(m, base, u) ==> c->0.score <= 500_000 + high
            &&& j + 20 + msg.len() * 20 + 4 <= m.len() && reads_credible(known, m, base, u) ==> {
                &&& c is Some
                &&& c->0.frame.df == DownlinkFormat::of_code(code_read(m, base, u))
                &&& (c->0.frame.crc, c->0.frame.bytes) == validated(c->0.frame.df, msg)
                &&& reads_intact(m, base, u) ==> c->0.score == 1_000_000 + high
                &&& c->0.frame.confidence == confidence_of_level(high)
            }
        }),
{
    let base = j + 19;
    let code = code_read(m, base, u);
    let df = DownlinkFormat::of_code(code);
    let msg = message_read(m, base, u);
    lemma_code_read(m, base, u, msg.len());
    assert(code < 32);
    crate::frame::law_code_tells_format(code);
    let raw = message_bytes(m, base, u, df.length());
    assert(raw == msg);
    let (crc, bytes) = validated(df, msg);
    let score = score_of(known, high, df, crc, bytes);
    if is_clean_code(code) {
        assert(!(df is Reserved));
        assert(crc is Clean <==> crc24_of(msg) == 0);
        assert(score > 0 <==> reads_credible(known, m, base, u));
    } else if is_overlaid_code(code) {
        assert(!(df is Reserved));
        assert(crc is Failed && bytes == msg);
        assert(score > 0 <==> reads_credible(known, m, base, u));
    } else {
        assert(df is Reserved);
        assert(!reads_credible(known, m, base, u));
    }
}

/// An intact message behind a preamble that stands out is passed on as it was sent,
/// whatever its format and whatever fifth it begins at, unless slicing from another fifth
/// reads an intact message too. Its sender is known from then on.
pub proof fn law_intact_message_is_passed_on(
    known: Set<u32>,
    min_confidence: u8,
    floor: Floor,
    m: Seq<u16>,
    j: int,
    consumed: int,
    t: int,
    sent: Seq<u8>,
)
    requires
        preamble_at(m, j),
        level_at(m, j) >= 8 * min_confidence,
        4 <= t <= 8,
        sent.len() == 7 || sent.len() == 14,
        is_clean_code(sent[0] / 8),
        sent.len() == 14 <==> sent[0] / 8 >= 16,
        crc24_of(sent) == 0,
        message_bytes(m, j + 19, t, sent.len()) == sent,
        j + 20 + sent.len() * 20 + 4 <= m.len(),
        forall|u: int| 4 <= u <= 8 && u != t ==> !#[trigger] reads_intact(m, j + 19, u),
    ensures
        passes_on(
            known,
            min_confidence,
            floor,
            m,
            j,
            consumed,
            FrameModel {
                bytes: sent,
                df: DownlinkFormat::of_code(sent[0] / 8),
                crc: CrcOutcome::Clean,
                confidence: confidence_for(level_at(m, j)),
            },
            known.insert(crc24_of(seq![sent[1], sent[2], sent[3]])),
        ),
{
    let high = level_at(m, j) as int;
    lemma_best_is_intact(known, m, j, high, t, sent);
    let f = FrameModel {
        bytes: sent,
        df: DownlinkFormat::of_code(sent[0] / 8),
        crc: CrcOutcome::Clean,
        confidence: confidence_for(level_at(m, j)),
    };
    lemma_passes_best(known, min_confidence, floor, m, j, consumed, f);
    assert(sent.subrange(1, 4) =~= seq![sent[1], sent[2], sent[3]]);
}

proof fn lemma_best_is_intact(known: Set<u32>, m: Seq<u16>, j: int, high: int, t: int, sent: Seq<u8>)
    requires
        high >= 0,
        4 <= t <= 8,
        sent.len() == 7 || sent.len() == 14,
        is_clean_code(sent[0] / 8),
        sent.len() == 14 <==> sent[0] / 8 >= 16,
        crc24_of(sent) == 0,
        message_bytes(m, j + 19, t, sent.len()) == sent,
        j + 20 + sent.len() * 20 + 4 <= m.len(),
        forall|u: int| 4 <= u <= 8 && u != t ==> !#[trigger] reads_intact(m, j + 19, u),
    ensures
        is_best(
            known,
            m,
            j,
            high,
            FrameModel {
                bytes: sent,
                df: DownlinkFormat::of_code(sent[0] / 8),
                crc: CrcOutcome::Clean,
                confidence: confidence_for(high as nat),
            },
        ),
        DownlinkFormat::of_code(sent[0] / 8).length() == sent.len(),
        DownlinkFormat::of_code(sent[0] / 8).clean_crc(),
{
    let base = j + 19;
    lemma_code_read(m, base, t, sent.len());
    crate::frame::law_code_tells_format(sent[0] / 8);
    assert(message_read(m, base, t) == sent);
    assert(reads_intact(m, base, t));
    lemma_candidate_score(known, m, j, high, t);
    assert forall|u: int| 4 <= u <= 8 && u != t && #[trigger] candidate(known, m, j, high, u) is Some implies candidate(
        known,
        m,
        j,
        high,
        u,
    )->0.score < 1_000_000 + high by {
        lemma_candidate_score(known, m, j, high, u);
        assert(!reads_intact(m, base, u));
    }
    lemma_outranks(known, m, j, high, t, 8);
    reveal(is_best);
}

/// A message one bit away from an intact one is passed on repaired, unless slicing from
/// another fifth reads something credible too.
pub proof fn law_damaged_message_is_passed_on_repaired(
    known: Set<u32>,
    min_confidence: u8,
    floor: Floor,
    m: Seq<u16>,
    j: int,
    consumed: int,
    t: int,
    sent: Seq<u8>,
    bit: int,
)
    requires
        preamble_at(m, j),
        level_at(m, j) >= 8 * min_confidence,
        4 <= t <= 8,
        sent.len() == 7 || sent.len() == 14,
        is_clean_code(sent[0] / 8),
        sent.len() == 14 <==> sent[0] / 8 >= 16,
        crc24_of(sent) == 0,
        // The code of the format is not hit.
        5 <= bit < 8 * sent.len(),
        message_bytes(m, j + 19, t, sent.len()) == crc::flip_bit(sent, bit),
        j + 20 + sent.len() * 20 + 4 <= m.len(),
        forall|u: int| 4 <= u <= 8 && u != t ==> !#[trigger] reads_credible(known, m, j + 19, u),
    ensures
        passes_on(
            known,
            min_confidence,
            floor,
            m,
            j,
            consumed,
            FrameModel {
                bytes: sent,
                df: DownlinkFormat::of_code(sent[0] / 8),
                crc: CrcOutcome::Corrected { bit: bit as u16 },
                confidence: confidence_for(level_at(m, j)),
            },
            known.insert(crc24_of(seq![sent[1], sent[2], sent[3]])),
        ),
{
    let high = level_at(m, j) as int;
    lemma_best_is_repaired(known, m, j, high, t, sent, bit);
    let f = FrameModel {
        bytes: sent,
        df: DownlinkFormat::of_code(sent[0] / 8),
        crc: CrcOutcome::Corrected { bit: bit as u16 },
        confidence: confidence_for(level_at(m, j)),
    };
    lemma_passes_best(known, min_confidence, floor, m, j, consumed, f);
    assert(sent.subrange(1, 4) =~= seq![sent[1], sent[2], sent[3]]);
}

proof fn lemma_best_is_repaired(known: Set<u32>, m: Seq<u16>, j: int, high: int, t: int, sent: Seq<u8>, bit: int)
    requires
        high >= 0,
        4 <= t <= 8,
        sent.len() == 7 || sent.len() == 14,
        is_clean_code(sent[0] / 8),
        sent.len() == 14 <==> sent[0] / 8 >= 16,
        crc24_of(sent) == 0,
        5 <= bit < 8 * sent.len(),
        message_bytes(m, j + 19, t, sent.len()) == crc::flip_bit(sent, bit),
        j + 20 + sent.len() * 20 + 4 <= m.len(),
        forall|u: int| 4 <= u <= 8 && u != t ==> !#[trigger] reads_credible(known, m, j + 19, u),
    ensures
        is_best(
            known,
            m,
            j,
            high,
            FrameModel {
                bytes: sent,
                df: DownlinkFormat::of_code(sent[0] / 8),
                crc: CrcOutcome::Corrected { bit: bit as u16 },
                confidence: confidence_for(high as nat),
            },
        ),
        DownlinkFormat::of_code(sent[0] / 8).length() == sent.len(),
        DownlinkFormat::of_code(sent[0] / 8).clean_crc(),
{
    let base = j + 19;
    let msg = crc::flip_bit(sent, bit);
    lemma_code_read(m, base, t, sent.len());
    lemma_flip_keeps_code(sent, bit);
    crate::frame::law_code_tells_format(sent[0] / 8);
    assert(message_read(m, base, t) == msg);
    let (o, after) = check_of(msg);
    lemma_check_is_checked(msg);
    crc::law_single_bit_error_is_repaired(sent, bit, o, after);
    assert(reads_credible(known, m, base, t)) by {
        let k = choose|k: int| 0 <= k < 8 * msg.len() && #[trigger] crc24_of(crc::flip_bit(msg, k)) == 0;
        assert(crc24_of(crc::flip_bit(msg, k)) == 0);
    }
    lemma_candidate_score(known, m, j, high, t);
    assert forall|u: int| 4 <= u <= 8 && u != t implies #[trigger] candidate(known, m, j, high, u) is None by {
        lemma_candidate_score(known, m, j, high, u);
        assert(!reads_credible(known, m, base, u));
    }
    lemma_outranks(known, m, j, high, t, 8);
    reveal(is_best);
}

pub(crate) proof fn lemma_check_is_checked(msg: Seq<u8>)
    requires
        msg.len() <= 14,
    ensures
        crc::checked(msg, check_of(msg).0, check_of(msg).1),
{
}

/// A reply whose CRC is combined with the address of a known aircraft is passed on as it
/// was sent, unless slicing from another fifth reads something credible too.
pub proof fn law_reply_of_known_sender_is_passed_on(
    known: Set<u32>,
    min_confidence: u8,
    floor: Floor,
    m: Seq<u16>,
    j: int,
    consumed: int,
    t: int,
    sent: Seq<u8>,
)
    requires
        preamble_at(m, j),
        level_at(m, j) >= 8 * min_confidence,
        4 <= t <= 8,
        sent.len() == 7 || sent.len() == 14,
        is_overlaid_code(sent[0] / 8),
        sent.len() == 14 <==> sent[0] / 8 >= 16,
        known.contains(crc24_of(sent)),
        message_bytes(m, j + 19, t, sent.len()) == sent,
        j + 20 + sent.len() * 20 + 4 <= m.len(),
        forall|u: int| 4 <= u <= 8 && u != t ==> !#[trigger] reads_credible(known, m, j + 19, u),
    ensures
        passes_on(
            known,
            min_confidence,
            floor,
            m,
            j,
            consumed,
            FrameModel {
                bytes: sent,
                df: DownlinkFormat::of_code(sent[0] / 8),
                crc: CrcOutcome::Failed,
                confidence: confidence_for(level_at(m, j)),
            },
            known,
        ),
{
    let high = level_at(m, j) as int;
    lemma_best_is_overlaid(known, m, j, high, t, sent);
    let f = FrameModel {
        bytes: sent,
        df: DownlinkFormat::of_code(sent[0] / 8),
        crc: CrcOutcome::Failed,
        confidence: confidence_for(level_at(m, j)),
    };
    lemma_passes_best(known, min_confidence, floor, m, j, consumed, f);
}

proof fn lemma_best_is_overlaid(known: Set<u32>, m: Seq<u16>, j: int, high: int, t: int, sent: Seq<u8>)
    requires
        high >= 0,
        4 <= t <= 8,
        sent.len() == 7 || sent.len() == 14,
        is_overlaid_code(sent[0] / 8),
        sent.len() == 14 <==> sent[0] / 8 >= 16,
        known.contains(crc24_of(sent)),
        message_bytes(m, j + 19, t, sent.len()) == sent,
        j + 20 + sent.len() * 20 + 4 <= m.len(),
        forall|u: int| 4 <= u <= 8 && u != t ==> !#[trigger] reads_credible(known, m, j + 19, u),
    ensures
        is_best(
            known,
            m,
            j,
            high,
            FrameModel {
                bytes: sent,
                df: DownlinkFormat::of_code(sent[0] / 8),
                crc: CrcOutcome::Failed,
                confidence: confidence_for(high as nat),
            },
        ),
        DownlinkFormat::of_code(sent[0] / 8).length() == sent.len(),
{
    let base = j + 19;
    lemma_code_read(m, base, t, sent.len());
    crate::frame::law_code_tells_format(sent[0] / 8);
    assert(message_read(m, base, t) == sent);
    assert forall|u: int| 4 <= u <= 8 && u != t implies #[trigger] candidate(known, m, j, high, u) is None by {
        lemma_candidate_score(known, m, j, high, u);
        assert(!reads_credible(known, m, base, u));
    }
    assert(reads_credible(known, m, base, t));
    lemma_candidate_score(known, m, j, high, t);
    lemma_outranks(known, m, j, high, t, 8);
    reveal(is_best);
}

pub(crate) proof fn lemma_flip_keeps_code(sent: Seq<u8>, bit: int)
    requires
        sent.len() > 0,
        5 <= bit < 8 * sent.len(),
    ensures
        crc::flip_bit(sent, bit)[0] / 8 == sent[0] / 8,
        crc::flip_bit(sent, bit).len() == sent.len(),
{
    if bit < 8 {
        let b = sent[0];
        assert((b ^ 1u8) / 8 == b / 8 && (b ^ 2u8) / 8 == b / 8 && (b ^ 4u8) / 8 == b / 8) by (bit_vector);
    }
}

/// The scan passes on the best candidate, if a preamble stands out for it.
proof fn lemma_passes_best(
    known: Set<u32>,
    min_confidence: u8,
    floor: Floor,
    m: Seq<u16>,
    j: int,
    consumed: int,
    f: FrameModel,
)
    requires
        preamble_at(m, j),
        level_at(m, j) >= 8 * min_confidence,
        j + 155 <= m.len(),
        is_best(known, m, j, level_at(m, j) as int, f),
        f.confidence == confidence_for(level_at(m, j)),
        f.bytes.len() == f.df.length(),
    ensures
        passes_on(known, min_confidence, floor, m, j, consumed, f, known_after(known, f)),
{
    lemma_frame_at_best(known, min_confidence, m, j, f);
    lemma_scan_step(known, min_confidence, floor, m, j, consumed, f);
}

proof fn lemma_frame_at_best(known: Set<u32>, min_confidence: u8, m: Seq<u16>, j: int, f: FrameModel)
    requires
        preamble_at(m, j),
        is_best(known, m, j, level_at(m, j) as int, f),
        f.confidence >= min_confidence,
    ensures
        frame_at(known, min_confidence, m, j) == Some(f),
        0 <= j,
{
    reveal(frame_at);
    reveal(preamble_at);
    reveal(level_at);
    reveal(is_best);
    let p = m.subrange(j, j + 19);
    let hit = preamble_hit(p)->0;
    assert(preamble_hit(p) == Some(hit));
}

proof fn lemma_scan_step(
    known: Set<u32>,
    min_confidence: u8,
    floor: Floor,
    m: Seq<u16>,
    j: int,
    consumed: int,
    f: FrameModel,
)
    requires
        0 <= j,
        j + 155 <= m.len(),
        frame_at(known, min_confidence, m, j) == Some(f),
        f.bytes.len() == f.df.length(),
    ensures
        passes_on(known, min_confidence, floor, m, j, consumed, f, known_after(known, f)),
{
    reveal(passes_on);
}

// --- Transmissions -----------------------------------------------------------

/// What a fifth of a sample adds to its magnitude.
pub open spec fn fifth(on: bool, high: int, low: int) -> int {
    if on {
        high
    } else {
        low
    }
}

/// The magnitude of sample `i` while a transmitter is on in some fifths and off in the
/// others.
pub open spec fn sampled(on: spec_fn(int) -> bool, high: int, low: int, i: int) -> int {
    fifth(on(5 * i), high, low) + fifth(on(5 * i + 1), high, low) + fifth(on(5 * i + 2), high, low) + fifth(
        on(5 * i + 3),
        high,
        low,
    ) + fifth(on(5 * i + 4), high, low)
}

/// From fifth `f` on a bit is sent: half a microsecond on and half off for a one, the
/// other way round for a zero. Half a microsecond is six fifths.
pub open spec fn sends_bit(on: spec_fn(int) -> bool, f: int, bit: bool) -> bool {
    &&& on(f) == bit && on(f + 1) == bit && on(f + 2) == bit && on(f + 3) == bit && on(f + 4) == bit && on(f + 5)
        == bit
    &&& on(f + 6) == !bit && on(f + 7) == !bit && on(f + 8) == !bit && on(f + 9) == !bit && on(f + 10) == !bit && on(
        f + 11,
    ) == !bit
}

/// Whether a preamble has a pulse `d` fifths after its start: there are four of half a
/// microsecond, at 0, 1, 3.5 and 4.5 microseconds.
pub open spec fn is_pulse(d: int) -> bool {
    0 <= d < 6 || 12 <= d < 18 || 42 <= d < 48 || 54 <= d < 60
}

/// The sign of the correlation tells the bit that is sent, wherever in a sample the bit
/// begins and whatever is sent before and after.
proof fn lemma_correlation_tells_bit(
    m: Seq<u16>,
    on: spec_fn(int) -> bool,
    high: int,
    low: int,
    i: int,
    phase: int,
    bit: bool,
)
    requires
        high > low,
        0 <= phase < 5,
        sends_bit(on, 5 * i + phase, bit),
        m[i] == sampled(on, high, low, i),
        m[i + 1] == sampled(on, high, low, i + 1),
        m[i + 2] == sampled(on, high, low, i + 2),
        phase == 4 ==> m[i + 3] == sampled(on, high, low, i + 3),
    ensures
        correlation(phase, m, i) > 0 <==> bit,
{
    assert(5 * (i + 1) == 5 * i + 5 && 5 * (i + 2) == 5 * i + 10 && 5 * (i + 3) == 5 * i + 15);
    if phase == 0 {
    } else if phase == 1 {
    } else if phase == 2 {
    } else if phase == 3 {
    } else {
    }
}

/// Slicing undoes sending: the bits sent from `t` fifths after sample `base` on are read
/// back, at whatever fifth of a sample they begin.
pub proof fn law_slices_what_was_sent(
    m: Seq<u16>,
    base: int,
    t: int,
    bits: Seq<bool>,
    on: spec_fn(int) -> bool,
    high: int,
    low: int,
)
    requires
        high > low,
        0 <= t,
        forall|i: int|
            base <= i <= last_read(base, t + 12 * (bits.len() - 1)) ==> #[trigger] m[i] == sampled(on, high, low, i),
        forall|k: int| 0 <= k < bits.len() ==> sends_bit(on, 5 * base + t + 12 * k, #[trigger] bits[k]),
    ensures
        message_bits(m, base, t, bits.len()) == bits,
{
    assert forall|k: int| 0 <= k < bits.len() implies message_bits(m, base, t, bits.len())[k] == bits[k] by {
        let x = t + 12 * k;
        let i = base + x / 5;
        let phase = x % 5;
        assert(5 * i + phase == 5 * base + x);
        assert(x <= t + 12 * (bits.len() - 1));
        assert(last_read(base, x) <= last_read(base, t + 12 * (bits.len() - 1)));
        lemma_correlation_tells_bit(m, on, high, low, i, phase, bits[k]);
    }
    assert(message_bits(m, base, t, bits.len()) =~= bits);
}

/// A preamble that is sent from `start` fifths after sample `j` on stands out there, if a
/// pulse is twice as strong as the noise.
pub proof fn law_sent_preamble_stands_out(
    m: Seq<u16>,
    j: int,
    start: int,
    on: spec_fn(int) -> bool,
    high: int,
    low: int,
)
    requires
        0 <= j,
        j + 19 <= m.len(),
        3 <= start <= 7,
        0 <= low,
        2 * low <= high,
        0 < high,
        forall|i: int| j <= i < j + 19 ==> #[trigger] m[i] == sampled(on, high, low, i),
        forall|f: int| 5 * j <= f < 5 * j + 95 ==> #[trigger] on(f) == is_pulse(f - 5 * j - start),
    ensures
        preamble_at(m, j),
        level_at(m, j) >= 4 * high + low,
{
    reveal(preamble_at);
    reveal(level_at);
    let p = m.subrange(j, j + 19);
    assert forall|k: int| 0 <= k < 19 implies #[trigger] p[k] == pulse_sample(start, high, low, k) by {
        assert(p[k] == m[j + k]);
        assert(5 * (j + k) == 5 * j + 5 * k);
        let f = 5 * (j + k);
        assert(on(f) == is_pulse(f - 5 * j - start));
        assert(on(f + 1) == is_pulse(f + 1 - 5 * j - start));
        assert(on(f + 2) == is_pulse(f + 2 - 5 * j - start));
        assert(on(f + 3) == is_pulse(f + 3 - 5 * j - start));
        assert(on(f + 4) == is_pulse(f + 4 - 5 * j - start));
    }
    if start == 3 {
        lemma_preamble_3(p, high, low);
    } else if start == 4 {
        lemma_preamble_4(p, high, low);
    } else if start == 5 {
        lemma_preamble_5(p, high, low);
    } else if start == 6 {
        lemma_preamble_6(p, high, low);
    } else {
        lemma_preamble_7(p, high, low);
    }
}

/// Sample `k` of a preamble that begins `start` fifths after the first.
spec fn pulse_sample(start: int, high: int, low: int, k: int) -> int {
    fifth(is_pulse(5 * k - start), high, low) + fifth(is_pulse(5 * k + 1 - start), high, low) + fifth(
        is_pulse(5 * k + 2 - start),
        high,
        low,
    ) + fifth(is_pulse(5 * k + 3 - start), high, low) + fifth(is_pulse(5 * k + 4 - start), high, low)
}

#[verifier::rlimit(50)]
proof fn lemma_preamble_3(p: Seq<u16>, high: int, low: int)
    requires
        p.len() == 19,
        0 <= low,
        2 * low <= high,
        0 < high,
        forall|k: int| 0 <= k < 19 ==> #[trigger] p[k] == pulse_sample(3, high, low, k),
    ensures
        preamble_hit(p) is Some,
        stands_out(p, preamble_hit(p)->0),
        preamble_hit(p)->0.high >= 4 * high + low,
{
    assert(p[0] == 2 * high + 3 * low);
    assert(p[1] == 4 * high + 1 * low);
    assert(p[2] == 0 * high + 5 * low);
    assert(p[3] == 5 * high + 0 * low);
    assert(p[4] == 1 * high + 4 * low);
    assert(p[5] == 0 * high + 5 * low);
    assert(p[6] == 0 * high + 5 * low);
    assert(p[7] == 0 * high + 5 * low);
    assert(p[8] == 0 * high + 5 * low);
    assert(p[9] == 5 * high + 0 * low);
    assert(p[10] == 1 * high + 4 * low);
    assert(p[11] == 3 * high + 2 * low);
    assert(p[12] == 3 * high + 2 * low);
    assert(p[13] == 0 * high + 5 * low);
    assert(p[14] == 0 * high + 5 * low);
    assert(p[15] == 0 * high + 5 * low);
    assert(p[16] == 0 * high + 5 * low);
    assert(p[17] == 0 * high + 5 * low);
    assert(p[18] == 0 * high + 5 * low);
    assert(matches_pattern(p, 3));
    let hit = preamble_hit(p)->0;
    assert forall|i: int| 5 <= i <= 8 || 14 <= i <= 18 implies #[trigger] p[i] < hit.high by {
        assert(p[i] == 5 * low);
    }
}

#[verifier::rlimit(50)]
proof fn lemma_preamble_4(p: Seq<u16>, high: int, low: int)
    requires
        p.len() == 19,
        0 <= low,
        2 * low <= high,
        0 < high,
        forall|k: int| 0 <= k < 19 ==> #[trigger] p[k] == pulse_sample(4, high, low, k),
    ensures
        preamble_hit(p) is Some,
        stands_out(p, preamble_hit(p)->0),
        preamble_hit(p)->0.high >= 4 * high + low,
{
    assert(p[0] == 1 * high + 4 * low);
    assert(p[1] == 5 * high + 0 * low);
    assert(p[2] == 0 * high + 5 * low);
    assert(p[3] == 4 * high + 1 * low);
    assert(p[4] == 2 * high + 3 * low);
    assert(p[5] == 0 * high + 5 * low);
    assert(p[6] == 0 * high + 5 * low);
    assert(p[7] == 0 * high + 5 * low);
    assert(p[8] == 0 * high + 5 * low);
    assert(p[9] == 4 * high + 1 * low);
    assert(p[10] == 2 * high + 3 * low);
    assert(p[11] == 2 * high + 3 * low);
    assert(p[12] == 4 * high + 1 * low);
    assert(p[13] == 0 * high + 5 * low);
    assert(p[14] == 0 * high + 5 * low);
    assert(p[15] == 0 * high + 5 * low);
    assert(p[16] == 0 * high + 5 * low);
    assert(p[17] == 0 * high + 5 * low);
    assert(p[18] == 0 * high + 5 * low);
    assert(matches_pattern(p, 4));
    let hit = preamble_hit(p)->0;
    assert forall|i: int| 5 <= i <= 8 || 14 <= i <= 18 implies #[trigger] p[i] < hit.high by {
        assert(p[i] == 5 * low);
    }
}

#[verifier::rlimit(50)]
proof fn lemma_preamble_5(p: Seq<u16>, high: int, low: int)
    requires
        p.len() == 19,
        0 <= low,
        2 * low <= high,
        0 < high,
        forall|k: int| 0 <= k < 19 ==> #[trigger] p[k] == pulse_sample(5, high, low, k),
    ensures
        preamble_hit(p) is Some,
        stands_out(p, preamble_hit(p)->0),
        preamble_hit(p)->0.high >= 4 * high + low,
{
    assert(p[0] == 0 * high + 5 * low);
    assert(p[1] == 5 * high + 0 * low);
    assert(p[2] == 1 * high + 4 * low);
    assert(p[3] == 3 * high + 2 * low);
    assert(p[4] == 3 * high + 2 * low);
    assert(p[5] == 0 * high + 5 * low);
    assert(p[6] == 0 * high + 5 * low);
    assert(p[7] == 0 * high + 5 * low);
    assert(p[8] == 0 * high + 5 * low);
    assert(p[9] == 3 * high + 2 * low);
    assert(p[10] == 3 * high + 2 * low);
    assert(p[11] == 1 * high + 4 * low);
    assert(p[12] == 5 * high + 0 * low);
    assert(p[13] == 0 * high + 5 * low);
    assert(p[14] == 0 * high + 5 * low);
    assert(p[15] == 0 * high + 5 * low);
    assert(p[16] == 0 * high + 5 * low);
    assert(p[17] == 0 * high + 5 * low);
    assert(p[18] == 0 * high + 5 * low);
    assert(matches_pattern(p, 5));
    let hit = preamble_hit(p)->0;
    assert forall|i: int| 5 <= i <= 8 || 14 <= i <= 18 implies #[trigger] p[i] < hit.high by {
        assert(p[i] == 5 * low);
    }
}

#[verifier::rlimit(50)]
proof fn lemma_preamble_6(p: Seq<u16>, high: int, low: int)
    requires
        p.len() == 19,
        0 <= low,
        2 * low <= high,
        0 < high,
        forall|k: int| 0 <= k < 19 ==> #[trigger] p[k] == pulse_sample(6, high, low, k),
    ensures
        preamble_hit(p) is Some,
        stands_out(p, preamble_hit(p)->0),
        preamble_hit(p)->0.high >= 4 * high + low,
{
    assert(p[0] == 0 * high + 5 * low);
    assert(p[1] == 4 * high + 1 * low);
    assert(p[2] == 2 * high + 3 * low);
    assert(p[3] == 2 * high + 3 * low);
    assert(p[4] == 4 * high + 1 * low);
    assert(p[5] == 0 * high + 5 * low);
    assert(p[6] == 0 * high + 5 * low);
    assert(p[7] == 0 * high + 5 * low);
    assert(p[8] == 0 * high + 5 * low);
    assert(p[9] == 2 * high + 3 * low);
    assert(p[10] == 4 * high + 1 * low);
    assert(p[11] == 0 * high + 5 * low);
    assert(p[12] == 5 * high + 0 * low);
    assert(p[13] == 1 * high + 4 * low);
    assert(p[14] == 0 * high + 5 * low);
    assert(p[15] == 0 * high + 5 * low);
    assert(p[16] == 0 * high + 5 * low);
    assert(p[17] == 0 * high + 5 * low);
    assert(p[18] == 0 * high + 5 * low);
    assert(matches_pattern(p, 6));
    let hit = preamble_hit(p)->0;
    assert forall|i: int| 5 <= i <= 8 || 14 <= i <= 18 implies #[trigger] p[i] < hit.high by {
        assert(p[i] == 5 * low);
    }
}

#[verifier::rlimit(50)]
proof fn lemma_preamble_7(p: Seq<u16>, high: int, low: int)
    requires
        p.len() == 19,
        0 <= low,
        2 * low <= high,
        0 < high,
        forall|k: int| 0 <= k < 19 ==> #[trigger] p[k] == pulse_sample(7, high, low, k),
    ensures
        preamble_hit(p) is Some,
        stands_out(p, preamble_hit(p)->0),
        preamble_hit(p)->0.high >= 4 * high + low,
{
    assert(p[0] == 0 * high + 5 * low);
    assert(p[1] == 3 * high + 2 * low);
    assert(p[2] == 3 * high + 2 * low);
    assert(p[3] == 1 * high + 4 * low);
    assert(p[4] == 5 * high + 0 * low);
    assert(p[5] == 0 * high + 5 * low);
    assert(p[6] == 0 * high + 5 * low);
    assert(p[7] == 0 * high + 5 * low);
    assert(p[8] == 0 * high + 5 * low);
    assert(p[9] == 1 * high + 4 * low);
    assert(p[10] == 5 * high + 0 * low);
    assert(p[11] == 0 * high + 5 * low);
    assert(p[12] == 4 * high + 1 * low);
    assert(p[13] == 2 * high + 3 * low);
    assert(p[14] == 0 * high + 5 * low);
    assert(p[15] == 0 * high + 5 * low);
    assert(p[16] == 0 * high + 5 * low);
    assert(p[17] == 0 * high + 5 * low);
    assert(p[18] == 0 * high + 5 * low);
    assert(matches_pattern(p, 7));
    let hit = preamble_hit(p)->0;
    assert forall|i: int| 5 <= i <= 8 || 14 <= i <= 18 implies #[trigger] p[i] < hit.high by {
        assert(p[i] == 5 * low);
    }
}

/// A transmission is found: a preamble and an intact message, sent from `start` fifths
/// after sample `j` on with pulses twice as strong as the noise, are passed on as the
/// frame that was sent, whatever its format, unless slicing from another fifth reads an
/// intact message too. Its sender is known from then on.
pub proof fn law_finds_transmission_2400(
    known: Set<u32>,
    min_confidence: u8,
    floor: Floor,
    m: Seq<u16>,
    j: int,
    consumed: int,
    start: int,
    sent: Seq<u8>,
    on: spec_fn(int) -> bool,
    high: int,
    low: int,
)
    requires
        0 <= j,
        3 <= start <= 7,
        0 <= low,
        2 * low <= high,
        0 < high,
        4 * high + low >= 8 * min_confidence,
        sent.len() == 7 || sent.len() == 14,
        is_clean_code(sent[0] / 8),
        sent.len() == 14 <==> sent[0] / 8 >= 16,
        crc24_of(sent) == 0,
        j + 20 + sent.len() * 20 + 4 <= m.len(),
        forall|i: int| j <= i < j + 20 + sent.len() * 20 + 4 ==> #[trigger] m[i] == sampled(on, high, low, i),
        forall|f: int| 5 * j <= f < 5 * j + 95 ==> #[trigger] on(f) == is_pulse(f - 5 * j - start),
        // The message begins 8 microseconds, 96 fifths, after the preamble.
        forall|k: int|
            0 <= k < 8 * sent.len() ==> sends_bit(
                on,
                5 * j + start + 96 + 12 * k,
                #[trigger] crate::demod::unpacked(sent)[k],
            ),
        forall|u: int| 4 <= u <= 8 && u != start + 1 ==> !#[trigger] reads_intact(m, j + 19, u),
    ensures
        preamble_at(m, j),
        passes_on(
            known,
            min_confidence,
            floor,
            m,
            j,
            consumed,
            FrameModel {
                bytes: sent,
                df: DownlinkFormat::of_code(sent[0] / 8),
                crc: CrcOutcome::Clean,
                confidence: confidence_for(level_at(m, j)),
            },
            known.insert(crc24_of(seq![sent[1], sent[2], sent[3]])),
        ),
{
    law_sent_preamble_stands_out(m, j, start, on, high, low);
    lemma_sent_message_is_read(m, j, start, sent, on, high, low);
    law_intact_message_is_passed_on(known, min_confidence, floor, m, j, consumed, start + 1, sent);
}

proof fn lemma_sent_message_is_read(
    m: Seq<u16>,
    j: int,
    start: int,
    sent: Seq<u8>,
    on: spec_fn(int) -> bool,
    high: int,
    low: int,
)
    requires
        3 <= start <= 7,
        low < high,
        sent.len() == 7 || sent.len() == 14,
        forall|i: int| j <= i < j + 20 + sent.len() * 20 + 4 ==> #[trigger] m[i] == sampled(on, high, low, i),
        forall|k: int|
            0 <= k < 8 * sent.len() ==> sends_bit(
                on,
                5 * j + start + 96 + 12 * k,
                #[trigger] crate::demod::unpacked(sent)[k],
            ),
    ensures
        message_bytes(m, j + 19, start + 1, sent.len()) == sent,
{
    let bits = crate::demod::unpacked(sent);
    let t = start + 1;
    let base = j + 19;
    assert(5 * base + t == 5 * j + start + 96);
    assert forall|k: int| 0 <= k < bits.len() implies sends_bit(on, 5 * base + t + 12 * k, #[trigger] bits[k]) by {
        assert(sends_bit(on, 5 * j + start + 96 + 12 * k, crate::demod::unpacked(sent)[k]));
    }
    assert(last_read(base, t + 12 * (bits.len() - 1)) < j + 20 + sent.len() * 20 + 4);
    law_slices_what_was_sent(m, base, t, bits, on, high, low);
    crate::demod::law_pack_after_unpack(sent);
}

/// One frame found by [`process_2400`]. A short frame leaves the last bytes zero.
#[derive(Debug, Clone, Copy)]
pub struct DemodResult {
    pub bytes: [u8; MAX_FRAME_BYTES],
    pub df: DownlinkFormat,
    pub crc: CrcOutcome,
    /// Confidence derived from the preamble level.
    pub confidence: u8,
    /// Samples that the frame and its preamble take.
    pub advance: usize,
}

impl View for DemodResult {
    type V = FrameModel;

    open spec fn view(&self) -> FrameModel {
        FrameModel {
            bytes: self.bytes@.subrange(0, self.df.length() as int),
            df: self.df,
            crc: self.crc,
            confidence: self.confidence,
        }
    }
}

impl DemodResult {
    /// The bytes behind the frame are zero.
    pub open spec fn zero_behind(&self) -> bool {
        forall|k: int| self.df.length() <= k < MAX_FRAME_BYTES ==> #[trigger] self.bytes@[k] == 0
    }
}

/// The contents of a run of results.
pub open spec fn results(r: Seq<DemodResult>) -> Seq<FrameModel> {
    Seq::new(r.len(), |i: int| r[i]@)
}

/// The candidate that begins `try_phase` fifths after the preamble at `j`, with
/// its score.
fn try_candidate(icao_filter: &IcaoFilter, mag: &[u16], j: usize, high: u32, try_phase: u32) -> (r: Option<(
    DemodResult,
    i32,
)>)
    requires
        j + LOOKAHEAD_SHORT <= mag.len(),
        high <= 98302,
        4 <= try_phase <= 8,
    ensures
        match r {
            Some((res, score)) => {
                &&& candidate(icao_filter@, mag@, j as int, high as int, try_phase as int) == Some(
                    Candidate { frame: res@, score: score as int },
                )
                &&& score > 0
                &&& res.advance == advance_of(res.df)
                &&& res.zero_behind()
                &&& j + res.advance <= mag.len()
            },
            None => candidate(icao_filter@, mag@, j as int, high as int, try_phase as int) is None,
        },
{
    let base: usize = j + PREAMBLE_SAMPLES_2400;
    let start: usize = base + (try_phase as usize) / 5;
    if mag.len() - start < SHORT_FRAME_BYTES * 19 + 4 {
        return None;
    }
    let prefix = slice_message(mag, base, try_phase, 1);
    assert(prefix@.subrange(0, 1)[0] == prefix@[0]);
    let df = DownlinkFormat::from_first_byte(prefix[0]);
    if let DownlinkFormat::Reserved(_) = df {
        return None;
    }
    let n: usize = df.frame_bytes();
    if n == LONG_FRAME_BYTES && mag.len() - start < LONG_FRAME_BYTES * 20 + 4 {
        return None;
    }
    let mut bytes = slice_message(mag, base, try_phase, n);
    let ghost raw = bytes@.subrange(0, n as int);
    let clean: bool = df.has_clean_crc();
    let mut crc = CrcOutcome::Failed;
    if clean {
        let whole: &mut [u8] = &mut bytes;
        let (head, _tail) = whole.split_at_mut(n);
        crc = crc::check(head);
    }
    assert(bytes@.len() == 14);
    assert((crc, bytes@.subrange(0, n as int)) == validated(df, raw));
    let syndrome: u32 = crc::crc24(vstd::slice::slice_subrange(bytes.as_slice(), 0, n));
    let known: bool = !clean && icao_filter.contains(syndrome);
    let h: i32 = high as i32;
    let score: i32 = match crc {
        CrcOutcome::Clean => 1_000_000 + h,
        CrcOutcome::Corrected { .. } => 500_000 + h,
        CrcOutcome::Failed => if known {
            250_000 + h
        } else {
            0
        },
    };
    if score == 0 {
        return None;
    }
    let confidence: u8 = if high >= 2040 {
        255
    } else {
        (high / 8) as u8
    };
    let advance: usize = PREAMBLE_SAMPLES_2400 + n * 96 / 5;
    Some((DemodResult { bytes, df, crc, confidence, advance }, score))
}

/// The frame at `j`, if there is one.
fn find_at(icao_filter: &IcaoFilter, mag: &[u16], j: usize, min_confidence: u8) -> (r: Option<DemodResult>)
    requires
        j + LOOKAHEAD_SHORT <= mag.len(),
    ensures
        match r {
            Some(res) => {
                &&& frame_at(icao_filter@, min_confidence, mag@, j as int) == Some(res@)
                &&& res.advance == advance_of(res.df)
                &&& res.zero_behind()
                &&& j + res.advance <= mag.len()
            },
            None => frame_at(icao_filter@, min_confidence, mag@, j as int) is None,
        },
{
    reveal(frame_at);
    let preamble = vstd::slice::slice_subrange(mag, j, j + PREAMBLE_SAMPLES_2400);
    let hit = match detect_preamble(preamble) {
        Some(hit) => hit,
        None => {
            return None;
        },
    };
    if !preamble_stands_out(preamble, &hit) {
        return None;
    }
    let mut best: Option<(DemodResult, i32)> = None;
    let mut t: u32 = 4;
    while t <= 8
        invariant
            4 <= t <= 9,
            j + LOOKAHEAD_SHORT <= mag.len(),
            hit.high <= 98302,
            match best {
                Some((res, score)) => {
                    &&& best_candidate(icao_filter@, mag@, j as int, hit.high as int, t - 1) == Some(
                        Candidate { frame: res@, score: score as int },
                    )
                    &&& res.advance == advance_of(res.df)
                    &&& res.zero_behind()
                    &&& j + res.advance <= mag.len()
                },
                None => best_candidate(icao_filter@, mag@, j as int, hit.high as int, t - 1) is None,
            },
        decreases 9 - t,
    {
        if let Some((res, score)) = try_candidate(icao_filter, mag, j, hit.high, t) {
            let better: bool = match &best {
                Some((_, s)) => score > *s,
                None => true,
            };
            if better {
                best = Some((res, score));
            }
        }
        t += 1;
    }
    match best {
        Some((res, _)) => if res.confidence >= min_confidence {
            Some(res)
        } else {
            None
        },
        None => None,
    }
}

/// Adds the sender of a frame whose CRC holds to the known addresses.
fn remember_sender(icao_filter: &mut IcaoFilter, res: &DemodResult)
    ensures
        final(icao_filter)@ == known_after(old(icao_filter)@, res@),
{
    let valid: bool = match res.crc {
        CrcOutcome::Failed => false,
        _ => true,
    };
    if valid && res.df.has_clean_crc() {
        let icao: [u8; 3] = [res.bytes[1], res.bytes[2], res.bytes[3]];
        assert(icao@ =~= res@.bytes.subrange(1, 4));
        let mark: u32 = crc::crc24(icao.as_slice());
        icao_filter.add(mark);
    }
}

/// Scans magnitudes at 2.4 MS/s, appending a result per frame to `out`. Returns
/// the position at which the last frame ended, zero if there was none.
pub fn process_2400(
    floor: &mut NoiseFloor,
    icao_filter: &mut IcaoFilter,
    mag: &[u16],
    min_confidence: u8,
    out: &mut Vec<DemodResult>,
) -> (consumed: usize)
    ensures
        ({
            let s = scan_2400(old(icao_filter)@, min_confidence, old(floor)@, mag@, 0, 0);
            &&& results(final(out)@) == results(old(out)@) + s.frames
            &&& final(floor)@ == s.floor
            &&& final(icao_filter)@ == s.known
            &&& consumed == s.consumed
        }),
        consumed <= mag@.len(),
        forall|i: int|
            old(out)@.len() <= i < final(out)@.len() ==> (#[trigger] final(out)@[i]).advance == advance_of(
                final(out)@[i].df,
            ),
        forall|i: int| old(out)@.len() <= i < final(out)@.len() ==> (#[trigger] final(out)@[i]).zero_behind(),
{
    let n: usize = mag.len();
    let ghost whole = scan_2400(icao_filter@, min_confidence, floor@, mag@, 0, 0);
    let ghost before = results(out@);
    let ghost count = out@.len();
    let mut consumed: usize = 0;
    let mut j: usize = 0;
    assert(before + whole.frames =~= results(out@) + whole.frames);
    while j <= n && n - j >= LOOKAHEAD_SHORT
        invariant
            n == mag.len(),
            j <= n,
            consumed <= j,
            count <= out@.len(),
            ({
                let rest = scan_2400(icao_filter@, min_confidence, floor@, mag@, j as int, consumed as int);
                &&& before + whole.frames == results(out@) + rest.frames
                &&& whole.floor == rest.floor
                &&& whole.known == rest.known
                &&& whole.consumed == rest.consumed
            }),
            forall|i: int|
                count <= i < out@.len() ==> (#[trigger] out@[i]).advance == advance_of(out@[i].df),
            forall|i: int| count <= i < out@.len() ==> (#[trigger] out@[i]).zero_behind(),
        decreases n - j,
    {
        let ghost rest = scan_2400(icao_filter@, min_confidence, floor@, mag@, j as int, consumed as int);
        floor.update(mag[j]);
        match find_at(icao_filter, mag, j, min_confidence) {
            Some(res) => {
                remember_sender(icao_filter, &res);
                out.push(res);
                j += res.advance;
                consumed = j;
                proof {
                    let tail = scan_2400(icao_filter@, min_confidence, floor@, mag@, j as int, consumed as int);
                    assert(rest.frames == seq![res@] + tail.frames);
                    assert(results(out@) =~= results(out@.drop_last()).push(res@));
                    assert(results(out@) + tail.frames =~= results(out@.drop_last()) + rest.frames);
                }
            },
            None => {
                j += 1;
            },
        }
    }
    assert(results(out@) + Seq::<FrameModel>::empty() =~= results(out@));
    consumed
}

} // verus!

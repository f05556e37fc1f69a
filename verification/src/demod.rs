//! Demodulation: from a magnitude stream to bits with a confidence each.
//!
//! - [`NoiseFloor`]: exponential moving average of magnitude, the baseline of the
//!   preamble threshold.
//! - [`preamble_score`]: correlation of a window with the Mode S preamble.
//! - [`slice_bit`] / [`slice_bits`]: pulse-position slicing, with a confidence in
//!   `0..=255` per bit.
//!
//! A Mode S bit lasts one microsecond and is read from the two samples that open
//! its halves. At the canonical 2 MS/s these are all the samples there are; at
//! another rate [`DemodConfig`] says where the halves begin.

use crate::crc::bit_mask;
use vstd::arithmetic::power2::{lemma2_to64, lemma_pow2_pos, lemma_pow2_strictly_increases, pow2};
use vstd::bits::{lemma_u32_shl_is_mul, lemma_u32_shr_is_div};
use vstd::prelude::*;

verus! {

/// Samples per Mode S bit at 2 MS/s.
pub const SAMPLES_PER_BIT: usize = 2;

/// Length in samples of the 8 microsecond preamble at 2 MS/s.
pub const PREAMBLE_SAMPLES: usize = 16;

/// The samples of a 16-sample preamble window that hold a pulse: pulses begin at
/// 0.0, 1.0, 3.5 and 4.5 microseconds.
pub const PREAMBLE_HIGH_IDX: [usize; 4] = [0, 2, 7, 9];

/// The samples of a 16-sample preamble window that hold no pulse.
pub const PREAMBLE_LOW_IDX: [usize; 12] = [1, 3, 4, 5, 6, 8, 10, 11, 12, 13, 14, 15];

/// Multiplier applied to the noise floor to form the preamble threshold.
pub const PREAMBLE_GAIN: u32 = 16;

// --- Noise floor -------------------------------------------------------------

/// The state of a noise floor: the estimate times `2^shift`.
pub struct Floor {
    pub acc: int,
    pub shift: nat,
}

impl Floor {
    /// The estimate, in the units of the samples.
    pub open spec fn level(self) -> int {
        self.acc / (pow2(self.shift) as int)
    }

    /// The state after one more sample: the estimate moves by `2^-shift` of its
    /// distance from the sample.
    pub open spec fn next(self, sample: int) -> Floor {
        Floor { acc: self.acc + sample - self.level(), shift: self.shift }
    }

    /// The state that tracks `level` with the given smoothing.
    pub open spec fn at(level: int, shift: nat) -> Floor {
        Floor { acc: level * pow2(shift), shift }
    }

    /// The accumulator never leaves the range of a scaled sample.
    pub open spec fn in_range(self) -> bool {
        &&& 1 <= self.shift <= 16
        &&& 0 <= self.acc <= 65535 * pow2(self.shift)
    }
}

/// Exponential moving average of magnitude with coefficient `2^-shift`.
#[derive(Debug, Clone, Copy)]
pub struct NoiseFloor {
    acc: u32,
    shift: u8,
}

impl View for NoiseFloor {
    type V = Floor;

    closed spec fn view(&self) -> Floor {
        Floor { acc: self.acc as int, shift: self.shift as nat }
    }
}

/// One sample within the sample range keeps the estimate there: neither the
/// accumulator nor the estimate can overflow, whatever the stream.
pub proof fn law_floor_stays_in_range(f: Floor, sample: int)
    requires
        f.in_range(),
        0 <= sample <= 65535,
    ensures
        f.next(sample).in_range(),
        0 <= f.level() <= 65535,
        0 <= f.next(sample).level() <= 65535,
{
    let p = pow2(f.shift) as int;
    lemma_pow2_pos(f.shift);
    lemma_level_range(f);
    let l = f.level();
    assert(0 <= f.acc - l && f.acc - l <= 65535 * p - 65535) by (nonlinear_arith)
        requires
            l == f.acc / p,
            p > 0,
            0 <= f.acc <= 65535 * p,
            0 <= l <= 65535,
    {
        assert(f.acc == p * l + f.acc % p && 0 <= f.acc % p < p);
        assert(f.acc - l == (p - 1) * l + f.acc % p);
        if l == 65535 {
            assert(f.acc % p == 0) by {
                assert(f.acc <= p * 65535);
            }
        } else {
            assert((p - 1) * l <= (p - 1) * 65534);
        }
        assert((p - 1) * l >= 0);
    }
    lemma_level_range(f.next(sample));
}

proof fn lemma_level_range(f: Floor)
    requires
        f.in_range(),
    ensures
        0 <= f.level() <= 65535,
{
    let p = pow2(f.shift) as int;
    lemma_pow2_pos(f.shift);
    assert(0 <= f.acc / p <= 65535) by (nonlinear_arith)
        requires
            p > 0,
            0 <= f.acc <= 65535 * p,
    ;
}

/// A floor that sits at the level of its input stays there.
pub proof fn law_floor_steady(level: int, shift: nat)
    requires
        0 <= level <= 65535,
    ensures
        Floor::at(level, shift).level() == level,
        Floor::at(level, shift).next(level) == Floor::at(level, shift),
{
    let p = pow2(shift) as int;
    lemma_pow2_pos(shift);
    assert(level * p / p == level) by (nonlinear_arith)
        requires
            p > 0,
    ;
}

/// The estimate moves towards the sample and never past it.
pub proof fn law_floor_moves_towards_sample(f: Floor, sample: int)
    requires
        f.in_range(),
        0 <= sample <= 65535,
    ensures
        sample >= f.level() ==> f.level() <= f.next(sample).level() <= sample,
        sample <= f.level() ==> sample <= f.next(sample).level() <= f.level(),
{
    let p = pow2(f.shift) as int;
    lemma_pow2_pos(f.shift);
    lemma_level_range(f);
    let l = f.level();
    let a = f.acc;
    let r = a % p;
    assert(a == p * l + r && 0 <= r < p) by (nonlinear_arith)
        requires
            l == a / p,
            r == a % p,
            p > 0,
    ;
    let d = sample - l;
    let n = f.next(sample).level();
    assert(n == (p * l + (r + d)) / p);
    if d >= 0 {
        assert(l <= n <= sample) by (nonlinear_arith)
            requires
                n == (p * l + (r + d)) / p,
                p > 0,
                0 <= r < p,
                d >= 0,
                d == sample - l,
        {
            assert((p * l + (r + d)) / p >= l) by {
                assert((p * l) / p == l);
            }
            if d == 0 {
                assert((p * l + r) / p == l);
            } else {
                assert(r + d < p * (d + 1)) by {
                    assert(p * (d + 1) == p + p * d);
                    assert(p * d >= d);
                }
                assert(p * l + (r + d) < p * (l + d + 1));
                assert((p * l + (r + d)) / p < l + d + 1);
            }
        }
    } else {
        assert(sample <= n <= l) by (nonlinear_arith)
            requires
                n == (p * l + (r + d)) / p,
                p > 0,
                0 <= r < p,
                d < 0,
                d == sample - l,
        {
            assert(p * l + (r + d) < p * (l + 1));
            assert((p * l + (r + d)) / p <= l);
            assert(p * d <= d) by {
                assert((p - 1) * d <= 0);
            }
            assert(p * l + (r + d) >= p * (l + d));
            assert((p * l + (r + d)) / p >= l + d);
        }
    }
}

impl NoiseFloor {
    /// Default smoothing shift.
    pub const DEFAULT_SHIFT: u8 = 7;

    #[verifier::type_invariant]
    closed spec fn valid(self) -> bool {
        self@.in_range()
    }

    /// A tracker seeded at `initial`.
    #[must_use]
    pub fn new(initial: u16, shift: u8) -> (f: NoiseFloor)
        requires
            1 <= shift <= 16,
        ensures
            f@ == Floor::at(initial as int, shift as nat),
            f@.in_range(),
    {
        let ghost p = pow2(shift as nat) as int;
        proof {
            lemma2_to64();
            lemma_pow2_pos(shift as nat);
            if shift < 16 {
                lemma_pow2_strictly_increases(shift as nat, 16);
            }
            assert(0 <= initial * p <= 65535 * p && 65535 * p <= 65535 * 65536) by (nonlinear_arith)
                requires
                    0 <= initial <= 65535,
                    0 < p <= 65536,
            ;
            lemma_u32_shl_is_mul(initial as u32, shift as u32);
        }
        NoiseFloor { acc: (initial as u32) << (shift as u32), shift }
    }

    /// A tracker with the default smoothing, seeded at zero.
    #[must_use]
    pub fn fresh() -> (f: NoiseFloor)
        ensures
            f@ == Floor::at(0, 7),
            f@.in_range(),
    {
        NoiseFloor::new(0, 7)
    }

    /// Takes in one sample and returns the new estimate.
    pub fn update(&mut self, sample: u16) -> (level: u16)
        ensures
            final(self)@ == old(self)@.next(sample as int),
            level == final(self)@.level(),
            final(self)@.in_range(),
            old(self)@.in_range(),
    {
        proof {
            use_type_invariant(&*self);
            law_floor_stays_in_range(self@, sample as int);
            lemma2_to64();
            if self.shift < 16 {
                lemma_pow2_strictly_increases(self.shift as nat, 16);
            }
            let p = pow2(self.shift as nat) as int;
            assert(65535 * p <= 65535 * 65536) by (nonlinear_arith)
                requires
                    p <= 65536,
            ;
        }
        let shift: u32 = self.shift as u32;
        proof {
            lemma_u32_shr_is_div(self.acc, shift);
        }
        let level: u32 = self.acc >> shift;
        let acc: u32 = (self.acc - level) + sample as u32;
        self.acc = acc;
        proof {
            lemma_u32_shr_is_div(acc, shift);
        }
        (acc >> shift) as u16
    }

    /// The current estimate.
    #[must_use]
    pub fn current(&self) -> (level: u16)
        ensures
            level == self@.level(),
            self@.in_range(),
    {
        proof {
            use_type_invariant(self);
            lemma_level_range(self@);
            lemma_u32_shr_is_div(self.acc, self.shift as u32);
        }
        (self.acc >> (self.shift as u32)) as u16
    }
}

// --- Sample positions --------------------------------------------------------

/// The sample that opens half-microsecond slot `k` at the given rate.
pub open spec fn slot_sample(rate: int, k: int) -> int {
    k * rate / 2_000_000
}

/// The samples that `bits` bits span at the given rate, a fraction rounded up.
pub open spec fn bit_span(rate: int, bits: int) -> int {
    (bits * rate + 999_999) / 1_000_000
}

/// The samples that the preamble spans at the given rate: 8 microseconds, rounded
/// to the nearest sample, and never less than its 16 slots reach.
pub open spec fn preamble_span(rate: int) -> int {
    let nearest = (8 * rate + 500_000) / 1_000_000;
    let reach = slot_sample(rate, 15) + 1;
    if nearest >= reach {
        nearest
    } else {
        reach
    }
}

/// Sample positions for one sample rate.
#[derive(Debug, Clone, Copy)]
pub struct DemodConfig {
    sample_rate: u32,
    preamble_samples: usize,
}

impl DemodConfig {
    #[verifier::type_invariant]
    closed spec fn valid(self) -> bool {
        &&& self.sample_rate > 0
        &&& self.preamble_samples == preamble_span(self.sample_rate as int)
    }

    /// The sample rate in samples per second.
    pub closed spec fn rate(self) -> int {
        self.sample_rate as int
    }

    /// Positions for `sample_rate` samples per second.
    #[must_use]
    pub fn for_sample_rate(sample_rate: u32) -> (cfg: DemodConfig)
        requires
            sample_rate > 0,
        ensures
            cfg.rate() == sample_rate,
    {
        let nearest: u64 = (8 * sample_rate as u64 + 500_000) / 1_000_000;
        let reach: u64 = 15 * sample_rate as u64 / 2_000_000 + 1;
        let samples: u64 = if nearest >= reach { nearest } else { reach };
        DemodConfig { sample_rate, preamble_samples: samples as usize }
    }

    /// The sample rate in samples per second.
    #[must_use]
    pub fn sample_rate(&self) -> (r: u32)
        ensures
            r == self.rate(),
            r > 0,
    {
        proof {
            use_type_invariant(self);
        }
        self.sample_rate
    }

    /// Samples in the preamble.
    #[must_use]
    pub fn preamble_samples(&self) -> (n: usize)
        ensures
            n == preamble_span(self.rate()),
            0 < n <= 40_000,
            0 < self.rate() <= u32::MAX,
    {
        proof {
            use_type_invariant(self);
        }
        self.preamble_samples
    }

    /// Samples that `bits` bits span.
    #[must_use]
    pub fn samples_for_bits(&self, bits: usize) -> (n: usize)
        requires
            bits <= 112,
        ensures
            n == bit_span(self.rate(), bits as int),
            n <= 481_037,
            bits > 0 ==> n > 0,
            0 < self.rate() <= u32::MAX,
    {
        proof {
            use_type_invariant(self);
            let b = bits as int;
            let r = self.sample_rate as int;
            assert(0 <= b * r <= 112 * 0xFFFF_FFFF) by (nonlinear_arith)
                requires
                    0 <= b <= 112,
                    0 <= r <= 0xFFFF_FFFF,
            ;
            assert(b > 0 ==> b * r >= 1) by (nonlinear_arith)
                requires
                    b >= 0,
                    r >= 1,
            ;
        }
        ((bits as u64 * self.sample_rate as u64 + 999_999) / 1_000_000) as usize
    }

    /// The sample that opens half-microsecond slot `k`.
    fn slot(&self, k: usize) -> (i: usize)
        requires
            k <= 224,
        ensures
            i == slot_sample(self.rate(), k as int),
    {
        proof {
            let r = self.sample_rate as int;
            assert(0 <= k * r <= 224 * 0xFFFF_FFFF) by (nonlinear_arith)
                requires
                    0 <= k <= 224,
                    0 <= r <= 0xFFFF_FFFF,
            ;
        }
        ((k as u64 * self.sample_rate as u64) / 2_000_000) as usize
    }
}

/// Every slot of `bits` bits opens within their span, and every slot of the
/// preamble within the preamble.
proof fn lemma_slots_fit(rate: int, bits: int, k: int)
    requires
        rate > 0,
    ensures
        0 <= k < 2 * bits ==> 0 <= slot_sample(rate, k) < bit_span(rate, bits),
        0 <= k < 16 ==> 0 <= slot_sample(rate, k) < preamble_span(rate),
{
    if 0 <= k < 2 * bits {
        assert(k * rate + rate <= 2 * (bits * rate) && 0 <= k * rate) by (nonlinear_arith)
            requires
                0 <= k <= 2 * bits - 1,
                rate > 0,
        ;
        let x = k * rate;
        let y = bits * rate;
        assert(x / 2_000_000 < (y + 999_999) / 1_000_000);
    }
    if 0 <= k < 16 {
        assert(0 <= k * rate <= 15 * rate) by (nonlinear_arith)
            requires
                0 <= k <= 15,
                rate > 0,
        ;
        assert(slot_sample(rate, k) <= slot_sample(rate, 15));
    }
}

/// At 2 MS/s the slots are the samples: 16 make a preamble and 2 a bit.
pub proof fn law_native_rate(k: int, bits: int)
    ensures
        slot_sample(2_000_000, k) == k,
        bit_span(2_000_000, bits) == SAMPLES_PER_BIT * bits,
        preamble_span(2_000_000) == PREAMBLE_SAMPLES,
{
}

// --- Preamble correlator -----------------------------------------------------

/// The samples that open the 16 slots of a preamble window.
pub open spec fn preamble_slots(rate: int, window: Seq<u16>) -> Seq<u16> {
    Seq::new(16, |k: int| window[slot_sample(rate, k)])
}

/// The sum of the four slots that hold a pulse less the sum of the twelve that
/// hold none.
pub open spec fn preamble_score_of(w: Seq<u16>) -> int {
    (w[0] + w[2] + w[7] + w[9]) - (w[1] + w[3] + w[4] + w[5] + w[6] + w[8] + w[10] + w[11] + w[12]
        + w[13] + w[14] + w[15])
}

/// The score clears the threshold of 16 times the noise floor.
pub open spec fn clears_threshold(score: int, floor: int) -> bool {
    score > PREAMBLE_GAIN * floor
}

/// The magnitudes of an ideal preamble.
pub open spec fn ideal_preamble(pulse: u16, floor: u16) -> Seq<u16> {
    Seq::new(
        16,
        |k: int|
            if k == 0 || k == 2 || k == 7 || k == 9 {
                pulse
            } else {
                floor
            },
    )
}

/// An ideal preamble scores four pulses less twelve floors, so it clears the
/// threshold exactly when its pulses exceed seven times the floor.
pub proof fn law_ideal_preamble_score(pulse: u16, floor: u16)
    ensures
        preamble_score_of(ideal_preamble(pulse, floor)) == 4 * pulse - 12 * floor,
        clears_threshold(preamble_score_of(ideal_preamble(pulse, floor)), floor as int) <==> pulse > 7
            * floor,
{
}

/// A flat window never clears the threshold.
pub proof fn law_flat_window_is_no_preamble(w: Seq<u16>, level: u16, floor: u16)
    requires
        w.len() == 16,
        forall|k: int| 0 <= k < 16 ==> w[k] == level,
    ensures
        preamble_score_of(w) == -8 * level,
        !clears_threshold(preamble_score_of(w), floor as int),
{
}

/// Scores a 16-sample window against the preamble shape.
#[must_use]
pub fn preamble_score(window: &[u16; PREAMBLE_SAMPLES]) -> (score: i32)
    ensures
        score == preamble_score_of(window@),
{
    let high: i32 = window[0] as i32 + window[2] as i32 + window[7] as i32 + window[9] as i32;
    let low: i32 = window[1] as i32 + window[3] as i32 + window[4] as i32 + window[5] as i32
        + window[6] as i32 + window[8] as i32 + window[10] as i32 + window[11] as i32
        + window[12] as i32 + window[13] as i32 + window[14] as i32 + window[15] as i32;
    high - low
}

/// Scores a window at any sample rate by the samples that open its slots.
#[must_use]
pub fn preamble_score_cfg(cfg: &DemodConfig, window: &[u16]) -> (score: i32)
    requires
        window@.len() == preamble_span(cfg.rate()),
    ensures
        score == preamble_score_of(preamble_slots(cfg.rate(), window@)),
{
    let rate: u32 = cfg.sample_rate();
    let mut slots: [u16; 16] = [0; 16];
    let mut k: usize = 0;
    while k < 16
        invariant
            k <= 16,
            rate == cfg.rate(),
            rate > 0,
            window@.len() == preamble_span(rate as int),
            forall|i: int| 0 <= i < k ==> slots@[i] == window@[slot_sample(rate as int, i)],
        decreases 16 - k,
    {
        proof {
            lemma_slots_fit(rate as int, 0, k as int);
        }
        slots[k] = window[cfg.slot(k)];
        k += 1;
    }
    assert(slots@ =~= preamble_slots(cfg.rate(), window@));
    preamble_score(&slots)
}

/// Whether `score` clears the preamble threshold over `floor`.
#[must_use]
pub fn preamble_clears_threshold(score: i32, floor: u16) -> (yes: bool)
    ensures
        yes == clears_threshold(score as int, floor as int),
{
    assert(PREAMBLE_GAIN == 16);
    score as i64 > 16 * floor as i64
}

// --- Bit slicer --------------------------------------------------------------

/// The bit of a pulse-position pair: one if the pulse is in the first half.
pub open spec fn bit_of(s0: u16, s1: u16) -> bool {
    s0 > s1
}

/// The share of a pair's energy that speaks for its bit, in 255ths.
pub open spec fn confidence_of(s0: u16, s1: u16) -> int {
    if s0 + s1 == 0 {
        0
    } else if s0 >= s1 {
        (s0 - s1) * 255 / (s0 + s1)
    } else {
        (s1 - s0) * 255 / (s0 + s1)
    }
}

/// The bits of a run of pairs at the given rate.
pub open spec fn bits_at(rate: int, samples: Seq<u16>, n: nat) -> Seq<bool> {
    Seq::new(
        n,
        |i: int| bit_of(samples[slot_sample(rate, 2 * i)], samples[slot_sample(rate, 2 * i + 1)]),
    )
}

/// The confidences of a run of pairs at the given rate.
pub open spec fn confidences_at(rate: int, samples: Seq<u16>, n: nat) -> Seq<u8> {
    Seq::new(
        n,
        |i: int|
            confidence_of(
                samples[slot_sample(rate, 2 * i)],
                samples[slot_sample(rate, 2 * i + 1)],
            ) as u8,
    )
}

pub(crate) proof fn lemma_confidence_range(s0: u16, s1: u16)
    ensures
        0 <= confidence_of(s0, s1) <= 255,
{
    let d = if s0 >= s1 { s0 - s1 } else { s1 - s0 };
    let t = s0 + s1;
    if t > 0 {
        assert(0 <= d * 255 / t <= 255) by (nonlinear_arith)
            requires
                0 <= d <= t,
                t > 0,
        ;
    }
}

/// For pairs of one total energy, confidence grows with the imbalance.
pub proof fn law_confidence_is_monotonic(a0: u16, a1: u16, b0: u16, b1: u16)
    requires
        a0 + a1 == b0 + b1,
        a0 >= a1,
        b0 >= a0,
    ensures
        confidence_of(a0, a1) <= confidence_of(b0, b1),
        confidence_of(a1, a0) == confidence_of(a0, a1),
{
    let t = a0 + a1;
    if t > 0 {
        let d = a0 - a1;
        let e = b0 - b1;
        assert(d * 255 / t <= e * 255 / t) by (nonlinear_arith)
            requires
                0 <= d <= e,
                t > 0,
        ;
    }
}

/// Decodes a single bit from its two samples, with its confidence.
#[must_use]
pub fn slice_bit(s0: u16, s1: u16) -> (r: (bool, u8))
    ensures
        r.0 == bit_of(s0, s1),
        r.1 == confidence_of(s0, s1),
{
    let sum: u32 = s0 as u32 + s1 as u32;
    if sum == 0 {
        return (false, 0);
    }
    let diff: u32 = if s0 >= s1 { (s0 - s1) as u32 } else { (s1 - s0) as u32 };
    proof {
        lemma_confidence_range(s0, s1);
    }
    (s0 > s1, (diff * 255 / sum) as u8)
}

/// Slices a run of bits at 2 MS/s: each pair of samples is one bit.
pub fn slice_bits(samples: &[u16], bits: &mut [bool], confidences: &mut [u8])
    requires
        old(bits)@.len() == old(confidences)@.len(),
        samples@.len() == 2 * old(bits)@.len(),
    ensures
        final(bits)@ == bits_at(2_000_000, samples@, old(bits)@.len()),
        final(confidences)@ == confidences_at(2_000_000, samples@, old(bits)@.len()),
{
    let n: usize = bits.len();
    let mut i: usize = 0;
    while i < n
        invariant
            i <= n,
            n == bits@.len(),
            n == confidences@.len(),
            samples.len() == 2 * n,
            forall|k: int| 0 <= k < i ==> bits@[k] == bit_of(samples@[2 * k], samples@[2 * k + 1]),
            forall|k: int|
                0 <= k < i ==> confidences@[k] == confidence_of(samples@[2 * k], samples@[2 * k + 1]),
        decreases n - i,
    {
        let (bit, confidence) = slice_bit(samples[i * 2], samples[i * 2 + 1]);
        bits[i] = bit;
        confidences[i] = confidence;
        i += 1;
    }
    assert(bits@ =~= bits_at(2_000_000, samples@, n as nat));
    assert(confidences@ =~= confidences_at(2_000_000, samples@, n as nat));
}

/// Slices a run of bits at any sample rate: each bit is read from the samples
/// that open its halves.
pub fn slice_bits_cfg(cfg: &DemodConfig, samples: &[u16], bits: &mut [bool], confidences: &mut [u8])
    requires
        old(bits)@.len() == old(confidences)@.len(),
        old(bits)@.len() <= 112,
        samples@.len() == bit_span(cfg.rate(), old(bits)@.len() as int),
    ensures
        final(bits)@ == bits_at(cfg.rate(), samples@, old(bits)@.len()),
        final(confidences)@ == confidences_at(cfg.rate(), samples@, old(bits)@.len()),
{
    let n: usize = bits.len();
    let rate: u32 = cfg.sample_rate();
    let ghost r = rate as int;
    let mut i: usize = 0;
    while i < n
        invariant
            i <= n <= 112,
            n == bits@.len(),
            n == confidences@.len(),
            r == cfg.rate(),
            r > 0,
            samples@.len() == bit_span(r, n as int),
            forall|k: int| 0 <= k < i ==> bits@[k] == bits_at(r, samples@, n as nat)[k],
            forall|k: int| 0 <= k < i ==> confidences@[k] == confidences_at(r, samples@, n as nat)[k],
        decreases n - i,
    {
        proof {
            lemma_slots_fit(r, n as int, 2 * i);
            lemma_slots_fit(r, n as int, 2 * i + 1);
        }
        let (bit, confidence) = slice_bit(samples[cfg.slot(2 * i)], samples[cfg.slot(2 * i + 1)]);
        bits[i] = bit;
        confidences[i] = confidence;
        i += 1;
    }
    assert(bits@ =~= bits_at(r, samples@, n as nat));
    assert(confidences@ =~= confidences_at(r, samples@, n as nat));
}

/// The least of a run of confidences, zero for an empty run.
pub open spec fn least(s: Seq<u8>) -> u8
    decreases s.len(),
{
    if s.len() == 0 {
        0
    } else if s.len() == 1 {
        s[0]
    } else {
        let rest = least(s.drop_last());
        if s.last() < rest {
            s.last()
        } else {
            rest
        }
    }
}

/// [`least`] is a lower bound, and is attained.
pub proof fn lemma_least(s: Seq<u8>)
    ensures
        forall|i: int| 0 <= i < s.len() ==> least(s) <= s[i],
        s.len() > 0 ==> exists|i: int| 0 <= i < s.len() && s[i] == least(s),
    decreases s.len(),
{
    if s.len() > 1 {
        let front = s.drop_last();
        lemma_least(front);
        assert forall|i: int| 0 <= i < s.len() implies least(s) <= s[i] by {
            if i < s.len() - 1 {
                assert(s[i] == front[i]);
            }
        }
        let w = choose|i: int| 0 <= i < front.len() && front[i] == least(front);
        if s.last() < least(front) {
            assert(s[s.len() - 1] == least(s));
        } else {
            assert(s[w] == least(s));
        }
    } else if s.len() == 1 {
        assert(s[0] == least(s));
    }
}

/// Aggregates per-bit confidences into one score: the minimum, since a single bad
/// bit spoils a frame.
#[must_use]
pub fn aggregate_confidence(per_bit: &[u8]) -> (r: u8)
    ensures
        r == least(per_bit@),
        forall|i: int| 0 <= i < per_bit@.len() ==> r <= per_bit@[i],
        per_bit@.len() > 0 ==> exists|i: int| 0 <= i < per_bit@.len() && per_bit@[i] == r,
        per_bit@.len() == 0 ==> r == 0,
{
    proof {
        lemma_least(per_bit@);
    }
    if per_bit.len() == 0 {
        return 0;
    }
    let mut r: u8 = per_bit[0];
    let mut i: usize = 1;
    assert(per_bit@.take(1).len() == 1);
    while i < per_bit.len()
        invariant
            1 <= i <= per_bit@.len(),
            r == least(per_bit@.take(i as int)),
        decreases per_bit@.len() - i,
    {
        assert(per_bit@.take(i + 1).drop_last() =~= per_bit@.take(i as int));
        if per_bit[i] < r {
            r = per_bit[i];
        }
        i += 1;
    }
    assert(per_bit@.take(per_bit@.len() as int) =~= per_bit@);
    r
}

// --- Bit packing -------------------------------------------------------------

/// A bit as a number.
pub open spec fn digit(b: bool) -> int {
    if b {
        1
    } else {
        0
    }
}

/// The number that eight bits write, most significant first.
pub open spec fn octet(b0: bool, b1: bool, b2: bool, b3: bool, b4: bool, b5: bool, b6: bool, b7: bool) -> int {
    128 * digit(b0) + 64 * digit(b1) + 32 * digit(b2) + 16 * digit(b3) + 8 * digit(b4) + 4 * digit(b5) + 2
        * digit(b6) + digit(b7)
}

/// The byte whose bits, most significant first, start at bit `8 * i`.
pub open spec fn byte_at(bits: Seq<bool>, i: int) -> int {
    octet(
        bits[8 * i],
        bits[8 * i + 1],
        bits[8 * i + 2],
        bits[8 * i + 3],
        bits[8 * i + 4],
        bits[8 * i + 5],
        bits[8 * i + 6],
        bits[8 * i + 7],
    )
}

/// The bytes that a run of bits packs into, most significant bit first.
pub open spec fn packed(bits: Seq<bool>) -> Seq<u8> {
    Seq::new(bits.len() / 8, |i: int| byte_at(bits, i) as u8)
}

/// The bits of a run of bytes, most significant bit first.
pub open spec fn unpacked(bytes: Seq<u8>) -> Seq<bool> {
    Seq::new(8 * bytes.len(), |i: int| bytes[i / 8] / bit_mask(i % 8) % 2 == 1)
}

/// The digits of a number written with eight binary digits.
proof fn lemma_digits(x0: int, x1: int, x2: int, x3: int, x4: int, x5: int, x6: int, x7: int)
    requires
        0 <= x0 <= 1,
        0 <= x1 <= 1,
        0 <= x2 <= 1,
        0 <= x3 <= 1,
        0 <= x4 <= 1,
        0 <= x5 <= 1,
        0 <= x6 <= 1,
        0 <= x7 <= 1,
    ensures
        ({
            let v = 128 * x0 + 64 * x1 + 32 * x2 + 16 * x3 + 8 * x4 + 4 * x5 + 2 * x6 + x7;
            &&& v / 128 % 2 == x0
            &&& v / 64 % 2 == x1
            &&& v / 32 % 2 == x2
            &&& v / 16 % 2 == x3
            &&& v / 8 % 2 == x4
            &&& v / 4 % 2 == x5
            &&& v / 2 % 2 == x6
            &&& v / 1 % 2 == x7
        }),
{
    let v = 128 * x0 + 64 * x1 + 32 * x2 + 16 * x3 + 8 * x4 + 4 * x5 + 2 * x6 + x7;
    assert(v / 2 == 64 * x0 + 32 * x1 + 16 * x2 + 8 * x3 + 4 * x4 + 2 * x5 + x6);
    assert(v / 4 == 32 * x0 + 16 * x1 + 8 * x2 + 4 * x3 + 2 * x4 + x5);
    assert(v / 8 == 16 * x0 + 8 * x1 + 4 * x2 + 2 * x3 + x4);
    assert(v / 16 == 8 * x0 + 4 * x1 + 2 * x2 + x3);
    assert(v / 32 == 4 * x0 + 2 * x1 + x2);
    assert(v / 64 == 2 * x0 + x1);
    assert(v / 128 == x0);
}

/// The bits of a byte given by its bits.
pub proof fn lemma_byte_bits(bits: Seq<bool>, i: int, k: int)
    requires
        0 <= k < 8,
    ensures
        0 <= byte_at(bits, i) <= 255,
        byte_at(bits, i) / (bit_mask(k) as int) % 2 == digit(bits[8 * i + k]),
{
    lemma_digits(
        digit(bits[8 * i]),
        digit(bits[8 * i + 1]),
        digit(bits[8 * i + 2]),
        digit(bits[8 * i + 3]),
        digit(bits[8 * i + 4]),
        digit(bits[8 * i + 5]),
        digit(bits[8 * i + 6]),
        digit(bits[8 * i + 7]),
    );
}

/// Unpacking undoes packing.
pub proof fn law_unpack_after_pack(bits: Seq<bool>)
    requires
        bits.len() % 8 == 0,
    ensures
        unpacked(packed(bits)) == bits,
{
    assert forall|i: int| 0 <= i < bits.len() implies unpacked(packed(bits))[i] == bits[i] by {
        let j = i / 8;
        assert(8 * j + i % 8 == i);
        lemma_byte_bits(bits, j, i % 8);
    }
    assert(unpacked(packed(bits)) =~= bits);
}

/// A byte is the sum of its weighed bits.
proof fn lemma_byte_sum(b: int)
    requires
        0 <= b < 256,
    ensures
        b == 128 * (b / 128 % 2) + 64 * (b / 64 % 2) + 32 * (b / 32 % 2) + 16 * (b / 16 % 2) + 8 * (b
            / 8 % 2) + 4 * (b / 4 % 2) + 2 * (b / 2 % 2) + b % 2,
{
    let q1 = b / 2;
    let q2 = b / 4;
    let q3 = b / 8;
    let q4 = b / 16;
    let q5 = b / 32;
    let q6 = b / 64;
    let q7 = b / 128;
    assert(q2 == q1 / 2 && q3 == q2 / 2 && q4 == q3 / 2 && q5 == q4 / 2 && q6 == q5 / 2 && q7 == q6 / 2);
    assert(0 <= q7 < 2);
}

/// Packing undoes unpacking.
pub proof fn law_pack_after_unpack(bytes: Seq<u8>)
    ensures
        packed(unpacked(bytes)) == bytes,
{
    let bits = unpacked(bytes);
    assert forall|i: int| 0 <= i < bytes.len() implies packed(bits)[i] == bytes[i] by {
        let b = bytes[i] as int;
        lemma_byte_sum(b);
        lemma_unpacked_bit(bytes, i, 0);
        lemma_unpacked_bit(bytes, i, 1);
        lemma_unpacked_bit(bytes, i, 2);
        lemma_unpacked_bit(bytes, i, 3);
        lemma_unpacked_bit(bytes, i, 4);
        lemma_unpacked_bit(bytes, i, 5);
        lemma_unpacked_bit(bytes, i, 6);
        lemma_unpacked_bit(bytes, i, 7);
        assert(8 * i + 0 == 8 * i);
        assert(byte_at(bits, i) == 128 * (b / 128 % 2) + 64 * (b / 64 % 2) + 32 * (b / 32 % 2) + 16 * (b / 16 % 2)
            + 8 * (b / 8 % 2) + 4 * (b / 4 % 2) + 2 * (b / 2 % 2) + (b / 1 % 2));
        assert(b / 1 == b);
        assert(byte_at(bits, i) == b);
        assert(i < bits.len() / 8);
    }
    assert(packed(bits) =~= bytes);
}

proof fn lemma_unpacked_bit(bytes: Seq<u8>, i: int, k: int)
    requires
        0 <= i < bytes.len(),
        0 <= k < 8,
    ensures
        digit(unpacked(bytes)[8 * i + k]) == bytes[i] as int / bit_mask(k) as int % 2,
{
    assert((8 * i + k) / 8 == i && (8 * i + k) % 8 == k);
}

/// The byte that eight bits write, most significant first.
fn octet_of(bits: &[bool]) -> (r: u8)
    requires
        bits@.len() == 8,
    ensures
        r == octet(bits@[0], bits@[1], bits@[2], bits@[3], bits@[4], bits@[5], bits@[6], bits@[7]),
{
    let h1: u8 = shift_in(0, bits[0]);
    let h2: u8 = shift_in(h1, bits[1]);
    let h3: u8 = shift_in(h2, bits[2]);
    let h4: u8 = shift_in(h3, bits[3]);
    let h5: u8 = shift_in(h4, bits[4]);
    let h6: u8 = shift_in(h5, bits[5]);
    let h7: u8 = shift_in(h6, bits[6]);
    shift_in(h7, bits[7])
}

fn shift_in(acc: u8, b: bool) -> (r: u8)
    requires
        acc < 128,
    ensures
        r == 2 * acc + digit(b),
        0 <= digit(b) <= 1,
{
    if b {
        2 * acc + 1
    } else {
        2 * acc
    }
}

/// Packs bits into bytes, most significant bit first.
pub fn pack_bits_msb(bits: &[bool], bytes: &mut [u8])
    requires
        bits@.len() == 8 * old(bytes)@.len(),
    ensures
        final(bytes)@ == packed(bits@),
{
    let n: usize = bytes.len();
    let mut i: usize = 0;
    while i < n
        invariant
            i <= n,
            n == bytes@.len(),
            bits.len() == 8 * n,
            forall|k: int| 0 <= k < i ==> bytes@[k] == byte_at(bits@, k),
        decreases n - i,
    {
        let at: usize = i * 8;
        bytes[i] = octet_of(&bits[at..at + 8]);
        i += 1;
    }
    assert(bytes@ =~= packed(bits@));
}

// --- Synthesis ---------------------------------------------------------------

/// The magnitudes of a run of bits at 2 MS/s.
pub open spec fn synthesized(bits: Seq<bool>, high: u16, low: u16) -> Seq<u16> {
    Seq::new(
        2 * bits.len(),
        |i: int|
            if bits[i / 2] == (i % 2 == 0) {
                high
            } else {
                low
            },
    )
}

/// Slicing a synthesized stream gives back its bits, each with the confidence of
/// the pulse over the floor.
pub proof fn law_slice_after_synthesis(bits: Seq<bool>, high: u16, low: u16)
    requires
        high > low,
    ensures
        bits_at(2_000_000, synthesized(bits, high, low), bits.len()) == bits,
        forall|i: int|
            0 <= i < bits.len() ==> #[trigger] confidences_at(
                2_000_000,
                synthesized(bits, high, low),
                bits.len(),
            )[i] == (high - low) * 255 / (high + low),
{
    let s = synthesized(bits, high, low);
    assert forall|i: int| 0 <= i < bits.len() implies {
        &&& #[trigger] bits_at(2_000_000, s, bits.len())[i] == bits[i]
        &&& confidences_at(2_000_000, s, bits.len())[i] == (high - low) * 255 / (high + low)
    } by {
        law_native_rate(2 * i, 0);
        law_native_rate(2 * i + 1, 0);
        assert((2 * i) / 2 == i && (2 * i + 1) / 2 == i);
        lemma_confidence_range(high, low);
        lemma_confidence_range(low, high);
    }
    assert forall|i: int| 0 <= i < bits.len() implies #[trigger] confidences_at(
        2_000_000,
        s,
        bits.len(),
    )[i] == (high - low) * 255 / (high + low) by {
        assert(bits_at(2_000_000, s, bits.len())[i] == bits[i]);
    }
    assert(bits_at(2_000_000, s, bits.len()) =~= bits);
}

/// Encodes bits as magnitudes at 2 MS/s, `high` for a pulse and `low` for none.
pub fn synth_bits_as_magnitude(bits: &[bool], high: u16, low: u16, out: &mut [u16])
    requires
        old(out)@.len() == 2 * bits@.len(),
    ensures
        final(out)@ == synthesized(bits@, high, low),
{
    let n: usize = bits.len();
    let mut i: usize = 0;
    while i < n
        invariant
            i <= n,
            n == bits@.len(),
            out.len() == 2 * n,
            forall|k: int| 0 <= k < 2 * i ==> out@[k] == synthesized(bits@, high, low)[k],
        decreases n - i,
    {
        if bits[i] {
            out[i * 2] = high;
            out[i * 2 + 1] = low;
        } else {
            out[i * 2] = low;
            out[i * 2 + 1] = high;
        }
        i += 1;
    }
    assert(out@ =~= synthesized(bits@, high, low));
}

/// Fills a window with an ideal preamble.
pub fn synth_preamble(window: &mut [u16; PREAMBLE_SAMPLES], pulse: u16, floor: u16)
    ensures
        final(window)@ == ideal_preamble(pulse, floor),
{
    *window = [floor; 16];
    window[0] = pulse;
    window[2] = pulse;
    window[7] = pulse;
    window[9] = pulse;
    assert(window@ =~= ideal_preamble(pulse, floor));
}

// --- Laws of the slicer ------------------------------------------------------

/// At a multiple of 2 MS/s every slot begins at the same multiple, a bit lasts twice that
/// many samples and the preamble sixteen times.
pub proof fn law_multiple_of_native_rate(n: int, k: int, bits: int)
    requires
        1 <= n,
    ensures
        slot_sample(2_000_000 * n, k) == n * k,
        bit_span(2_000_000 * n, bits) == 2 * (n * bits),
        preamble_span(2_000_000 * n) == 16 * n,
{
    assert(k * (2_000_000 * n) == 2_000_000 * (n * k)) by (nonlinear_arith);
    assert(bits * (2_000_000 * n) == 2_000_000 * (n * bits)) by (nonlinear_arith);
    assert(15 * (2_000_000 * n) == 2_000_000 * (15 * n));
}

/// At any rate a slot begins at the last sample that is not later than its time, counted in
/// half microseconds, a run of bits takes the least number of samples that covers it, and
/// every slot of the preamble lies within it.
pub proof fn law_slots_keep_time(rate: int, k: int, bits: int)
    requires
        rate > 0,
        0 <= k,
        0 <= bits,
    ensures
        2_000_000 * slot_sample(rate, k) <= k * rate < 2_000_000 * slot_sample(rate, k) + 2_000_000,
        1_000_000 * bit_span(rate, bits) - 1_000_000 < bits * rate <= 1_000_000 * bit_span(rate, bits),
        k < 16 ==> slot_sample(rate, k) < preamble_span(rate),
        preamble_span(rate) > slot_sample(rate, 15) + 1 ==> 2_000_000 * preamble_span(rate) - 1_000_000 <= 16
            * rate <= 2_000_000 * preamble_span(rate) + 1_000_000,
{
    if k < 16 {
        assert(k * rate <= 15 * rate) by (nonlinear_arith)
            requires
                k <= 15,
                rate > 0,
        ;
    }
}

/// A window is taken for a preamble only where its four pulses outweigh its twelve gaps by
/// more than 16 times the noise floor.
pub proof fn law_preamble_stands_out(w: Seq<u16>, floor: u16)
    requires
        w.len() == 16,
    ensures
        clears_threshold(preamble_score_of(w), floor as int) <==> w[0] + w[2] + w[7] + w[9] > w[1] + w[3] + w[4]
            + w[5] + w[6] + w[8] + w[10] + w[11] + w[12] + w[13] + w[14] + w[15] + 16 * floor,
{
}

/// Of a pair of halves that differ one order is a one and the other a zero. A pair without a
/// pulse is a zero.
pub proof fn law_bit_is_where_the_pulse_is(s0: u16, s1: u16)
    ensures
        s0 > s1 ==> bit_of(s0, s1) && !bit_of(s1, s0),
        !bit_of(s0, s0),
{
}

/// The confidence of a pair is its imbalance over its sum, in whole 255ths, and does not
/// depend on the order. Silence has none.
pub proof fn law_confidence_is_imbalance(s0: u16, s1: u16)
    requires
        s0 >= s1,
    ensures
        confidence_of(s0, s1) == confidence_of(s1, s0),
        s0 == 0 ==> confidence_of(s0, s1) == 0,
        s0 > 0 ==> confidence_of(s0, s1) * (s0 + s1) <= 255 * (s0 - s1) < confidence_of(s0, s1) * (s0 + s1)
            + s0 + s1,
{
    if s0 > 0 {
        let t = s0 + s1;
        let x = (s0 - s1) * 255;
        vstd::arithmetic::div_mod::lemma_fundamental_div_mod(x, t);
        vstd::arithmetic::div_mod::lemma_mod_bound(x, t);
        assert(t * (x / t) == (x / t) * t) by (nonlinear_arith);
    }
}

/// How far the noise floor moves is in step with the sample, and it stands still only where
/// the sample is at its level.
pub proof fn law_floor_follows_samples(f: Floor, a: int, b: int)
    ensures
        f.next(a).shift == f.shift,
        f.next(a).acc - f.next(b).acc == a - b,
        a > f.level() ==> f.next(a).acc > f.acc,
        a < f.level() ==> f.next(a).acc < f.acc,
        a == f.level() ==> f.next(a) == f,
{
}

} // verus!

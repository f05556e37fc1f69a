//! Frame detection: from samples to validated frames.
//!
//! A [`FrameDetector`] takes samples in chunks, follows the noise floor, hunts for
//! preambles, slices bits and checks the CRC, and hands out [`Frame`]s.

use crate::crc::{self, CrcOutcome, LONG_FRAME_BYTES, SHORT_FRAME_BYTES};
use crate::crc::{check_of, crc24_of};
use crate::demod::{
    aggregate_confidence, pack_bits_msb, preamble_clears_threshold, preamble_score_cfg, slice_bits_cfg,
    DemodConfig, Floor, NoiseFloor,
};
use crate::demod::{
    bit_span, bits_at, byte_at, clears_threshold, confidence_of, confidences_at, digit, ideal_preamble,
    law_ideal_preamble_score, law_native_rate, law_pack_after_unpack, law_slice_after_synthesis, least,
    lemma_byte_bits, lemma_confidence_range, lemma_least, octet, packed, preamble_score_of, preamble_slots,
    preamble_span, synthesized, unpacked,
};
use crate::demod_2400::{is_clean_code, is_overlaid_code};
use crate::demod_2400::{self, scan_2400, validated, DemodResult, IcaoFilter, PREAMBLE_SAMPLES_2400};
use crate::magnitude::{self, amam_all};
use crate::Iq;
use vstd::prelude::*;

verus! {

// --- Downlink format ---------------------------------------------------------

/// Mode S downlink format, the high five bits of a frame's first byte.
#[derive(Debug, Clone, Copy, PartialEq, Eq, Structural)]
pub enum DownlinkFormat {
    /// DF 0: short air-to-air surveillance.
    ShortAcas,
    /// DF 4: altitude reply.
    AltitudeReply,
    /// DF 5: identity reply.
    IdentityReply,
    /// DF 11: all-call reply. The CRC is clean.
    AllCallReply,
    /// DF 16: long air-to-air surveillance.
    LongAcas,
    /// DF 17: extended squitter. The CRC is clean.
    ExtendedSquitter,
    /// DF 18: extended squitter of a non-transponder. The CRC is clean.
    TisB,
    /// DF 20: Comm-B altitude reply.
    CommBAltitude,
    /// DF 21: Comm-B identity reply.
    CommBIdentity,
    /// Any other code, kept for diagnostics.
    Reserved(u8),
}

impl DownlinkFormat {
    /// The format with a given code.
    pub open spec fn of_code(code: u8) -> DownlinkFormat {
        if code == 0 {
            DownlinkFormat::ShortAcas
        } else if code == 4 {
            DownlinkFormat::AltitudeReply
        } else if code == 5 {
            DownlinkFormat::IdentityReply
        } else if code == 11 {
            DownlinkFormat::AllCallReply
        } else if code == 16 {
            DownlinkFormat::LongAcas
        } else if code == 17 {
            DownlinkFormat::ExtendedSquitter
        } else if code == 18 {
            DownlinkFormat::TisB
        } else if code == 20 {
            DownlinkFormat::CommBAltitude
        } else if code == 21 {
            DownlinkFormat::CommBIdentity
        } else {
            DownlinkFormat::Reserved(code)
        }
    }

    /// The code of a format.
    pub open spec fn code(self) -> u8 {
        match self {
            DownlinkFormat::ShortAcas => 0,
            DownlinkFormat::AltitudeReply => 4,
            DownlinkFormat::IdentityReply => 5,
            DownlinkFormat::AllCallReply => 11,
            DownlinkFormat::LongAcas => 16,
            DownlinkFormat::ExtendedSquitter => 17,
            DownlinkFormat::TisB => 18,
            DownlinkFormat::CommBAltitude => 20,
            DownlinkFormat::CommBIdentity => 21,
            DownlinkFormat::Reserved(v) => v,
        }
    }

    /// Whether the code has its sixteens bit set, which marks a long frame.
    pub open spec fn is_long(self) -> bool {
        self.code() / 16 % 2 == 1
    }

    /// The bytes in a frame of this format.
    pub open spec fn length(self) -> nat {
        if self.is_long() {
            14
        } else {
            7
        }
    }

    /// Whether an intact frame of this format has syndrome zero.
    pub open spec fn clean_crc(self) -> bool {
        self == DownlinkFormat::AllCallReply || self == DownlinkFormat::ExtendedSquitter || self
            == DownlinkFormat::TisB
    }

    /// Parses the format from the first byte of a frame.
    #[must_use]
    pub fn from_first_byte(b: u8) -> (df: DownlinkFormat)
        ensures
            df == DownlinkFormat::of_code(b / 8),
    {
        let code: u8 = b / 8;
        match code {
            0 => DownlinkFormat::ShortAcas,
            4 => DownlinkFormat::AltitudeReply,
            5 => DownlinkFormat::IdentityReply,
            11 => DownlinkFormat::AllCallReply,
            16 => DownlinkFormat::LongAcas,
            17 => DownlinkFormat::ExtendedSquitter,
            18 => DownlinkFormat::TisB,
            20 => DownlinkFormat::CommBAltitude,
            21 => DownlinkFormat::CommBIdentity,
            other => DownlinkFormat::Reserved(other),
        }
    }

    /// Frame length in bytes.
    #[must_use]
    pub fn frame_bytes(self) -> (n: usize)
        ensures
            n == self.length(),
    {
        if self.raw_value() / 16 % 2 == 1 {
            LONG_FRAME_BYTES
        } else {
            SHORT_FRAME_BYTES
        }
    }

    /// The five-bit code as it appears on the wire.
    #[must_use]
    pub fn raw_value(self) -> (v: u8)
        ensures
            v == self.code(),
    {
        match self {
            DownlinkFormat::ShortAcas => 0,
            DownlinkFormat::AltitudeReply => 4,
            DownlinkFormat::IdentityReply => 5,
            DownlinkFormat::AllCallReply => 11,
            DownlinkFormat::LongAcas => 16,
            DownlinkFormat::ExtendedSquitter => 17,
            DownlinkFormat::TisB => 18,
            DownlinkFormat::CommBAltitude => 20,
            DownlinkFormat::CommBIdentity => 21,
            DownlinkFormat::Reserved(v) => v,
        }
    }

    /// Whether an intact frame of this format has syndrome zero: DF 11, 17, 18.
    /// The others combine the CRC with the aircraft address.
    #[must_use]
    pub fn has_clean_crc(self) -> (yes: bool)
        ensures
            yes == self.clean_crc(),
    {
        match self {
            DownlinkFormat::AllCallReply | DownlinkFormat::ExtendedSquitter | DownlinkFormat::TisB => true,
            _ => false,
        }
    }
}

/// The code of a parsed format is the one it was parsed from.
pub proof fn law_code_round_trips(code: u8)
    ensures
        DownlinkFormat::of_code(code).code() == code,
{
}

/// Frames are long exactly for the codes from 16 to 31.
pub proof fn law_length_follows_code(b: u8)
    ensures
        DownlinkFormat::of_code(b / 8).length() == (if b / 8 >= 16 {
            LONG_FRAME_BYTES as nat
        } else {
            SHORT_FRAME_BYTES as nat
        }),
{
}

// --- Frame -------------------------------------------------------------------

/// Maximum frame size in bytes.
pub const MAX_FRAME_BYTES: usize = 14;

/// What a frame holds.
pub struct FrameModel {
    pub bytes: Seq<u8>,
    pub df: DownlinkFormat,
    pub crc: CrcOutcome,
    pub confidence: u8,
}

impl FrameModel {
    /// The CRC was intact or has been repaired.
    pub open spec fn is_validated(self) -> bool {
        self.crc != CrcOutcome::Failed
    }
}

/// A demodulated Mode S frame.
#[derive(Debug, Clone, Copy, PartialEq, Eq)]
pub struct Frame {
    bytes: [u8; MAX_FRAME_BYTES],
    len: u8,
    df: DownlinkFormat,
    crc: CrcOutcome,
    confidence: u8,
}

impl View for Frame {
    type V = FrameModel;

    closed spec fn view(&self) -> FrameModel {
        FrameModel {
            bytes: self.bytes@.subrange(0, self.len as int),
            df: self.df,
            crc: self.crc,
            confidence: self.confidence,
        }
    }
}

impl Frame {
    /// The bytes behind the frame are zero, so that frames are equal when their contents
    /// are.
    #[verifier::type_invariant]
    closed spec fn valid(self) -> bool {
        &&& self.len == SHORT_FRAME_BYTES || self.len == LONG_FRAME_BYTES
        &&& forall|k: int| self.len <= k < MAX_FRAME_BYTES ==> self.bytes@[k] == 0
    }

    /// Byte payload of the frame; the last three bytes are the CRC, as corrected.
    #[must_use]
    pub fn bytes(&self) -> (b: &[u8])
        ensures
            b@ == self@.bytes,
            b@.len() == SHORT_FRAME_BYTES || b@.len() == LONG_FRAME_BYTES,
    {
        proof {
            use_type_invariant(self);
        }
        vstd::slice::slice_subrange(self.bytes.as_slice(), 0, self.len as usize)
    }

    /// The downlink format as received.
    #[must_use]
    pub fn downlink_format(&self) -> (df: DownlinkFormat)
        ensures
            df == self@.df,
    {
        self.df
    }

    /// The outcome of the CRC check.
    #[must_use]
    pub fn crc_outcome(&self) -> (c: CrcOutcome)
        ensures
            c == self@.crc,
    {
        self.crc
    }

    /// Whether the CRC was intact or has been repaired.
    #[must_use]
    pub fn is_validated(&self) -> (yes: bool)
        ensures
            yes == self@.is_validated(),
    {
        match self.crc {
            CrcOutcome::Failed => false,
            _ => true,
        }
    }

    /// The least of the per-bit confidences.
    #[must_use]
    pub fn confidence(&self) -> (c: u8)
        ensures
            c == self@.confidence,
    {
        self.confidence
    }

    /// Length in bytes.
    #[must_use]
    pub fn len(&self) -> (n: usize)
        ensures
            n == self@.bytes.len(),
            n == SHORT_FRAME_BYTES || n == LONG_FRAME_BYTES,
    {
        proof {
            use_type_invariant(self);
        }
        self.len as usize
    }

    /// Whether the frame has no bytes, which no frame has.
    #[must_use]
    pub fn is_empty(&self) -> (yes: bool)
        ensures
            !yes,
            yes == (self@.bytes.len() == 0),
    {
        proof {
            use_type_invariant(self);
        }
        self.len == 0
    }

    /// Builds a frame from its bytes. Nothing is corrected, and the confidence is
    /// the highest.
    #[must_use]
    pub fn from_bytes(bytes: &[u8]) -> (f: Frame)
        requires
            bytes@.len() == SHORT_FRAME_BYTES || bytes@.len() == LONG_FRAME_BYTES,
        ensures
            f@ == (FrameModel {
                bytes: bytes@,
                df: DownlinkFormat::of_code(bytes@[0] / 8),
                crc: if crc24_of(bytes@) == 0 {
                    CrcOutcome::Clean
                } else {
                    CrcOutcome::Failed
                },
                confidence: 255,
            }),
    {
        let df = DownlinkFormat::from_first_byte(bytes[0]);
        let crc = if crc::crc24(bytes) == 0 {
            CrcOutcome::Clean
        } else {
            CrcOutcome::Failed
        };
        Frame::assemble(bytes, df, crc, 255)
    }

    /// Puts a frame together from its parts.
    pub(crate) fn assemble(bytes: &[u8], df: DownlinkFormat, crc: CrcOutcome, confidence: u8) -> (f: Frame)
        requires
            bytes@.len() == SHORT_FRAME_BYTES || bytes@.len() == LONG_FRAME_BYTES,
        ensures
            f@ == (FrameModel { bytes: bytes@, df, crc, confidence }),
    {
        let n: usize = bytes.len();
        let mut buf: [u8; MAX_FRAME_BYTES] = [0; MAX_FRAME_BYTES];
        let mut i: usize = 0;
        while i < n
            invariant
                i <= n <= 14,
                n == bytes@.len(),
                forall|k: int| 0 <= k < i ==> buf@[k] == bytes@[k],
                forall|k: int| n <= k < MAX_FRAME_BYTES ==> buf@[k] == 0,
            decreases n - i,
        {
            buf[i] = bytes[i];
            i += 1;
        }
        assert(buf@.subrange(0, n as int) =~= bytes@);
        Frame { bytes: buf, len: n as u8, df, crc, confidence }
    }
}

/// The contents of a run of frames.
pub open spec fn contents(frames: Seq<Frame>) -> Seq<FrameModel> {
    Seq::new(frames.len(), |i: int| frames[i]@)
}

// --- Detection ---------------------------------------------------------------

/// What a position in the magnitudes turns out to be.
pub enum Step {
    /// No frame here; the next position to try is this many samples on.
    Skip(int),
    /// A frame, and the samples it takes with its preamble.
    Found(FrameModel, int),
    /// A frame whose samples have not all arrived.
    Incomplete,
}

/// The downlink format that five bits write.
pub open spec fn format_of_bits(bits: Seq<bool>) -> DownlinkFormat {
    DownlinkFormat::of_code((octet(bits[0], bits[1], bits[2], bits[3], bits[4], false, false, false) / 8) as u8)
}

/// The frame whose payload samples are given.
pub open spec fn frame_of_payload(rate: int, df: DownlinkFormat, payload: Seq<u16>) -> FrameModel {
    let (crc, bytes) = validated(df, packed(bits_at(rate, payload, 8 * df.length())));
    FrameModel { bytes, df, crc, confidence: least(confidences_at(rate, payload, 8 * df.length())) }
}

/// What position `i` turns out to be over a noise floor of `level`.
#[verifier::opaque]
pub open spec fn step_at(rate: int, level: int, buf: Seq<u16>, i: int) -> Step {
    let start = i + preamble_span(rate);
    let score = preamble_score_of(preamble_slots(rate, buf.subrange(i, start)));
    let df = format_of_bits(bits_at(rate, buf.subrange(start, start + bit_span(rate, 5)), 5));
    let span = bit_span(rate, 8 * df.length() as int);
    if !clears_threshold(score, level) {
        Step::Skip(1)
    } else if df is Reserved {
        Step::Skip(preamble_span(rate))
    } else if start + span > buf.len() {
        Step::Incomplete
    } else {
        Step::Found(frame_of_payload(rate, df, buf.subrange(start, start + span)), preamble_span(rate) + span)
    }
}

/// What a scan leaves behind.
pub struct Scan {
    pub frames: Seq<FrameModel>,
    pub floor: Floor,
    /// The position at which the scan stopped.
    pub at: int,
}

/// The least number of samples that must follow a position for it to be tried: a
/// preamble and a short frame.
pub open spec fn detection_window(rate: int) -> int {
    preamble_span(rate) + bit_span(rate, 56)
}

/// Whether a frame is passed on: it has enough confidence, and its CRC has not failed
/// where its format has a clean one. Of the formats whose CRC is combined with an
/// address, every frame is, for whoever knows the addresses.
pub open spec fn passes(frame: FrameModel, min_confidence: u8) -> bool {
    frame.confidence >= min_confidence && (frame.crc != CrcOutcome::Failed || !frame.df.clean_crc())
}

/// The frame, if it is passed on.
pub open spec fn kept(frame: FrameModel, min_confidence: u8) -> Seq<FrameModel> {
    if passes(frame, min_confidence) {
        seq![frame]
    } else {
        Seq::empty()
    }
}

/// The scan of the magnitudes from `i` on. The noise floor takes in the sample at
/// every position tried.
pub open spec fn scan(rate: int, min_confidence: u8, floor: Floor, buf: Seq<u16>, i: int) -> Scan
    decreases
        (if i < buf.len() {
            buf.len() - i
        } else {
            0
        }),
    via lemma_scan_advances
{
    if rate <= 0 || i < 0 || i + detection_window(rate) > buf.len() {
        Scan { frames: Seq::empty(), floor, at: i }
    } else {
        let next = floor.next(buf[i] as int);
        match step_at(rate, next.level(), buf, i) {
            Step::Skip(n) => scan(rate, min_confidence, next, buf, i + n),
            Step::Found(frame, n) => {
                let rest = scan(rate, min_confidence, next, buf, i + n);
                Scan { frames: kept(frame, min_confidence) + rest.frames, ..rest }
            },
            Step::Incomplete => Scan { frames: Seq::empty(), floor: next, at: i },
        }
    }
}

#[via_fn]
proof fn lemma_scan_advances(rate: int, min_confidence: u8, floor: Floor, buf: Seq<u16>, i: int) {
    if rate > 0 && i >= 0 && i + detection_window(rate) <= buf.len() {
        lemma_step_bounds(rate, floor.next(buf[i] as int).level(), buf, i);
    }
}

/// Every step advances, and none past the end.
proof fn lemma_step_bounds(rate: int, level: int, buf: Seq<u16>, i: int)
    requires
        rate > 0,
        0 <= i,
        i + detection_window(rate) <= buf.len(),
    ensures
        match step_at(rate, level, buf, i) {
            Step::Skip(n) => 0 < n && i + n <= buf.len(),
            Step::Found(frame, n) => 0 < n && i + n <= buf.len(),
            Step::Incomplete => buf.len() - i < preamble_span(rate) + bit_span(rate, 112),
        },
        preamble_span(rate) > 0,
{
    reveal(step_at);
}

/// The samples that a detector can carry over between chunks: a preamble and a
/// long frame, rounded up to a multiple of 64.
pub open spec fn carry_capacity(rate: int) -> int {
    (preamble_span(rate) + bit_span(rate, 112) + 63) / 64 * 64
}

/// What a detector remembers between chunks.
pub struct DetectorModel {
    pub rate: int,
    pub min_confidence: u8,
    pub floor: Floor,
    /// CRCs of the addresses heard so far; used at 2.4 MS/s.
    pub known: Set<u32>,
    /// Magnitudes carried over.
    pub carry: Seq<u16>,
}

impl DetectorModel {
    /// The magnitudes to scan when a chunk arrives.
    pub open spec fn buffer(self, samples: Seq<Iq>) -> Seq<u16> {
        self.carry + amam_all(samples)
    }

    /// The detector after a chunk, and the frames found in it.
    pub open spec fn fed(self, samples: Seq<Iq>) -> (DetectorModel, Seq<FrameModel>) {
        let buf = self.buffer(samples);
        if self.rate == 2_400_000 {
            let s = scan_2400(self.known, self.min_confidence, self.floor, buf, 0, 0);
            let rest = buf.len() - s.consumed;
            let keep = if rest <= carry_capacity(self.rate) {
                rest
            } else {
                carry_capacity(self.rate)
            };
            (
                DetectorModel { floor: s.floor, known: s.known, carry: buf.skip(buf.len() - keep), ..self },
                s.frames,
            )
        } else {
            let s = scan(self.rate, self.min_confidence, self.floor, buf, 0);
            (DetectorModel { floor: s.floor, carry: buf.skip(s.at), ..self }, s.frames)
        }
    }
}

/// A scan stops within the magnitudes, and leaves no more of them than can be
/// carried over.
pub proof fn lemma_scan_stop(rate: int, min_confidence: u8, floor: Floor, buf: Seq<u16>, i: int)
    requires
        rate > 0,
        0 <= i <= buf.len(),
    ensures
        i <= scan(rate, min_confidence, floor, buf, i).at <= buf.len(),
        buf.len() - scan(rate, min_confidence, floor, buf, i).at <= carry_capacity(rate),
    decreases buf.len() - i,
{
    if i + detection_window(rate) <= buf.len() {
        let next = floor.next(buf[i] as int);
        lemma_step_bounds(rate, next.level(), buf, i);
        match step_at(rate, next.level(), buf, i) {
            Step::Skip(n) => lemma_scan_stop(rate, min_confidence, next, buf, i + n),
            Step::Found(frame, n) => lemma_scan_stop(rate, min_confidence, next, buf, i + n),
            Step::Incomplete => {},
        }
    }
}

// --- Laws --------------------------------------------------------------------

/// The code of a format tells everything about it: those of 16 and above are long, 11, 17
/// and 18 have a clean CRC, and besides these only 0, 4, 5, 16, 20 and 21 are in use.
pub proof fn law_code_tells_format(code: u8)
    requires
        code < 32,
    ensures
        ({
            let df = DownlinkFormat::of_code(code);
            &&& df.length() == if code >= 16 {
                14nat
            } else {
                7nat
            }
            &&& df.clean_crc() <==> code == 11 || code == 17 || code == 18
            &&& df is Reserved <==> !(code == 11 || code == 17 || code == 18 || code == 0 || code == 4 || code == 5
                || code == 16 || code == 20 || code == 21)
        }),
{
}

/// A transmission that stands out by enough over the noise floor is found, with
/// the bytes that were sent, the CRC outcome they deserve, and the confidence of
/// its pulses over its gaps.
pub proof fn law_finds_transmission(level: int, buf: Seq<u16>, i: int, sent: Seq<u8>, pulse: u16, low: u16)
    requires
        0 <= i,
        pulse > low,
        4 * pulse - 12 * low > 16 * level,
        sent.len() == DownlinkFormat::of_code(sent[0] / 8).length(),
        !(DownlinkFormat::of_code(sent[0] / 8) is Reserved),
        i + 16 + 16 * sent.len() <= buf.len(),
        buf.subrange(i, i + 16) == ideal_preamble(pulse, low),
        buf.subrange(i + 16, i + 16 + 16 * sent.len()) == synthesized(unpacked(sent), pulse, low),
    ensures
        ({
            let df = DownlinkFormat::of_code(sent[0] / 8);
            let (crc, bytes) = validated(df, sent);
            let confidence = ((pulse - low) * 255 / (pulse + low)) as u8;
            step_at(2_000_000, level, buf, i) == Step::Found(
                FrameModel { bytes, df, crc, confidence },
                16 + 16 * sent.len() as int,
            )
        }),
{
    reveal(step_at);
    let rate = 2_000_000int;
    let df = DownlinkFormat::of_code(sent[0] / 8);
    let n = sent.len();
    let bits = unpacked(sent);
    let payload = synthesized(bits, pulse, low);
    law_native_rate(0, 5);
    law_native_rate(0, 8 * n as int);
    law_ideal_preamble_score(pulse, low);
    let start = i + 16;
    assert(preamble_slots(rate, buf.subrange(i, start)) =~= ideal_preamble(pulse, low)) by {
        assert forall|k: int| 0 <= k < 16 implies preamble_slots(rate, buf.subrange(i, start))[k]
            == ideal_preamble(pulse, low)[k] by {
            law_native_rate(k, 0);
        }
    }
    law_slice_after_synthesis(bits, pulse, low);
    law_pack_after_unpack(sent);
    // The first five bits are those of the whole payload.
    let prefix = buf.subrange(start, start + bit_span(rate, 5));
    let five = bits_at(rate, prefix, 5);
    assert forall|k: int| 0 <= k < 5 implies five[k] == bits[k] by {
        law_native_rate(2 * k, 0);
        law_native_rate(2 * k + 1, 0);
        assert(prefix[2 * k] == payload[2 * k]);
        assert(prefix[2 * k + 1] == payload[2 * k + 1]);
        assert(bits_at(rate, payload, bits.len())[k] == bits[k]);
    }
    lemma_leading_bits(sent);
    assert(format_of_bits(five) == df);
    assert(buf.subrange(start, start + bit_span(rate, 8 * n as int)) == payload);
    // All bits have the same confidence.
    let conf = confidences_at(rate, payload, 8 * n);
    lemma_least(conf);
    let w = choose|k: int| 0 <= k < conf.len() && conf[k] == least(conf);
    assert(conf[w] == (pulse - low) * 255 / (pulse + low));
}

/// A scan passes a transmission on that stands out by enough over the noise floor and is
/// clear enough. Of formats 11, 17 and 18 that is an intact message, as it was sent, or one
/// with a single bit received wrong, repaired. Of formats 0, 4, 5, 16, 20 and 21, whose CRC
/// is combined with an address, it is every message, as it came.
pub proof fn law_transmission_is_passed_on(
    min_confidence: u8,
    floor: Floor,
    buf: Seq<u16>,
    i: int,
    sent: Seq<u8>,
    received: Seq<u8>,
    bit: int,
    pulse: u16,
    low: u16,
)
    requires
        0 <= i,
        pulse > low,
        4 * pulse - 12 * low > 16 * floor.next(buf[i] as int).level(),
        (pulse - low) * 255 / (pulse + low) >= min_confidence,
        sent.len() == if sent[0] / 8 >= 16 {
            14nat
        } else {
            7nat
        },
        ({
            let code = sent[0] / 8;
            ||| is_clean_code(code) && crc24_of(sent) == 0 && received == sent
            // The code of the format is not hit.
            ||| is_clean_code(code) && crc24_of(sent) == 0 && 5 <= bit < 8 * sent.len() && received
                == crc::flip_bit(sent, bit)
            ||| is_overlaid_code(code) && received == sent
        }),
        i + 16 + 16 * sent.len() <= buf.len(),
        buf.subrange(i, i + 16) == ideal_preamble(pulse, low),
        buf.subrange(i + 16, i + 16 + 16 * sent.len()) == synthesized(unpacked(received), pulse, low),
    ensures
        ({
            let all = scan(2_000_000, min_confidence, floor, buf, i).frames;
            let later = scan(
                2_000_000,
                min_confidence,
                floor.next(buf[i] as int),
                buf,
                i + 16 + 16 * sent.len(),
            ).frames;
            let f = all[0];
            &&& all.len() == 1 + later.len()
            &&& all.skip(1) == later
            &&& f.bytes == sent
            &&& f.df.code() == sent[0] / 8
            &&& f.confidence == (pulse - low) * 255 / (pulse + low)
            &&& f.crc == if is_overlaid_code(sent[0] / 8) {
                CrcOutcome::Failed
            } else if received == sent {
                CrcOutcome::Clean
            } else {
                CrcOutcome::Corrected { bit: bit as u16 }
            }
        }),
{
    let next = floor.next(buf[i] as int);
    let code = sent[0] / 8;
    let df = DownlinkFormat::of_code(code);
    law_code_tells_format(code);
    law_code_round_trips(code);
    law_native_rate(0, 56);
    if received != sent {
        demod_2400::lemma_flip_keeps_code(sent, bit);
        let (o, after) = check_of(received);
        demod_2400::lemma_check_is_checked(received);
        crc::law_single_bit_error_is_repaired(sent, bit, o, after);
    }
    assert(received[0] / 8 == code && received.len() == sent.len());
    law_finds_transmission(next.level(), buf, i, received, pulse, low);
    let (crc, bytes) = validated(df, received);
    let c = (pulse - low) * 255 / (pulse + low);
    assert(0 <= c <= 255) by (nonlinear_arith)
        requires
            c == (pulse - low) * 255 / (pulse + low),
            pulse > low,
    ;
    let frame = FrameModel { bytes, df, crc, confidence: c as u8 };
    let n = 16 + 16 * sent.len() as int;
    assert(step_at(2_000_000, next.level(), buf, i) == Step::Found(frame, n));
    let all = scan(2_000_000, min_confidence, floor, buf, i).frames;
    let later = scan(2_000_000, min_confidence, next, buf, i + n).frames;
    assert(all == kept(frame, min_confidence) + later);
    assert(kept(frame, min_confidence) == seq![frame]);
    assert(all.skip(1) =~= later);
}

/// Where no preamble clears the threshold the scan moves on by one sample, and where the
/// format is one that is not in use it moves on behind the preamble. The noise floor takes
/// in the one sample at the position.
pub proof fn law_scan_moves_on(rate: int, min_confidence: u8, floor: Floor, buf: Seq<u16>, i: int)
    requires
        rate > 0,
        0 <= i,
        i + detection_window(rate) <= buf.len(),
    ensures
        ({
            let next = floor.next(buf[i] as int);
            let start = i + preamble_span(rate);
            let code = format_of_bits(bits_at(rate, buf.subrange(start, start + bit_span(rate, 5)), 5)).code();
            let here = scan(rate, min_confidence, floor, buf, i);
            &&& score_at(rate, buf, i) <= 16 * next.level() ==> here == scan(rate, min_confidence, next, buf, i + 1)
            &&& score_at(rate, buf, i) > 16 * next.level() && !is_clean_code(code) && !is_overlaid_code(code)
                ==> here == scan(rate, min_confidence, next, buf, start)
        }),
{
    reveal(step_at);
    let start = i + preamble_span(rate);
    let five = bits_at(rate, buf.subrange(start, start + bit_span(rate, 5)), 5);
    let raw = (octet(five[0], five[1], five[2], five[3], five[4], false, false, false) / 8) as u8;
    assert(raw < 32);
    law_code_tells_format(raw);
    law_code_round_trips(raw);
}

/// A frame at 2 MS/s is as certain as the least certain of its bits.
pub proof fn law_frame_is_as_certain_as_its_bits(level: int, buf: Seq<u16>, i: int, k: int)
    requires
        0 <= i,
        i + detection_window(2_000_000) <= buf.len(),
        step_at(2_000_000, level, buf, i) is Found,
        0 <= k < 8 * step_at(2_000_000, level, buf, i)->Found_0.df.length(),
    ensures
        ({
            let frame = step_at(2_000_000, level, buf, i)->Found_0;
            let bits = 8 * frame.df.length();
            &&& frame.confidence <= confidence_of(buf[i + 16 + 2 * k], buf[i + 17 + 2 * k])
            &&& exists|w: int|
                0 <= w < bits && frame.confidence == #[trigger] confidence_of(
                    buf[i + 16 + 2 * w],
                    buf[i + 17 + 2 * w],
                )
        }),
{
    reveal(step_at);
    let rate = 2_000_000int;
    let frame = step_at(rate, level, buf, i)->Found_0;
    let n = 8 * frame.df.length();
    law_native_rate(0, n as int);
    let start = i + 16;
    let payload = buf.subrange(start, start + 2 * n);
    let conf = confidences_at(rate, payload, n);
    lemma_least(conf);
    assert forall|q: int| 0 <= q < n implies #[trigger] conf[q] == confidence_of(
        buf[i + 16 + 2 * q],
        buf[i + 17 + 2 * q],
    ) by {
        law_native_rate(2 * q, 0);
        law_native_rate(2 * q + 1, 0);
        assert(payload[2 * q] == buf[i + 16 + 2 * q]);
        assert(payload[2 * q + 1] == buf[i + 17 + 2 * q]);
        lemma_confidence_range(payload[2 * q], payload[2 * q + 1]);
    }
    assert(conf[k] == confidence_of(buf[i + 16 + 2 * k], buf[i + 17 + 2 * k]));
    let w = choose|w: int| 0 <= w < conf.len() && conf[w] == least(conf);
    assert(conf[w] == confidence_of(buf[i + 16 + 2 * w], buf[i + 17 + 2 * w]));
}

/// At 2.4 MS/s a sender is known from its first valid frame on, in later chunks too, and
/// none is ever forgotten.
pub proof fn law_senders_stay_known(d: DetectorModel, a: Seq<Iq>, i: int)
    requires
        d.rate == 2_400_000,
        0 <= i < d.fed(a).1.len(),
    ensures
        ({
            let (after, frames) = d.fed(a);
            &&& d.known.subset_of(after.known)
            &&& frames[i].crc != CrcOutcome::Failed ==> after.known.contains(
                crc24_of(seq![frames[i].bytes[1], frames[i].bytes[2], frames[i].bytes[3]]),
            )
        }),
{
    let buf = d.buffer(a);
    demod_2400::lemma_known_grows(d.known, d.min_confidence, d.floor, buf, 0, 0);
    demod_2400::law_senders_become_known(d.known, d.min_confidence, d.floor, buf, 0, 0, i);
}

/// The leading five bits of a message write its downlink format.
proof fn lemma_leading_bits(sent: Seq<u8>)
    requires
        sent.len() > 0,
    ensures
        ({
            let b = unpacked(sent);
            octet(b[0], b[1], b[2], b[3], b[4], false, false, false) / 8 == sent[0] / 8
        }),
{
    law_pack_after_unpack(sent);
    let b = unpacked(sent);
    lemma_byte_bits(b, 0, 0);
    assert(packed(b)[0] == sent[0]);
    let high = 16 * digit(b[0]) + 8 * digit(b[1]) + 4 * digit(b[2]) + 2 * digit(b[3]) + digit(b[4]);
    let low = 4 * digit(b[5]) + 2 * digit(b[6]) + digit(b[7]);
    assert(0 <= low < 8);
    assert(byte_at(b, 0) == 8 * high + low);
    assert(octet(b[0], b[1], b[2], b[3], b[4], false, false, false) == 8 * high);
}

/// Every frame passed on has at least the required confidence. One whose format has a
/// clean CRC is intact or repaired, and such a frame has syndrome zero.
pub proof fn law_scan_is_validated(rate: int, min_confidence: u8, floor: Floor, buf: Seq<u16>, i: int, k: int)
    requires
        rate > 0,
        0 <= k < scan(rate, min_confidence, floor, buf, i).frames.len(),
    ensures
        ({
            let f = scan(rate, min_confidence, floor, buf, i).frames[k];
            &&& f.confidence >= min_confidence
            &&& f.bytes.len() == f.df.length()
            &&& f.crc != CrcOutcome::Failed ==> f.df.clean_crc() && crc24_of(f.bytes) == 0
            &&& f.df.clean_crc() ==> f.crc != CrcOutcome::Failed
            &&& !(f.df is Reserved)
        }),
    decreases (if i < buf.len() { buf.len() - i } else { 0 }),
{
    let next = floor.next(buf[i] as int);
    lemma_step_bounds(rate, next.level(), buf, i);
    match step_at(rate, next.level(), buf, i) {
        Step::Skip(n) => law_scan_is_validated(rate, min_confidence, next, buf, i + n, k),
        Step::Found(frame, n) => {
            let rest = scan(rate, min_confidence, next, buf, i + n);
            let here = kept(frame, min_confidence);
            reveal(step_at);
            if k >= here.len() {
                law_scan_is_validated(rate, min_confidence, next, buf, i + n, k - here.len());
                assert((here + rest.frames)[k] == rest.frames[k - here.len()]);
            } else {
                assert((here + rest.frames)[k] == frame);
            }
        },
        Step::Incomplete => {},
    }
}

/// A step that does not wait for more samples looks at none beyond those it has.
#[verifier::rlimit(40)]
proof fn lemma_step_on_prefix(rate: int, level: int, buf: Seq<u16>, ext: Seq<u16>, i: int)
    requires
        rate > 0,
        0 <= i,
        i + detection_window(rate) <= buf.len() <= ext.len(),
        buf == ext.take(buf.len() as int),
        !(step_at(rate, level, buf, i) is Incomplete),
    ensures
        step_at(rate, level, ext, i) == step_at(rate, level, buf, i),
{
    reveal(step_at);
    let start = i + preamble_span(rate);
    assert(buf.subrange(i, start) =~= ext.subrange(i, start));
    assert(bit_span(rate, 5) <= bit_span(rate, 56));
    let p = start + bit_span(rate, 5);
    assert(buf.subrange(start, p) =~= ext.subrange(start, p));
    let df = format_of_bits(bits_at(rate, buf.subrange(start, p), 5));
    let end = start + bit_span(rate, 8 * df.length() as int);
    if end <= buf.len() {
        assert(buf.subrange(start, end) =~= ext.subrange(start, end));
    }
}

/// A step looks at nothing before its position.
#[verifier::rlimit(40)]
proof fn lemma_step_shift(rate: int, level: int, buf: Seq<u16>, d: int, i: int)
    requires
        rate > 0,
        0 <= d <= buf.len(),
        0 <= i,
        d + i + detection_window(rate) <= buf.len(),
    ensures
        step_at(rate, level, buf.skip(d), i) == step_at(rate, level, buf, d + i),
{
    reveal(step_at);
    let cut = buf.skip(d);
    let start = i + preamble_span(rate);
    assert(cut.subrange(i, start) =~= buf.subrange(d + i, d + start));
    assert(bit_span(rate, 5) <= bit_span(rate, 56));
    let p = start + bit_span(rate, 5);
    assert(cut.subrange(start, p) =~= buf.subrange(d + start, d + p));
    let df = format_of_bits(bits_at(rate, cut.subrange(start, p), 5));
    let end = start + bit_span(rate, 8 * df.length() as int);
    if d + end <= buf.len() {
        assert(cut.subrange(start, end) =~= buf.subrange(d + start, d + end));
    }
}

proof fn lemma_scan_shift(rate: int, min_confidence: u8, floor: Floor, buf: Seq<u16>, d: int, i: int)
    requires
        rate > 0,
        0 <= d <= buf.len(),
        0 <= i,
        d + i <= buf.len(),
    ensures
        ({
            let a = scan(rate, min_confidence, floor, buf.skip(d), i);
            let b = scan(rate, min_confidence, floor, buf, d + i);
            &&& a.frames == b.frames
            &&& a.floor == b.floor
            &&& a.at + d == b.at
        }),
    decreases buf.len() - d - i,
{
    if d + i + detection_window(rate) <= buf.len() {
        let next = floor.next(buf[d + i] as int);
        assert(buf.skip(d)[i] == buf[d + i]);
        lemma_step_shift(rate, next.level(), buf, d, i);
        lemma_step_bounds(rate, next.level(), buf, d + i);
        match step_at(rate, next.level(), buf, d + i) {
            Step::Skip(n) => lemma_scan_shift(rate, min_confidence, next, buf, d, i + n),
            Step::Found(frame, n) => lemma_scan_shift(rate, min_confidence, next, buf, d, i + n),
            Step::Incomplete => {},
        }
    }
}

/// A scan that does not stop inside a frame can be resumed where it stopped, once
/// more samples have arrived.
proof fn lemma_scan_resume(
    rate: int,
    min_confidence: u8,
    floor: Floor,
    buf: Seq<u16>,
    ext: Seq<u16>,
    i: int,
)
    requires
        rate > 0,
        0 <= i <= buf.len() <= ext.len(),
        buf == ext.take(buf.len() as int),
        scan(rate, min_confidence, floor, buf, i).at + detection_window(rate) > buf.len(),
    ensures
        ({
            let first = scan(rate, min_confidence, floor, buf, i);
            let second = scan(rate, min_confidence, first.floor, ext, first.at);
            let whole = scan(rate, min_confidence, floor, ext, i);
            &&& whole.frames == first.frames + second.frames
            &&& whole.floor == second.floor
            &&& whole.at == second.at
        }),
    decreases buf.len() - i,
{
    let first = scan(rate, min_confidence, floor, buf, i);
    let second = scan(rate, min_confidence, first.floor, ext, first.at);
    if i + detection_window(rate) <= buf.len() {
        let next = floor.next(buf[i] as int);
        lemma_step_bounds(rate, next.level(), buf, i);
        assert(buf[i] == ext[i]);
        match step_at(rate, next.level(), buf, i) {
            Step::Skip(n) => {
                lemma_step_on_prefix(rate, next.level(), buf, ext, i);
                lemma_scan_resume(rate, min_confidence, next, buf, ext, i + n);
            },
            Step::Found(frame, n) => {
                lemma_step_on_prefix(rate, next.level(), buf, ext, i);
                lemma_scan_resume(rate, min_confidence, next, buf, ext, i + n);
                let rest = scan(rate, min_confidence, next, buf, i + n);
                let here = kept(frame, min_confidence);
                assert(here + (rest.frames + second.frames) =~= (here + rest.frames) + second.frames);
            },
            Step::Incomplete => {},
        }
    } else {
        assert(first.frames + second.frames =~= second.frames);
    }
}

/// Where a stream is cut into chunks does not matter: feeding two chunks gives the
/// same frames, and leaves the detector in the same state, as feeding them in one
/// piece. The first chunk must not end inside a frame whose preamble has already
/// been accepted, for the noise floor takes in the sample at that position again.
pub proof fn law_chunks_join(d: DetectorModel, a: Seq<Iq>, b: Seq<Iq>)
    requires
        d.rate > 0,
        d.rate != 2_400_000,
        d.fed(a).0.carry.len() < detection_window(d.rate),
    ensures
        d.fed(a).0.fed(b).0 == d.fed(a + b).0,
        d.fed(a).1 + d.fed(a).0.fed(b).1 == d.fed(a + b).1,
{
    let buf = d.buffer(a);
    let ext = d.buffer(a + b);
    assert(amam_all(a + b) =~= amam_all(a) + amam_all(b));
    assert(ext =~= buf + amam_all(b));
    assert(buf =~= ext.take(buf.len() as int));
    lemma_scan_stop(d.rate, d.min_confidence, d.floor, buf, 0);
    let first = scan(d.rate, d.min_confidence, d.floor, buf, 0);
    lemma_scan_resume(d.rate, d.min_confidence, d.floor, buf, ext, 0);
    lemma_scan_shift(d.rate, d.min_confidence, first.floor, ext, first.at, 0);
    let mid = d.fed(a).0;
    assert(mid.buffer(b) =~= ext.skip(first.at));
    let second = scan(d.rate, d.min_confidence, first.floor, mid.buffer(b), 0);
    lemma_scan_stop(d.rate, d.min_confidence, first.floor, mid.buffer(b), 0);
    let whole = scan(d.rate, d.min_confidence, d.floor, ext, 0);
    assert(ext.skip(first.at).skip(second.at) =~= ext.skip(whole.at));
}

/// A scan that stops with samples enough for a short frame has accepted a preamble, and
/// waits for the rest of a long one.
proof fn lemma_scan_waits(rate: int, min_confidence: u8, floor: Floor, buf: Seq<u16>, i: int)
    requires
        rate > 0,
        0 <= i <= buf.len(),
        scan(rate, min_confidence, floor, buf, i).at + detection_window(rate) <= buf.len(),
    ensures
        ({
            let s = scan(rate, min_confidence, floor, buf, i);
            &&& i <= s.at
            &&& step_at(rate, s.floor.level(), buf, s.at) is Incomplete
        }),
    decreases buf.len() - i,
{
    if i + detection_window(rate) <= buf.len() {
        let next = floor.next(buf[i] as int);
        lemma_step_bounds(rate, next.level(), buf, i);
        match step_at(rate, next.level(), buf, i) {
            Step::Skip(n) => lemma_scan_waits(rate, min_confidence, next, buf, i + n),
            Step::Found(frame, n) => lemma_scan_waits(rate, min_confidence, next, buf, i + n),
            Step::Incomplete => {},
        }
    }
}

/// The score of the preamble at a position.
pub open spec fn score_at(rate: int, buf: Seq<u16>, i: int) -> int {
    preamble_score_of(preamble_slots(rate, buf.subrange(i, i + preamble_span(rate))))
}

/// Once its samples are there, a frame is found over any floor that its preamble clears.
#[verifier::rlimit(40)]
proof fn lemma_step_completes(rate: int, level: int, other: int, buf: Seq<u16>, ext: Seq<u16>, i: int)
    requires
        rate > 0,
        0 <= i,
        i + detection_window(rate) <= buf.len() <= ext.len(),
        buf == ext.take(buf.len() as int),
        step_at(rate, level, buf, i) is Incomplete,
        i + preamble_span(rate) + bit_span(rate, 112) <= ext.len(),
        clears_threshold(score_at(rate, ext, i), other),
    ensures
        step_at(rate, level, ext, i) is Found,
        step_at(rate, other, ext, i) == step_at(rate, level, ext, i),
{
    reveal(step_at);
    let start = i + preamble_span(rate);
    assert(buf.subrange(i, start) =~= ext.subrange(i, start));
    assert(bit_span(rate, 5) <= bit_span(rate, 56) <= bit_span(rate, 112));
    let p = start + bit_span(rate, 5);
    assert(buf.subrange(start, p) =~= ext.subrange(start, p));
}

/// The first step of a scan, when it finds a frame.
proof fn lemma_scan_begins(rate: int, min_confidence: u8, floor: Floor, buf: Seq<u16>, frame: FrameModel, n: int)
    requires
        rate > 0,
        detection_window(rate) <= buf.len(),
        step_at(rate, floor.next(buf[0] as int).level(), buf, 0) == Step::Found(frame, n),
    ensures
        scan(rate, min_confidence, floor, buf, 0).frames == kept(frame, min_confidence) + scan(
            rate,
            min_confidence,
            floor.next(buf[0] as int),
            buf,
            n,
        ).frames,
{
}

proof fn lemma_spans_grow(rate: int)
    requires
        rate > 0,
    ensures
        0 < bit_span(rate, 5) <= bit_span(rate, 56) <= bit_span(rate, 112),
        preamble_span(rate) > 0,
{
}

/// A frame that was waited for is found by a scan that begins with it.
proof fn lemma_straddle(rate: int, min_confidence: u8, floor: Floor, at: int, buf: Seq<u16>, ext: Seq<u16>)
    requires
        rate > 0,
        0 <= at,
        at + detection_window(rate) <= buf.len() <= ext.len(),
        buf == ext.take(buf.len() as int),
        step_at(rate, floor.level(), buf, at) is Incomplete,
        at + preamble_span(rate) + bit_span(rate, 112) <= ext.len(),
        clears_threshold(score_at(rate, ext.skip(at), 0), floor.next(ext.skip(at)[0] as int).level()),
    ensures
        match step_at(rate, floor.level(), ext, at) {
            Step::Found(frame, n) => scan(rate, min_confidence, floor, ext.skip(at), 0).frames == kept(
                frame,
                min_confidence,
            ) + scan(rate, min_confidence, floor.next(ext.skip(at)[0] as int), ext.skip(at), n).frames,
            _ => false,
        },
{
    let cut = ext.skip(at);
    let level = floor.next(cut[0] as int).level();
    let span = preamble_span(rate);
    lemma_spans_grow(rate);
    assert(cut.subrange(0, span) =~= ext.subrange(at, at + span));
    assert(score_at(rate, cut, 0) == score_at(rate, ext, at));
    lemma_step_completes(rate, floor.level(), level, buf, ext, at);
    lemma_step_shift(rate, level, ext, at, 0);
    if let Step::Found(frame, n) = step_at(rate, level, ext, at) {
        lemma_scan_begins(rate, min_confidence, floor, cut, frame, n);
    }
}

/// A frame that straddles two chunks is not lost. When the first chunk ends inside a
/// frame whose preamble has been accepted, and the second brings the rest of it, the
/// first thing found is that frame, as it would have been in one piece. The noise floor
/// has taken in the first sample of the preamble once more; the preamble must still
/// stand out over it.
#[verifier::rlimit(60)]
#[verifier::spinoff_prover]
pub proof fn law_straddling_frame_is_found(d: DetectorModel, a: Seq<Iq>, b: Seq<Iq>)
    requires
        d.rate > 0,
        d.rate != 2_400_000,
        d.fed(a).0.carry.len() >= detection_window(d.rate),
        ({
            let mid = d.fed(a).0;
            let buf = mid.buffer(b);
            &&& preamble_span(d.rate) + bit_span(d.rate, 112) <= buf.len()
            &&& clears_threshold(score_at(d.rate, buf, 0), mid.floor.next(buf[0] as int).level())
        }),
    ensures
        ({
            let mid = d.fed(a).0;
            let buf = mid.buffer(b);
            let first = scan(d.rate, d.min_confidence, d.floor, d.buffer(a), 0);
            match step_at(d.rate, first.floor.level(), d.buffer(a + b), first.at) {
                Step::Found(frame, n) => mid.fed(b).1 == kept(frame, d.min_confidence) + scan(
                    d.rate,
                    d.min_confidence,
                    mid.floor.next(buf[0] as int),
                    buf,
                    n,
                ).frames,
                _ => false,
            }
        }),
{
    let rate = d.rate;
    let mid = d.fed(a).0;
    let buf = d.buffer(a);
    let ext = d.buffer(a + b);
    assert(amam_all(a + b) =~= amam_all(a) + amam_all(b));
    assert(ext =~= buf + amam_all(b));
    assert(buf =~= ext.take(buf.len() as int));
    lemma_scan_stop(rate, d.min_confidence, d.floor, buf, 0);
    let first = scan(rate, d.min_confidence, d.floor, buf, 0);
    let at = first.at;
    assert(mid.carry == buf.skip(at));
    assert(mid.buffer(b) =~= ext.skip(at));
    lemma_scan_waits(rate, d.min_confidence, d.floor, buf, 0);
    lemma_straddle(rate, d.min_confidence, first.floor, at, buf, ext);
}

/// At 2.4 MS/s too, no frame is lost between chunks and none is reported twice: what a
/// chunk leaves over begins no earlier than the last frame found ended, and holds every
/// position behind it that a long frame cannot be read from yet.
pub proof fn law_nothing_is_lost_at_2400(d: DetectorModel, a: Seq<Iq>, j: int)
    requires
        d.rate == 2_400_000,
        0 <= j < d.buffer(a).len(),
    ensures
        ({
            let buf = d.buffer(a);
            let consumed = scan_2400(d.known, d.min_confidence, d.floor, buf, 0, 0).consumed;
            let carry = d.fed(a).0.carry;
            &&& 0 <= consumed <= buf.len()
            &&& carry == buf.skip(buf.len() - carry.len())
            &&& consumed <= buf.len() - carry.len()
            &&& consumed <= j && j + PREAMBLE_SAMPLES_2400 + 1 + LONG_FRAME_BYTES * 20 + 4 > buf.len() ==> j >= buf.len()
                - carry.len()
        }),
{
    let buf = d.buffer(a);
    demod_2400::lemma_scan_2400_stop(d.known, d.min_confidence, d.floor, buf, 0, 0);
    let carry = d.fed(a).0.carry;
    assert(carry_capacity(2_400_000) == 320);
    assert(carry =~= buf.skip(buf.len() - carry.len()));
}

/// No sample is lost between chunks: what a chunk leaves over is the end of what
/// was scanned, and all of it fits into the room for it.
pub proof fn law_nothing_is_lost(d: DetectorModel, a: Seq<Iq>)
    requires
        d.rate > 0,
        d.rate != 2_400_000,
    ensures
        ({
            let buf = d.buffer(a);
            let at = scan(d.rate, d.min_confidence, d.floor, buf, 0).at;
            &&& 0 <= at <= buf.len()
            &&& buf == buf.take(at) + d.fed(a).0.carry
            &&& d.fed(a).0.carry.len() <= carry_capacity(d.rate)
        }),
{
    let buf = d.buffer(a);
    lemma_scan_stop(d.rate, d.min_confidence, d.floor, buf, 0);
    let at = scan(d.rate, d.min_confidence, d.floor, buf, 0).at;
    assert(buf =~= buf.take(at) + buf.skip(at));
}

/// Chunks of the size that room was reserved for never need more, whatever came before.
pub proof fn law_reserved_room_suffices(d: DetectorModel, a: Seq<Iq>, b: Seq<Iq>, chunk_samples: int)
    requires
        d.rate > 0,
        b.len() <= chunk_samples,
    ensures
        d.fed(a).0.buffer(b).len() <= chunk_samples + carry_capacity(d.rate),
{
    let buf = d.buffer(a);
    if d.rate == 2_400_000 {
        demod_2400::lemma_scan_2400_stop(d.known, d.min_confidence, d.floor, buf, 0, 0);
    } else {
        lemma_scan_stop(d.rate, d.min_confidence, d.floor, buf, 0);
    }
}

/// What [`step_at`] finds, with the frame at hand.
enum Detected {
    Skip(usize),
    Found(Frame, usize),
    Incomplete,
}

/// Reads the downlink format from the samples of the first five bits.
fn slice_df_prefix(cfg: &DemodConfig, samples: &[u16]) -> (df: DownlinkFormat)
    requires
        samples@.len() == bit_span(cfg.rate(), 5),
    ensures
        df == format_of_bits(bits_at(cfg.rate(), samples@, 5)),
{
    let mut bits: [bool; 8] = [false; 8];
    let mut conf: [u8; 5] = [0; 5];
    {
        let whole: &mut [bool] = &mut bits;
        let (head, _tail) = whole.split_at_mut(5);
        slice_bits_cfg(cfg, samples, head, &mut conf);
    }
    let mut byte: [u8; 1] = [0; 1];
    pack_bits_msb(&bits, &mut byte);
    let ghost five = bits_at(cfg.rate(), samples@, 5);
    assert(bits@.subrange(0, 5) =~= five);
    assert(bits@[0] == five[0] && bits@[1] == five[1] && bits@[2] == five[2] && bits@[3] == five[3]
        && bits@[4] == five[4]);
    assert(byte@[0] == packed(bits@)[0]);
    DownlinkFormat::from_first_byte(byte[0])
}

/// Reads a frame of a known format from its payload samples.
fn slice_frame(cfg: &DemodConfig, df: DownlinkFormat, payload: &[u16]) -> (f: Frame)
    requires
        payload@.len() == bit_span(cfg.rate(), 8 * df.length() as int),
    ensures
        f@ == frame_of_payload(cfg.rate(), df, payload@),
{
    let n: usize = df.frame_bytes();
    let mut bits: [bool; 112] = [false; 112];
    let mut conf: [u8; 112] = [0; 112];
    let mut bytes: [u8; MAX_FRAME_BYTES] = [0; MAX_FRAME_BYTES];
    {
        let all_bits: &mut [bool] = &mut bits;
        let all_conf: &mut [u8] = &mut conf;
        let (bits_head, _b) = all_bits.split_at_mut(8 * n);
        let (conf_head, _c) = all_conf.split_at_mut(8 * n);
        slice_bits_cfg(cfg, payload, bits_head, conf_head);
    }
    let ghost frame_bits = bits_at(cfg.rate(), payload@, 8 * df.length());
    assert(bits@.subrange(0, 8 * n) =~= frame_bits);
    let mut crc = CrcOutcome::Failed;
    {
        let all_bytes: &mut [u8] = &mut bytes;
        let (head, _t) = all_bytes.split_at_mut(n);
        pack_bits_msb(vstd::slice::slice_subrange(bits.as_slice(), 0, 8 * n), head);
        if df.has_clean_crc() {
            crc = crc::check(head);
        }
    }
    assert(bytes@.len() == 14);
    assert((crc, bytes@.subrange(0, n as int)) == validated(df, packed(frame_bits)));
    let confidence: u8 = aggregate_confidence(vstd::slice::slice_subrange(conf.as_slice(), 0, 8 * n));
    assert(conf@.subrange(0, 8 * n) =~= confidences_at(cfg.rate(), payload@, 8 * df.length()));
    Frame::assemble(vstd::slice::slice_subrange(bytes.as_slice(), 0, n), df, crc, confidence)
}

/// What position `i` turns out to be.
fn detect_at(cfg: &DemodConfig, level: u16, buf: &[u16], i: usize) -> (d: Detected)
    requires
        i + detection_window(cfg.rate()) <= buf.len(),
    ensures
        match d {
            Detected::Skip(n) => step_at(cfg.rate(), level as int, buf@, i as int) == Step::Skip(n as int) && 0 < n
                && i + n <= buf.len(),
            Detected::Found(f, n) => step_at(cfg.rate(), level as int, buf@, i as int) == Step::Found(
                f@,
                n as int,
            ) && 0 < n && i + n <= buf.len(),
            Detected::Incomplete => step_at(cfg.rate(), level as int, buf@, i as int) is Incomplete,
        },
{
    reveal(step_at);
    let preamble: usize = cfg.preamble_samples();
    let prefix: usize = cfg.samples_for_bits(5);
    let start: usize = i + preamble;
    proof {
        assert(bit_span(cfg.rate(), 5) <= bit_span(cfg.rate(), 56));
    }
    let window = vstd::slice::slice_subrange(buf, i, start);
    let score: i32 = preamble_score_cfg(cfg, window);
    if !preamble_clears_threshold(score, level) {
        return Detected::Skip(1);
    }
    let df = slice_df_prefix(cfg, vstd::slice::slice_subrange(buf, start, start + prefix));
    if let DownlinkFormat::Reserved(_) = df {
        return Detected::Skip(preamble);
    }
    let span: usize = cfg.samples_for_bits(8 * df.frame_bytes());
    if buf.len() - start < span {
        return Detected::Incomplete;
    }
    let frame = slice_frame(cfg, df, vstd::slice::slice_subrange(buf, start, start + span));
    Detected::Found(frame, preamble + span)
}

/// Whether a frame is passed on.
fn frame_passes(frame: &Frame, min_confidence: u8) -> (yes: bool)
    ensures
        yes == passes(frame@, min_confidence),
{
    let failed: bool = match frame.crc_outcome() {
        CrcOutcome::Failed => true,
        _ => false,
    };
    frame.confidence() >= min_confidence && !(failed && frame.downlink_format().has_clean_crc())
}

/// Scans magnitudes at a rate that the generic slicer serves, appending the
/// frames to `out`. Returns the position at which the scan stopped.
fn run_generic(
    cfg: &DemodConfig,
    floor: &mut NoiseFloor,
    buf: &[u16],
    min_confidence: u8,
    out: &mut Vec<Frame>,
) -> (at: usize)
    ensures
        ({
            let s = scan(cfg.rate(), min_confidence, old(floor)@, buf@, 0);
            &&& contents(final(out)@) == contents(old(out)@) + s.frames
            &&& final(floor)@ == s.floor
            &&& at == s.at
        }),
        at <= buf@.len(),
{
    let n: usize = buf.len();
    let window: usize = cfg.preamble_samples() + cfg.samples_for_bits(56);
    let ghost rate = cfg.rate();
    let ghost whole = scan(rate, min_confidence, floor@, buf@, 0);
    let ghost before = contents(out@);
    let mut i: usize = 0;
    while n - i >= window
        invariant_except_break
            ({
                let rest = scan(rate, min_confidence, floor@, buf@, i as int);
                &&& before + whole.frames == contents(out@) + rest.frames
                &&& whole.floor == rest.floor
                &&& whole.at == rest.at
            }),
        invariant
            n == buf.len(),
            i <= n,
            rate == cfg.rate(),
            rate > 0,
            window == detection_window(rate),
        ensures
            before + whole.frames == contents(out@),
            whole.floor == floor@,
            whole.at == i,
        decreases n - i,
    {
        let ghost rest = scan(rate, min_confidence, floor@, buf@, i as int);
        let level: u16 = floor.update(buf[i]);
        match detect_at(cfg, level, buf, i) {
            Detected::Skip(k) => {
                i += k;
            },
            Detected::Found(frame, k) => {
                let ghost tail = scan(rate, min_confidence, floor@, buf@, i + k);
                let ghost sofar = contents(out@);
                if frame_passes(&frame, min_confidence) {
                    out.push(frame);
                    assert(contents(out@) =~= sofar + seq![frame@]);
                } else {
                    assert(contents(out@) =~= sofar + Seq::<FrameModel>::empty());
                }
                assert(sofar + rest.frames =~= contents(out@) + tail.frames);
                i += k;
            },
            Detected::Incomplete => {
                assert(contents(out@) + Seq::<FrameModel>::empty() =~= contents(out@));
                break;
            },
        }
    }
    i
}

/// Runs the 2.4 MS/s demodulator and appends its frames to `out`. Returns the
/// number of magnitudes consumed: where the last frame ended.
fn run_2400(
    floor: &mut NoiseFloor,
    icao_filter: &mut IcaoFilter,
    buf: &[u16],
    min_confidence: u8,
    out: &mut Vec<Frame>,
) -> (consumed: usize)
    ensures
        ({
            let s = scan_2400(old(icao_filter)@, min_confidence, old(floor)@, buf@, 0, 0);
            &&& contents(final(out)@) == contents(old(out)@) + s.frames
            &&& final(floor)@ == s.floor
            &&& final(icao_filter)@ == s.known
            &&& consumed == s.consumed
        }),
        consumed <= buf@.len(),
{
    let mut found: Vec<DemodResult> = Vec::new();
    let ghost before = contents(out@);
    let consumed: usize = demod_2400::process_2400(floor, icao_filter, buf, min_confidence, &mut found);
    let ghost frames = demod_2400::results(found@);
    assert(demod_2400::results(Seq::<DemodResult>::empty()) + frames =~= frames);
    let mut i: usize = 0;
    while i < found.len()
        invariant
            i <= found@.len(),
            frames == demod_2400::results(found@),
            contents(out@) == before + frames.take(i as int),
        decreases found@.len() - i,
    {
        let res = &found[i];
        let bytes = vstd::slice::slice_subrange(res.bytes.as_slice(), 0, res.df.frame_bytes());
        let frame = Frame::assemble(bytes, res.df, res.crc, res.confidence);
        let ghost sofar = contents(out@);
        out.push(frame);
        assert(frame@ == frames[i as int]);
        assert(contents(out@) =~= sofar.push(frame@));
        assert(sofar.push(frame@) =~= before + frames.take(i + 1));
        i += 1;
    }
    assert(frames.take(frames.len() as int) =~= frames);
    consumed
}

/// The capacity that `Vec::capacity` reports: never less than the length.
#[verifier::external_body]
fn capacity_of(v: &Vec<u16>) -> (n: usize)
    ensures
        n >= v@.len(),
{
    v.capacity()
}

/// The samples that can be carried over between chunks at a sample rate.
fn carry_samples_for(cfg: &DemodConfig) -> (n: usize)
    ensures
        n == carry_capacity(cfg.rate()),
        0 < n <= 600_000,
        0 < cfg.rate() <= u32::MAX,
{
    let raw: usize = cfg.preamble_samples() + cfg.samples_for_bits(112);
    (raw + 63) / 64 * 64
}

/// Streaming frame detector, one per receive stream.
///
/// Samples may be split across chunks: the detector keeps the part of a chunk that
/// it has not finished with, so a frame across a boundary is not lost.
#[derive(Debug)]
pub struct FrameDetector {
    floor: NoiseFloor,
    cfg: DemodConfig,
    icao_filter: IcaoFilter,
    min_confidence: u8,
    carry: Vec<u16>,
    mag_buf: Vec<u16>,
    /// Magnitudes that `mag_buf` has been made ready to hold.
    reserved: usize,
}

impl View for FrameDetector {
    type V = DetectorModel;

    closed spec fn view(&self) -> DetectorModel {
        DetectorModel {
            rate: self.cfg.rate(),
            min_confidence: self.min_confidence,
            floor: self.floor@,
            known: self.icao_filter@,
            carry: self.carry@,
        }
    }
}

/// Chunk size that a detector is prepared for by default, in samples.
pub const DEFAULT_CHUNK_SAMPLES: usize = 32_768;

impl Default for FrameDetector {
    fn default() -> (d: FrameDetector)
        ensures
            d@ == DetectorModel::fresh(2_000_000),
            d.room_reserved() == DEFAULT_CHUNK_SAMPLES + carry_capacity(2_000_000),
    {
        FrameDetector::new()
    }
}

impl DetectorModel {
    /// A detector that has seen nothing.
    pub open spec fn fresh(rate: int) -> DetectorModel {
        DetectorModel {
            rate,
            min_confidence: 0,
            floor: Floor::at(0, 7),
            known: Set::empty(),
            carry: Seq::empty(),
        }
    }
}

impl FrameDetector {
    /// Magnitudes that the detector has been made ready to hold; a chunk that does not
    /// need more makes it reserve nothing.
    pub closed spec fn room_reserved(&self) -> int {
        self.reserved as int
    }

    /// A detector for 2 MS/s.
    #[must_use]
    pub fn new() -> (d: FrameDetector)
        ensures
            d@ == DetectorModel::fresh(2_000_000),
            d.room_reserved() == DEFAULT_CHUNK_SAMPLES + carry_capacity(2_000_000),
    {
        FrameDetector::with_sample_rate(2_000_000)
    }

    /// A detector for the given sample rate.
    #[must_use]
    pub fn with_sample_rate(sample_rate: u32) -> (d: FrameDetector)
        requires
            sample_rate > 0,
        ensures
            d@ == DetectorModel::fresh(sample_rate as int),
            d.room_reserved() == DEFAULT_CHUNK_SAMPLES + carry_capacity(sample_rate as int),
    {
        FrameDetector::with_chunk_capacity_and_rate(DEFAULT_CHUNK_SAMPLES, sample_rate)
    }

    /// A detector for 2 MS/s, with room reserved for chunks of `chunk_samples` samples
    /// and what is carried over.
    #[must_use]
    pub fn with_chunk_capacity(chunk_samples: usize) -> (d: FrameDetector)
        requires
            2 * (chunk_samples + carry_capacity(2_000_000)) <= isize::MAX,
        ensures
            d@ == DetectorModel::fresh(2_000_000),
            d.room_reserved() == chunk_samples + carry_capacity(2_000_000),
    {
        FrameDetector::with_chunk_capacity_and_rate(chunk_samples, 2_000_000)
    }

    /// A detector for a sample rate, with room reserved for chunks of `chunk_samples`
    /// samples and what is carried over.
    #[must_use]
    pub fn with_chunk_capacity_and_rate(chunk_samples: usize, sample_rate: u32) -> (d: FrameDetector)
        requires
            sample_rate > 0,
            2 * (chunk_samples + carry_capacity(sample_rate as int)) <= isize::MAX,
        ensures
            d@ == DetectorModel::fresh(sample_rate as int),
            d.room_reserved() == chunk_samples + carry_capacity(sample_rate as int),
    {
        let cfg = DemodConfig::for_sample_rate(sample_rate);
        let room: usize = carry_samples_for(&cfg);
        FrameDetector {
            floor: NoiseFloor::fresh(),
            cfg,
            icao_filter: IcaoFilter::default(),
            min_confidence: 0,
            carry: Vec::with_capacity(room),
            mag_buf: Vec::with_capacity(chunk_samples + room),
            reserved: chunk_samples + room,
        }
    }

    /// Drops frames whose confidence is below `min` from now on.
    pub fn set_min_confidence(&mut self, min: u8)
        ensures
            final(self)@ == (DetectorModel { min_confidence: min, ..old(self)@ }),
            final(self).room_reserved() == old(self).room_reserved(),
    {
        self.min_confidence = min;
    }

    /// Reseeds the noise floor.
    pub fn reset_noise_floor(&mut self, seed: u16)
        ensures
            final(self)@ == (DetectorModel { floor: Floor::at(seed as int, 7), ..old(self)@ }),
            final(self).room_reserved() == old(self).room_reserved(),
    {
        self.floor = NoiseFloor::new(seed, 7);
    }

    /// Takes in a chunk of samples and appends the frames found to `frames`: those that are
    /// intact or repaired, and those whose CRC is combined with an address. Room for
    /// magnitudes is reserved only for a chunk that needs more than there is.
    pub fn process(&mut self, samples: &[Iq], frames: &mut Vec<Frame>)
        ensures
            final(self)@ == old(self)@.fed(samples@).0,
            contents(final(frames)@) == contents(old(frames)@) + old(self)@.fed(samples@).1,
            final(self).scanned() == old(self)@.buffer(samples@),
            final(self).room_reserved() == (if old(self)@.buffer(samples@).len() <= old(self).room_reserved() {
                old(self).room_reserved()
            } else {
                old(self)@.buffer(samples@).len() as int
            }),
    {
        let ghost before = self@;
        let ghost target = before.buffer(samples@);
        let rate: u32 = self.cfg.sample_rate();
        let room: usize = carry_samples_for(&self.cfg);
        self.mag_buf.clear();
        let total: usize = self.carry.len().saturating_add(samples.len());
        if total > self.reserved {
            self.mag_buf.reserve(total);
            self.reserved = total;
        }
        let ghost ready = self.reserved;
        self.mag_buf.extend_from_slice(self.carry.as_slice());
        assert(self.mag_buf@ =~= before.carry);
        let mut k: usize = 0;
        while k < samples.len()
            invariant
                k <= samples@.len(),
                self.mag_buf@ == before.carry + amam_all(samples@).take(k as int),
                self@ == before,
                self.reserved == ready,
            decreases samples@.len() - k,
        {
            let m: u16 = magnitude::alpha_max_beta_min(samples[k]);
            self.mag_buf.push(m);
            k += 1;
            assert(self.mag_buf@ =~= before.carry + amam_all(samples@).take(k as int));
        }
        assert(amam_all(samples@).take(samples@.len() as int) =~= amam_all(samples@));
        assert(self.mag_buf@ == target);
        let n: usize = self.mag_buf.len();
        let from: usize = if rate == 2_400_000 {
            let consumed: usize = run_2400(
                &mut self.floor,
                &mut self.icao_filter,
                self.mag_buf.as_slice(),
                self.min_confidence,
                frames,
            );
            if n - consumed <= room {
                consumed
            } else {
                n - room
            }
        } else {
            run_generic(&self.cfg, &mut self.floor, self.mag_buf.as_slice(), self.min_confidence, frames)
        };
        self.carry.clear();
        self.carry.extend_from_slice(vstd::slice::slice_subrange(self.mag_buf.as_slice(), from, n));
        assert(self.carry@ =~= target.skip(from as int));
    }

    /// The sample rate that this detector was built for.
    #[must_use]
    pub fn sample_rate(&self) -> (r: u32)
        ensures
            r == self@.rate,
    {
        self.cfg.sample_rate()
    }

    /// Magnitudes that can be carried over between chunks.
    #[must_use]
    pub fn carry_room(&self) -> (n: usize)
        ensures
            n == carry_capacity(self@.rate),
    {
        carry_samples_for(&self.cfg)
    }

    /// The magnitudes last scanned.
    pub closed spec fn scanned(&self) -> Seq<u16> {
        self.mag_buf@
    }

    /// Magnitudes that the detector can hold without allocating. How much more that is
    /// than it has held rests with the allocator.
    #[must_use]
    pub fn buffer_capacity(&self) -> (n: usize)
        ensures
            n >= self.scanned().len(),
    {
        capacity_of(&self.mag_buf)
    }
}

} // verus!

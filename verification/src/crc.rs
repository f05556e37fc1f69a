//! Mode S CRC-24.
//!
//! The generator polynomial is `0x1FFF409`, 25 bits with the implicit leading
//! `x^24` term; its low 24 bits are [`POLY`]. [`crc24`] works a byte at a time
//! from a precomputed table, [`crc24_bitwise`] a bit at a time without one. Both
//! return [`crc24_of`] of their input.
//!
//! Mode S frames are 7 or 14 bytes, the last three of which carry the CRC. For
//! downlink formats 11, 17 and 18 the CRC over the whole frame of an intact
//! reception is zero. For the surveillance replies the CRC is combined with the
//! aircraft address; see [`law_address_overlay`].
//!
//! [`check`] repairs single-bit errors: over 112 bits every such error leaves a
//! syndrome of its own.

pub mod tables;

use tables::{SYNDROME_LONG, SYNDROME_SHORT, TABLE};
use tables::{lemma_no_short_cycle, lemma_syndrome_long, lemma_syndrome_short, lemma_table};
use vstd::prelude::*;

verus! {

/// Generator polynomial, low 24 bits.
pub const POLY: u32 = 0x00FF_F409;

/// Length in bytes of a short Mode S frame.
pub const SHORT_FRAME_BYTES: usize = 7;

/// Length in bytes of a long Mode S frame.
pub const LONG_FRAME_BYTES: usize = 14;

/// Outcome of CRC validation for a frame.
#[derive(Debug, Clone, Copy, PartialEq, Eq, Structural)]
pub enum CrcOutcome {
    /// Syndrome is zero: the frame is intact.
    Clean,
    /// One bit was flipped in transit and has been flipped back in the caller's
    /// buffer. Bits are numbered from the most significant bit of byte 0.
    Corrected { bit: u16 },
    /// Syndrome is non-zero and does not belong to any single-bit error.
    Failed,
}

// --- Model -------------------------------------------------------------------

/// One shift of the 24-bit register.
pub open spec fn crc_step(r: u32) -> u32 {
    if r & 0x0080_0000 != 0 {
        ((r << 1) ^ POLY) & 0x00FF_FFFF
    } else {
        (r << 1) & 0x00FF_FFFF
    }
}

/// `n` shifts of the register.
pub open spec fn crc_steps(r: u32, n: nat) -> u32
    decreases n,
{
    if n == 0 {
        r
    } else {
        crc_step(crc_steps(r, (n - 1) as nat))
    }
}

/// The register after one more message byte.
pub open spec fn crc_byte(r: u32, b: u8) -> u32 {
    crc_steps(r ^ ((b as u32) << 16), 8)
}

/// The CRC-24 of a message: most significant bit first, register initially
/// zero, no reflection, no final exclusive or.
pub open spec fn crc24_of(bytes: Seq<u8>) -> u32
    decreases bytes.len(),
{
    if bytes.len() == 0 {
        0
    } else {
        crc_byte(crc24_of(bytes.drop_last()), bytes.last())
    }
}

/// The mask of bit `k` of a byte, counted from the most significant bit.
pub open spec fn bit_mask(k: int) -> u8 {
    if k == 0 {
        0x80
    } else if k == 1 {
        0x40
    } else if k == 2 {
        0x20
    } else if k == 3 {
        0x10
    } else if k == 4 {
        0x08
    } else if k == 5 {
        0x04
    } else if k == 6 {
        0x02
    } else {
        0x01
    }
}

/// The message with one bit inverted.
pub open spec fn flip_bit(bytes: Seq<u8>, bit: int) -> Seq<u8> {
    bytes.update(bit / 8, bytes[bit / 8] ^ bit_mask(bit % 8))
}

/// The low 24 bits of `v`, most significant byte first.
pub open spec fn be24(v: u32) -> Seq<u8> {
    seq![((v >> 16) & 0xFF) as u8, ((v >> 8) & 0xFF) as u8, (v & 0xFF) as u8]
}

/// Bytewise exclusive or of two messages of the same length.
pub open spec fn xor_bytes(a: Seq<u8>, b: Seq<u8>) -> Seq<u8> {
    Seq::new(a.len(), |i: int| a[i] ^ b[i])
}

/// What [`check`] does to a frame: `after` and `outcome` answer `before`.
pub open spec fn checked(before: Seq<u8>, outcome: CrcOutcome, after: Seq<u8>) -> bool {
    match outcome {
        CrcOutcome::Clean => crc24_of(before) == 0 && after == before,
        CrcOutcome::Corrected { bit } => {
            &&& crc24_of(before) != 0
            &&& 0 <= bit < 8 * before.len()
            &&& after == flip_bit(before, bit as int)
            &&& crc24_of(after) == 0
        },
        CrcOutcome::Failed => {
            &&& crc24_of(before) != 0
            &&& after == before
            &&& forall|bit: int| 0 <= bit < 8 * before.len() ==> #[trigger] crc24_of(flip_bit(before, bit)) != 0
        },
    }
}

/// The outcome of checking a frame and the frame as checked: intact frames are
/// kept, frames one bit away from an intact one are repaired, all others fail.
pub open spec fn check_of(frame: Seq<u8>) -> (CrcOutcome, Seq<u8>) {
    if crc24_of(frame) == 0 {
        (CrcOutcome::Clean, frame)
    } else if exists|bit: int| 0 <= bit < 8 * frame.len() && #[trigger] crc24_of(flip_bit(frame, bit)) == 0 {
        let bit = choose|bit: int|
            0 <= bit < 8 * frame.len() && #[trigger] crc24_of(flip_bit(frame, bit)) == 0;
        (CrcOutcome::Corrected { bit: bit as u16 }, flip_bit(frame, bit))
    } else {
        (CrcOutcome::Failed, frame)
    }
}

// --- The register ------------------------------------------------------------

pub(crate) proof fn lemma_unroll_8(r: u32)
    ensures
        crc_steps(r, 8) == crc_step(
            crc_step(crc_step(crc_step(crc_step(crc_step(crc_step(crc_step(r))))))),
        ),
{
    reveal_with_fuel(crc_steps, 9);
}

proof fn lemma_step_bits(x: u32, y: u32)
    ensures
        crc_step(x ^ y) == crc_step(x) ^ crc_step(y),
        crc_step(x) < 0x0100_0000,
        crc_step(0) == 0,
        x < 0x0100_0000 && x != 0 ==> crc_step(x) != 0,
        x < 0x0080_0000 ==> crc_step(x) == x << 1,
{
    let sx = crc_step(x);
    let sy = crc_step(y);
    let z = x ^ y;
    let sz = crc_step(z);
    let s0 = crc_step(0);
    assert(sz == sx ^ sy && sx < 0x0100_0000 && s0 == 0
        && (x < 0x0100_0000 && x != 0 ==> sx != 0)
        && (x < 0x0080_0000 ==> sx == x << 1)) by (bit_vector)
        requires
            z == x ^ y,
            sx == if x & 0x0080_0000 != 0 { ((x << 1) ^ 0x00FF_F409) & 0x00FF_FFFF } else { (x << 1) & 0x00FF_FFFF },
            sy == if y & 0x0080_0000 != 0 { ((y << 1) ^ 0x00FF_F409) & 0x00FF_FFFF } else { (y << 1) & 0x00FF_FFFF },
            sz == if z & 0x0080_0000 != 0 { ((z << 1) ^ 0x00FF_F409) & 0x00FF_FFFF } else { (z << 1) & 0x00FF_FFFF },
            s0 == if 0u32 & 0x0080_0000 != 0 { ((0u32 << 1) ^ 0x00FF_F409) & 0x00FF_FFFF } else { (0u32 << 1) & 0x00FF_FFFF },
    ;
}

/// The register is linear over exclusive or.
proof fn lemma_steps_linear(x: u32, y: u32, n: nat)
    ensures
        crc_steps(x ^ y, n) == crc_steps(x, n) ^ crc_steps(y, n),
    decreases n,
{
    if n > 0 {
        lemma_steps_linear(x, y, (n - 1) as nat);
        lemma_step_bits(crc_steps(x, (n - 1) as nat), crc_steps(y, (n - 1) as nat));
    }
}

proof fn lemma_steps_add(r: u32, m: nat, n: nat)
    ensures
        crc_steps(crc_steps(r, m), n) == crc_steps(r, m + n),
    decreases n,
{
    if n > 0 {
        lemma_steps_add(r, m, (n - 1) as nat);
    }
}

/// The register stays within 24 bits, and leaves zero only from zero.
proof fn lemma_steps_range(r: u32, n: nat)
    requires
        r < 0x0100_0000,
    ensures
        crc_steps(r, n) < 0x0100_0000,
        crc_steps(r, n) == 0 <==> r == 0,
    decreases n,
{
    if n > 0 {
        lemma_steps_range(r, (n - 1) as nat);
        lemma_step_bits(crc_steps(r, (n - 1) as nat), 0);
    }
}

/// Distinct registers stay distinct.
proof fn lemma_steps_injective(x: u32, y: u32, n: nat)
    requires
        x < 0x0100_0000,
        y < 0x0100_0000,
        crc_steps(x, n) == crc_steps(y, n),
    ensures
        x == y,
{
    lemma_steps_linear(x, y, n);
    let s = crc_steps(x, n);
    let z = x ^ y;
    assert(s ^ s == 0) by (bit_vector);
    assert(z < 0x0100_0000 && (z == 0 ==> x == y)) by (bit_vector)
        requires
            x < 0x0100_0000u32,
            y < 0x0100_0000u32,
            z == x ^ y,
    ;
    lemma_steps_range(z, n);
}

/// Eight steps of a register whose top byte is zero only shift it.
proof fn lemma_steps_8_low(x: u32)
    requires
        x < 0x0001_0000,
    ensures
        crc_steps(x, 8) == x << 8,
{
    lemma_unroll_8(x);
    let x1: u32 = x << 1;
    let x2: u32 = x1 << 1;
    let x3: u32 = x2 << 1;
    let x4: u32 = x3 << 1;
    let x5: u32 = x4 << 1;
    let x6: u32 = x5 << 1;
    let x7: u32 = x6 << 1;
    let x8: u32 = x7 << 1;
    assert(x1 < 0x0080_0000 && x2 < 0x0080_0000 && x3 < 0x0080_0000 && x4 < 0x0080_0000
        && x5 < 0x0080_0000 && x6 < 0x0080_0000 && x7 < 0x0080_0000 && x8 == x << 8) by (bit_vector)
        requires
            x < 0x0001_0000,
            x1 == x << 1,
            x2 == x1 << 1,
            x3 == x2 << 1,
            x4 == x3 << 1,
            x5 == x4 << 1,
            x6 == x5 << 1,
            x7 == x6 << 1,
            x8 == x7 << 1,
    ;
    lemma_step_bits(x, 0);
    lemma_step_bits(x1, 0);
    lemma_step_bits(x2, 0);
    lemma_step_bits(x3, 0);
    lemma_step_bits(x4, 0);
    lemma_step_bits(x5, 0);
    lemma_step_bits(x6, 0);
    lemma_step_bits(x7, 0);
}

/// A message's CRC occupies 24 bits.
pub proof fn lemma_crc_range(bytes: Seq<u8>)
    ensures
        crc24_of(bytes) < 0x0100_0000,
    decreases bytes.len(),
{
    if bytes.len() > 0 {
        let r = crc24_of(bytes.drop_last());
        lemma_crc_range(bytes.drop_last());
        let b = bytes.last() as u32;
        assert(r ^ (b << 16) < 0x0100_0000) by (bit_vector)
            requires
                r < 0x0100_0000u32,
                b < 256u32,
        ;
        lemma_steps_range(r ^ (b << 16), 8);
    }
}

// --- Linearity and single-bit errors -----------------------------------------

/// Flipping a bit changes the CRC by the syndrome of that bit alone, which
/// depends only on how many bits follow it.
proof fn lemma_crc_flip(bytes: Seq<u8>, bit: int)
    requires
        0 <= bit < 8 * bytes.len(),
    ensures
        crc24_of(flip_bit(bytes, bit)) == crc24_of(bytes) ^ crc_steps(
            0x0080_0000,
            (8 * bytes.len() - bit) as nat,
        ),
    decreases bytes.len(),
{
    let n = bytes.len() as int;
    let front = bytes.drop_last();
    let last = bytes.last();
    let r = crc24_of(front);
    let x = r ^ ((last as u32) << 16);
    let flipped = flip_bit(bytes, bit);
    if bit / 8 == n - 1 {
        let k = bit % 8;
        let mask = bit_mask(k);
        assert(flipped.drop_last() =~= front);
        assert(flipped.last() == last ^ mask);
        let m: u32 = (mask as u32) << 16;
        assert(r ^ (((last ^ mask) as u32) << 16) == (r ^ ((last as u32) << 16)) ^ ((mask as u32) << 16))
            by (bit_vector);
        lemma_steps_linear(x, m, 8);
        lemma_mask_reaches_top(k);
        lemma_steps_add(m, k as nat, (8 - k) as nat);
        assert(8 * n - bit == 8 - k);
    } else {
        let s = crc_steps(0x0080_0000, (8 * (n - 1) - bit) as nat);
        lemma_crc_flip(front, bit);
        assert(flipped.drop_last() =~= flip_bit(front, bit));
        assert(flipped.last() == last);
        assert((r ^ s) ^ ((last as u32) << 16) == (r ^ ((last as u32) << 16)) ^ s) by (bit_vector);
        lemma_steps_linear(x, s, 8);
        lemma_steps_add(0x0080_0000, (8 * (n - 1) - bit) as nat, 8);
    }
}

/// A bit of the incoming byte reaches the top of the register after as many
/// steps as there are bits before it.
proof fn lemma_mask_reaches_top(k: int)
    requires
        0 <= k < 8,
    ensures
        crc_steps((bit_mask(k) as u32) << 16, k as nat) == 0x0080_0000,
{
    let mask = bit_mask(k);
    let m: u32 = (mask as u32) << 16;
    assert((0x80u32 << 16) << 0 == 0x0080_0000 && (0x40u32 << 16) << 1 == 0x0080_0000
        && (0x20u32 << 16) << 2 == 0x0080_0000 && (0x10u32 << 16) << 3 == 0x0080_0000
        && (0x08u32 << 16) << 4 == 0x0080_0000 && (0x04u32 << 16) << 5 == 0x0080_0000
        && (0x02u32 << 16) << 6 == 0x0080_0000 && (0x01u32 << 16) << 7 == 0x0080_0000
        && (mask as u32) << 16 < 0x0100_0000) by (bit_vector);
    lemma_steps_shift(m, k as nat, k as nat);
}

/// `n` steps that push no one out of the register are a shift by `n`.
proof fn lemma_steps_shift(x: u32, n: nat, top: nat)
    requires
        n <= top <= 7,
        x << (top as u32) <= 0x0080_0000,
        x < 0x0100_0000,
    ensures
        crc_steps(x, n) == x << (n as u32),
    decreases n,
{
    let m = n as u32;
    let t = top as u32;
    assert(x << 0 == x) by (bit_vector);
    if n > 0 {
        lemma_steps_shift(x, (n - 1) as nat, top);
        let y: u32 = x << ((m - 1) as u32);
        let p: u32 = (m - 1) as u32;
        lemma_step_bits(y, 0);
        assert(y < 0x0080_0000 && y << 1 == x << m) by (bit_vector)
            requires
                1 <= m <= t <= 7,
                p == m - 1,
                x << t <= 0x0080_0000,
                x < 0x0100_0000,
                y == x << p,
        ;
    }
}

/// Two different single-bit errors in a frame of at most 112 bits leave
/// different, non-zero syndromes.
proof fn lemma_syndromes_distinct(m: nat, n: nat)
    requires
        1 <= m < n <= 112,
    ensures
        crc_steps(0x0080_0000, m) != crc_steps(0x0080_0000, n),
        crc_steps(0x0080_0000, m) != 0,
        crc_steps(0x0080_0000, n) != 0,
{
    lemma_steps_range(0x0080_0000, m);
    lemma_steps_range(0x0080_0000, n);
    let d = (n - m) as nat;
    lemma_steps_range(0x0080_0000, d);
    lemma_steps_add(0x0080_0000, d, m);
    if crc_steps(0x0080_0000, m) == crc_steps(0x0080_0000, n) {
        lemma_steps_injective(0x0080_0000, crc_steps(0x0080_0000, d), m);
        lemma_no_short_cycle(d);
    }
}

proof fn lemma_xor_zero(x: u32, y: u32)
    ensures
        x ^ y == 0 <==> x == y,
        x ^ 0 == x,
        0 ^ x == x,
{
    assert((x ^ y == 0 <==> x == y) && x ^ 0 == x && 0 ^ x == x) by (bit_vector);
}

// --- Laws --------------------------------------------------------------------

/// The CRC is linear: the CRC of the exclusive or of two messages of one length
/// is the exclusive or of their CRCs.
pub proof fn law_crc_linear(a: Seq<u8>, b: Seq<u8>)
    requires
        a.len() == b.len(),
    ensures
        crc24_of(xor_bytes(a, b)) == crc24_of(a) ^ crc24_of(b),
    decreases a.len(),
{
    if a.len() == 0 {
        lemma_xor_zero(0, 0);
    } else {
        let fa = a.drop_last();
        let fb = b.drop_last();
        law_crc_linear(fa, fb);
        let ra = crc24_of(fa);
        let rb = crc24_of(fb);
        let la = a.last();
        let lb = b.last();
        assert(xor_bytes(a, b).drop_last() =~= xor_bytes(fa, fb));
        assert((ra ^ rb) ^ (((la ^ lb) as u32) << 16)
            == (ra ^ ((la as u32) << 16)) ^ (rb ^ ((lb as u32) << 16))) by (bit_vector);
        lemma_steps_linear(ra ^ ((la as u32) << 16), rb ^ ((lb as u32) << 16), 8);
    }
}

/// Feeding a register its own three bytes clears it.
proof fn lemma_feed_own_bytes(data: Seq<u8>, v: u32)
    requires
        v < 0x0100_0000,
    ensures
        crc24_of(data + be24(crc24_of(data) ^ v)) == crc24_of(be24(v)),
{
    let r = crc24_of(data);
    lemma_crc_range(data);
    let w = r ^ v;
    assert(w < 0x0100_0000) by (bit_vector)
        requires
            r < 0x0100_0000u32,
            v < 0x0100_0000u32,
            w == r ^ v,
    ;
    let b0 = be24(w)[0];
    let b1 = be24(w)[1];
    let b2 = be24(w)[2];
    let c0 = be24(v)[0];
    let c1 = be24(v)[1];
    let c2 = be24(v)[2];
    let m = data + be24(w);
    let n = data.len() as int;
    assert(m.last() == b2);
    let m2 = m.drop_last();
    assert(m2.last() == b1);
    let m1 = m2.drop_last();
    assert(m1.last() == b0);
    assert(m1.drop_last() =~= data);
    let q = be24(v);
    assert(q.last() == c2);
    let q2 = q.drop_last();
    assert(q2.last() == c1);
    let q1 = q2.drop_last();
    assert(q1.last() == c0);
    assert(q1.drop_last() =~= Seq::<u8>::empty());
    // Each byte cancels the top of `r` and leaves the byte of `v` in its place.
    let l1: u32 = r & 0xFFFF;
    let l2: u32 = r & 0xFF;
    let s1 = crc_steps((c0 as u32) << 16, 8);
    assert(r ^ ((b0 as u32) << 16) == l1 ^ ((c0 as u32) << 16)
        && l1 < 0x1_0000
        && (l1 << 8) ^ ((b1 as u32) << 16) == (l2 << 8) ^ ((c1 as u32) << 16)
        && (l2 << 8) < 0x1_0000
        && ((l2 << 8) << 8) ^ ((b2 as u32) << 16) == (c2 as u32) << 16
        && 0u32 ^ ((c0 as u32) << 16) == (c0 as u32) << 16) by (bit_vector)
        requires
            r < 0x0100_0000u32,
            v < 0x0100_0000u32,
            w == r ^ v,
            l1 == r & 0xFFFF,
            l2 == r & 0xFF,
            b0 == ((w >> 16) & 0xFF) as u8,
            b1 == ((w >> 8) & 0xFF) as u8,
            b2 == (w & 0xFF) as u8,
            c0 == ((v >> 16) & 0xFF) as u8,
            c1 == ((v >> 8) & 0xFF) as u8,
            c2 == (v & 0xFF) as u8,
    ;
    lemma_steps_linear(l1, (c0 as u32) << 16, 8);
    lemma_steps_8_low(l1);
    assert(crc24_of(m1) == (l1 << 8) ^ s1);
    assert(crc24_of(q1.drop_last()) == 0);
    assert(crc24_of(q1) == s1);
    lemma_xor_swap(l1 << 8, s1, (b1 as u32) << 16);
    lemma_xor_swap(l2 << 8, (c1 as u32) << 16, s1);
    lemma_xor_swap((c1 as u32) << 16, s1, 0);
    lemma_steps_linear(l2 << 8, s1 ^ ((c1 as u32) << 16), 8);
    lemma_steps_8_low(l2 << 8);
    let s2 = crc_steps(s1 ^ ((c1 as u32) << 16), 8);
    assert(crc24_of(q2) == s2);
    assert(crc24_of(m2) == ((l2 << 8) << 8) ^ s2);
    lemma_xor_swap((l2 << 8) << 8, s2, (b2 as u32) << 16);
    lemma_xor_swap((c2 as u32) << 16, s2, 0);
}

proof fn lemma_xor_swap(a: u32, b: u32, c: u32)
    ensures
        (a ^ b) ^ c == (a ^ c) ^ b,
        (a ^ b) ^ c == a ^ (c ^ b),
        (a ^ b) ^ c == a ^ (b ^ c),
        a ^ b == b ^ a,
{
    assert((a ^ b) ^ c == (a ^ c) ^ b && (a ^ b) ^ c == a ^ (c ^ b) && (a ^ b) ^ c == a ^ (b ^ c)
        && a ^ b == b ^ a) by (bit_vector);
}

/// Appending a message's CRC, most significant byte first, gives a message whose
/// CRC is zero.
pub proof fn law_append_crc(data: Seq<u8>)
    ensures
        crc24_of(data + be24(crc24_of(data))) == 0,
{
    lemma_feed_own_bytes(data, 0);
    lemma_xor_zero(crc24_of(data), 0);
    assert(((0u32 >> 16) & 0xFF) as u8 == 0 && ((0u32 >> 8) & 0xFF) as u8 == 0
        && (0u32 & 0xFF) as u8 == 0) by (bit_vector);
    lemma_zero_message(be24(0));
}

/// A run of zero bytes has CRC zero.
pub proof fn lemma_zero_message(m: Seq<u8>)
    requires
        forall|i: int| 0 <= i < m.len() ==> m[i] == 0,
    ensures
        crc24_of(m) == 0,
    decreases m.len(),
{
    if m.len() > 0 {
        lemma_zero_message(m.drop_last());
        assert(0u32 ^ ((0u8 as u32) << 16) == 0) by (bit_vector);
        lemma_steps_range(0, 8);
    }
}

/// A surveillance reply carries its CRC combined with the aircraft address; the
/// syndrome of such a frame is the CRC of the three address bytes.
pub proof fn law_address_overlay(data: Seq<u8>, address: u32)
    requires
        address < 0x0100_0000,
    ensures
        crc24_of(data + be24(crc24_of(data) ^ address)) == crc24_of(be24(address)),
{
    lemma_feed_own_bytes(data, address);
}

/// Only the zero address has CRC zero.
proof fn lemma_address_crc_zero(v: u32)
    requires
        v < 0x0100_0000,
        crc24_of(be24(v)) == 0,
    ensures
        v == 0,
{
    let m = be24(v);
    let c0 = m[0] as u32;
    let c1 = m[1] as u32;
    let c2 = m[2] as u32;
    let m2 = m.drop_last();
    let m1 = m2.drop_last();
    assert(m.last() == m[2] && m2.last() == m[1] && m1.last() == m[0]);
    assert(m1.drop_last() =~= Seq::<u8>::empty());
    assert(crc24_of(m1.drop_last()) == 0);
    let s1 = crc24_of(m1);
    let s2 = crc24_of(m2);
    let x0: u32 = c0 << 16;
    let x1: u32 = c1 << 16;
    let x2: u32 = c2 << 16;
    let y2: u32 = c2 << 8;
    let y1: u32 = (c1 << 8) ^ c2;
    assert(x0 < 0x0100_0000 && x1 < 0x0100_0000 && x2 < 0x0100_0000 && y2 < 0x1_0000 && y2 << 8 == x2 && y1 < 0x1_0000
        && y1 << 8 == x1 ^ y2 && 0u32 ^ x0 == x0 && (x0 == y1 ==> v == 0)) by (bit_vector)
        requires
            v < 0x0100_0000u32,
            c0 == (((v >> 16) & 0xFF) as u8) as u32,
            c1 == (((v >> 8) & 0xFF) as u8) as u32,
            c2 == ((v & 0xFF) as u8) as u32,
            x0 == c0 << 16,
            x1 == c1 << 16,
            x2 == c2 << 16,
            y2 == c2 << 8,
            y1 == (c1 << 8) ^ c2,
    ;
    lemma_crc_range(m1);
    lemma_crc_range(m2);
    lemma_xor_range(s2, x2);
    lemma_xor_range(s1, x1);
    lemma_xor_range(x1, y2);
    // Each step back tells the register apart from the byte that went in.
    lemma_steps_range(s2 ^ x2, 8);
    lemma_xor_zero(s2, x2);
    lemma_steps_8_low(y2);
    lemma_steps_injective(s1 ^ x1, y2, 8);
    lemma_xor_swap(s1, x1, x1);
    lemma_xor_zero(x1, x1);
    lemma_xor_zero(s1, 0);
    lemma_xor_swap(x1, y2, 0);
    assert(s1 == y1 << 8);
    lemma_steps_8_low(y1);
    lemma_steps_injective(x0, y1, 8);
}

proof fn lemma_xor_range(a: u32, b: u32)
    requires
        a < 0x0100_0000,
        b < 0x0100_0000,
    ensures
        a ^ b < 0x0100_0000,
{
    assert(a ^ b < 0x0100_0000) by (bit_vector)
        requires
            a < 0x0100_0000u32,
            b < 0x0100_0000u32,
    ;
}

/// Different addresses have different CRCs: a surveillance reply tells its sender.
pub proof fn law_address_syndromes_are_distinct(a: u32, b: u32)
    requires
        a < 0x0100_0000,
        b < 0x0100_0000,
        crc24_of(be24(a)) == crc24_of(be24(b)),
    ensures
        a == b,
{
    let v = a ^ b;
    lemma_xor_range(a, b);
    law_crc_linear(be24(a), be24(b));
    lemma_xor_zero(crc24_of(be24(a)), crc24_of(be24(b)));
    assert(((a >> 16) & 0xFF) as u8 ^ ((b >> 16) & 0xFF) as u8 == ((v >> 16) & 0xFF) as u8 && ((a >> 8) & 0xFF) as u8
        ^ ((b >> 8) & 0xFF) as u8 == ((v >> 8) & 0xFF) as u8 && (a & 0xFF) as u8 ^ (b & 0xFF) as u8 == (v & 0xFF) as u8)
        by (bit_vector)
        requires
            v == a ^ b,
    ;
    assert(xor_bytes(be24(a), be24(b)) =~= be24(v));
    lemma_address_crc_zero(v);
    lemma_xor_zero(a, b);
}

/// The CRC of an address other than zero is not zero.
pub proof fn law_address_syndrome_is_not_zero(a: u32)
    requires
        0 < a < 0x0100_0000,
    ensures
        crc24_of(be24(a)) != 0,
{
    if crc24_of(be24(a)) == 0 {
        lemma_address_crc_zero(a);
    }
}

/// The three bytes of an address, in terms of division.
pub proof fn lemma_be24_bytes(v: u32)
    ensures
        be24(v) == seq![(v / 65_536 % 256) as u8, (v / 256 % 256) as u8, (v % 256) as u8],
{
    assert(((v >> 16) & 0xFF) as u8 == (v / 65_536 % 256) as u8 && ((v >> 8) & 0xFF) as u8 == (v / 256 % 256) as u8
        && (v & 0xFF) as u8 == (v % 256) as u8) by (bit_vector);
}

/// [`checked`] leaves one answer for each frame.
pub proof fn law_check_is_determined(before: Seq<u8>, outcome: CrcOutcome, after: Seq<u8>)
    requires
        before.len() == SHORT_FRAME_BYTES || before.len() == LONG_FRAME_BYTES,
        checked(before, outcome, after),
    ensures
        (outcome, after) == check_of(before),
{
    if let CrcOutcome::Corrected { bit } = outcome {
        assert(crc24_of(flip_bit(before, bit as int)) == 0);
        let other = choose|b: int|
            0 <= b < 8 * before.len() && #[trigger] crc24_of(flip_bit(before, b)) == 0;
        lemma_repair_is_unique(before, bit as int, other);
    }
}

proof fn lemma_repair_is_unique(frame: Seq<u8>, a: int, b: int)
    requires
        frame.len() <= LONG_FRAME_BYTES,
        0 <= a < 8 * frame.len(),
        0 <= b < 8 * frame.len(),
        crc24_of(flip_bit(frame, a)) == 0,
        crc24_of(flip_bit(frame, b)) == 0,
    ensures
        a == b,
{
    let n = 8 * frame.len() as int;
    let s = crc24_of(frame);
    lemma_crc_flip(frame, a);
    lemma_crc_flip(frame, b);
    lemma_xor_zero(s, crc_steps(0x0080_0000, (n - a) as nat));
    lemma_xor_zero(s, crc_steps(0x0080_0000, (n - b) as nat));
    if a < b {
        lemma_syndromes_distinct((n - b) as nat, (n - a) as nat);
    } else if b < a {
        lemma_syndromes_distinct((n - a) as nat, (n - b) as nat);
    }
}

/// A single flipped bit in an intact frame is always noticed, and [`check`]
/// restores the frame exactly.
pub proof fn law_single_bit_error_is_repaired(
    frame: Seq<u8>,
    bit: int,
    outcome: CrcOutcome,
    after: Seq<u8>,
)
    requires
        frame.len() == SHORT_FRAME_BYTES || frame.len() == LONG_FRAME_BYTES,
        crc24_of(frame) == 0,
        0 <= bit < 8 * frame.len(),
        checked(flip_bit(frame, bit), outcome, after),
    ensures
        outcome == (CrcOutcome::Corrected { bit: bit as u16 }),
        after == frame,
{
    let bad = flip_bit(frame, bit);
    let n = frame.len() as int;
    let s = crc_steps(0x0080_0000, (8 * n - bit) as nat);
    lemma_crc_flip(frame, bit);
    lemma_xor_zero(s, 0);
    lemma_steps_range(0x0080_0000, (8 * n - bit) as nat);
    lemma_crc_flip(bad, bit);
    lemma_xor_zero(s, s);
    lemma_flip_twice(frame, bit);
    if let CrcOutcome::Corrected { bit: found } = outcome {
        let f = found as int;
        lemma_crc_flip(bad, f);
        lemma_xor_zero(s, crc_steps(0x0080_0000, (8 * n - f) as nat));
        if f < bit {
            lemma_syndromes_distinct((8 * n - bit) as nat, (8 * n - f) as nat);
        } else if f > bit {
            lemma_syndromes_distinct((8 * n - f) as nat, (8 * n - bit) as nat);
        }
    }
}

proof fn lemma_flip_twice(frame: Seq<u8>, bit: int)
    requires
        0 <= bit < 8 * frame.len(),
    ensures
        flip_bit(flip_bit(frame, bit), bit) == frame,
{
    let x = frame[bit / 8];
    let m = bit_mask(bit % 8);
    assert((x ^ m) ^ m == x) by (bit_vector);
    assert(flip_bit(flip_bit(frame, bit), bit) =~= frame);
}

/// Two flipped bits in an intact frame are never mistaken for an intact frame.
pub proof fn law_double_bit_error_is_noticed(
    frame: Seq<u8>,
    first: int,
    second: int,
    outcome: CrcOutcome,
    after: Seq<u8>,
)
    requires
        frame.len() == SHORT_FRAME_BYTES || frame.len() == LONG_FRAME_BYTES,
        crc24_of(frame) == 0,
        0 <= first < second < 8 * frame.len(),
        checked(flip_bit(flip_bit(frame, first), second), outcome, after),
    ensures
        outcome != CrcOutcome::Clean,
{
    let n = frame.len() as int;
    let once = flip_bit(frame, first);
    let s = crc_steps(0x0080_0000, (8 * n - first) as nat);
    let t = crc_steps(0x0080_0000, (8 * n - second) as nat);
    lemma_crc_flip(frame, first);
    lemma_xor_zero(s, t);
    lemma_crc_flip(once, second);
    lemma_syndromes_distinct((8 * n - second) as nat, (8 * n - first) as nat);
}

// --- Implementation ----------------------------------------------------------

/// Computes the Mode S CRC-24 of `bytes` from the byte table. The result
/// occupies the low 24 bits.
#[must_use]
pub fn crc24(bytes: &[u8]) -> (r: u32)
    ensures
        r == crc24_of(bytes@),
        r < 0x0100_0000,
{
    let mut rem: u32 = 0;
    let mut i: usize = 0;
    while i < bytes.len()
        invariant
            i <= bytes@.len(),
            rem == crc24_of(bytes@.take(i as int)),
            rem < 0x0100_0000,
        decreases bytes@.len() - i,
    {
        let b: u8 = bytes[i];
        let idx: u8 = ((rem >> 16) as u8) ^ b;
        let ghost old_rem = rem;
        proof {
            let low: u32 = rem & 0xFFFF;
            assert((rem ^ ((b as u32) << 16)) == low ^ ((idx as u32) << 16) && low < 0x1_0000
                && (forall|t: u32| #![auto] t < 0x0100_0000 ==> ((rem << 8) ^ t) & 0x00FF_FFFF == (low << 8) ^ t))
                by (bit_vector)
                requires
                    rem < 0x0100_0000u32,
                    low == rem & 0xFFFF,
                    idx == ((rem >> 16) as u8) ^ b,
            ;
            lemma_table(idx as u32);
            lemma_steps_linear(low, (idx as u32) << 16, 8);
            lemma_steps_8_low(low);
            assert((idx as u32) << 16 < 0x0100_0000) by (bit_vector);
            lemma_steps_range((idx as u32) << 16, 8);
            assert(bytes@.take(i + 1).drop_last() =~= bytes@.take(i as int));
            lemma_crc_range(bytes@.take(i + 1));
        }
        rem = ((rem << 8) ^ TABLE[idx as usize]) & 0x00FF_FFFF;
        i += 1;
    }
    assert(bytes@.take(bytes@.len() as int) =~= bytes@);
    rem
}

/// Bit-at-a-time computation of the same function as [`crc24`].
#[must_use]
pub fn crc24_bitwise(bytes: &[u8]) -> (r: u32)
    ensures
        r == crc24_of(bytes@),
        r < 0x0100_0000,
{
    let mut rem: u32 = 0;
    let mut i: usize = 0;
    while i < bytes.len()
        invariant
            i <= bytes@.len(),
            rem == crc24_of(bytes@.take(i as int)),
        decreases bytes@.len() - i,
    {
        let ghost before = rem ^ ((bytes@[i as int] as u32) << 16);
        rem = rem ^ ((bytes[i] as u32) << 16);
        let mut k: u32 = 0;
        while k < 8
            invariant
                k <= 8,
                rem == crc_steps(before, k as nat),
            decreases 8 - k,
        {
            if rem & 0x0080_0000 != 0 {
                rem = ((rem << 1) ^ POLY) & 0x00FF_FFFF;
            } else {
                rem = (rem << 1) & 0x00FF_FFFF;
            }
            k += 1;
        }
        assert(bytes@.take(i + 1).drop_last() =~= bytes@.take(i as int));
        i += 1;
    }
    assert(bytes@.take(bytes@.len() as int) =~= bytes@);
    proof {
        lemma_crc_range(bytes@);
    }
    rem
}

/// The position of the single-bit error that leaves `syndrome` in a frame of `n`
/// bytes, if there is one.
pub fn single_bit_correction(syndrome: u32, n: usize) -> (r: Option<u16>)
    ensures
        match r {
            Some(bit) => {
                &&& n == SHORT_FRAME_BYTES || n == LONG_FRAME_BYTES
                &&& bit < 8 * n
                &&& crc_steps(0x0080_0000, (8 * n - bit) as nat) == syndrome
            },
            None => n == SHORT_FRAME_BYTES || n == LONG_FRAME_BYTES ==> forall|bit: int|
                0 <= bit < 8 * n ==> #[trigger] crc_steps(0x0080_0000, (8 * n - bit) as nat) != syndrome,
        },
{
    if n == SHORT_FRAME_BYTES {
        let mut i: usize = 0;
        while i < 56
            invariant
                i <= 56,
                n == SHORT_FRAME_BYTES,
                forall|bit: int| 0 <= bit < i ==> #[trigger] crc_steps(0x0080_0000, (8 * n - bit) as nat) != syndrome,
            decreases 56 - i,
        {
            proof {
                lemma_syndrome_short(i as int);
            }
            if SYNDROME_SHORT[i] == syndrome {
                return Some(i as u16);
            }
            i += 1;
        }
    } else if n == LONG_FRAME_BYTES {
        let mut i: usize = 0;
        while i < 112
            invariant
                i <= 112,
                n == LONG_FRAME_BYTES,
                forall|bit: int| 0 <= bit < i ==> #[trigger] crc_steps(0x0080_0000, (8 * n - bit) as nat) != syndrome,
            decreases 112 - i,
        {
            proof {
                lemma_syndrome_long(i as int);
            }
            if SYNDROME_LONG[i] == syndrome {
                return Some(i as u16);
            }
            i += 1;
        }
    }
    None
}

/// Validates a frame's CRC, repairing a single-bit error in place.
///
/// This is for frames whose CRC is clean (downlink formats 11, 17 and 18).
pub fn check(bytes: &mut [u8]) -> (outcome: CrcOutcome)
    requires
        old(bytes)@.len() == SHORT_FRAME_BYTES || old(bytes)@.len() == LONG_FRAME_BYTES,
    ensures
        checked(old(bytes)@, outcome, final(bytes)@),
        (outcome, final(bytes)@) == check_of(old(bytes)@),
        final(bytes)@.len() == old(bytes)@.len(),
{
    let ghost before = bytes@;
    let n: usize = bytes.len();
    let syndrome: u32 = crc24(bytes);
    if syndrome == 0 {
        return CrcOutcome::Clean;
    }
    let found = single_bit_correction(syndrome, n);
    match found {
        Some(bit) => {
            proof {
                lemma_crc_flip(bytes@, bit as int);
                lemma_xor_zero(syndrome, syndrome);
            }
            let mask: u8 = mask_of((bit % 8) as u8);
            let byte: usize = (bit / 8) as usize;
            bytes[byte] = bytes[byte] ^ mask;
            proof {
                law_check_is_determined(before, CrcOutcome::Corrected { bit }, bytes@);
            }
            CrcOutcome::Corrected { bit }
        },
        None => {
            assert forall|bit: int| 0 <= bit < 8 * n implies #[trigger] crc24_of(flip_bit(bytes@, bit)) != 0 by {
                lemma_crc_flip(bytes@, bit);
                lemma_xor_zero(syndrome, crc_steps(0x0080_0000, (8 * n - bit) as nat));
            }
            CrcOutcome::Failed
        },
    }
}

/// The mask of bit `k` of a byte, counted from the most significant bit.
pub fn mask_of(k: u8) -> (m: u8)
    requires
        k < 8,
    ensures
        m == bit_mask(k as int),
{
    assert(0x80u8 >> 0 == 0x80 && 0x80u8 >> 1 == 0x40 && 0x80u8 >> 2 == 0x20 && 0x80u8 >> 3 == 0x10
        && 0x80u8 >> 4 == 0x08 && 0x80u8 >> 5 == 0x04 && 0x80u8 >> 6 == 0x02 && 0x80u8 >> 7 == 0x01)
        by (bit_vector);
    0x80 >> k
}

} // verus!

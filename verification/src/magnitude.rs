//! Magnitude stage: from `(I, Q)` samples to scalar magnitude.
//!
//! [`alpha_max_beta_min`] approximates the magnitude without multiplication or
//! square root and is what the detector uses. [`lut`] is the magnitude rounded to
//! the nearest integer.

use crate::Iq;
use vstd::prelude::*;

verus! {

// --- Model -------------------------------------------------------------------

/// Absolute value of an integer.
pub open spec fn abs_of(x: int) -> int {
    if x < 0 {
        -x
    } else {
        x
    }
}

/// The larger absolute component of a sample.
pub open spec fn major(s: Iq) -> int {
    if abs_of(s.i as int) >= abs_of(s.q as int) {
        abs_of(s.i as int)
    } else {
        abs_of(s.q as int)
    }
}

/// The smaller absolute component of a sample.
pub open spec fn minor(s: Iq) -> int {
    if abs_of(s.i as int) >= abs_of(s.q as int) {
        abs_of(s.q as int)
    } else {
        abs_of(s.i as int)
    }
}

/// The squared magnitude of a sample.
pub open spec fn power(s: Iq) -> int {
    s.i * s.i + s.q * s.q
}

/// `max(|I|, |Q|) + min(|I|, |Q|) / 2`, the half rounded down.
pub open spec fn amam(s: Iq) -> int {
    major(s) + minor(s) / 2
}

/// The magnitudes of a run of samples.
pub open spec fn amam_all(samples: Seq<Iq>) -> Seq<u16> {
    Seq::new(samples.len(), |i: int| amam(samples[i]) as u16)
}

/// `r` is the square root of `n`, rounded down.
pub open spec fn is_sqrt_floor(n: int, r: int) -> bool {
    0 <= r && r * r <= n < (r + 1) * (r + 1)
}

/// The square root of `n`, rounded down.
pub open spec fn sqrt_floor(n: int) -> int {
    choose|r: int| is_sqrt_floor(n, r)
}

/// Every number has a square root, rounded down.
pub proof fn lemma_sqrt_exists(n: nat)
    ensures
        is_sqrt_floor(n as int, sqrt_floor(n as int)),
        sqrt_floor(n as int) <= n,
    decreases n,
{
    if n == 0 {
        assert(is_sqrt_floor(0, 0)) by (nonlinear_arith);
    } else {
        lemma_sqrt_exists((n - 1) as nat);
        let r = sqrt_floor(n - 1);
        let q = if (r + 1) * (r + 1) <= n {
            r + 1
        } else {
            r
        };
        assert(is_sqrt_floor(n as int, q)) by (nonlinear_arith)
            requires
                0 <= r,
                r * r <= n - 1 < (r + 1) * (r + 1),
                q == if (r + 1) * (r + 1) <= n {
                    r + 1
                } else {
                    r
                },
        {
            assert((r + 2) * (r + 2) > (r + 1) * (r + 1) + 1);
        }
    }
    let r = sqrt_floor(n as int);
    assert(r <= n) by (nonlinear_arith)
        requires
            0 <= r,
            r * r <= n,
    {
        if r >= 1 {
            assert(r * r >= r);
        }
    }
}

/// There is one square root, rounded down.
pub proof fn lemma_sqrt_floor(n: int, r: int)
    requires
        is_sqrt_floor(n, r),
    ensures
        sqrt_floor(n) == r,
{
    let q = sqrt_floor(n);
    assert(q == r) by (nonlinear_arith)
        requires
            0 <= r,
            0 <= q,
            r * r <= n < (r + 1) * (r + 1),
            q * q <= n < (q + 1) * (q + 1),
    {
        if q < r {
            assert((q + 1) * (q + 1) <= r * r);
        }
        if r < q {
            assert((r + 1) * (r + 1) <= q * q);
        }
    }
}

/// `r` is the square root of `n`, rounded to the nearest integer. No square root
/// of an integer lies halfway between two integers.
pub open spec fn is_sqrt_round(n: int, r: int) -> bool {
    0 <= r && r * (r - 1) < n <= r * (r + 1) || (n == 0 && r == 0)
}

// --- Laws --------------------------------------------------------------------

/// The approximation never falls more than half a unit below the true magnitude,
/// and never exceeds it by more than the factor `sqrt(5) / 2`, about 11.8 %.
pub proof fn law_amam_error_bounds(s: Iq)
    ensures
        (2 * amam(s) + 1) * (2 * amam(s) + 1) >= 4 * power(s),
        4 * (amam(s) * amam(s)) <= 5 * power(s),
{
    let a = major(s);
    let b = minor(s);
    let h = b / 2;
    lemma_power_of_components(s);
    assert((2 * (a + h) + 1) * (2 * (a + h) + 1) >= 4 * (a * a + b * b)) by (nonlinear_arith)
        requires
            0 <= b <= a,
            b <= 2 * h + 1,
            2 * h <= b,
    {
        assert(2 * (a + h) + 1 >= 2 * a + b);
        assert((2 * (a + h) + 1) * (2 * (a + h) + 1) >= (2 * a + b) * (2 * a + b));
        assert((2 * a + b) * (2 * a + b) == 4 * (a * a) + 4 * (a * b) + b * b);
        assert(a * b >= b * b);
    }
    assert(4 * ((a + h) * (a + h)) <= 5 * (a * a + b * b)) by (nonlinear_arith)
        requires
            0 <= b <= a,
            0 <= 2 * h <= b,
    {
        assert(4 * ((a + h) * (a + h)) == (2 * a + 2 * h) * (2 * a + 2 * h));
        assert((2 * a + 2 * h) * (2 * a + 2 * h) <= (2 * a + b) * (2 * a + b));
        assert((2 * a + b) * (2 * a + b) == 4 * (a * a) + 4 * (a * b) + b * b);
        assert((a - 2 * b) * (a - 2 * b) >= 0);
        assert((a - 2 * b) * (a - 2 * b) == a * a - 4 * (a * b) + 4 * (b * b));
    }
}

/// Where the smaller component is at most one, the approximation is the larger
/// component.
pub proof fn law_amam_reduces_to_major(s: Iq)
    requires
        minor(s) <= 1,
    ensures
        amam(s) == major(s),
{
}

/// The rounded square root is less than a half away from the root, and there is only one.
pub proof fn law_rounded_root_is_nearest(n: int, r: int, q: int)
    requires
        0 <= n,
        is_sqrt_round(n, r),
        is_sqrt_round(n, q),
    ensures
        r == q,
        0 <= r,
        r > 0 ==> (2 * r - 1) * (2 * r - 1) < 4 * n < (2 * r + 1) * (2 * r + 1),
        r == 0 <==> n == 0,
{
    assert(r > 0 ==> (2 * r - 1) * (2 * r - 1) == 4 * (r * (r - 1)) + 1) by (nonlinear_arith);
    assert(r > 0 ==> (2 * r + 1) * (2 * r + 1) == 4 * (r * (r + 1)) + 1) by (nonlinear_arith);
    if n > 0 {
        assert(r == q) by (nonlinear_arith)
            requires
                0 <= r,
                0 <= q,
                r * (r - 1) < n <= r * (r + 1),
                q * (q - 1) < n <= q * (q + 1),
        {
            if q < r {
                assert(q * (q + 1) <= r * (r - 1));
            }
            if r < q {
                assert(r * (r + 1) <= q * (q - 1));
            }
        }
        assert(r > 0) by (nonlinear_arith)
            requires
                0 <= r,
                0 < n <= r * (r + 1),
        ;
    } else {
        assert(r == 0) by (nonlinear_arith)
            requires
                0 <= r,
                r * (r - 1) < 0 || r == 0,
        ;
        assert(q == 0) by (nonlinear_arith)
            requires
                0 <= q,
                q * (q - 1) < 0 || q == 0,
        ;
    }
}

/// The approximation is the larger component and half of the smaller, whatever their signs
/// and their order.
pub proof fn law_amam_ignores_signs(s: Iq, t: Iq)
    requires
        t.i == s.i || t.i == -s.i,
        t.q == s.q || t.q == -s.q,
    ensures
        amam(t) == amam(s),
        amam(Iq { i: s.q, q: s.i }) == amam(s),
        2 * amam(s) <= 2 * major(s) + minor(s) <= 2 * amam(s) + 1,
        s.q == 0 ==> amam(s) == s.i || amam(s) == -s.i,
{
}

proof fn lemma_power_of_components(s: Iq)
    ensures
        power(s) == major(s) * major(s) + minor(s) * minor(s),
        0 <= minor(s) <= major(s) <= 128,
{
    let i = s.i as int;
    let q = s.q as int;
    assert((-i) * (-i) == i * i) by (nonlinear_arith);
    assert((-q) * (-q) == q * q) by (nonlinear_arith);
}

// --- Implementation ----------------------------------------------------------

/// Absolute value of a sample component; `-128` has one.
fn component_abs(x: i8) -> (r: u16)
    ensures
        r == abs_of(x as int),
        r <= 128,
{
    let w: i16 = x as i16;
    if w < 0 {
        (-w) as u16
    } else {
        w as u16
    }
}

/// Alpha-max-plus-beta-min approximation of `|I + jQ|`.
#[must_use]
pub fn alpha_max_beta_min(s: Iq) -> (m: u16)
    ensures
        m == amam(s),
        m <= 192,
{
    let ai: u16 = component_abs(s.i);
    let aq: u16 = component_abs(s.q);
    if ai >= aq {
        ai + aq / 2
    } else {
        aq + ai / 2
    }
}

/// Magnitude rounded to the nearest integer.
#[must_use]
pub fn lut(s: Iq) -> (m: u16)
    ensures
        is_sqrt_round(power(s), m as int),
{
    let ai: u32 = component_abs(s.i) as u32;
    let aq: u32 = component_abs(s.q) as u32;
    proof {
        lemma_power_of_components(s);
        assert(ai * ai <= 16384 && aq * aq <= 16384) by (nonlinear_arith)
            requires
                0 <= ai <= 128,
                0 <= aq <= 128,
        ;
    }
    let sq: u32 = ai * ai + aq * aq;
    let m: u32 = isqrt_round(sq);
    proof {
        assert(m < 256) by (nonlinear_arith)
            requires
                m * (m - 1) < sq || m == 0,
                sq <= 32768,
        ;
    }
    m as u16
}

/// Magnitudes of a batch of samples, by [`alpha_max_beta_min`].
pub fn batch_amam(samples: &[Iq], out: &mut [u16])
    requires
        samples@.len() == old(out)@.len(),
    ensures
        final(out)@ == amam_all(samples@),
{
    let mut i: usize = 0;
    while i < samples.len()
        invariant
            i <= samples@.len(),
            out@.len() == samples@.len(),
            forall|k: int| 0 <= k < i ==> out@[k] == amam_all(samples@)[k],
        decreases samples@.len() - i,
    {
        out[i] = alpha_max_beta_min(samples[i]);
        i += 1;
    }
    assert(out@ =~= amam_all(samples@));
}

/// Magnitudes of a batch of samples, by [`lut`].
pub fn batch_lut(samples: &[Iq], out: &mut [u16])
    requires
        samples@.len() == old(out)@.len(),
    ensures
        final(out)@.len() == samples@.len(),
        forall|k: int| 0 <= k < samples@.len() ==> is_sqrt_round(
            power(#[trigger] samples@[k]),
            final(out)@[k] as int,
        ),
{
    let mut i: usize = 0;
    while i < samples.len()
        invariant
            i <= samples@.len(),
            out@.len() == samples@.len(),
            forall|k: int| 0 <= k < i ==> is_sqrt_round(power(#[trigger] samples@[k]), out@[k] as int),
        decreases samples@.len() - i,
    {
        out[i] = lut(samples[i]);
        i += 1;
    }
}

/// Integer square root, rounded down, by Newton's method.
pub fn isqrt_floor(n: u32) -> (r: u32)
    ensures
        is_sqrt_floor(n as int, r as int),
        r <= 65535,
{
    if n == 0 {
        assert(0int * 0int <= 0int < (0int + 1) * (0int + 1)) by (nonlinear_arith);
        return 0;
    }
    let mut x: u32 = n;
    let mut y: u32 = n / 2 + n % 2;
    proof {
        assert((n + 1) * (n + 1) > n) by (nonlinear_arith)
            requires
                n >= 0,
        ;
        let h = y as int;
        assert((h + 1) * (h + 1) > n) by (nonlinear_arith)
            requires
                2 * h >= n,
                h >= 0,
        ;
    }
    while y < x
        invariant
            n > 0,
            1 <= x <= n,
            1 <= y,
            (x + 1) * (x + 1) > n,
            (y + 1) * (y + 1) > n,
            y >= x ==> x * x <= n,
        decreases x,
    {
        x = y;
        let q: u32 = n / x;
        y = ((x as u64 + q as u64) / 2) as u32;
        proof {
            let xi = x as int;
            let qi = q as int;
            let yi = y as int;
            let ni = n as int;
            assert(xi * qi <= ni < xi * (qi + 1)) by (nonlinear_arith)
                requires
                    qi == ni / xi,
                    xi > 0,
                    ni >= 0,
            ;
            assert((yi + 1) * (yi + 1) > ni) by (nonlinear_arith)
                requires
                    2 * yi + 1 >= xi + qi,
                    ni < xi * (qi + 1),
                    xi > 0,
                    qi >= 0,
                    yi >= 0,
            {
                let t = xi + qi + 1;
                assert(2 * (yi + 1) >= t);
                assert((2 * (yi + 1)) * (2 * (yi + 1)) >= t * t);
                assert((xi - (qi + 1)) * (xi - (qi + 1)) >= 0);
                assert(t * t - 4 * (xi * (qi + 1)) == (xi - (qi + 1)) * (xi - (qi + 1)));
            }
            if yi >= xi {
                assert(xi * xi <= ni) by (nonlinear_arith)
                    requires
                        yi >= xi,
                        2 * yi <= xi + qi,
                        xi * qi <= ni,
                        xi > 0,
                ;
            }
            assert(yi >= 1) by (nonlinear_arith)
                requires
                    (yi + 1) * (yi + 1) > ni,
                    ni > 0,
                    yi >= 0,
                    2 * yi + 1 >= xi + qi,
                    2 * yi <= xi + qi,
                    xi > 0,
                    ni < xi * (qi + 1),
            {
                if yi == 0 {
                    assert(xi == 1 && qi == 0);
                }
            }
        }
    }
    proof {
        assert(x <= 65535) by (nonlinear_arith)
            requires
                x * x <= n,
                n <= 0xFFFF_FFFF,
                x >= 0,
        ;
    }
    x
}

/// Integer square root, rounded to nearest.
pub fn isqrt_round(n: u32) -> (r: u32)
    ensures
        is_sqrt_round(n as int, r as int),
{
    let x: u32 = isqrt_floor(n);
    let ghost xi = x as int;
    let ghost ni = n as int;
    assert(xi * xi <= ni < xi * xi + 2 * xi + 1) by (nonlinear_arith)
        requires
            xi * xi <= ni < (xi + 1) * (xi + 1),
    ;
    let r: u32 = if n - x * x > x {
        x + 1
    } else {
        x
    };
    assert(is_sqrt_round(ni, r as int)) by {
        let ri = r as int;
        assert(ri * (ri - 1) == ri * ri - ri && ri * (ri + 1) == ri * ri + ri) by (nonlinear_arith);
        assert((xi + 1) * (xi + 1) == xi * xi + 2 * xi + 1) by (nonlinear_arith);
        assert(xi == 0 ==> xi * xi == 0) by (nonlinear_arith);
    }
    r
}

// --- Table -------------------------------------------------------------------

/// The absolute value of the signed component that a byte stands for.
pub open spec fn byte_magnitude(b: int) -> int {
    if b < 128 {
        b
    } else {
        256 - b
    }
}

/// The place of a sample in the table: its components as bytes, `i` first.
pub open spec fn table_index(s: Iq) -> int {
    256 * (s.i as int % 256) + s.q as int % 256
}

/// Entry `k` of the table is the magnitude of the sample whose bytes are `k / 256` and
/// `k % 256`.
pub open spec fn is_table_entry(k: int, m: u16) -> bool {
    let a = byte_magnitude(k / 256);
    let b = byte_magnitude(k % 256);
    is_sqrt_round(a * a + b * b, m as int)
}

/// Builds the table of magnitudes of all 65536 samples, each rounded to the nearest
/// integer.
#[must_use]
pub fn build_mag_lut() -> (t: Vec<u16>)
    ensures
        t@.len() == 65_536,
        forall|k: int| 0 <= k < 65_536 ==> is_table_entry(k, #[trigger] t@[k]),
{
    let mut t: Vec<u16> = Vec::with_capacity(65_536);
    let mut k: u32 = 0;
    while k < 65_536
        invariant
            k <= 65_536,
            t@.len() == k,
            forall|j: int| 0 <= j < k ==> is_table_entry(j, #[trigger] t@[j]),
        decreases 65_536 - k,
    {
        let iu: u32 = k / 256;
        let qu: u32 = k % 256;
        let a: u32 = if iu < 128 {
            iu
        } else {
            256 - iu
        };
        let b: u32 = if qu < 128 {
            qu
        } else {
            256 - qu
        };
        proof {
            assert(a * a <= 16_384 && b * b <= 16_384) by (nonlinear_arith)
                requires
                    0 <= a <= 128,
                    0 <= b <= 128,
            ;
        }
        let sq: u32 = a * a + b * b;
        let m: u32 = isqrt_round(sq);
        proof {
            assert(m < 256) by (nonlinear_arith)
                requires
                    m * (m - 1) < sq || m == 0,
                    sq <= 32_768,
            ;
        }
        t.push(m as u16);
        k += 1;
    }
    t
}

/// Looking a sample up in the table gives what [`lut`] computes.
pub proof fn law_table_agrees_with_lut(t: Seq<u16>, s: Iq, m: u16)
    requires
        t.len() == 65_536,
        forall|k: int| 0 <= k < 65_536 ==> is_table_entry(k, #[trigger] t[k]),
        is_sqrt_round(power(s), m as int),
    ensures
        0 <= table_index(s) < 65_536,
        t[table_index(s)] == m,
{
    let k = table_index(s);
    let i = s.i as int;
    let q = s.q as int;
    assert(k / 256 == i % 256 && k % 256 == q % 256);
    let a = byte_magnitude(k / 256);
    let b = byte_magnitude(k % 256);
    assert(a == abs_of(i) && b == abs_of(q));
    assert(a * a == i * i && b * b == q * q) by (nonlinear_arith)
        requires
            a == i || a == -i,
            b == q || b == -q,
    ;
    assert(is_table_entry(k, t[k]));
    let x = t[k] as int;
    let y = m as int;
    let n = power(s);
    assert(x == y) by (nonlinear_arith)
        requires
            0 <= x,
            0 <= y,
            (x * (x - 1) < n <= x * (x + 1)) || (n == 0 && x == 0),
            (y * (y - 1) < n <= y * (y + 1)) || (n == 0 && y == 0),
    {
        if x < y {
            assert(x * (x + 1) <= y * (y - 1));
        }
        if y < x {
            assert(y * (y + 1) <= x * (x - 1));
        }
    }
}

} // verus!

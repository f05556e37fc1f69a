//! Numbers rounded to double precision.
//!
//! A number in double precision is an integer of at most 53 bits over a power of two. The
//! one nearest to a decimal number is found by doubling the number until its integer part
//! has 53 bits, and rounding what is left.

use crate::cpr::{Fraction, Ratio};
use crate::numeral::{lemma_ten, ten};
use crate::report::half_even;
use vstd::arithmetic::power2::{
    lemma2_to64, lemma2_to64_rest, lemma_pow2_adds, lemma_pow2_pos, lemma_pow2_unfold, pow2,
};
use vstd::bits::{lemma_u64_shl_is_mul, lemma_u64_shr_is_div};
use vstd::prelude::*;

verus! {

// --- Model -------------------------------------------------------------------

/// The least integer of 53 bits.
pub const LEAST_MANTISSA: u64 = 0x10_0000_0000_0000;

/// The power of two below which nothing is told apart.
pub const FINEST_SCALE: u32 = 1074;

/// How often `n / d`, doubled `s` times already, is doubled until it has 53 bits before
/// the point, or is as fine as can be told apart.
pub open spec fn scale_from(n: nat, d: nat, s: nat) -> nat
    decreases FINEST_SCALE - s,
{
    if s >= FINEST_SCALE || n * pow2(s) / d >= LEAST_MANTISSA {
        s
    } else {
        scale_from(n, d, s + 1)
    }
}

/// The number in double precision nearest to `n / d`, the even one if two are, for a
/// number below 2^52: an integer, and the power of two that it is over.
pub open spec fn nearest_double(n: nat, d: nat) -> (nat, nat) {
    let s = scale_from(n, d, 0);
    (half_even((n * pow2(s)) as int, d as int) as nat, s)
}

/// `a` is less than `b`.
pub open spec fn double_below(a: (nat, nat), b: (nat, nat)) -> bool {
    a.0 * pow2(b.1) < b.0 * pow2(a.1)
}

/// The integer and the power of two have the form of a number in double precision.
pub open spec fn is_double(x: (nat, nat)) -> bool {
    &&& x.1 <= FINEST_SCALE
    &&& x.0 <= 2 * LEAST_MANTISSA
    &&& x.1 < FINEST_SCALE ==> x.0 >= LEAST_MANTISSA
}

/// As a fraction, with a sign. What is finer than 2^-62 is cut off.
pub open spec fn as_fraction(negative: bool, x: (nat, nat)) -> Fraction {
    let (num, den) = if x.1 <= 62 {
        (x.0, pow2(x.1))
    } else {
        (x.0 / pow2((x.1 - 62) as nat), pow2(62))
    };
    Fraction {
        num: if negative {
            -(num as int)
        } else {
            num as int
        },
        den: den as int,
    }
}

proof fn lemma_scale(n: nat, d: nat, s: nat)
    requires
        d > 0,
        s <= FINEST_SCALE,
        n * pow2(s) < 2 * LEAST_MANTISSA * d,
    ensures
        s <= scale_from(n, d, s) <= FINEST_SCALE,
        n * pow2(scale_from(n, d, s)) < 2 * LEAST_MANTISSA * d,
        scale_from(n, d, s) < FINEST_SCALE ==> n * pow2(scale_from(n, d, s)) / d >= LEAST_MANTISSA,
    decreases FINEST_SCALE - s,
{
    if s < FINEST_SCALE && n * pow2(s) / d < LEAST_MANTISSA {
        lemma_pow2_unfold(s + 1);
        let x = n * pow2(s);
        assert(n * (2 * pow2(s)) == 2 * x) by (nonlinear_arith)
            requires
                x == n * pow2(s),
        ;
        let m = LEAST_MANTISSA as nat;
        assert(2 * x < 2 * m * d) by (nonlinear_arith)
            requires
                x / d < m,
                d > 0,
        {
            let q = x / d;
            assert(x == d * q + x % d && x % d < d);
            assert(d * q + d <= d * m);
        }
        lemma_scale(n, d, s + 1);
    }
}

/// The nearest number has the form of one in double precision.
pub proof fn lemma_nearest_is_double(n: nat, d: nat)
    requires
        d > 0,
        n < 1000 * d,
    ensures
        is_double(nearest_double(n, d)),
{
    lemma2_to64();
    assert(n * 1 == n);
    assert(n * pow2(0) < 2 * LEAST_MANTISSA * d) by (nonlinear_arith)
        requires
            n < 1000 * d,
            pow2(0) == 1,
            LEAST_MANTISSA == 0x10_0000_0000_0000,
            d > 0,
    ;
    lemma_scale(n, d, 0);
    let x = n * pow2(scale_from(n, d, 0));
    let m = LEAST_MANTISSA as nat;
    assert(0 <= x / d < 2 * m) by (nonlinear_arith)
        requires
            x < 2 * m * d,
            x >= 0,
            d > 0,
    {
        let q = x / d;
        assert(x == d * q + x % d && x % d >= 0);
        if q >= 2 * m {
            assert(d * q >= d * (2 * m));
        }
    }
}

/// The nearest number is off by at most half of what can be told apart.
pub proof fn law_nearest_double_is_near(n: nat, d: nat)
    requires
        d > 0,
        n < 1000 * d,
    ensures
        ({
            let (m, s) = nearest_double(n, d);
            -(d as int) <= 2 * (m * d - n * pow2(s)) <= d
        }),
{
    lemma_nearest_is_double(n, d);
    let (m, s) = nearest_double(n, d);
    let x = (n * pow2(s)) as int;
    let di = d as int;
    let q = x / di;
    let r = x % di;
    vstd::arithmetic::div_mod::lemma_fundamental_div_mod(x, di);
    vstd::arithmetic::div_mod::lemma_mod_bound(x, di);
    assert(x >= 0) by (nonlinear_arith)
        requires
            x == n * pow2(s),
            n >= 0,
            pow2(s) >= 0,
    ;
    assert(q >= 0) by (nonlinear_arith)
        requires
            q == x / di,
            x >= 0,
            di > 0,
    ;
    assert(m == q || m == q + 1);
    assert((q + 1) * di == q * di + di) by (nonlinear_arith);
    assert(di * q == q * di) by (nonlinear_arith);
}

// --- Decimal digits ----------------------------------------------------------

/// Every byte is a digit.
pub open spec fn is_decimal(s: Seq<u8>) -> bool {
    forall|i: int| 0 <= i < s.len() ==> #[trigger] s[i] <= 9
}

/// The number that digits write.
pub open spec fn number(s: Seq<u8>) -> nat
    decreases s.len(),
{
    if s.len() == 0 {
        0
    } else {
        10 * number(s.drop_last()) + s.last() as nat
    }
}

pub proof fn lemma_number_append(a: Seq<u8>, b: Seq<u8>)
    ensures
        number(a + b) == number(a) * ten(b.len()) + number(b),
    decreases b.len(),
{
    let n = number(a);
    if b.len() == 0 {
        assert(a + b =~= a);
        assert(n * 1 == n);
    } else {
        assert((a + b).drop_last() =~= a + b.drop_last());
        lemma_number_append(a, b.drop_last());
        let t = ten((b.len() - 1) as nat);
        assert(10 * (n * t) == n * (10 * t)) by (nonlinear_arith);
    }
}

proof fn lemma_number_front(s: Seq<u8>)
    requires
        s.len() > 0,
    ensures
        number(s) == s[0] * ten((s.len() - 1) as nat) + number(s.skip(1)),
{
    let one = seq![s[0]];
    assert(one.drop_last() =~= Seq::<u8>::empty());
    assert(number(one.drop_last()) == 0);
    assert(number(one) == s[0]);
    assert(s =~= one + s.skip(1));
    lemma_number_append(one, s.skip(1));
}

pub proof fn lemma_number_bound(s: Seq<u8>)
    requires
        is_decimal(s),
    ensures
        number(s) < ten(s.len()),
    decreases s.len(),
{
    if s.len() > 0 {
        let front = s.drop_last();
        assert forall|i: int| 0 <= i < front.len() implies #[trigger] front[i] <= 9 by {
            assert(front[i] == s[i]);
        }
        assert(s[s.len() - 1] <= 9);
        lemma_number_bound(front);
    }
}

/// Doubles a fraction given by its digits, and returns the integer part.
fn double_fraction(f: &mut Vec<u8>) -> (carry: u8)
    requires
        is_decimal(old(f)@),
    ensures
        is_decimal(final(f)@),
        final(f)@.len() == old(f)@.len(),
        carry <= 1,
        number(final(f)@) + carry * ten(old(f)@.len()) == 2 * number(old(f)@),
{
    let ghost before = f@;
    let n: usize = f.len();
    let mut carry: u8 = 0;
    let mut i: usize = n;
    assert(f@.skip(n as int) =~= Seq::<u8>::empty());
    assert(before.skip(n as int) =~= Seq::<u8>::empty());
    assert(0 * ten(0) == 0);
    while i > 0
        invariant
            i <= n,
            n == f@.len(),
            n == before.len(),
            is_decimal(before),
            is_decimal(f@),
            carry <= 1,
            forall|k: int| 0 <= k < i ==> f@[k] == before[k],
            number(f@.skip(i as int)) + carry * ten((n - i) as nat) == 2 * number(before.skip(i as int)),
        decreases i,
    {
        let ghost last = f@;
        let ghost in_carry = carry as nat;
        i -= 1;
        assert(f@[i as int] <= 9);
        let d: u8 = 2 * f[i] + carry;
        f[i] = d % 10;
        carry = d / 10;
        proof {
            let t = ten((n - i - 1) as nat);
            assert(f@.skip(i as int).skip(1) =~= last.skip(i + 1));
            assert(before.skip(i as int).skip(1) =~= before.skip(i + 1));
            lemma_number_front(f@.skip(i as int));
            lemma_number_front(before.skip(i as int));
            assert(f@.skip(i as int)[0] == d % 10);
            assert(before.skip(i as int)[0] == before[i as int]);
            assert(ten((n - i) as nat) == 10 * t);
            let lo = (d % 10) as nat;
            let hi = (d / 10) as nat;
            let b = before[i as int] as nat;
            let y = number(last.skip(i + 1));
            let z = number(before.skip(i + 1));
            assert(lo * t + y + hi * (10 * t) == 2 * (b * t + z)) by (nonlinear_arith)
                requires
                    lo + 10 * hi == 2 * b + in_carry,
                    y + in_carry * t == 2 * z,
            {
                assert(lo * t + hi * (10 * t) == (lo + 10 * hi) * t);
                assert((2 * b + in_carry) * t == 2 * (b * t) + in_carry * t);
            }
        }
    }
    assert(f@.skip(0) =~= f@);
    assert(before.skip(0) =~= before);
    carry
}

/// Whether all digits are zero.
fn is_nothing(f: &Vec<u8>) -> (yes: bool)
    requires
        is_decimal(f@),
    ensures
        yes == (number(f@) == 0),
{
    let mut i: usize = 0;
    let ghost none = Seq::<u8>::empty();
    assert(f@.take(0) =~= none);
    while i < f.len()
        invariant
            i <= f@.len(),
            number(f@.take(i as int)) == 0,
        decreases f@.len() - i,
    {
        assert(f@.take(i + 1).drop_last() =~= f@.take(i as int));
        if f[i] != 0 {
            proof {
                let head = f@.take(i + 1);
                let tail = f@.skip(i + 1);
                assert(f@ =~= head + tail);
                lemma_number_append(head, tail);
                lemma_ten(tail.len());
                let x = number(head);
                let t = ten(tail.len());
                assert(x * t >= 1) by (nonlinear_arith)
                    requires
                        x >= 1,
                        t >= 1,
                ;
            }
            return false;
        }
        i += 1;
    }
    assert(f@.take(f@.len() as int) =~= f@);
    true
}

/// The nearest number to an integer and a fraction given by its digits.
pub(crate) fn nearest_of_parts(head: u64, fraction: Vec<u8>, Ghost(n): Ghost<nat>) -> (r: (u64, u32))
    requires
        head < 1000,
        is_decimal(fraction@),
        n == head * ten(fraction@.len()) + number(fraction@),
    ensures
        (r.0 as nat, r.1 as nat) == nearest_double(n, ten(fraction@.len())),
        is_double((r.0 as nat, r.1 as nat)),
{
    let mut f: Vec<u8> = fraction;
    let ghost len = f@.len();
    let ghost d = ten(len);
    let mut m: u64 = head;
    let mut s: u32 = 0;
    proof {
        lemma_ten(len);
        lemma2_to64();
        assert(n * 1 == n);
        lemma_number_bound(f@);
        let h = head as nat;
        let r = number(f@);
        assert(h * d + r < 1000 * d) by (nonlinear_arith)
            requires
                h <= 999,
                r < d,
        ;
        lemma_nearest_is_double(n, d);
        lemma_parts(n, d, h, r);
    }
    while s < FINEST_SCALE && m < LEAST_MANTISSA
        invariant
            s <= FINEST_SCALE,
            m < 2 * LEAST_MANTISSA,
            is_decimal(f@),
            f@.len() == len,
            d == ten(len),
            d >= 1,
            n * pow2(s as nat) == m * d + number(f@),
            n * pow2(s as nat) / d == m,
            scale_from(n, d, 0) == scale_from(n, d, s as nat),
        decreases FINEST_SCALE - s,
    {
        let ghost r = number(f@);
        let ghost before = m as nat;
        let carry: u8 = double_fraction(&mut f);
        m = 2 * m + carry as u64;
        proof {
            lemma_pow2_unfold((s + 1) as nat);
            lemma_number_bound(f@);
            let p = pow2(s as nat);
            let c = carry as nat;
            let k = number(f@);
            assert(n * (2 * p) == (2 * before + c) * d + k) by (nonlinear_arith)
                requires
                    n * p == before * d + r,
                    k + c * d == 2 * r,
            {
                assert(n * (2 * p) == 2 * (n * p));
                assert((2 * before + c) * d == 2 * (before * d) + c * d);
            }
            lemma_parts(n * pow2((s + 1) as nat), d, m as nat, k);
        }
        s += 1;
    }
    proof {
        lemma_number_bound(f@);
        lemma_parts(n * pow2(s as nat), d, m as nat, number(f@));
    }
    let ghost r = number(f@);
    let odd: bool = m % 2 == 1;
    let half: u8 = double_fraction(&mut f);
    let whole: bool = is_nothing(&f);
    proof {
        lemma_number_bound(f@);
        let h = half as nat;
        assert(h * d == (if h == 0 { 0 } else { d })) by (nonlinear_arith)
            requires
                h == 0 || h == 1,
        ;
        assert(2 * r < d <==> half == 0);
        assert(2 * r == d <==> half == 1 && whole);
    }
    if half == 1 && (!whole || odd) {
        m += 1;
    }
    (m, s)
}

proof fn lemma_parts(x: nat, d: nat, q: nat, r: nat)
    requires
        d >= 1,
        r < d,
        x == q * d + r,
    ensures
        x / d == q,
        x % d == r,
        x as int / d as int == q,
        x as int % d as int == r,
{
    assert(q * d == d * q) by (nonlinear_arith);
    vstd::arithmetic::div_mod::lemma_fundamental_div_mod_converse(x as int, d as int, q as int, r as int);
}

// --- Doubles -----------------------------------------------------------------

/// A number in double precision.
#[derive(Debug, Clone, Copy)]
pub struct Double {
    negative: bool,
    mantissa: u64,
    scale: u32,
}

impl Double {
    #[verifier::type_invariant]
    closed spec fn inv(self) -> bool {
        is_double((self.mantissa as nat, self.scale as nat))
    }

    /// Its sign.
    pub closed spec fn sign(&self) -> bool {
        self.negative
    }

    /// Its magnitude: an integer, and the power of two that it is over.
    pub closed spec fn magnitude(&self) -> (nat, nat) {
        (self.mantissa as nat, self.scale as nat)
    }

    pub(crate) fn new(negative: bool, mantissa: u64, scale: u32) -> (x: Double)
        requires
            is_double((mantissa as nat, scale as nat)),
        ensures
            x.sign() == negative,
            x.magnitude() == (mantissa as nat, scale as nat),
    {
        Double { negative, mantissa, scale }
    }

    /// Whether it is negative, the integer, and the power of two that it is over.
    #[must_use]
    pub fn parts(&self) -> (p: (bool, u64, u32))
        ensures
            p.0 == self.sign(),
            (p.1 as nat, p.2 as nat) == self.magnitude(),
            is_double(self.magnitude()),
    {
        proof {
            use_type_invariant(self);
        }
        (self.negative, self.mantissa, self.scale)
    }

    /// Whether its magnitude is at most `bound`.
    #[must_use]
    pub fn is_within(&self, bound: u8) -> (yes: bool)
        requires
            64 <= bound,
        ensures
            yes == (self.magnitude().0 <= bound * pow2(self.magnitude().1)),
            is_double(self.magnitude()),
    {
        proof {
            use_type_invariant(self);
            lemma2_to64();
            lemma2_to64_rest();
        }
        if self.scale >= 47 {
            proof {
                let b = bound as nat;
                let k = (self.scale - 47) as nat;
                let p = pow2(k);
                lemma_pow2_adds(47, k);
                lemma_pow2_pos(k);
                assert(b * (0x8000_0000_0000 * p) >= 0x20_0000_0000_0000) by (nonlinear_arith)
                    requires
                        b >= 64,
                        p >= 1,
                {
                    assert(b * (0x8000_0000_0000 * p) >= 64 * (0x8000_0000_0000 * p));
                }
            }
            return true;
        }
        let power: u64 = 1u64 << self.scale as u64;
        proof {
            let s = self.scale as nat;
            if s < 46 {
                vstd::arithmetic::power2::lemma_pow2_strictly_increases(s, 46);
            }
            assert(pow2(s) * 1 == pow2(s));
            lemma_u64_shl_is_mul(1, self.scale as u64);
            assert(power == pow2(s));
            let b = bound as nat;
            assert(b * pow2(s) <= 255 * 0x4000_0000_0000) by (nonlinear_arith)
                requires
                    b <= 255,
                    pow2(s) <= 0x4000_0000_0000,
            ;
        }
        self.mantissa <= bound as u64 * power
    }

    /// Whether it is less than another.
    #[must_use]
    pub fn is_less(&self, other: &Double) -> (yes: bool)
        ensures
            yes == signed_below(self.sign(), self.magnitude(), other.sign(), other.magnitude()),
    {
        proof {
            use_type_invariant(self);
            use_type_invariant(other);
        }
        if self.negative && other.negative {
            other.is_smaller(self)
        } else if self.negative {
            self.mantissa > 0 || other.mantissa > 0
        } else if other.negative {
            false
        } else {
            self.is_smaller(other)
        }
    }

    /// Whether its magnitude is less than that of another.
    fn is_smaller(&self, other: &Double) -> (yes: bool)
        ensures
            yes == double_below(self.magnitude(), other.magnitude()),
    {
        proof {
            use_type_invariant(self);
            use_type_invariant(other);
            lemma_double_order(self.magnitude(), other.magnitude());
        }
        if self.scale == other.scale {
            self.mantissa < other.mantissa
        } else if self.scale < other.scale {
            false
        } else {
            // Only a number that was rounded up to the next power of two meets it.
            !(self.scale - other.scale == 1 && self.mantissa == 2 * LEAST_MANTISSA && other.mantissa
                == LEAST_MANTISSA)
        }
    }

    /// The number, cut off at 2^-62.
    #[must_use]
    pub fn to_ratio(&self) -> (r: Ratio)
        requires
            self.magnitude().0 <= 720 * pow2(self.magnitude().1),
        ensures
            r@ == as_fraction(self.sign(), self.magnitude()),
    {
        proof {
            use_type_invariant(self);
            lemma2_to64();
            lemma2_to64_rest();
        }
        let (num, den): (u64, u64) = if self.scale <= 62 {
            let power: u64 = 1u64 << self.scale as u64;
            proof {
                let s = self.scale as nat;
                if s < 62 {
                    vstd::arithmetic::power2::lemma_pow2_strictly_increases(s, 62);
                }
                assert(pow2(s) * 1 == pow2(s));
                lemma_u64_shl_is_mul(1, self.scale as u64);
                lemma_pow2_pos(s);
            }
            (self.mantissa, power)
        } else {
            let k: u32 = self.scale - 62;
            proof {
                lemma_cut(self.mantissa as nat, self.scale as nat);
            }
            let cut: u64 = if k < 64 {
                proof {
                    lemma_u64_shr_is_div(self.mantissa, k as u64);
                }
                self.mantissa >> k as u64
            } else {
                0
            };
            (cut, 0x4000_0000_0000_0000)
        };
        let signed: i64 = if self.negative {
            -(num as i64)
        } else {
            num as i64
        };
        Ratio::new(signed, den as i64).unwrap()
    }
}

/// A number is less than another, by sign and magnitude.
pub open spec fn signed_below(m: bool, a: (nat, nat), n: bool, b: (nat, nat)) -> bool {
    if m && n {
        double_below(b, a)
    } else if m {
        a.0 > 0 || b.0 > 0
    } else if n {
        false
    } else {
        double_below(a, b)
    }
}

/// A number within a bound is within it as a fraction.
pub proof fn lemma_fraction_within(negative: bool, x: (nat, nat), bound: nat)
    requires
        is_double(x),
        x.0 <= bound * pow2(x.1),
        bound >= 1,
    ensures
        as_fraction(negative, x).within(-(bound as int), bound as int),
        as_fraction(negative, x).den > 0,
{
    lemma2_to64();
    lemma2_to64_rest();
    lemma_pow2_pos(x.1);
    lemma_pow2_pos(62);
    if x.1 > 62 {
        lemma_cut(x.0, x.1);
        let t = pow2(62);
        assert(bound * t >= t) by (nonlinear_arith)
            requires
                bound >= 1,
                t >= 0,
        ;
    }
    let f = as_fraction(negative, x);
    let b = bound as int;
    let d = f.den;
    assert((-b) * d == -(b * d)) by (nonlinear_arith);
}

proof fn lemma_double_order(a: (nat, nat), b: (nat, nat))
    requires
        is_double(a),
        is_double(b),
    ensures
        a.1 == b.1 ==> (double_below(a, b) <==> a.0 < b.0),
        a.1 < b.1 ==> !double_below(a, b),
        a.1 > b.1 ==> (double_below(a, b) <==> !(a.1 - b.1 == 1 && a.0 == 2 * LEAST_MANTISSA && b.0
            == LEAST_MANTISSA)),
{
    lemma2_to64();
    let m = LEAST_MANTISSA as nat;
    lemma_pow2_pos(a.1);
    lemma_pow2_pos(b.1);
    let x = a.0;
    let y = b.0;
    if a.1 == b.1 {
        let p = pow2(a.1);
        assert(x * p < y * p <==> x < y) by (nonlinear_arith)
            requires
                p > 0,
        ;
    } else if a.1 < b.1 {
        let k = (b.1 - a.1) as nat;
        lemma_pow2_adds(a.1, k);
        lemma_twice(k);
        let p = pow2(a.1);
        let t = pow2(k);
        assert(x * (p * t) >= y * p) by (nonlinear_arith)
            requires
                x >= m,
                y <= 2 * m,
                t >= 2,
                p > 0,
        {
            assert(x * t >= m * 2) by (nonlinear_arith)
                requires
                    x >= m,
                    t >= 2,
                    m >= 0,
            ;
            assert(x * (p * t) == (x * t) * p);
            assert((x * t) * p >= y * p);
        }
    } else {
        let k = (a.1 - b.1) as nat;
        lemma_pow2_adds(b.1, k);
        lemma_twice(k);
        let p = pow2(b.1);
        let t = pow2(k);
        assert(x * p < y * (p * t) <==> x < y * t) by (nonlinear_arith)
            requires
                p > 0,
        {
            assert(y * (p * t) == (y * t) * p);
        }
        if k == 1 {
            assert(y * 2 >= 2 * m);
        } else {
            assert(y * t >= 4 * m) by (nonlinear_arith)
                requires
                    y >= m,
                    t >= 4,
                    m >= 0,
            ;
        }
    }
}

proof fn lemma_twice(k: nat)
    requires
        k >= 1,
    ensures
        pow2(k) >= 2,
        k == 1 ==> pow2(k) == 2,
        k >= 2 ==> pow2(k) >= 4,
    decreases k,
{
    lemma2_to64();
    if k > 2 {
        lemma_twice((k - 1) as nat);
        lemma_pow2_unfold(k);
    }
}

/// What is left of a number that is cut off at 2^-62.
proof fn lemma_cut(m: nat, s: nat)
    requires
        s > 62,
        m <= 2 * LEAST_MANTISSA,
    ensures
        s - 62 >= 64 ==> m / pow2((s - 62) as nat) == 0,
        m / pow2((s - 62) as nat) <= m,
{
    let k = (s - 62) as nat;
    let p = pow2(k);
    lemma_pow2_pos(k);
    lemma2_to64();
    lemma2_to64_rest();
    if k >= 64 {
        if k > 64 {
            vstd::arithmetic::power2::lemma_pow2_strictly_increases(64, k);
        }
        vstd::arithmetic::div_mod::lemma_basic_div(m as int, p as int);
    }
    assert(m / p <= m) by (nonlinear_arith)
        requires
            p >= 1,
            m >= 0,
    ;
}

} // verus!

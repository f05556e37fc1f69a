//! Compact Position Reporting (CPR).
//!
//! A position report carries 17 bits of latitude and 17 of longitude, counted
//! within a zone of a grid. There are two grids, even and odd, with different
//! numbers of zones. One report of each kind determines the position
//! ([`global_decode`]); a single report determines it near a known reference
//! ([`local_decode`]).
//!
//! Angles are exact: every decoded position is a whole number of grid steps, and a
//! grid step is a fraction of a turn.

use vstd::prelude::*;

verus! {

/// Latitude zones between the equator and a pole.
pub const NZ_AIRBORNE: u32 = 15;

/// Steps of the 17-bit fraction in a zone.
pub const CPR_STEPS: i64 = 131_072;

// --- Exact numbers -----------------------------------------------------------

/// An exact rational number of magnitude at most 720, such as an angle in degrees.
#[derive(Debug, Clone, Copy)]
pub struct Ratio {
    num: i64,
    den: i64,
}

/// The largest denominator of a [`Ratio`].
pub const MAX_DENOMINATOR: i64 = 0x4000_0000_0000_0000;

/// A fraction.
pub struct Fraction {
    pub num: int,
    pub den: int,
}

impl Fraction {
    pub open spec fn valid(self) -> bool {
        &&& 0 < self.den <= MAX_DENOMINATOR
        &&& -720 * self.den <= self.num <= 720 * self.den
    }

    /// Both fractions stand for the same number.
    pub open spec fn same(self, other: Fraction) -> bool {
        self.num * other.den == other.num * self.den
    }

    /// The number is at most `other`.
    pub open spec fn at_most(self, other: Fraction) -> bool {
        self.num * other.den <= other.num * self.den
    }

    /// The number lies between two integers.
    pub open spec fn within(self, low: int, high: int) -> bool {
        low * self.den <= self.num <= high * self.den
    }
}

impl View for Ratio {
    type V = Fraction;

    closed spec fn view(&self) -> Fraction {
        Fraction { num: self.num as int, den: self.den as int }
    }
}

impl Ratio {
    #[verifier::type_invariant]
    closed spec fn inv(self) -> bool {
        self@.valid()
    }

    /// The exact number that a fraction stands for.
    pub closed spec fn of(f: Fraction) -> Ratio {
        Ratio { num: f.num as i64, den: f.den as i64 }
    }

    /// A number is determined by its fraction.
    pub broadcast proof fn lemma_of(self)
        ensures
            #[trigger] Ratio::of(self@) == self,
    {
    }

    /// The number of a fraction has that fraction, if both parts fit.
    pub proof fn law_fraction_is_kept(f: Fraction)
        requires
            i64::MIN <= f.num <= i64::MAX,
            i64::MIN <= f.den <= i64::MAX,
        ensures
            Ratio::of(f)@ == f,
    {
    }

    /// The number `num / den`, if it is in range.
    #[must_use]
    pub fn new(num: i64, den: i64) -> (r: Option<Ratio>)
        ensures
            match r {
                Some(v) => v@ == (Fraction { num: num as int, den: den as int }) && v@.valid(),
                None => !(Fraction { num: num as int, den: den as int }).valid(),
            },
    {
        if den <= 0 || den > MAX_DENOMINATOR {
            return None;
        }
        if (num as i128) < -720 * den as i128 || num as i128 > 720 * den as i128 {
            return None;
        }
        Some(Ratio { num, den })
    }

    /// The numerator.
    #[must_use]
    pub fn num(&self) -> (n: i64)
        ensures
            n == self@.num,
            self@.valid(),
    {
        proof {
            use_type_invariant(self);
        }
        self.num
    }

    /// The denominator, which is positive.
    #[must_use]
    pub fn den(&self) -> (d: i64)
        ensures
            d == self@.den,
            self@.valid(),
    {
        proof {
            use_type_invariant(self);
        }
        self.den
    }

    /// Whether the number is at most `other`.
    #[must_use]
    pub fn at_most(&self, other: &Ratio) -> (yes: bool)
        ensures
            yes == self@.at_most(other@),
    {
        let a: i64 = self.num();
        let b: i64 = self.den();
        let c: i64 = other.num();
        let d: i64 = other.den();
        proof {
            lemma_cross(a as int, d as int);
            lemma_cross(c as int, b as int);
        }
        a as i128 * d as i128 <= c as i128 * b as i128
    }

    /// Whether the number lies between two integers.
    #[must_use]
    pub fn within(&self, low: i64, high: i64) -> (yes: bool)
        requires
            -720 <= low <= 720,
            -720 <= high <= 720,
        ensures
            yes == self@.within(low as int, high as int),
    {
        let n: i64 = self.num();
        let d: i64 = self.den();
        proof {
            assert(-720 * d <= low * d <= 720 * d && -720 * d <= high * d <= 720 * d) by (nonlinear_arith)
                requires
                    -720 <= low <= 720,
                    -720 <= high <= 720,
                    d > 0,
            ;
        }
        low as i128 * d as i128 <= n as i128 && n as i128 <= high as i128 * d as i128
    }
}

proof fn lemma_cross(a: int, d: int)
    requires
        i64::MIN <= a <= i64::MAX,
        0 < d <= MAX_DENOMINATOR,
    ensures
        i128::MIN <= a * d <= i128::MAX,
{
    assert(-0x8000_0000_0000_0000 * 0x4000_0000_0000_0000 <= a * d <= 0x8000_0000_0000_0000
        * 0x4000_0000_0000_0000) by (nonlinear_arith)
        requires
            -0x8000_0000_0000_0000 <= a <= 0x8000_0000_0000_0000,
            0 < d <= 0x4000_0000_0000_0000,
    ;
}

impl PartialEq for Ratio {
    fn eq(&self, other: &Ratio) -> (yes: bool) {
        let a: i64 = self.num();
        let b: i64 = self.den();
        let c: i64 = other.num();
        let d: i64 = other.den();
        proof {
            lemma_cross(a as int, d as int);
            lemma_cross(c as int, b as int);
        }
        a as i128 * d as i128 == c as i128 * b as i128
    }
}

impl vstd::std_specs::cmp::PartialEqSpecImpl for Ratio {
    open spec fn obeys_eq_spec() -> bool {
        true
    }

    open spec fn eq_spec(&self, other: &Ratio) -> bool {
        self@.same(other@)
    }
}

/// A geodetic position in degrees.
#[derive(Debug, Clone, Copy, PartialEq)]
pub struct LatLon {
    pub lat_deg: Ratio,
    pub lon_deg: Ratio,
}

// --- Reports -----------------------------------------------------------------

/// A position report: the 17-bit fractions of latitude and longitude, and the grid
/// they refer to.
#[derive(Debug, Clone, Copy, PartialEq, Eq, Structural)]
pub struct CprPosition {
    pub lat_cpr: u32,
    pub lon_cpr: u32,
    /// `false` for the even grid, `true` for the odd one.
    pub odd: bool,
}

impl CprPosition {
    /// The fields hold 17 bits each.
    pub open spec fn valid(self) -> bool {
        &&& self.lat_cpr < CPR_STEPS
        &&& self.lon_cpr < CPR_STEPS
    }

    /// The latitude fraction, in `[0, 1)`.
    #[must_use]
    pub fn lat_frac(self) -> (f: Ratio)
        requires
            self.valid(),
        ensures
            f@ == (Fraction { num: self.lat_cpr as int, den: CPR_STEPS as int }),
    {
        Ratio { num: self.lat_cpr as i64, den: CPR_STEPS }
    }

    /// The longitude fraction, in `[0, 1)`.
    #[must_use]
    pub fn lon_frac(self) -> (f: Ratio)
        requires
            self.valid(),
        ensures
            f@ == (Fraction { num: self.lon_cpr as int, den: CPR_STEPS as int }),
    {
        Ratio { num: self.lon_cpr as i64, den: CPR_STEPS }
    }
}

/// Reasons why two reports do not determine a position.
#[derive(Debug, Clone, Copy, PartialEq, Eq, Structural)]
pub enum CprError {
    /// The reports are not one even and one odd.
    ParityMismatch,
    /// The latitudes lie in bands with different numbers of longitude zones.
    LatitudeZoneMismatch,
    /// A latitude lies beyond a pole.
    LatitudeOutOfRange,
}

// --- Longitude zones ---------------------------------------------------------

/// The latitudes, in units of 10^-8 degree, at which the number of longitude zones
/// drops: from 59 to 58 at the first, and so on down to 1 at the last.
pub const NL_TRANSITIONS: [i64; 58] = [
    10_470_471_30, 14_828_174_37, 18_186_263_57, 21_029_394_93,
    23_545_044_05, 25_829_247_07, 27_938_987_10, 29_911_356_86,
    31_772_097_08, 33_539_934_36, 35_228_995_98, 36_850_251_08,
    38_412_418_92, 39_922_566_84, 41_386_518_32, 42_809_140_85,
    44_194_549_51, 45_546_267_22, 46_867_332_75, 48_160_391_28,
    49_427_764_39, 50_671_501_66, 51_893_424_69, 53_095_161_53,
    54_278_174_84, 55_443_784_44, 56_593_187_56, 57_727_473_46,
    58_847_637_82, 59_954_592_77, 61_049_177_74, 62_132_166_59,
    63_204_274_92, 64_266_165_23, 65_318_453_30, 66_361_710_08,
    67_396_467_74, 68_423_220_22, 69_442_426_31, 70_454_510_75,
    71_459_864_73, 72_458_845_45, 73_451_774_42, 74_438_934_16,
    75_420_562_57, 76_396_843_91, 77_367_894_61, 78_333_740_83,
    79_294_282_27, 80_249_232_13, 81_198_106_84, 82_140_073_67,
    83_071_994_45, 83_991_735_03, 84_891_661_92, 85_755_416_21,
    86_535_369_50, 87_000_000_00,
];

/// The number of transitions from `k` on that the latitude has passed, counting
/// those before as passed.
pub open spec fn transitions_passed(lat: Fraction, k: int) -> int
    decreases 58 - k,
{
    if k >= 58 {
        58
    } else if abs_int(lat.num) * 100_000_000 < NL_TRANSITIONS@[k] * lat.den {
        k
    } else {
        transitions_passed(lat, k + 1)
    }
}

pub open spec fn abs_int(x: int) -> int {
    if x < 0 {
        -x
    } else {
        x
    }
}

/// The number of longitude zones at a latitude.
pub open spec fn nl_of(lat: Fraction) -> int {
    59 - transitions_passed(lat, 0)
}

proof fn lemma_passed_range(lat: Fraction, k: int)
    requires
        0 <= k <= 58,
    ensures
        k <= transitions_passed(lat, k) <= 58,
    decreases 58 - k,
{
    if k < 58 {
        lemma_passed_range(lat, k + 1);
    }
}

/// There are between 1 and 59 zones, as many on either side of the equator.
pub proof fn law_nl_range_and_symmetry(lat: Fraction)
    ensures
        1 <= nl_of(lat) <= 59,
        nl_of(Fraction { num: -lat.num, den: lat.den }) == nl_of(lat),
{
    lemma_passed_range(lat, 0);
    lemma_passed_symmetric(lat, 0);
}

proof fn lemma_passed_symmetric(lat: Fraction, k: int)
    ensures
        transitions_passed(Fraction { num: -lat.num, den: lat.den }, k) == transitions_passed(lat, k),
    decreases 58 - k,
{
    if k < 58 {
        lemma_passed_symmetric(lat, k + 1);
    }
}

/// Away from the equator the number of zones does not grow.
pub proof fn law_nl_decreases_towards_poles(a: Fraction, b: Fraction)
    requires
        a.den > 0,
        b.den > 0,
        abs_int(a.num) * b.den <= abs_int(b.num) * a.den,
    ensures
        nl_of(b) <= nl_of(a),
{
    lemma_passed_monotone(a, b, 0);
}

proof fn lemma_passed_monotone(a: Fraction, b: Fraction, k: int)
    requires
        0 <= k <= 58,
        a.den > 0,
        b.den > 0,
        abs_int(a.num) * b.den <= abs_int(b.num) * a.den,
    ensures
        transitions_passed(a, k) <= transitions_passed(b, k),
    decreases 58 - k,
{
    if k < 58 {
        lemma_passed_monotone(a, b, k + 1);
        lemma_passed_range(a, k + 1);
        lemma_passed_range(b, k + 1);
        let t = NL_TRANSITIONS@[k] as int;
        let x = abs_int(a.num);
        let y = abs_int(b.num);
        if y * 100_000_000 < t * b.den {
            assert(x * 100_000_000 < t * a.den) by (nonlinear_arith)
                requires
                    y * 100_000_000 < t * b.den,
                    x * b.den <= y * a.den,
                    a.den > 0,
                    b.den > 0,
            {
                assert((y * 100_000_000) * a.den < (t * b.den) * a.den);
                assert((x * b.den) * 100_000_000 <= (y * a.den) * 100_000_000);
                assert((x * 100_000_000) * b.den < (t * a.den) * b.den);
            }
        }
    }
}

/// The number of longitude zones at a latitude.
#[must_use]
pub fn nl(lat: Ratio) -> (n: u32)
    ensures
        n == nl_of(lat@),
        1 <= n <= 59,
{
    let num: i64 = lat.num();
    let den: i64 = lat.den();
    let a: i128 = if num < 0 {
        -(num as i128)
    } else {
        num as i128
    };
    let scaled: i128 = a * 100_000_000;
    let mut i: usize = 0;
    while i < 58
        invariant
            i <= 58,
            0 < den <= MAX_DENOMINATOR,
            den == lat@.den,
            scaled == abs_int(lat@.num) * 100_000_000,
            nl_of(lat@) == 59 - transitions_passed(lat@, i as int),
        decreases 58 - i,
    {
        let t: i64 = NL_TRANSITIONS[i];
        proof {
            assert(forall|k: int| 0 <= k < 58 ==> 0 < #[trigger] NL_TRANSITIONS@[k] <= 8_700_000_000);
            assert(0 <= t * den <= 8_700_000_000 * 0x4000_0000_0000_0000) by (nonlinear_arith)
                requires
                    0 < t <= 8_700_000_000,
                    0 < den <= 0x4000_0000_0000_0000,
            ;
        }
        if scaled < t as i128 * den as i128 {
            return 59 - i as u32;
        }
        i += 1;
    }
    1
}

// --- Grid arithmetic ---------------------------------------------------------

/// The integer nearest to `x / d`, the higher one if two are.
pub open spec fn nearest(x: int, d: int) -> int {
    (2 * x + d) / (2 * d)
}

/// The angle at a fraction of a zone, in degrees, of a circle with so many zones.
pub open spec fn angle(zone: int, frac: int, zones: int) -> Fraction {
    Fraction { num: 360 * (zone * CPR_STEPS + frac), den: zones * CPR_STEPS }
}

/// The angle, a full turn less if it is `from` degrees or more.
pub open spec fn wrapped(a: Fraction, from: int) -> Fraction {
    if a.num >= from * a.den {
        Fraction { num: a.num - 360 * a.den, den: a.den }
    } else {
        a
    }
}

/// Longitude zones of the odd grid at a latitude with `n` of the even grid.
pub open spec fn odd_zones(n: int) -> int {
    if n >= 2 {
        n - 1
    } else {
        1
    }
}

/// The zone index that an even and an odd fraction determine together, on grids
/// with the given numbers of zones.
pub open spec fn pair_index(even: int, odd: int, zones_even: int, zones_odd: int) -> int {
    nearest(zones_odd * even - zones_even * odd, CPR_STEPS as int)
}

/// Latitude of a report of a pair.
pub open spec fn pair_latitude(even: CprPosition, odd: CprPosition, of_odd: bool) -> Fraction {
    let j = pair_index(even.lat_cpr as int, odd.lat_cpr as int, 60, 59);
    if of_odd {
        wrapped(angle(j % 59, odd.lat_cpr as int, 59), 270)
    } else {
        wrapped(angle(j % 60, even.lat_cpr as int, 60), 270)
    }
}

/// Longitude of a report of a pair at a latitude with `n` zones.
pub open spec fn pair_longitude(even: CprPosition, odd: CprPosition, of_odd: bool, n: int) -> Fraction {
    let m = pair_index(even.lon_cpr as int, odd.lon_cpr as int, n, odd_zones(n));
    if of_odd {
        wrapped(angle(m % odd_zones(n), odd.lon_cpr as int, odd_zones(n)), 180)
    } else {
        wrapped(angle(m % n, even.lon_cpr as int, n), 180)
    }
}

/// The position that an even and an odd report determine, in terms of the more
/// recent one: latitude, then longitude.
pub open spec fn global_of(even: CprPosition, odd: CprPosition, most_recent_is_odd: bool) -> Result<
    (Fraction, Fraction),
    CprError,
> {
    let lat_e = pair_latitude(even, odd, false);
    let lat_o = pair_latitude(even, odd, true);
    let lat = if most_recent_is_odd {
        lat_o
    } else {
        lat_e
    };
    if even.odd || !odd.odd {
        Err(CprError::ParityMismatch)
    } else if !lat_e.within(-90, 90) || !lat_o.within(-90, 90) {
        Err(CprError::LatitudeOutOfRange)
    } else if nl_of(lat_e) != nl_of(lat_o) {
        Err(CprError::LatitudeZoneMismatch)
    } else {
        Ok((lat, pair_longitude(even, odd, most_recent_is_odd, nl_of(lat))))
    }
}

/// [`global_of`] as a position.
pub open spec fn global_position(even: CprPosition, odd: CprPosition, most_recent_is_odd: bool) -> Result<
    LatLon,
    CprError,
> {
    match global_of(even, odd, most_recent_is_odd) {
        Ok((lat, lon)) => Ok(LatLon { lat_deg: Ratio::of(lat), lon_deg: Ratio::of(lon) }),
        Err(e) => Err(e),
    }
}

/// The position that a single report stands for near a reference.
pub open spec fn local_position(msg: CprPosition, reference: LatLon, fineness: int) -> LatLon {
    let lat = local_latitude(msg, reference.lat_deg@, fineness);
    let lon = local_longitude(msg, reference.lon_deg@, fineness, nl_of(lat));
    LatLon { lat_deg: Ratio::of(lat), lon_deg: Ratio::of(lon) }
}

/// The angle with the given fraction of a zone that lies nearest to a reference.
pub open spec fn nearest_angle(reference: Fraction, frac: int, zones: int) -> Fraction {
    let j = nearest(
        reference.num * (zones * CPR_STEPS) - 360 * reference.den * frac,
        360 * reference.den * CPR_STEPS,
    );
    angle(j, frac, zones)
}

/// Latitude of a single report near a reference, on grids with `fineness` times
/// the usual number of zones.
pub open spec fn local_latitude(msg: CprPosition, reference: Fraction, fineness: int) -> Fraction {
    let zones = fineness * if msg.odd {
        59int
    } else {
        60int
    };
    wrapped(nearest_angle(reference, msg.lat_cpr as int, zones), 270)
}

/// Longitude of a single report near a reference, at a latitude with `n` zones.
pub open spec fn local_longitude(msg: CprPosition, reference: Fraction, fineness: int, n: int) -> Fraction {
    let zones = fineness * if msg.odd {
        odd_zones(n)
    } else {
        n
    };
    wrapped(nearest_angle(reference, msg.lon_cpr as int, zones), 180)
}

/// A reference is usable within a full turn of zero.
pub open spec fn usable_reference(pos: LatLon) -> bool {
    pos.lat_deg@.within(-360, 360) && pos.lon_deg@.within(-360, 360)
}

/// [`nearest`] is off by at most a half.
proof fn lemma_nearest(x: int, d: int)
    requires
        d > 0,
    ensures
        -d <= 2 * (nearest(x, d) * d - x) <= d,
        2 * (nearest(x, d) * d) > 2 * x - d,
{
    let j = nearest(x, d);
    let y = 2 * x + d;
    assert(2 * d * j <= y < 2 * d * j + 2 * d) by (nonlinear_arith)
        requires
            d > 0,
            j == y / (2 * d),
    ;
    assert(2 * d * j == 2 * (j * d)) by (nonlinear_arith);
}

/// The integer nearest to `x / d`.
fn nearest_of(x: i128, d: i128) -> (j: i64)
    requires
        0 < d <= 1_000_000_000_000_000_000_000_000_000,
        -1000 * d <= x <= 1000 * d,
    ensures
        j == nearest(x as int, d as int),
        -1001 <= j <= 1001,
{
    let y: i128 = 2 * x + d + 4096 * d;
    let q: i128 = y / (2 * d);
    proof {
        let xi = x as int;
        let di = d as int;
        let qi = y as int / (2 * di);
        assert(qi == nearest(xi, di) + 2048 && 0 <= qi <= 4000) by (nonlinear_arith)
            requires
                di > 0,
                qi == (2 * xi + di + 4096 * di) / (2 * di),
                nearest(xi, di) == (2 * xi + di) / (2 * di),
                -1000 * di <= xi <= 1000 * di,
        {
            let z = 2 * xi + di;
            assert((z + 2048 * (2 * di)) / (2 * di) == z / (2 * di) + 2048);
            assert(qi >= 0);
            assert(z <= 2001 * di);
            assert(z >= -2001 * di);
            assert((z + 2048 * (2 * di)) / (2 * di) <= (1951 + 2048));
        }
        assert(-1001 <= nearest(xi, di) <= 1001) by {
            lemma_nearest(xi, di);
            let j = nearest(xi, di);
            assert(-1001 <= j <= 1001) by (nonlinear_arith)
                requires
                    di > 0,
                    -di <= 2 * (j * di - xi) <= di,
                    -1000 * di <= xi <= 1000 * di,
            ;
        }
    }
    (q - 2048) as i64
}

/// The angle at a fraction of a zone, a full turn less if it is `from` degrees or
/// more.
fn angle_of(zone: i64, frac: u32, zones: i64, from: i64) -> (a: Ratio)
    requires
        frac < CPR_STEPS,
        1 <= zones <= 240,
        from == 180 || from == 270,
        -300 <= zone <= 300,
        -720 * zones * CPR_STEPS <= 360 * (zone * CPR_STEPS + frac) <= 720 * zones * CPR_STEPS,
    ensures
        a@ == wrapped(angle(zone as int, frac as int, zones as int), from as int),
        a@.valid(),
{
    let den: i64 = zones * CPR_STEPS;
    let num: i64 = 360 * (zone * CPR_STEPS + frac as i64);
    assert(720 * zones * CPR_STEPS == 720 * den) by (nonlinear_arith)
        requires
            den == zones * CPR_STEPS,
    ;
    assert(-720 * zones * CPR_STEPS == -720 * den) by (nonlinear_arith)
        requires
            den == zones * CPR_STEPS,
    ;
    if num >= from * den {
        Ratio { num: num - 360 * den, den }
    } else {
        Ratio { num, den }
    }
}

// --- Global decode -----------------------------------------------------------

/// Decodes a position from one even and one odd report. The longitude refers to
/// the more recent of the two.
pub fn global_decode(even: CprPosition, odd: CprPosition, most_recent_is_odd: bool) -> (r: Result<
    LatLon,
    CprError,
>)
    requires
        even.valid(),
        odd.valid(),
    ensures
        match r {
            Ok(p) => global_of(even, odd, most_recent_is_odd) == Ok::<(Fraction, Fraction), CprError>(
                (p.lat_deg@, p.lon_deg@),
            ) && p.lat_deg@.valid() && p.lon_deg@.valid(),
            Err(e) => global_of(even, odd, most_recent_is_odd) == Err::<(Fraction, Fraction), CprError>(e),
        },
        r == global_position(even, odd, most_recent_is_odd),
{
    if even.odd || !odd.odd {
        return Err(CprError::ParityMismatch);
    }
    let le: i64 = even.lat_cpr as i64;
    let lo: i64 = odd.lat_cpr as i64;
    let j: i64 = nearest_of((59 * le - 60 * lo) as i128, CPR_STEPS as i128);
    let lat_e: Ratio = angle_of(zone_of(j, 60), even.lat_cpr, 60, 270);
    let lat_o: Ratio = angle_of(zone_of(j, 59), odd.lat_cpr, 59, 270);
    if !lat_e.within(-90, 90) || !lat_o.within(-90, 90) {
        return Err(CprError::LatitudeOutOfRange);
    }
    let n: u32 = nl(lat_e);
    if n != nl(lat_o) {
        return Err(CprError::LatitudeZoneMismatch);
    }
    let lat: Ratio = if most_recent_is_odd {
        lat_o
    } else {
        lat_e
    };
    let lon: Ratio = pair_longitude_of(even, odd, most_recent_is_odd, n);
    proof {
        lat.lemma_of();
        lon.lemma_of();
    }
    Ok(LatLon { lat_deg: lat, lon_deg: lon })
}

/// Longitude of a report of a pair at a latitude with `n` zones.
fn pair_longitude_of(even: CprPosition, odd: CprPosition, of_odd: bool, n: u32) -> (lon: Ratio)
    requires
        even.valid(),
        odd.valid(),
        1 <= n <= 59,
    ensures
        lon@ == pair_longitude(even, odd, of_odd, n as int),
        lon@.valid(),
{
    let zones_even: i64 = n as i64;
    let zones_odd: i64 = if n >= 2 {
        n as i64 - 1
    } else {
        1
    };
    let xe: i64 = even.lon_cpr as i64;
    let xo: i64 = odd.lon_cpr as i64;
    proof {
        assert(0 <= zones_odd * xe <= 59 * 131_072 && 0 <= zones_even * xo <= 59 * 131_072) by (nonlinear_arith)
            requires
                0 <= zones_odd <= 59,
                0 <= zones_even <= 59,
                0 <= xe <= 131_072,
                0 <= xo <= 131_072,
        ;
    }
    let m: i64 = nearest_of((zones_odd * xe - zones_even * xo) as i128, CPR_STEPS as i128);
    if of_odd {
        let zone: i64 = zone_of(m, zones_odd);
        proof {
            lemma_zone_range(zone as int, odd.lon_cpr as int, zones_odd as int);
        }
        angle_of(zone, odd.lon_cpr, zones_odd, 180)
    } else {
        let zone: i64 = zone_of(m, zones_even);
        proof {
            lemma_zone_range(zone as int, even.lon_cpr as int, zones_even as int);
        }
        angle_of(zone, even.lon_cpr, zones_even, 180)
    }
}

/// The zone that an index falls into on a circle with so many zones.
fn zone_of(index: i64, zones: i64) -> (zone: i64)
    requires
        -1001 <= index <= 1001,
        1 <= zones <= 60,
    ensures
        zone == index as int % zones as int,
        0 <= zone < zones,
{
    proof {
        assert(1100 <= zones * 1100 <= 66_000) by (nonlinear_arith)
            requires
                1 <= zones <= 60,
        ;
        vstd::arithmetic::div_mod::lemma_mod_multiples_vanish(1100, index as int, zones as int);
        vstd::arithmetic::div_mod::lemma_mod_bound(index as int, zones as int);
    }
    (zones * 1100 + index) % zones
}

proof fn lemma_zone_range(zone: int, frac: int, zones: int)
    requires
        0 <= zone < zones,
        0 <= frac < CPR_STEPS,
    ensures
        -720 * zones * CPR_STEPS <= 360 * (zone * CPR_STEPS + frac) <= 720 * zones * CPR_STEPS,
{
    let s = CPR_STEPS as int;
    assert(-720 * zones * s <= 360 * (zone * s + frac) <= 720 * zones * s) by (nonlinear_arith)
        requires
            0 <= zone <= zones - 1,
            0 <= frac < s,
            s > 0,
    {
        assert(zone * s <= (zones - 1) * s);
        assert(zone * s >= 0);
        assert(zones * s >= 0);
        assert(720 * zones * s == 720 * (zones * s));
        assert(-720 * zones * s == -720 * (zones * s));
    }
}

// --- Local decode ------------------------------------------------------------

/// Decodes a single report: of all positions that it may stand for, the one
/// nearest to the reference. A reference too far from the aircraft gives a wrong
/// position, not an error.
#[must_use]
pub fn local_decode(msg: CprPosition, reference: LatLon) -> (p: LatLon)
    requires
        msg.valid(),
        usable_reference(reference),
    ensures
        p.lat_deg@ == local_latitude(msg, reference.lat_deg@, 1),
        p.lon_deg@ == local_longitude(msg, reference.lon_deg@, 1, nl_of(p.lat_deg@)),
        p == local_position(msg, reference, 1),
{
    local_decode_on(msg, reference, 1)
}

/// As [`local_decode`], for a surface report: the grids have four times as many
/// zones.
#[must_use]
pub fn local_decode_surface(msg: CprPosition, reference: LatLon) -> (p: LatLon)
    requires
        msg.valid(),
        usable_reference(reference),
    ensures
        p.lat_deg@ == local_latitude(msg, reference.lat_deg@, 4),
        p.lon_deg@ == local_longitude(msg, reference.lon_deg@, 4, nl_of(p.lat_deg@)),
        p == local_position(msg, reference, 4),
{
    local_decode_on(msg, reference, 4)
}

fn local_decode_on(msg: CprPosition, reference: LatLon, fineness: i64) -> (p: LatLon)
    requires
        msg.valid(),
        usable_reference(reference),
        fineness == 1 || fineness == 4,
    ensures
        p.lat_deg@ == local_latitude(msg, reference.lat_deg@, fineness as int),
        p.lon_deg@ == local_longitude(msg, reference.lon_deg@, fineness as int, nl_of(p.lat_deg@)),
        p == local_position(msg, reference, fineness as int),
{
    let lat_zones: i64 = if msg.odd {
        59
    } else {
        60
    };
    let lat: Ratio = nearest_angle_of(reference.lat_deg, msg.lat_cpr, fineness * lat_zones, 270);
    let n: i64 = nl(lat) as i64;
    let lon_zones: i64 = if !msg.odd {
        n
    } else if n >= 2 {
        n - 1
    } else {
        1
    };
    let lon: Ratio = nearest_angle_of(reference.lon_deg, msg.lon_cpr, fineness * lon_zones, 180);
    proof {
        lat.lemma_of();
        lon.lemma_of();
    }
    LatLon { lat_deg: lat, lon_deg: lon }
}

/// The angle with the given fraction of a zone that lies nearest to a reference, a
/// full turn less if it is `from` degrees or more.
fn nearest_angle_of(reference: Ratio, frac: u32, zones: i64, from: i64) -> (a: Ratio)
    requires
        frac < CPR_STEPS,
        1 <= zones <= 240,
        from == 180 || from == 270,
        reference@.within(-360, 360),
    ensures
        a@ == wrapped(nearest_angle(reference@, frac as int, zones as int), from as int),
{
    let num: i64 = reference.num();
    let den: i64 = reference.den();
    let ghost p = num as int;
    let ghost q = den as int;
    let ghost z = zones as int;
    let ghost f = frac as int;
    let ghost s = CPR_STEPS as int;
    proof {
        assert(-360 * q * (z * s) <= p * (z * s) <= 360 * q * (z * s) && 0 <= 360 * q * f <= 360 * q * s
            && 360 * q * (z * s) == z * (360 * q * s) && 1 * (360 * q * s) <= z * (360 * q * s) && z * (360 * q
            * s) <= 240 * (360 * q * s)) by (nonlinear_arith)
            requires
                -360 * q <= p <= 360 * q,
                0 <= f < s,
                1 <= z <= 240,
                q > 0,
                s > 0,
        {
            assert(z * s > 0);
            assert(360 * q * s > 0) by {
                assert(q * s > 0);
            }
            assert((-360 * q) * (z * s) <= p * (z * s));
            assert(p * (z * s) <= (360 * q) * (z * s));
            assert((360 * q) * f <= (360 * q) * s);
        }
        assert(0 < 360 * q * s <= 1_000_000_000_000_000_000_000_000_000) by (nonlinear_arith)
            requires
                0 < q <= 0x4000_0000_0000_0000,
                s == 131_072,
        ;
    }
    let d: i128 = 360 * den as i128 * CPR_STEPS as i128;
    let circle: i128 = zones as i128 * CPR_STEPS as i128;
    assert(-360 * q * (z * s) == -(360 * q * (z * s))) by (nonlinear_arith);
    assert(-240 * d <= num * circle <= 240 * d);
    let x: i128 = num as i128 * circle - 360 * den as i128 * frac as i128;
    let j: i64 = nearest_of(x, d);
    proof {
        lemma_nearest(x as int, d as int);
        let k = j as int;
        assert(-720 * z * s <= 360 * (k * s + f) <= 720 * z * s && -300 <= k <= 300) by (nonlinear_arith)
            requires
                -(360 * q * s) <= 2 * (k * (360 * q * s) - (p * (z * s) - 360 * q * f)) <= 360 * q * s,
                -360 * q * (z * s) <= p * (z * s) <= 360 * q * (z * s),
                0 <= f < s,
                1 <= z <= 240,
                q > 0,
                s > 0,
        {
            // 360 q (k s + f) is p z s to within half of 360 q s.
            let v = k * s + f;
            assert(k * (360 * q * s) + 360 * q * f == 360 * q * v);
            assert(2 * (360 * q * v) <= 2 * (360 * q * (z * s)) + 360 * q * s);
            assert(2 * (360 * q * v) >= -2 * (360 * q * (z * s)) - 360 * q * s);
            let c = 360 * q;
            assert(c > 0);
            assert(c * (2 * v) <= c * (2 * (z * s) + s));
            assert(c * (2 * v) >= c * (-2 * (z * s) - s));
            assert(2 * v <= 2 * (z * s) + s);
            assert(2 * v >= -2 * (z * s) - s);
            assert(z * s >= s);
            assert(720 * z * s == 720 * (z * s));
            assert(-720 * z * s == -720 * (z * s));
            assert(k * s <= 240 * s + s);
            assert(k * s >= -240 * s - 2 * s);
            assert(k <= 241);
            assert(k >= -242);
        }
    }
    angle_of(j, frac, zones, from)
}

// --- Laws --------------------------------------------------------------------

/// The decoded angle of a single report is never further from the reference than
/// half a zone.
pub proof fn law_local_angle_is_near(reference: Fraction, frac: int, zones: int)
    requires
        reference.den > 0,
        zones > 0,
    ensures
        ({
            // The difference times the product of the denominators, twice over.
            let a = nearest_angle(reference, frac, zones);
            let off = 2 * (a.num * reference.den - reference.num * a.den);
            -360 * reference.den * CPR_STEPS <= off <= 360 * reference.den * CPR_STEPS
        }),
{
    let s = CPR_STEPS as int;
    let p = reference.num;
    let q = reference.den;
    let d = 360 * q * s;
    let x = p * (zones * s) - 360 * q * frac;
    assert(d > 0) by (nonlinear_arith)
        requires
            d == 360 * q * s,
            q > 0,
            s == 131_072,
    ;
    lemma_nearest(x, d);
    let j = nearest(x, d);
    let a = nearest_angle(reference, frac, zones);
    assert(a.num * q - p * a.den == j * d - x) by (nonlinear_arith)
        requires
            a.num == 360 * (j * s + frac),
            a.den == zones * s,
            d == 360 * q * s,
            x == p * (zones * s) - 360 * q * frac,
    ;
    assert(-360 * q * s == -d) by (nonlinear_arith)
        requires
            d == 360 * q * s,
    ;
}

/// A single report is decoded to the grid position that was reported, if the
/// reference is less than half a zone away from it. `steps` is that position,
/// counted in grid steps from zero.
pub proof fn law_local_recovers_position(reference: Fraction, steps: int, zones: int)
    requires
        reference.den > 0,
        zones > 0,
        is_near(reference, steps, zones),
    ensures
        nearest_angle(reference, steps % (CPR_STEPS as int), zones) == (Fraction {
            num: 360 * steps,
            den: zones * CPR_STEPS,
        }),
{
    let s = CPR_STEPS as int;
    let p = reference.num;
    let q = reference.den;
    let frac = steps % s;
    let zone = steps / s;
    let d = 360 * q * s;
    let x = p * (zones * s) - 360 * q * frac;
    assert(d > 0) by (nonlinear_arith)
        requires
            d == 360 * q * s,
            q > 0,
            s == 131_072,
    ;
    lemma_nearest(x, d);
    let j = nearest(x, d);
    assert(steps == zone * s + frac);
    assert(-d < 2 * (zone * d - x) < d) by (nonlinear_arith)
        requires
            -360 * q * s < 2 * (360 * steps * q - p * (zones * s)) < 360 * q * s,
            steps == zone * s + frac,
            d == 360 * q * s,
            x == p * (zones * s) - 360 * q * frac,
    {
        assert(360 * steps * q == zone * (360 * q * s) + 360 * q * frac);
        assert(-360 * q * s == -(360 * q * s));
    }
    assert(j == zone) by (nonlinear_arith)
        requires
            d > 0,
            -d <= 2 * (j * d - x) <= d,
            -d < 2 * (zone * d - x) < d,
    {
        assert(-2 * d < 2 * (j * d - zone * d) < 2 * d);
        assert((j - zone) * d == j * d - zone * d);
        assert(-d < (j - zone) * d < d);
    }
}

/// An even and an odd report of one place give back their zones. `even` and `odd`
/// are the place counted in steps of either grid, and may disagree about it by
/// as much as the condition allows; see [`law_rounding_is_close_enough`].
pub proof fn law_pair_recovers_zones(even: int, odd: int, zones_odd: int)
    requires
        zones_odd >= 1,
        -CPR_STEPS <= 2 * (zones_odd * even - (zones_odd + 1) * odd) < CPR_STEPS,
    ensures
        ({
            let s = CPR_STEPS as int;
            let j = pair_index(even % s, odd % s, zones_odd + 1, zones_odd);
            &&& j % (zones_odd + 1) == (even / s) % (zones_odd + 1)
            &&& j % zones_odd == (odd / s) % zones_odd
        }),
{
    let s = CPR_STEPS as int;
    let a = zones_odd;
    let b = zones_odd + 1;
    let ze = even / s;
    let zo = odd / s;
    let e = even % s;
    let o = odd % s;
    let x = a * e - b * o;
    let j = nearest(x, s);
    let t = b * zo - a * ze;
    assert(x == a * even - b * odd + t * s) by (nonlinear_arith)
        requires
            even == ze * s + e,
            odd == zo * s + o,
            x == a * e - b * o,
            t == b * zo - a * ze,
    {
        assert(a * even == a * (ze * s) + a * e);
        assert(b * odd == b * (zo * s) + b * o);
        assert(t * s == b * (zo * s) - a * (ze * s));
    }
    lemma_nearest(x, s);
    assert(j == t) by (nonlinear_arith)
        requires
            s == 131_072,
            -s <= 2 * (j * s - x) <= s,
            2 * (j * s) > 2 * x - s,
            -s <= 2 * (x - t * s) < s,
    {
        assert(j * s - t * s == (j - t) * s);
        assert(-2 * s < 2 * ((j - t) * s) < 2 * s);
    }
    // `a` is -1 modulo `b`, and `b` is 1 modulo `a`.
    assert(j == b * (zo - ze) + ze) by (nonlinear_arith)
        requires
            j == b * zo - a * ze,
            b == a + 1,
    ;
    assert(j == a * (zo - ze) + zo) by (nonlinear_arith)
        requires
            j == b * zo - a * ze,
            b == a + 1,
    ;
    vstd::arithmetic::div_mod::lemma_mod_multiples_vanish(zo - ze, ze, b);
    vstd::arithmetic::div_mod::lemma_mod_multiples_vanish(zo - ze, zo, a);
}

/// The number of grid steps nearest to a latitude or longitude: what a transmitter
/// reports the low 17 bits of.
pub open spec fn steps_of(pos: Fraction, zones: int) -> int {
    nearest(pos.num * (zones * CPR_STEPS), 360 * pos.den)
}

/// Rounding one place to both grids keeps the steps close enough for
/// [`law_pair_recovers_zones`], for any number of zones in use.
pub proof fn law_rounding_is_close_enough(pos: Fraction, zones_odd: int)
    requires
        pos.den > 0,
        1 <= zones_odd <= 59,
    ensures
        ({
            let even = steps_of(pos, zones_odd + 1);
            let odd = steps_of(pos, zones_odd);
            -CPR_STEPS <= 2 * (zones_odd * even - (zones_odd + 1) * odd) < CPR_STEPS
        }),
{
    let s = CPR_STEPS as int;
    let a = zones_odd;
    let b = zones_odd + 1;
    let d = 360 * pos.den;
    let xe = pos.num * (b * s);
    let xo = pos.num * (a * s);
    let even = steps_of(pos, b);
    let odd = steps_of(pos, a);
    lemma_nearest(xe, d);
    lemma_nearest(xo, d);
    assert(a * xe == b * xo) by (nonlinear_arith)
        requires
            xe == pos.num * (b * s),
            xo == pos.num * (a * s),
    ;
    let w = a * even - b * odd;
    let u = 2 * (even * d - xe);
    let v = 2 * (odd * d - xo);
    assert(2 * (w * d) == a * u - b * v) by (nonlinear_arith)
        requires
            u == 2 * (even * d - xe),
            v == 2 * (odd * d - xo),
            a * xe == b * xo,
            w == a * even - b * odd,
    {
        assert(a * u == 2 * (a * even * d) - 2 * (a * xe));
        assert(b * v == 2 * (b * odd * d) - 2 * (b * xo));
        assert(w * d == a * even * d - b * odd * d);
    }
    assert(-(a * d) <= a * u <= a * d) by (nonlinear_arith)
        requires
            -d <= u <= d,
            a >= 1,
    ;
    assert(-(b * d) <= b * v <= b * d) by (nonlinear_arith)
        requires
            -d <= v <= d,
            b >= 1,
    ;
    assert(a * d + b * d <= 119 * d) by (nonlinear_arith)
        requires
            a + b <= 119,
            d > 0,
    ;
    assert(-119 <= 2 * w <= 119) by (nonlinear_arith)
        requires
            -(119 * d) <= 2 * (w * d) <= 119 * d,
            d > 0,
    ;
}

/// Reporting a latitude on both grids and decoding the pair gives back the latitude
/// to within half a grid step, up to full turns.
pub proof fn law_global_latitude_round_trips(pos: Fraction, even: CprPosition, odd: CprPosition)
    requires
        pos.den > 0,
        even.lat_cpr == steps_of(pos, 60) % (CPR_STEPS as int),
        odd.lat_cpr == steps_of(pos, 59) % (CPR_STEPS as int),
    ensures
        ({
            let e = pair_latitude(even, odd, false);
            let o = pair_latitude(even, odd, true);
            &&& e == wrapped(
                Fraction { num: 360 * (steps_of(pos, 60) % (60 * CPR_STEPS)), den: 60 * CPR_STEPS },
                270,
            )
            &&& o == wrapped(
                Fraction { num: 360 * (steps_of(pos, 59) % (59 * CPR_STEPS)), den: 59 * CPR_STEPS },
                270,
            )
        }),
{
    let s = CPR_STEPS as int;
    let le = steps_of(pos, 60);
    let lo = steps_of(pos, 59);
    law_rounding_is_close_enough(pos, 59);
    law_pair_recovers_zones(le, lo, 59);
    lemma_steps_on_circle(le, 60);
    lemma_steps_on_circle(lo, 59);
}

/// Reporting a longitude on both grids and decoding the pair gives back the
/// longitude to within half a grid step, up to full turns, if both ends agree on
/// the number of zones at the latitude.
pub proof fn law_global_longitude_round_trips(pos: Fraction, even: CprPosition, odd: CprPosition, n: int)
    requires
        pos.den > 0,
        1 <= n <= 59,
        even.lon_cpr == steps_of(pos, n) % (CPR_STEPS as int),
        odd.lon_cpr == steps_of(pos, odd_zones(n)) % (CPR_STEPS as int),
    ensures
        ({
            let z = odd_zones(n);
            let e = pair_longitude(even, odd, false, n);
            let o = pair_longitude(even, odd, true, n);
            &&& e == wrapped(
                Fraction { num: 360 * (steps_of(pos, n) % (n * CPR_STEPS)), den: n * CPR_STEPS },
                180,
            )
            &&& o == wrapped(
                Fraction { num: 360 * (steps_of(pos, z) % (z * CPR_STEPS)), den: z * CPR_STEPS },
                180,
            )
        }),
{
    let s = CPR_STEPS as int;
    let z = odd_zones(n);
    let le = steps_of(pos, n);
    let lo = steps_of(pos, z);
    if n >= 2 {
        law_rounding_is_close_enough(pos, z);
        law_pair_recovers_zones(le, lo, z);
    }
    lemma_steps_on_circle(le, n);
    lemma_steps_on_circle(lo, z);
}

/// The grid position nearest to an angle is at most half a step away from it.
pub proof fn law_steps_are_near(pos: Fraction, zones: int)
    requires
        pos.den > 0,
    ensures
        -360 * pos.den <= 2 * (360 * pos.den * steps_of(pos, zones) - pos.num * (zones * CPR_STEPS)) <= 360
            * pos.den,
{
    let d = 360 * pos.den;
    lemma_nearest(pos.num * (zones * CPR_STEPS), d);
    let k = steps_of(pos, zones);
    assert(k * d == 360 * pos.den * k) by (nonlinear_arith)
        requires
            d == 360 * pos.den,
    ;
}

/// The angle of a number of grid steps.
pub open spec fn on_grid(steps: int, zones: int) -> Fraction {
    Fraction { num: 360 * steps, den: zones * CPR_STEPS }
}

/// The longitude of a number of grid steps, half a turn being west.
pub open spec fn longitude_on_grid(steps: int, zones: int) -> Fraction {
    if 2 * steps >= zones * CPR_STEPS {
        on_grid(steps - zones * CPR_STEPS, zones)
    } else {
        on_grid(steps, zones)
    }
}

/// `r` is what a transmitter reports of a place: its latitude in grid steps, and its
/// longitude in steps of the grid at the latitude reported.
pub open spec fn is_report_of(r: CprPosition, lat: Fraction, lon: Fraction) -> bool {
    let zones = if r.odd {
        59int
    } else {
        60int
    };
    let k = steps_of(lat, zones);
    let n = nl_of(on_grid(k, zones));
    let lon_zones = if r.odd {
        odd_zones(n)
    } else {
        n
    };
    &&& r.lat_cpr == k % (CPR_STEPS as int)
    &&& r.lon_cpr == steps_of(lon, lon_zones) % (CPR_STEPS as int)
}

/// Two reports of one place give back the place, to the nearest step of the grid of the
/// more recent one. They fail to only where the grids put the place on different sides
/// of a latitude at which the number of zones changes.
pub proof fn law_global_decode_recovers_position(
    lat: Fraction,
    lon: Fraction,
    even: CprPosition,
    odd: CprPosition,
    most_recent_is_odd: bool,
)
    requires
        lat.den > 0,
        lat.within(-90, 90),
        lon.den > 0,
        lon.within(-180, 180),
        !even.odd,
        odd.odd,
        is_report_of(even, lat, lon),
        is_report_of(odd, lat, lon),
    ensures
        ({
            let lat_e = on_grid(steps_of(lat, 60), 60);
            let lat_o = on_grid(steps_of(lat, 59), 59);
            let n = nl_of(lat_e);
            let z = if most_recent_is_odd {
                odd_zones(n)
            } else {
                n
            };
            match global_of(even, odd, most_recent_is_odd) {
                Ok((a, o)) => {
                    &&& n == nl_of(lat_o)
                    &&& a == if most_recent_is_odd {
                        lat_o
                    } else {
                        lat_e
                    }
                    &&& o == longitude_on_grid(steps_of(lon, z), z)
                },
                Err(e) => {
                    &&& e == CprError::LatitudeZoneMismatch
                    &&& n != nl_of(lat_o)
                },
            }
        }),
{
    let s = CPR_STEPS as int;
    let ke = steps_of(lat, 60);
    let ko = steps_of(lat, 59);
    let d = 360 * lat.den;
    law_global_latitude_round_trips(lat, even, odd);
    assert(lat.num * (60 * s) == 7_864_320 * lat.num && lat.num * (59 * s) == 7_733_248 * lat.num && (15 * s) * d
        == 707_788_800 * lat.den && 1_933_312 * d == 695_992_320 * lat.den) by (nonlinear_arith)
        requires
            s == 131_072,
            d == 360 * lat.den,
    ;
    lemma_nearest_between(lat.num * (60 * s), d, 15 * s);
    lemma_nearest_between(lat.num * (59 * s), d, 1_933_312);
    let lat_e = on_grid(ke, 60);
    let lat_o = on_grid(ko, 59);
    lemma_small_steps(ke, 60 * s);
    lemma_small_steps(ko, 59 * s);
    assert(pair_latitude(even, odd, false) == lat_e);
    assert(pair_latitude(even, odd, true) == lat_o);
    assert(lat_e.within(-90, 90));
    assert(lat_o.within(-90, 90));
    let n = nl_of(lat_e);
    law_nl_range_and_symmetry(lat_e);
    if n == nl_of(lat_o) {
        law_global_longitude_round_trips(lon, even, odd, n);
        lemma_longitude_steps(lon, n);
        lemma_longitude_steps(lon, odd_zones(n));
    }
}

/// The reference is less than half a zone away from a number of grid steps.
pub open spec fn is_near(reference: Fraction, steps: int, zones: int) -> bool {
    -360 * reference.den * CPR_STEPS < 2 * (360 * steps * reference.den - reference.num * (zones * CPR_STEPS)) < 360
        * reference.den * CPR_STEPS
}

/// A single report gives back the place that it reports, to the nearest grid step, if
/// the reference is less than half a zone away in either direction. The reference may
/// lie west of the meridian at half a turn and the place east of it.
pub proof fn law_local_decode_recovers_position(
    lat: Fraction,
    lon: Fraction,
    msg: CprPosition,
    reference: LatLon,
    crossed: bool,
)
    requires
        lat.den > 0,
        lat.within(-90, 90),
        lon.den > 0,
        lon.within(-180, 180),
        is_report_of(msg, lat, lon),
        reference.lat_deg@.den > 0,
        reference.lon_deg@.den > 0,
        ({
            let zones = if msg.odd {
                59int
            } else {
                60int
            };
            let k = steps_of(lat, zones);
            let n = nl_of(on_grid(k, zones));
            let z = if msg.odd {
                odd_zones(n)
            } else {
                n
            };
            let m = steps_of(lon, z);
            &&& is_near(reference.lat_deg@, k, zones)
            &&& crossed ==> m < 0 && is_near(reference.lon_deg@, m + z * CPR_STEPS, z)
            &&& !crossed ==> is_near(reference.lon_deg@, m, z)
        }),
    ensures
        ({
            let zones = if msg.odd {
                59int
            } else {
                60int
            };
            let k = steps_of(lat, zones);
            let n = nl_of(on_grid(k, zones));
            let z = if msg.odd {
                odd_zones(n)
            } else {
                n
            };
            let p = local_latitude(msg, reference.lat_deg@, 1);
            &&& p == on_grid(k, zones)
            &&& local_longitude(msg, reference.lon_deg@, 1, nl_of(p)) == longitude_on_grid(steps_of(lon, z), z)
        }),
{
    let s = CPR_STEPS as int;
    let zones = if msg.odd {
        59int
    } else {
        60int
    };
    let k = steps_of(lat, zones);
    let d = 360 * lat.den;
    assert(lat.num * (60 * s) == 7_864_320 * lat.num && lat.num * (59 * s) == 7_733_248 * lat.num && (15 * s) * d
        == 707_788_800 * lat.den && 1_933_312 * d == 695_992_320 * lat.den) by (nonlinear_arith)
        requires
            s == 131_072,
            d == 360 * lat.den,
    ;
    lemma_nearest_between(lat.num * (zones * s), d, if msg.odd { 1_933_312 } else { 15 * s });
    law_local_recovers_position(reference.lat_deg@, k, zones);
    let p = on_grid(k, zones);
    assert(local_latitude(msg, reference.lat_deg@, 1) == p);
    let n = nl_of(p);
    law_nl_range_and_symmetry(p);
    let z = if msg.odd {
        odd_zones(n)
    } else {
        n
    };
    let m = steps_of(lon, z);
    let turn = z * s;
    lemma_longitude_range(lon, z);
    if crossed {
        law_local_recovers_position(reference.lon_deg@, m + turn, z);
        assert((m + turn) % s == m % s) by {
            assert(m + turn == z * s + m);
            vstd::arithmetic::div_mod::lemma_mod_multiples_vanish(z, m, s);
        }
    } else {
        law_local_recovers_position(reference.lon_deg@, m, z);
    }
}

/// Rounding does not leave a range whose ends are whole numbers.
proof fn lemma_nearest_between(x: int, d: int, k: int)
    requires
        d > 0,
        k >= 0,
        -(k * d) <= x <= k * d,
    ensures
        -k <= nearest(x, d) <= k,
{
    let r = nearest(x, d);
    lemma_nearest(x, d);
    assert(-k <= r <= k) by (nonlinear_arith)
        requires
            d > 0,
            -(k * d) <= x <= k * d,
            -d <= 2 * (r * d - x) <= d,
    {
        assert(2 * (r * d) <= 2 * (k * d) + d);
        assert(2 * (r * d) >= -2 * (k * d) - d);
        assert((r - k) * d == r * d - k * d);
        assert((r + k) * d == r * d + k * d);
        if r >= k + 1 {
            assert((r - k) * d >= d);
        }
        if r <= -k - 1 {
            assert((r + k) * d <= -d);
        }
    }
}

/// Reduced to one turn, up to half a turn stays as it is, and less than nothing becomes
/// a turn less.
proof fn lemma_small_steps(k: int, turn: int)
    requires
        turn > 0,
        -turn <= 2 * k <= turn,
    ensures
        k >= 0 ==> k % turn == k,
        k < 0 ==> k % turn == k + turn,
{
    if k >= 0 {
        vstd::arithmetic::div_mod::lemma_small_mod(k as nat, turn as nat);
    } else {
        vstd::arithmetic::div_mod::lemma_mod_add_multiples_vanish(k, turn);
        vstd::arithmetic::div_mod::lemma_small_mod((k + turn) as nat, turn as nat);
    }
}

/// Rounding a longitude does not take it beyond half a turn.
proof fn lemma_longitude_range(lon: Fraction, zones: int)
    requires
        lon.den > 0,
        lon.within(-180, 180),
        zones >= 1,
    ensures
        -(zones * CPR_STEPS) <= 2 * steps_of(lon, zones) <= zones * CPR_STEPS,
{
    let s = CPR_STEPS as int;
    let turn = zones * s;
    let half = zones * 65_536;
    let d = 360 * lon.den;
    assert(turn == 2 * half && turn > 0);
    assert(-(half * d) <= lon.num * turn <= half * d) by (nonlinear_arith)
        requires
            -180 * lon.den <= lon.num <= 180 * lon.den,
            turn == 2 * half,
            turn > 0,
            d == 360 * lon.den,
    {
        assert((-180 * lon.den) * turn <= lon.num * turn);
        assert(lon.num * turn <= (180 * lon.den) * turn);
        assert((180 * lon.den) * turn == half * d);
        assert((-180 * lon.den) * turn == -(half * d));
    }
    lemma_nearest_between(lon.num * turn, d, half);
}

proof fn lemma_longitude_steps(lon: Fraction, zones: int)
    requires
        lon.den > 0,
        lon.within(-180, 180),
        zones >= 1,
    ensures
        wrapped(
            Fraction { num: 360 * (steps_of(lon, zones) % (zones * CPR_STEPS)), den: zones * CPR_STEPS },
            180,
        ) == longitude_on_grid(steps_of(lon, zones), zones),
{
    let turn = zones * CPR_STEPS;
    let k = steps_of(lon, zones);
    lemma_longitude_range(lon, zones);
    lemma_small_steps(k, turn);
}

/// A number of steps, reduced to one turn, by its zone and its fraction.
proof fn lemma_steps_on_circle(steps: int, zones: int)
    requires
        zones > 0,
    ensures
        (steps / (CPR_STEPS as int)) % zones * CPR_STEPS + steps % (CPR_STEPS as int) == steps % (zones * CPR_STEPS),
{
    let s = CPR_STEPS as int;
    let q = steps / s;
    let f = steps % s;
    let z = q % zones;
    let t = q / zones;
    vstd::arithmetic::div_mod::lemma_fundamental_div_mod(q, zones);
    vstd::arithmetic::div_mod::lemma_mod_bound(q, zones);
    assert(steps == t * (zones * s) + (z * s + f) && 0 <= z * s + f < zones * s) by (nonlinear_arith)
        requires
            steps == q * s + f,
            q == zones * t + z,
            0 <= z <= zones - 1,
            0 <= f < s,
            s == 131_072,
    {
        assert(z * s <= (zones - 1) * s);
        assert(z * s >= 0);
    }
    vstd::arithmetic::div_mod::lemma_fundamental_div_mod_converse(steps, zones * s, t, z * s + f);
}

/// The number of zones drops below `59 - k` exactly from the `k`-th transition on.
pub proof fn law_zones_drop_at_transitions(lat: Fraction, k: int)
    requires
        0 <= k < 58,
        lat.den > 0,
    ensures
        nl_of(lat) <= 58 - k <==> abs_int(lat.num) * 100_000_000 >= NL_TRANSITIONS@[k] * lat.den,
{
    lemma_passed_counts(lat, 0, k);
}

proof fn lemma_passed_counts(lat: Fraction, from: int, k: int)
    requires
        0 <= from <= k < 58,
        lat.den > 0,
    ensures
        transitions_passed(lat, from) > k <==> abs_int(lat.num) * 100_000_000 >= NL_TRANSITIONS@[k] * lat.den,
    decreases 58 - from,
{
    let x = abs_int(lat.num) * 100_000_000;
    lemma_passed_range(lat, from + 1);
    if x < NL_TRANSITIONS@[from] * lat.den {
        lemma_table_rises(from, k);
        let a = NL_TRANSITIONS@[from] as int;
        let b = NL_TRANSITIONS@[k] as int;
        assert(a * lat.den <= b * lat.den) by (nonlinear_arith)
            requires
                a <= b,
                lat.den > 0,
        ;
    } else if from < k {
        lemma_passed_counts(lat, from + 1, k);
    }
}

proof fn lemma_table_rises(i: int, k: int)
    requires
        0 <= i <= k < 58,
    ensures
        NL_TRANSITIONS@[i] <= NL_TRANSITIONS@[k],
    decreases k - i,
{
    assert(forall|j: int| 0 <= j < 57 ==> #[trigger] NL_TRANSITIONS@[j] < NL_TRANSITIONS@[j + 1]);
    if i < k {
        lemma_table_rises(i, k - 1);
        assert(NL_TRANSITIONS@[k - 1] < NL_TRANSITIONS@[k - 1 + 1]);
    }
}

/// Two reports that give a position are one even and one odd, and the position is on the
/// globe: no further than 90 degrees from the equator, and from 180 degrees west to just
/// short of 180 degrees east. Both reports agree on the number of longitude zones.
pub proof fn law_global_position_is_on_the_globe(even: CprPosition, odd: CprPosition, most_recent_is_odd: bool)
    requires
        even.valid(),
        odd.valid(),
        global_of(even, odd, most_recent_is_odd) is Ok,
    ensures
        ({
            let (lat, lon) = global_of(even, odd, most_recent_is_odd)->Ok_0;
            &&& !even.odd && odd.odd
            &&& lat.den > 0 && -90 * lat.den <= lat.num <= 90 * lat.den
            &&& lon.den > 0 && -180 * lon.den <= lon.num < 180 * lon.den
            &&& nl_of(pair_latitude(even, odd, false)) == nl_of(pair_latitude(even, odd, true))
        }),
{
    let (lat, lon) = global_of(even, odd, most_recent_is_odd)->Ok_0;
    let n = nl_of(lat);
    law_nl_range_and_symmetry(lat);
    let z = odd_zones(n);
    let m = pair_index(even.lon_cpr as int, odd.lon_cpr as int, n, z);
    if most_recent_is_odd {
        vstd::arithmetic::div_mod::lemma_mod_bound(m, z);
        lemma_wrapped_range(m % z, odd.lon_cpr as int, z);
    } else {
        vstd::arithmetic::div_mod::lemma_mod_bound(m, n);
        lemma_wrapped_range(m % n, even.lon_cpr as int, n);
    }
}

/// Two reports give a position exactly if one is even and the other odd, neither latitude
/// lies beyond a pole, and both latitudes have as many longitude zones. What is wrong is
/// told in this order.
pub proof fn law_global_decode_says_what_is_wrong(even: CprPosition, odd: CprPosition, most_recent_is_odd: bool)
    ensures
        ({
            let a = pair_latitude(even, odd, false);
            let b = pair_latitude(even, odd, true);
            let paired = !even.odd && odd.odd;
            let on_globe = -90 * a.den <= a.num <= 90 * a.den && -90 * b.den <= b.num <= 90 * b.den;
            match global_of(even, odd, most_recent_is_odd) {
                Ok((lat, _)) => paired && on_globe && nl_of(a) == nl_of(b) && lat == if most_recent_is_odd {
                    b
                } else {
                    a
                },
                Err(CprError::ParityMismatch) => !paired,
                Err(CprError::LatitudeOutOfRange) => paired && !on_globe,
                Err(CprError::LatitudeZoneMismatch) => paired && on_globe && nl_of(a) != nl_of(b),
            }
        }),
{
}

proof fn lemma_wrapped_range(zone: int, frac: int, zones: int)
    requires
        0 <= zone < zones,
        0 <= frac < CPR_STEPS,
    ensures
        ({
            let a = wrapped(angle(zone, frac, zones), 180);
            a.den > 0 && -180 * a.den <= a.num < 180 * a.den
        }),
{
    let s = CPR_STEPS as int;
    let a = angle(zone, frac, zones);
    assert(0 <= a.num < 360 * a.den && a.den > 0) by (nonlinear_arith)
        requires
            a.num == 360 * (zone * s + frac),
            a.den == zones * s,
            0 <= zone <= zones - 1,
            0 <= frac < s,
            s == 131_072,
    {
        assert(zone * s <= (zones - 1) * s);
        assert(zone * s >= 0);
        assert(zones * s >= s);
    }
}

/// A surface report, whose grids are four times finer, gives back the place that it
/// reports, to the nearest step of these grids, if the reference is less than half a zone
/// of them away in either direction.
pub proof fn law_surface_decode_recovers_position(
    lat: Fraction,
    lon: Fraction,
    msg: CprPosition,
    reference: LatLon,
)
    requires
        lat.den > 0,
        lat.within(-90, 90),
        lon.den > 0,
        lon.within(-180, 180),
        reference.lat_deg@.den > 0,
        reference.lon_deg@.den > 0,
        ({
            let zones = if msg.odd {
                236int
            } else {
                240int
            };
            let k = steps_of(lat, zones);
            let n = nl_of(on_grid(k, zones));
            let z = if msg.odd {
                4 * odd_zones(n)
            } else {
                4 * n
            };
            let m = steps_of(lon, z);
            &&& msg.lat_cpr == k % 131_072
            &&& msg.lon_cpr == m % 131_072
            &&& is_near(reference.lat_deg@, k, zones)
            &&& is_near(reference.lon_deg@, m, z)
        }),
    ensures
        ({
            let zones = if msg.odd {
                236int
            } else {
                240int
            };
            let k = steps_of(lat, zones);
            let n = nl_of(on_grid(k, zones));
            let z = if msg.odd {
                4 * odd_zones(n)
            } else {
                4 * n
            };
            let p = local_latitude(msg, reference.lat_deg@, 4);
            &&& p == on_grid(k, zones)
            &&& local_longitude(msg, reference.lon_deg@, 4, nl_of(p)) == longitude_on_grid(steps_of(lon, z), z)
        }),
{
    let s = CPR_STEPS as int;
    let zones = if msg.odd {
        236int
    } else {
        240int
    };
    let k = steps_of(lat, zones);
    let d = 360 * lat.den;
    let most = zones * 32_768;
    assert(-(most * d) <= lat.num * (zones * s) <= most * d) by (nonlinear_arith)
        requires
            -90 * lat.den <= lat.num <= 90 * lat.den,
            most == zones * 32_768,
            s == 131_072,
            d == 360 * lat.den,
            zones > 0,
    {
        assert(lat.num * (zones * s) <= (90 * lat.den) * (zones * s));
        assert((-90 * lat.den) * (zones * s) <= lat.num * (zones * s));
        assert((90 * lat.den) * (zones * s) == most * d);
        assert((-90 * lat.den) * (zones * s) == -(most * d));
    }
    lemma_nearest_between(lat.num * (zones * s), d, most);
    law_local_recovers_position(reference.lat_deg@, k, zones);
    let p = on_grid(k, zones);
    assert(local_latitude(msg, reference.lat_deg@, 4) == p);
    let n = nl_of(p);
    law_nl_range_and_symmetry(p);
    let z = if msg.odd {
        4 * odd_zones(n)
    } else {
        4 * n
    };
    lemma_longitude_range(lon, z);
    law_local_recovers_position(reference.lon_deg@, steps_of(lon, z), z);
}

} // verus!

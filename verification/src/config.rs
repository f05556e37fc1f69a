//! Settings: positions given as text, where a setting comes from, and the sections of
//! the configuration file.

use crate::cpr::{Fraction, LatLon, Ratio};
use crate::double::{as_fraction, is_double, lemma_fraction_within};
use crate::numeral::{chars_of, is_reading, numeral, parse_numeral, trim, trimmed, Numeral, Parsed};
use vstd::arithmetic::power2::pow2;
use vstd::prelude::*;

verus! {

// --- Sections ----------------------------------------------------------------

/// An output that is on or off.
#[derive(Debug, Clone, Copy, PartialEq, Eq, Structural)]
pub struct BoolOutput {
    pub enabled: bool,
}

impl Default for BoolOutput {
    fn default() -> (o: BoolOutput)
        ensures
            !o.enabled,
    {
        BoolOutput { enabled: false }
    }
}

/// Where the samples come from.
#[derive(Debug)]
pub enum SourceConfig {
    /// A receiver.
    Live { device: Option<usize>, gain_tenth_db: Option<i32>, auto_gain: Option<bool>, bias_t: Option<bool> },
    /// A recording.
    File { path: String, sample_rate: Option<u32>, center_freq: Option<u32>, realtime: Option<bool> },
}

/// The value of a setting: the one on the command line if it was given there, else the
/// one in the file, else the default, which is what the command line has when nothing
/// was given.
pub fn merged<T>(explicit: bool, command_line: T, file: Option<T>) -> (v: T)
    ensures
        v == (if explicit {
            command_line
        } else {
            match file {
                Some(f) => f,
                None => command_line,
            }
        }),
{
    if explicit {
        return command_line;
    }
    match file {
        Some(f) => f,
        None => command_line,
    }
}

/// Whether a text begins with another.
pub open spec fn begins_with(s: Seq<char>, p: Seq<char>) -> bool {
    p.len() <= s.len() && forall|i: int| 0 <= i < p.len() ==> s[i] == p[i]
}

/// Whether an address to listen on is reachable from this machine alone.
pub open spec fn is_loopback(bind: Seq<char>) -> bool {
    begins_with(bind, "127.0.0.1"@) || begins_with(bind, "localhost"@) || begins_with(bind, "[::1]"@)
}

fn starts_with(s: &[char], p: &str) -> (yes: bool)
    ensures
        yes == begins_with(s@, p@),
{
    let q = chars_of(p);
    if q.len() > s.len() {
        return false;
    }
    let mut i: usize = 0;
    while i < q.len()
        invariant
            i <= q@.len() <= s@.len(),
            q@ == p@,
            forall|k: int| 0 <= k < i ==> s@[k] == q@[k],
        decreases q@.len() - i,
    {
        if s[i] != q[i] {
            return false;
        }
        i += 1;
    }
    true
}

/// Whether an address to listen on is reachable from this machine alone. Listening on
/// any other deserves a warning.
#[must_use]
pub fn is_loopback_bind(bind: &str) -> (yes: bool)
    ensures
        yes == is_loopback(bind@),
{
    let s = chars_of(bind);
    starts_with(s.as_slice(), "127.0.0.1") || starts_with(s.as_slice(), "localhost") || starts_with(
        s.as_slice(),
        "[::1]",
    )
}

// --- Positions ---------------------------------------------------------------

/// What is wrong with a position given as text.
#[derive(Debug, Clone, Copy, PartialEq, Eq, Structural)]
pub enum LatLonError {
    /// There is no comma.
    MissingComma,
    /// What stands before the comma is not a number.
    BadLatitude,
    /// What stands behind the comma is not a number.
    BadLongitude,
    /// A number is out of range.
    OutOfRange,
}

/// Where the first comma is, the length if there is none.
pub open spec fn first_comma(s: Seq<char>) -> nat
    decreases s.len(),
{
    if s.len() == 0 || s[0] == ',' {
        0
    } else {
        1 + first_comma(s.skip(1))
    }
}

/// The number in degrees that a text stands for, in double precision, if it lies between
/// `-bound` and `bound`.
pub open spec fn degrees_within(n: Option<Numeral>, bound: nat) -> Option<Fraction> {
    match n {
        Some(n) => if !n.is_huge() && n.double().0 <= bound * pow2(n.double().1) {
            Some(as_fraction(n.sign(), n.double()))
        } else {
            None
        },
        None => None,
    }
}

/// The position that a text stands for, in degrees: latitude, then longitude.
pub open spec fn latlon_of(s: Seq<char>) -> Result<(Fraction, Fraction), LatLonError> {
    let i = first_comma(s) as int;
    let lat = numeral(trimmed(s.take(i)));
    let lon = numeral(trimmed(s.skip(i + 1)));
    if i >= s.len() {
        Err(LatLonError::MissingComma)
    } else if lat is None {
        Err(LatLonError::BadLatitude)
    } else if lon is None {
        Err(LatLonError::BadLongitude)
    } else {
        match (degrees_within(lat, 90), degrees_within(lon, 180)) {
            (Some(a), Some(b)) => Ok((a, b)),
            _ => Err(LatLonError::OutOfRange),
        }
    }
}

/// The position of the first comma.
pub(crate) fn find_comma(s: &[char]) -> (i: usize)
    ensures
        i == first_comma(s@),
        i <= s@.len(),
        i < s@.len() ==> s@[i as int] == ',',
{
    let mut i: usize = 0;
    assert(s@.skip(0) =~= s@);
    while i < s.len() && s[i] != ','
        invariant
            i <= s@.len(),
            first_comma(s@) == i + first_comma(s@.skip(i as int)),
        decreases s@.len() - i,
    {
        assert(s@.skip(i as int).skip(1) =~= s@.skip(i + 1));
        i += 1;
    }
    i
}

/// A number in degrees within a bound.
pub(crate) fn within_bound(p: &Parsed, bound: u8, Ghost(n): Ghost<Option<Numeral>>) -> (r: Option<Ratio>)
    requires
        is_reading(n, *p),
        bound == 90 || bound == 180,
    ensures
        match r {
            Some(v) => {
                &&& degrees_within(n, bound as nat) == Some(v@)
                &&& v@.within(-bound, bound as int)
                &&& p is Value
            },
            None => degrees_within(n, bound as nat) is None,
        },
{
    match p {
        Parsed::Value(v) => {
            if v.is_within(bound) {
                proof {
                    let m = v.magnitude().0;
                    let t = pow2(v.magnitude().1);
                    let b = bound as nat;
                    assert(b * t <= 720 * t) by (nonlinear_arith)
                        requires
                            b <= 180,
                            t >= 0,
                    ;
                    lemma_fraction_within(v.sign(), v.magnitude(), b);
                }
                Some(v.to_ratio())
            } else {
                None
            }
        },
        _ => None,
    }
}

/// Reads a position given as `lat,lon` in degrees.
pub fn parse_latlon_string(s: &str) -> (r: Result<LatLon, LatLonError>)
    ensures
        match r {
            Ok(p) => {
                &&& latlon_of(s@) == Ok::<(Fraction, Fraction), LatLonError>((p.lat_deg@, p.lon_deg@))
                &&& p.lat_deg@.within(-90, 90)
                &&& p.lon_deg@.within(-180, 180)
            },
            Err(e) => latlon_of(s@) == Err::<(Fraction, Fraction), LatLonError>(e),
        },
{
    let text = chars_of(s);
    let i: usize = find_comma(text.as_slice());
    if i >= text.len() {
        return Err(LatLonError::MissingComma);
    }
    let before = vstd::slice::slice_subrange(text.as_slice(), 0, i);
    let behind = vstd::slice::slice_subrange(text.as_slice(), i + 1, text.len());
    assert(before@ =~= s@.take(i as int));
    assert(behind@ =~= s@.skip(i + 1));
    let lat = parse_numeral(trim(before));
    if let Parsed::Invalid = lat {
        return Err(LatLonError::BadLatitude);
    }
    let lon = parse_numeral(trim(behind));
    if let Parsed::Invalid = lon {
        return Err(LatLonError::BadLongitude);
    }
    let lat_deg = within_bound(&lat, 90, Ghost(numeral(trimmed(s@.take(i as int)))));
    let lon_deg = within_bound(&lon, 180, Ghost(numeral(trimmed(s@.skip(i + 1)))));
    match (lat_deg, lon_deg) {
        (Some(lat_deg), Some(lon_deg)) => Ok(LatLon { lat_deg, lon_deg }),
        _ => Err(LatLonError::OutOfRange),
    }
}

// --- Laws --------------------------------------------------------------------

/// A position is read from the text before the first comma, which gives the latitude, and
/// the text behind it, which gives the longitude. Neither may be more than a quarter turn,
/// or half a turn, from zero. White space around either does not matter.
pub proof fn law_position_is_latitude_and_longitude(x: Seq<char>, y: Seq<char>)
    requires
        !x.contains(','),
    ensures
        ({
            let s = x + seq![','] + y;
            let lat = numeral(trimmed(x));
            let lon = numeral(trimmed(y));
            match latlon_of(s) {
                Ok((a, b)) => {
                    &&& degrees_within(lat, 90) == Some(a)
                    &&& degrees_within(lon, 180) == Some(b)
                },
                Err(LatLonError::MissingComma) => false,
                Err(LatLonError::BadLatitude) => lat is None,
                Err(LatLonError::BadLongitude) => lat is Some && lon is None,
                Err(LatLonError::OutOfRange) => {
                    &&& lat is Some && lon is Some
                    &&& degrees_within(lat, 90) is None || degrees_within(lon, 180) is None
                },
            }
        }),
        latlon_of(x) == Err::<(Fraction, Fraction), LatLonError>(LatLonError::MissingComma),
{
    let s = x + seq![','] + y;
    lemma_comma(x, y);
    lemma_no_comma(x);
    assert(s.take(x.len() as int) =~= x);
    assert(s.skip(x.len() as int + 1) =~= y);
}

pub(crate) proof fn lemma_comma(x: Seq<char>, y: Seq<char>)
    requires
        !x.contains(','),
    ensures
        first_comma(x + seq![','] + y) == x.len(),
    decreases x.len(),
{
    let s = x + seq![','] + y;
    if x.len() > 0 {
        let rest = x.skip(1);
        assert(x[0] != ',');
        assert(!rest.contains(',')) by {
            if rest.contains(',') {
                let i = rest.index_of(',');
                assert(x[i + 1] == ',');
            }
        }
        lemma_comma(rest, y);
        assert(s.skip(1) =~= rest + seq![','] + y);
    }
}

pub(crate) proof fn lemma_no_comma(x: Seq<char>)
    requires
        !x.contains(','),
    ensures
        first_comma(x) == x.len(),
    decreases x.len(),
{
    if x.len() > 0 {
        let rest = x.skip(1);
        assert(x[0] != ',');
        assert(!rest.contains(',')) by {
            if rest.contains(',') {
                let i = rest.index_of(',');
                assert(x[i + 1] == ',');
            }
        }
        lemma_no_comma(rest);
    }
}

/// A number of degrees that is taken is finite and lies within the bound, as far as double
/// precision tells.
pub proof fn law_degrees_stay_within(n: Option<Numeral>, bound: nat)
    requires
        bound == 90 || bound == 180,
        degrees_within(n, bound) is Some,
        is_double((n->0).double()),
    ensures
        ({
            let f = degrees_within(n, bound)->0;
            &&& n is Some
            &&& f.den > 0
            &&& -(bound * f.den) <= f.num <= bound * f.den
            &&& f.num > 0 ==> !(n->0).sign()
            &&& f.num < 0 ==> (n->0).sign()
        }),
{
    lemma_fraction_within((n->0).sign(), (n->0).double(), bound);
    let d = degrees_within(n, bound)->0.den;
    let b = bound as int;
    assert((-b) * d == -(b * d)) by (nonlinear_arith);
    let x = (n->0).double();
    if x.1 > 62 {
        let k = (x.1 - 62) as nat;
        vstd::arithmetic::power2::lemma_pow2_pos(k);
        vstd::arithmetic::div_mod::lemma_div_pos_is_pos(x.0 as int, pow2(k) as int);
    }
}

/// An address is taken to be reachable from this machine alone only if it begins like one of
/// the loopback addresses, whatever port follows.
pub proof fn law_loopback_whatever_the_port(port: Seq<char>)
    ensures
        is_loopback("127.0.0.1"@ + port),
        is_loopback("localhost"@ + port),
        is_loopback("[::1]"@ + port),
        forall|s: Seq<char>| #[trigger] is_loopback(s) ==> s.len() >= 5 && (s[0] == '1' || s[0] == 'l' || s[0] == '['),
{
    reveal_strlit("127.0.0.1");
    reveal_strlit("localhost");
    reveal_strlit("[::1]");
    assert("127.0.0.1"@.len() == 9 && "127.0.0.1"@[0] == '1');
    assert("localhost"@.len() == 9 && "localhost"@[0] == 'l');
    assert("[::1]"@.len() == 5 && "[::1]"@[0] == '[');
}

} // verus!

//! Decimal numerals.
//!
//! A numeral is an optional sign, digits with an optional decimal point among or
//! around them, and an optional exponent; or, after the sign, one of the words `inf`,
//! `infinity` and `nan` in any case. Numbers are rounded to double precision.

use crate::double::{
    is_decimal, is_double, lemma_number_append, nearest_double, nearest_of_parts, number, scale_from,
    signed_below, Double, FINEST_SCALE,
};
use crate::text::decimal;
use vstd::arithmetic::power2::{lemma2_to64, lemma_pow2_adds, lemma_pow2_pos, lemma_pow2_unfold, pow2};
use vstd::prelude::*;
use vstd::string::StrSliceExecFns;

verus! {

// --- Characters --------------------------------------------------------------

/// The characters of a text.
pub(crate) fn chars_of(s: &str) -> (v: Vec<char>)
    ensures
        v@ == s@,
{
    let n: usize = s.unicode_len();
    let mut v: Vec<char> = Vec::new();
    let mut i: usize = 0;
    while i < n
        invariant
            i <= n,
            n == s@.len(),
            v@ == s@.take(i as int),
        decreases n - i,
    {
        v.push(s.get_char(i));
        i += 1;
        assert(v@ =~= s@.take(i as int));
    }
    assert(s@.take(n as int) =~= s@);
    v
}

/// Whether a character is white space.
pub open spec fn is_space(c: char) -> bool {
    let u = c as u32;
    9 <= u <= 13 || u == 32 || u == 0x85 || u == 0xA0 || u == 0x1680 || 0x2000 <= u <= 0x200A || u == 0x2028 || u
        == 0x2029 || u == 0x202F || u == 0x205F || u == 0x3000
}

fn is_space_char(c: char) -> (yes: bool)
    ensures
        yes == is_space(c),
{
    let u: u32 = c as u32;
    (9 <= u && u <= 13) || u == 32 || u == 0x85 || u == 0xA0 || u == 0x1680 || (0x2000 <= u && u <= 0x200A) || u
        == 0x2028 || u == 0x2029 || u == 0x202F || u == 0x205F || u == 0x3000
}

/// The text without the white space at its start.
pub open spec fn trimmed_start(s: Seq<char>) -> Seq<char>
    decreases s.len(),
{
    if s.len() > 0 && is_space(s[0]) {
        trimmed_start(s.skip(1))
    } else {
        s
    }
}

/// The text without the white space at its end.
pub open spec fn trimmed_end(s: Seq<char>) -> Seq<char>
    decreases s.len(),
{
    if s.len() > 0 && is_space(s.last()) {
        trimmed_end(s.drop_last())
    } else {
        s
    }
}

/// The text without the white space around it.
pub open spec fn trimmed(s: Seq<char>) -> Seq<char> {
    trimmed_end(trimmed_start(s))
}

/// The text without the white space around it.
pub(crate) fn trim(s: &[char]) -> (t: &[char])
    ensures
        t@ == trimmed(s@),
        t@.len() <= s@.len(),
{
    let n: usize = s.len();
    let mut a: usize = 0;
    assert(s@.skip(0) =~= s@);
    while a < n && is_space_char(s[a])
        invariant
            a <= n,
            n == s@.len(),
            trimmed_start(s@) == trimmed_start(s@.skip(a as int)),
        decreases n - a,
    {
        assert(s@.skip(a as int).skip(1) =~= s@.skip(a + 1));
        a += 1;
    }
    let mut b: usize = n;
    assert(s@.skip(a as int) =~= s@.subrange(a as int, n as int));
    while b > a && is_space_char(s[b - 1])
        invariant
            a <= b <= n,
            n == s@.len(),
            trimmed(s@) == trimmed_end(s@.subrange(a as int, b as int)),
        decreases b,
    {
        assert(s@.subrange(a as int, b as int).drop_last() =~= s@.subrange(a as int, b - 1));
        b -= 1;
    }
    vstd::slice::slice_subrange(s, a, b)
}

// --- Digits ------------------------------------------------------------------

/// Whether a character is a decimal digit.
pub open spec fn is_digit(c: char) -> bool {
    48 <= c as u32 <= 57
}

/// Whether every character is a decimal digit.
pub open spec fn all_digits(s: Seq<char>) -> bool {
    forall|i: int| 0 <= i < s.len() ==> is_digit(#[trigger] s[i])
}

/// The number that digits write.
pub open spec fn value_of(s: Seq<char>) -> nat
    decreases s.len(),
{
    if s.len() == 0 {
        0
    } else {
        10 * value_of(s.drop_last()) + (s.last() as u32 - 48) as nat
    }
}

/// The number of digits in a row from `i` on.
pub open spec fn digit_run(s: Seq<char>, i: int) -> nat
    decreases s.len() - i,
{
    if 0 <= i < s.len() && is_digit(s[i]) {
        1 + digit_run(s, i + 1)
    } else {
        0
    }
}

proof fn lemma_digit_run(s: Seq<char>, i: int)
    requires
        0 <= i <= s.len(),
    ensures
        i + digit_run(s, i) <= s.len(),
        all_digits(s.subrange(i, i + digit_run(s, i))),
    decreases s.len() - i,
{
    if i < s.len() && is_digit(s[i]) {
        lemma_digit_run(s, i + 1);
        let r = s.subrange(i, i + digit_run(s, i));
        let q = s.subrange(i + 1, i + 1 + digit_run(s, i + 1));
        assert forall|k: int| 0 <= k < r.len() implies is_digit(#[trigger] r[k]) by {
            if k > 0 {
                assert(r[k] == q[k - 1]);
            }
        }
    }
}

fn run_of_digits(s: &[char], i: usize) -> (n: usize)
    requires
        i <= s@.len(),
    ensures
        n == digit_run(s@, i as int),
        i + n <= s.len(),
        all_digits(s@.subrange(i as int, i + n)),
{
    let mut n: usize = 0;
    while n < s.len() - i && is_digit_char(s[i + n])
        invariant
            i + n <= s.len(),
            digit_run(s@, i as int) == n + digit_run(s@, i + n),
        decreases s.len() - i - n,
    {
        n += 1;
    }
    proof {
        lemma_digit_run(s@, i as int);
    }
    n
}

fn is_digit_char(c: char) -> (yes: bool)
    ensures
        yes == is_digit(c),
{
    let u: u32 = c as u32;
    48 <= u && u <= 57
}

/// Ten to the power `k`.
pub open spec fn ten(k: nat) -> nat
    decreases k,
{
    if k == 0 {
        1
    } else {
        10 * ten((k - 1) as nat)
    }
}

pub proof fn lemma_ten(k: nat)
    ensures
        ten(k) >= 1,
    decreases k,
{
    if k > 0 {
        lemma_ten((k - 1) as nat);
    }
}

proof fn lemma_value_bound(s: Seq<char>)
    requires
        all_digits(s),
    ensures
        value_of(s) < ten(s.len()),
    decreases s.len(),
{
    if s.len() > 0 {
        let front = s.drop_last();
        assert(is_digit(s[s.len() - 1]));
        assert forall|i: int| 0 <= i < front.len() implies is_digit(#[trigger] front[i]) by {
            assert(front[i] == s[i]);
        }
        lemma_value_bound(front);
    }
}

/// The number that digits write does not shrink when digits follow.
proof fn lemma_value_grows(s: Seq<char>, i: int)
    requires
        all_digits(s),
        0 <= i <= s.len(),
    ensures
        value_of(s.take(i)) <= value_of(s),
    decreases s.len(),
{
    if i == s.len() {
        assert(s.take(i) =~= s);
    } else {
        let front = s.drop_last();
        assert forall|k: int| 0 <= k < front.len() implies is_digit(#[trigger] front[k]) by {
            assert(front[k] == s[k]);
        }
        lemma_value_grows(front, i);
        assert(front.take(i) =~= s.take(i));
    }
}

/// The number that a text of digits writes, if it has at most 64 bits.
pub(crate) fn value_in_64_bits(s: &[char]) -> (v: Option<u64>)
    ensures
        match v {
            Some(n) => all_digits(s@) && n == value_of(s@),
            None => all_digits(s@) ==> value_of(s@) > u64::MAX,
        },
{
    let mut v: u64 = 0;
    let mut i: usize = 0;
    while i < s.len()
        invariant
            i <= s@.len(),
            v == value_of(s@.take(i as int)),
            forall|k: int| 0 <= k < i ==> is_digit(#[trigger] s@[k]),
        decreases s@.len() - i,
    {
        if !is_digit_char(s[i]) {
            return None;
        }
        assert(s@.take(i + 1).drop_last() =~= s@.take(i as int));
        let d: u32 = s[i] as u32 - 48;
        let next: u128 = 10 * v as u128 + d as u128;
        if next > u64::MAX as u128 {
            proof {
                if all_digits(s@) {
                    lemma_value_grows(s@, i + 1);
                }
            }
            return None;
        }
        v = next as u64;
        i += 1;
    }
    assert(s@.take(s@.len() as int) =~= s@);
    Some(v)
}

// --- Numerals ----------------------------------------------------------------

/// What a text stands for.
pub enum Numeral {
    /// Infinite, or not a number.
    Special,
    /// `digits` times ten to the power `exponent`, negated or not.
    Finite { negative: bool, digits: Seq<char>, exponent: int },
}

/// The lower-case form of an ASCII letter.
pub open spec fn lower(c: char) -> int {
    if 65 <= c as u32 <= 90 {
        c as u32 + 32
    } else {
        c as u32 as int
    }
}

/// Whether a text is a word, given by the codes of its lower-case letters, in any
/// case.
pub open spec fn is_word(s: Seq<char>, word: Seq<int>) -> bool {
    s.len() == word.len() && forall|i: int| 0 <= i < s.len() ==> lower(#[trigger] s[i]) == word[i]
}

/// `inf`, `infinity` or `nan`.
pub open spec fn is_special(s: Seq<char>) -> bool {
    ||| is_word(s, seq![105int, 110, 102])
    ||| is_word(s, seq![105int, 110, 102, 105, 110, 105, 116, 121])
    ||| is_word(s, seq![110int, 97, 110])
}

/// The length of a sign at `i`.
pub open spec fn sign_len(s: Seq<char>, i: int) -> int {
    if 0 <= i < s.len() && (s[i] == '-' || s[i] == '+') {
        1
    } else {
        0
    }
}

/// The exponent written from `m` on to the end: none, or `e`, an optional sign and
/// digits.
pub open spec fn exponent_at(s: Seq<char>, m: int) -> Option<int> {
    if m == s.len() {
        Some(0)
    } else {
        let g = m + 1 + sign_len(s, m + 1);
        let n = digit_run(s, g);
        if (s[m] == 'e' || s[m] == 'E') && n >= 1 && g + n == s.len() {
            let v = value_of(s.subrange(g, g + n)) as int;
            Some(
                if s[m + 1] == '-' {
                    -v
                } else {
                    v
                },
            )
        } else {
            None
        }
    }
}

/// Length of the digits before the point, of the point, and of the digits behind it.
pub open spec fn mantissa(s: Seq<char>) -> (nat, nat, nat) {
    let a = digit_run(s, 0);
    if a < s.len() && s[a as int] == '.' {
        (a, 1, digit_run(s, a as int + 1))
    } else {
        (a, 0, 0)
    }
}

/// What a text without its sign stands for.
pub open spec fn unsigned_numeral(s: Seq<char>, negative: bool) -> Option<Numeral> {
    let (a, p, b) = mantissa(s);
    if is_special(s) {
        Some(Numeral::Special)
    } else if a + b == 0 {
        None
    } else {
        match exponent_at(s, (a + p + b) as int) {
            Some(e) => Some(
                Numeral::Finite {
                    negative,
                    digits: s.subrange(0, a as int) + s.subrange((a + p) as int, (a + p + b) as int),
                    exponent: e - b,
                },
            ),
            None => None,
        }
    }
}

/// What a text stands for.
pub open spec fn numeral(s: Seq<char>) -> Option<Numeral> {
    unsigned_numeral(s.skip(sign_len(s, 0)), s.len() > 0 && s[0] == '-')
}

// --- Leading zeros -----------------------------------------------------------

/// Whether a character is the digit zero.
pub open spec fn is_zero(c: char) -> bool {
    c as u32 == 48
}

/// The digits without the zeros at their start.
pub open spec fn without_zeros(s: Seq<char>) -> Seq<char>
    decreases s.len(),
{
    if s.len() > 0 && is_zero(s[0]) {
        without_zeros(s.skip(1))
    } else {
        s
    }
}

proof fn lemma_leading_zero(s: Seq<char>)
    requires
        s.len() > 0,
        is_zero(s[0]),
    ensures
        value_of(s) == value_of(s.skip(1)),
    decreases s.len(),
{
    if s.len() == 1 {
        assert(s.drop_last() =~= Seq::<char>::empty());
        assert(s.skip(1) =~= Seq::<char>::empty());
    } else {
        assert(s.drop_last().skip(1) =~= s.skip(1).drop_last());
        lemma_leading_zero(s.drop_last());
    }
}

/// Zeros at the start do not change the number.
proof fn lemma_without_zeros(s: Seq<char>)
    requires
        all_digits(s),
    ensures
        all_digits(without_zeros(s)),
        value_of(without_zeros(s)) == value_of(s),
        without_zeros(s).len() <= s.len(),
        without_zeros(s).len() > 0 ==> !is_zero(without_zeros(s)[0]),
    decreases s.len(),
{
    if s.len() > 0 && is_zero(s[0]) {
        lemma_leading_zero(s);
        let rest = s.skip(1);
        assert forall|i: int| 0 <= i < rest.len() implies is_digit(#[trigger] rest[i]) by {
            assert(rest[i] == s[i + 1]);
        }
        lemma_without_zeros(rest);
    }
}

/// Digits that do not start with a zero write a number of their length.
proof fn lemma_leading_digit(s: Seq<char>)
    requires
        all_digits(s),
        s.len() > 0,
        !is_zero(s[0]),
    ensures
        ten((s.len() - 1) as nat) <= value_of(s) < ten(s.len()),
    decreases s.len(),
{
    lemma_value_bound(s);
    let front = s.drop_last();
    if s.len() == 1 {
        assert(front =~= Seq::<char>::empty());
        assert(is_digit(s[0]));
        assert(s.last() == s[0]);
    } else {
        assert forall|i: int| 0 <= i < front.len() implies is_digit(#[trigger] front[i]) by {
            assert(front[i] == s[i]);
        }
        lemma_leading_digit(front);
    }
}

pub proof fn lemma_ten_add(a: nat, b: nat)
    ensures
        ten(a + b) == ten(a) * ten(b),
    decreases b,
{
    if b > 0 {
        lemma_ten_add(a, (b - 1) as nat);
        let x = ten(a);
        let y = ten((b - 1) as nat);
        assert(10 * (x * y) == x * (10 * y)) by (nonlinear_arith);
    } else {
        assert(ten(a) * 1 == ten(a));
    }
}

// --- Rounding ----------------------------------------------------------------

/// The numerator of `digits` times ten to the power `exponent`.
pub open spec fn numerator(digits: Seq<char>, exponent: int) -> nat {
    if exponent >= 0 {
        value_of(digits) * ten(exponent as nat)
    } else {
        value_of(digits)
    }
}

/// The denominator of a number times ten to the power `exponent`.
pub open spec fn denominator(exponent: int) -> nat {
    if exponent >= 0 {
        1
    } else {
        ten((-exponent) as nat)
    }
}

impl Numeral {
    /// The magnitude is 1000 or more, or there is none.
    pub open spec fn is_huge(self) -> bool {
        match self {
            Numeral::Special => true,
            Numeral::Finite { negative, digits, exponent } => numerator(digits, exponent) >= 1000 * denominator(
                exponent,
            ),
        }
    }

    /// The sign.
    pub open spec fn sign(self) -> bool {
        match self {
            Numeral::Special => false,
            Numeral::Finite { negative, digits, exponent } => negative,
        }
    }

    /// The magnitude in double precision.
    pub open spec fn double(self) -> (nat, nat) {
        match self {
            Numeral::Special => (0, 0),
            Numeral::Finite { negative, digits, exponent } => nearest_double(
                numerator(digits, exponent),
                denominator(exponent),
            ),
        }
    }

    /// In double precision, the number is less than another.
    pub open spec fn is_less(self, other: Numeral) -> bool {
        signed_below(self.sign(), self.double(), other.sign(), other.double())
    }
}

/// `r` is what reading a numeral gives.
pub open spec fn is_reading(n: Option<Numeral>, r: Parsed) -> bool {
    match n {
        None => r is Invalid,
        Some(n) => if n.is_huge() {
            r is OutOfRange
        } else {
            &&& r is Value
            &&& r->Value_0.sign() == n.sign()
            &&& r->Value_0.magnitude() == n.double()
        },
    }
}

/// A numeral that was read.
#[derive(Debug)]
pub enum Parsed {
    /// The text is not a numeral.
    Invalid,
    /// Not a number, or one whose magnitude is 1000 or more.
    OutOfRange,
    /// The nearest number in double precision.
    Value(Double),
}

/// An exponent beyond this makes any number too large, or nothing.
const EXPONENT_CAP: i128 = 1_000_000_000_000_000_000_000_000_000_000;

fn capped_value(s: &[char]) -> (v: i128)
    requires
        all_digits(s@),
    ensures
        v == (if value_of(s@) <= EXPONENT_CAP {
            value_of(s@) as int
        } else {
            EXPONENT_CAP as int
        }),
{
    let mut v: i128 = 0;
    let mut i: usize = 0;
    while i < s.len()
        invariant
            i <= s@.len(),
            all_digits(s@),
            v == (if value_of(s@.take(i as int)) <= EXPONENT_CAP {
                value_of(s@.take(i as int)) as int
            } else {
                EXPONENT_CAP as int
            }),
        decreases s@.len() - i,
    {
        assert(is_digit(s@[i as int]));
        assert(s@.take(i + 1).drop_last() =~= s@.take(i as int));
        let d: u32 = s[i] as u32 - 48;
        v = 10 * v + d as i128;
        if v > EXPONENT_CAP {
            v = EXPONENT_CAP;
        }
        i += 1;
    }
    assert(s@.take(s@.len() as int) =~= s@);
    v
}

proof fn lemma_ten_monotone(a: nat, b: nat)
    requires
        a <= b,
    ensures
        ten(a) <= ten(b),
    decreases b,
{
    if a < b {
        lemma_ten_monotone(a, (b - 1) as nat);
        lemma_ten((b - 1) as nat);
    }
}

fn lower_of(c: char) -> (l: u32)
    ensures
        l == lower(c),
{
    let u: u32 = c as u32;
    if 65 <= u && u <= 90 {
        u + 32
    } else {
        u
    }
}

fn is_special_word(s: &[char]) -> (yes: bool)
    ensures
        yes == is_special(s@),
{
    let n: usize = s.len();
    if n == 3 {
        let a: u32 = lower_of(s[0]);
        let b: u32 = lower_of(s[1]);
        let c: u32 = lower_of(s[2]);
        let inf: bool = a == 105 && b == 110 && c == 102;
        let nan: bool = a == 110 && b == 97 && c == 110;
        assert(inf == is_word(s@, seq![105int, 110, 102])) by {
            assert(inf ==> forall|i: int| 0 <= i < 3 ==> lower(#[trigger] s@[i]) == seq![105int, 110, 102][i]);
            assert(lower(s@[0]) == a && lower(s@[1]) == b && lower(s@[2]) == c);
        }
        assert(nan == is_word(s@, seq![110int, 97, 110])) by {
            assert(nan ==> forall|i: int| 0 <= i < 3 ==> lower(#[trigger] s@[i]) == seq![110int, 97, 110][i]);
            assert(lower(s@[0]) == a && lower(s@[1]) == b && lower(s@[2]) == c);
        }
        inf || nan
    } else if n == 8 {
        let word: [u32; 8] = [105, 110, 102, 105, 110, 105, 116, 121];
        let mut i: usize = 0;
        while i < 8
            invariant
                i <= 8,
                s@.len() == 8,
                word@ =~= seq![105u32, 110, 102, 105, 110, 105, 116, 121],
                forall|k: int| 0 <= k < i ==> lower(#[trigger] s@[k]) == word@[k],
            decreases 8 - i,
        {
            if lower_of(s[i]) != word[i] {
                assert(lower(s@[i as int]) != seq![105int, 110, 102, 105, 110, 105, 116, 121][i as int]);
                assert(!is_word(s@, seq![105int, 110, 102, 105, 110, 105, 116, 121]));
                return false;
            }
            i += 1;
        }
        assert forall|k: int| 0 <= k < 8 implies lower(#[trigger] s@[k]) == seq![
            105int,
            110,
            102,
            105,
            110,
            105,
            116,
            121,
        ][k] by {
            assert(lower(s@[k]) == word@[k]);
        }
        true
    } else {
        false
    }
}

/// Reads the exponent from `m` on to the end, capped.
fn exponent_of(s: &[char], m: usize) -> (e: Option<i128>)
    requires
        m <= s@.len(),
    ensures
        match (e, exponent_at(s@, m as int)) {
            (Some(c), Some(v)) => {
                &&& -EXPONENT_CAP <= c <= EXPONENT_CAP
                &&& -EXPONENT_CAP <= v <= EXPONENT_CAP ==> c == v
                &&& v > EXPONENT_CAP ==> c == EXPONENT_CAP
                &&& v < -EXPONENT_CAP ==> c == -EXPONENT_CAP
            },
            (None, None) => true,
            _ => false,
        },
{
    let n: usize = s.len();
    if m == n {
        return Some(0);
    }
    if s[m] != 'e' && s[m] != 'E' {
        return None;
    }
    let mut g: usize = m + 1;
    let mut negative: bool = false;
    if g < n && (s[g] == '-' || s[g] == '+') {
        negative = s[g] == '-';
        g += 1;
    }
    assert(g == m + 1 + sign_len(s@, m + 1));
    let run: usize = run_of_digits(s, g);
    if run == 0 || g + run != n {
        return None;
    }
    let v: i128 = capped_value(vstd::slice::slice_subrange(s, g, g + run));
    if negative {
        Some(-v)
    } else {
        Some(v)
    }
}

/// The digits of a mantissa.
fn mantissa_digits(s: &[char], a: usize, p: usize, b: usize) -> (digits: Vec<char>)
    requires
        a + p + b <= s.len(),
        all_digits(s@.subrange(0, a as int)),
        all_digits(s@.subrange((a + p) as int, (a + p + b) as int)),
    ensures
        digits@ == s@.subrange(0, a as int) + s@.subrange((a + p) as int, (a + p + b) as int),
        all_digits(digits@),
{
    let mut digits: Vec<char> = Vec::new();
    digits.extend_from_slice(vstd::slice::slice_subrange(s, 0, a));
    digits.extend_from_slice(vstd::slice::slice_subrange(s, a + p, a + p + b));
    let ghost head = s@.subrange(0, a as int);
    let ghost tail = s@.subrange((a + p) as int, (a + p + b) as int);
    assert(digits@ =~= head + tail);
    assert forall|i: int| 0 <= i < digits@.len() implies is_digit(#[trigger] digits@[i]) by {
        if i < a {
            assert(digits@[i] == head[i]);
        } else {
            assert(digits@[i] == tail[i - a]);
        }
    }
    digits
}

/// The digits without the zeros at their start.
fn strip_zeros(s: &[char]) -> (r: &[char])
    ensures
        r@ == without_zeros(s@),
{
    let n: usize = s.len();
    let mut i: usize = 0;
    assert(s@.skip(0) =~= s@);
    while i < n && s[i] as u32 == 48
        invariant
            i <= n,
            n == s@.len(),
            without_zeros(s@) == without_zeros(s@.skip(i as int)),
        decreases n - i,
    {
        assert(s@.skip(i as int).skip(1) =~= s@.skip(i + 1));
        i += 1;
    }
    let r = vstd::slice::slice_subrange(s, i, n);
    assert(r@ =~= s@.skip(i as int));
    r
}

/// The nearest number to digits times ten to the power `exponent`, which may have been
/// capped from `truth`.
fn parse_finite(digits: &[char], exponent: i128, negative: bool, Ghost(truth): Ghost<int>) -> (r: Parsed)
    requires
        all_digits(digits@),
        -2 * EXPONENT_CAP <= exponent <= 2 * EXPONENT_CAP,
        truth == exponent || (truth >= 3 && exponent >= 3) || (-truth >= digits@.len() + 400 && -exponent
            >= digits@.len() + 400),
    ensures
        is_reading(Some(Numeral::Finite { negative, digits: digits@, exponent: truth }), r),
{
    let s = strip_zeros(digits);
    let ghost n = numerator(digits@, truth);
    let ghost d = denominator(truth);
    proof {
        lemma_without_zeros(digits@);
        lemma_denominator(truth);
    }
    if s.len() == 0 {
        proof {
            let t = ten(truth as nat);
            let p = pow2(1075);
            assert(0nat * t == 0 && 0nat * p == 0) by (nonlinear_arith);
            lemma_nothing(n, d);
        }
        return Parsed::Value(Double::new(negative, 0, FINEST_SCALE));
    }
    let top: i128 = s.len() as i128 + exponent;
    if top > 3 {
        proof {
            lemma_large(s@, truth);
        }
        return Parsed::OutOfRange;
    }
    if top <= -360 {
        proof {
            lemma_tiny(s@, truth);
        }
        return Parsed::Value(Double::new(negative, 0, FINEST_SCALE));
    }
    assert(truth == exponent);
    let (head, fraction) = split_point(s, exponent, Ghost(n));
    proof {
        let h = head as nat;
        let r = number(fraction@);
        crate::double::lemma_number_bound(fraction@);
        assert(h * d + r < 1000 * d) by (nonlinear_arith)
            requires
                h <= 999,
                r < d,
        ;
    }
    let (m, scale) = nearest_of_parts(head, fraction, Ghost(n));
    Parsed::Value(Double::new(negative, m, scale))
}

/// Digits as numbers.
fn digit_values(s: &[char]) -> (v: Vec<u8>)
    requires
        all_digits(s@),
    ensures
        v@.len() == s@.len(),
        is_decimal(v@),
        number(v@) == value_of(s@),
{
    let mut v: Vec<u8> = Vec::new();
    let mut i: usize = 0;
    while i < s.len()
        invariant
            i <= s@.len(),
            v@.len() == i,
            all_digits(s@),
            is_decimal(v@),
            number(v@) == value_of(s@.take(i as int)),
        decreases s@.len() - i,
    {
        assert(is_digit(s@[i as int]));
        let ghost before = v@;
        v.push((s[i] as u32 - 48) as u8);
        i += 1;
        assert(v@.drop_last() =~= before);
        assert(s@.take(i as int).drop_last() =~= s@.take(i - 1));
    }
    assert(s@.take(s@.len() as int) =~= s@);
    v
}

/// Splits digits times ten to the power `exponent`, less than 1000, at the point.
fn split_point(s: &[char], exponent: i128, Ghost(n): Ghost<nat>) -> (r: (u64, Vec<u8>))
    requires
        all_digits(s@),
        s@.len() > 0,
        -360 < s@.len() + exponent <= 3,
        n == numerator(s@, exponent as int),
    ensures
        r.0 < 1000,
        is_decimal(r.1@),
        denominator(exponent as int) == ten(r.1@.len()),
        n == r.0 * ten(r.1@.len()) + number(r.1@),
{
    let len: usize = s.len();
    if exponent >= 0 {
        let v: u64 = small_value(s);
        proof {
            lemma_value_bound(s@);
            lemma_ten_monotone(s@.len(), (3 - exponent) as nat);
            lemma_ten_add((3 - exponent) as nat, exponent as nat);
            let t = ten(exponent as nat);
            let u = ten((3 - exponent) as nat);
            assert(ten(3) == 1000) by {
                reveal_with_fuel(ten, 4);
            }
            assert(v * t < 1000) by (nonlinear_arith)
                requires
                    v < u,
                    u * t == 1000,
                    t >= 1,
            ;
        }
        let mut head: u64 = v;
        let mut i: i128 = 0;
        assert(ten(0) == 1);
        assert(v * 1 == v);
        while i < exponent
            invariant
                0 <= i <= exponent <= 3,
                head == v * ten(i as nat),
                v * ten(exponent as nat) < 1000,
            decreases exponent - i,
        {
            proof {
                let t = ten(i as nat);
                let u = ten(exponent as nat);
                lemma_ten_monotone((i + 1) as nat, exponent as nat);
                assert(v * (10 * t) == 10 * (v * t)) by (nonlinear_arith);
                assert(v * (10 * t) <= v * u) by (nonlinear_arith)
                    requires
                        10 * t <= u,
                        v >= 0,
                ;
            }
            head = 10 * head;
            i += 1;
        }
        let none: Vec<u8> = Vec::new();
        assert(head * 1 == head);
        return (head, none);
    }
    if -exponent < len as i128 {
        let places: usize = (-exponent) as usize;
        let whole = vstd::slice::slice_subrange(s, 0, len - places);
        let rest = vstd::slice::slice_subrange(s, len - places, len);
        assert(all_digits(whole@)) by {
            assert forall|i: int| 0 <= i < whole@.len() implies is_digit(#[trigger] whole@[i]) by {
                assert(whole@[i] == s@[i]);
            }
        }
        assert(all_digits(rest@)) by {
            assert forall|i: int| 0 <= i < rest@.len() implies is_digit(#[trigger] rest@[i]) by {
                assert(rest@[i] == s@[i + len - places]);
            }
        }
        let head: u64 = small_value(whole);
        let fraction = digit_values(rest);
        proof {
            lemma_value_bound(whole@);
            lemma_ten_monotone(whole@.len(), 3);
            assert(ten(3) == 1000) by {
                reveal_with_fuel(ten, 4);
            }
            assert(s@ =~= whole@ + rest@);
            lemma_value_append(whole@, rest@);
        }
        (head, fraction)
    } else {
        let digits = digit_values(s);
        let pad: usize = (-exponent - len as i128) as usize;
        let mut fraction: Vec<u8> = Vec::new();
        let mut i: usize = 0;
        while i < pad
            invariant
                i <= pad,
                fraction@.len() == i,
                is_decimal(fraction@),
                number(fraction@) == 0,
            decreases pad - i,
        {
            let ghost before = fraction@;
            fraction.push(0);
            assert(fraction@.drop_last() =~= before);
            i += 1;
        }
        let ghost zeros = fraction@;
        fraction.extend_from_slice(digits.as_slice());
        proof {
            assert(fraction@ =~= zeros + digits@);
            lemma_number_append(zeros, digits@);
            assert(0 * ten(digits@.len()) == 0) by (nonlinear_arith);
            assert forall|i: int| 0 <= i < fraction@.len() implies #[trigger] fraction@[i] <= 9 by {
                if i < zeros.len() {
                    assert(fraction@[i] == zeros[i]);
                } else {
                    assert(fraction@[i] == digits@[i - zeros.len()]);
                }
            }
            assert(0 * ten(fraction@.len()) == 0) by (nonlinear_arith);
        }
        (0, fraction)
    }
}

/// The number that at most three digits write.
fn small_value(s: &[char]) -> (v: u64)
    requires
        all_digits(s@),
        s@.len() <= 3,
    ensures
        v == value_of(s@),
        v < 1000,
{
    let mut v: u64 = 0;
    let mut i: usize = 0;
    proof {
        lemma_value_bound(s@);
        lemma_ten_monotone(s@.len(), 3);
        assert(ten(3) == 1000) by {
            reveal_with_fuel(ten, 4);
        }
    }
    while i < s.len()
        invariant
            i <= s@.len(),
            all_digits(s@),
            value_of(s@) < 1000,
            v == value_of(s@.take(i as int)),
            v < 1000,
        decreases s@.len() - i,
    {
        assert(is_digit(s@[i as int]));
        assert(s@.take(i + 1).drop_last() =~= s@.take(i as int));
        proof {
            lemma_value_grows(s@, i + 1);
        }
        let d: u32 = s[i] as u32 - 48;
        v = 10 * v + d as u64;
        i += 1;
    }
    assert(s@.take(s@.len() as int) =~= s@);
    v
}

pub(crate) proof fn lemma_value_append(a: Seq<char>, b: Seq<char>)
    ensures
        value_of(a + b) == value_of(a) * ten(b.len()) + value_of(b),
    decreases b.len(),
{
    let n = value_of(a);
    if b.len() == 0 {
        assert(a + b =~= a);
        assert(n * 1 == n);
    } else {
        assert((a + b).drop_last() =~= a + b.drop_last());
        lemma_value_append(a, b.drop_last());
        let t = ten((b.len() - 1) as nat);
        assert(10 * (n * t) == n * (10 * t)) by (nonlinear_arith);
    }
}

proof fn lemma_denominator(exponent: int)
    ensures
        denominator(exponent) >= 1,
{
    if exponent < 0 {
        lemma_ten((-exponent) as nat);
    }
}

/// Nothing, and what rounds to it, is zero at the finest scale.
proof fn lemma_nothing(n: nat, d: nat)
    requires
        d >= 1,
        n * pow2(1075) < d,
    ensures
        n < 1000 * d,
        nearest_double(n, d) == (0nat, FINEST_SCALE as nat),
        is_double((0, FINEST_SCALE as nat)),
{
    lemma_pow2_pos(1075);
    let p = pow2(1075);
    assert(n < d) by (nonlinear_arith)
        requires
            n * p < d,
            p >= 1,
            n >= 0,
    ;
    lemma_scale_of_nothing(n, d, 0);
    lemma_pow2_unfold(1075);
    let x = n * pow2(1074);
    assert(2 * x == n * (2 * pow2(1074))) by (nonlinear_arith)
        requires
            x == n * pow2(1074),
    ;
    vstd::arithmetic::div_mod::lemma_basic_div(x as int, d as int);
    vstd::arithmetic::div_mod::lemma_small_mod(x, d);
}

proof fn lemma_scale_of_nothing(n: nat, d: nat, s: nat)
    requires
        d >= 1,
        n * pow2(1075) < d,
        s <= 1074,
    ensures
        scale_from(n, d, s) == 1074,
    decreases 1074 - s,
{
    if s < 1074 {
        vstd::arithmetic::power2::lemma_pow2_strictly_increases(s, 1075);
        let p = pow2(s);
        let q = pow2(1075);
        assert(n * p < d) by (nonlinear_arith)
            requires
                n * q < d,
                p <= q,
                n >= 0,
        ;
        vstd::arithmetic::div_mod::lemma_basic_div((n * p) as int, d as int);
        lemma_scale_of_nothing(n, d, s + 1);
    }
}

/// Three doublings do not make ten.
proof fn lemma_eights(k: nat)
    ensures
        pow2(3 * k) <= ten(k),
    decreases k,
{
    lemma2_to64();
    if k > 0 {
        lemma_eights((k - 1) as nat);
        lemma_pow2_adds(3, (3 * (k - 1)) as nat);
        assert(3 + 3 * (k - 1) == 3 * k);
    }
}

/// A number whose first digit stands at the 360th place or behind is nothing.
proof fn lemma_tiny(s: Seq<char>, exponent: int)
    requires
        all_digits(s),
        s.len() + exponent <= -360,
    ensures
        numerator(s, exponent) < 1000 * denominator(exponent),
        nearest_double(numerator(s, exponent), denominator(exponent)) == (0nat, FINEST_SCALE as nat),
        is_double((0, FINEST_SCALE as nat)),
{
    let n = value_of(s);
    let d = ten((-exponent) as nat);
    lemma_value_bound(s);
    lemma_ten_monotone(s.len() + 360, (-exponent) as nat);
    lemma_ten_add(s.len(), 360);
    lemma_eights(359);
    assert(ten(360) == 10 * ten(359));
    lemma_ten(359);
    if 1075 < 1077 {
        vstd::arithmetic::power2::lemma_pow2_strictly_increases(1075, 1077);
    }
    let t = ten(s.len());
    let p = pow2(1075);
    let u = ten(360);
    assert(n * p < t * u) by (nonlinear_arith)
        requires
            n < t,
            p < u,
            n >= 0,
            p >= 0,
    {
        assert(n * p <= n * u);
        assert(n * u < t * u);
    }
    lemma_denominator(exponent);
    lemma_nothing(n, d);
}

/// A number with more than three digits before the point is out of range.
proof fn lemma_large(s: Seq<char>, exponent: int)
    requires
        all_digits(s),
        s.len() > 0,
        !is_zero(s[0]),
        s.len() + exponent > 3,
    ensures
        numerator(s, exponent) >= 1000 * denominator(exponent),
{
    lemma_leading_digit(s);
    assert(ten(3) == 1000) by {
        reveal_with_fuel(ten, 4);
    }
    let v = value_of(s);
    let l = (s.len() - 1) as nat;
    if exponent >= 0 {
        let e = exponent as nat;
        lemma_ten_add(l, e);
        lemma_ten_monotone(3, l + e);
        let a = ten(l);
        let t = ten(e);
        lemma_ten(e);
        assert(v * t >= a * t) by (nonlinear_arith)
            requires
                v >= a,
                t >= 0,
        ;
    } else {
        let k = (-exponent) as nat;
        lemma_ten_add(3, k);
        lemma_ten_monotone(3 + k, l);
    }
}

/// Reads a numeral whose sign has been taken off.
fn parse_unsigned(s: &[char], negative: bool) -> (r: Parsed)
    ensures
        is_reading(unsigned_numeral(s@, negative), r),
{
    if is_special_word(s) {
        return Parsed::OutOfRange;
    }
    let a: usize = run_of_digits(s, 0);
    let mut p: usize = 0;
    let mut b: usize = 0;
    if a < s.len() && s[a] == '.' {
        p = 1;
        b = run_of_digits(s, a + 1);
    } else {
        assert(all_digits(s@.subrange(a as int, a as int)));
    }
    assert(mantissa(s@) == (a as nat, p as nat, b as nat));
    if a == 0 && b == 0 {
        return Parsed::Invalid;
    }
    let e: i128 = match exponent_of(s, a + p + b) {
        Some(e) => e,
        None => {
            return Parsed::Invalid;
        },
    };
    let digits = mantissa_digits(s, a, p, b);
    let ghost truth = exponent_at(s@, (a + p + b) as int)->0 - b;
    parse_finite(digits.as_slice(), e - b as i128, negative, Ghost(truth))
}

/// Reads a numeral.
pub fn parse_numeral(text: &[char]) -> (r: Parsed)
    ensures
        is_reading(numeral(text@), r),
{
    let negative: bool = text.len() > 0 && text[0] == '-';
    let signed: bool = text.len() > 0 && (text[0] == '-' || text[0] == '+');
    let from: usize = if signed {
        1
    } else {
        0
    };
    let s = vstd::slice::slice_subrange(text, from, text.len());
    assert(s@ =~= text@.skip(sign_len(text@, 0)));
    parse_unsigned(s, negative)
}

// --- Laws --------------------------------------------------------------------

/// The digits of a number write it, and begin with a zero only where that is all.
pub proof fn law_decimal_reads_back(n: nat)
    ensures
        decimal(n).len() > 0,
        all_digits(decimal(n)),
        value_of(decimal(n)) == n,
        n > 0 ==> decimal(n)[0] != '0',
    decreases n,
{
    let s = decimal(n);
    if n >= 10 {
        law_decimal_reads_back(n / 10);
        let front = decimal(n / 10);
        assert(s.drop_last() =~= front);
        assert forall|i: int| 0 <= i < s.len() implies is_digit(#[trigger] s[i]) by {
            if i < front.len() {
                assert(s[i] == front[i]);
                assert(is_digit(front[i]));
            }
        }
        assert(s[0] == front[0]);
    } else {
        assert(s.drop_last() =~= Seq::<char>::empty());
        assert(value_of(s.drop_last()) == 0);
    }
}

proof fn lemma_run_ends(s: Seq<char>, i: int, n: nat)
    requires
        0 <= i,
        i + n <= s.len(),
        forall|k: int| i <= k < i + n ==> is_digit(#[trigger] s[k]),
        i + n < s.len() ==> !is_digit(s[i + n]),
    ensures
        digit_run(s, i) == n,
    decreases n,
{
    if n > 0 {
        assert(is_digit(s[i]));
        lemma_run_ends(s, i + 1, (n - 1) as nat);
    }
}

/// A text that begins with a digit or the point is read the same with a sign before it.
proof fn lemma_signs(s: Seq<char>)
    requires
        s.len() > 0,
        s[0] == '.' || is_digit(s[0]),
    ensures
        numeral(s) == unsigned_numeral(s, false),
        numeral(seq!['-'] + s) == unsigned_numeral(s, true),
        numeral(seq!['+'] + s) == unsigned_numeral(s, false),
        !is_special(s),
{
    let m = seq!['-'] + s;
    let p = seq!['+'] + s;
    assert(s.skip(0) =~= s);
    assert(m.skip(1) =~= s);
    assert(p.skip(1) =~= s);
    assert(m[0] == '-' && p[0] == '+');
    assert(lower(s[0]) != 105 && lower(s[0]) != 110);
}

/// Digits, a point and digits are the mantissa of a text that goes on with none of these.
proof fn lemma_mantissa(s: Seq<char>, whole: Seq<char>, part: Seq<char>)
    requires
        all_digits(whole),
        all_digits(part),
        whole.len() + 1 + part.len() <= s.len(),
        s.take(whole.len() + 1 + part.len() as int) == whole + seq!['.'] + part,
        whole.len() + 1 + part.len() < s.len() ==> !is_digit(s[whole.len() + 1 + part.len() as int]),
    ensures
        mantissa(s) == (whole.len(), 1nat, part.len()),
        s.subrange(0, whole.len() as int) == whole,
        s.subrange(whole.len() as int + 1, whole.len() + 1 + part.len() as int) == part,
{
    let a = whole.len() as int;
    let m = a + 1 + part.len();
    let t = s.take(m);
    assert(s[a] == '.') by {
        assert(t[a] == '.');
        assert(s[a] == t[a]);
    }
    assert forall|k: int| 0 <= k < a implies is_digit(#[trigger] s[k]) by {
        assert(s[k] == t[k]);
        assert(t[k] == whole[k]);
    }
    assert forall|k: int| a + 1 <= k < m implies is_digit(#[trigger] s[k]) by {
        assert(s[k] == t[k]);
        assert(t[k] == part[k - a - 1]);
    }
    lemma_run_ends(s, 0, whole.len());
    lemma_run_ends(s, a + 1, part.len());
    assert(s.subrange(0, a) =~= t.subrange(0, a));
    assert(t.subrange(0, a) =~= whole);
    assert(s.subrange(a + 1, m) =~= t.subrange(a + 1, m));
    assert(t.subrange(a + 1, m) =~= part);
}

/// A letter `e`, a sign or none and digits to the end are an exponent.
proof fn lemma_exponent(s: Seq<char>, m: int, down: bool, power: nat)
    requires
        0 <= m <= s.len(),
        s.skip(m) == seq!['e'] + (if down {
            seq!['-']
        } else {
            Seq::empty()
        }) + decimal(power),
    ensures
        exponent_at(s, m) == Some(
            if down {
                -(power as int)
            } else {
                power as int
            },
        ),
        m < s.len(),
        s[m] == 'e',
{
    let sign = if down {
        seq!['-']
    } else {
        Seq::empty()
    };
    let x = decimal(power);
    law_decimal_reads_back(power);
    let t = s.skip(m);
    let g = m + 1 + sign.len();
    assert(t.len() == 1 + sign.len() + x.len());
    assert(s[m] == t[0]);
    assert(s[m + 1] == t[1]);
    if !down {
        assert(t[1] == x[0]);
        assert(is_digit(x[0]));
    }
    assert(sign_len(s, m + 1) == sign.len());
    assert forall|k: int| g <= k < s.len() implies is_digit(#[trigger] s[k]) by {
        assert(s[k] == t[k - m]);
        assert(t[k - m] == x[k - g]);
    }
    lemma_run_ends(s, g, x.len());
    assert(s.subrange(g, g + x.len()) =~= x) by {
        assert forall|k: int| 0 <= k < x.len() implies s.subrange(g, g + x.len())[k] == x[k] by {
            assert(s[g + k] == t[g + k - m]);
        }
    }
}

/// Digits with a point among or around them, a letter `e` and a signed number behind them
/// are the digits, times ten to the power of that number less the number of digits behind
/// the point. A minus sign before them negates the whole.
pub proof fn law_numeral_with_exponent(whole: Seq<char>, part: Seq<char>, down: bool, power: nat)
    requires
        all_digits(whole),
        all_digits(part),
        whole.len() + part.len() > 0,
    ensures
        ({
            let plain = whole + seq!['.'] + part + seq!['e'] + (if down {
                seq!['-']
            } else {
                Seq::empty()
            }) + decimal(power);
            let exponent = (if down {
                -(power as int)
            } else {
                power as int
            }) - part.len();
            &&& numeral(plain) == Some(Numeral::Finite { negative: false, digits: whole + part, exponent })
            &&& numeral(seq!['-'] + plain) == Some(Numeral::Finite { negative: true, digits: whole + part, exponent })
            &&& numeral(seq!['+'] + plain) == Some(Numeral::Finite { negative: false, digits: whole + part, exponent })
        }),
{
    let tail = seq!['e'] + (if down {
        seq!['-']
    } else {
        Seq::empty()
    }) + decimal(power);
    let front = whole + seq!['.'] + part;
    let s = front + tail;
    assert(whole + seq!['.'] + part + seq!['e'] + (if down {
        seq!['-']
    } else {
        Seq::empty()
    }) + decimal(power) =~= s);
    let m = front.len() as int;
    assert(s.skip(m) =~= tail);
    assert(s.take(m) =~= front);
    lemma_exponent(s, m, down, power);
    lemma_mantissa(s, whole, part);
    assert(s[0] == front[0]);
    assert(whole.len() > 0 ==> front[0] == whole[0] && is_digit(whole[0]));
    lemma_signs(s);
}

/// Digits alone, or with a point among or around them, are the number that they write, times
/// a tenth for every digit behind the point.
pub proof fn law_numeral_without_exponent(whole: Seq<char>, part: Seq<char>)
    requires
        all_digits(whole),
        all_digits(part),
        whole.len() + part.len() > 0,
    ensures
        ({
            let s = whole + seq!['.'] + part;
            let n = Numeral::Finite { negative: false, digits: whole + part, exponent: -(part.len() as int) };
            let m = Numeral::Finite { negative: true, digits: whole + part, exponent: -(part.len() as int) };
            &&& numeral(s) == Some(n)
            &&& numeral(seq!['-'] + s) == Some(m)
            &&& numeral(seq!['+'] + s) == Some(n)
        }),
        whole.len() > 0 ==> numeral(whole) == Some(
            Numeral::Finite { negative: false, digits: whole, exponent: 0 },
        ),
        whole.len() > 0 ==> numeral(seq!['-'] + whole) == Some(
            Numeral::Finite { negative: true, digits: whole, exponent: 0 },
        ),
{
    let s = whole + seq!['.'] + part;
    let a = whole.len() as int;
    assert(s.take(s.len() as int) =~= s);
    lemma_mantissa(s, whole, part);
    assert(whole.len() > 0 ==> s[0] == whole[0] && is_digit(whole[0]));
    lemma_signs(s);
    if a > 0 {
        lemma_run_ends(whole, 0, whole.len());
        lemma_signs(whole);
        assert(whole.subrange(0, a) + whole.subrange(a, a) =~= whole);
    }
}

/// The magnitude of a number that is not huge is its digits times its power of ten, less
/// than 1000, to within half of what double precision tells apart.
pub proof fn law_numeral_has_its_value(negative: bool, digits: Seq<char>, exponent: int)
    ensures
        ({
            let n = Numeral::Finite { negative, digits, exponent };
            &&& n.sign() == negative
            &&& exponent >= 0 ==> (n.is_huge() <==> value_of(digits) * ten(exponent as nat) >= 1000)
            &&& exponent < 0 ==> (n.is_huge() <==> value_of(digits) >= 1000 * ten((-exponent) as nat))
            &&& exponent >= 0 ==> n.double() == nearest_double(value_of(digits) * ten(exponent as nat), 1)
            &&& exponent < 0 ==> n.double() == nearest_double(value_of(digits), ten((-exponent) as nat))
            &&& Numeral::Special.is_huge()
        }),
{
}

/// Trimming takes white space off both ends and nothing else, and leaves none there.
pub proof fn law_trimming_takes_white_space(s: Seq<char>)
    ensures
        exists|a: int, b: int|
            {
                &&& 0 <= a <= b <= s.len()
                &&& trimmed(s) == #[trigger] s.subrange(a, b)
                &&& forall|i: int| 0 <= i < a || b <= i < s.len() ==> is_space(#[trigger] s[i])
            },
        trimmed(s).len() > 0 ==> !is_space(trimmed(s)[0]) && !is_space(trimmed(s).last()),
{
    let a = lemma_trimmed_start(s);
    let t = trimmed_start(s);
    let b = lemma_trimmed_end(t);
    assert(trimmed(s) =~= s.subrange(a, a + b));
    assert forall|i: int| 0 <= i < a || a + b <= i < s.len() implies is_space(#[trigger] s[i]) by {
        if i >= a + b {
            assert(t[i - a] == s[i]);
        }
    }
    if trimmed(s).len() > 0 {
        assert(trimmed(s)[0] == t[0]);
    }
}

proof fn lemma_trimmed_start(s: Seq<char>) -> (a: int)
    ensures
        0 <= a <= s.len(),
        trimmed_start(s) == s.skip(a),
        forall|i: int| 0 <= i < a ==> is_space(#[trigger] s[i]),
        a < s.len() ==> !is_space(s[a]),
    decreases s.len(),
{
    if s.len() > 0 && is_space(s[0]) {
        let a = lemma_trimmed_start(s.skip(1));
        assert(s.skip(1).skip(a) =~= s.skip(a + 1));
        assert forall|i: int| 0 <= i < a + 1 implies is_space(#[trigger] s[i]) by {
            if i > 0 {
                assert(s.skip(1)[i - 1] == s[i]);
            }
        }
        a + 1
    } else {
        assert(s.skip(0) =~= s);
        0
    }
}

proof fn lemma_trimmed_end(s: Seq<char>) -> (b: int)
    ensures
        0 <= b <= s.len(),
        trimmed_end(s) == s.take(b),
        forall|i: int| b <= i < s.len() ==> is_space(#[trigger] s[i]),
        b > 0 ==> !is_space(s[b - 1]),
    decreases s.len(),
{
    if s.len() > 0 && is_space(s.last()) {
        let front = s.drop_last();
        let b = lemma_trimmed_end(front);
        assert(front.take(b) =~= s.take(b));
        assert forall|i: int| b <= i < s.len() implies is_space(#[trigger] s[i]) by {
            if i < front.len() {
                assert(front[i] == s[i]);
            }
        }
        b
    } else {
        assert(s.take(s.len() as int) =~= s);
        s.len() as int
    }
}

} // verus!

//! Text: fixed-capacity strings, hexadecimal digits, and building strings.
//!
//! Fixed-capacity strings come from the `arrayvec` crate. What they hold is named
//! by [`text_of_6`], [`text_of_8`] and [`text_of_28`], one name per capacity.

use arrayvec::ArrayString;
use vstd::prelude::*;
use vstd::string::StringExecFns;

verus! {

/// `arrayvec::ArrayString`: a string in a buffer of `CAP` bytes.
#[verifier::external_type_specification]
#[verifier::external_body]
pub struct ExArrayString<const CAP: usize>(arrayvec::ArrayString<CAP>);

/// The characters in a string of capacity 6.
pub uninterp spec fn text_of_6(s: ArrayString<6>) -> Seq<char>;

/// The characters in a string of capacity 8.
pub uninterp spec fn text_of_8(s: ArrayString<8>) -> Seq<char>;

/// The characters in a string of capacity 28.
pub uninterp spec fn text_of_28(s: ArrayString<28>) -> Seq<char>;

/// Every character is ASCII, so that it takes one byte.
pub open spec fn all_ascii(s: Seq<char>) -> bool {
    forall|i: int| 0 <= i < s.len() ==> (#[trigger] s[i] as u32) < 128
}

/// `ArrayString::new`: the string is empty.
#[verifier::external_body]
pub(crate) fn empty_6() -> (s: ArrayString<6>)
    ensures
        text_of_6(s) == Seq::<char>::empty(),
{
    ArrayString::new()
}

/// `ArrayString::new`: the string is empty.
#[verifier::external_body]
pub(crate) fn empty_8() -> (s: ArrayString<8>)
    ensures
        text_of_8(s) == Seq::<char>::empty(),
{
    ArrayString::new()
}

/// `ArrayString::new`: the string is empty.
#[verifier::external_body]
pub(crate) fn empty_28() -> (s: ArrayString<28>)
    ensures
        text_of_28(s) == Seq::<char>::empty(),
{
    ArrayString::new()
}

/// `ArrayString::push`: the character is appended. It panics when the buffer is
/// full; while all is ASCII, it is full at 6 characters.
#[verifier::external_body]
pub(crate) fn push_6(s: &mut ArrayString<6>, c: char)
    requires
        text_of_6(*old(s)).len() < 6,
        all_ascii(text_of_6(*old(s))),
        (c as u32) < 128,
    ensures
        text_of_6(*final(s)) == text_of_6(*old(s)).push(c),
{
    s.push(c);
}

/// `ArrayString::push`: the character is appended. It panics when the buffer is
/// full; while all is ASCII, it is full at 8 characters.
#[verifier::external_body]
pub(crate) fn push_8(s: &mut ArrayString<8>, c: char)
    requires
        text_of_8(*old(s)).len() < 8,
        all_ascii(text_of_8(*old(s))),
        (c as u32) < 128,
    ensures
        text_of_8(*final(s)) == text_of_8(*old(s)).push(c),
{
    s.push(c);
}

/// `ArrayString::push`: the character is appended. It panics when the buffer is
/// full; while all is ASCII, it is full at 28 characters.
#[verifier::external_body]
pub(crate) fn push_28(s: &mut ArrayString<28>, c: char)
    requires
        text_of_28(*old(s)).len() < 28,
        all_ascii(text_of_28(*old(s))),
        (c as u32) < 128,
    ensures
        text_of_28(*final(s)) == text_of_28(*old(s)).push(c),
{
    s.push(c);
}

/// `ArrayString::pop`: the last character is removed and returned.
#[verifier::external_body]
pub(crate) fn pop_8(s: &mut ArrayString<8>) -> (c: Option<char>)
    ensures
        text_of_8(*old(s)).len() == 0 ==> c is None && text_of_8(*final(s)) == text_of_8(*old(s)),
        text_of_8(*old(s)).len() > 0 ==> c == Some(text_of_8(*old(s)).last()) && text_of_8(*final(s))
            == text_of_8(*old(s)).drop_last(),
{
    s.pop()
}

/// `ArrayString::as_str`: the characters as a string slice.
#[verifier::external_body]
pub(crate) fn str_of_8(s: &ArrayString<8>) -> (t: &str)
    ensures
        t@ == text_of_8(*s),
{
    s.as_str()
}

/// `ArrayString::as_str`: the characters as a string slice.
#[verifier::external_body]
pub(crate) fn str_of_28(s: &ArrayString<28>) -> (t: &str)
    ensures
        t@ == text_of_28(*s),
{
    s.as_str()
}

/// `ArrayString::eq`: two strings are equal when their characters are.
#[verifier::external_body]
pub(crate) fn same_8(a: &ArrayString<8>, b: &ArrayString<8>) -> (yes: bool)
    ensures
        yes == (text_of_8(*a) == text_of_8(*b)),
{
    a == b
}

/// `String::push`: the character is appended.
#[verifier::external_body]
pub(crate) fn push_char(s: &mut String, c: char)
    ensures
        final(s)@ == old(s)@.push(c),
{
    s.push(c);
}

/// A text in lower case, as Unicode defines it.
pub uninterp spec fn lowercase(s: Seq<char>) -> Seq<char>;

/// An ASCII character in lower case.
pub open spec fn lower_char(c: char) -> char {
    if 65 <= c as u32 <= 90 {
        (c as u32 + 32) as u8 as char
    } else {
        c
    }
}

/// `str::to_lowercase`: the text in lower case. In a text that is all ASCII, each of
/// the letters `A` to `Z` becomes its counterpart and nothing else changes.
#[verifier::external_body]
pub(crate) fn lower_text(s: &str) -> (t: String)
    ensures
        t@ == lowercase(s@),
        all_ascii(s@) ==> t@ == s@.map_values(|c: char| lower_char(c)),
{
    s.to_lowercase()
}

/// The characters as a string.
pub(crate) fn string_of(chars: &[char]) -> (s: String)
    ensures
        s@ == chars@,
{
    let mut s = String::new();
    let mut i: usize = 0;
    while i < chars.len()
        invariant
            i <= chars@.len(),
            s@ == chars@.take(i as int),
        decreases chars@.len() - i,
    {
        push_char(&mut s, chars[i]);
        i += 1;
        assert(s@ =~= chars@.take(i as int));
    }
    assert(chars@.take(chars@.len() as int) =~= chars@);
    s
}

// --- Hexadecimal -------------------------------------------------------------

/// The hexadecimal digits.
pub const HEX_DIGITS: [char; 16] = [
    '0', '1', '2', '3', '4', '5', '6', '7', '8', '9', 'A', 'B', 'C', 'D', 'E', 'F',
];

/// The digit that stands for `n`.
pub open spec fn hex_digit(n: int) -> char {
    HEX_DIGITS@[n]
}

/// Two digits per byte.
pub open spec fn hex_of(bytes: Seq<u8>) -> Seq<char> {
    Seq::new(
        2 * bytes.len(),
        |i: int|
            if i % 2 == 0 {
                hex_digit(bytes[i / 2] as int / 16)
            } else {
                hex_digit(bytes[i / 2] as int % 16)
            },
    )
}

pub(crate) fn hex_char(n: u8) -> (c: char)
    requires
        n < 16,
    ensures
        c == hex_digit(n as int),
        (c as u32) < 128,
{
    proof {
        lemma_hex_digits(n as int);
    }
    HEX_DIGITS[n as usize]
}

/// The digits are ASCII, and distinct.
pub proof fn lemma_hex_digits(n: int)
    requires
        0 <= n < 16,
    ensures
        (hex_digit(n) as u32) < 128,
        n < 10 ==> hex_digit(n) as u32 == 48 + n,
        n >= 10 ==> hex_digit(n) as u32 == 55 + n,
{
}

/// The value of a hexadecimal digit of either case.
pub open spec fn hex_value(c: char) -> Option<int> {
    if 48 <= c as u32 <= 57 {
        Some(c as u32 - 48)
    } else if 65 <= c as u32 <= 70 {
        Some(c as u32 - 55)
    } else if 97 <= c as u32 <= 102 {
        Some(c as u32 - 87)
    } else {
        None
    }
}

pub(crate) fn hex_value_of(c: char) -> (v: Option<u8>)
    ensures
        match v {
            Some(n) => hex_value(c) == Some(n as int) && n < 16,
            None => hex_value(c) is None,
        },
{
    let u: u32 = c as u32;
    if 48 <= u && u <= 57 {
        Some((u - 48) as u8)
    } else if 65 <= u && u <= 70 {
        Some((u - 55) as u8)
    } else if 97 <= u && u <= 102 {
        Some((u - 87) as u8)
    } else {
        None
    }
}

// --- Decimal -----------------------------------------------------------------

/// The decimal digits of a number.
pub open spec fn decimal(n: nat) -> Seq<char>
    decreases n,
{
    if n < 10 {
        seq![hex_digit(n as int)]
    } else {
        decimal(n / 10).push(hex_digit(n as int % 10))
    }
}

/// The decimal digits of a number, behind a minus sign if it is negative.
pub open spec fn signed_decimal(n: int) -> Seq<char> {
    if n < 0 {
        seq!['-'] + decimal((-n) as nat)
    } else {
        decimal(n as nat)
    }
}

/// Appends the decimal digits of a number.
pub(crate) fn push_decimal(s: &mut String, n: u64)
    ensures
        final(s)@ == old(s)@ + decimal(n as nat),
    decreases n,
{
    let ghost before = s@;
    if n >= 10 {
        push_decimal(s, n / 10);
    }
    push_char(s, hex_char((n % 10) as u8));
    assert(s@ =~= before + decimal(n as nat));
}

/// Appends the decimal digits of a number, behind a minus sign if it is negative.
pub(crate) fn push_signed(s: &mut String, n: i64)
    requires
        n > i64::MIN,
    ensures
        final(s)@ == old(s)@ + signed_decimal(n as int),
{
    let ghost before = s@;
    if n < 0 {
        push_char(s, '-');
        push_decimal(s, (-n) as u64);
    } else {
        push_decimal(s, n as u64);
    }
    assert(s@ =~= before + signed_decimal(n as int));
}

/// Appends a text.
pub(crate) fn push_text(s: &mut String, t: &str)
    ensures
        final(s)@ == old(s)@ + t@,
{
    s.append(t);
}

/// Appends the two hexadecimal digits of every byte.
pub(crate) fn push_hex(s: &mut String, bytes: &[u8])
    ensures
        final(s)@ == old(s)@ + hex_of(bytes@),
{
    let ghost before = s@;
    let mut i: usize = 0;
    assert(before + hex_of(bytes@).take(0) =~= before);
    while i < bytes.len()
        invariant
            i <= bytes@.len(),
            s@ == before + hex_of(bytes@).take(2 * i),
        decreases bytes@.len() - i,
    {
        push_char(s, hex_char(bytes[i] / 16));
        push_char(s, hex_char(bytes[i] % 16));
        i += 1;
        assert(s@ =~= before + hex_of(bytes@).take(2 * i));
    }
    assert(hex_of(bytes@).take(2 * bytes@.len() as int) =~= hex_of(bytes@));
}

} // verus!

//! AVR text lines: `*` then the frame in hexadecimal, then `;` and a line end.

use crate::frame::{Frame, FrameModel};
use crate::text::{hex_of, hex_value, lemma_hex_digits, push_char, push_hex};
use vstd::prelude::*;

verus! {

/// Conventional port of the raw text output.
pub const DEFAULT_PORT: u16 = 30_002;

/// The line that carries a frame.
pub open spec fn avr_line(frame: FrameModel) -> Seq<char> {
    seq!['*'] + hex_of(frame.bytes) + seq![';', '\r', '\n']
}

/// Frames with the same line have the same bytes.
pub proof fn law_line_tells_frame(a: FrameModel, b: FrameModel)
    requires
        avr_line(a) == avr_line(b),
    ensures
        a.bytes == b.bytes,
{
    assert(avr_line(a).len() == 2 * a.bytes.len() + 4);
    assert forall|i: int| 0 <= i < a.bytes.len() implies a.bytes[i] == b.bytes[i] by {
        assert(avr_line(a)[1 + 2 * i] == hex_of(a.bytes)[2 * i]);
        assert(avr_line(b)[1 + 2 * i] == hex_of(b.bytes)[2 * i]);
        assert(avr_line(a)[2 + 2 * i] == hex_of(a.bytes)[2 * i + 1]);
        assert(avr_line(b)[2 + 2 * i] == hex_of(b.bytes)[2 * i + 1]);
        lemma_hex_digits(a.bytes[i] as int / 16);
        lemma_hex_digits(a.bytes[i] as int % 16);
        lemma_hex_digits(b.bytes[i] as int / 16);
        lemma_hex_digits(b.bytes[i] as int % 16);
    }
    assert(a.bytes =~= b.bytes);
}

/// A line is an asterisk, two digits for each byte, the high one first, a semicolon and a
/// line end.
pub proof fn law_line_has_two_digits_per_byte(frame: FrameModel, k: int)
    requires
        0 <= k < frame.bytes.len(),
    ensures
        ({
            let line = avr_line(frame);
            let n = frame.bytes.len() as int;
            &&& line.len() == 2 * n + 4
            &&& line[0] == '*'
            &&& hex_value(line[1 + 2 * k]) is Some
            &&& hex_value(line[2 + 2 * k]) is Some
            &&& 16 * hex_value(line[1 + 2 * k])->0 + hex_value(line[2 + 2 * k])->0 == frame.bytes[k]
            &&& line[2 * n + 1] == ';'
            &&& line[2 * n + 2] == '\r'
            &&& line[2 * n + 3] == '\n'
        }),
{
    let line = avr_line(frame);
    let h = hex_of(frame.bytes);
    assert(line[1 + 2 * k] == h[2 * k]);
    assert(line[2 + 2 * k] == h[2 * k + 1]);
    lemma_hex_digits(frame.bytes[k] as int / 16);
    lemma_hex_digits(frame.bytes[k] as int % 16);
}

/// The line that carries a frame.
#[must_use]
pub fn encode_line(frame: &Frame) -> (line: String)
    ensures
        line@ == avr_line(frame@),
{
    let bytes = frame.bytes();
    let mut line = String::new();
    push_char(&mut line, '*');
    push_hex(&mut line, bytes);
    push_char(&mut line, ';');
    push_char(&mut line, '\r');
    push_char(&mut line, '\n');
    assert(line@ =~= avr_line(frame@));
    line
}

/// The line for a frame whose CRC holds; nothing for any other.
#[must_use]
pub fn feed(frame: &Frame) -> (line: Option<String>)
    ensures
        match line {
            Some(s) => frame@.is_validated() && s@ == avr_line(frame@),
            None => !frame@.is_validated(),
        },
{
    if frame.is_validated() {
        Some(encode_line(frame))
    } else {
        None
    }
}

} // verus!
